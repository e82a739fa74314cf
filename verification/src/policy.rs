//! The scheduling queue: pending requests of client processes, the
//! statistics of every known client, multi-level-feedback aging of their
//! priorities, and the order in which requests are served.

use vstd::prelude::*;
use std::collections::VecDeque;
use crate::clock::Clock;
use crate::priority::{
    level_rank, priority_level, spec_decrease, spec_increase, spec_time_quantum,
    priority_level_to_time_quantum, Priority, PriorityLevel,
};
use crate::statistics::{
    client_view_wf, sat_add, sat_sub, spec_idle_since, spec_make_active, spec_make_idle,
    spec_client_state, spec_make_resident_idle, spec_new_client, spec_update_if_active, spec_with_priority,
    ClientState, ClientStatistics, ClientStatsView, RunningChunk, StopReason,
};

verus! {

/// Memory a process asks for before it may run: per process-local device,
/// the sizes of the allocations it needs.
pub struct MemoryRequest {
    pub mem_req: Vec<(i32, Vec<u64>)>,
}

/// What a process tells the scheduler about its activity.
pub enum ActivityUpdateContent {
    Idle,
    RequestScheduling,
    YieldThenRequestSchedulingAndMem { memory_request: MemoryRequest },
}

/// A numbered activity message from a process.
pub struct ActivityUpdate {
    pub message_id: u64,
    pub content: ActivityUpdateContent,
}

/// A request to be scheduled onto the devices.
pub struct SchedRequest {
    pub pid: i32,
    pub args: ActivityUpdate,
    pub time: u64,
}

/// Whether an idle notice means the process is done or only yields.
#[derive(Debug, Clone, Copy, PartialEq, Eq, Structural)]
pub enum IdleRequestType {
    Idle,
    Yield,
}

/// A notice that a process stopped using the devices.
#[derive(Debug, Clone, Copy, PartialEq, Eq, Structural)]
pub struct IdleRequest {
    pub pid: i32,
    pub time: u64,
    pub request_type: IdleRequestType,
}

/// A prefetch order from the control tool, carrying its reply channel.
pub struct PrefetchRequest<P> {
    pub time: u64,
    pub parameter: P,
}

/// The next thing the scheduler has to handle.
pub enum GenericRequest<P> {
    Idle(IdleRequest),
    Schedule(SchedRequest),
    Prefetch(PrefetchRequest<P>),
}

impl<P> GenericRequest<P> {
    /// The process a request comes from, if any.
    pub fn pid(&self) -> (pid: Option<i32>)
        ensures
            pid == (match self {
                GenericRequest::Idle(r) => Some(r.pid),
                GenericRequest::Schedule(r) => Some(r.pid),
                GenericRequest::Prefetch(_) => None::<i32>,
            }),
    {
        match self {
            GenericRequest::Idle(req) => Some(req.pid),
            GenericRequest::Schedule(req) => Some(req.pid),
            GenericRequest::Prefetch(_) => None,
        }
    }

    /// The kind of a request, for logging.
    pub fn req_type(&self) -> (name: &'static str)
        ensures
            name@ == (match self {
                GenericRequest::Idle(_) => "Idle"@,
                GenericRequest::Schedule(_) => "Schedule"@,
                GenericRequest::Prefetch(_) => "Prefetch"@,
            }),
    {
        proof {
            reveal_strlit("Idle");
            reveal_strlit("Schedule");
            reveal_strlit("Prefetch");
        }
        match self {
            GenericRequest::Idle(_) => "Idle",
            GenericRequest::Schedule(_) => "Schedule",
            GenericRequest::Prefetch(_) => "Prefetch",
        }
    }
}

/// Which process holds, or last held, the devices.
#[derive(Debug, Clone, Copy, PartialEq, Eq, Structural)]
pub enum ActiveClientState {
    NoClient,
    Active { pid: i32, since: u64 },
    LastActive { pid: i32, last_active: u64 },
}

/// The process currently holding the devices, if any.
pub open spec fn active_pid(a: ActiveClientState) -> Option<i32> {
    match a {
        ActiveClientState::Active { pid, .. } => Some(pid),
        _ => None,
    }
}

/// Whether the front scheduling request may preempt the running process.
#[derive(Debug, Clone, Copy, PartialEq, Eq, Structural)]
pub enum PreemptionDecision {
    AllowPreempt { follow_same_priority_cooldown: bool },
    DenyPreempt,
}

/// A change of a client's priority ordered from the control tool.
#[derive(Debug, Clone, Copy, PartialEq, Eq, Structural)]
pub enum SetPriorityLevel {
    FixToDynamic,
    UnsetToDefault,
    SetTo(Priority),
}

/// The answer to a priority change.
#[derive(Debug, Clone, Copy, PartialEq, Eq, Structural)]
pub enum SetPriorityResponse {
    Success,
    FailureProcessNotExist,
    FailurePriorityNotFixed,
}

/// The answer to a state query: the client's priority and state, or
/// nothing for an unknown process.
#[derive(Debug, Clone, Copy, PartialEq, Eq, Structural)]
pub struct GetStateResponse {
    pub priority: Option<Priority>,
    pub state: Option<ClientState>,
}

/// Whether some client in `cs` has process id `pid`.
pub open spec fn has_pid(cs: Seq<ClientStatsView>, pid: i32) -> bool {
    exists|i: int| 0 <= i < cs.len() && (#[trigger] cs[i]).pid == pid
}

/// The position of the client with process id `pid` in `cs`.
pub open spec fn pid_index(cs: Seq<ClientStatsView>, pid: i32) -> int {
    choose|i: int| 0 <= i < cs.len() && (#[trigger] cs[i]).pid == pid
}

/// No two clients share a process id.
pub open spec fn pids_unique(cs: Seq<ClientStatsView>) -> bool {
    forall|i: int, j: int| 0 <= i < cs.len() && 0 <= j < cs.len() && i != j ==> (#[trigger] cs[i]).pid != (#[trigger] cs[j]).pid
}

/// The rank of the level of the client with process id `pid`.
pub open spec fn rank_of(cs: Seq<ClientStatsView>, pid: i32) -> int {
    level_rank(priority_level(cs[pid_index(cs, pid)].priority)) as int
}

/// The clients after `pid` is made known at `now`.
pub open spec fn spec_get_or_insert(cs: Seq<ClientStatsView>, pid: i32, now: u64) -> Seq<ClientStatsView> {
    if has_pid(cs, pid) {
        cs
    } else {
        cs.push(spec_new_client(pid, now))
    }
}

/// How long the feedback levels may go without being reset (300 s).
pub const MLFQ_RESET_INTERVAL: u64 = 300_000_000_000;

/// How long the running process must keep a priority before it is
/// lowered (10 s).
pub const MIN_PRIORITY_HOLD: u64 = 10_000_000_000;

/// A client after a reset of the feedback levels at `now`: dynamic
/// priorities return to the default, fixed ones are kept.
pub open spec fn spec_reset_client(c: ClientStatsView, now: u64) -> ClientStatsView {
    if c.priority is Dynamic {
        spec_with_priority(c, Priority::Dynamic { level: PriorityLevel::Interactive, weight: 0 }, now)
    } else {
        c
    }
}

/// A client after one aging step at `now`. The running process, its time
/// brought up to date, is lowered (not below batch) once it has used its
/// quantum and kept its priority for `MIN_PRIORITY_HOLD`. Another process
/// that used its quantum is lowered likewise; one that kept its priority
/// for two quanta and stayed idle longer than half a quantum plus the time
/// it used is raised.
pub open spec fn spec_age_client(c: ClientStatsView, running: bool, now: u64) -> ClientStatsView {
    if running {
        let c1 = spec_update_if_active(c, now);
        if c1.time_used > spec_time_quantum(priority_level(c1.priority))
            && sat_sub(now, c1.last_priority_update) > MIN_PRIORITY_HOLD {
            spec_with_priority(c1, spec_decrease(c1.priority, Some(PriorityLevel::Batch)).0, now)
        } else {
            c1
        }
    } else {
        let q = spec_time_quantum(priority_level(c.priority));
        if c.time_used > q {
            spec_with_priority(c, spec_decrease(c.priority, Some(PriorityLevel::Batch)).0, now)
        } else if sat_sub(now, c.last_priority_update) > 2 * q
            && spec_idle_since(c, now) is Some
            && spec_idle_since(c, now)->0 > sat_add((q / 2) as u64, c.time_used) {
            spec_with_priority(c, spec_increase(c.priority, None).0, now)
        } else {
            c
        }
    }
}

/// The decision whether the front request of `sched` may preempt.
pub open spec fn spec_can_preempt(
    sched: Seq<SchedRequest>,
    cs: Seq<ClientStatsView>,
    active: ActiveClientState,
) -> PreemptionDecision {
    match active {
        ActiveClientState::Active { pid, .. } => {
            if sched.len() == 0 {
                PreemptionDecision::AllowPreempt { follow_same_priority_cooldown: false }
            } else if sched[0].pid == pid {
                PreemptionDecision::AllowPreempt { follow_same_priority_cooldown: false }
            } else if has_pid(cs, pid) && has_pid(cs, sched[0].pid) {
                if rank_of(cs, sched[0].pid) >= rank_of(cs, pid) {
                    PreemptionDecision::AllowPreempt {
                        follow_same_priority_cooldown: rank_of(cs, sched[0].pid) == rank_of(cs, pid),
                    }
                } else {
                    PreemptionDecision::DenyPreempt
                }
            } else {
                PreemptionDecision::DenyPreempt
            }
        },
        _ => PreemptionDecision::AllowPreempt { follow_same_priority_cooldown: false },
    }
}

/// The scheduling queue.
pub struct ScheduleQueue<P> {
    sched_req: VecDeque<SchedRequest>,
    idle_req_queue: VecDeque<IdleRequest>,
    prefetch_queue: VecDeque<PrefetchRequest<P>>,
    clients: Vec<ClientStatistics>,
    cooldown_until: u64,
    active_client: ActiveClientState,
    last_mlfq_reset_timer: u64,
    clock: Clock,
}

impl<P> ScheduleQueue<P> {
    pub closed spec fn spec_sched(&self) -> Seq<SchedRequest> {
        self.sched_req@
    }

    pub closed spec fn spec_idle(&self) -> Seq<IdleRequest> {
        self.idle_req_queue@
    }

    pub closed spec fn spec_prefetch(&self) -> Seq<PrefetchRequest<P>> {
        self.prefetch_queue@
    }

    /// The clients known to the queue, in the order they became known.
    pub closed spec fn spec_clients(&self) -> Seq<ClientStatsView> {
        self.clients@.map_values(|c: ClientStatistics| c@)
    }

    pub closed spec fn spec_cooldown_until(&self) -> u64 {
        self.cooldown_until
    }

    pub closed spec fn spec_active(&self) -> ActiveClientState {
        self.active_client
    }

    pub closed spec fn spec_last_reset(&self) -> u64 {
        self.last_mlfq_reset_timer
    }

    /// Every client is well formed, process ids are unique, and every
    /// pending scheduling or idle request comes from a known client.
    pub closed spec fn wf(&self) -> bool {
        &&& forall|i: int| 0 <= i < self.clients@.len() ==> (#[trigger] self.clients@[i]).wf()
        &&& pids_unique(self.spec_clients())
        &&& forall|i: int| 0 <= i < self.sched_req@.len() ==> has_pid(self.spec_clients(), (#[trigger] self.sched_req@[i]).pid)
        &&& forall|i: int| 0 <= i < self.idle_req_queue@.len() ==> has_pid(self.spec_clients(), (#[trigger] self.idle_req_queue@[i]).pid)
    }

    /// The well-formedness of the queue, as stated over its views.
    pub proof fn lemma_wf_views(&self)
        requires
            self.wf(),
        ensures
            pids_unique(self.spec_clients()),
            forall|i: int| 0 <= i < self.spec_clients().len() ==> client_view_wf(#[trigger] self.spec_clients()[i]),
            forall|i: int| 0 <= i < self.spec_sched().len() ==> has_pid(self.spec_clients(), (#[trigger] self.spec_sched()[i]).pid),
            forall|i: int| 0 <= i < self.spec_idle().len() ==> has_pid(self.spec_clients(), (#[trigger] self.spec_idle()[i]).pid),
    {
        assert forall|i: int| 0 <= i < self.spec_clients().len() implies client_view_wf(#[trigger] self.spec_clients()[i]) by {
            self.clients@[i].lemma_wf_view();
        }
    }

    /// An empty queue whose cooldown and feedback timers start at `now`.
    pub fn new_at(clock: Clock, now: u64) -> (q: Self)
        ensures
            q.wf(),
            q.spec_sched() == Seq::<SchedRequest>::empty(),
            q.spec_idle() == Seq::<IdleRequest>::empty(),
            q.spec_prefetch() == Seq::<PrefetchRequest<P>>::empty(),
            q.spec_clients() == Seq::<ClientStatsView>::empty(),
            q.spec_cooldown_until() == now,
            q.spec_active() == ActiveClientState::NoClient,
            q.spec_last_reset() == now,
    {
        let q = ScheduleQueue {
            sched_req: VecDeque::new(),
            idle_req_queue: VecDeque::new(),
            prefetch_queue: VecDeque::new(),
            clients: Vec::new(),
            cooldown_until: now,
            active_client: ActiveClientState::NoClient,
            last_mlfq_reset_timer: now,
            clock,
        };
        proof { assert(q.spec_clients() =~= Seq::<ClientStatsView>::empty()); }
        q
    }

    /// An empty queue with its own clock.
    pub fn new() -> (q: Self)
        ensures
            q.wf(),
            q.spec_sched() == Seq::<SchedRequest>::empty(),
            q.spec_idle() == Seq::<IdleRequest>::empty(),
            q.spec_prefetch() == Seq::<PrefetchRequest<P>>::empty(),
            q.spec_clients() == Seq::<ClientStatsView>::empty(),
            q.spec_active() == ActiveClientState::NoClient,
    {
        let clock = Clock::new();
        let now = clock.now();
        Self::new_at(clock, now)
    }

    /// The position of the client with process id `pid`, if known.
    fn find_client(&self, pid: i32) -> (idx: Option<usize>)
        ensures
            match idx {
                Some(i) => i < self.clients@.len() && self.spec_clients()[i as int].pid == pid,
                None => !has_pid(self.spec_clients(), pid),
            },
    {
        let n = self.clients.len();
        let mut i: usize = 0;
        while i < n
            invariant
                n == self.clients@.len(),
                i <= n,
                forall|j: int| 0 <= j < i ==> (#[trigger] self.spec_clients()[j]).pid != pid,
            decreases n - i,
        {
            if self.clients[i].pid() == pid {
                return Some(i);
            }
            i += 1;
        }
        None
    }

    /// The priority and state of `pid`, as the control tool asks for them.
    pub fn get_state(&self, pid: i32) -> (r: GetStateResponse)
        requires
            self.wf(),
        ensures
            !has_pid(self.spec_clients(), pid) ==> r == (GetStateResponse { priority: None, state: None }),
            has_pid(self.spec_clients(), pid) ==> {
                let c = self.spec_clients()[pid_index(self.spec_clients(), pid)];
                r == (GetStateResponse { priority: Some(c.priority), state: Some(spec_client_state(c.state)) })
            },
    {
        match self.get_client(pid) {
            Some(stat) => GetStateResponse { priority: Some(stat.priority()), state: Some(stat.state_ref().as_client_state()) },
            None => GetStateResponse { priority: None, state: None },
        }
    }

    /// The recorded running periods of `pid`, oldest first; nothing for an
    /// unknown process.
    pub fn get_history(&self, pid: i32) -> (r: Option<Vec<RunningChunk>>)
        requires
            self.wf(),
        ensures
            !has_pid(self.spec_clients(), pid) ==> r is None,
            has_pid(self.spec_clients(), pid) ==> r is Some
                && r->0@ == self.spec_clients()[pid_index(self.spec_clients(), pid)].history,
    {
        match self.get_client(pid) {
            Some(stat) => Some(stat.get_history()),
            None => None,
        }
    }

    /// The statistics of `pid`, if it is known.
    pub fn get_client(&self, pid: i32) -> (c: Option<&ClientStatistics>)
        requires
            self.wf(),
        ensures
            match c {
                Some(c) => has_pid(self.spec_clients(), pid) && c@ == self.spec_clients()[pid_index(self.spec_clients(), pid)] && c.wf(),
                None => !has_pid(self.spec_clients(), pid),
            },
    {
        match self.find_client(pid) {
            Some(i) => {
                proof {
                    assert(has_pid(self.spec_clients(), pid));
                    let k = pid_index(self.spec_clients(), pid);
                    assert(k == i as int);
                }
                Some(&self.clients[i])
            },
            None => None,
        }
    }
}


impl<P> ScheduleQueue<P> {
    /// Makes `pid` known at `now` and returns its position.
    fn get_or_insert_index(&mut self, pid: i32, now: u64) -> (idx: usize)
        requires
            old(self).wf(),
        ensures
            final(self).wf(),
            final(self).spec_clients() == spec_get_or_insert(old(self).spec_clients(), pid, now),
            idx < final(self).spec_clients().len(),
            final(self).spec_clients()[idx as int].pid == pid,
            final(self).spec_sched() == old(self).spec_sched(),
            final(self).spec_idle() == old(self).spec_idle(),
            final(self).spec_prefetch() == old(self).spec_prefetch(),
            final(self).spec_cooldown_until() == old(self).spec_cooldown_until(),
            final(self).spec_active() == old(self).spec_active(),
            final(self).spec_last_reset() == old(self).spec_last_reset(),
    {
        match self.find_client(pid) {
            Some(i) => i,
            None => {
                let ghost old_cs = self.spec_clients();
                self.clients.push(ClientStatistics::new(pid, now));
                proof {
                    assert(self.spec_clients() =~= old_cs.push(spec_new_client(pid, now)));
                    let cs = self.spec_clients();
                    assert forall|k: int| 0 <= k < self.sched_req@.len() implies has_pid(cs, (#[trigger] self.sched_req@[k]).pid) by {
                        let w = choose|j: int| 0 <= j < old_cs.len() && (#[trigger] old_cs[j]).pid == self.sched_req@[k].pid;
                        assert(cs[w] == old_cs[w]);
                    }
                    assert forall|k: int| 0 <= k < self.idle_req_queue@.len() implies has_pid(cs, (#[trigger] self.idle_req_queue@[k]).pid) by {
                        let w = choose|j: int| 0 <= j < old_cs.len() && (#[trigger] old_cs[j]).pid == self.idle_req_queue@[k].pid;
                        assert(cs[w] == old_cs[w]);
                    }
                    assert forall|a: int, b: int| 0 <= a < cs.len() && 0 <= b < cs.len() && a != b implies (#[trigger] cs[a]).pid != (#[trigger] cs[b]).pid by {
                        if a < old_cs.len() && b < old_cs.len() {
                            assert(cs[a] == old_cs[a]);
                            assert(cs[b] == old_cs[b]);
                        } else if a < old_cs.len() {
                            assert(cs[a] == old_cs[a]);
                        } else {
                            assert(cs[b] == old_cs[b]);
                        }
                    }
                }
                self.clients.len() - 1
            },
        }
    }
}


/// The reply to a priority change of a known client with priority `p`,
/// and the priority the client gets.
pub open spec fn spec_set_priority(p: Priority, level: SetPriorityLevel) -> (SetPriorityResponse, Option<Priority>) {
    match level {
        SetPriorityLevel::FixToDynamic => match p {
            Priority::Fixed(l) => (SetPriorityResponse::Success, Some(Priority::Dynamic { level: l, weight: 0 })),
            Priority::Dynamic { .. } => (SetPriorityResponse::FailurePriorityNotFixed, None),
        },
        SetPriorityLevel::UnsetToDefault => match p {
            Priority::Dynamic { .. } => (SetPriorityResponse::FailurePriorityNotFixed, None),
            Priority::Fixed(_) => (SetPriorityResponse::Success, Some(Priority::Dynamic { level: PriorityLevel::Interactive, weight: 0 })),
        },
        SetPriorityLevel::SetTo(new_p) => (SetPriorityResponse::Success, Some(new_p)),
    }
}

impl<P> ScheduleQueue<P> {
    /// Changing the statistics at one position, without changing its
    /// process id, keeps the queue well formed.
    proof fn lemma_client_update_keeps_wf(
        old_q: &Self,
        new_q: &Self,
        i: int,
    )
        requires
            old_q.wf(),
            0 <= i < old_q.clients@.len(),
            new_q.clients@.len() == old_q.clients@.len(),
            forall|j: int| 0 <= j < old_q.clients@.len() && j != i ==> new_q.clients@[j] == old_q.clients@[j],
            new_q.clients@[i].wf(),
            new_q.clients@[i]@.pid == old_q.clients@[i]@.pid,
            new_q.sched_req@ == old_q.sched_req@,
            new_q.idle_req_queue@ == old_q.idle_req_queue@,
        ensures
            new_q.wf(),
            new_q.spec_clients() == old_q.spec_clients().update(i, new_q.clients@[i]@),
    {
        let oc = old_q.spec_clients();
        let nc = new_q.spec_clients();
        assert(nc =~= oc.update(i, new_q.clients@[i]@));
        assert forall|k: int| 0 <= k < new_q.sched_req@.len() implies has_pid(nc, (#[trigger] new_q.sched_req@[k]).pid) by {
            let w = choose|j: int| 0 <= j < oc.len() && (#[trigger] oc[j]).pid == new_q.sched_req@[k].pid;
            assert(nc[w].pid == oc[w].pid);
        }
        assert forall|k: int| 0 <= k < new_q.idle_req_queue@.len() implies has_pid(nc, (#[trigger] new_q.idle_req_queue@[k]).pid) by {
            let w = choose|j: int| 0 <= j < oc.len() && (#[trigger] oc[j]).pid == new_q.idle_req_queue@[k].pid;
            assert(nc[w].pid == oc[w].pid);
        }
        assert forall|a: int, b: int| 0 <= a < nc.len() && 0 <= b < nc.len() && a != b implies (#[trigger] nc[a]).pid != (#[trigger] nc[b]).pid by {
            assert(nc[a].pid == oc[a].pid);
            assert(nc[b].pid == oc[b].pid);
        }
    }

    /// Applies a priority change ordered from the control tool to `pid`,
    /// at time `now`.
    pub fn set_priority_at(&mut self, pid: i32, new_level: SetPriorityLevel, now: u64) -> (resp: SetPriorityResponse)
        requires
            old(self).wf(),
        ensures
            final(self).wf(),
            !has_pid(old(self).spec_clients(), pid) ==> {
                &&& resp == SetPriorityResponse::FailureProcessNotExist
                &&& final(self).spec_clients() == old(self).spec_clients()
            },
            has_pid(old(self).spec_clients(), pid) ==> {
                let i = pid_index(old(self).spec_clients(), pid);
                let c = old(self).spec_clients()[i];
                let (r, np) = spec_set_priority(c.priority, new_level);
                &&& resp == r
                &&& final(self).spec_clients() == (match np {
                    Some(p) => old(self).spec_clients().update(i, spec_with_priority(c, p, now)),
                    None => old(self).spec_clients(),
                })
            },
            final(self).spec_sched() == old(self).spec_sched(),
            final(self).spec_idle() == old(self).spec_idle(),
            final(self).spec_prefetch() == old(self).spec_prefetch(),
            final(self).spec_cooldown_until() == old(self).spec_cooldown_until(),
            final(self).spec_active() == old(self).spec_active(),
            final(self).spec_last_reset() == old(self).spec_last_reset(),
    {
        let i = match self.find_client(pid) {
            Some(i) => i,
            None => {
                return SetPriorityResponse::FailureProcessNotExist;
            },
        };
        proof {
            assert(has_pid(self.spec_clients(), pid));
            assert(pid_index(self.spec_clients(), pid) == i as int);
        }
        let current = self.clients[i].priority();
        let np = match new_level {
            SetPriorityLevel::FixToDynamic => match current {
                Priority::Fixed(level) => Priority::Dynamic { level, weight: 0 },
                Priority::Dynamic { .. } => {
                    return SetPriorityResponse::FailurePriorityNotFixed;
                },
            },
            SetPriorityLevel::UnsetToDefault => match current {
                Priority::Dynamic { .. } => {
                    return SetPriorityResponse::FailurePriorityNotFixed;
                },
                Priority::Fixed(_) => Priority::default_dynamic(),
            },
            SetPriorityLevel::SetTo(level) => level,
        };
        let ghost old_q = *self;
        self.clients[i].set_priority(np, now);
        proof { Self::lemma_client_update_keeps_wf(&old_q, self, i as int); }
        SetPriorityResponse::Success
    }
}


/// The clients after the client `pid`, if known, stops at `now` for
/// `reason` with its data kept on the devices.
pub open spec fn with_client_resident_idle(cs: Seq<ClientStatsView>, pid: i32, reason: StopReason, now: u64) -> Seq<ClientStatsView> {
    if has_pid(cs, pid) {
        cs.update(pid_index(cs, pid), spec_make_resident_idle(cs[pid_index(cs, pid)], reason, now))
    } else {
        cs
    }
}

/// The clients after the client `pid`, if known, stops at `now` for
/// `reason`.
pub open spec fn with_client_idle(cs: Seq<ClientStatsView>, pid: i32, reason: StopReason, now: u64) -> Seq<ClientStatsView> {
    if has_pid(cs, pid) {
        cs.update(pid_index(cs, pid), spec_make_idle(cs[pid_index(cs, pid)], reason, now))
    } else {
        cs
    }
}

/// The clients after the client `pid`, if known, starts holding the
/// devices at `now`.
pub open spec fn with_client_active(cs: Seq<ClientStatsView>, pid: i32, now: u64) -> Seq<ClientStatsView> {
    if has_pid(cs, pid) {
        cs.update(pid_index(cs, pid), spec_make_active(cs[pid_index(cs, pid)], now))
    } else {
        cs
    }
}

impl<P> ScheduleQueue<P> {
    /// Marks the known client `pid` idle at `now` with its data kept on the
    /// devices; returns whether it is known.
    pub fn make_resident_idle_at(&mut self, pid: i32, reason: StopReason, now: u64) -> (found: bool)
        requires
            old(self).wf(),
        ensures
            final(self).wf(),
            found == has_pid(old(self).spec_clients(), pid),
            final(self).spec_clients() == with_client_resident_idle(old(self).spec_clients(), pid, reason, now),
            final(self).spec_sched() == old(self).spec_sched(),
            final(self).spec_idle() == old(self).spec_idle(),
            final(self).spec_prefetch() == old(self).spec_prefetch(),
            final(self).spec_cooldown_until() == old(self).spec_cooldown_until(),
            final(self).spec_active() == old(self).spec_active(),
            final(self).spec_last_reset() == old(self).spec_last_reset(),
    {
        match self.find_client(pid) {
            Some(i) => {
                proof {
                    assert(has_pid(self.spec_clients(), pid));
                    assert(pid_index(self.spec_clients(), pid) == i as int);
                }
                let ghost old_q = *self;
                self.clients[i].make_resident_idle(reason, now);
                proof { Self::lemma_client_update_keeps_wf(&old_q, self, i as int); }
                true
            },
            None => false,
        }
    }

    /// Marks the known client `pid` idle at `now`; returns whether it is
    /// known. A resident-idle client may only be made idle lazily.
    pub fn make_idle_at(&mut self, pid: i32, reason: StopReason, now: u64) -> (found: bool)
        requires
            old(self).wf(),
            has_pid(old(self).spec_clients(), pid)
                && old(self).spec_clients()[pid_index(old(self).spec_clients(), pid)].state is ResidentIdle
                ==> reason is LazyIdle,
        ensures
            final(self).wf(),
            found == has_pid(old(self).spec_clients(), pid),
            final(self).spec_clients() == with_client_idle(old(self).spec_clients(), pid, reason, now),
            final(self).spec_sched() == old(self).spec_sched(),
            final(self).spec_idle() == old(self).spec_idle(),
            final(self).spec_prefetch() == old(self).spec_prefetch(),
            final(self).spec_cooldown_until() == old(self).spec_cooldown_until(),
            final(self).spec_active() == old(self).spec_active(),
            final(self).spec_last_reset() == old(self).spec_last_reset(),
    {
        match self.find_client(pid) {
            Some(i) => {
                proof {
                    assert(has_pid(self.spec_clients(), pid));
                    assert(pid_index(self.spec_clients(), pid) == i as int);
                }
                let ghost old_q = *self;
                self.clients[i].make_idle(reason, now);
                proof { Self::lemma_client_update_keeps_wf(&old_q, self, i as int); }
                true
            },
            None => false,
        }
    }

    /// Makes `pid` known (if it was not) and marks it as holding the
    /// devices from `now` on.
    pub fn make_active_at(&mut self, pid: i32, now: u64)
        requires
            old(self).wf(),
        ensures
            final(self).wf(),
            has_pid(final(self).spec_clients(), pid),
            final(self).spec_clients() == with_client_active(spec_get_or_insert(old(self).spec_clients(), pid, now), pid, now),
            final(self).spec_sched() == old(self).spec_sched(),
            final(self).spec_idle() == old(self).spec_idle(),
            final(self).spec_prefetch() == old(self).spec_prefetch(),
            final(self).spec_cooldown_until() == old(self).spec_cooldown_until(),
            final(self).spec_active() == old(self).spec_active(),
            final(self).spec_last_reset() == old(self).spec_last_reset(),
    {
        let i = self.get_or_insert_index(pid, now);
        proof {
            assert(has_pid(self.spec_clients(), pid));
            assert(pid_index(self.spec_clients(), pid) == i as int);
        }
        let ghost old_q = *self;
        self.clients[i].make_active(now);
        proof {
            Self::lemma_client_update_keeps_wf(&old_q, self, i as int);
            assert(self.spec_clients()[i as int].pid == pid);
        }
    }

    /// Makes `pid` known at `now` if it was not.
    pub fn ensure_client_at(&mut self, pid: i32, now: u64)
        requires
            old(self).wf(),
        ensures
            final(self).wf(),
            has_pid(final(self).spec_clients(), pid),
            final(self).spec_clients() == spec_get_or_insert(old(self).spec_clients(), pid, now),
            final(self).spec_sched() == old(self).spec_sched(),
            final(self).spec_idle() == old(self).spec_idle(),
            final(self).spec_prefetch() == old(self).spec_prefetch(),
            final(self).spec_cooldown_until() == old(self).spec_cooldown_until(),
            final(self).spec_active() == old(self).spec_active(),
            final(self).spec_last_reset() == old(self).spec_last_reset(),
    {
        let i = self.get_or_insert_index(pid, now);
        proof { assert(self.spec_clients()[i as int].pid == pid); }
    }

    /// The priority level of `pid`, if it is known.
    pub fn client_level(&self, pid: i32) -> (l: Option<PriorityLevel>)
        requires
            self.wf(),
        ensures
            l == (if has_pid(self.spec_clients(), pid) {
                Some(priority_level(self.spec_clients()[pid_index(self.spec_clients(), pid)].priority))
            } else {
                None
            }),
    {
        match self.get_client(pid) {
            Some(c) => Some(c.priority().level()),
            None => None,
        }
    }
}

/// The idle notice an activity message leads to, if any.
pub open spec fn spec_idle_notice(pid: i32, content: ActivityUpdateContent, now: u64) -> Option<IdleRequest> {
    match content {
        ActivityUpdateContent::Idle => Some(IdleRequest { pid, time: now, request_type: IdleRequestType::Idle }),
        ActivityUpdateContent::YieldThenRequestSchedulingAndMem { .. } => Some(
            IdleRequest { pid, time: now, request_type: IdleRequestType::Yield },
        ),
        ActivityUpdateContent::RequestScheduling => None,
    }
}

impl<P> ScheduleQueue<P> {
    /// Queues an activity message of `pid` received at `now`: an idle
    /// notice goes to the idle queue, a scheduling request to the back of
    /// the scheduling queue, and a yield with a memory request to both.
    /// The client becomes known if it was not.
    pub fn schedule_push_at(&mut self, pid: i32, args: ActivityUpdate, now: u64)
        requires
            old(self).wf(),
        ensures
            final(self).wf(),
            final(self).spec_clients() == spec_get_or_insert(old(self).spec_clients(), pid, now),
            final(self).spec_idle() == (match spec_idle_notice(pid, args.content, now) {
                Some(r) => old(self).spec_idle().push(r),
                None => old(self).spec_idle(),
            }),
            final(self).spec_sched() == (if args.content is Idle {
                old(self).spec_sched()
            } else {
                old(self).spec_sched().push(SchedRequest { pid, args, time: now })
            }),
            final(self).spec_prefetch() == old(self).spec_prefetch(),
            final(self).spec_cooldown_until() == old(self).spec_cooldown_until(),
            final(self).spec_active() == old(self).spec_active(),
            final(self).spec_last_reset() == old(self).spec_last_reset(),
    {
        let idx = self.get_or_insert_index(pid, now);
        let ghost cs = self.spec_clients();
        proof { assert(has_pid(cs, pid)); }
        match &args.content {
            ActivityUpdateContent::Idle => {
                self.idle_req_queue.push_back(IdleRequest { pid, time: now, request_type: IdleRequestType::Idle });
            },
            ActivityUpdateContent::YieldThenRequestSchedulingAndMem { .. } => {
                self.idle_req_queue.push_back(IdleRequest { pid, time: now, request_type: IdleRequestType::Yield });
                self.sched_req.push_back(SchedRequest { pid, args, time: now });
            },
            ActivityUpdateContent::RequestScheduling => {
                self.sched_req.push_back(SchedRequest { pid, args, time: now });
            },
        }
        proof {
            assert forall|k: int| 0 <= k < self.sched_req@.len() implies has_pid(cs, (#[trigger] self.sched_req@[k]).pid) by {
                if k < old(self).sched_req@.len() {
                    assert(self.sched_req@[k] == old(self).sched_req@[k]);
                }
            }
            assert forall|k: int| 0 <= k < self.idle_req_queue@.len() implies has_pid(cs, (#[trigger] self.idle_req_queue@[k]).pid) by {
                if k < old(self).idle_req_queue@.len() {
                    assert(self.idle_req_queue@[k] == old(self).idle_req_queue@[k]);
                }
            }
        }
    }

    /// Queues an activity message of `pid` received at `now` ahead of all
    /// others: an idle notice at the front of the idle queue, a scheduling
    /// request at the front of the scheduling queue. A yield with a memory
    /// request is not supported here and is dropped. The client becomes
    /// known if it was not.
    pub fn prioritized_push_at(&mut self, pid: i32, args: ActivityUpdate, now: u64)
        requires
            old(self).wf(),
        ensures
            final(self).wf(),
            final(self).spec_clients() == spec_get_or_insert(old(self).spec_clients(), pid, now),
            final(self).spec_idle() == (if args.content is Idle {
                seq![IdleRequest { pid, time: now, request_type: IdleRequestType::Idle }] + old(self).spec_idle()
            } else {
                old(self).spec_idle()
            }),
            final(self).spec_sched() == (if args.content is RequestScheduling {
                seq![SchedRequest { pid, args, time: now }] + old(self).spec_sched()
            } else {
                old(self).spec_sched()
            }),
            final(self).spec_prefetch() == old(self).spec_prefetch(),
            final(self).spec_cooldown_until() == old(self).spec_cooldown_until(),
            final(self).spec_active() == old(self).spec_active(),
            final(self).spec_last_reset() == old(self).spec_last_reset(),
    {
        let idx = self.get_or_insert_index(pid, now);
        let ghost cs = self.spec_clients();
        let ghost old_sched = self.sched_req@;
        let ghost old_idle = self.idle_req_queue@;
        proof { assert(has_pid(cs, pid)); }
        match &args.content {
            ActivityUpdateContent::Idle => {
                self.idle_req_queue.push_front(IdleRequest { pid, time: now, request_type: IdleRequestType::Idle });
            },
            ActivityUpdateContent::RequestScheduling => {
                self.sched_req.push_front(SchedRequest { pid, args, time: now });
            },
            ActivityUpdateContent::YieldThenRequestSchedulingAndMem { .. } => {},
        }
        proof {
            assert forall|k: int| 0 <= k < self.sched_req@.len() implies has_pid(cs, (#[trigger] self.sched_req@[k]).pid) by {
                if self.sched_req@.len() != old_sched.len() && k > 0 {
                    assert(self.sched_req@[k] == old_sched[k - 1]);
                }
            }
            assert forall|k: int| 0 <= k < self.idle_req_queue@.len() implies has_pid(cs, (#[trigger] self.idle_req_queue@[k]).pid) by {
                if self.idle_req_queue@.len() != old_idle.len() && k > 0 {
                    assert(self.idle_req_queue@[k] == old_idle[k - 1]);
                }
            }
        }
    }

    /// Queues a prefetch order received at `now`.
    pub fn push_prefetch_at(&mut self, parameter: P, now: u64)
        requires
            old(self).wf(),
        ensures
            final(self).wf(),
            final(self).spec_prefetch() == old(self).spec_prefetch().push(PrefetchRequest { time: now, parameter }),
            final(self).spec_clients() == old(self).spec_clients(),
            final(self).spec_sched() == old(self).spec_sched(),
            final(self).spec_idle() == old(self).spec_idle(),
            final(self).spec_cooldown_until() == old(self).spec_cooldown_until(),
            final(self).spec_active() == old(self).spec_active(),
            final(self).spec_last_reset() == old(self).spec_last_reset(),
    {
        self.prefetch_queue.push_back(PrefetchRequest { time: now, parameter });
    }

    /// Holds off same-priority switches for `duration` (none if `None`)
    /// from `now` on.
    pub fn cooldown_at(&mut self, duration: Option<u64>, now: u64)
        requires
            old(self).wf(),
        ensures
            final(self).wf(),
            final(self).spec_cooldown_until() == sat_add(now, match duration { Some(d) => d, None => 0u64 }),
            final(self).spec_clients() == old(self).spec_clients(),
            final(self).spec_sched() == old(self).spec_sched(),
            final(self).spec_idle() == old(self).spec_idle(),
            final(self).spec_prefetch() == old(self).spec_prefetch(),
            final(self).spec_active() == old(self).spec_active(),
            final(self).spec_last_reset() == old(self).spec_last_reset(),
    {
        let d = match duration {
            Some(d) => d,
            None => 0,
        };
        self.cooldown_until = now.saturating_add(d);
    }

    /// Records which process holds the devices.
    pub fn update_active(&mut self, active_client: ActiveClientState)
        requires
            old(self).wf(),
        ensures
            final(self).wf(),
            final(self).spec_active() == active_client,
            final(self).spec_clients() == old(self).spec_clients(),
            final(self).spec_sched() == old(self).spec_sched(),
            final(self).spec_idle() == old(self).spec_idle(),
            final(self).spec_prefetch() == old(self).spec_prefetch(),
            final(self).spec_cooldown_until() == old(self).spec_cooldown_until(),
            final(self).spec_last_reset() == old(self).spec_last_reset(),
    {
        self.active_client = active_client;
    }

    /// Whether the front scheduling request may preempt `active_client`.
    fn compute_can_preempt(&self, active_client: ActiveClientState) -> (d: PreemptionDecision)
        requires
            self.wf(),
        ensures
            d == spec_can_preempt(self.spec_sched(), self.spec_clients(), active_client),
    {
        match active_client {
            ActiveClientState::Active { pid, .. } => {
                if self.sched_req.len() == 0 {
                    return PreemptionDecision::AllowPreempt { follow_same_priority_cooldown: false };
                }
                let front_pid = self.sched_req[0].pid;
                if front_pid == pid {
                    return PreemptionDecision::AllowPreempt { follow_same_priority_cooldown: false };
                }
                match (self.get_client(pid), self.get_client(front_pid)) {
                    (Some(active_stat), Some(front_stat)) => {
                        let front_rank = front_stat.priority().level().to_u8();
                        let active_rank = active_stat.priority().level().to_u8();
                        if front_rank >= active_rank {
                            PreemptionDecision::AllowPreempt { follow_same_priority_cooldown: front_rank == active_rank }
                        } else {
                            PreemptionDecision::DenyPreempt
                        }
                    },
                    _ => PreemptionDecision::DenyPreempt,
                }
            },
            _ => PreemptionDecision::AllowPreempt { follow_same_priority_cooldown: false },
        }
    }
}


/// The requests of `s` not from `pid`, in order.
pub open spec fn sched_without(s: Seq<SchedRequest>, pid: i32) -> Seq<SchedRequest> {
    s.filter(|r: SchedRequest| r.pid != pid)
}

/// The idle notices of `s` not from `pid`, in order.
pub open spec fn idle_without(s: Seq<IdleRequest>, pid: i32) -> Seq<IdleRequest> {
    s.filter(|r: IdleRequest| r.pid != pid)
}

/// The clients after `pid` is forgotten.
pub open spec fn clients_without(cs: Seq<ClientStatsView>, pid: i32) -> Seq<ClientStatsView> {
    if has_pid(cs, pid) {
        cs.remove(pid_index(cs, pid))
    } else {
        cs
    }
}

impl<P> ScheduleQueue<P> {
    /// Forgets `pid`: its statistics and all its pending scheduling and
    /// idle requests.
    pub fn remove_client(&mut self, pid: i32)
        requires
            old(self).wf(),
        ensures
            final(self).wf(),
            final(self).spec_clients() == clients_without(old(self).spec_clients(), pid),
            final(self).spec_sched() == sched_without(old(self).spec_sched(), pid),
            final(self).spec_idle() == idle_without(old(self).spec_idle(), pid),
            !has_pid(final(self).spec_clients(), pid),
            final(self).spec_prefetch() == old(self).spec_prefetch(),
            final(self).spec_cooldown_until() == old(self).spec_cooldown_until(),
            final(self).spec_active() == old(self).spec_active(),
            final(self).spec_last_reset() == old(self).spec_last_reset(),
    {
        let ghost oc = self.spec_clients();
        match self.find_client(pid) {
            Some(i) => {
                proof { assert(pid_index(oc, pid) == i as int); }
                self.clients.remove(i);
                proof { assert(self.spec_clients() =~= oc.remove(i as int)); }
            },
            None => {},
        }
        let ghost nc = self.spec_clients();
        proof {
            assert(nc == clients_without(oc, pid));
            // a client other than `pid` is still known
            assert forall|q: i32| q != pid && has_pid(oc, q) implies has_pid(nc, q) by {
                let w = choose|j: int| 0 <= j < oc.len() && (#[trigger] oc[j]).pid == q;
                if has_pid(oc, pid) {
                    let r = pid_index(oc, pid);
                    if w < r {
                        assert(nc[w] == oc[w]);
                    } else {
                        assert(w != r);
                        assert(nc[w - 1] == oc[w]);
                    }
                } else {
                    assert(nc[w] == oc[w]);
                }
            }
            assert(!has_pid(nc, pid)) by {
                if has_pid(nc, pid) {
                    let w = choose|j: int| 0 <= j < nc.len() && (#[trigger] nc[j]).pid == pid;
                    let r = pid_index(oc, pid);
                    if w < r {
                        assert(nc[w] == oc[w]);
                    } else {
                        assert(nc[w] == oc[w + 1]);
                    }
                }
            }
            assert forall|a: int, b: int| 0 <= a < nc.len() && 0 <= b < nc.len() && a != b implies (#[trigger] nc[a]).pid != (#[trigger] nc[b]).pid by {
                if has_pid(oc, pid) {
                    let r = pid_index(oc, pid);
                    let a0 = if a < r { a } else { a + 1 };
                    let b0 = if b < r { b } else { b + 1 };
                    assert(nc[a] == oc[a0]);
                    assert(nc[b] == oc[b0]);
                }
            }
            assert forall|k: int| 0 <= k < self.clients@.len() implies (#[trigger] self.clients@[k]).wf() by {
                if has_pid(oc, pid) {
                    let r = pid_index(oc, pid);
                    if k < r {
                        assert(self.clients@[k] == old(self).clients@[k]);
                    } else {
                        assert(self.clients@[k] == old(self).clients@[k + 1]);
                    }
                }
            }
        }

        // keep the scheduling requests of other processes, in order
        let ghost os = self.sched_req@;
        let ghost cl = self.clients@;
        let n = self.sched_req.len();
        let mut kept: VecDeque<SchedRequest> = VecDeque::new();
        let mut i: usize = 0;
        while i < n
            invariant
                self.sched_req@.len() == n - i,
                i <= n,
                os.len() == n,
                self.sched_req@ == os.subrange(i as int, n as int),
                kept@ == os.subrange(0, i as int).filter(|r: SchedRequest| r.pid != pid),
                self.clients@ == cl,
                self.idle_req_queue@ == old(self).idle_req_queue@,
                self.prefetch_queue@ == old(self).prefetch_queue@,
                self.cooldown_until == old(self).cooldown_until,
                self.active_client == old(self).active_client,
                self.last_mlfq_reset_timer == old(self).last_mlfq_reset_timer,
            decreases n - i,
        {
            let r = self.sched_req.pop_front().unwrap();
            proof {
                reveal_with_fuel(Seq::<_>::filter, 1);
                assert(os.subrange(0, i + 1).drop_last() =~= os.subrange(0, i as int));
                assert(r == os[i as int]);
            }
            if r.pid != pid {
                kept.push_back(r);
            }
            proof {
                assert(self.sched_req@ =~= os.subrange(i + 1, n as int));
            }
            i += 1;
        }
        proof { assert(os.subrange(0, n as int) =~= os); }
        self.sched_req = kept;

        let ghost oi = self.idle_req_queue@;
        let m = self.idle_req_queue.len();
        let mut kept_idle: VecDeque<IdleRequest> = VecDeque::new();
        let mut j: usize = 0;
        while j < m
            invariant
                self.idle_req_queue@.len() == m - j,
                j <= m,
                oi.len() == m,
                self.idle_req_queue@ == oi.subrange(j as int, m as int),
                kept_idle@ == oi.subrange(0, j as int).filter(|r: IdleRequest| r.pid != pid),
                self.clients@ == cl,
                self.sched_req@ == sched_without(os, pid),
                self.prefetch_queue@ == old(self).prefetch_queue@,
                self.cooldown_until == old(self).cooldown_until,
                self.active_client == old(self).active_client,
                self.last_mlfq_reset_timer == old(self).last_mlfq_reset_timer,
            decreases m - j,
        {
            let r = self.idle_req_queue.pop_front().unwrap();
            proof {
                reveal_with_fuel(Seq::<_>::filter, 1);
                assert(oi.subrange(0, j + 1).drop_last() =~= oi.subrange(0, j as int));
                assert(r == oi[j as int]);
            }
            if r.pid != pid {
                kept_idle.push_back(r);
            }
            proof {
                assert(self.idle_req_queue@ =~= oi.subrange(j + 1, m as int));
            }
            j += 1;
        }
        proof { assert(oi.subrange(0, m as int) =~= oi); }
        self.idle_req_queue = kept_idle;

        proof {
            let fs = sched_without(os, pid);
            assert forall|k: int| 0 <= k < fs.len() implies has_pid(nc, (#[trigger] fs[k]).pid) by {
                assert(fs.contains(fs[k]));
                os.lemma_filter_contains_rev(|r: SchedRequest| r.pid != pid, fs[k]);
                let w = choose|x: int| 0 <= x < os.len() && os[x] == fs[k];
                assert(has_pid(oc, os[w].pid));
            }
            let fi = idle_without(oi, pid);
            assert forall|k: int| 0 <= k < fi.len() implies has_pid(nc, (#[trigger] fi[k]).pid) by {
                assert(fi.contains(fi[k]));
                oi.lemma_filter_contains_rev(|r: IdleRequest| r.pid != pid, fi[k]);
                let w = choose|x: int| 0 <= x < oi.len() && oi[x] == fi[k];
                assert(has_pid(oc, oi[w].pid));
            }
        }
    }
}


/// A client after the aging pass at `now`, the feedback levels reset first
/// when `reset` holds.
pub open spec fn spec_refresh_client(c: ClientStatsView, reset: bool, active: ActiveClientState, now: u64) -> ClientStatsView {
    let c0 = if reset { spec_reset_client(c, now) } else { c };
    spec_age_client(c0, active_pid(active) == Some(c.pid), now)
}

/// Whether the feedback levels are due for a reset at `now`.
pub open spec fn spec_reset_due(last_reset: u64, now: u64) -> bool {
    sat_sub(now, last_reset) > MLFQ_RESET_INTERVAL
}

impl<P> ScheduleQueue<P> {
    /// Returns every dynamic priority to the default at `now`; fixed ones
    /// are kept. Returns whether some dynamic priority was below the top.
    fn reset_all_priorities(&mut self, now: u64) -> (changed: bool)
        requires
            old(self).wf(),
        ensures
            final(self).wf(),
            final(self).spec_clients().len() == old(self).spec_clients().len(),
            forall|k: int| 0 <= k < old(self).spec_clients().len() ==>
                (#[trigger] final(self).spec_clients()[k]) == spec_reset_client(old(self).spec_clients()[k], now),
            changed == exists|k: int| 0 <= k < old(self).spec_clients().len()
                && (#[trigger] old(self).spec_clients()[k]).priority is Dynamic
                && priority_level(old(self).spec_clients()[k].priority) != PriorityLevel::Interactive,
            final(self).spec_sched() == old(self).spec_sched(),
            final(self).spec_idle() == old(self).spec_idle(),
            final(self).spec_prefetch() == old(self).spec_prefetch(),
            final(self).spec_cooldown_until() == old(self).spec_cooldown_until(),
            final(self).spec_active() == old(self).spec_active(),
            final(self).spec_last_reset() == old(self).spec_last_reset(),
    {
        let ghost oc = self.spec_clients();
        let n = self.clients.len();
        let mut changed = false;
        let mut i: usize = 0;
        while i < n
            invariant
                self.wf(),
                n == oc.len(),
                i <= n,
                self.spec_clients().len() == n,
                forall|k: int| 0 <= k < i ==> (#[trigger] self.spec_clients()[k]) == spec_reset_client(oc[k], now),
                forall|k: int| i <= k < n ==> (#[trigger] self.spec_clients()[k]) == oc[k],
                changed == exists|k: int| 0 <= k < i && (#[trigger] oc[k]).priority is Dynamic
                    && priority_level(oc[k].priority) != PriorityLevel::Interactive,
                self.sched_req@ == old(self).sched_req@,
                self.idle_req_queue@ == old(self).idle_req_queue@,
                self.prefetch_queue@ == old(self).prefetch_queue@,
                self.cooldown_until == old(self).cooldown_until,
                self.active_client == old(self).active_client,
                self.last_mlfq_reset_timer == old(self).last_mlfq_reset_timer,
            decreases n - i,
        {
            let p = self.clients[i].priority();
            proof { assert(self.spec_clients()[i as int] == oc[i as int]); }
            match p {
                Priority::Dynamic { level, .. } => {
                    if level != PriorityLevel::Interactive {
                        changed = true;
                    }
                    let ghost before = *self;
                    self.clients[i].set_priority(Priority::default_dynamic(), now);
                    proof {
                        Self::lemma_client_update_keeps_wf(&before, self, i as int);
                    }
                },
                Priority::Fixed(_) => {},
            }
            i += 1;
        }
        changed
    }

    /// The aging pass at `now`: if the feedback levels were last reset more
    /// than `MLFQ_RESET_INTERVAL` ago they are reset first, then every
    /// client ages (see `spec_age_client`).
    fn update_priority(&mut self, now: u64)
        requires
            old(self).wf(),
        ensures
            final(self).wf(),
            final(self).spec_clients().len() == old(self).spec_clients().len(),
            aging_keeps_floor(old(self).spec_clients(), final(self).spec_clients()),
            forall|k: int| 0 <= k < old(self).spec_clients().len() ==>
                (#[trigger] final(self).spec_clients()[k]) == spec_refresh_client(
                    old(self).spec_clients()[k],
                    spec_reset_due(old(self).spec_last_reset(), now),
                    old(self).spec_active(),
                    now,
                ),
            final(self).spec_last_reset() == (if spec_reset_due(old(self).spec_last_reset(), now) {
                now
            } else {
                old(self).spec_last_reset()
            }),
            final(self).spec_sched() == old(self).spec_sched(),
            final(self).spec_idle() == old(self).spec_idle(),
            final(self).spec_prefetch() == old(self).spec_prefetch(),
            final(self).spec_cooldown_until() == old(self).spec_cooldown_until(),
            final(self).spec_active() == old(self).spec_active(),
    {
        proof {
            lemma_aging_floor(old(self).spec_clients(), spec_reset_due(old(self).spec_last_reset(), now), old(self).spec_active(), now);
        }
        let ghost oc = self.spec_clients();
        let reset = now.saturating_sub(self.last_mlfq_reset_timer) > MLFQ_RESET_INTERVAL;
        if reset {
            self.reset_all_priorities(now);
            self.last_mlfq_reset_timer = now;
        }
        let ghost rc = self.spec_clients();
        let active = match self.active_client {
            ActiveClientState::Active { pid, .. } => Some(pid),
            _ => None,
        };
        let n = self.clients.len();
        let mut i: usize = 0;
        while i < n
            invariant
                self.wf(),
                n == oc.len(),
                rc.len() == n,
                forall|k: int| 0 <= k < n ==> (#[trigger] rc[k]) == (if reset { spec_reset_client(oc[k], now) } else { oc[k] }),
                active == active_pid(old(self).spec_active()),
                i <= n,
                self.spec_clients().len() == n,
                forall|k: int| 0 <= k < i ==> (#[trigger] self.spec_clients()[k]) == spec_age_client(rc[k], active == Some(rc[k].pid), now),
                forall|k: int| i <= k < n ==> (#[trigger] self.spec_clients()[k]) == rc[k],
                self.sched_req@ == old(self).sched_req@,
                self.idle_req_queue@ == old(self).idle_req_queue@,
                self.prefetch_queue@ == old(self).prefetch_queue@,
                self.cooldown_until == old(self).cooldown_until,
                self.active_client == old(self).active_client,
                self.last_mlfq_reset_timer == (if reset { now } else { old(self).last_mlfq_reset_timer }),
            decreases n - i,
        {
            let ghost before = *self;
            proof { assert(self.spec_clients()[i as int] == rc[i as int]); }
            let pid = self.clients[i].pid();
            let running = match active {
                Some(a) => a == pid,
                None => false,
            };
            if running {
                self.clients[i].update_if_active(now);
                let q = priority_level_to_time_quantum(self.clients[i].priority().level());
                if self.clients[i].accumulated_time_in_current_priority() > q
                    && self.clients[i].priority_upd_since(now) > MIN_PRIORITY_HOLD {
                    self.clients[i].decrease_priority(Some(PriorityLevel::Batch), now);
                }
            } else {
                let q = priority_level_to_time_quantum(self.clients[i].priority().level());
                let used = self.clients[i].accumulated_time_in_current_priority();
                if used > q {
                    self.clients[i].decrease_priority(Some(PriorityLevel::Batch), now);
                } else {
                    let long_unchanged = self.clients[i].priority_upd_since(now) > q * 2;
                    let idle_long = match self.clients[i].idle_since(now) {
                        Some(d) => d > (q / 2).saturating_add(used),
                        None => false,
                    };
                    if long_unchanged && idle_long {
                        self.clients[i].increase_priority(None, now);
                    }
                }
            }
            proof {
                Self::lemma_client_update_keeps_wf(&before, self, i as int);
            }
            i += 1;
        }
    }
}


/// Whether `a` is served strictly before `b`: its client has a higher
/// level, or the same level and `a` arrived earlier.
pub open spec fn req_before(cs: Seq<ClientStatsView>, a: SchedRequest, b: SchedRequest) -> bool {
    rank_of(cs, a.pid) > rank_of(cs, b.pid) || (rank_of(cs, a.pid) == rank_of(cs, b.pid) && a.time < b.time)
}

/// Whether `a` and `b` are tied: same level, same arrival time.
pub open spec fn req_tied(cs: Seq<ClientStatsView>, a: SchedRequest, b: SchedRequest) -> bool {
    rank_of(cs, a.pid) == rank_of(cs, b.pid) && a.time == b.time
}

/// `o` is `s` reordered by `perm` (`o[k]` is `s[perm[k]]`), served in
/// order, tied requests keeping their relative order.
pub open spec fn is_sort_witness(
    cs: Seq<ClientStatsView>,
    s: Seq<SchedRequest>,
    o: Seq<SchedRequest>,
    perm: Seq<int>,
) -> bool {
    &&& o.len() == s.len()
    &&& perm.len() == o.len()
    &&& forall|k: int| 0 <= k < perm.len() ==> 0 <= #[trigger] perm[k] < s.len()
    &&& forall|a: int, b: int| 0 <= a < perm.len() && 0 <= b < perm.len() && a != b ==> #[trigger] perm[a] != #[trigger] perm[b]
    &&& forall|k: int| 0 <= k < o.len() ==> #[trigger] o[k] == s[perm[k]]
    &&& forall|a: int, b: int| 0 <= a < b < o.len() ==> !req_before(cs, #[trigger] o[b], #[trigger] o[a])
    &&& forall|a: int, b: int| 0 <= a < b < o.len() && req_tied(cs, #[trigger] o[a], #[trigger] o[b]) ==> perm[a] < perm[b]
}

/// `o` is the stable sort of `s` in serving order.
pub open spec fn is_stable_sort(cs: Seq<ClientStatsView>, s: Seq<SchedRequest>, o: Seq<SchedRequest>) -> bool {
    exists|perm: Seq<int>| is_sort_witness(cs, s, o, perm)
}

impl<P> ScheduleQueue<P> {
    /// The rank of the level of the client of `pid`.
    fn client_rank(&self, pid: i32) -> (r: u8)
        requires
            self.wf(),
            has_pid(self.spec_clients(), pid),
        ensures
            r == rank_of(self.spec_clients(), pid),
    {
        let c = self.get_client(pid).unwrap();
        c.priority().level().to_u8()
    }

    /// Orders the scheduling requests for serving: higher levels first,
    /// earlier arrivals first within a level, ties kept in their order.
    fn compute_prioritization(&mut self)
        requires
            old(self).wf(),
        ensures
            final(self).wf(),
            is_stable_sort(old(self).spec_clients(), old(self).spec_sched(), final(self).spec_sched()),
            final(self).spec_clients() == old(self).spec_clients(),
            final(self).spec_idle() == old(self).spec_idle(),
            final(self).spec_prefetch() == old(self).spec_prefetch(),
            final(self).spec_cooldown_until() == old(self).spec_cooldown_until(),
            final(self).spec_active() == old(self).spec_active(),
            final(self).spec_last_reset() == old(self).spec_last_reset(),
    {
        let ghost cs = self.spec_clients();
        let ghost os = self.sched_req@;
        let n = self.sched_req.len();
        let mut out: VecDeque<SchedRequest> = VecDeque::new();
        let mut ranks: Vec<u8> = Vec::new();
        let ghost mut perm: Seq<int> = Seq::empty();
        let mut i: usize = 0;
        while i < n
            invariant
                self.wf(),
                self.spec_clients() == cs,
                self.clients@ == old(self).clients@,
                self.idle_req_queue@ == old(self).idle_req_queue@,
                self.prefetch_queue@ == old(self).prefetch_queue@,
                self.cooldown_until == old(self).cooldown_until,
                self.active_client == old(self).active_client,
                self.last_mlfq_reset_timer == old(self).last_mlfq_reset_timer,
                os == old(self).sched_req@,
                n == os.len(),
                i <= n,
                self.sched_req@ == os.subrange(i as int, n as int),
                out@.len() == i,
                ranks@.len() == i,
                forall|k: int| 0 <= k < i ==> #[trigger] ranks@[k] == rank_of(cs, out@[k].pid),
                is_sort_witness(cs, os.subrange(0, i as int), out@, perm),
            decreases n - i,
        {
            let r = self.sched_req.pop_front().unwrap();
            proof {
                assert(r == os[i as int]);
                assert(self.sched_req@ =~= os.subrange(i + 1, n as int));
                assert(has_pid(cs, os[i as int].pid));
            }
            let rank = self.client_rank(r.pid);
            let t = r.time;
            // the first position whose request `r` is served before
            let mut p: usize = 0;
            while p < i
                invariant
                    i == out@.len(),
                    i == ranks@.len(),
                    p <= i,
                    forall|k: int| 0 <= k < i ==> #[trigger] ranks@[k] == rank_of(cs, out@[k].pid),
                    rank == rank_of(cs, r.pid),
                    t == r.time,
                    forall|k: int| 0 <= k < p ==> !req_before(cs, r, #[trigger] out@[k]),
                ensures
                    p <= i,
                    forall|k: int| 0 <= k < p ==> !req_before(cs, r, #[trigger] out@[k]),
                    p < i ==> req_before(cs, r, out@[p as int]),
                decreases i - p,
            {
                let rk = ranks[p];
                let tk = out[p].time;
                if rank > rk || (rank == rk && t < tk) {
                    break;
                }
                p += 1;
            }
            proof {
                if p < i {
                    assert(req_before(cs, r, out@[p as int]));
                }
            }
            let ghost old_out = out@;
            let ghost old_perm = perm;
            out.insert(p, r);
            ranks.insert(p, rank);
            proof {
                perm = old_perm.insert(p as int, i as int);
                let s1 = os.subrange(0, i + 1);
                let o1 = out@;
                assert(o1 == old_out.insert(p as int, r));
                assert forall|k: int| 0 <= k < i + 1 implies #[trigger] ranks@[k] == rank_of(cs, out@[k].pid) by {
                    if k < p {
                        assert(out@[k] == old_out[k]);
                    } else if k > p {
                        assert(out@[k] == old_out[k - 1]);
                    }
                }
                assert forall|k: int| 0 <= k < perm.len() implies 0 <= #[trigger] perm[k] < s1.len() by {
                    if k < p {
                        assert(perm[k] == old_perm[k]);
                    } else if k > p {
                        assert(perm[k] == old_perm[k - 1]);
                    }
                }
                assert forall|a: int, b: int| 0 <= a < perm.len() && 0 <= b < perm.len() && a != b implies #[trigger] perm[a] != #[trigger] perm[b] by {
                    let a0 = if a < p { a } else { a - 1 };
                    let b0 = if b < p { b } else { b - 1 };
                    if a != p && b != p {
                        assert(perm[a] == old_perm[a0]);
                        assert(perm[b] == old_perm[b0]);
                    } else if a == p {
                        assert(perm[b] == old_perm[b0]);
                    } else {
                        assert(perm[a] == old_perm[a0]);
                    }
                }
                assert forall|k: int| 0 <= k < o1.len() implies #[trigger] o1[k] == s1[perm[k]] by {
                    if k < p {
                        assert(o1[k] == old_out[k]);
                        assert(perm[k] == old_perm[k]);
                        assert(old_out[k] == os.subrange(0, i as int)[old_perm[k]]);
                    } else if k > p {
                        assert(o1[k] == old_out[k - 1]);
                        assert(perm[k] == old_perm[k - 1]);
                        assert(old_out[k - 1] == os.subrange(0, i as int)[old_perm[k - 1]]);
                    }
                }
                assert forall|a: int, b: int| 0 <= a < b < o1.len() implies !req_before(cs, #[trigger] o1[b], #[trigger] o1[a]) by {
                    if a != p && b != p {
                        let a0 = if a < p { a } else { a - 1 };
                        let b0 = if b < p { b } else { b - 1 };
                        assert(o1[a] == old_out[a0]);
                        assert(o1[b] == old_out[b0]);
                    } else if b == p {
                        assert(o1[a] == old_out[a]);
                    } else {
                        // a == p < b: `r` goes before the one it was placed ahead of
                        assert(o1[b] == old_out[b - 1]);
                        assert(p < i);
                        assert(req_before(cs, r, old_out[p as int]));
                        if b - 1 > p {
                            assert(!req_before(cs, old_out[b - 1], old_out[p as int]));
                        }
                    }
                }
                assert forall|a: int, b: int| 0 <= a < b < o1.len() && req_tied(cs, #[trigger] o1[a], #[trigger] o1[b]) implies perm[a] < perm[b] by {
                    if a != p && b != p {
                        let a0 = if a < p { a } else { a - 1 };
                        let b0 = if b < p { b } else { b - 1 };
                        assert(o1[a] == old_out[a0]);
                        assert(o1[b] == old_out[b0]);
                        assert(perm[a] == old_perm[a0]);
                        assert(perm[b] == old_perm[b0]);
                    } else if b == p {
                        assert(perm[a] == old_perm[a]);
                        assert(0 <= old_perm[a] < i);
                    } else {
                        assert(o1[b] == old_out[b - 1]);
                        assert(req_before(cs, r, old_out[p as int]));
                        if b - 1 > p {
                            assert(!req_before(cs, old_out[b - 1], old_out[p as int]));
                        }
                        assert(false);
                    }
                }
                assert(is_sort_witness(cs, s1, o1, perm));
            }
            i += 1;
        }
        proof {
            assert(os.subrange(0, n as int) =~= os);
            assert(is_sort_witness(cs, os, out@, perm));
        }
        self.sched_req = out;
        proof {
            assert forall|k: int| 0 <= k < self.sched_req@.len() implies has_pid(cs, (#[trigger] self.sched_req@[k]).pid) by {
                assert(self.sched_req@[k] == os[perm[k]]);
                assert(has_pid(cs, old(self).sched_req@[perm[k]].pid));
            }
        }
    }
}


/// The clients after the aging pass at `now`.
pub open spec fn spec_refreshed(cs: Seq<ClientStatsView>, reset: bool, active: ActiveClientState, now: u64) -> Seq<ClientStatsView> {
    Seq::new(cs.len(), |k: int| spec_refresh_client(cs[k], reset, active, now))
}

/// `new` is `cs` after an aging pass as far as priorities go: the same
/// clients in place, fixed priorities untouched, dynamic ones still
/// dynamic, and none that was at batch or above now below batch.
pub open spec fn aging_keeps_floor(cs: Seq<ClientStatsView>, new: Seq<ClientStatsView>) -> bool {
    &&& new.len() == cs.len()
    &&& forall|k: int| 0 <= k < cs.len() ==> {
        let o = cs[k].priority;
        let n = (#[trigger] new[k]).priority;
        &&& new[k].pid == cs[k].pid
        &&& (o is Fixed ==> n == o)
        &&& (o is Dynamic ==> n is Dynamic)
        &&& (o is Dynamic && level_rank(priority_level(o)) >= level_rank(PriorityLevel::Batch)
            ==> level_rank(priority_level(n)) >= level_rank(PriorityLevel::Batch))
    }
}

/// The aging pass never touches a fixed priority, keeps a dynamic one
/// dynamic, and never demotes a client that was at batch or above below
/// batch; it keeps every client, in place.
pub proof fn lemma_aging_floor(cs: Seq<ClientStatsView>, reset: bool, active: ActiveClientState, now: u64)
    ensures
        aging_keeps_floor(cs, spec_refreshed(cs, reset, active, now)),
{
    let new = spec_refreshed(cs, reset, active, now);
    assert forall|k: int| 0 <= k < cs.len() implies {
        let o = cs[k].priority;
        let n = (#[trigger] new[k]).priority;
        &&& new[k].pid == cs[k].pid
        &&& (o is Fixed ==> n == o)
        &&& (o is Dynamic ==> n is Dynamic)
        &&& (o is Dynamic && level_rank(priority_level(o)) >= level_rank(PriorityLevel::Batch)
            ==> level_rank(priority_level(n)) >= level_rank(PriorityLevel::Batch))
    } by {
        let c = cs[k];
        let c0 = if reset { spec_reset_client(c, now) } else { c };
        assert(new[k] == spec_age_client(c0, active_pid(active) == Some(c.pid), now));
        assert(c0.pid == c.pid);
        assert(c0.priority is Fixed ==> c0.priority == c.priority);
        assert(c.priority is Dynamic ==> c0.priority is Dynamic);
        assert(c.priority is Dynamic && level_rank(priority_level(c.priority)) >= 1 ==> level_rank(priority_level(c0.priority)) >= 1);
    }
}

/// The running process is demoted by exactly one level once it has used
/// up its quantum (8 s at the interactive level, 16 s at the low
/// interactive one), counting the time it has run since it was last
/// accounted, and kept its priority for more than 10 s: an interactive
/// client becomes low interactive and a low interactive one batch, with
/// its weight kept and its time used started afresh.
pub proof fn lemma_running_client_demoted(cs: Seq<ClientStatsView>, pid: i32, since: u64, now: u64, k: int)
    requires
        0 <= k < cs.len(),
        cs[k].pid == pid,
        cs[k].priority is Dynamic,
        cs[k].priority->level == PriorityLevel::Interactive || cs[k].priority->level == PriorityLevel::LowInteractive,
        cs[k].state is Active ==> now >= cs[k].last_in_current,
        ({
            let used = cs[k].time_used + (if cs[k].state is Active { now - cs[k].last_in_current } else { 0int });
            &&& cs[k].priority->level == PriorityLevel::Interactive ==> used > 8_000_000_000
            &&& cs[k].priority->level == PriorityLevel::LowInteractive ==> used > 16_000_000_000
        }),
        now >= cs[k].last_priority_update,
        now - cs[k].last_priority_update > 10_000_000_000,
    ensures
        ({
            let n = spec_refreshed(cs, false, ActiveClientState::Active { pid, since }, now)[k];
            &&& n.pid == pid
            &&& n.time_used == 0
            &&& n.last_priority_update == now
            &&& (cs[k].priority->level == PriorityLevel::Interactive ==> n.priority == Priority::Dynamic {
                level: PriorityLevel::LowInteractive,
                weight: cs[k].priority->weight,
            })
            &&& (cs[k].priority->level == PriorityLevel::LowInteractive ==> n.priority == Priority::Dynamic {
                level: PriorityLevel::Batch,
                weight: cs[k].priority->weight,
            })
        }),
{
    let c = cs[k];
    let c1 = spec_update_if_active(c, now);
    assert(c1.time_used > spec_time_quantum(priority_level(c.priority)));
    assert(c1.priority == c.priority);
    assert(c1.last_priority_update == c.last_priority_update);
    assert(spec_refreshed(cs, false, ActiveClientState::Active { pid, since }, now)[k]
        == spec_age_client(c, true, now));
}

/// What serving the queue yields once it is sorted: the next idle notice,
/// else the next prefetch order, else the front scheduling request if it
/// may preempt `active` and the cooldown (when it applies) is over.
pub open spec fn spec_serve<P>(
    idle: Seq<IdleRequest>,
    prefetch: Seq<PrefetchRequest<P>>,
    sorted: Seq<SchedRequest>,
    cs: Seq<ClientStatsView>,
    active: ActiveClientState,
    cooldown_until: u64,
    now: u64,
) -> Option<GenericRequest<P>> {
    if idle.len() > 0 {
        Some(GenericRequest::Idle(idle[0]))
    } else if prefetch.len() > 0 {
        Some(GenericRequest::Prefetch(prefetch[0]))
    } else {
        match spec_can_preempt(sorted, cs, active) {
            PreemptionDecision::DenyPreempt => None,
            PreemptionDecision::AllowPreempt { follow_same_priority_cooldown } => {
                if follow_same_priority_cooldown && now < cooldown_until {
                    None
                } else if sorted.len() > 0 {
                    Some(GenericRequest::Schedule(sorted[0]))
                } else {
                    None
                }
            },
        }
    }
}

impl<P> ScheduleQueue<P> {
    /// Takes the next request to handle at `now`, with `active_client`
    /// holding the devices: clients age first (see `update_priority`), the
    /// scheduling requests are sorted for serving, then idle notices go
    /// first, prefetch orders next, and the front scheduling request last,
    /// if it may preempt and no cooldown holds it back.
    pub fn schedule_pop_at(&mut self, active_client: ActiveClientState, now: u64) -> (req: Option<GenericRequest<P>>)
        requires
            old(self).wf(),
        ensures
            final(self).wf(),
            ({
                let reset = spec_reset_due(old(self).spec_last_reset(), now);
                let aged = spec_refreshed(old(self).spec_clients(), reset, old(self).spec_active(), now);
                &&& final(self).spec_clients() == aged
                &&& final(self).spec_last_reset() == (if reset { now } else { old(self).spec_last_reset() })
                &&& exists|sorted: Seq<SchedRequest>| {
                    &&& is_stable_sort(aged, old(self).spec_sched(), sorted)
                    &&& req == spec_serve(
                        old(self).spec_idle(),
                        old(self).spec_prefetch(),
                        sorted,
                        aged,
                        active_client,
                        old(self).spec_cooldown_until(),
                        now,
                    )
                    &&& final(self).spec_sched() == (if req matches Some(GenericRequest::Schedule(_)) {
                        sorted.drop_first()
                    } else {
                        sorted
                    })
                }
            }),
            final(self).spec_idle() == (if old(self).spec_idle().len() > 0 {
                old(self).spec_idle().drop_first()
            } else {
                old(self).spec_idle()
            }),
            final(self).spec_prefetch() == (if old(self).spec_idle().len() == 0 && old(self).spec_prefetch().len() > 0 {
                old(self).spec_prefetch().drop_first()
            } else {
                old(self).spec_prefetch()
            }),
            final(self).spec_cooldown_until() == old(self).spec_cooldown_until(),
            final(self).spec_active() == old(self).spec_active(),
            aging_keeps_floor(old(self).spec_clients(), final(self).spec_clients()),
    {
        proof {
            lemma_aging_floor(old(self).spec_clients(), spec_reset_due(old(self).spec_last_reset(), now), old(self).spec_active(), now);
        }
        self.update_priority(now);
        let ghost aged = self.spec_clients();
        proof {
            let reset = spec_reset_due(old(self).spec_last_reset(), now);
            assert(aged =~= spec_refreshed(old(self).spec_clients(), reset, old(self).spec_active(), now));
        }
        self.compute_prioritization();
        let ghost sorted = self.sched_req@;
        if let Some(front) = self.idle_req_queue.pop_front() {
            return Some(GenericRequest::Idle(front));
        }
        if let Some(prefetch_req) = self.prefetch_queue.pop_front() {
            return Some(GenericRequest::Prefetch(prefetch_req));
        }
        let decision = self.compute_can_preempt(active_client);
        match decision {
            PreemptionDecision::DenyPreempt => None,
            PreemptionDecision::AllowPreempt { follow_same_priority_cooldown } => {
                if follow_same_priority_cooldown && now < self.cooldown_until {
                    None
                } else {
                    match self.sched_req.pop_front() {
                        Some(r) => {
                            proof {
                                let cs = self.spec_clients();
                                assert forall|k: int| 0 <= k < self.sched_req@.len() implies has_pid(cs, (#[trigger] self.sched_req@[k]).pid) by {
                                    assert(self.sched_req@[k] == sorted[k + 1]);
                                }
                            }
                            Some(GenericRequest::Schedule(r))
                        },
                        None => None,
                    }
                }
            },
        }
    }
}


impl<P> ScheduleQueue<P> {
    /// Queues an activity message of `pid` received now (see
    /// `schedule_push_at`).
    /// `new` is `old` after an activity message of `pid` received at `now`
    /// was queued (see `schedule_push_at`).
    pub open spec fn pushed(old: Self, new: Self, pid: i32, args: ActivityUpdate, now: u64) -> bool {
        &&& new.spec_clients() == spec_get_or_insert(old.spec_clients(), pid, now)
        &&& new.spec_idle() == (match spec_idle_notice(pid, args.content, now) {
            Some(r) => old.spec_idle().push(r),
            None => old.spec_idle(),
        })
        &&& new.spec_sched() == (if args.content is Idle {
            old.spec_sched()
        } else {
            old.spec_sched().push(SchedRequest { pid, args, time: now })
        })
        &&& new.spec_prefetch() == old.spec_prefetch()
        &&& new.spec_cooldown_until() == old.spec_cooldown_until()
        &&& new.spec_active() == old.spec_active()
        &&& new.spec_last_reset() == old.spec_last_reset()
    }

    /// `new` is `old` after an activity message of `pid` received at `now`
    /// was queued ahead of all others (see `prioritized_push_at`).
    pub open spec fn pushed_first(old: Self, new: Self, pid: i32, args: ActivityUpdate, now: u64) -> bool {
        &&& new.spec_clients() == spec_get_or_insert(old.spec_clients(), pid, now)
        &&& new.spec_idle() == (if args.content is Idle {
            seq![IdleRequest { pid, time: now, request_type: IdleRequestType::Idle }] + old.spec_idle()
        } else {
            old.spec_idle()
        })
        &&& new.spec_sched() == (if args.content is RequestScheduling {
            seq![SchedRequest { pid, args, time: now }] + old.spec_sched()
        } else {
            old.spec_sched()
        })
        &&& new.spec_prefetch() == old.spec_prefetch()
        &&& new.spec_cooldown_until() == old.spec_cooldown_until()
        &&& new.spec_active() == old.spec_active()
        &&& new.spec_last_reset() == old.spec_last_reset()
    }

    /// `new` is `old` after a prefetch order received at `now` was queued.
    pub open spec fn prefetch_pushed(old: Self, new: Self, parameter: P, now: u64) -> bool {
        &&& new.spec_prefetch() == old.spec_prefetch().push(PrefetchRequest { time: now, parameter })
        &&& new.spec_clients() == old.spec_clients()
        &&& new.spec_sched() == old.spec_sched()
        &&& new.spec_idle() == old.spec_idle()
        &&& new.spec_cooldown_until() == old.spec_cooldown_until()
        &&& new.spec_active() == old.spec_active()
        &&& new.spec_last_reset() == old.spec_last_reset()
    }

    /// `new` is `old` with same-priority switches held off for `duration`
    /// from `now` on.
    pub open spec fn cooled_down(old: Self, new: Self, duration: Option<u64>, now: u64) -> bool {
        &&& new.spec_cooldown_until() == sat_add(now, match duration { Some(d) => d, None => 0u64 })
        &&& new.spec_clients() == old.spec_clients()
        &&& new.spec_sched() == old.spec_sched()
        &&& new.spec_idle() == old.spec_idle()
        &&& new.spec_prefetch() == old.spec_prefetch()
        &&& new.spec_active() == old.spec_active()
        &&& new.spec_last_reset() == old.spec_last_reset()
    }

    /// `new` is `old` after a priority change for `pid` to `new_level` was
    /// applied at `now`, answered with `resp` (see `set_priority_at`).
    pub open spec fn priority_set(old: Self, new: Self, pid: i32, new_level: SetPriorityLevel, resp: SetPriorityResponse, now: u64) -> bool {
        &&& !has_pid(old.spec_clients(), pid) ==> {
            &&& resp == SetPriorityResponse::FailureProcessNotExist
            &&& new.spec_clients() == old.spec_clients()
        }
        &&& has_pid(old.spec_clients(), pid) ==> {
            let i = pid_index(old.spec_clients(), pid);
            let c = old.spec_clients()[i];
            let (r, np) = spec_set_priority(c.priority, new_level);
            &&& resp == r
            &&& new.spec_clients() == (match np {
                Some(p) => old.spec_clients().update(i, spec_with_priority(c, p, now)),
                None => old.spec_clients(),
            })
        }
        &&& new.spec_sched() == old.spec_sched()
        &&& new.spec_idle() == old.spec_idle()
        &&& new.spec_prefetch() == old.spec_prefetch()
        &&& new.spec_cooldown_until() == old.spec_cooldown_until()
        &&& new.spec_active() == old.spec_active()
        &&& new.spec_last_reset() == old.spec_last_reset()
    }

    /// `new` is `old` after the next request `req` was taken at `now` with
    /// `active_client` on the devices (see `schedule_pop_at`).
    pub open spec fn popped(old: Self, new: Self, active_client: ActiveClientState, req: Option<GenericRequest<P>>, now: u64) -> bool {
        let reset = spec_reset_due(old.spec_last_reset(), now);
        let aged = spec_refreshed(old.spec_clients(), reset, old.spec_active(), now);
        &&& new.spec_clients() == aged
        &&& new.spec_last_reset() == (if reset { now } else { old.spec_last_reset() })
        &&& exists|sorted: Seq<SchedRequest>| {
            &&& is_stable_sort(aged, old.spec_sched(), sorted)
            &&& req == spec_serve(
                old.spec_idle(),
                old.spec_prefetch(),
                sorted,
                aged,
                active_client,
                old.spec_cooldown_until(),
                now,
            )
            &&& new.spec_sched() == (if req matches Some(GenericRequest::Schedule(_)) {
                sorted.drop_first()
            } else {
                sorted
            })
        }
        &&& new.spec_idle() == (if old.spec_idle().len() > 0 {
            old.spec_idle().drop_first()
        } else {
            old.spec_idle()
        })
        &&& new.spec_prefetch() == (if old.spec_idle().len() == 0 && old.spec_prefetch().len() > 0 {
            old.spec_prefetch().drop_first()
        } else {
            old.spec_prefetch()
        })
        &&& new.spec_cooldown_until() == old.spec_cooldown_until()
        &&& new.spec_active() == old.spec_active()
    }

    /// Queues an activity message of `pid` received now (see
    /// `schedule_push_at`); the time is read from the queue's clock.
    pub fn schedule_push(&mut self, pid: i32, args: ActivityUpdate)
        requires
            old(self).wf(),
        ensures
            final(self).wf(),
            exists|now: u64| #[trigger] Self::pushed(*old(self), *final(self), pid, args, now),
    {
        let now = self.clock.now();
        self.schedule_push_at(pid, args, now);
        proof {
            assert(Self::pushed(*old(self), *self, pid, args, now));
        }
    }

    /// Queues an activity message of `pid` received now ahead of all
    /// others (see `prioritized_push_at`).
    pub fn prioritized_push(&mut self, pid: i32, args: ActivityUpdate)
        requires
            old(self).wf(),
        ensures
            final(self).wf(),
            exists|now: u64| #[trigger] Self::pushed_first(*old(self), *final(self), pid, args, now),
    {
        let now = self.clock.now();
        self.prioritized_push_at(pid, args, now);
        proof {
            assert(Self::pushed_first(*old(self), *self, pid, args, now));
        }
    }

    /// Queues a prefetch order received now.
    pub fn push_prefetch(&mut self, parameter: P)
        requires
            old(self).wf(),
        ensures
            final(self).wf(),
            exists|now: u64| #[trigger] Self::prefetch_pushed(*old(self), *final(self), parameter, now),
    {
        let now = self.clock.now();
        self.push_prefetch_at(parameter, now);
        proof {
            assert(Self::prefetch_pushed(*old(self), *self, parameter, now));
        }
    }

    /// Holds off same-priority switches for `duration` from now on.
    pub fn cooldown(&mut self, duration: Option<u64>)
        requires
            old(self).wf(),
        ensures
            final(self).wf(),
            exists|now: u64| #[trigger] Self::cooled_down(*old(self), *final(self), duration, now),
    {
        let now = self.clock.now();
        self.cooldown_at(duration, now);
        proof {
            assert(Self::cooled_down(*old(self), *self, duration, now));
        }
    }

    /// Applies a priority change ordered from the control tool now (see
    /// `set_priority_at`).
    pub fn set_priority(&mut self, pid: i32, new_level: SetPriorityLevel) -> (resp: SetPriorityResponse)
        requires
            old(self).wf(),
        ensures
            final(self).wf(),
            !has_pid(old(self).spec_clients(), pid) <==> resp == SetPriorityResponse::FailureProcessNotExist,
            has_pid(old(self).spec_clients(), pid) ==> resp == spec_set_priority(
                old(self).spec_clients()[pid_index(old(self).spec_clients(), pid)].priority,
                new_level,
            ).0,
            exists|now: u64| #[trigger] Self::priority_set(*old(self), *final(self), pid, new_level, resp, now),
    {
        let now = self.clock.now();
        let resp = self.set_priority_at(pid, new_level, now);
        proof {
            assert(Self::priority_set(*old(self), *self, pid, new_level, resp, now));
        }
        resp
    }

    /// Takes the next request to handle now (see `schedule_pop_at`).
    pub fn schedule_pop(&mut self, active_client: ActiveClientState) -> (req: Option<GenericRequest<P>>)
        requires
            old(self).wf(),
        ensures
            final(self).wf(),
            old(self).spec_idle().len() > 0 ==> req == Some(GenericRequest::<P>::Idle(old(self).spec_idle()[0])),
            old(self).spec_idle().len() == 0 && old(self).spec_prefetch().len() > 0
                ==> req == Some(GenericRequest::Prefetch(old(self).spec_prefetch()[0])),
            exists|now: u64| #[trigger] Self::popped(*old(self), *final(self), active_client, req, now),
            aging_keeps_floor(old(self).spec_clients(), final(self).spec_clients()),
    {
        let now = self.clock.now();
        let req = self.schedule_pop_at(active_client, now);
        proof {
            assert(Self::popped(*old(self), *self, active_client, req, now));
        }
        req
    }
}

/// Idle notices are always served before prefetch orders, and those
/// before any scheduling request.
pub proof fn lemma_serving_precedence<P>(
    idle: Seq<IdleRequest>,
    prefetch: Seq<PrefetchRequest<P>>,
    sorted: Seq<SchedRequest>,
    cs: Seq<ClientStatsView>,
    active: ActiveClientState,
    cooldown_until: u64,
    now: u64,
)
    ensures
        idle.len() > 0 ==> spec_serve(idle, prefetch, sorted, cs, active, cooldown_until, now) == Some(
            GenericRequest::<P>::Idle(idle[0]),
        ),
        idle.len() == 0 && prefetch.len() > 0 ==> spec_serve(idle, prefetch, sorted, cs, active, cooldown_until, now)
            == Some(GenericRequest::Prefetch(prefetch[0])),
        spec_serve(idle, prefetch, sorted, cs, active, cooldown_until, now) matches Some(GenericRequest::Schedule(r))
            ==> idle.len() == 0 && prefetch.len() == 0 && sorted.len() > 0 && r == sorted[0],
{
}

/// The scheduling request that is served is one that no other pending
/// request is to be served before.
pub proof fn lemma_served_request_is_first(cs: Seq<ClientStatsView>, s: Seq<SchedRequest>, sorted: Seq<SchedRequest>)
    requires
        is_stable_sort(cs, s, sorted),
        sorted.len() > 0,
    ensures
        forall|k: int| 0 <= k < sorted.len() ==> !req_before(cs, #[trigger] sorted[k], sorted[0]),
        sorted.len() == s.len(),
{
    let perm = choose|perm: Seq<int>| is_sort_witness(cs, s, sorted, perm);
    assert forall|k: int| 0 <= k < sorted.len() implies !req_before(cs, #[trigger] sorted[k], sorted[0]) by {
        if k > 0 {
            assert(!req_before(cs, sorted[k], sorted[0]));
        }
    }
}

/// A process that holds the devices is never preempted by a request of
/// a less urgent client.
pub proof fn lemma_no_preemption_by_lower(sched: Seq<SchedRequest>, cs: Seq<ClientStatsView>, pid: i32, since: u64)
    requires
        sched.len() > 0,
        has_pid(cs, pid),
        has_pid(cs, sched[0].pid),
        rank_of(cs, sched[0].pid) < rank_of(cs, pid),
    ensures
        spec_can_preempt(sched, cs, ActiveClientState::Active { pid, since }) == PreemptionDecision::DenyPreempt,
{
}

/// The larger of two times.
pub open spec fn max_u64(a: u64, b: u64) -> u64 {
    if a >= b { a } else { b }
}

/// The pause after a switch that moved data for `migration_ns`
/// nanoseconds (the caller's estimate): twice that, at least the
/// configured cooldown, and at least the time quantum of the level of the
/// priority `current`.
pub fn compute_cooldown(migration_ns: u64, config_cooldown: Option<u64>, current: Priority) -> (c: u64)
    ensures
        c == max_u64(
            max_u64(
                match config_cooldown { Some(d) => d, None => 0u64 },
                if migration_ns <= u64::MAX / 2 { (2 * migration_ns) as u64 } else { u64::MAX },
            ),
            spec_time_quantum(priority_level(current)),
        ),
{
    let doubled: u64 = if migration_ns <= u64::MAX / 2 { migration_ns * 2 } else { u64::MAX };
    let configured = match config_cooldown {
        Some(d) => d,
        None => 0,
    };
    let c = if configured >= doubled { configured } else { doubled };
    let q = priority_level_to_time_quantum(current.level());
    if c >= q { c } else { q }
}

} // verus!
