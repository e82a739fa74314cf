//! The scheduler's decisions: which process holds the devices, what
//! becomes of a process that stops holding them, and which prefetch orders
//! are accepted.

use vstd::prelude::*;
use crate::plan::{MigrationPlan, MigrationSpecEntry};
use crate::policy::{
    has_pid, pid_index, spec_get_or_insert, with_client_active, with_client_idle,
    with_client_resident_idle, ActiveClientState, IdleRequest, MemoryRequest, ScheduleQueue,
};
use crate::types::GlobalDeviceId;
use crate::prefetch::pid_listed;
use crate::priority::{level_rank, priority_level, PriorityLevel};
use crate::statistics::{ClientStatsView, PreemptionReason, StopReason};

verus! {

/// The scheduler's state: which process holds (or last held) the devices,
/// and the scheduling queue.
pub struct Scheduler<P> {
    pub active_client: ActiveClientState,
    pub sched_queue: ScheduleQueue<P>,
}

/// The level a process is scheduled at: its own if it is known, else the
/// most urgent.
pub open spec fn incoming_level(cs: Seq<ClientStatsView>, pid: i32) -> PriorityLevel {
    if has_pid(cs, pid) {
        priority_level(cs[pid_index(cs, pid)].priority)
    } else {
        PriorityLevel::Interactive
    }
}

/// Why the running process `active` is displaced by `incoming`: the
/// incoming process is strictly more urgent, or it is its turn.
pub open spec fn preemption_reason(cs: Seq<ClientStatsView>, incoming: i32, active: i32) -> PreemptionReason {
    if level_rank(incoming_level(cs, incoming)) > level_rank(priority_level(cs[pid_index(cs, active)].priority)) {
        PreemptionReason::HigherPriority
    } else {
        PreemptionReason::RoundRobin
    }
}

/// A running process displaced by another one is not resident-idle in the
/// queue's records (a resident-idle process may only be made idle lazily).
pub open spec fn displace_allowed(active: ActiveClientState, cs: Seq<ClientStatsView>, incoming: i32) -> bool {
    match active {
        ActiveClientState::Active { pid, .. } => pid != incoming && has_pid(cs, pid)
            ==> !(cs[pid_index(cs, pid)].state is ResidentIdle),
        _ => true,
    }
}

/// The queue's fields other than its clients are those of `q0`.
pub open spec fn same_but_clients<P>(q: ScheduleQueue<P>, q0: ScheduleQueue<P>) -> bool {
    &&& q.spec_sched() == q0.spec_sched()
    &&& q.spec_idle() == q0.spec_idle()
    &&& q.spec_prefetch() == q0.spec_prefetch()
    &&& q.spec_cooldown_until() == q0.spec_cooldown_until()
    &&& q.spec_active() == q0.spec_active()
    &&& q.spec_last_reset() == q0.spec_last_reset()
}

impl<P> Scheduler<P> {
    /// A scheduler with no active process over `sched_queue`.
    pub fn new(sched_queue: ScheduleQueue<P>) -> (s: Self)
        ensures
            s.active_client == ActiveClientState::NoClient,
            s.sched_queue == sched_queue,
    {
        Scheduler { active_client: ActiveClientState::NoClient, sched_queue }
    }

    /// Handles the idle notice `req` (when `yielding`, a yield before a new
    /// request) at `now`: if its process is the active one and is known,
    /// it stops for `reason` with its data kept on the devices, becomes the
    /// last active process since `now`, and the cooldown ends at `now`.
    /// Otherwise nothing changes. Returns whether the notice was taken.
    fn stop_active(&mut self, pid: i32, reason: StopReason, now: u64) -> (taken: bool)
        requires
            old(self).sched_queue.wf(),
        ensures
            final(self).sched_queue.wf(),
            taken == (old(self).active_client matches ActiveClientState::Active { pid: p, .. } && p == pid
                && has_pid(old(self).sched_queue.spec_clients(), pid)),
            taken ==> {
                &&& final(self).active_client == (ActiveClientState::LastActive { pid, last_active: now })
                &&& final(self).sched_queue.spec_clients() == with_client_resident_idle(
                    old(self).sched_queue.spec_clients(),
                    pid,
                    reason,
                    now,
                )
                &&& final(self).sched_queue.spec_cooldown_until() == now
                &&& final(self).sched_queue.spec_sched() == old(self).sched_queue.spec_sched()
                &&& final(self).sched_queue.spec_idle() == old(self).sched_queue.spec_idle()
                &&& final(self).sched_queue.spec_prefetch() == old(self).sched_queue.spec_prefetch()
                &&& final(self).sched_queue.spec_active() == old(self).sched_queue.spec_active()
                &&& final(self).sched_queue.spec_last_reset() == old(self).sched_queue.spec_last_reset()
            },
            !taken ==> *final(self) == *old(self),
    {
        match self.active_client {
            ActiveClientState::Active { pid: active_pid, .. } => {
                if active_pid != pid {
                    return false;
                }
                if self.sched_queue.get_client(pid).is_none() {
                    return false;
                }
                let _ = self.sched_queue.make_resident_idle_at(pid, reason, now);
                self.active_client = ActiveClientState::LastActive { pid, last_active: now };
                self.sched_queue.cooldown_at(None, now);
                true
            },
            _ => false,
        }
    }

    /// Handles the idle notice `req` at `now` (see `stop_active`; the
    /// process stops as idle).
    pub fn handle_activity_idle(&mut self, req: IdleRequest, now: u64) -> (taken: bool)
        requires
            old(self).sched_queue.wf(),
        ensures
            final(self).sched_queue.wf(),
            taken == (old(self).active_client matches ActiveClientState::Active { pid: p, .. } && p == req.pid
                && has_pid(old(self).sched_queue.spec_clients(), req.pid)),
            taken ==> {
                &&& final(self).active_client == (ActiveClientState::LastActive { pid: req.pid, last_active: now })
                &&& final(self).sched_queue.spec_clients() == with_client_resident_idle(
                    old(self).sched_queue.spec_clients(),
                    req.pid,
                    StopReason::Idle,
                    now,
                )
                &&& final(self).sched_queue.spec_cooldown_until() == now
                &&& final(self).sched_queue.spec_sched() == old(self).sched_queue.spec_sched()
                &&& final(self).sched_queue.spec_idle() == old(self).sched_queue.spec_idle()
                &&& final(self).sched_queue.spec_prefetch() == old(self).sched_queue.spec_prefetch()
            },
            !taken ==> *final(self) == *old(self),
    {
        self.stop_active(req.pid, StopReason::Idle, now)
    }

    /// Handles a yield of `pid` before a new request, at `now` (see
    /// `stop_active`; the process stops as yielding and pending). A yield
    /// of a process that is not active is ignored.
    pub fn handle_activity_yield(&mut self, pid: i32, now: u64) -> (taken: bool)
        requires
            old(self).sched_queue.wf(),
        ensures
            final(self).sched_queue.wf(),
            taken == (old(self).active_client matches ActiveClientState::Active { pid: p, .. } && p == pid
                && has_pid(old(self).sched_queue.spec_clients(), pid)),
            taken ==> {
                &&& final(self).active_client == (ActiveClientState::LastActive { pid, last_active: now })
                &&& final(self).sched_queue.spec_clients() == with_client_resident_idle(
                    old(self).sched_queue.spec_clients(),
                    pid,
                    StopReason::YieldAndPending,
                    now,
                )
                &&& final(self).sched_queue.spec_cooldown_until() == now
                &&& final(self).sched_queue.spec_sched() == old(self).sched_queue.spec_sched()
                &&& final(self).sched_queue.spec_idle() == old(self).sched_queue.spec_idle()
                &&& final(self).sched_queue.spec_prefetch() == old(self).sched_queue.spec_prefetch()
            },
            !taken ==> *final(self) == *old(self),
    {
        self.stop_active(pid, StopReason::YieldAndPending, now)
    }

    /// The first step of scheduling `incoming_pid` in at `now`: the
    /// process holding the devices, if another one, stops: a running one is
    /// preempted (for a higher priority or its turn), a last-active one is
    /// made idle lazily. Returns the previous process and whether it was
    /// running.
    pub fn preempt_for(&mut self, incoming_pid: i32, now: u64) -> (prev: Option<(i32, bool)>)
        requires
            old(self).sched_queue.wf(),
            displace_allowed(old(self).active_client, old(self).sched_queue.spec_clients(), incoming_pid),
        ensures
            final(self).sched_queue.wf(),
            final(self).active_client == old(self).active_client,
            same_but_clients(final(self).sched_queue, old(self).sched_queue),
            ({
                let cs = old(self).sched_queue.spec_clients();
                let ncs = final(self).sched_queue.spec_clients();
                match old(self).active_client {
                    ActiveClientState::NoClient => prev is None && ncs == cs,
                    ActiveClientState::Active { pid, .. } => {
                        &&& prev == Some((pid, true))
                        &&& ncs == (if pid != incoming_pid && has_pid(cs, pid) {
                            with_client_idle(cs, pid, StopReason::PreemptedBy(incoming_pid, preemption_reason(cs, incoming_pid, pid)), now)
                        } else {
                            cs
                        })
                    },
                    ActiveClientState::LastActive { pid, .. } => {
                        &&& prev == Some((pid, false))
                        &&& ncs == (if pid != incoming_pid {
                            with_client_idle(cs, pid, StopReason::LazyIdle, now)
                        } else {
                            cs
                        })
                    },
                }
            }),
    {
        match self.active_client {
            ActiveClientState::NoClient => None,
            ActiveClientState::Active { pid, .. } => {
                if pid != incoming_pid {
                    let incoming = match self.sched_queue.client_level(incoming_pid) {
                        Some(l) => l,
                        None => PriorityLevel::max(),
                    };
                    match self.sched_queue.client_level(pid) {
                        Some(current) => {
                            let reason = if incoming.is_higher_than(&current) {
                                PreemptionReason::HigherPriority
                            } else {
                                PreemptionReason::RoundRobin
                            };
                            let _ = self.sched_queue.make_idle_at(pid, StopReason::PreemptedBy(incoming_pid, reason), now);
                        },
                        None => {},
                    }
                }
                Some((pid, true))
            },
            ActiveClientState::LastActive { pid, .. } => {
                if pid != incoming_pid {
                    let _ = self.sched_queue.make_idle_at(pid, StopReason::LazyIdle, now);
                }
                Some((pid, false))
            },
        }
    }

    /// Forgets a process that has exited while holding the devices: no
    /// process is active any more and the queue forgets it.
    pub fn forget_exited(&mut self, pid: i32)
        requires
            old(self).sched_queue.wf(),
        ensures
            final(self).sched_queue.wf(),
            final(self).active_client == ActiveClientState::NoClient,
            !has_pid(final(self).sched_queue.spec_clients(), pid),
    {
        self.active_client = ActiveClientState::NoClient;
        self.sched_queue.remove_client(pid);
    }

    /// The second step of scheduling `incoming_pid` in at `now`: it becomes
    /// known (if it was not) and the active process since `now`.
    pub fn take_in(&mut self, incoming_pid: i32, now: u64)
        requires
            old(self).sched_queue.wf(),
        ensures
            final(self).sched_queue.wf(),
            final(self).active_client == (ActiveClientState::Active { pid: incoming_pid, since: now }),
            final(self).sched_queue.spec_clients() == spec_get_or_insert(old(self).sched_queue.spec_clients(), incoming_pid, now),
            has_pid(final(self).sched_queue.spec_clients(), incoming_pid),
            same_but_clients(final(self).sched_queue, old(self).sched_queue),
    {
        self.sched_queue.ensure_client_at(incoming_pid, now);
        self.active_client = ActiveClientState::Active { pid: incoming_pid, since: now };
    }

    /// The last step of scheduling `incoming_pid` in, once it was told to
    /// run: its statistics record it as running since `now`.
    pub fn activate(&mut self, incoming_pid: i32, now: u64)
        requires
            old(self).sched_queue.wf(),
        ensures
            final(self).sched_queue.wf(),
            final(self).active_client == old(self).active_client,
            final(self).sched_queue.spec_clients() == with_client_active(
                spec_get_or_insert(old(self).sched_queue.spec_clients(), incoming_pid, now),
                incoming_pid,
                now,
            ),
            same_but_clients(final(self).sched_queue, old(self).sched_queue),
    {
        self.sched_queue.make_active_at(incoming_pid, now);
    }

    /// Whether a prefetch concerning the processes `pids` clears the last
    /// active process: it does when that process is among them.
    pub fn should_reset_last_active(&self, pids: &Vec<i32>) -> (r: bool)
        ensures
            r == (self.active_client matches ActiveClientState::LastActive { pid, .. } && pids@.contains(pid)),
    {
        match self.active_client {
            ActiveClientState::LastActive { pid, .. } => {
                let mut i: usize = 0;
                while i < pids.len()
                    invariant
                        i <= pids@.len(),
                        self.active_client matches ActiveClientState::LastActive { pid: p, .. } && p == pid,
                        forall|k: int| 0 <= k < i ==> pids@[k] != pid,
                    decreases pids@.len() - i,
                {
                    if pids[i] == pid {
                        proof {
                            assert(pids@[i as int] == pid);
                            assert(pids@.contains(pid));
                        }
                        return true;
                    }
                    i += 1;
                }
                false
            },
            _ => false,
        }
    }

    /// Clears the active process.
    pub fn clear_active(&mut self)
        ensures
            final(self).active_client == ActiveClientState::NoClient,
            final(self).sched_queue == old(self).sched_queue,
    {
        self.active_client = ActiveClientState::NoClient;
    }
}

/// Which machine device each device a process sees stands for: the
/// process's device `i` is `visible[i]`.
#[derive(Debug, Clone)]
pub struct DeviceOrdinalMapping {
    pub visible: Vec<GlobalDeviceId>,
}

/// The machine device of the process's device `local`, if it has one.
pub open spec fn spec_visible_to_real(visible: Seq<GlobalDeviceId>, local: i32) -> Option<GlobalDeviceId> {
    if 0 <= local < visible.len() {
        Some(visible[local as int])
    } else {
        None
    }
}

/// The first of the process's devices that stands for machine device
/// `dev`, if any.
pub open spec fn spec_real_to_visible(visible: Seq<GlobalDeviceId>, dev: GlobalDeviceId) -> Option<i32> {
    if exists|i: int| 0 <= i < visible.len() && (#[trigger] visible[i]) == dev {
        Some((choose|i: int| 0 <= i < visible.len() && (#[trigger] visible[i]) == dev
            && forall|q: int| 0 <= q < i ==> (#[trigger] visible[q]) != dev) as i32)
    } else {
        None
    }
}

impl DeviceOrdinalMapping {
    /// The first of the process's devices that stands for machine device
    /// `dev`, if any.
    pub fn real_to_visible(&self, dev: GlobalDeviceId) -> (v: Option<i32>)
        requires
            self.visible@.len() <= i32::MAX,
        ensures
            v == spec_real_to_visible(self.visible@, dev),
    {
        let mut i: usize = 0;
        while i < self.visible.len()
            invariant
                i <= self.visible@.len(),
                self.visible@.len() <= i32::MAX,
                forall|q: int| 0 <= q < i ==> (#[trigger] self.visible@[q]) != dev,
            decreases self.visible@.len() - i,
        {
            if self.visible[i] == dev {
                proof {
                    let vis = self.visible@;
                    let w = choose|w: int| 0 <= w < vis.len() && (#[trigger] vis[w]) == dev
                        && forall|q: int| 0 <= q < w ==> (#[trigger] vis[q]) != dev;
                    assert(0 <= i < vis.len() && vis[i as int] == dev && forall|q: int| 0 <= q < i ==> (#[trigger] vis[q]) != dev);
                    if w < i {
                        assert(vis[w] != dev);
                    } else if w > i {
                        assert(vis[i as int] != dev);
                    }
                }
                return Some(i as i32);
            }
            i += 1;
        }
        None
    }

    /// The machine device of the process's device `local`, if it has one.
    pub fn visible_to_real(&self, local: i32) -> (d: Option<GlobalDeviceId>)
        ensures
            d == spec_visible_to_real(self.visible@, local),
    {
        if local >= 0 && (local as usize) < self.visible.len() {
            Some(self.visible[local as usize])
        } else {
            None
        }
    }
}

/// The total of the sizes `s`.
pub open spec fn u64_sum(s: Seq<u64>) -> int
    decreases s.len(),
{
    if s.len() == 0 {
        0
    } else {
        u64_sum(s.drop_last()) + s.last()
    }
}

/// `m` with machine device `d` needing `size` bytes: the entry of `d`
/// replaced where it occurs, else added at the end.
pub open spec fn size_map_insert(m: Seq<(GlobalDeviceId, u64)>, d: GlobalDeviceId, size: u64) -> Seq<(GlobalDeviceId, u64)> {
    if exists|j: int| 0 <= j < m.len() && (#[trigger] m[j]).0 == d {
        m.update(choose|j: int| 0 <= j < m.len() && (#[trigger] m[j]).0 == d, (d, size))
    } else {
        m.push((d, size))
    }
}

/// No machine device occurs twice in `m`.
pub open spec fn size_keys_unique(m: Seq<(GlobalDeviceId, u64)>) -> bool {
    forall|a: int, b: int| 0 <= a < m.len() && 0 <= b < m.len() && a != b ==> (#[trigger] m[a]).0 != (#[trigger] m[b]).0
}

/// The bytes a memory request needs on each machine device, in the order
/// the devices first occur, leaving out devices that need nothing (a later
/// entry for the same device replaces an earlier one); or the first process
/// device that needs something and has no machine device.
pub open spec fn spec_allocation_requirement(req: Seq<(i32, Vec<u64>)>, visible: Seq<GlobalDeviceId>) -> Result<Seq<(GlobalDeviceId, u64)>, i32>
    decreases req.len(),
{
    if req.len() == 0 {
        Ok(Seq::empty())
    } else {
        match spec_allocation_requirement(req.drop_last(), visible) {
            Err(e) => Err(e),
            Ok(m) => {
                let (local, sizes) = req.last();
                if u64_sum(sizes@) == 0 {
                    Ok(m)
                } else {
                    match spec_visible_to_real(visible, local) {
                        None => Err(local),
                        Some(d) => Ok(size_map_insert(m, d, u64_sum(sizes@) as u64)),
                    }
                }
            },
        }
    }
}

/// Every device's sizes total at most `u64::MAX`.
pub open spec fn request_totals_fit(req: Seq<(i32, Vec<u64>)>) -> bool {
    forall|i: int| 0 <= i < req.len() ==> u64_sum((#[trigger] req[i]).1@) <= u64::MAX
}

proof fn lemma_u64_prefix(s: Seq<u64>, k: int)
    requires
        0 <= k <= s.len(),
    ensures
        0 <= u64_sum(s.take(k)) <= u64_sum(s),
    decreases s.len(),
{
    if k < s.len() {
        assert(s.drop_last().take(k) =~= s.take(k));
        lemma_u64_prefix(s.drop_last(), k);
    } else {
        assert(s.take(k) =~= s);
        lemma_u64_nonneg(s);
    }
}

proof fn lemma_u64_nonneg(s: Seq<u64>)
    ensures
        u64_sum(s) >= 0,
    decreases s.len(),
{
    if s.len() > 0 {
        lemma_u64_nonneg(s.drop_last());
    }
}

/// The total of the sizes `s`.
fn total_of(s: &Vec<u64>) -> (t: u64)
    requires
        u64_sum(s@) <= u64::MAX,
    ensures
        t == u64_sum(s@),
{
    let mut t: u64 = 0;
    let mut i: usize = 0;
    while i < s.len()
        invariant
            i <= s@.len(),
            u64_sum(s@) <= u64::MAX,
            t == u64_sum(s@.take(i as int)),
        decreases s@.len() - i,
    {
        proof {
            assert(s@.take(i + 1).drop_last() =~= s@.take(i as int));
            lemma_u64_prefix(s@, i + 1);
        }
        t = t + s[i];
        i += 1;
    }
    proof { assert(s@.take(i as int) =~= s@); }
    t
}

/// The position of machine device `d` in `m`, if it occurs.
fn find_device_entry(m: &Vec<(GlobalDeviceId, u64)>, d: GlobalDeviceId) -> (k: Option<usize>)
    ensures
        match k {
            Some(k) => k < m@.len() && m@[k as int].0 == d,
            None => forall|q: int| 0 <= q < m@.len() ==> (#[trigger] m@[q]).0 != d,
        },
{
    let mut k: usize = 0;
    while k < m.len()
        invariant
            k <= m@.len(),
            forall|q: int| 0 <= q < k ==> (#[trigger] m@[q]).0 != d,
        decreases m@.len() - k,
    {
        if m[k].0 == d {
            return Some(k);
        }
        k += 1;
    }
    None
}

/// The bytes the memory request `mem_req` of a process with device mapping
/// `mapping` needs on each machine device (see
/// `spec_allocation_requirement`); `Err` names a process device with no
/// machine device.
pub fn allocation_requirement(mem_req: &MemoryRequest, mapping: &DeviceOrdinalMapping) -> (r: Result<Vec<(GlobalDeviceId, u64)>, i32>)
    requires
        request_totals_fit(mem_req.mem_req@),
    ensures
        match r {
            Ok(v) => spec_allocation_requirement(mem_req.mem_req@, mapping.visible@) == Ok::<Seq<(GlobalDeviceId, u64)>, i32>(v@),
            Err(e) => spec_allocation_requirement(mem_req.mem_req@, mapping.visible@) == Err::<Seq<(GlobalDeviceId, u64)>, i32>(e),
        },
{
    let req = &mem_req.mem_req;
    let mut out: Vec<(GlobalDeviceId, u64)> = Vec::new();
    let mut i: usize = 0;
    while i < req.len()
        invariant
            i <= req@.len(),
            *req == mem_req.mem_req,
            request_totals_fit(req@),
            spec_allocation_requirement(req@.take(i as int), mapping.visible@) == Ok::<Seq<(GlobalDeviceId, u64)>, i32>(out@),
            size_keys_unique(out@),
        decreases req@.len() - i,
    {
        proof {
            assert(req@.take(i + 1).drop_last() =~= req@.take(i as int));
            assert(req@.take(i + 1).last() == req@[i as int]);
        }
        let local = req[i].0;
        let size = total_of(&req[i].1);
        if size > 0 {
            match mapping.visible_to_real(local) {
                None => {
                    proof {
                        lemma_requirement_err_stays(req@, mapping.visible@, i as int + 1, local);
                        assert(req@.take(req@.len() as int) =~= req@);
                    }
                    return Err(local);
                },
                Some(d) => {
                    let ghost old_out = out@;
                    let at = find_device_entry(&out, d);
                    match at {
                        Some(k) => {
                            proof {
                                assert(old_out[k as int].0 == d);
                                let w = choose|q: int| 0 <= q < old_out.len() && (#[trigger] old_out[q]).0 == d;
                                assert(w == k as int);
                            }
                            out.set(k, (d, size));
                        },
                        None => {
                            out.push((d, size));
                            proof {
                                assert(out@.drop_last() =~= old_out);
                            }
                        },
                    }
                },
            }
        }
        i += 1;
    }
    proof { assert(req@.take(i as int) =~= req@); }
    Ok(out)
}

proof fn lemma_requirement_err_stays(req: Seq<(i32, Vec<u64>)>, visible: Seq<GlobalDeviceId>, k: int, e: i32)
    requires
        0 <= k <= req.len(),
        spec_allocation_requirement(req.take(k), visible) == Err::<Seq<(GlobalDeviceId, u64)>, i32>(e),
    ensures
        spec_allocation_requirement(req, visible) == Err::<Seq<(GlobalDeviceId, u64)>, i32>(e),
    decreases req.len() - k,
{
    if k < req.len() {
        assert(req.take(k + 1).drop_last() =~= req.take(k));
        lemma_requirement_err_stays(req, visible, k + 1, e);
    } else {
        assert(req.take(k) =~= req);
    }
}

/// The total size of the entries `es`.
pub open spec fn entry_sizes(es: Seq<MigrationSpecEntry>) -> int
    decreases es.len(),
{
    if es.len() == 0 {
        0
    } else {
        entry_sizes(es.drop_last()) + es.last().size
    }
}

proof fn lemma_entry_prefix(es: Seq<MigrationSpecEntry>, k: int)
    requires
        0 <= k <= es.len(),
    ensures
        0 <= entry_sizes(es.take(k)) <= entry_sizes(es),
    decreases es.len(),
{
    if k < es.len() {
        assert(es.drop_last().take(k) =~= es.take(k));
        lemma_entry_prefix(es.drop_last(), k);
    } else {
        assert(es.take(k) =~= es);
        lemma_entry_nonneg(es);
    }
}

proof fn lemma_entry_nonneg(es: Seq<MigrationSpecEntry>)
    ensures
        entry_sizes(es) >= 0,
    decreases es.len(),
{
    if es.len() > 0 {
        lemma_entry_nonneg(es.drop_last());
    }
}

/// What a scheduling of `incoming_pid` asks of the data, decided before any
/// request goes out.
#[derive(Debug, Clone, Copy, PartialEq, Eq, Structural)]
pub enum MigrationStep {
    /// The process on the devices asks again without a memory request:
    /// nothing moves.
    Nothing,
    /// The incoming process is not connected.
    UnknownClient(i32),
    /// Data moves for the incoming process.
    Migrate,
}

/// The decision for bringing `incoming_pid` onto the devices while
/// `active_pid` holds them, with or without a memory request, among the
/// connected processes `listed`.
pub open spec fn spec_migration_step(incoming_pid: i32, active_pid: i32, has_mem_req: bool, listed: Seq<i32>) -> MigrationStep {
    if incoming_pid == active_pid && !has_mem_req {
        MigrationStep::Nothing
    } else if !listed.contains(incoming_pid) {
        MigrationStep::UnknownClient(incoming_pid)
    } else {
        MigrationStep::Migrate
    }
}

/// Decides whether data moves for `incoming_pid` (see
/// `spec_migration_step`).
pub fn migration_step(incoming_pid: i32, active_pid: i32, has_mem_req: bool, listed: &Vec<i32>) -> (s: MigrationStep)
    ensures
        s == spec_migration_step(incoming_pid, active_pid, has_mem_req, listed@),
{
    if incoming_pid == active_pid && !has_mem_req {
        MigrationStep::Nothing
    } else if !pid_listed(listed, incoming_pid) {
        MigrationStep::UnknownClient(incoming_pid)
    } else {
        MigrationStep::Migrate
    }
}

/// The bytes moved off the devices from the first process the plan
/// displaces, if any: the size the scheduler accounts the switch by.
pub fn first_swap_out(plan: &MigrationPlan) -> (s: Option<u64>)
    requires
        plan.out_of_gpu@.len() > 0 ==> entry_sizes(plan.out_of_gpu@[0].2@) <= u64::MAX,
    ensures
        s == (if plan.out_of_gpu@.len() == 0 {
            None
        } else {
            Some(entry_sizes(plan.out_of_gpu@[0].2@) as u64)
        }),
{
    if plan.out_of_gpu.len() == 0 {
        return None;
    }
    let es = &plan.out_of_gpu[0].2;
    let mut t: u64 = 0;
    let mut i: usize = 0;
    while i < es.len()
        invariant
            i <= es@.len(),
            entry_sizes(es@) <= u64::MAX,
            t == entry_sizes(es@.take(i as int)),
        decreases es@.len() - i,
    {
        proof {
            assert(es@.take(i + 1).drop_last() =~= es@.take(i as int));
            lemma_entry_prefix(es@, i + 1);
        }
        t = t + es[i].size as u64;
        i += 1;
    }
    proof { assert(es@.take(i as int) =~= es@); }
    Some(t)
}

} // verus!
