//! Per-client scheduling statistics: the bounded history of running
//! periods, the client's state and its dynamic priority bookkeeping.
//!
//! Time points are nanoseconds on a monotonic clock shared by the whole
//! scheduler; durations are nanoseconds too. Differences of time points
//! saturate at zero, as those of `std::time::Instant` do.

use vstd::prelude::*;
use crate::priority::{
    level_rank, priority_level, spec_decrease, spec_increase, Priority, PriorityLevel,
};
use std::collections::VecDeque;

verus! {

/// `a - b`, or zero when `b` is later than `a`.
pub open spec fn sat_sub(a: u64, b: u64) -> u64 {
    if a >= b { (a - b) as u64 } else { 0 }
}

/// `a + b`, capped at `u64::MAX`.
pub open spec fn sat_add(a: u64, b: u64) -> u64 {
    if a + b <= u64::MAX { (a + b) as u64 } else { u64::MAX }
}

/// Why a running client was preempted.
#[derive(Debug, Clone, Copy, PartialEq, Eq, Structural)]
pub enum PreemptionReason {
    RoundRobin,
    HigherPriority,
}

/// Why a running period ended.
#[derive(Debug, Clone, Copy, PartialEq, Eq, Structural)]
pub enum StopReason {
    Idle,
    /// The process is in fact idle, but its state has not been evicted yet.
    LazyIdle,
    YieldAndPending,
    PreemptedBy(i32, PreemptionReason),
}

/// One period during which a client held the devices.
#[derive(Debug, Clone, Copy, PartialEq, Eq, Structural)]
pub struct RunningChunk {
    pub start: u64,
    pub end: u64,
    pub start_priority: PriorityLevel,
    pub end_priority: PriorityLevel,
    pub reason: StopReason,
}

/// The length of a running period.
pub open spec fn chunk_duration(c: RunningChunk) -> u64 {
    sat_sub(c.end, c.start)
}

impl RunningChunk {
    /// The length of this period (zero if it ends before it starts).
    pub fn duration(&self) -> (d: u64)
        ensures
            d == chunk_duration(*self),
    {
        self.end.saturating_sub(self.start)
    }
}

/// The state of a client as reported to the control tool.
#[derive(Debug, Clone, Copy, PartialEq, Eq, Structural)]
pub enum ClientState {
    Active,
    Idle,
    ScheduleWaiting,
}

/// The state of a client as the scheduler tracks it.
#[derive(Debug, Clone, Copy, PartialEq, Eq, Structural)]
pub enum InternalClientState {
    Active { since: u64, start_priority: PriorityLevel },
    Idle,
    /// Idle, with its data still resident on the devices.
    ResidentIdle,
    ScheduleWaiting { since: u64 },
}

/// The reported state of an internal state.
pub open spec fn spec_client_state(s: InternalClientState) -> ClientState {
    match s {
        InternalClientState::Active { .. } => ClientState::Active,
        InternalClientState::Idle => ClientState::Idle,
        InternalClientState::ResidentIdle => ClientState::Idle,
        InternalClientState::ScheduleWaiting { .. } => ClientState::ScheduleWaiting,
    }
}

impl InternalClientState {
    /// Whether the client holds the devices.
    pub fn is_active(&self) -> (r: bool)
        ensures
            r == (*self is Active),
    {
        match self {
            InternalClientState::Active { .. } => true,
            _ => false,
        }
    }

    /// The reported form of this state.
    pub fn as_client_state(&self) -> (s: ClientState)
        ensures
            s == spec_client_state(*self),
    {
        match self {
            InternalClientState::Active { .. } => ClientState::Active,
            InternalClientState::Idle => ClientState::Idle,
            InternalClientState::ResidentIdle => ClientState::Idle,
            InternalClientState::ScheduleWaiting { .. } => ClientState::ScheduleWaiting,
        }
    }
}

/// A history of running periods that forgets its oldest entry once it
/// holds `max_size` of them.
pub struct History {
    inner: VecDeque<RunningChunk>,
    max_size: usize,
}

/// The history after recording `c`.
pub open spec fn spec_history_push(h: Seq<RunningChunk>, max_size: usize, c: RunningChunk) -> Seq<RunningChunk> {
    if h.len() == max_size && h.len() > 0 {
        h.drop_first().push(c)
    } else {
        h.push(c)
    }
}

impl View for History {
    type V = Seq<RunningChunk>;

    closed spec fn view(&self) -> Seq<RunningChunk> {
        self.inner@
    }
}

impl History {
    /// The bound given at creation.
    pub closed spec fn capacity(&self) -> usize {
        self.max_size
    }

    /// An empty history keeping at most `max_size` periods.
    pub fn new(max_size: usize) -> (h: Self)
        ensures
            h@ == Seq::<RunningChunk>::empty(),
            h.capacity() == max_size,
    {
        History { inner: VecDeque::with_capacity(max_size), max_size }
    }

    /// Records a period, forgetting the oldest when the history is full.
    pub fn push(&mut self, chunk: RunningChunk)
        ensures
            final(self)@ == spec_history_push(old(self)@, old(self).capacity(), chunk),
            final(self).capacity() == old(self).capacity(),
    {
        if self.inner.len() == self.max_size {
            self.inner.pop_front();
        }
        self.inner.push_back(chunk);
        proof {
            if old(self)@.len() == old(self).capacity() && old(self)@.len() > 0 {
                assert(final(self)@ =~= old(self)@.drop_first().push(chunk));
            }
        }
    }

    /// The recorded periods, oldest first.
    pub fn iter(&self) -> (v: Vec<RunningChunk>)
        ensures
            v@ == self@,
    {
        let mut v: Vec<RunningChunk> = Vec::new();
        let n = self.inner.len();
        let mut i: usize = 0;
        while i < n
            invariant
                n == self@.len(),
                i <= n,
                v@ == self@.subrange(0, i as int),
            decreases n - i,
        {
            v.push(self.inner[i]);
            i += 1;
        }
        v
    }
}

/// A history with a positive bound never holds more than its bound.
pub proof fn lemma_history_bounded(h: Seq<RunningChunk>, max_size: usize, c: RunningChunk)
    requires
        max_size > 0,
        h.len() <= max_size,
    ensures
        spec_history_push(h, max_size, c).len() <= max_size,
        spec_history_push(h, max_size, c).last() == c,
{
}

/// Whether the client was last seen active or idle, and since when.
#[derive(Debug, Clone, Copy, PartialEq, Eq, Structural)]
pub enum StateSinceLastActive {
    Active(u64),
    Idle(u64),
}

/// How many periods a client's history keeps.
pub const HISTORY_SIZE: usize = 64;

/// The running time of the current unfinished stretch: the periods since
/// the last one that ended in idleness, counted from `since` for a period
/// that started before it. `None` when the stretch is empty.
pub open spec fn spec_unfinished_time(h: Seq<RunningChunk>, since: Option<u64>) -> Option<u64>
    decreases h.len(),
{
    if h.len() == 0 {
        None
    } else {
        let e = h.last();
        if e.reason is Idle {
            None
        } else if since is Some && e.start < since->0 {
            Some(sat_sub(e.end, since->0))
        } else {
            match spec_unfinished_time(h.drop_last(), since) {
                None => Some(chunk_duration(e)),
                Some(t) => Some(sat_add(t, chunk_duration(e))),
            }
        }
    }
}

/// The number of periods of the current unfinished stretch, the period
/// that started before `since` counted and ending the stretch.
pub open spec fn spec_unfinished_count(h: Seq<RunningChunk>, since: Option<u64>) -> nat
    decreases h.len(),
{
    if h.len() == 0 {
        0
    } else {
        let e = h.last();
        if e.reason is Idle {
            0
        } else if since is Some && e.start < since->0 {
            1
        } else {
            1 + spec_unfinished_count(h.drop_last(), since)
        }
    }
}

/// Joins the result for an earlier part of a history with the running
/// time `acc` of the later periods.
pub open spec fn combine(earlier: Option<u64>, acc: Option<u64>) -> Option<u64> {
    match (earlier, acc) {
        (None, _) => acc,
        (Some(t), None) => Some(t),
        (Some(t), Some(a)) => Some(sat_add(t, a)),
    }
}

/// The unfinished running time of the first `i` periods of `h`.
pub open spec fn spec_unfinished_time_prefix(h: Seq<RunningChunk>, i: int, since: Option<u64>) -> Option<u64> {
    spec_unfinished_time(h.subrange(0, i), since)
}

proof fn lemma_sat_add_props()
    ensures
        forall|a: u64, b: u64| #[trigger] sat_add(a, b) == sat_add(b, a),
        forall|a: u64, b: u64, c: u64|
            #[trigger] sat_add(sat_add(a, b), c) == sat_add(a, sat_add(b, c)),
{
}

/// What the scheduler knows of a client, as plain values.
pub struct ClientStatsView {
    pub pid: i32,
    pub history: Seq<RunningChunk>,
    pub state: InternalClientState,
    pub priority: Priority,
    /// Time spent active since the priority last changed.
    pub time_used: u64,
    /// When `time_used` was last brought up to date.
    pub last_in_current: u64,
    pub last_priority_update: u64,
    pub last_state: StateSinceLastActive,
}

/// The statistics the scheduler keeps for one client.
pub struct ClientStatistics {
    pid: i32,
    active_time_history: History,
    state: InternalClientState,
    priority: Priority,
    time_used_in_current_priority: u64,
    last_in_current_priority: u64,
    last_priority_update: u64,
    last_state: StateSinceLastActive,
}

impl View for ClientStatistics {
    type V = ClientStatsView;

    closed spec fn view(&self) -> ClientStatsView {
        ClientStatsView {
            pid: self.pid,
            history: self.active_time_history@,
            state: self.state,
            priority: self.priority,
            time_used: self.time_used_in_current_priority,
            last_in_current: self.last_in_current_priority,
            last_priority_update: self.last_priority_update,
            last_state: self.last_state,
        }
    }
}

/// A client that was just seen for the first time at `now`.
pub open spec fn spec_new_client(pid: i32, now: u64) -> ClientStatsView {
    ClientStatsView {
        pid,
        history: Seq::empty(),
        state: InternalClientState::Idle,
        priority: Priority::Dynamic { level: PriorityLevel::Interactive, weight: 0 },
        time_used: 0,
        last_in_current: now,
        last_priority_update: now,
        last_state: StateSinceLastActive::Idle(now),
    }
}

/// The client after it starts holding the devices at `now`.
pub open spec fn spec_make_active(c: ClientStatsView, now: u64) -> ClientStatsView {
    ClientStatsView {
        state: InternalClientState::Active { since: now, start_priority: priority_level(c.priority) },
        last_state: StateSinceLastActive::Active(now),
        last_in_current: now,
        ..c
    }
}

/// The history after the client stops at `now` for `reason`: an active
/// client's period is recorded, other states record nothing.
pub open spec fn spec_history_after_stop(c: ClientStatsView, reason: StopReason, now: u64) -> Seq<RunningChunk> {
    match c.state {
        InternalClientState::Active { since, start_priority } => spec_history_push(
            c.history,
            HISTORY_SIZE,
            RunningChunk {
                start: since,
                end: now,
                start_priority,
                end_priority: priority_level(c.priority),
                reason,
            },
        ),
        _ => c.history,
    }
}

/// The client after it stops at `now` for `reason`, its data kept on the
/// devices.
pub open spec fn spec_make_resident_idle(c: ClientStatsView, reason: StopReason, now: u64) -> ClientStatsView {
    ClientStatsView {
        history: spec_history_after_stop(c, reason, now),
        state: InternalClientState::ResidentIdle,
        last_state: StateSinceLastActive::Idle(now),
        ..c
    }
}

/// The client after it stops at `now` for `reason`.
pub open spec fn spec_make_idle(c: ClientStatsView, reason: StopReason, now: u64) -> ClientStatsView {
    ClientStatsView {
        history: spec_history_after_stop(c, reason, now),
        state: InternalClientState::Idle,
        last_state: StateSinceLastActive::Idle(now),
        ..c
    }
}

/// The client after its priority becomes `priority` at `now`.
pub open spec fn spec_with_priority(c: ClientStatsView, priority: Priority, now: u64) -> ClientStatsView {
    ClientStatsView { priority, last_priority_update: now, time_used: 0, ..c }
}

/// The client after its active time is brought up to date at `now`.
pub open spec fn spec_update_if_active(c: ClientStatsView, now: u64) -> ClientStatsView {
    if c.state is Active {
        ClientStatsView {
            time_used: sat_add(c.time_used, sat_sub(now, c.last_in_current)),
            last_in_current: now,
            ..c
        }
    } else {
        c
    }
}

/// The history bound is the fixed one and is respected.
pub open spec fn client_view_wf(c: ClientStatsView) -> bool {
    c.history.len() <= HISTORY_SIZE
}

impl ClientStatistics {
    /// The history keeps the fixed bound and respects it.
    pub closed spec fn wf(&self) -> bool {
        &&& self.active_time_history.capacity() == HISTORY_SIZE
        &&& self.active_time_history@.len() <= HISTORY_SIZE
    }

    /// Well-formed statistics have a well-formed view.
    pub proof fn lemma_wf_view(&self)
        requires
            self.wf(),
        ensures
            client_view_wf(self@),
    {
    }

    /// A fresh client: idle since `now`, with the default dynamic priority
    /// and an empty history.
    pub fn new(pid: i32, now: u64) -> (s: Self)
        ensures
            s.wf(),
            s@ == spec_new_client(pid, now),
    {
        ClientStatistics {
            pid,
            state: InternalClientState::Idle,
            active_time_history: History::new(HISTORY_SIZE),
            priority: Priority::default_dynamic(),
            time_used_in_current_priority: 0,
            last_in_current_priority: now,
            last_priority_update: now,
            last_state: StateSinceLastActive::Idle(now),
        }
    }

    /// Marks the client as holding the devices from `now` on.
    pub fn make_active(&mut self, now: u64)
        requires
            old(self).wf(),
        ensures
            final(self).wf(),
            final(self)@ == spec_make_active(old(self)@, now),
    {
        self.state = InternalClientState::Active { since: now, start_priority: self.priority.level() };
        self.last_state = StateSinceLastActive::Active(now);
        self.last_in_current_priority = now;
    }

    fn record_stop(&mut self, reason: StopReason, now: u64)
        requires
            old(self).wf(),
        ensures
            final(self).wf(),
            final(self)@ == (ClientStatsView {
                history: spec_history_after_stop(old(self)@, reason, now),
                ..old(self)@
            }),
    {
        match self.state {
            InternalClientState::Active { since, start_priority } => {
                let chunk = RunningChunk {
                    start: since,
                    end: now,
                    start_priority,
                    end_priority: self.priority.level(),
                    reason,
                };
                self.active_time_history.push(chunk);
            },
            _ => {},
        }
    }

    /// Marks the client idle with its data still on the devices; an active
    /// client's running period is recorded.
    pub fn make_resident_idle(&mut self, reason: StopReason, now: u64)
        requires
            old(self).wf(),
        ensures
            final(self).wf(),
            final(self)@ == spec_make_resident_idle(old(self)@, reason, now),
    {
        self.record_stop(reason, now);
        self.state = InternalClientState::ResidentIdle;
        self.last_state = StateSinceLastActive::Idle(now);
    }

    /// Marks the client idle; an active client's running period is
    /// recorded. A resident-idle client may only be made idle lazily.
    pub fn make_idle(&mut self, reason: StopReason, now: u64)
        requires
            old(self).wf(),
            old(self)@.state is ResidentIdle ==> reason is LazyIdle,
        ensures
            final(self).wf(),
            final(self)@ == spec_make_idle(old(self)@, reason, now),
    {
        self.record_stop(reason, now);
        self.state = InternalClientState::Idle;
        self.last_state = StateSinceLastActive::Idle(now);
    }

    /// Raises the priority by one level (bounded by `until`), restarting
    /// the time count of the current priority; returns whether it changed.
    pub fn increase_priority(&mut self, until: Option<PriorityLevel>, now: u64) -> (changed: bool)
        requires
            old(self).wf(),
        ensures
            final(self).wf(),
            changed == spec_increase(old(self)@.priority, until).1,
            final(self)@ == spec_with_priority(old(self)@, spec_increase(old(self)@.priority, until).0, now),
    {
        self.last_priority_update = now;
        let changed = self.priority.increase(until);
        self.time_used_in_current_priority = 0;
        changed
    }

    /// Lowers the priority by one level (bounded by `until`), restarting
    /// the time count of the current priority; returns whether it changed.
    pub fn decrease_priority(&mut self, until: Option<PriorityLevel>, now: u64) -> (changed: bool)
        requires
            old(self).wf(),
        ensures
            final(self).wf(),
            changed == spec_decrease(old(self)@.priority, until).1,
            final(self)@ == spec_with_priority(old(self)@, spec_decrease(old(self)@.priority, until).0, now),
    {
        self.last_priority_update = now;
        let changed = self.priority.decrease(until);
        self.time_used_in_current_priority = 0;
        changed
    }

    /// Replaces the priority, restarting the time count of the current
    /// priority.
    pub fn set_priority(&mut self, priority: Priority, now: u64)
        requires
            old(self).wf(),
        ensures
            final(self).wf(),
            final(self)@ == spec_with_priority(old(self)@, priority, now),
    {
        self.last_priority_update = now;
        self.priority = priority;
        self.time_used_in_current_priority = 0;
    }

    /// For an active client, adds the time since the last update to the
    /// time used at the current priority.
    pub fn update_if_active(&mut self, now: u64)
        requires
            old(self).wf(),
        ensures
            final(self).wf(),
            final(self)@ == spec_update_if_active(old(self)@, now),
    {
        if self.state.is_active() {
            let elapsed = now.saturating_sub(self.last_in_current_priority);
            self.time_used_in_current_priority = self.time_used_in_current_priority.saturating_add(
                elapsed,
            );
            self.last_in_current_priority = now;
        }
    }

    /// Time since the priority last changed.
    pub fn priority_upd_since(&self, now: u64) -> (d: u64)
        ensures
            d == sat_sub(now, self@.last_priority_update),
    {
        now.saturating_sub(self.last_priority_update)
    }

    /// Time since the client went idle, if it is idle.
    pub fn idle_since(&self, now: u64) -> (d: Option<u64>)
        ensures
            d == spec_idle_since(self@, now),
    {
        match self.last_state {
            StateSinceLastActive::Idle(t) => Some(now.saturating_sub(t)),
            StateSinceLastActive::Active(_) => None,
        }
    }

    /// The running time of the current unfinished stretch of periods (see
    /// `spec_unfinished_time`).
    pub fn last_unfinished_active_time(&self, since: Option<u64>) -> (t: Option<u64>)
        ensures
            t == spec_unfinished_time(self@.history, since),
    {
        let n = self.active_time_history.inner.len();
        let ghost h = self@.history;
        let mut acc: Option<u64> = None;
        let mut i: usize = n;
        proof { assert(h.subrange(0, n as int) =~= h); }
        while i > 0
            invariant
                n == h.len(),
                h == self@.history,
                i <= n,
                spec_unfinished_time(h, since) == combine(spec_unfinished_time_prefix(h, i as int, since), acc),
            decreases i,
        {
            let e = self.active_time_history.inner[i - 1];
            proof {
                assert(h.subrange(0, i as int).last() == e);
                assert(h.subrange(0, i as int).drop_last() =~= h.subrange(0, i - 1));
            }
            match e.reason {
                StopReason::Idle => {
                    return acc;
                },
                _ => {},
            }
            match since {
                Some(s) => {
                    if e.start < s {
                        let part = e.end.saturating_sub(s);
                        let total = match acc {
                            None => part,
                            Some(a) => a.saturating_add(part),
                        };
                        proof { lemma_sat_add_props(); }
                        return Some(total);
                    }
                },
                None => {},
            }
            let d = e.duration();
            acc = match acc {
                None => Some(d),
                Some(a) => Some(a.saturating_add(d)),
            };
            proof { lemma_sat_add_props(); }
            i -= 1;
        }
        proof { assert(h.subrange(0, 0) =~= Seq::<RunningChunk>::empty()); }
        acc
    }

    /// The number of periods in the current unfinished stretch (see
    /// `spec_unfinished_count`).
    pub fn last_unfinished_schedule(&self, since: Option<u64>) -> (count: u32)
        requires
            self.wf(),
        ensures
            count == spec_unfinished_count(self@.history, since),
    {
        let n = self.active_time_history.inner.len();
        let ghost h = self@.history;
        let mut count: u32 = 0;
        let mut i: usize = n;
        proof { assert(h.subrange(0, n as int) =~= h); }
        while i > 0
            invariant
                n == h.len(),
                n <= HISTORY_SIZE,
                h == self@.history,
                i <= n,
                count == n - i,
                spec_unfinished_count(h, since) == count + spec_unfinished_count(h.subrange(0, i as int), since),
            decreases i,
        {
            let e = self.active_time_history.inner[i - 1];
            proof {
                assert(h.subrange(0, i as int).last() == e);
                assert(h.subrange(0, i as int).drop_last() =~= h.subrange(0, i - 1));
            }
            match e.reason {
                StopReason::Idle => {
                    return count;
                },
                _ => {},
            }
            count += 1;
            match since {
                Some(s) => {
                    if e.start < s {
                        return count;
                    }
                },
                None => {},
            }
            i -= 1;
        }
        proof { assert(h.subrange(0, 0) =~= Seq::<RunningChunk>::empty()); }
        count
    }

    /// The client's priority.
    pub fn priority(&self) -> (p: Priority)
        ensures
            p == self@.priority,
    {
        self.priority
    }

    /// The client's process id.
    pub fn pid(&self) -> (pid: i32)
        ensures
            pid == self@.pid,
    {
        self.pid
    }

    /// The client's state.
    pub fn state_ref(&self) -> (s: &InternalClientState)
        ensures
            *s == self@.state,
    {
        &self.state
    }

    /// Time used while active since the priority last changed.
    pub fn accumulated_time_in_current_priority(&self) -> (t: u64)
        ensures
            t == self@.time_used,
    {
        self.time_used_in_current_priority
    }

    /// The recorded running periods, oldest first.
    pub fn get_history(&self) -> (v: Vec<RunningChunk>)
        ensures
            v@ == self@.history,
    {
        self.active_time_history.iter()
    }
}

/// Time since the client went idle, if it is idle.
pub open spec fn spec_idle_since(c: ClientStatsView, now: u64) -> Option<u64> {
    match c.last_state {
        StateSinceLastActive::Idle(t) => Some(sat_sub(now, t)),
        StateSinceLastActive::Active(_) => None,
    }
}

/// Stopping a client records at most one period, and the history stays
/// within its bound.
pub proof fn lemma_stop_keeps_bound(c: ClientStatsView, reason: StopReason, now: u64)
    requires
        client_view_wf(c),
    ensures
        client_view_wf(spec_make_idle(c, reason, now)),
        client_view_wf(spec_make_resident_idle(c, reason, now)),
        c.state is Active ==> spec_make_idle(c, reason, now).history.last().reason == reason,
        !(c.state is Active) ==> spec_make_idle(c, reason, now).history == c.history,
{
}

} // verus!
