use nixie::priority::{
    priority_level_to_cooldown, priority_level_to_time_quantum, Priority, PriorityLevel,
};
use nixie::statistics::{
    ClientStatistics, History, InternalClientState, RunningChunk, StopReason,
};

#[test]
fn level_ranks_roundtrip() {
    for v in 0u8..=3 {
        assert_eq!(PriorityLevel::from(v).to_u8(), v);
    }
    assert_eq!(PriorityLevel::max(), PriorityLevel::Interactive);
    assert_eq!(PriorityLevel::min(), PriorityLevel::Background);
    assert!(PriorityLevel::Interactive.is_higher_than(&PriorityLevel::Batch));
    assert!(!PriorityLevel::Batch.is_higher_than(&PriorityLevel::Batch));
}

#[test]
fn increase_then_decrease_restores() {
    let start = Priority::Dynamic { level: PriorityLevel::Batch, weight: 3 };
    let mut p = start;
    assert!(p.increase(None));
    assert_eq!(p, Priority::Dynamic { level: PriorityLevel::LowInteractive, weight: 3 });
    assert!(p.decrease(None));
    assert_eq!(p, start);
}

#[test]
fn increase_respects_bound_and_top() {
    let mut p = Priority::Dynamic { level: PriorityLevel::Interactive, weight: 0 };
    assert!(!p.increase(None));
    assert_eq!(p.level(), PriorityLevel::Interactive);
    let mut q = Priority::Dynamic { level: PriorityLevel::Batch, weight: 0 };
    assert!(!q.increase(Some(PriorityLevel::Batch)));
    assert_eq!(q.level(), PriorityLevel::Batch);
}

#[test]
fn decrease_respects_bound_and_bottom() {
    let mut p = Priority::Dynamic { level: PriorityLevel::Background, weight: 0 };
    assert!(!p.decrease(None));
    let mut q = Priority::Dynamic { level: PriorityLevel::Batch, weight: 0 };
    assert!(!q.decrease(Some(PriorityLevel::Batch)));
    let mut r = Priority::Dynamic { level: PriorityLevel::LowInteractive, weight: 0 };
    assert!(r.decrease(Some(PriorityLevel::Batch)));
    assert_eq!(r.level(), PriorityLevel::Batch);
}

#[test]
fn fixed_priority_never_moves() {
    let mut p = Priority::Fixed(PriorityLevel::Batch);
    assert!(!p.increase(None));
    assert!(!p.decrease(None));
    assert_eq!(p, Priority::Fixed(PriorityLevel::Batch));
}

#[test]
fn quanta_and_cooldowns() {
    assert_eq!(priority_level_to_time_quantum(PriorityLevel::Interactive), 8_000_000_000);
    assert_eq!(priority_level_to_time_quantum(PriorityLevel::LowInteractive), 16_000_000_000);
    assert_eq!(priority_level_to_time_quantum(PriorityLevel::Batch), 64_000_000_000);
    assert_eq!(priority_level_to_time_quantum(PriorityLevel::Background), 128_000_000_000);
    assert_eq!(priority_level_to_cooldown(PriorityLevel::Interactive), 4_000_000_000);
    assert_eq!(priority_level_to_cooldown(PriorityLevel::Background), 64_000_000_000);
}

fn chunk(start: u64, end: u64, reason: StopReason) -> RunningChunk {
    RunningChunk {
        start,
        end,
        start_priority: PriorityLevel::Interactive,
        end_priority: PriorityLevel::Interactive,
        reason,
    }
}

#[test]
fn chunk_duration_saturates() {
    assert_eq!(chunk(10, 25, StopReason::Idle).duration(), 15);
    assert_eq!(chunk(25, 10, StopReason::Idle).duration(), 0);
}

#[test]
fn history_forgets_oldest() {
    let mut h = History::new(2);
    h.push(chunk(0, 1, StopReason::Idle));
    h.push(chunk(1, 2, StopReason::Idle));
    h.push(chunk(2, 3, StopReason::LazyIdle));
    let v = h.iter();
    assert_eq!(v.len(), 2);
    assert_eq!(v[0].start, 1);
    assert_eq!(v[1].start, 2);
    assert_eq!(v[1].reason, StopReason::LazyIdle);
}

#[test]
fn client_runs_and_stops() {
    let mut c = ClientStatistics::new(42, 100);
    assert_eq!(c.pid(), 42);
    assert_eq!(c.priority(), Priority::default_dynamic());
    assert!(!c.state_ref().is_active());
    c.make_active(1_000);
    assert!(c.state_ref().is_active());
    c.update_if_active(3_000);
    assert_eq!(c.accumulated_time_in_current_priority(), 2_000);
    c.make_idle(StopReason::Idle, 4_000);
    assert_eq!(*c.state_ref(), InternalClientState::Idle);
    let hist = c.get_history();
    assert_eq!(hist.len(), 1);
    assert_eq!(hist[0].start, 1_000);
    assert_eq!(hist[0].end, 4_000);
    assert_eq!(hist[0].reason, StopReason::Idle);
    assert_eq!(c.idle_since(10_000), Some(6_000));
}

#[test]
fn unfinished_stretch_is_counted() {
    let mut c = ClientStatistics::new(7, 0);
    c.make_active(100);
    c.make_idle(StopReason::YieldAndPending, 300);
    c.make_active(400);
    c.make_idle(StopReason::YieldAndPending, 450);
    assert_eq!(c.last_unfinished_active_time(None), Some(250));
    assert_eq!(c.last_unfinished_schedule(None), 2);
    c.make_active(500);
    c.make_idle(StopReason::Idle, 600);
    assert_eq!(c.last_unfinished_active_time(None), None);
    assert_eq!(c.last_unfinished_schedule(None), 0);
}

#[test]
fn priority_changes_reset_time_used() {
    let mut c = ClientStatistics::new(9, 0);
    c.make_active(0);
    c.update_if_active(500);
    c.make_idle(StopReason::Idle, 500);
    assert_eq!(c.accumulated_time_in_current_priority(), 500);
    assert!(c.decrease_priority(None, 600));
    assert_eq!(c.priority().level(), PriorityLevel::LowInteractive);
    assert_eq!(c.accumulated_time_in_current_priority(), 0);
    assert_eq!(c.priority_upd_since(1_600), 1_000);
    assert!(c.increase_priority(None, 700));
    assert!(!c.increase_priority(None, 800));
}
