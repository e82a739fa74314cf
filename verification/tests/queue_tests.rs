use nixie::policy::compute_cooldown;
use nixie::clock::Clock;
use nixie::policy::{
    ActiveClientState, ActivityUpdate, ActivityUpdateContent, GenericRequest, IdleRequestType,
    GetStateResponse, MemoryRequest, ScheduleQueue, SetPriorityLevel, SetPriorityResponse,
};
use nixie::statistics::{ClientState, StopReason};
use nixie::priority::{Priority, PriorityLevel};

fn request() -> ActivityUpdate {
    ActivityUpdate { message_id: 0, content: ActivityUpdateContent::RequestScheduling }
}

fn idle() -> ActivityUpdate {
    ActivityUpdate { message_id: 1, content: ActivityUpdateContent::Idle }
}

fn served_pid(r: Option<GenericRequest<u32>>) -> Option<i32> {
    match r {
        Some(GenericRequest::Schedule(s)) => Some(s.pid),
        _ => None,
    }
}

#[test]
fn idle_then_prefetch_then_schedule() {
    let mut q: ScheduleQueue<u32> = ScheduleQueue::new_at(Clock::new(), 0);
    q.schedule_push_at(1, request(), 10);
    q.schedule_push_at(2, idle(), 20);
    q.push_prefetch_at(99, 30);
    match q.schedule_pop_at(ActiveClientState::NoClient, 40) {
        Some(GenericRequest::Idle(r)) => {
            assert_eq!(r.pid, 2);
            assert_eq!(r.time, 20);
            assert_eq!(r.request_type, IdleRequestType::Idle);
        }
        _ => panic!("expected the idle notice first"),
    }
    match q.schedule_pop_at(ActiveClientState::NoClient, 41) {
        Some(GenericRequest::Prefetch(p)) => {
            assert_eq!(p.parameter, 99);
            assert_eq!(p.time, 30);
        }
        _ => panic!("expected the prefetch order next"),
    }
    assert_eq!(served_pid(q.schedule_pop_at(ActiveClientState::NoClient, 42)), Some(1));
    assert!(q.schedule_pop_at(ActiveClientState::NoClient, 43).is_none());
}

#[test]
fn yield_goes_to_both_queues() {
    let mut q: ScheduleQueue<u32> = ScheduleQueue::new_at(Clock::new(), 0);
    let args = ActivityUpdate {
        message_id: 5,
        content: ActivityUpdateContent::YieldThenRequestSchedulingAndMem {
            memory_request: MemoryRequest { mem_req: vec![(0, vec![1024])] },
        },
    };
    q.schedule_push_at(3, args, 10);
    match q.schedule_pop_at(ActiveClientState::NoClient, 11) {
        Some(GenericRequest::Idle(r)) => {
            assert_eq!(r.pid, 3);
            assert_eq!(r.request_type, IdleRequestType::Yield);
        }
        _ => panic!("expected the yield notice first"),
    }
    assert_eq!(served_pid(q.schedule_pop_at(ActiveClientState::NoClient, 12)), Some(3));
}

#[test]
fn higher_level_served_first() {
    let mut q: ScheduleQueue<u32> = ScheduleQueue::new_at(Clock::new(), 0);
    q.ensure_client_at(1, 0);
    assert_eq!(
        q.set_priority_at(1, SetPriorityLevel::SetTo(Priority::Fixed(PriorityLevel::Batch)), 1),
        SetPriorityResponse::Success
    );
    q.schedule_push_at(1, request(), 10);
    q.schedule_push_at(2, request(), 20);
    assert_eq!(served_pid(q.schedule_pop_at(ActiveClientState::NoClient, 30)), Some(2));
    assert_eq!(served_pid(q.schedule_pop_at(ActiveClientState::NoClient, 31)), Some(1));
}

#[test]
fn same_level_served_in_arrival_order() {
    let mut q: ScheduleQueue<u32> = ScheduleQueue::new_at(Clock::new(), 0);
    q.schedule_push_at(5, request(), 20);
    q.schedule_push_at(6, request(), 10);
    q.schedule_push_at(7, request(), 30);
    assert_eq!(served_pid(q.schedule_pop_at(ActiveClientState::NoClient, 40)), Some(6));
    assert_eq!(served_pid(q.schedule_pop_at(ActiveClientState::NoClient, 41)), Some(5));
    assert_eq!(served_pid(q.schedule_pop_at(ActiveClientState::NoClient, 42)), Some(7));
}

#[test]
fn prioritized_push_goes_first() {
    let mut q: ScheduleQueue<u32> = ScheduleQueue::new_at(Clock::new(), 0);
    q.schedule_push_at(5, request(), 10);
    q.prioritized_push_at(6, request(), 10);
    assert_eq!(served_pid(q.schedule_pop_at(ActiveClientState::NoClient, 40)), Some(6));
}

#[test]
fn lower_level_cannot_preempt() {
    let mut q: ScheduleQueue<u32> = ScheduleQueue::new_at(Clock::new(), 0);
    q.ensure_client_at(2, 0);
    q.ensure_client_at(1, 0);
    q.set_priority_at(1, SetPriorityLevel::SetTo(Priority::Fixed(PriorityLevel::Background)), 1);
    q.schedule_push_at(1, request(), 10);
    let active = ActiveClientState::Active { pid: 2, since: 0 };
    assert!(q.schedule_pop_at(active, 20).is_none());
    assert_eq!(served_pid(q.schedule_pop_at(ActiveClientState::NoClient, 21)), Some(1));
}

#[test]
fn cooldown_holds_back_same_level() {
    let mut q: ScheduleQueue<u32> = ScheduleQueue::new_at(Clock::new(), 0);
    q.ensure_client_at(2, 0);
    q.cooldown_at(Some(1_000), 50);
    q.schedule_push_at(1, request(), 60);
    let active = ActiveClientState::Active { pid: 2, since: 0 };
    assert!(q.schedule_pop_at(active, 100).is_none());
    assert_eq!(served_pid(q.schedule_pop_at(active, 2_000)), Some(1));
}

#[test]
fn set_priority_responses() {
    let mut q: ScheduleQueue<u32> = ScheduleQueue::new_at(Clock::new(), 0);
    assert_eq!(
        q.set_priority_at(4, SetPriorityLevel::UnsetToDefault, 1),
        SetPriorityResponse::FailureProcessNotExist
    );
    q.ensure_client_at(4, 0);
    assert_eq!(
        q.set_priority_at(4, SetPriorityLevel::FixToDynamic, 1),
        SetPriorityResponse::FailurePriorityNotFixed
    );
    assert_eq!(
        q.set_priority_at(4, SetPriorityLevel::UnsetToDefault, 1),
        SetPriorityResponse::FailurePriorityNotFixed
    );
    assert_eq!(
        q.set_priority_at(4, SetPriorityLevel::SetTo(Priority::Fixed(PriorityLevel::Batch)), 2),
        SetPriorityResponse::Success
    );
    assert_eq!(q.client_level(4), Some(PriorityLevel::Batch));
    assert_eq!(q.set_priority_at(4, SetPriorityLevel::FixToDynamic, 3), SetPriorityResponse::Success);
    assert_eq!(q.get_client(4).unwrap().priority(), Priority::Dynamic { level: PriorityLevel::Batch, weight: 0 });
    q.set_priority_at(4, SetPriorityLevel::SetTo(Priority::Fixed(PriorityLevel::Background)), 4);
    assert_eq!(q.set_priority_at(4, SetPriorityLevel::UnsetToDefault, 5), SetPriorityResponse::Success);
    assert_eq!(q.client_level(4), Some(PriorityLevel::Interactive));
}

#[test]
fn removed_client_is_forgotten() {
    let mut q: ScheduleQueue<u32> = ScheduleQueue::new_at(Clock::new(), 0);
    q.schedule_push_at(8, request(), 10);
    q.schedule_push_at(8, idle(), 11);
    q.schedule_push_at(9, request(), 12);
    q.remove_client(8);
    assert!(q.get_client(8).is_none());
    assert_eq!(served_pid(q.schedule_pop_at(ActiveClientState::NoClient, 20)), Some(9));
    assert!(q.schedule_pop_at(ActiveClientState::NoClient, 21).is_none());
}

#[test]
fn request_kind_and_pid() {
    let mut q: ScheduleQueue<u32> = ScheduleQueue::new_at(Clock::new(), 0);
    q.push_prefetch_at(1, 0);
    let r = q.schedule_pop_at(ActiveClientState::NoClient, 1).unwrap();
    assert_eq!(r.req_type(), "Prefetch");
    assert_eq!(r.pid(), None);
}

#[test]
fn cooldown_covers_migration_and_quantum() {
    let batch = Priority::Fixed(PriorityLevel::Batch);
    assert_eq!(compute_cooldown(1_000, None, batch), 64_000_000_000);
    assert_eq!(compute_cooldown(40_000_000_000, None, batch), 80_000_000_000);
    assert_eq!(compute_cooldown(1_000, Some(70_000_000_000), batch), 70_000_000_000);
    let inter = Priority::Dynamic { level: PriorityLevel::Interactive, weight: 0 };
    assert_eq!(compute_cooldown(0, Some(1), inter), 8_000_000_000);
    assert_eq!(compute_cooldown(u64::MAX, None, inter), u64::MAX);
}

#[test]
fn state_query_reports_known_clients() {
    let mut q: ScheduleQueue<u32> = ScheduleQueue::new_at(Clock::new(), 0);
    assert_eq!(q.get_state(7), GetStateResponse { priority: None, state: None });
    q.schedule_push_at(7, request(), 10);
    assert_eq!(
        q.get_state(7),
        GetStateResponse {
            priority: Some(Priority::Dynamic { level: PriorityLevel::Interactive, weight: 0 }),
            state: Some(ClientState::Idle),
        }
    );
    assert_eq!(q.set_priority_at(7, SetPriorityLevel::SetTo(Priority::Fixed(PriorityLevel::Batch)), 11), SetPriorityResponse::Success);
    assert_eq!(q.get_state(7).priority, Some(Priority::Fixed(PriorityLevel::Batch)));
    assert_eq!(q.get_state(8), GetStateResponse { priority: None, state: None });
}

#[test]
fn history_query_reports_running_periods() {
    let mut q: ScheduleQueue<u32> = ScheduleQueue::new_at(Clock::new(), 0);
    assert!(q.get_history(4).is_none());
    q.schedule_push_at(4, request(), 10);
    assert_eq!(q.get_history(4).unwrap().len(), 0);
    q.make_active_at(4, 100);
    assert!(q.make_resident_idle_at(4, StopReason::Idle, 350));
    let h = q.get_history(4).unwrap();
    assert_eq!(h.len(), 1);
    assert_eq!(h[0].start, 100);
    assert_eq!(h[0].end, 350);
    assert_eq!(h[0].reason, StopReason::Idle);
}

#[test]
fn aging_never_demotes_below_batch() {
    let mut q: ScheduleQueue<u32> = ScheduleQueue::new_at(Clock::new(), 0);
    q.schedule_push_at(1, request(), 0);
    let batch = Priority::Dynamic { level: PriorityLevel::Batch, weight: 0 };
    assert_eq!(q.set_priority_at(1, SetPriorityLevel::SetTo(batch), 0), SetPriorityResponse::Success);
    q.make_active_at(1, 0);
    // Running for 100 s, past the batch quantum (64 s) and the holding time.
    let _ = q.schedule_pop_at(ActiveClientState::Active { pid: 1, since: 0 }, 100_000_000_000);
    assert_eq!(q.get_state(1).priority, Some(batch));
    // A fixed priority is never moved by aging.
    q.schedule_push_at(2, request(), 0);
    let fixed = Priority::Fixed(PriorityLevel::Interactive);
    assert_eq!(q.set_priority_at(2, SetPriorityLevel::SetTo(fixed), 0), SetPriorityResponse::Success);
    let _ = q.schedule_pop_at(ActiveClientState::Active { pid: 1, since: 0 }, 200_000_000_000);
    assert_eq!(q.get_state(2).priority, Some(fixed));
}
