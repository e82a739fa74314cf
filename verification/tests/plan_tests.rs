use nixie::hostmem::HostMemBufferManager;
use nixie::shm::ShmBufferManager;
use nixie::storage::StorageBufferManager;
use nixie::clock::Clock;
use nixie::plan::{
    locate_allocations, locate_residual, plan_segments_fit, requirement, select_for_device, two_processes_task, DeviceRequestArgs, MigrationSpecEntry,
    PhysicalMemoryData, ProcessResidualData, ResidualLocation,
};
use nixie::policy::{ActiveClientState, IdleRequest, IdleRequestType, MemoryRequest, ScheduleQueue};
use nixie::scheduler::{allocation_requirement, first_swap_out, migration_step, DeviceOrdinalMapping, MigrationStep, Scheduler};
use nixie::statistics::{InternalClientState, StopReason};
use nixie::types::{BufferId, GlobalDeviceId, MAX_ALLOCATION_SIZE};

fn pmd(handle_idx: u32, size: u64) -> PhysicalMemoryData {
    PhysicalMemoryData { on_gpu: true, handle_idx, size }
}

fn entry(handle_idx: u32, size: u32, ready: bool) -> MigrationSpecEntry {
    MigrationSpecEntry { size, handle_idx, ready_for_pcie_xfer: ready }
}

fn residents() -> Vec<ProcessResidualData> {
    vec![
        ProcessResidualData {
            pid: 10,
            allocations: vec![(GlobalDeviceId(0), vec![pmd(1, 100), pmd(2, 200), pmd(3, 300)])],
        },
        ProcessResidualData { pid: 11, allocations: vec![(GlobalDeviceId(0), vec![pmd(4, 400)])] },
    ]
}

fn id(pid: i32, handle: u64, size: u32) -> BufferId {
    BufferId { pid, device_id: GlobalDeviceId(0), block_id: handle, size }
}

#[test]
fn plan_takes_buffers_until_requirement_met() {
    let req = DeviceRequestArgs::Allocation(vec![(GlobalDeviceId(0), 250)]);
    let procs = residents();
    assert!(plan_segments_fit(5, &req, &procs, &vec![512, 512], &vec![]));
    let plan = two_processes_task(5, &req, &procs, vec![512, 512], vec![]);
    assert_eq!(plan.out_of_gpu.len(), 1);
    assert_eq!(plan.out_of_gpu[0].0, 10);
    assert_eq!(plan.out_of_gpu[0].1, GlobalDeviceId(0));
    assert_eq!(plan.out_of_gpu[0].2, vec![entry(1, 100, true), entry(2, 200, true)]);
    assert!(plan.into_gpu.is_empty());
    assert!(plan.shm_to_host_mem.is_empty());
    assert!(plan.shm_to_storage.is_empty());
    assert!(plan.host_mem_to_shm.is_empty());
    assert!(plan.storage_to_shm.is_empty());
    assert_eq!(first_swap_out(&plan), Some(300));
}

#[test]
fn plan_spills_to_host_then_storage() {
    let req = DeviceRequestArgs::Allocation(vec![(GlobalDeviceId(0), 250)]);
    let procs = residents();
    let plan = two_processes_task(5, &req, &procs, vec![512], vec![1024]);
    assert!(plan.shm_to_storage.is_empty());
    assert_eq!(plan.shm_to_host_mem, vec![id(10, 2, 200)]);
    let plan = two_processes_task(5, &req, &procs, vec![512], vec![]);
    assert!(plan.shm_to_host_mem.is_empty());
    assert_eq!(plan.shm_to_storage, vec![id(10, 2, 200)]);
}

#[test]
fn plan_reaches_later_processes() {
    let req = DeviceRequestArgs::Allocation(vec![(GlobalDeviceId(0), 700)]);
    let procs = residents();
    let plan = two_processes_task(5, &req, &procs, vec![1024, 1024, 1024, 1024], vec![]);
    assert_eq!(plan.out_of_gpu.len(), 2);
    assert_eq!(plan.out_of_gpu[0].2.len(), 3);
    assert_eq!(plan.out_of_gpu[1].0, 11);
    assert_eq!(plan.out_of_gpu[1].2, vec![entry(4, 400, true)]);
    assert_eq!(first_swap_out(&plan), Some(600));
}

#[test]
fn plan_brings_residual_data_back() {
    let req = DeviceRequestArgs::ResidualData(vec![(
        GlobalDeviceId(0),
        vec![
            (pmd(7, 50), ResidualLocation::Shm { block_size: 128 }),
            (pmd(8, 60), ResidualLocation::HostMem),
            (pmd(9, 70), ResidualLocation::Storage),
            (pmd(10, 80), ResidualLocation::Missing),
        ],
    )]);
    assert_eq!(requirement(&req), vec![(GlobalDeviceId(0), 260)]);
    let procs = residents();
    assert!(plan_segments_fit(5, &req, &procs, &vec![], &vec![]));
    let plan = two_processes_task(5, &req, &procs, vec![], vec![]);
    assert_eq!(plan.into_gpu.len(), 1);
    assert_eq!(plan.into_gpu[0].0, GlobalDeviceId(0));
    assert_eq!(
        plan.into_gpu[0].1,
        vec![entry(7, 50, true), entry(8, 60, false), entry(9, 70, false)]
    );
    assert_eq!(plan.host_mem_to_shm, vec![id(5, 8, 60)]);
    assert_eq!(plan.storage_to_shm, vec![id(5, 9, 70)]);
    assert!(MAX_ALLOCATION_SIZE >= 200);
    assert_eq!(plan.shm_to_host_mem, vec![id(10, 2, 200)]);
    assert!(plan.shm_to_storage.is_empty());
}

#[test]
fn segments_too_small_are_reported() {
    let req = DeviceRequestArgs::Allocation(vec![(GlobalDeviceId(0), 250)]);
    let procs = residents();
    assert!(!plan_segments_fit(5, &req, &procs, &vec![64], &vec![]));
    assert!(!plan_segments_fit(5, &req, &procs, &vec![], &vec![150, 150]));
}

#[test]
fn allocation_requirement_maps_devices() {
    let mapping = DeviceOrdinalMapping { visible: vec![GlobalDeviceId(3), GlobalDeviceId(1)] };
    assert_eq!(mapping.visible_to_real(1), Some(GlobalDeviceId(1)));
    assert_eq!(mapping.visible_to_real(2), None);
    assert_eq!(mapping.visible_to_real(-1), None);
    let req = MemoryRequest { mem_req: vec![(0, vec![10, 20]), (1, vec![]), (1, vec![5])] };
    assert_eq!(
        allocation_requirement(&req, &mapping),
        Ok(vec![(GlobalDeviceId(3), 30), (GlobalDeviceId(1), 5)])
    );
    let req = MemoryRequest { mem_req: vec![(0, vec![10]), (0, vec![7])] };
    assert_eq!(allocation_requirement(&req, &mapping), Ok(vec![(GlobalDeviceId(3), 7)]));
    let req = MemoryRequest { mem_req: vec![(0, vec![10]), (4, vec![1]), (5, vec![1])] };
    assert_eq!(allocation_requirement(&req, &mapping), Err(4));
    let req = MemoryRequest { mem_req: vec![(4, vec![0])] };
    assert_eq!(allocation_requirement(&req, &mapping), Ok(vec![]));
}

#[test]
fn scheduler_switches_processes() {
    let q: ScheduleQueue<u32> = ScheduleQueue::new_at(Clock::new(), 0);
    let mut s = Scheduler::new(q);
    assert_eq!(s.preempt_for(1, 10), None);
    s.take_in(1, 10);
    s.activate(1, 10);
    assert_eq!(s.active_client, ActiveClientState::Active { pid: 1, since: 10 });
    assert!(s.sched_queue.get_client(1).unwrap().state_ref().is_active());
    assert_eq!(s.preempt_for(2, 50), Some((1, true)));
    let hist = s.sched_queue.get_client(1).unwrap().get_history();
    assert_eq!(hist.len(), 1);
    assert_eq!(hist[0].start, 10);
    assert_eq!(hist[0].end, 50);
    assert!(matches!(hist[0].reason, StopReason::PreemptedBy(2, _)));
    s.take_in(2, 50);
    s.activate(2, 50);
    let notice = IdleRequest { pid: 2, time: 80, request_type: IdleRequestType::Idle };
    assert!(s.handle_activity_idle(notice, 80));
    assert_eq!(s.active_client, ActiveClientState::LastActive { pid: 2, last_active: 80 });
    assert_eq!(*s.sched_queue.get_client(2).unwrap().state_ref(), InternalClientState::ResidentIdle);
    assert!(!s.handle_activity_yield(2, 90));
    assert!(s.should_reset_last_active(&vec![7, 2]));
    assert!(!s.should_reset_last_active(&vec![7]));
    assert_eq!(s.preempt_for(3, 100), Some((2, false)));
    assert_eq!(*s.sched_queue.get_client(2).unwrap().state_ref(), InternalClientState::Idle);
    s.forget_exited(2);
    assert_eq!(s.active_client, ActiveClientState::NoClient);
    assert!(s.sched_queue.get_client(2).is_none());
}

fn selected_total(sel: &Vec<(i32, GlobalDeviceId, Vec<MigrationSpecEntry>)>) -> u64 {
    sel.iter().map(|(_, _, es)| es.iter().map(|e| e.size as u64).sum::<u64>()).sum()
}

#[test]
fn selection_meets_requirement_or_takes_all() {
    let procs = residents();
    // Enough on the device: at least the requirement is gathered.
    let sel = select_for_device(&procs, GlobalDeviceId(0), 350);
    assert_eq!(selected_total(&sel), 600);
    assert_eq!(sel.len(), 1);
    let sel = select_for_device(&procs, GlobalDeviceId(0), 700);
    assert_eq!(selected_total(&sel), 1000);
    assert_eq!(sel.len(), 2);
    // Not enough: everything on the device is taken.
    let sel = select_for_device(&procs, GlobalDeviceId(0), 5000);
    assert_eq!(selected_total(&sel), 1000);
    // Nothing asked for: nothing taken; another device: nothing there.
    assert!(select_for_device(&procs, GlobalDeviceId(0), 0).is_empty());
    assert!(select_for_device(&procs, GlobalDeviceId(1), 100).is_empty());
}

#[test]
fn migration_decided_before_any_request() {
    let listed = vec![3, 5];
    assert_eq!(migration_step(5, 5, false, &listed), MigrationStep::Nothing);
    assert_eq!(migration_step(9, 9, false, &vec![]), MigrationStep::Nothing);
    assert_eq!(migration_step(5, 5, true, &listed), MigrationStep::Migrate);
    assert_eq!(migration_step(3, 5, false, &listed), MigrationStep::Migrate);
    assert_eq!(migration_step(4, 5, false, &listed), MigrationStep::UnknownClient(4));
    assert_eq!(migration_step(4, 4, true, &listed), MigrationStep::UnknownClient(4));
}

#[test]
fn residual_locations_are_looked_up() {
    let mib = 1024 * 1024;
    let mut shm = ShmBufferManager::new(256 * mib as u64);
    let mut host = HostMemBufferManager::new(8 * mib, 0, false);
    let mut disk = StorageBufferManager::new();
    let d = GlobalDeviceId(0);
    let b = |h: u64, size: u32| BufferId { pid: 9, device_id: d, block_id: h, size };
    shm.reserve(&b(1, (3 * mib) as u32), false).unwrap();
    host.store(&b(2, 10), &vec![0u8; 10]).unwrap();
    let (slot, _) = disk.take_slot();
    disk.record(&b(3, 20), slot);
    assert_eq!(locate_residual(&shm, &host, &disk, &b(1, (3 * mib) as u32)), ResidualLocation::Shm { block_size: 4 * mib as u64 });
    assert_eq!(locate_residual(&shm, &host, &disk, &b(2, 10)), ResidualLocation::HostMem);
    assert_eq!(locate_residual(&shm, &host, &disk, &b(3, 20)), ResidualLocation::Storage);
    assert_eq!(locate_residual(&shm, &host, &disk, &b(4, 20)), ResidualLocation::Missing);
    let allocs = vec![(d, vec![pmd(2, 10), pmd(4, 5)])];
    let located = locate_allocations(&shm, &host, &disk, 9, &allocs);
    assert_eq!(located, vec![(d, vec![(pmd(2, 10), ResidualLocation::HostMem), (pmd(4, 5), ResidualLocation::Missing)])]);
}
