use nixie::plan::{PhysicalMemoryData, ProcessResidualData};
use nixie::prefetch::{
    admit_prefetch, check_prefetch, group_requirements, match_residuals, put_idle_last, MigrationRequirement,
    PrefetchItem, PrefetchRefusal,
};
use nixie::types::{BufferLocation, GlobalDeviceId};

fn item(pid: i32, from: BufferLocation, to: BufferLocation, size: u64) -> PrefetchItem {
    PrefetchItem { pid, from, to, size }
}

fn gpu(i: i32) -> BufferLocation {
    BufferLocation::Gpu(GlobalDeviceId(i))
}

#[test]
fn prefetch_refused_for_active_process() {
    let list = vec![item(3, BufferLocation::Shm, gpu(0), 10), item(4, BufferLocation::Storage, BufferLocation::Shm, 5)];
    assert_eq!(check_prefetch(&list, Some(4)), Err(PrefetchRefusal::ActiveProcess(4)));
}

#[test]
fn prefetch_refused_from_gpu() {
    let list = vec![item(3, gpu(0), BufferLocation::Shm, 10)];
    assert_eq!(check_prefetch(&list, None), Err(PrefetchRefusal::FromGpu));
    assert_eq!(check_prefetch(&list, Some(9)), Err(PrefetchRefusal::FromGpu));
}

#[test]
fn prefetch_refused_for_mixed_gpu_processes() {
    let list = vec![item(3, BufferLocation::Shm, gpu(0), 10), item(4, BufferLocation::HostMem, gpu(1), 5)];
    assert_eq!(check_prefetch(&list, None), Err(PrefetchRefusal::MixedGpuProcesses));
}

#[test]
fn prefetch_split_into_gpu_and_other() {
    let a = item(3, BufferLocation::Shm, gpu(0), 10);
    let b = item(5, BufferLocation::Storage, BufferLocation::HostMem, 7);
    let c = item(3, BufferLocation::HostMem, gpu(1), 20);
    let list = vec![a, b, c];
    assert_eq!(check_prefetch(&list, Some(8)), Ok((vec![a, c], vec![b])));
    assert_eq!(check_prefetch(&vec![], Some(8)), Ok((vec![], vec![])));
}

#[test]
fn requirements_grouped_by_pid() {
    let a = item(7, BufferLocation::Shm, BufferLocation::HostMem, 1);
    let b = item(2, BufferLocation::Storage, BufferLocation::Shm, 2);
    let c = item(7, BufferLocation::HostMem, BufferLocation::Storage, 3);
    let groups = group_requirements(&vec![a, b, c]);
    assert_eq!(groups.len(), 2);
    assert_eq!(groups[0].0, 2);
    assert_eq!(
        groups[0].1,
        vec![MigrationRequirement { from: BufferLocation::Storage, to: BufferLocation::Shm, size: 2, allow_incomplete: true }]
    );
    assert_eq!(groups[1].0, 7);
    assert_eq!(groups[1].1.len(), 2);
    assert_eq!(groups[1].1[0].size, 1);
    assert_eq!(groups[1].1[1].size, 3);
}

fn pmd(handle_idx: u32, size: u64) -> PhysicalMemoryData {
    PhysicalMemoryData { on_gpu: false, handle_idx, size }
}

#[test]
fn residuals_matched_to_device_moves() {
    let allocs = vec![
        (GlobalDeviceId(0), vec![pmd(1, 100), pmd(2, 100), pmd(3, 100)]),
        (GlobalDeviceId(1), vec![pmd(4, 50)]),
    ];
    let reqs = vec![
        item(3, BufferLocation::Shm, gpu(0), 150),
        item(3, BufferLocation::Shm, BufferLocation::HostMem, 10),
        item(3, BufferLocation::Shm, gpu(2), 10),
        item(3, BufferLocation::Shm, gpu(1), 10),
    ];
    let m = match_residuals(&reqs, &allocs);
    assert_eq!(m.len(), 2);
    assert_eq!(m[0], (GlobalDeviceId(0), vec![pmd(1, 100), pmd(2, 100)]));
    assert_eq!(m[1], (GlobalDeviceId(1), vec![pmd(4, 50)]));
    let reqs = vec![item(3, BufferLocation::Shm, gpu(0), 150), item(3, BufferLocation::Shm, gpu(0), 50)];
    let m = match_residuals(&reqs, &allocs);
    assert_eq!(m, vec![(GlobalDeviceId(0), vec![pmd(1, 100)])]);
}

#[test]
fn idle_process_moved_last() {
    let mk = |pid: i32| ProcessResidualData { pid, allocations: vec![] };
    let mut others = vec![mk(1), mk(2), mk(3)];
    put_idle_last(&mut others, Some(2));
    let pids: Vec<i32> = others.iter().map(|p| p.pid).collect();
    assert_eq!(pids, vec![1, 3, 2]);
    put_idle_last(&mut others, Some(9));
    let pids: Vec<i32> = others.iter().map(|p| p.pid).collect();
    assert_eq!(pids, vec![1, 3, 2]);
    put_idle_last(&mut others, None);
    assert_eq!(others.len(), 3);
}

#[test]
fn prefetch_refused_for_unconnected_process() {
    let list = vec![item(7, BufferLocation::Shm, gpu(0), 10), item(2, BufferLocation::Storage, BufferLocation::HostMem, 5)];
    assert_eq!(admit_prefetch(&list, None, &vec![1, 2]), Err(PrefetchRefusal::UnknownClient(7)));
    let (g, o) = admit_prefetch(&list, None, &vec![1, 7]).unwrap();
    assert_eq!(g, vec![list[0]]);
    assert_eq!(o, vec![list[1]]);
    // Without movements onto devices, no process needs to be connected.
    let others = vec![item(9, BufferLocation::Storage, BufferLocation::Shm, 5)];
    assert!(admit_prefetch(&others, None, &vec![]).is_ok());
    // Earlier refusals come first.
    assert_eq!(admit_prefetch(&list, Some(7), &vec![]), Err(PrefetchRefusal::ActiveProcess(7)));
}
