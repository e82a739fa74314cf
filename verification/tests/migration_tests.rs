use nixie::parse::{MoveOperation, ProcArgs};
use nixie::prefetch::{resolve_move_ops, PrefetchItem, ResolveError};
use nixie::sidecar::{Context, LaunchType, ProgramState};
use nixie::usage::{allocations_size, AllocationData};
use nixie::async_pool::{AsyncPool, CachedBlock};
use nixie::coordinator::{BackendWaiter, DrainAnswer, GpuWaiter, ReserveStep, ShmCoordinator};
use nixie::dispatch::{
    devices_involved, entries_size, ids_size, incoming_for_device, largest_transfer, sources_for_device,
    totals_by_stream,
};
use nixie::eviction::{compute_eviction, LocalAllocation};
use nixie::hostmem::HostMemBufferManager;
use nixie::ipc::MemoryUsage;
use nixie::plan::{MigrationPlan, MigrationSpecEntry};
use nixie::scheduler::DeviceOrdinalMapping;
use nixie::shm::ShmBufferManager;
use nixie::spill::{store_spilled, DeferredMoves};
use nixie::storage::HybridBufferError;
use nixie::streaming::{copy_segments, total_size};
use nixie::transfer::{BufferSource, H2dQueue};
use nixie::types::{BufferId, BufferLocation, GlobalDeviceId};
use nixie::usage::{blocks_size, pids_in_use, store_used, usage_by_pid, DataBlockMeta, ProcessDataMeta};

const MIB: u64 = 1024 * 1024;

fn entry(handle_idx: u32, size: u32, ready: bool) -> MigrationSpecEntry {
    MigrationSpecEntry { size, handle_idx, ready_for_pcie_xfer: ready }
}

fn gid(i: i32) -> GlobalDeviceId {
    GlobalDeviceId(i)
}

#[test]
fn h2d_ready_buffers_go_in_order() {
    let es = vec![entry(1, 100, true), entry(2, 50, false), entry(3, 30, true), entry(2, 50, false)];
    let mut q = H2dQueue::new(7, gid(0), &es);
    let first = q.current().unwrap();
    assert_eq!(first.0.block_id, 1);
    assert_eq!(first.1, BufferSource::Ready);
    assert!(!q.token(60));
    assert!(q.token(60));
    q.transferred();
    assert_eq!(q.current().unwrap().0.block_id, 3);
    assert!(q.token(10));
    q.transferred();
    assert!(q.current().is_none());
    assert!(q.waiting_for_data());
    assert!(!q.finished());
    let stranger = BufferId { pid: 9, device_id: gid(0), block_id: 2, size: 50 };
    assert!(!q.data_available(stranger));
    let id2 = BufferId { pid: 7, device_id: gid(0), block_id: 2, size: 50 };
    assert!(q.data_available(id2));
    assert_eq!(q.current(), Some((id2, BufferSource::Pending)));
    assert!(q.token(50));
    q.transferred();
    assert!(q.finished());
    assert!(q.all_moved());
}

#[test]
fn h2d_counts_unfinished_moves() {
    let es = vec![entry(1, 10, true), entry(2, 10, false)];
    let mut q = H2dQueue::new(1, gid(2), &es);
    q.transferred();
    assert!(!q.all_moved());
    assert!(q.waiting_for_data());
    let empty = H2dQueue::new(1, gid(2), &vec![]);
    assert!(empty.finished());
    assert!(empty.all_moved());
}

fn plan() -> MigrationPlan {
    let id = |pid: i32, blk: u64, size: u32| BufferId { pid, device_id: gid(0), block_id: blk, size };
    MigrationPlan {
        out_of_gpu: vec![
            (3, gid(1), vec![entry(1, 100, true), entry(2, 200, true)]),
            (4, gid(0), vec![entry(5, 50, true)]),
            (3, gid(0), vec![entry(6, 25, true)]),
        ],
        into_gpu: vec![(gid(2), vec![entry(9, 10, true), entry(8, 20, false)]), (gid(0), vec![entry(7, 5, false)])],
        storage_to_shm: vec![id(5, 1, 20)],
        host_mem_to_shm: vec![id(5, 2, 30), id(5, 3, 40)],
        shm_to_host_mem: vec![id(3, 4, 500)],
        shm_to_storage: vec![id(4, 5, 600)],
    }
}

#[test]
fn plan_split_per_device() {
    let p = plan();
    assert_eq!(devices_involved(&p), vec![gid(0), gid(1), gid(2)]);
    let on0 = sources_for_device(&p, gid(0));
    assert_eq!(on0.len(), 2);
    assert_eq!(on0[0].0, 4);
    assert_eq!(on0[1], (3, vec![entry(6, 25, true)]));
    assert!(sources_for_device(&p, gid(2)).is_empty());
    assert_eq!(incoming_for_device(&p, gid(0)), vec![entry(7, 5, false)]);
    assert!(incoming_for_device(&p, gid(1)).is_empty());
    assert_eq!(largest_transfer(&p), 1100);
    assert_eq!(entries_size(&p.out_of_gpu[0].2), 300);
    assert_eq!(ids_size(&p.host_mem_to_shm), 70);
}

#[test]
fn plan_totals_by_stream() {
    let p = plan();
    let t = totals_by_stream(&p, Some(5));
    assert_eq!(t.into_gpu, Some((5, 35)));
    let mut out = t.out_of_gpu.clone();
    out.sort();
    assert_eq!(out, vec![(3, 325), (4, 50)]);
    assert_eq!(t.host_mem_to_shm, vec![(5, 70)]);
    assert_eq!(t.storage_to_shm, vec![(5, 20)]);
    let mut back = t.shm_to_backend.clone();
    back.sort();
    assert_eq!(back, vec![(3, 500), (4, 600)]);
    assert_eq!(totals_by_stream(&p, None).into_gpu, None);
}

fn meta(pid: i32, sizes: &[u64]) -> ProcessDataMeta {
    ProcessDataMeta {
        pid,
        data_blocks: sizes.iter().map(|&size| DataBlockMeta { device_id: gid(0), size }).collect(),
    }
}

#[test]
fn store_usage_totals() {
    let shm = vec![meta(5, &[10, 20]), meta(2, &[1])];
    assert_eq!(store_used(&shm), Some(31));
    assert_eq!(blocks_size(&shm[0].data_blocks), Some(30));
    assert_eq!(blocks_size(&vec![DataBlockMeta { device_id: gid(0), size: u64::MAX }, DataBlockMeta { device_id: gid(0), size: 1 }]), None);
    let u = usage_by_pid(&shm).unwrap();
    assert_eq!(u, vec![(5, 30, 2), (2, 1, 1)]);
    let dup = usage_by_pid(&vec![meta(5, &[10]), meta(5, &[7, 7, 7])]).unwrap();
    assert_eq!(dup, vec![(5, 21, 3)]);
    let host = usage_by_pid(&vec![meta(9, &[4]), meta(2, &[])]).unwrap();
    assert_eq!(pids_in_use(&u, &host, &vec![]), vec![2, 5, 9]);
}

fn buf(pid: i32, blk: u64, size: u32) -> BufferId {
    BufferId { pid, device_id: gid(0), block_id: blk, size }
}

#[test]
fn device_reservations_go_first() {
    let mut shm = ShmBufferManager::new(256 * MIB);
    let mut c = ShmCoordinator::new();
    c.gpu_pending = 1;
    let mut bw = BackendWaiter::new();
    assert!(matches!(c.backend_step(&mut shm, &buf(1, 1, 1024), &mut bw), ReserveStep::Wait));
    assert_eq!(shm.free_blocks_count().0, 128);
    c.gpu_pending = 0;
    assert!(matches!(c.backend_step(&mut shm, &buf(1, 1, 1024), &mut bw), ReserveStep::Reserved(_)));
    assert_eq!(shm.free_blocks_count().0, 127);
}

#[test]
fn waiting_reservations_are_counted() {
    let mut shm = ShmBufferManager::new(128 * MIB);
    shm.reserve(&buf(9, 1, (128 * MIB) as u32), false).unwrap();
    let mut c = ShmCoordinator::new();
    let mut bw = BackendWaiter::new();
    match c.backend_step(&mut shm, &buf(1, 1, (3 * MIB) as u32), &mut bw) {
        ReserveStep::RequestAndWait(n) => assert_eq!(n.0, 2),
        _ => panic!("expected a request for room"),
    }
    assert_eq!(c.backend_pending, 1);
    assert!(bw.pending);
    let mut gw = GpuWaiter::new();
    assert!(matches!(c.gpu_step(&mut shm, &buf(2, 1, 10), &mut gw), ReserveStep::Wait));
    bw.answered(DrainAnswer::BusyWait);
    assert!(matches!(c.backend_step(&mut shm, &buf(1, 1, (3 * MIB) as u32), &mut bw), ReserveStep::Wait));
    assert_eq!(c.backend_pending, 1);
    shm.release(&buf(9, 1, (128 * MIB) as u32)).unwrap();
    assert!(matches!(c.backend_step(&mut shm, &buf(1, 1, (3 * MIB) as u32), &mut bw), ReserveStep::Reserved(_)));
    assert_eq!(c.backend_pending, 0);
    assert!(matches!(c.gpu_step(&mut shm, &buf(2, 1, 10), &mut gw), ReserveStep::Reserved(_)));
    assert_eq!(c.gpu_pending, 0);
}

#[test]
fn copy_layout_is_contiguous() {
    let segs = copy_segments(&vec![4096, 0, 8192], &vec![100, 200, 50]);
    assert_eq!(segs, vec![(4096, 0, 100), (0, 100, 200), (8192, 300, 50)]);
    assert_eq!(total_size(&vec![100, 200, 50]), 350);
}

#[test]
fn eviction_beyond_budget() {
    let old = DeviceOrdinalMapping { visible: vec![gid(2), gid(0)] };
    let new = DeviceOrdinalMapping { visible: vec![gid(0), gid(2)] };
    assert_eq!(old.real_to_visible(gid(0)), Some(1));
    assert_eq!(old.real_to_visible(gid(5)), None);
    let usage = vec![
        MemoryUsage { mem_usage_bytes: 6 * MIB, alloc_count: 1 },
        MemoryUsage { mem_usage_bytes: MIB, alloc_count: 1 },
    ];
    let allocs = vec![
        LocalAllocation { device: 1, size: 3 * MIB },
        LocalAllocation { device: 1, size: MIB },
        LocalAllocation { device: 0, size: MIB },
        LocalAllocation { device: 7, size: 100 * MIB },
    ];
    let budget = vec![8, 0, 4];
    assert_eq!(compute_eviction(&usage, &allocs, &old, &new, &budget), vec![None, Some(2)]);
    let budget = vec![10, 0, 1];
    assert_eq!(compute_eviction(&usage, &allocs, &old, &new, &budget), vec![Some(1)]);
    assert!(compute_eviction(&usage, &vec![], &old, &new, &budget).is_empty());
}

#[test]
fn block_cache_serves_smallest_fit_oldest_first() {
    let mut pool: AsyncPool<u32> = AsyncPool::new();
    pool.cache_free(CachedBlock { ptr: 0x100, actual_size: 64, event: 1 }, 0);
    pool.cache_free(CachedBlock { ptr: 0x200, actual_size: 32, event: 2 }, 0);
    pool.cache_free(CachedBlock { ptr: 0x300, actual_size: 32, event: 3 }, 0);
    pool.cache_free(CachedBlock { ptr: 0x400, actual_size: 16, event: 4 }, 0);
    assert_eq!(pool.cached_bytes(0), 144);
    assert_eq!(pool.cached_bytes(1), 0);
    let c = pool.candidates(30, 0);
    assert_eq!(c.len(), 2);
    assert_eq!(pool.block_at(0, c[0].0, c[0].1).ptr, 0x200);
    assert_eq!(pool.block_at(0, c[1].0, c[1].1).ptr, 0x300);
    let b = pool.take(0, c[1].0, c[1].1);
    assert_eq!(b.event, 3);
    assert_eq!(pool.cached_bytes(0), 112);
    assert_eq!(pool.candidates(40, 0).len(), 1);
    assert!(pool.candidates(200, 0).is_empty());
    let r = pool.remove_by_ptr(0x200, 0).unwrap();
    assert_eq!(r.actual_size, 32);
    assert!(pool.remove_by_ptr(0x200, 0).is_none());
    let all = pool.release_cached(0);
    let ptrs: Vec<u64> = all.iter().map(|b| b.ptr).collect();
    assert_eq!(ptrs, vec![0x400, 0x100]);
    assert_eq!(pool.cached_bytes(0), 0);
}

#[test]
fn spilled_buffers_fall_back_to_storage() {
    let mut h = HostMemBufferManager::new(2 * MIB as usize, 0, false);
    let small = vec![1u8; 100];
    assert_eq!(store_spilled(&mut h, &buf(1, 1, 100), &small, BufferLocation::HostMem).unwrap(), BufferLocation::HostMem);
    assert!(h.contains(&buf(1, 1, 100)));
    assert_eq!(store_spilled(&mut h, &buf(1, 2, 100), &small, BufferLocation::HostMem).unwrap(), BufferLocation::Storage);
    assert!(!h.contains(&buf(1, 2, 100)));
    assert_eq!(store_spilled(&mut h, &buf(1, 3, 100), &small, BufferLocation::Storage).unwrap(), BufferLocation::Storage);
    let big = vec![0u8; 128 * MIB as usize + 1];
    assert!(matches!(store_spilled(&mut h, &buf(1, 4, 1), &big, BufferLocation::HostMem), Err(HybridBufferError::InvalidInputBuffer)));
}

#[test]
fn held_back_buffers_are_claimed_once() {
    let mut d = DeferredMoves::new();
    assert!(d.is_empty());
    d.defer(buf(1, 1, 10), BufferLocation::HostMem);
    d.defer(buf(2, 1, 10), BufferLocation::Storage);
    d.defer(buf(1, 1, 10), BufferLocation::Storage);
    assert_eq!(d.claim(&buf(1, 1, 10)), Some(BufferLocation::Storage));
    assert_eq!(d.claim(&buf(1, 1, 10)), None);
    assert_eq!(d.claim(&buf(2, 1, 10)), Some(BufferLocation::Storage));
    assert!(d.is_empty());
}

#[test]
fn move_ops_name_known_processes() {
    let op = |pid: Option<i32>, idx: Option<u32>| MoveOperation {
        pid: ProcArgs { pid, idx },
        src: BufferLocation::Shm,
        dest: BufferLocation::Gpu(gid(1)),
        size: 64,
    };
    let pids = vec![100, 200, 300];
    assert_eq!(
        resolve_move_ops(&vec![op(Some(200), None), op(None, Some(3))], &pids),
        Ok(vec![
            PrefetchItem { pid: 200, from: BufferLocation::Shm, to: BufferLocation::Gpu(gid(1)), size: 64 },
            PrefetchItem { pid: 300, from: BufferLocation::Shm, to: BufferLocation::Gpu(gid(1)), size: 64 },
        ])
    );
    assert_eq!(resolve_move_ops(&vec![op(Some(7), None)], &pids), Err(ResolveError::PidNotFound(7)));
    assert_eq!(resolve_move_ops(&vec![op(None, Some(0))], &pids), Err(ResolveError::IndexOutOfRange(0)));
    assert_eq!(resolve_move_ops(&vec![op(None, Some(4))], &pids), Err(ResolveError::IndexOutOfRange(4)));
    assert_eq!(
        resolve_move_ops(&vec![op(None, None), op(Some(7), None)], &pids),
        Err(ResolveError::Unspecified)
    );
    assert_eq!(resolve_move_ops(&vec![], &pids), Ok(vec![]));
}

#[test]
fn client_launch_state() {
    let mut c = Context::new();
    assert!(c.must_request_scheduling());
    assert!(!c.may_launch());
    c.set_allow_running(true);
    assert!(c.may_launch());
    c.record_launch_at(LaunchType::Kernel, 1_000_000_000);
    c.record_launch_at(LaunchType::Graph, 1_000_000_000);
    c.record_launch_at(LaunchType::Malloc, 1_000_000_000);
    assert!(!c.check_idle_at(1_400_000_000));
    assert_eq!(c.program_state, ProgramState::Running);
    assert!(c.check_idle_at(1_600_000_000));
    assert_eq!(c.program_state, ProgramState::Paused);
    assert!(!c.check_idle_at(9_000_000_000));
    c.record_launch_at(LaunchType::Transfer, 5);
    assert_eq!(c.stats.last_transfer, 5);
    c.set_allow_running(false);
    assert!(c.must_request_scheduling());
}

#[test]
fn listed_allocation_totals() {
    let a = vec![
        AllocationData { on_gpu_bytes: 10, off_gpu_bytes: 5 },
        AllocationData { on_gpu_bytes: 0, off_gpu_bytes: 7 },
    ];
    assert_eq!(allocations_size(&a), Some(22));
    assert_eq!(allocations_size(&vec![]), Some(0));
    assert_eq!(allocations_size(&vec![AllocationData { on_gpu_bytes: u64::MAX, off_gpu_bytes: 1 }]), None);
}

#[test]
fn block_cache_hands_out_first_completed_candidate() {
    let mut pool: AsyncPool<u32> = AsyncPool::new();
    pool.cache_free(CachedBlock { ptr: 0x10, actual_size: 48, event: 1 }, 2);
    pool.cache_free(CachedBlock { ptr: 0x20, actual_size: 40, event: 2 }, 2);
    pool.cache_free(CachedBlock { ptr: 0x30, actual_size: 40, event: 3 }, 2);
    // Candidates for 40 bytes: 0x20, 0x30 (size 40), then 0x10 (size 48).
    assert_eq!(pool.candidates(40, 2).len(), 3);
    // No event completed: nothing handed out, nothing changes.
    assert!(pool.try_alloc(40, 2, &vec![false, false, false]).is_none());
    assert_eq!(pool.cached_bytes(2), 128);
    // The second candidate is the first whose event completed.
    let b = pool.try_alloc(40, 2, &vec![false, true, true]).unwrap();
    assert_eq!(b.ptr, 0x30);
    assert_eq!(pool.cached_bytes(2), 88);
    let b = pool.try_alloc(40, 2, &vec![true, true]).unwrap();
    assert_eq!(b.ptr, 0x20);
    // Too large for the rest, and another device holds nothing.
    assert!(pool.candidates(100, 2).is_empty());
    assert!(pool.try_alloc(100, 2, &vec![]).is_none());
    assert!(pool.try_alloc(40, 3, &vec![]).is_none());
    assert_eq!(pool.cached_bytes(2), 48);
}
