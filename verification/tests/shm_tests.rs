use nixie::shm::{ShmBlock, ShmBufferManager};
use nixie::types::{BufferId, GlobalDeviceId, Offset, MAX_ALLOCATION_SIZE, MIN_ALLOCATION_SIZE};

const MIB: u64 = 1024 * 1024;

fn id(pid: i32, block_id: u64, size: u32) -> BufferId {
    BufferId { pid, device_id: GlobalDeviceId(0), block_id, size }
}

#[test]
fn fresh_region_is_all_free() {
    let m = ShmBufferManager::new(256 * MIB);
    assert_eq!(m.capacity(), 256 * MIB);
    assert_eq!(m.free_blocks_count().0, 128);
    assert!(!m.is_full());
    assert!(m.dump_buffers().is_empty());
    assert_eq!(MIN_ALLOCATION_SIZE as u64, 2 * MIB);
    assert_eq!(MAX_ALLOCATION_SIZE as u64, 128 * MIB);
}

#[test]
fn reserve_hands_out_last_blocks_first() {
    let mut m = ShmBufferManager::new(256 * MIB);
    let b = id(1, 7, (5 * MIB) as u32);
    let blocks = m.reserve(&b, false).unwrap();
    assert_eq!(
        blocks,
        vec![
            ShmBlock { offset: Offset(127 * 2 * MIB), data_size: (2 * MIB) as u32 },
            ShmBlock { offset: Offset(126 * 2 * MIB), data_size: (2 * MIB) as u32 },
            ShmBlock { offset: Offset(125 * 2 * MIB), data_size: MIB as u32 },
        ]
    );
    assert_eq!(m.free_blocks_count().0, 125);
    assert_eq!(m.get_buffer(&b), Some(blocks));
    assert_eq!(m.dump_buffers(), vec![(b, nixie::types::AllocationCapacity((6 * MIB) as u32))]);
}

#[test]
fn reserve_then_release_frees_blocks() {
    let mut m = ShmBufferManager::new(256 * MIB);
    let b = id(1, 7, (5 * MIB) as u32);
    m.reserve(&b, false).unwrap();
    assert_eq!(m.release(&b), Ok(3));
    assert_eq!(m.free_blocks_count().0, 128);
    assert_eq!(m.get_buffer(&b), None);
    assert_eq!(m.release(&b), Err(()));
}

#[test]
fn reserve_refused_when_region_full() {
    let mut m = ShmBufferManager::new(128 * MIB);
    assert!(m.reserve(&id(1, 1, (128 * MIB) as u32), false).is_some());
    assert!(m.is_full());
    assert!(m.reserve(&id(2, 1, 1), false).is_none());
    assert!(m.get_buffer(&id(2, 1, 1)).is_none());
}

#[test]
fn try_reserve_keeps_room_for_two_largest() {
    let mut m = ShmBufferManager::new(512 * MIB);
    assert!(m.try_reserve(&id(1, 1, (2 * MIB) as u32)).is_some());
    assert!(m.try_reserve(&id(1, 2, (2 * MIB) as u32)).is_some());
    assert!(m.reserve(&id(1, 3, (250 * MIB) as u32), false).is_some());
    assert!(m.try_reserve(&id(1, 4, (2 * MIB) as u32)).is_none());
    assert!(m.try_reserve(&id(2, 1, (2 * MIB) as u32)).is_some());
}

#[test]
fn batch_release_counts_held_buffers() {
    let mut m = ShmBufferManager::new(256 * MIB);
    let a = id(1, 1, (2 * MIB) as u32);
    let b = id(2, 1, (4 * MIB) as u32);
    m.reserve(&a, true);
    m.reserve(&b, true);
    assert_eq!(m.batch_release(&vec![a, id(3, 3, 1), b, a]), 2);
    assert_eq!(m.free_blocks_count().0, 128);
}

#[test]
fn releasable_skips_excluded_processes() {
    let mut m = ShmBufferManager::new(256 * MIB);
    let a = id(1, 1, (2 * MIB) as u32);
    let b = id(2, 1, (2 * MIB) as u32);
    m.reserve(&a, true);
    m.reserve(&b, false);
    m.mark_complete(&a);
    let (found, blocks) = m.find_releasable(&vec![1]).unwrap();
    assert_eq!(found, b);
    assert_eq!(blocks.len(), 1);
    assert_eq!(m.find_releasable(&vec![]).unwrap().0, a);
    assert!(m.find_releasable(&vec![1, 2]).is_none());
}

#[test]
fn process_residual_released_at_once() {
    let mut m = ShmBufferManager::new(256 * MIB);
    m.reserve(&id(1, 1, (4 * MIB) as u32), false);
    m.reserve(&id(2, 1, (2 * MIB) as u32), false);
    m.reserve(&id(1, 2, (2 * MIB) as u32), false);
    assert_eq!(m.release_process_residual(1), 3);
    assert_eq!(m.free_blocks_count().0, 127);
    assert!(m.get_buffer(&id(1, 1, (4 * MIB) as u32)).is_none());
    assert!(m.get_buffer(&id(2, 1, (2 * MIB) as u32)).is_some());
    assert_eq!(m.release_process_residual(1), 0);
}

#[test]
fn blocks_are_never_handed_out_twice() {
    let mut m = ShmBufferManager::new(512 * MIB);
    let a = id(1, 1, (7 * MIB) as u32);
    let b = id(2, 1, (9 * MIB) as u32);
    let ba = m.reserve(&a, false).unwrap();
    let bb = m.try_reserve(&b).unwrap();
    let mut offsets: Vec<u64> = ba.iter().chain(bb.iter()).map(|x| x.offset.0).collect();
    let n = offsets.len();
    offsets.sort();
    offsets.dedup();
    assert_eq!(offsets.len(), n);
    // Released blocks come back, and are handed out again only once.
    assert_eq!(m.release(&a), Ok(4));
    let c = id(3, 1, (8 * MIB) as u32);
    let bc = m.reserve(&c, false).unwrap();
    for x in &bc {
        assert!(bb.iter().all(|y| y.offset != x.offset));
    }
}

#[test]
fn release_precondition_can_be_tested() {
    let mut m = ShmBufferManager::new(256 * MIB);
    let a = id(4, 1, (3 * MIB) as u32);
    assert!(m.can_release(&a));
    m.reserve(&a, false).unwrap();
    assert!(m.can_release(&a));
    assert_eq!(m.release(&a), Ok(2));
    assert_eq!(m.get_buffer(&a), None);
    assert!(m.can_release(&a));
    assert_eq!(m.release(&a), Err(()));
}

#[test]
fn making_room_spares_incoming_processes() {
    let mut m = ShmBufferManager::new(512 * MIB);
    let incoming = id(1, 1, (4 * MIB) as u32);
    let other = id(2, 1, (4 * MIB) as u32);
    let incoming2 = id(1, 2, (2 * MIB) as u32);
    m.reserve(&incoming, false).unwrap();
    m.reserve(&other, false).unwrap();
    m.reserve(&incoming2, false).unwrap();
    let excluded = vec![1];
    let (victim, _) = m.find_releasable(&excluded).unwrap();
    assert_eq!(victim, other);
    assert!(m.release(&victim).is_ok());
    assert!(m.get_buffer(&incoming).is_some());
    assert!(m.get_buffer(&incoming2).is_some());
    assert!(m.find_releasable(&excluded).is_none());
}
