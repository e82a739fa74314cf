use nixie::hostmem::HostMemBufferManager;
use nixie::storage::{HybridBufferError, StorageBufferManager};
use nixie::types::{AllocationCapacity, AllocationInfo, BufferId, BufferLocation, GlobalDeviceId, MAX_ALLOCATION_SIZE};

const MIB: usize = 1024 * 1024;

fn id(pid: i32, block_id: u64, size: u32) -> BufferId {
    BufferId { pid, device_id: GlobalDeviceId(1), block_id, size }
}

#[test]
fn storage_slots_grow_then_reuse() {
    let mut s = StorageBufferManager::new();
    let (slot, grown) = s.take_slot();
    assert_eq!(slot, AllocationInfo { addr: 0, block_size: MAX_ALLOCATION_SIZE as u64 });
    assert_eq!(grown, Some(MAX_ALLOCATION_SIZE as u64));
    let b = id(4, 1, 1000);
    s.record(&b, slot);
    assert!(s.contains(&b));
    assert_eq!(s.dump_buffers(), vec![(b, AllocationCapacity(MAX_ALLOCATION_SIZE as u32))]);
    let (slot2, grown2) = s.take_slot();
    assert_eq!(slot2.addr, MAX_ALLOCATION_SIZE as u64);
    assert_eq!(grown2, Some(2 * MAX_ALLOCATION_SIZE as u64));
    s.put_back_disk(slot2);
    let (slot3, grown3) = s.take_slot();
    assert_eq!(slot3, slot2);
    assert_eq!(grown3, None);
}

#[test]
fn storage_load_checks_inputs() {
    let mut s = StorageBufferManager::new();
    let b = id(4, 1, 1000);
    assert!(matches!(s.take_for_load(&b, 2000), Err(HybridBufferError::NoBufferId)));
    let (slot, _) = s.take_slot();
    s.record(&b, slot);
    assert!(matches!(s.take_for_load(&b, 10), Err(HybridBufferError::InvalidInputBuffer)));
    assert!(s.contains(&b));
    assert_eq!(s.take_for_load(&b, 1000).unwrap(), slot);
    assert!(!s.contains(&b));
    assert!(StorageBufferManager::check_store_size(MAX_ALLOCATION_SIZE).is_ok());
    assert!(matches!(
        StorageBufferManager::check_store_size(MAX_ALLOCATION_SIZE + 1),
        Err(HybridBufferError::InvalidInputBuffer)
    ));
}

#[test]
fn storage_releases_process_buffers() {
    let mut s = StorageBufferManager::new();
    for (pid, blk) in [(1, 1), (2, 1), (1, 2)] {
        let (slot, _) = s.take_slot();
        s.record(&id(pid, blk, 10), slot);
    }
    s.release_process_residual(1);
    assert!(!s.contains(&id(1, 1, 10)));
    assert!(!s.contains(&id(1, 2, 10)));
    assert!(s.contains(&id(2, 1, 10)));
    let (reused, grown) = s.take_slot();
    assert_eq!(grown, None);
    assert_eq!(reused.addr, 2 * MAX_ALLOCATION_SIZE as u64);
    assert_eq!(s.batch_release(&vec![id(2, 1, 10), id(9, 9, 9)]), 1);
    assert!(s.dump_buffers().is_empty());
}

fn pattern(n: usize) -> Vec<u8> {
    (0..n).map(|i| (i % 251) as u8).collect()
}

#[test]
fn hostmem_store_load_roundtrip() {
    let mut h = HostMemBufferManager::new(8 * MIB, 2 * MIB, false);
    assert_eq!(h.capacity(), 8 * MIB);
    assert_eq!(h.free_blocks_count().0, 5);
    let data = pattern(3 * MIB);
    let b = id(7, 3, (3 * MIB) as u32);
    assert!(h.store(&b, &data).is_ok());
    assert!(h.contains(&b));
    assert_eq!(h.get_block_count(&b).unwrap().0, 2);
    assert_eq!(h.free_blocks_count().0, 4);
    assert_eq!(h.dump_buffers(), vec![(b, AllocationCapacity((4 * MIB) as u32))]);
    let mut out = vec![0xAAu8; 3 * MIB + 5];
    assert_eq!(h.load_to(&b, &mut out).unwrap(), BufferLocation::HostMem);
    assert_eq!(&out[..3 * MIB], &data[..]);
    assert_eq!(&out[3 * MIB..], &[0xAAu8; 5]);
    assert!(!h.contains(&b));
}

#[test]
fn hostmem_refuses_when_exhausted_or_too_large() {
    let mut h = HostMemBufferManager::new(2 * MIB, 0, false);
    let b = id(7, 3, (3 * MIB) as u32);
    assert!(matches!(h.store(&b, &pattern(3 * MIB)), Err(HybridBufferError::MemoryExhausted)));
    let big = vec![0u8; MAX_ALLOCATION_SIZE + 1];
    assert!(matches!(h.store(&b, &big), Err(HybridBufferError::InvalidInputBuffer)));
    assert!(h.get_block_count(&b).is_none());
    let mut out = vec![0u8; 3 * MIB];
    assert!(matches!(h.load_to(&b, &mut out), Err(HybridBufferError::NoBufferId)));
    let mut short = vec![0u8; 10];
    assert!(matches!(h.load_to(&b, &mut short), Err(HybridBufferError::InvalidInputBuffer)));
}

#[test]
fn hostmem_lends_zeroed_blocks() {
    let mut h = HostMemBufferManager::new(8 * MIB, 0, false);
    let one = h.allocate_empty_buffer(1).unwrap();
    assert_eq!(one.len(), 1);
    assert_eq!(one[0].0.len(), 1);
    let blocks = h.allocate_empty_buffer(3 * MIB).unwrap();
    assert_eq!(blocks.len(), 2);
    assert_eq!(blocks[0].0.len(), 2 * MIB);
    assert_eq!(blocks[1].0.len(), MIB);
    assert!(blocks[1].0.iter().all(|&x| x == 0));
    assert_eq!(h.free_blocks_count().0, 1);
    assert!(h.allocate_empty_buffer(3 * MIB).is_none());
    h.put_back_mem(blocks);
    assert_eq!(h.free_blocks_count().0, 3);
    let b = id(2, 2, 1);
    h.return_associated_buffer(b, one);
    assert!(h.contains(&b));
    assert_eq!(h.free_blocks_count().0, 3);
    let popped = h.pop_buffer(&b).unwrap();
    assert_eq!(popped.len(), 1);
    assert!(!h.contains(&b));
    assert!(h.pop_buffer(&b).is_none());
}

#[test]
fn hostmem_releases_process_buffers() {
    let mut h = HostMemBufferManager::new(8 * MIB, 0, false);
    h.store(&id(1, 1, 10), &pattern(10)).unwrap();
    h.store(&id(2, 1, 10), &pattern(10)).unwrap();
    h.release_process_residual(1);
    assert!(!h.contains(&id(1, 1, 10)));
    assert!(h.contains(&id(2, 1, 10)));
    assert_eq!(h.free_blocks_count().0, 3);
}

#[test]
fn storage_batch_release_frees_slots_in_order() {
    let mut s = StorageBufferManager::new();
    for blk in 0..3u64 {
        let (slot, _) = s.take_slot();
        s.record(&id(3, blk, 10), slot);
    }
    // Slot 0 is freed first, then slot 2; a repeated or unknown id frees nothing.
    assert_eq!(s.batch_release(&vec![id(3, 0, 10), id(3, 2, 10), id(3, 0, 10), id(5, 5, 5)]), 2);
    assert!(s.contains(&id(3, 1, 10)));
    // The last freed slot is reused first.
    let (a, grown_a) = s.take_slot();
    assert_eq!(a.addr, 2 * MAX_ALLOCATION_SIZE as u64);
    assert_eq!(grown_a, None);
    let (b, grown_b) = s.take_slot();
    assert_eq!(b.addr, 0);
    assert_eq!(grown_b, None);
}

#[test]
fn hostmem_vectored_store_load_roundtrip() {
    let mut h = HostMemBufferManager::new(8 * MIB, 0, false);
    let first = pattern(2 * MIB);
    let second: Vec<u8> = (0..100u32).map(|i| (i * 7 % 256) as u8).collect();
    let b = id(3, 9, (2 * MIB + 100) as u32);
    assert!(h.store_vectored(&b, &vec![first.clone(), second.clone()]).is_ok());
    assert_eq!(h.get_block_count(&b).unwrap().0, 2);
    // The count of free blocks goes by buffers held, not blocks.
    assert_eq!(h.free_blocks_count().0, 3);
    let mut out = vec![vec![0u8; 2 * MIB], vec![0xEEu8; 150]];
    assert_eq!(h.load_to_vectored(&b, &mut out).unwrap(), BufferLocation::HostMem);
    assert_eq!(out[0], first);
    assert_eq!(&out[1][..100], &second[..]);
    assert_eq!(&out[1][100..], &[0xEEu8; 50]);
    assert!(!h.contains(&b));
}

#[test]
fn hostmem_vectored_refusals() {
    let mut h = HostMemBufferManager::new(2 * MIB, 0, false);
    let b = id(3, 1, (3 * MIB) as u32);
    // Two blocks are needed, one can be had.
    assert!(matches!(
        h.store_vectored(&b, &vec![pattern(2 * MIB), pattern(MIB)]),
        Err(HybridBufferError::MemoryExhausted)
    ));
    let too_big: Vec<Vec<u8>> = (0..65).map(|_| vec![0u8; 2 * MIB]).collect();
    assert!(matches!(h.store_vectored(&b, &too_big), Err(HybridBufferError::InvalidInputBuffer)));
    let mut room = vec![vec![0u8; 2 * MIB], vec![0u8; MIB]];
    assert!(matches!(h.load_to_vectored(&b, &mut room), Err(HybridBufferError::NoBufferId)));
    let mut small = vec![vec![0u8; 10]];
    assert!(matches!(h.load_to_vectored(&b, &mut small), Err(HybridBufferError::InvalidInputBuffer)));
    assert_eq!(small, vec![vec![0u8; 10]]);
}

#[test]
fn hostmem_limits_can_be_tested() {
    let mut h = HostMemBufferManager::new(4 * MIB, 0, false);
    assert!(h.limits_hold());
    let b = id(1, 1, 10);
    assert!(h.store(&b, &pattern(10)).is_ok());
    assert!(h.limits_hold());
}
