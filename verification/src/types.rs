//! Identifiers and sizes shared by the scheduler and the buffer managers.

use vstd::prelude::*;

verus! {

/// The smallest unit in which buffers are allocated (2 MiB).
pub const MIN_ALLOCATION_SIZE: usize = 2 * 1024 * 1024;

/// The largest single buffer (128 MiB).
pub const MAX_ALLOCATION_SIZE: usize = 128 * 1024 * 1024;

/// A device as the machine numbers it.
#[derive(Debug, Clone, Copy, PartialEq, Eq, Hash, Structural)]
pub struct GlobalDeviceId(pub i32);

/// Where a buffer of a process currently lives.
#[derive(Debug, Clone, Copy, PartialEq, Eq, Hash, Structural)]
pub enum BufferLocation {
    Gpu(GlobalDeviceId),
    Shm,
    HostMem,
    Storage,
}

/// A byte offset in a shared-memory region.
#[derive(Debug, Clone, Copy, PartialEq, Eq, Hash, Structural)]
pub struct Offset(pub u64);

/// A capacity in bytes reserved for a buffer.
#[derive(Debug, Clone, Copy, PartialEq, Eq, Hash, Structural)]
pub struct AllocationCapacity(pub u32);

/// A number of allocation units.
#[derive(Debug, Clone, Copy, PartialEq, Eq, Hash, Structural)]
pub struct AllocationCount(pub u32);

impl AllocationCount {
    /// The sum of two counts.
    pub fn add(self, rhs: AllocationCount) -> (r: AllocationCount)
        requires
            self.0 + rhs.0 <= u32::MAX,
        ensures
            r.0 == self.0 + rhs.0,
    {
        AllocationCount(self.0 + rhs.0)
    }

    /// Adds `rhs` to this count.
    pub fn add_assign(&mut self, rhs: AllocationCount)
        requires
            old(self).0 + rhs.0 <= u32::MAX,
        ensures
            final(self).0 == old(self).0 + rhs.0,
    {
        self.0 = self.0 + rhs.0;
    }
}

/// Where a buffer lies in a backing file, and the room reserved for it.
#[derive(Debug, Clone, Copy, PartialEq, Eq, Hash, Structural)]
pub struct AllocationInfo {
    pub addr: u64,
    pub block_size: u64,
}

/// The number of allocation units a buffer of `size` bytes occupies.
pub open spec fn spec_allocation_count(size: u32) -> int {
    (size as int + MIN_ALLOCATION_SIZE as int - 1) / (MIN_ALLOCATION_SIZE as int)
}

/// One allocation of one device of one process, as the daemon names it.
#[derive(Debug, Clone, Copy, PartialEq, Eq, Hash, Structural)]
pub struct BufferId {
    pub pid: i32,
    pub device_id: GlobalDeviceId,
    /// The process's handle of the allocation (never zero).
    pub block_id: u64,
    pub size: u32,
}

impl BufferId {
    /// The number of allocation units the buffer occupies: its size
    /// divided by the unit, rounded up.
    pub fn get_allocation_count(&self) -> (c: AllocationCount)
        ensures
            c.0 == spec_allocation_count(self.size),
    {
        let unit = MIN_ALLOCATION_SIZE as u32;
        let q = self.size / unit;
        let r = self.size % unit;
        let c = if r == 0 { q } else { q + 1 };
        proof {
            assert((self.size as int + unit as int - 1) / (unit as int) == (if r == 0 { q as int } else { q + 1 })) by (nonlinear_arith)
                requires
                    unit == 2097152,
                    q == self.size / unit,
                    r == self.size % unit,
            ;
        }
        AllocationCount(c)
    }
}

/// A request for shared-memory room, from a device or from a backing store.
#[derive(Debug, Clone, Copy, PartialEq, Eq, Hash, Structural)]
pub enum ShmBufferRequest {
    FromGPU(AllocationCount),
    FromBackend(AllocationCount),
}

impl ShmBufferRequest {
    /// The number of units asked for.
    pub fn count(&self) -> (c: AllocationCount)
        ensures
            c == (match self {
                ShmBufferRequest::FromGPU(c) => *c,
                ShmBufferRequest::FromBackend(c) => *c,
            }),
    {
        match self {
            ShmBufferRequest::FromGPU(count) => *count,
            ShmBufferRequest::FromBackend(count) => *count,
        }
    }
}

} // verus!
