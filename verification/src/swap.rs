//! Migration entries that say where each buffer is staged.

use vstd::prelude::*;

verus! {

/// A buffer staged in shared memory.
#[derive(Debug, Clone, Copy, PartialEq, Eq, Structural)]
pub struct ShmMigrationSpecEntry {
    pub size: u64,
    /// The process's handle of the allocation (never zero).
    pub handle_idx: u32,
}

/// A buffer staged in host memory or storage.
#[derive(Debug, Clone, Copy, PartialEq, Eq, Structural)]
pub struct HybridMigrationSpecEntry {
    pub size: u64,
    /// The process's handle of the allocation (never zero).
    pub handle_idx: u32,
}

/// One buffer to move, with where it is staged.
#[derive(Debug, Clone, Copy, PartialEq, Eq, Structural)]
pub enum MigrationSpecEntry {
    Shm(ShmMigrationSpecEntry),
    HostMem(HybridMigrationSpecEntry),
    Storage(HybridMigrationSpecEntry),
}

/// The size of an entry, wherever it is staged.
pub open spec fn entry_size(e: MigrationSpecEntry) -> u64 {
    match e {
        MigrationSpecEntry::Shm(x) => x.size,
        MigrationSpecEntry::HostMem(x) => x.size,
        MigrationSpecEntry::Storage(x) => x.size,
    }
}

impl MigrationSpecEntry {
    /// The size of the buffer.
    pub fn size(&self) -> (s: u64)
        ensures
            s == entry_size(*self),
    {
        match self {
            MigrationSpecEntry::Shm(entry) => entry.size,
            MigrationSpecEntry::HostMem(entry) => entry.size,
            MigrationSpecEntry::Storage(entry) => entry.size,
        }
    }
}

} // verus!
