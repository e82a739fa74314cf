//! The messages exchanged between the daemon and the processes it
//! serves.

use vstd::prelude::*;
use std::time::Duration;

verus! {

/// The first message of a process: who it is.
#[derive(Debug, Clone, Copy, PartialEq, Eq, Structural)]
pub struct Handshake {
    pub pid: i32,
}

/// What a process is told when it joins: the descriptor it may use, the
/// path of the shared region, and the devices it may see.
#[derive(Debug, Clone)]
pub struct InitInfo {
    pub fd: Option<i32>,
    pub shm_path: String,
    pub visible_devices: String,
}

/// The memory a process uses on one device.
#[derive(Debug, Clone, Copy, PartialEq, Eq, Structural)]
pub struct MemoryUsage {
    pub mem_usage_bytes: u64,
    pub alloc_count: u32,
}

/// What a process tells the daemon about its activity.
#[derive(Debug, Clone)]
pub enum ActivityUpdate {
    RequestScheduling { mem_usage_per_device: Vec<MemoryUsage> },
    Idle,
}

/// A memory attribute the daemon may set on a range.
#[derive(Debug, Clone, Copy, PartialEq, Eq, Structural)]
pub enum AttrType {
    ReadDup,
    PrefLoc,
    AccessedBy,
}

/// Sets or clears an attribute on a memory range of a device.
#[derive(Debug, Clone, Copy, PartialEq, Eq, Structural)]
pub struct AttrArgs {
    /// The start of the range (never zero when given).
    pub addr: Option<u64>,
    pub len: u64,
    pub value: AttrType,
    pub will_set: bool,
    pub device: i32,
}

/// Moves a memory range to or from the devices.
#[derive(Debug, Clone, Copy, PartialEq, Eq, Structural)]
pub struct PrefetchArgs {
    pub addr: u64,
    pub len: u64,
    pub to_gpu: bool,
}

/// Lets a process run (prefetching its data first, if asked), or stops it
/// with the MiB to move off each of its devices (never zero when given).
#[derive(Debug, Clone)]
pub enum SchedulingArgs {
    Enable { prefetch: bool },
    Disable { swap_out_mb: Vec<Option<u64>> },
}

/// What a process reports after moving its data.
#[derive(Debug, Clone, Copy)]
pub struct SchedulingResults {
    pub ro_size_mb: u64,
    pub rw_size_mb: u64,
    pub ro_duration: Duration,
    pub rw_duration: Duration,
}

/// A message from the daemon to a process.
#[derive(Debug, Clone)]
pub enum S2AMessage {
    SetAttr(AttrArgs),
    Prefetch(PrefetchArgs),
    Scheduling(SchedulingArgs),
}

} // verus!
