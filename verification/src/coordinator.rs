//! Who gets shared-memory blocks first when both the devices and the
//! backing stores are waiting for room: buffers coming off a device are
//! served before buffers coming from host memory or storage.
//!
//! Each attempt to reserve is one step: it either reserves, or asks the
//! shared-memory drain for room and waits to be told, or just waits a
//! little; the caller performs the waiting and comes back.

use vstd::prelude::*;
use crate::shm::{new_blocks, spec_try_reserve, ShmBlock, ShmBufferManager};
use crate::types::{spec_allocation_count, AllocationCount, BufferId};

verus! {

/// How many reservations of each kind are waiting for room.
#[derive(Debug, Clone, Copy, PartialEq, Eq, Structural)]
pub struct ShmCoordinator {
    pub gpu_pending: u32,
    pub backend_pending: u32,
}

/// The state of one reservation of a buffer coming from a backing store:
/// whether it is counted as waiting, and whether the drain told it to
/// stop asking.
#[derive(Debug, Clone, Copy, PartialEq, Eq, Structural)]
pub struct BackendWaiter {
    pub pending: bool,
    pub busy_wait: bool,
}

/// The state of one reservation of a buffer coming off a device: whether
/// it is counted as waiting.
#[derive(Debug, Clone, Copy, PartialEq, Eq, Structural)]
pub struct GpuWaiter {
    pub pending: bool,
}

/// The outcome of one attempt to reserve.
#[derive(Debug)]
pub enum ReserveStep {
    /// The blocks were reserved.
    Reserved(Vec<ShmBlock>),
    /// Ask the drain for this many blocks, then wait to be told.
    RequestAndWait(AllocationCount),
    /// Wait a little and try again.
    Wait,
}

/// The answer of the drain to a reservation that asked for room.
#[derive(Debug, Clone, Copy, PartialEq, Eq, Structural)]
pub enum DrainAnswer {
    Ready,
    BusyWait,
}

impl ShmCoordinator {
    /// Nobody is waiting.
    pub fn new() -> (c: Self)
        ensures
            c == (ShmCoordinator { gpu_pending: 0, backend_pending: 0 }),
    {
        ShmCoordinator { gpu_pending: 0, backend_pending: 0 }
    }
}

impl BackendWaiter {
    /// A reservation that has not asked yet.
    pub fn new() -> (w: Self)
        ensures
            w == (BackendWaiter { pending: false, busy_wait: false }),
    {
        BackendWaiter { pending: false, busy_wait: false }
    }

    /// Takes the drain's answer: told to busy-wait, the reservation stops
    /// asking and only retries.
    pub fn answered(&mut self, answer: DrainAnswer)
        ensures
            *final(self) == (if answer == DrainAnswer::BusyWait {
                BackendWaiter { busy_wait: true, ..*old(self) }
            } else {
                *old(self)
            }),
    {
        if answer == DrainAnswer::BusyWait {
            self.busy_wait = true;
        }
    }
}

impl GpuWaiter {
    /// A reservation that has not asked yet.
    pub fn new() -> (w: Self)
        ensures
            w == (GpuWaiter { pending: false }),
    {
        GpuWaiter { pending: false }
    }
}

impl ShmCoordinator {
    /// One attempt to reserve blocks for buffer `id` coming from a backing
    /// store. While a buffer coming off a device waits, nothing is tried.
    /// Otherwise the blocks are reserved if `try_reserve` allows it (a
    /// counted reservation stops being counted); failing that, a
    /// reservation not told to busy-wait is counted as waiting and asks
    /// for room; one told to busy-wait just waits.
    pub fn backend_step(&mut self, shm: &mut ShmBufferManager, id: &BufferId, w: &mut BackendWaiter) -> (r: ReserveStep)
        requires
            old(shm).wf(),
            old(w).pending ==> old(self).backend_pending > 0,
            !old(w).pending ==> old(self).backend_pending < u32::MAX,
        ensures
            final(shm).wf(),
            old(self).gpu_pending > 0 ==> {
                &&& r is Wait
                &&& final(shm)@ == old(shm)@
                &&& *final(self) == *old(self)
                &&& *final(w) == *old(w)
            },
            old(self).gpu_pending == 0 ==> match spec_try_reserve(old(shm)@, *id) {
                Some(st) => {
                    &&& r matches ReserveStep::Reserved(b) && b@ == new_blocks(old(shm)@.avail, id.size)
                    &&& final(shm)@ == st
                    &&& *final(self) == (ShmCoordinator {
                        backend_pending: (if old(w).pending { old(self).backend_pending - 1 } else { old(self).backend_pending as int }) as u32,
                        ..*old(self)
                    })
                    &&& *final(w) == *old(w)
                },
                None => {
                    &&& final(shm)@ == old(shm)@
                    &&& if old(w).busy_wait {
                        &&& r is Wait
                        &&& *final(self) == *old(self)
                        &&& *final(w) == *old(w)
                    } else {
                        &&& r matches ReserveStep::RequestAndWait(c) && c.0 == spec_allocation_count(id.size)
                        &&& final(w).pending
                        &&& final(w).busy_wait == old(w).busy_wait
                        &&& *final(self) == (ShmCoordinator {
                            backend_pending: (if old(w).pending { old(self).backend_pending as int } else { old(self).backend_pending + 1 }) as u32,
                            ..*old(self)
                        })
                    }
                },
            },
    {
        if self.gpu_pending != 0 {
            return ReserveStep::Wait;
        }
        match shm.try_reserve(id) {
            Some(blocks) => {
                if w.pending {
                    self.backend_pending = self.backend_pending - 1;
                }
                return ReserveStep::Reserved(blocks);
            },
            None => {},
        }
        if w.busy_wait {
            return ReserveStep::Wait;
        }
        if !w.pending {
            w.pending = true;
            self.backend_pending = self.backend_pending + 1;
        }
        ReserveStep::RequestAndWait(id.get_allocation_count())
    }

    /// One attempt to reserve blocks for buffer `id` coming off a device.
    /// While buffers from backing stores wait and this one is not yet
    /// counted, nothing is tried. Otherwise the blocks are reserved if
    /// `try_reserve` allows it (a counted reservation stops being
    /// counted); failing that, the reservation is counted as waiting and
    /// asks for room.
    pub fn gpu_step(&mut self, shm: &mut ShmBufferManager, id: &BufferId, w: &mut GpuWaiter) -> (r: ReserveStep)
        requires
            old(shm).wf(),
            old(w).pending ==> old(self).gpu_pending > 0,
            !old(w).pending ==> old(self).gpu_pending < u32::MAX,
        ensures
            final(shm).wf(),
            old(self).backend_pending > 0 && !old(w).pending ==> {
                &&& r is Wait
                &&& final(shm)@ == old(shm)@
                &&& *final(self) == *old(self)
                &&& *final(w) == *old(w)
            },
            old(self).backend_pending == 0 || old(w).pending ==> match spec_try_reserve(old(shm)@, *id) {
                Some(st) => {
                    &&& r matches ReserveStep::Reserved(b) && b@ == new_blocks(old(shm)@.avail, id.size)
                    &&& final(shm)@ == st
                    &&& *final(self) == (ShmCoordinator {
                        gpu_pending: (if old(w).pending { old(self).gpu_pending - 1 } else { old(self).gpu_pending as int }) as u32,
                        ..*old(self)
                    })
                    &&& *final(w) == *old(w)
                },
                None => {
                    &&& final(shm)@ == old(shm)@
                    &&& r matches ReserveStep::RequestAndWait(c) && c.0 == spec_allocation_count(id.size)
                    &&& final(w).pending
                    &&& *final(self) == (ShmCoordinator {
                        gpu_pending: (if old(w).pending { old(self).gpu_pending as int } else { old(self).gpu_pending + 1 }) as u32,
                        ..*old(self)
                    })
                },
            },
    {
        if self.backend_pending != 0 && !w.pending {
            return ReserveStep::Wait;
        }
        match shm.try_reserve(id) {
            Some(blocks) => {
                if w.pending {
                    self.gpu_pending = self.gpu_pending - 1;
                }
                return ReserveStep::Reserved(blocks);
            },
            None => {},
        }
        if !w.pending {
            w.pending = true;
            self.gpu_pending = self.gpu_pending + 1;
        }
        ReserveStep::RequestAndWait(id.get_allocation_count())
    }
}

} // verus!
