//! Moving buffers out of shared memory into the backing stores: host
//! memory while it has room, storage otherwise; and the buffers whose data
//! is not in shared memory yet, held back until it arrives.

use vstd::prelude::*;
use crate::hostmem::{can_alloc, chunks, put_held, free_after, within_limits, HostMemBufferManager};
use crate::storage::HybridBufferError;
use crate::types::{spec_allocation_count, BufferId, BufferLocation, MAX_ALLOCATION_SIZE};

verus! {

/// Stores the bytes `data` of buffer `id`, which leaves shared memory for
/// `target` (host memory or storage). Bound for host memory, it is stored
/// there if host memory can take it, and is sent on to storage when host
/// memory is exhausted; other refusals are passed on. Returns where the
/// buffer goes: host memory (stored), or storage (left for the caller to
/// write).
pub fn store_spilled(hostmem: &mut HostMemBufferManager, id: &BufferId, data: &[u8], target: BufferLocation) -> (r: Result<BufferLocation, HybridBufferError>)
    requires
        old(hostmem).wf(),
        target == BufferLocation::HostMem || target == BufferLocation::Storage,
        target == BufferLocation::HostMem && data@.len() <= MAX_ALLOCATION_SIZE ==> within_limits(old(hostmem)@),
    ensures
        final(hostmem).wf(),
        target == BufferLocation::Storage ==> r == Ok::<BufferLocation, HybridBufferError>(BufferLocation::Storage)
            && final(hostmem)@ == old(hostmem)@,
        target == BufferLocation::HostMem && data@.len() > MAX_ALLOCATION_SIZE
            ==> (r matches Err(HybridBufferError::InvalidInputBuffer)) && final(hostmem)@ == old(hostmem)@,
        target == BufferLocation::HostMem && data@.len() <= MAX_ALLOCATION_SIZE
            && !can_alloc(old(hostmem)@, spec_allocation_count(data@.len() as u32))
            ==> r == Ok::<BufferLocation, HybridBufferError>(BufferLocation::Storage) && final(hostmem)@ == old(hostmem)@,
        target == BufferLocation::HostMem && data@.len() <= MAX_ALLOCATION_SIZE
            && can_alloc(old(hostmem)@, spec_allocation_count(data@.len() as u32)) ==> {
                &&& r == Ok::<BufferLocation, HybridBufferError>(BufferLocation::HostMem)
                &&& final(hostmem)@.entries == put_held(old(hostmem)@.entries, *id, chunks(data@))
                &&& final(hostmem)@.free == free_after(old(hostmem)@.free, spec_allocation_count(data@.len() as u32))
                &&& final(hostmem)@.max_count == old(hostmem)@.max_count
                &&& final(hostmem)@.extra_count == old(hostmem)@.extra_count
                &&& final(hostmem)@.borrowed == old(hostmem)@.borrowed
            },
{
    if target == BufferLocation::HostMem {
        match hostmem.store(id, data) {
            Ok(()) => Ok(BufferLocation::HostMem),
            Err(HybridBufferError::MemoryExhausted) => Ok(BufferLocation::Storage),
            Err(e) => Err(e),
        }
    } else {
        Ok(BufferLocation::Storage)
    }
}

/// The buffers held back, each with the store it goes to.
pub struct DeferredMoves {
    moves: Vec<(BufferId, BufferLocation)>,
}

/// No buffer occurs twice in `m`.
pub open spec fn moves_unique(m: Seq<(BufferId, BufferLocation)>) -> bool {
    forall|a: int, b: int| 0 <= a < m.len() && 0 <= b < m.len() && a != b ==> (#[trigger] m[a]).0 != (#[trigger] m[b]).0
}

/// Whether buffer `id` is held back in `m`.
pub open spec fn has_move(m: Seq<(BufferId, BufferLocation)>, id: BufferId) -> bool {
    exists|j: int| 0 <= j < m.len() && (#[trigger] m[j]).0 == id
}

/// The position of buffer `id` in `m`.
pub open spec fn move_index(m: Seq<(BufferId, BufferLocation)>, id: BufferId) -> int {
    choose|j: int| 0 <= j < m.len() && (#[trigger] m[j]).0 == id
}

impl View for DeferredMoves {
    type V = Seq<(BufferId, BufferLocation)>;

    closed spec fn view(&self) -> Seq<(BufferId, BufferLocation)> {
        self.moves@
    }
}

impl DeferredMoves {
    /// No buffer is held back twice.
    pub closed spec fn wf(&self) -> bool {
        moves_unique(self.moves@)
    }

    /// Nothing held back.
    pub fn new() -> (d: Self)
        ensures
            d.wf(),
            d@ == Seq::<(BufferId, BufferLocation)>::empty(),
    {
        DeferredMoves { moves: Vec::new() }
    }

    /// Whether nothing is held back.
    pub fn is_empty(&self) -> (b: bool)
        ensures
            b == (self@.len() == 0),
    {
        self.moves.len() == 0
    }

    fn find(&self, id: &BufferId) -> (k: Option<usize>)
        requires
            self.wf(),
        ensures
            match k {
                Some(k) => k < self@.len() && self@[k as int].0 == *id && move_index(self@, *id) == k,
                None => !has_move(self@, *id),
            },
    {
        let mut k: usize = 0;
        while k < self.moves.len()
            invariant
                k <= self@.len(),
                self.wf(),
                forall|q: int| 0 <= q < k ==> (#[trigger] self@[q]).0 != *id,
            decreases self@.len() - k,
        {
            if self.moves[k].0 == *id {
                proof {
                    let w = move_index(self@, *id);
                    if w != k as int {
                        assert(self@[w].0 == self@[k as int].0);
                    }
                }
                return Some(k);
            }
            k += 1;
        }
        None
    }

    /// Holds back buffer `id`, bound for `to`: replacing its former
    /// record, if any.
    pub fn defer(&mut self, id: BufferId, to: BufferLocation)
        requires
            old(self).wf(),
        ensures
            final(self).wf(),
            final(self)@ == (if has_move(old(self)@, id) {
                old(self)@.update(move_index(old(self)@, id), (id, to))
            } else {
                old(self)@.push((id, to))
            }),
    {
        let ghost m0 = self@;
        match self.find(&id) {
            Some(k) => {
                self.moves.set(k, (id, to));
                proof {
                    assert forall|a: int, b: int| 0 <= a < self@.len() && 0 <= b < self@.len() && a != b implies (#[trigger] self@[a]).0 != (#[trigger] self@[b]).0 by {
                        assert(self@[a].0 == m0[a].0 && self@[b].0 == m0[b].0);
                    }
                }
            },
            None => {
                self.moves.push((id, to));
                proof {
                    assert forall|a: int, b: int| 0 <= a < self@.len() && 0 <= b < self@.len() && a != b implies (#[trigger] self@[a]).0 != (#[trigger] self@[b]).0 by {
                        if a < m0.len() && b < m0.len() {
                            assert(self@[a] == m0[a] && self@[b] == m0[b]);
                        } else if a < m0.len() {
                            assert(self@[a] == m0[a]);
                        } else {
                            assert(self@[b] == m0[b]);
                        }
                    }
                }
            },
        }
    }

    /// The data of buffer `id` arrived: if it was held back, it is released
    /// and the store it goes to is returned; otherwise nothing changes.
    pub fn claim(&mut self, id: &BufferId) -> (r: Option<BufferLocation>)
        requires
            old(self).wf(),
        ensures
            final(self).wf(),
            has_move(old(self)@, *id) ==> r == Some(old(self)@[move_index(old(self)@, *id)].1)
                && final(self)@ == old(self)@.remove(move_index(old(self)@, *id)),
            !has_move(old(self)@, *id) ==> r is None && final(self)@ == old(self)@,
    {
        let ghost m0 = self@;
        match self.find(id) {
            Some(k) => {
                let (_, to) = self.moves.remove(k);
                proof {
                    assert forall|a: int, b: int| 0 <= a < self@.len() && 0 <= b < self@.len() && a != b implies (#[trigger] self@[a]).0 != (#[trigger] self@[b]).0 by {
                        let a0 = if a < k { a } else { a + 1 };
                        let b0 = if b < k { b } else { b + 1 };
                        assert(self@[a] == m0[a0] && self@[b] == m0[b0]);
                    }
                }
                Some(to)
            },
            None => None,
        }
    }
}

/// A buffer held back and then claimed is released with the store it was
/// bound for, and nothing else changes: claiming undoes holding back.
pub proof fn lemma_defer_then_claim(m: Seq<(BufferId, BufferLocation)>, id: BufferId, to: BufferLocation)
    requires
        moves_unique(m),
        !has_move(m, id),
    ensures
        has_move(m.push((id, to)), id),
        move_index(m.push((id, to)), id) == m.len(),
        m.push((id, to))[m.len() as int].1 == to,
        m.push((id, to)).remove(m.len() as int) == m,
{
    let n = m.push((id, to));
    assert(n[m.len() as int].0 == id);
    let w = move_index(n, id);
    if w != m.len() {
        assert(n[w] == m[w]);
    }
    assert(n.remove(m.len() as int) =~= m);
}

} // verus!
