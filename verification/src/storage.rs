//! The bookkeeping of the storage file that holds buffers spilled from
//! memory: one largest-buffer slot per buffer, reused once freed.

use vstd::prelude::*;
use crate::types::{AllocationCapacity, AllocationInfo, BufferId, MAX_ALLOCATION_SIZE};

verus! {

/// Why a buffer could not be stored or loaded.
#[derive(Debug, Clone)]
pub enum HybridBufferError {
    MemoryExhausted,
    InvalidInputBuffer,
    NoBufferId,
    /// An input or output operation failed, with what was being done.
    IoError(String),
}

/// The bookkeeping as plain values: each stored buffer with its slot, the
/// free slots (the last one is reused first), and the length of the file.
pub struct StorageState {
    pub entries: Seq<(BufferId, AllocationInfo)>,
    pub free: Seq<AllocationInfo>,
    pub file_size: u64,
}

/// Whether buffer `id` is stored.
pub open spec fn stored(es: Seq<(BufferId, AllocationInfo)>, id: BufferId) -> bool {
    exists|i: int| 0 <= i < es.len() && (#[trigger] es[i]).0 == id
}

/// The position of buffer `id`.
pub open spec fn stored_index(es: Seq<(BufferId, AllocationInfo)>, id: BufferId) -> int {
    choose|i: int| 0 <= i < es.len() && (#[trigger] es[i]).0 == id
}

/// A slot of the size of a largest buffer.
pub open spec fn full_slot(a: AllocationInfo) -> bool {
    a.block_size == MAX_ALLOCATION_SIZE as u64
}

/// The stored buffers after `id` is stored in slot `a` (replacing its
/// former record).
pub open spec fn put_stored(es: Seq<(BufferId, AllocationInfo)>, id: BufferId, a: AllocationInfo) -> Seq<(BufferId, AllocationInfo)> {
    if stored(es, id) {
        es.update(stored_index(es, id), (id, a))
    } else {
        es.push((id, a))
    }
}

/// The stored buffers of `es` not of process `pid`, in order.
pub open spec fn stored_without_pid(es: Seq<(BufferId, AllocationInfo)>, pid: i32) -> Seq<(BufferId, AllocationInfo)>
    decreases es.len(),
{
    if es.len() == 0 {
        Seq::empty()
    } else if es.last().0.pid == pid {
        stored_without_pid(es.drop_last(), pid)
    } else {
        stored_without_pid(es.drop_last(), pid).push(es.last())
    }
}

/// The slots of the buffers of process `pid` in `es`, in order.
pub open spec fn slots_of_pid(es: Seq<(BufferId, AllocationInfo)>, pid: i32) -> Seq<AllocationInfo>
    decreases es.len(),
{
    if es.len() == 0 {
        Seq::empty()
    } else if es.last().0.pid == pid {
        slots_of_pid(es.drop_last(), pid).push(es.last().1)
    } else {
        slots_of_pid(es.drop_last(), pid)
    }
}

/// The stored buffers and free slots after buffer `id` is forgotten: its
/// slot, if it is stored, joins the free slots.
pub open spec fn release_one(es: Seq<(BufferId, AllocationInfo)>, fr: Seq<AllocationInfo>, id: BufferId)
    -> (Seq<(BufferId, AllocationInfo)>, Seq<AllocationInfo>)
{
    if stored(es, id) {
        (es.remove(stored_index(es, id)), fr.push(es[stored_index(es, id)].1))
    } else {
        (es, fr)
    }
}

/// The stored buffers and free slots after the buffers `ids` are forgotten
/// one after the other.
pub open spec fn release_all(es: Seq<(BufferId, AllocationInfo)>, fr: Seq<AllocationInfo>, ids: Seq<BufferId>)
    -> (Seq<(BufferId, AllocationInfo)>, Seq<AllocationInfo>)
    decreases ids.len(),
{
    if ids.len() == 0 {
        (es, fr)
    } else {
        let prev = release_all(es, fr, ids.drop_last());
        release_one(prev.0, prev.1, ids.last())
    }
}

/// No buffer is recorded twice and every slot in use is a full one.
pub open spec fn entries_ok(es: Seq<(BufferId, AllocationInfo)>) -> bool {
    &&& forall|a: int, b: int| 0 <= a < es.len() && 0 <= b < es.len() && a != b ==> (#[trigger] es[a]).0 != (#[trigger] es[b]).0
    &&& forall|i: int| 0 <= i < es.len() ==> full_slot((#[trigger] es[i]).1)
}

/// Every free slot is a full one.
pub open spec fn free_ok(fr: Seq<AllocationInfo>) -> bool {
    forall|i: int| 0 <= i < fr.len() ==> full_slot(#[trigger] fr[i])
}

/// A buffer is read back from the slot it was stored in: once buffer `id`
/// is recorded in slot `a`, it is stored, in slot `a`, and no buffer is
/// recorded twice.
pub proof fn lemma_record_then_take(es: Seq<(BufferId, AllocationInfo)>, id: BufferId, a: AllocationInfo)
    requires
        entries_ok(es),
        full_slot(a),
    ensures
        stored(put_stored(es, id, a), id),
        entries_ok(put_stored(es, id, a)),
        put_stored(es, id, a)[stored_index(put_stored(es, id, a), id)].1 == a,
{
    let es2 = put_stored(es, id, a);
    let w: int = if stored(es, id) { stored_index(es, id) } else { es.len() as int };
    assert(es2[w] == (id, a));
    assert(stored(es2, id));
    assert forall|x: int, y: int| 0 <= x < es2.len() && 0 <= y < es2.len() && x != y implies (#[trigger] es2[x]).0 != (#[trigger] es2[y]).0 by {
        if x != w && y != w {
            assert(es2[x] == es[x] && es2[y] == es[y]);
        } else if x == w {
            assert(es2[y] == es[y]);
            if es[y].0 == id {
                assert(stored(es, id));
            }
        } else {
            assert(es2[x] == es[x]);
            if es[x].0 == id {
                assert(stored(es, id));
            }
        }
    }
    assert forall|i: int| 0 <= i < es2.len() implies full_slot((#[trigger] es2[i]).1) by {
        if i != w {
            assert(es2[i] == es[i]);
        }
    }
    let j = stored_index(es2, id);
    if j != w {
        assert(es2[j].0 == es2[w].0);
    }
}

proof fn lemma_stored_without_pid_ok(es: Seq<(BufferId, AllocationInfo)>, pid: i32)
    requires
        entries_ok(es),
    ensures
        entries_ok(stored_without_pid(es, pid)),
        forall|q: int| 0 <= q < stored_without_pid(es, pid).len() ==> #[trigger] es.contains(stored_without_pid(es, pid)[q]),
    decreases es.len(),
{
    if es.len() > 0 {
        let d = es.drop_last();
        assert forall|a: int, b: int| 0 <= a < d.len() && 0 <= b < d.len() && a != b implies (#[trigger] d[a]).0 != (#[trigger] d[b]).0 by {
            assert(d[a] == es[a] && d[b] == es[b]);
        }
        assert forall|i: int| 0 <= i < d.len() implies full_slot((#[trigger] d[i]).1) by {
            assert(d[i] == es[i]);
        }
        lemma_stored_without_pid_ok(d, pid);
        let w = stored_without_pid(d, pid);
        let r = stored_without_pid(es, pid);
        assert forall|q: int| 0 <= q < r.len() implies #[trigger] es.contains(r[q]) by {
            if q < w.len() {
                assert(d.contains(w[q]));
                let j = choose|j: int| 0 <= j < d.len() && d[j] == w[q];
                assert(es[j] == d[j]);
            } else {
                assert(es[es.len() - 1] == es.last());
            }
        }
        if es.last().0.pid != pid {
            assert forall|a: int, b: int| 0 <= a < r.len() && 0 <= b < r.len() && a != b implies (#[trigger] r[a]).0 != (#[trigger] r[b]).0 by {
                if a < w.len() && b < w.len() {
                } else if a < w.len() {
                    assert(d.contains(w[a]));
                    let j = choose|j: int| 0 <= j < d.len() && d[j] == w[a];
                    assert(es[j] == d[j]);
                    assert(es[j].0 != es[es.len() - 1].0);
                } else if b < w.len() {
                    assert(d.contains(w[b]));
                    let j = choose|j: int| 0 <= j < d.len() && d[j] == w[b];
                    assert(es[j] == d[j]);
                    assert(es[j].0 != es[es.len() - 1].0);
                }
            }
            assert forall|i: int| 0 <= i < r.len() implies full_slot((#[trigger] r[i]).1) by {
                assert(es.contains(r[i]));
                let j = choose|j: int| 0 <= j < es.len() && es[j] == r[i];
            }
        } else {
            assert forall|i: int| 0 <= i < r.len() implies full_slot((#[trigger] r[i]).1) by {
                assert(es.contains(r[i]));
                let j = choose|j: int| 0 <= j < es.len() && es[j] == r[i];
            }
        }
    }
}

/// The bookkeeping of the storage file.
pub struct StorageBufferManager {
    disk_bookkeeping: Vec<(BufferId, AllocationInfo)>,
    free_disk_buffers: Vec<AllocationInfo>,
    file_size: u64,
}

impl View for StorageBufferManager {
    type V = StorageState;

    closed spec fn view(&self) -> StorageState {
        StorageState { entries: self.disk_bookkeeping@, free: self.free_disk_buffers@, file_size: self.file_size }
    }
}

impl StorageBufferManager {
    /// No buffer is recorded twice, and every slot, used or free, is a
    /// full one.
    pub closed spec fn wf(&self) -> bool {
        &&& entries_ok(self@.entries)
        &&& free_ok(self@.free)
    }

    /// What well-formedness says of the records: no buffer is recorded
    /// twice, and every slot, used or free, is a full one.
    pub proof fn lemma_wf_unique(&self)
        requires
            self.wf(),
        ensures
            entries_ok(self@.entries),
            free_ok(self@.free),
    {
    }

    /// The bookkeeping of an empty file.
    pub fn new() -> (m: Self)
        ensures
            m.wf(),
            m@.entries == Seq::<(BufferId, AllocationInfo)>::empty(),
            m@.free == Seq::<AllocationInfo>::empty(),
            m@.file_size == 0,
    {
        StorageBufferManager { disk_bookkeeping: Vec::new(), free_disk_buffers: Vec::new(), file_size: 0 }
    }

    /// Refuses a buffer of `total` bytes if it is larger than a largest
    /// buffer.
    pub fn check_store_size(total: usize) -> (r: Result<(), HybridBufferError>)
        ensures
            r is Ok <==> total <= MAX_ALLOCATION_SIZE,
            r is Err ==> r matches Err(HybridBufferError::InvalidInputBuffer),
    {
        if total > MAX_ALLOCATION_SIZE {
            Err(HybridBufferError::InvalidInputBuffer)
        } else {
            Ok(())
        }
    }

    /// Whether a slot can be handed out: a free one, or room in the file
    /// length for one more.
    pub fn slot_available(&self) -> (r: bool)
        ensures
            r == (self@.free.len() > 0 || self@.file_size + MAX_ALLOCATION_SIZE <= u64::MAX),
    {
        self.free_disk_buffers.len() > 0 || self.file_size <= u64::MAX - MAX_ALLOCATION_SIZE as u64
    }

    /// A slot to write a buffer to: the last freed one, else a new one at
    /// the end of the file, which grows by a slot. Returns the slot and,
    /// when the file grew, its new length.
    pub fn take_slot(&mut self) -> (r: (AllocationInfo, Option<u64>))
        requires
            old(self).wf(),
            old(self)@.free.len() == 0 ==> old(self)@.file_size + MAX_ALLOCATION_SIZE <= u64::MAX,
        ensures
            final(self).wf(),
            final(self)@.entries == old(self)@.entries,
            full_slot(r.0),
            old(self)@.free.len() > 0 ==> {
                &&& r.0 == old(self)@.free.last()
                &&& r.1 is None
                &&& final(self)@.free == old(self)@.free.drop_last()
                &&& final(self)@.file_size == old(self)@.file_size
            },
            old(self)@.free.len() == 0 ==> {
                &&& r.0.addr == old(self)@.file_size
                &&& final(self)@.file_size == old(self)@.file_size + MAX_ALLOCATION_SIZE
                &&& r.1 == Some(final(self)@.file_size)
                &&& final(self)@.free == old(self)@.free
            },
    {
        match self.free_disk_buffers.pop() {
            Some(info) => {
                proof {
                    assert(full_slot(old(self)@.free.last()));
                    assert forall|i: int| 0 <= i < self@.free.len() implies full_slot(#[trigger] self@.free[i]) by {
                        assert(self@.free[i] == old(self)@.free[i]);
                    }
                }
                (info, None)
            },
            None => {
                let offset = self.file_size;
                self.file_size = self.file_size + MAX_ALLOCATION_SIZE as u64;
                (AllocationInfo { addr: offset, block_size: MAX_ALLOCATION_SIZE as u64 }, Some(self.file_size))
            },
        }
    }

    /// The position of buffer `id`, if stored.
    fn find(&self, id: &BufferId) -> (k: Option<usize>)
        requires
            self.wf(),
        ensures
            match k {
                Some(k) => k < self@.entries.len() && stored(self@.entries, *id) && stored_index(self@.entries, *id) == k,
                None => !stored(self@.entries, *id),
            },
    {
        let mut k: usize = 0;
        while k < self.disk_bookkeeping.len()
            invariant
                k <= self@.entries.len(),
                self.wf(),
                forall|q: int| 0 <= q < k ==> (#[trigger] self@.entries[q]).0 != *id,
            decreases self@.entries.len() - k,
        {
            if self.disk_bookkeeping[k].0 == *id {
                proof {
                    let es = self@.entries;
                    let w = stored_index(es, *id);
                    if w != k as int {
                        assert(es[w].0 != es[k as int].0);
                    }
                }
                return Some(k);
            }
            k += 1;
        }
        None
    }

    /// Records that buffer `id` is stored in the full slot `info`.
    pub fn record(&mut self, id: &BufferId, info: AllocationInfo)
        requires
            old(self).wf(),
            full_slot(info),
        ensures
            final(self).wf(),
            final(self)@.entries == put_stored(old(self)@.entries, *id, info),
            final(self)@.free == old(self)@.free,
            final(self)@.file_size == old(self)@.file_size,
    {
        let ghost es0 = self@.entries;
        match self.find(id) {
            Some(k) => {
                self.disk_bookkeeping.set(k, (*id, info));
                proof {
                    let es = self@.entries;
                    assert forall|a: int, b: int| 0 <= a < es.len() && 0 <= b < es.len() && a != b implies (#[trigger] es[a]).0 != (#[trigger] es[b]).0 by {
                        if a != k as int { assert(es[a] == es0[a]); assert(es0[a].0 != es0[k as int].0); }
                        if b != k as int { assert(es[b] == es0[b]); assert(es0[b].0 != es0[k as int].0); }
                    }
                    assert forall|i: int| 0 <= i < es.len() implies full_slot((#[trigger] es[i]).1) by {
                        if i != k as int { assert(es[i] == es0[i]); }
                    }
                }
            },
            None => {
                self.disk_bookkeeping.push((*id, info));
                proof {
                    let es = self@.entries;
                    assert forall|a: int, b: int| 0 <= a < es.len() && 0 <= b < es.len() && a != b implies (#[trigger] es[a]).0 != (#[trigger] es[b]).0 by {
                        if a < es0.len() { assert(es[a] == es0[a]); assert(es0[a].0 != *id); }
                        if b < es0.len() { assert(es[b] == es0[b]); assert(es0[b].0 != *id); }
                    }
                    assert forall|i: int| 0 <= i < es.len() implies full_slot((#[trigger] es[i]).1) by {
                        if i < es0.len() { assert(es[i] == es0[i]); }
                    }
                }
            },
        }
    }

    /// Takes buffer `id` out to load it into `data_len` bytes: refused if
    /// it is larger than a largest buffer or than the room given; absent if
    /// not stored. Returns its slot, which the caller gives back with
    /// `put_back_disk` once read.
    pub fn take_for_load(&mut self, id: &BufferId, data_len: usize) -> (r: Result<AllocationInfo, HybridBufferError>)
        requires
            old(self).wf(),
        ensures
            final(self).wf(),
            id.size > MAX_ALLOCATION_SIZE || data_len < id.size ==> (r matches Err(HybridBufferError::InvalidInputBuffer)) && final(self)@ == old(self)@,
            !(id.size > MAX_ALLOCATION_SIZE || data_len < id.size) && !stored(old(self)@.entries, *id)
                ==> (r matches Err(HybridBufferError::NoBufferId)) && final(self)@ == old(self)@,
            !(id.size > MAX_ALLOCATION_SIZE || data_len < id.size) && stored(old(self)@.entries, *id) ==> {
                let k = stored_index(old(self)@.entries, *id);
                &&& r == Ok::<AllocationInfo, HybridBufferError>(old(self)@.entries[k].1)
                &&& final(self)@.entries == old(self)@.entries.remove(k)
                &&& final(self)@.free == old(self)@.free
                &&& final(self)@.file_size == old(self)@.file_size
            },
    {
        if id.size > MAX_ALLOCATION_SIZE as u32 || data_len < id.size as usize {
            return Err(HybridBufferError::InvalidInputBuffer);
        }
        match self.find(id) {
            Some(k) => {
                let ghost es0 = self@.entries;
                let (_, info) = self.disk_bookkeeping.remove(k);
                proof {
                    let es = self@.entries;
                    assert(es == es0.remove(k as int));
                    assert forall|a: int, b: int| 0 <= a < es.len() && 0 <= b < es.len() && a != b implies (#[trigger] es[a]).0 != (#[trigger] es[b]).0 by {
                        let oa = if a < k as int { a } else { a + 1 };
                        let ob = if b < k as int { b } else { b + 1 };
                        assert(es[a] == es0[oa] && es[b] == es0[ob]);
                    }
                    assert forall|i: int| 0 <= i < es.len() implies full_slot((#[trigger] es[i]).1) by {
                        let oi = if i < k as int { i } else { i + 1 };
                        assert(es[i] == es0[oi]);
                    }
                }
                Ok(info)
            },
            None => Err(HybridBufferError::NoBufferId),
        }
    }

    /// Frees the full slot `info`.
    pub fn put_back_disk(&mut self, info: AllocationInfo)
        requires
            old(self).wf(),
            full_slot(info),
        ensures
            final(self).wf(),
            final(self)@.free == old(self)@.free.push(info),
            final(self)@.entries == old(self)@.entries,
            final(self)@.file_size == old(self)@.file_size,
    {
        self.free_disk_buffers.push(info);
        proof {
            assert forall|i: int| 0 <= i < self@.free.len() implies full_slot(#[trigger] self@.free[i]) by {
                if i < old(self)@.free.len() { assert(self@.free[i] == old(self)@.free[i]); }
            }
        }
    }

    /// Forgets the buffers `ids` that are stored, freeing their slots in
    /// order; returns how many were stored.
    pub fn batch_release(&mut self, ids: &Vec<BufferId>) -> (count: usize)
        requires
            old(self).wf(),
        ensures
            final(self).wf(),
            count <= ids@.len(),
            final(self)@.file_size == old(self)@.file_size,
            forall|j: int| 0 <= j < ids@.len() ==> !stored(final(self)@.entries, #[trigger] ids@[j]),
            forall|i: int| 0 <= i < final(self)@.entries.len() ==> old(self)@.entries.contains(#[trigger] final(self)@.entries[i]),
            forall|i: int| 0 <= i < old(self)@.entries.len() && !ids@.contains((#[trigger] old(self)@.entries[i]).0)
                ==> final(self)@.entries.contains(old(self)@.entries[i]),
            final(self)@.free.len() == old(self)@.free.len() + count,
            (final(self)@.entries, final(self)@.free) == release_all(old(self)@.entries, old(self)@.free, ids@),
    {
        let mut count: usize = 0;
        let mut i: usize = 0;
        while i < ids.len()
            invariant
                i <= ids@.len(),
                self.wf(),
                count <= i,
                self@.file_size == old(self)@.file_size,
                self@.free.len() == old(self)@.free.len() + count,
                (self@.entries, self@.free) == release_all(old(self)@.entries, old(self)@.free, ids@.take(i as int)),
                forall|j: int| 0 <= j < i ==> !stored(self@.entries, #[trigger] ids@[j]),
                forall|q: int| 0 <= q < self@.entries.len() ==> old(self)@.entries.contains(#[trigger] self@.entries[q]),
                forall|q: int| 0 <= q < old(self)@.entries.len() && !ids@.take(i as int).contains((#[trigger] old(self)@.entries[q]).0)
                    ==> self@.entries.contains(old(self)@.entries[q]),
            decreases ids@.len() - i,
        {
            let ghost es0 = self@.entries;
            let ghost fr0 = self@.free;
            proof {
                assert(ids@.take(i + 1).drop_last() =~= ids@.take(i as int));
                assert(ids@.take(i + 1).last() == ids@[i as int]);
            }
            match self.find(&ids[i]) {
                Some(k) => {
                    let (_, info) = self.disk_bookkeeping.remove(k);
                    proof {
                        assert(full_slot(es0[k as int].1));
                    }
                    self.free_disk_buffers.push(info);
                    count += 1;
                    proof {
                        let es = self@.entries;
                        assert(es == es0.remove(k as int));
                        assert forall|a: int, b: int| 0 <= a < es.len() && 0 <= b < es.len() && a != b implies (#[trigger] es[a]).0 != (#[trigger] es[b]).0 by {
                            let oa = if a < k as int { a } else { a + 1 };
                            let ob = if b < k as int { b } else { b + 1 };
                            assert(es[a] == es0[oa] && es[b] == es0[ob]);
                        }
                        assert forall|q: int| 0 <= q < es.len() implies full_slot((#[trigger] es[q]).1) by {
                            let oq = if q < k as int { q } else { q + 1 };
                            assert(es[q] == es0[oq]);
                        }
                        assert(self@.free == fr0.push(info));
                        assert forall|q: int| 0 <= q < self@.free.len() implies full_slot(#[trigger] self@.free[q]) by {
                            if q < fr0.len() {
                                assert(self@.free[q] == fr0[q]);
                            }
                        }
                        assert forall|q: int| 0 <= q < es.len() implies old(self)@.entries.contains(#[trigger] es[q]) by {
                            let oq = if q < k as int { q } else { q + 1 };
                            assert(es[q] == es0[oq]);
                        }
                        assert forall|j: int| 0 <= j <= i implies !stored(es, #[trigger] ids@[j]) by {
                            if stored(es, ids@[j]) {
                                let w = choose|w: int| 0 <= w < es.len() && (#[trigger] es[w]).0 == ids@[j];
                                let ow = if w < k as int { w } else { w + 1 };
                                assert(es[w] == es0[ow]);
                                if j == i as int {
                                    assert(es0[ow].0 != es0[k as int].0);
                                }
                            }
                        }
                        assert forall|q: int| 0 <= q < old(self)@.entries.len() && !ids@.take(i + 1).contains((#[trigger] old(self)@.entries[q]).0)
                            implies es.contains(old(self)@.entries[q]) by {
                            let e = old(self)@.entries[q];
                            assert(ids@.take(i + 1)[i as int] == ids@[i as int]);
                            assert(!ids@.take(i as int).contains(e.0)) by {
                                if ids@.take(i as int).contains(e.0) {
                                    let w = choose|w: int| 0 <= w < ids@.take(i as int).len() && ids@.take(i as int)[w] == e.0;
                                    assert(ids@.take(i + 1)[w] == e.0);
                                }
                            }
                            assert(es0.contains(e));
                            let w = choose|w: int| 0 <= w < es0.len() && es0[w] == e;
                            assert(w != k as int);
                            let nw = if w < k as int { w } else { w - 1 };
                            assert(es[nw] == e);
                        }
                    }
                },
                None => {
                    proof {
                        assert forall|q: int| 0 <= q < old(self)@.entries.len() && !ids@.take(i + 1).contains((#[trigger] old(self)@.entries[q]).0)
                            implies self@.entries.contains(old(self)@.entries[q]) by {
                            let e = old(self)@.entries[q];
                            assert(!ids@.take(i as int).contains(e.0)) by {
                                if ids@.take(i as int).contains(e.0) {
                                    let w = choose|w: int| 0 <= w < ids@.take(i as int).len() && ids@.take(i as int)[w] == e.0;
                                    assert(ids@.take(i + 1)[w] == e.0);
                                }
                            }
                        }
                    }
                },
            }
            i += 1;
        }
        proof { assert(ids@.take(i as int) =~= ids@); }
        count
    }

    /// Forgets every buffer of process `pid`, freeing their slots in
    /// order.
    pub fn release_process_residual(&mut self, pid: i32)
        requires
            old(self).wf(),
        ensures
            final(self).wf(),
            final(self)@.entries == stored_without_pid(old(self)@.entries, pid),
            final(self)@.free == old(self)@.free + slots_of_pid(old(self)@.entries, pid),
            final(self)@.file_size == old(self)@.file_size,
    {
        let ghost es0 = self@.entries;
        let ghost fr0 = self@.free;
        let mut kept: Vec<(BufferId, AllocationInfo)> = Vec::new();
        let n = self.disk_bookkeeping.len();
        let mut i: usize = 0;
        while i < n
            invariant
                n == es0.len(),
                self@.entries == es0,
                entries_ok(es0),
                i <= n,
                kept@ == stored_without_pid(es0.take(i as int), pid),
                self@.free == fr0 + slots_of_pid(es0.take(i as int), pid),
                free_ok(self@.free),
                self@.file_size == old(self)@.file_size,
            decreases n - i,
        {
            proof {
                assert(es0.take(i + 1).drop_last() =~= es0.take(i as int));
                assert(es0.take(i + 1).last() == es0[i as int]);
            }
            let (id, info) = self.disk_bookkeeping[i];
            if id.pid == pid {
                let ghost f = self@.free;
                self.free_disk_buffers.push(info);
                proof {
                    assert(self@.free =~= fr0 + slots_of_pid(es0.take(i + 1), pid));
                    assert forall|q: int| 0 <= q < self@.free.len() implies full_slot(#[trigger] self@.free[q]) by {
                        if q < f.len() { assert(self@.free[q] == f[q]); }
                    }
                }
            } else {
                kept.push((id, info));
            }
            i += 1;
        }
        proof {
            assert(es0.take(n as int) =~= es0);
            lemma_stored_without_pid_ok(es0, pid);
        }
        self.disk_bookkeeping = kept;
    }

    /// Whether buffer `id` is stored.
    pub fn contains(&self, id: &BufferId) -> (r: bool)
        requires
            self.wf(),
        ensures
            r == stored(self@.entries, *id),
    {
        self.find(id).is_some()
    }

    /// Each stored buffer with the room its slot takes.
    pub fn dump_buffers(&self) -> (d: Vec<(BufferId, AllocationCapacity)>)
        ensures
            d@.len() == self@.entries.len(),
            forall|i: int| 0 <= i < d@.len() ==> (#[trigger] d@[i]).0 == self@.entries[i].0
                && d@[i].1.0 == self@.entries[i].1.block_size as u32,
    {
        let mut d: Vec<(BufferId, AllocationCapacity)> = Vec::new();
        let mut i: usize = 0;
        while i < self.disk_bookkeeping.len()
            invariant
                i <= self@.entries.len(),
                d@.len() == i,
                forall|k: int| 0 <= k < i ==> (#[trigger] d@[k]).0 == self@.entries[k].0
                    && d@[k].1.0 == self@.entries[k].1.block_size as u32,
            decreases self@.entries.len() - i,
        {
            let (id, info) = self.disk_bookkeeping[i];
            d.push((id, AllocationCapacity(info.block_size as u32)));
            i += 1;
        }
        d
    }
}

} // verus!
