//! The bookkeeping of the shared-memory region through which buffers move
//! between the devices and the daemon's stores: which blocks each buffer
//! holds, how many blocks each process holds, and which blocks are free.

use vstd::prelude::*;
use crate::types::{
    spec_allocation_count, AllocationCapacity, AllocationCount, BufferId, Offset,
    MAX_ALLOCATION_SIZE, MIN_ALLOCATION_SIZE,
};

verus! {

/// A piece of a buffer in the shared region: where it lies and how many
/// bytes of the buffer it holds.
#[derive(Debug, Clone, Copy, PartialEq, Eq, Structural)]
pub struct ShmBlock {
    pub offset: Offset,
    pub data_size: u32,
}

/// The bookkeeping as plain values: each buffer with its blocks and
/// whether its transfer is still under way, the number of blocks each
/// process holds, the free blocks (the last one is handed out first), and
/// the size of the region.
pub struct ShmState {
    pub entries: Seq<(BufferId, Seq<ShmBlock>, bool)>,
    pub counter: Seq<(i32, usize)>,
    pub avail: Seq<Offset>,
    pub capacity: u64,
}

/// Whether buffer `id` has blocks.
pub open spec fn has_id(es: Seq<(BufferId, Seq<ShmBlock>, bool)>, id: BufferId) -> bool {
    exists|i: int| 0 <= i < es.len() && (#[trigger] es[i]).0 == id
}

/// The position of buffer `id`.
pub open spec fn id_index(es: Seq<(BufferId, Seq<ShmBlock>, bool)>, id: BufferId) -> int {
    choose|i: int| 0 <= i < es.len() && (#[trigger] es[i]).0 == id
}

/// No buffer occurs twice.
pub open spec fn ids_unique(es: Seq<(BufferId, Seq<ShmBlock>, bool)>) -> bool {
    forall|a: int, b: int| 0 <= a < es.len() && 0 <= b < es.len() && a != b ==> (#[trigger] es[a]).0 != (#[trigger] es[b]).0
}

/// Whether process `pid` is counted.
pub open spec fn has_counter(c: Seq<(i32, usize)>, pid: i32) -> bool {
    exists|i: int| 0 <= i < c.len() && (#[trigger] c[i]).0 == pid
}

/// The position of process `pid`'s count.
pub open spec fn counter_index(c: Seq<(i32, usize)>, pid: i32) -> int {
    choose|i: int| 0 <= i < c.len() && (#[trigger] c[i]).0 == pid
}

/// No process is counted twice.
pub open spec fn pids_unique(c: Seq<(i32, usize)>) -> bool {
    forall|a: int, b: int| 0 <= a < c.len() && 0 <= b < c.len() && a != b ==> (#[trigger] c[a]).0 != (#[trigger] c[b]).0
}

/// The number of blocks process `pid` holds (zero if it is not counted).
pub open spec fn counter_of(c: Seq<(i32, usize)>, pid: i32) -> usize {
    if has_counter(c, pid) {
        c[counter_index(c, pid)].1
    } else {
        0
    }
}

/// `a + b`, or the largest `usize` if that is larger.
pub open spec fn sat_add_usize(a: usize, b: usize) -> usize {
    if a + b > usize::MAX {
        usize::MAX
    } else {
        (a + b) as usize
    }
}

/// `a - b`, or zero if that is negative.
pub open spec fn sat_sub_usize(a: usize, b: usize) -> usize {
    if a < b {
        0
    } else {
        (a - b) as usize
    }
}

/// The counts after process `pid` takes `k` more blocks.
pub open spec fn counter_add(c: Seq<(i32, usize)>, pid: i32, k: usize) -> Seq<(i32, usize)> {
    if has_counter(c, pid) {
        c.update(counter_index(c, pid), (pid, sat_add_usize(c[counter_index(c, pid)].1, k)))
    } else {
        c.push((pid, k))
    }
}

/// The counts after process `pid` gives back `k` blocks; a count that
/// reaches zero is dropped.
pub open spec fn counter_sub(c: Seq<(i32, usize)>, pid: i32, k: usize) -> Seq<(i32, usize)> {
    if has_counter(c, pid) {
        let v = sat_sub_usize(c[counter_index(c, pid)].1, k);
        if v == 0 {
            c.remove(counter_index(c, pid))
        } else {
            c.update(counter_index(c, pid), (pid, v))
        }
    } else {
        c
    }
}

/// The bytes of a buffer of `size` bytes held by its block `i`: a whole
/// unit, or what remains for the last block.
pub open spec fn block_size_at(size: u32, i: int) -> u32 {
    if (i + 1) * MIN_ALLOCATION_SIZE > size {
        (size - i * MIN_ALLOCATION_SIZE) as u32
    } else {
        MIN_ALLOCATION_SIZE as u32
    }
}

/// The blocks a buffer of `size` bytes is given from the free blocks
/// `avail`: as many as it has units, taken from the end.
pub open spec fn new_blocks(avail: Seq<Offset>, size: u32) -> Seq<ShmBlock> {
    Seq::new(
        spec_allocation_count(size) as nat,
        |i: int| ShmBlock { offset: avail[avail.len() - 1 - i], data_size: block_size_at(size, i) },
    )
}

/// The buffers after `id` is recorded with `blocks`: replacing its former
/// record, if any.
pub open spec fn put_entry(es: Seq<(BufferId, Seq<ShmBlock>, bool)>, id: BufferId, blocks: Seq<ShmBlock>, incomplete: bool) -> Seq<(BufferId, Seq<ShmBlock>, bool)> {
    if has_id(es, id) {
        es.update(id_index(es, id), (id, blocks, incomplete))
    } else {
        es.push((id, blocks, incomplete))
    }
}

/// The offsets of `blocks`, in order.
pub open spec fn offsets_of(blocks: Seq<ShmBlock>) -> Seq<Offset>
    decreases blocks.len(),
{
    if blocks.len() == 0 {
        Seq::empty()
    } else {
        offsets_of(blocks.drop_last()).push(blocks.last().offset)
    }
}

/// Buffer `id` takes blocks (its transfer under way if `incomplete`), if
/// enough are free.
pub open spec fn spec_reserve(st: ShmState, id: BufferId, incomplete: bool) -> Option<ShmState> {
    let k = spec_allocation_count(id.size);
    if st.avail.len() < k {
        None
    } else {
        Some(ShmState {
            entries: put_entry(st.entries, id, new_blocks(st.avail, id.size), incomplete),
            counter: counter_add(st.counter, id.pid, k as usize),
            avail: st.avail.take(st.avail.len() - k),
            capacity: st.capacity,
        })
    }
}

/// A process that already holds blocks may not take so many that it and
/// room for two largest buffers would fill the region.
pub open spec fn over_share(st: ShmState, id: BufferId) -> bool {
    has_counter(st.counter, id.pid)
        && (counter_of(st.counter, id.pid) + spec_allocation_count(id.size)) * MIN_ALLOCATION_SIZE
            + 2 * MAX_ALLOCATION_SIZE >= st.capacity
}

/// Buffer `id` takes blocks for a transfer under way, unless its process
/// would hold too large a share, or not enough blocks are free.
pub open spec fn spec_try_reserve(st: ShmState, id: BufferId) -> Option<ShmState> {
    if over_share(st, id) {
        None
    } else {
        spec_reserve(st, id, true)
    }
}

/// Buffer `id` gives its blocks back (pushed onto the free blocks in
/// order) and its process's count drops by its number of units; `None`
/// if it holds no blocks.
pub open spec fn spec_release(st: ShmState, id: BufferId) -> Option<ShmState> {
    if !has_id(st.entries, id) {
        None
    } else {
        let e = st.entries[id_index(st.entries, id)];
        Some(ShmState {
            entries: st.entries.remove(id_index(st.entries, id)),
            counter: counter_sub(st.counter, id.pid, spec_allocation_count(id.size) as usize),
            avail: st.avail + offsets_of(e.1),
            capacity: st.capacity,
        })
    }
}

/// Releasing `id` needs its process to be counted when it holds blocks.
pub open spec fn release_ok(st: ShmState, id: BufferId) -> bool {
    has_id(st.entries, id) ==> has_counter(st.counter, id.pid)
}

/// The state after releasing `id` (unchanged if it holds no blocks).
pub open spec fn released(st: ShmState, id: BufferId) -> ShmState {
    match spec_release(st, id) {
        Some(s) => s,
        None => st,
    }
}

/// Releasing the buffers `ids` one after the other never needs a count
/// that is missing.
pub open spec fn batch_release_ok(st: ShmState, ids: Seq<BufferId>) -> bool
    decreases ids.len(),
{
    if ids.len() == 0 {
        true
    } else {
        release_ok(st, ids[0]) && batch_release_ok(released(st, ids[0]), ids.drop_first())
    }
}

/// The state after releasing the buffers `ids` one after the other.
pub open spec fn batch_released(st: ShmState, ids: Seq<BufferId>) -> ShmState
    decreases ids.len(),
{
    if ids.len() == 0 {
        st
    } else {
        batch_released(released(st, ids[0]), ids.drop_first())
    }
}

/// How many of the buffers `ids` held blocks when their turn came.
pub open spec fn batch_release_count(st: ShmState, ids: Seq<BufferId>) -> nat
    decreases ids.len(),
{
    if ids.len() == 0 {
        0
    } else {
        (if has_id(st.entries, ids[0]) { 1nat } else { 0nat }) + batch_release_count(released(st, ids[0]), ids.drop_first())
    }
}

/// The bookkeeping of the shared-memory region.
pub struct ShmBufferManager {
    bookkeeping: Vec<(BufferId, Vec<ShmBlock>, bool)>,
    pid_counter: Vec<(i32, usize)>,
    avail_addrs: Vec<Offset>,
    capacity: u64,
}

/// The buffers with their block lists as plain sequences.
pub open spec fn entries_view(v: Seq<(BufferId, Vec<ShmBlock>, bool)>) -> Seq<(BufferId, Seq<ShmBlock>, bool)> {
    Seq::new(v.len(), |i: int| (v[i].0, v[i].1@, v[i].2))
}

impl View for ShmBufferManager {
    type V = ShmState;

    closed spec fn view(&self) -> ShmState {
        ShmState {
            entries: entries_view(self.bookkeeping@),
            counter: self.pid_counter@,
            avail: self.avail_addrs@,
            capacity: self.capacity,
        }
    }
}

impl ShmBufferManager {
    /// No buffer is recorded twice, no process counted twice, and every
    /// block of the region is in one place only: free, or held by one
    /// buffer once.
    pub closed spec fn wf(&self) -> bool {
        &&& ids_unique(self@.entries)
        &&& pids_unique(self@.counter)
        &&& all_offsets(self@).no_duplicates()
    }

    /// What well-formedness says of the records: no buffer is recorded
    /// twice, no process counted twice, and every block lies in one place.
    pub proof fn lemma_wf_unique(&self)
        requires
            self.wf(),
        ensures
            ids_unique(self@.entries),
            pids_unique(self@.counter),
            all_offsets(self@).no_duplicates(),
    {
    }

    /// The bookkeeping of a fresh region of `shm_size` bytes (a whole
    /// number of largest buffers): every unit is free, the first one
    /// handed out last.
    pub fn new(shm_size: u64) -> (m: Self)
        requires
            shm_size % (MAX_ALLOCATION_SIZE as u64) == 0,
        ensures
            m.wf(),
            m@.entries == Seq::<(BufferId, Seq<ShmBlock>, bool)>::empty(),
            m@.counter == Seq::<(i32, usize)>::empty(),
            m@.capacity == shm_size,
            m@.avail == Seq::new((shm_size / (MIN_ALLOCATION_SIZE as u64)) as nat, |i: int| Offset((i * MIN_ALLOCATION_SIZE) as u64)),
    {
        let unit = MIN_ALLOCATION_SIZE as u64;
        let mut avail: Vec<Offset> = Vec::new();
        let mut offset: u64 = 0;
        let ghost total = shm_size / unit;
        proof {
            assert(shm_size % unit == 0) by (nonlinear_arith)
                requires
                    shm_size % (MAX_ALLOCATION_SIZE as u64) == 0,
                    unit == 2097152,
                    MAX_ALLOCATION_SIZE == 134217728,
            ;
        }
        while offset < shm_size
            invariant
                unit == MIN_ALLOCATION_SIZE,
                shm_size % unit == 0,
                total == shm_size / unit,
                offset % unit == 0,
                offset <= shm_size,
                avail@.len() == offset / unit,
                forall|i: int| 0 <= i < avail@.len() ==> (#[trigger] avail@[i]) == Offset((i * MIN_ALLOCATION_SIZE) as u64),
            decreases shm_size - offset,
        {
            proof {
                assert(offset + unit <= shm_size) by (nonlinear_arith)
                    requires
                        offset % unit == 0,
                        shm_size % unit == 0,
                        offset < shm_size,
                        unit > 0,
                ;
                assert((offset / unit) * MIN_ALLOCATION_SIZE == offset) by (nonlinear_arith)
                    requires
                        offset % unit == 0,
                        unit == MIN_ALLOCATION_SIZE,
                        unit > 0,
                ;
                assert((offset + unit) as int / (unit as int) == offset / unit + 1) by (nonlinear_arith)
                    requires
                        unit > 0,
                ;
                assert((offset + unit) as int % (unit as int) == 0) by (nonlinear_arith)
                    requires
                        offset % unit == 0,
                        unit > 0,
                ;
            }
            avail.push(Offset(offset));
            offset = offset + unit;
        }
        proof {
            assert(offset == shm_size);
            assert(avail@ =~= Seq::new(total as nat, |i: int| Offset((i * MIN_ALLOCATION_SIZE) as u64)));
        }
        let m = ShmBufferManager { bookkeeping: Vec::new(), pid_counter: Vec::new(), avail_addrs: avail, capacity: shm_size };
        proof {
            assert(m@.entries =~= Seq::<(BufferId, Seq<ShmBlock>, bool)>::empty());
        }
        m
    }

    /// The position of buffer `id`, if it has blocks.
    fn find_entry(&self, id: &BufferId) -> (k: Option<usize>)
        requires
            ids_unique(self@.entries),
        ensures
            match k {
                Some(k) => k < self.bookkeeping@.len() && has_id(self@.entries, *id) && id_index(self@.entries, *id) == k,
                None => !has_id(self@.entries, *id),
            },
    {
        let mut k: usize = 0;
        while k < self.bookkeeping.len()
            invariant
                k <= self.bookkeeping@.len(),
                ids_unique(self@.entries),
                forall|q: int| 0 <= q < k ==> (#[trigger] self.bookkeeping@[q]).0 != *id,
            decreases self.bookkeeping@.len() - k,
        {
            if self.bookkeeping[k].0 == *id {
                proof {
                    let es = self@.entries;
                    assert(es[k as int].0 == *id);
                    let w = id_index(es, *id);
                    if w != k as int {
                        assert(es[w].0 != es[k as int].0);
                    }
                }
                return Some(k);
            }
            k += 1;
        }
        proof {
            assert forall|q: int| 0 <= q < self@.entries.len() implies (#[trigger] self@.entries[q]).0 != *id by {
                assert(self@.entries[q].0 == self.bookkeeping@[q].0);
            }
        }
        None
    }

    /// The position of process `pid`'s count, if it is counted.
    fn find_counter(&self, pid: i32) -> (k: Option<usize>)
        requires
            pids_unique(self@.counter),
        ensures
            match k {
                Some(k) => k < self.pid_counter@.len() && has_counter(self@.counter, pid) && counter_index(self@.counter, pid) == k,
                None => !has_counter(self@.counter, pid),
            },
    {
        let mut k: usize = 0;
        while k < self.pid_counter.len()
            invariant
                k <= self.pid_counter@.len(),
                pids_unique(self@.counter),
                forall|q: int| 0 <= q < k ==> (#[trigger] self.pid_counter@[q]).0 != pid,
            decreases self.pid_counter@.len() - k,
        {
            if self.pid_counter[k].0 == pid {
                proof {
                    let c = self@.counter;
                    let w = counter_index(c, pid);
                    if w != k as int {
                        assert(c[w].0 != c[k as int].0);
                    }
                }
                return Some(k);
            }
            k += 1;
        }
        None
    }

    /// The blocks of buffer `id`, if it has any.
    pub fn get_buffer(&self, id: &BufferId) -> (b: Option<Vec<ShmBlock>>)
        requires
            self.wf(),
        ensures
            match b {
                Some(b) => has_id(self@.entries, *id) && b@ == self@.entries[id_index(self@.entries, *id)].1,
                None => !has_id(self@.entries, *id),
            },
    {
        match self.find_entry(id) {
            Some(k) => {
                let blocks = copy_blocks(&self.bookkeeping[k].1);
                Some(blocks)
            },
            None => None,
        }
    }

    /// The number of free blocks (as a `u32`, truncated).
    pub fn free_blocks_count(&self) -> (c: AllocationCount)
        ensures
            c.0 == self@.avail.len() as u32,
    {
        AllocationCount(self.avail_addrs.len() as u32)
    }

    /// Each buffer with the room its blocks take (as a `u32`, truncated).
    pub fn dump_buffers(&self) -> (d: Vec<(BufferId, AllocationCapacity)>)
        requires
            forall|i: int| 0 <= i < self@.entries.len() ==> (#[trigger] self@.entries[i]).1.len() * MIN_ALLOCATION_SIZE <= usize::MAX,
        ensures
            d@.len() == self@.entries.len(),
            forall|i: int| 0 <= i < d@.len() ==> (#[trigger] d@[i]).0 == self@.entries[i].0
                && d@[i].1.0 == (self@.entries[i].1.len() * MIN_ALLOCATION_SIZE) as u32,
    {
        let mut d: Vec<(BufferId, AllocationCapacity)> = Vec::new();
        let mut i: usize = 0;
        while i < self.bookkeeping.len()
            invariant
                i <= self.bookkeeping@.len(),
                d@.len() == i,
                forall|k: int| 0 <= k < self@.entries.len() ==> (#[trigger] self@.entries[k]).1.len() * MIN_ALLOCATION_SIZE <= usize::MAX,
                forall|k: int| 0 <= k < i ==> (#[trigger] d@[k]).0 == self@.entries[k].0
                    && d@[k].1.0 == (self@.entries[k].1.len() * MIN_ALLOCATION_SIZE) as u32,
            decreases self.bookkeeping@.len() - i,
        {
            proof {
                assert(self@.entries[i as int].1.len() == self.bookkeeping@[i as int].1@.len());
            }
            let n = self.bookkeeping[i].1.len();
            let bytes = n * MIN_ALLOCATION_SIZE;
            d.push((self.bookkeeping[i].0, AllocationCapacity(bytes as u32)));
            i += 1;
        }
        d
    }

    /// The size of the region in bytes.
    pub fn capacity(&self) -> (c: u64)
        ensures
            c == self@.capacity,
    {
        self.capacity
    }

    /// Whether no block is free.
    pub fn is_full(&self) -> (r: bool)
        ensures
            r == (self@.avail.len() == 0),
    {
        self.avail_addrs.len() == 0
    }
}

impl ShmBufferManager {
    /// Records buffer `id` with the blocks it takes, if enough are free
    /// (see `spec_reserve`); returns its blocks.
    fn reserve_inner(&mut self, id: &BufferId, incomplete: bool) -> (b: Option<Vec<ShmBlock>>)
        requires
            old(self).wf(),
        ensures
            final(self).wf(),
            match spec_reserve(old(self)@, *id, incomplete) {
                None => b is None && final(self)@ == old(self)@,
                Some(st) => b is Some && b->0@ == new_blocks(old(self)@.avail, id.size) && final(self)@ == st,
            },
    {
        let required = id.get_allocation_count().0 as usize;
        if self.avail_addrs.len() < required {
            return None;
        }
        let ghost avail0 = self.avail_addrs@;
        let ghost n = avail0.len();
        let ghost want = new_blocks(avail0, id.size);
        let size = id.size;
        let mut blocks: Vec<ShmBlock> = Vec::new();
        let mut i: usize = 0;
        proof {
            lemma_units_cover(size);
        }
        while i < required
            invariant
                required == spec_allocation_count(size),
                required <= 2048,
                required <= n,
                n == avail0.len(),
                want == new_blocks(avail0, size),
                i <= required,
                self.avail_addrs@ == avail0.take(n - i),
                blocks@ == want.take(i as int),
                required == 0 || (required - 1) * MIN_ALLOCATION_SIZE < size,
                self.bookkeeping == old(self).bookkeeping,
                self.pid_counter == old(self).pid_counter,
                self.capacity == old(self).capacity,
            decreases required - i,
        {
            let offset = self.avail_addrs.pop().unwrap();
            proof {
                assert(offset == avail0[n - 1 - i]);
                assert(i * MIN_ALLOCATION_SIZE <= (required - 1) * MIN_ALLOCATION_SIZE) by (nonlinear_arith)
                    requires
                        i <= required - 1,
                ;
            }
            let start = (i as u64) * (MIN_ALLOCATION_SIZE as u64);
            let data_size = if start + (MIN_ALLOCATION_SIZE as u64) > (size as u64) {
                ((size as u64) - start) as u32
            } else {
                MIN_ALLOCATION_SIZE as u32
            };
            proof {
                assert(start == i * MIN_ALLOCATION_SIZE);
                assert(i * MIN_ALLOCATION_SIZE < size);
                assert((i + 1) * MIN_ALLOCATION_SIZE == i * MIN_ALLOCATION_SIZE + MIN_ALLOCATION_SIZE) by (nonlinear_arith);
                assert(data_size == block_size_at(size, i as int));
            }
            blocks.push(ShmBlock { offset, data_size });
            proof {
                assert(want[i as int] == ShmBlock { offset, data_size });
                assert(blocks@ =~= want.take(i + 1));
                assert(self.avail_addrs@ =~= avail0.take(n - (i + 1)));
            }
            i += 1;
        }
        proof {
            assert(blocks@ =~= want);
        }
        let ghost es0 = self@.entries;
        let ghost c0 = self@.counter;
        let ghost bv = blocks@;
        let ret = copy_blocks(&blocks);
        match self.find_entry(id) {
            Some(k) => {
                self.bookkeeping.set(k, (*id, blocks, incomplete));
                proof {
                    assert(self@.entries =~= es0.update(k as int, (*id, bv, incomplete)));
                }
            },
            None => {
                self.bookkeeping.push((*id, blocks, incomplete));
                proof {
                    assert(self@.entries =~= es0.push((*id, bv, incomplete)));
                }
            },
        }
        proof {
            let es = self@.entries;
            assert forall|a: int, b: int| 0 <= a < es.len() && 0 <= b < es.len() && a != b implies (#[trigger] es[a]).0 != (#[trigger] es[b]).0 by {
                if a < es0.len() && b < es0.len() {
                    if a != id_index(es0, *id) && b != id_index(es0, *id) || !has_id(es0, *id) {
                        assert(es[a] == es0[a] || es[a].0 == *id);
                    }
                }
                if has_id(es0, *id) {
                    let k = id_index(es0, *id);
                    if a != k { assert(es[a] == es0[a]); assert(es0[a].0 != es0[k].0); }
                    if b != k { assert(es[b] == es0[b]); assert(es0[b].0 != es0[k].0); }
                } else {
                    if a < es0.len() { assert(es[a] == es0[a]); assert(es0[a].0 != *id); }
                    if b < es0.len() { assert(es[b] == es0[b]); assert(es0[b].0 != *id); }
                }
            }
        }
        match self.find_counter(id.pid) {
            Some(k) => {
                let c = self.pid_counter[k].1;
                self.pid_counter.set(k, (id.pid, c.saturating_add(required)));
                proof {
                    assert(self@.counter =~= counter_add(c0, id.pid, required));
                    let cs = self@.counter;
                    assert forall|a: int, b: int| 0 <= a < cs.len() && 0 <= b < cs.len() && a != b implies (#[trigger] cs[a]).0 != (#[trigger] cs[b]).0 by {
                        if a != k as int { assert(cs[a] == c0[a]); assert(c0[a].0 != c0[k as int].0); }
                        if b != k as int { assert(cs[b] == c0[b]); assert(c0[b].0 != c0[k as int].0); }
                    }
                }
            },
            None => {
                self.pid_counter.push((id.pid, required));
                proof {
                    assert(self@.counter =~= counter_add(c0, id.pid, required));
                    let cs = self@.counter;
                    assert forall|a: int, b: int| 0 <= a < cs.len() && 0 <= b < cs.len() && a != b implies (#[trigger] cs[a]).0 != (#[trigger] cs[b]).0 by {
                        if a < c0.len() { assert(cs[a] == c0[a]); assert(c0[a].0 != id.pid); }
                        if b < c0.len() { assert(cs[b] == c0[b]); assert(c0[b].0 != id.pid); }
                    }
                }
            },
        }
        proof {
            lemma_reserve_exclusive(old(self)@, *id, incomplete);
        }
        Some(ret)
    }
}

impl ShmBufferManager {
    /// Reserves blocks for buffer `id` whose transfer is under way (see
    /// `spec_try_reserve`): none when its process would hold too large a
    /// share of the region, or when too few blocks are free. Returns its
    /// blocks.
    pub fn try_reserve(&mut self, id: &BufferId) -> (b: Option<Vec<ShmBlock>>)
        requires
            old(self).wf(),
        ensures
            final(self).wf(),
            match spec_try_reserve(old(self)@, *id) {
                None => b is None && final(self)@ == old(self)@,
                Some(st) => b is Some && b->0@ == new_blocks(old(self)@.avail, id.size) && final(self)@ == st,
            },
    {
        match self.find_counter(id.pid) {
            Some(k) => {
                let count = self.pid_counter[k].1 as u128;
                let units = id.get_allocation_count().0 as u128;
                proof {
                    assert((count + units) * 2097152 + 268435456 <= u128::MAX) by (nonlinear_arith)
                        requires
                            count <= 0xffff_ffff_ffff_ffff,
                            units <= 0xffff_ffff,
                    ;
                }
                let wanted = (count + units) * (MIN_ALLOCATION_SIZE as u128) + 2 * (MAX_ALLOCATION_SIZE as u128);
                if wanted >= self.capacity as u128 {
                    proof {
                        assert(over_share(old(self)@, *id));
                    }
                    return None;
                }
            },
            None => {},
        }
        self.reserve_inner(id, true)
    }

    /// Reserves blocks for buffer `id` (see `spec_reserve`), its transfer
    /// under way if `incomplete`; returns its blocks.
    pub fn reserve(&mut self, id: &BufferId, incomplete: bool) -> (b: Option<Vec<ShmBlock>>)
        requires
            old(self).wf(),
        ensures
            final(self).wf(),
            match spec_reserve(old(self)@, *id, incomplete) {
                None => b is None && final(self)@ == old(self)@,
                Some(st) => b is Some && b->0@ == new_blocks(old(self)@.avail, id.size) && final(self)@ == st,
            },
    {
        self.reserve_inner(id, incomplete)
    }

    /// Whether `release` may be called for `id`: a buffer that holds blocks
    /// must belong to a counted process (see `release_ok`).
    pub fn can_release(&self, id: &BufferId) -> (r: bool)
        requires
            self.wf(),
        ensures
            r == release_ok(self@, *id),
    {
        match self.find_entry(id) {
            Some(_) => self.find_counter(id.pid).is_some(),
            None => true,
        }
    }

    /// Releases buffer `id` (see `spec_release`); returns the number of
    /// blocks given back, or `Err` if it held none.
    pub fn release(&mut self, id: &BufferId) -> (r: Result<usize, ()>)
        requires
            old(self).wf(),
            release_ok(old(self)@, *id),
        ensures
            final(self).wf(),
            match spec_release(old(self)@, *id) {
                None => r is Err && final(self)@ == old(self)@,
                Some(st) => r == Ok::<usize, ()>(old(self)@.entries[id_index(old(self)@.entries, *id)].1.len() as usize)
                    && final(self)@ == st,
            },
            r is Ok ==> !has_id(final(self)@.entries, *id),
            r is Err ==> !has_id(old(self)@.entries, *id),
    {
        proof {
            if spec_release(old(self)@, *id) is Some {
                lemma_release_then_lookup(old(self)@, *id);
            }
        }
        let k = match self.find_entry(id) {
            Some(k) => k,
            None => {
                return Err(());
            },
        };
        let ghost es0 = self@.entries;
        let ghost c0 = self@.counter;
        let ghost av0 = self@.avail;
        let (_, blocks, _) = self.bookkeeping.remove(k);
        proof {
            assert(self@.entries =~= es0.remove(k as int));
            let es = self@.entries;
            assert forall|a: int, b: int| 0 <= a < es.len() && 0 <= b < es.len() && a != b implies (#[trigger] es[a]).0 != (#[trigger] es[b]).0 by {
                let oa = if a < k as int { a } else { a + 1 };
                let ob = if b < k as int { b } else { b + 1 };
                assert(es[a] == es0[oa] && es[b] == es0[ob]);
            }
        }
        let units = id.get_allocation_count().0 as usize;
        let j = match self.find_counter(id.pid) {
            Some(j) => j,
            None => {
                proof { assert(false); }
                return Err(());
            },
        };
        let v = self.pid_counter[j].1.saturating_sub(units);
        if v == 0 {
            self.pid_counter.remove(j);
            proof {
                assert(self@.counter =~= counter_sub(c0, id.pid, units));
                let cs = self@.counter;
                assert forall|a: int, b: int| 0 <= a < cs.len() && 0 <= b < cs.len() && a != b implies (#[trigger] cs[a]).0 != (#[trigger] cs[b]).0 by {
                    let oa = if a < j as int { a } else { a + 1 };
                    let ob = if b < j as int { b } else { b + 1 };
                    assert(cs[a] == c0[oa] && cs[b] == c0[ob]);
                }
            }
        } else {
            self.pid_counter.set(j, (id.pid, v));
            proof {
                assert(self@.counter =~= counter_sub(c0, id.pid, units));
                let cs = self@.counter;
                assert forall|a: int, b: int| 0 <= a < cs.len() && 0 <= b < cs.len() && a != b implies (#[trigger] cs[a]).0 != (#[trigger] cs[b]).0 by {
                    if a != j as int { assert(cs[a] == c0[a]); assert(c0[a].0 != c0[j as int].0); }
                    if b != j as int { assert(cs[b] == c0[b]); assert(c0[b].0 != c0[j as int].0); }
                }
            }
        }
        let ghost bk1 = self.bookkeeping@;
        let ghost pc1 = self.pid_counter@;
        let mut i: usize = 0;
        while i < blocks.len()
            invariant
                i <= blocks@.len(),
                self.avail_addrs@ == av0 + offsets_of(blocks@.take(i as int)),
                self.bookkeeping@ == bk1,
                self.pid_counter@ == pc1,
                self.capacity == old(self).capacity,
                ids_unique(entries_view(bk1)),
                pids_unique(pc1),
            decreases blocks@.len() - i,
        {
            self.avail_addrs.push(blocks[i].offset);
            i += 1;
            proof {
                assert(blocks@.take(i as int).drop_last() =~= blocks@.take(i - 1));
                assert(self.avail_addrs@ =~= av0 + offsets_of(blocks@.take(i as int)));
            }
        }
        proof {
            assert(blocks@.take(i as int) =~= blocks@);
            assert(blocks@ == es0[k as int].1);
            assert(self@ == spec_release(old(self)@, *id)->0);
            lemma_release_exclusive(old(self)@, *id);
        }
        Ok(blocks.len())
    }

    /// Releases the buffers `ids` one after the other; returns how many
    /// held blocks.
    pub fn batch_release(&mut self, ids: &Vec<BufferId>) -> (count: usize)
        requires
            old(self).wf(),
            batch_release_ok(old(self)@, ids@),
        ensures
            final(self).wf(),
            final(self)@ == batch_released(old(self)@, ids@),
            count == batch_release_count(old(self)@, ids@),
    {
        let mut count: usize = 0;
        let mut i: usize = 0;
        proof { assert(ids@.skip(0) =~= ids@); }
        while i < ids.len()
            invariant
                i <= ids@.len(),
                self.wf(),
                batch_release_ok(self@, ids@.skip(i as int)),
                batch_released(old(self)@, ids@) == batch_released(self@, ids@.skip(i as int)),
                count + batch_release_count(self@, ids@.skip(i as int)) == batch_release_count(old(self)@, ids@),
                count <= i,
            decreases ids@.len() - i,
        {
            let ghost rest = ids@.skip(i as int);
            proof {
                assert(rest[0] == ids@[i as int]);
                assert(rest.drop_first() =~= ids@.skip(i + 1));
            }
            match self.release(&ids[i]) {
                Ok(_) => {
                    count += 1;
                },
                Err(_) => {},
            }
            i += 1;
        }
        proof { assert(ids@.skip(i as int) =~= Seq::<BufferId>::empty()); }
        count
    }

    /// Marks the transfer of buffer `id` as finished, if it holds blocks.
    pub fn mark_complete(&mut self, id: &BufferId)
        requires
            old(self).wf(),
        ensures
            final(self).wf(),
            final(self)@ == (if has_id(old(self)@.entries, *id) {
                ShmState {
                    entries: old(self)@.entries.update(
                        id_index(old(self)@.entries, *id),
                        (*id, old(self)@.entries[id_index(old(self)@.entries, *id)].1, false),
                    ),
                    ..old(self)@
                }
            } else {
                old(self)@
            }),
    {
        match self.find_entry(id) {
            Some(k) => {
                let ghost es0 = self@.entries;
                let (bid, blocks, _) = self.bookkeeping.remove(k);
                self.bookkeeping.insert(k, (bid, blocks, false));
                proof {
                    assert(self@.entries =~= es0.update(k as int, (*id, es0[k as int].1, false)));
                    lemma_relabel_exclusive(old(self)@, k as int, (*id, es0[k as int].1, false));
                    assert(self@ == ShmState { entries: es0.update(k as int, (*id, es0[k as int].1, false)), ..old(self)@ });
                    let es = self@.entries;
                    assert forall|a: int, b: int| 0 <= a < es.len() && 0 <= b < es.len() && a != b implies (#[trigger] es[a]).0 != (#[trigger] es[b]).0 by {
                        assert(es[a].0 == es0[a].0 && es[b].0 == es0[b].0);
                    }
                }
            },
            None => {},
        }
    }

    /// The first buffer (in record order) not of a process in `excluding`,
    /// with its blocks.
    pub fn find_releasable(&self, excluding: &Vec<i32>) -> (r: Option<(BufferId, Vec<ShmBlock>)>)
        ensures
            match r {
                Some((id, blocks)) => exists|k: int| 0 <= k < self@.entries.len()
                    && (#[trigger] self@.entries[k]).0 == id
                    && self@.entries[k].1 == blocks@
                    && !excluding@.contains(id.pid)
                    && forall|q: int| 0 <= q < k ==> excluding@.contains((#[trigger] self@.entries[q]).0.pid),
                None => forall|q: int| 0 <= q < self@.entries.len() ==> excluding@.contains((#[trigger] self@.entries[q]).0.pid),
            },
    {
        let mut k: usize = 0;
        while k < self.bookkeeping.len()
            invariant
                k <= self.bookkeeping@.len(),
                forall|q: int| 0 <= q < k ==> excluding@.contains((#[trigger] self@.entries[q]).0.pid),
            decreases self.bookkeeping@.len() - k,
        {
            let pid = self.bookkeeping[k].0.pid;
            let mut j: usize = 0;
            let mut excluded = false;
            while j < excluding.len()
                invariant
                    j <= excluding@.len(),
                    excluded == excluding@.take(j as int).contains(pid),
                decreases excluding@.len() - j,
            {
                proof {
                    assert(excluding@.take(j + 1) =~= excluding@.take(j as int).push(excluding@[j as int]));
                }
                if excluding[j] == pid {
                    excluded = true;
                }
                j += 1;
                proof {
                    if excluding@.take(j as int).contains(pid) && !(excluding@[j - 1] == pid) {
                        let w = choose|w: int| 0 <= w < excluding@.take(j as int).len() && excluding@.take(j as int)[w] == pid;
                        assert(excluding@.take(j - 1)[w] == pid);
                    }
                    if excluding@[j - 1] == pid {
                        assert(excluding@.take(j as int)[j - 1] == pid);
                    }
                }
            }
            proof {
                assert(excluding@.take(j as int) =~= excluding@);
                assert(self@.entries[k as int].0.pid == pid);
            }
            if !excluded {
                let blocks = copy_blocks(&self.bookkeeping[k].1);
                proof {
                    assert(self@.entries[k as int].1 == blocks@);
                }
                return Some((self.bookkeeping[k].0, blocks));
            }
            k += 1;
        }
        None
    }
}

/// The buffers of `es` not of process `pid`, in order.
pub open spec fn entries_without_pid(es: Seq<(BufferId, Seq<ShmBlock>, bool)>, pid: i32) -> Seq<(BufferId, Seq<ShmBlock>, bool)>
    decreases es.len(),
{
    if es.len() == 0 {
        Seq::empty()
    } else if es.last().0.pid == pid {
        entries_without_pid(es.drop_last(), pid)
    } else {
        entries_without_pid(es.drop_last(), pid).push(es.last())
    }
}

/// The offsets of the blocks of process `pid`'s buffers in `es`, in order.
pub open spec fn offsets_of_pid(es: Seq<(BufferId, Seq<ShmBlock>, bool)>, pid: i32) -> Seq<Offset>
    decreases es.len(),
{
    if es.len() == 0 {
        Seq::empty()
    } else if es.last().0.pid == pid {
        offsets_of_pid(es.drop_last(), pid) + offsets_of(es.last().1)
    } else {
        offsets_of_pid(es.drop_last(), pid)
    }
}

/// The counts without process `pid`.
pub open spec fn counter_without(c: Seq<(i32, usize)>, pid: i32) -> Seq<(i32, usize)> {
    if has_counter(c, pid) {
        c.remove(counter_index(c, pid))
    } else {
        c
    }
}

/// The state after all buffers of process `pid` give their blocks back.
pub open spec fn spec_release_process(st: ShmState, pid: i32) -> ShmState {
    ShmState {
        entries: entries_without_pid(st.entries, pid),
        counter: counter_without(st.counter, pid),
        avail: st.avail + offsets_of_pid(st.entries, pid),
        capacity: st.capacity,
    }
}

impl ShmBufferManager {
    /// Every buffer of process `pid` gives its blocks back and the process
    /// is no longer counted (see `spec_release_process`); returns the
    /// number of blocks given back.
    pub fn release_process_residual(&mut self, pid: i32) -> (freed: usize)
        requires
            old(self).wf(),
        ensures
            final(self).wf(),
            final(self)@ == spec_release_process(old(self)@, pid),
            freed == offsets_of_pid(old(self)@.entries, pid).len(),
    {
        let ghost es0 = self@.entries;
        let ghost av0 = self@.avail;
        let ghost c0 = self@.counter;
        let mut kept: Vec<(BufferId, Vec<ShmBlock>, bool)> = Vec::new();
        let mut freed: usize = 0;
        let n = self.bookkeeping.len();
        let mut i: usize = 0;
        while i < n
            invariant
                n == self.bookkeeping@.len(),
                es0 == entries_view(self.bookkeeping@),
                i <= n,
                entries_view(kept@) == entries_without_pid(es0.take(i as int), pid),
                self.avail_addrs@ == av0 + offsets_of_pid(es0.take(i as int), pid),
                freed == offsets_of_pid(es0.take(i as int), pid).len(),
                freed <= self.avail_addrs@.len(),
                self.pid_counter@ == c0,
                self.capacity == old(self).capacity,
            decreases n - i,
        {
            proof {
                assert(es0.take(i + 1).drop_last() =~= es0.take(i as int));
                assert(es0.take(i + 1).last() == es0[i as int]);
                assert(es0[i as int] == (self.bookkeeping@[i as int].0, self.bookkeeping@[i as int].1@, self.bookkeeping@[i as int].2));
            }
            if self.bookkeeping[i].0.pid == pid {
                let blocks = &self.bookkeeping[i].1;
                let ghost base = self.avail_addrs@;
                let ghost bk = self.bookkeeping@;
                let mut j: usize = 0;
                while j < blocks.len()
                    invariant
                        j <= blocks@.len(),
                        self.bookkeeping@ == bk,
                        n == bk.len(),
                        i < n,
                        es0 == entries_view(bk),
                        self.pid_counter@ == c0,
                        self.capacity == old(self).capacity,
                        self.avail_addrs@ == base + offsets_of(blocks@.take(j as int)),
                        blocks@ == es0[i as int].1,
                        freed + j <= self.avail_addrs@.len(),
                        freed == offsets_of_pid(es0.take(i as int), pid).len(),
                        base == av0 + offsets_of_pid(es0.take(i as int), pid),
                    decreases blocks@.len() - j,
                {
                    self.avail_addrs.push(blocks[j].offset);
                    j += 1;
                    proof {
                        assert(blocks@.take(j as int).drop_last() =~= blocks@.take(j - 1));
                        assert(self.avail_addrs@ =~= base + offsets_of(blocks@.take(j as int)));
                    }
                }
                proof {
                    assert(blocks@.take(j as int) =~= blocks@);
                    lemma_offsets_len(blocks@);
                    assert(self.avail_addrs@ =~= av0 + offsets_of_pid(es0.take(i + 1), pid));
                }
                let now_len = self.avail_addrs.len();
                proof { assert(freed + j <= now_len); }
                freed = freed + j;
            } else {
                let ghost before = kept@;
                kept.push((self.bookkeeping[i].0, copy_blocks(&self.bookkeeping[i].1), self.bookkeeping[i].2));
                proof {
                    assert(entries_view(kept@) =~= entries_view(before).push(es0[i as int]));
                }
            }
            i += 1;
        }
        proof {
            assert(es0.take(n as int) =~= es0);
        }
        self.bookkeeping = kept;
        match self.find_counter_in(pid) {
            Some(k) => {
                self.pid_counter.remove(k);
                proof { assert(self@.counter =~= counter_without(c0, pid)); }
            },
            None => {},
        }
        proof {
            lemma_without_pid_unique(es0, pid);
            lemma_release_process_exclusive(old(self)@, pid);
            let cs = self@.counter;
            assert forall|a: int, b: int| 0 <= a < cs.len() && 0 <= b < cs.len() && a != b implies (#[trigger] cs[a]).0 != (#[trigger] cs[b]).0 by {
                if has_counter(c0, pid) {
                    let k = counter_index(c0, pid);
                    let oa = if a < k { a } else { a + 1 };
                    let ob = if b < k { b } else { b + 1 };
                    assert(cs[a] == c0[oa] && cs[b] == c0[ob]);
                }
            }
        }
        freed
    }

    /// The position of process `pid`'s count, given unique counts.
    fn find_counter_in(&self, pid: i32) -> (k: Option<usize>)
        requires
            pids_unique(self@.counter),
        ensures
            match k {
                Some(k) => k < self.pid_counter@.len() && has_counter(self@.counter, pid) && counter_index(self@.counter, pid) == k,
                None => !has_counter(self@.counter, pid),
            },
    {
        let mut k: usize = 0;
        while k < self.pid_counter.len()
            invariant
                k <= self.pid_counter@.len(),
                pids_unique(self@.counter),
                forall|q: int| 0 <= q < k ==> (#[trigger] self.pid_counter@[q]).0 != pid,
            decreases self.pid_counter@.len() - k,
        {
            if self.pid_counter[k].0 == pid {
                proof {
                    let c = self@.counter;
                    let w = counter_index(c, pid);
                    if w != k as int {
                        assert(c[w].0 != c[k as int].0);
                    }
                }
                return Some(k);
            }
            k += 1;
        }
        None
    }
}

proof fn lemma_offsets_len(blocks: Seq<ShmBlock>)
    ensures
        offsets_of(blocks).len() == blocks.len(),
    decreases blocks.len(),
{
    if blocks.len() > 0 {
        lemma_offsets_len(blocks.drop_last());
    }
}

proof fn lemma_without_pid_unique(es: Seq<(BufferId, Seq<ShmBlock>, bool)>, pid: i32)
    requires
        ids_unique(es),
    ensures
        ids_unique(entries_without_pid(es, pid)),
        forall|q: int| 0 <= q < entries_without_pid(es, pid).len() ==> #[trigger] es.contains(entries_without_pid(es, pid)[q]),
    decreases es.len(),
{
    if es.len() > 0 {
        let d = es.drop_last();
        assert forall|a: int, b: int| 0 <= a < d.len() && 0 <= b < d.len() && a != b implies (#[trigger] d[a]).0 != (#[trigger] d[b]).0 by {
            assert(d[a] == es[a] && d[b] == es[b]);
        }
        lemma_without_pid_unique(d, pid);
        let w = entries_without_pid(d, pid);
        let r = entries_without_pid(es, pid);
        assert forall|q: int| 0 <= q < r.len() implies #[trigger] es.contains(r[q]) by {
            if q < w.len() {
                assert(d.contains(w[q]));
                let j = choose|j: int| 0 <= j < d.len() && d[j] == w[q];
                assert(es[j] == d[j]);
            } else {
                assert(r[q] == es.last());
                assert(es[es.len() - 1] == es.last());
            }
        }
        if es.last().0.pid != pid {
            assert forall|a: int, b: int| 0 <= a < r.len() && 0 <= b < r.len() && a != b implies (#[trigger] r[a]).0 != (#[trigger] r[b]).0 by {
                if a < w.len() && b < w.len() {
                } else if a < w.len() {
                    assert(d.contains(w[a]));
                    let j = choose|j: int| 0 <= j < d.len() && d[j] == w[a];
                    assert(es[j] == d[j]);
                    assert(es[j].0 != es[es.len() - 1].0);
                } else if b < w.len() {
                    assert(d.contains(w[b]));
                    let j = choose|j: int| 0 <= j < d.len() && d[j] == w[b];
                    assert(es[j] == d[j]);
                    assert(es[j].0 != es[es.len() - 1].0);
                }
            }
        }
    }
}

proof fn lemma_offsets_index(blocks: Seq<ShmBlock>)
    ensures
        offsets_of(blocks).len() == blocks.len(),
        forall|i: int| 0 <= i < blocks.len() ==> (#[trigger] offsets_of(blocks)[i]) == blocks[i].offset,
    decreases blocks.len(),
{
    if blocks.len() > 0 {
        lemma_offsets_index(blocks.drop_last());
        assert forall|i: int| 0 <= i < blocks.len() implies (#[trigger] offsets_of(blocks)[i]) == blocks[i].offset by {
            if i < blocks.len() - 1 {
                assert(offsets_of(blocks.drop_last())[i] == blocks.drop_last()[i].offset);
            }
        }
    }
}

/// The offsets of the blocks of every buffer of `es`, buffer after buffer.
pub open spec fn held_offsets(es: Seq<(BufferId, Seq<ShmBlock>, bool)>) -> Seq<Offset>
    decreases es.len(),
{
    if es.len() == 0 {
        Seq::empty()
    } else {
        held_offsets(es.drop_last()) + offsets_of(es.last().1)
    }
}

/// Every block of the region: the free ones, then those the buffers hold.
pub open spec fn all_offsets(st: ShmState) -> Seq<Offset> {
    st.avail + held_offsets(st.entries)
}

/// Each multiset count of `a` is at most that of `b`.
pub open spec fn counts_within(a: Seq<Offset>, b: Seq<Offset>) -> bool {
    forall|x: Offset| #[trigger] a.to_multiset().count(x) <= b.to_multiset().count(x)
}

proof fn lemma_nodup_within(a: Seq<Offset>, b: Seq<Offset>)
    requires
        b.no_duplicates(),
        counts_within(a, b),
    ensures
        a.no_duplicates(),
{
    broadcast use vstd::multiset::group_multiset_axioms;
    b.lemma_multiset_has_no_duplicates();
    assert forall|x: Offset| a.to_multiset().contains(x) implies a.to_multiset().count(x) == 1 by {
        assert(a.to_multiset().count(x) <= b.to_multiset().count(x));
        if b.to_multiset().count(x) == 0 {
        } else {
            assert(b.to_multiset().contains(x));
        }
    }
    a.lemma_multiset_has_no_duplicates_conv();
}

/// Held offsets with buffer `w` taken out, plus that buffer's offsets, are
/// the held offsets.
proof fn lemma_held_remove(es: Seq<(BufferId, Seq<ShmBlock>, bool)>, w: int)
    requires
        0 <= w < es.len(),
    ensures
        held_offsets(es).to_multiset() =~= held_offsets(es.remove(w)).to_multiset().add(offsets_of(es[w].1).to_multiset()),
    decreases es.len(),
{
    broadcast use vstd::multiset::group_multiset_axioms;
    broadcast use vstd::seq_lib::lemma_multiset_commutative;
    let d = es.drop_last();
    if w == es.len() - 1 {
        assert(es.remove(w) =~= d);
        assert(held_offsets(es) == held_offsets(d) + offsets_of(es.last().1));
    } else {
        lemma_held_remove(d, w);
        assert(es.remove(w).drop_last() =~= d.remove(w));
        assert(es.remove(w).last() == es.last());
        assert(d[w] == es[w]);
        assert(held_offsets(es.remove(w)) == held_offsets(d.remove(w)) + offsets_of(es.last().1));
        assert(held_offsets(es) == held_offsets(d) + offsets_of(es.last().1));
    }
}

proof fn lemma_held_without_pid(es: Seq<(BufferId, Seq<ShmBlock>, bool)>, pid: i32)
    ensures
        held_offsets(es).to_multiset() =~= held_offsets(entries_without_pid(es, pid)).to_multiset().add(offsets_of_pid(es, pid).to_multiset()),
    decreases es.len(),
{
    broadcast use vstd::multiset::group_multiset_axioms;
    broadcast use vstd::seq_lib::group_to_multiset_ensures;
    broadcast use vstd::seq_lib::lemma_multiset_commutative;
    if es.len() > 0 {
        let d = es.drop_last();
        lemma_held_without_pid(d, pid);
        let w = entries_without_pid(d, pid);
        let o = offsets_of(es.last().1);
        assert(held_offsets(es) == held_offsets(d) + o);
        assert(held_offsets(es).to_multiset() =~= held_offsets(d).to_multiset().add(o.to_multiset()));
        if es.last().0.pid != pid {
            assert(w.push(es.last()).drop_last() =~= w);
            assert(held_offsets(w.push(es.last())) == held_offsets(w) + o);
            assert(entries_without_pid(es, pid) == w.push(es.last()));
            assert(offsets_of_pid(es, pid) == offsets_of_pid(d, pid));
            assert(held_offsets(w.push(es.last())).to_multiset() =~= held_offsets(w).to_multiset().add(o.to_multiset()));
            assert(held_offsets(es).to_multiset() =~= held_offsets(entries_without_pid(es, pid)).to_multiset().add(offsets_of_pid(es, pid).to_multiset()));
        } else {
            assert(entries_without_pid(es, pid) == w);
            assert(offsets_of_pid(es, pid) == offsets_of_pid(d, pid) + o);
            assert(offsets_of_pid(es, pid).to_multiset() =~= offsets_of_pid(d, pid).to_multiset().add(o.to_multiset()));
            assert(held_offsets(es).to_multiset() =~= held_offsets(entries_without_pid(es, pid)).to_multiset().add(offsets_of_pid(es, pid).to_multiset()));
        }
    } else {
        assert(held_offsets(es) =~= Seq::<Offset>::empty());
        assert(offsets_of_pid(es, pid) =~= Seq::<Offset>::empty());
        assert(entries_without_pid(es, pid) =~= Seq::<(BufferId, Seq<ShmBlock>, bool)>::empty());
        assert(held_offsets(es).to_multiset() =~= held_offsets(entries_without_pid(es, pid)).to_multiset().add(offsets_of_pid(es, pid).to_multiset()));
    }
}

proof fn lemma_offsets_of_new_blocks(avail: Seq<Offset>, size: u32)
    requires
        avail.len() >= spec_allocation_count(size),
    ensures
        offsets_of(new_blocks(avail, size)) =~= avail.subrange(avail.len() - spec_allocation_count(size), avail.len() as int).reverse(),
{
    lemma_offsets_index(new_blocks(avail, size));
}

/// Reserving keeps every block in one place.
proof fn lemma_reserve_exclusive(st: ShmState, id: BufferId, incomplete: bool)
    requires
        all_offsets(st).no_duplicates(),
        spec_reserve(st, id, incomplete) is Some,
    ensures
        all_offsets(spec_reserve(st, id, incomplete)->0).no_duplicates(),
{
    broadcast use vstd::multiset::group_multiset_axioms;
    broadcast use vstd::seq_lib::lemma_multiset_commutative;
    let k = spec_allocation_count(id.size);
    let n = st.avail.len();
    let es = st.entries;
    let nb = new_blocks(st.avail, id.size);
    let top = st.avail.subrange(n - k, n as int);
    lemma_offsets_of_new_blocks(st.avail, id.size);
    top.lemma_reverse_to_multiset();
    assert(st.avail =~= st.avail.take(n - k) + top);
    let st2 = spec_reserve(st, id, incomplete)->0;
    if has_id(es, id) {
        let w = id_index(es, id);
        let es2 = es.update(w, (id, nb, incomplete));
        lemma_held_remove(es, w);
        lemma_held_remove(es2, w);
        assert(es2.remove(w) =~= es.remove(w));
    } else {
        let es2 = es.push((id, nb, incomplete));
        assert(es2.drop_last() =~= es);
        assert(held_offsets(es2) == held_offsets(es) + offsets_of(nb));
    }
    assert(counts_within(all_offsets(st2), all_offsets(st)));
    lemma_nodup_within(all_offsets(st2), all_offsets(st));
}

/// Releasing keeps every block in one place.
proof fn lemma_release_exclusive(st: ShmState, id: BufferId)
    requires
        all_offsets(st).no_duplicates(),
        spec_release(st, id) is Some,
    ensures
        all_offsets(spec_release(st, id)->0).no_duplicates(),
{
    broadcast use vstd::multiset::group_multiset_axioms;
    broadcast use vstd::seq_lib::lemma_multiset_commutative;
    let es = st.entries;
    let w = id_index(es, id);
    lemma_held_remove(es, w);
    let st2 = spec_release(st, id)->0;
    assert(all_offsets(st2) == (st.avail + offsets_of(es[w].1)) + held_offsets(es.remove(w)));
    assert(counts_within(all_offsets(st2), all_offsets(st)));
    lemma_nodup_within(all_offsets(st2), all_offsets(st));
}

/// Changing what a buffer records, but not its blocks, keeps every block
/// in one place.
proof fn lemma_relabel_exclusive(st: ShmState, w: int, e: (BufferId, Seq<ShmBlock>, bool))
    requires
        all_offsets(st).no_duplicates(),
        0 <= w < st.entries.len(),
        e.1 == st.entries[w].1,
    ensures
        all_offsets(ShmState { entries: st.entries.update(w, e), ..st }).no_duplicates(),
{
    broadcast use vstd::multiset::group_multiset_axioms;
    broadcast use vstd::seq_lib::lemma_multiset_commutative;
    let es = st.entries;
    let es2 = es.update(w, e);
    lemma_held_remove(es, w);
    lemma_held_remove(es2, w);
    assert(es2.remove(w) =~= es.remove(w));
    let st2 = ShmState { entries: es2, ..st };
    assert(counts_within(all_offsets(st2), all_offsets(st)));
    lemma_nodup_within(all_offsets(st2), all_offsets(st));
}

/// Releasing every buffer of a process keeps every block in one place.
proof fn lemma_release_process_exclusive(st: ShmState, pid: i32)
    requires
        all_offsets(st).no_duplicates(),
    ensures
        all_offsets(spec_release_process(st, pid)).no_duplicates(),
{
    broadcast use vstd::multiset::group_multiset_axioms;
    broadcast use vstd::seq_lib::lemma_multiset_commutative;
    lemma_held_without_pid(st.entries, pid);
    let st2 = spec_release_process(st, pid);
    assert(all_offsets(st2) == (st.avail + offsets_of_pid(st.entries, pid)) + held_offsets(entries_without_pid(st.entries, pid)));
    assert(counts_within(all_offsets(st2), all_offsets(st)));
    lemma_nodup_within(all_offsets(st2), all_offsets(st));
}

/// The blocks a reservation hands out lie at distinct offsets, each of
/// them free before and held by no buffer.
pub proof fn lemma_reserved_blocks_fresh(st: ShmState, id: BufferId, incomplete: bool)
    requires
        all_offsets(st).no_duplicates(),
        spec_reserve(st, id, incomplete) is Some,
    ensures
        offsets_of(new_blocks(st.avail, id.size)).no_duplicates(),
        forall|i: int| 0 <= i < new_blocks(st.avail, id.size).len() ==> {
            &&& st.avail.contains((#[trigger] new_blocks(st.avail, id.size)[i]).offset)
            &&& !held_offsets(st.entries).contains(new_blocks(st.avail, id.size)[i].offset)
        },
{
    let k = spec_allocation_count(id.size);
    let n = st.avail.len();
    let nb = new_blocks(st.avail, id.size);
    let all = all_offsets(st);
    let h = held_offsets(st.entries);
    lemma_offsets_index(nb);
    assert forall|a: int, b: int| 0 <= a < nb.len() && 0 <= b < nb.len() && a != b
        implies offsets_of(nb)[a] != offsets_of(nb)[b] by {
        assert(offsets_of(nb)[a] == all[n - 1 - a]);
        assert(offsets_of(nb)[b] == all[n - 1 - b]);
    }
    assert forall|i: int| 0 <= i < nb.len() implies {
        &&& st.avail.contains((#[trigger] nb[i]).offset)
        &&& !h.contains(nb[i].offset)
    } by {
        assert(st.avail[n - 1 - i] == nb[i].offset);
        if h.contains(nb[i].offset) {
            let q = choose|q: int| 0 <= q < h.len() && h[q] == nb[i].offset;
            assert(all[n + q] == h[q]);
            assert(all[n - 1 - i] == st.avail[n - 1 - i]);
        }
    }
}

impl ShmBufferManager {
    /// Every block of the region is in one place only: no offset is free
    /// twice, held by two buffers, held twice by one, or both held and
    /// free.
    pub proof fn lemma_blocks_in_one_place(&self)
        requires
            self.wf(),
        ensures
            all_offsets(self@).no_duplicates(),
    {
    }
}

/// After buffer `id` is released it has no blocks any more, the free
/// blocks grow by the ones it held, and every other buffer keeps its
/// blocks.
pub proof fn lemma_release_then_lookup(st: ShmState, id: BufferId)
    requires
        ids_unique(st.entries),
        spec_release(st, id) is Some,
    ensures
        !has_id(spec_release(st, id)->0.entries, id),
        spec_release(st, id)->0.avail.len() == st.avail.len() + st.entries[id_index(st.entries, id)].1.len(),
        forall|other: BufferId| #![trigger has_id(st.entries, other)] other != id ==> {
            &&& (has_id(spec_release(st, id)->0.entries, other) <==> has_id(st.entries, other))
            &&& (has_id(st.entries, other) ==> spec_release(st, id)->0.entries[id_index(spec_release(st, id)->0.entries, other)].1
                == st.entries[id_index(st.entries, other)].1)
        },
{
    let es = st.entries;
    let k = id_index(es, id);
    let es2 = es.remove(k);
    lemma_offsets_len(es[k].1);
    assert(spec_release(st, id)->0.entries == es2);
    if has_id(es2, id) {
        let q = choose|q: int| 0 <= q < es2.len() && (#[trigger] es2[q]).0 == id;
        let oq = if q < k { q } else { q + 1 };
        assert(es2[q] == es[oq]);
        assert(es[oq].0 == es[k].0);
    }
    assert forall|other: BufferId| #![trigger has_id(st.entries, other)] other != id implies {
        &&& (has_id(spec_release(st, id)->0.entries, other) <==> has_id(st.entries, other))
        &&& (has_id(st.entries, other) ==> spec_release(st, id)->0.entries[id_index(spec_release(st, id)->0.entries, other)].1
            == st.entries[id_index(st.entries, other)].1)
    } by {
        if has_id(es2, other) {
            let q = choose|q: int| 0 <= q < es2.len() && (#[trigger] es2[q]).0 == other;
            let oq = if q < k { q } else { q + 1 };
            assert(es2[q] == es[oq]);
        }
        if has_id(es, other) {
            let j = id_index(es, other);
            assert(j != k);
            let nj = if j < k { j } else { j - 1 };
            assert(es2[nj] == es[j]);
            assert(has_id(es2, other));
            let q = id_index(es2, other);
            let oq = if q < k { q } else { q + 1 };
            assert(es2[q] == es[oq]);
            if oq != j {
                assert(es[oq].0 != es[j].0);
            }
        }
    }
}

/// Making room by releasing the buffer that `find_releasable` picks (the
/// first one, in record order, not of a process in `excluding`) never
/// takes away a buffer of an excluded process: each of those keeps its
/// blocks.
pub proof fn lemma_space_release_spares_excluded(st: ShmState, excluding: Seq<i32>, k: int)
    requires
        ids_unique(st.entries),
        0 <= k < st.entries.len(),
        !excluding.contains(st.entries[k].0.pid),
        forall|q: int| 0 <= q < k ==> excluding.contains((#[trigger] st.entries[q]).0.pid),
    ensures
        spec_release(st, st.entries[k].0) is Some,
        forall|q: int| 0 <= q < st.entries.len() && excluding.contains((#[trigger] st.entries[q]).0.pid)
            ==> spec_release(st, st.entries[k].0)->0.entries.contains(st.entries[q]),
{
    let es = st.entries;
    let id = es[k].0;
    assert(has_id(es, id));
    let j = id_index(es, id);
    if j != k {
        assert(es[j].0 != es[k].0);
    }
    let es2 = spec_release(st, id)->0.entries;
    assert(es2 == es.remove(k));
    assert forall|q: int| 0 <= q < es.len() && excluding.contains((#[trigger] es[q]).0.pid) implies es2.contains(es[q]) by {
        assert(q != k);
        if q < k {
            assert(es2[q] == es[q]);
        } else {
            assert(es2[q - 1] == es[q]);
        }
    }
}

/// Reserving blocks for a buffer that holds none and then releasing it
/// gives back what was taken: the same buffers and counts, and the free
/// blocks with the ones handed out pushed back, in the order they were
/// handed out (so the taken tail comes back reversed); the release is
/// allowed, its process being counted.
pub proof fn lemma_reserve_release_roundtrip(st: ShmState, id: BufferId, incomplete: bool)
    requires
        ids_unique(st.entries),
        pids_unique(st.counter),
        !has_id(st.entries, id),
        spec_reserve(st, id, incomplete) is Some,
        !has_counter(st.counter, id.pid) || counter_of(st.counter, id.pid) > 0,
        counter_of(st.counter, id.pid) + spec_allocation_count(id.size) <= usize::MAX,
    ensures
        release_ok(spec_reserve(st, id, incomplete)->0, id),
        spec_release(spec_reserve(st, id, incomplete)->0, id) == Some(ShmState {
            entries: st.entries,
            counter: st.counter,
            avail: st.avail.take(st.avail.len() - spec_allocation_count(id.size))
                + st.avail.subrange(st.avail.len() - spec_allocation_count(id.size), st.avail.len() as int).reverse(),
            capacity: st.capacity,
        }),
{
    let k = spec_allocation_count(id.size);
    let n = st.avail.len() as int;
    let st2 = spec_reserve(st, id, incomplete)->0;
    let blocks = new_blocks(st.avail, id.size);
    assert(st2.entries == st.entries.push((id, blocks, incomplete)));
    let es2 = st2.entries;
    assert(es2[es2.len() - 1].0 == id);
    assert(has_id(es2, id));
    let j = id_index(es2, id);
    if j != es2.len() - 1 {
        assert(es2[j] == st.entries[j]);
        assert(st.entries[j].0 == id);
    }
    assert(es2.remove(j) =~= st.entries);
    lemma_offsets_index(blocks);
    assert(offsets_of(blocks) =~= st.avail.subrange(n - k, n).reverse());
    assert(st2.avail + offsets_of(blocks) =~= st.avail.take(n - k) + st.avail.subrange(n - k, n).reverse());
    let c = st.counter;
    let c2 = st2.counter;
    if has_counter(c, id.pid) {
        let q = counter_index(c, id.pid);
        assert(c2 == c.update(q, (id.pid, (c[q].1 + k) as usize)));
        assert(c2[q].0 == id.pid);
        assert(has_counter(c2, id.pid));
        let q2 = counter_index(c2, id.pid);
        if q2 != q {
            assert(c2[q2] == c[q2]);
            assert(c[q2].0 != c[q].0);
        }
        assert(counter_sub(c2, id.pid, k as usize) =~= c);
    } else {
        assert(c2 == c.push((id.pid, k as usize)));
        assert(c2[c2.len() - 1].0 == id.pid);
        assert(has_counter(c2, id.pid));
        let q2 = counter_index(c2, id.pid);
        if q2 != c2.len() - 1 {
            assert(c2[q2] == c[q2]);
        }
        assert(counter_sub(c2, id.pid, k as usize) =~= c);
    }
}

/// A process already holding blocks that gets more through `try_reserve`
/// still leaves room for two largest buffers in the region.
pub proof fn lemma_try_reserve_keeps_room(st: ShmState, id: BufferId)
    requires
        pids_unique(st.counter),
        has_counter(st.counter, id.pid),
        spec_try_reserve(st, id) is Some,
        counter_of(st.counter, id.pid) + spec_allocation_count(id.size) <= usize::MAX,
    ensures
        counter_of(spec_try_reserve(st, id)->0.counter, id.pid) * MIN_ALLOCATION_SIZE + 2 * MAX_ALLOCATION_SIZE < st.capacity,
{
    let c = st.counter;
    let q = counter_index(c, id.pid);
    let c2 = spec_try_reserve(st, id)->0.counter;
    assert(c2 == c.update(q, (id.pid, (c[q].1 + spec_allocation_count(id.size)) as usize)));
    assert(c2[q].0 == id.pid);
    let q2 = counter_index(c2, id.pid);
    if q2 != q {
        assert(c2[q2] == c[q2]);
        assert(c[q2].0 != c[q].0);
    }
}

/// The units of a buffer cover it, and all but its last unit are full.
proof fn lemma_units_cover(size: u32)
    ensures
        spec_allocation_count(size) == 0 || (spec_allocation_count(size) - 1) * MIN_ALLOCATION_SIZE < size,
        spec_allocation_count(size) * MIN_ALLOCATION_SIZE >= size,
        spec_allocation_count(size) <= 2048,
{
    let c = spec_allocation_count(size);
    assert(c == (size as int + 2097151) / 2097152);
    assert(c * 2097152 >= size && (c == 0 || (c - 1) * 2097152 < size) && c <= 2048) by (nonlinear_arith)
        requires
            c == (size as int + 2097151) / 2097152,
            0 <= size <= 0xffff_ffff,
    ;
}

/// A copy of `blocks`.
fn copy_blocks(blocks: &Vec<ShmBlock>) -> (c: Vec<ShmBlock>)
    ensures
        c@ == blocks@,
{
    let mut c: Vec<ShmBlock> = Vec::new();
    let mut i: usize = 0;
    while i < blocks.len()
        invariant
            i <= blocks@.len(),
            c@ == blocks@.take(i as int),
        decreases blocks@.len() - i,
    {
        c.push(blocks[i]);
        i += 1;
        proof { assert(c@ =~= blocks@.take(i as int)); }
    }
    proof { assert(blocks@.take(i as int) =~= blocks@); }
    c
}

} // verus!
