//! The host-memory store for buffers spilled from shared memory: buffers
//! are kept in blocks of one allocation unit, and a bounded number of
//! blocks is kept for reuse.

use vstd::prelude::*;
use bytes::BytesMut;
use crate::storage::HybridBufferError;
use crate::types::{
    spec_allocation_count, AllocationCapacity, AllocationCount, BufferId, BufferLocation,
    MAX_ALLOCATION_SIZE, MIN_ALLOCATION_SIZE,
};

verus! {

#[verifier::external_type_specification]
#[verifier::external_body]
pub struct ExBytesMut(BytesMut);

/// The bytes a `BytesMut` holds.
pub uninterp spec fn bytes_view(b: BytesMut) -> Seq<u8>;

/// Calls `BytesMut::with_capacity`: an empty buffer (the underlying
/// `Vec::with_capacity` panics above `isize::MAX` bytes).
#[verifier::external_body]
fn bytes_with_capacity(n: usize) -> (b: BytesMut)
    requires
        n <= isize::MAX,
    ensures
        bytes_view(b) == Seq::<u8>::empty(),
{
    BytesMut::with_capacity(n)
}

/// Calls `BytesMut::len`: the number of bytes held.
#[verifier::external_body]
fn bytes_len(b: &BytesMut) -> (n: usize)
    ensures
        n == bytes_view(*b).len(),
{
    b.len()
}

/// Calls `BytesMut::capacity`: at least the number of bytes held (the
/// rest depends on the allocator).
#[verifier::external_body]
fn bytes_capacity(b: &BytesMut) -> (n: usize)
    ensures
        n >= bytes_view(*b).len(),
{
    b.capacity()
}

/// Calls `BytesMut::clear`: nothing is held any more.
#[verifier::external_body]
fn bytes_clear(b: &mut BytesMut)
    ensures
        bytes_view(*final(b)) == Seq::<u8>::empty(),
{
    b.clear()
}

/// Calls `BytesMut::extend_from_slice` with `data[start..end]`: those
/// bytes are appended.
#[verifier::external_body]
fn bytes_extend_from(b: &mut BytesMut, data: &[u8], start: usize, end: usize)
    requires
        start <= end <= data@.len(),
        bytes_view(*old(b)).len() + (end - start) <= isize::MAX,
    ensures
        bytes_view(*final(b)) == bytes_view(*old(b)) + data@.subrange(start as int, end as int),
{
    b.extend_from_slice(&data[start..end])
}

/// Calls `BytesMut::resize`: truncated to `n` bytes, or extended to `n`
/// with copies of `v`.
#[verifier::external_body]
fn bytes_resize(b: &mut BytesMut, n: usize, v: u8)
    requires
        n <= isize::MAX,
    ensures
        bytes_view(*final(b)) == (if n <= bytes_view(*old(b)).len() {
            bytes_view(*old(b)).take(n as int)
        } else {
            bytes_view(*old(b)) + Seq::new((n - bytes_view(*old(b)).len()) as nat, |_i: int| v)
        }),
{
    b.resize(n, v)
}

/// Reads byte `i` of a `BytesMut` (through its slice).
#[verifier::external_body]
fn bytes_get(b: &BytesMut, i: usize) -> (x: u8)
    requires
        i < bytes_view(*b).len(),
    ensures
        x == bytes_view(*b)[i as int],
{
    b[i]
}

/// One block of host memory.
pub struct BlockMemBuffer(pub BytesMut);

/// The bytes held by each of `v`.
pub open spec fn blocks_view(v: Seq<BlockMemBuffer>) -> Seq<Seq<u8>> {
    Seq::new(v.len(), |j: int| bytes_view(v[j].0))
}

/// The bytes of `bs`, one block after the other.
pub open spec fn concat(bs: Seq<Seq<u8>>) -> Seq<u8>
    decreases bs.len(),
{
    if bs.len() == 0 {
        Seq::empty()
    } else {
        concat(bs.drop_last()) + bs.last()
    }
}

/// The bookkeeping as plain values: each buffer with the bytes of its
/// blocks, the number of blocks kept for reuse, the number of blocks
/// allowed in normal use and in bursts, and the number of blocks lent
/// out.
pub struct HostMemState {
    pub entries: Seq<(BufferId, Seq<Seq<u8>>)>,
    pub free: nat,
    pub max_count: usize,
    pub extra_count: usize,
    pub borrowed: usize,
}

/// Whether buffer `id` is held.
pub open spec fn held(es: Seq<(BufferId, Seq<Seq<u8>>)>, id: BufferId) -> bool {
    exists|i: int| 0 <= i < es.len() && (#[trigger] es[i]).0 == id
}

/// The position of buffer `id`.
pub open spec fn held_index(es: Seq<(BufferId, Seq<Seq<u8>>)>, id: BufferId) -> int {
    choose|i: int| 0 <= i < es.len() && (#[trigger] es[i]).0 == id
}

/// The buffers after `id` is recorded with the blocks `bs` (replacing its
/// former record).
pub open spec fn put_held(es: Seq<(BufferId, Seq<Seq<u8>>)>, id: BufferId, bs: Seq<Seq<u8>>) -> Seq<(BufferId, Seq<Seq<u8>>)> {
    if held(es, id) {
        es.update(held_index(es, id), (id, bs))
    } else {
        es.push((id, bs))
    }
}

/// Whether `n` blocks can be had: those kept for reuse plus the blocks the
/// limits still allow.
pub open spec fn can_alloc(st: HostMemState, n: int) -> bool {
    st.free + (st.max_count + st.extra_count - (st.entries.len() + st.borrowed)) >= n
}

/// The limits are not yet passed, so the room left can be computed.
pub open spec fn within_limits(st: HostMemState) -> bool {
    st.entries.len() + st.borrowed <= st.max_count + st.extra_count
}

/// The blocks kept for reuse after `n` are handed out.
pub open spec fn free_after(free: nat, n: int) -> nat {
    if free >= n { (free - n) as nat } else { 0 }
}

/// Piece `i` of `data` cut into units.
pub open spec fn chunk(data: Seq<u8>, i: int) -> Seq<u8> {
    data.subrange(
        i * MIN_ALLOCATION_SIZE,
        if (i + 1) * MIN_ALLOCATION_SIZE <= data.len() { (i + 1) * MIN_ALLOCATION_SIZE } else { data.len() as int },
    )
}

/// `data` cut into units.
pub open spec fn chunks(data: Seq<u8>) -> Seq<Seq<u8>> {
    Seq::new(spec_allocation_count(data.len() as u32) as nat, |i: int| chunk(data, i))
}

proof fn lemma_limits_add(a: usize, b: usize)
    requires
        a <= usize::MAX / MIN_ALLOCATION_SIZE,
        b <= usize::MAX / MIN_ALLOCATION_SIZE,
    ensures
        a + b <= usize::MAX,
{
    assert(a + b <= usize::MAX) by (nonlinear_arith)
        requires
            a <= usize::MAX / MIN_ALLOCATION_SIZE,
            b <= usize::MAX / MIN_ALLOCATION_SIZE,
            MIN_ALLOCATION_SIZE == 2097152,
    ;
}

/// The host-memory store.
pub struct HostMemBufferManager {
    mem_bookkeeping: Vec<(BufferId, Vec<BlockMemBuffer>)>,
    free_mem_buffers: Vec<BlockMemBuffer>,
    max_mem_buffer_count: usize,
    extra_burst_mem_buffer_count: usize,
    borrowed_count: usize,
}

impl View for HostMemBufferManager {
    type V = HostMemState;

    closed spec fn view(&self) -> HostMemState {
        HostMemState {
            entries: Seq::new(
                self.mem_bookkeeping@.len(),
                |i: int| (self.mem_bookkeeping@[i].0, blocks_view(self.mem_bookkeeping@[i].1@)),
            ),
            free: self.free_mem_buffers@.len(),
            max_count: self.max_mem_buffer_count,
            extra_count: self.extra_burst_mem_buffer_count,
            borrowed: self.borrowed_count,
        }
    }
}

/// No buffer is recorded twice.
pub open spec fn held_unique(es: Seq<(BufferId, Seq<Seq<u8>>)>) -> bool {
    forall|a: int, b: int| 0 <= a < es.len() && 0 <= b < es.len() && a != b ==> (#[trigger] es[a]).0 != (#[trigger] es[b]).0
}

impl HostMemBufferManager {
    /// No buffer is recorded twice, and the limits are small enough to be
    /// added up.
    pub closed spec fn wf(&self) -> bool {
        &&& held_unique(self@.entries)
        &&& self.max_mem_buffer_count <= usize::MAX / MIN_ALLOCATION_SIZE
        &&& self.extra_burst_mem_buffer_count <= usize::MAX / MIN_ALLOCATION_SIZE
    }

    /// What well-formedness says of the records: no buffer is recorded
    /// twice.
    pub proof fn lemma_wf_unique(&self)
        requires
            self.wf(),
        ensures
            held_unique(self@.entries),
    {
    }

    /// A store for `in_mem_size` bytes in normal use and `extra_burst_size`
    /// more in bursts (in whole units); with `preallocate`, a block per
    /// unit of normal use is allocated and touched at once and kept for
    /// reuse.
    pub fn new(in_mem_size: usize, extra_burst_size: usize, preallocate: bool) -> (m: Self)
        ensures
            m.wf(),
            m@.entries == Seq::<(BufferId, Seq<Seq<u8>>)>::empty(),
            m@.max_count == in_mem_size / MIN_ALLOCATION_SIZE,
            m@.extra_count == extra_burst_size / MIN_ALLOCATION_SIZE,
            m@.borrowed == 0,
            m@.free == (if preallocate { m@.max_count as nat } else { 0 }),
    {
        let max_buffer_count = in_mem_size / MIN_ALLOCATION_SIZE;
        let mut free: Vec<BlockMemBuffer> = Vec::new();
        if preallocate {
            let mut i: usize = 0;
            while i < max_buffer_count
                invariant
                    i <= max_buffer_count,
                    free@.len() == i,
                decreases max_buffer_count - i,
            {
                let mut b = bytes_with_capacity(MIN_ALLOCATION_SIZE);
                bytes_resize(&mut b, MIN_ALLOCATION_SIZE, 1);
                bytes_clear(&mut b);
                free.push(BlockMemBuffer(b));
                i += 1;
            }
        }
        let m = HostMemBufferManager {
            mem_bookkeeping: Vec::new(),
            free_mem_buffers: free,
            max_mem_buffer_count: max_buffer_count,
            extra_burst_mem_buffer_count: extra_burst_size / MIN_ALLOCATION_SIZE,
            borrowed_count: 0,
        };
        proof {
            assert(m@.entries =~= Seq::<(BufferId, Seq<Seq<u8>>)>::empty());
            assert(in_mem_size / MIN_ALLOCATION_SIZE <= usize::MAX / MIN_ALLOCATION_SIZE) by (nonlinear_arith)
                requires
                    in_mem_size <= usize::MAX,
                    MIN_ALLOCATION_SIZE > 0,
            ;
            assert(extra_burst_size / MIN_ALLOCATION_SIZE <= usize::MAX / MIN_ALLOCATION_SIZE) by (nonlinear_arith)
                requires
                    extra_burst_size <= usize::MAX,
                    MIN_ALLOCATION_SIZE > 0,
            ;
        }
        m
    }

    /// The position of buffer `id`, if held.
    fn find(&self, id: &BufferId) -> (k: Option<usize>)
        requires
            self.wf(),
        ensures
            match k {
                Some(k) => k < self@.entries.len() && held(self@.entries, *id) && held_index(self@.entries, *id) == k,
                None => !held(self@.entries, *id),
            },
    {
        let mut k: usize = 0;
        while k < self.mem_bookkeeping.len()
            invariant
                k <= self@.entries.len(),
                self.wf(),
                forall|q: int| 0 <= q < k ==> (#[trigger] self@.entries[q]).0 != *id,
            decreases self@.entries.len() - k,
        {
            if self.mem_bookkeeping[k].0 == *id {
                proof {
                    let es = self@.entries;
                    assert(es[k as int].0 == *id);
                    let w = held_index(es, *id);
                    if w != k as int {
                        assert(es[w].0 != es[k as int].0);
                    }
                }
                return Some(k);
            }
            proof { assert(self@.entries[k as int].0 == self.mem_bookkeeping@[k as int].0); }
            k += 1;
        }
        None
    }

    /// Whether buffer `id` is held.
    pub fn contains(&self, id: &BufferId) -> (r: bool)
        requires
            self.wf(),
        ensures
            r == held(self@.entries, *id),
    {
        self.find(id).is_some()
    }

    /// The number of blocks of buffer `id` (as a `u32`, truncated), if
    /// held.
    pub fn get_block_count(&self, id: &BufferId) -> (c: Option<AllocationCount>)
        requires
            self.wf(),
        ensures
            match c {
                Some(c) => held(self@.entries, *id) && c.0 == self@.entries[held_index(self@.entries, *id)].1.len() as u32,
                None => !held(self@.entries, *id),
            },
    {
        match self.find(id) {
            Some(k) => Some(AllocationCount(self.mem_bookkeeping[k].1.len() as u32)),
            None => None,
        }
    }

    /// The number of blocks still allowed (as a `u32`, truncated): the
    /// limits less the buffers held and the blocks lent out, or zero.
    pub fn free_blocks_count(&self) -> (c: AllocationCount)
        requires
            self.wf(),
        ensures
            c.0 == (if self@.entries.len() + self@.borrowed <= self@.max_count + self@.extra_count {
                self@.max_count + self@.extra_count - (self@.entries.len() + self@.borrowed)
            } else {
                0
            }) as u32,
    {
        let limit = (self.max_mem_buffer_count as u128) + (self.extra_burst_mem_buffer_count as u128);
        let used = (self.mem_bookkeeping.len() as u128) + (self.borrowed_count as u128);
        let free = if used <= limit { limit - used } else { 0 };
        AllocationCount(free as u32)
    }

    /// Whether the limits are not yet passed (see `within_limits`), as
    /// storing and lending blocks need.
    pub fn limits_hold(&self) -> (r: bool)
        requires
            self.wf(),
        ensures
            r == within_limits(self@),
    {
        proof { lemma_limits_add(self.max_mem_buffer_count, self.extra_burst_mem_buffer_count); }
        (self.mem_bookkeeping.len() as u128) + (self.borrowed_count as u128)
            <= (self.max_mem_buffer_count + self.extra_burst_mem_buffer_count) as u128
    }

    /// The bytes of normal use.
    pub fn capacity(&self) -> (c: usize)
        requires
            self.wf(),
        ensures
            c == self@.max_count * MIN_ALLOCATION_SIZE,
    {
        proof {
            assert(self.max_mem_buffer_count * MIN_ALLOCATION_SIZE <= usize::MAX) by (nonlinear_arith)
                requires
                    self.max_mem_buffer_count <= usize::MAX / MIN_ALLOCATION_SIZE,
                    MIN_ALLOCATION_SIZE > 0,
            ;
        }
        self.max_mem_buffer_count * MIN_ALLOCATION_SIZE
    }

    /// Hands out `n` blocks, reused ones first (the last kept first), if
    /// they can be had.
    fn alloc_n_buffers(&mut self, n: usize) -> (r: Option<Vec<BlockMemBuffer>>)
        requires
            old(self).wf(),
            within_limits(old(self)@),
        ensures
            final(self).wf(),
            final(self)@.entries == old(self)@.entries,
            final(self)@.max_count == old(self)@.max_count,
            final(self)@.extra_count == old(self)@.extra_count,
            final(self)@.borrowed == old(self)@.borrowed,
            match r {
                Some(v) => can_alloc(old(self)@, n as int) && v@.len() == n && final(self)@.free == free_after(old(self)@.free, n as int),
                None => !can_alloc(old(self)@, n as int) && final(self)@.free == old(self)@.free,
            },
    {
        proof { lemma_limits_add(self.max_mem_buffer_count, self.extra_burst_mem_buffer_count); }
        let allowed = (self.max_mem_buffer_count + self.extra_burst_mem_buffer_count)
            - (self.mem_bookkeeping.len() + self.borrowed_count);
        if (self.free_mem_buffers.len() as u128) + (allowed as u128) < n as u128 {
            return None;
        }
        let ghost es0 = self@.entries;
        let ghost f0 = self.free_mem_buffers@.len();
        let mut out: Vec<BlockMemBuffer> = Vec::new();
        let mut i: usize = 0;
        while i < n
            invariant
                i <= n,
                out@.len() == i,
                self.free_mem_buffers@.len() == free_after(f0 as nat, i as int),
                self@.entries == es0,
                self.mem_bookkeeping == old(self).mem_bookkeeping,
                self.max_mem_buffer_count == old(self).max_mem_buffer_count,
                self.extra_burst_mem_buffer_count == old(self).extra_burst_mem_buffer_count,
                self.borrowed_count == old(self).borrowed_count,
            decreases n - i,
        {
            match self.free_mem_buffers.pop() {
                Some(b) => out.push(b),
                None => out.push(BlockMemBuffer(bytes_with_capacity(MIN_ALLOCATION_SIZE))),
            }
            i += 1;
        }
        Some(out)
    }
}

/// The blocks of `bytes` zero bytes cut into units.
pub open spec fn zero_blocks(bytes: int) -> Seq<Seq<u8>> {
    Seq::new(
        spec_allocation_count(bytes as u32) as nat,
        |i: int| Seq::new(chunk_len(bytes, i) as nat, |_j: int| 0u8),
    )
}

/// The size of piece `i` of `bytes` bytes cut into units.
pub open spec fn chunk_len(bytes: int, i: int) -> int {
    if (i + 1) * MIN_ALLOCATION_SIZE <= bytes { MIN_ALLOCATION_SIZE as int } else { bytes - i * MIN_ALLOCATION_SIZE }
}

proof fn lemma_unit_count(len: int)
    requires
        0 <= len <= MAX_ALLOCATION_SIZE,
    ensures
        spec_allocation_count(len as u32) == (len + MIN_ALLOCATION_SIZE - 1) / (MIN_ALLOCATION_SIZE as int),
        spec_allocation_count(len as u32) <= 64,
        spec_allocation_count(len as u32) * MIN_ALLOCATION_SIZE >= len,
        spec_allocation_count(len as u32) == 0 || (spec_allocation_count(len as u32) - 1) * MIN_ALLOCATION_SIZE < len,
{
    let c = spec_allocation_count(len as u32);
    assert(c == (len + 2097151) / 2097152);
    assert(c <= 64 && c * 2097152 >= len && (c == 0 || (c - 1) * 2097152 < len)) by (nonlinear_arith)
        requires
            c == (len + 2097151) / 2097152,
            0 <= len <= 134217728,
    ;
}

impl HostMemBufferManager {
    /// Records buffer `id` with `blocks` (replacing its former record).
    fn put_entry(&mut self, id: &BufferId, blocks: Vec<BlockMemBuffer>)
        requires
            old(self).wf(),
        ensures
            final(self).wf(),
            final(self)@.entries == put_held(old(self)@.entries, *id, blocks_view(blocks@)),
            final(self)@.free == old(self)@.free,
            final(self)@.max_count == old(self)@.max_count,
            final(self)@.extra_count == old(self)@.extra_count,
            final(self)@.borrowed == old(self)@.borrowed,
    {
        let ghost es0 = self@.entries;
        let ghost bv = blocks_view(blocks@);
        match self.find(id) {
            Some(k) => {
                self.mem_bookkeeping.set(k, (*id, blocks));
                proof {
                    let es = self@.entries;
                    assert(es =~= es0.update(k as int, (*id, bv)));
                    assert forall|a: int, b: int| 0 <= a < es.len() && 0 <= b < es.len() && a != b implies (#[trigger] es[a]).0 != (#[trigger] es[b]).0 by {
                        if a != k as int { assert(es[a] == es0[a]); assert(es0[a].0 != es0[k as int].0); }
                        if b != k as int { assert(es[b] == es0[b]); assert(es0[b].0 != es0[k as int].0); }
                    }
                }
            },
            None => {
                self.mem_bookkeeping.push((*id, blocks));
                proof {
                    let es = self@.entries;
                    assert(es =~= es0.push((*id, bv)));
                    assert forall|a: int, b: int| 0 <= a < es.len() && 0 <= b < es.len() && a != b implies (#[trigger] es[a]).0 != (#[trigger] es[b]).0 by {
                        if a < es0.len() { assert(es[a] == es0[a]); assert(es0[a].0 != *id); }
                        if b < es0.len() { assert(es[b] == es0[b]); assert(es0[b].0 != *id); }
                    }
                }
            },
        }
    }

    /// Keeps block `b` for reuse if fewer blocks than normal use allows
    /// are kept; drops it otherwise.
    fn put_back_one(&mut self, b: BlockMemBuffer)
        requires
            old(self).wf(),
        ensures
            final(self).wf(),
            final(self)@.free == (if old(self)@.free < old(self)@.max_count { old(self)@.free + 1 } else { old(self)@.free }),
            final(self)@.entries == old(self)@.entries,
            final(self)@.max_count == old(self)@.max_count,
            final(self)@.extra_count == old(self)@.extra_count,
            final(self)@.borrowed == old(self)@.borrowed,
    {
        if self.free_mem_buffers.len() < self.max_mem_buffer_count {
            self.free_mem_buffers.push(b);
        }
    }

    /// Stores `data` as buffer `id`, one unit per block: refused if it is
    /// larger than a largest buffer, or if not enough blocks can be had.
    pub fn store(&mut self, id: &BufferId, data: &[u8]) -> (r: Result<(), HybridBufferError>)
        requires
            old(self).wf(),
            data@.len() <= MAX_ALLOCATION_SIZE ==> within_limits(old(self)@),
        ensures
            final(self).wf(),
            data@.len() > MAX_ALLOCATION_SIZE ==> (r matches Err(HybridBufferError::InvalidInputBuffer)) && final(self)@ == old(self)@,
            data@.len() <= MAX_ALLOCATION_SIZE && !can_alloc(old(self)@, spec_allocation_count(data@.len() as u32))
                ==> (r matches Err(HybridBufferError::MemoryExhausted)) && final(self)@ == old(self)@,
            data@.len() <= MAX_ALLOCATION_SIZE && can_alloc(old(self)@, spec_allocation_count(data@.len() as u32)) ==> {
                &&& r is Ok
                &&& final(self)@.entries == put_held(old(self)@.entries, *id, chunks(data@))
                &&& final(self)@.free == free_after(old(self)@.free, spec_allocation_count(data@.len() as u32))
                &&& final(self)@.max_count == old(self)@.max_count
                &&& final(self)@.extra_count == old(self)@.extra_count
                &&& final(self)@.borrowed == old(self)@.borrowed
            },
    {
        let len = data.len();
        if len > MAX_ALLOCATION_SIZE {
            return Err(HybridBufferError::InvalidInputBuffer);
        }
        proof { lemma_unit_count(len as int); }
        let n = (len + MIN_ALLOCATION_SIZE - 1) / MIN_ALLOCATION_SIZE;
        let mut blocks = match self.alloc_n_buffers(n) {
            Some(b) => b,
            None => {
                proof { assert(self@ == old(self)@); }
                return Err(HybridBufferError::MemoryExhausted);
            },
        };
        let ghost want = chunks(data@);
        let mut filled: Vec<BlockMemBuffer> = Vec::new();
        let mut i: usize = 0;
        while i < n
            invariant
                n == spec_allocation_count(len as u32),
                n <= 64,
                len == data@.len(),
                len <= MAX_ALLOCATION_SIZE,
                n == 0 || (n - 1) * MIN_ALLOCATION_SIZE < len,
                n * MIN_ALLOCATION_SIZE >= len,
                want == chunks(data@),
                i <= n,
                blocks@.len() == n - i,
                filled@.len() == i,
                forall|k: int| 0 <= k < i ==> bytes_view((#[trigger] filled@[k]).0) == want[k],
            decreases n - i,
        {
            proof {
                assert(i * MIN_ALLOCATION_SIZE < len) by (nonlinear_arith)
                    requires
                        i < n,
                        (n - 1) * MIN_ALLOCATION_SIZE < len,
                        MIN_ALLOCATION_SIZE > 0,
                ;
            }
            let start = i * MIN_ALLOCATION_SIZE;
            let end = if start + MIN_ALLOCATION_SIZE <= len { start + MIN_ALLOCATION_SIZE } else { len };
            let mut b = blocks.remove(0);
            bytes_clear(&mut b.0);
            bytes_extend_from(&mut b.0, data, start, end);
            proof {
                assert((i + 1) * MIN_ALLOCATION_SIZE == start + MIN_ALLOCATION_SIZE) by (nonlinear_arith)
                    requires
                        start == i * MIN_ALLOCATION_SIZE,
                ;
                assert(bytes_view(b.0) =~= want[i as int]);
            }
            filled.push(b);
            i += 1;
        }
        proof {
            assert(blocks_view(filled@) =~= want);
        }
        self.put_entry(id, filled);
        Ok(())
    }

    /// Takes buffer `id` out to load it into `data_len` bytes: refused if
    /// it is larger than a largest buffer or than the room given; absent if
    /// not held. Its blocks are handed over and no longer counted.
    pub fn take_for_load(&mut self, id: &BufferId, data_len: usize) -> (r: Result<Vec<BlockMemBuffer>, HybridBufferError>)
        requires
            old(self).wf(),
        ensures
            final(self).wf(),
            id.size > MAX_ALLOCATION_SIZE || data_len < id.size ==> (r matches Err(HybridBufferError::InvalidInputBuffer)) && final(self)@ == old(self)@,
            !(id.size > MAX_ALLOCATION_SIZE || data_len < id.size) && !held(old(self)@.entries, *id)
                ==> (r matches Err(HybridBufferError::NoBufferId)) && final(self)@ == old(self)@,
            !(id.size > MAX_ALLOCATION_SIZE || data_len < id.size) && held(old(self)@.entries, *id) ==> {
                let k = held_index(old(self)@.entries, *id);
                &&& r is Ok
                &&& blocks_view(r->Ok_0@) == old(self)@.entries[k].1
                &&& final(self)@.entries == old(self)@.entries.remove(k)
                &&& final(self)@.free == old(self)@.free
                &&& final(self)@.max_count == old(self)@.max_count
                &&& final(self)@.extra_count == old(self)@.extra_count
                &&& final(self)@.borrowed == old(self)@.borrowed
            },
    {
        if id.size as usize > MAX_ALLOCATION_SIZE || data_len < id.size as usize {
            return Err(HybridBufferError::InvalidInputBuffer);
        }
        match self.find(id) {
            Some(k) => Ok(self.remove_at(k)),
            None => Err(HybridBufferError::NoBufferId),
        }
    }

    /// Removes the buffer at position `k` and hands over its blocks.
    fn remove_at(&mut self, k: usize) -> (blocks: Vec<BlockMemBuffer>)
        requires
            old(self).wf(),
            k < old(self)@.entries.len(),
        ensures
            final(self).wf(),
            blocks_view(blocks@) == old(self)@.entries[k as int].1,
            final(self)@.entries == old(self)@.entries.remove(k as int),
            final(self)@.free == old(self)@.free,
            final(self)@.max_count == old(self)@.max_count,
            final(self)@.extra_count == old(self)@.extra_count,
            final(self)@.borrowed == old(self)@.borrowed,
    {
        let ghost es0 = self@.entries;
        let (_, blocks) = self.mem_bookkeeping.remove(k);
        proof {
            let es = self@.entries;
            assert(es =~= es0.remove(k as int));
            assert forall|a: int, b: int| 0 <= a < es.len() && 0 <= b < es.len() && a != b implies (#[trigger] es[a]).0 != (#[trigger] es[b]).0 by {
                let oa = if a < k as int { a } else { a + 1 };
                let ob = if b < k as int { b } else { b + 1 };
                assert(es[a] == es0[oa] && es[b] == es0[ob]);
            }
        }
        blocks
    }

    /// Loads buffer `id` into `data` (see `take_for_load`): its bytes go to
    /// the start of `data`, the rest of `data` is left as it was.
    pub fn load_to(&mut self, id: &BufferId, data: &mut [u8]) -> (r: Result<BufferLocation, HybridBufferError>)
        requires
            old(self).wf(),
            !(id.size > MAX_ALLOCATION_SIZE || old(data)@.len() < id.size) && held(old(self)@.entries, *id)
                ==> concat(old(self)@.entries[held_index(old(self)@.entries, *id)].1).len() <= old(data)@.len(),
        ensures
            final(self).wf(),
            id.size > MAX_ALLOCATION_SIZE || old(data)@.len() < id.size
                ==> (r matches Err(HybridBufferError::InvalidInputBuffer)) && final(self)@ == old(self)@ && final(data)@ == old(data)@,
            !(id.size > MAX_ALLOCATION_SIZE || old(data)@.len() < id.size) && !held(old(self)@.entries, *id)
                ==> (r matches Err(HybridBufferError::NoBufferId)) && final(self)@ == old(self)@ && final(data)@ == old(data)@,
            !(id.size > MAX_ALLOCATION_SIZE || old(data)@.len() < id.size) && held(old(self)@.entries, *id) ==> {
                let k = held_index(old(self)@.entries, *id);
                let bytes = concat(old(self)@.entries[k].1);
                &&& r == Ok::<BufferLocation, HybridBufferError>(BufferLocation::HostMem)
                &&& final(data)@ == bytes + old(data)@.skip(bytes.len() as int)
                &&& final(self)@.entries == old(self)@.entries.remove(k)
                &&& final(self)@.free == old(self)@.free
                &&& final(self)@.borrowed == old(self)@.borrowed
            },
    {
        let blocks = match self.take_for_load(id, data.len()) {
            Ok(b) => b,
            Err(e) => {
                return Err(e);
            },
        };
        let ghost d0 = data@;
        let ghost bv = blocks_view(blocks@);
        let mut offset: usize = 0;
        let mut i: usize = 0;
        while i < blocks.len()
            invariant
                i <= blocks@.len(),
                bv == blocks_view(blocks@),
                concat(bv).len() <= d0.len(),
                data@.len() == d0.len(),
                offset == concat(bv.take(i as int)).len(),
                data@ == concat(bv.take(i as int)) + d0.skip(offset as int),
            decreases blocks@.len() - i,
        {
            proof {
                assert(bv.take(i + 1).drop_last() =~= bv.take(i as int));
                assert(bv.take(i + 1).last() == bv[i as int]);
                lemma_concat_prefix_len(bv, i + 1);
            }
            let n = bytes_len(&blocks[i].0);
            let dl = data.len();
            proof {
                assert(concat(bv.take(i + 1)) == concat(bv.take(i as int)) + bv[i as int]);
                assert(offset + n <= d0.len());
            }
            let ghost base = data@;
            let mut j: usize = 0;
            while j < n
                invariant
                    j <= n,
                    i < blocks@.len(),
                    dl == d0.len(),
                    n == bv[i as int].len(),
                    bv[i as int] == bytes_view(blocks@[i as int].0),
                    offset + n <= d0.len(),
                    data@.len() == d0.len(),
                    data@ == concat(bv.take(i as int)) + bv[i as int].take(j as int) + d0.skip(offset + j),
                    base == concat(bv.take(i as int)) + d0.skip(offset as int),
                    offset == concat(bv.take(i as int)).len(),
                decreases n - j,
            {
                let x = bytes_get(&blocks[i].0, j);
                data[offset + j] = x;
                j += 1;
                proof {
                    assert(data@ =~= concat(bv.take(i as int)) + bv[i as int].take(j as int) + d0.skip(offset + j));
                }
            }
            offset = offset + n;
            i += 1;
            proof {
                assert(concat(bv.take(i as int)) == concat(bv.take(i - 1)) + bv[i - 1]);
                assert(bv[i - 1].take(n as int) =~= bv[i - 1]);
                assert(data@ =~= concat(bv.take(i as int)) + d0.skip(offset as int));
            }
        }
        proof { assert(bv.take(i as int) =~= bv); }
        Ok(BufferLocation::HostMem)
    }
}

proof fn lemma_concat_prefix_len(bs: Seq<Seq<u8>>, k: int)
    requires
        0 <= k <= bs.len(),
    ensures
        concat(bs.take(k)).len() <= concat(bs).len(),
    decreases bs.len(),
{
    if k < bs.len() {
        assert(bs.drop_last().take(k) =~= bs.take(k));
        lemma_concat_prefix_len(bs.drop_last(), k);
    } else {
        assert(bs.take(k) =~= bs);
    }
}

#[verifier::spinoff_prover]
proof fn lemma_concat_chunks_prefix(data: Seq<u8>, k: int)
    requires
        data.len() <= MAX_ALLOCATION_SIZE,
        0 <= k <= spec_allocation_count(data.len() as u32),
    ensures
        concat(chunks(data).take(k)) =~= data.subrange(0, if k * MIN_ALLOCATION_SIZE <= data.len() { k * MIN_ALLOCATION_SIZE } else { data.len() as int }),
    decreases k,
{
    lemma_unit_count(data.len() as int);
    if k == 0 {
        assert(chunks(data).take(0) =~= Seq::<Seq<u8>>::empty());
    } else {
        lemma_concat_chunks_prefix(data, k - 1);
        let t = chunks(data).take(k);
        assert(t.drop_last() =~= chunks(data).take(k - 1));
        assert(t.last() == chunk(data, k - 1));
        let c = spec_allocation_count(data.len() as u32);
        let m = MIN_ALLOCATION_SIZE as int;
        let a = (k - 1) * m;
        let b = k * m;
        assert(b == a + m) by (nonlinear_arith)
            requires
                a == (k - 1) * m,
                b == k * m,
        ;
        assert(a <= (c - 1) * m) by (nonlinear_arith)
            requires
                a == (k - 1) * m,
                0 <= k - 1 <= c - 1,
                m > 0,
        ;
        assert(a < data.len());
        let e: int = if b <= data.len() { b } else { data.len() as int };
        assert(concat(t.drop_last()) =~= data.subrange(0, a));
        assert(chunk(data, k - 1) == data.subrange(a, e));
        assert(concat(t) == concat(t.drop_last()) + t.last());
        assert(data.subrange(0, a) + data.subrange(a, e) =~= data.subrange(0, e));
    }
}

/// The bytes recorded for a buffer stored from `data` are `data` again.
proof fn lemma_concat_chunks(data: Seq<u8>)
    requires
        data.len() <= MAX_ALLOCATION_SIZE,
    ensures
        concat(chunks(data)) == data,
{
    lemma_unit_count(data.len() as int);
    let c = spec_allocation_count(data.len() as u32);
    lemma_concat_chunks_prefix(data, c);
    assert(chunks(data).take(c) =~= chunks(data));
    assert(data.subrange(0, data.len() as int) =~= data);
}

/// What a load gives back of a store: once buffer `id` is stored from
/// `data` (at most a largest allocation), it is held, no buffer is
/// recorded twice, and the bytes a load of `id` copies out are `data`.
pub proof fn lemma_store_then_load(es: Seq<(BufferId, Seq<Seq<u8>>)>, id: BufferId, data: Seq<u8>)
    requires
        held_unique(es),
        data.len() <= MAX_ALLOCATION_SIZE,
    ensures
        held(put_held(es, id, chunks(data)), id),
        held_unique(put_held(es, id, chunks(data))),
        concat(put_held(es, id, chunks(data))[held_index(put_held(es, id, chunks(data)), id)].1) == data,
{
    let bs = chunks(data);
    let es2 = put_held(es, id, bs);
    let w: int = if held(es, id) { held_index(es, id) } else { es.len() as int };
    assert(es2[w] == (id, bs));
    assert(held(es2, id));
    assert forall|a: int, b: int| 0 <= a < es2.len() && 0 <= b < es2.len() && a != b implies (#[trigger] es2[a]).0 != (#[trigger] es2[b]).0 by {
        if a != w && b != w {
            assert(es2[a] == es[a] && es2[b] == es[b]);
        } else if a == w {
            assert(es2[b] == es[b]);
            if es[b].0 == id {
                assert(held(es, id));
            }
        } else {
            assert(es2[a] == es[a]);
            if es[a].0 == id {
                assert(held(es, id));
            }
        }
    }
    let j = held_index(es2, id);
    if j != w {
        assert(es2[j].0 == es2[w].0);
    }
    lemma_concat_chunks(data);
}

/// The bytes of each of the pieces `data`.
pub open spec fn pieces_view(data: Seq<Vec<u8>>) -> Seq<Seq<u8>> {
    Seq::new(data.len(), |i: int| data[i]@)
}

proof fn lemma_concat_piece_len(bs: Seq<Seq<u8>>, i: int)
    requires
        0 <= i < bs.len(),
    ensures
        bs[i].len() <= concat(bs).len(),
    decreases bs.len(),
{
    if i < bs.len() - 1 {
        lemma_concat_piece_len(bs.drop_last(), i);
        assert(bs.drop_last()[i] == bs[i]);
    }
}

/// The total number of bytes of the pieces `data`.
fn pieces_total(data: &Vec<Vec<u8>>) -> (t: usize)
    requires
        concat(pieces_view(data@)).len() <= usize::MAX,
    ensures
        t == concat(pieces_view(data@)).len(),
{
    let ghost pv = pieces_view(data@);
    let mut t: usize = 0;
    let mut i: usize = 0;
    while i < data.len()
        invariant
            i <= data@.len(),
            pv == pieces_view(data@),
            concat(pv).len() <= usize::MAX,
            t == concat(pv.take(i as int)).len(),
        decreases data@.len() - i,
    {
        proof {
            assert(pv.take(i + 1).drop_last() =~= pv.take(i as int));
            assert(pv.take(i + 1).last() == pv[i as int]);
            lemma_concat_prefix_len(pv, i + 1);
        }
        t = t + data[i].len();
        i += 1;
    }
    proof { assert(pv.take(i as int) =~= pv); }
    t
}

impl HostMemBufferManager {
    /// Stores buffer `id` from the pieces `data`, one block per piece
    /// (replacing its former record): refused if the pieces add up to more
    /// than a largest allocation, or if too few blocks can be had. The
    /// pieces must come one per allocation unit of their total.
    pub fn store_vectored(&mut self, id: &BufferId, data: &Vec<Vec<u8>>) -> (r: Result<(), HybridBufferError>)
        requires
            old(self).wf(),
            concat(pieces_view(data@)).len() <= usize::MAX,
            concat(pieces_view(data@)).len() <= MAX_ALLOCATION_SIZE ==> within_limits(old(self)@),
            concat(pieces_view(data@)).len() <= MAX_ALLOCATION_SIZE
                && can_alloc(old(self)@, spec_allocation_count(concat(pieces_view(data@)).len() as u32))
                ==> spec_allocation_count(concat(pieces_view(data@)).len() as u32) == data@.len(),
        ensures
            final(self).wf(),
            concat(pieces_view(data@)).len() > MAX_ALLOCATION_SIZE
                ==> (r matches Err(HybridBufferError::InvalidInputBuffer)) && final(self)@ == old(self)@,
            ({
                let total = concat(pieces_view(data@)).len();
                let n = spec_allocation_count(total as u32);
                &&& total <= MAX_ALLOCATION_SIZE && !can_alloc(old(self)@, n)
                    ==> (r matches Err(HybridBufferError::MemoryExhausted)) && final(self)@ == old(self)@
                &&& total <= MAX_ALLOCATION_SIZE && can_alloc(old(self)@, n) ==> {
                    &&& r is Ok
                    &&& final(self)@.entries == put_held(old(self)@.entries, *id, pieces_view(data@))
                    &&& final(self)@.free == free_after(old(self)@.free, n)
                    &&& final(self)@.max_count == old(self)@.max_count
                    &&& final(self)@.extra_count == old(self)@.extra_count
                    &&& final(self)@.borrowed == old(self)@.borrowed
                }
            }),
    {
        let ghost pv = pieces_view(data@);
        let total = pieces_total(data);
        if total > MAX_ALLOCATION_SIZE {
            return Err(HybridBufferError::InvalidInputBuffer);
        }
        proof { lemma_unit_count(total as int); }
        let n = (total + MIN_ALLOCATION_SIZE - 1) / MIN_ALLOCATION_SIZE;
        let mut blocks = match self.alloc_n_buffers(n) {
            Some(b) => b,
            None => {
                proof { assert(self@ == old(self)@); }
                return Err(HybridBufferError::MemoryExhausted);
            },
        };
        let mut filled: Vec<BlockMemBuffer> = Vec::new();
        let mut i: usize = 0;
        while i < n
            invariant
                n == data@.len(),
                pv == pieces_view(data@),
                concat(pv).len() <= MAX_ALLOCATION_SIZE,
                i <= n,
                blocks@.len() == n - i,
                filled@.len() == i,
                forall|k: int| 0 <= k < i ==> bytes_view((#[trigger] filled@[k]).0) == pv[k],
            decreases n - i,
        {
            proof { lemma_concat_piece_len(pv, i as int); }
            let mut b = blocks.remove(0);
            bytes_clear(&mut b.0);
            let len = data[i].len();
            bytes_extend_from(&mut b.0, &data[i], 0, len);
            proof {
                assert(data@[i as int]@.subrange(0, len as int) =~= pv[i as int]);
            }
            filled.push(b);
            i += 1;
        }
        proof {
            assert(blocks_view(filled@) =~= pv);
        }
        self.put_entry(id, filled);
        Ok(())
    }

    /// Loads buffer `id` into the pieces `data`, one block per piece (see
    /// `take_for_load`, with the pieces' total as the room): each block's
    /// bytes go to the start of its piece, the rest of the piece is left as
    /// it was.
    pub fn load_to_vectored(&mut self, id: &BufferId, data: &mut Vec<Vec<u8>>) -> (r: Result<BufferLocation, HybridBufferError>)
        requires
            old(self).wf(),
            concat(pieces_view(old(data)@)).len() <= usize::MAX,
            !(id.size > MAX_ALLOCATION_SIZE || concat(pieces_view(old(data)@)).len() < id.size) && held(old(self)@.entries, *id) ==> {
                let bs = old(self)@.entries[held_index(old(self)@.entries, *id)].1;
                &&& bs.len() == old(data)@.len()
                &&& forall|i: int| 0 <= i < bs.len() ==> (#[trigger] bs[i]).len() <= old(data)@[i]@.len()
            },
        ensures
            final(self).wf(),
            ({
                let room = concat(pieces_view(old(data)@)).len();
                &&& id.size > MAX_ALLOCATION_SIZE || room < id.size
                    ==> (r matches Err(HybridBufferError::InvalidInputBuffer)) && final(self)@ == old(self)@ && final(data)@ == old(data)@
                &&& !(id.size > MAX_ALLOCATION_SIZE || room < id.size) && !held(old(self)@.entries, *id)
                    ==> (r matches Err(HybridBufferError::NoBufferId)) && final(self)@ == old(self)@ && final(data)@ == old(data)@
                &&& !(id.size > MAX_ALLOCATION_SIZE || room < id.size) && held(old(self)@.entries, *id) ==> {
                    let k = held_index(old(self)@.entries, *id);
                    let bs = old(self)@.entries[k].1;
                    &&& r == Ok::<BufferLocation, HybridBufferError>(BufferLocation::HostMem)
                    &&& final(data)@.len() == old(data)@.len()
                    &&& forall|i: int| 0 <= i < bs.len()
                        ==> (#[trigger] final(data)@[i])@ == bs[i] + old(data)@[i]@.skip(bs[i].len() as int)
                    &&& final(self)@.entries == old(self)@.entries.remove(k)
                    &&& final(self)@.free == old(self)@.free
                    &&& final(self)@.borrowed == old(self)@.borrowed
                }
            }),
    {
        let room = pieces_total(data);
        let blocks = match self.take_for_load(id, room) {
            Ok(b) => b,
            Err(e) => {
                return Err(e);
            },
        };
        let ghost d0 = data@;
        let ghost bv = blocks_view(blocks@);
        let mut i: usize = 0;
        while i < blocks.len()
            invariant
                i <= blocks@.len(),
                bv == blocks_view(blocks@),
                bv.len() == d0.len(),
                forall|q: int| 0 <= q < bv.len() ==> (#[trigger] bv[q]).len() <= d0[q]@.len(),
                data@.len() == d0.len(),
                forall|q: int| 0 <= q < i ==> (#[trigger] data@[q])@ == bv[q] + d0[q]@.skip(bv[q].len() as int),
                forall|q: int| i <= q < d0.len() ==> #[trigger] data@[q] == d0[q],
            decreases blocks@.len() - i,
        {
            let n = bytes_len(&blocks[i].0);
            let mut piece = data.remove(i);
            let ghost p0 = piece@;
            proof {
                assert(p0 == d0[i as int]@);
                assert(bv[i as int] == bytes_view(blocks@[i as int].0));
            }
            let mut j: usize = 0;
            while j < n
                invariant
                    j <= n,
                    i < blocks@.len(),
                    n == bv[i as int].len(),
                    bv[i as int] == bytes_view(blocks@[i as int].0),
                    n <= p0.len(),
                    piece@.len() == p0.len(),
                    piece@ == bv[i as int].take(j as int) + p0.skip(j as int),
                decreases n - j,
            {
                let x = bytes_get(&blocks[i].0, j);
                piece.set(j, x);
                j += 1;
                proof {
                    assert(piece@ =~= bv[i as int].take(j as int) + p0.skip(j as int));
                }
            }
            proof {
                assert(bv[i as int].take(n as int) =~= bv[i as int]);
            }
            let ghost before = data@;
            data.insert(i, piece);
            proof {
                assert forall|q: int| 0 <= q < i + 1 implies (#[trigger] data@[q])@ == bv[q] + d0[q]@.skip(bv[q].len() as int) by {
                    if q < i {
                        assert(data@[q] == before[q]);
                    }
                }
                assert forall|q: int| i + 1 <= q < d0.len() implies #[trigger] data@[q] == d0[q] by {
                    assert(data@[q] == before[q - 1]);
                }
            }
            i += 1;
        }
        Ok(BufferLocation::HostMem)
    }
}

impl HostMemBufferManager {
    /// Hands over the blocks of buffer `id`, if held; they count as lent
    /// out.
    pub fn pop_buffer(&mut self, id: &BufferId) -> (r: Option<Vec<BlockMemBuffer>>)
        requires
            old(self).wf(),
            held(old(self)@.entries, *id)
                ==> old(self)@.borrowed + old(self)@.entries[held_index(old(self)@.entries, *id)].1.len() <= usize::MAX,
        ensures
            final(self).wf(),
            !held(old(self)@.entries, *id) ==> r is None && final(self)@ == old(self)@,
            held(old(self)@.entries, *id) ==> {
                let k = held_index(old(self)@.entries, *id);
                &&& r is Some
                &&& blocks_view(r->0@) == old(self)@.entries[k].1
                &&& final(self)@.entries == old(self)@.entries.remove(k)
                &&& final(self)@.borrowed == old(self)@.borrowed + old(self)@.entries[k].1.len()
                &&& final(self)@.free == old(self)@.free
            },
    {
        match self.find(id) {
            Some(k) => {
                let blocks = self.remove_at(k);
                self.borrowed_count = self.borrowed_count + blocks.len();
                Some(blocks)
            },
            None => None,
        }
    }

    /// Lends out blocks for `bytes` zero bytes, one unit per block: none if
    /// more than a largest buffer is asked for, or if not enough blocks can
    /// be had.
    pub fn allocate_empty_buffer(&mut self, bytes: usize) -> (r: Option<Vec<BlockMemBuffer>>)
        requires
            old(self).wf(),
            bytes <= MAX_ALLOCATION_SIZE ==> within_limits(old(self)@),
            bytes <= MAX_ALLOCATION_SIZE ==> old(self)@.borrowed + spec_allocation_count(bytes as u32) <= usize::MAX,
        ensures
            final(self).wf(),
            bytes > MAX_ALLOCATION_SIZE ==> r is None && final(self)@ == old(self)@,
            bytes <= MAX_ALLOCATION_SIZE && !can_alloc(old(self)@, spec_allocation_count(bytes as u32))
                ==> r is None && final(self)@ == old(self)@,
            bytes <= MAX_ALLOCATION_SIZE && can_alloc(old(self)@, spec_allocation_count(bytes as u32)) ==> {
                &&& r is Some
                &&& blocks_view(r->0@) == zero_blocks(bytes as int)
                &&& final(self)@.entries == old(self)@.entries
                &&& final(self)@.free == free_after(old(self)@.free, spec_allocation_count(bytes as u32))
                &&& final(self)@.borrowed == old(self)@.borrowed + spec_allocation_count(bytes as u32)
            },
    {
        if bytes > MAX_ALLOCATION_SIZE {
            return None;
        }
        proof { lemma_unit_count(bytes as int); }
        let n = (bytes + MIN_ALLOCATION_SIZE - 1) / MIN_ALLOCATION_SIZE;
        let mut blocks = match self.alloc_n_buffers(n) {
            Some(b) => b,
            None => {
                proof { assert(self@ == old(self)@); }
                return None;
            },
        };
        let ghost want = zero_blocks(bytes as int);
        let mut filled: Vec<BlockMemBuffer> = Vec::new();
        let mut i: usize = 0;
        while i < n
            invariant
                n == spec_allocation_count(bytes as u32),
                n <= 64,
                bytes <= MAX_ALLOCATION_SIZE,
                n == 0 || (n - 1) * MIN_ALLOCATION_SIZE < bytes,
                want == zero_blocks(bytes as int),
                i <= n,
                blocks@.len() == n - i,
                filled@.len() == i,
                forall|k: int| 0 <= k < i ==> bytes_view((#[trigger] filled@[k]).0) == want[k],
            decreases n - i,
        {
            proof {
                assert(i * MIN_ALLOCATION_SIZE < bytes) by (nonlinear_arith)
                    requires
                        i < n,
                        (n - 1) * MIN_ALLOCATION_SIZE < bytes,
                        MIN_ALLOCATION_SIZE > 0,
                ;
                assert((i + 1) * MIN_ALLOCATION_SIZE == i * MIN_ALLOCATION_SIZE + MIN_ALLOCATION_SIZE) by (nonlinear_arith);
            }
            let start = i * MIN_ALLOCATION_SIZE;
            let size = if start + MIN_ALLOCATION_SIZE <= bytes { MIN_ALLOCATION_SIZE } else { bytes - start };
            let mut b = blocks.remove(0);
            bytes_clear(&mut b.0);
            if bytes_capacity(&b.0) < MIN_ALLOCATION_SIZE {
                bytes_resize(&mut b.0, MIN_ALLOCATION_SIZE, 0);
            }
            bytes_resize(&mut b.0, size, 0);
            proof {
                assert(size == chunk_len(bytes as int, i as int));
                assert(bytes_view(b.0) =~= want[i as int]);
            }
            filled.push(b);
            i += 1;
        }
        proof {
            assert(blocks_view(filled@) =~= want);
        }
        self.borrowed_count = self.borrowed_count + n;
        Some(filled)
    }

    /// Takes back lent blocks holding buffer `id` (of `id.size` bytes), and
    /// records it; one block fewer counts as lent out.
    pub fn return_associated_buffer(&mut self, id: BufferId, buffer: Vec<BlockMemBuffer>)
        requires
            old(self).wf(),
            old(self)@.borrowed > 0,
            concat(blocks_view(buffer@)).len() == id.size,
        ensures
            final(self).wf(),
            final(self)@.entries == put_held(old(self)@.entries, id, blocks_view(buffer@)),
            final(self)@.borrowed == old(self)@.borrowed - 1,
            final(self)@.free == old(self)@.free,
    {
        self.borrowed_count = self.borrowed_count - 1;
        self.put_entry(&id, buffer);
    }

    /// Takes back lent blocks no longer needed: they stop counting as lent
    /// out, and each is kept for reuse while fewer blocks than normal use
    /// allows are kept.
    pub fn put_back_mem(&mut self, buffer: Vec<BlockMemBuffer>)
        requires
            old(self).wf(),
            old(self)@.borrowed > buffer@.len(),
        ensures
            final(self).wf(),
            final(self)@.borrowed == old(self)@.borrowed - buffer@.len(),
            final(self)@.entries == old(self)@.entries,
            final(self)@.free == min_nat(old(self)@.free + buffer@.len(), if old(self)@.free >= old(self)@.max_count { old(self)@.free } else { old(self)@.max_count as nat }),
    {
        self.borrowed_count = self.borrowed_count - buffer.len();
        let mut rest = buffer;
        let n = rest.len();
        let ghost f0 = self@.free;
        let ghost cap: nat = if f0 >= self@.max_count { f0 } else { self@.max_count as nat };
        let mut i: usize = 0;
        while i < n
            invariant
                i <= n,
                rest@.len() == n - i,
                self.wf(),
                self@.free == min_nat((f0 + i) as nat, cap),
                cap == (if f0 >= self@.max_count { f0 } else { self@.max_count as nat }),
                self@.entries == old(self)@.entries,
                self@.max_count == old(self)@.max_count,
                self@.borrowed == old(self)@.borrowed - n,
            decreases n - i,
        {
            let b = rest.remove(0);
            self.put_back_one(b);
            i += 1;
        }
    }

    /// Every buffer of process `pid` is dropped, its blocks kept for reuse
    /// while fewer blocks than normal use allows are kept.
    pub fn release_process_residual(&mut self, pid: i32)
        requires
            old(self).wf(),
        ensures
            final(self).wf(),
            final(self)@.entries == held_without_pid(old(self)@.entries, pid),
            final(self)@.borrowed == old(self)@.borrowed,
    {
        let ghost es0 = self@.entries;
        let mut kept: Vec<(BufferId, Vec<BlockMemBuffer>)> = Vec::new();
        let mut old_entries: Vec<(BufferId, Vec<BlockMemBuffer>)> = Vec::new();
        std::mem::swap(&mut old_entries, &mut self.mem_bookkeeping);
        let n = old_entries.len();
        let mut i: usize = 0;
        proof {
            assert(es0 =~= Seq::new(old_entries@.len(), |q: int| (old_entries@[q].0, blocks_view(old_entries@[q].1@))));
        }
        while i < n
            invariant
                n == es0.len(),
                i <= n,
                old_entries@.len() == n - i,
                forall|q: int| 0 <= q < n - i ==> (#[trigger] old_entries@[q]).0 == es0[q + i].0
                    && blocks_view(old_entries@[q].1@) == es0[q + i].1,
                self.mem_bookkeeping@.len() == 0,
                held_unique(es0),
                self.max_mem_buffer_count <= usize::MAX / MIN_ALLOCATION_SIZE,
                self.extra_burst_mem_buffer_count <= usize::MAX / MIN_ALLOCATION_SIZE,
                self.borrowed_count == old(self).borrowed_count,
                Seq::new(kept@.len(), |q: int| (kept@[q].0, blocks_view(kept@[q].1@))) == held_without_pid(es0.take(i as int), pid),
            decreases n - i,
        {
            proof {
                assert(es0.take(i + 1).drop_last() =~= es0.take(i as int));
                assert(es0.take(i + 1).last() == es0[i as int]);
                assert(old_entries@[0].0 == es0[i as int].0);
            }
            let ghost kv = Seq::new(kept@.len(), |q: int| (kept@[q].0, blocks_view(kept@[q].1@)));
            let ghost oe = old_entries@;
            let (id, mut blocks) = old_entries.remove(0);
            proof {
                assert forall|q: int| 0 <= q < n - (i + 1) implies (#[trigger] old_entries@[q]).0 == es0[q + i + 1].0
                    && blocks_view(old_entries@[q].1@) == es0[q + i + 1].1 by {
                    assert(old_entries@[q] == oe[q + 1]);
                }
            }
            if id.pid == pid {
                while blocks.len() > 0
                    invariant
                        self.mem_bookkeeping@.len() == 0,
                        self.max_mem_buffer_count <= usize::MAX / MIN_ALLOCATION_SIZE,
                        self.extra_burst_mem_buffer_count <= usize::MAX / MIN_ALLOCATION_SIZE,
                        self.borrowed_count == old(self).borrowed_count,
                    decreases blocks@.len(),
                {
                    let b = blocks.pop().unwrap();
                    if self.free_mem_buffers.len() < self.max_mem_buffer_count {
                        self.free_mem_buffers.push(b);
                    }
                }
            } else {
                let ghost bv = blocks_view(blocks@);
                kept.push((id, blocks));
                proof {
                    assert(bv == es0[i as int].1);
                    assert(Seq::new(kept@.len(), |q: int| (kept@[q].0, blocks_view(kept@[q].1@))) =~= kv.push((id, bv)));
                }
            }
            i += 1;
        }
        proof {
            assert(es0.take(n as int) =~= es0);
            lemma_held_without_pid_unique(es0, pid);
        }
        self.mem_bookkeeping = kept;
    }

    /// Each buffer with the room its blocks take (as a `u32`, truncated).
    pub fn dump_buffers(&self) -> (d: Vec<(BufferId, AllocationCapacity)>)
        requires
            forall|i: int| 0 <= i < self@.entries.len() ==> (#[trigger] self@.entries[i]).1.len() * MIN_ALLOCATION_SIZE <= usize::MAX,
        ensures
            d@.len() == self@.entries.len(),
            forall|i: int| 0 <= i < d@.len() ==> (#[trigger] d@[i]).0 == self@.entries[i].0
                && d@[i].1.0 == (self@.entries[i].1.len() * MIN_ALLOCATION_SIZE) as u32,
    {
        let mut d: Vec<(BufferId, AllocationCapacity)> = Vec::new();
        let mut i: usize = 0;
        while i < self.mem_bookkeeping.len()
            invariant
                i <= self@.entries.len(),
                d@.len() == i,
                forall|k: int| 0 <= k < self@.entries.len() ==> (#[trigger] self@.entries[k]).1.len() * MIN_ALLOCATION_SIZE <= usize::MAX,
                forall|k: int| 0 <= k < i ==> (#[trigger] d@[k]).0 == self@.entries[k].0
                    && d@[k].1.0 == (self@.entries[k].1.len() * MIN_ALLOCATION_SIZE) as u32,
            decreases self@.entries.len() - i,
        {
            proof {
                assert(self@.entries[i as int].1.len() == self.mem_bookkeeping@[i as int].1@.len());
            }
            let n = self.mem_bookkeeping[i].1.len();
            let bytes = n * MIN_ALLOCATION_SIZE;
            d.push((self.mem_bookkeeping[i].0, AllocationCapacity(bytes as u32)));
            i += 1;
        }
        d
    }
}

/// The smaller of two naturals.
pub open spec fn min_nat(a: nat, b: nat) -> nat {
    if a <= b { a } else { b }
}

/// The buffers of `es` not of process `pid`, in order.
pub open spec fn held_without_pid(es: Seq<(BufferId, Seq<Seq<u8>>)>, pid: i32) -> Seq<(BufferId, Seq<Seq<u8>>)>
    decreases es.len(),
{
    if es.len() == 0 {
        Seq::empty()
    } else if es.last().0.pid == pid {
        held_without_pid(es.drop_last(), pid)
    } else {
        held_without_pid(es.drop_last(), pid).push(es.last())
    }
}

proof fn lemma_held_without_pid_unique(es: Seq<(BufferId, Seq<Seq<u8>>)>, pid: i32)
    requires
        held_unique(es),
    ensures
        held_unique(held_without_pid(es, pid)),
        forall|q: int| 0 <= q < held_without_pid(es, pid).len() ==> #[trigger] es.contains(held_without_pid(es, pid)[q]),
    decreases es.len(),
{
    if es.len() > 0 {
        let d = es.drop_last();
        assert forall|a: int, b: int| 0 <= a < d.len() && 0 <= b < d.len() && a != b implies (#[trigger] d[a]).0 != (#[trigger] d[b]).0 by {
            assert(d[a] == es[a] && d[b] == es[b]);
        }
        lemma_held_without_pid_unique(d, pid);
        let w = held_without_pid(d, pid);
        let r = held_without_pid(es, pid);
        assert forall|q: int| 0 <= q < r.len() implies #[trigger] es.contains(r[q]) by {
            if q < w.len() {
                assert(d.contains(w[q]));
                let j = choose|j: int| 0 <= j < d.len() && d[j] == w[q];
                assert(es[j] == d[j]);
            } else {
                assert(es[es.len() - 1] == es.last());
            }
        }
        if es.last().0.pid != pid {
            assert forall|a: int, b: int| 0 <= a < r.len() && 0 <= b < r.len() && a != b implies (#[trigger] r[a]).0 != (#[trigger] r[b]).0 by {
                if a < w.len() && b < w.len() {
                } else if a < w.len() {
                    assert(d.contains(w[a]));
                    let j = choose|j: int| 0 <= j < d.len() && d[j] == w[a];
                    assert(es[j] == d[j]);
                    assert(es[j].0 != es[es.len() - 1].0);
                } else if b < w.len() {
                    assert(d.contains(w[b]));
                    let j = choose|j: int| 0 <= j < d.len() && d[j] == w[b];
                    assert(es[j] == d[j]);
                    assert(es[j].0 != es[es.len() - 1].0);
                }
            }
        }
    }
}

} // verus!
