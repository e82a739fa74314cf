//! The client side's cache of freed device blocks, per device: blocks are
//! kept by size and handed out again for requests up to half their size,
//! smallest size first and, within a size, oldest first.
//!
//! Whether a cached block may be reused yet depends on an event of the
//! device that only the caller can query: the cache lists the candidates
//! in order, the caller queries their events, and `try_alloc` hands out the
//! first candidate whose event completed.

use vstd::prelude::*;

verus! {

/// The number of devices a process may see.
pub const MAX_GPUS: usize = 8;

/// A freed device block: its address, its size, and the event that tells
/// when the device is done with it.
#[derive(Debug)]
pub struct CachedBlock<E> {
    pub ptr: u64,
    pub actual_size: usize,
    pub event: E,
}

/// The blocks of each size, by increasing size, each size with its blocks
/// oldest first.
pub type Buckets<E> = Seq<(usize, Seq<CachedBlock<E>>)>;

/// The bytes the buckets `bs` hold.
pub open spec fn pool_bytes<E>(bs: Buckets<E>) -> int
    decreases bs.len(),
{
    if bs.len() == 0 {
        0
    } else {
        pool_bytes(bs.drop_last()) + bs.last().0 * bs.last().1.len()
    }
}

/// The buckets are ordered by strictly increasing size, none is empty, and
/// each block lies in the bucket of its size.
pub open spec fn buckets_wf<E>(bs: Buckets<E>) -> bool {
    &&& forall|a: int, b: int| 0 <= a < b < bs.len() ==> (#[trigger] bs[a]).0 < (#[trigger] bs[b]).0
    &&& forall|i: int| 0 <= i < bs.len() ==> (#[trigger] bs[i]).1.len() > 0
    &&& forall|i: int, j: int| 0 <= i < bs.len() && 0 <= j < bs[i].1.len() ==> (#[trigger] bs[i].1[j]).actual_size == bs[i].0
}

/// The position of the bucket of size `k`, if there is one.
pub open spec fn has_bucket<E>(bs: Buckets<E>, k: usize) -> bool {
    exists|i: int| 0 <= i < bs.len() && (#[trigger] bs[i]).0 == k
}

/// The position of the bucket of size `k`.
pub open spec fn bucket_index<E>(bs: Buckets<E>, k: usize) -> int {
    choose|i: int| 0 <= i < bs.len() && (#[trigger] bs[i]).0 == k
}

/// The number of buckets smaller than `k`: where a bucket of size `k`
/// goes.
pub open spec fn insert_pos<E>(bs: Buckets<E>, k: usize) -> int {
    choose|p: int| 0 <= p <= bs.len() && (forall|q: int| 0 <= q < p ==> (#[trigger] bs[q]).0 < k)
        && (p < bs.len() ==> bs[p].0 > k)
}

/// The buckets after `b` is cached: appended to the bucket of its size, or
/// in a new bucket in its place.
pub open spec fn spec_cache<E>(bs: Buckets<E>, b: CachedBlock<E>) -> Buckets<E> {
    let k = b.actual_size;
    if has_bucket(bs, k) {
        bs.update(bucket_index(bs, k), (k, bs[bucket_index(bs, k)].1.push(b)))
    } else {
        bs.insert(insert_pos(bs, k), (k, seq![b]))
    }
}

/// The buckets after block `j` of bucket `i` is taken out, an emptied
/// bucket dropped.
pub open spec fn spec_take<E>(bs: Buckets<E>, i: int, j: int) -> Buckets<E> {
    if bs[i].1.len() == 1 {
        bs.remove(i)
    } else {
        bs.update(i, (bs[i].0, bs[i].1.remove(j)))
    }
}

/// The candidates for a request of `lo` bytes among the buckets from
/// position `i` on: every block of a size between `lo` and `hi`, as
/// (bucket, position), by increasing size and oldest first.
pub open spec fn candidates_from<E>(bs: Buckets<E>, lo: usize, hi: usize, i: int) -> Seq<(usize, usize)>
    decreases bs.len() - i,
{
    if i >= bs.len() || i < 0 {
        Seq::empty()
    } else {
        let here = if lo <= bs[i].0 <= hi {
            Seq::new(bs[i].1.len(), |j: int| (i as usize, j as usize))
        } else {
            Seq::empty()
        };
        here + candidates_from(bs, lo, hi, i + 1)
    }
}

/// Position `c` (bucket, place) holds a block of `bs`.
pub open spec fn valid_position<E>(bs: Buckets<E>, c: (usize, usize)) -> bool {
    (c.0 as int) < bs.len() && (c.1 as int) < bs[c.0 as int].1.len()
}

/// The first position from `i` on whose flag is set, if any.
pub open spec fn first_ready(ready: Seq<bool>, i: int) -> Option<int>
    decreases ready.len() - i,
{
    if i < 0 || i >= ready.len() {
        None
    } else if ready[i] {
        Some(i)
    } else {
        first_ready(ready, i + 1)
    }
}

/// All blocks of the buckets, by increasing size and oldest first.
pub open spec fn flatten<E>(bs: Buckets<E>) -> Seq<CachedBlock<E>>
    decreases bs.len(),
{
    if bs.len() == 0 {
        Seq::empty()
    } else {
        flatten(bs.drop_last()) + bs.last().1
    }
}

/// Twice `s`, capped at `usize::MAX`.
pub open spec fn double_capped(s: usize) -> usize {
    if 2 * s <= usize::MAX { (2 * s) as usize } else { usize::MAX }
}

/// The cache of one device.
pub struct DevicePool<E> {
    blocks: Vec<(usize, Vec<CachedBlock<E>>)>,
    cached_bytes: usize,
}

/// The buckets with their blocks as plain sequences.
pub open spec fn buckets_view<E>(v: Seq<(usize, Vec<CachedBlock<E>>)>) -> Buckets<E> {
    Seq::new(v.len(), |i: int| (v[i].0, v[i].1@))
}

proof fn lemma_bytes_update<E>(bs: Buckets<E>, i: int, l: Seq<CachedBlock<E>>)
    requires
        0 <= i < bs.len(),
    ensures
        pool_bytes(bs.update(i, (bs[i].0, l))) == pool_bytes(bs) - bs[i].0 * bs[i].1.len() + bs[i].0 * l.len(),
    decreases bs.len(),
{
    let n = bs.update(i, (bs[i].0, l));
    if i < bs.len() - 1 {
        assert(n.drop_last() =~= bs.drop_last().update(i, (bs[i].0, l)));
        lemma_bytes_update(bs.drop_last(), i, l);
    } else {
        assert(n.drop_last() =~= bs.drop_last());
    }
}

proof fn lemma_bytes_insert<E>(bs: Buckets<E>, p: int, x: (usize, Seq<CachedBlock<E>>))
    requires
        0 <= p <= bs.len(),
    ensures
        pool_bytes(bs.insert(p, x)) == pool_bytes(bs) + x.0 * x.1.len(),
    decreases bs.len(),
{
    let n = bs.insert(p, x);
    if p < bs.len() {
        assert(n.drop_last() =~= bs.drop_last().insert(p, x));
        lemma_bytes_insert(bs.drop_last(), p, x);
    } else {
        assert(n.drop_last() =~= bs);
    }
}

proof fn lemma_bytes_remove<E>(bs: Buckets<E>, i: int)
    requires
        0 <= i < bs.len(),
    ensures
        pool_bytes(bs.remove(i)) == pool_bytes(bs) - bs[i].0 * bs[i].1.len(),
    decreases bs.len(),
{
    let n = bs.remove(i);
    if i < bs.len() - 1 {
        assert(n.drop_last() =~= bs.drop_last().remove(i));
        lemma_bytes_remove(bs.drop_last(), i);
    } else {
        assert(n =~= bs.drop_last());
    }
}

proof fn lemma_bytes_nonneg<E>(bs: Buckets<E>)
    ensures
        pool_bytes(bs) >= 0,
    decreases bs.len(),
{
    if bs.len() > 0 {
        lemma_bytes_nonneg(bs.drop_last());
        assert(bs.last().0 * bs.last().1.len() >= 0) by (nonlinear_arith);
    }
}

proof fn lemma_cache_update<E>(bs: Buckets<E>, p: int, blk: CachedBlock<E>)
    requires
        buckets_wf(bs),
        0 <= p < bs.len(),
        bs[p].0 == blk.actual_size,
    ensures
        buckets_wf(bs.update(p, (blk.actual_size, bs[p].1.push(blk)))),
        pool_bytes(bs.update(p, (blk.actual_size, bs[p].1.push(blk)))) == pool_bytes(bs) + blk.actual_size,
{
    let k = blk.actual_size;
    let nb = bs.update(p, (k, bs[p].1.push(blk)));
    lemma_bytes_update(bs, p, bs[p].1.push(blk));
    assert(k * (bs[p].1.len() + 1) == k * bs[p].1.len() + k) by (nonlinear_arith);
    assert forall|i: int, j: int| 0 <= i < nb.len() && 0 <= j < nb[i].1.len() implies (#[trigger] nb[i].1[j]).actual_size == nb[i].0 by {
        if i != p {
            assert(nb[i] == bs[i]);
        } else if j < bs[i].1.len() {
            assert(nb[i].1[j] == bs[i].1[j]);
        }
    }
    assert forall|a: int, c: int| 0 <= a < c < nb.len() implies (#[trigger] nb[a]).0 < (#[trigger] nb[c]).0 by {
        assert(nb[a].0 == bs[a].0 && nb[c].0 == bs[c].0);
    }
    assert forall|a: int| 0 <= a < nb.len() implies (#[trigger] nb[a]).1.len() > 0 by {
        if a != p {
            assert(nb[a] == bs[a]);
        }
    }
}

proof fn lemma_cache_insert<E>(bs: Buckets<E>, p: int, blk: CachedBlock<E>)
    requires
        buckets_wf(bs),
        0 <= p <= bs.len(),
        forall|q: int| 0 <= q < p ==> (#[trigger] bs[q]).0 < blk.actual_size,
        p < bs.len() ==> bs[p].0 > blk.actual_size,
    ensures
        buckets_wf(bs.insert(p, (blk.actual_size, seq![blk]))),
        pool_bytes(bs.insert(p, (blk.actual_size, seq![blk]))) == pool_bytes(bs) + blk.actual_size,
{
    let k = blk.actual_size;
    let nb = bs.insert(p, (k, seq![blk]));
    lemma_bytes_insert(bs, p, (k, seq![blk]));
    let one = seq![blk];
    assert(one.len() == 1);
    assert(k * one.len() == k) by (nonlinear_arith)
        requires
            one.len() == 1,
    ;
    assert forall|a: int, b: int| 0 <= a < b < nb.len() implies (#[trigger] nb[a]).0 < (#[trigger] nb[b]).0 by {
        if b < p {
            assert(nb[a] == bs[a] && nb[b] == bs[b]);
        } else if b == p {
            assert(nb[a] == bs[a]);
        } else if a < p {
            assert(nb[a] == bs[a] && nb[b] == bs[b - 1]);
            if b - 1 > p {
                assert(bs[p].0 < bs[b - 1].0);
            }
        } else if a == p {
            assert(nb[b] == bs[b - 1]);
            if b - 1 > p {
                assert(bs[p].0 < bs[b - 1].0);
            }
        } else {
            assert(nb[a] == bs[a - 1] && nb[b] == bs[b - 1]);
        }
    }
    assert forall|i: int| 0 <= i < nb.len() implies (#[trigger] nb[i]).1.len() > 0 by {
        if i < p {
            assert(nb[i] == bs[i]);
        } else if i > p {
            assert(nb[i] == bs[i - 1]);
        }
    }
    assert forall|i: int, j: int| 0 <= i < nb.len() && 0 <= j < nb[i].1.len() implies (#[trigger] nb[i].1[j]).actual_size == nb[i].0 by {
        if i < p {
            assert(nb[i] == bs[i]);
        } else if i > p {
            assert(nb[i] == bs[i - 1]);
        }
    }
}

impl<E> DevicePool<E> {
    /// The buckets.
    pub closed spec fn spec_buckets(&self) -> Buckets<E> {
        buckets_view(self.blocks@)
    }

    /// The bytes cached.
    pub closed spec fn spec_bytes(&self) -> usize {
        self.cached_bytes
    }

    /// The buckets are well formed and the byte count is their total.
    pub closed spec fn wf(&self) -> bool {
        &&& buckets_wf(self.spec_buckets())
        &&& self.cached_bytes == pool_bytes(self.spec_buckets())
    }

    /// An empty cache.
    pub fn new() -> (p: Self)
        ensures
            p.wf(),
            p.spec_buckets() == Seq::<(usize, Seq<CachedBlock<E>>)>::empty(),
            p.spec_bytes() == 0,
    {
        let p = DevicePool { blocks: Vec::new(), cached_bytes: 0 };
        proof {
            assert(p.spec_buckets() =~= Seq::<(usize, Seq<CachedBlock<E>>)>::empty());
        }
        p
    }

    /// The bytes cached.
    pub fn cached_bytes(&self) -> (b: usize)
        ensures
            b == self.spec_bytes(),
    {
        self.cached_bytes
    }

    /// Caches the freed block `block`: after the other blocks of its size.
    #[verifier::spinoff_prover]
    #[verifier::rlimit(30)]
    pub fn cache_free(&mut self, block: CachedBlock<E>)
        requires
            old(self).wf(),
            old(self).spec_bytes() + block.actual_size <= usize::MAX,
        ensures
            final(self).wf(),
            final(self).spec_buckets() == spec_cache(old(self).spec_buckets(), block),
            final(self).spec_bytes() == old(self).spec_bytes() + block.actual_size,
    {
        let ghost bs = self.spec_buckets();
        let k = block.actual_size;
        let mut p: usize = 0;
        while p < self.blocks.len() && self.blocks[p].0 < k
            invariant
                p <= self.blocks@.len(),
                bs == buckets_view(self.blocks@),
                forall|q: int| 0 <= q < p ==> (#[trigger] bs[q]).0 < k,
            decreases self.blocks@.len() - p,
        {
            p += 1;
        }
        let ghost blk = block;
        self.cached_bytes = self.cached_bytes + k;
        if p < self.blocks.len() && self.blocks[p].0 == k {
            proof {
                assert(bs[p as int].0 == k);
                let w = bucket_index(bs, k);
                if w != p as int {
                    assert(bs[w].0 == k);
                    if w < p {
                        assert(bs[w].0 < k);
                    } else {
                        assert(bs[p as int].0 < bs[w].0);
                    }
                }
            }
            let mut entry = self.blocks.remove(p);
            entry.1.push(block);
            self.blocks.insert(p, entry);
            proof {
                assert(self.spec_buckets() =~= bs.update(p as int, (k, bs[p as int].1.push(blk))));
                lemma_cache_update(bs, p as int, blk);
            }
        } else {
            proof {
                if has_bucket(bs, k) {
                    let w = bucket_index(bs, k);
                    if w < p {
                        assert(bs[w].0 < k);
                    } else if w > p {
                        assert(bs[p as int].0 < bs[w].0);
                    }
                }
                let ip = insert_pos(bs, k);
                assert(0 <= p <= bs.len() && (forall|q: int| 0 <= q < p ==> (#[trigger] bs[q]).0 < k) && (p < bs.len() ==> bs[p as int].0 > k));
                if ip < p {
                    assert(bs[ip].0 > k);
                    assert(bs[ip].0 < k);
                } else if ip > p {
                    assert(bs[p as int].0 < k);
                }
            }
            let mut v: Vec<CachedBlock<E>> = Vec::new();
            v.push(block);
            self.blocks.insert(p, (k, v));
            proof {
                assert(self.spec_buckets() =~= bs.insert(p as int, (k, seq![blk])));
                lemma_cache_insert(bs, p as int, blk);
            }
        }
    }

    /// The candidates for a request of `effective_size` bytes: every block
    /// of a size from `effective_size` up to twice that (capped at
    /// `usize::MAX`), as (bucket, position), smallest size first and, within
    /// a size, oldest first.
    pub fn candidates(&self, effective_size: usize) -> (c: Vec<(usize, usize)>)
        requires
            self.wf(),
        ensures
            c@ == candidates_from(self.spec_buckets(), effective_size, double_capped(effective_size), 0),
            forall|k: int| 0 <= k < c@.len() ==> valid_position(self.spec_buckets(), #[trigger] c@[k]),
    {
        let hi: usize = if effective_size <= usize::MAX / 2 { effective_size * 2 } else { usize::MAX };
        let ghost bs = self.spec_buckets();
        let n = self.blocks.len();
        let mut out: Vec<(usize, usize)> = Vec::new();
        let mut i: usize = 0;
        while i < n
            invariant
                n == bs.len(),
                bs == self.spec_buckets(),
                i <= n,
                out@ + candidates_from(bs, effective_size, hi, i as int) == candidates_from(bs, effective_size, hi, 0),
                forall|k: int| 0 <= k < out@.len() ==> valid_position(bs, #[trigger] out@[k]),
            decreases n - i,
        {
            let key = self.blocks[i].0;
            let len = self.blocks[i].1.len();
            let ghost before = out@;
            if effective_size <= key && key <= hi {
                let mut j: usize = 0;
                while j < len
                    invariant
                        j <= len,
                        len == bs[i as int].1.len(),
                        out@ == before + Seq::new(j as nat, |q: int| (i as usize, q as usize)),
                        i < n,
                        n == bs.len(),
                        forall|k: int| 0 <= k < out@.len() ==> valid_position(bs, #[trigger] out@[k]),
                    decreases len - j,
                {
                    out.push((i, j));
                    j += 1;
                    proof {
                        assert(out@ =~= before + Seq::new(j as nat, |q: int| (i as usize, q as usize)));
                    }
                }
                proof {
                    assert(Seq::new(j as nat, |q: int| (i as usize, q as usize))
                        =~= Seq::new(bs[i as int].1.len(), |q: int| (i as usize, q as usize)));
                }
            }
            proof {
                let here = if effective_size <= bs[i as int].0 <= hi {
                    Seq::new(bs[i as int].1.len(), |q: int| (i as usize, q as usize))
                } else {
                    Seq::<(usize, usize)>::empty()
                };
                assert(candidates_from(bs, effective_size, hi, i as int) == here + candidates_from(bs, effective_size, hi, i + 1));
                assert(out@ =~= before + here);
                assert(before + (here + candidates_from(bs, effective_size, hi, i + 1))
                    =~= (before + here) + candidates_from(bs, effective_size, hi, i + 1));
            }
            i += 1;
        }
        proof {
            assert(out@ =~= out@ + candidates_from(bs, effective_size, hi, n as int));
        }
        out
    }

    /// The block at position `j` of bucket `i`.
    pub fn block_at(&self, i: usize, j: usize) -> (b: &CachedBlock<E>)
        requires
            i < self.spec_buckets().len(),
            j < self.spec_buckets()[i as int].1.len(),
        ensures
            *b == self.spec_buckets()[i as int].1[j as int],
    {
        &self.blocks[i].1[j]
    }

    /// Hands out a cached block for a request of `effective_size` bytes:
    /// the first candidate (see `candidates`) whose event has completed,
    /// as `ready` tells for each candidate in order; nothing if none has.
    pub fn try_alloc(&mut self, effective_size: usize, ready: &Vec<bool>) -> (r: Option<CachedBlock<E>>)
        requires
            old(self).wf(),
            ready@.len() == candidates_from(old(self).spec_buckets(), effective_size, double_capped(effective_size), 0).len(),
        ensures
            final(self).wf(),
            match first_ready(ready@, 0) {
                None => r is None && final(self).spec_buckets() == old(self).spec_buckets()
                    && final(self).spec_bytes() == old(self).spec_bytes(),
                Some(k) => {
                    let c = candidates_from(old(self).spec_buckets(), effective_size, double_capped(effective_size), 0)[k];
                    &&& r == Some(old(self).spec_buckets()[c.0 as int].1[c.1 as int])
                    &&& final(self).spec_buckets() == spec_take(old(self).spec_buckets(), c.0 as int, c.1 as int)
                    &&& final(self).spec_bytes() == old(self).spec_bytes() - old(self).spec_buckets()[c.0 as int].1[c.1 as int].actual_size
                },
            },
    {
        let c = self.candidates(effective_size);
        let mut k: usize = 0;
        while k < c.len() && !ready[k]
            invariant
                k <= c@.len(),
                c@.len() == ready@.len(),
                first_ready(ready@, 0) == first_ready(ready@, k as int),
            decreases c@.len() - k,
        {
            k += 1;
        }
        if k < c.len() {
            let (i, j) = c[k];
            proof {
                assert(valid_position(self.spec_buckets(), c@[k as int]));
            }
            Some(self.take(i, j))
        } else {
            None
        }
    }

    /// Takes out the block at position `j` of bucket `i` (see `spec_take`).
    pub fn take(&mut self, i: usize, j: usize) -> (b: CachedBlock<E>)
        requires
            old(self).wf(),
            i < old(self).spec_buckets().len(),
            j < old(self).spec_buckets()[i as int].1.len(),
        ensures
            final(self).wf(),
            b == old(self).spec_buckets()[i as int].1[j as int],
            final(self).spec_buckets() == spec_take(old(self).spec_buckets(), i as int, j as int),
            final(self).spec_bytes() == old(self).spec_bytes() - b.actual_size,
    {
        let ghost bs = self.spec_buckets();
        let mut entry = self.blocks.remove(i);
        let ghost l0 = entry.1@;
        let b = entry.1.remove(j);
        proof {
            assert(b.actual_size == bs[i as int].0);
            lemma_bytes_nonneg(bs);
            assert(bs[i as int].0 * l0.len() >= bs[i as int].0) by (nonlinear_arith)
                requires
                    l0.len() >= 1,
            ;
            lemma_bytes_remove(bs, i as int);
            lemma_bytes_nonneg(bs.remove(i as int));
        }
        self.cached_bytes = self.cached_bytes - b.actual_size;
        if entry.1.len() > 0 {
            self.blocks.insert(i, entry);
            proof {
                let nb = self.spec_buckets();
                assert(nb =~= bs.update(i as int, (bs[i as int].0, l0.remove(j as int))));
                lemma_bytes_update(bs, i as int, l0.remove(j as int));
                assert(bs[i as int].0 * l0.len() == bs[i as int].0 * (l0.len() - 1) + bs[i as int].0) by (nonlinear_arith);
                assert forall|a: int, c: int| 0 <= a < nb.len() && 0 <= c < nb[a].1.len() implies (#[trigger] nb[a].1[c]).actual_size == nb[a].0 by {
                    if a != i {
                        assert(nb[a] == bs[a]);
                    } else if c < j {
                        assert(nb[a].1[c] == l0[c]);
                    } else {
                        assert(nb[a].1[c] == l0[c + 1]);
                    }
                }
                assert forall|a: int| 0 <= a < nb.len() implies (#[trigger] nb[a]).1.len() > 0 by {
                    if a != i {
                        assert(nb[a] == bs[a]);
                    }
                }
                assert forall|a: int, c: int| 0 <= a < c < nb.len() implies (#[trigger] nb[a]).0 < (#[trigger] nb[c]).0 by {
                    assert(nb[a].0 == bs[a].0 && nb[c].0 == bs[c].0);
                }
            }
        } else {
            proof {
                let nb = self.spec_buckets();
                assert(nb =~= bs.remove(i as int));
                assert(bs[i as int].0 * l0.len() == bs[i as int].0) by (nonlinear_arith)
                    requires
                        l0.len() == 1,
                ;
                assert forall|a: int, c: int| 0 <= a < c < nb.len() implies (#[trigger] nb[a]).0 < (#[trigger] nb[c]).0 by {
                    let a0 = if a < i { a } else { a + 1 };
                    let c0 = if c < i { c } else { c + 1 };
                    assert(nb[a] == bs[a0] && nb[c] == bs[c0]);
                }
                assert forall|a: int| 0 <= a < nb.len() implies (#[trigger] nb[a]).1.len() > 0 by {
                    let a0 = if a < i { a } else { a + 1 };
                    assert(nb[a] == bs[a0]);
                }
                assert forall|a: int, c: int| 0 <= a < nb.len() && 0 <= c < nb[a].1.len() implies (#[trigger] nb[a].1[c]).actual_size == nb[a].0 by {
                    let a0 = if a < i { a } else { a + 1 };
                    assert(nb[a] == bs[a0]);
                }
            }
        }
        b
    }

    /// Takes out the cached block at address `ptr`, if there is one: the
    /// first such block, by increasing size and oldest first.
    pub fn remove_by_ptr(&mut self, ptr: u64) -> (r: Option<CachedBlock<E>>)
        requires
            old(self).wf(),
        ensures
            final(self).wf(),
            match r {
                None => *final(self) == *old(self)
                    && forall|i: int, j: int| 0 <= i < old(self).spec_buckets().len() && 0 <= j < old(self).spec_buckets()[i].1.len()
                        ==> (#[trigger] old(self).spec_buckets()[i].1[j]).ptr != ptr,
                Some(b) => b.ptr == ptr && exists|i: int, j: int|
                    0 <= i < old(self).spec_buckets().len() && 0 <= j < old(self).spec_buckets()[i].1.len()
                    && b == old(self).spec_buckets()[i].1[j]
                    && final(self).spec_buckets() == spec_take(old(self).spec_buckets(), i, j)
                    && final(self).spec_bytes() == old(self).spec_bytes() - b.actual_size
                    && (forall|i2: int, j2: int| (0 <= i2 < i && 0 <= j2 < old(self).spec_buckets()[i2].1.len())
                        || (i2 == i && 0 <= j2 < j) ==> (#[trigger] old(self).spec_buckets()[i2].1[j2]).ptr != ptr),
            },
    {
        let ghost bs = self.spec_buckets();
        let n = self.blocks.len();
        let mut i: usize = 0;
        while i < n
            invariant
                n == bs.len(),
                bs == self.spec_buckets(),
                *self == *old(self),
                old(self).wf(),
                i <= n,
                forall|i2: int, j2: int| 0 <= i2 < i && 0 <= j2 < bs[i2].1.len() ==> (#[trigger] bs[i2].1[j2]).ptr != ptr,
            decreases n - i,
        {
            let len = self.blocks[i].1.len();
            let mut j: usize = 0;
            while j < len
                invariant
                    len == bs[i as int].1.len(),
                    bs == self.spec_buckets(),
                    *self == *old(self),
                    old(self).wf(),
                    i < n,
                    n == bs.len(),
                    j <= len,
                    forall|i2: int, j2: int| 0 <= i2 < i && 0 <= j2 < bs[i2].1.len() ==> (#[trigger] bs[i2].1[j2]).ptr != ptr,
                    forall|j2: int| 0 <= j2 < j ==> (#[trigger] bs[i as int].1[j2]).ptr != ptr,
                decreases len - j,
            {
                if self.blocks[i].1[j].ptr == ptr {
                    let b = self.take(i, j);
                    proof {
                        assert forall|i2: int, j2: int| (0 <= i2 < i && 0 <= j2 < bs[i2].1.len()) || (i2 == i && 0 <= j2 < j)
                            implies (#[trigger] bs[i2].1[j2]).ptr != ptr by {
                            if i2 == i {
                                assert(bs[i as int].1[j2].ptr != ptr);
                            }
                        }
                    }
                    return Some(b);
                }
                j += 1;
            }
            proof {
                assert forall|i2: int, j2: int| 0 <= i2 < i + 1 && 0 <= j2 < bs[i2].1.len() implies (#[trigger] bs[i2].1[j2]).ptr != ptr by {
                    if i2 == i {
                        assert(bs[i as int].1[j2].ptr != ptr);
                    }
                }
            }
            i += 1;
        }
        None
    }

    /// Takes out every cached block, by increasing size and oldest first.
    pub fn release_cached(&mut self) -> (all: Vec<CachedBlock<E>>)
        requires
            old(self).wf(),
        ensures
            final(self).wf(),
            all@ == flatten(old(self).spec_buckets()),
            final(self).spec_buckets() == Seq::<(usize, Seq<CachedBlock<E>>)>::empty(),
            final(self).spec_bytes() == 0,
    {
        let ghost bs = self.spec_buckets();
        let mut taken: Vec<(usize, Vec<CachedBlock<E>>)> = Vec::new();
        std::mem::swap(&mut taken, &mut self.blocks);
        self.cached_bytes = 0;
        proof {
            assert(buckets_view(taken@) == bs);
            assert(self.spec_buckets() =~= Seq::<(usize, Seq<CachedBlock<E>>)>::empty());
        }
        let mut out: Vec<CachedBlock<E>> = Vec::new();
        let mut rest = taken;
        let n_exec = rest.len();
        let ghost n = n_exec as nat;
        proof {
            assert(bs.skip(0) =~= bs);
            assert(bs.take(0) =~= Seq::<(usize, Seq<CachedBlock<E>>)>::empty());
        }
        let mut i: usize = 0;
        while rest.len() > 0
            invariant
                i + rest@.len() == n,
                n == bs.len(),
                n <= usize::MAX,
                buckets_view(rest@) == bs.skip(i as int),
                out@ == flatten(bs.take(i as int)),
            decreases rest@.len(),
        {
            let ghost r0 = rest@;
            let (_, mut blocks) = rest.remove(0);
            let ghost l = blocks@;
            proof {
                assert(buckets_view(r0)[0].1 == l);
                assert(bs.skip(i as int)[0] == bs[i as int]);
                assert(l == bs[i as int].1);
            }
            let ghost before = out@;
            out.append(&mut blocks);
            proof {
                assert(bs.take(i + 1).drop_last() =~= bs.take(i as int));
                assert(bs.take(i + 1).last() == bs[i as int]);
                assert(out@ =~= flatten(bs.take(i + 1)));
                assert forall|k: int| 0 <= k < rest@.len() implies #[trigger] buckets_view(rest@)[k] == bs.skip(i + 1)[k] by {
                    assert(rest@[k] == r0[k + 1]);
                    assert(buckets_view(r0)[k + 1] == bs.skip(i as int)[k + 1]);
                }
                assert(buckets_view(rest@) =~= bs.skip(i + 1));
            }
            i += 1;
        }
        proof {
            assert(bs.take(i as int) =~= bs);
        }
        out
    }
}

/// The caches of all devices a process may see.
pub struct AsyncPool<E> {
    devices: Vec<DevicePool<E>>,
}

impl<E> AsyncPool<E> {
    /// The cache of device `d`.
    pub closed spec fn spec_device(&self, d: int) -> DevicePool<E> {
        self.devices@[d]
    }

    /// There is a well-formed cache for each device.
    pub closed spec fn wf(&self) -> bool {
        &&& self.devices@.len() == MAX_GPUS
        &&& forall|d: int| 0 <= d < MAX_GPUS ==> (#[trigger] self.devices@[d]).wf()
    }

    /// Empty caches.
    pub fn new() -> (p: Self)
        ensures
            p.wf(),
            forall|d: int| 0 <= d < MAX_GPUS ==> (#[trigger] p.spec_device(d)).spec_buckets().len() == 0
                && p.spec_device(d).spec_bytes() == 0,
    {
        let mut devices: Vec<DevicePool<E>> = Vec::new();
        let mut i: usize = 0;
        while i < MAX_GPUS
            invariant
                i <= MAX_GPUS,
                devices@.len() == i,
                forall|d: int| 0 <= d < i ==> (#[trigger] devices@[d]).wf() && devices@[d].spec_buckets().len() == 0
                    && devices@[d].spec_bytes() == 0,
            decreases MAX_GPUS - i,
        {
            devices.push(DevicePool::new());
            i += 1;
        }
        AsyncPool { devices }
    }

    /// The bytes cached for device `device`.
    pub fn cached_bytes(&self, device: usize) -> (b: usize)
        requires
            device < MAX_GPUS,
            self.wf(),
        ensures
            b == self.spec_device(device as int).spec_bytes(),
    {
        self.devices[device].cached_bytes()
    }

    /// Caches the freed block `block` of device `device` (see
    /// `DevicePool::cache_free`).
    pub fn cache_free(&mut self, block: CachedBlock<E>, device: usize)
        requires
            old(self).wf(),
            device < MAX_GPUS,
            old(self).spec_device(device as int).spec_bytes() + block.actual_size <= usize::MAX,
        ensures
            final(self).wf(),
            final(self).spec_device(device as int).spec_buckets() == spec_cache(old(self).spec_device(device as int).spec_buckets(), block),
            final(self).spec_device(device as int).spec_bytes() == old(self).spec_device(device as int).spec_bytes() + block.actual_size,
            forall|d: int| 0 <= d < MAX_GPUS && d != device ==> #[trigger] final(self).spec_device(d) == old(self).spec_device(d),
    {
        let mut pool = self.devices.remove(device);
        pool.cache_free(block);
        self.devices.insert(device, pool);
        proof {
            assert forall|d: int| 0 <= d < MAX_GPUS && d != device implies #[trigger] self.devices@[d] == old(self).devices@[d] by {}
        }
    }

    /// The candidates for a request of `effective_size` bytes on device
    /// `device` (see `DevicePool::candidates`).
    pub fn candidates(&self, effective_size: usize, device: usize) -> (c: Vec<(usize, usize)>)
        requires
            self.wf(),
            device < MAX_GPUS,
        ensures
            c@ == candidates_from(self.spec_device(device as int).spec_buckets(), effective_size, double_capped(effective_size), 0),
    {
        self.devices[device].candidates(effective_size)
    }

    /// The block at position `j` of bucket `i` of device `device`.
    pub fn block_at(&self, device: usize, i: usize, j: usize) -> (b: &CachedBlock<E>)
        requires
            self.wf(),
            device < MAX_GPUS,
            i < self.spec_device(device as int).spec_buckets().len(),
            j < self.spec_device(device as int).spec_buckets()[i as int].1.len(),
        ensures
            *b == self.spec_device(device as int).spec_buckets()[i as int].1[j as int],
    {
        self.devices[device].block_at(i, j)
    }

    /// Hands out a cached block of device `device` for a request of
    /// `effective_size` bytes (see `DevicePool::try_alloc`).
    pub fn try_alloc(&mut self, effective_size: usize, device: usize, ready: &Vec<bool>) -> (r: Option<CachedBlock<E>>)
        requires
            old(self).wf(),
            device < MAX_GPUS,
            ready@.len() == candidates_from(old(self).spec_device(device as int).spec_buckets(), effective_size, double_capped(effective_size), 0).len(),
        ensures
            final(self).wf(),
            match first_ready(ready@, 0) {
                None => r is None && final(self).spec_device(device as int).spec_buckets() == old(self).spec_device(device as int).spec_buckets()
                    && final(self).spec_device(device as int).spec_bytes() == old(self).spec_device(device as int).spec_bytes(),
                Some(k) => {
                    let bs = old(self).spec_device(device as int).spec_buckets();
                    let c = candidates_from(bs, effective_size, double_capped(effective_size), 0)[k];
                    &&& r == Some(bs[c.0 as int].1[c.1 as int])
                    &&& final(self).spec_device(device as int).spec_buckets() == spec_take(bs, c.0 as int, c.1 as int)
                    &&& final(self).spec_device(device as int).spec_bytes() == old(self).spec_device(device as int).spec_bytes() - bs[c.0 as int].1[c.1 as int].actual_size
                },
            },
            forall|d: int| 0 <= d < MAX_GPUS && d != device ==> #[trigger] final(self).spec_device(d) == old(self).spec_device(d),
    {
        let mut pool = self.devices.remove(device);
        let r = pool.try_alloc(effective_size, ready);
        self.devices.insert(device, pool);
        proof {
            assert forall|d: int| 0 <= d < MAX_GPUS && d != device implies #[trigger] self.devices@[d] == old(self).devices@[d] by {}
        }
        r
    }

    /// Takes out the block at position `j` of bucket `i` of device `device`
    /// (see `DevicePool::take`).
    pub fn take(&mut self, device: usize, i: usize, j: usize) -> (b: CachedBlock<E>)
        requires
            old(self).wf(),
            device < MAX_GPUS,
            i < old(self).spec_device(device as int).spec_buckets().len(),
            j < old(self).spec_device(device as int).spec_buckets()[i as int].1.len(),
        ensures
            final(self).wf(),
            b == old(self).spec_device(device as int).spec_buckets()[i as int].1[j as int],
            final(self).spec_device(device as int).spec_buckets() == spec_take(old(self).spec_device(device as int).spec_buckets(), i as int, j as int),
            final(self).spec_device(device as int).spec_bytes() == old(self).spec_device(device as int).spec_bytes() - b.actual_size,
            forall|d: int| 0 <= d < MAX_GPUS && d != device ==> #[trigger] final(self).spec_device(d) == old(self).spec_device(d),
    {
        let mut pool = self.devices.remove(device);
        let b = pool.take(i, j);
        self.devices.insert(device, pool);
        proof {
            assert forall|d: int| 0 <= d < MAX_GPUS && d != device implies #[trigger] self.devices@[d] == old(self).devices@[d] by {}
        }
        b
    }

    /// Takes out the cached block at address `ptr` of device `device`, if
    /// there is one (see `DevicePool::remove_by_ptr`).
    pub fn remove_by_ptr(&mut self, ptr: u64, device: usize) -> (r: Option<CachedBlock<E>>)
        requires
            old(self).wf(),
            device < MAX_GPUS,
        ensures
            final(self).wf(),
            ({
                let o = old(self).spec_device(device as int);
                let f = final(self).spec_device(device as int);
                match r {
                    None => f == o && forall|i: int, j: int| 0 <= i < o.spec_buckets().len() && 0 <= j < o.spec_buckets()[i].1.len()
                        ==> (#[trigger] o.spec_buckets()[i].1[j]).ptr != ptr,
                    Some(b) => b.ptr == ptr && exists|i: int, j: int|
                        0 <= i < o.spec_buckets().len() && 0 <= j < o.spec_buckets()[i].1.len()
                        && b == o.spec_buckets()[i].1[j]
                        && f.spec_buckets() == spec_take(o.spec_buckets(), i, j)
                        && f.spec_bytes() == o.spec_bytes() - b.actual_size
                        && (forall|i2: int, j2: int| (0 <= i2 < i && 0 <= j2 < o.spec_buckets()[i2].1.len())
                            || (i2 == i && 0 <= j2 < j) ==> (#[trigger] o.spec_buckets()[i2].1[j2]).ptr != ptr),
                }
            }),
            forall|d: int| 0 <= d < MAX_GPUS && d != device ==> #[trigger] final(self).spec_device(d) == old(self).spec_device(d),
    {
        let mut pool = self.devices.remove(device);
        let ghost p0 = pool;
        proof {
            assert(p0 == old(self).spec_device(device as int));
        }
        let r = pool.remove_by_ptr(ptr);
        let ghost p1 = pool;
        self.devices.insert(device, pool);
        proof {
            assert(self.spec_device(device as int) == p1);
            assert forall|d: int| 0 <= d < MAX_GPUS && d != device implies #[trigger] self.devices@[d] == old(self).devices@[d] by {}
        }
        r
    }

    /// Takes out every cached block of device `device`, by increasing size
    /// and oldest first.
    pub fn release_cached(&mut self, device: usize) -> (all: Vec<CachedBlock<E>>)
        requires
            old(self).wf(),
            device < MAX_GPUS,
        ensures
            final(self).wf(),
            all@ == flatten(old(self).spec_device(device as int).spec_buckets()),
            final(self).spec_device(device as int).spec_buckets().len() == 0,
            final(self).spec_device(device as int).spec_bytes() == 0,
            forall|d: int| 0 <= d < MAX_GPUS && d != device ==> #[trigger] final(self).spec_device(d) == old(self).spec_device(d),
    {
        let mut pool = self.devices.remove(device);
        let all = pool.release_cached();
        self.devices.insert(device, pool);
        proof {
            assert forall|d: int| 0 <= d < MAX_GPUS && d != device implies #[trigger] self.devices@[d] == old(self).devices@[d] by {}
        }
        all
    }
}

} // verus!
