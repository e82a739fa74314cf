//! The layout of one migration copy on the client side: a buffer lies on
//! the device in one piece and in shared memory in blocks, copied one
//! block after the other.

use vstd::prelude::*;

verus! {

/// The total of the sizes `s`.
pub open spec fn sizes_total(s: Seq<u32>) -> int
    decreases s.len(),
{
    if s.len() == 0 {
        0
    } else {
        sizes_total(s.drop_last()) + s.last()
    }
}

proof fn lemma_sizes_total_bound(s: Seq<u32>)
    ensures
        0 <= sizes_total(s) <= s.len() * 0xffff_ffff,
    decreases s.len(),
{
    if s.len() > 0 {
        lemma_sizes_total_bound(s.drop_last());
    }
}

/// The copies of a buffer held in shared memory at `offsets` in blocks of
/// `sizes` bytes: block `i` goes between shared-memory offset `offsets[i]`
/// and the device offset where the earlier blocks end.
pub open spec fn spec_copy_segments(offsets: Seq<u64>, sizes: Seq<u32>) -> Seq<(u64, u64, u32)> {
    Seq::new(sizes.len(), |i: int| (offsets[i], sizes_total(sizes.take(i)) as u64, sizes[i]))
}

/// The total size of the blocks `sizes` (at most `u32::MAX` of them).
pub fn total_size(sizes: &Vec<u32>) -> (t: u64)
    requires
        sizes@.len() <= u32::MAX,
    ensures
        t == sizes_total(sizes@),
{
    let mut t: u64 = 0;
    let mut i: usize = 0;
    while i < sizes.len()
        invariant
            i <= sizes@.len(),
            sizes@.len() <= u32::MAX,
            t == sizes_total(sizes@.take(i as int)),
        decreases sizes@.len() - i,
    {
        proof {
            assert(sizes@.take(i + 1).drop_last() =~= sizes@.take(i as int));
            lemma_sizes_total_bound(sizes@.take(i as int));
            assert(i * 0xffff_ffff + 0xffff_ffff <= u64::MAX) by (nonlinear_arith)
                requires
                    i < 0xffff_ffff,
            ;
        }
        t = t + sizes[i] as u64;
        i += 1;
    }
    proof {
        assert(sizes@.take(i as int) =~= sizes@);
    }
    t
}

/// The copies of a buffer held at `offsets` in blocks of `sizes` bytes
/// (see `spec_copy_segments`): one per block, as (shared-memory offset,
/// device offset, size). There is one offset per block and at least one
/// block.
pub fn copy_segments(offsets: &Vec<u64>, sizes: &Vec<u32>) -> (segs: Vec<(u64, u64, u32)>)
    requires
        offsets@.len() == sizes@.len(),
        sizes@.len() > 0,
        sizes@.len() <= u32::MAX,
    ensures
        segs@ == spec_copy_segments(offsets@, sizes@),
{
    let mut segs: Vec<(u64, u64, u32)> = Vec::new();
    let mut accu: u64 = 0;
    let mut i: usize = 0;
    while i < sizes.len()
        invariant
            i <= sizes@.len(),
            offsets@.len() == sizes@.len(),
            sizes@.len() <= u32::MAX,
            accu == sizes_total(sizes@.take(i as int)),
            segs@ == spec_copy_segments(offsets@, sizes@).take(i as int),
        decreases sizes@.len() - i,
    {
        proof {
            assert(sizes@.take(i + 1).drop_last() =~= sizes@.take(i as int));
            lemma_sizes_total_bound(sizes@.take(i as int));
            assert(i * 0xffff_ffff + 0xffff_ffff <= u64::MAX) by (nonlinear_arith)
                requires
                    i < 0xffff_ffff,
            ;
        }
        segs.push((offsets[i], accu, sizes[i]));
        accu = accu + sizes[i] as u64;
        i += 1;
        proof {
            assert(segs@ =~= spec_copy_segments(offsets@, sizes@).take(i as int));
        }
    }
    proof {
        assert(spec_copy_segments(offsets@, sizes@).take(i as int) =~= spec_copy_segments(offsets@, sizes@));
    }
    segs
}

/// The copies cover the device range of the buffer without gaps or
/// overlaps: each starts where the one before ends, the first at zero,
/// and the last ends at the total size.
pub proof fn lemma_segments_contiguous(offsets: Seq<u64>, sizes: Seq<u32>)
    requires
        offsets.len() == sizes.len(),
        sizes.len() > 0,
        sizes.len() <= u32::MAX,
    ensures
        spec_copy_segments(offsets, sizes)[0].1 == 0,
        forall|i: int| 0 < i < sizes.len() ==> #[trigger] spec_copy_segments(offsets, sizes)[i].1
            == spec_copy_segments(offsets, sizes)[i - 1].1 + spec_copy_segments(offsets, sizes)[i - 1].2,
        spec_copy_segments(offsets, sizes)[sizes.len() - 1].1 + sizes[sizes.len() - 1] == sizes_total(sizes),
{
    let segs = spec_copy_segments(offsets, sizes);
    assert(sizes.take(0) =~= Seq::<u32>::empty());
    assert forall|i: int| 0 < i < sizes.len() implies #[trigger] segs[i].1 == segs[i - 1].1 + segs[i - 1].2 by {
        assert(sizes.take(i).drop_last() =~= sizes.take(i - 1));
        lemma_sizes_total_bound(sizes.take(i));
        lemma_fits(sizes.take(i).len());
        lemma_sizes_total_bound(sizes.take(i - 1));
        lemma_fits((i - 1) as nat);
    }
    let n = sizes.len() as int;
    assert(sizes.take(n - 1) =~= sizes.drop_last());
    lemma_sizes_total_bound(sizes.drop_last());
    lemma_fits((n - 1) as nat);
}

proof fn lemma_fits(n: nat)
    requires
        n <= 0xffff_ffff,
    ensures
        n * 0xffff_ffff <= u64::MAX,
{
    assert(n * 0xffff_ffff <= u64::MAX) by (nonlinear_arith)
        requires
            n <= 0xffff_ffff,
    ;
}

} // verus!
