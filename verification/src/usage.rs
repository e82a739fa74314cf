//! How much of each of the daemon's stores (shared memory, host memory,
//! storage) each process uses, as the control tool reports it.

use vstd::prelude::*;
use crate::types::GlobalDeviceId;

verus! {

/// One buffer of a process held in a store.
#[derive(Debug, Clone, Copy, PartialEq, Eq, Structural)]
pub struct DataBlockMeta {
    pub device_id: GlobalDeviceId,
    pub size: u64,
}

/// The buffers of one process held in a store.
#[derive(Debug, Clone)]
pub struct ProcessDataMeta {
    pub pid: i32,
    pub data_blocks: Vec<DataBlockMeta>,
}

/// What the daemon's stores hold, per process, and the sizes of shared
/// memory and host memory.
#[derive(Debug, Clone)]
pub struct DataManagerMetadata {
    pub shm: Vec<ProcessDataMeta>,
    pub hostmem: Vec<ProcessDataMeta>,
    pub storage: Vec<ProcessDataMeta>,
    pub shm_capacity: u64,
    pub hostmem_capacity: u64,
}

/// The total size of the buffers `bs`.
pub open spec fn blocks_total(bs: Seq<DataBlockMeta>) -> int
    decreases bs.len(),
{
    if bs.len() == 0 {
        0
    } else {
        blocks_total(bs.drop_last()) + bs.last().size
    }
}

/// The total size of all the buffers of the processes `ps`.
pub open spec fn procs_total(ps: Seq<ProcessDataMeta>) -> int
    decreases ps.len(),
{
    if ps.len() == 0 {
        0
    } else {
        procs_total(ps.drop_last()) + blocks_total(ps.last().data_blocks@)
    }
}

proof fn lemma_blocks_total_step(bs: Seq<DataBlockMeta>, i: int)
    requires
        0 <= i < bs.len(),
    ensures
        blocks_total(bs.take(i + 1)) == blocks_total(bs.take(i)) + bs[i].size,
{
    assert(bs.take(i + 1).drop_last() =~= bs.take(i));
}

proof fn lemma_blocks_total_mono(bs: Seq<DataBlockMeta>, k: int)
    requires
        0 <= k <= bs.len(),
    ensures
        0 <= blocks_total(bs.take(k)) <= blocks_total(bs),
    decreases bs.len(),
{
    if k < bs.len() {
        assert(bs.drop_last().take(k) =~= bs.take(k));
        lemma_blocks_total_mono(bs.drop_last(), k);
    } else {
        assert(bs.take(k) =~= bs);
        if bs.len() > 0 {
            lemma_blocks_total_mono(bs.drop_last(), bs.len() - 1);
            assert(bs.drop_last().take(bs.len() - 1) =~= bs.drop_last());
        }
    }
}

/// The total size of the buffers `bs`, or `None` if it passes `u64::MAX`.
pub fn blocks_size(bs: &Vec<DataBlockMeta>) -> (r: Option<u64>)
    ensures
        r == (if blocks_total(bs@) <= u64::MAX { Some(blocks_total(bs@) as u64) } else { None::<u64> }),
{
    let mut t: u64 = 0;
    let mut i: usize = 0;
    while i < bs.len()
        invariant
            i <= bs@.len(),
            t == blocks_total(bs@.take(i as int)),
        decreases bs@.len() - i,
    {
        proof {
            lemma_blocks_total_step(bs@, i as int);
        }
        match t.checked_add(bs[i].size) {
            Some(n) => {
                t = n;
            },
            None => {
                proof {
                    lemma_blocks_total_mono(bs@, i + 1);
                }
                return None;
            },
        }
        i += 1;
    }
    proof {
        assert(bs@.take(i as int) =~= bs@);
    }
    Some(t)
}

proof fn lemma_procs_total_step(ps: Seq<ProcessDataMeta>, i: int)
    requires
        0 <= i < ps.len(),
    ensures
        procs_total(ps.take(i + 1)) == procs_total(ps.take(i)) + blocks_total(ps[i].data_blocks@),
{
    assert(ps.take(i + 1).drop_last() =~= ps.take(i));
}

proof fn lemma_blocks_nonneg(bs: Seq<DataBlockMeta>)
    ensures
        blocks_total(bs) >= 0,
    decreases bs.len(),
{
    if bs.len() > 0 {
        lemma_blocks_nonneg(bs.drop_last());
    }
}

proof fn lemma_procs_total_mono(ps: Seq<ProcessDataMeta>, k: int)
    requires
        0 <= k <= ps.len(),
    ensures
        0 <= procs_total(ps.take(k)) <= procs_total(ps),
    decreases ps.len(),
{
    if k < ps.len() {
        assert(ps.drop_last().take(k) =~= ps.take(k));
        lemma_procs_total_mono(ps.drop_last(), k);
        lemma_blocks_nonneg(ps.last().data_blocks@);
    } else {
        assert(ps.take(k) =~= ps);
        if ps.len() > 0 {
            lemma_procs_total_mono(ps.drop_last(), ps.len() - 1);
            assert(ps.drop_last().take(ps.len() - 1) =~= ps.drop_last());
            lemma_blocks_nonneg(ps.last().data_blocks@);
        }
    }
}

/// The total size of all the buffers a store holds, or `None` if it
/// passes `u64::MAX`.
pub fn store_used(ps: &Vec<ProcessDataMeta>) -> (r: Option<u64>)
    ensures
        r == (if procs_total(ps@) <= u64::MAX { Some(procs_total(ps@) as u64) } else { None::<u64> }),
{
    let mut t: u64 = 0;
    let mut i: usize = 0;
    while i < ps.len()
        invariant
            i <= ps@.len(),
            t == procs_total(ps@.take(i as int)),
        decreases ps@.len() - i,
    {
        proof {
            lemma_procs_total_step(ps@, i as int);
            lemma_blocks_nonneg(ps@[i as int].data_blocks@);
        }
        let s = match blocks_size(&ps[i].data_blocks) {
            Some(s) => s,
            None => {
                proof {
                    lemma_procs_total_mono(ps@, i + 1);
                    lemma_procs_total_mono(ps@, i as int);
                }
                return None;
            },
        };
        match t.checked_add(s) {
            Some(n) => {
                t = n;
            },
            None => {
                proof {
                    lemma_procs_total_mono(ps@, i + 1);
                }
                return None;
            },
        }
        i += 1;
    }
    proof {
        assert(ps@.take(i as int) =~= ps@);
    }
    Some(t)
}

/// `m` with process `pid` recorded as using `used` bytes in `blocks`
/// buffers: its former record replaced, else added at the end.
pub open spec fn usage_insert(m: Seq<(i32, u64, usize)>, pid: i32, used: u64, blocks: usize) -> Seq<(i32, u64, usize)> {
    if exists|j: int| 0 <= j < m.len() && (#[trigger] m[j]).0 == pid {
        m.update(choose|j: int| 0 <= j < m.len() && (#[trigger] m[j]).0 == pid, (pid, used, blocks))
    } else {
        m.push((pid, used, blocks))
    }
}

/// Whether every process's buffers in `ps` total at most `u64::MAX`.
pub open spec fn procs_fit(ps: Seq<ProcessDataMeta>) -> bool {
    forall|i: int| 0 <= i < ps.len() ==> blocks_total((#[trigger] ps[i]).data_blocks@) <= u64::MAX
}

/// The use of a store per process, a later record of a process replacing
/// an earlier one.
pub open spec fn spec_usage(ps: Seq<ProcessDataMeta>) -> Seq<(i32, u64, usize)>
    decreases ps.len(),
{
    if ps.len() == 0 {
        Seq::empty()
    } else {
        usage_insert(
            spec_usage(ps.drop_last()),
            ps.last().pid,
            blocks_total(ps.last().data_blocks@) as u64,
            ps.last().data_blocks@.len() as usize,
        )
    }
}

/// No process occurs twice in `m`.
pub open spec fn usage_pids_unique(m: Seq<(i32, u64, usize)>) -> bool {
    forall|a: int, b: int| 0 <= a < m.len() && 0 <= b < m.len() && a != b ==> (#[trigger] m[a]).0 != (#[trigger] m[b]).0
}

/// The use of a store per process: bytes and number of buffers (see
/// `spec_usage`); `None` if some process's total passes `u64::MAX`.
pub fn usage_by_pid(ps: &Vec<ProcessDataMeta>) -> (r: Option<Vec<(i32, u64, usize)>>)
    ensures
        match r {
            Some(v) => procs_fit(ps@) && v@ == spec_usage(ps@),
            None => !procs_fit(ps@),
        },
{
    let mut out: Vec<(i32, u64, usize)> = Vec::new();
    let mut i: usize = 0;
    while i < ps.len()
        invariant
            i <= ps@.len(),
            out@ == spec_usage(ps@.take(i as int)),
            procs_fit(ps@.take(i as int)),
            usage_pids_unique(out@),
        decreases ps@.len() - i,
    {
        proof {
            assert(ps@.take(i + 1).drop_last() =~= ps@.take(i as int));
            assert(ps@.take(i + 1).last() == ps@[i as int]);
        }
        let used = match blocks_size(&ps[i].data_blocks) {
            Some(u) => u,
            None => {
                proof {
                    assert(!procs_fit(ps@));
                }
                return None;
            },
        };
        let pid = ps[i].pid;
        let n = ps[i].data_blocks.len();
        let mut k: usize = 0;
        while k < out.len() && out[k].0 != pid
            invariant
                k <= out@.len(),
                forall|q: int| 0 <= q < k ==> (#[trigger] out@[q]).0 != pid,
            decreases out@.len() - k,
        {
            k += 1;
        }
        let ghost o = out@;
        if k < out.len() {
            proof {
                let w = choose|j: int| 0 <= j < o.len() && (#[trigger] o[j]).0 == pid;
                assert(o[k as int].0 == pid);
                if w != k as int {
                    assert(o[w].0 != o[k as int].0);
                }
            }
            out.set(k, (pid, used, n));
            proof {
                assert forall|a: int, b: int| 0 <= a < out@.len() && 0 <= b < out@.len() && a != b implies (#[trigger] out@[a]).0 != (#[trigger] out@[b]).0 by {
                    assert(out@[a].0 == o[a].0);
                    assert(out@[b].0 == o[b].0);
                }
            }
        } else {
            out.push((pid, used, n));
            proof {
                assert forall|a: int, b: int| 0 <= a < out@.len() && 0 <= b < out@.len() && a != b implies (#[trigger] out@[a]).0 != (#[trigger] out@[b]).0 by {
                    if a < o.len() && b < o.len() {
                        assert(out@[a] == o[a] && out@[b] == o[b]);
                    } else if a < o.len() {
                        assert(out@[a] == o[a]);
                    } else {
                        assert(out@[b] == o[b]);
                    }
                }
            }
        }
        proof {
            let t = ps@.take(i + 1);
            assert forall|j: int| 0 <= j < t.len() implies blocks_total((#[trigger] t[j]).data_blocks@) <= u64::MAX by {
                if j < i {
                    assert(t[j] == ps@.take(i as int)[j]);
                }
            }
        }
        i += 1;
    }
    proof {
        assert(ps@.take(i as int) =~= ps@);
    }
    Some(out)
}

/// The processes are listed by strictly increasing id.
pub open spec fn pids_sorted(v: Seq<i32>) -> bool {
    forall|a: int, b: int| 0 <= a < b < v.len() ==> v[a] < v[b]
}

/// Whether process `pid` has a record in `m`.
pub open spec fn has_usage(m: Seq<(i32, u64, usize)>, pid: i32) -> bool {
    exists|j: int| 0 <= j < m.len() && (#[trigger] m[j]).0 == pid
}

/// `v` with `p` added in its place, unless it is there already.
fn insert_pid(v: &mut Vec<i32>, p: i32)
    requires
        pids_sorted(old(v)@),
    ensures
        pids_sorted(final(v)@),
        forall|x: i32| #[trigger] final(v)@.contains(x) <==> (old(v)@.contains(x) || x == p),
{
    let mut k: usize = 0;
    while k < v.len() && v[k] < p
        invariant
            k <= v@.len(),
            v@ == old(v)@,
            forall|q: int| 0 <= q < k ==> v@[q] < p,
        decreases v@.len() - k,
    {
        k += 1;
    }
    let ghost v0 = v@;
    if k < v.len() && v[k] == p {
        proof {
            assert forall|x: i32| #[trigger] v@.contains(x) <==> (v0.contains(x) || x == p) by {
                if x == p {
                    assert(v@[k as int] == x);
                }
            }
        }
        return;
    }
    v.insert(k, p);
    proof {
        assert forall|a: int, b: int| 0 <= a < b < v@.len() implies v@[a] < v@[b] by {
            if b < k {
                assert(v@[a] == v0[a] && v@[b] == v0[b]);
            } else if b == k {
                assert(v@[a] == v0[a]);
            } else if a < k {
                assert(v@[a] == v0[a] && v@[b] == v0[b - 1]);
                if b - 1 > k {
                    assert(v0[k as int] < v0[b - 1]);
                }
            } else if a == k {
                assert(v@[b] == v0[b - 1]);
                if b - 1 > k {
                    assert(v0[k as int] < v0[b - 1]);
                }
            } else {
                assert(v@[a] == v0[a - 1] && v@[b] == v0[b - 1]);
            }
        }
        assert(v@ == v0.insert(k as int, p));
        lemma_insert_pid_contains(v0, k as int, p);
    }
}

proof fn lemma_insert_pid_contains(v0: Seq<i32>, k: int, p: i32)
    requires
        0 <= k <= v0.len(),
    ensures
        forall|x: i32| #[trigger] v0.insert(k, p).contains(x) <==> (v0.contains(x) || x == p),
{
    let v = v0.insert(k, p);
    assert forall|x: i32| #[trigger] v.contains(x) <==> (v0.contains(x) || x == p) by {
        if v.contains(x) {
            let w = choose|w: int| 0 <= w < v.len() && v[w] == x;
            if w < k {
                assert(v0[w] == x);
            } else if w > k {
                assert(v0[w - 1] == x);
            }
        }
        if v0.contains(x) {
            let w = choose|w: int| 0 <= w < v0.len() && v0[w] == x;
            if w < k {
                assert(v[w] == x);
            } else {
                assert(v[w + 1] == x);
            }
        }
        if x == p {
            assert(v[k] == x);
        }
    }
}

/// Adds the processes of `m` to `v`.
fn add_pids(v: &mut Vec<i32>, m: &Vec<(i32, u64, usize)>)
    requires
        pids_sorted(old(v)@),
    ensures
        pids_sorted(final(v)@),
        forall|x: i32| #[trigger] final(v)@.contains(x) <==> (old(v)@.contains(x) || has_usage(m@, x)),
{
    let mut i: usize = 0;
    while i < m.len()
        invariant
            i <= m@.len(),
            pids_sorted(v@),
            forall|x: i32| #[trigger] v@.contains(x) <==> (old(v)@.contains(x) || exists|j: int| 0 <= j < i && (#[trigger] m@[j]).0 == x),
        decreases m@.len() - i,
    {
        let ghost before = v@;
        insert_pid(v, m[i].0);
        proof {
            assert forall|x: i32| #[trigger] v@.contains(x) <==> (old(v)@.contains(x) || exists|j: int| 0 <= j < i + 1 && (#[trigger] m@[j]).0 == x) by {
                if v@.contains(x) && x != m@[i as int].0 {
                    assert(before.contains(x));
                }
                if x == m@[i as int].0 {
                    assert(v@.contains(x));
                }
                if exists|j: int| 0 <= j < i + 1 && (#[trigger] m@[j]).0 == x {
                    let j = choose|j: int| 0 <= j < i + 1 && (#[trigger] m@[j]).0 == x;
                    if j < i {
                        assert(before.contains(x));
                    }
                }
            }
        }
        i += 1;
    }
}

/// The processes that use any of the three stores, each once, by
/// increasing id.
pub fn pids_in_use(shm: &Vec<(i32, u64, usize)>, hostmem: &Vec<(i32, u64, usize)>, storage: &Vec<(i32, u64, usize)>) -> (v: Vec<i32>)
    ensures
        pids_sorted(v@),
        forall|x: i32| #[trigger] v@.contains(x) <==> (has_usage(shm@, x) || has_usage(hostmem@, x) || has_usage(storage@, x)),
{
    let mut v: Vec<i32> = Vec::new();
    add_pids(&mut v, shm);
    add_pids(&mut v, hostmem);
    add_pids(&mut v, storage);
    v
}

/// One allocation of a process as the control tool lists it: the bytes of
/// its pieces on the device and off it.
#[derive(Debug, Clone, Copy, PartialEq, Eq, Structural)]
pub struct AllocationData {
    pub on_gpu_bytes: u64,
    pub off_gpu_bytes: u64,
}

/// The total size of the allocations `allocs`, on and off the device.
pub open spec fn allocations_total(allocs: Seq<AllocationData>) -> int
    decreases allocs.len(),
{
    if allocs.len() == 0 {
        0
    } else {
        allocations_total(allocs.drop_last()) + allocs.last().on_gpu_bytes + allocs.last().off_gpu_bytes
    }
}

proof fn lemma_allocations_total_mono(a: Seq<AllocationData>, k: int)
    requires
        0 <= k <= a.len(),
    ensures
        0 <= allocations_total(a.take(k)) <= allocations_total(a),
    decreases a.len(),
{
    if k < a.len() {
        assert(a.drop_last().take(k) =~= a.take(k));
        lemma_allocations_total_mono(a.drop_last(), k);
    } else {
        assert(a.take(k) =~= a);
        if a.len() > 0 {
            lemma_allocations_total_mono(a.drop_last(), a.len() - 1);
            assert(a.drop_last().take(a.len() - 1) =~= a.drop_last());
        }
    }
}

/// The total size of the allocations `allocs` of a process on one device,
/// or `None` if it passes `u64::MAX`.
pub fn allocations_size(allocs: &Vec<AllocationData>) -> (r: Option<u64>)
    ensures
        r == (if allocations_total(allocs@) <= u64::MAX { Some(allocations_total(allocs@) as u64) } else { None::<u64> }),
{
    let mut t: u64 = 0;
    let mut i: usize = 0;
    while i < allocs.len()
        invariant
            i <= allocs@.len(),
            t == allocations_total(allocs@.take(i as int)),
        decreases allocs@.len() - i,
    {
        proof {
            assert(allocs@.take(i + 1).drop_last() =~= allocs@.take(i as int));
        }
        let a = allocs[i];
        let step = match a.on_gpu_bytes.checked_add(a.off_gpu_bytes) {
            Some(x) => t.checked_add(x),
            None => None,
        };
        match step {
            Some(n) => {
                t = n;
            },
            None => {
                proof {
                    lemma_allocations_total_mono(allocs@, i + 1);
                }
                return None;
            },
        }
        i += 1;
    }
    proof {
        assert(allocs@.take(i as int) =~= allocs@);
    }
    Some(t)
}

} // verus!
