//! Totals of the buffers a migration moves, per process.

use vstd::prelude::*;
use crate::types::BufferId;

verus! {

/// The total size of the buffers of process `pid` among `ids`.
pub open spec fn pid_total(ids: Seq<BufferId>, pid: i32) -> int
    decreases ids.len(),
{
    if ids.len() == 0 {
        0
    } else if ids.last().pid == pid {
        pid_total(ids.drop_last(), pid) + ids.last().size
    } else {
        pid_total(ids.drop_last(), pid)
    }
}

/// `totals` lists each process of `ids` once, with the total size of its
/// buffers, and no other process.
pub open spec fn totals_of(ids: Seq<BufferId>, totals: Seq<(i32, u64)>) -> bool {
    &&& forall|a: int, b: int| 0 <= a < totals.len() && 0 <= b < totals.len() && a != b ==> (#[trigger] totals[a]).0 != (#[trigger] totals[b]).0
    &&& forall|k: int| 0 <= k < totals.len() ==> (#[trigger] totals[k]).1 == pid_total(ids, totals[k].0)
    &&& forall|j: int| 0 <= j < ids.len() ==> exists|k: int| 0 <= k < totals.len() && (#[trigger] totals[k]).0 == (#[trigger] ids[j]).pid
    &&& forall|k: int| 0 <= k < totals.len() ==> exists|j: int| 0 <= j < ids.len() && (#[trigger] ids[j]).pid == (#[trigger] totals[k]).0
}

proof fn lemma_pid_total_bound(ids: Seq<BufferId>, pid: i32)
    ensures
        0 <= pid_total(ids, pid) <= ids.len() * 0xffff_ffff,
    decreases ids.len(),
{
    if ids.len() > 0 {
        lemma_pid_total_bound(ids.drop_last(), pid);
    }
}

proof fn lemma_pid_total_absent(ids: Seq<BufferId>, pid: i32)
    requires
        forall|j: int| 0 <= j < ids.len() ==> (#[trigger] ids[j]).pid != pid,
    ensures
        pid_total(ids, pid) == 0,
    decreases ids.len(),
{
    if ids.len() > 0 {
        assert forall|j: int| 0 <= j < ids.drop_last().len() implies (#[trigger] ids.drop_last()[j]).pid != pid by {
            assert(ids.drop_last()[j] == ids[j]);
        }
        lemma_pid_total_absent(ids.drop_last(), pid);
    }
}

/// The position of process `pid` in `out`, if listed.
fn find_pid(out: &Vec<(i32, u64)>, pid: i32) -> (k: Option<usize>)
    ensures
        match k {
            Some(k) => k < out@.len() && out@[k as int].0 == pid,
            None => forall|q: int| 0 <= q < out@.len() ==> (#[trigger] out@[q]).0 != pid,
        },
{
    let mut k: usize = 0;
    while k < out.len()
        invariant
            k <= out@.len(),
            forall|q: int| 0 <= q < k ==> (#[trigger] out@[q]).0 != pid,
        decreases out@.len() - k,
    {
        if out[k].0 == pid {
            return Some(k);
        }
        k += 1;
    }
    None
}

proof fn lemma_post_prefix(pre: Seq<BufferId>, post: Seq<BufferId>)
    requires
        post.len() == pre.len() + 1,
        post.drop_last() == pre,
    ensures
        forall|j: int| 0 <= j < pre.len() ==> #[trigger] post[j] == pre[j],
{
    assert forall|j: int| 0 <= j < pre.len() implies #[trigger] post[j] == pre[j] by {
        assert(post.drop_last()[j] == post[j]);
    }
}

proof fn lemma_totals_update(pre: Seq<BufferId>, post: Seq<BufferId>, o: Seq<(i32, u64)>, n: Seq<(i32, u64)>, k: int)
    requires
        totals_of(pre, o),
        post.len() == pre.len() + 1,
        post.drop_last() == pre,
        0 <= k < o.len(),
        n.len() == o.len(),
        o[k].0 == post.last().pid,
        n[k].0 == post.last().pid,
        n[k].1 == pid_total(post, post.last().pid),
        forall|q: int| 0 <= q < o.len() && q != k ==> n[q] == o[q],
    ensures
        totals_of(post, n),
{
    lemma_post_prefix(pre, post);
    assert forall|a: int, b: int| 0 <= a < n.len() && 0 <= b < n.len() && a != b implies (#[trigger] n[a]).0 != (#[trigger] n[b]).0 by {
        assert(n[a].0 == o[a].0);
        assert(n[b].0 == o[b].0);
    }
    assert forall|q: int| 0 <= q < n.len() implies (#[trigger] n[q]).1 == pid_total(post, n[q].0) by {
        if q != k {
            assert(n[q] == o[q]);
            assert(o[q].0 != o[k].0);
        }
    }
    assert forall|j: int| 0 <= j < post.len() implies exists|q: int| 0 <= q < n.len() && (#[trigger] n[q]).0 == (#[trigger] post[j]).pid by {
        if j < pre.len() {
            let w = choose|q: int| 0 <= q < o.len() && (#[trigger] o[q]).0 == (#[trigger] pre[j]).pid;
            assert(n[w].0 == o[w].0);
        } else {
            assert(n[k].0 == post[j].pid);
        }
    }
    assert forall|q: int| 0 <= q < n.len() implies exists|j: int| 0 <= j < post.len() && (#[trigger] post[j]).pid == (#[trigger] n[q]).0 by {
        assert(n[q].0 == o[q].0);
        let w = choose|j: int| 0 <= j < pre.len() && (#[trigger] pre[j]).pid == (#[trigger] o[q]).0;
        assert(post[w] == pre[w]);
    }
}

proof fn lemma_totals_push(pre: Seq<BufferId>, post: Seq<BufferId>, o: Seq<(i32, u64)>, n: Seq<(i32, u64)>)
    requires
        totals_of(pre, o),
        post.len() == pre.len() + 1,
        post.drop_last() == pre,
        n.len() == o.len() + 1,
        n.drop_last() == o,
        n.last().0 == post.last().pid,
        n.last().1 == pid_total(post, post.last().pid),
        forall|q: int| 0 <= q < o.len() ==> (#[trigger] o[q]).0 != post.last().pid,
    ensures
        totals_of(post, n),
{
    lemma_post_prefix(pre, post);
    let k = o.len() as int;
    assert forall|q: int| 0 <= q < o.len() implies #[trigger] n[q] == o[q] by {
        assert(n.drop_last()[q] == n[q]);
    }
    assert forall|a: int, b: int| 0 <= a < n.len() && 0 <= b < n.len() && a != b implies (#[trigger] n[a]).0 != (#[trigger] n[b]).0 by {
        if a < k && b < k {
            assert(n[a] == o[a] && n[b] == o[b]);
        } else if a < k {
            assert(n[a] == o[a]);
        } else {
            assert(n[b] == o[b]);
        }
    }
    assert forall|q: int| 0 <= q < n.len() implies (#[trigger] n[q]).1 == pid_total(post, n[q].0) by {
        if q < k {
            assert(n[q] == o[q]);
            assert(o[q].0 != post.last().pid);
        }
    }
    assert forall|j: int| 0 <= j < post.len() implies exists|q: int| 0 <= q < n.len() && (#[trigger] n[q]).0 == (#[trigger] post[j]).pid by {
        if j < pre.len() {
            let w = choose|q: int| 0 <= q < o.len() && (#[trigger] o[q]).0 == (#[trigger] pre[j]).pid;
            assert(n[w] == o[w]);
        } else {
            assert(n[k].0 == post[j].pid);
        }
    }
    assert forall|q: int| 0 <= q < n.len() implies exists|j: int| 0 <= j < post.len() && (#[trigger] post[j]).pid == (#[trigger] n[q]).0 by {
        if q == k {
            assert(post[pre.len() as int].pid == n[q].0);
        } else {
            assert(n[q] == o[q]);
            let w = choose|j: int| 0 <= j < pre.len() && (#[trigger] pre[j]).pid == (#[trigger] o[q]).0;
            assert(post[w] == pre[w]);
        }
    }
}

/// The total size of the buffers of each process among `ids` (see
/// `totals_of`), processes in order of first appearance.
pub fn sizes_by_pid(ids: &Vec<BufferId>) -> (totals: Vec<(i32, u64)>)
    requires
        ids@.len() <= u32::MAX,
    ensures
        totals_of(ids@, totals@),
{
    let mut out: Vec<(i32, u64)> = Vec::new();
    let mut i: usize = 0;
    while i < ids.len()
        invariant
            i <= ids@.len(),
            ids@.len() <= u32::MAX,
            totals_of(ids@.take(i as int), out@),
        decreases ids@.len() - i,
    {
        let ghost pre = ids@.take(i as int);
        let ghost post = ids@.take(i + 1);
        let ghost o = out@;
        proof {
            assert(post.drop_last() =~= pre);
            assert(post.last() == ids@[i as int]);
            lemma_pid_total_bound(pre, ids@[i as int].pid);
            assert(pre.len() * 0xffff_ffff + 0xffff_ffff <= u64::MAX) by (nonlinear_arith)
                requires
                    pre.len() < 0xffff_ffff,
            ;
        }
        let id = ids[i];
        match find_pid(&out, id.pid) {
            Some(k) => {
                proof {
                    assert(o[k as int].1 == pid_total(pre, id.pid));
                }
                let t = out[k].1 + id.size as u64;
                out.set(k, (id.pid, t));
                proof {
                    lemma_totals_update(pre, post, o, out@, k as int);
                }
            },
            None => {
                proof {
                    assert forall|j: int| 0 <= j < pre.len() implies (#[trigger] pre[j]).pid != id.pid by {
                        let w = choose|q: int| 0 <= q < o.len() && (#[trigger] o[q]).0 == (#[trigger] pre[j]).pid;
                        assert(o[w].0 != id.pid);
                    }
                    lemma_pid_total_absent(pre, id.pid);
                }
                out.push((id.pid, id.size as u64));
                proof {
                    assert(out@.drop_last() =~= o);
                    lemma_totals_push(pre, post, o, out@);
                }
            },
        }
        i += 1;
    }
    proof { assert(ids@.take(i as int) =~= ids@); }
    out
}

} // verus!
