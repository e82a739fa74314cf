//! How a migration plan is split into work per device, and the sizes it
//! moves: the largest single transfer, and the totals per process that the
//! migration summary reports.

use vstd::prelude::*;
use crate::plan::{MigrationPlan, MigrationSpecEntry};
use crate::scheduler::entry_sizes;
use crate::summary::{sizes_by_pid, totals_of};
use crate::types::{BufferId, GlobalDeviceId};

verus! {

/// The larger of two integers.
pub open spec fn max_int(a: int, b: int) -> int {
    if a >= b { a } else { b }
}

/// The total size of the buffers `ids`.
pub open spec fn ids_total(ids: Seq<BufferId>) -> int
    decreases ids.len(),
{
    if ids.len() == 0 {
        0
    } else {
        ids_total(ids.drop_last()) + ids.last().size
    }
}

proof fn lemma_ids_total_bound(ids: Seq<BufferId>)
    ensures
        0 <= ids_total(ids) <= ids.len() * 0xffff_ffff,
    decreases ids.len(),
{
    if ids.len() > 0 {
        lemma_ids_total_bound(ids.drop_last());
    }
}

proof fn lemma_entry_sizes_bound(es: Seq<MigrationSpecEntry>)
    ensures
        0 <= entry_sizes(es) <= es.len() * 0xffff_ffff,
    decreases es.len(),
{
    if es.len() > 0 {
        lemma_entry_sizes_bound(es.drop_last());
    }
}

/// The total size of the buffers `ids` (at most `u32::MAX` of them).
pub fn ids_size(ids: &Vec<BufferId>) -> (t: u64)
    requires
        ids@.len() <= u32::MAX,
    ensures
        t == ids_total(ids@),
{
    let mut t: u64 = 0;
    let mut i: usize = 0;
    while i < ids.len()
        invariant
            i <= ids@.len(),
            ids@.len() <= u32::MAX,
            t == ids_total(ids@.take(i as int)),
        decreases ids@.len() - i,
    {
        proof {
            assert(ids@.take(i + 1).drop_last() =~= ids@.take(i as int));
            lemma_ids_total_bound(ids@.take(i as int));
            assert(i * 0xffff_ffff + 0xffff_ffff <= u64::MAX) by (nonlinear_arith)
                requires
                    i < 0xffff_ffff,
            ;
        }
        t = t + ids[i].size as u64;
        i += 1;
    }
    proof {
        assert(ids@.take(i as int) =~= ids@);
    }
    t
}

/// The total size of the entries `es` (at most `u32::MAX` of them).
pub fn entries_size(es: &Vec<MigrationSpecEntry>) -> (t: u64)
    requires
        es@.len() <= u32::MAX,
    ensures
        t == entry_sizes(es@),
{
    let mut t: u64 = 0;
    let mut i: usize = 0;
    while i < es.len()
        invariant
            i <= es@.len(),
            es@.len() <= u32::MAX,
            t == entry_sizes(es@.take(i as int)),
        decreases es@.len() - i,
    {
        proof {
            assert(es@.take(i + 1).drop_last() =~= es@.take(i as int));
            lemma_entry_sizes_bound(es@.take(i as int));
            assert(i * 0xffff_ffff + 0xffff_ffff <= u64::MAX) by (nonlinear_arith)
                requires
                    i < 0xffff_ffff,
            ;
        }
        t = t + es[i].size as u64;
        i += 1;
    }
    proof {
        assert(es@.take(i as int) =~= es@);
    }
    t
}

/// The largest total among the lists of buffers moved off the devices.
pub open spec fn out_largest(v: Seq<(i32, GlobalDeviceId, Vec<MigrationSpecEntry>)>) -> int
    decreases v.len(),
{
    if v.len() == 0 {
        0
    } else {
        max_int(out_largest(v.drop_last()), entry_sizes(v.last().2@))
    }
}

/// The largest total among the lists of buffers moved onto the devices.
pub open spec fn in_largest(v: Seq<(GlobalDeviceId, Vec<MigrationSpecEntry>)>) -> int
    decreases v.len(),
{
    if v.len() == 0 {
        0
    } else {
        max_int(in_largest(v.drop_last()), entry_sizes(v.last().1@))
    }
}

/// The largest amount one stream of a migration moves: host memory to
/// shared memory, storage to shared memory, shared memory to the backing
/// stores, or the buffers of one process off one device, or onto one.
pub open spec fn spec_largest_transfer(plan: MigrationPlan) -> int {
    max_int(
        max_int(
            max_int(ids_total(plan.host_mem_to_shm@), ids_total(plan.storage_to_shm@)),
            ids_total(plan.shm_to_host_mem@) + ids_total(plan.shm_to_storage@),
        ),
        max_int(out_largest(plan.out_of_gpu@), in_largest(plan.into_gpu@)),
    )
}

/// No list of the plan holds more than `u32::MAX` buffers, counting the
/// two spill lists together.
pub open spec fn plan_bounded(plan: MigrationPlan) -> bool {
    &&& plan.host_mem_to_shm@.len() <= u32::MAX
    &&& plan.storage_to_shm@.len() <= u32::MAX
    &&& plan.shm_to_host_mem@.len() + plan.shm_to_storage@.len() <= u32::MAX
    &&& forall|i: int| 0 <= i < plan.out_of_gpu@.len() ==> (#[trigger] plan.out_of_gpu@[i]).2@.len() <= u32::MAX
    &&& forall|i: int| 0 <= i < plan.into_gpu@.len() ==> (#[trigger] plan.into_gpu@[i]).1@.len() <= u32::MAX
}

proof fn lemma_two_lists_fit(a: Seq<BufferId>, b: Seq<BufferId>)
    requires
        a.len() + b.len() <= u32::MAX,
    ensures
        ids_total(a) + ids_total(b) <= u64::MAX,
{
    lemma_ids_total_bound(a);
    lemma_ids_total_bound(b);
    assert((a.len() + b.len()) * 0xffff_ffff <= u64::MAX) by (nonlinear_arith)
        requires
            a.len() + b.len() <= 0xffff_ffff,
    ;
    assert(a.len() * 0xffff_ffff + b.len() * 0xffff_ffff == (a.len() + b.len()) * 0xffff_ffff) by (nonlinear_arith);
}

/// The largest amount one stream of the migration `plan` moves (see
/// `spec_largest_transfer`); zero when it moves nothing.
pub fn largest_transfer(plan: &MigrationPlan) -> (m: u64)
    requires
        plan_bounded(*plan),
    ensures
        m == spec_largest_transfer(*plan),
{
    let a = ids_size(&plan.host_mem_to_shm);
    let b = ids_size(&plan.storage_to_shm);
    proof {
        lemma_two_lists_fit(plan.shm_to_host_mem@, plan.shm_to_storage@);
    }
    let c1 = ids_size(&plan.shm_to_host_mem);
    let c2 = ids_size(&plan.shm_to_storage);
    let c = c1 + c2;
    let mut m: u64 = if a >= b { a } else { b };
    if c > m {
        m = c;
    }
    let mut o: u64 = 0;
    let mut i: usize = 0;
    while i < plan.out_of_gpu.len()
        invariant
            i <= plan.out_of_gpu@.len(),
            plan_bounded(*plan),
            o == out_largest(plan.out_of_gpu@.take(i as int)),
        decreases plan.out_of_gpu@.len() - i,
    {
        proof {
            assert(plan.out_of_gpu@.take(i + 1).drop_last() =~= plan.out_of_gpu@.take(i as int));
            assert(plan.out_of_gpu@[i as int].2@.len() <= u32::MAX);
        }
        let s = entries_size(&plan.out_of_gpu[i].2);
        if s > o {
            o = s;
        }
        i += 1;
    }
    proof {
        assert(plan.out_of_gpu@.take(i as int) =~= plan.out_of_gpu@);
    }
    let mut n: u64 = 0;
    let mut j: usize = 0;
    while j < plan.into_gpu.len()
        invariant
            j <= plan.into_gpu@.len(),
            plan_bounded(*plan),
            n == in_largest(plan.into_gpu@.take(j as int)),
        decreases plan.into_gpu@.len() - j,
    {
        proof {
            assert(plan.into_gpu@.take(j + 1).drop_last() =~= plan.into_gpu@.take(j as int));
            assert(plan.into_gpu@[j as int].1@.len() <= u32::MAX);
        }
        let s = entries_size(&plan.into_gpu[j].1);
        if s > n {
            n = s;
        }
        j += 1;
    }
    proof {
        assert(plan.into_gpu@.take(j as int) =~= plan.into_gpu@);
    }
    let d = if o >= n { o } else { n };
    if d > m { d } else { m }
}

/// Whether the plan moves buffers off device `d` or onto it.
pub open spec fn involves(plan: MigrationPlan, d: GlobalDeviceId) -> bool {
    (exists|i: int| 0 <= i < plan.out_of_gpu@.len() && (#[trigger] plan.out_of_gpu@[i]).1 == d)
        || (exists|j: int| 0 <= j < plan.into_gpu@.len() && (#[trigger] plan.into_gpu@[j]).0 == d)
}

/// The devices are listed by strictly increasing number.
pub open spec fn devices_sorted(v: Seq<GlobalDeviceId>) -> bool {
    forall|a: int, b: int| 0 <= a < b < v.len() ==> (#[trigger] v[a]).0 < (#[trigger] v[b]).0
}

proof fn lemma_insert_contains(v0: Seq<GlobalDeviceId>, k: int, d: GlobalDeviceId)
    requires
        0 <= k <= v0.len(),
    ensures
        forall|x: GlobalDeviceId| #[trigger] v0.insert(k, d).contains(x) <==> (v0.contains(x) || x == d),
{
    let v = v0.insert(k, d);
    assert forall|x: GlobalDeviceId| #[trigger] v.contains(x) <==> (v0.contains(x) || x == d) by {
        if v.contains(x) {
            let w = choose|w: int| 0 <= w < v.len() && v[w] == x;
            if w < k {
                assert(v0[w] == x);
            } else if w > k {
                assert(v0[w - 1] == x);
            }
        }
        if v0.contains(x) {
            let w = choose|w: int| 0 <= w < v0.len() && v0[w] == x;
            if w < k {
                assert(v[w] == x);
            } else {
                assert(v[w + 1] == x);
            }
        }
        if x == d {
            assert(v[k] == x);
        }
    }
}

/// `v` with `d` added in its place, unless it is there already.
fn insert_device(v: &mut Vec<GlobalDeviceId>, d: GlobalDeviceId)
    requires
        devices_sorted(old(v)@),
    ensures
        devices_sorted(final(v)@),
        forall|x: GlobalDeviceId| final(v)@.contains(x) <==> (old(v)@.contains(x) || x == d),
{
    let mut k: usize = 0;
    while k < v.len() && v[k].0 < d.0
        invariant
            k <= v@.len(),
            v@ == old(v)@,
            forall|q: int| 0 <= q < k ==> (#[trigger] v@[q]).0 < d.0,
        decreases v@.len() - k,
    {
        k += 1;
    }
    let ghost v0 = v@;
    if k < v.len() && v[k].0 == d.0 {
        proof {
            assert(v0[k as int] == d);
            assert forall|x: GlobalDeviceId| v@.contains(x) <==> (v0.contains(x) || x == d) by {
                if x == d {
                    assert(v@[k as int] == x);
                }
            }
        }
        return;
    }
    v.insert(k, d);
    proof {
        assert forall|a: int, b: int| 0 <= a < b < v@.len() implies (#[trigger] v@[a]).0 < (#[trigger] v@[b]).0 by {
            if b < k {
                assert(v@[a] == v0[a] && v@[b] == v0[b]);
            } else if b == k {
                assert(v@[a] == v0[a]);
            } else if a < k {
                assert(v@[a] == v0[a] && v@[b] == v0[b - 1]);
                assert(v0[k as int].0 >= d.0);
                if b - 1 > k {
                    assert(v0[k as int].0 < v0[b - 1].0);
                }
            } else if a == k {
                assert(v@[b] == v0[b - 1]);
                if b - 1 > k {
                    assert(v0[k as int].0 < v0[b - 1].0);
                }
            } else {
                assert(v@[a] == v0[a - 1] && v@[b] == v0[b - 1]);
            }
        }
        assert(v@ == v0.insert(k as int, d));
        lemma_insert_contains(v0, k as int, d);
        assert(v0 == old(v)@);
    }
}

/// The devices the plan moves buffers off or onto, each once, by
/// increasing number.
pub fn devices_involved(plan: &MigrationPlan) -> (devs: Vec<GlobalDeviceId>)
    ensures
        devices_sorted(devs@),
        forall|d: GlobalDeviceId| devs@.contains(d) <==> involves(*plan, d),
{
    let mut devs: Vec<GlobalDeviceId> = Vec::new();
    let mut i: usize = 0;
    while i < plan.out_of_gpu.len()
        invariant
            i <= plan.out_of_gpu@.len(),
            devices_sorted(devs@),
            forall|d: GlobalDeviceId| devs@.contains(d) <==> exists|q: int| 0 <= q < i && (#[trigger] plan.out_of_gpu@[q]).1 == d,
        decreases plan.out_of_gpu@.len() - i,
    {
        let ghost before = devs@;
        insert_device(&mut devs, plan.out_of_gpu[i].1);
        proof {
            assert forall|d: GlobalDeviceId| devs@.contains(d) <==> exists|q: int| 0 <= q < i + 1 && (#[trigger] plan.out_of_gpu@[q]).1 == d by {
                if devs@.contains(d) && d != plan.out_of_gpu@[i as int].1 {
                    assert(before.contains(d));
                }
                if exists|q: int| 0 <= q < i + 1 && (#[trigger] plan.out_of_gpu@[q]).1 == d {
                    let q = choose|q: int| 0 <= q < i + 1 && (#[trigger] plan.out_of_gpu@[q]).1 == d;
                    if q < i {
                        assert(before.contains(d));
                    }
                }
            }
        }
        i += 1;
    }
    let mut j: usize = 0;
    while j < plan.into_gpu.len()
        invariant
            j <= plan.into_gpu@.len(),
            devices_sorted(devs@),
            forall|d: GlobalDeviceId| devs@.contains(d) <==> (
                (exists|q: int| 0 <= q < plan.out_of_gpu@.len() && (#[trigger] plan.out_of_gpu@[q]).1 == d)
                || exists|q: int| 0 <= q < j && (#[trigger] plan.into_gpu@[q]).0 == d),
        decreases plan.into_gpu@.len() - j,
    {
        let ghost before = devs@;
        insert_device(&mut devs, plan.into_gpu[j].0);
        proof {
            assert forall|d: GlobalDeviceId| devs@.contains(d) <==> (
                (exists|q: int| 0 <= q < plan.out_of_gpu@.len() && (#[trigger] plan.out_of_gpu@[q]).1 == d)
                || exists|q: int| 0 <= q < j + 1 && (#[trigger] plan.into_gpu@[q]).0 == d) by {
                if devs@.contains(d) && d != plan.into_gpu@[j as int].0 {
                    assert(before.contains(d));
                }
                if exists|q: int| 0 <= q < j + 1 && (#[trigger] plan.into_gpu@[q]).0 == d {
                    let q = choose|q: int| 0 <= q < j + 1 && (#[trigger] plan.into_gpu@[q]).0 == d;
                    if q < j {
                        assert(before.contains(d));
                    }
                }
            }
        }
        j += 1;
    }
    devs
}

/// A copy of `es`.
fn copy_entries(es: &Vec<MigrationSpecEntry>) -> (c: Vec<MigrationSpecEntry>)
    ensures
        c@ == es@,
{
    let mut c: Vec<MigrationSpecEntry> = Vec::new();
    let mut i: usize = 0;
    while i < es.len()
        invariant
            i <= es@.len(),
            c@ == es@.take(i as int),
        decreases es@.len() - i,
    {
        c.push(es[i]);
        i += 1;
        proof {
            assert(c@ =~= es@.take(i as int));
        }
    }
    proof {
        assert(es@.take(i as int) =~= es@);
    }
    c
}

/// The buffers moved off device `d`, per process, in the plan's order.
pub open spec fn sources_on(v: Seq<(i32, GlobalDeviceId, Vec<MigrationSpecEntry>)>, d: GlobalDeviceId) -> Seq<(i32, Seq<MigrationSpecEntry>)>
    decreases v.len(),
{
    if v.len() == 0 {
        Seq::empty()
    } else if v.last().1 == d {
        sources_on(v.drop_last(), d).push((v.last().0, v.last().2@))
    } else {
        sources_on(v.drop_last(), d)
    }
}

/// Pairs of process and entry list, the lists as plain sequences.
pub open spec fn pid_lists_view(v: Seq<(i32, Vec<MigrationSpecEntry>)>) -> Seq<(i32, Seq<MigrationSpecEntry>)> {
    Seq::new(v.len(), |k: int| (v[k].0, v[k].1@))
}

/// The buffers the plan moves off device `d`, per process, in the plan's
/// order.
pub fn sources_for_device(plan: &MigrationPlan, d: GlobalDeviceId) -> (src: Vec<(i32, Vec<MigrationSpecEntry>)>)
    ensures
        pid_lists_view(src@) == sources_on(plan.out_of_gpu@, d),
{
    let mut out: Vec<(i32, Vec<MigrationSpecEntry>)> = Vec::new();
    let mut i: usize = 0;
    while i < plan.out_of_gpu.len()
        invariant
            i <= plan.out_of_gpu@.len(),
            pid_lists_view(out@) == sources_on(plan.out_of_gpu@.take(i as int), d),
        decreases plan.out_of_gpu@.len() - i,
    {
        proof {
            assert(plan.out_of_gpu@.take(i + 1).drop_last() =~= plan.out_of_gpu@.take(i as int));
        }
        if plan.out_of_gpu[i].1 == d {
            let es = copy_entries(&plan.out_of_gpu[i].2);
            let ghost before = out@;
            out.push((plan.out_of_gpu[i].0, es));
            proof {
                assert(pid_lists_view(out@) =~= pid_lists_view(before).push((plan.out_of_gpu@[i as int].0, plan.out_of_gpu@[i as int].2@)));
            }
        }
        i += 1;
    }
    proof {
        assert(plan.out_of_gpu@.take(i as int) =~= plan.out_of_gpu@);
    }
    out
}

/// The buffers the plan moves onto device `d`: those of the first list for
/// `d`, or none.
pub open spec fn incoming_on(v: Seq<(GlobalDeviceId, Vec<MigrationSpecEntry>)>, d: GlobalDeviceId) -> Seq<MigrationSpecEntry> {
    if exists|j: int| 0 <= j < v.len() && (#[trigger] v[j]).0 == d {
        v[choose|j: int| 0 <= j < v.len() && (#[trigger] v[j]).0 == d && forall|q: int| 0 <= q < j ==> (#[trigger] v[q]).0 != d].1@
    } else {
        Seq::empty()
    }
}

/// The buffers the plan moves onto device `d` (see `incoming_on`).
pub fn incoming_for_device(plan: &MigrationPlan, d: GlobalDeviceId) -> (es: Vec<MigrationSpecEntry>)
    ensures
        es@ == incoming_on(plan.into_gpu@, d),
{
    let v = &plan.into_gpu;
    let mut j: usize = 0;
    while j < v.len()
        invariant
            j <= v@.len(),
            *v == plan.into_gpu,
            forall|q: int| 0 <= q < j ==> (#[trigger] v@[q]).0 != d,
        decreases v@.len() - j,
    {
        if v[j].0 == d {
            proof {
                let w = choose|w: int| 0 <= w < v@.len() && (#[trigger] v@[w]).0 == d && forall|q: int| 0 <= q < w ==> (#[trigger] v@[q]).0 != d;
                assert(0 <= j < v@.len() && v@[j as int].0 == d && forall|q: int| 0 <= q < j ==> (#[trigger] v@[q]).0 != d);
                if w < j {
                    assert(v@[w].0 != d);
                } else if w > j {
                    assert(v@[j as int].0 != d);
                }
            }
            return copy_entries(&v[j].1);
        }
        j += 1;
    }
    Vec::new()
}

/// The totals a migration summary reports: the incoming process with the
/// total it brings onto the devices (if any), and the totals per process
/// of each stream.
pub struct MigrationTotals {
    pub into_gpu: Option<(i32, u64)>,
    pub out_of_gpu: Vec<(i32, u64)>,
    pub host_mem_to_shm: Vec<(i32, u64)>,
    pub storage_to_shm: Vec<(i32, u64)>,
    pub shm_to_backend: Vec<(i32, u64)>,
}

/// The buffers moved off the devices, each named.
pub open spec fn out_ids(v: Seq<(i32, GlobalDeviceId, Vec<MigrationSpecEntry>)>) -> Seq<BufferId>
    decreases v.len(),
{
    if v.len() == 0 {
        Seq::empty()
    } else {
        out_ids(v.drop_last()) + v.last().2@.map_values(
            |e: MigrationSpecEntry| crate::plan::entry_buffer_id(e, v.last().0, v.last().1),
        )
    }
}

/// The total size of all the buffers moved onto the devices.
pub open spec fn into_total(v: Seq<(GlobalDeviceId, Vec<MigrationSpecEntry>)>) -> int
    decreases v.len(),
{
    if v.len() == 0 {
        0
    } else {
        into_total(v.drop_last()) + entry_sizes(v.last().1@)
    }
}

/// Each list of the plan is short enough for its totals to fit a `u64`
/// (see `totals_by_stream`).
pub open spec fn summary_bounded(plan: MigrationPlan) -> bool {
    &&& out_ids(plan.out_of_gpu@).len() <= u32::MAX
    &&& plan.host_mem_to_shm@.len() <= u32::MAX
    &&& plan.storage_to_shm@.len() <= u32::MAX
    &&& plan.shm_to_host_mem@.len() + plan.shm_to_storage@.len() <= u32::MAX
    &&& into_total(plan.into_gpu@) <= u64::MAX
}

/// The totals a summary of the migration `plan` of process `into_pid`
/// reports: what the incoming process brings onto the devices (when it
/// is given), and per process what leaves the devices, what comes into
/// shared memory from host memory and from storage, and what leaves
/// shared memory for the backing stores.
pub fn totals_by_stream(plan: &MigrationPlan, into_pid: Option<i32>) -> (t: MigrationTotals)
    requires
        summary_bounded(*plan),
    ensures
        t.into_gpu == (match into_pid {
            Some(p) => Some((p, into_total(plan.into_gpu@) as u64)),
            None => None::<(i32, u64)>,
        }),
        totals_of(out_ids(plan.out_of_gpu@), t.out_of_gpu@),
        totals_of(plan.host_mem_to_shm@, t.host_mem_to_shm@),
        totals_of(plan.storage_to_shm@, t.storage_to_shm@),
        totals_of(plan.shm_to_host_mem@ + plan.shm_to_storage@, t.shm_to_backend@),
{
    let mut ids: Vec<BufferId> = Vec::new();
    let mut i: usize = 0;
    while i < plan.out_of_gpu.len()
        invariant
            i <= plan.out_of_gpu@.len(),
            ids@ == out_ids(plan.out_of_gpu@.take(i as int)),
        decreases plan.out_of_gpu@.len() - i,
    {
        proof {
            assert(plan.out_of_gpu@.take(i + 1).drop_last() =~= plan.out_of_gpu@.take(i as int));
        }
        let pid = plan.out_of_gpu[i].0;
        let dev = plan.out_of_gpu[i].1;
        let es = &plan.out_of_gpu[i].2;
        let ghost start = ids@;
        let mut k: usize = 0;
        while k < es.len()
            invariant
                k <= es@.len(),
                *es == plan.out_of_gpu@[i as int].2,
                pid == plan.out_of_gpu@[i as int].0,
                dev == plan.out_of_gpu@[i as int].1,
                ids@ == start + es@.take(k as int).map_values(|e: MigrationSpecEntry| crate::plan::entry_buffer_id(e, pid, dev)),
            decreases es@.len() - k,
        {
            let ghost before = ids@;
            ids.push(es[k].to_buffer_id(pid, dev));
            k += 1;
            proof {
                assert(es@.take(k as int).map_values(|e: MigrationSpecEntry| crate::plan::entry_buffer_id(e, pid, dev))
                    =~= es@.take(k - 1).map_values(|e: MigrationSpecEntry| crate::plan::entry_buffer_id(e, pid, dev)).push(
                        crate::plan::entry_buffer_id(es@[k - 1], pid, dev)));
                assert(ids@ =~= start + es@.take(k as int).map_values(|e: MigrationSpecEntry| crate::plan::entry_buffer_id(e, pid, dev)));
            }
        }
        proof {
            assert(es@.take(k as int) =~= es@);
        }
        i += 1;
    }
    proof {
        assert(plan.out_of_gpu@.take(i as int) =~= plan.out_of_gpu@);
    }
    let out_of_gpu = sizes_by_pid(&ids);
    let host_mem_to_shm = sizes_by_pid(&plan.host_mem_to_shm);
    let storage_to_shm = sizes_by_pid(&plan.storage_to_shm);
    let mut backend: Vec<BufferId> = Vec::new();
    let mut a: usize = 0;
    while a < plan.shm_to_host_mem.len()
        invariant
            a <= plan.shm_to_host_mem@.len(),
            backend@ == plan.shm_to_host_mem@.take(a as int),
        decreases plan.shm_to_host_mem@.len() - a,
    {
        backend.push(plan.shm_to_host_mem[a]);
        a += 1;
        proof {
            assert(backend@ =~= plan.shm_to_host_mem@.take(a as int));
        }
    }
    let mut b: usize = 0;
    while b < plan.shm_to_storage.len()
        invariant
            b <= plan.shm_to_storage@.len(),
            a == plan.shm_to_host_mem@.len(),
            backend@ == plan.shm_to_host_mem@.take(a as int) + plan.shm_to_storage@.take(b as int),
        decreases plan.shm_to_storage@.len() - b,
    {
        backend.push(plan.shm_to_storage[b]);
        b += 1;
        proof {
            assert(backend@ =~= plan.shm_to_host_mem@.take(a as int) + plan.shm_to_storage@.take(b as int));
        }
    }
    proof {
        assert(plan.shm_to_host_mem@.take(a as int) =~= plan.shm_to_host_mem@);
        assert(plan.shm_to_storage@.take(b as int) =~= plan.shm_to_storage@);
    }
    let shm_to_backend = sizes_by_pid(&backend);
    let into_gpu = match into_pid {
        Some(p) => {
            let mut total: u64 = 0;
            let mut j: usize = 0;
            while j < plan.into_gpu.len()
                invariant
                    j <= plan.into_gpu@.len(),
                    into_total(plan.into_gpu@) <= u64::MAX,
                    total == into_total(plan.into_gpu@.take(j as int)),
                decreases plan.into_gpu@.len() - j,
            {
                proof {
                    assert(plan.into_gpu@.take(j + 1).drop_last() =~= plan.into_gpu@.take(j as int));
                    lemma_into_total_prefix(plan.into_gpu@, j + 1);
                    lemma_into_total_nonneg(plan.into_gpu@.take(j as int));
                }
                let s = entries_sum(&plan.into_gpu[j].1);
                total = total + s;
                j += 1;
            }
            proof {
                assert(plan.into_gpu@.take(j as int) =~= plan.into_gpu@);
            }
            Some((p, total))
        },
        None => None,
    };
    MigrationTotals { into_gpu, out_of_gpu, host_mem_to_shm, storage_to_shm, shm_to_backend }
}

proof fn lemma_into_total_nonneg(v: Seq<(GlobalDeviceId, Vec<MigrationSpecEntry>)>)
    ensures
        into_total(v) >= 0,
    decreases v.len(),
{
    if v.len() > 0 {
        lemma_into_total_nonneg(v.drop_last());
        lemma_entry_sizes_bound(v.last().1@);
    }
}

proof fn lemma_into_total_prefix(v: Seq<(GlobalDeviceId, Vec<MigrationSpecEntry>)>, k: int)
    requires
        0 <= k <= v.len(),
    ensures
        into_total(v.take(k)) <= into_total(v),
    decreases v.len(),
{
    if k < v.len() {
        assert(v.drop_last().take(k) =~= v.take(k));
        lemma_into_total_prefix(v.drop_last(), k);
        lemma_entry_sizes_bound(v.last().1@);
    } else {
        assert(v.take(k) =~= v);
    }
}

/// The total size of the entries `es`, which fits a `u64`.
fn entries_sum(es: &Vec<MigrationSpecEntry>) -> (t: u64)
    requires
        entry_sizes(es@) <= u64::MAX,
    ensures
        t == entry_sizes(es@),
{
    let mut t: u64 = 0;
    let mut i: usize = 0;
    while i < es.len()
        invariant
            i <= es@.len(),
            entry_sizes(es@) <= u64::MAX,
            t == entry_sizes(es@.take(i as int)),
        decreases es@.len() - i,
    {
        proof {
            assert(es@.take(i + 1).drop_last() =~= es@.take(i as int));
            lemma_entry_prefix_le(es@, i + 1);
        }
        t = t + es[i].size as u64;
        i += 1;
    }
    proof {
        assert(es@.take(i as int) =~= es@);
    }
    t
}

proof fn lemma_entry_prefix_le(es: Seq<MigrationSpecEntry>, k: int)
    requires
        0 <= k <= es.len(),
    ensures
        entry_sizes(es.take(k)) <= entry_sizes(es),
    decreases es.len(),
{
    if k < es.len() {
        assert(es.drop_last().take(k) =~= es.take(k));
        lemma_entry_prefix_le(es.drop_last(), k);
        lemma_entry_sizes_bound(es.drop_last());
    } else {
        assert(es.take(k) =~= es);
    }
}

} // verus!
