//! Prefetch orders from the control tool: which are accepted, and how they
//! are turned into migration work.

use vstd::prelude::*;
use crate::plan::{
    device_entries, find_device, pmd_sizes, taken_from, allocations_wf, PhysicalMemoryData,
    ProcessResidualData,
};
use crate::parse::MoveOperation;
use crate::types::{BufferLocation, GlobalDeviceId};

verus! {

/// One movement asked for by a prefetch order, for a known process.
#[derive(Debug, Clone, Copy, PartialEq, Eq, Structural)]
pub struct PrefetchItem {
    pub pid: i32,
    pub from: BufferLocation,
    pub to: BufferLocation,
    pub size: u64,
}

/// One movement of a process's data between the daemon's stores.
#[derive(Debug, Clone, Copy, PartialEq, Eq, Structural)]
pub struct MigrationRequirement {
    pub from: BufferLocation,
    pub to: BufferLocation,
    pub size: u64,
    pub allow_incomplete: bool,
}

/// Why a prefetch order is refused.
#[derive(Debug, Clone, Copy, PartialEq, Eq, Structural)]
pub enum PrefetchRefusal {
    /// It concerns the process holding the devices.
    ActiveProcess(i32),
    /// It moves data off a device.
    FromGpu,
    /// Its movements onto devices concern more than one process.
    MixedGpuProcesses,
    /// The process its movements onto devices concern is not connected.
    UnknownClient(i32),
}

/// The movements of `s` onto a device, in order.
pub open spec fn gpu_items(s: Seq<PrefetchItem>) -> Seq<PrefetchItem>
    decreases s.len(),
{
    if s.len() == 0 {
        Seq::empty()
    } else if s.last().to is Gpu {
        gpu_items(s.drop_last()).push(s.last())
    } else {
        gpu_items(s.drop_last())
    }
}

/// The movements of `s` not onto a device, in order.
pub open spec fn other_items(s: Seq<PrefetchItem>) -> Seq<PrefetchItem>
    decreases s.len(),
{
    if s.len() == 0 {
        Seq::empty()
    } else if s.last().to is Gpu {
        other_items(s.drop_last())
    } else {
        other_items(s.drop_last()).push(s.last())
    }
}

/// The answer to a prefetch order `s` while `active` holds the devices: it
/// is refused if it concerns the active process, then if it moves data off
/// a device, then if its movements onto devices concern more than one
/// process; else it is split into the movements onto devices and the
/// others.
pub open spec fn spec_check_prefetch(s: Seq<PrefetchItem>, active: Option<i32>) -> Result<(Seq<PrefetchItem>, Seq<PrefetchItem>), PrefetchRefusal> {
    if active is Some && exists|i: int| 0 <= i < s.len() && (#[trigger] s[i]).pid == active->0 {
        Err(PrefetchRefusal::ActiveProcess(active->0))
    } else if exists|i: int| 0 <= i < s.len() && (#[trigger] s[i]).from is Gpu {
        Err(PrefetchRefusal::FromGpu)
    } else if exists|i: int| 0 <= i < gpu_items(s).len() && (#[trigger] gpu_items(s)[i]).pid != gpu_items(s)[0].pid {
        Err(PrefetchRefusal::MixedGpuProcesses)
    } else {
        Ok((gpu_items(s), other_items(s)))
    }
}

/// Checks a prefetch order `list` while `active_pid` holds the devices
/// (see `spec_check_prefetch`).
pub fn check_prefetch(list: &Vec<PrefetchItem>, active_pid: Option<i32>) -> (r: Result<(Vec<PrefetchItem>, Vec<PrefetchItem>), PrefetchRefusal>)
    ensures
        match r {
            Ok((g, o)) => spec_check_prefetch(list@, active_pid) == Ok::<(Seq<PrefetchItem>, Seq<PrefetchItem>), PrefetchRefusal>((g@, o@)),
            Err(e) => spec_check_prefetch(list@, active_pid) == Err::<(Seq<PrefetchItem>, Seq<PrefetchItem>), PrefetchRefusal>(e),
        },
{
    let n = list.len();
    let ghost first_ok = !(active_pid is Some && exists|k: int| 0 <= k < list@.len() && (#[trigger] list@[k]).pid == active_pid->0);
    match active_pid {
        Some(a) => {
            let mut i: usize = 0;
            while i < n
                invariant
                    n == list@.len(),
                    i <= n,
                    active_pid == Some(a),
                    forall|k: int| 0 <= k < i ==> (#[trigger] list@[k]).pid != a,
                decreases n - i,
            {
                if list[i].pid == a {
                    proof { assert(list@[i as int].pid == a); }
                    return Err(PrefetchRefusal::ActiveProcess(a));
                }
                i += 1;
            }
        },
        None => {},
    }
    proof {
        assert(first_ok);
    }
    let mut i: usize = 0;
    while i < n
        invariant
            n == list@.len(),
            i <= n,
            first_ok,
            first_ok == !(active_pid is Some && exists|k: int| 0 <= k < list@.len() && (#[trigger] list@[k]).pid == active_pid->0),
            forall|k: int| 0 <= k < i ==> !((#[trigger] list@[k]).from is Gpu),
        decreases n - i,
    {
        if let BufferLocation::Gpu(_) = list[i].from {
            proof {
                assert(list@[i as int].from is Gpu);
                assert(!(active_pid is Some && exists|k: int| 0 <= k < list@.len() && (#[trigger] list@[k]).pid == active_pid->0));
            }
            return Err(PrefetchRefusal::FromGpu);
        }
        i += 1;
    }
    let mut gpu: Vec<PrefetchItem> = Vec::new();
    let mut other: Vec<PrefetchItem> = Vec::new();
    let mut i: usize = 0;
    while i < n
        invariant
            n == list@.len(),
            i <= n,
            first_ok == !(active_pid is Some && exists|k: int| 0 <= k < list@.len() && (#[trigger] list@[k]).pid == active_pid->0),
            first_ok,
            forall|k: int| 0 <= k < list@.len() ==> !((#[trigger] list@[k]).from is Gpu),
            gpu@ == gpu_items(list@.take(i as int)),
            other@ == other_items(list@.take(i as int)),
        decreases n - i,
    {
        proof {
            assert(list@.take(i + 1).drop_last() =~= list@.take(i as int));
            assert(list@.take(i + 1).last() == list@[i as int]);
        }
        let item = list[i];
        if let BufferLocation::Gpu(_) = item.to {
            gpu.push(item);
        } else {
            other.push(item);
        }
        i += 1;
    }
    proof { assert(list@.take(n as int) =~= list@); }
    if gpu.len() > 0 {
        let first = gpu[0].pid;
        let mut j: usize = 0;
        while j < gpu.len()
            invariant
                j <= gpu@.len(),
                gpu@ == gpu_items(list@),
                first_ok == !(active_pid is Some && exists|k: int| 0 <= k < list@.len() && (#[trigger] list@[k]).pid == active_pid->0),
                first_ok,
                forall|k: int| 0 <= k < list@.len() ==> !((#[trigger] list@[k]).from is Gpu),
                gpu@.len() > 0,
                first == gpu@[0].pid,
                forall|k: int| 0 <= k < j ==> (#[trigger] gpu@[k]).pid == first,
            decreases gpu@.len() - j,
        {
            if gpu[j].pid != first {
                proof {
                    assert(gpu_items(list@)[j as int].pid != gpu_items(list@)[0].pid);
                }
                return Err(PrefetchRefusal::MixedGpuProcesses);
            }
            j += 1;
        }
    }
    Ok((gpu, other))
}

/// Whether `pid` is among `listed`.
pub fn pid_listed(listed: &Vec<i32>, pid: i32) -> (r: bool)
    ensures
        r == listed@.contains(pid),
{
    let mut i: usize = 0;
    while i < listed.len()
        invariant
            i <= listed@.len(),
            forall|k: int| 0 <= k < i ==> listed@[k] != pid,
        decreases listed@.len() - i,
    {
        if listed[i] == pid {
            proof { assert(listed@[i as int] == pid); }
            return true;
        }
        i += 1;
    }
    false
}

/// The answer to a prefetch order `s` while `active` holds the devices and
/// the processes `listed` are connected: the refusals of
/// `spec_check_prefetch`, then the refusal of movements onto devices for a
/// process that is not connected; else the two lists of movements.
pub open spec fn spec_admit_prefetch(s: Seq<PrefetchItem>, active: Option<i32>, listed: Seq<i32>) -> Result<(Seq<PrefetchItem>, Seq<PrefetchItem>), PrefetchRefusal> {
    match spec_check_prefetch(s, active) {
        Err(e) => Err(e),
        Ok((g, o)) => if g.len() > 0 && !listed.contains(g[0].pid) {
            Err(PrefetchRefusal::UnknownClient(g[0].pid))
        } else {
            Ok((g, o))
        },
    }
}

/// Decides a prefetch order `list` before any data moves: checked as by
/// `check_prefetch`, and refused when the process its movements onto
/// devices concern is not among the connected processes `listed` (see
/// `spec_admit_prefetch`).
pub fn admit_prefetch(list: &Vec<PrefetchItem>, active_pid: Option<i32>, listed: &Vec<i32>) -> (r: Result<(Vec<PrefetchItem>, Vec<PrefetchItem>), PrefetchRefusal>)
    ensures
        match r {
            Ok((g, o)) => spec_admit_prefetch(list@, active_pid, listed@) == Ok::<(Seq<PrefetchItem>, Seq<PrefetchItem>), PrefetchRefusal>((g@, o@)),
            Err(e) => spec_admit_prefetch(list@, active_pid, listed@) == Err::<(Seq<PrefetchItem>, Seq<PrefetchItem>), PrefetchRefusal>(e),
        },
{
    match check_prefetch(list, active_pid) {
        Err(e) => Err(e),
        Ok((g, o)) => {
            if g.len() > 0 && !pid_listed(listed, g[0].pid) {
                Err(PrefetchRefusal::UnknownClient(g[0].pid))
            } else {
                Ok((g, o))
            }
        },
    }
}

/// `m` with device `d` mapped to `v`: replaced where `d` occurs, else added
/// at the end.
pub open spec fn map_insert(m: Seq<(GlobalDeviceId, Seq<PhysicalMemoryData>)>, d: GlobalDeviceId, v: Seq<PhysicalMemoryData>) -> Seq<(GlobalDeviceId, Seq<PhysicalMemoryData>)> {
    if exists|j: int| 0 <= j < m.len() && (#[trigger] m[j]).0 == d {
        m.update(choose|j: int| 0 <= j < m.len() && (#[trigger] m[j]).0 == d, (d, v))
    } else {
        m.push((d, v))
    }
}

/// No device occurs twice in `m`.
pub open spec fn keys_unique(m: Seq<(GlobalDeviceId, Seq<PhysicalMemoryData>)>) -> bool {
    forall|a: int, b: int| 0 <= a < m.len() && 0 <= b < m.len() && a != b ==> (#[trigger] m[a]).0 != (#[trigger] m[b]).0
}

/// The device a movement goes to, if it goes to one.
pub open spec fn target_device(item: PrefetchItem) -> Option<GlobalDeviceId> {
    match item.to {
        BufferLocation::Gpu(d) => Some(d),
        _ => None,
    }
}

/// The allocations of the incoming process picked for the movements `reqs`
/// onto devices: for each movement in turn, if the process has allocations
/// on its device, those taken in order while fewer than its size are
/// gathered; a later movement onto the same device replaces an earlier
/// one's pick.
pub open spec fn spec_match_residuals(reqs: Seq<PrefetchItem>, allocs: Seq<(GlobalDeviceId, Vec<PhysicalMemoryData>)>) -> Seq<(GlobalDeviceId, Seq<PhysicalMemoryData>)>
    decreases reqs.len(),
{
    if reqs.len() == 0 {
        Seq::empty()
    } else {
        let m = spec_match_residuals(reqs.drop_last(), allocs);
        let r = reqs.last();
        match target_device(r) {
            None => m,
            Some(d) => match device_entries(allocs, d) {
                None => m,
                Some(es) => map_insert(m, d, es.take(taken_from(es, 0, 0, r.size as int) as int)),
            },
        }
    }
}

/// Every device's allocations total at most `u64::MAX` bytes.
pub open spec fn allocation_totals_fit(allocs: Seq<(GlobalDeviceId, Vec<PhysicalMemoryData>)>) -> bool {
    forall|j: int| 0 <= j < allocs.len() ==> pmd_sizes((#[trigger] allocs[j]).1@) <= u64::MAX
}

/// Pairs of devices and allocation lists, the lists as plain sequences.
pub open spec fn dev_lists_view(v: Seq<(GlobalDeviceId, Vec<PhysicalMemoryData>)>) -> Seq<(GlobalDeviceId, Seq<PhysicalMemoryData>)>
    decreases v.len(),
{
    if v.len() == 0 {
        Seq::empty()
    } else {
        dev_lists_view(v.drop_last()).push((v.last().0, v.last().1@))
    }
}

proof fn lemma_dev_lists_view_len(v: Seq<(GlobalDeviceId, Vec<PhysicalMemoryData>)>)
    ensures
        dev_lists_view(v).len() == v.len(),
        forall|k: int| 0 <= k < v.len() ==> (#[trigger] dev_lists_view(v)[k]) == (v[k].0, v[k].1@),
    decreases v.len(),
{
    if v.len() > 0 {
        lemma_dev_lists_view_len(v.drop_last());
        assert forall|k: int| 0 <= k < v.len() implies (#[trigger] dev_lists_view(v)[k]) == (v[k].0, v[k].1@) by {
            if k < v.len() - 1 {
                assert(dev_lists_view(v.drop_last())[k] == (v.drop_last()[k].0, v.drop_last()[k].1@));
            }
        }
    }
}

proof fn lemma_pmd_prefix_bounded(es: Seq<PhysicalMemoryData>, k: int)
    requires
        0 <= k <= es.len(),
    ensures
        pmd_sizes(es.take(k)) <= pmd_sizes(es),
        pmd_sizes(es.take(k)) >= 0,
    decreases es.len(),
{
    if k < es.len() {
        assert(es.drop_last().take(k) =~= es.take(k));
        lemma_pmd_prefix_bounded(es.drop_last(), k);
    } else {
        assert(es.take(k) =~= es);
        lemma_pmd_nonneg(es);
    }
}

proof fn lemma_pmd_nonneg(es: Seq<PhysicalMemoryData>)
    ensures
        pmd_sizes(es) >= 0,
    decreases es.len(),
{
    if es.len() > 0 {
        lemma_pmd_nonneg(es.drop_last());
    }
}

/// The allocations `es` taken in order while fewer than `size` bytes are
/// gathered.
fn take_for_size(es: &Vec<PhysicalMemoryData>, size: u64) -> (taken: Vec<PhysicalMemoryData>)
    requires
        pmd_sizes(es@) <= u64::MAX,
    ensures
        taken@ == es@.take(taken_from(es@, 0, 0, size as int) as int),
{
    let mut out: Vec<PhysicalMemoryData> = Vec::new();
    let mut acc: u64 = 0;
    let mut i: usize = 0;
    while i < es.len() && acc < size
        invariant
            i <= es@.len(),
            pmd_sizes(es@) <= u64::MAX,
            acc == pmd_sizes(es@.take(i as int)),
            out@ == es@.take(i as int),
            taken_from(es@, 0, 0, size as int) == taken_from(es@, i as nat, 0, size as int),
        decreases es@.len() - i,
    {
        proof {
            assert(es@.take(i + 1).drop_last() =~= es@.take(i as int));
            lemma_pmd_prefix_bounded(es@, i + 1);
        }
        out.push(es[i]);
        acc = acc + es[i].size;
        i += 1;
        proof { assert(out@ =~= es@.take(i as int)); }
    }
    out
}

/// The position of device `d` in `m`, if it occurs.
fn find_key(m: &Vec<(GlobalDeviceId, Vec<PhysicalMemoryData>)>, d: GlobalDeviceId) -> (k: Option<usize>)
    ensures
        match k {
            Some(k) => k < m@.len() && m@[k as int].0 == d,
            None => forall|q: int| 0 <= q < m@.len() ==> (#[trigger] m@[q]).0 != d,
        },
{
    let mut k: usize = 0;
    while k < m.len()
        invariant
            k <= m@.len(),
            forall|q: int| 0 <= q < k ==> (#[trigger] m@[q]).0 != d,
        decreases m@.len() - k,
    {
        if m[k].0 == d {
            return Some(k);
        }
        k += 1;
    }
    None
}

/// Picks the incoming process's allocations for the movements `reqs` onto
/// devices (see `spec_match_residuals`).
pub fn match_residuals(reqs: &Vec<PrefetchItem>, allocs: &Vec<(GlobalDeviceId, Vec<PhysicalMemoryData>)>) -> (m: Vec<(GlobalDeviceId, Vec<PhysicalMemoryData>)>)
    requires
        allocations_wf(allocs@),
        allocation_totals_fit(allocs@),
    ensures
        dev_lists_view(m@) == spec_match_residuals(reqs@, allocs@),
{
    let mut m: Vec<(GlobalDeviceId, Vec<PhysicalMemoryData>)> = Vec::new();
    let mut i: usize = 0;
    while i < reqs.len()
        invariant
            i <= reqs@.len(),
            allocations_wf(allocs@),
            allocation_totals_fit(allocs@),
            dev_lists_view(m@) == spec_match_residuals(reqs@.take(i as int), allocs@),
            keys_unique(dev_lists_view(m@)),
        decreases reqs@.len() - i,
    {
        proof {
            assert(reqs@.take(i + 1).drop_last() =~= reqs@.take(i as int));
            assert(reqs@.take(i + 1).last() == reqs@[i as int]);
            lemma_dev_lists_view_len(m@);
        }
        let ghost mv = dev_lists_view(m@);
        let r = reqs[i];
        if let BufferLocation::Gpu(d) = r.to {
            let found = find_device(allocs, d);
            if let Some(j) = found {
                proof {
                    assert(pmd_sizes(allocs@[j as int].1@) <= u64::MAX);
                }
                let taken = take_for_size(&allocs[j].1, r.size);
                let at = find_key(&m, d);
                match at {
                    Some(k) => {
                        proof {
                            assert(mv[k as int].0 == d);
                            let w = choose|q: int| 0 <= q < mv.len() && (#[trigger] mv[q]).0 == d;
                            assert(w == k as int);
                        }
                        let ghost tv = taken@;
                        m.set(k, (d, taken));
                        proof {
                            lemma_dev_lists_view_len(m@);
                            assert(dev_lists_view(m@) =~= mv.update(k as int, (d, tv)));
                        }
                    },
                    None => {
                        proof {
                            assert forall|q: int| 0 <= q < mv.len() implies (#[trigger] mv[q]).0 != d by {
                                assert(m@[q].0 != d);
                            }
                        }
                        let ghost old_m = m@;
                        m.push((d, taken));
                        proof {
                            assert(m@.drop_last() =~= old_m);
                        }
                    },
                }
            }
        }
        i += 1;
    }
    proof { assert(reqs@.take(i as int) =~= reqs@); }
    m
}

/// The migration requirement of a prefetch movement; prefetches may stop
/// short.
pub open spec fn item_requirement(x: PrefetchItem) -> MigrationRequirement {
    MigrationRequirement { from: x.from, to: x.to, size: x.size, allow_incomplete: true }
}

/// The requirements of the movements of `items` for process `pid`, in
/// order.
pub open spec fn reqs_for(items: Seq<PrefetchItem>, pid: i32) -> Seq<MigrationRequirement>
    decreases items.len(),
{
    if items.len() == 0 {
        Seq::empty()
    } else if items.last().pid == pid {
        reqs_for(items.drop_last(), pid).push(item_requirement(items.last()))
    } else {
        reqs_for(items.drop_last(), pid)
    }
}

/// The groups are ordered by strictly increasing process id.
#[verifier::opaque]
pub open spec fn groups_sorted(groups: Seq<(i32, Vec<MigrationRequirement>)>) -> bool {
    forall|a: int, b: int| 0 <= a < b < groups.len() ==> (#[trigger] groups[a]).0 < (#[trigger] groups[b]).0
}

/// Each group holds its process's requirements from `items`, in order.
#[verifier::opaque]
pub open spec fn groups_contents(items: Seq<PrefetchItem>, groups: Seq<(i32, Vec<MigrationRequirement>)>) -> bool {
    forall|k: int| 0 <= k < groups.len() ==> (#[trigger] groups[k]).1@ == reqs_for(items, groups[k].0)
}

/// Every process of `items` has a group.
#[verifier::opaque]
pub open spec fn groups_cover(items: Seq<PrefetchItem>, groups: Seq<(i32, Vec<MigrationRequirement>)>) -> bool {
    forall|j: int| 0 <= j < items.len() ==> exists|k: int| 0 <= k < groups.len() && (#[trigger] groups[k]).0 == (#[trigger] items[j]).pid
}

/// Every group is that of a process of `items`.
#[verifier::opaque]
pub open spec fn groups_exact(items: Seq<PrefetchItem>, groups: Seq<(i32, Vec<MigrationRequirement>)>) -> bool {
    forall|k: int| 0 <= k < groups.len() ==> exists|j: int| 0 <= j < items.len() && (#[trigger] items[j]).pid == (#[trigger] groups[k]).0
}

/// `groups` holds one group per process of `items`, by increasing process
/// id, each with that process's requirements in order.
pub open spec fn grouped_by_pid(items: Seq<PrefetchItem>, groups: Seq<(i32, Vec<MigrationRequirement>)>) -> bool {
    &&& groups_sorted(groups)
    &&& groups_contents(items, groups)
    &&& groups_cover(items, groups)
    &&& groups_exact(items, groups)
}

proof fn lemma_reqs_for_absent(items: Seq<PrefetchItem>, pid: i32)
    requires
        forall|j: int| 0 <= j < items.len() ==> (#[trigger] items[j]).pid != pid,
    ensures
        reqs_for(items, pid) == Seq::<MigrationRequirement>::empty(),
    decreases items.len(),
{
    if items.len() > 0 {
        assert(items.last().pid != pid);
        assert forall|j: int| 0 <= j < items.drop_last().len() implies (#[trigger] items.drop_last()[j]).pid != pid by {
            assert(items.drop_last()[j] == items[j]);
        }
        lemma_reqs_for_absent(items.drop_last(), pid);
    }
}

/// The first position in `out` whose process id is not below `pid`.
fn group_position(out: &Vec<(i32, Vec<MigrationRequirement>)>, pid: i32) -> (k: usize)
    ensures
        k <= out@.len(),
        forall|q: int| 0 <= q < k ==> (#[trigger] out@[q]).0 < pid,
        k < out@.len() ==> out@[k as int].0 >= pid,
{
    let mut k: usize = 0;
    while k < out.len()
        invariant
            k <= out@.len(),
            forall|q: int| 0 <= q < k ==> (#[trigger] out@[q]).0 < pid,
        decreases out@.len() - k,
    {
        if out[k].0 >= pid {
            return k;
        }
        k += 1;
    }
    k
}

proof fn lemma_reqs_step(pre: Seq<PrefetchItem>, post: Seq<PrefetchItem>, q: i32)
    requires
        post.len() == pre.len() + 1,
        post.drop_last() == pre,
    ensures
        reqs_for(post, q) == (if post.last().pid == q {
            reqs_for(pre, q).push(item_requirement(post.last()))
        } else {
            reqs_for(pre, q)
        }),
{
}

proof fn lemma_prefix_items(pre: Seq<PrefetchItem>, post: Seq<PrefetchItem>)
    requires
        post.len() == pre.len() + 1,
        post.drop_last() == pre,
    ensures
        forall|j: int| 0 <= j < pre.len() ==> #[trigger] post[j] == pre[j],
{
    assert forall|j: int| 0 <= j < pre.len() implies #[trigger] post[j] == pre[j] by {
        assert(post.drop_last()[j] == post[j]);
    }
}

proof fn lemma_group_update(
    pre: Seq<PrefetchItem>,
    post: Seq<PrefetchItem>,
    o: Seq<(i32, Vec<MigrationRequirement>)>,
    k: int,
    v: Vec<MigrationRequirement>,
)
    requires
        grouped_by_pid(pre, o),
        post.len() == pre.len() + 1,
        post.drop_last() == pre,
        0 <= k < o.len(),
        o[k].0 == post.last().pid,
        v@ == o[k].1@.push(item_requirement(post.last())),
    ensures
        grouped_by_pid(post, o.update(k, (o[k].0, v))),
{
    let n = o.update(k, (o[k].0, v));
    lemma_prefix_items(pre, post);
    assert(groups_sorted(n)) by {
        reveal(groups_sorted);
        assert forall|a: int, b: int| 0 <= a < b < n.len() implies (#[trigger] n[a]).0 < (#[trigger] n[b]).0 by {
            assert(n[a].0 == o[a].0 && n[b].0 == o[b].0);
        }
    }
    assert(groups_contents(post, n)) by {
        reveal(groups_contents);
        assert forall|kk: int| 0 <= kk < n.len() implies (#[trigger] n[kk]).1@ == reqs_for(post, n[kk].0) by {
            lemma_reqs_step(pre, post, n[kk].0);
            if kk != k {
                assert(n[kk] == o[kk]);
                assert(o[kk].0 != o[k].0) by {
                    reveal(groups_sorted);
                    if kk < k {
                        assert(o[kk].0 < o[k].0);
                    } else {
                        assert(o[k].0 < o[kk].0);
                    }
                }
            }
        }
    }
    assert(groups_cover(post, n)) by {
        reveal(groups_cover);
        assert forall|j: int| 0 <= j < post.len() implies exists|kk: int| 0 <= kk < n.len() && (#[trigger] n[kk]).0 == (#[trigger] post[j]).pid by {
            if j < pre.len() {
                let w = choose|kk: int| 0 <= kk < o.len() && (#[trigger] o[kk]).0 == (#[trigger] pre[j]).pid;
                assert(n[w].0 == o[w].0);
            } else {
                assert(n[k].0 == post[j].pid);
            }
        }
    }
    assert(groups_exact(post, n)) by {
        reveal(groups_exact);
        assert forall|kk: int| 0 <= kk < n.len() implies exists|j: int| 0 <= j < post.len() && (#[trigger] post[j]).pid == (#[trigger] n[kk]).0 by {
            assert(n[kk].0 == o[kk].0);
            let w = choose|j: int| 0 <= j < pre.len() && (#[trigger] pre[j]).pid == (#[trigger] o[kk]).0;
            assert(post[w] == pre[w]);
        }
    }
}

proof fn lemma_group_insert(
    pre: Seq<PrefetchItem>,
    post: Seq<PrefetchItem>,
    o: Seq<(i32, Vec<MigrationRequirement>)>,
    k: int,
    v: Vec<MigrationRequirement>,
)
    requires
        grouped_by_pid(pre, o),
        post.len() == pre.len() + 1,
        post.drop_last() == pre,
        0 <= k <= o.len(),
        forall|q: int| 0 <= q < k ==> (#[trigger] o[q]).0 < post.last().pid,
        k < o.len() ==> o[k].0 > post.last().pid,
        v@ == seq![item_requirement(post.last())],
    ensures
        grouped_by_pid(post, o.insert(k, (post.last().pid, v))),
{
    let x = post.last();
    let n = o.insert(k, (x.pid, v));
    let i = pre.len() as int;
    lemma_prefix_items(pre, post);
    assert forall|q: int| 0 <= q < o.len() implies (#[trigger] o[q]).0 != x.pid by {
        reveal(groups_sorted);
        if q > k {
            assert(o[k].0 < o[q].0);
        }
    }
    assert forall|j: int| 0 <= j < pre.len() implies (#[trigger] pre[j]).pid != x.pid by {
        reveal(groups_cover);
        let w = choose|kk: int| 0 <= kk < o.len() && (#[trigger] o[kk]).0 == (#[trigger] pre[j]).pid;
        assert(o[w].0 != x.pid);
    }
    lemma_reqs_for_absent(pre, x.pid);
    assert(groups_sorted(n)) by {
        reveal(groups_sorted);
        assert forall|a: int, b: int| 0 <= a < b < n.len() implies (#[trigger] n[a]).0 < (#[trigger] n[b]).0 by {
            if a < k && b < k {
                assert(n[a] == o[a] && n[b] == o[b]);
            } else if a < k && b == k {
                assert(n[a] == o[a]);
            } else if a < k {
                assert(n[a] == o[a] && n[b] == o[b - 1]);
            } else if a == k {
                assert(n[b] == o[b - 1]);
                if b - 1 > k {
                    assert(o[k].0 < o[b - 1].0);
                }
            } else {
                assert(n[a] == o[a - 1] && n[b] == o[b - 1]);
            }
        }
    }
    assert(groups_contents(post, n)) by {
        reveal(groups_contents);
        assert forall|kk: int| 0 <= kk < n.len() implies (#[trigger] n[kk]).1@ == reqs_for(post, n[kk].0) by {
            lemma_reqs_step(pre, post, n[kk].0);
            if kk < k {
                assert(n[kk] == o[kk]);
            } else if kk > k {
                assert(n[kk] == o[kk - 1]);
            } else {
                assert(v@ =~= Seq::<MigrationRequirement>::empty().push(item_requirement(x)));
            }
        }
    }
    assert(groups_cover(post, n)) by {
        reveal(groups_cover);
        assert forall|j: int| 0 <= j < post.len() implies exists|kk: int| 0 <= kk < n.len() && (#[trigger] n[kk]).0 == (#[trigger] post[j]).pid by {
            if j < pre.len() {
                let w = choose|kk: int| 0 <= kk < o.len() && (#[trigger] o[kk]).0 == (#[trigger] pre[j]).pid;
                if w < k {
                    assert(n[w] == o[w]);
                } else {
                    assert(n[w + 1] == o[w]);
                }
            } else {
                assert(n[k].0 == post[j].pid);
            }
        }
    }
    assert(groups_exact(post, n)) by {
        reveal(groups_exact);
        assert forall|kk: int| 0 <= kk < n.len() implies exists|j: int| 0 <= j < post.len() && (#[trigger] post[j]).pid == (#[trigger] n[kk]).0 by {
            if kk == k {
                assert(post[i].pid == n[kk].0);
            } else {
                let ok = if kk < k { kk } else { kk - 1 };
                assert(n[kk] == o[ok]);
                let w = choose|j: int| 0 <= j < pre.len() && (#[trigger] pre[j]).pid == (#[trigger] o[ok]).0;
                assert(post[w] == pre[w]);
            }
        }
    }
}

/// Groups the movements `items` by process, by increasing process id, each
/// group with its process's requirements in order (see `grouped_by_pid`).
pub fn group_requirements(items: &Vec<PrefetchItem>) -> (groups: Vec<(i32, Vec<MigrationRequirement>)>)
    ensures
        grouped_by_pid(items@, groups@),
{
    let mut out: Vec<(i32, Vec<MigrationRequirement>)> = Vec::new();
    let mut i: usize = 0;
    proof {
        reveal(groups_sorted);
        reveal(groups_contents);
        reveal(groups_cover);
        reveal(groups_exact);
    }
    while i < items.len()
        invariant
            i <= items@.len(),
            grouped_by_pid(items@.take(i as int), out@),
        decreases items@.len() - i,
    {
        let ghost pre = items@.take(i as int);
        let ghost post = items@.take(i + 1);
        let ghost o = out@;
        proof {
            assert(post.drop_last() =~= pre);
            assert(post.last() == items@[i as int]);
        }
        let x = items[i];
        let r = MigrationRequirement { from: x.from, to: x.to, size: x.size, allow_incomplete: true };
        let k = group_position(&out, x.pid);
        if k < out.len() && out[k].0 == x.pid {
            let (q, mut v) = out.remove(k);
            v.push(r);
            out.insert(k, (q, v));
            proof {
                assert(out@ =~= o.update(k as int, (q, v)));
                lemma_group_update(pre, post, o, k as int, v);
            }
        } else {
            let mut v: Vec<MigrationRequirement> = Vec::new();
            v.push(r);
            out.insert(k, (x.pid, v));
            proof {
                assert(out@ =~= o.insert(k as int, (x.pid, v)));
                lemma_group_insert(pre, post, o, k as int, v);
            }
        }
        i += 1;
    }
    proof { assert(items@.take(i as int) =~= items@); }
    out
}

/// Moves the first residual of process `idle_pid` (if any) to the end of
/// `others`, so that the last active process is moved off the devices
/// last.
pub fn put_idle_last(others: &mut Vec<ProcessResidualData>, idle_pid: Option<i32>)
    ensures
        match idle_pid {
            Some(p) => if exists|k: int| 0 <= k < old(others)@.len() && (#[trigger] old(others)@[k]).pid == p {
                let k = choose|k: int| 0 <= k < old(others)@.len() && (#[trigger] old(others)@[k]).pid == p
                    && forall|q: int| 0 <= q < k ==> (#[trigger] old(others)@[q]).pid != p;
                final(others)@ == old(others)@.remove(k).push(old(others)@[k])
            } else {
                final(others)@ == old(others)@
            },
            None => final(others)@ == old(others)@,
        },
{
    if let Some(p) = idle_pid {
        let mut k: usize = 0;
        while k < others.len()
            invariant
                k <= others@.len(),
                others@ == old(others)@,
                idle_pid == Some(p),
                forall|q: int| 0 <= q < k ==> (#[trigger] others@[q]).pid != p,
            decreases others@.len() - k,
        {
            if others[k].pid == p {
                proof {
                    let w = choose|kk: int| 0 <= kk < old(others)@.len() && (#[trigger] old(others)@[kk]).pid == p
                        && forall|q: int| 0 <= q < kk ==> (#[trigger] old(others)@[q]).pid != p;
                    assert(0 <= k < old(others)@.len() && old(others)@[k as int].pid == p
                        && forall|q: int| 0 <= q < k ==> (#[trigger] old(others)@[q]).pid != p);
                    if w < k as int {
                        assert(old(others)@[w].pid != p);
                    } else if w > k as int {
                        assert(old(others)@[k as int].pid != p);
                    }
                }
                let e = others.remove(k);
                others.push(e);
                return;
            }
            k += 1;
        }
    }
}

/// Why a movement of a prefetch order names no known process.
#[derive(Debug, Clone, Copy, PartialEq, Eq, Structural)]
pub enum ResolveError {
    /// No known process has this id.
    PidNotFound(i32),
    /// The index is zero or past the last known process.
    IndexOutOfRange(u32),
    /// Neither an id nor an index was given.
    Unspecified,
}

/// The movement `op` for the known processes `pids`: its process is the
/// one with the given id, else the one at the given position (counted
/// from one).
pub open spec fn spec_resolve_one(op: MoveOperation, pids: Seq<i32>) -> Result<PrefetchItem, ResolveError> {
    match op.pid.pid {
        Some(p) => if pids.contains(p) {
            Ok(PrefetchItem { pid: p, from: op.src, to: op.dest, size: op.size })
        } else {
            Err(ResolveError::PidNotFound(p))
        },
        None => match op.pid.idx {
            Some(i) => if i == 0 || i > pids.len() {
                Err(ResolveError::IndexOutOfRange(i))
            } else {
                Ok(PrefetchItem { pid: pids[i - 1], from: op.src, to: op.dest, size: op.size })
            },
            None => Err(ResolveError::Unspecified),
        },
    }
}

/// The movements `ops` for the known processes `pids`, in order, or the
/// refusal of the first that names no known process.
pub open spec fn spec_resolve(ops: Seq<MoveOperation>, pids: Seq<i32>) -> Result<Seq<PrefetchItem>, ResolveError>
    decreases ops.len(),
{
    if ops.len() == 0 {
        Ok(Seq::empty())
    } else {
        match spec_resolve(ops.drop_last(), pids) {
            Err(e) => Err(e),
            Ok(items) => match spec_resolve_one(ops.last(), pids) {
                Err(e) => Err(e),
                Ok(item) => Ok(items.push(item)),
            },
        }
    }
}

proof fn lemma_resolve_err_stays(ops: Seq<MoveOperation>, pids: Seq<i32>, k: int, e: ResolveError)
    requires
        0 <= k <= ops.len(),
        spec_resolve(ops.take(k), pids) == Err::<Seq<PrefetchItem>, ResolveError>(e),
    ensures
        spec_resolve(ops, pids) == Err::<Seq<PrefetchItem>, ResolveError>(e),
    decreases ops.len() - k,
{
    if k < ops.len() {
        assert(ops.take(k + 1).drop_last() =~= ops.take(k));
        lemma_resolve_err_stays(ops, pids, k + 1, e);
    } else {
        assert(ops.take(k) =~= ops);
    }
}

/// Names the process of each movement of a prefetch order among the
/// known processes `pids` (see `spec_resolve`).
pub fn resolve_move_ops(ops: &Vec<MoveOperation>, pids: &Vec<i32>) -> (r: Result<Vec<PrefetchItem>, ResolveError>)
    ensures
        match r {
            Ok(v) => spec_resolve(ops@, pids@) == Ok::<Seq<PrefetchItem>, ResolveError>(v@),
            Err(e) => spec_resolve(ops@, pids@) == Err::<Seq<PrefetchItem>, ResolveError>(e),
        },
{
    let mut out: Vec<PrefetchItem> = Vec::new();
    let mut i: usize = 0;
    while i < ops.len()
        invariant
            i <= ops@.len(),
            spec_resolve(ops@.take(i as int), pids@) == Ok::<Seq<PrefetchItem>, ResolveError>(out@),
        decreases ops@.len() - i,
    {
        proof {
            assert(ops@.take(i + 1).drop_last() =~= ops@.take(i as int));
            assert(ops@.take(i + 1).last() == ops@[i as int]);
        }
        let op = ops[i];
        let one: Result<PrefetchItem, ResolveError> = match op.pid.pid {
            Some(p) => {
                let mut found = false;
                let mut k: usize = 0;
                while k < pids.len()
                    invariant
                        k <= pids@.len(),
                        found == pids@.take(k as int).contains(p),
                    decreases pids@.len() - k,
                {
                    let ghost before = pids@.take(k as int);
                    if pids[k] == p {
                        found = true;
                    }
                    k += 1;
                    proof {
                        let after = pids@.take(k as int);
                        assert(after =~= before.push(pids@[k - 1]));
                        if pids@[k - 1] == p {
                            assert(after[k - 1] == p);
                        }
                        if before.contains(p) {
                            let w = choose|w: int| 0 <= w < before.len() && before[w] == p;
                            assert(after[w] == p);
                        }
                        if after.contains(p) && pids@[k - 1] != p {
                            let w = choose|w: int| 0 <= w < after.len() && after[w] == p;
                            assert(before[w] == p);
                        }
                    }
                }
                proof {
                    assert(pids@.take(k as int) =~= pids@);
                }
                if found {
                    Ok(PrefetchItem { pid: p, from: op.src, to: op.dest, size: op.size })
                } else {
                    Err(ResolveError::PidNotFound(p))
                }
            },
            None => match op.pid.idx {
                Some(idx) => {
                    if idx == 0 || idx as usize > pids.len() {
                        Err(ResolveError::IndexOutOfRange(idx))
                    } else {
                        Ok(PrefetchItem { pid: pids[idx as usize - 1], from: op.src, to: op.dest, size: op.size })
                    }
                },
                None => Err(ResolveError::Unspecified),
            },
        };
        match one {
            Ok(item) => {
                out.push(item);
            },
            Err(e) => {
                proof {
                    lemma_resolve_err_stays(ops@, pids@, i + 1, e);
                }
                return Err(e);
            },
        }
        i += 1;
    }
    proof {
        assert(ops@.take(i as int) =~= ops@);
    }
    Ok(out)
}

} // verus!
