//! How much device memory a running process must give up, per device,
//! when another process that needs memory on the same devices is switched
//! in: whatever the two need together beyond the device's budget.

use vstd::prelude::*;
use crate::ipc::MemoryUsage;
use crate::scheduler::{spec_real_to_visible, spec_visible_to_real, DeviceOrdinalMapping};
use crate::types::GlobalDeviceId;

verus! {

/// One allocation of a process on one of the devices it sees.
#[derive(Debug, Clone, Copy, PartialEq, Eq, Structural)]
pub struct LocalAllocation {
    pub device: i32,
    pub size: u64,
}

/// What the incoming process needs on machine device `d`: the use it
/// reported for the last of its devices (among the first `n`) that stands
/// for `d`, if any.
pub open spec fn demand_upto(usage: Seq<MemoryUsage>, newmap: Seq<GlobalDeviceId>, d: GlobalDeviceId, n: int) -> Option<u64>
    decreases n,
{
    if n <= 0 {
        None
    } else if n - 1 < newmap.len() && newmap[n - 1] == d {
        Some(usage[n - 1].mem_usage_bytes)
    } else {
        demand_upto(usage, newmap, d, n - 1)
    }
}

/// What the incoming process needs on machine device `d`, if anything.
pub open spec fn demand_of(usage: Seq<MemoryUsage>, newmap: Seq<GlobalDeviceId>, d: GlobalDeviceId) -> Option<u64> {
    demand_upto(usage, newmap, d, usage.len() as int)
}

/// Whether allocation `a` of the running process lies on machine device
/// `d`.
pub open spec fn on_device(a: LocalAllocation, oldmap: Seq<GlobalDeviceId>, d: GlobalDeviceId) -> bool {
    spec_visible_to_real(oldmap, a.device) == Some(d)
}

/// The bytes the running process holds on machine device `d`.
pub open spec fn occupied_bytes(allocs: Seq<LocalAllocation>, oldmap: Seq<GlobalDeviceId>, d: GlobalDeviceId) -> int
    decreases allocs.len(),
{
    if allocs.len() == 0 {
        0
    } else {
        occupied_bytes(allocs.drop_last(), oldmap, d) + (if on_device(allocs.last(), oldmap, d) { allocs.last().size as int } else { 0 })
    }
}

/// Whether the running process holds anything on machine device `d`.
pub open spec fn occupies(allocs: Seq<LocalAllocation>, oldmap: Seq<GlobalDeviceId>, d: GlobalDeviceId) -> bool {
    exists|j: int| 0 <= j < allocs.len() && on_device(#[trigger] allocs[j], oldmap, d)
}

/// One mebibyte.
pub const MIB: u64 = 1024 * 1024;

/// The mebibytes to give up on machine device `d` with budget `budget_mb`:
/// what both processes use there, in whole mebibytes, beyond the budget.
pub open spec fn evicted_mb(demand: u64, occupied: int, budget_mb: u64) -> int {
    let total = (demand + occupied) / (MIB as int);
    if total > budget_mb { total - budget_mb } else { 0 }
}

/// Whether the running process's device `v` gets an entry: it is the first
/// of its devices standing for its machine device, both processes use that
/// machine device, and together they pass its budget.
pub open spec fn gives_up(
    usage: Seq<MemoryUsage>,
    allocs: Seq<LocalAllocation>,
    oldmap: Seq<GlobalDeviceId>,
    newmap: Seq<GlobalDeviceId>,
    budget: Seq<u64>,
    v: int,
) -> bool {
    let d = oldmap[v];
    &&& spec_real_to_visible(oldmap, d) == Some(v as i32)
    &&& occupies(allocs, oldmap, d)
    &&& demand_of(usage, newmap, d) is Some
    &&& evicted_mb(demand_of(usage, newmap, d)->0, occupied_bytes(allocs, oldmap, d), budget[d.0 as int]) > 0
}

/// The entry for the running process's device `v`.
pub open spec fn eviction_entry(
    usage: Seq<MemoryUsage>,
    allocs: Seq<LocalAllocation>,
    oldmap: Seq<GlobalDeviceId>,
    newmap: Seq<GlobalDeviceId>,
    budget: Seq<u64>,
    v: int,
) -> Option<u64> {
    if gives_up(usage, allocs, oldmap, newmap, budget, v) {
        let d = oldmap[v];
        Some(evicted_mb(demand_of(usage, newmap, d)->0, occupied_bytes(allocs, oldmap, d), budget[d.0 as int]) as u64)
    } else {
        None
    }
}

/// One past the last of the first `n` devices of the running process that
/// gets an entry, or zero.
pub open spec fn eviction_len(
    usage: Seq<MemoryUsage>,
    allocs: Seq<LocalAllocation>,
    oldmap: Seq<GlobalDeviceId>,
    newmap: Seq<GlobalDeviceId>,
    budget: Seq<u64>,
    n: int,
) -> int
    decreases n,
{
    if n <= 0 {
        0
    } else if gives_up(usage, allocs, oldmap, newmap, budget, n - 1) {
        n
    } else {
        eviction_len(usage, allocs, oldmap, newmap, budget, n - 1)
    }
}

/// The sums stay in range and every machine device both processes use has
/// a budget.
pub open spec fn eviction_inputs_ok(
    usage: Seq<MemoryUsage>,
    allocs: Seq<LocalAllocation>,
    oldmap: Seq<GlobalDeviceId>,
    newmap: Seq<GlobalDeviceId>,
    budget: Seq<u64>,
) -> bool {
    &&& oldmap.len() <= i32::MAX
    &&& usage.len() <= i32::MAX
    &&& forall|v: int| 0 <= v < oldmap.len() ==> {
        let d = #[trigger] oldmap[v];
        &&& occupied_bytes(allocs, oldmap, d) <= u64::MAX
        &&& demand_of(usage, newmap, d) is Some ==> demand_of(usage, newmap, d)->0 + occupied_bytes(allocs, oldmap, d) <= u64::MAX
        &&& demand_of(usage, newmap, d) is Some && occupies(allocs, oldmap, d) ==> 0 <= d.0 < budget.len()
    }
}

proof fn lemma_occupied_nonneg(allocs: Seq<LocalAllocation>, oldmap: Seq<GlobalDeviceId>, d: GlobalDeviceId)
    ensures
        occupied_bytes(allocs, oldmap, d) >= 0,
    decreases allocs.len(),
{
    if allocs.len() > 0 {
        lemma_occupied_nonneg(allocs.drop_last(), oldmap, d);
    }
}

proof fn lemma_occupied_prefix(allocs: Seq<LocalAllocation>, oldmap: Seq<GlobalDeviceId>, d: GlobalDeviceId, k: int)
    requires
        0 <= k <= allocs.len(),
    ensures
        0 <= occupied_bytes(allocs.take(k), oldmap, d) <= occupied_bytes(allocs, oldmap, d),
    decreases allocs.len(),
{
    if k < allocs.len() {
        assert(allocs.drop_last().take(k) =~= allocs.take(k));
        lemma_occupied_prefix(allocs.drop_last(), oldmap, d, k);
    } else {
        assert(allocs.take(k) =~= allocs);
        lemma_occupied_nonneg(allocs, oldmap, d);
    }
}

/// The bytes the running process holds on machine device `d`, and whether
/// it holds anything there.
fn occupied_on(allocs: &Vec<LocalAllocation>, old: &DeviceOrdinalMapping, d: GlobalDeviceId) -> (r: (u64, bool))
    requires
        occupied_bytes(allocs@, old.visible@, d) <= u64::MAX,
    ensures
        r.0 == occupied_bytes(allocs@, old.visible@, d),
        r.1 == occupies(allocs@, old.visible@, d),
{
    let mut total: u64 = 0;
    let mut any = false;
    let mut i: usize = 0;
    while i < allocs.len()
        invariant
            i <= allocs@.len(),
            occupied_bytes(allocs@, old.visible@, d) <= u64::MAX,
            total == occupied_bytes(allocs@.take(i as int), old.visible@, d),
            any == exists|j: int| 0 <= j < i && on_device(#[trigger] allocs@[j], old.visible@, d),
        decreases allocs@.len() - i,
    {
        proof {
            assert(allocs@.take(i + 1).drop_last() =~= allocs@.take(i as int));
            assert(allocs@.take(i + 1).last() == allocs@[i as int]);
            lemma_occupied_prefix(allocs@, old.visible@, d, i + 1);
        }
        let a = allocs[i];
        match old.visible_to_real(a.device) {
            Some(x) => {
                if x == d {
                    total = total + a.size;
                    any = true;
                }
            },
            None => {},
        }
        i += 1;
    }
    proof {
        assert(allocs@.take(i as int) =~= allocs@);
    }
    (total, any)
}

/// What the incoming process needs on machine device `d`, if anything (see
/// `demand_of`).
fn demand_on(usage: &Vec<MemoryUsage>, new: &DeviceOrdinalMapping, d: GlobalDeviceId) -> (r: Option<u64>)
    requires
        usage@.len() <= i32::MAX,
    ensures
        r == demand_of(usage@, new.visible@, d),
{
    let mut found: Option<u64> = None;
    let mut i: usize = 0;
    while i < usage.len()
        invariant
            i <= usage@.len(),
            usage@.len() <= i32::MAX,
            found == demand_upto(usage@, new.visible@, d, i as int),
        decreases usage@.len() - i,
    {
        match new.visible_to_real(i as i32) {
            Some(x) => {
                if x == d {
                    found = Some(usage[i].mem_usage_bytes);
                }
            },
            None => {},
        }
        i += 1;
    }
    found
}

/// The mebibytes the running process must give up on each of its devices
/// when the incoming process, which reported `usage` for each of its
/// devices, is switched in; `allocs` are the running process's allocations
/// (none if they are not known), `old` and `new` the two processes' device
/// mappings, and `budget_mb` the budget of each machine device. The list
/// ends at the last device with something to give up; devices with
/// nothing to give up have no value.
pub fn compute_eviction(
    usage: &Vec<MemoryUsage>,
    allocs: &Vec<LocalAllocation>,
    old: &DeviceOrdinalMapping,
    new: &DeviceOrdinalMapping,
    budget_mb: &Vec<u64>,
) -> (swap_out: Vec<Option<u64>>)
    requires
        eviction_inputs_ok(usage@, allocs@, old.visible@, new.visible@, budget_mb@),
    ensures
        swap_out@.len() == eviction_len(usage@, allocs@, old.visible@, new.visible@, budget_mb@, old.visible@.len() as int),
        forall|v: int| 0 <= v < swap_out@.len() ==> #[trigger] swap_out@[v] == eviction_entry(
            usage@, allocs@, old.visible@, new.visible@, budget_mb@, v,
        ),
{
    let ghost u = usage@;
    let ghost a = allocs@;
    let ghost om = old.visible@;
    let ghost nm = new.visible@;
    let ghost b = budget_mb@;
    let n = old.visible.len();
    let mut out: Vec<Option<u64>> = Vec::new();
    let mut keep: usize = 0;
    let mut v: usize = 0;
    while v < n
        invariant
            n == om.len(),
            om == old.visible@,
            u == usage@,
            a == allocs@,
            nm == new.visible@,
            b == budget_mb@,
            v <= n,
            eviction_inputs_ok(u, a, om, nm, b),
            out@.len() == v,
            keep <= v,
            keep == eviction_len(u, a, om, nm, b, v as int),
            forall|q: int| 0 <= q < v ==> #[trigger] out@[q] == eviction_entry(u, a, om, nm, b, q),
        decreases n - v,
    {
        let d = old.visible[v];
        proof {
            assert(om[v as int] == d);
        }
        let first = match old.real_to_visible(d) {
            Some(x) => x == v as i32,
            None => false,
        };
        let mut entry: Option<u64> = None;
        if first {
            let (occ, present) = occupied_on(allocs, old, d);
            if present {
                match demand_on(usage, new, d) {
                    Some(dm) => {
                        let total = (dm + occ) / MIB;
                        let bud = budget_mb[d.0 as usize];
                        let mb = total.saturating_sub(bud);
                        if mb > 0 {
                            entry = Some(mb);
                        }
                    },
                    None => {},
                }
            }
        }
        proof {
            assert(entry == eviction_entry(u, a, om, nm, b, v as int));
        }
        out.push(entry);
        if entry.is_some() {
            keep = v + 1;
        }
        v += 1;
    }
    let mut res: Vec<Option<u64>> = Vec::new();
    let mut k: usize = 0;
    while k < keep
        invariant
            k <= keep,
            keep <= out@.len(),
            res@ == out@.take(k as int),
        decreases keep - k,
    {
        res.push(out[k]);
        k += 1;
        proof {
            assert(res@ =~= out@.take(k as int));
        }
    }
    res
}

} // verus!
