//! Planning of a migration that brings one process's data onto the
//! devices at the cost of moving other processes' data out.

use vstd::prelude::*;
use crate::types::{spec_allocation_count, BufferId, GlobalDeviceId, MAX_ALLOCATION_SIZE, MIN_ALLOCATION_SIZE};
use crate::shm::{has_id, ShmBufferManager};
use crate::hostmem::{held, HostMemBufferManager};
use crate::storage::{stored, StorageBufferManager};

verus! {

/// One physical allocation of a process, as the process reports it.
#[derive(Debug, Clone, Copy, PartialEq, Eq, Structural)]
pub struct PhysicalMemoryData {
    pub on_gpu: bool,
    /// The process's handle of the allocation (never zero).
    pub handle_idx: u32,
    pub size: u64,
}

/// One buffer to move in a migration.
#[derive(Debug, Clone, Copy, PartialEq, Eq, Structural)]
pub struct MigrationSpecEntry {
    pub size: u32,
    /// The process's handle of the allocation (never zero).
    pub handle_idx: u32,
    /// The buffer is on a device or in shared memory, so it can be copied
    /// over the bus right away.
    pub ready_for_pcie_xfer: bool,
}

/// The name of the buffer `e` of process `pid` on device `d`.
pub open spec fn entry_buffer_id(e: MigrationSpecEntry, pid: i32, d: GlobalDeviceId) -> BufferId {
    BufferId { pid, device_id: d, block_id: e.handle_idx as u64, size: e.size }
}

impl MigrationSpecEntry {
    /// The name of this buffer of process `pid` on device `device_id`.
    pub fn to_buffer_id(&self, pid: i32, device_id: GlobalDeviceId) -> (b: BufferId)
        ensures
            b == entry_buffer_id(*self, pid, device_id),
    {
        BufferId { pid, device_id, block_id: self.handle_idx as u64, size: self.size }
    }
}

/// The migration entry of allocation `m`.
pub open spec fn spec_entry(m: PhysicalMemoryData, ready: bool) -> MigrationSpecEntry {
    MigrationSpecEntry { size: m.size as u32, handle_idx: m.handle_idx, ready_for_pcie_xfer: ready }
}

/// The name of allocation `m` of process `pid` on device `d`.
pub open spec fn pmd_buffer_id(pid: i32, d: GlobalDeviceId, m: PhysicalMemoryData) -> BufferId {
    entry_buffer_id(spec_entry(m, true), pid, d)
}

/// Where an allocation of the incoming process was found in the daemon.
#[derive(Debug, Clone, Copy, PartialEq, Eq, Structural)]
pub enum ResidualLocation {
    /// In shared memory, in blocks of `block_size` bytes in all.
    Shm { block_size: u64 },
    HostMem,
    Storage,
    /// Nowhere: the allocation is dropped from the plan.
    Missing,
}

/// The allocations of a process on each device; no device occurs twice.
#[derive(Debug, Clone)]
pub struct ProcessResidualData {
    pub pid: i32,
    pub allocations: Vec<(GlobalDeviceId, Vec<PhysicalMemoryData>)>,
}

/// What the incoming process needs on the devices: its own allocations
/// (each with where it was found), or a number of bytes per device.
#[derive(Debug, Clone)]
pub enum DeviceRequestArgs {
    ResidualData(Vec<(GlobalDeviceId, Vec<(PhysicalMemoryData, ResidualLocation)>)>),
    Allocation(Vec<(GlobalDeviceId, u64)>),
}

/// Where buffer `id` is found: in shared memory (with the room of its
/// allocation units), else in host memory, else in storage, else nowhere.
pub open spec fn spec_locate(shm: &ShmBufferManager, hostmem: &HostMemBufferManager, storage: &StorageBufferManager, id: BufferId) -> ResidualLocation {
    if has_id(shm@.entries, id) {
        ResidualLocation::Shm { block_size: (spec_allocation_count(id.size) * MIN_ALLOCATION_SIZE) as u64 }
    } else if held(hostmem@.entries, id) {
        ResidualLocation::HostMem
    } else if stored(storage@.entries, id) {
        ResidualLocation::Storage
    } else {
        ResidualLocation::Missing
    }
}

/// Finds where buffer `id` is (see `spec_locate`).
pub fn locate_residual(shm: &ShmBufferManager, hostmem: &HostMemBufferManager, storage: &StorageBufferManager, id: &BufferId) -> (r: ResidualLocation)
    requires
        shm.wf(),
        hostmem.wf(),
        storage.wf(),
    ensures
        r == spec_locate(shm, hostmem, storage, *id),
{
    if shm.get_buffer(id).is_some() {
        let units = id.get_allocation_count().0 as u64;
        proof {
            assert(spec_allocation_count(id.size) <= 2048) by (nonlinear_arith)
                requires
                    spec_allocation_count(id.size) == (id.size as int + 2097152 - 1) / 2097152,
                    id.size <= u32::MAX,
            ;
        }
        ResidualLocation::Shm { block_size: units * (MIN_ALLOCATION_SIZE as u64) }
    } else if hostmem.contains(id) {
        ResidualLocation::HostMem
    } else if storage.contains(id) {
        ResidualLocation::Storage
    } else {
        ResidualLocation::Missing
    }
}

/// Each allocation of `es` (of process `pid` on device `d`) with where it
/// is found.
pub open spec fn spec_locate_all(shm: &ShmBufferManager, hostmem: &HostMemBufferManager, storage: &StorageBufferManager, pid: i32, d: GlobalDeviceId, es: Seq<PhysicalMemoryData>) -> Seq<(PhysicalMemoryData, ResidualLocation)> {
    Seq::new(es.len(), |i: int| (es[i], spec_locate(shm, hostmem, storage, pmd_buffer_id(pid, d, es[i]))))
}

/// Looks up where each allocation of process `pid` is, device by device,
/// for a request that brings the process in (see `spec_locate_all`).
pub fn locate_allocations(
    shm: &ShmBufferManager,
    hostmem: &HostMemBufferManager,
    storage: &StorageBufferManager,
    pid: i32,
    allocs: &Vec<(GlobalDeviceId, Vec<PhysicalMemoryData>)>,
) -> (r: Vec<(GlobalDeviceId, Vec<(PhysicalMemoryData, ResidualLocation)>)>)
    requires
        shm.wf(),
        hostmem.wf(),
        storage.wf(),
    ensures
        r@.len() == allocs@.len(),
        forall|j: int| 0 <= j < r@.len() ==> (#[trigger] r@[j]).0 == allocs@[j].0
            && r@[j].1@ == spec_locate_all(shm, hostmem, storage, pid, allocs@[j].0, allocs@[j].1@),
{
    let mut out: Vec<(GlobalDeviceId, Vec<(PhysicalMemoryData, ResidualLocation)>)> = Vec::new();
    let mut j: usize = 0;
    while j < allocs.len()
        invariant
            j <= allocs@.len(),
            shm.wf(),
            hostmem.wf(),
            storage.wf(),
            out@.len() == j,
            forall|q: int| 0 <= q < j ==> (#[trigger] out@[q]).0 == allocs@[q].0
                && out@[q].1@ == spec_locate_all(shm, hostmem, storage, pid, allocs@[q].0, allocs@[q].1@),
        decreases allocs@.len() - j,
    {
        let d = allocs[j].0;
        let es = &allocs[j].1;
        let mut located: Vec<(PhysicalMemoryData, ResidualLocation)> = Vec::new();
        let mut i: usize = 0;
        while i < es.len()
            invariant
                i <= es@.len(),
                shm.wf(),
                hostmem.wf(),
                storage.wf(),
                located@.len() == i,
                forall|q: int| 0 <= q < i ==> #[trigger] located@[q] == (es@[q], spec_locate(shm, hostmem, storage, pmd_buffer_id(pid, d, es@[q]))),
            decreases es@.len() - i,
        {
            let m = es[i];
            let id = BufferId { pid, device_id: d, block_id: m.handle_idx as u64, size: m.size as u32 };
            proof {
                assert(id == pmd_buffer_id(pid, d, m));
            }
            let loc = locate_residual(shm, hostmem, storage, &id);
            located.push((m, loc));
            i += 1;
        }
        proof {
            assert(located@ =~= spec_locate_all(shm, hostmem, storage, pid, d, es@));
        }
        out.push((d, located));
        j += 1;
    }
    out
}

/// The total size of the allocations `es`.
pub open spec fn pmd_sizes(es: Seq<PhysicalMemoryData>) -> int
    decreases es.len(),
{
    if es.len() == 0 {
        0
    } else {
        pmd_sizes(es.drop_last()) + es.last().size
    }
}

/// The total size of the located allocations `es`.
pub open spec fn located_sizes(es: Seq<(PhysicalMemoryData, ResidualLocation)>) -> int
    decreases es.len(),
{
    if es.len() == 0 {
        0
    } else {
        located_sizes(es.drop_last()) + es.last().0.size
    }
}

/// The most a device may be asked for: room for one more allocation must
/// remain in a `u64`.
pub open spec fn requirement_bound() -> int {
    u64::MAX - u32::MAX
}

/// The bytes needed on each device.
pub open spec fn requirement_of(req: DeviceRequestArgs) -> Seq<(GlobalDeviceId, u64)> {
    match req {
        DeviceRequestArgs::ResidualData(a) => a@.map_values(
            |x: (GlobalDeviceId, Vec<(PhysicalMemoryData, ResidualLocation)>)| (x.0, located_sizes(x.1@) as u64),
        ),
        DeviceRequestArgs::Allocation(v) => v@,
    }
}

/// Sizes stay in range: every allocation fits a `u32`, and no device is
/// asked for more than `requirement_bound`.
pub open spec fn request_in_range(req: DeviceRequestArgs) -> bool {
    match req {
        DeviceRequestArgs::ResidualData(a) => forall|i: int| 0 <= i < a@.len() ==> {
            &&& located_sizes((#[trigger] a@[i]).1@) <= requirement_bound()
            &&& forall|j: int| 0 <= j < a@[i].1@.len() ==> (#[trigger] a@[i].1@[j]).0.size <= u32::MAX
        },
        DeviceRequestArgs::Allocation(v) => forall|i: int| 0 <= i < v@.len() ==> (#[trigger] v@[i]).1 <= requirement_bound(),
    }
}

/// The total size of located allocations, computed.
fn located_total(es: &Vec<(PhysicalMemoryData, ResidualLocation)>) -> (t: u64)
    requires
        located_sizes(es@) <= requirement_bound(),
    ensures
        t == located_sizes(es@),
{
    let mut t: u64 = 0;
    let mut i: usize = 0;
    while i < es.len()
        invariant
            i <= es@.len(),
            located_sizes(es@) <= requirement_bound(),
            t == located_sizes(es@.take(i as int)),
        decreases es@.len() - i,
    {
        proof {
            assert(es@.take(i + 1).drop_last() =~= es@.take(i as int));
            lemma_located_prefix_bounded(es@, i + 1);
        }
        t = t + es[i].0.size;
        i += 1;
    }
    proof { assert(es@.take(i as int) =~= es@); }
    t
}

/// The total of a prefix is at most the total.
proof fn lemma_located_prefix_bounded(es: Seq<(PhysicalMemoryData, ResidualLocation)>, k: int)
    requires
        0 <= k <= es.len(),
    ensures
        located_sizes(es.take(k)) <= located_sizes(es),
    decreases es.len(),
{
    if k < es.len() {
        assert(es.drop_last().take(k) =~= es.take(k));
        lemma_located_prefix_bounded(es.drop_last(), k);
    } else {
        assert(es.take(k) =~= es);
    }
}

/// The bytes needed on each device: the sizes of the incoming process's
/// allocations per device, or the amounts asked for.
pub fn requirement(req: &DeviceRequestArgs) -> (r: Vec<(GlobalDeviceId, u64)>)
    requires
        request_in_range(*req),
    ensures
        r@ == requirement_of(*req),
{
    match req {
        DeviceRequestArgs::ResidualData(a) => {
            let mut r: Vec<(GlobalDeviceId, u64)> = Vec::new();
            let mut i: usize = 0;
            while i < a.len()
                invariant
                    i <= a@.len(),
                    r@.len() == i,
                    forall|k: int| 0 <= k < a@.len() ==> located_sizes((#[trigger] a@[k]).1@) <= requirement_bound(),
                    forall|k: int| 0 <= k < i ==> (#[trigger] r@[k]) == (a@[k].0, located_sizes(a@[k].1@) as u64),
                decreases a@.len() - i,
            {
                let t = located_total(&a[i].1);
                r.push((a[i].0, t));
                i += 1;
            }
            proof {
                let want = requirement_of(*req);
                assert(want == a@.map_values(
                    |x: (GlobalDeviceId, Vec<(PhysicalMemoryData, ResidualLocation)>)| (x.0, located_sizes(x.1@) as u64),
                ));
                assert(want.len() == r@.len());
                assert forall|k: int| 0 <= k < r@.len() implies want[k] == r@[k] by {
                    assert(r@[k] == (a@[k].0, located_sizes(a@[k].1@) as u64));
                }
                assert(r@ =~= want);
            }
            r
        },
        DeviceRequestArgs::Allocation(v) => {
            let mut r: Vec<(GlobalDeviceId, u64)> = Vec::new();
            let mut i: usize = 0;
            while i < v.len()
                invariant
                    i <= v@.len(),
                    r@ == v@.take(i as int),
                decreases v@.len() - i,
            {
                r.push(v[i]);
                i += 1;
                proof { assert(r@ =~= v@.take(i as int)); }
            }
            proof { assert(v@.take(i as int) =~= v@); }
            r
        },
    }
}

/// What the incoming process's allocations contribute to a plan: their
/// migration entries, the shared-memory and host-memory room their moves
/// free up, and the buffers to bring into shared memory from host memory
/// and from storage.
pub struct IncomingSplit {
    pub entries: Seq<MigrationSpecEntry>,
    pub shm_segments: Seq<u64>,
    pub host_segments: Seq<u64>,
    pub host_ids: Seq<BufferId>,
    pub storage_ids: Seq<BufferId>,
}

/// Nothing contributed.
pub open spec fn empty_split() -> IncomingSplit {
    IncomingSplit {
        entries: Seq::empty(),
        shm_segments: Seq::empty(),
        host_segments: Seq::empty(),
        host_ids: Seq::empty(),
        storage_ids: Seq::empty(),
    }
}

/// `s` followed by `t`.
pub open spec fn join_split(s: IncomingSplit, t: IncomingSplit) -> IncomingSplit {
    IncomingSplit {
        entries: s.entries + t.entries,
        shm_segments: s.shm_segments + t.shm_segments,
        host_segments: s.host_segments + t.host_segments,
        host_ids: s.host_ids + t.host_ids,
        storage_ids: s.storage_ids + t.storage_ids,
    }
}

/// What the allocations `es` of process `pid` on device `d` contribute,
/// in order: one found in shared memory is ready and frees its blocks; one
/// in host memory frees a largest-allocation segment of host memory and is
/// brought into shared memory; one in storage is brought into shared
/// memory; a missing one is left out.
pub open spec fn device_split(pid: i32, d: GlobalDeviceId, es: Seq<(PhysicalMemoryData, ResidualLocation)>) -> IncomingSplit
    decreases es.len(),
{
    if es.len() == 0 {
        empty_split()
    } else {
        let s = device_split(pid, d, es.drop_last());
        let x = es.last();
        match x.1 {
            ResidualLocation::Shm { block_size } => IncomingSplit {
                entries: s.entries.push(spec_entry(x.0, true)),
                shm_segments: s.shm_segments.push(block_size),
                ..s
            },
            ResidualLocation::HostMem => IncomingSplit {
                entries: s.entries.push(spec_entry(x.0, false)),
                host_segments: s.host_segments.push(MAX_ALLOCATION_SIZE as u64),
                host_ids: s.host_ids.push(pmd_buffer_id(pid, d, x.0)),
                ..s
            },
            ResidualLocation::Storage => IncomingSplit {
                entries: s.entries.push(spec_entry(x.0, false)),
                storage_ids: s.storage_ids.push(pmd_buffer_id(pid, d, x.0)),
                ..s
            },
            ResidualLocation::Missing => s,
        }
    }
}

/// What all the allocations `a` of process `pid` contribute, device by
/// device in order.
pub open spec fn all_split(pid: i32, a: Seq<(GlobalDeviceId, Vec<(PhysicalMemoryData, ResidualLocation)>)>) -> IncomingSplit
    decreases a.len(),
{
    if a.len() == 0 {
        empty_split()
    } else {
        join_split(all_split(pid, a.drop_last()), device_split(pid, a.last().0, a.last().1@))
    }
}

/// Every allocation size fits a `u32`.
pub open spec fn located_sizes_fit(es: Seq<(PhysicalMemoryData, ResidualLocation)>) -> bool {
    forall|j: int| 0 <= j < es.len() ==> (#[trigger] es[j]).0.size <= u32::MAX
}

/// Classifies the allocations `es` of process `pid` on device `d`,
/// appending what they contribute to the given lists, and returns their
/// entries.
fn classify_device(
    pid: i32,
    d: GlobalDeviceId,
    es: &Vec<(PhysicalMemoryData, ResidualLocation)>,
    shm: &mut Vec<u64>,
    host: &mut Vec<u64>,
    host_ids: &mut Vec<BufferId>,
    storage_ids: &mut Vec<BufferId>,
) -> (entries: Vec<MigrationSpecEntry>)
    requires
        located_sizes_fit(es@),
    ensures
        entries@ == device_split(pid, d, es@).entries,
        final(shm)@ == old(shm)@ + device_split(pid, d, es@).shm_segments,
        final(host)@ == old(host)@ + device_split(pid, d, es@).host_segments,
        final(host_ids)@ == old(host_ids)@ + device_split(pid, d, es@).host_ids,
        final(storage_ids)@ == old(storage_ids)@ + device_split(pid, d, es@).storage_ids,
{
    let mut entries: Vec<MigrationSpecEntry> = Vec::new();
    let mut i: usize = 0;
    let ghost shm0 = shm@;
    let ghost host0 = host@;
    let ghost hid0 = host_ids@;
    let ghost sid0 = storage_ids@;
    while i < es.len()
        invariant
            i <= es@.len(),
            located_sizes_fit(es@),
            entries@ == device_split(pid, d, es@.take(i as int)).entries,
            shm@ == shm0 + device_split(pid, d, es@.take(i as int)).shm_segments,
            host@ == host0 + device_split(pid, d, es@.take(i as int)).host_segments,
            host_ids@ == hid0 + device_split(pid, d, es@.take(i as int)).host_ids,
            storage_ids@ == sid0 + device_split(pid, d, es@.take(i as int)).storage_ids,
        decreases es@.len() - i,
    {
        let (m, loc) = es[i];
        proof {
            assert(es@.take(i + 1).drop_last() =~= es@.take(i as int));
            assert(es@.take(i + 1).last() == es@[i as int]);
            assert(es@[i as int].0.size <= u32::MAX);
        }
        let ghost before = device_split(pid, d, es@.take(i as int));
        match loc {
            ResidualLocation::Shm { block_size } => {
                entries.push(MigrationSpecEntry { size: m.size as u32, handle_idx: m.handle_idx, ready_for_pcie_xfer: true });
                shm.push(block_size);
            },
            ResidualLocation::HostMem => {
                let e = MigrationSpecEntry { size: m.size as u32, handle_idx: m.handle_idx, ready_for_pcie_xfer: false };
                entries.push(e);
                host.push(MAX_ALLOCATION_SIZE as u64);
                host_ids.push(e.to_buffer_id(pid, d));
            },
            ResidualLocation::Storage => {
                let e = MigrationSpecEntry { size: m.size as u32, handle_idx: m.handle_idx, ready_for_pcie_xfer: false };
                entries.push(e);
                storage_ids.push(e.to_buffer_id(pid, d));
            },
            ResidualLocation::Missing => {},
        }
        i += 1;
        proof {
            let after = device_split(pid, d, es@.take(i as int));
            assert(shm@ =~= shm0 + after.shm_segments);
            assert(host@ =~= host0 + after.host_segments);
            assert(host_ids@ =~= hid0 + after.host_ids);
            assert(storage_ids@ =~= sid0 + after.storage_ids);
            assert(entries@ =~= after.entries);
        }
    }
    proof { assert(es@.take(i as int) =~= es@); }
    entries
}

/// Classifies the allocations `a` of the incoming process `pid`, device
/// by device, appending what they contribute to the given lists; returns
/// each device with its entries.
fn classify_incoming(
    pid: i32,
    a: &Vec<(GlobalDeviceId, Vec<(PhysicalMemoryData, ResidualLocation)>)>,
    shm: &mut Vec<u64>,
    host: &mut Vec<u64>,
    host_ids: &mut Vec<BufferId>,
    storage_ids: &mut Vec<BufferId>,
) -> (into: Vec<(GlobalDeviceId, Vec<MigrationSpecEntry>)>)
    requires
        forall|k: int| 0 <= k < a@.len() ==> located_sizes_fit((#[trigger] a@[k]).1@),
    ensures
        into@.len() == a@.len(),
        forall|k: int| 0 <= k < a@.len() ==> (#[trigger] into@[k]).0 == a@[k].0
            && into@[k].1@ == device_split(pid, a@[k].0, a@[k].1@).entries,
        final(shm)@ == old(shm)@ + all_split(pid, a@).shm_segments,
        final(host)@ == old(host)@ + all_split(pid, a@).host_segments,
        final(host_ids)@ == old(host_ids)@ + all_split(pid, a@).host_ids,
        final(storage_ids)@ == old(storage_ids)@ + all_split(pid, a@).storage_ids,
{
    let mut into: Vec<(GlobalDeviceId, Vec<MigrationSpecEntry>)> = Vec::new();
    let ghost shm0 = shm@;
    let ghost host0 = host@;
    let ghost hid0 = host_ids@;
    let ghost sid0 = storage_ids@;
    let mut p: usize = 0;
    while p < a.len()
        invariant
            p <= a@.len(),
            forall|k: int| 0 <= k < a@.len() ==> located_sizes_fit((#[trigger] a@[k]).1@),
            into@.len() == p,
            forall|k: int| 0 <= k < p ==> (#[trigger] into@[k]).0 == a@[k].0
                && into@[k].1@ == device_split(pid, a@[k].0, a@[k].1@).entries,
            shm@ == shm0 + all_split(pid, a@.take(p as int)).shm_segments,
            host@ == host0 + all_split(pid, a@.take(p as int)).host_segments,
            host_ids@ == hid0 + all_split(pid, a@.take(p as int)).host_ids,
            storage_ids@ == sid0 + all_split(pid, a@.take(p as int)).storage_ids,
        decreases a@.len() - p,
    {
        let ghost s = all_split(pid, a@.take(p as int));
        let ghost t = device_split(pid, a@[p as int].0, a@[p as int].1@);
        proof {
            assert(a@.take(p + 1).drop_last() =~= a@.take(p as int));
            assert(a@.take(p + 1).last() == a@[p as int]);
        }
        let d = a[p].0;
        let entries = classify_device(pid, d, &a[p].1, shm, host, host_ids, storage_ids);
        into.push((d, entries));
        p += 1;
        proof {
            assert(shm@ =~= shm0 + all_split(pid, a@.take(p as int)).shm_segments);
            assert(host@ =~= host0 + all_split(pid, a@.take(p as int)).host_segments);
            assert(host_ids@ =~= hid0 + all_split(pid, a@.take(p as int)).host_ids);
            assert(storage_ids@ =~= sid0 + all_split(pid, a@.take(p as int)).storage_ids);
        }
    }
    proof { assert(a@.take(p as int) =~= a@); }
    into
}

/// The allocations of device `d` in `allocs`, if it has any.
pub open spec fn device_entries(allocs: Seq<(GlobalDeviceId, Vec<PhysicalMemoryData>)>, d: GlobalDeviceId) -> Option<Seq<PhysicalMemoryData>> {
    if exists|j: int| 0 <= j < allocs.len() && (#[trigger] allocs[j]).0 == d {
        Some(allocs[choose|j: int| 0 <= j < allocs.len() && (#[trigger] allocs[j]).0 == d].1@)
    } else {
        None
    }
}

/// No device occurs twice in `allocs`, and every allocation size fits a
/// `u32`.
pub open spec fn allocations_wf(allocs: Seq<(GlobalDeviceId, Vec<PhysicalMemoryData>)>) -> bool {
    &&& forall|i: int, j: int| 0 <= i < allocs.len() && 0 <= j < allocs.len() && i != j ==> (#[trigger] allocs[i]).0 != (#[trigger] allocs[j]).0
    &&& forall|i: int, j: int| 0 <= i < allocs.len() && 0 <= j < allocs[i].1@.len() ==> (#[trigger] allocs[i].1@[j]).size <= u32::MAX
}

/// Every process's allocations are well formed.
pub open spec fn residuals_wf(procs: Seq<ProcessResidualData>) -> bool {
    forall|p: int| 0 <= p < procs.len() ==> allocations_wf((#[trigger] procs[p]).allocations@)
}

/// The number of allocations taken from `es`, starting at position `i`,
/// when `accu` bytes were gathered before `es` and `r` are needed: they are
/// taken in order while fewer than `r` bytes are gathered.
pub open spec fn taken_from(es: Seq<PhysicalMemoryData>, i: nat, accu: int, r: int) -> nat
    decreases es.len() - i,
{
    if i >= es.len() || accu + pmd_sizes(es.take(i as int)) >= r {
        i
    } else {
        taken_from(es, i + 1, accu, r)
    }
}

proof fn lemma_taken_from_bounded(es: Seq<PhysicalMemoryData>, i: nat, accu: int, r: int)
    requires
        i <= es.len(),
    ensures
        i <= taken_from(es, i, accu, r) <= es.len(),
    decreases es.len() - i,
{
    if i < es.len() && accu + pmd_sizes(es.take(i as int)) < r {
        lemma_taken_from_bounded(es, i + 1, accu, r);
    }
}

/// The migration entries of the allocations `es`, all ready.
pub open spec fn entries_of(es: Seq<PhysicalMemoryData>) -> Seq<MigrationSpecEntry>
    decreases es.len(),
{
    if es.len() == 0 {
        Seq::empty()
    } else {
        entries_of(es.drop_last()).push(spec_entry(es.last(), true))
    }
}

proof fn lemma_entries_of_len(es: Seq<PhysicalMemoryData>)
    ensures
        entries_of(es).len() == es.len(),
    decreases es.len(),
{
    if es.len() > 0 {
        lemma_entries_of_len(es.drop_last());
    }
}

/// The buffers taken off device `d` to gather `r` bytes, from the processes
/// `procs` from position `p` on, when `accu` bytes were gathered before:
/// from each process in turn, its allocations on `d` in order while fewer
/// than `r` bytes are gathered; a process from which nothing is taken is
/// left out.
pub open spec fn select_from(procs: Seq<ProcessResidualData>, p: nat, d: GlobalDeviceId, r: int, accu: int) -> Seq<(i32, GlobalDeviceId, Seq<MigrationSpecEntry>)>
    decreases procs.len() - p,
{
    if p >= procs.len() {
        Seq::empty()
    } else {
        match device_entries(procs[p as int].allocations@, d) {
            None => select_from(procs, p + 1, d, r, accu),
            Some(es) => {
                let k = taken_from(es, 0, accu, r);
                let rest = select_from(procs, p + 1, d, r, accu + pmd_sizes(es.take(k as int)));
                if k > 0 {
                    seq![(procs[p as int].pid, d, entries_of(es.take(k as int)))] + rest
                } else {
                    rest
                }
            },
        }
    }
}

/// A selection with its entry lists as plain sequences.
pub open spec fn sel_view(v: Seq<(i32, GlobalDeviceId, Vec<MigrationSpecEntry>)>) -> Seq<(i32, GlobalDeviceId, Seq<MigrationSpecEntry>)>
    decreases v.len(),
{
    if v.len() == 0 {
        Seq::empty()
    } else {
        sel_view(v.drop_last()).push((v.last().0, v.last().1, v.last().2@))
    }
}

/// The position of device `d` in `allocs`, if it occurs.
pub(crate) fn find_device(allocs: &Vec<(GlobalDeviceId, Vec<PhysicalMemoryData>)>, d: GlobalDeviceId) -> (j: Option<usize>)
    requires
        allocations_wf(allocs@),
    ensures
        match j {
            Some(j) => j < allocs@.len() && device_entries(allocs@, d) == Some(allocs@[j as int].1@),
            None => device_entries(allocs@, d) is None,
        },
{
    let mut j: usize = 0;
    while j < allocs.len()
        invariant
            j <= allocs@.len(),
            allocations_wf(allocs@),
            forall|k: int| 0 <= k < j ==> (#[trigger] allocs@[k]).0 != d,
        decreases allocs@.len() - j,
    {
        if allocs[j].0 == d {
            proof {
                let w = choose|k: int| 0 <= k < allocs@.len() && (#[trigger] allocs@[k]).0 == d;
                assert(allocs@[j as int].0 == d);
                if w != j as int {
                    assert(allocs@[w].0 != allocs@[j as int].0);
                }
            }
            return Some(j);
        }
        j += 1;
    }
    None
}

/// Takes allocations from `es` while fewer than `r` bytes are gathered,
/// starting from `accu`; returns their entries and the bytes gathered.
fn take_until(es: &Vec<PhysicalMemoryData>, accu: u64, r: u64) -> (res: (Vec<MigrationSpecEntry>, u64))
    requires
        r <= requirement_bound(),
        accu <= r + u32::MAX,
        forall|j: int| 0 <= j < es@.len() ==> (#[trigger] es@[j]).size <= u32::MAX,
    ensures
        res.0@ == entries_of(es@.take(taken_from(es@, 0, accu as int, r as int) as int)),
        res.1 == accu + pmd_sizes(es@.take(taken_from(es@, 0, accu as int, r as int) as int)),
        res.1 <= r + u32::MAX,
{
    let mut out: Vec<MigrationSpecEntry> = Vec::new();
    let mut acc = accu;
    let mut i: usize = 0;
    proof { assert(es@.take(0) =~= Seq::<PhysicalMemoryData>::empty()); }
    while i < es.len() && acc < r
        invariant
            i <= es@.len(),
            r <= requirement_bound(),
            acc <= r + u32::MAX,
            forall|j: int| 0 <= j < es@.len() ==> (#[trigger] es@[j]).size <= u32::MAX,
            acc == accu + pmd_sizes(es@.take(i as int)),
            out@ == entries_of(es@.take(i as int)),
            taken_from(es@, 0, accu as int, r as int) == taken_from(es@, i as nat, accu as int, r as int),
        decreases es@.len() - i,
    {
        proof {
            assert(es@.take(i + 1).drop_last() =~= es@.take(i as int));
            assert(es@.take(i + 1).last() == es@[i as int]);
            assert(es@[i as int].size <= u32::MAX);
        }
        out.push(MigrationSpecEntry { size: es[i].size as u32, handle_idx: es[i].handle_idx, ready_for_pcie_xfer: true });
        acc = acc + es[i].size;
        i += 1;
    }
    (out, acc)
}

/// The buffers taken off device `d` to gather `r` bytes from the processes
/// `procs`, in their order (see `select_from`).
pub fn select_for_device(procs: &Vec<ProcessResidualData>, d: GlobalDeviceId, r: u64) -> (sel: Vec<(i32, GlobalDeviceId, Vec<MigrationSpecEntry>)>)
    requires
        residuals_wf(procs@),
        r <= requirement_bound(),
    ensures
        sel_view(sel@) == select_from(procs@, 0, d, r as int, 0),
{
    let mut sel: Vec<(i32, GlobalDeviceId, Vec<MigrationSpecEntry>)> = Vec::new();
    let mut accu: u64 = 0;
    let mut p: usize = 0;
    while p < procs.len()
        invariant
            p <= procs@.len(),
            residuals_wf(procs@),
            r <= requirement_bound(),
            accu <= r + u32::MAX,
            select_from(procs@, 0, d, r as int, 0) == sel_view(sel@) + select_from(procs@, p as nat, d, r as int, accu as int),
        decreases procs@.len() - p,
    {
        let ghost rest0 = select_from(procs@, p as nat, d, r as int, accu as int);
        let ghost sel0 = sel_view(sel@);
        proof { assert(allocations_wf(procs@[p as int].allocations@)); }
        match find_device(&procs[p].allocations, d) {
            None => {
                proof {
                    assert(rest0 == select_from(procs@, (p + 1) as nat, d, r as int, accu as int));
                }
            },
            Some(j) => {
                let ghost es = procs@[p as int].allocations@[j as int].1@;
                proof {
                    assert forall|k: int| 0 <= k < es.len() implies (#[trigger] es[k]).size <= u32::MAX by {
                        assert(procs@[p as int].allocations@[j as int].1@[k].size <= u32::MAX);
                    }
                }
                let ghost accu0 = accu;
                let (entries, acc2) = take_until(&procs[p].allocations[j].1, accu, r);
                let ghost k = taken_from(es, 0, accu0 as int, r as int);
                proof {
                    lemma_entries_of_len(es.take(k as int));
                    assert(es.take(k as int).len() == k) by {
                        lemma_taken_from_bounded(es, 0, accu0 as int, r as int);
                    }
                    let tail = select_from(procs@, (p + 1) as nat, d, r as int, acc2 as int);
                    if k > 0 {
                        assert(rest0 == seq![(procs@[p as int].pid, d, entries_of(es.take(k as int)))] + tail);
                    } else {
                        assert(rest0 == tail);
                    }
                }
                if entries.len() > 0 {
                    let ghost before = sel@;
                    sel.push((procs[p].pid, d, entries));
                    proof {
                        assert(sel@.drop_last() =~= before);
                        assert(sel_view(sel@) == sel0.push((procs@[p as int].pid, d, entries@)));
                    }
                }
                accu = acc2;
            },
        }
        p += 1;
        proof {
            assert(select_from(procs@, 0, d, r as int, 0) =~= sel_view(sel@) + select_from(procs@, p as nat, d, r as int, accu as int));
        }
    }
    proof {
        assert(sel_view(sel@) + Seq::<(i32, GlobalDeviceId, Seq<MigrationSpecEntry>)>::empty() =~= sel_view(sel@));
    }
    sel
}

/// The bytes on device `d` held by the processes `procs` from position `p`
/// on.
pub open spec fn device_available(procs: Seq<ProcessResidualData>, p: nat, d: GlobalDeviceId) -> int
    decreases procs.len() - p,
{
    if p >= procs.len() {
        0
    } else {
        let here = match device_entries(procs[p as int].allocations@, d) {
            Some(es) => pmd_sizes(es),
            None => 0,
        };
        here + device_available(procs, p + 1, d)
    }
}

/// The total size of the entries `es`.
pub open spec fn entries_bytes(es: Seq<MigrationSpecEntry>) -> int
    decreases es.len(),
{
    if es.len() == 0 {
        0
    } else {
        entries_bytes(es.drop_last()) + es.last().size
    }
}

/// The total size of the buffers in a selection.
pub open spec fn selected_bytes(sel: Seq<(i32, GlobalDeviceId, Seq<MigrationSpecEntry>)>) -> int
    decreases sel.len(),
{
    if sel.len() == 0 {
        0
    } else {
        entries_bytes(sel[0].2) + selected_bytes(sel.skip(1))
    }
}

proof fn lemma_pmd_sizes_prefix(es: Seq<PhysicalMemoryData>, k: int)
    requires
        0 <= k <= es.len(),
    ensures
        0 <= pmd_sizes(es.take(k)) <= pmd_sizes(es),
    decreases es.len(),
{
    if k < es.len() {
        assert(es.drop_last().take(k) =~= es.take(k));
        lemma_pmd_sizes_prefix(es.drop_last(), k);
    } else {
        assert(es.take(k) =~= es);
        if es.len() > 0 {
            lemma_pmd_sizes_prefix(es.drop_last(), k - 1);
            assert(es.drop_last().take(k - 1) =~= es.drop_last());
        }
    }
}

proof fn lemma_entries_bytes_of(es: Seq<PhysicalMemoryData>)
    requires
        forall|i: int| 0 <= i < es.len() ==> (#[trigger] es[i]).size <= u32::MAX,
    ensures
        entries_bytes(entries_of(es)) == pmd_sizes(es),
    decreases es.len(),
{
    if es.len() > 0 {
        let d = es.drop_last();
        assert forall|i: int| 0 <= i < d.len() implies (#[trigger] d[i]).size <= u32::MAX by {
            assert(d[i] == es[i]);
        }
        lemma_entries_bytes_of(d);
        assert(es.last() == es[es.len() - 1]);
        let e = entries_of(es);
        assert(e.drop_last() =~= entries_of(d));
        assert(e.last() == spec_entry(es.last(), true));
    }
}

proof fn lemma_taken_from_enough(es: Seq<PhysicalMemoryData>, i: nat, accu: int, r: int)
    requires
        i <= es.len(),
    ensures
        taken_from(es, i, accu, r) == es.len() || accu + pmd_sizes(es.take(taken_from(es, i, accu, r) as int)) >= r,
    decreases es.len() - i,
{
    if i < es.len() && accu + pmd_sizes(es.take(i as int)) < r {
        lemma_taken_from_enough(es, i + 1, accu, r);
    }
}

proof fn lemma_select_gathers(procs: Seq<ProcessResidualData>, p: nat, d: GlobalDeviceId, r: int, accu: int)
    requires
        residuals_wf(procs),
    ensures
        0 <= selected_bytes(select_from(procs, p, d, r, accu)) <= device_available(procs, p, d),
        accu + selected_bytes(select_from(procs, p, d, r, accu)) >= r
            || selected_bytes(select_from(procs, p, d, r, accu)) == device_available(procs, p, d),
    decreases procs.len() - p,
{
    if p < procs.len() {
        match device_entries(procs[p as int].allocations@, d) {
            None => {
                lemma_select_gathers(procs, p + 1, d, r, accu);
            },
            Some(es) => {
                let allocs = procs[p as int].allocations@;
                assert(allocations_wf(allocs));
                let j = choose|j: int| 0 <= j < allocs.len() && (#[trigger] allocs[j]).0 == d;
                assert forall|i: int| 0 <= i < es.len() implies (#[trigger] es[i]).size <= u32::MAX by {
                    assert(allocs[j].1@[i].size <= u32::MAX);
                }
                let k = taken_from(es, 0, accu, r);
                lemma_taken_from_bounded(es, 0, accu, r);
                lemma_taken_from_enough(es, 0, accu, r);
                let t = pmd_sizes(es.take(k as int));
                lemma_pmd_sizes_prefix(es, k as int);
                assert forall|i: int| 0 <= i < es.take(k as int).len() implies (#[trigger] es.take(k as int)[i]).size <= u32::MAX by {
                    assert(es.take(k as int)[i] == es[i]);
                }
                lemma_entries_bytes_of(es.take(k as int));
                lemma_select_gathers(procs, p + 1, d, r, accu + t);
                let rest = select_from(procs, p + 1, d, r, accu + t);
                if k > 0 {
                    let x = (procs[p as int].pid, d, entries_of(es.take(k as int)));
                    assert((seq![x] + rest).skip(1) =~= rest);
                    assert((seq![x] + rest)[0] == x);
                } else {
                    assert(es.take(0) =~= Seq::<PhysicalMemoryData>::empty());
                }
                if k == es.len() {
                    assert(es.take(k as int) =~= es);
                }
            },
        }
    }
}

/// The buffers chosen on device `d` add up to at least the `r` bytes asked
/// for, unless they are everything the processes hold on `d`; and they are
/// never more than what the processes hold there.
pub proof fn lemma_selection_meets_requirement(procs: Seq<ProcessResidualData>, d: GlobalDeviceId, r: int)
    requires
        residuals_wf(procs),
    ensures
        selected_bytes(select_from(procs, 0, d, r, 0)) <= device_available(procs, 0, d),
        selected_bytes(select_from(procs, 0, d, r, 0)) >= r
            || selected_bytes(select_from(procs, 0, d, r, 0)) == device_available(procs, 0, d),
{
    lemma_select_gathers(procs, 0, d, r, 0);
}

proof fn lemma_sel_view_append(a: Seq<(i32, GlobalDeviceId, Vec<MigrationSpecEntry>)>, b: Seq<(i32, GlobalDeviceId, Vec<MigrationSpecEntry>)>)
    ensures
        sel_view(a + b) == sel_view(a) + sel_view(b),
    decreases b.len(),
{
    if b.len() == 0 {
        assert(a + b =~= a);
        assert(sel_view(a) + sel_view(b) =~= sel_view(a));
    } else {
        lemma_sel_view_append(a, b.drop_last());
        assert((a + b).drop_last() =~= a + b.drop_last());
        assert(sel_view(a + b) =~= sel_view(a) + sel_view(b));
    }
}

/// The buffers taken off the devices for all requirements `reqs`, device
/// by device in order (see `select_from`).
pub open spec fn select_all(procs: Seq<ProcessResidualData>, reqs: Seq<(GlobalDeviceId, u64)>) -> Seq<(i32, GlobalDeviceId, Seq<MigrationSpecEntry>)>
    decreases reqs.len(),
{
    if reqs.len() == 0 {
        Seq::empty()
    } else {
        select_all(procs, reqs.drop_last()) + select_from(procs, 0, reqs.last().0, reqs.last().1 as int, 0)
    }
}

/// The entries `es` of process `pid` on device `d`, each with its owner.
pub open spec fn owned_entries(pid: i32, d: GlobalDeviceId, es: Seq<MigrationSpecEntry>) -> Seq<(i32, GlobalDeviceId, MigrationSpecEntry)>
    decreases es.len(),
{
    if es.len() == 0 {
        Seq::empty()
    } else {
        owned_entries(pid, d, es.drop_last()).push((pid, d, es.last()))
    }
}

/// All entries of a selection, in order, each with its owner.
pub open spec fn flat_sel(sel: Seq<(i32, GlobalDeviceId, Seq<MigrationSpecEntry>)>) -> Seq<(i32, GlobalDeviceId, MigrationSpecEntry)>
    decreases sel.len(),
{
    if sel.len() == 0 {
        Seq::empty()
    } else {
        flat_sel(sel.drop_last()) + owned_entries(sel.last().0, sel.last().1, sel.last().2)
    }
}

/// The names of owned entries.
pub open spec fn ids_of(flat: Seq<(i32, GlobalDeviceId, MigrationSpecEntry)>) -> Seq<BufferId>
    decreases flat.len(),
{
    if flat.len() == 0 {
        Seq::empty()
    } else {
        ids_of(flat.drop_last()).push(entry_buffer_id(flat.last().2, flat.last().0, flat.last().1))
    }
}

/// The smaller of two integers.
pub open spec fn min_int(a: int, b: int) -> int {
    if a <= b { a } else { b }
}

/// How many of `n` entries take a shared-memory segment, when `s` are free.
pub open spec fn shm_used(s: int, n: int) -> int {
    min_int(s, n)
}

/// How many of `n` entries take a host-memory segment, when `s`
/// shared-memory and `h` host-memory segments are free.
pub open spec fn host_used(s: int, h: int, n: int) -> int {
    min_int(h, n - shm_used(s, n))
}

/// Each entry moved off a device takes a free segment, the last freed
/// first: shared memory while there is any, then host memory; and each
/// segment it takes is at least as large as the entry.
pub open spec fn segments_fit(flat: Seq<(i32, GlobalDeviceId, MigrationSpecEntry)>, shm: Seq<u64>, host: Seq<u64>) -> bool {
    let su = shm_used(shm.len() as int, flat.len() as int);
    let hu = host_used(shm.len() as int, host.len() as int, flat.len() as int);
    &&& forall|j: int| 0 <= j < su ==> shm[shm.len() - 1 - j] >= (#[trigger] flat[j]).2.size
    &&& forall|j: int| 0 <= j < hu ==> host[host.len() - 1 - j] >= (#[trigger] flat[su + j]).2.size
}

/// The buffers that go from shared memory to host memory to make room.
pub open spec fn spill_to_host(flat: Seq<(i32, GlobalDeviceId, MigrationSpecEntry)>, shm: Seq<u64>, host: Seq<u64>) -> Seq<BufferId> {
    let su = shm_used(shm.len() as int, flat.len() as int);
    let hu = host_used(shm.len() as int, host.len() as int, flat.len() as int);
    ids_of(flat.subrange(su, su + hu))
}

/// The buffers that go from shared memory to storage to make room.
pub open spec fn spill_to_storage(flat: Seq<(i32, GlobalDeviceId, MigrationSpecEntry)>, shm: Seq<u64>, host: Seq<u64>) -> Seq<BufferId> {
    let su = shm_used(shm.len() as int, flat.len() as int);
    let hu = host_used(shm.len() as int, host.len() as int, flat.len() as int);
    ids_of(flat.subrange(su + hu, flat.len() as int))
}

/// All entries of a selection, each with its owner.
fn flatten_selection(sel: &Vec<(i32, GlobalDeviceId, Vec<MigrationSpecEntry>)>) -> (flat: Vec<(i32, GlobalDeviceId, MigrationSpecEntry)>)
    ensures
        flat@ == flat_sel(sel_view(sel@)),
{
    let mut flat: Vec<(i32, GlobalDeviceId, MigrationSpecEntry)> = Vec::new();
    let mut p: usize = 0;
    while p < sel.len()
        invariant
            p <= sel@.len(),
            flat@ == flat_sel(sel_view(sel@.take(p as int))),
        decreases sel@.len() - p,
    {
        let ghost base = flat@;
        let (pid, d) = (sel[p].0, sel[p].1);
        let es = &sel[p].2;
        let mut i: usize = 0;
        while i < es.len()
            invariant
                i <= es@.len(),
                es@ == sel@[p as int].2@,
                pid == sel@[p as int].0,
                d == sel@[p as int].1,
                flat@ == base + owned_entries(pid, d, es@.take(i as int)),
            decreases es@.len() - i,
        {
            flat.push((pid, d, es[i]));
            i += 1;
            proof {
                assert(es@.take(i as int).drop_last() =~= es@.take(i - 1));
                assert(flat@ =~= base + owned_entries(pid, d, es@.take(i as int)));
            }
        }
        proof {
            assert(es@.take(i as int) =~= es@);
            assert(sel@.take(p + 1).drop_last() =~= sel@.take(p as int));
            assert(sel_view(sel@.take(p + 1)) == sel_view(sel@.take(p as int)).push((pid, d, es@)));
            assert(sel_view(sel@.take(p + 1)).drop_last() =~= sel_view(sel@.take(p as int)));
        }
        p += 1;
    }
    proof { assert(sel@.take(p as int) =~= sel@); }
    flat
}

/// Whether each entry moved off a device finds a large enough segment (see
/// `segments_fit`).
fn segments_fit_exec(flat: &Vec<(i32, GlobalDeviceId, MigrationSpecEntry)>, shm: &Vec<u64>, host: &Vec<u64>) -> (ok: bool)
    ensures
        ok == segments_fit(flat@, shm@, host@),
{
    let n = flat.len();
    let su = if shm.len() < n { shm.len() } else { n };
    let hu = if host.len() < n - su { host.len() } else { n - su };
    let mut j: usize = 0;
    while j < su
        invariant
            su == shm_used(shm@.len() as int, flat@.len() as int),
            su <= shm@.len(),
            su <= n,
            n == flat@.len(),
            j <= su,
            forall|k: int| 0 <= k < j ==> shm@[shm@.len() - 1 - k] >= (#[trigger] flat@[k]).2.size,
        decreases su - j,
    {
        if shm[shm.len() - 1 - j] < flat[j].2.size as u64 {
            return false;
        }
        j += 1;
    }
    let mut j: usize = 0;
    while j < hu
        invariant
            su == shm_used(shm@.len() as int, flat@.len() as int),
            hu == host_used(shm@.len() as int, host@.len() as int, flat@.len() as int),
            hu <= host@.len(),
            su + hu <= n,
            n == flat@.len(),
            j <= hu,
            forall|k: int| 0 <= k < j ==> host@[host@.len() - 1 - k] >= (#[trigger] flat@[su + k]).2.size,
        decreases hu - j,
    {
        if host[host.len() - 1 - j] < flat[su + j].2.size as u64 {
            return false;
        }
        j += 1;
    }
    true
}

/// Gives each entry moved off a device a free segment, the last freed
/// first: shared memory while any is left, then host memory; an entry that
/// finds none goes to storage. Returns the buffers sent to host memory and
/// those sent to storage.
fn assign_segments(flat: &Vec<(i32, GlobalDeviceId, MigrationSpecEntry)>, shm: &mut Vec<u64>, host: &mut Vec<u64>) -> (res: (Vec<BufferId>, Vec<BufferId>))
    requires
        segments_fit(flat@, old(shm)@, old(host)@),
    ensures
        final(shm)@ == old(shm)@.take(old(shm)@.len() - shm_used(old(shm)@.len() as int, flat@.len() as int)),
        final(host)@ == old(host)@.take(old(host)@.len() - host_used(old(shm)@.len() as int, old(host)@.len() as int, flat@.len() as int)),
        res.0@ == spill_to_host(flat@, old(shm)@, old(host)@),
        res.1@ == spill_to_storage(flat@, old(shm)@, old(host)@),
{
    let ghost shm0 = shm@;
    let ghost host0 = host@;
    let ghost s = shm0.len() as int;
    let ghost h = host0.len() as int;
    let mut to_host: Vec<BufferId> = Vec::new();
    let mut to_storage: Vec<BufferId> = Vec::new();
    let mut j: usize = 0;
    while j < flat.len()
        invariant
            j <= flat@.len(),
            s == shm0.len(),
            h == host0.len(),
            segments_fit(flat@, shm0, host0),
            shm@ == shm0.take(s - shm_used(s, j as int)),
            host@ == host0.take(h - host_used(s, h, j as int)),
            to_host@ == ids_of(flat@.subrange(shm_used(s, j as int), shm_used(s, j as int) + host_used(s, h, j as int))),
            to_storage@ == ids_of(flat@.subrange(shm_used(s, j as int) + host_used(s, h, j as int), j as int)),
        decreases flat@.len() - j,
    {
        let ghost su = shm_used(s, j as int);
        let ghost hu = host_used(s, h, j as int);
        let ghost n = flat@.len() as int;
        let (pid, d, e) = flat[j];
        if shm.len() > 0 {
            proof {
                assert(su == j);
                assert(shm_used(s, n) >= j + 1);
                assert(shm0[s - 1 - j] >= flat@[j as int].2.size);
            }
            let _seg = shm.pop();
            proof {
                assert(shm@ =~= shm0.take(s - shm_used(s, j + 1)));
                assert(flat@.subrange(j + 1, j + 1) =~= flat@.subrange(su, su + hu));
            }
        } else if host.len() > 0 {
            proof {
                assert(su == s);
                assert(host_used(s, h, n) >= hu + 1);
                assert(host0[h - 1 - hu] >= flat@[su + hu].2.size);
                assert(su + hu == j);
            }
            let _seg = host.pop();
            let id = e.to_buffer_id(pid, d);
            to_host.push(id);
            proof {
                assert(host@ =~= host0.take(h - host_used(s, h, j + 1)));
                assert(flat@.subrange(su, su + hu + 1).drop_last() =~= flat@.subrange(su, su + hu));
                assert(to_host@ =~= ids_of(flat@.subrange(su, su + hu + 1)));
                assert(flat@.subrange(j + 1, j + 1) =~= flat@.subrange(su + hu, j as int));
            }
        } else {
            let id = e.to_buffer_id(pid, d);
            to_storage.push(id);
            proof {
                assert(flat@.subrange(su + hu, j + 1).drop_last() =~= flat@.subrange(su + hu, j as int));
                assert(to_storage@ =~= ids_of(flat@.subrange(su + hu, j + 1)));
            }
        }
        j += 1;
    }
    (to_host, to_storage)
}

/// The buffers taken off the devices for the requirements `reqs`.
fn select_all_exec(procs: &Vec<ProcessResidualData>, reqs: &Vec<(GlobalDeviceId, u64)>) -> (sel: Vec<(i32, GlobalDeviceId, Vec<MigrationSpecEntry>)>)
    requires
        residuals_wf(procs@),
        forall|i: int| 0 <= i < reqs@.len() ==> (#[trigger] reqs@[i]).1 <= requirement_bound(),
    ensures
        sel_view(sel@) == select_all(procs@, reqs@),
{
    let mut out: Vec<(i32, GlobalDeviceId, Vec<MigrationSpecEntry>)> = Vec::new();
    let mut i: usize = 0;
    while i < reqs.len()
        invariant
            i <= reqs@.len(),
            residuals_wf(procs@),
            forall|k: int| 0 <= k < reqs@.len() ==> (#[trigger] reqs@[k]).1 <= requirement_bound(),
            sel_view(out@) == select_all(procs@, reqs@.take(i as int)),
        decreases reqs@.len() - i,
    {
        let (d, r) = reqs[i];
        let mut sel = select_for_device(procs, d, r);
        let ghost before = out@;
        let ghost added = sel@;
        out.append(&mut sel);
        proof {
            lemma_sel_view_append(before, added);
            assert(reqs@.take(i + 1).drop_last() =~= reqs@.take(i as int));
            assert(reqs@.take(i + 1).last() == reqs@[i as int]);
        }
        i += 1;
    }
    proof { assert(reqs@.take(i as int) =~= reqs@); }
    out
}

/// A migration that brings a process's data onto the devices: the buffers
/// of other processes to move off each device, the incoming process's
/// entries per device, and the reorganization of the daemon's buffers it
/// needs.
pub struct MigrationPlan {
    pub out_of_gpu: Vec<(i32, GlobalDeviceId, Vec<MigrationSpecEntry>)>,
    pub into_gpu: Vec<(GlobalDeviceId, Vec<MigrationSpecEntry>)>,
    pub storage_to_shm: Vec<BufferId>,
    pub host_mem_to_shm: Vec<BufferId>,
    pub shm_to_host_mem: Vec<BufferId>,
    pub shm_to_storage: Vec<BufferId>,
}

/// What the incoming process `pid`'s own allocations contribute (nothing
/// when it only asks for room).
pub open spec fn incoming_split(pid: i32, req: DeviceRequestArgs) -> IncomingSplit {
    match req {
        DeviceRequestArgs::ResidualData(a) => all_split(pid, a@),
        DeviceRequestArgs::Allocation(_) => empty_split(),
    }
}

/// The buffers moved off the devices, each with its owner, in order.
pub open spec fn plan_flat(procs: Seq<ProcessResidualData>, req: DeviceRequestArgs) -> Seq<(i32, GlobalDeviceId, MigrationSpecEntry)> {
    flat_sel(select_all(procs, requirement_of(req)))
}

/// The free shared-memory segments once the incoming process's own
/// shared-memory blocks are counted free.
pub open spec fn plan_shm(pid: i32, req: DeviceRequestArgs, shm: Seq<u64>) -> Seq<u64> {
    shm + incoming_split(pid, req).shm_segments
}

/// The free host-memory segments once the incoming process's own
/// host-memory buffers are counted free.
pub open spec fn plan_host(pid: i32, req: DeviceRequestArgs, host: Seq<u64>) -> Seq<u64> {
    host + incoming_split(pid, req).host_segments
}

/// Every buffer moved off a device finds a large enough segment.
pub open spec fn plan_fits(pid: i32, req: DeviceRequestArgs, procs: Seq<ProcessResidualData>, shm: Seq<u64>, host: Seq<u64>) -> bool {
    segments_fit(plan_flat(procs, req), plan_shm(pid, req, shm), plan_host(pid, req, host))
}

proof fn lemma_requirement_in_range(req: DeviceRequestArgs)
    requires
        request_in_range(req),
    ensures
        forall|i: int| 0 <= i < requirement_of(req).len() ==> (#[trigger] requirement_of(req)[i]).1 <= requirement_bound(),
{
    match req {
        DeviceRequestArgs::ResidualData(a) => {
            assert forall|i: int| 0 <= i < requirement_of(req).len() implies (#[trigger] requirement_of(req)[i]).1 <= requirement_bound() by {
                assert(located_sizes(a@[i].1@) <= requirement_bound());
                assert(located_sizes(a@[i].1@) >= 0) by {
                    lemma_located_nonneg(a@[i].1@);
                }
            }
        },
        DeviceRequestArgs::Allocation(_) => {},
    }
}

proof fn lemma_located_nonneg(es: Seq<(PhysicalMemoryData, ResidualLocation)>)
    ensures
        located_sizes(es) >= 0,
    decreases es.len(),
{
    if es.len() > 0 {
        lemma_located_nonneg(es.drop_last());
    }
}

/// The incoming process's allocations are in range and every process's
/// allocations are well formed.
pub open spec fn plan_inputs_wf(req: DeviceRequestArgs, procs: Seq<ProcessResidualData>) -> bool {
    &&& request_in_range(req)
    &&& residuals_wf(procs)
}

/// Splits the incoming process's allocations (nothing for a request of
/// room), appending to the segment and buffer lists.
fn classify_request(
    into_pid: i32,
    into_req: &DeviceRequestArgs,
    shm: &mut Vec<u64>,
    host: &mut Vec<u64>,
    host_ids: &mut Vec<BufferId>,
    storage_ids: &mut Vec<BufferId>,
) -> (into: Vec<(GlobalDeviceId, Vec<MigrationSpecEntry>)>)
    requires
        request_in_range(*into_req),
    ensures
        final(shm)@ == old(shm)@ + incoming_split(into_pid, *into_req).shm_segments,
        final(host)@ == old(host)@ + incoming_split(into_pid, *into_req).host_segments,
        final(host_ids)@ == old(host_ids)@ + incoming_split(into_pid, *into_req).host_ids,
        final(storage_ids)@ == old(storage_ids)@ + incoming_split(into_pid, *into_req).storage_ids,
        match *into_req {
            DeviceRequestArgs::ResidualData(a) => {
                &&& into@.len() == a@.len()
                &&& forall|k: int| 0 <= k < a@.len() ==> (#[trigger] into@[k]).0 == a@[k].0
                    && into@[k].1@ == device_split(into_pid, a@[k].0, a@[k].1@).entries
            },
            DeviceRequestArgs::Allocation(_) => into@.len() == 0,
        },
{
    match into_req {
        DeviceRequestArgs::ResidualData(a) => {
            proof {
                assert forall|k: int| 0 <= k < a@.len() implies located_sizes_fit((#[trigger] a@[k]).1@) by {
                    assert forall|j: int| 0 <= j < a@[k].1@.len() implies (#[trigger] a@[k].1@[j]).0.size <= u32::MAX by {
                        assert(a@[k].1@[j].0.size <= u32::MAX);
                    }
                }
            }
            classify_incoming(into_pid, a, shm, host, host_ids, storage_ids)
        },
        DeviceRequestArgs::Allocation(_) => {
            proof {
                assert(shm@ =~= shm@ + Seq::<u64>::empty());
                assert(host@ =~= host@ + Seq::<u64>::empty());
                assert(host_ids@ =~= host_ids@ + Seq::<BufferId>::empty());
                assert(storage_ids@ =~= storage_ids@ + Seq::<BufferId>::empty());
            }
            Vec::new()
        },
    }
}

/// Whether every buffer moved off a device by the plan of
/// `two_processes_task` on these inputs finds a large enough segment.
pub fn plan_segments_fit(
    into_pid: i32,
    into_req: &DeviceRequestArgs,
    out_from_gpu: &Vec<ProcessResidualData>,
    shm_free_segments: &Vec<u64>,
    host_mem_free_segments: &Vec<u64>,
) -> (ok: bool)
    requires
        plan_inputs_wf(*into_req, out_from_gpu@),
    ensures
        ok == plan_fits(into_pid, *into_req, out_from_gpu@, shm_free_segments@, host_mem_free_segments@),
{
    let reqs = requirement(into_req);
    let mut shm = shm_free_segments.clone();
    let mut host = host_mem_free_segments.clone();
    proof {
        assert(shm@ =~= shm_free_segments@);
        assert(host@ =~= host_mem_free_segments@);
    }
    let mut host_ids: Vec<BufferId> = Vec::new();
    let mut storage_ids: Vec<BufferId> = Vec::new();
    let _into = classify_request(into_pid, into_req, &mut shm, &mut host, &mut host_ids, &mut storage_ids);
    proof { lemma_requirement_in_range(*into_req); }
    let sel = select_all_exec(out_from_gpu, &reqs);
    let flat = flatten_selection(&sel);
    segments_fit_exec(&flat, &shm, &host)
}

/// Plans a migration that brings process `into_pid`'s data onto the
/// devices at the cost of other processes' data, those earlier in
/// `out_from_gpu` moved first. The incoming allocations found in shared
/// memory free their blocks, those in host memory free host memory and
/// are brought into shared memory, as are those in storage. For each
/// device in turn, buffers of the other processes on it are taken in
/// order until its requirement is met; each takes a free segment, the last
/// freed first: shared memory, then host memory (spilling a buffer from
/// shared memory to host memory), then none (spilling it to storage).
pub fn two_processes_task(
    into_pid: i32,
    into_req: &DeviceRequestArgs,
    out_from_gpu: &Vec<ProcessResidualData>,
    shm_free_segments: Vec<u64>,
    host_mem_free_segments: Vec<u64>,
) -> (plan: MigrationPlan)
    requires
        plan_inputs_wf(*into_req, out_from_gpu@),
        plan_fits(into_pid, *into_req, out_from_gpu@, shm_free_segments@, host_mem_free_segments@),
    ensures
        sel_view(plan.out_of_gpu@) == select_all(out_from_gpu@, requirement_of(*into_req)),
        match *into_req {
            DeviceRequestArgs::ResidualData(a) => {
                &&& plan.into_gpu@.len() == a@.len()
                &&& forall|k: int| 0 <= k < a@.len() ==> (#[trigger] plan.into_gpu@[k]).0 == a@[k].0
                    && plan.into_gpu@[k].1@ == device_split(into_pid, a@[k].0, a@[k].1@).entries
            },
            DeviceRequestArgs::Allocation(_) => plan.into_gpu@.len() == 0,
        },
        plan.host_mem_to_shm@ == incoming_split(into_pid, *into_req).host_ids,
        plan.storage_to_shm@ == incoming_split(into_pid, *into_req).storage_ids,
        plan.shm_to_host_mem@ == spill_to_host(
            plan_flat(out_from_gpu@, *into_req),
            plan_shm(into_pid, *into_req, shm_free_segments@),
            plan_host(into_pid, *into_req, host_mem_free_segments@),
        ),
        plan.shm_to_storage@ == spill_to_storage(
            plan_flat(out_from_gpu@, *into_req),
            plan_shm(into_pid, *into_req, shm_free_segments@),
            plan_host(into_pid, *into_req, host_mem_free_segments@),
        ),
{
    let reqs = requirement(into_req);
    let mut shm = shm_free_segments;
    let mut host = host_mem_free_segments;
    let mut host_mem_to_shm: Vec<BufferId> = Vec::new();
    let mut storage_to_shm: Vec<BufferId> = Vec::new();
    let into_gpu = classify_request(into_pid, into_req, &mut shm, &mut host, &mut host_mem_to_shm, &mut storage_to_shm);
    proof {
        lemma_requirement_in_range(*into_req);
        assert(host_mem_to_shm@ =~= incoming_split(into_pid, *into_req).host_ids);
        assert(storage_to_shm@ =~= incoming_split(into_pid, *into_req).storage_ids);
    }
    let out_of_gpu = select_all_exec(out_from_gpu, &reqs);
    let flat = flatten_selection(&out_of_gpu);
    let (shm_to_host_mem, shm_to_storage) = assign_segments(&flat, &mut shm, &mut host);
    MigrationPlan { out_of_gpu, into_gpu, storage_to_shm, host_mem_to_shm, shm_to_host_mem, shm_to_storage }
}

} // verus!
