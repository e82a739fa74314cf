//! The order in which the incoming process's buffers go onto one device:
//! buffers already in shared memory go in plan order, the others as their
//! data arrives, and each waits until the outgoing processes have freed
//! enough device memory for it.

use vstd::prelude::*;
use crate::plan::{entry_buffer_id, MigrationSpecEntry};
use crate::types::{BufferId, GlobalDeviceId};

verus! {

/// Whether a buffer was ready at the start or arrived later.
#[derive(Debug, Clone, Copy, PartialEq, Eq, Structural)]
pub enum BufferSource {
    Ready,
    Pending,
}

/// The names of the entries `es` of process `pid` on device `d` that are
/// ready, in order.
pub open spec fn ready_ids(pid: i32, d: GlobalDeviceId, es: Seq<MigrationSpecEntry>) -> Seq<BufferId>
    decreases es.len(),
{
    if es.len() == 0 {
        Seq::empty()
    } else if es.last().ready_for_pcie_xfer {
        ready_ids(pid, d, es.drop_last()).push(entry_buffer_id(es.last(), pid, d))
    } else {
        ready_ids(pid, d, es.drop_last())
    }
}

/// The names of the entries `es` of process `pid` on device `d` that are
/// not ready, each once, in order of first occurrence.
pub open spec fn pending_ids(pid: i32, d: GlobalDeviceId, es: Seq<MigrationSpecEntry>) -> Seq<BufferId>
    decreases es.len(),
{
    if es.len() == 0 {
        Seq::empty()
    } else {
        let p = pending_ids(pid, d, es.drop_last());
        let id = entry_buffer_id(es.last(), pid, d);
        if es.last().ready_for_pcie_xfer || p.contains(id) {
            p
        } else {
            p.push(id)
        }
    }
}

/// No name occurs twice in `s`.
pub open spec fn ids_distinct(s: Seq<BufferId>) -> bool {
    forall|a: int, b: int| 0 <= a < s.len() && 0 <= b < s.len() && a != b ==> s[a] != s[b]
}

/// The state of the transfers onto one device, as plain values: the ready
/// buffers still to go (in order), the buffers whose data has not arrived,
/// the device memory freed and not yet used, the buffer to go next, and
/// how many of each kind went.
pub struct H2dView {
    pub ready: Seq<BufferId>,
    pub pending: Seq<BufferId>,
    pub accu: u64,
    pub next: Option<(BufferId, BufferSource)>,
    pub ready_done: nat,
    pub pending_done: nat,
    pub ready_total: nat,
    pub pending_total: nat,
}

/// The transfers of the incoming process's buffers onto one device.
pub struct H2dQueue {
    ready: Vec<BufferId>,
    ready_pos: usize,
    pending: Vec<BufferId>,
    accu: u64,
    next: Option<(BufferId, BufferSource)>,
    ready_done: usize,
    pending_done: usize,
    pending_total: usize,
}

/// The next buffer taken from the ready ones `ready`.
pub open spec fn next_of(ready: Seq<BufferId>) -> Option<(BufferId, BufferSource)> {
    if ready.len() > 0 {
        Some((ready[0], BufferSource::Ready))
    } else {
        None
    }
}

/// The ready buffers left once the next is taken.
pub open spec fn rest_of(ready: Seq<BufferId>) -> Seq<BufferId> {
    if ready.len() > 0 {
        ready.drop_first()
    } else {
        ready
    }
}

impl View for H2dQueue {
    type V = H2dView;

    closed spec fn view(&self) -> H2dView {
        H2dView {
            ready: self.ready@.skip(self.ready_pos as int),
            pending: self.pending@,
            accu: self.accu,
            next: self.next,
            ready_done: self.ready_done as nat,
            pending_done: self.pending_done as nat,
            ready_total: self.ready@.len(),
            pending_total: self.pending_total as nat,
        }
    }
}

/// The size of the chosen buffer (zero if none is chosen).
pub open spec fn next_size(next: Option<(BufferId, BufferSource)>) -> u32 {
    match next {
        Some((id, _)) => id.size,
        None => 0,
    }
}

/// `s` with `x` taken out.
pub open spec fn without(s: Seq<BufferId>, x: BufferId) -> Seq<BufferId> {
    s.remove(s.index_of(x))
}

impl H2dQueue {
    /// Every buffer is counted once: gone, still to go, or next.
    pub closed spec fn wf(&self) -> bool {
        &&& self.ready_pos <= self.ready@.len()
        &&& ids_distinct(self.pending@)
        &&& self.ready_done + (self.ready@.len() - self.ready_pos)
            + (if self.next matches Some((_, BufferSource::Ready)) { 1int } else { 0int }) == self.ready@.len()
        &&& self.pending_done + self.pending@.len()
            + (if self.next matches Some((_, BufferSource::Pending)) { 1int } else { 0int }) == self.pending_total
    }

    /// The transfers of the entries `entries` of process `pid` onto device
    /// `device`: the ready buffers in order, the first of them to go first.
    pub fn new(pid: i32, device: GlobalDeviceId, entries: &Vec<MigrationSpecEntry>) -> (q: Self)
        ensures
            q.wf(),
            q@.ready == rest_of(ready_ids(pid, device, entries@)),
            q@.next == next_of(ready_ids(pid, device, entries@)),
            q@.pending == pending_ids(pid, device, entries@),
            q@.accu == 0,
            q@.ready_done == 0,
            q@.pending_done == 0,
            q@.ready_total == ready_ids(pid, device, entries@).len(),
            q@.pending_total == pending_ids(pid, device, entries@).len(),
    {
        let mut ready: Vec<BufferId> = Vec::new();
        let mut pending: Vec<BufferId> = Vec::new();
        let mut i: usize = 0;
        while i < entries.len()
            invariant
                i <= entries@.len(),
                ready@ == ready_ids(pid, device, entries@.take(i as int)),
                pending@ == pending_ids(pid, device, entries@.take(i as int)),
                ids_distinct(pending@),
            decreases entries@.len() - i,
        {
            proof {
                assert(entries@.take(i + 1).drop_last() =~= entries@.take(i as int));
                assert(entries@.take(i + 1).last() == entries@[i as int]);
            }
            let e = entries[i];
            let id = e.to_buffer_id(pid, device);
            if e.ready_for_pcie_xfer {
                ready.push(id);
            } else {
                let mut found = false;
                let mut k: usize = 0;
                while k < pending.len()
                    invariant
                        k <= pending@.len(),
                        found == pending@.take(k as int).contains(id),
                    decreases pending@.len() - k,
                {
                    let ghost before = pending@.take(k as int);
                    if pending[k] == id {
                        found = true;
                    }
                    k += 1;
                    proof {
                        let after = pending@.take(k as int);
                        assert(after =~= before.push(pending@[k - 1]));
                        if pending@[k - 1] == id {
                            assert(after[k - 1] == id);
                        }
                        if before.contains(id) {
                            let w = choose|w: int| 0 <= w < before.len() && before[w] == id;
                            assert(after[w] == id);
                        }
                        if after.contains(id) && pending@[k - 1] != id {
                            let w = choose|w: int| 0 <= w < after.len() && after[w] == id;
                            assert(w < k - 1);
                            assert(before[w] == id);
                        }
                    }
                }
                proof {
                    assert(pending@.take(k as int) =~= pending@);
                }
                if !found {
                    let ghost old_p = pending@;
                    pending.push(id);
                    proof {
                        assert forall|a: int, b: int| 0 <= a < pending@.len() && 0 <= b < pending@.len() && a != b implies pending@[a] != pending@[b] by {
                            if a == old_p.len() {
                                assert(pending@[b] == old_p[b]);
                                assert(old_p.contains(old_p[b]));
                            } else if b == old_p.len() {
                                assert(pending@[a] == old_p[a]);
                                assert(old_p.contains(old_p[a]));
                            }
                        }
                    }
                }
            }
            i += 1;
        }
        proof {
            assert(entries@.take(i as int) =~= entries@);
        }
        let total = pending.len();
        let next = if ready.len() > 0 { Some((ready[0], BufferSource::Ready)) } else { None };
        let pos: usize = if ready.len() > 0 { 1 } else { 0 };
        let q = H2dQueue { ready, ready_pos: pos, pending, accu: 0, next, ready_done: 0, pending_done: 0, pending_total: total };
        proof {
            if q.ready@.len() > 0 {
                assert(q.ready@.skip(1) =~= q.ready@.drop_first());
            } else {
                assert(q.ready@.skip(0) =~= q.ready@);
            }
        }
        q
    }

    /// The buffer to go next, if one is chosen.
    pub fn current(&self) -> (c: Option<(BufferId, BufferSource)>)
        ensures
            c == self@.next,
    {
        self.next
    }

    /// Whether the next buffer has to wait for data to arrive: none is
    /// chosen and some still have no data.
    pub fn waiting_for_data(&self) -> (w: bool)
        ensures
            w == (self@.next is None && self@.pending.len() > 0),
    {
        self.next.is_none() && self.pending.len() > 0
    }

    /// Whether every transfer is done: none is chosen and none waits for
    /// data.
    pub fn finished(&self) -> (f: bool)
        ensures
            f == (self@.next is None && self@.pending.len() == 0),
    {
        self.next.is_none() && self.pending.len() == 0
    }

    /// Whether every buffer of both kinds went.
    pub fn all_moved(&self) -> (b: bool)
        ensures
            b == (self@.ready_done == self@.ready_total && self@.pending_done == self@.pending_total),
    {
        self.ready_done == self.ready.len() && self.pending_done == self.pending_total
    }

    /// The data of buffer `id` arrived while none is chosen: if it is one
    /// waiting for data, it goes next; otherwise nothing changes and
    /// `false` is returned.
    pub fn data_available(&mut self, id: BufferId) -> (taken: bool)
        requires
            old(self).wf(),
            old(self)@.next is None,
        ensures
            final(self).wf(),
            taken == old(self)@.pending.contains(id),
            taken ==> final(self)@ == (H2dView {
                pending: without(old(self)@.pending, id),
                next: Some((id, BufferSource::Pending)),
                ..old(self)@
            }),
            !taken ==> final(self)@ == old(self)@,
    {
        let mut k: usize = 0;
        while k < self.pending.len()
            invariant
                k <= self.pending@.len(),
                *self == *old(self),
                old(self).wf(),
                old(self)@.next is None,
                forall|q: int| 0 <= q < k ==> self.pending@[q] != id,
            decreases self.pending@.len() - k,
        {
            if self.pending[k] == id {
                let ghost p0 = self.pending@;
                proof {
                    assert(p0.contains(id));
                    let w = p0.index_of(id);
                    assert(p0[w] == id);
                    if w != k as int {
                        assert(false);
                    }
                }
                self.pending.remove(k);
                self.next = Some((id, BufferSource::Pending));
                proof {
                    assert forall|a: int, b: int| 0 <= a < self.pending@.len() && 0 <= b < self.pending@.len() && a != b implies self.pending@[a] != self.pending@[b] by {
                        let a0 = if a < k { a } else { a + 1 };
                        let b0 = if b < k { b } else { b + 1 };
                        assert(self.pending@[a] == p0[a0]);
                        assert(self.pending@[b] == p0[b0]);
                    }
                    assert(self.pending@ =~= without(p0, id));
                }
                return true;
            }
            k += 1;
        }
        proof {
            if self.pending@.contains(id) {
                let w = self.pending@.index_of(id);
                assert(self.pending@[w] == id);
            }
        }
        false
    }

    /// Device memory of `size` bytes was freed. It adds to what was freed
    /// before; the chosen buffer may go (`true`) once that covers it, and
    /// its size is then used up.
    pub fn token(&mut self, size: u64) -> (go: bool)
        requires
            old(self).wf(),
            old(self)@.next is Some,
            old(self)@.accu + size <= u64::MAX,
        ensures
            final(self).wf(),
            ({
                let need = next_size(old(self)@.next);
                let total = old(self)@.accu + size;
                &&& go == (total >= need)
                &&& final(self)@ == (H2dView { accu: (if go { total - need } else { total }) as u64, ..old(self)@ })
            }),
    {
        self.accu = self.accu + size;
        let need = match self.next {
            Some((id, _)) => id.size as u64,
            None => 0,
        };
        if self.accu >= need {
            self.accu = self.accu - need;
            true
        } else {
            false
        }
    }

    /// The chosen buffer went onto the device: it is counted, and the next
    /// ready buffer, if any, is chosen.
    pub fn transferred(&mut self)
        requires
            old(self).wf(),
            old(self)@.next is Some,
        ensures
            final(self).wf(),
            final(self)@ == (H2dView {
                ready: rest_of(old(self)@.ready),
                next: next_of(old(self)@.ready),
                ready_done: if old(self)@.next matches Some((_, BufferSource::Ready)) { old(self)@.ready_done + 1 } else { old(self)@.ready_done },
                pending_done: if old(self)@.next matches Some((_, BufferSource::Pending)) { old(self)@.pending_done + 1 } else { old(self)@.pending_done },
                ..old(self)@
            }),
    {
        match self.next {
            Some((_, BufferSource::Ready)) => {
                self.ready_done = self.ready_done + 1;
            },
            Some((_, BufferSource::Pending)) => {
                self.pending_done = self.pending_done + 1;
            },
            None => {},
        }
        let ghost r0 = self@.ready;
        if self.ready_pos < self.ready.len() {
            self.next = Some((self.ready[self.ready_pos], BufferSource::Ready));
            self.ready_pos = self.ready_pos + 1;
            proof {
                assert(self@.ready =~= r0.drop_first());
            }
        } else {
            self.next = None;
        }
    }
}

/// Ready buffers go in plan order: while only ready buffers are chosen,
/// the buffer chosen after `k` transfers is the `k`-th ready one.
pub proof fn lemma_ready_in_order(ready: Seq<BufferId>, k: nat)
    requires
        k < ready.len(),
    ensures
        next_of(ready.skip(k as int)) == Some((ready[k as int], BufferSource::Ready)),
        rest_of(ready.skip(k as int)) == ready.skip(k as int + 1),
{
    assert(ready.skip(k as int).drop_first() =~= ready.skip(k as int + 1));
}

} // verus!
