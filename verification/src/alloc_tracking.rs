//! The client side's record of its device allocations, ordered by address.

use vstd::prelude::*;

verus! {

/// One device allocation: where it starts, the bytes asked for, the bytes
/// reserved, and its device as the process sees it.
#[derive(Debug, Clone, Copy, PartialEq, Eq, Structural)]
pub struct AllocRecord {
    pub dev_ptr: u64,
    pub size: u64,
    pub alloc_size: u64,
    pub device: i32,
}

/// The records are ordered by strictly increasing address.
pub open spec fn sorted_by_ptr(s: Seq<AllocRecord>) -> bool {
    forall|a: int, b: int| 0 <= a < b < s.len() ==> (#[trigger] s[a]).dev_ptr < (#[trigger] s[b]).dev_ptr
}

/// Whether a record starts at `ptr`.
pub open spec fn has_ptr(s: Seq<AllocRecord>, ptr: u64) -> bool {
    exists|i: int| 0 <= i < s.len() && (#[trigger] s[i]).dev_ptr == ptr
}

/// The record starting at `ptr`.
pub open spec fn record_at(s: Seq<AllocRecord>, ptr: u64) -> AllocRecord {
    s[choose|i: int| 0 <= i < s.len() && (#[trigger] s[i]).dev_ptr == ptr]
}

/// The record with the greatest address at most `ptr`, if any.
pub open spec fn floor_record(s: Seq<AllocRecord>, ptr: u64) -> Option<AllocRecord> {
    if exists|i: int| 0 <= i < s.len() && (#[trigger] s[i]).dev_ptr <= ptr {
        let i = choose|i: int| 0 <= i < s.len() && (#[trigger] s[i]).dev_ptr <= ptr
            && (i + 1 == s.len() || s[i + 1].dev_ptr > ptr);
        Some(s[i])
    } else {
        None
    }
}

/// Whether `r` covers `ptr`.
pub open spec fn covers(r: AllocRecord, ptr: u64) -> bool {
    r.dev_ptr <= ptr < r.dev_ptr + r.size
}

/// The allocations of a process, by address.
pub struct AllocTracker {
    records: Vec<AllocRecord>,
}

impl View for AllocTracker {
    type V = Seq<AllocRecord>;

    closed spec fn view(&self) -> Seq<AllocRecord> {
        self.records@
    }
}

impl AllocTracker {
    /// The records are ordered by strictly increasing address.
    pub closed spec fn wf(&self) -> bool {
        sorted_by_ptr(self.records@)
    }

    /// No allocation recorded.
    pub fn new() -> (t: Self)
        ensures
            t.wf(),
            t@ == Seq::<AllocRecord>::empty(),
    {
        AllocTracker { records: Vec::new() }
    }

    /// The first position whose address is at least `ptr`.
    fn position(&self, ptr: u64) -> (k: usize)
        requires
            self.wf(),
        ensures
            k <= self@.len(),
            forall|q: int| 0 <= q < k ==> (#[trigger] self@[q]).dev_ptr < ptr,
            k < self@.len() ==> self@[k as int].dev_ptr >= ptr,
    {
        let mut k: usize = 0;
        while k < self.records.len()
            invariant
                k <= self@.len(),
                forall|q: int| 0 <= q < k ==> (#[trigger] self@[q]).dev_ptr < ptr,
            decreases self@.len() - k,
        {
            if self.records[k].dev_ptr >= ptr {
                return k;
            }
            k += 1;
        }
        k
    }

    /// An address at which an allocation is recorded is found again: the
    /// lookup of `p` gives the record there when it is not empty.
    pub proof fn lemma_lookup_recorded(&self, p: u64)
        requires
            self.wf(),
            has_ptr(self@, p),
        ensures
            floor_record(self@, p) == Some(record_at(self@, p)),
            record_at(self@, p).dev_ptr == p,
            record_at(self@, p).size > 0 ==> covers(record_at(self@, p), p),
    {
        let s = self@;
        let i0 = choose|i: int| 0 <= i < s.len() && (#[trigger] s[i]).dev_ptr == p;
        assert(s[i0].dev_ptr <= p);
        assert(i0 + 1 == s.len() || s[i0 + 1].dev_ptr > p);
        let i = choose|i: int| 0 <= i < s.len() && (#[trigger] s[i]).dev_ptr <= p
            && (i + 1 == s.len() || s[i + 1].dev_ptr > p);
        if i < i0 {
            if i + 1 < i0 {
                assert(s[i + 1].dev_ptr < s[i0].dev_ptr);
            }
        } else if i > i0 {
            assert(s[i0].dev_ptr < s[i].dev_ptr);
        }
        assert(i == i0);
    }

    /// Records an allocation at `dev_ptr` (replacing any record there) and
    /// returns whether the record below it runs into it.
    pub fn insert(&mut self, dev_ptr: u64, size: u64, alloc_size: u64, device: i32) -> (overlaps: bool)
        requires
            old(self).wf(),
        ensures
            final(self).wf(),
            overlaps == (match floor_record(old(self)@, dev_ptr) {
                Some(r) => r.dev_ptr + r.size > dev_ptr,
                None => false,
            }),
            has_ptr(final(self)@, dev_ptr),
            record_at(final(self)@, dev_ptr) == (AllocRecord { dev_ptr, size, alloc_size, device }),
            forall|p: u64| p != dev_ptr ==> (has_ptr(final(self)@, p) <==> has_ptr(old(self)@, p)),
            forall|p: u64| p != dev_ptr && has_ptr(old(self)@, p) ==> record_at(final(self)@, p) == record_at(old(self)@, p),
    {
        let ghost s = self@;
        let rec = AllocRecord { dev_ptr, size, alloc_size, device };
        let k = self.position(dev_ptr);
        let exact = k < self.records.len() && self.records[k].dev_ptr == dev_ptr;
        let overlaps = if exact {
            size_reaches(self.records[k], dev_ptr)
        } else if k > 0 {
            size_reaches(self.records[k - 1], dev_ptr)
        } else {
            false
        };
        proof {
            if exact {
                lemma_floor_is(s, dev_ptr, k as int);
            } else if k > 0 {
                lemma_floor_is(s, dev_ptr, k - 1);
            } else {
                assert(!exists|i: int| 0 <= i < s.len() && (#[trigger] s[i]).dev_ptr <= dev_ptr) by {
                    if exists|i: int| 0 <= i < s.len() && (#[trigger] s[i]).dev_ptr <= dev_ptr {
                        let i = choose|i: int| 0 <= i < s.len() && (#[trigger] s[i]).dev_ptr <= dev_ptr;
                        if k < s.len() {
                            assert(s[0].dev_ptr >= dev_ptr);
                            if i > 0 {
                                assert(s[0].dev_ptr < s[i].dev_ptr);
                            }
                        }
                    }
                }
            }
        }
        if exact {
            self.records.set(k, rec);
            proof {
                let t = self@;
                assert(t == s.update(k as int, rec));
                lemma_record_at(t, k as int);
                assert forall|p: u64| p != dev_ptr implies (has_ptr(t, p) <==> has_ptr(s, p)) by {
                    if has_ptr(s, p) {
                        let i = choose|i: int| 0 <= i < s.len() && (#[trigger] s[i]).dev_ptr == p;
                        assert(t[i] == s[i]);
                    }
                    if has_ptr(t, p) {
                        let i = choose|i: int| 0 <= i < t.len() && (#[trigger] t[i]).dev_ptr == p;
                        assert(t[i] == s[i]);
                    }
                }
                assert forall|p: u64| p != dev_ptr && has_ptr(s, p) implies record_at(t, p) == record_at(s, p) by {
                    let i = choose|i: int| 0 <= i < s.len() && (#[trigger] s[i]).dev_ptr == p;
                    assert(t[i] == s[i]);
                    lemma_record_at(s, i);
                    lemma_record_at(t, i);
                }
            }
        } else {
            self.records.insert(k, rec);
            proof {
                let t = self@;
                assert(t == s.insert(k as int, rec));
                assert forall|a: int, b: int| 0 <= a < b < t.len() implies (#[trigger] t[a]).dev_ptr < (#[trigger] t[b]).dev_ptr by {
                    if b < k as int {
                        assert(t[a] == s[a] && t[b] == s[b]);
                    } else if b == k as int {
                        assert(t[a] == s[a]);
                    } else if a < k as int {
                        assert(t[a] == s[a] && t[b] == s[b - 1]);
                        assert(s[k as int].dev_ptr > dev_ptr);
                        if b - 1 > k as int {
                            assert(s[k as int].dev_ptr < s[b - 1].dev_ptr);
                        }
                    } else if a == k as int {
                        assert(t[b] == s[b - 1]);
                        assert(s[k as int].dev_ptr > dev_ptr);
                        if b - 1 > k as int {
                            assert(s[k as int].dev_ptr < s[b - 1].dev_ptr);
                        }
                    } else {
                        assert(t[a] == s[a - 1] && t[b] == s[b - 1]);
                    }
                }
                lemma_record_at(t, k as int);
                assert forall|p: u64| p != dev_ptr implies (has_ptr(t, p) <==> has_ptr(s, p)) by {
                    if has_ptr(s, p) {
                        let i = choose|i: int| 0 <= i < s.len() && (#[trigger] s[i]).dev_ptr == p;
                        if i < k as int {
                            assert(t[i] == s[i]);
                        } else {
                            assert(t[i + 1] == s[i]);
                        }
                    }
                    if has_ptr(t, p) {
                        let i = choose|i: int| 0 <= i < t.len() && (#[trigger] t[i]).dev_ptr == p;
                        if i < k as int {
                            assert(t[i] == s[i]);
                        } else if i > k as int {
                            assert(t[i] == s[i - 1]);
                        }
                    }
                }
                assert forall|p: u64| p != dev_ptr && has_ptr(s, p) implies record_at(t, p) == record_at(s, p) by {
                    let i = choose|i: int| 0 <= i < s.len() && (#[trigger] s[i]).dev_ptr == p;
                    lemma_record_at(s, i);
                    if i < k as int {
                        assert(t[i] == s[i]);
                        lemma_record_at(t, i);
                    } else {
                        assert(t[i + 1] == s[i]);
                        lemma_record_at(t, i + 1);
                    }
                }
            }
        }
        overlaps
    }

    /// Forgets the allocation at `dev_ptr`; returns whether there was one.
    pub fn remove(&mut self, dev_ptr: u64) -> (found: bool)
        requires
            old(self).wf(),
        ensures
            final(self).wf(),
            found == has_ptr(old(self)@, dev_ptr),
            !has_ptr(final(self)@, dev_ptr),
            forall|p: u64| p != dev_ptr ==> (has_ptr(final(self)@, p) <==> has_ptr(old(self)@, p)),
            forall|p: u64| p != dev_ptr && has_ptr(old(self)@, p) ==> record_at(final(self)@, p) == record_at(old(self)@, p),
    {
        let ghost s = self@;
        let k = self.position(dev_ptr);
        if k < self.records.len() && self.records[k].dev_ptr == dev_ptr {
            self.records.remove(k);
            proof {
                let t = self@;
                assert(t == s.remove(k as int));
                assert forall|a: int, b: int| 0 <= a < b < t.len() implies (#[trigger] t[a]).dev_ptr < (#[trigger] t[b]).dev_ptr by {
                    let oa = if a < k as int { a } else { a + 1 };
                    let ob = if b < k as int { b } else { b + 1 };
                    assert(t[a] == s[oa] && t[b] == s[ob]);
                }
                assert(has_ptr(s, dev_ptr));
                assert(!has_ptr(t, dev_ptr)) by {
                    if has_ptr(t, dev_ptr) {
                        let i = choose|i: int| 0 <= i < t.len() && (#[trigger] t[i]).dev_ptr == dev_ptr;
                        let oi = if i < k as int { i } else { i + 1 };
                        assert(t[i] == s[oi]);
                        if oi < k as int {
                            assert(s[oi].dev_ptr < s[k as int].dev_ptr);
                        } else {
                            assert(s[k as int].dev_ptr < s[oi].dev_ptr);
                        }
                    }
                }
                assert forall|p: u64| p != dev_ptr implies (has_ptr(t, p) <==> has_ptr(s, p)) by {
                    if has_ptr(s, p) {
                        let i = choose|i: int| 0 <= i < s.len() && (#[trigger] s[i]).dev_ptr == p;
                        if i < k as int {
                            assert(t[i] == s[i]);
                        } else {
                            assert(i != k as int);
                            assert(t[i - 1] == s[i]);
                        }
                    }
                    if has_ptr(t, p) {
                        let i = choose|i: int| 0 <= i < t.len() && (#[trigger] t[i]).dev_ptr == p;
                        let oi = if i < k as int { i } else { i + 1 };
                        assert(t[i] == s[oi]);
                    }
                }
                assert forall|p: u64| p != dev_ptr && has_ptr(s, p) implies record_at(t, p) == record_at(s, p) by {
                    let i = choose|i: int| 0 <= i < s.len() && (#[trigger] s[i]).dev_ptr == p;
                    lemma_record_at(s, i);
                    if i < k as int {
                        assert(t[i] == s[i]);
                        lemma_record_at(t, i);
                    } else {
                        assert(t[i - 1] == s[i]);
                        lemma_record_at(t, i - 1);
                    }
                }
            }
            true
        } else {
            proof {
                assert(!has_ptr(s, dev_ptr)) by {
                    if has_ptr(s, dev_ptr) {
                        let i = choose|i: int| 0 <= i < s.len() && (#[trigger] s[i]).dev_ptr == dev_ptr;
                        if i > k as int {
                            assert(s[k as int].dev_ptr < s[i].dev_ptr);
                        }
                    }
                }
            }
            false
        }
    }

    /// The allocation starting exactly at `dev_ptr`, if any.
    pub fn find_exact(&self, dev_ptr: u64) -> (r: Option<AllocRecord>)
        requires
            self.wf(),
        ensures
            r == (if has_ptr(self@, dev_ptr) { Some(record_at(self@, dev_ptr)) } else { None }),
    {
        let k = self.position(dev_ptr);
        if k < self.records.len() && self.records[k].dev_ptr == dev_ptr {
            proof { lemma_record_at(self@, k as int); }
            Some(self.records[k])
        } else {
            proof {
                let s = self@;
                if has_ptr(s, dev_ptr) {
                    let i = choose|i: int| 0 <= i < s.len() && (#[trigger] s[i]).dev_ptr == dev_ptr;
                    if i > k as int {
                        assert(s[k as int].dev_ptr < s[i].dev_ptr);
                    }
                }
            }
            None
        }
    }

    /// The allocation covering `dev_ptr`: the one with the greatest address
    /// at most `dev_ptr`, if it reaches past `dev_ptr`.
    pub fn find(&self, dev_ptr: u64) -> (r: Option<AllocRecord>)
        requires
            self.wf(),
        ensures
            r == (match floor_record(self@, dev_ptr) {
                Some(rec) => if covers(rec, dev_ptr) { Some(rec) } else { None },
                None => None,
            }),
    {
        let s = &self.records;
        let k = self.position(dev_ptr);
        let idx = if k < s.len() && s[k].dev_ptr == dev_ptr {
            Some(k)
        } else if k > 0 {
            Some(k - 1)
        } else {
            None
        };
        match idx {
            Some(i) => {
                proof { lemma_floor_is(self@, dev_ptr, i as int); }
                let rec = s[i];
                if rec.dev_ptr <= dev_ptr && size_reaches(rec, dev_ptr) {
                    Some(rec)
                } else {
                    None
                }
            },
            None => {
                proof {
                    let sv = self@;
                    if exists|i: int| 0 <= i < sv.len() && (#[trigger] sv[i]).dev_ptr <= dev_ptr {
                        let i = choose|i: int| 0 <= i < sv.len() && (#[trigger] sv[i]).dev_ptr <= dev_ptr;
                        if i > 0 {
                            assert(sv[0].dev_ptr < sv[i].dev_ptr);
                        }
                    }
                }
                None
            },
        }
    }
}

/// Whether `r` reaches past `ptr` (computed without overflow).
fn size_reaches(r: AllocRecord, ptr: u64) -> (b: bool)
    ensures
        b == (r.dev_ptr + r.size > ptr),
{
    (r.dev_ptr as u128) + (r.size as u128) > ptr as u128
}

proof fn lemma_record_at(s: Seq<AllocRecord>, i: int)
    requires
        sorted_by_ptr(s),
        0 <= i < s.len(),
    ensures
        has_ptr(s, s[i].dev_ptr),
        record_at(s, s[i].dev_ptr) == s[i],
{
    let p = s[i].dev_ptr;
    let j = choose|j: int| 0 <= j < s.len() && (#[trigger] s[j]).dev_ptr == p;
    if j < i {
        assert(s[j].dev_ptr < s[i].dev_ptr);
    } else if j > i {
        assert(s[i].dev_ptr < s[j].dev_ptr);
    }
}

proof fn lemma_floor_is(s: Seq<AllocRecord>, ptr: u64, i: int)
    requires
        sorted_by_ptr(s),
        0 <= i < s.len(),
        s[i].dev_ptr <= ptr,
        i + 1 == s.len() || s[i + 1].dev_ptr > ptr,
    ensures
        floor_record(s, ptr) == Some(s[i]),
{
    let j = choose|j: int| 0 <= j < s.len() && (#[trigger] s[j]).dev_ptr <= ptr
        && (j + 1 == s.len() || s[j + 1].dev_ptr > ptr);
    if j < i {
        assert(s[j + 1].dev_ptr <= s[i].dev_ptr);
    } else if j > i {
        assert(s[i + 1].dev_ptr <= s[j].dev_ptr);
    }
}

} // verus!
