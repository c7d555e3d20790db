//! The time-ordered schedule of pending deliveries.
//!
//! Entries are kept sorted ascending by due time, ties in first-in-first-out
//! order.  A side index maps each identifier to the current position of its
//! entry, and every mutation renumbers the index so that it never holds a
//! stale position.

use vstd::prelude::*;

verus! {

/// One pending delivery: fire at `when`, publishing `payload` to `subject`.
pub struct Entry {
    pub when: u64,
    pub subject: String,
    pub payload: Vec<u8>,
}

/// Mathematical value of an [`Entry`].
pub ghost struct EntryV {
    pub when: u64,
    pub subject: Seq<char>,
    pub payload: Seq<u8>,
}

impl View for Entry {
    type V = EntryV;

    open spec fn view(&self) -> EntryV {
        EntryV { when: self.when, subject: self.subject@, payload: self.payload@ }
    }
}

/// Mathematical value of an optional identifier.
pub open spec fn opt_ident(o: Option<String>) -> Option<Seq<char>> {
    match o {
        Some(s) => Some(s@),
        None => None,
    }
}

/// No two index pairs claim the same position.
pub open spec fn pairs_distinct(loc: Seq<(String, usize)>) -> bool {
    forall|k1: int, k2: int| 0 <= k1 < k2 < loc.len() ==> loc[k1].1 != loc[k2].1
}

/// The schedule: entries sorted by due time, a parallel sequence of their
/// optional identifiers, and an identifier index holding each identified
/// entry's current position.
pub struct Sched {
    pub entry: Vec<Entry>,
    pub id: Vec<Option<String>>,
    pub id_loc: Vec<(String, usize)>,
}

impl Sched {
    /// The entries, as mathematical values, in schedule order.
    pub open spec fn entries(self) -> Seq<EntryV> {
        self.entry@.map(|i: int, e: Entry| e@)
    }

    /// The entries' optional identifiers, in schedule order.
    pub open spec fn idents(self) -> Seq<Option<Seq<char>>> {
        self.id@.map(|i: int, o: Option<String>| opt_ident(o))
    }

    /// Some entry currently carries identifier `x`.
    pub open spec fn has_ident(self, x: Seq<char>) -> bool {
        exists|p: int| 0 <= p < self.idents().len() && self.idents()[p] == Some(x)
    }

    /// The position of the entry carrying identifier `x` (meaningful only
    /// when `has_ident(x)`; well-formedness makes it unique).
    pub open spec fn ident_pos(self, x: Seq<char>) -> int {
        choose|p: int| 0 <= p < self.idents().len() && self.idents()[p] == Some(x)
    }

    /// Well-formedness: sequences aligned, sorted by due time, identifiers
    /// unique, and the index in exact correspondence with the identifier
    /// sequence.
    pub open spec fn wf(self) -> bool {
        &&& self.id@.len() == self.entry@.len()
        // sorted ascending by due time
        &&& forall|i: int, j: int|
            0 <= i < j < self.entries().len() ==> self.entries()[i].when <= self.entries()[j].when
        // at most one entry per identifier
        &&& forall|i: int, j: int|
            0 <= i < self.idents().len() && 0 <= j < self.idents().len() && i != j
                && self.idents()[i] is Some && self.idents()[j] is Some
                ==> self.idents()[i] != self.idents()[j]
        // index completeness: every identified position is indexed
        &&& forall|p: int|
            0 <= p < self.idents().len() && self.idents()[p] is Some
                ==> exists|k: int|
                0 <= k < self.id_loc@.len() && self.id_loc@[k].0@ == self.idents()[p]->0
                    && self.id_loc@[k].1 == p
        // index soundness: every index pair points at its own identifier
        &&& forall|k: int|
            0 <= k < self.id_loc@.len()
                ==> 0 <= #[trigger] self.id_loc@[k].1 < self.idents().len()
                && self.idents()[self.id_loc@[k].1 as int] == Some(self.id_loc@[k].0@)
        // index pairs claim distinct positions
        &&& pairs_distinct(self.id_loc@)
    }

    /// A fresh, empty schedule.
    pub fn new() -> (s: Sched)
        ensures
            s.wf(),
            s.entries().len() == 0,
            s.idents().len() == 0,
    {
        Sched { entry: Vec::new(), id: Vec::new(), id_loc: Vec::new() }
    }

    /// Number of pending entries.
    pub fn len(&self) -> (n: usize)
        ensures
            n == self.entries().len(),
    {
        self.entry.len()
    }

    /// Position of the entry carrying identifier `x`, if any.
    pub fn lookup(&self, x: &String) -> (r: Option<usize>)
        requires
            self.wf(),
        ensures
            match r {
                Some(p) => self.has_ident(x@) && p == self.ident_pos(x@)
                    && self.idents()[p as int] == Some(x@),
                None => !self.has_ident(x@),
            },
    {
        let mut k: usize = 0;
        while k < self.id_loc.len()
            invariant
                self.wf(),
                k <= self.id_loc@.len(),
                forall|j: int| 0 <= j < k ==> self.id_loc@[j].0@ != x@,
            decreases self.id_loc@.len() - k,
        {
            if self.id_loc[k].0 == *x {
                let p = self.id_loc[k].1;
                proof {
                    assert(self.idents()[p as int] == Some(x@));
                    let q = self.ident_pos(x@);
                    assert(0 <= q < self.idents().len() && self.idents()[q] == Some(x@));
                    assert(q == p as int);
                }
                return Some(p);
            }
            k += 1;
        }
        proof {
            if self.has_ident(x@) {
                let p = self.ident_pos(x@);
                assert(self.idents()[p] is Some);
                let kk = choose|kk: int|
                    0 <= kk < self.id_loc@.len() && self.id_loc@[kk].0@ == self.idents()[p]->0
                        && self.id_loc@[kk].1 == p;
                assert(self.id_loc@[kk].0@ == x@);
            }
        }
        None
    }
}

impl Sched {
    /// Remove the entry at position `p`, returning it with its identifier and
    /// renumbering the identifier index for the shift.
    fn remove_at(&mut self, p: usize) -> (r: (Entry, Option<String>))
        requires
            old(self).wf(),
            p < old(self).entries().len(),
        ensures
            final(self).wf(),
            r.0@ == old(self).entries()[p as int],
            opt_ident(r.1) == old(self).idents()[p as int],
            final(self).entries() == old(self).entries().remove(p as int),
            final(self).idents() == old(self).idents().remove(p as int),
    {
        let ghost e0 = old(self).entries();
        let ghost i0 = old(self).idents();
        let ghost l0 = old(self).id_loc@;
        let e = self.entry.remove(p);
        let oid = self.id.remove(p);
        proof {
            assert(self.entries() =~= e0.remove(p as int));
            assert(self.idents() =~= i0.remove(p as int));
        }
        let ghost mut kr: Option<int> = None;
        match index_find_pos(&self.id_loc, p) {
            Some(k) => {
                proof {
                    kr = Some(k as int);
                    assert(l0[k as int].1 == p);
                }
                self.id_loc.remove(k);
            },
            None => {},
        }
        let ghost l1 = self.id_loc@;
        proof {
            // each surviving pair is an old pair, claims a position other than
            // `p`, and still points at its own identifier
            assert forall|m: int| 0 <= m < l1.len() implies ((#[trigger] l1[m]).1 != p
                && (l1[m].1 as int) < i0.len() && i0[l1[m].1 as int] == Some(l1[m].0@)) by {
                if kr is Some {
                    let kk = kr->0;
                    let k0: int = if m < kk {
                        m
                    } else {
                        m + 1
                    };
                    assert(l1[m] == l0[k0]);
                    assert(l0[k0].1 != l0[kk].1);
                } else {
                    assert(l1[m] == l0[m]);
                }
            }
            // surviving pairs still claim distinct positions
            assert forall|m1: int, m2: int| 0 <= m1 < m2 < l1.len() implies l1[m1].1 != l1[m2].1 by {
                if kr is Some {
                    let kk = kr->0;
                    let k1: int = if m1 < kk {
                        m1
                    } else {
                        m1 + 1
                    };
                    let k2: int = if m2 < kk {
                        m2
                    } else {
                        m2 + 1
                    };
                    assert(l1[m1] == l0[k1]);
                    assert(l1[m2] == l0[k2]);
                } else {
                    assert(l1[m1] == l0[m1]);
                    assert(l1[m2] == l0[m2]);
                }
            }
            // every identifier other than the one at `p` keeps an index pair
            assert forall|q: int|
                0 <= q < i0.len() && q != p && i0[q] is Some implies exists|m: int|
                0 <= m < l1.len() && (#[trigger] l1[m]).0@ == i0[q]->0 && l1[m].1 == q by {
                let k0 = choose|k0: int|
                    0 <= k0 < l0.len() && l0[k0].0@ == i0[q]->0 && l0[k0].1 == q;
                let m: int = if kr is Some {
                    if k0 < kr->0 {
                        k0
                    } else {
                        k0 - 1
                    }
                } else {
                    k0
                };
                if kr is Some && k0 >= kr->0 {
                    assert(l0[k0].1 != l0[kr->0].1);
                }
                assert(l1[m] == l0[k0]);
            }
        }
        let shifted = index_shift_down(&self.id_loc, p);
        self.id_loc = shifted;
        proof {
            let l2 = self.id_loc@;
            let i1 = self.idents();
            // soundness of the renumbered index
            assert forall|m: int| 0 <= m < l2.len() implies 0 <= (#[trigger] l2[m]).1 < i1.len()
                && i1[l2[m].1 as int] == Some(l2[m].0@) by {
                assert(adjusted_down(l1[m], l2[m], p as int));
                let q0 = l1[m].1 as int;
                if q0 < p {
                    assert(i1[q0] == i0[q0]);
                } else {
                    assert(i1[q0 - 1] == i0[q0]);
                }
            }
            // distinct positions in the renumbered index
            assert forall|m1: int, m2: int| 0 <= m1 < m2 < l2.len() implies l2[m1].1 != l2[m2].1 by {
                assert(adjusted_down(l1[m1], l2[m1], p as int));
                assert(adjusted_down(l1[m2], l2[m2], p as int));
            }
            // completeness of the renumbered index
            assert forall|q: int|
                0 <= q < i1.len() && i1[q] is Some implies exists|m: int|
                0 <= m < l2.len() && (#[trigger] l2[m]).0@ == i1[q]->0 && l2[m].1 == q by {
                let q0: int = if q < p {
                    q
                } else {
                    q + 1
                };
                assert(i1[q] == i0[q0]);
                let m = choose|m: int|
                    0 <= m < l1.len() && (#[trigger] l1[m]).0@ == i0[q0]->0 && l1[m].1 == q0;
                assert(adjusted_down(l1[m], l2[m], p as int));
                assert(l2[m].0@ == i1[q]->0 && l2[m].1 == q);
            }
        }
        (e, oid)
    }

    /// Sorted insertion point for due time `w`: after every entry whose due
    /// time is at most `w` (first-in-first-out among equal due times).
    fn insert_pos(&self, w: u64) -> (idx: usize)
        requires
            self.wf(),
        ensures
            idx <= self.entries().len(),
            forall|i: int| 0 <= i < idx ==> self.entries()[i].when <= w,
            forall|i: int| idx <= i < self.entries().len() ==> self.entries()[i].when > w,
    {
        let mut lo: usize = 0;
        let mut hi: usize = self.entry.len();
        while lo < hi
            invariant
                self.wf(),
                lo <= hi <= self.entries().len(),
                forall|i: int| 0 <= i < lo ==> self.entries()[i].when <= w,
                forall|i: int| hi <= i < self.entries().len() ==> self.entries()[i].when > w,
            decreases hi - lo,
        {
            let mid = lo + (hi - lo) / 2;
            if self.entry[mid].when <= w {
                proof {
                    assert forall|i: int| 0 <= i < mid + 1 implies self.entries()[i].when <= w by {
                        if i < mid {
                            assert(self.entries()[i].when <= self.entries()[mid as int].when);
                        }
                    }
                }
                lo = mid + 1;
            } else {
                proof {
                    assert forall|i: int|
                        mid <= i < self.entries().len() implies self.entries()[i].when > w by {
                        if i > mid {
                            assert(self.entries()[mid as int].when <= self.entries()[i].when);
                        }
                    }
                }
                hi = mid;
            }
        }
        lo
    }

    /// Insert an entry at its sorted position, under an optional identifier
    /// not yet present, and renumber the identifier index for the shift.
    pub fn insert(&mut self, e: Entry, ident: Option<String>) -> (idx: usize)
        requires
            old(self).wf(),
            ident matches Some(x) ==> !old(self).has_ident(x@),
        ensures
            final(self).wf(),
            idx <= old(self).entries().len(),
            forall|i: int| 0 <= i < idx ==> old(self).entries()[i].when <= e.when,
            forall|i: int|
                idx <= i < old(self).entries().len() ==> old(self).entries()[i].when > e.when,
            final(self).entries() == old(self).entries().insert(idx as int, e@),
            final(self).idents() == old(self).idents().insert(idx as int, opt_ident(ident)),
    {
        let ghost e0 = old(self).entries();
        let ghost i0 = old(self).idents();
        let ghost l0 = old(self).id_loc@;
        let w = e.when;
        let idx = self.insert_pos(w);
        let n = self.id.len();
        proof {
            assert forall|k: int|
                0 <= k < self.id_loc@.len() implies (#[trigger] self.id_loc@[k]).1 as int + 1
                <= usize::MAX by {
                assert(self.id_loc@[k].1 < n);
            }
        }
        let shifted = index_shift_up(&self.id_loc, idx);
        self.id_loc = shifted;
        let ghost l1 = self.id_loc@;
        self.entry.insert(idx, e);
        match ident {
            Some(x) => {
                self.id.insert(idx, Some(x.clone()));
                self.id_loc.push((x, idx));
            },
            None => {
                self.id.insert(idx, None);
            },
        }
        proof {
            let l2 = self.id_loc@;
            let i1 = self.idents();
            assert(self.entries() =~= e0.insert(idx as int, e@));
            assert(i1 =~= i0.insert(idx as int, opt_ident(ident)));
            // sortedness at the insertion point
            assert forall|i: int, j: int|
                0 <= i < j < self.entries().len() implies self.entries()[i].when
                <= self.entries()[j].when by {
                assert(forall|i0x: int|
                    0 <= i0x < e0.len() ==> e0[i0x] == self.entries()[
                        if i0x < idx {
                            i0x
                        } else {
                            i0x + 1
                        }
                    ]);
            }
            // soundness and distinctness of the renumbered index
            assert forall|m: int| 0 <= m < l2.len() implies 0 <= (#[trigger] l2[m]).1 < i1.len()
                && i1[l2[m].1 as int] == Some(l2[m].0@) by {
                if m < l1.len() {
                    assert(adjusted_up(l0[m], l1[m], idx as int));
                    let q0 = l0[m].1 as int;
                    if q0 < idx {
                        assert(i1[q0] == i0[q0]);
                    } else {
                        assert(i1[q0 + 1] == i0[q0]);
                    }
                }
            }
            assert forall|m1: int, m2: int| 0 <= m1 < m2 < l2.len() implies l2[m1].1 != l2[
                m2].1 by {
                if m2 < l1.len() {
                    assert(adjusted_up(l0[m1], l1[m1], idx as int));
                    assert(adjusted_up(l0[m2], l1[m2], idx as int));
                } else if m1 < l1.len() {
                    assert(adjusted_up(l0[m1], l1[m1], idx as int));
                    assert(l2[m2].1 == idx);
                }
            }
            // completeness of the renumbered index
            assert forall|q: int|
                0 <= q < i1.len() && i1[q] is Some implies exists|m: int|
                0 <= m < l2.len() && (#[trigger] l2[m]).0@ == i1[q]->0 && l2[m].1 == q by {
                if q == idx {
                    assert(l2[l2.len() - 1].0@ == i1[q]->0 && l2[l2.len() - 1].1 == q);
                } else {
                    let q0: int = if q < idx {
                        q
                    } else {
                        q - 1
                    };
                    assert(i1[q] == i0[q0]);
                    let k0 = choose|k0: int|
                        0 <= k0 < l0.len() && l0[k0].0@ == i0[q0]->0 && l0[k0].1 == q0;
                    assert(adjusted_up(l0[k0], l1[k0], idx as int));
                    assert(l2[k0].0@ == i1[q]->0 && l2[k0].1 == q);
                }
            }
        }
        idx
    }

    /// Remove the entry carrying identifier `x`, if any; a no-op when the
    /// identifier is unknown.
    pub fn remove_by_identifier(&mut self, x: &String) -> (r: Option<Entry>)
        requires
            old(self).wf(),
        ensures
            final(self).wf(),
            old(self).has_ident(x@) ==> {
                let p = old(self).ident_pos(x@);
                &&& r matches Some(e) && e@ == old(self).entries()[p]
                &&& final(self).entries() == old(self).entries().remove(p)
                &&& final(self).idents() == old(self).idents().remove(p)
            },
            !old(self).has_ident(x@) ==> r is None && *final(self) == *old(self),
    {
        match self.lookup(x) {
            None => None,
            Some(p) => {
                let (e, _oid) = self.remove_at(p);
                Some(e)
            },
        }
    }

    /// The earliest entry, if it is due at `now`.
    pub fn peek_due(&self, now: u64) -> (r: Option<&Entry>)
        requires
            self.wf(),
        ensures
            match r {
                Some(e) => self.entries().len() > 0 && e@ == self.entries()[0] && e.when <= now,
                None => self.entries().len() == 0 || self.entries()[0].when > now,
            },
    {
        if self.entry.len() > 0 {
            let e = &self.entry[0];
            if e.when <= now {
                return Some(e);
            }
        }
        None
    }

    /// Remove and return the earliest entry and its identifier.
    pub fn pop_front(&mut self) -> (r: (Entry, Option<String>))
        requires
            old(self).wf(),
            old(self).entries().len() > 0,
        ensures
            final(self).wf(),
            r.0@ == old(self).entries()[0],
            opt_ident(r.1) == old(self).idents()[0],
            final(self).entries() == old(self).entries().remove(0),
            final(self).idents() == old(self).idents().remove(0),
    {
        self.remove_at(0)
    }
}

/// Law: a well-formed schedule's traversal order yields non-decreasing due
/// times.
pub proof fn lemma_schedule_sorted(s: Sched)
    requires
        s.wf(),
    ensures
        forall|i: int, j: int|
            0 <= i <= j < s.entries().len() ==> s.entries()[i].when <= s.entries()[j].when,
{
}

/// Law: the identifier index is consistent with the schedule.  Every index
/// pair points at the entry carrying its identifier, and every identifier
/// present is indexed, at its unique position.
pub proof fn lemma_index_consistent(s: Sched, x: Seq<char>)
    requires
        s.wf(),
        s.has_ident(x),
    ensures
        0 <= s.ident_pos(x) < s.idents().len(),
        s.idents()[s.ident_pos(x)] == Some(x),
        exists|k: int|
            0 <= k < s.id_loc@.len() && (#[trigger] s.id_loc@[k]).0@ == x && s.id_loc@[k].1
                == s.ident_pos(x),
        forall|p: int|
            0 <= p < s.idents().len() && s.idents()[p] == Some(x) ==> p == s.ident_pos(x),
{
    let p = s.ident_pos(x);
    assert(0 <= p < s.idents().len() && s.idents()[p] == Some(x));
    let k = choose|k: int|
        0 <= k < s.id_loc@.len() && s.id_loc@[k].0@ == s.idents()[p]->0 && s.id_loc@[k].1 == p;
    assert(s.id_loc@[k].0@ == x && s.id_loc@[k].1 == p);
}

/// `n` is `o` carried across the removal of position `p`: same key, and the
/// position dropped by one when it lay beyond `p`.
pub open spec fn adjusted_down(o: (String, usize), n: (String, usize), p: int) -> bool {
    &&& n.0@ == o.0@
    &&& o.1 != p
    &&& n.1 as int == if (o.1 as int) < p {
        o.1 as int
    } else {
        o.1 - 1
    }
}

/// `n` is `o` carried across an insertion at position `p`: same key, and the
/// position raised by one when it lay at or beyond `p`.
pub open spec fn adjusted_up(o: (String, usize), n: (String, usize), p: int) -> bool {
    &&& n.0@ == o.0@
    &&& n.1 as int == if (o.1 as int) < p {
        o.1 as int
    } else {
        o.1 + 1
    }
}

/// Index of the pair claiming position `p`, if any.
fn index_find_pos(loc: &Vec<(String, usize)>, p: usize) -> (r: Option<usize>)
    ensures
        match r {
            Some(k) => 0 <= k < loc@.len() && loc@[k as int].1 == p,
            None => forall|k: int| 0 <= k < loc@.len() ==> (#[trigger] loc@[k]).1 != p,
        },
{
    let mut j: usize = 0;
    while j < loc.len()
        invariant
            j <= loc@.len(),
            forall|k: int| 0 <= k < j ==> (#[trigger] loc@[k]).1 != p,
        decreases loc@.len() - j,
    {
        if loc[j].1 == p {
            return Some(j);
        }
        j += 1;
    }
    None
}

/// Renumber an identifier index across the removal of position `p`; no pair
/// may still claim `p` itself.  Every pair beyond `p` moves down by one.
fn index_shift_down(loc: &Vec<(String, usize)>, p: usize) -> (r: Vec<(String, usize)>)
    requires
        forall|k: int| 0 <= k < loc@.len() ==> (#[trigger] loc@[k]).1 != p,
    ensures
        r@.len() == loc@.len(),
        forall|k: int|
            0 <= k < loc@.len() ==> adjusted_down(loc@[k], #[trigger] r@[k], p as int),
{
    let mut r: Vec<(String, usize)> = Vec::new();
    let mut j: usize = 0;
    while j < loc.len()
        invariant
            forall|k: int| 0 <= k < loc@.len() ==> (#[trigger] loc@[k]).1 != p,
            j <= loc@.len(),
            r@.len() == j,
            forall|k: int| 0 <= k < j ==> adjusted_down(loc@[k], #[trigger] r@[k], p as int),
        decreases loc@.len() - j,
    {
        let key = loc[j].0.clone();
        let pos = loc[j].1;
        if pos < p {
            r.push((key, pos));
        } else {
            r.push((key, pos - 1));
        }
        j += 1;
    }
    r
}

/// Renumber an identifier index across an insertion at position `p`: every
/// pair at or beyond `p` moves up by one.
fn index_shift_up(loc: &Vec<(String, usize)>, p: usize) -> (r: Vec<(String, usize)>)
    requires
        forall|k: int| 0 <= k < loc@.len() ==> (#[trigger] loc@[k]).1 as int + 1 <= usize::MAX,
    ensures
        r@.len() == loc@.len(),
        forall|k: int|
            0 <= k < loc@.len() ==> adjusted_up(loc@[k], #[trigger] r@[k], p as int),
{
    let mut r: Vec<(String, usize)> = Vec::new();
    let mut j: usize = 0;
    while j < loc.len()
        invariant
            forall|k: int| 0 <= k < loc@.len() ==> (#[trigger] loc@[k]).1 as int + 1 <= usize::MAX,
            j <= loc@.len(),
            r@.len() == j,
            forall|k: int| 0 <= k < j ==> adjusted_up(loc@[k], #[trigger] r@[k], p as int),
        decreases loc@.len() - j,
    {
        let key = loc[j].0.clone();
        let pos = loc[j].1;
        if pos < p {
            r.push((key, pos));
        } else {
            r.push((key, pos + 1));
        }
        j += 1;
    }
    r
}

} // verus!
