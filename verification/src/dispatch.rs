//! The dispatch pass: removing every currently-due entry, earliest first, so
//! that a backlog drains within one pass rather than one entry per tick.

use vstd::prelude::*;
use crate::sched::{opt_ident, Entry, Sched};

verus! {

/// Remove and return the earliest entry if it is due at `at`, with its
/// identifier; `None` (and no change) when nothing is due.
pub fn pop_due(sched: &mut Sched, at: u64) -> (r: Option<(Entry, Option<String>)>)
    requires
        old(sched).wf(),
    ensures
        final(sched).wf(),
        match r {
            Some(fired) => {
                &&& old(sched).entries().len() > 0
                &&& old(sched).entries()[0].when <= at
                &&& fired.0@ == old(sched).entries()[0]
                &&& opt_ident(fired.1) == old(sched).idents()[0]
                &&& final(sched).entries() == old(sched).entries().remove(0)
                &&& final(sched).idents() == old(sched).idents().remove(0)
            },
            None => (old(sched).entries().len() == 0 || old(sched).entries()[0].when > at)
                && *final(sched) == *old(sched),
        },
{
    let fire = match sched.peek_due(at) {
        Some(_) => true,
        None => false,
    };
    if fire {
        Some(sched.pop_front())
    } else {
        None
    }
}

/// One dispatch pass: remove every entry due at `at`, earliest first, and
/// hand them back in firing order.  The entries fired are exactly the due
/// prefix of the schedule; afterwards nothing left is due.
pub fn drain_due(sched: &mut Sched, at: u64) -> (fired: Vec<(Entry, Option<String>)>)
    requires
        old(sched).wf(),
    ensures
        final(sched).wf(),
        fired@.len() <= old(sched).entries().len(),
        forall|i: int|
            0 <= i < fired@.len() ==> (#[trigger] fired@[i]).0@ == old(sched).entries()[i]
                && opt_ident(fired@[i].1) == old(sched).idents()[i]
                && old(sched).entries()[i].when <= at,
        final(sched).entries() == old(sched).entries().skip(fired@.len() as int),
        final(sched).idents() == old(sched).idents().skip(fired@.len() as int),
        final(sched).entries().len() > 0 ==> final(sched).entries()[0].when > at,
{
    let mut fired: Vec<(Entry, Option<String>)> = Vec::new();
    let mut more = true;
    while more
        invariant
            old(sched).wf(),
            sched.wf(),
            fired@.len() <= old(sched).entries().len(),
            forall|i: int|
                0 <= i < fired@.len() ==> (#[trigger] fired@[i]).0@ == old(sched).entries()[i]
                    && opt_ident(fired@[i].1) == old(sched).idents()[i]
                    && old(sched).entries()[i].when <= at,
            sched.entries() == old(sched).entries().skip(fired@.len() as int),
            sched.idents() == old(sched).idents().skip(fired@.len() as int),
            !more ==> (sched.entries().len() == 0 || sched.entries()[0].when > at),
        decreases sched.entries().len() + (if more {
            1int
        } else {
            0int
        }),
    {
        let ghost n = fired@.len() as int;
        let ghost pre = *sched;
        match pop_due(sched, at) {
            Some(x) => {
                proof {
                    assert(pre.entries()[0] == old(sched).entries()[n]);
                    assert(pre.idents()[0] == old(sched).idents()[n]);
                    assert(pre.entries().remove(0) =~= old(sched).entries().skip(n + 1));
                    assert(pre.idents().remove(0) =~= old(sched).idents().skip(n + 1));
                }
                fired.push(x);
            },
            None => {
                more = false;
            },
        }
    }
    fired
}

} // verus!
