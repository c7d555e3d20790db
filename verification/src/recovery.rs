//! Startup recovery: rebuilding the schedule from the durable store's
//! records before intake or dispatch begin.

use vstd::prelude::*;
use crate::codec::{decode_record, spec_decode_record};
use crate::sched::Sched;

verus! {

/// A record that will not decode: store corruption, fatal at startup.
#[derive(Debug)]
pub enum LoadError {
    BadRecord,
}

/// Rebuild an empty schedule from the durable store's records, given as
/// identifier/bytes pairs in any enumeration order.  Every record must
/// decode; the sorted order is rebuilt entirely from the decoded due times.
/// On success the schedule holds exactly one entry per record, carrying the
/// record's identifier and decoded fields.
pub fn schedule_load(sched: &mut Sched, records: &Vec<(String, Vec<u8>)>) -> (r: Result<
    (),
    LoadError,
>)
    requires
        old(sched).wf(),
        old(sched).entries().len() == 0,
        forall|i: int, j: int|
            0 <= i < j < records@.len() ==> (#[trigger] records@[i]).0@ != (#[trigger] records@[j]).0@,
    ensures
        final(sched).wf(),
        match r {
            Ok(_) => {
                &&& forall|i: int|
                    0 <= i < records@.len() ==> spec_decode_record(
                        (#[trigger] records@[i]).1@,
                    ) is Some
                &&& final(sched).entries().len() == records@.len()
                &&& forall|i: int|
                    0 <= i < records@.len() ==> exists|q: int|
                        0 <= q < final(sched).entries().len() && final(sched).idents()[q] == Some(
                            (#[trigger] records@[i]).0@,
                        ) && final(sched).entries()[q] == spec_decode_record(records@[i].1@)->0
            },
            Err(_) => exists|i: int|
                0 <= i < records@.len() && spec_decode_record((#[trigger] records@[i]).1@) is None,
        },
{
    let mut i: usize = 0;
    while i < records.len()
        invariant
            sched.wf(),
            i <= records@.len(),
            forall|i2: int, j2: int|
                0 <= i2 < j2 < records@.len() ==> (#[trigger] records@[i2]).0@ != (
                #[trigger] records@[j2]).0@,
            forall|j: int|
                0 <= j < i ==> spec_decode_record((#[trigger] records@[j]).1@) is Some,
            sched.entries().len() == i,
            forall|j: int|
                0 <= j < i ==> exists|q: int|
                    0 <= q < sched.entries().len() && sched.idents()[q] == Some(
                        (#[trigger] records@[j]).0@,
                    ) && sched.entries()[q] == spec_decode_record(records@[j].1@)->0,
            forall|q: int|
                0 <= q < sched.idents().len() ==> exists|j: int|
                    0 <= j < i && #[trigger] sched.idents()[q] == Some(records@[j].0@),
        decreases records@.len() - i,
    {
        let ident = records[i].0.clone();
        let entry = match decode_record(records[i].1.as_slice()) {
            Some(e) => e,
            None => {
                return Err(LoadError::BadRecord);
            },
        };
        proof {
            if sched.has_ident(ident@) {
                let q = choose|q: int|
                    0 <= q < sched.idents().len() && sched.idents()[q] == Some(ident@);
                let j = choose|j: int|
                    0 <= j < i && #[trigger] sched.idents()[q] == Some(records@[j].0@);
                assert(records@[j].0@ == records@[i as int].0@);
                assert(false);
            }
        }
        let ghost pre = *sched;
        let ghost n = i as int;
        let k = sched.insert(entry, Some(ident));
        proof {
            let e1 = sched.entries();
            let i1 = sched.idents();
            assert(i1[k as int] == Some(records@[n].0@));
            assert(e1[k as int] == spec_decode_record(records@[n].1@)->0);
            assert forall|j: int|
                0 <= j < n + 1 implies exists|q: int|
                0 <= q < e1.len() && i1[q] == Some((#[trigger] records@[j]).0@) && e1[q]
                    == spec_decode_record(records@[j].1@)->0 by {
                if j < n {
                    let q0 = choose|q0: int|
                        0 <= q0 < pre.entries().len() && pre.idents()[q0] == Some(
                            (#[trigger] records@[j]).0@,
                        ) && pre.entries()[q0] == spec_decode_record(records@[j].1@)->0;
                    let q: int = if q0 < k {
                        q0
                    } else {
                        q0 + 1
                    };
                    assert(i1[q] == pre.idents()[q0] && e1[q] == pre.entries()[q0]);
                }
            }
            assert forall|q: int| 0 <= q < i1.len() implies exists|j: int|
                0 <= j < n + 1 && #[trigger] i1[q] == Some(records@[j].0@) by {
                if q != k {
                    let q0: int = if q < k {
                        q
                    } else {
                        q - 1
                    };
                    assert(i1[q] == pre.idents()[q0]);
                    let j = choose|j: int|
                        0 <= j < n && #[trigger] pre.idents()[q0] == Some(records@[j].0@);
                    assert(i1[q] == Some(records@[j].0@));
                }
            }
        }
        i += 1;
    }
    Ok(())
}

} // verus!
