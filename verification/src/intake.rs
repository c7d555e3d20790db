//! Interpreting inbound requests: the schedule-time directive, and the
//! create/replace/cancel decision applied to the schedule.

use vstd::prelude::*;
use vstd::string::StringSliceAdditionalSpecFns;
use vstd::utf8::encode_utf8;
use crate::codec;
use crate::sched::{opt_ident, Entry, EntryV, Sched};

verus! {

/// An ASCII decimal digit.
pub open spec fn is_digit(b: u8) -> bool {
    0x30 <= b <= 0x39
}

/// Every byte is an ASCII decimal digit.
pub open spec fn all_digits(s: Seq<u8>) -> bool {
    forall|i: int| 0 <= i < s.len() ==> is_digit(#[trigger] s[i])
}

/// The value of a decimal digit string, most significant digit first.
pub open spec fn dec_val(s: Seq<u8>) -> int
    decreases s.len(),
{
    if s.len() == 0 {
        0
    } else {
        dec_val(s.drop_last()) * 10 + s.last() - 0x30
    }
}

/// Parsing a non-negative decimal number: at least one byte, digits only,
/// and a value that fits in a `u64`.
pub open spec fn spec_parse_dec(s: Seq<u8>) -> Option<u64> {
    if s.len() > 0 && all_digits(s) && dec_val(s) <= u64::MAX {
        Some(dec_val(s) as u64)
    } else {
        None
    }
}

/// The meaning of a schedule-time directive received at time `at`: a leading
/// `+` makes the remainder an offset in seconds from `at` (rejected when the
/// sum does not fit), anything else is an absolute time in epoch seconds.
pub open spec fn spec_get_when(s: Seq<u8>, at: u64) -> Option<u64> {
    if s.len() > 0 && s[0] == 0x2B {
        match spec_parse_dec(s.subrange(1, s.len() as int)) {
            Some(n) => if at + n <= u64::MAX {
                Some((at + n) as u64)
            } else {
                None
            },
            None => None,
        }
    } else {
        spec_parse_dec(s)
    }
}

/// A prefix of a digit string never exceeds the whole string's value.
proof fn lemma_dec_val_prefix(s: Seq<u8>, k: int)
    requires
        all_digits(s),
        0 <= k <= s.len(),
    ensures
        dec_val(s.take(k)) <= dec_val(s),
        dec_val(s) >= 0,
    decreases s.len(), s.len() - k,
{
    if k == s.len() {
        assert(s.take(k) =~= s);
        if s.len() > 0 {
            assert(all_digits(s.drop_last())) by {
                assert(forall|i: int|
                    0 <= i < s.len() - 1 ==> s.drop_last()[i] == #[trigger] s[i]);
            }
            lemma_dec_val_prefix(s.drop_last(), s.len() - 1);
        }
    } else {
        lemma_dec_val_prefix(s, k + 1);
        assert(s.take(k + 1).drop_last() =~= s.take(k));
        assert(dec_val(s.take(k + 1)) == dec_val(s.take(k)) * 10 + s[k] - 0x30);
    }
}

/// Parse an ASCII decimal number that fits in a `u64`.
fn parse_dec(b: &[u8]) -> (r: Option<u64>)
    ensures
        r == spec_parse_dec(b@),
{
    if b.len() == 0 {
        return None;
    }
    let mut v: u64 = 0;
    let mut i: usize = 0;
    while i < b.len()
        invariant
            0 < b@.len(),
            i <= b@.len(),
            all_digits(b@.take(i as int)),
            v == dec_val(b@.take(i as int)),
        decreases b@.len() - i,
    {
        let c = b[i];
        if c < 0x30 || c > 0x39 {
            return None;
        }
        let d = (c - 0x30) as u64;
        let next = match v.checked_mul(10) {
            Some(m) => m.checked_add(d),
            None => None,
        };
        match next {
            Some(m) => {
                v = m;
            },
            None => {
                proof {
                    assert(b@.take(i + 1).drop_last() =~= b@.take(i as int));
                    assert(b@.take(i + 1).last() == b@[i as int]);
                    assert(dec_val(b@.take(i + 1)) > u64::MAX);
                    if all_digits(b@) && dec_val(b@) <= u64::MAX {
                        lemma_dec_val_prefix(b@, i + 1);
                        assert(false);
                    }
                }
                return None;
            },
        }
        i += 1;
        proof {
            assert(b@.take(i as int).drop_last() =~= b@.take(i - 1));
            assert(b@.take(i as int).last() == b@[i - 1]);
        }
    }
    proof {
        assert(b@.take(b@.len() as int) =~= b@);
    }
    Some(v)
}

/// The due time named by a schedule-time directive received at time `at`:
/// `+<seconds>` counts from `at`, a bare number is absolute epoch seconds.
/// `None` when the directive is not a number (or the sum leaves `u64`); such
/// a request is dropped.
pub fn get_when(when: &str, at: u64) -> (r: Option<u64>)
    ensures
        r == spec_get_when(when.spec_bytes(), at),
{
    let b = when.as_bytes();
    if b.len() > 0 && b[0] == 0x2B {
        let rest = vstd::slice::slice_subrange(b, 1, b.len());
        match parse_dec(rest) {
            Some(n) => at.checked_add(n),
            None => None,
        }
    } else {
        parse_dec(b)
    }
}

/// One inbound request, as plain header values and payload: the
/// schedule-time directive, the identifier offered with a create, the
/// identifier named by a cancel directive, the reply destination, and the
/// payload to deliver.
pub struct InboundMsg {
    pub when: Option<String>,
    pub ident: Option<String>,
    pub del_ident: Option<String>,
    pub reply: Option<String>,
    pub payload: Vec<u8>,
}

/// What the caller must do to the durable store after a request has been
/// applied to the schedule.
pub enum StoreAction {
    /// Write this record under this identifier.
    Put { ident: String, record: Vec<u8> },
    /// Delete any record under this identifier.
    Delete { ident: String },
    /// Touch nothing.
    Keep,
}

/// A create request's directive parses and names a reply destination.
pub open spec fn creates(msg: InboundMsg, at: u64) -> bool {
    &&& msg.when is Some
    &&& spec_get_when(encode_utf8(msg.when->0@), at) is Some
    &&& msg.reply is Some
}

/// The entry a create request asks for.
pub open spec fn requested_entry(msg: InboundMsg, at: u64) -> EntryV {
    EntryV {
        when: spec_get_when(encode_utf8(msg.when->0@), at)->0,
        subject: msg.reply->0@,
        payload: msg.payload@,
    }
}

/// `s0`'s entries with any entry under the offered identifier removed.
pub open spec fn base_entries(s0: Sched, idv: Option<Seq<char>>) -> Seq<EntryV> {
    if idv is Some && s0.has_ident(idv->0) {
        s0.entries().remove(s0.ident_pos(idv->0))
    } else {
        s0.entries()
    }
}

/// `s0`'s identifiers with any entry under the offered identifier removed.
pub open spec fn base_idents(s0: Sched, idv: Option<Seq<char>>) -> Seq<Option<Seq<char>>> {
    if idv is Some && s0.has_ident(idv->0) {
        s0.idents().remove(s0.ident_pos(idv->0))
    } else {
        s0.idents()
    }
}

/// How many entries have a due time at or before `w`: in a sorted sequence,
/// the insertion point that places a new entry after every equal due time.
pub open spec fn count_le(s: Seq<EntryV>, w: u64) -> int
    decreases s.len(),
{
    if s.len() == 0 {
        0
    } else {
        count_le(s.drop_last(), w) + if s.last().when <= w {
            1int
        } else {
            0int
        }
    }
}

/// `count_le` stays within the sequence's bounds.
pub proof fn lemma_count_le_bounds(s: Seq<EntryV>, w: u64)
    ensures
        0 <= count_le(s, w) <= s.len(),
    decreases s.len(),
{
    if s.len() > 0 {
        lemma_count_le_bounds(s.drop_last(), w);
    }
}

/// In a sorted sequence, the partition point (everything before is at most
/// `w`, everything from it on is beyond `w`) is `count_le`.
pub proof fn lemma_count_le_pos(s: Seq<EntryV>, w: u64, k: int)
    requires
        0 <= k <= s.len(),
        forall|i: int| 0 <= i < k ==> s[i].when <= w,
        forall|i: int| k <= i < s.len() ==> s[i].when > w,
    ensures
        count_le(s, w) == k,
    decreases s.len(),
{
    if s.len() > 0 {
        if s.last().when <= w {
            assert(k == s.len());
            lemma_count_le_pos(s.drop_last(), w, k - 1);
        } else {
            assert(k <= s.len() - 1);
            lemma_count_le_pos(s.drop_last(), w, k);
        }
    }
}

/// In a sorted sequence, `count_le` is a partition point: everything before
/// it is at most `w`, everything from it on is beyond `w`.
pub proof fn lemma_count_le_partition(s: Seq<EntryV>, w: u64)
    requires
        forall|i: int, j: int| 0 <= i < j < s.len() ==> s[i].when <= s[j].when,
    ensures
        forall|i: int| 0 <= i < count_le(s, w) ==> s[i].when <= w,
        forall|i: int| count_le(s, w) <= i < s.len() ==> s[i].when > w,
    decreases s.len(),
{
    lemma_count_le_bounds(s, w);
    if s.len() > 0 {
        assert(forall|i: int| 0 <= i < s.len() - 1 ==> s.drop_last()[i] == #[trigger] s[i]);
        lemma_count_le_partition(s.drop_last(), w);
        lemma_count_le_bounds(s.drop_last(), w);
        if s.last().when <= w {
            // everything precedes the last entry, so everything is at most w
            if count_le(s.drop_last(), w) < s.len() - 1 {
                assert(s.drop_last()[count_le(s.drop_last(), w)].when > w);
                assert(s[count_le(s.drop_last(), w)].when <= s[s.len() - 1].when);
                assert(false);
            }
            assert forall|i: int| 0 <= i < count_le(s, w) implies s[i].when <= w by {
                if i < s.len() - 1 {
                    assert(s[i].when <= s[s.len() - 1].when);
                }
            }
        }
    }
}

/// Law: among entries sharing a due time the order is first-in-first-out.  A
/// created entry stands after every entry with an equal or earlier due time
/// and before every entry with a later one.
pub proof fn lemma_fifo_among_equal_due(s0: Sched, s1: Sched, ev: EntryV, idv: Option<Seq<char>>)
    requires
        s0.wf(),
        created_outcome(s0, s1, ev, idv),
    ensures
        ({
            let k = count_le(base_entries(s0, idv), ev.when);
            &&& 0 <= k < s1.entries().len()
            &&& s1.entries()[k] == ev
            &&& forall|i: int| 0 <= i < k ==> s1.entries()[i].when <= ev.when
            &&& forall|i: int| k < i < s1.entries().len() ==> s1.entries()[i].when > ev.when
        }),
{
    let be = base_entries(s0, idv);
    let k = count_le(be, ev.when);
    lemma_count_le_bounds(be, ev.when);
    assert forall|i: int, j: int| 0 <= i < j < be.len() implies be[i].when <= be[j].when by {
        if idv is Some && s0.has_ident(idv->0) {
            let p = s0.ident_pos(idv->0);
            let i0: int = if i < p {
                i
            } else {
                i + 1
            };
            let j0: int = if j < p {
                j
            } else {
                j + 1
            };
            assert(be[i] == s0.entries()[i0] && be[j] == s0.entries()[j0]);
        }
    }
    lemma_count_le_partition(be, ev.when);
    assert(s1.entries() == be.insert(k, ev));
    assert forall|i: int| k < i < s1.entries().len() implies s1.entries()[i].when > ev.when by {
        assert(s1.entries()[i] == be[i - 1]);
    }
}

/// The create/replace outcome: relative to `s0` with any entry under the
/// offered identifier removed, `s1` holds `ev` inserted at its sorted
/// position, after every entry with an equal or earlier due time.
pub open spec fn created_outcome(s0: Sched, s1: Sched, ev: EntryV, idv: Option<Seq<char>>) -> bool {
    &&& s1.entries() == base_entries(s0, idv).insert(count_le(base_entries(s0, idv), ev.when), ev)
    &&& s1.idents() == base_idents(s0, idv).insert(count_le(base_entries(s0, idv), ev.when), idv)
}

/// Apply one inbound request to the schedule at time `at` and say what the
/// durable mirror needs.
///
/// A request carrying a schedule-time directive is a create/replace: if the
/// directive parses and a reply destination is present, any entry under the
/// request's identifier is removed, the new entry is inserted at its sorted
/// position (after every entry with an equal or earlier due time), and an
/// identified entry's record is handed back to be written; otherwise the
/// request is dropped.  A request without a directive but with a cancel
/// identifier removes that entry (a no-op when unknown) and asks for its
/// record's deletion.  Anything else is dropped.
pub fn schedule(sched: &mut Sched, msg: InboundMsg, at: u64) -> (act: StoreAction)
    requires
        old(sched).wf(),
    ensures
        final(sched).wf(),
        creates(msg, at) ==> ({
            let ev = requested_entry(msg, at);
            &&& created_outcome(*old(sched), *final(sched), ev, opt_ident(msg.ident))
            &&& match msg.ident {
                Some(x) => act matches StoreAction::Put { ident: pid, record } && pid@ == x@
                    && record@ == codec::spec_encode_record(ev),
                None => act is Keep,
            }
        }),
        msg.when is Some && !creates(msg, at) ==> *final(sched) == *old(sched) && act is Keep,
        msg.when is None && msg.del_ident is Some ==> ({
            let x = msg.del_ident->0@;
            &&& old(sched).has_ident(x) ==> {
                let p = old(sched).ident_pos(x);
                &&& final(sched).entries() == old(sched).entries().remove(p)
                &&& final(sched).idents() == old(sched).idents().remove(p)
            }
            &&& !old(sched).has_ident(x) ==> *final(sched) == *old(sched)
            &&& act matches StoreAction::Delete { ident: did } && did@ == x
        }),
        msg.when is None && msg.del_ident is None ==> *final(sched) == *old(sched) && act is Keep,
{
    let InboundMsg { when, ident, del_ident, reply, payload } = msg;
    match when {
        Some(w) => {
            match (get_when(w.as_str(), at), reply) {
                (Some(due), Some(rs)) => {
                    match &ident {
                        Some(x) => {
                            let _removed = sched.remove_by_identifier(x);
                            proof {
                                if sched.has_ident(x@) {
                                    let q = choose|q: int|
                                        0 <= q < sched.idents().len() && sched.idents()[q]
                                            == Some(x@);
                                    let s0 = *old(sched);
                                    let p = s0.ident_pos(x@);
                                    let q0: int = if q < p {
                                        q
                                    } else {
                                        q + 1
                                    };
                                    assert(s0.idents()[q0] == Some(x@));
                                    assert(s0.idents()[p] == Some(x@));
                                    assert(false);
                                }
                            }
                        },
                        None => {},
                    }
                    let e = Entry { when: due, subject: rs, payload };
                    let act = match &ident {
                        Some(x) => StoreAction::Put {
                            ident: x.clone(),
                            record: codec::encode_record(&e),
                        },
                        None => StoreAction::Keep,
                    };
                    let ghost ms = *sched;
                    let ghost ev = e@;
                    let idx = sched.insert(e, ident);
                    proof {
                        let s0 = *old(sched);
                        let idv = opt_ident(msg.ident);
                        assert(ms.entries() == base_entries(s0, idv) && ms.idents() == base_idents(
                            s0,
                            idv,
                        ));
                        assert(ev == requested_entry(msg, at));
                        let k = idx as int;
                        lemma_count_le_pos(ms.entries(), ev.when, k);
                        assert(sched.entries() == base_entries(s0, idv).insert(k, ev)
                            && sched.idents() == base_idents(s0, idv).insert(k, idv));
                        assert(created_outcome(s0, *sched, ev, idv));
                    }
                    act
                },
                _ => StoreAction::Keep,
            }
        },
        None => {
            match del_ident {
                Some(x) => {
                    let _removed = sched.remove_by_identifier(&x);
                    StoreAction::Delete { ident: x }
                },
                None => StoreAction::Keep,
            }
        },
    }
}

/// Law: after a create/replace under identifier `x`, exactly one entry
/// carries `x`, and it holds the new request's data.
pub proof fn lemma_replace_unique(s0: Sched, s1: Sched, ev: EntryV, x: Seq<char>)
    requires
        s0.wf(),
        s1.wf(),
        created_outcome(s0, s1, ev, Some(x)),
    ensures
        s1.has_ident(x),
        s1.entries()[s1.ident_pos(x)] == ev,
        forall|p: int|
            0 <= p < s1.idents().len() && s1.idents()[p] == Some(x) ==> p == s1.ident_pos(x),
{
    let k = count_le(base_entries(s0, Some(x)), ev.when);
    lemma_count_le_bounds(base_entries(s0, Some(x)), ev.when);
    assert(s1.idents()[k] == Some(x));
    assert(s1.entries()[k] == ev);
    let p = s1.ident_pos(x);
    assert(0 <= p < s1.idents().len() && s1.idents()[p] == Some(x));
    assert(p == k);
}

} // verus!
