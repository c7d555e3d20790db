//! The durable mirror record: the byte form in which an identified pending
//! delivery is persisted, and its exact decoder.
//!
//! A record is the due time as eight little-endian bytes, the subject's
//! UTF-8 byte length as eight little-endian bytes, the subject's UTF-8
//! bytes, and the payload (the rest of the record, unframed).

use vstd::prelude::*;
use vstd::bytes::{
    lemma_auto_spec_u64_to_from_le_bytes, spec_u64_from_le_bytes, spec_u64_to_le_bytes,
    u64_from_le_bytes, u64_to_le_bytes,
};
use vstd::slice::{slice_subrange, slice_to_vec};
use vstd::string::{StrSliceExecFns, StringSliceAdditionalSpecFns};
use vstd::utf8::{decode_utf8, encode_utf8, encode_utf8_decode_utf8, encode_utf8_valid_utf8,
    valid_utf8};
use crate::sched::{Entry, EntryV};

verus! {

/// Byte form of a pending delivery's durable record.
pub open spec fn spec_encode_record(e: EntryV) -> Seq<u8> {
    spec_u64_to_le_bytes(e.when) + spec_u64_to_le_bytes(encode_utf8(e.subject).len() as u64)
        + encode_utf8(e.subject) + e.payload
}

/// The pending delivery a byte string records, if it is well-formed: long
/// enough for both fixed fields, a subject length within bounds, and a
/// subject that is valid UTF-8.
pub open spec fn spec_decode_record(b: Seq<u8>) -> Option<EntryV> {
    if b.len() < 16 {
        None
    } else {
        let when = spec_u64_from_le_bytes(b.subrange(0, 8));
        let slen = spec_u64_from_le_bytes(b.subrange(8, 16)) as int;
        if 16 + slen > b.len() {
            None
        } else {
            let sbytes = b.subrange(16, 16 + slen);
            if valid_utf8(sbytes) {
                Some(
                    EntryV {
                        when,
                        subject: decode_utf8(sbytes),
                        payload: b.subrange(16 + slen, b.len() as int),
                    },
                )
            } else {
                None
            }
        }
    }
}

/// Relies on str::from_utf8: it succeeds exactly on valid UTF-8, returning
/// the string whose byte encoding is the input.
#[verifier::external_body]
fn bytes_to_string(v: &[u8]) -> (r: Option<String>)
    ensures
        match r {
            Some(s) => encode_utf8(s@) == v@,
            None => !valid_utf8(v@),
        },
{
    match std::str::from_utf8(v) {
        Ok(s) => Some(s.to_string()),
        Err(_) => None,
    }
}

/// Encode a pending delivery as its durable record.
pub fn encode_record(e: &Entry) -> (r: Vec<u8>)
    ensures
        r@ == spec_encode_record(e@),
{
    let mut out = u64_to_le_bytes(e.when);
    let sb = e.subject.as_str().as_bytes_vec();
    let mut lenb = u64_to_le_bytes(sb.len() as u64);
    out.append(&mut lenb);
    let mut sb = sb;
    out.append(&mut sb);
    let mut i: usize = 0;
    while i < e.payload.len()
        invariant
            i <= e.payload@.len(),
            out@ == spec_u64_to_le_bytes(e.when) + spec_u64_to_le_bytes(
                encode_utf8(e.subject@).len() as u64,
            ) + encode_utf8(e.subject@) + e.payload@.take(i as int),
        decreases e.payload@.len() - i,
    {
        out.push(e.payload[i]);
        proof {
            assert(e.payload@.take(i + 1) =~= e.payload@.take(i as int).push(e.payload@[i as int]));
        }
        i += 1;
    }
    proof {
        assert(e.payload@.take(e.payload@.len() as int) =~= e.payload@);
    }
    out
}

/// Decode a durable record; exactly the well-formed byte strings decode.
pub fn decode_record(b: &[u8]) -> (r: Option<Entry>)
    ensures
        match r {
            Some(e) => spec_decode_record(b@) == Some(e@),
            None => spec_decode_record(b@) is None,
        },
{
    if b.len() < 16 {
        return None;
    }
    let when = u64_from_le_bytes(slice_subrange(b, 0, 8));
    let slen64 = u64_from_le_bytes(slice_subrange(b, 8, 16));
    if slen64 > (b.len() as u64) - 16 {
        return None;
    }
    let slen = slen64 as usize;
    let sbytes = slice_subrange(b, 16, 16 + slen);
    match bytes_to_string(sbytes) {
        None => None,
        Some(subject) => {
            let payload = slice_to_vec(slice_subrange(b, 16 + slen, b.len()));
            proof {
                encode_utf8_valid_utf8(subject@);
                encode_utf8_decode_utf8(subject@);
            }
            Some(Entry { when, subject, payload })
        },
    }
}

/// Law: a record decodes back to exactly the delivery it was encoded from,
/// whenever the subject's byte length fits the record's length field.
pub proof fn lemma_record_round_trip(e: EntryV)
    requires
        encode_utf8(e.subject).len() <= u64::MAX,
    ensures
        spec_decode_record(spec_encode_record(e)) == Some(e),
{
    lemma_auto_spec_u64_to_from_le_bytes();
    encode_utf8_valid_utf8(e.subject);
    encode_utf8_decode_utf8(e.subject);
    let b = spec_encode_record(e);
    let s = encode_utf8(e.subject);
    let slen = s.len() as int;
    assert(b.subrange(0, 8) =~= spec_u64_to_le_bytes(e.when));
    assert(b.subrange(8, 16) =~= spec_u64_to_le_bytes(s.len() as u64));
    assert(b.subrange(16, 16 + slen) =~= s);
    assert(b.subrange(16 + slen, b.len() as int) =~= e.payload);
}

} // verus!
