//! Records on standard input and on the pipes to and from the helper.
//!
//! A stream holds records, each ended by a terminator byte: a newline, or NUL
//! in NUL mode.  The last record may lack its terminator.  On standard input
//! an empty record is an error; in the helper's output empty records are
//! skipped.

use vstd::prelude::*;
use vstd::utf8::{decode_utf8, valid_utf8};
use crate::codec::{decode_string, decoded, encode_string, encoded, push_char, DecodeError};

verus! {

/// The byte that ends a record.
pub open spec fn terminator(nul: bool) -> u8 {
    if nul {
        0u8
    } else {
        10u8
    }
}

/// Whether `b` ends a record.
pub fn is_terminal(nul: bool, b: &u8) -> (r: bool)
    ensures
        r == (*b == terminator(nul)),
{
    if nul {
        *b == 0u8
    } else {
        *b == 10u8
    }
}

/// The records of `bytes` that are complete (each followed by `t`), and the
/// bytes read since the last `t`.
pub open spec fn fields(bytes: Seq<u8>, t: u8) -> (Seq<Seq<u8>>, Seq<u8>)
    decreases bytes.len(),
{
    if bytes.len() == 0 {
        (seq![], seq![])
    } else {
        let (done, cur) = fields(bytes.drop_last(), t);
        if bytes.last() == t {
            (done.push(cur), seq![])
        } else {
            (done, cur.push(bytes.last()))
        }
    }
}

/// The records of `bytes`: a final terminator ends the last record and
/// starts no new one.
pub open spec fn records(bytes: Seq<u8>, t: u8) -> Seq<Seq<u8>> {
    let (done, cur) = fields(bytes, t);
    if cur.len() == 0 {
        done
    } else {
        done.push(cur)
    }
}

pub open spec fn has_empty(rs: Seq<Seq<u8>>) -> bool {
    exists|i: int| 0 <= i < rs.len() && (#[trigger] rs[i]).len() == 0
}

pub open spec fn byte_views(v: Seq<Vec<u8>>) -> Seq<Seq<u8>> {
    v.map_values(|x: Vec<u8>| x@)
}

pub open spec fn string_views(v: Seq<String>) -> Seq<Seq<char>> {
    v.map_values(|x: String| x@)
}

/// Why a stream of records could not be read.
#[derive(Debug, PartialEq, Eq)]
pub enum RecordError {
    /// Two terminators in a row, or one at the very start.
    EmptyRecord,
    /// A record is not valid UTF-8.
    NotUtf8,
    /// A record could not be decoded.
    BadDecoding(DecodeError),
}

/// Cut `bytes` into records ended by the terminator of `nul`.
pub fn split_records(bytes: &Vec<u8>, nul: bool) -> (r: Result<Vec<Vec<u8>>, RecordError>)
    ensures
        match r {
            Ok(v) => !has_empty(records(bytes@, terminator(nul))) && byte_views(v@) == records(
                bytes@,
                terminator(nul),
            ),
            Err(e) => e == RecordError::EmptyRecord && has_empty(records(bytes@, terminator(nul))),
        },
{
    let ghost t = terminator(nul);
    let mut out: Vec<Vec<u8>> = Vec::new();
    let mut cur: Vec<u8> = Vec::new();
    let mut empty = false;
    let mut i: usize = 0;
    assert(bytes@.subrange(0, 0) =~= Seq::<u8>::empty());
    assert(byte_views(out@) =~= Seq::<Seq<u8>>::empty());
    while i < bytes.len()
        invariant
            i <= bytes.len(),
            t == terminator(nul),
            fields(bytes@.subrange(0, i as int), t) == (byte_views(out@), cur@),
            empty == has_empty(byte_views(out@)),
        decreases bytes.len() - i,
    {
        let b = bytes[i];
        let ghost o0 = byte_views(out@);
        assert(bytes@.subrange(0, i + 1).drop_last() =~= bytes@.subrange(0, i as int));
        if is_terminal(nul, &b) {
            let ghost c0 = cur@;
            if cur.len() == 0 {
                empty = true;
            }
            out.push(cur);
            cur = Vec::new();
            proof {
                assert(byte_views(out@) =~= o0.push(c0));
                if c0.len() == 0 {
                    assert(byte_views(out@)[o0.len() as int].len() == 0);
                }
                if has_empty(o0) {
                    let k = choose|k: int| 0 <= k < o0.len() && (#[trigger] o0[k]).len() == 0;
                    assert(byte_views(out@)[k] == o0[k]);
                }
                if has_empty(byte_views(out@)) {
                    let k = choose|k: int|
                        0 <= k < byte_views(out@).len() && (#[trigger] byte_views(out@)[k]).len()
                            == 0;
                    if k < o0.len() {
                        assert(byte_views(out@)[k] == o0[k]);
                    }
                }
            }
        } else {
            cur.push(b);
        }
        i = i + 1;
    }
    assert(bytes@.subrange(0, bytes.len() as int) =~= bytes@);
    if empty {
        proof {
            let d = byte_views(out@);
            let k = choose|k: int| 0 <= k < d.len() && (#[trigger] d[k]).len() == 0;
            if cur@.len() > 0 {
                assert(d.push(cur@)[k] == d[k]);
            }
        }
        return Err(RecordError::EmptyRecord);
    }
    if cur.len() > 0 {
        let ghost o0 = byte_views(out@);
        let ghost c0 = cur@;
        out.push(cur);
        proof {
            assert(byte_views(out@) =~= o0.push(c0));
            if has_empty(byte_views(out@)) {
                let k = choose|k: int|
                    0 <= k < byte_views(out@).len() && (#[trigger] byte_views(out@)[k]).len() == 0;
                assert(byte_views(out@)[k] == o0.push(c0)[k]);
                if k < o0.len() {
                    assert(o0.push(c0)[k] == o0[k]);
                }
            }
        }
    }
    Ok(out)
}

/// Relies on `String::from_utf8`: it succeeds exactly when the bytes are
/// valid UTF-8, and the string then holds the characters they encode.
#[verifier::external_body]
fn string_from_utf8(bytes: Vec<u8>) -> (r: Option<String>)
    ensures
        r is Some <==> valid_utf8(bytes@),
        r matches Some(s) ==> s@ == decode_utf8(bytes@),
{
    String::from_utf8(bytes).ok()
}

/// The text of a record as received: decoded when `encode` is set.
pub open spec fn record_text(rec: Seq<u8>, encode: bool) -> Option<Seq<char>> {
    if !valid_utf8(rec) {
        None
    } else if encode {
        decoded(decode_utf8(rec))
    } else {
        Some(decode_utf8(rec))
    }
}

/// The text of one record, decoded when `encode` is set.
pub fn record_string(rec: Vec<u8>, encode: bool) -> (r: Result<String, RecordError>)
    ensures
        match r {
            Ok(s) => record_text(rec@, encode) == Some(s@),
            Err(RecordError::NotUtf8) => !valid_utf8(rec@),
            Err(RecordError::BadDecoding(e)) => valid_utf8(rec@) && encode && record_text(
                rec@,
                encode,
            ) is None && e.text@ == decode_utf8(rec@),
            Err(RecordError::EmptyRecord) => false,
        },
{
    let ghost rv = rec@;
    match string_from_utf8(rec) {
        None => Err(RecordError::NotUtf8),
        Some(s) => {
            if encode {
                match decode_string(s.as_str()) {
                    Ok(d) => Ok(d),
                    Err(e) => Err(RecordError::BadDecoding(e)),
                }
            } else {
                Ok(s)
            }
        },
    }
}

/// Whether record `i` is the first whose text cannot be had, and `e` says why.
pub open spec fn fails_at(rs: Seq<Seq<u8>>, encode: bool, e: RecordError, i: int) -> bool {
    &&& 0 <= i < rs.len()
    &&& record_text(rs[i], encode) is None
    &&& forall|j: int| 0 <= j < i ==> #[trigger] record_text(rs[j], encode) is Some
    &&& if valid_utf8(rs[i]) {
        e matches RecordError::BadDecoding(d) && d.text@ == decode_utf8(rs[i])
    } else {
        e == RecordError::NotUtf8
    }
}

/// Whether `e` is the error of the first record whose text cannot be had.
pub open spec fn first_failure(rs: Seq<Seq<u8>>, encode: bool, e: RecordError) -> bool {
    exists|i: int| fails_at(rs, encode, e, i)
}

/// The texts of the records `input`, decoded when `encode` is set; the error
/// of the first record whose text cannot be had.
pub fn record_texts(input: Vec<Vec<u8>>, encode: bool) -> (r: Result<Vec<String>, RecordError>)
    ensures
        r is Ok <==> forall|i: int|
            0 <= i < input@.len() ==> #[trigger] record_text(byte_views(input@)[i], encode) is Some,
        r matches Ok(v) ==> v@.len() == input@.len() && forall|i: int|
            0 <= i < v@.len() ==> record_text(byte_views(input@)[i], encode) == Some(
                (#[trigger] v@[i])@,
            ),
        r is Err ==> first_failure(byte_views(input@), encode, r->Err_0),
{
    let ghost all = byte_views(input@);
    let mut recs = input;
    let mut out: Vec<String> = Vec::new();
    let ghost mut k: int = 0;
    assert(all.subrange(0, all.len() as int) =~= all);
    while recs.len() > 0
        invariant
            0 <= k <= all.len(),
            all == byte_views(input@),
            byte_views(recs@) == all.subrange(k, all.len() as int),
            out@.len() == k,
            forall|i: int| 0 <= i < k ==> record_text(all[i], encode) == Some((#[trigger] out@[i])@),
        decreases recs.len(),
    {
        let ghost r0 = recs@;
        assert(byte_views(r0).len() == r0.len());
        let rec = recs.remove(0);
        assert(rec@ == all[k]) by {
            assert(byte_views(r0)[0] == r0[0]@);
            assert(byte_views(r0)[0] == all.subrange(k, all.len() as int)[0]);
        }
        match record_string(rec, encode) {
            Ok(s) => {
                out.push(s);
            },
            Err(e) => {
                assert(record_text(all[k], encode) is None);
                assert forall|j: int| 0 <= j < k implies #[trigger] record_text(all[j], encode) is Some by {
                    assert(record_text(all[j], encode) == Some(out@[j]@));
                }
                assert(fails_at(all, encode, e, k));
                assert(!(record_text(byte_views(input@)[k], encode) is Some));
                return Err(e);
            },
        }
        proof {
            assert forall|j: int| 0 <= j < recs@.len() implies #[trigger] byte_views(recs@)[j]
                == all.subrange(k + 1, all.len() as int)[j] by {
                assert(recs@[j] == r0[j + 1]);
                assert(byte_views(r0)[j + 1] == all.subrange(k, all.len() as int)[j + 1]);
            }
            k = k + 1;
            assert(byte_views(recs@) =~= all.subrange(k, all.len() as int));
        }
    }
    assert(k == all.len()) by {
        assert(byte_views(recs@).len() == 0);
    }
    assert forall|i: int| 0 <= i < all.len() implies #[trigger] record_text(all[i], encode) is Some by {
        assert(record_text(all[i], encode) == Some(out@[i]@));
    }
    Ok(out)
}

/// Read the sources on standard input: records of text ended by the
/// terminator of `nul`, without decoding.
///
/// Fails on an empty record and on a record that is not UTF-8.
pub fn parse_records(bytes: &Vec<u8>, nul: bool, encode: bool) -> (r: Result<Vec<String>, RecordError>)
    ensures
        has_empty(records(bytes@, terminator(nul))) ==> r == Err::<Vec<String>, RecordError>(
            RecordError::EmptyRecord,
        ),
        r is Ok <==> !has_empty(records(bytes@, terminator(nul))) && forall|i: int|
            0 <= i < records(bytes@, terminator(nul)).len() ==> #[trigger] record_text(
                records(bytes@, terminator(nul))[i],
                encode,
            ) is Some,
        r matches Ok(v) ==> v@.len() == records(bytes@, terminator(nul)).len() && forall|i: int|
            0 <= i < v@.len() ==> record_text(records(bytes@, terminator(nul))[i], encode) == Some(
                (#[trigger] v@[i])@,
            ),
        r is Err && !has_empty(records(bytes@, terminator(nul))) ==> first_failure(
            records(bytes@, terminator(nul)),
            encode,
            r->Err_0,
        ),
{
    let recs = match split_records(bytes, nul) {
        Ok(v) => v,
        Err(e) => {
            return Err(e);
        },
    };
    record_texts(recs, encode)
}

/// The runs of `bytes` that are complete (each ended by `t`), and the bytes
/// read since the last `t`; empty runs are skipped.
pub open spec fn run_state(bytes: Seq<u8>, t: u8) -> (Seq<Seq<u8>>, Seq<u8>)
    decreases bytes.len(),
{
    if bytes.len() == 0 {
        (seq![], seq![])
    } else {
        let (done, cur) = run_state(bytes.drop_last(), t);
        if bytes.last() == t {
            if cur.len() == 0 {
                (done, seq![])
            } else {
                (done.push(cur), seq![])
            }
        } else {
            (done, cur.push(bytes.last()))
        }
    }
}

/// The maximal runs of bytes other than `t` in `bytes`, in order.
pub open spec fn runs(bytes: Seq<u8>, t: u8) -> Seq<Seq<u8>> {
    let (done, cur) = run_state(bytes, t);
    if cur.len() == 0 {
        done
    } else {
        done.push(cur)
    }
}

/// Cut `bytes` into the maximal runs of bytes other than the terminator of
/// `nul`: repeated terminators start no empty record.
pub fn split_runs(bytes: &Vec<u8>, nul: bool) -> (r: Vec<Vec<u8>>)
    ensures
        byte_views(r@) == runs(bytes@, terminator(nul)),
{
    let ghost t = terminator(nul);
    let mut out: Vec<Vec<u8>> = Vec::new();
    let mut cur: Vec<u8> = Vec::new();
    let mut i: usize = 0;
    assert(bytes@.subrange(0, 0) =~= Seq::<u8>::empty());
    assert(byte_views(out@) =~= Seq::<Seq<u8>>::empty());
    while i < bytes.len()
        invariant
            i <= bytes.len(),
            t == terminator(nul),
            run_state(bytes@.subrange(0, i as int), t) == (byte_views(out@), cur@),
        decreases bytes.len() - i,
    {
        let b = bytes[i];
        let ghost o0 = byte_views(out@);
        assert(bytes@.subrange(0, i + 1).drop_last() =~= bytes@.subrange(0, i as int));
        if is_terminal(nul, &b) {
            if cur.len() > 0 {
                let ghost c0 = cur@;
                out.push(cur);
                cur = Vec::new();
                assert(byte_views(out@) =~= o0.push(c0));
            } else {
                assert(cur@ =~= Seq::<u8>::empty());
            }
        } else {
            cur.push(b);
        }
        i = i + 1;
    }
    assert(bytes@.subrange(0, bytes.len() as int) =~= bytes@);
    if cur.len() > 0 {
        let ghost o0 = byte_views(out@);
        let ghost c0 = cur@;
        out.push(cur);
        assert(byte_views(out@) =~= o0.push(c0));
    }
    out
}

/// The text written to the helper for the sources `srcs`: each one (encoded
/// when `encode` is set) followed by a terminator, NUL in NUL mode and a
/// newline otherwise.
pub open spec fn framed(srcs: Seq<Seq<char>>, nul: bool, encode: bool) -> Seq<char>
    decreases srcs.len(),
{
    if srcs.len() == 0 {
        seq![]
    } else {
        let s = srcs.last();
        framed(srcs.drop_last(), nul, encode) + (if encode {
            encoded(s)
        } else {
            s
        }) + seq![
            if nul {
                '\0'
            } else {
                '\n'
            },
        ]
    }
}

/// The text written to the helper for the sources `srcs`.
pub fn frame_input(srcs: &Vec<String>, nul: bool, encode: bool) -> (r: String)
    ensures
        r@ == framed(string_views(srcs@), nul, encode),
{
    let ghost sv = string_views(srcs@);
    let mut out = String::new();
    let mut i: usize = 0;
    assert(sv.subrange(0, 0) =~= Seq::<Seq<char>>::empty());
    while i < srcs.len()
        invariant
            i <= srcs.len(),
            sv == string_views(srcs@),
            out@ == framed(sv.subrange(0, i as int), nul, encode),
        decreases srcs.len() - i,
    {
        let ghost o0 = out@;
        if encode {
            let e = encode_string(srcs[i].as_str());
            out.append(e.as_str());
        } else {
            out.append(srcs[i].as_str());
        }
        push_char(&mut out, if nul { '\0' } else { '\n' });
        proof {
            let next = sv.subrange(0, i + 1);
            assert(next.drop_last() =~= sv.subrange(0, i as int));
            assert(next.last() == srcs@[i as int]@);
            assert(out@ =~= framed(next, nul, encode));
        }
        i = i + 1;
    }
    assert(sv.subrange(0, srcs.len() as int) =~= sv);
    out
}

/// The text written to the helper for one source, without a terminator.
pub fn frame_one(src: &String, encode: bool) -> (r: String)
    ensures
        r@ == if encode {
            encoded(src@)
        } else {
            src@
        },
{
    if encode {
        encode_string(src.as_str())
    } else {
        src.clone()
    }
}

/// Read the destinations that the helper wrote for a whole batch: the
/// maximal runs of bytes other than the terminator of `nul` (empty runs are
/// skipped), decoded when `encode` is set.
pub fn parse_helper_output(bytes: &Vec<u8>, nul: bool, encode: bool) -> (r: Result<
    Vec<String>,
    RecordError,
>)
    ensures
        r is Ok <==> forall|i: int|
            0 <= i < runs(bytes@, terminator(nul)).len() ==> #[trigger] record_text(
                runs(bytes@, terminator(nul))[i],
                encode,
            ) is Some,
        r matches Ok(v) ==> v@.len() == runs(bytes@, terminator(nul)).len() && forall|i: int|
            0 <= i < v@.len() ==> record_text(runs(bytes@, terminator(nul))[i], encode) == Some(
                (#[trigger] v@[i])@,
            ),
        r is Err ==> first_failure(runs(bytes@, terminator(nul)), encode, r->Err_0),
{
    let recs = split_runs(bytes, nul);
    record_texts(recs, encode)
}

} // verus!
