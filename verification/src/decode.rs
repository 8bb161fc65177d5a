//! The decoder: a cursor-based recursive-descent parser for the wire
//! grammar. One call consumes exactly one complete frame starting at a given
//! offset and reports how many bytes it took, so nested frames share one
//! buffer and one advancing cursor instead of copying sub-ranges.
//!
//! The grammar is stated once, mathematically, by [`spec_decode`]; the
//! executable [`decode`] is proved to return exactly what `spec_decode`
//! says, errors included.

use vstd::prelude::*;

use crate::errors::DecodeError;
use crate::num::{parse_i64, spec_parse_i64};
use crate::value::{values_model, SpecValue, Values};

verus! {

/// Type tag of a simple string frame, `+`.
pub const TAG_SIMPLE: u8 = 43;

/// Type tag of an error frame, `-`.
pub const TAG_ERROR: u8 = 45;

/// Type tag of an integer frame, `:`.
pub const TAG_INTEGER: u8 = 58;

/// Type tag of a bulk string frame, `$`.
pub const TAG_BULK: u8 = 36;

/// Type tag of an array frame, `*`.
pub const TAG_ARRAY: u8 = 42;

/// Carriage return: first byte of the line terminator.
pub const CR: u8 = 13;

/// Line feed: second byte of the line terminator.
pub const LF: u8 = 10;

/// Do the two bytes at `i` form a CRLF terminator?
pub open spec fn crlf_at(buf: Seq<u8>, i: int) -> bool {
    0 <= i && i + 2 <= buf.len() && buf[i] == CR && buf[i + 1] == LF
}

/// The position of the first CRLF terminator at or after `off`, if any.
pub open spec fn spec_find_crlf(buf: Seq<u8>, off: int) -> Option<int>
    decreases buf.len() - off
        when 0 <= off
{
    if off + 2 > buf.len() {
        None
    } else if crlf_at(buf, off) {
        Some(off)
    } else {
        spec_find_crlf(buf, off + 1)
    }
}

/// What `spec_find_crlf` returns: the first terminator position, in bounds,
/// with none before it; or nothing, when no terminator follows `off`.
pub proof fn lemma_find_crlf(buf: Seq<u8>, off: int)
    requires
        0 <= off,
    ensures
        (spec_find_crlf(buf, off) matches Some(j) ==> off <= j && crlf_at(buf, j) && (forall|k:
            int|
            off <= k < j ==> !crlf_at(buf, k))),
        (spec_find_crlf(buf, off) is None ==> forall|k: int| off <= k ==> !crlf_at(buf, k)),
    decreases buf.len() - off,
{
    if off + 2 > buf.len() {
    } else if crlf_at(buf, off) {
    } else {
        lemma_find_crlf(buf, off + 1);
    }
}

/// A length or count header line: the digits between `off` and the first
/// terminator, read as a signed 64-bit integer that must be at least -1.
/// `Ok` carries the declared value and the offset just past the terminator.
pub open spec fn spec_decode_size(buf: Seq<u8>, off: int) -> Result<(int, int), DecodeError> {
    match spec_find_crlf(buf, off) {
        None => Err(DecodeError::UnexpectedEndOfBuffer),
        Some(j) => match spec_parse_i64(buf.subrange(off, j)) {
            None => Err(DecodeError::MalformedLength),
            Some(n) => if n >= -1 {
                Ok((n, j + 2))
            } else {
                Err(DecodeError::MalformedLength)
            },
        },
    }
}

/// A size header's `Ok` value stays inside the buffer and past the tag.
pub proof fn lemma_decode_size_bounds(buf: Seq<u8>, off: int)
    requires
        0 <= off,
    ensures
        (spec_decode_size(buf, off) matches Ok(p) ==> off + 2 <= p.1 <= buf.len() && p.0 >= -1),
{
    lemma_find_crlf(buf, off);
}

/// One frame decoded from `buf` at `off`: the value it denotes and the
/// total number of bytes it occupies (tag, header, payload and terminators),
/// or the first error the grammar forces.
///
/// This is the library's statement of the wire grammar. Framing is driven
/// by declared lengths and counts, never by scanning for terminators inside
/// payload regions, so payloads are binary safe.
pub open spec fn spec_decode(buf: Seq<u8>, off: int) -> Result<(SpecValue, int), DecodeError>
    decreases buf.len() - off, 0nat
        when 0 <= off
{
    if off >= buf.len() {
        Err(DecodeError::UnexpectedEndOfBuffer)
    } else {
        let tag = buf[off];
        if tag == TAG_INTEGER {
            match spec_find_crlf(buf, off + 1) {
                None => Err(DecodeError::MalformedInteger),
                Some(j) => match spec_parse_i64(buf.subrange(off + 1, j)) {
                    None => Err(DecodeError::MalformedInteger),
                    Some(n) => Ok((SpecValue::Integers(n), j + 2 - off)),
                },
            }
        } else if tag == TAG_SIMPLE || tag == TAG_ERROR {
            match spec_find_crlf(buf, off + 1) {
                None => Err(DecodeError::UnexpectedEndOfBuffer),
                Some(j) => if tag == TAG_SIMPLE {
                    Ok((SpecValue::SimpleString(buf.subrange(off + 1, j)), j + 2 - off))
                } else {
                    Ok((SpecValue::Errors(buf.subrange(off + 1, j)), j + 2 - off))
                },
            }
        } else if tag == TAG_BULK {
            match spec_decode_size(buf, off + 1) {
                Err(e) => Err(e),
                Ok((len, body)) => if len == -1 {
                    Ok((SpecValue::BulkString(None), body - off))
                } else if body + len + 2 <= buf.len() {
                    if buf[body + len] == CR && buf[body + len + 1] == LF {
                        Ok(
                            (
                                SpecValue::BulkString(Some(buf.subrange(body, body + len))),
                                body + len + 2 - off,
                            ),
                        )
                    } else {
                        Err(DecodeError::MalformedLength)
                    }
                } else {
                    Err(DecodeError::IncompleteFrame)
                },
            }
        } else if tag == TAG_ARRAY {
            match spec_decode_size(buf, off + 1) {
                Err(e) => Err(e),
                Ok((count, body)) => if count == -1 {
                    Ok((SpecValue::Arrays(None), body - off))
                } else if off < body <= buf.len() {
                    match spec_decode_elems(buf, body, count as nat) {
                        Err(e) => Err(e),
                        Ok((elems, end)) => Ok((SpecValue::Arrays(Some(elems)), end - off)),
                    }
                } else {
                    // a size header always ends past the tag and inside the
                    // buffer; the test above only keeps the recursion
                    // visibly bounded
                    Err(DecodeError::UnexpectedEndOfBuffer)
                },
            }
        } else {
            Err(DecodeError::UnknownTypeTag)
        }
    }
}

/// `count` consecutive frames decoded from `buf` starting at `off`, in
/// left-to-right order. `Ok` carries their values, in that order, and the
/// offset just past the last of them.
pub open spec fn spec_decode_elems(buf: Seq<u8>, off: int, count: nat) -> Result<
    (Seq<SpecValue>, int),
    DecodeError,
>
    decreases buf.len() - off, count
        when 0 <= off <= buf.len()
{
    if count == 0 {
        Ok((Seq::empty(), off))
    } else {
        match spec_decode(buf, off) {
            Err(e) => Err(e),
            Ok((v, n)) => if off < off + n <= buf.len() {
                match spec_decode_elems(buf, off + n, (count - 1) as nat) {
                    Err(e) => Err(e),
                    Ok((rest, end)) => Ok((seq![v] + rest, end)),
                }
            } else {
                // a frame always occupies at least one byte and ends inside
                // the buffer; the test above only keeps the recursion
                // visibly bounded
                Err(DecodeError::UnexpectedEndOfBuffer)
            },
        }
    }
}

/// A decoded frame occupies at least one byte and ends inside the buffer.
pub proof fn lemma_decode_consumes(buf: Seq<u8>, off: int)
    requires
        0 <= off,
    ensures
        (spec_decode(buf, off) matches Ok(p) ==> 1 <= p.1 && off + p.1 <= buf.len()),
    decreases buf.len() - off, 0nat,
{
    if off >= buf.len() {
    } else {
        let tag = buf[off];
        lemma_find_crlf(buf, off + 1);
        lemma_decode_size_bounds(buf, off + 1);
        if tag == TAG_ARRAY {
            match spec_decode_size(buf, off + 1) {
                Err(_) => {},
                Ok((count, body)) => {
                    if count != -1 && off < body <= buf.len() {
                        lemma_decode_elems_consumes(buf, body, count as nat);
                    }
                },
            }
        }
    }
}

/// A run of decoded frames never moves the cursor backwards or out of the
/// buffer, and yields exactly as many values as were asked for.
pub proof fn lemma_decode_elems_consumes(buf: Seq<u8>, off: int, count: nat)
    requires
        0 <= off <= buf.len(),
    ensures
        (spec_decode_elems(buf, off, count) matches Ok(p) ==> p.0.len() == count && off <= p.1
            <= buf.len()),
    decreases buf.len() - off, count,
{
    if count == 0 {
    } else {
        match spec_decode(buf, off) {
            Err(_) => {},
            Ok((v, n)) => {
                if off < off + n <= buf.len() {
                    lemma_decode_elems_consumes(buf, off + n, (count - 1) as nat);
                }
            },
        }
    }
}

/// Copy the bytes of `buf` between `start` (inclusive) and `end`
/// (exclusive) into an owned vector.
pub(crate) fn copy_range(buf: &Vec<u8>, start: usize, end: usize) -> (r: Vec<u8>)
    requires
        start <= end <= buf@.len(),
    ensures
        r@ == buf@.subrange(start as int, end as int),
{
    let s = vstd::slice::slice_subrange(buf.as_slice(), start, end);
    vstd::slice::slice_to_vec(s)
}

/// Find the first CRLF terminator at or after `off`.
#[verifier::loop_isolation(false)]
fn find_crlf(buf: &Vec<u8>, off: usize) -> (r: Option<usize>)
    requires
        off <= buf@.len(),
    ensures
        (match r {
            Some(j) => spec_find_crlf(buf@, off as int) == Some(j as int) && off <= j && j + 2
                <= buf@.len(),
            None => spec_find_crlf(buf@, off as int) is None,
        }),
{
    let mut i: usize = off;
    loop
        invariant
            off <= i <= buf@.len(),
            spec_find_crlf(buf@, off as int) == spec_find_crlf(buf@, i as int),
        decreases buf@.len() - i,
    {
        if buf.len() < 2 || i > buf.len() - 2 {
            return None;
        }
        if buf[i] == CR && buf[i + 1] == LF {
            return Some(i);
        }
        i = i + 1;
    }
}

/// Read one size header line starting at `off` (just past a `$` or `*`
/// tag): the declared length or count, at least -1, and the offset of the
/// body that follows the terminator.
fn decode_size(buf: &Vec<u8>, off: usize) -> (r: Result<(i64, usize), DecodeError>)
    requires
        off <= buf@.len() <= usize::MAX,
    ensures
        (match r {
            Ok((n, body)) => spec_decode_size(buf@, off as int) == Ok::<(int, int), DecodeError>(
                (n as int, body as int),
            ) && off + 2 <= body <= buf@.len() && n >= -1,
            Err(e) => spec_decode_size(buf@, off as int) == Err::<(int, int), DecodeError>(e),
        }),
{
    match find_crlf(buf, off) {
        None => Err(DecodeError::UnexpectedEndOfBuffer),
        Some(j) => match parse_i64(buf, off, j) {
            None => Err(DecodeError::MalformedLength),
            Some(n) => if n >= -1 {
                Ok((n, j + 2))
            } else {
                Err(DecodeError::MalformedLength)
            },
        },
    }
}

/// Decode one complete frame from `buf` starting at `off`.
///
/// Returns the decoded value together with the exact number of bytes the
/// frame occupies, so a caller decoding a stream advances its cursor by
/// that count; or the error that `spec_decode` assigns to these bytes.
/// Truncated input is reported as `IncompleteFrame` or
/// `UnexpectedEndOfBuffer`, both recoverable, never as a panic.
#[verifier::loop_isolation(false)]
pub fn decode(buf: &Vec<u8>, off: usize) -> (r: Result<(Values, usize), DecodeError>)
    ensures
        (match r {
            Ok((v, n)) => spec_decode(buf@, off as int) == Ok::<(SpecValue, int), DecodeError>(
                (v@, n as int),
            ),
            Err(e) => spec_decode(buf@, off as int) == Err::<(SpecValue, int), DecodeError>(e),
        }),
    decreases buf@.len() - off,
{
    if off >= buf.len() {
        return Err(DecodeError::UnexpectedEndOfBuffer);
    }
    let tag = buf[off];
    if tag == TAG_INTEGER {
        match find_crlf(buf, off + 1) {
            None => Err(DecodeError::MalformedInteger),
            Some(j) => match parse_i64(buf, off + 1, j) {
                None => Err(DecodeError::MalformedInteger),
                Some(n) => Ok((Values::Integers(n), j + 2 - off)),
            },
        }
    } else if tag == TAG_SIMPLE || tag == TAG_ERROR {
        match find_crlf(buf, off + 1) {
            None => Err(DecodeError::UnexpectedEndOfBuffer),
            Some(j) => {
                let payload = copy_range(buf, off + 1, j);
                if tag == TAG_SIMPLE {
                    Ok((Values::SimpleString(payload), j + 2 - off))
                } else {
                    Ok((Values::Errors(payload), j + 2 - off))
                }
            },
        }
    } else if tag == TAG_BULK {
        let (len_i, body) = match decode_size(buf, off + 1) {
            Err(e) => {
                return Err(e);
            },
            Ok(p) => p,
        };
        if len_i == -1 {
            return Ok((Values::BulkString(None), body - off));
        }
        let avail: usize = buf.len() - body;
        if avail < 2 || (len_i as u64) > ((avail - 2) as u64) {
            return Err(DecodeError::IncompleteFrame);
        }
        let len: usize = len_i as usize;
        if !(buf[body + len] == CR && buf[body + len + 1] == LF) {
            return Err(DecodeError::MalformedLength);
        }
        let payload = copy_range(buf, body, body + len);
        Ok((Values::BulkString(Some(payload)), body + len + 2 - off))
    } else if tag == TAG_ARRAY {
        let (count_i, body) = match decode_size(buf, off + 1) {
            Err(e) => {
                return Err(e);
            },
            Ok(p) => p,
        };
        if count_i == -1 {
            return Ok((Values::Arrays(None), body - off));
        }
        let count: u64 = count_i as u64;
        let mut elems: Vec<Values> = Vec::new();
        let mut cur: usize = body;
        let mut k: u64 = 0;
        while k < count
            invariant
                body <= cur <= buf@.len(),
                k <= count,
                elems@.len() == k as int,
                spec_decode_elems(buf@, body as int, count as nat) == (match spec_decode_elems(
                    buf@,
                    cur as int,
                    (count - k) as nat,
                ) {
                    Ok((rest, end)) => Ok::<(Seq<SpecValue>, int), DecodeError>(
                        (values_model(elems@) + rest, end),
                    ),
                    Err(e) => Err::<(Seq<SpecValue>, int), DecodeError>(e),
                }),
            decreases count - k,
        {
            match decode(buf, cur) {
                Err(e) => {
                    return Err(e);
                },
                Ok((v, n)) => {
                    proof {
                        lemma_decode_consumes(buf@, cur as int);
                        let ghost old_models = values_model(elems@);
                        let ghost pushed = elems@.push(v);
                        assert(pushed.drop_last() =~= elems@);
                        assert(values_model(pushed) == old_models.push(v@));
                        assert forall|rest: Seq<SpecValue>|
                            (old_models + (seq![v@] + rest)) =~= (values_model(pushed)
                                + rest) by {}
                    }
                    elems.push(v);
                    cur = cur + n;
                    k = k + 1;
                },
            }
        }
        proof {
            assert(values_model(elems@) + Seq::<SpecValue>::empty() =~= values_model(elems@));
        }
        Ok((Values::Arrays(Some(elems)), cur - off))
    } else {
        Err(DecodeError::UnknownTypeTag)
    }
}

/// Decode one complete frame from the start of `buf`, ignoring any bytes
/// that follow it.
pub fn parse_response(buf: &Vec<u8>) -> (r: Result<Values, DecodeError>)
    ensures
        (match r {
            Ok(v) => spec_decode(buf@, 0) matches Ok(p) && p.0 == v@,
            Err(e) => spec_decode(buf@, 0) == Err::<(SpecValue, int), DecodeError>(e),
        }),
{
    match decode(buf, 0) {
        Ok((v, _consumed)) => Ok(v),
        Err(e) => Err(e),
    }
}

} // verus!
