//! The codec's round-trip laws: every well-formed reply value has exactly
//! one wire encoding, and decoding that encoding — at any offset of any
//! buffer that contains it — yields exactly that value and consumes exactly
//! its bytes. The command round trip and the integer, truncation, unknown
//! tag and empty-buffer laws follow from it.

use vstd::prelude::*;

use crate::decode::{
    crlf_at, spec_decode, spec_decode_elems, spec_decode_size, spec_find_crlf, CR, LF, TAG_ARRAY,
    TAG_BULK, TAG_ERROR, TAG_INTEGER, TAG_SIMPLE,
};
use crate::encode::{
    lemma_dec_i64, spec_dec_i64, spec_encode_bulk, spec_encode_bulks, spec_encode_command,
};
use crate::errors::DecodeError;
use crate::num::dec_digits;
use crate::value::SpecValue;

verus! {

/// The wire encoding of one reply value: the frame that a server emits for
/// it. Sizes and integers are rendered in canonical decimal; a `None` bulk
/// string or array is declared with size -1 and has no body.
pub open spec fn spec_encode_value(v: SpecValue) -> Seq<u8>
    decreases v, 0nat,
{
    match v {
        SpecValue::SimpleString(s) => seq![TAG_SIMPLE] + s + seq![CR, LF],
        SpecValue::Errors(s) => seq![TAG_ERROR] + s + seq![CR, LF],
        SpecValue::Integers(n) => seq![TAG_INTEGER] + spec_dec_i64(n) + seq![CR, LF],
        SpecValue::BulkString(None) => seq![TAG_BULK] + spec_dec_i64(-1) + seq![CR, LF],
        SpecValue::BulkString(Some(s)) => seq![TAG_BULK] + spec_dec_i64(s.len() as int)
            + seq![CR, LF] + s + seq![CR, LF],
        SpecValue::Arrays(None) => seq![TAG_ARRAY] + spec_dec_i64(-1) + seq![CR, LF],
        SpecValue::Arrays(Some(elems)) => seq![TAG_ARRAY] + spec_dec_i64(elems.len() as int)
            + seq![CR, LF] + spec_encode_elems(elems),
    }
}

/// The encodings of a sequence of values, concatenated in order.
pub open spec fn spec_encode_elems(elems: Seq<SpecValue>) -> Seq<u8>
    decreases elems, 1nat,
{
    if elems.len() == 0 {
        Seq::empty()
    } else {
        spec_encode_elems(elems.drop_last()) + spec_encode_value(elems.last())
    }
}

/// A value a server can actually put on the wire: line payloads carry no
/// terminator byte, integers fit the signed 64-bit reply type, and every
/// declared size fits the signed 64-bit size line.
pub open spec fn spec_wf(v: SpecValue) -> bool
    decreases v, 0nat,
{
    match v {
        SpecValue::SimpleString(s) => forall|i: int|
            0 <= i < s.len() ==> (#[trigger] s[i]) != CR && s[i] != LF,
        SpecValue::Errors(s) => forall|i: int|
            0 <= i < s.len() ==> (#[trigger] s[i]) != CR && s[i] != LF,
        SpecValue::Integers(n) => i64::MIN <= n <= i64::MAX,
        SpecValue::BulkString(None) => true,
        SpecValue::BulkString(Some(s)) => s.len() <= i64::MAX,
        SpecValue::Arrays(None) => true,
        SpecValue::Arrays(Some(elems)) => elems.len() <= i64::MAX && spec_wf_elems(elems),
    }
}

/// Well-formedness of every element of a sequence of values.
pub open spec fn spec_wf_elems(elems: Seq<SpecValue>) -> bool
    decreases elems, 1nat,
{
    if elems.len() == 0 {
        true
    } else {
        spec_wf_elems(elems.drop_last()) && spec_wf(elems.last())
    }
}

/// An encoded frame is never shorter than a tag and a terminator.
pub proof fn lemma_encode_value_len(v: SpecValue)
    ensures
        spec_encode_value(v).len() >= 3,
{
}

/// A non-empty sequence of values encodes as its first value's frame
/// followed by the rest's frames, and is well formed exactly when the first
/// value and the rest are.
pub proof fn lemma_elems_head(elems: Seq<SpecValue>)
    requires
        elems.len() > 0,
    ensures
        spec_encode_elems(elems) == spec_encode_value(elems[0]) + spec_encode_elems(
            elems.skip(1),
        ),
        spec_wf_elems(elems) ==> spec_wf(elems[0]) && spec_wf_elems(elems.skip(1)),
    decreases elems.len(),
{
    if elems.len() == 1 {
        assert(elems.drop_last() =~= Seq::<SpecValue>::empty());
        assert(elems.skip(1) =~= Seq::<SpecValue>::empty());
        assert(elems.last() == elems[0]);
        assert(spec_encode_elems(elems) =~= spec_encode_value(elems[0]) + spec_encode_elems(
            elems.skip(1),
        ));
    } else {
        let d = elems.drop_last();
        lemma_elems_head(d);
        assert(d[0] == elems[0]);
        assert(d.skip(1) =~= elems.skip(1).drop_last());
        assert(elems.skip(1).last() == elems.last());
        assert(spec_encode_elems(elems.skip(1)) == spec_encode_elems(d.skip(1))
            + spec_encode_value(elems.last()));
        assert(spec_encode_elems(elems) =~= spec_encode_value(elems[0]) + spec_encode_elems(
            elems.skip(1),
        ));
        if spec_wf_elems(elems) {
            assert(spec_wf_elems(elems.skip(1)));
        }
    }
}

/// Where a terminator stands at `j` and none stands earlier, the search
/// from `a` finds exactly `j`.
pub proof fn lemma_find_crlf_known(buf: Seq<u8>, a: int, j: int)
    requires
        0 <= a <= j,
        crlf_at(buf, j),
        forall|k: int| a <= k < j ==> !crlf_at(buf, k),
    ensures
        spec_find_crlf(buf, a) == Some(j),
    decreases j - a,
{
    if a < j {
        lemma_find_crlf_known(buf, a + 1, j);
    }
}

/// A header or scalar line embedded in `buf` right after the tag at `off`:
/// interior bytes free of carriage returns, then a terminator. The search
/// finds exactly that terminator and the line's interior reads back intact.
pub proof fn lemma_embedded_line(buf: Seq<u8>, off: int, interior: Seq<u8>)
    requires
        0 <= off,
        off + 3 + interior.len() <= buf.len(),
        forall|k: int| 0 <= k < interior.len() ==> buf[off + 1 + k] == #[trigger] interior[k],
        forall|k: int| 0 <= k < interior.len() ==> (#[trigger] interior[k]) != CR,
        buf[off + 1 + interior.len()] == CR,
        buf[off + 2 + interior.len()] == LF,
    ensures
        spec_find_crlf(buf, off + 1) == Some(off + 1 + interior.len()),
        buf.subrange(off + 1, off + 1 + interior.len() as int) == interior,
{
    let j = off + 1 + interior.len() as int;
    assert(crlf_at(buf, j));
    assert forall|k: int| off + 1 <= k < j implies !crlf_at(buf, k) by {
        assert(buf[k] == interior[k - off - 1]);
        assert(interior[k - off - 1] != CR);
    }
    lemma_find_crlf_known(buf, off + 1, j);
    assert(buf.subrange(off + 1, j) =~= interior);
}

/// Where no terminator stands at or after `a`, the search finds nothing.
pub proof fn lemma_find_crlf_none(buf: Seq<u8>, a: int)
    requires
        0 <= a,
        forall|k: int| a <= k ==> !crlf_at(buf, k),
    ensures
        spec_find_crlf(buf, a) is None,
    decreases buf.len() - a,
{
    if a + 2 <= buf.len() {
        lemma_find_crlf_none(buf, a + 1);
    }
}

/// The soundness half of the codec: wherever a buffer holds the encoding of
/// a well-formed value at `off`, decoding at `off` returns exactly that
/// value and consumes exactly the encoding's bytes.
pub proof fn lemma_decode_of_encoded(buf: Seq<u8>, off: int, v: SpecValue)
    requires
        spec_wf(v),
        0 <= off,
        off + spec_encode_value(v).len() <= buf.len(),
        buf.subrange(off, off + spec_encode_value(v).len() as int) == spec_encode_value(v),
    ensures
        spec_decode(buf, off) == Ok::<(SpecValue, int), DecodeError>(
            (v, spec_encode_value(v).len() as int),
        ),
    decreases v, 0nat,
{
    let e = spec_encode_value(v);
    lemma_encode_value_len(v);
    assert forall|k: int| 0 <= k < e.len() implies buf[off + k] == e[k] by {
        assert(buf.subrange(off, off + e.len() as int)[k] == buf[off + k]);
    }
    match v {
        SpecValue::SimpleString(s) => {
            let ilen = s.len() as int;
            assert(e[0] == TAG_SIMPLE);
            assert forall|k: int| 0 <= k < ilen implies buf[off + 1 + k] == #[trigger] s[k] by {
                assert(e[1 + k] == s[k]);
            }
            assert(e[1 + ilen] == CR);
            assert(e[2 + ilen] == LF);
            lemma_embedded_line(buf, off, s);
        },
        SpecValue::Errors(s) => {
            let ilen = s.len() as int;
            assert(e[0] == TAG_ERROR);
            assert forall|k: int| 0 <= k < ilen implies buf[off + 1 + k] == #[trigger] s[k] by {
                assert(e[1 + k] == s[k]);
            }
            assert(e[1 + ilen] == CR);
            assert(e[2 + ilen] == LF);
            lemma_embedded_line(buf, off, s);
        },
        SpecValue::Integers(n) => {
            let d = spec_dec_i64(n);
            let ilen = d.len() as int;
            lemma_dec_i64(n);
            assert(e[0] == TAG_INTEGER);
            assert forall|k: int| 0 <= k < ilen implies buf[off + 1 + k] == #[trigger] d[k] by {
                assert(e[1 + k] == d[k]);
            }
            assert(e[1 + ilen] == CR);
            assert(e[2 + ilen] == LF);
            lemma_embedded_line(buf, off, d);
        },
        SpecValue::BulkString(None) => {
            let d = spec_dec_i64(-1);
            let ilen = d.len() as int;
            lemma_dec_i64(-1);
            assert(e[0] == TAG_BULK);
            assert forall|k: int| 0 <= k < ilen implies buf[off + 1 + k] == #[trigger] d[k] by {
                assert(e[1 + k] == d[k]);
            }
            assert(e[1 + ilen] == CR);
            assert(e[2 + ilen] == LF);
            lemma_embedded_line(buf, off, d);
        },
        SpecValue::BulkString(Some(s)) => {
            let slen = s.len() as int;
            let d = spec_dec_i64(slen);
            let ilen = d.len() as int;
            lemma_dec_i64(slen);
            assert(e.len() == 5 + ilen + slen);
            assert(e[0] == TAG_BULK);
            assert forall|k: int| 0 <= k < ilen implies buf[off + 1 + k] == #[trigger] d[k] by {
                assert(e[1 + k] == d[k]);
            }
            assert(e[1 + ilen] == CR);
            assert(e[2 + ilen] == LF);
            lemma_embedded_line(buf, off, d);
            let body = off + 3 + ilen;
            assert(spec_decode_size(buf, off + 1) == Ok::<(int, int), DecodeError>((slen, body)));
            assert forall|k: int| 0 <= k < slen implies buf[body + k] == #[trigger] s[k] by {
                assert(e[3 + ilen + k] == s[k]);
            }
            assert(buf[body + slen] == CR) by {
                assert(e[3 + ilen + slen] == CR);
            }
            assert(buf[body + slen + 1] == LF) by {
                assert(e[4 + ilen + slen] == LF);
            }
            assert(buf.subrange(body, body + slen) =~= s);
            assert(body + slen + 2 <= buf.len());
        },
        SpecValue::Arrays(None) => {
            let d = spec_dec_i64(-1);
            let ilen = d.len() as int;
            lemma_dec_i64(-1);
            assert(e[0] == TAG_ARRAY);
            assert forall|k: int| 0 <= k < ilen implies buf[off + 1 + k] == #[trigger] d[k] by {
                assert(e[1 + k] == d[k]);
            }
            assert(e[1 + ilen] == CR);
            assert(e[2 + ilen] == LF);
            lemma_embedded_line(buf, off, d);
        },
        SpecValue::Arrays(Some(elems)) => {
            let count = elems.len() as int;
            let d = spec_dec_i64(count);
            let ilen = d.len() as int;
            lemma_dec_i64(count);
            let tail = spec_encode_elems(elems);
            assert(e.len() == 3 + ilen + tail.len());
            assert(e[0] == TAG_ARRAY);
            assert forall|k: int| 0 <= k < ilen implies buf[off + 1 + k] == #[trigger] d[k] by {
                assert(e[1 + k] == d[k]);
            }
            assert(e[1 + ilen] == CR);
            assert(e[2 + ilen] == LF);
            lemma_embedded_line(buf, off, d);
            let body = off + 3 + ilen;
            assert(spec_decode_size(buf, off + 1) == Ok::<(int, int), DecodeError>((count, body)));
            assert forall|k: int| 0 <= k < tail.len() implies buf[body + k] == #[trigger] tail[k] by {
                assert(e[3 + ilen + k] == tail[k]);
            }
            assert forall|k: int|
                0 <= k < tail.len() implies buf.subrange(body, body + tail.len() as int)[k]
                == tail[k] by {
                assert(buf[body + k] == tail[k]);
            }
            assert(buf.subrange(body, body + tail.len() as int) =~= tail);
            lemma_decode_elems_of_encoded(buf, body, elems);
        },
    }
}

/// The soundness half for a run of frames: wherever a buffer holds the
/// concatenated encodings of well-formed values at `off`, decoding that many
/// frames returns exactly those values, in order.
pub proof fn lemma_decode_elems_of_encoded(buf: Seq<u8>, off: int, elems: Seq<SpecValue>)
    requires
        spec_wf_elems(elems),
        0 <= off <= buf.len(),
        off + spec_encode_elems(elems).len() <= buf.len(),
        buf.subrange(off, off + spec_encode_elems(elems).len() as int) == spec_encode_elems(elems),
    ensures
        spec_decode_elems(buf, off, elems.len()) == Ok::<(Seq<SpecValue>, int), DecodeError>(
            (elems, off + spec_encode_elems(elems).len()),
        ),
    decreases elems, 1nat,
{
    if elems.len() == 0 {
        assert(elems =~= Seq::<SpecValue>::empty());
    } else {
        lemma_elems_head(elems);
        let first = elems[0];
        let e0 = spec_encode_value(first);
        let rest = elems.skip(1);
        let re = spec_encode_elems(rest);
        let all = spec_encode_elems(elems);
        let n = e0.len() as int;
        lemma_encode_value_len(first);
        assert(all.len() == n + re.len());
        assert forall|k: int| 0 <= k < all.len() implies buf[off + k] == all[k] by {
            assert(buf.subrange(off, off + all.len() as int)[k] == buf[off + k]);
        }
        assert forall|k: int|
            0 <= k < n implies buf.subrange(off, off + n)[k] == #[trigger] e0[k] by {
            assert(all[k] == e0[k]);
            assert(buf[off + k] == all[k]);
        }
        assert(buf.subrange(off, off + n) =~= e0);
        lemma_decode_of_encoded(buf, off, first);
        assert forall|k: int|
            0 <= k < re.len() implies buf.subrange(off + n, off + n + re.len() as int)[k]
            == #[trigger] re[k] by {
            assert(all[n + k] == re[k]);
            assert(buf[off + n + k] == all[n + k]);
        }
        assert(buf.subrange(off + n, off + n + re.len() as int) =~= re);
        lemma_decode_elems_of_encoded(buf, off + n, rest);
        assert((elems.len() - 1) as nat == rest.len());
        assert(seq![first] + rest =~= elems);
        assert(spec_decode_elems(buf, off, elems.len()) == Ok::<(Seq<SpecValue>, int), DecodeError>(
            (elems, off + all.len()),
        ));
    }
}

/// The models a well-behaved server echoes back for a command's arguments:
/// one present bulk string per argument, in argument order.
pub open spec fn spec_bulk_models(args: Seq<Seq<u8>>) -> Seq<SpecValue> {
    Seq::new(args.len(), |i: int| SpecValue::BulkString(Some(args[i])))
}

/// The bulk-string models of the arguments encode as the arguments' frames,
/// and are well formed when every argument's length fits a size line.
pub proof fn lemma_bulk_models(args: Seq<Seq<u8>>)
    ensures
        spec_bulk_models(args).len() == args.len(),
        spec_encode_elems(spec_bulk_models(args)) == spec_encode_bulks(args),
        (forall|i: int| 0 <= i < args.len() ==> (#[trigger] args[i]).len() <= i64::MAX)
            ==> spec_wf_elems(spec_bulk_models(args)),
    decreases args.len(),
{
    let m = spec_bulk_models(args);
    if args.len() == 0 {
        assert(m =~= Seq::<SpecValue>::empty());
    } else {
        lemma_bulk_models(args.drop_last());
        assert(m.drop_last() =~= spec_bulk_models(args.drop_last()));
        assert(m.last() == SpecValue::BulkString(Some(args.last())));
        assert(spec_dec_i64(args.last().len() as int) == dec_digits(args.last().len()));
        assert(spec_encode_value(m.last()) == spec_encode_bulk(args.last()));
        if forall|i: int| 0 <= i < args.len() ==> (#[trigger] args[i]).len() <= i64::MAX {
            assert forall|i: int|
                0 <= i < args.drop_last().len() implies (#[trigger] args.drop_last()[i]).len()
                <= i64::MAX by {
                assert(args.drop_last()[i] == args[i]);
            }
            assert(args.last() == args[args.len() - 1]);
            assert(spec_wf(m.last()));
        }
    }
}

/// Round trip: a command's request frame, decoded against a server that
/// echoes the arguments back as an array of bulk strings, denotes exactly
/// the original arguments, in order — here stated directly of the request
/// frame itself, which is that echoed reply. Argument counts and lengths
/// must fit a signed 64-bit size line; beyond that the decoder would reject
/// the size header that the encoder wrote.
pub proof fn lemma_command_round_trip(args: Seq<Seq<u8>>)
    requires
        args.len() >= 1,
        args.len() <= i64::MAX,
        forall|i: int| 0 <= i < args.len() ==> (#[trigger] args[i]).len() <= i64::MAX,
    ensures
        spec_decode(spec_encode_command(args), 0) == Ok::<(SpecValue, int), DecodeError>(
            (
                SpecValue::Arrays(Some(spec_bulk_models(args))),
                spec_encode_command(args).len() as int,
            ),
        ),
{
    let m = spec_bulk_models(args);
    lemma_bulk_models(args);
    let v = SpecValue::Arrays(Some(m));
    assert(spec_dec_i64(m.len() as int) == dec_digits(args.len()));
    assert(spec_encode_value(v) == spec_encode_command(args));
    let buf = spec_encode_command(args);
    assert(buf.subrange(0, buf.len() as int) =~= buf);
    lemma_decode_of_encoded(buf, 0, v);
}

/// For every signed 64-bit integer, the bytes `:`, its decimal rendering
/// and a terminator decode to exactly that integer.
pub proof fn lemma_integer_round_trip(n: int)
    requires
        i64::MIN <= n <= i64::MAX,
    ensures
        spec_decode(seq![TAG_INTEGER] + spec_dec_i64(n) + seq![CR, LF], 0) == Ok::<
            (SpecValue, int),
            DecodeError,
        >((SpecValue::Integers(n), 3 + spec_dec_i64(n).len() as int)),
{
    let v = SpecValue::Integers(n);
    let buf = spec_encode_value(v);
    assert(buf.subrange(0, buf.len() as int) =~= buf);
    lemma_decode_of_encoded(buf, 0, v);
}

/// An encoded array decodes to an array whose element order matches the
/// bytes' left-to-right order, whatever the elements and however deeply
/// they nest.
pub proof fn lemma_array_round_trip(elems: Seq<SpecValue>)
    requires
        elems.len() <= i64::MAX,
        spec_wf_elems(elems),
    ensures
        spec_decode(spec_encode_value(SpecValue::Arrays(Some(elems))), 0) == Ok::<
            (SpecValue, int),
            DecodeError,
        >(
            (
                SpecValue::Arrays(Some(elems)),
                spec_encode_value(SpecValue::Arrays(Some(elems))).len() as int,
            ),
        ),
{
    let v = SpecValue::Arrays(Some(elems));
    let buf = spec_encode_value(v);
    assert(buf.subrange(0, buf.len() as int) =~= buf);
    lemma_decode_of_encoded(buf, 0, v);
}

/// A bulk-string frame truncated anywhere before its end decodes to a
/// recoverable error, never a crash: `IncompleteFrame` once the declared
/// length line is complete, `UnexpectedEndOfBuffer` while it is not.
pub proof fn lemma_bulk_truncation(s: Seq<u8>, cut: int)
    requires
        s.len() <= i64::MAX,
        0 <= cut < spec_encode_bulk(s).len(),
    ensures
        ({
            let header = 3 + dec_digits(s.len()).len() as int;
            spec_decode(spec_encode_bulk(s).take(cut), 0) == Err::<(SpecValue, int), DecodeError>(
                if cut >= header {
                    DecodeError::IncompleteFrame
                } else {
                    DecodeError::UnexpectedEndOfBuffer
                },
            )
        }),
{
    let full = spec_encode_bulk(s);
    let buf = full.take(cut);
    let slen = s.len() as int;
    let d = dec_digits(s.len());
    let ilen = d.len() as int;
    let header = 3 + ilen;
    lemma_dec_i64(slen);
    assert(spec_dec_i64(slen) == d);
    assert(full.len() == 5 + ilen + slen);
    assert forall|k: int| 0 <= k < cut implies buf[k] == full[k] by {}
    if cut == 0 {
        assert(buf.len() == 0);
    } else if cut < header {
        assert(buf[0] == TAG_BULK) by {
            assert(full[0] == TAG_BULK);
        }
        assert forall|k: int| 1 <= k implies !crlf_at(buf, k) by {
            if k + 2 <= cut {
                assert(k < 1 + ilen);
                assert(buf[k] == full[k]);
                assert(full[1 + (k - 1)] == d[k - 1]);
                assert(spec_dec_i64(slen)[k - 1] != CR);
            }
        }
        lemma_find_crlf_none(buf, 1);
    } else {
        assert(buf[0] == TAG_BULK) by {
            assert(full[0] == TAG_BULK);
        }
        assert forall|k: int| 0 <= k < ilen implies buf[1 + k] == #[trigger] d[k] by {
            assert(full[1 + k] == d[k]);
        }
        assert(buf[1 + ilen] == CR) by {
            assert(full[1 + ilen] == CR);
        }
        assert(buf[2 + ilen] == LF) by {
            assert(full[2 + ilen] == LF);
        }
        lemma_embedded_line(buf, 0, d);
        assert(spec_decode_size(buf, 1) == Ok::<(int, int), DecodeError>((slen, header)));
        assert(header + slen + 2 == full.len() > buf.len());
    }
}

/// Bytes that begin with an unrecognized tag decode to exactly the
/// unknown-tag error.
pub proof fn lemma_unknown_tag(buf: Seq<u8>)
    requires
        buf.len() > 0,
        buf[0] != TAG_SIMPLE,
        buf[0] != TAG_ERROR,
        buf[0] != TAG_INTEGER,
        buf[0] != TAG_BULK,
        buf[0] != TAG_ARRAY,
    ensures
        spec_decode(buf, 0) == Err::<(SpecValue, int), DecodeError>(DecodeError::UnknownTypeTag),
{
}

/// An empty buffer decodes to the recoverable end-of-buffer error, never a
/// panic.
pub proof fn lemma_empty_buffer(buf: Seq<u8>)
    requires
        buf.len() == 0,
    ensures
        spec_decode(buf, 0) == Err::<(SpecValue, int), DecodeError>(
            DecodeError::UnexpectedEndOfBuffer,
        ),
{
}

} // verus!
