//! The encoder: a command — a non-empty ordered list of byte-string
//! arguments — becomes one array frame whose elements are bulk-string
//! frames, one per argument, in argument order. Lengths are always computed
//! from the arguments themselves, and arguments may contain any byte value,
//! including embedded line terminators.

use vstd::prelude::*;

use crate::decode::{CR, LF, TAG_ARRAY, TAG_BULK};
use crate::errors::EncodeError;
use crate::num::{
    dec_digits, is_digit, lemma_dec_digits, spec_parse_i64, u64_to_dec, MINUS,
};

verus! {

/// The decimal rendering of a signed value: a minus sign for negative
/// values, then the canonical digits of the magnitude.
pub open spec fn spec_dec_i64(n: int) -> Seq<u8> {
    if n < 0 {
        seq![MINUS] + dec_digits((-n) as nat)
    } else {
        dec_digits(n as nat)
    }
}

/// The signed rendering parses back to the value it was made from, and
/// contains no line-terminator byte.
pub proof fn lemma_dec_i64(n: int)
    requires
        i64::MIN <= n <= i64::MAX,
    ensures
        spec_parse_i64(spec_dec_i64(n)) == Some(n),
        spec_dec_i64(n).len() >= 1,
        forall|i: int|
            0 <= i < spec_dec_i64(n).len() ==> #[trigger] spec_dec_i64(n)[i] != CR
                && spec_dec_i64(n)[i] != LF,
{
    let s = spec_dec_i64(n);
    if n < 0 {
        lemma_dec_digits((-n) as nat);
        let mag = dec_digits((-n) as nat);
        assert(s[0] == MINUS);
        assert(s.subrange(1, s.len() as int) =~= mag);
        assert(spec_parse_i64(s) == Some(n));
        assert forall|i: int| 0 <= i < s.len() implies #[trigger] s[i] != CR && s[i] != LF by {
            if i >= 1 {
                assert(is_digit(mag[i - 1]));
            }
        }
    } else {
        lemma_dec_digits(n as nat);
        assert(s[0] != MINUS) by {
            assert(is_digit(s[0]));
        }
        assert forall|i: int| 0 <= i < s.len() implies #[trigger] s[i] != CR && s[i] != LF by {
            assert(is_digit(s[i]));
        }
    }
}

/// One encoded bulk-string frame: tag, the argument's byte length in
/// decimal, a terminator, the argument's exact bytes, a terminator.
pub open spec fn spec_encode_bulk(arg: Seq<u8>) -> Seq<u8> {
    seq![TAG_BULK] + dec_digits(arg.len()) + seq![CR, LF] + arg + seq![CR, LF]
}

/// The encoded bulk-string frames of the arguments, concatenated in order.
pub open spec fn spec_encode_bulks(args: Seq<Seq<u8>>) -> Seq<u8>
    decreases args.len(),
{
    if args.len() == 0 {
        Seq::empty()
    } else {
        spec_encode_bulks(args.drop_last()) + spec_encode_bulk(args.last())
    }
}

/// One more argument extends the concatenation by one more frame.
pub proof fn lemma_encode_bulks_take(args: Seq<Seq<u8>>, i: int)
    requires
        0 <= i < args.len(),
    ensures
        spec_encode_bulks(args.take(i + 1)) == spec_encode_bulks(args.take(i)) + spec_encode_bulk(
            args[i],
        ),
{
    assert(args.take(i + 1).drop_last() =~= args.take(i));
    assert(args.take(i + 1).last() == args[i]);
}

/// One encoded command: an array header carrying the argument count, then
/// the arguments' bulk-string frames in argument order.
pub open spec fn spec_encode_command(args: Seq<Seq<u8>>) -> Seq<u8> {
    seq![TAG_ARRAY] + dec_digits(args.len()) + seq![CR, LF] + spec_encode_bulks(args)
}

/// Encode a command. The argument list must be non-empty; every other
/// argument value is accepted and copied byte for byte.
#[verifier::loop_isolation(false)]
pub fn create_command(args: &Vec<Vec<u8>>) -> (r: Result<Vec<u8>, EncodeError>)
    ensures
        (match r {
            Ok(out) => args@.len() > 0 && out@ == spec_encode_command(args.deep_view()),
            Err(e) => args@.len() == 0 && e == EncodeError::EmptyCommand,
        }),
{
    if args.len() == 0 {
        return Err(EncodeError::EmptyCommand);
    }
    let ghost dv = args.deep_view();
    let mut out: Vec<u8> = Vec::new();
    out.push(TAG_ARRAY);
    let mut count_digits = u64_to_dec(args.len() as u64);
    out.append(&mut count_digits);
    out.push(CR);
    out.push(LF);
    let ghost header = seq![TAG_ARRAY] + dec_digits(args@.len() as nat) + seq![CR, LF];
    proof {
        assert(out@ =~= header + spec_encode_bulks(dv.take(0)));
    }
    let mut i: usize = 0;
    while i < args.len()
        invariant
            i <= args@.len(),
            dv == args.deep_view(),
            out@ == header + spec_encode_bulks(dv.take(i as int)),
        decreases args@.len() - i,
    {
        let arg: &Vec<u8> = &args[i];
        proof {
            assert(dv[i as int] =~= arg@);
        }
        out.push(TAG_BULK);
        let mut len_digits = u64_to_dec(arg.len() as u64);
        out.append(&mut len_digits);
        out.push(CR);
        out.push(LF);
        let mut payload = crate::decode::copy_range(arg, 0, arg.len());
        proof {
            assert(payload@ =~= arg@);
        }
        out.append(&mut payload);
        out.push(CR);
        out.push(LF);
        proof {
            lemma_encode_bulks_take(dv, i as int);
            assert(out@ =~= header + (spec_encode_bulks(dv.take(i as int)) + spec_encode_bulk(
                dv[i as int],
            )));
        }
        i = i + 1;
    }
    proof {
        assert(dv.take(args@.len() as int) =~= dv);
    }
    Ok(out)
}

} // verus!
