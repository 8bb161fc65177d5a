//! Decimal text: the wire grammar writes lengths, counts and integer replies
//! as an optional `-` followed by decimal digits. This module gives the
//! digit strings a mathematical value, parses them into signed 64-bit
//! integers with overflow detected rather than wrapped, and renders unsigned
//! values back into canonical digit strings.

use vstd::prelude::*;

verus! {

/// The byte value of the digit `0`.
pub const DIGIT_ZERO: u8 = 48;

/// The byte value of the minus sign.
pub const MINUS: u8 = 45;

/// Is `b` the byte of a decimal digit?
pub open spec fn is_digit(b: u8) -> bool {
    DIGIT_ZERO <= b <= 57
}

/// Is every byte of `s` a decimal digit?
pub open spec fn all_digits(s: Seq<u8>) -> bool {
    forall|i: int| 0 <= i < s.len() ==> is_digit(#[trigger] s[i])
}

/// The value of a digit string read most-significant first; 0 for the
/// empty string. Meaningful only when `all_digits(s)`.
pub open spec fn digits_val(s: Seq<u8>) -> int
    decreases s.len(),
{
    if s.len() == 0 {
        0
    } else {
        digits_val(s.drop_last()) * 10 + (s.last() - DIGIT_ZERO)
    }
}

/// What a line's interior denotes as a signed 64-bit integer: an optional
/// leading `-`, then one or more digits, whose value fits in the type.
/// Anything else — empty, a stray byte, a bare `-`, a value out of range —
/// denotes nothing.
pub open spec fn spec_parse_i64(s: Seq<u8>) -> Option<int> {
    if s.len() > 0 && s[0] == MINUS {
        let mag = s.subrange(1, s.len() as int);
        if mag.len() > 0 && all_digits(mag) && -digits_val(mag) >= i64::MIN {
            Some(-digits_val(mag))
        } else {
            None
        }
    } else {
        if s.len() > 0 && all_digits(s) && digits_val(s) <= i64::MAX {
            Some(digits_val(s))
        } else {
            None
        }
    }
}

/// The canonical decimal rendering of `n`: no sign, no leading zero except
/// for `n == 0` itself.
pub open spec fn dec_digits(n: nat) -> Seq<u8>
    decreases n,
{
    if n < 10 {
        seq![(DIGIT_ZERO + n) as u8]
    } else {
        dec_digits(n / 10).push((DIGIT_ZERO + n % 10) as u8)
    }
}

/// A digit string's value is never negative.
pub proof fn lemma_digits_val_nonneg(s: Seq<u8>)
    requires
        all_digits(s),
    ensures
        digits_val(s) >= 0,
    decreases s.len(),
{
    if s.len() > 0 {
        lemma_digits_val_nonneg(s.drop_last());
    }
}

/// Dropping trailing digits never increases a digit string's value.
pub proof fn lemma_digits_val_prefix(s: Seq<u8>, i: int)
    requires
        all_digits(s),
        0 <= i <= s.len(),
    ensures
        digits_val(s.subrange(0, i)) <= digits_val(s),
    decreases s.len() - i,
{
    if i == s.len() {
        assert(s.subrange(0, i) =~= s);
    } else {
        lemma_digits_val_prefix(s, i + 1);
        let t = s.subrange(0, i + 1);
        assert(t.drop_last() =~= s.subrange(0, i));
        lemma_digits_val_nonneg(s.subrange(0, i));
    }
}

/// Appending one digit multiplies the value by ten and adds the digit.
pub proof fn lemma_digits_val_push(s: Seq<u8>, d: u8)
    ensures
        digits_val(s.push(d)) == digits_val(s) * 10 + (d - DIGIT_ZERO),
{
    assert(s.push(d).drop_last() =~= s);
    assert(s.push(d).last() == d);
}

/// The canonical rendering consists of digits and reads back to `n`.
pub proof fn lemma_dec_digits(n: nat)
    ensures
        dec_digits(n).len() >= 1,
        all_digits(dec_digits(n)),
        digits_val(dec_digits(n)) == n,
    decreases n,
{
    if n < 10 {
        let s = seq![(DIGIT_ZERO + n) as u8];
        assert(dec_digits(n) == s);
        assert(digits_val(s) == digits_val(s.drop_last()) * 10 + (s.last() - DIGIT_ZERO));
        assert(s.drop_last().len() == 0);
        assert(digits_val(s.drop_last()) == 0);
    } else {
        lemma_dec_digits(n / 10);
        vstd::arithmetic::div_mod::lemma_fundamental_div_mod(n as int, 10);
        let d = dec_digits(n / 10);
        let b = (DIGIT_ZERO + n % 10) as u8;
        lemma_digits_val_push(d, b);
        assert(dec_digits(n) == d.push(b));
        assert(forall|i: int| 0 <= i < d.push(b).len() ==> is_digit(#[trigger] d.push(b)[i]));
    }
}

/// Parse the bytes of `buf` between `start` (inclusive) and `end`
/// (exclusive) as a signed 64-bit integer, returning `None` exactly where
/// the grammar or the value's range is violated.
#[verifier::loop_isolation(false)]
pub fn parse_i64(buf: &Vec<u8>, start: usize, end: usize) -> (r: Option<i64>)
    requires
        start <= end <= buf@.len(),
    ensures
        (match r {
            Some(v) => spec_parse_i64(buf@.subrange(start as int, end as int)) == Some(v as int),
            None => spec_parse_i64(buf@.subrange(start as int, end as int)) is None,
        }),
{
    let ghost s = buf@.subrange(start as int, end as int);
    if start == end {
        return None;
    }
    let neg: bool = buf[start] == MINUS;
    let dstart: usize = if neg { start + 1 } else { start };
    let ghost mag = buf@.subrange(dstart as int, end as int);
    proof {
        if neg {
            assert(mag =~= s.subrange(1, s.len() as int));
        } else {
            assert(mag =~= s);
        }
    }
    if dstart == end {
        // a bare minus sign, or nothing after the sign position
        return None;
    }
    // The largest magnitude that still fits: one more for the negative side.
    let limit: u64 = if neg { 9223372036854775808 } else { 9223372036854775807 };
    let mut acc: u64 = 0;
    let mut i: usize = dstart;
    while i < end
        invariant
            dstart <= i <= end <= buf@.len(),
            dstart < end,
            mag == buf@.subrange(dstart as int, end as int),
            all_digits(buf@.subrange(dstart as int, i as int)),
            acc == digits_val(buf@.subrange(dstart as int, i as int)),
            acc <= limit,
            limit == 9223372036854775808u64 || limit == 9223372036854775807u64,
        decreases end - i,
    {
        let b = buf[i];
        let ghost pre = buf@.subrange(dstart as int, i as int);
        let ghost cur = buf@.subrange(dstart as int, i + 1);
        proof {
            assert(cur.drop_last() =~= pre);
        }
        if !(DIGIT_ZERO <= b && b <= 57) {
            // a non-digit byte: the whole interior denotes nothing
            assert(!all_digits(mag)) by {
                assert(mag[i - dstart] == b);
            }
            return None;
        }
        let d: u64 = (b - DIGIT_ZERO) as u64;
        if acc > limit / 10 || (acc == limit / 10 && d > limit % 10) {
            // the magnitude seen so far already exceeds the range
            assert(acc * 10 + d > limit);
            assert(digits_val(cur) > limit);
            proof {
                if all_digits(mag) {
                    lemma_digits_val_prefix(mag, i + 1 - dstart);
                    assert(mag.subrange(0, i + 1 - dstart) =~= cur);
                }
            }
            return None;
        }
        assert(acc * 10 + d <= limit);
        acc = acc * 10 + d;
        i = i + 1;
    }
    proof {
        assert(buf@.subrange(dstart as int, end as int) =~= mag);
    }
    if neg {
        if acc == 9223372036854775808 {
            Some(i64::MIN)
        } else {
            Some(-(acc as i64))
        }
    } else {
        Some(acc as i64)
    }
}

/// Render `n` as canonical decimal digits.
pub fn u64_to_dec(n: u64) -> (r: Vec<u8>)
    ensures
        r@ == dec_digits(n as nat),
    decreases n,
{
    if n < 10 {
        let mut v: Vec<u8> = Vec::new();
        v.push(DIGIT_ZERO + n as u8);
        v
    } else {
        let mut v = u64_to_dec(n / 10);
        v.push(DIGIT_ZERO + (n % 10) as u8);
        v
    }
}

} // verus!
