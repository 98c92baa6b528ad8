//! Decimal text of small non-negative integers: the shortest string of ASCII
//! digits, most significant first, built without a heap allocation.

use crate::inline_bytes::InlineBytes;
use vstd::prelude::*;

verus! {

/// The byte `'0'`.
pub const ZERO_DIGIT_BYTE: u8 = 48;

/// Ten to the power `n`.
pub open spec fn pow10(n: nat) -> nat
    decreases n,
{
    if n == 0 {
        1
    } else {
        10 * pow10((n - 1) as nat)
    }
}

/// The ASCII digit for `d`, which is below ten.
pub open spec fn digit_byte(d: nat) -> u8 {
    (ZERO_DIGIT_BYTE + d) as u8
}

/// The decimal text of `v`: no leading zero, and `"0"` for zero.
pub open spec fn decimal_digits(v: nat) -> Seq<u8>
    decreases v,
{
    if v < 10 {
        seq![digit_byte(v)]
    } else {
        decimal_digits(v / 10).push(digit_byte(v % 10))
    }
}

/// Whether every byte of `text` is an ASCII digit.
pub open spec fn all_digits(text: Seq<u8>) -> bool {
    forall|i: int| 0 <= i < text.len() ==> ZERO_DIGIT_BYTE <= #[trigger] text[i] <= ZERO_DIGIT_BYTE + 9
}

/// The number that a string of ASCII digits stands for, read most
/// significant digit first.
pub open spec fn decimal_value(text: Seq<u8>) -> nat
    decreases text.len(),
{
    if text.len() == 0 {
        0
    } else {
        decimal_value(text.drop_last()) * 10 + (text.last() - ZERO_DIGIT_BYTE) as nat
    }
}

/// Reading back the decimal text of a number gives the number. The text is
/// never empty, holds digits only, and starts with `'0'` for zero alone, whose
/// text is exactly `"0"`.
pub proof fn lemma_decimal_round_trip(v: nat)
    ensures
        decimal_value(decimal_digits(v)) == v,
        decimal_digits(v).len() >= 1,
        all_digits(decimal_digits(v)),
        v == 0 ==> decimal_digits(v) == seq![ZERO_DIGIT_BYTE],
        v != 0 ==> decimal_digits(v)[0] != ZERO_DIGIT_BYTE,
    decreases v,
{
    if v < 10 {
        let text = decimal_digits(v);
        assert(text.drop_last() =~= Seq::<u8>::empty());
        assert(decimal_value(text.drop_last()) == 0);
    } else {
        lemma_decimal_round_trip(v / 10);
        let head = decimal_digits(v / 10);
        let text = decimal_digits(v);
        assert(text.drop_last() =~= head);
        assert(text.last() == digit_byte(v % 10));
        assert(text[0] == head[0]);
    }
}

/// A number below ten to the power `max_digits` has at most `max_digits`
/// digits.
pub proof fn lemma_decimal_len(v: nat, max_digits: nat)
    requires
        max_digits >= 1,
        v < pow10(max_digits),
    ensures
        1 <= decimal_digits(v).len() <= max_digits,
    decreases v,
{
    if v >= 10 {
        assert(pow10(1) == 10) by {
            assert(pow10(0) == 1);
        }
        assert(max_digits >= 2);
        lemma_decimal_len(v / 10, (max_digits - 1) as nat);
    }
}

/// Puts the decimal text of `val` in front of what `out` holds. `val` has
/// at most `max_digits` digits; the digits are produced last to first and
/// production stops at the first zero quotient, so none is a padding zero.
pub fn push_front_decimal(out: &mut InlineBytes, val: u32, max_digits: u32)
    requires
        max_digits >= 1,
        val < pow10(max_digits as nat),
    ensures
        final(out)@ == decimal_digits(val as nat) + old(out)@,
{
    let mut rest: u32 = val;
    let mut i: u32 = 0;
    while i < max_digits
        invariant
            i <= max_digits,
            rest < pow10((max_digits - i) as nat),
            i == 0 ==> rest == val && out@ == old(out)@,
            i > 0 ==> rest > 0,
            decimal_digits(val as nat) + old(out)@ == if i == 0 {
                decimal_digits(val as nat) + out@
            } else {
                decimal_digits(rest as nat) + out@
            },
        decreases max_digits - i,
    {
        let ghost before = out@;
        let ghost whole = rest;
        out.push_front((rest % 10) as u8 + ZERO_DIGIT_BYTE);
        rest = rest / 10;
        i = i + 1;
        proof {
            let d = digit_byte((whole % 10) as nat);
            if whole < 10 {
                assert(decimal_digits(whole as nat) + before =~= seq![d] + before);
            } else {
                assert(decimal_digits(whole as nat) + before =~= decimal_digits(rest as nat) + (
                seq![d] + before));
            }
        }
        if rest == 0 {
            return ;
        }
    }
}

} // verus!
