//! Decimal text of integers.

use vstd::prelude::*;
use crate::ascii::is_digit;

verus! {

/// The ASCII digit for `d`, for `0 <= d <= 9`.
pub open spec fn digit_byte(d: int) -> u8 {
    (0x30 + d) as u8
}

/// The value of the ASCII digit `b`.
pub open spec fn digit_value(b: u8) -> int {
    b - 0x30
}

/// The digits of `n` in base ten, most significant first, without leading zeros;
/// the single digit `0` for zero.
pub open spec fn digits_text(n: nat) -> Seq<u8>
    decreases n,
{
    if n < 10 {
        seq![digit_byte(n as int)]
    } else {
        digits_text(n / 10).push(digit_byte((n % 10) as int))
    }
}

/// The decimal text of `v`: a minus sign if `v` is negative, then the digits of its magnitude.
pub open spec fn decimal_text(v: int) -> Seq<u8> {
    if v < 0 {
        seq!['-' as u8] + digits_text((-v) as nat)
    } else {
        digits_text(v as nat)
    }
}

/// The number that the digits `s` denote in base ten; zero for no digits.
pub open spec fn digits_value(s: Seq<u8>) -> nat
    decreases s.len(),
{
    if s.len() == 0 {
        0
    } else {
        (digits_value(s.drop_last()) * 10 + digit_value(s.last())) as nat
    }
}

/// The number that `s` denotes, where `s` is digits behind an optional sign.
pub open spec fn signed_value(s: Seq<u8>) -> int {
    if s.len() > 0 && s[0] == '-' as u8 {
        -(digits_value(s.skip(1)) as int)
    } else if s.len() > 0 && s[0] == '+' as u8 {
        digits_value(s.skip(1)) as int
    } else {
        digits_value(s) as int
    }
}

/// Whether every byte of `s` is a digit.
pub open spec fn all_digits(s: Seq<u8>) -> bool {
    forall|i: int| 0 <= i < s.len() ==> is_digit(#[trigger] s[i])
}

/// The digits of a number are digits, at least one, and begin with `0` only for zero.
pub proof fn lemma_digits_text_shape(n: nat)
    ensures
        digits_text(n).len() >= 1,
        all_digits(digits_text(n)),
        (digits_text(n)[0] == '0' as u8) <==> n == 0,
        n == 0 ==> digits_text(n).len() == 1,
    decreases n,
{
    if n >= 10 {
        lemma_digits_text_shape(n / 10);
    }
}

/// Reading the digits of a number gives the number back.
pub proof fn lemma_digits_value_of_text(n: nat)
    ensures
        digits_value(digits_text(n)) == n,
    decreases n,
{
    if n < 10 {
        let s = digits_text(n);
        assert(s.drop_last() =~= Seq::<u8>::empty());
        assert(digits_value(s.drop_last()) == 0);
    } else {
        lemma_digits_value_of_text(n / 10);
        let s = digits_text(n);
        assert(s.drop_last() =~= digits_text(n / 10));
    }
}

/// A prefix of a digit string denotes no more than the whole.
pub proof fn lemma_digits_value_prefix(s: Seq<u8>, k: int)
    requires
        0 <= k <= s.len(),
        all_digits(s),
    ensures
        digits_value(s.take(k)) <= digits_value(s),
    decreases s.len() - k,
{
    if k < s.len() {
        lemma_digits_value_prefix(s, k + 1);
        assert(s.take(k + 1).drop_last() =~= s.take(k));
        assert(is_digit(s[k]));
    } else {
        assert(s.take(k) =~= s);
    }
}

/// The decimal text of an integer, as `itoa::Buffer::format` prints it.
///
/// Trusted: the call prints the digits of the magnitude in base ten, most
/// significant first and without leading zeros (`0` for zero), behind a
/// minus sign where the integer is negative, and nothing else.
#[verifier::external_body]
pub(crate) fn format_integer(v: i128) -> (text: Vec<u8>)
    ensures
        text@ == decimal_text(v as int),
{
    itoa::Buffer::new().format(v).as_bytes().to_vec()
}

} // verus!
