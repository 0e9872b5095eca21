//! Literal parsers.
//!
//! Each parser looks at the head of the input and either hands back the
//! unconsumed rest together with the value it read, or fails and has
//! consumed nothing. What a parser accepts is given by a spec function on
//! the bytes of the input: the number of bytes consumed and the value, or
//! the error.

use std::borrow::Cow;
use vstd::prelude::*;
use vstd::string::{StringExecFns, StringSliceAdditionalSpecFns};
use vstd::utf8::{encode_utf8, is_char_boundary, valid_utf8};
use crate::ascii::{
    ascii_bytes, bare_run, byte_is_sign, byte_lower, count_bare, count_digits, digit_run,
    false_bytes, has_word, has_word_no_case, is_digit, is_sign, lemma_digit_run, lower,
    starts_with, starts_with_no_case, true_bytes, word_false, word_true, BACKSLASH, DOUBLE_QUOTE,
    SINGLE_QUOTE,
};
use crate::decimal::{all_digits, digit_value, digits_value, lemma_digits_value_prefix, signed_value};
use crate::error::ParseError;
use crate::utf8::{
    lemma_ascii_boundaries, lemma_boundary, lemma_encode_utf8_concat, lemma_literals_keep_utf8,
    lemma_str_keeps_utf8, piece, text_from,
};

verus! {

/// `r` is the outcome `expected` on `input`: on success the rest is the
/// input without its first `expected.0` bytes and the value is
/// `expected.1`; on failure the error is the expected one.
pub open spec fn is_parse_of<T>(
    r: Result<(&str, T), ParseError>,
    input: &str,
    expected: Result<(int, T), ParseError>,
) -> bool {
    match r {
        Ok((rest, value)) => {
            let consumed = input.spec_bytes().len() - rest.spec_bytes().len();
            &&& 0 <= consumed
            &&& rest.spec_bytes() == input.spec_bytes().skip(consumed)
            &&& expected == Ok::<(int, T), ParseError>((consumed, value))
        },
        Err(e) => expected == Err::<(int, T), ParseError>(e),
    }
}

/// A string literal as the grammar reads it.
pub struct StrLiteral {
    /// The number of bytes that the literal takes, quotes included.
    pub consumed: int,
    /// The string that it denotes, escapes undone.
    pub content: Seq<u8>,
    /// Whether the literal holds an escape, so that its content is not a
    /// span of the input.
    pub escaped: bool,
}

/// What stands between the quotes.
///
/// `s` is the input behind the opening quote. Read from index `from` on, a
/// backslash makes the byte after it part of the content, whatever that byte
/// is; the first `quote` that is not escaped in this way ends the string.
/// The result is the index of that closing quote and the content from `from`
/// up to it; `None` if the input ends first.
pub open spec fn escaped_body(s: Seq<u8>, quote: u8, from: int) -> Option<(int, Seq<u8>)>
    decreases s.len() - from,
{
    if from < 0 || from >= s.len() {
        None
    } else if s[from] == BACKSLASH {
        if from + 1 >= s.len() {
            None
        } else {
            match escaped_body(s, quote, from + 2) {
                Some((end, rest)) => Some((end, seq![s[from + 1]] + rest)),
                None => None,
            }
        }
    } else if s[from] == quote {
        Some((from, Seq::<u8>::empty()))
    } else {
        match escaped_body(s, quote, from + 1) {
            Some((end, rest)) => Some((end, seq![s[from]] + rest)),
            None => None,
        }
    }
}

/// Whether a backslash stands in `s` at an index from `from` up to `to`.
pub open spec fn has_backslash(s: Seq<u8>, from: int, to: int) -> bool {
    exists|i: int| from <= i < to && 0 <= i < s.len() && #[trigger] s[i] == BACKSLASH
}

/// A string in quotes: `s` begins with the opening quote.
pub open spec fn quoted_literal(s: Seq<u8>, quote: u8) -> Result<StrLiteral, ParseError> {
    match escaped_body(s.skip(1), quote, 0) {
        Some((end, content)) => Ok(
            StrLiteral { consumed: end + 2, content, escaped: has_backslash(s.skip(1), 0, end) },
        ),
        None => Err(ParseError::UnterminatedString),
    }
}

/// `string := '"' escaped('"') '"' | "'" escaped("'") "'" | bare`, where
/// `bare` is one or more letters, digits and `_ - . +`.
pub open spec fn str_literal(s: Seq<u8>) -> Result<StrLiteral, ParseError> {
    if s.len() > 0 && s[0] == DOUBLE_QUOTE {
        quoted_literal(s, DOUBLE_QUOTE)
    } else if s.len() > 0 && s[0] == SINGLE_QUOTE {
        quoted_literal(s, SINGLE_QUOTE)
    } else if bare_run(s, 0) > 0 {
        Ok(
            StrLiteral {
                consumed: bare_run(s, 0) as int,
                content: s.take(bare_run(s, 0) as int),
                escaped: false,
            },
        )
    } else {
        Err(ParseError::NoMatch)
    }
}

/// The content so far in front of what the rest of the scan gives.
pub open spec fn prepend(done: Seq<u8>, rest: Option<(int, Seq<u8>)>) -> Option<(int, Seq<u8>)> {
    match rest {
        Some((end, content)) => Some((end, done + content)),
        None => None,
    }
}

/// Reads up to the closing `surround`, undoing escapes.
///
/// While no backslash has been seen nothing is copied and the content is
/// handed back as a span of the input; from the first backslash on the
/// content is gathered in a buffer of its own: the run in front of each
/// backslash, and behind it the run that begins with the escaped character.
fn parse_escaped<'a>(input: &'a str, surround: u8) -> (r: Result<
    (&'a str, Cow<'a, str>),
    ParseError,
>)
    requires
        surround <= 0x7f,
    ensures
        match r {
            Ok((rest, text)) => {
                &&& escaped_body(input.spec_bytes(), surround, 0) matches Some((end, content))
                &&& 0 <= end < input.spec_bytes().len()
                &&& input.spec_bytes()[end] == surround
                &&& rest.spec_bytes() == input.spec_bytes().skip(end)
                &&& encode_utf8(text@) == content
                &&& (text is Owned) == has_backslash(input.spec_bytes(), 0, end)
                &&& (text is Borrowed) ==> content == input.spec_bytes().take(end)
            },
            Err(e) => e == ParseError::UnterminatedString && escaped_body(
                input.spec_bytes(),
                surround,
                0,
            ) is None,
        },
{
    broadcast use vstd::utf8::encode_utf8_valid_utf8;

    let bytes = input.as_bytes();
    let ghost s = input.spec_bytes();
    let mut owned = String::new();
    let mut start: usize = 0;
    let mut dirty = false;
    let mut i: usize = 0;
    proof {
        assert(encode_utf8(owned@) + s.subrange(0, 0) =~= Seq::<u8>::empty());
        match escaped_body(s, surround, 0) {
            Some((end, content)) => {
                assert(Seq::<u8>::empty() + content =~= content);
            },
            None => {},
        }
    }
    while i < bytes.len()
        invariant
            surround <= 0x7f,
            s == input.spec_bytes(),
            bytes@ == s,
            valid_utf8(s),
            start <= i <= s.len(),
            is_char_boundary(s, start as int),
            !dirty ==> start == 0 && owned@.len() == 0 && forall|j: int|
                0 <= j < i ==> #[trigger] s[j] != BACKSLASH,
            dirty ==> has_backslash(s, 0, i as int),
            escaped_body(s, surround, 0) == prepend(
                encode_utf8(owned@) + s.subrange(start as int, i as int),
                escaped_body(s, surround, i as int),
            ),
        decreases s.len() - i,
    {
        let c = bytes[i];
        let ghost done = encode_utf8(owned@) + s.subrange(start as int, i as int);
        if c == BACKSLASH {
            proof {
                lemma_ascii_boundaries(s, i as int);
            }
            let run = piece(input, start, i);
            proof {
                lemma_encode_utf8_concat(owned@, run@);
            }
            owned.append(run);
            assert(encode_utf8(owned@) =~= done);
            if i + 1 >= bytes.len() {
                return Err(ParseError::UnterminatedString);
            }
            dirty = true;
            start = i + 1;
            i = i + 2;
            proof {
                assert(s[i - 2] == BACKSLASH);
                assert(has_backslash(s, 0, i as int));
                let tail = escaped_body(s, surround, i as int);
                assert(encode_utf8(owned@) + s.subrange(start as int, i as int) =~= done + seq![
                    s[i - 1],
                ]);
                match tail {
                    Some((end, content)) => {
                        assert((done + seq![s[i - 1]]) + content =~= done + (seq![s[i - 1]]
                            + content));
                    },
                    None => {},
                }
            }
        } else if c == surround {
            proof {
                lemma_ascii_boundaries(s, i as int);
                assert(done + Seq::<u8>::empty() =~= done);
                if has_backslash(s, 0, i as int) && !dirty {
                    let k = choose|k: int|
                        0 <= k < i && 0 <= k < s.len() && #[trigger] s[k] == BACKSLASH;
                    assert(s[k] != BACKSLASH);
                }
            }
            let rest = text_from(input, i);
            if dirty {
                if i > start {
                    let run = piece(input, start, i);
                    proof {
                        lemma_encode_utf8_concat(owned@, run@);
                    }
                    owned.append(run);
                }
                assert(encode_utf8(owned@) =~= done);
                return Ok((rest, Cow::Owned(owned)));
            } else {
                let text = piece(input, 0, i);
                assert(text.spec_bytes() =~= done) by {
                    assert(encode_utf8(owned@) =~= Seq::<u8>::empty());
                }
                assert(s.subrange(0, i as int) =~= s.take(i as int));
                return Ok((rest, Cow::Borrowed(text)));
            }
        } else {
            proof {
                let tail = escaped_body(s, surround, i + 1);
                assert(encode_utf8(owned@) + s.subrange(start as int, i + 1) =~= done + seq![c]);
                match tail {
                    Some((end, content)) => {
                        assert((done + seq![c]) + content =~= done + (seq![c] + content));
                    },
                    None => {},
                }
                if dirty {
                    let k = choose|k: int|
                        0 <= k < i && 0 <= k < s.len() && #[trigger] s[k] == BACKSLASH;
                    assert(has_backslash(s, 0, i + 1));
                }
            }
            i = i + 1;
        }
    }
    Err(ParseError::UnterminatedString)
}

/// Reads a string in quotes; `input` begins with the opening quote.
fn parse_quoted<'a>(input: &'a str, quote: u8) -> (r: Result<(&'a str, Cow<'a, str>), ParseError>)
    requires
        quote <= 0x7f,
        input.spec_bytes().len() > 0,
        input.spec_bytes()[0] == quote,
    ensures
        match r {
            Ok((rest, text)) => {
                &&& quoted_literal(input.spec_bytes(), quote) matches Ok(literal)
                &&& 2 <= literal.consumed <= input.spec_bytes().len()
                &&& rest.spec_bytes() == input.spec_bytes().skip(literal.consumed)
                &&& encode_utf8(text@) == literal.content
                &&& (text is Owned) == literal.escaped
                &&& (text is Borrowed) ==> literal.content == input.spec_bytes().subrange(
                    1,
                    1 + literal.content.len() as int,
                )
            },
            Err(e) => quoted_literal(input.spec_bytes(), quote) == Err::<StrLiteral, ParseError>(
                e,
            ),
        },
{
    broadcast use vstd::utf8::encode_utf8_valid_utf8;

    let ghost s = input.spec_bytes();
    proof {
        lemma_ascii_boundaries(s, 0);
    }
    let body = text_from(input, 1);
    match parse_escaped(body, quote) {
        Ok((rest, text)) => {
            proof {
                let (end, content) = escaped_body(body.spec_bytes(), quote, 0).unwrap();
                assert(rest.spec_bytes()[0] == quote);
                lemma_ascii_boundaries(rest.spec_bytes(), 0);
                assert(rest.spec_bytes().skip(1) =~= s.skip(end + 2));
                assert(body.spec_bytes().take(end) =~= s.subrange(1, end + 1));
            }
            let after = text_from(rest, 1);
            Ok((after, text))
        },
        Err(e) => Err(e),
    }
}

/// Reads an unquoted string: the longest run of letters, digits and
/// `_ - . +` at the head of the input, which must not be empty.
pub fn parse_simple_string<'a>(input: &'a str) -> (r: Result<(&'a str, &'a str), ParseError>)
    ensures
        match r {
            Ok((rest, text)) => {
                &&& 0 < bare_run(input.spec_bytes(), 0) <= input.spec_bytes().len()
                &&& text.spec_bytes() == input.spec_bytes().take(
                    bare_run(input.spec_bytes(), 0) as int,
                )
                &&& rest.spec_bytes() == input.spec_bytes().skip(
                    bare_run(input.spec_bytes(), 0) as int,
                )
            },
            Err(e) => e == ParseError::NoMatch && bare_run(input.spec_bytes(), 0) == 0,
        },
{
    broadcast use vstd::utf8::encode_utf8_valid_utf8;

    let ghost s = input.spec_bytes();
    let n = count_bare(input.as_bytes());
    if n == 0 {
        return Err(ParseError::NoMatch);
    }
    proof {
        lemma_str_keeps_utf8(s);
        lemma_boundary(s, n as int);
        assert(s.subrange(0, n as int) =~= s.take(n as int));
    }
    let text = piece(input, 0, n);
    let rest = text_from(input, n);
    Ok((rest, text))
}

/// Where the content of a string literal begins: behind the opening quote,
/// or at the head of an unquoted string.
pub open spec fn content_start(s: Seq<u8>) -> int {
    if s.len() > 0 && (s[0] == DOUBLE_QUOTE || s[0] == SINGLE_QUOTE) {
        1
    } else {
        0
    }
}

/// Reads a string: in double quotes, in single quotes, or unquoted.
///
/// The content is a span of the input unless the literal holds an escape;
/// only then is it copied.
pub fn parse_str<'a>(input: &'a str) -> (r: Result<(&'a str, Cow<'a, str>), ParseError>)
    ensures
        match r {
            Ok((rest, text)) => {
                &&& str_literal(input.spec_bytes()) matches Ok(literal)
                &&& 0 < literal.consumed <= input.spec_bytes().len()
                &&& rest.spec_bytes() == input.spec_bytes().skip(literal.consumed)
                &&& encode_utf8(text@) == literal.content
                &&& (text is Owned) == literal.escaped
                &&& (text is Borrowed) ==> literal.content == input.spec_bytes().subrange(
                    content_start(input.spec_bytes()),
                    content_start(input.spec_bytes()) + literal.content.len(),
                )
            },
            Err(e) => str_literal(input.spec_bytes()) == Err::<StrLiteral, ParseError>(e),
        },
{
    let bytes = input.as_bytes();
    if bytes.len() > 0 && bytes[0] == DOUBLE_QUOTE {
        parse_quoted(input, DOUBLE_QUOTE)
    } else if bytes.len() > 0 && bytes[0] == SINGLE_QUOTE {
        parse_quoted(input, SINGLE_QUOTE)
    } else {
        match parse_simple_string(input) {
            Ok((rest, text)) => {
                assert(text.spec_bytes() =~= input.spec_bytes().subrange(
                    0,
                    text.spec_bytes().len() as int,
                ));
                Ok((rest, Cow::Borrowed(text)))
            },
            Err(e) => Err(e),
        }
    }
}

/// `bool := "true" | "false"`, in exactly this case.
pub open spec fn bool_literal(s: Seq<u8>) -> Result<(int, bool), ParseError> {
    if starts_with(s, word_true()) {
        Ok((4, true))
    } else if starts_with(s, word_false()) {
        Ok((5, false))
    } else {
        Err(ParseError::NoMatch)
    }
}

/// Reads `true` or `false`.
pub fn parse_bool<'a>(input: &'a str) -> (r: Result<(&'a str, bool), ParseError>)
    ensures
        is_parse_of(r, input, bool_literal(input.spec_bytes())),
{
    broadcast use vstd::utf8::encode_utf8_valid_utf8;

    let bytes = input.as_bytes();
    let (n, value): (usize, bool) = if has_word(bytes, true_bytes()) {
        (4, true)
    } else if has_word(bytes, false_bytes()) {
        (5, false)
    } else {
        return Err(ParseError::NoMatch);
    };
    proof {
        lemma_literals_keep_utf8(input.spec_bytes());
        lemma_boundary(input.spec_bytes(), n as int);
    }
    Ok((text_from(input, n), value))
}

/// The length of the sign at the head of `s`: one or zero.
pub open spec fn sign_len(s: Seq<u8>) -> int {
    if s.len() > 0 && is_sign(s[0]) {
        1
    } else {
        0
    }
}

/// `decimal := ["+"|"-"] ("0" | [1-9] digit*)`: the length of the decimal
/// at the head of `s`. A zero is never followed by further digits of the
/// same number.
pub open spec fn decimal_len(s: Seq<u8>) -> Option<int> {
    let i = sign_len(s);
    if i < s.len() && is_digit(s[i]) && s[i] != '0' as u8 {
        Some(i + 1 + digit_run(s, i + 1))
    } else if i < s.len() && s[i] == '0' as u8 {
        Some(i + 1)
    } else {
        None
    }
}

/// An integer literal: a decimal, then the type's suffix letter in either
/// case where the type has one, and the number must lie between `min` and
/// `max`. The result is the number of bytes consumed and the number.
pub open spec fn integer_literal(s: Seq<u8>, suffix: Option<u8>, min: int, max: int) -> Result<
    (int, int),
    ParseError,
> {
    match decimal_len(s) {
        None => Err(ParseError::NoMatch),
        Some(n) => {
            let value = signed_value(s.take(n));
            match suffix {
                Some(letter) => if n < s.len() && lower(s[n]) == letter {
                    if min <= value <= max {
                        Ok((n + 1, value))
                    } else {
                        Err(ParseError::OutOfRange)
                    }
                } else {
                    Err(ParseError::NoMatch)
                },
                None => if min <= value <= max {
                    Ok((n, value))
                } else {
                    Err(ParseError::OutOfRange)
                },
            }
        },
    }
}

/// `int8 := decimal "b"|"B"`.
pub open spec fn i8_literal(s: Seq<u8>) -> Result<(int, i8), ParseError> {
    match integer_literal(s, Some('b' as u8), i8::MIN as int, i8::MAX as int) {
        Ok((n, v)) => Ok((n, v as i8)),
        Err(e) => Err(e),
    }
}

/// `int16 := decimal "s"|"S"`.
pub open spec fn i16_literal(s: Seq<u8>) -> Result<(int, i16), ParseError> {
    match integer_literal(s, Some('s' as u8), i16::MIN as int, i16::MAX as int) {
        Ok((n, v)) => Ok((n, v as i16)),
        Err(e) => Err(e),
    }
}

/// `int32 := decimal`. A letter behind the decimal is not part of it.
pub open spec fn i32_literal(s: Seq<u8>) -> Result<(int, i32), ParseError> {
    match integer_literal(s, None, i32::MIN as int, i32::MAX as int) {
        Ok((n, v)) => Ok((n, v as i32)),
        Err(e) => Err(e),
    }
}

/// `int64 := decimal "l"|"L"`.
pub open spec fn i64_literal(s: Seq<u8>) -> Result<(int, i64), ParseError> {
    match integer_literal(s, Some('l' as u8), i64::MIN as int, i64::MAX as int) {
        Ok((n, v)) => Ok((n, v as i64)),
        Err(e) => Err(e),
    }
}

/// Finds the decimal at the head of the input.
pub fn decimal(input: &[u8]) -> (r: Option<usize>)
    ensures
        match r {
            Some(n) => decimal_len(input@) == Some(n as int) && 0 < n <= input@.len(),
            None => decimal_len(input@) is None,
        },
{
    let i: usize = if input.len() > 0 && byte_is_sign(input[0]) {
        1
    } else {
        0
    };
    if i < input.len() && 0x31 <= input[i] && input[i] <= 0x39 {
        let more = count_digits(input, i + 1);
        Some(i + 1 + more)
    } else if i < input.len() && input[i] == '0' as u8 {
        Some(i + 1)
    } else {
        None
    }
}

/// The digits of a decimal are digits.
proof fn lemma_decimal_digits(s: Seq<u8>)
    requires
        decimal_len(s) is Some,
    ensures
        sign_len(s) < decimal_len(s)->0 <= s.len(),
        all_digits(s.subrange(sign_len(s), decimal_len(s)->0)),
{
    let i = sign_len(s);
    lemma_digit_run(s, i + 1);
}

/// Finds the integer literal at the head of the input, whose number must
/// lie between `min` and `max`: its length and its number.
fn integer(input: &[u8], suffix: Option<u8>, min: i64, max: i64) -> (r: Result<
    (usize, i64),
    ParseError,
>)
    ensures
        match r {
            Ok((end, value)) => {
                &&& 0 < end <= input@.len()
                &&& integer_literal(input@, suffix, min as int, max as int) == Ok::<
                    (int, int),
                    ParseError,
                >((end as int, value as int))
            },
            Err(e) => integer_literal(input@, suffix, min as int, max as int) == Err::<
                (int, int),
                ParseError,
            >(e),
        },
{
    let n = match decimal(input) {
        Some(n) => n,
        None => {
            return Err(ParseError::NoMatch);
        },
    };
    let end: usize = match suffix {
        Some(letter) => {
            if n < input.len() && byte_lower(input[n]) == letter {
                n + 1
            } else {
                return Err(ParseError::NoMatch);
            }
        },
        None => n,
    };
    let negative = input[0] == '-' as u8;
    let first: usize = if byte_is_sign(input[0]) {
        1
    } else {
        0
    };
    let ghost digits = input@.subrange(first as int, n as int);
    proof {
        lemma_decimal_digits(input@);
        assert(input@.take(n as int).skip(1) =~= input@.subrange(1, n as int));
        assert(input@.take(n as int) =~= input@.subrange(0, n as int));
        assert(digits.take(0) =~= Seq::<u8>::empty());
    }
    let ghost number: int = if negative {
        -(digits_value(digits) as int)
    } else {
        digits_value(digits) as int
    };
    let ghost expected = if min <= number <= max {
        Ok::<(int, int), ParseError>((end as int, number))
    } else {
        Err::<(int, int), ParseError>(ParseError::OutOfRange)
    };
    assert(integer_literal(input@, suffix, min as int, max as int) == expected);
    let limit: u64 = 0x8000_0000_0000_0000;
    let mut magnitude: u64 = 0;
    let mut i: usize = first;
    while i < n
        invariant
            first <= i <= n <= input@.len(),
            digits == input@.subrange(first as int, n as int),
            all_digits(digits),
            number == digits_value(digits) || number == -digits_value(digits),
            integer_literal(input@, suffix, min as int, max as int) == expected,
            expected == if min <= number <= max {
                Ok::<(int, int), ParseError>((end as int, number))
            } else {
                Err::<(int, int), ParseError>(ParseError::OutOfRange)
            },
            limit == 0x8000_0000_0000_0000,
            magnitude == digits_value(digits.take(i - first)),
            magnitude <= limit,
        decreases n - i,
    {
        proof {
            let k = i - first;
            assert(digits[k] == input@[i as int]);
            assert(is_digit(digits[k]));
            assert(digits.take(k + 1).drop_last() =~= digits.take(k));
            assert(digits.take(k + 1).last() == digits[k]);
            assert(digits_value(digits.take(k + 1)) == magnitude * 10 + digit_value(input@[i as int]));
            lemma_digits_value_prefix(digits, k + 1);
        }
        let digit: u64 = (input[i] - 0x30) as u64;
        if magnitude > (limit - digit) / 10 {
            assert(magnitude * 10 + digit > limit);
            return Err(ParseError::OutOfRange);
        }
        magnitude = magnitude * 10 + digit;
        i = i + 1;
    }
    assert(digits.take(n - first) =~= digits);
    let value: i64 = if negative {
        if magnitude == limit {
            i64::MIN
        } else {
            -(magnitude as i64)
        }
    } else {
        if magnitude == limit {
            return Err(ParseError::OutOfRange);
        }
        magnitude as i64
    };
    if value < min || max < value {
        return Err(ParseError::OutOfRange);
    }
    Ok((end, value))
}

/// Reads an 8-bit integer: a decimal and the suffix `b` or `B`.
pub fn parse_i8<'a>(input: &'a str) -> (r: Result<(&'a str, i8), ParseError>)
    ensures
        is_parse_of(r, input, i8_literal(input.spec_bytes())),
{
    broadcast use vstd::utf8::encode_utf8_valid_utf8;

    match integer(input.as_bytes(), Some('b' as u8), i8::MIN as i64, i8::MAX as i64) {
        Ok((end, value)) => {
            proof {
                lemma_literals_keep_utf8(input.spec_bytes());
                lemma_boundary(input.spec_bytes(), end as int);
            }
            Ok((text_from(input, end), value as i8))
        },
        Err(e) => Err(e),
    }
}

/// Reads a 16-bit integer: a decimal and the suffix `s` or `S`.
pub fn parse_i16<'a>(input: &'a str) -> (r: Result<(&'a str, i16), ParseError>)
    ensures
        is_parse_of(r, input, i16_literal(input.spec_bytes())),
{
    broadcast use vstd::utf8::encode_utf8_valid_utf8;

    match integer(input.as_bytes(), Some('s' as u8), i16::MIN as i64, i16::MAX as i64) {
        Ok((end, value)) => {
            proof {
                lemma_literals_keep_utf8(input.spec_bytes());
                lemma_boundary(input.spec_bytes(), end as int);
            }
            Ok((text_from(input, end), value as i16))
        },
        Err(e) => Err(e),
    }
}

/// Reads a 32-bit integer: a decimal without suffix. A type letter that
/// follows is left in the rest.
pub fn parse_i32<'a>(input: &'a str) -> (r: Result<(&'a str, i32), ParseError>)
    ensures
        is_parse_of(r, input, i32_literal(input.spec_bytes())),
{
    broadcast use vstd::utf8::encode_utf8_valid_utf8;

    match integer(input.as_bytes(), None, i32::MIN as i64, i32::MAX as i64) {
        Ok((end, value)) => {
            proof {
                lemma_literals_keep_utf8(input.spec_bytes());
                lemma_boundary(input.spec_bytes(), end as int);
            }
            Ok((text_from(input, end), value as i32))
        },
        Err(e) => Err(e),
    }
}

/// Reads a 64-bit integer: a decimal and the suffix `l` or `L`.
pub fn parse_i64<'a>(input: &'a str) -> (r: Result<(&'a str, i64), ParseError>)
    ensures
        is_parse_of(r, input, i64_literal(input.spec_bytes())),
{
    broadcast use vstd::utf8::encode_utf8_valid_utf8;

    match integer(input.as_bytes(), Some('l' as u8), i64::MIN, i64::MAX) {
        Ok((end, value)) => {
            proof {
                lemma_literals_keep_utf8(input.spec_bytes());
                lemma_boundary(input.spec_bytes(), end as int);
            }
            Ok((text_from(input, end), value))
        },
        Err(e) => Err(e),
    }
}

/// The end of the exponent that begins at `at`:
/// `exponent := ("e"|"E") ["+"|"-"] digit+`.
///
/// Without the marker there is no exponent, which a caller may accept
/// (`NoMatch`). A marker that no digit follows is a malformed number, and
/// final (`MalformedExponent`).
pub open spec fn exponent_end(s: Seq<u8>, at: int) -> Result<int, ParseError> {
    if 0 <= at < s.len() && lower(s[at]) == 'e' as u8 {
        let digits = if at + 1 < s.len() && is_sign(s[at + 1]) {
            at + 2
        } else {
            at + 1
        };
        if digit_run(s, digits) > 0 {
            Ok(digits + digit_run(s, digits))
        } else {
            Err(ParseError::MalformedExponent)
        }
    } else {
        Err(ParseError::NoMatch)
    }
}

/// The end of the fraction at the head of `s`: a sign or none, then
/// `digit+ "." digit*` or `"." digit+`.
pub open spec fn fraction_end(s: Seq<u8>) -> Option<int> {
    let i = sign_len(s);
    let whole = digit_run(s, i);
    if whole > 0 {
        if i + whole < s.len() && s[i + whole] == '.' as u8 {
            Some(i + whole + 1 + digit_run(s, i + whole + 1))
        } else {
            None
        }
    } else if i < s.len() && s[i] == '.' as u8 && digit_run(s, i + 1) > 0 {
        Some(i + 1 + digit_run(s, i + 1))
    } else {
        None
    }
}

/// The word `inf`.
pub open spec fn word_inf() -> Seq<u8> {
    seq!['i' as u8, 'n' as u8, 'f' as u8]
}

/// The word `infinity`.
pub open spec fn word_infinity() -> Seq<u8> {
    seq!['i' as u8, 'n' as u8, 'f' as u8, 'i' as u8, 'n' as u8, 'i' as u8, 't' as u8, 'y' as u8]
}

/// The word `nan`.
pub open spec fn word_nan() -> Seq<u8> {
    seq!['n' as u8, 'a' as u8, 'n' as u8]
}

/// The word `-inf`.
pub open spec fn word_neg_inf() -> Seq<u8> {
    seq!['-' as u8, 'i' as u8, 'n' as u8, 'f' as u8]
}

/// The word `-infinity`.
pub open spec fn word_neg_infinity() -> Seq<u8> {
    seq![
        '-' as u8,
        'i' as u8,
        'n' as u8,
        'f' as u8,
        'i' as u8,
        'n' as u8,
        'i' as u8,
        't' as u8,
        'y' as u8,
    ]
}

/// The length of the special value at the head of `s`, in any mix of cases:
/// `infinity`, `inf`, `nan`, `-infinity` or `-inf`.
///
/// A long word is read whole: `inf` and `-inf` are taken only where the
/// input does not go on to `infinity` and `-infinity`.
pub open spec fn special_len(s: Seq<u8>) -> Option<int> {
    if starts_with_no_case(s, word_infinity()) {
        Some(8)
    } else if starts_with_no_case(s, word_inf()) {
        Some(3)
    } else if starts_with_no_case(s, word_nan()) {
        Some(3)
    } else if starts_with_no_case(s, word_neg_infinity()) {
        Some(9)
    } else if starts_with_no_case(s, word_neg_inf()) {
        Some(4)
    } else {
        None
    }
}

/// The end of the number at the head of `s`, which is no special value:
/// a sign or none, digits and an exponent; or a fraction and, if one
/// follows, an exponent.
pub open spec fn number_end(s: Seq<u8>) -> Result<int, ParseError> {
    let i = sign_len(s);
    let whole = digit_run(s, i);
    let integral = if whole > 0 {
        exponent_end(s, i + whole)
    } else {
        Err(ParseError::NoMatch)
    };
    match integral {
        Ok(end) => Ok(end),
        Err(ParseError::MalformedExponent) => Err(ParseError::MalformedExponent),
        Err(_) => match fraction_end(s) {
            None => Err(ParseError::NoMatch),
            Some(dot_end) => match exponent_end(s, dot_end) {
                Ok(end) => Ok(end),
                Err(ParseError::MalformedExponent) => Err(ParseError::MalformedExponent),
                Err(_) => Ok(dot_end),
            },
        },
    }
}

/// The end of the floating point literal at the head of `s`, suffix apart:
/// a special value, or else a number.
pub open spec fn float_end(s: Seq<u8>) -> Result<int, ParseError> {
    match special_len(s) {
        Some(n) => Ok(n),
        None => number_end(s),
    }
}

/// A 32-bit floating point literal: a number and the suffix `f` or `F`.
/// The result is the number of bytes consumed and the text of the number,
/// without the suffix.
pub open spec fn float_literal(s: Seq<u8>) -> Result<(int, Seq<u8>), ParseError> {
    match float_end(s) {
        Ok(end) => if end < s.len() && lower(s[end]) == 'f' as u8 {
            Ok((end + 1, s.take(end)))
        } else {
            Err(ParseError::NoMatch)
        },
        Err(e) => Err(e),
    }
}

/// A 64-bit floating point literal: a number and, if it follows, the suffix
/// `d` or `D`. The result is the number of bytes consumed and the text of
/// the number, without the suffix.
pub open spec fn double_literal(s: Seq<u8>) -> Result<(int, Seq<u8>), ParseError> {
    match float_end(s) {
        Ok(end) => if end < s.len() && lower(s[end]) == 'd' as u8 {
            Ok((end + 1, s.take(end)))
        } else {
            Ok((end, s.take(end)))
        },
        Err(e) => Err(e),
    }
}

/// Finds the end of the exponent that begins at `at`.
pub fn exp(input: &[u8], at: usize) -> (r: Result<usize, ParseError>)
    ensures
        match r {
            Ok(end) => exponent_end(input@, at as int) == Ok::<int, ParseError>(end as int) && at
                < end <= input@.len(),
            Err(e) => exponent_end(input@, at as int) == Err::<int, ParseError>(e),
        },
{
    if at < input.len() && byte_lower(input[at]) == 'e' as u8 {
        let digits: usize = if at + 1 < input.len() && byte_is_sign(input[at + 1]) {
            at + 2
        } else {
            at + 1
        };
        let n = count_digits(input, digits);
        if n > 0 {
            Ok(digits + n)
        } else {
            Err(ParseError::MalformedExponent)
        }
    } else {
        Err(ParseError::NoMatch)
    }
}

/// Finds the end of the fraction at the head of the input.
pub fn float_num(input: &[u8]) -> (r: Option<usize>)
    ensures
        match r {
            Some(end) => fraction_end(input@) == Some(end as int) && 0 < end <= input@.len(),
            None => fraction_end(input@) is None,
        },
{
    let i: usize = if input.len() > 0 && byte_is_sign(input[0]) {
        1
    } else {
        0
    };
    let whole = count_digits(input, i);
    if whole > 0 {
        if i + whole < input.len() && input[i + whole] == '.' as u8 {
            let more = count_digits(input, i + whole + 1);
            Some(i + whole + 1 + more)
        } else {
            None
        }
    } else if i < input.len() && input[i] == '.' as u8 {
        let more = count_digits(input, i + 1);
        if more > 0 {
            Some(i + 1 + more)
        } else {
            None
        }
    } else {
        None
    }
}

/// Finds the special value at the head of the input.
fn special(input: &[u8]) -> (r: Option<usize>)
    ensures
        match r {
            Some(n) => special_len(input@) == Some(n as int) && 0 < n <= input@.len(),
            None => special_len(input@) is None,
        },
{
    proof {
        reveal_strlit("inf");
        reveal_strlit("infinity");
        reveal_strlit("nan");
        reveal_strlit("-inf");
        reveal_strlit("-infinity");
    }
    let inf = ascii_bytes("inf");
    let infinity = ascii_bytes("infinity");
    let nan = ascii_bytes("nan");
    let neg_inf = ascii_bytes("-inf");
    let neg_infinity = ascii_bytes("-infinity");
    proof {
        assert forall|i: int| 0 <= i < 3 implies inf@[i] == word_inf()[i] by {
            assert(inf@[i] == "inf"@[i] as u8);
        }
        assert forall|i: int| 0 <= i < 8 implies infinity@[i] == word_infinity()[i] by {
            assert(infinity@[i] == "infinity"@[i] as u8);
        }
        assert forall|i: int| 0 <= i < 3 implies nan@[i] == word_nan()[i] by {
            assert(nan@[i] == "nan"@[i] as u8);
        }
        assert forall|i: int| 0 <= i < 4 implies neg_inf@[i] == word_neg_inf()[i] by {
            assert(neg_inf@[i] == "-inf"@[i] as u8);
        }
        assert forall|i: int| 0 <= i < 9 implies neg_infinity@[i] == word_neg_infinity()[i] by {
            assert(neg_infinity@[i] == "-infinity"@[i] as u8);
        }
        assert(inf@ =~= word_inf());
        assert(infinity@ =~= word_infinity());
        assert(nan@ =~= word_nan());
        assert(neg_inf@ =~= word_neg_inf());
        assert(neg_infinity@ =~= word_neg_infinity());
    }
    if has_word_no_case(input, infinity) {
        Some(8)
    } else if has_word_no_case(input, inf) {
        Some(3)
    } else if has_word_no_case(input, nan) {
        Some(3)
    } else if has_word_no_case(input, neg_infinity) {
        Some(9)
    } else if has_word_no_case(input, neg_inf) {
        Some(4)
    } else {
        None
    }
}

/// Finds the end of the floating point literal at the head of the input,
/// suffix apart.
pub fn float(input: &[u8]) -> (r: Result<usize, ParseError>)
    ensures
        match r {
            Ok(end) => float_end(input@) == Ok::<int, ParseError>(end as int) && 0 < end
                <= input@.len(),
            Err(e) => float_end(input@) == Err::<int, ParseError>(e),
        },
{
    if let Some(n) = special(input) {
        return Ok(n);
    }
    let i: usize = if input.len() > 0 && byte_is_sign(input[0]) {
        1
    } else {
        0
    };
    let whole = count_digits(input, i);
    if whole > 0 {
        match exp(input, i + whole) {
            Ok(end) => {
                return Ok(end);
            },
            Err(ParseError::MalformedExponent) => {
                return Err(ParseError::MalformedExponent);
            },
            Err(_) => {},
        }
    }
    match float_num(input) {
        None => Err(ParseError::NoMatch),
        Some(dot_end) => match exp(input, dot_end) {
            Ok(end) => Ok(end),
            Err(ParseError::MalformedExponent) => Err(ParseError::MalformedExponent),
            Err(_) => Ok(dot_end),
        },
    }
}

/// Reads a 32-bit floating point literal and hands back its text, without
/// the suffix `f` or `F` that must follow it.
///
/// The text is one of the special values in some mix of cases, or digits
/// with a decimal point, an exponent, or both. Turning it into a number is
/// left to the caller.
pub fn parse_f32<'a>(input: &'a str) -> (r: Result<(&'a str, &'a str), ParseError>)
    ensures
        match r {
            Ok((rest, text)) => {
                let consumed = input.spec_bytes().len() - rest.spec_bytes().len();
                &&& 0 < consumed
                &&& rest.spec_bytes() == input.spec_bytes().skip(consumed)
                &&& float_literal(input.spec_bytes()) == Ok::<(int, Seq<u8>), ParseError>(
                    (consumed, text.spec_bytes()),
                )
            },
            Err(e) => float_literal(input.spec_bytes()) == Err::<(int, Seq<u8>), ParseError>(e),
        },
{
    broadcast use vstd::utf8::encode_utf8_valid_utf8;

    let bytes = input.as_bytes();
    let ghost s = input.spec_bytes();
    let end = match float(bytes) {
        Ok(end) => end,
        Err(e) => {
            return Err(e);
        },
    };
    if end < bytes.len() && byte_lower(bytes[end]) == 'f' as u8 {
        proof {
            lemma_ascii_boundaries(s, end as int);
            assert(s.subrange(0, end as int) =~= s.take(end as int));
        }
        Ok((text_from(input, end + 1), piece(input, 0, end)))
    } else {
        Err(ParseError::NoMatch)
    }
}

/// Reads a 64-bit floating point literal and hands back its text, without
/// the suffix `d` or `D` that may follow it.
pub fn parse_f64<'a>(input: &'a str) -> (r: Result<(&'a str, &'a str), ParseError>)
    ensures
        match r {
            Ok((rest, text)) => {
                let consumed = input.spec_bytes().len() - rest.spec_bytes().len();
                &&& 0 < consumed
                &&& rest.spec_bytes() == input.spec_bytes().skip(consumed)
                &&& double_literal(input.spec_bytes()) == Ok::<(int, Seq<u8>), ParseError>(
                    (consumed, text.spec_bytes()),
                )
            },
            Err(e) => double_literal(input.spec_bytes()) == Err::<(int, Seq<u8>), ParseError>(e),
        },
{
    broadcast use vstd::utf8::encode_utf8_valid_utf8;

    let bytes = input.as_bytes();
    let ghost s = input.spec_bytes();
    let end = match float(bytes) {
        Ok(end) => end,
        Err(e) => {
            return Err(e);
        },
    };
    proof {
        lemma_literals_keep_utf8(s);
        assert(s.subrange(0, end as int) =~= s.take(end as int));
    }
    if end < bytes.len() && byte_lower(bytes[end]) == 'd' as u8 {
        proof {
            lemma_ascii_boundaries(s, end as int);
        }
        Ok((text_from(input, end + 1), piece(input, 0, end)))
    } else {
        proof {
            lemma_boundary(s, end as int);
        }
        Ok((text_from(input, end), piece(input, 0, end)))
    }
}

} // verus!
