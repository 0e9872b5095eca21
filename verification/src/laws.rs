//! What holds between writing and reading, and between the two layouts.
//!
//! The text that the serializer writes for an integer or a string is read
//! back by the parser of the same kind as the value that was written. What
//! is written in indented layout is what is written in compact layout, but
//! for line feeds and spaces.

use vstd::prelude::*;
use vstd::utf8::encode_utf8;
use crate::ascii::{digit_run, is_digit, lower, starts_with_no_case, BACKSLASH, DOUBLE_QUOTE};
use crate::decimal::{
    all_digits, decimal_text, digits_text, digits_value, lemma_digits_text_shape,
    lemma_digits_value_of_text, signed_value,
};
use crate::error::ParseError;
use crate::parser::{
    decimal_len, escaped_body, float_end, has_backslash, i16_literal, i32_literal, i64_literal,
    i8_literal, integer_literal, quoted_literal, sign_len, str_literal, word_inf,
    word_infinity, word_nan, word_neg_inf, word_neg_infinity, StrLiteral,
};
use crate::utf8::lemma_encode_utf8_injective;
use crate::ser::{
    array_text, byte_text, compound_close, escape_byte, escaped_text, int_text, is_plain, joined,
    key_separator, long_text, newline_text, popped, pushed, quoted_text, short_text, slot_of,
    spaces, value_lead,
};

verus! {

/// Digits from `from` up to `to`, and no digit at `to`, are a run of
/// `to - from` digits.
proof fn lemma_digit_run_exact(s: Seq<u8>, from: int, to: int)
    requires
        0 <= from <= to <= s.len(),
        forall|j: int| from <= j < to ==> is_digit(#[trigger] s[j]),
        to == s.len() || !is_digit(s[to]),
    ensures
        digit_run(s, from) == to - from,
    decreases to - from,
{
    if from < to {
        lemma_digit_run_exact(s, from + 1, to);
    }
}

/// The decimal text of an integer is a minus sign, if the integer is
/// negative, and digits: no letter stands in it.
pub proof fn lemma_decimal_text_shape(v: int)
    ensures
        decimal_text(v).len() >= 1,
        v >= 0 ==> all_digits(decimal_text(v)),
        v < 0 ==> decimal_text(v)[0] == '-' as u8 && all_digits(decimal_text(v).skip(1)),
{
    if v >= 0 {
        lemma_digits_text_shape(v as nat);
    } else {
        lemma_digits_text_shape((-v) as nat);
        assert(decimal_text(v).skip(1) =~= digits_text((-v) as nat));
    }
}

/// The decimal text of an integer, followed by anything but a digit, is
/// read as a decimal of its whole length, and denotes the integer.
pub proof fn lemma_decimal_text_read(v: int, rest: Seq<u8>)
    requires
        rest.len() == 0 || !is_digit(rest[0]),
    ensures
        decimal_len(decimal_text(v) + rest) == Some(decimal_text(v).len() as int),
        signed_value(decimal_text(v)) == v,
{
    let text = decimal_text(v);
    let s = text + rest;
    if v >= 0 {
        let n = v as nat;
        lemma_digits_text_shape(n);
        lemma_digits_value_of_text(n);
        assert(s[0] == text[0]);
        assert(is_digit(text[0]));
        assert(sign_len(s) == 0);
        if v != 0 {
            assert forall|j: int| 1 <= j < text.len() implies is_digit(#[trigger] s[j]) by {
                assert(s[j] == text[j]);
            }
            if rest.len() > 0 {
                assert(s[text.len() as int] == rest[0]);
            }
            lemma_digit_run_exact(s, 1, text.len() as int);
        }
    } else {
        let n = (-v) as nat;
        let digits = digits_text(n);
        lemma_digits_text_shape(n);
        lemma_digits_value_of_text(n);
        assert(text.skip(1) =~= digits);
        assert(s[0] == '-' as u8);
        assert(sign_len(s) == 1);
        assert(s[1] == digits[0]);
        assert(is_digit(digits[0]));
        assert forall|j: int| 2 <= j < text.len() implies is_digit(#[trigger] s[j]) by {
            assert(s[j] == digits[j - 1]);
        }
        if rest.len() > 0 {
            assert(s[text.len() as int] == rest[0]);
        }
        lemma_digit_run_exact(s, 2, text.len() as int);
    }
}

/// An integer written with the suffix `letter` is read back with that
/// suffix, whatever follows.
proof fn lemma_suffixed_round_trip(v: int, letter: u8, min: int, max: int, rest: Seq<u8>)
    requires
        min <= v <= max,
        0x61 <= letter <= 0x7a,
    ensures
        integer_literal(decimal_text(v).push(letter) + rest, Some(letter), min, max) == Ok::<
            (int, int),
            ParseError,
        >((decimal_text(v).len() as int + 1, v)),
{
    let text = decimal_text(v);
    let tail = seq![letter] + rest;
    let s = text.push(letter) + rest;
    assert(s =~= text + tail);
    assert(tail[0] == letter);
    lemma_decimal_text_read(v, tail);
    assert(s.take(text.len() as int) =~= text);
    assert(s[text.len() as int] == letter);
}

/// Writing an 8-bit integer and reading it gives the integer back: the
/// text that [`crate::ser::Serializer::serialize_i8`] writes for `x`, with
/// anything behind it, is read by [`crate::parser::parse_i8`] as `x`, and
/// the whole of that text is consumed. The text ends in the suffix `b`.
pub proof fn lemma_i8_round_trip(x: i8, rest: Seq<u8>)
    ensures
        i8_literal(byte_text(x as int) + rest) == Ok::<(int, i8), ParseError>(
            (byte_text(x as int).len() as int, x),
        ),
        byte_text(x as int).last() == 'b' as u8,
{
    lemma_suffixed_round_trip(x as int, 'b' as u8, i8::MIN as int, i8::MAX as int, rest);
}

/// Writing a 16-bit integer and reading it gives the integer back: the
/// text that [`crate::ser::Serializer::serialize_i16`] writes for `x`, with
/// anything behind it, is read by [`crate::parser::parse_i16`] as `x`, and
/// the whole of that text is consumed. The text ends in the suffix `s`.
pub proof fn lemma_i16_round_trip(x: i16, rest: Seq<u8>)
    ensures
        i16_literal(short_text(x as int) + rest) == Ok::<(int, i16), ParseError>(
            (short_text(x as int).len() as int, x),
        ),
        short_text(x as int).last() == 's' as u8,
{
    lemma_suffixed_round_trip(x as int, 's' as u8, i16::MIN as int, i16::MAX as int, rest);
}

/// Writing a 32-bit integer and reading it gives the integer back: the
/// text that [`crate::ser::Serializer::serialize_i32`] writes for `x` is
/// read by [`crate::parser::parse_i32`] as `x`, and the whole of it is
/// consumed; so it is with anything behind it that does not begin with a
/// digit. The text holds no suffix: it is a minus sign or none, and digits.
pub proof fn lemma_i32_round_trip(x: i32, rest: Seq<u8>)
    ensures
        i32_literal(int_text(x as int)) == Ok::<(int, i32), ParseError>(
            (int_text(x as int).len() as int, x),
        ),
        rest.len() == 0 || !is_digit(rest[0]) ==> i32_literal(int_text(x as int) + rest) == Ok::<
            (int, i32),
            ParseError,
        >((int_text(x as int).len() as int, x)),
        forall|i: int|
            0 <= i < int_text(x as int).len() ==> is_digit(#[trigger] int_text(x as int)[i]) || (i
                == 0 && int_text(x as int)[0] == '-' as u8),
{
    let text = int_text(x as int);
    lemma_decimal_text_read(x as int, Seq::<u8>::empty());
    assert(text + Seq::<u8>::empty() =~= text);
    assert(text.take(text.len() as int) =~= text);
    if rest.len() == 0 || !is_digit(rest[0]) {
        lemma_decimal_text_read(x as int, rest);
        assert((text + rest).take(text.len() as int) =~= text);
    }
    lemma_decimal_text_shape(x as int);
    assert forall|i: int| 0 <= i < text.len() implies is_digit(#[trigger] text[i]) || (i == 0
        && text[0] == '-' as u8) by {
        if x < 0 && i > 0 {
            assert(text[i] == text.skip(1)[i - 1]);
        }
    }
}

/// Writing a 64-bit integer and reading it gives the integer back: the
/// text that [`crate::ser::Serializer::serialize_i64`] writes for `x`, with
/// anything behind it, is read by [`crate::parser::parse_i64`] as `x`, and
/// the whole of that text is consumed. The text ends in the suffix `l`.
pub proof fn lemma_i64_round_trip(x: i64, rest: Seq<u8>)
    ensures
        i64_literal(long_text(x as int) + rest) == Ok::<(int, i64), ParseError>(
            (long_text(x as int).len() as int, x),
        ),
        long_text(x as int).last() == 'l' as u8,
{
    lemma_suffixed_round_trip(x as int, 'l' as u8, i64::MIN as int, i64::MAX as int, rest);
}

/// A zero ends the decimal: where a zero stands first, behind the sign if
/// there is one, the decimal is the sign and that zero, and digits that
/// follow are not part of it. Read as a 32-bit integer it is zero, and
/// what follows the zero is the rest.
pub proof fn lemma_leading_zero_ends_decimal(s: Seq<u8>)
    requires
        sign_len(s) < s.len(),
        s[sign_len(s)] == '0' as u8,
    ensures
        decimal_len(s) == Some(sign_len(s) + 1),
        i32_literal(s) == Ok::<(int, i32), ParseError>((sign_len(s) + 1, 0i32)),
{
    let n = sign_len(s) + 1;
    let zero = seq!['0' as u8];
    assert(zero.drop_last() =~= Seq::<u8>::empty());
    assert(digits_value(zero) == 0) by {
        reveal_with_fuel(digits_value, 2);
    }
    if sign_len(s) == 0 {
        assert(s.take(n) =~= zero);
    } else {
        assert(s.take(n).skip(1) =~= zero);
    }
}

/// The special values are read in any mix of upper and lower case: an
/// input that begins with the letters of `infinity`, `inf`, `nan`,
/// `-infinity` or `-inf`, each letter in either case, begins with a
/// floating point literal of the length of that word. The long words are
/// read whole; the short ones are read where the input does not go on to
/// the long one.
pub proof fn lemma_special_values_any_case(s: Seq<u8>)
    ensures
        starts_with_no_case(s, word_infinity()) ==> float_end(s) == Ok::<int, ParseError>(8),
        starts_with_no_case(s, word_inf()) && !starts_with_no_case(s, word_infinity())
            ==> float_end(s) == Ok::<int, ParseError>(3),
        starts_with_no_case(s, word_nan()) ==> float_end(s) == Ok::<int, ParseError>(3),
        starts_with_no_case(s, word_neg_infinity()) ==> float_end(s) == Ok::<int, ParseError>(9),
        starts_with_no_case(s, word_neg_inf()) && !starts_with_no_case(s, word_neg_infinity())
            ==> float_end(s) == Ok::<int, ParseError>(4),
{
    if starts_with_no_case(s, word_nan()) {
        assert(word_nan()[0] == 'n' as u8 && word_inf()[0] == 'i' as u8);
        assert(word_infinity()[0] == 'i' as u8);
        assert(lower(s[0]) == 'n' as u8);
    }
    if starts_with_no_case(s, word_neg_infinity()) || starts_with_no_case(s, word_neg_inf()) {
        assert(word_neg_inf()[0] == '-' as u8 && word_neg_infinity()[0] == '-' as u8);
        assert(word_infinity()[0] == 'i' as u8 && word_inf()[0] == 'i' as u8);
        assert(word_nan()[0] == 'n' as u8);
        assert(lower(s[0]) == '-' as u8);
    }
}

/// Whether `s` holds a double quote or a backslash.
pub open spec fn needs_escape(s: Seq<u8>) -> bool {
    exists|i: int| 0 <= i < s.len() && !is_plain(#[trigger] s[i])
}

/// What was written between the quotes is read back as it was, up to the
/// closing quote.
proof fn lemma_escaped_body_of_text(before: Seq<u8>, s: Seq<u8>, rest: Seq<u8>)
    ensures
        escaped_body(
            before + escaped_text(s) + seq![DOUBLE_QUOTE] + rest,
            DOUBLE_QUOTE,
            before.len() as int,
        ) == Some(((before.len() + escaped_text(s).len()) as int, s)),
    decreases s.len(),
{
    let body = before + escaped_text(s) + seq![DOUBLE_QUOTE] + rest;
    let from = before.len() as int;
    if s.len() == 0 {
        assert(body[from] == DOUBLE_QUOTE);
        assert(s =~= Seq::<u8>::empty());
    } else {
        let b = s[0];
        let tail = s.drop_first();
        let lead = before + escape_byte(b);
        lemma_escaped_body_of_text(lead, tail, rest);
        assert(lead + escaped_text(tail) + seq![DOUBLE_QUOTE] + rest =~= body);
        assert(seq![b] + tail =~= s);
        if is_plain(b) {
            assert(body[from] == b);
        } else {
            assert(body[from] == BACKSLASH);
            assert(body[from + 1] == b);
        }
    }
}

/// A backslash stands in the written text exactly where the string holds a
/// double quote or a backslash.
proof fn lemma_escaped_text_backslash(s: Seq<u8>)
    ensures
        has_backslash(escaped_text(s), 0, escaped_text(s).len() as int) == needs_escape(s),
    decreases s.len(),
{
    let text = escaped_text(s);
    if s.len() > 0 {
        let b = s[0];
        let tail = s.drop_first();
        let tail_text = escaped_text(tail);
        let head = escape_byte(b);
        lemma_escaped_text_backslash(tail);
        if needs_escape(s) {
            let i = choose|i: int| 0 <= i < s.len() && !is_plain(#[trigger] s[i]);
            if i == 0 {
                assert(text[0] == BACKSLASH);
            } else {
                assert(!is_plain(tail[i - 1]));
                assert(needs_escape(tail));
                let k = choose|k: int|
                    0 <= k < tail_text.len() && 0 <= k < tail_text.len() && #[trigger] tail_text[k]
                        == BACKSLASH;
                assert(text[head.len() + k] == BACKSLASH);
            }
            assert(has_backslash(text, 0, text.len() as int));
        }
        if has_backslash(text, 0, text.len() as int) {
            let k = choose|k: int|
                0 <= k < text.len() && 0 <= k < text.len() && #[trigger] text[k] == BACKSLASH;
            if is_plain(b) {
                assert(k >= 1);
                assert(tail_text[k - 1] == BACKSLASH);
                assert(has_backslash(tail_text, 0, tail_text.len() as int));
                let i = choose|i: int| 0 <= i < tail.len() && !is_plain(#[trigger] tail[i]);
                assert(!is_plain(s[i + 1]));
            } else {
                assert(!is_plain(s[0]));
            }
            assert(needs_escape(s));
        }
    }
}

/// Writing a string and reading it gives the string back: the text that
/// [`crate::ser::write_escaped_bytes`] writes for `s`, with anything behind
/// it, is read by [`crate::parser::parse_str`] as `s`, and the whole of
/// that text is consumed. The content is copied exactly if `s` holds a
/// double quote or a backslash.
pub proof fn lemma_str_round_trip(s: Seq<u8>, rest: Seq<u8>)
    ensures
        str_literal(quoted_text(s) + rest) == Ok::<StrLiteral, ParseError>(
            StrLiteral {
                consumed: quoted_text(s).len() as int,
                content: s,
                escaped: needs_escape(s),
            },
        ),
{
    let input = quoted_text(s) + rest;
    let body = input.skip(1);
    let text = escaped_text(s);
    assert(input[0] == DOUBLE_QUOTE);
    assert(body =~= Seq::<u8>::empty() + text + seq![DOUBLE_QUOTE] + rest);
    lemma_escaped_body_of_text(Seq::<u8>::empty(), s, rest);
    lemma_escaped_text_backslash(s);
    let end = text.len() as int;
    assert(has_backslash(body, 0, end) == has_backslash(text, 0, end)) by {
        if has_backslash(body, 0, end) {
            let k = choose|k: int| 0 <= k < end && 0 <= k < body.len() && #[trigger] body[k] == BACKSLASH;
            assert(text[k] == BACKSLASH);
        }
        if has_backslash(text, 0, end) {
            let k = choose|k: int| 0 <= k < end && 0 <= k < text.len() && #[trigger] text[k] == BACKSLASH;
            assert(body[k] == BACKSLASH);
        }
    }
    assert(quoted_literal(input, DOUBLE_QUOTE) == Ok::<StrLiteral, ParseError>(
        StrLiteral { consumed: end + 2, content: s, escaped: needs_escape(s) },
    ));
}

/// Writing a text and reading it gives the text back: where a string is
/// read from what was written for `text`, with anything behind it, and its
/// content is the bytes of `read`, then `read` is `text`.
pub proof fn lemma_text_round_trip(text: Seq<char>, rest: Seq<u8>, read: Seq<char>)
    requires
        str_literal(quoted_text(encode_utf8(text)) + rest) matches Ok(literal) && encode_utf8(read)
            == literal.content,
    ensures
        read == text,
{
    lemma_str_round_trip(encode_utf8(text), rest);
    lemma_encode_utf8_injective(read, text);
}

/// A string without double quote and backslash, written and read, comes
/// back as a span of the input: nothing is copied.
pub proof fn lemma_plain_str_is_borrowed(s: Seq<u8>)
    requires
        forall|i: int| 0 <= i < s.len() ==> is_plain(#[trigger] s[i]),
    ensures
        str_literal(quoted_text(s)) == Ok::<StrLiteral, ParseError>(
            StrLiteral { consumed: s.len() as int + 2, content: s, escaped: false },
        ),
        quoted_text(s).subrange(1, s.len() as int + 1) == s,
{
    lemma_str_round_trip(s, Seq::<u8>::empty());
    assert(quoted_text(s) + Seq::<u8>::empty() =~= quoted_text(s));
    crate::ser::lemma_escaped_text_plain(s);
    assert(quoted_text(s).subrange(1, s.len() as int + 1) =~= s);
}

/// A string with a double quote or a backslash, written and read, comes
/// back as it was, in a buffer of its own.
pub proof fn lemma_escaped_str_is_owned(s: Seq<u8>)
    requires
        exists|i: int| 0 <= i < s.len() && !is_plain(#[trigger] s[i]),
    ensures
        str_literal(quoted_text(s)) == Ok::<StrLiteral, ParseError>(
            StrLiteral { consumed: quoted_text(s).len() as int, content: s, escaped: true },
        ),
{
    lemma_str_round_trip(s, Seq::<u8>::empty());
    assert(quoted_text(s) + Seq::<u8>::empty() =~= quoted_text(s));
}

/// A compound without entries is written as `{}`, in either layout and at
/// any depth: that is what the last step writes where nothing came before.
pub proof fn lemma_empty_compound(indent: Option<usize>)
    ensures
        compound_close(false, false, indent) == seq!['{' as u8, '}' as u8],
{
}

/// Whether `b` is a byte that only the layout puts in: a line feed or a
/// space.
pub open spec fn is_layout(b: u8) -> bool {
    b == '\n' as u8 || b == ' ' as u8
}

/// `s` without its line feeds and spaces.
pub open spec fn without_layout(s: Seq<u8>) -> Seq<u8>
    decreases s.len(),
{
    if s.len() == 0 {
        Seq::<u8>::empty()
    } else if is_layout(s.last()) {
        without_layout(s.drop_last())
    } else {
        without_layout(s.drop_last()).push(s.last())
    }
}

/// Taking line feeds and spaces out goes part by part.
pub proof fn lemma_without_layout_concat(a: Seq<u8>, b: Seq<u8>)
    ensures
        without_layout(a + b) == without_layout(a) + without_layout(b),
    decreases b.len(),
{
    if b.len() == 0 {
        assert(a + b =~= a);
        assert(without_layout(a) + without_layout(b) =~= without_layout(a));
    } else {
        lemma_without_layout_concat(a, b.drop_last());
        assert((a + b).drop_last() =~= a + b.drop_last());
        assert((a + b).last() == b.last());
        if is_layout(b.last()) {
        } else {
            assert((without_layout(a) + without_layout(b.drop_last())).push(b.last())
                =~= without_layout(a) + without_layout(b.drop_last()).push(b.last()));
        }
    }
}

/// Spaces are layout and nothing else.
proof fn lemma_without_layout_spaces(n: int)
    ensures
        without_layout(spaces(n)) == Seq::<u8>::empty(),
    decreases n,
{
    if n > 0 {
        lemma_without_layout_spaces(n - 1);
        assert(spaces(n).drop_last() =~= spaces(n - 1));
    }
}

/// What begins a line is layout and nothing else, in either layout and at
/// any depth.
pub proof fn lemma_newline_is_layout(indent: Option<usize>)
    ensures
        without_layout(newline_text(indent)) == Seq::<u8>::empty(),
{
    match indent {
        Some(depth) => {
            let feed = seq!['\n' as u8];
            assert(feed.drop_last() =~= Seq::<u8>::empty());
            assert(without_layout(feed.drop_last()) =~= Seq::<u8>::empty());
            assert(is_layout(feed.last()));
            lemma_without_layout_spaces(4 * depth);
            lemma_without_layout_concat(feed, spaces(4 * depth));
        },
        None => {},
    }
}

/// A single byte that is no layout stays.
proof fn lemma_without_layout_token(b: u8)
    requires
        !is_layout(b),
    ensures
        without_layout(seq![b]) == seq![b],
{
    let s = seq![b];
    assert(s.drop_last() =~= Seq::<u8>::empty());
    assert(without_layout(s.drop_last()).push(b) =~= s);
}

/// Parts that are equal up to layout, joined by separators that are equal
/// up to layout, are equal up to layout.
proof fn lemma_joined_layout(
    a: Seq<Seq<u8>>,
    b: Seq<Seq<u8>>,
    separator_a: Seq<u8>,
    separator_b: Seq<u8>,
)
    requires
        a.len() == b.len(),
        forall|i: int| 0 <= i < a.len() ==> without_layout(#[trigger] a[i]) == without_layout(b[i]),
        without_layout(separator_a) == without_layout(separator_b),
    ensures
        without_layout(joined(a, separator_a)) == without_layout(joined(b, separator_b)),
    decreases a.len(),
{
    if a.len() >= 2 {
        lemma_joined_layout(a.drop_last(), b.drop_last(), separator_a, separator_b);
        let head_a = joined(a.drop_last(), separator_a);
        let head_b = joined(b.drop_last(), separator_b);
        lemma_without_layout_concat(head_a, separator_a);
        lemma_without_layout_concat(head_b, separator_b);
        lemma_without_layout_concat(head_a + separator_a, a.last());
        lemma_without_layout_concat(head_b + separator_b, b.last());
        assert(without_layout(a[a.len() - 1]) == without_layout(b[a.len() - 1]));
    } else if a.len() == 1 {
        assert(without_layout(a[0]) == without_layout(b[0]));
    }
}

/// The two layouts of a sequence differ in line feeds and spaces only:
/// where the elements are the same up to line feeds and spaces, element by
/// element and in the same order, so are the texts of the two sequences,
/// whatever the layouts and depths.
pub proof fn lemma_array_layouts_differ_in_whitespace_only(
    prefix: Seq<u8>,
    elements_a: Seq<Seq<u8>>,
    indent_a: Option<usize>,
    elements_b: Seq<Seq<u8>>,
    indent_b: Option<usize>,
)
    requires
        elements_a.len() == elements_b.len(),
        forall|i: int|
            0 <= i < elements_a.len() ==> without_layout(#[trigger] elements_a[i])
                == without_layout(elements_b[i]),
    ensures
        without_layout(array_text(prefix, elements_a, indent_a)) == without_layout(
            array_text(prefix, elements_b, indent_b),
        ),
{
    if elements_a.len() > 0 {
        lemma_array_part(prefix, elements_a, indent_a);
        lemma_array_part(prefix, elements_b, indent_b);
        let comma = seq![',' as u8];
        let separator_a = comma + newline_text(pushed(indent_a));
        let separator_b = comma + newline_text(pushed(indent_b));
        lemma_without_layout_concat(comma, newline_text(pushed(indent_a)));
        lemma_without_layout_concat(comma, newline_text(pushed(indent_b)));
        lemma_newline_is_layout(pushed(indent_a));
        lemma_newline_is_layout(pushed(indent_b));
        lemma_joined_layout(elements_a, elements_b, separator_a, separator_b);
    }
}

/// A sequence with elements, up to layout: the brackets around the prefix
/// and the joined elements.
proof fn lemma_array_part(prefix: Seq<u8>, elements: Seq<Seq<u8>>, indent: Option<usize>)
    requires
        elements.len() > 0,
    ensures
        without_layout(array_text(prefix, elements, indent)) == seq!['[' as u8] + without_layout(
            prefix,
        ) + without_layout(
            joined(elements, seq![',' as u8] + newline_text(pushed(indent))),
        ) + seq![']' as u8],
{
    let open = seq!['[' as u8];
    let close = seq![']' as u8];
    let line = newline_text(pushed(indent));
    let last_line = newline_text(popped(pushed(indent)));
    let body = joined(elements, seq![',' as u8] + line);
    lemma_newline_is_layout(pushed(indent));
    lemma_newline_is_layout(popped(pushed(indent)));
    lemma_without_layout_token('[' as u8);
    lemma_without_layout_token(']' as u8);
    lemma_without_layout_concat(open, line);
    lemma_without_layout_concat(open + line, prefix);
    lemma_without_layout_concat(open + line + prefix, line);
    lemma_without_layout_concat(open + line + prefix + line, body);
    lemma_without_layout_concat(open + line + prefix + line + body, last_line);
    lemma_without_layout_concat(open + line + prefix + line + body + last_line, close);
    assert(array_text(prefix, elements, indent) == open + line + prefix + line + body + last_line
        + close);
    assert(open + Seq::<u8>::empty() + without_layout(prefix) + Seq::<u8>::empty()
        + without_layout(body) + Seq::<u8>::empty() + close =~= open + without_layout(prefix)
        + without_layout(body) + close);
}

/// The two layouts of a step of a compound differ in line feeds and spaces
/// only: what is written in front of a value, and what closes the
/// compound, is the same up to line feeds and spaces, whatever the layouts
/// and depths.
pub proof fn lemma_compound_layouts_differ_in_whitespace_only(
    opened: bool,
    has_entry: bool,
    name: Seq<u8>,
    indent_a: Option<usize>,
    indent_b: Option<usize>,
)
    ensures
        without_layout(value_lead(opened, has_entry, name, indent_a)) == without_layout(
            value_lead(opened, has_entry, name, indent_b),
        ),
        without_layout(compound_close(opened, has_entry, indent_a)) == without_layout(
            compound_close(opened, has_entry, indent_b),
        ),
{
    lemma_value_lead_part(opened, has_entry, name, indent_a);
    lemma_value_lead_part(opened, has_entry, name, indent_b);
    lemma_compound_close_part(opened, has_entry, indent_a);
    lemma_compound_close_part(opened, has_entry, indent_b);
}

/// What a compound writes in front of a value, up to layout.
proof fn lemma_value_lead_part(
    opened: bool,
    has_entry: bool,
    name: Seq<u8>,
    indent: Option<usize>,
)
    ensures
        without_layout(value_lead(opened, has_entry, name, indent)) == (if has_entry {
            seq![',' as u8]
        } else {
            Seq::<u8>::empty()
        }) + (if slot_of(name) is Field {
            (if opened {
                Seq::<u8>::empty()
            } else {
                seq!['{' as u8]
            }) + without_layout(name) + seq![':' as u8]
        } else {
            Seq::<u8>::empty()
        }),
{
    let comma = if has_entry {
        seq![',' as u8] + newline_text(indent)
    } else {
        Seq::<u8>::empty()
    };
    let brace = if opened {
        Seq::<u8>::empty()
    } else {
        seq!['{' as u8] + newline_text(pushed(indent))
    };
    lemma_newline_is_layout(indent);
    lemma_newline_is_layout(pushed(indent));
    lemma_without_layout_token(',' as u8);
    lemma_without_layout_token('{' as u8);
    lemma_without_layout_token(':' as u8);
    lemma_without_layout_concat(seq![',' as u8], newline_text(indent));
    lemma_without_layout_concat(seq!['{' as u8], newline_text(pushed(indent)));
    let separator = key_separator(indent);
    assert(without_layout(separator) == seq![':' as u8]) by {
        if indent is Some {
            assert(separator.drop_last() =~= seq![':' as u8]);
        }
    }
    if slot_of(name) is Field {
        lemma_without_layout_concat(comma, brace);
        lemma_without_layout_concat(comma + brace, name);
        lemma_without_layout_concat(comma + brace + name, separator);
        assert(without_layout(comma) + without_layout(brace) + without_layout(name) + seq![
            ':' as u8,
        ] =~= without_layout(comma) + (without_layout(brace) + without_layout(name) + seq![
            ':' as u8,
        ]));
    } else {
        assert(without_layout(comma) + Seq::<u8>::empty() =~= without_layout(comma));
    }
    assert(seq![',' as u8] + Seq::<u8>::empty() =~= seq![',' as u8]);
    assert(seq!['{' as u8] + Seq::<u8>::empty() =~= seq!['{' as u8]);
}

/// What closes a compound, up to layout.
proof fn lemma_compound_close_part(opened: bool, has_entry: bool, indent: Option<usize>)
    ensures
        without_layout(compound_close(opened, has_entry, indent)) == if opened {
            seq!['}' as u8]
        } else if !has_entry {
            seq!['{' as u8, '}' as u8]
        } else {
            Seq::<u8>::empty()
        },
{
    lemma_newline_is_layout(popped(indent));
    lemma_without_layout_token('}' as u8);
    lemma_without_layout_token('{' as u8);
    if opened {
        lemma_without_layout_concat(newline_text(popped(indent)), seq!['}' as u8]);
        assert(Seq::<u8>::empty() + seq!['}' as u8] =~= seq!['}' as u8]);
    } else if !has_entry {
        let both = seq!['{' as u8, '}' as u8];
        assert(both =~= seq!['{' as u8] + seq!['}' as u8]);
        lemma_without_layout_concat(seq!['{' as u8], seq!['}' as u8]);
    }
}

} // verus!
