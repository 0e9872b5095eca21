//! Text stays text.
//!
//! The grammar is stated on bytes, and of the input it tells apart only
//! bytes of ASCII. So where the input is UTF-8, what a parser hands back is
//! UTF-8 too: the rest begins between two characters, and the content of a
//! string is made of whole characters. In the other direction, a string in
//! UTF-8 is written as UTF-8.

use vstd::prelude::*;
use vstd::string::StringSliceAdditionalSpecFns;
use vstd::utf8::{
    encode_scalar, encode_utf8, is_char_boundary, is_char_boundary_iff_not_is_continuation_byte,
    is_char_boundary_start_end_of_seq, is_continuation_byte, is_leading_byte_width_1,
    length_of_first_scalar, pop_first_scalar, valid_first_scalar, valid_utf8, valid_utf8_concat,
    valid_utf8_split,
};
use crate::ascii::{
    bare_run, digit_run, is_bare, is_digit, lemma_digit_run, lower, starts_with,
    starts_with_no_case, word_false, word_true, BACKSLASH, DOUBLE_QUOTE, SINGLE_QUOTE,
};
use crate::ser::{
    escape_byte, escaped_text, is_plain, lemma_escaped_text_concat, lemma_escaped_text_plain,
    lemma_escaped_text_single, quoted_text,
};
use crate::parser::{
    bool_literal, decimal_len, double_literal, escaped_body, exponent_end, float_end,
    float_literal, fraction_end, i16_literal, i32_literal, i64_literal, i8_literal,
    integer_literal, number_end, prepend, quoted_literal, sign_len, special_len, str_literal,
    word_inf, word_infinity, word_nan, word_neg_inf, word_neg_infinity,
};

verus! {

/// Whether the first `n` bytes of `s` are ASCII.
pub open spec fn ascii_prefix(s: Seq<u8>, n: int) -> bool {
    0 <= n <= s.len() && forall|i: int| 0 <= i < n ==> #[trigger] s[i] <= 0x7f
}

/// Behind a byte of ASCII at its head, UTF-8 goes on as UTF-8.
proof fn lemma_skip_ascii(s: Seq<u8>)
    requires
        valid_utf8(s),
        s.len() > 0,
        s[0] <= 0x7f,
    ensures
        valid_utf8(s.skip(1)),
{
    assert(is_leading_byte_width_1(s[0]));
    assert(pop_first_scalar(s) =~= s.skip(1));
}

/// Behind bytes of ASCII at its head, UTF-8 goes on as UTF-8, and those
/// bytes are UTF-8 by themselves.
pub proof fn lemma_ascii_prefix(s: Seq<u8>, n: int)
    requires
        valid_utf8(s),
        ascii_prefix(s, n),
    ensures
        valid_utf8(s.skip(n)),
        valid_utf8(s.take(n)),
    decreases n,
{
    if n == 0 {
        assert(s.skip(0) =~= s);
        assert(s.take(0) =~= Seq::<u8>::empty());
    } else {
        lemma_ascii_prefix(s, n - 1);
        let rest = s.skip(n - 1);
        assert(rest[0] == s[n - 1]);
        lemma_skip_ascii(rest);
        assert(rest.skip(1) =~= s.skip(n));
        let last = seq![s[n - 1]];
        assert(is_leading_byte_width_1(last[0]));
        assert(pop_first_scalar(last) =~= Seq::<u8>::empty());
        assert(valid_utf8(last)) by {
            reveal_with_fuel(valid_utf8, 2);
        }
        valid_utf8_concat(s.take(n - 1), last);
        assert(s.take(n - 1) + last =~= s.take(n));
    }
}

/// A run of digits is ASCII.
proof fn lemma_digit_run_ascii(s: Seq<u8>, from: int)
    requires
        0 <= from <= s.len(),
    ensures
        from + digit_run(s, from) <= s.len(),
        forall|i: int| from <= i < from + digit_run(s, from) ==> #[trigger] s[i] <= 0x7f,
{
    lemma_digit_run(s, from);
    assert forall|i: int| from <= i < from + digit_run(s, from) implies #[trigger] s[i]
        <= 0x7f by {
        assert(is_digit(s[i]));
    }
}

/// A decimal is ASCII.
proof fn lemma_decimal_ascii(s: Seq<u8>)
    ensures
        decimal_len(s) matches Some(n) ==> ascii_prefix(s, n),
{
    if decimal_len(s) is Some {
        let i = sign_len(s);
        lemma_digit_run_ascii(s, i + 1);
    }
}

/// A byte that is a small letter of ASCII, or a minus sign, once put in
/// lower case, is ASCII.
proof fn lemma_lower_ascii(b: u8)
    requires
        lower(b) <= 0x7a,
    ensures
        b <= 0x7f,
{
}

/// An integer literal is ASCII.
proof fn lemma_integer_ascii(s: Seq<u8>, suffix: Option<u8>, min: int, max: int)
    requires
        suffix matches Some(letter) ==> letter <= 0x7a,
    ensures
        integer_literal(s, suffix, min, max) matches Ok((n, _)) ==> ascii_prefix(s, n),
{
    lemma_decimal_ascii(s);
    if integer_literal(s, suffix, min, max) is Ok {
        let n = decimal_len(s).unwrap();
        if suffix is Some {
            lemma_lower_ascii(s[n]);
        }
    }
}

/// A word that is read without regard to case is ASCII in the input.
proof fn lemma_word_ascii(s: Seq<u8>, word: Seq<u8>)
    requires
        starts_with_no_case(s, word),
        forall|i: int| 0 <= i < word.len() ==> #[trigger] word[i] <= 0x7a,
    ensures
        ascii_prefix(s, word.len() as int),
{
    assert forall|i: int| 0 <= i < word.len() implies #[trigger] s[i] <= 0x7f by {
        assert(lower(s[i]) == word[i]);
        lemma_lower_ascii(s[i]);
    }
}

/// A special value is ASCII.
proof fn lemma_special_ascii(s: Seq<u8>)
    ensures
        special_len(s) matches Some(n) ==> ascii_prefix(s, n),
{
    if starts_with_no_case(s, word_infinity()) {
        lemma_word_ascii(s, word_infinity());
    } else if starts_with_no_case(s, word_inf()) {
        lemma_word_ascii(s, word_inf());
    } else if starts_with_no_case(s, word_nan()) {
        lemma_word_ascii(s, word_nan());
    } else if starts_with_no_case(s, word_neg_infinity()) {
        lemma_word_ascii(s, word_neg_infinity());
    } else if starts_with_no_case(s, word_neg_inf()) {
        lemma_word_ascii(s, word_neg_inf());
    }
}

/// An exponent is ASCII.
proof fn lemma_exponent_ascii(s: Seq<u8>, at: int)
    ensures
        exponent_end(s, at) matches Ok(end) ==> at < end <= s.len() && forall|i: int|
            at <= i < end ==> #[trigger] s[i] <= 0x7f,
{
    if exponent_end(s, at) is Ok {
        lemma_lower_ascii(s[at]);
        let digits = if at + 1 < s.len() && (s[at + 1] == '+' as u8 || s[at + 1] == '-' as u8) {
            at + 2
        } else {
            at + 1
        };
        lemma_digit_run_ascii(s, digits);
    }
}

/// A fraction is ASCII.
proof fn lemma_fraction_ascii(s: Seq<u8>)
    ensures
        fraction_end(s) matches Some(n) ==> ascii_prefix(s, n),
{
    if fraction_end(s) is Some {
        let i = sign_len(s);
        let whole = digit_run(s, i) as int;
        lemma_digit_run_ascii(s, i);
        if whole > 0 {
            lemma_digit_run_ascii(s, i + whole + 1);
        } else {
            lemma_digit_run_ascii(s, i + 1);
        }
    }
}

/// A floating point literal is ASCII, suffix apart.
proof fn lemma_float_ascii(s: Seq<u8>)
    ensures
        float_end(s) matches Ok(n) ==> ascii_prefix(s, n),
{
    lemma_special_ascii(s);
    if special_len(s) is None && number_end(s) is Ok {
        let i = sign_len(s);
        let whole = digit_run(s, i) as int;
        lemma_digit_run_ascii(s, i);
        lemma_exponent_ascii(s, i + whole);
        lemma_fraction_ascii(s);
        if fraction_end(s) is Some {
            lemma_exponent_ascii(s, fraction_end(s).unwrap());
        }
    }
}

/// Reading a number or a boolean leaves text as text: where the input is
/// UTF-8, so is the rest behind the literal, and so is the text of a
/// floating point literal.
pub proof fn lemma_literals_keep_utf8(s: Seq<u8>)
    requires
        valid_utf8(s),
    ensures
        bool_literal(s) matches Ok((n, _)) ==> valid_utf8(s.skip(n)),
        i8_literal(s) matches Ok((n, _)) ==> valid_utf8(s.skip(n)),
        i16_literal(s) matches Ok((n, _)) ==> valid_utf8(s.skip(n)),
        i32_literal(s) matches Ok((n, _)) ==> valid_utf8(s.skip(n)),
        i64_literal(s) matches Ok((n, _)) ==> valid_utf8(s.skip(n)),
        float_literal(s) matches Ok((n, text)) ==> valid_utf8(s.skip(n)) && valid_utf8(text),
        double_literal(s) matches Ok((n, text)) ==> valid_utf8(s.skip(n)) && valid_utf8(text),
{
    if bool_literal(s) is Ok {
        let word = if starts_with(s, word_true()) {
            word_true()
        } else {
            word_false()
        };
        assert forall|i: int| 0 <= i < word.len() implies #[trigger] s[i] <= 0x7f by {
            assert(s[i] == s.subrange(0, word.len() as int)[i]);
        }
        lemma_ascii_prefix(s, word.len() as int);
    }
    lemma_integer_ascii(s, Some('b' as u8), i8::MIN as int, i8::MAX as int);
    lemma_integer_ascii(s, Some('s' as u8), i16::MIN as int, i16::MAX as int);
    lemma_integer_ascii(s, None, i32::MIN as int, i32::MAX as int);
    lemma_integer_ascii(s, Some('l' as u8), i64::MIN as int, i64::MAX as int);
    if i8_literal(s) is Ok {
        lemma_ascii_prefix(s, i8_literal(s).unwrap().0);
    }
    if i16_literal(s) is Ok {
        lemma_ascii_prefix(s, i16_literal(s).unwrap().0);
    }
    if i32_literal(s) is Ok {
        lemma_ascii_prefix(s, i32_literal(s).unwrap().0);
    }
    if i64_literal(s) is Ok {
        lemma_ascii_prefix(s, i64_literal(s).unwrap().0);
    }
    lemma_float_ascii(s);
    if float_end(s) is Ok {
        let end = float_end(s).unwrap();
        lemma_ascii_prefix(s, end);
        if end < s.len() {
            if lower(s[end]) == 'f' as u8 || lower(s[end]) == 'd' as u8 {
                lemma_lower_ascii(s[end]);
                lemma_ascii_prefix(s, end + 1);
            }
        }
    }
}

/// The first character of UTF-8 that is not empty: it is one to four bytes
/// long, a single byte exactly if that byte is ASCII, and every byte behind
/// its first is a continuation byte; it is UTF-8 by itself, and so is what
/// follows it.
proof fn lemma_first_scalar(t: Seq<u8>)
    requires
        valid_utf8(t),
        t.len() > 0,
    ensures
        1 <= length_of_first_scalar(t) <= 4,
        length_of_first_scalar(t) <= t.len(),
        length_of_first_scalar(t) == 1 <==> t[0] <= 0x7f,
        !is_continuation_byte(t[0]),
        forall|j: int| 1 <= j < length_of_first_scalar(t) ==> is_continuation_byte(#[trigger] t[j]),
        valid_utf8(t.skip(length_of_first_scalar(t))),
        valid_utf8(t.take(length_of_first_scalar(t))),
{
    let width = length_of_first_scalar(t);
    assert(valid_first_scalar(t));
    assert(pop_first_scalar(t) =~= t.skip(width));
    let first = t.take(width);
    assert forall|j: int| 0 <= j < width implies first[j] == t[j] by {}
    assert(valid_first_scalar(first));
    assert(length_of_first_scalar(first) == width);
    assert(pop_first_scalar(first) =~= Seq::<u8>::empty());
    assert(valid_utf8(first)) by {
        reveal_with_fuel(valid_utf8, 2);
    }
}

/// Bytes that are neither backslash nor quote are content as they are.
proof fn lemma_escaped_body_plain(s: Seq<u8>, quote: u8, from: int, width: int)
    requires
        0 <= from,
        0 <= width,
        from + width <= s.len(),
        forall|j: int| from <= j < from + width ==> #[trigger] s[j] != BACKSLASH && s[j] != quote,
    ensures
        escaped_body(s, quote, from) == prepend(
            s.subrange(from, from + width),
            escaped_body(s, quote, from + width),
        ),
    decreases width,
{
    let tail = escaped_body(s, quote, from + width);
    if width == 0 {
        assert(s.subrange(from, from) =~= Seq::<u8>::empty());
        match tail {
            Some((end, content)) => {
                assert(Seq::<u8>::empty() + content =~= content);
            },
            None => {},
        }
    } else {
        lemma_escaped_body_plain(s, quote, from + 1, width - 1);
        assert(s[from] != BACKSLASH && s[from] != quote);
        match tail {
            Some((end, content)) => {
                assert(seq![s[from]] + (s.subrange(from + 1, from + width) + content)
                    =~= s.subrange(from, from + width) + content);
            },
            None => {},
        }
    }
}

/// What stands between the quotes of a string in UTF-8 is made of whole
/// characters, and the closing quote stands between two characters.
proof fn lemma_escaped_body_utf8(s: Seq<u8>, quote: u8, from: int)
    requires
        quote <= 0x7f,
        0 <= from <= s.len(),
        valid_utf8(s.skip(from)),
    ensures
        escaped_body(s, quote, from) matches Some((end, content)) ==> {
            &&& from <= end < s.len()
            &&& s[end] == quote
            &&& valid_utf8(content)
            &&& valid_utf8(s.skip(end))
        },
    decreases s.len() - from,
{
    if from < s.len() {
        let t = s.skip(from);
        lemma_first_scalar(t);
        let width = length_of_first_scalar(t);
        assert(t[0] == s[from]);
        if s[from] == BACKSLASH {
            if from + 1 < s.len() {
                let escaped = s.skip(from + 1);
                assert(t.skip(1) =~= escaped);
                lemma_first_scalar(escaped);
                let more = length_of_first_scalar(escaped);
                let next = from + 1 + more;
                assert forall|j: int| from + 2 <= j < next implies #[trigger] s[j] != BACKSLASH
                    && s[j] != quote by {
                    assert(s[j] == escaped[j - from - 1]);
                    assert(is_continuation_byte(escaped[j - from - 1]));
                }
                lemma_escaped_body_plain(s, quote, from + 2, more - 1);
                assert(escaped.skip(more) =~= s.skip(next));
                lemma_escaped_body_utf8(s, quote, next);
                match escaped_body(s, quote, next) {
                    Some((end, content)) => {
                        let character = escaped.take(more);
                        assert(seq![s[from + 1]] + (s.subrange(from + 2, next) + content)
                            =~= character + content);
                        valid_utf8_concat(character, content);
                    },
                    None => {},
                }
            }
        } else if s[from] == quote {
            assert(valid_utf8(Seq::<u8>::empty()));
        } else {
            let next = from + width;
            assert forall|j: int| from <= j < next implies #[trigger] s[j] != BACKSLASH && s[j]
                != quote by {
                assert(s[j] == t[j - from]);
                if j > from {
                    assert(is_continuation_byte(t[j - from]));
                }
            }
            lemma_escaped_body_plain(s, quote, from, width);
            assert(t.skip(width) =~= s.skip(next));
            lemma_escaped_body_utf8(s, quote, next);
            match escaped_body(s, quote, next) {
                Some((end, content)) => {
                    let character = t.take(width);
                    assert(s.subrange(from, next) =~= character);
                    valid_utf8_concat(character, content);
                },
                None => {},
            }
        }
    }
}

/// A run of bytes of an unquoted string is ASCII.
proof fn lemma_bare_run_ascii(s: Seq<u8>, from: int)
    requires
        0 <= from <= s.len(),
    ensures
        from + bare_run(s, from) <= s.len(),
        forall|i: int| from <= i < from + bare_run(s, from) ==> #[trigger] s[i] <= 0x7f,
    decreases s.len() - from,
{
    if from < s.len() && is_bare(s[from]) {
        lemma_bare_run_ascii(s, from + 1);
    }
}

/// Reading a string leaves text as text: where the input is UTF-8, so is
/// the content of the string, escapes undone, and so is the rest behind the
/// literal.
pub proof fn lemma_str_keeps_utf8(s: Seq<u8>)
    requires
        valid_utf8(s),
    ensures
        str_literal(s) matches Ok(literal) ==> valid_utf8(literal.content) && valid_utf8(
            s.skip(literal.consumed),
        ),
{
    if s.len() > 0 && (s[0] == DOUBLE_QUOTE || s[0] == SINGLE_QUOTE) {
        let quote = s[0];
        let body = s.skip(1);
        lemma_skip_ascii(s);
        assert(body.skip(0) =~= body);
        lemma_escaped_body_utf8(body, quote, 0);
        if quoted_literal(s, quote) is Ok {
            let (end, content) = escaped_body(body, quote, 0).unwrap();
            let tail = body.skip(end);
            assert(tail[0] == quote);
            lemma_skip_ascii(tail);
            assert(tail.skip(1) =~= s.skip(end + 2));
        }
    } else if bare_run(s, 0) > 0 {
        lemma_bare_run_ascii(s, 0);
        lemma_ascii_prefix(s, bare_run(s, 0) as int);
    }
}

/// A single byte of ASCII is UTF-8.
proof fn lemma_ascii_byte_utf8(b: u8)
    requires
        b <= 0x7f,
    ensures
        valid_utf8(seq![b]),
{
    let one = seq![b];
    assert(is_leading_byte_width_1(one[0]));
    assert(pop_first_scalar(one) =~= Seq::<u8>::empty());
    reveal_with_fuel(valid_utf8, 2);
}

/// Escaping leaves text as text.
proof fn lemma_escaped_text_utf8(s: Seq<u8>)
    requires
        valid_utf8(s),
    ensures
        valid_utf8(escaped_text(s)),
    decreases s.len(),
{
    if s.len() > 0 {
        lemma_first_scalar(s);
        let width = length_of_first_scalar(s);
        let character = s.take(width);
        let rest = s.skip(width);
        assert(s =~= character + rest);
        lemma_escaped_text_concat(character, rest);
        lemma_escaped_text_utf8(rest);
        if width == 1 {
            assert(character =~= seq![s[0]]);
            lemma_escaped_text_single(s[0]);
            lemma_ascii_byte_utf8(s[0]);
            if !is_plain(s[0]) {
                lemma_ascii_byte_utf8(BACKSLASH);
                valid_utf8_concat(seq![BACKSLASH], seq![s[0]]);
                assert(seq![BACKSLASH] + seq![s[0]] =~= escape_byte(s[0]));
            }
        } else {
            assert forall|i: int| 0 <= i < character.len() implies is_plain(
                #[trigger] character[i],
            ) by {
                assert(character[i] == s[i]);
                if i > 0 {
                    assert(is_continuation_byte(s[i]));
                }
            }
            lemma_escaped_text_plain(character);
        }
        valid_utf8_concat(escaped_text(character), escaped_text(rest));
    }
}

/// Writing a string leaves text as text: where the string is UTF-8, so is
/// what is written for it, quotes and escapes included.
pub proof fn lemma_quoted_text_utf8(s: Seq<u8>)
    requires
        valid_utf8(s),
    ensures
        valid_utf8(quoted_text(s)),
{
    lemma_escaped_text_utf8(s);
    lemma_ascii_byte_utf8(DOUBLE_QUOTE);
    valid_utf8_concat(seq![DOUBLE_QUOTE], escaped_text(s));
    valid_utf8_concat(seq![DOUBLE_QUOTE] + escaped_text(s), seq![DOUBLE_QUOTE]);
}

/// Where UTF-8 goes on as UTF-8, two characters meet.
pub proof fn lemma_boundary(s: Seq<u8>, at: int)
    requires
        valid_utf8(s),
        0 <= at <= s.len(),
        valid_utf8(s.skip(at)),
    ensures
        is_char_boundary(s, at),
{
    if at == s.len() {
        is_char_boundary_start_end_of_seq(s);
    } else {
        let rest = s.skip(at);
        lemma_first_scalar(rest);
        assert(rest[0] == s[at]);
        is_char_boundary_iff_not_is_continuation_byte(s, at);
    }
}

/// A byte of ASCII stands between two characters, and so does what
/// follows it.
pub proof fn lemma_ascii_boundaries(s: Seq<u8>, at: int)
    requires
        valid_utf8(s),
        0 <= at < s.len(),
        s[at] <= 0x7f,
    ensures
        is_char_boundary(s, at),
        is_char_boundary(s, at + 1),
        valid_utf8(s.skip(at)),
        valid_utf8(s.skip(at + 1)),
{
    is_char_boundary_iff_not_is_continuation_byte(s, at);
    valid_utf8_split(s, at);
    let rest = s.skip(at);
    assert(rest[0] == s[at]);
    lemma_skip_ascii(rest);
    assert(rest.skip(1) =~= s.skip(at + 1));
    lemma_boundary(s, at + 1);
}

/// Between two places where characters meet stands UTF-8, and the first
/// place is one where characters meet in the text up to the second.
pub proof fn lemma_piece(s: Seq<u8>, from: int, to: int)
    requires
        valid_utf8(s),
        0 <= from <= to <= s.len(),
        is_char_boundary(s, from),
        is_char_boundary(s, to),
    ensures
        valid_utf8(s.take(to)),
        is_char_boundary(s.take(to), from),
        valid_utf8(s.subrange(from, to)),
        valid_utf8(s.skip(from)),
{
    valid_utf8_split(s, to);
    valid_utf8_split(s, from);
    let head = s.take(to);
    assert(head =~= s.subrange(0, to));
    if from == to {
        is_char_boundary_start_end_of_seq(head);
    } else {
        is_char_boundary_iff_not_is_continuation_byte(s, from);
        assert(head[from] == s[from]);
        is_char_boundary_iff_not_is_continuation_byte(head, from);
    }
    valid_utf8_split(head, from);
    assert(head.subrange(from, head.len() as int) =~= s.subrange(from, to));
}

/// The bytes of two texts in a row are the bytes of the one and of the
/// other in a row.
pub proof fn lemma_encode_utf8_concat(a: Seq<char>, b: Seq<char>)
    ensures
        encode_utf8(a + b) == encode_utf8(a) + encode_utf8(b),
    decreases a.len(),
{
    if a.len() == 0 {
        assert(a + b =~= b);
        assert(encode_utf8(a) + encode_utf8(b) =~= encode_utf8(b));
    } else {
        lemma_encode_utf8_concat(a.drop_first(), b);
        assert((a + b).drop_first() =~= a.drop_first() + b);
        assert((a + b)[0] == a[0]);
        assert(encode_scalar(a[0] as u32) + (encode_utf8(a.drop_first()) + encode_utf8(b))
            =~= (encode_scalar(a[0] as u32) + encode_utf8(a.drop_first())) + encode_utf8(b));
    }
}

/// The text from the byte at `from` up to the byte at `to`, where both are
/// places between two characters.
pub(crate) fn piece<'a>(input: &'a str, from: usize, to: usize) -> (text: &'a str)
    requires
        from <= to <= input.spec_bytes().len(),
        is_char_boundary(input.spec_bytes(), from as int),
        is_char_boundary(input.spec_bytes(), to as int),
    ensures
        text.spec_bytes() == input.spec_bytes().subrange(from as int, to as int),
{
    broadcast use vstd::utf8::encode_utf8_valid_utf8;

    proof {
        lemma_piece(input.spec_bytes(), from as int, to as int);
    }
    let (head, _) = input.split_at(to);
    let (_, text) = head.split_at(from);
    assert(text.spec_bytes() =~= input.spec_bytes().subrange(from as int, to as int));
    text
}

/// The text behind the first `from` bytes, where that is a place between
/// two characters.
pub(crate) fn text_from<'a>(input: &'a str, from: usize) -> (text: &'a str)
    requires
        from <= input.spec_bytes().len(),
        is_char_boundary(input.spec_bytes(), from as int),
    ensures
        text.spec_bytes() == input.spec_bytes().skip(from as int),
{
    let (_, text) = input.split_at(from);
    text
}

/// A text is known by its bytes: two texts with the same bytes are the
/// same text.
pub proof fn lemma_encode_utf8_injective(a: Seq<char>, b: Seq<char>)
    requires
        encode_utf8(a) == encode_utf8(b),
    ensures
        a == b,
{
    vstd::utf8::encode_utf8_decode_utf8(a);
    vstd::utf8::encode_utf8_decode_utf8(b);
}

} // verus!
