//! Byte classes of the text grammar.

use vstd::prelude::*;
use vstd::string::StringSliceAdditionalSpecFns;

verus! {

pub const DOUBLE_QUOTE: u8 = 0x22;

pub const SINGLE_QUOTE: u8 = 0x27;

pub const BACKSLASH: u8 = 0x5c;

/// `0` to `9`.
pub open spec fn is_digit(b: u8) -> bool {
    0x30 <= b <= 0x39
}

/// `A` to `Z` and `a` to `z`.
pub open spec fn is_alpha(b: u8) -> bool {
    (0x41 <= b <= 0x5a) || (0x61 <= b <= 0x7a)
}

/// `+` or `-`.
pub open spec fn is_sign(b: u8) -> bool {
    b == '+' as u8 || b == '-' as u8
}

/// A byte that may stand in an unquoted string: a letter, a digit, or one of `_ - . +`.
pub open spec fn is_bare(b: u8) -> bool {
    is_alpha(b) || is_digit(b) || b == '_' as u8 || b == '-' as u8 || b == '.' as u8 || b == '+' as u8
}

/// The byte with an upper-case ASCII letter replaced by its lower-case form.
pub open spec fn lower(b: u8) -> u8 {
    if 0x41 <= b <= 0x5a {
        (b + 0x20) as u8
    } else {
        b
    }
}

/// Whether `s` begins with `word`, letters compared without regard to case.
/// `word` is expected in lower case.
pub open spec fn starts_with_no_case(s: Seq<u8>, word: Seq<u8>) -> bool {
    &&& word.len() <= s.len()
    &&& forall|i: int| 0 <= i < word.len() ==> lower(#[trigger] s[i]) == word[i]
}

/// Whether `s` begins with `word`, byte for byte.
pub open spec fn starts_with(s: Seq<u8>, word: Seq<u8>) -> bool {
    word.len() <= s.len() && s.subrange(0, word.len() as int) == word
}

/// The number of digits that stand in `s` from index `from` on without a gap.
pub open spec fn digit_run(s: Seq<u8>, from: int) -> nat
    decreases s.len() - from,
{
    if 0 <= from < s.len() && is_digit(s[from]) {
        1 + digit_run(s, from + 1)
    } else {
        0
    }
}

/// The number of bytes at the head of `s` that may stand in an unquoted string.
pub open spec fn bare_run(s: Seq<u8>, from: int) -> nat
    decreases s.len() - from,
{
    if 0 <= from < s.len() && is_bare(s[from]) {
        1 + bare_run(s, from + 1)
    } else {
        0
    }
}

/// The word `true`.
pub open spec fn word_true() -> Seq<u8> {
    seq!['t' as u8, 'r' as u8, 'u' as u8, 'e' as u8]
}

/// The word `false`.
pub open spec fn word_false() -> Seq<u8> {
    seq!['f' as u8, 'a' as u8, 'l' as u8, 's' as u8, 'e' as u8]
}

/// The bytes of a string that is known to be ASCII: one byte for each
/// character, with the character's number.
pub(crate) fn ascii_bytes<'a>(word: &'a str) -> (bytes: &'a [u8])
    requires
        word.is_ascii(),
    ensures
        bytes@ == word.spec_bytes(),
        bytes@.len() == word@.len(),
        forall|i: int| 0 <= i < word@.len() ==> bytes@[i] == #[trigger] word@[i] as u8,
{
    broadcast use vstd::string::is_ascii_spec_bytes;

    word.as_bytes()
}

/// The bytes of the word `true`.
pub(crate) fn true_bytes() -> (word: &'static [u8])
    ensures
        word@ == word_true(),
{
    proof {
        reveal_strlit("true");
    }
    let word = ascii_bytes("true");
    proof {
        assert forall|i: int| 0 <= i < 4 implies word@[i] == word_true()[i] by {
            assert(word@[i] == "true"@[i] as u8);
        }
        assert(word@ =~= word_true());
    }
    word
}

/// The bytes of the word `false`.
pub(crate) fn false_bytes() -> (word: &'static [u8])
    ensures
        word@ == word_false(),
{
    proof {
        reveal_strlit("false");
    }
    let word = ascii_bytes("false");
    proof {
        assert forall|i: int| 0 <= i < 5 implies word@[i] == word_false()[i] by {
            assert(word@[i] == "false"@[i] as u8);
        }
        assert(word@ =~= word_false());
    }
    word
}

pub fn byte_is_digit(b: u8) -> (r: bool)
    ensures
        r == is_digit(b),
{
    0x30 <= b && b <= 0x39
}

pub fn byte_is_sign(b: u8) -> (r: bool)
    ensures
        r == is_sign(b),
{
    b == '+' as u8 || b == '-' as u8
}

pub fn byte_is_bare(b: u8) -> (r: bool)
    ensures
        r == is_bare(b),
{
    (0x41 <= b && b <= 0x5a) || (0x61 <= b && b <= 0x7a) || (0x30 <= b && b <= 0x39) || b == '_' as u8
        || b == '-' as u8 || b == '.' as u8 || b == '+' as u8
}

pub fn byte_lower(b: u8) -> (r: u8)
    ensures
        r == lower(b),
{
    if 0x41 <= b && b <= 0x5a {
        b + 0x20
    } else {
        b
    }
}

/// Counts the digits that stand in `input` from `from` on.
pub fn count_digits(input: &[u8], from: usize) -> (n: usize)
    ensures
        n == digit_run(input@, from as int),
        from <= input@.len() ==> from + n <= input@.len(),
{
    let mut i: usize = from;
    while i < input.len() && byte_is_digit(input[i])
        invariant
            from <= i,
            from <= input@.len() ==> i <= input@.len(),
            digit_run(input@, from as int) == (i - from) + digit_run(input@, i as int),
        decreases input@.len() - i,
    {
        i = i + 1;
    }
    i - from
}

/// Counts the bytes at the head of `input` that may stand in an unquoted string.
pub fn count_bare(input: &[u8]) -> (n: usize)
    ensures
        n == bare_run(input@, 0),
        n <= input@.len(),
{
    let mut i: usize = 0;
    while i < input.len() && byte_is_bare(input[i])
        invariant
            i <= input@.len(),
            bare_run(input@, 0) == i + bare_run(input@, i as int),
        decreases input@.len() - i,
    {
        i = i + 1;
    }
    i
}

/// A run of digits holds digits only, lies within `s`, and ends at the end of
/// `s` or before a byte that is no digit.
pub proof fn lemma_digit_run(s: Seq<u8>, from: int)
    requires
        0 <= from <= s.len(),
    ensures
        from + digit_run(s, from) <= s.len(),
        forall|j: int| from <= j < from + digit_run(s, from) ==> is_digit(#[trigger] s[j]),
        from + digit_run(s, from) < s.len() ==> !is_digit(s[from + digit_run(s, from)]),
    decreases s.len() - from,
{
    if from < s.len() && is_digit(s[from]) {
        lemma_digit_run(s, from + 1);
    }
}

/// Whether `input` begins with `word`, without regard to case.
pub fn has_word_no_case(input: &[u8], word: &[u8]) -> (r: bool)
    ensures
        r == starts_with_no_case(input@, word@),
{
    if input.len() < word.len() {
        return false;
    }
    let mut i: usize = 0;
    while i < word.len()
        invariant
            i <= word@.len() <= input@.len(),
            forall|j: int| 0 <= j < i ==> lower(#[trigger] input@[j]) == word@[j],
        decreases word@.len() - i,
    {
        if byte_lower(input[i]) != word[i] {
            return false;
        }
        i = i + 1;
    }
    true
}

/// Whether `input` begins with `word`, byte for byte.
pub fn has_word(input: &[u8], word: &[u8]) -> (r: bool)
    ensures
        r == starts_with(input@, word@),
{
    if input.len() < word.len() {
        return false;
    }
    let mut i: usize = 0;
    while i < word.len()
        invariant
            i <= word@.len() <= input@.len(),
            forall|j: int| 0 <= j < i ==> input@[j] == word@[j],
        decreases word@.len() - i,
    {
        if input[i] != word[i] {
            assert(input@.subrange(0, word@.len() as int)[i as int] != word@[i as int]);
            return false;
        }
        i = i + 1;
    }
    assert(input@.subrange(0, word@.len() as int) =~= word@);
    true
}

} // verus!
