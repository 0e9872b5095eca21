//! Emission of values as text.
//!
//! A [`Serializer`] holds the bytes written so far and the layout: compact,
//! or indented to a depth. Scalars are written by one call each. A sequence
//! or a compound is written in steps, because its members are values of any
//! shape that the caller writes in between: an [`ArraySerializer`] or a
//! [`CompoundSerializer`] keeps what has to be remembered from one step to
//! the next, and each step writes the brackets, separators and line breaks
//! that are due at that point.

use vstd::prelude::*;
use vstd::string::StringSliceAdditionalSpecFns;
use vstd::utf8::{encode_scalar, is_scalar};
use crate::ascii::{false_bytes, true_bytes, word_false, word_true, BACKSLASH, DOUBLE_QUOTE};
use crate::decimal::{decimal_text, format_integer};
use crate::error::Error;

verus! {

/// A byte of a string as it stands between double quotes: a double quote
/// and a backslash get a backslash in front, every other byte stands for
/// itself, control characters included.
pub open spec fn escape_byte(b: u8) -> Seq<u8> {
    if b == DOUBLE_QUOTE || b == BACKSLASH {
        seq![BACKSLASH, b]
    } else {
        seq![b]
    }
}

/// The bytes of a string as they stand between double quotes.
pub open spec fn escaped_text(s: Seq<u8>) -> Seq<u8>
    decreases s.len(),
{
    if s.len() == 0 {
        Seq::<u8>::empty()
    } else {
        escape_byte(s[0]) + escaped_text(s.drop_first())
    }
}

/// A string in double quotes.
pub open spec fn quoted_text(s: Seq<u8>) -> Seq<u8> {
    seq![DOUBLE_QUOTE] + escaped_text(s) + seq![DOUBLE_QUOTE]
}

/// Whether `b` is written as it is.
pub open spec fn is_plain(b: u8) -> bool {
    b != DOUBLE_QUOTE && b != BACKSLASH
}

/// Escaping goes byte by byte, so it goes part by part.
pub proof fn lemma_escaped_text_concat(a: Seq<u8>, b: Seq<u8>)
    ensures
        escaped_text(a + b) == escaped_text(a) + escaped_text(b),
    decreases a.len(),
{
    if a.len() == 0 {
        assert(a + b =~= b);
        assert(escaped_text(a) + escaped_text(b) =~= escaped_text(b));
    } else {
        lemma_escaped_text_concat(a.drop_first(), b);
        assert((a + b).drop_first() =~= a.drop_first() + b);
        assert(escape_byte(a[0]) + (escaped_text(a.drop_first()) + escaped_text(b)) =~= (
        escape_byte(a[0]) + escaped_text(a.drop_first())) + escaped_text(b));
    }
}

/// A string of one byte is written as that byte is.
pub proof fn lemma_escaped_text_single(b: u8)
    ensures
        escaped_text(seq![b]) == escape_byte(b),
{
    let s = seq![b];
    assert(s.drop_first() =~= Seq::<u8>::empty());
    assert(escaped_text(s.drop_first()) =~= Seq::<u8>::empty());
    assert(escape_byte(b) + Seq::<u8>::empty() =~= escape_byte(b));
}

/// A string without double quote and backslash is written as it is.
pub proof fn lemma_escaped_text_plain(s: Seq<u8>)
    requires
        forall|i: int| 0 <= i < s.len() ==> is_plain(#[trigger] s[i]),
    ensures
        escaped_text(s) == s,
    decreases s.len(),
{
    if s.len() > 0 {
        lemma_escaped_text_plain(s.drop_first());
        assert(seq![s[0]] + s.drop_first() =~= s);
    }
}

/// Writes `v` in double quotes, with a backslash in front of each double
/// quote and each backslash of `v`.
pub fn write_escaped_bytes(writer: &mut Vec<u8>, v: &[u8])
    ensures
        final(writer)@ == old(writer)@ + quoted_text(v@),
{
    writer.push(DOUBLE_QUOTE);
    let mut start: usize = 0;
    let mut i: usize = 0;
    while i < v.len()
        invariant
            start <= i <= v@.len(),
            forall|j: int| start <= j < i ==> is_plain(#[trigger] v@[j]),
            writer@ == old(writer)@ + seq![DOUBLE_QUOTE] + escaped_text(v@.take(start as int)),
        decreases v@.len() - i,
    {
        let byte = v[i];
        if byte != DOUBLE_QUOTE && byte != BACKSLASH {
            i = i + 1;
            continue ;
        }
        let ghost before = writer@;
        if start < i {
            writer.extend_from_slice(vstd::slice::slice_subrange(v, start, i));
        }
        if byte == DOUBLE_QUOTE {
            writer.push(BACKSLASH);
            writer.push(DOUBLE_QUOTE);
        } else if byte == BACKSLASH {
            writer.push(BACKSLASH);
            writer.push(BACKSLASH);
        }
        proof {
            let run = v@.subrange(start as int, i as int);
            lemma_escaped_text_plain(run);
            lemma_escaped_text_concat(v@.take(start as int), run + seq![byte]);
            lemma_escaped_text_concat(run, seq![byte]);
            lemma_escaped_text_single(byte);
            assert(v@.take(i + 1) =~= v@.take(start as int) + (run + seq![byte]));
            assert(writer@ =~= before + run + escape_byte(byte));
        }
        start = i + 1;
        i = i + 1;
    }
    if start != v.len() {
        writer.extend_from_slice(vstd::slice::slice_subrange(v, start, v.len()));
    }
    proof {
        let run = v@.subrange(start as int, v@.len() as int);
        lemma_escaped_text_plain(run);
        lemma_escaped_text_concat(v@.take(start as int), run);
        assert(v@ =~= v@.take(start as int) + run);
    }
    writer.push(DOUBLE_QUOTE);
    assert(writer@ =~= old(writer)@ + quoted_text(v@));
}

/// Writes the string `v` in double quotes, with a backslash in front of
/// each double quote and each backslash of `v`.
pub fn write_escaped_str(writer: &mut Vec<u8>, v: &str)
    ensures
        final(writer)@ == old(writer)@ + quoted_text(v.spec_bytes()),
{
    write_escaped_bytes(writer, v.as_bytes())
}

/// The bytes of one character in UTF-8: one byte for a character below
/// `0x80`, else a leading byte and one to three continuation bytes of six
/// bits each.
fn char_bytes(c: char) -> (bytes: Vec<u8>)
    ensures
        bytes@ == encode_scalar(c as u32),
{
    broadcast use vstd::utf8::char_is_scalar;

    let scalar = c as u32;
    assert(is_scalar(scalar));
    let mut bytes: Vec<u8> = Vec::new();
    if scalar <= 0x7f {
        bytes.push((scalar & 0x7f) as u8);
    } else if scalar <= 0x7ff {
        bytes.push(0xc0 | ((scalar >> 6) & 0x1f) as u8);
        bytes.push(0x80 | (scalar & 0x3f) as u8);
    } else if scalar <= 0xffff {
        bytes.push(0xe0 | ((scalar >> 12) & 0x0f) as u8);
        bytes.push(0x80 | ((scalar >> 6) & 0x3f) as u8);
        bytes.push(0x80 | (scalar & 0x3f) as u8);
    } else {
        bytes.push(0xf0 | ((scalar >> 18) & 0x7) as u8);
        bytes.push(0x80 | ((scalar >> 12) & 0x3f) as u8);
        bytes.push(0x80 | ((scalar >> 6) & 0x3f) as u8);
        bytes.push(0x80 | (scalar & 0x3f) as u8);
    }
    assert(bytes@ =~= encode_scalar(scalar));
    bytes
}

/// `n` spaces.
pub open spec fn spaces(n: int) -> Seq<u8> {
    Seq::new(
        if n >= 0 {
            n as nat
        } else {
            0
        },
        |i: int| ' ' as u8,
    )
}

/// What begins a line: nothing in compact layout; in indented layout a
/// line feed and four spaces for each level of depth.
pub open spec fn newline_text(indent: Option<usize>) -> Seq<u8> {
    match indent {
        Some(depth) => seq!['\n' as u8] + spaces(4 * depth),
        None => Seq::<u8>::empty(),
    }
}

/// The layout one level deeper. A depth at the maximum stays there.
pub open spec fn pushed(indent: Option<usize>) -> Option<usize> {
    match indent {
        Some(depth) => Some(
            if depth < usize::MAX {
                (depth + 1) as usize
            } else {
                depth
            },
        ),
        None => None,
    }
}

/// The layout one level less deep. A depth of zero stays zero.
pub open spec fn popped(indent: Option<usize>) -> Option<usize> {
    match indent {
        Some(depth) => Some(
            if depth > 0 {
                (depth - 1) as usize
            } else {
                depth
            },
        ),
        None => None,
    }
}

/// What separates a key from its value.
pub open spec fn key_separator(indent: Option<usize>) -> Seq<u8> {
    match indent {
        Some(_) => seq![':' as u8, ' ' as u8],
        None => seq![':' as u8],
    }
}

/// An 8-bit integer: its decimal text and `b`.
pub open spec fn byte_text(v: int) -> Seq<u8> {
    decimal_text(v).push('b' as u8)
}

/// A 16-bit integer: its decimal text and `s`.
pub open spec fn short_text(v: int) -> Seq<u8> {
    decimal_text(v).push('s' as u8)
}

/// A 32-bit integer: its decimal text and no suffix.
pub open spec fn int_text(v: int) -> Seq<u8> {
    decimal_text(v)
}

/// A 64-bit integer: its decimal text and `l`.
pub open spec fn long_text(v: int) -> Seq<u8> {
    decimal_text(v).push('l' as u8)
}

/// The parts with `separator` between each two.
pub open spec fn joined(parts: Seq<Seq<u8>>, separator: Seq<u8>) -> Seq<u8>
    decreases parts.len(),
{
    if parts.len() == 0 {
        Seq::<u8>::empty()
    } else if parts.len() == 1 {
        parts[0]
    } else {
        joined(parts.drop_last(), separator) + separator + parts.last()
    }
}

/// A sequence whose elements are written as `elements`, at layout `indent`.
///
/// Without elements it is the brackets around the prefix. Otherwise the
/// opening bracket, a line break, the prefix, a line break, the elements
/// with a comma and a line break between each two, a line break and the
/// closing bracket; the line breaks inside are one level deeper than the
/// last one. In compact layout a line break is nothing.
pub open spec fn array_text(prefix: Seq<u8>, elements: Seq<Seq<u8>>, indent: Option<usize>) -> Seq<
    u8,
> {
    if elements.len() == 0 {
        seq!['[' as u8] + prefix + seq![']' as u8]
    } else {
        array_head(prefix, indent) + joined(
            elements,
            seq![',' as u8] + newline_text(pushed(indent)),
        ) + newline_text(popped(pushed(indent))) + seq![']' as u8]
    }
}

/// What stands in front of the first element of a sequence.
pub open spec fn array_head(prefix: Seq<u8>, indent: Option<usize>) -> Seq<u8> {
    seq!['[' as u8] + newline_text(pushed(indent)) + prefix + newline_text(pushed(indent))
}

/// The layout behind a sequence of `count` elements that began at `indent`.
pub open spec fn indent_after(count: nat, indent: Option<usize>) -> Option<usize> {
    if count == 0 {
        indent
    } else {
        popped(pushed(indent))
    }
}

/// The sink of the text and the layout.
pub struct Serializer {
    /// The bytes written so far.
    pub writer: Vec<u8>,
    /// The depth of indentation; `None` for compact layout.
    pub indent: Option<usize>,
}

impl Serializer {
    /// A serializer that has written nothing: compact, or indented from
    /// depth zero.
    pub fn new(pretty: bool) -> (ser: Serializer)
        ensures
            ser.writer@ == Seq::<u8>::empty(),
            ser.indent == if pretty {
                Some(0usize)
            } else {
                None
            },
    {
        Serializer {
            writer: Vec::new(),
            indent: if pretty {
                Some(0)
            } else {
                None
            },
        }
    }

    /// Begins a line: writes nothing in compact layout, else a line feed
    /// and the indentation of the current depth.
    pub fn newline(&mut self)
        ensures
            final(self).writer@ == old(self).writer@ + newline_text(old(self).indent),
            final(self).indent == old(self).indent,
    {
        if let Some(indent) = self.indent {
            self.writer.push('\n' as u8);
            let mut level: usize = 0;
            while level < indent
                invariant
                    level <= indent,
                    self.indent == old(self).indent,
                    self.writer@ == old(self).writer@ + seq!['\n' as u8] + spaces(4 * level),
                decreases indent - level,
            {
                self.writer.push(' ' as u8);
                self.writer.push(' ' as u8);
                self.writer.push(' ' as u8);
                self.writer.push(' ' as u8);
                level = level + 1;
                assert(self.writer@ =~= old(self).writer@ + seq!['\n' as u8] + spaces(4 * level));
            }
            assert(self.writer@ =~= old(self).writer@ + newline_text(old(self).indent));
        } else {
            assert(self.writer@ =~= old(self).writer@ + newline_text(old(self).indent));
        }
    }

    /// Goes one level deeper; at the maximum depth it stays.
    pub fn push_indent(&mut self)
        ensures
            final(self).indent == pushed(old(self).indent),
            final(self).writer@ == old(self).writer@,
    {
        self.indent = match self.indent {
            Some(indent) => Some(indent.saturating_add(1)),
            None => None,
        };
    }

    /// Goes one level back; at depth zero it stays.
    pub fn pop_indent(&mut self)
        ensures
            final(self).indent == popped(old(self).indent),
            final(self).writer@ == old(self).writer@,
    {
        self.indent = match self.indent {
            Some(indent) => Some(indent.saturating_sub(1)),
            None => None,
        };
    }

    /// Writes the decimal text of `v`.
    fn write_decimal(&mut self, v: i128)
        ensures
            final(self).writer@ == old(self).writer@ + decimal_text(v as int),
            final(self).indent == old(self).indent,
    {
        let text = format_integer(v);
        self.writer.extend_from_slice(text.as_slice());
        assert(self.writer@ =~= old(self).writer@ + decimal_text(v as int));
    }

    /// Writes `true` or `false`.
    pub fn serialize_bool(&mut self, v: bool)
        ensures
            final(self).writer@ == old(self).writer@ + if v {
                word_true()
            } else {
                word_false()
            },
            final(self).indent == old(self).indent,
    {
        let word = if v {
            true_bytes()
        } else {
            false_bytes()
        };
        self.writer.extend_from_slice(word);
        assert(self.writer@ =~= old(self).writer@ + word@);
    }

    /// Writes an 8-bit integer: its decimal text and the suffix `b`.
    pub fn serialize_i8(&mut self, v: i8)
        ensures
            final(self).writer@ == old(self).writer@ + byte_text(v as int),
            final(self).indent == old(self).indent,
    {
        self.write_decimal(v as i128);
        self.writer.push('b' as u8);
        assert(self.writer@ =~= old(self).writer@ + byte_text(v as int));
    }

    /// Writes a 16-bit integer: its decimal text and the suffix `s`.
    pub fn serialize_i16(&mut self, v: i16)
        ensures
            final(self).writer@ == old(self).writer@ + short_text(v as int),
            final(self).indent == old(self).indent,
    {
        self.write_decimal(v as i128);
        self.writer.push('s' as u8);
        assert(self.writer@ =~= old(self).writer@ + short_text(v as int));
    }

    /// Writes a 32-bit integer: its decimal text, without a suffix.
    pub fn serialize_i32(&mut self, v: i32)
        ensures
            final(self).writer@ == old(self).writer@ + int_text(v as int),
            final(self).indent == old(self).indent,
    {
        self.write_decimal(v as i128);
    }

    /// Writes a 64-bit integer: its decimal text and the suffix `l`.
    pub fn serialize_i64(&mut self, v: i64)
        ensures
            final(self).writer@ == old(self).writer@ + long_text(v as int),
            final(self).indent == old(self).indent,
    {
        self.write_decimal(v as i128);
        self.writer.push('l' as u8);
        assert(self.writer@ =~= old(self).writer@ + long_text(v as int));
    }

    /// Writes an unsigned 8-bit integer as the signed one is written: the
    /// decimal text of its value and the suffix `b`.
    pub fn serialize_u8(&mut self, v: u8)
        ensures
            final(self).writer@ == old(self).writer@ + byte_text(v as int),
            final(self).indent == old(self).indent,
    {
        self.write_decimal(v as i128);
        self.writer.push('b' as u8);
        assert(self.writer@ =~= old(self).writer@ + byte_text(v as int));
    }

    /// Writes an unsigned 16-bit integer: the decimal text of its value and
    /// the suffix `s`.
    pub fn serialize_u16(&mut self, v: u16)
        ensures
            final(self).writer@ == old(self).writer@ + short_text(v as int),
            final(self).indent == old(self).indent,
    {
        self.write_decimal(v as i128);
        self.writer.push('s' as u8);
        assert(self.writer@ =~= old(self).writer@ + short_text(v as int));
    }

    /// Writes an unsigned 32-bit integer: the decimal text of its value,
    /// without a suffix.
    pub fn serialize_u32(&mut self, v: u32)
        ensures
            final(self).writer@ == old(self).writer@ + int_text(v as int),
            final(self).indent == old(self).indent,
    {
        self.write_decimal(v as i128);
    }

    /// Writes an unsigned 64-bit integer: the decimal text of its value and
    /// the suffix `l`.
    pub fn serialize_u64(&mut self, v: u64)
        ensures
            final(self).writer@ == old(self).writer@ + long_text(v as int),
            final(self).indent == old(self).indent,
    {
        self.write_decimal(v as i128);
        self.writer.push('l' as u8);
        assert(self.writer@ =~= old(self).writer@ + long_text(v as int));
    }

    /// Writes a 32-bit floating point number, given as its shortest decimal
    /// text that reads back as the same number: that text and the suffix `f`.
    pub fn serialize_f32(&mut self, shortest: &str)
        ensures
            final(self).writer@ == old(self).writer@ + shortest.spec_bytes().push('f' as u8),
            final(self).indent == old(self).indent,
    {
        self.writer.extend_from_slice(shortest.as_bytes());
        self.writer.push('f' as u8);
        assert(self.writer@ =~= old(self).writer@ + shortest.spec_bytes().push('f' as u8));
    }

    /// Writes a 64-bit floating point number, given as its shortest decimal
    /// text that reads back as the same number: that text, without a suffix.
    pub fn serialize_f64(&mut self, shortest: &str)
        ensures
            final(self).writer@ == old(self).writer@ + shortest.spec_bytes(),
            final(self).indent == old(self).indent,
    {
        self.writer.extend_from_slice(shortest.as_bytes());
        assert(self.writer@ =~= old(self).writer@ + shortest.spec_bytes());
    }

    /// Writes a character as a string of that one character.
    pub fn serialize_char(&mut self, v: char)
        ensures
            final(self).writer@ == old(self).writer@ + quoted_text(encode_scalar(v as u32)),
            final(self).indent == old(self).indent,
    {
        let bytes = char_bytes(v);
        write_escaped_bytes(&mut self.writer, bytes.as_slice());
    }

    /// Writes a string in double quotes, escaping double quotes and
    /// backslashes and nothing else.
    pub fn serialize_str(&mut self, v: &str)
        ensures
            final(self).writer@ == old(self).writer@ + quoted_text(v.spec_bytes()),
            final(self).indent == old(self).indent,
    {
        write_escaped_str(&mut self.writer, v);
    }

    /// Writes the name of a case without data of a tagged union, as a string.
    pub fn serialize_unit_variant(&mut self, variant: &str)
        ensures
            final(self).writer@ == old(self).writer@ + quoted_text(variant.spec_bytes()),
            final(self).indent == old(self).indent,
    {
        self.serialize_str(variant);
    }

    /// Refuses an absent value.
    pub fn serialize_none(&self) -> (r: Result<(), Error>)
        ensures
            r == Err::<(), Error>(Error::NoneValue),
    {
        Err(Error::NoneValue)
    }

    /// Refuses the unit value.
    pub fn serialize_unit(&self) -> (r: Result<(), Error>)
        ensures
            r == Err::<(), Error>(Error::UnitValue),
    {
        Err(Error::UnitValue)
    }

    /// Refuses a value of a named type without fields.
    pub fn serialize_unit_struct(&self, name: &str) -> (r: Result<(), Error>)
        ensures
            r matches Err(Error::UnitStruct(kept)) && kept@ == name@,
    {
        Err(Error::UnitStruct(name.to_owned()))
    }

    /// Refuses a case of a tagged union that wraps one value.
    pub fn serialize_newtype_variant(&self) -> (r: Result<(), Error>)
        ensures
            r == Err::<(), Error>(Error::NewtypeVariant),
    {
        Err(Error::NewtypeVariant)
    }

    /// Refuses a case of a tagged union that holds a tuple.
    pub fn serialize_tuple_variant(&self) -> (r: Result<ArraySerializer, Error>)
        ensures
            r matches Err(e) && e == Error::TupleVariant,
    {
        Err(Error::TupleVariant)
    }

    /// Refuses a case of a tagged union that holds named fields.
    pub fn serialize_struct_variant(&self) -> (r: Result<(), Error>)
        ensures
            r == Err::<(), Error>(Error::StructVariant),
    {
        Err(Error::StructVariant)
    }

    /// Begins a sequence: one without a prefix.
    pub fn serialize_seq(&self) -> (array: ArraySerializer)
        ensures
            !array.started(),
            array.prefix_text() == Seq::<u8>::empty(),
    {
        proof {
            reveal_strlit("");
            assert("".spec_bytes() =~= Seq::<u8>::empty());
        }
        ArraySerializer::new("")
    }

    /// Begins a compound.
    pub fn serialize_map(&self) -> (compound: CompoundSerializer)
        ensures
            !compound.opened(),
            !compound.has_entry(),
            compound.pending_key() is None,
    {
        CompoundSerializer::new()
    }

    /// Writes raw bytes as an array of bytes: prefix `B;`, each byte as an
    /// unsigned 8-bit integer.
    pub fn serialize_bytes(&mut self, v: &[u8])
        ensures
            final(self).writer@ == old(self).writer@ + array_text(
                ArrayKind::Byte.prefix_text(),
                Seq::new(v@.len(), |i: int| byte_text(v@[i] as int)),
                old(self).indent,
            ),
            final(self).indent == indent_after(v@.len(), old(self).indent),
    {
        let ghost elements = Seq::new(v@.len(), |i: int| byte_text(v@[i] as int));
        let ghost prefix = ArrayKind::Byte.prefix_text();
        let ghost indent = old(self).indent;
        let mut array = ArraySerializer::new(ArrayKind::Byte.prefix());
        let mut i: usize = 0;
        assert(self.writer@ =~= old(self).writer@ + array_so_far(prefix, elements.take(0), indent));
        while i < v.len()
            invariant
                i <= v@.len(),
                elements == Seq::new(v@.len(), |i: int| byte_text(v@[i] as int)),
                array.started() == (i > 0),
                array.prefix_text() == prefix,
                self.indent == if i > 0 {
                    pushed(indent)
                } else {
                    indent
                },
                self.writer@ == old(self).writer@ + array_so_far(
                    prefix,
                    elements.take(i as int),
                    indent,
                ),
            decreases v@.len() - i,
        {
            let ghost before = self.writer@;
            array.serialize_element(self);
            self.serialize_u8(v[i]);
            proof {
                lemma_array_so_far_step(prefix, elements, i as int, indent);
                assert(self.writer@ =~= before + element_lead(
                    i > 0,
                    prefix,
                    if i > 0 {
                        pushed(indent)
                    } else {
                        indent
                    },
                ) + elements[i as int]);
            }
            i = i + 1;
        }
        array.end(self);
        proof {
            assert(elements.take(v@.len() as int) =~= elements);
            lemma_array_so_far_end(prefix, elements, indent);
        }
    }

    /// Writes a typed array from its payload: the prefix of the kind, and
    /// one element for each group of as many bytes as the kind is wide,
    /// read as an integer with the most significant byte first.
    ///
    /// A payload that does not divide into whole elements is refused, and
    /// nothing is written.
    pub fn serialize_typed_array(&mut self, kind: ArrayKind, payload: &[u8]) -> (r: Result<
        (),
        Error,
    >)
        ensures
            match r {
                Ok(()) => {
                    &&& payload@.len() % (kind.width() as nat) == 0
                    &&& final(self).writer@ == old(self).writer@ + array_text(
                        kind.prefix_text(),
                        kind.element_texts(payload@),
                        old(self).indent,
                    )
                    &&& final(self).indent == indent_after(
                        kind.element_texts(payload@).len(),
                        old(self).indent,
                    )
                },
                Err(e) => {
                    &&& payload@.len() % (kind.width() as nat) != 0
                    &&& e == Error::PayloadLength
                    &&& final(self).writer@ == old(self).writer@
                    &&& final(self).indent == old(self).indent
                },
            },
    {
        let stride = kind.stride();
        if payload.len() % stride != 0 {
            return Err(Error::PayloadLength);
        }
        let ghost texts = kind.element_texts(payload@);
        let ghost prefix = kind.prefix_text();
        let ghost indent = old(self).indent;
        let mut array = ArraySerializer::new(kind.prefix());
        let mut at: usize = 0;
        let ghost mut i: int = 0;
        proof {
            assert(payload@.skip(0) =~= payload@);
            assert(texts.take(0) =~= Seq::<Seq<u8>>::empty());
            assert(self.writer@ =~= old(self).writer@ + array_so_far(prefix, texts.take(0), indent));
        }
        while at < payload.len()
            invariant
                at <= payload@.len(),
                stride == kind.width(),
                (payload@.len() - at) % (stride as int) == 0,
                texts == kind.element_texts(payload@),
                0 <= i <= texts.len(),
                texts.skip(i) == kind.element_texts(payload@.skip(at as int)),
                array.started() == (i > 0),
                array.prefix_text() == prefix,
                self.indent == if i > 0 {
                    pushed(indent)
                } else {
                    indent
                },
                self.writer@ == old(self).writer@ + array_so_far(prefix, texts.take(i), indent),
            decreases payload@.len() - at,
        {
            let ghost before = self.writer@;
            proof {
                lemma_whole_groups(payload@.len() as int, at as int, stride as int);
                lemma_element_texts_step(kind, payload@, texts, i, at as int);
            }
            array.serialize_element(self);
            let value = kind.element(payload, at);
            self.write_decimal(value as i128);
            match kind {
                ArrayKind::Byte => {
                    self.writer.push('b' as u8);
                },
                ArrayKind::Int => {},
                ArrayKind::Long => {
                    self.writer.push('l' as u8);
                },
            }
            proof {
                lemma_array_so_far_step(prefix, texts, i, indent);
                assert(self.writer@ =~= before + element_lead(
                    i > 0,
                    prefix,
                    if i > 0 {
                        pushed(indent)
                    } else {
                        indent
                    },
                ) + texts[i]);
                i = i + 1;
            }
            at = at + stride;
        }
        proof {
            assert(kind.element_texts(payload@.skip(at as int)).len() == 0);
            assert(texts.skip(i).len() == 0);
            assert(texts.take(i) =~= texts);
            lemma_array_so_far_end(prefix, texts, indent);
        }
        array.end(self);
        Ok(())
    }
}

/// What a sequence has written when `elements` are out and it is not closed.
pub open spec fn array_so_far(prefix: Seq<u8>, elements: Seq<Seq<u8>>, indent: Option<usize>) -> Seq<
    u8,
> {
    if elements.len() == 0 {
        Seq::<u8>::empty()
    } else {
        array_head(prefix, indent) + joined(
            elements,
            seq![',' as u8] + newline_text(pushed(indent)),
        )
    }
}

/// What a step of a sequence writes in front of an element: the head in
/// front of the first, a comma and a line break in front of the others.
pub open spec fn element_lead(started: bool, prefix: Seq<u8>, indent: Option<usize>) -> Seq<u8> {
    if started {
        seq![',' as u8] + newline_text(indent)
    } else {
        array_head(prefix, indent)
    }
}

/// What the last step of a sequence writes.
pub open spec fn array_close(started: bool, prefix: Seq<u8>, indent: Option<usize>) -> Seq<u8> {
    if started {
        newline_text(popped(indent)) + seq![']' as u8]
    } else {
        seq!['[' as u8] + prefix + seq![']' as u8]
    }
}

/// One more element: the lead and the element behind what was written.
pub proof fn lemma_array_so_far_step(
    prefix: Seq<u8>,
    elements: Seq<Seq<u8>>,
    i: int,
    indent: Option<usize>,
)
    requires
        0 <= i < elements.len(),
    ensures
        array_so_far(prefix, elements.take(i + 1), indent) == array_so_far(
            prefix,
            elements.take(i),
            indent,
        ) + element_lead(i > 0, prefix, if i > 0 {
            pushed(indent)
        } else {
            indent
        }) + elements[i],
{
    let separator = seq![',' as u8] + newline_text(pushed(indent));
    let now = elements.take(i + 1);
    assert(now.last() == elements[i]);
    if i > 0 {
        assert(now.drop_last() =~= elements.take(i));
        assert(array_head(prefix, indent) + (joined(elements.take(i), separator) + separator
            + elements[i]) =~= array_head(prefix, indent) + joined(elements.take(i), separator)
            + separator + elements[i]);
    } else {
        assert(now[0] == elements[0]);
        assert(Seq::<u8>::empty() + array_head(prefix, indent) + elements[0] =~= array_head(
            prefix,
            indent,
        ) + elements[0]);
    }
}

/// The closing step completes the text of the sequence.
pub proof fn lemma_array_so_far_end(prefix: Seq<u8>, elements: Seq<Seq<u8>>, indent: Option<usize>)
    ensures
        array_text(prefix, elements, indent) == array_so_far(prefix, elements, indent)
            + array_close(elements.len() > 0, prefix, if elements.len() > 0 {
            pushed(indent)
        } else {
            indent
        }),
{
    if elements.len() == 0 {
        assert(Seq::<u8>::empty() + (seq!['[' as u8] + prefix + seq![']' as u8]) =~= seq![
            '[' as u8,
        ] + prefix + seq![']' as u8]);
    } else {
        let separator = seq![',' as u8] + newline_text(pushed(indent));
        assert(array_head(prefix, indent) + joined(elements, separator) + (newline_text(
            popped(pushed(indent)),
        ) + seq![']' as u8]) =~= array_head(prefix, indent) + joined(elements, separator)
            + newline_text(popped(pushed(indent))) + seq![']' as u8]);
    }
}

/// The number that bytes denote, most significant byte first.
pub open spec fn big_endian(bytes: Seq<u8>) -> nat
    decreases bytes.len(),
{
    if bytes.len() == 0 {
        0
    } else {
        big_endian(bytes.drop_last()) * 256 + bytes.last() as nat
    }
}

/// The signed number that `unsigned` stands for in two's complement, where
/// `half` is the first number that stands for a negative one.
pub open spec fn twos_complement(unsigned: int, half: int) -> int {
    if unsigned >= half {
        unsigned - 2 * half
    } else {
        unsigned
    }
}

/// 256 to the power of `n`.
spec fn power_of_256(n: nat) -> nat
    decreases n,
{
    if n == 0 {
        1
    } else {
        256 * power_of_256((n - 1) as nat)
    }
}

/// The powers of 256 up to the eighth.
proof fn lemma_power_of_256(n: nat)
    requires
        n <= 8,
    ensures
        power_of_256(n) <= 0x1_0000_0000_0000_0000,
        n < 8 ==> power_of_256(n) * 256 == power_of_256(n + 1),
        n < 8 ==> power_of_256(n) <= 0x100_0000_0000_0000,
        power_of_256(4) == 0x1_0000_0000,
        power_of_256(8) == 0x1_0000_0000_0000_0000,
{
    reveal_with_fuel(power_of_256, 10);
}

/// The number that a single byte denotes is that byte.
proof fn lemma_big_endian_single(bytes: Seq<u8>)
    requires
        bytes.len() == 1,
    ensures
        big_endian(bytes) == bytes[0],
{
    assert(bytes.drop_last() =~= Seq::<u8>::empty());
    reveal_with_fuel(big_endian, 2);
}

/// Where whole groups of `stride` bytes remain and the end is not reached,
/// a whole group lies ahead, and whole groups remain behind it.
proof fn lemma_whole_groups(len: int, at: int, stride: int)
    requires
        stride == 1 || stride == 4 || stride == 8,
        0 <= at < len,
        (len - at) % stride == 0,
    ensures
        at + stride <= len,
        (len - (at + stride)) % stride == 0,
{
}

/// The texts of a payload, taken from the element that begins at `at`:
/// the first is the text of the group at `at`, the others are those of the
/// payload behind that group.
proof fn lemma_element_texts_step(
    kind: ArrayKind,
    payload: Seq<u8>,
    texts: Seq<Seq<u8>>,
    i: int,
    at: int,
)
    requires
        0 <= at,
        at + kind.width() <= payload.len(),
        0 <= i <= texts.len(),
        texts.skip(i) == kind.element_texts(payload.skip(at)),
    ensures
        i < texts.len(),
        texts[i] == kind.element_text(
            kind.element_value(payload.subrange(at, at + kind.width())),
        ),
        texts.skip(i + 1) == kind.element_texts(payload.skip(at + kind.width())),
{
    let width = kind.width() as int;
    let rest = payload.skip(at);
    assert(rest.len() >= width);
    assert(rest.take(width) =~= payload.subrange(at, at + width));
    assert(rest.skip(width) =~= payload.skip(at + width));
    let first = seq![kind.element_text(kind.element_value(rest.take(width)))];
    assert(kind.element_texts(rest) == first + kind.element_texts(rest.skip(width)));
    assert(texts.skip(i).len() > 0);
    assert(texts[i] == texts.skip(i)[0]);
    assert(texts.skip(i + 1) =~= texts.skip(i).drop_first());
    assert((first + kind.element_texts(rest.skip(width))).drop_first() =~= kind.element_texts(
        rest.skip(width),
    ));
}

/// The three kinds of typed array.
#[derive(Debug, Clone, Copy, PartialEq, Eq, Structural)]
pub enum ArrayKind {
    /// 8-bit elements, prefix `B;`.
    Byte,
    /// 32-bit elements, prefix `I;`.
    Int,
    /// 64-bit elements, prefix `L;`.
    Long,
}

impl ArrayKind {
    /// The prefix that stands behind the opening bracket.
    pub open spec fn prefix_text(self) -> Seq<u8> {
        match self {
            ArrayKind::Byte => seq!['B' as u8, ';' as u8],
            ArrayKind::Int => seq!['I' as u8, ';' as u8],
            ArrayKind::Long => seq!['L' as u8, ';' as u8],
        }
    }

    /// The width of an element in bytes.
    pub open spec fn width(self) -> usize {
        match self {
            ArrayKind::Byte => 1,
            ArrayKind::Int => 4,
            ArrayKind::Long => 8,
        }
    }

    /// An element as it is written: as an integer of the kind's width.
    pub open spec fn element_text(self, v: int) -> Seq<u8> {
        match self {
            ArrayKind::Byte => byte_text(v),
            ArrayKind::Int => int_text(v),
            ArrayKind::Long => long_text(v),
        }
    }

    /// The integer that one element's bytes denote: a number in two's
    /// complement of the kind's width, most significant byte first.
    pub open spec fn element_value(self, group: Seq<u8>) -> int {
        match self {
            ArrayKind::Byte => twos_complement(big_endian(group) as int, 0x80),
            ArrayKind::Int => twos_complement(big_endian(group) as int, 0x8000_0000),
            ArrayKind::Long => twos_complement(big_endian(group) as int, 0x8000_0000_0000_0000),
        }
    }

    /// The elements of a payload as they are written, one for each group
    /// of as many bytes as the kind is wide.
    pub open spec fn element_texts(self, payload: Seq<u8>) -> Seq<Seq<u8>>
        decreases payload.len(),
    {
        if payload.len() < self.width() {
            Seq::<Seq<u8>>::empty()
        } else {
            seq![self.element_text(self.element_value(payload.take(self.width() as int)))]
                + self.element_texts(payload.skip(self.width() as int))
        }
    }

    /// Reads the element whose bytes begin at `at`.
    fn element(&self, payload: &[u8], at: usize) -> (value: i64)
        requires
            at + self.width() <= payload@.len(),
        ensures
            value == self.element_value(payload@.subrange(at as int, at + self.width())),
    {
        let ghost group = payload@.subrange(at as int, at + self.width());
        let len = payload.len();
        match self {
            ArrayKind::Byte => {
                let unsigned: u64 = payload[at] as u64;
                proof {
                    lemma_big_endian_single(group);
                }
                if unsigned >= 0x80 {
                    (unsigned as i64) - 0x100
                } else {
                    unsigned as i64
                }
            },
            ArrayKind::Int => {
                let mut unsigned: u64 = 0;
                let mut k: usize = 0;
                while k < 4
                    invariant
                        k <= 4,
                        at + 4 <= len == payload@.len(),
                        group == payload@.subrange(at as int, at + 4),
                        unsigned == big_endian(group.take(k as int)),
                        unsigned < power_of_256(k as nat),
                    decreases 4 - k,
                {
                    proof {
                        assert(group.take(k + 1).drop_last() =~= group.take(k as int));
                        assert(group.take(k + 1).last() == payload@[at + k]);
                        lemma_power_of_256(k as nat);
                    }
                    unsigned = unsigned * 256 + payload[at + k] as u64;
                    k = k + 1;
                }
                proof {
                    assert(group.take(4) =~= group);
                    lemma_power_of_256(4);
                }
                if unsigned >= 0x8000_0000 {
                    (unsigned as i64) - 0x1_0000_0000
                } else {
                    unsigned as i64
                }
            },
            ArrayKind::Long => {
                let mut unsigned: u64 = 0;
                let mut k: usize = 0;
                while k < 8
                    invariant
                        k <= 8,
                        at + 8 <= len == payload@.len(),
                        group == payload@.subrange(at as int, at + 8),
                        unsigned == big_endian(group.take(k as int)),
                        unsigned < power_of_256(k as nat),
                    decreases 8 - k,
                {
                    proof {
                        assert(group.take(k + 1).drop_last() =~= group.take(k as int));
                        assert(group.take(k + 1).last() == payload@[at + k]);
                        lemma_power_of_256(k as nat);
                        lemma_power_of_256(8);
                    }
                    unsigned = unsigned * 256 + payload[at + k] as u64;
                    k = k + 1;
                }
                proof {
                    assert(group.take(8) =~= group);
                }
                if unsigned >= 0x8000_0000_0000_0000 {
                    ((unsigned - 0x8000_0000_0000_0000) as i64) + i64::MIN
                } else {
                    unsigned as i64
                }
            },
        }
    }

    /// The width of an element in bytes: 1, 4 or 8.
    pub fn stride(&self) -> (n: usize)
        ensures
            n == self.width(),
    {
        match self {
            ArrayKind::Byte => 1,
            ArrayKind::Int => 4,
            ArrayKind::Long => 8,
        }
    }

    /// The prefix that stands behind the opening bracket: `B;`, `I;` or `L;`.
    pub fn prefix(&self) -> (text: &'static str)
        ensures
            text.spec_bytes() == self.prefix_text(),
    {
        proof {
            reveal_strlit("B;");
            reveal_strlit("I;");
            reveal_strlit("L;");
        }
        let text = match self {
            ArrayKind::Byte => "B;",
            ArrayKind::Int => "I;",
            ArrayKind::Long => "L;",
        };
        assert(text.is_ascii());
        let ghost bytes = text.spec_bytes();
        proof {
            broadcast use vstd::string::is_ascii_spec_bytes;

            assert(bytes.len() == 2);
            assert(bytes[0] == text@[0] as u8);
            assert(bytes[1] == text@[1] as u8);
            assert(bytes =~= self.prefix_text());
        }
        text
    }
}

/// The steps of a sequence.
///
/// It begins with no element written. The step in front of the first
/// element writes the opening bracket and the prefix; the step in front of
/// each further element writes a comma; the last step closes the bracket,
/// or writes the whole empty sequence if no element came.
pub struct ArraySerializer {
    first: bool,
    prefix: &'static str,
}

impl ArraySerializer {
    /// Whether the step in front of the first element has been taken.
    pub closed spec fn started(&self) -> bool {
        self.first
    }

    /// The prefix: empty for a plain sequence, `B;`, `I;` or `L;` for a
    /// typed array.
    pub closed spec fn prefix_text(&self) -> Seq<u8> {
        self.prefix.spec_bytes()
    }

    /// A sequence with the given prefix, of which nothing is written yet.
    pub fn new(prefix: &'static str) -> (array: ArraySerializer)
        ensures
            !array.started(),
            array.prefix_text() == prefix.spec_bytes(),
    {
        ArraySerializer { first: false, prefix }
    }

    /// The step in front of an element; the caller writes the element next.
    ///
    /// In front of the first element it writes the opening bracket, a line
    /// break one level deeper, the prefix and a line break, and the
    /// serializer stays one level deeper. In front of any other it writes a
    /// comma and a line break.
    pub fn serialize_element(&mut self, ser: &mut Serializer)
        ensures
            final(self).started(),
            final(self).prefix_text() == old(self).prefix_text(),
            final(ser).writer@ == old(ser).writer@ + element_lead(
                old(self).started(),
                old(self).prefix_text(),
                old(ser).indent,
            ),
            final(ser).indent == if old(self).started() {
                old(ser).indent
            } else {
                pushed(old(ser).indent)
            },
    {
        if !self.first {
            self.first = true;
            ser.writer.push('[' as u8);
            ser.push_indent();
            ser.newline();
            ser.writer.extend_from_slice(self.prefix.as_bytes());
        } else {
            ser.writer.push(',' as u8);
        }
        ser.newline();
        proof {
            let indent = old(ser).indent;
            if old(self).started() {
                assert(ser.writer@ =~= old(ser).writer@ + (seq![',' as u8] + newline_text(indent)));
            } else {
                assert(ser.writer@ =~= old(ser).writer@ + (seq!['[' as u8] + newline_text(
                    pushed(indent),
                ) + self.prefix_text() + newline_text(pushed(indent))));
            }
        }
    }

    /// The last step. After elements it goes one level back and writes a
    /// line break and the closing bracket. Without any it writes the opening
    /// bracket, the prefix and the closing bracket.
    pub fn end(self, ser: &mut Serializer)
        ensures
            final(ser).writer@ == old(ser).writer@ + array_close(
                self.started(),
                self.prefix_text(),
                old(ser).indent,
            ),
            final(ser).indent == if self.started() {
                popped(old(ser).indent)
            } else {
                old(ser).indent
            },
    {
        if self.first {
            ser.pop_indent();
            ser.newline();
        } else {
            ser.writer.push('[' as u8);
            ser.writer.extend_from_slice(self.prefix.as_bytes());
        }
        ser.writer.push(']' as u8);
        proof {
            let indent = old(ser).indent;
            if self.started() {
                assert(ser.writer@ =~= old(ser).writer@ + (newline_text(popped(indent)) + seq![
                    ']' as u8,
                ]));
            } else {
                assert(ser.writer@ =~= old(ser).writer@ + (seq!['[' as u8] + self.prefix_text()
                    + seq![']' as u8]));
            }
        }
    }
}

/// The key that marks its value as an array of bytes.
pub const BYTE_ARRAY_TOKEN_STR: &'static str = "__fastnbt_byte_array";

/// The key that marks its value as an array of 32-bit integers.
pub const INT_ARRAY_TOKEN_STR: &'static str = "__fastnbt_int_array";

/// The key that marks its value as an array of 64-bit integers.
pub const LONG_ARRAY_TOKEN_STR: &'static str = "__fastnbt_long_array";

/// How the value behind a key is to be written.
#[derive(Debug, Clone, Copy, PartialEq, Eq, Structural)]
pub enum ValueSlot {
    /// As a field of the compound: the key is written, and the value
    /// behind it in its own form.
    Field,
    /// As a typed array in place of the compound: the key is not written.
    Array(ArrayKind),
}

/// The slot that a key stands for: a typed array for each of the three
/// reserved keys, a field for every other.
pub open spec fn slot_of(name: Seq<u8>) -> ValueSlot {
    if name == BYTE_ARRAY_TOKEN_STR.spec_bytes() {
        ValueSlot::Array(ArrayKind::Byte)
    } else if name == INT_ARRAY_TOKEN_STR.spec_bytes() {
        ValueSlot::Array(ArrayKind::Int)
    } else if name == LONG_ARRAY_TOKEN_STR.spec_bytes() {
        ValueSlot::Array(ArrayKind::Long)
    } else {
        ValueSlot::Field
    }
}

/// What a compound writes in front of a value: behind an earlier entry a
/// comma and a line break; and for a field the opening brace and a line
/// break one level deeper, if the brace is not open yet, then the key and
/// the separator. A reserved key is not written.
pub open spec fn value_lead(
    opened: bool,
    has_entry: bool,
    name: Seq<u8>,
    indent: Option<usize>,
) -> Seq<u8> {
    let comma = if has_entry {
        seq![',' as u8] + newline_text(indent)
    } else {
        Seq::<u8>::empty()
    };
    let brace = if opened {
        Seq::<u8>::empty()
    } else {
        seq!['{' as u8] + newline_text(pushed(indent))
    };
    if slot_of(name) is Field {
        comma + brace + name + key_separator(indent)
    } else {
        comma
    }
}

/// What the last step of a compound writes where no key waits: behind
/// fields a line break one level back and the closing brace; without any
/// entry the empty compound; behind typed arrays alone nothing.
pub open spec fn compound_close(opened: bool, has_entry: bool, indent: Option<usize>) -> Seq<u8> {
    if opened {
        newline_text(popped(indent)) + seq!['}' as u8]
    } else if !has_entry {
        seq!['{' as u8, '}' as u8]
    } else {
        Seq::<u8>::empty()
    }
}

/// Whether two byte strings are equal.
fn bytes_equal(a: &[u8], b: &[u8]) -> (r: bool)
    ensures
        r == (a@ == b@),
{
    if a.len() != b.len() {
        return false;
    }
    let mut i: usize = 0;
    while i < a.len()
        invariant
            i <= a@.len(),
            a@.len() == b@.len(),
            forall|j: int| 0 <= j < i ==> a@[j] == b@[j],
        decreases a@.len() - i,
    {
        if a[i] != b[i] {
            return false;
        }
        i = i + 1;
    }
    assert(a@ =~= b@);
    true
}

/// Finds the slot that a key stands for.
pub fn slot_for(name: &[u8]) -> (slot: ValueSlot)
    ensures
        slot == slot_of(name@),
{
    if bytes_equal(name, BYTE_ARRAY_TOKEN_STR.as_bytes()) {
        ValueSlot::Array(ArrayKind::Byte)
    } else if bytes_equal(name, INT_ARRAY_TOKEN_STR.as_bytes()) {
        ValueSlot::Array(ArrayKind::Int)
    } else if bytes_equal(name, LONG_ARRAY_TOKEN_STR.as_bytes()) {
        ValueSlot::Array(ArrayKind::Long)
    } else {
        ValueSlot::Field
    }
}

/// The steps of a compound.
///
/// Each entry takes two steps: the key, which is kept, and the value, in
/// front of which the kept key is written. A key is used up by exactly one
/// value: a value without a key is refused, and so is the last step, which
/// closes the compound, while a key still waits.
pub struct CompoundSerializer {
    is_compound: bool,
    has_first: bool,
    key: Option<Vec<u8>>,
}

impl CompoundSerializer {
    /// Whether the opening brace has been written.
    pub closed spec fn opened(&self) -> bool {
        self.is_compound
    }

    /// Whether an entry has been written, field or typed array.
    pub closed spec fn has_entry(&self) -> bool {
        self.has_first
    }

    /// The key that waits for its value.
    pub closed spec fn pending_key(&self) -> Option<Seq<u8>> {
        match self.key {
            Some(name) => Some(name@),
            None => None,
        }
    }

    /// A compound of which nothing is written yet.
    pub fn new() -> (compound: CompoundSerializer)
        ensures
            !compound.opened(),
            !compound.has_entry(),
            compound.pending_key() is None,
    {
        CompoundSerializer { is_compound: false, has_first: false, key: None }
    }

    /// Keeps `name` as the key of the next value. A key that still waited
    /// is dropped. Nothing is written.
    pub fn serialize_key(&mut self, name: Vec<u8>)
        ensures
            final(self).pending_key() == Some(name@),
            final(self).opened() == old(self).opened(),
            final(self).has_entry() == old(self).has_entry(),
    {
        self.key = Some(name);
    }

    /// The step in front of a value; the caller writes the value next, in
    /// the form that the result names.
    ///
    /// Without a pending key it fails and nothing changes. Otherwise the
    /// key is used up. Behind an earlier entry a comma and a line break are
    /// written. For one of the three reserved keys that is all: the value is
    /// to be written as the typed array of that kind, and the key is left
    /// out. For any other key the opening brace and a line break one level
    /// deeper are written if the brace is not open yet, then the key and the
    /// separator, and the value is to be written in its own form.
    pub fn serialize_value(&mut self, ser: &mut Serializer) -> (r: Result<ValueSlot, Error>)
        ensures
            match old(self).pending_key() {
                None => {
                    &&& r == Err::<ValueSlot, Error>(Error::ValueBeforeKey)
                    &&& final(self).pending_key() is None
                    &&& final(self).opened() == old(self).opened()
                    &&& final(self).has_entry() == old(self).has_entry()
                    &&& final(ser).writer@ == old(ser).writer@
                    &&& final(ser).indent == old(ser).indent
                },
                Some(name) => {
                    &&& r == Ok::<ValueSlot, Error>(slot_of(name))
                    &&& final(self).pending_key() is None
                    &&& final(self).has_entry()
                    &&& final(self).opened() == (old(self).opened() || slot_of(name) is Field)
                    &&& final(ser).writer@ == old(ser).writer@ + value_lead(
                        old(self).opened(),
                        old(self).has_entry(),
                        name,
                        old(ser).indent,
                    )
                    &&& final(ser).indent == if slot_of(name) is Field && !old(self).opened() {
                        pushed(old(ser).indent)
                    } else {
                        old(ser).indent
                    }
                },
            },
    {
        let name = match self.key.take() {
            Some(name) => name,
            None => {
                return Err(Error::ValueBeforeKey);
            },
        };
        let ghost indent = old(ser).indent;
        let ghost comma = if old(self).has_entry() {
            seq![',' as u8] + newline_text(indent)
        } else {
            Seq::<u8>::empty()
        };
        if !self.has_first {
            self.has_first = true;
        } else {
            ser.writer.push(',' as u8);
            ser.newline();
        }
        assert(ser.writer@ =~= old(ser).writer@ + comma);
        let slot = slot_for(name.as_slice());
        match slot {
            ValueSlot::Array(_) => {},
            ValueSlot::Field => {
                let ghost brace = if old(self).opened() {
                    Seq::<u8>::empty()
                } else {
                    seq!['{' as u8] + newline_text(pushed(indent))
                };
                if !self.is_compound {
                    self.is_compound = true;
                    ser.writer.push('{' as u8);
                    ser.push_indent();
                    ser.newline();
                }
                assert(ser.writer@ =~= old(ser).writer@ + comma + brace);
                ser.writer.extend_from_slice(name.as_slice());
                if ser.indent.is_some() {
                    ser.writer.push(':' as u8);
                    ser.writer.push(' ' as u8);
                } else {
                    ser.writer.push(':' as u8);
                }
                assert(ser.writer@ =~= old(ser).writer@ + (comma + brace + name@ + key_separator(
                    indent,
                )));
            },
        }
        Ok(slot)
    }

    /// Both steps of an entry whose key is a field name: the name is kept
    /// as it is, without quotes, and the step in front of the value
    /// follows, which cannot fail then. A key that still waited is dropped.
    pub fn serialize_field(&mut self, ser: &mut Serializer, key: &str) -> (r: Result<
        ValueSlot,
        Error,
    >)
        ensures
            r == Ok::<ValueSlot, Error>(slot_of(key.spec_bytes())),
            final(self).pending_key() is None,
            final(self).has_entry(),
            final(self).opened() == (old(self).opened() || slot_of(key.spec_bytes()) is Field),
            final(ser).writer@ == old(ser).writer@ + value_lead(
                old(self).opened(),
                old(self).has_entry(),
                key.spec_bytes(),
                old(ser).indent,
            ),
            final(ser).indent == if slot_of(key.spec_bytes()) is Field && !old(self).opened() {
                pushed(old(ser).indent)
            } else {
                old(ser).indent
            },
    {
        self.serialize_key(vstd::slice::slice_to_vec(key.as_bytes()));
        self.serialize_value(ser)
    }

    /// The last step.
    ///
    /// With a key that still waits for its value it fails and nothing is
    /// written. Otherwise, behind fields it goes one level back and writes
    /// a line break and the closing brace; without any entry it writes
    /// `{}`; behind typed arrays alone it writes nothing.
    pub fn end(self, ser: &mut Serializer) -> (r: Result<(), Error>)
        ensures
            match self.pending_key() {
                Some(_) => {
                    &&& r == Err::<(), Error>(Error::KeyWithoutValue)
                    &&& final(ser).writer@ == old(ser).writer@
                    &&& final(ser).indent == old(ser).indent
                },
                None => {
                    &&& r == Ok::<(), Error>(())
                    &&& final(ser).writer@ == old(ser).writer@ + compound_close(
                        self.opened(),
                        self.has_entry(),
                        old(ser).indent,
                    )
                    &&& final(ser).indent == if self.opened() {
                        popped(old(ser).indent)
                    } else {
                        old(ser).indent
                    }
                },
            },
    {
        if self.key.is_some() {
            return Err(Error::KeyWithoutValue);
        }
        if self.is_compound {
            ser.pop_indent();
            ser.newline();
            ser.writer.push('}' as u8);
            assert(ser.writer@ =~= old(ser).writer@ + (newline_text(popped(old(ser).indent))
                + seq!['}' as u8]));
        } else if !self.has_first {
            ser.writer.push('{' as u8);
            ser.writer.push('}' as u8);
            assert(ser.writer@ =~= old(ser).writer@ + seq!['{' as u8, '}' as u8]);
        } else {
            assert(ser.writer@ =~= old(ser).writer@ + Seq::<u8>::empty());
        }
        Ok(())
    }
}

} // verus!
