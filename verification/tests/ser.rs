use fastsnbt::error::Error;
use fastsnbt::ser::{
    write_escaped_bytes, write_escaped_str, ArrayKind, ArraySerializer, CompoundSerializer,
    Serializer, ValueSlot, BYTE_ARRAY_TOKEN_STR, INT_ARRAY_TOKEN_STR, LONG_ARRAY_TOKEN_STR,
};

fn text(ser: &Serializer) -> &str {
    std::str::from_utf8(&ser.writer).unwrap()
}

fn compact() -> Serializer {
    Serializer::new(false)
}

fn pretty() -> Serializer {
    Serializer::new(true)
}

#[test]
fn new_serializer() {
    let ser = compact();
    assert!(ser.writer.is_empty());
    assert_eq!(ser.indent, None);
    let ser = pretty();
    assert!(ser.writer.is_empty());
    assert_eq!(ser.indent, Some(0));
}

#[test]
fn newline_compact_writes_nothing() {
    let mut ser = compact();
    ser.newline();
    ser.push_indent();
    ser.newline();
    assert_eq!(text(&ser), "");
    assert_eq!(ser.indent, None);
}

#[test]
fn newline_pretty_indents_by_four() {
    let mut ser = pretty();
    ser.newline();
    assert_eq!(text(&ser), "\n");
    ser.push_indent();
    ser.newline();
    assert_eq!(text(&ser), "\n\n    ");
    ser.push_indent();
    ser.push_indent();
    ser.newline();
    assert_eq!(text(&ser), "\n\n    \n            ");
    assert_eq!(ser.indent, Some(3));
}

#[test]
fn indent_saturates() {
    let mut ser = pretty();
    ser.pop_indent();
    assert_eq!(ser.indent, Some(0));
    ser.push_indent();
    ser.push_indent();
    ser.pop_indent();
    assert_eq!(ser.indent, Some(1));
    ser.pop_indent();
    ser.pop_indent();
    assert_eq!(ser.indent, Some(0));
    ser.indent = Some(usize::MAX);
    ser.push_indent();
    assert_eq!(ser.indent, Some(usize::MAX));
    ser.pop_indent();
    assert_eq!(ser.indent, Some(usize::MAX - 1));
    let mut ser = compact();
    ser.push_indent();
    assert_eq!(ser.indent, None);
    ser.pop_indent();
    assert_eq!(ser.indent, None);
    assert!(ser.writer.is_empty());
}

#[test]
fn bools() {
    let mut ser = compact();
    ser.serialize_bool(true);
    ser.serialize_bool(false);
    assert_eq!(text(&ser), "truefalse");
}

#[test]
fn signed_integers() {
    let mut ser = compact();
    ser.serialize_i8(-5);
    assert_eq!(text(&ser), "-5b");
    let mut ser = compact();
    ser.serialize_i8(i8::MIN);
    ser.serialize_i8(i8::MAX);
    ser.serialize_i8(0);
    assert_eq!(text(&ser), "-128b127b0b");
    let mut ser = compact();
    ser.serialize_i16(-32768);
    ser.serialize_i16(1234);
    assert_eq!(text(&ser), "-32768s1234s");
    let mut ser = compact();
    ser.serialize_i32(i32::MIN);
    ser.writer.push(b' ');
    ser.serialize_i32(0);
    ser.writer.push(b' ');
    ser.serialize_i32(i32::MAX);
    assert_eq!(text(&ser), "-2147483648 0 2147483647");
    let mut ser = compact();
    ser.serialize_i64(i64::MIN);
    ser.serialize_i64(i64::MAX);
    ser.serialize_i64(10);
    assert_eq!(text(&ser), "-9223372036854775808l9223372036854775807l10l");
}

#[test]
fn unsigned_integers() {
    let mut ser = compact();
    ser.serialize_u8(200);
    ser.serialize_u8(0);
    assert_eq!(text(&ser), "200b0b");
    let mut ser = compact();
    ser.serialize_u16(65535);
    assert_eq!(text(&ser), "65535s");
    let mut ser = compact();
    ser.serialize_u32(4294967295);
    assert_eq!(text(&ser), "4294967295");
    let mut ser = compact();
    ser.serialize_u64(u64::MAX);
    assert_eq!(text(&ser), "18446744073709551615l");
}

#[test]
fn floats_take_their_text() {
    let mut ser = compact();
    ser.serialize_f32(ryu::Buffer::new().format(1.5f32));
    assert_eq!(text(&ser), "1.5f");
    let mut ser = compact();
    ser.serialize_f64(ryu::Buffer::new().format(-0.25f64));
    assert_eq!(text(&ser), "-0.25");
    let mut ser = compact();
    ser.serialize_f32(ryu::Buffer::new().format(1e20f32));
    ser.writer.push(b',');
    ser.serialize_f64(ryu::Buffer::new().format(f64::INFINITY));
    assert_eq!(text(&ser), "1e20f,inf");
}

#[test]
fn strings_escape_two_bytes_only() {
    let mut ser = compact();
    ser.serialize_str("plain");
    assert_eq!(text(&ser), "\"plain\"");
    let mut ser = compact();
    ser.serialize_str("say \"hi\" \\ bye");
    assert_eq!(text(&ser), "\"say \\\"hi\\\" \\\\ bye\"");
    let mut ser = compact();
    ser.serialize_str("line\nfeed\ttab\u{0}nul 'single'");
    assert_eq!(text(&ser), "\"line\nfeed\ttab\u{0}nul 'single'\"");
    let mut ser = compact();
    ser.serialize_str("");
    assert_eq!(text(&ser), "\"\"");
    let mut ser = compact();
    ser.serialize_str("\"");
    ser.serialize_str("\\");
    ser.serialize_str("\\\"x");
    assert_eq!(text(&ser), "\"\\\"\"\"\\\\\"\"\\\\\\\"x\"");
    let mut ser = compact();
    ser.serialize_str("grüße 日本");
    assert_eq!(text(&ser), "\"grüße 日本\"");
}

#[test]
fn escaped_writers_append() {
    let mut out = b"x=".to_vec();
    write_escaped_str(&mut out, "a\"b");
    assert_eq!(out, b"x=\"a\\\"b\"");
    write_escaped_bytes(&mut out, b"c\\d");
    assert_eq!(out, b"x=\"a\\\"b\"\"c\\\\d\"");
    let mut out = Vec::new();
    write_escaped_bytes(&mut out, &[0xff, b'"', 0x00]);
    assert_eq!(out, [b'"', 0xff, b'\\', b'"', 0x00, b'"']);
}

#[test]
fn chars_are_strings() {
    let mut ser = compact();
    ser.serialize_char('a');
    assert_eq!(text(&ser), "\"a\"");
    let mut ser = compact();
    ser.serialize_char('"');
    ser.serialize_char('\\');
    assert_eq!(text(&ser), "\"\\\"\"\"\\\\\"");
    let mut ser = compact();
    ser.serialize_char('é');
    ser.serialize_char('日');
    ser.serialize_char('𝄞');
    assert_eq!(text(&ser), "\"é\"\"日\"\"𝄞\"");
}

#[test]
fn unit_variant_is_its_name() {
    let mut ser = compact();
    ser.serialize_unit_variant("North");
    assert_eq!(text(&ser), "\"North\"");
}

#[test]
fn shapes_without_text_fail() {
    let ser = compact();
    assert_eq!(ser.serialize_none(), Err(Error::NoneValue));
    assert_eq!(ser.serialize_unit(), Err(Error::UnitValue));
    assert_eq!(
        ser.serialize_unit_struct("Marker"),
        Err(Error::UnitStruct("Marker".to_string()))
    );
    assert_eq!(ser.serialize_newtype_variant(), Err(Error::NewtypeVariant));
    assert!(matches!(ser.serialize_tuple_variant(), Err(Error::TupleVariant)));
    assert_eq!(ser.serialize_struct_variant(), Err(Error::StructVariant));
    assert!(ser.writer.is_empty());
}

#[test]
fn error_messages() {
    assert_eq!(Error::NoneValue.message(), "cannot serialize None");
    assert_eq!(Error::UnitValue.message(), "cannot serialize unit: ()");
    assert_eq!(
        Error::UnitStruct("Marker".to_string()).message(),
        "cannot serialize unit struct: Marker"
    );
    assert_eq!(
        Error::NewtypeVariant.message(),
        "cannot serialize newtype variant, please open fastnbt issue"
    );
    assert_eq!(
        Error::TupleVariant.message(),
        "cannot serialize newtype tuple variant, please open fastnbt issue"
    );
    assert_eq!(
        Error::StructVariant.message(),
        "cannot serialize struct variant, please open fastnbt issue"
    );
    assert_eq!(
        Error::ValueBeforeKey.message(),
        "serialize_value called before serialize_key"
    );
    assert_eq!(
        Error::KeyWithoutValue.message(),
        "end called before serialize_value"
    );
    assert_eq!(
        Error::PayloadLength.message(),
        "typed array payload is not a whole number of elements"
    );
}

#[test]
fn byte_sequence_compact() {
    let mut ser = compact();
    ser.serialize_bytes(&[1, 2, 3]);
    assert_eq!(text(&ser), "[B;1b,2b,3b]");
    assert_eq!(ser.indent, None);
}

#[test]
fn byte_sequence_pretty() {
    let mut ser = pretty();
    ser.serialize_bytes(&[1, 200]);
    assert_eq!(text(&ser), "[\n    B;\n    1b,\n    200b\n]");
    assert_eq!(ser.indent, Some(0));
}

#[test]
fn byte_sequence_empty() {
    let mut ser = compact();
    ser.serialize_bytes(&[]);
    assert_eq!(text(&ser), "[B;]");
    let mut ser = pretty();
    ser.serialize_bytes(&[]);
    assert_eq!(text(&ser), "[B;]");
    assert_eq!(ser.indent, Some(0));
}

#[test]
fn typed_arrays() {
    let mut ser = compact();
    assert_eq!(ser.serialize_typed_array(ArrayKind::Byte, &[0xff, 0x00, 0x7f, 0x80]), Ok(()));
    assert_eq!(text(&ser), "[B;-1b,0b,127b,-128b]");
    let mut ser = compact();
    let payload = [1i32, -2, i32::MAX, i32::MIN, 0x01020304]
        .iter()
        .flat_map(|v| v.to_be_bytes())
        .collect::<Vec<u8>>();
    assert_eq!(ser.serialize_typed_array(ArrayKind::Int, &payload), Ok(()));
    assert_eq!(text(&ser), "[I;1,-2,2147483647,-2147483648,16909060]");
    let mut ser = compact();
    let payload = [i64::MIN, 5, -1, i64::MAX, 0x0102030405060708]
        .iter()
        .flat_map(|v| v.to_be_bytes())
        .collect::<Vec<u8>>();
    assert_eq!(ser.serialize_typed_array(ArrayKind::Long, &payload), Ok(()));
    assert_eq!(
        text(&ser),
        "[L;-9223372036854775808l,5l,-1l,9223372036854775807l,72623859790382856l]"
    );
    let mut ser = pretty();
    assert_eq!(ser.serialize_typed_array(ArrayKind::Long, &7i64.to_be_bytes()), Ok(()));
    assert_eq!(text(&ser), "[\n    L;\n    7l\n]");
    assert_eq!(ser.indent, Some(0));
}

#[test]
fn typed_arrays_empty() {
    let mut ser = compact();
    assert_eq!(ser.serialize_typed_array(ArrayKind::Byte, &[]), Ok(()));
    assert_eq!(ser.serialize_typed_array(ArrayKind::Int, &[]), Ok(()));
    assert_eq!(ser.serialize_typed_array(ArrayKind::Long, &[]), Ok(()));
    assert_eq!(text(&ser), "[B;][I;][L;]");
    let mut ser = pretty();
    assert_eq!(ser.serialize_typed_array(ArrayKind::Int, &[]), Ok(()));
    assert_eq!(text(&ser), "[I;]");
    assert_eq!(ser.indent, Some(0));
}

#[test]
fn typed_array_needs_whole_elements() {
    for (kind, len) in [
        (ArrayKind::Int, 1usize),
        (ArrayKind::Int, 3),
        (ArrayKind::Int, 5),
        (ArrayKind::Int, 6),
        (ArrayKind::Long, 4),
        (ArrayKind::Long, 7),
        (ArrayKind::Long, 9),
        (ArrayKind::Long, 12),
    ] {
        let mut ser = pretty();
        let payload = vec![1u8; len];
        assert_eq!(
            ser.serialize_typed_array(kind, &payload),
            Err(Error::PayloadLength)
        );
        assert!(ser.writer.is_empty());
        assert_eq!(ser.indent, Some(0));
    }
}

#[test]
fn array_kinds() {
    assert_eq!(ArrayKind::Byte.stride(), 1);
    assert_eq!(ArrayKind::Int.stride(), 4);
    assert_eq!(ArrayKind::Long.stride(), 8);
    assert_eq!(ArrayKind::Byte.prefix(), "B;");
    assert_eq!(ArrayKind::Int.prefix(), "I;");
    assert_eq!(ArrayKind::Long.prefix(), "L;");
}

#[test]
fn sequence_steps_compact() {
    let mut ser = compact();
    let mut seq = ser.serialize_seq();
    seq.serialize_element(&mut ser);
    ser.serialize_bool(true);
    seq.serialize_element(&mut ser);
    ser.serialize_bool(false);
    seq.end(&mut ser);
    assert_eq!(text(&ser), "[true,false]");
}

#[test]
fn sequence_steps_pretty() {
    let mut ser = pretty();
    let mut seq = ser.serialize_seq();
    seq.serialize_element(&mut ser);
    assert_eq!(ser.indent, Some(1));
    ser.serialize_i32(1);
    seq.serialize_element(&mut ser);
    ser.serialize_i32(2);
    assert_eq!(ser.indent, Some(1));
    seq.end(&mut ser);
    assert_eq!(text(&ser), "[\n    \n    1,\n    2\n]");
    assert_eq!(ser.indent, Some(0));
}

#[test]
fn sequence_empty() {
    let mut ser = compact();
    let seq = ser.serialize_seq();
    seq.end(&mut ser);
    assert_eq!(text(&ser), "[]");
    let mut ser = pretty();
    let seq = ArraySerializer::new("I;");
    seq.end(&mut ser);
    assert_eq!(text(&ser), "[I;]");
    assert_eq!(ser.indent, Some(0));
}

#[test]
fn sequence_nested_pretty() {
    let mut ser = pretty();
    let mut outer = ser.serialize_seq();
    outer.serialize_element(&mut ser);
    let mut inner = ser.serialize_seq();
    inner.serialize_element(&mut ser);
    ser.serialize_i8(1);
    inner.end(&mut ser);
    outer.serialize_element(&mut ser);
    let inner = ser.serialize_seq();
    inner.end(&mut ser);
    outer.end(&mut ser);
    assert_eq!(
        text(&ser),
        "[\n    \n    [\n        \n        1b\n    ],\n    []\n]"
    );
}

#[test]
fn compound_empty_is_braces() {
    let mut ser = compact();
    let compound = ser.serialize_map();
    assert_eq!(compound.end(&mut ser), Ok(()));
    assert_eq!(text(&ser), "{}");
    let mut ser = pretty();
    let compound = CompoundSerializer::new();
    assert_eq!(compound.end(&mut ser), Ok(()));
    assert_eq!(text(&ser), "{}");
    assert_eq!(ser.indent, Some(0));
    let mut ser = pretty();
    ser.push_indent();
    ser.push_indent();
    let compound = CompoundSerializer::new();
    assert_eq!(compound.end(&mut ser), Ok(()));
    assert_eq!(text(&ser), "{}");
    assert_eq!(ser.indent, Some(2));
}

fn write_sample(ser: &mut Serializer) {
    let mut compound = ser.serialize_map();
    compound.serialize_key(b"a".to_vec());
    assert_eq!(compound.serialize_value(ser), Ok(ValueSlot::Field));
    ser.serialize_i32(1);
    assert_eq!(compound.serialize_field(ser, "b"), Ok(ValueSlot::Field));
    let mut seq = ser.serialize_seq();
    seq.serialize_element(ser);
    ser.serialize_bool(true);
    seq.serialize_element(ser);
    ser.serialize_bool(false);
    seq.end(ser);
    assert_eq!(compound.end(ser), Ok(()));
}

#[test]
fn compound_compact() {
    let mut ser = compact();
    write_sample(&mut ser);
    assert_eq!(text(&ser), "{a:1,b:[true,false]}");
}

#[test]
fn compound_pretty() {
    let mut ser = pretty();
    write_sample(&mut ser);
    assert_eq!(
        text(&ser),
        "{\n    a: 1,\n    b: [\n        \n        true,\n        false\n    ]\n}"
    );
    assert_eq!(ser.indent, Some(0));
}

#[test]
fn layouts_differ_in_whitespace_only() {
    let mut ser = compact();
    write_sample(&mut ser);
    let mut other = pretty();
    write_sample(&mut other);
    assert_ne!(ser.writer, other.writer);
    let stripped: String = text(&other)
        .chars()
        .filter(|c| *c != '\n' && *c != ' ')
        .collect();
    assert_eq!(stripped, text(&ser));
    assert_eq!(stripped, "{a:1,b:[true,false]}");
}

#[test]
fn value_before_key_fails() {
    let mut ser = compact();
    let mut compound = ser.serialize_map();
    assert_eq!(compound.serialize_value(&mut ser), Err(Error::ValueBeforeKey));
    assert!(ser.writer.is_empty());
    compound.serialize_key(b"k".to_vec());
    assert_eq!(compound.serialize_value(&mut ser), Ok(ValueSlot::Field));
    ser.serialize_i8(1);
    assert_eq!(compound.serialize_value(&mut ser), Err(Error::ValueBeforeKey));
    assert_eq!(text(&ser), "{k:1b");
    assert_eq!(compound.end(&mut ser), Ok(()));
    assert_eq!(text(&ser), "{k:1b}");
    let mut ser = pretty();
    let mut compound = CompoundSerializer::new();
    assert_eq!(compound.serialize_value(&mut ser), Err(Error::ValueBeforeKey));
    assert!(ser.writer.is_empty());
    assert_eq!(ser.indent, Some(0));
}

#[test]
fn key_is_written_as_it_is() {
    let mut ser = compact();
    let mut compound = ser.serialize_map();
    compound.serialize_key(b"two words".to_vec());
    assert_eq!(compound.serialize_value(&mut ser), Ok(ValueSlot::Field));
    ser.serialize_str("v");
    compound.serialize_key(b"\"quoted\"".to_vec());
    assert_eq!(compound.serialize_value(&mut ser), Ok(ValueSlot::Field));
    ser.serialize_i64(2);
    assert_eq!(compound.end(&mut ser), Ok(()));
    assert_eq!(text(&ser), "{two words:\"v\",\"quoted\":2l}");
}

#[test]
fn later_key_replaces_pending_key() {
    let mut ser = compact();
    let mut compound = ser.serialize_map();
    compound.serialize_key(b"first".to_vec());
    compound.serialize_key(b"second".to_vec());
    assert_eq!(compound.serialize_value(&mut ser), Ok(ValueSlot::Field));
    ser.serialize_bool(true);
    assert_eq!(compound.end(&mut ser), Ok(()));
    assert_eq!(text(&ser), "{second:true}");
}

#[test]
fn reserved_keys_select_typed_arrays() {
    for (token, kind, payload, expected) in [
        (BYTE_ARRAY_TOKEN_STR, ArrayKind::Byte, vec![1u8, 0xfe], "[B;1b,-2b]"),
        (INT_ARRAY_TOKEN_STR, ArrayKind::Int, vec![0, 0, 0, 3, 0, 0, 0, 4], "[I;3,4]"),
        (LONG_ARRAY_TOKEN_STR, ArrayKind::Long, vec![0, 0, 0, 0, 0, 0, 0, 5], "[L;5l]"),
    ] {
        let mut ser = compact();
        let mut compound = ser.serialize_map();
        let slot = compound.serialize_field(&mut ser, token);
        assert_eq!(slot, Ok(ValueSlot::Array(kind)));
        assert!(ser.writer.is_empty());
        assert_eq!(ser.serialize_typed_array(kind, &payload), Ok(()));
        assert_eq!(compound.end(&mut ser), Ok(()));
        assert_eq!(text(&ser), expected);
    }
}

#[test]
fn reserved_key_through_key_step() {
    let mut ser = pretty();
    let mut compound = ser.serialize_map();
    compound.serialize_key(INT_ARRAY_TOKEN_STR.as_bytes().to_vec());
    assert_eq!(
        compound.serialize_value(&mut ser),
        Ok(ValueSlot::Array(ArrayKind::Int))
    );
    assert_eq!(ser.indent, Some(0));
    assert_eq!(
        ser.serialize_typed_array(ArrayKind::Int, &[0, 0, 0, 1, 0, 0, 0, 2]),
        Ok(())
    );
    assert_eq!(compound.end(&mut ser), Ok(()));
    assert_eq!(text(&ser), "[\n    I;\n    1,\n    2\n]");
    assert_eq!(ser.indent, Some(0));
}

#[test]
fn near_reserved_keys_are_fields() {
    let mut ser = compact();
    let mut compound = ser.serialize_map();
    assert_eq!(compound.serialize_field(&mut ser, "__fastnbt_byte_arra"), Ok(ValueSlot::Field));
    ser.serialize_i32(1);
    assert_eq!(compound.serialize_field(&mut ser, "__fastnbt_int_array_"), Ok(ValueSlot::Field));
    ser.serialize_i32(2);
    assert_eq!(compound.serialize_field(&mut ser, ""), Ok(ValueSlot::Field));
    ser.serialize_i32(3);
    assert_eq!(compound.end(&mut ser), Ok(()));
    assert_eq!(
        text(&ser),
        "{__fastnbt_byte_arra:1,__fastnbt_int_array_:2,:3}"
    );
}

#[test]
fn nested_compound_pretty() {
    let mut ser = pretty();
    let mut outer = ser.serialize_map();
    assert_eq!(outer.serialize_field(&mut ser, "pos"), Ok(ValueSlot::Field));
    let mut inner = ser.serialize_map();
    assert_eq!(inner.serialize_field(&mut ser, "x"), Ok(ValueSlot::Field));
    ser.serialize_i32(1);
    assert_eq!(inner.serialize_field(&mut ser, "y"), Ok(ValueSlot::Field));
    ser.serialize_i32(2);
    assert_eq!(inner.end(&mut ser), Ok(()));
    assert_eq!(outer.serialize_field(&mut ser, "name"), Ok(ValueSlot::Field));
    ser.serialize_str("n");
    assert_eq!(outer.end(&mut ser), Ok(()));
    assert_eq!(
        text(&ser),
        "{\n    pos: {\n        x: 1,\n        y: 2\n    },\n    name: \"n\"\n}"
    );
    assert_eq!(ser.indent, Some(0));
}

#[test]
fn end_with_pending_key_fails() {
    let mut ser = compact();
    let mut compound = ser.serialize_map();
    compound.serialize_key(b"k".to_vec());
    assert_eq!(compound.end(&mut ser), Err(Error::KeyWithoutValue));
    assert!(ser.writer.is_empty());
    let mut ser = pretty();
    let mut compound = ser.serialize_map();
    assert_eq!(compound.serialize_field(&mut ser, "a"), Ok(ValueSlot::Field));
    ser.serialize_i32(1);
    compound.serialize_key(b"b".to_vec());
    assert_eq!(compound.end(&mut ser), Err(Error::KeyWithoutValue));
    assert_eq!(text(&ser), "{\n    a: 1");
    assert_eq!(ser.indent, Some(1));
}
