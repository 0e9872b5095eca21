use std::borrow::Cow;

use fastsnbt::error::ParseError;
use fastsnbt::parser::{
    decimal, exp, float, float_num, parse_bool, parse_f32, parse_f64, parse_i16, parse_i32,
    parse_i64, parse_i8, parse_simple_string, parse_str,
};

#[test]
fn bool_true_and_false() {
    assert_eq!(parse_bool("true"), Ok(("", true)));
    assert_eq!(parse_bool("false"), Ok(("", false)));
    assert_eq!(parse_bool("true,false"), Ok((",false", true)));
    assert_eq!(parse_bool("falsetto"), Ok(("tto", false)));
    assert_eq!(parse_bool("trueé"), Ok(("é", true)));
}

#[test]
fn bool_is_case_sensitive() {
    assert_eq!(parse_bool("True"), Err(ParseError::NoMatch));
    assert_eq!(parse_bool("FALSE"), Err(ParseError::NoMatch));
    assert_eq!(parse_bool("tru"), Err(ParseError::NoMatch));
    assert_eq!(parse_bool(""), Err(ParseError::NoMatch));
    assert_eq!(parse_bool(" true"), Err(ParseError::NoMatch));
}

#[test]
fn decimal_grammar() {
    assert_eq!(decimal(b"0"), Some(1));
    assert_eq!(decimal(b"007"), Some(1));
    assert_eq!(decimal(b"-0"), Some(2));
    assert_eq!(decimal(b"+17x"), Some(3));
    assert_eq!(decimal(b"1234567890123456789012345678901234567890"), Some(40));
    assert_eq!(decimal(b"-"), None);
    assert_eq!(decimal(b"+"), None);
    assert_eq!(decimal(b""), None);
    assert_eq!(decimal(b"x1"), None);
    assert_eq!(decimal(b"--1"), None);
}

#[test]
fn i8_needs_its_suffix() {
    assert_eq!(parse_i8("12b"), Ok(("", 12)));
    assert_eq!(parse_i8("12B"), Ok(("", 12)));
    assert_eq!(parse_i8("-128b"), Ok(("", -128)));
    assert_eq!(parse_i8("127b,"), Ok((",", 127)));
    assert_eq!(parse_i8("+5b"), Ok(("", 5)));
    assert_eq!(parse_i8("-0b"), Ok(("", 0)));
    assert_eq!(parse_i8("12"), Err(ParseError::NoMatch));
    assert_eq!(parse_i8("12s"), Err(ParseError::NoMatch));
    assert_eq!(parse_i8("b"), Err(ParseError::NoMatch));
    assert_eq!(parse_i8("007b"), Err(ParseError::NoMatch));
}

#[test]
fn i8_out_of_range() {
    assert_eq!(parse_i8("128b"), Err(ParseError::OutOfRange));
    assert_eq!(parse_i8("-129b"), Err(ParseError::OutOfRange));
    assert_eq!(parse_i8("300B"), Err(ParseError::OutOfRange));
    assert_eq!(
        parse_i8("99999999999999999999999999999999b"),
        Err(ParseError::OutOfRange)
    );
    assert_eq!(parse_i8("300"), Err(ParseError::NoMatch));
}

#[test]
fn i16_needs_its_suffix() {
    assert_eq!(parse_i16("12s"), Ok(("", 12)));
    assert_eq!(parse_i16("-32768S"), Ok(("", -32768)));
    assert_eq!(parse_i16("32767sx"), Ok(("x", 32767)));
    assert_eq!(parse_i16("32768s"), Err(ParseError::OutOfRange));
    assert_eq!(parse_i16("-32769s"), Err(ParseError::OutOfRange));
    assert_eq!(parse_i16("12b"), Err(ParseError::NoMatch));
    assert_eq!(parse_i16("12"), Err(ParseError::NoMatch));
}

#[test]
fn i32_takes_no_suffix() {
    assert_eq!(parse_i32("12"), Ok(("", 12)));
    assert_eq!(parse_i32("12b"), Ok(("b", 12)));
    assert_eq!(parse_i32("12l"), Ok(("l", 12)));
    assert_eq!(parse_i32("123abc"), Ok(("abc", 123)));
    assert_eq!(parse_i32("-2147483648"), Ok(("", i32::MIN)));
    assert_eq!(parse_i32("2147483647]"), Ok(("]", i32::MAX)));
    assert_eq!(parse_i32("+42"), Ok(("", 42)));
    assert_eq!(parse_i32("-0"), Ok(("", 0)));
    assert_eq!(parse_i32("7é"), Ok(("é", 7)));
    assert_eq!(parse_i32("2147483648"), Err(ParseError::OutOfRange));
    assert_eq!(parse_i32("-2147483649"), Err(ParseError::OutOfRange));
    assert_eq!(parse_i32(""), Err(ParseError::NoMatch));
    assert_eq!(parse_i32("-"), Err(ParseError::NoMatch));
    assert_eq!(parse_i32("abc"), Err(ParseError::NoMatch));
    assert_eq!(parse_i32(".5"), Err(ParseError::NoMatch));
    assert_eq!(parse_i32("٣"), Err(ParseError::NoMatch));
}

#[test]
fn leading_zero_ends_the_decimal() {
    assert_eq!(parse_i32("007"), Ok(("07", 0)));
    assert_eq!(parse_i32("-01"), Ok(("1", 0)));
    assert_eq!(parse_i32("0"), Ok(("", 0)));
    assert_eq!(parse_i32("10"), Ok(("", 10)));
}

#[test]
fn i64_needs_its_suffix() {
    assert_eq!(parse_i64("12l"), Ok(("", 12)));
    assert_eq!(parse_i64("12L"), Ok(("", 12)));
    assert_eq!(parse_i64("9223372036854775807l"), Ok(("", i64::MAX)));
    assert_eq!(parse_i64("-9223372036854775808L,"), Ok((",", i64::MIN)));
    assert_eq!(parse_i64("9223372036854775808l"), Err(ParseError::OutOfRange));
    assert_eq!(parse_i64("-9223372036854775809l"), Err(ParseError::OutOfRange));
    assert_eq!(parse_i64("18446744073709551616l"), Err(ParseError::OutOfRange));
    assert_eq!(parse_i64("92233720368547758070l"), Err(ParseError::OutOfRange));
    assert_eq!(parse_i64("12"), Err(ParseError::NoMatch));
}

#[test]
fn exponent_grammar() {
    assert_eq!(exp(b"e5", 0), Ok(2));
    assert_eq!(exp(b"E+15x", 0), Ok(4));
    assert_eq!(exp(b"1e-3", 1), Ok(4));
    assert_eq!(exp(b"e", 0), Err(ParseError::MalformedExponent));
    assert_eq!(exp(b"e+", 0), Err(ParseError::MalformedExponent));
    assert_eq!(exp(b"e-x", 0), Err(ParseError::MalformedExponent));
    assert_eq!(exp(b"x", 0), Err(ParseError::NoMatch));
    assert_eq!(exp(b"", 0), Err(ParseError::NoMatch));
    assert_eq!(exp(b"12", 2), Err(ParseError::NoMatch));
    assert_eq!(exp(b"e5", 7), Err(ParseError::NoMatch));
}

#[test]
fn fraction_grammar() {
    assert_eq!(float_num(b"1.5"), Some(3));
    assert_eq!(float_num(b"1."), Some(2));
    assert_eq!(float_num(b".5"), Some(2));
    assert_eq!(float_num(b"-12.25x"), Some(6));
    assert_eq!(float_num(b"+.5e3"), Some(3));
    assert_eq!(float_num(b"1"), None);
    assert_eq!(float_num(b"."), None);
    assert_eq!(float_num(b"-."), None);
    assert_eq!(float_num(b""), None);
    assert_eq!(float_num(b"e5"), None);
}

#[test]
fn float_grammar() {
    assert_eq!(float(b"1.5"), Ok(3));
    assert_eq!(float(b"1e10"), Ok(4));
    assert_eq!(float(b"-1E-10"), Ok(6));
    assert_eq!(float(b"1.5e3f"), Ok(5));
    assert_eq!(float(b"1.e3"), Ok(4));
    assert_eq!(float(b".5E+3"), Ok(5));
    assert_eq!(float(b"3.25,"), Ok(4));
    assert_eq!(float(b"1"), Err(ParseError::NoMatch));
    assert_eq!(float(b"-"), Err(ParseError::NoMatch));
    assert_eq!(float(b""), Err(ParseError::NoMatch));
    assert_eq!(float(b"abc"), Err(ParseError::NoMatch));
    assert_eq!(float(b"+inf"), Err(ParseError::NoMatch));
}

#[test]
fn malformed_exponent_is_final() {
    assert_eq!(float(b"1e"), Err(ParseError::MalformedExponent));
    assert_eq!(float(b"1e+"), Err(ParseError::MalformedExponent));
    assert_eq!(float(b"1.5e"), Err(ParseError::MalformedExponent));
    assert_eq!(float(b"1.5Ex"), Err(ParseError::MalformedExponent));
    assert_eq!(float(b".5e-"), Err(ParseError::MalformedExponent));
    assert_eq!(parse_f32("1ef"), Err(ParseError::MalformedExponent));
    assert_eq!(parse_f64("2.5e"), Err(ParseError::MalformedExponent));
    assert!(!ParseError::MalformedExponent.is_recoverable());
    assert!(ParseError::NoMatch.is_recoverable());
    assert!(ParseError::OutOfRange.is_recoverable());
    assert!(ParseError::UnterminatedString.is_recoverable());
}

#[test]
fn special_values_in_any_case() {
    for word in ["inf", "INF", "Inf", "iNf", "nan", "NAN", "NaN", "nAn"] {
        assert_eq!(float(word.as_bytes()), Ok(3), "{}", word);
    }
    for word in ["-inf", "-INF", "-Inf", "-iNF"] {
        assert_eq!(float(word.as_bytes()), Ok(4), "{}", word);
    }
    assert_eq!(float(b"in"), Err(ParseError::NoMatch));
    assert_eq!(float(b"na"), Err(ParseError::NoMatch));
    assert_eq!(float(b"-in"), Err(ParseError::NoMatch));
    assert_eq!(float(b"-nan"), Err(ParseError::NoMatch));
    assert_eq!(float("İnf".as_bytes()), Err(ParseError::NoMatch));
}

#[test]
fn special_values_read_as_numbers() {
    for word in ["inf", "INF", "Inf"] {
        let (rest, text) = parse_f64(word).unwrap();
        assert_eq!(rest, "");
        let value: f64 = text.parse().unwrap();
        assert_eq!(value, f64::INFINITY);
    }
    for word in ["-inf", "-INF", "-iNf"] {
        let (rest, text) = parse_f64(word).unwrap();
        assert_eq!(rest, "");
        let value: f64 = text.parse().unwrap();
        assert_eq!(value, f64::NEG_INFINITY);
    }
    for word in ["nan", "NAN", "NaN"] {
        let (rest, text) = parse_f64(word).unwrap();
        assert_eq!(rest, "");
        let value: f64 = text.parse().unwrap();
        assert!(value.is_nan());
    }
    for word in ["inff", "INFF", "NaNf", "-Inff"] {
        let (rest, text) = parse_f32(word).unwrap();
        assert_eq!(rest, "");
        assert_eq!(text, &word[..word.len() - 1]);
        let value: f32 = text.parse().unwrap();
        assert!(value.is_nan() || value.is_infinite());
    }
}

#[test]
fn long_words_are_read_whole() {
    assert_eq!(float(b"infinity"), Ok(8));
    assert_eq!(float(b"INFINITY"), Ok(8));
    assert_eq!(float(b"InFiNiTy,"), Ok(8));
    assert_eq!(float(b"-infinity"), Ok(9));
    assert_eq!(float(b"-Infinity"), Ok(9));
    assert_eq!(parse_f64("infinity"), Ok(("", "infinity")));
    assert_eq!(parse_f64("-Infinity"), Ok(("", "-Infinity")));
    assert_eq!(parse_f64("Infinityd]"), Ok(("]", "Infinity")));
    assert_eq!(parse_f64("infinityf"), Ok(("f", "infinity")));
    assert_eq!(parse_f32("infinityf"), Ok(("", "infinity")));
    assert_eq!(parse_f32("-INFINITYF,"), Ok((",", "-INFINITY")));
    assert_eq!(parse_f32("infinity"), Err(ParseError::NoMatch));
    for word in ["infinity", "Infinity", "INFINITY", "iNfInItY"] {
        let (rest, text) = parse_f64(word).unwrap();
        assert_eq!(rest, "");
        let value: f64 = text.parse().unwrap();
        assert_eq!(value, f64::INFINITY);
    }
    for word in ["-infinity", "-Infinity", "-INFINITY"] {
        let (rest, text) = parse_f64(word).unwrap();
        assert_eq!(rest, "");
        let value: f64 = text.parse().unwrap();
        assert_eq!(value, f64::NEG_INFINITY);
    }
}

#[test]
fn short_word_where_the_long_one_breaks_off() {
    assert_eq!(float(b"infinit"), Ok(3));
    assert_eq!(float(b"infinitx"), Ok(3));
    assert_eq!(float(b"-infinit"), Ok(4));
    assert_eq!(float(b"inform"), Ok(3));
    assert_eq!(parse_f64("infinit"), Ok(("init", "inf")));
    assert_eq!(parse_f64("-INFx"), Ok(("x", "-INF")));
    assert_eq!(parse_f32("inffinity"), Ok(("inity", "inf")));
    assert_eq!(parse_f32("-inff"), Ok(("", "-inf")));
    assert_eq!(parse_f32("infinitf"), Err(ParseError::NoMatch));
}

#[test]
fn f32_needs_its_suffix() {
    assert_eq!(parse_f32("1.5f"), Ok(("", "1.5")));
    assert_eq!(parse_f32("1.5F,"), Ok((",", "1.5")));
    assert_eq!(parse_f32("-1e10f"), Ok(("", "-1e10")));
    assert_eq!(parse_f32(".5f"), Ok(("", ".5")));
    assert_eq!(parse_f32("2.fé"), Ok(("é", "2.")));
    assert_eq!(parse_f32("1.5"), Err(ParseError::NoMatch));
    assert_eq!(parse_f32("1.5d"), Err(ParseError::NoMatch));
    assert_eq!(parse_f32("1f"), Err(ParseError::NoMatch));
    assert_eq!(parse_f32("f"), Err(ParseError::NoMatch));
}

#[test]
fn f64_suffix_is_optional() {
    assert_eq!(parse_f64("1.5"), Ok(("", "1.5")));
    assert_eq!(parse_f64("1.5d"), Ok(("", "1.5")));
    assert_eq!(parse_f64("1.5D]"), Ok(("]", "1.5")));
    assert_eq!(parse_f64("1.5f"), Ok(("f", "1.5")));
    assert_eq!(parse_f64("2e3,"), Ok((",", "2e3")));
    assert_eq!(parse_f64("infd"), Ok(("", "inf")));
    assert_eq!(parse_f64("1.5é"), Ok(("é", "1.5")));
    assert_eq!(parse_f64("1"), Err(ParseError::NoMatch));
    assert_eq!(parse_f64("d"), Err(ParseError::NoMatch));
}

#[test]
fn float_text_is_a_span_of_the_input() {
    let input = "12.5e3f rest";
    let (rest, text) = parse_f32(input).unwrap();
    assert_eq!(text.as_ptr(), input.as_ptr());
    assert_eq!(rest.as_ptr(), input[7..].as_ptr());
}

#[test]
fn simple_string_grammar() {
    assert_eq!(
        parse_simple_string("hello_world-1.0+x rest"),
        Ok((" rest", "hello_world-1.0+x"))
    );
    assert_eq!(parse_simple_string("a:b"), Ok((":b", "a")));
    assert_eq!(parse_simple_string("Zz09"), Ok(("", "Zz09")));
    assert_eq!(parse_simple_string("abcé"), Ok(("é", "abc")));
    assert_eq!(parse_simple_string(""), Err(ParseError::NoMatch));
    assert_eq!(parse_simple_string(" a"), Err(ParseError::NoMatch));
    assert_eq!(parse_simple_string("\"a\""), Err(ParseError::NoMatch));
    assert_eq!(parse_simple_string("é"), Err(ParseError::NoMatch));
}

#[test]
fn str_double_quoted() {
    let input = "\"abc\",rest";
    let (rest, text) = parse_str(input).unwrap();
    assert_eq!(rest, ",rest");
    assert_eq!(text, "abc");
    assert!(matches!(text, Cow::Borrowed(_)));
    assert_eq!(text.as_ptr(), input[1..].as_ptr());
}

#[test]
fn str_single_quoted() {
    let (rest, text) = parse_str("'a \"b\" c'}").unwrap();
    assert_eq!(rest, "}");
    assert_eq!(text, "a \"b\" c");
    assert!(matches!(text, Cow::Borrowed(_)));
    let (rest, text) = parse_str("'it\\'s'").unwrap();
    assert_eq!(rest, "");
    assert_eq!(text, "it's");
    assert!(matches!(text, Cow::Owned(_)));
    let (rest, text) = parse_str("\"it's\"'").unwrap();
    assert_eq!(rest, "'");
    assert_eq!(text, "it's");
    assert!(matches!(text, Cow::Borrowed(_)));
}

#[test]
fn str_unquoted() {
    let input = "minecraft.stone:1";
    let (rest, text) = parse_str(input).unwrap();
    assert_eq!(rest, ":1");
    assert_eq!(text, "minecraft.stone");
    assert!(matches!(text, Cow::Borrowed(_)));
    assert_eq!(text.as_ptr(), input.as_ptr());
}

#[test]
fn str_empty_quoted() {
    let (rest, text) = parse_str("\"\"").unwrap();
    assert_eq!(rest, "");
    assert_eq!(text, "");
    assert!(matches!(text, Cow::Borrowed(_)));
    let (rest, text) = parse_str("''x").unwrap();
    assert_eq!(rest, "x");
    assert_eq!(text, "");
}

#[test]
fn str_with_escapes_is_copied() {
    let (rest, text) = parse_str(r#""a\"b\\c" tail"#).unwrap();
    assert_eq!(rest, " tail");
    assert_eq!(text, r#"a"b\c"#);
    assert!(matches!(text, Cow::Owned(_)));
    let (rest, text) = parse_str(r#""\\""#).unwrap();
    assert_eq!(rest, "");
    assert_eq!(text, "\\");
    assert!(matches!(text, Cow::Owned(_)));
    let (rest, text) = parse_str(r#""\"""#).unwrap();
    assert_eq!(rest, "");
    assert_eq!(text, "\"");
    assert_eq!(parse_str(r#""a\"#), Err(ParseError::UnterminatedString));
}

#[test]
fn escape_takes_any_character() {
    let (rest, text) = parse_str(r#""\n\t\x\'""#).unwrap();
    assert_eq!(rest, "");
    assert_eq!(text, "ntx'");
    let (rest, text) = parse_str("\"\\é\\日\\𝄞x\"").unwrap();
    assert_eq!(rest, "");
    assert_eq!(text, "é日𝄞x");
    assert!(matches!(text, Cow::Owned(_)));
    let (rest, text) = parse_str("'a\\\\\\'b'").unwrap();
    assert_eq!(rest, "");
    assert_eq!(text, "a\\'b");
}

#[test]
fn str_errors() {
    assert_eq!(parse_str("\"abc"), Err(ParseError::UnterminatedString));
    assert_eq!(parse_str("'abc\""), Err(ParseError::UnterminatedString));
    assert_eq!(parse_str("\"abc\\\""), Err(ParseError::UnterminatedString));
    assert_eq!(parse_str("\"abc\\"), Err(ParseError::UnterminatedString));
    assert_eq!(parse_str("\""), Err(ParseError::UnterminatedString));
    assert_eq!(parse_str("'"), Err(ParseError::UnterminatedString));
    assert_eq!(parse_str("\"é"), Err(ParseError::UnterminatedString));
    assert_eq!(parse_str(""), Err(ParseError::NoMatch));
    assert_eq!(parse_str(" abc"), Err(ParseError::NoMatch));
    assert_eq!(parse_str("{"), Err(ParseError::NoMatch));
    assert_eq!(parse_str("é"), Err(ParseError::NoMatch));
}

#[test]
fn str_keeps_utf8() {
    let input = "\"grüße \\\"ß\\\" 日本\" tail";
    let (rest, text) = parse_str(input).unwrap();
    assert_eq!(rest, " tail");
    assert_eq!(text, "grüße \"ß\" 日本");
    let input = "'\\é\\日'€";
    let (rest, text) = parse_str(input).unwrap();
    assert_eq!(rest, "€");
    assert_eq!(text, "é日");
    assert!(matches!(text, Cow::Owned(_)));
    let input = "\"日本\"語";
    let (rest, text) = parse_str(input).unwrap();
    assert_eq!(rest, "語");
    assert_eq!(text, "日本");
    assert!(matches!(text, Cow::Borrowed(_)));
    assert_eq!(text.as_ptr(), input[1..].as_ptr());
}

#[test]
fn failure_leaves_the_input() {
    let input = "12x";
    assert_eq!(parse_i8(input), Err(ParseError::NoMatch));
    assert_eq!(parse_i32(input), Ok(("x", 12)));
    assert_eq!(parse_f64(input), Err(ParseError::NoMatch));
    let (rest, text) = parse_str(input).unwrap();
    assert_eq!(rest, "");
    assert_eq!(text, "12x");
}
