//! Parsing: every value kind, permissive numbers, escapes, and the
//! errors with their byte offsets.

use cjson_rs::{Error, Member};

type Value = cjson_rs::Value<f64>;

fn read_number(text: &str) -> f64 {
    text.parse::<f64>().unwrap_or(f64::NAN)
}

fn parse(input: &str) -> Result<Value, Error> {
    cjson_rs::parse(input, &read_number)
}

fn rejects(input: &str) {
    let err = parse(input).err().unwrap_or_else(|| panic!("{input:?} should fail to parse"));
    // The reported offset must point somewhere inside the input.
    assert!(err.offset <= input.len(), "{input:?} error offset {} is out of range", err.offset);
}

fn accepts(input: &str) {
    parse(input).unwrap_or_else(|e| panic!("{input:?} should parse, got: {}", e.to_string()));
}

#[test]
fn parses_all_json_value_kinds() {
    assert_eq!(parse("null"), Ok(Value::Null));
    assert_eq!(parse("false"), Ok(Value::Bool(false)));
    assert_eq!(parse("-12.5e2"), Ok(Value::Number(-1250.0)));
    assert_eq!(parse(r#""text""#), Ok(Value::String("text".into())));
    assert_eq!(parse("[]"), Ok(Value::Array(vec![])));
    assert_eq!(parse("{}"), Ok(Value::Object(vec![])));
}

#[test]
fn preserves_object_order_and_duplicate_keys() {
    let value = parse(r#"{"a":1,"a":2}"#).unwrap();
    assert_eq!(value, Value::object(vec![
        Member::new("a", Value::number(1.0)),
        Member::new("a", Value::number(2.0)),
    ]));
}

#[test]
fn decodes_escapes_and_unicode_surrogate_pairs() {
    assert_eq!(parse(r#""line\n\uD83D\uDE80""#), Ok(Value::string("line\n🚀")));
}

#[test]
fn rejects_invalid_json_and_exposes_an_offset() {
    // .5 and --1 are not value starts / valid numbers
    // (parse_value only enters a number on '-' or a digit).
    let error = parse(r#"{"a":.5}"#).unwrap_err();
    assert!(error.offset > 0);
    assert!(parse(r#""\uD800""#).is_err());
    assert!(parse("[1,]").is_err());
    assert!(parse("true false").is_err());
}

#[test]
fn numbers_are_as_permissive_as_cjson() {
    // Leading zeros and bare fractions parse via the strtod-like path.
    assert_eq!(parse("01"), Ok(Value::Number(1.0)));
    assert_eq!(parse("1."), Ok(Value::Number(1.0)));
    // A bare exponent consumes only the "1" (strtod leaves "e" unconsumed),
    // so as a standalone document it is rejected by the whole-input
    // requirement.
    assert!(parse("1e").is_err());
}

#[test]
fn rejects_non_json_input() {
    rejects("hello world");
    rejects("<!DOCTYPE html>");
}

#[test]
fn rejects_unterminated_string() {
    rejects("\"abc");
    rejects("\"abc\\u12");
}

#[test]
fn rejects_single_quoted_strings() {
    rejects("'abc'");
}

#[test]
fn rejects_bad_numbers() {
    // .5 is not a value start (only '-' or a digit enters a number);
    // --1 cannot be strtod'd.
    rejects(".5");
    rejects("--1");
}

#[test]
fn rejects_trailing_content() {
    rejects("{} {}");
    rejects("1 2");
}

#[test]
fn rejects_unbalanced_containers() {
    rejects("[1,2");
    rejects("{\"a\":1");
    rejects("[1,2}");
    rejects("{\"a\":1]");
}

#[test]
fn rejects_unterminated_value() {
    rejects("{");
    rejects("[");
    rejects("{\"a\":}");
    rejects("[1,]");
}

#[test]
fn accepts_valid_number_forms() {
    accepts("0");
    accepts("-0.5e+3");
    accepts("1E100");
    accepts("1234567890");
    // strtod-based parsing accepts leading zeros and bare fractions. ("1e"
    // consumes only the "1", leaving trailing content, so it is still
    // rejected as a standalone document.)
    accepts("01");
    accepts("1.");
}

#[test]
fn incomplete_object_is_rejected() {
    // test12 from parse_examples.c: an unterminated object literal.
    let err = parse("{ \"name\": ").expect_err("incomplete JSON must fail to parse");
    assert!(err.offset > 0);
}

#[test]
fn error_offsets_count_bytes_before_the_failure() {
    let err = parse("[\"é\", x]").unwrap_err();
    assert_eq!(err.offset, 7);
    assert_eq!(err.to_string(), format!("JSON error at byte 7: {}", err.message));
}

#[test]
fn whitespace_and_nested_values_parse() {
    assert_eq!(
        parse(" \t\r\n{ \"a\" : [ true , null , \"\\u00e9\\/\" ] }\n"),
        Ok(Value::object(vec![Member::new(
            "a",
            Value::array(vec![Value::Bool(true), Value::Null, Value::string("é/")])
        )]))
    );
}

#[test]
fn nesting_deeper_than_the_limit_is_refused() {
    let deep_ok = format!("{}{}", "[".repeat(cjson_rs::NESTING_LIMIT), "]".repeat(cjson_rs::NESTING_LIMIT));
    assert!(parse(&deep_ok).is_ok());
    let too_deep = format!("{}{}", "[".repeat(cjson_rs::NESTING_LIMIT + 1), "]".repeat(cjson_rs::NESTING_LIMIT + 1));
    assert!(parse(&too_deep).is_err());
}

#[test]
fn error_new_keeps_offset_and_message() {
    let error = Error::new(3, "bad");
    assert_eq!(error.offset, 3);
    assert_eq!(error.message, "bad");
    assert_eq!(error.to_string(), "JSON error at byte 3: bad");
}

#[test]
fn trailing_text_is_refused_where_it_starts() {
    for document in ["null", "true", "1", "-2.5e3", "\"\u{e9}\"", "[1,[2]]", "{\"a\":{}}", " 7 \n"] {
        assert!(parse(document).is_ok());
        let err = parse(&format!("{document} x")).unwrap_err();
        assert_eq!(err.offset, document.len() + 1, "{document:?}");
        assert_eq!(err.message, "trailing characters after JSON value");
        let err = parse(&format!("{document}]")).unwrap_err();
        assert_eq!(err.offset, document.len(), "{document:?}");
    }
    // A following digit continues a number that ends the text: "1" and "2"
    // read as twelve, a different document.
    assert_eq!(parse("12"), Ok(Value::Number(12.0)));
}

#[test]
fn escape_errors_point_one_byte_into_the_refused_character() {
    let err = parse("\"\\x\"").unwrap_err();
    assert_eq!((err.offset, err.message.as_str()), (3, "invalid string escape"));
    let err = parse("\"\\\u{e9}\"").unwrap_err();
    assert_eq!((err.offset, err.message.as_str()), (3, "invalid string escape"));
    let err = parse("\"\\u00g0\"").unwrap_err();
    assert_eq!((err.offset, err.message.as_str()), (6, "invalid Unicode escape"));
    let err = parse("\"\\u00\u{20ac}0\"").unwrap_err();
    assert_eq!((err.offset, err.message.as_str()), (6, "invalid Unicode escape"));
}
