//! Printing in the compact and tab-formatted styles.

use cjson_rs::{Error, Member};

type Value = cjson_rs::Value<f64>;

fn read_number(text: &str) -> f64 {
    text.parse::<f64>().unwrap_or(f64::NAN)
}

/// The text of a number: integers as integers, others with 15 significant
/// digits, or 17 where 15 would not read back as the same number.
fn number_text(value: f64) -> String {
    if !value.is_finite() {
        return "null".into();
    }
    if value >= f64::from(i32::MIN) && value <= f64::from(i32::MAX) && value == value.trunc() {
        return (value as i32).to_string();
    }
    let short = significant(value, 15);
    let reparsed = short.parse::<f64>().ok();
    if reparsed.is_some_and(|candidate| close_enough(candidate, value)) {
        short
    } else {
        significant(value, 17)
    }
}

fn close_enough(left: f64, right: f64) -> bool {
    (left - right).abs() <= left.abs().max(right.abs()) * f64::EPSILON
}

fn significant(value: f64, precision: usize) -> String {
    let exponent = value.abs().log10().floor() as i32;
    if exponent < -4 || exponent >= precision as i32 {
        let scientific = format!("{:.*e}", precision - 1, value);
        return normalize_scientific(&cjson_rs::trim_fractional_zeros(scientific));
    }
    let decimals = (precision as i32 - exponent - 1).max(0) as usize;
    cjson_rs::trim_fractional_zeros(format!("{:.*}", decimals, value))
}

fn normalize_scientific(text: &str) -> String {
    let (_, exponent) = text.split_once('e').expect("scientific formatting contains e");
    exponent.parse::<i32>().expect("a valid exponent");
    cjson_rs::normalize_scientific(text)
}

fn parse(input: &str) -> Result<Value, Error> {
    cjson_rs::parse(input, &read_number)
}

fn print(value: &Value) -> Option<String> {
    cjson_rs::print(value, &number_text)
}

fn print_unformatted(value: &Value) -> Option<String> {
    cjson_rs::print_unformatted(value, &number_text)
}

fn printed_unformatted(json: &str) -> String {
    print_unformatted(&parse(json).unwrap()).unwrap()
}

fn printed_formatted(json: &str) -> String {
    print(&parse(json).unwrap()).unwrap()
}

#[test]
fn writes_compact_json() {
    let value = parse(r#"{"items":[1,true,"x"]}"#).unwrap();
    assert_eq!(print_unformatted(&value), Some(r#"{"items":[1,true,"x"]}"#.into()));
}

#[test]
fn writes_cjson_style_formatted_objects_and_arrays() {
    let value = parse(r#"{"one":1,"nested":{}}"#).unwrap();
    assert_eq!(print(&value), Some("{\n\t\"one\":\t1,\n\t\"nested\":\t{\n\t}\n}".into()));
    assert_eq!(print(&Value::array(vec![Value::number(1.0), Value::number(2.0)])), Some("[1, 2]".into()));
}

#[test]
fn escapes_control_characters_and_keeps_utf8() {
    assert_eq!(print_unformatted(&Value::string("\u{0001}\nü")), Some(r#""\u0001\nü""#.into()));
}

#[test]
fn formats_numbers_like_cjson() {
    assert_eq!(print_unformatted(&Value::number(1e-9)), Some("1e-09".into()));
    assert_eq!(print_unformatted(&Value::number(3.141592653589793)), Some("3.1415926535897931".into()));
    assert_eq!(print_unformatted(&Value::number(f64::NAN)), Some("null".into()));
}

#[test]
fn rejects_invalid_nodes() {
    assert_eq!(print(&Value::Invalid), None);
}

#[test]
fn compact_output_matches_cjson() {
    assert_eq!(printed_unformatted(r#"{"a":[1,2],"b":"x"}"#), r#"{"a":[1,2],"b":"x"}"#);
    assert_eq!(printed_unformatted(r#"{ "a" : [ 1 , 2 ] }"#), r#"{"a":[1,2]}"#);
    assert_eq!(printed_unformatted("{\n\t\"a\":\t1,\n\t\"b\":\ttrue\n}"), r#"{"a":1,"b":true}"#);
}

#[test]
fn formatted_output_matches_cjson_style() {
    assert_eq!(printed_formatted(r#"{"a":[1,2],"b":"x"}"#), "{\n\t\"a\":\t[1, 2],\n\t\"b\":\t\"x\"\n}");
}

#[test]
fn numbers_use_cjson_15_17_digit_format() {
    assert_eq!(printed_unformatted("1"), "1");
    assert_eq!(printed_unformatted("1.5"), "1.5");
    assert_eq!(printed_unformatted("1e100"), "1e+100");
    assert_eq!(printed_unformatted("0.0001"), "0.0001");
    assert_eq!(printed_unformatted("-0.5e-3"), "-0.0005");
    // Large integers round-trip as doubles.
    assert_eq!(printed_unformatted("123456789012345678"), "1.2345678901234568e+17");
}

#[test]
fn strings_escape_control_characters() {
    // Characters below 0x20 are escaped (plus " and \), but not DEL (0x7f).
    let input = format!("\"\\u0001\"");
    assert_eq!(printed_unformatted(&input), input);
    let input = format!("\"\\u001f\"");
    assert_eq!(printed_unformatted(&input), input);
    // DEL (0x7f) is copied literally (only chars < 0x20 are escaped), so the
    // round-trip text differs even though the value is identical.
    let input = format!("\"\\u007f\"");
    assert_eq!(printed_unformatted(&input).as_bytes(), &[b'"', 0x7f, b'"']);
}

#[test]
fn strings_keep_pre_escaped_tokens() {
    // Tabs, newlines and quotes already escaped in the input print back identically.
    let input = r#""a\tb\nc""#;
    assert_eq!(printed_unformatted(input), input);
}

#[test]
fn null_renders_as_null() {
    assert_eq!(printed_unformatted("null"), "null");
}

#[test]
fn nested_formatting_indents_with_tabs() {
    let value = Value::object(vec![Member::new(
        "a",
        Value::object(vec![Member::new("b", Value::array(vec![Value::Bool(false), Value::raw("{}")]))]),
    )]);
    assert_eq!(print(&value), Some("{\n\t\"a\":\t{\n\t\t\"b\":\t[false, {}]\n\t}\n}".into()));
    assert_eq!(print_unformatted(&value), Some("{\"a\":{\"b\":[false,{}]}}".into()));
}

#[test]
fn an_invalid_child_makes_the_whole_print_fail() {
    let value = Value::array(vec![Value::Null, Value::Invalid]);
    assert_eq!(print_unformatted(&value), None);
    let object = Value::object(vec![Member::new("x", Value::Invalid)]);
    assert_eq!(print(&object), None);
}

#[test]
fn printed_text_parses_back_to_the_same_value() {
    let value = parse(r#"{"a":[1,2.5,"x\ty"],"b":{"c":null,"d":false}}"#).unwrap();
    let text = print_unformatted(&value).unwrap();
    assert_eq!(parse(&text), Ok(value));
}

#[test]
fn escapes_quotes_backslashes_and_short_escapes() {
    assert_eq!(
        print_unformatted(&Value::string("\"\\\u{8}\u{c}\r")),
        Some("\"\\\"\\\\\\b\\f\\r\"".into())
    );
}

#[test]
fn number_text_steps_trim_fractions_and_pad_exponents() {
    assert_eq!(cjson_rs::trim_fractional_zeros("1.500".into()), "1.5");
    assert_eq!(cjson_rs::trim_fractional_zeros("1.000".into()), "1");
    assert_eq!(cjson_rs::trim_fractional_zeros("0.000".into()), "0");
    assert_eq!(cjson_rs::trim_fractional_zeros("2.000e+05".into()), "2e+05");
    assert_eq!(cjson_rs::trim_fractional_zeros("2.500E5".into()), "2.5E5");
    assert_eq!(cjson_rs::trim_fractional_zeros("100".into()), "100");
    assert_eq!(cjson_rs::trim_fractional_zeros("10.01".into()), "10.01");
    assert_eq!(cjson_rs::normalize_scientific("1.5e-7"), "1.5e-07");
    assert_eq!(cjson_rs::normalize_scientific("1e5"), "1e+05");
    assert_eq!(cjson_rs::normalize_scientific("2e-123"), "2e-123");
    assert_eq!(cjson_rs::normalize_scientific("3e0"), "3e+00");
    assert_eq!(cjson_rs::normalize_scientific("4e-0"), "4e+00");
    assert_eq!(cjson_rs::normalize_scientific("5e+007"), "5e+07");
    assert_eq!(cjson_rs::normalize_scientific("6e-2147483648"), "6e-2147483648");
}
