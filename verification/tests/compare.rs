//! Structural comparison: numbers by value,
//! objects as unordered key sets, key case sensitivity on request.

type Value = cjson_rs::Value<f64>;

fn read_number(text: &str) -> f64 {
    text.parse::<f64>().unwrap_or(f64::NAN)
}

fn same_number(left: f64, right: f64) -> bool {
    let max = left.abs().max(right.abs());
    (left - right).abs() <= max * f64::EPSILON
}

fn parse(input: &str) -> Result<Value, cjson_rs::Error> {
    cjson_rs::parse(input, &read_number)
}

fn compare(left: &Value, right: &Value, case_sensitive: bool) -> bool {
    cjson_rs::compare(left, right, case_sensitive, &same_number)
}

fn cmp(left: &str, right: &str, case_sensitive: bool) -> bool {
    let left = parse(left).unwrap();
    let right = parse(right).unwrap();
    compare(&left, &right, case_sensitive)
}

#[test]
fn nulls_compare_equal() {
    assert!(cmp("null", "null", true));
    assert!(cmp("null", "null", false));
}

#[test]
fn numbers_compare_by_value_ignoring_format() {
    assert!(cmp("1", "1", true));
    assert!(cmp("0.0001", "0.0001", false));
    assert!(cmp("1E100", "10E99", false));
    assert!(!cmp("0.5E-100", "0.5E-101", false));
    assert!(!cmp("1", "2", true));
}

#[test]
fn bools_compare_exactly() {
    assert!(cmp("true", "true", true));
    assert!(cmp("false", "false", true));
    assert!(!cmp("true", "false", true));
}

#[test]
fn strings_compare_exactly() {
    assert!(cmp("\"a\"", "\"a\"", true));
    assert!(!cmp("\"a\"", "\"b\"", true));
}

#[test]
fn arrays_are_order_sensitive() {
    assert!(cmp("[1,2,3]", "[1,2,3]", true));
    assert!(!cmp("[1,2,3]", "[3,2,1]", true));
    assert!(!cmp("[1,2]", "[1,2,3]", true));
}

#[test]
fn objects_are_unordered_key_sets() {
    assert!(cmp("{\"a\":1,\"b\":2}", "{\"b\":2,\"a\":1}", true));
}

#[test]
fn object_keys_respect_case_sensitivity_flag() {
    assert!(cmp("{\"a\":1}", "{\"A\":1}", false));
    assert!(!cmp("{\"a\":1}", "{\"A\":1}", true));
}

#[test]
fn nested_documents_compare_recursively() {
    assert!(cmp("{\"a\":[1,{\"b\":true}]}", "{\"a\":[1,{\"b\":true}]}", true));
    assert!(!cmp("{\"a\":[1,{\"b\":true}]}", "{\"a\":[1,{\"b\":false}]}", true));
}

#[test]
fn different_types_never_compare_equal() {
    assert!(!cmp("null", "1", true));
    assert!(!cmp("true", "1", true));
    assert!(!cmp("\"1\"", "1", true));
    assert!(!cmp("[]", "{}", true));
}

#[test]
fn every_document_compares_equal_to_itself() {
    for text in ["null", "[1,[2,{\"a\":\"b\"}]]", "{\"b\":1,\"a\":{\"B\":2,\"b\":3}}", "\"x\"", "false"] {
        assert!(cmp(text, text, true));
        assert!(cmp(text, text, false));
    }
}

#[test]
fn duplicate_names_are_paired_in_their_order() {
    assert!(cmp("{\"a\":1,\"a\":2}", "{\"a\":1,\"a\":2}", true));
    assert!(!cmp("{\"a\":1,\"a\":2}", "{\"a\":2,\"a\":1}", true));
    assert!(!cmp("{\"a\":1}", "{\"a\":1,\"b\":2}", true));
}

#[test]
fn comparison_is_symmetric_and_transitive() {
    let texts = [
        r#"{"a":[1,{"b":null}],"c":"x"}"#,
        r#"{"c":"x","a":[1,{"b":null}]}"#,
        r#"{"C":"x","A":[1,{"B":null}]}"#,
        r#"{"a":[1,{"b":false}],"c":"x"}"#,
        r#"[1,2,3]"#,
    ];
    let values: Vec<Value> = texts.iter().map(|t| parse(t).unwrap()).collect();
    for case_sensitive in [true, false] {
        for a in &values {
            for b in &values {
                assert_eq!(compare(a, b, case_sensitive), compare(b, a, case_sensitive));
                for c in &values {
                    if compare(a, b, case_sensitive) && compare(b, c, case_sensitive) {
                        assert!(compare(a, c, case_sensitive));
                    }
                }
            }
        }
    }
    assert!(compare(&values[0], &values[2], false));
    assert!(!compare(&values[0], &values[2], true));
}
