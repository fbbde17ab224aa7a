//! JSON Pointer, JSON Patch, merge patch and object sorting.

use cjson_rs::{
    add_patch_to_array, delete_pointer, duplicate, find_pointer_from_object_to, get_pointer, get_pointer_case_sensitive,
    sort_object, sort_object_case_sensitive, Error, Member, PatchError,
};

type Value = cjson_rs::Value<f64>;

fn read_number(text: &str) -> f64 {
    text.parse::<f64>().unwrap_or(f64::NAN)
}

fn same_number(left: f64, right: f64) -> bool {
    let max = left.abs().max(right.abs());
    (left - right).abs() <= max * f64::EPSILON
}

/// The text of a number: integers as integers, others with 15 significant
/// digits, or 17 where 15 would not read back as the same number.
fn number_text(value: f64) -> String {
    if !value.is_finite() {
        return "null".into();
    }
    if value >= f64::from(i32::MIN) && value <= f64::from(i32::MAX) && value == value.trunc() {
        return (value as i32).to_string();
    }
    let short = significant(value, 15);
    let reparsed = short.parse::<f64>().ok();
    if reparsed.is_some_and(|candidate| close_enough(candidate, value)) {
        short
    } else {
        significant(value, 17)
    }
}

fn close_enough(left: f64, right: f64) -> bool {
    (left - right).abs() <= left.abs().max(right.abs()) * f64::EPSILON
}

fn significant(value: f64, precision: usize) -> String {
    let exponent = value.abs().log10().floor() as i32;
    if exponent < -4 || exponent >= precision as i32 {
        let scientific = format!("{:.*e}", precision - 1, value);
        return normalize_scientific(&cjson_rs::trim_fractional_zeros(scientific));
    }
    let decimals = (precision as i32 - exponent - 1).max(0) as usize;
    cjson_rs::trim_fractional_zeros(format!("{:.*}", decimals, value))
}

fn normalize_scientific(text: &str) -> String {
    let (_, exponent) = text.split_once('e').expect("scientific formatting contains e");
    exponent.parse::<i32>().expect("a valid exponent");
    cjson_rs::normalize_scientific(text)
}

fn parse(input: &str) -> Result<Value, Error> {
    cjson_rs::parse(input, &read_number)
}

fn value(json: &str) -> Value {
    parse(json).unwrap()
}

fn print_unformatted(value: &Value) -> Option<String> {
    cjson_rs::print_unformatted(value, &number_text)
}

fn compare(left: &Value, right: &Value, case_sensitive: bool) -> bool {
    cjson_rs::compare(left, right, case_sensitive, &same_number)
}

fn apply_patches(object: &mut Value, patches: &Value, case_sensitive: bool) -> Result<(), PatchError> {
    cjson_rs::apply_patches(object, patches, case_sensitive, &same_number)
}

fn generate_patches(from: &Value, to: &Value, case_sensitive: bool) -> Value {
    cjson_rs::generate_patches(from, to, case_sensitive, &same_number)
}

fn merge_patch(target: &Value, patch: &Value, case_sensitive: bool) -> Value {
    cjson_rs::merge_patch(target, patch, case_sensitive)
}

fn generate_merge_patch(from: &Value, to: &Value, case_sensitive: bool) -> Value {
    cjson_rs::generate_merge_patch(from, to, case_sensitive, &same_number)
}

// From old_utils_tests.c: a document whose keys exercise every pointer escape.
const POINTER_ROOT: &str = r#"{"foo":["bar","baz"],"":0,"a/b":1,"c%d":2,"e^f":3,"g|h":4,"i\\j":5,"k\"l":6," ":7,"m~n":8}"#;

#[test]
fn resolves_object_and_array_pointer_tokens() {
    let value = parse(r#"{"a":{"b":[10,20,30]},"c":7}"#).unwrap();
    assert_eq!(get_pointer(&value, "/a/b/1", false).and_then(Value::as_number), Some(20.0));
    assert_eq!(get_pointer(&value, "/c", false).and_then(Value::as_number), Some(7.0));
    assert_eq!(get_pointer(&value, "", false).map(Value::is_object), Some(true));
    assert_eq!(get_pointer(&value, "/missing", false), None);
    assert_eq!(get_pointer(&value, "/a/b/99", false), None);
}

#[test]
fn pointer_case_sensitivity_and_escapes() {
    let value = parse(r#"{"A/B":1}"#).unwrap();
    assert_eq!(get_pointer(&value, "/a~1b", false).and_then(Value::as_number), Some(1.0));
    assert_eq!(get_pointer_case_sensitive(&value, "/a~1b"), None);

    let tilde = parse(r#"{"a~b":2}"#).unwrap();
    assert_eq!(get_pointer(&tilde, "/a~0b", false).and_then(Value::as_number), Some(2.0));
}

#[test]
fn deletes_an_array_element_and_object_member() {
    let mut value = parse(r#"{"a":[1,2,3]}"#).unwrap();
    delete_pointer(&mut value, "/a/1", false).unwrap();
    assert_eq!(parse(r#"{"a":[1,3]}"#).unwrap(), value);

    let mut object = parse(r#"{"x":1,"y":2}"#).unwrap();
    delete_pointer(&mut object, "/x", false).unwrap();
    assert_eq!(parse(r#"{"y":2}"#).unwrap(), object);
}

#[test]
fn sorts_object_members_by_name() {
    let mut value = parse(r#"{"zeta":1,"Alpha":2,"mid":3}"#).unwrap();
    sort_object(&mut value, false);
    let Value::Object(members) = &value else { panic!("expected object") };
    let names: Vec<&str> = members.iter().map(|member| member.name.as_str()).collect();
    assert_eq!(names, ["Alpha", "mid", "zeta"]);
}

#[test]
fn applies_patch_operations() {
    let mut value = parse(r#"{"a":1,"b":[1,2]}"#).unwrap();
    let patches = parse(r#"[
        {"op":"add","path":"/c","value":true},
        {"op":"replace","path":"/a","value":9},
        {"op":"remove","path":"/b/0"},
        {"op":"test","path":"/c","value":true}
    ]"#).unwrap();
    apply_patches(&mut value, &patches, false).unwrap();
    assert!(compare(&value, &parse(r#"{"a":9,"b":[2],"c":true}"#).unwrap(), false));
}

#[test]
fn move_and_copy_patch_operations() {
    let mut moved = parse(r#"{"a":1,"b":2}"#).unwrap();
    let move_patch = parse(r#"[{"op":"move","from":"/a","path":"/b"}]"#).unwrap();
    apply_patches(&mut moved, &move_patch, false).unwrap();
    assert_eq!(parse(r#"{"b":1}"#).unwrap(), moved);

    let mut copied = parse(r#"{"a":[1]}"#).unwrap();
    let copy_patch = parse(r#"[{"op":"copy","from":"/a","path":"/b"}]"#).unwrap();
    apply_patches(&mut copied, &copy_patch, false).unwrap();
    assert_eq!(parse(r#"{"a":[1],"b":[1]}"#).unwrap(), copied);
}

#[test]
fn patch_reports_errors_with_cjson_codes() {
    let mut value = parse(r#"{"a":1}"#).unwrap();
    let bad = parse(r#"[{"op":"remove","path":"/nope"}]"#).unwrap();
    assert_eq!(apply_patches(&mut value, &bad, false), Err(PatchError(13)));

    let unknown_op = parse(r#"[{"op":"explode","path":"/a"}]"#).unwrap();
    assert_eq!(apply_patches(&mut value, &unknown_op, false), Err(PatchError(3)));
}

#[test]
fn generates_patches_between_documents() {
    let from = parse(r#"{"a":1,"b":[1,2],"keep":"same"}"#).unwrap();
    let to = parse(r#"{"a":2,"b":[1],"keep":"same","new":true}"#).unwrap();
    let patches = generate_patches(&from, &to, false);
    let mut result = duplicate(&from, true);
    apply_patches(&mut result, &patches, false).unwrap();
    assert!(compare(&result, &to, false));
}

#[test]
fn merge_patch_removes_adds_and_recurses() {
    let target = parse(r#"{"a":{"x":1,"y":2},"b":3}"#).unwrap();
    let patch = parse(r#"{"a":{"x":9},"b":null,"c":true}"#).unwrap();
    let result = merge_patch(&target, &patch, false);
    assert_eq!(parse(r#"{"a":{"x":9,"y":2},"c":true}"#).unwrap(), result);
}

#[test]
fn generates_merge_patch_that_round_trips() {
    let from = parse(r#"{"a":1,"b":2,"c":3}"#).unwrap();
    let to = parse(r#"{"a":1,"b":9,"d":4}"#).unwrap();
    let patch = generate_merge_patch(&from, &to, false);
    assert_eq!(merge_patch(&from, &patch, false), to);
}

#[test]
fn finds_pointer_from_object_to_value() {
    let mut value = parse(r#"{"a":{"b":[1,2]}}"#).unwrap();
    let target = get_pointer(&value, "/a/b/1", false).unwrap();
    assert_eq!(find_pointer_from_object_to(&value, target), Some("/a/b/1".into()));

    let fresh = Value::number(5.0);
    assert_eq!(find_pointer_from_object_to(&mut value, &fresh), None);
}

#[test]
fn get_pointer_resolves_escaped_tokens() {
    let root = value(POINTER_ROOT);
    // "" is the document itself; "/" is the empty member name; ~0/~1 decode ~ and /.
    assert_eq!(get_pointer_case_sensitive(&root, ""), Some(&root));
    assert_eq!(get_pointer_case_sensitive(&root, "/foo"), Some(&value(r#"["bar","baz"]"#)));
    assert_eq!(get_pointer_case_sensitive(&root, "/foo/0"), Some(&value(r#""bar""#)));
    assert_eq!(get_pointer_case_sensitive(&root, "/foo/1"), Some(&value(r#""baz""#)));
    assert_eq!(get_pointer_case_sensitive(&root, "/"), Some(&value("0")));
    assert_eq!(get_pointer_case_sensitive(&root, "/a~1b"), Some(&value("1")));
    assert_eq!(get_pointer_case_sensitive(&root, "/c%d"), Some(&value("2")));
    assert_eq!(get_pointer_case_sensitive(&root, "/e^f"), Some(&value("3")));
    assert_eq!(get_pointer_case_sensitive(&root, "/g|h"), Some(&value("4")));
    assert_eq!(get_pointer_case_sensitive(&root, "/i\\j"), Some(&value("5")));
    assert_eq!(get_pointer_case_sensitive(&root, "/k\"l"), Some(&value("6")));
    assert_eq!(get_pointer_case_sensitive(&root, "/ "), Some(&value("7")));
    assert_eq!(get_pointer_case_sensitive(&root, "/m~0n"), Some(&value("8")));
}

#[test]
fn get_pointer_missing_paths_return_none() {
    let root = value(POINTER_ROOT);
    assert_eq!(get_pointer_case_sensitive(&root, "/missing"), None);
    assert_eq!(get_pointer_case_sensitive(&root, "/foo/2"), None);
    assert_eq!(get_pointer_case_sensitive(&root, "/foo/x"), None);
}

#[test]
fn find_pointer_backmaps_to_paths() {
    let root = value(r#"{"numbers":[0,1,2,3,4,5,6,7,8,9]}"#);
    let nums = get_pointer_case_sensitive(&root, "/numbers").unwrap();
    let num6 = get_pointer_case_sensitive(&root, "/numbers/6").unwrap();
    assert_eq!(find_pointer_from_object_to(&root, num6), Some("/numbers/6".to_string()));
    assert_eq!(find_pointer_from_object_to(&root, nums), Some("/numbers".to_string()));
    assert_eq!(find_pointer_from_object_to(&root, &root), Some(String::new()));
}

#[test]
fn sort_object_orders_members() {
    let mut object = value(r#"{"banana":1,"apple":2,"cherry":3}"#);
    sort_object_case_sensitive(&mut object);
    assert_eq!(print_unformatted(&object).unwrap(), r#"{"apple":2,"banana":1,"cherry":3}"#);
}

#[test]
fn generated_patches_apply_and_reach_target() {
    // Includes the "test repeated removes" shrink, plus object
    // add/replace/remove cases.
    let cases: &[(&str, &str)] = &[
        ("[1,2,3,4]", "[1,3]"),
        (r#"{"foo":"bar"}"#, r#"{"baz":"qux","foo":"bar"}"#),
        (r#"{"foo":["bar","baz"]}"#, r#"{"foo":["bar","qux","baz"]}"#),
        (r#"{"foo":["bar","qux","baz"]}"#, r#"{"foo":["bar","baz"]}"#),
        (r#"{"a":1,"b":2}"#, r#"{"b":2}"#),
        ("[1,2,3]", "[]"),
        ("{}", r#"{"x":[1]}"#),
    ];
    for (from, to) in cases {
        let from_value = value(from);
        let to_value = value(to);
        let mut object = duplicate(&from_value, true);
        let patches = generate_patches(&from_value, &to_value, true);
        apply_patches(&mut object, &patches, true)
            .unwrap_or_else(|e| panic!("apply failed for {from} -> {to}: {e:?}"));
        assert!(
            compare(&object, &to_value, true),
            "patch for {from} -> {to} did not reach target (object order may differ)"
        );
    }
}

#[test]
fn merge_patch_round_trips_merge_and_generate() {
    // Merge a patch into a target, then regenerate a merge patch back to the merge result.
    let target = value(r#"{"title":"Goodbye!","author":{"givenName":"John","familyName":"Doe"},"tags":["api","testing"],"content":"This will be unchanged"}"#);
    let patch = value(r#"{"title":"Hello!","phoneNumber":"+01-123-456-7890","author":{"familyName":null},"tags":["api"]}"#);
    let merged = merge_patch(&target, &patch, true);

    assert_eq!(
        print_unformatted(&merged).unwrap(),
        r#"{"title":"Hello!","author":{"givenName":"John"},"tags":["api"],"content":"This will be unchanged","phoneNumber":"+01-123-456-7890"}"#
    );

    // generate_merge_patch(target, merged) must yield a patch that merges back to `merged`.
    let back = generate_merge_patch(&target, &merged, true);
    assert!(compare(&merge_patch(&target, &back, true), &merged, true));
}

#[test]
fn merge_patch_adds_removes_and_recurses() {
    // remove member via null, add member, mutate nested object.
    assert_eq!(
        print_unformatted(&merge_patch(&value(r#"{"a":1,"b":2}"#), &value(r#"{"b":null}"#), true)).unwrap(),
        r#"{"a":1}"#
    );
    assert_eq!(
        print_unformatted(&merge_patch(&value("{}"), &value(r#"{"x":1}"#), true)).unwrap(),
        r#"{"x":1}"#
    );
}

#[test]
fn patch_error_codes_for_each_failure() {
    let doc = r#"{"a":[1,2],"o":{"k":1},"s":"x"}"#;
    let cases: &[(&str, u32)] = &[
        (r#"{"op":"add","path":"/a/1"}"#, 7),
        (r#"{"op":"add","value":1}"#, 2),
        (r#"{"op":"copy","path":"/z"}"#, 4),
        (r#"{"op":"copy","from":"/nope","path":"/z"}"#, 5),
        (r#"{"op":"add","path":"a","value":1}"#, 9),
        (r#"{"op":"add","path":"/nope/x","value":1}"#, 9),
        (r#"{"op":"add","path":"/s/x","value":1}"#, 9),
        (r#"{"op":"add","path":"/a/5","value":1}"#, 10),
        (r#"{"op":"add","path":"/a/x","value":1}"#, 11),
        (r#"{"op":"remove","path":"/a/01"}"#, 11),
        (r#"{"op":"remove","path":"/a/2"}"#, 13),
        (r#"{"op":"remove","path":"/s/x"}"#, 9),
        (r#"{"op":"test","path":"/a/0","value":2}"#, 1),
        (r#"{"op":"explode","path":"/a"}"#, 3),
    ];
    for (patch, code) in cases {
        let mut object = value(doc);
        let patches = value(&format!("[{patch}]"));
        assert_eq!(apply_patches(&mut object, &patches, true), Err(PatchError(*code)), "{patch}");
    }
    let mut object = value(doc);
    assert_eq!(apply_patches(&mut object, &value("{}"), true), Err(PatchError(1)));
}

#[test]
fn a_failing_operation_keeps_earlier_changes() {
    let mut object = value(r#"{"a":1}"#);
    let patches = value(r#"[{"op":"add","path":"/b","value":2},{"op":"remove","path":"/zzz"},{"op":"add","path":"/c","value":3}]"#);
    assert_eq!(apply_patches(&mut object, &patches, true), Err(PatchError(13)));
    assert_eq!(object, value(r#"{"a":1,"b":2}"#));
}

#[test]
fn replace_detaches_before_it_needs_the_value() {
    let mut object = value(r#"{"a":1,"b":2}"#);
    let patches = value(r#"[{"op":"replace","path":"/a"}]"#);
    assert_eq!(apply_patches(&mut object, &patches, true), Err(PatchError(7)));
    assert_eq!(object, value(r#"{"b":2}"#));
}

#[test]
fn empty_paths_address_the_whole_document() {
    let mut object = value(r#"{"a":1}"#);
    apply_patches(&mut object, &value(r#"[{"op":"replace","path":"","value":[1]}]"#), true).unwrap();
    assert_eq!(object, value("[1]"));
    apply_patches(&mut object, &value(r#"[{"op":"remove","path":""}]"#), true).unwrap();
    assert_eq!(object, Value::Invalid);
}

#[test]
fn add_appends_with_a_dash_and_replaces_existing_names() {
    let mut object = value(r#"{"a":[1],"k":1,"m":2}"#);
    let patches = value(r#"[{"op":"add","path":"/a/-","value":2},{"op":"add","path":"/a/0","value":0},{"op":"add","path":"/k","value":9}]"#);
    apply_patches(&mut object, &patches, true).unwrap();
    assert_eq!(object, value(r#"{"a":[0,1,2],"m":2,"k":9}"#));
}

#[test]
fn move_takes_the_value_out_first() {
    let mut object = value(r#"{"a":{"b":1},"c":[]}"#);
    apply_patches(&mut object, &value(r#"[{"op":"move","from":"/a/b","path":"/c/0"}]"#), true).unwrap();
    assert_eq!(object, value(r#"{"a":{},"c":[1]}"#));
}

#[test]
fn patches_use_case_sensitive_names_on_request() {
    let mut object = value(r#"{"A":1}"#);
    let patches = value(r#"[{"op":"remove","path":"/a"}]"#);
    assert_eq!(cjson_rs::apply_patches_case_sensitive(&mut object, &patches, &same_number), Err(PatchError(13)));
    apply_patches(&mut object, &patches, false).unwrap();
    assert_eq!(object, value("{}"));
}

#[test]
fn delete_pointer_reports_codes_and_leaves_the_document() {
    let mut object = value(r#"{"a":[1]}"#);
    assert_eq!(delete_pointer(&mut object, "a", true), Err(PatchError(9)));
    assert_eq!(delete_pointer(&mut object, "/a/1", true), Err(PatchError(13)));
    assert_eq!(delete_pointer(&mut object, "/a/x", true), Err(PatchError(11)));
    assert_eq!(delete_pointer(&mut object, "/b/0", true), Err(PatchError(13)));
    assert_eq!(object, value(r#"{"a":[1]}"#));
}

#[test]
fn generated_patches_have_expected_shape() {
    let from = value(r#"{"a":[1,2,3],"b":1,"c/d":true}"#);
    let to = value(r#"{"a":[1],"b":"x","e":null}"#);
    let patches = generate_patches(&from, &to, true);
    assert_eq!(
        print_unformatted(&patches).unwrap(),
        r#"[{"op":"remove","path":"/a/1"},{"op":"remove","path":"/a/1"},{"op":"replace","path":"/b","value":"x"},{"op":"remove","path":"/c~1d"},{"op":"add","path":"/e","value":null}]"#
    );
    let mut result = duplicate(&from, true);
    apply_patches(&mut result, &patches, true).unwrap();
    assert!(compare(&result, &to, true));
}

#[test]
fn generate_patches_case_sensitive_and_add_patch_to_array() {
    let from = value(r#"{"a":1}"#);
    let to = value(r#"{"A":1}"#);
    let patches = cjson_rs::generate_patches_case_sensitive(&from, &to, &same_number);
    assert_eq!(print_unformatted(&patches).unwrap(), r#"[{"op":"add","path":"/A","value":1},{"op":"remove","path":"/a"}]"#);
    assert_eq!(print_unformatted(&generate_patches(&from, &to, false)).unwrap(), "[]");

    let mut out: Vec<Value> = Vec::new();
    add_patch_to_array(&mut out, "replace", "/x", Some(&Value::Bool(true)));
    add_patch_to_array(&mut out, "remove", "/y", None);
    assert_eq!(
        print_unformatted(&Value::array(out)).unwrap(),
        r#"[{"op":"replace","path":"/x","value":true},{"op":"remove","path":"/y"}]"#
    );
}

#[test]
fn merge_patch_replaces_non_objects_and_generates_nested_patches() {
    assert_eq!(merge_patch(&value(r#"{"a":1}"#), &value("[1]"), true), value("[1]"));
    assert_eq!(merge_patch(&value("[1]"), &value(r#"{"a":1}"#), true), value(r#"{"a":1}"#));
    let from = value(r#"{"a":{"x":1,"y":2},"b":1}"#);
    let to = value(r#"{"a":{"x":1,"y":3},"c":2}"#);
    let patch = generate_merge_patch(&from, &to, true);
    assert_eq!(print_unformatted(&patch).unwrap(), r#"{"a":{"y":3},"b":null,"c":2}"#);
    assert_eq!(merge_patch(&from, &patch, true), to);
    assert_eq!(
        print_unformatted(&cjson_rs::merge_patch_case_sensitive(&value(r#"{"a":1}"#), &value(r#"{"A":2}"#))).unwrap(),
        r#"{"a":1,"A":2}"#
    );
    assert_eq!(
        print_unformatted(&cjson_rs::generate_merge_patch_case_sensitive(&value("1"), &value(r#"{"a":1}"#), &same_number)).unwrap(),
        r#"{"a":1}"#
    );
}

#[test]
fn sorting_is_stable_and_leaves_non_objects() {
    let mut object = value(r#"{"b":1,"B":2,"a":3,"b":4}"#);
    sort_object(&mut object, false);
    assert_eq!(print_unformatted(&object).unwrap(), r#"{"a":3,"b":1,"B":2,"b":4}"#);
    let mut exact = value(r#"{"b":1,"B":2,"a":3}"#);
    sort_object(&mut exact, true);
    assert_eq!(print_unformatted(&exact).unwrap(), r#"{"B":2,"a":3,"b":1}"#);
    let mut array = value("[3,1]");
    sort_object(&mut array, true);
    assert_eq!(array, value("[3,1]"));
}

#[test]
fn members_built_by_hand_resolve_through_pointers() {
    let doc = Value::object(vec![Member::new("x~y", Value::array(vec![Value::Null, Value::Bool(true)]))]);
    assert_eq!(get_pointer(&doc, "/x~0y/1", true), Some(&Value::Bool(true)));
    assert_eq!(get_pointer(&doc, "/x~y/1", true), None);
    assert_eq!(find_pointer_from_object_to(&doc, get_pointer(&doc, "/x~0y/1", true).unwrap()), Some("/x~0y/1".into()));
}

#[test]
fn found_pointer_looks_up_to_its_target() {
    let root = value(r#"{"list":[{"a/b":true},{"m~n":[10,20,30]}],"x":null}"#);
    let target = get_pointer_case_sensitive(&root, "/list/1/m~0n/2").unwrap();
    let pointer = find_pointer_from_object_to(&root, target).unwrap();
    assert_eq!(pointer, "/list/1/m~0n/2");
    assert!(std::ptr::eq(get_pointer_case_sensitive(&root, &pointer).unwrap(), target));
    let slash = get_pointer_case_sensitive(&root, "/list/0/a~1b").unwrap();
    let pointer = find_pointer_from_object_to(&root, slash).unwrap();
    assert!(std::ptr::eq(get_pointer(&root, &pointer, false).unwrap(), slash));
}

#[test]
fn generated_patches_reach_target_ignoring_case() {
    let cases: &[(&str, &str)] = &[
        (r#"{"Name":"a","list":[1,2,3]}"#, r#"{"name":"b","list":[1,2]}"#),
        (r#"{"A":{"x":1},"b":true}"#, r#"{"a":{"x":2,"y":[]},"c":false}"#),
        (r#"[{"K":1},{"k":2}]"#, r#"[{"k":3}]"#),
    ];
    for (from, to) in cases {
        let from_value = value(from);
        let to_value = value(to);
        let mut object = duplicate(&from_value, true);
        let patches = generate_patches(&from_value, &to_value, false);
        apply_patches(&mut object, &patches, false).unwrap();
        assert!(compare(&object, &to_value, false), "{from} -> {to}");
    }
}

#[test]
fn generated_patch_flips_a_boolean() {
    let from = Value::Bool(true);
    let to = Value::Bool(false);
    let patches = generate_patches(&from, &to, true);
    assert_eq!(patches, value(r#"[{"op":"replace","path":"","value":false}]"#));
    let mut result = duplicate(&from, true);
    apply_patches(&mut result, &patches, true).unwrap();
    assert!(compare(&result, &to, true));

    let nested_from = value(r#"{"a":[true,false],"b":true}"#);
    let nested_to = value(r#"{"a":[false,false],"b":true}"#);
    let nested = generate_patches(&nested_from, &nested_to, true);
    assert_eq!(print_unformatted(&nested).unwrap(), r#"[{"op":"replace","path":"/a/0","value":false}]"#);
    assert_eq!(print_unformatted(&generate_patches(&to, &to, true)).unwrap(), "[]");
}

#[test]
fn generated_patch_leaves_raw_values_alone() {
    let from = Value::raw("1");
    let to = Value::raw("2");
    assert_eq!(print_unformatted(&generate_patches(&from, &to, true)).unwrap(), "[]");
    assert!(!compare(&from, &to, true));
}
