//! Value construction, lookup, duplication, structural comparison and
//! mutation.

use cjson_rs::{
    add_item_reference_to_array, add_item_to_array, add_number_to_object, add_string_to_object, create_double_array,
    create_float_array, create_int_array, create_string_array, delete_from_array, detach_from_object, duplicate,
    insert_in_array, replace_in_array, replace_in_object, set_bool, set_number, set_string, Kind, Member,
    MutationError,
};

type Value = cjson_rs::Value<f64>;

fn same_number(left: f64, right: f64) -> bool {
    let max = left.abs().max(right.abs());
    (left - right).abs() <= max * f64::EPSILON
}

fn compare(left: &Value, right: &Value, case_sensitive: bool) -> bool {
    cjson_rs::compare(left, right, case_sensitive, &same_number)
}

fn widen_int(value: i32) -> f64 {
    value as f64
}

fn widen_float(value: f32) -> f64 {
    value as f64
}

#[test]
fn constructors_expose_the_correct_kind() {
    assert_eq!(Value::null().kind(), Kind::Null);
    assert_eq!(Value::boolean(true).as_bool(), Some(true));
    assert_eq!(Value::number(42.5).as_number(), Some(42.5));
    assert_eq!(Value::string("hello").as_str(), Some("hello"));
    assert!(Value::raw("[1]").is_raw());
}

#[test]
fn objects_preserve_order_and_duplicate_names() {
    let object = Value::object(vec![
        Member::new("name", Value::string("first")),
        Member::new("name", Value::string("second")),
    ]);

    assert_eq!(object.len(), Some(2));
    assert_eq!(object.get("name").and_then(Value::as_str), Some("first"));
}

#[test]
fn cjson_style_lookup_is_ascii_case_insensitive() {
    let object = Value::object(vec![Member::new("Content-Type", Value::string("application/json"))]);
    assert_eq!(object.get_case_insensitive("content-type").and_then(Value::as_str), Some("application/json"));
    assert_eq!(object.get("content-type"), None);
}

#[test]
fn array_access_is_bounds_checked() {
    let array = Value::array(vec![Value::number(1.0)]);
    assert_eq!(array.get_index(0).and_then(Value::as_number), Some(1.0));
    assert_eq!(array.get_index(1), None);
}

#[test]
fn compares_objects_as_unordered_key_sets() {
    let left = Value::object(vec![
        Member::new("a", Value::number(1.0)),
        Member::new("b", Value::string("x")),
    ]);
    let right = Value::object(vec![
        Member::new("b", Value::string("x")),
        Member::new("a", Value::number(1.0)),
    ]);
    assert!(compare(&left, &right, false));
    assert!(compare(&left, &right, true));

    let different_case = Value::object(vec![Member::new("A", Value::number(1.0))]);
    assert!(compare(&Value::object(vec![Member::new("a", Value::number(1.0))]), &different_case, false));
    assert!(!compare(&Value::object(vec![Member::new("a", Value::number(1.0))]), &different_case, true));
}

#[test]
fn compare_rejects_type_and_value_mismatches() {
    assert!(!compare(&Value::number(1.0), &Value::string("1"), false));
    assert!(!compare(&Value::number(1.0), &Value::number(2.0), false));
    assert!(compare(&Value::number(1.0), &Value::number(1.0), false));
    let shorter = Value::array(vec![Value::number(1.0)]);
    let longer = Value::array(vec![Value::number(1.0), Value::number(2.0)]);
    assert!(!compare(&shorter, &longer, false));
}

#[test]
fn duplicate_recurses_and_respects_the_flag() {
    let nested = Value::object(vec![Member::new("a", Value::array(vec![Value::number(1.0)]))]);
    let deep = duplicate(&nested, true);
    assert_eq!(deep, nested);

    let shallow = duplicate(&nested, false);
    assert!(shallow.is_object());
    assert_eq!(shallow.len(), Some(0));
    assert_eq!(duplicate(&Value::number(7.0), false), Value::number(7.0));
}

#[test]
fn builds_primitive_arrays() {
    assert_eq!(
        create_int_array(&[1, 2, 3], &widen_int),
        Value::array(vec![Value::number(1.0), Value::number(2.0), Value::number(3.0)])
    );
    assert_eq!(create_float_array(&[0.5f32], &widen_float), Value::array(vec![Value::number(0.5)]));
    assert_eq!(create_double_array(&[1.5]), Value::array(vec![Value::number(1.5)]));
    assert_eq!(create_string_array::<f64>(&["a", "b"]), Value::array(vec![Value::string("a"), Value::string("b")]));
}

#[test]
fn adds_items_to_arrays_and_objects() {
    let mut array = Value::array(vec![]);
    add_item_to_array(&mut array, Value::number(1.0)).unwrap();
    assert_eq!(array, Value::array(vec![Value::number(1.0)]));

    let mut object = Value::object(vec![]);
    add_number_to_object(&mut object, "count", 2.0).unwrap();
    add_string_to_object(&mut object, "name", "Ada").unwrap();
    assert_eq!(object.get("count").and_then(Value::as_number), Some(2.0));
    assert_eq!(object.get("name").and_then(Value::as_str), Some("Ada"));
}

#[test]
fn reference_adds_clone_safely() {
    let source = Value::array(vec![Value::number(1.0)]);
    let mut destination = Value::array(vec![]);
    add_item_reference_to_array(&mut destination, &source).unwrap();
    destination.as_array_mut().unwrap()[0].as_array_mut().unwrap().push(Value::number(2.0));
    assert_eq!(source, Value::array(vec![Value::number(1.0)]));
}

#[test]
fn detaches_and_deletes_the_first_matching_member() {
    let mut object = Value::object(vec![
        Member::new("name", Value::string("first")),
        Member::new("name", Value::string("second")),
    ]);
    assert_eq!(detach_from_object(&mut object, "NAME", false), Ok(Value::string("first")));

    let mut array = Value::array(vec![Value::number(1.0), Value::number(2.0)]);
    delete_from_array(&mut array, 0).unwrap();
    assert_eq!(array, Value::array(vec![Value::number(2.0)]));
}

#[test]
fn inserts_and_replaces_items() {
    let mut array = Value::array(vec![Value::number(1.0), Value::number(3.0)]);
    insert_in_array(&mut array, 1, Value::number(2.0)).unwrap();
    assert_eq!(replace_in_array(&mut array, 2, Value::number(4.0)), Ok(Value::number(3.0)));
    assert_eq!(array, Value::array(vec![Value::number(1.0), Value::number(2.0), Value::number(4.0)]));

    let mut object = Value::object(vec![Member::new("name", Value::string("old"))]);
    assert_eq!(replace_in_object(&mut object, "NAME", Value::string("new"), false), Ok(Value::string("old")));
    assert_eq!(object.get("name").and_then(Value::as_str), Some("new"));
}

#[test]
fn updates_scalars_without_changing_their_container() {
    let mut number = Value::Null;
    assert_eq!(set_number(&mut number, 42.0), 42.0);
    assert_eq!(number, Value::number(42.0));

    let mut string = Value::string("old");
    assert_eq!(set_string(&mut string, "new"), Ok("new"));
    let mut boolean = Value::boolean(false);
    set_bool(&mut boolean, true).unwrap();
    assert_eq!(boolean, Value::boolean(true));
}

#[test]
fn rejects_wrong_container_types_and_missing_items() {
    assert_eq!(
        add_item_to_array(&mut Value::Null, Value::Null),
        Err(MutationError::WrongContainer { expected: "an array", actual: Kind::Null })
    );
    assert_eq!(replace_in_array(&mut Value::array(vec![]), 0, Value::Null), Err(MutationError::MissingItem));
}

#[test]
fn insert_past_the_end_appends() {
    let mut array = Value::array(vec![Value::number(1.0)]);
    insert_in_array(&mut array, 7, Value::number(2.0)).unwrap();
    assert_eq!(array, Value::array(vec![Value::number(1.0), Value::number(2.0)]));
}

#[test]
fn insert_then_detach_restores_the_array() {
    let before = Value::array(vec![Value::number(1.0), Value::number(3.0)]);
    let mut array = duplicate(&before, true);
    insert_in_array(&mut array, 1, Value::number(2.0)).unwrap();
    assert_eq!(cjson_rs::detach_from_array(&mut array, 1), Ok(Value::number(2.0)));
    assert_eq!(array, before);
}

#[test]
fn replace_twice_restores_the_array() {
    let before = Value::array(vec![Value::number(1.0), Value::string("x")]);
    let mut array = duplicate(&before, true);
    let old = replace_in_array(&mut array, 1, Value::boolean(true)).unwrap();
    let back = replace_in_array(&mut array, 1, old).unwrap();
    assert_eq!(back, Value::boolean(true));
    assert_eq!(array, before);
}

#[test]
fn mutation_errors_name_the_kinds() {
    assert_eq!(set_string(&mut Value::number(1.0), "x"), Err(MutationError::NotAString));
    assert_eq!(
        set_bool(&mut Value::Null, true),
        Err(MutationError::WrongContainer { expected: "a boolean", actual: Kind::Null })
    );
    assert_eq!(
        cjson_rs::delete_from_object(&mut Value::array(vec![]), "a", true),
        Err(MutationError::WrongContainer { expected: "an object", actual: Kind::Array })
    );
    assert_eq!(
        cjson_rs::delete_from_object(&mut Value::object(vec![]), "a", true),
        Err(MutationError::MissingItem)
    );
}

#[test]
fn added_object_members_can_be_filled_in_place() {
    let mut object = Value::object(vec![]);
    let inner = cjson_rs::add_object_to_object(&mut object, "inner").unwrap();
    cjson_rs::add_bool_to_object(inner, "flag", true).unwrap();
    cjson_rs::add_null_to_object(&mut object, "nothing").unwrap();
    cjson_rs::add_raw_to_object(&mut object, "raw", "[1]").unwrap();
    let list = cjson_rs::add_array_to_object(&mut object, "list").unwrap();
    add_item_to_array(list, Value::number(3.0)).unwrap();
    assert_eq!(
        object,
        Value::object(vec![
            Member::new("inner", Value::object(vec![Member::new("flag", Value::boolean(true))])),
            Member::new("nothing", Value::Null),
            Member::new("raw", Value::raw("[1]")),
            Member::new("list", Value::array(vec![Value::number(3.0)])),
        ])
    );
}

#[test]
fn compare_reads_raw_text_exactly_and_never_matches_invalid() {
    assert!(compare(&Value::raw("1"), &Value::raw("1"), true));
    assert!(!compare(&Value::raw("1"), &Value::raw("2"), true));
    assert!(!compare(&Value::raw("1"), &Value::string("1"), true));
    assert!(!compare(&Value::Invalid, &Value::Invalid, true));
    assert!(!compare(&Value::Invalid, &Value::Null, true));
    let holding_invalid = Value::array(vec![Value::Null, Value::Invalid]);
    assert!(!compare(&holding_invalid, &holding_invalid, true));
}
