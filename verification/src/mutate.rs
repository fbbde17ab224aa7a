//! Mutation of a value tree: adding, detaching, inserting and replacing
//! children, and changing scalars in place.
use vstd::prelude::*;
use crate::text::names_match;
use crate::value::{
    JMember, JValue, Kind, Member, Value, duplicate, find_member, first_match, items_view, kind_of,
    lemma_array_view, lemma_container_views, lemma_first_match, lemma_object_view, members_view,
};

verus! {

/// Why a mutation was refused.
#[derive(Debug, PartialEq, Eq)]
pub enum MutationError {
    /// The value is not the kind of container (or scalar) the operation needs.
    WrongContainer { expected: &'static str, actual: Kind },
    /// No element at that index, or no member with that name.
    MissingItem,
    /// The value is not a string.
    NotAString,
}

/// The refusal for a value of the wrong kind.
pub open spec fn wrong_kind(e: MutationError, expected: Seq<char>, actual: Kind) -> bool {
    e matches MutationError::WrongContainer { expected: x, actual: a } && x@ == expected && a == actual
}

/// Appends `item` to an array.
pub fn add_item_to_array<N>(array: &mut Value<N>, item: Value<N>) -> (r: Result<(), MutationError>)
    ensures
        match old(array)@ {
            JValue::Array(xs) => r is Ok && final(array)@ == JValue::Array(xs.push(item@)),
            _ => r matches Err(e) && wrong_kind(e, "an array"@, kind_of(old(array)@)) && final(array)@ == old(array)@,
        },
{
    let actual = array.kind();
    match array {
        Value::Array(values) => {
            proof {
                lemma_array_view(*values);
            }
            let ghost before = items_view(values@);
            let ghost iv = item@;
            values.push(item);
            proof {
                lemma_array_view(*values);
                assert(items_view(values@) =~= before.push(iv));
            }
            Ok(())
        },
        _ => Err(MutationError::WrongContainer { expected: "an array", actual }),
    }
}

/// Appends an independent copy of `item` to an array: the array owns a deep
/// copy, so later changes to either side do not reach the other.
pub fn add_item_reference_to_array<N: Copy>(array: &mut Value<N>, item: &Value<N>) -> (r: Result<(), MutationError>)
    ensures
        match old(array)@ {
            JValue::Array(xs) => r is Ok && final(array)@ == JValue::Array(xs.push(item@)),
            _ => r matches Err(e) && wrong_kind(e, "an array"@, kind_of(old(array)@)) && final(array)@ == old(array)@,
        },
{
    add_item_to_array(array, duplicate(item, true))
}

/// Appends the member `name: item` to an object (duplicate names are kept)
/// and gives access to the added value.
pub fn add_item_to_object<'a, N>(object: &'a mut Value<N>, name: &str, item: Value<N>) -> (r: Result<&'a mut Value<N>, MutationError>)
    ensures
        match old(object)@ {
            JValue::Object(ms) => r matches Ok(v) && *v == item && final(object)@ is Object && final(object)@->Object_0
                =~= ms.push(JMember { name: name@, value: final(v)@ }),
            _ => r matches Err(e) && wrong_kind(e, "an object"@, kind_of(old(object)@)) && final(object)@ == old(object)@,
        },
{
    let actual = object.kind();
    match object {
        Value::Object(members) => {
            proof {
                lemma_object_view(*members);
            }
            let ghost before = members_view(members@);
            members.push(Member { name: name.to_owned(), value: item });
            let last = members.len() - 1;
            proof {
                lemma_container_views::<N>();
                assert(members_view(members@).subrange(0, last as int) =~= before);
            }
            let m = &mut members[last];
            Ok(&mut m.value)
        },
        _ => Err(MutationError::WrongContainer { expected: "an object", actual }),
    }
}


/// Appends a copy of `item` under `name` to an object.
pub fn add_item_reference_to_object<'a, N: Copy>(object: &'a mut Value<N>, name: &str, item: &Value<N>) -> (r: Result<&'a mut Value<N>, MutationError>)
    ensures
        match old(object)@ {
            JValue::Object(ms) => r matches Ok(v) && v@ == item@ && final(object)@ is Object && final(object)@->Object_0
                =~= ms.push(JMember { name: name@, value: final(v)@ }),
            _ => r matches Err(e) && wrong_kind(e, "an object"@, kind_of(old(object)@)) && final(object)@ == old(object)@,
        },
{
    add_item_to_object(object, name, duplicate(item, true))
}

/// Appends `name: null` to an object.
pub fn add_null_to_object<'a, N>(object: &'a mut Value<N>, name: &str) -> (r: Result<&'a mut Value<N>, MutationError>)
    ensures
        match old(object)@ {
            JValue::Object(ms) => r matches Ok(v) && v@ == JValue::<N>::Null && final(object)@ is Object && final(object)@->Object_0
                =~= ms.push(JMember { name: name@, value: final(v)@ }),
            _ => r matches Err(e) && wrong_kind(e, "an object"@, kind_of(old(object)@)) && final(object)@ == old(object)@,
        },
{
    add_item_to_object(object, name, Value::Null)
}

/// Appends `name: value` (a boolean) to an object.
pub fn add_bool_to_object<'a, N>(object: &'a mut Value<N>, name: &str, value: bool) -> (r: Result<&'a mut Value<N>, MutationError>)
    ensures
        match old(object)@ {
            JValue::Object(ms) => r matches Ok(v) && v@ == JValue::<N>::Bool(value) && final(object)@ is Object
                && final(object)@->Object_0 =~= ms.push(JMember { name: name@, value: final(v)@ }),
            _ => r matches Err(e) && wrong_kind(e, "an object"@, kind_of(old(object)@)) && final(object)@ == old(object)@,
        },
{
    add_item_to_object(object, name, Value::Bool(value))
}

/// Appends `name: value` (a number) to an object.
pub fn add_number_to_object<'a, N>(object: &'a mut Value<N>, name: &str, value: N) -> (r: Result<&'a mut Value<N>, MutationError>)
    ensures
        match old(object)@ {
            JValue::Object(ms) => r matches Ok(v) && v@ == JValue::Number(value) && final(object)@ is Object
                && final(object)@->Object_0 =~= ms.push(JMember { name: name@, value: final(v)@ }),
            _ => r matches Err(e) && wrong_kind(e, "an object"@, kind_of(old(object)@)) && final(object)@ == old(object)@,
        },
{
    add_item_to_object(object, name, Value::Number(value))
}

/// Appends `name: value` (a string) to an object.
pub fn add_string_to_object<'a, N>(object: &'a mut Value<N>, name: &str, value: &str) -> (r: Result<&'a mut Value<N>, MutationError>)
    ensures
        match old(object)@ {
            JValue::Object(ms) => r matches Ok(v) && v@ == JValue::<N>::Str(value@) && final(object)@ is Object
                && final(object)@->Object_0 =~= ms.push(JMember { name: name@, value: final(v)@ }),
            _ => r matches Err(e) && wrong_kind(e, "an object"@, kind_of(old(object)@)) && final(object)@ == old(object)@,
        },
{
    add_item_to_object(object, name, Value::String(value.to_owned()))
}

/// Appends `name: value` (pre-serialized JSON) to an object.
pub fn add_raw_to_object<'a, N>(object: &'a mut Value<N>, name: &str, value: &str) -> (r: Result<&'a mut Value<N>, MutationError>)
    ensures
        match old(object)@ {
            JValue::Object(ms) => r matches Ok(v) && v@ == JValue::<N>::Raw(value@) && final(object)@ is Object
                && final(object)@->Object_0 =~= ms.push(JMember { name: name@, value: final(v)@ }),
            _ => r matches Err(e) && wrong_kind(e, "an object"@, kind_of(old(object)@)) && final(object)@ == old(object)@,
        },
{
    add_item_to_object(object, name, Value::Raw(value.to_owned()))
}

/// Appends `name: {}` to an object.
pub fn add_object_to_object<'a, N>(object: &'a mut Value<N>, name: &str) -> (r: Result<&'a mut Value<N>, MutationError>)
    ensures
        match old(object)@ {
            JValue::Object(ms) => r matches Ok(v) && v@ == JValue::<N>::Object(Seq::empty()) && final(object)@ is Object
                && final(object)@->Object_0 =~= ms.push(JMember { name: name@, value: final(v)@ }),
            _ => r matches Err(e) && wrong_kind(e, "an object"@, kind_of(old(object)@)) && final(object)@ == old(object)@,
        },
{
    let empty: Vec<Member<N>> = Vec::new();
    proof {
        lemma_object_view(empty);
        assert(members_view(empty@) =~= Seq::<JMember<N>>::empty());
    }
    add_item_to_object(object, name, Value::Object(empty))
}

/// Appends `name: []` to an object.
pub fn add_array_to_object<'a, N>(object: &'a mut Value<N>, name: &str) -> (r: Result<&'a mut Value<N>, MutationError>)
    ensures
        match old(object)@ {
            JValue::Object(ms) => r matches Ok(v) && v@ == JValue::<N>::Array(Seq::empty()) && final(object)@ is Object
                && final(object)@->Object_0 =~= ms.push(JMember { name: name@, value: final(v)@ }),
            _ => r matches Err(e) && wrong_kind(e, "an object"@, kind_of(old(object)@)) && final(object)@ == old(object)@,
        },
{
    let empty: Vec<Value<N>> = Vec::new();
    proof {
        lemma_array_view(empty);
        assert(items_view(empty@) =~= Seq::<JValue<N>>::empty());
    }
    add_item_to_object(object, name, Value::Array(empty))
}

/// Removes and returns the element at `index` of an array.
pub fn detach_from_array<N>(array: &mut Value<N>, index: usize) -> (r: Result<Value<N>, MutationError>)
    ensures
        match old(array)@ {
            JValue::Array(xs) => if index < xs.len() {
                r matches Ok(v) && v@ == xs[index as int] && final(array)@ == JValue::Array(xs.remove(index as int))
            } else {
                r == Err::<Value<N>, MutationError>(MutationError::MissingItem) && final(array)@ == old(array)@
            },
            _ => r matches Err(e) && wrong_kind(e, "an array"@, kind_of(old(array)@)) && final(array)@ == old(array)@,
        },
{
    let actual = array.kind();
    match array {
        Value::Array(values) => {
            proof {
                lemma_array_view(*values);
            }
            if index >= values.len() {
                return Err(MutationError::MissingItem);
            }
            let ghost before = items_view(values@);
            let item = values.remove(index);
            proof {
                lemma_array_view(*values);
                assert(items_view(values@) =~= before.remove(index as int));
            }
            Ok(item)
        },
        _ => Err(MutationError::WrongContainer { expected: "an array", actual }),
    }
}

/// Removes the element at `index` of an array.
pub fn delete_from_array<N>(array: &mut Value<N>, index: usize) -> (r: Result<(), MutationError>)
    ensures
        match old(array)@ {
            JValue::Array(xs) => if index < xs.len() {
                r is Ok && final(array)@ == JValue::Array(xs.remove(index as int))
            } else {
                r == Err::<(), MutationError>(MutationError::MissingItem) && final(array)@ == old(array)@
            },
            _ => r matches Err(e) && wrong_kind(e, "an array"@, kind_of(old(array)@)) && final(array)@ == old(array)@,
        },
{
    match detach_from_array(array, index) {
        Ok(_) => Ok(()),
        Err(e) => Err(e),
    }
}

/// Removes and returns the value of the first member whose name matches.
pub fn detach_from_object<N>(object: &mut Value<N>, name: &str, case_sensitive: bool) -> (r: Result<Value<N>, MutationError>)
    ensures
        match old(object)@ {
            JValue::Object(ms) => match first_match(ms, name@, case_sensitive) {
                Some(i) => r matches Ok(v) && v@ == ms[i].value && final(object)@ == JValue::Object(ms.remove(i)),
                None => r == Err::<Value<N>, MutationError>(MutationError::MissingItem) && final(object)@ == old(object)@,
            },
            _ => r matches Err(e) && wrong_kind(e, "an object"@, kind_of(old(object)@)) && final(object)@ == old(object)@,
        },
{
    let actual = object.kind();
    match object {
        Value::Object(members) => {
            proof {
                lemma_object_view(*members);
            }
            let found = find_member(members, name, case_sensitive);
            proof {
                lemma_first_match(members_view(members@), name@, case_sensitive);
            }
            match found {
                None => Err(MutationError::MissingItem),
                Some(i) => {
                    let ghost before = members_view(members@);
                    let m = members.remove(i);
                    proof {
                        lemma_object_view(*members);
                        assert(members_view(members@) =~= before.remove(i as int));
                    }
                    Ok(m.value)
                },
            }
        },
        _ => Err(MutationError::WrongContainer { expected: "an object", actual }),
    }
}

/// Removes the first member whose name matches.
pub fn delete_from_object<N>(object: &mut Value<N>, name: &str, case_sensitive: bool) -> (r: Result<(), MutationError>)
    ensures
        match old(object)@ {
            JValue::Object(ms) => match first_match(ms, name@, case_sensitive) {
                Some(i) => r is Ok && final(object)@ == JValue::Object(ms.remove(i)),
                None => r == Err::<(), MutationError>(MutationError::MissingItem) && final(object)@ == old(object)@,
            },
            _ => r matches Err(e) && wrong_kind(e, "an object"@, kind_of(old(object)@)) && final(object)@ == old(object)@,
        },
{
    match detach_from_object(object, name, case_sensitive) {
        Ok(_) => Ok(()),
        Err(e) => Err(e),
    }
}

/// Inserts `item` before position `index` of an array; an index past the
/// end appends.
pub fn insert_in_array<N>(array: &mut Value<N>, index: usize, item: Value<N>) -> (r: Result<(), MutationError>)
    ensures
        match old(array)@ {
            JValue::Array(xs) => r is Ok && final(array)@ == JValue::Array(
                xs.insert(if index < xs.len() { index as int } else { xs.len() as int }, item@),
            ),
            _ => r matches Err(e) && wrong_kind(e, "an array"@, kind_of(old(array)@)) && final(array)@ == old(array)@,
        },
{
    let actual = array.kind();
    match array {
        Value::Array(values) => {
            proof {
                lemma_array_view(*values);
            }
            let at = if index < values.len() {
                index
            } else {
                values.len()
            };
            let ghost before = items_view(values@);
            let ghost iv = item@;
            values.insert(at, item);
            proof {
                lemma_array_view(*values);
                assert(items_view(values@) =~= before.insert(at as int, iv));
            }
            Ok(())
        },
        _ => Err(MutationError::WrongContainer { expected: "an array", actual }),
    }
}

/// Replaces the element at `index` of an array, returning the old one.
pub fn replace_in_array<N>(array: &mut Value<N>, index: usize, replacement: Value<N>) -> (r: Result<Value<N>, MutationError>)
    ensures
        match old(array)@ {
            JValue::Array(xs) => if index < xs.len() {
                r matches Ok(v) && v@ == xs[index as int] && final(array)@ == JValue::Array(xs.update(index as int, replacement@))
            } else {
                r == Err::<Value<N>, MutationError>(MutationError::MissingItem) && final(array)@ == old(array)@
            },
            _ => r matches Err(e) && wrong_kind(e, "an array"@, kind_of(old(array)@)) && final(array)@ == old(array)@,
        },
{
    let actual = array.kind();
    match array {
        Value::Array(values) => {
            proof {
                lemma_array_view(*values);
            }
            if index >= values.len() {
                return Err(MutationError::MissingItem);
            }
            let ghost before = items_view(values@);
            let ghost rv = replacement@;
            let mut item = replacement;
            std::mem::swap(&mut values[index], &mut item);
            proof {
                lemma_array_view(*values);
                assert(items_view(values@) =~= before.update(index as int, rv));
            }
            Ok(item)
        },
        _ => Err(MutationError::WrongContainer { expected: "an array", actual }),
    }
}

/// Replaces the value of the first member whose name matches, keeping the
/// member's own name, and returns the old value.
pub fn replace_in_object<N>(object: &mut Value<N>, name: &str, replacement: Value<N>, case_sensitive: bool) -> (r: Result<Value<N>, MutationError>)
    ensures
        match old(object)@ {
            JValue::Object(ms) => match first_match(ms, name@, case_sensitive) {
                Some(i) => r matches Ok(v) && v@ == ms[i].value && final(object)@ == JValue::Object(
                    ms.update(i, JMember { name: ms[i].name, value: replacement@ }),
                ),
                None => r == Err::<Value<N>, MutationError>(MutationError::MissingItem) && final(object)@ == old(object)@,
            },
            _ => r matches Err(e) && wrong_kind(e, "an object"@, kind_of(old(object)@)) && final(object)@ == old(object)@,
        },
{
    let actual = object.kind();
    match object {
        Value::Object(members) => {
            proof {
                lemma_object_view(*members);
            }
            let found = find_member(members, name, case_sensitive);
            proof {
                lemma_first_match(members_view(members@), name@, case_sensitive);
            }
            match found {
                None => Err(MutationError::MissingItem),
                Some(i) => {
                    let ghost before = members_view(members@);
                    let ghost rv = replacement@;
                    let mut item = replacement;
                    std::mem::swap(&mut members[i].value, &mut item);
                    proof {
                        lemma_object_view(*members);
                        assert(members_view(members@) =~= before.update(i as int, JMember { name: before[i as int].name, value: rv }));
                    }
                    Ok(item)
                },
            }
        },
        _ => Err(MutationError::WrongContainer { expected: "an object", actual }),
    }
}

/// Makes the value the number `number` (whatever it was) and returns it.
pub fn set_number<N: Copy>(value: &mut Value<N>, number: N) -> (r: N)
    ensures
        r == number,
        final(value)@ == JValue::Number(number),
{
    *value = Value::Number(number);
    number
}

/// Changes the text of a string value; other kinds are left untouched.
pub fn set_string<'a, N>(value: &'a mut Value<N>, replacement: &str) -> (r: Result<&'a str, MutationError>)
    ensures
        match old(value)@ {
            JValue::Str(_) => r matches Ok(t) && t@ == replacement@ && final(value)@ == JValue::<N>::Str(replacement@),
            _ => r == Err::<&str, MutationError>(MutationError::NotAString) && final(value)@ == old(value)@,
        },
{
    match value {
        Value::String(text) => {
            *text = replacement.to_owned();
            Ok(text.as_str())
        },
        _ => Err(MutationError::NotAString),
    }
}

/// Changes a boolean value; other kinds are refused.
pub fn set_bool<N>(value: &mut Value<N>, boolean: bool) -> (r: Result<(), MutationError>)
    ensures
        match old(value)@ {
            JValue::Bool(_) => r is Ok && final(value)@ == JValue::<N>::Bool(boolean),
            _ => r matches Err(e) && wrong_kind(e, "a boolean"@, kind_of(old(value)@)) && final(value)@ == old(value)@,
        },
{
    let actual = value.kind();
    match value {
        Value::Bool(current) => {
            *current = boolean;
            Ok(())
        },
        _ => Err(MutationError::WrongContainer { expected: "a boolean", actual }),
    }
}


/// Inserting an item into an array and then detaching the element at the
/// place where it went gives the item back and the array as it was.
pub proof fn law_insert_then_detach_restores<N>(xs: Seq<JValue<N>>, index: int, item: JValue<N>)
    requires
        0 <= index,
    ensures
        ({
            let at = if index < xs.len() {
                index
            } else {
                xs.len() as int
            };
            &&& at < xs.insert(at, item).len()
            &&& xs.insert(at, item)[at] == item
            &&& xs.insert(at, item).remove(at) == xs
        }),
{
    let at = if index < xs.len() {
        index
    } else {
        xs.len() as int
    };
    assert(xs.insert(at, item).remove(at) =~= xs);
}

/// Replacing an element of an array and then putting back what the first
/// replacement returned restores the array.
pub proof fn law_replace_twice_restores<N>(xs: Seq<JValue<N>>, index: int, replacement: JValue<N>)
    requires
        0 <= index < xs.len(),
    ensures
        xs.update(index, replacement)[index] == replacement,
        xs.update(index, replacement).update(index, xs[index]) == xs,
{
    assert(xs.update(index, replacement).update(index, xs[index]) =~= xs);
}

/// Replacing a member's value and then putting back what the first
/// replacement returned restores the object, names and all.
pub proof fn law_replace_member_twice_restores<N>(ms: Seq<JMember<N>>, i: int, replacement: JValue<N>)
    requires
        0 <= i < ms.len(),
    ensures
        ({
            let once = ms.update(i, JMember { name: ms[i].name, value: replacement });
            &&& once[i].name == ms[i].name
            &&& once.update(i, JMember { name: once[i].name, value: ms[i].value }) == ms
        }),
{
    let once = ms.update(i, JMember { name: ms[i].name, value: replacement });
    assert(once.update(i, JMember { name: once[i].name, value: ms[i].value }) =~= ms);
}

} // verus!
