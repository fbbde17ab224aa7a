//! JSON Patch: detaching and adding values at a pointer, and
//! applying a list of patch operations, each failure with its numeric code.
use vstd::prelude::*;
use crate::pointer::{
    array_index, chars_between, child_at, child_slot, decode_array_index, decode_pointer_token, decode_token,
    encode_token, find_last_slash, get_pointer, last_slash, lemma_array_index_nonneg, lemma_decimal_index,
    lemma_decode_encode, lemma_encode_token_no_slash, lemma_pointer_tokens_append, lemma_resolve_one, lemma_resolve_push,
    lemma_token_position_encoded, lemma_token_position_from, lemma_with_child_slots, pointer_tokens, resolve, slot_of,
    split_pointer, value_at, with_child,
};
use crate::diff::{child_path, index_path};
use crate::text::{chars_equal, chars_of, decimal, lowered, names_match, string_from_chars};
use crate::value::{
    JMember, JValue, Member, Value, compare, decides_numbers, duplicate, find_member, first_match, items_view,
    json_equal, lemma_array_view, lemma_first_match, lemma_object_view, members_view, remove_named, without_name,
};

verus! {

/// The views of a list of tokens.
pub open spec fn token_views(ts: Seq<Vec<char>>) -> Seq<Seq<char>> {
    ts.map_values(|t: Vec<char>| t@)
}

/// Removing the child named `child` from the container `parent`: the new
/// container and the removed value, or an error code (11: not an array
/// index, 13: no such element or member, 9: not a container).
pub open spec fn detach_child<N>(parent: JValue<N>, child: Seq<char>, case_sensitive: bool) -> Result<(JValue<N>, JValue<N>), u32> {
    match parent {
        JValue::Array(items) => match array_index(child) {
            None => Err(11),
            Some(i) => if i >= items.len() {
                Err(13)
            } else {
                Ok((JValue::Array(items.remove(i)), items[i]))
            },
        },
        JValue::Object(ms) => match first_match(ms, child, case_sensitive) {
            None => Err(13),
            Some(i) => Ok((JValue::Object(ms.remove(i)), ms[i].value)),
        },
        _ => Err(9),
    }
}

/// Removing `child` from the container that `tokens` lead to inside `v`; a
/// path that leads nowhere is error 13.
pub open spec fn detach_in<N>(v: JValue<N>, tokens: Seq<Seq<char>>, child: Seq<char>, case_sensitive: bool) -> Result<(JValue<N>, JValue<N>), u32>
    decreases tokens.len(),
{
    if tokens.len() == 0 {
        detach_child(v, child, case_sensitive)
    } else {
        match child_slot(v, tokens[0], case_sensitive) {
            None => Err(13),
            Some(k) => match detach_in(child_at(v, k), tokens.drop_first(), child, case_sensitive) {
                Ok(p) => Ok((with_child(v, k, p.0), p.1)),
                Err(e) => Err(e),
            },
        }
    }
}

/// Removing what `pointer` designates from `v`: the pointer is split at its
/// last `/` into the parent's path and the (escaped) child token; a pointer
/// without `/` is error 9.
pub open spec fn detach_result<N>(v: JValue<N>, pointer: Seq<char>, case_sensitive: bool) -> Result<(JValue<N>, JValue<N>), u32> {
    match last_slash(pointer) {
        None => Err(9),
        Some(p) => detach_in(
            v,
            pointer_tokens(pointer.take(p)),
            decode_token(pointer.skip(p + 1)),
            case_sensitive,
        ),
    }
}

fn detach_child_exec<N>(v: &mut Value<N>, child: &Vec<char>, case_sensitive: bool) -> (r: Result<Value<N>, u32>)
    ensures
        match detach_child(old(v)@, child@, case_sensitive) {
            Ok(p) => r matches Ok(x) && x@ == p.1 && final(v)@ == p.0,
            Err(e) => r == Err::<Value<N>, u32>(e) && final(v)@ == old(v)@,
        },
{
    match v {
        Value::Array(values) => {
            proof {
                lemma_array_view(*values);
            }
            let ghost before = items_view(values@);
            match decode_array_index(child) {
                None => Err(11),
                Some(idx) => {
                    if idx >= values.len() {
                        Err(13)
                    } else {
                        let x = values.remove(idx);
                        proof {
                            lemma_array_view(*values);
                            assert(items_view(values@) =~= before.remove(idx as int));
                        }
                        Ok(x)
                    }
                },
            }
        },
        Value::Object(members) => {
            proof {
                lemma_object_view(*members);
            }
            let ghost before = members_view(members@);
            let name = string_from_chars(child);
            let found = find_member(members, name.as_str(), case_sensitive);
            proof {
                lemma_first_match(before, child@, case_sensitive);
            }
            match found {
                None => Err(13),
                Some(idx) => {
                    let m = members.remove(idx);
                    proof {
                        lemma_object_view(*members);
                        assert(members_view(members@) =~= before.remove(idx as int));
                    }
                    Ok(m.value)
                },
            }
        },
        _ => Err(9),
    }
}

fn detach_in_exec<N>(v: &mut Value<N>, tokens: &Vec<Vec<char>>, i: usize, child: &Vec<char>, case_sensitive: bool) -> (r: Result<Value<N>, u32>)
    requires
        i <= tokens@.len(),
    ensures
        match detach_in(old(v)@, token_views(tokens@).skip(i as int), child@, case_sensitive) {
            Ok(p) => r matches Ok(x) && x@ == p.1 && final(v)@ == p.0,
            Err(e) => r == Err::<Value<N>, u32>(e) && final(v)@ == old(v)@,
        },
    decreases tokens@.len() - i,
{
    let ghost tv = token_views(tokens@).skip(i as int);
    if i == tokens.len() {
        assert(tv.len() == 0);
        return detach_child_exec(v, child, case_sensitive);
    }
    assert(tv[0] == tokens@[i as int]@);
    assert(tv.drop_first() =~= token_views(tokens@).skip(i + 1));
    let slot = slot_of(v, &tokens[i], case_sensitive);
    match slot {
        None => Err(13),
        Some(k) => match v {
            Value::Array(values) => {
                proof {
                    lemma_array_view(*values);
                }
                let ghost before = items_view(values@);
                let r = detach_in_exec(&mut values[k], tokens, i + 1, child, case_sensitive);
                proof {
                    lemma_array_view(*values);
                    assert(items_view(values@) =~= before.update(k as int, values@[k as int]@));
                    if r is Err {
                        assert(before.update(k as int, before[k as int]) =~= before);
                    }
                }
                r
            },
            Value::Object(members) => {
                proof {
                    lemma_object_view(*members);
                }
                let ghost before = members_view(members@);
                let r = detach_in_exec(&mut members[k].value, tokens, i + 1, child, case_sensitive);
                proof {
                    lemma_object_view(*members);
                    assert(members_view(members@) =~= before.update(
                        k as int,
                        JMember { name: before[k as int].name, value: members@[k as int].value@ },
                    ));
                    if r is Err {
                        assert(before.update(k as int, JMember { name: before[k as int].name, value: before[k as int].value })
                            =~= before);
                    }
                }
                r
            },
            _ => Err(13),
        },
    }
}

/// Removes and returns what `pointer` designates; on an error nothing
/// changes.
pub fn detach_path<N>(v: &mut Value<N>, pointer: &Vec<char>, case_sensitive: bool) -> (r: Result<Value<N>, u32>)
    ensures
        match detach_result(old(v)@, pointer@, case_sensitive) {
            Ok(p) => r matches Ok(x) && x@ == p.1 && final(v)@ == p.0,
            Err(e) => r == Err::<Value<N>, u32>(e) && final(v)@ == old(v)@,
        },
{
    match find_last_slash(pointer) {
        None => Err(9),
        Some(p) => {
            assert(pointer@.len() == pointer.len());
            assert(last_slash(pointer@) is Some);
            let parent = chars_between(pointer, 0, p);
            let tail = chars_between(pointer, p + 1, pointer.len());
            assert(parent@ =~= pointer@.take(p as int));
            assert(tail@ =~= pointer@.skip(p + 1));
            let tokens = split_pointer(&parent);
            let child = decode_pointer_token(&tail);
            assert(token_views(tokens@).skip(0) =~= token_views(tokens@));
            detach_in_exec(v, &tokens, 0, &child, case_sensitive)
        },
    }
}

/// Placing `value` as the child named `child` of the container `parent`:
/// `-` appends to an array, an index inserts before that element (10: past
/// the end, 11: not an index); in an object every member of that name is
/// removed and the new member appended.
pub open spec fn add_child<N>(parent: JValue<N>, child: Seq<char>, value: JValue<N>, case_sensitive: bool) -> Result<JValue<N>, u32> {
    match parent {
        JValue::Array(items) => if child == seq!['-'] {
            Ok(JValue::Array(items.push(value)))
        } else {
            match array_index(child) {
                None => Err(11),
                Some(i) => if i > items.len() {
                    Err(10)
                } else {
                    Ok(JValue::Array(items.insert(i, value)))
                },
            }
        },
        JValue::Object(ms) => Ok(
            JValue::Object(without_name(ms, child, case_sensitive).push(JMember { name: child, value })),
        ),
        _ => Err(9),
    }
}

/// Placing `value` under the container that `tokens` lead to inside `v`; a
/// path that leads nowhere is error 9.
pub open spec fn add_in<N>(v: JValue<N>, tokens: Seq<Seq<char>>, child: Seq<char>, value: JValue<N>, case_sensitive: bool) -> Result<JValue<N>, u32>
    decreases tokens.len(),
{
    if tokens.len() == 0 {
        add_child(v, child, value, case_sensitive)
    } else {
        match child_slot(v, tokens[0], case_sensitive) {
            None => Err(9),
            Some(k) => match add_in(child_at(v, k), tokens.drop_first(), child, value, case_sensitive) {
                Ok(c) => Ok(with_child(v, k, c)),
                Err(e) => Err(e),
            },
        }
    }
}

/// Placing `value` where `path` points in `v`.
pub open spec fn add_result<N>(v: JValue<N>, path: Seq<char>, value: JValue<N>, case_sensitive: bool) -> Result<JValue<N>, u32> {
    match last_slash(path) {
        None => Err(9),
        Some(p) => add_in(v, pointer_tokens(path.take(p)), decode_token(path.skip(p + 1)), value, case_sensitive),
    }
}

fn add_child_exec<N>(v: &mut Value<N>, child: &Vec<char>, value: Value<N>, case_sensitive: bool) -> (r: Result<(), u32>)
    ensures
        match add_child(old(v)@, child@, value@, case_sensitive) {
            Ok(nv) => r == Ok::<(), u32>(()) && final(v)@ == nv,
            Err(e) => r == Err::<(), u32>(e) && final(v)@ == old(v)@,
        },
{
    match v {
        Value::Array(values) => {
            proof {
                lemma_array_view(*values);
            }
            let ghost before = items_view(values@);
            let ghost vv = value@;
            if child.len() == 1 && child[0] == '-' {
                assert(child@ =~= seq!['-']);
                values.push(value);
                proof {
                    lemma_array_view(*values);
                    assert(items_view(values@) =~= before.push(vv));
                }
                Ok(())
            } else {
                assert(child@ != seq!['-']);
                match decode_array_index(child) {
                    None => Err(11),
                    Some(idx) => {
                        if idx > values.len() {
                            Err(10)
                        } else {
                            values.insert(idx, value);
                            proof {
                                lemma_array_view(*values);
                                assert(items_view(values@) =~= before.insert(idx as int, vv));
                            }
                            Ok(())
                        }
                    },
                }
            }
        },
        Value::Object(members) => {
            proof {
                lemma_object_view(*members);
            }
            let name = string_from_chars(child);
            remove_named(members, name.as_str(), case_sensitive);
            let ghost kept = members_view(members@);
            let ghost vv = value@;
            members.push(Member { name, value });
            proof {
                lemma_object_view(*members);
                assert(members_view(members@) =~= kept.push(JMember { name: child@, value: vv }));
            }
            Ok(())
        },
        _ => Err(9),
    }
}

fn add_in_exec<N>(v: &mut Value<N>, tokens: &Vec<Vec<char>>, i: usize, child: &Vec<char>, value: Value<N>, case_sensitive: bool) -> (r: Result<(), u32>)
    requires
        i <= tokens@.len(),
    ensures
        match add_in(old(v)@, token_views(tokens@).skip(i as int), child@, value@, case_sensitive) {
            Ok(nv) => r == Ok::<(), u32>(()) && final(v)@ == nv,
            Err(e) => r == Err::<(), u32>(e) && final(v)@ == old(v)@,
        },
    decreases tokens@.len() - i,
{
    let ghost tv = token_views(tokens@).skip(i as int);
    if i == tokens.len() {
        assert(tv.len() == 0);
        return add_child_exec(v, child, value, case_sensitive);
    }
    assert(tv[0] == tokens@[i as int]@);
    assert(tv.drop_first() =~= token_views(tokens@).skip(i + 1));
    let slot = slot_of(v, &tokens[i], case_sensitive);
    match slot {
        None => Err(9),
        Some(k) => match v {
            Value::Array(values) => {
                proof {
                    lemma_array_view(*values);
                }
                let ghost before = items_view(values@);
                let r = add_in_exec(&mut values[k], tokens, i + 1, child, value, case_sensitive);
                proof {
                    lemma_array_view(*values);
                    assert(items_view(values@) =~= before.update(k as int, values@[k as int]@));
                    if r is Err {
                        assert(before.update(k as int, before[k as int]) =~= before);
                    }
                }
                r
            },
            Value::Object(members) => {
                proof {
                    lemma_object_view(*members);
                }
                let ghost before = members_view(members@);
                let r = add_in_exec(&mut members[k].value, tokens, i + 1, child, value, case_sensitive);
                proof {
                    lemma_object_view(*members);
                    assert(members_view(members@) =~= before.update(
                        k as int,
                        JMember { name: before[k as int].name, value: members@[k as int].value@ },
                    ));
                    if r is Err {
                        assert(before.update(k as int, JMember { name: before[k as int].name, value: before[k as int].value })
                            =~= before);
                    }
                }
                r
            },
            _ => Err(9),
        },
    }
}

/// Places `value` where `path` points, the last step of an `add`,
/// `replace`, `move` or `copy`; on an error nothing changes.
pub fn add_path<N>(v: &mut Value<N>, path: &Vec<char>, value: Value<N>, case_sensitive: bool) -> (r: Result<(), u32>)
    ensures
        match add_result(old(v)@, path@, value@, case_sensitive) {
            Ok(nv) => r == Ok::<(), u32>(()) && final(v)@ == nv,
            Err(e) => r == Err::<(), u32>(e) && final(v)@ == old(v)@,
        },
{
    match find_last_slash(path) {
        None => Err(9),
        Some(p) => {
            assert(path@.len() == path.len());
            assert(last_slash(path@) is Some);
            let parent = chars_between(path, 0, p);
            let tail = chars_between(path, p + 1, path.len());
            assert(parent@ =~= path@.take(p as int));
            assert(tail@ =~= path@.skip(p + 1));
            let tokens = split_pointer(&parent);
            let child = decode_pointer_token(&tail);
            assert(token_views(tokens@).skip(0) =~= token_views(tokens@));
            add_in_exec(v, &tokens, 0, &child, value, case_sensitive)
        },
    }
}


/// A patch error, carrying its numeric code: 1 a failed `test` or a patch
/// that is not an array, 2 no `path`, 3 an unknown `op`, 4 no `from`, 5 a
/// `from` that designates nothing, 7 no `value`, 9 a pointer without a
/// parent container, 10 an index past the end, 11 a bad index, 13 nothing
/// to remove.
#[derive(Clone, Copy, Debug, PartialEq, Eq, Structural)]
pub struct PatchError(pub u32);

/// The `op` of a JSON Patch operation.
#[derive(Clone, Copy, Debug, PartialEq, Eq, Structural)]
pub enum PatchOperation {
    Add,
    Remove,
    Replace,
    Move,
    Copy,
    Test,
}

/// Deletes what `pointer` designates; on an error nothing changes.
pub fn delete_pointer<N>(value: &mut Value<N>, pointer: &str, case_sensitive: bool) -> (r: Result<(), PatchError>)
    ensures
        match detach_result(old(value)@, pointer@, case_sensitive) {
            Ok(p) => r is Ok && final(value)@ == p.0,
            Err(e) => r == Err::<(), PatchError>(PatchError(e)) && final(value)@ == old(value)@,
        },
{
    let pc = chars_of(pointer);
    match detach_path(value, &pc, case_sensitive) {
        Ok(_) => Ok(()),
        Err(e) => Err(PatchError(e)),
    }
}

/// The member `key` of a patch operation (the first one whose name matches).
pub open spec fn item_of<N>(patch: JValue<N>, key: Seq<char>, case_sensitive: bool) -> Option<JValue<N>> {
    match patch {
        JValue::Object(ms) => match first_match(ms, key, case_sensitive) {
            Some(i) => Some(ms[i].value),
            None => None,
        },
        _ => None,
    }
}

/// The member `key` of a patch operation, if it is a string.
pub open spec fn text_of<N>(patch: JValue<N>, key: Seq<char>, case_sensitive: bool) -> Option<Seq<char>> {
    match item_of(patch, key, case_sensitive) {
        Some(JValue::Str(s)) => Some(s),
        _ => None,
    }
}

/// The operation an `op` string names.
pub open spec fn operation_named(s: Seq<char>) -> Option<PatchOperation> {
    if s == "add"@ {
        Some(PatchOperation::Add)
    } else if s == "remove"@ {
        Some(PatchOperation::Remove)
    } else if s == "replace"@ {
        Some(PatchOperation::Replace)
    } else if s == "move"@ {
        Some(PatchOperation::Move)
    } else if s == "copy"@ {
        Some(PatchOperation::Copy)
    } else if s == "test"@ {
        Some(PatchOperation::Test)
    } else {
        None
    }
}

/// The operation a patch names.
pub open spec fn operation_of<N>(patch: JValue<N>, case_sensitive: bool) -> Option<PatchOperation> {
    match text_of(patch, "op"@, case_sensitive) {
        Some(s) => operation_named(s),
        None => None,
    }
}

/// The last step of an operation: `value` is placed at `path`; on an error
/// the document stays as it was before this step.
pub open spec fn place<N>(doc: JValue<N>, path: Seq<char>, value: JValue<N>, case_sensitive: bool) -> (JValue<N>, Result<(), u32>) {
    match add_result(doc, path, value, case_sensitive) {
        Ok(d) => (d, Ok(())),
        Err(e) => (doc, Err(e)),
    }
}

/// The value an `add`, `replace`, `move` or `copy` places, and its placing:
/// `move` detaches `from` first (4: no `from`), `copy` reads it (5: it
/// designates nothing), the others take `value` (7: none given).
pub open spec fn insert_value<N>(doc: JValue<N>, patch: JValue<N>, path: Seq<char>, op: PatchOperation, case_sensitive: bool) -> (JValue<N>, Result<(), u32>) {
    if op == PatchOperation::Move || op == PatchOperation::Copy {
        match text_of(patch, "from"@, case_sensitive) {
            None => (doc, Err(4)),
            Some(from) => if op == PatchOperation::Move {
                match detach_result(doc, from, case_sensitive) {
                    Err(e) => (doc, Err(e)),
                    Ok(p) => place(p.0, path, p.1, case_sensitive),
                }
            } else {
                match value_at(doc, from, case_sensitive) {
                    None => (doc, Err(5)),
                    Some(src) => place(doc, path, src, case_sensitive),
                }
            },
        }
    } else {
        match item_of(patch, "value"@, case_sensitive) {
            None => (doc, Err(7)),
            Some(v) => place(doc, path, v, case_sensitive),
        }
    }
}

/// One patch operation applied to `doc`:
/// the resulting document and the outcome (2: no `path` string, 3: unknown
/// `op`, 1: a failed `test`). An operation that fails after it has changed
/// the document leaves the change in place.
#[verifier::opaque]
pub open spec fn apply_one<N, F: Fn(N, N) -> bool>(doc: JValue<N>, patch: JValue<N>, case_sensitive: bool, f: F) -> (JValue<N>, Result<(), u32>) {
    match text_of(patch, "path"@, case_sensitive) {
        None => (doc, Err(2)),
        Some(path) => match operation_of(patch, case_sensitive) {
            None => (doc, Err(3)),
            Some(op) => if op == PatchOperation::Test {
                match item_of(patch, "value"@, case_sensitive) {
                    None => (doc, Err(7)),
                    Some(v) => (
                        doc,
                        if (match value_at(doc, path, case_sensitive) {
                            Some(found) => json_equal(found, v, case_sensitive, f),
                            None => false,
                        }) {
                            Ok(())
                        } else {
                            Err(1)
                        },
                    ),
                }
            } else if path.len() == 0 && op == PatchOperation::Remove {
                (JValue::Invalid, Ok(()))
            } else if path.len() == 0 && (op == PatchOperation::Replace || op == PatchOperation::Add) {
                match item_of(patch, "value"@, case_sensitive) {
                    None => (doc, Err(7)),
                    Some(v) => (v, Ok(())),
                }
            } else if op == PatchOperation::Remove || op == PatchOperation::Replace {
                match detach_result(doc, path, case_sensitive) {
                    Err(e) => (doc, Err(e)),
                    Ok(p) => if op == PatchOperation::Remove {
                        (p.0, Ok(()))
                    } else {
                        insert_value(p.0, patch, path, op, case_sensitive)
                    },
                }
            } else {
                insert_value(doc, patch, path, op, case_sensitive)
            },
        },
    }
}

/// The operations from index `k` on applied in order, stopping at the first
/// that fails.
pub open spec fn apply_from<N, F: Fn(N, N) -> bool>(doc: JValue<N>, ops: Seq<JValue<N>>, case_sensitive: bool, f: F, k: int) -> (JValue<N>, Result<(), u32>)
    decreases ops.len() - k,
{
    if k < 0 || k >= ops.len() {
        (doc, Ok(()))
    } else {
        let step = apply_one(doc, ops[k], case_sensitive, f);
        if step.1 is Err {
            step
        } else {
            apply_from(step.0, ops, case_sensitive, f, k + 1)
        }
    }
}

/// A patch document applied to `doc`: it must be an array of operations
/// (else error 1).
pub open spec fn apply_all<N, F: Fn(N, N) -> bool>(doc: JValue<N>, patches: JValue<N>, case_sensitive: bool, f: F) -> (JValue<N>, Result<(), u32>) {
    match patches {
        JValue::Array(ops) => apply_from(doc, ops, case_sensitive, f, 0),
        _ => (doc, Err(1)),
    }
}

/// A `test` operation checks and changes nothing: applied as a patch
/// document of its own, it leaves the document as it was, and it succeeds
/// exactly when its `path` designates a value (as `get_pointer` finds it)
/// that `compare` finds equal to its `value`; otherwise it fails with
/// error 1. A path that designates nothing fails the test.
pub proof fn law_test_operation<N, F: Fn(N, N) -> bool>(
    doc: JValue<N>,
    op: JValue<N>,
    case_sensitive: bool,
    f: F,
    path: Seq<char>,
    expected: JValue<N>,
)
    requires
        operation_of(op, case_sensitive) == Some(PatchOperation::Test),
        text_of(op, "path"@, case_sensitive) == Some(path),
        item_of(op, "value"@, case_sensitive) == Some(expected),
    ensures
        ({
            let r = apply_all(doc, JValue::Array(seq![op]), case_sensitive, f);
            &&& r.0 == doc
            &&& r.1 is Ok <==> (value_at(doc, path, case_sensitive) matches Some(found) && json_equal(
                found,
                expected,
                case_sensitive,
                f,
            ))
            &&& r.1 is Err ==> r.1 == Err::<(), u32>(1)
            &&& value_at(doc, path, case_sensitive) is None ==> r.1 is Err
        }),
{
    reveal(apply_one);
    let ops = seq![op];
    assert(ops[0] == op);
    let step = apply_one(doc, op, case_sensitive, f);
    if step.1 is Ok {
        assert(apply_from(step.0, ops, case_sensitive, f, 1) == (step.0, Ok::<(), u32>(())));
    }
}

/// An outcome code as the public error type.
pub open spec fn as_patch_result(r: Result<(), u32>) -> Result<(), PatchError> {
    match r {
        Ok(()) => Ok(()),
        Err(e) => Err(PatchError(e)),
    }
}

/// The member `key` of a patch operation.
fn object_item<'a, N>(patch: &'a Value<N>, key: &str, case_sensitive: bool) -> (r: Option<&'a Value<N>>)
    ensures
        match item_of(patch@, key@, case_sensitive) {
            Some(v) => r matches Some(x) && x@ == v,
            None => r is None,
        },
{
    if case_sensitive {
        patch.get(key)
    } else {
        patch.get_case_insensitive(key)
    }
}

/// The member `key` of a patch operation, if it is a string.
fn text_item<'a, N>(patch: &'a Value<N>, key: &str, case_sensitive: bool) -> (r: Option<&'a str>)
    ensures
        match text_of(patch@, key@, case_sensitive) {
            Some(s) => r matches Some(x) && x@ == s,
            None => r is None,
        },
{
    match object_item(patch, key, case_sensitive) {
        Some(v) => v.as_str(),
        None => None,
    }
}

fn names_text(s: &Vec<char>, word: &str) -> (r: bool)
    ensures
        r == (s@ == word@),
{
    let w = chars_of(word);
    chars_equal(s, &w)
}

/// The operation a patch names.
fn decode_patch_operation<N>(patch: &Value<N>, case_sensitive: bool) -> (r: Option<PatchOperation>)
    ensures
        r == operation_of(patch@, case_sensitive),
{
    let text = match text_item(patch, "op", case_sensitive) {
        Some(t) => t,
        None => {
            return None;
        },
    };
    let s = chars_of(text);
    if names_text(&s, "add") {
        Some(PatchOperation::Add)
    } else if names_text(&s, "remove") {
        Some(PatchOperation::Remove)
    } else if names_text(&s, "replace") {
        Some(PatchOperation::Replace)
    } else if names_text(&s, "move") {
        Some(PatchOperation::Move)
    } else if names_text(&s, "copy") {
        Some(PatchOperation::Copy)
    } else if names_text(&s, "test") {
        Some(PatchOperation::Test)
    } else {
        None
    }
}

/// Applies one patch operation.
#[verifier::rlimit(40)]
fn apply_patch<N: Copy, F: Fn(N, N) -> bool>(object: &mut Value<N>, patch: &Value<N>, case_sensitive: bool, numbers_equal: &F) -> (r: Result<(), u32>)
    requires
        decides_numbers(*numbers_equal),
    ensures
        final(object)@ == apply_one(old(object)@, patch@, case_sensitive, *numbers_equal).0,
        r == apply_one(old(object)@, patch@, case_sensitive, *numbers_equal).1,
{
    proof {
        reveal(apply_one);
    }
    let path_text = match text_item(patch, "path", case_sensitive) {
        Some(t) => t,
        None => {
            return Err(2);
        },
    };
    let op = match decode_patch_operation(patch, case_sensitive) {
        Some(o) => o,
        None => {
            return Err(3);
        },
    };
    let path = chars_of(path_text);
    if op == PatchOperation::Test {
        let value = match object_item(patch, "value", case_sensitive) {
            Some(v) => v,
            None => {
                return Err(7);
            },
        };
        let at = get_pointer(object, path_text, case_sensitive);
        let equal = match at {
            Some(found) => compare(found, value, case_sensitive, numbers_equal),
            None => false,
        };
        return if equal {
            Ok(())
        } else {
            Err(1)
        };
    }
    if path.len() == 0 {
        if op == PatchOperation::Remove {
            *object = Value::Invalid;
            return Ok(());
        }
        if op == PatchOperation::Replace || op == PatchOperation::Add {
            let value = match object_item(patch, "value", case_sensitive) {
                Some(v) => v,
                None => {
                    return Err(7);
                },
            };
            *object = duplicate(value, true);
            return Ok(());
        }
    }
    if op == PatchOperation::Remove || op == PatchOperation::Replace {
        match detach_path(object, &path, case_sensitive) {
            Err(e) => {
                return Err(e);
            },
            Ok(_) => {},
        }
        if op == PatchOperation::Remove {
            return Ok(());
        }
    }
    let value = if op == PatchOperation::Move || op == PatchOperation::Copy {
        let from_text = match text_item(patch, "from", case_sensitive) {
            Some(t) => t,
            None => {
                return Err(4);
            },
        };
        if op == PatchOperation::Move {
            let from = chars_of(from_text);
            match detach_path(object, &from, case_sensitive) {
                Err(e) => {
                    return Err(e);
                },
                Ok(moved) => moved,
            }
        } else {
            match get_pointer(object, from_text, case_sensitive) {
                None => {
                    return Err(5);
                },
                Some(source) => duplicate(source, true),
            }
        }
    } else {
        match object_item(patch, "value", case_sensitive) {
            None => {
                return Err(7);
            },
            Some(v) => duplicate(v, true),
        }
    };
    add_path(object, &path, value, case_sensitive)
}

/// Applies a list of JSON Patch operations in order: `patches` must be an
/// array (else error 1);
/// the first failing operation stops the run, and what the operations before
/// it did stays done. `numbers_equal` decides number equality for `test`.
pub fn apply_patches<N: Copy, F: Fn(N, N) -> bool>(object: &mut Value<N>, patches: &Value<N>, case_sensitive: bool, numbers_equal: &F) -> (r: Result<(), PatchError>)
    requires
        decides_numbers(*numbers_equal),
    ensures
        final(object)@ == apply_all(old(object)@, patches@, case_sensitive, *numbers_equal).0,
        r == as_patch_result(apply_all(old(object)@, patches@, case_sensitive, *numbers_equal).1),
{
    match patches {
        Value::Array(ops) => {
            proof {
                lemma_array_view(*ops);
            }
            let ghost ov = items_view(ops@);
            let ghost whole = apply_all(old(object)@, patches@, case_sensitive, *numbers_equal);
            let mut i: usize = 0;
            while i < ops.len()
                invariant
                    i <= ops@.len(),
                    ov == items_view(ops@),
                    decides_numbers(*numbers_equal),
                    whole == apply_all(old(object)@, patches@, case_sensitive, *numbers_equal),
                    whole == apply_from((*object)@, ov, case_sensitive, *numbers_equal, i as int),
                decreases ops@.len() - i,
            {
                assert(ov[i as int] == ops@[i as int]@);
                let ghost cur = (*object)@;
                assert(whole == apply_from(cur, ov, case_sensitive, *numbers_equal, i as int));
                let step = apply_patch(object, &ops[i], case_sensitive, numbers_equal);
                match step {
                    Err(e) => {
                        assert(whole == apply_one(cur, ov[i as int], case_sensitive, *numbers_equal));
                        return Err(PatchError(e));
                    },
                    Ok(()) => {},
                }
                i += 1;
            }
            Ok(())
        },
        _ => Err(PatchError(1)),
    }
}

/// [`apply_patches`] with member names matched exactly.
pub fn apply_patches_case_sensitive<N: Copy, F: Fn(N, N) -> bool>(object: &mut Value<N>, patches: &Value<N>, numbers_equal: &F) -> (r: Result<(), PatchError>)
    requires
        decides_numbers(*numbers_equal),
    ensures
        final(object)@ == apply_all(old(object)@, patches@, true, *numbers_equal).0,
        r == as_patch_result(apply_all(old(object)@, patches@, true, *numbers_equal).1),
{
    apply_patches(object, patches, true, numbers_equal)
}


/// Adding below a container that the tokens reach changes just that
/// container.
proof fn lemma_add_in_reaches<N>(v: JValue<N>, tokens: Seq<Seq<char>>, child: Seq<char>, value: JValue<N>, case_sensitive: bool)
    requires
        resolve(v, tokens, case_sensitive) is Some,
        add_child(resolve(v, tokens, case_sensitive)->0, child, value, case_sensitive) is Ok,
    ensures
        add_in(v, tokens, child, value, case_sensitive) matches Ok(d) && resolve(d, tokens, case_sensitive) == Some(
            add_child(resolve(v, tokens, case_sensitive)->0, child, value, case_sensitive)->Ok_0,
        ),
    decreases tokens.len(),
{
    if tokens.len() > 0 {
        let k = child_slot(v, tokens[0], case_sensitive)->0;
        lemma_token_slot_bounds(v, tokens[0], case_sensitive);
        lemma_add_in_reaches(child_at(v, k), tokens.drop_first(), child, value, case_sensitive);
        let c = add_in(child_at(v, k), tokens.drop_first(), child, value, case_sensitive)->Ok_0;
        lemma_with_child_slots(v, k, c, tokens[0], case_sensitive);
    }
}

/// Removing below a container that the tokens reach fails or succeeds as
/// removing from that container does, and takes out the same value.
proof fn lemma_detach_in_reaches<N>(v: JValue<N>, tokens: Seq<Seq<char>>, child: Seq<char>, case_sensitive: bool)
    requires
        resolve(v, tokens, case_sensitive) is Some,
    ensures
        match detach_child(resolve(v, tokens, case_sensitive)->0, child, case_sensitive) {
            Ok(p) => detach_in(v, tokens, child, case_sensitive) matches Ok(q) && q.1 == p.1,
            Err(e) => detach_in(v, tokens, child, case_sensitive) == Err::<(JValue<N>, JValue<N>), u32>(e),
        },
    decreases tokens.len(),
{
    if tokens.len() > 0 {
        let k = child_slot(v, tokens[0], case_sensitive)->0;
        lemma_detach_in_reaches(child_at(v, k), tokens.drop_first(), child, case_sensitive);
    }
}

/// A slot that a token leads to lies inside the container.
pub proof fn lemma_token_slot_bounds<N>(v: JValue<N>, t: Seq<char>, case_sensitive: bool)
    ensures
        child_slot(v, t, case_sensitive) matches Some(k) ==> {
            &&& (v matches JValue::Array(items) ==> 0 <= k < items.len())
            &&& (v matches JValue::Object(ms) ==> 0 <= k < ms.len())
            &&& (v is Array || v is Object)
        },
{
    match v {
        JValue::Object(ms) => {
            lemma_token_position_from(ms, t, case_sensitive, 0);
        },
        _ => {
            lemma_array_index_nonneg(t);
        },
    }
}

/// No member left by `without_name` matches the name.
proof fn lemma_without_name_excludes<N>(ms: Seq<JMember<N>>, name: Seq<char>, case_sensitive: bool)
    ensures
        forall|k: int|
            0 <= k < without_name(ms, name, case_sensitive).len() ==> !names_match(
                #[trigger] without_name(ms, name, case_sensitive)[k].name,
                name,
                case_sensitive,
            ),
    decreases ms.len(),
{
    if ms.len() > 0 {
        lemma_without_name_excludes(ms.drop_last(), name, case_sensitive);
    }
}

/// What an `add` places at `parent/name` below an object is what a lookup
/// of that pointer then finds.
pub proof fn law_add_then_get_member<N>(v: JValue<N>, parent: Seq<char>, name: Seq<char>, value: JValue<N>, case_sensitive: bool)
    requires
        value_at(v, parent, case_sensitive) matches Some(JValue::Object(_)),
    ensures
        add_result(v, child_path(parent, name), value, case_sensitive) matches Ok(d) && value_at(
            d,
            child_path(parent, name),
            case_sensitive,
        ) == Some(value),
{
    let t = encode_token(name);
    let path = child_path(parent, name);
    let toks = pointer_tokens(parent);
    lemma_encode_token_no_slash(name);
    lemma_pointer_tokens_append(parent, t);
    lemma_decode_encode(name);
    let ms = resolve(v, toks, case_sensitive)->0->Object_0;
    let kept = without_name(ms, name, case_sensitive);
    let ns = kept.push(JMember { name, value });
    assert(path == parent.push('/') + t);
    assert(last_slash(path) == Some(parent.len() as int));
    assert(decode_token(path.skip(parent.len() as int + 1)) == name);
    assert(add_result(v, path, value, case_sensitive) == add_in(v, toks, name, value, case_sensitive));
    assert(add_child(JValue::Object(ms), name, value, case_sensitive) == Ok::<JValue<N>, u32>(JValue::Object(ns)));
    lemma_add_in_reaches(v, toks, name, value, case_sensitive);
    let d = add_in(v, toks, name, value, case_sensitive)->Ok_0;
    assert(resolve(d, toks, case_sensitive) == Some(JValue::Object(ns)));
    assert(pointer_tokens(path) == toks.push(t));
    lemma_resolve_push(d, toks, t, case_sensitive);
    lemma_token_position_encoded(ns, name, case_sensitive);
    lemma_without_name_excludes(ms, name, case_sensitive);
    lemma_first_match(ns, name, case_sensitive);
    assert(lowered(name) == lowered(name));
    assert(names_match(ns[ns.len() - 1].name, name, case_sensitive));
    assert forall|k: int| 0 <= k < ns.len() - 1 implies !names_match(#[trigger] ns[k].name, name, case_sensitive) by {
        assert(ns[k] == kept[k]);
    }
    assert(first_match(ns, name, case_sensitive) == Some(ns.len() - 1));
    assert(child_slot(JValue::Object(ns), t, case_sensitive) == Some(ns.len() - 1));
    lemma_resolve_one(JValue::Object(ns), t, case_sensitive);
    assert(value_at(d, path, case_sensitive) == resolve(d, toks.push(t), case_sensitive));
}

/// What an `add` places at `parent/i` below an array (inserting before
/// element `i`, or appending when `i` is the length) is what a lookup of
/// that pointer then finds.
pub proof fn law_add_then_get_element<N>(v: JValue<N>, parent: Seq<char>, i: nat, value: JValue<N>, case_sensitive: bool)
    requires
        value_at(v, parent, case_sensitive) matches Some(JValue::Array(items)) && i <= items.len(),
        i <= usize::MAX,
    ensures
        add_result(v, index_path(parent, i), value, case_sensitive) matches Ok(d) && value_at(
            d,
            index_path(parent, i),
            case_sensitive,
        ) == Some(value),
{
    let t = decimal(i);
    let toks = pointer_tokens(parent);
    lemma_decimal_index(i);
    lemma_pointer_tokens_append(parent, t);
    let items = resolve(v, toks, case_sensitive)->0->Array_0;
    lemma_add_in_reaches(v, toks, t, value, case_sensitive);
    let d = add_in(v, toks, t, value, case_sensitive)->Ok_0;
    assert(resolve(d, toks, case_sensitive) == Some(JValue::Array(items.insert(i as int, value))));
    lemma_resolve_push(d, toks, t, case_sensitive);
    lemma_resolve_one(JValue::Array(items.insert(i as int, value)), t, case_sensitive);
}

/// Removing `parent/name` below an object takes out exactly the value a
/// lookup of that pointer finds, and fails with code 13 where the lookup
/// finds nothing.
pub proof fn law_remove_takes_what_get_finds<N>(v: JValue<N>, parent: Seq<char>, name: Seq<char>, case_sensitive: bool)
    requires
        value_at(v, parent, case_sensitive) matches Some(JValue::Object(_)),
    ensures
        match value_at(v, child_path(parent, name), case_sensitive) {
            Some(x) => detach_result(v, child_path(parent, name), case_sensitive) matches Ok(p) && p.1 == x,
            None => detach_result(v, child_path(parent, name), case_sensitive) == Err::<(JValue<N>, JValue<N>), u32>(13),
        },
{
    let t = encode_token(name);
    let toks = pointer_tokens(parent);
    lemma_encode_token_no_slash(name);
    lemma_pointer_tokens_append(parent, t);
    lemma_decode_encode(name);
    let ms = resolve(v, toks, case_sensitive)->0->Object_0;
    lemma_detach_in_reaches(v, toks, name, case_sensitive);
    lemma_resolve_push(v, toks, t, case_sensitive);
    lemma_token_position_encoded(ms, name, case_sensitive);
    lemma_first_match(ms, name, case_sensitive);
    lemma_resolve_one(JValue::Object(ms), t, case_sensitive);
}

/// Removing `parent/i` below an array takes out exactly the element a lookup
/// of that pointer finds, and fails with code 13 past the end.
pub proof fn law_remove_takes_what_get_finds_element<N>(v: JValue<N>, parent: Seq<char>, i: nat, case_sensitive: bool)
    requires
        value_at(v, parent, case_sensitive) matches Some(JValue::Array(_)),
        i <= usize::MAX,
    ensures
        match value_at(v, index_path(parent, i), case_sensitive) {
            Some(x) => detach_result(v, index_path(parent, i), case_sensitive) matches Ok(p) && p.1 == x,
            None => detach_result(v, index_path(parent, i), case_sensitive) == Err::<(JValue<N>, JValue<N>), u32>(13),
        },
{
    let t = decimal(i);
    let toks = pointer_tokens(parent);
    lemma_decimal_index(i);
    lemma_pointer_tokens_append(parent, t);
    lemma_detach_in_reaches(v, toks, t, case_sensitive);
    lemma_resolve_push(v, toks, t, case_sensitive);
    lemma_resolve_one(resolve(v, toks, case_sensitive)->0, t, case_sensitive);
}

} // verus!
