//! What a generated JSON Patch does when it is applied: it turns the source
//! document into one equal to the target.
use vstd::prelude::*;
use crate::diff::{
    add_entry, additions, child_path, diff, diff_items, diff_members, index_path, patch_entry, remove_entry, removals,
    replace_entry,
};
use crate::names::{
    aligned, distinct_names, has_name, lemma_distinct_push, lemma_first_at, lemma_has_name_found, lemma_lt_differs,
    lemma_match_keys, lemma_member_order_walk, lemma_named_alike, lemma_named_from_alike, lemma_named_from_below,
    lemma_named_from_has, lemma_named_from_step,
    lemma_named_push, lemma_named_remove, lemma_named_update, lemma_no_name, lemma_object_equal_by_names,
    lemma_remove_named, lemma_value_at, lemma_walk_names, named_from, value_named, walk_sorted,
};
use crate::patch::{
    PatchOperation, add_child, add_in, add_result, apply_all, apply_from, apply_one, detach_child, detach_in,
    detach_result, item_of, lemma_token_slot_bounds, operation_named, operation_of, place, text_of,
};
use crate::pointer::{
    array_index, child_at, child_slot, decode_token, encode_token, escaped_name_char, last_slash, lemma_decimal_index,
    lemma_decode_encode, lemma_decode_plain, lemma_encode_token_no_slash, lemma_pointer_tokens_append,
    lemma_resolve_one, lemma_resolve_push, lemma_token_position_encoded, lemma_with_child_slots, pointer_tokens, resolve,
    split_slash, with_child,
};
use crate::text::{
    decimal, lemma_lex_asymmetric, lemma_lex_total, lemma_lex_transitive, lex_lt, lowered, names_match, sort_key,
};
use crate::value::{
    JMember, JValue, Member, Value, first_match, holds_invalid, items_hold_invalid, items_view, json_equal, kind_of,
    law_compare_reflexive, lemma_array_view, lemma_items_equal_pointwise, lemma_items_hold_invalid,
    lemma_members_hold_invalid, lemma_object_view, member_order, members_hold_invalid, members_view, numbers_match,
    without_name,
};

verus! {

/// `v` with the value that `tokens` lead to replaced by `c`; `v` itself
/// where the tokens lead nowhere.
pub open spec fn set_in<N>(v: JValue<N>, tokens: Seq<Seq<char>>, c: JValue<N>, cs: bool) -> JValue<N>
    decreases tokens.len(),
{
    if tokens.len() == 0 {
        c
    } else {
        match child_slot(v, tokens[0], cs) {
            Some(k) => with_child(v, k, set_in(child_at(v, k), tokens.drop_first(), c, cs)),
            None => v,
        }
    }
}

/// Replacing a child twice keeps the second.
proof fn lemma_with_child_twice<N>(v: JValue<N>, k: int, a: JValue<N>, b: JValue<N>)
    requires
        v matches JValue::Array(items) ==> 0 <= k < items.len(),
        v matches JValue::Object(ms) ==> 0 <= k < ms.len(),
    ensures
        with_child(with_child(v, k, a), k, b) == with_child(v, k, b),
{
    match v {
        JValue::Array(items) => {
            assert(items.update(k, a).update(k, b) =~= items.update(k, b));
        },
        JValue::Object(ms) => {
            let m1 = ms.update(k, JMember { name: ms[k].name, value: a });
            assert(m1[k].name == ms[k].name);
            assert(m1.update(k, JMember { name: m1[k].name, value: b }) =~= ms.update(
                k,
                JMember { name: ms[k].name, value: b },
            ));
        },
        _ => {},
    }
}

/// Putting back the child that is there changes nothing.
proof fn lemma_with_child_same<N>(v: JValue<N>, k: int)
    requires
        v matches JValue::Array(items) ==> 0 <= k < items.len(),
        v matches JValue::Object(ms) ==> 0 <= k < ms.len(),
    ensures
        with_child(v, k, child_at(v, k)) == v,
{
    match v {
        JValue::Array(items) => {
            assert(items.update(k, items[k]) =~= items);
        },
        JValue::Object(ms) => {
            assert(ms.update(k, JMember { name: ms[k].name, value: ms[k].value }) =~= ms);
        },
        _ => {},
    }
}

/// Where the tokens lead, `set_in` puts exactly `c`.
pub proof fn lemma_set_in_resolve<N>(v: JValue<N>, tokens: Seq<Seq<char>>, c: JValue<N>, cs: bool)
    requires
        resolve(v, tokens, cs) is Some,
    ensures
        resolve(set_in(v, tokens, c, cs), tokens, cs) == Some(c),
    decreases tokens.len(),
{
    if tokens.len() > 0 {
        let k = child_slot(v, tokens[0], cs)->0;
        lemma_token_slot_bounds(v, tokens[0], cs);
        let inner = set_in(child_at(v, k), tokens.drop_first(), c, cs);
        lemma_set_in_resolve(child_at(v, k), tokens.drop_first(), c, cs);
        lemma_with_child_slots(v, k, inner, tokens[0], cs);
    }
}

/// Setting what is already there changes nothing.
pub proof fn lemma_set_in_same<N>(v: JValue<N>, tokens: Seq<Seq<char>>, cs: bool)
    requires
        resolve(v, tokens, cs) is Some,
    ensures
        set_in(v, tokens, resolve(v, tokens, cs)->0, cs) == v,
    decreases tokens.len(),
{
    if tokens.len() > 0 {
        let k = child_slot(v, tokens[0], cs)->0;
        lemma_token_slot_bounds(v, tokens[0], cs);
        lemma_set_in_same(child_at(v, k), tokens.drop_first(), cs);
        lemma_with_child_same(v, k);
    }
}

/// Setting twice at the same place keeps the second value.
pub proof fn lemma_set_in_twice<N>(v: JValue<N>, tokens: Seq<Seq<char>>, a: JValue<N>, b: JValue<N>, cs: bool)
    requires
        resolve(v, tokens, cs) is Some,
    ensures
        set_in(set_in(v, tokens, a, cs), tokens, b, cs) == set_in(v, tokens, b, cs),
    decreases tokens.len(),
{
    if tokens.len() > 0 {
        let k = child_slot(v, tokens[0], cs)->0;
        lemma_token_slot_bounds(v, tokens[0], cs);
        let inner = set_in(child_at(v, k), tokens.drop_first(), a, cs);
        lemma_with_child_slots(v, k, inner, tokens[0], cs);
        lemma_set_in_twice(child_at(v, k), tokens.drop_first(), a, b, cs);
        lemma_with_child_twice(v, k, inner, set_in(child_at(v, k), tokens.drop_first(), b, cs));
    }
}

/// Setting one token further down is setting the child inside its parent.
pub proof fn lemma_set_in_push<N>(v: JValue<N>, tokens: Seq<Seq<char>>, t: Seq<char>, c: JValue<N>, cs: bool)
    requires
        resolve(v, tokens, cs) is Some,
        child_slot(resolve(v, tokens, cs)->0, t, cs) is Some,
    ensures
        set_in(v, tokens.push(t), c, cs) == ({
            let par = resolve(v, tokens, cs)->0;
            set_in(v, tokens, with_child(par, child_slot(par, t, cs)->0, c), cs)
        }),
    decreases tokens.len(),
{
    let par = resolve(v, tokens, cs)->0;
    let w = with_child(par, child_slot(par, t, cs)->0, c);
    if tokens.len() == 0 {
        assert(tokens.push(t) =~= seq![t]);
        assert(seq![t][0] == t);
        assert(seq![t].drop_first() =~= Seq::<Seq<char>>::empty());
        assert(par == v);
        let k0 = child_slot(v, t, cs)->0;
        assert(set_in(child_at(v, k0), Seq::<Seq<char>>::empty(), c, cs) == c);
        assert(set_in(v, seq![t], c, cs) == with_child(v, k0, c));
    } else {
        let k = child_slot(v, tokens[0], cs)->0;
        let rest = tokens.drop_first();
        assert(tokens.push(t)[0] == tokens[0]);
        assert(tokens.push(t).drop_first() =~= rest.push(t));
        assert(resolve(v, tokens, cs) == resolve(child_at(v, k), rest, cs));
        lemma_set_in_push(child_at(v, k), rest, t, c, cs);
        assert(set_in(v, tokens.push(t), c, cs) == with_child(v, k, set_in(child_at(v, k), rest.push(t), c, cs)));
        assert(set_in(v, tokens, w, cs) == with_child(v, k, set_in(child_at(v, k), rest, w, cs)));
    }
}

/// Adding below a container the tokens reach sets the changed container
/// there.
pub proof fn lemma_add_in_set<N>(
    v: JValue<N>,
    tokens: Seq<Seq<char>>,
    child: Seq<char>,
    value: JValue<N>,
    cs: bool,
)
    requires
        resolve(v, tokens, cs) is Some,
        add_child(resolve(v, tokens, cs)->0, child, value, cs) is Ok,
    ensures
        add_in(v, tokens, child, value, cs) == Ok::<JValue<N>, u32>(
            set_in(v, tokens, add_child(resolve(v, tokens, cs)->0, child, value, cs)->Ok_0, cs),
        ),
    decreases tokens.len(),
{
    if tokens.len() > 0 {
        let k = child_slot(v, tokens[0], cs)->0;
        lemma_add_in_set(child_at(v, k), tokens.drop_first(), child, value, cs);
    }
}

/// Removing below a container the tokens reach sets the shrunk container
/// there and takes out the same value.
pub proof fn lemma_detach_in_set<N>(v: JValue<N>, tokens: Seq<Seq<char>>, child: Seq<char>, cs: bool)
    requires
        resolve(v, tokens, cs) is Some,
        detach_child(resolve(v, tokens, cs)->0, child, cs) is Ok,
    ensures
        ({
            let p = detach_child(resolve(v, tokens, cs)->0, child, cs)->Ok_0;
            detach_in(v, tokens, child, cs) == Ok::<(JValue<N>, JValue<N>), u32>((set_in(v, tokens, p.0, cs), p.1))
        }),
    decreases tokens.len(),
{
    if tokens.len() > 0 {
        let k = child_slot(v, tokens[0], cs)->0;
        lemma_detach_in_set(child_at(v, k), tokens.drop_first(), child, cs);
    }
}

/// Operations applied in order from the first.
pub open spec fn run<N, F: Fn(N, N) -> bool>(doc: JValue<N>, ops: Seq<JValue<N>>, cs: bool, f: F) -> (JValue<N>, Result<(), u32>) {
    apply_from(doc, ops, cs, f, 0)
}

/// Applying from position `k` is applying what follows `k`.
proof fn lemma_apply_from_skip<N, F: Fn(N, N) -> bool>(doc: JValue<N>, ops: Seq<JValue<N>>, cs: bool, f: F, k: int)
    requires
        0 <= k <= ops.len(),
    ensures
        apply_from(doc, ops, cs, f, k) == run(doc, ops.skip(k), cs, f),
    decreases ops.len() - k,
{
    if k < ops.len() {
        let s = apply_one(doc, ops[k], cs, f);
        let rest = ops.skip(k);
        assert(rest[0] == ops[k]);
        if s.1 is Ok {
            lemma_apply_from_skip(s.0, ops, cs, f, k + 1);
            lemma_apply_from_skip(s.0, rest, cs, f, 1);
            assert(rest.skip(1) =~= ops.skip(k + 1));
        }
    } else {
        assert(ops.skip(k).len() == 0);
    }
}

/// The first operation, then the rest.
pub proof fn lemma_run_prepend<N, F: Fn(N, N) -> bool>(doc: JValue<N>, op: JValue<N>, rest: Seq<JValue<N>>, cs: bool, f: F)
    ensures
        run(doc, seq![op] + rest, cs, f) == ({
            let s = apply_one(doc, op, cs, f);
            if s.1 is Err {
                s
            } else {
                run(s.0, rest, cs, f)
            }
        }),
{
    let ops = seq![op] + rest;
    assert(ops[0] == op);
    let s = apply_one(doc, op, cs, f);
    if s.1 is Ok {
        lemma_apply_from_skip(s.0, ops, cs, f, 1);
        assert(ops.skip(1) =~= rest);
    }
}

/// Two runs of operations one after the other.
pub proof fn lemma_run_concat<N, F: Fn(N, N) -> bool>(doc: JValue<N>, a: Seq<JValue<N>>, b: Seq<JValue<N>>, cs: bool, f: F)
    ensures
        run(doc, a + b, cs, f) == ({
            let s = run(doc, a, cs, f);
            if s.1 is Err {
                s
            } else {
                run(s.0, b, cs, f)
            }
        }),
    decreases a.len(),
{
    if a.len() == 0 {
        assert(a + b =~= b);
    } else {
        let rest = a.drop_first();
        assert(a =~= seq![a[0]] + rest);
        assert(a + b =~= seq![a[0]] + (rest + b));
        lemma_run_prepend(doc, a[0], rest + b, cs, f);
        lemma_run_prepend(doc, a[0], rest, cs, f);
        let s = apply_one(doc, a[0], cs, f);
        if s.1 is Ok {
            lemma_run_concat(s.0, rest, b, cs, f);
        }
    }
}

/// The fields of a generated operation, read back.
proof fn lemma_entry_fields<N>(op: Seq<char>, path: Seq<char>, v: Option<JValue<N>>, cs: bool)
    ensures
        text_of(patch_entry(op, path, v), "path"@, cs) == Some(path),
        text_of(patch_entry(op, path, v), "op"@, cs) == Some(op),
        item_of(patch_entry(op, path, v), "value"@, cs) == v,
{
    reveal_strlit("op");
    reveal_strlit("path");
    reveal_strlit("value");
    let head = seq![
        JMember { name: "op"@, value: JValue::<N>::Str(op) },
        JMember { name: "path"@, value: JValue::<N>::Str(path) },
    ];
    let ms = match v {
        Some(x) => head.push(JMember { name: "value"@, value: x }),
        None => head,
    };
    assert(patch_entry(op, path, v) == JValue::Object(ms));
    assert(ms[0].name == "op"@ && ms[1].name == "path"@);
    assert(lowered("op"@).len() == 2 && lowered("path"@).len() == 4 && lowered("value"@).len() == 5);
    assert(!names_match("op"@, "path"@, cs));
    assert(!names_match("op"@, "value"@, cs) && !names_match("path"@, "value"@, cs));
    assert forall|j: int| 0 <= j < 0 implies !names_match((#[trigger] ms[j]).name, "op"@, cs) by {}
    lemma_first_at(ms, "op"@, cs, 0);
    assert forall|j: int| 0 <= j < 1 implies !names_match((#[trigger] ms[j]).name, "path"@, cs) by {}
    lemma_first_at(ms, "path"@, cs, 1);
    match v {
        Some(x) => {
            assert(ms[2].name == "value"@);
            assert forall|j: int| 0 <= j < 2 implies !names_match((#[trigger] ms[j]).name, "value"@, cs) by {}
            lemma_first_at(ms, "value"@, cs, 2);
        },
        None => {
            if has_name(ms, "value"@, cs) {
                let k = choose|k: int| 0 <= k < ms.len() && names_match((#[trigger] ms[k]).name, "value"@, cs);
                assert(k == 0 || k == 1);
            }
            lemma_no_name(ms, "value"@, cs);
        },
    }
}

/// The three operation names a generated patch uses.
proof fn lemma_operation_names()
    ensures
        operation_named("add"@) == Some(PatchOperation::Add),
        operation_named("remove"@) == Some(PatchOperation::Remove),
        operation_named("replace"@) == Some(PatchOperation::Replace),
{
    reveal_strlit("add");
    reveal_strlit("remove");
    reveal_strlit("replace");
    assert("add"@.len() == 3 && "remove"@.len() == 6 && "replace"@.len() == 7);
}

/// A `remove` below the root detaches what its path designates.
proof fn lemma_apply_remove<N, F: Fn(N, N) -> bool>(doc: JValue<N>, path: Seq<char>, cs: bool, f: F)
    requires
        path.len() > 0,
    ensures
        apply_one(doc, remove_entry(path), cs, f) == match detach_result(doc, path, cs) {
            Err(e) => (doc, Err(e)),
            Ok(p) => (p.0, Ok::<(), u32>(())),
        },
{
    reveal(apply_one);
    lemma_entry_fields("remove"@, path, None::<JValue<N>>, cs);
    lemma_operation_names();
}

/// A `replace` below the root detaches what its path designates and places
/// the new value there.
#[verifier::rlimit(60)]
proof fn lemma_apply_replace<N, F: Fn(N, N) -> bool>(doc: JValue<N>, path: Seq<char>, v: JValue<N>, cs: bool, f: F)
    requires
        path.len() > 0,
    ensures
        apply_one(doc, replace_entry(path, v), cs, f) == match detach_result(doc, path, cs) {
            Err(e) => (doc, Err(e)),
            Ok(p) => place(p.0, path, v, cs),
        },
{
    lemma_entry_fields("replace"@, path, Some(v), cs);
    lemma_operation_names();
    assert(operation_of(replace_entry(path, v), cs) == Some(PatchOperation::Replace));
    reveal(apply_one);
}

/// A `replace` of the root gives the new value.
pub proof fn lemma_apply_replace_root<N, F: Fn(N, N) -> bool>(doc: JValue<N>, v: JValue<N>, cs: bool, f: F)
    ensures
        apply_one(doc, replace_entry(Seq::empty(), v), cs, f) == (v, Ok::<(), u32>(())),
{
    reveal(apply_one);
    lemma_entry_fields("replace"@, Seq::<char>::empty(), Some(v), cs);
    lemma_operation_names();
}

/// An `add` below the root places its value at its path.
#[verifier::rlimit(60)]
proof fn lemma_apply_add<N, F: Fn(N, N) -> bool>(doc: JValue<N>, path: Seq<char>, v: JValue<N>, cs: bool, f: F)
    requires
        path.len() > 0,
    ensures
        apply_one(doc, add_entry(path, v), cs, f) == place(doc, path, v, cs),
{
    lemma_entry_fields("add"@, path, Some(v), cs);
    lemma_operation_names();
    assert(operation_of(add_entry(path, v), cs) == Some(PatchOperation::Add));
    reveal(apply_one);
}

/// Escaping leaves a token without `/` and `~` as it is.
proof fn lemma_encode_plain(t: Seq<char>)
    requires
        forall|k: int| 0 <= k < t.len() ==> #[trigger] t[k] != '/' && t[k] != '~',
    ensures
        encode_token(t) == t,
    decreases t.len(),
{
    if t.len() > 0 {
        assert forall|k: int| 0 <= k < t.drop_first().len() implies #[trigger] t.drop_first()[k] != '/'
            && t.drop_first()[k] != '~' by {
            assert(t.drop_first()[k] == t[k + 1]);
        }
        lemma_encode_plain(t.drop_first());
        assert(escaped_name_char(t[0]) == seq![t[0]]);
        assert(seq![t[0]] + t.drop_first() =~= t);
    }
}

/// The parts of the path of a member below `path`.
proof fn lemma_child_path_parts(path: Seq<char>, name: Seq<char>)
    ensures
        ({
            let cp = child_path(path, name);
            &&& cp.len() > 0
            &&& last_slash(cp) == Some(path.len() as int)
            &&& cp.take(path.len() as int) == path
            &&& decode_token(cp.skip(path.len() as int + 1)) == name
            &&& pointer_tokens(cp) == pointer_tokens(path).push(encode_token(name))
        }),
{
    lemma_encode_token_no_slash(name);
    lemma_pointer_tokens_append(path, encode_token(name));
    lemma_decode_encode(name);
}

/// The parts of the path of an element below `path`.
proof fn lemma_index_path_parts(path: Seq<char>, i: nat)
    requires
        i <= usize::MAX,
    ensures
        ({
            let ip = index_path(path, i);
            &&& ip == child_path(path, decimal(i))
            &&& ip.len() > 0
            &&& last_slash(ip) == Some(path.len() as int)
            &&& ip.take(path.len() as int) == path
            &&& decode_token(ip.skip(path.len() as int + 1)) == decimal(i)
            &&& pointer_tokens(ip) == pointer_tokens(path).push(decimal(i))
            &&& array_index(decimal(i)) == Some(i as int)
            &&& decimal(i) != seq!['-']
        }),
{
    lemma_decimal_index(i);
    lemma_encode_plain(decimal(i));
    lemma_pointer_tokens_append(path, decimal(i));
}

/// Every member named `a` removed from a list that has none: the list.
proof fn lemma_without_absent<N>(ms: Seq<JMember<N>>, a: Seq<char>, cs: bool)
    requires
        !has_name(ms, a, cs),
    ensures
        without_name(ms, a, cs) == ms,
    decreases ms.len(),
{
    if ms.len() > 0 {
        let init = ms.drop_last();
        if has_name(init, a, cs) {
            let k = choose|k: int| 0 <= k < init.len() && names_match((#[trigger] init[k]).name, a, cs);
            assert(ms[k] == init[k]);
        }
        lemma_without_absent(init, a, cs);
        assert(ms[ms.len() - 1] == ms.last());
        if names_match(ms.last().name, a, cs) {
            assert(has_name(ms, a, cs));
        }
        assert(init.push(ms.last()) =~= ms);
    }
}

/// Detaching the member named `nm` from the object the tokens of `path`
/// lead to.
proof fn lemma_object_detach<N>(doc: JValue<N>, path: Seq<char>, cur: Seq<JMember<N>>, nm: Seq<char>, cs: bool)
    requires
        resolve(doc, pointer_tokens(path), cs) == Some(JValue::Object(cur)),
        has_name(cur, nm, cs),
    ensures
        ({
            let k = first_match(cur, nm, cs)->0;
            detach_result(doc, child_path(path, nm), cs) == Ok::<(JValue<N>, JValue<N>), u32>(
                (set_in(doc, pointer_tokens(path), JValue::Object(cur.remove(k)), cs), cur[k].value),
            )
        }),
{
    let toks = pointer_tokens(path);
    lemma_child_path_parts(path, nm);
    lemma_has_name_found(cur, nm, cs);
    assert(detach_result(doc, child_path(path, nm), cs) == detach_in(doc, toks, nm, cs));
    lemma_detach_in_set(doc, toks, nm, cs);
}

/// Placing a member under a name the object the tokens of `path` lead to
/// does not have.
proof fn lemma_object_insert<N>(doc: JValue<N>, path: Seq<char>, cur: Seq<JMember<N>>, nm: Seq<char>, v: JValue<N>, cs: bool)
    requires
        resolve(doc, pointer_tokens(path), cs) == Some(JValue::Object(cur)),
        !has_name(cur, nm, cs),
    ensures
        add_result(doc, child_path(path, nm), v, cs) == Ok::<JValue<N>, u32>(
            set_in(doc, pointer_tokens(path), JValue::Object(cur.push(JMember { name: nm, value: v })), cs),
        ),
{
    let toks = pointer_tokens(path);
    lemma_child_path_parts(path, nm);
    lemma_without_absent(cur, nm, cs);
    assert(add_result(doc, child_path(path, nm), v, cs) == add_in(doc, toks, nm, v, cs));
    lemma_add_in_set(doc, toks, nm, v, cs);
}

/// Removing the member named `nm` from the object the tokens of `path`
/// lead to.
pub proof fn lemma_object_remove<N, F: Fn(N, N) -> bool>(
    doc: JValue<N>,
    path: Seq<char>,
    cur: Seq<JMember<N>>,
    nm: Seq<char>,
    cs: bool,
    f: F,
)
    requires
        resolve(doc, pointer_tokens(path), cs) == Some(JValue::Object(cur)),
        has_name(cur, nm, cs),
    ensures
        apply_one(doc, remove_entry(child_path(path, nm)), cs, f) == (
            set_in(doc, pointer_tokens(path), JValue::Object(cur.remove(first_match(cur, nm, cs)->0)), cs),
            Ok::<(), u32>(()),
        ),
{
    lemma_child_path_parts(path, nm);
    lemma_apply_remove(doc, child_path(path, nm), cs, f);
    lemma_object_detach(doc, path, cur, nm, cs);
}

/// Adding a member under a new name to the object the tokens of `path` lead
/// to.
pub proof fn lemma_object_add<N, F: Fn(N, N) -> bool>(
    doc: JValue<N>,
    path: Seq<char>,
    cur: Seq<JMember<N>>,
    nm: Seq<char>,
    v: JValue<N>,
    cs: bool,
    f: F,
)
    requires
        resolve(doc, pointer_tokens(path), cs) == Some(JValue::Object(cur)),
        !has_name(cur, nm, cs),
    ensures
        apply_one(doc, add_entry(child_path(path, nm), v), cs, f) == (
            set_in(doc, pointer_tokens(path), JValue::Object(cur.push(JMember { name: nm, value: v })), cs),
            Ok::<(), u32>(()),
        ),
{
    lemma_child_path_parts(path, nm);
    lemma_apply_add(doc, child_path(path, nm), v, cs, f);
    lemma_object_insert(doc, path, cur, nm, v, cs);
}

/// Replacing the member named `nm` of the object the tokens of `path` lead
/// to: it leaves its place and comes back last with the new value.
pub proof fn lemma_object_replace<N, F: Fn(N, N) -> bool>(
    doc: JValue<N>,
    path: Seq<char>,
    cur: Seq<JMember<N>>,
    nm: Seq<char>,
    v: JValue<N>,
    cs: bool,
    f: F,
)
    requires
        resolve(doc, pointer_tokens(path), cs) == Some(JValue::Object(cur)),
        has_name(cur, nm, cs),
        distinct_names(cur, cs),
    ensures
        apply_one(doc, replace_entry(child_path(path, nm), v), cs, f) == (
            set_in(
                doc,
                pointer_tokens(path),
                JValue::Object(cur.remove(first_match(cur, nm, cs)->0).push(JMember { name: nm, value: v })),
                cs,
            ),
            Ok::<(), u32>(()),
        ),
{
    let toks = pointer_tokens(path);
    lemma_child_path_parts(path, nm);
    lemma_apply_replace(doc, child_path(path, nm), v, cs, f);
    lemma_has_name_found(cur, nm, cs);
    let k = first_match(cur, nm, cs)->0;
    let rest = cur.remove(k);
    lemma_object_detach(doc, path, cur, nm, cs);
    let doc1 = set_in(doc, toks, JValue::Object(rest), cs);
    lemma_set_in_resolve(doc, toks, JValue::Object(rest), cs);
    lemma_remove_named(cur, k, cs);
    lemma_named_alike(rest, cur[k].name, nm, cs);
    lemma_object_insert(doc1, path, rest, nm, v, cs);
    lemma_set_in_twice(doc, toks, JValue::Object(rest), JValue::Object(rest.push(JMember { name: nm, value: v })), cs);
}

/// Detaching element `i` of the array the tokens of `path` lead to.
proof fn lemma_array_detach<N>(doc: JValue<N>, path: Seq<char>, items: Seq<JValue<N>>, i: nat, cs: bool)
    requires
        resolve(doc, pointer_tokens(path), cs) == Some(JValue::Array(items)),
        i < items.len(),
        i <= usize::MAX,
    ensures
        detach_result(doc, index_path(path, i), cs) == Ok::<(JValue<N>, JValue<N>), u32>(
            (set_in(doc, pointer_tokens(path), JValue::Array(items.remove(i as int)), cs), items[i as int]),
        ),
{
    let toks = pointer_tokens(path);
    lemma_index_path_parts(path, i);
    assert(detach_result(doc, index_path(path, i), cs) == detach_in(doc, toks, decimal(i), cs));
    lemma_detach_in_set(doc, toks, decimal(i), cs);
}

/// Inserting before element `i` (or at the end) of the array the tokens of
/// `path` lead to.
proof fn lemma_array_insert<N>(doc: JValue<N>, path: Seq<char>, items: Seq<JValue<N>>, i: nat, v: JValue<N>, cs: bool)
    requires
        resolve(doc, pointer_tokens(path), cs) == Some(JValue::Array(items)),
        i <= items.len(),
        i <= usize::MAX,
    ensures
        add_result(doc, index_path(path, i), v, cs) == Ok::<JValue<N>, u32>(
            set_in(doc, pointer_tokens(path), JValue::Array(items.insert(i as int, v)), cs),
        ),
{
    let toks = pointer_tokens(path);
    lemma_index_path_parts(path, i);
    assert(add_result(doc, index_path(path, i), v, cs) == add_in(doc, toks, decimal(i), v, cs));
    lemma_add_in_set(doc, toks, decimal(i), v, cs);
}

/// Replacing element `i` of the array the tokens of `path` lead to.
pub proof fn lemma_array_replace<N, F: Fn(N, N) -> bool>(
    doc: JValue<N>,
    path: Seq<char>,
    items: Seq<JValue<N>>,
    i: nat,
    v: JValue<N>,
    cs: bool,
    f: F,
)
    requires
        resolve(doc, pointer_tokens(path), cs) == Some(JValue::Array(items)),
        i < items.len(),
        i <= usize::MAX,
    ensures
        apply_one(doc, replace_entry(index_path(path, i), v), cs, f) == (
            set_in(doc, pointer_tokens(path), JValue::Array(items.update(i as int, v)), cs),
            Ok::<(), u32>(()),
        ),
{
    let toks = pointer_tokens(path);
    let ip = index_path(path, i);
    lemma_index_path_parts(path, i);
    lemma_apply_replace(doc, ip, v, cs, f);
    let rest = items.remove(i as int);
    lemma_array_detach(doc, path, items, i, cs);
    let doc1 = set_in(doc, toks, JValue::Array(rest), cs);
    lemma_set_in_resolve(doc, toks, JValue::Array(rest), cs);
    lemma_array_insert(doc1, path, rest, i, v, cs);
    assert(rest.insert(i as int, v) =~= items.update(i as int, v));
    lemma_set_in_twice(doc, toks, JValue::Array(rest), JValue::Array(items.update(i as int, v)), cs);
}

/// Removing element `i` of the array the tokens of `path` lead to.
pub proof fn lemma_array_remove<N, F: Fn(N, N) -> bool>(
    doc: JValue<N>,
    path: Seq<char>,
    items: Seq<JValue<N>>,
    i: nat,
    cs: bool,
    f: F,
)
    requires
        resolve(doc, pointer_tokens(path), cs) == Some(JValue::Array(items)),
        i < items.len(),
        i <= usize::MAX,
    ensures
        apply_one(doc, remove_entry(child_path(path, decimal(i))), cs, f) == (
            set_in(doc, pointer_tokens(path), JValue::Array(items.remove(i as int)), cs),
            Ok::<(), u32>(()),
        ),
{
    let toks = pointer_tokens(path);
    let ip = index_path(path, i);
    lemma_index_path_parts(path, i);
    lemma_apply_remove(doc, ip, cs, f);
    assert(detach_result(doc, ip, cs) == detach_in(doc, toks, decimal(i), cs));
    lemma_detach_in_set(doc, toks, decimal(i), cs);
}

/// Appending to the array the tokens of `path` lead to.
pub proof fn lemma_array_append<N, F: Fn(N, N) -> bool>(
    doc: JValue<N>,
    path: Seq<char>,
    items: Seq<JValue<N>>,
    v: JValue<N>,
    cs: bool,
    f: F,
)
    requires
        resolve(doc, pointer_tokens(path), cs) == Some(JValue::Array(items)),
    ensures
        apply_one(doc, add_entry(child_path(path, seq!['-']), v), cs, f) == (
            set_in(doc, pointer_tokens(path), JValue::Array(items.push(v)), cs),
            Ok::<(), u32>(()),
        ),
{
    let toks = pointer_tokens(path);
    let dash = seq!['-'];
    let cp = child_path(path, dash);
    assert forall|k: int| 0 <= k < dash.len() implies #[trigger] dash[k] != '/' && dash[k] != '~' by {}
    lemma_encode_plain(dash);
    lemma_pointer_tokens_append(path, dash);
    lemma_decode_plain(dash);
    lemma_apply_add(doc, cp, v, cs, f);
    assert(add_result(doc, cp, v, cs) == add_in(doc, toks, dash, v, cs));
    lemma_add_in_set(doc, toks, dash, v, cs);
}

/// Wherever `from` and `to` hold values at the same place (reached through
/// arrays of both by index and objects of both by name), objects of both
/// have no two members with matching names and raw values of both have the
/// same text.
pub open spec fn patch_ready<N>(x: JValue<N>, y: JValue<N>, cs: bool) -> bool
    decreases x, 0nat,
{
    match x {
        JValue::Raw(a) => match y {
            JValue::Raw(b) => a == b,
            _ => true,
        },
        JValue::Array(xs) => match y {
            JValue::Array(ys) => items_ready(xs, ys, xs.len(), cs),
            _ => true,
        },
        JValue::Object(xs) => match y {
            JValue::Object(ys) => distinct_names(xs, cs) && distinct_names(ys, cs) && members_ready(xs, ys, xs.len(), cs),
            _ => true,
        },
        _ => true,
    }
}

/// `patch_ready` holds of the first `n` elements of `xs` and those of `ys`
/// at the same index.
pub open spec fn items_ready<N>(xs: Seq<JValue<N>>, ys: Seq<JValue<N>>, n: nat, cs: bool) -> bool
    decreases xs, n,
{
    if n == 0 {
        true
    } else if n > xs.len() {
        false
    } else {
        items_ready(xs, ys, (n - 1) as nat, cs) && (n - 1 < ys.len() ==> patch_ready(xs[n - 1], ys[n - 1], cs))
    }
}

/// `patch_ready` holds of the values of the first `n` members of `xs` and the
/// values `ys` has under the same names.
pub open spec fn members_ready<N>(xs: Seq<JMember<N>>, ys: Seq<JMember<N>>, n: nat, cs: bool) -> bool
    decreases xs, n,
{
    if n == 0 {
        true
    } else if n > xs.len() {
        false
    } else {
        &&& members_ready(xs, ys, (n - 1) as nat, cs)
        &&& has_name(ys, xs[n - 1].name, cs) ==> patch_ready(xs[n - 1].value, value_named(ys, xs[n - 1].name, cs), cs)
    }
}

proof fn lemma_items_ready<N>(xs: Seq<JValue<N>>, ys: Seq<JValue<N>>, n: nat, k: int, cs: bool)
    requires
        items_ready(xs, ys, n, cs),
        0 <= k < n,
        k < ys.len(),
    ensures
        patch_ready(xs[k], ys[k], cs),
    decreases n,
{
    if k < n - 1 {
        lemma_items_ready(xs, ys, (n - 1) as nat, k, cs);
    }
}

proof fn lemma_members_ready<N>(xs: Seq<JMember<N>>, ys: Seq<JMember<N>>, n: nat, k: int, cs: bool)
    requires
        members_ready(xs, ys, n, cs),
        0 <= k < n,
        has_name(ys, xs[k].name, cs),
    ensures
        patch_ready(xs[k].value, value_named(ys, xs[k].name, cs), cs),
    decreases n,
{
    if k < n - 1 {
        lemma_members_ready(xs, ys, (n - 1) as nat, k, cs);
    }
}

/// The generated patch replaces the value as a whole: the kinds differ, or
/// two booleans, two numbers or two strings differ.
pub open spec fn replaces<N, F: Fn(N, N) -> bool>(x: JValue<N>, y: JValue<N>, f: F) -> bool {
    ||| kind_of(x) != kind_of(y)
    ||| (x matches JValue::Bool(a) && y matches JValue::Bool(b) && a != b)
    ||| (x matches JValue::Number(a) && y matches JValue::Number(b) && !numbers_match(f, a, b))
    ||| (x matches JValue::Str(a) && y matches JValue::Str(b) && a != b)
}

/// Where the value is replaced as a whole, the patch is that one `replace`.
proof fn lemma_diff_replaces<N, F: Fn(N, N) -> bool>(path: Seq<char>, x: JValue<N>, y: JValue<N>, cs: bool, f: F)
    requires
        replaces(x, y, f),
    ensures
        diff(path, x, y, cs, f) == seq![replace_entry(path, y)],
{
}

/// A single operation run alone.
proof fn lemma_run_one<N, F: Fn(N, N) -> bool>(doc: JValue<N>, op: JValue<N>, cs: bool, f: F)
    ensures
        run(doc, seq![op], cs, f) == apply_one(doc, op, cs, f),
{
    lemma_run_prepend(doc, op, Seq::empty(), cs, f);
    assert(seq![op] + Seq::<JValue<N>>::empty() =~= seq![op]);
    let s = apply_one(doc, op, cs, f);
    if let Ok(u) = s.1 {
        let unit: () = u;
        assert(unit == ());
        assert(run(s.0, Seq::<JValue<N>>::empty(), cs, f) == (s.0, Ok::<(), u32>(())));
    }
}

/// The repeated removals at index `at` cut an array back to its first `at`
/// elements.
proof fn lemma_removals_apply<N, F: Fn(N, N) -> bool>(
    doc: JValue<N>,
    path: Seq<char>,
    items: Seq<JValue<N>>,
    at: nat,
    count: nat,
    cs: bool,
    f: F,
)
    requires
        resolve(doc, pointer_tokens(path), cs) == Some(JValue::Array(items)),
        items.len() == at + count,
        at <= usize::MAX,
    ensures
        run(doc, removals(path, at, count), cs, f) == (
            set_in(doc, pointer_tokens(path), JValue::Array(items.take(at as int)), cs),
            Ok::<(), u32>(()),
        ),
    decreases count,
{
    let toks = pointer_tokens(path);
    if count == 0 {
        assert(removals::<N>(path, at, count) =~= Seq::<JValue<N>>::empty());
        assert(items.take(at as int) =~= items);
        lemma_set_in_same(doc, toks, cs);
    } else {
        let op = remove_entry::<N>(child_path(path, decimal(at)));
        assert(removals::<N>(path, at, count) =~= seq![op] + removals::<N>(path, at, (count - 1) as nat));
        lemma_run_prepend(doc, op, removals::<N>(path, at, (count - 1) as nat), cs, f);
        lemma_array_remove(doc, path, items, at, cs, f);
        let rest = items.remove(at as int);
        let doc1 = set_in(doc, toks, JValue::Array(rest), cs);
        lemma_set_in_resolve(doc, toks, JValue::Array(rest), cs);
        lemma_removals_apply(doc1, path, rest, at, (count - 1) as nat, cs, f);
        assert(rest.take(at as int) =~= items.take(at as int));
        lemma_set_in_twice(doc, toks, JValue::Array(rest), JValue::Array(items.take(at as int)), cs);
    }
}

/// The appends add `ys[from..from + count]` at the end of an array.
proof fn lemma_additions_apply<N, F: Fn(N, N) -> bool>(
    doc: JValue<N>,
    path: Seq<char>,
    items: Seq<JValue<N>>,
    ys: Seq<JValue<N>>,
    from: nat,
    count: nat,
    cs: bool,
    f: F,
)
    requires
        resolve(doc, pointer_tokens(path), cs) == Some(JValue::Array(items)),
        from + count <= ys.len(),
    ensures
        run(doc, additions(path, ys, from, count), cs, f) == (
            set_in(doc, pointer_tokens(path), JValue::Array(items + ys.subrange(from as int, (from + count) as int)), cs),
            Ok::<(), u32>(()),
        ),
    decreases count,
{
    let toks = pointer_tokens(path);
    if count == 0 {
        assert(additions(path, ys, from, count) =~= Seq::<JValue<N>>::empty());
        assert(items + ys.subrange(from as int, (from + count) as int) =~= items);
        lemma_set_in_same(doc, toks, cs);
    } else {
        let op = add_entry(child_path(path, seq!['-']), ys[from as int]);
        assert(additions(path, ys, from, count) =~= seq![op] + additions(path, ys, from + 1, (count - 1) as nat));
        lemma_run_prepend(doc, op, additions(path, ys, from + 1, (count - 1) as nat), cs, f);
        lemma_array_append(doc, path, items, ys[from as int], cs, f);
        let more = items.push(ys[from as int]);
        let doc1 = set_in(doc, toks, JValue::Array(more), cs);
        lemma_set_in_resolve(doc, toks, JValue::Array(more), cs);
        lemma_additions_apply(doc1, path, more, ys, from + 1, (count - 1) as nat, cs, f);
        assert(more + ys.subrange((from + 1) as int, (from + count) as int) =~= items + ys.subrange(from as int, (from + count) as int));
        lemma_set_in_twice(
            doc,
            toks,
            JValue::Array(more),
            JValue::Array(items + ys.subrange(from as int, (from + count) as int)),
            cs,
        );
    }
}

/// The patch for two values at `path` that it does not replace as a whole,
/// applied where `path` leads to the first: it puts there a value
/// `json_equal` to the second.
proof fn lemma_diff_applies<N, F: Fn(N, N) -> bool>(doc: JValue<N>, path: Seq<char>, x: Value<N>, y: Value<N>, cs: bool, f: F) -> (y2:
    JValue<N>)
    requires
        forall|a: N| #[trigger] numbers_match(f, a, a),
        resolve(doc, pointer_tokens(path), cs) == Some(x@),
        patch_ready(x@, y@, cs),
        !holds_invalid(y@),
        !replaces(x@, y@, f),
    ensures
        run(doc, diff(path, x@, y@, cs, f), cs, f) == (set_in(doc, pointer_tokens(path), y2, cs), Ok::<(), u32>(())),
        json_equal(y2, y@, cs, f),
    decreases x, 1nat, 0int,
{
    let toks = pointer_tokens(path);
    match x {
        Value::Array(xv) => {
            lemma_array_view(xv);
            match y {
                Value::Array(yv) => {
                    lemma_array_view(yv);
                    let xs = items_view(xv@);
                    let ys = items_view(yv@);
                    assert(xv@.len() == xv.len() && yv@.len() == yv.len());
                    let shared: nat = if xs.len() < ys.len() {
                        xs.len()
                    } else {
                        ys.len()
                    };
                    let a = diff_items(path, xs, ys, cs, f, shared);
                    let b = removals::<N>(path, shared, (xs.len() - shared) as nat);
                    let c = additions(path, ys, shared, (ys.len() - shared) as nat);
                    assert(diff(path, x@, y@, cs, f) == a + b + c);
                    let cur = lemma_items_apply(doc, path, xv, yv, cs, f, shared);
                    let doc1 = set_in(doc, toks, JValue::Array(cur), cs);
                    lemma_set_in_resolve(doc, toks, JValue::Array(cur), cs);
                    lemma_removals_apply(doc1, path, cur, shared, (xs.len() - shared) as nat, cs, f);
                    let kept = cur.take(shared as int);
                    let doc2 = set_in(doc1, toks, JValue::Array(kept), cs);
                    lemma_set_in_twice(doc, toks, JValue::Array(cur), JValue::Array(kept), cs);
                    lemma_set_in_resolve(doc, toks, JValue::Array(kept), cs);
                    lemma_additions_apply(doc2, path, kept, ys, shared, (ys.len() - shared) as nat, cs, f);
                    let fin = kept + ys.subrange(shared as int, ys.len() as int);
                    lemma_set_in_twice(doc, toks, JValue::Array(kept), JValue::Array(fin), cs);
                    lemma_run_concat(doc, a + b, c, cs, f);
                    lemma_run_concat(doc, a, b, cs, f);
                    assert forall|k: int| 0 <= k < fin.len() implies json_equal(#[trigger] fin[k], ys[k], cs, f) by {
                        if k >= shared {
                            assert(fin[k] == ys[k]);
                            assert(ys[k] == yv@[k]@);
                            if holds_invalid(ys[k]) {
                                lemma_items_hold_invalid(ys, ys.len(), k);
                            }
                            law_compare_reflexive(yv@[k], cs, f);
                        }
                    }
                    lemma_items_equal_pointwise(fin, ys, cs, f, fin.len());
                    JValue::Array(fin)
                },
                _ => {
                    x@
                },
            }
        },
        Value::Object(xm) => {
            lemma_object_view(xm);
            match y {
                Value::Object(ym) => {
                    lemma_object_view(ym);
                    let xs = members_view(xm@);
                    let ys = members_view(ym@);
                    assert(xs.len() == xm.len() && ys.len() == ym.len());
                    let p = member_order(xs, cs);
                    let q = member_order(ys, cs);
                    lemma_member_order_walk(xs, cs);
                    lemma_member_order_walk(ys, cs);
                    assert(diff(path, x@, y@, cs, f) == diff_members(path, xs, ys, p, q, cs, f, 0, 0));
                    assert forall|nm: Seq<char>| #[trigger] walk_step_holds(xs, xs, ys, p, q, 0, 0, cs, f, nm) by {
                        lemma_walk_names(xs, nm, cs);
                        lemma_walk_names(ys, nm, cs);
                    }
                    let cf = lemma_members_apply(doc, path, xm, ym, cs, f, 0, 0, xs);
                    assert forall|nm: Seq<char>|
                        #![trigger has_name(cf, nm, cs)]
                        #![trigger has_name(ys, nm, cs)]
                        has_name(cf, nm, cs) == has_name(ys, nm, cs) && (has_name(ys, nm, cs) ==> json_equal(
                            value_named(cf, nm, cs),
                            value_named(ys, nm, cs),
                            cs,
                            f,
                        )) by {
                        assert(walk_step_holds(cf, xs, ys, p, q, p.len() as int, q.len() as int, cs, f, nm));
                    }
                    lemma_object_equal_by_names(cf, ys, cs, f);
                    JValue::Object(cf)
                },
                _ => {
                    x@
                },
            }
        },
        _ => {
            assert(diff(path, x@, y@, cs, f) =~= Seq::<JValue<N>>::empty());
            lemma_set_in_same(doc, toks, cs);
            x@
        },
    }
}

/// The patch for the first `n` element pairs of two arrays, applied where
/// `path` leads to the first array: those elements become `json_equal` to
/// the second's, the rest stay.
proof fn lemma_items_apply<N, F: Fn(N, N) -> bool>(
    doc: JValue<N>,
    path: Seq<char>,
    xv: Vec<Value<N>>,
    yv: Vec<Value<N>>,
    cs: bool,
    f: F,
    n: nat,
) -> (cur: Seq<JValue<N>>)
    requires
        forall|a: N| #[trigger] numbers_match(f, a, a),
        resolve(doc, pointer_tokens(path), cs) == Some(JValue::Array(items_view(xv@))),
        items_ready(items_view(xv@), items_view(yv@), xv@.len(), cs),
        !items_hold_invalid(items_view(yv@), yv@.len()),
        n <= xv@.len(),
        n <= yv@.len(),
    ensures
        run(doc, diff_items(path, items_view(xv@), items_view(yv@), cs, f, n), cs, f) == (
            set_in(doc, pointer_tokens(path), JValue::Array(cur), cs),
            Ok::<(), u32>(()),
        ),
        cur.len() == xv@.len(),
        forall|k: int| 0 <= k < n ==> json_equal(#[trigger] cur[k], items_view(yv@)[k], cs, f),
        forall|k: int| n <= k < cur.len() ==> #[trigger] cur[k] == items_view(xv@)[k],
    decreases xv, 0nat, n,
{
    let toks = pointer_tokens(path);
    let xs = items_view(xv@);
    let ys = items_view(yv@);
    assert(xv@.len() == xv.len());
    if n == 0 {
        assert(diff_items(path, xs, ys, cs, f, 0) =~= Seq::<JValue<N>>::empty());
        lemma_set_in_same(doc, toks, cs);
        xs
    } else {
        let e = (n - 1) as nat;
        let cur1 = lemma_items_apply(doc, path, xv, yv, cs, f, e);
        let doc1 = set_in(doc, toks, JValue::Array(cur1), cs);
        lemma_set_in_resolve(doc, toks, JValue::Array(cur1), cs);
        let d = diff(index_path(path, e), xs[e as int], ys[e as int], cs, f);
        assert(diff_items(path, xs, ys, cs, f, n) == diff_items(path, xs, ys, cs, f, e) + d);
        lemma_run_concat(doc, diff_items(path, xs, ys, cs, f, e), d, cs, f);
        lemma_items_ready(xs, ys, xs.len(), e as int, cs);
        assert(xs[e as int] == xv@[e as int]@);
        assert(ys[e as int] == yv@[e as int]@);
        assert(cur1[e as int] == xs[e as int]);
        if holds_invalid(ys[e as int]) {
            lemma_items_hold_invalid(ys, ys.len(), e as int);
        }
        if replaces(xs[e as int], ys[e as int], f) {
            lemma_diff_replaces(index_path(path, e), xs[e as int], ys[e as int], cs, f);
            lemma_run_one(doc1, replace_entry(index_path(path, e), ys[e as int]), cs, f);
            lemma_array_replace(doc1, path, cur1, e, ys[e as int], cs, f);
            let cur = cur1.update(e as int, ys[e as int]);
            lemma_set_in_twice(doc, toks, JValue::Array(cur1), JValue::Array(cur), cs);
            law_compare_reflexive(yv@[e as int], cs, f);
            cur
        } else {
            lemma_index_path_parts(path, e);
            lemma_resolve_push(doc1, toks, decimal(e), cs);
            lemma_resolve_one(JValue::Array(cur1), decimal(e), cs);
            assert(decreases_to!(xv => xv@[e as int]));
            let y2 = lemma_diff_applies(doc1, index_path(path, e), xv@[e as int], yv@[e as int], cs, f);
            lemma_set_in_push(doc1, toks, decimal(e), y2, cs);
            let cur = cur1.update(e as int, y2);
            assert(with_child(JValue::Array(cur1), e as int, y2) == JValue::Array(cur));
            lemma_set_in_twice(doc, toks, JValue::Array(cur1), JValue::Array(cur), cs);
            cur
        }
    }
}

/// The state of one name during the walk over two objects' members: a name
/// still ahead on either side is in `cur` as `from` has it; a name passed is
/// in `cur` exactly when `to` has it, with a `json_equal` value.
pub open spec fn walk_step_holds<N, F: Fn(N, N) -> bool>(
    cur: Seq<JMember<N>>,
    xs: Seq<JMember<N>>,
    ys: Seq<JMember<N>>,
    p: Seq<usize>,
    q: Seq<usize>,
    i: int,
    j: int,
    cs: bool,
    f: F,
    nm: Seq<char>,
) -> bool {
    if named_from(xs, p, i, nm, cs) || named_from(ys, q, j, nm, cs) {
        &&& has_name(cur, nm, cs) == named_from(xs, p, i, nm, cs)
        &&& has_name(cur, nm, cs) ==> value_named(cur, nm, cs) == value_named(xs, nm, cs)
    } else {
        &&& has_name(cur, nm, cs) == has_name(ys, nm, cs)
        &&& has_name(ys, nm, cs) ==> json_equal(value_named(cur, nm, cs), value_named(ys, nm, cs), cs, f)
    }
}

/// The walk after the member at `q[j]` of `to` is appended to `cur`.
proof fn lemma_walk_after_add<N, F: Fn(N, N) -> bool>(
    cur: Seq<JMember<N>>,
    xs: Seq<JMember<N>>,
    ys: Seq<JMember<N>>,
    p: Seq<usize>,
    q: Seq<usize>,
    i: int,
    j: int,
    cs: bool,
    f: F,
)
    requires
        distinct_names(ys, cs),
        walk_sorted(ys, q, cs),
        0 <= j < q.len(),
        forall|nm: Seq<char>| #[trigger] walk_step_holds(cur, xs, ys, p, q, i, j, cs, f, nm),
        !named_from(xs, p, i, ys[q[j] as int].name, cs),
        json_equal(ys[q[j] as int].value, ys[q[j] as int].value, cs, f),
    ensures
        !has_name(cur, ys[q[j] as int].name, cs),
        forall|nm: Seq<char>| #[trigger] walk_step_holds(cur.push(ys[q[j] as int]), xs, ys, p, q, i, j + 1, cs, f, nm),
{
    let y = ys[q[j] as int];
    assert(walk_step_holds(cur, xs, ys, p, q, i, j, cs, f, y.name));
    assert(names_match(ys[q[j] as int].name, y.name, cs));
    assert(named_from(ys, q, j, y.name, cs));
    lemma_value_at(ys, cs, q[j] as int);
    lemma_named_from_step(ys, q, j, y.name, cs);
    assert forall|nm: Seq<char>| #[trigger] walk_step_holds(cur.push(y), xs, ys, p, q, i, j + 1, cs, f, nm) by {
        assert(walk_step_holds(cur, xs, ys, p, q, i, j, cs, f, nm));
        lemma_named_push(cur, y, nm, cs);
        lemma_named_from_step(ys, q, j, nm, cs);
        if names_match(y.name, nm, cs) {
            lemma_named_alike(ys, y.name, nm, cs);
            lemma_named_alike(cur, y.name, nm, cs);
            lemma_named_from_alike(xs, p, i, y.name, nm, cs);
            lemma_named_from_alike(ys, q, j + 1, y.name, nm, cs);
        }
    }
}

/// The walk after the member of `cur` matching the one at `p[i]` of `from`
/// is removed, `to` having no member of that name.
proof fn lemma_walk_after_remove<N, F: Fn(N, N) -> bool>(
    cur: Seq<JMember<N>>,
    xs: Seq<JMember<N>>,
    ys: Seq<JMember<N>>,
    p: Seq<usize>,
    q: Seq<usize>,
    i: int,
    j: int,
    cs: bool,
    f: F,
    k: int,
)
    requires
        walk_sorted(xs, p, cs),
        walk_sorted(ys, q, cs),
        0 <= i < p.len(),
        0 <= j,
        distinct_names(cur, cs),
        0 <= k < cur.len(),
        names_match(cur[k].name, xs[p[i] as int].name, cs),
        !has_name(ys, xs[p[i] as int].name, cs),
        forall|nm: Seq<char>| #[trigger] walk_step_holds(cur, xs, ys, p, q, i, j, cs, f, nm),
    ensures
        distinct_names(cur.remove(k), cs),
        forall|nm: Seq<char>| #[trigger] walk_step_holds(cur.remove(k), xs, ys, p, q, i + 1, j, cs, f, nm),
{
    let x = xs[p[i] as int];
    lemma_remove_named(cur, k, cs);
    lemma_named_from_step(xs, p, i, x.name, cs);
    assert forall|nm: Seq<char>| #[trigger] walk_step_holds(cur.remove(k), xs, ys, p, q, i + 1, j, cs, f, nm) by {
        assert(walk_step_holds(cur, xs, ys, p, q, i, j, cs, f, nm));
        lemma_named_from_step(xs, p, i, nm, cs);
        if names_match(x.name, nm, cs) {
            lemma_named_from_alike(xs, p, i + 1, x.name, nm, cs);
            lemma_named_alike(ys, x.name, nm, cs);
            lemma_named_alike(cur.remove(k), cur[k].name, nm, cs);
            if named_from(ys, q, j, nm, cs) {
                lemma_named_from_has(ys, q, j, nm, cs);
            }
        } else {
            lemma_named_remove(cur, k, nm, cs);
        }
    }
}

/// The walk after the member of `cur` matching the one at `p[i]` of `from`
/// is replaced, under its name, by the value of the matching member at
/// `q[j]` of `to`, placed last.
proof fn lemma_walk_after_replace<N, F: Fn(N, N) -> bool>(
    cur: Seq<JMember<N>>,
    xs: Seq<JMember<N>>,
    ys: Seq<JMember<N>>,
    p: Seq<usize>,
    q: Seq<usize>,
    i: int,
    j: int,
    cs: bool,
    f: F,
    k: int,
)
    requires
        walk_sorted(xs, p, cs),
        walk_sorted(ys, q, cs),
        distinct_names(ys, cs),
        0 <= i < p.len(),
        0 <= j < q.len(),
        distinct_names(cur, cs),
        0 <= k < cur.len(),
        names_match(cur[k].name, xs[p[i] as int].name, cs),
        names_match(xs[p[i] as int].name, ys[q[j] as int].name, cs),
        json_equal(ys[q[j] as int].value, ys[q[j] as int].value, cs, f),
        forall|nm: Seq<char>| #[trigger] walk_step_holds(cur, xs, ys, p, q, i, j, cs, f, nm),
    ensures
        ({
            let c1 = cur.remove(k).push(JMember { name: xs[p[i] as int].name, value: ys[q[j] as int].value });
            &&& distinct_names(c1, cs)
            &&& forall|nm: Seq<char>| #[trigger] walk_step_holds(c1, xs, ys, p, q, i + 1, j + 1, cs, f, nm)
        }),
{
    let x = xs[p[i] as int];
    let y = ys[q[j] as int];
    let m0 = JMember { name: x.name, value: y.value };
    let r = cur.remove(k);
    lemma_remove_named(cur, k, cs);
    lemma_named_alike(r, cur[k].name, x.name, cs);
    lemma_distinct_push(r, m0, cs);
    lemma_value_at(ys, cs, q[j] as int);
    lemma_named_from_step(xs, p, i, x.name, cs);
    lemma_named_from_step(ys, q, j, y.name, cs);
    assert forall|nm: Seq<char>| #[trigger] walk_step_holds(r.push(m0), xs, ys, p, q, i + 1, j + 1, cs, f, nm) by {
        assert(walk_step_holds(cur, xs, ys, p, q, i, j, cs, f, nm));
        lemma_named_from_step(xs, p, i, nm, cs);
        lemma_named_from_step(ys, q, j, nm, cs);
        lemma_named_push(r, m0, nm, cs);
        if names_match(x.name, nm, cs) {
            lemma_named_alike(ys, y.name, nm, cs);
            lemma_named_alike(r, x.name, nm, cs);
            lemma_named_from_alike(xs, p, i + 1, x.name, nm, cs);
            lemma_named_from_alike(ys, q, j + 1, y.name, nm, cs);
        } else {
            lemma_named_remove(cur, k, nm, cs);
        }
    }
}

/// The walk after the value of the member of `cur` matching the one at
/// `p[i]` of `from` becomes `y2`, `json_equal` to the value of the matching
/// member at `q[j]` of `to`.
proof fn lemma_walk_after_update<N, F: Fn(N, N) -> bool>(
    cur: Seq<JMember<N>>,
    xs: Seq<JMember<N>>,
    ys: Seq<JMember<N>>,
    p: Seq<usize>,
    q: Seq<usize>,
    i: int,
    j: int,
    cs: bool,
    f: F,
    k: int,
    y2: JValue<N>,
)
    requires
        walk_sorted(xs, p, cs),
        walk_sorted(ys, q, cs),
        distinct_names(ys, cs),
        0 <= i < p.len(),
        0 <= j < q.len(),
        distinct_names(cur, cs),
        0 <= k < cur.len(),
        first_match(cur, cur[k].name, cs) == Some(k),
        names_match(cur[k].name, xs[p[i] as int].name, cs),
        names_match(xs[p[i] as int].name, ys[q[j] as int].name, cs),
        json_equal(y2, ys[q[j] as int].value, cs, f),
        forall|nm: Seq<char>| #[trigger] walk_step_holds(cur, xs, ys, p, q, i, j, cs, f, nm),
    ensures
        ({
            let c1 = cur.update(k, JMember { name: cur[k].name, value: y2 });
            &&& distinct_names(c1, cs)
            &&& forall|nm: Seq<char>| #[trigger] walk_step_holds(c1, xs, ys, p, q, i + 1, j + 1, cs, f, nm)
        }),
{
    let x = xs[p[i] as int];
    let y = ys[q[j] as int];
    let c1 = cur.update(k, JMember { name: cur[k].name, value: y2 });
    assert forall|a: int, b: int| 0 <= a < c1.len() && 0 <= b < c1.len() && a != b implies !names_match(
        (#[trigger] c1[a]).name,
        (#[trigger] c1[b]).name,
        cs,
    ) by {
        assert(c1[a].name == cur[a].name && c1[b].name == cur[b].name);
    }
    lemma_value_at(ys, cs, q[j] as int);
    lemma_named_from_step(xs, p, i, x.name, cs);
    lemma_named_from_step(ys, q, j, y.name, cs);
    assert forall|nm: Seq<char>| #[trigger] walk_step_holds(c1, xs, ys, p, q, i + 1, j + 1, cs, f, nm) by {
        assert(walk_step_holds(cur, xs, ys, p, q, i, j, cs, f, nm));
        lemma_named_from_step(xs, p, i, nm, cs);
        lemma_named_from_step(ys, q, j, nm, cs);
        lemma_named_update(cur, k, y2, nm, cs);
        if names_match(x.name, nm, cs) {
            lemma_named_alike(ys, y.name, nm, cs);
            lemma_named_alike(cur, cur[k].name, nm, cs);
            lemma_named_from_alike(xs, p, i + 1, x.name, nm, cs);
            lemma_named_from_alike(ys, q, j + 1, y.name, nm, cs);
        }
    }
}

/// Passing two members with matching names keeps the walk aligned.
proof fn lemma_aligned_after_both<N>(xs: Seq<JMember<N>>, ys: Seq<JMember<N>>, p: Seq<usize>, q: Seq<usize>, i: int, j: int, cs: bool)
    requires
        walk_sorted(xs, p, cs),
        walk_sorted(ys, q, cs),
        0 <= i < p.len(),
        0 <= j < q.len(),
        aligned(xs, ys, p, q, i, j, cs),
        names_match(xs[p[i] as int].name, ys[q[j] as int].name, cs),
    ensures
        aligned(xs, ys, p, q, i + 1, j + 1, cs),
{
    let kx = sort_key(xs[p[i] as int].name, cs);
    let ky = sort_key(ys[q[j] as int].name, cs);
    lemma_match_keys(xs[p[i] as int].name, ys[q[j] as int].name, cs);
    assert forall|a: int, b: int| i + 1 <= a < p.len() && 0 <= b < j + 1 implies !names_match(
        xs[#[trigger] p[a] as int].name,
        ys[#[trigger] q[b] as int].name,
        cs,
    ) by {
        if b == j {
            let ka = sort_key(xs[p[a] as int].name, cs);
            assert(lex_lt(kx, ka));
            lemma_lt_differs(kx, ka);
            lemma_match_keys(xs[p[a] as int].name, ys[q[j] as int].name, cs);
        }
    }
    assert forall|a: int, b: int| 0 <= a < i + 1 && j + 1 <= b < q.len() implies !names_match(
        xs[#[trigger] p[a] as int].name,
        ys[#[trigger] q[b] as int].name,
        cs,
    ) by {
        if a == i {
            let kb = sort_key(ys[q[b] as int].name, cs);
            assert(lex_lt(ky, kb));
            lemma_lt_differs(ky, kb);
            lemma_match_keys(xs[p[i] as int].name, ys[q[b] as int].name, cs);
        }
    }
}

/// Passing a member of `from` whose key is below every key ahead in `to`
/// keeps the walk aligned; `to` has no member of its name.
proof fn lemma_aligned_after_from<N>(xs: Seq<JMember<N>>, ys: Seq<JMember<N>>, p: Seq<usize>, q: Seq<usize>, i: int, j: int, cs: bool)
    requires
        walk_sorted(xs, p, cs),
        walk_sorted(ys, q, cs),
        distinct_names(ys, cs),
        ys.len() <= usize::MAX,
        q == member_order(ys, cs),
        0 <= i < p.len(),
        0 <= j <= q.len(),
        aligned(xs, ys, p, q, i, j, cs),
        j == q.len() || lex_lt(sort_key(xs[p[i] as int].name, cs), sort_key(ys[q[j] as int].name, cs)),
    ensures
        aligned(xs, ys, p, q, i + 1, j, cs),
        !has_name(ys, xs[p[i] as int].name, cs),
{
    let x = xs[p[i] as int];
    let kx = sort_key(x.name, cs);
    assert forall|a: int, b: int| 0 <= a < i + 1 && j <= b < q.len() implies !names_match(
        xs[#[trigger] p[a] as int].name,
        ys[#[trigger] q[b] as int].name,
        cs,
    ) by {
        if a == i {
            let ky = sort_key(ys[q[j] as int].name, cs);
            let kb = sort_key(ys[q[b] as int].name, cs);
            if b == j {
                lemma_lt_differs(kx, ky);
            } else {
                assert(lex_lt(ky, kb));
                lemma_lex_transitive(kx, ky, kb);
                lemma_lt_differs(kx, kb);
            }
            lemma_match_keys(x.name, ys[q[b] as int].name, cs);
        }
    }
    lemma_walk_names(ys, x.name, cs);
    if named_from(ys, q, 0, x.name, cs) {
        let b = choose|b: int| 0 <= b < q.len() && names_match(ys[#[trigger] q[b] as int].name, x.name, cs);
        assert(!names_match(xs[p[i] as int].name, ys[q[b] as int].name, cs));
    }
}

/// Passing a member of `to` whose key is below every key ahead in `from`
/// keeps the walk aligned; no member ahead in `from` has its name.
proof fn lemma_aligned_after_to<N>(xs: Seq<JMember<N>>, ys: Seq<JMember<N>>, p: Seq<usize>, q: Seq<usize>, i: int, j: int, cs: bool)
    requires
        walk_sorted(xs, p, cs),
        walk_sorted(ys, q, cs),
        0 <= i <= p.len(),
        0 <= j < q.len(),
        aligned(xs, ys, p, q, i, j, cs),
        i == p.len() || lex_lt(sort_key(ys[q[j] as int].name, cs), sort_key(xs[p[i] as int].name, cs)),
    ensures
        aligned(xs, ys, p, q, i, j + 1, cs),
        !named_from(xs, p, i, ys[q[j] as int].name, cs),
{
    let y = ys[q[j] as int];
    let ky = sort_key(y.name, cs);
    assert forall|a: int, b: int| i <= a < p.len() && 0 <= b < j + 1 implies !names_match(
        xs[#[trigger] p[a] as int].name,
        ys[#[trigger] q[b] as int].name,
        cs,
    ) by {
        if b == j {
            let kx = sort_key(xs[p[i] as int].name, cs);
            let ka = sort_key(xs[p[a] as int].name, cs);
            if a == i {
                lemma_lt_differs(ky, kx);
            } else {
                assert(lex_lt(kx, ka));
                lemma_lex_transitive(ky, kx, ka);
                lemma_lt_differs(ky, ka);
            }
            lemma_match_keys(xs[p[a] as int].name, y.name, cs);
        }
    }
    if i < p.len() {
        lemma_named_from_below(xs, p, i, y.name, cs);
    }
}

/// The patch for the members of two objects from walk positions `i` and
/// `j` on, applied where `path` leads to the object `cur` (no two members
/// with matching names, each name as `walk_step_holds` describes): every
/// name ends up passed.
proof fn lemma_members_apply<N, F: Fn(N, N) -> bool>(
    doc: JValue<N>,
    path: Seq<char>,
    xm: Vec<Member<N>>,
    ym: Vec<Member<N>>,
    cs: bool,
    f: F,
    i: int,
    j: int,
    cur: Seq<JMember<N>>,
) -> (cf: Seq<JMember<N>>)
    requires
        forall|a: N| #[trigger] numbers_match(f, a, a),
        resolve(doc, pointer_tokens(path), cs) == Some(JValue::Object(cur)),
        distinct_names(members_view(xm@), cs),
        distinct_names(members_view(ym@), cs),
        members_ready(members_view(xm@), members_view(ym@), xm@.len(), cs),
        !members_hold_invalid(members_view(ym@), ym@.len()),
        walk_sorted(members_view(xm@), member_order(members_view(xm@), cs), cs),
        walk_sorted(members_view(ym@), member_order(members_view(ym@), cs), cs),
        member_order(members_view(xm@), cs).len() == xm@.len(),
        member_order(members_view(ym@), cs).len() == ym@.len(),
        0 <= i <= xm@.len(),
        0 <= j <= ym@.len(),
        aligned(
            members_view(xm@),
            members_view(ym@),
            member_order(members_view(xm@), cs),
            member_order(members_view(ym@), cs),
            i,
            j,
            cs,
        ),
        distinct_names(cur, cs),
        forall|nm: Seq<char>|
            #[trigger] walk_step_holds(
                cur,
                members_view(xm@),
                members_view(ym@),
                member_order(members_view(xm@), cs),
                member_order(members_view(ym@), cs),
                i,
                j,
                cs,
                f,
                nm,
            ),
    ensures
        ({
            let xs = members_view(xm@);
            let ys = members_view(ym@);
            let p = member_order(xs, cs);
            let q = member_order(ys, cs);
            &&& run(doc, diff_members(path, xs, ys, p, q, cs, f, i, j), cs, f) == (
                set_in(doc, pointer_tokens(path), JValue::Object(cf), cs),
                Ok::<(), u32>(()),
            )
            &&& distinct_names(cf, cs)
            &&& forall|nm: Seq<char>| #[trigger] walk_step_holds(cf, xs, ys, p, q, p.len() as int, q.len() as int, cs, f, nm)
        }),
    decreases xm, 0nat, (xm@.len() - i) + (ym@.len() - j),
{
    let toks = pointer_tokens(path);
    let xs = members_view(xm@);
    let ys = members_view(ym@);
    assert(xm@.len() == xm.len() && ym@.len() == ym.len());
    let p = member_order(xs, cs);
    let q = member_order(ys, cs);
    let ops = diff_members(path, xs, ys, p, q, cs, f, i, j);
    if i == p.len() && j == q.len() {
        assert(ops =~= Seq::<JValue<N>>::empty());
        lemma_set_in_same(doc, toks, cs);
        return cur;
    }
    let to_first = i == p.len() || (j < q.len() && lex_lt(
        sort_key(ys[q[j] as int].name, cs),
        sort_key(xs[p[i] as int].name, cs),
    ));
    let from_first = j == q.len() || (i < p.len() && lex_lt(
        sort_key(xs[p[i] as int].name, cs),
        sort_key(ys[q[j] as int].name, cs),
    ));
    if i < p.len() && j < q.len() {
        let kx = sort_key(xs[p[i] as int].name, cs);
        let ky = sort_key(ys[q[j] as int].name, cs);
        lemma_match_keys(xs[p[i] as int].name, ys[q[j] as int].name, cs);
        if kx != ky {
            lemma_lex_total(kx, ky);
        }
        if lex_lt(ky, kx) {
            lemma_lt_differs(ky, kx);
            lemma_lex_asymmetric(ky, kx);
        }
        if lex_lt(kx, ky) {
            lemma_lt_differs(kx, ky);
        }
    }
    if to_first {
        let y = ys[q[j] as int];
        let rest = diff_members(path, xs, ys, p, q, cs, f, i, j + 1);
        let op = add_entry(child_path(path, y.name), y.value);
        assert(ops == seq![op] + rest);
        assert(ys[q[j] as int] == ym@[q[j] as int]@);
        if holds_invalid(ys[q[j] as int].value) {
            lemma_members_hold_invalid(ys, ys.len(), q[j] as int);
        }
        law_compare_reflexive(ym@[q[j] as int].value, cs, f);
        lemma_aligned_after_to(xs, ys, p, q, i, j, cs);
        lemma_walk_after_add(cur, xs, ys, p, q, i, j, cs, f);
        lemma_object_add(doc, path, cur, y.name, y.value, cs, f);
        let cur1 = cur.push(y);
        let doc1 = set_in(doc, toks, JValue::Object(cur1), cs);
        lemma_set_in_resolve(doc, toks, JValue::Object(cur1), cs);
        lemma_distinct_push(cur, y, cs);
        let cf = lemma_members_apply(doc1, path, xm, ym, cs, f, i, j + 1, cur1);
        lemma_run_prepend(doc, op, rest, cs, f);
        lemma_set_in_twice(doc, toks, JValue::Object(cur1), JValue::Object(cf), cs);
        cf
    } else if from_first {
        let x = xs[p[i] as int];
        let rest = diff_members(path, xs, ys, p, q, cs, f, i + 1, j);
        let op = remove_entry::<N>(child_path(path, x.name));
        assert(ops == seq![op] + rest);
        assert(walk_step_holds(cur, xs, ys, p, q, i, j, cs, f, x.name));
        assert(names_match(xs[p[i] as int].name, x.name, cs));
        assert(named_from(xs, p, i, x.name, cs));
        lemma_object_remove(doc, path, cur, x.name, cs, f);
        lemma_has_name_found(cur, x.name, cs);
        let k = first_match(cur, x.name, cs)->0;
        lemma_aligned_after_from(xs, ys, p, q, i, j, cs);
        lemma_walk_after_remove(cur, xs, ys, p, q, i, j, cs, f, k);
        let cur1 = cur.remove(k);
        let doc1 = set_in(doc, toks, JValue::Object(cur1), cs);
        lemma_set_in_resolve(doc, toks, JValue::Object(cur1), cs);
        let cf = lemma_members_apply(doc1, path, xm, ym, cs, f, i + 1, j, cur1);
        lemma_run_prepend(doc, op, rest, cs, f);
        lemma_set_in_twice(doc, toks, JValue::Object(cur1), JValue::Object(cf), cs);
        cf
    } else {
        let x = xs[p[i] as int];
        let y = ys[q[j] as int];
        let nm0 = x.name;
        let rest = diff_members(path, xs, ys, p, q, cs, f, i + 1, j + 1);
        let d = diff(child_path(path, nm0), x.value, y.value, cs, f);
        assert(ops == d + rest);
        assert(walk_step_holds(cur, xs, ys, p, q, i, j, cs, f, x.name));
        assert(names_match(xs[p[i] as int].name, x.name, cs));
        assert(named_from(xs, p, i, x.name, cs));
        lemma_value_at(xs, cs, p[i] as int);
        lemma_value_at(ys, cs, q[j] as int);
        assert(xs[p[i] as int] == xm@[p[i] as int]@);
        assert(ys[q[j] as int] == ym@[q[j] as int]@);
        if holds_invalid(ys[q[j] as int].value) {
            lemma_members_hold_invalid(ys, ys.len(), q[j] as int);
        }
        lemma_members_ready(xs, ys, xs.len(), p[i] as int, cs);
        lemma_named_alike(ys, x.name, y.name, cs);
        lemma_has_name_found(cur, nm0, cs);
        let k = first_match(cur, nm0, cs)->0;
        lemma_aligned_after_both(xs, ys, p, q, i, j, cs);
        let cur1 = if replaces(x.value, y.value, f) {
            lemma_diff_replaces(child_path(path, nm0), x.value, y.value, cs, f);
            lemma_run_one(doc, replace_entry(child_path(path, nm0), y.value), cs, f);
            lemma_object_replace(doc, path, cur, nm0, y.value, cs, f);
            law_compare_reflexive(ym@[q[j] as int].value, cs, f);
            lemma_walk_after_replace(cur, xs, ys, p, q, i, j, cs, f, k);
            cur.remove(k).push(JMember { name: nm0, value: y.value })
        } else {
            let t = encode_token(nm0);
            lemma_child_path_parts(path, nm0);
            lemma_token_position_encoded(cur, nm0, cs);
            lemma_resolve_push(doc, toks, t, cs);
            lemma_resolve_one(JValue::Object(cur), t, cs);
            assert(decreases_to!(xm => xm@[p[i] as int].value));
            let y2 = lemma_diff_applies(doc, child_path(path, nm0), xm@[p[i] as int].value, ym@[q[j] as int].value, cs, f);
            lemma_set_in_push(doc, toks, t, y2, cs);
            let c1 = cur.update(k, JMember { name: cur[k].name, value: y2 });
            assert(with_child(JValue::Object(cur), k, y2) == JValue::Object(c1));
            lemma_named_alike(cur, cur[k].name, nm0, cs);
            lemma_walk_after_update(cur, xs, ys, p, q, i, j, cs, f, k, y2);
            c1
        };
        let doc1 = set_in(doc, toks, JValue::Object(cur1), cs);
        assert(run(doc, d, cs, f) == (doc1, Ok::<(), u32>(())));
        lemma_set_in_resolve(doc, toks, JValue::Object(cur1), cs);
        let cf = lemma_members_apply(doc1, path, xm, ym, cs, f, i + 1, j + 1, cur1);
        lemma_run_concat(doc, d, rest, cs, f);
        lemma_set_in_twice(doc, toks, JValue::Object(cur1), JValue::Object(cf), cs);
        cf
    }
}

/// A generated JSON Patch reaches its target: applying the operations that
/// `generate_patches` makes from `from` to `to` to `from` (as
/// `apply_patches` does, names matched the same way) succeeds and gives a
/// value that `compare` finds equal to `to`. This holds when, wherever both
/// documents hold a value at the same place, objects have no two members
/// with matching names and raw values have the same text, `to` holds no
/// invalid node, and `numbers_equal` finds every number equal to itself.
pub proof fn law_generated_patches_reach_target<N, F: Fn(N, N) -> bool>(
    from: Value<N>,
    to: Value<N>,
    case_sensitive: bool,
    numbers_equal: F,
)
    requires
        forall|a: N| #[trigger] numbers_match(numbers_equal, a, a),
        patch_ready(from@, to@, case_sensitive),
        !holds_invalid(to@),
    ensures
        ({
            let r = apply_all(
                from@,
                JValue::Array(diff(Seq::empty(), from@, to@, case_sensitive, numbers_equal)),
                case_sensitive,
                numbers_equal,
            );
            &&& r.1 is Ok
            &&& json_equal(r.0, to@, case_sensitive, numbers_equal)
        }),
{
    let f = numbers_equal;
    let cs = case_sensitive;
    let root = Seq::<char>::empty();
    let ops = diff(root, from@, to@, cs, f);
    assert(split_slash(root) == seq![Seq::<char>::empty()]);
    assert(pointer_tokens(root) =~= Seq::<Seq<char>>::empty());
    assert(resolve(from@, Seq::<Seq<char>>::empty(), cs) == Some(from@));
    if replaces(from@, to@, f) {
        lemma_diff_replaces(root, from@, to@, cs, f);
        lemma_run_one(from@, replace_entry(root, to@), cs, f);
        lemma_apply_replace_root(from@, to@, cs, f);
        law_compare_reflexive(to, cs, f);
    } else {
        let y2 = lemma_diff_applies(from@, root, from, to, cs, f);
    }
}

} // verus!
