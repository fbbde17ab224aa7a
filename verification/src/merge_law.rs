//! What a generated merge patch does when it is merged back: with names
//! matched exactly, it turns the source document into one equal to the
//! target.
use vstd::prelude::*;
use crate::merge::{merge_diff, merge_diff_members, merge_members, merged};
use crate::names::{
    aligned, distinct_names, has_name, lemma_distinct_prepend, lemma_distinct_push, lemma_distinct_without,
    lemma_has_name_found, lemma_lt_differs, lemma_member_order_walk, lemma_named_from_below, lemma_named_from_step,
    lemma_named_prepend, lemma_named_push, lemma_named_update, lemma_named_without, lemma_no_name,
    lemma_object_equal_by_names, lemma_value_at, lemma_walk_names, named_from, value_named, walk_sorted,
};
use crate::text::{lemma_lex_total, lemma_lex_transitive, lex_lt, names_match};
use crate::value::{
    JMember, JValue, Value, first_match, holds_invalid, json_equal, law_compare_reflexive, lemma_first_match,
    lemma_members_hold_invalid, lemma_object_view, member_order, members_view, numbers_match, without_name,
};

verus! {

/// Merging the first `n` members of `pms` (no two with one name) into `tms`,
/// seen from one name: a name no merged member has keeps what `tms` has
/// under it; a `null` member removes it; any other member's value is merged
/// into what `tms` has under it (`Invalid` if nothing).
proof fn lemma_merge_members_name<N>(tms: Seq<JMember<N>>, pms: Seq<JMember<N>>, n: nat, nm: Seq<char>)
    requires
        distinct_names(pms, true),
        n <= pms.len(),
    ensures
        ({
            let r = merge_members(tms, pms, true, n);
            if has_name(pms.take(n as int), nm, true) {
                let pv = value_named(pms, nm, true);
                &&& pv is Null ==> !has_name(r, nm, true)
                &&& !(pv is Null) ==> has_name(r, nm, true) && value_named(r, nm, true) == merged(value_named(tms, nm, true), pv, true)
            } else {
                &&& has_name(r, nm, true) == has_name(tms, nm, true)
                &&& value_named(r, nm, true) == value_named(tms, nm, true)
            }
        }),
    decreases n,
{
    if n == 0 {
        if has_name(pms.take(0), nm, true) {
            let k = choose|k: int| 0 <= k < pms.take(0).len() && (#[trigger] pms.take(0)[k]).name == nm;
        }
    } else {
        let m = (n - 1) as nat;
        lemma_merge_members_name(tms, pms, m, nm);
        let prev = merge_members(tms, pms, true, m);
        let pm = pms[m as int];
        let r = merge_members(tms, pms, true, n);
        let before = pms.take(m as int);
        let upto = pms.take(n as int);
        assert(upto =~= before.push(pm));
        lemma_named_push(before, pm, nm, true);
        if pm.name == nm {
            if has_name(before, nm, true) {
                let k = choose|k: int| 0 <= k < before.len() && (#[trigger] before[k]).name == nm;
                assert(before[k] == pms[k]);
                assert(pms[k].name == pms[m as int].name);
            }
            lemma_value_at(pms, true, m as int);
        }
        if pm.value is Null {
            assert(r == without_name(prev, pm.name, true));
            lemma_named_without(prev, pm.name, nm, true);
        } else {
            lemma_first_match(prev, pm.name, true);
            match first_match(prev, pm.name, true) {
                Some(i) => {
                    assert(prev[i].name == pm.name);
                    lemma_named_update(prev, i, merged(prev[i].value, pm.value, true), nm, true);
                    if pm.name == nm {
                        lemma_has_name_found(prev, nm, true);
                    }
                },
                None => {
                    let x = JMember { name: pm.name, value: merged(JValue::Invalid, pm.value, true) };
                    lemma_named_push(prev, x, nm, true);
                    if pm.name == nm {
                        lemma_has_name_found(prev, nm, true);
                        lemma_no_name(tms, nm, true);
                    }
                },
            }
        }
    }
}

/// Merging members into a list with distinct names keeps them distinct.
proof fn lemma_merge_members_distinct<N>(tms: Seq<JMember<N>>, pms: Seq<JMember<N>>, cs: bool, n: nat)
    requires
        distinct_names(tms, cs),
    ensures
        distinct_names(merge_members(tms, pms, cs, n), cs),
    decreases n,
{
    if n > 0 && n <= pms.len() {
        let m = (n - 1) as nat;
        lemma_merge_members_distinct(tms, pms, cs, m);
        let prev = merge_members(tms, pms, cs, m);
        let pm = pms[m as int];
        if pm.value is Null {
            lemma_distinct_without(prev, pm.name, cs);
        } else {
            lemma_first_match(prev, pm.name, cs);
            match first_match(prev, pm.name, cs) {
                Some(i) => {
                    let r = prev.update(i, JMember { name: prev[i].name, value: merged(prev[i].value, pm.value, cs) });
                    assert forall|a: int, b: int| 0 <= a < r.len() && 0 <= b < r.len() && a != b implies !names_match(
                        (#[trigger] r[a]).name,
                        (#[trigger] r[b]).name,
                        cs,
                    ) by {
                        assert(r[a].name == prev[a].name && r[b].name == prev[b].name);
                    }
                },
                None => {
                    lemma_has_name_found(prev, pm.name, cs);
                    lemma_distinct_push(prev, JMember { name: pm.name, value: merged(JValue::Invalid, pm.value, cs) }, cs);
                },
            }
        }
    }
}

/// The merge patch members from positions `i` and `j` on, seen from one
/// name: a name ahead on both sides with equal values is left out; one ahead
/// on both sides otherwise carries the nested merge patch; one ahead only in
/// `from` carries `null`; one ahead only in `to` carries its value.
proof fn lemma_diff_members_name<N, F: Fn(N, N) -> bool>(
    xs: Seq<JMember<N>>,
    ys: Seq<JMember<N>>,
    p: Seq<usize>,
    q: Seq<usize>,
    f: F,
    cs: bool,
    i: int,
    j: int,
    nm: Seq<char>,
)
    requires
        distinct_names(xs, true),
        distinct_names(ys, true),
        walk_sorted(xs, p, true),
        walk_sorted(ys, q, true),
        0 <= i <= p.len(),
        0 <= j <= q.len(),
        aligned(xs, ys, p, q, i, j, true),
    ensures
        ({
            let d = merge_diff_members(xs, ys, p, q, cs, f, i, j);
            let in_x = named_from(xs, p, i, nm, true);
            let in_y = named_from(ys, q, j, nm, true);
            let xv = value_named(xs, nm, true);
            let yv = value_named(ys, nm, true);
            &&& has_name(d, nm, true) == ((in_x || in_y) && !(in_x && in_y && json_equal(xv, yv, cs, f)))
            &&& has_name(d, nm, true) ==> value_named(d, nm, true) == if in_x && in_y {
                merge_diff(xv, yv, cs, f)
            } else if in_x {
                JValue::Null
            } else {
                yv
            }
        }),
    decreases (p.len() - i) + (q.len() - j),
{
    let d = merge_diff_members(xs, ys, p, q, cs, f, i, j);
    if i == p.len() && j == q.len() {
        if has_name(d, nm, true) {
            let k = choose|k: int| 0 <= k < d.len() && (#[trigger] d[k]).name == nm;
        }
    } else if i == p.len() {
        let y = ys[q[j] as int];
        let rest = merge_diff_members(xs, ys, p, q, cs, f, i, j + 1);
        assert(d == seq![y] + rest);
        assert(aligned(xs, ys, p, q, i, j + 1, true));
        lemma_diff_members_name(xs, ys, p, q, f, cs, i, j + 1, nm);
        lemma_named_from_step(ys, q, j, nm, true);
        lemma_named_prepend(y, rest, nm, true);
        if y.name == nm {
            lemma_value_at(ys, true, q[j] as int);
        }
    } else if j == q.len() {
        let x = xs[p[i] as int];
        let h = JMember { name: x.name, value: JValue::Null };
        let rest = merge_diff_members(xs, ys, p, q, cs, f, i + 1, j);
        assert(d == seq![h] + rest);
        assert(aligned(xs, ys, p, q, i + 1, j, true));
        lemma_diff_members_name(xs, ys, p, q, f, cs, i + 1, j, nm);
        lemma_named_from_step(xs, p, i, nm, true);
        lemma_named_prepend(h, rest, nm, true);
    } else {
        let x = xs[p[i] as int];
        let y = ys[q[j] as int];
        lemma_named_from_step(xs, p, i, nm, true);
        lemma_named_from_step(ys, q, j, nm, true);
        if x.name == y.name {
            let rest = merge_diff_members(xs, ys, p, q, cs, f, i + 1, j + 1);
            assert forall|a: int, b: int| i + 1 <= a < p.len() && 0 <= b < j + 1 implies xs[#[trigger] p[a] as int].name
                != ys[#[trigger] q[b] as int].name by {
                if b == j {
                    assert(lex_lt(xs[p[i] as int].name, xs[p[a] as int].name));
                    lemma_lt_differs(xs[p[i] as int].name, xs[p[a] as int].name);
                }
            }
            assert forall|a: int, b: int| 0 <= a < i + 1 && j + 1 <= b < q.len() implies xs[#[trigger] p[a] as int].name
                != ys[#[trigger] q[b] as int].name by {
                if a == i {
                    assert(lex_lt(ys[q[j] as int].name, ys[q[b] as int].name));
                    lemma_lt_differs(ys[q[j] as int].name, ys[q[b] as int].name);
                }
            }
            lemma_diff_members_name(xs, ys, p, q, f, cs, i + 1, j + 1, nm);
            if nm == x.name {
                lemma_value_at(xs, true, p[i] as int);
                lemma_value_at(ys, true, q[j] as int);
            }
            if !json_equal(x.value, y.value, cs, f) {
                let h = JMember { name: y.name, value: merge_diff(x.value, y.value, cs, f) };
                assert(d == seq![h] + rest);
                lemma_named_prepend(h, rest, nm, true);
            } else {
                assert(d == rest);
            }
        } else if lex_lt(x.name, y.name) {
            let h = JMember { name: x.name, value: JValue::Null };
            let rest = merge_diff_members(xs, ys, p, q, cs, f, i + 1, j);
            assert(d == seq![h] + rest);
            assert forall|a: int, b: int| 0 <= a < i + 1 && j <= b < q.len() implies xs[#[trigger] p[a] as int].name
                != ys[#[trigger] q[b] as int].name by {
                if a == i {
                    if b == j {
                        lemma_lt_differs(x.name, y.name);
                    } else {
                        assert(lex_lt(ys[q[j] as int].name, ys[q[b] as int].name));
                        lemma_lex_transitive(x.name, y.name, ys[q[b] as int].name);
                        lemma_lt_differs(x.name, ys[q[b] as int].name);
                    }
                }
            }
            lemma_diff_members_name(xs, ys, p, q, f, cs, i + 1, j, nm);
            lemma_named_prepend(h, rest, nm, true);
            if nm == x.name {
                lemma_named_from_below(ys, q, j, nm, true);
            }
        } else {
            lemma_lex_total(x.name, y.name);
            let rest = merge_diff_members(xs, ys, p, q, cs, f, i, j + 1);
            assert(d == seq![y] + rest);
            assert forall|a: int, b: int| i <= a < p.len() && 0 <= b < j + 1 implies xs[#[trigger] p[a] as int].name
                != ys[#[trigger] q[b] as int].name by {
                if b == j {
                    if a == i {
                        lemma_lt_differs(y.name, x.name);
                    } else {
                        assert(lex_lt(xs[p[i] as int].name, xs[p[a] as int].name));
                        lemma_lex_transitive(y.name, x.name, xs[p[a] as int].name);
                        lemma_lt_differs(y.name, xs[p[a] as int].name);
                    }
                }
            }
            lemma_diff_members_name(xs, ys, p, q, f, cs, i, j + 1, nm);
            lemma_named_prepend(y, rest, nm, true);
            if nm == y.name {
                lemma_named_from_below(xs, p, i, nm, true);
                lemma_value_at(ys, true, q[j] as int);
            }
        }
    }
}

/// The merge patch members have distinct names.
proof fn lemma_diff_members_distinct<N, F: Fn(N, N) -> bool>(
    xs: Seq<JMember<N>>,
    ys: Seq<JMember<N>>,
    p: Seq<usize>,
    q: Seq<usize>,
    f: F,
    cs: bool,
    i: int,
    j: int,
)
    requires
        distinct_names(xs, true),
        distinct_names(ys, true),
        walk_sorted(xs, p, true),
        walk_sorted(ys, q, true),
        0 <= i <= p.len(),
        0 <= j <= q.len(),
        aligned(xs, ys, p, q, i, j, true),
    ensures
        distinct_names(merge_diff_members(xs, ys, p, q, cs, f, i, j), true),
    decreases (p.len() - i) + (q.len() - j),
{
    let d = merge_diff_members(xs, ys, p, q, cs, f, i, j);
    if i == p.len() && j == q.len() {
    } else if i == p.len() {
        let y = ys[q[j] as int];
        let rest = merge_diff_members(xs, ys, p, q, cs, f, i, j + 1);
        assert(aligned(xs, ys, p, q, i, j + 1, true));
        lemma_diff_members_distinct(xs, ys, p, q, f, cs, i, j + 1);
        lemma_diff_members_name(xs, ys, p, q, f, cs, i, j + 1, y.name);
        lemma_named_from_step(ys, q, j, y.name, true);
        lemma_distinct_prepend(y, rest, true);
    } else if j == q.len() {
        let x = xs[p[i] as int];
        let h = JMember { name: x.name, value: JValue::Null };
        let rest = merge_diff_members(xs, ys, p, q, cs, f, i + 1, j);
        assert(aligned(xs, ys, p, q, i + 1, j, true));
        lemma_diff_members_distinct(xs, ys, p, q, f, cs, i + 1, j);
        lemma_diff_members_name(xs, ys, p, q, f, cs, i + 1, j, x.name);
        lemma_named_from_step(xs, p, i, x.name, true);
        lemma_distinct_prepend(h, rest, true);
    } else {
        let x = xs[p[i] as int];
        let y = ys[q[j] as int];
        if x.name == y.name {
            let rest = merge_diff_members(xs, ys, p, q, cs, f, i + 1, j + 1);
            assert forall|a: int, b: int| i + 1 <= a < p.len() && 0 <= b < j + 1 implies xs[#[trigger] p[a] as int].name
                != ys[#[trigger] q[b] as int].name by {
                if b == j {
                    assert(lex_lt(xs[p[i] as int].name, xs[p[a] as int].name));
                    lemma_lt_differs(xs[p[i] as int].name, xs[p[a] as int].name);
                }
            }
            assert forall|a: int, b: int| 0 <= a < i + 1 && j + 1 <= b < q.len() implies xs[#[trigger] p[a] as int].name
                != ys[#[trigger] q[b] as int].name by {
                if a == i {
                    assert(lex_lt(ys[q[j] as int].name, ys[q[b] as int].name));
                    lemma_lt_differs(ys[q[j] as int].name, ys[q[b] as int].name);
                }
            }
            lemma_diff_members_distinct(xs, ys, p, q, f, cs, i + 1, j + 1);
            lemma_diff_members_name(xs, ys, p, q, f, cs, i + 1, j + 1, y.name);
            lemma_named_from_step(xs, p, i, x.name, true);
            lemma_named_from_step(ys, q, j, y.name, true);
            if !json_equal(x.value, y.value, cs, f) {
                let h = JMember { name: y.name, value: merge_diff(x.value, y.value, cs, f) };
                lemma_distinct_prepend(h, rest, true);
            }
        } else if lex_lt(x.name, y.name) {
            let h = JMember { name: x.name, value: JValue::Null };
            let rest = merge_diff_members(xs, ys, p, q, cs, f, i + 1, j);
            assert forall|a: int, b: int| 0 <= a < i + 1 && j <= b < q.len() implies xs[#[trigger] p[a] as int].name
                != ys[#[trigger] q[b] as int].name by {
                if a == i {
                    if b == j {
                        lemma_lt_differs(x.name, y.name);
                    } else {
                        assert(lex_lt(ys[q[j] as int].name, ys[q[b] as int].name));
                        lemma_lex_transitive(x.name, y.name, ys[q[b] as int].name);
                        lemma_lt_differs(x.name, ys[q[b] as int].name);
                    }
                }
            }
            lemma_diff_members_distinct(xs, ys, p, q, f, cs, i + 1, j);
            lemma_diff_members_name(xs, ys, p, q, f, cs, i + 1, j, x.name);
            lemma_named_from_step(xs, p, i, x.name, true);
            lemma_named_from_below(ys, q, j, x.name, true);
            lemma_distinct_prepend(h, rest, true);
        } else {
            lemma_lex_total(x.name, y.name);
            let rest = merge_diff_members(xs, ys, p, q, cs, f, i, j + 1);
            assert forall|a: int, b: int| i <= a < p.len() && 0 <= b < j + 1 implies xs[#[trigger] p[a] as int].name
                != ys[#[trigger] q[b] as int].name by {
                if b == j {
                    if a == i {
                        lemma_lt_differs(y.name, x.name);
                    } else {
                        assert(lex_lt(xs[p[i] as int].name, xs[p[a] as int].name));
                        lemma_lex_transitive(y.name, x.name, xs[p[a] as int].name);
                        lemma_lt_differs(y.name, xs[p[a] as int].name);
                    }
                }
            }
            lemma_diff_members_distinct(xs, ys, p, q, f, cs, i, j + 1);
            lemma_diff_members_name(xs, ys, p, q, f, cs, i, j + 1, y.name);
            lemma_named_from_step(ys, q, j, y.name, true);
            lemma_named_from_below(xs, p, i, y.name, true);
            lemma_distinct_prepend(y, rest, true);
        }
    }
}

/// Every object reached from `v` through object members alone has members
/// with distinct names and, unless `nulls`, no `null` member values.
pub open spec fn plain_objects<N>(v: JValue<N>, nulls: bool) -> bool
    decreases v, 0nat,
{
    match v {
        JValue::Object(ms) => distinct_names(ms, true) && plain_members(ms, nulls, ms.len()),
        _ => true,
    }
}

/// The first `n` member values of `ms` satisfy `plain_objects` and, unless
/// `nulls`, are not `null`.
pub open spec fn plain_members<N>(ms: Seq<JMember<N>>, nulls: bool, n: nat) -> bool
    decreases ms, n,
{
    if n == 0 {
        true
    } else if n > ms.len() {
        false
    } else {
        &&& plain_members(ms, nulls, (n - 1) as nat)
        &&& nulls || !(ms[n - 1].value is Null)
        &&& plain_objects(ms[n - 1].value, nulls)
    }
}

/// `plain_members` member by member.
proof fn lemma_plain_members<N>(ms: Seq<JMember<N>>, nulls: bool, n: nat, k: int)
    requires
        plain_members(ms, nulls, n),
        0 <= k < n,
    ensures
        nulls || !(ms[k].value is Null),
        plain_objects(ms[k].value, nulls),
    decreases n,
{
    if k < n - 1 {
        lemma_plain_members(ms, nulls, (n - 1) as nat, k);
    }
}

/// A generated merge patch, merged back, restores its target: with names
/// matched exactly, merging the patch that `generate_merge_patch` makes from
/// `from` to `to` into `from` (as `merge_patch` does) gives a value that
/// `compare` finds equal to `to`. This holds when every object reached from
/// either value through object members has members with distinct names,
/// none of those in `to` is `null`, `to` holds no invalid node, and
/// `numbers_equal` finds every number equal to itself.
pub proof fn law_merge_patch_round_trip<N, F: Fn(N, N) -> bool>(from: Value<N>, to: Value<N>, numbers_equal: F)
    requires
        forall|a: N| #[trigger] numbers_match(numbers_equal, a, a),
        plain_objects(from@, true),
        plain_objects(to@, false),
        !holds_invalid(to@),
    ensures
        json_equal(merged(from@, merge_diff(from@, to@, true, numbers_equal), true), to@, true, numbers_equal),
    decreases to,
{
    let f = numbers_equal;
    match to {
        Value::Object(yms) => {
            lemma_object_view(yms);
            let ys = members_view(yms@);
            assert(ys.len() == yms.len());
            assert(plain_objects(JValue::Object(ys), false));
            assert forall|k: int| 0 <= k < ys.len() implies !(ys[k].value is Null) && #[trigger] plain_objects(
                ys[k].value,
                false,
            ) by {
                lemma_plain_members(ys, false, ys.len(), k);
            }
            match from {
                Value::Object(xms) => {
                    lemma_object_view(xms);
                    let xs = members_view(xms@);
                    assert(xs.len() == xms.len());
                    assert(plain_objects(JValue::Object(xs), true));
                    assert forall|k: int| 0 <= k < xs.len() implies #[trigger] plain_objects(xs[k].value, true) by {
                        lemma_plain_members(xs, true, xs.len(), k);
                    }
                    let p = member_order(xs, true);
                    let q = member_order(ys, true);
                    lemma_member_order_walk(xs, true);
                    lemma_member_order_walk(ys, true);
                    let d = merge_diff_members(xs, ys, p, q, true, f, 0, 0);
                    lemma_diff_members_distinct(xs, ys, p, q, f, true, 0, 0);
                    let r = merge_members(xs, d, true, d.len());
                    assert(merged(from@, merge_diff(from@, to@, true, f), true) == JValue::Object(r));
                    lemma_merge_members_distinct(xs, d, true, d.len());
                    assert(d.take(d.len() as int) =~= d);
                    assert forall|nm: Seq<char>|
                        #![trigger has_name(r, nm, true)]
                        #![trigger has_name(ys, nm, true)]
                        has_name(r, nm, true) == has_name(ys, nm, true) && (has_name(ys, nm, true) ==> json_equal(
                            value_named(r, nm, true),
                            value_named(ys, nm, true),
                            true,
                            f,
                        )) by {
                        lemma_walk_names(xs, nm, true);
                        lemma_walk_names(ys, nm, true);
                        lemma_diff_members_name(xs, ys, p, q, f, true, 0, 0, nm);
                        lemma_merge_members_name(xs, d, d.len(), nm);
                        lemma_has_name_found(xs, nm, true);
                        lemma_has_name_found(ys, nm, true);
                        if has_name(ys, nm, true) {
                            let k = first_match(ys, nm, true)->0;
                            assert(ys[k] == yms@[k]@);
                            assert(plain_objects(ys[k].value, false));
                            if holds_invalid(ys[k].value) {
                                lemma_members_hold_invalid(ys, ys.len(), k);
                            }
                            assert(decreases_to!(to => yms@[k].value));
                            if has_name(xs, nm, true) {
                                let i = first_match(xs, nm, true)->0;
                                assert(xs[i] == xms@[i]@);
                                assert(plain_objects(xs[i].value, true));
                                if !json_equal(xs[i].value, ys[k].value, true, f) {
                                    law_merge_patch_round_trip(xms@[i].value, yms@[k].value, f);
                                }
                            } else {
                                law_merge_patch_round_trip(Value::<N>::Invalid, yms@[k].value, f);
                            }
                        }
                    }
                    lemma_object_equal_by_names(r, ys, true, f);
                },
                _ => {
                    let none = Seq::<JMember<N>>::empty();
                    let r = merge_members(none, ys, true, ys.len());
                    assert(merged(from@, merge_diff(from@, to@, true, f), true) == JValue::Object(r));
                    lemma_merge_members_distinct(none, ys, true, ys.len());
                    assert(ys.take(ys.len() as int) =~= ys);
                    assert forall|nm: Seq<char>|
                        #![trigger has_name(r, nm, true)]
                        #![trigger has_name(ys, nm, true)]
                        has_name(r, nm, true) == has_name(ys, nm, true) && (has_name(ys, nm, true) ==> json_equal(
                            value_named(r, nm, true),
                            value_named(ys, nm, true),
                            true,
                            f,
                        )) by {
                        lemma_merge_members_name(none, ys, ys.len(), nm);
                        lemma_no_name(none, nm, true);
                        lemma_has_name_found(ys, nm, true);
                        if has_name(ys, nm, true) {
                            let k = first_match(ys, nm, true)->0;
                            assert(ys[k] == yms@[k]@);
                            assert(plain_objects(ys[k].value, false));
                            if holds_invalid(ys[k].value) {
                                lemma_members_hold_invalid(ys, ys.len(), k);
                            }
                            assert(decreases_to!(to => yms@[k].value));
                            law_merge_patch_round_trip(Value::<N>::Invalid, yms@[k].value, f);
                        }
                    }
                    lemma_object_equal_by_names(r, ys, true, f);
                },
            }
        },
        _ => {
            law_compare_reflexive(to, true, f);
        },
    }
}

/// Merging an object patch into an object whose member names are distinct
/// (names matched as `case_sensitive` says) keeps them distinct: a patch
/// member whose name matches a member of the target, exactly or ignoring
/// ASCII case as the flag says, merges into that member instead of adding a
/// second one.
pub proof fn law_merge_keeps_names_distinct<N>(tms: Seq<JMember<N>>, pms: Seq<JMember<N>>, case_sensitive: bool)
    requires
        distinct_names(tms, case_sensitive),
    ensures
        merged(JValue::Object(tms), JValue::Object(pms), case_sensitive) matches JValue::Object(r) && distinct_names(
            r,
            case_sensitive,
        ),
{
    lemma_merge_members_distinct(tms, pms, case_sensitive, pms.len());
}

proof fn lemma_merge_in_place<N>(tms: Seq<JMember<N>>, pms: Seq<JMember<N>>, cs: bool, n: nat)
    requires
        n <= pms.len(),
        forall|k: int| 0 <= k < pms.len() ==> !((#[trigger] pms[k]).value is Null) && has_name(tms, pms[k].name, cs),
    ensures
        merge_members(tms, pms, cs, n).len() == tms.len(),
        forall|i: int| 0 <= i < tms.len() ==> (#[trigger] merge_members(tms, pms, cs, n)[i]).name == tms[i].name,
    decreases n,
{
    if n > 0 {
        let m = (n - 1) as nat;
        lemma_merge_in_place(tms, pms, cs, m);
        let prev = merge_members(tms, pms, cs, m);
        let pm = pms[m as int];
        assert(!(pm.value is Null) && has_name(tms, pm.name, cs));
        let w = choose|i: int| 0 <= i < tms.len() && names_match((#[trigger] tms[i]).name, pm.name, cs);
        assert(prev[w].name == tms[w].name);
        assert(has_name(prev, pm.name, cs));
        lemma_has_name_found(prev, pm.name, cs);
        let i = first_match(prev, pm.name, cs)->0;
        let r = merge_members(tms, pms, cs, n);
        assert(r == prev.update(i, JMember { name: prev[i].name, value: merged(prev[i].value, pm.value, cs) }));
        assert forall|t: int| 0 <= t < tms.len() implies (#[trigger] merge_members(tms, pms, cs, n)[t]).name
            == tms[t].name by {
            assert(r[t].name == prev[t].name);
        }
    }
}

/// A patch whose members all carry values other than `null` and all name a
/// member the target has (names matched as `case_sensitive` says: exactly,
/// or ignoring ASCII case) adds no member: the result has as many members
/// as the target, under the target's names and in its order.
pub proof fn law_merge_updates_in_place<N>(tms: Seq<JMember<N>>, pms: Seq<JMember<N>>, case_sensitive: bool)
    requires
        forall|k: int|
            0 <= k < pms.len() ==> !((#[trigger] pms[k]).value is Null) && has_name(tms, pms[k].name, case_sensitive),
    ensures
        merged(JValue::Object(tms), JValue::Object(pms), case_sensitive) matches JValue::Object(r) && r.len()
            == tms.len() && forall|i: int| 0 <= i < r.len() ==> (#[trigger] r[i]).name == tms[i].name,
{
    lemma_merge_in_place(tms, pms, case_sensitive, pms.len());
}

/// The generated merge patch names exactly the members that differ, for
/// either case flag: a name both documents hold is in the patch only when
/// `compare` finds their values different, and a name only one of them
/// holds is always in it. This holds where each document's names are
/// distinct and ordering them as the flag says orders them exactly too (as
/// when no name holds a capital letter), since the patch is made by walking
/// both documents in that order.
pub proof fn law_merge_patch_names_the_differences<N, F: Fn(N, N) -> bool>(
    xs: Seq<JMember<N>>,
    ys: Seq<JMember<N>>,
    case_sensitive: bool,
    f: F,
    nm: Seq<char>,
)
    requires
        distinct_names(xs, true),
        distinct_names(ys, true),
        xs.len() <= usize::MAX,
        ys.len() <= usize::MAX,
        member_order(xs, case_sensitive) == member_order(xs, true),
        member_order(ys, case_sensitive) == member_order(ys, true),
    ensures
        merge_diff(JValue::Object(xs), JValue::Object(ys), case_sensitive, f) matches JValue::Object(d) && has_name(
            d,
            nm,
            true,
        ) == ((has_name(xs, nm, true) || has_name(ys, nm, true)) && !(has_name(xs, nm, true) && has_name(ys, nm, true)
            && json_equal(value_named(xs, nm, true), value_named(ys, nm, true), case_sensitive, f))),
{
    let p = member_order(xs, true);
    let q = member_order(ys, true);
    lemma_member_order_walk(xs, true);
    lemma_member_order_walk(ys, true);
    lemma_walk_names(xs, nm, true);
    lemma_walk_names(ys, nm, true);
    assert(aligned(xs, ys, p, q, 0, 0, true));
    lemma_diff_members_name(xs, ys, p, q, f, case_sensitive, 0, 0, nm);
}

} // verus!

