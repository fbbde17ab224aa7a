//! Members looked up by name (exactly, or ignoring case), and walks over
//! member lists in strictly increasing order of their names' sort keys.
use vstd::prelude::*;
use crate::order::{lemma_stable_order_n_sorted, lemma_stable_order_permutes};
use crate::text::{lemma_lex_irreflexive, lemma_lex_total, lemma_lex_transitive, lex_lt, names_match, sort_key};
use crate::value::{
    JMember, JValue, first_match, json_equal, lemma_first_match, lemma_members_equal_pointwise, member_keys, member_order,
    without_name,
};

verus! {

/// Some member of `ms` has a name that matches `name`.
pub open spec fn has_name<N>(ms: Seq<JMember<N>>, name: Seq<char>, case_sensitive: bool) -> bool {
    exists|i: int| 0 <= i < ms.len() && names_match((#[trigger] ms[i]).name, name, case_sensitive)
}

/// No two members of `ms` have matching names.
pub open spec fn distinct_names<N>(ms: Seq<JMember<N>>, case_sensitive: bool) -> bool {
    forall|i: int, j: int|
        0 <= i < ms.len() && 0 <= j < ms.len() && i != j ==> !names_match(
            (#[trigger] ms[i]).name,
            (#[trigger] ms[j]).name,
            case_sensitive,
        )
}

/// The value of the first member whose name matches `name`; `Invalid` when
/// there is none.
pub open spec fn value_named<N>(ms: Seq<JMember<N>>, name: Seq<char>, case_sensitive: bool) -> JValue<N> {
    match first_match(ms, name, case_sensitive) {
        Some(i) => ms[i].value,
        None => JValue::Invalid,
    }
}

/// Names match exactly when their sort keys are equal.
pub proof fn lemma_match_keys(a: Seq<char>, b: Seq<char>, case_sensitive: bool)
    ensures
        names_match(a, b, case_sensitive) == (sort_key(a, case_sensitive) == sort_key(b, case_sensitive)),
{
}

/// `i` is the first index of a member whose name matches `name`.
pub proof fn lemma_first_at<N>(ms: Seq<JMember<N>>, name: Seq<char>, cs: bool, i: int)
    requires
        0 <= i < ms.len(),
        names_match(ms[i].name, name, cs),
        forall|j: int| 0 <= j < i ==> !names_match((#[trigger] ms[j]).name, name, cs),
    ensures
        first_match(ms, name, cs) == Some(i),
        has_name(ms, name, cs),
        value_named(ms, name, cs) == ms[i].value,
{
    lemma_first_match(ms, name, cs);
    assert(names_match(ms[i].name, name, cs));
    match first_match(ms, name, cs) {
        Some(k) => {
            if k < i {
                assert(!names_match(ms[k].name, name, cs));
            }
            if i < k {
                assert(names_match(ms[i].name, name, cs));
            }
        },
        None => {
            assert(names_match(ms[i].name, name, cs));
        },
    }
}

/// Without a member of that name, there is no first one.
pub proof fn lemma_no_name<N>(ms: Seq<JMember<N>>, name: Seq<char>, cs: bool)
    requires
        !has_name(ms, name, cs),
    ensures
        first_match(ms, name, cs) is None,
        value_named(ms, name, cs) == JValue::<N>::Invalid,
{
    lemma_first_match(ms, name, cs);
    if let Some(k) = first_match(ms, name, cs) {
        assert(names_match(ms[k].name, name, cs));
    }
}

/// A name is found exactly when some member's name matches it.
pub proof fn lemma_has_name_found<N>(ms: Seq<JMember<N>>, name: Seq<char>, cs: bool)
    ensures
        has_name(ms, name, cs) <==> first_match(ms, name, cs) is Some,
        has_name(ms, name, cs) ==> {
            let i = first_match(ms, name, cs)->0;
            &&& 0 <= i < ms.len()
            &&& names_match(ms[i].name, name, cs)
            &&& value_named(ms, name, cs) == ms[i].value
            &&& forall|j: int| 0 <= j < i ==> !names_match((#[trigger] ms[j]).name, name, cs)
        },
{
    lemma_first_match(ms, name, cs);
    if let Some(k) = first_match(ms, name, cs) {
        assert(names_match(ms[k].name, name, cs));
    }
}

/// Matching names are looked up alike.
pub proof fn lemma_named_alike<N>(ms: Seq<JMember<N>>, a: Seq<char>, b: Seq<char>, cs: bool)
    requires
        names_match(a, b, cs),
    ensures
        first_match(ms, a, cs) == first_match(ms, b, cs),
        has_name(ms, a, cs) == has_name(ms, b, cs),
        value_named(ms, a, cs) == value_named(ms, b, cs),
{
    lemma_has_name_found(ms, a, cs);
    lemma_has_name_found(ms, b, cs);
    if has_name(ms, a, cs) {
        let i = first_match(ms, a, cs)->0;
        assert forall|j: int| 0 <= j < i implies !names_match((#[trigger] ms[j]).name, b, cs) by {
            assert(!names_match(ms[j].name, a, cs));
        }
        lemma_first_at(ms, b, cs, i);
    } else {
        if has_name(ms, b, cs) {
            let k = choose|k: int| 0 <= k < ms.len() && names_match((#[trigger] ms[k]).name, b, cs);
            assert(names_match(ms[k].name, a, cs));
        }
        lemma_no_name(ms, b, cs);
    }
}

/// In a list with distinct names, the member at `i` is the one found under
/// its name, and under every name that matches it.
pub proof fn lemma_value_at<N>(ms: Seq<JMember<N>>, cs: bool, i: int)
    requires
        distinct_names(ms, cs),
        0 <= i < ms.len(),
    ensures
        has_name(ms, ms[i].name, cs),
        value_named(ms, ms[i].name, cs) == ms[i].value,
        first_match(ms, ms[i].name, cs) == Some(i),
{
    assert forall|j: int| 0 <= j < i implies !names_match((#[trigger] ms[j]).name, ms[i].name, cs) by {}
    lemma_first_at(ms, ms[i].name, cs, i);
}

/// Looking a name up after a member is appended.
pub proof fn lemma_named_push<N>(s: Seq<JMember<N>>, x: JMember<N>, b: Seq<char>, cs: bool)
    ensures
        has_name(s.push(x), b, cs) == (has_name(s, b, cs) || names_match(x.name, b, cs)),
        value_named(s.push(x), b, cs) == if has_name(s, b, cs) {
            value_named(s, b, cs)
        } else if names_match(x.name, b, cs) {
            x.value
        } else {
            JValue::Invalid
        },
{
    let t = s.push(x);
    lemma_has_name_found(s, b, cs);
    lemma_has_name_found(t, b, cs);
    if has_name(s, b, cs) {
        let i = first_match(s, b, cs)->0;
        assert(t[i] == s[i]);
        assert forall|j: int| 0 <= j < i implies !names_match((#[trigger] t[j]).name, b, cs) by {
            assert(t[j] == s[j]);
        }
        lemma_first_at(t, b, cs, i);
    } else if names_match(x.name, b, cs) {
        assert(t[s.len() as int] == x);
        assert forall|j: int| 0 <= j < s.len() implies !names_match((#[trigger] t[j]).name, b, cs) by {
            assert(t[j] == s[j]);
            if names_match(s[j].name, b, cs) {
                assert(has_name(s, b, cs));
            }
        }
        lemma_first_at(t, b, cs, s.len() as int);
    } else {
        if has_name(t, b, cs) {
            let k = choose|k: int| 0 <= k < t.len() && names_match((#[trigger] t[k]).name, b, cs);
            if k < s.len() {
                assert(t[k] == s[k]);
                assert(has_name(s, b, cs));
            }
        }
        lemma_no_name(t, b, cs);
    }
}

/// Looking a name up after a member is put in front.
pub proof fn lemma_named_prepend<N>(h: JMember<N>, s: Seq<JMember<N>>, b: Seq<char>, cs: bool)
    ensures
        has_name(seq![h] + s, b, cs) == (names_match(h.name, b, cs) || has_name(s, b, cs)),
        value_named(seq![h] + s, b, cs) == if names_match(h.name, b, cs) {
            h.value
        } else {
            value_named(s, b, cs)
        },
{
    let t = seq![h] + s;
    assert(t[0] == h);
    assert forall|k: int| 0 <= k < s.len() implies #[trigger] t[k + 1] == s[k] by {}
    if names_match(h.name, b, cs) {
        lemma_first_at(t, b, cs, 0);
    } else {
        lemma_has_name_found(s, b, cs);
        if has_name(s, b, cs) {
            let i = first_match(s, b, cs)->0;
            assert(t[i + 1] == s[i]);
            assert forall|j: int| 0 <= j < i + 1 implies !names_match((#[trigger] t[j]).name, b, cs) by {
                if j > 0 {
                    assert(t[(j - 1) + 1] == s[j - 1]);
                }
            }
            lemma_first_at(t, b, cs, i + 1);
        } else {
            if has_name(t, b, cs) {
                let k = choose|k: int| 0 <= k < t.len() && names_match((#[trigger] t[k]).name, b, cs);
                assert(k > 0);
                assert(t[(k - 1) + 1] == s[k - 1]);
                assert(has_name(s, b, cs));
            }
            lemma_no_name(t, b, cs);
        }
    }
}

/// Looking a name up after the value of the member at `i` is replaced.
pub proof fn lemma_named_update<N>(s: Seq<JMember<N>>, i: int, v: JValue<N>, b: Seq<char>, cs: bool)
    requires
        0 <= i < s.len(),
        first_match(s, s[i].name, cs) == Some(i),
    ensures
        has_name(s.update(i, JMember { name: s[i].name, value: v }), b, cs) == has_name(s, b, cs),
        value_named(s.update(i, JMember { name: s[i].name, value: v }), b, cs) == if names_match(b, s[i].name, cs) {
            v
        } else {
            value_named(s, b, cs)
        },
{
    let t = s.update(i, JMember { name: s[i].name, value: v });
    assert forall|k: int| 0 <= k < s.len() implies (#[trigger] t[k]).name == s[k].name by {}
    lemma_has_name_found(s, b, cs);
    lemma_first_match(s, s[i].name, cs);
    if has_name(s, b, cs) {
        let w = first_match(s, b, cs)->0;
        assert(t[w].name == s[w].name);
        assert forall|j: int| 0 <= j < w implies !names_match((#[trigger] t[j]).name, b, cs) by {
            assert(t[j].name == s[j].name);
        }
        lemma_first_at(t, b, cs, w);
        if names_match(b, s[i].name, cs) {
            lemma_named_alike(s, b, s[i].name, cs);
            assert(w == i);
        } else {
            assert(w != i);
            assert(t[w] == s[w]);
        }
    } else {
        if has_name(t, b, cs) {
            let k = choose|k: int| 0 <= k < t.len() && names_match((#[trigger] t[k]).name, b, cs);
            assert(t[k].name == s[k].name);
            assert(has_name(s, b, cs));
        }
        lemma_no_name(t, b, cs);
        if names_match(b, s[i].name, cs) {
            assert(names_match(s[i].name, b, cs));
            assert(has_name(s, b, cs));
        }
    }
}

/// Looking a name up after every member matching `a` is removed.
pub proof fn lemma_named_without<N>(ms: Seq<JMember<N>>, a: Seq<char>, b: Seq<char>, cs: bool)
    ensures
        has_name(without_name(ms, a, cs), b, cs) == (!names_match(b, a, cs) && has_name(ms, b, cs)),
        !names_match(b, a, cs) ==> value_named(without_name(ms, a, cs), b, cs) == value_named(ms, b, cs),
    decreases ms.len(),
{
    if ms.len() == 0 {
        lemma_no_name(without_name(ms, a, cs), b, cs);
        lemma_no_name(ms, b, cs);
    } else {
        let init = ms.drop_last();
        let x = ms.last();
        let rest = without_name(init, a, cs);
        lemma_named_without(init, a, b, cs);
        assert(ms =~= init.push(x));
        lemma_named_push(init, x, b, cs);
        if names_match(x.name, a, cs) {
            assert(without_name(ms, a, cs) == rest);
        } else {
            assert(without_name(ms, a, cs) == rest.push(x));
            lemma_named_push(rest, x, b, cs);
        }
    }
}

/// Removing members keeps names distinct.
pub proof fn lemma_distinct_without<N>(ms: Seq<JMember<N>>, a: Seq<char>, cs: bool)
    requires
        distinct_names(ms, cs),
    ensures
        distinct_names(without_name(ms, a, cs), cs),
    decreases ms.len(),
{
    if ms.len() > 0 {
        let init = ms.drop_last();
        let x = ms.last();
        let rest = without_name(init, a, cs);
        assert forall|i: int, j: int| 0 <= i < init.len() && 0 <= j < init.len() && i != j implies !names_match(
            (#[trigger] init[i]).name,
            (#[trigger] init[j]).name,
            cs,
        ) by {
            assert(init[i] == ms[i] && init[j] == ms[j]);
        }
        lemma_distinct_without(init, a, cs);
        if !names_match(x.name, a, cs) {
            lemma_named_without(init, a, x.name, cs);
            if has_name(init, x.name, cs) {
                let k = choose|k: int| 0 <= k < init.len() && names_match((#[trigger] init[k]).name, x.name, cs);
                assert(ms[k] == init[k]);
                assert(ms[ms.len() - 1] == x);
            }
            lemma_distinct_push(rest, x, cs);
        }
    }
}

/// Appending a member under a new name keeps names distinct.
pub proof fn lemma_distinct_push<N>(s: Seq<JMember<N>>, x: JMember<N>, cs: bool)
    requires
        distinct_names(s, cs),
        !has_name(s, x.name, cs),
    ensures
        distinct_names(s.push(x), cs),
{
    let t = s.push(x);
    assert forall|i: int, j: int| 0 <= i < t.len() && 0 <= j < t.len() && i != j implies !names_match(
        (#[trigger] t[i]).name,
        (#[trigger] t[j]).name,
        cs,
    ) by {
        if i < s.len() && j < s.len() {
            assert(t[i] == s[i] && t[j] == s[j]);
        } else if i < s.len() {
            assert(t[i] == s[i]);
            if names_match(s[i].name, x.name, cs) {
                assert(has_name(s, x.name, cs));
            }
        } else {
            assert(t[j] == s[j]);
            if names_match(s[j].name, x.name, cs) {
                assert(has_name(s, x.name, cs));
            }
        }
    }
}

/// Putting a member under a new name in front keeps names distinct.
pub proof fn lemma_distinct_prepend<N>(h: JMember<N>, s: Seq<JMember<N>>, cs: bool)
    requires
        distinct_names(s, cs),
        !has_name(s, h.name, cs),
    ensures
        distinct_names(seq![h] + s, cs),
{
    let t = seq![h] + s;
    assert(t[0] == h);
    assert forall|i: int, j: int| 0 <= i < t.len() && 0 <= j < t.len() && i != j implies !names_match(
        (#[trigger] t[i]).name,
        (#[trigger] t[j]).name,
        cs,
    ) by {
        if i > 0 && j > 0 {
            assert(t[i] == s[i - 1] && t[j] == s[j - 1]);
        } else if i > 0 {
            assert(t[i] == s[i - 1]);
            if names_match(s[i - 1].name, h.name, cs) {
                assert(has_name(s, h.name, cs));
            }
        } else {
            assert(t[j] == s[j - 1]);
            if names_match(s[j - 1].name, h.name, cs) {
                assert(has_name(s, h.name, cs));
            }
        }
    }
}

/// Looking up a name that does not match the member at `k` after that
/// member is removed.
pub proof fn lemma_named_remove<N>(s: Seq<JMember<N>>, k: int, b: Seq<char>, cs: bool)
    requires
        0 <= k < s.len(),
        !names_match(s[k].name, b, cs),
    ensures
        has_name(s.remove(k), b, cs) == has_name(s, b, cs),
        value_named(s.remove(k), b, cs) == value_named(s, b, cs),
{
    let t = s.remove(k);
    assert forall|w: int| 0 <= w < t.len() implies #[trigger] t[w] == if w < k { s[w] } else { s[w + 1] } by {}
    lemma_has_name_found(s, b, cs);
    if has_name(s, b, cs) {
        let w = first_match(s, b, cs)->0;
        let w2 = if w < k { w } else { w - 1 };
        assert(w != k);
        assert(t[w2] == s[w]);
        assert forall|j: int| 0 <= j < w2 implies !names_match((#[trigger] t[j]).name, b, cs) by {
            if j < k {
                assert(t[j] == s[j]);
            } else {
                assert(t[j] == s[j + 1]);
            }
        }
        lemma_first_at(t, b, cs, w2);
    } else {
        if has_name(t, b, cs) {
            let w = choose|w: int| 0 <= w < t.len() && names_match((#[trigger] t[w]).name, b, cs);
            if w < k {
                assert(t[w] == s[w]);
            } else {
                assert(t[w] == s[w + 1]);
            }
        }
        lemma_no_name(t, b, cs);
    }
}

/// With distinct names, removing the member at `k` leaves none matching its
/// name.
pub proof fn lemma_remove_named<N>(ms: Seq<JMember<N>>, k: int, cs: bool)
    requires
        distinct_names(ms, cs),
        0 <= k < ms.len(),
    ensures
        !has_name(ms.remove(k), ms[k].name, cs),
        distinct_names(ms.remove(k), cs),
{
    let r = ms.remove(k);
    if has_name(r, ms[k].name, cs) {
        let w = choose|w: int| 0 <= w < r.len() && names_match((#[trigger] r[w]).name, ms[k].name, cs);
        if w < k {
            assert(r[w] == ms[w]);
        } else {
            assert(r[w] == ms[w + 1]);
        }
    }
    assert forall|i: int, j: int| 0 <= i < r.len() && 0 <= j < r.len() && i != j implies !names_match(
        (#[trigger] r[i]).name,
        (#[trigger] r[j]).name,
        cs,
    ) by {
        let ii = if i < k { i } else { i + 1 };
        let jj = if j < k { j } else { j + 1 };
        assert(r[i] == ms[ii] && r[j] == ms[jj]);
    }
}

/// Some position from `from` on in `order` holds a member whose name
/// matches `nm`.
pub open spec fn named_from<N>(ms: Seq<JMember<N>>, order: Seq<usize>, from: int, nm: Seq<char>, cs: bool) -> bool {
    exists|a: int| from <= a < order.len() && names_match(ms[#[trigger] order[a] as int].name, nm, cs)
}

/// `order` lists positions of `ms` whose names' sort keys strictly
/// increase.
pub open spec fn walk_sorted<N>(ms: Seq<JMember<N>>, order: Seq<usize>, cs: bool) -> bool {
    &&& forall|a: int| 0 <= a < order.len() ==> #[trigger] order[a] < ms.len()
    &&& forall|a: int, b: int|
        0 <= a < b < order.len() ==> lex_lt(
            sort_key(ms[#[trigger] order[a] as int].name, cs),
            sort_key(ms[#[trigger] order[b] as int].name, cs),
        )
}

/// Walking `xs` in the order `p` from `i` and `ys` in the order `q` from `j`:
/// no name ahead on one side matches one behind on the other.
pub open spec fn aligned<N>(
    xs: Seq<JMember<N>>,
    ys: Seq<JMember<N>>,
    p: Seq<usize>,
    q: Seq<usize>,
    i: int,
    j: int,
    cs: bool,
) -> bool {
    &&& forall|a: int, b: int|
        i <= a < p.len() && 0 <= b < j ==> !names_match(xs[#[trigger] p[a] as int].name, ys[#[trigger] q[b] as int].name, cs)
    &&& forall|a: int, b: int|
        0 <= a < i && j <= b < q.len() ==> !names_match(
            xs[#[trigger] p[a] as int].name,
            ys[#[trigger] q[b] as int].name,
            cs,
        )
}

/// One step along a strictly sorted walk.
pub proof fn lemma_named_from_step<N>(ms: Seq<JMember<N>>, order: Seq<usize>, i: int, nm: Seq<char>, cs: bool)
    requires
        walk_sorted(ms, order, cs),
        0 <= i < order.len(),
    ensures
        named_from(ms, order, i, nm, cs) == (names_match(ms[order[i] as int].name, nm, cs) || named_from(
            ms,
            order,
            i + 1,
            nm,
            cs,
        )),
        !named_from(ms, order, i + 1, ms[order[i] as int].name, cs),
{
    let here = ms[order[i] as int].name;
    if named_from(ms, order, i + 1, here, cs) {
        let a = choose|a: int| i + 1 <= a < order.len() && names_match(ms[#[trigger] order[a] as int].name, here, cs);
        assert(lex_lt(sort_key(here, cs), sort_key(ms[order[a] as int].name, cs)));
        lemma_match_keys(ms[order[a] as int].name, here, cs);
        lemma_lex_irreflexive(sort_key(here, cs));
    }
    if names_match(here, nm, cs) {
        assert(order[i] == order[i]);
    }
}

/// A name whose key is below the one at `i` is nowhere from `i` on.
pub proof fn lemma_named_from_below<N>(ms: Seq<JMember<N>>, order: Seq<usize>, i: int, nm: Seq<char>, cs: bool)
    requires
        walk_sorted(ms, order, cs),
        0 <= i < order.len(),
        lex_lt(sort_key(nm, cs), sort_key(ms[order[i] as int].name, cs)),
    ensures
        !named_from(ms, order, i, nm, cs),
{
    let k = sort_key(nm, cs);
    if named_from(ms, order, i, nm, cs) {
        let a = choose|a: int| i <= a < order.len() && names_match(ms[#[trigger] order[a] as int].name, nm, cs);
        lemma_match_keys(ms[order[a] as int].name, nm, cs);
        if a == i {
            lemma_lex_irreflexive(k);
        } else {
            assert(lex_lt(sort_key(ms[order[i] as int].name, cs), sort_key(ms[order[a] as int].name, cs)));
            lemma_lex_transitive(k, sort_key(ms[order[i] as int].name, cs), k);
            lemma_lex_irreflexive(k);
        }
    }
}

/// Two keys in order differ.
pub proof fn lemma_lt_differs(a: Seq<char>, b: Seq<char>)
    requires
        lex_lt(a, b),
    ensures
        a != b,
{
    lemma_lex_irreflexive(a);
}

/// With distinct names, the name order walks the members with strictly
/// increasing keys and visits every one.
pub proof fn lemma_member_order_walk<N>(ms: Seq<JMember<N>>, cs: bool)
    requires
        distinct_names(ms, cs),
        ms.len() <= usize::MAX,
    ensures
        walk_sorted(ms, member_order(ms, cs), cs),
        member_order(ms, cs).len() == ms.len(),
        forall|i: int| 0 <= i < ms.len() ==> #[trigger] member_order(ms, cs).contains(i as usize),
{
    let keys = member_keys(ms, cs);
    let order = member_order(ms, cs);
    lemma_stable_order_permutes(keys);
    lemma_stable_order_n_sorted(keys, keys.len());
    assert forall|a: int, b: int| 0 <= a < b < order.len() implies lex_lt(
        sort_key(ms[#[trigger] order[a] as int].name, cs),
        sort_key(ms[#[trigger] order[b] as int].name, cs),
    ) by {
        let ka = sort_key(ms[order[a] as int].name, cs);
        let kb = sort_key(ms[order[b] as int].name, cs);
        assert(keys[order[a] as int] == ka);
        assert(keys[order[b] as int] == kb);
        assert(order[a] != order[b]);
        lemma_match_keys(ms[order[a] as int].name, ms[order[b] as int].name, cs);
        lemma_lex_total(ka, kb);
    }
}

/// A name is on the walk exactly when some member's name matches it.
pub proof fn lemma_walk_names<N>(ms: Seq<JMember<N>>, nm: Seq<char>, cs: bool)
    requires
        distinct_names(ms, cs),
        ms.len() <= usize::MAX,
    ensures
        named_from(ms, member_order(ms, cs), 0, nm, cs) == has_name(ms, nm, cs),
{
    let order = member_order(ms, cs);
    lemma_member_order_walk(ms, cs);
    if has_name(ms, nm, cs) {
        let i = choose|i: int| 0 <= i < ms.len() && names_match((#[trigger] ms[i]).name, nm, cs);
        assert(order.contains(i as usize));
        let a = choose|a: int| 0 <= a < order.len() && order[a] == i as usize;
        assert(names_match(ms[order[a] as int].name, nm, cs));
    }
    if named_from(ms, order, 0, nm, cs) {
        let a = choose|a: int| 0 <= a < order.len() && names_match(ms[#[trigger] order[a] as int].name, nm, cs);
        assert(names_match(ms[order[a] as int].name, nm, cs));
    }
}

/// Two strictly increasing sequences of keys with the same elements are
/// equal.
pub proof fn lemma_strictly_sorted_unique(a: Seq<Seq<char>>, b: Seq<Seq<char>>)
    requires
        forall|i: int, j: int| 0 <= i < j < a.len() ==> lex_lt(#[trigger] a[i], #[trigger] a[j]),
        forall|i: int, j: int| 0 <= i < j < b.len() ==> lex_lt(#[trigger] b[i], #[trigger] b[j]),
        forall|s: Seq<char>| #[trigger] a.contains(s) <==> #[trigger] b.contains(s),
    ensures
        a == b,
    decreases a.len(),
{
    if a.len() == 0 {
        if b.len() > 0 {
            assert(b.contains(b[0]));
            assert(a.contains(b[0]));
        }
        assert(a =~= b);
    } else if b.len() == 0 {
        assert(a.contains(a[0]));
        assert(b.contains(a[0]));
    } else {
        assert(a.contains(a[0]));
        assert(b.contains(a[0]));
        assert(b.contains(b[0]));
        assert(a.contains(b[0]));
        let k = choose|k: int| 0 <= k < b.len() && b[k] == a[0];
        let m = choose|m: int| 0 <= m < a.len() && a[m] == b[0];
        if a[0] != b[0] {
            assert(k > 0 && m > 0);
            assert(lex_lt(b[0], b[k]));
            assert(lex_lt(a[0], a[m]));
            lemma_lex_transitive(a[0], b[0], a[0]);
            lemma_lex_irreflexive(a[0]);
        }
        let a1 = a.drop_first();
        let b1 = b.drop_first();
        assert forall|s: Seq<char>| #[trigger] a1.contains(s) <==> #[trigger] b1.contains(s) by {
            if a1.contains(s) {
                let i = choose|i: int| 0 <= i < a1.len() && a1[i] == s;
                assert(a[i + 1] == s);
                assert(lex_lt(a[0], a[i + 1]));
                lemma_lt_differs(a[0], s);
                assert(a.contains(s));
                assert(b.contains(s));
                let w = choose|w: int| 0 <= w < b.len() && b[w] == s;
                assert(w != 0);
                assert(b1[w - 1] == s);
            }
            if b1.contains(s) {
                let i = choose|i: int| 0 <= i < b1.len() && b1[i] == s;
                assert(b[i + 1] == s);
                assert(lex_lt(b[0], b[i + 1]));
                lemma_lt_differs(b[0], s);
                assert(b.contains(s));
                assert(a.contains(s));
                let w = choose|w: int| 0 <= w < a.len() && a[w] == s;
                assert(w != 0);
                assert(a1[w - 1] == s);
            }
        }
        lemma_strictly_sorted_unique(a1, b1);
        assert(a =~= seq![a[0]] + a1);
        assert(b =~= seq![b[0]] + b1);
    }
}

/// Two member lists with distinct names, matching names, and under each
/// name `json_equal` values make `json_equal` objects.
pub proof fn lemma_object_equal_by_names<N, F: Fn(N, N) -> bool>(r: Seq<JMember<N>>, ys: Seq<JMember<N>>, cs: bool, f: F)
    requires
        distinct_names(r, cs),
        distinct_names(ys, cs),
        ys.len() <= usize::MAX,
        forall|nm: Seq<char>|
            #![trigger has_name(r, nm, cs)]
            #![trigger has_name(ys, nm, cs)]
            has_name(r, nm, cs) == has_name(ys, nm, cs),
        forall|nm: Seq<char>|
            #[trigger] has_name(ys, nm, cs) ==> json_equal(value_named(r, nm, cs), value_named(ys, nm, cs), cs, f),
    ensures
        json_equal(JValue::Object(r), JValue::Object(ys), cs, f),
{
    let nr = r.map_values(|m: JMember<N>| sort_key(m.name, cs));
    let ny = ys.map_values(|m: JMember<N>| sort_key(m.name, cs));
    assert(nr.no_duplicates()) by {
        assert forall|i: int, j: int| 0 <= i < nr.len() && 0 <= j < nr.len() && i != j implies nr[i] != nr[j] by {
            assert(nr[i] == sort_key(r[i].name, cs) && nr[j] == sort_key(r[j].name, cs));
            lemma_match_keys(r[i].name, r[j].name, cs);
        }
    }
    assert(ny.no_duplicates()) by {
        assert forall|i: int, j: int| 0 <= i < ny.len() && 0 <= j < ny.len() && i != j implies ny[i] != ny[j] by {
            assert(ny[i] == sort_key(ys[i].name, cs) && ny[j] == sort_key(ys[j].name, cs));
            lemma_match_keys(ys[i].name, ys[j].name, cs);
        }
    }
    assert(nr.to_set() =~= ny.to_set()) by {
        assert forall|s: Seq<char>| nr.contains(s) <==> ny.contains(s) by {
            if nr.contains(s) {
                let i = choose|i: int| 0 <= i < nr.len() && nr[i] == s;
                assert(sort_key(r[i].name, cs) == s);
                lemma_match_keys(r[i].name, r[i].name, cs);
                assert(has_name(r, r[i].name, cs));
                assert(has_name(ys, r[i].name, cs));
                let k = choose|k: int| 0 <= k < ys.len() && names_match((#[trigger] ys[k]).name, r[i].name, cs);
                lemma_match_keys(ys[k].name, r[i].name, cs);
                assert(ny[k] == s);
            }
            if ny.contains(s) {
                let i = choose|i: int| 0 <= i < ny.len() && ny[i] == s;
                assert(sort_key(ys[i].name, cs) == s);
                lemma_match_keys(ys[i].name, ys[i].name, cs);
                assert(has_name(ys, ys[i].name, cs));
                assert(has_name(r, ys[i].name, cs));
                let k = choose|k: int| 0 <= k < r.len() && names_match((#[trigger] r[k]).name, ys[i].name, cs);
                lemma_match_keys(r[k].name, ys[i].name, cs);
                assert(nr[k] == s);
            }
        }
    }
    nr.unique_seq_to_set();
    ny.unique_seq_to_set();
    assert(r.len() == ys.len());
    let pr = member_order(r, cs);
    let py = member_order(ys, cs);
    lemma_member_order_walk(r, cs);
    lemma_member_order_walk(ys, cs);
    let sr = Seq::new(r.len(), |k: int| sort_key(r[pr[k] as int].name, cs));
    let sy = Seq::new(ys.len(), |k: int| sort_key(ys[py[k] as int].name, cs));
    assert forall|i: int, j: int| 0 <= i < j < sr.len() implies lex_lt(#[trigger] sr[i], #[trigger] sr[j]) by {
        assert(lex_lt(sort_key(r[pr[i] as int].name, cs), sort_key(r[pr[j] as int].name, cs)));
    }
    assert forall|i: int, j: int| 0 <= i < j < sy.len() implies lex_lt(#[trigger] sy[i], #[trigger] sy[j]) by {
        assert(lex_lt(sort_key(ys[py[i] as int].name, cs), sort_key(ys[py[j] as int].name, cs)));
    }
    assert forall|s: Seq<char>| #[trigger] sr.contains(s) <==> #[trigger] sy.contains(s) by {
        if sr.contains(s) {
            let k = choose|k: int| 0 <= k < sr.len() && sr[k] == s;
            let nm = r[pr[k] as int].name;
            lemma_walk_names(ys, nm, cs);
            lemma_match_keys(nm, nm, cs);
            assert(has_name(r, nm, cs));
            assert(has_name(ys, nm, cs));
            let a = choose|a: int| 0 <= a < py.len() && names_match(ys[#[trigger] py[a] as int].name, nm, cs);
            lemma_match_keys(ys[py[a] as int].name, nm, cs);
            assert(sy[a] == s);
        }
        if sy.contains(s) {
            let k = choose|k: int| 0 <= k < sy.len() && sy[k] == s;
            let nm = ys[py[k] as int].name;
            lemma_walk_names(r, nm, cs);
            lemma_match_keys(nm, nm, cs);
            assert(has_name(ys, nm, cs));
            assert(has_name(r, nm, cs));
            let a = choose|a: int| 0 <= a < pr.len() && names_match(r[#[trigger] pr[a] as int].name, nm, cs);
            lemma_match_keys(r[pr[a] as int].name, nm, cs);
            assert(sr[a] == s);
        }
    }
    lemma_strictly_sorted_unique(sr, sy);
    assert forall|k: int| 0 <= k < r.len() implies #[trigger] pr[k] < r.len() && py[k] < ys.len() by {}
    assert forall|k: int| 0 <= k < r.len() implies names_match(
        r[#[trigger] pr[k] as int].name,
        ys[py[k] as int].name,
        cs,
    ) && json_equal(r[pr[k] as int].value, ys[py[k] as int].value, cs, f) by {
        let a = r[pr[k] as int].name;
        let b = ys[py[k] as int].name;
        assert(sr[k] == sy[k]);
        lemma_match_keys(a, b, cs);
        lemma_value_at(r, cs, pr[k] as int);
        lemma_value_at(ys, cs, py[k] as int);
        lemma_named_alike(ys, a, b, cs);
        assert(has_name(ys, a, cs));
    }
    lemma_members_equal_pointwise(r, ys, pr, py, cs, f, r.len());
}

/// Matching names are on a walk alike.
pub proof fn lemma_named_from_alike<N>(ms: Seq<JMember<N>>, order: Seq<usize>, from: int, a: Seq<char>, b: Seq<char>, cs: bool)
    requires
        names_match(a, b, cs),
    ensures
        named_from(ms, order, from, a, cs) == named_from(ms, order, from, b, cs),
{
    if named_from(ms, order, from, a, cs) {
        let w = choose|w: int| from <= w < order.len() && names_match(ms[#[trigger] order[w] as int].name, a, cs);
        assert(names_match(ms[order[w] as int].name, b, cs));
    }
    if named_from(ms, order, from, b, cs) {
        let w = choose|w: int| from <= w < order.len() && names_match(ms[#[trigger] order[w] as int].name, b, cs);
        assert(names_match(ms[order[w] as int].name, a, cs));
    }
}

/// A name on a walk is a name of the list walked.
pub proof fn lemma_named_from_has<N>(ms: Seq<JMember<N>>, order: Seq<usize>, from: int, nm: Seq<char>, cs: bool)
    requires
        walk_sorted(ms, order, cs),
        0 <= from,
        named_from(ms, order, from, nm, cs),
    ensures
        has_name(ms, nm, cs),
{
    let w = choose|w: int| from <= w < order.len() && names_match(ms[#[trigger] order[w] as int].name, nm, cs);
    assert(order[w] < ms.len());
    assert(names_match(ms[order[w] as int].name, nm, cs));
}

} // verus!
