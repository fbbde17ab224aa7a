//! The stable ordering of object members by name, used wherever the library
//! visits members "sorted by name".
use vstd::prelude::*;
use crate::text::{
    chars_less, key_chars, law_prefix_sorts_first, lemma_lex_asymmetric, lemma_lex_irreflexive, lemma_lex_transitive, lex_lt, sort_key,
};
use crate::value::{JMember, JValue, Value, lemma_object_view, member_keys, member_order, members_view};

verus! {

/// Where index `j` joins an already ordered list `order` in a stable
/// insertion: in front of the first entry whose key is greater than the key
/// of `j`, so after every entry whose key is not greater.
pub open spec fn insert_position(order: Seq<usize>, keys: Seq<Seq<char>>, j: int, k: int) -> int
    decreases order.len() - k,
{
    if k >= order.len() {
        order.len() as int
    } else if lex_lt(keys[j], keys[order[k] as int]) {
        k
    } else {
        insert_position(order, keys, j, k + 1)
    }
}

/// The indices `0..n` ordered by `keys`, equal keys keeping their first
/// order (a stable sort).
pub open spec fn stable_order_n(keys: Seq<Seq<char>>, n: nat) -> Seq<usize>
    decreases n,
{
    if n == 0 {
        Seq::empty()
    } else {
        let prev = stable_order_n(keys, (n - 1) as nat);
        prev.insert(insert_position(prev, keys, n - 1, 0), (n - 1) as usize)
    }
}

/// All indices of `keys`, stably ordered by key.
pub open spec fn stable_order(keys: Seq<Seq<char>>) -> Seq<usize> {
    stable_order_n(keys, keys.len())
}

proof fn lemma_insert_position_bounds(order: Seq<usize>, keys: Seq<Seq<char>>, j: int, k: int)
    requires
        0 <= k <= order.len(),
    ensures
        k <= insert_position(order, keys, j, k) <= order.len(),
    decreases order.len() - k,
{
    if k < order.len() && !lex_lt(keys[j], keys[order[k] as int]) {
        lemma_insert_position_bounds(order, keys, j, k + 1);
    }
}

/// The ordering is a permutation of `0..n`: it has `n` entries, each below
/// `n`, no two equal.
pub proof fn lemma_stable_order_n_permutes(keys: Seq<Seq<char>>, n: nat)
    requires
        n <= usize::MAX,
    ensures
        stable_order_n(keys, n).len() == n,
        forall|k: int| 0 <= k < n ==> #[trigger] stable_order_n(keys, n)[k] < n,
        forall|a: int, b: int|
            0 <= a < n && 0 <= b < n && a != b ==> #[trigger] stable_order_n(keys, n)[a]
                != #[trigger] stable_order_n(keys, n)[b],
        forall|i: int| 0 <= i < n ==> #[trigger] stable_order_n(keys, n).contains(i as usize),
    decreases n,
{
    if n > 0 {
        let prev = stable_order_n(keys, (n - 1) as nat);
        lemma_stable_order_n_permutes(keys, (n - 1) as nat);
        let p = insert_position(prev, keys, n - 1, 0);
        lemma_insert_position_bounds(prev, keys, n - 1, 0);
        let cur = prev.insert(p, (n - 1) as usize);
        assert(cur == stable_order_n(keys, n));
        assert forall|k: int| 0 <= k < n implies #[trigger] cur[k] < n by {
            if k < p {
                assert(cur[k] == prev[k]);
            } else if k > p {
                assert(cur[k] == prev[k - 1]);
            }
        }
        assert forall|a: int, b: int| 0 <= a < n && 0 <= b < n && a != b implies #[trigger] cur[a]
            != #[trigger] cur[b] by {
            if a != p && b != p {
                let ia = if a < p { a } else { a - 1 };
                let ib = if b < p { b } else { b - 1 };
                assert(cur[a] == prev[ia]);
                assert(cur[b] == prev[ib]);
            } else if a == p {
                let ib = if b < p { b } else { b - 1 };
                assert(cur[b] == prev[ib]);
            } else {
                let ia = if a < p { a } else { a - 1 };
                assert(cur[a] == prev[ia]);
            }
        }
        assert forall|i: int| 0 <= i < n implies #[trigger] cur.contains(i as usize) by {
            if i == n - 1 {
                assert(cur[p] == i as usize);
            } else {
                assert(prev.contains(i as usize));
                let w = choose|w: int| 0 <= w < prev.len() && prev[w] == i as usize;
                if w < p {
                    assert(cur[w] == i as usize);
                } else {
                    assert(cur[w + 1] == i as usize);
                }
            }
        }
    }
}

pub proof fn lemma_stable_order_permutes(keys: Seq<Seq<char>>)
    requires
        keys.len() <= usize::MAX,
    ensures
        stable_order(keys).len() == keys.len(),
        forall|k: int| 0 <= k < keys.len() ==> #[trigger] stable_order(keys)[k] < keys.len(),
        forall|a: int, b: int|
            0 <= a < keys.len() && 0 <= b < keys.len() && a != b ==> #[trigger] stable_order(keys)[a]
                != #[trigger] stable_order(keys)[b],
        forall|i: int| 0 <= i < keys.len() ==> #[trigger] stable_order(keys).contains(i as usize),
{
    lemma_stable_order_n_permutes(keys, keys.len());
}

/// The stable ordering of `keys`, computed by insertion.
pub fn stable_order_of(keys: &Vec<Vec<char>>) -> (r: Vec<usize>)
    ensures
        r@ == stable_order(keys@.map_values(|v: Vec<char>| v@)),
{
    let ghost dv = keys@.map_values(|v: Vec<char>| v@);
    let mut order: Vec<usize> = Vec::new();
    let mut j: usize = 0;
    while j < keys.len()
        invariant
            j <= keys.len(),
            dv == keys@.map_values(|v: Vec<char>| v@),
            dv.len() == keys.len(),
            order@ == stable_order_n(dv, j as nat),
        decreases keys.len() - j,
    {
        proof {
            lemma_stable_order_n_permutes(dv, j as nat);
        }
        let mut k: usize = 0;
        while k < order.len() && !chars_less(&keys[j], &keys[order[k]])
            invariant
                j < keys.len(),
                dv == keys@.map_values(|v: Vec<char>| v@),
                dv.len() == keys.len(),
                order@ == stable_order_n(dv, j as nat),
                order@.len() == j,
                forall|t: int| 0 <= t < j ==> #[trigger] order@[t] < j,
                k <= order.len(),
                insert_position(order@, dv, j as int, 0) == insert_position(order@, dv, j as int, k as int),
            decreases order.len() - k,
        {
            assert(keys@[j as int]@ == dv[j as int]);
            assert(order@[k as int] < j);
            assert(keys@[order@[k as int] as int]@ == dv[order@[k as int] as int]);
            k += 1;
        }
        proof {
            if k < order.len() {
                assert(keys@[j as int]@ == dv[j as int]);
                assert(order@[k as int] < j);
                assert(keys@[order@[k as int] as int]@ == dv[order@[k as int] as int]);
            }
        }
        order.insert(k, j);
        j += 1;
    }
    order
}


/// The members of an object ordered by name, equal names keeping their
/// order.
pub open spec fn sorted_members<N>(ms: Seq<JMember<N>>, case_sensitive: bool) -> Seq<JMember<N>> {
    member_order(ms, case_sensitive).map_values(|k: usize| ms[k as int])
}

/// Orders an object's members by name (stably); other values are left
/// alone. Names are
/// compared exactly or by their lower-case forms.
pub fn sort_object<N>(value: &mut Value<N>, case_sensitive: bool)
    ensures
        match old(value)@ {
            JValue::Object(ms) => final(value)@ == JValue::Object(sorted_members(ms, case_sensitive)),
            _ => final(value)@ == old(value)@,
        },
{
    match value {
        Value::Object(members) => {
            proof {
                lemma_object_view(*members);
            }
            let ghost ms = members_view(members@);
            let ghost keys = member_keys(ms, case_sensitive);
            let n = members.len();
            let mut j: usize = 0;
            assert(members_view(members@).take(0) =~= stable_order_n(keys, 0).map_values(|k: usize| ms[k as int]));
            assert(members_view(members@).skip(0) =~= ms.skip(0));
            while j < n
                invariant
                    j <= n,
                    n == ms.len(),
                    members@.len() == n,
                    keys == member_keys(ms, case_sensitive),
                    members_view(members@).take(j as int) == stable_order_n(keys, j as nat).map_values(
                        |k: usize| ms[k as int],
                    ),
                    members_view(members@).skip(j as int) == ms.skip(j as int),
                decreases n - j,
            {
                let ghost order = stable_order_n(keys, j as nat);
                let ghost cur = members_view(members@);
                proof {
                    lemma_stable_order_n_permutes(keys, j as nat);
                    assert(cur[j as int] == cur.skip(j as int)[0]);
                    assert(cur[j as int] == ms[j as int]);
                }
                assert(members@[j as int]@ == cur[j as int]);
                let kj = key_chars(members[j].name.as_str(), case_sensitive);
                assert(kj@ == keys[j as int]);
                let mut k: usize = 0;
                loop
                    invariant
                        k <= j < n,
                        n == ms.len(),
                        members@.len() == n,
                        cur == members_view(members@),
                        order.len() == j,
                        forall|t: int| 0 <= t < j ==> #[trigger] order[t] < j,
                        cur.take(j as int) == order.map_values(|x: usize| ms[x as int]),
                        keys == member_keys(ms, case_sensitive),
                        kj@ == keys[j as int],
                        insert_position(order, keys, j as int, 0) == insert_position(order, keys, j as int, k as int),
                    ensures
                        k <= j,
                        insert_position(order, keys, j as int, 0) == k,
                    decreases j - k,
                {
                    if k == j {
                        break;
                    }
                    assert(cur.take(j as int)[k as int] == cur[k as int]);
                    assert(members@[k as int]@ == cur[k as int]);
                    assert(cur[k as int] == ms[order[k as int] as int]);
                    assert(order[k as int] < j);
                    assert(keys[order[k as int] as int] == sort_key(ms[order[k as int] as int].name, case_sensitive));
                    let kk = key_chars(members[k].name.as_str(), case_sensitive);
                    assert(kk@ == keys[order[k as int] as int]);
                    if chars_less(&kj, &kk) {
                        break;
                    }
                    k += 1;
                }
                proof {
                    lemma_insert_position_bounds(order, keys, j as int, k as int);
                }
                let m = members.remove(j);
                members.insert(k, m);
                proof {
                    let nv = members_view(members@);
                    let norder = order.insert(k as int, j);
                    assert(norder == stable_order_n(keys, (j + 1) as nat));
                    assert forall|t: int| 0 <= t < j + 1 implies #[trigger] nv[t] == norder.map_values(
                        |x: usize| ms[x as int],
                    )[t] by {
                        if t < k {
                            assert(nv[t] == cur[t]);
                            assert(cur.take(j as int)[t] == cur[t]);
                        } else if t == k {
                            assert(nv[t] == ms[j as int]);
                        } else {
                            assert(nv[t] == cur[t - 1]);
                            assert(cur.take(j as int)[t - 1] == cur[t - 1]);
                        }
                    }
                    assert(nv.take(j + 1) =~= norder.map_values(|x: usize| ms[x as int]));
                    assert forall|t: int| 0 <= t < n - (j + 1) implies #[trigger] nv.skip(j + 1)[t] == ms.skip(j + 1)[t] by {
                        assert(nv[j + 1 + t] == cur[j + 1 + t]);
                        assert(cur.skip(j as int)[t + 1] == cur[j + 1 + t]);
                    }
                    assert(nv.skip(j + 1) =~= ms.skip(j + 1));
                }
                j += 1;
            }
            proof {
                lemma_object_view(*members);
                assert(members_view(members@) =~= members_view(members@).take(n as int));
            }
        },
        _ => {},
    }
}

/// [`sort_object`] with names compared exactly.
pub fn sort_object_case_sensitive<N>(value: &mut Value<N>)
    ensures
        match old(value)@ {
            JValue::Object(ms) => final(value)@ == JValue::Object(sorted_members(ms, true)),
            _ => final(value)@ == old(value)@,
        },
{
    sort_object(value, true)
}


/// The keys of the indices in `order` never go down.
pub open spec fn ordered_by(order: Seq<usize>, keys: Seq<Seq<char>>) -> bool {
    forall|a: int, b: int|
        0 <= a < b < order.len() ==> !lex_lt(#[trigger] keys[order[b] as int], #[trigger] keys[order[a] as int])
}

/// Indices with equal keys keep their relative order.
pub open spec fn stable_by(order: Seq<usize>, keys: Seq<Seq<char>>) -> bool {
    forall|a: int, b: int|
        0 <= a < b < order.len() && #[trigger] keys[order[a] as int] == #[trigger] keys[order[b] as int] ==> order[a]
            < order[b]
}

proof fn lemma_insert_position_props(order: Seq<usize>, keys: Seq<Seq<char>>, j: int, k: int)
    requires
        0 <= k <= order.len(),
    ensures
        k <= insert_position(order, keys, j, k) <= order.len(),
        forall|t: int|
            k <= t < insert_position(order, keys, j, k) ==> !lex_lt(keys[j], #[trigger] keys[order[t] as int]),
        insert_position(order, keys, j, k) < order.len() ==> lex_lt(
            keys[j],
            keys[order[insert_position(order, keys, j, k)] as int],
        ),
    decreases order.len() - k,
{
    if k < order.len() && !lex_lt(keys[j], keys[order[k] as int]) {
        lemma_insert_position_props(order, keys, j, k + 1);
    }
}

/// The stable ordering of the first `n` keys is ordered and stable.
pub proof fn lemma_stable_order_n_sorted(keys: Seq<Seq<char>>, n: nat)
    requires
        n <= usize::MAX,
        n <= keys.len(),
    ensures
        ordered_by(stable_order_n(keys, n), keys),
        stable_by(stable_order_n(keys, n), keys),
    decreases n,
{
    if n > 0 {
        let j = n - 1;
        let prev = stable_order_n(keys, (n - 1) as nat);
        lemma_stable_order_n_sorted(keys, (n - 1) as nat);
        lemma_stable_order_n_permutes(keys, (n - 1) as nat);
        let p = insert_position(prev, keys, j, 0);
        lemma_insert_position_props(prev, keys, j, 0);
        let cur = prev.insert(p, j as usize);
        assert(cur == stable_order_n(keys, n));
        assert(cur[p] == j);
        assert forall|a: int, b: int| 0 <= a < b < cur.len() implies !lex_lt(
            #[trigger] keys[cur[b] as int],
            #[trigger] keys[cur[a] as int],
        ) && (keys[cur[a] as int] == keys[cur[b] as int] ==> cur[a] < cur[b]) by {
            if b < p {
                assert(cur[a] == prev[a] && cur[b] == prev[b]);
            } else if b == p {
                assert(cur[a] == prev[a]);
                assert(prev[a] < j);
            } else if a < p {
                assert(cur[a] == prev[a] && cur[b] == prev[b - 1]);
            } else if a == p {
                let x = keys[j];
                let y = keys[prev[b - 1] as int];
                let z = keys[prev[p] as int];
                assert(cur[b] == prev[b - 1]);
                assert(lex_lt(x, z));
                if b - 1 > p {
                    assert(!lex_lt(y, z));
                    if lex_lt(y, x) {
                        lemma_lex_transitive(y, x, z);
                    }
                    if x == y {
                        assert(lex_lt(y, z));
                    }
                } else {
                    lemma_lex_asymmetric(x, z);
                    if x == y {
                        lemma_lex_irreflexive(x);
                    }
                }
            } else {
                assert(cur[a] == prev[a - 1] && cur[b] == prev[b - 1]);
            }
        }
    }
}

/// Ordering an object's members by name is a stable sort: the result holds
/// the same members, each once (at the positions `member_order` lists), in
/// non-decreasing order of their names (or of their lower-case forms), and
/// members whose names compare equal keep their first order.
pub proof fn law_sort_object_is_stable_sort<N>(ms: Seq<JMember<N>>, case_sensitive: bool)
    requires
        ms.len() <= usize::MAX,
    ensures
        ({
            let r = sorted_members(ms, case_sensitive);
            let p = member_order(ms, case_sensitive);
            &&& r.len() == ms.len()
            &&& p.len() == ms.len()
            &&& forall|k: int| 0 <= k < ms.len() ==> #[trigger] p[k] < ms.len() && r[k] == ms[p[k] as int]
            &&& forall|a: int, b: int| 0 <= a < b < ms.len() ==> #[trigger] p[a] != #[trigger] p[b]
            &&& forall|a: int, b: int|
                0 <= a < b < r.len() ==> !lex_lt(
                    sort_key(#[trigger] r[b].name, case_sensitive),
                    sort_key(#[trigger] r[a].name, case_sensitive),
                )
            &&& forall|a: int, b: int|
                0 <= a < b < r.len() && sort_key(#[trigger] r[a].name, case_sensitive) == sort_key(
                    #[trigger] r[b].name,
                    case_sensitive,
                ) ==> p[a] < p[b]
        }),
{
    let keys = member_keys(ms, case_sensitive);
    let r = sorted_members(ms, case_sensitive);
    let p = member_order(ms, case_sensitive);
    lemma_stable_order_permutes(keys);
    lemma_stable_order_n_sorted(keys, keys.len());
    assert forall|a: int, b: int| 0 <= a < b < r.len() implies !lex_lt(
        sort_key(#[trigger] r[b].name, case_sensitive),
        sort_key(#[trigger] r[a].name, case_sensitive),
    ) && (sort_key(r[a].name, case_sensitive) == sort_key(r[b].name, case_sensitive) ==> p[a] < p[b]) by {
        assert(keys[p[a] as int] == sort_key(ms[p[a] as int].name, case_sensitive));
        assert(keys[p[b] as int] == sort_key(ms[p[b] as int].name, case_sensitive));
    }
}

/// In an object ordered by name, a member whose name (or its lower-case
/// form, ignoring ASCII case) is a proper prefix of another's comes first,
/// as `str::cmp` orders text: `{"ab":1,"a":2}` sorts to `{"a":2,"ab":1}`.
pub proof fn law_sorted_prefix_first<N>(ms: Seq<JMember<N>>, case_sensitive: bool)
    requires
        ms.len() <= usize::MAX,
    ensures
        ({
            let r = sorted_members(ms, case_sensitive);
            forall|a: int, b: int|
                0 <= a < b < r.len() ==> {
                    let ka = sort_key(#[trigger] r[a].name, case_sensitive);
                    let kb = sort_key(#[trigger] r[b].name, case_sensitive);
                    !(kb.len() < ka.len() && ka.take(kb.len() as int) == kb)
                }
        }),
{
    let r = sorted_members(ms, case_sensitive);
    law_sort_object_is_stable_sort(ms, case_sensitive);
    assert forall|a: int, b: int| 0 <= a < b < r.len() implies ({
        let ka = sort_key(#[trigger] r[a].name, case_sensitive);
        let kb = sort_key(#[trigger] r[b].name, case_sensitive);
        !(kb.len() < ka.len() && ka.take(kb.len() as int) == kb)
    }) by {
        let ka = sort_key(r[a].name, case_sensitive);
        let kb = sort_key(r[b].name, case_sensitive);
        if kb.len() < ka.len() && ka.take(kb.len() as int) == kb {
            law_prefix_sorts_first(kb, ka);
        }
    }
}

} // verus!
