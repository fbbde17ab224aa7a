//! JSON Merge Patch: applying a merge
//! patch, and generating one that turns one document into another.
use vstd::prelude::*;
use crate::text::{chars_equal, chars_less, chars_of, lex_lt};
use crate::value::{
    JMember, JValue, Member, Value, compare, decides_numbers, duplicate, find_member, first_match, json_equal,
    lemma_first_match, lemma_object_view, member_order, members_view, remove_named, sorted_member_order,
    without_name,
};

verus! {

/// `patch` merged into `target`: a patch that is not an object replaces the
/// target; an object patch is applied member by member to the target's
/// members (none if the target is not an object).
pub open spec fn merged<N>(target: JValue<N>, patch: JValue<N>, case_sensitive: bool) -> JValue<N>
    decreases patch, 0nat,
{
    match patch {
        JValue::Object(pms) => JValue::Object(
            merge_members(
                match target {
                    JValue::Object(tms) => tms,
                    _ => Seq::empty(),
                },
                pms,
                case_sensitive,
                pms.len(),
            ),
        ),
        _ => patch,
    }
}

/// The first `n` patch members applied in order to `tms`: a `null` removes
/// every member of that name; any other value is merged into the first
/// member of that name, or appended under the patch member's name.
pub open spec fn merge_members<N>(tms: Seq<JMember<N>>, pms: Seq<JMember<N>>, case_sensitive: bool, n: nat) -> Seq<JMember<N>>
    decreases pms, n,
{
    if n == 0 || n > pms.len() {
        tms
    } else {
        let ms = merge_members(tms, pms, case_sensitive, (n - 1) as nat);
        let pm = pms[n - 1];
        if pm.value is Null {
            without_name(ms, pm.name, case_sensitive)
        } else {
            match first_match(ms, pm.name, case_sensitive) {
                Some(i) => ms.update(
                    i,
                    JMember { name: ms[i].name, value: merged(ms[i].value, pm.value, case_sensitive) },
                ),
                None => ms.push(
                    JMember { name: pm.name, value: merged(JValue::Invalid, pm.value, case_sensitive) },
                ),
            }
        }
    }
}

/// Applies a merge patch to a copy of `target`.
#[verifier::loop_isolation(false)]
pub fn merge_patch<N: Copy>(target: &Value<N>, patch: &Value<N>, case_sensitive: bool) -> (r: Value<N>)
    ensures
        r@ == merged(target@, patch@, case_sensitive),
    decreases patch,
{
    match patch {
        Value::Object(pms) => {
            proof {
                lemma_object_view(*pms);
            }
            let ghost pv = members_view(pms@);
            let copy = duplicate(target, true);
            let mut members: Vec<Member<N>> = match copy {
                Value::Object(ms) => {
                    proof {
                        lemma_object_view(ms);
                    }
                    ms
                },
                _ => Vec::new(),
            };
            let ghost tv = members_view(members@);
            assert(tv == match target@ {
                JValue::Object(tms) => tms,
                _ => Seq::empty(),
            });
            let mut k: usize = 0;
            while k < pms.len()
                invariant
                    k <= pms@.len(),
                    pv == members_view(pms@),
                    members_view(members@) == merge_members(tv, pv, case_sensitive, k as nat),
                decreases pms@.len() - k,
            {
                let ghost before = members_view(members@);
                assert(pv[k as int] == pms@[k as int]@);
                let pm = &pms[k];
                if pm.value.is_null() {
                    remove_named(&mut members, pm.name.as_str(), case_sensitive);
                } else {
                    let found = find_member(&members, pm.name.as_str(), case_sensitive);
                    proof {
                        lemma_first_match(before, pm.name@, case_sensitive);
                    }
                    assert(decreases_to!(patch => pms@[k as int].value));
                    match found {
                        Some(idx) => {
                            assert(before[idx as int] == members@[idx as int]@);
                            let replacement = merge_patch(&members[idx].value, &pm.value, case_sensitive);
                            members[idx].value = replacement;
                            assert(members_view(members@) =~= before.update(
                                idx as int,
                                JMember {
                                    name: before[idx as int].name,
                                    value: merged(before[idx as int].value, pv[k as int].value, case_sensitive),
                                },
                            ));
                        },
                        None => {
                            let invalid: Value<N> = Value::Invalid;
                            let replacement = merge_patch(&invalid, &pm.value, case_sensitive);
                            members.push(Member { name: pm.name.clone(), value: replacement });
                            assert(members_view(members@) =~= before.push(
                                JMember {
                                    name: pv[k as int].name,
                                    value: merged(JValue::Invalid, pv[k as int].value, case_sensitive),
                                },
                            ));
                        },
                    }
                }
                k += 1;
            }
            proof {
                lemma_object_view(members);
            }
            Value::Object(members)
        },
        _ => duplicate(patch, true),
    }
}

/// [`merge_patch`] with member names matched exactly.
pub fn merge_patch_case_sensitive<N: Copy>(target: &Value<N>, patch: &Value<N>) -> (r: Value<N>)
    ensures
        r@ == merged(target@, patch@, true),
{
    merge_patch(target, patch, true)
}

/// The merge patch that turns `from` into `to`: `to` itself unless both are
/// objects; for two objects, their members walked in name order (see
/// `merge_diff_members`).
pub open spec fn merge_diff<N, F: Fn(N, N) -> bool>(from: JValue<N>, to: JValue<N>, case_sensitive: bool, f: F) -> JValue<N>
    decreases to, 0nat,
{
    match to {
        JValue::Object(ys) => match from {
            JValue::Object(xs) => JValue::Object(
                merge_diff_members(
                    xs,
                    ys,
                    member_order(xs, case_sensitive),
                    member_order(ys, case_sensitive),
                    case_sensitive,
                    f,
                    0,
                    0,
                ),
            ),
            _ => to,
        },
        _ => to,
    }
}

/// The merge patch members for two member lists, walked in the orders `p`
/// and `q` from positions `i` and `j`, the names compared exactly: a name
/// only `from` has becomes `null`, a name only `to` has carries its value,
/// and a name both have gives a nested merge patch where the values are not
/// `json_equal`.
pub open spec fn merge_diff_members<N, F: Fn(N, N) -> bool>(
    xs: Seq<JMember<N>>,
    ys: Seq<JMember<N>>,
    p: Seq<usize>,
    q: Seq<usize>,
    case_sensitive: bool,
    f: F,
    i: int,
    j: int,
) -> Seq<JMember<N>>
    decreases ys, (p.len() - i) + (q.len() - j),
{
    if i < 0 || j < 0 || i > p.len() || j > q.len() || (i == p.len() && j == q.len()) {
        Seq::empty()
    } else if i == p.len() {
        if q[j] >= ys.len() {
            Seq::empty()
        } else {
            seq![ys[q[j] as int]] + merge_diff_members(xs, ys, p, q, case_sensitive, f, i, j + 1)
        }
    } else if j == q.len() {
        if p[i] >= xs.len() {
            Seq::empty()
        } else {
            seq![JMember { name: xs[p[i] as int].name, value: JValue::Null }] + merge_diff_members(
                xs,
                ys,
                p,
                q,
                case_sensitive,
                f,
                i + 1,
                j,
            )
        }
    } else if p[i] >= xs.len() || q[j] >= ys.len() {
        Seq::empty()
    } else {
        let x = xs[p[i] as int];
        let y = ys[q[j] as int];
        if x.name == y.name {
            if json_equal(x.value, y.value, case_sensitive, f) {
                merge_diff_members(xs, ys, p, q, case_sensitive, f, i + 1, j + 1)
            } else {
                seq![JMember { name: y.name, value: merge_diff(x.value, y.value, case_sensitive, f) }]
                    + merge_diff_members(xs, ys, p, q, case_sensitive, f, i + 1, j + 1)
            }
        } else if lex_lt(x.name, y.name) {
            seq![JMember { name: x.name, value: JValue::Null }] + merge_diff_members(
                xs,
                ys,
                p,
                q,
                case_sensitive,
                f,
                i + 1,
                j,
            )
        } else {
            seq![y] + merge_diff_members(xs, ys, p, q, case_sensitive, f, i, j + 1)
        }
    }
}

/// The merge patch that turns `from` into `to`. `numbers_equal` decides
/// whether two numbers are the same.
#[verifier::loop_isolation(false)]
#[verifier::rlimit(40)]
pub fn generate_merge_patch<N: Copy, F: Fn(N, N) -> bool>(from: &Value<N>, to: &Value<N>, case_sensitive: bool, numbers_equal: &F) -> (r: Value<N>)
    requires
        decides_numbers(*numbers_equal),
    ensures
        r@ == merge_diff(from@, to@, case_sensitive, *numbers_equal),
    decreases to,
{
    let ghost f = *numbers_equal;
    match to {
        Value::Object(ys) => match from {
            Value::Object(xs) => {
                proof {
                    lemma_object_view(*xs);
                    lemma_object_view(*ys);
                }
                let ghost xv = members_view(xs@);
                let ghost yv = members_view(ys@);
                let p = sorted_member_order(xs, case_sensitive);
                let q = sorted_member_order(ys, case_sensitive);
                let ghost whole = merge_diff_members(xv, yv, p@, q@, case_sensitive, f, 0, 0);
                let mut out: Vec<Member<N>> = Vec::new();
                let mut i: usize = 0;
                let mut j: usize = 0;
                assert(whole =~= members_view(out@) + whole);
                while i < p.len() || j < q.len()
                    invariant
                        i <= p@.len(),
                        j <= q@.len(),
                        p@.len() == xs@.len(),
                        q@.len() == ys@.len(),
                        forall|t: int| 0 <= t < xs@.len() ==> #[trigger] p@[t] < xs@.len(),
                        forall|t: int| 0 <= t < ys@.len() ==> #[trigger] q@[t] < ys@.len(),
                        whole == members_view(out@) + merge_diff_members(xv, yv, p@, q@, case_sensitive, f, i as int, j as int),
                    decreases (p@.len() - i) + (q@.len() - j),
                {
                    let ghost before = members_view(out@);
                    if i == p.len() {
                        let qj = q[j];
                        assert(q@[j as int] < ys@.len());
                        assert(yv[qj as int] == ys@[qj as int]@);
                        let v = duplicate(&ys[qj].value, true);
                        out.push(Member { name: ys[qj].name.clone(), value: v });
                        j += 1;
                        assert(before + merge_diff_members(xv, yv, p@, q@, case_sensitive, f, i as int, (j - 1) as int)
                            =~= members_view(out@) + merge_diff_members(xv, yv, p@, q@, case_sensitive, f, i as int, j as int));
                    } else if j == q.len() {
                        let pi = p[i];
                        assert(p@[i as int] < xs@.len());
                        assert(xv[pi as int] == xs@[pi as int]@);
                        out.push(Member { name: xs[pi].name.clone(), value: Value::Null });
                        i += 1;
                        assert(before + merge_diff_members(xv, yv, p@, q@, case_sensitive, f, (i - 1) as int, j as int)
                            =~= members_view(out@) + merge_diff_members(xv, yv, p@, q@, case_sensitive, f, i as int, j as int));
                    } else {
                        let pi = p[i];
                        let qj = q[j];
                        assert(p@[i as int] < xs@.len());
                        assert(q@[j as int] < ys@.len());
                        assert(xv[pi as int] == xs@[pi as int]@);
                        assert(yv[qj as int] == ys@[qj as int]@);
                        let nx = chars_of(xs[pi].name.as_str());
                        let ny = chars_of(ys[qj].name.as_str());
                        if chars_equal(&nx, &ny) {
                            let same = compare(&xs[pi].value, &ys[qj].value, case_sensitive, numbers_equal);
                            if !same {
                                assert(decreases_to!(to => ys@[qj as int].value));
                                let nested = generate_merge_patch(&xs[pi].value, &ys[qj].value, case_sensitive, numbers_equal);
                                out.push(Member { name: ys[qj].name.clone(), value: nested });
                            }
                            i += 1;
                            j += 1;
                            assert(before + merge_diff_members(xv, yv, p@, q@, case_sensitive, f, (i - 1) as int, (j - 1) as int)
                                =~= members_view(out@) + merge_diff_members(xv, yv, p@, q@, case_sensitive, f, i as int, j as int));
                        } else if chars_less(&nx, &ny) {
                            out.push(Member { name: xs[pi].name.clone(), value: Value::Null });
                            i += 1;
                            assert(before + merge_diff_members(xv, yv, p@, q@, case_sensitive, f, (i - 1) as int, j as int)
                                =~= members_view(out@) + merge_diff_members(xv, yv, p@, q@, case_sensitive, f, i as int, j as int));
                        } else {
                            let v = duplicate(&ys[qj].value, true);
                            out.push(Member { name: ys[qj].name.clone(), value: v });
                            j += 1;
                            assert(before + merge_diff_members(xv, yv, p@, q@, case_sensitive, f, i as int, (j - 1) as int)
                                =~= members_view(out@) + merge_diff_members(xv, yv, p@, q@, case_sensitive, f, i as int, j as int));
                        }
                    }
                }
                assert(members_view(out@) + Seq::<JMember<N>>::empty() =~= members_view(out@));
                proof {
                    lemma_object_view(out);
                }
                Value::Object(out)
            },
            _ => duplicate(to, true),
        },
        _ => duplicate(to, true),
    }
}

/// [`generate_merge_patch`] with member names ordered exactly.
pub fn generate_merge_patch_case_sensitive<N: Copy, F: Fn(N, N) -> bool>(from: &Value<N>, to: &Value<N>, numbers_equal: &F) -> (r: Value<N>)
    requires
        decides_numbers(*numbers_equal),
    ensures
        r@ == merge_diff(from@, to@, true, *numbers_equal),
{
    generate_merge_patch(from, to, true, numbers_equal)
}

} // verus!
