//! Generating a JSON Patch that turns one document into another.
use vstd::prelude::*;
use crate::pointer::{chars_between, encode_token, push_encoded_name};
use crate::text::{
    chars_equal, chars_less, chars_of, decimal, decimal_text, key_chars, lex_lt, push_decimal, sort_key, string_from_chars,
};
use crate::value::{
    JMember, JValue, Kind, Member, Value, decides_numbers, duplicate, items_view, kind_of, lemma_array_view,
    lemma_object_view, member_order, members_view, numbers_match, sorted_member_order,
};

verus! {

/// One patch operation as a JSON object: `op`, `path` and, where given,
/// `value`, in that order.
pub open spec fn patch_entry<N>(op: Seq<char>, path: Seq<char>, value: Option<JValue<N>>) -> JValue<N> {
    let head = seq![
        JMember { name: "op"@, value: JValue::Str(op) },
        JMember { name: "path"@, value: JValue::Str(path) },
    ];
    JValue::Object(
        match value {
            Some(v) => head.push(JMember { name: "value"@, value: v }),
            None => head,
        },
    )
}

pub open spec fn replace_entry<N>(path: Seq<char>, v: JValue<N>) -> JValue<N> {
    patch_entry("replace"@, path, Some(v))
}

pub open spec fn remove_entry<N>(path: Seq<char>) -> JValue<N> {
    patch_entry("remove"@, path, None)
}

pub open spec fn add_entry<N>(path: Seq<char>, v: JValue<N>) -> JValue<N> {
    patch_entry("add"@, path, Some(v))
}

/// The path of the member `name` below `path`.
pub open spec fn child_path(path: Seq<char>, name: Seq<char>) -> Seq<char> {
    path.push('/') + encode_token(name)
}

/// The path of the element `i` below `path`.
pub open spec fn index_path(path: Seq<char>, i: nat) -> Seq<char> {
    path.push('/') + decimal(i)
}

/// `count` removals of the element at index `at`: each one takes out the
/// element that the previous one moved into that place.
pub open spec fn removals<N>(path: Seq<char>, at: nat, count: nat) -> Seq<JValue<N>> {
    Seq::new(count, |k: int| remove_entry(child_path(path, decimal(at))))
}

/// Appends of the elements `ys[from..from + count]`.
pub open spec fn additions<N>(path: Seq<char>, ys: Seq<JValue<N>>, from: nat, count: nat) -> Seq<JValue<N>> {
    Seq::new(count, |k: int| add_entry(child_path(path, seq!['-']), ys[from + k]))
}

/// The patch operations that turn `from` into `to` below `path`, in this
/// order: a change of kind replaces the value; booleans, numbers (as `f`
/// decides) and strings are replaced when they differ (`true` and `false`
/// count as different kinds); arrays are compared element by element over
/// their common length, then the surplus is removed or the rest appended;
/// objects are walked in name order (see `diff_members`). Two nulls, two raw
/// values or two invalid nodes give nothing.
pub open spec fn diff<N, F: Fn(N, N) -> bool>(path: Seq<char>, from: JValue<N>, to: JValue<N>, case_sensitive: bool, f: F) -> Seq<JValue<N>>
    decreases from, 0nat,
{
    if kind_of(from) != kind_of(to) {
        seq![replace_entry(path, to)]
    } else {
        match from {
            JValue::Bool(a) => match to {
                JValue::Bool(b) => if a == b {
                    Seq::empty()
                } else {
                    seq![replace_entry(path, to)]
                },
                _ => Seq::empty(),
            },
            JValue::Number(a) => match to {
                JValue::Number(b) => if numbers_match(f, a, b) {
                    Seq::empty()
                } else {
                    seq![replace_entry(path, to)]
                },
                _ => Seq::empty(),
            },
            JValue::Str(a) => match to {
                JValue::Str(b) => if a == b {
                    Seq::empty()
                } else {
                    seq![replace_entry(path, to)]
                },
                _ => Seq::empty(),
            },
            JValue::Array(xs) => match to {
                JValue::Array(ys) => {
                    let shared: nat = if xs.len() < ys.len() {
                        xs.len()
                    } else {
                        ys.len()
                    };
                    diff_items(path, xs, ys, case_sensitive, f, shared) + removals(
                        path,
                        shared,
                        (xs.len() - shared) as nat,
                    ) + additions(path, ys, shared, (ys.len() - shared) as nat)
                },
                _ => Seq::empty(),
            },
            JValue::Object(xs) => match to {
                JValue::Object(ys) => diff_members(
                    path,
                    xs,
                    ys,
                    member_order(xs, case_sensitive),
                    member_order(ys, case_sensitive),
                    case_sensitive,
                    f,
                    0,
                    0,
                ),
                _ => Seq::empty(),
            },
            _ => Seq::empty(),
        }
    }
}

/// The operations for the first `n` element pairs of two arrays.
pub open spec fn diff_items<N, F: Fn(N, N) -> bool>(path: Seq<char>, xs: Seq<JValue<N>>, ys: Seq<JValue<N>>, case_sensitive: bool, f: F, n: nat) -> Seq<JValue<N>>
    decreases xs, n,
{
    if n == 0 || n > xs.len() || n > ys.len() {
        Seq::empty()
    } else {
        diff_items(path, xs, ys, case_sensitive, f, (n - 1) as nat) + diff(
            index_path(path, (n - 1) as nat),
            xs[n - 1],
            ys[n - 1],
            case_sensitive,
            f,
        )
    }
}

/// The operations for two objects, walking both member lists in the name
/// orders `p` and `q` from positions `i` and `j`: a name only `from` has is
/// removed, a name only `to` has is added, and a name both have is compared
/// recursively.
pub open spec fn diff_members<N, F: Fn(N, N) -> bool>(
    path: Seq<char>,
    xs: Seq<JMember<N>>,
    ys: Seq<JMember<N>>,
    p: Seq<usize>,
    q: Seq<usize>,
    case_sensitive: bool,
    f: F,
    i: int,
    j: int,
) -> Seq<JValue<N>>
    decreases xs, (p.len() - i) + (q.len() - j),
{
    if i < 0 || j < 0 || i > p.len() || j > q.len() || (i == p.len() && j == q.len()) {
        Seq::empty()
    } else if i == p.len() {
        if q[j] >= ys.len() {
            Seq::empty()
        } else {
            let y = ys[q[j] as int];
            seq![add_entry(child_path(path, y.name), y.value)] + diff_members(
                path,
                xs,
                ys,
                p,
                q,
                case_sensitive,
                f,
                i,
                j + 1,
            )
        }
    } else if j == q.len() {
        if p[i] >= xs.len() {
            Seq::empty()
        } else {
            let x = xs[p[i] as int];
            seq![remove_entry(child_path(path, x.name))] + diff_members(
                path,
                xs,
                ys,
                p,
                q,
                case_sensitive,
                f,
                i + 1,
                j,
            )
        }
    } else if p[i] >= xs.len() || q[j] >= ys.len() {
        Seq::empty()
    } else {
        let x = xs[p[i] as int];
        let y = ys[q[j] as int];
        let kx = sort_key(x.name, case_sensitive);
        let ky = sort_key(y.name, case_sensitive);
        if kx == ky {
            diff(child_path(path, x.name), x.value, y.value, case_sensitive, f) + diff_members(
                path,
                xs,
                ys,
                p,
                q,
                case_sensitive,
                f,
                i + 1,
                j + 1,
            )
        } else if lex_lt(kx, ky) {
            seq![remove_entry(child_path(path, x.name))] + diff_members(
                path,
                xs,
                ys,
                p,
                q,
                case_sensitive,
                f,
                i + 1,
                j,
            )
        } else {
            seq![add_entry(child_path(path, y.name), y.value)] + diff_members(
                path,
                xs,
                ys,
                p,
                q,
                case_sensitive,
                f,
                i,
                j + 1,
            )
        }
    }
}

/// The model of an optional value.
pub open spec fn opt_view<N>(v: Option<&Value<N>>) -> Option<JValue<N>> {
    match v {
        Some(x) => Some(x@),
        None => None,
    }
}

/// Appends one patch operation built from its parts.
fn push_entry<N: Copy>(out: &mut Vec<Value<N>>, op: &str, path: &Vec<char>, value: Option<&Value<N>>)
    ensures
        items_view(final(out)@) == items_view(old(out)@).push(patch_entry(op@, path@, opt_view(value))),
{
    let mut members: Vec<Member<N>> = Vec::new();
    members.push(Member::new("op", Value::string(op)));
    let path_text = string_from_chars(path);
    members.push(Member::new("path", Value::string(path_text.as_str())));
    match value {
        Some(v) => {
            members.push(Member::new("value", duplicate(v, true)));
        },
        None => {},
    }
    let entry = Value::object(members);
    let ghost before = items_view(out@);
    out.push(entry);
    proof {
        let head = seq![
            JMember { name: "op"@, value: JValue::<N>::Str(op@) },
            JMember { name: "path"@, value: JValue::<N>::Str(path@) },
        ];
        match value {
            Some(v) => {
                assert(members_view(members@) =~= head.push(JMember { name: "value"@, value: v@ }));
            },
            None => {
                assert(members_view(members@) =~= head);
            },
        }
        assert(items_view(out@) =~= before.push(patch_entry(op@, path@, opt_view(value))));
    }
}

/// Appends one patch operation to a list of them.
pub fn add_patch_to_array<N: Copy>(out: &mut Vec<Value<N>>, operation: &str, path: &str, value: Option<&Value<N>>)
    ensures
        items_view(final(out)@) == items_view(old(out)@).push(patch_entry(operation@, path@, opt_view(value))),
{
    let p = chars_of(path);
    push_entry(out, operation, &p, value);
}

/// The path of the member `name` below `path`.
fn child_path_of(path: &Vec<char>, name: &str) -> (r: Vec<char>)
    ensures
        r@ == child_path(path@, name@),
{
    let mut out = chars_between(path, 0, path.len());
    assert(out@ =~= path@);
    out.push('/');
    push_encoded_name(&mut out, name);
    out
}

/// The path of element `i` below `path`.
fn index_path_of(path: &Vec<char>, i: usize) -> (r: Vec<char>)
    ensures
        r@ == index_path(path@, i as nat),
{
    let mut out = chars_between(path, 0, path.len());
    assert(out@ =~= path@);
    out.push('/');
    push_decimal(&mut out, i);
    out
}

/// Appends to `out` the operations that turn `from` into `to` below `path`
/// (the walk over both documents).
fn create_patches<N: Copy, F: Fn(N, N) -> bool>(out: &mut Vec<Value<N>>, path: &Vec<char>, from: &Value<N>, to: &Value<N>, case_sensitive: bool, numbers_equal: &F)
    requires
        decides_numbers(*numbers_equal),
    ensures
        items_view(final(out)@) == items_view(old(out)@) + diff(path@, from@, to@, case_sensitive, *numbers_equal),
    decreases from, 0nat,
{
    let ghost start = items_view(out@);
    let ghost f = *numbers_equal;
    if from.kind() != to.kind() {
        push_entry(out, "replace", path, Some(to));
        assert(items_view(out@) =~= start + diff(path@, from@, to@, case_sensitive, f));
        return;
    }
    match from {
        Value::Bool(a) => match to {
            Value::Bool(b) => {
                if *a != *b {
                    push_entry(out, "replace", path, Some(to));
                }
            },
            _ => {},
        },
        Value::Number(a) => match to {
            Value::Number(b) => {
                if !numbers_equal(*a, *b) {
                    push_entry(out, "replace", path, Some(to));
                }
            },
            _ => {},
        },
        Value::String(a) => match to {
            Value::String(b) => {
                if !a.eq(b) {
                    push_entry(out, "replace", path, Some(to));
                }
            },
            _ => {},
        },
        Value::Array(xs) => match to {
            Value::Array(ys) => {
                proof {
                    lemma_array_view(*xs);
                    lemma_array_view(*ys);
                }
                assert(decreases_to!(from => *xs));
                assert(decreases_to!(*xs => xs@));
                create_array_patches(out, path, xs, ys, case_sensitive, numbers_equal);
            },
            _ => {},
        },
        Value::Object(xs) => match to {
            Value::Object(ys) => {
                proof {
                    lemma_object_view(*xs);
                    lemma_object_view(*ys);
                }
                assert(decreases_to!(from => *xs));
                assert(decreases_to!(*xs => xs@));
                create_object_patches(out, path, xs, ys, case_sensitive, numbers_equal);
            },
            _ => {},
        },
        _ => {},
    }
    assert(items_view(out@) =~= start + diff(path@, from@, to@, case_sensitive, f));
}

/// Appends the operations for two arrays: element by element over the
/// common length, then removals of the surplus or appends of the rest.
fn create_array_patches<N: Copy, F: Fn(N, N) -> bool>(out: &mut Vec<Value<N>>, path: &Vec<char>, xs: &Vec<Value<N>>, ys: &Vec<Value<N>>, case_sensitive: bool, numbers_equal: &F)
    requires
        decides_numbers(*numbers_equal),
    ensures
        ({
            let xv = items_view(xs@);
            let yv = items_view(ys@);
            let shared: nat = if xv.len() < yv.len() {
                xv.len()
            } else {
                yv.len()
            };
            items_view(final(out)@) == items_view(old(out)@) + diff_items(path@, xv, yv, case_sensitive, *numbers_equal, shared)
                + removals(path@, shared, (xv.len() - shared) as nat) + additions(path@, yv, shared, (yv.len() - shared) as nat)
        }),
    decreases xs@, 1nat,
{
    let ghost start = items_view(out@);
    let ghost f = *numbers_equal;
    let ghost xv = items_view(xs@);
    let ghost yv = items_view(ys@);
    let shared: usize = if xs.len() < ys.len() {
        xs.len()
    } else {
        ys.len()
    };
    let mut index: usize = 0;
    assert(start + Seq::<JValue<N>>::empty() =~= start);
    while index < shared
        invariant
            index <= shared,
            shared <= xs@.len(),
            shared <= ys@.len(),
            xv == items_view(xs@),
            yv == items_view(ys@),
            f == *numbers_equal,
            decides_numbers(*numbers_equal),
            items_view(out@) == start + diff_items(path@, xv, yv, case_sensitive, f, index as nat),
        decreases shared - index,
    {
        let sub = index_path_of(path, index);
        assert(decreases_to!(xs@ => xs@[index as int]));
        create_patches(out, &sub, &xs[index], &ys[index], case_sensitive, numbers_equal);
        proof {
            assert(xv[index as int] == xs@[index as int]@);
            assert(yv[index as int] == ys@[index as int]@);
            assert(items_view(out@) =~= start + diff_items(path@, xv, yv, case_sensitive, f, (index + 1) as nat));
        }
        index += 1;
    }
    let ghost after_items = items_view(out@);
    let at_text = decimal_text(shared);
    let removal_path = child_path_of(path, at_text.as_str());
    let mut k: usize = shared;
    assert(after_items + removals::<N>(path@, shared as nat, 0) =~= after_items);
    while k < xs.len()
        invariant
            shared <= k <= xs@.len(),
            removal_path@ == child_path(path@, decimal(shared as nat)),
            items_view(out@) == after_items + removals::<N>(path@, shared as nat, (k - shared) as nat),
        decreases xs@.len() - k,
    {
        push_entry(out, "remove", &removal_path, None);
        k += 1;
        assert(items_view(out@) =~= after_items + removals::<N>(path@, shared as nat, (k - shared) as nat));
    }
    let ghost after_removals = items_view(out@);
    let add_path = child_path_of(path, "-");
    proof {
        reveal_strlit("-");
    }
    assert("-"@ =~= seq!['-']);
    let mut k: usize = shared;
    assert(after_removals + additions(path@, yv, shared as nat, 0) =~= after_removals);
    while k < ys.len()
        invariant
            shared <= k <= ys@.len(),
            add_path@ == child_path(path@, seq!['-']),
            yv == items_view(ys@),
            items_view(out@) == after_removals + additions(path@, yv, shared as nat, (k - shared) as nat),
        decreases ys@.len() - k,
    {
        push_entry(out, "add", &add_path, Some(&ys[k]));
        assert(yv[k as int] == ys@[k as int]@);
        k += 1;
        assert(items_view(out@) =~= after_removals + additions(path@, yv, shared as nat, (k - shared) as nat));
    }
    assert(items_view(out@) =~= start + diff_items(path@, xv, yv, case_sensitive, f, shared as nat) + removals(
        path@,
        shared as nat,
        (xv.len() - shared) as nat,
    ) + additions(path@, yv, shared as nat, (yv.len() - shared) as nat));
}

/// Appends the operations for two objects, walking their members in name
/// order.
fn create_object_patches<N: Copy, F: Fn(N, N) -> bool>(out: &mut Vec<Value<N>>, path: &Vec<char>, xs: &Vec<Member<N>>, ys: &Vec<Member<N>>, case_sensitive: bool, numbers_equal: &F)
    requires
        decides_numbers(*numbers_equal),
    ensures
        items_view(final(out)@) == items_view(old(out)@) + diff_members(
            path@,
            members_view(xs@),
            members_view(ys@),
            member_order(members_view(xs@), case_sensitive),
            member_order(members_view(ys@), case_sensitive),
            case_sensitive,
            *numbers_equal,
            0,
            0,
        ),
    decreases xs@, 1nat,
{
    let ghost start = items_view(out@);
    let ghost f = *numbers_equal;
    let ghost xv = members_view(xs@);
    let ghost yv = members_view(ys@);
    let p = sorted_member_order(xs, case_sensitive);
    let q = sorted_member_order(ys, case_sensitive);
    let ghost whole = diff_members(path@, xv, yv, p@, q@, case_sensitive, f, 0, 0);
    let mut i: usize = 0;
    let mut j: usize = 0;
    assert(start + whole =~= items_view(out@) + whole);
    while i < p.len() || j < q.len()
        invariant
            i <= p@.len(),
            j <= q@.len(),
            p@.len() == xs@.len(),
            q@.len() == ys@.len(),
            forall|t: int| 0 <= t < xs@.len() ==> #[trigger] p@[t] < xs@.len(),
            forall|t: int| 0 <= t < ys@.len() ==> #[trigger] q@[t] < ys@.len(),
            xv == members_view(xs@),
            yv == members_view(ys@),
            f == *numbers_equal,
            decides_numbers(*numbers_equal),
            start + whole == items_view(out@) + diff_members(path@, xv, yv, p@, q@, case_sensitive, f, i as int, j as int),
        decreases (p@.len() - i) + (q@.len() - j),
    {
        let ghost before = items_view(out@);
        if i == p.len() {
            let qj = q[j];
            assert(q@[j as int] < ys@.len());
            assert(yv[qj as int] == ys@[qj as int]@);
            let sub = child_path_of(path, ys[qj].name.as_str());
            push_entry(out, "add", &sub, Some(&ys[qj].value));
            j += 1;
            assert(before + diff_members(path@, xv, yv, p@, q@, case_sensitive, f, i as int, (j - 1) as int)
                =~= items_view(out@) + diff_members(path@, xv, yv, p@, q@, case_sensitive, f, i as int, j as int));
        } else if j == q.len() {
            let pi = p[i];
            assert(p@[i as int] < xs@.len());
            assert(xv[pi as int] == xs@[pi as int]@);
            let sub = child_path_of(path, xs[pi].name.as_str());
            push_entry(out, "remove", &sub, None);
            i += 1;
            assert(before + diff_members(path@, xv, yv, p@, q@, case_sensitive, f, (i - 1) as int, j as int)
                =~= items_view(out@) + diff_members(path@, xv, yv, p@, q@, case_sensitive, f, i as int, j as int));
        } else {
            let pi = p[i];
            let qj = q[j];
            assert(p@[i as int] < xs@.len());
            assert(q@[j as int] < ys@.len());
            assert(xv[pi as int] == xs@[pi as int]@);
            assert(yv[qj as int] == ys@[qj as int]@);
            let kx = key_chars(xs[pi].name.as_str(), case_sensitive);
            let ky = key_chars(ys[qj].name.as_str(), case_sensitive);
            if chars_equal(&kx, &ky) {
                let sub = child_path_of(path, xs[pi].name.as_str());
                assert(decreases_to!(xs@ => xs@[pi as int].value));
                create_patches(out, &sub, &xs[pi].value, &ys[qj].value, case_sensitive, numbers_equal);
                i += 1;
                j += 1;
                assert(before + diff_members(path@, xv, yv, p@, q@, case_sensitive, f, (i - 1) as int, (j - 1) as int)
                    =~= items_view(out@) + diff_members(path@, xv, yv, p@, q@, case_sensitive, f, i as int, j as int));
            } else if chars_less(&kx, &ky) {
                let sub = child_path_of(path, xs[pi].name.as_str());
                push_entry(out, "remove", &sub, None);
                i += 1;
                assert(before + diff_members(path@, xv, yv, p@, q@, case_sensitive, f, (i - 1) as int, j as int)
                    =~= items_view(out@) + diff_members(path@, xv, yv, p@, q@, case_sensitive, f, i as int, j as int));
            } else {
                let sub = child_path_of(path, ys[qj].name.as_str());
                push_entry(out, "add", &sub, Some(&ys[qj].value));
                j += 1;
                assert(before + diff_members(path@, xv, yv, p@, q@, case_sensitive, f, i as int, (j - 1) as int)
                    =~= items_view(out@) + diff_members(path@, xv, yv, p@, q@, case_sensitive, f, i as int, j as int));
            }
        }
    }
    assert(items_view(out@) + Seq::<JValue<N>>::empty() =~= items_view(out@));
}

/// The JSON Patch that turns `from` into `to`. `numbers_equal` decides whether
/// two numbers are the same.
pub fn generate_patches<N: Copy, F: Fn(N, N) -> bool>(from: &Value<N>, to: &Value<N>, case_sensitive: bool, numbers_equal: &F) -> (r: Value<N>)
    requires
        decides_numbers(*numbers_equal),
    ensures
        r@ == JValue::Array(diff(Seq::empty(), from@, to@, case_sensitive, *numbers_equal)),
{
    let mut out: Vec<Value<N>> = Vec::new();
    let root: Vec<char> = Vec::new();
    create_patches(&mut out, &root, from, to, case_sensitive, numbers_equal);
    assert(items_view(out@) =~= diff(Seq::empty(), from@, to@, case_sensitive, *numbers_equal));
    Value::array(out)
}

/// [`generate_patches`] with member names matched exactly.
pub fn generate_patches_case_sensitive<N: Copy, F: Fn(N, N) -> bool>(from: &Value<N>, to: &Value<N>, numbers_equal: &F) -> (r: Value<N>)
    requires
        decides_numbers(*numbers_equal),
    ensures
        r@ == JValue::Array(diff(Seq::empty(), from@, to@, true, *numbers_equal)),
{
    generate_patches(from, to, true, numbers_equal)
}

} // verus!
