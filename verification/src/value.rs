//! JSON values: the executable tree, its mathematical model, and the
//! value-level operations (lookup, duplication, structural comparison).
//!
//! Object members keep their order and may repeat a name.
//! A number is held as a value of the caller's number type `N`; the library
//! never inspects it, and every operation that depends on what a number is
//! (reading one from text, printing one, deciding whether two are equal) is
//! handed a function for it by the caller.
use vstd::prelude::*;
use crate::order::{stable_order, stable_order_of, lemma_stable_order_permutes};
use crate::text::{chars_of, key_chars, key_matches, names_match, sort_key};

verus! {

/// The JSON kind of a [`Value`]. `Raw` stands for pre-serialized JSON text
/// supplied by a caller.
#[derive(Clone, Copy, Debug, PartialEq, Eq, Structural)]
pub enum Kind {
    Invalid,
    Null,
    Bool,
    Number,
    String,
    Array,
    Object,
    Raw,
}

/// The mathematical model of a JSON value.
pub enum JValue<N> {
    Invalid,
    Null,
    Bool(bool),
    Number(N),
    Str(Seq<char>),
    Array(Seq<JValue<N>>),
    Object(Seq<JMember<N>>),
    Raw(Seq<char>),
}

/// The model of one object member.
pub struct JMember<N> {
    pub name: Seq<char>,
    pub value: JValue<N>,
}

/// A named value in a JSON object.
#[derive(Debug, PartialEq)]
pub struct Member<N> {
    pub name: String,
    pub value: Value<N>,
}

/// A JSON document tree. Children are owned; there are no parent or sibling
/// links.
#[derive(Debug, PartialEq)]
pub enum Value<N> {
    Invalid,
    Null,
    Bool(bool),
    Number(N),
    String(String),
    Array(Vec<Value<N>>),
    Object(Vec<Member<N>>),
    Raw(String),
}

pub open spec fn view_value<N>(v: Value<N>) -> JValue<N>
    decreases v,
{
    match v {
        Value::Invalid => JValue::Invalid,
        Value::Null => JValue::Null,
        Value::Bool(b) => JValue::Bool(b),
        Value::Number(n) => JValue::Number(n),
        Value::String(s) => JValue::Str(s@),
        Value::Array(items) => JValue::Array(
            Seq::new(
                items@.len(),
                |i: int|
                    if 0 <= i < items@.len() {
                        view_value(items@[i])
                    } else {
                        JValue::Invalid
                    },
            ),
        ),
        Value::Object(ms) => JValue::Object(
            Seq::new(
                ms@.len(),
                |i: int|
                    if 0 <= i < ms@.len() {
                        JMember { name: ms@[i].name@, value: view_value(ms@[i].value) }
                    } else {
                        JMember { name: Seq::empty(), value: JValue::Invalid }
                    },
            ),
        ),
        Value::Raw(s) => JValue::Raw(s@),
    }
}

impl<N> View for Value<N> {
    type V = JValue<N>;

    open spec fn view(&self) -> JValue<N> {
        view_value(*self)
    }
}

impl<N> View for Member<N> {
    type V = JMember<N>;

    open spec fn view(&self) -> JMember<N> {
        JMember { name: self.name@, value: self.value@ }
    }
}

/// The models of a sequence of values.
pub open spec fn items_view<N>(items: Seq<Value<N>>) -> Seq<JValue<N>> {
    items.map_values(|v: Value<N>| v@)
}

/// The models of a sequence of members.
pub open spec fn members_view<N>(ms: Seq<Member<N>>) -> Seq<JMember<N>> {
    ms.map_values(|m: Member<N>| m@)
}

pub proof fn lemma_array_view<N>(items: Vec<Value<N>>)
    ensures
        Value::Array(items)@ == JValue::Array(items_view(items@)),
{
    assert(items_view(items@) =~= Value::Array(items)@->Array_0);
}

pub proof fn lemma_object_view<N>(ms: Vec<Member<N>>)
    ensures
        Value::Object(ms)@ == JValue::Object(members_view(ms@)),
{
    assert(members_view(ms@) =~= Value::Object(ms)@->Object_0);
}

/// The view of every array and object value, in terms of its children.
pub proof fn lemma_container_views<N>()
    ensures
        forall|items: Vec<Value<N>>| #[trigger] view_value(Value::Array(items)) == JValue::Array(items_view(items@)),
        forall|ms: Vec<Member<N>>| #[trigger] view_value(Value::Object(ms)) == JValue::Object(members_view(ms@)),
{
    assert forall|items: Vec<Value<N>>| #[trigger] view_value(Value::Array(items)) == JValue::Array(items_view(items@)) by {
        lemma_array_view(items);
    }
    assert forall|ms: Vec<Member<N>>| #[trigger] view_value(Value::Object(ms)) == JValue::Object(members_view(ms@)) by {
        lemma_object_view(ms);
    }
}

pub open spec fn kind_of<N>(v: JValue<N>) -> Kind {
    match v {
        JValue::Invalid => Kind::Invalid,
        JValue::Null => Kind::Null,
        JValue::Bool(_) => Kind::Bool,
        JValue::Number(_) => Kind::Number,
        JValue::Str(_) => Kind::String,
        JValue::Array(_) => Kind::Array,
        JValue::Object(_) => Kind::Object,
        JValue::Raw(_) => Kind::Raw,
    }
}

/// The index of the first member whose name matches `name`, if any.
pub open spec fn first_match<N>(ms: Seq<JMember<N>>, name: Seq<char>, case_sensitive: bool) -> Option<int> {
    if exists|i: int| 0 <= i < ms.len() && names_match(ms[i].name, name, case_sensitive) {
        Some(
            choose|i: int|
                0 <= i < ms.len() && names_match(ms[i].name, name, case_sensitive) && forall|j: int|
                    0 <= j < i ==> !names_match(#[trigger] ms[j].name, name, case_sensitive),
        )
    } else {
        None
    }
}

/// `first_match` is the least matching index.
pub proof fn lemma_first_match<N>(ms: Seq<JMember<N>>, name: Seq<char>, case_sensitive: bool)
    ensures
        first_match(ms, name, case_sensitive) matches Some(i) ==> {
            &&& 0 <= i < ms.len()
            &&& names_match(ms[i].name, name, case_sensitive)
            &&& forall|j: int| 0 <= j < i ==> !names_match(#[trigger] ms[j].name, name, case_sensitive)
        },
        first_match(ms, name, case_sensitive) is None ==> forall|j: int|
            0 <= j < ms.len() ==> !names_match(#[trigger] ms[j].name, name, case_sensitive),
{
    if exists|i: int| 0 <= i < ms.len() && names_match(ms[i].name, name, case_sensitive) {
        let w = choose|i: int| 0 <= i < ms.len() && names_match(ms[i].name, name, case_sensitive);
        lemma_least_match(ms, name, case_sensitive, w);
    }
}

proof fn lemma_least_match<N>(ms: Seq<JMember<N>>, name: Seq<char>, case_sensitive: bool, w: int)
    requires
        0 <= w < ms.len(),
        names_match(ms[w].name, name, case_sensitive),
    ensures
        exists|i: int|
            0 <= i < ms.len() && names_match(ms[i].name, name, case_sensitive) && forall|j: int|
                0 <= j < i ==> !names_match(#[trigger] ms[j].name, name, case_sensitive),
    decreases w,
{
    if exists|j: int| 0 <= j < w && names_match(ms[j].name, name, case_sensitive) {
        let j = choose|j: int| 0 <= j < w && names_match(ms[j].name, name, case_sensitive);
        lemma_least_match(ms, name, case_sensitive, j);
    }
}

/// Finds the first member whose name matches.
pub fn find_member<N>(members: &Vec<Member<N>>, name: &str, case_sensitive: bool) -> (r: Option<usize>)
    ensures
        match r {
            Some(i) => first_match(members_view(members@), name@, case_sensitive) == Some(i as int),
            None => first_match(members_view(members@), name@, case_sensitive) is None,
        },
{
    let ghost ms = members_view(members@);
    let mut i: usize = 0;
    while i < members.len()
        invariant
            i <= members.len(),
            ms == members_view(members@),
            forall|j: int| 0 <= j < i ==> !names_match(#[trigger] ms[j].name, name@, case_sensitive),
        decreases members.len() - i,
    {
        if key_matches(members[i].name.as_str(), name, case_sensitive) {
            proof {
                lemma_first_match(ms, name@, case_sensitive);
                let f = first_match(ms, name@, case_sensitive)->0;
                assert(ms[i as int].name == members@[i as int].name@);
                if f < i {
                    assert(!names_match(ms[f].name, name@, case_sensitive));
                } else if f > i {
                    assert(!names_match(ms[i as int].name, name@, case_sensitive));
                }
            }
            return Some(i);
        }
        assert(ms[i as int].name == members@[i as int].name@);
        i += 1;
    }
    proof {
        lemma_first_match(ms, name@, case_sensitive);
    }
    None
}

impl<N> Member<N> {
    pub fn new(name: &str, value: Value<N>) -> (r: Self)
        ensures
            r.name@ == name@,
            r.value == value,
    {
        Member { name: name.to_owned(), value }
    }
}

impl<N> Value<N> {
    pub fn null() -> (r: Self)
        ensures
            r@ == JValue::<N>::Null,
    {
        Value::Null
    }

    pub fn boolean(value: bool) -> (r: Self)
        ensures
            r@ == JValue::<N>::Bool(value),
    {
        Value::Bool(value)
    }

    pub fn number(value: N) -> (r: Self)
        ensures
            r@ == JValue::Number(value),
    {
        Value::Number(value)
    }

    pub fn string(value: &str) -> (r: Self)
        ensures
            r@ == JValue::<N>::Str(value@),
    {
        Value::String(value.to_owned())
    }

    pub fn raw(value: &str) -> (r: Self)
        ensures
            r@ == JValue::<N>::Raw(value@),
    {
        Value::Raw(value.to_owned())
    }

    pub fn array(values: Vec<Value<N>>) -> (r: Self)
        ensures
            r@ == JValue::Array(items_view(values@)),
    {
        proof {
            lemma_array_view(values);
        }
        Value::Array(values)
    }

    pub fn object(members: Vec<Member<N>>) -> (r: Self)
        ensures
            r@ == JValue::Object(members_view(members@)),
    {
        proof {
            lemma_object_view(members);
        }
        Value::Object(members)
    }

    pub fn kind(&self) -> (r: Kind)
        ensures
            r == kind_of(self@),
    {
        match self {
            Value::Invalid => Kind::Invalid,
            Value::Null => Kind::Null,
            Value::Bool(_) => Kind::Bool,
            Value::Number(_) => Kind::Number,
            Value::String(_) => Kind::String,
            Value::Array(_) => Kind::Array,
            Value::Object(_) => Kind::Object,
            Value::Raw(_) => Kind::Raw,
        }
    }

    pub fn is_null(&self) -> (r: bool)
        ensures
            r == (self@ is Null),
    {
        matches!(self, Value::Null)
    }

    pub fn is_bool(&self) -> (r: bool)
        ensures
            r == (self@ is Bool),
    {
        matches!(self, Value::Bool(_))
    }

    pub fn is_number(&self) -> (r: bool)
        ensures
            r == (self@ is Number),
    {
        matches!(self, Value::Number(_))
    }

    pub fn is_string(&self) -> (r: bool)
        ensures
            r == (self@ is Str),
    {
        matches!(self, Value::String(_))
    }

    pub fn is_array(&self) -> (r: bool)
        ensures
            r == (self@ is Array),
    {
        matches!(self, Value::Array(_))
    }

    pub fn is_object(&self) -> (r: bool)
        ensures
            r == (self@ is Object),
    {
        matches!(self, Value::Object(_))
    }

    pub fn is_raw(&self) -> (r: bool)
        ensures
            r == (self@ is Raw),
    {
        matches!(self, Value::Raw(_))
    }

    pub fn as_bool(&self) -> (r: Option<bool>)
        ensures
            r == (match self@ {
                JValue::Bool(b) => Some(b),
                _ => None,
            }),
    {
        match self {
            Value::Bool(b) => Some(*b),
            _ => None,
        }
    }

    pub fn as_number(&self) -> (r: Option<N>) where N: Copy
        ensures
            r == (match self@ {
                JValue::Number(n) => Some(n),
                _ => None,
            }),
    {
        match self {
            Value::Number(n) => Some(*n),
            _ => None,
        }
    }

    pub fn as_str(&self) -> (r: Option<&str>)
        ensures
            match self@ {
                JValue::Str(s) => r matches Some(t) && t@ == s,
                _ => r is None,
            },
    {
        match self {
            Value::String(s) => Some(s.as_str()),
            _ => None,
        }
    }

    pub fn as_array(&self) -> (r: Option<&[Value<N>]>)
        ensures
            match self@ {
                JValue::Array(items) => r matches Some(s) && items_view(s@) == items,
                _ => r is None,
            },
    {
        match self {
            Value::Array(values) => {
                proof {
                    lemma_array_view(*values);
                }
                Some(values.as_slice())
            },
            _ => None,
        }
    }

    /// The elements of an array, for changing them in place.
    pub fn as_array_mut(&mut self) -> (r: Option<&mut Vec<Value<N>>>)
        ensures
            match old(self)@ {
                JValue::Array(items) => r matches Some(v) && items_view(v@) == items && *final(self) == Value::<N>::Array(
                    *final(v),
                ),
                _ => r is None && final(self)@ == old(self)@,
            },
    {
        match self {
            Value::Array(values) => {
                proof {
                    lemma_array_view(*values);
                }
                Some(values)
            },
            _ => None,
        }
    }

    pub fn as_object(&self) -> (r: Option<&[Member<N>]>)
        ensures
            match self@ {
                JValue::Object(ms) => r matches Some(s) && members_view(s@) == ms,
                _ => r is None,
            },
    {
        match self {
            Value::Object(members) => {
                proof {
                    lemma_object_view(*members);
                }
                Some(members.as_slice())
            },
            _ => None,
        }
    }

    /// The members of an object, for changing them in place.
    pub fn as_object_mut(&mut self) -> (r: Option<&mut Vec<Member<N>>>)
        ensures
            match old(self)@ {
                JValue::Object(ms) => r matches Some(v) && members_view(v@) == ms && *final(self) == Value::<N>::Object(
                    *final(v),
                ),
                _ => r is None && final(self)@ == old(self)@,
            },
    {
        match self {
            Value::Object(members) => {
                proof {
                    lemma_object_view(*members);
                }
                Some(members)
            },
            _ => None,
        }
    }

    /// The value of the first member with exactly this name (objects only).
    pub fn get(&self, name: &str) -> (r: Option<&Value<N>>)
        ensures
            match self@ {
                JValue::Object(ms) => match first_match(ms, name@, true) {
                    Some(i) => r matches Some(v) && v@ == ms[i].value,
                    None => r is None,
                },
                _ => r is None,
            },
    {
        self.lookup(name, true)
    }

    /// The value of the first member whose name matches ignoring ASCII case,
    /// the lookup that ignores case.
    pub fn get_case_insensitive(&self, name: &str) -> (r: Option<&Value<N>>)
        ensures
            match self@ {
                JValue::Object(ms) => match first_match(ms, name@, false) {
                    Some(i) => r matches Some(v) && v@ == ms[i].value,
                    None => r is None,
                },
                _ => r is None,
            },
    {
        self.lookup(name, false)
    }

    fn lookup(&self, name: &str, case_sensitive: bool) -> (r: Option<&Value<N>>)
        ensures
            match self@ {
                JValue::Object(ms) => match first_match(ms, name@, case_sensitive) {
                    Some(i) => r matches Some(v) && v@ == ms[i].value,
                    None => r is None,
                },
                _ => r is None,
            },
    {
        match self {
            Value::Object(members) => {
                proof {
                    lemma_object_view(*members);
                }
                let found = find_member(members, name, case_sensitive);
                proof {
                    lemma_first_match(members_view(members@), name@, case_sensitive);
                }
                match found {
                    Some(i) => Some(&members[i].value),
                    None => None,
                }
            },
            _ => None,
        }
    }

    /// The element at `index` (arrays only), bounds-checked.
    pub fn get_index(&self, index: usize) -> (r: Option<&Value<N>>)
        ensures
            match self@ {
                JValue::Array(items) => if index < items.len() {
                    r matches Some(v) && v@ == items[index as int]
                } else {
                    r is None
                },
                _ => r is None,
            },
    {
        match self {
            Value::Array(values) => {
                proof {
                    lemma_array_view(*values);
                }
                if index < values.len() {
                    Some(&values[index])
                } else {
                    None
                }
            },
            _ => None,
        }
    }

    /// The number of elements or members (arrays and objects only).
    pub fn len(&self) -> (r: Option<usize>)
        ensures
            r == (match self@ {
                JValue::Array(items) => Some(items.len() as usize),
                JValue::Object(ms) => Some(ms.len() as usize),
                _ => None,
            }),
    {
        match self {
            Value::Array(values) => {
                proof {
                    lemma_array_view(*values);
                }
                Some(values.len())
            },
            Value::Object(members) => {
                proof {
                    lemma_object_view(*members);
                }
                Some(members.len())
            },
            _ => None,
        }
    }

    pub fn is_empty(&self) -> (r: Option<bool>)
        ensures
            r == (match self@ {
                JValue::Array(items) => Some(items.len() == 0),
                JValue::Object(ms) => Some(ms.len() == 0),
                _ => None,
            }),
    {
        match self {
            Value::Array(values) => {
                proof {
                    lemma_array_view(*values);
                }
                Some(values.len() == 0)
            },
            Value::Object(members) => {
                proof {
                    lemma_object_view(*members);
                }
                Some(members.len() == 0)
            },
            _ => None,
        }
    }
}


/// What `duplicate` gives back: the value itself, or with `recursive` off,
/// arrays and objects emptied of their children.
pub open spec fn spec_duplicate<N>(v: JValue<N>, recursive: bool) -> JValue<N> {
    if recursive {
        v
    } else {
        match v {
            JValue::Array(_) => JValue::Array(Seq::empty()),
            JValue::Object(_) => JValue::Object(Seq::empty()),
            _ => v,
        }
    }
}

/// A fresh copy of a value: with `recursive`
/// off, arrays and objects keep their kind but lose their children.
#[verifier::loop_isolation(false)]
pub fn duplicate<N: Copy>(value: &Value<N>, recursive: bool) -> (r: Value<N>)
    ensures
        r@ == spec_duplicate(value@, recursive),
    decreases value,
{
    match value {
        Value::Invalid => Value::Invalid,
        Value::Null => Value::Null,
        Value::Bool(b) => Value::Bool(*b),
        Value::Number(n) => Value::Number(*n),
        Value::String(s) => Value::String(s.clone()),
        Value::Raw(s) => Value::Raw(s.clone()),
        Value::Array(values) => {
            let ghost src = items_view(values@);
            proof {
                lemma_array_view(*values);
            }
            let mut out: Vec<Value<N>> = Vec::new();
            if recursive {
                let mut i: usize = 0;
                while i < values.len()
                    invariant
                        i <= values.len(),
                        src == items_view(values@),
                        items_view(out@) == src.subrange(0, i as int),
                    decreases values.len() - i,
                {
                    assert(decreases_to!(value => values@[i as int]));
                    let d = duplicate(&values[i], true);
                    out.push(d);
                    i += 1;
                    assert(items_view(out@) =~= src.subrange(0, i as int));
                }
                assert(src.subrange(0, values.len() as int) =~= src);
            }
            proof {
                lemma_array_view(out);
                assert(items_view(out@) =~= Seq::<JValue<N>>::empty() || recursive);
            }
            Value::Array(out)
        },
        Value::Object(members) => {
            let ghost src = members_view(members@);
            proof {
                lemma_object_view(*members);
            }
            let mut out: Vec<Member<N>> = Vec::new();
            if recursive {
                let mut i: usize = 0;
                while i < members.len()
                    invariant
                        i <= members.len(),
                        src == members_view(members@),
                        members_view(out@) == src.subrange(0, i as int),
                    decreases members.len() - i,
                {
                    assert(decreases_to!(value => members@[i as int].value));
                    let d = duplicate(&members[i].value, true);
                    let m = Member { name: members[i].name.clone(), value: d };
                    out.push(m);
                    i += 1;
                    assert(members_view(out@) =~= src.subrange(0, i as int));
                }
                assert(src.subrange(0, members.len() as int) =~= src);
            }
            proof {
                lemma_object_view(out);
                assert(members_view(out@) =~= Seq::<JMember<N>>::empty() || recursive);
            }
            Value::Object(out)
        },
    }
}

/// Whether `f`, a function deciding number equality, answers every pair and
/// answers each pair always the same way.
pub open spec fn decides_numbers<N, F: Fn(N, N) -> bool>(f: F) -> bool {
    &&& forall|a: N, b: N| call_requires(f, (a, b))
    &&& forall|a: N, b: N, o: bool| #[trigger] call_ensures(f, (a, b), o) ==> o == call_ensures(f, (a, b), true)
}

/// `f` says that numbers `a` and `b` are equal.
pub open spec fn numbers_match<N, F: Fn(N, N) -> bool>(f: F, a: N, b: N) -> bool {
    call_ensures(f, (a, b), true)
}

/// The ordering keys of a sequence of members.
pub open spec fn member_keys<N>(ms: Seq<JMember<N>>, case_sensitive: bool) -> Seq<Seq<char>> {
    ms.map_values(|m: JMember<N>| sort_key(m.name, case_sensitive))
}

/// The members' indices, stably ordered by name.
pub open spec fn member_order<N>(ms: Seq<JMember<N>>, case_sensitive: bool) -> Seq<usize> {
    stable_order(member_keys(ms, case_sensitive))
}

/// Deep structural equality: kinds must agree; numbers
/// are equal when `f` says so; strings, raw text and booleans compare
/// exactly; an invalid node equals nothing, not even another invalid node;
/// arrays compare element by element; objects compare as member lists
/// ordered by name, name by name and value by value.
pub open spec fn json_equal<N, F: Fn(N, N) -> bool>(a: JValue<N>, b: JValue<N>, case_sensitive: bool, f: F) -> bool
    decreases a, 0nat,
{
    match a {
        JValue::Invalid => false,
        JValue::Null => b is Null,
        JValue::Raw(x) => b matches JValue::Raw(y) && x == y,
        JValue::Bool(x) => b matches JValue::Bool(y) && x == y,
        JValue::Number(x) => b matches JValue::Number(y) && numbers_match(f, x, y),
        JValue::Str(x) => b matches JValue::Str(y) && x == y,
        JValue::Array(xs) => match b {
            JValue::Array(ys) => xs.len() == ys.len() && items_equal(xs, ys, case_sensitive, f, xs.len()),
            _ => false,
        },
        JValue::Object(xs) => match b {
            JValue::Object(ys) => xs.len() == ys.len() && members_equal(
                xs,
                ys,
                member_order(xs, case_sensitive),
                member_order(ys, case_sensitive),
                case_sensitive,
                f,
                xs.len(),
            ),
            _ => false,
        },
    }
}

/// The first `n` elements of `xs` and `ys` are pairwise `json_equal`.
pub open spec fn items_equal<N, F: Fn(N, N) -> bool>(xs: Seq<JValue<N>>, ys: Seq<JValue<N>>, case_sensitive: bool, f: F, n: nat) -> bool
    decreases xs, n,
{
    if n == 0 {
        true
    } else if n > xs.len() || n > ys.len() {
        false
    } else {
        items_equal(xs, ys, case_sensitive, f, (n - 1) as nat) && json_equal(xs[n - 1], ys[n - 1], case_sensitive, f)
    }
}

/// The first `n` members of `xs` and `ys`, taken in the orders `p` and `q`,
/// have matching names and `json_equal` values.
pub open spec fn members_equal<N, F: Fn(N, N) -> bool>(
    xs: Seq<JMember<N>>,
    ys: Seq<JMember<N>>,
    p: Seq<usize>,
    q: Seq<usize>,
    case_sensitive: bool,
    f: F,
    n: nat,
) -> bool
    decreases xs, n,
{
    if n == 0 {
        true
    } else if n > p.len() || n > q.len() || p[n - 1] >= xs.len() || q[n - 1] >= ys.len() {
        false
    } else {
        let x = xs[p[n - 1] as int];
        let y = ys[q[n - 1] as int];
        &&& members_equal(xs, ys, p, q, case_sensitive, f, (n - 1) as nat)
        &&& names_match(x.name, y.name, case_sensitive)
        &&& json_equal(x.value, y.value, case_sensitive, f)
    }
}

proof fn lemma_items_equal_extend<N, F: Fn(N, N) -> bool>(xs: Seq<JValue<N>>, ys: Seq<JValue<N>>, cs: bool, f: F, n: nat)
    requires
        0 < n <= xs.len(),
        n <= ys.len(),
    ensures
        items_equal(xs, ys, cs, f, n) == (items_equal(xs, ys, cs, f, (n - 1) as nat) && json_equal(xs[n - 1], ys[n - 1], cs, f)),
{
}

/// A prefix that is not pairwise equal keeps every longer prefix from being so.
proof fn lemma_items_equal_prefix<N, F: Fn(N, N) -> bool>(xs: Seq<JValue<N>>, ys: Seq<JValue<N>>, cs: bool, f: F, n: nat, m: nat)
    requires
        n <= m,
        !items_equal(xs, ys, cs, f, n),
    ensures
        !items_equal(xs, ys, cs, f, m),
    decreases m - n,
{
    if m > n {
        lemma_items_equal_prefix(xs, ys, cs, f, n, (m - 1) as nat);
    }
}

proof fn lemma_members_equal_prefix<N, F: Fn(N, N) -> bool>(
    xs: Seq<JMember<N>>,
    ys: Seq<JMember<N>>,
    p: Seq<usize>,
    q: Seq<usize>,
    cs: bool,
    f: F,
    n: nat,
    m: nat,
)
    requires
        n <= m,
        !members_equal(xs, ys, p, q, cs, f, n),
    ensures
        !members_equal(xs, ys, p, q, cs, f, m),
    decreases m - n,
{
    if m > n {
        lemma_members_equal_prefix(xs, ys, p, q, cs, f, n, (m - 1) as nat);
    }
}

/// The ordering keys of `members`, one per member.
pub fn member_key_list<N>(members: &Vec<Member<N>>, case_sensitive: bool) -> (r: Vec<Vec<char>>)
    ensures
        r@.map_values(|v: Vec<char>| v@) == member_keys(members_view(members@), case_sensitive),
{
    let ghost ms = members_view(members@);
    let mut out: Vec<Vec<char>> = Vec::new();
    let mut i: usize = 0;
    while i < members.len()
        invariant
            i <= members.len(),
            ms == members_view(members@),
            out@.len() == i,
            out@.map_values(|v: Vec<char>| v@) == member_keys(ms, case_sensitive).subrange(0, i as int),
        decreases members.len() - i,
    {
        let k = key_chars(members[i].name.as_str(), case_sensitive);
        assert(ms[i as int].name == members@[i as int].name@);
        let ghost prev = out@;
        let ghost kv = k@;
        out.push(k);
        assert(out@ == prev.push(k));
        assert(out@[i as int]@ == kv);
        assert(out@.map_values(|v: Vec<char>| v@).subrange(0, i as int) =~= prev.map_values(|v: Vec<char>| v@));
        i += 1;
        assert(out@.map_values(|v: Vec<char>| v@) =~= member_keys(ms, case_sensitive).subrange(0, i as int));
    }
    assert(member_keys(ms, case_sensitive).subrange(0, members.len() as int) =~= member_keys(ms, case_sensitive));
    out
}

/// The members' indices, stably ordered by name.
pub fn sorted_member_order<N>(members: &Vec<Member<N>>, case_sensitive: bool) -> (r: Vec<usize>)
    ensures
        r@ == member_order(members_view(members@), case_sensitive),
        r@.len() == members@.len(),
        forall|k: int| 0 <= k < members@.len() ==> #[trigger] r@[k] < members@.len(),
{
    let keys = member_key_list(members, case_sensitive);
    let r = stable_order_of(&keys);
    assert(members.len() == members@.len());
    proof {
        lemma_stable_order_permutes(member_keys(members_view(members@), case_sensitive));
    }
    r
}

/// Deep structural equality. Objects are compared
/// as unordered key/value lists: both sides are ordered by member name
/// (stably) and then compared member by member. `numbers_equal` decides
/// whether two numbers are equal.
#[verifier::loop_isolation(false)]
pub fn compare<N: Copy, F: Fn(N, N) -> bool>(left: &Value<N>, right: &Value<N>, case_sensitive: bool, numbers_equal: &F) -> (r: bool)
    requires
        decides_numbers(*numbers_equal),
    ensures
        r == json_equal(left@, right@, case_sensitive, *numbers_equal),
    decreases left,
{
    match (left, right) {
        (Value::Null, Value::Null) => true,
        (Value::Raw(a), Value::Raw(b)) => a.eq(b),
        (Value::Bool(a), Value::Bool(b)) => *a == *b,
        (Value::Number(a), Value::Number(b)) => numbers_equal(*a, *b),
        (Value::String(a), Value::String(b)) => a.eq(b),
        (Value::Array(a), Value::Array(b)) => {
            proof {
                lemma_array_view(*a);
                lemma_array_view(*b);
            }
            if a.len() != b.len() {
                assert(!json_equal(left@, right@, case_sensitive, *numbers_equal));
                return false;
            }
            let ghost xs = items_view(a@);
            let ghost ys = items_view(b@);
            let mut i: usize = 0;
            while i < a.len()
                invariant
                    i <= a.len(),
                    a.len() == b.len(),
                    xs == items_view(a@),
                    ys == items_view(b@),
                    decides_numbers(*numbers_equal),
                    items_equal(xs, ys, case_sensitive, *numbers_equal, i as nat),
                decreases a.len() - i,
            {
                assert(decreases_to!(left => a@[i as int]));
                let e = compare(&a[i], &b[i], case_sensitive, numbers_equal);
                proof {
                    assert(xs[i as int] == a@[i as int]@);
                    assert(ys[i as int] == b@[i as int]@);
                    lemma_items_equal_extend(xs, ys, case_sensitive, *numbers_equal, (i + 1) as nat);
                }
                if !e {
                    proof {
                        lemma_items_equal_prefix(xs, ys, case_sensitive, *numbers_equal, (i + 1) as nat, xs.len());
                    }
                    return false;
                }
                i += 1;
            }
            assert(json_equal(left@, right@, case_sensitive, *numbers_equal));
            true
        },
        (Value::Object(a), Value::Object(b)) => {
            proof {
                lemma_object_view(*a);
                lemma_object_view(*b);
            }
            let p = sorted_member_order(a, case_sensitive);
            let q = sorted_member_order(b, case_sensitive);
            if p.len() != q.len() {
                assert(!json_equal(left@, right@, case_sensitive, *numbers_equal));
                return false;
            }
            let ghost xs = members_view(a@);
            let ghost ys = members_view(b@);
            let mut k: usize = 0;
            while k < p.len()
                invariant
                    k <= p.len(),
                    p.len() == q.len(),
                    p@.len() == a@.len(),
                    q@.len() == b@.len(),
                    forall|t: int| 0 <= t < a@.len() ==> #[trigger] p@[t] < a@.len(),
                    forall|t: int| 0 <= t < b@.len() ==> #[trigger] q@[t] < b@.len(),
                    xs == members_view(a@),
                    ys == members_view(b@),
                    decides_numbers(*numbers_equal),
                    members_equal(xs, ys, p@, q@, case_sensitive, *numbers_equal, k as nat),
                decreases p.len() - k,
            {
                let pi = p[k];
                let qi = q[k];
                assert(p@[k as int] < a@.len());
                assert(q@[k as int] < b@.len());
                assert(xs[pi as int] == a@[pi as int]@);
                assert(ys[qi as int] == b@[qi as int]@);
                let names = key_matches(a[pi].name.as_str(), b[qi].name.as_str(), case_sensitive);
                if !names {
                    proof {
                        lemma_members_equal_prefix(xs, ys, p@, q@, case_sensitive, *numbers_equal, (k + 1) as nat, xs.len());
                    }
                    return false;
                }
                assert(decreases_to!(left => a@[pi as int].value));
                let e = compare(&a[pi].value, &b[qi].value, case_sensitive, numbers_equal);
                if !e {
                    proof {
                        lemma_members_equal_prefix(xs, ys, p@, q@, case_sensitive, *numbers_equal, (k + 1) as nat, xs.len());
                    }
                    return false;
                }
                k += 1;
            }
            assert(json_equal(left@, right@, case_sensitive, *numbers_equal));
            true
        },
        _ => false,
    }
}


/// `v` is a number that `f` made from `input`.
pub open spec fn number_made_by<S, N, F: Fn(S) -> N>(f: F, input: S, v: JValue<N>) -> bool {
    v matches JValue::Number(n) && call_ensures(f, (input,), n)
}

/// An array of numbers, each made from one input by `to_number`.
fn array_from<S: Copy, N, F: Fn(S) -> N>(values: &[S], to_number: &F) -> (r: Value<N>)
    requires
        forall|v: S| call_requires(*to_number, (v,)),
    ensures
        r@ matches JValue::Array(items) && items.len() == values@.len() && forall|i: int|
            0 <= i < values@.len() ==> number_made_by(*to_number, values@[i], #[trigger] items[i]),
{
    let mut out: Vec<Value<N>> = Vec::new();
    let mut i: usize = 0;
    while i < values.len()
        invariant
            i <= values@.len(),
            forall|v: S| call_requires(*to_number, (v,)),
            out@.len() == i,
            forall|j: int|
                0 <= j < i ==> number_made_by(*to_number, values@[j], (#[trigger] out@[j])@),
        decreases values@.len() - i,
    {
        let n = to_number(values[i]);
        out.push(Value::Number(n));
        i += 1;
    }
    proof {
        lemma_array_view(out);
        assert forall|j: int| 0 <= j < values@.len() implies number_made_by(*to_number, values@[j], #[trigger] items_view(out@)[j]) by {
            assert(items_view(out@)[j] == out@[j]@);
        }
    }
    Value::Array(out)
}

/// An array of numbers made from integers;
/// `to_number` turns each integer into a number.
pub fn create_int_array<N, F: Fn(i32) -> N>(values: &[i32], to_number: &F) -> (r: Value<N>)
    requires
        forall|v: i32| call_requires(*to_number, (v,)),
    ensures
        r@ matches JValue::Array(items) && items.len() == values@.len() && forall|i: int|
            0 <= i < values@.len() ==> number_made_by(*to_number, values@[i], #[trigger] items[i]),
{
    array_from(values, to_number)
}

/// An array of numbers made from single-precision inputs; `to_number`
/// widens each input to a number.
pub fn create_float_array<S: Copy, N, F: Fn(S) -> N>(values: &[S], to_number: &F) -> (r: Value<N>)
    requires
        forall|v: S| call_requires(*to_number, (v,)),
    ensures
        r@ matches JValue::Array(items) && items.len() == values@.len() && forall|i: int|
            0 <= i < values@.len() ==> number_made_by(*to_number, values@[i], #[trigger] items[i]),
{
    array_from(values, to_number)
}

/// An array holding the given numbers.
pub fn create_double_array<N: Copy>(values: &[N]) -> (r: Value<N>)
    ensures
        r@ == JValue::Array(values@.map_values(|n: N| JValue::Number(n))),
{
    let mut out: Vec<Value<N>> = Vec::new();
    let mut i: usize = 0;
    while i < values.len()
        invariant
            i <= values@.len(),
            out@.len() == i,
            items_view(out@) == values@.subrange(0, i as int).map_values(|n: N| JValue::Number(n)),
        decreases values@.len() - i,
    {
        let v = values[i];
        let ghost prev = out@;
        out.push(Value::Number(v));
        assert(out@[i as int]@ == JValue::Number(v));
        assert(items_view(out@).subrange(0, i as int) =~= items_view(prev));
        assert forall|k: int| 0 <= k < i implies #[trigger] items_view(out@)[k] == values@.subrange(0, i as int).map_values(|n: N| JValue::Number(n))[k] by {
            assert(items_view(out@)[k] == items_view(prev)[k]);
        }
        i += 1;
        assert(items_view(out@) =~= values@.subrange(0, i as int).map_values(|n: N| JValue::Number(n)));
    }
    assert(values@.subrange(0, values@.len() as int) =~= values@);
    proof {
        lemma_array_view(out);
    }
    Value::Array(out)
}

/// An array holding the given strings.
pub fn create_string_array<N>(values: &[&str]) -> (r: Value<N>)
    ensures
        r@ == JValue::<N>::Array(values@.map_values(|s: &str| JValue::<N>::Str(s@))),
{
    let mut out: Vec<Value<N>> = Vec::new();
    let mut i: usize = 0;
    while i < values.len()
        invariant
            i <= values@.len(),
            out@.len() == i,
            items_view(out@) == values@.subrange(0, i as int).map_values(|s: &str| JValue::<N>::Str(s@)),
        decreases values@.len() - i,
    {
        let t = values[i].to_owned();
        let ghost prev = out@;
        assert(t@ == values@[i as int]@);
        out.push(Value::String(t));
        assert(out@[i as int]@ == JValue::<N>::Str(values@[i as int]@));
        assert(items_view(out@).subrange(0, i as int) =~= items_view(prev));
        assert forall|k: int| 0 <= k < i implies #[trigger] items_view(out@)[k] == values@.subrange(0, i as int).map_values(|s: &str| JValue::<N>::Str(s@))[k] by {
            assert(items_view(out@)[k] == items_view(prev)[k]);
        }
        i += 1;
        assert(items_view(out@) =~= values@.subrange(0, i as int).map_values(|s: &str| JValue::<N>::Str(s@)));
    }
    assert(values@.subrange(0, values@.len() as int) =~= values@);
    proof {
        lemma_array_view(out);
    }
    Value::Array(out)
}


/// The members whose names do not match `name`, in their order.
pub open spec fn without_name<N>(ms: Seq<JMember<N>>, name: Seq<char>, case_sensitive: bool) -> Seq<JMember<N>>
    decreases ms.len(),
{
    if ms.len() == 0 {
        ms
    } else {
        let rest = without_name(ms.drop_last(), name, case_sensitive);
        if names_match(ms.last().name, name, case_sensitive) {
            rest
        } else {
            rest.push(ms.last())
        }
    }
}

/// Removes every member whose name matches `name`, keeping the order of the
/// others.
pub fn remove_named<N>(members: &mut Vec<Member<N>>, name: &str, case_sensitive: bool)
    ensures
        members_view(final(members)@) == without_name(members_view(old(members)@), name@, case_sensitive),
{
    let mut rest: Vec<Member<N>> = Vec::new();
    std::mem::swap(members, &mut rest);
    let ghost orig = members_view(rest@);
    let ghost total = rest@.len();
    assert(rest@.len() == rest.len());
    let mut i: usize = 0;
    assert(orig.skip(0) =~= orig);
    assert(orig.take(0) =~= Seq::<JMember<N>>::empty());
    assert(members_view(members@) =~= Seq::<JMember<N>>::empty());
    while rest.len() > 0
        invariant
            i + rest@.len() == total,
            total <= usize::MAX,
            orig.len() == total,
            members_view(rest@) == orig.skip(i as int),
            members_view(members@) == without_name(orig.take(i as int), name@, case_sensitive),
        decreases rest@.len(),
    {
        let ghost before = members@;
        let ghost rv = rest@;
        assert(members_view(rv)[0] == rv[0]@);
        assert(orig.skip(i as int)[0] == orig[i as int]);
        let m = rest.remove(0);
        assert(m@ == orig[i as int]);
        assert(rest@ == rv.remove(0));
        assert forall|k: int| 0 <= k < rest@.len() implies #[trigger] members_view(rest@)[k] == orig.skip(i + 1)[k] by {
            assert(members_view(rv)[k + 1] == rv[k + 1]@);
            assert(orig.skip(i as int)[k + 1] == orig[i + 1 + k]);
        }
        assert(members_view(rest@) =~= orig.skip(i + 1));
        assert(orig.take(i + 1).drop_last() =~= orig.take(i as int));
        assert(orig.take(i + 1).last() == orig[i as int]);
        if !key_matches(m.name.as_str(), name, case_sensitive) {
            members.push(m);
            assert(members_view(members@) =~= members_view(before).push(orig[i as int]));
        }
        i += 1;
    }
    assert(orig.take(i as int) =~= orig);
}


pub proof fn lemma_items_equal_pointwise<N, F: Fn(N, N) -> bool>(xs: Seq<JValue<N>>, ys: Seq<JValue<N>>, cs: bool, f: F, n: nat)
    requires
        n <= xs.len(),
        n <= ys.len(),
        forall|k: int| 0 <= k < n ==> json_equal(#[trigger] xs[k], ys[k], cs, f),
    ensures
        items_equal(xs, ys, cs, f, n),
    decreases n,
{
    if n > 0 {
        lemma_items_equal_pointwise(xs, ys, cs, f, (n - 1) as nat);
        assert(json_equal(xs[n - 1], ys[n - 1], cs, f));
    }
}

pub proof fn lemma_members_equal_pointwise<N, F: Fn(N, N) -> bool>(
    xs: Seq<JMember<N>>,
    ys: Seq<JMember<N>>,
    p: Seq<usize>,
    q: Seq<usize>,
    cs: bool,
    f: F,
    n: nat,
)
    requires
        n <= p.len(),
        n <= q.len(),
        forall|k: int| 0 <= k < n ==> #[trigger] p[k] < xs.len() && q[k] < ys.len(),
        forall|k: int|
            0 <= k < n ==> names_match(xs[#[trigger] p[k] as int].name, ys[q[k] as int].name, cs) && json_equal(
                xs[p[k] as int].value,
                ys[q[k] as int].value,
                cs,
                f,
            ),
    ensures
        members_equal(xs, ys, p, q, cs, f, n),
    decreases n,
{
    if n > 0 {
        lemma_members_equal_pointwise(xs, ys, p, q, cs, f, (n - 1) as nat);
        assert(p[n - 1] < xs.len());
    }
}

/// String values compare exactly, whatever the case flag says (the flag
/// governs member names only): two strings compare equal exactly when they
/// hold the same characters.
pub proof fn law_compare_strings_exactly<N, F: Fn(N, N) -> bool>(x: Seq<char>, y: Seq<char>, case_sensitive: bool, f: F)
    ensures
        json_equal(JValue::<N>::Str(x), JValue::<N>::Str(y), case_sensitive, f) == (x == y),
{
}

/// Whether an invalid node occurs anywhere in `v`.
pub open spec fn holds_invalid<N>(v: JValue<N>) -> bool
    decreases v, 0nat,
{
    match v {
        JValue::Invalid => true,
        JValue::Array(xs) => items_hold_invalid(xs, xs.len()),
        JValue::Object(ms) => members_hold_invalid(ms, ms.len()),
        _ => false,
    }
}

/// Whether one of the first `n` elements of `xs` holds an invalid node.
pub open spec fn items_hold_invalid<N>(xs: Seq<JValue<N>>, n: nat) -> bool
    decreases xs, n,
{
    if n == 0 || n > xs.len() {
        false
    } else {
        items_hold_invalid(xs, (n - 1) as nat) || holds_invalid(xs[n - 1])
    }
}

/// Whether the value of one of the first `n` members of `ms` holds an
/// invalid node.
pub open spec fn members_hold_invalid<N>(ms: Seq<JMember<N>>, n: nat) -> bool
    decreases ms, n,
{
    if n == 0 || n > ms.len() {
        false
    } else {
        members_hold_invalid(ms, (n - 1) as nat) || holds_invalid(ms[n - 1].value)
    }
}

/// An element holding an invalid node makes the elements hold one.
pub proof fn lemma_items_hold_invalid<N>(xs: Seq<JValue<N>>, n: nat, k: int)
    requires
        n <= xs.len(),
        0 <= k < n,
        holds_invalid(xs[k]),
    ensures
        items_hold_invalid(xs, n),
    decreases n,
{
    if k < n - 1 {
        lemma_items_hold_invalid(xs, (n - 1) as nat, k);
    }
}

/// A member value holding an invalid node makes the members hold one.
pub proof fn lemma_members_hold_invalid<N>(ms: Seq<JMember<N>>, n: nat, k: int)
    requires
        n <= ms.len(),
        0 <= k < n,
        holds_invalid(ms[k].value),
    ensures
        members_hold_invalid(ms, n),
    decreases n,
{
    if k < n - 1 {
        lemma_members_hold_invalid(ms, (n - 1) as nat, k);
    }
}

/// Every value that holds no invalid node compares equal to itself
/// (`compare(v, v)` is true), provided the number equality holds of every
/// number and itself.
pub proof fn law_compare_reflexive<N, F: Fn(N, N) -> bool>(v: Value<N>, case_sensitive: bool, f: F)
    requires
        forall|a: N| #[trigger] numbers_match(f, a, a),
        !holds_invalid(v@),
    ensures
        json_equal(v@, v@, case_sensitive, f),
    decreases v,
{
    match v {
        Value::Array(items) => {
            lemma_array_view(items);
            let xs = items_view(items@);
            assert forall|k: int| 0 <= k < xs.len() implies json_equal(#[trigger] xs[k], xs[k], case_sensitive, f) by {
                assert(xs[k] == items@[k]@);
                if holds_invalid(xs[k]) {
                    lemma_items_hold_invalid(xs, xs.len(), k);
                }
                law_compare_reflexive(items@[k], case_sensitive, f);
            }
            lemma_items_equal_pointwise(xs, xs, case_sensitive, f, xs.len());
        },
        Value::Object(ms) => {
            lemma_object_view(ms);
            let xs = members_view(ms@);
            assert(ms.len() == ms@.len());
            lemma_stable_order_permutes(member_keys(xs, case_sensitive));
            let p = member_order(xs, case_sensitive);
            assert forall|k: int| 0 <= k < xs.len() implies names_match(xs[#[trigger] p[k] as int].name, xs[p[k] as int].name, case_sensitive)
                && json_equal(xs[p[k] as int].value, xs[p[k] as int].value, case_sensitive, f) by {
                assert(p[k] < xs.len());
                assert(xs[p[k] as int] == ms@[p[k] as int]@);
                if holds_invalid(xs[p[k] as int].value) {
                    lemma_members_hold_invalid(xs, xs.len(), p[k] as int);
                }
                law_compare_reflexive(ms@[p[k] as int].value, case_sensitive, f);
            }
            lemma_members_equal_pointwise(xs, xs, p, p, case_sensitive, f, xs.len());
        },
        _ => {},
    }
}

proof fn lemma_items_equal_symmetric<N, F: Fn(N, N) -> bool>(xs: Seq<JValue<N>>, ys: Seq<JValue<N>>, cs: bool, f: F, n: nat)
    requires
        forall|x: N, y: N| #[trigger] numbers_match(f, x, y) ==> numbers_match(f, y, x),
        items_equal(xs, ys, cs, f, n),
    ensures
        items_equal(ys, xs, cs, f, n),
    decreases xs, n,
{
    if n > 0 {
        lemma_items_equal_symmetric(xs, ys, cs, f, (n - 1) as nat);
        law_compare_symmetric(xs[n - 1], ys[n - 1], cs, f);
    }
}

proof fn lemma_members_equal_symmetric<N, F: Fn(N, N) -> bool>(
    xs: Seq<JMember<N>>,
    ys: Seq<JMember<N>>,
    p: Seq<usize>,
    q: Seq<usize>,
    cs: bool,
    f: F,
    n: nat,
)
    requires
        forall|x: N, y: N| #[trigger] numbers_match(f, x, y) ==> numbers_match(f, y, x),
        members_equal(xs, ys, p, q, cs, f, n),
    ensures
        members_equal(ys, xs, q, p, cs, f, n),
    decreases xs, n,
{
    if n > 0 {
        lemma_members_equal_symmetric(xs, ys, p, q, cs, f, (n - 1) as nat);
        law_compare_symmetric(xs[p[n - 1] as int].value, ys[q[n - 1] as int].value, cs, f);
    }
}

/// `compare` is symmetric wherever the number equality is: if `a` compares
/// equal to `b`, then `b` compares equal to `a`.
pub proof fn law_compare_symmetric<N, F: Fn(N, N) -> bool>(a: JValue<N>, b: JValue<N>, case_sensitive: bool, f: F)
    requires
        forall|x: N, y: N| #[trigger] numbers_match(f, x, y) ==> numbers_match(f, y, x),
    ensures
        json_equal(a, b, case_sensitive, f) ==> json_equal(b, a, case_sensitive, f),
    decreases a, 0nat,
{
    if json_equal(a, b, case_sensitive, f) {
        match a {
            JValue::Array(xs) => {
                let ys = b->Array_0;
                lemma_items_equal_symmetric(xs, ys, case_sensitive, f, xs.len());
            },
            JValue::Object(xs) => {
                let ys = b->Object_0;
                lemma_members_equal_symmetric(
                    xs,
                    ys,
                    member_order(xs, case_sensitive),
                    member_order(ys, case_sensitive),
                    case_sensitive,
                    f,
                    xs.len(),
                );
            },
            _ => {},
        }
    }
}

proof fn lemma_items_equal_transitive<N, F: Fn(N, N) -> bool>(
    xs: Seq<JValue<N>>,
    ys: Seq<JValue<N>>,
    zs: Seq<JValue<N>>,
    cs: bool,
    f: F,
    n: nat,
)
    requires
        forall|x: N, y: N, z: N|
            #![trigger numbers_match(f, x, y), numbers_match(f, y, z)]
            numbers_match(f, x, y) && numbers_match(f, y, z) ==> numbers_match(f, x, z),
        items_equal(xs, ys, cs, f, n),
        items_equal(ys, zs, cs, f, n),
    ensures
        items_equal(xs, zs, cs, f, n),
    decreases xs, n,
{
    if n > 0 {
        lemma_items_equal_transitive(xs, ys, zs, cs, f, (n - 1) as nat);
        law_compare_transitive(xs[n - 1], ys[n - 1], zs[n - 1], cs, f);
    }
}

proof fn lemma_members_equal_transitive<N, F: Fn(N, N) -> bool>(
    xs: Seq<JMember<N>>,
    ys: Seq<JMember<N>>,
    zs: Seq<JMember<N>>,
    p: Seq<usize>,
    q: Seq<usize>,
    r: Seq<usize>,
    cs: bool,
    f: F,
    n: nat,
)
    requires
        forall|x: N, y: N, z: N|
            #![trigger numbers_match(f, x, y), numbers_match(f, y, z)]
            numbers_match(f, x, y) && numbers_match(f, y, z) ==> numbers_match(f, x, z),
        members_equal(xs, ys, p, q, cs, f, n),
        members_equal(ys, zs, q, r, cs, f, n),
    ensures
        members_equal(xs, zs, p, r, cs, f, n),
    decreases xs, n,
{
    if n > 0 {
        lemma_members_equal_transitive(xs, ys, zs, p, q, r, cs, f, (n - 1) as nat);
        law_compare_transitive(
            xs[p[n - 1] as int].value,
            ys[q[n - 1] as int].value,
            zs[r[n - 1] as int].value,
            cs,
            f,
        );
    }
}

/// `compare` is transitive wherever the number equality is: if `a` compares
/// equal to `b` and `b` to `c`, then `a` compares equal to `c`.
pub proof fn law_compare_transitive<N, F: Fn(N, N) -> bool>(
    a: JValue<N>,
    b: JValue<N>,
    c: JValue<N>,
    case_sensitive: bool,
    f: F,
)
    requires
        forall|x: N, y: N, z: N|
            #![trigger numbers_match(f, x, y), numbers_match(f, y, z)]
            numbers_match(f, x, y) && numbers_match(f, y, z) ==> numbers_match(f, x, z),
    ensures
        json_equal(a, b, case_sensitive, f) && json_equal(b, c, case_sensitive, f) ==> json_equal(a, c, case_sensitive, f),
    decreases a, 0nat,
{
    if json_equal(a, b, case_sensitive, f) && json_equal(b, c, case_sensitive, f) {
        match a {
            JValue::Array(xs) => {
                let ys = b->Array_0;
                let zs = c->Array_0;
                lemma_items_equal_transitive(xs, ys, zs, case_sensitive, f, xs.len());
            },
            JValue::Object(xs) => {
                let ys = b->Object_0;
                let zs = c->Object_0;
                lemma_members_equal_transitive(
                    xs,
                    ys,
                    zs,
                    member_order(xs, case_sensitive),
                    member_order(ys, case_sensitive),
                    member_order(zs, case_sensitive),
                    case_sensitive,
                    f,
                    xs.len(),
                );
            },
            _ => {},
        }
    }
}

} // verus!
