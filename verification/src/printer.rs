//! Turns a [`Value`] back into JSON text, in a compact or a formatted
//! (tab-indented) style.
use vstd::prelude::*;
use crate::text::{chars_of, hex_digit_char, hex_lower, push_char, push_str};
use crate::value::{JMember, JValue, Member, Value, items_view, members_view, lemma_array_view, lemma_object_view};

verus! {

/// Whether `f`, a function writing a number as text, accepts every number
/// and writes the same text for the same number.
pub open spec fn writes_numbers<N, F: Fn(N) -> String>(f: F) -> bool {
    &&& forall|n: N| call_requires(f, (n,))
    &&& forall|n: N, s1: String, s2: String|
        #[trigger] call_ensures(f, (n,), s1) && #[trigger] call_ensures(f, (n,), s2) ==> s1@ == s2@
}

/// `f` may write `n` as `text`.
pub open spec fn writes_as<N, F: Fn(N) -> String>(f: F, n: N, text: Seq<char>) -> bool {
    exists|s: String| #![trigger call_ensures(f, (n,), s)] s@ == text && call_ensures(f, (n,), s)
}

/// The text `f` writes for `n`.
pub open spec fn number_text<N, F: Fn(N) -> String>(f: F, n: N) -> Seq<char> {
    choose|t: Seq<char>| #[trigger] writes_as(f, n, t)
}

/// How one character of a string is written between the quotes.
pub open spec fn escaped_char(c: char) -> Seq<char> {
    if c == '"' {
        seq!['\\', '"']
    } else if c == '\\' {
        seq!['\\', '\\']
    } else if c == '\x08' {
        seq!['\\', 'b']
    } else if c == '\t' {
        seq!['\\', 't']
    } else if c == '\n' {
        seq!['\\', 'n']
    } else if c == '\x0c' {
        seq!['\\', 'f']
    } else if c == '\r' {
        seq!['\\', 'r']
    } else if (c as u32) <= 0x1f {
        seq!['\\', 'u', '0', '0', hex_lower((c as u32) / 16), hex_lower((c as u32) % 16)]
    } else {
        seq![c]
    }
}

/// The escaped body of a string.
pub open spec fn escaped(s: Seq<char>) -> Seq<char>
    decreases s.len(),
{
    if s.len() == 0 {
        Seq::empty()
    } else {
        escaped(s.drop_last()) + escaped_char(s.last())
    }
}

/// A string written as a JSON string literal.
pub open spec fn quoted(s: Seq<char>) -> Seq<char> {
    seq!['"'] + escaped(s) + seq!['"']
}

/// `n` tab characters.
pub open spec fn tabs(n: nat) -> Seq<char> {
    Seq::new(n, |i: int| '\t')
}

/// How deeply arrays and objects nest inside a value.
pub open spec fn nesting<N>(v: JValue<N>) -> nat
    decreases v, 0nat,
{
    match v {
        JValue::Array(xs) => 1 + items_nesting(xs, xs.len()),
        JValue::Object(ms) => 1 + members_nesting(ms, ms.len()),
        _ => 0,
    }
}

pub open spec fn items_nesting<N>(xs: Seq<JValue<N>>, n: nat) -> nat
    decreases xs, n,
{
    if n == 0 || n > xs.len() {
        0
    } else {
        let a = items_nesting(xs, (n - 1) as nat);
        let b = nesting(xs[n - 1]);
        if a < b { b } else { a }
    }
}

pub open spec fn members_nesting<N>(ms: Seq<JMember<N>>, n: nat) -> nat
    decreases ms, n,
{
    if n == 0 || n > ms.len() {
        0
    } else {
        let a = members_nesting(ms, (n - 1) as nat);
        let b = nesting(ms[n - 1].value);
        if a < b { b } else { a }
    }
}

pub proof fn lemma_items_nesting<N>(xs: Seq<JValue<N>>, n: nat, i: int)
    requires
        0 <= i < n <= xs.len(),
    ensures
        nesting(xs[i]) <= items_nesting(xs, n),
    decreases n,
{
    if i < n - 1 {
        lemma_items_nesting(xs, (n - 1) as nat, i);
    }
}

pub proof fn lemma_members_nesting<N>(ms: Seq<JMember<N>>, n: nat, i: int)
    requires
        0 <= i < n <= ms.len(),
    ensures
        nesting(ms[i].value) <= members_nesting(ms, n),
    decreases n,
{
    if i < n - 1 {
        lemma_members_nesting(ms, (n - 1) as nat, i);
    }
}

/// The text of a value at indentation `depth`, or `None` when it holds an
/// invalid node anywhere.
pub open spec fn printed<N, F: Fn(N) -> String>(v: JValue<N>, formatted: bool, depth: nat, f: F) -> Option<Seq<char>>
    decreases v, 0nat,
{
    match v {
        JValue::Invalid => None,
        JValue::Null => Some(seq!['n', 'u', 'l', 'l']),
        JValue::Bool(b) => if b {
            Some(seq!['t', 'r', 'u', 'e'])
        } else {
            Some(seq!['f', 'a', 'l', 's', 'e'])
        },
        JValue::Number(n) => Some(number_text(f, n)),
        JValue::Str(s) => Some(quoted(s)),
        JValue::Raw(s) => Some(s),
        JValue::Array(xs) => match printed_items(xs, formatted, depth + 1, f, xs.len()) {
            Some(body) => Some(seq!['['] + body + seq![']']),
            None => None,
        },
        JValue::Object(ms) => match printed_members(ms, formatted, depth + 1, f, ms.len()) {
            Some(body) => Some(
                seq!['{'] + (if formatted { seq!['\n'] } else { Seq::empty() }) + body + (if formatted {
                    tabs(depth)
                } else {
                    Seq::empty()
                }) + seq!['}'],
            ),
            None => None,
        },
    }
}

/// What separates array element `k` from the one before it.
pub open spec fn item_separator(k: int, formatted: bool) -> Seq<char> {
    if k == 0 {
        Seq::empty()
    } else if formatted {
        seq![',', ' ']
    } else {
        seq![',']
    }
}

/// The first `n` elements of an array, written at `depth`.
pub open spec fn printed_items<N, F: Fn(N) -> String>(xs: Seq<JValue<N>>, formatted: bool, depth: nat, f: F, n: nat) -> Option<Seq<char>>
    decreases xs, n,
{
    if n == 0 {
        Some(Seq::empty())
    } else if n > xs.len() {
        None
    } else {
        match printed_items(xs, formatted, depth, f, (n - 1) as nat) {
            None => None,
            Some(a) => match printed(xs[n - 1], formatted, depth, f) {
                None => None,
                Some(b) => Some(a + item_separator(n - 1, formatted) + b),
            },
        }
    }
}

/// Member `k` of `len` members, its value text given.
pub open spec fn member_text(name: Seq<char>, value: Seq<char>, k: int, len: int, formatted: bool, depth: nat) -> Seq<char> {
    (if formatted { tabs(depth) } else { Seq::empty() }) + quoted(name) + seq![':'] + (if formatted {
        seq!['\t']
    } else {
        Seq::empty()
    }) + value + (if k + 1 != len { seq![','] } else { Seq::empty() }) + (if formatted {
        seq!['\n']
    } else {
        Seq::empty()
    })
}

/// What comes before a member's value.
pub open spec fn member_head(name: Seq<char>, formatted: bool, depth: nat) -> Seq<char> {
    (if formatted { tabs(depth) } else { Seq::empty() }) + quoted(name) + seq![':'] + (if formatted {
        seq!['\t']
    } else {
        Seq::empty()
    })
}

/// What comes after member `k`'s value.
pub open spec fn member_tail(k: int, len: int, formatted: bool) -> Seq<char> {
    (if k + 1 != len { seq![','] } else { Seq::empty() }) + (if formatted { seq!['\n'] } else { Seq::empty() })
}

pub proof fn lemma_member_text(name: Seq<char>, value: Seq<char>, k: int, len: int, formatted: bool, depth: nat)
    ensures
        member_text(name, value, k, len, formatted, depth) == member_head(name, formatted, depth) + value + member_tail(k, len, formatted),
{
    assert(member_text(name, value, k, len, formatted, depth) =~= member_head(name, formatted, depth) + value + member_tail(k, len, formatted));
}

/// The first `n` members of an object, written at `depth`.
pub open spec fn printed_members<N, F: Fn(N) -> String>(ms: Seq<JMember<N>>, formatted: bool, depth: nat, f: F, n: nat) -> Option<Seq<char>>
    decreases ms, n,
{
    if n == 0 {
        Some(Seq::empty())
    } else if n > ms.len() {
        None
    } else {
        match printed_members(ms, formatted, depth, f, (n - 1) as nat) {
            None => None,
            Some(a) => match printed(ms[n - 1].value, formatted, depth, f) {
                None => None,
                Some(b) => Some(a + member_text(ms[n - 1].name, b, n - 1, ms.len() as int, formatted, depth)),
            },
        }
    }
}


proof fn lemma_printed_items_none<N, F: Fn(N) -> String>(xs: Seq<JValue<N>>, formatted: bool, depth: nat, f: F, n: nat, m: nat)
    requires
        n <= m,
        printed_items(xs, formatted, depth, f, n) is None,
    ensures
        printed_items(xs, formatted, depth, f, m) is None,
    decreases m - n,
{
    if m > n {
        lemma_printed_items_none(xs, formatted, depth, f, n, (m - 1) as nat);
    }
}

proof fn lemma_printed_members_none<N, F: Fn(N) -> String>(ms: Seq<JMember<N>>, formatted: bool, depth: nat, f: F, n: nat, m: nat)
    requires
        n <= m,
        printed_members(ms, formatted, depth, f, n) is None,
    ensures
        printed_members(ms, formatted, depth, f, m) is None,
    decreases m - n,
{
    if m > n {
        lemma_printed_members_none(ms, formatted, depth, f, n, (m - 1) as nat);
    }
}

fn write_escaped_char(out: &mut String, c: char)
    ensures
        final(out)@ == old(out)@ + escaped_char(c),
{
    let ghost start = out@;
    if c == '"' {
        push_char(out, '\\');
        push_char(out, '"');
    } else if c == '\\' {
        push_char(out, '\\');
        push_char(out, '\\');
    } else if c == '\x08' {
        push_char(out, '\\');
        push_char(out, 'b');
    } else if c == '\t' {
        push_char(out, '\\');
        push_char(out, 't');
    } else if c == '\n' {
        push_char(out, '\\');
        push_char(out, 'n');
    } else if c == '\x0c' {
        push_char(out, '\\');
        push_char(out, 'f');
    } else if c == '\r' {
        push_char(out, '\\');
        push_char(out, 'r');
    } else if (c as u32) <= 0x1f {
        push_char(out, '\\');
        push_char(out, 'u');
        push_char(out, '0');
        push_char(out, '0');
        push_char(out, hex_digit_char((c as u32) / 16));
        push_char(out, hex_digit_char((c as u32) % 16));
    } else {
        push_char(out, c);
    }
    assert(out@ =~= start + escaped_char(c));
}

/// Writes a string as a quoted, escaped JSON string literal.
fn write_string(out: &mut String, value: &str)
    ensures
        final(out)@ == old(out)@ + quoted(value@),
{
    let ghost start = out@;
    push_char(out, '"');
    let cs = chars_of(value);
    let mut i: usize = 0;
    assert(cs@.take(0) =~= Seq::<char>::empty());
    while i < cs.len()
        invariant
            i <= cs@.len(),
            out@ == start + seq!['"'] + escaped(cs@.take(i as int)),
        decreases cs@.len() - i,
    {
        let c = cs[i];
        write_escaped_char(out, c);
        assert(cs@.take(i + 1).drop_last() =~= cs@.take(i as int));
        i += 1;
    }
    assert(cs@.take(cs@.len() as int) =~= cs@);
    push_char(out, '"');
    assert(out@ =~= start + quoted(value@));
}

fn write_indent(out: &mut String, n: usize)
    ensures
        final(out)@ == old(out)@ + tabs(n as nat),
{
    let ghost start = out@;
    let mut i: usize = 0;
    while i < n
        invariant
            i <= n,
            out@ == start + tabs(i as nat),
        decreases n - i,
    {
        push_char(out, '\t');
        i += 1;
        assert(out@ =~= start + tabs(i as nat));
    }
}

fn write_number<N: Copy, F: Fn(N) -> String>(out: &mut String, n: N, number_text_of: &F)
    requires
        writes_numbers(*number_text_of),
    ensures
        final(out)@ == old(out)@ + number_text(*number_text_of, n),
{
    let text = number_text_of(n);
    proof {
        assert(writes_as(*number_text_of, n, text@));
        let chosen = number_text(*number_text_of, n);
        assert(writes_as(*number_text_of, n, chosen));
        let w = choose|w: String| w@ == chosen && call_ensures(*number_text_of, (n,), w);
    }
    push_str(out, text.as_str());
}

/// Writes a value at indentation `depth`; `None` (with `out` left partly
/// written) when the value holds an invalid node.
#[verifier::loop_isolation(false)]
fn write_value<N: Copy, F: Fn(N) -> String>(out: &mut String, value: &Value<N>, formatted: bool, depth: usize, number_text_of: &F) -> (r: Option<()>)
    requires
        depth + nesting(value@) < usize::MAX,
        writes_numbers(*number_text_of),
    ensures
        match printed(value@, formatted, depth as nat, *number_text_of) {
            Some(t) => r is Some && final(out)@ == old(out)@ + t,
            None => r is None,
        },
    decreases value,
{
    let ghost start = out@;
    match value {
        Value::Invalid => None,
        Value::Null => {
            push_str(out, "null");
            proof {
                reveal_strlit("null");
                assert(out@ =~= start + seq!['n', 'u', 'l', 'l']);
            }
            Some(())
        },
        Value::Bool(b) => {
            if *b {
                push_str(out, "true");
                proof {
                    reveal_strlit("true");
                    assert(out@ =~= start + seq!['t', 'r', 'u', 'e']);
                }
            } else {
                push_str(out, "false");
                proof {
                    reveal_strlit("false");
                    assert(out@ =~= start + seq!['f', 'a', 'l', 's', 'e']);
                }
            }
            Some(())
        },
        Value::Number(n) => {
            write_number(out, *n, number_text_of);
            Some(())
        },
        Value::String(text) => {
            write_string(out, text.as_str());
            Some(())
        },
        Value::Raw(text) => {
            push_str(out, text.as_str());
            Some(())
        },
        Value::Array(values) => {
            proof {
                lemma_array_view(*values);
            }
            write_array(out, values, formatted, depth, number_text_of)
        },
        Value::Object(members) => {
            proof {
                lemma_object_view(*members);
            }
            write_object(out, members, formatted, depth, number_text_of)
        },
    }
}

fn write_array<N: Copy, F: Fn(N) -> String>(out: &mut String, values: &Vec<Value<N>>, formatted: bool, depth: usize, number_text_of: &F) -> (r: Option<()>)
    requires
        depth + 1 + items_nesting(items_view(values@), values@.len()) < usize::MAX,
        writes_numbers(*number_text_of),
    ensures
        match printed(JValue::Array(items_view(values@)), formatted, depth as nat, *number_text_of) {
            Some(t) => r is Some && final(out)@ == old(out)@ + t,
            None => r is None,
        },
    decreases values, 1nat,
{
    let ghost start = out@;
    let ghost xs = items_view(values@);
    push_char(out, '[');
    let ghost opened = out@;
    let mut i: usize = 0;
    assert(opened =~= opened + Seq::<char>::empty());
    while i < values.len()
        invariant
            i <= values@.len(),
            xs == items_view(values@),
            depth + 1 + items_nesting(xs, xs.len()) < usize::MAX,
            writes_numbers(*number_text_of),
            opened == start + seq!['['],
            printed_items(xs, formatted, (depth + 1) as nat, *number_text_of, i as nat) matches Some(t) && out@ == opened + t,
        decreases values@.len() - i,
    {
        let ghost before = out@;
        if i != 0 {
            push_char(out, ',');
            if formatted {
                push_char(out, ' ');
            }
        }
        assert(out@ =~= before + item_separator(i as int, formatted));
        proof {
            lemma_items_nesting(xs, xs.len(), i as int);
            assert(xs[i as int] == values@[i as int]@);
        }
        assert(decreases_to!(values => values@[i as int]));
        let ghost mid = out@;
        let w = write_value(out, &values[i], formatted, depth + 1, number_text_of);
        if w.is_none() {
            proof {
                lemma_printed_items_none(xs, formatted, (depth + 1) as nat, *number_text_of, (i + 1) as nat, xs.len());
            }
            return None;
        }
        i += 1;
        proof {
            let a = printed_items(xs, formatted, (depth + 1) as nat, *number_text_of, (i - 1) as nat)->0;
            let b = printed(xs[i - 1], formatted, (depth + 1) as nat, *number_text_of)->0;
            assert(out@ =~= opened + (a + item_separator(i - 1, formatted) + b));
        }
    }
    push_char(out, ']');
    proof {
        let t = printed_items(xs, formatted, (depth + 1) as nat, *number_text_of, xs.len())->0;
        assert(out@ =~= start + (seq!['['] + t + seq![']']));
    }
    Some(())
}

fn write_member_head(out: &mut String, name: &str, formatted: bool, depth: usize)
    ensures
        final(out)@ == old(out)@ + member_head(name@, formatted, depth as nat),
{
    let ghost start = out@;
    if formatted {
        write_indent(out, depth);
    }
    write_string(out, name);
    push_char(out, ':');
    if formatted {
        push_char(out, '\t');
    }
    assert(out@ =~= start + member_head(name@, formatted, depth as nat));
}

fn write_member_tail(out: &mut String, k: usize, len: usize, formatted: bool)
    requires
        k < len,
    ensures
        final(out)@ == old(out)@ + member_tail(k as int, len as int, formatted),
{
    let ghost start = out@;
    if k + 1 != len {
        push_char(out, ',');
    }
    if formatted {
        push_char(out, '\n');
    }
    assert(out@ =~= start + member_tail(k as int, len as int, formatted));
}

#[verifier::rlimit(30)]
fn write_object<N: Copy, F: Fn(N) -> String>(out: &mut String, members: &Vec<Member<N>>, formatted: bool, depth: usize, number_text_of: &F) -> (r: Option<()>)
    requires
        depth + 1 + members_nesting(members_view(members@), members@.len()) < usize::MAX,
        writes_numbers(*number_text_of),
    ensures
        match printed(JValue::Object(members_view(members@)), formatted, depth as nat, *number_text_of) {
            Some(t) => r is Some && final(out)@ == old(out)@ + t,
            None => r is None,
        },
    decreases members, 1nat,
{
    let ghost start = out@;
    let ghost ms = members_view(members@);
    push_char(out, '{');
    if formatted {
        push_char(out, '\n');
    }
    let ghost opened = out@;
    assert(opened =~= start + seq!['{'] + (if formatted { seq!['\n'] } else { Seq::empty() }));
    let mut k: usize = 0;
    assert(opened =~= opened + Seq::<char>::empty());
    while k < members.len()
        invariant
            k <= members@.len(),
            ms == members_view(members@),
            depth + 1 + members_nesting(ms, ms.len()) < usize::MAX,
            writes_numbers(*number_text_of),
            printed_members(ms, formatted, (depth + 1) as nat, *number_text_of, k as nat) matches Some(t) && out@ == opened + t,
        decreases members@.len() - k,
    {
        let ghost before = out@;
        write_member_head(out, members[k].name.as_str(), formatted, depth + 1);
        proof {
            lemma_members_nesting(ms, ms.len(), k as int);
            assert(ms[k as int] == members@[k as int]@);
        }
        assert(decreases_to!(members => members@[k as int].value));
        let w = write_value(out, &members[k].value, formatted, depth + 1, number_text_of);
        if w.is_none() {
            proof {
                lemma_printed_members_none(ms, formatted, (depth + 1) as nat, *number_text_of, (k + 1) as nat, ms.len());
            }
            return None;
        }
        write_member_tail(out, k, members.len(), formatted);
        k += 1;
        proof {
            let a = printed_members(ms, formatted, (depth + 1) as nat, *number_text_of, (k - 1) as nat)->0;
            let b = printed(ms[k - 1].value, formatted, (depth + 1) as nat, *number_text_of)->0;
            lemma_member_text(ms[k - 1].name, b, k - 1, ms.len() as int, formatted, (depth + 1) as nat);
            assert(out@ =~= opened + (a + member_text(ms[k - 1].name, b, k - 1, ms.len() as int, formatted, (depth + 1) as nat)));
        }
    }
    let ghost body_end = out@;
    if formatted {
        write_indent(out, depth);
    }
    push_char(out, '}');
    proof {
        let t = printed_members(ms, formatted, (depth + 1) as nat, *number_text_of, ms.len())->0;
        assert(out@ =~= start + (seq!['{'] + (if formatted { seq!['\n'] } else { Seq::empty() }) + t + (if formatted {
            tabs(depth as nat)
        } else {
            Seq::empty()
        }) + seq!['}']));
    }
    Some(())
}

fn render<N: Copy, F: Fn(N) -> String>(value: &Value<N>, formatted: bool, number_text_of: &F) -> (r: Option<String>)
    requires
        nesting(value@) < usize::MAX,
        writes_numbers(*number_text_of),
    ensures
        match printed(value@, formatted, 0, *number_text_of) {
            Some(t) => r matches Some(s) && s@ == t,
            None => r is None,
        },
{
    let mut out = String::new();
    match write_value(&mut out, value, formatted, 0, number_text_of) {
        Some(()) => {
            assert(out@ =~= Seq::<char>::empty() + out@);
            Some(out)
        },
        None => None,
    }
}

/// Prints a value in the tab-indented format; `None` when the value
/// holds an invalid node. `number_text` writes each number.
pub fn print<N: Copy, F: Fn(N) -> String>(value: &Value<N>, number_text: &F) -> (r: Option<String>)
    requires
        nesting(value@) < usize::MAX,
        writes_numbers(*number_text),
    ensures
        match printed(value@, true, 0, *number_text) {
            Some(t) => r matches Some(s) && s@ == t,
            None => r is None,
        },
{
    render(value, true, number_text)
}

/// Prints a value with no insignificant whitespace; `None` when the value
/// holds an invalid node. `number_text` writes each number.
pub fn print_unformatted<N: Copy, F: Fn(N) -> String>(value: &Value<N>, number_text: &F) -> (r: Option<String>)
    requires
        nesting(value@) < usize::MAX,
        writes_numbers(*number_text),
    ensures
        match printed(value@, false, 0, *number_text) {
            Some(t) => r matches Some(s) && s@ == t,
            None => r is None,
        },
{
    render(value, false, number_text)
}

} // verus!
