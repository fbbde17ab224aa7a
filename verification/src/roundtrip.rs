//! Printing and parsing undo each other: the text the printer writes for a
//! value reads back, through the parser, as that same value.
use vstd::prelude::*;
use crate::parser::{
    Failure, c_float_len, escape, hex_digit, hex_digits, json_space, number_at, number_char, number_of, scan_end,
    skip_ws, string_chars, unicode_escape,
};
use crate::parser::{array_body, array_items, object_body, object_members, parsed, value_at, word_at};
use crate::printer::{
    escaped, escaped_char, item_separator, lemma_items_nesting, lemma_member_text, lemma_members_nesting, member_head,
    member_tail, member_text, nesting, number_text, printed, printed_items, printed_members, quoted, tabs,
};
use crate::value::{JMember, JValue};
use crate::text::hex_lower;

verus! {

/// Escaping distributes over concatenation.
pub proof fn lemma_escaped_append(a: Seq<char>, b: Seq<char>)
    ensures
        escaped(a + b) == escaped(a) + escaped(b),
    decreases b.len(),
{
    if b.len() == 0 {
        assert(a + b =~= a);
        assert(escaped(a) + escaped(b) =~= escaped(a));
    } else {
        let c = b.last();
        let b2 = b.drop_last();
        lemma_escaped_append(a, b2);
        assert((a + b).drop_last() =~= a + b2);
        assert((a + b).last() == c);
        assert(escaped(a + b) =~= escaped(a) + escaped(b));
    }
}

/// The escaped text of a string, read from the front.
pub proof fn lemma_escaped_front(s: Seq<char>)
    requires
        s.len() > 0,
    ensures
        escaped(s) == escaped_char(s[0]) + escaped(s.drop_first()),
{
    lemma_escaped_append(seq![s[0]], s.drop_first());
    assert(seq![s[0]] + s.drop_first() =~= s);
    assert(seq![s[0]].drop_last() =~= Seq::<char>::empty());
    assert(seq![s[0]].last() == s[0]);
    assert(escaped(Seq::<char>::empty()) =~= Seq::<char>::empty());
    assert(escaped(seq![s[0]]) =~= escaped_char(s[0]));
}

proof fn lemma_hex_lower_value(d: u32)
    requires
        d < 16,
    ensures
        hex_digit(hex_lower(d)) == Some(d as int),
{
}

/// `\u00XY` for a control character reads back as that character.
proof fn lemma_control_escape(s: Seq<char>, pos: int, c: char)
    requires
        (c as u32) <= 0x1f,
        0 <= pos,
        pos + 4 <= s.len(),
        s.subrange(pos, pos + 4) == seq!['0', '0', hex_lower((c as u32) / 16), hex_lower((c as u32) % 16)],
    ensures
        unicode_escape(s, pos) == Ok::<(char, int), Failure>((c, pos + 4)),
{
    let x = c as u32;
    assert(s[pos] == '0');
    assert(s[pos + 1] == '0');
    assert(s[pos + 2] == hex_lower(x / 16));
    assert(s[pos + 3] == hex_lower(x % 16));
    lemma_hex_lower_value(x / 16);
    lemma_hex_lower_value(x % 16);
    assert(hex_digits(s, pos + 4, 0, (x / 16) * 16 + x % 16) == Ok::<(int, int), Failure>(((x / 16) * 16 + x % 16, pos + 4)));
    assert(hex_digits(s, pos + 3, 1, (x / 16) as int) == hex_digits(s, pos + 4, 0, (x / 16) * 16 + x % 16));
    assert(hex_digits(s, pos + 2, 2, 0) == hex_digits(s, pos + 3, 1, (x / 16) as int));
    assert(hex_digits(s, pos + 1, 3, 0) == hex_digits(s, pos + 2, 2, 0));
    assert(hex_digits(s, pos, 4, 0) == hex_digits(s, pos + 1, 3, 0));
    assert((x / 16) * 16 + x % 16 == x);
    vstd::utf8::char_u32_cast(c, x);
}

/// An escaped character at `pos` reads back as that character.
proof fn lemma_escaped_char_reads(s: Seq<char>, pos: int, c: char)
    requires
        0 <= pos,
        pos + escaped_char(c).len() <= s.len(),
        s.subrange(pos, pos + escaped_char(c).len()) == escaped_char(c),
    ensures
        escaped_char(c).len() >= 1,
        escaped_char(c).len() == 1 ==> s[pos] == c && c != '"' && c != '\\',
        escaped_char(c).len() > 1 ==> s[pos] == '\\' && escape(s, pos + 1) == Ok::<(char, int), Failure>(
            (c, pos + escaped_char(c).len()),
        ),
{
    let e = escaped_char(c);
    assert forall|k: int| 0 <= k < e.len() implies s[pos + k] == e[k] by {
        assert(s.subrange(pos, pos + e.len())[k] == s[pos + k]);
    }
    assert(s.subrange(pos, pos + e.len())[0] == s[pos]);
    if e.len() > 1 {
        assert(s.subrange(pos, pos + e.len())[1] == s[pos + 1]);
    }
    if (c as u32) <= 0x1f && c != '\x08' && c != '\t' && c != '\n' && c != '\x0c' && c != '\r' {
        assert(s.subrange(pos + 2, pos + 6) =~= seq!['0', '0', hex_lower((c as u32) / 16), hex_lower((c as u32) % 16)]);
        lemma_control_escape(s, pos + 2, c);
    }
}

/// A quoted string's body, followed by its closing quote, reads back as the
/// string; `pos` is just after the opening quote.
pub proof fn lemma_string_chars_escaped(s: Seq<char>, pos: int, text: Seq<char>)
    requires
        0 <= pos,
        pos + escaped(text).len() + 1 <= s.len(),
        s.subrange(pos, pos + escaped(text).len() + 1) == escaped(text) + seq!['"'],
    ensures
        string_chars(s, pos) == Ok::<(Seq<char>, int), Failure>((text, pos + escaped(text).len() + 1)),
    decreases text.len(),
{
    let body = escaped(text) + seq!['"'];
    assert forall|k: int| 0 <= k < body.len() implies s[pos + k] == body[k] by {
        assert(s.subrange(pos, pos + body.len())[k] == s[pos + k]);
    }
    assert(s.subrange(pos, pos + body.len())[0] == s[pos]);
    if text.len() == 0 {
        assert(escaped(text) =~= Seq::<char>::empty());
        assert(body[0] == '"');
        assert(s[pos] == '"');
        assert(text =~= Seq::<char>::empty());
    } else {
        let c = text[0];
        let rest = text.drop_first();
        lemma_escaped_front(text);
        let e = escaped_char(c);
        assert(escaped(text) == e + escaped(rest));
        assert(s.subrange(pos, pos + e.len()) =~= e) by {
            assert forall|k: int| 0 <= k < e.len() implies s.subrange(pos, pos + e.len())[k] == e[k] by {
                assert(body[k] == e[k]);
            }
        }
        lemma_escaped_char_reads(s, pos, c);
        let next = pos + e.len();
        assert(s.subrange(next, next + escaped(rest).len() + 1) =~= escaped(rest) + seq!['"']) by {
            assert forall|k: int| 0 <= k < escaped(rest).len() + 1 implies s.subrange(
                next,
                next + escaped(rest).len() + 1,
            )[k] == (escaped(rest) + seq!['"'])[k] by {
                assert(body[e.len() + k] == (escaped(rest) + seq!['"'])[k]);
            }
        }
        lemma_string_chars_escaped(s, next, rest);
        assert(seq![c] + rest =~= text);
        assert(s[pos] != '"');
    }
}

/// A quoted string at `pos` reads back: the characters after the opening
/// quote give the string and the position after the closing quote.
pub proof fn lemma_quoted_reads(s: Seq<char>, pos: int, text: Seq<char>)
    requires
        0 <= pos,
        pos + quoted(text).len() <= s.len(),
        s.subrange(pos, pos + quoted(text).len()) == quoted(text),
    ensures
        s[pos] == '"',
        string_chars(s, pos + 1) == Ok::<(Seq<char>, int), Failure>((text, pos + quoted(text).len())),
{
    let q = quoted(text);
    assert(s.subrange(pos, pos + q.len())[0] == s[pos]);
    assert(s.subrange(pos + 1, pos + 1 + escaped(text).len() + 1) =~= escaped(text) + seq!['"']) by {
        assert forall|k: int| 0 <= k < escaped(text).len() + 1 implies s.subrange(
            pos + 1,
            pos + 1 + escaped(text).len() + 1,
        )[k] == (escaped(text) + seq!['"'])[k] by {
            assert(s.subrange(pos, pos + q.len())[k + 1] == s[pos + 1 + k]);
            assert(q[k + 1] == (escaped(text) + seq!['"'])[k]);
        }
    }
    lemma_string_chars_escaped(s, pos + 1, text);
}


/// A number's text that reads back whole: number characters only, starting
/// with a sign or a digit, all of it taken by `strtod`.
pub open spec fn number_token(t: Seq<char>) -> bool {
    &&& t.len() > 0
    &&& (t[0] == '-' || ('0' <= t[0] && t[0] <= '9'))
    &&& forall|i: int| 0 <= i < t.len() ==> number_char(#[trigger] t[i])
    &&& c_float_len(t) == Some(t.len() as int)
}

proof fn lemma_scan_end_run(s: Seq<char>, p: int, end: int)
    requires
        0 <= p <= end <= s.len(),
        forall|i: int| p <= i < end ==> number_char(#[trigger] s[i]),
        end < s.len() ==> !number_char(s[end]),
    ensures
        scan_end(s, p) == end,
    decreases end - p,
{
    if p < end {
        lemma_scan_end_run(s, p + 1, end);
    }
}

/// A number's text at `pos`, followed by something that is not a number
/// character, reads back as the number.
pub proof fn lemma_number_reads<N, F: Fn(&str) -> N>(s: Seq<char>, pos: int, t: Seq<char>, n: N, f: F)
    requires
        number_token(t),
        number_of(f, t) == n,
        0 <= pos,
        pos + t.len() <= s.len(),
        s.subrange(pos, pos + t.len()) == t,
        pos + t.len() < s.len() ==> !number_char(s[pos + t.len()]),
    ensures
        number_at(s, pos, f) == Ok::<(N, int), Failure>((n, pos + t.len())),
{
    assert forall|i: int| pos <= i < pos + t.len() implies number_char(#[trigger] s[i]) by {
        assert(s.subrange(pos, pos + t.len())[i - pos] == s[i]);
    }
    lemma_scan_end_run(s, pos, pos + t.len());
    assert(t.take(t.len() as int) =~= t);
}

/// A run of whitespace is skipped up to the first character that is not.
pub proof fn lemma_skip_ws_run(s: Seq<char>, p: int, end: int)
    requires
        0 <= p <= end <= s.len(),
        forall|i: int| p <= i < end ==> json_space(#[trigger] s[i]),
        end < s.len() ==> !json_space(s[end]),
    ensures
        skip_ws(s, p) == end,
    decreases end - p,
{
    if p < end {
        lemma_skip_ws_run(s, p + 1, end);
    }
}

/// Every number, string and nested value of `v` prints as text that reads
/// back as itself: there is no invalid node and no raw text, and each
/// number's text is a number token that `f` reads as that number.
pub open spec fn reads_back<N, G: Fn(N) -> String, F: Fn(&str) -> N>(v: JValue<N>, g: G, f: F) -> bool
    decreases v, 0nat,
{
    match v {
        JValue::Invalid => false,
        JValue::Raw(_) => false,
        JValue::Number(n) => number_token(number_text(g, n)) && number_of(f, number_text(g, n)) == n,
        JValue::Array(xs) => items_read_back(xs, g, f, xs.len()),
        JValue::Object(ms) => members_read_back(ms, g, f, ms.len()),
        _ => true,
    }
}

pub open spec fn items_read_back<N, G: Fn(N) -> String, F: Fn(&str) -> N>(xs: Seq<JValue<N>>, g: G, f: F, n: nat) -> bool
    decreases xs, n,
{
    if n == 0 {
        true
    } else if n > xs.len() {
        false
    } else {
        items_read_back(xs, g, f, (n - 1) as nat) && reads_back(xs[n - 1], g, f)
    }
}

pub open spec fn members_read_back<N, G: Fn(N) -> String, F: Fn(&str) -> N>(ms: Seq<JMember<N>>, g: G, f: F, n: nat) -> bool
    decreases ms, n,
{
    if n == 0 {
        true
    } else if n > ms.len() {
        false
    } else {
        members_read_back(ms, g, f, (n - 1) as nat) && reads_back(ms[n - 1].value, g, f)
    }
}

proof fn lemma_items_read_back<N, G: Fn(N) -> String, F: Fn(&str) -> N>(xs: Seq<JValue<N>>, g: G, f: F, n: nat)
    requires
        items_read_back(xs, g, f, n),
    ensures
        n <= xs.len(),
        forall|j: int| 0 <= j < n ==> reads_back(#[trigger] xs[j], g, f),
    decreases n,
{
    if n > 0 {
        lemma_items_read_back(xs, g, f, (n - 1) as nat);
    }
}

proof fn lemma_members_read_back<N, G: Fn(N) -> String, F: Fn(&str) -> N>(ms: Seq<JMember<N>>, g: G, f: F, n: nat)
    requires
        members_read_back(ms, g, f, n),
    ensures
        n <= ms.len(),
        forall|j: int| 0 <= j < n ==> reads_back(#[trigger] ms[j].value, g, f),
    decreases n,
{
    if n > 0 {
        lemma_members_read_back(ms, g, f, (n - 1) as nat);
    }
}

/// The array elements from `k` on as the printer writes them, each with the
/// separator before it.
pub open spec fn items_from<N, G: Fn(N) -> String>(xs: Seq<JValue<N>>, fm: bool, depth: nat, g: G, k: int) -> Seq<char>
    decreases xs.len() - k,
{
    if k < 0 || k >= xs.len() {
        Seq::empty()
    } else {
        item_separator(k, fm) + printed(xs[k], fm, depth, g)->0 + items_from(xs, fm, depth, g, k + 1)
    }
}

/// The object members from `k` on as the printer writes them.
pub open spec fn members_from<N, G: Fn(N) -> String>(ms: Seq<JMember<N>>, fm: bool, depth: nat, g: G, k: int) -> Seq<char>
    decreases ms.len() - k,
{
    if k < 0 || k >= ms.len() {
        Seq::empty()
    } else {
        member_text(ms[k].name, printed(ms[k].value, fm, depth, g)->0, k, ms.len() as int, fm, depth) + members_from(
            ms,
            fm,
            depth,
            g,
            k + 1,
        )
    }
}

/// A value that reads back prints, and its text starts with the character
/// the parser dispatches on.
pub proof fn lemma_printed_reads_back<N, G: Fn(N) -> String, F: Fn(&str) -> N>(v: JValue<N>, fm: bool, depth: nat, g: G, f: F)
    requires
        reads_back(v, g, f),
    ensures
        printed(v, fm, depth, g) is Some,
        printed(v, fm, depth, g)->0.len() > 0,
        ({
            let c = printed(v, fm, depth, g)->0[0];
            &&& !json_space(c)
            &&& c != ']' && c != '}' && c != ','
        }),
        v is Array ==> printed(v, fm, depth, g)->0 == seq!['['] + items_from(v->Array_0, fm, depth + 1, g, 0)
            + seq![']'],
        v is Object ==> printed(v, fm, depth, g)->0 == seq!['{'] + (if fm {
            seq!['\n']
        } else {
            Seq::empty()
        }) + members_from(v->Object_0, fm, depth + 1, g, 0) + (if fm {
            tabs(depth)
        } else {
            Seq::empty()
        }) + seq!['}'],
    decreases v, 0nat,
{
    match v {
        JValue::Array(xs) => {
            lemma_items_read_back(xs, g, f, xs.len());
            assert forall|j: int| 0 <= j < xs.len() implies #[trigger] printed(xs[j], fm, depth + 1, g) is Some by {
                lemma_printed_reads_back(xs[j], fm, depth + 1, g, f);
            }
            lemma_items_text(xs, fm, depth + 1, g, xs.len());
        },
        JValue::Object(ms) => {
            lemma_members_read_back(ms, g, f, ms.len());
            assert forall|j: int| 0 <= j < ms.len() implies #[trigger] printed(ms[j].value, fm, depth + 1, g) is Some by {
                lemma_printed_reads_back(ms[j].value, fm, depth + 1, g, f);
            }
            lemma_members_text(ms, fm, depth + 1, g, ms.len());
            let body = printed_members(ms, fm, depth + 1, g, ms.len())->0;
            assert(printed(v, fm, depth, g)->0 =~= seq!['{'] + (if fm {
                seq!['\n']
            } else {
                Seq::empty()
            }) + members_from(ms, fm, depth + 1, g, 0) + (if fm {
                tabs(depth)
            } else {
                Seq::empty()
            }) + seq!['}']);
        },
        JValue::Str(t) => {
            assert(quoted(t)[0] == '"');
        },
        _ => {},
    }
}

/// The printed elements, read as a whole, are the elements read one after
/// the other.
proof fn lemma_items_text<N, G: Fn(N) -> String>(xs: Seq<JValue<N>>, fm: bool, depth: nat, g: G, n: nat)
    requires
        n <= xs.len(),
        forall|j: int| 0 <= j < xs.len() ==> #[trigger] printed(xs[j], fm, depth, g) is Some,
    ensures
        printed_items(xs, fm, depth, g, n) is Some,
        printed_items(xs, fm, depth, g, n)->0 + items_from(xs, fm, depth, g, n as int) == items_from(xs, fm, depth, g, 0),
    decreases n,
{
    if n == 0 {
        assert(Seq::<char>::empty() + items_from(xs, fm, depth, g, 0) =~= items_from(xs, fm, depth, g, 0));
    } else {
        lemma_items_text(xs, fm, depth, g, (n - 1) as nat);
        let a = printed_items(xs, fm, depth, g, (n - 1) as nat)->0;
        let b = printed(xs[n - 1], fm, depth, g)->0;
        assert(items_from(xs, fm, depth, g, n - 1) == item_separator(n - 1, fm) + b + items_from(xs, fm, depth, g, n as int));
        assert(a + item_separator(n - 1, fm) + b + items_from(xs, fm, depth, g, n as int) =~= a + items_from(
            xs,
            fm,
            depth,
            g,
            n - 1,
        ));
    }
}

/// The printed members, read as a whole, are the members read one after
/// the other.
proof fn lemma_members_text<N, G: Fn(N) -> String>(ms: Seq<JMember<N>>, fm: bool, depth: nat, g: G, n: nat)
    requires
        n <= ms.len(),
        forall|j: int| 0 <= j < ms.len() ==> #[trigger] printed(ms[j].value, fm, depth, g) is Some,
    ensures
        printed_members(ms, fm, depth, g, n) is Some,
        printed_members(ms, fm, depth, g, n)->0 + members_from(ms, fm, depth, g, n as int) == members_from(ms, fm, depth, g, 0),
    decreases n,
{
    if n == 0 {
        assert(Seq::<char>::empty() + members_from(ms, fm, depth, g, 0) =~= members_from(ms, fm, depth, g, 0));
    } else {
        lemma_members_text(ms, fm, depth, g, (n - 1) as nat);
        let a = printed_members(ms, fm, depth, g, (n - 1) as nat)->0;
        let b = member_text(ms[n - 1].name, printed(ms[n - 1].value, fm, depth, g)->0, n - 1, ms.len() as int, fm, depth);
        assert(a + b + members_from(ms, fm, depth, g, n as int) =~= a + members_from(ms, fm, depth, g, n - 1));
    }
}


/// Splitting a known stretch of text in two.
proof fn lemma_split_at(s: Seq<char>, start: int, a: Seq<char>, b: Seq<char>)
    requires
        0 <= start,
        start + a.len() + b.len() <= s.len(),
        s.subrange(start, start + a.len() + b.len()) == a + b,
    ensures
        s.subrange(start, start + a.len()) == a,
        s.subrange(start + a.len(), start + a.len() + b.len()) == b,
{
    assert forall|i: int| 0 <= i < a.len() implies s.subrange(start, start + a.len())[i] == a[i] by {
        assert(s.subrange(start, start + a.len() + b.len())[i] == s[start + i]);
        assert((a + b)[i] == a[i]);
    }
    assert forall|i: int| 0 <= i < b.len() implies s.subrange(start + a.len(), start + a.len() + b.len())[i] == b[i] by {
        assert(s.subrange(start, start + a.len() + b.len())[a.len() + i] == s[start + a.len() + i]);
        assert((a + b)[a.len() + i] == b[i]);
    }
    assert(s.subrange(start, start + a.len()) =~= a);
    assert(s.subrange(start + a.len(), start + a.len() + b.len()) =~= b);
}

/// A character of a known stretch of text.
proof fn lemma_char_at(s: Seq<char>, start: int, a: Seq<char>, i: int)
    requires
        0 <= start,
        start + a.len() <= s.len(),
        s.subrange(start, start + a.len()) == a,
        0 <= i < a.len(),
    ensures
        s[start + i] == a[i],
{
    assert(s.subrange(start, start + a.len())[i] == s[start + i]);
}

pub open spec fn all_space(w: Seq<char>) -> bool {
    forall|i: int| 0 <= i < w.len() ==> json_space(#[trigger] w[i])
}

proof fn lemma_tabs_space(n: nat)
    ensures
        all_space(tabs(n)),
        all_space(seq!['\n']),
        all_space(seq!['\t']),
        all_space(seq![' ']),
        all_space(Seq::<char>::empty()),
{
}

/// Skipping whitespace stretch `w` that stands at `p` and is followed by
/// the non-space text `rest`.
proof fn lemma_skip_known_ws(s: Seq<char>, p: int, w: Seq<char>, rest: Seq<char>)
    requires
        all_space(w),
        rest.len() > 0,
        !json_space(rest[0]),
        0 <= p,
        p + w.len() + rest.len() <= s.len(),
        s.subrange(p, p + w.len() + rest.len()) == w + rest,
    ensures
        skip_ws(s, p) == p + w.len(),
        s[p + w.len()] == rest[0],
{
    lemma_split_at(s, p, w, rest);
    assert forall|i: int| p <= i < p + w.len() implies json_space(#[trigger] s[i]) by {
        lemma_char_at(s, p, w, i - p);
    }
    lemma_char_at(s, p + w.len(), rest, 0);
    lemma_skip_ws_run(s, p, p + w.len());
}

/// How `value_at` continues once whitespace is skipped: by the character
/// found there.
proof fn lemma_value_at_dispatch<N, F: Fn(&str) -> N>(s: Seq<char>, pos: int, q: int, d: int, f: F)
    requires
        0 <= d < 1000,
        0 <= pos <= q < s.len(),
        skip_ws(s, pos) == q,
    ensures
        s[q] == '[' ==> value_at(s, pos, d, f) == array_body(s, q + 1, d + 1, f),
        s[q] == '{' ==> value_at(s, pos, d, f) == object_body(s, q + 1, d + 1, f),
        s[q] == '"' ==> value_at(s, pos, d, f) == match string_chars(s, q + 1) {
            Err(e) => Err(e),
            Ok((t, r)) => Ok::<(JValue<N>, int), Failure>((JValue::Str(t), r)),
        },
        (s[q] == '-' || ('0' <= s[q] && s[q] <= '9')) ==> value_at(s, pos, d, f) == match number_at(s, q, f) {
            Err(e) => Err(e),
            Ok((n, r)) => Ok::<(JValue<N>, int), Failure>((JValue::Number(n), r)),
        },
        (s[q] == 'n' && word_at(s, q, seq!['n', 'u', 'l', 'l'])) ==> value_at(s, pos, d, f) == Ok::<
            (JValue<N>, int),
            Failure,
        >((JValue::Null, q + 4)),
        (s[q] == 't' && word_at(s, q, seq!['t', 'r', 'u', 'e'])) ==> value_at(s, pos, d, f) == Ok::<
            (JValue<N>, int),
            Failure,
        >((JValue::Bool(true), q + 4)),
        (s[q] == 'f' && word_at(s, q, seq!['f', 'a', 'l', 's', 'e'])) ==> value_at(s, pos, d, f) == Ok::<
            (JValue<N>, int),
            Failure,
        >((JValue::Bool(false), q + 5)),
{
}

/// An empty array body, or the elements' reading.
proof fn lemma_array_body_step<N, F: Fn(&str) -> N>(s: Seq<char>, p: int, d: int, f: F)
    requires
        0 <= p < s.len(),
        !json_space(s[p]),
    ensures
        s[p] == ']' ==> array_body(s, p, d, f) == Ok::<(JValue<N>, int), Failure>((JValue::Array(Seq::empty()), p + 1)),
        s[p] != ']' ==> array_body(s, p, d, f) == match array_items(s, p, d, f) {
            Err(e) => Err(e),
            Ok((items, r)) => Ok::<(JValue<N>, int), Failure>((JValue::Array(items), r)),
        },
{
    lemma_skip_ws_run(s, p, p);
}

/// An empty object body, or the members' reading; `p` is where whitespace
/// after the `{` ends.
proof fn lemma_object_body_step<N, F: Fn(&str) -> N>(s: Seq<char>, pos: int, p: int, d: int, f: F)
    requires
        0 <= pos <= p < s.len(),
        skip_ws(s, pos) == p,
    ensures
        s[p] == '}' ==> object_body(s, pos, d, f) == Ok::<(JValue<N>, int), Failure>((JValue::Object(Seq::empty()), p + 1)),
        s[p] != '}' ==> object_body(s, pos, d, f) == match object_members(s, p, d, f) {
            Err(e) => Err(e),
            Ok((ms, r)) => Ok::<(JValue<N>, int), Failure>((JValue::Object(ms), r)),
        },
{
}

/// One element of an array and what follows it.
proof fn lemma_array_items_step<N, F: Fn(&str) -> N>(s: Seq<char>, start: int, d: int, f: F, v: JValue<N>, p2: int)
    requires
        0 <= start <= p2 < s.len(),
        value_at(s, start, d, f) == Ok::<(JValue<N>, int), Failure>((v, p2)),
        s[p2] == ',' || s[p2] == ']',
    ensures
        s[p2] == ']' ==> array_items(s, start, d, f) == Ok::<(Seq<JValue<N>>, int), Failure>((seq![v], p2 + 1)),
        s[p2] == ',' ==> array_items(s, start, d, f) == match array_items(s, skip_ws(s, p2 + 1), d, f) {
            Err(e) => Err(e),
            Ok((rest, q)) => Ok::<(Seq<JValue<N>>, int), Failure>((seq![v] + rest, q)),
        },
{
    lemma_skip_ws_run(s, p2, p2);
}

/// One member of an object and what follows it.
proof fn lemma_object_members_step<N, F: Fn(&str) -> N>(
    s: Seq<char>,
    start: int,
    d: int,
    f: F,
    name: Seq<char>,
    p1: int,
    v: JValue<N>,
    p3: int,
    p4: int,
)
    requires
        0 <= start < p1 < p3 <= p4 < s.len(),
        s[start] == '"',
        string_chars(s, start + 1) == Ok::<(Seq<char>, int), Failure>((name, p1)),
        s[p1] == ':',
        value_at(s, p1 + 1, d, f) == Ok::<(JValue<N>, int), Failure>((v, p3)),
        skip_ws(s, p3) == p4,
        s[p4] == ',' || s[p4] == '}',
    ensures
        s[p4] == '}' ==> object_members(s, start, d, f) == Ok::<(Seq<JMember<N>>, int), Failure>(
            (seq![JMember { name, value: v }], p4 + 1),
        ),
        s[p4] == ',' ==> object_members(s, start, d, f) == match object_members(s, skip_ws(s, p4 + 1), d, f) {
            Err(e) => Err(e),
            Ok((rest, q)) => Ok::<(Seq<JMember<N>>, int), Failure>((seq![JMember { name, value: v }] + rest, q)),
        },
{
    lemma_skip_ws_run(s, p1, p1);
}


/// The printed text of a value, after `lead` whitespace characters at
/// `pos`, reads back as the value when what follows it is not a number
/// character.
proof fn lemma_value_reads_back<N, G: Fn(N) -> String, F: Fn(&str) -> N>(
    s: Seq<char>,
    pos: int,
    lead: int,
    v: JValue<N>,
    fm: bool,
    dp: nat,
    g: G,
    f: F,
    d: int,
)
    requires
        reads_back(v, g, f),
        0 <= d,
        d + nesting(v) < 1000,
        0 <= pos,
        0 <= lead,
        forall|i: int| pos <= i < pos + lead ==> json_space(#[trigger] s[i]),
        pos + lead + printed(v, fm, dp, g)->0.len() <= s.len(),
        s.subrange(pos + lead, pos + lead + printed(v, fm, dp, g)->0.len()) == printed(v, fm, dp, g)->0,
        pos + lead + printed(v, fm, dp, g)->0.len() < s.len() ==> !number_char(
            s[pos + lead + printed(v, fm, dp, g)->0.len()],
        ),
    ensures
        value_at(s, pos, d, f) == Ok::<(JValue<N>, int), Failure>((v, pos + lead + printed(v, fm, dp, g)->0.len())),
    decreases v, 0nat,
{
    lemma_printed_reads_back(v, fm, dp, g, f);
    let t = printed(v, fm, dp, g)->0;
    let q = pos + lead;
    lemma_char_at(s, q, t, 0);
    lemma_skip_ws_run(s, pos, q);
    lemma_value_at_dispatch::<N, F>(s, pos, q, d, f);
    match v {
        JValue::Str(text) => {
            lemma_quoted_reads(s, q, text);
        },
        JValue::Number(n) => {
            lemma_number_reads(s, q, t, n, f);
        },
        JValue::Array(xs) => {
            lemma_array_reads_back(s, q, xs, fm, dp, g, f, d);
        },
        JValue::Object(ms) => {
            lemma_object_reads_back(s, q, ms, fm, dp, g, f, d);
        },
        _ => {},
    }
}

/// The text of an array reads back from its `[` on.
proof fn lemma_array_reads_back<N, G: Fn(N) -> String, F: Fn(&str) -> N>(
    s: Seq<char>,
    q: int,
    xs: Seq<JValue<N>>,
    fm: bool,
    dp: nat,
    g: G,
    f: F,
    d: int,
)
    requires
        reads_back(JValue::Array(xs), g, f),
        0 <= d,
        d + nesting(JValue::Array(xs)) < 1000,
        0 <= q,
        q + printed(JValue::Array(xs), fm, dp, g)->0.len() <= s.len(),
        s.subrange(q, q + printed(JValue::Array(xs), fm, dp, g)->0.len()) == printed(JValue::Array(xs), fm, dp, g)->0,
    ensures
        array_body(s, q + 1, d + 1, f) == Ok::<(JValue<N>, int), Failure>(
            (JValue::Array(xs), q + printed(JValue::Array(xs), fm, dp, g)->0.len()),
        ),
    decreases xs, xs.len() + 1,
{
    lemma_printed_reads_back(JValue::Array(xs), fm, dp, g, f);
    lemma_items_read_back(xs, g, f, xs.len());
    let t = printed(JValue::Array(xs), fm, dp, g)->0;
    let body = items_from(xs, fm, dp + 1, g, 0);
    assert(t =~= seq!['['] + (body + seq![']']));
    lemma_split_at(s, q, seq!['['], body + seq![']']);
    if xs.len() == 0 {
        assert(body =~= Seq::<char>::empty());
        lemma_char_at(s, q + 1, body + seq![']'], 0);
        lemma_array_body_step::<N, F>(s, q + 1, d + 1, f);
        assert(xs =~= Seq::<JValue<N>>::empty());
    } else {
        let first = printed(xs[0], fm, dp + 1, g)->0;
        lemma_printed_reads_back(xs[0], fm, dp + 1, g, f);
        assert(body == item_separator(0, fm) + first + items_from(xs, fm, dp + 1, g, 1));
        assert((body + seq![']'])[0] == first[0]);
        lemma_char_at(s, q + 1, body + seq![']'], 0);
        lemma_array_body_step::<N, F>(s, q + 1, d + 1, f);
        assert forall|j: int| 0 <= j < xs.len() implies reads_back(#[trigger] xs[j], g, f) && d + 1 + nesting(xs[j]) < 1000 by {
            lemma_items_nesting(xs, xs.len(), j);
        }
        assert(body + seq![']'] =~= first + items_from(xs, fm, dp + 1, g, 1) + seq![']']);
        lemma_items_reads_back(s, q + 1, xs, 0, fm, dp + 1, g, f, d + 1);
        assert(xs.skip(0) =~= xs);
    }
}

/// The elements of an array from `k` on, followed by its `]`, read back.
#[verifier::rlimit(40)]
proof fn lemma_items_reads_back<N, G: Fn(N) -> String, F: Fn(&str) -> N>(
    s: Seq<char>,
    start: int,
    xs: Seq<JValue<N>>,
    k: int,
    fm: bool,
    ipd: nat,
    g: G,
    f: F,
    di: int,
)
    requires
        0 <= k < xs.len(),
        0 <= di,
        forall|j: int| 0 <= j < xs.len() ==> reads_back(#[trigger] xs[j], g, f) && di + nesting(xs[j]) < 1000,
        0 <= start,
        start + (printed(xs[k], fm, ipd, g)->0 + items_from(xs, fm, ipd, g, k + 1) + seq![']']).len() <= s.len(),
        s.subrange(start, start + (printed(xs[k], fm, ipd, g)->0 + items_from(xs, fm, ipd, g, k + 1) + seq![']']).len())
            == printed(xs[k], fm, ipd, g)->0 + items_from(xs, fm, ipd, g, k + 1) + seq![']'],
    ensures
        array_items(s, start, di, f) == Ok::<(Seq<JValue<N>>, int), Failure>(
            (
                xs.skip(k),
                start + (printed(xs[k], fm, ipd, g)->0 + items_from(xs, fm, ipd, g, k + 1) + seq![']']).len(),
            ),
        ),
    decreases xs, xs.len() - k,
{
    let p = printed(xs[k], fm, ipd, g)->0;
    let rest = items_from(xs, fm, ipd, g, k + 1);
    let tail = rest + seq![']'];
    lemma_printed_reads_back(xs[k], fm, ipd, g, f);
    assert(p + rest + seq![']'] =~= p + tail);
    lemma_split_at(s, start, p, tail);
    let p2 = start + p.len();
    lemma_char_at(s, p2, tail, 0);
    if k + 1 < xs.len() {
        let sep = item_separator(k + 1, fm);
        let p_next = printed(xs[k + 1], fm, ipd, g)->0;
        let rest2 = items_from(xs, fm, ipd, g, k + 2);
        let r2 = p_next + rest2 + seq![']'];
        lemma_printed_reads_back(xs[k + 1], fm, ipd, g, f);
        assert(rest == sep + p_next + rest2);
        assert(tail[0] == ',');
        lemma_value_reads_back(s, start, 0, xs[k], fm, ipd, g, f, di);
        lemma_array_items_step(s, start, di, f, xs[k], p2);
        let gap = sep.drop_first();
        assert(all_space(gap));
        assert(tail =~= seq![','] + (gap + r2));
        lemma_split_at(s, p2, seq![','], gap + r2);
        assert(r2[0] == p_next[0]);
        lemma_skip_known_ws(s, p2 + 1, gap, r2);
        lemma_split_at(s, p2 + 1, gap, r2);
        lemma_items_reads_back(s, p2 + 1 + gap.len(), xs, k + 1, fm, ipd, g, f, di);
        assert(seq![xs[k]] + xs.skip(k + 1) =~= xs.skip(k));
    } else {
        assert(rest =~= Seq::<char>::empty());
        assert(tail[0] == ']');
        lemma_value_reads_back(s, start, 0, xs[k], fm, ipd, g, f, di);
        lemma_array_items_step(s, start, di, f, xs[k], p2);
        assert(xs.skip(k) =~= seq![xs[k]]);
    }
}

/// The text of an object reads back from its `{` on.
#[verifier::rlimit(60)]
proof fn lemma_object_reads_back<N, G: Fn(N) -> String, F: Fn(&str) -> N>(
    s: Seq<char>,
    q: int,
    ms: Seq<JMember<N>>,
    fm: bool,
    dp: nat,
    g: G,
    f: F,
    d: int,
)
    requires
        reads_back(JValue::Object(ms), g, f),
        0 <= d,
        d + nesting(JValue::Object(ms)) < 1000,
        0 <= q,
        q + printed(JValue::Object(ms), fm, dp, g)->0.len() <= s.len(),
        s.subrange(q, q + printed(JValue::Object(ms), fm, dp, g)->0.len()) == printed(JValue::Object(ms), fm, dp, g)->0,
    ensures
        object_body(s, q + 1, d + 1, f) == Ok::<(JValue<N>, int), Failure>(
            (JValue::Object(ms), q + printed(JValue::Object(ms), fm, dp, g)->0.len()),
        ),
    decreases ms, ms.len() + 1,
{
    lemma_printed_reads_back(JValue::Object(ms), fm, dp, g, f);
    lemma_members_read_back(ms, g, f, ms.len());
    lemma_tabs_space(dp);
    lemma_tabs_space(dp + 1);
    let t = printed(JValue::Object(ms), fm, dp, g)->0;
    let nl: Seq<char> = if fm { seq!['\n'] } else { Seq::empty() };
    let td: Seq<char> = if fm { tabs(dp) } else { Seq::empty() };
    let body = members_from(ms, fm, dp + 1, g, 0);
    let inner = nl + body + td + seq!['}'];
    assert(t =~= seq!['{'] + inner);
    lemma_split_at(s, q, seq!['{'], inner);
    if ms.len() == 0 {
        assert(body =~= Seq::<char>::empty());
        assert(inner =~= (nl + td) + seq!['}']);
        assert(all_space(nl + td));
        lemma_skip_known_ws(s, q + 1, nl + td, seq!['}']);
        lemma_object_body_step::<N, F>(s, q + 1, q + 1 + (nl + td).len(), d + 1, f);
        assert(ms =~= Seq::<JMember<N>>::empty());
    } else {
        let m = ms[0];
        let tm: Seq<char> = if fm { tabs(dp + 1) } else { Seq::empty() };
        let tab: Seq<char> = if fm { seq!['\t'] } else { Seq::empty() };
        let val = printed(m.value, fm, dp + 1, g)->0;
        let tail = member_tail(0, ms.len() as int, fm);
        let rest = members_from(ms, fm, dp + 1, g, 1);
        lemma_member_text(m.name, val, 0, ms.len() as int, fm, dp + 1);
        assert(body == member_text(m.name, val, 0, ms.len() as int, fm, dp + 1) + rest);
        let r0 = member_from_name(ms, 0, fm, dp + 1, dp, g);
        assert(member_head(m.name, fm, dp + 1) == tm + quoted(m.name) + seq![':'] + tab);
        assert(member_rest(ms, 0, fm, dp + 1, dp, g) == tail + rest + td + seq!['}']);
        assert(inner =~= (nl + tm) + r0);
        assert(all_space(nl + tm));
        assert(quoted(m.name)[0] == '"');
        assert(r0[0] == '"');
        lemma_skip_known_ws(s, q + 1, nl + tm, r0);
        lemma_split_at(s, q + 1, nl + tm, r0);
        lemma_object_body_step::<N, F>(s, q + 1, q + 1 + (nl + tm).len(), d + 1, f);
        assert forall|j: int| 0 <= j < ms.len() implies reads_back(#[trigger] ms[j].value, g, f) && d + 1 + nesting(
            ms[j].value,
        ) < 1000 by {
            lemma_members_nesting(ms, ms.len(), j);
        }
        lemma_members_reads_back(s, q + 1 + (nl + tm).len(), ms, 0, fm, dp + 1, dp, g, f, d + 1);
        assert(ms.skip(0) =~= ms);
    }
}

/// What stands after a member's value: its tail, the members after it, the
/// closing indentation and `}`.
pub open spec fn member_rest<N, G: Fn(N) -> String>(ms: Seq<JMember<N>>, k: int, fm: bool, mpd: nat, od: nat, g: G) -> Seq<char> {
    member_tail(k, ms.len() as int, fm) + members_from(ms, fm, mpd, g, k + 1) + (if fm {
        tabs(od)
    } else {
        Seq::empty()
    }) + seq!['}']
}

/// Member `k` from the opening quote of its name on, with all that follows
/// it up to the object's `}`.
pub open spec fn member_from_name<N, G: Fn(N) -> String>(ms: Seq<JMember<N>>, k: int, fm: bool, mpd: nat, od: nat, g: G) -> Seq<char> {
    quoted(ms[k].name) + seq![':'] + (if fm {
        seq!['\t']
    } else {
        Seq::empty()
    }) + printed(ms[k].value, fm, mpd, g)->0 + member_rest(ms, k, fm, mpd, od, g)
}

/// Member `k`'s name and value read back, from the opening quote of its
/// name: the name, the `:` and the value, up to what follows the value.
proof fn lemma_member_value_reads<N, G: Fn(N) -> String, F: Fn(&str) -> N>(
    s: Seq<char>,
    start: int,
    ms: Seq<JMember<N>>,
    k: int,
    fm: bool,
    mpd: nat,
    od: nat,
    g: G,
    f: F,
    di: int,
)
    requires
        0 <= k < ms.len(),
        0 <= di,
        reads_back(ms[k].value, g, f),
        di + nesting(ms[k].value) < 1000,
        0 <= start,
        start + member_from_name(ms, k, fm, mpd, od, g).len() <= s.len(),
        s.subrange(start, start + member_from_name(ms, k, fm, mpd, od, g).len()) == member_from_name(ms, k, fm, mpd, od, g),
    ensures
        ({
            let p1 = start + quoted(ms[k].name).len();
            let tab: Seq<char> = if fm { seq!['\t'] } else { Seq::empty() };
            let p3 = p1 + 1 + tab.len() + printed(ms[k].value, fm, mpd, g)->0.len();
            let rest = member_rest(ms, k, fm, mpd, od, g);
            &&& s[start] == '"'
            &&& string_chars(s, start + 1) == Ok::<(Seq<char>, int), Failure>((ms[k].name, p1))
            &&& s[p1] == ':'
            &&& value_at(s, p1 + 1, di, f) == Ok::<(JValue<N>, int), Failure>((ms[k].value, p3))
            &&& p1 < p3
            &&& p3 + rest.len() == start + member_from_name(ms, k, fm, mpd, od, g).len()
            &&& s.subrange(p3, p3 + rest.len()) == rest
        }),
    decreases ms, 0nat,
{
    let tab: Seq<char> = if fm { seq!['\t'] } else { Seq::empty() };
    let m = ms[k];
    let qn = quoted(m.name);
    let val = printed(m.value, fm, mpd, g)->0;
    let after_val = member_rest(ms, k, fm, mpd, od, g);
    let r = member_from_name(ms, k, fm, mpd, od, g);
    lemma_printed_reads_back(m.value, fm, mpd, g, f);
    lemma_tabs_space(od);
    assert(r =~= qn + (seq![':'] + (tab + (val + after_val))));
    lemma_split_at(s, start, qn, seq![':'] + (tab + (val + after_val)));
    lemma_quoted_reads(s, start, m.name);
    let p1 = start + qn.len();
    lemma_split_at(s, p1, seq![':'], tab + (val + after_val));
    lemma_char_at(s, p1, seq![':'], 0);
    lemma_split_at(s, p1 + 1, tab, val + after_val);
    lemma_split_at(s, p1 + 1 + tab.len(), val, after_val);
    let p3 = p1 + 1 + tab.len() + val.len();
    assert forall|i: int| p1 + 1 <= i < p1 + 1 + tab.len() implies json_space(#[trigger] s[i]) by {
        lemma_char_at(s, p1 + 1, tab, i - p1 - 1);
    }
    lemma_char_at(s, p3, after_val, 0);
    assert(after_val.len() > 0);
    let c = after_val[0];
    assert(c == ',' || c == '\n' || c == '}') by {
        let tail = member_tail(k, ms.len() as int, fm);
        if tail.len() > 0 {
            assert(after_val[0] == tail[0]);
        } else {
            assert(k + 1 == ms.len());
            assert(members_from(ms, fm, mpd, g, k + 1) =~= Seq::<char>::empty());
            assert(!fm);
            assert(after_val =~= seq!['}']);
        }
    }
    lemma_value_reads_back(s, p1 + 1, tab.len() as int, m.value, fm, mpd, g, f, di);
}

/// The members of an object from `k` on (from the opening quote of member
/// `k`'s name), followed by the closing indentation and `}`, read back.
#[verifier::rlimit(60)]
proof fn lemma_members_reads_back<N, G: Fn(N) -> String, F: Fn(&str) -> N>(
    s: Seq<char>,
    start: int,
    ms: Seq<JMember<N>>,
    k: int,
    fm: bool,
    mpd: nat,
    od: nat,
    g: G,
    f: F,
    di: int,
)
    requires
        0 <= k < ms.len(),
        mpd == od + 1,
        0 <= di,
        forall|j: int| 0 <= j < ms.len() ==> reads_back(#[trigger] ms[j].value, g, f) && di + nesting(ms[j].value) < 1000,
        0 <= start,
        start + member_from_name(ms, k, fm, mpd, od, g).len() <= s.len(),
        s.subrange(start, start + member_from_name(ms, k, fm, mpd, od, g).len()) == member_from_name(ms, k, fm, mpd, od, g),
    ensures
        object_members(s, start, di, f) == Ok::<(Seq<JMember<N>>, int), Failure>(
            (ms.skip(k), start + member_from_name(ms, k, fm, mpd, od, g).len()),
        ),
    decreases ms, ms.len() - k,
{
    let tab: Seq<char> = if fm { seq!['\t'] } else { Seq::empty() };
    let td: Seq<char> = if fm { tabs(od) } else { Seq::empty() };
    let nl: Seq<char> = if fm { seq!['\n'] } else { Seq::empty() };
    let m = ms[k];
    let p1 = start + quoted(m.name).len();
    let p3 = p1 + 1 + tab.len() + printed(m.value, fm, mpd, g)->0.len();
    let after_val = member_rest(ms, k, fm, mpd, od, g);
    lemma_member_value_reads(s, start, ms, k, fm, mpd, od, g, f, di);
    lemma_tabs_space(od);
    lemma_tabs_space(mpd);
    if k + 1 != ms.len() {
        let m2 = ms[k + 1];
        let val2 = printed(m2.value, fm, mpd, g)->0;
        let tm: Seq<char> = if fm { tabs(mpd) } else { Seq::empty() };
        let r2 = member_from_name(ms, k + 1, fm, mpd, od, g);
        assert(after_val =~= seq![','] + ((nl + tm) + r2)) by {
            lemma_member_text(m2.name, val2, k + 1, ms.len() as int, fm, mpd);
            assert(members_from(ms, fm, mpd, g, k + 1) == member_text(m2.name, val2, k + 1, ms.len() as int, fm, mpd)
                + members_from(ms, fm, mpd, g, k + 2));
            assert(member_head(m2.name, fm, mpd) == tm + quoted(m2.name) + seq![':'] + tab);
            assert(member_tail(k, ms.len() as int, fm) == seq![','] + nl);
            assert(member_rest(ms, k + 1, fm, mpd, od, g) == member_tail(k + 1, ms.len() as int, fm) + members_from(
                ms,
                fm,
                mpd,
                g,
                k + 2,
            ) + td + seq!['}']);
        }
        assert(r2[0] == '"') by {
            assert(quoted(m2.name)[0] == '"');
        }
        assert(all_space(nl + tm));
        lemma_skip_known_ws(s, p3, Seq::empty(), seq![','] + ((nl + tm) + r2));
        lemma_split_at(s, p3, seq![','], (nl + tm) + r2);
        lemma_skip_known_ws(s, p3 + 1, nl + tm, r2);
        lemma_split_at(s, p3 + 1, nl + tm, r2);
        lemma_object_members_step(s, start, di, f, m.name, p1, m.value, p3, p3);
        lemma_members_reads_back(s, p3 + 1 + (nl + tm).len(), ms, k + 1, fm, mpd, od, g, f, di);
        assert(seq![JMember { name: m.name, value: m.value }] + ms.skip(k + 1) =~= ms.skip(k));
    } else {
        assert(after_val =~= (nl + td) + seq!['}']) by {
            assert(members_from(ms, fm, mpd, g, k + 1) =~= Seq::<char>::empty());
            assert(member_tail(k, ms.len() as int, fm) =~= nl);
        }
        assert(all_space(nl + td));
        lemma_skip_known_ws(s, p3, nl + td, seq!['}']);
        lemma_object_members_step(s, start, di, f, m.name, p1, m.value, p3, p3 + (nl + td).len());
        assert(ms.skip(k) =~= seq![JMember { name: m.name, value: m.value }]);
    }
}

/// Printing then parsing gives the value back: a value whose numbers print
/// as text that reads back as the same numbers, holding no invalid node and
/// no raw text, and nested less deeply than the parser's limit, prints (in
/// either style) to text that parses as that value.
pub proof fn law_print_then_parse<N, G: Fn(N) -> String, F: Fn(&str) -> N>(v: JValue<N>, formatted: bool, write: G, read: F)
    requires
        reads_back(v, write, read),
        nesting(v) < 1000,
    ensures
        printed(v, formatted, 0, write) matches Some(text) && parsed(text, read) == Ok::<JValue<N>, Failure>(v),
{
    lemma_printed_reads_back(v, formatted, 0, write, read);
    let t = printed(v, formatted, 0, write)->0;
    assert(t.subrange(0, t.len() as int) =~= t);
    lemma_value_reads_back(t, 0, 0, v, formatted, 0, write, read, 0);
    lemma_skip_ws_run(t, t.len() as int, t.len() as int);
}

} // verus!
