//! Turns JSON text into a [`Value`]: one complete document, a single value
//! followed only by whitespace. The grammar is permissive in places (raw
//! control characters in strings, `strtod`-style numbers).
use vstd::prelude::*;
use crate::error::Error;
use crate::text::{
    byte_offset, char_from_u32, chars_of, lemma_encode_utf8_char, lemma_encode_utf8_concat, push_char, string_from_chars,
};
use crate::value::{JMember, JValue, Member, Value, items_view, members_view, lemma_array_view, lemma_object_view};
use crate::NESTING_LIMIT;

verus! {

/// Where parsing stopped (a character index), whether it stopped one byte
/// into that character rather than at its start, and why.
pub struct Failure {
    pub at: int,
    pub inside: bool,
    pub message: Seq<char>,
}

/// A stop at the start of the character at `at`.
pub open spec fn fail<T>(at: int, message: Seq<char>) -> Result<T, Failure> {
    Err(Failure { at, inside: false, message })
}

/// A stop one byte into the character at `at`: the parser has taken the
/// first byte of a character it then refuses.
pub open spec fn fail_within<T>(at: int, message: Seq<char>) -> Result<T, Failure> {
    Err(Failure { at, inside: true, message })
}

/// The whitespace skipped between tokens (C's `isspace`).
pub open spec fn json_space(c: char) -> bool {
    c == ' ' || c == '\n' || c == '\r' || c == '\t' || c == '\x0b' || c == '\x0c'
}

/// The first position at or after `pos` that does not hold whitespace.
pub open spec fn skip_ws(s: Seq<char>, pos: int) -> int
    decreases s.len() - pos,
{
    if 0 <= pos < s.len() && json_space(s[pos]) {
        skip_ws(s, pos + 1)
    } else {
        pos
    }
}

pub proof fn lemma_skip_ws(s: Seq<char>, pos: int)
    requires
        0 <= pos <= s.len(),
    ensures
        pos <= skip_ws(s, pos) <= s.len(),
        skip_ws(s, pos) < s.len() ==> !json_space(s[skip_ws(s, pos)]),
        forall|k: int| pos <= k < skip_ws(s, pos) ==> json_space(#[trigger] s[k]),
    decreases s.len() - pos,
{
    if pos < s.len() && json_space(s[pos]) {
        lemma_skip_ws(s, pos + 1);
    }
}

/// `word` stands in `s` at `pos`.
pub open spec fn word_at(s: Seq<char>, pos: int, word: Seq<char>) -> bool {
    0 <= pos && pos + word.len() <= s.len() && s.subrange(pos, pos + word.len()) == word
}

pub open spec fn hex_digit(c: char) -> Option<int> {
    if '0' <= c && c <= '9' {
        Some(c as int - '0' as int)
    } else if 'a' <= c && c <= 'f' {
        Some(c as int - 'a' as int + 10)
    } else if 'A' <= c && c <= 'F' {
        Some(c as int - 'A' as int + 10)
    } else {
        None
    }
}

/// `count` more hexadecimal digits from `pos`, accumulated onto `acc`.
pub open spec fn hex_digits(s: Seq<char>, pos: int, count: nat, acc: int) -> Result<(int, int), Failure>
    decreases count,
{
    if count == 0 {
        Ok((acc, pos))
    } else if pos < 0 || pos >= s.len() {
        fail(pos, "incomplete Unicode escape"@)
    } else {
        match hex_digit(s[pos]) {
            None => fail_within(pos, "invalid Unicode escape"@),
            Some(d) => hex_digits(s, pos + 1, (count - 1) as nat, acc * 16 + d),
        }
    }
}

/// The character a `\u` escape stands for; `pos` is just after the `u`.
pub open spec fn unicode_escape(s: Seq<char>, pos: int) -> Result<(char, int), Failure> {
    match hex_digits(s, pos, 4, 0) {
        Err(e) => Err(e),
        Ok((first, p1)) => if 0xd800 <= first <= 0xdbff {
            if !(p1 + 1 < s.len() && s[p1] == '\\' && s[p1 + 1] == 'u') {
                fail(p1, "high surrogate is missing its low surrogate"@)
            } else {
                match hex_digits(s, p1 + 2, 4, 0) {
                    Err(e) => Err(e),
                    Ok((second, p2)) => if !(0xdc00 <= second <= 0xdfff) {
                        fail(p2, "invalid low surrogate"@)
                    } else {
                        Ok((((0x10000 + (first - 0xd800) * 1024 + (second - 0xdc00)) as u32) as char, p2))
                    },
                }
            }
        } else if 0xdc00 <= first <= 0xdfff {
            fail(p1, "unexpected low surrogate"@)
        } else {
            Ok(((first as u32) as char, p1))
        },
    }
}

/// The character an escape stands for; `pos` is just after the backslash.
pub open spec fn escape(s: Seq<char>, pos: int) -> Result<(char, int), Failure> {
    if pos < 0 || pos >= s.len() {
        fail(pos, "incomplete escape"@)
    } else {
        let e = s[pos];
        let p = pos + 1;
        if e == '"' {
            Ok(('"', p))
        } else if e == '\\' {
            Ok(('\\', p))
        } else if e == '/' {
            Ok(('/', p))
        } else if e == 'b' {
            Ok(('\x08', p))
        } else if e == 'f' {
            Ok(('\x0c', p))
        } else if e == 'n' {
            Ok(('\n', p))
        } else if e == 'r' {
            Ok(('\r', p))
        } else if e == 't' {
            Ok(('\t', p))
        } else if e == 'u' {
            unicode_escape(s, p)
        } else {
            fail_within(pos, "invalid string escape"@)
        }
    }
}

/// The text of a string literal and the position after its closing quote;
/// `pos` is just after the opening quote. Any character other than a
/// backslash or a quote is taken as it is.
pub open spec fn string_chars(s: Seq<char>, pos: int) -> Result<(Seq<char>, int), Failure>
    decreases s.len() - pos,
{
    if pos < 0 || pos >= s.len() {
        fail(pos, "unterminated string"@)
    } else if s[pos] == '"' {
        Ok((Seq::empty(), pos + 1))
    } else if s[pos] == '\\' {
        match escape(s, pos + 1) {
            Err(e) => Err(e),
            Ok((c, p)) => if !(pos < p <= s.len()) {
                fail(p, Seq::empty())
            } else {
                match string_chars(s, p) {
                    Err(e) => Err(e),
                    Ok((rest, q)) => Ok((seq![c] + rest, q)),
                }
            },
        }
    } else {
        match string_chars(s, pos + 1) {
            Err(e) => Err(e),
            Ok((rest, q)) => Ok((seq![s[pos]] + rest, q)),
        }
    }
}

/// The characters gathered into a number token.
pub open spec fn number_char(c: char) -> bool {
    ('0' <= c && c <= '9') || c == '+' || c == '-' || c == 'e' || c == 'E' || c == '.'
}

pub open spec fn scan_end(s: Seq<char>, pos: int) -> int
    decreases s.len() - pos,
{
    if 0 <= pos < s.len() && number_char(s[pos]) {
        scan_end(s, pos + 1)
    } else {
        pos
    }
}

pub open spec fn digits_end(t: Seq<char>, p: int) -> int
    decreases t.len() - p,
{
    if 0 <= p < t.len() && '0' <= t[p] && t[p] <= '9' {
        digits_end(t, p + 1)
    } else {
        p
    }
}

/// How much of `t` the C library's `strtod` reads as a number: an optional
/// sign, digits with an optional fraction (at least one digit in all), and an
/// exponent only if it has digits. `None` when it reads nothing.
pub open spec fn c_float_len(t: Seq<char>) -> Option<int> {
    let p0: int = if t.len() > 0 && (t[0] == '+' || t[0] == '-') { 1 } else { 0 };
    let d_end = digits_end(t, p0);
    let has_dot = d_end < t.len() && t[d_end] == '.';
    let f_end = if has_dot { digits_end(t, d_end + 1) } else { d_end };
    let fraction = if has_dot { f_end - (d_end + 1) } else { 0 };
    if d_end - p0 == 0 && fraction == 0 {
        None
    } else if f_end < t.len() && (t[f_end] == 'e' || t[f_end] == 'E') {
        let q = f_end + 1;
        let q2 = if q < t.len() && (t[q] == '+' || t[q] == '-') { q + 1 } else { q };
        let e_end = digits_end(t, q2);
        if e_end == q2 {
            Some(f_end)
        } else {
            Some(e_end)
        }
    } else {
        Some(f_end)
    }
}

/// Whether `f`, a function reading a number from its text, accepts every
/// text and gives the same number for the same text.
pub open spec fn reads_numbers<N, F: Fn(&str) -> N>(f: F) -> bool {
    &&& forall|t: &str| call_requires(f, (t,))
    &&& forall|t1: &str, t2: &str, n1: N, n2: N|
        t1@ == t2@ && #[trigger] call_ensures(f, (t1,), n1) && #[trigger] call_ensures(f, (t2,), n2) ==> n1 == n2
}

/// `f` may give `n` for the text `token`.
pub open spec fn reads_as<N, F: Fn(&str) -> N>(f: F, token: Seq<char>, n: N) -> bool {
    exists|t: &str| #![trigger call_ensures(f, (t,), n)] t@ == token && call_ensures(f, (t,), n)
}

/// The number `f` reads from `token`.
pub open spec fn number_of<N, F: Fn(&str) -> N>(f: F, token: Seq<char>) -> N {
    choose|n: N| #[trigger] reads_as(f, token, n)
}

/// A number token at `pos`: what `strtod` reads of the gathered characters.
pub open spec fn number_at<N, F: Fn(&str) -> N>(s: Seq<char>, pos: int, f: F) -> Result<(N, int), Failure> {
    let t = s.subrange(pos, scan_end(s, pos));
    match c_float_len(t) {
        None => fail(pos, "invalid number"@),
        Some(n) => Ok((number_of(f, t.take(n)), pos + n)),
    }
}

/// The value that starts at or after `pos` (after whitespace), at nesting
/// `depth`, and the position after it.
pub open spec fn value_at<N, F: Fn(&str) -> N>(s: Seq<char>, pos: int, depth: int, f: F) -> Result<(JValue<N>, int), Failure>
    decreases s.len() - pos, 0nat,
{
    if depth >= 1000 {
        fail(pos, "nesting limit exceeded"@)
    } else if pos < 0 || pos > s.len() {
        fail(pos, Seq::empty())
    } else {
        let p = skip_ws(s, pos);
        proof {
            lemma_skip_ws(s, pos);
        }
        if p >= s.len() {
            fail(p, "expected a JSON value"@)
        } else {
            let c = s[p];
            if c == 'n' {
                if word_at(s, p, seq!['n', 'u', 'l', 'l']) {
                    Ok((JValue::Null, p + 4))
                } else {
                    fail(p, "invalid literal"@)
                }
            } else if c == 't' {
                if word_at(s, p, seq!['t', 'r', 'u', 'e']) {
                    Ok((JValue::Bool(true), p + 4))
                } else {
                    fail(p, "invalid literal"@)
                }
            } else if c == 'f' {
                if word_at(s, p, seq!['f', 'a', 'l', 's', 'e']) {
                    Ok((JValue::Bool(false), p + 5))
                } else {
                    fail(p, "invalid literal"@)
                }
            } else if c == '"' {
                match string_chars(s, p + 1) {
                    Err(e) => Err(e),
                    Ok((t, q)) => Ok((JValue::Str(t), q)),
                }
            } else if c == '[' {
                array_body(s, p + 1, depth + 1, f)
            } else if c == '{' {
                object_body(s, p + 1, depth + 1, f)
            } else if c == '-' || ('0' <= c && c <= '9') {
                match number_at(s, p, f) {
                    Err(e) => Err(e),
                    Ok((n, q)) => Ok((JValue::Number(n), q)),
                }
            } else {
                fail(p, "expected a JSON value"@)
            }
        }
    }
}

/// An array after its `[`.
pub open spec fn array_body<N, F: Fn(&str) -> N>(s: Seq<char>, pos: int, depth: int, f: F) -> Result<(JValue<N>, int), Failure>
    decreases s.len() - pos, 2nat,
{
    if pos < 0 || pos > s.len() {
        fail(pos, Seq::empty())
    } else {
        let p = skip_ws(s, pos);
        proof {
            lemma_skip_ws(s, pos);
        }
        if p < s.len() && s[p] == ']' {
            Ok((JValue::Array(Seq::empty()), p + 1))
        } else {
            match array_items(s, p, depth, f) {
                Err(e) => Err(e),
                Ok((items, q)) => Ok((JValue::Array(items), q)),
            }
        }
    }
}

/// The elements of an array from `pos` through its `]`.
pub open spec fn array_items<N, F: Fn(&str) -> N>(s: Seq<char>, pos: int, depth: int, f: F) -> Result<(Seq<JValue<N>>, int), Failure>
    decreases s.len() - pos, 1nat,
{
    if pos < 0 || pos > s.len() {
        fail(pos, Seq::empty())
    } else {
        match value_at(s, pos, depth, f) {
            Err(e) => Err(e),
            Ok((v, p2)) => if !(pos <= p2 <= s.len()) {
                fail(p2, Seq::empty())
            } else {
                let p3 = skip_ws(s, p2);
                proof {
                    lemma_skip_ws(s, p2);
                }
                if p3 < s.len() && s[p3] == ',' {
                    let p4 = skip_ws(s, p3 + 1);
                    proof {
                        lemma_skip_ws(s, p3 + 1);
                    }
                    match array_items(s, p4, depth, f) {
                        Err(e) => Err(e),
                        Ok((rest, q)) => Ok((seq![v] + rest, q)),
                    }
                } else if p3 < s.len() && s[p3] == ']' {
                    Ok((seq![v], p3 + 1))
                } else {
                    fail(p3, "expected ',' or ']' in array"@)
                }
            },
        }
    }
}

/// An object after its `{`.
pub open spec fn object_body<N, F: Fn(&str) -> N>(s: Seq<char>, pos: int, depth: int, f: F) -> Result<(JValue<N>, int), Failure>
    decreases s.len() - pos, 2nat,
{
    if pos < 0 || pos > s.len() {
        fail(pos, Seq::empty())
    } else {
        let p = skip_ws(s, pos);
        proof {
            lemma_skip_ws(s, pos);
        }
        if p < s.len() && s[p] == '}' {
            Ok((JValue::Object(Seq::empty()), p + 1))
        } else {
            match object_members(s, p, depth, f) {
                Err(e) => Err(e),
                Ok((ms, q)) => Ok((JValue::Object(ms), q)),
            }
        }
    }
}

/// The members of an object from `pos` through its `}`.
pub open spec fn object_members<N, F: Fn(&str) -> N>(s: Seq<char>, pos: int, depth: int, f: F) -> Result<(Seq<JMember<N>>, int), Failure>
    decreases s.len() - pos, 1nat,
{
    if pos < 0 || pos > s.len() {
        fail(pos, Seq::empty())
    } else if !(pos < s.len() && s[pos] == '"') {
        fail(pos, "object key must be a string"@)
    } else {
        match string_chars(s, pos + 1) {
            Err(e) => Err(e),
            Ok((name, p1)) => if !(pos < p1 <= s.len()) {
                fail(p1, Seq::empty())
            } else {
                let p2 = skip_ws(s, p1);
                proof {
                    lemma_skip_ws(s, p1);
                }
                if !(p2 < s.len() && s[p2] == ':') {
                    fail(p2, "expected ':' after object key"@)
                } else {
                    match value_at(s, p2 + 1, depth, f) {
                        Err(e) => Err(e),
                        Ok((v, p3)) => if !(p2 + 1 <= p3 <= s.len()) {
                            fail(p3, Seq::empty())
                        } else {
                            let m = JMember { name, value: v };
                            let p4 = skip_ws(s, p3);
                            proof {
                                lemma_skip_ws(s, p3);
                            }
                            if p4 < s.len() && s[p4] == ',' {
                                let p5 = skip_ws(s, p4 + 1);
                                proof {
                                    lemma_skip_ws(s, p4 + 1);
                                }
                                match object_members(s, p5, depth, f) {
                                    Err(e) => Err(e),
                                    Ok((rest, q)) => Ok((seq![m] + rest, q)),
                                }
                            } else if p4 < s.len() && s[p4] == '}' {
                                Ok((seq![m], p4 + 1))
                            } else {
                                fail(p4, "expected ',' or '}' in object"@)
                            }
                        },
                    }
                }
            },
        }
    }
}

/// A whole document: one value, then only whitespace to the end.
pub open spec fn parsed<N, F: Fn(&str) -> N>(s: Seq<char>, f: F) -> Result<JValue<N>, Failure> {
    match value_at(s, 0, 0, f) {
        Err(e) => Err(e),
        Ok((v, p)) => {
            let q = skip_ws(s, p);
            if q != s.len() {
                fail(q, "trailing characters after JSON value"@)
            } else {
                Ok(v)
            }
        },
    }
}


/// An executable failure (position, message) agrees with a specified one.
pub open spec fn same_failure(at: usize, inside: bool, message: &str, e: Failure) -> bool {
    at as int == e.at && inside == e.inside && message@ == e.message
}

/// A result whose text is prefixed by `prefix`.
pub open spec fn prepend_text(prefix: Seq<char>, r: Result<(Seq<char>, int), Failure>) -> Result<(Seq<char>, int), Failure> {
    match r {
        Ok((t, q)) => Ok((prefix + t, q)),
        Err(e) => Err(e),
    }
}

pub open spec fn prepend_items<N>(prefix: Seq<JValue<N>>, r: Result<(Seq<JValue<N>>, int), Failure>) -> Result<(Seq<JValue<N>>, int), Failure> {
    match r {
        Ok((t, q)) => Ok((prefix + t, q)),
        Err(e) => Err(e),
    }
}

pub open spec fn prepend_members<N>(prefix: Seq<JMember<N>>, r: Result<(Seq<JMember<N>>, int), Failure>) -> Result<(Seq<JMember<N>>, int), Failure> {
    match r {
        Ok((t, q)) => Ok((prefix + t, q)),
        Err(e) => Err(e),
    }
}

fn is_space(c: char) -> (r: bool)
    ensures
        r == json_space(c),
{
    c == ' ' || c == '\n' || c == '\r' || c == '\t' || c == '\x0b' || c == '\x0c'
}

fn skip_whitespace(cs: &Vec<char>, pos: usize) -> (r: usize)
    requires
        pos <= cs@.len(),
    ensures
        r as int == skip_ws(cs@, pos as int),
        pos <= r <= cs@.len(),
{
    let mut p = pos;
    proof {
        lemma_skip_ws(cs@, pos as int);
    }
    while p < cs.len() && is_space(cs[p])
        invariant
            pos <= p <= cs@.len(),
            skip_ws(cs@, pos as int) == skip_ws(cs@, p as int),
        decreases cs@.len() - p,
    {
        p += 1;
    }
    p
}

fn hex_value(c: char) -> (r: Option<u32>)
    ensures
        match hex_digit(c) {
            Some(d) => r == Some(d as u32) && 0 <= d < 16,
            None => r is None,
        },
{
    if '0' <= c && c <= '9' {
        Some(c as u32 - '0' as u32)
    } else if 'a' <= c && c <= 'f' {
        Some(c as u32 - 'a' as u32 + 10)
    } else if 'A' <= c && c <= 'F' {
        Some(c as u32 - 'A' as u32 + 10)
    } else {
        None
    }
}

fn parse_hex_quad(cs: &Vec<char>, pos: usize) -> (r: Result<(u32, usize), (usize, bool, &'static str)>)
    requires
        pos <= cs@.len(),
    ensures
        match hex_digits(cs@, pos as int, 4, 0) {
            Ok((v, p)) => r matches Ok((x, q)) && x as int == v && q as int == p && x <= 0xffff && pos < q <= cs@.len(),
            Err(e) => r matches Err((at, inside, m)) && same_failure(at, inside, m, e) && at <= cs@.len() && (inside ==> at < cs@.len()),
        },
{
    let mut p = pos;
    let mut acc: u32 = 0;
    let mut k: usize = 0;
    while k < 4
        invariant
            k <= 4,
            pos <= p <= cs@.len(),
            p == pos + k,
            k == 0 ==> acc == 0,
            k == 1 ==> acc < 16,
            k == 2 ==> acc < 256,
            k == 3 ==> acc < 4096,
            k == 4 ==> acc < 65536,
            hex_digits(cs@, pos as int, 4, 0) == hex_digits(cs@, p as int, (4 - k) as nat, acc as int),
        decreases 4 - k,
    {
        if p >= cs.len() {
            return Err((p, false, "incomplete Unicode escape"));
        }
        let c = cs[p];
        match hex_value(c) {
            None => {
                return Err((p, true, "invalid Unicode escape"));
            },
            Some(d) => {
                acc = acc * 16 + d;
            },
        }
        p += 1;
        k += 1;
    }
    Ok((acc, p))
}

fn parse_unicode_escape(cs: &Vec<char>, pos: usize) -> (r: Result<(char, usize), (usize, bool, &'static str)>)
    requires
        pos <= cs@.len(),
    ensures
        match unicode_escape(cs@, pos as int) {
            Ok((c, p)) => r matches Ok((x, q)) && x == c && q as int == p && pos < q <= cs@.len(),
            Err(e) => r matches Err((at, inside, m)) && same_failure(at, inside, m, e) && at <= cs@.len() && (inside ==> at < cs@.len()),
        },
{
    let (first, p1) = parse_hex_quad(cs, pos)?;
    if 0xd800 <= first && first <= 0xdbff {
        if !(p1 < cs.len() && p1 + 1 < cs.len() && cs[p1] == '\\' && cs[p1 + 1] == 'u') {
            return Err((p1, false, "high surrogate is missing its low surrogate"));
        }
        let (second, p2) = parse_hex_quad(cs, p1 + 2)?;
        if !(0xdc00 <= second && second <= 0xdfff) {
            return Err((p2, false, "invalid low surrogate"));
        }
        let codepoint: u32 = 0x10000 + (first - 0xd800) * 1024 + (second - 0xdc00);
        match char_from_u32(codepoint) {
            Some(c) => {
                proof {
                    vstd::utf8::char_u32_cast(c, codepoint);
                }
                Ok((c, p2))
            },
            None => Err((p2, false, "invalid Unicode scalar")),
        }
    } else if 0xdc00 <= first && first <= 0xdfff {
        Err((p1, false, "unexpected low surrogate"))
    } else {
        match char_from_u32(first) {
            Some(c) => {
                proof {
                    vstd::utf8::char_u32_cast(c, first);
                }
                Ok((c, p1))
            },
            None => Err((p1, false, "invalid Unicode scalar")),
        }
    }
}

fn parse_escape(cs: &Vec<char>, pos: usize) -> (r: Result<(char, usize), (usize, bool, &'static str)>)
    requires
        pos <= cs@.len(),
    ensures
        match escape(cs@, pos as int) {
            Ok((c, p)) => r matches Ok((x, q)) && x == c && q as int == p && pos < q <= cs@.len(),
            Err(e) => r matches Err((at, inside, m)) && same_failure(at, inside, m, e) && at <= cs@.len() && (inside ==> at < cs@.len()),
        },
{
    if pos >= cs.len() {
        return Err((pos, false, "incomplete escape"));
    }
    let e = cs[pos];
    let p = pos + 1;
    if e == '"' {
        Ok(('"', p))
    } else if e == '\\' {
        Ok(('\\', p))
    } else if e == '/' {
        Ok(('/', p))
    } else if e == 'b' {
        Ok(('\x08', p))
    } else if e == 'f' {
        Ok(('\x0c', p))
    } else if e == 'n' {
        Ok(('\n', p))
    } else if e == 'r' {
        Ok(('\r', p))
    } else if e == 't' {
        Ok(('\t', p))
    } else if e == 'u' {
        parse_unicode_escape(cs, p)
    } else {
        Err((pos, true, "invalid string escape"))
    }
}

/// Reads a string literal's text; `pos` is just after its opening quote.
fn parse_string(cs: &Vec<char>, pos: usize) -> (r: Result<(String, usize), (usize, bool, &'static str)>)
    requires
        pos <= cs@.len(),
    ensures
        match string_chars(cs@, pos as int) {
            Ok((t, p)) => r matches Ok((x, q)) && x@ == t && q as int == p && pos < q <= cs@.len(),
            Err(e) => r matches Err((at, inside, m)) && same_failure(at, inside, m, e) && at <= cs@.len() && (inside ==> at < cs@.len()),
        },
{
    let mut out = String::new();
    let mut cur = pos;
    assert(prepend_text(out@, string_chars(cs@, cur as int)) =~= string_chars(cs@, pos as int)) by {
        match string_chars(cs@, pos as int) {
            Ok((t, q)) => {
                assert(out@ + t =~= t);
            },
            Err(_) => {},
        }
    }
    loop
        invariant
            pos <= cur <= cs@.len(),
            string_chars(cs@, pos as int) == prepend_text(out@, string_chars(cs@, cur as int)),
        decreases cs@.len() - cur,
    {
        if cur >= cs.len() {
            return Err((cur, false, "unterminated string"));
        }
        let c = cs[cur];
        if c == '"' {
            assert(out@ + Seq::<char>::empty() =~= out@);
            return Ok((out, cur + 1));
        } else if c == '\\' {
            let (e, p) = parse_escape(cs, cur + 1)?;
            let ghost before = out@;
            push_char(&mut out, e);
            proof {
                match string_chars(cs@, p as int) {
                    Ok((t, q)) => {
                        assert(before + (seq![e] + t) =~= out@ + t);
                    },
                    Err(_) => {},
                }
            }
            cur = p;
        } else {
            let ghost before = out@;
            push_char(&mut out, c);
            proof {
                match string_chars(cs@, cur + 1) {
                    Ok((t, q)) => {
                        assert(before + (seq![c] + t) =~= out@ + t);
                    },
                    Err(_) => {},
                }
            }
            cur = cur + 1;
        }
    }
}

fn is_number_char(c: char) -> (r: bool)
    ensures
        r == number_char(c),
{
    ('0' <= c && c <= '9') || c == '+' || c == '-' || c == 'e' || c == 'E' || c == '.'
}

fn digits_end_of(t: &Vec<char>, p: usize) -> (r: usize)
    requires
        p <= t@.len(),
    ensures
        r as int == digits_end(t@, p as int),
        p <= r <= t@.len(),
{
    let mut q = p;
    while q < t.len() && '0' <= t[q] && t[q] <= '9'
        invariant
            p <= q <= t@.len(),
            digits_end(t@, p as int) == digits_end(t@, q as int),
        decreases t@.len() - q,
    {
        q += 1;
    }
    q
}

/// How much of `t` `strtod` would read as a number.
fn c_float_length(t: &Vec<char>) -> (r: Option<usize>)
    ensures
        match c_float_len(t@) {
            Some(n) => r matches Some(x) && x as int == n && 1 <= n <= t@.len(),
            None => r is None,
        },
{
    let p0: usize = if t.len() > 0 && (t[0] == '+' || t[0] == '-') {
        1
    } else {
        0
    };
    let d_end = digits_end_of(t, p0);
    let has_dot = d_end < t.len() && t[d_end] == '.';
    let f_end = if has_dot {
        digits_end_of(t, d_end + 1)
    } else {
        d_end
    };
    let fraction = if has_dot {
        f_end - (d_end + 1)
    } else {
        0
    };
    if d_end - p0 == 0 && fraction == 0 {
        None
    } else if f_end < t.len() && (t[f_end] == 'e' || t[f_end] == 'E') {
        let q = f_end + 1;
        let q2 = if q < t.len() && (t[q] == '+' || t[q] == '-') {
            q + 1
        } else {
            q
        };
        let e_end = digits_end_of(t, q2);
        if e_end == q2 {
            Some(f_end)
        } else {
            Some(e_end)
        }
    } else {
        Some(f_end)
    }
}

/// Reads a number at `pos`, handing its token to `to_number`.
fn parse_number<N, F: Fn(&str) -> N>(cs: &Vec<char>, pos: usize, to_number: &F) -> (r: Result<(N, usize), (usize, bool, &'static str)>)
    requires
        pos <= cs@.len(),
        reads_numbers(*to_number),
    ensures
        match number_at(cs@, pos as int, *to_number) {
            Ok((n, p)) => r matches Ok((x, q)) && x == n && q as int == p && pos < q <= cs@.len(),
            Err(e) => r matches Err((at, inside, m)) && same_failure(at, inside, m, e) && at <= cs@.len() && (inside ==> at < cs@.len()),
        },
{
    let mut scan = pos;
    while scan < cs.len() && is_number_char(cs[scan])
        invariant
            pos <= scan <= cs@.len(),
            scan_end(cs@, pos as int) == scan_end(cs@, scan as int),
        decreases cs@.len() - scan,
    {
        scan += 1;
    }
    let mut t: Vec<char> = Vec::new();
    let mut i = pos;
    while i < scan
        invariant
            pos <= i <= scan <= cs@.len(),
            t@ == cs@.subrange(pos as int, i as int),
        decreases scan - i,
    {
        t.push(cs[i]);
        i += 1;
        assert(t@ =~= cs@.subrange(pos as int, i as int));
    }
    match c_float_length(&t) {
        None => Err((pos, false, "invalid number")),
        Some(n) => {
            let mut head: Vec<char> = Vec::new();
            let mut k: usize = 0;
            while k < n
                invariant
                    k <= n <= t@.len(),
                    head@ == t@.take(k as int),
                decreases n - k,
            {
                head.push(t[k]);
                k += 1;
                assert(head@ =~= t@.take(k as int));
            }
            let token = string_from_chars(&head);
            let text = token.as_str();
            let number = to_number(text);
            proof {
                let tok = t@.take(n as int);
                assert(reads_as(*to_number, tok, number));
                let chosen = number_of(*to_number, tok);
                assert(reads_as(*to_number, tok, chosen));
                let w = choose|w: &str| w@ == tok && call_ensures(*to_number, (w,), chosen);
                assert(call_ensures(*to_number, (text,), number));
            }
            Ok((number, pos + n))
        },
    }
}


fn word_at_exec(cs: &Vec<char>, pos: usize, w0: char, w1: char, w2: char, w3: char) -> (r: bool)
    requires
        pos <= cs@.len(),
    ensures
        r == word_at(cs@, pos as int, seq![w0, w1, w2, w3]),
{
    if pos < cs.len() && cs.len() - pos >= 4 && cs[pos] == w0 && cs[pos + 1] == w1 && cs[pos + 2] == w2 && cs[pos + 3] == w3 {
        assert(cs@.subrange(pos as int, pos + 4) =~= seq![w0, w1, w2, w3]);
        true
    } else {
        proof {
            if word_at(cs@, pos as int, seq![w0, w1, w2, w3]) {
                let sub = cs@.subrange(pos as int, pos + 4);
                assert(sub[0] == w0 && sub[1] == w1 && sub[2] == w2 && sub[3] == w3);
            }
        }
        false
    }
}

fn false_at(cs: &Vec<char>, pos: usize) -> (r: bool)
    requires
        pos <= cs@.len(),
    ensures
        r == word_at(cs@, pos as int, seq!['f', 'a', 'l', 's', 'e']),
{
    if pos < cs.len() && cs.len() - pos >= 5 && cs[pos] == 'f' && cs[pos + 1] == 'a' && cs[pos + 2] == 'l' && cs[pos + 3] == 's'
        && cs[pos + 4] == 'e' {
        assert(cs@.subrange(pos as int, pos + 5) =~= seq!['f', 'a', 'l', 's', 'e']);
        true
    } else {
        proof {
            if word_at(cs@, pos as int, seq!['f', 'a', 'l', 's', 'e']) {
                let sub = cs@.subrange(pos as int, pos + 5);
                assert(sub[0] == 'f' && sub[1] == 'a' && sub[2] == 'l' && sub[3] == 's' && sub[4] == 'e');
            }
        }
        false
    }
}

/// Reads the value at or after `pos`.
fn parse_value<N, F: Fn(&str) -> N>(cs: &Vec<char>, pos: usize, depth: usize, to_number: &F) -> (r: Result<(Value<N>, usize), (usize, bool, &'static str)>)
    requires
        pos <= cs@.len(),
        reads_numbers(*to_number),
    ensures
        match value_at(cs@, pos as int, depth as int, *to_number) {
            Ok((v, p)) => r matches Ok((x, q)) && x@ == v && q as int == p && pos < q <= cs@.len(),
            Err(e) => r matches Err((at, inside, m)) && same_failure(at, inside, m, e) && at <= cs@.len() && (inside ==> at < cs@.len()),
        },
    decreases cs@.len() - pos, 0nat,
{
    if depth >= NESTING_LIMIT {
        return Err((pos, false, "nesting limit exceeded"));
    }
    let p = skip_whitespace(cs, pos);
    if p >= cs.len() {
        return Err((p, false, "expected a JSON value"));
    }
    let c = cs[p];
    if c == 'n' {
        if word_at_exec(cs, p, 'n', 'u', 'l', 'l') {
            Ok((Value::Null, p + 4))
        } else {
            Err((p, false, "invalid literal"))
        }
    } else if c == 't' {
        if word_at_exec(cs, p, 't', 'r', 'u', 'e') {
            Ok((Value::Bool(true), p + 4))
        } else {
            Err((p, false, "invalid literal"))
        }
    } else if c == 'f' {
        if false_at(cs, p) {
            Ok((Value::Bool(false), p + 5))
        } else {
            Err((p, false, "invalid literal"))
        }
    } else if c == '"' {
        let (text, q) = parse_string(cs, p + 1)?;
        Ok((Value::String(text), q))
    } else if c == '[' {
        parse_array(cs, p + 1, depth + 1, to_number)
    } else if c == '{' {
        parse_object(cs, p + 1, depth + 1, to_number)
    } else if c == '-' || ('0' <= c && c <= '9') {
        let (n, q) = parse_number(cs, p, to_number)?;
        Ok((Value::Number(n), q))
    } else {
        Err((p, false, "expected a JSON value"))
    }
}

/// Reads an array; `pos` is just after its `[`.
fn parse_array<N, F: Fn(&str) -> N>(cs: &Vec<char>, pos: usize, depth: usize, to_number: &F) -> (r: Result<(Value<N>, usize), (usize, bool, &'static str)>)
    requires
        pos <= cs@.len(),
        reads_numbers(*to_number),
    ensures
        match array_body(cs@, pos as int, depth as int, *to_number) {
            Ok((v, p)) => r matches Ok((x, q)) && x@ == v && q as int == p && pos < q <= cs@.len(),
            Err(e) => r matches Err((at, inside, m)) && same_failure(at, inside, m, e) && at <= cs@.len() && (inside ==> at < cs@.len()),
        },
    decreases cs@.len() - pos, 2nat,
{
    let p = skip_whitespace(cs, pos);
    if p < cs.len() && cs[p] == ']' {
        let empty: Vec<Value<N>> = Vec::new();
        proof {
            lemma_array_view(empty);
            assert(items_view(empty@) =~= Seq::<JValue<N>>::empty());
        }
        return Ok((Value::Array(empty), p + 1));
    }
    let ghost s = cs@;
    let mut items: Vec<Value<N>> = Vec::new();
    let mut cur = p;
    assert(prepend_items(items_view(items@), array_items(s, cur as int, depth as int, *to_number))
        =~= array_items(s, p as int, depth as int, *to_number)) by {
        match array_items(s, p as int, depth as int, *to_number) {
            Ok((t, q)) => {
                assert(items_view(items@) + t =~= t);
            },
            Err(_) => {},
        }
    }
    loop
        invariant
            s == cs@,
            pos <= p <= cur <= cs@.len(),
            reads_numbers(*to_number),
            p as int == skip_ws(s, pos as int),
            !(p < s.len() && s[p as int] == ']'),
            array_items(s, p as int, depth as int, *to_number) == prepend_items(
                items_view(items@),
                array_items(s, cur as int, depth as int, *to_number),
            ),
        decreases cs@.len() - cur,
    {
        let (v, p2) = parse_value(cs, cur, depth, to_number)?;
        let p3 = skip_whitespace(cs, p2);
        if p3 < cs.len() && cs[p3] == ',' {
            let p4 = skip_whitespace(cs, p3 + 1);
            let ghost before = items_view(items@);
            let ghost vv = v@;
            items.push(v);
            proof {
                assert(items_view(items@) =~= before + seq![vv]);
                match array_items(s, p4 as int, depth as int, *to_number) {
                    Ok((t, q)) => {
                        assert(before + (seq![vv] + t) =~= items_view(items@) + t);
                    },
                    Err(_) => {},
                }
            }
            cur = p4;
        } else if p3 < cs.len() && cs[p3] == ']' {
            let ghost before = items_view(items@);
            let ghost vv = v@;
            items.push(v);
            proof {
                assert(items_view(items@) =~= before + seq![vv]);
                lemma_array_view(items);
            }
            return Ok((Value::Array(items), p3 + 1));
        } else {
            return Err((p3, false, "expected ',' or ']' in array"));
        }
    }
}

/// Reads an object; `pos` is just after its `{`.
fn parse_object<N, F: Fn(&str) -> N>(cs: &Vec<char>, pos: usize, depth: usize, to_number: &F) -> (r: Result<(Value<N>, usize), (usize, bool, &'static str)>)
    requires
        pos <= cs@.len(),
        reads_numbers(*to_number),
    ensures
        match object_body(cs@, pos as int, depth as int, *to_number) {
            Ok((v, p)) => r matches Ok((x, q)) && x@ == v && q as int == p && pos < q <= cs@.len(),
            Err(e) => r matches Err((at, inside, m)) && same_failure(at, inside, m, e) && at <= cs@.len() && (inside ==> at < cs@.len()),
        },
    decreases cs@.len() - pos, 2nat,
{
    let p = skip_whitespace(cs, pos);
    if p < cs.len() && cs[p] == '}' {
        let empty: Vec<Member<N>> = Vec::new();
        proof {
            lemma_object_view(empty);
            assert(members_view(empty@) =~= Seq::<JMember<N>>::empty());
        }
        return Ok((Value::Object(empty), p + 1));
    }
    let ghost s = cs@;
    let mut members: Vec<Member<N>> = Vec::new();
    let mut cur = p;
    assert(prepend_members(members_view(members@), object_members(s, cur as int, depth as int, *to_number))
        =~= object_members(s, p as int, depth as int, *to_number)) by {
        match object_members(s, p as int, depth as int, *to_number) {
            Ok((t, q)) => {
                assert(members_view(members@) + t =~= t);
            },
            Err(_) => {},
        }
    }
    loop
        invariant
            s == cs@,
            pos <= p <= cur <= cs@.len(),
            reads_numbers(*to_number),
            p as int == skip_ws(s, pos as int),
            !(p < s.len() && s[p as int] == '}'),
            object_members(s, p as int, depth as int, *to_number) == prepend_members(
                members_view(members@),
                object_members(s, cur as int, depth as int, *to_number),
            ),
        decreases cs@.len() - cur,
    {
        if !(cur < cs.len() && cs[cur] == '"') {
            return Err((cur, false, "object key must be a string"));
        }
        let (name, p1) = parse_string(cs, cur + 1)?;
        let p2 = skip_whitespace(cs, p1);
        if !(p2 < cs.len() && cs[p2] == ':') {
            return Err((p2, false, "expected ':' after object key"));
        }
        let (v, p3) = parse_value(cs, p2 + 1, depth, to_number)?;
        let p4 = skip_whitespace(cs, p3);
        let ghost before = members_view(members@);
        let ghost mv = JMember { name: name@, value: v@ };
        if p4 < cs.len() && cs[p4] == ',' {
            let p5 = skip_whitespace(cs, p4 + 1);
            members.push(Member { name, value: v });
            proof {
                assert(members_view(members@) =~= before + seq![mv]);
                match object_members(s, p5 as int, depth as int, *to_number) {
                    Ok((t, q)) => {
                        assert(before + (seq![mv] + t) =~= members_view(members@) + t);
                    },
                    Err(_) => {},
                }
            }
            cur = p5;
        } else if p4 < cs.len() && cs[p4] == '}' {
            members.push(Member { name, value: v });
            proof {
                assert(members_view(members@) =~= before + seq![mv]);
                lemma_object_view(members);
            }
            return Ok((Value::Object(members), p4 + 1));
        } else {
            return Err((p4, false, "expected ',' or '}' in object"));
        }
    }
}

/// Parses one complete JSON document: a single value, then only whitespace.
/// `to_number` reads each number from its token (the characters `strtod`
/// would take). A failure carries the byte offset where parsing stopped.
pub fn parse<N, F: Fn(&str) -> N>(input: &str, to_number: &F) -> (r: Result<Value<N>, Error>)
    requires
        reads_numbers(*to_number),
    ensures
        match parsed(input@, *to_number) {
            Ok(v) => r matches Ok(x) && x@ == v,
            Err(e) => r matches Err(err) && 0 <= e.at <= input@.len() && err.offset
                == vstd::utf8::encode_utf8(input@.take(e.at)).len() + (if e.inside { 1int } else { 0int })
                && err.message@ == e.message,
        },
{
    let cs = chars_of(input);
    let total = input.as_bytes().len();
    match parse_value(&cs, 0, 0, to_number) {
        Err((at, inside, message)) => {
            let start = byte_offset(&cs, at, total);
            if inside {
                proof {
                    let c = cs@[at as int];
                    assert(cs@.take(at + 1) =~= cs@.take(at as int) + seq![c]);
                    lemma_encode_utf8_concat(cs@.take(at as int), seq![c]);
                    lemma_encode_utf8_char(c);
                    assert(cs@ =~= cs@.take(at + 1) + cs@.skip(at + 1));
                    lemma_encode_utf8_concat(cs@.take(at + 1), cs@.skip(at + 1));
                }
                Err(Error::new(start + 1, message))
            } else {
                Err(Error::new(start, message))
            }
        },
        Ok((value, p)) => {
            let q = skip_whitespace(&cs, p);
            if q != cs.len() {
                Err(Error::new(byte_offset(&cs, q, total), "trailing characters after JSON value"))
            } else {
                Ok(value)
            }
        },
    }
}

} // verus!
