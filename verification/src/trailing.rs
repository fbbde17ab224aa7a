//! A document owns all of its text: what the parser reads of a document does
//! not change when more text follows it, so anything after the value other
//! than whitespace is refused where it starts.
use vstd::prelude::*;
use crate::parser::{
    array_body, array_items, c_float_len, digits_end, escape, fail, hex_digit, hex_digits, json_space,
    lemma_skip_ws, number_at, number_char, object_body, object_members, parsed, scan_end, skip_ws, string_chars,
    unicode_escape, value_at, word_at,
};
use crate::text::{lemma_encode_utf8_char, lemma_encode_utf8_concat};
use crate::value::JValue;

verus! {

/// Skipping whitespace in `s + t` from a place in `s`: as in `s` where `s`
/// holds something else ahead, and on into `t` where it does not.
pub proof fn lemma_skip_concat(s: Seq<char>, t: Seq<char>, pos: int)
    requires
        0 <= pos <= s.len(),
    ensures
        skip_ws(s, pos) < s.len() ==> skip_ws(s + t, pos) == skip_ws(s, pos),
        skip_ws(s, pos) == s.len() ==> skip_ws(s + t, pos) == s.len() + skip_ws(t, 0),
    decreases s.len() - pos,
{
    if pos < s.len() {
        assert((s + t)[pos] == s[pos]);
        if json_space(s[pos]) {
            lemma_skip_concat(s, t, pos + 1);
        }
    } else {
        lemma_skip_tail(s, t, 0);
    }
}

proof fn lemma_skip_tail(s: Seq<char>, t: Seq<char>, k: int)
    requires
        0 <= k <= t.len(),
    ensures
        skip_ws(s + t, s.len() + k) == s.len() + skip_ws(t, k),
    decreases t.len() - k,
{
    if k < t.len() {
        assert((s + t)[s.len() + k] == t[k]);
        if json_space(t[k]) {
            lemma_skip_tail(s, t, k + 1);
        }
    }
}

proof fn lemma_hex_concat(s: Seq<char>, t: Seq<char>, pos: int, count: nat, acc: int)
    requires
        hex_digits(s, pos, count, acc) is Ok,
    ensures
        hex_digits(s + t, pos, count, acc) == hex_digits(s, pos, count, acc),
        hex_digits(s, pos, count, acc)->Ok_0.1 == pos + count,
        count > 0 ==> 0 <= pos,
    decreases count,
{
    if count > 0 {
        assert((s + t)[pos] == s[pos]);
        if let Some(d) = hex_digit(s[pos]) {
            lemma_hex_concat(s, t, pos + 1, (count - 1) as nat, acc * 16 + d);
        }
    }
}

proof fn lemma_unicode_concat(s: Seq<char>, t: Seq<char>, pos: int)
    requires
        unicode_escape(s, pos) is Ok,
    ensures
        unicode_escape(s + t, pos) == unicode_escape(s, pos),
{
    lemma_hex_concat(s, t, pos, 4, 0);
    let (first, p1) = hex_digits(s, pos, 4, 0)->Ok_0;
    if 0xd800 <= first <= 0xdbff {
        assert((s + t)[p1] == s[p1]);
        assert((s + t)[p1 + 1] == s[p1 + 1]);
        lemma_hex_concat(s, t, p1 + 2, 4, 0);
    }
}

proof fn lemma_escape_concat(s: Seq<char>, t: Seq<char>, pos: int)
    requires
        escape(s, pos) is Ok,
    ensures
        escape(s + t, pos) == escape(s, pos),
{
    assert((s + t)[pos] == s[pos]);
    if s[pos] == 'u' {
        lemma_unicode_concat(s, t, pos + 1);
    }
}

proof fn lemma_string_concat(s: Seq<char>, t: Seq<char>, pos: int)
    requires
        string_chars(s, pos) is Ok,
    ensures
        string_chars(s + t, pos) == string_chars(s, pos),
    decreases s.len() - pos,
{
    assert((s + t)[pos] == s[pos]);
    if s[pos] == '\\' {
        lemma_escape_concat(s, t, pos + 1);
        let p = escape(s, pos + 1)->Ok_0.1;
        lemma_string_concat(s, t, p);
    } else if s[pos] != '"' {
        lemma_string_concat(s, t, pos + 1);
    }
}

proof fn lemma_word_concat(s: Seq<char>, t: Seq<char>, pos: int, word: Seq<char>)
    requires
        word_at(s, pos, word),
    ensures
        word_at(s + t, pos, word),
{
    assert((s + t).subrange(pos, pos + word.len()) =~= s.subrange(pos, pos + word.len()));
}

/// The characters gathered for a number from `pos` are number characters,
/// up to one that is not or the end.
proof fn lemma_scan_end(s: Seq<char>, pos: int)
    requires
        0 <= pos <= s.len(),
    ensures
        pos <= scan_end(s, pos) <= s.len(),
        forall|k: int| pos <= k < scan_end(s, pos) ==> number_char(#[trigger] s[k]),
    decreases s.len() - pos,
{
    if pos < s.len() && number_char(s[pos]) {
        lemma_scan_end(s, pos + 1);
    }
}

proof fn lemma_scan_concat(s: Seq<char>, t: Seq<char>, pos: int)
    requires
        0 <= pos <= s.len(),
        scan_end(s, pos) < s.len() || t.len() == 0 || !number_char(t[0]),
    ensures
        scan_end(s + t, pos) == scan_end(s, pos),
    decreases s.len() - pos,
{
    if pos < s.len() {
        assert((s + t)[pos] == s[pos]);
        if number_char(s[pos]) {
            lemma_scan_concat(s, t, pos + 1);
        }
    } else if t.len() > 0 {
        assert((s + t)[pos] == t[0]);
    } else {
        assert(s + t =~= s);
    }
}

proof fn lemma_digits_from(t: Seq<char>, p: int)
    requires
        0 <= p,
    ensures
        p <= digits_end(t, p),
    decreases t.len() - p,
{
    if 0 <= p < t.len() && '0' <= t[p] && t[p] <= '9' {
        lemma_digits_from(t, p + 1);
    }
}

/// What `strtod` reads is never a negative length.
proof fn lemma_float_len_nonneg(t: Seq<char>)
    ensures
        c_float_len(t) matches Some(n) ==> 0 <= n,
{
    let p0: int = if t.len() > 0 && (t[0] == '+' || t[0] == '-') {
        1
    } else {
        0
    };
    let d_end = digits_end(t, p0);
    lemma_digits_from(t, p0);
    lemma_digits_from(t, d_end + 1);
    let has_dot = d_end < t.len() && t[d_end] == '.';
    let f_end = if has_dot {
        digits_end(t, d_end + 1)
    } else {
        d_end
    };
    let q = f_end + 1;
    let q2 = if q < t.len() && (t[q] == '+' || t[q] == '-') {
        q + 1
    } else {
        q
    };
    lemma_digits_from(t, q2);
}

/// The character at `q` of `s + t`, if there is one, is not a number
/// character.
pub open spec fn stops_at(s: Seq<char>, t: Seq<char>, q: int) -> bool {
    if 0 <= q < s.len() {
        !number_char(s[q])
    } else {
        t.len() == 0 || !number_char(t[0])
    }
}

proof fn lemma_number_concat<N, F: Fn(&str) -> N>(s: Seq<char>, t: Seq<char>, pos: int, f: F)
    requires
        0 <= pos < s.len(),
        number_at(s, pos, f) is Ok,
        stops_at(s, t, number_at(s, pos, f)->Ok_0.1),
    ensures
        number_at(s + t, pos, f) == number_at(s, pos, f),
{
    lemma_scan_end(s, pos);
    let e = scan_end(s, pos);
    let tok = s.subrange(pos, e);
    lemma_float_len_nonneg(tok);
    let q = number_at(s, pos, f)->Ok_0.1;
    if e == s.len() && q < s.len() {
        assert(number_char(s[q]));
    }
    lemma_scan_concat(s, t, pos);
    assert((s + t).subrange(pos, e) =~= tok);
}

/// No array has its elements start at the very end of the text.
proof fn lemma_items_at_end<N, F: Fn(&str) -> N>(s: Seq<char>, depth: int, f: F)
    ensures
        array_items(s, s.len() as int, depth, f) is Err,
{
    lemma_skip_ws(s, s.len() as int);
}

/// A value read from `s`, followed in `s + t` by something that does not
/// continue a number, is read from `s + t` the same way.
pub proof fn lemma_value_concat<N, F: Fn(&str) -> N>(s: Seq<char>, t: Seq<char>, pos: int, depth: int, f: F)
    requires
        value_at(s, pos, depth, f) is Ok,
        value_at(s, pos, depth, f)->Ok_0.0 is Number ==> stops_at(s, t, value_at(s, pos, depth, f)->Ok_0.1),
    ensures
        value_at(s + t, pos, depth, f) == value_at(s, pos, depth, f),
    decreases s.len() - pos, 0nat,
{
    let p = skip_ws(s, pos);
    lemma_skip_ws(s, pos);
    lemma_skip_concat(s, t, pos);
    assert((s + t)[p] == s[p]);
    let c = s[p];
    if c == 'n' {
        lemma_word_concat(s, t, p, seq!['n', 'u', 'l', 'l']);
    } else if c == 't' {
        lemma_word_concat(s, t, p, seq!['t', 'r', 'u', 'e']);
    } else if c == 'f' {
        lemma_word_concat(s, t, p, seq!['f', 'a', 'l', 's', 'e']);
    } else if c == '"' {
        lemma_string_concat(s, t, p + 1);
    } else if c == '[' {
        lemma_array_body_concat(s, t, p + 1, depth + 1, f);
    } else if c == '{' {
        lemma_object_body_concat(s, t, p + 1, depth + 1, f);
    } else if c == '-' || ('0' <= c && c <= '9') {
        lemma_number_concat(s, t, p, f);
    }
}

proof fn lemma_array_body_concat<N, F: Fn(&str) -> N>(s: Seq<char>, t: Seq<char>, pos: int, depth: int, f: F)
    requires
        array_body(s, pos, depth, f) is Ok,
    ensures
        array_body(s + t, pos, depth, f) == array_body(s, pos, depth, f),
    decreases s.len() - pos, 2nat,
{
    let p = skip_ws(s, pos);
    lemma_skip_ws(s, pos);
    lemma_skip_concat(s, t, pos);
    if p < s.len() {
        assert((s + t)[p] == s[p]);
    }
    if !(p < s.len() && s[p] == ']') {
        lemma_items_at_end(s, depth, f);
        lemma_array_items_concat(s, t, p, depth, f);
    }
}

proof fn lemma_array_items_concat<N, F: Fn(&str) -> N>(s: Seq<char>, t: Seq<char>, pos: int, depth: int, f: F)
    requires
        array_items(s, pos, depth, f) is Ok,
    ensures
        array_items(s + t, pos, depth, f) == array_items(s, pos, depth, f),
    decreases s.len() - pos, 1nat,
{
    let p2 = value_at(s, pos, depth, f)->Ok_0.1;
    let p3 = skip_ws(s, p2);
    lemma_skip_ws(s, p2);
    lemma_skip_concat(s, t, p2);
    assert((s + t)[p3] == s[p3]);
    if p2 < p3 {
        assert(json_space(s[p2]));
    }
    lemma_value_concat(s, t, pos, depth, f);
    if s[p3] == ',' {
        let p4 = skip_ws(s, p3 + 1);
        lemma_skip_ws(s, p3 + 1);
        lemma_skip_concat(s, t, p3 + 1);
        lemma_items_at_end(s, depth, f);
        lemma_array_items_concat(s, t, p4, depth, f);
    }
}

proof fn lemma_object_body_concat<N, F: Fn(&str) -> N>(s: Seq<char>, t: Seq<char>, pos: int, depth: int, f: F)
    requires
        object_body(s, pos, depth, f) is Ok,
    ensures
        object_body(s + t, pos, depth, f) == object_body(s, pos, depth, f),
    decreases s.len() - pos, 2nat,
{
    let p = skip_ws(s, pos);
    lemma_skip_ws(s, pos);
    lemma_skip_concat(s, t, pos);
    if p < s.len() {
        assert((s + t)[p] == s[p]);
    }
    if !(p < s.len() && s[p] == '}') {
        lemma_object_members_concat(s, t, p, depth, f);
    }
}

proof fn lemma_object_members_concat<N, F: Fn(&str) -> N>(s: Seq<char>, t: Seq<char>, pos: int, depth: int, f: F)
    requires
        object_members(s, pos, depth, f) is Ok,
    ensures
        object_members(s + t, pos, depth, f) == object_members(s, pos, depth, f),
    decreases s.len() - pos, 1nat,
{
    assert((s + t)[pos] == s[pos]);
    lemma_string_concat(s, t, pos + 1);
    let p1 = string_chars(s, pos + 1)->Ok_0.1;
    let p2 = skip_ws(s, p1);
    lemma_skip_ws(s, p1);
    lemma_skip_concat(s, t, p1);
    assert((s + t)[p2] == s[p2]);
    let p3 = value_at(s, p2 + 1, depth, f)->Ok_0.1;
    let p4 = skip_ws(s, p3);
    lemma_skip_ws(s, p3);
    lemma_skip_concat(s, t, p3);
    assert((s + t)[p4] == s[p4]);
    if p3 < p4 {
        assert(json_space(s[p3]));
    }
    lemma_value_concat(s, t, p2 + 1, depth, f);
    if s[p4] == ',' {
        let p5 = skip_ws(s, p4 + 1);
        lemma_skip_ws(s, p4 + 1);
        lemma_skip_concat(s, t, p4 + 1);
        lemma_object_members_concat(s, t, p5, depth, f);
    }
}

/// Whitespace takes one byte per character in UTF-8.
proof fn lemma_blank_bytes(w: Seq<char>)
    requires
        forall|k: int| 0 <= k < w.len() ==> json_space(#[trigger] w[k]),
    ensures
        vstd::utf8::encode_utf8(w).len() == w.len(),
    decreases w.len(),
{
    if w.len() > 0 {
        let rest = w.drop_first();
        assert(w =~= seq![w[0]] + rest);
        assert forall|k: int| 0 <= k < rest.len() implies json_space(#[trigger] rest[k]) by {
            assert(rest[k] == w[k + 1]);
        }
        lemma_blank_bytes(rest);
        lemma_encode_utf8_concat(seq![w[0]], rest);
        lemma_encode_utf8_char(w[0]);
    }
}

/// `rest`, written right after `s`, changes the number that `s` holds: `s`
/// is a number running to its very end, and the number read from `s + rest`
/// at the same place differs (`1` followed by `2` reads as `12`).
pub open spec fn changes_number<N, F: Fn(&str) -> N>(s: Seq<char>, rest: Seq<char>, f: F) -> bool {
    &&& value_at(s, 0, 0, f) matches Ok((JValue::Number(_), end)) && end == s.len()
    &&& number_at(s + rest, skip_ws(s, 0), f) != number_at(s, skip_ws(s, 0), f)
}

/// Trailing text after a document is refused where it starts: if `s`
/// parses, then `s` followed by `rest`, which holds more than whitespace,
/// fails at the first character of `rest` that is not whitespace, with
/// "trailing characters after JSON value"; in bytes, that place is the
/// length of `s` in UTF-8 plus the whitespace that `rest` starts with (the
/// offset `parse` reports). The one exception is a `rest` that changes the
/// number `s` ends with, which is then no longer the same document.
pub proof fn law_trailing_text_rejected<N, F: Fn(&str) -> N>(s: Seq<char>, rest: Seq<char>, f: F)
    requires
        parsed(s, f) is Ok,
        skip_ws(rest, 0) < rest.len(),
        !changes_number(s, rest, f),
    ensures
        parsed(s + rest, f) == fail::<JValue<N>>(
            s.len() + skip_ws(rest, 0),
            "trailing characters after JSON value"@,
        ),
        vstd::utf8::encode_utf8((s + rest).take(s.len() + skip_ws(rest, 0))).len() == vstd::utf8::encode_utf8(s).len()
            + skip_ws(rest, 0),
{
    let k = skip_ws(rest, 0);
    lemma_skip_ws(rest, 0);
    assert((s + rest).take(s.len() + k) =~= s + rest.take(k));
    lemma_encode_utf8_concat(s, rest.take(k));
    lemma_blank_bytes(rest.take(k));
    let (v, q) = value_at(s, 0, 0, f)->Ok_0;
    assert(skip_ws(s, q) == s.len());
    assert(0 <= q <= s.len());
    lemma_skip_ws(s, q);
    lemma_skip_concat(s, rest, q);
    if v is Number && q == s.len() {
        let p = skip_ws(s, 0);
        lemma_skip_ws(s, 0);
        lemma_skip_concat(s, rest, 0);
        assert((s + rest)[p] == s[p]);
        assert(value_at(s + rest, 0, 0, f) == value_at(s, 0, 0, f));
    } else {
        if q < s.len() {
            assert(json_space(s[q]));
        }
        lemma_value_concat(s, rest, 0, 0, f);
    }
}

} // verus!
