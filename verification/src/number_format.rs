//! The text-only steps of writing a number the way cJSON does: dropping the
//! zeros that end a fraction, and writing an exponent with a sign and at
//! least two digits. The caller's number writer does the floating-point part
//! and hands these functions its text.
use vstd::prelude::*;
use crate::text::{chars_of, decimal, push_decimal, string_from_chars};

verus! {

/// The first index from `from` on that holds `a` or `b`; the length of `t`
/// where there is none.
pub open spec fn first_of(t: Seq<char>, a: char, b: char, from: int) -> int
    decreases t.len() - from,
{
    if from < 0 || from >= t.len() {
        t.len() as int
    } else if t[from] == a || t[from] == b {
        from
    } else {
        first_of(t, a, b, from + 1)
    }
}

proof fn lemma_first_of(t: Seq<char>, a: char, b: char, from: int)
    requires
        0 <= from <= t.len(),
    ensures
        from <= first_of(t, a, b, from) <= t.len(),
        first_of(t, a, b, from) < t.len() ==> t[first_of(t, a, b, from)] == a || t[first_of(t, a, b, from)] == b,
        forall|k: int| from <= k < first_of(t, a, b, from) ==> #[trigger] t[k] != a && t[k] != b,
    decreases t.len() - from,
{
    if from < t.len() && !(t[from] == a || t[from] == b) {
        lemma_first_of(t, a, b, from + 1);
    }
}

/// The index of the first `a` or `b` in `cs`, or its length.
fn position_of(cs: &Vec<char>, a: char, b: char) -> (r: usize)
    ensures
        r == first_of(cs@, a, b, 0),
{
    let mut k: usize = 0;
    while k < cs.len() && cs[k] != a && cs[k] != b
        invariant
            k <= cs@.len(),
            first_of(cs@, a, b, 0) == first_of(cs@, a, b, k as int),
        decreases cs@.len() - k,
    {
        k += 1;
    }
    k
}

/// Where the digits of `t[..end]` stop once the `'0'`s that end it are
/// dropped, never going below `floor`.
pub open spec fn zeros_start(t: Seq<char>, floor: int, end: int) -> int
    decreases end - floor,
{
    if end > floor && t[end - 1] == '0' {
        zeros_start(t, floor, end - 1)
    } else {
        end
    }
}

/// `t` with the `'0'`s that end its fraction removed, and its decimal point
/// too where no fraction digit is left: the fraction runs from the first
/// `'.'` to the first `'e'` or `'E'` (or the end). Text without a `'.'`
/// stays as it is.
pub open spec fn fraction_trimmed(t: Seq<char>) -> Seq<char> {
    let dot = first_of(t, '.', '.', 0);
    if dot == t.len() {
        t
    } else {
        let exp = first_of(t, 'e', 'E', 0);
        let z = zeros_start(t, dot + 1, exp);
        let end = if z == dot + 1 {
            dot
        } else {
            z
        };
        t.take(end) + t.skip(exp)
    }
}

/// Drops the zeros that end the fraction of a number's text, and the
/// decimal point where the whole fraction goes (`"1.500"` gives `"1.5"`,
/// `"2.000e+05"` gives `"2e+05"`).
pub fn trim_fractional_zeros(text: String) -> (r: String)
    ensures
        r@ == fraction_trimmed(text@),
{
    let cs = chars_of(text.as_str());
    let dot = position_of(&cs, '.', '.');
    if dot == cs.len() {
        return text;
    }
    let exp = position_of(&cs, 'e', 'E');
    proof {
        lemma_first_of(cs@, '.', '.', 0);
        lemma_first_of(cs@, 'e', 'E', 0);
    }
    let after_dot = dot + 1;
    let mut end = exp;
    while end > after_dot && cs[end - 1] == '0'
        invariant
            end <= exp <= cs@.len(),
            dot < cs@.len(),
            after_dot == dot + 1,
            zeros_start(cs@, dot + 1, exp as int) == zeros_start(cs@, dot + 1, end as int),
        decreases end,
    {
        end -= 1;
    }
    if end == after_dot {
        end -= 1;
    }
    let mut out: Vec<char> = Vec::new();
    let mut k: usize = 0;
    while k < end
        invariant
            k <= end <= exp <= cs@.len(),
            out@ == cs@.take(k as int),
        decreases end - k,
    {
        out.push(cs[k]);
        k += 1;
        assert(out@ =~= cs@.take(k as int));
    }
    let mut k: usize = exp;
    while k < cs.len()
        invariant
            end <= exp <= k <= cs@.len(),
            out@ == cs@.take(end as int) + cs@.subrange(exp as int, k as int),
        decreases cs@.len() - k,
    {
        out.push(cs[k]);
        k += 1;
        assert(out@ =~= cs@.take(end as int) + cs@.subrange(exp as int, k as int));
    }
    assert(cs@.subrange(exp as int, cs@.len() as int) =~= cs@.skip(exp as int));
    string_from_chars(&out)
}

/// The value of a run of decimal digits.
pub open spec fn digits_value(ds: Seq<char>) -> int
    decreases ds.len(),
{
    if ds.len() == 0 {
        0
    } else {
        digits_value(ds.drop_last()) * 10 + (ds.last() as int - '0' as int)
    }
}

/// `ds` is one or more decimal digits.
pub open spec fn all_digits(ds: Seq<char>) -> bool {
    ds.len() > 0 && forall|k: int| 0 <= k < ds.len() ==> '0' <= #[trigger] ds[k] && ds[k] <= '9'
}

/// The digits of an exponent's text, after its sign if it has one.
pub open spec fn exponent_digits(t: Seq<char>) -> Seq<char> {
    if t.len() > 0 && (t[0] == '+' || t[0] == '-') {
        t.skip(1)
    } else {
        t
    }
}

/// What an exponent's text reads as, as Rust reads an `i32`: an optional
/// sign, then one or more digits, for a value that fits; `None` otherwise.
pub open spec fn exponent_value(t: Seq<char>) -> Option<int> {
    let ds = exponent_digits(t);
    let v = if t.len() > 0 && t[0] == '-' {
        -digits_value(ds)
    } else {
        digits_value(ds)
    };
    if all_digits(ds) && i32::MIN <= v <= i32::MAX {
        Some(v)
    } else {
        None
    }
}

/// The text splits at its first `'e'` into a mantissa and an exponent that
/// reads as an `i32`.
pub open spec fn scientific_ready(t: Seq<char>) -> bool {
    let e = first_of(t, 'e', 'e', 0);
    e < t.len() && exponent_value(t.skip(e + 1)) is Some
}

/// The mantissa before the first `'e'`, then `e`, the exponent's sign and
/// its digits, at least two of them (`"1.5e-7"` gives `"1.5e-07"`).
pub open spec fn scientific_normalized(t: Seq<char>) -> Seq<char> {
    let e = first_of(t, 'e', 'e', 0);
    let v = exponent_value(t.skip(e + 1))->Some_0;
    let magnitude: nat = if v < 0 {
        (-v) as nat
    } else {
        v as nat
    };
    let pad = if magnitude < 10 {
        seq!['0']
    } else {
        Seq::empty()
    };
    t.take(e) + seq!['e', if v < 0 { '-' } else { '+' }] + pad + decimal(magnitude)
}

proof fn lemma_digits_prefix(ds: Seq<char>, k: int)
    requires
        0 <= k <= ds.len(),
        forall|j: int| 0 <= j < ds.len() ==> '0' <= #[trigger] ds[j] && ds[j] <= '9',
    ensures
        0 <= digits_value(ds.take(k)) <= digits_value(ds),
    decreases ds.len() - k,
{
    if k < ds.len() {
        lemma_digits_prefix(ds, k + 1);
        assert(ds.take(k + 1).drop_last() =~= ds.take(k));
        assert(ds.take(k + 1).last() == ds[k]);
    } else {
        assert(ds.take(k) =~= ds);
        lemma_digits_nonneg(ds);
    }
}

proof fn lemma_digits_nonneg(ds: Seq<char>)
    requires
        forall|j: int| 0 <= j < ds.len() ==> '0' <= #[trigger] ds[j] && ds[j] <= '9',
    ensures
        0 <= digits_value(ds),
    decreases ds.len(),
{
    if ds.len() > 0 {
        let rest = ds.drop_last();
        assert forall|j: int| 0 <= j < rest.len() implies '0' <= #[trigger] rest[j] && rest[j] <= '9' by {
            assert(rest[j] == ds[j]);
        }
        lemma_digits_nonneg(rest);
    }
}

/// Writes the exponent of a number's text the way C's `printf` does: a sign,
/// then at least two digits (`"1e5"` gives `"1e+05"`, `"2e-123"` stays).
/// The text must hold an `'e'` followed by an exponent that reads as an
/// `i32`, as Rust's scientific formatting always gives.
pub fn normalize_scientific(text: &str) -> (r: String)
    requires
        scientific_ready(text@),
    ensures
        r@ == scientific_normalized(text@),
{
    let cs = chars_of(text);
    let e = position_of(&cs, 'e', 'e');
    proof {
        lemma_first_of(cs@, 'e', 'e', 0);
    }
    let ghost t = cs@.skip(e + 1);
    let mut start = e + 1;
    let negative = start < cs.len() && cs[start] == '-';
    if start < cs.len() && (cs[start] == '+' || cs[start] == '-') {
        start += 1;
    }
    let ghost ds = exponent_digits(t);
    assert(ds =~= cs@.skip(start as int));
    assert(digits_value(ds) <= 0x8000_0000);
    let mut magnitude: u64 = 0;
    let mut k: usize = start;
    while k < cs.len()
        invariant
            start <= k <= cs@.len(),
            ds == cs@.skip(start as int),
            all_digits(ds),
            digits_value(ds) <= 0x8000_0000,
            magnitude == digits_value(ds.take(k - start)),
        decreases cs@.len() - k,
    {
        proof {
            lemma_digits_prefix(ds, k - start + 1);
            assert(ds.take(k - start + 1).drop_last() =~= ds.take(k - start));
            assert(ds.take(k - start + 1).last() == cs@[k as int]);
        }
        assert(ds[k - start] == cs@[k as int]);
        let d = (cs[k] as u32 - '0' as u32) as u64;
        magnitude = magnitude * 10 + d;
        k += 1;
    }
    assert(ds.take(ds.len() as int) =~= ds);
    let mut out: Vec<char> = Vec::new();
    let mut i: usize = 0;
    while i < e
        invariant
            i <= e <= cs@.len(),
            out@ == cs@.take(i as int),
        decreases e - i,
    {
        out.push(cs[i]);
        i += 1;
        assert(out@ =~= cs@.take(i as int));
    }
    out.push('e');
    if negative && magnitude > 0 {
        out.push('-');
    } else {
        out.push('+');
    }
    if magnitude < 10 {
        out.push('0');
    }
    push_decimal(&mut out, magnitude as usize);
    string_from_chars(&out)
}

} // verus!
