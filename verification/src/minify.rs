//! Minification of JSON text. It works on text, not on a parsed
//! value, and also removes `//` and `/* ... */` comments.
use vstd::prelude::*;
use crate::text::{chars_of, push_char};

verus! {

/// The whitespace that minification drops.
pub open spec fn minify_space(c: char) -> bool {
    c == ' ' || c == '\t' || c == '\r' || c == '\n'
}

/// How many characters a string body takes, starting just after its opening
/// quote: up to and including the closing quote, a backslash always taking
/// the character after it along, or to the end of the text.
pub open spec fn string_len(s: Seq<char>) -> nat
    decreases s.len(),
{
    if s.len() == 0 {
        0
    } else if s[0] == '"' {
        1
    } else if s[0] == '\\' {
        if s.len() >= 2 {
            2 + string_len(s.skip(2))
        } else {
            1
        }
    } else {
        1 + string_len(s.drop_first())
    }
}

/// How many characters a `//` comment takes after its two slashes: through
/// the next line feed, or to the end of the text.
pub open spec fn line_len(s: Seq<char>) -> nat
    decreases s.len(),
{
    if s.len() == 0 {
        0
    } else if s[0] == '\n' {
        1
    } else {
        1 + line_len(s.drop_first())
    }
}

/// How many characters a `/* */` comment takes after its opening: through
/// the first `*/`, or to the end of the text.
pub open spec fn block_len(s: Seq<char>) -> nat
    decreases s.len(),
{
    if s.len() == 0 {
        0
    } else if s.len() >= 2 && s[0] == '*' && s[1] == '/' {
        2
    } else {
        1 + block_len(s.drop_first())
    }
}

pub proof fn lemma_lens_bounded(s: Seq<char>)
    ensures
        string_len(s) <= s.len(),
        line_len(s) <= s.len(),
        block_len(s) <= s.len(),
    decreases s.len(),
{
    if s.len() > 0 {
        lemma_lens_bounded(s.drop_first());
        if s.len() >= 2 {
            lemma_lens_bounded(s.skip(2));
        }
    }
}

/// The minified text: whitespace and comments dropped outside strings, a
/// lone slash dropped, strings copied verbatim.
pub open spec fn minified(s: Seq<char>) -> Seq<char>
    decreases s.len(),
{
    if s.len() == 0 {
        Seq::empty()
    } else {
        let c = s[0];
        let rest = s.drop_first();
        proof {
            lemma_lens_bounded(rest);
            if rest.len() > 0 {
                lemma_lens_bounded(rest.drop_first());
            }
        }
        if minify_space(c) {
            minified(rest)
        } else if c == '"' {
            let n = string_len(rest);
            seq!['"'] + rest.take(n as int) + minified(rest.skip(n as int))
        } else if c == '/' {
            if rest.len() > 0 && rest[0] == '/' {
                let t = rest.drop_first();
                minified(t.skip(line_len(t) as int))
            } else if rest.len() > 0 && rest[0] == '*' {
                let t = rest.drop_first();
                minified(t.skip(block_len(t) as int))
            } else {
                minified(rest)
            }
        } else {
            seq![c] + minified(rest)
        }
    }
}

fn string_len_at(cs: &Vec<char>, start: usize) -> (n: usize)
    requires
        start <= cs@.len(),
    ensures
        n == string_len(cs@.skip(start as int)),
        start + n <= cs@.len(),
{
    let mut j = start;
    proof {
        lemma_lens_bounded(cs@.skip(start as int));
    }
    while j < cs.len()
        invariant
            start <= j <= cs@.len(),
            string_len(cs@.skip(start as int)) == (j - start) + string_len(cs@.skip(j as int)),
        decreases cs@.len() - j,
    {
        let c = cs[j];
        if c == '"' {
            return j + 1 - start;
        } else if c == '\\' {
            if j + 1 < cs.len() {
                assert(cs@.skip(j as int).skip(2) =~= cs@.skip(j + 2));
                j = j + 2;
            } else {
                return j + 1 - start;
            }
        } else {
            assert(cs@.skip(j as int).drop_first() =~= cs@.skip(j + 1));
            j = j + 1;
        }
    }
    j - start
}

fn line_len_at(cs: &Vec<char>, start: usize) -> (n: usize)
    requires
        start <= cs@.len(),
    ensures
        n == line_len(cs@.skip(start as int)),
        start + n <= cs@.len(),
{
    let mut j = start;
    while j < cs.len()
        invariant
            start <= j <= cs@.len(),
            line_len(cs@.skip(start as int)) == (j - start) + line_len(cs@.skip(j as int)),
        decreases cs@.len() - j,
    {
        if cs[j] == '\n' {
            return j + 1 - start;
        }
        assert(cs@.skip(j as int).drop_first() =~= cs@.skip(j + 1));
        j = j + 1;
    }
    j - start
}

fn block_len_at(cs: &Vec<char>, start: usize) -> (n: usize)
    requires
        start <= cs@.len(),
    ensures
        n == block_len(cs@.skip(start as int)),
        start + n <= cs@.len(),
{
    let mut j = start;
    while j < cs.len()
        invariant
            start <= j <= cs@.len(),
            block_len(cs@.skip(start as int)) == (j - start) + block_len(cs@.skip(j as int)),
        decreases cs@.len() - j,
    {
        if j + 1 < cs.len() && cs[j] == '*' && cs[j + 1] == '/' {
            return j + 2 - start;
        }
        assert(cs@.skip(j as int).drop_first() =~= cs@.skip(j + 1));
        j = j + 1;
    }
    j - start
}

/// Removes insignificant whitespace (space, tab, CR, LF) and
/// `//` and `/* */` comments from JSON-like text. Text inside quoted strings
/// is copied unchanged, escapes included; a lone slash outside a string is
/// dropped.
#[verifier::loop_isolation(false)]
pub fn minify(input: &str) -> (r: String)
    ensures
        r@ == minified(input@),
{
    let cs = chars_of(input);
    let mut out = String::new();
    let mut i: usize = 0;
    assert(cs@.skip(0) =~= cs@);
    assert(out@ + minified(cs@) =~= minified(cs@));
    while i < cs.len()
        invariant
            i <= cs@.len(),
            cs@ == input@,
            minified(cs@) == out@ + minified(cs@.skip(i as int)),
        decreases cs@.len() - i,
    {
        let ghost s = cs@.skip(i as int);
        let ghost rest = s.drop_first();
        assert(rest =~= cs@.skip(i + 1));
        let c = cs[i];
        if c == ' ' || c == '\t' || c == '\r' || c == '\n' {
            i = i + 1;
        } else if c == '"' {
            push_char(&mut out, '"');
            let ghost base = out@;
            let n = string_len_at(&cs, i + 1);
            let mut k: usize = 0;
            while k < n
                invariant
                    k <= n,
                    i + 1 + n <= cs@.len(),
                    out@ == base + cs@.subrange(i + 1, i + 1 + k),
                decreases n - k,
            {
                push_char(&mut out, cs[i + 1 + k]);
                k = k + 1;
                assert(out@ =~= base + cs@.subrange(i + 1, i + 1 + k));
            }
            assert(rest.take(n as int) =~= cs@.subrange(i + 1, i + 1 + n));
            assert(rest.skip(n as int) =~= cs@.skip(i + 1 + n));
            i = i + 1 + n;
        } else if c == '/' {
            if i + 1 < cs.len() && cs[i + 1] == '/' {
                let n = line_len_at(&cs, i + 2);
                assert(rest.drop_first() =~= cs@.skip(i + 2));
                assert(cs@.skip(i + 2).skip(n as int) =~= cs@.skip(i + 2 + n));
                i = i + 2 + n;
            } else if i + 1 < cs.len() && cs[i + 1] == '*' {
                let n = block_len_at(&cs, i + 2);
                assert(rest.drop_first() =~= cs@.skip(i + 2));
                assert(cs@.skip(i + 2).skip(n as int) =~= cs@.skip(i + 2 + n));
                i = i + 2 + n;
            } else {
                i = i + 1;
            }
        } else {
            push_char(&mut out, c);
            i = i + 1;
        }
    }
    out
}

/// A string body scanned to its end scans the same with any text after it,
/// provided it was closed (or nothing follows).
proof fn lemma_string_len_prefix(s: Seq<char>, u: Seq<char>)
    requires
        string_len(s) < s.len() || u.len() == 0,
    ensures
        string_len(s.take(string_len(s) as int) + u) == string_len(s),
    decreases s.len(),
{
    lemma_lens_bounded(s);
    let n = string_len(s);
    let t = s.take(n as int) + u;
    if s.len() == 0 {
        assert(t =~= u);
    } else if s[0] == '"' {
        assert(t[0] == '"');
    } else if s[0] == '\\' {
        if s.len() >= 2 {
            let s2 = s.skip(2);
            lemma_lens_bounded(s2);
            lemma_string_len_prefix(s2, u);
            assert(t[0] == '\\' && t.len() >= 2);
            assert(t.skip(2) =~= s2.take(string_len(s2) as int) + u);
        } else {
            assert(t =~= s);
        }
    } else {
        let s1 = s.drop_first();
        lemma_lens_bounded(s1);
        lemma_string_len_prefix(s1, u);
        assert(t[0] == s[0]);
        assert(t.drop_first() =~= s1.take(string_len(s1) as int) + u);
    }
}

/// Minifying is idempotent: minified text minifies to itself.
pub proof fn law_minify_idempotent(text: Seq<char>)
    ensures
        minified(minified(text)) == minified(text),
    decreases text.len(),
{
    if text.len() > 0 {
        let c = text[0];
        let rest = text.drop_first();
        lemma_lens_bounded(rest);
        if minify_space(c) {
            law_minify_idempotent(rest);
        } else if c == '"' {
            let n = string_len(rest);
            let body = rest.take(n as int);
            let after = rest.skip(n as int);
            law_minify_idempotent(after);
            let m = minified(text);
            assert(m == seq!['"'] + body + minified(after));
            if n == rest.len() {
                assert(after.len() == 0);
                assert(minified(after) =~= Seq::<char>::empty());
            }
            lemma_string_len_prefix(rest, minified(after));
            let mrest = m.drop_first();
            assert(mrest =~= body + minified(after));
            assert(m[0] == '"');
            assert(mrest.take(n as int) =~= body);
            assert(mrest.skip(n as int) =~= minified(after));
            assert(minified(m) == seq!['"'] + mrest.take(n as int) + minified(mrest.skip(n as int)));
        } else if c == '/' {
            if rest.len() > 0 && rest[0] == '/' {
                let t = rest.drop_first();
                lemma_lens_bounded(t);
                law_minify_idempotent(t.skip(line_len(t) as int));
            } else if rest.len() > 0 && rest[0] == '*' {
                let t = rest.drop_first();
                lemma_lens_bounded(t);
                law_minify_idempotent(t.skip(block_len(t) as int));
            } else {
                law_minify_idempotent(rest);
            }
        } else {
            law_minify_idempotent(rest);
            let m = minified(text);
            assert(m == seq![c] + minified(rest));
            assert(m[0] == c);
            assert(m.drop_first() =~= minified(rest));
        }
    }
}

} // verus!
