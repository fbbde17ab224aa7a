//! JSON Pointer: splitting a pointer into
//! tokens, `~0`/`~1` escapes, array indexes, and resolving a pointer
//! against a value.
use vstd::prelude::*;
use crate::text::{
    chars_of, decimal, hex_lower, lower, lowered, names_match, push_char, push_decimal, string_from_chars, to_lower,
};
use crate::value::{
    JMember, JValue, Member, Value, first_match, items_view, lemma_array_view, lemma_first_match, lemma_object_view,
    members_view,
};

verus! {

/// The segments of `p` between `/` separators (one more than the number of
/// slashes).
pub open spec fn split_slash(p: Seq<char>) -> Seq<Seq<char>>
    decreases p.len(),
{
    if p.len() == 0 {
        seq![Seq::empty()]
    } else {
        let init = split_slash(p.drop_last());
        if p.last() == '/' {
            init.push(Seq::empty())
        } else {
            init.update(init.len() - 1, init.last().push(p.last()))
        }
    }
}

pub proof fn lemma_split_slash_len(p: Seq<char>)
    ensures
        split_slash(p).len() >= 1,
    decreases p.len(),
{
    if p.len() > 0 {
        lemma_split_slash_len(p.drop_last());
    }
}

/// The reference tokens of a pointer: its segments without the first (the
/// text before the first `/`).
pub open spec fn pointer_tokens(p: Seq<char>) -> Seq<Seq<char>> {
    split_slash(p).drop_first()
}

/// Splits a pointer into its reference tokens.
pub fn split_pointer(pointer: &Vec<char>) -> (r: Vec<Vec<char>>)
    ensures
        r@.map_values(|t: Vec<char>| t@) == pointer_tokens(pointer@),
{
    let mut done: Vec<Vec<char>> = Vec::new();
    let mut cur: Vec<char> = Vec::new();
    let mut i: usize = 0;
    assert(pointer@.take(0) =~= Seq::<char>::empty());
    while i < pointer.len()
        invariant
            i <= pointer@.len(),
            done@.map_values(|t: Vec<char>| t@).push(cur@) == split_slash(pointer@.take(i as int)),
        decreases pointer@.len() - i,
    {
        let c = pointer[i];
        let ghost prev = split_slash(pointer@.take(i as int));
        assert(pointer@.take(i + 1).drop_last() =~= pointer@.take(i as int));
        if c == '/' {
            let ghost dv = done@.map_values(|t: Vec<char>| t@);
            let finished = cur;
            done.push(finished);
            cur = Vec::new();
            assert(done@.map_values(|t: Vec<char>| t@) =~= dv.push(finished@));
            assert(done@.map_values(|t: Vec<char>| t@).push(cur@) =~= prev.push(Seq::empty()));
        } else {
            let ghost dv = done@.map_values(|t: Vec<char>| t@);
            cur.push(c);
            assert(dv.push(cur@) =~= prev.update(prev.len() - 1, prev.last().push(c)));
        }
        i += 1;
    }
    assert(pointer@.take(pointer@.len() as int) =~= pointer@);
    let ghost all = done@.map_values(|t: Vec<char>| t@).push(cur@);
    done.push(cur);
    assert(done@.map_values(|t: Vec<char>| t@) =~= all);
    let first = done.remove(0);
    assert(done@.map_values(|t: Vec<char>| t@) =~= all.drop_first());
    done
}

pub open spec fn is_digit(c: char) -> bool {
    '0' <= c && c <= '9'
}

/// The number a run of decimal digits spells.
pub open spec fn digits_value(t: Seq<char>) -> int
    decreases t.len(),
{
    if t.len() == 0 {
        0
    } else {
        digits_value(t.drop_last()) * 10 + (t.last() as int - '0' as int)
    }
}

/// The array index a token names: decimal digits without a leading zero
/// (but `0` itself), small enough for a `usize`.
pub open spec fn array_index(t: Seq<char>) -> Option<int> {
    if t.len() == 0 || (t[0] == '0' && t.len() > 1) || !(forall|i: int| 0 <= i < t.len() ==> is_digit(#[trigger] t[i])) {
        None
    } else if digits_value(t) > usize::MAX {
        None
    } else {
        Some(digits_value(t))
    }
}

proof fn lemma_digits_value_grows(t: Seq<char>, i: int)
    requires
        0 <= i <= t.len(),
        forall|k: int| 0 <= k < t.len() ==> is_digit(#[trigger] t[k]),
    ensures
        digits_value(t.take(i)) <= digits_value(t),
        0 <= digits_value(t.take(i)),
    decreases t.len(),
{
    if i < t.len() {
        assert(t.drop_last().take(i) =~= t.take(i));
        lemma_digits_value_grows(t.drop_last(), i);
        lemma_digits_value_grows(t.drop_last(), t.len() - 1);
        assert(t.drop_last().take(t.len() - 1) =~= t.drop_last());
    } else {
        assert(t.take(i) =~= t);
        if t.len() > 0 {
            assert(t.drop_last().take(t.len() - 1) =~= t.drop_last());
            lemma_digits_value_grows(t.drop_last(), t.len() - 1);
        }
    }
}

/// Reads an array index token: leading zeros and anything but digits are
/// refused.
pub fn decode_array_index(token: &Vec<char>) -> (r: Option<usize>)
    ensures
        match array_index(token@) {
            Some(i) => r matches Some(x) && x as int == i,
            None => r is None,
        },
{
    if token.len() == 0 || (token[0] == '0' && token.len() > 1) {
        return None;
    }
    let mut k: usize = 0;
    while k < token.len()
        invariant
            k <= token@.len(),
            forall|j: int| 0 <= j < k ==> is_digit(#[trigger] token@[j]),
        decreases token@.len() - k,
    {
        if !('0' <= token[k] && token[k] <= '9') {
            return None;
        }
        k += 1;
    }
    let mut value: usize = 0;
    let mut i: usize = 0;
    assert(token@.take(0) =~= Seq::<char>::empty());
    while i < token.len()
        invariant
            i <= token@.len(),
            forall|j: int| 0 <= j < token@.len() ==> is_digit(#[trigger] token@[j]),
            value as int == digits_value(token@.take(i as int)),
        decreases token@.len() - i,
    {
        let d = (token[i] as u32 - '0' as u32) as usize;
        assert(token@.take(i + 1).drop_last() =~= token@.take(i as int));
        proof {
            lemma_digits_value_grows(token@, i + 1);
        }
        match value.checked_mul(10) {
            None => {
                return None;
            },
            Some(t) => match t.checked_add(d) {
                None => {
                    return None;
                },
                Some(v) => {
                    value = v;
                },
            },
        }
        i += 1;
    }
    assert(token@.take(token@.len() as int) =~= token@);
    Some(value)
}


/// Two characters agree, exactly or ignoring ASCII case.
pub open spec fn chars_agree(a: char, b: char, case_sensitive: bool) -> bool {
    if case_sensitive {
        a == b
    } else {
        lower(a) == lower(b)
    }
}

/// Whether a pointer token names a member called `name`: `~0` stands for
/// `~` and `~1` for `/`; any other `~` fails the match.
pub open spec fn token_matches(name: Seq<char>, token: Seq<char>, case_sensitive: bool) -> bool
    decreases token.len(),
{
    if name.len() == 0 || token.len() == 0 {
        name.len() == 0 && token.len() == 0
    } else if token[0] == '~' {
        &&& token.len() >= 2
        &&& ((token[1] == '0' && name[0] == '~') || (token[1] == '1' && name[0] == '/'))
        &&& token_matches(name.drop_first(), token.skip(2), case_sensitive)
    } else {
        chars_agree(name[0], token[0], case_sensitive) && token_matches(
            name.drop_first(),
            token.drop_first(),
            case_sensitive,
        )
    }
}

fn chars_agree_exec(a: char, b: char, case_sensitive: bool) -> (r: bool)
    ensures
        r == chars_agree(a, b, case_sensitive),
{
    if case_sensitive {
        a == b
    } else {
        to_lower(a) == to_lower(b)
    }
}

/// Whether the pointer token `token` names the member `name`.
pub fn token_matches_name(name: &Vec<char>, token: &Vec<char>, case_sensitive: bool) -> (r: bool)
    ensures
        r == token_matches(name@, token@, case_sensitive),
{
    let mut i: usize = 0;
    let mut j: usize = 0;
    assert(name@.skip(0) =~= name@);
    assert(token@.skip(0) =~= token@);
    loop
        invariant
            i <= name@.len(),
            j <= token@.len(),
            token_matches(name@, token@, case_sensitive) == token_matches(
                name@.skip(i as int),
                token@.skip(j as int),
                case_sensitive,
            ),
        decreases token@.len() - j,
    {
        if i == name.len() || j == token.len() {
            return i == name.len() && j == token.len();
        }
        assert(name@.skip(i as int).drop_first() =~= name@.skip(i + 1));
        if token[j] == '~' {
            if j + 1 < token.len() && ((token[j + 1] == '0' && name[i] == '~') || (token[j + 1] == '1'
                && name[i] == '/')) {
                assert(token@.skip(j as int).skip(2) =~= token@.skip(j + 2));
                i += 1;
                j += 2;
            } else {
                return false;
            }
        } else {
            if !chars_agree_exec(name[i], token[j], case_sensitive) {
                return false;
            }
            assert(token@.skip(j as int).drop_first() =~= token@.skip(j + 1));
            i += 1;
            j += 1;
        }
    }
}

/// A token with its `~0` and `~1` escapes turned back into `~` and `/`.
/// Decoding stops at a `~` that starts no valid escape.
pub open spec fn decode_token(t: Seq<char>) -> Seq<char>
    decreases t.len(),
{
    if t.len() == 0 {
        t
    } else if t[0] == '~' {
        if t.len() >= 2 && t[1] == '0' {
            seq!['~'] + decode_token(t.skip(2))
        } else if t.len() >= 2 && t[1] == '1' {
            seq!['/'] + decode_token(t.skip(2))
        } else {
            Seq::empty()
        }
    } else {
        seq![t[0]] + decode_token(t.drop_first())
    }
}

/// Decodes the escapes of a pointer token.
pub fn decode_pointer_token(token: &Vec<char>) -> (r: Vec<char>)
    ensures
        r@ == decode_token(token@),
{
    let mut out: Vec<char> = Vec::new();
    let mut j: usize = 0;
    assert(token@.skip(0) =~= token@);
    while j < token.len()
        invariant
            j <= token@.len(),
            decode_token(token@) == out@ + decode_token(token@.skip(j as int)),
        decreases token@.len() - j,
    {
        let ghost before = out@;
        if token[j] == '~' {
            if j + 1 < token.len() && token[j + 1] == '0' {
                assert(token@.skip(j as int).skip(2) =~= token@.skip(j + 2));
                out.push('~');
                assert(before + (seq!['~'] + decode_token(token@.skip(j + 2))) =~= out@ + decode_token(
                    token@.skip(j + 2),
                ));
                j += 2;
            } else if j + 1 < token.len() && token[j + 1] == '1' {
                assert(token@.skip(j as int).skip(2) =~= token@.skip(j + 2));
                out.push('/');
                assert(before + (seq!['/'] + decode_token(token@.skip(j + 2))) =~= out@ + decode_token(
                    token@.skip(j + 2),
                ));
                j += 2;
            } else {
                assert(out@ + Seq::<char>::empty() =~= out@);
                return out;
            }
        } else {
            assert(token@.skip(j as int).drop_first() =~= token@.skip(j + 1));
            out.push(token[j]);
            assert(before + (seq![token@[j as int]] + decode_token(token@.skip(j + 1))) =~= out@
                + decode_token(token@.skip(j + 1)));
            j += 1;
        }
    }
    assert(token@.skip(j as int) =~= Seq::<char>::empty());
    assert(out@ + Seq::<char>::empty() =~= out@);
    out
}

/// How one character of a member name is written in a pointer token.
pub open spec fn escaped_name_char(c: char) -> Seq<char> {
    if c == '/' {
        seq!['~', '1']
    } else if c == '~' {
        seq!['~', '0']
    } else {
        seq![c]
    }
}

/// A member name written as a pointer token: `~` becomes `~0` and `/`
/// becomes `~1`.
pub open spec fn encode_token(s: Seq<char>) -> Seq<char>
    decreases s.len(),
{
    if s.len() == 0 {
        Seq::empty()
    } else {
        escaped_name_char(s[0]) + encode_token(s.drop_first())
    }
}

proof fn lemma_encode_token_push(s: Seq<char>, c: char)
    ensures
        encode_token(s.push(c)) == encode_token(s) + escaped_name_char(c),
    decreases s.len(),
{
    if s.len() == 0 {
        assert(seq![c].drop_first() =~= Seq::<char>::empty());
        assert(s.push(c) =~= seq![c]);
        assert(encode_token(seq![c]) == escaped_name_char(c) + encode_token(Seq::<char>::empty()));
        assert(encode_token(s.push(c)) =~= encode_token(s) + escaped_name_char(c));
    } else {
        assert(s.push(c).drop_first() =~= s.drop_first().push(c));
        assert(s.push(c)[0] == s[0]);
        lemma_encode_token_push(s.drop_first(), c);
        assert(encode_token(s.push(c)) == escaped_name_char(s[0]) + encode_token(s.drop_first().push(c)));
        assert(encode_token(s) == escaped_name_char(s[0]) + encode_token(s.drop_first()));
        assert(escaped_name_char(s[0]) + (encode_token(s.drop_first()) + escaped_name_char(c)) =~= (
        escaped_name_char(s[0]) + encode_token(s.drop_first())) + escaped_name_char(c));
    }
}

/// Appends a member name, escaped as a pointer token, to `out`.
pub fn push_encoded_name(out: &mut Vec<char>, name: &str)
    ensures
        final(out)@ == old(out)@ + encode_token(name@),
{
    let cs = chars_of(name);
    let ghost start = out@;
    let mut i: usize = 0;
    assert(cs@.take(0) =~= Seq::<char>::empty());
    assert(start + Seq::<char>::empty() =~= start);
    while i < cs.len()
        invariant
            i <= cs@.len(),
            cs@ == name@,
            out@ == start + encode_token(cs@.take(i as int)),
        decreases cs@.len() - i,
    {
        let c = cs[i];
        proof {
            assert(cs@.take(i + 1) =~= cs@.take(i as int).push(c));
            lemma_encode_token_push(cs@.take(i as int), c);
        }
        if c == '/' {
            out.push('~');
            out.push('1');
        } else if c == '~' {
            out.push('~');
            out.push('0');
        } else {
            out.push(c);
        }
        i += 1;
        assert(out@ =~= start + encode_token(cs@.take(i as int)));
    }
    assert(cs@.take(cs@.len() as int) =~= cs@);
}

/// Decoding undoes encoding: a member name written as a pointer token and
/// read back is the same name.
pub proof fn lemma_decode_encode(s: Seq<char>)
    ensures
        decode_token(encode_token(s)) == s,
    decreases s.len(),
{
    if s.len() > 0 {
        let rest = encode_token(s.drop_first());
        lemma_decode_encode(s.drop_first());
        let e = escaped_name_char(s[0]) + rest;
        assert(encode_token(s) == e);
        if s[0] == '/' || s[0] == '~' {
            assert(e.skip(2) =~= rest);
        } else {
            assert(e.drop_first() =~= rest);
        }
        assert(decode_token(e) =~= s);
    }
}

/// An escaped name matches the member it was made from.
pub proof fn lemma_encoded_name_matches(s: Seq<char>, case_sensitive: bool)
    ensures
        token_matches(s, encode_token(s), case_sensitive),
    decreases s.len(),
{
    if s.len() > 0 {
        let rest = encode_token(s.drop_first());
        lemma_encoded_name_matches(s.drop_first(), case_sensitive);
        let e = escaped_name_char(s[0]) + rest;
        assert(encode_token(s) == e);
        if s[0] == '/' || s[0] == '~' {
            assert(e.skip(2) =~= rest);
        } else {
            assert(e.drop_first() =~= rest);
        }
    }
}

/// The position of the last `/` in a pointer, if any.
pub open spec fn last_slash(p: Seq<char>) -> Option<int>
    decreases p.len(),
{
    if p.len() == 0 {
        None
    } else if p.last() == '/' {
        Some(p.len() - 1)
    } else {
        last_slash(p.drop_last())
    }
}

pub fn find_last_slash(p: &Vec<char>) -> (r: Option<usize>)
    ensures
        match last_slash(p@) {
            Some(k) => r matches Some(x) && x as int == k && 0 <= k < p@.len() && p@[k] == '/',
            None => r is None,
        },
{
    let mut k: usize = p.len();
    assert(p@.take(k as int) =~= p@);
    while k > 0
        invariant
            k <= p@.len(),
            last_slash(p@) == last_slash(p@.take(k as int)),
        decreases k,
    {
        assert(p@.take(k as int).drop_last() =~= p@.take(k - 1));
        if p[k - 1] == '/' {
            return Some(k - 1);
        }
        k -= 1;
    }
    None
}

/// The characters `p[from..to]`.
pub fn chars_between(p: &Vec<char>, from: usize, to: usize) -> (r: Vec<char>)
    requires
        from <= to <= p@.len(),
    ensures
        r@ == p@.subrange(from as int, to as int),
{
    let mut out: Vec<char> = Vec::new();
    let mut i: usize = from;
    while i < to
        invariant
            from <= i <= to <= p@.len(),
            out@ == p@.subrange(from as int, i as int),
        decreases to - i,
    {
        out.push(p[i]);
        i += 1;
        assert(out@ =~= p@.subrange(from as int, i as int));
    }
    out
}

/// The first member, from index `k` on, that a token names.
pub open spec fn token_position_from<N>(ms: Seq<JMember<N>>, token: Seq<char>, case_sensitive: bool, k: int) -> Option<int>
    decreases ms.len() - k,
{
    if k < 0 || k >= ms.len() {
        None
    } else if token_matches(ms[k].name, token, case_sensitive) {
        Some(k)
    } else {
        token_position_from(ms, token, case_sensitive, k + 1)
    }
}

/// The first member that a token names.
pub open spec fn token_position<N>(ms: Seq<JMember<N>>, token: Seq<char>, case_sensitive: bool) -> Option<int> {
    token_position_from(ms, token, case_sensitive, 0)
}

proof fn lemma_token_position_from_bounds<N>(ms: Seq<JMember<N>>, token: Seq<char>, case_sensitive: bool, k: int)
    ensures
        token_position_from(ms, token, case_sensitive, k) matches Some(i) ==> 0 <= k <= i < ms.len(),
    decreases ms.len() - k,
{
    if 0 <= k < ms.len() && !token_matches(ms[k].name, token, case_sensitive) {
        lemma_token_position_from_bounds(ms, token, case_sensitive, k + 1);
    }
}

/// Where a token leads inside `v`: an index into an array's elements or an
/// object's members.
pub open spec fn child_slot<N>(v: JValue<N>, token: Seq<char>, case_sensitive: bool) -> Option<int> {
    match v {
        JValue::Array(items) => match array_index(token) {
            Some(i) => if i < items.len() {
                Some(i)
            } else {
                None
            },
            None => None,
        },
        JValue::Object(ms) => token_position(ms, token, case_sensitive),
        _ => None,
    }
}

/// The child of a container at a slot.
pub open spec fn child_at<N>(v: JValue<N>, k: int) -> JValue<N> {
    match v {
        JValue::Array(items) => items[k],
        JValue::Object(ms) => ms[k].value,
        _ => v,
    }
}

/// A container with the child at a slot replaced.
pub open spec fn with_child<N>(v: JValue<N>, k: int, c: JValue<N>) -> JValue<N> {
    match v {
        JValue::Array(items) => JValue::Array(items.update(k, c)),
        JValue::Object(ms) => JValue::Object(ms.update(k, JMember { name: ms[k].name, value: c })),
        _ => v,
    }
}

/// Follows the tokens from `v`: an array index into an array, the first
/// member the token names in an object.
pub open spec fn resolve<N>(v: JValue<N>, tokens: Seq<Seq<char>>, case_sensitive: bool) -> Option<JValue<N>>
    decreases tokens.len(),
{
    if tokens.len() == 0 {
        Some(v)
    } else {
        match child_slot(v, tokens[0], case_sensitive) {
            Some(k) => resolve(child_at(v, k), tokens.drop_first(), case_sensitive),
            None => None,
        }
    }
}

/// The value a pointer designates in `v`, if any.
pub open spec fn value_at<N>(v: JValue<N>, pointer: Seq<char>, case_sensitive: bool) -> Option<JValue<N>> {
    resolve(v, pointer_tokens(pointer), case_sensitive)
}

/// The first member that `token` names.
pub fn find_token_member<N>(members: &Vec<Member<N>>, token: &Vec<char>, case_sensitive: bool) -> (r: Option<usize>)
    ensures
        match token_position(members_view(members@), token@, case_sensitive) {
            Some(i) => r matches Some(x) && x as int == i && i < members@.len(),
            None => r is None,
        },
{
    let ghost ms = members_view(members@);
    let mut i: usize = 0;
    while i < members.len()
        invariant
            i <= members@.len(),
            ms == members_view(members@),
            token_position(ms, token@, case_sensitive) == token_position_from(ms, token@, case_sensitive, i as int),
        decreases members@.len() - i,
    {
        let name = chars_of(members[i].name.as_str());
        assert(ms[i as int].name == members@[i as int].name@);
        if token_matches_name(&name, token, case_sensitive) {
            return Some(i);
        }
        i += 1;
    }
    None
}

/// Where `token` leads inside `v`.
pub fn slot_of<N>(v: &Value<N>, token: &Vec<char>, case_sensitive: bool) -> (r: Option<usize>)
    ensures
        match child_slot(v@, token@, case_sensitive) {
            Some(k) => r matches Some(x) && x as int == k && (v@ matches JValue::Array(items) ==> k < items.len())
                && (v@ matches JValue::Object(ms) ==> k < ms.len()),
            None => r is None,
        },
{
    match v {
        Value::Array(values) => {
            proof {
                lemma_array_view(*values);
            }
            let ghost items = items_view(values@);
            assert(v@ == JValue::Array(items));
            match decode_array_index(token) {
                Some(i) => if i < values.len() {
                    assert(child_slot(v@, token@, case_sensitive) == Some(i as int));
                    Some(i)
                } else {
                    assert(child_slot(v@, token@, case_sensitive) is None);
                    None
                },
                None => {
                    assert(child_slot(v@, token@, case_sensitive) is None);
                    None
                },
            }
        },
        Value::Object(members) => {
            proof {
                lemma_object_view(*members);
            }
            let r = find_token_member(members, token, case_sensitive);
            assert(v@ == JValue::Object(members_view(members@)));
            r
        },
        _ => None,
    }
}

/// The child of `v` at a slot that `slot_of` gave.
fn child_ref<N>(v: &Value<N>, k: usize) -> (r: &Value<N>)
    requires
        v@ matches JValue::Array(items) ==> k < items.len(),
        v@ matches JValue::Object(ms) ==> k < ms.len(),
        v@ is Array || v@ is Object,
    ensures
        r@ == child_at(v@, k as int),
{
    match v {
        Value::Array(values) => {
            proof {
                lemma_array_view(*values);
            }
            &values[k]
        },
        Value::Object(members) => {
            proof {
                lemma_object_view(*members);
            }
            &members[k].value
        },
        _ => v,
    }
}

/// Follows a JSON Pointer from `value` and returns what it designates.
/// `case_sensitive` decides how member
/// names are matched.
pub fn get_pointer<'a, N>(value: &'a Value<N>, pointer: &str, case_sensitive: bool) -> (r: Option<&'a Value<N>>)
    ensures
        match value_at(value@, pointer@, case_sensitive) {
            Some(v) => r matches Some(x) && x@ == v,
            None => r is None,
        },
{
    let pc = chars_of(pointer);
    let tokens = split_pointer(&pc);
    let ghost tv = tokens@.map_values(|t: Vec<char>| t@);
    let mut current = value;
    let mut i: usize = 0;
    assert(tv.skip(0) =~= tv);
    while i < tokens.len()
        invariant
            i <= tokens@.len(),
            tv == tokens@.map_values(|t: Vec<char>| t@),
            tv == pointer_tokens(pointer@),
            resolve(value@, tv, case_sensitive) == resolve(current@, tv.skip(i as int), case_sensitive),
        decreases tokens@.len() - i,
    {
        assert(tv.skip(i as int)[0] == tokens@[i as int]@);
        assert(tv.skip(i as int).drop_first() =~= tv.skip(i + 1));
        match slot_of(current, &tokens[i], case_sensitive) {
            None => {
                return None;
            },
            Some(k) => {
                current = child_ref(current, k);
            },
        }
        i += 1;
    }
    assert(tv.skip(i as int) =~= Seq::<Seq<char>>::empty());
    Some(current)
}

/// [`get_pointer`] with member names matched exactly.
pub fn get_pointer_case_sensitive<'a, N>(value: &'a Value<N>, pointer: &str) -> (r: Option<&'a Value<N>>)
    ensures
        match value_at(value@, pointer@, true) {
            Some(v) => r matches Some(x) && x@ == v,
            None => r is None,
        },
{
    get_pointer(value, pointer, true)
}


/// Whether two references designate one and the same value in memory.
///
/// Trusted: calls `std::ptr::eq`, which std documents as comparing the two
/// addresses. Two references to one place see one value, so a `true` answer
/// means the values are equal. Nothing is said of `false`: equal values may
/// live in different places, and where a value lives is up to the machine.
#[verifier::external_body]
fn same_place<N>(a: &Value<N>, b: &Value<N>) -> (r: bool)
    ensures
        r ==> a == b,
{
    std::ptr::eq(a, b)
}

/// The pointer text and the value reached by following `chain`, a list of
/// element or member positions, from `v` (`None` if a position is out of
/// range or the path enters a scalar).
pub open spec fn path_through<N>(v: JValue<N>, chain: Seq<int>) -> Option<(Seq<char>, JValue<N>)>
    decreases chain.len(),
{
    if chain.len() == 0 {
        Some((Seq::empty(), v))
    } else {
        let k = chain[0];
        match v {
            JValue::Array(items) => if 0 <= k < items.len() {
                match path_through(items[k], chain.drop_first()) {
                    Some(r) => Some((seq!['/'] + decimal(k as nat) + r.0, r.1)),
                    None => None,
                }
            } else {
                None
            },
            JValue::Object(ms) => if 0 <= k < ms.len() {
                match path_through(ms[k].value, chain.drop_first()) {
                    Some(r) => Some((seq!['/'] + encode_token(ms[k].name) + r.0, r.1)),
                    None => None,
                }
            } else {
                None
            },
            _ => None,
        }
    }
}

/// The value reached by following `chain`, a list of element or member
/// positions, from `v` (`None` if a position is out of range or the path
/// enters a scalar).
pub open spec fn node_at<N>(v: Value<N>, chain: Seq<int>) -> Option<Value<N>>
    decreases chain.len(),
{
    if chain.len() == 0 {
        Some(v)
    } else {
        let k = chain[0];
        match v {
            Value::Array(items) => if 0 <= k < items@.len() {
                node_at(items@[k], chain.drop_first())
            } else {
                None
            },
            Value::Object(ms) => if 0 <= k < ms@.len() {
                node_at(ms@[k].value, chain.drop_first())
            } else {
                None
            },
            _ => None,
        }
    }
}

/// `c` comes before `d` in a depth-first walk: a value before its children,
/// children in order (`c` is a proper prefix of `d`, or at the first place
/// where they differ `c` has the lower position).
pub open spec fn chain_before(c: Seq<int>, d: Seq<int>) -> bool
    decreases c.len(),
{
    if c.len() == 0 {
        d.len() > 0
    } else if d.len() == 0 {
        false
    } else if c[0] < d[0] {
        true
    } else if c[0] == d[0] {
        chain_before(c.drop_first(), d.drop_first())
    } else {
        false
    }
}

/// Where `chain` leads to a value inside `v`, `f` may answer `false` for it.
pub open spec fn rejected<N, F: Fn(&Value<N>) -> bool>(f: F, v: Value<N>, chain: Seq<int>) -> bool {
    node_at(v, chain) matches Some(m) ==> call_ensures(f, (&m,), false)
}

/// The depth-first walk: the chain of positions to the first value inside
/// `object` (the value itself, then each child's values in order) for which
/// `is_target` answers `true`, with the pointer text it spells; every value
/// visited before it was answered `false`. Where no value gets `true`, every
/// value was answered `false`.
#[verifier::loop_isolation(false)]
fn find_path<N, F: Fn(&Value<N>) -> bool>(object: &Value<N>, is_target: &F) -> (r: (Option<Vec<char>>, Ghost<Seq<int>>))
    requires
        forall|v: &Value<N>| call_requires(*is_target, (v,)),
    ensures
        match r.0 {
            Some(p) => {
                &&& node_at(*object, r.1@) matches Some(n)
                &&& call_ensures(*is_target, (&n,), true)
                &&& path_through(object@, r.1@) == Some((p@, n@))
                &&& forall|c: Seq<int>| chain_before(c, r.1@) ==> #[trigger] rejected(*is_target, *object, c)
            },
            None => forall|c: Seq<int>| #[trigger] rejected(*is_target, *object, c),
        },
    decreases object,
{
    if is_target(object) {
        proof {
            assert forall|c: Seq<int>| chain_before(c, Seq::<int>::empty()) implies #[trigger] rejected(*is_target, *object, c) by {}
        }
        return (Some(Vec::new()), Ghost(Seq::empty()));
    }
    assert(rejected(*is_target, *object, Seq::<int>::empty()));
    match object {
        Value::Array(values) => {
            proof {
                lemma_array_view(*values);
            }
            let mut i: usize = 0;
            while i < values.len()
                invariant
                    i <= values@.len(),
                    object@ == JValue::Array(items_view(values@)),
                    forall|c: Seq<int>| (c.len() == 0 || c[0] < i) ==> #[trigger] rejected(*is_target, *object, c),
                decreases values@.len() - i,
            {
                assert(decreases_to!(object => values@[i as int]));
                let (found, Ghost(chain)) = find_path(&values[i], is_target);
                match found {
                    Some(sub) => {
                        let mut p: Vec<char> = Vec::new();
                        p.push('/');
                        push_decimal(&mut p, i);
                        let ghost head = p@;
                        let mut k: usize = 0;
                        while k < sub.len()
                            invariant
                                k <= sub@.len(),
                                p@ == head + sub@.take(k as int),
                            decreases sub@.len() - k,
                        {
                            p.push(sub[k]);
                            k += 1;
                            assert(p@ =~= head + sub@.take(k as int));
                        }
                        let ghost whole = seq![i as int] + chain;
                        proof {
                            assert(sub@.take(sub@.len() as int) =~= sub@);
                            assert(whole.drop_first() =~= chain);
                            assert(whole[0] == i);
                            assert(items_view(values@)[i as int] == values@[i as int]@);
                            assert(p@ =~= seq!['/'] + decimal(i as nat) + sub@);
                            assert forall|c: Seq<int>| chain_before(c, whole) implies #[trigger] rejected(
                                *is_target,
                                *object,
                                c,
                            ) by {
                                if c.len() > 0 && c[0] == i {
                                    assert(chain_before(c.drop_first(), chain));
                                    assert(rejected(*is_target, values@[i as int], c.drop_first()));
                                }
                            }
                        }
                        return (Some(p), Ghost(whole));
                    },
                    None => {
                        proof {
                            assert forall|c: Seq<int>| (c.len() == 0 || c[0] < i + 1) implies #[trigger] rejected(
                                *is_target,
                                *object,
                                c,
                            ) by {
                                if c.len() > 0 && c[0] == i {
                                    assert(rejected(*is_target, values@[i as int], c.drop_first()));
                                }
                            }
                        }
                    },
                }
                i += 1;
            }
            proof {
                assert forall|c: Seq<int>| #[trigger] rejected(*is_target, *object, c) by {
                    if c.len() > 0 && c[0] >= values@.len() {
                        assert(node_at(*object, c) is None);
                    }
                }
            }
            (None, Ghost(Seq::empty()))
        },
        Value::Object(members) => {
            proof {
                lemma_object_view(*members);
            }
            let mut i: usize = 0;
            while i < members.len()
                invariant
                    i <= members@.len(),
                    object@ == JValue::Object(members_view(members@)),
                    forall|c: Seq<int>| (c.len() == 0 || c[0] < i) ==> #[trigger] rejected(*is_target, *object, c),
                decreases members@.len() - i,
            {
                assert(decreases_to!(object => members@[i as int].value));
                let (found, Ghost(chain)) = find_path(&members[i].value, is_target);
                match found {
                    Some(sub) => {
                        let mut p: Vec<char> = Vec::new();
                        p.push('/');
                        push_encoded_name(&mut p, members[i].name.as_str());
                        let ghost head = p@;
                        let mut k: usize = 0;
                        while k < sub.len()
                            invariant
                                k <= sub@.len(),
                                p@ == head + sub@.take(k as int),
                            decreases sub@.len() - k,
                        {
                            p.push(sub[k]);
                            k += 1;
                            assert(p@ =~= head + sub@.take(k as int));
                        }
                        let ghost whole = seq![i as int] + chain;
                        proof {
                            assert(sub@.take(sub@.len() as int) =~= sub@);
                            assert(whole.drop_first() =~= chain);
                            assert(whole[0] == i);
                            assert(members_view(members@)[i as int] == members@[i as int]@);
                            assert(p@ =~= seq!['/'] + encode_token(members@[i as int].name@) + sub@);
                            assert forall|c: Seq<int>| chain_before(c, whole) implies #[trigger] rejected(
                                *is_target,
                                *object,
                                c,
                            ) by {
                                if c.len() > 0 && c[0] == i {
                                    assert(chain_before(c.drop_first(), chain));
                                    assert(rejected(*is_target, members@[i as int].value, c.drop_first()));
                                }
                            }
                        }
                        return (Some(p), Ghost(whole));
                    },
                    None => {
                        proof {
                            assert forall|c: Seq<int>| (c.len() == 0 || c[0] < i + 1) implies #[trigger] rejected(
                                *is_target,
                                *object,
                                c,
                            ) by {
                                if c.len() > 0 && c[0] == i {
                                    assert(rejected(*is_target, members@[i as int].value, c.drop_first()));
                                }
                            }
                        }
                    },
                }
                i += 1;
            }
            proof {
                assert forall|c: Seq<int>| #[trigger] rejected(*is_target, *object, c) by {
                    if c.len() > 0 && c[0] >= members@.len() {
                        assert(node_at(*object, c) is None);
                    }
                }
            }
            (None, Ghost(Seq::empty()))
        },
        _ => {
            proof {
                assert forall|c: Seq<int>| #[trigger] rejected(*is_target, *object, c) by {
                    if c.len() > 0 {
                        assert(node_at(*object, c) is None);
                    }
                }
            }
            (None, Ghost(Seq::empty()))
        },
    }
}

/// The pointer from `object` to the value `target` designates, found by a
/// depth-first walk that compares addresses. A pointer that comes back
/// leads, through array positions (in decimal) and member names (escaped),
/// to a value equal to `target`.
pub fn find_pointer_from_object_to<N>(object: &Value<N>, target: &Value<N>) -> (r: Option<String>)
    ensures
        r matches Some(p) ==> exists|chain: Seq<int>| path_through(object@, chain) == Some((p@, target@)),
{
    let is_target = |v: &Value<N>| -> (b: bool)
        ensures
            b ==> *v == *target,
        { same_place(v, target) };
    let (found, Ghost(chain)) = find_path(object, &is_target);
    match found {
        Some(p) => {
            let text = string_from_chars(&p);
            assert(path_through(object@, chain) == Some((text@, target@)));
            Some(text)
        },
        None => None,
    }
}


proof fn lemma_lowered_cons(a: Seq<char>, b: Seq<char>)
    requires
        a.len() > 0,
        b.len() > 0,
    ensures
        (lowered(a) == lowered(b)) == (lower(a[0]) == lower(b[0]) && lowered(a.drop_first()) == lowered(b.drop_first())),
{
    assert(lowered(a).drop_first() =~= lowered(a.drop_first()));
    assert(lowered(b).drop_first() =~= lowered(b.drop_first()));
    if lower(a[0]) == lower(b[0]) && lowered(a.drop_first()) == lowered(b.drop_first()) {
        assert(a.len() == b.len());
        assert forall|i: int| 0 <= i < a.len() implies lowered(a)[i] == lowered(b)[i] by {
            if i > 0 {
                assert(lowered(a)[i] == lowered(a.drop_first())[i - 1]);
                assert(lowered(b)[i] == lowered(b.drop_first())[i - 1]);
            }
        }
        assert(lowered(a) =~= lowered(b));
    }
    if lowered(a) == lowered(b) {
        assert(lowered(a)[0] == lowered(b)[0]);
    }
}

/// A token made by escaping `s` names exactly the members whose names match
/// `s`.
pub proof fn lemma_token_matches_encoded(m: Seq<char>, s: Seq<char>, case_sensitive: bool)
    ensures
        token_matches(m, encode_token(s), case_sensitive) == names_match(m, s, case_sensitive),
    decreases s.len(),
{
    let e = encode_token(s);
    if s.len() == 0 {
        if m.len() != 0 {
            assert(lowered(m).len() != lowered(s).len());
        } else {
            assert(m =~= s);
            assert(lowered(m) =~= lowered(s));
        }
    } else if m.len() == 0 {
        assert(lowered(m).len() != lowered(s).len());
        assert(m != s);
    } else {
        let rest = encode_token(s.drop_first());
        lemma_token_matches_encoded(m.drop_first(), s.drop_first(), case_sensitive);
        lemma_lowered_cons(m, s);
        assert(e == escaped_name_char(s[0]) + rest);
        if s[0] == '/' || s[0] == '~' {
            assert(e.skip(2) =~= rest);
        } else {
            assert(e.drop_first() =~= rest);
        }
        if m[0] == s[0] && m.drop_first() == s.drop_first() {
            assert forall|i: int| 0 <= i < m.len() implies m[i] == s[i] by {
                if i > 0 {
                    assert(m[i] == m.drop_first()[i - 1]);
                    assert(s[i] == s.drop_first()[i - 1]);
                }
            }
            assert(m =~= s);
        }
        if m == s {
            assert(m.drop_first() =~= s.drop_first());
        }
    }
}

/// An escaped name holds no `/`.
pub proof fn lemma_encode_token_no_slash(s: Seq<char>)
    ensures
        forall|i: int| 0 <= i < encode_token(s).len() ==> encode_token(s)[i] != '/',
    decreases s.len(),
{
    if s.len() > 0 {
        lemma_encode_token_no_slash(s.drop_first());
        let e = encode_token(s);
        let rest = encode_token(s.drop_first());
        let head = escaped_name_char(s[0]);
        assert(e == head + rest);
        assert forall|i: int| 0 <= i < e.len() implies e[i] != '/' by {
            if i >= head.len() {
                assert(e[i] == rest[i - head.len()]);
            }
        }
    }
}

/// Appending `/` and a slash-free token to a pointer appends one segment.
pub proof fn lemma_split_slash_append(p: Seq<char>, t: Seq<char>)
    requires
        forall|i: int| 0 <= i < t.len() ==> t[i] != '/',
    ensures
        split_slash(p.push('/') + t) == split_slash(p).push(t),
        last_slash(p.push('/') + t) == Some(p.len() as int),
    decreases t.len(),
{
    if t.len() == 0 {
        assert(p.push('/') + t =~= p.push('/'));
        assert(p.push('/').drop_last() =~= p);
        assert(t =~= Seq::<char>::empty());
    } else {
        let u = t.drop_last();
        let c = t.last();
        lemma_split_slash_append(p, u);
        assert(c != '/');
        assert(u.push(c) =~= t);
        let x = p.push('/') + u;
        assert(p.push('/') + t =~= x.push(c));
        assert(x.push(c).drop_last() =~= x);
        let init = split_slash(x);
        assert(init == split_slash(p).push(u));
        assert(init.last() == u);
        assert(split_slash(x.push(c)) == init.update(init.len() - 1, init.last().push(c)));
        assert(init.update(init.len() - 1, u.push(c)) =~= split_slash(p).push(t));
    }
}

/// The tokens of `p/t` are those of `p` and then `t`.
pub proof fn lemma_pointer_tokens_append(p: Seq<char>, t: Seq<char>)
    requires
        forall|i: int| 0 <= i < t.len() ==> t[i] != '/',
    ensures
        pointer_tokens(p.push('/') + t) == pointer_tokens(p).push(t),
        last_slash(p.push('/') + t) == Some(p.len() as int),
        (p.push('/') + t).take(p.len() as int) == p,
        (p.push('/') + t).skip(p.len() as int + 1) == t,
{
    lemma_split_slash_append(p, t);
    lemma_split_slash_len(p);
    assert(split_slash(p).push(t).drop_first() =~= split_slash(p).drop_first().push(t));
    assert((p.push('/') + t).take(p.len() as int) =~= p);
    assert((p.push('/') + t).skip(p.len() as int + 1) =~= t);
}

/// Following one more token continues from where the others lead.
pub proof fn lemma_resolve_push<N>(v: JValue<N>, tokens: Seq<Seq<char>>, t: Seq<char>, case_sensitive: bool)
    ensures
        resolve(v, tokens.push(t), case_sensitive) == match resolve(v, tokens, case_sensitive) {
            Some(x) => resolve(x, seq![t], case_sensitive),
            None => None,
        },
    decreases tokens.len(),
{
    if tokens.len() == 0 {
        assert(tokens.push(t) =~= seq![t]);
    } else {
        assert(tokens.push(t)[0] == tokens[0]);
        assert(tokens.push(t).drop_first() =~= tokens.drop_first().push(t));
        match child_slot(v, tokens[0], case_sensitive) {
            Some(k) => {
                lemma_resolve_push(child_at(v, k), tokens.drop_first(), t, case_sensitive);
            },
            None => {},
        }
    }
}

proof fn lemma_token_position_same_names<N>(ms: Seq<JMember<N>>, ns: Seq<JMember<N>>, t: Seq<char>, case_sensitive: bool, k: int)
    requires
        ms.len() == ns.len(),
        forall|i: int| 0 <= i < ms.len() ==> #[trigger] ms[i].name == ns[i].name,
    ensures
        token_position_from(ms, t, case_sensitive, k) == token_position_from(ns, t, case_sensitive, k),
    decreases ms.len() - k,
{
    if 0 <= k < ms.len() {
        assert(ms[k].name == ns[k].name);
        lemma_token_position_same_names(ms, ns, t, case_sensitive, k + 1);
    }
}

/// Replacing a child keeps every slot where it was.
pub proof fn lemma_with_child_slots<N>(v: JValue<N>, k: int, c: JValue<N>, t: Seq<char>, case_sensitive: bool)
    requires
        v matches JValue::Array(items) ==> 0 <= k < items.len(),
        v matches JValue::Object(ms) ==> 0 <= k < ms.len(),
    ensures
        child_slot(with_child(v, k, c), t, case_sensitive) == child_slot(v, t, case_sensitive),
        (v is Array || v is Object) ==> child_at(with_child(v, k, c), k) == c,
{
    match v {
        JValue::Object(ms) => {
            let ns = ms.update(k, JMember { name: ms[k].name, value: c });
            lemma_token_position_same_names(ms, ns, t, case_sensitive, 0);
        },
        _ => {},
    }
}

/// The first member from `k` on that `t` names, described by its
/// properties.
pub proof fn lemma_token_position_from<N>(ms: Seq<JMember<N>>, t: Seq<char>, case_sensitive: bool, k: int)
    requires
        0 <= k,
    ensures
        match token_position_from(ms, t, case_sensitive, k) {
            Some(i) => k <= i < ms.len() && token_matches(ms[i].name, t, case_sensitive) && forall|j: int|
                k <= j < i ==> !token_matches(#[trigger] ms[j].name, t, case_sensitive),
            None => forall|j: int| k <= j < ms.len() ==> !token_matches(#[trigger] ms[j].name, t, case_sensitive),
        },
    decreases ms.len() - k,
{
    if k < ms.len() && !token_matches(ms[k].name, t, case_sensitive) {
        lemma_token_position_from(ms, t, case_sensitive, k + 1);
    }
}

/// The member an escaped name leads to is the first member of that name.
pub proof fn lemma_token_position_encoded<N>(ms: Seq<JMember<N>>, name: Seq<char>, case_sensitive: bool)
    ensures
        token_position(ms, encode_token(name), case_sensitive) == first_match(ms, name, case_sensitive),
{
    let t = encode_token(name);
    lemma_token_position_from(ms, t, case_sensitive, 0);
    lemma_first_match(ms, name, case_sensitive);
    assert forall|j: int| 0 <= j < ms.len() implies token_matches(#[trigger] ms[j].name, t, case_sensitive) == names_match(
        ms[j].name,
        name,
        case_sensitive,
    ) by {
        lemma_token_matches_encoded(ms[j].name, name, case_sensitive);
    }
    match token_position(ms, t, case_sensitive) {
        Some(i) => {
            match first_match(ms, name, case_sensitive) {
                Some(f) => {
                    if f < i {
                        assert(!token_matches(ms[f].name, t, case_sensitive));
                    } else if i < f {
                        assert(!names_match(ms[i].name, name, case_sensitive));
                    }
                },
                None => {
                    assert(!names_match(ms[i].name, name, case_sensitive));
                },
            }
        },
        None => {
            match first_match(ms, name, case_sensitive) {
                Some(f) => {
                    assert(!token_matches(ms[f].name, t, case_sensitive));
                },
                None => {},
            }
        },
    }
}


proof fn lemma_hex_decimal_digit(d: u32)
    requires
        d < 10,
    ensures
        is_digit(hex_lower(d)),
        hex_lower(d) as int - '0' as int == d,
        hex_lower(d) == '0' <==> d == 0,
{
}

/// The decimal digits of a number: digits only, no leading zero, and
/// spelling the number.
pub proof fn lemma_decimal_digits(i: nat)
    ensures
        decimal(i).len() >= 1,
        forall|k: int| 0 <= k < decimal(i).len() ==> is_digit(#[trigger] decimal(i)[k]),
        digits_value(decimal(i)) == i,
        decimal(i)[0] == '0' ==> i == 0 && decimal(i).len() == 1,
    decreases i,
{
    if i < 10 {
        lemma_hex_decimal_digit(i as u32);
        assert(decimal(i).drop_last() =~= Seq::<char>::empty());
        assert(digits_value(Seq::<char>::empty()) == 0);
        assert(digits_value(decimal(i)) == digits_value(decimal(i).drop_last()) * 10 + (decimal(i).last() as int
            - '0' as int));
    } else {
        let q = i / 10;
        let r = i % 10;
        lemma_decimal_digits(q);
        lemma_hex_decimal_digit(r as u32);
        let d = decimal(i);
        assert(d == decimal(q).push(hex_lower(r as u32)));
        assert(d.drop_last() =~= decimal(q));
        assert(d[0] == decimal(q)[0]);
        vstd::arithmetic::div_mod::lemma_fundamental_div_mod(i as int, 10);
        assert(digits_value(d) == digits_value(d.drop_last()) * 10 + (d.last() as int - '0' as int));
        assert(d.last() == hex_lower(r as u32));
        assert(digits_value(d) == q * 10 + r);
        assert forall|k: int| 0 <= k < d.len() implies is_digit(#[trigger] d[k]) by {
            if k < d.len() - 1 {
                assert(d[k] == decimal(q)[k]);
            }
        }
    }
}

/// A number written in decimal reads back as that array index.
pub proof fn lemma_decimal_index(i: nat)
    requires
        i <= usize::MAX,
    ensures
        array_index(decimal(i)) == Some(i as int),
        forall|k: int| 0 <= k < decimal(i).len() ==> #[trigger] decimal(i)[k] != '/' && decimal(i)[k] != '~',
        decimal(i) != seq!['-'],
        decode_token(decimal(i)) == decimal(i),
{
    lemma_decimal_digits(i);
    let d = decimal(i);
    assert forall|k: int| 0 <= k < d.len() implies #[trigger] d[k] != '/' && d[k] != '~' by {
        assert(is_digit(d[k]));
    }
    assert(is_digit(d[0]));
    lemma_decode_plain(d);
}

/// Decoding leaves a token without `~` as it is.
pub proof fn lemma_decode_plain(t: Seq<char>)
    requires
        forall|k: int| 0 <= k < t.len() ==> #[trigger] t[k] != '~',
    ensures
        decode_token(t) == t,
    decreases t.len(),
{
    if t.len() > 0 {
        assert forall|k: int| 0 <= k < t.drop_first().len() implies #[trigger] t.drop_first()[k] != '~' by {
            assert(t.drop_first()[k] == t[k + 1]);
        }
        lemma_decode_plain(t.drop_first());
        assert(seq![t[0]] + t.drop_first() =~= t);
    }
}


/// An array index is never negative.
pub proof fn lemma_array_index_nonneg(t: Seq<char>)
    ensures
        array_index(t) matches Some(i) ==> 0 <= i,
{
    if array_index(t) is Some {
        lemma_digits_value_grows(t, 0);
        assert(t.take(0) =~= Seq::<char>::empty());
    }
}


/// Following a single token.
pub proof fn lemma_resolve_one<N>(v: JValue<N>, t: Seq<char>, case_sensitive: bool)
    ensures
        resolve(v, seq![t], case_sensitive) == match child_slot(v, t, case_sensitive) {
            Some(k) => Some(child_at(v, k)),
            None => None,
        },
{
    assert(seq![t][0] == t);
    assert(seq![t].drop_first() =~= Seq::<Seq<char>>::empty());
    match child_slot(v, t, case_sensitive) {
        Some(k) => {
            assert(resolve(child_at(v, k), Seq::<Seq<char>>::empty(), case_sensitive) == Some(child_at(v, k)));
        },
        None => {},
    }
}

/// Text that starts with `/` splits into at least two segments.
proof fn lemma_split_slash_rooted(r: Seq<char>)
    requires
        r.len() > 0,
        r[0] == '/',
    ensures
        split_slash(r).len() >= 2,
        split_slash(r)[0] == Seq::<char>::empty(),
    decreases r.len(),
{
    let init = r.drop_last();
    if init.len() == 0 {
        assert(r =~= seq!['/']);
        assert(split_slash(init) == seq![Seq::<char>::empty()]);
    } else {
        assert(init[0] == r[0]);
        lemma_split_slash_rooted(init);
    }
}

/// The tokens of `/t` followed by a pointer `r` are `t` and then those of
/// `r`.
pub proof fn lemma_pointer_tokens_prepend(t: Seq<char>, r: Seq<char>)
    requires
        forall|i: int| 0 <= i < t.len() ==> t[i] != '/',
        r.len() == 0 || r[0] == '/',
    ensures
        split_slash(seq!['/'] + t + r) == seq![Seq::<char>::empty(), t] + pointer_tokens(r),
        pointer_tokens(seq!['/'] + t + r) == seq![t] + pointer_tokens(r),
    decreases r.len(),
{
    let a = seq!['/'] + t;
    assert(Seq::<char>::empty().push('/') + t =~= a);
    lemma_split_slash_append(Seq::<char>::empty(), t);
    assert(split_slash(Seq::<char>::empty()) == seq![Seq::<char>::empty()]);
    assert(split_slash(a) =~= seq![Seq::<char>::empty(), t]);
    if r.len() == 0 {
        assert(a + r =~= a);
        assert(pointer_tokens(r) =~= Seq::<Seq<char>>::empty());
        assert(seq![Seq::<char>::empty(), t] + pointer_tokens(r) =~= seq![Seq::<char>::empty(), t]);
    } else {
        let r1 = r.drop_last();
        let c = r.last();
        if r1.len() > 0 {
            assert(r1[0] == r[0]);
        }
        lemma_pointer_tokens_prepend(t, r1);
        assert(a + r =~= (a + r1).push(c));
        assert((a + r1).push(c).drop_last() =~= a + r1);
        let s1 = split_slash(a + r1);
        let p1 = pointer_tokens(r1);
        let sr1 = split_slash(r1);
        lemma_split_slash_len(r1);
        assert(r1.push(c) =~= r);
        assert(r.drop_last() =~= r1);
        if c == '/' {
            assert(split_slash(r) == sr1.push(Seq::<char>::empty()));
            assert(pointer_tokens(r) =~= p1.push(Seq::<char>::empty()));
            assert(s1.push(Seq::<char>::empty()) =~= seq![Seq::<char>::empty(), t] + pointer_tokens(r));
        } else {
            assert(r1.len() > 0);
            lemma_split_slash_rooted(r1);
            assert(split_slash(r) == sr1.update(sr1.len() - 1, sr1.last().push(c)));
            assert(pointer_tokens(r) =~= p1.update(p1.len() - 1, p1.last().push(c)));
            assert(s1.update(s1.len() - 1, s1.last().push(c)) =~= seq![Seq::<char>::empty(), t] + pointer_tokens(r));
        }
    }
    assert((seq![Seq::<char>::empty(), t] + pointer_tokens(r)).drop_first() =~= seq![t] + pointer_tokens(r));
}

/// Along `chain`, every member passed is the first one whose name matches
/// its own.
pub open spec fn first_members_along<N>(v: JValue<N>, chain: Seq<int>, case_sensitive: bool) -> bool
    decreases chain.len(),
{
    if chain.len() == 0 {
        true
    } else {
        let k = chain[0];
        match v {
            JValue::Array(items) => 0 <= k < items.len() && first_members_along(items[k], chain.drop_first(), case_sensitive),
            JValue::Object(ms) => {
                &&& 0 <= k < ms.len()
                &&& first_match(ms, ms[k].name, case_sensitive) == Some(k)
                &&& first_members_along(ms[k].value, chain.drop_first(), case_sensitive)
            },
            _ => false,
        }
    }
}

/// A pointer found to a value leads to it: following `chain` (the positions
/// `find_pointer_from_object_to` passes to reach the value it is given)
/// writes out a pointer that `get_pointer` resolves to the value reached,
/// provided no member passed on the way comes after another whose name
/// matches its own (as `get_pointer` matches names).
pub proof fn law_found_pointer_reaches_target<N>(object: Value<N>, chain: Seq<int>, case_sensitive: bool)
    requires
        first_members_along(object@, chain, case_sensitive),
    ensures
        path_through(object@, chain) matches Some(r) && value_at(object@, r.0, case_sensitive) == Some(r.1),
    decreases chain.len(),
{
    let cs = case_sensitive;
    if chain.len() == 0 {
        assert(split_slash(Seq::<char>::empty()) == seq![Seq::<char>::empty()]);
        assert(pointer_tokens(Seq::<char>::empty()) =~= Seq::<Seq<char>>::empty());
    } else {
        let k = chain[0];
        let rest = chain.drop_first();
        match object {
            Value::Array(items) => {
                lemma_array_view(items);
                assert(items@.len() == items.len());
                let xs = items_view(items@);
                assert(xs[k] == items@[k]@);
                law_found_pointer_reaches_target(items@[k], rest, cs);
                let r = path_through(xs[k], rest)->0;
                let t = decimal(k as nat);
                lemma_decimal_index(k as nat);
                assert(r.0.len() == 0 || r.0[0] == '/');
                lemma_pointer_tokens_prepend(t, r.0);
                let toks = seq![t] + pointer_tokens(r.0);
                assert(toks[0] == t);
                assert(toks.drop_first() =~= pointer_tokens(r.0));
                assert(seq!['/'] + t + r.0 == seq!['/'] + decimal(k as nat) + r.0);
            },
            Value::Object(ms) => {
                lemma_object_view(ms);
                let xs = members_view(ms@);
                assert(xs[k] == ms@[k]@);
                law_found_pointer_reaches_target(ms@[k].value, rest, cs);
                let r = path_through(xs[k].value, rest)->0;
                let t = encode_token(xs[k].name);
                lemma_encode_token_no_slash(xs[k].name);
                lemma_token_position_encoded(xs, xs[k].name, cs);
                assert(r.0.len() == 0 || r.0[0] == '/');
                lemma_pointer_tokens_prepend(t, r.0);
                let toks = seq![t] + pointer_tokens(r.0);
                assert(toks[0] == t);
                assert(toks.drop_first() =~= pointer_tokens(r.0));
            },
            _ => {},
        }
    }
}

} // verus!
