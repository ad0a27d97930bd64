//! How values are written in JSON: the text of every kind of value, built from the texts of its parts, is read as that
//! value, whatever stands around it.
use crate::gpu::json::{
    escape, is_numeric, is_space, items_at, members_at, number_end, rest_of_string, skip, string_at, text_value, value_at, JsonError, Reading,
    Value,
};
use vstd::prelude::*;
use vstd::utf8::{encode_utf8, encode_utf8_decode_utf8, encode_utf8_valid_utf8};

verus! {

/// A text may follow one that ends with a number.
pub open spec fn ends_numbers(post: Seq<u8>) -> bool {
    post.len() > 0 ==> !is_numeric(post[0])
}

/// Read where `t` begins in the text `pre`, `t`, `post`, the value is `v` and ends where `t` ends.
pub open spec fn read_as(pre: Seq<u8>, t: Seq<u8>, post: Seq<u8>, v: Value, nums: Reading) -> bool {
    value_at(pre + t + post, pre.len() as int, nums) == Ok::<(Value, int), JsonError>((v, (pre.len() + t.len()) as int))
}

/// `t` is a text of `v`: it is read as `v`, whatever stands in front of it, and whatever stands behind it that could not
/// go on with a number.
pub open spec fn writes(t: Seq<u8>, v: Value, nums: Reading) -> bool {
    &&& t.len() > 0
    &&& forall|pre: Seq<u8>, post: Seq<u8>| ends_numbers(post) ==> #[trigger] read_as(pre, t, post, v, nums)
}

/// Blanks, tabs, line feeds, form feeds and carriage returns.
pub open spec fn blank(w: Seq<u8>) -> bool {
    forall|i: int| 0 <= i < w.len() ==> #[trigger] w[i] == 32 || w[i] == 9 || w[i] == 10 || w[i] == 12 || w[i] == 13
}

proof fn lemma_skip_blank(pre: Seq<u8>, w: Seq<u8>, post: Seq<u8>)
    requires
        blank(w),
        post.len() > 0 ==> !is_space(post[0]),
    ensures
        skip(pre + w + post, pre.len() as int) == pre.len() + w.len(),
    decreases w.len(),
{
    let s = pre + w + post;
    if w.len() == 0 {
        assert(s =~= pre + post);
        if post.len() > 0 {
            assert(s[pre.len() as int] == post[0]);
        }
    } else {
        assert(s[pre.len() as int] == w[0]);
        let rest = w.drop_first();
        assert forall|i: int| 0 <= i < rest.len() implies #[trigger] rest[i] == 32 || rest[i] == 9 || rest[i] == 10 || rest[i] == 12 || rest[i] == 13 by {
            assert(rest[i] == w[i + 1]);
        }
        lemma_skip_blank(pre.push(w[0]), rest, post);
        assert(pre.push(w[0]) + rest + post =~= s);
    }
}

/// Blanks in front of a text change nothing.
pub proof fn law_blanks_change_nothing(w: Seq<u8>, t: Seq<u8>, v: Value, nums: Reading)
    requires
        blank(w),
        writes(t, v, nums),
        !is_space(t[0]),
    ensures
        writes(w + t, v, nums),
{
    assert forall|pre: Seq<u8>, post: Seq<u8>| ends_numbers(post) implies #[trigger] read_as(pre, w + t, post, v, nums) by {
        let s = pre + (w + t) + post;
        assert(read_as(pre + w, t, post, v, nums));
        assert(s =~= (pre + w) + t + post);
        assert(s =~= pre + w + (t + post));
        assert((t + post)[0] == t[0]);
        lemma_skip_blank(pre, w, t + post);
        let i = (pre.len() + w.len()) as int;
        assert(s[i] == t[0]);
        assert(skip(s, i) == i);
        assert(value_at(s, pre.len() as int, nums) == value_at(s, i, nums));
    }
}

proof fn lemma_here(pre: Seq<u8>, t: Seq<u8>, post: Seq<u8>)
    requires
        t.len() > 0,
        !is_space(t[0]),
    ensures
        skip(pre + t + post, pre.len() as int) == pre.len(),
        (pre + t + post)[pre.len() as int] == t[0],
        (pre + t + post).subrange(pre.len() as int, (pre.len() + t.len()) as int) == t,
{
    assert((pre + t + post).subrange(pre.len() as int, (pre.len() + t.len()) as int) =~= t);
}

/// The three words.
pub proof fn law_words_are_read(nums: Reading)
    ensures
        writes(seq![0x6Eu8, 0x75, 0x6C, 0x6C], Value::Null, nums),
        writes(seq![0x74u8, 0x72, 0x75, 0x65], Value::Bool(true), nums),
        writes(seq![0x66u8, 0x61, 0x6C, 0x73, 0x65], Value::Bool(false), nums),
{
    let (n, t, f) = (seq![0x6Eu8, 0x75, 0x6C, 0x6C], seq![0x74u8, 0x72, 0x75, 0x65], seq![0x66u8, 0x61, 0x6C, 0x73, 0x65]);
    assert forall|pre: Seq<u8>, post: Seq<u8>| ends_numbers(post) implies #[trigger] read_as(pre, t, post, Value::Bool(true), nums) by {
        lemma_here(pre, t, post);
    }
    assert forall|pre: Seq<u8>, post: Seq<u8>| ends_numbers(post) implies #[trigger] read_as(pre, f, post, Value::Bool(false), nums) by {
        lemma_here(pre, f, post);
        let s = pre + f + post;
        let i = pre.len() as int;
        assert(s.subrange(i, i + 4)[0] == 0x66);
    }
    assert forall|pre: Seq<u8>, post: Seq<u8>| ends_numbers(post) implies #[trigger] read_as(pre, n, post, Value::Null, nums) by {
        lemma_here(pre, n, post);
        let s = pre + n + post;
        let i = pre.len() as int;
        assert(s.subrange(i, i + 4)[0] == 0x6E);
        if i + 5 <= s.len() {
            assert(s.subrange(i, i + 5)[0] == 0x6E);
        }
    }
}

proof fn lemma_number_end(pre: Seq<u8>, t: Seq<u8>, post: Seq<u8>)
    requires
        forall|i: int| 0 <= i < t.len() ==> is_numeric(#[trigger] t[i]),
        ends_numbers(post),
    ensures
        number_end(pre + t + post, pre.len() as int) == pre.len() + t.len(),
    decreases t.len(),
{
    let s = pre + t + post;
    if t.len() == 0 {
        if post.len() > 0 {
            assert(s[pre.len() as int] == post[0]);
        }
    } else {
        assert(s[pre.len() as int] == t[0]);
        let rest = t.drop_first();
        assert forall|i: int| 0 <= i < rest.len() implies is_numeric(#[trigger] rest[i]) by {
            assert(rest[i] == t[i + 1]);
        }
        lemma_number_end(pre.push(t[0]), rest, post);
        assert(pre.push(t[0]) + rest + post =~= s);
    }
}

/// A number is its whole text, of digits, signs, points and exponents, that begins with a digit or a minus and that the
/// reader of numbers takes.
pub proof fn law_numbers_are_read(t: Seq<u8>, n: Option<u64>, nums: Reading)
    requires
        t.len() > 0,
        t[0] == 0x2D || 0x30 <= t[0] <= 0x39,
        forall|i: int| 0 <= i < t.len() ==> 0x30 <= #[trigger] t[i] <= 0x39 || t[i] == 0x2D || t[i] == 0x2B || t[i] == 0x2E || t[i] == 0x65 || t[i] == 0x45,
        nums(t) == Some(n),
    ensures
        writes(t, Value::Num(t, n), nums),
{
    assert forall|pre: Seq<u8>, post: Seq<u8>| ends_numbers(post) implies #[trigger] read_as(pre, t, post, Value::Num(t, n), nums) by {
        lemma_here(pre, t, post);
        lemma_number_end(pre, t, post);
        let s = pre + t + post;
        let i = pre.len() as int;
        if i + 4 <= s.len() {
            assert(s.subrange(i, i + 4)[0] == t[0]);
        }
        if i + 5 <= s.len() {
            assert(s.subrange(i, i + 5)[0] == t[0]);
        }
    }
}

/// Bytes as they stand within quotes: a backslash in front of quotes and backslashes, all others as they are.
pub open spec fn escaped(b: Seq<u8>) -> Seq<u8>
    decreases b.len(),
{
    if b.len() == 0 {
        Seq::empty()
    } else if b[0] == 0x22 || b[0] == 0x5C {
        seq![0x5Cu8, b[0]] + escaped(b.drop_first())
    } else {
        seq![b[0]] + escaped(b.drop_first())
    }
}

/// A text in quotes.
pub open spec fn quoted(text: Seq<char>) -> Seq<u8> {
    seq![0x22u8] + escaped(encode_utf8(text)) + seq![0x22u8]
}

proof fn lemma_rest(pre: Seq<u8>, b: Seq<u8>, post: Seq<u8>, out: Seq<u8>)
    ensures
        rest_of_string(pre + escaped(b) + seq![0x22u8] + post, pre.len() as int, out) == Ok::<(Seq<u8>, int), JsonError>(
            (out + b, (pre.len() + escaped(b).len() + 1) as int),
        ),
    decreases b.len(),
{
    let s = pre + escaped(b) + seq![0x22u8] + post;
    let i = pre.len() as int;
    if b.len() == 0 {
        assert(s[i] == 0x22);
        assert(out + b =~= out);
    } else {
        let rest = b.drop_first();
        let x = b[0];
        assert(out.push(x) + rest =~= out + b);
        if x == 0x22 || x == 0x5C {
            let head = pre + seq![0x5Cu8, x];
            lemma_rest(head, rest, post, out.push(x));
            assert(head + escaped(rest) + seq![0x22u8] + post =~= s);
            assert(s[i] == 0x5C && s[i + 1] == x);
        } else {
            let head = pre + seq![x];
            lemma_rest(head, rest, post, out.push(x));
            assert(head + escaped(rest) + seq![0x22u8] + post =~= s);
            assert(s[i] == x);
        }
    }
}

proof fn lemma_string(pre: Seq<u8>, text: Seq<char>, post: Seq<u8>)
    ensures
        string_at(pre + quoted(text) + post, pre.len() as int) == Ok::<(Seq<char>, int), JsonError>(
            (text, (pre.len() + quoted(text).len()) as int),
        ),
{
    let b = encode_utf8(text);
    let s = pre + quoted(text) + post;
    lemma_rest(pre.push(0x22), b, post, Seq::empty());
    assert(pre.push(0x22) + escaped(b) + seq![0x22u8] + post =~= s);
    assert(s[pre.len() as int] == 0x22);
    assert(Seq::<u8>::empty() + b =~= b);
    encode_utf8_valid_utf8(text);
    encode_utf8_decode_utf8(text);
}

/// A text in quotes is read as itself.
pub proof fn law_strings_are_read(text: Seq<char>, nums: Reading)
    ensures
        writes(quoted(text), Value::Str(text), nums),
{
    let t = quoted(text);
    assert(t[0] == 0x22);
    assert forall|pre: Seq<u8>, post: Seq<u8>| ends_numbers(post) implies #[trigger] read_as(pre, t, post, Value::Str(text), nums) by {
        lemma_here(pre, t, post);
        lemma_string(pre, text, post);
    }
}

/// Behind a backslash the quote, the slash and the backslash stand for themselves, and five letters for the control
/// characters of backspace, form feed, line feed, carriage return and tab.
pub proof fn law_escapes_stand_for_controls(e: u8, c: u8)
    ensures
        escape(e) == Some(c) <==> {
            ||| e == c && (c == 0x22 || c == 0x2F || c == 0x5C)
            ||| e == 0x62 && c == 8
            ||| e == 0x66 && c == 12
            ||| e == 0x6E && c == 10
            ||| e == 0x72 && c == 13
            ||| e == 0x74 && c == 9
        },
{
}

/// The items from item `k` on, with blanks `w` behind each, and the closing bracket.
pub open spec fn listed(ts: Seq<Seq<u8>>, w: Seq<u8>, k: int) -> Seq<u8>
    decreases ts.len() - k,
{
    if k >= ts.len() - 1 {
        ts[k] + w + seq![0x5Du8]
    } else {
        ts[k] + w + seq![0x2Cu8] + listed(ts, w, k + 1)
    }
}

proof fn lemma_blank_ends_numbers(w: Seq<u8>, c: u8, rest: Seq<u8>)
    requires
        blank(w),
        !is_numeric(c),
    ensures
        ends_numbers(w + seq![c] + rest),
{
    let p = w + seq![c] + rest;
    if w.len() > 0 {
        assert(p[0] == w[0]);
    } else {
        assert(p[0] == c);
    }
}

/// A value's text, then blanks and the byte `c`.
proof fn lemma_value_then(pre: Seq<u8>, t: Seq<u8>, v: Value, w: Seq<u8>, c: u8, rest: Seq<u8>, nums: Reading)
    requires
        writes(t, v, nums),
        blank(w),
        !is_numeric(c),
        !is_space(c),
    ensures
        ({
            let s = pre + (t + w + seq![c] + rest);
            let e = (pre.len() + t.len()) as int;
            &&& value_at(s, pre.len() as int, nums) == Ok::<(Value, int), JsonError>((v, e))
            &&& skip(s, e) == e + w.len()
            &&& s[e + w.len()] == c
        }),
{
    let s = pre + (t + w + seq![c] + rest);
    let post = w + seq![c] + rest;
    lemma_blank_ends_numbers(w, c, rest);
    assert(read_as(pre, t, post, v, nums));
    assert(s =~= pre + t + post);
    assert(s =~= (pre + t) + w + (seq![c] + rest));
    assert((seq![c] + rest)[0] == c);
    lemma_skip_blank(pre + t, w, seq![c] + rest);
}

proof fn lemma_items(pre: Seq<u8>, ts: Seq<Seq<u8>>, vs: Seq<Value>, w: Seq<u8>, k: int, post: Seq<u8>, a: Seq<Value>, nums: Reading)
    requires
        ts.len() == vs.len(),
        0 <= k < ts.len(),
        blank(w),
        forall|i: int| 0 <= i < ts.len() ==> #[trigger] writes(ts[i], vs[i], nums),
    ensures
        items_at(pre + listed(ts, w, k) + post, pre.len() as int, a, nums) == Ok::<(Value, int), JsonError>(
            (Value::Arr(a + vs.skip(k)), (pre.len() + listed(ts, w, k).len()) as int),
        ),
    decreases ts.len() - k,
{
    let s = pre + listed(ts, w, k) + post;
    let t = ts[k];
    assert(writes(ts[k], vs[k], nums));
    if k == ts.len() - 1 {
        lemma_value_then(pre, t, vs[k], w, 0x5D, post, nums);
        assert(s =~= pre + (t + w + seq![0x5Du8] + post));
        assert(a + vs.skip(k) =~= a.push(vs[k]));
    } else {
        let rest = listed(ts, w, k + 1) + post;
        lemma_value_then(pre, t, vs[k], w, 0x2C, rest, nums);
        assert(s =~= pre + (t + w + seq![0x2Cu8] + rest));
        let next = pre + t + w + seq![0x2Cu8];
        lemma_items(next, ts, vs, w, k + 1, post, a.push(vs[k]), nums);
        assert(next + listed(ts, w, k + 1) + post =~= s);
        assert(a.push(vs[k]) + vs.skip(k + 1) =~= a + vs.skip(k));
    }
}

/// An array is its items between brackets, with commas between them, and blanks in front of the first, of commas and of
/// the closing bracket.
pub proof fn law_arrays_are_read(ts: Seq<Seq<u8>>, vs: Seq<Value>, w: Seq<u8>, nums: Reading)
    requires
        ts.len() == vs.len(),
        blank(w),
        forall|i: int| 0 <= i < ts.len() ==> #[trigger] writes(ts[i], vs[i], nums),
        ts.len() > 0 ==> !is_space(ts[0][0]) && ts[0][0] != 0x5D,
    ensures
        ts.len() == 0 ==> writes(seq![0x5Bu8] + w + seq![0x5Du8], Value::Arr(vs), nums),
        ts.len() > 0 ==> writes(seq![0x5Bu8] + w + listed(ts, w, 0), Value::Arr(vs), nums),
{
    if ts.len() == 0 {
        let t = seq![0x5Bu8] + w + seq![0x5Du8];
        assert(vs =~= Seq::empty());
        assert forall|pre: Seq<u8>, post: Seq<u8>| ends_numbers(post) implies #[trigger] read_as(pre, t, post, Value::Arr(vs), nums) by {
            lemma_here(pre, t, post);
            let s = pre + t + post;
            let head = pre.push(0x5B);
            assert(s =~= head + w + (seq![0x5Du8] + post));
            assert((seq![0x5Du8] + post)[0] == 0x5D);
            lemma_skip_blank(head, w, seq![0x5Du8] + post);
        }
    } else {
        let l = listed(ts, w, 0);
        let t = seq![0x5Bu8] + w + l;
        assert(writes(ts[0], vs[0], nums));
        assert(l[0] == ts[0][0]);
        assert(vs.skip(0) =~= vs);
        assert(writes(w + ts[0], vs[0], nums)) by {
            law_blanks_change_nothing(w, ts[0], vs[0], nums);
        }
        let us = ts.update(0, w + ts[0]);
        assert forall|i: int| 0 <= i < us.len() implies #[trigger] writes(us[i], vs[i], nums) by {
            assert(writes(ts[i], vs[i], nums));
        }
        lemma_listed_after_first(ts, us, w);
        assert(listed(us, w, 0) =~= w + l);
        assert forall|pre: Seq<u8>, post: Seq<u8>| ends_numbers(post) implies #[trigger] read_as(pre, t, post, Value::Arr(vs), nums) by {
            lemma_here(pre, t, post);
            let s = pre + t + post;
            let head = pre.push(0x5B);
            assert(s =~= head + w + (l + post));
            assert((l + post)[0] == ts[0][0]);
            lemma_skip_blank(head, w, l + post);
            lemma_items(head, us, vs, w, 0, post, Seq::empty(), nums);
            assert(head + listed(us, w, 0) + post =~= s);
            assert(Seq::<Value>::empty() + vs.skip(0) =~= vs);
        }
    }
}

proof fn lemma_listed_after_first(ts: Seq<Seq<u8>>, us: Seq<Seq<u8>>, w: Seq<u8>)
    requires
        ts.len() > 0,
        us == ts.update(0, w + ts[0]),
    ensures
        listed(us, w, 0) == w + listed(ts, w, 0),
{
    if ts.len() > 1 {
        lemma_listed_same(ts, us, w, 1);
    }
    assert(listed(us, w, 0) =~= w + listed(ts, w, 0));
}

proof fn lemma_listed_same(ts: Seq<Seq<u8>>, us: Seq<Seq<u8>>, w: Seq<u8>, k: int)
    requires
        ts.len() == us.len(),
        0 < k < ts.len(),
        forall|i: int| 0 < i < ts.len() ==> ts[i] == us[i],
    ensures
        listed(ts, w, k) == listed(us, w, k),
    decreases ts.len() - k,
{
    if k < ts.len() - 1 {
        lemma_listed_same(ts, us, w, k + 1);
    }
}

/// The members from member `k` on, with blanks `w` in front of every name, colon, comma and the closing brace.
pub open spec fn members(ns: Seq<Seq<char>>, ts: Seq<Seq<u8>>, w: Seq<u8>, k: int) -> Seq<u8>
    decreases ts.len() - k,
{
    let m = w + quoted(ns[k]) + w + seq![0x3Au8] + ts[k] + w;
    if k >= ts.len() - 1 {
        m + seq![0x7Du8]
    } else {
        m + seq![0x2Cu8] + members(ns, ts, w, k + 1)
    }
}

/// `m` with the members from member `k` on.
pub open spec fn with_members(m: Map<Seq<char>, Value>, ns: Seq<Seq<char>>, vs: Seq<Value>, k: int) -> Map<Seq<char>, Value>
    decreases vs.len() - k,
{
    if k >= vs.len() {
        m
    } else {
        with_members(m.insert(ns[k], vs[k]), ns, vs, k + 1)
    }
}

proof fn lemma_name_then(pre: Seq<u8>, name: Seq<char>, w: Seq<u8>, rest: Seq<u8>)
    requires
        blank(w),
    ensures
        ({
            let s = pre + (w + quoted(name) + w + seq![0x3Au8] + rest);
            let k = (pre.len() + w.len()) as int;
            let j = k + quoted(name).len();
            &&& skip(s, pre.len() as int) == k
            &&& string_at(s, k) == Ok::<(Seq<char>, int), JsonError>((name, j))
            &&& skip(s, j) == j + w.len()
            &&& s[j + w.len()] == 0x3A
        }),
{
    let q = quoted(name);
    let s = pre + (w + q + w + seq![0x3Au8] + rest);
    let after = q + w + seq![0x3Au8] + rest;
    assert(s =~= pre + w + after);
    assert(after[0] == 0x22);
    lemma_skip_blank(pre, w, after);
    let behind = w + seq![0x3Au8] + rest;
    assert(s =~= (pre + w) + q + behind);
    lemma_string(pre + w, name, behind);
    assert(s =~= (pre + w + q) + w + (seq![0x3Au8] + rest));
    assert((seq![0x3Au8] + rest)[0] == 0x3A);
    lemma_skip_blank(pre + w + q, w, seq![0x3Au8] + rest);
}

proof fn lemma_member_text(pre: Seq<u8>, w: Seq<u8>, q: Seq<u8>, t: Seq<u8>, c: u8, more: Seq<u8>, post: Seq<u8>)
    ensures
        ({
            let s = pre + (w + q + w + seq![0x3Au8] + (t + w + seq![c] + (more + post)));
            let head = pre + w + q + w + seq![0x3Au8];
            &&& s == pre + (w + q + w + seq![0x3Au8] + t + w + seq![c] + more) + post
            &&& s == head + (t + w + seq![c] + (more + post))
            &&& s == (head + t + w + seq![c]) + more + post
        }),
{
    let s = pre + (w + q + w + seq![0x3Au8] + (t + w + seq![c] + (more + post)));
    let head = pre + w + q + w + seq![0x3Au8];
    assert(s =~= pre + (w + q + w + seq![0x3Au8] + t + w + seq![c] + more) + post);
    assert(s =~= head + (t + w + seq![c] + (more + post)));
    assert(s =~= (head + t + w + seq![c]) + more + post);
}

/// What is read of the members from `i` on.
#[verifier::opaque]
spec fn read_members(s: Seq<u8>, i: int, m: Map<Seq<char>, Value>, nums: Reading) -> Result<(Value, int), JsonError> {
    members_at(s, i, m, nums)
}

/// One member, and the comma or the brace behind it.
proof fn lemma_member(pre: Seq<u8>, name: Seq<char>, t: Seq<u8>, v: Value, w: Seq<u8>, c: u8, rest: Seq<u8>, m: Map<Seq<char>, Value>, nums: Reading)
    requires
        writes(t, v, nums),
        blank(w),
        c == 0x2C || c == 0x7D,
        !m.dom().contains(name),
    ensures
        ({
            let s = pre + (w + quoted(name) + w + seq![0x3Au8] + (t + w + seq![c] + rest));
            let d = (pre.len() + w.len() + quoted(name).len() + w.len() + 1 + t.len() + w.len()) as int;
            read_members(s, pre.len() as int, m, nums) == if c == 0x2C {
                read_members(s, d + 1, m.insert(name, v), nums)
            } else {
                Ok::<(Value, int), JsonError>((Value::Obj(m.insert(name, v)), d + 1))
            }
        }),
{
    reveal(read_members);
    let q = quoted(name);
    let s = pre + (w + q + w + seq![0x3Au8] + (t + w + seq![c] + rest));
    let head = pre + w + q + w + seq![0x3Au8];
    lemma_name_then(pre, name, w, t + w + seq![c] + rest);
    assert(s == head + (t + w + seq![c] + rest)) by {
        lemma_member_text(pre, w, q, t, c, rest, Seq::empty());
        assert(rest + Seq::<u8>::empty() =~= rest);
    }
    lemma_value_then(head, t, v, w, c, rest, nums);
}

proof fn lemma_members(
    pre: Seq<u8>,
    ns: Seq<Seq<char>>,
    ts: Seq<Seq<u8>>,
    vs: Seq<Value>,
    w: Seq<u8>,
    k: int,
    post: Seq<u8>,
    m: Map<Seq<char>, Value>,
    nums: Reading,
)
    requires
        ts.len() == vs.len(),
        ns.len() == vs.len(),
        0 <= k < ts.len(),
        blank(w),
        forall|i: int| 0 <= i < ts.len() ==> #[trigger] writes(ts[i], vs[i], nums),
        ns.no_duplicates(),
        forall|i: int| k <= i < ns.len() ==> !m.dom().contains(#[trigger] ns[i]),
    ensures
        read_members(pre + members(ns, ts, w, k) + post, pre.len() as int, m, nums) == Ok::<(Value, int), JsonError>(
            (Value::Obj(with_members(m, ns, vs, k)), (pre.len() + members(ns, ts, w, k).len()) as int),
        ),
    decreases ts.len() - k,
{
    let s = pre + members(ns, ts, w, k) + post;
    let (q, t) = (quoted(ns[k]), ts[k]);
    let now = m.insert(ns[k], vs[k]);
    let head = pre + w + q + w + seq![0x3Au8];
    assert(writes(ts[k], vs[k], nums));
    assert(!m.dom().contains(ns[k]));
    assert(with_members(m, ns, vs, k) == with_members(now, ns, vs, k + 1));
    if k == ts.len() - 1 {
        let none = Seq::<u8>::empty();
        lemma_member_text(pre, w, q, t, 0x7D, none, post);
        assert(w + q + w + seq![0x3Au8] + t + w + seq![0x7Du8] + none =~= members(ns, ts, w, k));
        lemma_member(pre, ns[k], t, vs[k], w, 0x7D, none + post, m, nums);
        assert(with_members(now, ns, vs, k + 1) == now);
    } else {
        let more = members(ns, ts, w, k + 1);
        lemma_member_text(pre, w, q, t, 0x2C, more, post);
        lemma_member(pre, ns[k], t, vs[k], w, 0x2C, more + post, m, nums);
        let next = head + t + w + seq![0x2Cu8];
        lemma_members(next, ns, ts, vs, w, k + 1, post, now, nums);
    }
}

proof fn lemma_open_object(pre: Seq<u8>, w: Seq<u8>, l: Seq<u8>, post: Seq<u8>, nums: Reading)
    requires
        blank(w),
        w.len() < l.len(),
        l.take(w.len() as int) == w,
        l[w.len() as int] == 0x22,
    ensures
        value_at(pre + (seq![0x7Bu8] + l) + post, pre.len() as int, nums) == read_members(
            pre.push(0x7B) + l + post,
            (pre.len() + 1) as int,
            Map::empty(),
            nums,
        ),
{
    reveal(read_members);
    let t = seq![0x7Bu8] + l;
    lemma_here(pre, t, post);
    let s = pre + t + post;
    let head = pre.push(0x7B);
    let after = l.skip(w.len() as int) + post;
    assert(s =~= head + w + after);
    assert(after[0] == 0x22);
    lemma_skip_blank(head, w, after);
    assert(head + l + post =~= s);
}

proof fn lemma_empty_object(pre: Seq<u8>, w: Seq<u8>, post: Seq<u8>, nums: Reading)
    requires
        blank(w),
    ensures
        read_as(pre, seq![0x7Bu8] + w + seq![0x7Du8], post, Value::Obj(Map::empty()), nums),
{
    let t = seq![0x7Bu8] + w + seq![0x7Du8];
    lemma_here(pre, t, post);
    let s = pre + t + post;
    let head = pre.push(0x7B);
    assert(s =~= head + w + (seq![0x7Du8] + post));
    assert((seq![0x7Du8] + post)[0] == 0x7D);
    lemma_skip_blank(head, w, seq![0x7Du8] + post);
}

/// An object is its members between braces, each a name, a colon and a value, with commas between them.
pub proof fn law_objects_are_read(ns: Seq<Seq<char>>, ts: Seq<Seq<u8>>, vs: Seq<Value>, w: Seq<u8>, nums: Reading)
    requires
        ts.len() == vs.len(),
        ns.len() == vs.len(),
        ns.no_duplicates(),
        blank(w),
        forall|i: int| 0 <= i < ts.len() ==> #[trigger] writes(ts[i], vs[i], nums),
    ensures
        ts.len() == 0 ==> writes(seq![0x7Bu8] + w + seq![0x7Du8], Value::Obj(Map::empty()), nums),
        ts.len() > 0 ==> writes(seq![0x7Bu8] + members(ns, ts, w, 0), Value::Obj(with_members(Map::empty(), ns, vs, 0)), nums),
{
    if ts.len() == 0 {
        let t = seq![0x7Bu8] + w + seq![0x7Du8];
        assert forall|pre: Seq<u8>, post: Seq<u8>| ends_numbers(post) implies #[trigger] read_as(pre, t, post, Value::Obj(Map::empty()), nums) by {
            lemma_empty_object(pre, w, post, nums);
        }
    } else {
        let l = members(ns, ts, w, 0);
        let t = seq![0x7Bu8] + l;
        let v = Value::Obj(with_members(Map::empty(), ns, vs, 0));
        assert(l.take(w.len() as int) =~= w);
        assert(l[w.len() as int] == quoted(ns[0])[0]);
        assert forall|pre: Seq<u8>, post: Seq<u8>| ends_numbers(post) implies #[trigger] read_as(pre, t, post, v, nums) by {
            lemma_open_object(pre, w, l, post, nums);
            lemma_members(pre.push(0x7B), ns, ts, vs, w, 0, post, Map::empty(), nums);
        }
    }
}

/// Members are found under their names: the value of each name is that of its member, and there are no other names.
pub proof fn law_members_are_found_by_name(m: Map<Seq<char>, Value>, ns: Seq<Seq<char>>, vs: Seq<Value>, k: int)
    requires
        ns.len() == vs.len(),
        0 <= k <= vs.len(),
        ns.no_duplicates(),
    ensures
        forall|i: int| k <= i < ns.len() ==> with_members(m, ns, vs, k).dom().contains(#[trigger] ns[i]) && with_members(m, ns, vs, k)[ns[i]] == vs[i],
        forall|t: Seq<char>|
            !(exists|i: int| k <= i < ns.len() && ns[i] == t) ==> (#[trigger] with_members(m, ns, vs, k).dom().contains(t) <==> m.dom().contains(t)) && (
            m.dom().contains(t) ==> with_members(m, ns, vs, k)[t] == m[t]),
    decreases vs.len() - k,
{
    if k < vs.len() {
        let now = m.insert(ns[k], vs[k]);
        law_members_are_found_by_name(now, ns, vs, k + 1);
        let all = with_members(m, ns, vs, k);
        assert(all == with_members(now, ns, vs, k + 1));
        assert(!(exists|i: int| k + 1 <= i < ns.len() && ns[i] == ns[k]));
        assert(all.dom().contains(ns[k]) && all[ns[k]] == vs[k]);
        assert forall|t: Seq<char>| !(exists|i: int| k <= i < ns.len() && ns[i] == t) implies (#[trigger] all.dom().contains(t) <==> m.dom().contains(t)) && (
        m.dom().contains(t) ==> all[t] == m[t]) by {
            assert(ns[k] != t);
            assert(!(exists|i: int| k + 1 <= i < ns.len() && ns[i] == t));
        }
    }
}

/// A whole text is one value, with blanks behind it or none.
pub proof fn law_whole_texts_are_one_value(t: Seq<u8>, v: Value, w: Seq<u8>, nums: Reading)
    requires
        writes(t, v, nums),
        blank(w),
    ensures
        text_value(t + w, nums) == Ok::<Value, JsonError>(v),
{
    let none = Seq::<u8>::empty();
    if w.len() > 0 {
        assert(w[0] == w[0]);
    }
    assert(ends_numbers(w));
    assert(read_as(none, t, w, v, nums));
    assert(none + t + w =~= t + w);
    lemma_skip_blank(t, w, none);
    assert(t + w + none =~= t + w);
}

} // verus!
