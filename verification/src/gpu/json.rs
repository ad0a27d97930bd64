//! A minimal JSON reader (objects, arrays, strings, numbers, booleans, null), enough for shader
//! reflection files; it rejects anything else rather than guessing.
//!
//! How the text of a number is read is the caller's: a reader says whether the text is a number at
//! all, and which whole number it stands for, if it does.
use vstd::prelude::*;
use vstd::slice::{slice_subrange, slice_to_vec};
use vstd::utf8::{decode_utf8, encode_utf8, encode_utf8_decode_utf8, valid_utf8};

verus! {

/// A parsed number: its text, and the whole number it stands for.
#[derive(Clone, Debug, PartialEq, Eq)]
pub struct Number {
    pub text: Vec<u8>,
    pub whole: Option<u64>,
}

#[derive(Debug, PartialEq, Eq)]
pub enum Json {
    Null,
    Bool(bool),
    Num(Number),
    Str(String),
    Arr(Vec<Json>),
    /// Members by name; no name twice.
    Obj(Vec<(String, Json)>),
}

/// What a JSON text stands for.
pub enum Value {
    Null,
    Bool(bool),
    Num(Seq<u8>, Option<u64>),
    Str(Seq<char>),
    Arr(Seq<Value>),
    Obj(Map<Seq<char>, Value>),
}

/// Why a text is not accepted, with the byte where reading stopped.
#[derive(Clone, Copy, Debug, PartialEq, Eq, Structural)]
pub enum JsonError {
    TrailingData { at: usize },
    Expected { byte: u8, at: usize },
    /// Neither a comma nor the closing byte.
    ExpectedEnd { close: u8, at: usize },
    ExpectedString { at: usize },
    Unexpected { at: usize },
    BadNumber { at: usize },
    /// The name that starts here was there before.
    DuplicateKey { at: usize },
    UnterminatedEscape,
    UnsupportedEscape { byte: u8 },
    UnterminatedString,
    /// The string that starts here is not text.
    NotText { at: usize },
}

impl Value {
    pub open spec fn get(self, key: Seq<char>) -> Option<Value> {
        match self {
            Value::Obj(m) => if m.dom().contains(key) {
                Some(m[key])
            } else {
                None
            },
            _ => None,
        }
    }

    pub open spec fn text(self) -> Option<Seq<char>> {
        match self {
            Value::Str(s) => Some(s),
            _ => None,
        }
    }

    pub open spec fn whole(self) -> Option<u64> {
        match self {
            Value::Num(_, n) => n,
            _ => None,
        }
    }

    /// The items of an array; none of anything else.
    pub open spec fn items(self) -> Seq<Value> {
        match self {
            Value::Arr(s) => s,
            _ => Seq::empty(),
        }
    }
}

/// `m` has a member named `k`.
pub open spec fn has_member(m: Seq<(String, Json)>, k: Seq<char>) -> bool {
    exists|i: int| 0 <= i < m.len() && (#[trigger] m[i]).0@ == k
}

/// No name occurs twice.
pub open spec fn distinct_names(m: Seq<(String, Json)>) -> bool {
    forall|i: int, j: int| 0 <= i < j < m.len() ==> (#[trigger] m[i]).0@ != (#[trigger] m[j]).0@
}

impl Json {
    /// What the parsed tree stands for.
    pub open spec fn value(self) -> Value
        decreases self,
    {
        match self {
            Json::Null => Value::Null,
            Json::Bool(b) => Value::Bool(b),
            Json::Num(n) => Value::Num(n.text@, n.whole),
            Json::Str(s) => Value::Str(s@),
            Json::Arr(v) => Value::Arr(
                Seq::new(
                    v@.len(),
                    |i: int|
                        if 0 <= i < v@.len() {
                            v@[i].value()
                        } else {
                            Value::Null
                        },
                ),
            ),
            Json::Obj(v) => Value::Obj(
                Map::new(
                    |k: Seq<char>| has_member(v@, k),
                    |k: Seq<char>|
                        {
                            let i = choose|i: int| 0 <= i < v@.len() && (#[trigger] v@[i]).0@ == k;
                            if 0 <= i < v@.len() {
                                v@[i].1.value()
                            } else {
                                Value::Null
                            }
                        },
                ),
            ),
        }
    }

    /// Objects have no name twice, at any depth.
    pub open spec fn wf(self) -> bool
        decreases self,
    {
        match self {
            Json::Arr(v) => forall|i: int| 0 <= i < v@.len() ==> (#[trigger] v@[i]).wf(),
            Json::Obj(v) => distinct_names(v@) && forall|i: int| 0 <= i < v@.len() ==> (#[trigger] v@[i]).1.wf(),
            _ => true,
        }
    }
}

/// The whitespace that may stand between parts.
pub open spec fn is_space(c: u8) -> bool {
    c == 0x20 || c == 0x09 || c == 0x0A || c == 0x0C || c == 0x0D
}

/// The first byte from `i` on that is no whitespace.
pub open spec fn skip(s: Seq<u8>, i: int) -> int
    decreases s.len() - i,
{
    if 0 <= i < s.len() && is_space(s[i]) {
        skip(s, i + 1)
    } else {
        i
    }
}

pub proof fn lemma_skip(s: Seq<u8>, i: int)
    ensures
        i <= skip(s, i),
        i <= s.len() ==> skip(s, i) <= s.len(),
    decreases s.len() - i,
{
    if 0 <= i < s.len() && is_space(s[i]) {
        lemma_skip(s, i + 1);
    }
}

/// The bytes that the text of a number is made of.
pub open spec fn is_numeric(c: u8) -> bool {
    c == 0x2D || c == 0x2B || c == 0x2E || c == 0x65 || c == 0x45 || 0x30 <= c <= 0x39
}

pub open spec fn number_end(s: Seq<u8>, i: int) -> int
    decreases s.len() - i,
{
    if 0 <= i < s.len() && is_numeric(s[i]) {
        number_end(s, i + 1)
    } else {
        i
    }
}

/// What the byte after a backslash stands for.
pub open spec fn escape(e: u8) -> Option<u8> {
    if e == 0x22 || e == 0x5C || e == 0x2F {
        Some(e)
    } else if e == 0x6E {
        Some(0x0A)
    } else if e == 0x74 {
        Some(0x09)
    } else if e == 0x72 {
        Some(0x0D)
    } else if e == 0x62 {
        Some(0x08)
    } else if e == 0x66 {
        Some(0x0C)
    } else {
        None
    }
}

/// The rest of a string's bytes, from `i` to the closing quote; where it ends.
pub open spec fn rest_of_string(s: Seq<u8>, i: int, out: Seq<u8>) -> Result<(Seq<u8>, int), JsonError>
    decreases s.len() - i,
{
    if !(0 <= i < s.len()) {
        Err(JsonError::UnterminatedString)
    } else if s[i] == 0x22 {
        Ok((out, i + 1))
    } else if s[i] == 0x5C {
        if i + 1 >= s.len() {
            Err(JsonError::UnterminatedEscape)
        } else {
            match escape(s[i + 1]) {
                Some(c) => rest_of_string(s, i + 2, out.push(c)),
                None => Err(JsonError::UnsupportedEscape { byte: s[i + 1] }),
            }
        }
    } else {
        rest_of_string(s, i + 1, out.push(s[i]))
    }
}

/// The string at `i`, and where it ends.
pub open spec fn string_at(s: Seq<u8>, i: int) -> Result<(Seq<char>, int), JsonError> {
    if !(0 <= i < s.len() && s[i] == 0x22) {
        Err(JsonError::ExpectedString { at: i as usize })
    } else {
        match rest_of_string(s, i + 1, Seq::empty()) {
            Err(e) => Err(e),
            Ok((b, j)) => if valid_utf8(b) {
                Ok((decode_utf8(b), j))
            } else {
                Err(JsonError::NotText { at: i as usize })
            },
        }
    }
}

/// `word` stands at `i`.
pub open spec fn word_at(s: Seq<u8>, i: int, word: Seq<u8>) -> bool {
    i + word.len() <= s.len() && s.subrange(i, i + word.len()) == word
}

pub open spec fn true_word() -> Seq<u8> {
    seq![0x74u8, 0x72, 0x75, 0x65]
}

pub open spec fn false_word() -> Seq<u8> {
    seq![0x66u8, 0x61, 0x6C, 0x73, 0x65]
}

pub open spec fn null_word() -> Seq<u8> {
    seq![0x6Eu8, 0x75, 0x6C, 0x6C]
}

/// How numbers are read: whether a text is a number, and the whole number it stands for.
pub type Reading = spec_fn(Seq<u8>) -> Option<Option<u64>>;

/// The value at `i` (after whitespace), and where it ends.
pub open spec fn value_at(s: Seq<u8>, i: int, nums: Reading) -> Result<(Value, int), JsonError>
    decreases s.len() - i, 2int,
{
    proof {
        lemma_skip(s, i);
    }
    let i = skip(s, i);
    if !(0 <= i < s.len()) {
        Err(JsonError::Unexpected { at: i as usize })
    } else if s[i] == 0x7B {
        let j = skip(s, i + 1);
        if 0 <= j < s.len() && s[j] == 0x7D {
            Ok((Value::Obj(Map::empty()), j + 1))
        } else {
            members_at(s, i + 1, Map::empty(), nums)
        }
    } else if s[i] == 0x5B {
        let j = skip(s, i + 1);
        if 0 <= j < s.len() && s[j] == 0x5D {
            Ok((Value::Arr(Seq::empty()), j + 1))
        } else {
            items_at(s, i + 1, Seq::empty(), nums)
        }
    } else if s[i] == 0x22 {
        match string_at(s, i) {
            Ok((t, j)) => Ok((Value::Str(t), j)),
            Err(e) => Err(e),
        }
    } else if word_at(s, i, true_word()) {
        Ok((Value::Bool(true), i + 4))
    } else if word_at(s, i, false_word()) {
        Ok((Value::Bool(false), i + 5))
    } else if word_at(s, i, null_word()) {
        Ok((Value::Null, i + 4))
    } else if s[i] == 0x2D || 0x30 <= s[i] <= 0x39 {
        let j = number_end(s, i);
        match nums(s.subrange(i, j)) {
            Some(n) => Ok((Value::Num(s.subrange(i, j), n), j)),
            None => Err(JsonError::BadNumber { at: i as usize }),
        }
    } else {
        Err(JsonError::Unexpected { at: i as usize })
    }
}

/// The members from `i` on, added to `m`, up to the closing brace.
pub open spec fn members_at(s: Seq<u8>, i: int, m: Map<Seq<char>, Value>, nums: Reading) -> Result<(Value, int), JsonError>
    decreases s.len() - i, 1int,
{
    let k = skip(s, i);
    match string_at(s, k) {
        Err(e) => Err(e),
        Ok((name, j)) => {
            let c = skip(s, j);
            if !(0 <= c < s.len() && s[c] == 0x3A) {
                Err(JsonError::Expected { byte: 0x3A, at: c as usize })
            } else if !(i < c) {
                Err(JsonError::Unexpected { at: c as usize })
            } else {
                match value_at(s, c + 1, nums) {
                    Err(e) => Err(e),
                    Ok((v, e)) => {
                        let d = skip(s, e);
                        if m.dom().contains(name) {
                            Err(JsonError::DuplicateKey { at: k as usize })
                        } else if 0 <= d < s.len() && s[d] == 0x2C && i < d {
                            members_at(s, d + 1, m.insert(name, v), nums)
                        } else if 0 <= d < s.len() && s[d] == 0x7D {
                            Ok((Value::Obj(m.insert(name, v)), d + 1))
                        } else {
                            Err(JsonError::ExpectedEnd { close: 0x7D, at: d as usize })
                        }
                    },
                }
            }
        },
    }
}

/// The items from `i` on, added to `a`, up to the closing bracket.
pub open spec fn items_at(s: Seq<u8>, i: int, a: Seq<Value>, nums: Reading) -> Result<(Value, int), JsonError>
    decreases s.len() - i, 3int,
{
    match value_at(s, i, nums) {
        Err(e) => Err(e),
        Ok((v, e)) => {
            let d = skip(s, e);
            if 0 <= d < s.len() && s[d] == 0x2C && i < d {
                items_at(s, d + 1, a.push(v), nums)
            } else if 0 <= d < s.len() && s[d] == 0x5D {
                Ok((Value::Arr(a.push(v)), d + 1))
            } else {
                Err(JsonError::ExpectedEnd { close: 0x5D, at: d as usize })
            }
        },
    }
}

/// The value of a whole text.
pub open spec fn text_value(s: Seq<u8>, nums: Reading) -> Result<Value, JsonError> {
    match value_at(s, 0, nums) {
        Err(e) => Err(e),
        Ok((v, j)) => if skip(s, j) == s.len() {
            Ok(v)
        } else {
            Err(JsonError::TrailingData { at: skip(s, j) as usize })
        },
    }
}

/// `f` says what a call of `read` returns.
pub open spec fn reads<F: Fn(&[u8]) -> Option<Option<u64>>>(read: F, f: Reading) -> bool {
    forall|t: &[u8], r: Option<Option<u64>>| #[trigger] read.ensures((t,), r) ==> r == f(t@)
}

fn skip_spaces(s: &[u8], i: usize) -> (r: usize)
    requires
        i <= s@.len(),
    ensures
        r == skip(s@, i as int),
        i <= r <= s@.len(),
{
    let mut j: usize = i;
    while j < s.len() && (s[j] == 0x20 || s[j] == 0x09 || s[j] == 0x0A || s[j] == 0x0C || s[j] == 0x0D)
        invariant
            i <= j <= s@.len(),
            skip(s@, i as int) == skip(s@, j as int),
        decreases s@.len() - j,
    {
        j += 1;
    }
    j
}

fn skip_number(s: &[u8], i: usize) -> (r: usize)
    requires
        i <= s@.len(),
    ensures
        r == number_end(s@, i as int),
        i <= r <= s@.len(),
{
    let mut j: usize = i;
    while j < s.len() && (s[j] == 0x2D || s[j] == 0x2B || s[j] == 0x2E || s[j] == 0x65 || s[j] == 0x45 || (0x30 <= s[j] && s[j]
        <= 0x39))
        invariant
            i <= j <= s@.len(),
            number_end(s@, i as int) == number_end(s@, j as int),
        decreases s@.len() - j,
    {
        j += 1;
    }
    j
}

/// The text that `bytes` encode.
///
/// `String::from_utf8`: gives the string whose UTF-8 encoding the bytes are, and refuses them
/// exactly when they are no valid encoding.
#[verifier::external_body]
fn to_text(bytes: Vec<u8>) -> (r: Option<String>)
    ensures
        r is Some == valid_utf8(bytes@),
        r matches Some(t) ==> t@ == decode_utf8(bytes@),
{
    String::from_utf8(bytes).ok()
}

fn unescape(e: u8) -> (r: Option<u8>)
    ensures
        r == escape(e),
{
    if e == 0x22 || e == 0x5C || e == 0x2F {
        Some(e)
    } else if e == 0x6E {
        Some(0x0A)
    } else if e == 0x74 {
        Some(0x09)
    } else if e == 0x72 {
        Some(0x0D)
    } else if e == 0x62 {
        Some(0x08)
    } else if e == 0x66 {
        Some(0x0C)
    } else {
        None
    }
}

fn parse_string(s: &[u8], i: usize) -> (r: Result<(String, usize), JsonError>)
    requires
        i <= s@.len(),
    ensures
        match r {
            Ok((t, j)) => string_at(s@, i as int) == Ok::<(Seq<char>, int), JsonError>((t@, j as int)) && i < j <= s@.len(),
            Err(e) => string_at(s@, i as int) == Err::<(Seq<char>, int), JsonError>(e),
        },
{
    if i >= s.len() || s[i] != 0x22 {
        return Err(JsonError::ExpectedString { at: i });
    }
    let mut out: Vec<u8> = Vec::new();
    let mut j: usize = i + 1;
    assert(out@ =~= Seq::<u8>::empty());
    while j < s.len()
        invariant
            i < s@.len(),
            s@[i as int] == 0x22,
            i < j <= s@.len(),
            rest_of_string(s@, i + 1, Seq::empty()) == rest_of_string(s@, j as int, out@),
        decreases s@.len() - j,
    {
        let c: u8 = s[j];
        if c == 0x22 {
            let ghost b = out@;
            return match to_text(out) {
                Some(t) => Ok((t, j + 1)),
                None => Err(JsonError::NotText { at: i }),
            };
        } else if c == 0x5C {
            if j + 1 >= s.len() {
                return Err(JsonError::UnterminatedEscape);
            }
            match unescape(s[j + 1]) {
                Some(x) => {
                    out.push(x);
                },
                None => {
                    return Err(JsonError::UnsupportedEscape { byte: s[j + 1] });
                },
            }
            j += 2;
        } else {
            out.push(c);
            j += 1;
        }
    }
    Err(JsonError::UnterminatedString)
}

fn has_word(s: &[u8], i: usize, a: u8, b: u8, c: u8, d: u8) -> (r: bool)
    requires
        i <= s@.len(),
    ensures
        r == word_at(s@, i as int, seq![a, b, c, d]),
{
    let r = s.len() - i >= 4 && s[i] == a && s[i + 1] == b && s[i + 2] == c && s[i + 3] == d;
    proof {
        if i + 4 <= s@.len() {
            let t = s@.subrange(i as int, i + 4);
            assert(t[0] == s@[i as int] && t[1] == s@[i + 1] && t[2] == s@[i + 2] && t[3] == s@[i + 3]);
            if r {
                assert(t =~= seq![a, b, c, d]);
            }
        }
    }
    r
}

fn has_false(s: &[u8], i: usize) -> (r: bool)
    requires
        i <= s@.len(),
    ensures
        r == word_at(s@, i as int, false_word()),
{
    let r = has_word(s, i, 0x66, 0x61, 0x6C, 0x73) && s.len() - i >= 5 && s[i + 4] == 0x65;
    proof {
        if i + 5 <= s@.len() {
            let t = s@.subrange(i as int, i + 5);
            let u = s@.subrange(i as int, i + 4);
            assert(u =~= t.take(4));
            assert(t[0] == s@[i as int] && t[1] == s@[i + 1] && t[2] == s@[i + 2] && t[3] == s@[i + 3] && t[4] == s@[i + 4]);
            if r {
                assert(u[0] == 0x66 && u[1] == 0x61 && u[2] == 0x6C && u[3] == 0x73);
                assert(t =~= false_word());
            }
            if t == false_word() {
                assert(u =~= seq![0x66u8, 0x61, 0x6C, 0x73]);
            }
        }
    }
    r
}

/// The member named `name`, if there is one.
fn find_member(m: &Vec<(String, Json)>, name: &str) -> (r: Option<usize>)
    ensures
        match r {
            Some(i) => i < m@.len() && m@[i as int].0@ == name@,
            None => !has_member(m@, name@),
        },
{
    let mut i: usize = 0;
    while i < m.len()
        invariant
            i <= m@.len(),
            forall|j: int| 0 <= j < i ==> (#[trigger] m@[j]).0@ != name@,
        decreases m@.len() - i,
    {
        if same_text(m[i].0.as_str(), name) {
            return Some(i);
        }
        i += 1;
    }
    None
}

/// Whether two texts are the same.
pub fn same_text(a: &str, b: &str) -> (r: bool)
    ensures
        r == (a@ == b@),
{
    let x = a.as_bytes();
    let y = b.as_bytes();
    proof {
        encode_utf8_decode_utf8(a@);
        encode_utf8_decode_utf8(b@);
    }
    if x.len() != y.len() {
        return false;
    }
    let mut i: usize = 0;
    while i < x.len()
        invariant
            i <= x@.len(),
            x@.len() == y@.len(),
            x@ == encode_utf8(a@),
            y@ == encode_utf8(b@),
            forall|j: int| 0 <= j < i ==> x@[j] == y@[j],
        decreases x@.len() - i,
    {
        if x[i] != y[i] {
            return false;
        }
        i += 1;
    }
    assert(x@ =~= y@);
    true
}

/// Adding a new member adds it to the object.
proof fn lemma_new_member(
    v: Vec<(String, Json)>,
    w: Vec<(String, Json)>,
    name: String,
    x: Json,
    a: Map<Seq<char>, Value>,
)
    requires
        w@ == v@.push((name, x)),
        distinct_names(v@),
        !has_member(v@, name@),
        Json::Obj(v).value() == Value::Obj(a),
    ensures
        distinct_names(w@),
        Json::Obj(w).value() == Value::Obj(a.insert(name@, x.value())),
{
    let m = v@;
    let n = w@;
    assert forall|i: int, j: int| 0 <= i < j < n.len() implies (#[trigger] n[i]).0@ != (#[trigger] n[j]).0@ by {
        if j == m.len() {
            assert(m[i].0@ != name@);
        }
    }
    let b = Json::Obj(w).value()->Obj_0;
    let c = a.insert(name@, x.value());
    assert forall|k: Seq<char>| b.dom().contains(k) <==> c.dom().contains(k) by {
        assert(a.dom().contains(k) == has_member(m, k));
        assert(b.dom().contains(k) == has_member(n, k));
        if has_member(m, k) {
            let i = choose|i: int| 0 <= i < m.len() && (#[trigger] m[i]).0@ == k;
            assert(n[i].0@ == k);
        }
        if has_member(n, k) {
            let i = choose|i: int| 0 <= i < n.len() && (#[trigger] n[i]).0@ == k;
            if i < m.len() {
                assert(m[i].0@ == k);
            }
        }
        assert(n[m.len() as int].0@ == name@);
    }
    assert forall|k: Seq<char>| b.dom().contains(k) implies b[k] == c[k] by {
        assert(has_member(n, k));
        let i = choose|i: int| 0 <= i < n.len() && (#[trigger] n[i]).0@ == k;
        assert(b[k] == n[i].1.value());
        if k == name@ {
            assert(n[m.len() as int].0@ == name@);
            if i < m.len() {
                assert(m[i].0@ == name@);
            }
            assert(i == m.len());
        } else {
            assert(i < m.len());
            assert(m[i].0@ == k);
            let q = choose|q: int| 0 <= q < m.len() && (#[trigger] m[q]).0@ == k;
            assert(a[k] == m[q].1.value());
            if q < i {
                assert(m[q].0@ != m[i].0@);
            } else if i < q {
                assert(m[i].0@ != m[q].0@);
            }
        }
    }
    assert(b =~= c);
}

/// The items of the array `v`.
pub open spec fn values(v: Seq<Json>) -> Seq<Value> {
    Seq::new(v.len(), |i: int| v[i].value())
}

/// Reads the value at `i`.
fn parse_value<F: Fn(&[u8]) -> Option<Option<u64>>>(s: &[u8], i: usize, read: &F) -> (r: Result<(Json, usize), JsonError>)
    requires
        i <= s@.len(),
        forall|t: &[u8]| read.requires((t,)),
    ensures
        match r {
            Ok((v, j)) => {
                &&& v.wf()
                &&& i < j <= s@.len()
                &&& forall|f: Reading| #[trigger]
                    reads(*read, f) ==> value_at(s@, i as int, f) == Ok::<(Value, int), JsonError>((v.value(), j as int))
            },
            Err(e) => forall|f: Reading| #[trigger]
                reads(*read, f) ==> value_at(s@, i as int, f) == Err::<(Value, int), JsonError>(e),
        },
    decreases s@.len() - i,
{
    let start: usize = skip_spaces(s, i);
    if start >= s.len() {
        return Err(JsonError::Unexpected { at: start });
    }
    let c: u8 = s[start];
    if c == 0x7B {
        let j: usize = skip_spaces(s, start + 1);
        let mut m: Vec<(String, Json)> = Vec::new();
        if j < s.len() && s[j] == 0x7D {
            let v = Json::Obj(m);
            assert(v.value()->Obj_0 =~= Map::<Seq<char>, Value>::empty());
            return Ok((v, j + 1));
        }
        let mut at: usize = start + 1;
        proof {
            assert(Json::Obj(m).value()->Obj_0 =~= Map::<Seq<char>, Value>::empty());
        }
        loop
            invariant
                i <= start < at <= s@.len(),
                forall|t: &[u8]| read.requires((t,)),
                distinct_names(m@),
                forall|q: int| 0 <= q < m@.len() ==> (#[trigger] m@[q]).1.wf(),
                Json::Obj(m).value() is Obj,
                forall|f: Reading| #[trigger]
                    reads(*read, f) ==> value_at(s@, i as int, f) == members_at(
                        s@,
                        at as int,
                        Json::Obj(m).value()->Obj_0,
                        f,
                    ),
            decreases s@.len() - at,
        {
            let k: usize = skip_spaces(s, at);
            let (name, after) = match parse_string(s, k) {
                Ok(p) => p,
                Err(e) => {
                    return Err(e);
                },
            };
            let colon: usize = skip_spaces(s, after);
            if colon >= s.len() || s[colon] != 0x3A {
                return Err(JsonError::Expected { byte: 0x3A, at: colon });
            }
            let (v, end) = match parse_value(s, colon + 1, read) {
                Ok(p) => p,
                Err(e) => {
                    return Err(e);
                },
            };
            proof {
                if has_member(m@, name@) {
                    assert(Json::Obj(m).value()->Obj_0.dom().contains(name@));
                }
            }
            if find_member(&m, name.as_str()).is_some() {
                assert(has_member(m@, name@));
                return Err(JsonError::DuplicateKey { at: k });
            }
            let ghost prior = m;
            let ghost (gn, gv) = (name, v);
            m.push((name, v));
            proof {
                let a = Json::Obj(prior).value()->Obj_0;
                assert(Json::Obj(prior).value() == Value::Obj(a));
                lemma_new_member(prior, m, gn, gv, a);
                assert(Json::Obj(m).value() == Value::Obj(a.insert(gn@, gv.value())));
                assert forall|q: int| 0 <= q < m@.len() implies (#[trigger] m@[q]).1.wf() by {
                    if q < prior@.len() {
                        assert(m@[q] == prior@[q]);
                        assert(prior@[q].1.wf());
                    }
                }
            }
            let d: usize = skip_spaces(s, end);
            if d < s.len() && s[d] == 0x2C {
                at = d + 1;
            } else if d < s.len() && s[d] == 0x7D {
                return Ok((Json::Obj(m), d + 1));
            } else {
                return Err(JsonError::ExpectedEnd { close: 0x7D, at: d });
            }
        }
    } else if c == 0x5B {
        let j: usize = skip_spaces(s, start + 1);
        let mut a: Vec<Json> = Vec::new();
        if j < s.len() && s[j] == 0x5D {
            let v = Json::Arr(a);
            assert(v.value()->Arr_0 =~= Seq::<Value>::empty());
            return Ok((v, j + 1));
        }
        let mut at: usize = start + 1;
        assert(values(a@) =~= Seq::<Value>::empty());
        loop
            invariant
                i <= start < at <= s@.len(),
                forall|t: &[u8]| read.requires((t,)),
                forall|q: int| 0 <= q < a@.len() ==> (#[trigger] a@[q]).wf(),
                forall|f: Reading| #[trigger] reads(*read, f) ==> value_at(s@, i as int, f) == items_at(s@, at as int, values(a@), f),
            decreases s@.len() - at,
        {
            let (v, end) = match parse_value(s, at, read) {
                Ok(p) => p,
                Err(e) => {
                    return Err(e);
                },
            };
            let ghost prior = a@;
            let ghost gv = v;
            a.push(v);
            assert(values(a@) =~= values(prior).push(gv.value()));
            let d: usize = skip_spaces(s, end);
            if d < s.len() && s[d] == 0x2C {
                at = d + 1;
            } else if d < s.len() && s[d] == 0x5D {
                let r = Json::Arr(a);
                assert(r.value()->Arr_0 =~= values(a@));
                return Ok((r, d + 1));
            } else {
                return Err(JsonError::ExpectedEnd { close: 0x5D, at: d });
            }
        }
    } else if c == 0x22 {
        return match parse_string(s, start) {
            Ok((t, j)) => Ok((Json::Str(t), j)),
            Err(e) => Err(e),
        };
    } else if has_word(s, start, 0x74, 0x72, 0x75, 0x65) {
        return Ok((Json::Bool(true), start + 4));
    } else if has_false(s, start) {
        return Ok((Json::Bool(false), start + 5));
    } else if has_word(s, start, 0x6E, 0x75, 0x6C, 0x6C) {
        return Ok((Json::Null, start + 4));
    } else if c == 0x2D || (0x30 <= c && c <= 0x39) {
        let j: usize = skip_number(s, start);
        proof {
            assert(number_end(s@, start as int) == number_end(s@, start + 1));
            lemma_number_end(s@, start + 1);
        }
        let t = slice_subrange(s, start, j);
        return match read(t) {
            Some(whole) => Ok((Json::Num(Number { text: slice_to_vec(t), whole }), j)),
            None => Err(JsonError::BadNumber { at: start }),
        };
    }
    Err(JsonError::Unexpected { at: start })
}

proof fn lemma_number_end(s: Seq<u8>, i: int)
    ensures
        i <= number_end(s, i),
    decreases s.len() - i,
{
    if 0 <= i < s.len() && is_numeric(s[i]) {
        lemma_number_end(s, i + 1);
    }
}

impl Json {
    /// Reads a whole text.
    pub fn parse<F: Fn(&[u8]) -> Option<Option<u64>>>(text: &str, read: &F) -> (r: Result<Json, JsonError>)
        requires
            forall|t: &[u8]| read.requires((t,)),
        ensures
            match r {
                Ok(v) => v.wf() && forall|f: Reading| #[trigger]
                    reads(*read, f) ==> text_value(encode_utf8(text@), f) == Ok::<Value, JsonError>(v.value()),
                Err(e) => forall|f: Reading| #[trigger]
                    reads(*read, f) ==> text_value(encode_utf8(text@), f) == Err::<Value, JsonError>(e),
            },
    {
        let s = text.as_bytes();
        match parse_value(s, 0, read) {
            Err(e) => Err(e),
            Ok((v, j)) => {
                let end: usize = skip_spaces(s, j);
                if end == s.len() {
                    Ok(v)
                } else {
                    Err(JsonError::TrailingData { at: end })
                }
            },
        }
    }

    pub fn get(&self, key: &str) -> (r: Option<&Json>)
        requires
            self.wf(),
        ensures
            match r {
                Some(v) => self.value().get(key@) == Some(v.value()) && v.wf(),
                None => self.value().get(key@) is None,
            },
    {
        match self {
            Json::Obj(m) => match find_member(m, key) {
                Some(i) => {
                    proof {
                        assert(has_member(m@, key@));
                        let q = choose|q: int| 0 <= q < m@.len() && (#[trigger] m@[q]).0@ == key@;
                        if q < i {
                            assert(m@[q].0@ != m@[i as int].0@);
                        } else if i < q {
                            assert(m@[i as int].0@ != m@[q].0@);
                        }
                        assert(m@[i as int].1.wf());
                    }
                    Some(&m[i].1)
                },
                None => None,
            },
            _ => None,
        }
    }

    pub fn as_str(&self) -> (r: Option<&str>)
        ensures
            match r {
                Some(s) => self.value().text() == Some(s@),
                None => self.value().text() is None,
            },
    {
        match self {
            Json::Str(s) => Some(s.as_str()),
            _ => None,
        }
    }

    pub fn as_u64(&self) -> (r: Option<u64>)
        ensures
            r == self.value().whole(),
    {
        match self {
            Json::Num(n) => n.whole,
            _ => None,
        }
    }

    /// The items of an array; none of anything else.
    pub fn as_arr(&self) -> (r: &[Json])
        requires
            self.wf(),
        ensures
            values(r@) == self.value().items(),
            forall|i: int| 0 <= i < r@.len() ==> (#[trigger] r@[i]).wf(),
    {
        match self {
            Json::Arr(a) => {
                assert(values(a@) =~= self.value().items());
                a.as_slice()
            },
            _ => {
                let none: &[Json] = &[];
                assert(values(none@) =~= Seq::<Value>::empty());
                none
            },
        }
    }
}

} // verus!
