//! Host and shader layout agreement, from the reflection that the shader compiler writes. A shader
//! module is only turned into a pipeline after its reflection matches the layout the host code
//! declares: binding names and indices, and every struct field's offset and size.
pub use crate::gpu::json::{Json, JsonError};
use crate::gpu::json::{reads, same_text, text_value, values, Reading, Value};
use vstd::prelude::*;
use vstd::utf8::{encode_utf8, encode_utf8_decode_utf8};

verus! {

/// One struct field the host expects: name, byte offset, byte size.
#[derive(Clone, Copy, Debug, PartialEq, Eq)]
pub struct Field {
    pub name: &'static str,
    pub offset: u64,
    pub size: u64,
}

/// What the host declares about one shader parameter.
#[derive(Debug, PartialEq, Eq)]
pub enum Param {
    /// A descriptor at `binding` (set 0). `element` is the struct layout of a structured buffer's
    /// element, or empty for a scalar/vector element.
    Descriptor { name: &'static str, binding: u64, element: Vec<Field> },
    /// The push-constant block and its fields.
    PushConstants { name: &'static str, fields: Vec<Field> },
}

/// A field's name, offset and size.
pub type FieldView = (Seq<char>, u64, u64);

pub open spec fn declared_fields(fs: Seq<Field>) -> Seq<FieldView> {
    Seq::new(fs.len(), |i: int| (fs[i].name@, fs[i].offset, fs[i].size))
}

impl Param {
    pub open spec fn spec_name(self) -> Seq<char> {
        match self {
            Param::Descriptor { name, .. } => name@,
            Param::PushConstants { name, .. } => name@,
        }
    }

    pub open spec fn spec_fields(self) -> Seq<FieldView> {
        match self {
            Param::Descriptor { element, .. } => declared_fields(element@),
            Param::PushConstants { fields, .. } => declared_fields(fields@),
        }
    }

    fn name(&self) -> (r: &'static str)
        ensures
            r@ == self.spec_name(),
    {
        match self {
            Param::Descriptor { name, .. } => name,
            Param::PushConstants { name, .. } => name,
        }
    }
}

/// Where a shader and the host's declaration disagree.
#[derive(Debug, PartialEq, Eq)]
pub enum Mismatch {
    /// The reflection cannot be read.
    NotJson { error: JsonError },
    NotInShader { name: String },
    /// Not a descriptor at the declared index.
    Binding { name: String, kind: Option<String>, index: Option<u64>, want: u64 },
    /// Not the push constants.
    Kind { name: String, kind: Option<String> },
    Fields { name: String, got: Vec<(String, u64, u64)>, want: Vec<(String, u64, u64)> },
    /// In the shader but not declared by the host.
    Undeclared { name: String },
}

pub enum Fault {
    NotJson(JsonError),
    NotInShader(Seq<char>),
    Binding(Seq<char>, Option<Seq<char>>, Option<u64>, u64),
    Kind(Seq<char>, Option<Seq<char>>),
    Fields(Seq<char>, Seq<FieldView>, Seq<FieldView>),
    Undeclared(Seq<char>),
}

pub open spec fn text_of(s: Option<String>) -> Option<Seq<char>> {
    match s {
        Some(t) => Some(t@),
        None => None,
    }
}

pub open spec fn fields_view(fs: Seq<(String, u64, u64)>) -> Seq<FieldView> {
    Seq::new(fs.len(), |i: int| (fs[i].0@, fs[i].1, fs[i].2))
}

impl Mismatch {
    pub open spec fn fault(self) -> Fault {
        match self {
            Mismatch::NotJson { error } => Fault::NotJson(error),
            Mismatch::NotInShader { name } => Fault::NotInShader(name@),
            Mismatch::Binding { name, kind, index, want } => Fault::Binding(name@, text_of(kind), index, want),
            Mismatch::Kind { name, kind } => Fault::Kind(name@, text_of(kind)),
            Mismatch::Fields { name, got, want } => Fault::Fields(name@, fields_view(got@), fields_view(want@)),
            Mismatch::Undeclared { name } => Fault::Undeclared(name@),
        }
    }
}

pub open spec fn all_faults(ms: Seq<Mismatch>) -> Seq<Fault> {
    Seq::new(ms.len(), |i: int| ms[i].fault())
}

pub open spec fn get_in(v: Option<Value>, key: Seq<char>) -> Option<Value> {
    match v {
        Some(x) => x.get(key),
        None => None,
    }
}

pub open spec fn text_in(v: Option<Value>) -> Option<Seq<char>> {
    match v {
        Some(x) => x.text(),
        None => None,
    }
}

pub open spec fn whole_in(v: Option<Value>) -> Option<u64> {
    match v {
        Some(x) => x.whole(),
        None => None,
    }
}

pub open spec fn items_in(v: Option<Value>) -> Seq<Value> {
    match v {
        Some(x) => x.items(),
        None => Seq::empty(),
    }
}

pub open spec fn text_or_none(v: Option<Value>) -> Seq<char> {
    match text_in(v) {
        Some(t) => t,
        None => Seq::empty(),
    }
}

pub open spec fn whole_or_max(v: Option<Value>) -> u64 {
    match whole_in(v) {
        Some(n) => n,
        None => u64::MAX,
    }
}

/// A reflected struct field. What is missing counts as unnamed, or as beyond every offset.
pub open spec fn field_of(x: Value) -> FieldView {
    let b = x.get("binding"@);
    (text_or_none(x.get("name"@)), whole_or_max(get_in(b, "offset"@)), whole_or_max(get_in(b, "size"@)))
}

/// The fields of a reflected type.
pub open spec fn fields_in(ty: Option<Value>) -> Seq<FieldView> {
    let f = items_in(get_in(ty, "fields"@));
    Seq::new(f.len(), |i: int| field_of(f[i]))
}

/// The parameter of each name among the first `n`; of two with one name, the last.
pub open spec fn named(params: Seq<Value>, n: nat) -> Map<Seq<char>, int>
    decreases n,
{
    if n == 0 {
        Map::empty()
    } else {
        let before = named(params, (n - 1) as nat);
        match text_in(params[n - 1].get("name"@)) {
            Some(t) => before.insert(t, n - 1),
            None => before,
        }
    }
}

/// Where parameter `e` disagrees with the shader's parameters.
pub open spec fn param_faults(params: Seq<Value>, e: Param) -> Seq<Fault> {
    let name = e.spec_name();
    let by_name = named(params, params.len());
    if !by_name.dom().contains(name) {
        seq![Fault::NotInShader(name)]
    } else {
        let p = params[by_name[name]];
        let binding = p.get("binding"@);
        let kind = text_in(get_in(binding, "kind"@));
        let ty = p.get("type"@);
        let got = match e {
            Param::Descriptor { .. } => fields_in(get_in(ty, "resultType"@)),
            Param::PushConstants { .. } => fields_in(get_in(ty, "elementType"@)),
        };
        let first = match e {
            Param::Descriptor { binding: want, .. } => {
                let index = whole_in(get_in(binding, "index"@));
                if kind != Some("descriptorTableSlot"@) || index != Some(want) {
                    seq![Fault::Binding(name, kind, index, want)]
                } else {
                    Seq::empty()
                }
            },
            Param::PushConstants { .. } => if kind != Some("pushConstantBuffer"@) {
                seq![Fault::Kind(name, kind)]
            } else {
                Seq::empty()
            },
        };
        let second = if got != e.spec_fields() {
            seq![Fault::Fields(name, got, e.spec_fields())]
        } else {
            Seq::empty()
        };
        first + second
    }
}

/// Where the first `n` declared parameters disagree.
pub open spec fn declared_faults(params: Seq<Value>, expected: Seq<Param>, n: nat) -> Seq<Fault>
    decreases n,
{
    if n == 0 {
        Seq::empty()
    } else {
        declared_faults(params, expected, (n - 1) as nat) + param_faults(params, expected[n - 1])
    }
}

/// The host declares a parameter named `name`.
pub open spec fn is_declared(expected: Seq<Param>, name: Seq<char>) -> bool {
    exists|i: int| 0 <= i < expected.len() && (#[trigger] expected[i]).spec_name() == name
}

/// The first `n` of `order` that the host does not declare.
pub open spec fn undeclared(order: Seq<Seq<char>>, expected: Seq<Param>, n: nat) -> Seq<Fault>
    decreases n,
{
    if n == 0 {
        Seq::empty()
    } else {
        let before = undeclared(order, expected, (n - 1) as nat);
        if is_declared(expected, order[n - 1]) {
            before
        } else {
            before.push(Fault::Undeclared(order[n - 1]))
        }
    }
}

/// Byte order.
pub open spec fn bytes_lt(a: Seq<u8>, b: Seq<u8>) -> bool
    decreases a.len(),
{
    if b.len() == 0 {
        false
    } else if a.len() == 0 {
        true
    } else if a[0] != b[0] {
        a[0] < b[0]
    } else {
        bytes_lt(a.drop_first(), b.drop_first())
    }
}

/// The order of texts: that of their bytes.
pub open spec fn text_lt(a: Seq<char>, b: Seq<char>) -> bool {
    bytes_lt(encode_utf8(a), encode_utf8(b))
}

/// `order` are the names of `s`, in order.
pub open spec fn name_order(order: Seq<Seq<char>>, s: Set<Seq<char>>) -> bool {
    &&& forall|i: int, j: int| 0 <= i < j < order.len() ==> text_lt(#[trigger] order[i], #[trigger] order[j])
    &&& forall|t: Seq<char>| #[trigger] order.contains(t) <==> s.contains(t)
}

/// `fs` are the disagreements of a shader, whose reflection is `root`, with the declaration: first
/// those of the declared parameters, then the undeclared ones by name.
pub open spec fn disagreements(root: Value, expected: Seq<Param>, fs: Seq<Fault>) -> bool {
    let params = items_in(root.get("parameters"@));
    exists|order: Seq<Seq<char>>| #[trigger]
        name_order(order, named(params, params.len()).dom()) && fs == declared_faults(params, expected, expected.len()) + undeclared(
            order,
            expected,
            order.len(),
        )
}

proof fn lemma_bytes_irreflexive(a: Seq<u8>)
    ensures
        !bytes_lt(a, a),
    decreases a.len(),
{
    if a.len() > 0 {
        lemma_bytes_irreflexive(a.drop_first());
    }
}

proof fn lemma_bytes_transitive(a: Seq<u8>, b: Seq<u8>, c: Seq<u8>)
    requires
        bytes_lt(a, b),
        bytes_lt(b, c),
    ensures
        bytes_lt(a, c),
    decreases a.len(),
{
    if a.len() > 0 && b.len() > 0 && c.len() > 0 && a[0] == b[0] && b[0] == c[0] {
        lemma_bytes_transitive(a.drop_first(), b.drop_first(), c.drop_first());
    }
}

proof fn lemma_bytes_total(a: Seq<u8>, b: Seq<u8>)
    ensures
        bytes_lt(a, b) || bytes_lt(b, a) || a == b,
    decreases a.len(),
{
    if a.len() == 0 {
        if b.len() == 0 {
            assert(a =~= b);
        }
    } else if b.len() > 0 && a[0] == b[0] {
        lemma_bytes_total(a.drop_first(), b.drop_first());
        if a.drop_first() == b.drop_first() {
            assert(a.drop_first().len() == b.drop_first().len());
            assert forall|i: int| 0 <= i < a.len() implies a[i] == b[i] by {
                if i > 0 {
                    assert(a[i] == a.drop_first()[i - 1]);
                    assert(b[i] == b.drop_first()[i - 1]);
                }
            }
            assert(a =~= b);
        }
    }
}

proof fn lemma_text_order(a: Seq<char>, b: Seq<char>, c: Seq<char>)
    ensures
        !text_lt(a, a),
        text_lt(a, b) && text_lt(b, c) ==> text_lt(a, c),
        text_lt(a, b) || text_lt(b, a) || a == b,
{
    let (x, y, z) = (encode_utf8(a), encode_utf8(b), encode_utf8(c));
    lemma_bytes_irreflexive(x);
    if bytes_lt(x, y) && bytes_lt(y, z) {
        lemma_bytes_transitive(x, y, z);
    }
    lemma_bytes_total(x, y);
    encode_utf8_decode_utf8(a);
    encode_utf8_decode_utf8(b);
}

fn text_before(a: &str, b: &str) -> (r: bool)
    ensures
        r == text_lt(a@, b@),
{
    let x = a.as_bytes();
    let y = b.as_bytes();
    let mut i: usize = 0;
    assert(x@.skip(0) =~= x@);
    assert(y@.skip(0) =~= y@);
    while i < x.len() && i < y.len()
        invariant
            i <= x@.len(),
            i <= y@.len(),
            x@ == encode_utf8(a@),
            y@ == encode_utf8(b@),
            bytes_lt(x@, y@) == bytes_lt(x@.skip(i as int), y@.skip(i as int)),
        decreases x@.len() - i,
    {
        proof {
            assert(x@.skip(i as int)[0] == x@[i as int]);
            assert(y@.skip(i as int)[0] == y@[i as int]);
            assert(x@.skip(i as int).drop_first() =~= x@.skip(i + 1));
            assert(y@.skip(i as int).drop_first() =~= y@.skip(i + 1));
        }
        if x[i] != y[i] {
            return x[i] < y[i];
        }
        i += 1;
    }
    i < y.len()
}

fn get_from<'a>(v: Option<&'a Json>, key: &str) -> (r: Option<&'a Json>)
    requires
        v matches Some(x) ==> x.wf(),
    ensures
        r matches Some(x) ==> x.wf(),
        value_in(r) == get_in(value_in(v), key@),
{
    match v {
        Some(x) => x.get(key),
        None => None,
    }
}

/// What an optional tree stands for.
pub open spec fn value_in(v: Option<&Json>) -> Option<Value> {
    match v {
        Some(x) => Some(x.value()),
        None => None,
    }
}

fn text_from<'a>(v: Option<&'a Json>) -> (r: Option<&'a str>)
    ensures
        match r {
            Some(t) => text_in(value_in(v)) == Some(t@),
            None => text_in(value_in(v)) is None,
        },
{
    match v {
        Some(x) => x.as_str(),
        None => None,
    }
}

fn owned_text(v: Option<&Json>) -> (r: String)
    ensures
        r@ == text_or_none(value_in(v)),
{
    match text_from(v) {
        Some(t) => t.to_owned(),
        None => String::new(),
    }
}

fn owned(t: Option<&str>) -> (r: Option<String>)
    ensures
        text_of(r) == match t {
            Some(s) => Some(s@),
            None => None::<Seq<char>>,
        },
{
    match t {
        Some(s) => Some(s.to_owned()),
        None => None,
    }
}

fn whole_from(v: Option<&Json>) -> (r: Option<u64>)
    ensures
        r == whole_in(value_in(v)),
{
    match v {
        Some(x) => x.as_u64(),
        None => None,
    }
}

fn whole_from_or_max(v: Option<&Json>) -> (r: u64)
    ensures
        r == whole_or_max(value_in(v)),
{
    match whole_from(v) {
        Some(n) => n,
        None => u64::MAX,
    }
}

fn items_from<'a>(v: Option<&'a Json>) -> (r: &'a [Json])
    requires
        v matches Some(x) ==> x.wf(),
    ensures
        values(r@) == items_in(value_in(v)),
        forall|i: int| 0 <= i < r@.len() ==> (#[trigger] r@[i]).wf(),
{
    match v {
        Some(x) => x.as_arr(),
        None => {
            let none: &[Json] = &[];
            assert(values(none@) =~= Seq::<Value>::empty());
            none
        },
    }
}

fn fields_from(ty: Option<&Json>) -> (r: Vec<(String, u64, u64)>)
    requires
        ty matches Some(x) ==> x.wf(),
    ensures
        fields_view(r@) == fields_in(value_in(ty)),
{
    let f = items_from(get_from(ty, "fields"));
    let mut out: Vec<(String, u64, u64)> = Vec::new();
    let ghost want = fields_in(value_in(ty));
    let mut i: usize = 0;
    while i < f.len()
        invariant
            i <= f@.len(),
            out@.len() == i,
            want.len() == f@.len(),
            forall|j: int| 0 <= j < f@.len() ==> (#[trigger] f@[j]).wf(),
            forall|j: int| 0 <= j < f@.len() ==> #[trigger] want[j] == field_of(f@[j].value()),
            forall|j: int| 0 <= j < i ==> ((#[trigger] out@[j]).0@, out@[j].1, out@[j].2) == want[j],
        decreases f@.len() - i,
    {
        let x = &f[i];
        assert(x.wf());
        let b = x.get("binding");
        let name = owned_text(x.get("name"));
        let offset: u64 = whole_from_or_max(get_from(b, "offset"));
        let size: u64 = whole_from_or_max(get_from(b, "size"));
        assert(want[i as int] == field_of(x.value()));
        out.push((name, offset, size));
        i += 1;
    }
    assert(fields_view(out@) =~= want);
    out
}

fn owned_fields(fs: &Vec<Field>) -> (r: Vec<(String, u64, u64)>)
    ensures
        fields_view(r@) == declared_fields(fs@),
{
    let mut out: Vec<(String, u64, u64)> = Vec::new();
    let mut i: usize = 0;
    while i < fs.len()
        invariant
            i <= fs@.len(),
            out@.len() == i,
            forall|j: int| 0 <= j < i ==> ((#[trigger] out@[j]).0@, out@[j].1, out@[j].2) == declared_fields(fs@)[j],
        decreases fs@.len() - i,
    {
        out.push((fs[i].name.to_owned(), fs[i].offset, fs[i].size));
        i += 1;
    }
    assert(fields_view(out@) =~= declared_fields(fs@));
    out
}

fn same_fields(a: &Vec<(String, u64, u64)>, b: &Vec<(String, u64, u64)>) -> (r: bool)
    ensures
        r == (fields_view(a@) == fields_view(b@)),
{
    let ghost x = fields_view(a@);
    let ghost y = fields_view(b@);
    if a.len() != b.len() {
        assert(x.len() != y.len());
        return false;
    }
    let mut i: usize = 0;
    while i < a.len()
        invariant
            i <= a@.len(),
            a@.len() == b@.len(),
            x == fields_view(a@),
            y == fields_view(b@),
            forall|j: int| 0 <= j < i ==> #[trigger] x[j] == y[j],
        decreases a@.len() - i,
    {
        if !same_text(a[i].0.as_str(), b[i].0.as_str()) || a[i].1 != b[i].1 || a[i].2 != b[i].2 {
            assert(x[i as int] != y[i as int]);
            return false;
        }
        i += 1;
    }
    assert(x =~= y);
    true
}

/// The shader's parameters by name.
struct Names {
    /// Name and place, by name.
    list: Vec<(String, usize)>,
}

impl Names {
    spec fn wf(&self) -> bool {
        forall|i: int, j: int| 0 <= i < j < self.list@.len() ==> text_lt((#[trigger] self.list@[i]).0@, (#[trigger] self.list@[j]).0@)
    }

    spec fn order(&self) -> Seq<Seq<char>> {
        Seq::new(self.list@.len(), |i: int| self.list@[i].0@)
    }

    /// The list holds `m`.
    spec fn holds(&self, m: Map<Seq<char>, int>) -> bool {
        &&& forall|i: int| 0 <= i < self.list@.len() ==> m.dom().contains((#[trigger] self.list@[i]).0@) && m[self.list@[i].0@]
            == self.list@[i].1
        &&& forall|t: Seq<char>| #[trigger] m.dom().contains(t) ==> self.order().contains(t)
    }

    /// The place of `name` in the list, or where it would stand.
    fn seek(&self, name: &str) -> (r: usize)
        requires
            self.wf(),
        ensures
            r <= self.list@.len(),
            forall|j: int| 0 <= j < r ==> text_lt((#[trigger] self.list@[j]).0@, name@),
            forall|j: int| r <= j < self.list@.len() ==> !text_lt((#[trigger] self.list@[j]).0@, name@),
    {
        let mut i: usize = 0;
        while i < self.list.len() && text_before(self.list[i].0.as_str(), name)
            invariant
                i <= self.list@.len(),
                forall|j: int| 0 <= j < i ==> text_lt((#[trigger] self.list@[j]).0@, name@),
            decreases self.list@.len() - i,
        {
            i += 1;
        }
        proof {
            assert forall|j: int| i <= j < self.list@.len() implies !text_lt((#[trigger] self.list@[j]).0@, name@) by {
                if j > i {
                    assert(text_lt(self.list@[i as int].0@, self.list@[j].0@));
                    lemma_text_order(self.list@[i as int].0@, self.list@[j].0@, name@);
                }
            }
        }
        i
    }

    fn find(&self, name: &str) -> (r: Option<usize>)
        requires
            self.wf(),
        ensures
            forall|m: Map<Seq<char>, int>| #[trigger]
                self.holds(m) ==> match r {
                    Some(i) => m.dom().contains(name@) && m[name@] == i,
                    None => !m.dom().contains(name@),
                },
    {
        let i: usize = self.seek(name);
        if i < self.list.len() && same_text(self.list[i].0.as_str(), name) {
            assert(self.list@[i as int].0@ == name@);
            Some(self.list[i].1)
        } else {
            proof {
                assert forall|m: Map<Seq<char>, int>| #[trigger] self.holds(m) implies !m.dom().contains(name@) by {
                    if m.dom().contains(name@) {
                        assert(self.order().contains(name@));
                        let j = choose|j: int| 0 <= j < self.order().len() && self.order()[j] == name@;
                        assert(self.list@[j].0@ == name@);
                        lemma_text_order(name@, name@, name@);
                        if j > i {
                            assert(text_lt(self.list@[i as int].0@, self.list@[j].0@));
                        }
                    }
                }
            }
            None
        }
    }

    /// Binds `name` to `place`.
    fn bind(&mut self, name: String, place: usize)
        requires
            old(self).wf(),
        ensures
            final(self).wf(),
            forall|m: Map<Seq<char>, int>| #[trigger] old(self).holds(m) ==> final(self).holds(m.insert(name@, place as int)),
    {
        let i: usize = self.seek(name.as_str());
        let ghost was = *self;
        let ghost t = name@;
        if i < self.list.len() && same_text(self.list[i].0.as_str(), name.as_str()) {
            self.list.set(i, (name, place));
            proof {
                assert forall|a: int, b: int| 0 <= a < b < self.list@.len() implies text_lt(
                    (#[trigger] self.list@[a]).0@,
                    (#[trigger] self.list@[b]).0@,
                ) by {
                    assert(text_lt(was.list@[a].0@, was.list@[b].0@));
                }
                assert forall|m: Map<Seq<char>, int>| #[trigger] was.holds(m) implies self.holds(m.insert(t, place as int)) by {
                    let n = m.insert(t, place as int);
                    assert forall|a: int| 0 <= a < self.list@.len() implies n.dom().contains((#[trigger] self.list@[a]).0@)
                        && n[self.list@[a].0@] == self.list@[a].1 by {
                        assert(m.dom().contains(was.list@[a].0@));
                        if a != i {
                            lemma_text_order(t, t, t);
                            if a < i {
                                assert(text_lt(was.list@[a].0@, was.list@[i as int].0@));
                            } else {
                                assert(text_lt(was.list@[i as int].0@, was.list@[a].0@));
                            }
                        }
                    }
                    assert forall|x: Seq<char>| #[trigger] n.dom().contains(x) implies self.order().contains(x) by {
                        if x == t {
                            assert(self.order()[i as int] == t);
                        } else {
                            assert(was.order().contains(x));
                            let j = choose|j: int| 0 <= j < was.order().len() && was.order()[j] == x;
                            assert(self.order()[j] == x);
                        }
                    }
                }
            }
        } else {
            self.list.insert(i, (name, place));
            proof {
                let now = self.list@;
                let old = was.list@;
                assert(now =~= old.insert(i as int, now[i as int]));
                if i < old.len() {
                    lemma_text_order(old[i as int].0@, t, t);
                    assert(text_lt(t, old[i as int].0@));
                }
                assert forall|a: int, b: int| 0 <= a < b < now.len() implies text_lt((#[trigger] now[a]).0@, (#[trigger] now[b]).0@) by {
                    let y = if b < i {
                        b
                    } else {
                        b - 1
                    };
                    if a == i {
                        assert(now[b] == old[y]);
                        if y > i {
                            assert(text_lt(old[i as int].0@, old[y].0@));
                            lemma_text_order(t, old[i as int].0@, old[y].0@);
                        }
                    } else if b == i {
                        assert(now[a] == old[a]);
                    } else {
                        let x = if a < i {
                            a
                        } else {
                            a - 1
                        };
                        assert(now[a] == old[x] && now[b] == old[y]);
                        assert(text_lt(old[x].0@, old[y].0@));
                    }
                }
                assert forall|m: Map<Seq<char>, int>| #[trigger] was.holds(m) implies self.holds(m.insert(t, place as int)) by {
                    let n = m.insert(t, place as int);
                    lemma_text_order(t, t, t);
                    assert forall|a: int| 0 <= a < now.len() implies n.dom().contains((#[trigger] self.list@[a]).0@) && n[self.list@[a].0@]
                        == self.list@[a].1 by {
                        if a < i {
                            assert(now[a] == old[a]);
                            assert(text_lt(old[a].0@, t));
                        } else if a > i {
                            assert(now[a] == old[a - 1]);
                            if a - 1 > i {
                                assert(text_lt(old[i as int].0@, old[a - 1].0@));
                                lemma_text_order(t, old[i as int].0@, old[a - 1].0@);
                            }
                            assert(text_lt(t, old[a - 1].0@));
                        }
                    }
                    assert forall|x: Seq<char>| #[trigger] n.dom().contains(x) implies self.order().contains(x) by {
                        if x == t {
                            assert(self.order()[i as int] == t);
                        } else {
                            assert(was.order().contains(x));
                            let j = choose|j: int| 0 <= j < was.order().len() && was.order()[j] == x;
                            if j < i {
                                assert(self.order()[j] == x);
                            } else {
                                assert(self.order()[j + 1] == x);
                            }
                        }
                    }
                }
            }
        }
    }
}

fn names_of(params: &[Json]) -> (r: Names)
    requires
        forall|i: int| 0 <= i < params@.len() ==> (#[trigger] params@[i]).wf(),
    ensures
        r.wf(),
        r.holds(named(values(params@), params@.len())),
{
    let mut names = Names { list: Vec::new() };
    let ghost ps = values(params@);
    let mut i: usize = 0;
    while i < params.len()
        invariant
            i <= params@.len(),
            ps == values(params@),
            forall|j: int| 0 <= j < params@.len() ==> (#[trigger] params@[j]).wf(),
            names.wf(),
            names.holds(named(ps, i as nat)),
        decreases params@.len() - i,
    {
        let p = &params[i];
        assert(p.wf());
        assert(ps[i as int] == p.value());
        if let Some(t) = text_from(p.get("name")) {
            names.bind(t.to_owned(), i);
        }
        i += 1;
    }
    names
}

fn check_param(params: &[Json], names: &Names, e: &Param, errors: &mut Vec<Mismatch>)
    requires
        forall|i: int| 0 <= i < params@.len() ==> (#[trigger] params@[i]).wf(),
        names.wf(),
        names.holds(named(values(params@), params@.len())),
    ensures
        all_faults(final(errors)@) == all_faults(old(errors)@) + param_faults(values(params@), *e),
{
    let ghost ps = values(params@);
    let ghost was = errors@;
    let ghost by_name = named(ps, ps.len());
    let name = e.name();
    let at: usize = match names.find(name) {
        None => {
            errors.push(Mismatch::NotInShader { name: name.to_owned() });
            assert(all_faults(errors@) =~= all_faults(was) + param_faults(ps, *e));
            return ;
        },
        Some(i) => i,
    };
    proof {
        lemma_named_range(ps, ps.len());
        assert(ps.len() == params@.len());
    }
    let p = &params[at];
    assert(p.wf());
    assert(ps[at as int] == p.value());
    let binding = p.get("binding");
    let kind = text_from(get_from(binding, "kind"));
    let ty = p.get("type");
    let (got, want) = match e {
        Param::Descriptor { binding: slot, element, .. } => {
            let index = whole_from(get_from(binding, "index"));
            let right_kind = match kind {
                Some(k) => same_text(k, "descriptorTableSlot"),
                None => false,
            };
            let right_slot = match index {
                Some(n) => n == *slot,
                None => false,
            };
            if !right_kind || !right_slot {
                errors.push(Mismatch::Binding { name: name.to_owned(), kind: owned(kind), index, want: *slot });
            }
            (fields_from(get_from(ty, "resultType")), owned_fields(element))
        },
        Param::PushConstants { fields, .. } => {
            let right_kind = match kind {
                Some(k) => same_text(k, "pushConstantBuffer"),
                None => false,
            };
            if !right_kind {
                errors.push(Mismatch::Kind { name: name.to_owned(), kind: owned(kind) });
            }
            (fields_from(get_from(ty, "elementType")), owned_fields(fields))
        },
    };
    let ghost mid = errors@;
    if !same_fields(&got, &want) {
        errors.push(Mismatch::Fields { name: name.to_owned(), got, want });
    }
    assert(all_faults(errors@) =~= all_faults(was) + param_faults(ps, *e));
}

proof fn lemma_named_range(ps: Seq<Value>, n: nat)
    requires
        n <= ps.len(),
    ensures
        forall|t: Seq<char>| #[trigger] named(ps, n).dom().contains(t) ==> 0 <= named(ps, n)[t] < n,
    decreases n,
{
    if n > 0 {
        lemma_named_range(ps, (n - 1) as nat);
        let before = named(ps, (n - 1) as nat);
        assert forall|t: Seq<char>| #[trigger] named(ps, n).dom().contains(t) implies 0 <= named(ps, n)[t] < n by {
            if before.dom().contains(t) {
                assert(0 <= before[t] < n - 1);
            }
        }
    }
}

/// `fs` is what a reflection text says against the declaration: that it cannot be read, or the
/// disagreements.
pub open spec fn says(text: Seq<char>, f: Reading, expected: Seq<Param>, fs: Seq<Fault>) -> bool {
    match text_value(encode_utf8(text), f) {
        Err(e) => fs == seq![Fault::NotJson(e)],
        Ok(root) => disagreements(root, expected, fs),
    }
}

/// Checks a module's reflection against the host's declaration. Every declared parameter must be
/// present with the same binding and field layout, and the module must have no undeclared
/// parameter. Numbers are read by `read`.
pub fn check<F: Fn(&[u8]) -> Option<Option<u64>>>(reflection: &str, expected: &[Param], read: &F) -> (r: Result<(), Vec<Mismatch>>)
    requires
        forall|t: &[u8]| read.requires((t,)),
    ensures
        forall|f: Reading| #[trigger]
            reads(*read, f) ==> match r {
                Ok(_) => says(reflection@, f, expected@, Seq::empty()),
                Err(ms) => ms@.len() > 0 && says(reflection@, f, expected@, all_faults(ms@)),
            },
{
    let root = match Json::parse(reflection, read) {
        Err(error) => {
            let mut ms: Vec<Mismatch> = Vec::new();
            ms.push(Mismatch::NotJson { error });
            assert(all_faults(ms@) =~= seq![Fault::NotJson(error)]);
            return Err(ms);
        },
        Ok(root) => root,
    };
    let params = items_from(root.get("parameters"));
    let ghost ps = values(params@);
    assert(ps == items_in(root.value().get("parameters"@)));
    let names = names_of(params);
    let mut errors: Vec<Mismatch> = Vec::new();
    let n: usize = expected.len();
    let mut i: usize = 0;
    assert(all_faults(errors@) =~= declared_faults(ps, expected@, 0));
    while i < n
        invariant
            i <= n,
            n == expected@.len(),
            ps == values(params@),
            forall|j: int| 0 <= j < params@.len() ==> (#[trigger] params@[j]).wf(),
            names.wf(),
            names.holds(named(ps, params@.len())),
            all_faults(errors@) == declared_faults(ps, expected@, i as nat),
        decreases n - i,
    {
        check_param(params, &names, &expected[i], &mut errors);
        i += 1;
    }
    let ghost order = names.order();
    let ghost first = all_faults(errors@);
    let m: usize = names.list.len();
    let mut i: usize = 0;
    assert(all_faults(errors@) =~= first + undeclared(order, expected@, 0));
    while i < m
        invariant
            i <= m,
            m == names.list@.len(),
            order == names.order(),
            all_faults(errors@) == first + undeclared(order, expected@, i as nat),
        decreases m - i,
    {
        let ghost was = errors@;
        let name = names.list[i].0.as_str();
        assert(order[i as int] == name@);
        if !declares(expected, name) {
            errors.push(Mismatch::Undeclared { name: name.to_owned() });
            assert(all_faults(errors@) =~= all_faults(was).push(Fault::Undeclared(name@)));
            assert(first + undeclared(order, expected@, (i + 1) as nat) =~= (first + undeclared(order, expected@, i as nat)).push(
                Fault::Undeclared(name@),
            ));
        }
        i += 1;
    }
    proof {
        let by_name = named(ps, ps.len());
        assert(name_order(order, by_name.dom())) by {
            assert forall|i: int, j: int| 0 <= i < j < order.len() implies text_lt(#[trigger] order[i], #[trigger] order[j]) by {
                assert(text_lt(names.list@[i].0@, names.list@[j].0@));
            }
            assert forall|t: Seq<char>| #[trigger] order.contains(t) <==> by_name.dom().contains(t) by {
                if order.contains(t) {
                    let j = choose|j: int| 0 <= j < order.len() && order[j] == t;
                    assert(names.list@[j].0@ == t);
                }
            }
        }
        assert(disagreements(root.value(), expected@, all_faults(errors@)));
    }
    if errors.len() == 0 {
        assert(all_faults(errors@) =~= Seq::<Fault>::empty());
        Ok(())
    } else {
        Err(errors)
    }
}

proof fn lemma_no_faults(params: Seq<Value>, expected: Seq<Param>, n: nat, i: int)
    requires
        0 <= i < n <= expected.len(),
        declared_faults(params, expected, n).len() == 0,
    ensures
        param_faults(params, expected[i]).len() == 0,
    decreases n,
{
    if i < n - 1 {
        lemma_no_faults(params, expected, (n - 1) as nat, i);
    }
}

/// Two declarations that a module agrees with say the same of every parameter they share: a moved
/// field, another size or another binding is refused.
pub proof fn law_matching_declarations_agree(root: Value, a: Seq<Param>, b: Seq<Param>, i: int, j: int)
    requires
        disagreements(root, a, Seq::empty()),
        disagreements(root, b, Seq::empty()),
        0 <= i < a.len(),
        0 <= j < b.len(),
        a[i].spec_name() == b[j].spec_name(),
        a[i] is Descriptor == b[j] is Descriptor,
    ensures
        a[i].spec_fields() == b[j].spec_fields(),
        a[i] is Descriptor ==> a[i]->binding == b[j]->binding,
{
    let params = items_in(root.get("parameters"@));
    let d = declared_faults(params, a, a.len());
    let e = declared_faults(params, b, b.len());
    assert(d.len() == 0) by {
        let order = choose|order: Seq<Seq<char>>| #[trigger]
            name_order(order, named(params, params.len()).dom()) && Seq::<Fault>::empty() == d + undeclared(order, a, order.len());
        assert((d + undeclared(order, a, order.len())).len() == 0);
    }
    assert(e.len() == 0) by {
        let order = choose|order: Seq<Seq<char>>| #[trigger]
            name_order(order, named(params, params.len()).dom()) && Seq::<Fault>::empty() == e + undeclared(order, b, order.len());
        assert((e + undeclared(order, b, order.len())).len() == 0);
    }
    lemma_no_faults(params, a, a.len(), i);
    lemma_no_faults(params, b, b.len(), j);
    lemma_clean_param(params, a[i]);
    lemma_clean_param(params, b[j]);
}

/// The fields the shader has for a declared parameter.
spec fn shader_fields(params: Seq<Value>, e: Param) -> Seq<FieldView> {
    let ty = params[named(params, params.len())[e.spec_name()]].get("type"@);
    match e {
        Param::Descriptor { .. } => fields_in(get_in(ty, "resultType"@)),
        Param::PushConstants { .. } => fields_in(get_in(ty, "elementType"@)),
    }
}

proof fn lemma_clean_param(params: Seq<Value>, e: Param)
    requires
        param_faults(params, e).len() == 0,
    ensures
        e.spec_fields() == shader_fields(params, e),
        e matches Param::Descriptor { binding, .. } ==> whole_in(
            get_in(params[named(params, params.len())[e.spec_name()]].get("binding"@), "index"@),
        ) == Some(binding),
{
    let by_name = named(params, params.len());
    assert(by_name.dom().contains(e.spec_name()));
}

fn declares(expected: &[Param], name: &str) -> (r: bool)
    ensures
        r == is_declared(expected@, name@),
{
    let mut i: usize = 0;
    while i < expected.len()
        invariant
            i <= expected@.len(),
            forall|j: int| 0 <= j < i ==> (#[trigger] expected@[j]).spec_name() != name@,
        decreases expected@.len() - i,
    {
        if same_text(expected[i].name(), name) {
            return true;
        }
        i += 1;
    }
    false
}

/// One value that passes between shader stages or into the attachments: a name, a location, a
/// scalar type and a component count. The vertex-input format and the attachment formats must
/// match these.
#[derive(Debug, PartialEq, Eq)]
pub struct Varying {
    pub name: String,
    pub location: u64,
    pub scalar: String,
    pub components: u64,
}

/// A varying's name, location, scalar type and component count.
pub type VaryingView = (Seq<char>, u64, Seq<char>, u64);

impl Varying {
    pub open spec fn shape(self) -> VaryingView {
        (self.name@, self.location, self.scalar@, self.components)
    }
}

pub open spec fn shapes(vs: Seq<Varying>) -> Seq<VaryingView> {
    Seq::new(vs.len(), |i: int| vs[i].shape())
}

/// Why a module's varyings cannot be told.
#[derive(Clone, Copy, Debug, PartialEq, Eq)]
pub enum VaryingError {
    NotJson(JsonError),
    /// The number of entry points, which is not one.
    EntryPoints(usize),
}

/// The varying of a binding and a type: it has a location, and is a scalar or a vector.
pub open spec fn varying_at(name: Seq<char>, binding: Option<Value>, ty: Option<Value>) -> Option<VaryingView> {
    match whole_in(get_in(binding, "index"@)) {
        None => None,
        Some(location) => {
            let kind = text_in(get_in(ty, "kind"@));
            if kind == Some("scalar"@) {
                match text_in(get_in(ty, "scalarType"@)) {
                    Some(scalar) => Some((name, location, scalar, 1)),
                    None => None,
                }
            } else if kind == Some("vector"@) {
                match (text_in(get_in(get_in(ty, "elementType"@), "scalarType"@)), whole_in(get_in(ty, "elementCount"@))) {
                    (Some(scalar), Some(n)) => Some((name, location, scalar, n)),
                    _ => None,
                }
            } else {
                None
            }
        },
    }
}

/// `vs` with the varying of `x` behind it, where `x` is bound as `kind` and has one.
pub open spec fn with_varying(vs: Seq<VaryingView>, kind: Seq<char>, name: Seq<char>, x: Value) -> Seq<VaryingView> {
    let b = x.get("binding"@);
    if text_in(get_in(b, "kind"@)) == Some(kind) {
        match varying_at(name, b, x.get("type"@)) {
            Some(v) => vs.push(v),
            None => vs,
        }
    } else {
        vs
    }
}

/// `vs` with the varyings of the first `n` of `xs` behind it.
pub open spec fn with_varyings(vs: Seq<VaryingView>, kind: Seq<char>, xs: Seq<Value>, n: nat) -> Seq<VaryingView>
    decreases n,
{
    if n == 0 {
        vs
    } else {
        let x = xs[n - 1];
        with_varying(with_varyings(vs, kind, xs, (n - 1) as nat), kind, text_or_none(x.get("name"@)), x)
    }
}

pub open spec fn inputs_of(entry: Value) -> Seq<VaryingView> {
    let ps = items_in(entry.get("parameters"@));
    with_varyings(Seq::empty(), "varyingInput"@, ps, ps.len())
}

/// A bare result is one unnamed output; a struct's fields are outputs of their own.
pub open spec fn outputs_of(entry: Value) -> Seq<VaryingView> {
    match entry.get("result"@) {
        None => Seq::empty(),
        Some(r) => {
            let fs = items_in(get_in(r.get("type"@), "fields"@));
            let bare = with_varying(Seq::empty(), "varyingOutput"@, ""@, r);
            with_varyings(bare, "varyingOutput"@, fs, fs.len())
        },
    }
}

fn varying_of(name: String, binding: Option<&Json>, ty: Option<&Json>) -> (r: Option<Varying>)
    requires
        binding matches Some(x) ==> x.wf(),
        ty matches Some(x) ==> x.wf(),
    ensures
        match r {
            Some(v) => varying_at(name@, value_in(binding), value_in(ty)) == Some(v.shape()),
            None => varying_at(name@, value_in(binding), value_in(ty)) is None,
        },
{
    let location: u64 = match whole_from(get_from(binding, "index")) {
        Some(n) => n,
        None => return None,
    };
    let kind = match text_from(get_from(ty, "kind")) {
        Some(k) => k,
        None => return None,
    };
    if same_text(kind, "scalar") {
        match text_from(get_from(ty, "scalarType")) {
            Some(s) => Some(Varying { name, location, scalar: s.to_owned(), components: 1 }),
            None => None,
        }
    } else if same_text(kind, "vector") {
        let scalar = text_from(get_from(get_from(ty, "elementType"), "scalarType"));
        let count = whole_from(get_from(ty, "elementCount"));
        match (scalar, count) {
            (Some(s), Some(components)) => Some(Varying { name, location, scalar: s.to_owned(), components }),
            _ => None,
        }
    } else {
        None
    }
}

fn push_varying(out: &mut Vec<Varying>, kind: &str, name: String, x: &Json)
    requires
        x.wf(),
    ensures
        shapes(final(out)@) == with_varying(shapes(old(out)@), kind@, name@, x.value()),
{
    let ghost was = out@;
    let b = x.get("binding");
    let bound = match text_from(get_from(b, "kind")) {
        Some(k) => same_text(k, kind),
        None => false,
    };
    if bound {
        if let Some(v) = varying_of(name, b, x.get("type")) {
            out.push(v);
            assert(shapes(out@) =~= shapes(was).push(v.shape()));
        }
    }
}

fn push_varyings(out: &mut Vec<Varying>, kind: &str, xs: &[Json])
    requires
        forall|i: int| 0 <= i < xs@.len() ==> (#[trigger] xs@[i]).wf(),
    ensures
        shapes(final(out)@) == with_varyings(shapes(old(out)@), kind@, values(xs@), xs@.len()),
{
    let ghost was = out@;
    let ghost vs = values(xs@);
    let mut i: usize = 0;
    while i < xs.len()
        invariant
            i <= xs@.len(),
            vs == values(xs@),
            forall|j: int| 0 <= j < xs@.len() ==> (#[trigger] xs@[j]).wf(),
            shapes(out@) == with_varyings(shapes(was), kind@, vs, i as nat),
        decreases xs@.len() - i,
    {
        let x = &xs[i];
        assert(x.wf());
        assert(vs[i as int] == x.value());
        push_varying(out, kind, owned_text(x.get("name")), x);
        i += 1;
    }
}

/// A module's varying inputs and outputs, from its reflection text.
pub open spec fn varyings_of(text: Seq<char>, f: Reading) -> Result<(Seq<VaryingView>, Seq<VaryingView>), VaryingError> {
    match text_value(encode_utf8(text), f) {
        Err(e) => Err(VaryingError::NotJson(e)),
        Ok(root) => {
            let entries = items_in(root.get("entryPoints"@));
            if entries.len() != 1 {
                Err(VaryingError::EntryPoints(entries.len() as usize))
            } else {
                Ok((inputs_of(entries[0]), outputs_of(entries[0])))
            }
        },
    }
}

/// The varying inputs and outputs of the module's single entry point. System values, which have no
/// location, are left out. Numbers are read by `read`.
pub fn varyings<F: Fn(&[u8]) -> Option<Option<u64>>>(reflection: &str, read: &F) -> (r: Result<
    (Vec<Varying>, Vec<Varying>),
    VaryingError,
>)
    requires
        forall|t: &[u8]| read.requires((t,)),
    ensures
        forall|f: Reading| #[trigger]
            reads(*read, f) ==> match r {
                Ok(io) => varyings_of(reflection@, f) == Ok::<(Seq<VaryingView>, Seq<VaryingView>), VaryingError>(
                    (shapes(io.0@), shapes(io.1@)),
                ),
                Err(e) => varyings_of(reflection@, f) == Err::<(Seq<VaryingView>, Seq<VaryingView>), VaryingError>(e),
            },
{
    let root = match Json::parse(reflection, read) {
        Err(error) => return Err(VaryingError::NotJson(error)),
        Ok(root) => root,
    };
    let entries = items_from(root.get("entryPoints"));
    if entries.len() != 1 {
        return Err(VaryingError::EntryPoints(entries.len()));
    }
    let entry = &entries[0];
    assert(entry.wf());
    assert(values(entries@)[0] == entry.value());
    let mut inputs: Vec<Varying> = Vec::new();
    assert(shapes(inputs@) =~= Seq::<VaryingView>::empty());
    push_varyings(&mut inputs, "varyingInput", items_from(entry.get("parameters")));
    let mut outputs: Vec<Varying> = Vec::new();
    assert(shapes(outputs@) =~= Seq::<VaryingView>::empty());
    if let Some(result) = entry.get("result") {
        let unnamed = "";
        push_varying(&mut outputs, "varyingOutput", unnamed.to_owned(), result);
        push_varyings(&mut outputs, "varyingOutput", items_from(get_from(result.get("type"), "fields")));
    }
    Ok((inputs, outputs))
}

/// Where a vertex and a fragment module disagree with the host.
#[derive(Debug, PartialEq, Eq)]
pub enum StageMismatch {
    Vertex(Mismatch),
    Fragment(Mismatch),
    /// The vertex inputs are not what the host expects.
    Inputs(Vec<Varying>),
    /// The fragment outputs are not what the host expects.
    Outputs(Vec<Varying>),
    /// The varyings of a stage cannot be told.
    Varyings { vertex: Option<VaryingError>, fragment: Option<VaryingError> },
}

pub enum StageFault {
    Vertex(Fault),
    Fragment(Fault),
    Inputs(Seq<VaryingView>),
    Outputs(Seq<VaryingView>),
    Varyings(Option<VaryingError>, Option<VaryingError>),
}

impl StageMismatch {
    pub open spec fn fault(self) -> StageFault {
        match self {
            StageMismatch::Vertex(m) => StageFault::Vertex(m.fault()),
            StageMismatch::Fragment(m) => StageFault::Fragment(m.fault()),
            StageMismatch::Inputs(v) => StageFault::Inputs(shapes(v@)),
            StageMismatch::Outputs(v) => StageFault::Outputs(shapes(v@)),
            StageMismatch::Varyings { vertex, fragment } => StageFault::Varyings(vertex, fragment),
        }
    }
}

pub open spec fn stage_faults(ms: Seq<StageMismatch>) -> Seq<StageFault> {
    Seq::new(ms.len(), |i: int| ms[i].fault())
}

pub open spec fn of_vertex(fs: Seq<Fault>) -> Seq<StageFault> {
    Seq::new(fs.len(), |i: int| StageFault::Vertex(fs[i]))
}

pub open spec fn of_fragment(fs: Seq<Fault>) -> Seq<StageFault> {
    Seq::new(fs.len(), |i: int| StageFault::Fragment(fs[i]))
}

/// What the two stages' varyings say against those the host expects.
pub open spec fn varying_faults(
    vs: Result<(Seq<VaryingView>, Seq<VaryingView>), VaryingError>,
    fs: Result<(Seq<VaryingView>, Seq<VaryingView>), VaryingError>,
    inputs: Seq<VaryingView>,
    outputs: Seq<VaryingView>,
) -> Seq<StageFault> {
    match (vs, fs) {
        (Ok(v), Ok(f)) => (if v.0 != inputs {
            seq![StageFault::Inputs(v.0)]
        } else {
            Seq::empty()
        }) + (if f.1 != outputs {
            seq![StageFault::Outputs(f.1)]
        } else {
            Seq::empty()
        }),
        (Err(v), Err(f)) => seq![StageFault::Varyings(Some(v), Some(f))],
        (Err(v), Ok(_)) => seq![StageFault::Varyings(Some(v), None)],
        (Ok(_), Err(f)) => seq![StageFault::Varyings(None, Some(f))],
    }
}

/// `all` are the disagreements of both stages: the vertex module's, the fragment module's, then
/// those of the varyings.
pub open spec fn stages_say(
    vs: Seq<char>,
    fs: Seq<char>,
    f: Reading,
    expected: Seq<Param>,
    inputs: Seq<VaryingView>,
    outputs: Seq<VaryingView>,
    all: Seq<StageFault>,
) -> bool {
    exists|a: Seq<Fault>, b: Seq<Fault>| #[trigger]
        says(vs, f, expected, a) && #[trigger] says(fs, f, expected, b) && all == of_vertex(a) + of_fragment(b) + varying_faults(
            varyings_of(vs, f),
            varyings_of(fs, f),
            inputs,
            outputs,
        )
}

fn same_varyings(a: &Vec<Varying>, b: &Vec<Varying>) -> (r: bool)
    ensures
        r == (shapes(a@) == shapes(b@)),
{
    let ghost x = shapes(a@);
    let ghost y = shapes(b@);
    if a.len() != b.len() {
        assert(x.len() != y.len());
        return false;
    }
    let mut i: usize = 0;
    while i < a.len()
        invariant
            i <= a@.len(),
            a@.len() == b@.len(),
            x == shapes(a@),
            y == shapes(b@),
            forall|j: int| 0 <= j < i ==> #[trigger] x[j] == y[j],
        decreases a@.len() - i,
    {
        let same = same_text(a[i].name.as_str(), b[i].name.as_str()) && a[i].location == b[i].location && same_text(
            a[i].scalar.as_str(),
            b[i].scalar.as_str(),
        ) && a[i].components == b[i].components;
        if !same {
            assert(x[i as int] != y[i as int]);
            return false;
        }
        i += 1;
    }
    assert(x =~= y);
    true
}

fn push_stage(out: &mut Vec<StageMismatch>, ms: Vec<Mismatch>, vertex: bool)
    ensures
        stage_faults(final(out)@) == stage_faults(old(out)@) + if vertex {
            of_vertex(all_faults(ms@))
        } else {
            of_fragment(all_faults(ms@))
        },
{
    let ghost all = ms@;
    let ghost was = out@;
    let mut rest = ms;
    let n: usize = rest.len();
    let mut i: usize = 0;
    assert(all.skip(0) =~= all);
    while i < n
        invariant
            i <= n == all.len(),
            rest@ == all.skip(i as int),
            out@.len() == was.len() + i,
            forall|j: int| 0 <= j < was.len() ==> #[trigger] out@[j] == was[j],
            forall|j: int|
                0 <= j < i ==> (#[trigger] out@[was.len() + j]).fault() == if vertex {
                    StageFault::Vertex(all[j].fault())
                } else {
                    StageFault::Fragment(all[j].fault())
                },
        decreases n - i,
    {
        assert(rest@[0] == all[i as int]);
        let m = rest.remove(0);
        if vertex {
            out.push(StageMismatch::Vertex(m));
        } else {
            out.push(StageMismatch::Fragment(m));
        }
        assert(rest@ =~= all.skip(i + 1));
        i += 1;
    }
    proof {
        let more = if vertex {
            of_vertex(all_faults(all))
        } else {
            of_fragment(all_faults(all))
        };
        let now = stage_faults(out@);
        assert forall|j: int| 0 <= j < now.len() implies now[j] == (stage_faults(was) + more)[j] by {
            if j >= was.len() {
                assert(out@[was.len() + (j - was.len())].fault() == more[j - was.len()]);
            }
        }
        assert(now =~= stage_faults(was) + more);
    }
}

/// Checks a vertex and a fragment module against one declaration, and what goes into the first and
/// comes out of the second.
pub fn check_stages<F: Fn(&[u8]) -> Option<Option<u64>>>(
    vs: &str,
    fs: &str,
    expected: &[Param],
    inputs: &Vec<Varying>,
    outputs: &Vec<Varying>,
    read: &F,
) -> (r: Result<(), Vec<StageMismatch>>)
    requires
        forall|t: &[u8]| read.requires((t,)),
    ensures
        forall|f: Reading| #[trigger]
            reads(*read, f) ==> match r {
                Ok(_) => stages_say(vs@, fs@, f, expected@, shapes(inputs@), shapes(outputs@), Seq::empty()),
                Err(ms) => ms@.len() > 0 && stages_say(
                    vs@,
                    fs@,
                    f,
                    expected@,
                    shapes(inputs@),
                    shapes(outputs@),
                    stage_faults(ms@),
                ),
            },
{
    let mut errors: Vec<StageMismatch> = Vec::new();
    let ghost mut a: Seq<Fault> = Seq::empty();
    let ghost mut b: Seq<Fault> = Seq::empty();
    assert(stage_faults(errors@) =~= of_vertex(a));
    match check(vs, expected, read) {
        Ok(_) => {},
        Err(ms) => {
            proof {
                a = all_faults(ms@);
            }
            push_stage(&mut errors, ms, true);
            assert(stage_faults(errors@) =~= of_vertex(a));
        },
    }
    assert(of_vertex(a) + of_fragment(b) =~= of_vertex(a));
    match check(fs, expected, read) {
        Ok(_) => {},
        Err(ms) => {
            proof {
                b = all_faults(ms@);
            }
            push_stage(&mut errors, ms, false);
        },
    }
    let ghost first = of_vertex(a) + of_fragment(b);
    let ghost was = errors@;
    assert(stage_faults(was) == first);
    match (varyings(vs, read), varyings(fs, read)) {
        (Ok(v), Ok(f)) => {
            if !same_varyings(&v.0, inputs) {
                errors.push(StageMismatch::Inputs(v.0));
            }
            if !same_varyings(&f.1, outputs) {
                errors.push(StageMismatch::Outputs(f.1));
            }
            assert forall|g: Reading| #[trigger] reads(*read, g) implies stages_say(
                vs@,
                fs@,
                g,
                expected@,
                shapes(inputs@),
                shapes(outputs@),
                stage_faults(errors@),
            ) by {
                let last = varying_faults(varyings_of(vs@, g), varyings_of(fs@, g), shapes(inputs@), shapes(outputs@));
                assert(stage_faults(errors@) =~= first + last);
                assert(says(vs@, g, expected@, a) && says(fs@, g, expected@, b));
            }
        },
        (v, f) => {
            let vertex = match v {
                Ok(_) => None,
                Err(e) => Some(e),
            };
            let fragment = match f {
                Ok(_) => None,
                Err(e) => Some(e),
            };
            errors.push(StageMismatch::Varyings { vertex, fragment });
            assert forall|g: Reading| #[trigger] reads(*read, g) implies stages_say(
                vs@,
                fs@,
                g,
                expected@,
                shapes(inputs@),
                shapes(outputs@),
                stage_faults(errors@),
            ) by {
                let last = varying_faults(varyings_of(vs@, g), varyings_of(fs@, g), shapes(inputs@), shapes(outputs@));
                assert(stage_faults(errors@) =~= first + last);
                assert(says(vs@, g, expected@, a) && says(fs@, g, expected@, b));
            }
        },
    }
    if errors.len() == 0 {
        assert(stage_faults(errors@) =~= Seq::<StageFault>::empty());
        Ok(())
    } else {
        Err(errors)
    }
}

proof fn lemma_named(params: Seq<Value>, n: nat, t: Seq<char>)
    requires
        n <= params.len(),
    ensures
        named(params, n).dom().contains(t) <==> exists|j: int| 0 <= j < n && text_in((#[trigger] params[j]).get("name"@)) == Some(t),
        named(params, n).dom().contains(t) ==> {
            let j = named(params, n)[t];
            &&& 0 <= j < n && text_in(params[j].get("name"@)) == Some(t)
            &&& forall|k: int| j < k < n ==> text_in((#[trigger] params[k]).get("name"@)) != Some(t)
        },
    decreases n,
{
    if n > 0 {
        lemma_named(params, (n - 1) as nat, t);
        let last = params[n - 1];
        if exists|j: int| 0 <= j < n - 1 && text_in((#[trigger] params[j]).get("name"@)) == Some(t) {
            let j = choose|j: int| 0 <= j < n - 1 && text_in((#[trigger] params[j]).get("name"@)) == Some(t);
            assert(text_in(params[j].get("name"@)) == Some(t));
        }
    }
}

/// `p` is the shader's parameter that goes by `name`: the last of the name.
pub open spec fn goes_by(params: Seq<Value>, name: Seq<char>, p: int) -> bool {
    &&& 0 <= p < params.len() && text_in(params[p].get("name"@)) == Some(name)
    &&& forall|k: int| p < k < params.len() ==> text_in((#[trigger] params[k]).get("name"@)) != Some(name)
}

/// The fields under `key` of a reflected type are `fs`: as many, each with its name, its offset and its size.
pub open spec fn reflects(ty: Option<Value>, key: Seq<char>, fs: Seq<Field>) -> bool {
    let got = items_in(get_in(get_in(ty, key), "fields"@));
    &&& got.len() == fs.len()
    &&& forall|k: int|
        0 <= k < fs.len() ==> {
            let x = #[trigger] got[k];
            let b = x.get("binding"@);
            &&& text_or_none(x.get("name"@)) == fs[k].name@
            &&& whole_or_max(get_in(b, "offset"@)) == fs[k].offset
            &&& whole_or_max(get_in(b, "size"@)) == fs[k].size
        }
}

/// The shader has declared parameter `e` as the host does: the last parameter of its name is bound to the same slot, or
/// is the push constants, and has the same fields.
pub open spec fn has_param(params: Seq<Value>, e: Param) -> bool {
    exists|p: int| #[trigger]
        goes_by(params, e.spec_name(), p) && {
            let b = params[p].get("binding"@);
            let kind = text_in(get_in(b, "kind"@));
            let ty = params[p].get("type"@);
            match e {
                Param::Descriptor { binding, element, .. } => kind == Some("descriptorTableSlot"@) && whole_in(get_in(b, "index"@)) == Some(binding)
                    && reflects(ty, "resultType"@, element@),
                Param::PushConstants { fields, .. } => kind == Some("pushConstantBuffer"@) && reflects(ty, "elementType"@, fields@),
            }
        }
}

proof fn lemma_reflects(ty: Option<Value>, key: Seq<char>, fs: Seq<Field>)
    ensures
        reflects(ty, key, fs) <==> fields_in(get_in(ty, key)) == declared_fields(fs),
{
    let got = items_in(get_in(get_in(ty, key), "fields"@));
    let (a, b) = (fields_in(get_in(ty, key)), declared_fields(fs));
    if a == b {
        assert(got.len() == fs.len());
        assert forall|k: int| 0 <= k < fs.len() implies {
            let x = #[trigger] got[k];
            let b = x.get("binding"@);
            &&& text_or_none(x.get("name"@)) == fs[k].name@
            &&& whole_or_max(get_in(b, "offset"@)) == fs[k].offset
            &&& whole_or_max(get_in(b, "size"@)) == fs[k].size
        } by {
            assert(a[k] == b[k]);
        }
    }
    if reflects(ty, key, fs) {
        assert forall|k: int| 0 <= k < a.len() implies a[k] == b[k] by {
            let x = got[k];
        }
        assert(a =~= b);
    }
}

/// A declared parameter has no disagreement exactly when the shader has it.
pub proof fn law_params_agree_when_the_shader_has_them(params: Seq<Value>, e: Param)
    ensures
        param_faults(params, e).len() == 0 <==> has_param(params, e),
{
    let name = e.spec_name();
    lemma_named(params, params.len(), name);
    if named(params, params.len()).dom().contains(name) {
        let p = named(params, params.len())[name];
        let ty = params[p].get("type"@);
        assert(goes_by(params, name, p));
        match e {
            Param::Descriptor { element, .. } => {
                lemma_reflects(ty, "resultType"@, element@);
            },
            Param::PushConstants { fields, .. } => {
                lemma_reflects(ty, "elementType"@, fields@);
            },
        }
        assert forall|q: int| goes_by(params, name, q) implies q == p by {
            if q < p {
                assert(text_in(params[p].get("name"@)) != Some(name));
            } else if p < q {
                assert(text_in(params[q].get("name"@)) != Some(name));
            }
        }
    } else if has_param(params, e) {
        let p = choose|p: int| #[trigger] goes_by(params, name, p);
        assert(text_in(params[p].get("name"@)) == Some(name));
    }
}

proof fn lemma_no_declared_faults(params: Seq<Value>, expected: Seq<Param>, n: nat)
    requires
        n <= expected.len(),
    ensures
        declared_faults(params, expected, n).len() == 0 <==> forall|i: int| 0 <= i < n ==> has_param(params, #[trigger] expected[i]),
    decreases n,
{
    if n > 0 {
        lemma_no_declared_faults(params, expected, (n - 1) as nat);
        law_params_agree_when_the_shader_has_them(params, expected[n - 1]);
        assert(expected[n - 1] == expected[n - 1]);
    }
}

proof fn lemma_no_undeclared(order: Seq<Seq<char>>, expected: Seq<Param>, n: nat)
    requires
        n <= order.len(),
    ensures
        undeclared(order, expected, n).len() == 0 <==> forall|i: int| 0 <= i < n ==> is_declared(expected, #[trigger] order[i]),
    decreases n,
{
    if n > 0 {
        lemma_no_undeclared(order, expected, (n - 1) as nat);
        assert(order[n - 1] == order[n - 1]);
    }
}

/// A module agrees with a declaration only when it has every declared parameter as declared, and the declaration has
/// every parameter that the module names.
pub proof fn law_agreeing_modules_have_what_is_declared(root: Value, expected: Seq<Param>)
    requires
        disagreements(root, expected, Seq::empty()),
    ensures
        forall|i: int| 0 <= i < expected.len() ==> has_param(items_in(root.get("parameters"@)), #[trigger] expected[i]),
        forall|j: int|
            0 <= j < items_in(root.get("parameters"@)).len() ==> (text_in((#[trigger] items_in(root.get("parameters"@))[j]).get("name"@)) matches Some(t)
                ==> exists|i: int| 0 <= i < expected.len() && (#[trigger] expected[i]).spec_name() == t),
{
    let params = items_in(root.get("parameters"@));
    let names = named(params, params.len()).dom();
    let order = choose|order: Seq<Seq<char>>| #[trigger]
        name_order(order, names) && Seq::<Fault>::empty() == declared_faults(params, expected, expected.len()) + undeclared(
            order,
            expected,
            order.len(),
        );
    let (a, b) = (declared_faults(params, expected, expected.len()), undeclared(order, expected, order.len()));
    assert((a + b).len() == 0);
    lemma_no_declared_faults(params, expected, expected.len());
    lemma_no_undeclared(order, expected, order.len());
    assert forall|j: int| 0 <= j < params.len() implies (text_in((#[trigger] params[j]).get("name"@)) matches Some(t) ==> exists|i: int|
        0 <= i < expected.len() && (#[trigger] expected[i]).spec_name() == t) by {
        if let Some(t) = text_in(params[j].get("name"@)) {
            lemma_named(params, params.len(), t);
            assert(order.contains(t));
            let k = choose|k: int| 0 <= k < order.len() && order[k] == t;
            assert(is_declared(expected, order[k]));
        }
    }
}

/// What a disagreement says of a parameter: that the shader does not have it, or what the shader has where the host
/// declares something else. The binding comes before the fields.
pub proof fn law_disagreements_name_what_differs(params: Seq<Value>, e: Param, p: int)
    requires
        goes_by(params, e.spec_name(), p),
    ensures
        ({
            let fs = param_faults(params, e);
            let b = params[p].get("binding"@);
            let kind = text_in(get_in(b, "kind"@));
            let ty = params[p].get("type"@);
            match e {
                Param::Descriptor { binding, element, .. } => {
                    let index = whole_in(get_in(b, "index"@));
                    let bound = kind == Some("descriptorTableSlot"@) && index == Some(binding);
                    let alike = reflects(ty, "resultType"@, element@);
                    &&& !bound ==> fs[0] == Fault::Binding(e.spec_name(), kind, index, binding)
                    &&& !alike ==> fs.last() == Fault::Fields(e.spec_name(), fields_in(get_in(ty, "resultType"@)), declared_fields(element@))
                    &&& fs.len() == (if bound {
                        0int
                    } else {
                        1
                    }) + (if alike {
                        0int
                    } else {
                        1
                    })
                },
                Param::PushConstants { fields, .. } => {
                    let bound = kind == Some("pushConstantBuffer"@);
                    let alike = reflects(ty, "elementType"@, fields@);
                    &&& !bound ==> fs[0] == Fault::Kind(e.spec_name(), kind)
                    &&& !alike ==> fs.last() == Fault::Fields(e.spec_name(), fields_in(get_in(ty, "elementType"@)), declared_fields(fields@))
                    &&& fs.len() == (if bound {
                        0int
                    } else {
                        1
                    }) + (if alike {
                        0int
                    } else {
                        1
                    })
                },
            }
        }),
{
    let name = e.spec_name();
    lemma_named(params, params.len(), name);
    let q = named(params, params.len())[name];
    assert(text_in(params[p].get("name"@)) == Some(name));
    if q < p {
        assert(text_in(params[p].get("name"@)) != Some(name));
    } else if p < q {
        assert(text_in(params[q].get("name"@)) != Some(name));
    }
    let ty = params[p].get("type"@);
    match e {
        Param::Descriptor { element, .. } => {
            lemma_reflects(ty, "resultType"@, element@);
        },
        Param::PushConstants { fields, .. } => {
            lemma_reflects(ty, "elementType"@, fields@);
        },
    }
}

/// Texts are ordered by their first byte that differs, and one that goes on comes after one that ends.
pub proof fn law_the_first_byte_that_differs_decides(head: Seq<u8>, x: u8, y: u8, a: Seq<u8>, b: Seq<u8>)
    ensures
        x != y ==> bytes_lt(head + seq![x] + a, head + seq![y] + b) == (x < y),
        bytes_lt(head, head + seq![x] + a),
        !bytes_lt(head + seq![x] + a, head),
        !bytes_lt(head, head),
    decreases head.len(),
{
    let (s, t) = (head + seq![x] + a, head + seq![y] + b);
    if head.len() == 0 {
        assert(s[0] == x && t[0] == y);
    } else {
        law_the_first_byte_that_differs_decides(head.drop_first(), x, y, a, b);
        assert(s.drop_first() =~= head.drop_first() + seq![x] + a);
        assert(t.drop_first() =~= head.drop_first() + seq![y] + b);
        assert(s[0] == head[0] && t[0] == head[0]);
    }
}

/// Two stages agree with the host exactly when both can be read, the vertex stage takes the expected inputs and the
/// fragment stage gives the expected outputs.
pub proof fn law_stages_agree_on_their_ends(
    vs: Result<(Seq<VaryingView>, Seq<VaryingView>), VaryingError>,
    fs: Result<(Seq<VaryingView>, Seq<VaryingView>), VaryingError>,
    inputs: Seq<VaryingView>,
    outputs: Seq<VaryingView>,
)
    ensures
        varying_faults(vs, fs, inputs, outputs).len() == 0 <==> vs is Ok && fs is Ok && vs->Ok_0.0 == inputs && fs->Ok_0.1 == outputs,
{
}

proof fn lemma_varyings(vs: Seq<VaryingView>, kind: Seq<char>, xs: Seq<Value>, n: nat, j: int)
    requires
        n <= xs.len(),
        0 <= j < n,
    ensures
        ({
            let all = with_varyings(vs, kind, xs, n);
            let b = xs[j].get("binding"@);
            &&& vs.is_prefix_of(all)
            &&& text_in(get_in(b, "kind"@)) == Some(kind) ==> (varying_at(text_or_none(xs[j].get("name"@)), b, xs[j].get("type"@)) matches Some(v)
                ==> all.contains(v))
            &&& all.len() <= vs.len() + n
        }),
    decreases n,
{
    let all = with_varyings(vs, kind, xs, n);
    let before = with_varyings(vs, kind, xs, (n - 1) as nat);
    if n > 1 {
        lemma_varyings(
            vs,
            kind,
            xs,
            (n - 1) as nat,
            if j < n - 1 {
                j
            } else {
                0
            },
        );
    }
    assert(before.is_prefix_of(all));
    assert(vs.is_prefix_of(before)) by {
        if n == 1 {
            assert(before =~= vs);
        }
    }
    let b = xs[j].get("binding"@);
    if text_in(get_in(b, "kind"@)) == Some(kind) {
        if let Some(v) = varying_at(text_or_none(xs[j].get("name"@)), b, xs[j].get("type"@)) {
            if j == n - 1 {
                assert(all[before.len() as int] == v);
            } else {
                let i = choose|i: int| 0 <= i < before.len() && before[i] == v;
                assert(all[i] == v);
            }
        }
    }
}

/// A parameter of an entry point that is bound as an input at a location is one of its inputs: with one component if its
/// type is a scalar, and with as many as its elements if it is a vector.
pub proof fn law_bound_inputs_are_listed(entry: Value, j: int, name: Seq<char>, location: u64, scalar: Seq<char>, n: u64)
    requires
        0 <= j < items_in(entry.get("parameters"@)).len(),
        ({
            let x = items_in(entry.get("parameters"@))[j];
            let b = x.get("binding"@);
            let ty = x.get("type"@);
            &&& text_in(x.get("name"@)) == Some(name)
            &&& text_in(get_in(b, "kind"@)) == Some("varyingInput"@)
            &&& whole_in(get_in(b, "index"@)) == Some(location)
            &&& {
                ||| text_in(get_in(ty, "kind"@)) == Some("scalar"@) && text_in(get_in(ty, "scalarType"@)) == Some(scalar) && n == 1
                ||| text_in(get_in(ty, "kind"@)) == Some("vector"@) && text_in(get_in(get_in(ty, "elementType"@), "scalarType"@)) == Some(scalar) && whole_in(
                    get_in(ty, "elementCount"@),
                ) == Some(n)
            }
        }),
    ensures
        inputs_of(entry).contains((name, location, scalar, n)),
{
    let ps = items_in(entry.get("parameters"@));
    reveal_strlit("scalar");
    reveal_strlit("vector");
    assert("scalar"@[0] != "vector"@[0]);
    lemma_varyings(Seq::empty(), "varyingInput"@, ps, ps.len(), j);
}

/// The same holds of the fields of an entry point's result and its outputs; a result that is bound itself is an output
/// without a name, in front of them.
pub proof fn law_bound_outputs_are_listed(entry: Value, r: Value, j: int, name: Seq<char>, location: u64, scalar: Seq<char>, n: u64)
    requires
        entry.get("result"@) == Some(r),
        ({
            let fs = items_in(get_in(r.get("type"@), "fields"@));
            let x = if j < 0 {
                r
            } else {
                fs[j]
            };
            let b = x.get("binding"@);
            let ty = x.get("type"@);
            &&& -1 <= j < fs.len()
            &&& if j < 0 {
                name == Seq::<char>::empty()
            } else {
                text_in(x.get("name"@)) == Some(name)
            }
            &&& text_in(get_in(b, "kind"@)) == Some("varyingOutput"@)
            &&& whole_in(get_in(b, "index"@)) == Some(location)
            &&& {
                ||| text_in(get_in(ty, "kind"@)) == Some("scalar"@) && text_in(get_in(ty, "scalarType"@)) == Some(scalar) && n == 1
                ||| text_in(get_in(ty, "kind"@)) == Some("vector"@) && text_in(get_in(get_in(ty, "elementType"@), "scalarType"@)) == Some(scalar) && whole_in(
                    get_in(ty, "elementCount"@),
                ) == Some(n)
            }
        }),
    ensures
        outputs_of(entry).contains((name, location, scalar, n)),
        j < 0 ==> outputs_of(entry)[0] == (name, location, scalar, n),
{
    let fs = items_in(get_in(r.get("type"@), "fields"@));
    let bare = with_varying(Seq::empty(), "varyingOutput"@, ""@, r);
    reveal_strlit("scalar");
    reveal_strlit("vector");
    reveal_strlit("");
    assert(""@ =~= Seq::<char>::empty());
    assert("scalar"@[0] != "vector"@[0]);
    if j >= 0 {
        lemma_varyings(bare, "varyingOutput"@, fs, fs.len(), j);
    } else {
        assert(bare[0] == (name, location, scalar, n));
        if fs.len() > 0 {
            lemma_varyings(bare, "varyingOutput"@, fs, fs.len(), 0);
        }
        assert(outputs_of(entry)[0] == bare[0]);
    }
}

} // verus!
