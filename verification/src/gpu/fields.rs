//! Struct layouts that the host declares for the shaders: fields laid one behind the other.
use crate::gpu::bytes::{law_le32_round_trips, le32, of_le32};
use crate::gpu::reflect::{declared_fields, Field, FieldView, Param};
use vstd::prelude::*;

verus! {

/// What a declared parameter says.
pub enum ParamView {
    Descriptor(Seq<char>, u64, Seq<FieldView>),
    PushConstants(Seq<char>, Seq<FieldView>),
}

pub open spec fn shape_of(p: Param) -> ParamView {
    match p {
        Param::Descriptor { name, binding, element } => ParamView::Descriptor(name@, binding, declared_fields(element@)),
        Param::PushConstants { name, fields } => ParamView::PushConstants(name@, declared_fields(fields@)),
    }
}

pub open spec fn shapes_of(ps: Seq<Param>) -> Seq<ParamView> {
    Seq::new(ps.len(), |i: int| shape_of(ps[i]))
}

/// Where field `n` starts, and where the first `n` fields end.
pub open spec fn offset_at(fs: Seq<(Seq<char>, u64)>, n: nat) -> int
    decreases n,
{
    if n == 0 {
        0
    } else {
        offset_at(fs, (n - 1) as nat) + fs[n - 1].1
    }
}

/// Fields, by name and size, laid one behind the other.
pub open spec fn packed(fs: Seq<(Seq<char>, u64)>) -> Seq<FieldView> {
    Seq::new(fs.len(), |i: int| (fs[i].0, offset_at(fs, i as nat) as u64, fs[i].1))
}

pub open spec fn named_sizes(fs: Seq<(&'static str, u64)>) -> Seq<(Seq<char>, u64)> {
    Seq::new(fs.len(), |i: int| (fs[i].0@, fs[i].1))
}

proof fn lemma_offsets_grow(fs: Seq<(Seq<char>, u64)>, i: nat, j: nat)
    requires
        i <= j <= fs.len(),
    ensures
        0 <= offset_at(fs, i) <= offset_at(fs, j),
    decreases j,
{
    if i < j {
        lemma_offsets_grow(fs, i, (j - 1) as nat);
    } else if i > 0 {
        lemma_offsets_grow(fs, (i - 1) as nat, (i - 1) as nat);
    }
}

/// Packed fields follow one another without gap or overlap, from offset zero.
pub proof fn law_packed_fields_tile_the_struct(fs: Seq<(Seq<char>, u64)>)
    requires
        offset_at(fs, fs.len()) <= u64::MAX,
    ensures
        fs.len() > 0 ==> packed(fs)[0].1 == 0,
        forall|i: int| 0 <= i < fs.len() - 1 ==> (#[trigger] packed(fs)[i]).1 + packed(fs)[i].2 == packed(fs)[i + 1].1,
        fs.len() > 0 ==> packed(fs).last().1 + packed(fs).last().2 == offset_at(fs, fs.len()),
{
    assert forall|i: int| 0 <= i < fs.len() - 1 implies (#[trigger] packed(fs)[i]).1 + packed(fs)[i].2 == packed(fs)[i + 1].1 by {
        lemma_offsets_grow(fs, i as nat, fs.len());
        lemma_offsets_grow(fs, (i + 1) as nat, fs.len());
    }
    if fs.len() > 0 {
        lemma_offsets_grow(fs, (fs.len() - 1) as nat, fs.len());
    }
}

/// The fields of a struct without padding.
pub fn pack(fs: &[(&'static str, u64)]) -> (r: Vec<Field>)
    requires
        offset_at(named_sizes(fs@), fs@.len()) <= u64::MAX,
    ensures
        declared_fields(r@) == packed(named_sizes(fs@)),
{
    let ghost ns = named_sizes(fs@);
    let mut out: Vec<Field> = Vec::new();
    let mut at: u64 = 0;
    let mut i: usize = 0;
    while i < fs.len()
        invariant
            i <= fs@.len(),
            ns == named_sizes(fs@),
            out@.len() == i,
            at == offset_at(ns, i as nat),
            offset_at(ns, fs@.len()) <= u64::MAX,
            forall|j: int| 0 <= j < i ==> ((#[trigger] out@[j]).name@, out@[j].offset, out@[j].size) == packed(ns)[j],
        decreases fs@.len() - i,
    {
        proof {
            lemma_offsets_grow(ns, (i + 1) as nat, fs@.len());
            assert(ns[i as int] == (fs@[i as int].0@, fs@[i as int].1));
        }
        let f: (&'static str, u64) = fs[i];
        out.push(Field { name: f.0, offset: at, size: f.1 });
        at = at + f.1;
        i += 1;
    }
    assert(declared_fields(out@) =~= packed(ns));
    out
}

/// A descriptor whose elements have no fields.
pub fn plain(name: &'static str, binding: u64) -> (r: Param)
    ensures
        shape_of(r) == ParamView::Descriptor(name@, binding, Seq::empty()),
{
    let element: Vec<Field> = Vec::new();
    assert(declared_fields(element@) =~= Seq::<FieldView>::empty());
    Param::Descriptor { name, binding, element }
}

/// A descriptor of structs.
pub fn structs(name: &'static str, binding: u64, fs: &[(&'static str, u64)]) -> (r: Param)
    requires
        offset_at(named_sizes(fs@), fs@.len()) <= u64::MAX,
    ensures
        shape_of(r) == ParamView::Descriptor(name@, binding, packed(named_sizes(fs@))),
{
    Param::Descriptor { name, binding, element: pack(fs) }
}

/// The push constants.
pub fn pushed(name: &'static str, fs: &[(&'static str, u64)]) -> (r: Param)
    requires
        offset_at(named_sizes(fs@), fs@.len()) <= u64::MAX,
    ensures
        shape_of(r) == ParamView::PushConstants(name@, packed(named_sizes(fs@))),
{
    Param::PushConstants { name, fields: pack(fs) }
}

/// A struct at byte `at` of `b` holds the named numbers: each stands where the declared layout has the field of
/// its name, low byte first.
pub open spec fn struct_holds(b: Seq<u8>, at: int, fs: Seq<(Seq<char>, u64)>, vals: Seq<(Seq<char>, u32)>) -> bool {
    forall|j: int, k: int|
        #![trigger vals[j], fs[k]]
        0 <= j < vals.len() && 0 <= k < fs.len() && vals[j].0 == fs[k].0 ==> b.subrange(
            at + packed(fs)[k].1,
            at + packed(fs)[k].1 + 4,
        ) == le32(vals[j].1)
}

/// Number `j`, the one of field `k`, is read back from where the field stands.
pub proof fn lemma_field_reads(b: Seq<u8>, at: int, fs: Seq<(Seq<char>, u64)>, vals: Seq<(Seq<char>, u32)>, j: int, k: int)
    requires
        struct_holds(b, at, fs, vals),
        0 <= j < vals.len(),
        0 <= k < fs.len(),
        vals[j].0 == fs[k].0,
    ensures
        of_le32(b.subrange(at + packed(fs)[k].1, at + packed(fs)[k].1 + 4)) == vals[j].1,
{
    assert(vals[j].0 == fs[k].0);
    law_le32_round_trips(vals[j].1);
}

} // verus!
