//! GPU decode of uploaded region meshes: the executed half of the host and shader layout check.
//!
//! Every quad record is decoded, and every triangle is checked on the device: its three vertices
//! lie on its quad, and its winding faces the quad's outward normal.
use crate::gpu::bytes::{lemma_round_up, next_multiple, round_up, u32_at};
use crate::gpu::fields::{lemma_field_reads, named_sizes, offset_at, packed, plain, pushed, shapes_of, struct_holds, structs, ParamView};
use crate::gpu::mesh::GpuRegion;
use crate::gpu::raster::word;
use crate::gpu::reflect::Param;
use vstd::prelude::*;

verus! {

/// A quad as the shader decodes it.
#[derive(Clone, Copy, Debug, PartialEq, Eq, Structural)]
pub struct DecodedQuad {
    pub material: u32,
    pub face: u32,
    pub plane: u32,
    pub u0: u32,
    pub v0: u32,
    pub u1: u32,
    pub v1: u32,
    pub pad: u32,
}

impl Default for DecodedQuad {
    fn default() -> (r: DecodedQuad)
        ensures
            r == (DecodedQuad { material: 0, face: 0, plane: 0, u0: 0, v0: 0, u1: 0, v1: 0, pad: 0 }),
    {
        DecodedQuad { material: 0, face: 0, plane: 0, u0: 0, v0: 0, u1: 0, v1: 0, pad: 0 }
    }
}

/// What the shader found of a triangle.
#[derive(Clone, Copy, Debug, PartialEq, Eq, Structural)]
pub struct TriCheck {
    pub quad: u32,
    pub ok: u32,
}

impl Default for TriCheck {
    fn default() -> (r: TriCheck)
        ensures
            r == (TriCheck { quad: 0, ok: 0 }),
    {
        TriCheck { quad: 0, ok: 0 }
    }
}

/// Every bit of [`TriCheck::ok`]: three vertices on the quad, quad in range, outward winding.
pub const TRI_OK: u32 = 31;

pub const QUAD_BYTES: u64 = 32;

pub const CHECK_BYTES: u64 = 8;

/// One region's decode results.
#[derive(Debug)]
pub struct Decoded {
    pub quads: Vec<DecodedQuad>,
    pub triangles: Vec<TriCheck>,
}

impl Default for Decoded {
    fn default() -> (r: Decoded)
        ensures
            r.quads@.len() == 0,
            r.triangles@.len() == 0,
    {
        Decoded { quads: Vec::new(), triangles: Vec::new() }
    }
}

pub open spec fn layout_view() -> Seq<ParamView> {
    seq![
        ParamView::Descriptor("quads"@, 0, Seq::empty()),
        ParamView::Descriptor("vertices"@, 1, Seq::empty()),
        ParamView::Descriptor("indices"@, 2, Seq::empty()),
        ParamView::Descriptor("tri_quad"@, 3, Seq::empty()),
        ParamView::Descriptor("decoded"@, 4, packed(quad_fields())),
        ParamView::Descriptor("tri_checks"@, 5, packed(check_fields())),
        ParamView::PushConstants("params"@, packed(param_fields())),
    ]
}

pub open spec fn quad_fields() -> Seq<(Seq<char>, u64)> {
    seq![("material"@, 4), ("face"@, 4), ("plane"@, 4), ("u0"@, 4), ("v0"@, 4), ("u1"@, 4), ("v1"@, 4), ("pad"@, 4)]
}

pub open spec fn check_fields() -> Seq<(Seq<char>, u64)> {
    seq![("quad"@, 4), ("ok"@, 4)]
}

pub open spec fn param_fields() -> Seq<(Seq<char>, u64)> {
    seq![("quad_count"@, 4), ("tri_count"@, 4)]
}

/// What the host code assumes about the shader.
pub fn host_layout() -> (r: Vec<Param>)
    ensures
        shapes_of(r@) == layout_view(),
{
    let quad: [(&'static str, u64); 8] = [
        ("material", 4),
        ("face", 4),
        ("plane", 4),
        ("u0", 4),
        ("v0", 4),
        ("u1", 4),
        ("v1", 4),
        ("pad", 4),
    ];
    let check: [(&'static str, u64); 2] = [("quad", 4), ("ok", 4)];
    let params: [(&'static str, u64); 2] = [("quad_count", 4), ("tri_count", 4)];
    proof {
        reveal_with_fuel(offset_at, 10);
        assert(named_sizes(quad@) =~= quad_fields());
        assert(named_sizes(check@) =~= check_fields());
        assert(named_sizes(params@) =~= param_fields());
    }
    let r = vec![
        plain("quads", 0),
        plain("vertices", 1),
        plain("indices", 2),
        plain("tri_quad", 3),
        structs("decoded", 4, &quad),
        structs("tri_checks", 5, &check),
        pushed("params", &params),
    ];
    assert(shapes_of(r@) =~= layout_view());
    r
}

/// Where a region's triangle checks start, behind its quads at `q`.
pub open spec fn checks_at(r: GpuRegion, q: int, align: int) -> int {
    round_up(q + r.quad_count * QUAD_BYTES, align)
}

/// Where the output of the region behind starts.
pub open spec fn next_at(r: GpuRegion, q: int, align: int) -> int {
    let t = checks_at(r, q, align);
    let end = round_up(t + r.triangle_count * CHECK_BYTES, align);
    if end >= t + align {
        end
    } else {
        t + align
    }
}

/// Where the output of region `n` starts: decoded quads, then triangle checks, each aligned.
pub open spec fn output_at(rs: Seq<GpuRegion>, align: int, n: nat) -> int
    decreases n,
{
    if n == 0 {
        0
    } else {
        next_at(rs[n - 1], output_at(rs, align, (n - 1) as nat), align)
    }
}

proof fn lemma_output(rs: Seq<GpuRegion>, align: int, i: nat, n: nat)
    requires
        align > 0,
        i <= n <= rs.len(),
    ensures
        0 <= output_at(rs, align, i) <= output_at(rs, align, n),
    decreases n,
{
    if n > 0 {
        if i < n {
            lemma_output(rs, align, i, (n - 1) as nat);
        } else {
            lemma_output(rs, align, (n - 1) as nat, (n - 1) as nat);
        }
        let q = output_at(rs, align, (n - 1) as nat);
        let r = rs[n - 1];
        lemma_round_up(q + r.quad_count * QUAD_BYTES, align);
        lemma_round_up(checks_at(r, q, align) + r.triangle_count * CHECK_BYTES, align);
    }
}

/// The regions' outputs hold their results and do not overlap.
pub proof fn law_outputs_hold_their_results(rs: Seq<GpuRegion>, align: int, n: nat)
    requires
        align > 0,
        n < rs.len(),
    ensures
        ({
            let q = output_at(rs, align, n);
            let t = checks_at(rs[n as int], q, align);
            &&& 0 <= q
            &&& q + rs[n as int].quad_count * QUAD_BYTES <= t
            &&& t + rs[n as int].triangle_count * CHECK_BYTES <= output_at(rs, align, n + 1)
            &&& t % align == 0
        }),
{
    lemma_output(rs, align, n, n);
    let q = output_at(rs, align, n);
    let r = rs[n as int];
    lemma_round_up(q + r.quad_count * QUAD_BYTES, align);
    lemma_round_up(checks_at(r, q, align) + r.triangle_count * CHECK_BYTES, align);
}

/// Where the results of each region go, and how large the output is.
pub struct Outputs {
    /// For each region where its quads and where its triangle checks start.
    pub offsets: Vec<(u64, u64)>,
    pub total: u64,
}

/// Lays out the output buffer.
pub fn plan_outputs(rs: &[GpuRegion], align: u64) -> (r: Outputs)
    requires
        align > 0,
        output_at(rs@, align as int, rs@.len()) <= u64::MAX,
    ensures
        r.offsets@.len() == rs@.len(),
        forall|i: int|
            0 <= i < rs@.len() ==> (#[trigger] r.offsets@[i]).0 == output_at(rs@, align as int, i as nat) && r.offsets@[i].1 == checks_at(
                rs@[i],
                output_at(rs@, align as int, i as nat),
                align as int,
            ),
        r.total == if output_at(rs@, align as int, rs@.len()) >= align {
            output_at(rs@, align as int, rs@.len())
        } else {
            align as int
        },
{
    let ghost a = align as int;
    let mut offsets: Vec<(u64, u64)> = Vec::new();
    let mut total: u64 = 0;
    let mut i: usize = 0;
    while i < rs.len()
        invariant
            i <= rs@.len(),
            align > 0,
            a == align,
            output_at(rs@, a, rs@.len()) <= u64::MAX,
            total == output_at(rs@, a, i as nat),
            offsets@.len() == i,
            forall|j: int|
                0 <= j < i ==> (#[trigger] offsets@[j]).0 == output_at(rs@, a, j as nat) && offsets@[j].1 == checks_at(
                    rs@[j],
                    output_at(rs@, a, j as nat),
                    a,
                ),
        decreases rs@.len() - i,
    {
        let r = rs[i];
        proof {
            lemma_output(rs@, a, (i + 1) as nat, rs@.len());
            law_outputs_hold_their_results(rs@, a, i as nat);
            lemma_round_up(total + r.quad_count * QUAD_BYTES, a);
            let t = checks_at(r, total as int, a);
            lemma_round_up(t + r.triangle_count * CHECK_BYTES, a);
            assert(r.quad_count * QUAD_BYTES >= 0 && r.triangle_count * CHECK_BYTES >= 0);
        }
        let q: u64 = total;
        let t: u64 = next_multiple(q + r.quad_count * QUAD_BYTES, align);
        let end: u64 = next_multiple(t + r.triangle_count * CHECK_BYTES, align);
        total = if end >= t + align {
            end
        } else {
            t + align
        };
        offsets.push((q, t));
        i += 1;
    }
    Outputs {
        offsets,
        total: if total >= align {
            total
        } else {
            align
        },
    }
}

/// Bytes bound of `n` records of `size` bytes each, at least `least`: a binding is never empty.
pub open spec fn bound_bytes(n: u64, size: int, least: int) -> int {
    if n * size >= least {
        n * size
    } else {
        least
    }
}

fn bound(n: u64, size: u64, least: u64) -> (r: u64)
    requires
        n * size <= u64::MAX,
    ensures
        r == bound_bytes(n, size as int, least as int),
{
    let b: u64 = n * size;
    if b >= least {
        b
    } else {
        least
    }
}

/// Bytes bound of a region's quads, vertices, indices and triangle map, and of its decoded quads and triangle
/// checks.
pub fn binding_ranges(r: &GpuRegion) -> (b: [u64; 6])
    requires
        r.quad_count * QUAD_BYTES <= u64::MAX,
        r.vertex_count * 8 <= u64::MAX,
        r.triangle_count * 12 <= u64::MAX,
    ensures
        b[0] == bound_bytes(r.quad_count, 8, 8),
        b[1] == bound_bytes(r.vertex_count, 8, 8),
        b[2] == bound_bytes(r.triangle_count, 12, 4),
        b[3] == bound_bytes(r.triangle_count, 4, 4),
        b[4] == bound_bytes(r.quad_count, QUAD_BYTES as int, QUAD_BYTES as int),
        b[5] == bound_bytes(r.triangle_count, CHECK_BYTES as int, CHECK_BYTES as int),
{
    [
        bound(r.quad_count, 8, 8),
        bound(r.vertex_count, 8, 8),
        bound(r.triangle_count, 12, 4),
        bound(r.triangle_count, 4, 4),
        bound(r.quad_count, QUAD_BYTES, QUAD_BYTES),
        bound(r.triangle_count, CHECK_BYTES, CHECK_BYTES),
    ]
}

/// Workgroups of 64 that cover the region's quads and triangles.
pub fn groups(r: &GpuRegion) -> (n: u32)
    requires
        r.quad_count <= u32::MAX,
        r.triangle_count <= u32::MAX,
    ensures
        n == ((if r.quad_count >= r.triangle_count {
            r.quad_count
        } else {
            r.triangle_count
        }) + 63) / 64,
{
    let m: u64 = if r.quad_count >= r.triangle_count {
        r.quad_count
    } else {
        r.triangle_count
    };
    ((m + 63) / 64) as u32
}

/// The quad at byte `o` of the output.
pub open spec fn quad_at(b: Seq<u8>, o: int) -> DecodedQuad {
    DecodedQuad {
        material: word(b, o) as u32,
        face: word(b, o + 4) as u32,
        plane: word(b, o + 8) as u32,
        u0: word(b, o + 12) as u32,
        v0: word(b, o + 16) as u32,
        u1: word(b, o + 20) as u32,
        v1: word(b, o + 24) as u32,
        pad: word(b, o + 28) as u32,
    }
}

/// The triangle check at byte `o` of the output.
pub open spec fn check_at(b: Seq<u8>, o: int) -> TriCheck {
    TriCheck { quad: word(b, o) as u32, ok: word(b, o + 4) as u32 }
}

/// `d` is what the output's bytes hold of a region whose quads start at `q` and checks at `t`.
pub open spec fn decoded_from(d: Decoded, r: GpuRegion, b: Seq<u8>, q: int, t: int) -> bool {
    &&& d.quads@ == Seq::new(r.quad_count as nat, |i: int| quad_at(b, q + QUAD_BYTES * i))
    &&& d.triangles@ == Seq::new(r.triangle_count as nat, |i: int| check_at(b, t + CHECK_BYTES * i))
}

fn decode_region(b: &[u8], r: &GpuRegion, q: usize, t: usize) -> (d: Decoded)
    requires
        q + r.quad_count * QUAD_BYTES <= b@.len(),
        t + r.triangle_count * CHECK_BYTES <= b@.len(),
    ensures
        decoded_from(d, *r, b@, q as int, t as int),
{
    let len: usize = b.len();
    let mut quads: Vec<DecodedQuad> = Vec::new();
    let mut i: usize = 0;
    while (i as u64) < r.quad_count
        invariant
            i <= r.quad_count,
            len == b@.len(),
            q + r.quad_count * QUAD_BYTES <= len,
            quads@.len() == i,
            forall|j: int| 0 <= j < i ==> #[trigger] quads@[j] == quad_at(b@, q + QUAD_BYTES * j),
        decreases r.quad_count - i,
    {
        let o: usize = q + 32 * i;
        quads.push(
            DecodedQuad {
                material: u32_at(b, o),
                face: u32_at(b, o + 4),
                plane: u32_at(b, o + 8),
                u0: u32_at(b, o + 12),
                v0: u32_at(b, o + 16),
                u1: u32_at(b, o + 20),
                v1: u32_at(b, o + 24),
                pad: u32_at(b, o + 28),
            },
        );
        i += 1;
    }
    let mut triangles: Vec<TriCheck> = Vec::new();
    let mut i: usize = 0;
    while (i as u64) < r.triangle_count
        invariant
            i <= r.triangle_count,
            len == b@.len(),
            t + r.triangle_count * CHECK_BYTES <= len,
            triangles@.len() == i,
            forall|j: int| 0 <= j < i ==> #[trigger] triangles@[j] == check_at(b@, t + CHECK_BYTES * j),
        decreases r.triangle_count - i,
    {
        let o: usize = t + 8 * i;
        triangles.push(TriCheck { quad: u32_at(b, o), ok: u32_at(b, o + 4) });
        i += 1;
    }
    let d = Decoded { quads, triangles };
    assert(d.quads@ =~= Seq::new(r.quad_count as nat, |i: int| quad_at(b@, q + QUAD_BYTES * i)));
    assert(d.triangles@ =~= Seq::new(r.triangle_count as nat, |i: int| check_at(b@, t + CHECK_BYTES * i)));
    d
}

/// The results of every region, in region order, from the output's bytes.
pub fn read_outputs(b: &[u8], rs: &[GpuRegion], align: u64) -> (r: Vec<Decoded>)
    requires
        align > 0,
        output_at(rs@, align as int, rs@.len()) <= b@.len(),
        output_at(rs@, align as int, rs@.len()) <= u64::MAX,
    ensures
        r@.len() == rs@.len(),
        forall|i: int|
            0 <= i < rs@.len() ==> decoded_from(
                #[trigger] r@[i],
                rs@[i],
                b@,
                output_at(rs@, align as int, i as nat),
                checks_at(rs@[i], output_at(rs@, align as int, i as nat), align as int),
            ),
{
    let plan = plan_outputs(rs, align);
    let len: usize = b.len();
    let mut out: Vec<Decoded> = Vec::new();
    let mut i: usize = 0;
    while i < rs.len()
        invariant
            i <= rs@.len(),
            len == b@.len(),
            align > 0,
            output_at(rs@, align as int, rs@.len()) <= len,
            plan.offsets@.len() == rs@.len(),
            forall|j: int|
                0 <= j < rs@.len() ==> (#[trigger] plan.offsets@[j]).0 == output_at(rs@, align as int, j as nat) && plan.offsets@[j].1
                    == checks_at(rs@[j], output_at(rs@, align as int, j as nat), align as int),
            out@.len() == i,
            forall|j: int|
                0 <= j < i ==> decoded_from(
                    #[trigger] out@[j],
                    rs@[j],
                    b@,
                    output_at(rs@, align as int, j as nat),
                    checks_at(rs@[j], output_at(rs@, align as int, j as nat), align as int),
                ),
        decreases rs@.len() - i,
    {
        let o = plan.offsets[i];
        proof {
            law_outputs_hold_their_results(rs@, align as int, i as nat);
            lemma_output(rs@, align as int, (i + 1) as nat, rs@.len());
        }
        out.push(decode_region(b, &rs[i], o.0 as usize, o.1 as usize));
        i += 1;
    }
    out
}

/// A decoded quad's fields stand one behind the other, in the shader's order.
pub proof fn law_decoded_quads_have_the_declared_offsets()
    ensures
        packed(quad_fields()).len() == 8,
        packed(quad_fields())[0] == ("material"@, 0u64, 4u64),
        packed(quad_fields())[1] == ("face"@, 4u64, 4u64),
        packed(quad_fields())[2] == ("plane"@, 8u64, 4u64),
        packed(quad_fields())[3] == ("u0"@, 12u64, 4u64),
        packed(quad_fields())[4] == ("v0"@, 16u64, 4u64),
        packed(quad_fields())[5] == ("u1"@, 20u64, 4u64),
        packed(quad_fields())[6] == ("v1"@, 24u64, 4u64),
        packed(quad_fields())[7] == ("pad"@, 28u64, 4u64),
        packed(check_fields()).len() == 2,
        packed(check_fields())[0] == ("quad"@, 0u64, 4u64),
        packed(check_fields())[1] == ("ok"@, 4u64, 4u64),
{
    reveal_with_fuel(offset_at, 10);
}

/// Decoding gives back the quads that the shader wrote: a region's quad `i` stands at byte `32 i` of its
/// output, each of its numbers where the declared layout has the field of that name.
pub proof fn law_decoding_gives_back_the_quads(d: Decoded, r: GpuRegion, b: Seq<u8>, q: int, t: int, i: int, x: DecodedQuad)
    requires
        decoded_from(d, r, b, q, t),
        0 <= i < r.quad_count,
        struct_holds(
            b,
            q + 32 * i,
            quad_fields(),
            seq![
                ("material"@, x.material),
                ("face"@, x.face),
                ("plane"@, x.plane),
                ("u0"@, x.u0),
                ("v0"@, x.v0),
                ("u1"@, x.u1),
                ("v1"@, x.v1),
                ("pad"@, x.pad),
            ],
        ),
    ensures
        d.quads@.len() == r.quad_count,
        d.quads@[i] == x,
{
    law_decoded_quads_have_the_declared_offsets();
    let vals = seq![
        ("material"@, x.material),
        ("face"@, x.face),
        ("plane"@, x.plane),
        ("u0"@, x.u0),
        ("v0"@, x.v0),
        ("u1"@, x.u1),
        ("v1"@, x.v1),
        ("pad"@, x.pad),
    ];
    let (fs, at) = (quad_fields(), q + 32 * i);
    lemma_field_reads(b, at, fs, vals, 0, 0);
    lemma_field_reads(b, at, fs, vals, 1, 1);
    lemma_field_reads(b, at, fs, vals, 2, 2);
    lemma_field_reads(b, at, fs, vals, 3, 3);
    lemma_field_reads(b, at, fs, vals, 4, 4);
    lemma_field_reads(b, at, fs, vals, 5, 5);
    lemma_field_reads(b, at, fs, vals, 6, 6);
    lemma_field_reads(b, at, fs, vals, 7, 7);
    assert(d.quads@[i] == quad_at(b, at));
}

/// Decoding gives back the triangle checks that the shader wrote: check `i` stands at byte `8 i` of the checks.
pub proof fn law_decoding_gives_back_the_checks(d: Decoded, r: GpuRegion, b: Seq<u8>, q: int, t: int, i: int, x: TriCheck)
    requires
        decoded_from(d, r, b, q, t),
        0 <= i < r.triangle_count,
        struct_holds(b, t + 8 * i, check_fields(), seq![("quad"@, x.quad), ("ok"@, x.ok)]),
    ensures
        d.triangles@.len() == r.triangle_count,
        d.triangles@[i] == x,
{
    law_decoded_quads_have_the_declared_offsets();
    let vals = seq![("quad"@, x.quad), ("ok"@, x.ok)];
    lemma_field_reads(b, t + 8 * i, check_fields(), vals, 0, 0);
    lemma_field_reads(b, t + 8 * i, check_fields(), vals, 1, 1);
    assert(d.triangles@[i] == check_at(b, t + 8 * i));
}

/// The outputs of different regions lie apart, in region order, each behind the one before it; every start is
/// aligned.
pub proof fn law_outputs_lie_apart(rs: Seq<GpuRegion>, align: int, i: nat, j: nat)
    requires
        align > 0,
        i < j < rs.len(),
    ensures
        checks_at(rs[i as int], output_at(rs, align, i), align) + rs[i as int].triangle_count * 8 <= output_at(rs, align, j),
        output_at(rs, align, i) + rs[i as int].quad_count * 32 <= checks_at(rs[i as int], output_at(rs, align, i), align),
        output_at(rs, align, i) < output_at(rs, align, j),
        output_at(rs, align, j) % align == 0,
        checks_at(rs[j as int], output_at(rs, align, j), align) % align == 0,
    decreases j,
{
    law_outputs_hold_their_results(rs, align, i);
    law_outputs_hold_their_results(rs, align, j);
    lemma_output(rs, align, i + 1, j);
    let (q, r) = (output_at(rs, align, (j - 1) as nat), rs[j - 1]);
    let t = checks_at(r, q, align);
    lemma_output(rs, align, (j - 1) as nat, j);
    lemma_round_up(q + r.quad_count * QUAD_BYTES, align);
    lemma_round_up(t + r.triangle_count * CHECK_BYTES, align);
    assert((t + align) % align == 0) by {
        vstd::arithmetic::div_mod::lemma_mod_add_multiples_vanish(t, align);
    }
    let (p, s) = (output_at(rs, align, i), rs[i as int]);
    lemma_round_up(p + s.quad_count * QUAD_BYTES, align);
}

/// The shader's bindings, by name, have the numbers of their places, and the push constants come last.
pub proof fn law_bindings_are_numbered_in_order(i: int)
    requires
        0 <= i < 6,
    ensures
        layout_view().len() == 7,
        layout_view()[i] is Descriptor && layout_view()[i]->Descriptor_1 == i,
        layout_view()[i]->Descriptor_0 == seq!["quads"@, "vertices"@, "indices"@, "tri_quad"@, "decoded"@, "tri_checks"@][i],
        layout_view()[6] is PushConstants && layout_view()[6]->PushConstants_0 == "params"@,
{
}

/// A binding covers its items, and is never shorter than it must be.
pub proof fn law_bindings_cover_their_items(n: u64, size: int, least: int)
    requires
        size >= 0,
    ensures
        bound_bytes(n, size, least) >= n * size,
        bound_bytes(n, size, least) >= least,
        bound_bytes(n, size, least) == n * size || bound_bytes(n, size, least) == least,
{
}

} // verus!
