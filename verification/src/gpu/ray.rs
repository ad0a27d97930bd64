//! Primary visibility by ray query: one ray per pixel centre, into the values that the raster
//! targets hold. An id outside the region table gives [`BAD_MATERIAL`].
use crate::gpu::bytes::{le32, u32_at};
use crate::gpu::fields::{lemma_field_reads, named_sizes, offset_at, packed, plain, pushed, shapes_of, struct_holds, structs, ParamView};
use crate::gpu::raster::{lemma_half_bits, lemma_word_written, word, Frame};
use crate::gpu::reflect::Param;
use vstd::prelude::*;

verus! {

/// Material written for a hit whose region, primitive or quad is outside the region table.
pub const BAD_MATERIAL: u16 = 65534;

/// Bytes per pixel of the two output buffers: [`Hit`] and the surface id.
pub const HIT_BYTES: u64 = 16;

pub const SURFACE_BYTES: u64 = 8;

/// One pixel's hit, as the shader writes it.
#[derive(Clone, Copy, Debug, PartialEq, Eq, Structural)]
pub struct Hit {
    pub depth: u32,
    pub normal: u32,
    pub material: u32,
    pub pad: u32,
}

impl Default for Hit {
    fn default() -> (r: Hit)
        ensures
            r == (Hit { depth: 0, normal: 0, material: 0, pad: 0 }),
    {
        Hit { depth: 0, normal: 0, material: 0, pad: 0 }
    }
}

pub open spec fn region_fields() -> Seq<(Seq<char>, u64)> {
    seq![
        ("quads"@, 8),
        ("tri_quad"@, 8),
        ("quad_count"@, 4),
        ("tri_count"@, 4),
    ]
}

pub open spec fn hit_fields() -> Seq<(Seq<char>, u64)> {
    seq![
        ("depth"@, 4),
        ("normal"@, 4),
        ("material"@, 4),
        ("pad"@, 4),
    ]
}

pub open spec fn param_fields() -> Seq<(Seq<char>, u64)> {
    seq![
        ("eye"@, 16),
        ("forward"@, 16),
        ("right"@, 16),
        ("up"@, 16),
        ("width"@, 4),
        ("height"@, 4),
        ("near"@, 4),
        ("pad"@, 4),
    ]
}

pub open spec fn layout_view() -> Seq<ParamView> {
    seq![
        ParamView::Descriptor("tlas"@, 0, Seq::empty()),
        ParamView::Descriptor("regions"@, 1, packed(region_fields())),
        ParamView::Descriptor("hits"@, 2, packed(hit_fields())),
        ParamView::Descriptor("surfaces"@, 3, Seq::empty()),
        ParamView::PushConstants("params"@, packed(param_fields())),
    ]
}

/// What the host code assumes about the trace module.
pub fn host_layout() -> (r: Vec<Param>)
    ensures
        shapes_of(r@) == layout_view(),
{
    let regions: [(&'static str, u64); 4] = [
        ("quads", 8),
        ("tri_quad", 8),
        ("quad_count", 4),
        ("tri_count", 4),
    ];
    let hits: [(&'static str, u64); 4] = [
        ("depth", 4),
        ("normal", 4),
        ("material", 4),
        ("pad", 4),
    ];
    let params: [(&'static str, u64); 8] = [
        ("eye", 16),
        ("forward", 16),
        ("right", 16),
        ("up", 16),
        ("width", 4),
        ("height", 4),
        ("near", 4),
        ("pad", 4),
    ];
    proof {
        reveal_with_fuel(offset_at, 10);
        assert(named_sizes(regions@) =~= region_fields());
        assert(named_sizes(hits@) =~= hit_fields());
        assert(named_sizes(params@) =~= param_fields());
    }
    let r = vec![
        plain("tlas", 0),
        structs("regions", 1, &regions),
        structs("hits", 2, &hits),
        plain("surfaces", 3),
        pushed("params", &params),
    ];
    assert(shapes_of(r@) =~= layout_view());
    r
}

/// Bytes of the hits, and of the surface ids.
pub fn target_bytes(width: u32, height: u32) -> (r: (u64, u64))
    requires
        width * height <= u32::MAX,
    ensures
        r.0 == HIT_BYTES * (width * height),
        r.1 == SURFACE_BYTES * (width * height),
{
    let px: u64 = (width * height) as u64;
    (px * HIT_BYTES, px * SURFACE_BYTES)
}

/// Pixel `i` of `f` is what the outputs hold for it: the hits, then the surface ids.
pub open spec fn pixel_traced(f: Frame, b: Seq<u8>, px: int, i: int) -> bool {
    let n = word(b, 16 * i + 4);
    let s = 16 * px + 8 * i;
    &&& f.depth@[i] == word(b, 16 * i)
    &&& f.normal@[i]@ == seq![(n % 65536) as u16 as i16, (n / 65536) as u16 as i16]
    &&& f.material@[i] == word(b, 16 * i + 8) % 65536
    &&& f.surface@[i]@ == seq![word(b, s) as u32, word(b, s + 4) as u32]
}

/// The frame that the outputs' bytes hold.
pub fn read_trace(b: &[u8], width: u32, height: u32) -> (r: Frame)
    requires
        width * height <= u32::MAX,
        (HIT_BYTES + SURFACE_BYTES) * (width * height) <= b@.len(),
    ensures
        r.width == width,
        r.height == height,
        r.depth@.len() == width * height,
        r.normal@.len() == width * height,
        r.material@.len() == width * height,
        r.surface@.len() == width * height,
        forall|i: int| 0 <= i < width * height ==> #[trigger] pixel_traced(r, b@, width * height, i),
{
    let px: u32 = width * height;
    let len: usize = b.len();
    let n: usize = px as usize;
    let mut r = Frame { width, height, depth: Vec::new(), normal: Vec::new(), material: Vec::new(), surface: Vec::new() };
    let mut i: usize = 0;
    while i < n
        invariant
            i <= n == px,
            px == width * height,
            24 * n <= len == b@.len(),
            r.width == width,
            r.height == height,
            r.depth@.len() == i,
            r.normal@.len() == i,
            r.material@.len() == i,
            r.surface@.len() == i,
            forall|j: int| 0 <= j < i ==> #[trigger] pixel_traced(r, b@, px as int, j),
        decreases n - i,
    {
        let ghost was = r;
        let s: usize = 16 * n + 8 * i;
        let w: u32 = u32_at(b, 16 * i + 4);
        let m: u32 = u32_at(b, 16 * i + 8);
        let normal: [i16; 2] = [(w % 65536) as u16 as i16, (w / 65536) as u16 as i16];
        let surface: [u32; 2] = [u32_at(b, s), u32_at(b, s + 4)];
        assert(normal@ =~= seq![(w % 65536) as u16 as i16, (w / 65536) as u16 as i16]);
        assert(surface@ =~= seq![word(b@, s as int) as u32, word(b@, s + 4) as u32]);
        r.depth.push(u32_at(b, 16 * i));
        r.normal.push(normal);
        r.material.push((m % 65536) as u16);
        r.surface.push(surface);
        proof {
            assert(pixel_traced(r, b@, px as int, i as int));
            assert forall|j: int| 0 <= j < i + 1 implies #[trigger] pixel_traced(r, b@, px as int, j) by {
                if j < i {
                    assert(pixel_traced(was, b@, px as int, j));
                }
            }
        }
        i += 1;
    }
    r
}

/// A hit's fields stand one behind the other, in the shader's order.
pub proof fn law_hits_have_the_declared_offsets()
    ensures
        packed(hit_fields()).len() == 4,
        packed(hit_fields())[0] == ("depth"@, 0u64, 4u64),
        packed(hit_fields())[1] == ("normal"@, 4u64, 4u64),
        packed(hit_fields())[2] == ("material"@, 8u64, 4u64),
        packed(hit_fields())[3] == ("pad"@, 12u64, 4u64),
{
    reveal_with_fuel(offset_at, 10);
}

proof fn lemma_halves(lo: u16, hi: u16, w: u32)
    requires
        w == lo + 65536 * hi,
    ensures
        w % 65536 == lo,
        w / 65536 == hi,
{
}

/// Reading back gives what the shader wrote: the hit of pixel `i` stands at byte `16 i`, each of its numbers
/// where the declared layout has the field of that name, the normal's two halves in one word, low half first.
/// The surface ids stand behind the hits of all pixels, two words each.
pub proof fn law_traces_give_back_the_hits(
    f: Frame,
    b: Seq<u8>,
    px: int,
    i: int,
    depth: u32,
    normal: [i16; 2],
    material: u16,
    pad: u32,
    surface: [u32; 2],
)
    requires
        0 <= i < px,
        24 * px <= b.len(),
        pixel_traced(f, b, px, i),
        struct_holds(
            b,
            16 * i,
            hit_fields(),
            seq![
                ("depth"@, depth),
                ("normal"@, ((normal[0] as u16) + 65536 * (normal[1] as u16)) as u32),
                ("material"@, material as u32),
                ("pad"@, pad),
            ],
        ),
        b.subrange(16 * px + 8 * i, 16 * px + 8 * i + 4) == le32(surface[0]),
        b.subrange(16 * px + 8 * i + 4, 16 * px + 8 * i + 8) == le32(surface[1]),
    ensures
        f.depth@[i] == depth,
        f.normal@[i][0] == normal[0] && f.normal@[i][1] == normal[1],
        f.material@[i] == material,
        f.surface@[i][0] == surface[0] && f.surface@[i][1] == surface[1],
{
    law_hits_have_the_declared_offsets();
    let (lo, hi) = (normal[0] as u16, normal[1] as u16);
    let w = (lo + 65536 * hi) as u32;
    assert(w == lo + 65536 * hi);
    let vals = seq![("depth"@, depth), ("normal"@, w), ("material"@, material as u32), ("pad"@, pad)];
    lemma_field_reads(b, 16 * i, hit_fields(), vals, 0, 0);
    lemma_field_reads(b, 16 * i, hit_fields(), vals, 1, 1);
    lemma_field_reads(b, 16 * i, hit_fields(), vals, 2, 2);
    lemma_halves(lo, hi, w);
    lemma_half_bits(normal[0]);
    lemma_half_bits(normal[1]);
    lemma_word_written(b, 16 * px + 8 * i, surface[0]);
    lemma_word_written(b, 16 * px + 8 * i + 4, surface[1]);
    assert(f.normal@[i]@[0] == normal[0] && f.normal@[i]@[1] == normal[1]);
    assert(f.surface@[i]@[0] == surface[0] && f.surface@[i]@[1] == surface[1]);
}

/// The shader's bindings, by name, have the numbers of their places, and the push constants come last.
pub proof fn law_bindings_are_numbered_in_order(i: int)
    requires
        0 <= i < 4,
    ensures
        layout_view().len() == 5,
        layout_view()[i] is Descriptor && layout_view()[i]->Descriptor_1 == i,
        layout_view()[i]->Descriptor_0 == seq!["tlas"@, "regions"@, "hits"@, "surfaces"@][i],
        layout_view()[4] is PushConstants && layout_view()[4]->PushConstants_0 == "params"@,
{
}

/// The push constants are the camera and then the frame, and fill 80 bytes.
pub proof fn law_params_are_the_camera_and_the_frame()
    ensures
        packed(param_fields()).len() == 8,
        packed(param_fields())[0] == ("eye"@, 0u64, 16u64),
        packed(param_fields())[1] == ("forward"@, 16u64, 16u64),
        packed(param_fields())[2] == ("right"@, 32u64, 16u64),
        packed(param_fields())[3] == ("up"@, 48u64, 16u64),
        packed(param_fields())[4] == ("width"@, 64u64, 4u64),
        packed(param_fields())[5] == ("height"@, 68u64, 4u64),
        packed(param_fields())[6] == ("near"@, 72u64, 4u64),
        packed(param_fields())[7] == ("pad"@, 76u64, 4u64),
{
    reveal_with_fuel(offset_at, 10);
}

/// A row of the region table is two addresses and then two counts.
pub proof fn law_region_rows_are_addresses_and_counts()
    ensures
        packed(region_fields()).len() == 4,
        packed(region_fields())[0] == ("quads"@, 0u64, 8u64),
        packed(region_fields())[1] == ("tri_quad"@, 8u64, 8u64),
        packed(region_fields())[2] == ("quad_count"@, 16u64, 4u64),
        packed(region_fields())[3] == ("tri_count"@, 20u64, 4u64),
{
    reveal_with_fuel(offset_at, 6);
}

} // verus!
