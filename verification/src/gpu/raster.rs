//! Raster primary visibility: the layout both modules share, the targets, the draw list, and the
//! readback.
//!
//! - World: right-handed, Y up, voxel units.
//! - Camera-relative: each region is drawn with the difference of the region origin and the camera
//!   origin (integers, exact in single precision).
//! - Depth values are carried as raw bits.
use crate::gpu::bytes::{law_le32_round_trips, le16, le32, lemma_round_up, next_multiple, of_le32, round_up, u16_at, u32_at};
use crate::gpu::fields::{named_sizes, offset_at, packed, plain, pushed, shapes_of, ParamView};
use crate::gpu::json::Reading;
use crate::gpu::json::reads;
use crate::gpu::layout::RegionSize;
use crate::gpu::mesh::GpuRegion;
use crate::gpu::reflect::{check_stages, shapes, stage_faults, stages_say, Param, StageMismatch, Varying, VaryingView};
use vstd::prelude::*;

verus! {

/// Cleared values where no surface was drawn.
pub const BACKGROUND_MATERIAL: u16 = 65535;

pub const BACKGROUND_WORD: u32 = 4294967295;

pub open spec fn param_fields() -> Seq<(Seq<char>, u64)> {
    seq![
        ("row0"@, 16),
        ("row1"@, 16),
        ("row2"@, 16),
        ("row3"@, 16),
        ("region_offset"@, 16),
        ("region_index"@, 4),
        ("pad0"@, 4),
        ("pad1"@, 4),
        ("pad2"@, 4),
    ]
}

pub open spec fn layout_view() -> Seq<ParamView> {
    seq![
        ParamView::Descriptor("quads"@, 0, Seq::empty()),
        ParamView::Descriptor("tri_quad"@, 1, Seq::empty()),
        ParamView::PushConstants("params"@, packed(param_fields())),
    ]
}

/// What the host code assumes about both raster modules.
pub fn host_layout() -> (r: Vec<Param>)
    ensures
        shapes_of(r@) == layout_view(),
{
    let params: [(&'static str, u64); 9] = [
        ("row0", 16),
        ("row1", 16),
        ("row2", 16),
        ("row3", 16),
        ("region_offset", 16),
        ("region_index", 4),
        ("pad0", 4),
        ("pad1", 4),
        ("pad2", 4),
    ];
    proof {
        reveal_with_fuel(offset_at, 11);
        assert(named_sizes(params@) =~= param_fields());
    }
    let r = vec![
        plain("quads", 0),
        plain("tri_quad", 1),
        pushed("params", &params),
    ];
    assert(shapes_of(r@) =~= layout_view());
    r
}

/// The vertex input the pipeline is built for.
pub open spec fn inputs_view() -> Seq<VaryingView> {
    seq![("position"@, 0, "float32"@, 4)]
}

/// The colour outputs, one per target, in location order: normal, material, surface.
pub open spec fn outputs_view() -> Seq<VaryingView> {
    seq![("normal"@, 0, "float32"@, 2), ("material"@, 1, "uint32"@, 1), ("surface"@, 2, "uint32"@, 2)]
}

fn varying(name: &str, location: u64, scalar: &str, components: u64) -> (r: Varying)
    ensures
        r.shape() == (name@, location, scalar@, components),
{
    Varying { name: name.to_owned(), location, scalar: scalar.to_owned(), components }
}

/// The vertex input and colour outputs the pipeline is built for.
pub fn host_varyings() -> (r: (Vec<Varying>, Vec<Varying>))
    ensures
        shapes(r.0@) == inputs_view(),
        shapes(r.1@) == outputs_view(),
{
    let inputs = vec![varying("position", 0, "float32", 4)];
    let outputs = vec![varying("normal", 0, "float32", 2), varying("material", 1, "uint32", 1), varying("surface", 2, "uint32", 2)];
    assert(shapes(inputs@) =~= inputs_view());
    assert(shapes(outputs@) =~= outputs_view());
    (inputs, outputs)
}

/// Checks both modules' reflection against the host declarations.
pub fn check_reflection<F: Fn(&[u8]) -> Option<Option<u64>>>(vs: &str, fs: &str, read: &F) -> (r: Result<(), Vec<StageMismatch>>)
    requires
        forall|t: &[u8]| read.requires((t,)),
    ensures
        exists|expected: Seq<Param>| #[trigger]
            shapes_of(expected) == layout_view() && forall|f: Reading| #[trigger]
                reads(*read, f) ==> match r {
                    Ok(_) => stages_say(vs@, fs@, f, expected, inputs_view(), outputs_view(), Seq::empty()),
                    Err(ms) => ms@.len() > 0 && stages_say(vs@, fs@, f, expected, inputs_view(), outputs_view(), stage_faults(ms@)),
                },
{
    let expected = host_layout();
    let (inputs, outputs) = host_varyings();
    let r = check_stages(vs, fs, expected.as_slice(), &inputs, &outputs, read);
    assert(shapes_of(expected@) == layout_view());
    r
}

/// Planted faults for negative controls. `Default` draws correctly.
#[derive(Clone, Copy, Debug, PartialEq, Eq)]
pub struct Faults {
    /// Added to every region's offset (a camera-offset bug).
    pub offset_error: [i32; 3],
    /// Region (by draw index) left out (a missing-region bug).
    pub skip_region: Option<usize>,
}

impl Default for Faults {
    fn default() -> (r: Faults)
        ensures
            r.offset_error@ == seq![0i32, 0, 0],
            r.skip_region is None,
    {
        let r = Faults { offset_error: [0, 0, 0], skip_region: None };
        assert(r.offset_error@ =~= seq![0i32, 0, 0]);
        r
    }
}

/// One indexed draw.
#[derive(Clone, Copy, Debug, PartialEq, Eq)]
pub struct Draw {
    /// The region's index, which is also its id in the surface target.
    pub region: u32,
    /// The region's place relative to the camera's origin.
    pub offset: [i32; 3],
    pub index_count: u32,
}

/// Coordinate `c` of a region relative to the camera.
pub open spec fn relative(c: i32, camera: i32, error: i32) -> int {
    c - camera + error
}

/// The region can be placed relative to the camera.
pub open spec fn drawable(r: GpuRegion, size: RegionSize, camera: [i32; 3], faults: Faults) -> bool {
    let o = r.key.spec_origin(size);
    &&& r.key.fits(size)
    &&& i32::MIN <= o.x - camera[0] <= i32::MAX && i32::MIN <= relative(o.x, camera[0], faults.offset_error[0]) <= i32::MAX
    &&& i32::MIN <= o.y - camera[1] <= i32::MAX && i32::MIN <= relative(o.y, camera[1], faults.offset_error[1]) <= i32::MAX
    &&& i32::MIN <= o.z - camera[2] <= i32::MAX && i32::MIN <= relative(o.z, camera[2], faults.offset_error[2]) <= i32::MAX
    &&& 3 * r.triangle_count <= u64::MAX
}

pub open spec fn draw_of(r: GpuRegion, i: int, size: RegionSize, camera: [i32; 3], faults: Faults) -> Draw {
    let o = r.key.spec_origin(size);
    Draw {
        region: i as u32,
        offset: [
            relative(o.x, camera[0], faults.offset_error[0]) as i32,
            relative(o.y, camera[1], faults.offset_error[1]) as i32,
            relative(o.z, camera[2], faults.offset_error[2]) as i32,
        ],
        index_count: (3 * r.triangle_count) as u64 as u32,
    }
}

/// Region `i` is drawn: it has triangles and is not left out.
pub open spec fn is_drawn(rs: Seq<GpuRegion>, faults: Faults, i: int) -> bool {
    !(faults.skip_region matches Some(s) && s == i) && rs[i].triangle_count > 0
}

/// The draws of the first `n` regions.
pub open spec fn draws_of(rs: Seq<GpuRegion>, size: RegionSize, camera: [i32; 3], faults: Faults, n: nat) -> Seq<Draw>
    decreases n,
{
    if n == 0 {
        Seq::empty()
    } else {
        let before = draws_of(rs, size, camera, faults, (n - 1) as nat);
        if is_drawn(rs, faults, n - 1) {
            before.push(draw_of(rs[n - 1], n - 1, size, camera, faults))
        } else {
            before
        }
    }
}

/// One indexed draw per region, in region order.
pub fn draws(rs: &[GpuRegion], size: RegionSize, camera: [i32; 3], faults: &Faults) -> (r: Vec<Draw>)
    requires
        rs@.len() <= u32::MAX,
        forall|i: int| 0 <= i < rs@.len() && is_drawn(rs@, *faults, i) ==> drawable(#[trigger] rs@[i], size, camera, *faults),
    ensures
        r@ == draws_of(rs@, size, camera, *faults, rs@.len()),
{
    let mut out: Vec<Draw> = Vec::new();
    let mut i: usize = 0;
    while i < rs.len()
        invariant
            i <= rs@.len() <= u32::MAX,
            forall|j: int| 0 <= j < rs@.len() && is_drawn(rs@, *faults, j) ==> drawable(#[trigger] rs@[j], size, camera, *faults),
            out@ == draws_of(rs@, size, camera, *faults, i as nat),
        decreases rs@.len() - i,
    {
        let r = rs[i];
        let skipped = match faults.skip_region {
            Some(s) => s == i,
            None => false,
        };
        if !skipped && r.triangle_count > 0 {
            assert(is_drawn(rs@, *faults, i as int));
            assert(drawable(rs@[i as int], size, camera, *faults));
            let o = r.key.origin(size);
            let offset: [i32; 3] = [
                o.x - camera[0] + faults.offset_error[0],
                o.y - camera[1] + faults.offset_error[1],
                o.z - camera[2] + faults.offset_error[2],
            ];
            let d = Draw { region: i as u32, offset, index_count: (3 * r.triangle_count) as u32 };
            assert(d.offset@ =~= draw_of(r, i as int, size, camera, *faults).offset@);
            assert(d == draw_of(r, i as int, size, camera, *faults));
            out.push(d);
        }
        i += 1;
    }
    out
}

/// Without planted faults every region with triangles is drawn, under its own index.
pub proof fn law_every_region_is_drawn(rs: Seq<GpuRegion>, size: RegionSize, camera: [i32; 3], faults: Faults, n: nat, i: int)
    requires
        faults.skip_region is None,
        0 <= i < n <= rs.len(),
        n <= u32::MAX,
        rs[i].triangle_count > 0,
    ensures
        exists|d: int| 0 <= d < draws_of(rs, size, camera, faults, n).len() && (#[trigger] draws_of(rs, size, camera, faults, n)[d]).region == i,
    decreases n,
{
    let now = draws_of(rs, size, camera, faults, n);
    let before = draws_of(rs, size, camera, faults, (n - 1) as nat);
    if i < n - 1 {
        law_every_region_is_drawn(rs, size, camera, faults, (n - 1) as nat, i);
        let d = choose|d: int| 0 <= d < before.len() && (#[trigger] before[d]).region == i;
        assert(now[d] == before[d]);
    } else {
        assert(now[now.len() - 1].region == i);
    }
}

/// Bytes bound of a region's quad table and of its triangle map; neither is empty.
pub fn binding_ranges(r: &GpuRegion) -> (s: (u64, u64))
    requires
        8 * r.quad_count <= u64::MAX,
        4 * r.triangle_count <= u64::MAX,
    ensures
        s.0 == if r.quad_count > 0 {
            8 * r.quad_count
        } else {
            8
        },
        s.1 == if r.triangle_count > 0 {
            4 * r.triangle_count
        } else {
            4
        },
{
    (
        if r.quad_count > 0 {
            8 * r.quad_count
        } else {
            8
        },
        if r.triangle_count > 0 {
            4 * r.triangle_count
        } else {
            4
        },
    )
}

/// The targets read back to the host, row-major from the top-left pixel. Depth values are raw bits.
#[derive(Debug, PartialEq, Eq)]
pub struct Frame {
    pub width: u32,
    pub height: u32,
    pub depth: Vec<u32>,
    pub normal: Vec<[i16; 2]>,
    pub material: Vec<u16>,
    pub surface: Vec<[u32; 2]>,
}

/// Where each target's section starts in a readback, and how large it is as a whole.
#[derive(Clone, Copy, Debug, PartialEq, Eq, Structural)]
pub struct Readback {
    pub depth: u64,
    pub normal: u64,
    pub material: u64,
    pub surface: u64,
    pub total: u64,
}

/// The sections of a readback of `px` pixels: depth 4 bytes, normal 4, material 2, surface 8 per
/// pixel, each aligned to 16.
pub open spec fn sections_of(px: int) -> (int, int, int, int, int) {
    let normal = round_up(4 * px, 16);
    let material = round_up(normal + 4 * px, 16);
    let surface = round_up(material + 2 * px, 16);
    (0, normal, material, surface, round_up(surface + 8 * px, 16))
}

/// The sections hold their pixels, do not overlap, and are aligned.
pub proof fn law_readback_sections_hold_their_pixels(px: int)
    requires
        px >= 0,
    ensures
        ({
            let (depth, normal, material, surface, total) = sections_of(px);
            &&& depth + 4 * px <= normal
            &&& normal + 4 * px <= material
            &&& material + 2 * px <= surface
            &&& surface + 8 * px <= total
            &&& total <= 18 * px + 64
            &&& normal % 16 == 0 && material % 16 == 0 && surface % 16 == 0 && total % 16 == 0
        }),
{
    let (_, normal, material, surface, _) = sections_of(px);
    lemma_round_up(4 * px, 16);
    lemma_round_up(normal + 4 * px, 16);
    lemma_round_up(material + 2 * px, 16);
    lemma_round_up(surface + 8 * px, 16);
}

/// The sections of a readback of `px` pixels.
pub fn readback_sections(px: u32) -> (r: Readback)
    ensures
        (r.depth as int, r.normal as int, r.material as int, r.surface as int, r.total as int) == sections_of(px as int),
{
    proof {
        law_readback_sections_hold_their_pixels(px as int);
    }
    let px: u64 = px as u64;
    let normal: u64 = next_multiple(4 * px, 16);
    let material: u64 = next_multiple(normal + 4 * px, 16);
    let surface: u64 = next_multiple(material + 2 * px, 16);
    let total: u64 = next_multiple(surface + 8 * px, 16);
    Readback { depth: 0, normal, material, surface, total }
}

/// The word of four bytes at `o`.
pub open spec fn word(b: Seq<u8>, o: int) -> int {
    of_le32(b.subrange(o, o + 4))
}

/// The word of two bytes at `o`.
pub open spec fn half(b: Seq<u8>, o: int) -> int {
    b[o] + 256 * b[o + 1]
}

/// Pixel `i` of `f` is what a readback's bytes hold for it.
pub open spec fn pixel_read(f: Frame, b: Seq<u8>, px: int, i: int) -> bool {
    let (depth, normal, material, surface, _) = sections_of(px);
    &&& f.depth@[i] == word(b, depth + 4 * i)
    &&& f.normal@[i]@ == seq![half(b, normal + 4 * i) as u16 as i16, half(b, normal + 4 * i + 2) as u16 as i16]
    &&& f.material@[i] == half(b, material + 2 * i)
    &&& f.surface@[i]@ == seq![word(b, surface + 8 * i) as u32, word(b, surface + 8 * i + 4) as u32]
}

/// The frame that a readback's bytes hold.
pub fn read_frame(b: &[u8], width: u32, height: u32) -> (r: Frame)
    requires
        width * height <= u32::MAX,
        sections_of(width * height).4 <= b@.len(),
    ensures
        r.width == width,
        r.height == height,
        r.depth@.len() == width * height,
        r.normal@.len() == width * height,
        r.material@.len() == width * height,
        r.surface@.len() == width * height,
        forall|i: int| 0 <= i < width * height ==> #[trigger] pixel_read(r, b@, width * height, i),
{
    let px: u32 = width * height;
    let s = readback_sections(px);
    proof {
        law_readback_sections_hold_their_pixels(px as int);
    }
    let len: usize = b.len();
    let (depth_at, normal_at, material_at, surface_at): (usize, usize, usize, usize) = (
        s.depth as usize,
        s.normal as usize,
        s.material as usize,
        s.surface as usize,
    );
    let mut r = Frame { width, height, depth: Vec::new(), normal: Vec::new(), material: Vec::new(), surface: Vec::new() };
    let mut i: usize = 0;
    while i < px as usize
        invariant
            i <= px,
            px == width * height,
            len == b@.len(),
            (depth_at as int, normal_at as int, material_at as int, surface_at as int) == (
                sections_of(px as int).0,
                sections_of(px as int).1,
                sections_of(px as int).2,
                sections_of(px as int).3,
            ),
            depth_at + 4 * px <= normal_at,
            normal_at + 4 * px <= material_at,
            material_at + 2 * px <= surface_at,
            surface_at + 8 * px <= len,
            r.width == width,
            r.height == height,
            r.depth@.len() == i,
            r.normal@.len() == i,
            r.material@.len() == i,
            r.surface@.len() == i,
            forall|j: int| 0 <= j < i ==> #[trigger] pixel_read(r, b@, px as int, j),
        decreases px - i,
    {
        let ghost was = r;
        let d: u32 = u32_at(b, depth_at + 4 * i);
        let n0: u16 = u16_at(b, normal_at + 4 * i);
        let n1: u16 = u16_at(b, normal_at + 4 * i + 2);
        let m: u16 = u16_at(b, material_at + 2 * i);
        let s0: u32 = u32_at(b, surface_at + 8 * i);
        let s1: u32 = u32_at(b, surface_at + 8 * i + 4);
        let normal: [i16; 2] = [n0 as i16, n1 as i16];
        let surface: [u32; 2] = [s0, s1];
        assert(normal@ =~= seq![n0 as i16, n1 as i16]);
        assert(surface@ =~= seq![s0, s1]);
        r.depth.push(d);
        r.normal.push(normal);
        r.material.push(m);
        r.surface.push(surface);
        proof {
            assert(pixel_read(r, b@, px as int, i as int));
            assert forall|j: int| 0 <= j < i + 1 implies #[trigger] pixel_read(r, b@, px as int, j) by {
                if j < i {
                    assert(pixel_read(was, b@, px as int, j));
                }
            }
        }
        i += 1;
    }
    r
}

/// A signed half keeps its value through its bits.
pub proof fn lemma_half_bits(x: i16)
    ensures
        x as u16 as i16 == x,
{
    assert(x as u16 as i16 == x) by (bit_vector);
}

/// A word that was written is read back.
pub proof fn lemma_word_written(b: Seq<u8>, o: int, x: u32)
    requires
        b.subrange(o, o + 4) == le32(x),
    ensures
        word(b, o) == x,
{
    law_le32_round_trips(x);
}

proof fn lemma_next_sixteen(x: int, r: int)
    requires
        0 <= x <= r < x + 16,
        r % 16 == 0,
    ensures
        round_up(x, 16) == r,
{
    lemma_round_up(x, 16);
    let s = round_up(x, 16);
    assert(s % 16 == 0 && -16 < s - r < 16);
}

proof fn lemma_sections(px: int, normal_at: int, material_at: int, surface_at: int)
    requires
        0 <= px,
        normal_at % 16 == 0 && 4 * px <= normal_at < 4 * px + 16,
        material_at % 16 == 0 && normal_at + 4 * px <= material_at < normal_at + 4 * px + 16,
        surface_at % 16 == 0 && material_at + 2 * px <= surface_at < material_at + 2 * px + 16,
    ensures
        sections_of(px).0 == 0,
        sections_of(px).1 == normal_at,
        sections_of(px).2 == material_at,
        sections_of(px).3 == surface_at,
        surface_at + 8 * px <= sections_of(px).4,
{
    lemma_next_sixteen(4 * px, normal_at);
    lemma_next_sixteen(normal_at + 4 * px, material_at);
    lemma_next_sixteen(material_at + 2 * px, surface_at);
    lemma_round_up(surface_at + 8 * px, 16);
}

proof fn lemma_half_written(b: Seq<u8>, o: int, x: u16)
    requires
        0 <= o,
        o + 2 <= b.len(),
        b.subrange(o, o + 2) == le16(x),
    ensures
        half(b, o) == x,
{
    assert(b.subrange(o, o + 2)[0] == b[o] && b.subrange(o, o + 2)[1] == b[o + 1]);
}

/// A readback gives back what the targets held: pixel `i` of a frame whose targets were copied one behind the
/// other, depth first, then normal, material and surface, each section aligned to 16 bytes.
pub proof fn law_readback_gives_back_the_targets(
    f: Frame,
    b: Seq<u8>,
    px: int,
    i: int,
    normal_at: int,
    material_at: int,
    surface_at: int,
    depth: u32,
    normal: [i16; 2],
    material: u16,
    surface: [u32; 2],
)
    requires
        0 <= i < px,
        sections_of(px).4 <= b.len(),
        pixel_read(f, b, px, i),
        // Each section starts at the first multiple of 16 behind the one before it.
        normal_at % 16 == 0 && 4 * px <= normal_at < 4 * px + 16,
        material_at % 16 == 0 && normal_at + 4 * px <= material_at < normal_at + 4 * px + 16,
        surface_at % 16 == 0 && material_at + 2 * px <= surface_at < material_at + 2 * px + 16,
        b.subrange(4 * i, 4 * i + 4) == le32(depth),
        b.subrange(normal_at + 4 * i, normal_at + 4 * i + 2) == le16(normal[0] as u16),
        b.subrange(normal_at + 4 * i + 2, normal_at + 4 * i + 4) == le16(normal[1] as u16),
        b.subrange(material_at + 2 * i, material_at + 2 * i + 2) == le16(material),
        b.subrange(surface_at + 8 * i, surface_at + 8 * i + 4) == le32(surface[0]),
        b.subrange(surface_at + 8 * i + 4, surface_at + 8 * i + 8) == le32(surface[1]),
    ensures
        f.depth@[i] == depth,
        f.normal@[i][0] == normal[0] && f.normal@[i][1] == normal[1],
        f.material@[i] == material,
        f.surface@[i][0] == surface[0] && f.surface@[i][1] == surface[1],
{
    lemma_sections(px, normal_at, material_at, surface_at);
    lemma_word_written(b, 4 * i, depth);
    lemma_word_written(b, surface_at + 8 * i, surface[0]);
    lemma_word_written(b, surface_at + 8 * i + 4, surface[1]);
    lemma_half_written(b, normal_at + 4 * i, normal[0] as u16);
    lemma_half_written(b, normal_at + 4 * i + 2, normal[1] as u16);
    lemma_half_written(b, material_at + 2 * i, material);
    lemma_half_bits(normal[0]);
    lemma_half_bits(normal[1]);
    assert(f.normal@[i]@[0] == normal[0] && f.normal@[i]@[1] == normal[1]);
    assert(f.surface@[i]@[0] == surface[0] && f.surface@[i]@[1] == surface[1]);
}

/// Every draw is of one region with triangles that is not left out, in region order: all of its triangles, at the
/// region's origin seen from the camera's.
pub proof fn law_draws_place_their_regions(rs: Seq<GpuRegion>, size: RegionSize, camera: [i32; 3], faults: Faults, n: nat, d: int)
    requires
        n <= rs.len() <= u32::MAX,
        0 <= d < draws_of(rs, size, camera, faults, n).len(),
    ensures
        ({
            let all = draws_of(rs, size, camera, faults, n);
            let i = all[d].region as int;
            let o = rs[i].key.spec_origin(size);
            &&& 0 <= i < n
            &&& rs[i].triangle_count > 0
            &&& faults.skip_region != Some(i as usize)
            &&& forall|e: int| 0 <= e < d ==> (#[trigger] all[e]).region < i
            &&& 3 * rs[i].triangle_count <= u32::MAX ==> all[d].index_count == 3 * rs[i].triangle_count
            &&& drawable(rs[i], size, camera, faults) ==> {
                &&& all[d].offset[0] == o.x - camera[0] + faults.offset_error[0]
                &&& all[d].offset[1] == o.y - camera[1] + faults.offset_error[1]
                &&& all[d].offset[2] == o.z - camera[2] + faults.offset_error[2]
            }
        }),
    decreases n,
{
    let now = draws_of(rs, size, camera, faults, n);
    let before = draws_of(rs, size, camera, faults, (n - 1) as nat);
    if d < before.len() {
        law_draws_place_their_regions(rs, size, camera, faults, (n - 1) as nat, d);
        assert forall|e: int| 0 <= e <= d implies #[trigger] now[e] == before[e] by {}
    } else {
        assert forall|e: int| 0 <= e < d implies (#[trigger] now[e]).region < n - 1 by {
            law_draws_place_their_regions(rs, size, camera, faults, (n - 1) as nat, e);
            assert(now[e] == before[e]);
        }
        let r = rs[n - 1];
        assert(now[d] == draw_of(r, n - 1, size, camera, faults));
        if faults.skip_region is Some {
            assert((n - 1) as usize == n - 1);
        }
    }
}

/// The shader's bindings, by name, have the numbers of their places, and the push constants come last.
pub proof fn law_bindings_are_numbered_in_order(i: int)
    requires
        0 <= i < 2,
    ensures
        layout_view().len() == 3,
        layout_view()[i] is Descriptor && layout_view()[i]->Descriptor_1 == i,
        layout_view()[i]->Descriptor_0 == seq!["quads"@, "tri_quad"@][i],
        layout_view()[2] is PushConstants && layout_view()[2]->PushConstants_0 == "params"@,
{
}

/// The push constants are the rows of the matrix, then the region's offset and index, and fill 96 bytes.
pub proof fn law_params_are_the_matrix_and_the_region()
    ensures
        packed(param_fields()).len() == 9,
        packed(param_fields())[0] == ("row0"@, 0u64, 16u64),
        packed(param_fields())[1] == ("row1"@, 16u64, 16u64),
        packed(param_fields())[2] == ("row2"@, 32u64, 16u64),
        packed(param_fields())[3] == ("row3"@, 48u64, 16u64),
        packed(param_fields())[4] == ("region_offset"@, 64u64, 16u64),
        packed(param_fields())[5] == ("region_index"@, 80u64, 4u64),
        packed(param_fields())[6] == ("pad0"@, 84u64, 4u64),
        packed(param_fields())[7] == ("pad1"@, 88u64, 4u64),
        packed(param_fields())[8] == ("pad2"@, 92u64, 4u64),
{
    reveal_with_fuel(offset_at, 11);
}

} // verus!
