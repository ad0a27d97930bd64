//! Real-time lighting from the raster targets: direct sun, sky light, one bounce, and emitters. The
//! settings decide the pass's flags.
use crate::gpu::fields::{named_sizes, offset_at, packed, plain, pushed, shapes_of, structs, ParamView};
use crate::gpu::reflect::Param;
use vstd::prelude::*;

verus! {

/// Bytes per pixel of the radiance output.
pub const RADIANCE_BYTES: u64 = 16;

pub const SUN: u32 = 1;

pub const SKY: u32 = 2;

pub const POINT_SUN: u32 = 4;

pub const UNIFORM_SKY: u32 = 8;

pub const BOUNCE: u32 = 16;

pub const EMITTERS: u32 = 32;

pub const FAULT_FLIP_X: u32 = 256;

pub const FAULT_DEPTH: u32 = 512;

pub const FAULT_NO_SOLID_ANGLE: u32 = 1024;

/// What the pass computes.
#[derive(Clone, Copy, Debug, PartialEq, Eq, Structural)]
pub struct ShadeSettings {
    pub sun: bool,
    pub sky: bool,
    /// Sample the sun's centre only (hard shadows): the exact control.
    pub point_sun: bool,
    /// Control: the sky is 1 in every direction and the sun is off.
    pub uniform_sky: bool,
    /// One bounce of diffuse light (sun and sky at the continuation ray's hit).
    pub bounce: bool,
    /// Emitter next-event estimation at the primary vertex and the bounce hit. Needs bindings with
    /// an emitter table.
    pub emitters: bool,
    /// Emitter samples at the primary vertex, at least one.
    pub emitter_samples: u32,
}

impl ShadeSettings {
    /// Every term off (for building control arms).
    pub open spec fn none() -> ShadeSettings {
        ShadeSettings {
            sun: false,
            sky: false,
            point_sun: false,
            uniform_sky: false,
            bounce: false,
            emitters: false,
            emitter_samples: 1,
        }
    }

    /// Every term off (for building control arms).
    pub fn off() -> (r: ShadeSettings)
        ensures
            r == ShadeSettings::none(),
    {
        ShadeSettings {
            sun: false,
            sky: false,
            point_sun: false,
            uniform_sky: false,
            bounce: false,
            emitters: false,
            emitter_samples: 1,
        }
    }
}

impl Default for ShadeSettings {
    fn default() -> (r: ShadeSettings)
        ensures
            r == (ShadeSettings { sun: true, sky: true, bounce: true, ..ShadeSettings::none() }),
    {
        ShadeSettings { sun: true, sky: true, bounce: true, ..ShadeSettings::off() }
    }
}

/// Planted faults for negative controls; all off by default.
#[derive(Clone, Copy, Debug, PartialEq, Eq, Structural)]
pub struct ShadeFaults {
    /// Flip the normal of the faces across x.
    pub flip_x: bool,
    /// Rebuild the surface point 1% too far along the pixel ray.
    pub depth: bool,
    /// The emitter density without the solid-angle conversion.
    pub no_solid_angle: bool,
}

impl Default for ShadeFaults {
    fn default() -> (r: ShadeFaults)
        ensures
            r == (ShadeFaults { flip_x: false, depth: false, no_solid_angle: false }),
    {
        ShadeFaults { flip_x: false, depth: false, no_solid_angle: false }
    }
}

pub open spec fn region_fields() -> Seq<(Seq<char>, u64)> {
    seq![
        ("quads"@, 8),
        ("tri_quad"@, 8),
        ("quad_count"@, 4),
        ("tri_count"@, 4),
    ]
}

pub open spec fn emitter_fields() -> Seq<(Seq<char>, u64)> {
    seq![
        ("p0_area"@, 16),
        ("eu_pdf"@, 16),
        ("ev"@, 16),
        ("radiance"@, 16),
        ("meta"@, 16),
    ]
}

pub open spec fn param_fields() -> Seq<(Seq<char>, u64)> {
    seq![
        ("eye"@, 16),
        ("forward"@, 16),
        ("right"@, 16),
        ("up"@, 16),
        ("sun_dir"@, 16),
        ("sun_ground"@, 16),
        ("width"@, 4),
        ("height"@, 4),
        ("frame"@, 4),
        ("seed"@, 4),
        ("flags"@, 4),
        ("pad0"@, 4),
        ("pad1"@, 4),
        ("pad2"@, 4),
    ]
}

pub open spec fn layout_view() -> Seq<ParamView> {
    seq![
        ParamView::Descriptor("depth_tex"@, 0, Seq::empty()),
        ParamView::Descriptor("normal_tex"@, 1, Seq::empty()),
        ParamView::Descriptor("material_tex"@, 2, Seq::empty()),
        ParamView::Descriptor("tlas"@, 3, Seq::empty()),
        ParamView::Descriptor("albedo"@, 4, Seq::empty()),
        ParamView::Descriptor("radiance"@, 5, Seq::empty()),
        ParamView::Descriptor("sky_view"@, 6, Seq::empty()),
        ParamView::Descriptor("regions"@, 7, packed(region_fields())),
        ParamView::Descriptor("emitters"@, 8, packed(emitter_fields())),
        ParamView::PushConstants("params"@, packed(param_fields())),
    ]
}

/// What the host code assumes about the shade module.
pub fn host_layout() -> (r: Vec<Param>)
    ensures
        shapes_of(r@) == layout_view(),
{
    let regions: [(&'static str, u64); 4] = [
        ("quads", 8),
        ("tri_quad", 8),
        ("quad_count", 4),
        ("tri_count", 4),
    ];
    let emitters: [(&'static str, u64); 5] = [
        ("p0_area", 16),
        ("eu_pdf", 16),
        ("ev", 16),
        ("radiance", 16),
        ("meta", 16),
    ];
    let params: [(&'static str, u64); 14] = [
        ("eye", 16),
        ("forward", 16),
        ("right", 16),
        ("up", 16),
        ("sun_dir", 16),
        ("sun_ground", 16),
        ("width", 4),
        ("height", 4),
        ("frame", 4),
        ("seed", 4),
        ("flags", 4),
        ("pad0", 4),
        ("pad1", 4),
        ("pad2", 4),
    ];
    proof {
        reveal_with_fuel(offset_at, 16);
        assert(named_sizes(regions@) =~= region_fields());
        assert(named_sizes(emitters@) =~= emitter_fields());
        assert(named_sizes(params@) =~= param_fields());
    }
    let r = vec![
        plain("depth_tex", 0),
        plain("normal_tex", 1),
        plain("material_tex", 2),
        plain("tlas", 3),
        plain("albedo", 4),
        plain("radiance", 5),
        plain("sky_view", 6),
        structs("regions", 7, &regions),
        structs("emitters", 8, &emitters),
        pushed("params", &params),
    ];
    assert(shapes_of(r@) =~= layout_view());
    r
}

/// `f` with `bit` where `on`.
pub open spec fn with_bit(f: u32, on: bool, bit: u32) -> u32 {
    if on {
        f | bit
    } else {
        f
    }
}

/// `f` with `bit` where `on`.
pub fn set_bit(f: u32, on: bool, bit: u32) -> (r: u32)
    ensures
        r == with_bit(f, on, bit),
{
    if on {
        f | bit
    } else {
        f
    }
}

/// `bit` is set in `f`.
pub open spec fn holds(f: u32, bit: u32) -> bool {
    f & bit != 0
}

/// The pass's flags: one bit for each setting and each fault, and no other.
pub fn flags(s: ShadeSettings, faults: ShadeFaults) -> (r: u32)
    ensures
        holds(r, SUN) == s.sun,
        holds(r, SKY) == s.sky,
        holds(r, POINT_SUN) == s.point_sun,
        holds(r, UNIFORM_SKY) == s.uniform_sky,
        holds(r, BOUNCE) == s.bounce,
        holds(r, EMITTERS) == s.emitters,
        holds(r, FAULT_FLIP_X) == faults.flip_x,
        holds(r, FAULT_DEPTH) == faults.depth,
        holds(r, FAULT_NO_SOLID_ANGLE) == faults.no_solid_angle,
        r & !1855u32 == 0,
{
    let a: u32 = set_bit(0, s.sun, SUN);
    let b: u32 = set_bit(a, s.sky, SKY);
    let c: u32 = set_bit(b, s.point_sun, POINT_SUN);
    let d: u32 = set_bit(c, s.uniform_sky, UNIFORM_SKY);
    let e: u32 = set_bit(d, s.bounce, BOUNCE);
    let f: u32 = set_bit(e, s.emitters, EMITTERS);
    let g: u32 = set_bit(f, faults.flip_x, FAULT_FLIP_X);
    let h: u32 = set_bit(g, faults.depth, FAULT_DEPTH);
    let r: u32 = set_bit(h, faults.no_solid_angle, FAULT_NO_SOLID_ANGLE);
    proof {
        lemma_flags(
            [s.sun, s.sky, s.point_sun, s.uniform_sky, s.bounce, s.emitters, faults.flip_x, faults.depth, faults.no_solid_angle],
            a,
            b,
            c,
            d,
            e,
            f,
            g,
            h,
            r,
        );
    }
    r
}

proof fn lemma_flags(on: [bool; 9], a: u32, b: u32, c: u32, d: u32, e: u32, f: u32, g: u32, h: u32, r: u32)
    requires
        a == with_bit(0, on[0], 1),
        b == with_bit(a, on[1], 2),
        c == with_bit(b, on[2], 4),
        d == with_bit(c, on[3], 8),
        e == with_bit(d, on[4], 16),
        f == with_bit(e, on[5], 32),
        g == with_bit(f, on[6], 256),
        h == with_bit(g, on[7], 512),
        r == with_bit(h, on[8], 1024),
    ensures
        holds(r, 1) == on[0],
        holds(r, 2) == on[1],
        holds(r, 4) == on[2],
        holds(r, 8) == on[3],
        holds(r, 16) == on[4],
        holds(r, 32) == on[5],
        holds(r, 256) == on[6],
        holds(r, 512) == on[7],
        holds(r, 1024) == on[8],
        r & !1855u32 == 0,
{
    let (x0, x1, x2, x3, x4, x5, x6, x7, x8) = (on[0], on[1], on[2], on[3], on[4], on[5], on[6], on[7], on[8]);
    assert(holds(r, 1) == x0 && holds(r, 2) == x1 && holds(r, 4) == x2 && holds(r, 8) == x3 && holds(r, 16) == x4 && holds(r, 32) == x5 && holds(r, 256)
        == x6 && holds(r, 512) == x7 && holds(r, 1024) == x8 && r & !1855u32 == 0) by (bit_vector)
        requires
            a == with_bit(0, x0, 1),
            b == with_bit(a, x1, 2),
            c == with_bit(b, x2, 4),
            d == with_bit(c, x3, 8),
            e == with_bit(d, x4, 16),
            f == with_bit(e, x5, 32),
            g == with_bit(f, x6, 256),
            h == with_bit(g, x7, 512),
            r == with_bit(h, x8, 1024),
    ;
}

/// The emitter samples the shader takes.
pub fn samples(s: ShadeSettings) -> (r: u32)
    ensures
        r == if s.emitter_samples > 0 {
            s.emitter_samples
        } else {
            1
        },
{
    if s.emitter_samples > 0 {
        s.emitter_samples
    } else {
        1
    }
}

/// Whether bindings serve a pass: emitter flags need an emitter table. `bound` is the table's
/// emitter count.
pub fn serves(flags: u32, bound: Option<u32>) -> (r: bool)
    ensures
        r == (!holds(flags, EMITTERS) || bound is Some),
{
    flags & EMITTERS == 0 || bound.is_some()
}

/// Bytes bound of an emitter table; never none.
pub fn emitter_range(count: u32) -> (r: u64)
    ensures
        r == 80 * (if count > 0 {
            count as int
        } else {
            1
        }),
{
    80 * (if count > 0 {
        count as u64
    } else {
        1
    })
}

/// Bytes bound of a table of one row per material; never none.
pub fn material_range(count: u32) -> (r: u64)
    ensures
        r == 16 * (if count > 0 {
            count as int
        } else {
            1
        }),
{
    16 * (if count > 0 {
        count as u64
    } else {
        1
    })
}

/// Each flag is one binary digit of the word, at the place where the shader tests it.
pub proof fn law_flags_are_binary_digits(r: u32)
    ensures
        holds(r, SUN) <==> r / 1 % 2 == 1,
        holds(r, SKY) <==> r / 2 % 2 == 1,
        holds(r, POINT_SUN) <==> r / 4 % 2 == 1,
        holds(r, UNIFORM_SKY) <==> r / 8 % 2 == 1,
        holds(r, BOUNCE) <==> r / 16 % 2 == 1,
        holds(r, EMITTERS) <==> r / 32 % 2 == 1,
        holds(r, FAULT_FLIP_X) <==> r / 256 % 2 == 1,
        holds(r, FAULT_DEPTH) <==> r / 512 % 2 == 1,
        holds(r, FAULT_NO_SOLID_ANGLE) <==> r / 1024 % 2 == 1,
{
    assert((r & 1u32 != 0 <==> r / 1 % 2 == 1) && (r & 2u32 != 0 <==> r / 2 % 2 == 1) && (r & 4u32 != 0 <==> r / 4 % 2 == 1)
        && (r & 8u32 != 0 <==> r / 8 % 2 == 1) && (r & 16u32 != 0 <==> r / 16 % 2 == 1) && (r & 32u32 != 0 <==> r / 32 % 2 == 1)
        && (r & 256u32 != 0 <==> r / 256 % 2 == 1) && (r & 512u32 != 0 <==> r / 512 % 2 == 1) && (r & 1024u32 != 0 <==> r / 1024 % 2 == 1)) by (bit_vector);
}

/// Setting a bit sets it where asked to, and leaves all others as they are.
pub proof fn law_setting_a_bit_keeps_the_others(f: u32, on: bool, bit: u32, other: u32)
    ensures
        holds(with_bit(f, on, bit), other) <==> holds(f, other) || (on && bit & other != 0),
        !on ==> with_bit(f, on, bit) == f,
{
    assert((f | bit) & other != 0 <==> (f & other != 0 || bit & other != 0)) by (bit_vector);
}

} // verus!
