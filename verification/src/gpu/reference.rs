//! The reference path tracer: one sample per pixel per dispatch, accumulated over frames, several
//! dispatches per submission.
use crate::gpu::fields::{named_sizes, offset_at, packed, plain, pushed, shapes_of, structs, ParamView};
use crate::gpu::reflect::Param;
use crate::gpu::shade::{holds, set_bit, with_bit};
use vstd::prelude::*;

verus! {

/// Bytes per pixel of the accumulation buffer: sum and sum of squares.
pub const ACC_BYTES: u64 = 32;

/// The most scattering events of a sky path.
pub const MAX_EVENTS: u32 = 32;

/// The event from which sky paths end at random.
pub const RR_FROM: u32 = 3;

pub const SUN: u32 = 1;

pub const SKY: u32 = 2;

pub const POINT_SUN: u32 = 4;

pub const UNIFORM_SKY: u32 = 8;

pub const ALBEDO_ONE: u32 = 16;

pub const RESET: u32 = 32;

pub const PROBE_T: u32 = 64;

pub const EMISSION: u32 = 128;

pub const FAULT_PDF: u32 = 256;

pub const FAULT_NO_COS: u32 = 512;

pub const EMITTERS_DIRECT: u32 = 1024;

pub const EMITTERS_INDIRECT: u32 = 2048;

pub const EMITTER_AREA: u32 = 4096;

pub const FAULT_NO_SOLID_ANGLE: u32 = 8192;

pub const FAULT_DOUBLE_EMISSION: u32 = 16384;

pub const FAULT_NO_EMITTER_COS: u32 = 32768;

/// Planted faults for negative controls; all off by default.
#[derive(Clone, Copy, Debug, PartialEq, Eq, Structural)]
pub struct RefFaults {
    /// A wrong continuation weight.
    pub wrong_pdf: bool,
    /// The sun term without its cosine.
    pub no_cosine: bool,
}

impl Default for RefFaults {
    fn default() -> (r: RefFaults)
        ensures
            r == (RefFaults { wrong_pdf: false, no_cosine: false }),
    {
        RefFaults { wrong_pdf: false, no_cosine: false }
    }
}

/// The terms of the estimator, and the planted emitter faults.
#[derive(Clone, Copy, Debug, PartialEq, Eq, Structural)]
pub struct RefSettings {
    pub sun: bool,
    pub sky: bool,
    pub point_sun: bool,
    pub uniform_sky: bool,
    pub albedo_one: bool,
    pub emission: bool,
    pub emitters_direct: bool,
    pub emitters_indirect: bool,
    pub emitter_area_sampling: bool,
    pub no_solid_angle: bool,
    pub double_emission: bool,
    pub no_emitter_cosine: bool,
}

pub open spec fn region_fields() -> Seq<(Seq<char>, u64)> {
    seq![
        ("quads"@, 8),
        ("tri_quad"@, 8),
        ("quad_count"@, 4),
        ("tri_count"@, 4),
    ]
}

pub open spec fn acc_fields() -> Seq<(Seq<char>, u64)> {
    seq![
        ("sum"@, 16),
        ("sum_sq"@, 16),
    ]
}

pub open spec fn emitter_fields() -> Seq<(Seq<char>, u64)> {
    seq![
        ("p0_area"@, 16),
        ("eu_pdf"@, 16),
        ("ev"@, 16),
        ("radiance"@, 16),
        ("meta"@, 16),
    ]
}

pub open spec fn param_fields() -> Seq<(Seq<char>, u64)> {
    seq![
        ("eye"@, 16),
        ("forward"@, 16),
        ("right"@, 16),
        ("up"@, 16),
        ("sun_dir"@, 16),
        ("sun_ground"@, 16),
        ("width"@, 4),
        ("height"@, 4),
        ("frame"@, 4),
        ("seed"@, 4),
        ("flags"@, 4),
        ("max_bounces"@, 4),
        ("steps"@, 4),
        ("sun_steps"@, 4),
    ]
}

pub open spec fn layout_view() -> Seq<ParamView> {
    seq![
        ParamView::Descriptor("tlas"@, 0, Seq::empty()),
        ParamView::Descriptor("regions"@, 1, packed(region_fields())),
        ParamView::Descriptor("albedo"@, 2, Seq::empty()),
        ParamView::Descriptor("acc"@, 3, packed(acc_fields())),
        ParamView::Descriptor("emitters"@, 4, packed(emitter_fields())),
        ParamView::Descriptor("emission"@, 5, Seq::empty()),
        ParamView::PushConstants("params"@, packed(param_fields())),
    ]
}

/// What the host code assumes about the reference module.
pub fn host_layout() -> (r: Vec<Param>)
    ensures
        shapes_of(r@) == layout_view(),
{
    let regions: [(&'static str, u64); 4] = [
        ("quads", 8),
        ("tri_quad", 8),
        ("quad_count", 4),
        ("tri_count", 4),
    ];
    let accs: [(&'static str, u64); 2] = [
        ("sum", 16),
        ("sum_sq", 16),
    ];
    let emitters: [(&'static str, u64); 5] = [
        ("p0_area", 16),
        ("eu_pdf", 16),
        ("ev", 16),
        ("radiance", 16),
        ("meta", 16),
    ];
    let params: [(&'static str, u64); 14] = [
        ("eye", 16),
        ("forward", 16),
        ("right", 16),
        ("up", 16),
        ("sun_dir", 16),
        ("sun_ground", 16),
        ("width", 4),
        ("height", 4),
        ("frame", 4),
        ("seed", 4),
        ("flags", 4),
        ("max_bounces", 4),
        ("steps", 4),
        ("sun_steps", 4),
    ];
    proof {
        reveal_with_fuel(offset_at, 16);
        assert(named_sizes(regions@) =~= region_fields());
        assert(named_sizes(accs@) =~= acc_fields());
        assert(named_sizes(emitters@) =~= emitter_fields());
        assert(named_sizes(params@) =~= param_fields());
    }
    let r = vec![
        plain("tlas", 0),
        structs("regions", 1, &regions),
        plain("albedo", 2),
        structs("acc", 3, &accs),
        structs("emitters", 4, &emitters),
        plain("emission", 5),
        pushed("params", &params),
    ];
    assert(shapes_of(r@) =~= layout_view());
    r
}

/// The pass's flags: one bit for each setting and each fault, and no other.
pub fn flags(s: RefSettings, faults: RefFaults) -> (r: u32)
    ensures
        holds(r, SUN) == s.sun,
        holds(r, SKY) == s.sky,
        holds(r, POINT_SUN) == s.point_sun,
        holds(r, UNIFORM_SKY) == s.uniform_sky,
        holds(r, ALBEDO_ONE) == s.albedo_one,
        holds(r, FAULT_PDF) == faults.wrong_pdf,
        holds(r, FAULT_NO_COS) == faults.no_cosine,
        holds(r, EMISSION) == s.emission,
        holds(r, EMITTERS_DIRECT) == s.emitters_direct,
        holds(r, EMITTERS_INDIRECT) == s.emitters_indirect,
        holds(r, EMITTER_AREA) == s.emitter_area_sampling,
        holds(r, FAULT_NO_SOLID_ANGLE) == s.no_solid_angle,
        holds(r, FAULT_DOUBLE_EMISSION) == s.double_emission,
        holds(r, FAULT_NO_EMITTER_COS) == s.no_emitter_cosine,
        !holds(r, RESET),
        !holds(r, PROBE_T),
        r <= 65535,
{
    let a: u32 = set_bit(0, s.sun, SUN);
    let b: u32 = set_bit(a, s.sky, SKY);
    let c: u32 = set_bit(b, s.point_sun, POINT_SUN);
    let d: u32 = set_bit(c, s.uniform_sky, UNIFORM_SKY);
    let e: u32 = set_bit(d, s.albedo_one, ALBEDO_ONE);
    let f: u32 = set_bit(e, faults.wrong_pdf, FAULT_PDF);
    let g: u32 = set_bit(f, faults.no_cosine, FAULT_NO_COS);
    let h: u32 = set_bit(g, s.emission, EMISSION);
    let i: u32 = set_bit(h, s.emitters_direct, EMITTERS_DIRECT);
    let j: u32 = set_bit(i, s.emitters_indirect, EMITTERS_INDIRECT);
    let k: u32 = set_bit(j, s.emitter_area_sampling, EMITTER_AREA);
    let l: u32 = set_bit(k, s.no_solid_angle, FAULT_NO_SOLID_ANGLE);
    let m: u32 = set_bit(l, s.double_emission, FAULT_DOUBLE_EMISSION);
    let r: u32 = set_bit(m, s.no_emitter_cosine, FAULT_NO_EMITTER_COS);
    proof {
        lemma_light_flags([s.sun, s.sky, s.point_sun, s.uniform_sky, s.albedo_one, faults.wrong_pdf, faults.no_cosine], a, b, c, d, e, f, g);
        lemma_emitter_flags(
            [s.emission, s.emitters_direct, s.emitters_indirect, s.emitter_area_sampling, s.no_solid_angle, s.double_emission, s.no_emitter_cosine],
            g,
            h,
            i,
            j,
            k,
            l,
            m,
            r,
        );
    }
    r
}

proof fn lemma_light_flags(on: [bool; 7], a: u32, b: u32, c: u32, d: u32, e: u32, f: u32, g: u32)
    requires
        a == with_bit(0, on[0], 1),
        b == with_bit(a, on[1], 2),
        c == with_bit(b, on[2], 4),
        d == with_bit(c, on[3], 8),
        e == with_bit(d, on[4], 16),
        f == with_bit(e, on[5], 256),
        g == with_bit(f, on[6], 512),
    ensures
        holds(g, 1) == on[0],
        holds(g, 2) == on[1],
        holds(g, 4) == on[2],
        holds(g, 8) == on[3],
        holds(g, 16) == on[4],
        holds(g, 256) == on[5],
        holds(g, 512) == on[6],
        g & !799u32 == 0,
{
    let (x0, x1, x2, x3, x4, x5, x6) = (on[0], on[1], on[2], on[3], on[4], on[5], on[6]);
    assert(holds(g, 1) == x0 && holds(g, 2) == x1 && holds(g, 4) == x2 && holds(g, 8) == x3 && holds(g, 16) == x4 && holds(g, 256) == x5 && holds(g, 512)
        == x6 && g & !799u32 == 0) by (bit_vector)
        requires
            a == with_bit(0, x0, 1),
            b == with_bit(a, x1, 2),
            c == with_bit(b, x2, 4),
            d == with_bit(c, x3, 8),
            e == with_bit(d, x4, 16),
            f == with_bit(e, x5, 256),
            g == with_bit(f, x6, 512),
    ;
}

proof fn lemma_emitter_flags(on: [bool; 7], g: u32, h: u32, i: u32, j: u32, k: u32, l: u32, m: u32, r: u32)
    requires
        g & !799u32 == 0,
        h == with_bit(g, on[0], 128),
        i == with_bit(h, on[1], 1024),
        j == with_bit(i, on[2], 2048),
        k == with_bit(j, on[3], 4096),
        l == with_bit(k, on[4], 8192),
        m == with_bit(l, on[5], 16384),
        r == with_bit(m, on[6], 32768),
    ensures
        holds(r, 128) == on[0],
        holds(r, 1024) == on[1],
        holds(r, 2048) == on[2],
        holds(r, 4096) == on[3],
        holds(r, 8192) == on[4],
        holds(r, 16384) == on[5],
        holds(r, 32768) == on[6],
        r & 799u32 == g,
        holds(r, 1) == holds(g, 1),
        holds(r, 2) == holds(g, 2),
        holds(r, 4) == holds(g, 4),
        holds(r, 8) == holds(g, 8),
        holds(r, 16) == holds(g, 16),
        holds(r, 256) == holds(g, 256),
        holds(r, 512) == holds(g, 512),
        !holds(r, 32),
        !holds(r, 64),
        r <= 65535,
{
    let (x0, x1, x2, x3, x4, x5, x6) = (on[0], on[1], on[2], on[3], on[4], on[5], on[6]);
    assert(holds(r, 128) == x0 && holds(r, 1024) == x1 && holds(r, 2048) == x2 && holds(r, 4096) == x3 && holds(r, 8192) == x4 && holds(r, 16384) == x5
        && holds(r, 32768) == x6 && r & 799u32 == g && !holds(r, 32) && !holds(r, 64) && r <= 65535) by (bit_vector)
        requires
            g & !799u32 == 0,
            h == with_bit(g, x0, 128),
            i == with_bit(h, x1, 1024),
            j == with_bit(i, x2, 2048),
            k == with_bit(j, x3, 4096),
            l == with_bit(k, x4, 8192),
            m == with_bit(l, x5, 16384),
            r == with_bit(m, x6, 32768),
    ;
    assert(holds(r, 1) == holds(g, 1) && holds(r, 2) == holds(g, 2) && holds(r, 4) == holds(g, 4) && holds(r, 8) == holds(g, 8) && holds(r, 16) == holds(g, 16) && holds(
        r,
        256,
    ) == holds(g, 256) && holds(r, 512) == holds(g, 512)) by (bit_vector)
        requires
            r & 799u32 == g,
    ;
}

/// Whether the shader can march the sky so: its caps on events and its roulette start are constants, and
/// the steps are split evenly at the tangent point.
pub fn marches(steps: u32, max_events: u32, rr_from: u32) -> (r: bool)
    ensures
        r == (steps >= 2 && steps % 2 == 0 && max_events == MAX_EVENTS && rr_from == RR_FROM),
{
    steps >= 2 && steps % 2 == 0 && max_events == MAX_EVENTS && rr_from == RR_FROM
}

/// A frame's flags: the first one resets the accumulation.
pub fn frame_flags(flags: u32, frame: u32, reset_at: u32) -> (r: u32)
    ensures
        r == with_bit(flags, frame == reset_at, RESET),
{
    set_bit(flags, frame == reset_at, RESET)
}

/// What frames a submission takes at most; at least one.
pub open spec fn frames_each(per_submit: u32) -> int {
    if per_submit > 0 {
        per_submit as int
    } else {
        1
    }
}

/// `v` are submissions that cover the frames from `start` to `end` in order, each full but the
/// last.
pub open spec fn covers_frames(v: Seq<(u32, u32)>, start: int, end: int, each: int) -> bool {
    &&& forall|i: int|
        0 <= i < v.len() ==> (#[trigger] v[i]).0 == start + i * each && v[i].1 == if start + (i + 1) * each <= end {
            start + (i + 1) * each
        } else {
            end
        }
    &&& forall|i: int| 0 <= i < v.len() ==> (#[trigger] v[i]).0 < v[i].1
    &&& v.len() == 0 ==> start >= end
    &&& v.len() > 0 ==> v.last().1 == end
}

/// The frames of each submission: from, and up to.
pub fn submissions(start: u32, end: u32, per_submit: u32) -> (r: Vec<(u32, u32)>)
    ensures
        covers_frames(r@, start as int, end as int, frames_each(per_submit)),
{
    let each: u32 = if per_submit > 0 {
        per_submit
    } else {
        1
    };
    let mut out: Vec<(u32, u32)> = Vec::new();
    let mut f: u32 = start;
    let ghost mut k: int = 0;
    assert(0 * (each as int) == 0) by (nonlinear_arith);
    while f < end
        invariant
            each == frames_each(per_submit),
            k == out@.len(),
            f < end ==> f == start + k * each,
            f >= end ==> (k == 0 && f == start) || (k > 0 && f == end && out@.last().1 == end),
            forall|i: int|
                0 <= i < out@.len() ==> (#[trigger] out@[i]).0 == start + i * each && out@[i].1 == if start + (i + 1) * each <= end {
                    start + (i + 1) * each
                } else {
                    end as int
                },
            forall|i: int| 0 <= i < out@.len() ==> (#[trigger] out@[i]).0 < out@[i].1,
        decreases end - f,
    {
        let next: u32 = if each <= end - f {
            f + each
        } else {
            end
        };
        assert((k + 1) * each == k * each + each) by (nonlinear_arith);
        out.push((f, next));
        f = next;
        proof {
            k = k + 1;
        }
    }
    out
}

/// Submissions follow one another without a gap, so every frame is accumulated once.
pub proof fn law_frames_are_accumulated_once(v: Seq<(u32, u32)>, start: int, end: int, each: int)
    requires
        covers_frames(v, start, end, each),
        each > 0,
    ensures
        v.len() > 0 ==> v[0].0 == start && v.last().1 == end,
        forall|i: int| 0 <= i < v.len() - 1 ==> (#[trigger] v[i]).1 == v[i + 1].0,
{
    if v.len() > 0 {
        assert(0 * each == 0) by (nonlinear_arith);
    }
    assert forall|i: int| 0 <= i < v.len() - 1 implies (#[trigger] v[i]).1 == v[i + 1].0 by {
        assert(v[i + 1].0 < v[i + 1].1);
        assert(v[i + 1].1 <= end);
        assert(v[i + 1].0 == start + (i + 1) * each);
    }
}

/// A submission never takes more frames than it may, and all but the last take just as many; where none are allowed, it
/// is one.
pub proof fn law_submissions_are_full(v: Seq<(u32, u32)>, start: int, end: int, per_submit: u32, i: int)
    requires
        covers_frames(v, start, end, frames_each(per_submit)),
        0 <= i < v.len(),
    ensures
        per_submit > 0 ==> v[i].1 - v[i].0 <= per_submit,
        per_submit == 0 ==> v[i].1 - v[i].0 == 1,
        per_submit > 0 && i < v.len() - 1 ==> v[i].1 - v[i].0 == per_submit,
        v[i].0 < v[i].1 <= end,
{
    let each = frames_each(per_submit);
    assert((i + 1) * each == i * each + each) by (nonlinear_arith);
    let x = v[i];
    if i < v.len() - 1 {
        let y = v[i + 1];
        assert(y.0 < y.1);
    }
}

/// Each flag is one binary digit of the word, at the place where the shader tests it.
pub proof fn law_flags_are_binary_digits(r: u32)
    ensures
        holds(r, SUN) <==> r / 1 % 2 == 1,
        holds(r, SKY) <==> r / 2 % 2 == 1,
        holds(r, POINT_SUN) <==> r / 4 % 2 == 1,
        holds(r, UNIFORM_SKY) <==> r / 8 % 2 == 1,
        holds(r, ALBEDO_ONE) <==> r / 16 % 2 == 1,
        holds(r, RESET) <==> r / 32 % 2 == 1,
        holds(r, PROBE_T) <==> r / 64 % 2 == 1,
        holds(r, EMISSION) <==> r / 128 % 2 == 1,
        holds(r, FAULT_PDF) <==> r / 256 % 2 == 1,
        holds(r, FAULT_NO_COS) <==> r / 512 % 2 == 1,
        holds(r, EMITTERS_DIRECT) <==> r / 1024 % 2 == 1,
        holds(r, EMITTERS_INDIRECT) <==> r / 2048 % 2 == 1,
        holds(r, EMITTER_AREA) <==> r / 4096 % 2 == 1,
        holds(r, FAULT_NO_SOLID_ANGLE) <==> r / 8192 % 2 == 1,
        holds(r, FAULT_DOUBLE_EMISSION) <==> r / 16384 % 2 == 1,
        holds(r, FAULT_NO_EMITTER_COS) <==> r / 32768 % 2 == 1,
{
    assert((r & 1u32 != 0 <==> r / 1 % 2 == 1) && (r & 2u32 != 0 <==> r / 2 % 2 == 1) && (r & 4u32 != 0 <==> r / 4 % 2 == 1)
        && (r & 8u32 != 0 <==> r / 8 % 2 == 1) && (r & 16u32 != 0 <==> r / 16 % 2 == 1) && (r & 32u32 != 0 <==> r / 32 % 2 == 1)
        && (r & 64u32 != 0 <==> r / 64 % 2 == 1) && (r & 128u32 != 0 <==> r / 128 % 2 == 1) && (r & 256u32 != 0 <==> r / 256 % 2 == 1)
        && (r & 512u32 != 0 <==> r / 512 % 2 == 1) && (r & 1024u32 != 0 <==> r / 1024 % 2 == 1) && (r & 2048u32 != 0 <==> r / 2048 % 2 == 1)
        && (r & 4096u32 != 0 <==> r / 4096 % 2 == 1) && (r & 8192u32 != 0 <==> r / 8192 % 2 == 1) && (r & 16384u32 != 0 <==> r / 16384 % 2 == 1)
        && (r & 32768u32 != 0 <==> r / 32768 % 2 == 1)) by (bit_vector);
}

} // verus!
