//! The native reconstruction: after the temporal pass, demodulate and estimate the variance, run the
//! filter's levels (steps 1, 2, 4, ...), and remodulate. The first level's guide comes from the first
//! pass, and the last level remodulates.
use crate::gpu::fields::{named_sizes, offset_at, packed, plain, pushed, shapes_of, ParamView};
use crate::gpu::reflect::Param;
use vstd::prelude::*;

verus! {

/// The filter's settings.
#[derive(Clone, Copy, Debug, PartialEq, Eq, Structural)]
pub struct DenoiseSettings {
    /// Levels (0: demodulate and remodulate only).
    pub levels: u32,
    /// Luminance edge-stopping strength in standard deviations, as the raw bits of a
    /// single-precision number.
    pub sigma_l: u32,
    /// The first levels whose edge-stopping compares 3x3 same-surface means of the level's input.
    pub prefilter_levels: u32,
    /// The history age from which the variance comes from the moments instead of the neighbours.
    pub moments_age: u32,
    /// The guide prefilter applies to pixels younger than this.
    pub prefilter_age: u32,
    /// The edge-stopping variance is pre-blurred 3x3 on the same surface.
    pub variance_blur: bool,
}

/// The bits of 4.0.
pub const SIGMA_FOUR: u32 = 0x4080_0000;

impl Default for DenoiseSettings {
    fn default() -> (r: DenoiseSettings)
        ensures
            r == (DenoiseSettings {
                levels: 2,
                sigma_l: SIGMA_FOUR,
                prefilter_levels: 1,
                moments_age: 8,
                prefilter_age: u32::MAX,
                variance_blur: true,
            }),
    {
        DenoiseSettings {
            levels: 2,
            sigma_l: SIGMA_FOUR,
            prefilter_levels: 1,
            moments_age: 8,
            prefilter_age: u32::MAX,
            variance_blur: true,
        }
    }
}

/// Planted faults for negative controls; all off by default.
#[derive(Clone, Copy, Debug, PartialEq, Eq, Structural)]
pub struct DenoiseFaults {
    /// Mix every surface pixel regardless of its guide (blurs across edges and materials).
    pub ignore_guides: bool,
}

impl Default for DenoiseFaults {
    fn default() -> (r: DenoiseFaults)
        ensures
            !r.ignore_guides,
    {
        DenoiseFaults { ignore_guides: false }
    }
}

pub const PREFILTER: u32 = 1;

pub const INIT_GUIDE: u32 = 2;

pub const REMODULATE: u32 = 4;

pub const NO_VARIANCE_BLUR: u32 = 8;

pub const FAULT_IGNORE_GUIDES: u32 = 256;

/// The shader's push constants.
#[derive(Clone, Copy, Debug, PartialEq, Eq, Structural)]
pub struct Params {
    pub width: u32,
    pub height: u32,
    pub mode: u32,
    pub step: u32,
    pub src: u32,
    pub guide: u32,
    pub flags: u32,
    pub sigma_l: u32,
    pub moments_age: u32,
    pub prefilter_age: u32,
}

pub open spec fn param_fields() -> Seq<(Seq<char>, u64)> {
    seq![
        ("width"@, 4),
        ("height"@, 4),
        ("mode"@, 4),
        ("step"@, 4),
        ("src"@, 4),
        ("guide"@, 4),
        ("flags"@, 4),
        ("sigma_l"@, 4),
        ("moments_age"@, 4),
        ("prefilter_age"@, 4),
    ]
}

pub open spec fn layout_view() -> Seq<ParamView> {
    seq![
        ParamView::Descriptor("radiance"@, 0, Seq::empty()),
        ParamView::Descriptor("guides_0"@, 1, Seq::empty()),
        ParamView::Descriptor("guides_1"@, 2, Seq::empty()),
        ParamView::Descriptor("hist_0"@, 3, Seq::empty()),
        ParamView::Descriptor("hist_1"@, 4, Seq::empty()),
        ParamView::Descriptor("albedo"@, 5, Seq::empty()),
        ParamView::Descriptor("filt_a"@, 6, Seq::empty()),
        ParamView::Descriptor("filt_b"@, 7, Seq::empty()),
        ParamView::Descriptor("lum_guide"@, 8, Seq::empty()),
        ParamView::Descriptor("keys"@, 9, Seq::empty()),
        ParamView::PushConstants("params"@, packed(param_fields())),
    ]
}

/// What the host code assumes about the denoise module.
pub fn host_layout() -> (r: Vec<Param>)
    ensures
        shapes_of(r@) == layout_view(),
{
    let params: [(&'static str, u64); 10] = [
        ("width", 4),
        ("height", 4),
        ("mode", 4),
        ("step", 4),
        ("src", 4),
        ("guide", 4),
        ("flags", 4),
        ("sigma_l", 4),
        ("moments_age", 4),
        ("prefilter_age", 4),
    ];
    proof {
        reveal_with_fuel(offset_at, 12);
        assert(named_sizes(params@) =~= param_fields());
    }
    let r = vec![
        plain("radiance", 0),
        plain("guides_0", 1),
        plain("guides_1", 2),
        plain("hist_0", 3),
        plain("hist_1", 4),
        plain("albedo", 5),
        plain("filt_a", 6),
        plain("filt_b", 7),
        plain("lum_guide", 8),
        plain("keys", 9),
        pushed("params", &params),
    ];
    assert(shapes_of(r@) =~= layout_view());
    r
}

/// `bit` where `on`.
pub open spec fn when(on: bool, bit: u32) -> u32 {
    if on {
        bit
    } else {
        0
    }
}

/// What every pass has in common.
pub open spec fn base_of(width: u32, height: u32, parity: u32, s: DenoiseSettings, faults: DenoiseFaults) -> Params {
    Params {
        width,
        height,
        mode: 0,
        step: 0,
        src: 0,
        guide: parity,
        flags: when(faults.ignore_guides, FAULT_IGNORE_GUIDES) | when(!s.variance_blur, NO_VARIANCE_BLUR),
        sigma_l: s.sigma_l,
        moments_age: s.moments_age,
        prefilter_age: s.prefilter_age,
    }
}

/// The pass that starts the filter.
pub open spec fn init_pass(base: Params, s: DenoiseSettings) -> Params {
    Params { mode: 0, flags: base.flags | when(s.levels > 0 && s.prefilter_levels > 0, INIT_GUIDE), ..base }
}

/// The passes of level `k`: the guide of a prefiltered level behind the first, then the level.
pub open spec fn level_passes(base: Params, s: DenoiseSettings, k: int) -> Seq<Params> {
    let pre = k < s.prefilter_levels;
    let level = Params {
        mode: 1,
        step: 1u32 << (k as u32),
        src: (k % 2) as u32,
        flags: (base.flags | when(pre, PREFILTER)) | when(k + 1 == s.levels, REMODULATE),
        ..base
    };
    if pre && k > 0 {
        seq![Params { mode: 3, src: (k % 2) as u32, ..base }, level]
    } else {
        seq![level]
    }
}

/// The passes of the first `n` levels, behind the one that starts the filter.
pub open spec fn passes_below(base: Params, s: DenoiseSettings, n: nat) -> Seq<Params>
    decreases n,
{
    if n == 0 {
        seq![init_pass(base, s)]
    } else {
        passes_below(base, s, (n - 1) as nat) + level_passes(base, s, n - 1)
    }
}

/// The passes of a frame.
pub open spec fn passes_of(base: Params, s: DenoiseSettings) -> Seq<Params> {
    if s.levels == 0 {
        passes_below(base, s, 0).push(Params { mode: 2, src: 0, ..base })
    } else {
        passes_below(base, s, s.levels as nat)
    }
}

fn bit_when(on: bool, bit: u32) -> (r: u32)
    ensures
        r == when(on, bit),
{
    if on {
        bit
    } else {
        0
    }
}

/// The push constants of every dispatch of a frame, in order. `parity` is the history's.
pub fn passes(width: u32, height: u32, parity: u32, s: DenoiseSettings, faults: DenoiseFaults) -> (r: Vec<Params>)
    requires
        s.levels <= 32,
    ensures
        r@ == passes_of(base_of(width, height, parity, s, faults), s),
{
    let base = Params {
        width,
        height,
        mode: 0,
        step: 0,
        src: 0,
        guide: parity,
        flags: bit_when(faults.ignore_guides, FAULT_IGNORE_GUIDES) | bit_when(!s.variance_blur, NO_VARIANCE_BLUR),
        sigma_l: s.sigma_l,
        moments_age: s.moments_age,
        prefilter_age: s.prefilter_age,
    };
    let mut out: Vec<Params> = Vec::new();
    out.push(Params { mode: 0, flags: base.flags | bit_when(s.levels > 0 && s.prefilter_levels > 0, INIT_GUIDE), ..base });
    assert(out@ =~= passes_below(base, s, 0));
    let mut k: u32 = 0;
    while k < s.levels
        invariant
            k <= s.levels <= 32,
            base == base_of(width, height, parity, s, faults),
            out@ == passes_below(base, s, k as nat),
        decreases s.levels - k,
    {
        let ghost before = out@;
        let pre = k < s.prefilter_levels;
        if pre && k > 0 {
            out.push(Params { mode: 3, src: k % 2, ..base });
        }
        let flags: u32 = (base.flags | bit_when(pre, PREFILTER)) | bit_when(k + 1 == s.levels, REMODULATE);
        out.push(Params { mode: 1, step: 1u32 << k, src: k % 2, flags, ..base });
        assert(out@ =~= before + level_passes(base, s, k as int));
        k += 1;
    }
    if s.levels == 0 {
        out.push(Params { mode: 2, src: 0, ..base });
    }
    out
}

/// The filter always ends by remodulating: its last pass does that alone, or is the last level.
pub proof fn law_filter_remodulates_last(base: Params, s: DenoiseSettings)
    requires
        s.levels <= 32,
    ensures
        passes_of(base, s).len() > 0,
        ({
            let last = passes_of(base, s).last();
            last.mode == 2 || (last.mode == 1 && last.flags & REMODULATE == REMODULATE)
        }),
{
    if s.levels > 0 {
        let k = s.levels - 1;
        let pre = k < s.prefilter_levels;
        let f: u32 = base.flags | when(pre, PREFILTER);
        assert((f | 4u32) & 4u32 == 4u32) by (bit_vector);
        assert(level_passes(base, s, k).len() > 0);
        assert(passes_of(base, s).last() == level_passes(base, s, k).last());
    }
}

/// Bytes of the filter's buffers for `px` pixels: two ping-pong buffers, the luminance guide and
/// the surface keys.
pub fn target_bytes(px: u32) -> (r: (u64, u64, u64, u64))
    ensures
        r.0 == 16 * px,
        r.1 == 16 * px,
        r.2 == 4 * px,
        r.3 == 8 * px,
{
    let n: u64 = px as u64;
    (n * 16, n * 16, n * 4, n * 8)
}

/// The level passes among the first `n` levels' passes, one each.
proof fn lemma_levels(base: Params, s: DenoiseSettings, n: nat)
    requires
        n <= s.levels,
    ensures
        passes_below(base, s, n).filter(|p: Params| p.mode == 1) == Seq::new(n, |k: int| level_passes(base, s, k).last()),
        passes_below(base, s, n).filter(|p: Params| p.mode == 3) == Seq::new(guides_below(s, n), |k: int| level_passes(base, s, k + 1)[0]),
    decreases n,
{
    reveal_with_fuel(Seq::filter, 4);
    let (one, three) = (|p: Params| p.mode == 1, |p: Params| p.mode == 3);
    if n == 0 {
        let start = passes_below(base, s, 0);
        assert(start.drop_last() =~= Seq::empty());
        assert(start.filter(one) =~= Seq::empty());
        assert(start.filter(three) =~= Seq::empty());
    } else {
        lemma_levels(base, s, (n - 1) as nat);
        let before = passes_below(base, s, (n - 1) as nat);
        let now = level_passes(base, s, n - 1);
        Seq::filter_distributes_over_add(before, now, one);
        Seq::filter_distributes_over_add(before, now, three);
        if now.len() == 2 {
            assert(now.drop_last() =~= seq![now[0]]);
            assert(now.drop_last().drop_last() =~= Seq::<Params>::empty());
            assert(now.filter(one) =~= seq![now[1]]);
            assert(now.filter(three) =~= seq![now[0]]);
        } else {
            assert(now.drop_last() =~= Seq::empty());
            assert(now.filter(one) =~= seq![now[0]]);
            assert(now.filter(three) =~= Seq::empty());
        }
        assert(passes_below(base, s, n).filter(one) =~= Seq::new(n, |k: int| level_passes(base, s, k).last()));
        assert(passes_below(base, s, n).filter(three) =~= Seq::new(guides_below(s, n), |k: int| level_passes(base, s, k + 1)[0]));
    }
}

/// How many of the first `n` levels take a guide pass: the prefiltered ones behind the first.
spec fn guides_below(s: DenoiseSettings, n: nat) -> nat {
    let m = if n <= s.prefilter_levels {
        n as int
    } else {
        s.prefilter_levels as int
    };
    if m > 0 {
        (m - 1) as nat
    } else {
        0
    }
}

proof fn lemma_passes_of(base: Params, s: DenoiseSettings)
    ensures
        passes_of(base, s).filter(|p: Params| p.mode == 1) == Seq::new(s.levels as nat, |k: int| level_passes(base, s, k).last()),
        passes_of(base, s).filter(|p: Params| p.mode == 3) == Seq::new(
            guides_below(s, s.levels as nat),
            |k: int| level_passes(base, s, k + 1)[0],
        ),
{
    lemma_levels(base, s, s.levels as nat);
    if s.levels == 0 {
        reveal(Seq::filter);
        let all = passes_of(base, s);
        assert(all.drop_last() =~= passes_below(base, s, 0));
    }
}

/// The filter widens: there are as many level passes as levels, the first has step 1, and each later one
/// twice the step of the one before it.
pub proof fn law_levels_double_their_step(base: Params, s: DenoiseSettings)
    requires
        s.levels <= 32,
    ensures
        ({
            let levels = passes_of(base, s).filter(|p: Params| p.mode == 1);
            &&& levels.len() == s.levels
            &&& levels.len() > 0 ==> levels[0].step == 1
            &&& forall|k: int| 0 < k < levels.len() ==> (#[trigger] levels[k]).step == 2 * levels[k - 1].step
        }),
{
    lemma_passes_of(base, s);
    let levels = passes_of(base, s).filter(|p: Params| p.mode == 1);
    assert(1u32 << 0u32 == 1) by (bit_vector);
    assert forall|k: int| 0 < k < levels.len() implies (#[trigger] levels[k]).step == 2 * levels[k - 1].step by {
        let j = k as u32;
        let i = (k - 1) as u32;
        assert(1u32 << j == 2 * (1u32 << i)) by (bit_vector)
            requires
                j == i + 1,
                j < 32,
        ;
    }
}

/// The levels take turns with the two buffers: the first reads the one that the filter starts in, and each
/// later one reads what the one before it wrote.
pub proof fn law_levels_take_turns(base: Params, s: DenoiseSettings)
    requires
        s.levels <= 32,
    ensures
        ({
            let levels = passes_of(base, s).filter(|p: Params| p.mode == 1);
            &&& levels.len() > 0 ==> levels[0].src == 0
            &&& forall|k: int| 0 < k < levels.len() ==> (#[trigger] levels[k]).src == 1 - levels[k - 1].src
        }),
{
    lemma_passes_of(base, s);
}

/// The guides (bit 2: the pass makes one): the first level's comes with the pass that starts the filter, exactly where a level is
/// prefiltered. Every later prefiltered level has a pass of its own that reads the level's source, and no
/// other level has one.
pub proof fn law_prefiltered_levels_have_guides(base: Params, s: DenoiseSettings)
    requires
        s.levels <= 32,
        base.flags & 2 == 0,
    ensures
        ({
            let all = passes_of(base, s);
            let guides = all.filter(|p: Params| p.mode == 3);
            let levels = all.filter(|p: Params| p.mode == 1);
            &&& (all[0].flags & 2 != 0) == (s.levels > 0 && s.prefilter_levels > 0)
            &&& guides.len() < s.levels || s.levels == 0 && guides.len() == 0
            &&& s.prefilter_levels == 0 ==> guides.len() == 0
            &&& 0 < s.prefilter_levels <= s.levels ==> guides.len() == s.prefilter_levels - 1
            &&& 0 < s.levels < s.prefilter_levels ==> guides.len() == s.levels - 1
            &&& forall|k: int| 0 <= k < guides.len() ==> (#[trigger] guides[k]).src == levels[k + 1].src
        }),
{
    lemma_passes_of(base, s);
    lemma_starts_from(base, s, s.levels as nat);
    let f = base.flags;
    assert((f | 2u32) & 2u32 != 0 && (f & 2u32 == 0 ==> (f | 0u32) & 2u32 == 0)) by (bit_vector);
}

proof fn lemma_starts_from(base: Params, s: DenoiseSettings, n: nat)
    ensures
        passes_below(base, s, n).len() > 0,
        passes_below(base, s, n)[0] == init_pass(base, s),
    decreases n,
{
    if n > 0 {
        lemma_starts_from(base, s, (n - 1) as nat);
    }
}

/// A level is prefiltered (bit 1) exactly where its number is below that of prefiltered levels, and only the
/// last level remodulates (bit 4).
pub proof fn law_flags_tell_the_levels_apart(base: Params, s: DenoiseSettings, k: int)
    requires
        s.levels <= 32,
        0 <= k < s.levels,
        base.flags & 1 == 0,
        base.flags & 4 == 0,
    ensures
        ({
            let level = passes_of(base, s).filter(|p: Params| p.mode == 1)[k];
            &&& (level.flags & 1 != 0) == (k < s.prefilter_levels)
            &&& (level.flags & 4 != 0) == (k == s.levels - 1)
        }),
{
    lemma_passes_of(base, s);
    let (a, b) = (k < s.prefilter_levels, k + 1 == s.levels);
    let f = base.flags;
    let (x, y) = (when(a, PREFILTER), when(b, REMODULATE));
    assert((((f | x) | y) & 1 != 0) == (x == 1) && (((f | x) | y) & 4 != 0) == (y == 4)) by (bit_vector)
        requires
            f & 1 == 0,
            f & 4 == 0,
            x == 0 || x == 1,
            y == 0 || y == 4,
    ;
}

/// What every pass of a frame is told: its size, the history's parity and the settings, whether guides are
/// ignored (bit 256) and whether the variance is left unblurred (bit 8). A frame starts with the one
/// pass of mode 0, and remodulates in a pass of its own exactly where it has no level.
pub proof fn law_passes_share_the_settings(width: u32, height: u32, parity: u32, s: DenoiseSettings, faults: DenoiseFaults, i: int)
    requires
        0 <= i < passes_of(base_of(width, height, parity, s, faults), s).len(),
    ensures
        ({
            let all = passes_of(base_of(width, height, parity, s, faults), s);
            let p = all[i];
            &&& p.width == width && p.height == height && p.guide == parity
            &&& p.sigma_l == s.sigma_l && p.moments_age == s.moments_age && p.prefilter_age == s.prefilter_age
            &&& (p.flags & 256 != 0) == faults.ignore_guides
            &&& (p.flags & 8 != 0) == !s.variance_blur
            &&& p.flags & !(1u32 | 2u32 | 4u32 | 8u32 | 256u32) == 0
            &&& (p.mode == 0) == (i == 0)
            &&& p.mode == 2 ==> s.levels == 0 && i == 1
            &&& p.mode <= 3
            &&& s.levels == 0 ==> all.len() == 2 && all[1].mode == 2 && all[1].src == 0
        }),
{
    let base = base_of(width, height, parity, s, faults);
    let (x, y) = (when(faults.ignore_guides, FAULT_IGNORE_GUIDES), when(!s.variance_blur, NO_VARIANCE_BLUR));
    let f = base.flags;
    assert((f & 256 != 0) == (x == 256) && (f & 8 != 0) == (y == 8) && f & !264u32 == 0) by (bit_vector)
        requires
            f == x | y,
            x == 0 || x == 256,
            y == 0 || y == 8,
    ;
    lemma_shared(base, s, s.levels as nat);
    if s.levels == 0 {
        assert(passes_of(base, s).len() == 2);
        assert(f & !(1u32 | 2u32 | 4u32 | 8u32 | 256u32) == 0) by (bit_vector)
            requires
                f & !264u32 == 0,
        ;
    }
}

proof fn lemma_shared(base: Params, s: DenoiseSettings, n: nat)
    requires
        base.flags & !264u32 == 0,
    ensures
        forall|i: int|
            #![trigger passes_below(base, s, n)[i]]
            0 <= i < passes_below(base, s, n).len() ==> {
                let p = passes_below(base, s, n)[i];
                &&& p.width == base.width && p.height == base.height && p.guide == base.guide
                &&& p.sigma_l == base.sigma_l && p.moments_age == base.moments_age && p.prefilter_age == base.prefilter_age
                &&& p.flags & 256 == base.flags & 256
                &&& p.flags & 8 == base.flags & 8
                &&& p.flags & !(1u32 | 2u32 | 4u32 | 8u32 | 256u32) == 0
                &&& (p.mode == 0) == (i == 0)
                &&& p.mode == 0 || p.mode == 1 || p.mode == 3
            },
    decreases n,
{
    let f = base.flags;
    let k = n - 1;
    let (x, y, z) = (when(k < s.prefilter_levels, PREFILTER), when(k + 1 == s.levels, REMODULATE), when(s.levels > 0 && s.prefilter_levels > 0, INIT_GUIDE));
    assert(((f | x) | y) & 256 == f & 256 && ((f | x) | y) & 8 == f & 8 && ((f | x) | y) & !(1u32 | 2u32 | 4u32 | 8u32 | 256u32) == 0 && (f | z) & 256 == f
        & 256 && (f | z) & 8 == f & 8 && (f | z) & !(1u32 | 2u32 | 4u32 | 8u32 | 256u32) == 0 && f & !(1u32 | 2u32 | 4u32 | 8u32 | 256u32) == 0) by (bit_vector)
        requires
            f & !264u32 == 0,
            x == 0 || x == 1,
            y == 0 || y == 4,
            z == 0 || z == 2,
    ;
    if n > 0 {
        lemma_shared(base, s, (n - 1) as nat);
        let before = passes_below(base, s, (n - 1) as nat);
        let now = level_passes(base, s, n - 1);
        lemma_starts_from(base, s, (n - 1) as nat);
        assert forall|i: int|
            #![trigger passes_below(base, s, n)[i]]
            0 <= i < passes_below(base, s, n).len() implies {
            let p = passes_below(base, s, n)[i];
            &&& p.width == base.width && p.height == base.height && p.guide == base.guide
            &&& p.sigma_l == base.sigma_l && p.moments_age == base.moments_age && p.prefilter_age == base.prefilter_age
            &&& p.flags & 256 == base.flags & 256
            &&& p.flags & 8 == base.flags & 8
            &&& p.flags & !(1u32 | 2u32 | 4u32 | 8u32 | 256u32) == 0
            &&& (p.mode == 0) == (i == 0)
            &&& p.mode == 0 || p.mode == 1 || p.mode == 3
        } by {
            if i < before.len() {
                assert(passes_below(base, s, n)[i] == before[i]);
            } else {
                assert(passes_below(base, s, n)[i] == now[i - before.len()]);
            }
        }
    }
}

/// The shader's bindings, by name, have the numbers of their places, and the push constants come last.
pub proof fn law_bindings_are_numbered_in_order(i: int)
    requires
        0 <= i < 10,
    ensures
        layout_view().len() == 11,
        layout_view()[i] is Descriptor && layout_view()[i]->Descriptor_1 == i,
        layout_view()[i]->Descriptor_0 == seq!["radiance"@, "guides_0"@, "guides_1"@, "hist_0"@, "hist_1"@, "albedo"@, "filt_a"@, "filt_b"@, "lum_guide"@, "keys"@][i],
        layout_view()[10] is PushConstants && layout_view()[10]->PushConstants_0 == "params"@,
{
}

/// The push constants are one word each, in the shader's order.
pub proof fn law_params_are_words_in_order()
    ensures
        packed(param_fields()).len() == 10,
        packed(param_fields())[0] == ("width"@, 0u64, 4u64),
        packed(param_fields())[1] == ("height"@, 4u64, 4u64),
        packed(param_fields())[2] == ("mode"@, 8u64, 4u64),
        packed(param_fields())[3] == ("step"@, 12u64, 4u64),
        packed(param_fields())[4] == ("src"@, 16u64, 4u64),
        packed(param_fields())[5] == ("guide"@, 20u64, 4u64),
        packed(param_fields())[6] == ("flags"@, 24u64, 4u64),
        packed(param_fields())[7] == ("sigma_l"@, 28u64, 4u64),
        packed(param_fields())[8] == ("moments_age"@, 32u64, 4u64),
        packed(param_fields())[9] == ("prefilter_age"@, 36u64, 4u64),
{
    reveal_with_fuel(offset_at, 12);
}

} // verus!
