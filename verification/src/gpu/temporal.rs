//! The temporal pass: history validation and accumulation, one dispatch per frame. The library
//! decides the global resets, keeps the ping-pong state of the history, merges the relight boxes and
//! decodes the per-pixel state.
use crate::gpu::fields::{named_sizes, offset_at, packed, plain, pushed, shapes_of, ParamView};
use crate::gpu::bytes::{of_le32, u32_at};
use crate::gpu::reflect::Param;
use crate::gpu::shade::{holds, set_bit, with_bit};
use vstd::prelude::*;

verus! {

/// Relight boxes per frame; more are merged into the last one.
pub const MAX_RELIGHT_BOXES: usize = 16;

/// Bytes of the relight buffer: one row, then two rows for each box.
pub const RELIGHT_BYTES: u64 = 528;

pub const RESET: u32 = 1;

pub const BILINEAR: u32 = 2;

pub const FAULT_RESET_ALWAYS: u32 = 256;

pub const FAULT_NEVER_REJECT: u32 = 512;

pub const FAULT_NO_FRESH: u32 = 1024;

/// What became of a pixel's history, as the shader numbers it.
#[derive(Clone, Copy, Debug, PartialEq, Eq, Structural)]
pub enum Reason {
    Accepted,
    Sky,
    OffScreen,
    NoPrevious,
    Material,
    Normal,
    Disoccluded,
    Edited,
    Reset,
    Relit,
}

impl Reason {
    /// The shader's number.
    pub open spec fn spec_code(self) -> u32 {
        match self {
            Reason::Accepted => 0,
            Reason::Sky => 1,
            Reason::OffScreen => 2,
            Reason::NoPrevious => 3,
            Reason::Material => 4,
            Reason::Normal => 5,
            Reason::Disoccluded => 6,
            Reason::Edited => 7,
            Reason::Reset => 8,
            Reason::Relit => 9,
        }
    }

    /// The shader's number.
    pub fn code(self) -> (r: u32)
        ensures
            r == self.spec_code(),
    {
        match self {
            Reason::Accepted => 0,
            Reason::Sky => 1,
            Reason::OffScreen => 2,
            Reason::NoPrevious => 3,
            Reason::Material => 4,
            Reason::Normal => 5,
            Reason::Disoccluded => 6,
            Reason::Edited => 7,
            Reason::Reset => 8,
            Reason::Relit => 9,
        }
    }

    /// The reason that the shader numbers `code`.
    pub fn of_code(code: u32) -> (r: Option<Reason>)
        ensures
            match r {
                Some(v) => v.spec_code() == code,
                None => code > 9,
            },
    {
        match code {
            0 => Some(Reason::Accepted),
            1 => Some(Reason::Sky),
            2 => Some(Reason::OffScreen),
            3 => Some(Reason::NoPrevious),
            4 => Some(Reason::Material),
            5 => Some(Reason::Normal),
            6 => Some(Reason::Disoccluded),
            7 => Some(Reason::Edited),
            8 => Some(Reason::Reset),
            9 => Some(Reason::Relit),
            _ => None,
        }
    }

    /// The name shown for it.
    pub fn name(self) -> (r: &'static str)
        ensures
            r@ == match self {
                Reason::Accepted => "accepted"@,
                Reason::Sky => "sky"@,
                Reason::OffScreen => "off-screen"@,
                Reason::NoPrevious => "no previous surface"@,
                Reason::Material => "material"@,
                Reason::Normal => "normal"@,
                Reason::Disoccluded => "disoccluded"@,
                Reason::Edited => "edited"@,
                Reason::Reset => "reset"@,
                Reason::Relit => "relit"@,
            },
    {
        match self {
            Reason::Accepted => "accepted",
            Reason::Sky => "sky",
            Reason::OffScreen => "off-screen",
            Reason::NoPrevious => "no previous surface",
            Reason::Material => "material",
            Reason::Normal => "normal",
            Reason::Disoccluded => "disoccluded",
            Reason::Edited => "edited",
            Reason::Reset => "reset",
            Reason::Relit => "relit",
        }
    }
}

/// Voxels an edit changed this frame: `lo` inclusive, `hi` exclusive.
#[derive(Clone, Copy, Debug, PartialEq, Eq)]
pub struct Relight {
    pub lo: [i32; 3],
    pub hi: [i32; 3],
}

/// The smaller of two.
pub open spec fn least(a: i32, b: i32) -> i32 {
    if a <= b {
        a
    } else {
        b
    }
}

/// The larger of two.
pub open spec fn most(a: i32, b: i32) -> i32 {
    if a >= b {
        a
    } else {
        b
    }
}

fn lower(a: i32, b: i32) -> (r: i32)
    ensures
        r == least(a, b),
{
    if a <= b {
        a
    } else {
        b
    }
}

fn upper(a: i32, b: i32) -> (r: i32)
    ensures
        r == most(a, b),
{
    if a >= b {
        a
    } else {
        b
    }
}

impl Relight {
    /// `self` lies inside `o`.
    pub open spec fn inside(self, o: Relight) -> bool {
        &&& o.lo[0] <= self.lo[0] && o.lo[1] <= self.lo[1] && o.lo[2] <= self.lo[2]
        &&& self.hi[0] <= o.hi[0] && self.hi[1] <= o.hi[1] && self.hi[2] <= o.hi[2]
    }

    /// `self` spans exactly `a` and `b`.
    pub open spec fn unites(self, a: Relight, b: Relight) -> bool {
        &&& self.lo[0] == least(a.lo[0], b.lo[0]) && self.lo[1] == least(a.lo[1], b.lo[1]) && self.lo[2] == least(a.lo[2], b.lo[2])
        &&& self.hi[0] == most(a.hi[0], b.hi[0]) && self.hi[1] == most(a.hi[1], b.hi[1]) && self.hi[2] == most(a.hi[2], b.hi[2])
    }

    /// The smallest box holding both.
    pub fn union(self, o: Relight) -> (r: Relight)
        ensures
            r.unites(self, o),
    {
        Relight {
            lo: [lower(self.lo[0], o.lo[0]), lower(self.lo[1], o.lo[1]), lower(self.lo[2], o.lo[2])],
            hi: [upper(self.hi[0], o.hi[0]), upper(self.hi[1], o.hi[1]), upper(self.hi[2], o.hi[2])],
        }
    }

    /// Its sides fit a coordinate.
    pub open spec fn measurable(self) -> bool {
        forall|a: int| 0 <= a < 3 ==> i32::MIN <= #[trigger] self.hi[a] - self.lo[a] <= i32::MAX
    }

    /// The largest side, at least one voxel.
    pub fn side(&self) -> (r: i32)
        requires
            self.measurable(),
        ensures
            r >= 1,
            forall|a: int| 0 <= a < 3 ==> r >= #[trigger] self.hi[a] - self.lo[a],
            r == 1 || exists|a: int| 0 <= a < 3 && r == #[trigger] self.hi[a] - self.lo[a],
    {
        assert(i32::MIN <= self.hi[0] - self.lo[0] <= i32::MAX);
        assert(i32::MIN <= self.hi[1] - self.lo[1] <= i32::MAX);
        assert(i32::MIN <= self.hi[2] - self.lo[2] <= i32::MAX);
        let x: i32 = self.hi[0] - self.lo[0];
        let y: i32 = self.hi[1] - self.lo[1];
        let z: i32 = self.hi[2] - self.lo[2];
        upper(upper(x, upper(y, z)), 1)
    }
}

/// A union holds both boxes and lies inside every box that does.
pub proof fn law_union_is_the_smallest(a: Relight, b: Relight, u: Relight, o: Relight)
    requires
        u.unites(a, b),
    ensures
        a.inside(u),
        b.inside(u),
        a.inside(o) && b.inside(o) ==> u.inside(o),
{
}

/// The union of some boxes, which are at least one.
pub open spec fn joins(u: Relight, boxes: Seq<Relight>) -> bool {
    &&& forall|i: int| 0 <= i < boxes.len() ==> (#[trigger] boxes[i]).inside(u)
    &&& forall|o: Relight| (forall|i: int| 0 <= i < boxes.len() ==> (#[trigger] boxes[i]).inside(o)) ==> #[trigger] u.inside(o)
}

/// The boxes handed to the shader: all of them, or the first ones and the union of the others.
pub fn merge(boxes: &[Relight]) -> (r: Vec<Relight>)
    ensures
        boxes@.len() <= 16 ==> r@ == boxes@,
        boxes@.len() > 16 ==> r@.len() == 16 && r@.take(15) == boxes@.take(15) && joins(r@[15], boxes@.skip(15)),
{
    let mut out: Vec<Relight> = Vec::new();
    let n: usize = if boxes.len() <= MAX_RELIGHT_BOXES {
        boxes.len()
    } else {
        MAX_RELIGHT_BOXES - 1
    };
    let mut i: usize = 0;
    while i < n
        invariant
            i <= n <= boxes@.len(),
            out@ == boxes@.take(i as int),
        decreases n - i,
    {
        out.push(boxes[i]);
        i += 1;
    }
    if boxes.len() > MAX_RELIGHT_BOXES {
        let mut u: Relight = boxes[n];
        let mut j: usize = n + 1;
        assert(boxes@.subrange(15, 16) =~= seq![u]);
        assert(joins(u, boxes@.subrange(15, 16))) by {
            assert forall|o: Relight|
                (forall|i: int| 0 <= i < boxes@.subrange(15, 16).len() ==> (#[trigger] boxes@.subrange(15, 16)[i]).inside(o)) implies #[trigger] u.inside(o) by {
                assert(boxes@.subrange(15, 16)[0] == u);
            }
        }
        while j < boxes.len()
            invariant
                n == 15,
                16 <= j <= boxes@.len(),
                joins(u, boxes@.subrange(15, j as int)),
            decreases boxes@.len() - j,
        {
            let next: Relight = u.union(boxes[j]);
            proof {
                lemma_join(u, boxes@.subrange(15, j as int), boxes@[j as int], next);
                assert(boxes@.subrange(15, j as int).push(boxes@[j as int]) =~= boxes@.subrange(15, j + 1));
            }
            u = next;
            j += 1;
        }
        assert(boxes@.subrange(15, j as int) =~= boxes@.skip(15));
        out.push(u);
        assert(out@.take(15) =~= boxes@.take(15));
    } else {
        assert(boxes@.take(n as int) =~= boxes@);
    }
    out
}

proof fn lemma_join(u: Relight, boxes: Seq<Relight>, b: Relight, next: Relight)
    requires
        joins(u, boxes),
        next.unites(u, b),
    ensures
        joins(next, boxes.push(b)),
{
    let all = boxes.push(b);
    law_union_is_the_smallest(u, b, next, next);
    assert forall|i: int| 0 <= i < all.len() implies (#[trigger] all[i]).inside(next) by {
        if i < boxes.len() {
            assert(all[i] == boxes[i]);
            assert(boxes[i].inside(u));
        }
    }
    assert forall|o: Relight| (forall|i: int| 0 <= i < all.len() ==> (#[trigger] all[i]).inside(o)) implies #[trigger] next.inside(o) by {
        assert(all[boxes.len() as int] == b);
        assert forall|i: int| 0 <= i < boxes.len() implies (#[trigger] boxes[i]).inside(o) by {
            assert(all[i] == boxes[i]);
        }
        law_union_is_the_smallest(u, b, next, o);
    }
}

/// Every box edited this frame lies inside one of those handed to the shader, so no pixel that it
/// relights is missed.
pub proof fn law_merged_boxes_hold_every_box(boxes: Seq<Relight>, merged: Seq<Relight>, i: int)
    requires
        boxes.len() <= 16 ==> merged == boxes,
        boxes.len() > 16 ==> merged.len() == 16 && merged.take(15) == boxes.take(15) && joins(merged[15], boxes.skip(15)),
        0 <= i < boxes.len(),
    ensures
        merged.len() <= 16,
        exists|j: int| 0 <= j < merged.len() && boxes[i].inside(#[trigger] merged[j]),
{
    if boxes.len() <= 16 {
        assert(boxes[i].inside(merged[i]));
    } else if i < 15 {
        assert(merged.take(15)[i] == boxes.take(15)[i]);
        assert(boxes[i].inside(merged[i]));
    } else {
        assert(boxes.skip(15)[i - 15] == boxes[i]);
        assert(boxes[i].inside(merged[15]));
    }
}

/// Planted faults for negative controls; all off by default.
#[derive(Clone, Copy, Debug, PartialEq, Eq, Structural)]
pub struct TemporalFaults {
    /// Reset every frame.
    pub reset_always: bool,
    /// Accept every tap that has a surface.
    pub never_reject: bool,
    /// Accepted pixels keep the history and ignore the fresh sample.
    pub no_fresh: bool,
}

impl Default for TemporalFaults {
    fn default() -> (r: TemporalFaults)
        ensures
            r == (TemporalFaults { reset_always: false, never_reject: false, no_fresh: false }),
    {
        TemporalFaults { reset_always: false, never_reject: false, no_fresh: false }
    }
}

pub open spec fn param_fields() -> Seq<(Seq<char>, u64)> {
    seq![
        ("eye"@, 16),
        ("forward"@, 16),
        ("right"@, 16),
        ("up"@, 16),
        ("prev_eye"@, 16),
        ("prev_fwd"@, 16),
        ("prev_right"@, 16),
        ("prev_up"@, 16),
    ]
}

pub open spec fn layout_view() -> Seq<ParamView> {
    seq![
        ParamView::Descriptor("depth_tex"@, 0, Seq::empty()),
        ParamView::Descriptor("normal_tex"@, 1, Seq::empty()),
        ParamView::Descriptor("material_tex"@, 2, Seq::empty()),
        ParamView::Descriptor("surface_tex"@, 3, Seq::empty()),
        ParamView::Descriptor("regions"@, 4, Seq::empty()),
        ParamView::Descriptor("radiance"@, 5, Seq::empty()),
        ParamView::Descriptor("prev_guides"@, 6, Seq::empty()),
        ParamView::Descriptor("next_guides"@, 7, Seq::empty()),
        ParamView::Descriptor("prev_hist"@, 8, Seq::empty()),
        ParamView::Descriptor("next_hist"@, 9, Seq::empty()),
        ParamView::Descriptor("prev_state"@, 10, Seq::empty()),
        ParamView::Descriptor("next_state"@, 11, Seq::empty()),
        ParamView::Descriptor("motion"@, 12, Seq::empty()),
        ParamView::Descriptor("relight"@, 13, Seq::empty()),
        ParamView::PushConstants("params"@, packed(param_fields())),
    ]
}

/// What the host code assumes about the temporal module.
pub fn host_layout() -> (r: Vec<Param>)
    ensures
        shapes_of(r@) == layout_view(),
{
    let params: [(&'static str, u64); 8] = [
        ("eye", 16),
        ("forward", 16),
        ("right", 16),
        ("up", 16),
        ("prev_eye", 16),
        ("prev_fwd", 16),
        ("prev_right", 16),
        ("prev_up", 16),
    ];
    proof {
        reveal_with_fuel(offset_at, 10);
        assert(named_sizes(params@) =~= param_fields());
    }
    let r = vec![
        plain("depth_tex", 0),
        plain("normal_tex", 1),
        plain("material_tex", 2),
        plain("surface_tex", 3),
        plain("regions", 4),
        plain("radiance", 5),
        plain("prev_guides", 6),
        plain("next_guides", 7),
        plain("prev_hist", 8),
        plain("next_hist", 9),
        plain("prev_state", 10),
        plain("next_state", 11),
        plain("motion", 12),
        plain("relight", 13),
        pushed("params", &params),
    ];
    assert(shapes_of(r@) =~= layout_view());
    r
}

/// Why this frame was a global reset (all false: history carried over).
#[derive(Clone, Copy, Debug, PartialEq, Eq, Structural)]
pub struct ResetCause {
    pub first: bool,
    pub cut: bool,
    pub light: bool,
    /// The lights switched on or off since the previous frame.
    pub lights: bool,
    pub forced: bool,
}

impl Default for ResetCause {
    fn default() -> (r: ResetCause)
        ensures
            r == (ResetCause { first: false, cut: false, light: false, lights: false, forced: false }),
    {
        ResetCause { first: false, cut: false, light: false, lights: false, forced: false }
    }
}

impl ResetCause {
    pub open spec fn is_any(self) -> bool {
        self.first || self.cut || self.light || self.lights || self.forced
    }

    pub fn any(&self) -> (r: bool)
        ensures
            r == self.is_any(),
    {
        self.first || self.cut || self.light || self.lights || self.forced
    }
}

/// A frame's flags.
pub fn flags(cause: ResetCause, bilinear: bool, faults: TemporalFaults) -> (r: u32)
    ensures
        holds(r, RESET) == cause.is_any(),
        holds(r, BILINEAR) == bilinear,
        holds(r, FAULT_RESET_ALWAYS) == faults.reset_always,
        holds(r, FAULT_NEVER_REJECT) == faults.never_reject,
        holds(r, FAULT_NO_FRESH) == faults.no_fresh,
        r & !1795u32 == 0,
{
    let any: bool = cause.any();
    let a: u32 = set_bit(0, any, RESET);
    let b: u32 = set_bit(a, bilinear, BILINEAR);
    let c: u32 = set_bit(b, faults.reset_always, FAULT_RESET_ALWAYS);
    let d: u32 = set_bit(c, faults.never_reject, FAULT_NEVER_REJECT);
    let r: u32 = set_bit(d, faults.no_fresh, FAULT_NO_FRESH);
    let ghost (x2, x3, x4) = (faults.reset_always, faults.never_reject, faults.no_fresh);
    assert(holds(r, 1) == any && holds(r, 2) == bilinear && holds(r, 256) == x2 && holds(r, 512) == x3 && holds(r, 1024) == x4 && r & !1795u32
        == 0) by (bit_vector)
        requires
            a == with_bit(0, any, 1),
            b == with_bit(a, bilinear, 2),
            c == with_bit(b, x2, 256),
            d == with_bit(c, x3, 512),
            r == with_bit(d, x4, 1024),
    ;
    r
}

/// The history of one frame size: which of the ping-pong buffers is current, and what the previous
/// frame was.
pub struct History {
    width: u32,
    height: u32,
    parity: usize,
    prev: Option<bool>,
    frames: u64,
    lights: bool,
}

impl History {
    pub closed spec fn spec_size(&self) -> (u32, u32) {
        (self.width, self.height)
    }

    /// The index of the buffers read this frame; the others are written.
    pub closed spec fn spec_parity(&self) -> usize {
        self.parity
    }

    /// Whether the lights were on in the previous frame, if there was one.
    pub closed spec fn spec_prev(&self) -> Option<bool> {
        self.prev
    }

    pub closed spec fn spec_frames(&self) -> u64 {
        self.frames
    }

    /// Whether the lights are on for the next frame.
    pub closed spec fn spec_lights(&self) -> bool {
        self.lights
    }

    /// The parity is one of two, it is that of the frame count, and the first frame is the one with
    /// no predecessor.
    pub open spec fn wf(&self) -> bool {
        &&& self.spec_parity() == self.spec_frames() % 2
        &&& self.spec_prev() is Some == (self.spec_frames() > 0)
    }

    pub fn new(width: u32, height: u32) -> (r: History)
        ensures
            r.wf(),
            r.spec_size() == (width, height),
            r.spec_frames() == 0,
            r.spec_prev() is None,
            !r.spec_lights(),
    {
        History { width, height, parity: 0, prev: None, frames: 0, lights: false }
    }

    pub fn size(&self) -> (r: (u32, u32))
        ensures
            r == self.spec_size(),
    {
        (self.width, self.height)
    }

    pub fn frames(&self) -> (r: u64)
        ensures
            r == self.spec_frames(),
    {
        self.frames
    }

    /// Whether the lights are on for the next frame recorded (off by default). A change from the
    /// previous frame is a light jump: that frame resets every pixel.
    pub fn set_lights(&mut self, on: bool)
        requires
            old(self).wf(),
        ensures
            final(self).wf(),
            final(self).spec_lights() == on,
            final(self).spec_size() == old(self).spec_size(),
            final(self).spec_parity() == old(self).spec_parity(),
            final(self).spec_prev() == old(self).spec_prev(),
            final(self).spec_frames() == old(self).spec_frames(),
    {
        self.lights = on;
    }

    /// Which of the ping-pong buffers the last recorded frame wrote.
    pub fn parity(&self) -> (r: usize)
        requires
            self.wf(),
        ensures
            r == self.spec_parity(),
            r < 2,
    {
        self.parity
    }

    /// Why the next frame resets. `cut` and `light` say that the camera or the sun jumped since the
    /// previous frame; the first frame has none and does not ask.
    pub open spec fn causes(&self, cut: bool, light: bool, forced: bool) -> ResetCause {
        match self.spec_prev() {
            None => ResetCause { first: true, cut: false, light: false, lights: false, forced },
            Some(p) => ResetCause { first: false, cut, light, lights: p != self.spec_lights(), forced },
        }
    }

    /// Why the next frame resets.
    pub fn cause(&self, cut: bool, light: bool, forced: bool) -> (r: ResetCause)
        ensures
            r == self.causes(cut, light, forced),
    {
        match self.prev {
            None => ResetCause { first: true, cut: false, light: false, lights: false, forced },
            Some(p) => ResetCause { first: false, cut, light, lights: p != self.lights, forced },
        }
    }

    /// A frame was recorded: the buffers that it wrote are the next frame's history.
    pub fn advance(&mut self)
        requires
            old(self).wf(),
            old(self).spec_frames() < u64::MAX,
        ensures
            final(self).wf(),
            final(self).spec_frames() == old(self).spec_frames() + 1,
            final(self).spec_parity() == 1 - old(self).spec_parity(),
            final(self).spec_prev() == Some(old(self).spec_lights()),
            final(self).spec_lights() == old(self).spec_lights(),
            final(self).spec_size() == old(self).spec_size(),
    {
        self.parity = 1 - self.parity;
        self.prev = Some(self.lights);
        self.frames += 1;
    }
}

/// Switching the lights resets the next frame, and it alone: the frame after that finds them as they
/// were.
pub proof fn law_lights_reset_one_frame(before: &History, set: &History, after: &History, on: bool)
    requires
        set.spec_lights() == on,
        set.spec_prev() == before.spec_prev(),
        after.spec_prev() == Some(on),
        after.spec_lights() == on,
        before.spec_prev() == Some(!on),
    ensures
        set.causes(false, false, false).is_any(),
        !after.causes(false, false, false).is_any(),
{
}

/// Bytes per pixel of each history buffer: two of guides, two of colour, two of state, and motion.
pub open spec fn pixel_bytes() -> Seq<u64> {
    seq![16, 16, 16, 16, 4, 4, 8]
}

/// The sizes of the history buffers of `width` by `height` pixels.
pub fn buffer_bytes(width: u32, height: u32) -> (r: Vec<u64>)
    requires
        width * height <= u32::MAX,
    ensures
        r@ == Seq::new(7, |i: int| (width * height * pixel_bytes()[i]) as u64),
{
    let px: u64 = (width * height) as u64;
    assert(px * 16 <= u64::MAX);
    let r: Vec<u64> = vec![16 * px, 16 * px, 16 * px, 16 * px, 4 * px, 4 * px, 8 * px];
    assert forall|i: int| 0 <= i < 7 implies #[trigger] r@[i] == (width * height * pixel_bytes()[i]) as u64 by {
        let p = width * height;
        let s = pixel_bytes();
        assert(s[0] == 16 && s[1] == 16 && s[2] == 16 && s[3] == 16 && s[4] == 4 && s[5] == 4 && s[6] == 8);
        assert(p * 16 == 16 * p && p * 4 == 4 * p && p * 8 == 8 * p);
        assert(p * s[i] == if i < 4 {
            16 * p
        } else if i < 6 {
            4 * p
        } else {
            8 * p
        }) by (nonlinear_arith)
            requires
                s[i] == if i < 4 {
                    16u64
                } else if i < 6 {
                    4u64
                } else {
                    8u64
                },
        ;
    }
    r
}

/// A pixel's state: its age, and its reason's code.
pub open spec fn state_of(s: u32) -> (u32, u32) {
    (s & 65535, (s >> 16) & 255)
}

/// The state of every pixel of a downloaded buffer: age, and reason code.
pub fn read_states(bytes: &[u8]) -> (r: Vec<(u32, u32)>)
    ensures
        r@.len() == bytes@.len() / 4,
        forall|i: int|
            0 <= i < r@.len() ==> #[trigger] r@[i] == state_of(
                of_le32(bytes@.subrange(4 * i, 4 * i + 4)) as u32,
            ),
{
    let n: usize = bytes.len() / 4;
    let mut out: Vec<(u32, u32)> = Vec::new();
    let mut i: usize = 0;
    while i < n
        invariant
            n == bytes@.len() / 4,
            bytes@.len() <= usize::MAX,
            i <= n,
            out@.len() == i,
            forall|k: int|
                0 <= k < i ==> #[trigger] out@[k] == state_of(
                    of_le32(bytes@.subrange(4 * k, 4 * k + 4)) as u32,
                ),
        decreases n - i,
    {
        let s: u32 = u32_at(bytes, 4 * i);
        out.push((s & 65535, (s >> 16) & 255));
        i += 1;
    }
    out
}

/// The guides of every pixel of a downloaded buffer: face and material, plane, region key, and
/// snapshot.
pub fn read_guides(bytes: &[u8]) -> (r: Vec<[u32; 4]>)
    ensures
        r@.len() == bytes@.len() / 16,
        forall|i: int, k: int|
            0 <= i < r@.len() && 0 <= k < 4 ==> #[trigger] r@[i][k] == of_le32(
                bytes@.subrange(16 * i + 4 * k, 16 * i + 4 * k + 4),
            ),
{
    let n: usize = bytes.len() / 16;
    let mut out: Vec<[u32; 4]> = Vec::new();
    let mut i: usize = 0;
    while i < n
        invariant
            n == bytes@.len() / 16,
            bytes@.len() <= usize::MAX,
            i <= n,
            out@.len() == i,
            forall|j: int, k: int|
                0 <= j < i && 0 <= k < 4 ==> #[trigger] out@[j][k] == of_le32(
                    bytes@.subrange(16 * j + 4 * k, 16 * j + 4 * k + 4),
                ),
        decreases n - i,
    {
        let p: usize = 16 * i;
        let g: [u32; 4] = [u32_at(bytes, p), u32_at(bytes, p + 4), u32_at(bytes, p + 8), u32_at(bytes, p + 12)];
        out.push(g);
        i += 1;
    }
    out
}

/// A union reaches as far as either box on every side, and no farther than one of them.
pub proof fn law_unions_reach_as_far_as_either(a: Relight, b: Relight, u: Relight, k: int)
    requires
        u.unites(a, b),
        0 <= k < 3,
    ensures
        u.lo[k] <= a.lo[k] && u.lo[k] <= b.lo[k] && (u.lo[k] == a.lo[k] || u.lo[k] == b.lo[k]),
        u.hi[k] >= a.hi[k] && u.hi[k] >= b.hi[k] && (u.hi[k] == a.hi[k] || u.hi[k] == b.hi[k]),
{
    assert(k == 0 || k == 1 || k == 2);
}

/// Every voxel of every box edited this frame lies in one of the boxes handed to the shader.
pub proof fn law_merged_boxes_hold_every_voxel(boxes: Seq<Relight>, merged: Seq<Relight>, i: int, v: [i32; 3])
    requires
        boxes.len() <= 16 ==> merged == boxes,
        boxes.len() > 16 ==> merged.len() == 16 && merged.take(15) == boxes.take(15) && joins(merged[15], boxes.skip(15)),
        0 <= i < boxes.len(),
        forall|k: int| 0 <= k < 3 ==> boxes[i].lo[k] <= #[trigger] v[k] < boxes[i].hi[k],
    ensures
        exists|j: int|
            0 <= j < merged.len() && forall|k: int| 0 <= k < 3 ==> (#[trigger] merged[j]).lo[k] <= #[trigger] v[k] < merged[j].hi[k],
{
    law_merged_boxes_hold_every_box(boxes, merged, i);
    let j = choose|j: int| 0 <= j < merged.len() && boxes[i].inside(#[trigger] merged[j]);
    let m = merged[j];
    assert forall|k: int| 0 <= k < 3 implies m.lo[k] <= #[trigger] v[k] < m.hi[k] by {
        assert(k == 0 || k == 1 || k == 2);
    }
}

/// The shader numbers the reasons from zero in this order.
pub proof fn law_reasons_are_numbered_in_order(k: int)
    requires
        0 <= k < 10,
    ensures
        ({
            let all = seq![
                Reason::Accepted,
                Reason::Sky,
                Reason::OffScreen,
                Reason::NoPrevious,
                Reason::Material,
                Reason::Normal,
                Reason::Disoccluded,
                Reason::Edited,
                Reason::Reset,
                Reason::Relit,
            ];
            all[k].spec_code() == k && forall|r: Reason| #[trigger] r.spec_code() == k ==> r == all[k]
        }),
{
}

/// A frame resets exactly when it is the first, the camera or the sun jumped, the lights switched since the previous
/// frame, or it is forced; the first frame is put down to nothing that compares it with a previous one.
pub proof fn law_frames_reset_when_something_changed(h: &History, cut: bool, light: bool, forced: bool)
    requires
        h.wf(),
    ensures
        ({
            let c = h.causes(cut, light, forced);
            let first = h.spec_frames() == 0;
            let switched = h.spec_prev() matches Some(p) && p != h.spec_lights();
            &&& c.is_any() <==> first || cut || light || forced || switched
            &&& c.first <==> first
            &&& c.cut <==> cut && !first
            &&& c.light <==> light && !first
            &&& c.lights <==> switched
            &&& c.forced <==> forced
        }),
{
}

/// A history holds two buffers of four guide words, two of four colour words and two of one state word for each
/// pixel, and one of two motion words.
pub proof fn law_history_buffers_come_in_pairs()
    ensures
        pixel_bytes().len() == 7,
        pixel_bytes()[0] == 4 * 4 && pixel_bytes()[1] == pixel_bytes()[0],
        pixel_bytes()[2] == 4 * 4 && pixel_bytes()[3] == pixel_bytes()[2],
        pixel_bytes()[4] == 4 && pixel_bytes()[5] == pixel_bytes()[4],
        pixel_bytes()[6] == 2 * 4,
{
}

/// A state word gives back the age in its low half and the reason in the byte above it, whatever its highest byte.
pub proof fn law_states_give_back_age_and_reason(age: u32, reason: u32, rest: u32, s: u32)
    requires
        age < 65536,
        reason < 256,
        rest < 256,
        s == age + 65536 * reason + 16777216 * rest,
    ensures
        state_of(s) == (age, reason),
{
    assert(s & 65535 == age && (s >> 16) & 255 == reason) by (bit_vector)
        requires
            age < 65536,
            reason < 256,
            rest < 256,
            s == age + 65536 * reason + 16777216 * rest,
    ;
}

/// The history buffers are bound in pairs, the one that is read in front of the one that is written, and every
/// binding has the number of its place.
pub proof fn law_history_bindings_come_in_pairs(i: int)
    requires
        0 <= i < 14,
    ensures
        layout_view().len() == 15,
        layout_view()[i] is Descriptor && layout_view()[i]->Descriptor_1 == i,
        layout_view()[6]->Descriptor_0 == "prev_guides"@ && layout_view()[7]->Descriptor_0 == "next_guides"@,
        layout_view()[8]->Descriptor_0 == "prev_hist"@ && layout_view()[9]->Descriptor_0 == "next_hist"@,
        layout_view()[10]->Descriptor_0 == "prev_state"@ && layout_view()[11]->Descriptor_0 == "next_state"@,
{
}

/// The previous frame's camera lies 64 bytes behind this frame's, vector by vector.
pub proof fn law_cameras_lie_apart()
    ensures
        packed(param_fields())[0] == ("eye"@, 0u64, 16u64) && packed(param_fields())[4] == ("prev_eye"@, 64u64, 16u64),
        packed(param_fields())[1] == ("forward"@, 16u64, 16u64) && packed(param_fields())[5] == ("prev_fwd"@, 80u64, 16u64),
        packed(param_fields())[2] == ("right"@, 32u64, 16u64) && packed(param_fields())[6] == ("prev_right"@, 96u64, 16u64),
        packed(param_fields())[3] == ("up"@, 48u64, 16u64) && packed(param_fields())[7] == ("prev_up"@, 112u64, 16u64),
{
    reveal_with_fuel(offset_at, 10);
}

/// Each flag is one binary digit of the word, at the place where the shader tests it.
pub proof fn law_flags_are_binary_digits(r: u32)
    ensures
        holds(r, RESET) <==> r / 1 % 2 == 1,
        holds(r, BILINEAR) <==> r / 2 % 2 == 1,
        holds(r, FAULT_RESET_ALWAYS) <==> r / 256 % 2 == 1,
        holds(r, FAULT_NEVER_REJECT) <==> r / 512 % 2 == 1,
        holds(r, FAULT_NO_FRESH) <==> r / 1024 % 2 == 1,
{
    assert((r & 1u32 != 0 <==> r / 1 % 2 == 1) && (r & 2u32 != 0 <==> r / 2 % 2 == 1) && (r & 256u32 != 0 <==> r / 256 % 2 == 1)
        && (r & 512u32 != 0 <==> r / 512 % 2 == 1) && (r & 1024u32 != 0 <==> r / 1024 % 2 == 1)) by (bit_vector);
}

/// The relight buffer has a row of four words, and two for each box that it may hold.
pub proof fn law_the_relight_buffer_holds_every_box()
    ensures
        RELIGHT_BYTES == 16 + 32 * MAX_RELIGHT_BOXES,
{
}

} // verus!
