//! The swapchain's shape, and the frames in flight. A frame slot is used again only after the
//! timeline has reached the value of its last submission.
use crate::gpu::vulkan::{format_bgra_srgb, present_fifo, space_srgb};
use vstd::arithmetic::div_mod::lemma_small_mod;
use vstd::prelude::*;

verus! {

/// What a surface allows.
#[derive(Clone, Copy, Debug, PartialEq, Eq)]
pub struct Surface {
    /// The width is the largest number when the window decides.
    pub current: (u32, u32),
    pub min: (u32, u32),
    pub max: (u32, u32),
    pub min_images: u32,
    /// Zero: no limit.
    pub max_images: u32,
}

/// `x` moved into the range from `lo` to `hi`.
pub open spec fn clamped(x: u32, lo: u32, hi: u32) -> u32 {
    if x < lo {
        lo
    } else if x > hi {
        hi
    } else {
        x
    }
}

fn clamp(x: u32, lo: u32, hi: u32) -> (r: u32)
    ensures
        r == clamped(x, lo, hi),
{
    if x < lo {
        lo
    } else if x > hi {
        hi
    } else {
        x
    }
}

/// The size the swapchain's images have.
pub open spec fn extent_of(s: Surface, window: (u32, u32)) -> (u32, u32) {
    if s.current.0 != u32::MAX {
        s.current
    } else {
        (clamped(window.0, s.min.0, s.max.0), clamped(window.1, s.min.1, s.max.1))
    }
}

/// The images' size, or `None` when it has no area (minimized).
pub fn extent(s: Surface, window: (u32, u32)) -> (r: Option<(u32, u32)>)
    requires
        s.min.0 <= s.max.0,
        s.min.1 <= s.max.1,
    ensures
        match r {
            Some(e) => e == extent_of(s, window) && e.0 > 0 && e.1 > 0,
            None => extent_of(s, window).0 == 0 || extent_of(s, window).1 == 0,
        },
{
    let e: (u32, u32) = if s.current.0 != u32::MAX {
        s.current
    } else {
        (clamp(window.0, s.min.0, s.max.0), clamp(window.1, s.min.1, s.max.1))
    };
    if e.0 == 0 || e.1 == 0 {
        None
    } else {
        Some(e)
    }
}

/// The format and colour space that the views are written for.
pub open spec fn preferred() -> (i32, i32) {
    (50, 0)
}

/// The format of the images: 8-bit sRGB when it is offered, otherwise the first that the surface
/// lists; `None` when it lists none.
pub fn image_format(formats: &[(i32, i32)]) -> (r: Option<(i32, i32)>)
    ensures
        r == if formats@.contains(preferred()) {
            Some(preferred())
        } else if formats@.len() > 0 {
            Some(formats@[0])
        } else {
            None
        },
{
    let want: (i32, i32) = (format_bgra_srgb(), space_srgb());
    let mut i: usize = 0;
    while i < formats.len()
        invariant
            i <= formats@.len(),
            want == preferred(),
            forall|k: int| 0 <= k < i ==> #[trigger] formats@[k] != preferred(),
        decreases formats@.len() - i,
    {
        if formats[i].0 == want.0 && formats[i].1 == want.1 {
            assert(formats@[i as int] == preferred());
            return Some(want);
        }
        i += 1;
    }
    if formats.len() > 0 {
        Some(formats[0])
    } else {
        None
    }
}

/// The present mode: the one asked for when the surface lists it, otherwise first-in first-out, which
/// every surface has.
pub fn present_mode(modes: &[i32], want: i32) -> (r: i32)
    ensures
        r == if modes@.contains(want) {
            want
        } else {
            2
        },
{
    let mut i: usize = 0;
    while i < modes.len()
        invariant
            i <= modes@.len(),
            forall|k: int| 0 <= k < i ==> #[trigger] modes@[k] != want,
        decreases modes@.len() - i,
    {
        if modes[i] == want {
            assert(modes@[i as int] == want);
            return want;
        }
        i += 1;
    }
    present_fifo()
}

/// How many images to ask for: one more than the surface needs, within its limit.
pub fn image_count(s: Surface) -> (r: u32)
    requires
        s.min_images < u32::MAX,
    ensures
        r == if s.max_images != 0 && s.max_images < s.min_images + 1 {
            s.max_images as int
        } else {
            s.min_images + 1
        },
{
    if s.max_images != 0 && s.max_images < s.min_images + 1 {
        s.max_images
    } else {
        s.min_images + 1
    }
}

/// Driver-owned image bytes, estimated at 4 bytes per pixel.
pub fn estimated_bytes(images: u64, extent: (u32, u32)) -> (r: u64)
    requires
        images * extent.0 * extent.1 * 4 <= u64::MAX,
        images * extent.0 <= u64::MAX,
    ensures
        r == images * extent.0 * extent.1 * 4,
{
    let (w, h) = (extent.0 as u64, extent.1 as u64);
    let row: u64 = images * w;
    row * h * 4
}

/// The present ids of one swapchain.
pub struct Presents {
    /// Id of the last present (0: none yet).
    last: u64,
    /// Whether the device can wait for a present.
    waits: bool,
}

impl Presents {
    pub closed spec fn spec_last(&self) -> u64 {
        self.last
    }

    pub closed spec fn spec_waits(&self) -> bool {
        self.waits
    }

    pub fn new(waits: bool) -> (r: Presents)
        ensures
            r.spec_last() == 0,
            r.spec_waits() == waits,
    {
        Presents { last: 0, waits }
    }

    /// The id that the next present carries, counted from one; `None` when the device cannot wait.
    pub fn present(&mut self) -> (r: Option<u64>)
        requires
            old(self).spec_last() < u64::MAX,
        ensures
            final(self).spec_waits() == old(self).spec_waits(),
            match r {
                Some(id) => old(self).spec_waits() && id == old(self).spec_last() + 1 && final(self).spec_last() == id,
                None => !old(self).spec_waits() && final(self).spec_last() == old(self).spec_last(),
            },
    {
        if self.waits {
            self.last += 1;
            Some(self.last)
        } else {
            None
        }
    }

    /// What to wait for so that every present but the last `pending` has reached the display.
    pub fn target(&self, pending: u64) -> (r: WaitFor)
        ensures
            r == if !self.spec_waits() {
                WaitFor::Unknown
            } else if pending >= self.spec_last() {
                WaitFor::Nothing
            } else {
                WaitFor::Present((self.spec_last() - pending) as u64)
            },
    {
        if !self.waits {
            WaitFor::Unknown
        } else if pending >= self.last {
            WaitFor::Nothing
        } else {
            WaitFor::Present(self.last - pending)
        }
    }
}

/// What a wait for presents comes to.
#[derive(Clone, Copy, Debug, PartialEq, Eq, Structural)]
pub enum WaitFor {
    /// The device cannot tell.
    Unknown,
    /// All of them have been shown, or there are none.
    Nothing,
    /// The present with this id.
    Present(u64),
}

/// The frame slots: one per frame in flight, each with the timeline value of its last submission (0:
/// none yet).
pub struct Frames {
    values: Vec<u64>,
    next: usize,
}

impl View for Frames {
    type V = Seq<u64>;

    closed spec fn view(&self) -> Seq<u64> {
        self.values@
    }
}

impl Frames {
    pub closed spec fn spec_next(&self) -> usize {
        self.next
    }

    pub open spec fn wf(&self) -> bool {
        self.spec_next() < self@.len()
    }

    pub fn new(in_flight: usize) -> (r: Frames)
        requires
            in_flight > 0,
        ensures
            r.wf(),
            r@ == Seq::new(in_flight as nat, |i: int| 0u64),
            r.spec_next() == 0,
    {
        let mut values: Vec<u64> = Vec::new();
        let mut i: usize = 0;
        while i < in_flight
            invariant
                i <= in_flight,
                values@ == Seq::new(i as nat, |k: int| 0u64),
            decreases in_flight - i,
        {
            values.push(0);
            i += 1;
        }
        Frames { values, next: 0 }
    }

    pub fn in_flight(&self) -> (r: usize)
        ensures
            r == self@.len(),
    {
        self.values.len()
    }

    /// The slot of the next frame, and the timeline value to wait for before it is used again.
    pub fn begin(&self) -> (r: (usize, Option<u64>))
        requires
            self.wf(),
        ensures
            r.0 == self.spec_next(),
            r.1 == if self@[r.0 as int] > 0 {
                Some(self@[r.0 as int])
            } else {
                None
            },
    {
        let v: u64 = self.values[self.next];
        if v > 0 {
            (self.next, Some(v))
        } else {
            (self.next, None)
        }
    }

    /// The slot's scene was submitted at `value`.
    pub fn scene_submitted(&mut self, slot: usize, value: u64)
        requires
            old(self).wf(),
            slot < old(self)@.len(),
        ensures
            final(self).wf(),
            final(self)@ == old(self)@.update(slot as int, value),
            final(self).spec_next() == old(self).spec_next(),
    {
        self.values.set(slot, value);
    }

    /// The slot's present was submitted at `value`: the next frame takes the next slot.
    pub fn present_submitted(&mut self, slot: usize, value: u64)
        requires
            old(self).wf(),
            slot < old(self)@.len(),
        ensures
            final(self).wf(),
            final(self)@ == old(self)@.update(slot as int, value),
            final(self).spec_next() == (old(self).spec_next() + 1) % (old(self)@.len() as int),
    {
        self.values.set(slot, value);
        let n: usize = self.values.len();
        assert(self.next < n);
        self.next = (self.next + 1) % n;
    }

    /// The values to wait for so that every slot's last submission is done.
    pub fn waits(&self) -> (r: Vec<u64>)
        ensures
            r@ == self@.filter(|v: u64| v > 0),
    {
        let mut out: Vec<u64> = Vec::new();
        let mut i: usize = 0;
        assert(self@.take(0).filter(|v: u64| v > 0) =~= Seq::empty());
        while i < self.values.len()
            invariant
                i <= self@.len(),
                self@ == self.values@,
                out@ == self@.take(i as int).filter(|v: u64| v > 0),
            decreases self@.len() - i,
        {
            let v: u64 = self.values[i];
            proof {
                let t = self@.take(i + 1);
                assert(t.drop_last() =~= self@.take(i as int));
                assert(t.last() == v);
                reveal(Seq::filter);
            }
            if v > 0 {
                out.push(v);
            }
            i += 1;
        }
        assert(self@.take(i as int) =~= self@);
        out
    }
}

/// The slot of the `k`-th frame after one in slot `first`.
pub open spec fn slot_after(first: int, k: nat, slots: int) -> int
    decreases k,
{
    if k == 0 {
        first
    } else {
        (slot_after(first, (k - 1) as nat, slots) + 1) % slots
    }
}

/// A slot comes round after exactly as many frames as there are slots, so at most that many are in
/// flight.
pub proof fn law_slots_come_round(first: int, k: nat, slots: int)
    requires
        0 <= first < slots,
        0 < k <= slots,
    ensures
        0 <= slot_after(first, k, slots) < slots,
        (slot_after(first, k, slots) == first) == (k == slots),
{
    lemma_slot_after(first, k, slots);
}

proof fn lemma_slot_after(first: int, k: nat, slots: int)
    requires
        0 <= first < slots,
        k <= slots,
    ensures
        slot_after(first, k, slots) == if first + k < slots {
            first + k
        } else {
            first + k - slots
        },
    decreases k,
{
    if k > 0 {
        lemma_slot_after(first, (k - 1) as nat, slots);
        let s = slot_after(first, (k - 1) as nat, slots);
        if s + 1 < slots {
            lemma_small_mod((s + 1) as nat, slots as nat);
        } else {
            assert(slots % slots == 0) by (nonlinear_arith)
                requires
                    slots > 0,
            ;
        }
    }
}

/// The images have the size that the surface says, if it says one. Otherwise each side is that of the window where the
/// surface allows it, and is otherwise the nearest length that it allows.
pub proof fn law_images_are_as_near_the_window_as_allowed(s: Surface, window: (u32, u32), w: int, h: int)
    requires
        s.min.0 <= s.max.0,
        s.min.1 <= s.max.1,
        s.min.0 <= w <= s.max.0,
        s.min.1 <= h <= s.max.1,
    ensures
        ({
            let e = extent_of(s, window);
            &&& s.current.0 != 0xffff_ffff ==> e.0 == s.current.0 && e.1 == s.current.1
            &&& s.current.0 == 0xffff_ffff ==> {
                &&& s.min.0 <= e.0 <= s.max.0 && s.min.1 <= e.1 <= s.max.1
                &&& vstd::math::abs(e.0 - window.0) <= vstd::math::abs(w - window.0)
                &&& vstd::math::abs(e.1 - window.1) <= vstd::math::abs(h - window.1)
            }
        }),
{
}

} // verus!
