//! Device selection, validation messages and the device memory budget.
//!
//! - The device is chosen by capability, never by index: Vulkan 1.3, acceleration structures and
//!   ray query, a graphics and compute queue with timestamps, and the features the raster path uses.
//!   Discrete GPUs win ties.
//! - With a window, a device qualifies only if it has the swapchain extension and its queue family
//!   can present to the surface.
//! - A diagnostic setting also accepts a device without ray tracing, below every one that has it.
use crate::gpu::vulkan::{api_version_1_3, heap_is_device_local, queue_draws_and_computes};
use vstd::prelude::*;

verus! {

/// Validation message counts. The first few error texts are kept.
#[derive(Debug)]
pub struct Validation {
    pub errors: u64,
    pub warnings: u64,
    pub first_errors: Vec<String>,
}

/// Error texts kept.
pub const ERRORS_KEPT: usize = 8;

impl Default for Validation {
    fn default() -> (r: Validation)
        ensures
            r.errors == 0,
            r.warnings == 0,
            r.first_errors@.len() == 0,
    {
        Validation { errors: 0, warnings: 0, first_errors: Vec::new() }
    }
}

impl Validation {
    /// Counts a message; an error's text is kept while there is room. Counts wrap around.
    pub fn note(&mut self, error: bool, message: String)
        ensures
            error ==> final(self).errors == (if old(self).errors == u64::MAX {
                0
            } else {
                old(self).errors + 1
            }) && final(self).warnings == old(self).warnings && final(self).first_errors@ == if old(self).first_errors@.len() < ERRORS_KEPT {
                old(self).first_errors@.push(message)
            } else {
                old(self).first_errors@
            },
            !error ==> final(self).warnings == (if old(self).warnings == u64::MAX {
                0
            } else {
                old(self).warnings + 1
            }) && final(self).errors == old(self).errors && final(self).first_errors@ == old(self).first_errors@,
    {
        if error {
            self.errors = if self.errors == u64::MAX {
                0
            } else {
                self.errors + 1
            };
            if self.first_errors.len() < ERRORS_KEPT {
                self.first_errors.push(message);
            }
        } else {
            self.warnings = if self.warnings == u64::MAX {
                0
            } else {
                self.warnings + 1
            };
        }
    }
}

/// What is known of a queue family.
#[derive(Clone, Copy, Debug, PartialEq, Eq, Structural)]
pub struct Family {
    /// The queue flags, as raw bits.
    pub flags: u32,
    pub timestamp_valid_bits: u32,
    /// It can present to the window's surface.
    pub presents: bool,
}

/// What is known of a physical device: its version, the extensions it offers and the features it
/// has.
#[derive(Debug, PartialEq, Eq)]
pub struct Candidate {
    pub api_version: u32,
    pub discrete: bool,
    pub acceleration_structure: bool,
    pub ray_query: bool,
    pub deferred_host_operations: bool,
    pub swapchain: bool,
    pub memory_budget: bool,
    pub present_id: bool,
    pub present_wait: bool,
    pub geometry_shader: bool,
    pub dynamic_rendering: bool,
    pub present_id_feature: bool,
    pub present_wait_feature: bool,
    pub families: Vec<Family>,
}

/// What the selection is for.
#[derive(Clone, Copy, Debug, PartialEq, Eq, Structural)]
pub struct Wanted {
    /// There is a window to present to.
    pub window: bool,
    /// Accept a device without ray tracing.
    pub allow_no_ray_tracing: bool,
}

/// Why a device does not qualify.
#[derive(Clone, Copy, Debug, PartialEq, Eq, Structural)]
pub enum Rejection {
    /// Needs Vulkan 1.3, acceleration structures and ray query.
    RayTracing,
    /// Needs geometry shaders and dynamic rendering.
    Raster,
    /// No swapchain extension.
    Swapchain,
    /// No graphics and compute queue with timestamps (that presents to the window, if there is one).
    Queue,
}

/// The family draws, computes, has timestamps and, for a window, presents.
pub open spec fn family_serves(f: Family, want: Wanted) -> bool {
    f.flags & 3 == 3 && f.timestamp_valid_bits > 0 && (want.window ==> f.presents)
}

impl Candidate {
    pub open spec fn ray_traces(&self) -> bool {
        self.acceleration_structure && self.ray_query && self.deferred_host_operations
    }

    /// The first family that serves.
    pub open spec fn family(&self, want: Wanted, i: int) -> bool {
        &&& 0 <= i < self.families@.len() && family_serves(self.families@[i], want)
        &&& forall|j: int| 0 <= j < i ==> !family_serves(#[trigger] self.families@[j], want)
    }

    pub open spec fn has_family(&self, want: Wanted) -> bool {
        exists|i: int| 0 <= i < self.families@.len() && family_serves(#[trigger] self.families@[i], want)
    }

    /// The first thing the device lacks.
    pub open spec fn lacks(&self, want: Wanted) -> Option<Rejection> {
        if self.api_version < 4206592 || !(self.ray_traces() || want.allow_no_ray_tracing) {
            Some(Rejection::RayTracing)
        } else if !self.geometry_shader || !self.dynamic_rendering {
            Some(Rejection::Raster)
        } else if want.window && !self.swapchain {
            Some(Rejection::Swapchain)
        } else if !self.has_family(want) {
            Some(Rejection::Queue)
        } else {
            None
        }
    }

    /// Ray tracing beats everything; a discrete GPU beats the others.
    pub open spec fn spec_score(&self) -> int {
        (if self.ray_traces() {
            10int
        } else {
            0int
        }) + (if self.discrete {
            2int
        } else {
            1int
        })
    }

    pub open spec fn waits_for_presents(&self, want: Wanted) -> bool {
        want.window && self.present_id && self.present_wait && self.present_id_feature && self.present_wait_feature
    }

    fn first_family(&self, want: Wanted) -> (r: Option<u32>)
        requires
            self.families@.len() <= u32::MAX,
        ensures
            match r {
                Some(i) => self.family(want, i as int) && self.has_family(want),
                None => !self.has_family(want),
            },
    {
        let mut i: usize = 0;
        while i < self.families.len()
            invariant
                i <= self.families@.len() <= u32::MAX,
                forall|j: int| 0 <= j < i ==> !family_serves(#[trigger] self.families@[j], want),
            decreases self.families@.len() - i,
        {
            let f = self.families[i];
            if queue_draws_and_computes(f.flags) && f.timestamp_valid_bits > 0 && (!want.window || f.presents) {
                assert(family_serves(self.families@[i as int], want));
                return Some(i as u32);
            }
            i += 1;
        }
        None
    }

    /// The queue family to use, or why the device does not qualify.
    pub fn judge(&self, want: Wanted) -> (r: Result<u32, Rejection>)
        requires
            self.families@.len() <= u32::MAX,
        ensures
            match r {
                Ok(i) => self.lacks(want) is None && self.family(want, i as int),
                Err(e) => self.lacks(want) == Some(e),
            },
    {
        let ray = self.acceleration_structure && self.ray_query && self.deferred_host_operations;
        if self.api_version < api_version_1_3() || !(ray || want.allow_no_ray_tracing) {
            return Err(Rejection::RayTracing);
        }
        if !self.geometry_shader || !self.dynamic_rendering {
            return Err(Rejection::Raster);
        }
        if want.window && !self.swapchain {
            return Err(Rejection::Swapchain);
        }
        match self.first_family(want) {
            Some(i) => Ok(i),
            None => Err(Rejection::Queue),
        }
    }

    fn score(&self) -> (r: i32)
        ensures
            r == self.spec_score(),
    {
        let ray: i32 = if self.acceleration_structure && self.ray_query && self.deferred_host_operations {
            10
        } else {
            0
        };
        ray + if self.discrete {
            2
        } else {
            1
        }
    }
}

/// The device chosen, by its place among the candidates.
#[derive(Clone, Copy, Debug, PartialEq, Eq, Structural)]
pub struct Choice {
    pub device: usize,
    pub queue_family: u32,
    pub memory_budget: bool,
    pub ray_tracing: bool,
    pub present_wait: bool,
}

/// Device `i` is the best: it qualifies, none that qualifies scores higher, and none before it
/// scores as high.
pub open spec fn best(cs: Seq<Candidate>, want: Wanted, i: int) -> bool {
    &&& 0 <= i < cs.len() && cs[i].lacks(want) is None
    &&& forall|j: int| 0 <= j < cs.len() && (#[trigger] cs[j]).lacks(want) is None ==> cs[j].spec_score() <= cs[i].spec_score() && (j < i
        ==> cs[j].spec_score() < cs[i].spec_score())
}

/// The first `n` candidates that do not qualify, with why.
pub open spec fn rejections(cs: Seq<Candidate>, want: Wanted, n: nat) -> Seq<(usize, Rejection)>
    decreases n,
{
    if n == 0 {
        Seq::empty()
    } else {
        let before = rejections(cs, want, (n - 1) as nat);
        match cs[n - 1].lacks(want) {
            Some(e) => before.push(((n - 1) as usize, e)),
            None => before,
        }
    }
}

/// There is at most one best device.
pub proof fn law_best_device_is_unique(cs: Seq<Candidate>, want: Wanted, i: int, j: int)
    requires
        best(cs, want, i),
        best(cs, want, j),
    ensures
        i == j,
{
    assert(cs[i].lacks(want) is None && cs[j].lacks(want) is None);
}

/// A device that traces rays is chosen whenever one qualifies.
pub proof fn law_ray_tracing_wins(cs: Seq<Candidate>, want: Wanted, i: int, j: int)
    requires
        best(cs, want, i),
        0 <= j < cs.len(),
        cs[j].lacks(want) is None,
        cs[j].ray_traces(),
    ensures
        cs[i].ray_traces(),
{
}

/// Chooses the device. Without one that qualifies, says why each was rejected.
pub fn select(cs: &[Candidate], want: Wanted) -> (r: Result<Choice, Vec<(usize, Rejection)>>)
    requires
        forall|i: int| 0 <= i < cs@.len() ==> (#[trigger] cs@[i]).families@.len() <= u32::MAX,
    ensures
        match r {
            Ok(c) => best(cs@, want, c.device as int) && cs@[c.device as int].family(want, c.queue_family as int) && c == (Choice {
                device: c.device,
                queue_family: c.queue_family,
                memory_budget: cs@[c.device as int].memory_budget,
                ray_tracing: cs@[c.device as int].ray_traces(),
                present_wait: cs@[c.device as int].waits_for_presents(want),
            }),
            Err(e) => e@ == rejections(cs@, want, cs@.len()) && forall|i: int|
                0 <= i < cs@.len() ==> (#[trigger] cs@[i]).lacks(want) is Some,
        },
{
    let mut chosen: Option<(i32, Choice)> = None;
    let mut rejected: Vec<(usize, Rejection)> = Vec::new();
    let mut i: usize = 0;
    while i < cs.len()
        invariant
            i <= cs@.len(),
            forall|j: int| 0 <= j < cs@.len() ==> (#[trigger] cs@[j]).families@.len() <= u32::MAX,
            rejected@ == rejections(cs@, want, i as nat),
            match chosen {
                Some((score, c)) => {
                    &&& c.device < i && cs@[c.device as int].lacks(want) is None && score == cs@[c.device as int].spec_score()
                    &&& forall|j: int|
                        0 <= j < i && (#[trigger] cs@[j]).lacks(want) is None ==> cs@[j].spec_score() <= score && (j < c.device
                            ==> cs@[j].spec_score() < score)
                    &&& cs@[c.device as int].family(want, c.queue_family as int)
                    &&& c.memory_budget == cs@[c.device as int].memory_budget
                    &&& c.ray_tracing == cs@[c.device as int].ray_traces()
                    &&& c.present_wait == cs@[c.device as int].waits_for_presents(want)
                },
                None => forall|j: int| 0 <= j < i ==> (#[trigger] cs@[j]).lacks(want) is Some,
            },
        decreases cs@.len() - i,
    {
        let c = &cs[i];
        match c.judge(want) {
            Err(e) => {
                rejected.push((i, e));
            },
            Ok(family) => {
                let score: i32 = c.score();
                let better = match &chosen {
                    Some((s, _)) => score > *s,
                    None => true,
                };
                if better {
                    let choice = Choice {
                        device: i,
                        queue_family: family,
                        memory_budget: c.memory_budget,
                        ray_tracing: c.acceleration_structure && c.ray_query && c.deferred_host_operations,
                        present_wait: want.window && c.present_id && c.present_wait && c.present_id_feature && c.present_wait_feature,
                    };
                    chosen = Some((score, choice));
                }
            },
        }
        i += 1;
    }
    match chosen {
        Some((_, c)) => Ok(c),
        None => Err(rejected),
    }
}

/// A device extension to enable.
#[derive(Clone, Copy, Debug, PartialEq, Eq, Structural)]
pub enum Extension {
    AccelerationStructure,
    RayQuery,
    DeferredHostOperations,
    MemoryBudget,
    Swapchain,
    PresentId,
    PresentWait,
}

pub open spec fn extensions_of(c: Choice, want: Wanted) -> Seq<Extension> {
    (if c.ray_tracing {
        seq![Extension::AccelerationStructure, Extension::RayQuery, Extension::DeferredHostOperations]
    } else {
        Seq::empty()
    }) + (if c.memory_budget {
        seq![Extension::MemoryBudget]
    } else {
        Seq::empty()
    }) + (if want.window {
        seq![Extension::Swapchain]
    } else {
        Seq::empty()
    }) + (if c.present_wait {
        seq![Extension::PresentId, Extension::PresentWait]
    } else {
        Seq::empty()
    })
}

/// The device extensions to enable, in order.
pub fn extensions(c: Choice, want: Wanted) -> (r: Vec<Extension>)
    ensures
        r@ == extensions_of(c, want),
{
    let mut out: Vec<Extension> = Vec::new();
    if c.ray_tracing {
        out.push(Extension::AccelerationStructure);
        out.push(Extension::RayQuery);
        out.push(Extension::DeferredHostOperations);
    }
    if c.memory_budget {
        out.push(Extension::MemoryBudget);
    }
    if want.window {
        out.push(Extension::Swapchain);
    }
    if c.present_wait {
        out.push(Extension::PresentId);
        out.push(Extension::PresentWait);
    }
    assert(out@ =~= extensions_of(c, want));
    out
}

/// A memory heap: its flags as raw bits, and the driver's figures for it.
#[derive(Clone, Copy, Debug, PartialEq, Eq, Structural)]
pub struct Heap {
    pub flags: u32,
    pub usage: u64,
    pub budget: u64,
}

/// What the device-local heaps among the first `n` use, and may use.
pub open spec fn local_totals(hs: Seq<Heap>, n: nat) -> (int, int)
    decreases n,
{
    if n == 0 {
        (0, 0)
    } else {
        let (u, b) = local_totals(hs, (n - 1) as nat);
        let h = hs[n - 1];
        if h.flags & 1 == 1 {
            (u + h.usage, b + h.budget)
        } else {
            (u, b)
        }
    }
}

proof fn lemma_totals_grow(hs: Seq<Heap>, i: nat, n: nat)
    requires
        i <= n <= hs.len(),
    ensures
        0 <= local_totals(hs, i).0 <= local_totals(hs, n).0,
        0 <= local_totals(hs, i).1 <= local_totals(hs, n).1,
    decreases n,
{
    if i < n {
        lemma_totals_grow(hs, i, (n - 1) as nat);
    } else if i > 0 {
        lemma_totals_grow(hs, (i - 1) as nat, (i - 1) as nat);
    }
}

/// Usage and budget, summed over the device-local heaps.
pub fn heap_usage(hs: &[Heap]) -> (r: (u64, u64))
    requires
        local_totals(hs@, hs@.len()).0 <= u64::MAX,
        local_totals(hs@, hs@.len()).1 <= u64::MAX,
    ensures
        (r.0 as int, r.1 as int) == local_totals(hs@, hs@.len()),
{
    let mut usage: u64 = 0;
    let mut budget: u64 = 0;
    let mut i: usize = 0;
    while i < hs.len()
        invariant
            i <= hs@.len(),
            (usage as int, budget as int) == local_totals(hs@, i as nat),
            local_totals(hs@, hs@.len()).0 <= u64::MAX,
            local_totals(hs@, hs@.len()).1 <= u64::MAX,
        decreases hs@.len() - i,
    {
        proof {
            lemma_totals_grow(hs@, (i + 1) as nat, hs@.len());
        }
        let h = hs[i];
        if heap_is_device_local(h.flags) {
            usage = usage + h.usage;
            budget = budget + h.budget;
        }
        i += 1;
    }
    (usage, budget)
}

/// A family serves exactly when it draws (its lowest flag) and computes (the one above), counts time, and can present
/// where there is a window.
pub proof fn law_families_that_serve_draw_and_compute(f: Family, want: Wanted)
    ensures
        family_serves(f, want) <==> f.flags % 2 == 1 && f.flags / 2 % 2 == 1 && f.timestamp_valid_bits > 0 && (want.window ==> f.presents),
{
    let x = f.flags;
    assert(x & 3 == 3 <==> x % 2 == 1 && x / 2 % 2 == 1) by (bit_vector);
}

/// A device qualifies exactly when it has version 1.3, can trace rays unless it need not, has what the raster path
/// uses, can present where there is a window, and has a family that serves. What it is refused for is the first of
/// these that it lacks.
pub proof fn law_devices_qualify_with_all_they_need(c: &Candidate, want: Wanted)
    ensures
        ({
            let traces = c.acceleration_structure && c.ray_query && c.deferred_host_operations;
            let rays = c.api_version >= 1 * 4194304 + 3 * 4096 && (traces || want.allow_no_ray_tracing);
            let raster = c.geometry_shader && c.dynamic_rendering;
            let shows = !want.window || c.swapchain;
            let queue = exists|i: int| 0 <= i < c.families@.len() && family_serves(#[trigger] c.families@[i], want);
            &&& c.ray_traces() <==> traces
            &&& c.lacks(want) is None <==> rays && raster && shows && queue
            &&& c.lacks(want) == Some(Rejection::RayTracing) <==> !rays
            &&& c.lacks(want) == Some(Rejection::Raster) <==> rays && !raster
            &&& c.lacks(want) == Some(Rejection::Swapchain) <==> rays && raster && !shows
            &&& c.lacks(want) == Some(Rejection::Queue) <==> rays && raster && shows && !queue
        }),
{
}

/// Of two devices one scores higher exactly when it alone traces rays, or both or neither do and it alone is
/// discrete.
pub proof fn law_rays_count_before_discreteness(c: &Candidate, d: &Candidate)
    ensures
        c.spec_score() > d.spec_score() <==> (c.ray_traces() && !d.ray_traces()) || (c.ray_traces() == d.ray_traces() && c.discrete && !d.discrete),
{
}

/// Presents are waited for only on a window, and only with both extensions and both features.
pub proof fn law_waiting_needs_both_extensions_and_features(c: &Candidate, want: Wanted)
    ensures
        c.waits_for_presents(want) <==> want.window && (c.present_id && c.present_id_feature) && (c.present_wait && c.present_wait_feature),
{
}

/// The devices that do not qualify are listed in order, each once and with what it lacks first.
pub proof fn law_every_refusal_is_told(cs: Seq<Candidate>, want: Wanted, n: nat, i: usize, e: Rejection)
    requires
        n <= cs.len() <= usize::MAX,
    ensures
        rejections(cs, want, n).contains((i, e)) <==> i < n && cs[i as int].lacks(want) == Some(e),
        forall|j: int, k: int| 0 <= j < k < rejections(cs, want, n).len() ==> (#[trigger] rejections(cs, want, n)[j]).0 < (#[trigger] rejections(cs, want, n)[k]).0,
        forall|j: int| 0 <= j < rejections(cs, want, n).len() ==> (#[trigger] rejections(cs, want, n)[j]).0 < n,
    decreases n,
{
    if n > 0 {
        law_every_refusal_is_told(cs, want, (n - 1) as nat, i, e);
        let before = rejections(cs, want, (n - 1) as nat);
        let now = rejections(cs, want, n);
        assert(((n - 1) as usize) as int == n - 1);
        assert forall|j: int| 0 <= j < before.len() implies #[trigger] now[j] == before[j] by {}
        if before.contains((i, e)) {
            let k = choose|k: int| 0 <= k < before.len() && before[k] == (i, e);
            assert(now[k] == (i, e));
        }
        if i == n - 1 && cs[n - 1].lacks(want) == Some(e) {
            assert(now[before.len() as int] == (i, e));
        }
        if now.contains((i, e)) {
            let k = choose|k: int| 0 <= k < now.len() && now[k] == (i, e);
            if k < before.len() {
                assert(before[k] == (i, e));
            }
        }
    }
}

/// A device is made with exactly the extensions that its choice asks for.
pub proof fn law_extensions_are_those_asked_for(c: Choice, want: Wanted, e: Extension)
    ensures
        extensions_of(c, want).contains(e) <==> match e {
            Extension::AccelerationStructure | Extension::RayQuery | Extension::DeferredHostOperations => c.ray_tracing,
            Extension::MemoryBudget => c.memory_budget,
            Extension::Swapchain => want.window,
            Extension::PresentId | Extension::PresentWait => c.present_wait,
        },
        extensions_of(c, want).len() == (if c.ray_tracing {
            3int
        } else {
            0
        }) + (if c.memory_budget {
            1int
        } else {
            0
        }) + (if want.window {
            1int
        } else {
            0
        }) + (if c.present_wait {
            2int
        } else {
            0
        }),
{
    let rays = if c.ray_tracing {
        seq![Extension::AccelerationStructure, Extension::RayQuery, Extension::DeferredHostOperations]
    } else {
        Seq::empty()
    };
    let memory = if c.memory_budget {
        seq![Extension::MemoryBudget]
    } else {
        Seq::empty()
    };
    let window = if want.window {
        seq![Extension::Swapchain]
    } else {
        Seq::empty()
    };
    let waits = if c.present_wait {
        seq![Extension::PresentId, Extension::PresentWait]
    } else {
        Seq::empty()
    };
    let all = extensions_of(c, want);
    let (a, b, d) = (rays.len() as int, (rays + memory).len() as int, (rays + memory + window).len() as int);
    if c.ray_tracing {
        assert(all[0] == Extension::AccelerationStructure && all[1] == Extension::RayQuery && all[2] == Extension::DeferredHostOperations);
    }
    if c.memory_budget {
        assert(all[a] == Extension::MemoryBudget);
    }
    if want.window {
        assert(all[b] == Extension::Swapchain);
    }
    if c.present_wait {
        assert(all[d] == Extension::PresentId && all[d + 1] == Extension::PresentWait);
    }
    if all.contains(e) {
        let k = choose|k: int| 0 <= k < all.len() && all[k] == e;
        assert(k < a || a <= k < b || b <= k < d || d <= k < all.len());
    }
}

/// A heap counts with its own usage and budget exactly when its lowest flag says that it is device-local: totals with
/// and without it differ by just those.
pub proof fn law_only_local_heaps_count(hs: Seq<Heap>, n: nat, i: int, h: Heap)
    requires
        0 <= i < n <= hs.len(),
        hs[i].flags % 2 == 0,
    ensures
        local_totals(hs.update(i, h), n).0 - local_totals(hs, n).0 == if h.flags % 2 == 1 {
            h.usage as int
        } else {
            0
        },
        local_totals(hs.update(i, h), n).1 - local_totals(hs, n).1 == if h.flags % 2 == 1 {
            h.budget as int
        } else {
            0
        },
    decreases n,
{
    let (x, y) = (hs[i].flags, h.flags);
    assert((x & 1 == 1 <==> x % 2 == 1) && (y & 1 == 1 <==> y % 2 == 1)) by (bit_vector);
    let new = hs.update(i, h);
    if i < n - 1 {
        law_only_local_heaps_count(hs, (n - 1) as nat, i, h);
    } else {
        lemma_same_totals(hs, new, (n - 1) as nat);
    }
}

proof fn lemma_same_totals(a: Seq<Heap>, b: Seq<Heap>, n: nat)
    requires
        n <= a.len(),
        n <= b.len(),
        forall|k: int| 0 <= k < n ==> a[k] == b[k],
    ensures
        local_totals(a, n) == local_totals(b, n),
    decreases n,
{
    if n > 0 {
        lemma_same_totals(a, b, (n - 1) as nat);
    }
}

/// No heaps use nothing.
pub proof fn law_no_heaps_use_nothing(hs: Seq<Heap>)
    ensures
        local_totals(hs, 0) == (0int, 0int),
{
}

/// Of the devices that qualify, the chosen one scores as high as any, and higher than any in front of it.
pub proof fn law_ties_go_to_the_first_device(cs: Seq<Candidate>, want: Wanted, i: int, j: int)
    requires
        best(cs, want, i),
        0 <= j < cs.len(),
        cs[j].lacks(want) is None,
    ensures
        cs[i].lacks(want) is None,
        cs[i].spec_score() >= cs[j].spec_score(),
        cs[i].spec_score() == cs[j].spec_score() ==> i <= j,
{
}

/// The chosen family is the first one that serves.
pub proof fn law_the_first_family_is_taken(c: &Candidate, want: Wanted, i: int, j: int)
    requires
        c.family(want, i),
        0 <= j < c.families@.len(),
        family_serves(c.families@[j], want),
    ensures
        family_serves(c.families@[i], want),
        i <= j,
{
}

} // verus!
