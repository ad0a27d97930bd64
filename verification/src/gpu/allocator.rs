//! Device memory in blocks.
//!
//! - Memory comes in blocks, one pool per class: category, memory type, and whether it holds
//!   images.
//! - Sub-allocation is first-fit over an ordered free list with coalescing. An empty block is
//!   freed at once. A request larger than the block size gets a block of its own.
//! - Images never share a block with buffers.
//!
//! The caller asks the driver for a block's memory only after its own accounting has granted it,
//! and gives a range back only when nothing uses it any more.
use crate::gpu::bytes::{lemma_round_up, next_multiple, round_up};
use crate::gpu::vulkan::{device_local, host_coherent, host_visible, memory_contains, memory_intersects};
use crate::sorted::{Key, SortedMap};
use vstd::prelude::*;
use vstd::set_lib::{lemma_int_range, lemma_len_subset, lemma_set_disjoint_lens, lemma_subset_equality, set_int_range};

verus! {

/// 64 MiB.
pub const DEFAULT_BLOCK_BYTES: u64 = 67108864;

/// 1 MiB: blocks of their own are a multiple of it.
pub const BLOCK_GRAIN: u64 = 1048576;

/// Where a buffer lives.
#[derive(Clone, Copy, Debug, PartialEq, Eq, PartialOrd, Ord, Structural)]
pub enum Kind {
    /// Local to the device.
    Device,
    /// Visible to the host and coherent, persistently mapped: staging, readback, small test
    /// buffers.
    Host,
}

impl Kind {
    /// The memory properties a buffer of this kind needs.
    pub open spec fn wants(self) -> u32 {
        match self {
            Kind::Device => 1,
            Kind::Host => 2u32 | 4u32,
        }
    }

    /// The property of the other side.
    pub open spec fn avoids(self) -> u32 {
        match self {
            Kind::Device => 2,
            Kind::Host => 1,
        }
    }
}

/// Memory type `i` is allowed by `bits` and has what `kind` needs.
pub open spec fn usable(types: Seq<u32>, bits: u32, kind: Kind, i: int) -> bool {
    &&& 0 <= i < types.len()
    &&& bits & (1u32 << (i as u32)) != 0
    &&& types[i] & kind.wants() == kind.wants()
}

/// Usable, and without the other side's property.
pub open spec fn preferred(types: Seq<u32>, bits: u32, kind: Kind, i: int) -> bool {
    usable(types, bits, kind, i) && types[i] & kind.avoids() == 0
}

/// The memory type for `kind`, given each type's properties: the first preferred one, or the first
/// usable one. Preferring keeps staging out of the small device-local host-visible heap, and
/// device buffers out of host memory.
pub fn memory_type(types: &[u32], bits: u32, kind: Kind) -> (r: Option<u32>)
    requires
        types@.len() <= 32,
    ensures
        match r {
            Some(i) => {
                ||| preferred(types@, bits, kind, i as int) && forall|j: int| 0 <= j < i ==> !#[trigger] preferred(types@, bits, kind, j)
                ||| {
                    &&& usable(types@, bits, kind, i as int)
                    &&& forall|j: int| 0 <= j < i ==> !#[trigger] usable(types@, bits, kind, j)
                    &&& forall|j: int| !#[trigger] preferred(types@, bits, kind, j)
                }
            },
            None => forall|j: int| !#[trigger] usable(types@, bits, kind, j),
        },
{
    let want: u32 = match kind {
        Kind::Device => device_local(),
        Kind::Host => host_visible() | host_coherent(),
    };
    let avoid: u32 = match kind {
        Kind::Device => host_visible(),
        Kind::Host => device_local(),
    };
    let n: usize = types.len();
    let mut i: usize = 0;
    while i < n
        invariant
            i <= n,
            n == types@.len() <= 32,
            want == kind.wants(),
            avoid == kind.avoids(),
            forall|j: int| 0 <= j < i ==> !#[trigger] preferred(types@, bits, kind, j),
        decreases n - i,
    {
        if bits & (1u32 << (i as u32)) != 0 && memory_contains(types[i], want) && !memory_intersects(types[i], avoid) {
            assert(preferred(types@, bits, kind, i as int));
            return Some(i as u32);
        }
        assert(!preferred(types@, bits, kind, i as int));
        i += 1;
    }
    let mut i: usize = 0;
    while i < n
        invariant
            i <= n,
            n == types@.len() <= 32,
            want == kind.wants(),
            forall|j: int| !#[trigger] preferred(types@, bits, kind, j),
            forall|j: int| 0 <= j < i ==> !#[trigger] usable(types@, bits, kind, j),
        decreases n - i,
    {
        if bits & (1u32 << (i as u32)) != 0 && memory_contains(types[i], want) {
            assert(usable(types@, bits, kind, i as int));
            return Some(i as u32);
        }
        assert(!usable(types@, bits, kind, i as int));
        i += 1;
    }
    None
}

/// A free list: where each free range starts, and its length.
pub type FreeList = SortedMap<u64, u64>;

/// The alignment asked for; none counts as one.
pub open spec fn grid(align: u64) -> int {
    if align > 0 {
        align as int
    } else {
        1
    }
}

/// The free range at `s` holds an aligned range of `size`.
pub open spec fn fits(m: Map<u64, u64>, s: u64, size: u64, align: u64) -> bool {
    m.dom().contains(s) && round_up(s as int, grid(align)) + size <= s + m[s]
}

/// The first free range that fits.
pub open spec fn first_fit(m: Map<u64, u64>, s: u64, size: u64, align: u64) -> bool {
    fits(m, s, size, align) && forall|t: u64| t < s ==> !#[trigger] fits(m, t, size, align)
}

/// `m` after `size` bytes at `at` were taken out of the range at `s`.
pub open spec fn carved(m: Map<u64, u64>, s: u64, at: u64, size: u64) -> Map<u64, u64> {
    let rest = m.remove(s);
    let low = if at > s {
        rest.insert(s, (at - s) as u64)
    } else {
        rest
    };
    if at + size < s + m[s] {
        low.insert((at + size) as u64, (s + m[s] - (at + size)) as u64)
    } else {
        low
    }
}

/// The numbers first-fit forms stay in range.
pub open spec fn measurable(m: Map<u64, u64>, size: u64, align: u64) -> bool {
    forall|s: u64| #[trigger]
        m.dom().contains(s) ==> s + m[s] <= u64::MAX && round_up(s as int, grid(align)) + size <= u64::MAX
}

/// First-fit: takes an aligned range of `size` from the free list.
pub fn take_first_fit(free: &mut FreeList, size: u64, align: u64) -> (r: Option<u64>)
    requires
        old(free).wf(),
        measurable(old(free)@, size, align),
    ensures
        final(free).wf(),
        match r {
            Some(at) => exists|s: u64| #[trigger]
                first_fit(old(free)@, s, size, align) && at == round_up(s as int, grid(align)) && final(free)@ == carved(
                    old(free)@,
                    s,
                    at,
                    size,
                ),
            None => *final(free) == *old(free) && forall|s: u64| !#[trigger] fits(old(free)@, s, size, align),
        },
{
    let ghost m = free@;
    let a: u64 = if align > 0 {
        align
    } else {
        1
    };
    proof {
        free.lemma_order();
    }
    let n: usize = free.len();
    let mut i: usize = 0;
    while i < n
        invariant
            i <= n,
            n == free.keys().len(),
            *free == *old(free),
            free.wf(),
            m == free@,
            a == grid(align),
            measurable(m, size, align),
            forall|j: int| 0 <= j < i ==> !#[trigger] fits(m, free.keys()[j], size, align),
        decreases n - i,
    {
        proof {
            free.lemma_order();
        }
        let start: u64 = free.key_at(i);
        let len: u64 = *free.val_at(i);
        assert(m.dom().contains(start) && m[start] == len);
        proof {
            lemma_round_up(start as int, a as int);
        }
        let at: u64 = next_multiple(start, a);
        if at + size <= start + len {
            assert(fits(m, start, size, align));
            assert forall|t: u64| t < start implies !#[trigger] fits(m, t, size, align) by {
                if m.dom().contains(t) {
                    assert(free.keys().contains(t));
                    let j = choose|j: int| 0 <= j < free.keys().len() && free.keys()[j] == t;
                    if j >= i {
                        if j > i {
                            assert(Key::lt(free.keys()[i as int], free.keys()[j]));
                        }
                    }
                    assert(!fits(m, free.keys()[j], size, align));
                }
            }
            assert(first_fit(m, start, size, align));
            free.remove(&start);
            if at > start {
                free.insert(start, at - start);
            }
            if at + size < start + len {
                free.insert(at + size, start + len - (at + size));
            }
            return Some(at);
        }
        assert(!fits(m, free.keys()[i as int], size, align));
        i += 1;
    }
    proof {
        free.lemma_order();
        assert forall|s: u64| !#[trigger] fits(m, s, size, align) by {
            if m.dom().contains(s) {
                assert(free.keys().contains(s));
            }
        }
    }
    None
}

/// The free range that ends nearest below `offset`, by where it starts.
pub open spec fn below(m: Map<u64, u64>, offset: u64, p: u64) -> bool {
    &&& m.dom().contains(p) && p < offset
    &&& forall|q: u64| #[trigger] m.dom().contains(q) && q < offset ==> q <= p
}

/// A free range ends where `offset` begins.
pub open spec fn meets_below(m: Map<u64, u64>, offset: u64, p: u64) -> bool {
    below(m, offset, p) && p + m[p] == offset
}

/// Where a range given back at `offset` starts once merged.
pub open spec fn low_end(m: Map<u64, u64>, offset: u64) -> u64 {
    if exists|p: u64| meets_below(m, offset, p) {
        choose|p: u64| meets_below(m, offset, p)
    } else {
        offset
    }
}

/// Where it ends once merged.
pub open spec fn high_end(m: Map<u64, u64>, end: u64) -> int {
    if m.dom().contains(end) {
        end + m[end]
    } else {
        end as int
    }
}

/// `m` after the range was given back, merged with its neighbours.
pub open spec fn returned(m: Map<u64, u64>, offset: u64, size: u64) -> Map<u64, u64> {
    let end = (offset + size) as u64;
    let low = low_end(m, offset);
    m.remove(low).remove(end).insert(low, (high_end(m, end) - low) as u64)
}

/// The range may be given back: it does not overlap the free range below it, and the numbers stay
/// in range.
pub open spec fn returnable(m: Map<u64, u64>, offset: u64, size: u64) -> bool {
    &&& offset + size <= u64::MAX
    &&& size > 0
    &&& !m.dom().contains(offset)
    &&& forall|p: u64| #[trigger] below(m, offset, p) ==> p + m[p] <= offset
    &&& high_end(m, (offset + size) as u64) <= u64::MAX
}

/// Returns a range to the free list, merging with its neighbours.
pub fn give_back(free: &mut FreeList, offset: u64, size: u64)
    requires
        old(free).wf(),
        returnable(old(free)@, offset, size),
    ensures
        final(free).wf(),
        final(free)@ == returned(old(free)@, offset, size),
{
    let ghost m = free@;
    let mut low: u64 = offset;
    let mut len: u64 = size;
    proof {
        free.lemma_order();
    }
    let k: usize = free.rank(&offset);
    if k > 0 {
        let p: u64 = free.key_at(k - 1);
        let l: u64 = *free.val_at(k - 1);
        proof {
            assert(m.dom().contains(p) && m[p] == l);
            assert(Key::lt(free.keys()[k - 1], offset));
            assert forall|q: u64| #[trigger] m.dom().contains(q) && q < offset implies q <= p by {
                assert(free.keys().contains(q));
                let j = choose|j: int| 0 <= j < free.keys().len() && free.keys()[j] == q;
                if j >= k {
                    assert(!Key::lt(free.keys()[j], offset));
                }
                if j < k - 1 {
                    assert(Key::lt(free.keys()[j], free.keys()[k - 1]));
                }
            }
            assert(below(m, offset, p));
        }
        if p + l == offset {
            assert(meets_below(m, offset, p));
            let ghost chosen = choose|q: u64| meets_below(m, offset, q);
            assert(chosen == p);
            free.remove(&p);
            low = p;
            len = len + l;
        } else {
            assert forall|q: u64| !#[trigger] meets_below(m, offset, q) by {
                if below(m, offset, q) {
                    assert(q == p);
                }
            }
        }
    } else {
        assert forall|q: u64| !#[trigger] meets_below(m, offset, q) by {
            if m.dom().contains(q) {
                assert(free.keys().contains(q));
                let j = choose|j: int| 0 <= j < free.keys().len() && free.keys()[j] == q;
                assert(!Key::lt(free.keys()[j], offset));
            }
        }
    }
    assert(low == low_end(m, offset));
    assert(low + len == offset + size);
    let end: u64 = low + len;
    assert(low < end);
    assert(free@ =~= m.remove(low));
    let up = match free.get(&end) {
        Some(l) => Some(*l),
        None => None,
    };
    if let Some(l) = up {
        free.remove(&end);
        len = len + l;
    }
    assert(free@ =~= m.remove(low).remove(end));
    free.insert(low, len);
}

/// Ranges have bytes, stay in range, do not overlap, and never lie side by side.
pub open spec fn tidy(m: Map<u64, u64>) -> bool {
    &&& forall|s: u64| #[trigger] m.dom().contains(s) ==> m[s] > 0 && s + m[s] <= u64::MAX
    &&& forall|s: u64, t: u64| #[trigger] m.dom().contains(s) && #[trigger] m.dom().contains(t) && s < t ==> s + m[s] < t
}

/// Byte `x` lies in the free range at `s`.
pub open spec fn holds_byte(m: Map<u64, u64>, s: u64, x: int) -> bool {
    m.dom().contains(s) && s <= x < s + m[s]
}

pub open spec fn free_bytes(m: Map<u64, u64>) -> Set<int> {
    Set::new(|x: int| exists|s: u64| holds_byte(m, s, x))
}

/// The bytes of a range.
pub open spec fn range_bytes(offset: u64, size: u64) -> Set<int> {
    set_int_range(offset as int, offset + size)
}

/// A tidy free list is determined by its bytes: there is one way to write them down.
pub proof fn law_free_list_is_its_bytes(a: Map<u64, u64>, b: Map<u64, u64>)
    requires
        tidy(a),
        tidy(b),
        free_bytes(a) == free_bytes(b),
    ensures
        a == b,
{
    assert forall|s: u64| #[trigger] a.dom().contains(s) implies b.dom().contains(s) && a[s] == b[s] by {
        lemma_same_range(a, b, s);
    }
    assert forall|s: u64| #[trigger] b.dom().contains(s) implies a.dom().contains(s) by {
        lemma_same_range(b, a, s);
    }
    assert(a =~= b);
}

proof fn lemma_same_range(a: Map<u64, u64>, b: Map<u64, u64>, s: u64)
    requires
        tidy(a),
        tidy(b),
        free_bytes(a) == free_bytes(b),
        a.dom().contains(s),
    ensures
        b.dom().contains(s) && a[s] == b[s],
{
    lemma_starts_agree(a, b, s);
    lemma_no_longer(a, b, s);
    lemma_no_longer(b, a, s);
}

proof fn lemma_starts_agree(a: Map<u64, u64>, b: Map<u64, u64>, s: u64)
    requires
        tidy(a),
        tidy(b),
        free_bytes(a) == free_bytes(b),
        a.dom().contains(s),
    ensures
        b.dom().contains(s),
{
    assert(holds_byte(a, s, s as int));
    assert(free_bytes(a).contains(s as int));
    assert(free_bytes(b).contains(s as int));
    let t = choose|t: u64| holds_byte(b, t, s as int);
    if t < s {
        let x = s - 1;
        assert(holds_byte(b, t, x));
        assert(free_bytes(b).contains(x));
        assert(free_bytes(a).contains(x));
        let u = choose|u: u64| holds_byte(a, u, x);
        assert(a.dom().contains(u) && u < s);
    }
}

proof fn lemma_no_longer(a: Map<u64, u64>, b: Map<u64, u64>, s: u64)
    requires
        tidy(a),
        tidy(b),
        free_bytes(a) == free_bytes(b),
        a.dom().contains(s),
        b.dom().contains(s),
    ensures
        a[s] >= b[s],
{
    if a[s] < b[s] {
        let x = s + a[s];
        assert(holds_byte(b, s, x));
        assert(free_bytes(b).contains(x));
        assert(free_bytes(a).contains(x));
        let v = choose|v: u64| holds_byte(a, v, x);
        assert(a.dom().contains(v));
        if v < s {
            assert(v + a[v] < s);
        } else if v > s {
            assert(s + a[s] < v);
        }
    }
}

/// Taking hands out aligned free bytes, leaves every other free byte free, and keeps the list
/// tidy.
pub proof fn law_taking_takes_free_bytes(m: Map<u64, u64>, s: u64, size: u64, align: u64)
    requires
        tidy(m),
        size > 0,
        fits(m, s, size, align),
    ensures
        ({
            let at = round_up(s as int, grid(align));
            &&& s <= at <= u64::MAX
            &&& at % grid(align) == 0
            &&& tidy(carved(m, s, at as u64, size))
            &&& range_bytes(at as u64, size).subset_of(free_bytes(m))
            &&& free_bytes(carved(m, s, at as u64, size)) == free_bytes(m).difference(range_bytes(at as u64, size))
        }),
{
    lemma_round_up(s as int, grid(align));
    let at = round_up(s as int, grid(align)) as u64;
    let n = carved(m, s, at, size);
    let end = (at + size) as u64;
    assert forall|t: u64| #[trigger] n.dom().contains(t) implies n[t] > 0 && t + n[t] <= u64::MAX && ((t == s && at > s && n[t] == at - s) || (
    t == end && end < s + m[s] && n[t] == s + m[s] - end) || (t != s && m.dom().contains(t) && n[t] == m[t] && t != end)) by {
        if t == end && end < s + m[s] {
            assert(n[t] == s + m[s] - end);
        } else if m.dom().contains(t) && t != s {
            if t == end {
                assert(s + m[s] < t);
            }
        }
    }
    assert forall|t: u64, u: u64| #[trigger] n.dom().contains(t) && #[trigger] n.dom().contains(u) && t < u implies t + n[t] < u by {
        if m.dom().contains(t) && t != s && m.dom().contains(u) && u != s && t != end && u != end {
        } else if t != s && t != end && m.dom().contains(t) {
            if t < s {
                assert(t + m[t] < s);
            } else {
                assert(s + m[s] < t);
            }
        } else if u != s && u != end && m.dom().contains(u) {
            if u < s {
                assert(u + m[u] < s);
            } else {
                assert(s + m[s] < u);
            }
        }
    }
    assert forall|x: int| range_bytes(at, size).contains(x) implies free_bytes(m).contains(x) by {
        assert(holds_byte(m, s, x));
    }
    assert forall|x: int| free_bytes(n).contains(x) == (free_bytes(m).contains(x) && !range_bytes(at, size).contains(x)) by {
        if free_bytes(n).contains(x) {
            let t = choose|t: u64| holds_byte(n, t, x);
            assert(n.dom().contains(t));
            if t == s || t == end {
                assert(holds_byte(m, s, x));
            } else {
                assert(holds_byte(m, t, x));
                if t < s {
                    assert(t + m[t] < s);
                } else {
                    assert(s + m[s] < t);
                }
            }
        }
        if free_bytes(m).contains(x) && !range_bytes(at, size).contains(x) {
            let t = choose|t: u64| holds_byte(m, t, x);
            if t == s {
                if x < at {
                    assert(holds_byte(n, s, x));
                } else {
                    assert(holds_byte(n, end, x));
                }
            } else {
                if t == end {
                    assert(m.dom().contains(t) && m.dom().contains(s));
                    if end < s + m[s] {
                        assert(s + m[s] < t);
                    }
                }
                assert(n.dom().contains(t) && n[t] == m[t]);
                assert(holds_byte(n, t, x));
            }
        }
    }
    assert(free_bytes(n) =~= free_bytes(m).difference(range_bytes(at, size)));
}

/// No byte of the range is free.
pub open spec fn none_free(m: Map<u64, u64>, offset: u64, size: u64) -> bool {
    free_bytes(m).disjoint(range_bytes(offset, size))
}

/// A range in use can be given back; that frees its bytes and no other, and keeps the list tidy.
pub proof fn law_giving_back_frees_the_range(m: Map<u64, u64>, offset: u64, size: u64)
    requires
        tidy(m),
        size > 0,
        offset + size <= u64::MAX,
        none_free(m, offset, size),
    ensures
        returnable(m, offset, size),
        tidy(returned(m, offset, size)),
        free_bytes(returned(m, offset, size)) == free_bytes(m) + range_bytes(offset, size),
{
    let end = (offset + size) as u64;
    // A free range lies wholly below or wholly above.
    assert forall|p: u64| #[trigger] m.dom().contains(p) implies p + m[p] <= offset || end <= p by {
        if !(p + m[p] <= offset || end <= p) {
            let x = if p > offset {
                p as int
            } else {
                offset as int
            };
            assert(holds_byte(m, p, x));
            assert(free_bytes(m).contains(x));
            assert(range_bytes(offset, size).contains(x));
        }
    }
    assert(returnable(m, offset, size));
    let low = low_end(m, offset);
    let high = high_end(m, end);
    let n = returned(m, offset, size);
    let joined = exists|p: u64| meets_below(m, offset, p);
    if joined {
        assert(meets_below(m, offset, low));
    }
    assert forall|p: u64| #[trigger] m.dom().contains(p) && p < offset && p != low implies p + m[p] < low by {
        if joined {
            assert(p <= low);
        } else if p + m[p] == offset {
            assert forall|q: u64| #[trigger] m.dom().contains(q) && q < offset implies q <= p by {
                if q > p {
                    assert(p + m[p] < q);
                }
            }
            assert(meets_below(m, offset, p));
        }
    }
    assert forall|p: u64| #[trigger] m.dom().contains(p) && p >= end && p != end implies high < p by {
        if m.dom().contains(end) {
            assert(end + m[end] < p);
        }
    }
    assert forall|p: u64| #[trigger] n.dom().contains(p) implies n[p] > 0 && p + n[p] <= u64::MAX by {
    }
    assert forall|p: u64, q: u64| #[trigger] n.dom().contains(p) && #[trigger] n.dom().contains(q) && p < q implies p + n[p] < q by {
        if p != low && q != low {
        } else if p == low {
            assert(m.dom().contains(q));
        } else {
            assert(m.dom().contains(p));
        }
    }
    assert forall|x: int| free_bytes(n).contains(x) == (free_bytes(m).contains(x) || range_bytes(offset, size).contains(x)) by {
        if free_bytes(n).contains(x) {
            let t = choose|t: u64| holds_byte(n, t, x);
            if t == low {
                if x < offset {
                    assert(holds_byte(m, low, x));
                } else if x >= end {
                    assert(holds_byte(m, end, x));
                }
            } else {
                assert(holds_byte(m, t, x));
            }
        }
        if free_bytes(m).contains(x) {
            let t = choose|t: u64| holds_byte(m, t, x);
            if t == low || t == end {
                assert(holds_byte(n, low, x));
            } else {
                assert(holds_byte(n, t, x));
            }
        }
        if range_bytes(offset, size).contains(x) {
            assert(holds_byte(n, low, x));
        }
    }
    assert(free_bytes(n) =~= free_bytes(m) + range_bytes(offset, size));
}

/// Giving back what was just taken restores the free list.
pub proof fn law_giving_back_undoes_taking(m: Map<u64, u64>, s: u64, size: u64, align: u64)
    requires
        tidy(m),
        size > 0,
        fits(m, s, size, align),
    ensures
        ({
            let at = round_up(s as int, grid(align)) as u64;
            returned(carved(m, s, at, size), at, size) == m
        }),
{
    law_taking_takes_free_bytes(m, s, size, align);
    lemma_round_up(s as int, grid(align));
    let at = round_up(s as int, grid(align)) as u64;
    let n = carved(m, s, at, size);
    assert(none_free(n, at, size));
    law_giving_back_frees_the_range(n, at, size);
    assert(free_bytes(returned(n, at, size)) =~= free_bytes(m));
    law_free_list_is_its_bytes(returned(n, at, size), m);
}

/// What a block of memory is for. Only requests of its class are placed in it.
#[derive(Clone, Copy, Debug, PartialEq, Eq, Structural)]
pub struct Class {
    /// The caller's accounting category.
    pub category: u32,
    pub memory_type: u32,
    pub images: bool,
}

struct Block {
    class: Class,
    size: u64,
    free: FreeList,
    used: u64,
}

/// A block: its class, its size, its free ranges, and how many of its bytes are in use.
pub struct BlockView {
    pub class: Class,
    pub size: u64,
    pub free: Map<u64, u64>,
    pub used: u64,
}

impl BlockView {
    /// The free list is tidy and within the block, and every byte is free or in use.
    pub open spec fn wf(self) -> bool {
        &&& self.size > 0
        &&& tidy(self.free)
        &&& free_bytes(self.free).subset_of(set_int_range(0, self.size as int))
        &&& free_bytes(self.free).len() + self.used == self.size
    }

    /// A range of the block that is in use.
    pub open spec fn taken(self, offset: u64, size: u64) -> bool {
        size > 0 && offset + size <= self.size && none_free(self.free, offset, size)
    }

    /// After a first fit at `s`.
    pub open spec fn after_taking(self, s: u64, at: u64, size: u64) -> BlockView {
        BlockView { free: carved(self.free, s, at, size), used: (self.used + size) as u64, ..self }
    }

    pub open spec fn after_giving_back(self, offset: u64, size: u64) -> BlockView {
        BlockView { free: returned(self.free, offset, size), used: (self.used - size) as u64, ..self }
    }

    /// The block has room for the request.
    pub open spec fn has_room(self, class: Class, size: u64, align: u64) -> bool {
        self.class == class && exists|s: u64| fits(self.free, s, size, align)
    }
}

pub open spec fn fresh_block(class: Class, block_size: u64, size: u64) -> BlockView {
    BlockView { class, size: block_size, free: carved(map![0u64 => block_size], 0, 0, size), used: size }
}

/// Taking keeps a block whole.
proof fn lemma_taking(v: BlockView, s: u64, size: u64, align: u64)
    requires
        v.wf(),
        size > 0,
        fits(v.free, s, size, align),
    ensures
        v.used + size <= v.size,
        v.after_taking(s, round_up(s as int, grid(align)) as u64, size).wf(),
        v.after_taking(s, round_up(s as int, grid(align)) as u64, size).taken(round_up(s as int, grid(align)) as u64, size),
{
    law_taking_takes_free_bytes(v.free, s, size, align);
    lemma_round_up(s as int, grid(align));
    let at = round_up(s as int, grid(align)) as u64;
    let n = carved(v.free, s, at, size);
    let taken = range_bytes(at, size);
    lemma_int_range(0, v.size as int);
    lemma_int_range(at as int, at + size);
    lemma_len_subset(free_bytes(v.free), set_int_range(0, v.size as int));
    lemma_len_subset(free_bytes(n), set_int_range(0, v.size as int));
    lemma_set_disjoint_lens(free_bytes(n), taken);
    assert(free_bytes(n) + taken =~= free_bytes(v.free));
    assert(holds_byte(v.free, s, at + size - 1));
    assert(free_bytes(v.free).contains(at + size - 1));
}

/// Giving back a range in use keeps a block whole.
proof fn lemma_giving_back(v: BlockView, offset: u64, size: u64)
    requires
        v.wf(),
        v.taken(offset, size),
    ensures
        size <= v.used,
        returnable(v.free, offset, size),
        v.after_giving_back(offset, size).wf(),
{
    law_giving_back_frees_the_range(v.free, offset, size);
    let n = returned(v.free, offset, size);
    let given = range_bytes(offset, size);
    lemma_int_range(0, v.size as int);
    lemma_int_range(offset as int, offset + size);
    lemma_len_subset(free_bytes(v.free), set_int_range(0, v.size as int));
    lemma_set_disjoint_lens(free_bytes(v.free), given);
    assert(free_bytes(n).subset_of(set_int_range(0, v.size as int)));
    lemma_len_subset(free_bytes(n), set_int_range(0, v.size as int));
}

/// A block with nothing in use is one free range.
pub proof fn law_empty_block_is_one_range(v: BlockView)
    requires
        v.wf(),
        v.used == 0,
    ensures
        v.free == map![0u64 => v.size],
{
    let whole = map![0u64 => v.size];
    let all = set_int_range(0, v.size as int);
    lemma_int_range(0, v.size as int);
    lemma_len_subset(free_bytes(v.free), all);
    lemma_subset_equality(free_bytes(v.free), all);
    lemma_whole_bytes(v.size);
    law_free_list_is_its_bytes(v.free, whole);
}

proof fn lemma_whole_bytes(size: u64)
    requires
        size > 0,
    ensures
        tidy(map![0u64 => size]),
        free_bytes(map![0u64 => size]) == set_int_range(0, size as int),
{
    let whole = map![0u64 => size];
    assert forall|x: int| free_bytes(whole).contains(x) == set_int_range(0, size as int).contains(x) by {
        if 0 <= x < size {
            assert(holds_byte(whole, 0, x));
        }
    }
    assert(free_bytes(whole) =~= set_int_range(0, size as int));
}

/// Ranges in use never overlap: a range handed out is apart from every range in use, and each of
/// those stays in use until it is given back itself.
pub proof fn law_ranges_in_use_stay_apart(v: BlockView, offset: u64, size: u64, s: u64, want: u64, align: u64)
    requires
        v.wf(),
        v.taken(offset, size),
        want > 0,
        fits(v.free, s, want, align),
    ensures
        ({
            let at = round_up(s as int, grid(align)) as u64;
            let after = v.after_taking(s, at, want);
            &&& range_bytes(offset, size).disjoint(range_bytes(at, want))
            &&& after.taken(offset, size)
            &&& after.taken(at, want)
            &&& after.after_giving_back(at, want).taken(offset, size)
            &&& after.after_giving_back(offset, size).taken(at, want)
        }),
{
    law_taking_takes_free_bytes(v.free, s, want, align);
    lemma_taking(v, s, want, align);
    let at = round_up(s as int, grid(align)) as u64;
    let after = v.after_taking(s, at, want);
    assert(range_bytes(offset, size).disjoint(range_bytes(at, want)));
    law_giving_back_frees_the_range(after.free, at, want);
    law_giving_back_frees_the_range(after.free, offset, size);
}

impl Block {
    spec fn view(&self) -> BlockView {
        BlockView { class: self.class, size: self.size, free: self.free@, used: self.used }
    }

    spec fn wf(&self) -> bool {
        self.free.wf() && self@.wf()
    }
}

#[derive(Clone, Copy, Debug, PartialEq, Eq, Structural)]
pub struct AllocStats {
    pub blocks_live: usize,
    pub vk_allocations: u64,
    pub vk_frees: u64,
    pub buffers_live: u64,
    pub images_live: u64,
}

impl AllocStats {
    pub open spec fn zero() -> AllocStats {
        AllocStats { blocks_live: 0, vk_allocations: 0, vk_frees: 0, buffers_live: 0, images_live: 0 }
    }
}

impl Default for AllocStats {
    fn default() -> (r: AllocStats)
        ensures
            r == AllocStats::zero(),
    {
        AllocStats { blocks_live: 0, vk_allocations: 0, vk_frees: 0, buffers_live: 0, images_live: 0 }
    }
}

/// How many slots are filled.
pub open spec fn filled<T>(s: Seq<Option<T>>) -> nat
    decreases s.len(),
{
    if s.len() == 0 {
        0
    } else {
        filled(s.drop_last()) + if s.last() is Some {
            1nat
        } else {
            0nat
        }
    }
}

proof fn lemma_filled_update<T>(s: Seq<Option<T>>, i: int, x: Option<T>)
    requires
        0 <= i < s.len(),
    ensures
        filled(s.update(i, x)) + (if s[i] is Some {
            1nat
        } else {
            0nat
        }) == filled(s) + (if x is Some {
            1nat
        } else {
            0nat
        }),
        filled(s) <= s.len(),
        s[i] is Some ==> filled(s) >= 1,
    decreases s.len(),
{
    if i == s.len() - 1 {
        assert(s.update(i, x).drop_last() =~= s.drop_last());
        if s.len() > 1 {
            lemma_filled_update(s.drop_last(), 0, s.drop_last()[0]);
        } else {
            assert(filled(s.drop_last()) == 0);
        }
    } else {
        assert(s.update(i, x).drop_last() =~= s.drop_last().update(i, x));
        lemma_filled_update(s.drop_last(), i, x);
    }
}

/// The blocks of device memory and what is placed in them.
pub struct Allocator {
    blocks: Vec<Option<Block>>,
    block_bytes: u64,
    stats: AllocStats,
}

impl Allocator {
    /// The block of each slot.
    pub closed spec fn blocks(&self) -> Seq<Option<BlockView>> {
        Seq::new(
            self.blocks@.len(),
            |i: int|
                match self.blocks@[i] {
                    Some(b) => Some(b@),
                    None => None,
                },
        )
    }

    pub closed spec fn spec_block_bytes(&self) -> u64 {
        self.block_bytes
    }

    pub closed spec fn spec_stats(&self) -> AllocStats {
        self.stats
    }

    /// Every block is whole, and every block ever asked for is held or was freed.
    pub closed spec fn wf(&self) -> bool {
        &&& forall|i: int| 0 <= i < self.blocks@.len() ==> match #[trigger] self.blocks@[i] {
            Some(b) => b.wf(),
            None => true,
        }
        &&& self.stats.blocks_live == filled(self.blocks())
        &&& self.stats.vk_allocations == self.stats.vk_frees + self.stats.blocks_live
    }

    /// What holds of every allocator: its blocks are whole, and the driver's allocations are those
    /// held or freed.
    pub proof fn law_blocks_are_whole(&self)
        requires
            self.wf(),
        ensures
            forall|i: int|
                0 <= i < self.blocks().len() ==> match #[trigger] self.blocks()[i] {
                    Some(v) => v.wf(),
                    None => true,
                },
            self.spec_stats().blocks_live == filled(self.blocks()),
            self.spec_stats().vk_allocations == self.spec_stats().vk_frees + self.spec_stats().blocks_live,
    {
        assert forall|i: int| 0 <= i < self.blocks().len() implies match #[trigger] self.blocks()[i] {
            Some(v) => v.wf(),
            None => true,
        } by {
            assert(self.blocks@[i] is Some ==> self.blocks@[i].unwrap().wf());
        }
    }

    /// The blocks' numbers and the request's stay in range together.
    pub open spec fn measures(&self, size: u64, align: u64) -> bool {
        forall|i: int|
            0 <= i < self.blocks().len() ==> match #[trigger] self.blocks()[i] {
                Some(v) => v.size + size + grid(align) <= u64::MAX,
                None => true,
            }
    }

    /// Slot `i` holds a block with room for the request.
    pub open spec fn offers(&self, i: int, class: Class, size: u64, align: u64) -> bool {
        0 <= i < self.blocks().len() && match self.blocks()[i] {
            Some(v) => v.has_room(class, size, align),
            None => false,
        }
    }

    pub fn new() -> (r: Allocator)
        ensures
            r.wf(),
            r.blocks() == Seq::<Option<BlockView>>::empty(),
            r.spec_block_bytes() == DEFAULT_BLOCK_BYTES,
            r.spec_stats() == AllocStats::zero(),
    {
        Allocator::with_block_bytes(DEFAULT_BLOCK_BYTES)
    }

    pub fn with_block_bytes(block_bytes: u64) -> (r: Allocator)
        ensures
            r.wf(),
            r.blocks() == Seq::<Option<BlockView>>::empty(),
            r.spec_block_bytes() == block_bytes,
            r.spec_stats() == AllocStats::zero(),
    {
        let stats = AllocStats { blocks_live: 0, vk_allocations: 0, vk_frees: 0, buffers_live: 0, images_live: 0 };
        let r = Allocator { blocks: Vec::new(), block_bytes, stats };
        assert(r.blocks() =~= Seq::<Option<BlockView>>::empty());
        r
    }

    pub fn stats(&self) -> (r: AllocStats)
        ensures
            r == self.spec_stats(),
    {
        self.stats
    }

    /// Bytes in use in a block.
    pub fn used(&self, block: usize) -> (r: Option<u64>)
        ensures
            r == if block < self.blocks().len() && self.blocks()[block as int] is Some {
                Some(self.blocks()[block as int].unwrap().used)
            } else {
                None::<u64>
            },
    {
        if block < self.blocks.len() {
            match &self.blocks[block] {
                Some(b) => Some(b.used),
                None => None,
            }
        } else {
            None
        }
    }

    /// The request can be measured against every block.
    pub fn can_measure(&self, size: u64, align: u64) -> (r: bool)
        ensures
            r == self.measures(size, align),
    {
        let a: u64 = if align > 0 {
            align
        } else {
            1
        };
        let mut i: usize = 0;
        while i < self.blocks.len()
            invariant
                i <= self.blocks@.len(),
                a == grid(align),
                forall|j: int|
                    0 <= j < i ==> match #[trigger] self.blocks()[j] {
                        Some(v) => v.size + size + grid(align) <= u64::MAX,
                        None => true,
                    },
            decreases self.blocks@.len() - i,
        {
            if let Some(b) = &self.blocks[i] {
                assert(self.blocks()[i as int] == Some(b@));
                if size > u64::MAX - b.size || a > u64::MAX - b.size - size {
                    return false;
                }
            } else {
                assert(self.blocks()[i as int] is None);
            }
            i += 1;
        }
        true
    }

    /// Places a request in the first block of its class that has room: the block and the offset.
    pub fn fit(&mut self, class: Class, size: u64, align: u64) -> (r: Option<(usize, u64)>)
        requires
            old(self).wf(),
            size > 0,
            old(self).measures(size, align),
        ensures
            final(self).wf(),
            final(self).spec_stats() == old(self).spec_stats(),
            final(self).spec_block_bytes() == old(self).spec_block_bytes(),
            match r {
                Some((i, at)) => {
                    &&& old(self).offers(i as int, class, size, align)
                    &&& forall|j: int| 0 <= j < i ==> !#[trigger] old(self).offers(j, class, size, align)
                    &&& exists|s: u64| #[trigger]
                        first_fit(old(self).blocks()[i as int].unwrap().free, s, size, align) && at == round_up(s as int, grid(align))
                            && final(self).blocks() == old(self).blocks().update(
                            i as int,
                            Some(old(self).blocks()[i as int].unwrap().after_taking(s, at, size)),
                        )
                },
                None => final(self).blocks() == old(self).blocks() && forall|j: int| !#[trigger] old(self).offers(j, class, size, align),
            },
    {
        let ghost start = *self;
        let n: usize = self.blocks.len();
        let mut i: usize = 0;
        while i < n
            invariant
                i <= n,
                n == self.blocks().len(),
                start == *old(self),
                self.blocks() == start.blocks(),
                self.stats == start.stats,
                self.block_bytes == start.block_bytes,
                self.wf(),
                size > 0,
                self.measures(size, align),
                forall|j: int| 0 <= j < i ==> !#[trigger] start.offers(j, class, size, align),
            decreases n - i,
        {
            let right = match &self.blocks[i] {
                Some(b) => b.class == class,
                None => false,
            };
            assert(start.blocks()[i as int] == match self.blocks@[i as int] {
                Some(b) => Some(b@),
                None => None,
            });
            if right {
                let ghost v = self.blocks@[i as int].unwrap()@;
                assert(self.blocks()[i as int] == Some(v));
                assert(self.blocks@[i as int].unwrap().wf());
                let taken = self.take_from(i, size, align);
                if let Some(at) = taken {
                    let ghost s = choose|s: u64| #[trigger]
                        first_fit(v.free, s, size, align) && at == round_up(s as int, grid(align)) && self.blocks() == start.blocks().update(
                            i as int,
                            Some(v.after_taking(s, at, size)),
                        );
                    assert(fits(v.free, s, size, align));
                    assert(start.offers(i as int, class, size, align));
                    return Some((i, at));
                }
                assert(!start.offers(i as int, class, size, align));
            }
            i += 1;
        }
        None
    }

    /// First-fit in one block.
    fn take_from(&mut self, i: usize, size: u64, align: u64) -> (r: Option<u64>)
        requires
            old(self).wf(),
            size > 0,
            old(self).measures(size, align),
            i < old(self).blocks().len(),
            old(self).blocks()[i as int] is Some,
        ensures
            final(self).wf(),
            final(self).spec_stats() == old(self).spec_stats(),
            final(self).spec_block_bytes() == old(self).spec_block_bytes(),
            ({
                let v = old(self).blocks()[i as int].unwrap();
                match r {
                    Some(at) => exists|s: u64| #[trigger]
                        first_fit(v.free, s, size, align) && at == round_up(s as int, grid(align)) && final(self).blocks() == old(
                            self,
                        ).blocks().update(i as int, Some(v.after_taking(s, at, size))),
                    None => final(self).blocks() == old(self).blocks() && forall|s: u64| !#[trigger] fits(v.free, s, size, align),
                }
            }),
    {
        let ghost before = *self;
        let ghost v = self.blocks()[i as int].unwrap();
        assert(self.blocks@[i as int] is Some);
        assert(self.blocks@[i as int].unwrap().wf());
        assert(self.blocks()[i as int] == Some(v));
        proof {
            assert(v.wf());
            assert forall|s: u64| #[trigger] v.free.dom().contains(s) implies s + v.free[s] <= u64::MAX && round_up(s as int, grid(align)) + size
                <= u64::MAX by {
                lemma_round_up(s as int, grid(align));
                assert(holds_byte(v.free, s, s as int));
                assert(free_bytes(v.free).contains(s as int));
            }
        }
        let mut slot: Option<Block> = None;
        std::mem::swap(&mut self.blocks[i], &mut slot);
        let mut b = match slot {
            Some(b) => b,
            None => {
                return None;
            },
        };
        let taken = take_first_fit(&mut b.free, size, align);
        match taken {
            Some(at) => {
                let ghost s = choose|s: u64| #[trigger]
                    first_fit(v.free, s, size, align) && at == round_up(s as int, grid(align)) && b.free@ == carved(v.free, s, at, size);
                proof {
                    lemma_taking(v, s, size, align);
                }
                b.used = b.used + size;
                assert(b@ == v.after_taking(s, at, size));
                self.blocks.set(i, Some(b));
                proof {
                    assert(self.blocks() =~= before.blocks().update(i as int, Some(v.after_taking(s, at, size))));
                    lemma_filled_update(before.blocks(), i as int, Some(v.after_taking(s, at, size)));
                }
            },
            None => {
                self.blocks.set(i, Some(b));
                assert(self.blocks() =~= before.blocks());
            },
        }
        taken
    }

    /// How large a new block for the request is: the block size, or a multiple of the grain where
    /// the request is larger.
    pub fn new_block_bytes(&self, size: u64) -> (r: u64)
        requires
            round_up(size as int, BLOCK_GRAIN as int) <= u64::MAX,
        ensures
            r == if self.spec_block_bytes() >= round_up(size as int, BLOCK_GRAIN as int) {
                self.spec_block_bytes() as int
            } else {
                round_up(size as int, BLOCK_GRAIN as int)
            },
            r >= size,
    {
        proof {
            lemma_round_up(size as int, BLOCK_GRAIN as int);
        }
        let own: u64 = next_multiple(size, BLOCK_GRAIN);
        if self.block_bytes >= own {
            self.block_bytes
        } else {
            own
        }
    }

    /// Takes in a new block of memory, in the first empty slot, and places the request at its
    /// start.
    pub fn open(&mut self, class: Class, block_size: u64, size: u64) -> (r: (usize, u64))
        requires
            old(self).wf(),
            0 < size <= block_size,
            old(self).spec_stats().vk_allocations < u64::MAX,
            old(self).blocks().len() < usize::MAX,
        ensures
            final(self).wf(),
            final(self).spec_block_bytes() == old(self).spec_block_bytes(),
            r.1 == 0,
            r.0 <= old(self).blocks().len(),
            forall|j: int| 0 <= j < r.0 ==> #[trigger] old(self).blocks()[j] is Some,
            r.0 < old(self).blocks().len() ==> old(self).blocks()[r.0 as int] is None && final(self).blocks() == old(self).blocks().update(
                r.0 as int,
                Some(fresh_block(class, block_size, size)),
            ),
            r.0 == old(self).blocks().len() ==> final(self).blocks() == old(self).blocks().push(Some(fresh_block(class, block_size, size))),
            final(self).spec_stats() == (AllocStats {
                blocks_live: (old(self).spec_stats().blocks_live + 1) as usize,
                vk_allocations: (old(self).spec_stats().vk_allocations + 1) as u64,
                ..old(self).spec_stats()
            }),
    {
        let ghost before = *self;
        let ghost whole = map![0u64 => block_size];
        let mut free: FreeList = SortedMap::new();
        free.insert(0, block_size);
        proof {
            assert(free@ =~= whole);
            lemma_whole_bytes(block_size);
            lemma_int_range(0, block_size as int);
            let v = BlockView { class, size: block_size, free: whole, used: 0 };
            assert(v.wf());
            lemma_round_up(0, 1);
            assert(fits(whole, 0, size, 1));
            lemma_taking(v, 0, size, 1);
            assert(measurable(whole, size, 1)) by {
                assert forall|s: u64| #[trigger] whole.dom().contains(s) implies s + whole[s] <= u64::MAX && round_up(s as int, grid(1)) + size
                    <= u64::MAX by {
                    assert(s == 0);
                }
            }
        }
        let at = take_first_fit(&mut free, size, 1);
        proof {
            assert(at is Some) by {
                assert(fits(whole, 0, size, 1));
            }
            let s = choose|s: u64| #[trigger]
                first_fit(whole, s, size, 1) && at.unwrap() == round_up(s as int, grid(1)) && free@ == carved(whole, s, at.unwrap(), size);
            assert(s == 0);
        }
        let block = Block { class, size: block_size, free, used: size };
        let ghost v = fresh_block(class, block_size, size);
        assert(block@ == v);
        assert(block.wf());
        let n: usize = self.blocks.len();
        let mut i: usize = 0;
        while i < n && self.blocks[i].is_some()
            invariant
                i <= n,
                n == self.blocks@.len(),
                *self == *old(self),
                forall|j: int| 0 <= j < i ==> #[trigger] self.blocks()[j] is Some,
            decreases n - i,
        {
            assert(self.blocks()[i as int] is Some);
            i += 1;
        }
        proof {
            if i < n {
                assert(before.blocks()[i as int] is None);
                lemma_filled_update(before.blocks(), i as int, Some(v));
                lemma_filled_update(before.blocks().update(i as int, Some(v)), i as int, Some(v));
            } else {
                let pushed = before.blocks().push(Some(v));
                assert(pushed.drop_last() =~= before.blocks());
                lemma_filled_update(pushed, n as int, Some(v));
            }
        }
        if i < n {
            self.blocks.set(i, Some(block));
            assert(self.blocks() =~= before.blocks().update(i as int, Some(v)));
        } else {
            self.blocks.push(Some(block));
            assert(self.blocks() =~= before.blocks().push(Some(v)));
        }
        self.stats.blocks_live = self.stats.blocks_live + 1;
        self.stats.vk_allocations = self.stats.vk_allocations + 1;
        (i, 0)
    }

    /// Counts a block that the driver gave and took back because it could not be mapped.
    pub fn not_mapped(&mut self)
        requires
            old(self).wf(),
            old(self).spec_stats().vk_allocations < u64::MAX,
        ensures
            final(self).wf(),
            final(self).blocks() == old(self).blocks(),
            final(self).spec_block_bytes() == old(self).spec_block_bytes(),
            final(self).spec_stats() == (AllocStats {
                vk_allocations: (old(self).spec_stats().vk_allocations + 1) as u64,
                vk_frees: (old(self).spec_stats().vk_frees + 1) as u64,
                ..old(self).spec_stats()
            }),
    {
        let ghost before = *self;
        self.stats.vk_allocations = self.stats.vk_allocations + 1;
        self.stats.vk_frees = self.stats.vk_frees + 1;
        assert(self.blocks() == before.blocks());
    }

    /// Gives a range back. An emptied block leaves its slot; the caller then frees its memory.
    pub fn unplace(&mut self, block: usize, offset: u64, size: u64) -> (r: bool)
        requires
            old(self).wf(),
            block < old(self).blocks().len(),
            old(self).blocks()[block as int] is Some,
            old(self).blocks()[block as int].unwrap().taken(offset, size),
        ensures
            final(self).wf(),
            final(self).spec_block_bytes() == old(self).spec_block_bytes(),
            ({
                let v = old(self).blocks()[block as int].unwrap().after_giving_back(offset, size);
                &&& r == (v.used == 0)
                &&& r ==> final(self).blocks() == old(self).blocks().update(block as int, None) && final(self).spec_stats() == (AllocStats {
                    blocks_live: (old(self).spec_stats().blocks_live - 1) as usize,
                    vk_frees: (old(self).spec_stats().vk_frees + 1) as u64,
                    ..old(self).spec_stats()
                })
                &&& !r ==> final(self).blocks() == old(self).blocks().update(block as int, Some(v)) && final(self).spec_stats() == old(
                    self,
                ).spec_stats()
            }),
    {
        let ghost before = *self;
        let ghost v = self.blocks()[block as int].unwrap();
        assert(self.blocks@[block as int] is Some);
        assert(self.blocks@[block as int].unwrap().wf());
        assert(self.blocks()[block as int] == Some(v));
        proof {
            lemma_giving_back(v, offset, size);
        }
        let mut slot: Option<Block> = None;
        std::mem::swap(&mut self.blocks[block], &mut slot);
        let mut b = match slot {
            Some(b) => b,
            None => {
                return false;
            },
        };
        give_back(&mut b.free, offset, size);
        b.used = b.used - size;
        let ghost w = v.after_giving_back(offset, size);
        assert(b@ == w);
        if b.used == 0 {
            proof {
                assert(self.blocks() =~= before.blocks().update(block as int, None));
                lemma_filled_update(before.blocks(), block as int, None);
            }
            self.stats.blocks_live = self.stats.blocks_live - 1;
            self.stats.vk_frees = self.stats.vk_frees + 1;
            assert(self.blocks() =~= before.blocks().update(block as int, None));
            true
        } else {
            self.blocks.set(block, Some(b));
            proof {
                assert(self.blocks() =~= before.blocks().update(block as int, Some(w)));
                lemma_filled_update(before.blocks(), block as int, Some(w));
            }
            false
        }
    }

    /// Counts a resource made.
    pub fn created(&mut self, image: bool)
        requires
            old(self).wf(),
            old(self).spec_stats().buffers_live < u64::MAX,
            old(self).spec_stats().images_live < u64::MAX,
        ensures
            final(self).wf(),
            final(self).blocks() == old(self).blocks(),
            final(self).spec_block_bytes() == old(self).spec_block_bytes(),
            final(self).spec_stats() == if image {
                AllocStats { images_live: (old(self).spec_stats().images_live + 1) as u64, ..old(self).spec_stats() }
            } else {
                AllocStats { buffers_live: (old(self).spec_stats().buffers_live + 1) as u64, ..old(self).spec_stats() }
            },
    {
        let ghost before = *self;
        if image {
            self.stats.images_live = self.stats.images_live + 1;
        } else {
            self.stats.buffers_live = self.stats.buffers_live + 1;
        }
        assert(self.blocks() == before.blocks());
    }

    /// Counts a resource destroyed.
    pub fn destroyed(&mut self, image: bool)
        requires
            old(self).wf(),
            image ==> old(self).spec_stats().images_live > 0,
            !image ==> old(self).spec_stats().buffers_live > 0,
        ensures
            final(self).wf(),
            final(self).blocks() == old(self).blocks(),
            final(self).spec_block_bytes() == old(self).spec_block_bytes(),
            final(self).spec_stats() == if image {
                AllocStats { images_live: (old(self).spec_stats().images_live - 1) as u64, ..old(self).spec_stats() }
            } else {
                AllocStats { buffers_live: (old(self).spec_stats().buffers_live - 1) as u64, ..old(self).spec_stats() }
            },
    {
        let ghost before = *self;
        if image {
            self.stats.images_live = self.stats.images_live - 1;
        } else {
            self.stats.buffers_live = self.stats.buffers_live - 1;
        }
        assert(self.blocks() == before.blocks());
    }

    /// Buffers and images never freed.
    pub fn leaked(&self) -> (r: u64)
        requires
            self.spec_stats().buffers_live + self.spec_stats().images_live <= u64::MAX,
        ensures
            r == self.spec_stats().buffers_live + self.spec_stats().images_live,
    {
        self.stats.buffers_live + self.stats.images_live
    }
}

/// A memory type serves the device where its lowest flag says that it is device-local, and the host where the two flags
/// above say that it is visible and coherent; one without the flag of the other side is preferred. Only the types that
/// the requirements' bits allow count.
pub proof fn law_memory_types_serve_their_side(types: Seq<u32>, bits: u32, i: int)
    requires
        0 <= i < types.len(),
        i < 32,
    ensures
        ({
            let allowed = bits >> (i as u32) & 1 == 1;
            let (local, visible, coherent) = (types[i] % 2 == 1, types[i] / 2 % 2 == 1, types[i] / 4 % 2 == 1);
            &&& usable(types, bits, Kind::Device, i) <==> allowed && local
            &&& usable(types, bits, Kind::Host, i) <==> allowed && visible && coherent
            &&& preferred(types, bits, Kind::Device, i) <==> allowed && local && !visible
            &&& preferred(types, bits, Kind::Host, i) <==> allowed && visible && coherent && !local
        }),
{
    let (k, t) = (i as u32, types[i]);
    assert(bits & (1u32 << k) != 0 <==> bits >> k & 1 == 1) by (bit_vector)
        requires
            k < 32,
    ;
    assert(t & 1 == 1 <==> t % 2 == 1) by (bit_vector);
    assert(t & (2u32 | 4u32) == (2u32 | 4u32) <==> t / 2 % 2 == 1 && t / 4 % 2 == 1) by (bit_vector);
    assert((t & 2 == 0 <==> t / 2 % 2 == 0) && (t & 1 == 0 <==> t % 2 == 0)) by (bit_vector);
}

/// A new block holds the request at its start, and the rest of it is free.
pub proof fn law_new_blocks_hold_their_request(class: Class, block_size: u64, size: u64)
    requires
        0 < size <= block_size,
    ensures
        ({
            let b = fresh_block(class, block_size, size);
            &&& b.class == class && b.size == block_size && b.used == size
            &&& free_bytes(b.free) == set_int_range(size as int, block_size as int)
        }),
{
    let m = map![0u64 => block_size];
    assert(fits(m, 0, size, 1)) by {
        lemma_round_up(0, 1);
    }
    let b = fresh_block(class, block_size, size);
    assert forall|x: int| free_bytes(b.free).contains(x) == set_int_range(size as int, block_size as int).contains(x) by {
        if size < block_size {
            assert(b.free.dom().contains(size) && b.free[size] == block_size - size);
            if size <= x < block_size {
                assert(holds_byte(b.free, size, x));
            }
        }
    }
    assert(free_bytes(b.free) =~= set_int_range(size as int, block_size as int));
}

/// A first fit is in the lowest free range that can hold the request, at the lowest place there that its alignment
/// allows.
pub proof fn law_first_fits_are_the_lowest(m: Map<u64, u64>, s: u64, size: u64, align: u64, t: u64, at: int)
    requires
        first_fit(m, s, size, align),
        m.dom().contains(t),
        align > 0,
        t <= at,
        at % align as int == 0,
        at + size <= t + m[t],
    ensures
        s <= t,
        s == t ==> s <= round_up(s as int, align as int) <= at,
        m.dom().contains(s) && round_up(s as int, align as int) + size <= s + m[s],
{
    let a = align as int;
    lemma_round_up(t as int, a);
    lemma_round_up(s as int, a);
    let r = round_up(t as int, a);
    if at < r {
        let (x, y) = (at / a, r / a);
        vstd::arithmetic::div_mod::lemma_fundamental_div_mod(at, a);
        vstd::arithmetic::div_mod::lemma_fundamental_div_mod(r, a);
        assert(x < y) by (nonlinear_arith)
            requires
                at == a * x,
                r == a * y,
                at < r,
                a > 0,
        ;
        assert(a * x + a <= a * y) by (nonlinear_arith)
            requires
                x + 1 <= y,
                a > 0,
        ;
    }
    assert(r <= at);
    assert(fits(m, t, size, align));
}

} // verus!
