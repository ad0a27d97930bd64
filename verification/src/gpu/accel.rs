//! The ray-query representation of uploaded region meshes: one bottom-level structure per region,
//! one top level with one instance per region in key order, and a table of where each region's
//! quads and triangles are.
//!
//! - The instance's transform translates by the region origin (world voxels), and its custom index
//!   is the region index.
//! - Bottom-level builds are batched so that one batch's scratch stays under
//!   [`SCRATCH_BATCH_BYTES`]; batches reuse one scratch buffer.
//! - An update rebuilds the changed regions' structures only, and the top level over every region.
use crate::gpu::bytes::{law_le32_round_trips, le32, le64, lemma_round_up, next_multiple, of_le32, push_u32, push_u64, round_up, sum, total};
use crate::gpu::layout::{RegionKey, RegionSize};
use crate::gpu::mesh::GpuRegion;
use crate::gpu::regions::{ints, lemma_positions, positions, RegionSet};
use crate::gpu::vulkan::{front_counterclockwise, packed24_8};
use crate::sorted::{increasing, Key, SortedMap};
use vstd::prelude::*;

verus! {

/// Upper bound on one batch's scratch (32 MiB). A single build that needs more gets a batch of its
/// own.
pub const SCRATCH_BATCH_BYTES: u64 = 33554432;

/// Bytes of one instance on the device.
pub const INSTANCE_BYTES: u64 = 64;

/// Bytes of one row of the region table on the device.
pub const REGION_REF_BYTES: u64 = 24;

/// One row of the region table: two device addresses and the bounds of both tables.
#[derive(Clone, Copy, Debug, PartialEq, Eq, Structural)]
pub struct RegionRef {
    pub quads: u64,
    pub tri_quad: u64,
    pub quad_count: u32,
    pub tri_count: u32,
}

impl Default for RegionRef {
    fn default() -> (r: RegionRef)
        ensures
            r == (RegionRef { quads: 0, tri_quad: 0, quad_count: 0, tri_count: 0 }),
    {
        RegionRef { quads: 0, tri_quad: 0, quad_count: 0, tri_count: 0 }
    }
}

impl RegionRef {
    /// The row as the device holds it.
    pub open spec fn image(self) -> Seq<u8> {
        le64(self.quads) + le64(self.tri_quad) + le32(self.quad_count) + le32(self.tri_count)
    }

    /// The row of a region.
    pub open spec fn spec_of(r: GpuRegion) -> RegionRef {
        RegionRef {
            quads: (r.address + r.sections.quads) as u64,
            tri_quad: (r.address + r.sections.tri_quad) as u64,
            quad_count: r.quad_count as u32,
            tri_count: r.triangle_count as u32,
        }
    }

    pub fn of(r: &GpuRegion) -> (row: RegionRef)
        requires
            r.address + r.sections.quads <= u64::MAX,
            r.address + r.sections.tri_quad <= u64::MAX,
        ensures
            row == RegionRef::spec_of(*r),
    {
        RegionRef {
            quads: r.address + r.sections.quads,
            tri_quad: r.address + r.sections.tri_quad,
            quad_count: r.quad_count as u32,
            tri_count: r.triangle_count as u32,
        }
    }
}

/// The rows one behind the other.
pub open spec fn table_image(rows: Seq<RegionRef>, n: nat) -> Seq<u8>
    decreases n,
{
    if n == 0 {
        Seq::empty()
    } else {
        table_image(rows, (n - 1) as nat) + rows[n - 1].image()
    }
}

/// The region table's bytes.
pub fn table_data(rows: &[RegionRef]) -> (r: Vec<u8>)
    ensures
        r@ == table_image(rows@, rows@.len()),
{
    let mut out: Vec<u8> = Vec::new();
    let mut i: usize = 0;
    while i < rows.len()
        invariant
            i <= rows@.len(),
            out@ == table_image(rows@, i as nat),
        decreases rows@.len() - i,
    {
        let ghost before = out@;
        let row = rows[i];
        push_u64(&mut out, row.quads);
        push_u64(&mut out, row.tri_quad);
        push_u32(&mut out, row.quad_count);
        push_u32(&mut out, row.tri_count);
        assert(out@ =~= before + row.image());
        i += 1;
    }
    out
}

/// Row `i` stands at byte `24 i` of the table.
pub proof fn law_table_holds_every_row(rows: Seq<RegionRef>, n: nat, i: int)
    requires
        0 <= i < n <= rows.len(),
    ensures
        table_image(rows, n).len() == n * REGION_REF_BYTES,
        table_image(rows, n).subrange(i * REGION_REF_BYTES, (i + 1) * REGION_REF_BYTES) == rows[i].image(),
    decreases n,
{
    assert(rows[n - 1].image().len() == REGION_REF_BYTES);
    if n > 1 {
        law_table_holds_every_row(
            rows,
            (n - 1) as nat,
            if i < n - 1 {
                i
            } else {
                0
            },
        );
    }
    let before = table_image(rows, (n - 1) as nat);
    let now = table_image(rows, n);
    if i < n - 1 {
        assert(now.subrange(i * 24, (i + 1) * 24) =~= before.subrange(i * 24, (i + 1) * 24));
    } else {
        assert(now.subrange(i * 24, (i + 1) * 24) =~= rows[i].image());
    }
}

/// Planted faults for negative controls. `Default` builds correctly.
#[derive(Clone, Copy, Debug, PartialEq, Eq)]
pub struct AccelFaults {
    /// Added to every instance translation (a transform bug).
    pub offset_error: [i32; 3],
    /// Region (by index) left out of the top level (a missing-instance bug).
    pub skip_region: Option<usize>,
    /// Instances with the front-counter-clockwise flag, which inverts the facing.
    pub flip_facing: bool,
    /// Added to every instance custom index, modulo the region count (a wrong-id bug).
    pub custom_index_shift: u32,
}

impl Default for AccelFaults {
    fn default() -> (r: AccelFaults)
        ensures
            r.offset_error@ == seq![0i32, 0, 0],
            r.skip_region is None,
            !r.flip_facing,
            r.custom_index_shift == 0,
    {
        let r = AccelFaults { offset_error: [0, 0, 0], skip_region: None, flip_facing: false, custom_index_shift: 0 };
        assert(r.offset_error@ =~= seq![0i32, 0, 0]);
        r
    }
}

/// Whether every region can be built: those to rebuild are regions, and every other one has a
/// structure already.
pub open spec fn buildable<R, B>(regions: SortedMap<RegionKey, R>, rebuild: RegionSet, keep: SortedMap<RegionKey, B>) -> bool {
    &&& rebuild@.dom().subset_of(regions@.dom())
    &&& forall|k: RegionKey| #[trigger] regions@.dom().contains(k) ==> rebuild@.dom().contains(k) || keep@.dom().contains(k)
}

/// Every region to rebuild gets one build.
pub proof fn law_every_rebuild_is_placed(keys: Seq<RegionKey>, s: Set<RegionKey>)
    requires
        increasing(keys),
        s.finite(),
        forall|k: RegionKey| #[trigger] s.contains(k) ==> keys.contains(k),
    ensures
        positions(keys, s, keys.len()).len() == s.len(),
{
    let p = positions(keys, s, keys.len());
    lemma_positions(keys, s, keys.len());
    let q = Seq::new(p.len(), |j: int| keys[p[j]]);
    assert forall|i: int, j: int| 0 <= i < j < q.len() implies q[i] != q[j] by {
        assert(p[i] < p[j]);
        assert(keys[p[i]].lt(keys[p[j]]));
        RegionKey::lt_irreflexive(keys[p[i]]);
    }
    assert(q.no_duplicates());
    q.unique_seq_to_set();
    assert forall|k: RegionKey| q.to_set().contains(k) == s.contains(k) by {
        if s.contains(k) {
            let i = choose|i: int| 0 <= i < keys.len() && keys[i] == k;
            assert(p.contains(i));
            let j = choose|j: int| 0 <= j < p.len() && p[j] == i;
            assert(q[j] == k);
        }
    }
    assert(q.to_set() =~= s);
}

/// The regions below `n` that are not left out.
pub open spec fn listed_below(skip: Option<usize>, n: nat) -> Seq<int>
    decreases n,
{
    if n == 0 {
        Seq::empty()
    } else {
        let before = listed_below(skip, (n - 1) as nat);
        if skip matches Some(i) && i == n - 1 {
            before
        } else {
            before.push(n - 1)
        }
    }
}

/// The regions that the top level lists, by index.
pub fn listed(n: usize, faults: &AccelFaults) -> (r: Vec<usize>)
    ensures
        ints(r@) == listed_below(faults.skip_region, n as nat),
{
    let mut out: Vec<usize> = Vec::new();
    let mut i: usize = 0;
    assert(ints(out@) =~= listed_below(faults.skip_region, 0));
    while i < n
        invariant
            i <= n,
            ints(out@) == listed_below(faults.skip_region, i as nat),
        decreases n - i,
    {
        let ghost before = out@;
        let skipped = match faults.skip_region {
            Some(s) => s == i,
            None => false,
        };
        if !skipped {
            out.push(i);
            assert(ints(out@) =~= ints(before).push(i as int));
        }
        i += 1;
    }
    out
}

/// Without a planted skip the top level lists every region.
pub proof fn law_every_region_is_listed(n: nat)
    ensures
        listed_below(None, n) == Seq::new(n, |i: int| i),
    decreases n,
{
    if n > 0 {
        law_every_region_is_listed((n - 1) as nat);
    }
    assert(listed_below(None, n) =~= Seq::new(n, |i: int| i));
}

/// Bytes of the instance buffer and of the region table; neither is empty.
pub fn top_bytes(n: u32) -> (r: (u64, u64))
    ensures
        r.0 == INSTANCE_BYTES * (if n > 0 {
            n as int
        } else {
            1
        }),
        r.1 == REGION_REF_BYTES * (if n > 0 {
            n as int
        } else {
            1
        }),
{
    let rows: u64 = if n > 0 {
        n as u64
    } else {
        1
    };
    (INSTANCE_BYTES * rows, REGION_REF_BYTES * rows)
}

/// One instance of the top level.
#[derive(Clone, Copy, Debug, PartialEq, Eq)]
pub struct Instance {
    /// The region's place, in voxels.
    pub translation: [i32; 3],
    /// 24 bits.
    pub custom_index: u32,
    pub mask: u8,
    /// 24 bits.
    pub binding_offset: u32,
    pub flags: u8,
    /// The address of the region's structure.
    pub structure: u64,
}

/// The region's place with the planted offset stays in range.
pub open spec fn placeable(key: RegionKey, size: RegionSize, faults: AccelFaults) -> bool {
    let o = key.spec_origin(size);
    &&& key.fits(size)
    &&& i32::MIN <= o.x + faults.offset_error[0] <= i32::MAX
    &&& i32::MIN <= o.y + faults.offset_error[1] <= i32::MAX
    &&& i32::MIN <= o.z + faults.offset_error[2] <= i32::MAX
}

/// The instance of region `i` of `n`.
pub fn instance(i: u32, n: u32, key: RegionKey, size: RegionSize, faults: &AccelFaults, structure: u64) -> (r: Instance)
    requires
        i < n,
        i + faults.custom_index_shift <= u32::MAX,
        placeable(key, size, *faults),
    ensures
        r.translation@ == seq![
            (key.spec_origin(size).x + faults.offset_error[0]) as i32,
            (key.spec_origin(size).y + faults.offset_error[1]) as i32,
            (key.spec_origin(size).z + faults.offset_error[2]) as i32,
        ],
        r.custom_index == ((i + faults.custom_index_shift) as u32 % n) & 0x00ff_ffff,
        r.mask == 255,
        r.binding_offset == 0,
        r.flags == if faults.flip_facing {
            2u8
        } else {
            0u8
        },
        r.structure == structure,
        faults.custom_index_shift == 0 && n <= 0x0100_0000 ==> r.custom_index == i,
{
    let o = key.origin(size);
    let facing: u32 = if faults.flip_facing {
        front_counterclockwise()
    } else {
        0
    };
    let custom: u32 = (i + faults.custom_index_shift) % n;
    let (custom_index, mask) = packed24_8(custom, 255);
    let (binding_offset, flags) = packed24_8(0, facing as u8);
    let t: [i32; 3] = [o.x + faults.offset_error[0], o.y + faults.offset_error[1], o.z + faults.offset_error[2]];
    proof {
        assert(0u32 & 0x00ff_ffff == 0) by (bit_vector);
        assert(custom < 0x0100_0000 ==> custom & 0x00ff_ffff == custom) by (bit_vector);
        if faults.custom_index_shift == 0 {
            vstd::arithmetic::div_mod::lemma_small_mod(i as nat, n as nat);
        }
        assert(t@ =~= seq![
            (key.spec_origin(size).x + faults.offset_error[0]) as i32,
            (key.spec_origin(size).y + faults.offset_error[1]) as i32,
            (key.spec_origin(size).z + faults.offset_error[2]) as i32,
        ]);
    }
    Instance { translation: t, custom_index, mask, binding_offset, flags, structure }
}

/// The address of each region's structure: that of its build where it is rebuilt, and the one it
/// has otherwise.
pub fn structure_addresses<R>(
    regions: &SortedMap<RegionKey, R>,
    rebuild: &RegionSet,
    fresh: &[u64],
    keep: &SortedMap<RegionKey, u64>,
) -> (r: Vec<u64>)
    requires
        regions.wf(),
        rebuild.wf(),
        keep.wf(),
        buildable(*regions, *rebuild, *keep),
        fresh@.len() == positions(regions.keys(), rebuild@.dom(), regions.keys().len()).len(),
    ensures
        r@.len() == regions.keys().len(),
        forall|j: int| #![trigger fresh@[j]] 0 <= j < fresh@.len() ==> r@[positions(regions.keys(), rebuild@.dom(), regions.keys().len())[j]] == fresh@[j],
        forall|i: int|
            0 <= i < r@.len() && !rebuild@.dom().contains(regions.keys()[i]) ==> #[trigger] r@[i] == keep@[regions.keys()[i]],
{
    let ghost ks = regions.keys();
    let ghost s = rebuild@.dom();
    let n: usize = regions.len();
    let mut out: Vec<u64> = Vec::new();
    let mut j: usize = 0;
    let mut i: usize = 0;
    while i < n
        invariant
            i <= n == ks.len(),
            ks == regions.keys(),
            s == rebuild@.dom(),
            regions.wf(),
            rebuild.wf(),
            keep.wf(),
            buildable(*regions, *rebuild, *keep),
            out@.len() == i,
            j == positions(ks, s, i as nat).len(),
            fresh@.len() == positions(ks, s, ks.len()).len(),
            forall|q: int| #![trigger fresh@[q]] 0 <= q < j ==> out@[positions(ks, s, i as nat)[q]] == fresh@[q],
            forall|q: int| 0 <= q < i && !s.contains(ks[q]) ==> #[trigger] out@[q] == keep@[ks[q]],
        decreases n - i,
    {
        let k = regions.key_at(i);
        proof {
            regions.lemma_order();
            assert(regions@.dom().contains(k));
            lemma_positions(ks, s, i as nat);
            lemma_more_positions(ks, s, (i + 1) as nat, ks.len());
        }
        let ghost before = out@;
        if rebuild.contains(&k) {
            out.push(fresh[j]);
            j += 1;
        } else {
            match keep.get(&k) {
                Some(a) => {
                    out.push(*a);
                },
                None => {
                    out.push(0);
                },
            }
        }
        proof {
            let now = positions(ks, s, (i + 1) as nat);
            assert forall|q: int| #![trigger fresh@[q]] 0 <= q < j implies out@[now[q]] == fresh@[q] by {
                if q < positions(ks, s, i as nat).len() {
                    assert(now[q] == positions(ks, s, i as nat)[q]);
                    assert(before[now[q]] == fresh@[q]);
                }
            }
        }
        i += 1;
    }
    out
}

proof fn lemma_more_positions(keys: Seq<RegionKey>, s: Set<RegionKey>, i: nat, n: nat)
    requires
        i <= n <= keys.len(),
    ensures
        positions(keys, s, i).len() <= positions(keys, s, n).len(),
    decreases n,
{
    if i < n {
        lemma_more_positions(keys, s, i, (n - 1) as nat);
    }
}

/// Builds laid out in batches: for each batch its builds, each with where its scratch starts; the
/// bytes that the last batch takes; and the bytes that the largest takes.
pub struct Batching {
    pub batches: Seq<Seq<(int, int)>>,
    pub used: int,
    pub need: int,
}

pub open spec fn max(a: int, b: int) -> int {
    if a >= b {
        a
    } else {
        b
    }
}

/// A build joins the last batch unless that would pass the limit.
pub open spec fn joined(b: Batching, build: int, need: int) -> Batching {
    if b.batches.len() == 0 || (b.used + need > SCRATCH_BATCH_BYTES && b.used > 0) {
        Batching { batches: b.batches.push(seq![(build, 0int)]), used: need, need: max(b.need, need) }
    } else {
        let last = b.batches.len() - 1;
        Batching {
            batches: b.batches.update(last, b.batches[last].push((build, b.used))),
            used: b.used + need,
            need: max(b.need, b.used + need),
        }
    }
}

/// The first `n` builds in batches. `top` is the scratch that the top level needs.
pub open spec fn batched(scratch: Seq<u64>, a: int, top: int, n: nat) -> Batching
    decreases n,
{
    if n == 0 {
        Batching { batches: Seq::empty(), used: 0, need: round_up(top, a) }
    } else {
        joined(batched(scratch, a, top, (n - 1) as nat), n - 1, round_up(scratch[n - 1] as int, a))
    }
}

/// The batches of a build.
pub struct Batches {
    pub batches: Vec<Vec<(usize, u64)>>,
    /// Bytes of the scratch buffer, room to align its start included.
    pub scratch_bytes: u64,
}

pub open spec fn batch_view(b: Seq<(usize, u64)>) -> Seq<(int, int)> {
    Seq::new(b.len(), |i: int| (b[i].0 as int, b[i].1 as int))
}

pub open spec fn batches_view(bs: Seq<Vec<(usize, u64)>>) -> Seq<Seq<(int, int)>> {
    Seq::new(bs.len(), |i: int| batch_view(bs[i]@))
}

pub open spec fn grain(align: u64) -> int {
    if align > 0 {
        align as int
    } else {
        1
    }
}

/// The scratch of more builds is no smaller, and holds what each of them needs.
proof fn lemma_batch_bounds(scratch: Seq<u64>, a: int, top: int, n: nat, m: nat)
    requires
        n <= m <= scratch.len(),
        0 < a,
        0 <= top,
    ensures
        0 <= batched(scratch, a, top, n).used,
        0 <= batched(scratch, a, top, n).need <= batched(scratch, a, top, m).need,
        n > 0 ==> batched(scratch, a, top, n).used <= batched(scratch, a, top, n).need,
        round_up(top, a) <= batched(scratch, a, top, n).need,
        n > 0 ==> round_up(scratch[n - 1] as int, a) <= batched(scratch, a, top, n).used,
    decreases m,
{
    lemma_round_up(top, a);
    if n < m {
        lemma_batch_bounds(scratch, a, top, n, (m - 1) as nat);
    } else if n > 0 {
        lemma_batch_bounds(scratch, a, top, (n - 1) as nat, (n - 1) as nat);
        lemma_round_up(scratch[n - 1] as int, a);
    }
}

/// Lays the builds out in batches, each within the limit or of one oversized build. `scratch` is
/// what each build needs, `top` what the top level needs.
pub fn batch_builds(scratch: &[u64], align: u64, top: u64) -> (r: Batches)
    requires
        batched(scratch@, grain(align), top as int, scratch@.len()).need + align <= u64::MAX,
    ensures
        batches_view(r.batches@) == batched(scratch@, grain(align), top as int, scratch@.len()).batches,
        r.scratch_bytes == batched(scratch@, grain(align), top as int, scratch@.len()).need + align,
{
    let a: u64 = if align > 0 {
        align
    } else {
        1
    };
    proof {
        lemma_batch_bounds(scratch@, a as int, top as int, 0, scratch@.len());
    }
    let mut batches: Vec<Vec<(usize, u64)>> = Vec::new();
    let mut used: u64 = 0;
    let mut need: u64 = next_multiple(top, a);
    let mut i: usize = 0;
    assert(batches_view(batches@) =~= Seq::<Seq<(int, int)>>::empty());
    while i < scratch.len()
        invariant
            i <= scratch@.len(),
            a == grain(align),
            batched(scratch@, a as int, top as int, scratch@.len()).need <= u64::MAX,
            batches_view(batches@) == batched(scratch@, a as int, top as int, i as nat).batches,
            used == batched(scratch@, a as int, top as int, i as nat).used,
            need == batched(scratch@, a as int, top as int, i as nat).need,
        decreases scratch@.len() - i,
    {
        proof {
            lemma_batch_bounds(scratch@, a as int, top as int, i as nat, scratch@.len());
            lemma_batch_bounds(scratch@, a as int, top as int, (i + 1) as nat, scratch@.len());
        }
        let ghost before = batches@;
        let ghost b = batched(scratch@, a as int, top as int, i as nat);
        let own: u64 = next_multiple(scratch[i], a);
        let n: usize = batches.len();
        if n == 0 || (used > 0 && (used > SCRATCH_BATCH_BYTES || own > SCRATCH_BATCH_BYTES - used)) {
            let mut fresh: Vec<(usize, u64)> = Vec::new();
            fresh.push((i, 0));
            assert(batch_view(fresh@) =~= seq![(i as int, 0int)]);
            batches.push(fresh);
            assert(batches_view(batches@) =~= batches_view(before).push(seq![(i as int, 0int)]));
            used = own;
        } else {
            let mut last: Vec<(usize, u64)> = Vec::new();
            std::mem::swap(&mut batches[n - 1], &mut last);
            last.push((i, used));
            assert(batch_view(last@) =~= b.batches[n - 1].push((i as int, b.used)));
            batches.set(n - 1, last);
            assert(batches_view(batches@) =~= b.batches.update(n - 1, b.batches[n - 1].push((i as int, b.used))));
            used = used + own;
        }
        if used > need {
            need = used;
        }
        i += 1;
    }
    Batches { batches, scratch_bytes: need + align }
}

/// What build `(j, at)` takes ends here.
pub open spec fn end_of(scratch: Seq<u64>, a: int, x: (int, int)) -> int {
    x.1 + round_up(scratch[x.0] as int, a)
}

/// The batches are right: builds of one batch lie one behind the other, from the start of the
/// scratch, within its size; only the first of a batch may pass the limit.
pub open spec fn well_batched(scratch: Seq<u64>, a: int, b: Batching, n: nat) -> bool {
    &&& forall|i: int, k: int|
        0 <= i < b.batches.len() && 0 <= k < b.batches[i].len() ==> {
            let x = #[trigger] b.batches[i][k];
            &&& 0 <= x.0 < n
            &&& 0 <= x.1
            &&& end_of(scratch, a, x) <= b.need
            &&& x.1 > 0 ==> end_of(scratch, a, x) <= SCRATCH_BATCH_BYTES
        }
    &&& forall|i: int, k: int, l: int|
        0 <= i < b.batches.len() && 0 <= k < l < b.batches[i].len() ==> end_of(scratch, a, #[trigger] b.batches[i][k])
            <= (#[trigger] b.batches[i][l]).1
    &&& b.batches.len() > 0 ==> b.batches.last().len() > 0 && forall|k: int|
        0 <= k < b.batches.last().len() ==> end_of(scratch, a, #[trigger] b.batches.last()[k]) <= b.used
}

/// Builds of one batch never share scratch, all of it lies within the buffer, and a batch passes
/// the limit only by a build that stands at its start.
pub proof fn law_batches_share_no_scratch(scratch: Seq<u64>, a: int, top: int, n: nat)
    requires
        n <= scratch.len(),
        a > 0,
        top >= 0,
    ensures
        well_batched(scratch, a, batched(scratch, a, top, n), n),
        batched(scratch, a, top, n).used >= 0,
        n > 0 ==> batched(scratch, a, top, n).used <= batched(scratch, a, top, n).need,
    decreases n,
{
    if n > 0 {
        law_batches_share_no_scratch(scratch, a, top, (n - 1) as nat);
        let b = batched(scratch, a, top, (n - 1) as nat);
        let need = round_up(scratch[n - 1] as int, a);
        lemma_round_up(scratch[n - 1] as int, a);
        let c = joined(b, n - 1, need);
        assert forall|i: int, k: int| 0 <= i < c.batches.len() && 0 <= k < c.batches[i].len() implies {
            let x = #[trigger] c.batches[i][k];
            &&& 0 <= x.0 < n
            &&& 0 <= x.1
            &&& end_of(scratch, a, x) <= c.need
            &&& x.1 > 0 ==> end_of(scratch, a, x) <= SCRATCH_BATCH_BYTES
        } by {
            if i < b.batches.len() && k < b.batches[i].len() {
                assert(c.batches[i][k] == b.batches[i][k]);
            }
        }
        assert forall|i: int, k: int, l: int| 0 <= i < c.batches.len() && 0 <= k < l < c.batches[i].len() implies end_of(
            scratch,
            a,
            #[trigger] c.batches[i][k],
        ) <= (#[trigger] c.batches[i][l]).1 by {
            if i < b.batches.len() {
                assert(c.batches[i][k] == b.batches[i][k]);
                if l < b.batches[i].len() {
                    assert(c.batches[i][l] == b.batches[i][l]);
                } else {
                    assert(b.batches.last()[k] == b.batches[i][k]);
                }
            }
        }
        assert forall|k: int| 0 <= k < c.batches.last().len() implies end_of(scratch, a, #[trigger] c.batches.last()[k]) <= c.used by {
            if c.batches.len() == b.batches.len() && k < b.batches.last().len() {
                assert(c.batches.last()[k] == b.batches.last()[k]);
            }
        }
    }
}

/// The builds of the first `n` batches, in order.
pub open spec fn built_in(bs: Seq<Seq<(int, int)>>, n: nat) -> Seq<int>
    decreases n,
{
    if n == 0 {
        Seq::empty()
    } else {
        built_in(bs, (n - 1) as nat) + Seq::new(bs[n - 1].len(), |i: int| bs[n - 1][i].0)
    }
}

/// Every build is in exactly one batch, in order.
pub proof fn law_every_build_is_in_one_batch(scratch: Seq<u64>, a: int, top: int, n: nat)
    requires
        n <= scratch.len(),
    ensures
        built_in(batched(scratch, a, top, n).batches, batched(scratch, a, top, n).batches.len()) == Seq::new(n, |i: int| i),
    decreases n,
{
    if n == 0 {
        assert(built_in(batched(scratch, a, top, 0).batches, 0) =~= Seq::new(0, |i: int| i));
    } else {
        law_every_build_is_in_one_batch(scratch, a, top, (n - 1) as nat);
        let b = batched(scratch, a, top, (n - 1) as nat);
        let c = batched(scratch, a, top, n);
        if c.batches.len() > b.batches.len() {
            lemma_same_builds(b.batches, c.batches, b.batches.len());
            assert(c.batches.last() == seq![(n - 1, 0int)]);
            assert(built_in(c.batches, c.batches.len()) =~= built_in(b.batches, b.batches.len()).push(n - 1));
        } else {
            let last = b.batches.len() - 1;
            lemma_same_builds(b.batches, c.batches, last as nat);
            assert(c.batches[last] == b.batches[last].push((n - 1, b.used)));
            let p = Seq::new(b.batches[last].len(), |i: int| b.batches[last][i].0);
            assert(Seq::new(c.batches[last].len(), |i: int| c.batches[last][i].0) =~= p.push(n - 1));
            assert(built_in(c.batches, c.batches.len()) =~= built_in(b.batches, b.batches.len()).push(n - 1));
        }
        assert(Seq::new((n - 1) as nat, |i: int| i).push(n - 1) =~= Seq::new(n, |i: int| i));
        assert(built_in(c.batches, c.batches.len()) =~= Seq::new(n, |i: int| i));
    }
}

proof fn lemma_same_builds(x: Seq<Seq<(int, int)>>, y: Seq<Seq<(int, int)>>, n: nat)
    requires
        n <= x.len(),
        n <= y.len(),
        forall|i: int| 0 <= i < n ==> x[i] == y[i],
    ensures
        built_in(x, n) == built_in(y, n),
    decreases n,
{
    if n > 0 {
        lemma_same_builds(x, y, (n - 1) as nat);
        assert(x[n - 1] == y[n - 1]);
    }
}

/// What a build (or update) made. Structure figures cover those built by this call: all of them for
/// a build, the changed regions' for an update.
#[derive(Clone, Copy, Debug, PartialEq, Eq, Structural)]
pub struct BuildStats {
    pub blas_count: u64,
    pub triangles: u64,
    /// Sum of the driver's sizes of the structures built.
    pub blas_bytes: u64,
    pub tlas_bytes: u64,
    pub instance_bytes: u64,
    pub table_bytes: u64,
    /// Device bytes of the buffers this call made, as placed (driver alignment included).
    pub accel_buffer_bytes: u64,
    /// Regions listed in the top level.
    pub instances: u64,
    /// Size of the scratch buffer used for the build (freed afterwards).
    pub scratch_bytes: u64,
    pub blas_batches: u64,
}

/// The triangles of the regions at `built`.
pub open spec fn triangles_of(regions: Seq<GpuRegion>, built: Seq<usize>) -> Seq<u64> {
    Seq::new(built.len(), |j: int| regions[built[j] as int].triangle_count)
}

/// The figures of a build over `regions` that built those at `built`. `sizes` are the driver's
/// sizes of the structures built, `placed` the bytes of every buffer made.
pub fn build_stats(
    regions: &[GpuRegion],
    built: &Vec<usize>,
    sizes: &[u64],
    tlas_bytes: u64,
    placed: &[u64],
    instances: usize,
    batches: &Batches,
) -> (r: BuildStats)
    requires
        regions@.len() <= u32::MAX,
        forall|j: int| 0 <= j < built@.len() ==> #[trigger] built@[j] < regions@.len(),
        sum(triangles_of(regions@, built@), built@.len()) <= u64::MAX,
        sum(sizes@, sizes@.len()) <= u64::MAX,
        sum(placed@, placed@.len()) <= u64::MAX,
    ensures
        r.blas_count == built@.len(),
        r.triangles == sum(triangles_of(regions@, built@), built@.len()),
        r.blas_bytes == sum(sizes@, sizes@.len()),
        r.tlas_bytes == tlas_bytes,
        r.instance_bytes == INSTANCE_BYTES * max(regions@.len() as int, 1),
        r.table_bytes == REGION_REF_BYTES * max(regions@.len() as int, 1),
        r.accel_buffer_bytes == sum(placed@, placed@.len()),
        r.instances == instances,
        r.scratch_bytes == batches.scratch_bytes,
        r.blas_batches == batches.batches@.len(),
{
    let mut triangles: Vec<u64> = Vec::new();
    let mut j: usize = 0;
    while j < built.len()
        invariant
            j <= built@.len(),
            forall|k: int| 0 <= k < built@.len() ==> #[trigger] built@[k] < regions@.len(),
            triangles@.len() == j,
            forall|k: int| 0 <= k < j ==> #[trigger] triangles@[k] == triangles_of(regions@, built@)[k],
        decreases built@.len() - j,
    {
        assert(built@[j as int] < regions@.len());
        triangles.push(regions[built[j]].triangle_count);
        j += 1;
    }
    assert(triangles@ =~= triangles_of(regions@, built@));
    let top = top_bytes(regions.len() as u32);
    BuildStats {
        blas_count: built.len() as u64,
        triangles: total(triangles.as_slice()),
        blas_bytes: total(sizes),
        tlas_bytes,
        instance_bytes: top.0,
        table_bytes: top.1,
        accel_buffer_bytes: total(placed),
        instances: instances as u64,
        scratch_bytes: batches.scratch_bytes,
        blas_batches: batches.batches.len() as u64,
    }
}

proof fn lemma_row_words(row: RegionRef)
    ensures
        row.image().len() == 24,
        row.image().subrange(0, 4) == le32((row.quads % 4294967296) as u32),
        row.image().subrange(4, 8) == le32((row.quads / 4294967296) as u32),
        row.image().subrange(8, 12) == le32((row.tri_quad % 4294967296) as u32),
        row.image().subrange(12, 16) == le32((row.tri_quad / 4294967296) as u32),
        row.image().subrange(16, 20) == le32(row.quad_count),
        row.image().subrange(20, 24) == le32(row.tri_count),
{
    let b = row.image();
    assert(b.subrange(0, 4) =~= le32((row.quads % 4294967296) as u32));
    assert(b.subrange(4, 8) =~= le32((row.quads / 4294967296) as u32));
    assert(b.subrange(8, 12) =~= le32((row.tri_quad % 4294967296) as u32));
    assert(b.subrange(12, 16) =~= le32((row.tri_quad / 4294967296) as u32));
    assert(b.subrange(16, 20) =~= le32(row.quad_count));
    assert(b.subrange(20, 24) =~= le32(row.tri_count));
}

proof fn lemma_word_within(b: Seq<u8>, at: int, off: int)
    requires
        0 <= at,
        0 <= off <= 20,
        at + 24 <= b.len(),
    ensures
        b.subrange(at + off, at + off + 4) == b.subrange(at, at + 24).subrange(off, off + 4),
{
    assert(b.subrange(at + off, at + off + 4) =~= b.subrange(at, at + 24).subrange(off, off + 4));
}

/// Row `i` of the table reads back as the device addresses of the region's quads and of its triangles' quads, low word
/// first, and then the counts of both.
pub proof fn law_table_rows_name_their_region(rows: Seq<RegionRef>, n: nat, i: int, r: GpuRegion)
    requires
        0 <= i < n <= rows.len(),
        rows[i] == RegionRef::spec_of(r),
        r.address + r.sections.quads <= u64::MAX,
        r.address + r.sections.tri_quad <= u64::MAX,
        r.quad_count <= u32::MAX,
        r.triangle_count <= u32::MAX,
    ensures
        ({
            let b = table_image(rows, n);
            let word = |o: int| of_le32(b.subrange(24 * i + o, 24 * i + o + 4));
            &&& word(0) + 4294967296 * word(4) == r.address + r.sections.quads
            &&& word(8) + 4294967296 * word(12) == r.address + r.sections.tri_quad
            &&& word(16) == r.quad_count
            &&& word(20) == r.triangle_count
        }),
{
    law_table_holds_every_row(rows, n, i);
    let b = table_image(rows, n);
    let row = rows[i];
    assert(b.subrange(24 * i, 24 * i + 24) == row.image());
    lemma_row_words(row);
    lemma_word_within(b, 24 * i, 0);
    lemma_word_within(b, 24 * i, 4);
    lemma_word_within(b, 24 * i, 8);
    lemma_word_within(b, 24 * i, 12);
    lemma_word_within(b, 24 * i, 16);
    lemma_word_within(b, 24 * i, 20);
    law_le32_round_trips((row.quads % 4294967296) as u32);
    law_le32_round_trips((row.quads / 4294967296) as u32);
    law_le32_round_trips((row.tri_quad % 4294967296) as u32);
    law_le32_round_trips((row.tri_quad / 4294967296) as u32);
    law_le32_round_trips(row.quad_count);
    law_le32_round_trips(row.tri_count);
}

/// The top level lists every region in order but the one that is left out.
pub proof fn law_only_the_skipped_region_is_left_out(skip: Option<usize>, n: nat, i: int)
    ensures
        listed_below(skip, n).contains(i) <==> 0 <= i < n && !(skip matches Some(s) && s == i),
        forall|j: int, k: int| 0 <= j < k < listed_below(skip, n).len() ==> #[trigger] listed_below(skip, n)[j] < #[trigger] listed_below(skip, n)[k],
        forall|j: int| 0 <= j < listed_below(skip, n).len() ==> 0 <= #[trigger] listed_below(skip, n)[j] < n,
    decreases n,
{
    if n > 0 {
        law_only_the_skipped_region_is_left_out(skip, (n - 1) as nat, i);
        let before = listed_below(skip, (n - 1) as nat);
        let now = listed_below(skip, n);
        assert forall|j: int| 0 <= j < before.len() implies #[trigger] now[j] == before[j] by {}
        if before.contains(i) {
            let k = choose|k: int| 0 <= k < before.len() && before[k] == i;
            assert(now[k] == i);
        }
        if i == n - 1 && now.len() > before.len() {
            assert(now[before.len() as int] == i);
        }
        if now.contains(i) {
            let k = choose|k: int| 0 <= k < now.len() && now[k] == i;
            if k < before.len() {
                assert(before[k] == i);
            }
        }
    }
}

/// The first build of a batch starts at the start of the scratch, and every other one where the one in front of it ends.
pub open spec fn tight(scratch: Seq<u64>, a: int, b: Seq<(int, int)>) -> bool {
    &&& b.len() > 0
    &&& b[0].1 == 0
    &&& forall|k: int| 0 < k < b.len() ==> (#[trigger] b[k]).1 == end_of(scratch, a, b[k - 1])
}

/// A batch leaves no gap, and the next one begins only with a build that would have taken it past 32 MiB.
pub proof fn law_batches_are_filled_in_turn(scratch: Seq<u64>, a: int, top: int, n: nat)
    requires
        n <= scratch.len(),
        a > 0,
        top >= 0,
    ensures
        ({
            let b = batched(scratch, a, top, n);
            &&& forall|i: int| 0 <= i < b.batches.len() ==> tight(scratch, a, #[trigger] b.batches[i])
            &&& forall|i: int|
                0 < i < b.batches.len() ==> end_of(scratch, a, b.batches[i - 1].last()) + round_up(scratch[(#[trigger] b.batches[i])[0].0] as int, a)
                    > 32 * 1024 * 1024
            &&& b.batches.len() == 0 <==> n == 0
            &&& n > 0 ==> b.used == end_of(scratch, a, b.batches.last().last())
        }),
    decreases n,
{
    if n > 0 {
        law_batches_are_filled_in_turn(scratch, a, top, (n - 1) as nat);
        let b = batched(scratch, a, top, (n - 1) as nat);
        let c = batched(scratch, a, top, n);
        let own = round_up(scratch[n - 1] as int, a);
        if c.batches.len() > b.batches.len() {
            let fresh = b.batches.len() as int;
            assert(c.batches[fresh] == seq![(n - 1, 0int)]);
            assert forall|i: int| 0 <= i < c.batches.len() implies tight(scratch, a, #[trigger] c.batches[i]) by {
                if i < fresh {
                    assert(c.batches[i] == b.batches[i]);
                }
            }
            assert forall|i: int| 0 < i < c.batches.len() implies end_of(scratch, a, c.batches[i - 1].last()) + round_up(
                scratch[(#[trigger] c.batches[i])[0].0] as int,
                a,
            ) > 32 * 1024 * 1024 by {
                assert(c.batches[i - 1] == b.batches[i - 1]);
                if i < fresh {
                    assert(c.batches[i] == b.batches[i]);
                }
            }
        } else {
            let last = b.batches.len() - 1;
            let grown = b.batches[last].push((n - 1, b.used));
            assert(c.batches[last] == grown);
            assert(tight(scratch, a, b.batches[last]));
            assert forall|k: int| 0 < k < grown.len() implies (#[trigger] grown[k]).1 == end_of(scratch, a, grown[k - 1]) by {
                if k < grown.len() - 1 {
                    assert(b.batches[last][k].1 == end_of(scratch, a, b.batches[last][k - 1]));
                }
            }
            assert forall|i: int| 0 <= i < c.batches.len() implies tight(scratch, a, #[trigger] c.batches[i]) by {
                if i < last {
                    assert(c.batches[i] == b.batches[i]);
                }
            }
            assert forall|i: int| 0 < i < c.batches.len() implies end_of(scratch, a, c.batches[i - 1].last()) + round_up(
                scratch[(#[trigger] c.batches[i])[0].0] as int,
                a,
            ) > 32 * 1024 * 1024 by {
                assert(c.batches[i - 1] == b.batches[i - 1]);
                assert(c.batches[i][0] == b.batches[i][0]);
                assert(b.batches[i] == b.batches[i]);
            }
        }
    }
}

/// The scratch is no larger than it must be: the top level or some build needs it to its end.
pub proof fn law_scratch_is_no_larger_than_needed(scratch: Seq<u64>, a: int, top: int, n: nat)
    requires
        n <= scratch.len(),
        a > 0,
        top >= 0,
    ensures
        ({
            let b = batched(scratch, a, top, n);
            ||| b.need == round_up(top, a)
            ||| exists|i: int, k: int|
                0 <= i < b.batches.len() && 0 <= k < b.batches[i].len() && b.need == end_of(scratch, a, #[trigger] b.batches[i][k])
        }),
    decreases n,
{
    if n > 0 {
        law_scratch_is_no_larger_than_needed(scratch, a, top, (n - 1) as nat);
        law_batches_are_filled_in_turn(scratch, a, top, (n - 1) as nat);
        law_batches_are_filled_in_turn(scratch, a, top, n);
        let b = batched(scratch, a, top, (n - 1) as nat);
        let c = batched(scratch, a, top, n);
        if c.need == b.need {
            if b.need != round_up(top, a) {
                let (i, k) = choose|i: int, k: int|
                    0 <= i < b.batches.len() && 0 <= k < b.batches[i].len() && b.need == end_of(scratch, a, #[trigger] b.batches[i][k]);
                assert(c.batches[i][k] == b.batches[i][k]);
            }
        } else {
            let last = c.batches.len() - 1;
            let k = c.batches[last].len() - 1;
            assert(c.need == c.used);
            assert(c.need == end_of(scratch, a, c.batches[last][k]));
        }
    }
}

} // verus!
