//! The device copy of one published snapshot, updated by edits.
//!
//! - A [`Scene`] shows exactly one published snapshot at a time.
//! - Edit path: the brick keys a publication changed, [`affected_regions`], those regions' meshes
//!   rebuilt from the new snapshot ([`region_meshes`]), then an update: the fresh regions go into
//!   new buffers, and the scene swaps to them.
//! - Coherence: the swap is made final only after every new resource was granted and built. On a
//!   refusal the update is rolled back, the scene stays on the previous snapshot, and a deferral is
//!   counted.
use crate::derived::mesh::{mesh_quads, BrickMesh, Local, Merge, Quad};
use crate::derived::pipeline::Pipeline;
use crate::derived::store::{ReadError, ReaderToken};
use crate::derived::coverage::{law_mesh_area_is_bounded, law_mesh_quads_are_well_formed};
use crate::derived::surface::total_area;
use crate::derived::triangles::{all_vertices, lemma_vertex_count, Split};
use crate::gpu::accel::buildable;
use crate::gpu::layout::{
    brick_order, build_regions, groupable, grouped, has_brick, is_region, mesh_vertices, total_vertices, RegionKey, RegionMesh,
    RegionSize,
};
use crate::gpu::regions::{
    lemma_with_all, lemma_without, lists, law_putting_back_restores, put_regions, take_regions, taken, with_all, without, RegionSet,
};
use crate::sorted::{Key, SortedMap};
use crate::world::{brick_range, BrickKey, VoxelCoord, BRICK_EDGE};
use vstd::prelude::*;

verus! {

/// Planted faults for negative controls. `Default` is correct.
#[derive(Clone, Copy, Debug, PartialEq, Eq)]
pub struct SceneFaults {
    /// This region is left out of every update (a missed-dirty bug).
    pub skip_region: Option<RegionKey>,
    /// Replaced resources are freed at the swap instead of after retirement (a lifetime bug).
    pub free_at_swap: bool,
}

impl Default for SceneFaults {
    fn default() -> (r: SceneFaults)
        ensures
            r.skip_region is None,
            !r.free_at_swap,
    {
        SceneFaults { skip_region: None, free_at_swap: false }
    }
}

/// The regions that hold the bricks of `keys`.
pub open spec fn regions_of(keys: Seq<BrickKey>, size: RegionSize, n: int) -> Set<RegionKey> {
    Set::new(|r: RegionKey| exists|i: int| 0 <= i < n && RegionKey::spec_of(#[trigger] keys[i], size) == r)
}

/// The regions containing `keys`.
pub fn affected_regions(keys: &[BrickKey], size: RegionSize) -> (r: RegionSet)
    requires
        forall|i: int| 0 <= i < keys@.len() ==> (#[trigger] keys@[i]).wf(),
    ensures
        r.wf(),
        r@.dom() == regions_of(keys@, size, keys@.len() as int),
{
    let mut out: RegionSet = SortedMap::new();
    let mut i: usize = 0;
    assert(out@.dom() =~= regions_of(keys@, size, 0));
    while i < keys.len()
        invariant
            i <= keys@.len(),
            forall|j: int| 0 <= j < keys@.len() ==> (#[trigger] keys@[j]).wf(),
            out.wf(),
            out@.dom() == regions_of(keys@, size, i as int),
        decreases keys@.len() - i,
    {
        assert(keys@[i as int].wf());
        let ghost before = out@.dom();
        let k = RegionKey::of(keys[i], size);
        out.insert(k, ());
        proof {
            assert forall|x: RegionKey| out@.dom().contains(x) == regions_of(keys@, size, i + 1).contains(x) by {
                if before.contains(x) {
                    let j = choose|j: int| 0 <= j < i && RegionKey::spec_of(#[trigger] keys@[j], size) == x;
                    assert(RegionKey::spec_of(keys@[j], size) == x);
                }
                if x == k {
                    assert(RegionKey::spec_of(keys@[i as int], size) == x);
                }
                if regions_of(keys@, size, i + 1).contains(x) && x != k {
                    let j = choose|j: int| 0 <= j < i + 1 && RegionKey::spec_of(#[trigger] keys@[j], size) == x;
                    assert(j < i);
                    assert(before.contains(x));
                }
            }
            assert(out@.dom() =~= regions_of(keys@, size, i + 1));
        }
        i += 1;
    }
    out
}

/// How far brick `n` of a region lies from the region's first: x runs first, then y, then z.
pub open spec fn step_to(size: RegionSize, n: int) -> (int, int, int) {
    match size {
        RegionSize::Brick => (0, 0, n),
        RegionSize::Bricks2 => (n % 2, n / 2 % 2, n / 4),
        RegionSize::Chunk => (n % 4, n / 4 % 4, n / 16),
        RegionSize::Chunks2 => (n % 8, n / 8 % 8, n / 64),
    }
}

/// Brick `n` of a region.
pub open spec fn brick_at(r: RegionKey, size: RegionSize, n: int) -> BrickKey {
    let e = size.spec_bricks();
    let s = step_to(size, n);
    BrickKey { x: (r.x * e + s.0) as i32, y: (r.y * e + s.1) as i32, z: (r.z * e + s.2) as i32 }
}

/// Bricks in a region.
pub open spec fn brick_count(size: RegionSize) -> int {
    match size {
        RegionSize::Brick => 1,
        RegionSize::Bricks2 => 8,
        RegionSize::Chunk => 64,
        RegionSize::Chunks2 => 512,
    }
}

/// One axis of a region: its bricks lie behind one another from its first.
proof fn lemma_axis(c: int, size: RegionSize, s: int)
    requires
        i32::MIN <= c * size.spec_voxels() <= i32::MAX,
        0 <= s < size.spec_bricks(),
    ensures
        -0x1000_0000 <= c * size.spec_bricks() + s < 0x1000_0000,
        (c * size.spec_bricks() + s) / size.spec_bricks() == c,
        i32::MIN <= c * size.spec_voxels() + 8 * s <= i32::MAX,
        (c * size.spec_voxels() + 8 * s) / 8 == c * size.spec_bricks() + s,
{
    let e = size.spec_bricks();
    let v = size.spec_voxels();
    assert(c * v == 8 * (c * e)) by (nonlinear_arith)
        requires
            v == 8 * e,
    ;
    vstd::arithmetic::div_mod::lemma_fundamental_div_mod_converse(c * e + s, e, c, s);
    match size {
        RegionSize::Brick => {
            assert(c * e == c) by (nonlinear_arith)
                requires
                    e == 1,
            ;
        },
        RegionSize::Bricks2 => {
            assert(c * e == 2 * c) by (nonlinear_arith)
                requires
                    e == 2,
            ;
        },
        RegionSize::Chunk => {
            assert(c * e == 4 * c) by (nonlinear_arith)
                requires
                    e == 4,
            ;
        },
        RegionSize::Chunks2 => {
            assert(c * e == 8 * c) by (nonlinear_arith)
                requires
                    e == 8,
            ;
        },
    }
}

proof fn lemma_brick_at(r: RegionKey, size: RegionSize, n: int)
    requires
        r.fits(size),
        0 <= n < brick_count(size),
    ensures
        ({
            let e = size.spec_bricks();
            let s = step_to(size, n);
            &&& 0 <= s.0 < e
            &&& 0 <= s.1 < e
            &&& 0 <= s.2 < e
            &&& brick_at(r, size, n).wf()
            &&& brick_at(r, size, n).x == r.x * e + s.0
            &&& brick_at(r, size, n).y == r.y * e + s.1
            &&& brick_at(r, size, n).z == r.z * e + s.2
            &&& RegionKey::spec_of(brick_at(r, size, n), size) == r
        }),
{
    let s = step_to(size, n);
    lemma_axis(r.x as int, size, s.0);
    lemma_axis(r.y as int, size, s.1);
    lemma_axis(r.z as int, size, s.2);
}

/// The place of a step among a region's bricks.
pub open spec fn place_of(size: RegionSize, s: (int, int, int)) -> int {
    match size {
        RegionSize::Brick => s.2,
        RegionSize::Bricks2 => s.0 + 2 * s.1 + 4 * s.2,
        RegionSize::Chunk => s.0 + 4 * s.1 + 16 * s.2,
        RegionSize::Chunks2 => s.0 + 8 * s.1 + 64 * s.2,
    }
}

/// A region's bricks are those that fall into it, each at one place.
pub proof fn law_region_bricks_are_its_bricks(r: RegionKey, size: RegionSize, b: BrickKey)
    requires
        r.fits(size),
        b.wf(),
        RegionKey::spec_of(b, size) == r,
    ensures
        ({
            let e = size.spec_bricks();
            let n = place_of(size, (b.x - r.x * e, b.y - r.y * e, b.z - r.z * e));
            &&& 0 <= n < brick_count(size)
            &&& brick_at(r, size, n) == b
            &&& forall|m: int| 0 <= m < brick_count(size) && #[trigger] brick_at(r, size, m) == b ==> m == n
        }),
{
    let e = size.spec_bricks();
    let s = (b.x - r.x * e, b.y - r.y * e, b.z - r.z * e);
    let n = place_of(size, s);
    lemma_remainder(b.x as int, size);
    lemma_remainder(b.y as int, size);
    lemma_remainder(b.z as int, size);
    assert(step_to(size, n) == s);
    assert forall|m: int| 0 <= m < brick_count(size) && #[trigger] brick_at(r, size, m) == b implies m == n by {
        lemma_brick_at(r, size, m);
    }
}

proof fn lemma_remainder(b: int, size: RegionSize)
    requires
        brick_range(b),
    ensures
        0 <= b - (b / size.spec_bricks()) * size.spec_bricks() < size.spec_bricks(),
        i32::MIN <= b / size.spec_bricks() <= i32::MAX,
{
    let e = size.spec_bricks();
    vstd::arithmetic::div_mod::lemma_fundamental_div_mod(b, e);
    vstd::arithmetic::div_mod::lemma_mod_bound(b, e);
    let q = b / e;
    assert(e * q == q * e) by (nonlinear_arith);
    match size {
        RegionSize::Brick => {},
        RegionSize::Bricks2 => {},
        RegionSize::Chunk => {},
        RegionSize::Chunks2 => {},
    }
}

/// Every brick key inside region `r`.
pub fn region_bricks(r: RegionKey, size: RegionSize) -> (b: Vec<BrickKey>)
    requires
        r.fits(size),
    ensures
        b@.len() == brick_count(size),
        forall|n: int| 0 <= n < b@.len() ==> #[trigger] b@[n] == brick_at(r, size, n),
{
    let o = r.origin(size);
    let count: i32 = match size {
        RegionSize::Brick => 1,
        RegionSize::Bricks2 => 8,
        RegionSize::Chunk => 64,
        RegionSize::Chunks2 => 512,
    };
    let mut out: Vec<BrickKey> = Vec::new();
    let mut n: i32 = 0;
    while n < count
        invariant
            0 <= n <= count == brick_count(size),
            r.fits(size),
            o == r.spec_origin(size),
            out@.len() == n,
            forall|m: int| 0 <= m < n ==> #[trigger] out@[m] == brick_at(r, size, m),
        decreases count - n,
    {
        proof {
            lemma_brick_at(r, size, n as int);
            lemma_brick_voxel(r, size, n as int);
        }
        let (x, y, z): (i32, i32, i32) = match size {
            RegionSize::Brick => (0, 0, n),
            RegionSize::Bricks2 => (n % 2, n / 2 % 2, n / 4),
            RegionSize::Chunk => (n % 4, n / 4 % 4, n / 16),
            RegionSize::Chunks2 => (n % 8, n / 8 % 8, n / 64),
        };
        let v = VoxelCoord::new(o.x + x * BRICK_EDGE, o.y + y * BRICK_EDGE, o.z + z * BRICK_EDGE);
        out.push(v.split().0);
        n += 1;
    }
    out
}

proof fn lemma_brick_voxel(r: RegionKey, size: RegionSize, n: int)
    requires
        r.fits(size),
        0 <= n < brick_count(size),
    ensures
        ({
            let o = r.spec_origin(size);
            let s = step_to(size, n);
            let v = VoxelCoord { x: (o.x + 8 * s.0) as i32, y: (o.y + 8 * s.1) as i32, z: (o.z + 8 * s.2) as i32 };
            &&& i32::MIN <= o.x + 8 * s.0 <= i32::MAX
            &&& i32::MIN <= o.y + 8 * s.1 <= i32::MAX
            &&& i32::MIN <= o.z + 8 * s.2 <= i32::MAX
            &&& v.key() == brick_at(r, size, n)
        }),
{
    let s = step_to(size, n);
    lemma_brick_at(r, size, n);
    lemma_axis(r.x as int, size, s.0);
    lemma_axis(r.y as int, size, s.1);
    lemma_axis(r.z as int, size, s.2);
}

/// What reading `key` through `token` gives.
pub open spec fn reading(p: &Pipeline, token: &ReaderToken, key: BrickKey) -> Result<Option<BrickMesh>, ReadError> {
    let store = p.spec_store();
    let held = store.holding()[token.id.number];
    if !store.holding().dom().contains(token.id.number) {
        Err(ReadError::UnknownReader)
    } else if !store.has(held, key) {
        Ok(None)
    } else {
        match store.seen(held, key) {
            Some(m) => Ok(Some(m)),
            None => Err(ReadError::Dangling { key }),
        }
    }
}

/// At most as many quads as a brick has voxel faces, each a rectangle.
pub open spec fn sound_quads(q: Seq<Quad>) -> bool {
    q.len() <= 3072 && forall|i: int| 0 <= i < q.len() ==> (#[trigger] q[i]).rectangle()
}

/// Extracted meshes are sound.
pub proof fn law_extracted_meshes_are_sound(occ: Local, merge: Merge)
    ensures
        sound_quads(mesh_quads(occ, merge)),
{
    let q = mesh_quads(occ, merge);
    law_mesh_area_is_bounded(occ, merge);
    assert forall|i: int| 0 <= i < q.len() implies (#[trigger] q[i]).rectangle() && q[i].spec_area() >= 1 by {
        law_mesh_quads_are_well_formed(occ, merge, i);
        let (a, b) = (q[i].u1 - q[i].u0, q[i].v1 - q[i].v0);
        assert(a * b >= 1) by (nonlinear_arith)
            requires
                a >= 1,
                b >= 1,
        ;
    }
    lemma_area_counts(q, q.len());
}

proof fn lemma_area_counts(q: Seq<Quad>, n: nat)
    requires
        n <= q.len(),
        forall|i: int| 0 <= i < q.len() ==> (#[trigger] q[i]).spec_area() >= 1,
    ensures
        n <= total_area(q, n),
    decreases n,
{
    if n > 0 {
        lemma_area_counts(q, (n - 1) as nat);
        assert(q[n - 1].spec_area() >= 1);
    }
}

/// Every mesh the reader can read is sound.
pub open spec fn reads_sound_meshes(p: &Pipeline, token: &ReaderToken) -> bool {
    forall|k: BrickKey| (#[trigger] reading(p, token, k)) matches Ok(Some(m)) ==> sound_quads(m.quads@)
}

/// The first `n` bricks of a region can be read.
pub open spec fn readable(p: &Pipeline, token: &ReaderToken, r: RegionKey, size: RegionSize, n: int) -> bool {
    forall|i: int| 0 <= i < n ==> reading(p, token, #[trigger] brick_at(r, size, i)) is Ok
}

/// The meshes that the reader sees among the first `n` bricks of a region.
pub open spec fn meshes_seen<'a>(p: &'a Pipeline, token: &ReaderToken, r: RegionKey, size: RegionSize, n: nat) -> Seq<(BrickKey, &'a BrickMesh)>
    decreases n,
{
    if n == 0 {
        Seq::empty()
    } else {
        let before = meshes_seen(p, token, r, size, (n - 1) as nat);
        let k = brick_at(r, size, n - 1);
        match reading(p, token, k) {
            Ok(Some(m)) => before.push((k, &m)),
            _ => before,
        }
    }
}

/// `m` is what the meshes `ms` make of region `r`; `None` where they have no quads.
pub open spec fn makes_region(ms: Seq<(BrickKey, &BrickMesh)>, r: RegionKey, size: RegionSize, m: Option<RegionMesh>) -> bool {
    exists|ord: Seq<usize>| #[trigger]
        brick_order(ms, ord) && match m {
            Some(x) => has_brick(ms, ord, ord.len() as int, r, size) && is_region(x, ms, ord, ord.len(), r, size, Split::Watertight),
            None => !has_brick(ms, ord, ord.len() as int, r, size),
        }
}

/// Reading region by region and brick by brick, the first failure is `e`.
pub open spec fn first_failure(p: &Pipeline, token: &ReaderToken, ks: Seq<RegionKey>, size: RegionSize, e: ReadError) -> bool {
    exists|i: int, n: int| #[trigger] fails_at(p, token, ks, size, i, n, e)
}

pub open spec fn fails_at(p: &Pipeline, token: &ReaderToken, ks: Seq<RegionKey>, size: RegionSize, i: int, n: int, e: ReadError) -> bool {
    &&& 0 <= i < ks.len() && 0 <= n < brick_count(size)
    &&& forall|j: int| 0 <= j < i ==> readable(p, token, #[trigger] ks[j], size, brick_count(size))
    &&& readable(p, token, ks[i], size, n)
    &&& reading(p, token, brick_at(ks[i], size, n)) == Err::<Option<BrickMesh>, ReadError>(e)
}

proof fn lemma_seen_groupable(p: &Pipeline, token: &ReaderToken, r: RegionKey, size: RegionSize, n: nat)
    requires
        r.fits(size),
        n <= brick_count(size),
        reads_sound_meshes(p, token),
    ensures
        meshes_seen(p, token, r, size, n).len() <= n,
        forall|i: int|
            0 <= i < meshes_seen(p, token, r, size, n).len() ==> (#[trigger] meshes_seen(p, token, r, size, n)[i]).0.wf() && sound_quads(
                meshes_seen(p, token, r, size, n)[i].1.quads@,
            ) && RegionKey::spec_of(meshes_seen(p, token, r, size, n)[i].0, size) == r,
    decreases n,
{
    if n > 0 {
        lemma_seen_groupable(p, token, r, size, (n - 1) as nat);
        lemma_brick_at(r, size, n - 1);
    }
}

proof fn lemma_total_vertices(ms: Seq<(BrickKey, &BrickMesh)>, n: nat)
    requires
        n <= ms.len(),
        forall|i: int| 0 <= i < ms.len() ==> sound_quads((#[trigger] ms[i]).1.quads@),
    ensures
        total_vertices(ms, Split::Watertight, n) <= 101376 * n,
    decreases n,
{
    if n > 0 {
        lemma_total_vertices(ms, (n - 1) as nat);
        let q = ms[n - 1].1.quads@;
        assert(sound_quads(q));
        lemma_vertex_count(q, Split::Watertight, q.len());
        assert(mesh_vertices(ms, Split::Watertight, n - 1) == all_vertices(q, Split::Watertight, q.len()).len());
    }
}

/// Rebuilds region `r` from the snapshot `token` reads.
fn region_mesh(p: &Pipeline, token: &ReaderToken, r: RegionKey, size: RegionSize) -> (res: Result<Option<RegionMesh>, ReadError>)
    requires
        p.wf(),
        r.fits(size),
        reads_sound_meshes(p, token),
    ensures
        match res {
            Ok(m) => readable(p, token, r, size, brick_count(size)) && makes_region(
                meshes_seen(p, token, r, size, brick_count(size) as nat),
                r,
                size,
                m,
            ),
            Err(e) => exists|n: int| #[trigger] fails_at(p, token, seq![r], size, 0, n, e),
        },
{
    let keys = region_bricks(r, size);
    let mut bricks: Vec<(BrickKey, &BrickMesh)> = Vec::new();
    let mut n: usize = 0;
    assert(bricks@ =~= meshes_seen(p, token, r, size, 0));
    while n < keys.len()
        invariant
            n <= keys@.len() == brick_count(size),
            p.wf(),
            forall|i: int| 0 <= i < keys@.len() ==> #[trigger] keys@[i] == brick_at(r, size, i),
            readable(p, token, r, size, n as int),
            bricks@ == meshes_seen(p, token, r, size, n as nat),
        decreases keys@.len() - n,
    {
        let k = keys[n];
        assert(k == brick_at(r, size, n as int));
        match p.read(token, k) {
            Err(e) => {
                assert(reading(p, token, k) == Err::<Option<BrickMesh>, ReadError>(e));
                assert(fails_at(p, token, seq![r], size, 0, n as int, e));
                return Err(e);
            },
            Ok(None) => {
                assert(reading(p, token, k) == Ok::<Option<BrickMesh>, ReadError>(None));
            },
            Ok(Some(m)) => {
                assert(reading(p, token, k) == Ok::<Option<BrickMesh>, ReadError>(Some(*m)));
                bricks.push((k, m));
            },
        }
        n += 1;
    }
    let ghost ms = meshes_seen(p, token, r, size, brick_count(size) as nat);
    proof {
        lemma_seen_groupable(p, token, r, size, brick_count(size) as nat);
        assert forall|i: int| 0 <= i < ms.len() implies sound_quads((#[trigger] ms[i]).1.quads@) && ms[i].0.wf() by {
        }
        lemma_total_vertices(ms, ms.len());
        assert(brick_count(size) <= 512) by {
            match size {
                RegionSize::Brick => {},
                RegionSize::Bricks2 => {},
                RegionSize::Chunk => {},
                RegionSize::Chunks2 => {},
            }
        }
        assert forall|i: int, j: int| 0 <= i < ms.len() && 0 <= j < ms[i].1.quads@.len() implies (#[trigger] ms[i].1.quads@[j]).rectangle() by {
            assert(sound_quads(ms[i].1.quads@));
        }
        assert(groupable(ms, Split::Watertight));
    }
    let mut built = build_regions(&bricks, size);
    let m = built.remove(&r);
    proof {
        let ord = choose|ord: Seq<usize>| #[trigger] brick_order(ms, ord) && grouped(old_map(built@, r, m), ms, ord, ord.len(), size, Split::Watertight);
        assert(makes_region(ms, r, size, m));
    }
    Ok(m)
}

/// The map before `r` was taken out of it.
spec fn old_map(after: Map<RegionKey, RegionMesh>, r: RegionKey, m: Option<RegionMesh>) -> Map<RegionKey, RegionMesh> {
    match m {
        Some(x) => after.insert(r, x),
        None => after,
    }
}

/// Every region of `ks` was rebuilt as the reader sees it.
pub open spec fn rebuilt(p: &Pipeline, token: &ReaderToken, out: Map<RegionKey, Option<RegionMesh>>, size: RegionSize) -> bool {
    forall|r: RegionKey| #[trigger]
        out.dom().contains(r) ==> readable(p, token, r, size, brick_count(size)) && makes_region(
            meshes_seen(p, token, r, size, brick_count(size) as nat),
            r,
            size,
            out[r],
        )
}

/// Rebuilds each of `regions` from the snapshot `token` reads. `None`: the region has no quads now.
pub fn region_meshes(p: &Pipeline, token: &ReaderToken, regions: &RegionSet, size: RegionSize) -> (res: Result<
    SortedMap<RegionKey, Option<RegionMesh>>,
    ReadError,
>)
    requires
        p.wf(),
        regions.wf(),
        forall|r: RegionKey| #[trigger] regions@.dom().contains(r) ==> r.fits(size),
        reads_sound_meshes(p, token),
    ensures
        match res {
            Ok(out) => out.wf() && out@.dom() == regions@.dom() && rebuilt(p, token, out@, size),
            Err(e) => first_failure(p, token, regions.keys(), size, e),
        },
{
    let mut out: SortedMap<RegionKey, Option<RegionMesh>> = SortedMap::new();
    let ghost ks = regions.keys();
    let n: usize = regions.len();
    let mut i: usize = 0;
    while i < n
        invariant
            i <= n == ks.len(),
            ks == regions.keys(),
            p.wf(),
            regions.wf(),
            forall|r: RegionKey| #[trigger] regions@.dom().contains(r) ==> r.fits(size),
            reads_sound_meshes(p, token),
            out.wf(),
            forall|r: RegionKey| #[trigger] out@.dom().contains(r) <==> exists|j: int| 0 <= j < i && #[trigger] ks[j] == r,
            rebuilt(p, token, out@, size),
            forall|j: int| 0 <= j < i ==> readable(p, token, #[trigger] ks[j], size, brick_count(size)),
        decreases n - i,
    {
        let r = regions.key_at(i);
        proof {
            regions.lemma_order();
            assert(regions@.dom().contains(r));
        }
        match region_mesh(p, token, r, size) {
            Err(e) => {
                proof {
                    let m = choose|m: int| #[trigger] fails_at(p, token, seq![r], size, 0, m, e);
                    assert(seq![r][0] == r);
                    assert(fails_at(p, token, ks, size, i as int, m, e));
                }
                return Err(e);
            },
            Ok(m) => {
                let ghost before = out@;
                out.insert(r, m);
                proof {
                    assert forall|x: RegionKey| #[trigger] out@.dom().contains(x) implies readable(p, token, x, size, brick_count(size)) && makes_region(
                        meshes_seen(p, token, x, size, brick_count(size) as nat),
                        x,
                        size,
                        out@[x],
                    ) by {
                        if x != r {
                            assert(before.dom().contains(x));
                        }
                    }
                    assert forall|x: RegionKey| #[trigger] out@.dom().contains(x) <==> exists|j: int| 0 <= j < i + 1 && #[trigger] ks[j] == x by {
                        if x == r {
                            assert(ks[i as int] == r);
                        }
                    }
                }
            },
        }
        i += 1;
    }
    proof {
        regions.lemma_order();
        assert forall|r: RegionKey| out@.dom().contains(r) == regions@.dom().contains(r) by {
            if regions@.dom().contains(r) {
                assert(ks.contains(r));
            }
        }
        assert(out@.dom() =~= regions@.dom());
    }
    Ok(out)
}

/// What an update is to do.
pub struct Plan {
    /// The regions in the change set.
    pub keys: RegionSet,
    /// The regions that have quads now, with their meshes, in order.
    pub fresh: Vec<(RegionKey, RegionMesh)>,
    /// Regions in the change set, uploaded, and removed (now empty).
    pub regions_changed: usize,
    pub regions_uploaded: usize,
    pub regions_removed: usize,
}

/// The change set without the region that a planted fault leaves out.
pub open spec fn change_set(changed: Map<RegionKey, Option<RegionMesh>>, faults: SceneFaults) -> Map<RegionKey, Option<RegionMesh>> {
    match faults.skip_region {
        Some(k) => changed.remove(k),
        None => changed,
    }
}

/// Of the first `n` regions of `ks`, those that have quads now.
pub open spec fn fresh_of(changed: Map<RegionKey, Option<RegionMesh>>, ks: Seq<RegionKey>, n: nat) -> Seq<(RegionKey, RegionMesh)>
    decreases n,
{
    if n == 0 {
        Seq::empty()
    } else {
        let before = fresh_of(changed, ks, (n - 1) as nat);
        match changed[ks[n - 1]] {
            Some(m) => before.push((ks[n - 1], m)),
            None => before,
        }
    }
}

/// Of the first `n` regions of `ks`, how many had quads and have none now.
pub open spec fn removed_of<R>(changed: Map<RegionKey, Option<RegionMesh>>, shown: Map<RegionKey, R>, ks: Seq<RegionKey>, n: nat) -> nat
    decreases n,
{
    if n == 0 {
        0
    } else {
        removed_of(changed, shown, ks, (n - 1) as nat) + if changed[ks[n - 1]] is None && shown.dom().contains(ks[n - 1]) {
            1nat
        } else {
            0nat
        }
    }
}

/// The device copy of one snapshot: what each region is shown by.
pub struct Scene<R> {
    regions: SortedMap<RegionKey, R>,
    snapshot: u64,
    built_at: SortedMap<RegionKey, u64>,
    updates: u64,
    deferred: u64,
    faults: SceneFaults,
}

impl<R> Scene<R> {
    /// The regions shown.
    pub closed spec fn shown(&self) -> Map<RegionKey, R> {
        self.regions@
    }

    /// The snapshot shown.
    pub closed spec fn spec_snapshot(&self) -> u64 {
        self.snapshot
    }

    /// For each region the snapshot it was last built from.
    pub closed spec fn versions(&self) -> Map<RegionKey, u64> {
        self.built_at@
    }

    pub closed spec fn spec_updates(&self) -> u64 {
        self.updates
    }

    pub closed spec fn spec_deferred(&self) -> u64 {
        self.deferred
    }

    /// The planted faults.
    pub closed spec fn spec_faults(&self) -> SceneFaults {
        self.faults
    }

    /// The regions in index order.
    pub closed spec fn order(&self) -> Seq<RegionKey> {
        self.regions.keys()
    }

    pub closed spec fn wf(&self) -> bool {
        self.regions.wf() && self.built_at.wf()
    }

    /// No update is under way: every region shown has a version, and no other has.
    pub open spec fn settled(&self) -> bool {
        self.wf() && self.shown().dom() == self.versions().dom()
    }

    /// A scene of `regions`, all built from `snapshot`.
    pub fn build(regions: SortedMap<RegionKey, R>, snapshot: u64) -> (r: Scene<R>)
        requires
            regions.wf(),
        ensures
            r.settled(),
            r.shown() == regions@,
            r.spec_snapshot() == snapshot,
            forall|k: RegionKey| #[trigger] r.versions().dom().contains(k) ==> r.versions()[k] == snapshot,
            r.spec_updates() == 0,
            r.spec_deferred() == 0,
            r.spec_faults().skip_region is None && !r.spec_faults().free_at_swap,
    {
        let mut built_at: SortedMap<RegionKey, u64> = SortedMap::new();
        let n: usize = regions.len();
        let mut i: usize = 0;
        while i < n
            invariant
                i <= n == regions.keys().len(),
                regions.wf(),
                built_at.wf(),
                forall|k: RegionKey| #[trigger]
                    built_at@.dom().contains(k) <==> exists|j: int| 0 <= j < i && #[trigger] regions.keys()[j] == k,
                forall|k: RegionKey| #[trigger] built_at@.dom().contains(k) ==> built_at@[k] == snapshot,
            decreases n - i,
        {
            built_at.insert(regions.key_at(i), snapshot);
            i += 1;
        }
        proof {
            regions.lemma_order();
            assert forall|k: RegionKey| regions@.dom().contains(k) == built_at@.dom().contains(k) by {
                if regions@.dom().contains(k) {
                    assert(regions.keys().contains(k));
                }
            }
        }
        let r = Scene { regions, snapshot, built_at, updates: 0, deferred: 0, faults: SceneFaults { skip_region: None, free_at_swap: false } };
        assert(r.shown().dom() =~= r.versions().dom());
        r
    }

    pub fn snapshot(&self) -> (r: u64)
        ensures
            r == self.spec_snapshot(),
    {
        self.snapshot
    }

    pub fn updates(&self) -> (r: u64)
        ensures
            r == self.spec_updates(),
    {
        self.updates
    }

    /// Updates refused (the previous snapshot stayed visible).
    pub fn deferred(&self) -> (r: u64)
        ensures
            r == self.spec_deferred(),
    {
        self.deferred
    }

    pub fn faults(&self) -> (r: SceneFaults)
        ensures
            r == self.spec_faults(),
    {
        self.faults
    }

    /// Plants faults.
    pub fn plant(&mut self, faults: SceneFaults)
        requires
            old(self).wf(),
        ensures
            final(self).wf(),
            final(self).shown() == old(self).shown(),
            final(self).order() == old(self).order(),
            final(self).versions() == old(self).versions(),
            final(self).spec_snapshot() == old(self).spec_snapshot(),
            final(self).spec_updates() == old(self).spec_updates(),
            final(self).spec_deferred() == old(self).spec_deferred(),
            final(self).spec_faults() == faults,
    {
        self.faults = faults;
    }

    pub fn regions(&self) -> (r: &SortedMap<RegionKey, R>)
        ensures
            r@ == self.shown(),
            r.keys() == self.order(),
            self.wf() ==> r.wf(),
    {
        &self.regions
    }

    /// What `changed` asks of the scene.
    pub fn plan(&self, changed: SortedMap<RegionKey, Option<RegionMesh>>) -> (r: Plan)
        requires
            self.wf(),
            changed.wf(),
        ensures
            r.keys.wf(),
            ({
                let c = change_set(changed@, self.spec_faults());
                let ks = r.keys.keys();
                &&& r.keys@.dom() == c.dom()
                &&& r.fresh@ == fresh_of(c, ks, ks.len())
                &&& r.regions_changed == ks.len()
                &&& r.regions_uploaded == r.fresh@.len()
                &&& r.regions_removed == removed_of(c, self.shown(), ks, ks.len())
            }),
    {
        let mut rest = changed;
        if let Some(k) = self.faults.skip_region {
            rest.remove(&k);
        }
        let ghost c = change_set(changed@, self.faults);
        assert(rest@ =~= c);
        let mut keys: RegionSet = SortedMap::new();
        let m: usize = rest.len();
        let mut i: usize = 0;
        while i < m
            invariant
                i <= m == rest.keys().len(),
                rest.wf(),
                keys.wf(),
                forall|k: RegionKey| #[trigger] keys@.dom().contains(k) <==> exists|j: int| 0 <= j < i && #[trigger] rest.keys()[j] == k,
            decreases m - i,
        {
            keys.insert(rest.key_at(i), ());
            i += 1;
        }
        proof {
            rest.lemma_order();
            assert forall|k: RegionKey| keys@.dom().contains(k) == c.dom().contains(k) by {
                if c.dom().contains(k) {
                    assert(rest.keys().contains(k));
                }
            }
            assert(keys@.dom() =~= c.dom());
        }
        let ghost ks = keys.keys();
        let mut fresh: Vec<(RegionKey, RegionMesh)> = Vec::new();
        let mut removed: usize = 0;
        let n: usize = keys.len();
        let mut i: usize = 0;
        while i < n
            invariant
                i <= n == ks.len(),
                ks == keys.keys(),
                keys.wf(),
                keys@.dom() == c.dom(),
                rest.wf(),
                self.wf(),
                rest@ == without(c, ks, i as nat),
                fresh@ == fresh_of(c, ks, i as nat),
                removed == removed_of(c, self.shown(), ks, i as nat),
                removed <= i,
            decreases n - i,
        {
            let k = keys.key_at(i);
            proof {
                lemma_without(c, ks, i as nat);
                keys.lemma_order();
                assert(c.dom().contains(k));
                assert forall|j: int| 0 <= j < i implies #[trigger] ks[j] != k by {
                    assert(ks[j].lt(ks[i as int]));
                    RegionKey::lt_irreflexive(k);
                }
                assert(rest@.dom().contains(k));
            }
            match rest.remove(&k) {
                Some(Some(mesh)) => {
                    fresh.push((k, mesh));
                },
                _ => {
                    if self.regions.contains(&k) {
                        removed += 1;
                    }
                },
            }
            i += 1;
        }
        let regions_uploaded: usize = fresh.len();
        Plan { keys, fresh, regions_changed: n, regions_uploaded, regions_removed: removed }
    }

    /// Counts a refusal: the scene still shows its previous snapshot.
    pub fn refuse(&mut self)
        requires
            old(self).wf(),
            old(self).spec_deferred() < u64::MAX,
        ensures
            final(self).wf(),
            final(self).shown() == old(self).shown(),
            final(self).order() == old(self).order(),
            final(self).versions() == old(self).versions(),
            final(self).spec_snapshot() == old(self).spec_snapshot(),
            final(self).spec_updates() == old(self).spec_updates(),
            final(self).spec_deferred() == old(self).spec_deferred() + 1,
            final(self).spec_faults() == old(self).spec_faults(),
    {
        self.deferred = self.deferred + 1;
    }

    /// Puts the fresh regions in the place of those that changed, which come back.
    pub fn stage(&mut self, keys: &RegionSet, fresh: Vec<(RegionKey, R)>) -> (r: Vec<(RegionKey, R)>)
        requires
            old(self).wf(),
            keys.wf(),
        ensures
            final(self).wf(),
            r@ == taken(old(self).shown(), keys.keys(), keys.keys().len()),
            final(self).shown() == with_all(without(old(self).shown(), keys.keys(), keys.keys().len()), fresh@, fresh@.len()),
            final(self).versions() == old(self).versions(),
            final(self).spec_snapshot() == old(self).spec_snapshot(),
            final(self).spec_updates() == old(self).spec_updates(),
            final(self).spec_deferred() == old(self).spec_deferred(),
            final(self).spec_faults() == old(self).spec_faults(),
    {
        let replaced = take_regions(&mut self.regions, keys);
        put_regions(&mut self.regions, fresh);
        replaced
    }

    /// Undoes [`Scene::stage`] after a refusal and counts it. The fresh regions come back.
    pub fn roll_back(&mut self, keys: &RegionSet, replaced: Vec<(RegionKey, R)>) -> (r: Vec<(RegionKey, R)>)
        requires
            old(self).wf(),
            keys.wf(),
            old(self).spec_deferred() < u64::MAX,
        ensures
            final(self).wf(),
            r@ == taken(old(self).shown(), keys.keys(), keys.keys().len()),
            final(self).shown() == with_all(without(old(self).shown(), keys.keys(), keys.keys().len()), replaced@, replaced@.len()),
            final(self).versions() == old(self).versions(),
            final(self).spec_snapshot() == old(self).spec_snapshot(),
            final(self).spec_updates() == old(self).spec_updates(),
            final(self).spec_deferred() == old(self).spec_deferred() + 1,
            final(self).spec_faults() == old(self).spec_faults(),
    {
        let fresh = take_regions(&mut self.regions, keys);
        put_regions(&mut self.regions, replaced);
        self.deferred = self.deferred + 1;
        fresh
    }

    /// Makes a staged update final: the scene shows `snapshot`.
    pub fn commit(&mut self, keys: &RegionSet, snapshot: u64)
        requires
            old(self).wf(),
            keys.wf(),
            old(self).spec_updates() < u64::MAX,
        ensures
            final(self).wf(),
            final(self).shown() == old(self).shown(),
            final(self).order() == old(self).order(),
            final(self).spec_snapshot() == snapshot,
            final(self).spec_updates() == old(self).spec_updates() + 1,
            final(self).spec_deferred() == old(self).spec_deferred(),
            final(self).spec_faults() == old(self).spec_faults(),
            final(self).versions() == versions_after(
                old(self).versions(),
                keys@.dom(),
                old(self).shown().dom(),
                snapshot,
            ),
    {
        let ghost was = self.built_at@;
        let ghost shown = self.regions@.dom();
        let ghost ks = keys.keys();
        let n: usize = keys.len();
        let mut i: usize = 0;
        while i < n
            invariant
                i <= n == ks.len(),
                ks == keys.keys(),
                keys.wf(),
                self.wf(),
                self.regions == old(self).regions,
                shown == self.regions@.dom(),
                self.updates == old(self).updates,
                self.deferred == old(self).deferred,
                self.faults == old(self).faults,
                forall|k: RegionKey| #[trigger]
                    self.built_at@.dom().contains(k) <==> if listed_before(ks, i as int, k) {
                        shown.contains(k)
                    } else {
                        was.dom().contains(k)
                    },
                forall|k: RegionKey| #[trigger]
                    self.built_at@.dom().contains(k) ==> self.built_at@[k] == if listed_before(ks, i as int, k) {
                        snapshot
                    } else {
                        was[k]
                    },
            decreases n - i,
        {
            let k = keys.key_at(i);
            let ghost before = self.built_at@;
            if self.regions.contains(&k) {
                self.built_at.insert(k, snapshot);
            } else {
                self.built_at.remove(&k);
            }
            proof {
                assert forall|x: RegionKey| listed_before(ks, i + 1, x) == (listed_before(ks, i as int, x) || x == k) by {
                    if x == k {
                        assert(ks[i as int] == x);
                    }
                    if listed_before(ks, i + 1, x) && x != k {
                        let j = choose|j: int| 0 <= j < i + 1 && #[trigger] ks[j] == x;
                        assert(ks[j] == x && j < i);
                    }
                    if listed_before(ks, i as int, x) {
                        let j = choose|j: int| 0 <= j < i && #[trigger] ks[j] == x;
                        assert(ks[j] == x);
                    }
                }
                assert forall|x: RegionKey| #[trigger] self.built_at@.dom().contains(x) <==> if listed_before(ks, i + 1, x) {
                    shown.contains(x)
                } else {
                    was.dom().contains(x)
                } by {
                    assert(before.dom().contains(x) <==> if listed_before(ks, i as int, x) {
                        shown.contains(x)
                    } else {
                        was.dom().contains(x)
                    });
                }
                assert forall|x: RegionKey| #[trigger] self.built_at@.dom().contains(x) implies self.built_at@[x] == if listed_before(ks, i + 1, x) {
                    snapshot
                } else {
                    was[x]
                } by {
                    if x != k {
                        assert(before.dom().contains(x));
                    }
                }
            }
            i += 1;
        }
        proof {
            keys.lemma_order();
            let after = versions_after(was, keys@.dom(), shown, snapshot);
            assert forall|k: RegionKey| listed_before(ks, n as int, k) == keys@.dom().contains(k) by {
                if keys@.dom().contains(k) {
                    assert(ks.contains(k));
                }
            }
            assert(self.built_at@ =~= after);
        }
        self.snapshot = snapshot;
        self.updates = self.updates + 1;
    }

    /// Region key and the snapshot it was built from, in region index order.
    pub fn region_rows(&self) -> (r: Vec<(RegionKey, u64)>)
        requires
            self.settled(),
        ensures
            r@ == Seq::new(self.order().len(), |i: int| (self.order()[i], self.versions()[self.order()[i]])),
    {
        let mut out: Vec<(RegionKey, u64)> = Vec::new();
        let n: usize = self.regions.len();
        let mut i: usize = 0;
        while i < n
            invariant
                i <= n == self.order().len(),
                self.settled(),
                out@.len() == i,
                forall|j: int| 0 <= j < i ==> #[trigger] out@[j] == (self.order()[j], self.versions()[self.order()[j]]),
            decreases n - i,
        {
            let k = self.regions.key_at(i);
            proof {
                self.regions.lemma_order();
                assert(self.shown().dom().contains(k));
            }
            if let Some(v) = self.built_at.get(&k) {
                out.push((k, *v));
            }
            i += 1;
        }
        assert(out@ =~= Seq::new(self.order().len(), |i: int| (self.order()[i], self.versions()[self.order()[i]])));
        out
    }
}

spec fn listed_before(ks: Seq<RegionKey>, n: int, k: RegionKey) -> bool {
    exists|j: int| 0 <= j < n && #[trigger] ks[j] == k
}

/// The versions after the regions of `keys` were built from `snapshot`; those not shown have none.
pub open spec fn versions_after(was: Map<RegionKey, u64>, keys: Set<RegionKey>, shown: Set<RegionKey>, snapshot: u64) -> Map<RegionKey, u64> {
    Map::new(
        |k: RegionKey|
            if keys.contains(k) {
                shown.contains(k)
            } else {
                was.dom().contains(k)
            },
        |k: RegionKey|
            if keys.contains(k) {
                snapshot
            } else {
                was[k]
            },
    )
}

/// `fresh` holds regions of `ks` only.
pub open spec fn fresh_within<R>(fresh: Seq<(RegionKey, R)>, ks: Seq<RegionKey>) -> bool {
    forall|i: int| 0 <= i < fresh.len() ==> ks.contains((#[trigger] fresh[i]).0)
}

/// A refused update leaves the scene as it was: what is staged and rolled back shows the same
/// regions as before.
pub proof fn law_refused_updates_change_nothing<R>(m: Map<RegionKey, R>, ks: Seq<RegionKey>, fresh: Seq<(RegionKey, R)>)
    requires
        ks.no_duplicates(),
        fresh_within(fresh, ks),
    ensures
        ({
            let staged = with_all(without(m, ks, ks.len()), fresh, fresh.len());
            let replaced = taken(m, ks, ks.len());
            with_all(without(staged, ks, ks.len()), replaced, replaced.len()) == m
        }),
{
    let w = without(m, ks, ks.len());
    let staged = with_all(w, fresh, fresh.len());
    lemma_without(m, ks, ks.len());
    lemma_with_all(w, fresh, fresh.len());
    lemma_without(staged, ks, ks.len());
    let again = without(staged, ks, ks.len());
    assert forall|k: RegionKey| again.dom().contains(k) == w.dom().contains(k) by {
        if lists(fresh, fresh.len(), k) {
            let i = choose|i: int| 0 <= i < fresh.len() && (#[trigger] fresh[i]).0 == k;
            assert(ks.contains(fresh[i].0));
        }
    }
    assert forall|k: RegionKey| w.dom().contains(k) implies again[k] == w[k] by {
        if lists(fresh, fresh.len(), k) {
            let i = choose|i: int| 0 <= i < fresh.len() && (#[trigger] fresh[i]).0 == k;
            assert(ks.contains(fresh[i].0));
        }
        assert(staged.dom().contains(k));
        assert(again.dom().contains(k));
    }
    assert(again =~= w);
    law_putting_back_restores(m, ks);
}

/// After an update is staged every region shown can be built: those of the change set are rebuilt, and
/// every other one was shown before, so it has a structure to keep.
pub proof fn law_staged_updates_can_be_built<R, B>(
    m: Map<RegionKey, R>,
    ks: Seq<RegionKey>,
    fresh: Seq<(RegionKey, R)>,
    regions: SortedMap<RegionKey, R>,
    rebuild: RegionSet,
    keep: SortedMap<RegionKey, B>,
)
    requires
        fresh_within(fresh, ks),
        regions@ == with_all(without(m, ks, ks.len()), fresh, fresh.len()),
        rebuild@.dom() == ks.to_set().intersect(regions@.dom()),
        m.dom().subset_of(keep@.dom()),
    ensures
        buildable(regions, rebuild, keep),
{
    lemma_without(m, ks, ks.len());
    lemma_with_all(without(m, ks, ks.len()), fresh, fresh.len());
    assert forall|k: RegionKey| #[trigger] regions@.dom().contains(k) implies rebuild@.dom().contains(k) || keep@.dom().contains(k) by {
        if lists(fresh, fresh.len(), k) {
            let i = choose|i: int| 0 <= i < fresh.len() && (#[trigger] fresh[i]).0 == k;
            assert(ks.contains(fresh[i].0));
            assert(ks.to_set().contains(k));
        } else {
            assert(without(m, ks, ks.len()).dom().contains(k));
        }
    }
}

/// A staged and committed update leaves every region shown with a version, those of the change set
/// with the new one.
pub proof fn law_updates_keep_versions<R>(
    m: Map<RegionKey, R>,
    was: Map<RegionKey, u64>,
    ks: Seq<RegionKey>,
    fresh: Seq<(RegionKey, R)>,
    snapshot: u64,
)
    requires
        m.dom() == was.dom(),
        fresh_within(fresh, ks),
    ensures
        ({
            let shown = with_all(without(m, ks, ks.len()), fresh, fresh.len());
            let now = versions_after(was, ks.to_set(), shown.dom(), snapshot);
            &&& now.dom() == shown.dom()
            &&& forall|k: RegionKey| #[trigger] now.dom().contains(k) ==> now[k] == if ks.contains(k) {
                snapshot
            } else {
                was[k]
            }
        }),
{
    let w = without(m, ks, ks.len());
    let shown = with_all(w, fresh, fresh.len());
    lemma_without(m, ks, ks.len());
    lemma_with_all(w, fresh, fresh.len());
    let now = versions_after(was, ks.to_set(), shown.dom(), snapshot);
    assert forall|k: RegionKey| now.dom().contains(k) == shown.dom().contains(k) by {
        if !ks.contains(k) {
            if lists(fresh, fresh.len(), k) {
                let i = choose|i: int| 0 <= i < fresh.len() && (#[trigger] fresh[i]).0 == k;
                assert(ks.contains(fresh[i].0));
            }
            if w.dom().contains(k) {
                assert(m.dom().contains(k));
            }
            if m.dom().contains(k) {
                assert(w.dom().contains(k));
            }
        }
    }
    assert(now.dom() =~= shown.dom());
}

/// The bricks of a region are counted along x first, then along y, then along z, from its first brick on.
pub proof fn law_region_bricks_run_along_x_first(r: RegionKey, size: RegionSize, x: int, y: int, z: int)
    requires
        r.fits(size),
        0 <= x < size.spec_bricks(),
        0 <= y < size.spec_bricks(),
        0 <= z < size.spec_bricks(),
    ensures
        ({
            let e = size.spec_bricks();
            let b = brick_at(r, size, x + e * (y + e * z));
            &&& 0 <= x + e * (y + e * z) < brick_count(size)
            &&& b.x == r.x * e + x && b.y == r.y * e + y && b.z == r.z * e + z
            &&& brick_count(size) == e * (e * e)
        }),
{
    let e = size.spec_bricks();
    let v = size.spec_voxels();
    assert(r.x * v == 8 * (r.x * e) && r.y * v == 8 * (r.y * e) && r.z * v == 8 * (r.z * e)) by (nonlinear_arith)
        requires
            v == 8 * e,
    ;
    match size {
        RegionSize::Brick => {
            assert(e == 1 && x == 0 && y == 0 && z == 0);
            assert(x + e * (y + e * z) == 0 && e * (e * e) == 1) by (nonlinear_arith)
                requires
                    e == 1,
                    x == 0,
                    y == 0,
                    z == 0,
            ;
            assert(r.x * e == r.x && r.y * e == r.y && r.z * e == r.z) by (nonlinear_arith)
                requires
                    e == 1,
            ;
        },
        RegionSize::Bricks2 => {
            assert(e * (y + e * z) == 2 * (y + 2 * z) && e * (e * e) == 8) by (nonlinear_arith)
                requires
                    e == 2,
            ;
            lemma_mixed_digits(2, x, y, z);
        },
        RegionSize::Chunk => {
            assert(e * (y + e * z) == 4 * (y + 4 * z) && e * (e * e) == 64) by (nonlinear_arith)
                requires
                    e == 4,
            ;
            lemma_mixed_digits(4, x, y, z);
        },
        RegionSize::Chunks2 => {
            assert(e * (y + e * z) == 8 * (y + 8 * z) && e * (e * e) == 512) by (nonlinear_arith)
                requires
                    e == 8,
            ;
            lemma_mixed_digits(8, x, y, z);
        },
    }
}

proof fn lemma_mixed_digits(e: int, x: int, y: int, z: int)
    requires
        0 <= x < e,
        0 <= y < e,
        0 <= z < e,
    ensures
        e == 2 ==> ({
            let n = x + 2 * (y + 2 * z);
            0 <= n < 8 && n % 2 == x && n / 2 % 2 == y && n / 4 == z
        }),
        e == 4 ==> ({
            let n = x + 4 * (y + 4 * z);
            0 <= n < 64 && n % 4 == x && n / 4 % 4 == y && n / 16 == z
        }),
        e == 8 ==> ({
            let n = x + 8 * (y + 8 * z);
            0 <= n < 512 && n % 8 == x && n / 8 % 8 == y && n / 64 == z
        }),
{
    if e == 8 {
        let w = y + 8 * z;
        assert((x + 8 * w) / 8 == w);
        assert(w / 8 == z && w % 8 == y);
    } else if e == 4 {
        let w = y + 4 * z;
        assert((x + 4 * w) / 4 == w);
        assert(w / 4 == z && w % 4 == y);
    }
}

/// A planted skip takes just its region out of the change set.
pub proof fn law_skips_leave_out_one_region(changed: Map<RegionKey, Option<RegionMesh>>, faults: SceneFaults, k: RegionKey)
    ensures
        change_set(changed, faults).dom().contains(k) <==> changed.dom().contains(k) && faults.skip_region != Some(k),
        change_set(changed, faults).dom().contains(k) ==> change_set(changed, faults)[k] == changed[k],
{
}

/// The regions to upload are those of the list that have a mesh now, each with that mesh and in the list's order.
pub proof fn law_fresh_regions_are_those_with_a_mesh(changed: Map<RegionKey, Option<RegionMesh>>, ks: Seq<RegionKey>, n: nat, k: RegionKey, m: RegionMesh)
    requires
        n <= ks.len(),
    ensures
        fresh_of(changed, ks, n).contains((k, m)) <==> changed[k] == Some(m) && exists|i: int| 0 <= i < n && #[trigger] ks[i] == k,
        fresh_of(changed, ks, n).len() <= n,
    decreases n,
{
    if n > 0 {
        law_fresh_regions_are_those_with_a_mesh(changed, ks, (n - 1) as nat, k, m);
        let before = fresh_of(changed, ks, (n - 1) as nat);
        let now = fresh_of(changed, ks, n);
        if before.contains((k, m)) {
            let j = choose|j: int| 0 <= j < before.len() && before[j] == (k, m);
            assert(now[j] == (k, m));
        }
        if ks[n - 1] == k && changed[k] == Some(m) {
            assert(now[before.len() as int] == (k, m));
        }
        if now.contains((k, m)) {
            let j = choose|j: int| 0 <= j < now.len() && now[j] == (k, m);
            if j < before.len() {
                assert(before[j] == (k, m));
            } else {
                assert(ks[n - 1] == k);
            }
        }
    }
}

/// A region counts as removed exactly when it was shown and has no mesh now; regions that have one, or were not shown,
/// make no difference.
pub proof fn law_removed_regions_were_shown<R>(changed: Map<RegionKey, Option<RegionMesh>>, shown: Map<RegionKey, R>, ks: Seq<RegionKey>, n: nat)
    requires
        n <= ks.len(),
    ensures
        removed_of(changed, shown, ks, n) == ks.take(n as int).filter(|k: RegionKey| changed[k] is None && shown.dom().contains(k)).len(),
    decreases n,
{
    reveal_with_fuel(Seq::filter, 2);
    let gone = |k: RegionKey| changed[k] is None && shown.dom().contains(k);
    if n > 0 {
        law_removed_regions_were_shown(changed, shown, ks, (n - 1) as nat);
        assert(ks.take(n as int).drop_last() =~= ks.take(n - 1));
        assert(ks.take(n as int).last() == ks[n - 1]);
    }
}

/// The meshes that a reader sees are those it can read of the region's bricks, with what it reads.
pub proof fn law_meshes_seen_are_those_read(p: &Pipeline, token: &ReaderToken, r: RegionKey, size: RegionSize, n: nat, j: int)
    requires
        0 <= j < n,
    ensures
        reading(p, token, brick_at(r, size, j)) matches Ok(Some(m)) ==> meshes_seen(p, token, r, size, n).contains((brick_at(r, size, j), &m)),
        forall|a: int|
            0 <= a < meshes_seen(p, token, r, size, n).len() ==> reading(p, token, (#[trigger] meshes_seen(p, token, r, size, n)[a]).0) == Ok::<
                Option<BrickMesh>,
                ReadError,
            >(Some(*meshes_seen(p, token, r, size, n)[a].1)),
    decreases n,
{
    let before = meshes_seen(p, token, r, size, (n - 1) as nat);
    let now = meshes_seen(p, token, r, size, n);
    if n > 1 {
        law_meshes_seen_are_those_read(
            p,
            token,
            r,
            size,
            (n - 1) as nat,
            if j < n - 1 {
                j
            } else {
                0
            },
        );
    }
    assert forall|a: int| 0 <= a < before.len() implies #[trigger] now[a] == before[a] by {}
    if let Ok(Some(m)) = reading(p, token, brick_at(r, size, j)) {
        let x = (brick_at(r, size, j), &m);
        if j < n - 1 {
            let a = choose|a: int| 0 <= a < before.len() && before[a] == x;
            assert(now[a] == x);
        } else {
            assert(now[before.len() as int] == x);
        }
    }
}

/// The region around a changed brick is affected: the one whose bricks, along each axis, run up to and past it.
pub proof fn law_regions_around_changed_bricks_are_affected(keys: Seq<BrickKey>, size: RegionSize, n: int, i: int, r: RegionKey)
    requires
        0 <= i < n <= keys.len(),
        r.x * size.spec_bricks() <= keys[i].x < r.x * size.spec_bricks() + size.spec_bricks(),
        r.y * size.spec_bricks() <= keys[i].y < r.y * size.spec_bricks() + size.spec_bricks(),
        r.z * size.spec_bricks() <= keys[i].z < r.z * size.spec_bricks() + size.spec_bricks(),
    ensures
        regions_of(keys, size, n).contains(r),
{
    let k = keys[i];
    let e = size.spec_bricks();
    match size {
        RegionSize::Brick => {
            assert(r.x * e == r.x && r.y * e == r.y && r.z * e == r.z) by (nonlinear_arith)
                requires
                    e == 1,
            ;
        },
        RegionSize::Bricks2 => {
            assert(k.x as int / 2 == r.x && k.y as int / 2 == r.y && k.z as int / 2 == r.z);
        },
        RegionSize::Chunk => {
            assert(k.x as int / 4 == r.x && k.y as int / 4 == r.y && k.z as int / 4 == r.z);
        },
        RegionSize::Chunks2 => {
            assert(k.x as int / 8 == r.x && k.y as int / 8 == r.y && k.z as int / 8 == r.z);
        },
    }
    assert(RegionKey::spec_of(keys[i], size) == r);
}

} // verus!
