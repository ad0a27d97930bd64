//! Regions do not depend on the order in which their bricks are given, and which emitters a scene has does
//! not depend on how its bricks are grouped into regions.
use crate::derived::mesh::{BrickMesh, Quad};
use crate::derived::triangles::Split;
use crate::gpu::emitters::{emissive, gathered, glows, part, EmitterId, EmitterQuad, EmitterSet};
use crate::gpu::layout::{
    brick_order, goes_before, grouped, has_brick, is_region, law_region_holds_its_bricks, place, region_indices, region_owners, region_quads,
    region_vertices, RegionKey, RegionMesh, RegionQuad, RegionSize,
};
use crate::sorted::{increasing, law_order_is_unique, Key};
use crate::world::{BrickKey, VoxelCoord};
use vstd::prelude::*;

verus! {

/// The same quad of the world, whatever its id.
pub open spec fn same_place(a: EmitterQuad, b: EmitterQuad) -> bool {
    &&& a.material == b.material
    &&& a.face == b.face
    &&& a.plane == b.plane
    &&& a.u0 == b.u0
    &&& a.v0 == b.v0
    &&& a.u1 == b.u1
    &&& a.v1 == b.v1
}

/// How many quads of `s` are the quad `e` of the world.
pub open spec fn occurrences(s: Seq<EmitterQuad>, e: EmitterQuad) -> nat
    decreases s.len(),
{
    if s.len() == 0 {
        0
    } else {
        occurrences(s.drop_last(), e) + if same_place(s.last(), e) {
            1nat
        } else {
            0nat
        }
    }
}

proof fn lemma_occurrences_concat(s: Seq<EmitterQuad>, t: Seq<EmitterQuad>, e: EmitterQuad)
    ensures
        occurrences(s + t, e) == occurrences(s, e) + occurrences(t, e),
    decreases t.len(),
{
    if t.len() == 0 {
        assert(s + t =~= s);
    } else {
        lemma_occurrences_concat(s, t.drop_last(), e);
        assert((s + t).drop_last() =~= s + t.drop_last());
        assert((s + t).last() == t.last());
    }
}

/// Quad `q` of a region that starts at `o` emits as `e`.
spec fn emits(emitting: Seq<Option<u16>>, q: RegionQuad, o: VoxelCoord, e: EmitterQuad) -> nat {
    match glows(emitting, q.material) {
        None => 0,
        Some(m) => if same_place(EmitterQuad::spec_from_local(e.id, m, q, o), e) {
            1
        } else {
            0
        },
    }
}

/// How many of the first `n` quads emit as `e`.
spec fn quads_emit(emitting: Seq<Option<u16>>, qs: Seq<RegionQuad>, o: VoxelCoord, n: nat, e: EmitterQuad) -> nat
    decreases n,
{
    if n == 0 {
        0
    } else {
        quads_emit(emitting, qs, o, (n - 1) as nat, e) + emits(emitting, qs[n - 1], o, e)
    }
}

proof fn lemma_emissive_count(emitting: Seq<Option<u16>>, key: RegionKey, m: RegionMesh, snapshot: u64, n: nat, e: EmitterQuad)
    ensures
        occurrences(emissive(emitting, key, m, snapshot, n), e) == quads_emit(emitting, m.quads@, key.spec_origin(m.size), n, e),
    decreases n,
{
    if n > 0 {
        lemma_emissive_count(emitting, key, m, snapshot, (n - 1) as nat, e);
        let before = emissive(emitting, key, m, snapshot, (n - 1) as nat);
        let now = emissive(emitting, key, m, snapshot, n);
        if now.len() > before.len() {
            assert(now.drop_last() =~= before);
        }
    }
}

proof fn lemma_quads_emit_concat(emitting: Seq<Option<u16>>, a: Seq<RegionQuad>, b: Seq<RegionQuad>, o: VoxelCoord, n: nat, e: EmitterQuad)
    requires
        n <= b.len(),
    ensures
        quads_emit(emitting, a + b, o, (a.len() + n) as nat, e) == quads_emit(emitting, a, o, a.len(), e) + quads_emit(emitting, b, o, n, e),
    decreases n,
{
    if n == 0 {
        lemma_quads_emit_prefix(emitting, a, b, o, a.len(), e);
    } else {
        lemma_quads_emit_concat(emitting, a, b, o, (n - 1) as nat, e);
        assert((a + b)[a.len() + n - 1] == b[n - 1]);
    }
}

proof fn lemma_quads_emit_prefix(emitting: Seq<Option<u16>>, a: Seq<RegionQuad>, b: Seq<RegionQuad>, o: VoxelCoord, n: nat, e: EmitterQuad)
    requires
        n <= a.len(),
    ensures
        quads_emit(emitting, a + b, o, n, e) == quads_emit(emitting, a, o, n, e),
    decreases n,
{
    if n > 0 {
        lemma_quads_emit_prefix(emitting, a, b, o, (n - 1) as nat, e);
        assert((a + b)[n - 1] == a[n - 1]);
    }
}

/// The quad `q` of a brick as one of a region of that brick alone.
spec fn own(q: Quad) -> RegionQuad {
    RegionQuad { material: q.material.id, face: q.face, plane: q.plane, u0: q.u0, v0: q.v0, u1: q.u1, v1: q.v1 }
}

/// How many of the first `n` quads of brick `k` emit as `e`.
spec fn brick_emits(emitting: Seq<Option<u16>>, k: BrickKey, m: BrickMesh, n: nat, e: EmitterQuad) -> nat
    decreases n,
{
    if n == 0 {
        0
    } else {
        brick_emits(emitting, k, m, (n - 1) as nat, e) + emits(emitting, own(m.quads@[n - 1]), k.spec_origin(), e)
    }
}

/// Moving a quad by `off` and counting from `r` comes to counting from `o`, along one axis.
proof fn lemma_same_axis(o: VoxelCoord, r: VoxelCoord, off: [u8; 3], a: int)
    requires
        off[0] == o.x - r.x,
        off[1] == o.y - r.y,
        off[2] == o.z - r.z,
        0 <= a < 3,
    ensures
        part(r, a) + off[a] == part(o, a),
{
}

/// Moving a quad by `off` and counting from `r` comes to counting from `o`.
proof fn lemma_same_place(id: EmitterId, material: u16, q: Quad, o: VoxelCoord, r: VoxelCoord, off: [u8; 3])
    requires
        q.rectangle(),
        off[0] == o.x - r.x <= 64,
        off[1] == o.y - r.y <= 64,
        off[2] == o.z - r.z <= 64,
    ensures
        EmitterQuad::spec_from_local(id, material, RegionQuad::spec_from_brick(q, off), r) == EmitterQuad::spec_from_local(id, material, own(q), o),
{
    let a = q.spec_axis();
    lemma_same_axis(o, r, off, a);
    lemma_same_axis(o, r, off, (a + 1) % 3);
    lemma_same_axis(o, r, off, (a + 2) % 3);
}

/// A quad is where it is, whichever region it is counted from.
proof fn lemma_same_quad(emitting: Seq<Option<u16>>, k: BrickKey, q: Quad, size: RegionSize, e: EmitterQuad)
    requires
        k.wf(),
        q.rectangle(),
    ensures
        emits(emitting, RegionQuad::spec_from_brick(q, place(k, size)), RegionKey::spec_of(k, size).spec_origin(size), e) == emits(
            emitting,
            own(q),
            k.spec_origin(),
            e,
        ),
{
    let o = k.spec_origin();
    let r = RegionKey::spec_of(k, size).spec_origin(size);
    let off = place(k, size);
    assert(off[0] == o.x - r.x <= 64 && off[1] == o.y - r.y <= 64 && off[2] == o.z - r.z <= 64) by {
        law_region_holds_its_bricks(k, size);
        assert(size.spec_voxels() <= 64);
    }
    if let Some(m) = glows(emitting, q.material.id) {
        lemma_same_place(e.id, m, q, o, r, off);
    }
}

proof fn lemma_brick_in_region(emitting: Seq<Option<u16>>, k: BrickKey, m: BrickMesh, size: RegionSize, n: nat, e: EmitterQuad)
    requires
        k.wf(),
        n <= m.quads@.len(),
        forall|j: int| 0 <= j < m.quads@.len() ==> (#[trigger] m.quads@[j]).rectangle(),
    ensures
        quads_emit(
            emitting,
            Seq::new(m.quads@.len(), |i: int| RegionQuad::spec_from_brick(m.quads@[i], place(k, size))),
            RegionKey::spec_of(k, size).spec_origin(size),
            n,
            e,
        ) == brick_emits(emitting, k, m, n, e),
    decreases n,
{
    if n > 0 {
        lemma_brick_in_region(emitting, k, m, size, (n - 1) as nat, e);
        lemma_same_quad(emitting, k, m.quads@[n - 1], size, e);
    }
}

/// How often the first `n` bricks of `ord` that lie in region `rk` emit as `e`.
spec fn region_emits(emitting: Seq<Option<u16>>, ms: Seq<(BrickKey, &BrickMesh)>, ord: Seq<usize>, n: nat, rk: RegionKey, size: RegionSize, e: EmitterQuad) -> nat
    decreases n,
{
    if n == 0 {
        0
    } else {
        let (k, m) = ms[ord[n - 1] as int];
        region_emits(emitting, ms, ord, (n - 1) as nat, rk, size, e) + if RegionKey::spec_of(k, size) == rk {
            brick_emits(emitting, k, *m, m.quads@.len(), e)
        } else {
            0
        }
    }
}

/// The meshes are of bricks of the world, and their quads are rectangles of their brick.
pub open spec fn sound_meshes(ms: Seq<(BrickKey, &BrickMesh)>) -> bool {
    &&& forall|i: int| 0 <= i < ms.len() ==> (#[trigger] ms[i]).0.wf()
    &&& forall|i: int, j: int| 0 <= i < ms.len() && 0 <= j < ms[i].1.quads@.len() ==> (#[trigger] ms[i].1.quads@[j]).rectangle()
}

proof fn lemma_region_emits(emitting: Seq<Option<u16>>, ms: Seq<(BrickKey, &BrickMesh)>, ord: Seq<usize>, n: nat, rk: RegionKey, size: RegionSize, e: EmitterQuad)
    requires
        sound_meshes(ms),
        n <= ord.len(),
        forall|a: int| 0 <= a < ord.len() ==> (#[trigger] ord[a]) < ms.len(),
    ensures
        ({
            let qs = region_quads(ms, ord, n, rk, size);
            quads_emit(emitting, qs, rk.spec_origin(size), qs.len(), e) == region_emits(emitting, ms, ord, n, rk, size, e)
        }),
    decreases n,
{
    if n > 0 {
        lemma_region_emits(emitting, ms, ord, (n - 1) as nat, rk, size, e);
        let before = region_quads(ms, ord, (n - 1) as nat, rk, size);
        let i = ord[n - 1] as int;
        assert(ord[n - 1] < ms.len());
        let (k, m) = ms[i];
        if RegionKey::spec_of(k, size) == rk {
            let more = Seq::new(m.quads@.len(), |i: int| RegionQuad::spec_from_brick(m.quads@[i], place(k, size)));
            assert(ms[i].0.wf());
            assert forall|j: int| 0 <= j < m.quads@.len() implies (#[trigger] m.quads@[j]).rectangle() by {
                assert(ms[i].1.quads@[j].rectangle());
            }
            lemma_brick_in_region(emitting, k, *m, size, m.quads@.len(), e);
            lemma_quads_emit_concat(emitting, before, more, rk.spec_origin(size), more.len(), e);
        }
    }
}

/// How often the first `n` bricks of `ord` emit as `e`.
spec fn bricks_emit(emitting: Seq<Option<u16>>, ms: Seq<(BrickKey, &BrickMesh)>, ord: Seq<usize>, n: nat, e: EmitterQuad) -> nat
    decreases n,
{
    if n == 0 {
        0
    } else {
        let (k, m) = ms[ord[n - 1] as int];
        bricks_emit(emitting, ms, ord, (n - 1) as nat, e) + brick_emits(emitting, k, *m, m.quads@.len(), e)
    }
}

/// The same, summed over the first `c` regions of `keys`.
spec fn regions_emit(emitting: Seq<Option<u16>>, ms: Seq<(BrickKey, &BrickMesh)>, ord: Seq<usize>, n: nat, keys: Seq<RegionKey>, c: nat, size: RegionSize, e: EmitterQuad) -> nat
    decreases c,
{
    if c == 0 {
        0
    } else {
        regions_emit(emitting, ms, ord, n, keys, (c - 1) as nat, size, e) + region_emits(emitting, ms, ord, n, keys[c - 1], size, e)
    }
}

/// One more brick adds to its own region alone.
proof fn lemma_one_more(emitting: Seq<Option<u16>>, ms: Seq<(BrickKey, &BrickMesh)>, ord: Seq<usize>, n: nat, keys: Seq<RegionKey>, c: nat, size: RegionSize, e: EmitterQuad)
    requires
        n > 0,
        c <= keys.len(),
        keys.no_duplicates(),
    ensures
        ({
            let (k, m) = ms[ord[n - 1] as int];
            let listed = exists|j: int| 0 <= j < c && #[trigger] keys[j] == RegionKey::spec_of(k, size);
            regions_emit(emitting, ms, ord, n, keys, c, size, e) == regions_emit(emitting, ms, ord, (n - 1) as nat, keys, c, size, e) + if listed {
                brick_emits(emitting, k, *m, m.quads@.len(), e)
            } else {
                0
            }
        }),
    decreases c,
{
    if c > 0 {
        lemma_one_more(emitting, ms, ord, n, keys, (c - 1) as nat, size, e);
        let (k, m) = ms[ord[n - 1] as int];
        let r = RegionKey::spec_of(k, size);
        if keys[c - 1] == r {
            assert(!exists|j: int| 0 <= j < c - 1 && #[trigger] keys[j] == r);
        } else if exists|j: int| 0 <= j < c && #[trigger] keys[j] == r {
            let j = choose|j: int| 0 <= j < c && #[trigger] keys[j] == r;
            assert(keys[j] == r && j < c - 1);
        }
    }
}

/// A region that emits is listed, so the regions together emit what the bricks do.
proof fn lemma_regions_are_bricks(emitting: Seq<Option<u16>>, ms: Seq<(BrickKey, &BrickMesh)>, ord: Seq<usize>, n: nat, keys: Seq<RegionKey>, size: RegionSize, e: EmitterQuad)
    requires
        n <= ord.len(),
        keys.no_duplicates(),
        forall|a: int|
            0 <= a < n ==> keys.contains(RegionKey::spec_of(ms[(#[trigger] ord[a]) as int].0, size)) || brick_emits(
                emitting,
                ms[ord[a] as int].0,
                *ms[ord[a] as int].1,
                ms[ord[a] as int].1.quads@.len(),
                e,
            ) == 0,
    ensures
        regions_emit(emitting, ms, ord, n, keys, keys.len(), size, e) == bricks_emit(emitting, ms, ord, n, e),
    decreases n,
{
    if n == 0 {
        lemma_no_bricks(emitting, ms, ord, keys, keys.len(), size, e);
    } else {
        lemma_regions_are_bricks(emitting, ms, ord, (n - 1) as nat, keys, size, e);
        lemma_one_more(emitting, ms, ord, n, keys, keys.len(), size, e);
        let r = RegionKey::spec_of(ms[ord[n - 1] as int].0, size);
        if keys.contains(r) {
            let j = choose|j: int| 0 <= j < keys.len() && keys[j] == r;
            assert(keys[j] == r);
        }
    }
}

proof fn lemma_no_bricks(emitting: Seq<Option<u16>>, ms: Seq<(BrickKey, &BrickMesh)>, ord: Seq<usize>, keys: Seq<RegionKey>, c: nat, size: RegionSize, e: EmitterQuad)
    ensures
        regions_emit(emitting, ms, ord, 0, keys, c, size, e) == 0,
    decreases c,
{
    if c > 0 {
        lemma_no_bricks(emitting, ms, ord, keys, (c - 1) as nat, size, e);
    }
}

/// A brick emits no more than its region.
proof fn lemma_brick_within_region(emitting: Seq<Option<u16>>, ms: Seq<(BrickKey, &BrickMesh)>, ord: Seq<usize>, n: nat, a: int, size: RegionSize, e: EmitterQuad)
    requires
        0 <= a < n,
    ensures
        ({
            let (k, m) = ms[ord[a] as int];
            brick_emits(emitting, k, *m, m.quads@.len(), e) <= region_emits(emitting, ms, ord, n, RegionKey::spec_of(k, size), size, e)
        }),
    decreases n,
{
    if a < n - 1 {
        lemma_brick_within_region(emitting, ms, ord, (n - 1) as nat, a, size, e);
    }
}

proof fn lemma_gathered_count(
    set: &EmitterSet,
    regions: Map<RegionKey, RegionMesh>,
    snapshots: Map<RegionKey, u64>,
    ms: Seq<(BrickKey, &BrickMesh)>,
    ord: Seq<usize>,
    size: RegionSize,
    split: Split,
    keys: Seq<RegionKey>,
    c: nat,
    e: EmitterQuad,
)
    requires
        sound_meshes(ms),
        brick_order(ms, ord),
        grouped(regions, ms, ord, ord.len(), size, split),
        set.shows(regions, snapshots),
        c <= keys.len(),
        forall|i: int| 0 <= i < keys.len() ==> set@.dom().contains(#[trigger] keys[i]),
    ensures
        occurrences(gathered(set@, keys, c), e) == regions_emit(set.spec_emitting(), ms, ord, ord.len(), keys, c, size, e),
    decreases c,
{
    if c > 0 {
        lemma_gathered_count(set, regions, snapshots, ms, ord, size, split, keys, (c - 1) as nat, e);
        let k = keys[c - 1];
        assert(set@.dom().contains(k));
        assert(regions.dom().contains(k));
        assert(is_region(regions[k], ms, ord, ord.len(), k, size, split));
        lemma_order_in_range(ms, ord);
        lemma_region_emits(set.spec_emitting(), ms, ord, ord.len(), k, size, e);
        lemma_emissive_count(set.spec_emitting(), k, regions[k], snapshots[k], regions[k].quads@.len(), e);
        lemma_occurrences_concat(gathered(set@, keys, (c - 1) as nat), set@[k], e);
    }
}

proof fn lemma_order_in_range(ms: Seq<(BrickKey, &BrickMesh)>, ord: Seq<usize>)
    requires
        brick_order(ms, ord),
    ensures
        forall|a: int| 0 <= a < ord.len() ==> (#[trigger] ord[a]) < ms.len(),
{
    assert forall|a: int| 0 <= a < ord.len() implies (#[trigger] ord[a]) < ms.len() by {
        assert(ord.contains(ord[a]));
    }
}

proof fn lemma_set_count(
    set: &EmitterSet,
    regions: Map<RegionKey, RegionMesh>,
    snapshots: Map<RegionKey, u64>,
    ms: Seq<(BrickKey, &BrickMesh)>,
    ord: Seq<usize>,
    size: RegionSize,
    split: Split,
    e: EmitterQuad,
)
    requires
        set.wf(),
        sound_meshes(ms),
        brick_order(ms, ord),
        grouped(regions, ms, ord, ord.len(), size, split),
        set.shows(regions, snapshots),
    ensures
        occurrences(gathered(set@, set.spec_keys(), set.spec_keys().len()), e) == bricks_emit(set.spec_emitting(), ms, ord, ord.len(), e),
{
    let keys = set.spec_keys();
    let em = set.spec_emitting();
    set.law_held_regions_have_emitters();
    assert forall|i: int| 0 <= i < keys.len() implies set@.dom().contains(#[trigger] keys[i]) by {
        assert(keys.to_set().contains(keys[i]));
    }
    lemma_gathered_count(set, regions, snapshots, ms, ord, size, split, keys, keys.len(), e);
    lemma_order_in_range(ms, ord);
    assert forall|a: int| 0 <= a < ord.len() implies keys.contains(RegionKey::spec_of(ms[(#[trigger] ord[a]) as int].0, size)) || brick_emits(
        em,
        ms[ord[a] as int].0,
        *ms[ord[a] as int].1,
        ms[ord[a] as int].1.quads@.len(),
        e,
    ) == 0 by {
        let r = RegionKey::spec_of(ms[ord[a] as int].0, size);
        assert(has_brick(ms, ord, ord.len() as int, r, size));
        assert(regions.dom().contains(r));
        assert(is_region(regions[r], ms, ord, ord.len(), r, size, split));
        if !set@.dom().contains(r) {
            let qs = emissive(em, r, regions[r], snapshots[r], regions[r].quads@.len());
            assert(qs.len() == 0);
            lemma_emissive_count(em, r, regions[r], snapshots[r], regions[r].quads@.len(), e);
            lemma_region_emits(em, ms, ord, ord.len(), r, size, e);
            lemma_brick_within_region(em, ms, ord, ord.len(), a, size, e);
        } else {
            assert(keys.to_set().contains(r));
        }
    }
    lemma_regions_are_bricks(em, ms, ord, ord.len(), keys, size, e);
}

/// There is one order of the bricks.
proof fn lemma_one_order(ms: Seq<(BrickKey, &BrickMesh)>, a: Seq<usize>, b: Seq<usize>, n: nat)
    requires
        brick_order(ms, a),
        brick_order(ms, b),
        n <= a.len(),
        n <= b.len(),
    ensures
        a.take(n as int) == b.take(n as int),
    decreases n,
{
    if n > 0 {
        lemma_one_order(ms, a, b, (n - 1) as nat);
        let i = n - 1;
        assert forall|j: int| 0 <= j < i implies a[j] == b[j] by {
            assert(a.take(i)[j] == b.take(i)[j]);
        }
        if a[i] != b[i] {
            assert(a.contains(a[i]) && b.contains(b[i]));
            assert(b.contains(a[i]) && a.contains(b[i]));
            let j = choose|j: int| 0 <= j < b.len() && b[j] == a[i];
            let k = choose|k: int| 0 <= k < a.len() && a[k] == b[i];
            if j < i {
                assert(a[j] == a[i]);
                assert(goes_before(ms, a[j] as int, a[i] as int));
                BrickKey::lt_irreflexive(ms[a[i] as int].0);
            }
            if k < i {
                assert(b[k] == b[i]);
                assert(goes_before(ms, b[k] as int, b[i] as int));
                BrickKey::lt_irreflexive(ms[b[i] as int].0);
            }
            assert(goes_before(ms, b[i] as int, b[j] as int));
            assert(goes_before(ms, a[i] as int, a[k] as int));
            let (x, y) = (ms[a[i] as int].0, ms[b[i] as int].0);
            if x.lt(y) && y.lt(x) {
                BrickKey::lt_transitive(x, y, x);
            }
            BrickKey::lt_irreflexive(x);
            assert(false);
        }
        assert(a.take(n as int) =~= b.take(n as int));
    }
}

proof fn lemma_same_length(ms: Seq<(BrickKey, &BrickMesh)>, a: Seq<usize>, b: Seq<usize>)
    requires
        brick_order(ms, a),
        brick_order(ms, b),
    ensures
        a.len() <= b.len(),
{
    if b.len() < a.len() {
        let n = b.len();
        lemma_one_order(ms, a, b, n);
        let x = a[n as int];
        assert(a.contains(x));
        assert(b.contains(x));
        let j = choose|j: int| 0 <= j < b.len() && b[j] == x;
        assert(a.take(n as int)[j] == b.take(n as int)[j]);
        assert(goes_before(ms, a[j] as int, a[n as int] as int));
        BrickKey::lt_irreflexive(ms[x as int].0);
    }
}

/// Two sets of the same bricks hold the same quads of the world, each as often, whatever region size
/// each was grouped with and whichever snapshots its regions are of.
pub proof fn law_region_size_does_not_change_the_emitters(
    ms: Seq<(BrickKey, &BrickMesh)>,
    a: &EmitterSet,
    b: &EmitterSet,
    regions_a: Map<RegionKey, RegionMesh>,
    regions_b: Map<RegionKey, RegionMesh>,
    snapshots_a: Map<RegionKey, u64>,
    snapshots_b: Map<RegionKey, u64>,
    ord_a: Seq<usize>,
    ord_b: Seq<usize>,
    size_a: RegionSize,
    size_b: RegionSize,
    split: Split,
    e: EmitterQuad,
)
    requires
        a.wf(),
        b.wf(),
        a.spec_emitting() == b.spec_emitting(),
        sound_meshes(ms),
        brick_order(ms, ord_a),
        brick_order(ms, ord_b),
        grouped(regions_a, ms, ord_a, ord_a.len(), size_a, split),
        grouped(regions_b, ms, ord_b, ord_b.len(), size_b, split),
        a.shows(regions_a, snapshots_a),
        b.shows(regions_b, snapshots_b),
    ensures
        occurrences(gathered(a@, a.spec_keys(), a.spec_keys().len()), e) == occurrences(gathered(b@, b.spec_keys(), b.spec_keys().len()), e),
{
    lemma_set_count(a, regions_a, snapshots_a, ms, ord_a, size_a, split, e);
    lemma_set_count(b, regions_b, snapshots_b, ms, ord_b, size_b, split, e);
    lemma_same_length(ms, ord_a, ord_b);
    lemma_same_length(ms, ord_b, ord_a);
    lemma_one_order(ms, ord_a, ord_b, ord_a.len());
    assert(ord_a.take(ord_a.len() as int) =~= ord_a);
    assert(ord_b.take(ord_b.len() as int) =~= ord_b);
}

/// No brick is given twice.
pub open spec fn distinct_bricks(ms: Seq<(BrickKey, &BrickMesh)>) -> bool {
    forall|i: int, j: int| 0 <= i < j < ms.len() ==> (#[trigger] ms[i]).0 != (#[trigger] ms[j]).0
}

/// Every brick of `ms` is in `ns`, with the same quads.
pub open spec fn bricks_within(ms: Seq<(BrickKey, &BrickMesh)>, ns: Seq<(BrickKey, &BrickMesh)>) -> bool {
    forall|i: int|
        0 <= i < ms.len() ==> exists|j: int|
            0 <= j < ns.len() && (#[trigger] ns[j]).0 == (#[trigger] ms[i]).0 && ns[j].1.quads@ == ms[i].1.quads@
}

/// The keys of the meshes of `ord`.
spec fn keys_in(ms: Seq<(BrickKey, &BrickMesh)>, ord: Seq<usize>) -> Seq<BrickKey> {
    Seq::new(ord.len(), |a: int| ms[ord[a] as int].0)
}

proof fn lemma_keys_increase(ms: Seq<(BrickKey, &BrickMesh)>, ord: Seq<usize>)
    requires
        distinct_bricks(ms),
        brick_order(ms, ord),
    ensures
        increasing(keys_in(ms, ord)),
        forall|a: int| 0 <= a < ord.len() ==> (#[trigger] ord[a]) < ms.len() && ms[ord[a] as int].1.quads@.len() > 0,
{
    assert forall|a: int| 0 <= a < ord.len() implies (#[trigger] ord[a]) < ms.len() && ms[ord[a] as int].1.quads@.len() > 0 by {
        assert(ord.contains(ord[a]));
    }
    let ks = keys_in(ms, ord);
    assert forall|a: int, b: int| 0 <= a < b < ks.len() implies (#[trigger] ks[a]).lt(#[trigger] ks[b]) by {
        assert(goes_before(ms, ord[a] as int, ord[b] as int));
    }
}

proof fn lemma_keys_within(ms: Seq<(BrickKey, &BrickMesh)>, ns: Seq<(BrickKey, &BrickMesh)>, a: Seq<usize>, b: Seq<usize>)
    requires
        distinct_bricks(ms),
        brick_order(ms, a),
        brick_order(ns, b),
        bricks_within(ms, ns),
        ns.len() <= usize::MAX,
    ensures
        keys_in(ms, a).to_set().subset_of(keys_in(ns, b).to_set()),
{
    lemma_keys_increase(ms, a);
    assert forall|k: BrickKey| keys_in(ms, a).to_set().contains(k) implies keys_in(ns, b).to_set().contains(k) by {
        let x = choose|x: int| 0 <= x < a.len() && keys_in(ms, a)[x] == k;
        let i = a[x] as int;
        assert(ms[i].0 == k);
        let j = choose|j: int| 0 <= j < ns.len() && (#[trigger] ns[j]).0 == ms[i].0 && ns[j].1.quads@ == ms[i].1.quads@;
        assert(b.contains(j as usize));
        let y = choose|y: int| 0 <= y < b.len() && b[y] == j as usize;
        assert(keys_in(ns, b)[y] == k);
    }
}

/// The same bricks stand at the same places of the two orders.
proof fn lemma_same_line(ms: Seq<(BrickKey, &BrickMesh)>, ns: Seq<(BrickKey, &BrickMesh)>, a: Seq<usize>, b: Seq<usize>)
    requires
        distinct_bricks(ms),
        distinct_bricks(ns),
        brick_order(ms, a),
        brick_order(ns, b),
        bricks_within(ms, ns),
        bricks_within(ns, ms),
        ms.len() <= usize::MAX,
        ns.len() <= usize::MAX,
    ensures
        a.len() == b.len(),
        forall|x: int|
            0 <= x < a.len() ==> ms[(#[trigger] a[x]) as int].0 == ns[(#[trigger] b[x]) as int].0 && ms[a[x] as int].1.quads@
                == ns[b[x] as int].1.quads@,
{
    lemma_keys_increase(ms, a);
    lemma_keys_increase(ns, b);
    lemma_keys_within(ms, ns, a, b);
    lemma_keys_within(ns, ms, b, a);
    let (p, q) = (keys_in(ms, a), keys_in(ns, b));
    assert(p.to_set() =~= q.to_set());
    law_order_is_unique(p, q);
    assert(p.len() == q.len());
    assert forall|x: int| 0 <= x < a.len() implies ms[(#[trigger] a[x]) as int].0 == ns[(#[trigger] b[x]) as int].0 && ms[a[x] as int].1.quads@
        == ns[b[x] as int].1.quads@ by {
        assert(p[x] == q[x]);
        let i = a[x] as int;
        let j = choose|j: int| 0 <= j < ns.len() && (#[trigger] ns[j]).0 == ms[i].0 && ns[j].1.quads@ == ms[i].1.quads@;
        let y = b[x] as int;
        if j < y {
            assert(ns[j].0 != ns[y].0);
        } else if y < j {
            assert(ns[y].0 != ns[j].0);
        }
    }
}

proof fn lemma_same_region(
    ms: Seq<(BrickKey, &BrickMesh)>,
    ns: Seq<(BrickKey, &BrickMesh)>,
    a: Seq<usize>,
    b: Seq<usize>,
    n: nat,
    rk: RegionKey,
    size: RegionSize,
    split: Split,
)
    requires
        n <= a.len(),
        a.len() == b.len(),
        forall|x: int|
            0 <= x < a.len() ==> ms[(#[trigger] a[x]) as int].0 == ns[(#[trigger] b[x]) as int].0 && ms[a[x] as int].1.quads@
                == ns[b[x] as int].1.quads@,
    ensures
        region_quads(ms, a, n, rk, size) == region_quads(ns, b, n, rk, size),
        region_vertices(ms, a, n, rk, size, split) == region_vertices(ns, b, n, rk, size, split),
        region_indices(ms, a, n, rk, size, split) == region_indices(ns, b, n, rk, size, split),
        region_owners(ms, a, n, rk, size, split) == region_owners(ns, b, n, rk, size, split),
    decreases n,
{
    if n > 0 {
        lemma_same_region(ms, ns, a, b, (n - 1) as nat, rk, size, split);
        let x = n - 1;
        assert(ms[a[x] as int].0 == ns[b[x] as int].0 && ms[a[x] as int].1.quads@ == ns[b[x] as int].1.quads@);
        assert(region_quads(ms, a, n, rk, size) =~= region_quads(ns, b, n, rk, size));
        assert(region_vertices(ms, a, n, rk, size, split) =~= region_vertices(ns, b, n, rk, size, split));
        assert(region_indices(ms, a, n, rk, size, split) =~= region_indices(ns, b, n, rk, size, split));
        assert(region_owners(ms, a, n, rk, size, split) =~= region_owners(ns, b, n, rk, size, split));
    }
}

/// The order in which the bricks are given does not matter: the same bricks make the same regions, each
/// with the same quads, vertices, indices and triangle owners. The regions are those of the bricks that
/// have quads.
pub proof fn law_regions_do_not_depend_on_the_order(
    ms: Seq<(BrickKey, &BrickMesh)>,
    ns: Seq<(BrickKey, &BrickMesh)>,
    regions_a: Map<RegionKey, RegionMesh>,
    regions_b: Map<RegionKey, RegionMesh>,
    ord_a: Seq<usize>,
    ord_b: Seq<usize>,
    size: RegionSize,
    split: Split,
)
    requires
        distinct_bricks(ms),
        distinct_bricks(ns),
        bricks_within(ms, ns),
        bricks_within(ns, ms),
        ms.len() <= usize::MAX,
        ns.len() <= usize::MAX,
        brick_order(ms, ord_a),
        brick_order(ns, ord_b),
        grouped(regions_a, ms, ord_a, ord_a.len(), size, split),
        grouped(regions_b, ns, ord_b, ord_b.len(), size, split),
    ensures
        regions_a.dom() == regions_b.dom(),
        forall|rk: RegionKey| #[trigger]
            regions_a.dom().contains(rk) ==> {
                let (a, b) = (regions_a[rk], regions_b[rk]);
                &&& a.key == b.key && a.size == b.size
                &&& a.quads@ == b.quads@
                &&& a.vertices@ == b.vertices@
                &&& a.indices@ == b.indices@
                &&& a.tri_quad@ == b.tri_quad@
            },
        forall|rk: RegionKey| #[trigger]
            regions_a.dom().contains(rk) <==> exists|i: int|
                0 <= i < ms.len() && (#[trigger] ms[i]).1.quads@.len() > 0 && RegionKey::spec_of(ms[i].0, size) == rk,
{
    lemma_same_line(ms, ns, ord_a, ord_b);
    let n = ord_a.len();
    assert forall|rk: RegionKey| #[trigger] regions_a.dom().contains(rk) <==> regions_b.dom().contains(rk) by {
        if has_brick(ms, ord_a, n as int, rk, size) {
            let x = choose|x: int| 0 <= x < n && RegionKey::spec_of(ms[(#[trigger] ord_a[x]) as int].0, size) == rk;
            assert(RegionKey::spec_of(ns[ord_b[x] as int].0, size) == rk);
        }
        if has_brick(ns, ord_b, n as int, rk, size) {
            let x = choose|x: int| 0 <= x < n && RegionKey::spec_of(ns[(#[trigger] ord_b[x]) as int].0, size) == rk;
            assert(RegionKey::spec_of(ms[ord_a[x] as int].0, size) == rk);
        }
    }
    assert(regions_a.dom() =~= regions_b.dom());
    assert forall|rk: RegionKey| #[trigger] regions_a.dom().contains(rk) implies {
        let (a, b) = (regions_a[rk], regions_b[rk]);
        &&& a.key == b.key && a.size == b.size
        &&& a.quads@ == b.quads@
        &&& a.vertices@ == b.vertices@
        &&& a.indices@ == b.indices@
        &&& a.tri_quad@ == b.tri_quad@
    } by {
        lemma_same_region(ms, ns, ord_a, ord_b, n, rk, size, split);
        assert(regions_b.dom().contains(rk));
        assert(is_region(regions_a[rk], ms, ord_a, n, rk, size, split));
        assert(is_region(regions_b[rk], ns, ord_b, n, rk, size, split));
    }
    assert forall|rk: RegionKey| #[trigger] regions_a.dom().contains(rk) <==> exists|i: int|
        0 <= i < ms.len() && (#[trigger] ms[i]).1.quads@.len() > 0 && RegionKey::spec_of(ms[i].0, size) == rk by {
        if has_brick(ms, ord_a, n as int, rk, size) {
            let x = choose|x: int| 0 <= x < n && RegionKey::spec_of(ms[(#[trigger] ord_a[x]) as int].0, size) == rk;
            assert(ord_a.contains(ord_a[x]));
            assert(ms[ord_a[x] as int].1.quads@.len() > 0);
        }
        if exists|i: int| 0 <= i < ms.len() && (#[trigger] ms[i]).1.quads@.len() > 0 && RegionKey::spec_of(ms[i].0, size) == rk {
            let i = choose|i: int| 0 <= i < ms.len() && (#[trigger] ms[i]).1.quads@.len() > 0 && RegionKey::spec_of(ms[i].0, size) == rk;
            assert(ord_a.contains(i as usize));
            let x = choose|x: int| 0 <= x < n && ord_a[x] == i as usize;
            assert(ms[ord_a[x] as int].0 == ms[i].0);
        }
    }
}

} // verus!
