//! The meshes of a whole world, triangulated without T-junctions, form a closed surface.
use crate::derived::coverage::{along, law_mesh_area_is_bounded, law_mesh_quads_are_well_formed};
use crate::derived::mesh::{cell, inside, mesh_quads, outside, voxel, world_view, Merge, Quad};
use crate::derived::surface::total_area;
use crate::derived::triangles::{all_triangles, all_vertices, Split};
use crate::derived::watertight::{
    aligned, beside, count_if, edge_of_brick, lemma_mesh_runs, lemma_mesh_units, lemma_outlines_are_units, lemma_outlines_off_lattice,
    lemma_reversed, lemma_rim_segment, lemma_unaligned, lemma_units_in_brick, moved, on_lattice, on_rim, outlines_run, point, segment, show_step, shows,
    triangles_run, turned, twice, units_run, Point,
};
use crate::world::{lemma_keys, BrickKey, VoxelCoord, World};
use vstd::prelude::*;

verus! {

/// The voxel at `p` is occupied.
pub open spec fn solid(world: &World, p: Point) -> bool {
    &&& -0x4000_0000 <= p.0 < 0x4000_0000
    &&& -0x4000_0000 <= p.1 < 0x4000_0000
    &&& -0x4000_0000 <= p.2 < 0x4000_0000
    &&& world.at(VoxelCoord { x: p.0 as i32, y: p.1 as i32, z: p.2 as i32 }) is Some
}

/// `p`, counted from the origin of brick `k`.
pub open spec fn local(k: BrickKey, p: Point) -> Point {
    (p.0 - 8 * k.x, p.1 - 8 * k.y, p.2 - 8 * k.z)
}

/// The mesh of the world's brick `i`.
pub open spec fn mesh_at(world: &World, merge: Merge, i: int) -> Seq<Quad> {
    mesh_quads(world_view(world, world.keys()[i]), merge)
}

/// The neighbour of `p` behind face `f`.
pub open spec fn next_to(p: Point, f: int) -> Point {
    moved(
        p,
        f / 2,
        if f % 2 == 1 {
            1
        } else {
            -1
        },
    )
}

/// Face `f` of the voxel at `p` is exposed.
pub open spec fn open_face(world: &World, p: Point, f: int) -> bool {
    solid(world, p) && !solid(world, next_to(p, f))
}

/// A brick sees the world's voxels, in it and just outside it.
proof fn lemma_view(world: &World, k: BrickKey, p: Point)
    requires
        world.wf(),
        world.map().dom().contains(k),
        inside(local(k, p)) || outside(local(k, p)),
    ensures
        world_view(world, k)(local(k, p)) is Some == solid(world, p),
{
    let v = voxel(k, local(k, p));
    assert(v == VoxelCoord { x: p.0 as i32, y: p.1 as i32, z: p.2 as i32 });
    if world.map().dom().contains(v.key()) {
        assert(v.key().in_bounds());
    }
}

proof fn lemma_shows(world: &World, k: BrickKey, p: Point, f: int)
    requires
        world.wf(),
        world.map().dom().contains(k),
        inside(local(k, p)),
        0 <= f < 6,
    ensures
        shows(world_view(world, k), local(k, p), f) == open_face(world, p, f),
{
    let l = local(k, p);
    let q = next_to(p, f);
    let occ = world_view(world, k);
    assert(f == 0 || f == 1 || f == 2 || f == 3 || f == 4 || f == 5);
    lemma_view(world, k, p);
    assert(inside(local(k, q)) || outside(local(k, q)));
    lemma_view(world, k, q);
    let (x, u, v) = (along(f / 2, l), along((f / 2 + 1) % 3, l), along((f / 2 + 2) % 3, l));
    assert(cell(f / 2, x, u, v) == l);
    let s = if f % 2 == 1 {
        1int
    } else {
        -1int
    };
    assert(cell(f / 2, x + s, u, v) == local(k, q));
}

/// How many of the first `n` bricks show face `f` of the voxel at `p`.
spec fn shown(world: &World, n: nat, p: Point, f: int) -> int
    decreases n,
{
    if n == 0 {
        0
    } else {
        shown(world, (n - 1) as nat, p, f) + count_if(shows(world_view(world, world.keys()[n - 1]), local(world.keys()[n - 1], p), f))
    }
}

proof fn lemma_shown_none(world: &World, n: nat, p: Point, f: int)
    requires
        forall|i: int| 0 <= i < n ==> !shows(world_view(world, #[trigger] world.keys()[i]), local(world.keys()[i], p), f),
    ensures
        shown(world, n, p, f) == 0,
    decreases n,
{
    if n > 0 {
        lemma_shown_none(world, (n - 1) as nat, p, f);
    }
}

proof fn lemma_shown_once(world: &World, n: nat, p: Point, f: int, k: int)
    requires
        0 <= k < n,
        forall|i: int|
            0 <= i < n ==> shows(world_view(world, #[trigger] world.keys()[i]), local(world.keys()[i], p), f) == (i == k),
    ensures
        shown(world, n, p, f) == 1,
    decreases n,
{
    if k == n - 1 {
        lemma_shown_none(world, (n - 1) as nat, p, f);
    } else {
        lemma_shown_once(world, (n - 1) as nat, p, f, k);
    }
}

/// The bricks together show each exposed face once.
proof fn lemma_shown(world: &World, p: Point, f: int)
    requires
        world.wf(),
        0 <= f < 6,
    ensures
        shown(world, world.keys().len(), p, f) == count_if(open_face(world, p, f)),
{
    let n = world.keys().len();
    lemma_keys(world);
    if open_face(world, p, f) {
        let v = VoxelCoord { x: p.0 as i32, y: p.1 as i32, z: p.2 as i32 };
        let k = v.key();
        assert(world.map().dom().contains(k));
        let i0 = choose|i: int| 0 <= i < n && #[trigger] world.keys()[i] == k;
        assert(inside(local(k, p)));
        assert forall|i: int| 0 <= i < n implies shows(world_view(world, #[trigger] world.keys()[i]), local(world.keys()[i], p), f) == (i
            == i0) by {
            if inside(local(world.keys()[i], p)) {
                assert(world.keys()[i] == k);
                lemma_shows(world, world.keys()[i], p, f);
            }
        }
        lemma_shown_once(world, n, p, f, i0);
    } else {
        assert forall|i: int| 0 <= i < n implies !shows(world_view(world, #[trigger] world.keys()[i]), local(world.keys()[i], p), f) by {
            if inside(local(world.keys()[i], p)) {
                lemma_shows(world, world.keys()[i], p, f);
            }
        }
        lemma_shown_none(world, n, p, f);
    }
}

/// How often the first `n` meshes' outlines pass the unit edge from `a` along axis `d`.
spec fn total_units(world: &World, merge: Merge, n: nat, a: Point, d: int) -> int
    decreases n,
{
    if n == 0 {
        0
    } else {
        total_units(world, merge, (n - 1) as nat, a, d) + units_run(
            mesh_at(world, merge, n - 1),
            mesh_at(world, merge, n - 1).len(),
            local(world.keys()[n - 1], a),
            d,
        )
    }
}

spec fn shown_step(world: &World, n: nat, a: Point, d: int, f: int) -> int {
    turned(f, d, shown(world, n, beside(f, a, d, 0), f) - shown(world, n, beside(f, a, d, -1), f))
}

proof fn lemma_shown_step(world: &World, n: nat, a: Point, d: int, f: int)
    requires
        n > 0,
        0 <= d < 3,
        0 <= f < 6,
    ensures
        shown_step(world, n, a, d, f) == shown_step(world, (n - 1) as nat, a, d, f) + show_step(
            world_view(world, world.keys()[n - 1]),
            local(world.keys()[n - 1], a),
            d,
            f,
        ),
{
    let k = world.keys()[n - 1];
    assert(local(k, beside(f, a, d, 0)) == beside(f, local(k, a), d, 0));
    assert(local(k, beside(f, a, d, -1)) == beside(f, local(k, a), d, -1));
}

proof fn lemma_total_units(world: &World, merge: Merge, n: nat, a: Point, d: int)
    requires
        0 <= d < 3,
    ensures
        total_units(world, merge, n, a, d) == shown_step(world, n, a, d, 0) + shown_step(world, n, a, d, 1) + shown_step(world, n, a, d, 2)
            + shown_step(world, n, a, d, 3) + shown_step(world, n, a, d, 4) + shown_step(world, n, a, d, 5),
    decreases n,
{
    if n > 0 {
        lemma_total_units(world, merge, (n - 1) as nat, a, d);
        let k = world.keys()[n - 1];
        lemma_mesh_units(world_view(world, k), merge, local(k, a), d);
        lemma_shown_step(world, n, a, d, 0);
        lemma_shown_step(world, n, a, d, 1);
        lemma_shown_step(world, n, a, d, 2);
        lemma_shown_step(world, n, a, d, 3);
        lemma_shown_step(world, n, a, d, 4);
        lemma_shown_step(world, n, a, d, 5);
    }
}

/// Around an edge, solid voxels begin as often as they end.
proof fn lemma_balance(world: &World, merge: Merge, a: Point, d: int)
    requires
        world.wf(),
        0 <= d < 3,
    ensures
        total_units(world, merge, world.keys().len(), a, d) == 0,
{
    let n = world.keys().len();
    lemma_total_units(world, merge, n, a, d);
    let p = if d == 0 {
        1int
    } else {
        0
    };
    let q = if d == 2 {
        1int
    } else {
        2
    };
    lemma_axis(world, a, d, p);
    lemma_axis(world, a, d, q);
    assert(shown_step(world, n, a, d, 2 * d) == 0);
    assert(shown_step(world, n, a, d, 2 * d + 1) == 0);
    assert(moved(moved(a, p, -1), q, -1) == moved(moved(a, q, -1), p, -1));
}

/// The two directions of axis `x` beside an edge along axis `d`, by the four voxels around it.
proof fn lemma_axis(world: &World, a: Point, d: int, x: int)
    requires
        world.wf(),
        0 <= d < 3,
        0 <= x < 3,
        x != d,
    ensures
        ({
            let n = world.keys().len();
            let c = 3 - x - d;
            let near = count_if(solid(world, moved(a, x, -1))) - count_if(solid(world, a));
            let far = count_if(solid(world, moved(moved(a, x, -1), c, -1))) - count_if(solid(world, moved(a, c, -1)));
            shown_step(world, n, a, d, 2 * x) + shown_step(world, n, a, d, 2 * x + 1) == if d == (x + 1) % 3 {
                near - far
            } else {
                far - near
            }
        }),
{
    let c = 3 - x - d;
    lemma_shown(world, beside(2 * x, a, d, 0), 2 * x);
    lemma_shown(world, beside(2 * x, a, d, -1), 2 * x);
    lemma_shown(world, beside(2 * x + 1, a, d, 0), 2 * x + 1);
    lemma_shown(world, beside(2 * x + 1, a, d, -1), 2 * x + 1);
    assert((2 * x) / 2 == x && (2 * x + 1) / 2 == x && (2 * x) % 2 == 0 && (2 * x + 1) % 2 == 1);
    assert(beside(2 * x, a, d, 0) == a);
    assert(next_to(a, 2 * x) == moved(a, x, -1));
    assert(beside(2 * x, a, d, -1) == moved(a, c, -1));
    assert(next_to(moved(a, c, -1), 2 * x) == moved(moved(a, x, -1), c, -1));
    assert(beside(2 * x + 1, a, d, 0) == moved(a, x, -1));
    assert(next_to(moved(a, x, -1), 2 * x + 1) == a);
    assert(beside(2 * x + 1, a, d, -1) == moved(moved(a, x, -1), c, -1));
    assert(next_to(moved(moved(a, x, -1), c, -1), 2 * x + 1) == moved(a, c, -1));
}

spec fn units_at(world: &World, merge: Merge, i: int, a: Point, d: int) -> int {
    units_run(mesh_at(world, merge, i), mesh_at(world, merge, i).len(), local(world.keys()[i], a), d)
}

spec fn segment_at(world: &World, merge: Merge, i: int, a: Point, d: int, n: int) -> bool {
    segment(mesh_at(world, merge, i), local(world.keys()[i], a), d, n)
}

proof fn lemma_meshes_wf(world: &World, merge: Merge, i: int)
    ensures
        forall|k: int| 0 <= k < mesh_at(world, merge, i).len() ==> (#[trigger] mesh_at(world, merge, i)[k]).wf(),
{
    assert forall|k: int| 0 <= k < mesh_at(world, merge, i).len() implies (#[trigger] mesh_at(world, merge, i)[k]).wf() by {
        law_mesh_quads_are_well_formed(world_view(world, world.keys()[i]), merge, k);
    }
}

/// A line on brick boundaries.
spec fn on_seam(a: Point, d: int) -> bool {
    ||| d != 0 && a.0 % 8 == 0
    ||| d != 1 && a.1 % 8 == 0
    ||| d != 2 && a.2 % 8 == 0
}

/// A brick whose outlines pass an edge has that edge.
proof fn lemma_edge_at(world: &World, merge: Merge, i: int, a: Point, d: int)
    requires
        0 <= d < 3,
        units_at(world, merge, i, a, d) != 0,
    ensures
        edge_of_brick(local(world.keys()[i], a), d),
{
    lemma_meshes_wf(world, merge, i);
    let s = mesh_at(world, merge, i);
    if !edge_of_brick(local(world.keys()[i], a), d) {
        lemma_units_in_brick(s, s.len(), local(world.keys()[i], a), d);
    }
}

proof fn lemma_seam_is_rim(k: BrickKey, a: Point, d: int)
    requires
        edge_of_brick(local(k, a), d),
        on_seam(a, d),
    ensures
        on_rim(local(k, a), d),
{
}

proof fn lemma_one_brick_off_seams(k: BrickKey, l: BrickKey, a: Point, d: int)
    requires
        0 <= d < 3,
        edge_of_brick(local(k, a), d),
        edge_of_brick(local(l, a), d),
        !on_seam(a, d),
    ensures
        k == l,
{
    assert(k.x == l.x);
    assert(k.y == l.y);
    assert(k.z == l.z);
}

/// Bricks that share an edge split it alike.
proof fn lemma_same_segment(world: &World, merge: Merge, i: int, j: int, a: Point, d: int, n: int)
    requires
        world.wf(),
        0 <= i < world.keys().len(),
        0 <= j < world.keys().len(),
        0 <= d < 3,
        n >= 1,
        units_at(world, merge, i, a, d) != 0,
        units_at(world, merge, j, a, d) != 0,
    ensures
        segment_at(world, merge, i, a, d, n) == segment_at(world, merge, j, a, d, n),
{
    let (k, l) = (world.keys()[i], world.keys()[j]);
    lemma_edge_at(world, merge, i, a, d);
    lemma_edge_at(world, merge, j, a, d);
    if on_seam(a, d) {
        lemma_seam_is_rim(k, a, d);
        lemma_seam_is_rim(l, a, d);
        lemma_rim_segment(mesh_at(world, merge, i), local(k, a), d, n);
        lemma_rim_segment(mesh_at(world, merge, j), local(l, a), d, n);
    } else {
        lemma_one_brick_off_seams(k, l, a, d);
        lemma_keys(world);
    }
}

/// `p` in half-voxel units, counted from the origin of brick `k`.
pub open spec fn local_half(k: BrickKey, p: Point) -> Point {
    (p.0 - 16 * k.x, p.1 - 16 * k.y, p.2 - 16 * k.z)
}

/// How often the outlines of the first `n` meshes run from `a` to `b`, less how often they run back.
spec fn total_runs(world: &World, merge: Merge, n: nat, a: Point, b: Point) -> int
    decreases n,
{
    if n == 0 {
        0
    } else {
        total_runs(world, merge, (n - 1) as nat, a, b) + outlines_run(
            mesh_at(world, merge, n - 1),
            Split::Watertight,
            mesh_at(world, merge, n - 1).len(),
            local_half(world.keys()[n - 1], a),
            local_half(world.keys()[n - 1], b),
        )
    }
}

proof fn lemma_total_runs(world: &World, merge: Merge, m: nat, a: Point, d: int, n: int, c: bool)
    requires
        m <= world.keys().len(),
        0 <= d < 3,
        n >= 1,
        forall|i: int|
            0 <= i < world.keys().len() && #[trigger] units_at(world, merge, i, a, d) != 0 ==> segment_at(world, merge, i, a, d, n) == c,
    ensures
        total_runs(world, merge, m, twice(a), twice(moved(a, d, n))) == if c {
            total_units(world, merge, m, a, d)
        } else {
            0
        },
    decreases m,
{
    if m > 0 {
        let i = m - 1;
        lemma_total_runs(world, merge, i as nat, a, d, n, c);
        let k = world.keys()[i];
        let s = mesh_at(world, merge, i);
        lemma_meshes_wf(world, merge, i);
        assert forall|j: int| 0 <= j < s.len() implies (#[trigger] s[j]).rectangle() by {
            assert(s[j].wf());
        }
        lemma_outlines_are_units(s, s.len(), local(k, a), d, n);
        assert(local_half(k, twice(a)) == twice(local(k, a)));
        assert(local_half(k, twice(moved(a, d, n))) == twice(moved(local(k, a), d, n)));
        assert(units_at(world, merge, i, a, d) == units_run(s, s.len(), local(k, a), d));
    }
}

proof fn lemma_forward(world: &World, merge: Merge, a: Point, d: int, n: int)
    requires
        world.wf(),
        0 <= d < 3,
        n >= 1,
    ensures
        total_runs(world, merge, world.keys().len(), twice(a), twice(moved(a, d, n))) == 0,
{
    let some = exists|i: int| 0 <= i < world.keys().len() && #[trigger] units_at(world, merge, i, a, d) != 0;
    let i = choose|i: int| 0 <= i < world.keys().len() && #[trigger] units_at(world, merge, i, a, d) != 0;
    let c = segment_at(world, merge, i, a, d, n);
    assert forall|j: int| 0 <= j < world.keys().len() && #[trigger] units_at(world, merge, j, a, d) != 0 implies segment_at(
        world,
        merge,
        j,
        a,
        d,
        n,
    ) == c by {
        lemma_same_segment(world, merge, i, j, a, d, n);
    }
    lemma_total_runs(world, merge, world.keys().len(), a, d, n, c);
    lemma_balance(world, merge, a, d);
}

proof fn lemma_total_reversed(world: &World, merge: Merge, m: nat, a: Point, b: Point)
    ensures
        total_runs(world, merge, m, a, b) == -total_runs(world, merge, m, b, a),
    decreases m,
{
    if m > 0 {
        lemma_total_reversed(world, merge, (m - 1) as nat, a, b);
        let k = world.keys()[m - 1];
        let s = mesh_at(world, merge, m - 1);
        lemma_reversed(s, s.len(), local_half(k, a), local_half(k, b));
    }
}

/// Outlines run along lattice lines only.
proof fn lemma_elsewhere(world: &World, merge: Merge, m: nat, a: Point, b: Point)
    requires
        m <= world.keys().len(),
        !on_lattice(a) || !on_lattice(b) || exists|x: Point, y: Point| a == #[trigger] twice(x) && b == #[trigger] twice(y) && !aligned(x, y) && !aligned(y, x),
    ensures
        total_runs(world, merge, m, a, b) == 0,
    decreases m,
{
    if m > 0 {
        lemma_elsewhere(world, merge, (m - 1) as nat, a, b);
        let k = world.keys()[m - 1];
        let s = mesh_at(world, merge, m - 1);
        lemma_meshes_wf(world, merge, m - 1);
        assert forall|j: int| 0 <= j < s.len() implies (#[trigger] s[j]).rectangle() by {
            assert(s[j].wf());
        }
        if !on_lattice(a) || !on_lattice(b) {
            assert(!on_lattice(local_half(k, a)) || !on_lattice(local_half(k, b)));
            lemma_outlines_off_lattice(s, s.len(), local_half(k, a), local_half(k, b));
        } else {
            let (x, y) = choose|x: Point, y: Point| a == #[trigger] twice(x) && b == #[trigger] twice(y) && !aligned(x, y) && !aligned(y, x);
            lemma_local_unaligned(k, x, y);
            lemma_local_unaligned(k, y, x);
            lemma_unaligned(s, s.len(), local(k, x), local(k, y));
            assert(local_half(k, a) == twice(local(k, x)));
            assert(local_half(k, b) == twice(local(k, y)));
        }
    }
}

proof fn lemma_local_unaligned(k: BrickKey, x: Point, y: Point)
    requires
        !aligned(x, y),
    ensures
        !aligned(local(k, x), local(k, y)),
{
    if aligned(local(k, x), local(k, y)) {
        let (d, n) = choose|d: int, n: int| 0 <= d < 3 && n >= 1 && #[trigger] moved(local(k, x), d, n) == local(k, y);
        assert(moved(x, d, n) == y);
    }
}

proof fn lemma_no_runs(world: &World, merge: Merge, a: Point, b: Point)
    requires
        world.wf(),
    ensures
        total_runs(world, merge, world.keys().len(), a, b) == 0,
{
    let m = world.keys().len();
    if on_lattice(a) && on_lattice(b) {
        let x = (a.0 / 2, a.1 / 2, a.2 / 2);
        let y = (b.0 / 2, b.1 / 2, b.2 / 2);
        assert(twice(x) == a && twice(y) == b);
        if aligned(x, y) {
            let (d, n) = choose|d: int, n: int| 0 <= d < 3 && n >= 1 && #[trigger] moved(x, d, n) == y;
            lemma_forward(world, merge, x, d, n);
        } else if aligned(y, x) {
            let (d, n) = choose|d: int, n: int| 0 <= d < 3 && n >= 1 && #[trigger] moved(y, d, n) == x;
            lemma_forward(world, merge, y, d, n);
            lemma_total_reversed(world, merge, m, a, b);
        } else {
            lemma_elsewhere(world, merge, m, a, b);
        }
    } else {
        lemma_elsewhere(world, merge, m, a, b);
    }
}

/// How many edges of triangle `t` run from `a` to `b`.
pub open spec fn triangle_edges(vs: Seq<[u8; 3]>, t: [u32; 3], a: Point, b: Point) -> int {
    let (x, y, z) = (point(vs[t[0] as int]), point(vs[t[1] as int]), point(vs[t[2] as int]));
    count_if(x == a && y == b) + count_if(y == a && z == b) + count_if(z == a && x == b)
}

/// The same of the first `n` triangles.
pub open spec fn edges(vs: Seq<[u8; 3]>, ts: Seq<[u32; 3]>, n: nat, a: Point, b: Point) -> int
    decreases n,
{
    if n == 0 {
        0
    } else {
        edges(vs, ts, (n - 1) as nat, a, b) + triangle_edges(vs, ts[n - 1], a, b)
    }
}

/// How many triangle edges of the world's first `n` meshes run from `a` to `b`, which are points of the
/// world in half-voxel units.
pub open spec fn world_edges(world: &World, merge: Merge, n: nat, a: Point, b: Point) -> int
    decreases n,
{
    if n == 0 {
        0
    } else {
        let k = world.keys()[n - 1];
        let s = mesh_at(world, merge, n - 1);
        let vs = all_vertices(s, Split::Watertight, s.len());
        let ts = all_triangles(s, Split::Watertight, s.len());
        world_edges(world, merge, (n - 1) as nat, a, b) + edges(vs, ts, ts.len(), local_half(k, a), local_half(k, b))
    }
}

proof fn lemma_edges(vs: Seq<[u8; 3]>, ts: Seq<[u32; 3]>, n: nat, a: Point, b: Point)
    ensures
        edges(vs, ts, n, a, b) - edges(vs, ts, n, b, a) == triangles_run(vs, ts, n, a, b),
    decreases n,
{
    if n > 0 {
        lemma_edges(vs, ts, (n - 1) as nat, a, b);
    }
}

/// A mesh has no more quads than exposed faces.
proof fn lemma_quad_count(s: Seq<Quad>, n: nat)
    requires
        n <= s.len(),
        forall|i: int| 0 <= i < s.len() ==> (#[trigger] s[i]).wf(),
    ensures
        n <= total_area(s, n),
    decreases n,
{
    if n > 0 {
        lemma_quad_count(s, (n - 1) as nat);
        let q = s[n - 1];
        assert((q.u1 - q.u0) * (q.v1 - q.v0) >= 1) by (nonlinear_arith)
            requires
                q.u1 - q.u0 >= 1,
                q.v1 - q.v0 >= 1,
        ;
    }
}

proof fn lemma_world_edges(world: &World, merge: Merge, n: nat, a: Point, b: Point)
    requires
        n <= world.keys().len(),
    ensures
        world_edges(world, merge, n, a, b) - world_edges(world, merge, n, b, a) == total_runs(world, merge, n, a, b),
    decreases n,
{
    if n > 0 {
        lemma_world_edges(world, merge, (n - 1) as nat, a, b);
        let k = world.keys()[n - 1];
        let s = mesh_at(world, merge, n - 1);
        let vs = all_vertices(s, Split::Watertight, s.len());
        let ts = all_triangles(s, Split::Watertight, s.len());
        lemma_meshes_wf(world, merge, n - 1);
        law_mesh_area_is_bounded(world_view(world, k), merge);
        lemma_quad_count(s, s.len());
        assert forall|j: int| 0 <= j < s.len() implies (#[trigger] s[j]).rectangle() by {
            assert(s[j].wf());
        }
        lemma_mesh_runs(s, Split::Watertight, s.len(), local_half(k, a), local_half(k, b));
        lemma_edges(vs, ts, ts.len(), local_half(k, a), local_half(k, b));
    }
}

/// The triangles of a world's meshes, split at every vertex on their sides, are closed: as many edges
/// run from `a` to `b` as from `b` to `a`, across brick boundaries too.
pub proof fn law_watertight_meshes_are_closed(world: &World, merge: Merge, a: Point, b: Point)
    requires
        world.wf(),
    ensures
        world_edges(world, merge, world.keys().len(), a, b) == world_edges(world, merge, world.keys().len(), b, a),
{
    lemma_world_edges(world, merge, world.keys().len(), a, b);
    lemma_no_runs(world, merge, a, b);
}

} // verus!
