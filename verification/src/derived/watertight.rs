//! The triangles of a world's meshes form a closed surface: every directed edge is matched by as many
//! edges the other way.
use crate::derived::coverage::{along, exposed_at, law_mesh_covers_each_exposed_face_once, law_mesh_quads_are_well_formed, quad_covers};
use crate::derived::mesh::{inside, mesh_quads, Local, Merge, Quad};
use crate::derived::triangles::{
    all_triangles, all_vertices, centre, doubled, has_vertex, is_corner, lemma_outline, outline, quad_triangles, quad_vertices, side_vertices,
    Split,
};
use vstd::prelude::*;

verus! {

/// A point, by its coordinates.
pub type Point = (int, int, int);

pub open spec fn point(p: [u8; 3]) -> Point {
    (p[0] as int, p[1] as int, p[2] as int)
}

/// How often the edge from `x` to `y` runs from `a` to `b`, less how often it runs back.
pub open spec fn run_of(x: Point, y: Point, a: Point, b: Point) -> int {
    (if x == a && y == b {
        1int
    } else {
        0
    }) - (if x == b && y == a {
        1int
    } else {
        0
    })
}

/// How often the edges of one triangle run from `a` to `b`, less how often they run back.
pub open spec fn triangle_runs(vs: Seq<[u8; 3]>, t: [u32; 3], a: Point, b: Point) -> int {
    let (x, y, z) = (point(vs[t[0] as int]), point(vs[t[1] as int]), point(vs[t[2] as int]));
    run_of(x, y, a, b) + run_of(y, z, a, b) + run_of(z, x, a, b)
}

/// The same of the first `n` triangles.
pub open spec fn triangles_run(vs: Seq<[u8; 3]>, ts: Seq<[u32; 3]>, n: nat, a: Point, b: Point) -> int
    decreases n,
{
    if n == 0 {
        0
    } else {
        triangles_run(vs, ts, (n - 1) as nat, a, b) + triangle_runs(vs, ts[n - 1], a, b)
    }
}

/// How often the path over `s`, and on to `end`, runs from `a` to `b`, less how often it runs back.
pub open spec fn path_runs(s: Seq<Point>, end: Point, a: Point, b: Point) -> int
    decreases s.len(),
{
    if s.len() == 0 {
        0
    } else if s.len() == 1 {
        run_of(s[0], end, a, b)
    } else {
        run_of(s[0], s[1], a, b) + path_runs(s.drop_first(), end, a, b)
    }
}

/// The outline of a quad as points, in half-voxel units.
pub open spec fn outline_points(quads: Seq<Quad>, split: Split, q: Quad) -> Seq<Point> {
    outline(quads, split, q).map_values(|p: [u8; 3]| point(doubled(p)))
}

/// The same of a quad's closed outline.
pub open spec fn outline_runs(quads: Seq<Quad>, split: Split, q: Quad, a: Point, b: Point) -> int {
    let o = outline_points(quads, split, q);
    path_runs(o, o[0], a, b)
}

/// The same of the outlines of the first `n` quads.
pub open spec fn outlines_run(quads: Seq<Quad>, split: Split, n: nat, a: Point, b: Point) -> int
    decreases n,
{
    if n == 0 {
        0
    } else {
        outlines_run(quads, split, (n - 1) as nat, a, b) + outline_runs(quads, split, quads[n - 1], a, b)
    }
}

proof fn lemma_triangles_extend(vs: Seq<[u8; 3]>, more: Seq<[u8; 3]>, ts: Seq<[u32; 3]>, rest: Seq<[u32; 3]>, n: nat, a: Point, b: Point)
    requires
        n <= ts.len(),
        forall|i: int, c: int| 0 <= i < n && 0 <= c < 3 ==> #[trigger] ts[i][c] < vs.len(),
    ensures
        triangles_run(vs + more, ts + rest, n, a, b) == triangles_run(vs, ts, n, a, b),
    decreases n,
{
    if n > 0 {
        lemma_triangles_extend(vs, more, ts, rest, (n - 1) as nat, a, b);
        let t = ts[n - 1];
        assert((ts + rest)[n - 1] == t);
        assert(ts[n - 1][0] < vs.len() && ts[n - 1][1] < vs.len() && ts[n - 1][2] < vs.len());
        assert((vs + more)[t[0] as int] == vs[t[0] as int]);
        assert((vs + more)[t[1] as int] == vs[t[1] as int]);
        assert((vs + more)[t[2] as int] == vs[t[2] as int]);
    }
}

/// The path over `s` from place `i` on.
spec fn runs_from(s: Seq<Point>, end: Point, i: nat, a: Point, b: Point) -> int
    decreases s.len() - i,
{
    if i >= s.len() {
        0
    } else {
        run_of(
            s[i as int],
            if i + 1 < s.len() {
                s[(i + 1) as int]
            } else {
                end
            },
            a,
            b,
        ) + runs_from(s, end, i + 1, a, b)
    }
}

proof fn lemma_runs_from(s: Seq<Point>, end: Point, i: nat, a: Point, b: Point)
    requires
        i <= s.len(),
    ensures
        runs_from(s, end, i, a, b) == path_runs(s.skip(i as int), end, a, b),
    decreases s.len() - i,
{
    if i < s.len() {
        lemma_runs_from(s, end, i + 1, a, b);
        let t = s.skip(i as int);
        assert(t.drop_first() =~= s.skip((i + 1) as int));
    }
}

/// The triangles of a fan around `c`: the spokes cancel, the rim remains.
proof fn lemma_fan(vs: Seq<[u8; 3]>, ts: Seq<[u32; 3]>, from: nat, base: int, m: int, n: nat, o: Seq<Point>, c: Point, a: Point, b: Point)
    requires
        m >= 1,
        n <= m,
        o.len() == m,
        0 <= base,
        base + m <= u32::MAX,
        from + m <= ts.len(),
        forall|i: int| 0 <= i < m ==> #[trigger] ts[from + i] == [(base + m) as u32, (base + i) as u32, (base + (i + 1) % m) as u32],
        base + m < vs.len(),
        point(vs[base + m]) == c,
        forall|i: int| 0 <= i < m ==> point(#[trigger] vs[base + i]) == o[i],
    ensures
        triangles_run(vs, ts, from + n, a, b) == triangles_run(vs, ts, from, a, b) + (runs_from(o, o[0], 0, a, b) - runs_from(
            o,
            o[0],
            n,
            a,
            b,
        )) + run_of(c, o[0], a, b) - run_of(
            c,
            if n < m {
                o[n as int]
            } else {
                o[0]
            },
            a,
            b,
        ),
    decreases n,
{
    if n > 0 {
        let i = n - 1;
        lemma_fan(vs, ts, from, base, m, i as nat, o, c, a, b);
        lemma_from_step(o, o[0], i as nat, a, b);
        let t = ts[from + i];
        let next = if i + 1 < m {
            i + 1
        } else {
            0
        };
        if i + 1 < m {
            vstd::arithmetic::div_mod::lemma_small_mod((i + 1) as nat, m as nat);
        } else {
            vstd::arithmetic::div_mod::lemma_mod_self_0(m);
        }
        assert((i + 1) % m == next);
        assert(t == [(base + m) as u32, (base + i) as u32, (base + next) as u32]);
        assert(t[0] == base + m && t[1] == base + i && t[2] == base + next);
        assert(point(vs[base + i]) == o[i]);
        assert(point(vs[base + next]) == o[next]);
        assert(from + n - 1 == from + i);
    }
}

proof fn lemma_from_step(s: Seq<Point>, end: Point, i: nat, a: Point, b: Point)
    requires
        i < s.len(),
    ensures
        runs_from(s, end, i, a, b) == run_of(
            s[i as int],
            if i + 1 < s.len() {
                s[(i + 1) as int]
            } else {
                end
            },
            a,
            b,
        ) + runs_from(s, end, i + 1, a, b),
{
}

/// One quad's triangles run as its outline does.
proof fn lemma_quad_runs(quads: Seq<Quad>, split: Split, q: Quad, vs: Seq<[u8; 3]>, ts: Seq<[u32; 3]>, a: Point, b: Point)
    requires
        q.rectangle(),
        vs.len() + 33 <= u32::MAX,
    ensures
        ({
            let m = outline(quads, split, q).len() as int;
            let qt = quad_triangles(vs.len() as int, m);
            triangles_run(vs + quad_vertices(quads, split, q), ts + qt, ts.len() + qt.len(), a, b) == triangles_run(
                vs + quad_vertices(quads, split, q),
                ts + qt,
                ts.len(),
                a,
                b,
            ) + outline_runs(quads, split, q, a, b)
        }),
{
    lemma_outline(quads, split, q);
    let o = outline(quads, split, q);
    let m = o.len() as int;
    let base = vs.len() as int;
    let qv = quad_vertices(quads, split, q);
    let qt = quad_triangles(base, m);
    let v = vs + qv;
    let t = ts + qt;
    let op = outline_points(quads, split, q);
    assert forall|i: int| 0 <= i < m implies point(#[trigger] v[base + i]) == op[i] by {
        assert(v[base + i] == qv[i]);
    }
    lemma_runs_from(op, op[0], 0, a, b);
    assert(op.skip(0) =~= op);
    if m == 4 {
        let k = ts.len();
        assert(t[k as int] == qt[0]);
        assert(t[(k + 1) as int] == qt[1]);
        reveal_with_fuel(triangles_run, 3);
        reveal_with_fuel(runs_from, 5);
        assert(point(v[base + 0]) == op[0] && point(v[base + 1]) == op[1] && point(v[base + 2]) == op[2] && point(v[base + 3]) == op[3]);
        assert(k + qt.len() == k + 2);
    } else {
        assert(v[base + m] == qv[m]);
        assert(qv[m] == centre(q));
        assert forall|i: int| 0 <= i < m implies #[trigger] t[ts.len() + i] == [(base + m) as u32, (base + i) as u32, (base + (i + 1) % m) as u32] by {
            assert(t[ts.len() + i] == qt[i]);
        }
        lemma_fan(v, t, ts.len(), base, m, m as nat, op, point(centre(q)), a, b);
    }
}

pub proof fn lemma_triangle_indices(quads: Seq<Quad>, split: Split, n: nat)
    requires
        n <= quads.len(),
        forall|i: int| 0 <= i < quads.len() ==> (#[trigger] quads[i]).rectangle(),
        33 * quads.len() <= u32::MAX,
    ensures
        forall|i: int, c: int|
            0 <= i < all_triangles(quads, split, n).len() && 0 <= c < 3 ==> #[trigger] all_triangles(quads, split, n)[i][c] < all_vertices(
                quads,
                split,
                n,
            ).len(),
        all_vertices(quads, split, n).len() <= 33 * n,
{
    crate::derived::triangles::lemma_vertex_count(quads, split, n);
    crate::derived::triangles::law_triangles_lie_on_their_quads(quads, split, n);
    assert forall|i: int, c: int| 0 <= i < all_triangles(quads, split, n).len() && 0 <= c < 3 implies #[trigger] all_triangles(
        quads,
        split,
        n,
    )[i][c] < all_vertices(quads, split, n).len() by {
        assert(crate::derived::triangles::corner_on_quad(quads, split, n, i, c));
    }
}

/// A mesh's triangles run as its outlines do: what lies inside a quad cancels.
pub proof fn lemma_mesh_runs(quads: Seq<Quad>, split: Split, n: nat, a: Point, b: Point)
    requires
        n <= quads.len(),
        forall|i: int| 0 <= i < quads.len() ==> (#[trigger] quads[i]).rectangle(),
        33 * quads.len() + 33 <= u32::MAX,
    ensures
        triangles_run(all_vertices(quads, split, n), all_triangles(quads, split, n), all_triangles(quads, split, n).len(), a, b)
            == outlines_run(quads, split, n, a, b),
    decreases n,
{
    if n > 0 {
        let k = (n - 1) as nat;
        let q = quads[k as int];
        lemma_mesh_runs(quads, split, k, a, b);
        lemma_triangle_indices(quads, split, k);
        let (vs, ts) = (all_vertices(quads, split, k), all_triangles(quads, split, k));
        let qt = quad_triangles(vs.len() as int, outline(quads, split, q).len() as int);
        lemma_triangles_extend(vs, quad_vertices(quads, split, q), ts, qt, ts.len(), a, b);
        lemma_quad_runs(quads, split, q, vs, ts, a, b);
    }
}

/// A lattice point in half-voxel units.
pub open spec fn twice(p: Point) -> Point {
    (2 * p.0, 2 * p.1, 2 * p.2)
}

/// A point in half-voxel units that is a lattice point.
pub open spec fn on_lattice(p: Point) -> bool {
    p.0 % 2 == 0 && p.1 % 2 == 0 && p.2 % 2 == 0
}

proof fn lemma_twice_runs(s: Seq<Point>, end: Point, a: Point, b: Point)
    ensures
        path_runs(s.map_values(|p: Point| twice(p)), twice(end), twice(a), twice(b)) == path_runs(s, end, a, b),
    decreases s.len(),
{
    if s.len() > 1 {
        lemma_twice_runs(s.drop_first(), end, a, b);
        assert(s.map_values(|p: Point| twice(p)).drop_first() =~= s.drop_first().map_values(|p: Point| twice(p)));
    }
}

proof fn lemma_off_lattice(s: Seq<Point>, end: Point, a: Point, b: Point)
    requires
        !on_lattice(a) || !on_lattice(b),
    ensures
        path_runs(s.map_values(|p: Point| twice(p)), twice(end), a, b) == 0,
    decreases s.len(),
{
    if s.len() > 1 {
        lemma_off_lattice(s.drop_first(), end, a, b);
        assert(s.map_values(|p: Point| twice(p)).drop_first() =~= s.drop_first().map_values(|p: Point| twice(p)));
    }
}

proof fn lemma_path_concat(s: Seq<Point>, t: Seq<Point>, end: Point, a: Point, b: Point)
    requires
        t.len() > 0,
    ensures
        path_runs(s + t, end, a, b) == path_runs(s, t[0], a, b) + path_runs(t, end, a, b),
    decreases s.len(),
{
    if s.len() == 0 {
        assert(s + t =~= t);
    } else {
        lemma_path_concat(s.drop_first(), t, end, a, b);
        assert((s + t).drop_first() =~= s.drop_first() + t);
        if s.len() == 1 {
            assert(s.drop_first() + t =~= t);
        }
    }
}

/// The next vertex of side `k`, from `t` steps on; its end if there is none.
pub open spec fn next_vertex(quads: Seq<Quad>, split: Split, q: Quad, k: int, t: int) -> int
    decreases q.side(k) - t,
{
    if t >= q.side(k) {
        q.side(k)
    } else if has_vertex(quads, split, q, k, t) {
        t
    } else {
        next_vertex(quads, split, q, k, t + 1)
    }
}

/// How often side `k`, from `t` steps on, runs from `a` to `b`, less how often it runs back.
pub open spec fn side_runs(quads: Seq<Quad>, split: Split, q: Quad, k: int, t: int, a: Point, b: Point) -> int
    decreases q.side(k) - t,
{
    if t >= q.side(k) {
        0
    } else if has_vertex(quads, split, q, k, t) {
        run_of(point(q.rim(k, t)), point(q.rim(k, next_vertex(quads, split, q, k, t + 1))), a, b) + side_runs(quads, split, q, k, t + 1, a, b)
    } else {
        side_runs(quads, split, q, k, t + 1, a, b)
    }
}

/// The outline's vertices on side `k`, from `t` steps on, as points.
pub open spec fn side_points(quads: Seq<Quad>, split: Split, q: Quad, k: int, t: int) -> Seq<Point> {
    side_vertices(quads, split, q, k, t).map_values(|p: [u8; 3]| point(p))
}

proof fn lemma_side_runs(quads: Seq<Quad>, split: Split, q: Quad, k: int, t: int, a: Point, b: Point)
    requires
        q.rectangle(),
        0 <= k < 4,
        0 <= t <= q.side(k),
    ensures
        path_runs(side_points(quads, split, q, k, t), point(q.rim(k, q.side(k))), a, b) == side_runs(quads, split, q, k, t, a, b),
        ({
            let s = side_points(quads, split, q, k, t);
            let n = next_vertex(quads, split, q, k, t);
            &&& t <= n <= q.side(k)
            &&& s.len() == 0 <==> n == q.side(k)
            &&& s.len() > 0 ==> s[0] == point(q.rim(k, n))
        }),
    decreases q.side(k) - t,
{
    if t < q.side(k) {
        lemma_side_runs(quads, split, q, k, t + 1, a, b);
        let rest = side_points(quads, split, q, k, t + 1);
        let all = side_points(quads, split, q, k, t);
        if has_vertex(quads, split, q, k, t) {
            assert(all =~= seq![point(q.rim(k, t))] + rest);
            assert(all.drop_first() =~= rest);
        } else {
            assert(all =~= rest);
        }
    }
}

/// A quad's outline runs as its four sides do.
proof fn lemma_outline_sides(quads: Seq<Quad>, split: Split, q: Quad, a: Point, b: Point)
    requires
        q.rectangle(),
    ensures
        outline_runs(quads, split, q, twice(a), twice(b)) == side_runs(quads, split, q, 0, 0, a, b) + side_runs(quads, split, q, 1, 0, a, b)
            + side_runs(quads, split, q, 2, 0, a, b) + side_runs(quads, split, q, 3, 0, a, b),
{
    let (s0, s1, s2, s3) = (
        side_points(quads, split, q, 0, 0),
        side_points(quads, split, q, 1, 0),
        side_points(quads, split, q, 2, 0),
        side_points(quads, split, q, 3, 0),
    );
    lemma_side_runs(quads, split, q, 0, 0, a, b);
    lemma_side_runs(quads, split, q, 1, 0, a, b);
    lemma_side_runs(quads, split, q, 2, 0, a, b);
    lemma_side_runs(quads, split, q, 3, 0, a, b);
    assert(next_vertex(quads, split, q, 0, 0) == 0);
    assert(next_vertex(quads, split, q, 1, 0) == 0);
    assert(next_vertex(quads, split, q, 2, 0) == 0);
    assert(next_vertex(quads, split, q, 3, 0) == 0);
    let all = s0 + s1 + s2 + s3;
    lemma_path_concat(s0 + s1 + s2, s3, all[0], a, b);
    lemma_path_concat(s0 + s1, s2, s3[0], a, b);
    lemma_path_concat(s0, s1, s2[0], a, b);
    lemma_outline_shape(quads, split, q);
    lemma_twice_runs(all, all[0], a, b);
    assert(all[0] == s0[0]);
    assert(outline_points(quads, split, q) =~= all.map_values(|p: Point| twice(p)));
}

pub proof fn lemma_outline_shape(quads: Seq<Quad>, split: Split, q: Quad)
    requires
        q.rectangle(),
    ensures
        outline_points(quads, split, q) == (side_points(quads, split, q, 0, 0) + side_points(quads, split, q, 1, 0) + side_points(
            quads,
            split,
            q,
            2,
            0,
        ) + side_points(quads, split, q, 3, 0)).map_values(|p: Point| twice(p)),
{
    crate::derived::triangles::lemma_outline_points(quads, split, q);
    let all = side_points(quads, split, q, 0, 0) + side_points(quads, split, q, 1, 0) + side_points(quads, split, q, 2, 0) + side_points(
        quads,
        split,
        q,
        3,
        0,
    );
    let o = outline(quads, split, q);
    assert(all =~= o.map_values(|p: [u8; 3]| point(p)));
    assert forall|i: int| 0 <= i < o.len() implies #[trigger] outline_points(quads, split, q)[i] == twice(all[i]) by {
        assert(all[i] == point(o[i]));
        assert(o[i][0] <= 8 && o[i][1] <= 8 && o[i][2] <= 8);
    }
    assert(outline_points(quads, split, q) =~= all.map_values(|p: Point| twice(p)));
}

/// `p` moved by `n` along axis `d`.
pub open spec fn moved(p: Point, d: int, n: int) -> Point {
    if d == 0 {
        (p.0 + n, p.1, p.2)
    } else if d == 1 {
        (p.0, p.1 + n, p.2)
    } else {
        (p.0, p.1, p.2 + n)
    }
}

/// The axis along which side `k` runs.
pub open spec fn side_axis(q: Quad, k: int) -> int {
    if q.along_u(k) {
        (q.spec_axis() + 1) % 3
    } else {
        (q.spec_axis() + 2) % 3
    }
}

/// The way in which side `k` runs.
pub open spec fn side_sign(k: int) -> int {
    if k < 2 {
        1
    } else {
        -1
    }
}

/// The line through `p` along axis `d` lies on the brick's boundary.
pub open spec fn on_rim(p: Point, d: int) -> bool {
    ||| d != 0 && (p.0 == 0 || p.0 == 8)
    ||| d != 1 && (p.1 == 0 || p.1 == 8)
    ||| d != 2 && (p.2 == 0 || p.2 == 8)
}

/// `p` is a corner of one of the quads.
pub open spec fn corner_point(quads: Seq<Quad>, p: Point) -> bool {
    exists|i: int, k: int| 0 <= i < quads.len() && 0 <= k < 4 && point(#[trigger] quads[i].rim(k, 0)) == p
}

/// Edges along axis `d` are split at `p`.
pub open spec fn splits(quads: Seq<Quad>, p: Point, d: int) -> bool {
    on_rim(p, d) || corner_point(quads, p)
}

/// Splitting leaves the `n` units from `a` along axis `d` in one piece, and cuts them off on both sides.
pub open spec fn segment(quads: Seq<Quad>, a: Point, d: int, n: int) -> bool {
    &&& splits(quads, a, d)
    &&& splits(quads, moved(a, d, n), d)
    &&& forall|j: int| 0 < j < n ==> !splits(quads, #[trigger] moved(a, d, j), d)
}

/// Side `k` passes the unit edge from `a` along axis `d`.
pub open spec fn passes(q: Quad, k: int, a: Point, d: int) -> bool {
    let start = point(q.rim(k, 0));
    let off = (along(d, a) - along(d, start)) * side_sign(k);
    &&& side_axis(q, k) == d
    &&& moved(start, d, along(d, a) - along(d, start)) == a
    &&& if k < 2 {
        0 <= off < q.side(k)
    } else {
        0 < off <= q.side(k)
    }
}

proof fn lemma_rim_point(q: Quad, k: int, t: int)
    requires
        q.rectangle(),
        0 <= k < 4,
        0 <= t <= q.side(k),
    ensures
        point(q.rim(k, t)) == moved(point(q.rim(k, 0)), side_axis(q, k), side_sign(k) * t),
        q.on_boundary(k) == on_rim(point(q.rim(k, t)), side_axis(q, k)),
        0 <= side_axis(q, k) < 3,
        point(q.rim(k, q.side(k))) == point(q.rim((k + 1) % 4, 0)),
{
    assert(q.spec_axis() == 0 || q.spec_axis() == 1 || q.spec_axis() == 2);
    assert(k == 0 || k == 1 || k == 2 || k == 3);
    assert(side_sign(k) * t == if k < 2 {
        t
    } else {
        -t
    }) by (nonlinear_arith)
        requires
            side_sign(k) == if k < 2 {
                1int
            } else {
                -1int
            },
    ;
}

proof fn lemma_corner_point(quads: Seq<Quad>, x: [u8; 3])
    ensures
        is_corner(quads, quads.len() as int, x) == corner_point(quads, point(x)),
{
    if is_corner(quads, quads.len() as int, x) {
        let (i, k) = choose|i: int, k: int| 0 <= i < quads.len() && 0 <= k < 4 && #[trigger] quads[i].rim(k, 0) == x;
        assert(point(quads[i].rim(k, 0)) == point(x));
    }
    if corner_point(quads, point(x)) {
        let (i, k) = choose|i: int, k: int| 0 <= i < quads.len() && 0 <= k < 4 && point(#[trigger] quads[i].rim(k, 0)) == point(x);
        let y = quads[i].rim(k, 0);
        assert(y@ =~= x@);
        assert(y =~= x);
        assert(quads[i].rim(k, 0) == x);
    }
}

/// A side has a vertex exactly where edges along it are split.
proof fn lemma_vertex_splits(quads: Seq<Quad>, i: int, k: int, t: int)
    requires
        0 <= i < quads.len(),
        quads[i].rectangle(),
        0 <= k < 4,
        0 <= t <= quads[i].side(k),
    ensures
        t < quads[i].side(k) ==> has_vertex(quads, Split::Watertight, quads[i], k, t) == splits(
            quads,
            point(quads[i].rim(k, t)),
            side_axis(quads[i], k),
        ),
        t == quads[i].side(k) ==> splits(quads, point(quads[i].rim(k, t)), side_axis(quads[i], k)),
        t == 0 ==> splits(quads, point(quads[i].rim(k, t)), side_axis(quads[i], k)),
{
    let q = quads[i];
    lemma_rim_point(q, k, t);
    lemma_corner_point(quads, q.rim(k, t));
    if t == 0 {
        assert(point(quads[i].rim(k, 0)) == point(q.rim(k, t)));
    }
    if t == q.side(k) {
        assert(0 <= (k + 1) % 4 < 4);
        assert(point(quads[i].rim((k + 1) % 4, 0)) == point(q.rim(k, t)));
    }
}

proof fn lemma_next_vertex(quads: Seq<Quad>, split: Split, q: Quad, k: int, t: int, m: int)
    requires
        t <= m <= q.side(k),
        forall|j: int| t <= j < m ==> !has_vertex(quads, split, q, k, j),
        m == q.side(k) || has_vertex(quads, split, q, k, m),
    ensures
        next_vertex(quads, split, q, k, t) == m,
    decreases m - t,
{
    if t < m {
        lemma_next_vertex(quads, split, q, k, t + 1, m);
    }
}

proof fn lemma_next_is_next(quads: Seq<Quad>, split: Split, q: Quad, k: int, t: int)
    requires
        t <= q.side(k),
    ensures
        t <= next_vertex(quads, split, q, k, t) <= q.side(k),
        forall|j: int| t <= j < next_vertex(quads, split, q, k, t) ==> !has_vertex(quads, split, q, k, j),
        next_vertex(quads, split, q, k, t) < q.side(k) ==> has_vertex(quads, split, q, k, next_vertex(quads, split, q, k, t)),
    decreases q.side(k) - t,
{
    if t < q.side(k) && !has_vertex(quads, split, q, k, t) {
        lemma_next_is_next(quads, split, q, k, t + 1);
    }
}

/// Side `k` of `q` has a segment of `n` units that begins `t` steps along it.
spec fn piece(quads: Seq<Quad>, q: Quad, k: int, t: int, n: int) -> bool {
    &&& 0 <= t < q.side(k)
    &&& has_vertex(quads, Split::Watertight, q, k, t)
    &&& next_vertex(quads, Split::Watertight, q, k, t + 1) == t + n
}

/// Where on side `k` a segment from `a` to `n` units on would begin.
spec fn entry(q: Quad, k: int, a: Point, d: int, n: int) -> int {
    let start = point(q.rim(k, 0));
    if k < 2 {
        along(d, a) - along(d, start)
    } else {
        along(d, start) - along(d, a) - n
    }
}

/// `a` is on the line of side `k`, which runs along axis `d`.
spec fn on_line(q: Quad, k: int, a: Point, d: int) -> bool {
    let start = point(q.rim(k, 0));
    side_axis(q, k) == d && moved(start, d, along(d, a) - along(d, start)) == a
}

proof fn lemma_side_pieces(quads: Seq<Quad>, q: Quad, k: int, t: int, a: Point, d: int, n: int)
    requires
        q.rectangle(),
        0 <= k < 4,
        0 <= t <= q.side(k),
        0 <= d < 3,
        n >= 1,
    ensures
        side_runs(quads, Split::Watertight, q, k, t, a, moved(a, d, n)) == if on_line(q, k, a, d) && t <= entry(q, k, a, d, n) && piece(
            quads,
            q,
            k,
            entry(q, k, a, d, n),
            n,
        ) {
            side_sign(k)
        } else {
            0
        },
    decreases q.side(k) - t,
{
    if t < q.side(k) {
        lemma_side_pieces(quads, q, k, t + 1, a, d, n);
        lemma_next_is_next(quads, Split::Watertight, q, k, t + 1);
        let m = next_vertex(quads, Split::Watertight, q, k, t + 1);
        lemma_rim_point(q, k, t);
        lemma_rim_point(q, k, m);
        lemma_rim_point(q, k, 0);
        let b = moved(a, d, n);
        let start = point(q.rim(k, 0));
        let (x, y) = (point(q.rim(k, t)), point(q.rim(k, m)));
        let e = side_axis(q, k);
        assert(side_sign(k) * t == if k < 2 {
            t
        } else {
            -t
        } && side_sign(k) * m == if k < 2 {
            m
        } else {
            -m
        }) by (nonlinear_arith)
            requires
                side_sign(k) == if k < 2 {
                    1int
                } else {
                    -1int
                },
        ;
        assert(along(e, x) == along(e, start) + side_sign(k) * t);
        assert(along(e, y) == along(e, start) + side_sign(k) * m);
        if has_vertex(quads, Split::Watertight, q, k, t) {
            if k < 2 {
                assert(!(x == b && y == a)) by {
                    if x == b && y == a {
                        assert(e == d || along(e, x) == along(e, y));
                    }
                }
                assert((x == a && y == b) == (on_line(q, k, a, d) && t == entry(q, k, a, d, n) && m == t + n)) by {
                    if x == a && y == b {
                        assert(e == d || along(e, x) == along(e, y));
                    }
                }
            } else {
                assert(!(x == a && y == b)) by {
                    if x == a && y == b {
                        assert(e == d || along(e, x) == along(e, y));
                    }
                }
                assert((x == b && y == a) == (on_line(q, k, a, d) && t == entry(q, k, a, d, n) && m == t + n)) by {
                    if x == b && y == a {
                        assert(e == d || along(e, x) == along(e, y));
                    }
                }
            }
        }
    }
}

/// The points of side `k`, counted from `a`.
proof fn lemma_on_line(q: Quad, k: int, a: Point, d: int, n: int, t: int)
    requires
        q.rectangle(),
        0 <= k < 4,
        0 <= d < 3,
        on_line(q, k, a, d),
        0 <= t <= q.side(k),
    ensures
        point(q.rim(k, t)) == moved(
            a,
            d,
            if k < 2 {
                t - entry(q, k, a, d, n)
            } else {
                entry(q, k, a, d, n) + n - t
            },
        ),
{
    lemma_rim_point(q, k, t);
    assert(side_sign(k) * t == if k < 2 {
        t
    } else {
        -t
    }) by (nonlinear_arith)
        requires
            side_sign(k) == if k < 2 {
                1int
            } else {
                -1int
            },
    ;
}

proof fn lemma_passes(q: Quad, k: int, a: Point, d: int, n: int)
    requires
        q.rectangle(),
        0 <= k < 4,
    ensures
        passes(q, k, a, d) == (on_line(q, k, a, d) && if k < 2 {
            0 <= entry(q, k, a, d, n) < q.side(k)
        } else {
            0 < entry(q, k, a, d, n) + n <= q.side(k)
        }),
{
    let x = along(d, a) - along(d, point(q.rim(k, 0)));
    assert(x * side_sign(k) == if k < 2 {
        x
    } else {
        -x
    }) by (nonlinear_arith)
        requires
            side_sign(k) == if k < 2 {
                1int
            } else {
                -1int
            },
    ;
}

proof fn lemma_piece_is_segment(quads: Seq<Quad>, i: int, k: int, a: Point, d: int, n: int)
    requires
        0 <= i < quads.len(),
        quads[i].rectangle(),
        0 <= k < 4,
        0 <= d < 3,
        n >= 1,
        on_line(quads[i], k, a, d),
        piece(quads, quads[i], k, entry(quads[i], k, a, d, n), n),
    ensures
        segment(quads, a, d, n),
        passes(quads[i], k, a, d),
{
    let q = quads[i];
    let t0 = entry(q, k, a, d, n);
    lemma_passes(q, k, a, d, n);
    lemma_next_is_next(quads, Split::Watertight, q, k, t0 + 1);
    lemma_vertex_splits(quads, i, k, t0);
    lemma_vertex_splits(quads, i, k, t0 + n);
    lemma_on_line(q, k, a, d, n, t0);
    lemma_on_line(q, k, a, d, n, t0 + n);
    assert(moved(a, d, 0) == a);
    assert forall|j: int| 0 < j < n implies !splits(quads, #[trigger] moved(a, d, j), d) by {
        let t = if k < 2 {
            t0 + j
        } else {
            t0 + n - j
        };
        lemma_vertex_splits(quads, i, k, t);
        lemma_on_line(q, k, a, d, n, t);
        assert(!has_vertex(quads, Split::Watertight, q, k, t));
    }
}

proof fn lemma_segment_is_piece(quads: Seq<Quad>, i: int, k: int, a: Point, d: int, n: int)
    requires
        0 <= i < quads.len(),
        quads[i].rectangle(),
        0 <= k < 4,
        0 <= d < 3,
        n >= 1,
        segment(quads, a, d, n),
        passes(quads[i], k, a, d),
    ensures
        on_line(quads[i], k, a, d),
        piece(quads, quads[i], k, entry(quads[i], k, a, d, n), n),
{
    let q = quads[i];
    let t0 = entry(q, k, a, d, n);
    lemma_passes(q, k, a, d, n);
    assert(moved(a, d, 0) == a);
    if k < 2 {
        if t0 + n > q.side(k) {
            lemma_vertex_splits(quads, i, k, q.side(k));
            lemma_on_line(q, k, a, d, n, q.side(k));
            assert(!splits(quads, moved(a, d, q.side(k) - t0), d));
        }
    } else {
        if t0 < 0 {
            lemma_vertex_splits(quads, i, k, 0);
            lemma_on_line(q, k, a, d, n, 0);
            assert(!splits(quads, moved(a, d, t0 + n), d));
        }
    }
    assert(0 <= t0 < q.side(k) && t0 + n <= q.side(k));
    lemma_vertex_splits(quads, i, k, t0);
    lemma_vertex_splits(quads, i, k, t0 + n);
    lemma_on_line(q, k, a, d, n, t0);
    lemma_on_line(q, k, a, d, n, t0 + n);
    assert forall|t: int| t0 + 1 <= t < t0 + n implies !has_vertex(quads, Split::Watertight, q, k, t) by {
        lemma_vertex_splits(quads, i, k, t);
        lemma_on_line(q, k, a, d, n, t);
        let j = if k < 2 {
            t - t0
        } else {
            t0 + n - t
        };
        assert(!splits(quads, moved(a, d, j), d));
    }
    lemma_next_vertex(quads, Split::Watertight, q, k, t0 + 1, t0 + n);
}

/// A side runs along a segment when it passes the segment's first unit, once and in its own way.
proof fn lemma_side_is_segments(quads: Seq<Quad>, i: int, k: int, a: Point, d: int, n: int)
    requires
        0 <= i < quads.len(),
        quads[i].rectangle(),
        0 <= k < 4,
        0 <= d < 3,
        n >= 1,
    ensures
        side_runs(quads, Split::Watertight, quads[i], k, 0, a, moved(a, d, n)) == if passes(quads[i], k, a, d) && segment(quads, a, d, n) {
            side_sign(k)
        } else {
            0
        },
{
    let q = quads[i];
    lemma_side_pieces(quads, q, k, 0, a, d, n);
    if on_line(q, k, a, d) && piece(quads, q, k, entry(q, k, a, d, n), n) {
        lemma_piece_is_segment(quads, i, k, a, d, n);
    }
    if passes(q, k, a, d) && segment(quads, a, d, n) {
        lemma_segment_is_piece(quads, i, k, a, d, n);
    }
}

/// How often the outline of `q` passes the unit edge from `a` along axis `d`, less how often it passes
/// it the other way.
pub open spec fn unit_runs(q: Quad, a: Point, d: int) -> int {
    unit_run(q, 0, a, d) + unit_run(q, 1, a, d) + unit_run(q, 2, a, d) + unit_run(q, 3, a, d)
}

pub open spec fn unit_run(q: Quad, k: int, a: Point, d: int) -> int {
    if passes(q, k, a, d) {
        side_sign(k)
    } else {
        0
    }
}

/// The same of the first `n` quads.
pub open spec fn units_run(quads: Seq<Quad>, n: nat, a: Point, d: int) -> int
    decreases n,
{
    if n == 0 {
        0
    } else {
        units_run(quads, (n - 1) as nat, a, d) + unit_runs(quads[n - 1], a, d)
    }
}

/// A mesh's outlines run along a segment as they pass its first unit.
pub proof fn lemma_outlines_are_units(quads: Seq<Quad>, m: nat, a: Point, d: int, n: int)
    requires
        m <= quads.len(),
        forall|i: int| 0 <= i < quads.len() ==> (#[trigger] quads[i]).rectangle(),
        0 <= d < 3,
        n >= 1,
    ensures
        outlines_run(quads, Split::Watertight, m, twice(a), twice(moved(a, d, n))) == if segment(quads, a, d, n) {
            units_run(quads, m, a, d)
        } else {
            0
        },
    decreases m,
{
    if m > 0 {
        let i = m - 1;
        lemma_outlines_are_units(quads, i as nat, a, d, n);
        lemma_outline_sides(quads, Split::Watertight, quads[i], a, moved(a, d, n));
        lemma_side_is_segments(quads, i, 0, a, d, n);
        lemma_side_is_segments(quads, i, 1, a, d, n);
        lemma_side_is_segments(quads, i, 2, a, d, n);
        lemma_side_is_segments(quads, i, 3, a, d, n);
    }
}

/// Axis-aligned: the one is the other moved along an axis.
pub open spec fn aligned(a: Point, b: Point) -> bool {
    exists|d: int, n: int| 0 <= d < 3 && n >= 1 && #[trigger] moved(a, d, n) == b
}

proof fn lemma_moved(p: Point, d: int, i: int, j: int)
    requires
        0 <= d < 3,
        i < j,
    ensures
        aligned(moved(p, d, i), moved(p, d, j)),
{
    assert(moved(moved(p, d, i), d, j - i) == moved(p, d, j));
}

/// Two points of a side are axis-aligned.
proof fn lemma_side_aligned(q: Quad, k: int, t: int, m: int)
    requires
        q.rectangle(),
        0 <= k < 4,
        0 <= t < m <= q.side(k),
    ensures
        aligned(point(q.rim(k, t)), point(q.rim(k, m))) || aligned(point(q.rim(k, m)), point(q.rim(k, t))),
{
    lemma_rim_point(q, k, t);
    lemma_rim_point(q, k, m);
    let s = side_sign(k);
    assert(if k < 2 {
        s * t < s * m
    } else {
        s * m < s * t
    }) by (nonlinear_arith)
        requires
            t < m,
            s == if k < 2 {
                1int
            } else {
                -1int
            },
    ;
    if k < 2 {
        lemma_moved(point(q.rim(k, 0)), side_axis(q, k), s * t, s * m);
    } else {
        lemma_moved(point(q.rim(k, 0)), side_axis(q, k), s * m, s * t);
    }
}

proof fn lemma_unaligned_side(quads: Seq<Quad>, split: Split, q: Quad, k: int, t: int, a: Point, b: Point)
    requires
        q.rectangle(),
        0 <= k < 4,
        0 <= t <= q.side(k),
        !aligned(a, b),
        !aligned(b, a),
    ensures
        side_runs(quads, split, q, k, t, a, b) == 0,
    decreases q.side(k) - t,
{
    if t < q.side(k) {
        lemma_unaligned_side(quads, split, q, k, t + 1, a, b);
        lemma_next_is_next(quads, split, q, k, t + 1);
        let m = next_vertex(quads, split, q, k, t + 1);
        lemma_side_aligned(q, k, t, m);
        let (x, y) = (point(q.rim(k, t)), point(q.rim(k, m)));
        assert(run_of(x, y, a, b) == 0);
    }
}

pub proof fn lemma_unaligned(quads: Seq<Quad>, m: nat, a: Point, b: Point)
    requires
        m <= quads.len(),
        forall|i: int| 0 <= i < quads.len() ==> (#[trigger] quads[i]).rectangle(),
        !aligned(a, b),
        !aligned(b, a),
    ensures
        outlines_run(quads, Split::Watertight, m, twice(a), twice(b)) == 0,
    decreases m,
{
    if m > 0 {
        let q = quads[m - 1];
        lemma_unaligned(quads, (m - 1) as nat, a, b);
        lemma_outline_sides(quads, Split::Watertight, q, a, b);
        lemma_unaligned_side(quads, Split::Watertight, q, 0, 0, a, b);
        lemma_unaligned_side(quads, Split::Watertight, q, 1, 0, a, b);
        lemma_unaligned_side(quads, Split::Watertight, q, 2, 0, a, b);
        lemma_unaligned_side(quads, Split::Watertight, q, 3, 0, a, b);
    }
}

pub proof fn lemma_outlines_off_lattice(quads: Seq<Quad>, m: nat, a: Point, b: Point)
    requires
        m <= quads.len(),
        forall|i: int| 0 <= i < quads.len() ==> (#[trigger] quads[i]).rectangle(),
        !on_lattice(a) || !on_lattice(b),
    ensures
        outlines_run(quads, Split::Watertight, m, a, b) == 0,
    decreases m,
{
    if m > 0 {
        let q = quads[m - 1];
        lemma_outlines_off_lattice(quads, (m - 1) as nat, a, b);
        lemma_outline_shape(quads, Split::Watertight, q);
        lemma_outline(quads, Split::Watertight, q);
        let all = side_points(quads, Split::Watertight, q, 0, 0) + side_points(quads, Split::Watertight, q, 1, 0) + side_points(
            quads,
            Split::Watertight,
            q,
            2,
            0,
        ) + side_points(quads, Split::Watertight, q, 3, 0);
        lemma_off_lattice(all, all[0], a, b);
        assert(outline_points(quads, Split::Watertight, q)[0] == twice(all[0]));
    }
}

proof fn lemma_path_reversed(s: Seq<Point>, end: Point, a: Point, b: Point)
    ensures
        path_runs(s, end, a, b) == -path_runs(s, end, b, a),
    decreases s.len(),
{
    if s.len() > 1 {
        lemma_path_reversed(s.drop_first(), end, a, b);
    }
}

pub proof fn lemma_reversed(quads: Seq<Quad>, m: nat, a: Point, b: Point)
    ensures
        outlines_run(quads, Split::Watertight, m, a, b) == -outlines_run(quads, Split::Watertight, m, b, a),
    decreases m,
{
    if m > 0 {
        lemma_reversed(quads, (m - 1) as nat, a, b);
        let o = outline_points(quads, Split::Watertight, quads[m - 1]);
        lemma_path_reversed(o, o[0], a, b);
    }
}

/// The cell behind face direction `f` at the edge from `a` along axis `d`: on its near side, or (`j` is
/// -1) its far side.
pub open spec fn beside(f: int, a: Point, d: int, j: int) -> Point {
    moved(moved(a, f / 2, -(f % 2)), 3 - f / 2 - d, j)
}

/// The way in which a face of direction `f` on the near side passes the edge.
pub open spec fn weight(f: int, d: int) -> int {
    if f / 2 == d {
        0
    } else if (f % 2 == 1) == (d == (f / 2 + 1) % 3) {
        1
    } else {
        -1
    }
}

pub open spec fn count_if(b: bool) -> int {
    if b {
        1
    } else {
        0
    }
}

/// Side `k` passes the unit edges of one line, those beside the quad.
proof fn lemma_unit_run(q: Quad, k: int, a: Point, d: int)
    requires
        q.rectangle(),
        0 <= k < 4,
        0 <= d < 3,
    ensures
        ({
            let (p, u, v) = (along(q.spec_axis(), a), along((q.spec_axis() + 1) % 3, a), along((q.spec_axis() + 2) % 3, a));
            unit_run(q, k, a, d) == if p != q.plane {
                0
            } else if q.along_u(k) {
                if d == (q.spec_axis() + 1) % 3 && v == q.ring(k, 0).1 && q.u0 <= u < q.u1 {
                    side_sign(k)
                } else {
                    0
                }
            } else {
                if d == (q.spec_axis() + 2) % 3 && u == q.ring(k, 0).0 && q.v0 <= v < q.v1 {
                    side_sign(k)
                } else {
                    0
                }
            }
        }),
{
    assert(q.spec_axis() == 0 || q.spec_axis() == 1 || q.spec_axis() == 2);
    assert(k == 0 || k == 1 || k == 2 || k == 3);
    let start = point(q.rim(k, 0));
    assert(along(q.spec_axis(), start) == q.plane);
    assert(along((q.spec_axis() + 1) % 3, start) == q.ring(k, 0).0);
    assert(along((q.spec_axis() + 2) % 3, start) == q.ring(k, 0).1);
    lemma_passes(q, k, a, d, 0);
}

/// `x`, in the way in which faces of direction `f` count along axis `d`.
pub open spec fn turned(f: int, d: int, x: int) -> int {
    if weight(f, d) == 0 {
        0
    } else if weight(f, d) == 1 {
        x
    } else {
        -x
    }
}

/// The outline of a quad passes a unit edge where it covers the face on one side of it only.
proof fn lemma_unit_is_cover(q: Quad, a: Point, d: int)
    requires
        q.wf(),
        0 <= d < 3,
    ensures
        unit_runs(q, a, d) == turned(
            q.face as int,
            d,
            count_if(quad_covers(q, beside(q.face as int, a, d, 0), q.face as int)) - count_if(
                quad_covers(q, beside(q.face as int, a, d, -1), q.face as int),
            ),
        ),
{
    lemma_unit_run(q, 0, a, d);
    lemma_unit_run(q, 1, a, d);
    lemma_unit_run(q, 2, a, d);
    lemma_unit_run(q, 3, a, d);
    lemma_beside(q, a, d);
}

/// The two cells beside an edge, as the quad sees them.
proof fn lemma_beside(q: Quad, a: Point, d: int)
    requires
        q.wf(),
        0 <= d < 3,
    ensures
        ({
            let f = q.face as int;
            let x = q.spec_axis();
            let (p, u, v) = (along(x, a), along((x + 1) % 3, a), along((x + 2) % 3, a));
            &&& d == (x + 1) % 3 ==> quad_covers(q, beside(f, a, d, 0), f) == (p == q.plane && q.u0 <= u < q.u1 && q.v0 <= v < q.v1)
            &&& d == (x + 1) % 3 ==> quad_covers(q, beside(f, a, d, -1), f) == (p == q.plane && q.u0 <= u < q.u1 && q.v0 <= v - 1 < q.v1)
            &&& d == (x + 2) % 3 ==> quad_covers(q, beside(f, a, d, 0), f) == (p == q.plane && q.u0 <= u < q.u1 && q.v0 <= v < q.v1)
            &&& d == (x + 2) % 3 ==> quad_covers(q, beside(f, a, d, -1), f) == (p == q.plane && q.u0 <= u - 1 < q.u1 && q.v0 <= v < q.v1)
        }),
{
    let f = q.face as int;
    assert(f == 0 || f == 1 || f == 2 || f == 3 || f == 4 || f == 5);
}

/// How many of the first `n` quads cover face `f` of the voxel at `p`.
pub open spec fn cover_count(quads: Seq<Quad>, n: nat, p: Point, f: int) -> int
    decreases n,
{
    if n == 0 {
        0
    } else {
        cover_count(quads, (n - 1) as nat, p, f) + count_if(quad_covers(quads[n - 1], p, f))
    }
}

/// What the faces of direction `f` beside an edge come to, covered on the near side less on the far side.
pub open spec fn cover_step(quads: Seq<Quad>, n: nat, a: Point, d: int, f: int) -> int {
    turned(f, d, cover_count(quads, n, beside(f, a, d, 0), f) - cover_count(quads, n, beside(f, a, d, -1), f))
}

proof fn lemma_units_are_covers(quads: Seq<Quad>, n: nat, a: Point, d: int)
    requires
        n <= quads.len(),
        forall|i: int| 0 <= i < quads.len() ==> (#[trigger] quads[i]).wf(),
        0 <= d < 3,
    ensures
        units_run(quads, n, a, d) == cover_step(quads, n, a, d, 0) + cover_step(quads, n, a, d, 1) + cover_step(quads, n, a, d, 2)
            + cover_step(quads, n, a, d, 3) + cover_step(quads, n, a, d, 4) + cover_step(quads, n, a, d, 5),
    decreases n,
{
    if n > 0 {
        lemma_units_are_covers(quads, (n - 1) as nat, a, d);
        let q = quads[n - 1];
        lemma_unit_is_cover(q, a, d);
        let f = q.face as int;
        assert(f == 0 || f == 1 || f == 2 || f == 3 || f == 4 || f == 5);
        assert forall|g: int| g != f implies #[trigger] cover_step(quads, n, a, d, g) == cover_step(quads, (n - 1) as nat, a, d, g) by {
            assert(!quad_covers(q, beside(g, a, d, 0), g));
            assert(!quad_covers(q, beside(g, a, d, -1), g));
        }
        assert(cover_step(quads, n, a, d, f) == cover_step(quads, (n - 1) as nat, a, d, f) + unit_runs(q, a, d));
    }
}

proof fn lemma_count_none(quads: Seq<Quad>, n: nat, p: Point, f: int)
    requires
        forall|i: int| 0 <= i < n ==> !#[trigger] quad_covers(quads[i], p, f),
    ensures
        cover_count(quads, n, p, f) == 0,
    decreases n,
{
    if n > 0 {
        lemma_count_none(quads, (n - 1) as nat, p, f);
        assert(!quad_covers(quads[n - 1], p, f));
    }
}

proof fn lemma_count_one(quads: Seq<Quad>, n: nat, p: Point, f: int, k: int)
    requires
        0 <= k < n,
        quad_covers(quads[k], p, f),
        forall|i: int| 0 <= i < n && #[trigger] quad_covers(quads[i], p, f) ==> i == k,
    ensures
        cover_count(quads, n, p, f) == 1,
    decreases n,
{
    if k == n - 1 {
        lemma_count_none(quads, (n - 1) as nat, p, f);
    } else {
        lemma_count_one(quads, (n - 1) as nat, p, f, k);
        assert(!quad_covers(quads[n - 1], p, f));
    }
}

/// Face `f` of the voxel at `p` is an exposed face of the brick.
pub open spec fn shows(occ: Local, p: Point, f: int) -> bool {
    inside(p) && exposed_at(occ, p, f) is Some
}

/// A mesh covers each exposed face of its brick once, and no other.
proof fn lemma_mesh_cover(occ: Local, merge: Merge, p: Point, f: int)
    requires
        0 <= f < 6,
    ensures
        cover_count(mesh_quads(occ, merge), mesh_quads(occ, merge).len(), p, f) == count_if(shows(occ, p, f)),
{
    let s = mesh_quads(occ, merge);
    if inside(p) {
        law_mesh_covers_each_exposed_face_once(occ, merge, p, f);
        if exposed_at(occ, p, f) is Some {
            let k = choose|k: int|
                0 <= k < s.len() && #[trigger] quad_covers(s[k], p, f) && s[k].material == exposed_at(occ, p, f)->0 && forall|l: int|
                    0 <= l < s.len() && #[trigger] quad_covers(s[l], p, f) ==> l == k;
            lemma_count_one(s, s.len(), p, f, k);
        } else {
            lemma_count_none(s, s.len(), p, f);
        }
    } else {
        assert forall|k: int| 0 <= k < s.len() implies !#[trigger] quad_covers(s[k], p, f) by {
            law_mesh_quads_are_well_formed(occ, merge, k);
            assert(f == 0 || f == 1 || f == 2 || f == 3 || f == 4 || f == 5);
        }
        lemma_count_none(s, s.len(), p, f);
    }
}

/// What the exposed faces of direction `f` beside an edge come to.
pub open spec fn show_step(occ: Local, a: Point, d: int, f: int) -> int {
    turned(f, d, count_if(shows(occ, beside(f, a, d, 0), f)) - count_if(shows(occ, beside(f, a, d, -1), f)))
}

/// A mesh's outlines pass a unit edge as its brick's exposed faces do.
pub proof fn lemma_mesh_units(occ: Local, merge: Merge, a: Point, d: int)
    requires
        0 <= d < 3,
    ensures
        units_run(mesh_quads(occ, merge), mesh_quads(occ, merge).len(), a, d) == show_step(occ, a, d, 0) + show_step(occ, a, d, 1)
            + show_step(occ, a, d, 2) + show_step(occ, a, d, 3) + show_step(occ, a, d, 4) + show_step(occ, a, d, 5),
{
    let s = mesh_quads(occ, merge);
    assert forall|i: int| 0 <= i < s.len() implies (#[trigger] s[i]).wf() by {
        law_mesh_quads_are_well_formed(occ, merge, i);
    }
    lemma_units_are_covers(s, s.len(), a, d);
    assert forall|f: int| 0 <= f < 6 implies #[trigger] cover_step(s, s.len(), a, d, f) == show_step(occ, a, d, f) by {
        lemma_mesh_cover(occ, merge, beside(f, a, d, 0), f);
        lemma_mesh_cover(occ, merge, beside(f, a, d, -1), f);
    }
}

/// The unit edge from `a` along axis `d` is one of the brick's.
pub open spec fn edge_of_brick(a: Point, d: int) -> bool {
    0 <= a.0 <= 8 && 0 <= a.1 <= 8 && 0 <= a.2 <= 8 && along(d, a) < 8
}

/// Outlines pass no edges but those of the brick.
pub proof fn lemma_units_in_brick(quads: Seq<Quad>, n: nat, a: Point, d: int)
    requires
        n <= quads.len(),
        forall|i: int| 0 <= i < quads.len() ==> (#[trigger] quads[i]).wf(),
        0 <= d < 3,
        !edge_of_brick(a, d),
    ensures
        units_run(quads, n, a, d) == 0,
    decreases n,
{
    if n > 0 {
        lemma_units_in_brick(quads, (n - 1) as nat, a, d);
        let q = quads[n - 1];
        let x = q.spec_axis();
        assert(x == 0 || x == 1 || x == 2);
        lemma_unit_run(q, 0, a, d);
        lemma_unit_run(q, 1, a, d);
        lemma_unit_run(q, 2, a, d);
        lemma_unit_run(q, 3, a, d);
    }
}

/// On the brick's boundary every segment is one unit long.
pub proof fn lemma_rim_segment(quads: Seq<Quad>, a: Point, d: int, n: int)
    requires
        0 <= d < 3,
        n >= 1,
        on_rim(a, d),
    ensures
        segment(quads, a, d, n) == (n == 1),
{
    assert(splits(quads, moved(a, d, n), d));
    if n > 1 {
        assert(splits(quads, moved(a, d, 1), d));
    }
}

} // verus!
