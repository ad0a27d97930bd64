//! The triangles of a quad face outward and cover it exactly.
use crate::derived::coverage::{along, law_mesh_quads_are_well_formed, law_unmerged_quads_are_unit_faces};
use crate::derived::mesh::{mesh_quads, Local, Merge, Quad};
use crate::derived::triangles::{
    all_owners, all_triangles, all_vertices, centre, has_vertex, lemma_outline, outline, quad_triangles, quad_vertices, side_vertices, Split,
};
use crate::derived::watertight::{lemma_outline_shape, lemma_triangle_indices, next_vertex, outline_points, point, side_points, twice, Point};
use vstd::prelude::*;

verus! {

/// The coordinates of `p` in the plane of `q`.
pub open spec fn in_plane(q: Quad, p: Point) -> (int, int) {
    (along((q.spec_axis() + 1) % 3, p), along((q.spec_axis() + 2) % 3, p))
}

/// Twice the signed area of the triangle `x`, `y`, `z`, positive where it faces out of `q`.
#[verifier::opaque]
pub open spec fn turn(q: Quad, x: Point, y: Point, z: Point) -> int {
    let (a, b, c) = (in_plane(q, x), in_plane(q, y), in_plane(q, z));
    let cross = (b.0 - a.0) * (c.1 - a.1) - (b.1 - a.1) * (c.0 - a.0);
    if q.spec_positive() {
        cross
    } else {
        -cross
    }
}

/// The same of a triangle given by its vertices.
pub open spec fn triangle_turn(q: Quad, vs: Seq<[u8; 3]>, t: [u32; 3]) -> int {
    turn(q, point(vs[t[0] as int]), point(vs[t[1] as int]), point(vs[t[2] as int]))
}

/// What the triangles of quad `i`, among the first `n`, come to.
pub open spec fn owned_turns(quads: Seq<Quad>, vs: Seq<[u8; 3]>, ts: Seq<[u32; 3]>, owners: Seq<u32>, n: nat, i: int) -> int
    decreases n,
{
    if n == 0 {
        0
    } else {
        owned_turns(quads, vs, ts, owners, (n - 1) as nat, i) + if owners[n - 1] == i {
            triangle_turn(quads[i], vs, ts[n - 1])
        } else {
            0
        }
    }
}

/// What the triangle of the centre and the outline's edge from `x` to `y` comes to.
#[verifier::opaque]
spec fn step(q: Quad, x: Point, y: Point) -> int {
    turn(q, point(centre(q)), twice(x), twice(y))
}

/// The point that follows place `i` of the path over `s` and on to `end`.
spec fn after(s: Seq<Point>, end: Point, i: int) -> Point {
    if i + 1 < s.len() {
        s[i + 1]
    } else {
        end
    }
}

spec fn steps(q: Quad, s: Seq<Point>, end: Point, n: nat) -> int
    decreases n,
{
    if n == 0 {
        0
    } else {
        steps(q, s, end, (n - 1) as nat) + step(q, s[n - 1], after(s, end, n - 1))
    }
}

spec fn forward(q: Quad, s: Seq<Point>, end: Point) -> bool {
    forall|i: int| 0 <= i < s.len() ==> step(q, #[trigger] s[i], after(s, end, i)) > 0
}

proof fn lemma_steps_concat(q: Quad, s: Seq<Point>, t: Seq<Point>, end: Point, n: nat)
    requires
        s.len() > 0,
        n <= s.len() + t.len(),
    ensures
        n <= s.len() ==> steps(q, s + t, end, n) == steps(q, s, after(t, end, -1), n),
        n > s.len() ==> steps(q, s + t, end, n) == steps(q, s, after(t, end, -1), s.len()) + steps(q, t, end, (n - s.len()) as nat),
    decreases n,
{
    reveal_with_fuel(steps, 2);
    if n > 0 {
        lemma_steps_concat(q, s, t, end, (n - 1) as nat);
        let i = n - 1;
        if i < s.len() {
            assert((s + t)[i] == s[i]);
            assert(after(s + t, end, i) == after(s, after(t, end, -1), i));
        } else {
            assert((s + t)[i] == t[i - s.len()]);
            assert(after(s + t, end, i) == after(t, end, i - s.len()));
        }
    }
}

proof fn lemma_concat(q: Quad, s: Seq<Point>, t: Seq<Point>, end: Point)
    requires
        s.len() > 0,
    ensures
        steps(q, s + t, end, (s + t).len()) == steps(q, s, after(t, end, -1), s.len()) + steps(q, t, end, t.len()),
        forward(q, s, after(t, end, -1)) && forward(q, t, end) ==> forward(q, s + t, end),
{
    lemma_steps_concat(q, s, t, end, (s + t).len());
    if forward(q, s, after(t, end, -1)) && forward(q, t, end) {
        assert forall|i: int| 0 <= i < (s + t).len() implies step(q, #[trigger] (s + t)[i], after(s + t, end, i)) > 0 by {
            if i < s.len() {
                assert((s + t)[i] == s[i]);
                assert(after(s + t, end, i) == after(s, after(t, end, -1), i));
            } else {
                let j = i - s.len();
                assert((s + t)[i] == t[j]);
                assert(after(s + t, end, i) == after(t, end, j));
            }
        }
    }
}

/// The extent of `q` across side `k`.
spec fn across(q: Quad, k: int) -> int {
    if q.along_u(k) {
        q.v1 - q.v0
    } else {
        q.u1 - q.u0
    }
}

proof fn lemma_in_plane(q: Quad, k: int, t: int)
    requires
        q.rectangle(),
        0 <= k < 4,
        0 <= t <= q.side(k),
    ensures
        in_plane(q, point(q.rim(k, t))) == q.ring(k, t),
        in_plane(q, point(centre(q))) == (q.u0 + q.u1, q.v0 + q.v1),
{
    assert(q.spec_axis() == 0 || q.spec_axis() == 1 || q.spec_axis() == 2);
}

/// An edge along side `k`, seen from the centre.
proof fn lemma_step(q: Quad, k: int, t: int, m: int)
    requires
        q.rectangle(),
        0 <= k < 4,
        0 <= t <= m <= q.side(k),
    ensures
        step(q, point(q.rim(k, t)), point(q.rim(k, m))) == 2 * ((m - t) * across(q, k)),
{
    reveal(step);
    reveal(turn);
    lemma_in_plane(q, k, t);
    lemma_in_plane(q, k, m);
    let (a, b) = (q.ring(k, t), q.ring(k, m));
    let (x, y) = (point(q.rim(k, t)), point(q.rim(k, m)));
    assert(in_plane(q, twice(x)) == (2 * a.0, 2 * a.1));
    assert(in_plane(q, twice(y)) == (2 * b.0, 2 * b.1));
    let (cu, cv) = (q.u0 + q.u1, q.v0 + q.v1);
    let (w, h) = (q.u1 - q.u0, q.v1 - q.v0);
    let cross = (2 * a.0 - cu) * (2 * b.1 - cv) - (2 * a.1 - cv) * (2 * b.0 - cu);
    if q.along_u(k) {
        let e = 2 * a.1 - cv;
        assert(a.1 == b.1);
        assert(cross == e * (2 * a.0 - 2 * b.0)) by (nonlinear_arith)
            requires
                cross == (2 * a.0 - cu) * (2 * b.1 - cv) - (2 * a.1 - cv) * (2 * b.0 - cu),
                a.1 == b.1,
                e == 2 * a.1 - cv,
        ;
        assert(e == h || e == -h);
        if e == h {
            assert(e * (2 * a.0 - 2 * b.0) == 2 * ((a.0 - b.0) * h)) by (nonlinear_arith)
                requires
                    e == h,
            ;
        } else {
            assert(e * (2 * a.0 - 2 * b.0) == 2 * ((b.0 - a.0) * h)) by (nonlinear_arith)
                requires
                    e == -h,
            ;
        }
        assert((a.0 - b.0) * h == -((b.0 - a.0) * h)) by (nonlinear_arith);
    } else {
        let e = 2 * a.0 - cu;
        assert(a.0 == b.0);
        assert(cross == e * (2 * b.1 - 2 * a.1)) by (nonlinear_arith)
            requires
                cross == (2 * a.0 - cu) * (2 * b.1 - cv) - (2 * a.1 - cv) * (2 * b.0 - cu),
                a.0 == b.0,
                e == 2 * a.0 - cu,
        ;
        assert(e == w || e == -w);
        if e == w {
            assert(e * (2 * b.1 - 2 * a.1) == 2 * ((b.1 - a.1) * w)) by (nonlinear_arith)
                requires
                    e == w,
            ;
        } else {
            assert(e * (2 * b.1 - 2 * a.1) == 2 * ((a.1 - b.1) * w)) by (nonlinear_arith)
                requires
                    e == -w,
            ;
        }
        assert((a.1 - b.1) * w == -((b.1 - a.1) * w)) by (nonlinear_arith);
    }
}

proof fn lemma_side_steps(quads: Seq<Quad>, split: Split, q: Quad, k: int, t: int)
    requires
        q.rectangle(),
        0 <= k < 4,
        0 <= t <= q.side(k),
    ensures
        ({
            let s = side_points(quads, split, q, k, t);
            let end = point(q.rim(k, q.side(k)));
            let m = next_vertex(quads, split, q, k, t);
            &&& t <= m <= q.side(k)
            &&& after(s, end, -1) == point(q.rim(k, m))
            &&& steps(q, s, end, s.len()) == 2 * ((q.side(k) - m) * across(q, k))
            &&& forward(q, s, end)
            &&& t == 0 ==> s.len() > 0 && s[0] == point(q.rim(k, 0))
        }),
    decreases q.side(k) - t,
{
    let s = side_points(quads, split, q, k, t);
    let end = point(q.rim(k, q.side(k)));
    if t < q.side(k) {
        lemma_side_steps(quads, split, q, k, t + 1);
        let rest = side_points(quads, split, q, k, t + 1);
        if has_vertex(quads, split, q, k, t) {
            let x = point(q.rim(k, t));
            let m = next_vertex(quads, split, q, k, t + 1);
            assert(s =~= seq![x] + rest);
            lemma_concat(q, seq![x], rest, end);
            lemma_step(q, k, t, m);
            reveal_with_fuel(steps, 2);
            let (a, n) = (across(q, k), q.side(k));
            assert(2 * ((m - t) * a) + 2 * ((n - m) * a) == 2 * ((n - t) * a)) by (nonlinear_arith);
            assert((m - t) * a > 0) by (nonlinear_arith)
                requires
                    m > t,
                    a > 0,
            ;
            let one = seq![x];
            assert forall|i: int| 0 <= i < one.len() implies step(q, #[trigger] one[i], after(one, after(rest, end, -1), i)) > 0 by {
                assert(after(one, after(rest, end, -1), i) == after(rest, end, -1));
            }
            assert(after(s, end, -1) == s[0]);
        } else {
            assert(s =~= rest);
        }
    } else {
        assert(s =~= Seq::empty());
        assert(0 * across(q, k) == 0);
    }
}

/// Each side takes a quarter of the turn, and ends where the next begins.
proof fn lemma_whole_side(quads: Seq<Quad>, split: Split, q: Quad, k: int)
    requires
        q.rectangle(),
        0 <= k < 4,
    ensures
        ({
            let s = side_points(quads, split, q, k, 0);
            let end = point(q.rim((k + 1) % 4, 0));
            &&& s.len() > 0
            &&& s[0] == point(q.rim(k, 0))
            &&& steps(q, s, end, s.len()) == 2 * q.spec_area()
            &&& forward(q, s, end)
        }),
{
    lemma_side_steps(quads, split, q, k, 0);
    assert(next_vertex(quads, split, q, k, 0) == 0);
    assert(q.rim(k, q.side(k)) == q.rim((k + 1) % 4, 0));
    let (w, h) = (q.u1 - q.u0, q.v1 - q.v0);
    assert(w * h == h * w) by (nonlinear_arith);
}

/// Four paths, each ending where the next begins.
proof fn lemma_around(q: Quad, s0: Seq<Point>, s1: Seq<Point>, s2: Seq<Point>, s3: Seq<Point>, a: int)
    requires
        s0.len() > 0,
        s1.len() > 0,
        s2.len() > 0,
        s3.len() > 0,
        steps(q, s0, s1[0], s0.len()) == a,
        steps(q, s1, s2[0], s1.len()) == a,
        steps(q, s2, s3[0], s2.len()) == a,
        steps(q, s3, s0[0], s3.len()) == a,
        forward(q, s0, s1[0]),
        forward(q, s1, s2[0]),
        forward(q, s2, s3[0]),
        forward(q, s3, s0[0]),
    ensures
        ({
            let s = s0 + s1 + s2 + s3;
            &&& steps(q, s, s[0], s.len()) == 4 * a
            &&& forward(q, s, s[0])
        }),
{
    let all = s0 + s1 + s2 + s3;
    assert(all[0] == s0[0]);
    lemma_concat(q, s0 + s1 + s2, s3, all[0]);
    lemma_concat(q, s0 + s1, s2, s3[0]);
    lemma_concat(q, s0, s1, s2[0]);
}

/// The points of the outline, in voxels.
spec fn rim_points(quads: Seq<Quad>, split: Split, q: Quad) -> Seq<Point> {
    side_points(quads, split, q, 0, 0) + side_points(quads, split, q, 1, 0) + side_points(quads, split, q, 2, 0) + side_points(quads, split, q, 3, 0)
}

/// The outline goes once around the centre.
proof fn lemma_outline_steps(quads: Seq<Quad>, split: Split, q: Quad)
    requires
        q.rectangle(),
    ensures
        steps(q, rim_points(quads, split, q), rim_points(quads, split, q)[0], rim_points(quads, split, q).len()) == 8 * q.spec_area(),
        forward(q, rim_points(quads, split, q), rim_points(quads, split, q)[0]),
{
    lemma_whole_side(quads, split, q, 0);
    lemma_whole_side(quads, split, q, 1);
    lemma_whole_side(quads, split, q, 2);
    lemma_whole_side(quads, split, q, 3);
    lemma_around(
        q,
        side_points(quads, split, q, 0, 0),
        side_points(quads, split, q, 1, 0),
        side_points(quads, split, q, 2, 0),
        side_points(quads, split, q, 3, 0),
        2 * q.spec_area(),
    );
}

/// What the first `n` triangles of a quad come to.
spec fn quad_turns(q: Quad, vs: Seq<[u8; 3]>, ts: Seq<[u32; 3]>, n: nat) -> int
    decreases n,
{
    if n == 0 {
        0
    } else {
        quad_turns(q, vs, ts, (n - 1) as nat) + triangle_turn(q, vs, ts[n - 1])
    }
}

/// The vertices from `base` on are the outline `s`, and after it the centre.
spec fn fan_of(q: Quad, vs: Seq<[u8; 3]>, base: int, s: Seq<Point>) -> bool {
    &&& 0 <= base
    &&& base + s.len() <= u32::MAX
    &&& point(vs[base + s.len()]) == point(centre(q))
    &&& forall|i: int| 0 <= i < s.len() ==> point(#[trigger] vs[base + i]) == twice(s[i])
}

proof fn lemma_fan_triangle(q: Quad, vs: Seq<[u8; 3]>, base: int, s: Seq<Point>, i: int)
    requires
        s.len() != 4,
        0 <= i < s.len(),
        fan_of(q, vs, base, s),
    ensures
        triangle_turn(q, vs, quad_triangles(base, s.len() as int)[i]) == step(q, s[i], after(s, s[0], i)),
{
    reveal(step);
    let m = s.len() as int;
    let t = quad_triangles(base, m)[i];
    let next = if i + 1 < m {
        i + 1
    } else {
        0
    };
    if i + 1 < m {
        vstd::arithmetic::div_mod::lemma_small_mod((i + 1) as nat, m as nat);
    } else {
        vstd::arithmetic::div_mod::lemma_mod_self_0(m);
    }
    assert((i + 1) % m == next);
    assert(t == [(base + m) as u32, (base + i) as u32, (base + next) as u32]);
    assert(t[0] == base + m && t[1] == base + i && t[2] == base + next);
    assert(point(vs[base + i]) == twice(s[i]));
    assert(point(vs[base + next]) == twice(s[next]));
}

proof fn lemma_fan_turns(q: Quad, vs: Seq<[u8; 3]>, base: int, s: Seq<Point>, n: nat)
    requires
        s.len() != 4,
        n <= s.len(),
        fan_of(q, vs, base, s),
    ensures
        quad_turns(q, vs, quad_triangles(base, s.len() as int), n) == steps(q, s, s[0], n),
    decreases n,
{
    if n > 0 {
        lemma_fan_turns(q, vs, base, s, (n - 1) as nat);
        lemma_fan_triangle(q, vs, base, s, n - 1);
    }
}

/// Two triangles over the corners.
proof fn lemma_plain_turns(q: Quad)
    requires
        q.rectangle(),
    ensures
        ({
            let (a, b, c, d) = (
                twice(point(q.rim(0, 0))),
                twice(point(q.rim(1, 0))),
                twice(point(q.rim(2, 0))),
                twice(point(q.rim(3, 0))),
            );
            turn(q, a, b, c) == 4 * q.spec_area() && turn(q, a, c, d) == 4 * q.spec_area()
        }),
        q.spec_area() > 0,
{
    reveal(turn);
    lemma_in_plane(q, 0, 0);
    lemma_in_plane(q, 1, 0);
    lemma_in_plane(q, 2, 0);
    lemma_in_plane(q, 3, 0);
    let (a, b, c, d) = (
        twice(point(q.rim(0, 0))),
        twice(point(q.rim(1, 0))),
        twice(point(q.rim(2, 0))),
        twice(point(q.rim(3, 0))),
    );
    assert(in_plane(q, a) == (2 * q.ring(0, 0).0, 2 * q.ring(0, 0).1));
    assert(in_plane(q, b) == (2 * q.ring(1, 0).0, 2 * q.ring(1, 0).1));
    assert(in_plane(q, c) == (2 * q.ring(2, 0).0, 2 * q.ring(2, 0).1));
    assert(in_plane(q, d) == (2 * q.ring(3, 0).0, 2 * q.ring(3, 0).1));
    let (w, h) = (q.u1 - q.u0, q.v1 - q.v0);
    assert((2 * w) * (2 * h) == 4 * (w * h) && (2 * h) * (2 * w) == 4 * (w * h) && (2 * w) * 0 == 0 && (2 * h) * 0 == 0 && 0 * (2 * w) == 0
        && 0 * (2 * h) == 0 && w * h > 0) by (nonlinear_arith)
        requires
            w > 0,
            h > 0,
    ;
    assert(2 * q.u1 - 2 * q.u0 == 2 * w && 2 * q.v1 - 2 * q.v0 == 2 * h);
}

proof fn lemma_plain_outline(quads: Seq<Quad>, split: Split, q: Quad)
    requires
        q.rectangle(),
        rim_points(quads, split, q).len() == 4,
    ensures
        forall|k: int| 0 <= k < 4 ==> #[trigger] rim_points(quads, split, q)[k] == point(q.rim(k, 0)),
{
    lemma_whole_side(quads, split, q, 0);
    lemma_whole_side(quads, split, q, 1);
    lemma_whole_side(quads, split, q, 2);
    lemma_whole_side(quads, split, q, 3);
}

/// The vertices of a quad behind others, as points.
proof fn lemma_quad_points(quads: Seq<Quad>, split: Split, q: Quad, vs: Seq<[u8; 3]>)
    requires
        q.rectangle(),
    ensures
        ({
            let v = vs + quad_vertices(quads, split, q);
            let s = rim_points(quads, split, q);
            let base = vs.len() as int;
            &&& 4 <= s.len() <= 32
            &&& s.len() == outline(quads, split, q).len()
            &&& forall|i: int| 0 <= i < s.len() ==> point(#[trigger] v[base + i]) == twice(s[i])
            &&& s.len() != 4 ==> point(v[base + s.len()]) == point(centre(q))
        }),
{
    lemma_outline(quads, split, q);
    lemma_outline_shape(quads, split, q);
    let o = outline(quads, split, q);
    let s = rim_points(quads, split, q);
    let base = vs.len() as int;
    let qv = quad_vertices(quads, split, q);
    let v = vs + qv;
    assert(outline_points(quads, split, q).len() == o.len());
    assert forall|i: int| 0 <= i < s.len() implies point(#[trigger] v[base + i]) == twice(s[i]) by {
        assert(v[base + i] == qv[i]);
        assert(outline_points(quads, split, q)[i] == twice(s[i]));
    }
    if s.len() != 4 {
        assert(v[base + s.len()] == qv[s.len() as int]);
    }
}

/// Two triangles over four vertices.
proof fn lemma_two_turns(q: Quad, v: Seq<[u8; 3]>, base: int, s: Seq<Point>)
    requires
        q.rectangle(),
        0 <= base,
        base + 4 <= u32::MAX,
        s.len() == 4,
        forall|k: int| 0 <= k < 4 ==> #[trigger] s[k] == point(q.rim(k, 0)),
        forall|i: int| 0 <= i < 4 ==> point(#[trigger] v[base + i]) == twice(s[i]),
    ensures
        triangle_turn(q, v, quad_triangles(base, 4)[0]) == 4 * q.spec_area(),
        triangle_turn(q, v, quad_triangles(base, 4)[1]) == 4 * q.spec_area(),
        q.spec_area() > 0,
{
    lemma_plain_turns(q);
    assert(point(v[base + 0]) == twice(s[0]));
    assert(point(v[base + 1]) == twice(s[1]));
    assert(point(v[base + 2]) == twice(s[2]));
    assert(point(v[base + 3]) == twice(s[3]));
    let (t, u) = (quad_triangles(base, 4)[0], quad_triangles(base, 4)[1]);
    assert(t[0] == base && t[1] == base + 1 && t[2] == base + 2);
    assert(u[0] == base && u[1] == base + 2 && u[2] == base + 3);
}

/// One quad's triangles face outward, and together cover it.
proof fn lemma_quad_turns(quads: Seq<Quad>, split: Split, q: Quad, vs: Seq<[u8; 3]>)
    requires
        q.rectangle(),
        vs.len() + 33 <= u32::MAX,
    ensures
        ({
            let v = vs + quad_vertices(quads, split, q);
            let qt = quad_triangles(vs.len() as int, outline(quads, split, q).len() as int);
            &&& quad_turns(q, v, qt, qt.len()) == 8 * q.spec_area()
            &&& forall|i: int| 0 <= i < qt.len() ==> triangle_turn(q, v, #[trigger] qt[i]) > 0
        }),
{
    lemma_quad_points(quads, split, q, vs);
    let s = rim_points(quads, split, q);
    let base = vs.len() as int;
    let v = vs + quad_vertices(quads, split, q);
    let qt = quad_triangles(base, s.len() as int);
    if s.len() == 4 {
        lemma_plain_outline(quads, split, q);
        lemma_two_turns(q, v, base, s);
        reveal_with_fuel(quad_turns, 3);
        assert(qt.len() == 2);
    } else {
        lemma_outline_steps(quads, split, q);
        lemma_fan_turns(q, v, base, s, s.len());
        assert forall|i: int| 0 <= i < qt.len() implies triangle_turn(q, v, #[trigger] qt[i]) > 0 by {
            lemma_fan_triangle(q, v, base, s, i);
            assert(step(q, s[i], after(s, s[0], i)) > 0);
        }
    }
}

/// Later vertices, triangles and quads change nothing of the earlier.
proof fn lemma_owned_extend(
    quads: Seq<Quad>,
    vs: Seq<[u8; 3]>,
    ts: Seq<[u32; 3]>,
    os: Seq<u32>,
    more_vs: Seq<[u8; 3]>,
    more_ts: Seq<[u32; 3]>,
    more_os: Seq<u32>,
    n: nat,
    i: int,
)
    requires
        n <= ts.len(),
        ts.len() == os.len(),
        forall|j: int, c: int| 0 <= j < ts.len() && 0 <= c < 3 ==> #[trigger] ts[j][c] < vs.len(),
    ensures
        owned_turns(quads, vs + more_vs, ts + more_ts, os + more_os, n, i) == owned_turns(quads, vs, ts, os, n, i),
    decreases n,
{
    if n > 0 {
        lemma_owned_extend(quads, vs, ts, os, more_vs, more_ts, more_os, (n - 1) as nat, i);
        lemma_same_turn(quads[i], vs, more_vs, ts, n - 1);
        assert((ts + more_ts)[n - 1] == ts[n - 1]);
        assert((os + more_os)[n - 1] == os[n - 1]);
    }
}

proof fn lemma_same_turn(q: Quad, vs: Seq<[u8; 3]>, more: Seq<[u8; 3]>, ts: Seq<[u32; 3]>, j: int)
    requires
        0 <= j < ts.len(),
        forall|j: int, c: int| 0 <= j < ts.len() && 0 <= c < 3 ==> #[trigger] ts[j][c] < vs.len(),
    ensures
        triangle_turn(q, vs + more, ts[j]) == triangle_turn(q, vs, ts[j]),
{
    let t = ts[j];
    assert(ts[j][0] < vs.len() && ts[j][1] < vs.len() && ts[j][2] < vs.len());
    assert((vs + more)[t[0] as int] == vs[t[0] as int]);
    assert((vs + more)[t[1] as int] == vs[t[1] as int]);
    assert((vs + more)[t[2] as int] == vs[t[2] as int]);
}

/// A block of triangles with one owner adds to that owner alone.
proof fn lemma_owned_block(quads: Seq<Quad>, vs: Seq<[u8; 3]>, ts: Seq<[u32; 3]>, os: Seq<u32>, from: nat, block: Seq<[u32; 3]>, o: int, n: nat, i: int)
    requires
        n <= block.len(),
        ts.len() == from + block.len(),
        forall|j: int| 0 <= j < block.len() ==> #[trigger] ts[from + j] == block[j],
        forall|j: int| 0 <= j < block.len() ==> #[trigger] os[from + j] == o,
    ensures
        owned_turns(quads, vs, ts, os, from + n, i) == owned_turns(quads, vs, ts, os, from, i) + if i == o {
            quad_turns(quads[i], vs, block, n)
        } else {
            0
        },
    decreases n,
{
    if n > 0 {
        lemma_owned_block(quads, vs, ts, os, from, block, o, (n - 1) as nat, i);
        assert(ts[from + (n - 1)] == block[n - 1]);
        assert(os[from + (n - 1)] == o);
        assert(from + n - 1 == from + (n - 1));
    }
}

/// Triangle `j` faces out of its quad.
pub open spec fn faces_out(quads: Seq<Quad>, split: Split, n: nat, j: int) -> bool {
    triangle_turn(quads[all_owners(quads, split, n)[j] as int], all_vertices(quads, split, n), all_triangles(quads, split, n)[j]) > 0
}

/// What the triangles of quad `i` come to, in half-voxel units.
pub open spec fn turns_of(quads: Seq<Quad>, split: Split, n: nat, i: int) -> int {
    owned_turns(
        quads,
        all_vertices(quads, split, n),
        all_triangles(quads, split, n),
        all_owners(quads, split, n),
        all_triangles(quads, split, n).len(),
        i,
    )
}

/// Every triangle has area and faces out of its quad, and the areas of a quad's triangles, which lie on
/// it, add up to the quad's: twice an area in half-voxel units is eight times the area in voxels.
pub proof fn law_triangles_face_outward_and_cover_their_quads(quads: Seq<Quad>, split: Split, n: nat)
    requires
        n <= quads.len(),
        forall|i: int| 0 <= i < quads.len() ==> (#[trigger] quads[i]).rectangle(),
        33 * quads.len() + 33 <= u32::MAX,
    ensures
        forall|j: int| 0 <= j < all_triangles(quads, split, n).len() ==> #[trigger] faces_out(quads, split, n, j),
        forall|i: int| 0 <= i < n ==> #[trigger] turns_of(quads, split, n, i) == 8 * quads[i].spec_area(),
        forall|i: int| n <= i < quads.len() ==> #[trigger] turns_of(quads, split, n, i) == 0,
    decreases n,
{
    if n > 0 {
        let m = (n - 1) as nat;
        let q = quads[m as int];
        law_triangles_face_outward_and_cover_their_quads(quads, split, m);
        lemma_triangle_indices(quads, split, m);
        crate::derived::triangles::law_triangles_lie_on_their_quads(quads, split, m);
        let (vs, ts, os) = (all_vertices(quads, split, m), all_triangles(quads, split, m), all_owners(quads, split, m));
        let qv = quad_vertices(quads, split, q);
        let qt = quad_triangles(vs.len() as int, outline(quads, split, q).len() as int);
        let qo = Seq::new(quad_triangles(0, outline(quads, split, q).len() as int).len(), |i: int| (n - 1) as u32);
        assert(qo.len() == qt.len());
        lemma_quad_turns(quads, split, q, vs);
        let (v, t, o) = (vs + qv, ts + qt, os + qo);
        assert(v == all_vertices(quads, split, n));
        assert(t == all_triangles(quads, split, n));
        assert(o == all_owners(quads, split, n));
        assert forall|i: int| 0 <= i < quads.len() implies #[trigger] turns_of(quads, split, n, i) == turns_of(quads, split, m, i) + if i == m {
            8 * q.spec_area()
        } else {
            0
        } by {
            lemma_owned_extend(quads, vs, ts, os, qv, qt, qo, ts.len(), i);
            assert forall|j: int| 0 <= j < qt.len() implies #[trigger] t[ts.len() + j] == qt[j] by {}
            assert forall|j: int| 0 <= j < qt.len() implies #[trigger] o[ts.len() + j] == m by {
                assert(o[ts.len() + j] == qo[j]);
            }
            lemma_owned_block(quads, v, t, o, ts.len(), qt, m as int, qt.len(), i);
            assert(t.len() == ts.len() + qt.len());
        }
        assert forall|j: int| 0 <= j < t.len() implies #[trigger] faces_out(quads, split, n, j) by {
            if j < ts.len() {
                assert(faces_out(quads, split, m, j));
                assert(crate::derived::triangles::corner_on_quad(quads, split, m, j, 0));
                lemma_same_turn(quads[os[j] as int], vs, qv, ts, j);
                assert(t[j] == ts[j] && o[j] == os[j]);
            } else {
                assert(t[j] == qt[j - ts.len()] && o[j] == qo[j - ts.len()]);
            }
        }
        assert forall|i: int| 0 <= i < n implies #[trigger] turns_of(quads, split, n, i) == 8 * quads[i].spec_area() by {
            if i < m {
                assert(turns_of(quads, split, m, i) == 8 * quads[i].spec_area());
            } else {
                assert(turns_of(quads, split, m, i) == 0);
            }
        }
        assert forall|i: int| n <= i < quads.len() implies #[trigger] turns_of(quads, split, n, i) == 0 by {
            assert(turns_of(quads, split, m, i) == 0);
        }
    } else {
        assert(all_triangles(quads, split, n).len() == 0);
    }
}

/// Quads of one unit have no sides to split, so an unmerged mesh has the same triangles either way.
pub proof fn law_unmerged_meshes_need_no_splitting(occ: Local, n: nat)
    requires
        n <= mesh_quads(occ, Merge::Unmerged).len(),
    ensures
        ({
            let s = mesh_quads(occ, Merge::Unmerged);
            &&& all_vertices(s, Split::Watertight, n) == all_vertices(s, Split::CornersOnly, n)
            &&& all_triangles(s, Split::Watertight, n) == all_triangles(s, Split::CornersOnly, n)
            &&& all_owners(s, Split::Watertight, n) == all_owners(s, Split::CornersOnly, n)
        }),
    decreases n,
{
    if n > 0 {
        law_unmerged_meshes_need_no_splitting(occ, (n - 1) as nat);
        let s = mesh_quads(occ, Merge::Unmerged);
        let q = s[n - 1];
        law_unmerged_quads_are_unit_faces(occ, n - 1);
        law_mesh_quads_are_well_formed(occ, Merge::Unmerged, n - 1);
        let (w, h) = (q.u1 - q.u0, q.v1 - q.v0);
        assert(w == 1 && h == 1) by (nonlinear_arith)
            requires
                w >= 1,
                h >= 1,
                w * h == 1,
        ;
        assert forall|k: int| 0 <= k < 4 implies #[trigger] side_vertices(s, Split::Watertight, q, k, 0) == side_vertices(
            s,
            Split::CornersOnly,
            q,
            k,
            0,
        ) by {
            reveal_with_fuel(side_vertices, 2);
        }
        assert(outline(s, Split::Watertight, q) == outline(s, Split::CornersOnly, q));
    }
}

} // verus!
