//! Watertight triangles from a brick's quads.
use crate::derived::mesh::{BrickMesh, Quad};
use vstd::prelude::*;

verus! {

/// How quad edges are split before triangulation.
///
/// `Split::Watertight` makes every triangle edge shared, using only the brick's own quads, so a
/// brick's triangles still depend on nothing but its mesh:
/// - An edge lying on the brick's boundary (one of its two fixed coordinates is 0 or 8) is split
///   at every lattice point. The brick across that boundary does the same, so both sides produce
///   the same unit segments whatever their merging.
/// - Any other edge is split at every corner of this brick's quads that lies strictly inside it.
///   Its interior is inside the open brick, so no other brick's vertex can lie on it.
///
/// A quad with no split points keeps two triangles `(c0, c1, c2), (c0, c2, c3)`. A quad with split
/// points becomes a fan around its centre (a half-integer point): one triangle per outline
/// segment, none degenerate, all counter-clockwise from outside.
#[derive(Clone, Copy, Debug, PartialEq, Eq, Structural)]
pub enum Split {
    Watertight,
    /// Two triangles per quad, no splitting.
    CornersOnly,
}

impl Default for Split {
    fn default() -> (r: Split)
        ensures
            r == Split::Watertight,
    {
        Split::Watertight
    }
}

/// A brick's triangles. Coordinates are brick-local in half-voxel units (x2), `0..=16`.
#[derive(Clone, Debug, PartialEq, Eq)]
pub struct Triangles {
    pub vertices: Vec<[u8; 3]>,
    /// Vertex indices, counter-clockwise from outside.
    pub indices: Vec<[u32; 3]>,
    /// For each triangle, the index of its quad in the mesh.
    pub quad: Vec<u32>,
}

impl Default for Triangles {
    fn default() -> (r: Triangles)
        ensures
            r.vertices@.len() == 0,
            r.indices@.len() == 0,
            r.quad@.len() == 0,
    {
        Triangles { vertices: Vec::new(), indices: Vec::new(), quad: Vec::new() }
    }
}

impl Quad {
    /// A rectangle with area, in the documented coordinate ranges.
    pub open spec fn rectangle(self) -> bool {
        self.in_brick() && self.u0 < self.u1 && self.v0 < self.v1
    }

    /// Whether side `k` of the outline runs along the u axis.
    pub open spec fn along_u(self, k: int) -> bool {
        if self.spec_positive() {
            k % 2 == 0
        } else {
            k % 2 == 1
        }
    }

    /// The length of side `k`.
    pub open spec fn side(self, k: int) -> int {
        if self.along_u(k) {
            self.u1 - self.u0
        } else {
            self.v1 - self.v0
        }
    }

    /// The plane coordinates `t` steps along side `k` of the outline, counter-clockwise from outside.
    pub open spec fn ring(self, k: int, t: int) -> (int, int) {
        if self.spec_positive() {
            if k == 0 {
                (self.u0 + t, self.v0 as int)
            } else if k == 1 {
                (self.u1 as int, self.v0 + t)
            } else if k == 2 {
                (self.u1 - t, self.v1 as int)
            } else {
                (self.u0 as int, self.v1 - t)
            }
        } else {
            if k == 0 {
                (self.u0 as int, self.v0 + t)
            } else if k == 1 {
                (self.u0 + t, self.v1 as int)
            } else if k == 2 {
                (self.u1 as int, self.v1 - t)
            } else {
                (self.u1 - t, self.v0 as int)
            }
        }
    }

    /// The lattice point `t` steps along side `k`.
    pub open spec fn rim(self, k: int, t: int) -> [u8; 3] {
        self.spec_corner(self.ring(k, t).0 as u8, self.ring(k, t).1 as u8)
    }

    /// Whether side `k` lies on the brick's boundary.
    pub open spec fn on_boundary(self, k: int) -> bool {
        let fixed = if self.along_u(k) {
            self.ring(k, 0).1
        } else {
            self.ring(k, 0).0
        };
        self.plane == 0 || self.plane == 8 || fixed == 0 || fixed == 8
    }

    /// The corners are the starts of the sides.
    pub proof fn law_corners_start_the_sides(self)
        requires
            self.face < 6,
        ensures
            self.spec_corners()[0] == self.rim(0, 0),
            self.spec_corners()[1] == self.rim(1, 0),
            self.spec_corners()[2] == self.rim(2, 0),
            self.spec_corners()[3] == self.rim(3, 0),
    {
    }
}

/// Whether `x` is a corner of one of the first `n` quads.
pub open spec fn is_corner(quads: Seq<Quad>, n: int, x: [u8; 3]) -> bool {
    exists|i: int, k: int| 0 <= i < n && 0 <= k < 4 && #[trigger] quads[i].rim(k, 0) == x
}

/// Whether the outline of `q` has a vertex `t` steps along side `k`.
pub open spec fn has_vertex(quads: Seq<Quad>, split: Split, q: Quad, k: int, t: int) -> bool {
    t == 0 || (split == Split::Watertight && (q.on_boundary(k) || is_corner(quads, quads.len() as int, q.rim(k, t))))
}

/// The outline's vertices on side `k`, from `t` steps on.
pub open spec fn side_vertices(quads: Seq<Quad>, split: Split, q: Quad, k: int, t: int) -> Seq<[u8; 3]>
    decreases q.side(k) - t,
{
    if t >= q.side(k) {
        Seq::empty()
    } else if has_vertex(quads, split, q, k, t) {
        seq![q.rim(k, t)] + side_vertices(quads, split, q, k, t + 1)
    } else {
        side_vertices(quads, split, q, k, t + 1)
    }
}

/// The outline of `q`: its corners and split points, counter-clockwise from outside.
pub open spec fn outline(quads: Seq<Quad>, split: Split, q: Quad) -> Seq<[u8; 3]> {
    side_vertices(quads, split, q, 0, 0) + side_vertices(quads, split, q, 1, 0) + side_vertices(quads, split, q, 2, 0)
        + side_vertices(quads, split, q, 3, 0)
}

/// A lattice point in half-voxel units.
pub open spec fn doubled(p: [u8; 3]) -> [u8; 3] {
    [(2 * p[0]) as u8, (2 * p[1]) as u8, (2 * p[2]) as u8]
}

/// The middle of `q`, in half-voxel units.
pub open spec fn centre(q: Quad) -> [u8; 3] {
    if q.spec_axis() == 0 {
        [(2 * q.plane) as u8, (q.u0 + q.u1) as u8, (q.v0 + q.v1) as u8]
    } else if q.spec_axis() == 1 {
        [(q.v0 + q.v1) as u8, (2 * q.plane) as u8, (q.u0 + q.u1) as u8]
    } else {
        [(q.u0 + q.u1) as u8, (q.v0 + q.v1) as u8, (2 * q.plane) as u8]
    }
}

/// The vertices of one quad: its outline, and its centre where it becomes a fan.
pub open spec fn quad_vertices(quads: Seq<Quad>, split: Split, q: Quad) -> Seq<[u8; 3]> {
    let o = outline(quads, split, q);
    let d = o.map_values(|p: [u8; 3]| doubled(p));
    if o.len() == 4 {
        d
    } else {
        d.push(centre(q))
    }
}

/// The vertices of the first `n` quads.
pub open spec fn all_vertices(quads: Seq<Quad>, split: Split, n: nat) -> Seq<[u8; 3]>
    decreases n,
{
    if n == 0 {
        Seq::empty()
    } else {
        all_vertices(quads, split, (n - 1) as nat) + quad_vertices(quads, split, quads[n - 1])
    }
}

/// The triangles of a quad whose outline has `m` vertices, the first of them at index `base`.
pub open spec fn quad_triangles(base: int, m: int) -> Seq<[u32; 3]> {
    if m == 4 {
        seq![
            [base as u32, (base + 1) as u32, (base + 2) as u32],
            [base as u32, (base + 2) as u32, (base + 3) as u32],
        ]
    } else {
        Seq::new(m as nat, |i: int| [(base + m) as u32, (base + i) as u32, (base + (i + 1) % m) as u32])
    }
}

/// The triangles of the first `n` quads.
pub open spec fn all_triangles(quads: Seq<Quad>, split: Split, n: nat) -> Seq<[u32; 3]>
    decreases n,
{
    if n == 0 {
        Seq::empty()
    } else {
        all_triangles(quads, split, (n - 1) as nat) + quad_triangles(
            all_vertices(quads, split, (n - 1) as nat).len() as int,
            outline(quads, split, quads[n - 1]).len() as int,
        )
    }
}

/// The quad of each triangle of the first `n` quads.
pub open spec fn all_owners(quads: Seq<Quad>, split: Split, n: nat) -> Seq<u32>
    decreases n,
{
    if n == 0 {
        Seq::empty()
    } else {
        all_owners(quads, split, (n - 1) as nat) + Seq::new(
            quad_triangles(0, outline(quads, split, quads[n - 1]).len() as int).len(),
            |i: int| (n - 1) as u32,
        )
    }
}

/// Every side starts with its corner and has at most eight vertices.
pub proof fn lemma_side(quads: Seq<Quad>, split: Split, q: Quad, k: int, t: int)
    requires
        q.rectangle(),
        0 <= k < 4,
        0 <= t,
    ensures
        side_vertices(quads, split, q, k, t).len() <= (if t >= q.side(k) {
            0
        } else {
            q.side(k) - t
        }),
        t == 0 ==> side_vertices(quads, split, q, k, t).len() >= 1,
    decreases q.side(k) - t,
{
    if t < q.side(k) {
        lemma_side(quads, split, q, k, t + 1);
    }
}

pub proof fn lemma_outline(quads: Seq<Quad>, split: Split, q: Quad)
    requires
        q.rectangle(),
    ensures
        4 <= outline(quads, split, q).len() <= 32,
{
    lemma_side(quads, split, q, 0, 0);
    lemma_side(quads, split, q, 1, 0);
    lemma_side(quads, split, q, 2, 0);
    lemma_side(quads, split, q, 3, 0);
}

/// The points of a side are lattice points of the brick.
proof fn lemma_side_points(quads: Seq<Quad>, split: Split, q: Quad, k: int, t: int)
    requires
        q.rectangle(),
        0 <= k < 4,
        0 <= t,
    ensures
        forall|i: int|
            0 <= i < side_vertices(quads, split, q, k, t).len() ==> (#[trigger] side_vertices(quads, split, q, k, t)[i])[0] <= 8
                && side_vertices(quads, split, q, k, t)[i][1] <= 8 && side_vertices(quads, split, q, k, t)[i][2] <= 8,
    decreases q.side(k) - t,
{
    if t < q.side(k) {
        lemma_side_points(quads, split, q, k, t + 1);
        lemma_rim_bounds(q, k, t);
        let rest = side_vertices(quads, split, q, k, t + 1);
        let all = side_vertices(quads, split, q, k, t);
        assert forall|i: int| 0 <= i < all.len() implies (#[trigger] all[i])[0] <= 8 && all[i][1] <= 8 && all[i][2] <= 8 by {
            if has_vertex(quads, split, q, k, t) && i > 0 {
                assert(all[i] == rest[i - 1]);
            }
        }
    }
}

/// The points of an outline are lattice points of the brick.
pub proof fn lemma_outline_points(quads: Seq<Quad>, split: Split, q: Quad)
    requires
        q.rectangle(),
    ensures
        forall|i: int|
            0 <= i < outline(quads, split, q).len() ==> (#[trigger] outline(quads, split, q)[i])[0] <= 8 && outline(quads, split, q)[i][1] <= 8
                && outline(quads, split, q)[i][2] <= 8,
{
    lemma_side_points(quads, split, q, 0, 0);
    lemma_side_points(quads, split, q, 1, 0);
    lemma_side_points(quads, split, q, 2, 0);
    lemma_side_points(quads, split, q, 3, 0);
}

/// Index of a lattice point of the brick.
pub open spec fn lattice(p: [u8; 3]) -> int {
    p[0] + 9 * (p[1] + 9 * p[2])
}

fn at(p: [u8; 3]) -> (r: usize)
    requires
        p[0] <= 8,
        p[1] <= 8,
        p[2] <= 8,
    ensures
        r == lattice(p),
        r < 729,
{
    p[0] as usize + 9 * (p[1] as usize + 9 * p[2] as usize)
}

proof fn lemma_lattice(p: [u8; 3], q: [u8; 3])
    requires
        p[0] <= 8,
        p[1] <= 8,
        p[2] <= 8,
        q[0] <= 8,
        q[1] <= 8,
        q[2] <= 8,
        lattice(p) == lattice(q),
    ensures
        p == q,
{
    assert(p[0] == q[0] && p[1] == q[1] && p[2] == q[2]);
    assert(p@ =~= q@);
    assert(p =~= q);
}

fn rim_at(q: Quad, u: u8, v: u8) -> (r: [u8; 3])
    requires
        q.rectangle(),
        u <= 8,
        v <= 8,
    ensures
        r == q.spec_corner(u, v),
        r[0] <= 8,
        r[1] <= 8,
        r[2] <= 8,
{
    let a: u8 = q.face / 2;
    if a == 0 {
        [q.plane, u, v]
    } else if a == 1 {
        [v, q.plane, u]
    } else {
        [u, v, q.plane]
    }
}

proof fn lemma_rim_bounds(q: Quad, k: int, t: int)
    requires
        q.rectangle(),
        0 <= k < 4,
        0 <= t <= q.side(k),
    ensures
        q.rim(k, t)[0] <= 8,
        q.rim(k, t)[1] <= 8,
        q.rim(k, t)[2] <= 8,
        0 <= q.ring(k, t).0 <= 8,
        0 <= q.ring(k, t).1 <= 8,
{
}

fn ring_at(q: Quad, k: usize, t: u8) -> (r: (u8, u8))
    requires
        q.rectangle(),
        k < 4,
        t <= q.side(k as int),
    ensures
        (r.0 as int, r.1 as int) == q.ring(k as int, t as int),
        r.0 <= 8,
        r.1 <= 8,
{
    if q.face % 2 == 1 {
        if k == 0 {
            (q.u0 + t, q.v0)
        } else if k == 1 {
            (q.u1, q.v0 + t)
        } else if k == 2 {
            (q.u1 - t, q.v1)
        } else {
            (q.u0, q.v1 - t)
        }
    } else {
        if k == 0 {
            (q.u0, q.v0 + t)
        } else if k == 1 {
            (q.u0 + t, q.v1)
        } else if k == 2 {
            (q.u1, q.v1 - t)
        } else {
            (q.u1 - t, q.v0)
        }
    }
}

/// Marks every quad's corners.
fn corner_marks(quads: &Vec<Quad>) -> (corner: Vec<bool>)
    requires
        forall|i: int| 0 <= i < quads@.len() ==> (#[trigger] quads@[i]).rectangle(),
    ensures
        corner@.len() == 729,
        forall|x: [u8; 3]|
            x[0] <= 8 && x[1] <= 8 && x[2] <= 8 ==> #[trigger] corner@[lattice(x)] == is_corner(
                quads@,
                quads@.len() as int,
                x,
            ),
{
    let mut corner: Vec<bool> = Vec::new();
    let mut n: usize = 0;
    while n < 729
        invariant
            n <= 729,
            corner@.len() == n,
            forall|j: int| 0 <= j < n ==> !#[trigger] corner@[j],
        decreases 729 - n,
    {
        corner.push(false);
        n += 1;
    }
    let mut i: usize = 0;
    while i < quads.len()
        invariant
            i <= quads@.len(),
            corner@.len() == 729,
            forall|j: int| 0 <= j < quads@.len() ==> (#[trigger] quads@[j]).rectangle(),
            forall|x: [u8; 3]|
                x[0] <= 8 && x[1] <= 8 && x[2] <= 8 ==> #[trigger] corner@[lattice(x)] == is_corner(quads@, i as int, x),
        decreases quads@.len() - i,
    {
        let q = quads[i];
        let mut k: usize = 0;
        while k < 4
            invariant
                k <= 4,
                i < quads@.len(),
                q == quads@[i as int],
                q.rectangle(),
                corner@.len() == 729,
                forall|x: [u8; 3]|
                    x[0] <= 8 && x[1] <= 8 && x[2] <= 8 ==> #[trigger] corner@[lattice(x)] == (is_corner(
                        quads@,
                        i as int,
                        x,
                    ) || exists|l: int| 0 <= l < k && #[trigger] q.rim(l, 0) == x),
            decreases 4 - k,
        {
            let (u, v) = ring_at(q, k, 0);
            let p = rim_at(q, u, v);
            let ghost before = corner@;
            corner.set(at(p), true);
            proof {
                assert(p == q.rim(k as int, 0));
                assert forall|x: [u8; 3]| x[0] <= 8 && x[1] <= 8 && x[2] <= 8 implies #[trigger] corner@[lattice(x)] == (is_corner(
                    quads@,
                    i as int,
                    x,
                ) || exists|l: int| 0 <= l < k + 1 && #[trigger] q.rim(l, 0) == x) by {
                    assert(before[lattice(x)] == (is_corner(quads@, i as int, x) || exists|l: int|
                        0 <= l < k && #[trigger] q.rim(l, 0) == x));
                    if lattice(x) == lattice(p) {
                        lemma_lattice(x, p);
                        assert(q.rim(k as int, 0) == x);
                    } else {
                        if exists|l: int| 0 <= l < k + 1 && #[trigger] q.rim(l, 0) == x {
                            let l = choose|l: int| 0 <= l < k + 1 && #[trigger] q.rim(l, 0) == x;
                            assert(l < k);
                        }
                    }
                }
            }
            k += 1;
        }
        proof {
            assert forall|x: [u8; 3]| x[0] <= 8 && x[1] <= 8 && x[2] <= 8 implies #[trigger] corner@[lattice(x)] == is_corner(
                quads@,
                i + 1,
                x,
            ) by {
                if is_corner(quads@, i + 1, x) && !is_corner(quads@, i as int, x) {
                    let (a, l) = choose|a: int, l: int| 0 <= a < i + 1 && 0 <= l < 4 && #[trigger] quads@[a].rim(l, 0) == x;
                    assert(a == i);
                    assert(q.rim(l, 0) == x);
                }
                if exists|l: int| 0 <= l < 4 && #[trigger] q.rim(l, 0) == x {
                    let l = choose|l: int| 0 <= l < 4 && #[trigger] q.rim(l, 0) == x;
                    assert(quads@[i as int].rim(l, 0) == x);
                }
                if is_corner(quads@, i as int, x) {
                    let (a, l) = choose|a: int, l: int| 0 <= a < i && 0 <= l < 4 && #[trigger] quads@[a].rim(l, 0) == x;
                    assert(quads@[a].rim(l, 0) == x);
                }
            }
        }
        i += 1;
    }
    corner
}

/// One quad's outline.
fn outline_of(quads: &Vec<Quad>, corner: &Vec<bool>, split: Split, q: Quad) -> (out: Vec<[u8; 3]>)
    requires
        q.rectangle(),
        corner@.len() == 729,
        forall|x: [u8; 3]|
            x[0] <= 8 && x[1] <= 8 && x[2] <= 8 ==> #[trigger] corner@[lattice(x)] == is_corner(
                quads@,
                quads@.len() as int,
                x,
            ),
    ensures
        out@ == outline(quads@, split, q),
        forall|i: int|
            0 <= i < out@.len() ==> (#[trigger] out@[i])[0] <= 8 && out@[i][1] <= 8 && out@[i][2] <= 8,
{
    let mut out: Vec<[u8; 3]> = Vec::new();
    let ghost whole = outline(quads@, split, q);
    let mut k: usize = 0;
    proof {
        lemma_rest_sides(quads@, split, q);
        assert(out@ + rest_sides(quads@, split, q, 0) =~= whole);
    }
    while k < 4
        invariant
            k <= 4,
            q.rectangle(),
            corner@.len() == 729,
            forall|x: [u8; 3]|
                x[0] <= 8 && x[1] <= 8 && x[2] <= 8 ==> #[trigger] corner@[lattice(x)] == is_corner(
                    quads@,
                    quads@.len() as int,
                    x,
                ),
            whole == out@ + rest_sides(quads@, split, q, k as int),
            forall|i: int|
                0 <= i < out@.len() ==> (#[trigger] out@[i])[0] <= 8 && out@[i][1] <= 8 && out@[i][2] <= 8,
        decreases 4 - k,
    {
        let runs_u = (q.face % 2 == 1) == (k % 2 == 0);
        let len: u8 = if runs_u {
            q.u1 - q.u0
        } else {
            q.v1 - q.v0
        };
        let (su, sv) = ring_at(q, k, 0);
        let fixed: u8 = if runs_u {
            sv
        } else {
            su
        };
        let boundary = q.plane == 0 || q.plane == 8 || fixed == 0 || fixed == 8;
        let ghost later = rest_sides(quads@, split, q, k + 1);
        assert(rest_sides(quads@, split, q, k as int) == side_vertices(quads@, split, q, k as int, 0) + later);
        assert(whole =~= out@ + side_vertices(quads@, split, q, k as int, 0) + later);
        let mut t: u8 = 0;
        while t < len
            invariant
                t <= len,
                k < 4,
                q.rectangle(),
                len == q.side(k as int),
                boundary == q.on_boundary(k as int),
                corner@.len() == 729,
                forall|x: [u8; 3]|
                    x[0] <= 8 && x[1] <= 8 && x[2] <= 8 ==> #[trigger] corner@[lattice(x)] == is_corner(
                        quads@,
                        quads@.len() as int,
                        x,
                    ),
                whole == out@ + side_vertices(quads@, split, q, k as int, t as int) + later,
                forall|i: int|
                    0 <= i < out@.len() ==> (#[trigger] out@[i])[0] <= 8 && out@[i][1] <= 8 && out@[i][2] <= 8,
            decreases len - t,
        {
            let (u, v) = ring_at(q, k, t);
            let p = rim_at(q, u, v);
            assert(p == q.rim(k as int, t as int));
            let keep = t == 0 || (split == Split::Watertight && (boundary || corner[at(p)]));
            assert(corner@[lattice(p)] == is_corner(quads@, quads@.len() as int, p));
            assert(keep == has_vertex(quads@, split, q, k as int, t as int));
            let ghost tail = side_vertices(quads@, split, q, k as int, t + 1);
            let ghost was = out@;
            if keep {
                out.push(p);
                assert(was + (seq![p] + tail) + later =~= out@ + tail + later);
            }
            t += 1;
        }
        assert(out@ + Seq::<[u8; 3]>::empty() + later =~= out@ + later);
        k += 1;
    }
    assert(out@ + Seq::<[u8; 3]>::empty() =~= out@);
    out
}

/// The outline from side `k` on.
spec fn rest_sides(quads: Seq<Quad>, split: Split, q: Quad, k: int) -> Seq<[u8; 3]>
    decreases 4 - k,
{
    if k >= 4 {
        Seq::empty()
    } else {
        side_vertices(quads, split, q, k, 0) + rest_sides(quads, split, q, k + 1)
    }
}

proof fn lemma_rest_sides(quads: Seq<Quad>, split: Split, q: Quad)
    ensures
        rest_sides(quads, split, q, 0) == outline(quads, split, q),
{
    reveal_with_fuel(rest_sides, 5);
    assert(rest_sides(quads, split, q, 0) =~= outline(quads, split, q));
}

fn centre_of(q: Quad) -> (r: [u8; 3])
    requires
        q.rectangle(),
    ensures
        r == centre(q),
{
    let a: u8 = q.face / 2;
    let (p, u, v) = (2 * q.plane, q.u0 + q.u1, q.v0 + q.v1);
    if a == 0 {
        [p, u, v]
    } else if a == 1 {
        [v, p, u]
    } else {
        [u, v, p]
    }
}

/// The number of vertices is bounded by 33 per quad.
pub proof fn lemma_vertex_count(quads: Seq<Quad>, split: Split, n: nat)
    requires
        n <= quads.len(),
        forall|i: int| 0 <= i < quads.len() ==> (#[trigger] quads[i]).rectangle(),
    ensures
        all_vertices(quads, split, n).len() <= 33 * n,
    decreases n,
{
    if n > 0 {
        lemma_vertex_count(quads, split, (n - 1) as nat);
        lemma_outline(quads, split, quads[n - 1]);
    }
}

impl BrickMesh {
    /// See `Split`.
    #[verifier::spinoff_prover]
    #[verifier::rlimit(50)]
    pub fn triangulate(&self, split: Split) -> (t: Triangles)
        requires
            forall|i: int| 0 <= i < self.quads@.len() ==> (#[trigger] self.quads@[i]).rectangle(),
            33 * self.quads@.len() <= u32::MAX,
        ensures
            t.vertices@ == all_vertices(self.quads@, split, self.quads@.len()),
            t.indices@ == all_triangles(self.quads@, split, self.quads@.len()),
            t.quad@ == all_owners(self.quads@, split, self.quads@.len()),
    {
        let corner = corner_marks(&self.quads);
        let mut t = Triangles::default();
        let n: usize = self.quads.len();
        let mut i: usize = 0;
        assert(t.vertices@ =~= all_vertices(self.quads@, split, 0));
        assert(t.indices@ =~= all_triangles(self.quads@, split, 0));
        assert(t.quad@ =~= all_owners(self.quads@, split, 0));
        while i < n
            invariant
                i <= n,
                n == self.quads@.len(),
                forall|j: int| 0 <= j < self.quads@.len() ==> (#[trigger] self.quads@[j]).rectangle(),
                33 * self.quads@.len() <= u32::MAX,
                corner@.len() == 729,
                forall|x: [u8; 3]|
                    x[0] <= 8 && x[1] <= 8 && x[2] <= 8 ==> #[trigger] corner@[lattice(x)] == is_corner(
                        self.quads@,
                        self.quads@.len() as int,
                        x,
                    ),
                t.vertices@ == all_vertices(self.quads@, split, i as nat),
                t.indices@ == all_triangles(self.quads@, split, i as nat),
                t.quad@ == all_owners(self.quads@, split, i as nat),
            decreases n - i,
        {
            let q = self.quads[i];
            let ring = outline_of(&self.quads, &corner, split, q);
            proof {
                lemma_vertex_count(self.quads@, split, i as nat);
                lemma_outline(self.quads@, split, q);
            }
            let ghost (v0, i0, q0) = (t.vertices@, t.indices@, t.quad@);
            let base: u32 = t.vertices.len() as u32;
            let m: u32 = ring.len() as u32;
            let ghost dbl = |p: [u8; 3]| doubled(p);
            let mut j: usize = 0;
            while j < ring.len()
                invariant
                    j <= ring@.len(),
                    dbl == (|p: [u8; 3]| doubled(p)),
                    forall|x: int|
                        0 <= x < ring@.len() ==> (#[trigger] ring@[x])[0] <= 8 && ring@[x][1] <= 8 && ring@[x][2] <= 8,
                    t.vertices@ == v0 + ring@.take(j as int).map_values(dbl),
                    t.indices@ == i0,
                    t.quad@ == q0,
                decreases ring@.len() - j,
            {
                let p = ring[j];
                t.vertices.push([2 * p[0], 2 * p[1], 2 * p[2]]);
                proof {
                    assert(ring@.take(j + 1) =~= ring@.take(j as int).push(p));
                    assert(ring@.take(j + 1).map_values(dbl) =~= ring@.take(j as int).map_values(dbl).push(dbl(p)));
                }
                j += 1;
            }
            assert(ring@.take(j as int) =~= ring@);
            let ghost tris = quad_triangles(base as int, m as int);
            if m == 4 {
                t.indices.push([base, base + 1, base + 2]);
                t.indices.push([base, base + 2, base + 3]);
                t.quad.push(i as u32);
                t.quad.push(i as u32);
                assert(t.indices@ =~= i0 + tris);
                assert(t.quad@ =~= q0 + Seq::new(2, |x: int| i as u32));
            } else {
                t.vertices.push(centre_of(q));
                let mut j: u32 = 0;
                while j < m
                    invariant
                        j <= m,
                        m == ring@.len(),
                        5 <= m <= 32,
                        base + 33 <= u32::MAX,
                        tris == quad_triangles(base as int, m as int),
                        t.vertices@ == v0 + ring@.map_values(dbl).push(centre(q)),
                        t.indices@ == i0 + tris.take(j as int),
                        t.quad@ == q0 + Seq::new(j as nat, |x: int| i as u32),
                    decreases m - j,
                {
                    t.indices.push([base + m, base + j, base + (j + 1) % m]);
                    t.quad.push(i as u32);
                    proof {
                        assert(tris.take(j + 1) =~= tris.take(j as int).push(tris[j as int]));
                        assert(i0 + tris.take(j + 1) =~= (i0 + tris.take(j as int)).push(tris[j as int]));
                        assert(q0 + Seq::new((j + 1) as nat, |x: int| i as u32) =~= (q0 + Seq::new(
                            j as nat,
                            |x: int| i as u32,
                        )).push(i as u32));
                    }
                    j += 1;
                }
                assert(tris.take(m as int) =~= tris);
            }
            proof {
                assert(t.vertices@ =~= v0 + quad_vertices(self.quads@, split, q));
                assert(quad_triangles(0, m as int).len() == tris.len());
            }
            i += 1;
        }
        t
    }
}

/// The point `p`, in half-voxel units, lies on the rectangle of `q`.
pub open spec fn on_quad(q: Quad, p: [u8; 3]) -> bool {
    let a = q.spec_axis();
    &&& p[a] == 2 * q.plane
    &&& 2 * q.u0 <= p[(a + 1) % 3] <= 2 * q.u1
    &&& 2 * q.v0 <= p[(a + 2) % 3] <= 2 * q.v1
}

/// Every vertex of a side is a point of it.
proof fn lemma_side_on_quad(quads: Seq<Quad>, split: Split, q: Quad, k: int, t: int)
    requires
        q.rectangle(),
        0 <= k < 4,
        0 <= t,
    ensures
        forall|i: int| 0 <= i < side_vertices(quads, split, q, k, t).len() ==> on_quad(
            q,
            doubled(#[trigger] side_vertices(quads, split, q, k, t)[i]),
        ),
    decreases q.side(k) - t,
{
    if t < q.side(k) {
        lemma_side_on_quad(quads, split, q, k, t + 1);
        let rest = side_vertices(quads, split, q, k, t + 1);
        let all = side_vertices(quads, split, q, k, t);
        assert(on_quad(q, doubled(q.rim(k, t))));
        if has_vertex(quads, split, q, k, t) {
            assert forall|i: int| 0 <= i < all.len() implies on_quad(q, doubled(#[trigger] all[i])) by {
                if i > 0 {
                    assert(all[i] == rest[i - 1]);
                }
            }
        }
    }
}

pub proof fn lemma_quad_vertices_on_quad(quads: Seq<Quad>, split: Split, q: Quad)
    requires
        q.rectangle(),
    ensures
        forall|i: int| 0 <= i < quad_vertices(quads, split, q).len() ==> on_quad(q, #[trigger] quad_vertices(quads, split, q)[i]),
{
    let (a, b, c, d) = (
        side_vertices(quads, split, q, 0, 0),
        side_vertices(quads, split, q, 1, 0),
        side_vertices(quads, split, q, 2, 0),
        side_vertices(quads, split, q, 3, 0),
    );
    lemma_side_on_quad(quads, split, q, 0, 0);
    lemma_side_on_quad(quads, split, q, 1, 0);
    lemma_side_on_quad(quads, split, q, 2, 0);
    lemma_side_on_quad(quads, split, q, 3, 0);
    let o = outline(quads, split, q);
    let v = quad_vertices(quads, split, q);
    assert forall|i: int| 0 <= i < v.len() implies on_quad(q, #[trigger] v[i]) by {
        if i < o.len() {
            assert(v[i] == doubled(o[i]));
            if i < a.len() {
                assert(o[i] == a[i]);
            } else if i < a.len() + b.len() {
                assert(o[i] == b[i - a.len()]);
            } else if i < a.len() + b.len() + c.len() {
                assert(o[i] == c[i - a.len() - b.len()]);
            } else {
                assert(o[i] == d[i - a.len() - b.len() - c.len()]);
            }
        } else {
            assert(v[i] == centre(q));
        }
    }
}

/// Corner `c` of triangle `i` is an existing vertex, on the rectangle of the triangle's quad.
pub open spec fn corner_on_quad(quads: Seq<Quad>, split: Split, n: nat, i: int, c: int) -> bool {
    let q = all_owners(quads, split, n)[i];
    let v = all_triangles(quads, split, n)[i][c];
    &&& q < n
    &&& v < all_vertices(quads, split, n).len()
    &&& on_quad(quads[q as int], all_vertices(quads, split, n)[v as int])
}

/// Every triangle has one quad, uses existing vertices, and lies on its quad's rectangle.
pub proof fn law_triangles_lie_on_their_quads(quads: Seq<Quad>, split: Split, n: nat)
    requires
        n <= quads.len(),
        forall|i: int| 0 <= i < quads.len() ==> (#[trigger] quads[i]).rectangle(),
        all_vertices(quads, split, n).len() <= u32::MAX,
        n <= u32::MAX,
    ensures
        all_owners(quads, split, n).len() == all_triangles(quads, split, n).len(),
        4 * n <= all_vertices(quads, split, n).len(),
        forall|i: int, c: int|
            0 <= i < all_triangles(quads, split, n).len() && 0 <= c < 3 ==> #[trigger] corner_on_quad(quads, split, n, i, c),
    decreases n,
{
    if n > 0 {
        let m = (n - 1) as nat;
        let q = quads[m as int];
        lemma_outline(quads, split, q);
        law_triangles_lie_on_their_quads(quads, split, m);
        lemma_quad_vertices_on_quad(quads, split, q);
        let (v0, t0, o0) = (all_vertices(quads, split, m), all_triangles(quads, split, m), all_owners(quads, split, m));
        let (v, t, o) = (all_vertices(quads, split, n), all_triangles(quads, split, n), all_owners(quads, split, n));
        let mm = outline(quads, split, q).len() as int;
        let qv = quad_vertices(quads, split, q);
        let qt = quad_triangles(v0.len() as int, mm);
        assert(v == v0 + qv);
        assert(t == t0 + qt);
        assert(qt.len() == quad_triangles(0, mm).len());
        assert forall|i: int, c: int| 0 <= i < t.len() && 0 <= c < 3 implies #[trigger] corner_on_quad(quads, split, n, i, c) by {
            if i < t0.len() {
                assert(corner_on_quad(quads, split, m, i, c));
                assert(t[i] == t0[i]);
                assert(o[i] == o0[i]);
                let x = t0[i][c] as int;
                assert(x < v0.len());
                assert(v[x] == v0[x]);
            } else {
                let j = i - t0.len();
                assert(t[i] == qt[j]);
                assert(o[i] == m as u32);
                let x = qt[j][c] as int;
                if mm == 4 {
                    assert(v0.len() <= x < v0.len() + 4);
                } else {
                    assert(0 <= (j + 1) % mm < mm) by {
                        vstd::arithmetic::div_mod::lemma_mod_bound(j + 1, mm);
                    }
                    assert(v0.len() <= x <= v0.len() + mm);
                }
                assert(x < v.len());
                assert(v[x] == qv[x - v0.len()]);
                assert(on_quad(q, qv[x - v0.len()]));
            }
        }
    } else {
        assert(all_triangles(quads, split, n).len() == 0);
    }
}

} // verus!
