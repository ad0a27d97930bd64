//! Per-brick surface extraction.
//!
//! - A unit face is one face of an occupied voxel whose neighbour across that face is empty. A
//!   brick's mesh covers exactly its own voxels' unit faces, each exactly once, and nothing else.
//!   Every quad carries the exact material of the voxels behind it.
//! - `Merge::Unmerged` emits one quad per unit face. `Merge::Greedy` merges unit faces of one brick
//!   that share a face direction, a plane and a material into rectangles.
//! - Coordinates are brick-local integers. A quad lies in the plane `axis = plane` (0..=8) and
//!   covers the half-open rectangle `[u0, u1) x [v0, v1)` on the other two axes, with
//!   `u = (axis + 1) % 3` and `v = (axis + 2) % 3`.
//! - Output order: face direction, then plane, then scan order.
use crate::world::{same_material, Brick, BrickKey, Face, MaterialId, VoxelCoord, VoxelIndex, World};
use vstd::prelude::*;

verus! {

/// How far unit faces are merged.
#[derive(Clone, Copy, Debug, PartialEq, Eq, PartialOrd, Ord, Hash, Structural)]
pub enum Merge {
    /// One quad per exposed voxel face.
    Unmerged,
    /// Greedy rectangles within a brick, per face direction, plane and material.
    Greedy,
}

impl Default for Merge {
    fn default() -> (r: Merge)
        ensures
            r == Merge::Greedy,
    {
        Merge::Greedy
    }
}

impl Merge {
    pub const ALL: [Merge; 2] = [Merge::Unmerged, Merge::Greedy];

    pub fn name(self) -> (r: &'static str)
        ensures
            r@ == match self {
                Merge::Unmerged => "none"@,
                Merge::Greedy => "greedy"@,
            },
    {
        match self {
            Merge::Unmerged => "none",
            Merge::Greedy => "greedy",
        }
    }
}

/// One axis-aligned rectangle of exposed surface.
#[derive(Clone, Copy, Debug, PartialEq, Eq, PartialOrd, Ord, Hash, Structural)]
pub struct Quad {
    pub material: MaterialId,
    /// `axis * 2 + positive`: 0 = -x, 1 = +x, 2 = -y, 3 = +y, 4 = -z, 5 = +z.
    pub face: u8,
    /// Brick-local plane coordinate on the face axis, `0..=8`.
    pub plane: u8,
    pub u0: u8,
    pub v0: u8,
    pub u1: u8,
    pub v1: u8,
}

/// The local position with `d` on axis `a`, and `u` and `v` on the two axes after it.
pub open spec fn cell(a: int, d: int, u: int, v: int) -> (int, int, int) {
    if a == 0 {
        (d, u, v)
    } else if a == 1 {
        (v, d, u)
    } else {
        (u, v, d)
    }
}

/// The voxel at local position `p` of brick `key`.
pub open spec fn voxel(key: BrickKey, p: (int, int, int)) -> VoxelCoord {
    VoxelCoord { x: (8 * key.x + p.0) as i32, y: (8 * key.y + p.1) as i32, z: (8 * key.z + p.2) as i32 }
}

impl Quad {
    /// Coordinates in the documented ranges.
    pub open spec fn in_brick(self) -> bool {
        self.face < 6 && self.plane <= 8 && self.u1 <= 8 && self.v1 <= 8
    }

    /// A rectangle with area, on a voxel face of the brick.
    pub open spec fn wf(self) -> bool {
        &&& self.in_brick()
        &&& self.u0 < self.u1
        &&& self.v0 < self.v1
        &&& self.face % 2 <= self.plane <= 7 + self.face % 2
    }

    pub open spec fn spec_axis(self) -> int {
        self.face as int / 2
    }

    pub open spec fn spec_positive(self) -> bool {
        self.face % 2 == 1
    }

    /// The layer of voxels behind the quad.
    pub open spec fn depth(self) -> int {
        self.plane - self.face % 2
    }

    pub open spec fn spec_area(self) -> int {
        (self.u1 - self.u0) * (self.v1 - self.v0)
    }

    pub fn axis(self) -> (r: usize)
        ensures
            r == self.spec_axis(),
    {
        (self.face / 2) as usize
    }

    pub fn positive(self) -> (r: bool)
        ensures
            r == self.spec_positive(),
    {
        self.face % 2 == 1
    }

    pub open spec fn spec_to_face(self) -> Face {
        Face { axis: (self.face / 2) as u8, positive: self.spec_positive() }
    }

    /// The outward normal.
    pub fn to_face(self) -> (r: Face)
        ensures
            r == self.spec_to_face(),
    {
        Face { axis: self.face / 2, positive: self.positive() }
    }

    /// The (u, v) axes for this quad's face axis.
    pub fn uv_axes(self) -> (r: (usize, usize))
        ensures
            r.0 == (self.spec_axis() + 1) % 3,
            r.1 == (self.spec_axis() + 2) % 3,
    {
        let a: usize = self.axis();
        ((a + 1) % 3, (a + 2) % 3)
    }

    pub fn area(self) -> (r: u32)
        requires
            self.u0 <= self.u1,
            self.v0 <= self.v1,
        ensures
            r == self.spec_area(),
    {
        let w: u32 = (self.u1 - self.u0) as u32;
        let h: u32 = (self.v1 - self.v0) as u32;
        proof {
            assert(w * h <= 255 * 255) by (nonlinear_arith)
                requires
                    w <= 255,
                    h <= 255,
            ;
        }
        w * h
    }

    /// The corner at `(u, v)` of the quad's plane.
    pub open spec fn spec_corner(self, u: u8, v: u8) -> [u8; 3] {
        if self.spec_axis() == 0 {
            [self.plane, u, v]
        } else if self.spec_axis() == 1 {
            [v, self.plane, u]
        } else {
            [u, v, self.plane]
        }
    }

    fn corner(self, u: u8, v: u8) -> (r: [u8; 3])
        requires
            self.face < 6,
        ensures
            r == self.spec_corner(u, v),
    {
        let a: u8 = self.face / 2;
        if a == 0 {
            [self.plane, u, v]
        } else if a == 1 {
            [v, self.plane, u]
        } else {
            [u, v, self.plane]
        }
    }

    /// Brick-local corners, counter-clockwise seen from outside: the u axis turns into the v axis
    /// around the positive normal.
    pub open spec fn spec_corners(self) -> [[u8; 3]; 4] {
        let a = self.spec_corner(self.u0, self.v0);
        let b = self.spec_corner(self.u1, self.v0);
        let c = self.spec_corner(self.u1, self.v1);
        let d = self.spec_corner(self.u0, self.v1);
        if self.spec_positive() {
            [a, b, c, d]
        } else {
            [a, d, c, b]
        }
    }

    pub fn corners(self) -> (r: [[u8; 3]; 4])
        requires
            self.face < 6,
        ensures
            r == self.spec_corners(),
    {
        let a = self.corner(self.u0, self.v0);
        let b = self.corner(self.u1, self.v0);
        let c = self.corner(self.u1, self.v1);
        let d = self.corner(self.u0, self.v1);
        if self.positive() {
            [a, b, c, d]
        } else {
            [a, d, c, b]
        }
    }

    /// The unit face at `(u, v)` of the quad's plane: the voxel behind it and its face.
    pub open spec fn unit(self, key: BrickKey, u: int, v: int) -> (VoxelCoord, Face) {
        (voxel(key, cell(self.spec_axis(), self.depth(), u, v)), self.spec_to_face())
    }

    /// The unit faces of row `v` before column `u`.
    pub open spec fn unit_row(self, key: BrickKey, v: int, u: int) -> Seq<(VoxelCoord, Face)>
        decreases u - self.u0,
    {
        if u <= self.u0 {
            Seq::empty()
        } else {
            self.unit_row(key, v, u - 1).push(self.unit(key, u - 1, v))
        }
    }

    /// The unit faces of the rows before row `v`.
    pub open spec fn unit_rows(self, key: BrickKey, v: int) -> Seq<(VoxelCoord, Face)>
        decreases v - self.v0,
    {
        if v <= self.v0 {
            Seq::empty()
        } else {
            self.unit_rows(key, v - 1) + self.unit_row(key, v - 1, self.u1 as int)
        }
    }

    /// The layer of voxels behind the quad has coordinates.
    pub open spec fn placeable(self, key: BrickKey) -> bool {
        let o = key.spec_origin();
        let c = if self.spec_axis() == 0 {
            o.x
        } else if self.spec_axis() == 1 {
            o.y
        } else {
            o.z
        };
        i32::MIN <= c + self.depth() <= i32::MAX
    }

    /// Every unit face this quad covers, as (voxel behind the face, face), row by row.
    pub fn unit_faces(self, key: BrickKey) -> (r: Vec<(VoxelCoord, Face)>)
        requires
            self.in_brick(),
            key.wf(),
            self.placeable(key),
        ensures
            r@ == self.unit_rows(key, self.v1 as int),
    {
        let o = key.origin();
        let depth: i32 = if self.positive() {
            self.plane as i32 - 1
        } else {
            self.plane as i32
        };
        let face = self.to_face();
        let a: u8 = self.face / 2;
        let mut out: Vec<(VoxelCoord, Face)> = Vec::new();
        let mut v: u8 = self.v0;
        while v < self.v1
            invariant
                self.v0 <= v,
                v <= self.v1 || v == self.v0,
                self.in_brick(),
                key.wf(),
                self.placeable(key),
                o == key.spec_origin(),
                depth == self.depth(),
                face == self.spec_to_face(),
                a == self.face / 2,
                out@ == self.unit_rows(key, v as int),
            decreases self.v1 - v,
        {
            let mut u: u8 = self.u0;
            while u < self.u1
                invariant
                    self.u0 <= u,
                    u <= self.u1 || u == self.u0,
                    v < self.v1,
                    self.in_brick(),
                    key.wf(),
                self.placeable(key),
                    o == key.spec_origin(),
                    depth == self.depth(),
                    face == self.spec_to_face(),
                    a == self.face / 2,
                    out@ == self.unit_rows(key, v as int) + self.unit_row(key, v as int, u as int),
                decreases self.u1 - u,
            {
                let (uu, vv) = (u as i32, v as i32);
                let l = if a == 0 {
                    (depth, uu, vv)
                } else if a == 1 {
                    (vv, depth, uu)
                } else {
                    (uu, vv, depth)
                };
                out.push((VoxelCoord { x: o.x + l.0, y: o.y + l.1, z: o.z + l.2 }, face));
                u += 1;
            }
            proof {
                if self.u1 < self.u0 {
                    assert(self.unit_row(key, v as int, self.u1 as int) =~= self.unit_row(key, v as int, u as int));
                }
            }
            v += 1;
        }
        proof {
            if self.v1 < self.v0 {
                assert(self.unit_rows(key, self.v1 as int) =~= self.unit_rows(key, v as int));
            }
        }
        out
    }

    proof fn lemma_unit_row(self, key: BrickKey, v: int, u: int)
        requires
            self.u0 <= u,
        ensures
            self.unit_row(key, v, u).len() == u - self.u0,
            forall|c: int| self.u0 <= c < u ==> #[trigger] self.unit_row(key, v, u)[c - self.u0] == self.unit(key, c, v),
            forall|k: int| 0 <= k < u - self.u0 ==> #[trigger] self.unit_row(key, v, u)[k] == self.unit(key, self.u0 + k, v),
        decreases u,
    {
        if self.u0 < u {
            self.lemma_unit_row(key, v, u - 1);
        }
    }

    proof fn lemma_unit_rows(self, key: BrickKey, v: int)
        requires
            self.u0 <= self.u1,
            self.v0 <= v,
        ensures
            self.unit_rows(key, v).len() == (self.u1 - self.u0) * (v - self.v0),
            forall|k: int|
                0 <= k < self.unit_rows(key, v).len() ==> #[trigger] self.unit_rows(key, v)[k] == self.unit(
                    key,
                    self.u0 + k % (self.u1 - self.u0),
                    self.v0 + k / (self.u1 - self.u0),
                ),
        decreases v,
    {
        let w = self.u1 - self.u0;
        assert(w * (v - self.v0) == w * (v - 1 - self.v0) + w) by (nonlinear_arith);
        if self.v0 < v {
            self.lemma_unit_rows(key, v - 1);
            self.lemma_unit_row(key, v - 1, self.u1 as int);
            let before = self.unit_rows(key, v - 1);
            assert forall|k: int| 0 <= k < self.unit_rows(key, v).len() implies #[trigger] self.unit_rows(key, v)[k] == self.unit(
                key,
                self.u0 + k % w,
                self.v0 + k / w,
            ) by {
                if k >= before.len() {
                    vstd::arithmetic::div_mod::lemma_fundamental_div_mod_converse(k, w, v - 1 - self.v0, k - before.len());
                }
            }
        } else {
            assert(w * 0 == 0);
        }
    }

    /// A quad's unit faces are one for each of its cells, row by row, all with the quad's normal. The
    /// voxels behind them are different voxels of the brick.
    pub proof fn law_unit_faces_are_its_cells(self, key: BrickKey)
        requires
            self.in_brick(),
            self.u0 <= self.u1,
            self.v0 <= self.v1,
            self.face % 2 <= self.plane <= 7 + self.face % 2,
            key.wf(),
        ensures
            self.unit_rows(key, self.v1 as int).len() == self.spec_area(),
            forall|k: int|
                0 <= k < self.spec_area() ==> #[trigger] self.unit_rows(key, self.v1 as int)[k] == self.unit(
                    key,
                    self.u0 + k % (self.u1 - self.u0),
                    self.v0 + k / (self.u1 - self.u0),
                ),
            forall|u: int, v: int|
                self.u0 <= u < self.u1 && self.v0 <= v < self.v1 ==> (#[trigger] self.unit(key, u, v)).0.key() == key,
            forall|u: int, v: int, x: int, y: int|
                self.u0 <= u < self.u1 && self.v0 <= v < self.v1 && self.u0 <= x < self.u1 && self.v0 <= y < self.v1 && #[trigger] self.unit(
                    key,
                    u,
                    v,
                ) == #[trigger] self.unit(key, x, y) ==> u == x && v == y,
    {
        self.lemma_unit_rows(key, self.v1 as int);
    }
}

/// A brick's extracted surface. An occupied brick whose faces are all hidden has an empty mesh.
#[derive(Clone, Debug, PartialEq, Eq)]
pub struct BrickMesh {
    pub quads: Vec<Quad>,
}

/// A rectangle of one layer, with its material.
#[derive(Clone, Copy)]
pub struct Rect {
    pub material: MaterialId,
    pub u0: u8,
    pub v0: u8,
    pub u1: u8,
    pub v1: u8,
}

/// The contents of the local cells in and around a brick.
pub type Local = spec_fn((int, int, int)) -> Option<MaterialId>;

/// The material of the exposed unit face at `(u, v)` of the layer at depth `d`, if there is one.
pub open spec fn face_at(occ: Local, face: int, d: int, u: int, v: int) -> Option<MaterialId> {
    let step = if face % 2 == 1 {
        1int
    } else {
        -1int
    };
    if occ(cell(face / 2, d + step, u, v)) is None {
        occ(cell(face / 2, d, u, v))
    } else {
        None
    }
}

/// One layer's exposed unit faces, row by row.
pub open spec fn layer_mask(occ: Local, face: int, d: int) -> Seq<Option<MaterialId>> {
    Seq::new(64, |i: int| face_at(occ, face, d, i % 8, i / 8))
}

/// How many faces in a row, from `(u, v)` on, have material `m`.
pub open spec fn run(mask: Seq<Option<MaterialId>>, m: MaterialId, u: int, v: int) -> int
    decreases 8 - u,
{
    if u < 8 && mask[8 * v + u] == Some(m) {
        1 + run(mask, m, u + 1, v)
    } else {
        0
    }
}

/// Whether row `v` has material `m` all over `[u0, u1)`.
pub open spec fn row_is(mask: Seq<Option<MaterialId>>, m: MaterialId, u0: int, u1: int, v: int) -> bool {
    forall|u: int| u0 <= u < u1 ==> #[trigger] mask[8 * v + u] == Some(m)
}

/// How many rows in turn, from `v` on, have material `m` all over `[u0, u1)`.
pub open spec fn rows(mask: Seq<Option<MaterialId>>, m: MaterialId, u0: int, u1: int, v: int) -> int
    decreases 8 - v,
{
    if v < 8 && row_is(mask, m, u0, u1, v) {
        1 + rows(mask, m, u0, u1, v + 1)
    } else {
        0
    }
}

/// The rectangle that starts at face `i`: its own unit face, or under greedy merging the whole run
/// of its material along the row, then as many rows as match all along that run.
pub open spec fn rect_at(mask: Seq<Option<MaterialId>>, merge: Merge, i: int) -> Rect {
    let m = mask[i]->0;
    let (u, v) = (i % 8, i / 8);
    let w = if merge == Merge::Greedy {
        run(mask, m, u, v)
    } else {
        1
    };
    let h = if merge == Merge::Greedy {
        rows(mask, m, u, u + w, v)
    } else {
        1
    };
    Rect { material: m, u0: u as u8, v0: v as u8, u1: (u + w) as u8, v1: (v + h) as u8 }
}

pub open spec fn covers(r: Rect, u: int, v: int) -> bool {
    r.u0 <= u < r.u1 && r.v0 <= v < r.v1
}

/// The faces that `r` leaves.
pub open spec fn without(mask: Seq<Option<MaterialId>>, r: Rect) -> Seq<Option<MaterialId>> {
    Seq::new(
        mask.len(),
        |i: int|
            if covers(r, i % 8, i / 8) {
                None
            } else {
                mask[i]
            },
    )
}

/// The rectangles of a layer in scan order: each starts at the first face that no earlier one
/// covers.
pub open spec fn tiles(mask: Seq<Option<MaterialId>>, merge: Merge, i: int) -> Seq<Rect>
    decreases 64 - i,
{
    if i >= 64 {
        Seq::empty()
    } else if mask[i] is None {
        tiles(mask, merge, i + 1)
    } else {
        let r = rect_at(mask, merge, i);
        seq![r] + tiles(without(mask, r), merge, i + 1)
    }
}

pub open spec fn quad_of(r: Rect, face: int, d: int) -> Quad {
    Quad {
        material: r.material,
        face: face as u8,
        plane: (d + face % 2) as u8,
        u0: r.u0,
        v0: r.v0,
        u1: r.u1,
        v1: r.v1,
    }
}

/// The quads of one layer.
pub open spec fn layer_quads(occ: Local, merge: Merge, face: int, d: int) -> Seq<Quad> {
    tiles(layer_mask(occ, face, d), merge, 0).map_values(|r: Rect| quad_of(r, face, d))
}

/// The quads of the first `n` layers: eight layers for each of the six face directions.
pub open spec fn layers(occ: Local, merge: Merge, n: nat) -> Seq<Quad>
    decreases n,
{
    if n == 0 {
        Seq::empty()
    } else {
        layers(occ, merge, (n - 1) as nat) + layer_quads(occ, merge, (n - 1) as int / 8, (n - 1) as int % 8)
    }
}

/// A brick's quads.
pub open spec fn mesh_quads(occ: Local, merge: Merge) -> Seq<Quad> {
    layers(occ, merge, 48)
}

/// Cells of the brick.
pub open spec fn inside(p: (int, int, int)) -> bool {
    0 <= p.0 < 8 && 0 <= p.1 < 8 && 0 <= p.2 < 8
}

/// Cells of the six layers just outside the brick's faces.
pub open spec fn outside(p: (int, int, int)) -> bool {
    ||| (p.0 == -1 || p.0 == 8) && 0 <= p.1 < 8 && 0 <= p.2 < 8
    ||| (p.1 == -1 || p.1 == 8) && 0 <= p.0 < 8 && 0 <= p.2 < 8
    ||| (p.2 == -1 || p.2 == 8) && 0 <= p.0 < 8 && 0 <= p.1 < 8
}

/// The cells of `brick`, and around them what `around` holds.
pub open spec fn brick_view(key: BrickKey, brick: Brick, around: spec_fn(VoxelCoord) -> Option<MaterialId>) -> Local {
    |p: (int, int, int)|
        if inside(p) {
            brick.local(p.0, p.1, p.2)
        } else {
            around(voxel(key, p))
        }
}

/// The cells in and around brick `key` of the world.
pub open spec fn world_view(world: &World, key: BrickKey) -> Local {
    |p: (int, int, int)| world.at(voxel(key, p))
}

/// `f` gives what a call of `lookup` returns.
pub open spec fn answers<F: Fn(VoxelCoord) -> Option<MaterialId>>(
    lookup: F,
    f: spec_fn(VoxelCoord) -> Option<MaterialId>,
) -> bool {
    forall|v: VoxelCoord, r: Option<MaterialId>| #[trigger] lookup.ensures((v,), r) ==> r == f(v)
}

/// A mesh depends on the brick's voxels and on which cells of the six layers outside it are empty,
/// on nothing else.
pub proof fn law_mesh_depends_on_brick_and_face_layers(a: Local, b: Local, merge: Merge)
    requires
        forall|p: (int, int, int)| inside(p) ==> #[trigger] a(p) == b(p),
        forall|p: (int, int, int)| outside(p) ==> (#[trigger] a(p) is None <==> b(p) is None),
    ensures
        mesh_quads(a, merge) == mesh_quads(b, merge),
{
    lemma_layers_agree(a, b, merge, 48);
}

proof fn lemma_layers_agree(a: Local, b: Local, merge: Merge, n: nat)
    requires
        n <= 48,
        forall|p: (int, int, int)| inside(p) ==> #[trigger] a(p) == b(p),
        forall|p: (int, int, int)| outside(p) ==> (#[trigger] a(p) is None <==> b(p) is None),
    ensures
        layers(a, merge, n) == layers(b, merge, n),
    decreases n,
{
    if n > 0 {
        lemma_layers_agree(a, b, merge, (n - 1) as nat);
        let (face, d) = ((n - 1) as int / 8, (n - 1) as int % 8);
        assert forall|i: int| 0 <= i < 64 implies #[trigger] layer_mask(a, face, d)[i] == layer_mask(b, face, d)[i] by {
            let step = if face % 2 == 1 {
                1int
            } else {
                -1int
            };
            let p = cell(face / 2, d, i % 8, i / 8);
            let q = cell(face / 2, d + step, i % 8, i / 8);
            assert(inside(p));
            assert(inside(q) || outside(q));
            assert(a(p) == b(p));
            assert(a(q) is None <==> b(q) is None);
        }
        assert(layer_mask(a, face, d) =~= layer_mask(b, face, d));
    }
}

/// Index of a cell in a 10x10x10 grid: the brick with a border of one voxel.
pub open spec fn grid_index(p: (int, int, int)) -> int {
    (p.0 + 1) + 10 * ((p.1 + 1) + 10 * (p.2 + 1))
}

pub open spec fn grid_view(grid: Seq<Option<MaterialId>>) -> Local {
    |p: (int, int, int)| grid[grid_index(p)]
}

fn gi(x: i32, y: i32, z: i32) -> (r: usize)
    requires
        -1 <= x <= 8,
        -1 <= y <= 8,
        -1 <= z <= 8,
    ensures
        r == grid_index((x as int, y as int, z as int)),
        r < 1000,
{
    (x + 1) as usize + 10 * ((y + 1) as usize + 10 * (z + 1) as usize)
}

fn local_of(a: u8, d: i32, u: i32, v: i32) -> (r: (i32, i32, i32))
    ensures
        (r.0 as int, r.1 as int, r.2 as int) == cell(a as int, d as int, u as int, v as int),
{
    if a == 0 {
        (d, u, v)
    } else if a == 1 {
        (v, d, u)
    } else {
        (u, v, d)
    }
}

/// The brick's cells and the six layers around it, in one grid.
fn grid_of<F: Fn(VoxelCoord) -> Option<MaterialId>>(key: BrickKey, target: &Brick, lookup: &F) -> (grid: Vec<
    Option<MaterialId>,
>)
    requires
        target.wf(),
        key.inner(),
        forall|v: VoxelCoord| lookup.requires((v,)),
    ensures
        grid@.len() == 1000,
        forall|p: (int, int, int)| inside(p) ==> #[trigger] grid@[grid_index(p)] == target.local(p.0, p.1, p.2),
        forall|p: (int, int, int)| outside(p) ==> lookup.ensures((voxel(key, p),), #[trigger] grid@[grid_index(p)]),
{
    let o = key.origin();
    let mut grid: Vec<Option<MaterialId>> = Vec::new();
    let mut i: usize = 0;
    while i < 1000
        invariant
            i <= 1000,
            grid@.len() == i,
        decreases 1000 - i,
    {
        grid.push(None);
        i += 1;
    }
    let mut n: usize = 0;
    while n < 512
        invariant
            n <= 512,
            target.wf(),
            grid@.len() == 1000,
            forall|p: (int, int, int)|
                inside(p) && crate::world::place_of(p.0, p.1, p.2) < n ==> #[trigger] grid@[grid_index(p)] == target.local(
                    p.0,
                    p.1,
                    p.2,
                ),
        decreases 512 - n,
    {
        let idx = VoxelIndex { raw: n };
        let (x, y, z) = idx.xyz();
        let ghost before = grid@;
        grid.set(gi(x, y, z), target.get(idx));
        proof {
            assert forall|p: (int, int, int)| inside(p) && crate::world::place_of(p.0, p.1, p.2) < n + 1 implies #[trigger] grid@[grid_index(p)]
                == target.local(p.0, p.1, p.2) by {
                if crate::world::place_of(p.0, p.1, p.2) < n {
                    assert(before[grid_index(p)] == target.local(p.0, p.1, p.2));
                    assert(grid_index(p) != grid_index((x as int, y as int, z as int)));
                } else {
                    assert(p == (x as int, y as int, z as int));
                }
            }
        }
        n += 1;
    }
    // Layer `s`: axis `s / 2`, below or above.
    let mut s: u8 = 0;
    while s < 6
        invariant
            s <= 6,
            key.inner(),
            o == key.spec_origin(),
            forall|v: VoxelCoord| lookup.requires((v,)),
            grid@.len() == 1000,
            forall|p: (int, int, int)| inside(p) ==> #[trigger] grid@[grid_index(p)] == target.local(p.0, p.1, p.2),
            forall|t: int, u: int, v: int|
                0 <= t < s && 0 <= u < 8 && 0 <= v < 8 ==> lookup.ensures(
                    (voxel(key, #[trigger] side_cell(t, u, v)),),
                    grid@[grid_index(side_cell(t, u, v))],
                ),
        decreases 6 - s,
    {
        let a: u8 = s / 2;
        let out: i32 = if s % 2 == 0 {
            -1
        } else {
            8
        };
        let mut k: usize = 0;
        while k < 64
            invariant
                k <= 64,
                s < 6,
                a == s / 2,
                out == if s % 2 == 0 {
                    -1int
                } else {
                    8int
                },
                key.inner(),
                o == key.spec_origin(),
                forall|v: VoxelCoord| lookup.requires((v,)),
                grid@.len() == 1000,
                forall|p: (int, int, int)| inside(p) ==> #[trigger] grid@[grid_index(p)] == target.local(p.0, p.1, p.2),
                forall|t: int, u: int, v: int|
                    0 <= t <= s && 0 <= u < 8 && 0 <= v < 8 && (t < s || 8 * u + v < k) ==> lookup.ensures(
                        (voxel(key, #[trigger] side_cell(t, u, v)),),
                        grid@[grid_index(side_cell(t, u, v))],
                    ),
            decreases 64 - k,
        {
            let (i, j) = ((k / 8) as i32, (k % 8) as i32);
            let l = local_of(a, out, i, j);
            let p = VoxelCoord { x: o.x + l.0, y: o.y + l.1, z: o.z + l.2 };
            let found = lookup(p);
            let ghost before = grid@;
            grid.set(gi(l.0, l.1, l.2), found);
            proof {
                let here = side_cell(s as int, i as int, j as int);
                assert(here == (l.0 as int, l.1 as int, l.2 as int));
                assert(voxel(key, here) == p);
                assert forall|q: (int, int, int)| inside(q) implies #[trigger] grid@[grid_index(q)] == target.local(q.0, q.1, q.2) by {
                    assert(before[grid_index(q)] == target.local(q.0, q.1, q.2));
                    assert(grid_index(q) != grid_index(here));
                }
                assert forall|t: int, u: int, v: int|
                    0 <= t <= s && 0 <= u < 8 && 0 <= v < 8 && (t < s || 8 * u + v < k + 1) implies lookup.ensures(
                    (voxel(key, #[trigger] side_cell(t, u, v)),),
                    grid@[grid_index(side_cell(t, u, v))],
                ) by {
                    let q = side_cell(t, u, v);
                    if t == s && 8 * u + v == k {
                        assert(u == i && v == j);
                    } else {
                        assert(lookup.ensures((voxel(key, q),), before[grid_index(q)]));
                        assert(q != here);
                        assert(grid_index(q) != grid_index(here));
                    }
                }
            }
            k += 1;
        }
        s += 1;
    }
    proof {
        assert forall|p: (int, int, int)| outside(p) implies lookup.ensures((voxel(key, p),), #[trigger] grid@[grid_index(p)]) by {
            if p.0 == -1 || p.0 == 8 {
                assert(p == side_cell(if p.0 == -1 { 0int } else { 1int }, p.1, p.2));
            } else if p.1 == -1 || p.1 == 8 {
                assert(p == side_cell(if p.1 == -1 { 2int } else { 3int }, p.2, p.0));
            } else {
                assert(p == side_cell(if p.2 == -1 { 4int } else { 5int }, p.0, p.1));
            }
        }
    }
    grid
}

/// The cell `(u, v)` of the layer outside face `t`.
spec fn side_cell(t: int, u: int, v: int) -> (int, int, int) {
    cell(
        t / 2,
        if t % 2 == 0 {
            -1
        } else {
            8
        },
        u,
        v,
    )
}

/// The mask of one layer of a grid.
fn mask_of(grid: &Vec<Option<MaterialId>>, face: u8, depth: i32) -> (mask: Vec<Option<MaterialId>>)
    requires
        grid@.len() == 1000,
        face < 6,
        0 <= depth < 8,
    ensures
        mask@ == layer_mask(grid_view(grid@), face as int, depth as int),
{
    let a: u8 = face / 2;
    let step: i32 = if face % 2 == 1 {
        1
    } else {
        -1
    };
    let mut mask: Vec<Option<MaterialId>> = Vec::new();
    let mut i: usize = 0;
    while i < 64
        invariant
            i <= 64,
            grid@.len() == 1000,
            face < 6,
            0 <= depth < 8,
            a == face / 2,
            step == if face % 2 == 1 {
                1int
            } else {
                -1int
            },
            mask@.len() == i,
            forall|j: int|
                0 <= j < i ==> #[trigger] mask@[j] == face_at(grid_view(grid@), face as int, depth as int, j % 8, j / 8),
        decreases 64 - i,
    {
        let (u, v) = ((i % 8) as i32, (i / 8) as i32);
        let l = local_of(a, depth, u, v);
        let n = local_of(a, depth + step, u, v);
        let here = grid[gi(l.0, l.1, l.2)];
        if grid[gi(n.0, n.1, n.2)].is_none() {
            mask.push(here);
        } else {
            mask.push(None);
        }
        i += 1;
    }
    assert(mask@ =~= layer_mask(grid_view(grid@), face as int, depth as int));
    mask
}

proof fn lemma_run(mask: Seq<Option<MaterialId>>, m: MaterialId, u: int, v: int, w: int)
    requires
        0 <= w,
        u + w <= 8,
        forall|x: int| u <= x < u + w ==> #[trigger] mask[8 * v + x] == Some(m),
        u + w == 8 || mask[8 * v + (u + w)] != Some(m),
    ensures
        run(mask, m, u, v) == w,
    decreases w,
{
    if w > 0 {
        assert(mask[8 * v + u] == Some(m));
        lemma_run(mask, m, u + 1, v, w - 1);
    }
}

proof fn lemma_rows(mask: Seq<Option<MaterialId>>, m: MaterialId, u0: int, u1: int, v: int, h: int)
    requires
        0 <= h,
        v + h <= 8,
        forall|y: int| v <= y < v + h ==> #[trigger] row_is(mask, m, u0, u1, y),
        v + h == 8 || !row_is(mask, m, u0, u1, v + h),
    ensures
        rows(mask, m, u0, u1, v) == h,
    decreases h,
{
    if h > 0 {
        assert(row_is(mask, m, u0, u1, v));
        lemma_rows(mask, m, u0, u1, v + 1, h - 1);
    }
}

/// Turns one layer's mask into rectangles, in scan order.
fn emit(mask: Vec<Option<MaterialId>>, merge: Merge) -> (out: Vec<Rect>)
    requires
        mask@.len() == 64,
    ensures
        out@ == tiles(mask@, merge, 0),
{
    let ghost whole = mask@;
    let mut mask = mask;
    let mut out: Vec<Rect> = Vec::new();
    let mut i: usize = 0;
    while i < 64
        invariant
            i <= 64,
            mask@.len() == 64,
            tiles(whole, merge, 0) == out@ + tiles(mask@, merge, i as int),
        decreases 64 - i,
    {
        let (u, v) = (i % 8, i / 8);
        if let Some(m) = mask[i] {
            let mut w: usize = 1;
            let mut h: usize = 1;
            if merge == Merge::Greedy {
                while u + w < 8 && same_material(mask[8 * v + u + w], Some(m))
                    invariant
                        1 <= w,
                        u + w <= 8,
                        v < 8,
                        mask@.len() == 64,
                        forall|x: int| u <= x < u + w ==> #[trigger] mask@[8 * v + x] == Some(m),
                    decreases 8 - w,
                {
                    w += 1;
                }
                let mut going = true;
                while going && v + h < 8
                    invariant
                        1 <= h,
                        1 <= w,
                        u + w <= 8,
                        v + h <= 8,
                        mask@.len() == 64,
                        forall|y: int| v <= y < v + h ==> #[trigger] row_is(mask@, m, u as int, u + w, y),
                        !going ==> v + h < 8 && !row_is(mask@, m, u as int, u + w, v + h),
                    decreases 8 - h, going as int,
                {
                    let mut x: usize = u;
                    while x < u + w && same_material(mask[8 * (v + h) + x], Some(m))
                        invariant
                            u <= x <= u + w,
                            u + w <= 8,
                            v + h < 8,
                            mask@.len() == 64,
                            forall|q: int| u <= q < x ==> #[trigger] mask@[8 * (v + h) + q] == Some(m),
                        decreases 8 - x,
                    {
                        x += 1;
                    }
                    if x == u + w {
                        assert(row_is(mask@, m, u as int, u + w, v + h));
                        h += 1;
                    } else {
                        assert(mask@[8 * (v + h) + x] != Some(m));
                        going = false;
                    }
                }
                proof {
                    lemma_run(mask@, m, u as int, v as int, w as int);
                    lemma_rows(mask@, m, u as int, u + w, v as int, h as int);
                }
            }
            let r = Rect { material: m, u0: u as u8, v0: v as u8, u1: (u + w) as u8, v1: (v + h) as u8 };
            let ghost before = mask@;
            assert(r == rect_at(before, merge, i as int));
            let mut j: usize = i;
            while j < 64
                invariant
                    i <= j <= 64,
                    mask@.len() == 64,
                    r.v0 == i / 8,
                    r.u0 == i % 8,
                    forall|q: int| j <= q < 64 ==> #[trigger] mask@[q] == before[q],
                    forall|q: int|
                        0 <= q < j ==> #[trigger] mask@[q] == if covers(r, q % 8, q / 8) {
                            None
                        } else {
                            before[q]
                        },
                decreases 64 - j,
            {
                let (x, y) = ((j % 8) as u8, (j / 8) as u8);
                if r.u0 <= x && x < r.u1 && r.v0 <= y && y < r.v1 {
                    mask.set(j, None);
                }
                j += 1;
            }
            proof {
                assert(mask@ =~= without(before, r));
                let rest = tiles(mask@, merge, i + 1);
                assert(tiles(before, merge, i as int) == seq![r] + rest);
                assert(out@ + (seq![r] + rest) =~= out@.push(r) + rest);
            }
            out.push(r);
        }
        i += 1;
    }
    assert(out@ + tiles(mask@, merge, 64) =~= out@);
    out
}

/// The quads of a grid.
fn grid_quads(grid: &Vec<Option<MaterialId>>, merge: Merge) -> (quads: Vec<Quad>)
    requires
        grid@.len() == 1000,
    ensures
        quads@ == mesh_quads(grid_view(grid@), merge),
{
    let mut quads: Vec<Quad> = Vec::new();
    let mut n: u8 = 0;
    while n < 48
        invariant
            n <= 48,
            grid@.len() == 1000,
            quads@ == layers(grid_view(grid@), merge, n as nat),
        decreases 48 - n,
    {
        let (face, depth) = (n / 8, (n % 8) as i32);
        let rects = emit(mask_of(grid, face, depth), merge);
        let plane: u8 = (n % 8) + face % 2;
        let ghost start = quads@;
        let ghost as_quad = |r: Rect| quad_of(r, face as int, depth as int);
        let mut j: usize = 0;
        while j < rects.len()
            invariant
                j <= rects@.len(),
                plane == depth + face % 2,
                as_quad == (|r: Rect| quad_of(r, face as int, depth as int)),
                quads@ == start + rects@.take(j as int).map_values(as_quad),
            decreases rects@.len() - j,
        {
            let r = rects[j];
            proof {
                assert(rects@.take(j + 1) =~= rects@.take(j as int).push(r));
                assert(rects@.take(j + 1).map_values(as_quad) =~= rects@.take(j as int).map_values(as_quad).push(
                    as_quad(r),
                ));
            }
            quads.push(Quad { material: r.material, face, plane, u0: r.u0, v0: r.v0, u1: r.u1, v1: r.v1 });
            j += 1;
        }
        assert(rects@.take(j as int) =~= rects@);
        n += 1;
    }
    quads
}

/// Extracts `key`'s mesh from its brick and a voxel lookup (used for the face layers outside the
/// brick only). `None` when the brick is absent.
pub fn extract<F: Fn(VoxelCoord) -> Option<MaterialId>>(
    key: BrickKey,
    target: Option<&Brick>,
    lookup: F,
    merge: Merge,
) -> (r: Option<BrickMesh>)
    requires
        target matches Some(b) ==> b.wf() && key.inner(),
        forall|v: VoxelCoord| lookup.requires((v,)),
    ensures
        r is Some == target is Some,
        target matches Some(b) ==> forall|f: spec_fn(VoxelCoord) -> Option<MaterialId>|
            #[trigger] answers(lookup, f) ==> r->0.quads@ == mesh_quads(brick_view(key, *b, f), merge),
{
    match target {
        None => None,
        Some(b) => {
            let grid = grid_of(key, b, &lookup);
            let quads = grid_quads(&grid, merge);
            proof {
                assert forall|f: spec_fn(VoxelCoord) -> Option<MaterialId>| #[trigger] answers(lookup, f) implies quads@ == mesh_quads(
                    brick_view(key, *b, f),
                    merge,
                ) by {
                    let a = grid_view(grid@);
                    let c = brick_view(key, *b, f);
                    assert forall|p: (int, int, int)| inside(p) implies #[trigger] a(p) == c(p) by {
                        assert(grid@[grid_index(p)] == b.local(p.0, p.1, p.2));
                    }
                    assert forall|p: (int, int, int)| outside(p) implies (#[trigger] a(p) is None <==> c(p) is None) by {
                        assert(lookup.ensures((voxel(key, p),), grid@[grid_index(p)]));
                    }
                    law_mesh_depends_on_brick_and_face_layers(a, c, merge);
                }
            }
            Some(BrickMesh { quads })
        },
    }
}

/// The cells of a stored brick are the world's voxels there.
pub proof fn lemma_brick_is_world(world: &World, key: BrickKey)
    requires
        world.wf(),
        world.map().dom().contains(key),
    ensures
        forall|p: (int, int, int)|
            inside(p) ==> #[trigger] world_view(world, key)(p) == world.map()[key].local(p.0, p.1, p.2),
{
    assert forall|p: (int, int, int)| inside(p) implies #[trigger] world_view(world, key)(p) == world.map()[key].local(p.0, p.1, p.2) by {
        let v = voxel(key, p);
        assert(v.key() == key);
        assert(v.place() == crate::world::place_of(p.0, p.1, p.2));
    }
}

/// The mesh extracted directly from the world.
pub fn extract_world(world: &World, key: BrickKey, merge: Merge) -> (r: Option<BrickMesh>)
    requires
        world.wf(),
    ensures
        r is Some == world.map().dom().contains(key),
        r matches Some(mesh) ==> mesh.quads@ == mesh_quads(world_view(world, key), merge),
{
    let target = world.brick(key);
    let lookup = |v: VoxelCoord| -> (m: Option<MaterialId>)
        requires
            world.wf(),
        ensures
            m == world.at(v),
        { world.get(v) };
    let ghost f = |v: VoxelCoord| world.at(v);
    assert(answers(lookup, f));
    proof {
        if target is Some {
            lemma_brick_is_world(world, key);
            let a = brick_view(key, world.map()[key], f);
            let b = world_view(world, key);
            assert forall|p: (int, int, int)| inside(p) implies #[trigger] a(p) == b(p) by {
                assert(b(p) == world.map()[key].local(p.0, p.1, p.2));
            }
            law_mesh_depends_on_brick_and_face_layers(a, b, merge);
        }
    }
    extract(key, target, lookup, merge)
}

/// The voxel across a face.
pub open spec fn across(p: VoxelCoord, face: Face) -> VoxelCoord {
    let s = if face.positive {
        1int
    } else {
        -1int
    };
    if face.axis == 0 {
        VoxelCoord { x: (p.x + s) as i32, ..p }
    } else if face.axis == 1 {
        VoxelCoord { y: (p.y + s) as i32, ..p }
    } else {
        VoxelCoord { z: (p.z + s) as i32, ..p }
    }
}

/// The six faces in order: -x, +x, -y, +y, -z, +z.
pub open spec fn nth_face(k: int) -> Face {
    Face { axis: (k / 2) as u8, positive: k % 2 == 1 }
}

/// The exposed ones among the first `n` faces of the voxel `p`.
pub open spec fn exposed_of_voxel(world: &World, p: VoxelCoord, m: MaterialId, n: nat) -> Seq<(VoxelCoord, Face, MaterialId)>
    decreases n,
{
    if n == 0 {
        Seq::empty()
    } else {
        let head = exposed_of_voxel(world, p, m, (n - 1) as nat);
        if world.at(across(p, nth_face(n - 1))) is None {
            head.push((p, nth_face(n - 1), m))
        } else {
            head
        }
    }
}

/// The exposed faces of the first `n` voxels of a list.
pub open spec fn exposed_of_voxels(world: &World, s: Seq<(VoxelCoord, MaterialId)>, n: nat) -> Seq<
    (VoxelCoord, Face, MaterialId),
>
    decreases n,
{
    if n == 0 {
        Seq::empty()
    } else {
        exposed_of_voxels(world, s, (n - 1) as nat) + exposed_of_voxel(world, s[n - 1].0, s[n - 1].1, 6)
    }
}

/// Every exposed unit face of the world.
pub open spec fn exposed_list(world: &World) -> Seq<(VoxelCoord, Face, MaterialId)> {
    let s = crate::world::occupied_voxels(world, world.keys().len());
    exposed_of_voxels(world, s, s.len())
}

/// Every exposed unit face of the world with its material, computed directly from voxels.
pub fn exposed_faces(world: &World) -> (out: Vec<(VoxelCoord, Face, MaterialId)>)
    requires
        world.wf(),
    ensures
        out@ == exposed_list(world),
{
    let voxels = world.occupied();
    proof {
        crate::world::law_occupied_lists_every_voxel_once(world);
    }
    let mut out: Vec<(VoxelCoord, Face, MaterialId)> = Vec::new();
    let mut i: usize = 0;
    while i < voxels.len()
        invariant
            i <= voxels@.len(),
            world.wf(),
            forall|j: int| 0 <= j < voxels@.len() ==> (#[trigger] voxels@[j]).0.in_bounds(),
            out@ == exposed_of_voxels(world, voxels@, i as nat),
        decreases voxels@.len() - i,
    {
        let (p, m) = voxels[i];
        let ghost start = out@;
        assert(out@ =~= start + exposed_of_voxel(world, p, m, 0));
        let mut k: u8 = 0;
        while k < 6
            invariant
                k <= 6,
                world.wf(),
                p.in_bounds(),
                out@ == start + exposed_of_voxel(world, p, m, k as nat),
            decreases 6 - k,
        {
            let face = Face { axis: k / 2, positive: k % 2 == 1 };
            assert(face == nth_face(k as int));
            let s: i32 = if face.positive {
                1
            } else {
                -1
            };
            let n = if face.axis == 0 {
                VoxelCoord { x: p.x + s, y: p.y, z: p.z }
            } else if face.axis == 1 {
                VoxelCoord { x: p.x, y: p.y + s, z: p.z }
            } else {
                VoxelCoord { x: p.x, y: p.y, z: p.z + s }
            };
            assert(n == across(p, face));
            if world.get(n).is_none() {
                out.push((p, face, m));
                assert(out@ =~= start + exposed_of_voxel(world, p, m, (k + 1) as nat));
            }
            k += 1;
        }
        i += 1;
    }
    out
}

proof fn lemma_exposed_of_voxel(world: &World, p: VoxelCoord, m: MaterialId, n: nat)
    requires
        n <= 6,
    ensures
        forall|j: int|
            0 <= j < exposed_of_voxel(world, p, m, n).len() ==> {
                &&& (#[trigger] exposed_of_voxel(world, p, m, n)[j]).0 == p
                &&& exposed_of_voxel(world, p, m, n)[j].2 == m
                &&& exposed_of_voxel(world, p, m, n)[j].1.axis < 3
                &&& 2 * exposed_of_voxel(world, p, m, n)[j].1.axis + (if exposed_of_voxel(world, p, m, n)[j].1.positive {
                    1int
                } else {
                    0int
                }) < n
                &&& world.at(across(p, exposed_of_voxel(world, p, m, n)[j].1)) is None
            },
        forall|k: int|
            0 <= k < n && world.at(across(p, #[trigger] nth_face(k))) is None ==> exposed_of_voxel(world, p, m, n).contains(
                (p, nth_face(k), m),
            ),
        exposed_of_voxel(world, p, m, n).no_duplicates(),
    decreases n,
{
    if n > 0 {
        lemma_exposed_of_voxel(world, p, m, (n - 1) as nat);
        let a = exposed_of_voxel(world, p, m, (n - 1) as nat);
        let b = exposed_of_voxel(world, p, m, n);
        assert forall|k: int| 0 <= k < n && world.at(across(p, #[trigger] nth_face(k))) is None implies b.contains(
            (p, nth_face(k), m),
        ) by {
            if k < n - 1 {
                let j = choose|j: int| 0 <= j < a.len() && a[j] == (p, nth_face(k), m);
                assert(b[j] == (p, nth_face(k), m));
            } else {
                assert(b[b.len() - 1] == (p, nth_face(k), m));
            }
        }
    }
}

proof fn lemma_exposed_of_voxels(world: &World, s: Seq<(VoxelCoord, MaterialId)>, n: nat)
    requires
        n <= s.len(),
        forall|i: int, j: int| 0 <= i < j < s.len() ==> (#[trigger] s[i]).0 != (#[trigger] s[j]).0,
    ensures
        forall|j: int|
            0 <= j < exposed_of_voxels(world, s, n).len() ==> {
                let e = #[trigger] exposed_of_voxels(world, s, n)[j];
                &&& exists|i: int| 0 <= i < n && #[trigger] s[i] == (e.0, e.2)
                &&& e.1.axis < 3
                &&& world.at(across(e.0, e.1)) is None
            },
        forall|i: int, k: int|
            0 <= i < n && 0 <= k < 6 && world.at(across(#[trigger] s[i].0, #[trigger] nth_face(k))) is None
                ==> exposed_of_voxels(world, s, n).contains((s[i].0, nth_face(k), s[i].1)),
        exposed_of_voxels(world, s, n).no_duplicates(),
    decreases n,
{
    if n > 0 {
        lemma_exposed_of_voxels(world, s, (n - 1) as nat);
        let (p, m) = s[n - 1];
        lemma_exposed_of_voxel(world, p, m, 6);
        let a = exposed_of_voxels(world, s, (n - 1) as nat);
        let b = exposed_of_voxel(world, p, m, 6);
        let c = exposed_of_voxels(world, s, n);
        assert(c =~= a + b);
        assert forall|j: int| 0 <= j < c.len() implies {
            let e = #[trigger] c[j];
            &&& exists|i: int| 0 <= i < n && #[trigger] s[i] == (e.0, e.2)
            &&& e.1.axis < 3
            &&& world.at(across(e.0, e.1)) is None
        } by {
            if j < a.len() {
                assert(c[j] == a[j]);
            } else {
                assert(c[j] == b[j - a.len()]);
                assert(s[n - 1] == (c[j].0, c[j].2));
            }
        }
        assert forall|i: int, k: int|
            0 <= i < n && 0 <= k < 6 && world.at(across(#[trigger] s[i].0, #[trigger] nth_face(k))) is None implies c.contains(
            (s[i].0, nth_face(k), s[i].1),
        ) by {
            let e = (s[i].0, nth_face(k), s[i].1);
            if i < n - 1 {
                assert(a.contains(e));
                let j = choose|j: int| 0 <= j < a.len() && a[j] == e;
                assert(c[j] == e);
            } else {
                assert(b.contains(e));
                let j = choose|j: int| 0 <= j < b.len() && b[j] == e;
                assert(c[a.len() + j] == e);
            }
        }
        assert forall|i: int, j: int| 0 <= i < c.len() && 0 <= j < c.len() && i != j implies c[i] != c[j] by {
            let (lo, hi) = if i < j {
                (i, j)
            } else {
                (j, i)
            };
            if hi < a.len() {
                assert(c[lo] == a[lo] && c[hi] == a[hi]);
            } else if lo >= a.len() {
                assert(c[lo] == b[lo - a.len()] && c[hi] == b[hi - a.len()]);
            } else {
                assert(c[lo] == a[lo]);
                assert(c[hi] == b[hi - a.len()]);
                let q = choose|q: int| 0 <= q < n - 1 && #[trigger] s[q] == (a[lo].0, a[lo].2);
                assert(s[q].0 != s[n - 1].0);
            }
        }
    }
}

/// The list holds exactly the exposed faces, each once: a face of an occupied voxel whose
/// neighbour across it is empty, with the voxel's material.
pub proof fn law_exposed_faces_are_listed_once(world: &World, v: VoxelCoord, face: Face, m: MaterialId)
    requires
        world.wf(),
    ensures
        exposed_list(world).contains((v, face, m)) <==> (face.axis < 3 && world.at(v) == Some(m) && world.at(
            across(v, face),
        ) is None),
        exposed_list(world).no_duplicates(),
{
    let s = crate::world::occupied_voxels(world, world.keys().len());
    crate::world::law_occupied_lists_every_voxel_once(world);
    lemma_exposed_of_voxels(world, s, s.len());
    let l = exposed_list(world);
    let e = (v, face, m);
    if l.contains(e) {
        let j = choose|j: int| 0 <= j < l.len() && l[j] == e;
        let i = choose|i: int| 0 <= i < s.len() && #[trigger] s[i] == (l[j].0, l[j].2);
        assert(world.at(s[i].0) == Some(s[i].1));
    }
    if face.axis < 3 && world.at(v) == Some(m) && world.at(across(v, face)) is None {
        assert(s.contains((v, m)));
        let i = choose|i: int| 0 <= i < s.len() && s[i] == (v, m);
        let k = 2 * face.axis + if face.positive {
            1int
        } else {
            0int
        };
        assert(nth_face(k) == face);
        assert(world.at(across(s[i].0, nth_face(k))) is None);
    }
}

/// The voxel across a face is one step along the face's axis, up or down, and elsewhere has the same coordinates;
/// stepping back across the opposite face returns.
pub proof fn law_across_is_one_step(p: VoxelCoord, k: int)
    requires
        0 <= k < 6,
        i32::MIN < p.x < i32::MAX,
        i32::MIN < p.y < i32::MAX,
        i32::MIN < p.z < i32::MAX,
    ensures
        ({
            let q = across(p, nth_face(k));
            let s: int = if k % 2 == 1 {
                1
            } else {
                -1
            };
            &&& k / 2 == 0 ==> q.x == p.x + s && q.y == p.y && q.z == p.z
            &&& k / 2 == 1 ==> q.x == p.x && q.y == p.y + s && q.z == p.z
            &&& k / 2 == 2 ==> q.x == p.x && q.y == p.y && q.z == p.z + s
            &&& across(q, nth_face(if k % 2 == 1 {
                k - 1
            } else {
                k + 1
            })) == p
        }),
{
}

} // verus!
