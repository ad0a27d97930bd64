//! The device mesh layout, built on the host.
//!
//! Bricks are grouped into acceleration regions. Each region gets one byte image with four aligned
//! sections:
//!
//! - **vertices:** four half floats, region-local voxel units, `w = 1`. Values are multiples of 1/2
//!   (fan centres of split quads), exact in half floats. Every triangle edge is shared, so there
//!   are no cracks.
//! - **indices:** `u32`, three per triangle, counter-clockwise from outside;
//! - **triangle quads:** one `u32` per triangle, the index of its quad;
//! - **quads:** one `u64` per quad, region-local (bit layout below).
//!
//! Quad bits: material `[0,16)`, face `[16,19)`, plane `[19,26)`, u0 `[26,33)`, v0 `[33,40)`,
//! u1 `[40,47)`, v1 `[47,54)`. Region-local coordinates are `0..=64`, so 7 bits each.
//! Within a region, bricks are in key order and each brick's quads keep their order.
use crate::derived::mesh::{BrickMesh, Quad};
use crate::gpu::bytes::{
    align_up, le16, le32, le64, lemma_round_up, pad_to, padded, power_of_two, push_u16, push_u32,
    push_u64, round_up,
};
use crate::derived::triangles::{
    all_owners, all_triangles, all_vertices, corner_on_quad, law_triangles_lie_on_their_quads, lemma_quad_vertices_on_quad,
    lemma_vertex_count, on_quad, quad_vertices, Split,
};
use crate::sorted::{Key, SortedMap};
use crate::world::{floor_div, lex3, BrickKey, VoxelCoord, BRICK_EDGE};
use vstd::arithmetic::power2::{lemma2_to64, lemma_pow2_unfold, pow2};
use vstd::prelude::*;

verus! {

pub const MATERIAL_SHIFT: u32 = 0;

pub const FACE_SHIFT: u32 = 16;

pub const PLANE_SHIFT: u32 = 19;

pub const U0_SHIFT: u32 = 26;

pub const V0_SHIFT: u32 = 33;

pub const U1_SHIFT: u32 = 40;

pub const V1_SHIFT: u32 = 47;

pub const COORD_BITS: u32 = 7;

/// Device bytes: 8 per vertex, 16 per triangle (12 of indices, 4 of triangle quad), 8 per quad.
pub const BYTES_PER_VERTEX: u64 = 8;

pub const BYTES_PER_TRIANGLE: u64 = 16;

pub const BYTES_PER_QUAD: u64 = 8;

/// Acceleration region edge.
#[derive(Clone, Copy, Debug, PartialEq, Eq, PartialOrd, Ord, Hash, Structural)]
pub enum RegionSize {
    Brick,
    Bricks2,
    Chunk,
    Chunks2,
}

impl RegionSize {
    pub const ALL: [RegionSize; 4] = [RegionSize::Brick, RegionSize::Bricks2, RegionSize::Chunk, RegionSize::Chunks2];

    pub open spec fn spec_bricks(self) -> int {
        match self {
            RegionSize::Brick => 1,
            RegionSize::Bricks2 => 2,
            RegionSize::Chunk => 4,
            RegionSize::Chunks2 => 8,
        }
    }

    pub open spec fn spec_voxels(self) -> int {
        8 * self.spec_bricks()
    }

    /// Edge in bricks.
    pub fn bricks(self) -> (r: i32)
        ensures
            r == self.spec_bricks(),
    {
        match self {
            RegionSize::Brick => 1,
            RegionSize::Bricks2 => 2,
            RegionSize::Chunk => 4,
            RegionSize::Chunks2 => 8,
        }
    }

    pub fn voxels(self) -> (r: i32)
        ensures
            r == self.spec_voxels(),
    {
        self.bricks() * BRICK_EDGE
    }

    pub fn name(self) -> (r: &'static str)
        ensures
            r@ == match self {
                RegionSize::Brick => "brick"@,
                RegionSize::Bricks2 => "2x2x2_bricks"@,
                RegionSize::Chunk => "chunk"@,
                RegionSize::Chunks2 => "2x2x2_chunks"@,
            },
    {
        match self {
            RegionSize::Brick => "brick",
            RegionSize::Bricks2 => "2x2x2_bricks",
            RegionSize::Chunk => "chunk",
            RegionSize::Chunks2 => "2x2x2_chunks",
        }
    }
}

/// Region identity: region coordinates in units of the region edge.
#[derive(Clone, Copy, Debug, PartialEq, Eq, PartialOrd, Ord, Hash, Structural)]
pub struct RegionKey {
    pub x: i32,
    pub y: i32,
    pub z: i32,
}

impl Key for RegionKey {
    open spec fn lt(self, other: RegionKey) -> bool {
        lex3((self.x as int, self.y as int, self.z as int), (other.x as int, other.y as int, other.z as int))
    }

    proof fn lt_irreflexive(a: RegionKey) {
    }

    proof fn lt_transitive(a: RegionKey, b: RegionKey, c: RegionKey) {
    }

    proof fn lt_total(a: RegionKey, b: RegionKey) {
    }

    fn before(&self, other: &RegionKey) -> (r: bool) {
        self.x < other.x || (self.x == other.x && (self.y < other.y || (self.y == other.y && self.z < other.z)))
    }
}

impl RegionKey {
    /// The region of a brick.
    pub open spec fn spec_of(brick: BrickKey, size: RegionSize) -> RegionKey {
        let b = size.spec_bricks();
        RegionKey { x: (brick.x as int / b) as i32, y: (brick.y as int / b) as i32, z: (brick.z as int / b) as i32 }
    }

    pub fn of(brick: BrickKey, size: RegionSize) -> (r: RegionKey)
        requires
            brick.wf(),
        ensures
            r == RegionKey::spec_of(brick, size),
    {
        let o = brick.origin();
        let e: i32 = size.voxels();
        proof {
            lemma_region_axis(brick.x as int, size);
            lemma_region_axis(brick.y as int, size);
            lemma_region_axis(brick.z as int, size);
        }
        RegionKey { x: floor_div(o.x, e), y: floor_div(o.y, e), z: floor_div(o.z, e) }
    }

    /// A region whose voxels have coordinates.
    pub open spec fn fits(self, size: RegionSize) -> bool {
        let e = size.spec_voxels();
        &&& i32::MIN <= self.x * e <= i32::MAX
        &&& i32::MIN <= self.y * e <= i32::MAX
        &&& i32::MIN <= self.z * e <= i32::MAX
    }

    pub open spec fn spec_origin(self, size: RegionSize) -> VoxelCoord {
        let e = size.spec_voxels();
        VoxelCoord { x: (self.x * e) as i32, y: (self.y * e) as i32, z: (self.z * e) as i32 }
    }

    /// The region's voxel with the smallest coordinates.
    pub fn origin(self, size: RegionSize) -> (r: VoxelCoord)
        requires
            self.fits(size),
        ensures
            r == self.spec_origin(size),
    {
        let e: i32 = size.voxels();
        VoxelCoord::new(self.x * e, self.y * e, self.z * e)
    }
}

/// A region holds the bricks that start within its edge: the brick's place in it is a whole number
/// of bricks, below the edge.
pub proof fn law_region_holds_its_bricks(brick: BrickKey, size: RegionSize)
    requires
        brick.wf(),
    ensures
        RegionKey::spec_of(brick, size).fits(size),
        0 <= brick.spec_origin().x - RegionKey::spec_of(brick, size).spec_origin(size).x <= size.spec_voxels() - 8,
        0 <= brick.spec_origin().y - RegionKey::spec_of(brick, size).spec_origin(size).y <= size.spec_voxels() - 8,
        0 <= brick.spec_origin().z - RegionKey::spec_of(brick, size).spec_origin(size).z <= size.spec_voxels() - 8,
{
    lemma_region_axis(brick.x as int, size);
    lemma_region_axis(brick.y as int, size);
    lemma_region_axis(brick.z as int, size);
}

proof fn lemma_region_axis(c: int, size: RegionSize)
    requires
        -0x1000_0000 <= c < 0x1000_0000,
    ensures
        8 * c / size.spec_voxels() == c / size.spec_bricks(),
        0 <= 8 * c - (c / size.spec_bricks()) * size.spec_voxels() <= size.spec_voxels() - 8,
        i32::MIN <= c / size.spec_bricks() <= i32::MAX,
        i32::MIN <= (c / size.spec_bricks()) * size.spec_voxels() <= i32::MAX,
{
    let b = size.spec_bricks();
    let q = c / b;
    let e = size.spec_voxels();
    vstd::arithmetic::div_mod::lemma_fundamental_div_mod(c, b);
    vstd::arithmetic::div_mod::lemma_mod_bound(c, b);
    let r = c % b;
    assert(q * e == 8 * (b * q)) by (nonlinear_arith)
        requires
            e == 8 * b,
    ;
    assert(8 * c == e * q + 8 * r) by (nonlinear_arith)
        requires
            c == b * q + r,
            e == 8 * b,
    ;
    vstd::arithmetic::div_mod::lemma_fundamental_div_mod_converse(8 * c, e, q, 8 * r);
}

/// A quad in region-local coordinates, as the device stores it.
#[derive(Clone, Copy, Debug, PartialEq, Eq, Structural)]
pub struct RegionQuad {
    pub material: u16,
    pub face: u8,
    pub plane: u8,
    pub u0: u8,
    pub v0: u8,
    pub u1: u8,
    pub v1: u8,
}

impl RegionQuad {
    /// Every field fits its bits.
    pub open spec fn packable(self) -> bool {
        &&& self.face < 8
        &&& self.plane < 128
        &&& self.u0 < 128
        &&& self.v0 < 128
        &&& self.u1 < 128
        &&& self.v1 < 128
    }

    pub open spec fn spec_pack(self) -> u64 {
        (self.material as u64) << 0u32 | (self.face as u64) << 16u32 | (self.plane as u64) << 19u32 | (self.u0 as u64) << 26u32 | (
        self.v0 as u64) << 33u32 | (self.u1 as u64) << 40u32 | (self.v1 as u64) << 47u32
    }

    pub fn pack(self) -> (r: u64)
        ensures
            r == self.spec_pack(),
    {
        (self.material as u64) << MATERIAL_SHIFT | (self.face as u64) << FACE_SHIFT | (self.plane as u64) << PLANE_SHIFT | (
        self.u0 as u64) << U0_SHIFT | (self.v0 as u64) << V0_SHIFT | (self.u1 as u64) << U1_SHIFT | (self.v1 as u64) << V1_SHIFT
    }

    pub open spec fn spec_unpack(bits: u64) -> RegionQuad {
        RegionQuad {
            material: (bits & 0xFFFF) as u16,
            face: ((bits >> 16u32) & 7) as u8,
            plane: ((bits >> 19u32) & 127) as u8,
            u0: ((bits >> 26u32) & 127) as u8,
            v0: ((bits >> 33u32) & 127) as u8,
            u1: ((bits >> 40u32) & 127) as u8,
            v1: ((bits >> 47u32) & 127) as u8,
        }
    }

    pub fn unpack(bits: u64) -> (r: RegionQuad)
        ensures
            r == RegionQuad::spec_unpack(bits),
    {
        RegionQuad {
            material: (bits & 0xFFFF) as u16,
            face: ((bits >> FACE_SHIFT) & 7) as u8,
            plane: ((bits >> PLANE_SHIFT) & 127) as u8,
            u0: ((bits >> U0_SHIFT) & 127) as u8,
            v0: ((bits >> V0_SHIFT) & 127) as u8,
            u1: ((bits >> U1_SHIFT) & 127) as u8,
            v1: ((bits >> V1_SHIFT) & 127) as u8,
        }
    }

    /// The corner at `(u, v)` of the quad's plane.
    pub open spec fn spec_corner(self, u: u8, v: u8) -> [u8; 3] {
        if self.face < 2 {
            [self.plane, u, v]
        } else if self.face < 4 {
            [v, self.plane, u]
        } else {
            [u, v, self.plane]
        }
    }

    fn corner(self, u: u8, v: u8) -> (r: [u8; 3])
        ensures
            r == self.spec_corner(u, v),
    {
        if self.face < 2 {
            [self.plane, u, v]
        } else if self.face < 4 {
            [v, self.plane, u]
        } else {
            [u, v, self.plane]
        }
    }

    pub open spec fn spec_corners(self) -> [[u8; 3]; 4] {
        let a = self.spec_corner(self.u0, self.v0);
        let b = self.spec_corner(self.u1, self.v0);
        let c = self.spec_corner(self.u1, self.v1);
        let d = self.spec_corner(self.u0, self.v1);
        if self.face % 2 == 1 {
            [a, b, c, d]
        } else {
            [a, d, c, b]
        }
    }

    /// Corners in order, region-local (the same rule as a brick's quads have).
    pub fn corners(self) -> (r: [[u8; 3]; 4])
        requires
            self.face < 6,
        ensures
            r == self.spec_corners(),
    {
        let a = self.corner(self.u0, self.v0);
        let b = self.corner(self.u1, self.v0);
        let c = self.corner(self.u1, self.v1);
        let d = self.corner(self.u0, self.v1);
        if self.face % 2 == 1 {
            [a, b, c, d]
        } else {
            [a, d, c, b]
        }
    }

    /// `q` moved by `o` voxels.
    pub open spec fn spec_from_brick(q: Quad, o: [u8; 3]) -> RegionQuad {
        let a = q.spec_axis();
        RegionQuad {
            material: q.material.id,
            face: q.face,
            plane: (q.plane + o[a]) as u8,
            u0: (q.u0 + o[(a + 1) % 3]) as u8,
            v0: (q.v0 + o[(a + 2) % 3]) as u8,
            u1: (q.u1 + o[(a + 1) % 3]) as u8,
            v1: (q.v1 + o[(a + 2) % 3]) as u8,
        }
    }

    fn from_brick(q: Quad, offset: [u8; 3]) -> (r: RegionQuad)
        requires
            q.rectangle(),
            offset[0] <= 56,
            offset[1] <= 56,
            offset[2] <= 56,
        ensures
            r == RegionQuad::spec_from_brick(q, offset),
            r.packable(),
    {
        let a: usize = q.axis();
        let (ua, va) = q.uv_axes();
        RegionQuad {
            material: q.material.raw(),
            face: q.face,
            plane: q.plane + offset[a],
            u0: q.u0 + offset[ua],
            v0: q.v0 + offset[va],
            u1: q.u1 + offset[ua],
            v1: q.v1 + offset[va],
        }
    }
}

/// Packing loses nothing: the fields do not overlap.
pub proof fn law_pack_round_trips(q: RegionQuad)
    requires
        q.packable(),
    ensures
        RegionQuad::spec_unpack(q.spec_pack()) == q,
{
    let (m, f, p, a, b, c, d) = (q.material, q.face, q.plane, q.u0, q.v0, q.u1, q.v1);
    let w = q.spec_pack();
    assert((w & 0xFFFF) as u16 == m && ((w >> 16u32) & 7) as u8 == f && ((w >> 19u32) & 127) as u8 == p && ((w >> 26u32) & 127) as u8
        == a && ((w >> 33u32) & 127) as u8 == b && ((w >> 40u32) & 127) as u8 == c && ((w >> 47u32) & 127) as u8 == d) by (bit_vector)
        requires
            f < 8,
            p < 128,
            a < 128,
            b < 128,
            c < 128,
            d < 128,
            w == (m as u64) << 0u32 | (f as u64) << 16u32 | (p as u64) << 19u32 | (a as u64) << 26u32 | (b as u64) << 33u32 | (
            c as u64) << 40u32 | (d as u64) << 47u32,
    ;
}

/// The fields fill the low 54 bits.
pub proof fn law_packed_quads_use_54_bits(q: RegionQuad)
    requires
        q.packable(),
    ensures
        q.spec_pack() < 0x40_0000_0000_0000,
{
    let (m, f, p, a, b, c, d) = (q.material, q.face, q.plane, q.u0, q.v0, q.u1, q.v1);
    let w = q.spec_pack();
    assert(w < 0x40_0000_0000_0000) by (bit_vector)
        requires
            f < 8,
            p < 128,
            a < 128,
            b < 128,
            c < 128,
            d < 128,
            w == (m as u64) << 0u32 | (f as u64) << 16u32 | (p as u64) << 19u32 | (a as u64) << 26u32 | (b as u64) << 33u32 | (
            c as u64) << 40u32 | (d as u64) << 47u32,
    ;
}

/// A quad has the same corners in its region as in its brick.
pub proof fn law_region_quads_keep_their_place(q: Quad, o: [u8; 3], i: int)
    requires
        q.rectangle(),
        o[0] <= 56,
        o[1] <= 56,
        o[2] <= 56,
        0 <= i < 4,
    ensures
        forall|c: int|
            0 <= c < 3 ==> RegionQuad::spec_from_brick(q, o).spec_corners()[i][c] == #[trigger] q.spec_corners()[i][c] + o[c],
{
}

/// 2^24 times the value of a finite non-negative half float.
pub open spec fn f16_scaled(bits: u16) -> int {
    let e = bits as int / 1024;
    let m = bits as int % 1024;
    if e == 0 {
        m
    } else {
        (1024 + m) * pow2((e - 1) as nat)
    }
}

/// The bits of the half float `n * 2^k / 2^24`.
fn f16_bits(n: u32, k: u32) -> (r: u16)
    requires
        n < 2048,
        14 <= k + 1 <= 25,
    ensures
        r < 0x7C00,
        f16_scaled(r) == n * pow2(k as nat),
{
    if n == 0 {
        return 0;
    }
    let mut e: u32 = 10;
    let mut top: u32 = 1024;
    let mut scale: u32 = 1;
    proof {
        lemma2_to64();
    }
    while n < top
        invariant
            0 < n < 2 * top,
            e <= 10,
            top == pow2(e as nat),
            top * scale == 1024,
            scale == pow2((10 - e) as nat),
        decreases e,
    {
        proof {
            if e == 0 {
                lemma2_to64();
            }
            lemma_pow2_unfold(e as nat);
            lemma_pow2_unfold((10 - e + 1) as nat);
            assert(top * scale == 1024);
            assert(top / 2 * 2 == top);
            assert((top / 2) * (scale * 2) == 1024) by (nonlinear_arith)
                requires
                    top / 2 * 2 == top,
                    top * scale == 1024,
            ;
            assert(scale <= 1024) by (nonlinear_arith)
                requires
                    top * scale == 1024,
                    top >= 1,
            ;
        }
        e = e - 1;
        top = top / 2;
        scale = scale * 2;
    }
    proof {
        assert((n - top) * scale < 1024) by (nonlinear_arith)
            requires
                n < 2 * top,
                top * scale == 1024,
                n >= top,
        ;
        assert(0 <= (n - top) * scale) by (nonlinear_arith)
            requires
                n >= top,
        ;
    }
    let m: u32 = (n - top) * scale;
    let r: u32 = (e + k - 9) * 1024 + m;
    proof {
        assert(r < 36 * 1024);
        assert(e + k - 9 <= 25);
        assert(r / 1024 == e + k - 9 && r % 1024 == m);
        let a = pow2((e + k - 10) as nat);
        let b = pow2((10 - e) as nat);
        vstd::arithmetic::power2::lemma_pow2_adds((10 - e) as nat, (e + k - 10) as nat);
        assert(b * a == pow2(k as nat));
        assert((1024 + m) * a == n * pow2(k as nat)) by (nonlinear_arith)
            requires
                m == (n - top) * scale,
                top * scale == 1024,
                scale == b,
                b * a == pow2(k as nat),
        ;
    }
    r as u16
}

/// Exact half-float bits of a small non-negative integer (`n < 2048`).
pub fn f16_of_int(n: u32) -> (r: u16)
    requires
        n < 2048,
    ensures
        r < 0x7C00,
        f16_scaled(r) == n * 0x100_0000,
{
    proof {
        lemma2_to64();
    }
    f16_bits(n, 24)
}

/// Exact half-float bits of a non-negative multiple of 1/2 below 1024, given in half units
/// (`halves = 2 x value`).
pub fn f16_of_halves(halves: u32) -> (r: u16)
    requires
        halves < 2048,
    ensures
        r < 0x7C00,
        f16_scaled(r) == halves * 0x80_0000,
{
    proof {
        lemma2_to64();
    }
    f16_bits(halves, 23)
}

/// Different bits are different values, so a value has only one encoding.
pub proof fn law_f16_values_are_distinct(a: u16, b: u16)
    requires
        f16_scaled(a) == f16_scaled(b),
    ensures
        a == b,
{
    if a < b {
        lemma_f16_grows(a, b);
    } else if b < a {
        lemma_f16_grows(b, a);
    }
}

proof fn lemma_f16_grows(a: u16, b: u16)
    requires
        a < b,
    ensures
        f16_scaled(a) < f16_scaled(b),
{
    let (ea, ma) = (a as int / 1024, a as int % 1024);
    let (eb, mb) = (b as int / 1024, b as int % 1024);
    lemma2_to64();
    if ea == eb {
        if ea > 0 {
            let p = pow2((ea - 1) as nat);
            vstd::arithmetic::power2::lemma_pow2_pos((ea - 1) as nat);
            assert((1024 + ma) * p < (1024 + mb) * p) by (nonlinear_arith)
                requires
                    ma < mb,
                    p > 0,
            ;
        }
    } else {
        let q = pow2((eb - 1) as nat);
        vstd::arithmetic::power2::lemma_pow2_pos((eb - 1) as nat);
        assert((1024 + mb) * q >= 1024 * q) by (nonlinear_arith)
            requires
                mb >= 0,
                q > 0,
        ;
        if ea > 0 {
            let p = pow2((ea - 1) as nat);
            lemma_pow2_unfold(ea as nat);
            if ea < eb - 1 {
                vstd::arithmetic::power2::lemma_pow2_strictly_increases(ea as nat, (eb - 1) as nat);
            }
            assert(2 * p <= q);
            vstd::arithmetic::power2::lemma_pow2_pos((ea - 1) as nat);
            assert((1024 + ma) * p < 2048 * p) by (nonlinear_arith)
                requires
                    ma < 1024,
                    p > 0,
            ;
            assert(2048 * p <= 1024 * q);
        } else {
            assert(1024 * q >= 1024);
        }
    }
}

/// `1.0` as a half float.
pub const F16_ONE: u16 = 0x3C00;

/// Section offsets within a region's byte image.
#[derive(Clone, Copy, Debug, PartialEq, Eq, Structural)]
pub struct Sections {
    pub vertices: u64,
    pub indices: u64,
    pub tri_quad: u64,
    pub quads: u64,
    pub total: u64,
}

pub open spec fn indices_at(vertices: int, a: int) -> int {
    round_up(8 * vertices, a)
}

pub open spec fn tri_quad_at(vertices: int, triangles: int, a: int) -> int {
    round_up(indices_at(vertices, a) + 12 * triangles, a)
}

pub open spec fn quads_at(vertices: int, triangles: int, a: int) -> int {
    round_up(tri_quad_at(vertices, triangles, a) + 4 * triangles, a)
}

/// The bytes of an image. An empty one still takes one unit of alignment.
pub open spec fn image_size(vertices: int, triangles: int, quads: int, a: int) -> int {
    let end = round_up(quads_at(vertices, triangles, a) + 8 * quads, a);
    if end < a {
        a
    } else {
        end
    }
}

proof fn lemma_sections(vertices: int, triangles: int, quads: int, a: int)
    requires
        a > 0,
        vertices >= 0,
        triangles >= 0,
        quads >= 0,
    ensures
        8 * vertices <= indices_at(vertices, a),
        indices_at(vertices, a) + 12 * triangles <= tri_quad_at(vertices, triangles, a),
        tri_quad_at(vertices, triangles, a) + 4 * triangles <= quads_at(vertices, triangles, a),
        quads_at(vertices, triangles, a) + 8 * quads <= image_size(vertices, triangles, quads, a),
        indices_at(vertices, a) % a == 0,
        tri_quad_at(vertices, triangles, a) % a == 0,
        quads_at(vertices, triangles, a) % a == 0,
        image_size(vertices, triangles, quads, a) % a == 0,
        image_size(vertices, triangles, quads, a) >= a,
{
    lemma_round_up(8 * vertices, a);
    lemma_round_up(indices_at(vertices, a) + 12 * triangles, a);
    lemma_round_up(tri_quad_at(vertices, triangles, a) + 4 * triangles, a);
    lemma_round_up(quads_at(vertices, triangles, a) + 8 * quads, a);
    vstd::arithmetic::div_mod::lemma_mod_self_0(a);
}

/// The sections are aligned, in order and do not overlap.
pub proof fn law_sections_are_aligned_and_apart(s: Sections, vertices: u64, triangles: u64, quads: u64, a: u64)
    requires
        a > 0,
        s.placed(vertices as int, triangles as int, quads as int, a as int),
    ensures
        s.vertices as int % a as int == 0,
        s.indices as int % a as int == 0,
        s.tri_quad as int % a as int == 0,
        s.quads as int % a as int == 0,
        s.total as int % a as int == 0,
        s.vertices + 8 * vertices <= s.indices,
        s.indices + 12 * triangles <= s.tri_quad,
        s.tri_quad + 4 * triangles <= s.quads,
        s.quads + 8 * quads <= s.total,
{
    lemma_sections(vertices as int, triangles as int, quads as int, a as int);
    vstd::arithmetic::div_mod::lemma_small_mod(0, a as nat);
}

impl Sections {
    /// The offsets for so many vertices, triangles and quads.
    pub open spec fn placed(self, vertices: int, triangles: int, quads: int, a: int) -> bool {
        &&& self.vertices == 0
        &&& self.indices == indices_at(vertices, a)
        &&& self.tri_quad == tri_quad_at(vertices, triangles, a)
        &&& self.quads == quads_at(vertices, triangles, a)
        &&& self.total == image_size(vertices, triangles, quads, a)
    }

    pub fn new(vertices: u64, triangles: u64, quads: u64, align: u64) -> (r: Sections)
        requires
            power_of_two(align as int),
            image_size(vertices as int, triangles as int, quads as int, align as int) + align <= u64::MAX,
        ensures
            r.placed(vertices as int, triangles as int, quads as int, align as int),
    {
        proof {
            let n = choose|n: nat| align == #[trigger] pow2(n);
            vstd::arithmetic::power2::lemma_pow2_pos(n);
            lemma_sections(vertices as int, triangles as int, quads as int, align as int);
        }
        let i: u64 = align_up(vertices * BYTES_PER_VERTEX, align);
        let t: u64 = align_up(i + triangles * 12, align);
        let q: u64 = align_up(t + triangles * 4, align);
        let end: u64 = align_up(q + quads * BYTES_PER_QUAD, align);
        let total: u64 = if end < align {
            align
        } else {
            end
        };
        Sections { vertices: 0, indices: i, tri_quad: t, quads: q, total }
    }
}

/// One region's device image, built on the host.
#[derive(Clone, Debug, PartialEq, Eq)]
pub struct RegionMesh {
    pub key: RegionKey,
    pub size: RegionSize,
    pub quads: Vec<RegionQuad>,
    /// Region-local, in half-voxel units (x2), `0..=128`.
    pub vertices: Vec<[u8; 3]>,
    /// Counter-clockwise from outside.
    pub indices: Vec<[u32; 3]>,
    /// For each triangle (primitive), the index of its quad.
    pub tri_quad: Vec<u32>,
}

/// The half float with `x` halves.
pub open spec fn is_halves(bits: u16, x: u8) -> bool {
    bits < 0x7C00 && f16_scaled(bits) == x * 0x80_0000
}

pub open spec fn halves_bits(x: u8) -> u16 {
    choose|bits: u16| #[trigger] is_halves(bits, x)
}

pub open spec fn vertex_bytes(p: [u8; 3]) -> Seq<u8> {
    le16(halves_bits(p[0])) + le16(halves_bits(p[1])) + le16(halves_bits(p[2])) + le16(F16_ONE)
}

pub open spec fn vertices_bytes(vs: Seq<[u8; 3]>, n: nat) -> Seq<u8>
    decreases n,
{
    if n == 0 {
        Seq::empty()
    } else {
        vertices_bytes(vs, (n - 1) as nat) + vertex_bytes(vs[n - 1])
    }
}

pub open spec fn indices_bytes(ts: Seq<[u32; 3]>, n: nat) -> Seq<u8>
    decreases n,
{
    if n == 0 {
        Seq::empty()
    } else {
        indices_bytes(ts, (n - 1) as nat) + le32(ts[n - 1][0]) + le32(ts[n - 1][1]) + le32(ts[n - 1][2])
    }
}

pub open spec fn owners_bytes(qs: Seq<u32>, n: nat) -> Seq<u8>
    decreases n,
{
    if n == 0 {
        Seq::empty()
    } else {
        owners_bytes(qs, (n - 1) as nat) + le32(qs[n - 1])
    }
}

pub open spec fn quads_bytes(qs: Seq<RegionQuad>, n: nat) -> Seq<u8>
    decreases n,
{
    if n == 0 {
        Seq::empty()
    } else {
        quads_bytes(qs, (n - 1) as nat) + le64(qs[n - 1].spec_pack())
    }
}

fn halves(x: u8) -> (r: u16)
    ensures
        r == halves_bits(x),
{
    let r: u16 = f16_of_halves(x as u32);
    proof {
        assert(is_halves(r, x));
        assert(is_halves(halves_bits(x), x));
        law_f16_values_are_distinct(r, halves_bits(x));
    }
    r
}

impl RegionMesh {
    pub fn quad_count(&self) -> (r: u64)
        ensures
            r == self.quads@.len(),
    {
        self.quads.len() as u64
    }

    pub fn vertex_count(&self) -> (r: u64)
        ensures
            r == self.vertices@.len(),
    {
        self.vertices.len() as u64
    }

    pub fn triangle_count(&self) -> (r: u64)
        ensures
            r == self.indices@.len(),
    {
        self.indices.len() as u64
    }

    /// The bytes of this region's image.
    pub open spec fn spec_size(&self, a: int) -> int {
        image_size(self.vertices@.len() as int, self.indices@.len() as int, self.quads@.len() as int, a)
    }

    pub fn sections(&self, align: u64) -> (r: Sections)
        requires
            power_of_two(align as int),
            self.spec_size(align as int) + align <= u64::MAX,
        ensures
            r.placed(self.vertices@.len() as int, self.indices@.len() as int, self.quads@.len() as int, align as int),
    {
        Sections::new(self.vertex_count(), self.triangle_count(), self.quad_count(), align)
    }

    /// The image: each section at its offset, zeros between.
    pub open spec fn spec_image(&self, s: Sections) -> Seq<u8> {
        let v = padded(vertices_bytes(self.vertices@, self.vertices@.len()), s.indices as nat);
        let i = padded(v + indices_bytes(self.indices@, self.indices@.len()), s.tri_quad as nat);
        let t = padded(i + owners_bytes(self.tri_quad@, self.indices@.len()), s.quads as nat);
        padded(t + quads_bytes(self.quads@, self.quads@.len()), s.total as nat)
    }

    /// The full byte image with sections aligned to `align` (at least the device's storage-buffer
    /// offset alignment).
    pub fn image(&self, align: u64) -> (r: (Sections, Vec<u8>))
        requires
            power_of_two(align as int),
            self.spec_size(align as int) + align <= u64::MAX,
            self.spec_size(align as int) <= usize::MAX,
            self.indices@.len() <= self.tri_quad@.len(),
        ensures
            r.0.placed(self.vertices@.len() as int, self.indices@.len() as int, self.quads@.len() as int, align as int),
            r.1@ == self.spec_image(r.0),
            r.1@.len() == r.0.total,
    {
        let s = self.sections(align);
        proof {
            let n = choose|n: nat| align == #[trigger] pow2(n);
            vstd::arithmetic::power2::lemma_pow2_pos(n);
            lemma_sections(
                self.vertices@.len() as int,
                self.indices@.len() as int,
                self.quads@.len() as int,
                align as int,
            );
        }
        let mut b: Vec<u8> = Vec::new();
        let nv: usize = self.vertices.len();
        let mut i: usize = 0;
        while i < nv
            invariant
                i <= nv,
                nv == self.vertices@.len(),
                b@ =~= vertices_bytes(self.vertices@, i as nat),
                b@.len() == 8 * i,
            decreases nv - i,
        {
            let p = self.vertices[i];
            push_u16(&mut b, halves(p[0]));
            push_u16(&mut b, halves(p[1]));
            push_u16(&mut b, halves(p[2]));
            push_u16(&mut b, F16_ONE);
            i += 1;
        }
        pad_to(&mut b, s.indices as usize);
        let ghost v = b@;
        let nt: usize = self.indices.len();
        let mut i: usize = 0;
        while i < nt
            invariant
                i <= nt,
                nt == self.indices@.len(),
                b@ =~= v + indices_bytes(self.indices@, i as nat),
                b@.len() == v.len() + 12 * i,
            decreases nt - i,
        {
            let t = self.indices[i];
            push_u32(&mut b, t[0]);
            push_u32(&mut b, t[1]);
            push_u32(&mut b, t[2]);
            i += 1;
        }
        pad_to(&mut b, s.tri_quad as usize);
        let ghost v = b@;
        let mut i: usize = 0;
        while i < nt
            invariant
                i <= nt,
                nt <= self.tri_quad@.len(),
                b@ =~= v + owners_bytes(self.tri_quad@, i as nat),
                b@.len() == v.len() + 4 * i,
            decreases nt - i,
        {
            push_u32(&mut b, self.tri_quad[i]);
            i += 1;
        }
        pad_to(&mut b, s.quads as usize);
        let ghost v = b@;
        let nq: usize = self.quads.len();
        let mut i: usize = 0;
        while i < nq
            invariant
                i <= nq,
                nq == self.quads@.len(),
                b@ =~= v + quads_bytes(self.quads@, i as nat),
                b@.len() == v.len() + 8 * i,
            decreases nq - i,
        {
            push_u64(&mut b, self.quads[i].pack());
            i += 1;
        }
        pad_to(&mut b, s.total as usize);
        (s, b)
    }
}

proof fn lemma_lengths(m: &RegionMesh, nv: nat, nt: nat, no: nat, nq: nat)
    ensures
        vertices_bytes(m.vertices@, nv).len() == 8 * nv,
        indices_bytes(m.indices@, nt).len() == 12 * nt,
        owners_bytes(m.tri_quad@, no).len() == 4 * no,
        quads_bytes(m.quads@, nq).len() == 8 * nq,
    decreases nv + nt + no + nq,
{
    if nv > 0 {
        lemma_lengths(m, (nv - 1) as nat, nt, no, nq);
    } else if nt > 0 {
        lemma_lengths(m, nv, (nt - 1) as nat, no, nq);
    } else if no > 0 {
        lemma_lengths(m, nv, nt, (no - 1) as nat, nq);
    } else if nq > 0 {
        lemma_lengths(m, nv, nt, no, (nq - 1) as nat);
    }
}

/// What is read from an image is what the mesh holds: each triangle's indices and quad, and each
/// packed quad, stand at their place in their section.
pub proof fn law_image_holds_the_mesh(m: &RegionMesh, s: Sections, a: int, i: int)
    requires
        a > 0,
        m.indices@.len() <= m.tri_quad@.len(),
        s.placed(m.vertices@.len() as int, m.indices@.len() as int, m.quads@.len() as int, a),
    ensures
        0 <= i < m.vertices@.len() ==> m.spec_image(s).subrange(s.vertices + 8 * i, s.vertices + 8 * i + 8) == vertex_bytes(
            m.vertices@[i],
        ),
        0 <= i < m.indices@.len() ==> m.spec_image(s).subrange(s.indices + 12 * i, s.indices + 12 * i + 12) == le32(m.indices@[i][0])
            + le32(m.indices@[i][1]) + le32(m.indices@[i][2]),
        0 <= i < m.indices@.len() ==> m.spec_image(s).subrange(s.tri_quad + 4 * i, s.tri_quad + 4 * i + 4) == le32(m.tri_quad@[i]),
        0 <= i < m.quads@.len() ==> m.spec_image(s).subrange(s.quads + 8 * i, s.quads + 8 * i + 8) == le64(m.quads@[i].spec_pack()),
{
    let (nv, nt, nq) = (m.vertices@.len(), m.indices@.len(), m.quads@.len());
    lemma_sections(nv as int, nt as int, nq as int, a);
    lemma_lengths(m, nv, nt, nt, nq);
    let v = padded(vertices_bytes(m.vertices@, nv), s.indices as nat);
    let ib = indices_bytes(m.indices@, nt);
    let x = padded(v + ib, s.tri_quad as nat);
    let ob = owners_bytes(m.tri_quad@, nt);
    let t = padded(x + ob, s.quads as nat);
    let qb = quads_bytes(m.quads@, nq);
    let all = m.spec_image(s);
    assert(all == padded(t + qb, s.total as nat));
    if 0 <= i < nv {
        lemma_vertex_at(m.vertices@, nv, i);
        assert(all.subrange(8 * i, 8 * i + 8) =~= vertices_bytes(m.vertices@, nv).subrange(8 * i, 8 * i + 8));
    }
    if 0 <= i < nt {
        lemma_index_at(m.indices@, nt, i);
        lemma_owner_at(m.tri_quad@, nt, i);
        assert(all.subrange(s.indices + 12 * i, s.indices + 12 * i + 12) =~= ib.subrange(12 * i, 12 * i + 12));
        assert(all.subrange(s.tri_quad + 4 * i, s.tri_quad + 4 * i + 4) =~= ob.subrange(4 * i, 4 * i + 4));
    }
    if 0 <= i < nq {
        lemma_quad_at(m.quads@, nq, i);
        assert(all.subrange(s.quads + 8 * i, s.quads + 8 * i + 8) =~= qb.subrange(8 * i, 8 * i + 8));
    }
}

proof fn lemma_vertex_at(vs: Seq<[u8; 3]>, n: nat, i: int)
    requires
        0 <= i < n,
    ensures
        vertices_bytes(vs, n).len() == 8 * n,
        vertices_bytes(vs, n).subrange(8 * i, 8 * i + 8) == vertex_bytes(vs[i]),
    decreases n,
{
    let a = vertices_bytes(vs, (n - 1) as nat);
    if n > 1 {
        if i < n - 1 {
            lemma_vertex_at(vs, (n - 1) as nat, i);
            assert(vertices_bytes(vs, n).subrange(8 * i, 8 * i + 8) =~= a.subrange(8 * i, 8 * i + 8));
        } else {
            lemma_vertex_at(vs, (n - 1) as nat, 0);
            assert(vertices_bytes(vs, n).subrange(8 * i, 8 * i + 8) =~= vertex_bytes(vs[i]));
        }
    } else {
        assert(a =~= Seq::<u8>::empty());
        assert(vertices_bytes(vs, n).subrange(8 * i, 8 * i + 8) =~= vertex_bytes(vs[i]));
    }
}

proof fn lemma_index_at(ts: Seq<[u32; 3]>, n: nat, i: int)
    requires
        0 <= i < n,
    ensures
        indices_bytes(ts, n).len() == 12 * n,
        indices_bytes(ts, n).subrange(12 * i, 12 * i + 12) == le32(ts[i][0]) + le32(ts[i][1]) + le32(ts[i][2]),
    decreases n,
{
    let a = indices_bytes(ts, (n - 1) as nat);
    let e = le32(ts[i][0]) + le32(ts[i][1]) + le32(ts[i][2]);
    if n > 1 {
        if i < n - 1 {
            lemma_index_at(ts, (n - 1) as nat, i);
            assert(indices_bytes(ts, n).subrange(12 * i, 12 * i + 12) =~= a.subrange(12 * i, 12 * i + 12));
        } else {
            lemma_index_at(ts, (n - 1) as nat, 0);
            assert(indices_bytes(ts, n).subrange(12 * i, 12 * i + 12) =~= e);
        }
    } else {
        assert(a =~= Seq::<u8>::empty());
        assert(indices_bytes(ts, n).subrange(12 * i, 12 * i + 12) =~= e);
    }
}

proof fn lemma_owner_at(qs: Seq<u32>, n: nat, i: int)
    requires
        0 <= i < n,
    ensures
        owners_bytes(qs, n).len() == 4 * n,
        owners_bytes(qs, n).subrange(4 * i, 4 * i + 4) == le32(qs[i]),
    decreases n,
{
    let a = owners_bytes(qs, (n - 1) as nat);
    if n > 1 {
        if i < n - 1 {
            lemma_owner_at(qs, (n - 1) as nat, i);
            assert(owners_bytes(qs, n).subrange(4 * i, 4 * i + 4) =~= a.subrange(4 * i, 4 * i + 4));
        } else {
            lemma_owner_at(qs, (n - 1) as nat, 0);
            assert(owners_bytes(qs, n).subrange(4 * i, 4 * i + 4) =~= le32(qs[i]));
        }
    } else {
        assert(a =~= Seq::<u8>::empty());
        assert(owners_bytes(qs, n).subrange(4 * i, 4 * i + 4) =~= le32(qs[i]));
    }
}

proof fn lemma_quad_at(qs: Seq<RegionQuad>, n: nat, i: int)
    requires
        0 <= i < n,
    ensures
        quads_bytes(qs, n).len() == 8 * n,
        quads_bytes(qs, n).subrange(8 * i, 8 * i + 8) == le64(qs[i].spec_pack()),
    decreases n,
{
    let a = quads_bytes(qs, (n - 1) as nat);
    if n > 1 {
        if i < n - 1 {
            lemma_quad_at(qs, (n - 1) as nat, i);
            assert(quads_bytes(qs, n).subrange(8 * i, 8 * i + 8) =~= a.subrange(8 * i, 8 * i + 8));
        } else {
            lemma_quad_at(qs, (n - 1) as nat, 0);
            assert(quads_bytes(qs, n).subrange(8 * i, 8 * i + 8) =~= le64(qs[i].spec_pack()));
        }
    } else {
        assert(a =~= Seq::<u8>::empty());
        assert(quads_bytes(qs, n).subrange(8 * i, 8 * i + 8) =~= le64(qs[i].spec_pack()));
    }
}

/// Mesh `i` goes before mesh `j`: by key, and in the order given for one key.
pub open spec fn goes_before(ms: Seq<(BrickKey, &BrickMesh)>, i: int, j: int) -> bool {
    ms[i].0.lt(ms[j].0) || (ms[i].0 == ms[j].0 && i < j)
}

/// `ord` are the meshes with quads, in order.
pub open spec fn brick_order(ms: Seq<(BrickKey, &BrickMesh)>, ord: Seq<usize>) -> bool {
    &&& forall|a: int, b: int|
        0 <= a < b < ord.len() ==> goes_before(ms, (#[trigger] ord[a]) as int, (#[trigger] ord[b]) as int)
    &&& forall|i: usize| #[trigger] ord.contains(i) <==> i < ms.len() && ms[i as int].1.quads@.len() > 0
}

/// The place of brick `k` in its region.
pub open spec fn place(k: BrickKey, size: RegionSize) -> [u8; 3] {
    let o = k.spec_origin();
    let r = RegionKey::spec_of(k, size).spec_origin(size);
    [(o.x - r.x) as u8, (o.y - r.y) as u8, (o.z - r.z) as u8]
}

/// A brick's vertex in its region.
pub open spec fn moved(v: [u8; 3], o: [u8; 3]) -> [u8; 3] {
    [(v[0] + 2 * o[0]) as u8, (v[1] + 2 * o[1]) as u8, (v[2] + 2 * o[2]) as u8]
}

pub open spec fn shifted(t: [u32; 3], base: int) -> [u32; 3] {
    [(t[0] + base) as u32, (t[1] + base) as u32, (t[2] + base) as u32]
}

/// The quads that the first `n` bricks of `ord` give region `rk`.
pub open spec fn region_quads(ms: Seq<(BrickKey, &BrickMesh)>, ord: Seq<usize>, n: nat, rk: RegionKey, size: RegionSize) -> Seq<RegionQuad>
    decreases n,
{
    if n == 0 {
        Seq::empty()
    } else {
        let before = region_quads(ms, ord, (n - 1) as nat, rk, size);
        let (k, m) = ms[ord[n - 1] as int];
        if RegionKey::spec_of(k, size) == rk {
            before + Seq::new(m.quads@.len(), |i: int| RegionQuad::spec_from_brick(m.quads@[i], place(k, size)))
        } else {
            before
        }
    }
}

/// The vertices that the first `n` bricks of `ord` give region `rk`.
pub open spec fn region_vertices(
    ms: Seq<(BrickKey, &BrickMesh)>,
    ord: Seq<usize>,
    n: nat,
    rk: RegionKey,
    size: RegionSize,
    split: Split,
) -> Seq<[u8; 3]>
    decreases n,
{
    if n == 0 {
        Seq::empty()
    } else {
        let before = region_vertices(ms, ord, (n - 1) as nat, rk, size, split);
        let (k, m) = ms[ord[n - 1] as int];
        let own = all_vertices(m.quads@, split, m.quads@.len());
        if RegionKey::spec_of(k, size) == rk {
            before + Seq::new(own.len(), |i: int| moved(own[i], place(k, size)))
        } else {
            before
        }
    }
}

/// The triangles that the first `n` bricks of `ord` give region `rk`.
pub open spec fn region_indices(
    ms: Seq<(BrickKey, &BrickMesh)>,
    ord: Seq<usize>,
    n: nat,
    rk: RegionKey,
    size: RegionSize,
    split: Split,
) -> Seq<[u32; 3]>
    decreases n,
{
    if n == 0 {
        Seq::empty()
    } else {
        let before = region_indices(ms, ord, (n - 1) as nat, rk, size, split);
        let (k, m) = ms[ord[n - 1] as int];
        let own = all_triangles(m.quads@, split, m.quads@.len());
        let base = region_vertices(ms, ord, (n - 1) as nat, rk, size, split).len() as int;
        if RegionKey::spec_of(k, size) == rk {
            before + Seq::new(own.len(), |i: int| shifted(own[i], base))
        } else {
            before
        }
    }
}

/// The quads of the triangles that the first `n` bricks of `ord` give region `rk`.
pub open spec fn region_owners(
    ms: Seq<(BrickKey, &BrickMesh)>,
    ord: Seq<usize>,
    n: nat,
    rk: RegionKey,
    size: RegionSize,
    split: Split,
) -> Seq<u32>
    decreases n,
{
    if n == 0 {
        Seq::empty()
    } else {
        let before = region_owners(ms, ord, (n - 1) as nat, rk, size, split);
        let (k, m) = ms[ord[n - 1] as int];
        let own = all_owners(m.quads@, split, m.quads@.len());
        let base = region_quads(ms, ord, (n - 1) as nat, rk, size).len() as int;
        if RegionKey::spec_of(k, size) == rk {
            before + Seq::new(own.len(), |i: int| (own[i] + base) as u32)
        } else {
            before
        }
    }
}

/// One of the first `n` bricks of `ord` is in region `rk`.
pub open spec fn has_brick(ms: Seq<(BrickKey, &BrickMesh)>, ord: Seq<usize>, n: int, rk: RegionKey, size: RegionSize) -> bool {
    exists|a: int| 0 <= a < n && RegionKey::spec_of(ms[(#[trigger] ord[a]) as int].0, size) == rk
}

/// `r` is what the first `n` bricks of `ord` make of region `rk`.
pub open spec fn is_region(
    r: RegionMesh,
    ms: Seq<(BrickKey, &BrickMesh)>,
    ord: Seq<usize>,
    n: nat,
    rk: RegionKey,
    size: RegionSize,
    split: Split,
) -> bool {
    &&& r.key == rk
    &&& r.size == size
    &&& r.quads@ == region_quads(ms, ord, n, rk, size)
    &&& r.vertices@ == region_vertices(ms, ord, n, rk, size, split)
    &&& r.indices@ == region_indices(ms, ord, n, rk, size, split)
    &&& r.tri_quad@ == region_owners(ms, ord, n, rk, size, split)
}

/// The vertices of the first `n` meshes.
pub open spec fn total_vertices(ms: Seq<(BrickKey, &BrickMesh)>, split: Split, n: nat) -> int
    decreases n,
{
    if n == 0 {
        0
    } else {
        total_vertices(ms, split, (n - 1) as nat) + mesh_vertices(ms, split, n - 1)
    }
}

pub open spec fn mesh_vertices(ms: Seq<(BrickKey, &BrickMesh)>, split: Split, i: int) -> int {
    all_vertices(ms[i].1.quads@, split, ms[i].1.quads@.len()).len() as int
}

/// The meshes can be grouped: rectangles of bricks in range, and indices that fit 32 bits.
pub open spec fn groupable(ms: Seq<(BrickKey, &BrickMesh)>, split: Split) -> bool {
    &&& forall|i: int| 0 <= i < ms.len() ==> (#[trigger] ms[i]).0.wf()
    &&& forall|i: int, j: int|
        0 <= i < ms.len() && 0 <= j < ms[i].1.quads@.len() ==> (#[trigger] ms[i].1.quads@[j]).rectangle()
    &&& forall|i: int| 0 <= i < ms.len() ==> 33 * (#[trigger] ms[i]).1.quads@.len() <= u32::MAX
    &&& total_vertices(ms, split, ms.len()) <= u32::MAX
}

/// The vertices of the meshes below `m` among the first `n` of `ord`.
spec fn picked(ms: Seq<(BrickKey, &BrickMesh)>, split: Split, ord: Seq<usize>, n: nat, m: int) -> int
    decreases n,
{
    if n == 0 {
        0
    } else {
        picked(ms, split, ord, (n - 1) as nat, m) + if ord[n - 1] < m {
            mesh_vertices(ms, split, ord[n - 1] as int)
        } else {
            0
        }
    }
}

spec fn picks(ord: Seq<usize>, n: int, m: int) -> bool {
    exists|a: int| 0 <= a < n && #[trigger] ord[a] == m
}

proof fn lemma_picked_step(ms: Seq<(BrickKey, &BrickMesh)>, split: Split, ord: Seq<usize>, n: nat, m: int)
    requires
        n <= ord.len(),
        m >= 0,
        forall|a: int, b: int| 0 <= a < b < ord.len() ==> #[trigger] ord[a] != #[trigger] ord[b],
    ensures
        picked(ms, split, ord, n, m + 1) == picked(ms, split, ord, n, m) + if picks(ord, n as int, m) {
            mesh_vertices(ms, split, m)
        } else {
            0
        },
    decreases n,
{
    if n > 0 {
        lemma_picked_step(ms, split, ord, (n - 1) as nat, m);
        if ord[n - 1] == m {
            if picks(ord, n - 1, m) {
                let a = choose|a: int| 0 <= a < n - 1 && #[trigger] ord[a] == m;
                assert(ord[a] != ord[n - 1]);
            }
            assert(picks(ord, n as int, m));
        } else {
            if picks(ord, n as int, m) {
                let a = choose|a: int| 0 <= a < n && #[trigger] ord[a] == m;
                assert(a < n - 1);
                assert(picks(ord, n - 1, m));
            }
            if picks(ord, n - 1, m) {
                let a = choose|a: int| 0 <= a < n - 1 && #[trigger] ord[a] == m;
                assert(ord[a] == m);
            }
        }
    }
}

/// Picking each mesh at most once gives no more than all of them.
proof fn lemma_picked_bound(ms: Seq<(BrickKey, &BrickMesh)>, split: Split, ord: Seq<usize>, n: nat, m: nat)
    requires
        n <= ord.len(),
        forall|a: int, b: int| 0 <= a < b < ord.len() ==> #[trigger] ord[a] != #[trigger] ord[b],
    ensures
        picked(ms, split, ord, n, m as int) <= total_vertices(ms, split, m),
    decreases m,
{
    if m > 0 {
        lemma_picked_bound(ms, split, ord, n, (m - 1) as nat);
        lemma_picked_step(ms, split, ord, n, m - 1);
    } else {
        lemma_picked_none(ms, split, ord, n);
    }
}

proof fn lemma_picked_none(ms: Seq<(BrickKey, &BrickMesh)>, split: Split, ord: Seq<usize>, n: nat)
    ensures
        picked(ms, split, ord, n, 0) == 0,
    decreases n,
{
    if n > 0 {
        lemma_picked_none(ms, split, ord, (n - 1) as nat);
    }
}

/// A region has no more vertices than all meshes together, and a vertex for every quad.
proof fn lemma_region_bounds(
    ms: Seq<(BrickKey, &BrickMesh)>,
    ord: Seq<usize>,
    n: nat,
    rk: RegionKey,
    size: RegionSize,
    split: Split,
)
    requires
        groupable(ms, split),
        brick_order(ms, ord),
        n <= ord.len(),
    ensures
        region_vertices(ms, ord, n, rk, size, split).len() <= u32::MAX,
        region_quads(ms, ord, n, rk, size).len() <= region_vertices(ms, ord, n, rk, size, split).len(),
        region_indices(ms, ord, n, rk, size, split).len() == region_owners(ms, ord, n, rk, size, split).len(),
        has_brick(ms, ord, n as int, rk, size) ==> region_quads(ms, ord, n, rk, size).len() > 0,
{
    assert forall|a: int, b: int| 0 <= a < b < ord.len() implies #[trigger] ord[a] != #[trigger] ord[b] by {
        assert(goes_before(ms, ord[a] as int, ord[b] as int));
        BrickKey::lt_irreflexive(ms[ord[a] as int].0);
    }
    lemma_region_counts(ms, ord, n, rk, size, split);
    lemma_picked_bound(ms, split, ord, n, ms.len());
}

proof fn lemma_region_counts(
    ms: Seq<(BrickKey, &BrickMesh)>,
    ord: Seq<usize>,
    n: nat,
    rk: RegionKey,
    size: RegionSize,
    split: Split,
)
    requires
        groupable(ms, split),
        brick_order(ms, ord),
        n <= ord.len(),
    ensures
        region_vertices(ms, ord, n, rk, size, split).len() <= picked(ms, split, ord, n, ms.len() as int),
        region_quads(ms, ord, n, rk, size).len() <= region_vertices(ms, ord, n, rk, size, split).len(),
        region_indices(ms, ord, n, rk, size, split).len() == region_owners(ms, ord, n, rk, size, split).len(),
        has_brick(ms, ord, n as int, rk, size) ==> region_quads(ms, ord, n, rk, size).len() > 0,
    decreases n,
{
    if n > 0 {
        lemma_region_counts(ms, ord, (n - 1) as nat, rk, size, split);
        let i = ord[n - 1];
        assert(ord.contains(i));
        let m = ms[i as int].1;
        assert(33 * ms[i as int].1.quads@.len() <= u32::MAX);
        assert forall|j: int| 0 <= j < m.quads@.len() implies (#[trigger] m.quads@[j]).rectangle() by {
            assert(ms[i as int].1.quads@[j].rectangle());
        }
        lemma_vertex_count(m.quads@, split, m.quads@.len());
        law_triangles_lie_on_their_quads(m.quads@, split, m.quads@.len());
        if has_brick(ms, ord, n as int, rk, size) {
            let a = choose|a: int| 0 <= a < n && RegionKey::spec_of(ms[(#[trigger] ord[a]) as int].0, size) == rk;
            if a < n - 1 {
                assert(has_brick(ms, ord, n - 1, rk, size));
            }
        }
    }
}

/// The meshes with quads, in order.
fn sort_bricks(ms: &Vec<(BrickKey, &BrickMesh)>) -> (ord: Vec<usize>)
    ensures
        brick_order(ms@, ord@),
{
    let mut ord: Vec<usize> = Vec::new();
    let n: usize = ms.len();
    let mut i: usize = 0;
    while i < n
        invariant
            i <= n,
            n == ms@.len(),
            forall|a: int, b: int|
                0 <= a < b < ord@.len() ==> goes_before(ms@, (#[trigger] ord@[a]) as int, (#[trigger] ord@[b]) as int),
            forall|j: usize| #[trigger] ord@.contains(j) <==> j < i && ms@[j as int].1.quads@.len() > 0,
        decreases n - i,
    {
        if ms[i].1.quads.len() > 0 {
            let key = ms[i].0;
            let mut p: usize = 0;
            assert forall|a: int| 0 <= a < ord@.len() implies (#[trigger] ord@[a]) < i by {
                assert(ord@.contains(ord@[a]));
            }
            while p < ord.len() && !key.before(&ms[ord[p]].0)
                invariant
                    p <= ord@.len(),
                    i < n,
                    n == ms@.len(),
                    key == ms@[i as int].0,
                    forall|j: usize| #[trigger] ord@.contains(j) <==> j < i && ms@[j as int].1.quads@.len() > 0,
                    forall|a: int| 0 <= a < ord@.len() ==> (#[trigger] ord@[a]) < i,
                    forall|a: int| 0 <= a < p ==> !key.lt(ms@[(#[trigger] ord@[a]) as int].0),
                decreases ord@.len() - p,
            {
                p += 1;
            }
            let ghost was = ord@;
            ord.insert(p, i);
            proof {
                let now = ord@;
                assert(now =~= was.insert(p as int, i));
                assert forall|a: int, b: int| 0 <= a < b < now.len() implies goes_before(
                    ms@,
                    (#[trigger] now[a]) as int,
                    (#[trigger] now[b]) as int,
                ) by {
                    let x = if a < p {
                        a
                    } else {
                        a - 1
                    };
                    let y = if b < p {
                        b
                    } else {
                        b - 1
                    };
                    if a == p {
                        assert(now[b] == was[y]);
                        if y > p {
                            assert(goes_before(ms@, was[p as int] as int, was[y] as int));
                            if ms@[was[p as int] as int].0.lt(ms@[was[y] as int].0) {
                                BrickKey::lt_transitive(key, ms@[was[p as int] as int].0, ms@[was[y] as int].0);
                            }
                        }
                    } else if b == p {
                        assert(now[a] == was[a]);
                        assert(was.contains(was[a]));
                        assert(!key.lt(ms@[was[a] as int].0));
                        BrickKey::lt_total(key, ms@[was[a] as int].0);
                    } else {
                        assert(now[a] == was[x] && now[b] == was[y]);
                        assert(goes_before(ms@, was[x] as int, was[y] as int));
                    }
                }
                assert forall|j: usize| #[trigger] now.contains(j) <==> j < i + 1 && ms@[j as int].1.quads@.len() > 0 by {
                    if now.contains(j) {
                        let a = choose|a: int| 0 <= a < now.len() && now[a] == j;
                        if a < p {
                            assert(was[a] == j);
                            assert(was.contains(j));
                        } else if a > p {
                            assert(was[a - 1] == j);
                            assert(was.contains(j));
                        }
                    }
                    if was.contains(j) {
                        let a = choose|a: int| 0 <= a < was.len() && was[a] == j;
                        if a < p {
                            assert(now[a] == j);
                        } else {
                            assert(now[a + 1] == j);
                        }
                    }
                    if j == i {
                        assert(now[p as int] == i);
                    }
                }
            }
        }
        i += 1;
    }
    ord
}

impl RegionMesh {
    /// Adds a brick's mesh.
    fn add_brick(&mut self, key: BrickKey, mesh: &BrickMesh, split: Split)
        requires
            key.wf(),
            old(self).key == RegionKey::spec_of(key, old(self).size),
            forall|j: int| 0 <= j < mesh.quads@.len() ==> (#[trigger] mesh.quads@[j]).rectangle(),
            33 * mesh.quads@.len() <= u32::MAX,
            old(self).vertices@.len() + all_vertices(mesh.quads@, split, mesh.quads@.len()).len() <= u32::MAX,
            old(self).quads@.len() <= old(self).vertices@.len(),
        ensures
            final(self).key == old(self).key,
            final(self).size == old(self).size,
            ({
                let o = place(key, old(self).size);
                let v = all_vertices(mesh.quads@, split, mesh.quads@.len());
                let t = all_triangles(mesh.quads@, split, mesh.quads@.len());
                let w = all_owners(mesh.quads@, split, mesh.quads@.len());
                let (vb, qb) = (old(self).vertices@.len() as int, old(self).quads@.len() as int);
                &&& final(self).quads@ == old(self).quads@ + Seq::new(
                    mesh.quads@.len(),
                    |i: int| RegionQuad::spec_from_brick(mesh.quads@[i], o),
                )
                &&& final(self).vertices@ == old(self).vertices@ + Seq::new(v.len(), |i: int| moved(v[i], o))
                &&& final(self).indices@ == old(self).indices@ + Seq::new(t.len(), |i: int| shifted(t[i], vb))
                &&& final(self).tri_quad@ == old(self).tri_quad@ + Seq::new(w.len(), |i: int| (w[i] + qb) as u32)
            }),
    {
        let ghost before = *self;
        let nq: usize = mesh.quads.len();
        let ghost v = all_vertices(mesh.quads@, split, mesh.quads@.len());
        let ghost ts = all_triangles(mesh.quads@, split, mesh.quads@.len());
        let ghost ws = all_owners(mesh.quads@, split, mesh.quads@.len());
        proof {
            law_region_holds_its_bricks(key, self.size);
            lemma_vertex_count(mesh.quads@, split, mesh.quads@.len());
            law_triangles_lie_on_their_quads(mesh.quads@, split, mesh.quads@.len());
            lemma_vertices_in_range(mesh.quads@, split, mesh.quads@.len());
        }
        let o = key.origin();
        let ro = self.key.origin(self.size);
        let off = [(o.x - ro.x) as u8, (o.y - ro.y) as u8, (o.z - ro.z) as u8];
        assert(off =~= place(key, self.size));
        let t = mesh.triangulate(split);
        let vbase: u32 = self.vertices.len() as u32;
        let qbase: u32 = self.quads.len() as u32;
        let mut i: usize = 0;
        while i < t.vertices.len()
            invariant
                i <= v.len(),
                v == t.vertices@,
                off[0] <= 56,
                off[1] <= 56,
                off[2] <= 56,
                forall|j: int| 0 <= j < v.len() ==> (#[trigger] v[j])[0] <= 16 && v[j][1] <= 16 && v[j][2] <= 16,
                self.key == before.key,
                self.size == before.size,
                self.quads == before.quads,
                self.indices == before.indices,
                self.tri_quad == before.tri_quad,
                self.vertices@ =~= before.vertices@ + Seq::new(i as nat, |j: int| moved(v[j], off)),
            decreases v.len() - i,
        {
            let p = t.vertices[i];
            assert(v[i as int] == p);
            let q = [p[0] + 2 * off[0], p[1] + 2 * off[1], p[2] + 2 * off[2]];
            assert(q =~= moved(p, off));
            self.vertices.push(q);
            i += 1;
        }
        let mut i: usize = 0;
        while i < t.indices.len()
            invariant
                i <= ts.len(),
                ts == t.indices@,
                forall|j: int, c: int| 0 <= j < ts.len() && 0 <= c < 3 ==> #[trigger] corner_on_quad(mesh.quads@, split, mesh.quads@.len(), j, c),
                ts == all_triangles(mesh.quads@, split, mesh.quads@.len()),
                v == all_vertices(mesh.quads@, split, mesh.quads@.len()),
                vbase + v.len() <= u32::MAX,
                self.key == before.key,
                self.size == before.size,
                self.quads == before.quads,
                self.tri_quad == before.tri_quad,
                self.vertices@ == before.vertices@ + Seq::new(v.len(), |j: int| moved(v[j], off)),
                self.indices@ =~= before.indices@ + Seq::new(i as nat, |j: int| shifted(ts[j], vbase as int)),
            decreases ts.len() - i,
        {
            let p = t.indices[i];
            proof {
                assert(ts[i as int] == p);
                assert(corner_on_quad(mesh.quads@, split, mesh.quads@.len(), i as int, 0));
                assert(corner_on_quad(mesh.quads@, split, mesh.quads@.len(), i as int, 1));
                assert(corner_on_quad(mesh.quads@, split, mesh.quads@.len(), i as int, 2));
            }
            let q = [p[0] + vbase, p[1] + vbase, p[2] + vbase];
            assert(q =~= shifted(p, vbase as int));
            self.indices.push(q);
            i += 1;
        }
        let mut i: usize = 0;
        while i < t.quad.len()
            invariant
                i <= ws.len(),
                ws == t.quad@,
                ws == all_owners(mesh.quads@, split, mesh.quads@.len()),
                ws.len() == ts.len(),
                ts == all_triangles(mesh.quads@, split, mesh.quads@.len()),
                forall|j: int, c: int| 0 <= j < ts.len() && 0 <= c < 3 ==> #[trigger] corner_on_quad(mesh.quads@, split, mesh.quads@.len(), j, c),
                qbase + mesh.quads@.len() <= u32::MAX,
                self.key == before.key,
                self.size == before.size,
                self.quads == before.quads,
                self.vertices@ == before.vertices@ + Seq::new(v.len(), |j: int| moved(v[j], off)),
                self.indices@ == before.indices@ + Seq::new(ts.len(), |j: int| shifted(ts[j], vbase as int)),
                self.tri_quad@ =~= before.tri_quad@ + Seq::new(i as nat, |j: int| (ws[j] + qbase) as u32),
            decreases ws.len() - i,
        {
            proof {
                assert(corner_on_quad(mesh.quads@, split, mesh.quads@.len(), i as int, 0));
            }
            self.tri_quad.push(t.quad[i] + qbase);
            i += 1;
        }
        let mut i: usize = 0;
        while i < nq
            invariant
                i <= nq,
                nq == mesh.quads@.len(),
                off[0] <= 56,
                off[1] <= 56,
                off[2] <= 56,
                forall|j: int| 0 <= j < mesh.quads@.len() ==> (#[trigger] mesh.quads@[j]).rectangle(),
                self.key == before.key,
                self.size == before.size,
                self.vertices@ == before.vertices@ + Seq::new(v.len(), |j: int| moved(v[j], off)),
                self.indices@ == before.indices@ + Seq::new(ts.len(), |j: int| shifted(ts[j], vbase as int)),
                self.tri_quad@ == before.tri_quad@ + Seq::new(ws.len(), |j: int| (ws[j] + qbase) as u32),
                self.quads@ =~= before.quads@ + Seq::new(i as nat, |j: int| RegionQuad::spec_from_brick(mesh.quads@[j], off)),
            decreases nq - i,
        {
            assert(mesh.quads@[i as int].rectangle());
            self.quads.push(RegionQuad::from_brick(mesh.quads[i], off));
            i += 1;
        }
    }
}

/// A brick's vertices lie in the brick.
proof fn lemma_vertices_in_range(quads: Seq<Quad>, split: Split, n: nat)
    requires
        n <= quads.len(),
        forall|i: int| 0 <= i < quads.len() ==> (#[trigger] quads[i]).rectangle(),
    ensures
        forall|j: int|
            0 <= j < all_vertices(quads, split, n).len() ==> (#[trigger] all_vertices(quads, split, n)[j])[0] <= 16 && all_vertices(
                quads,
                split,
                n,
            )[j][1] <= 16 && all_vertices(quads, split, n)[j][2] <= 16,
    decreases n,
{
    if n > 0 {
        lemma_vertices_in_range(quads, split, (n - 1) as nat);
        let q = quads[n - 1];
        let a = all_vertices(quads, split, (n - 1) as nat);
        let b = quad_vertices(quads, split, q);
        lemma_quad_vertices_on_quad(quads, split, q);
        assert forall|j: int| 0 <= j < (a + b).len() implies (#[trigger] (a + b)[j])[0] <= 16 && (a + b)[j][1] <= 16 && (a + b)[j][2] <= 16 by {
            if j >= a.len() {
                assert(on_quad(q, b[j - a.len()]));
                assert((a + b)[j] == b[j - a.len()]);
            } else {
                assert((a + b)[j] == a[j]);
            }
        }
    }
}

/// Groups brick meshes into regions with the watertight triangulation. Regions without quads are
/// omitted.
pub fn build_regions(meshes: &Vec<(BrickKey, &BrickMesh)>, size: RegionSize) -> (r: SortedMap<RegionKey, RegionMesh>)
    requires
        groupable(meshes@, Split::Watertight),
    ensures
        r.wf(),
        exists|ord: Seq<usize>| #[trigger] brick_order(meshes@, ord) && grouped(r@, meshes@, ord, ord.len(), size, Split::Watertight),
{
    build_regions_with(meshes, size, Split::Watertight)
}

/// `regions` are what the first `n` bricks of `ord` make.
pub open spec fn grouped(
    regions: Map<RegionKey, RegionMesh>,
    ms: Seq<(BrickKey, &BrickMesh)>,
    ord: Seq<usize>,
    n: nat,
    size: RegionSize,
    split: Split,
) -> bool {
    &&& forall|rk: RegionKey| #[trigger] regions.dom().contains(rk) <==> has_brick(ms, ord, n as int, rk, size)
    &&& forall|rk: RegionKey| #[trigger] regions.dom().contains(rk) ==> is_region(regions[rk], ms, ord, n, rk, size, split)
}

/// `build_regions` with an explicit split rule; `Split::CornersOnly` is for negative controls.
pub fn build_regions_with(meshes: &Vec<(BrickKey, &BrickMesh)>, size: RegionSize, split: Split) -> (r: SortedMap<
    RegionKey,
    RegionMesh,
>)
    requires
        groupable(meshes@, split),
    ensures
        r.wf(),
        exists|ord: Seq<usize>| #[trigger] brick_order(meshes@, ord) && grouped(r@, meshes@, ord, ord.len(), size, split),
{
    let ord = sort_bricks(meshes);
    let mut regions: SortedMap<RegionKey, RegionMesh> = SortedMap::new();
    let ghost ms = meshes@;
    let n: usize = ord.len();
    let mut i: usize = 0;
    while i < n
        invariant
            i <= n,
            n == ord@.len(),
            ms == meshes@,
            groupable(ms, split),
            brick_order(ms, ord@),
            regions.wf(),
            grouped(regions@, ms, ord@, i as nat, size, split),
        decreases n - i,
    {
        let at: usize = ord[i];
        assert(ord@.contains(at)) by {
            assert(ord@[i as int] == at);
        }
        let key = meshes[at].0;
        let mesh = meshes[at].1;
        assert(ms[at as int].0.wf());
        let rk = RegionKey::of(key, size);
        let ghost was = regions@;
        let mut r = match regions.remove(&rk) {
            Some(r) => r,
            None => RegionMesh {
                key: rk,
                size,
                quads: Vec::new(),
                vertices: Vec::new(),
                indices: Vec::new(),
                tri_quad: Vec::new(),
            },
        };
        proof {
            if !was.dom().contains(rk) {
                lemma_no_brick(ms, ord@, i as nat, rk, size, split);
            }
            assert(is_region(r, ms, ord@, i as nat, rk, size, split));
            lemma_region_bounds(ms, ord@, (i + 1) as nat, rk, size, split);
            lemma_region_bounds(ms, ord@, i as nat, rk, size, split);
            assert forall|j: int| 0 <= j < mesh.quads@.len() implies (#[trigger] mesh.quads@[j]).rectangle() by {
                assert(ms[at as int].1.quads@[j].rectangle());
            }
            assert(33 * ms[at as int].1.quads@.len() <= u32::MAX);
        }
        r.add_brick(key, mesh, split);
        let ghost new = r;
        regions.insert(rk, r);
        proof {
            assert(is_region(new, ms, ord@, (i + 1) as nat, rk, size, split));
            lemma_brick_added(was, regions@, ms, ord@, i as int, rk, new, size, split);
        }
        i += 1;
    }
    regions
}

/// One more brick changes its region alone.
proof fn lemma_brick_added(
    was: Map<RegionKey, RegionMesh>,
    now: Map<RegionKey, RegionMesh>,
    ms: Seq<(BrickKey, &BrickMesh)>,
    ord: Seq<usize>,
    i: int,
    rk: RegionKey,
    new: RegionMesh,
    size: RegionSize,
    split: Split,
)
    requires
        0 <= i < ord.len(),
        grouped(was, ms, ord, i as nat, size, split),
        rk == RegionKey::spec_of(ms[ord[i] as int].0, size),
        now == was.remove(rk).insert(rk, new),
        is_region(new, ms, ord, (i + 1) as nat, rk, size, split),
    ensures
        grouped(now, ms, ord, (i + 1) as nat, size, split),
{
    assert forall|x: RegionKey| #[trigger] now.dom().contains(x) <==> has_brick(ms, ord, i + 1, x, size) by {
        if has_brick(ms, ord, i, x, size) {
            let a = choose|a: int| 0 <= a < i && RegionKey::spec_of(ms[(#[trigger] ord[a]) as int].0, size) == x;
            assert(RegionKey::spec_of(ms[ord[a] as int].0, size) == x);
        }
        if has_brick(ms, ord, i + 1, x, size) && x != rk {
            let a = choose|a: int| 0 <= a < i + 1 && RegionKey::spec_of(ms[(#[trigger] ord[a]) as int].0, size) == x;
            assert(a < i);
            assert(was.dom().contains(x));
        }
        if x == rk {
            assert(RegionKey::spec_of(ms[ord[i] as int].0, size) == x);
        }
    }
    assert forall|x: RegionKey| #[trigger] now.dom().contains(x) implies is_region(now[x], ms, ord, (i + 1) as nat, x, size, split) by {
        if x != rk {
            assert(was.dom().contains(x));
        }
    }
}

proof fn lemma_no_brick(ms: Seq<(BrickKey, &BrickMesh)>, ord: Seq<usize>, n: nat, rk: RegionKey, size: RegionSize, split: Split)
    requires
        !has_brick(ms, ord, n as int, rk, size),
    ensures
        region_quads(ms, ord, n, rk, size) == Seq::<RegionQuad>::empty(),
        region_vertices(ms, ord, n, rk, size, split) == Seq::<[u8; 3]>::empty(),
        region_indices(ms, ord, n, rk, size, split) == Seq::<[u32; 3]>::empty(),
        region_owners(ms, ord, n, rk, size, split) == Seq::<u32>::empty(),
    decreases n,
{
    if n > 0 {
        if has_brick(ms, ord, n - 1, rk, size) {
            let a = choose|a: int| 0 <= a < n - 1 && RegionKey::spec_of(ms[(#[trigger] ord[a]) as int].0, size) == rk;
            assert(RegionKey::spec_of(ms[ord[a] as int].0, size) == rk);
        }
        lemma_no_brick(ms, ord, (n - 1) as nat, rk, size, split);
        assert(RegionKey::spec_of(ms[ord[n - 1] as int].0, size) != rk);
    }
}

/// Grouping keeps every mesh with quads, and a region is never empty.
pub proof fn law_no_brick_is_lost(
    regions: Map<RegionKey, RegionMesh>,
    ms: Seq<(BrickKey, &BrickMesh)>,
    ord: Seq<usize>,
    size: RegionSize,
    split: Split,
    i: usize,
)
    requires
        groupable(ms, split),
        brick_order(ms, ord),
        grouped(regions, ms, ord, ord.len(), size, split),
    ensures
        i < ms.len() && ms[i as int].1.quads@.len() > 0 ==> regions.dom().contains(RegionKey::spec_of(ms[i as int].0, size)),
        forall|rk: RegionKey| #[trigger] regions.dom().contains(rk) ==> regions[rk].quads@.len() > 0,
{
    if i < ms.len() && ms[i as int].1.quads@.len() > 0 {
        assert(ord.contains(i));
        let a = choose|a: int| 0 <= a < ord.len() && ord[a] == i;
        assert(has_brick(ms, ord, ord.len() as int, RegionKey::spec_of(ms[i as int].0, size), size));
    }
    assert forall|rk: RegionKey| #[trigger] regions.dom().contains(rk) implies regions[rk].quads@.len() > 0 by {
        lemma_region_bounds(ms, ord, ord.len(), rk, size, split);
        assert(is_region(regions[rk], ms, ord, ord.len(), rk, size, split));
    }
}

/// Each field of a packed quad stands above the ones in front of it: the material in 16 bits, the face in three, and the
/// plane and the sides, u before v and low before high, in seven each.
pub proof fn law_packed_fields_have_their_places(q: RegionQuad)
    requires
        q.packable(),
    ensures
        q.spec_pack() == q.material + 0x1_0000 * (q.face + 8 * (q.plane + 128 * (q.u0 + 128 * (q.v0 + 128 * (q.u1 + 128 * q.v1))))),
{
    let (m, f, p, a, b, c, d) = (
        q.material as u64,
        q.face as u64,
        q.plane as u64,
        q.u0 as u64,
        q.v0 as u64,
        q.u1 as u64,
        q.v1 as u64,
    );
    assert(m << 0u32 | f << 16u32 | p << 19u32 | a << 26u32 | b << 33u32 | c << 40u32 | d << 47u32 == m + 0x1_0000 * (f + 8 * (p + 128 * (a + 128 * (b
        + 128 * (c + 128 * d)))))) by (bit_vector)
        requires
            m < 0x1_0000,
            f < 8,
            p < 128,
            a < 128,
            b < 128,
            c < 128,
            d < 128,
    ;
}

/// A corner has the quad's plane along the face's axis, and `u` and `v` along the two axes behind it, in turn.
pub proof fn law_corners_lie_on_their_plane(q: RegionQuad, u: u8, v: u8)
    requires
        q.face < 6,
    ensures
        ({
            let a = q.face as int / 2;
            let c = q.spec_corner(u, v);
            &&& c[a] == q.plane
            &&& c[(a + 1) % 3] == u
            &&& c[(a + 2) % 3] == v
        }),
{
}

/// No section starts later than its alignment makes it, nor is the whole image longer.
pub proof fn law_sections_waste_less_than_an_alignment(s: Sections, vertices: u64, triangles: u64, quads: u64, a: u64)
    requires
        a > 0,
        s.placed(vertices as int, triangles as int, quads as int, a as int),
    ensures
        s.vertices == 0,
        s.indices < 8 * vertices + a,
        s.tri_quad < s.indices + 12 * triangles + a,
        s.quads < s.tri_quad + 4 * triangles + a,
        s.total < s.quads + 8 * quads + a || s.total == a,
        s.total >= a,
{
    lemma_round_up(8 * vertices, a as int);
    lemma_round_up(s.indices + 12 * triangles, a as int);
    lemma_round_up(s.tri_quad + 4 * triangles, a as int);
    lemma_round_up(s.quads + 8 * quads, a as int);
}

/// Vertex `i` of an image is three half floats, which have half as many voxels as its coordinates in turn, and one.
/// `x`, `y` and `z` are those floats.
pub proof fn law_image_vertices_are_half_floats(m: &RegionMesh, s: Sections, a: int, i: int, x: u16, y: u16, z: u16)
    requires
        a > 0,
        m.indices@.len() <= m.tri_quad@.len(),
        s.placed(m.vertices@.len() as int, m.indices@.len() as int, m.quads@.len() as int, a),
        0 <= i < m.vertices@.len(),
        x < 0x7C00 && f16_scaled(x) == m.vertices@[i][0] * 0x80_0000,
        y < 0x7C00 && f16_scaled(y) == m.vertices@[i][1] * 0x80_0000,
        z < 0x7C00 && f16_scaled(z) == m.vertices@[i][2] * 0x80_0000,
    ensures
        m.spec_image(s).subrange(8 * i, 8 * i + 8) == seq![
            (x % 256) as u8,
            (x / 256) as u8,
            (y % 256) as u8,
            (y / 256) as u8,
            (z % 256) as u8,
            (z / 256) as u8,
            0x00u8,
            0x3Cu8,
        ],
{
    law_image_holds_the_mesh(m, s, a, i);
    let p = m.vertices@[i];
    assert(is_halves(x, p[0]) && is_halves(y, p[1]) && is_halves(z, p[2]));
    law_f16_values_are_distinct(x, halves_bits(p[0]));
    law_f16_values_are_distinct(y, halves_bits(p[1]));
    law_f16_values_are_distinct(z, halves_bits(p[2]));
    assert(vertex_bytes(p) =~= seq![
        (x % 256) as u8,
        (x / 256) as u8,
        (y % 256) as u8,
        (y / 256) as u8,
        (z % 256) as u8,
        (z / 256) as u8,
        0x00u8,
        0x3Cu8,
    ]);
}

/// A vertex of a brick, in halves of voxels, has the same place in the world as one of the brick's region.
pub proof fn law_region_vertices_keep_their_world_place(k: BrickKey, size: RegionSize, v: [u8; 3])
    requires
        k.wf(),
        v[0] <= 16,
        v[1] <= 16,
        v[2] <= 16,
    ensures
        ({
            let o = RegionKey::spec_of(k, size).spec_origin(size);
            let w = moved(v, place(k, size));
            &&& 2 * o.x + w[0] == 2 * k.spec_origin().x + v[0]
            &&& 2 * o.y + w[1] == 2 * k.spec_origin().y + v[1]
            &&& 2 * o.z + w[2] == 2 * k.spec_origin().z + v[2]
        }),
{
    law_region_holds_its_bricks(k, size);
}

/// A brick adds to its region alone: behind what the region has, its quads and vertices moved to their place, and its
/// triangles, each over the same corners and of the same quad as in the brick. Other regions stay as they are.
pub proof fn law_regions_grow_by_their_bricks(
    ms: Seq<(BrickKey, &BrickMesh)>,
    ord: Seq<usize>,
    n: nat,
    rk: RegionKey,
    size: RegionSize,
    split: Split,
    i: int,
    c: int,
)
    requires
        0 < n <= ord.len(),
        region_vertices(ms, ord, n, rk, size, split).len() <= u32::MAX,
        region_quads(ms, ord, n, rk, size).len() <= u32::MAX,
        0 <= c < 3,
    ensures
        ({
            let (k, m) = ms[ord[n - 1] as int];
            let mine = RegionKey::spec_of(k, size) == rk;
            let (own_v, own_t, own_q) = (
                all_vertices(m.quads@, split, m.quads@.len()),
                all_triangles(m.quads@, split, m.quads@.len()),
                all_owners(m.quads@, split, m.quads@.len()),
            );
            let (was_v, v) = (region_vertices(ms, ord, (n - 1) as nat, rk, size, split), region_vertices(ms, ord, n, rk, size, split));
            let (was_t, t) = (region_indices(ms, ord, (n - 1) as nat, rk, size, split), region_indices(ms, ord, n, rk, size, split));
            let (was_o, o) = (region_owners(ms, ord, (n - 1) as nat, rk, size, split), region_owners(ms, ord, n, rk, size, split));
            let (was_q, q) = (region_quads(ms, ord, (n - 1) as nat, rk, size), region_quads(ms, ord, n, rk, size));
            &&& was_v.is_prefix_of(v) && was_t.is_prefix_of(t) && was_o.is_prefix_of(o) && was_q.is_prefix_of(q)
            &&& !mine ==> v == was_v && t == was_t && o == was_o && q == was_q
            &&& mine ==> {
                &&& v.len() == was_v.len() + own_v.len() && t.len() == was_t.len() + own_t.len()
                &&& o.len() == was_o.len() + own_q.len() && q.len() == was_q.len() + m.quads@.len()
                &&& 0 <= i < own_v.len() ==> v[was_v.len() + i] == moved(own_v[i], place(k, size))
                &&& 0 <= i < own_t.len() && own_t[i][c] < own_v.len() ==> v[t[was_t.len() + i][c] as int] == moved(own_v[own_t[i][c] as int], place(k, size))
                &&& 0 <= i < own_q.len() && own_q[i] < m.quads@.len() ==> q[o[was_o.len() + i] as int] == RegionQuad::spec_from_brick(
                    m.quads@[own_q[i] as int],
                    place(k, size),
                )
            }
        }),
{
    assert(c == 0 || c == 1 || c == 2);
}

} // verus!
