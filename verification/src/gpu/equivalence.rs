//! The per-pixel equivalence check between a rendered frame and the voxel reference, and between two
//! rendered frames.
//!
//! - A pixel is *near an edge* when a probe ray beside its centre resolves to another face, or to
//!   none: there the two may legitimately resolve to neighbouring voxels. Such pixels skip the exact
//!   checks and are counted, never hidden.
//! - A pixel whose reference rays all hit the same face plane lies inside one continuous surface.
//!   There, no surface drawn, or only a different surface that is too far, is a crack, whether or not
//!   the pixel is near an edge.
//! - A surface on the reference's own plane that is too far is no crack; it is counted apart.
//! - All other hit pixels must show the reference's material, normal, and resolved voxel and face.
//!
//! Distances are measured by the caller; what they decide comes in as a [`Measure`].
use crate::gpu::layout::{RegionKey, RegionMesh, RegionQuad};
use crate::gpu::raster::{Frame, BACKGROUND_WORD};
use crate::sorted::SortedMap;
use crate::world::{Face, VoxelCoord};
use vstd::prelude::*;

verus! {

/// A voxel's coordinate along an axis.
pub open spec fn coord(v: VoxelCoord, axis: u8) -> i32 {
    if axis == 0 {
        v.x
    } else if axis == 1 {
        v.y
    } else {
        v.z
    }
}

fn coordinate(v: VoxelCoord, axis: u8) -> (r: i32)
    ensures
        r == coord(v, axis),
{
    if axis == 0 {
        v.x
    } else if axis == 1 {
        v.y
    } else {
        v.z
    }
}

/// The bits of a face's octahedral normal as two signed 16-bit fractions.
pub open spec fn spec_normal_bits(face: Face) -> (i16, i16) {
    if face.axis == 0 {
        if face.positive {
            (32767, 0)
        } else {
            ((-32767) as i16, 0)
        }
    } else if face.axis == 1 {
        if face.positive {
            (0, 32767)
        } else {
            (0, (-32767) as i16)
        }
    } else {
        if face.positive {
            (0, 0)
        } else {
            (32767, 32767)
        }
    }
}

/// The bits that the normal target must hold for a face.
pub fn normal_bits(face: Face) -> (r: [i16; 2])
    requires
        face.axis < 3,
    ensures
        (r[0], r[1]) == spec_normal_bits(face),
{
    if face.axis == 0 {
        if face.positive {
            [32767, 0]
        } else {
            [-32767, 0]
        }
    } else if face.axis == 1 {
        if face.positive {
            [0, 32767]
        } else {
            [0, -32767]
        }
    } else {
        if face.positive {
            [0, 0]
        } else {
            [32767, 32767]
        }
    }
}

/// Different faces have different normal bits.
pub proof fn law_normal_bits_tell_faces_apart(a: Face, b: Face)
    requires
        a.axis < 3,
        b.axis < 3,
        spec_normal_bits(a) == spec_normal_bits(b),
    ensures
        a == b,
{
}

/// What one reference ray hit.
#[derive(Clone, Copy, Debug, PartialEq, Eq, Structural)]
pub struct Sample {
    pub voxel: VoxelCoord,
    pub material: u16,
    pub face: Face,
}

/// The plane of a voxel's face: its axis, which way it faces, and its coordinate.
pub open spec fn plane_at(voxel: VoxelCoord, face: Face) -> (u8, bool, int) {
    (
        face.axis,
        face.positive,
        coord(voxel, face.axis) + if face.positive {
            1int
        } else {
            0
        },
    )
}

/// The plane's coordinate is one of a voxel.
pub open spec fn planar(voxel: VoxelCoord, face: Face) -> bool {
    face.axis < 3 && (face.positive ==> coord(voxel, face.axis) < i32::MAX)
}

/// The plane of a voxel's face: its axis, which way it faces, and its coordinate.
pub fn plane_of(voxel: VoxelCoord, face: Face) -> (r: (u8, bool, i32))
    requires
        planar(voxel, face),
    ensures
        (r.0, r.1, r.2 as int) == plane_at(voxel, face),
{
    let c: i32 = coordinate(voxel, face.axis);
    (
        face.axis,
        face.positive,
        if face.positive {
            c + 1
        } else {
            c
        },
    )
}

impl Sample {
    /// The plane of the face that was hit.
    pub fn plane(&self) -> (r: (u8, bool, i32))
        requires
            planar(self.voxel, self.face),
        ensures
            (r.0, r.1, r.2 as int) == plane_at(self.voxel, self.face),
    {
        plane_of(self.voxel, self.face)
    }
}

/// A reference ray's result.
#[derive(Clone, Copy, Debug, PartialEq, Eq, Structural)]
pub enum Probe {
    Miss,
    Hit(Sample),
    /// The ray starts inside a voxel: there is no face to compare.
    Inside,
}

/// The reference of one pixel.
#[derive(Clone, Copy, Debug, PartialEq, Eq)]
pub struct RefPixel {
    pub centre: Option<Sample>,
    pub near_edge: bool,
    /// All five rays hit the same face plane.
    pub same_plane: bool,
}

/// What a ray hit, if it hit a face.
pub open spec fn sample_of(p: Probe) -> Option<Sample> {
    match p {
        Probe::Hit(s) => Some(s),
        _ => None,
    }
}

/// Two rays resolve to the same voxel and face, or both to none, and neither starts inside a voxel.
pub open spec fn resolves_alike(a: Probe, b: Probe) -> bool {
    match (a, b) {
        (Probe::Miss, Probe::Miss) => true,
        (Probe::Hit(s), Probe::Hit(t)) => s.voxel == t.voxel && s.face == t.face,
        _ => false,
    }
}

/// Two rays hit the same face plane.
pub open spec fn coplanar(a: Probe, b: Probe) -> bool {
    match (a, b) {
        (Probe::Hit(s), Probe::Hit(t)) => plane_at(s.voxel, s.face) == plane_at(t.voxel, t.face),
        _ => false,
    }
}

/// A probe's plane can be told.
pub open spec fn probe_planar(p: Probe) -> bool {
    match p {
        Probe::Hit(s) => planar(s.voxel, s.face),
        _ => true,
    }
}

/// The reference of a pixel from its centre ray and four probes beside it.
pub open spec fn pixel_of(centre: Probe, probes: [Probe; 4]) -> RefPixel {
    RefPixel {
        centre: sample_of(centre),
        near_edge: !(resolves_alike(centre, probes[0]) && resolves_alike(centre, probes[1]) && resolves_alike(centre, probes[2]) && resolves_alike(
            centre,
            probes[3],
        )),
        same_plane: coplanar(centre, probes[0]) && coplanar(centre, probes[1]) && coplanar(centre, probes[2]) && coplanar(centre, probes[3]),
    }
}

fn alike(a: Probe, b: Probe) -> (r: bool)
    ensures
        r == resolves_alike(a, b),
{
    match (a, b) {
        (Probe::Miss, Probe::Miss) => true,
        (Probe::Hit(s), Probe::Hit(t)) => s.voxel == t.voxel && s.face == t.face,
        _ => false,
    }
}

fn on_one_plane(a: Probe, b: Probe) -> (r: bool)
    requires
        probe_planar(a),
        probe_planar(b),
    ensures
        r == coplanar(a, b),
{
    match (a, b) {
        (Probe::Hit(s), Probe::Hit(t)) => {
            let (p, q) = (s.plane(), t.plane());
            p.0 == q.0 && p.1 == q.1 && p.2 == q.2
        },
        _ => false,
    }
}

/// The reference of a pixel from its centre ray and four probes beside it.
pub fn reference_pixel(centre: Probe, probes: [Probe; 4]) -> (r: RefPixel)
    requires
        probe_planar(centre),
        forall|i: int| 0 <= i < 4 ==> probe_planar(#[trigger] probes[i]),
    ensures
        r == pixel_of(centre, probes),
{
    let near_edge: bool = !(alike(centre, probes[0]) && alike(centre, probes[1]) && alike(centre, probes[2]) && alike(centre, probes[3]));
    let same_plane: bool = on_one_plane(centre, probes[0]) && on_one_plane(centre, probes[1]) && on_one_plane(centre, probes[2])
        && on_one_plane(centre, probes[3]);
    let centre: Option<Sample> = match centre {
        Probe::Hit(s) => Some(s),
        _ => None,
    };
    RefPixel { centre, near_edge, same_plane }
}

/// A hit away from every edge lies inside one plane, so a frame that draws nothing there is always
/// found out.
pub proof fn law_hits_off_edges_are_planar(centre: Probe, probes: [Probe; 4])
    requires
        !pixel_of(centre, probes).near_edge,
        pixel_of(centre, probes).centre is Some,
    ensures
        pixel_of(centre, probes).same_plane,
{
}

/// The quad's plane is one of voxels, in a region that starts at `origin`.
pub open spec fn placed(q: RegionQuad, origin: VoxelCoord) -> bool {
    let plane = coord(origin, q.face / 2) + q.plane;
    &&& q.face < 6
    &&& plane <= i32::MAX
    &&& i32::MIN <= plane - q.face % 2
}

/// The voxel and face behind a point of a quad: the quad's face, and the unit cell that the point lies
/// in.
pub open spec fn resolved(q: RegionQuad, origin: VoxelCoord, cell: [i32; 3]) -> (VoxelCoord, Face) {
    let axis = q.face / 2;
    let along = (coord(origin, axis) + q.plane - q.face % 2) as i32;
    (
        VoxelCoord {
            x: if axis == 0 {
                along
            } else {
                cell[0]
            },
            y: if axis == 1 {
                along
            } else {
                cell[1]
            },
            z: if axis == 2 {
                along
            } else {
                cell[2]
            },
        },
        Face { axis, positive: q.face % 2 == 1 },
    )
}

/// The voxel and face that a sample on quad `q` resolves to. `cell` is the unit cell of its point.
pub fn resolve(q: RegionQuad, origin: VoxelCoord, cell: [i32; 3]) -> (r: (VoxelCoord, Face))
    requires
        placed(q, origin),
    ensures
        r == resolved(q, origin, cell),
{
    let axis: u8 = q.face / 2;
    let positive: bool = q.face % 2 == 1;
    let plane: i32 = coordinate(origin, axis) + q.plane as i32;
    let along: i32 = if positive {
        plane - 1
    } else {
        plane
    };
    let x: i32 = if axis == 0 {
        along
    } else {
        cell[0]
    };
    let y: i32 = if axis == 1 {
        along
    } else {
        cell[1]
    };
    let z: i32 = if axis == 2 {
        along
    } else {
        cell[2]
    };
    (VoxelCoord { x, y, z }, Face { axis, positive })
}

/// The resolved face lies on the quad's plane, whatever the point.
pub proof fn law_resolved_faces_lie_on_their_quad(q: RegionQuad, origin: VoxelCoord, cell: [i32; 3])
    requires
        placed(q, origin),
    ensures
        plane_at(resolved(q, origin, cell).0, resolved(q, origin, cell).1) == (
            q.face / 2,
            q.face % 2 == 1,
            coord(origin, q.face / 2) + q.plane,
        ),
        planar(resolved(q, origin, cell).0, resolved(q, origin, cell).1),
{
}

/// What a frame shows at a pixel.
#[derive(Clone, Copy, Debug, PartialEq, Eq, Structural)]
pub enum Seen {
    Nothing,
    /// A surface id that names no region or quad.
    BadId,
    Surface {
        voxel: VoxelCoord,
        face: Face,
        /// The quad's material.
        material: u16,
    },
}

/// Every quad of every region can be placed.
pub open spec fn regions_placed(regions: &SortedMap<RegionKey, RegionMesh>) -> bool {
    &&& regions.wf()
    &&& forall|i: int| 0 <= i < regions.vals().len() ==> region_placed(#[trigger] regions.vals()[i])
}

pub open spec fn region_placed(m: RegionMesh) -> bool {
    &&& m.key.fits(m.size)
    &&& forall|k: int| 0 <= k < m.quads@.len() ==> placed(#[trigger] m.quads@[k], m.key.spec_origin(m.size))
}

/// What surface id `id` shows at a point in unit cell `cell`.
pub open spec fn seen_at(id: [u32; 2], cell: [i32; 3], regions: Seq<RegionMesh>) -> Seen {
    if id[0] == BACKGROUND_WORD && id[1] == BACKGROUND_WORD {
        Seen::Nothing
    } else if id[0] >= regions.len() {
        Seen::BadId
    } else {
        let m = regions[id[0] as int];
        if id[1] >= m.tri_quad@.len() || m.tri_quad@[id[1] as int] >= m.quads@.len() {
            Seen::BadId
        } else {
            let q = m.quads@[m.tri_quad@[id[1] as int] as int];
            let (voxel, face) = resolved(q, m.key.spec_origin(m.size), cell);
            Seen::Surface { voxel, face, material: q.material }
        }
    }
}

/// What surface id `id` shows at a point in unit cell `cell`. Region index `i` is the `i`-th region in
/// key order.
pub fn see(id: [u32; 2], cell: [i32; 3], regions: &SortedMap<RegionKey, RegionMesh>) -> (r: Seen)
    requires
        regions_placed(regions),
    ensures
        r == seen_at(id, cell, regions.vals()),
        match r {
            Seen::Surface { voxel, face, .. } => planar(voxel, face),
            _ => true,
        },
{
    if id[0] == BACKGROUND_WORD && id[1] == BACKGROUND_WORD {
        return Seen::Nothing;
    }
    let (ri, prim): (usize, usize) = (id[0] as usize, id[1] as usize);
    proof {
        regions.lemma_order();
    }
    if ri >= regions.len() {
        return Seen::BadId;
    }
    let m = regions.val_at(ri);
    assert(region_placed(regions.vals()[ri as int]));
    if prim >= m.tri_quad.len() || m.tri_quad[prim] as usize >= m.quads.len() {
        return Seen::BadId;
    }
    let q = m.quads[m.tri_quad[prim] as usize];
    let origin = m.key.origin(m.size);
    let (voxel, face) = resolve(q, origin, cell);
    proof {
        law_resolved_faces_lie_on_their_quad(q, origin, cell);
    }
    Seen::Surface { voxel, face, material: q.material }
}

/// What the caller measured at a pixel where the frame shows a surface.
#[derive(Clone, Copy, Debug, PartialEq, Eq)]
pub struct Measure {
    /// The unit cell of the surface point.
    pub cell: [i32; 3],
    /// The surface is farther than the reference by more than the tolerance.
    pub farther: bool,
    /// The surface is off the reference's distance by more than the tolerance.
    pub off: bool,
}

/// What the check finds at one pixel.
#[derive(Clone, Copy, Debug, PartialEq, Eq, Structural)]
pub struct Verdict {
    pub ref_hit: bool,
    pub gpu_hit: bool,
    pub near_edge: bool,
    /// Went through every exact check.
    pub checked: bool,
    pub crack: bool,
    /// The reference plane was drawn, but too far.
    pub plane_depth: bool,
    pub material: bool,
    pub normal: bool,
    pub face: bool,
    pub depth: bool,
    /// A surface where every reference ray misses.
    pub extra: bool,
    /// A surface id that names no region or quad.
    pub bad_id: bool,
}

impl Verdict {
    /// The pixel breaks the equivalence.
    pub open spec fn fails(self) -> bool {
        self.crack || self.material || self.normal || self.face || self.depth || self.extra || self.bad_id
    }
}

/// The verdict on a pixel that shows `seen`, with the material and normal targets' values.
pub open spec fn verdict(rp: RefPixel, seen: Seen, material: u16, normal: (i16, i16), farther: bool, off: bool) -> Verdict {
    let bad_id = seen is BadId;
    let inside = !bad_id && rp.same_plane && rp.centre is Some;
    let exact = !bad_id && !rp.near_edge;
    let checked = exact && rp.centre is Some && seen is Surface;
    let c = rp.centre->0;
    let same = plane_at(seen->voxel, seen->face) == plane_at(c.voxel, c.face);
    Verdict {
        ref_hit: rp.centre is Some,
        gpu_hit: !(seen is Nothing),
        near_edge: !bad_id && rp.near_edge,
        checked,
        crack: inside && (seen is Nothing || (farther && !same)),
        plane_depth: inside && seen is Surface && farther && same,
        material: checked && (material != c.material || seen->material != c.material),
        normal: checked && normal != spec_normal_bits(c.face),
        face: checked && !(seen->voxel == c.voxel && seen->face == c.face),
        depth: checked && off,
        extra: exact && rp.centre is None && seen is Surface,
        bad_id,
    }
}

/// The reference's plane can be told.
pub open spec fn ref_planar(rp: RefPixel) -> bool {
    match rp.centre {
        Some(c) => planar(c.voxel, c.face),
        None => true,
    }
}

/// The verdict on a pixel that shows `seen`, with the material and normal targets' values.
pub fn judge(rp: RefPixel, seen: Seen, material: u16, normal: [i16; 2], farther: bool, off: bool) -> (r: Verdict)
    requires
        ref_planar(rp),
        match seen {
            Seen::Surface { voxel, face, .. } => planar(voxel, face),
            _ => true,
        },
    ensures
        r == verdict(rp, seen, material, (normal[0], normal[1]), farther, off),
{
    let mut r = Verdict {
        ref_hit: rp.centre.is_some(),
        gpu_hit: true,
        near_edge: false,
        checked: false,
        crack: false,
        plane_depth: false,
        material: false,
        normal: false,
        face: false,
        depth: false,
        extra: false,
        bad_id: false,
    };
    match seen {
        Seen::BadId => {
            r.bad_id = true;
        },
        Seen::Nothing => {
            r.gpu_hit = false;
            r.near_edge = rp.near_edge;
            r.crack = rp.same_plane && rp.centre.is_some();
        },
        Seen::Surface { voxel, face, material: painted } => {
            r.near_edge = rp.near_edge;
            match rp.centre {
                None => {
                    r.extra = !rp.near_edge;
                },
                Some(c) => {
                    let (p, q) = (plane_of(voxel, face), c.plane());
                    let same: bool = p.0 == q.0 && p.1 == q.1 && p.2 == q.2;
                    r.crack = rp.same_plane && farther && !same;
                    r.plane_depth = rp.same_plane && farther && same;
                    if !rp.near_edge {
                        let bits = normal_bits(c.face);
                        r.checked = true;
                        r.material = material != c.material || painted != c.material;
                        r.normal = normal[0] != bits[0] || normal[1] != bits[1];
                        r.face = !(voxel == c.voxel && face == c.face);
                        r.depth = off;
                    }
                },
            }
        },
    }
    r
}

/// A pixel away from every edge that does not fail shows exactly what the reference says: nothing
/// where it misses, and its face, material and normal where it hits.
pub proof fn law_passing_pixels_match(rp: RefPixel, seen: Seen, material: u16, normal: (i16, i16), farther: bool, off: bool)
    requires
        !verdict(rp, seen, material, normal, farther, off).fails(),
        !rp.near_edge,
        rp.centre is Some ==> rp.same_plane,
    ensures
        match rp.centre {
            None => seen is Nothing,
            Some(c) => seen == (Seen::Surface { voxel: c.voxel, face: c.face, material: c.material }) && material == c.material && normal
                == spec_normal_bits(c.face) && !off,
        },
{
}

/// Inside one plane the frame shows that plane or something no farther, even near an edge.
pub proof fn law_passing_planes_have_no_cracks(rp: RefPixel, seen: Seen, material: u16, normal: (i16, i16), farther: bool, off: bool)
    requires
        !verdict(rp, seen, material, normal, farther, off).fails(),
        rp.same_plane,
        rp.centre is Some,
    ensures
        seen is Surface,
        !farther || plane_at(seen->voxel, seen->face) == plane_at(rp.centre->0.voxel, rp.centre->0.face),
{
}

/// How many of the first `n` verdicts have what `p` asks for.
pub open spec fn tally<T>(vs: Seq<T>, n: nat, p: spec_fn(T) -> bool) -> nat
    decreases n,
{
    if n == 0 {
        0
    } else {
        tally(vs, (n - 1) as nat, p) + if p(vs[n - 1]) {
            1nat
        } else {
            0
        }
    }
}

proof fn lemma_tally<T>(vs: Seq<T>, n: nat, p: spec_fn(T) -> bool)
    requires
        n <= vs.len(),
    ensures
        tally(vs, n, p) <= n,
        tally(vs, n, p) == 0 <==> forall|i: int| 0 <= i < n ==> !p(#[trigger] vs[i]),
    decreases n,
{
    if n > 0 {
        lemma_tally(vs, (n - 1) as nat, p);
        assert(vs[n - 1] == vs[n - 1]);
    }
}

/// What is wrong at a pixel.
#[derive(Clone, Copy, Debug, PartialEq, Eq, Structural)]
pub enum Wrong {
    BadId,
    Crack,
    Extra,
    Material,
    Normal,
    Face,
    Depth,
}

/// What is wrong at a pixel, in the order of the checks.
pub open spec fn wrongs(pixel: usize, v: Verdict) -> Seq<(usize, Wrong)> {
    said(v.bad_id, pixel, Wrong::BadId) + said(v.crack, pixel, Wrong::Crack) + said(v.extra, pixel, Wrong::Extra) + said(
        v.material,
        pixel,
        Wrong::Material,
    ) + said(v.normal, pixel, Wrong::Normal) + said(v.face, pixel, Wrong::Face) + said(v.depth, pixel, Wrong::Depth)
}

/// What is wrong at the first `n` pixels.
pub open spec fn all_wrongs(vs: Seq<Verdict>, n: nat) -> Seq<(usize, Wrong)>
    decreases n,
{
    if n == 0 {
        Seq::empty()
    } else {
        all_wrongs(vs, (n - 1) as nat) + wrongs((n - 1) as usize, vs[n - 1])
    }
}

/// The first few of a list.
pub open spec fn first_eight<T>(s: Seq<T>) -> Seq<T> {
    if s.len() <= 8 {
        s
    } else {
        s.take(8)
    }
}

/// Counts from one comparison. Every failure count must be zero.
pub struct Report {
    pub pixels: u64,
    pub ref_hits: u64,
    pub gpu_hits: u64,
    pub near_edge: u64,
    /// Hit pixels that went through every exact check.
    pub checked: u64,
    pub crack: u64,
    /// The reference plane was drawn, but farther than the depth tolerance.
    pub plane_depth: u64,
    pub material: u64,
    pub normal: u64,
    pub face: u64,
    pub depth: u64,
    /// A surface was drawn where every reference ray misses.
    pub extra: u64,
    /// A surface id that names no region or quad.
    pub bad_id: u64,
    /// The first wrong pixels.
    pub examples: Vec<(usize, Wrong)>,
}

impl Report {
    /// The report of the first `n` verdicts.
    pub open spec fn counts(&self, vs: Seq<Verdict>, n: nat) -> bool {
        &&& self.tallies(vs, n)
        &&& self.examples@ == first_eight(all_wrongs(vs, n))
    }

    /// Every count is that of the first `n` verdicts.
    pub open spec fn tallies(&self, vs: Seq<Verdict>, n: nat) -> bool {
        &&& self.ref_hits == tally(vs, n, |v: Verdict| v.ref_hit)
        &&& self.gpu_hits == tally(vs, n, |v: Verdict| v.gpu_hit)
        &&& self.near_edge == tally(vs, n, |v: Verdict| v.near_edge)
        &&& self.checked == tally(vs, n, |v: Verdict| v.checked)
        &&& self.crack == tally(vs, n, |v: Verdict| v.crack)
        &&& self.plane_depth == tally(vs, n, |v: Verdict| v.plane_depth)
        &&& self.material == tally(vs, n, |v: Verdict| v.material)
        &&& self.normal == tally(vs, n, |v: Verdict| v.normal)
        &&& self.face == tally(vs, n, |v: Verdict| v.face)
        &&& self.depth == tally(vs, n, |v: Verdict| v.depth)
        &&& self.extra == tally(vs, n, |v: Verdict| v.extra)
        &&& self.bad_id == tally(vs, n, |v: Verdict| v.bad_id)
    }

    pub open spec fn spec_failures(&self) -> int {
        self.crack + self.material + self.normal + self.face + self.depth + self.extra + self.bad_id
    }

    pub fn failures(&self) -> (r: u64)
        requires
            self.spec_failures() <= u64::MAX,
        ensures
            r == self.spec_failures(),
    {
        self.crack + self.material + self.normal + self.face + self.depth + self.extra + self.bad_id
    }

    pub fn passes(&self) -> (r: bool)
        ensures
            r == (self.spec_failures() == 0),
    {
        self.crack == 0 && self.material == 0 && self.normal == 0 && self.face == 0 && self.depth == 0 && self.extra == 0 && self.bad_id == 0
    }
}

/// A note, if there is one to make.
pub open spec fn said<W>(on: bool, pixel: usize, wrong: W) -> Seq<(usize, W)> {
    if on {
        seq![(pixel, wrong)]
    } else {
        Seq::empty()
    }
}

/// A report passes exactly when no pixel fails.
pub proof fn law_passing_reports_have_no_failing_pixel(r: &Report, vs: Seq<Verdict>)
    requires
        r.counts(vs, vs.len()),
    ensures
        r.spec_failures() == 0 <==> forall|i: int| 0 <= i < vs.len() ==> !(#[trigger] vs[i]).fails(),
{
    let n = vs.len();
    lemma_tally(vs, n, |v: Verdict| v.crack);
    lemma_tally(vs, n, |v: Verdict| v.material);
    lemma_tally(vs, n, |v: Verdict| v.normal);
    lemma_tally(vs, n, |v: Verdict| v.face);
    lemma_tally(vs, n, |v: Verdict| v.depth);
    lemma_tally(vs, n, |v: Verdict| v.extra);
    lemma_tally(vs, n, |v: Verdict| v.bad_id);
    if r.spec_failures() == 0 {
        assert forall|i: int| 0 <= i < vs.len() implies !(#[trigger] vs[i]).fails() by {}
    } else {
        if forall|i: int| 0 <= i < vs.len() ==> !(#[trigger] vs[i]).fails() {
            assert forall|i: int| 0 <= i < vs.len() implies !(#[trigger] vs[i]).crack by {}
            assert forall|i: int| 0 <= i < vs.len() implies !(#[trigger] vs[i]).material by {}
            assert forall|i: int| 0 <= i < vs.len() implies !(#[trigger] vs[i]).normal by {}
            assert forall|i: int| 0 <= i < vs.len() implies !(#[trigger] vs[i]).face by {}
            assert forall|i: int| 0 <= i < vs.len() implies !(#[trigger] vs[i]).depth by {}
            assert forall|i: int| 0 <= i < vs.len() implies !(#[trigger] vs[i]).extra by {}
            assert forall|i: int| 0 <= i < vs.len() implies !(#[trigger] vs[i]).bad_id by {}
        }
    }
}

/// The verdicts on all pixels of a frame.
pub open spec fn verdicts(frame: &Frame, refs: Seq<RefPixel>, ms: Seq<Measure>, regions: Seq<RegionMesh>) -> Seq<Verdict> {
    Seq::new(
        refs.len(),
        |i: int|
            verdict(
                refs[i],
                seen_at(frame.surface@[i], ms[i].cell, regions),
                frame.material@[i],
                (frame.normal@[i][0], frame.normal@[i][1]),
                ms[i].farther,
                ms[i].off,
            ),
    )
}

/// Counts one more where `on`.
fn bump<T>(n: u64, on: bool, Ghost(vs): Ghost<Seq<T>>, Ghost(i): Ghost<nat>, Ghost(p): Ghost<spec_fn(T) -> bool>) -> (r: u64)
    requires
        i < vs.len() <= u64::MAX,
        n == tally(vs, i, p),
        on == p(vs[i as int]),
    ensures
        r == tally(vs, i + 1, p),
{
    proof {
        lemma_tally(vs, i, p);
    }
    if on {
        n + 1
    } else {
        n
    }
}

proof fn lemma_note<T>(all: Seq<T>, x: T)
    ensures
        first_eight(all.push(x)) == if first_eight(all).len() < 8 {
            first_eight(all).push(x)
        } else {
            first_eight(all)
        },
{
    assert(first_eight(all.push(x)) =~= if first_eight(all).len() < 8 {
        first_eight(all).push(x)
    } else {
        first_eight(all)
    });
}

/// Compares `frame` with the reference. `regions` must be the regions that the frame was drawn from,
/// and `ms` the measures of its pixels.
pub fn compare(frame: &Frame, refs: &[RefPixel], ms: &[Measure], regions: &SortedMap<RegionKey, RegionMesh>) -> (r: Report)
    requires
        regions_placed(regions),
        ms@.len() == refs@.len(),
        frame.surface@.len() >= refs@.len(),
        frame.material@.len() >= refs@.len(),
        frame.normal@.len() >= refs@.len(),
        forall|i: int| 0 <= i < refs@.len() ==> ref_planar(#[trigger] refs@[i]),
    ensures
        r.pixels == refs@.len(),
        r.counts(verdicts(frame, refs@, ms@, regions.vals()), refs@.len()),
{
    let ghost vs = verdicts(frame, refs@, ms@, regions.vals());
    let mut r = Report {
        pixels: refs.len() as u64,
        ref_hits: 0,
        gpu_hits: 0,
        near_edge: 0,
        checked: 0,
        crack: 0,
        plane_depth: 0,
        material: 0,
        normal: 0,
        face: 0,
        depth: 0,
        extra: 0,
        bad_id: 0,
        examples: Vec::new(),
    };
    let mut i: usize = 0;
    assert(r.examples@ =~= first_eight(all_wrongs(vs, 0)));
    while i < refs.len()
        invariant
            vs == verdicts(frame, refs@, ms@, regions.vals()),
            regions_placed(regions),
            ms@.len() == refs@.len(),
            frame.surface@.len() >= refs@.len(),
            frame.material@.len() >= refs@.len(),
            frame.normal@.len() >= refs@.len(),
            forall|k: int| 0 <= k < refs@.len() ==> ref_planar(#[trigger] refs@[k]),
            i <= refs@.len(),
            r.pixels == refs@.len(),
            r.counts(vs, i as nat),
        decreases refs@.len() - i,
    {
        let m = ms[i];
        assert(ref_planar(refs@[i as int]));
        let seen = see(frame.surface[i], m.cell, regions);
        let v = judge(refs[i], seen, frame.material[i], frame.normal[i], m.farther, m.off);
        assert(v == vs[i as int]);
        let mut now = count(r, i, v, Ghost(vs));
        note_all(&mut now.examples, i, v, Ghost(all_wrongs(vs, i as nat)));
        r = now;
        i += 1;
    }
    r
}

/// Counts the verdict on pixel `i`.
fn count(r: Report, i: usize, v: Verdict, Ghost(vs): Ghost<Seq<Verdict>>) -> (out: Report)
    requires
        i < vs.len() <= u64::MAX,
        v == vs[i as int],
        r.tallies(vs, i as nat),
    ensures
        out.tallies(vs, (i + 1) as nat),
        out.pixels == r.pixels,
        out.examples == r.examples,
{
    Report {
        pixels: r.pixels,
        ref_hits: bump::<Verdict>(r.ref_hits, v.ref_hit, Ghost(vs), Ghost(i as nat), Ghost(|v: Verdict| v.ref_hit)),
        gpu_hits: bump::<Verdict>(r.gpu_hits, v.gpu_hit, Ghost(vs), Ghost(i as nat), Ghost(|v: Verdict| v.gpu_hit)),
        near_edge: bump::<Verdict>(r.near_edge, v.near_edge, Ghost(vs), Ghost(i as nat), Ghost(|v: Verdict| v.near_edge)),
        checked: bump::<Verdict>(r.checked, v.checked, Ghost(vs), Ghost(i as nat), Ghost(|v: Verdict| v.checked)),
        crack: bump::<Verdict>(r.crack, v.crack, Ghost(vs), Ghost(i as nat), Ghost(|v: Verdict| v.crack)),
        plane_depth: bump::<Verdict>(r.plane_depth, v.plane_depth, Ghost(vs), Ghost(i as nat), Ghost(|v: Verdict| v.plane_depth)),
        material: bump::<Verdict>(r.material, v.material, Ghost(vs), Ghost(i as nat), Ghost(|v: Verdict| v.material)),
        normal: bump::<Verdict>(r.normal, v.normal, Ghost(vs), Ghost(i as nat), Ghost(|v: Verdict| v.normal)),
        face: bump::<Verdict>(r.face, v.face, Ghost(vs), Ghost(i as nat), Ghost(|v: Verdict| v.face)),
        depth: bump::<Verdict>(r.depth, v.depth, Ghost(vs), Ghost(i as nat), Ghost(|v: Verdict| v.depth)),
        extra: bump::<Verdict>(r.extra, v.extra, Ghost(vs), Ghost(i as nat), Ghost(|v: Verdict| v.extra)),
        bad_id: bump::<Verdict>(r.bad_id, v.bad_id, Ghost(vs), Ghost(i as nat), Ghost(|v: Verdict| v.bad_id)),
        examples: r.examples,
    }
}

/// Makes a note where `on`, while there is room.
fn note<W>(examples: &mut Vec<(usize, W)>, on: bool, pixel: usize, wrong: W, Ghost(all): Ghost<Seq<(usize, W)>>)
    requires
        old(examples)@ == first_eight(all),
    ensures
        final(examples)@ == first_eight(all + said(on, pixel, wrong)),
{
    if on {
        proof {
            lemma_note(all, (pixel, wrong));
            assert(all + said(on, pixel, wrong) =~= all.push((pixel, wrong)));
        }
        if examples.len() < 8 {
            examples.push((pixel, wrong));
        }
    } else {
        assert(all + said(on, pixel, wrong) =~= all);
    }
}

proof fn lemma_chain<T>(a: Seq<T>, s: Seq<T>, t: Seq<T>)
    ensures
        a + (s + t) == (a + s) + t,
{
    assert(a + (s + t) =~= (a + s) + t);
}

/// Notes what is wrong at pixel `i`.
fn note_all(examples: &mut Vec<(usize, Wrong)>, i: usize, v: Verdict, Ghost(all): Ghost<Seq<(usize, Wrong)>>)
    requires
        old(examples)@ == first_eight(all),
    ensures
        final(examples)@ == first_eight(all + wrongs(i, v)),
{
    let ghost s1 = said(v.bad_id, i, Wrong::BadId);
    let ghost s2 = said(v.crack, i, Wrong::Crack);
    let ghost s3 = said(v.extra, i, Wrong::Extra);
    let ghost s4 = said(v.material, i, Wrong::Material);
    let ghost s5 = said(v.normal, i, Wrong::Normal);
    let ghost s6 = said(v.face, i, Wrong::Face);
    let ghost s7 = said(v.depth, i, Wrong::Depth);
    note(examples, v.bad_id, i, Wrong::BadId, Ghost(all));
    note(examples, v.crack, i, Wrong::Crack, Ghost(all + s1));
    note(examples, v.extra, i, Wrong::Extra, Ghost(all + s1 + s2));
    note(examples, v.material, i, Wrong::Material, Ghost(all + s1 + s2 + s3));
    note(examples, v.normal, i, Wrong::Normal, Ghost(all + s1 + s2 + s3 + s4));
    note(examples, v.face, i, Wrong::Face, Ghost(all + s1 + s2 + s3 + s4 + s5));
    note(examples, v.depth, i, Wrong::Depth, Ghost(all + s1 + s2 + s3 + s4 + s5 + s6));
    proof {
        lemma_chain(all, s1, s2);
        lemma_chain(all, s1 + s2, s3);
        lemma_chain(all, s1 + s2 + s3, s4);
        lemma_chain(all, s1 + s2 + s3 + s4, s5);
        lemma_chain(all, s1 + s2 + s3 + s4 + s5, s6);
        lemma_chain(all, s1 + s2 + s3 + s4 + s5 + s6, s7);
    }
}

/// What the caller measured at a pixel where both frames show a surface.
#[derive(Clone, Copy, Debug, PartialEq, Eq)]
pub struct PairMeasure {
    /// The unit cells of the two surface points.
    pub cells: ([i32; 3], [i32; 3]),
    /// The distances differ by more than twice the tolerance.
    pub off: bool,
}

/// What two frames have to do with each other at one pixel.
#[derive(Clone, Copy, Debug, PartialEq, Eq, Structural)]
pub struct Pair {
    pub both_hit: bool,
    /// One frame hit and the other missed.
    pub hit_miss: bool,
    pub hit_miss_edge: bool,
    /// Both hit, but material, normal bits or resolved voxel and face differ.
    pub differ: bool,
    pub differ_edge: bool,
    /// Both hit the same face, but at different distances.
    pub depth: bool,
    /// Identical surface id.
    pub same_id: bool,
}

/// What a frame stores at a pixel.
pub type Stored = ([u32; 2], u16, [i16; 2]);

/// Two frames show the same values at a pixel where both show a surface.
pub open spec fn shows_alike(a: Stored, b: Stored, sa: Seen, sb: Seen) -> bool {
    &&& a.1 == b.1
    &&& a.2[0] == b.2[0] && a.2[1] == b.2[1]
    &&& sa->voxel == sb->voxel && sa->face == sb->face
}

/// What two frames have to do with each other at a pixel.
pub open spec fn pair(near_edge: bool, a: Stored, b: Stored, sa: Seen, sb: Seen, off: bool) -> Pair {
    let both = sa is Surface && sb is Surface;
    let one = (sa is Surface) != (sb is Surface);
    let alike = shows_alike(a, b, sa, sb);
    Pair {
        both_hit: both,
        hit_miss: one && !near_edge,
        hit_miss_edge: one && near_edge,
        differ: both && !alike && !near_edge,
        differ_edge: both && !alike && near_edge,
        depth: both && alike && off && !near_edge,
        same_id: both && a.0[0] == b.0[0] && a.0[1] == b.0[1],
    }
}

/// What two frames have to do with each other at a pixel.
pub fn judge_pair(near_edge: bool, a: Stored, b: Stored, sa: Seen, sb: Seen, off: bool) -> (r: Pair)
    ensures
        r == pair(near_edge, a, b, sa, sb, off),
{
    let mut r = Pair { both_hit: false, hit_miss: false, hit_miss_edge: false, differ: false, differ_edge: false, depth: false, same_id: false };
    match (sa, sb) {
        (Seen::Surface { voxel: va, face: fa, .. }, Seen::Surface { voxel: vb, face: fb, .. }) => {
            let alike: bool = a.1 == b.1 && a.2[0] == b.2[0] && a.2[1] == b.2[1] && va == vb && fa == fb;
            r.both_hit = true;
            r.same_id = a.0[0] == b.0[0] && a.0[1] == b.0[1];
            r.differ = !alike && !near_edge;
            r.differ_edge = !alike && near_edge;
            r.depth = alike && off && !near_edge;
        },
        (Seen::Surface { .. }, _) | (_, Seen::Surface { .. }) => {
            r.hit_miss = !near_edge;
            r.hit_miss_edge = near_edge;
        },
        _ => {},
    }
    r
}

/// Which frame comes first makes no difference.
pub proof fn law_agreement_is_symmetric(near_edge: bool, a: Stored, b: Stored, sa: Seen, sb: Seen, off: bool)
    ensures
        pair(near_edge, a, b, sa, sb, off) == pair(near_edge, b, a, sb, sa, off),
{
}

/// How two frames disagree at a pixel away from every edge.
#[derive(Clone, Copy, Debug, PartialEq, Eq, Structural)]
pub enum Disagreement {
    HitMiss,
    Differ,
    Depth,
}

/// How two frames disagree at a pixel.
pub open spec fn disagreements(pixel: usize, p: Pair) -> Seq<(usize, Disagreement)> {
    said(p.hit_miss, pixel, Disagreement::HitMiss) + said(p.differ, pixel, Disagreement::Differ) + said(p.depth, pixel, Disagreement::Depth)
}

/// How two frames disagree at the first `n` pixels.
pub open spec fn all_disagreements(ps: Seq<Pair>, n: nat) -> Seq<(usize, Disagreement)>
    decreases n,
{
    if n == 0 {
        Seq::empty()
    } else {
        all_disagreements(ps, (n - 1) as nat) + disagreements((n - 1) as usize, ps[n - 1])
    }
}

/// Direct per-pixel agreement of two rendered frames of the same camera and meshes. Pixels that the
/// reference marks near an edge are counted apart; only the other counts must be zero.
pub struct Agreement {
    pub pixels: u64,
    pub both_hit: u64,
    pub hit_miss: u64,
    pub hit_miss_edge: u64,
    pub differ: u64,
    pub differ_edge: u64,
    pub depth: u64,
    pub same_id: u64,
    /// The first pixels that disagree.
    pub examples: Vec<(usize, Disagreement)>,
}

impl Agreement {
    /// The agreement of the first `n` pixels.
    pub open spec fn counts(&self, ps: Seq<Pair>, n: nat) -> bool {
        &&& self.tallies(ps, n)
        &&& self.examples@ == first_eight(all_disagreements(ps, n))
    }

    /// Every count is that of the first `n` pixels.
    pub open spec fn tallies(&self, ps: Seq<Pair>, n: nat) -> bool {
        &&& self.both_hit == tally(ps, n, |p: Pair| p.both_hit)
        &&& self.hit_miss == tally(ps, n, |p: Pair| p.hit_miss)
        &&& self.hit_miss_edge == tally(ps, n, |p: Pair| p.hit_miss_edge)
        &&& self.differ == tally(ps, n, |p: Pair| p.differ)
        &&& self.differ_edge == tally(ps, n, |p: Pair| p.differ_edge)
        &&& self.depth == tally(ps, n, |p: Pair| p.depth)
        &&& self.same_id == tally(ps, n, |p: Pair| p.same_id)
    }

    pub open spec fn spec_failures(&self) -> int {
        self.hit_miss + self.differ + self.depth
    }

    /// Disagreements away from edges; must be zero.
    pub fn failures(&self) -> (r: u64)
        requires
            self.spec_failures() <= u64::MAX,
        ensures
            r == self.spec_failures(),
    {
        self.hit_miss + self.differ + self.depth
    }
}

/// Without failures, two frames show the same face, or both none, at every pixel away from edges.
pub proof fn law_agreeing_frames_match(r: &Agreement, ps: Seq<Pair>, i: int, near_edge: bool, a: Stored, b: Stored, sa: Seen, sb: Seen, off: bool)
    requires
        r.counts(ps, ps.len()),
        r.spec_failures() == 0,
        0 <= i < ps.len(),
        ps[i] == pair(near_edge, a, b, sa, sb, off),
        !near_edge,
    ensures
        (sa is Surface) == (sb is Surface),
        sa is Surface ==> shows_alike(a, b, sa, sb) && !off,
{
    lemma_tally(ps, ps.len(), |p: Pair| p.hit_miss);
    lemma_tally(ps, ps.len(), |p: Pair| p.differ);
    lemma_tally(ps, ps.len(), |p: Pair| p.depth);
    assert(!ps[i].hit_miss && !ps[i].differ && !ps[i].depth);
}

/// What a frame stores at pixel `i`.
pub open spec fn stored(f: &Frame, i: int) -> Stored {
    (f.surface@[i], f.material@[i], f.normal@[i])
}

/// What two frames have to do with each other at every pixel.
pub open spec fn pairs(a: &Frame, b: &Frame, refs: Seq<RefPixel>, ms: Seq<PairMeasure>, regions: Seq<RegionMesh>) -> Seq<Pair> {
    Seq::new(
        refs.len(),
        |i: int|
            pair(
                refs[i].near_edge,
                stored(a, i),
                stored(b, i),
                seen_at(a.surface@[i], ms[i].cells.0, regions),
                seen_at(b.surface@[i], ms[i].cells.1, regions),
                ms[i].off,
            ),
    )
}

/// The frame has a value of every kind for `n` pixels.
pub open spec fn holds_pixels(f: &Frame, n: nat) -> bool {
    f.surface@.len() >= n && f.material@.len() >= n && f.normal@.len() >= n
}

fn count_pair(r: Agreement, i: usize, p: Pair, Ghost(ps): Ghost<Seq<Pair>>) -> (out: Agreement)
    requires
        i < ps.len() <= u64::MAX,
        p == ps[i as int],
        r.tallies(ps, i as nat),
    ensures
        out.tallies(ps, (i + 1) as nat),
        out.pixels == r.pixels,
        out.examples == r.examples,
{
    Agreement {
        pixels: r.pixels,
        both_hit: bump::<Pair>(r.both_hit, p.both_hit, Ghost(ps), Ghost(i as nat), Ghost(|p: Pair| p.both_hit)),
        hit_miss: bump::<Pair>(r.hit_miss, p.hit_miss, Ghost(ps), Ghost(i as nat), Ghost(|p: Pair| p.hit_miss)),
        hit_miss_edge: bump::<Pair>(r.hit_miss_edge, p.hit_miss_edge, Ghost(ps), Ghost(i as nat), Ghost(|p: Pair| p.hit_miss_edge)),
        differ: bump::<Pair>(r.differ, p.differ, Ghost(ps), Ghost(i as nat), Ghost(|p: Pair| p.differ)),
        differ_edge: bump::<Pair>(r.differ_edge, p.differ_edge, Ghost(ps), Ghost(i as nat), Ghost(|p: Pair| p.differ_edge)),
        depth: bump::<Pair>(r.depth, p.depth, Ghost(ps), Ghost(i as nat), Ghost(|p: Pair| p.depth)),
        same_id: bump::<Pair>(r.same_id, p.same_id, Ghost(ps), Ghost(i as nat), Ghost(|p: Pair| p.same_id)),
        examples: r.examples,
    }
}

fn note_pair(examples: &mut Vec<(usize, Disagreement)>, i: usize, p: Pair, Ghost(all): Ghost<Seq<(usize, Disagreement)>>)
    requires
        old(examples)@ == first_eight(all),
    ensures
        final(examples)@ == first_eight(all + disagreements(i, p)),
{
    let ghost s1 = said(p.hit_miss, i, Disagreement::HitMiss);
    let ghost s2 = said(p.differ, i, Disagreement::Differ);
    let ghost s3 = said(p.depth, i, Disagreement::Depth);
    note(examples, p.hit_miss, i, Disagreement::HitMiss, Ghost(all));
    note(examples, p.differ, i, Disagreement::Differ, Ghost(all + s1));
    note(examples, p.depth, i, Disagreement::Depth, Ghost(all + s1 + s2));
    proof {
        lemma_chain(all, s1, s2);
        lemma_chain(all, s1 + s2, s3);
    }
}

/// The agreement of two frames drawn from `regions`. `ms` are the measures of their pixels.
pub fn agreement(a: &Frame, b: &Frame, refs: &[RefPixel], ms: &[PairMeasure], regions: &SortedMap<RegionKey, RegionMesh>) -> (r: Agreement)
    requires
        regions_placed(regions),
        ms@.len() == refs@.len(),
        holds_pixels(a, refs@.len()),
        holds_pixels(b, refs@.len()),
    ensures
        r.pixels == refs@.len(),
        r.counts(pairs(a, b, refs@, ms@, regions.vals()), refs@.len()),
{
    let ghost ps = pairs(a, b, refs@, ms@, regions.vals());
    let mut r = Agreement {
        pixels: refs.len() as u64,
        both_hit: 0,
        hit_miss: 0,
        hit_miss_edge: 0,
        differ: 0,
        differ_edge: 0,
        depth: 0,
        same_id: 0,
        examples: Vec::new(),
    };
    let mut i: usize = 0;
    assert(r.examples@ =~= first_eight(all_disagreements(ps, 0)));
    while i < refs.len()
        invariant
            ps == pairs(a, b, refs@, ms@, regions.vals()),
            regions_placed(regions),
            ms@.len() == refs@.len(),
            holds_pixels(a, refs@.len()),
            holds_pixels(b, refs@.len()),
            i <= refs@.len(),
            r.pixels == refs@.len(),
            r.counts(ps, i as nat),
        decreases refs@.len() - i,
    {
        let m = ms[i];
        let sa = see(a.surface[i], m.cells.0, regions);
        let sb = see(b.surface[i], m.cells.1, regions);
        let p = judge_pair(
            refs[i].near_edge,
            (a.surface[i], a.material[i], a.normal[i]),
            (b.surface[i], b.material[i], b.normal[i]),
            sa,
            sb,
            m.off,
        );
        assert(p == ps[i as int]);
        let mut now = count_pair(r, i, p, Ghost(ps));
        note_pair(&mut now.examples, i, p, Ghost(all_disagreements(ps, i as nat)));
        r = now;
        i += 1;
    }
    r
}

/// How many of the pixels `0 .. n` have what `f` asks for.
pub open spec fn pixels(n: nat, f: spec_fn(int) -> bool) -> nat {
    Seq::new(n, |i: int| i).filter(f).len()
}

proof fn lemma_pixels<T>(vs: Seq<T>, n: nat, p: spec_fn(T) -> bool, f: spec_fn(int) -> bool)
    requires
        n <= vs.len(),
        forall|i: int| 0 <= i < n ==> p(#[trigger] vs[i]) == f(i),
    ensures
        tally(vs, n, p) == pixels(n, f),
    decreases n,
{
    reveal_with_fuel(Seq::filter, 2);
    let now = Seq::new(n, |i: int| i);
    if n > 0 {
        lemma_pixels(vs, (n - 1) as nat, p, f);
        assert(now.drop_last() =~= Seq::new((n - 1) as nat, |i: int| i));
        assert(p(vs[n - 1]) == f(n - 1));
        assert(now.last() == n - 1);
    }
}

/// The counts of an agreement are numbers of pixels, by what the two frames store there: both counts of pixels
/// that differ are those where the materials, a component of the normals, the voxels or the faces are not equal.
pub proof fn law_agreements_count_pixels(r: &Agreement, a: &Frame, b: &Frame, refs: Seq<RefPixel>, ms: Seq<PairMeasure>, regions: Seq<RegionMesh>)
    requires
        r.counts(pairs(a, b, refs, ms, regions), refs.len()),
    ensures
        ({
            let n = refs.len();
            let sa = |i: int| seen_at(a.surface@[i], ms[i].cells.0, regions);
            let sb = |i: int| seen_at(b.surface@[i], ms[i].cells.1, regions);
            let both = |i: int| sa(i) is Surface && sb(i) is Surface;
            let same = |i: int|
                a.material@[i] == b.material@[i] && a.normal@[i][0] == b.normal@[i][0] && a.normal@[i][1] == b.normal@[i][1] && sa(i)->voxel == sb(
                    i,
                )->voxel && sa(i)->face == sb(i)->face;
            &&& r.both_hit == pixels(n, both)
            &&& r.hit_miss == pixels(n, |i: int| !refs[i].near_edge && (sa(i) is Surface) != (sb(i) is Surface))
            &&& r.hit_miss_edge == pixels(n, |i: int| refs[i].near_edge && (sa(i) is Surface) != (sb(i) is Surface))
            &&& r.differ == pixels(n, |i: int| !refs[i].near_edge && both(i) && !same(i))
            &&& r.differ_edge == pixels(n, |i: int| refs[i].near_edge && both(i) && !same(i))
            &&& r.depth == pixels(n, |i: int| !refs[i].near_edge && both(i) && same(i) && ms[i].off)
            &&& r.same_id == pixels(
                n,
                |i: int| both(i) && a.surface@[i][0] == b.surface@[i][0] && a.surface@[i][1] == b.surface@[i][1],
            )
        }),
{
    let n = refs.len();
    let ps = pairs(a, b, refs, ms, regions);
    let sa = |i: int| seen_at(a.surface@[i], ms[i].cells.0, regions);
    let sb = |i: int| seen_at(b.surface@[i], ms[i].cells.1, regions);
    let both = |i: int| sa(i) is Surface && sb(i) is Surface;
    let same = |i: int|
        a.material@[i] == b.material@[i] && a.normal@[i][0] == b.normal@[i][0] && a.normal@[i][1] == b.normal@[i][1] && sa(i)->voxel == sb(
            i,
        )->voxel && sa(i)->face == sb(i)->face;
    lemma_pixels(ps, n, |p: Pair| p.both_hit, both);
    lemma_pixels(ps, n, |p: Pair| p.hit_miss, |i: int| !refs[i].near_edge && (sa(i) is Surface) != (sb(i) is Surface));
    lemma_pixels(ps, n, |p: Pair| p.hit_miss_edge, |i: int| refs[i].near_edge && (sa(i) is Surface) != (sb(i) is Surface));
    lemma_pixels(ps, n, |p: Pair| p.differ, |i: int| !refs[i].near_edge && both(i) && !same(i));
    lemma_pixels(ps, n, |p: Pair| p.differ_edge, |i: int| refs[i].near_edge && both(i) && !same(i));
    lemma_pixels(ps, n, |p: Pair| p.depth, |i: int| !refs[i].near_edge && both(i) && same(i) && ms[i].off);
    lemma_pixels(
        ps,
        n,
        |p: Pair| p.same_id,
        |i: int| both(i) && a.surface@[i][0] == b.surface@[i][0] && a.surface@[i][1] == b.surface@[i][1],
    );
}

/// Without failures, at every pixel away from edges both frames show a surface or neither does; where they do,
/// they store the same material and the same normal, and show the same voxel and face at one distance. And where
/// all this holds, there are no failures.
pub proof fn law_frames_without_failures_store_the_same(
    r: &Agreement,
    a: &Frame,
    b: &Frame,
    refs: Seq<RefPixel>,
    ms: Seq<PairMeasure>,
    regions: Seq<RegionMesh>,
)
    requires
        r.counts(pairs(a, b, refs, ms, regions), refs.len()),
    ensures
        r.spec_failures() == 0 <==> forall|i: int|
            #![trigger refs[i]]
            0 <= i < refs.len() && !refs[i].near_edge ==> {
                let sa = seen_at(a.surface@[i], ms[i].cells.0, regions);
                let sb = seen_at(b.surface@[i], ms[i].cells.1, regions);
                &&& sa is Surface <==> sb is Surface
                &&& sa is Surface ==> {
                    &&& a.material@[i] == b.material@[i]
                    &&& a.normal@[i][0] == b.normal@[i][0]
                    &&& a.normal@[i][1] == b.normal@[i][1]
                    &&& sa->voxel == sb->voxel
                    &&& sa->face == sb->face
                    &&& !ms[i].off
                }
            },
{
    let n = refs.len();
    let ps = pairs(a, b, refs, ms, regions);
    lemma_tally(ps, n, |p: Pair| p.hit_miss);
    lemma_tally(ps, n, |p: Pair| p.differ);
    lemma_tally(ps, n, |p: Pair| p.depth);
    if r.spec_failures() == 0 {
        assert forall|i: int|
            #![trigger refs[i]]
            0 <= i < refs.len() && !refs[i].near_edge implies {
            let sa = seen_at(a.surface@[i], ms[i].cells.0, regions);
            let sb = seen_at(b.surface@[i], ms[i].cells.1, regions);
            &&& sa is Surface <==> sb is Surface
            &&& sa is Surface ==> {
                &&& a.material@[i] == b.material@[i]
                &&& a.normal@[i][0] == b.normal@[i][0]
                &&& a.normal@[i][1] == b.normal@[i][1]
                &&& sa->voxel == sb->voxel
                &&& sa->face == sb->face
                &&& !ms[i].off
            }
        } by {
            assert(!ps[i].hit_miss && !ps[i].differ && !ps[i].depth);
        }
    } else if forall|i: int|
        #![trigger refs[i]]
        0 <= i < refs.len() && !refs[i].near_edge ==> {
            let sa = seen_at(a.surface@[i], ms[i].cells.0, regions);
            let sb = seen_at(b.surface@[i], ms[i].cells.1, regions);
            &&& sa is Surface <==> sb is Surface
            &&& sa is Surface ==> {
                &&& a.material@[i] == b.material@[i]
                &&& a.normal@[i][0] == b.normal@[i][0]
                &&& a.normal@[i][1] == b.normal@[i][1]
                &&& sa->voxel == sb->voxel
                &&& sa->face == sb->face
                &&& !ms[i].off
            }
        } {
        assert forall|i: int| 0 <= i < n implies !(#[trigger] ps[i]).hit_miss && !ps[i].differ && !ps[i].depth by {
            let c = refs[i];
        }
    }
}

/// Two faces lie on one plane exactly where they face the same way and their voxels have the same coordinate
/// along that axis.
pub proof fn law_planes_are_of_one_coordinate(v: VoxelCoord, f: Face, w: VoxelCoord, g: Face)
    requires
        f.axis < 3,
    ensures
        plane_at(v, f) == plane_at(w, g) <==> {
            &&& f.axis == g.axis && f.positive == g.positive
            &&& f.axis == 0 ==> v.x == w.x
            &&& f.axis == 1 ==> v.y == w.y
            &&& f.axis == 2 ==> v.z == w.z
        },
{
}

/// A plane is at the coordinate of its voxel's near corner along the face's axis, or one beyond it where the
/// face looks up the axis.
pub proof fn law_planes_bound_their_voxels(v: VoxelCoord, f: Face)
    requires
        f.axis < 3,
    ensures
        ({
            let low = if f.axis == 0 {
                v.x
            } else if f.axis == 1 {
                v.y
            } else {
                v.z
            };
            plane_at(v, f) == (f.axis, f.positive, if f.positive {
                low + 1
            } else {
                low as int
            })
        }),
{
}

/// The direction that a pair of octahedral fractions stands for, in units of the largest fraction.
pub open spec fn octahedral(bits: (i16, i16)) -> (int, int, int) {
    let (x, y) = (bits.0 as int, bits.1 as int);
    let (ax, ay) = (if x < 0 {
        -x
    } else {
        x
    }, if y < 0 {
        -y
    } else {
        y
    });
    let z = 32767 - ax - ay;
    if z >= 0 {
        (x, y, z)
    } else {
        (if x < 0 {
            ay - 32767
        } else {
            32767 - ay
        }, if y < 0 {
            ax - 32767
        } else {
            32767 - ax
        }, z)
    }
}

/// A face's normal bits stand for its direction: along its axis, up or down.
pub proof fn law_normal_bits_point_along_the_face(face: Face)
    requires
        face.axis < 3,
    ensures
        ({
            let (x, y, z) = octahedral(spec_normal_bits(face));
            let along: int = if face.positive {
                32767
            } else {
                -32767
            };
            &&& x == if face.axis == 0 {
                along
            } else {
                0
            }
            &&& y == if face.axis == 1 {
                along
            } else {
                0
            }
            &&& z == if face.axis == 2 {
                along
            } else {
                0
            }
        }),
{
}

/// A pixel is away from every edge exactly where its centre ray and its four probes all miss, or all hit one face
/// of one voxel.
pub proof fn law_edges_are_where_probes_part(centre: Probe, probes: [Probe; 4])
    ensures
        !pixel_of(centre, probes).near_edge <==> {
            ||| centre is Miss && forall|i: int| 0 <= i < 4 ==> (#[trigger] probes[i]) is Miss
            ||| centre is Hit && forall|i: int|
                0 <= i < 4 ==> (#[trigger] probes[i]) is Hit && probes[i]->Hit_0.voxel == centre->Hit_0.voxel && probes[i]->Hit_0.face
                    == centre->Hit_0.face
        },
        pixel_of(centre, probes).centre is Some <==> centre is Hit,
        centre is Hit ==> pixel_of(centre, probes).centre->0 == centre->Hit_0,
{
    assert(probes[0] == probes@[0] && probes[1] == probes@[1] && probes[2] == probes@[2] && probes[3] == probes@[3]);
    if !pixel_of(centre, probes).near_edge {
        assert forall|i: int| 0 <= i < 4 implies resolves_alike(centre, #[trigger] probes[i]) by {
            assert(i == 0 || i == 1 || i == 2 || i == 3);
        }
    }
}

/// A pixel lies inside one plane exactly where its five rays hit faces that look the same way, of voxels with one
/// coordinate along their axis.
pub proof fn law_planar_pixels_hit_one_plane(centre: Probe, probes: [Probe; 4])
    requires
        probe_planar(centre),
    ensures
        pixel_of(centre, probes).same_plane <==> centre is Hit && forall|i: int|
            0 <= i < 4 ==> (#[trigger] probes[i]) is Hit && {
                let (s, t) = (centre->Hit_0, probes[i]->Hit_0);
                &&& s.face.axis == t.face.axis && s.face.positive == t.face.positive
                &&& s.face.axis == 0 ==> s.voxel.x == t.voxel.x
                &&& s.face.axis == 1 ==> s.voxel.y == t.voxel.y
                &&& s.face.axis == 2 ==> s.voxel.z == t.voxel.z
            },
{
    assert(probes[0] == probes@[0] && probes[1] == probes@[1] && probes[2] == probes@[2] && probes[3] == probes@[3]);
    if pixel_of(centre, probes).same_plane {
        assert forall|i: int| 0 <= i < 4 implies coplanar(centre, #[trigger] probes[i]) by {
            assert(i == 0 || i == 1 || i == 2 || i == 3);
        }
    }
}

/// A surface id shows nothing only where both its words are all ones, and a surface only where it names a triangle
/// of a region: then that triangle's quad's material and face, and the voxel just behind the quad in the unit
/// cell of the point.
pub proof fn law_surface_ids_show_their_quads(id: [u32; 2], cell: [i32; 3], regions: Seq<RegionMesh>)
    ensures
        ({
            let seen = seen_at(id, cell, regions);
            let m = regions[id[0] as int];
            let q = m.quads@[m.tri_quad@[id[1] as int] as int];
            let o = m.key.spec_origin(m.size);
            let none = id[0] == 0xffff_ffff && id[1] == 0xffff_ffff;
            &&& seen is Nothing <==> none
            &&& seen is Surface <==> !none && id[0] < regions.len() && id[1] < m.tri_quad@.len() && m.tri_quad@[id[1] as int] < m.quads@.len()
            &&& seen is Surface && placed(q, o) ==> {
                let v = seen->voxel;
                &&& seen->material == q.material
                &&& 2 * seen->face.axis + (if seen->face.positive {
                    1int
                } else {
                    0
                }) == q.face
                &&& seen->face.axis == 0 ==> v.y == cell[1] && v.z == cell[2] && o.x + q.plane == v.x + q.face % 2
                &&& seen->face.axis == 1 ==> v.x == cell[0] && v.z == cell[2] && o.y + q.plane == v.y + q.face % 2
                &&& seen->face.axis == 2 ==> v.x == cell[0] && v.y == cell[1] && o.z + q.plane == v.z + q.face % 2
            }
        }),
{
}

/// The counts of a report are numbers of pixels, by what the frame stores there and what the reference says.
pub proof fn law_reports_count_pixels(r: &Report, frame: &Frame, refs: Seq<RefPixel>, ms: Seq<Measure>, regions: Seq<RegionMesh>)
    requires
        r.counts(verdicts(frame, refs, ms, regions), refs.len()),
        forall|i: int| 0 <= i < refs.len() ==> ref_planar(#[trigger] refs[i]),
    ensures
        ({
            let n = refs.len();
            let seen = |i: int| seen_at(frame.surface@[i], ms[i].cell, regions);
            let hit = |i: int| refs[i].centre is Some;
            let c = |i: int| refs[i].centre->0;
            let checked = |i: int| !refs[i].near_edge && hit(i) && seen(i) is Surface;
            let inside = |i: int| refs[i].same_plane && hit(i);
            let on_plane = |i: int|
                {
                    let (v, f) = (seen(i)->voxel, seen(i)->face);
                    &&& f.axis == c(i).face.axis && f.positive == c(i).face.positive
                    &&& f.axis == 0 ==> v.x == c(i).voxel.x
                    &&& f.axis == 1 ==> v.y == c(i).voxel.y
                    &&& f.axis == 2 ==> v.z == c(i).voxel.z
                };
            &&& r.ref_hits == pixels(n, hit)
            &&& r.gpu_hits == pixels(n, |i: int| !(seen(i) is Nothing))
            &&& r.near_edge == pixels(n, |i: int| refs[i].near_edge && !(seen(i) is BadId))
            &&& r.checked == pixels(n, checked)
            &&& r.crack == pixels(
                n,
                |i: int| inside(i) && (seen(i) is Nothing || seen(i) is Surface && ms[i].farther && !on_plane(i)),
            )
            &&& r.plane_depth == pixels(n, |i: int| inside(i) && seen(i) is Surface && ms[i].farther && on_plane(i))
            &&& r.material == pixels(
                n,
                |i: int| checked(i) && !(frame.material@[i] == c(i).material && seen(i)->material == c(i).material),
            )
            &&& r.normal == pixels(n, |i: int| checked(i) && !((frame.normal@[i][0], frame.normal@[i][1]) == spec_normal_bits(c(i).face)))
            &&& r.face == pixels(n, |i: int| checked(i) && !(seen(i)->voxel == c(i).voxel && seen(i)->face == c(i).face))
            &&& r.depth == pixels(n, |i: int| checked(i) && ms[i].off)
            &&& r.extra == pixels(n, |i: int| !refs[i].near_edge && !hit(i) && seen(i) is Surface)
            &&& r.bad_id == pixels(n, |i: int| seen(i) is BadId)
        }),
{
    let n = refs.len();
    let vs = verdicts(frame, refs, ms, regions);
    let seen = |i: int| seen_at(frame.surface@[i], ms[i].cell, regions);
    let hit = |i: int| refs[i].centre is Some;
    let c = |i: int| refs[i].centre->0;
    let checked = |i: int| !refs[i].near_edge && hit(i) && seen(i) is Surface;
    let inside = |i: int| refs[i].same_plane && hit(i);
    let on_plane = |i: int|
        {
            let (v, f) = (seen(i)->voxel, seen(i)->face);
            &&& f.axis == c(i).face.axis && f.positive == c(i).face.positive
            &&& f.axis == 0 ==> v.x == c(i).voxel.x
            &&& f.axis == 1 ==> v.y == c(i).voxel.y
            &&& f.axis == 2 ==> v.z == c(i).voxel.z
        };
    assert forall|i: int| 0 <= i < n && hit(i) implies #[trigger] on_plane(i) == (plane_at(seen(i)->voxel, seen(i)->face) == plane_at(
        c(i).voxel,
        c(i).face,
    )) by {
        assert(ref_planar(refs[i]));
        law_planes_are_of_one_coordinate(c(i).voxel, c(i).face, seen(i)->voxel, seen(i)->face);
    }
    lemma_pixels(vs, n, |v: Verdict| v.ref_hit, hit);
    lemma_pixels(vs, n, |v: Verdict| v.gpu_hit, |i: int| !(seen(i) is Nothing));
    lemma_pixels(vs, n, |v: Verdict| v.near_edge, |i: int| refs[i].near_edge && !(seen(i) is BadId));
    lemma_pixels(vs, n, |v: Verdict| v.checked, checked);
    lemma_pixels(
        vs,
        n,
        |v: Verdict| v.crack,
        |i: int| inside(i) && (seen(i) is Nothing || seen(i) is Surface && ms[i].farther && !on_plane(i)),
    );
    lemma_pixels(vs, n, |v: Verdict| v.plane_depth, |i: int| inside(i) && seen(i) is Surface && ms[i].farther && on_plane(i));
    lemma_pixels(
        vs,
        n,
        |v: Verdict| v.material,
        |i: int| checked(i) && !(frame.material@[i] == c(i).material && seen(i)->material == c(i).material),
    );
    lemma_pixels(
        vs,
        n,
        |v: Verdict| v.normal,
        |i: int| checked(i) && !((frame.normal@[i][0], frame.normal@[i][1]) == spec_normal_bits(c(i).face)),
    );
    lemma_pixels(vs, n, |v: Verdict| v.face, |i: int| checked(i) && !(seen(i)->voxel == c(i).voxel && seen(i)->face == c(i).face));
    lemma_pixels(vs, n, |v: Verdict| v.depth, |i: int| checked(i) && ms[i].off);
    lemma_pixels(vs, n, |v: Verdict| v.extra, |i: int| !refs[i].near_edge && !hit(i) && seen(i) is Surface);
    lemma_pixels(vs, n, |v: Verdict| v.bad_id, |i: int| seen(i) is BadId);
}

/// A frame that passes stores, at every pixel away from edges, what the reference says: no surface where it misses,
/// and its material, normal, voxel, face and distance where it hits.
pub proof fn law_passing_frames_store_the_reference(
    r: &Report,
    frame: &Frame,
    refs: Seq<RefPixel>,
    ms: Seq<Measure>,
    regions: Seq<RegionMesh>,
    i: int,
)
    requires
        r.counts(verdicts(frame, refs, ms, regions), refs.len()),
        r.spec_failures() == 0,
        0 <= i < refs.len(),
        !refs[i].near_edge,
        refs[i].centre is Some ==> refs[i].same_plane,
    ensures
        match refs[i].centre {
            None => frame.surface@[i][0] == 0xffff_ffff && frame.surface@[i][1] == 0xffff_ffff,
            Some(c) => {
                let seen = seen_at(frame.surface@[i], ms[i].cell, regions);
                &&& seen is Surface && seen->voxel == c.voxel && seen->face == c.face && seen->material == c.material
                &&& frame.material@[i] == c.material
                &&& (frame.normal@[i][0], frame.normal@[i][1]) == spec_normal_bits(c.face)
                &&& !ms[i].off
            },
        },
{
    let n = refs.len();
    let vs = verdicts(frame, refs, ms, regions);
    lemma_tally(vs, n, |v: Verdict| v.crack);
    lemma_tally(vs, n, |v: Verdict| v.material);
    lemma_tally(vs, n, |v: Verdict| v.normal);
    lemma_tally(vs, n, |v: Verdict| v.face);
    lemma_tally(vs, n, |v: Verdict| v.depth);
    lemma_tally(vs, n, |v: Verdict| v.extra);
    lemma_tally(vs, n, |v: Verdict| v.bad_id);
    let v = vs[i];
    assert(!v.crack && !v.material && !v.normal && !v.face && !v.depth && !v.extra && !v.bad_id);
}

/// Where a kind of failure comes in the order of the checks.
pub open spec fn wrong_rank(w: Wrong) -> int {
    match w {
        Wrong::BadId => 0,
        Wrong::Crack => 1,
        Wrong::Extra => 2,
        Wrong::Material => 3,
        Wrong::Normal => 4,
        Wrong::Face => 5,
        Wrong::Depth => 6,
    }
}

/// A pixel has a failure of that kind.
pub open spec fn is_wrong(v: Verdict, w: Wrong) -> bool {
    match w {
        Wrong::BadId => v.bad_id,
        Wrong::Crack => v.crack,
        Wrong::Extra => v.extra,
        Wrong::Material => v.material,
        Wrong::Normal => v.normal,
        Wrong::Face => v.face,
        Wrong::Depth => v.depth,
    }
}

/// Where a kind of disagreement comes in the order of the checks.
pub open spec fn disagreement_rank(w: Disagreement) -> int {
    match w {
        Disagreement::HitMiss => 0,
        Disagreement::Differ => 1,
        Disagreement::Depth => 2,
    }
}

/// Two frames have a disagreement of that kind at a pixel.
pub open spec fn disagrees(p: Pair, w: Disagreement) -> bool {
    match w {
        Disagreement::HitMiss => p.hit_miss,
        Disagreement::Differ => p.differ,
        Disagreement::Depth => p.depth,
    }
}

/// `s` lists all notes that hold and come before place `bound`, in order. A pixel has seven places.
#[verifier::opaque]
spec fn lists<W>(s: Seq<(usize, W)>, rank: spec_fn(W) -> int, holds: spec_fn(usize, W) -> bool, bound: int) -> bool {
    &&& forall|k: int| 0 <= k < s.len() ==> holds((#[trigger] s[k]).0, s[k].1) && 7 * s[k].0 + rank(s[k].1) < bound
    &&& forall|k: int, l: int| 0 <= k < l < s.len() ==> 7 * (#[trigger] s[k]).0 + rank(s[k].1) < 7 * (#[trigger] s[l]).0 + rank(s[l].1)
    &&& forall|p: usize, w: W| #[trigger] holds(p, w) && 7 * p + rank(w) < bound ==> s.contains((p, w))
}

proof fn lemma_lists<W>(s: Seq<(usize, W)>, rank: spec_fn(W) -> int, holds: spec_fn(usize, W) -> bool, on: bool, pixel: usize, w: W)
    requires
        lists(s, rank, holds, 7 * pixel + rank(w)),
        on == holds(pixel, w),
        forall|x: W| 0 <= #[trigger] rank(x) < 7,
        forall|x: W| #[trigger] rank(x) == rank(w) ==> x == w,
    ensures
        lists(s + said(on, pixel, w), rank, holds, 7 * pixel + rank(w) + 1),
{
    reveal(lists);
    let now = s + said(on, pixel, w);
    let bound = 7 * pixel + rank(w);
    if on {
        assert(now =~= s.push((pixel, w)));
    } else {
        assert(now =~= s);
    }
    assert forall|k: int| 0 <= k < s.len() implies #[trigger] now[k] == s[k] by {}
    assert forall|k: int, l: int| 0 <= k < l < now.len() implies 7 * (#[trigger] now[k]).0 + rank(now[k].1) < 7 * (#[trigger] now[l]).0 + rank(
        now[l].1,
    ) by {
        assert(now[k] == s[k]);
        if l < s.len() {
            assert(now[l] == s[l]);
        }
    }
    assert forall|p: usize, x: W| #[trigger] holds(p, x) && 7 * p + rank(x) < bound + 1 implies now.contains((p, x)) by {
        if 7 * p + rank(x) < bound {
            assert(s.contains((p, x)));
            let k = choose|k: int| 0 <= k < s.len() && s[k] == (p, x);
            assert(now[k] == (p, x));
        } else {
            assert(0 <= rank(x) < 7 && 0 <= rank(w) < 7);
            assert(p == pixel && x == w);
            assert(now[s.len() as int] == (pixel, w));
        }
    }
}

proof fn lemma_lists_on<W>(s: Seq<(usize, W)>, rank: spec_fn(W) -> int, holds: spec_fn(usize, W) -> bool, bound: int, to: int)
    requires
        lists(s, rank, holds, bound),
        bound <= to,
        forall|p: usize, w: W| #[trigger] holds(p, w) ==> !(bound <= 7 * p + rank(w) < to),
    ensures
        lists(s, rank, holds, to),
{
    reveal(lists);
}

proof fn lemma_count_step<T, W>(vs: Seq<T>, n: nat, p: spec_fn(T) -> bool, on: bool, pixel: usize, w: W)
    requires
        n > 0,
        on == p(vs[n - 1]),
    ensures
        tally(vs, n, p) == tally(vs, (n - 1) as nat, p) + said(on, pixel, w).len(),
{
}

proof fn lemma_wrongs_length(i: usize, v: Verdict)
    ensures
        wrongs(i, v).len() == said(v.bad_id, i, Wrong::BadId).len() + said(v.crack, i, Wrong::Crack).len() + said(v.extra, i, Wrong::Extra).len()
            + said(v.material, i, Wrong::Material).len() + said(v.normal, i, Wrong::Normal).len() + said(v.face, i, Wrong::Face).len() + said(
            v.depth,
            i,
            Wrong::Depth,
        ).len(),
{
}

proof fn lemma_wrongs_count(vs: Seq<Verdict>, n: nat)
    ensures
        all_wrongs(vs, n).len() == tally(vs, n, |v: Verdict| v.bad_id) + tally(vs, n, |v: Verdict| v.crack) + tally(vs, n, |v: Verdict| v.extra)
            + tally(vs, n, |v: Verdict| v.material) + tally(vs, n, |v: Verdict| v.normal) + tally(vs, n, |v: Verdict| v.face) + tally(
            vs,
            n,
            |v: Verdict| v.depth,
        ),
    decreases n,
{
    if n > 0 {
        lemma_wrongs_count(vs, (n - 1) as nat);
        let i = (n - 1) as usize;
        let v = vs[n - 1];
        lemma_count_step(vs, n, |v: Verdict| v.bad_id, v.bad_id, i, Wrong::BadId);
        lemma_count_step(vs, n, |v: Verdict| v.crack, v.crack, i, Wrong::Crack);
        lemma_count_step(vs, n, |v: Verdict| v.extra, v.extra, i, Wrong::Extra);
        lemma_count_step(vs, n, |v: Verdict| v.material, v.material, i, Wrong::Material);
        lemma_count_step(vs, n, |v: Verdict| v.normal, v.normal, i, Wrong::Normal);
        lemma_count_step(vs, n, |v: Verdict| v.face, v.face, i, Wrong::Face);
        lemma_count_step(vs, n, |v: Verdict| v.depth, v.depth, i, Wrong::Depth);
        lemma_wrongs_length(i, v);
    }
}

proof fn lemma_all_wrongs(vs: Seq<Verdict>, n: nat, rank: spec_fn(Wrong) -> int, holds: spec_fn(usize, Wrong) -> bool)
    requires
        n <= vs.len() <= usize::MAX,
        rank == (|w: Wrong| wrong_rank(w)),
        holds == (|p: usize, w: Wrong| is_wrong(vs[p as int], w)),
    ensures
        lists(all_wrongs(vs, n), rank, holds, 7 * n as int),
    decreases n,
{
    if n == 0 {
        reveal(lists);
    } else {
        lemma_all_wrongs(vs, (n - 1) as nat, rank, holds);
        let i = (n - 1) as usize;
        let v = vs[n - 1];
        let all = all_wrongs(vs, (n - 1) as nat);
        let s1 = said(v.bad_id, i, Wrong::BadId);
        let s2 = said(v.crack, i, Wrong::Crack);
        let s3 = said(v.extra, i, Wrong::Extra);
        let s4 = said(v.material, i, Wrong::Material);
        let s5 = said(v.normal, i, Wrong::Normal);
        let s6 = said(v.face, i, Wrong::Face);
        let s7 = said(v.depth, i, Wrong::Depth);
        lemma_lists(all, rank, holds, v.bad_id, i, Wrong::BadId);
        lemma_lists(all + s1, rank, holds, v.crack, i, Wrong::Crack);
        lemma_lists(all + s1 + s2, rank, holds, v.extra, i, Wrong::Extra);
        lemma_lists(all + s1 + s2 + s3, rank, holds, v.material, i, Wrong::Material);
        lemma_lists(all + s1 + s2 + s3 + s4, rank, holds, v.normal, i, Wrong::Normal);
        lemma_lists(all + s1 + s2 + s3 + s4 + s5, rank, holds, v.face, i, Wrong::Face);
        lemma_lists(all + s1 + s2 + s3 + s4 + s5 + s6, rank, holds, v.depth, i, Wrong::Depth);
        lemma_chain(all, s1, s2);
        lemma_chain(all, s1 + s2, s3);
        lemma_chain(all, s1 + s2 + s3, s4);
        lemma_chain(all, s1 + s2 + s3 + s4, s5);
        lemma_chain(all, s1 + s2 + s3 + s4 + s5, s6);
        lemma_chain(all, s1 + s2 + s3 + s4 + s5 + s6, s7);
        assert(all_wrongs(vs, n) == all + (s1 + s2 + s3 + s4 + s5 + s6 + s7));
    }
}

proof fn lemma_all_disagreements(ps: Seq<Pair>, n: nat, rank: spec_fn(Disagreement) -> int, holds: spec_fn(usize, Disagreement) -> bool)
    requires
        n <= ps.len() <= usize::MAX,
        rank == (|w: Disagreement| disagreement_rank(w)),
        holds == (|p: usize, w: Disagreement| disagrees(ps[p as int], w)),
    ensures
        lists(all_disagreements(ps, n), rank, holds, 7 * n as int),
        all_disagreements(ps, n).len() == tally(ps, n, |p: Pair| p.hit_miss) + tally(ps, n, |p: Pair| p.differ) + tally(ps, n, |p: Pair| p.depth),
    decreases n,
{
    if n == 0 {
        reveal(lists);
    } else {
        lemma_all_disagreements(ps, (n - 1) as nat, rank, holds);
        let i = (n - 1) as usize;
        let p = ps[n - 1];
        let all = all_disagreements(ps, (n - 1) as nat);
        let s1 = said(p.hit_miss, i, Disagreement::HitMiss);
        let s2 = said(p.differ, i, Disagreement::Differ);
        let s3 = said(p.depth, i, Disagreement::Depth);
        lemma_lists(all, rank, holds, p.hit_miss, i, Disagreement::HitMiss);
        lemma_lists(all + s1, rank, holds, p.differ, i, Disagreement::Differ);
        lemma_lists(all + s1 + s2, rank, holds, p.depth, i, Disagreement::Depth);
        lemma_chain(all, s1, s2);
        lemma_chain(all, s1 + s2, s3);
        assert(all_disagreements(ps, n) == all + (s1 + s2 + s3));
        lemma_lists_on(all_disagreements(ps, n), rank, holds, 7 * i + 3, 7 * n as int);
    }
}

/// The examples of a report are its first failures, up to eight: each names a pixel that has that failure, and they come by pixel
/// and then in the order of the checks, none twice.
pub proof fn law_report_examples_are_failures(r: &Report, vs: Seq<Verdict>)
    requires
        r.counts(vs, vs.len()),
        vs.len() <= usize::MAX,
    ensures
        r.examples@.len() == if r.spec_failures() < 8 {
            r.spec_failures()
        } else {
            8
        },
        forall|k: int| 0 <= k < r.examples@.len() ==> (#[trigger] r.examples@[k]).0 < vs.len() && is_wrong(vs[r.examples@[k].0 as int], r.examples@[k].1),
        forall|k: int, l: int|
            0 <= k < l < r.examples@.len() ==> 7 * (#[trigger] r.examples@[k]).0 + wrong_rank(r.examples@[k].1) < 7 * (#[trigger] r.examples@[l]).0
                + wrong_rank(r.examples@[l].1),
{
    reveal(lists);
    let rank = |w: Wrong| wrong_rank(w);
    let holds = |p: usize, w: Wrong| is_wrong(vs[p as int], w);
    let all = all_wrongs(vs, vs.len());
    lemma_all_wrongs(vs, vs.len(), rank, holds);
    lemma_wrongs_count(vs, vs.len());
    assert forall|k: int| 0 <= k < r.examples@.len() implies #[trigger] r.examples@[k] == all[k] by {}
    assert forall|k: int| 0 <= k < r.examples@.len() implies (#[trigger] r.examples@[k]).0 < vs.len() && is_wrong(
        vs[r.examples@[k].0 as int],
        r.examples@[k].1,
    ) by {
        assert(holds(all[k].0, all[k].1));
        assert(rank(all[k].1) >= 0);
    }
}

/// A failure that is not among the examples of a report comes behind all of them, and they are eight.
pub proof fn law_report_examples_come_first(r: &Report, vs: Seq<Verdict>, p: usize, w: Wrong, k: int)
    requires
        r.counts(vs, vs.len()),
        vs.len() <= usize::MAX,
        p < vs.len(),
        is_wrong(vs[p as int], w),
        !r.examples@.contains((p, w)),
        0 <= k < 8,
    ensures
        r.examples@.len() == 8,
        7 * r.examples@[k].0 + wrong_rank(r.examples@[k].1) < 7 * p + wrong_rank(w),
{
    reveal(lists);
    let rank = |w: Wrong| wrong_rank(w);
    let holds = |p: usize, w: Wrong| is_wrong(vs[p as int], w);
    let all = all_wrongs(vs, vs.len());
    lemma_all_wrongs(vs, vs.len(), rank, holds);
    assert(holds(p, w) && rank(w) < 7);
    assert(all.contains((p, w)));
    let l = choose|l: int| 0 <= l < all.len() && all[l] == (p, w);
    if l < r.examples@.len() {
        assert(r.examples@[l] == (p, w));
    }
    assert(all[k] == r.examples@[k]);
}

/// The examples of an agreement are its first disagreements, up to eight: each names a pixel that has that disagreement, and they come by pixel
/// and then in the order of the checks, none twice.
pub proof fn law_agreement_examples_are_disagreements(r: &Agreement, ps: Seq<Pair>)
    requires
        r.counts(ps, ps.len()),
        ps.len() <= usize::MAX,
    ensures
        r.examples@.len() == if r.spec_failures() < 8 {
            r.spec_failures()
        } else {
            8
        },
        forall|k: int| 0 <= k < r.examples@.len() ==> (#[trigger] r.examples@[k]).0 < ps.len() && disagrees(ps[r.examples@[k].0 as int], r.examples@[k].1),
        forall|k: int, l: int|
            0 <= k < l < r.examples@.len() ==> 7 * (#[trigger] r.examples@[k]).0 + disagreement_rank(r.examples@[k].1) < 7 * (#[trigger] r.examples@[l]).0
                + disagreement_rank(r.examples@[l].1),
{
    reveal(lists);
    let rank = |w: Disagreement| disagreement_rank(w);
    let holds = |p: usize, w: Disagreement| disagrees(ps[p as int], w);
    let all = all_disagreements(ps, ps.len());
    lemma_all_disagreements(ps, ps.len(), rank, holds);
    assert forall|k: int| 0 <= k < r.examples@.len() implies #[trigger] r.examples@[k] == all[k] by {}
    assert forall|k: int| 0 <= k < r.examples@.len() implies (#[trigger] r.examples@[k]).0 < ps.len() && disagrees(
        ps[r.examples@[k].0 as int],
        r.examples@[k].1,
    ) by {
        assert(holds(all[k].0, all[k].1));
        assert(rank(all[k].1) >= 0);
    }
}

/// A disagreement that is not among the examples of an agreement comes behind all of them, and they are eight.
pub proof fn law_agreement_examples_come_first(r: &Agreement, ps: Seq<Pair>, p: usize, w: Disagreement, k: int)
    requires
        r.counts(ps, ps.len()),
        ps.len() <= usize::MAX,
        p < ps.len(),
        disagrees(ps[p as int], w),
        !r.examples@.contains((p, w)),
        0 <= k < 8,
    ensures
        r.examples@.len() == 8,
        7 * r.examples@[k].0 + disagreement_rank(r.examples@[k].1) < 7 * p + disagreement_rank(w),
{
    reveal(lists);
    let rank = |w: Disagreement| disagreement_rank(w);
    let holds = |p: usize, w: Disagreement| disagrees(ps[p as int], w);
    let all = all_disagreements(ps, ps.len());
    lemma_all_disagreements(ps, ps.len(), rank, holds);
    assert(holds(p, w) && rank(w) < 7);
    assert(all.contains((p, w)));
    let l = choose|l: int| 0 <= l < all.len() && all[l] == (p, w);
    if l < r.examples@.len() {
        assert(r.examples@[l] == (p, w));
    }
    assert(all[k] == r.examples@[k]);
}

} // verus!
