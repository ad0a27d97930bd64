//! The sparse voxel world: voxels in 8x8x8 bricks, bricks in chunks of 4x4x4.
//!
//! A brick without an occupied voxel is not stored. Every stored brick carries the content version
//! of the edit that last changed it.
use crate::sorted::{Key, SortedMap};
use vstd::prelude::*;

verus! {

/// Voxels per brick edge.
pub const BRICK_EDGE: i32 = 8;

/// Voxels per brick.
pub const BRICK_VOXELS: usize = 512;

/// Bricks per chunk edge.
pub const CHUNK_BRICKS: i32 = 4;

/// A voxel's integer position.
#[derive(Clone, Copy, Debug, PartialEq, Eq, PartialOrd, Ord, Hash, Structural)]
pub struct VoxelCoord {
    pub x: i32,
    pub y: i32,
    pub z: i32,
}

/// A chunk's integer position, in chunks.
#[derive(Clone, Copy, Debug, PartialEq, Eq, PartialOrd, Ord, Hash, Structural)]
pub struct ChunkCoord {
    pub x: i32,
    pub y: i32,
    pub z: i32,
}

/// A brick's integer position, in bricks. Ordered by chunk first.
#[derive(Clone, Copy, Debug, PartialEq, Eq, Hash, Structural)]
pub struct BrickKey {
    pub x: i32,
    pub y: i32,
    pub z: i32,
}

/// A voxel's place in its brick, `x + 8 y + 64 z`.
#[derive(Clone, Copy, Debug, PartialEq, Eq, PartialOrd, Ord, Hash, Structural)]
pub struct VoxelIndex {
    pub raw: usize,
}

#[derive(Clone, Copy, Debug, PartialEq, Eq, PartialOrd, Ord, Hash, Structural)]
pub struct MaterialId {
    pub id: u16,
}

/// The number of an edit. Content that was last changed by the same edit is the same content.
#[derive(Clone, Copy, Debug, PartialEq, Eq, PartialOrd, Ord, Hash, Structural)]
pub struct ContentVersion {
    pub number: u64,
}

/// One of a voxel's six faces: the axis of its outward normal, and the normal's sign.
#[derive(Clone, Copy, Debug, PartialEq, Eq, PartialOrd, Ord, Hash, Structural)]
pub struct Face {
    pub axis: u8,
    pub positive: bool,
}

impl MaterialId {
    pub fn raw(self) -> (r: u16)
        ensures
            r == self.id,
    {
        self.id
    }
}

impl Key for MaterialId {
    open spec fn lt(self, other: MaterialId) -> bool {
        self.id < other.id
    }

    proof fn lt_irreflexive(a: MaterialId) {
    }

    proof fn lt_transitive(a: MaterialId, b: MaterialId, c: MaterialId) {
    }

    proof fn lt_total(a: MaterialId, b: MaterialId) {
    }

    fn before(&self, other: &MaterialId) -> (r: bool) {
        self.id < other.id
    }
}

/// Division rounding down.
pub fn floor_div(a: i32, d: i32) -> (r: i32)
    requires
        d > 0,
    ensures
        r == a as int / d as int,
{
    if a >= 0 {
        a / d
    } else {
        let q: i32 = (-(a + 1)) / d;
        proof {
            let n = -(a as int + 1);
            let dd = d as int;
            vstd::arithmetic::div_mod::lemma_fundamental_div_mod(n, dd);
            vstd::arithmetic::div_mod::lemma_mod_pos_bound(n, dd);
            let qq = n / dd;
            let rr = dd - 1 - n % dd;
            assert(a as int == dd * (-qq - 1) + rr) by (nonlinear_arith)
                requires
                    n == -(a as int + 1),
                    n == dd * qq + n % dd,
                    rr == dd - 1 - n % dd,
            ;
            vstd::arithmetic::div_mod::lemma_fundamental_div_mod_converse(a as int, dd, -qq - 1, rr);
            assert(qq <= n) by (nonlinear_arith)
                requires
                    n == dd * qq + n % dd,
                    dd > 0,
                    0 <= n % dd,
                    n >= 0,
            ;
        }
        -q - 1
    }
}

/// The smallest and largest brick coordinate that holds voxels.
pub open spec fn brick_range(b: int) -> bool {
    -0x1000_0000 <= b < 0x1000_0000
}

impl BrickKey {
    /// A key that some voxel falls into.
    pub open spec fn wf(self) -> bool {
        brick_range(self.x as int) && brick_range(self.y as int) && brick_range(self.z as int)
    }

    /// A key whose voxels all have voxels on every side.
    pub open spec fn inner(self) -> bool {
        &&& -0x1000_0000 < self.x < 0x0FFF_FFFF
        &&& -0x1000_0000 < self.y < 0x0FFF_FFFF
        &&& -0x1000_0000 < self.z < 0x0FFF_FFFF
    }

    /// A key inside the world's bounds.
    pub open spec fn in_bounds(self) -> bool {
        &&& -0x0800_0000 <= self.x < 0x0800_0000
        &&& -0x0800_0000 <= self.y < 0x0800_0000
        &&& -0x0800_0000 <= self.z < 0x0800_0000
    }

    pub open spec fn spec_chunk(self) -> ChunkCoord {
        ChunkCoord { x: (self.x as int / 4) as i32, y: (self.y as int / 4) as i32, z: (self.z as int / 4) as i32 }
    }

    /// The chunk the brick is in.
    pub fn chunk(self) -> (r: ChunkCoord)
        ensures
            r == self.spec_chunk(),
    {
        ChunkCoord {
            x: floor_div(self.x, CHUNK_BRICKS),
            y: floor_div(self.y, CHUNK_BRICKS),
            z: floor_div(self.z, CHUNK_BRICKS),
        }
    }

    pub open spec fn spec_offset(self, dx: int, dy: int, dz: int) -> BrickKey {
        BrickKey { x: (self.x + dx) as i32, y: (self.y + dy) as i32, z: (self.z + dz) as i32 }
    }

    pub fn offset(self, dx: i32, dy: i32, dz: i32) -> (r: BrickKey)
        requires
            i32::MIN <= self.x + dx <= i32::MAX,
            i32::MIN <= self.y + dy <= i32::MAX,
            i32::MIN <= self.z + dz <= i32::MAX,
        ensures
            r == self.spec_offset(dx as int, dy as int, dz as int),
    {
        BrickKey { x: self.x + dx, y: self.y + dy, z: self.z + dz }
    }

    pub open spec fn spec_origin(self) -> VoxelCoord {
        VoxelCoord { x: (8 * self.x) as i32, y: (8 * self.y) as i32, z: (8 * self.z) as i32 }
    }

    /// The brick's voxel with the smallest coordinates.
    pub fn origin(self) -> (r: VoxelCoord)
        requires
            self.wf(),
        ensures
            r == self.spec_origin(),
    {
        VoxelCoord { x: 8 * self.x, y: 8 * self.y, z: 8 * self.z }
    }
}

pub open spec fn lex3(a: (int, int, int), b: (int, int, int)) -> bool {
    a.0 < b.0 || (a.0 == b.0 && (a.1 < b.1 || (a.1 == b.1 && a.2 < b.2)))
}

impl Key for BrickKey {
    open spec fn lt(self, other: BrickKey) -> bool {
        ||| self.spec_chunk().lt(other.spec_chunk())
        ||| (self.spec_chunk() == other.spec_chunk() && lex3(
            (self.x as int, self.y as int, self.z as int),
            (other.x as int, other.y as int, other.z as int),
        ))
    }

    proof fn lt_irreflexive(a: BrickKey) {
    }

    proof fn lt_transitive(a: BrickKey, b: BrickKey, c: BrickKey) {
    }

    proof fn lt_total(a: BrickKey, b: BrickKey) {
    }

    fn before(&self, other: &BrickKey) -> (r: bool) {
        let a = self.chunk();
        let b = other.chunk();
        if a == b {
            self.x < other.x || (self.x == other.x && (self.y < other.y || (self.y == other.y && self.z < other.z)))
        } else {
            a.before(&b)
        }
    }
}

impl Key for ChunkCoord {
    open spec fn lt(self, other: ChunkCoord) -> bool {
        lex3((self.x as int, self.y as int, self.z as int), (other.x as int, other.y as int, other.z as int))
    }

    proof fn lt_irreflexive(a: ChunkCoord) {
    }

    proof fn lt_transitive(a: ChunkCoord, b: ChunkCoord, c: ChunkCoord) {
    }

    proof fn lt_total(a: ChunkCoord, b: ChunkCoord) {
    }

    fn before(&self, other: &ChunkCoord) -> (r: bool) {
        self.x < other.x || (self.x == other.x && (self.y < other.y || (self.y == other.y && self.z < other.z)))
    }
}

impl VoxelCoord {
    pub fn new(x: i32, y: i32, z: i32) -> (r: VoxelCoord)
        ensures
            r == (VoxelCoord { x, y, z }),
    {
        VoxelCoord { x, y, z }
    }

    /// The brick the voxel is in.
    pub open spec fn key(self) -> BrickKey {
        BrickKey { x: (self.x as int / 8) as i32, y: (self.y as int / 8) as i32, z: (self.z as int / 8) as i32 }
    }

    /// A voxel inside the world's bounds: every coordinate in `[-2^30, 2^30)`.
    pub open spec fn in_bounds(self) -> bool {
        &&& -0x4000_0000 <= self.x < 0x4000_0000
        &&& -0x4000_0000 <= self.y < 0x4000_0000
        &&& -0x4000_0000 <= self.z < 0x4000_0000
    }

    pub fn inside(self) -> (r: bool)
        ensures
            r == self.in_bounds(),
    {
        -0x4000_0000 <= self.x && self.x < 0x4000_0000 && -0x4000_0000 <= self.y && self.y < 0x4000_0000 && -0x4000_0000
            <= self.z && self.z < 0x4000_0000
    }

    /// The voxel's place in its brick.
    pub open spec fn place(self) -> int {
        self.x as int % 8 + 8 * (self.y as int % 8) + 64 * (self.z as int % 8)
    }

    /// The voxel's brick and its place there.
    pub fn split(self) -> (r: (BrickKey, VoxelIndex))
        ensures
            r.0 == self.key(),
            r.0.wf(),
            r.1.raw == self.place(),
            r.1.raw < 512,
    {
        let k = BrickKey { x: floor_div(self.x, 8), y: floor_div(self.y, 8), z: floor_div(self.z, 8) };
        let lx: usize = (self.x - 8 * k.x) as usize;
        let ly: usize = (self.y - 8 * k.y) as usize;
        let lz: usize = (self.z - 8 * k.z) as usize;
        (k, VoxelIndex { raw: lx + 8 * ly + 64 * lz })
    }
}

/// A voxel is its brick and its place in it.
pub proof fn lemma_split_injective(a: VoxelCoord, b: VoxelCoord)
    requires
        a.key() == b.key(),
        a.place() == b.place(),
    ensures
        a == b,
{
}

pub open spec fn place_of(x: int, y: int, z: int) -> int {
    x + 8 * y + 64 * z
}

impl VoxelIndex {
    pub fn xyz(self) -> (r: (i32, i32, i32))
        requires
            self.raw < 512,
        ensures
            0 <= r.0 < 8,
            0 <= r.1 < 8,
            0 <= r.2 < 8,
            self.raw == place_of(r.0 as int, r.1 as int, r.2 as int),
    {
        ((self.raw % 8) as i32, (self.raw / 8 % 8) as i32, (self.raw / 64) as i32)
    }
}

/// Equality of voxel contents.
pub fn same_material(a: Option<MaterialId>, b: Option<MaterialId>) -> (r: bool)
    ensures
        r == (a == b),
{
    match (a, b) {
        (None, None) => true,
        (Some(p), Some(q)) => p.id == q.id,
        _ => false,
    }
}

/// The contents of one brick.
#[derive(Clone, Debug)]
pub struct Brick {
    materials: Vec<Option<MaterialId>>,
    version: ContentVersion,
}

impl View for Brick {
    type V = Seq<Option<MaterialId>>;

    closed spec fn view(&self) -> Seq<Option<MaterialId>> {
        self.materials@
    }
}

impl Brick {
    pub open spec fn wf(&self) -> bool {
        self@.len() == 512
    }

    pub closed spec fn spec_version(&self) -> ContentVersion {
        self.version
    }

    /// The contents of the voxel at local position `(x, y, z)`.
    pub open spec fn local(&self, x: int, y: int, z: int) -> Option<MaterialId> {
        self@[place_of(x, y, z)]
    }

    pub fn version(&self) -> (r: ContentVersion)
        ensures
            r == self.spec_version(),
    {
        self.version
    }

    pub fn get(&self, idx: VoxelIndex) -> (r: Option<MaterialId>)
        requires
            self.wf(),
            idx.raw < 512,
        ensures
            r == self@[idx.raw as int],
    {
        self.materials[idx.raw]
    }

    /// An equal brick.
    pub fn copy(&self) -> (r: Brick)
        ensures
            r@ == self@,
            r.spec_version() == self.spec_version(),
    {
        let mut materials: Vec<Option<MaterialId>> = Vec::new();
        let mut i: usize = 0;
        while i < self.materials.len()
            invariant
                i <= self.materials@.len(),
                materials@ =~= self.materials@.take(i as int),
            decreases self.materials@.len() - i,
        {
            materials.push(self.materials[i]);
            i += 1;
        }
        assert(materials@ =~= self.materials@);
        Brick { materials, version: self.version }
    }

    /// Whether both bricks hold the same voxels.
    pub fn same_content(&self, other: &Brick) -> (r: bool)
        requires
            self.wf(),
            other.wf(),
        ensures
            r == (self@ == other@),
    {
        let mut i: usize = 0;
        while i < BRICK_VOXELS
            invariant
                i <= 512,
                self.wf(),
                other.wf(),
                forall|j: int| 0 <= j < i ==> self@[j] == other@[j],
            decreases 512 - i,
        {
            if !same_material(self.materials[i], other.materials[i]) {
                return false;
            }
            i += 1;
        }
        assert(self@ =~= other@);
        true
    }

    /// The occupied voxels, in place order.
    pub fn voxels(&self) -> (r: Vec<(VoxelIndex, MaterialId)>)
        requires
            self.wf(),
        ensures
            r@ == occupied_places(self@, 512),
    {
        let mut out: Vec<(VoxelIndex, MaterialId)> = Vec::new();
        let mut i: usize = 0;
        while i < BRICK_VOXELS
            invariant
                i <= 512,
                self.wf(),
                out@ == occupied_places(self@, i as nat),
            decreases 512 - i,
        {
            if let Some(m) = self.materials[i] {
                out.push((VoxelIndex { raw: i }, m));
            }
            i += 1;
        }
        out
    }

    fn is_empty(&self) -> (r: bool)
        requires
            self.wf(),
        ensures
            r == (forall|i: int| 0 <= i < 512 ==> self@[i] is None),
    {
        let mut i: usize = 0;
        while i < BRICK_VOXELS
            invariant
                i <= 512,
                self.wf(),
                forall|j: int| 0 <= j < i ==> self@[j] is None,
            decreases 512 - i,
        {
            if self.materials[i].is_some() {
                assert(self@[i as int] is Some);
                return false;
            }
            i += 1;
        }
        true
    }
}

/// The occupied places among the first `n`, in order, with their materials.
pub open spec fn occupied_places(s: Seq<Option<MaterialId>>, n: nat) -> Seq<(VoxelIndex, MaterialId)>
    decreases n,
{
    if n == 0 {
        Seq::empty()
    } else {
        let head = occupied_places(s, (n - 1) as nat);
        match s[n - 1] {
            Some(m) => head.push((VoxelIndex { raw: (n - 1) as usize }, m)),
            None => head,
        }
    }
}

/// Why an edit was refused.
#[derive(Clone, Copy, Debug, PartialEq, Eq, Structural)]
pub enum WorldError {
    /// A voxel outside the world's bounds.
    OutOfBounds,
}

/// A world of voxels.
#[derive(Clone, Debug)]
pub struct World {
    bricks: SortedMap<BrickKey, Brick>,
    version: u64,
}

impl World {
    pub closed spec fn map(&self) -> Map<BrickKey, Brick> {
        self.bricks@
    }

    /// The stored keys in order.
    pub closed spec fn keys(&self) -> Seq<BrickKey> {
        self.bricks.keys()
    }

    pub closed spec fn sorted(&self) -> bool {
        self.bricks.wf()
    }

    pub closed spec fn edits(&self) -> u64 {
        self.version
    }

    pub open spec fn wf(&self) -> bool {
        &&& self.sorted()
        &&& forall|k: BrickKey|
            #[trigger] self.map().dom().contains(k) ==> {
                &&& k.in_bounds()
                &&& self.map()[k].wf()
                &&& self.map()[k].spec_version().number <= self.edits()
                &&& exists|i: int| 0 <= i < 512 && self.map()[k]@[i] is Some
            }
    }

    pub open spec fn spec_brick(&self, k: BrickKey) -> Option<Brick> {
        if self.map().dom().contains(k) {
            Some(self.map()[k])
        } else {
            None
        }
    }

    /// The version of the brick at `k`, if there is one.
    pub open spec fn brick_version(&self, k: BrickKey) -> Option<ContentVersion> {
        if self.map().dom().contains(k) {
            Some(self.map()[k].spec_version())
        } else {
            None
        }
    }

    /// The material of voxel `v`, if it is occupied.
    pub open spec fn at(&self, v: VoxelCoord) -> Option<MaterialId> {
        if self.map().dom().contains(v.key()) {
            self.map()[v.key()]@[v.place()]
        } else {
            None
        }
    }

    /// This world came out of `earlier` by edits: a brick that no later edit touched is the brick
    /// it was.
    pub open spec fn follows(&self, earlier: &World) -> bool {
        &&& earlier.edits() <= self.edits()
        &&& earlier.edits() == self.edits() ==> self.map() == earlier.map()
        &&& forall|k: BrickKey|
            #[trigger] self.map().dom().contains(k) && self.map()[k].spec_version().number <= earlier.edits()
                ==> earlier.map().dom().contains(k) && earlier.map()[k] == self.map()[k]
    }

    /// `follows` holds of every world and itself, and chains.
    pub proof fn law_follows(a: &World, b: &World, c: &World)
        ensures
            a.follows(a),
            c.follows(b) && b.follows(a) ==> c.follows(a),
    {
        if c.follows(b) && b.follows(a) {
            assert forall|k: BrickKey|
                #[trigger] c.map().dom().contains(k) && c.map()[k].spec_version().number <= a.edits() implies a.map().dom().contains(k)
                && a.map()[k] == c.map()[k] by {
                assert(b.map().dom().contains(k));
            }
        }
    }

    /// Equal versions mean equal content.
    pub proof fn law_equal_version_equal_content(later: &World, earlier: &World, k: BrickKey)
        requires
            later.wf(),
            earlier.wf(),
            later.follows(earlier),
            later.brick_version(k) == earlier.brick_version(k),
        ensures
            later.spec_brick(k) == earlier.spec_brick(k),
    {
    }

    pub fn new() -> (r: World)
        ensures
            r.wf(),
            r.edits() == 0,
            forall|v: VoxelCoord| r.at(v) is None,
    {
        World { bricks: SortedMap::new(), version: 0 }
    }

    /// The version of the last edit that changed the world.
    pub fn version(&self) -> (r: ContentVersion)
        ensures
            r.number == self.edits(),
    {
        ContentVersion { number: self.version }
    }

    pub fn brick(&self, k: BrickKey) -> (r: Option<&Brick>)
        requires
            self.wf(),
        ensures
            match r {
                Some(b) => self.spec_brick(k) == Some(*b) && b.wf(),
                None => self.spec_brick(k) is None,
            },
    {
        self.bricks.get(&k)
    }

    /// The stored bricks' keys, in order.
    pub fn brick_keys(&self) -> (r: Vec<BrickKey>)
        requires
            self.wf(),
        ensures
            r@ == self.keys(),
            crate::sorted::increasing(r@),
            r@.to_set() == self.map().dom(),
    {
        let mut out: Vec<BrickKey> = Vec::new();
        let mut i: usize = 0;
        while i < self.bricks.len()
            invariant
                i <= self.keys().len(),
                out@ =~= self.keys().take(i as int),
            decreases self.keys().len() - i,
        {
            out.push(self.bricks.key_at(i));
            i += 1;
        }
        proof {
            self.bricks.lemma_order();
            assert(out@ =~= self.keys());
        }
        out
    }

    pub fn get(&self, v: VoxelCoord) -> (r: Option<MaterialId>)
        requires
            self.wf(),
        ensures
            r == self.at(v),
    {
        let (k, idx) = v.split();
        match self.bricks.get(&k) {
            Some(b) => b.get(idx),
            None => None,
        }
    }

    /// Sets voxel `v` (`None` empties it). `Ok` says whether that changed the world.
    pub fn set(&mut self, v: VoxelCoord, m: Option<MaterialId>) -> (r: Result<bool, WorldError>)
        requires
            old(self).wf(),
            old(self).edits() < u64::MAX,
        ensures
            final(self).wf(),
            final(self).follows(old(self)),
            match r {
                Ok(changed) => {
                    &&& v.in_bounds()
                    &&& changed == (old(self).at(v) != m)
                    &&& changed ==> final(self).edits() == old(self).edits() + 1
                    &&& !changed ==> *final(self) == *old(self)
                    &&& final(self).at(v) == m
                },
                Err(e) => e == WorldError::OutOfBounds && !v.in_bounds() && *final(self) == *old(self),
            },
            forall|p: VoxelCoord| p != v ==> #[trigger] final(self).at(p) == old(self).at(p),
            forall|k: BrickKey| k != v.key() ==> #[trigger] final(self).spec_brick(k) == old(self).spec_brick(k),
    {
        if !v.inside() {
            return Err(WorldError::OutOfBounds);
        }
        let changed = self.put(v, m);
        Ok(changed)
    }

    fn put(&mut self, v: VoxelCoord, m: Option<MaterialId>) -> (changed: bool)
        requires
            old(self).wf(),
            old(self).edits() < u64::MAX,
            v.in_bounds(),
        ensures
            final(self).wf(),
            final(self).follows(old(self)),
            changed == (old(self).at(v) != m),
            changed ==> final(self).edits() == old(self).edits() + 1,
            !changed ==> *final(self) == *old(self),
            forall|p: VoxelCoord| #[trigger]
                final(self).at(p) == if p == v {
                    m
                } else {
                    old(self).at(p)
                },
            forall|k: BrickKey| k != v.key() ==> #[trigger] final(self).spec_brick(k) == old(self).spec_brick(k),
    {
        let ghost before = *self;
        if same_material(self.get(v), m) {
            return false;
        }
        let (k, idx) = v.split();
        let taken = self.bricks.remove(&k);
        let ghost stored = taken is Some;
        let mut b = match taken {
            Some(b) => b,
            None => {
                let mut materials: Vec<Option<MaterialId>> = Vec::new();
                let mut i: usize = 0;
                while i < BRICK_VOXELS
                    invariant
                        i <= 512,
                        materials@.len() == i,
                        forall|j: int| 0 <= j < i ==> materials@[j] is None,
                    decreases 512 - i,
                {
                    materials.push(None);
                    i += 1;
                }
                Brick { materials, version: ContentVersion { number: 0 } }
            },
        };
        let ghost was = b@;
        b.materials.set(idx.raw, m);
        self.version = self.version + 1;
        b.version = ContentVersion { number: self.version };
        let ghost now = b;
        let gone = m.is_none() && b.is_empty();
        let ghost full: int = if m is Some {
            idx.raw as int
        } else {
            choose|i: int| 0 <= i < 512 && !(b@[i] is None)
        };
        if !gone {
            assert(0 <= full < 512 && now@[full] is Some);
            self.bricks.insert(k, b);
        }
        proof {
            assert forall|q: BrickKey| #[trigger] self.map().dom().contains(q) implies {
                &&& q.in_bounds()
                &&& self.map()[q].wf()
                &&& self.map()[q].spec_version().number <= self.edits()
                &&& exists|i: int| 0 <= i < 512 && self.map()[q]@[i] is Some
            } by {
                if q != k {
                    assert(before.map().dom().contains(q));
                    assert(self.map()[q] == before.map()[q]);
                } else {
                    assert(self.map()[q] == now);
                    assert(self.map()[q]@[full] is Some);
                }
            }
            assert forall|p: VoxelCoord| #[trigger] self.at(p) == (if p == v { m } else { before.at(p) }) by {
                if p.key() == k {
                    if p != v {
                        if p.place() == v.place() {
                            lemma_split_injective(p, v);
                        }
                        assert(was[p.place()] == before.at(p));
                        assert(now@[p.place()] == was[p.place()]);
                        if gone {
                            assert(now@[p.place()] is None);
                        }
                    } else if gone {
                        assert(now@[v.place()] is None);
                    }
                }
            }
        }
        true
    }

    /// Sets every voxel of the box `[lo, hi)`, or none when one of them is out of bounds.
    pub fn fill_box(&mut self, lo: VoxelCoord, hi: VoxelCoord, m: Option<MaterialId>) -> (r: Result<(), WorldError>)
        requires
            old(self).wf(),
            old(self).edits() + box_volume(lo, hi) <= u64::MAX,
        ensures
            final(self).wf(),
            final(self).follows(old(self)),
            final(self).edits() <= old(self).edits() + box_volume(lo, hi),
            match r {
                Ok(_) => {
                    &&& forall|p: VoxelCoord| in_box(p, lo, hi) ==> #[trigger] p.in_bounds()
                    &&& forall|p: VoxelCoord| #[trigger]
                        final(self).at(p) == if in_box(p, lo, hi) {
                            m
                        } else {
                            old(self).at(p)
                        }
                },
                Err(e) => {
                    &&& e == WorldError::OutOfBounds
                    &&& *final(self) == *old(self)
                    &&& exists|p: VoxelCoord| in_box(p, lo, hi) && !#[trigger] p.in_bounds()
                },
            },
    {
        proof {
            World::law_follows(self, self, self);
        }
        if lo.x >= hi.x || lo.y >= hi.y || lo.z >= hi.z {
            return Ok(());
        }
        let last = VoxelCoord { x: hi.x - 1, y: hi.y - 1, z: hi.z - 1 };
        if !lo.inside() || !last.inside() {
            proof {
                assert(in_box(lo, lo, hi) && in_box(last, lo, hi));
                assert(!lo.in_bounds() || !last.in_bounds());
            }
            return Err(WorldError::OutOfBounds);
        }
        self.put_box(lo, hi, m);
        Ok(())
    }

    fn put_box(&mut self, lo: VoxelCoord, hi: VoxelCoord, m: Option<MaterialId>)
        requires
            lo.x < hi.x,
            lo.y < hi.y,
            lo.z < hi.z,
            lo.in_bounds(),
            (VoxelCoord { x: (hi.x - 1) as i32, y: (hi.y - 1) as i32, z: (hi.z - 1) as i32 }).in_bounds(),
            old(self).wf(),
            old(self).edits() + box_volume(lo, hi) <= u64::MAX,
        ensures
            final(self).wf(),
            final(self).follows(old(self)),
            final(self).edits() <= old(self).edits() + box_volume(lo, hi),
            forall|p: VoxelCoord| #[trigger]
                final(self).at(p) == if in_box(p, lo, hi) {
                    m
                } else {
                    old(self).at(p)
                },
    {
        let ghost before = *self;
        proof {
            World::law_follows(&before, &before, &before);
        }
        let ghost nx = hi.x - lo.x;
        let ghost ny = hi.y - lo.y;
        let ghost nz = hi.z - lo.z;
        let ghost total = box_volume(lo, hi);
        let mut z: i32 = lo.z;
        while z < hi.z
            invariant
                lo.z <= z <= hi.z,
                lo.in_bounds(),
                hi.x <= 0x4000_0000,
                hi.y <= 0x4000_0000,
                hi.z <= 0x4000_0000,
                lo.x < hi.x,
                lo.y < hi.y,
                nx == hi.x - lo.x,
                ny == hi.y - lo.y,
                nz == hi.z - lo.z,
                total == nx * ny * nz,
                self.wf(),
                before.wf(),
                self.follows(&before),
                before.edits() + total <= u64::MAX,
                self.edits() <= before.edits() + nx * ny * (z - lo.z),
                forall|p: VoxelCoord| #[trigger]
                    self.at(p) == if in_box(p, lo, hi) && p.z < z {
                        m
                    } else {
                        before.at(p)
                    },
            decreases hi.z - z,
        {
            proof {
                assert(nx * ny * (z - lo.z) + nx * ny == nx * ny * (z + 1 - lo.z)) by (nonlinear_arith);
                assert(nx * ny * (z + 1 - lo.z) <= total) by (nonlinear_arith)
                    requires
                        total == nx * ny * nz,
                        z + 1 - lo.z <= nz,
                        nx > 0,
                        ny > 0,
                ;
            }
            let mut y: i32 = lo.y;
            while y < hi.y
                invariant
                    lo.z <= z < hi.z,
                    lo.in_bounds(),
                    hi.x <= 0x4000_0000,
                    hi.y <= 0x4000_0000,
                    hi.z <= 0x4000_0000,
                    lo.y <= y <= hi.y,
                    lo.x < hi.x,
                    lo.y < hi.y,
                    nx == hi.x - lo.x,
                    ny == hi.y - lo.y,
                    self.wf(),
                    before.wf(),
                    self.follows(&before),
                    before.edits() + total <= u64::MAX,
                    nx * ny * (z - lo.z) + nx * ny <= total,
                    self.edits() <= before.edits() + nx * ny * (z - lo.z) + nx * (y - lo.y),
                    forall|p: VoxelCoord| #[trigger]
                        self.at(p) == if in_box(p, lo, hi) && (p.z < z || (p.z == z && p.y < y)) {
                            m
                        } else {
                            before.at(p)
                        },
                decreases hi.y - y,
            {
                proof {
                    assert(nx * (y - lo.y) + nx == nx * (y + 1 - lo.y)) by (nonlinear_arith);
                    assert(nx * (y + 1 - lo.y) <= nx * ny) by (nonlinear_arith)
                        requires
                            y + 1 - lo.y <= ny,
                            nx > 0,
                    ;
                }
                let mut x: i32 = lo.x;
                while x < hi.x
                    invariant
                        lo.z <= z < hi.z,
                        lo.in_bounds(),
                        hi.x <= 0x4000_0000,
                        hi.y <= 0x4000_0000,
                        hi.z <= 0x4000_0000,
                        lo.y <= y < hi.y,
                        lo.x <= x <= hi.x,
                        nx == hi.x - lo.x,
                        self.wf(),
                        before.wf(),
                        self.follows(&before),
                        before.edits() + total <= u64::MAX,
                        nx * ny * (z - lo.z) + nx * ny <= total,
                        nx * (y - lo.y) + nx <= nx * ny,
                        self.edits() <= before.edits() + nx * ny * (z - lo.z) + nx * (y - lo.y) + (x - lo.x),
                        forall|p: VoxelCoord| #[trigger]
                            self.at(p) == if in_box(p, lo, hi) && (p.z < z || (p.z == z && (p.y < y || (p.y == y
                                && p.x < x)))) {
                                m
                            } else {
                                before.at(p)
                            },
                    decreases hi.x - x,
                {
                    let ghost mid = *self;
                    let v = VoxelCoord { x, y, z };
                    let _ = self.put(v, m);
                    proof {
                        World::law_follows(&before, &mid, self);
                    }
                    x += 1;
                }
                y += 1;
            }
            z += 1;
        }
    }

    /// Every occupied voxel with its material: bricks in key order, voxels in place order.
    pub fn occupied(&self) -> (r: Vec<(VoxelCoord, MaterialId)>)
        requires
            self.wf(),
        ensures
            r@ == occupied_voxels(self, self.keys().len()),
    {
        let mut out: Vec<(VoxelCoord, MaterialId)> = Vec::new();
        let n: usize = self.bricks.len();
        let mut i: usize = 0;
        proof {
            self.bricks.lemma_order();
        }
        while i < n
            invariant
                i <= n,
                n == self.keys().len(),
                self.wf(),
                self.bricks.keys().len() == self.bricks.vals().len(),
                forall|j: int|
                    0 <= j < self.bricks.keys().len() ==> self.map().dom().contains(#[trigger] self.keys()[j])
                        && self.map()[self.keys()[j]] == self.bricks.vals()[j],
                out@ == occupied_voxels(self, i as nat),
            decreases n - i,
        {
            let k = self.bricks.key_at(i);
            assert(self.keys()[i as int] == k);
            let o = k.origin();
            let here = self.bricks.val_at(i).voxels();
            let ghost start = out@;
            let mut j: usize = 0;
            proof {
                lemma_occupied_places(self.map()[k]@, 512);
            }
            while j < here.len()
                invariant
                    j <= here@.len(),
                    k.wf(),
                    o == k.spec_origin(),
                    forall|q: int| 0 <= q < here@.len() ==> (#[trigger] here@[q]).0.raw < 512,
                    out@ =~= start + here@.take(j as int).map_values(|p: (VoxelIndex, MaterialId)| placed(k, p)),
                decreases here@.len() - j,
            {
                let (idx, m) = here[j];
                let (x, y, z) = idx.xyz();
                let v = VoxelCoord { x: o.x + x, y: o.y + y, z: o.z + z };
                proof {
                    assert(here@.take(j + 1).drop_last() =~= here@.take(j as int));
                    assert(here@.take(j + 1).map_values(|p: (VoxelIndex, MaterialId)| placed(k, p)) =~= here@.take(
                        j as int,
                    ).map_values(|p: (VoxelIndex, MaterialId)| placed(k, p)).push(placed(k, here@[j as int])));
                }
                out.push((v, m));
                j += 1;
            }
            assert(here@.take(j as int) =~= here@);
            i += 1;
        }
        out
    }
}

pub open spec fn box_volume(lo: VoxelCoord, hi: VoxelCoord) -> int {
    if lo.x >= hi.x || lo.y >= hi.y || lo.z >= hi.z {
        0
    } else {
        (hi.x - lo.x) * (hi.y - lo.y) * (hi.z - lo.z)
    }
}

pub open spec fn in_box(p: VoxelCoord, lo: VoxelCoord, hi: VoxelCoord) -> bool {
    lo.x <= p.x < hi.x && lo.y <= p.y < hi.y && lo.z <= p.z < hi.z
}

/// The voxel at a place of brick `k`, with its material.
pub open spec fn placed(k: BrickKey, p: (VoxelIndex, MaterialId)) -> (VoxelCoord, MaterialId) {
    let n = p.0.raw as int;
    (
        VoxelCoord {
            x: (8 * k.x + n % 8) as i32,
            y: (8 * k.y + n / 8 % 8) as i32,
            z: (8 * k.z + n / 64) as i32,
        },
        p.1,
    )
}

/// The occupied voxels of the first `n` stored bricks.
pub open spec fn occupied_voxels(w: &World, n: nat) -> Seq<(VoxelCoord, MaterialId)>
    decreases n,
{
    if n == 0 {
        Seq::empty()
    } else {
        let k = w.keys()[n - 1];
        occupied_voxels(w, (n - 1) as nat) + occupied_places(w.map()[k]@, 512).map_values(
            |p: (VoxelIndex, MaterialId)| placed(k, p),
        )
    }
}

/// The occupied places are the places that hold a material, each once and in order.
pub proof fn lemma_occupied_places(s: Seq<Option<MaterialId>>, n: nat)
    requires
        n <= s.len(),
        n <= 512,
    ensures
        forall|q: int|
            0 <= q < occupied_places(s, n).len() ==> {
                &&& (#[trigger] occupied_places(s, n)[q]).0.raw < n
                &&& s[occupied_places(s, n)[q].0.raw as int] == Some(occupied_places(s, n)[q].1)
            },
        forall|p: int, q: int|
            0 <= p < q < occupied_places(s, n).len() ==> (#[trigger] occupied_places(s, n)[p]).0.raw < (
            #[trigger] occupied_places(s, n)[q]).0.raw,
        forall|i: int|
            0 <= i < n && #[trigger] s[i] is Some ==> occupied_places(s, n).contains(
                (VoxelIndex { raw: i as usize }, s[i]->0),
            ),
    decreases n,
{
    if n > 0 {
        lemma_occupied_places(s, (n - 1) as nat);
        let a = occupied_places(s, (n - 1) as nat);
        let b = occupied_places(s, n);
        assert forall|i: int| 0 <= i < n && #[trigger] s[i] is Some implies b.contains((VoxelIndex { raw: i as usize }, s[i]->0)) by {
            let e = (VoxelIndex { raw: i as usize }, s[i]->0);
            if i < n - 1 {
                assert(a.contains(e));
                let q = choose|q: int| 0 <= q < a.len() && a[q] == e;
                assert(b[q] == e);
            } else {
                assert(b[b.len() - 1] == e);
            }
        }
    }
}

/// The stored keys are the map's, each once.
pub proof fn lemma_keys(w: &World)
    requires
        w.wf(),
    ensures
        forall|i: int| 0 <= i < w.keys().len() ==> w.map().dom().contains(#[trigger] w.keys()[i]),
        forall|k: BrickKey| #[trigger] w.map().dom().contains(k) ==> exists|i: int| 0 <= i < w.keys().len() && #[trigger] w.keys()[i] == k,
        forall|i: int, j: int| 0 <= i < j < w.keys().len() ==> #[trigger] w.keys()[i] != #[trigger] w.keys()[j],
{
    w.bricks.lemma_order();
    assert forall|k: BrickKey| #[trigger] w.map().dom().contains(k) implies exists|i: int| 0 <= i < w.keys().len() && #[trigger] w.keys()[i] == k by {
        let i = choose|i: int| 0 <= i < w.bricks.keys().len() && w.bricks.keys()[i] == k;
        assert(w.keys()[i] == k);
    }
}

/// The list of occupied voxels holds every voxel with a material, once.
pub proof fn law_occupied_lists_every_voxel_once(w: &World)
    requires
        w.wf(),
    ensures
        forall|i: int|
            0 <= i < occupied_voxels(w, w.keys().len()).len() ==> {
                &&& (#[trigger] occupied_voxels(w, w.keys().len())[i]).0.in_bounds()
                &&& w.at(occupied_voxels(w, w.keys().len())[i].0) == Some(occupied_voxels(w, w.keys().len())[i].1)
            },
        forall|v: VoxelCoord| #[trigger]
            w.at(v) is Some ==> occupied_voxels(w, w.keys().len()).contains((v, w.at(v)->0)),
        forall|i: int, j: int|
            0 <= i < j < occupied_voxels(w, w.keys().len()).len() ==> (#[trigger] occupied_voxels(
                w,
                w.keys().len(),
            )[i]).0 != (#[trigger] occupied_voxels(w, w.keys().len())[j]).0,
{
    let n = w.keys().len();
    w.bricks.lemma_order();
    lemma_occupied_voxels(w, n);
    let s = occupied_voxels(w, n);
    assert forall|v: VoxelCoord| #[trigger] w.at(v) is Some implies s.contains((v, w.at(v)->0)) by {
        let k = v.key();
        assert(w.bricks@.dom().contains(k));
        let i = choose|i: int| 0 <= i < w.bricks.keys().len() && w.bricks.keys()[i] == k;
        assert(w.keys()[i] == v.key());
    }
}

#[verifier::rlimit(60)]
proof fn lemma_occupied_voxels(w: &World, n: nat)
    requires
        w.wf(),
        n <= w.keys().len(),
        w.keys().no_duplicates(),
        forall|i: int| 0 <= i < w.keys().len() ==> w.map().dom().contains(#[trigger] w.keys()[i]),
    ensures
        forall|i: int|
            0 <= i < occupied_voxels(w, n).len() ==> {
                let e = #[trigger] occupied_voxels(w, n)[i];
                &&& e.0.in_bounds()
                &&& w.at(e.0) == Some(e.1)
                &&& exists|j: int| 0 <= j < n && #[trigger] w.keys()[j] == e.0.key()
            },
        forall|v: VoxelCoord, j: int|
            0 <= j < n && #[trigger] w.keys()[j] == v.key() && #[trigger] w.at(v) is Some ==> occupied_voxels(
                w,
                n,
            ).contains((v, w.at(v)->0)),
        forall|i: int, j: int|
            0 <= i < j < occupied_voxels(w, n).len() ==> (#[trigger] occupied_voxels(w, n)[i]).0 != (
            #[trigger] occupied_voxels(w, n)[j]).0,
    decreases n,
{
    if n > 0 {
        lemma_occupied_voxels(w, (n - 1) as nat);
        let k = w.keys()[n - 1];
        let a = occupied_voxels(w, (n - 1) as nat);
        let p = occupied_places(w.map()[k]@, 512);
        let f = |e: (VoxelIndex, MaterialId)| placed(k, e);
        let b = p.map_values(f);
        let c = occupied_voxels(w, n);
        assert(c =~= a + b);
        assert(w.map().dom().contains(k));
        lemma_occupied_places(w.map()[k]@, 512);
        assert forall|i: int| 0 <= i < b.len() implies {
            let e = #[trigger] b[i];
            &&& e.0.key() == k
            &&& e.0.place() == p[i].0.raw
            &&& e.0.in_bounds()
            &&& w.at(e.0) == Some(e.1)
        } by {
            assert(b[i] == placed(k, p[i]));
            assert(p[i].0.raw < 512);
        }
        assert forall|i: int| 0 <= i < c.len() implies {
            let e = #[trigger] c[i];
            &&& e.0.in_bounds()
            &&& w.at(e.0) == Some(e.1)
            &&& exists|j: int| 0 <= j < n && #[trigger] w.keys()[j] == e.0.key()
        } by {
            if i < a.len() {
                assert(c[i] == a[i]);
            } else {
                assert(c[i] == b[i - a.len()]);
                assert(w.keys()[n - 1] == c[i].0.key());
            }
        }
        assert forall|v: VoxelCoord, j: int|
            0 <= j < n && #[trigger] w.keys()[j] == v.key() && #[trigger] w.at(v) is Some implies c.contains((v, w.at(v)->0)) by {
            let e = (v, w.at(v)->0);
            if j < n - 1 {
                assert(a.contains(e));
                let q = choose|q: int| 0 <= q < a.len() && a[q] == e;
                assert(c[q] == e);
            } else {
                let idx = VoxelIndex { raw: v.place() as usize };
                assert(w.map()[k]@[v.place()] is Some);
                assert(p.contains((idx, e.1)));
                let q = choose|q: int| 0 <= q < p.len() && p[q] == (idx, e.1);
                assert(b[q] == placed(k, p[q]));
                assert(b[q].0.key() == k && b[q].0.place() == v.place());
                lemma_split_injective(b[q].0, v);
                assert(c[a.len() + q] == e);
            }
        }
        assert forall|i: int, j: int| 0 <= i < j < c.len() implies (#[trigger] c[i]).0 != (#[trigger] c[j]).0 by {
            if j < a.len() {
                assert(c[i] == a[i] && c[j] == a[j]);
            } else if i >= a.len() {
                let (x, y) = (i - a.len(), j - a.len());
                assert(c[i] == b[x] && c[j] == b[y]);
                assert(p[x].0.raw < p[y].0.raw);
            } else {
                assert(c[i] == a[i] && c[j] == b[j - a.len()]);
                let q = choose|q: int| 0 <= q < n - 1 && #[trigger] w.keys()[q] == a[i].0.key();
                assert(w.keys()[q] != w.keys()[n - 1]);
            }
        }
    }
}

/// A voxel lies in its brick, at the place that its coordinates from the brick's origin give, x first; a brick lies in
/// its chunk of four bricks along each side.
pub proof fn law_voxels_lie_in_their_brick(v: VoxelCoord)
    ensures
        ({
            let k = v.key();
            let (x, y, z) = (v.x - 8 * k.x, v.y - 8 * k.y, v.z - 8 * k.z);
            let c = k.spec_chunk();
            &&& k.wf()
            &&& k.spec_origin().x == 8 * k.x && k.spec_origin().y == 8 * k.y && k.spec_origin().z == 8 * k.z
            &&& 0 <= x < 8 && 0 <= y < 8 && 0 <= z < 8
            &&& v.place() == x + 8 * (y + 8 * z)
            &&& 0 <= k.x - 4 * c.x < 4 && 0 <= k.y - 4 * c.y < 4 && 0 <= k.z - 4 * c.z < 4
        }),
{
}

/// A brick is inside the world's bounds exactly when its voxels are.
pub proof fn law_bricks_have_the_bounds_of_their_voxels(v: VoxelCoord)
    ensures
        v.in_bounds() <==> v.key().in_bounds(),
        v.in_bounds() <==> -1024 * 1024 * 1024 <= v.x < 1024 * 1024 * 1024 && -1024 * 1024 * 1024 <= v.y < 1024 * 1024 * 1024 && -1024 * 1024 * 1024
            <= v.z < 1024 * 1024 * 1024,
{
}

/// The occupied places are listed by place, each once and with its material.
pub proof fn law_occupied_places_are_listed_in_order(s: Seq<Option<MaterialId>>, n: nat, i: usize, m: MaterialId)
    requires
        n <= s.len() <= usize::MAX,
    ensures
        occupied_places(s, n).contains((VoxelIndex { raw: i }, m)) <==> i < n && s[i as int] == Some(m),
        forall|a: int, b: int| 0 <= a < b < occupied_places(s, n).len() ==> (#[trigger] occupied_places(s, n)[a]).0.raw < (#[trigger] occupied_places(s, n)[b]).0.raw,
        forall|a: int| 0 <= a < occupied_places(s, n).len() ==> (#[trigger] occupied_places(s, n)[a]).0.raw < n,
    decreases n,
{
    if n > 0 {
        law_occupied_places_are_listed_in_order(s, (n - 1) as nat, i, m);
        let x = (VoxelIndex { raw: i }, m);
        let before = occupied_places(s, (n - 1) as nat);
        let now = occupied_places(s, n);
        assert(((n - 1) as usize) as int == n - 1);
        assert forall|a: int| 0 <= a < before.len() implies #[trigger] now[a] == before[a] by {}
        if before.contains(x) {
            let a = choose|a: int| 0 <= a < before.len() && before[a] == x;
            assert(now[a] == x);
        }
        if i == n - 1 && s[n - 1] == Some(m) {
            assert(now[before.len() as int] == x);
        }
        if now.contains(x) {
            let a = choose|a: int| 0 <= a < now.len() && now[a] == x;
            if a < before.len() {
                assert(before[a] == x);
            }
        }
    }
}

/// Bricks are ordered by their chunk first, along x, then y, then z, and within a chunk in the same way.
pub proof fn law_bricks_of_a_chunk_come_together(a: BrickKey, b: BrickKey, c: BrickKey)
    requires
        a.lt(b),
        b.lt(c),
        a.spec_chunk() == c.spec_chunk(),
    ensures
        b.spec_chunk() == a.spec_chunk(),
        a.x <= b.x <= c.x,
        a.x == b.x ==> a.y <= b.y,
        a.x == b.x && a.y == b.y ==> a.z < b.z,
{
}

/// A place of a brick is that of one voxel, which lies in the brick, at that place.
pub proof fn law_places_are_those_of_their_voxels(k: BrickKey, p: (VoxelIndex, MaterialId))
    requires
        k.wf(),
        p.0.raw < 512,
    ensures
        placed(k, p).0.key() == k,
        placed(k, p).0.place() == p.0.raw,
        placed(k, p).1 == p.1,
{
    let n = p.0.raw as int;
    assert(n % 8 + 8 * (n / 8 % 8) + 64 * (n / 64) == n);
}

/// A box holds its low corner and not its high one; cut in two along an axis, its voxels are those of the two parts, and
/// so is its volume. A box of one voxel has volume one.
pub proof fn law_boxes_are_the_sum_of_their_parts(lo: VoxelCoord, hi: VoxelCoord, x: i32, y: i32, z: i32, p: VoxelCoord)
    requires
        lo.x < x < hi.x,
        lo.y < y < hi.y,
        lo.z < z < hi.z,
    ensures
        in_box(lo, lo, hi) && !in_box(hi, lo, hi),
        in_box(p, lo, hi) <==> in_box(p, lo, VoxelCoord { x, ..hi }) || in_box(p, VoxelCoord { x, ..lo }, hi),
        in_box(p, lo, hi) <==> in_box(p, lo, VoxelCoord { y, ..hi }) || in_box(p, VoxelCoord { y, ..lo }, hi),
        in_box(p, lo, hi) <==> in_box(p, lo, VoxelCoord { z, ..hi }) || in_box(p, VoxelCoord { z, ..lo }, hi),
        box_volume(lo, hi) == box_volume(lo, VoxelCoord { x, ..hi }) + box_volume(VoxelCoord { x, ..lo }, hi),
        box_volume(lo, hi) == box_volume(lo, VoxelCoord { y, ..hi }) + box_volume(VoxelCoord { y, ..lo }, hi),
        box_volume(lo, hi) == box_volume(lo, VoxelCoord { z, ..hi }) + box_volume(VoxelCoord { z, ..lo }, hi),
        box_volume(lo, VoxelCoord { x: (lo.x + 1) as i32, y: (lo.y + 1) as i32, z: (lo.z + 1) as i32 }) == 1,
{
    let (a, b, c) = (hi.x - lo.x, hi.y - lo.y, hi.z - lo.z);
    let (a0, b0, c0) = (x - lo.x, y - lo.y, z - lo.z);
    let (a1, b1, c1) = (hi.x - x, hi.y - y, hi.z - z);
    assert(a * b * c == a0 * b * c + a1 * b * c && a * b * c == a * b0 * c + a * b1 * c && a * b * c == a * b * c0 + a * b * c1) by (nonlinear_arith)
        requires
            a == a0 + a1,
            b == b0 + b1,
            c == c0 + c1,
    ;
    let one = VoxelCoord { x: (lo.x + 1) as i32, y: (lo.y + 1) as i32, z: (lo.z + 1) as i32 };
    assert((one.x - lo.x) * (one.y - lo.y) * (one.z - lo.z) == 1) by (nonlinear_arith)
        requires
            one.x - lo.x == 1,
            one.y - lo.y == 1,
            one.z - lo.z == 1,
    ;
}

} // verus!
