//! The emissive quads of a scene, region by region, so that an edit replaces only its regions' share;
//! which emitters an update changed; and the emitter rows as the device holds them.
use crate::gpu::bytes::{le32, push_u32};
use crate::gpu::layout::{RegionKey, RegionMesh, RegionQuad, RegionSize};
use crate::gpu::regions::RegionSet;
use crate::sorted::SortedMap;
use crate::world::VoxelCoord;
use vstd::multiset::Multiset;
use vstd::prelude::*;
use vstd::slice::slice_to_vec;

verus! {

/// Which emitter it is: its region, its quad in the region, and the snapshot the region was built from.
#[derive(Clone, Copy, Debug, PartialEq, Eq, Structural)]
pub struct EmitterId {
    pub key: RegionKey,
    pub quad: u32,
    pub snapshot: u64,
}

/// One emissive quad, in voxels of the world.
#[derive(Clone, Copy, Debug, PartialEq, Eq, Structural)]
pub struct EmitterQuad {
    pub id: EmitterId,
    pub material: u16,
    pub face: u8,
    pub plane: i32,
    pub u0: i32,
    pub v0: i32,
    pub u1: i32,
    pub v1: i32,
}

/// The coordinate of `o` along axis `a`.
pub open spec fn part(o: VoxelCoord, a: int) -> int {
    if a == 0 {
        o.x as int
    } else if a == 1 {
        o.y as int
    } else {
        o.z as int
    }
}

fn part_of(o: VoxelCoord, a: u8) -> (r: i32)
    ensures
        r == part(o, a as int),
{
    if a == 0 {
        o.x
    } else if a == 1 {
        o.y
    } else {
        o.z
    }
}

/// Quads of a region that starts at `o` have places in the world.
pub open spec fn has_places(o: VoxelCoord) -> bool {
    o.x <= i32::MAX - 255 && o.y <= i32::MAX - 255 && o.z <= i32::MAX - 255
}

/// A region whose quads have places in the world.
pub open spec fn locatable(key: RegionKey, size: RegionSize) -> bool {
    key.fits(size) && has_places(key.spec_origin(size))
}

impl EmitterQuad {
    /// The quad `q` of a region that starts at `o`.
    pub open spec fn spec_from_local(id: EmitterId, material: u16, q: RegionQuad, o: VoxelCoord) -> EmitterQuad {
        let a = q.face as int / 2;
        let (p, u, v) = (part(o, a), part(o, (a + 1) % 3), part(o, (a + 2) % 3));
        EmitterQuad {
            id,
            material,
            face: q.face,
            plane: (p + q.plane) as i32,
            u0: (u + q.u0) as i32,
            v0: (v + q.v0) as i32,
            u1: (u + q.u1) as i32,
            v1: (v + q.v1) as i32,
        }
    }

    pub fn from_local(id: EmitterId, material: u16, q: RegionQuad, o: VoxelCoord) -> (r: EmitterQuad)
        requires
            has_places(o),
        ensures
            r == EmitterQuad::spec_from_local(id, material, q, o),
    {
        let a: u8 = q.face / 2;
        let (p, u, v) = (part_of(o, a), part_of(o, (a + 1) % 3), part_of(o, (a + 2) % 3));
        EmitterQuad {
            id,
            material,
            face: q.face,
            plane: p + q.plane as i32,
            u0: u + q.u0 as i32,
            v0: v + q.v0 as i32,
            u1: u + q.u1 as i32,
            v1: v + q.v1 as i32,
        }
    }
}

/// The id of a quad's material, if it emits. An unknown material emits nothing.
pub open spec fn glows(emitting: Seq<Option<u16>>, material: u16) -> Option<u16> {
    if material < emitting.len() {
        emitting[material as int]
    } else {
        None
    }
}

/// The emissive quads among the first `n` of region `key`, as built from snapshot `snapshot`.
pub open spec fn emissive(emitting: Seq<Option<u16>>, key: RegionKey, m: RegionMesh, snapshot: u64, n: nat) -> Seq<EmitterQuad>
    decreases n,
{
    if n == 0 {
        Seq::empty()
    } else {
        let before = emissive(emitting, key, m, snapshot, (n - 1) as nat);
        let q = m.quads@[n - 1];
        match glows(emitting, q.material) {
            None => before,
            Some(material) => before.push(
                EmitterQuad::spec_from_local(
                    EmitterId { key, quad: (n - 1) as u32, snapshot },
                    material,
                    q,
                    key.spec_origin(m.size),
                ),
            ),
        }
    }
}

/// The emissive quads of every region of a scene, per region.
pub struct EmitterSet {
    /// Per material index: its id, if the material emits.
    emitting: Vec<Option<u16>>,
    quads: SortedMap<RegionKey, Vec<EmitterQuad>>,
}

impl View for EmitterSet {
    type V = Map<RegionKey, Seq<EmitterQuad>>;

    closed spec fn view(&self) -> Map<RegionKey, Seq<EmitterQuad>> {
        self.quads@.map_values(|v: Vec<EmitterQuad>| v@)
    }
}

/// The quads of the regions in `keys`, one region behind the other.
pub open spec fn gathered(m: Map<RegionKey, Seq<EmitterQuad>>, keys: Seq<RegionKey>, n: nat) -> Seq<EmitterQuad>
    decreases n,
{
    if n == 0 {
        Seq::empty()
    } else {
        gathered(m, keys, (n - 1) as nat) + m[keys[n - 1]]
    }
}

impl EmitterSet {
    pub closed spec fn spec_emitting(&self) -> Seq<Option<u16>> {
        self.emitting@
    }

    /// The regions, in order.
    pub closed spec fn spec_keys(&self) -> Seq<RegionKey> {
        self.quads.keys()
    }

    /// Only regions with emissive quads are listed, once each and in order.
    pub closed spec fn wf(&self) -> bool {
        &&& self.quads.wf()
        &&& forall|k: RegionKey| #[trigger] self.quads@.dom().contains(k) ==> self.quads@[k]@.len() > 0
    }

    /// Regions are held in order, each once, and only those with emitting quads.
    pub proof fn law_held_regions_have_emitters(&self)
        requires
            self.wf(),
        ensures
            self@.dom().finite(),
            self@.dom() == self.spec_keys().to_set(),
            self.spec_keys().no_duplicates(),
            crate::sorted::increasing(self.spec_keys()),
            forall|k: RegionKey| #[trigger] self@.dom().contains(k) ==> self@[k].len() > 0,
    {
        self.quads.lemma_order();
        assert(self@.dom() =~= self.quads@.dom());
    }

    /// No regions yet. `emitting` holds, per material index, the material's id if it emits.
    pub fn new(emitting: Vec<Option<u16>>) -> (r: EmitterSet)
        ensures
            r.wf(),
            r.spec_emitting() == emitting@,
            r@ == Map::<RegionKey, Seq<EmitterQuad>>::empty(),
    {
        let r = EmitterSet { emitting, quads: SortedMap::new() };
        assert(r@ =~= Map::<RegionKey, Seq<EmitterQuad>>::empty());
        r
    }

    /// What the regions are once region `key` is `mesh`.
    pub open spec fn with_region(&self, key: RegionKey, mesh: Option<RegionMesh>, snapshot: u64) -> Map<RegionKey, Seq<EmitterQuad>> {
        match mesh {
            None => self@.remove(key),
            Some(m) => {
                let qs = emissive(self.spec_emitting(), key, m, snapshot, m.quads@.len());
                if qs.len() == 0 {
                    self@.remove(key)
                } else {
                    self@.insert(key, qs)
                }
            },
        }
    }

    fn emissive_quads(&self, key: RegionKey, m: &RegionMesh, snapshot: u64) -> (r: Vec<EmitterQuad>)
        requires
            locatable(key, m.size),
        ensures
            r@ == emissive(self.spec_emitting(), key, *m, snapshot, m.quads@.len()),
    {
        let origin = key.origin(m.size);
        let mut out: Vec<EmitterQuad> = Vec::new();
        let mut i: usize = 0;
        while i < m.quads.len()
            invariant
                i <= m.quads@.len(),
                origin == key.spec_origin(m.size),
                has_places(origin),
                out@ == emissive(self.spec_emitting(), key, *m, snapshot, i as nat),
            decreases m.quads@.len() - i,
        {
            let q = m.quads[i];
            if (q.material as usize) < self.emitting.len() {
                if let Some(material) = self.emitting[q.material as usize] {
                    out.push(EmitterQuad::from_local(EmitterId { key, quad: i as u32, snapshot }, material, q, origin));
                }
            }
            i += 1;
        }
        out
    }

    /// Region `key` as built from snapshot `snapshot`; `None`: the region has no quads now.
    pub fn set_region(&mut self, key: RegionKey, mesh: Option<&RegionMesh>, snapshot: u64)
        requires
            old(self).wf(),
            mesh matches Some(m) ==> locatable(key, m.size),
        ensures
            final(self).wf(),
            final(self).spec_emitting() == old(self).spec_emitting(),
            final(self)@ == old(self).with_region(
                key,
                match mesh {
                    Some(m) => Some(*m),
                    None => None,
                },
                snapshot,
            ),
    {
        let quads: Vec<EmitterQuad> = match mesh {
            Some(m) => self.emissive_quads(key, m, snapshot),
            None => Vec::new(),
        };
        if quads.len() == 0 {
            let _ = self.quads.remove(&key);
            assert(self@ =~= old(self)@.remove(key));
        } else {
            let ghost qs = quads@;
            let _ = self.quads.insert(key, quads);
            assert(self@ =~= old(self)@.insert(key, qs));
        }
    }

    /// Emissive quads in the set.
    pub fn len(&self) -> (r: usize)
        requires
            self.wf(),
            gathered(self@, self.spec_keys(), self.spec_keys().len()).len() <= usize::MAX,
        ensures
            r == gathered(self@, self.spec_keys(), self.spec_keys().len()).len(),
    {
        let mut n: usize = 0;
        let mut i: usize = 0;
        let ghost keys = self.spec_keys();
        proof {
            self.quads.lemma_order();
        }
        while i < self.quads.len()
            invariant
                self.wf(),
                keys == self.spec_keys(),
                i <= keys.len(),
                n == gathered(self@, keys, i as nat).len(),
                gathered(self@, keys, keys.len()).len() <= usize::MAX,
            decreases keys.len() - i,
        {
            proof {
                self.quads.lemma_order();
                lemma_gathered_grows(self@, keys, (i + 1) as nat, keys.len());
                assert(self.quads@.dom().contains(self.quads.keys()[i as int]));
                assert(self@[keys[i as int]] == self.quads.vals()[i as int]@);
            }
            n += self.quads.val_at(i).len();
            i += 1;
        }
        n
    }

    pub fn is_empty(&self) -> (r: bool)
        requires
            self.wf(),
        ensures
            r == (self@.dom() == Set::<RegionKey>::empty()),
    {
        proof {
            self.quads.lemma_order();
            assert(self@.dom() =~= self.quads@.dom());
            if self.quads.keys().len() > 0 {
                assert(self@.dom().contains(self.quads.keys()[0]));
            }
        }
        self.quads.is_empty()
    }

    /// Every region's emissive quads, in region order.
    pub fn all(&self) -> (r: Vec<EmitterQuad>)
        requires
            self.wf(),
        ensures
            r@ == gathered(self@, self.spec_keys(), self.spec_keys().len()),
    {
        let mut out: Vec<EmitterQuad> = Vec::new();
        let mut i: usize = 0;
        let ghost keys = self.spec_keys();
        while i < self.quads.len()
            invariant
                self.wf(),
                keys == self.spec_keys(),
                i <= keys.len(),
                out@ == gathered(self@, keys, i as nat),
            decreases keys.len() - i,
        {
            proof {
                self.quads.lemma_order();
                assert(self.quads@.dom().contains(self.quads.keys()[i as int]));
                assert(self@[keys[i as int]] == self.quads.vals()[i as int]@);
            }
            let mut qs = slice_to_vec(self.quads.val_at(i).as_slice());
            assert(qs@ =~= self.quads.vals()[i as int]@);
            out.append(&mut qs);
            i += 1;
        }
        proof {
            self.quads.lemma_order();
        }
        out
    }

    /// An equal set.
    pub fn copy(&self) -> (r: EmitterSet)
        requires
            self.wf(),
        ensures
            r.wf(),
            r.spec_emitting() == self.spec_emitting(),
            r@ == self@,
    {
        let mut r = EmitterSet { emitting: slice_to_vec(self.emitting.as_slice()), quads: SortedMap::new() };
        assert(r.emitting@ =~= self.emitting@);
        let mut i: usize = 0;
        let ghost keys = self.quads.keys();
        assert(r@ =~= self@.restrict(keys.take(0).to_set()));
        while i < self.quads.len()
            invariant
                self.wf(),
                keys == self.quads.keys(),
                i <= keys.len(),
                r.wf(),
                r.emitting@ == self.emitting@,
                r@ == self@.restrict(keys.take(i as int).to_set()),
            decreases keys.len() - i,
        {
            proof {
                self.quads.lemma_order();
                assert(self.quads@.dom().contains(keys[i as int]));
                assert(self@[keys[i as int]] == self.quads.vals()[i as int]@);
                assert(self@.dom().contains(keys[i as int]));
                assert(self.quads@[keys[i as int]]@.len() > 0);
            }
            let k = self.quads.key_at(i);
            let qs = slice_to_vec(self.quads.val_at(i).as_slice());
            assert(qs@ =~= self@[k]);
            let ghost before = r@;
            let _ = r.quads.insert(k, qs);
            proof {
                assert(r@ =~= before.insert(k, self@[k]));
                let (a, b) = (keys.take(i as int), keys.take(i + 1));
                assert forall|x: RegionKey| b.to_set().contains(x) <==> a.to_set().insert(k).contains(x) by {
                    if a.contains(x) {
                        let j = choose|j: int| 0 <= j < a.len() && a[j] == x;
                        assert(b[j] == x);
                    }
                    if x == k {
                        assert(b[i as int] == x);
                    }
                    if b.contains(x) {
                        let j = choose|j: int| 0 <= j < b.len() && b[j] == x;
                        if j < i {
                            assert(a[j] == x);
                        }
                    }
                }
                assert(r@ =~= self@.restrict(keys.take(i + 1).to_set()));
            }
            i += 1;
        }
        proof {
            self.quads.lemma_order();
            assert(keys.take(i as int) =~= keys);
            assert(self@.dom() =~= self.quads@.dom());
            assert(r@ =~= self@);
        }
        r
    }

    /// The set of `regions`, every region at `snapshot`.
    pub fn of_regions(emitting: Vec<Option<u16>>, regions: &SortedMap<RegionKey, RegionMesh>, snapshot: u64) -> (r: EmitterSet)
        requires
            regions.wf(),
            forall|k: RegionKey| #[trigger] regions@.dom().contains(k) ==> locatable(k, regions@[k].size),
        ensures
            r.wf(),
            r.spec_emitting() == emitting@,
            r.shows(regions@, Map::total(|k: RegionKey| snapshot)),
    {
        let ghost em = emitting@;
        let mut set = EmitterSet::new(emitting);
        let ghost keys = regions.keys();
        let ghost all = Map::<RegionKey, u64>::total(|k: RegionKey| snapshot);
        let ghost mut done = Map::<RegionKey, RegionMesh>::empty();
        let mut i: usize = 0;
        proof {
            regions.lemma_order();
        }
        while i < regions.len()
            invariant
                regions.wf(),
                keys == regions.keys(),
                i <= keys.len(),
                forall|k: RegionKey| #[trigger] regions@.dom().contains(k) ==> locatable(k, regions@[k].size),
                set.wf(),
                set.spec_emitting() == em,
                all == Map::<RegionKey, u64>::total(|k: RegionKey| snapshot),
                forall|k: RegionKey| #[trigger] done.dom().contains(k) <==> crate::sorted::among(keys, i as int, k),
                forall|k: RegionKey| #[trigger] done.dom().contains(k) ==> regions@.dom().contains(k) && done[k] == regions@[k],
                set.shows(done, all),
            decreases keys.len() - i,
        {
            proof {
                regions.lemma_order();
                assert(regions@.dom().contains(keys[i as int]));
                crate::sorted::lemma_among(keys, i as int);
            }
            let k = regions.key_at(i);
            let ghost before = set;
            set.set_region(k, Some(regions.val_at(i)), snapshot);
            proof {
                law_updates_equal_fresh_builds(&before, done, all, k, Some(regions@[k]), snapshot, &set);
                assert(all.insert(k, snapshot) =~= all);
                done = done.insert(k, regions@[k]);
            }
            i += 1;
        }
        proof {
            regions.lemma_order();
            assert forall|k: RegionKey| #[trigger] done.dom().contains(k) <==> regions@.dom().contains(k) by {
                assert(crate::sorted::among(keys, keys.len() as int, k) <==> regions@.dom().contains(k));
            }
            assert(done =~= regions@);
        }
        set
    }

    /// What the regions are once the first `n` changes are made.
    pub open spec fn after(&self, changes: Seq<(RegionKey, Option<RegionMesh>)>, snapshot: u64, n: nat) -> Map<RegionKey, Seq<EmitterQuad>>
        decreases n,
    {
        if n == 0 {
            self@
        } else {
            let before = self.after(changes, snapshot, (n - 1) as nat);
            let (key, mesh) = changes[n - 1];
            let qs = match mesh {
                Some(m) => emissive(self.spec_emitting(), key, m, snapshot, m.quads@.len()),
                None => Seq::empty(),
            };
            if qs.len() == 0 {
                before.remove(key)
            } else {
                before.insert(key, qs)
            }
        }
    }

    /// The set with `changes` made, each a region and its mesh at `snapshot` if it has one. This set is
    /// unchanged, so a refused publication keeps it whole.
    pub fn updated(&self, changes: &[(RegionKey, Option<RegionMesh>)], snapshot: u64) -> (r: EmitterSet)
        requires
            self.wf(),
            forall|i: int|
                0 <= i < changes@.len() ==> ((#[trigger] changes@[i]).1 matches Some(m) ==> locatable(changes@[i].0, m.size)),
        ensures
            r.wf(),
            r.spec_emitting() == self.spec_emitting(),
            r@ == self.after(changes@, snapshot, changes@.len()),
    {
        let mut set = self.copy();
        let mut i: usize = 0;
        while i < changes.len()
            invariant
                i <= changes@.len(),
                set.wf(),
                set.spec_emitting() == self.spec_emitting(),
                set@ == self.after(changes@, snapshot, i as nat),
                forall|j: int|
                    0 <= j < changes@.len() ==> ((#[trigger] changes@[j]).1 matches Some(m) ==> locatable(changes@[j].0, m.size)),
            decreases changes@.len() - i,
        {
            assert(changes@[i as int].1 matches Some(m) ==> locatable(changes@[i as int].0, m.size));
            match &changes[i].1 {
                Some(m) => set.set_region(changes[i].0, Some(m), snapshot),
                None => set.set_region(changes[i].0, None, snapshot),
            }
            i += 1;
        }
        set
    }

    /// Region by region what the meshes of `meshes` give, each at its snapshot.
    pub open spec fn shows(&self, meshes: Map<RegionKey, RegionMesh>, snapshots: Map<RegionKey, u64>) -> bool {
        forall|k: RegionKey|
            {
                let qs = if meshes.dom().contains(k) {
                    emissive(self.spec_emitting(), k, meshes[k], snapshots[k], meshes[k].quads@.len())
                } else {
                    Seq::empty()
                };
                if qs.len() == 0 {
                    !#[trigger] self@.dom().contains(k)
                } else {
                    self@.dom().contains(k) && self@[k] == qs
                }
            }
    }
}

proof fn lemma_gathered_grows(m: Map<RegionKey, Seq<EmitterQuad>>, keys: Seq<RegionKey>, a: nat, b: nat)
    requires
        a <= b,
    ensures
        gathered(m, keys, a).len() <= gathered(m, keys, b).len(),
    decreases b - a,
{
    if a < b {
        lemma_gathered_grows(m, keys, a, (b - 1) as nat);
    }
}

/// An update of one region keeps the set equal to a build from all meshes, with the ids of that region
/// alone at the new snapshot.
pub proof fn law_updates_equal_fresh_builds(
    set: &EmitterSet,
    meshes: Map<RegionKey, RegionMesh>,
    snapshots: Map<RegionKey, u64>,
    key: RegionKey,
    mesh: Option<RegionMesh>,
    snapshot: u64,
    next: &EmitterSet,
)
    requires
        set.shows(meshes, snapshots),
        next@ == set.with_region(key, mesh, snapshot),
        next.spec_emitting() == set.spec_emitting(),
    ensures
        next.shows(
            match mesh {
                Some(m) => meshes.insert(key, m),
                None => meshes.remove(key),
            },
            snapshots.insert(key, snapshot),
        ),
{
    let now = match mesh {
        Some(m) => meshes.insert(key, m),
        None => meshes.remove(key),
    };
    let at = snapshots.insert(key, snapshot);
    assert forall|k: RegionKey|
        {
            let qs = if now.dom().contains(k) {
                emissive(next.spec_emitting(), k, now[k], at[k], now[k].quads@.len())
            } else {
                Seq::empty()
            };
            if qs.len() == 0 {
                !#[trigger] next@.dom().contains(k)
            } else {
                next@.dom().contains(k) && next@[k] == qs
            }
        } by {
        if k != key {
            assert(set@.dom().contains(k) || !set@.dom().contains(k));
            assert(next@.dom().contains(k) == set@.dom().contains(k));
        }
    }
}

/// Two sets that show the same meshes at the same snapshots are equal, whichever updates led there.
pub proof fn law_sets_are_determined_by_their_meshes(
    a: &EmitterSet,
    b: &EmitterSet,
    meshes: Map<RegionKey, RegionMesh>,
    snapshots: Map<RegionKey, u64>,
)
    requires
        a.shows(meshes, snapshots),
        b.shows(meshes, snapshots),
        a.spec_emitting() == b.spec_emitting(),
    ensures
        a@ == b@,
{
    assert forall|k: RegionKey| a@.dom().contains(k) == b@.dom().contains(k) by {}
    assert(a@.dom() =~= b@.dom());
    assert forall|k: RegionKey| a@.dom().contains(k) implies a@[k] == b@[k] by {}
    assert(a@ =~= b@);
}

/// One emitter of a table, by its geometry and radiance as raw bits.
#[derive(Clone, Copy, Debug, PartialEq, Eq)]
pub struct EmitterRow {
    pub region: RegionKey,
    pub face: u8,
    pub p0: [u64; 3],
    pub eu: [u64; 3],
    pub ev: [u64; 3],
    pub radiance: [u64; 3],
}

pub open spec fn same_bits(a: [u64; 3], b: [u64; 3]) -> bool {
    a[0] == b[0] && a[1] == b[1] && a[2] == b[2]
}

impl EmitterRow {
    /// Same geometry and radiance.
    pub open spec fn equals(self, o: EmitterRow) -> bool {
        &&& self.face == o.face
        &&& same_bits(self.p0, o.p0)
        &&& same_bits(self.eu, o.eu)
        &&& same_bits(self.ev, o.ev)
        &&& same_bits(self.radiance, o.radiance)
    }
}

fn bits_equal(a: &[u64; 3], b: &[u64; 3]) -> (r: bool)
    ensures
        r == same_bits(*a, *b),
{
    a[0] == b[0] && a[1] == b[1] && a[2] == b[2]
}

fn rows_equal(a: &EmitterRow, b: &EmitterRow) -> (r: bool)
    ensures
        r == a.equals(*b),
{
    a.face == b.face && bits_equal(&a.p0, &b.p0) && bits_equal(&a.eu, &b.eu) && bits_equal(&a.ev, &b.ev) && bits_equal(
        &a.radiance,
        &b.radiance,
    )
}

/// How many of the first `n` rows lie in `regions` and equal `e`.
pub open spec fn copies(t: Seq<EmitterRow>, n: nat, regions: Set<RegionKey>, e: EmitterRow) -> nat
    decreases n,
{
    if n == 0 {
        0
    } else {
        copies(t, (n - 1) as nat, regions, e) + if regions.contains(t[n - 1].region) && t[n - 1].equals(e) {
            1nat
        } else {
            0
        }
    }
}

/// Row `i` is a copy beyond those of the other table.
pub open spec fn surplus(t: Seq<EmitterRow>, other: Seq<EmitterRow>, regions: Set<RegionKey>, i: int) -> bool {
    regions.contains(t[i].region) && copies(t, (i + 1) as nat, regions, t[i]) > copies(other, other.len(), regions, t[i])
}

/// The rows among the first `n` that are copies beyond those of the other table.
pub open spec fn beyond(t: Seq<EmitterRow>, other: Seq<EmitterRow>, regions: Set<RegionKey>, n: nat) -> Seq<usize>
    decreases n,
{
    if n == 0 {
        Seq::empty()
    } else if surplus(t, other, regions, n - 1) {
        beyond(t, other, regions, (n - 1) as nat).push((n - 1) as usize)
    } else {
        beyond(t, other, regions, (n - 1) as nat)
    }
}

fn count_copies(t: &[EmitterRow], n: usize, regions: &RegionSet, e: &EmitterRow) -> (r: usize)
    requires
        n <= t@.len(),
        regions.wf(),
    ensures
        r == copies(t@, n as nat, regions@.dom(), *e),
{
    let mut c: usize = 0;
    let mut i: usize = 0;
    while i < n
        invariant
            i <= n <= t@.len(),
            regions.wf(),
            c == copies(t@, i as nat, regions@.dom(), *e),
            c <= i,
        decreases n - i,
    {
        if regions.contains(&t[i].region) && rows_equal(&t[i], e) {
            c += 1;
        }
        i += 1;
    }
    c
}

fn list_beyond(t: &[EmitterRow], other: &[EmitterRow], regions: &RegionSet) -> (r: Vec<usize>)
    requires
        regions.wf(),
    ensures
        r@ == beyond(t@, other@, regions@.dom(), t@.len()),
{
    let mut out: Vec<usize> = Vec::new();
    let mut i: usize = 0;
    while i < t.len()
        invariant
            i <= t@.len(),
            regions.wf(),
            out@ == beyond(t@, other@, regions@.dom(), i as nat),
        decreases t@.len() - i,
    {
        if regions.contains(&t[i].region) {
            if count_copies(t, i + 1, regions, &t[i]) > count_copies(other, other.len(), regions, &t[i]) {
                out.push(i);
            }
        }
        i += 1;
    }
    out
}

/// The emitters of `regions` whose geometry or radiance is in only one of `old` and `new`, as a
/// multiset: the places of the old one's, then of the new one's, each in table order. A quad split
/// differently counts as changed, which only relights more.
pub fn changed(old: &[EmitterRow], new: &[EmitterRow], regions: &RegionSet) -> (r: (Vec<usize>, Vec<usize>))
    requires
        regions.wf(),
    ensures
        r.0@ == beyond(old@, new@, regions@.dom(), old@.len()),
        r.1@ == beyond(new@, old@, regions@.dom(), new@.len()),
{
    (list_beyond(old, new, regions), list_beyond(new, old, regions))
}

proof fn lemma_copies(t: Seq<EmitterRow>, n: nat, regions: Set<RegionKey>, e: EmitterRow, f: EmitterRow)
    requires
        e.equals(f),
    ensures
        copies(t, n, regions, e) == copies(t, n, regions, f),
    decreases n,
{
    if n > 0 {
        lemma_copies(t, (n - 1) as nat, regions, e, f);
    }
}

/// How many listed rows equal `e`.
pub open spec fn listed_copies(t: Seq<EmitterRow>, list: Seq<usize>, e: EmitterRow) -> nat
    decreases list.len(),
{
    if list.len() == 0 {
        0
    } else {
        listed_copies(t, list.drop_last(), e) + if t[list.last() as int].equals(e) {
            1nat
        } else {
            0
        }
    }
}

/// Of each emitter, as many copies are listed as one table has more than the other.
pub proof fn law_changed_is_the_multiset_difference(t: Seq<EmitterRow>, other: Seq<EmitterRow>, regions: Set<RegionKey>, e: EmitterRow)
    requires
        t.len() <= usize::MAX,
    ensures
        listed_copies(t, beyond(t, other, regions, t.len()), e) == if copies(t, t.len(), regions, e) > copies(other, other.len(), regions, e) {
            copies(t, t.len(), regions, e) - copies(other, other.len(), regions, e)
        } else {
            0
        },
{
    lemma_beyond(t, other, regions, t.len(), e);
}

proof fn lemma_beyond(t: Seq<EmitterRow>, other: Seq<EmitterRow>, regions: Set<RegionKey>, n: nat, e: EmitterRow)
    requires
        n <= t.len() <= usize::MAX,
    ensures
        listed_copies(t, beyond(t, other, regions, n), e) == if copies(t, n, regions, e) > copies(other, other.len(), regions, e) {
            copies(t, n, regions, e) - copies(other, other.len(), regions, e)
        } else {
            0
        },
    decreases n,
{
    if n > 0 {
        lemma_beyond(t, other, regions, (n - 1) as nat, e);
        let x = t[n - 1];
        if x.equals(e) {
            lemma_copies(t, n, regions, x, e);
            lemma_copies(other, other.len(), regions, x, e);
        }
        if surplus(t, other, regions, n - 1) {
            let before = beyond(t, other, regions, (n - 1) as nat);
            assert(before.push((n - 1) as usize).drop_last() =~= before);
            assert(((n - 1) as usize) as int == n - 1);
        }
    }
}

/// A table does not differ from itself.
pub proof fn law_same_table_has_no_changes(t: Seq<EmitterRow>, regions: Set<RegionKey>, n: nat)
    requires
        n <= t.len(),
    ensures
        beyond(t, t, regions, n) == Seq::<usize>::empty(),
    decreases n,
{
    if n > 0 {
        law_same_table_has_no_changes(t, regions, (n - 1) as nat);
        lemma_copies_grow(t, n, t.len(), regions, t[n - 1]);
    }
}

proof fn lemma_copies_grow(t: Seq<EmitterRow>, a: nat, b: nat, regions: Set<RegionKey>, e: EmitterRow)
    requires
        a <= b,
    ensures
        copies(t, a, regions, e) <= copies(t, b, regions, e),
    decreases b - a,
{
    if a < b {
        lemma_copies_grow(t, a, (b - 1) as nat, regions, e);
    }
}

/// Bytes of one emitter on the device.
pub const EMITTER_BYTES: u64 = 80;

/// One emitter as the shaders read it, its numbers as raw bits.
#[derive(Clone, Copy, Debug, PartialEq, Eq)]
pub struct GpuEmitter {
    /// Corner, and area.
    pub p0_area: [u32; 4],
    /// Edge along u, and selection probability.
    pub eu_pdf: [u32; 4],
    /// Edge along v; the last word is unused.
    pub ev: [u32; 4],
    /// Emitted radiance; the last word is unused.
    pub radiance: [u32; 4],
    /// Alias threshold, alias index, face; the last word is unused.
    pub meta: [u32; 4],
}

/// Four words one behind the other.
pub open spec fn row4(w: [u32; 4]) -> Seq<u8> {
    le32(w[0]) + le32(w[1]) + le32(w[2]) + le32(w[3])
}

fn push_row4(out: &mut Vec<u8>, w: &[u32; 4])
    ensures
        final(out)@ == old(out)@ + row4(*w),
{
    push_u32(out, w[0]);
    push_u32(out, w[1]);
    push_u32(out, w[2]);
    push_u32(out, w[3]);
    assert(out@ =~= old(out)@ + row4(*w));
}

/// Rows of four words one behind the other.
pub open spec fn rows4(rows: Seq<[u32; 4]>, n: nat) -> Seq<u8>
    decreases n,
{
    if n == 0 {
        Seq::empty()
    } else {
        rows4(rows, (n - 1) as nat) + row4(rows[n - 1])
    }
}

/// Rows of four words as the device holds them; the per-material emitted radiance is such a table.
pub fn row_bytes(rows: &[[u32; 4]]) -> (r: Vec<u8>)
    ensures
        r@ == rows4(rows@, rows@.len()),
{
    let mut out: Vec<u8> = Vec::new();
    let mut i: usize = 0;
    while i < rows.len()
        invariant
            i <= rows@.len(),
            out@ == rows4(rows@, i as nat),
        decreases rows@.len() - i,
    {
        push_row4(&mut out, &rows[i]);
        i += 1;
    }
    out
}

impl GpuEmitter {
    pub open spec fn image(self) -> Seq<u8> {
        row4(self.p0_area) + row4(self.eu_pdf) + row4(self.ev) + row4(self.radiance) + row4(self.meta)
    }

    /// The first `n` emitters one behind the other.
    pub open spec fn images(rows: Seq<GpuEmitter>, n: nat) -> Seq<u8>
        decreases n,
    {
        if n == 0 {
            Seq::empty()
        } else {
            GpuEmitter::images(rows, (n - 1) as nat) + rows[n - 1].image()
        }
    }

    /// The rows as the device holds them.
    pub fn bytes(rows: &[GpuEmitter]) -> (r: Vec<u8>)
        ensures
            r@ == GpuEmitter::images(rows@, rows@.len()),
    {
        let mut out: Vec<u8> = Vec::new();
        let mut i: usize = 0;
        while i < rows.len()
            invariant
                i <= rows@.len(),
                out@ == GpuEmitter::images(rows@, i as nat),
            decreases rows@.len() - i,
        {
            let ghost before = out@;
            let e = rows[i];
            push_row4(&mut out, &e.p0_area);
            push_row4(&mut out, &e.eu_pdf);
            push_row4(&mut out, &e.ev);
            push_row4(&mut out, &e.radiance);
            push_row4(&mut out, &e.meta);
            assert(out@ =~= before + e.image());
            i += 1;
        }
        out
    }
}

/// Emitter `i` stands at byte `80 i`.
pub proof fn law_emitter_bytes_hold_every_row(rows: Seq<GpuEmitter>, n: nat, i: int)
    requires
        0 <= i < n <= rows.len(),
    ensures
        GpuEmitter::images(rows, n).len() == 80 * n,
        GpuEmitter::images(rows, n).subrange(80 * i, 80 * (i + 1)) == rows[i].image(),
    decreases n,
{
    assert(rows[n - 1].image().len() == 80);
    if n > 1 {
        law_emitter_bytes_hold_every_row(
            rows,
            (n - 1) as nat,
            if i < n - 1 {
                i
            } else {
                0
            },
        );
    }
    let before = GpuEmitter::images(rows, (n - 1) as nat);
    let now = GpuEmitter::images(rows, n);
    if i < n - 1 {
        assert(now.subrange(80 * i, 80 * (i + 1)) =~= before.subrange(80 * i, 80 * (i + 1)));
    } else {
        assert(now.subrange(80 * i, 80 * (i + 1)) =~= rows[i].image());
    }
}

/// The sizes of the buffers of some emitters and materials; neither is empty.
pub fn buffer_bytes(emitters: u32, materials: u32) -> (r: (u64, u64))
    ensures
        r.0 == 80 * (if emitters > 0 {
            emitters as int
        } else {
            1
        }),
        r.1 == 16 * (if materials > 0 {
            materials as int
        } else {
            1
        }),
{
    let e: u64 = if emitters > 0 {
        emitters as u64
    } else {
        1
    };
    let m: u64 = if materials > 0 {
        materials as u64
    } else {
        1
    };
    (EMITTER_BYTES * e, 16 * m)
}

/// Two rows are one emitter exactly where they have the same face, corner, edges and radiance.
pub proof fn law_rows_are_one_emitter_where_all_fields_agree(a: EmitterRow, b: EmitterRow)
    ensures
        a.equals(b) <==> a.face == b.face && a.p0@ == b.p0@ && a.eu@ == b.eu@ && a.ev@ == b.ev@ && a.radiance@ == b.radiance@,
{
    if a.equals(b) {
        assert(a.p0@ =~= b.p0@);
        assert(a.eu@ =~= b.eu@);
        assert(a.ev@ =~= b.ev@);
        assert(a.radiance@ =~= b.radiance@);
    }
}

proof fn lemma_some_copy(t: Seq<EmitterRow>, n: nat, regions: Set<RegionKey>, e: EmitterRow)
    requires
        n <= t.len(),
    ensures
        copies(t, n, regions, e) == 0 <==> forall|j: int|
            0 <= j < n ==> !(regions.contains((#[trigger] t[j]).region) && t[j].equals(e)),
    decreases n,
{
    if n > 0 {
        lemma_some_copy(t, (n - 1) as nat, regions, e);
        assert(t[n - 1] == t[n - 1]);
    }
}

proof fn lemma_listed(t: Seq<EmitterRow>, other: Seq<EmitterRow>, regions: Set<RegionKey>, n: nat)
    requires
        n <= t.len() <= usize::MAX,
    ensures
        forall|i: int| 0 <= i < n && surplus(t, other, regions, i) ==> #[trigger] beyond(t, other, regions, n).contains(i as usize),
        forall|k: int|
            0 <= k < beyond(t, other, regions, n).len() ==> (#[trigger] beyond(t, other, regions, n)[k]) < n && surplus(
                t,
                other,
                regions,
                beyond(t, other, regions, n)[k] as int,
            ),
        forall|k: int, l: int|
            0 <= k < l < beyond(t, other, regions, n).len() ==> (#[trigger] beyond(t, other, regions, n)[k]) < (
            #[trigger] beyond(t, other, regions, n)[l]),
    decreases n,
{
    if n > 0 {
        lemma_listed(t, other, regions, (n - 1) as nat);
        let before = beyond(t, other, regions, (n - 1) as nat);
        let now = beyond(t, other, regions, n);
        assert(((n - 1) as usize) as int == n - 1);
        assert forall|i: int| 0 <= i < n && surplus(t, other, regions, i) implies #[trigger] now.contains(i as usize) by {
            if i < n - 1 {
                assert(before.contains(i as usize));
                let k = choose|k: int| 0 <= k < before.len() && before[k] == i as usize;
                assert(now[k] == i as usize);
            } else {
                assert(now[now.len() - 1] == i as usize);
            }
        }
        assert forall|k: int| 0 <= k < now.len() implies (#[trigger] now[k]) < n && surplus(t, other, regions, now[k] as int) by {
            if k < before.len() {
                assert(now[k] == before[k]);
            }
        }
        assert forall|k: int, l: int| 0 <= k < l < now.len() implies (#[trigger] now[k]) < (#[trigger] now[l]) by {
            assert(now[k] == before[k]);
            if l < before.len() {
                assert(now[l] == before[l]);
            }
        }
    }
}

/// An emitter of a rebuilt region that is in no rebuilt region of the other table, by its face, corner, edges and
/// radiance, is always listed.
pub proof fn law_emitters_without_a_like_are_listed(t: Seq<EmitterRow>, other: Seq<EmitterRow>, regions: Set<RegionKey>, i: int)
    requires
        t.len() <= usize::MAX,
        0 <= i < t.len(),
        regions.contains(t[i].region),
        forall|j: int|
            0 <= j < other.len() && regions.contains((#[trigger] other[j]).region) ==> !(other[j].face == t[i].face && other[j].p0@
                == t[i].p0@ && other[j].eu@ == t[i].eu@ && other[j].ev@ == t[i].ev@ && other[j].radiance@ == t[i].radiance@),
    ensures
        beyond(t, other, regions, t.len()).contains(i as usize),
{
    lemma_listed(t, other, regions, t.len());
    assert forall|j: int| 0 <= j < other.len() implies !(regions.contains((#[trigger] other[j]).region) && other[j].equals(t[i])) by {
        law_rows_are_one_emitter_where_all_fields_agree(other[j], t[i]);
    }
    lemma_some_copy(other, other.len(), regions, t[i]);
    law_rows_are_one_emitter_where_all_fields_agree(t[i], t[i]);
    assert(copies(t, (i + 1) as nat, regions, t[i]) > 0);
}

/// Only emitters of rebuilt regions are listed, each once and in table order. Of like ones, the last of the table
/// are listed.
pub proof fn law_listed_emitters_are_of_rebuilt_regions(t: Seq<EmitterRow>, other: Seq<EmitterRow>, regions: Set<RegionKey>, k: int)
    requires
        t.len() <= usize::MAX,
        0 <= k < beyond(t, other, regions, t.len()).len(),
    ensures
        ({
            let list = beyond(t, other, regions, t.len());
            let i = list[k] as int;
            &&& 0 <= i < t.len()
            &&& regions.contains(t[i].region)
            &&& forall|l: int| 0 <= l < k ==> (#[trigger] list[l]) < i
            &&& forall|j: int|
                i < j < t.len() && regions.contains((#[trigger] t[j]).region) && t[j].face == t[i].face && t[j].p0@ == t[i].p0@ && t[j].eu@
                    == t[i].eu@ && t[j].ev@ == t[i].ev@ && t[j].radiance@ == t[i].radiance@ ==> list.contains(j as usize)
        }),
{
    lemma_listed(t, other, regions, t.len());
    let list = beyond(t, other, regions, t.len());
    let i = list[k] as int;
    assert(surplus(t, other, regions, i));
    assert forall|j: int|
        i < j < t.len() && regions.contains((#[trigger] t[j]).region) && t[j].face == t[i].face && t[j].p0@ == t[i].p0@ && t[j].eu@ == t[i].eu@
            && t[j].ev@ == t[i].ev@ && t[j].radiance@ == t[i].radiance@ implies list.contains(j as usize) by {
        law_rows_are_one_emitter_where_all_fields_agree(t[j], t[i]);
        lemma_copies(t, (j + 1) as nat, regions, t[j], t[i]);
        lemma_copies(other, other.len(), regions, t[j], t[i]);
        lemma_copies_grow(t, (i + 1) as nat, (j + 1) as nat, regions, t[i]);
        assert(surplus(t, other, regions, j));
    }
}

/// What tells one emitter from another.
pub type EmitterKey = (u8, Seq<u64>, Seq<u64>, Seq<u64>, Seq<u64>);

pub open spec fn key_of(e: EmitterRow) -> EmitterKey {
    (e.face, e.p0@, e.eu@, e.ev@, e.radiance@)
}

/// The emitters of some regions of a table, as a multiset.
pub open spec fn emitters_of(t: Seq<EmitterRow>, regions: Set<RegionKey>) -> Multiset<EmitterKey> {
    t.filter(|e: EmitterRow| regions.contains(e.region)).map_values(|e: EmitterRow| key_of(e)).to_multiset()
}

proof fn lemma_push_count(s: Seq<EmitterKey>, k: EmitterKey, q: EmitterKey)
    ensures
        s.push(k).to_multiset().count(q) == s.to_multiset().count(q) + if k == q {
            1nat
        } else {
            0
        },
{
    s.to_multiset_ensures();
    s.push(k).to_multiset_ensures();
    assert(s.push(k).to_multiset() =~= s.to_multiset().insert(k));
}

proof fn lemma_copies_count(t: Seq<EmitterRow>, n: nat, regions: Set<RegionKey>, e: EmitterRow)
    requires
        n <= t.len(),
    ensures
        copies(t, n, regions, e) == emitters_of(t.take(n as int), regions).count(key_of(e)),
    decreases n,
{
    reveal(Seq::filter);
    let inside = |x: EmitterRow| regions.contains(x.region);
    let key = |x: EmitterRow| key_of(x);
    let now = t.take(n as int);
    if n == 0 {
        assert(now.filter(inside).map_values(key) =~= Seq::<EmitterKey>::empty());
        Seq::<EmitterKey>::empty().to_multiset_ensures();
        assert(Seq::<EmitterKey>::empty().to_multiset() =~= Multiset::empty());
    } else {
        lemma_copies_count(t, (n - 1) as nat, regions, e);
        let before = t.take(n - 1);
        let x = t[n - 1];
        assert(now.drop_last() =~= before);
        assert(now.last() == x);
        law_rows_are_one_emitter_where_all_fields_agree(x, e);
        if regions.contains(x.region) {
            assert(now.filter(inside).map_values(key) =~= before.filter(inside).map_values(key).push(key_of(x)));
            lemma_push_count(before.filter(inside).map_values(key), key_of(x), key_of(e));
        } else {
            assert(now.filter(inside) =~= before.filter(inside));
        }
    }
}

proof fn lemma_listed_count(t: Seq<EmitterRow>, list: Seq<usize>, e: EmitterRow)
    ensures
        listed_copies(t, list, e) == Seq::new(list.len(), |i: int| key_of(t[list[i] as int])).to_multiset().count(key_of(e)),
    decreases list.len(),
{
    let now = Seq::new(list.len(), |i: int| key_of(t[list[i] as int]));
    if list.len() == 0 {
        now.to_multiset_ensures();
        assert(now =~= Seq::<EmitterKey>::empty());
        Seq::<EmitterKey>::empty().to_multiset_ensures();
        assert(Seq::<EmitterKey>::empty().to_multiset() =~= Multiset::empty());
    } else {
        lemma_listed_count(t, list.drop_last(), e);
        let x = t[list.last() as int];
        let before = Seq::new(list.drop_last().len(), |i: int| key_of(t[list.drop_last()[i] as int]));
        assert(now =~= before.push(key_of(x)));
        lemma_push_count(before, key_of(x), key_of(e));
        law_rows_are_one_emitter_where_all_fields_agree(x, e);
    }
}

/// The listed emitters are those of the rebuilt regions of one table without those of the other, as multisets
/// of face, corner, edges and radiance.
pub proof fn law_listed_emitters_are_the_difference(t: Seq<EmitterRow>, other: Seq<EmitterRow>, regions: Set<RegionKey>, e: EmitterRow)
    requires
        t.len() <= usize::MAX,
    ensures
        ({
            let list = beyond(t, other, regions, t.len());
            let listed = Seq::new(list.len(), |i: int| key_of(t[list[i] as int])).to_multiset();
            let (a, b) = (emitters_of(t, regions).count(key_of(e)), emitters_of(other, regions).count(key_of(e)));
            listed.count(key_of(e)) == if a > b {
                a - b
            } else {
                0
            }
        }),
{
    law_changed_is_the_multiset_difference(t, other, regions, e);
    lemma_listed_count(t, beyond(t, other, regions, t.len()), e);
    lemma_copies_count(t, t.len(), regions, e);
    lemma_copies_count(other, other.len(), regions, e);
    assert(t.take(t.len() as int) =~= t);
    assert(other.take(other.len() as int) =~= other);
}

/// An emitter's place in the world is that of its quad in a region that starts at `o`: the plane along the
/// face's axis, and the sides along the two axes behind it, in turn.
pub proof fn law_emitters_stand_where_their_quads_do(id: EmitterId, material: u16, q: RegionQuad, o: VoxelCoord)
    requires
        has_places(o),
        q.face < 6,
    ensures
        ({
            let e = EmitterQuad::spec_from_local(id, material, q, o);
            &&& e.id == id && e.material == material && e.face == q.face
            &&& q.face == 0 || q.face == 1 ==> e.plane == o.x + q.plane && e.u0 == o.y + q.u0 && e.u1 == o.y + q.u1 && e.v0 == o.z + q.v0
                && e.v1 == o.z + q.v1
            &&& q.face == 2 || q.face == 3 ==> e.plane == o.y + q.plane && e.u0 == o.z + q.u0 && e.u1 == o.z + q.u1 && e.v0 == o.x + q.v0
                && e.v1 == o.x + q.v1
            &&& q.face == 4 || q.face == 5 ==> e.plane == o.z + q.plane && e.u0 == o.x + q.u0 && e.u1 == o.x + q.u1 && e.v0 == o.y + q.v0
                && e.v1 == o.y + q.v1
        }),
{
}

/// The emitters of a region are its quads whose material emits, each once and in order, under the region's key,
/// the quad's number and the snapshot, with the id of the quad's material.
pub proof fn law_emitters_are_the_emitting_quads(emitting: Seq<Option<u16>>, key: RegionKey, m: RegionMesh, snapshot: u64, n: nat)
    requires
        n <= m.quads@.len(),
        n <= u32::MAX,
    ensures
        ({
            let es = emissive(emitting, key, m, snapshot, n);
            &&& forall|k: int|
                0 <= k < es.len() ==> {
                    let q = m.quads@[(#[trigger] es[k]).id.quad as int];
                    &&& es[k].id.key == key && es[k].id.snapshot == snapshot && es[k].id.quad < n
                    &&& q.material < emitting.len() && emitting[q.material as int] == Some(es[k].material)
                    &&& es[k] == EmitterQuad::spec_from_local(es[k].id, es[k].material, q, key.spec_origin(m.size))
                }
            &&& forall|k: int, l: int| 0 <= k < l < es.len() ==> (#[trigger] es[k]).id.quad < (#[trigger] es[l]).id.quad
            &&& forall|i: int|
                0 <= i < n && (#[trigger] m.quads@[i]).material < emitting.len() && emitting[m.quads@[i].material as int] is Some
                    ==> exists|k: int| 0 <= k < es.len() && (#[trigger] es[k]).id.quad == i
        }),
    decreases n,
{
    if n > 0 {
        law_emitters_are_the_emitting_quads(emitting, key, m, snapshot, (n - 1) as nat);
        let before = emissive(emitting, key, m, snapshot, (n - 1) as nat);
        let now = emissive(emitting, key, m, snapshot, n);
        assert(((n - 1) as u32) as int == n - 1);
        assert forall|k: int| 0 <= k < before.len() implies #[trigger] now[k] == before[k] by {}
        assert forall|i: int|
            0 <= i < n && (#[trigger] m.quads@[i]).material < emitting.len() && emitting[m.quads@[i].material as int] is Some implies exists|k: int|
            0 <= k < now.len() && (#[trigger] now[k]).id.quad == i by {
            if i < n - 1 {
                let k = choose|k: int| 0 <= k < before.len() && (#[trigger] before[k]).id.quad == i;
                assert(now[k].id.quad == i);
            } else {
                assert(now[now.len() - 1].id.quad == i);
            }
        }
    }
}

proof fn lemma_row4(w: [u32; 4], j: int)
    requires
        0 <= j < 4,
    ensures
        row4(w).len() == 16,
        row4(w).subrange(4 * j, 4 * j + 4) == le32(w[j]),
{
    assert(row4(w).subrange(4 * j, 4 * j + 4) =~= le32(w[j]));
}

proof fn lemma_five_rows(a: Seq<u8>, b: Seq<u8>, c: Seq<u8>, d: Seq<u8>, e: Seq<u8>, j: int)
    requires
        a.len() == 16,
        b.len() == 16,
        c.len() == 16,
        d.len() == 16,
        e.len() == 16,
        0 <= j < 4,
    ensures
        ({
            let all = a + b + c + d + e;
            &&& all.len() == 80
            &&& all.subrange(4 * j, 4 * j + 4) == a.subrange(4 * j, 4 * j + 4)
            &&& all.subrange(4 * j + 16, 4 * j + 20) == b.subrange(4 * j, 4 * j + 4)
            &&& all.subrange(4 * j + 32, 4 * j + 36) == c.subrange(4 * j, 4 * j + 4)
            &&& all.subrange(4 * j + 48, 4 * j + 52) == d.subrange(4 * j, 4 * j + 4)
            &&& all.subrange(4 * j + 64, 4 * j + 68) == e.subrange(4 * j, 4 * j + 4)
        }),
{
    let all = a + b + c + d + e;
    assert(all.subrange(4 * j, 4 * j + 4) =~= a.subrange(4 * j, 4 * j + 4));
    assert(all.subrange(4 * j + 16, 4 * j + 20) =~= b.subrange(4 * j, 4 * j + 4));
    assert(all.subrange(4 * j + 32, 4 * j + 36) =~= c.subrange(4 * j, 4 * j + 4));
    assert(all.subrange(4 * j + 48, 4 * j + 52) =~= d.subrange(4 * j, 4 * j + 4));
    assert(all.subrange(4 * j + 64, 4 * j + 68) =~= e.subrange(4 * j, 4 * j + 4));
}

proof fn lemma_within(b: Seq<u8>, at: int, len: int, off: int)
    requires
        0 <= at,
        0 <= off,
        off + 4 <= len,
        at + len <= b.len(),
    ensures
        b.subrange(at + off, at + off + 4) == b.subrange(at, at + len).subrange(off, off + 4),
{
    assert(b.subrange(at + off, at + off + 4) =~= b.subrange(at, at + len).subrange(off, off + 4));
}

/// Word `j` of each part of emitter `i` stands in the device's bytes where the shader has it: the corner and area
/// first, then the edge along u and the probability, the edge along v, the radiance, and the alias entry.
pub proof fn law_emitter_words_stand_in_order(rows: Seq<GpuEmitter>, n: nat, i: int, j: int)
    requires
        0 <= i < n <= rows.len(),
        0 <= j < 4,
    ensures
        ({
            let b = GpuEmitter::images(rows, n);
            let at = 80 * i + 4 * j;
            &&& b.subrange(at, at + 4) == le32(rows[i].p0_area[j])
            &&& b.subrange(at + 16, at + 20) == le32(rows[i].eu_pdf[j])
            &&& b.subrange(at + 32, at + 36) == le32(rows[i].ev[j])
            &&& b.subrange(at + 48, at + 52) == le32(rows[i].radiance[j])
            &&& b.subrange(at + 64, at + 68) == le32(rows[i].meta[j])
        }),
{
    law_emitter_bytes_hold_every_row(rows, n, i);
    let b = GpuEmitter::images(rows, n);
    let e = rows[i];
    lemma_row4(e.p0_area, j);
    lemma_row4(e.eu_pdf, j);
    lemma_row4(e.ev, j);
    lemma_row4(e.radiance, j);
    lemma_row4(e.meta, j);
    lemma_five_rows(row4(e.p0_area), row4(e.eu_pdf), row4(e.ev), row4(e.radiance), row4(e.meta), j);
    lemma_within(b, 80 * i, 80, 4 * j);
    lemma_within(b, 80 * i, 80, 4 * j + 16);
    lemma_within(b, 80 * i, 80, 4 * j + 32);
    lemma_within(b, 80 * i, 80, 4 * j + 48);
    lemma_within(b, 80 * i, 80, 4 * j + 64);
}

/// Word `j` of row `i` of a table of four-word rows stands at byte `16 i + 4 j`.
pub proof fn law_rows_stand_in_order(rows: Seq<[u32; 4]>, n: nat, i: int, j: int)
    requires
        0 <= i < n <= rows.len(),
        0 <= j < 4,
    ensures
        rows4(rows, n).len() == 16 * n,
        rows4(rows, n).subrange(16 * i + 4 * j, 16 * i + 4 * j + 4) == le32(rows[i][j]),
    decreases n,
{
    lemma_row4(rows[n - 1], j);
    let before = rows4(rows, (n - 1) as nat);
    let now = rows4(rows, n);
    let at = 16 * i + 4 * j;
    if n > 1 {
        law_rows_stand_in_order(
            rows,
            (n - 1) as nat,
            if i < n - 1 {
                i
            } else {
                0
            },
            j,
        );
    }
    if i < n - 1 {
        assert(now.subrange(at, at + 4) =~= before.subrange(at, at + 4));
    } else {
        assert(now.subrange(at, at + 4) =~= row4(rows[i]).subrange(4 * j, 4 * j + 4));
    }
}

/// Setting a region changes that region alone: it is listed where one of its quads emits, with its emitters, and is
/// not listed otherwise.
pub proof fn law_setting_a_region_changes_it_alone(s: &EmitterSet, key: RegionKey, mesh: Option<RegionMesh>, snapshot: u64, other: RegionKey)
    requires
        mesh matches Some(m) ==> m.quads@.len() <= u32::MAX,
    ensures
        ({
            let now = s.with_region(key, mesh, snapshot);
            &&& other != key ==> (now.dom().contains(other) <==> s@.dom().contains(other)) && (s@.dom().contains(other) ==> now[other] == s@[other])
            &&& now.dom().contains(key) <==> mesh is Some && exists|i: int|
                0 <= i < mesh->0.quads@.len() && (#[trigger] mesh->0.quads@[i]).material < s.spec_emitting().len()
                    && s.spec_emitting()[mesh->0.quads@[i].material as int] is Some
            &&& now.dom().contains(key) ==> now[key] == emissive(s.spec_emitting(), key, mesh->0, snapshot, mesh->0.quads@.len())
        }),
{
    if let Some(m) = mesh {
        law_emitters_are_the_emitting_quads(s.spec_emitting(), key, m, snapshot, m.quads@.len());
        let es = emissive(s.spec_emitting(), key, m, snapshot, m.quads@.len());
        if es.len() > 0 {
            let e = es[0];
            assert(m.quads@[e.id.quad as int].material < s.spec_emitting().len());
        }
    }
}

} // verus!
