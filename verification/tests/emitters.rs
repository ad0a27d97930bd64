//! Emitters of a lit world: the same whatever the region size, and kept up by edits.
use std::collections::{BTreeMap, BTreeSet};

use voxel_engine::derived::mesh::{extract_world, BrickMesh, Merge};
use voxel_engine::derived::pipeline::{Config, Pipeline};
use voxel_engine::gpu::emitters::{EmitterId, EmitterQuad, EmitterSet};
use voxel_engine::gpu::layout::{build_regions, RegionKey, RegionMesh, RegionQuad, RegionSize};
use voxel_engine::gpu::regions::RegionSet;
use voxel_engine::gpu::scene::{affected_regions, region_meshes};
use voxel_engine::sorted::SortedMap;
use voxel_engine::world::{BrickKey, MaterialId, VoxelCoord, World};

const STONE: MaterialId = MaterialId { id: 0 };
const LAMP: MaterialId = MaterialId { id: 1 };
const BULB: MaterialId = MaterialId { id: 2 };
const NEON_PINK: MaterialId = MaterialId { id: 3 };

/// Stone does not emit.
fn emitting() -> Vec<Option<u16>> {
    vec![None, Some(1), Some(2), Some(3)]
}

fn v(x: i32, y: i32, z: i32) -> VoxelCoord {
    VoxelCoord::new(x, y, z)
}

/// A lit street: a slab of road, poles with lamps, bulbs on strings, and a dark hill apart from them.
fn street_night() -> World {
    let mut w = World::new();
    w.fill_box(v(-60, 0, -60), v(140, 2, 70), Some(STONE)).unwrap();
    for x in (-56..136).step_by(16) {
        for z in [-50, -20, 10, 40, 60] {
            w.fill_box(v(x, 2, z), v(x + 1, 12, z + 1), Some(STONE)).unwrap();
            w.fill_box(v(x - 1, 12, z - 1), v(x + 2, 14, z + 2), Some(LAMP)).unwrap();
        }
        for z in (-48..60).step_by(6) {
            w.set(v(x + 8, 20, z), Some(BULB)).unwrap();
        }
    }
    w.fill_box(v(300, 0, 300), v(320, 20, 320), Some(STONE)).unwrap();
    w
}

/// A quad's place in the world and its material, which order.
type Geometry = (u16, u8, i32, i32, i32, i32, i32);

fn geometry(q: &EmitterQuad) -> Geometry {
    (q.material, q.face, q.plane, q.u0, q.v0, q.u1, q.v1)
}

/// The quads of a set by place, as a table orders them.
fn table(s: &EmitterSet) -> Vec<Geometry> {
    let mut t: Vec<Geometry> = s.all().iter().map(geometry).collect();
    t.sort();
    t
}

type Row = (Geometry, (i32, i32, i32), u32);

/// Everything but the snapshot in the ids.
fn content(s: &EmitterSet) -> Vec<Row> {
    let mut t: Vec<Row> = s.all().iter().map(|q| (geometry(q), (q.id.key.x, q.id.key.y, q.id.key.z), q.id.quad)).collect();
    t.sort();
    t
}

fn grouped(meshes: &[(BrickKey, BrickMesh)], size: RegionSize) -> SortedMap<RegionKey, RegionMesh> {
    build_regions(&meshes.iter().map(|(k, m)| (*k, m)).collect(), size)
}

#[test]
fn region_size_does_not_change_the_table() {
    let w = street_night();
    let meshes: Vec<_> = w.brick_keys().into_iter().map(|k| (k, extract_world(&w, k, Merge::Greedy).unwrap())).collect();
    let sets: Vec<EmitterSet> = [RegionSize::Brick, RegionSize::Chunk, RegionSize::Chunks2].iter().map(|&size| EmitterSet::of_regions(emitting(), &grouped(&meshes, size), 7)).collect();
    assert!(sets[0].len() > 1000);
    for s in &sets[1..] {
        assert_eq!(table(s), table(&sets[0]));
    }
    assert!(sets[1].all().iter().all(|q| q.id.snapshot == 7));
    assert!(sets[1].all().iter().all(|q| q.face < 6));
    // The quads lie on emissive voxels, with open air in front of them.
    for q in sets[2].all() {
        let a = q.face as usize / 2;
        let mut c = [0i32; 3];
        c[a] = q.plane - (q.face % 2) as i32;
        c[(a + 1) % 3] = q.u0;
        c[(a + 2) % 3] = q.v0;
        assert_eq!(w.get(v(c[0], c[1], c[2])), Some(MaterialId { id: q.material }));
        c[a] += if q.face % 2 == 1 { 1 } else { -1 };
        assert_eq!(w.get(v(c[0], c[1], c[2])), None);
    }
}

#[test]
fn local_quads_move_to_their_region() {
    let id = EmitterId { key: RegionKey { x: 1, y: 0, z: 0 }, quad: 4, snapshot: 9 };
    let q = RegionQuad { material: 2, face: 3, plane: 5, u0: 1, v0: 2, u1: 3, v1: 4 };
    // Face 3 lies on y; u runs along z, and v along x.
    let e = EmitterQuad::from_local(id, 2, q, v(100, 200, -300));
    assert_eq!((e.id, e.material, e.face), (id, 2, 3));
    assert_eq!((e.plane, e.u0, e.v0, e.u1, e.v1), (205, -299, 102, -297, 104));
}

/// Runs every job inline and publishes; the published brick keys.
fn drain(p: &mut Pipeline, w: &World) -> Vec<BrickKey> {
    loop {
        let jobs = p.dispatch(w);
        if jobs.is_empty() {
            break;
        }
        for j in jobs {
            p.complete(w, j.run());
        }
    }
    let published = p.try_publish(w);
    assert!(p.is_idle(), "pipeline did not drain");
    published.map(|x| x.groups.into_iter().flatten().collect()).unwrap_or_default()
}

/// Every region of the pipeline's current snapshot, built from scratch.
fn full(p: &mut Pipeline, size: RegionSize) -> SortedMap<RegionKey, RegionMesh> {
    let t = p.acquire();
    let meshes: Vec<_> = p.current().keys().into_iter().map(|k| (k, p.read(&t, k).unwrap().unwrap().clone())).collect();
    p.release(t).unwrap();
    grouped(&meshes, size)
}

fn listed(s: &RegionSet) -> Vec<RegionKey> {
    (0..s.len()).map(|i| s.key_at(i)).collect()
}

/// Voxel edits: (voxel, new material).
type Edits = Vec<(VoxelCoord, Option<MaterialId>)>;

#[test]
fn edits_keep_the_table_equal_to_a_fresh_build() {
    let size = RegionSize::Chunk;
    let mut w = street_night();
    let mut p = Pipeline::new(Config { merge: Merge::Greedy, ..Config::default() });
    p.mark_all(&w);
    drain(&mut p, &w);
    let snap0 = p.current().id.raw();
    let mut set = EmitterSet::new(emitting());
    let start = full(&mut p, size);
    for i in 0..start.len() {
        set.set_region(start.key_at(i), Some(start.val_at(i)), snap0);
    }
    let first = set.copy();
    assert_eq!(content(&first), content(&EmitterSet::of_regions(emitting(), &start, snap0)));
    assert!(first.len() > 1000);

    let find = |w: &World, m: MaterialId| w.occupied().into_iter().find(|&(_, x)| x == m).map(|(v, _)| v).unwrap();
    let lamp = find(&w, LAMP);
    let bulb = find(&w, BULB);
    let air = v(136, 40, 64);
    assert_eq!(w.get(air), None, "open air above the road");
    let region_of = |v: VoxelCoord| RegionKey::of(v.split().0, size);
    let lit = |s: &EmitterSet, r: RegionKey| s.all().iter().any(|q| q.id.key == r);
    // A dark voxel inside its brick, in a region without emitters: its edit touches no light.
    let quiet = v(309, 10, 309);
    assert_eq!(w.get(quiet), Some(STONE));
    assert!(!lit(&set, region_of(quiet)));

    let steps: Vec<(&str, Edits)> = vec![
        ("remove a lamp voxel", vec![(lamp, None)]),
        ("remove a bulb voxel", vec![(bulb, None)]),
        ("add an emissive voxel in open air", vec![(air, Some(NEON_PINK))]),
        ("remove a voxel in a region without emitters", vec![(quiet, None)]),
        ("restore everything", vec![(lamp, Some(LAMP)), (bulb, Some(BULB)), (air, None), (quiet, Some(STONE))]),
    ];
    let mut edited_ever: BTreeSet<(i32, i32, i32)> = BTreeSet::new();
    for (label, edits) in steps {
        let mut voxels = Vec::new();
        for &(at, m) in &edits {
            assert!(w.set(at, m).unwrap(), "{label}: the edit changes the world");
            voxels.push(at);
        }
        p.notify_edits(&voxels);
        let keys = drain(&mut p, &w);
        let snap = p.current().id.raw();
        let regions = affected_regions(&keys, size);
        let token = p.acquire();
        let changed = region_meshes(&p, &token, &regions, size).unwrap();
        p.release(token).unwrap();
        let changes: Vec<(RegionKey, Option<RegionMesh>)> = (0..changed.len()).map(|i| (changed.key_at(i), changed.val_at(i).clone())).collect();
        let before = set.copy();
        set = before.updated(&changes, snap);
        let scratch = EmitterSet::of_regions(emitting(), &full(&mut p, size), snap);
        assert_eq!(content(&set), content(&scratch), "{label}: incremental and from-scratch tables differ");
        let place = |k: RegionKey| (k.x, k.y, k.z);
        let old: BTreeMap<_, _> = before.all().iter().map(|q| ((place(q.id.key), q.id.quad), q.id.snapshot)).collect();
        for q in set.all() {
            let want = if regions.contains(&q.id.key) { snap } else { old[&(place(q.id.key), q.id.quad)] };
            assert_eq!(q.id.snapshot, want, "{label}: emitter {:?}", q.id);
        }
        match label {
            "remove a lamp voxel" => {
                assert_ne!(content(&set), content(&before), "the lamp edit changes the table");
                // The lamp's region left out of the update is caught.
                let part: Vec<_> = changes.iter().filter(|(k, _)| *k != region_of(lamp)).cloned().collect();
                assert_ne!(content(&before.updated(&part, snap)), content(&scratch), "a missed region must be caught");
            }
            "remove a voxel in a region without emitters" => {
                assert!(listed(&regions).iter().all(|&r| !lit(&before, r) && !lit(&set, r)), "the quiet edit's regions hold no emitters");
                assert_eq!(set.all(), before.all(), "no emitter id changes");
            }
            "restore everything" => {
                assert_eq!(table(&set), table(&first), "restoring gives the first table back");
                edited_ever.extend(listed(&regions).into_iter().map(place));
                let was: BTreeMap<Geometry, u64> = first.all().iter().map(|q| (geometry(q), q.id.snapshot)).collect();
                for q in set.all() {
                    assert_eq!(q.id.snapshot == was[&geometry(&q)], !edited_ever.contains(&place(q.id.key)), "{:?}", q.id);
                }
            }
            _ => {}
        }
        edited_ever.extend(listed(&regions).into_iter().map(place));
    }
}
