//! Extraction and triangulation against what is computed directly from voxels.
use std::collections::{BTreeMap, HashMap};

use voxel_engine::derived::mesh::{exposed_faces, extract_world, BrickMesh, Merge, Quad};
use voxel_engine::derived::pipeline::{Config, Pipeline};
use voxel_engine::derived::surface::summarize_world;
use voxel_engine::derived::triangles::Split;
use voxel_engine::world::{BrickKey, MaterialId, VoxelCoord, World};

const MERGES: [Merge; 2] = [Merge::Unmerged, Merge::Greedy];

fn mat(i: u16) -> MaterialId {
    MaterialId { id: i }
}

fn key_of(x: i32, y: i32, z: i32) -> BrickKey {
    VoxelCoord::new(x, y, z).split().0
}

struct Rng(u64);

impl Rng {
    fn next(&mut self) -> u64 {
        self.0 ^= self.0 >> 12;
        self.0 ^= self.0 << 25;
        self.0 ^= self.0 >> 27;
        self.0.wrapping_mul(0x2545_F491_4F6C_DD1D)
    }
    fn below(&mut self, n: u64) -> u64 {
        self.next() % n
    }
}

type Meshes = Vec<(BrickKey, BrickMesh)>;

fn meshes(w: &World, merge: Merge) -> Meshes {
    w.brick_keys().into_iter().map(|k| (k, extract_world(w, k, merge).expect("stored brick"))).collect()
}

#[test]
fn single_voxel_gives_six_unit_quads_facing_out() {
    let mut w = World::new();
    w.set(VoxelCoord::new(3, 4, 5), Some(mat(0))).unwrap();
    for merge in MERGES {
        let mesh = extract_world(&w, key_of(3, 4, 5), merge).unwrap();
        assert_eq!(mesh.quads.len(), 6);
        for q in &mesh.quads {
            assert_eq!(q.area(), 1);
            let [c0, c1, c2, _] = q.corners().map(|c| c.map(|x| x as i32));
            let (e1, e2) = ([c1[0] - c0[0], c1[1] - c0[1], c1[2] - c0[2]], [c2[0] - c0[0], c2[1] - c0[1], c2[2] - c0[2]]);
            let n = [e1[1] * e2[2] - e1[2] * e2[1], e1[2] * e2[0] - e1[0] * e2[2], e1[0] * e2[1] - e1[1] * e2[0]];
            let mut want = [0; 3];
            want[q.axis()] = if q.positive() { 1 } else { -1 };
            assert_eq!(n, want, "winding of {q:?}");
            let faces: Vec<_> = q.unit_faces(key_of(3, 4, 5));
            assert_eq!(faces, vec![(VoxelCoord::new(3, 4, 5), q.to_face())]);
        }
    }
}

#[test]
fn greedy_merges_a_slab_but_never_across_materials() {
    let mut w = World::new();
    // A 8x1x8 floor at y = 2, left half material 0, right half material 1.
    w.fill_box(VoxelCoord::new(0, 2, 0), VoxelCoord::new(4, 3, 8), Some(mat(0))).unwrap();
    w.fill_box(VoxelCoord::new(4, 2, 0), VoxelCoord::new(8, 3, 8), Some(mat(1))).unwrap();
    let k = key_of(0, 0, 0);
    let g = extract_world(&w, k, Merge::Greedy).unwrap();
    let top: Vec<_> = g.quads.iter().filter(|q| q.face == 3).collect();
    assert_eq!(top.len(), 2, "one top quad per material: {top:?}");
    assert!(top.iter().all(|q| q.area() == 32 && q.plane == 3));
    let none = extract_world(&w, k, Merge::Unmerged).unwrap();
    assert_eq!(none.summary(), g.summary());
    assert_eq!(g.summary(), summarize_world(&w, k).unwrap());
}

#[test]
fn faces_hidden_by_a_neighbour_brick_are_not_emitted() {
    let mut w = World::new();
    w.set(VoxelCoord::new(7, 0, 0), Some(mat(0))).unwrap();
    w.set(VoxelCoord::new(8, 0, 0), Some(mat(0))).unwrap();
    let mesh = extract_world(&w, key_of(7, 0, 0), Merge::Greedy).unwrap();
    assert_eq!(mesh.quads.len(), 5);
    assert!(!mesh.quads.iter().any(|q| q.face == 1), "+x face is hidden by the neighbour brick");
}

#[test]
fn merge_modes_have_names() {
    assert_eq!(Merge::Unmerged.name(), "none");
    assert_eq!(Merge::Greedy.name(), "greedy");
    assert_eq!(Merge::default(), Merge::Greedy);
}

/// Coverage check. Returns every problem found (empty = pass).
fn coverage_errors(w: &World, m: &Meshes) -> Vec<String> {
    let mut errors = Vec::new();
    let mut covered: BTreeMap<(VoxelCoord, u8, bool), (MaterialId, u32)> = BTreeMap::new();
    for (k, mesh) in m {
        for q in &mesh.quads {
            if !(q.u0 < q.u1 && q.v0 < q.v1 && q.u1 <= 8 && q.v1 <= 8 && q.plane <= 8 && q.face < 6) {
                errors.push(format!("{k:?}: malformed quad {q:?}"));
                continue;
            }
            for (v, f) in q.unit_faces(*k) {
                if v.split().0 != *k {
                    errors.push(format!("{k:?}: quad {q:?} covers {v:?} outside its brick"));
                }
                covered.entry((v, f.axis, f.positive)).or_insert((q.material, 0)).1 += 1;
                let e = covered.get_mut(&(v, f.axis, f.positive)).unwrap();
                if e.0 != q.material {
                    errors.push(format!("{v:?} {f:?}: covered with {:?} and {:?}", e.0, q.material));
                }
            }
        }
    }
    let want: BTreeMap<(VoxelCoord, u8, bool), MaterialId> = exposed_faces(w).into_iter().map(|(v, f, m)| ((v, f.axis, f.positive), m)).collect();
    for (key, &(mat, n)) in &covered {
        match want.get(key) {
            None => errors.push(format!("{key:?}: covered but not an exposed face")),
            Some(&wm) if wm != mat => errors.push(format!("{key:?}: material {mat:?}, voxel has {wm:?}")),
            _ => {}
        }
        if n != 1 {
            errors.push(format!("{key:?}: covered {n} times"));
        }
    }
    for key in want.keys() {
        if !covered.contains_key(key) {
            errors.push(format!("{key:?}: exposed face not covered"));
        }
    }
    errors
}

/// A random world spanning chunk boundaries (voxels in [-24, 24)^3, chunk edges at 0), with a few
/// materials in blobs so greedy merging has both mergeable areas and material boundaries.
fn random_world(seed: u64) -> World {
    let mut w = World::new();
    let mats = [mat(0), mat(1), mat(2)];
    let mut rng = Rng(seed);
    for _ in 0..160 {
        let c = |r: &mut Rng| r.below(48) as i32 - 24;
        let (x, y, z) = (c(&mut rng), c(&mut rng), c(&mut rng));
        let s = |r: &mut Rng| 1 + r.below(9) as i32;
        let (sx, sy, sz) = (s(&mut rng), s(&mut rng), s(&mut rng));
        let m = if rng.below(5) == 0 { None } else { Some(mats[rng.below(3) as usize]) };
        w.fill_box(VoxelCoord::new(x, y, z), VoxelCoord::new((x + sx).min(24), (y + sy).min(24), (z + sz).min(24)), m).unwrap();
    }
    w
}

/// A small street: a road, two kerbs, and houses with windows.
fn street() -> World {
    let mut w = World::new();
    let v = VoxelCoord::new;
    w.fill_box(v(-8, -1, 0), v(40, 0, 40), Some(mat(0))).unwrap();
    w.fill_box(v(-8, 0, 10), v(40, 1, 13), Some(mat(1))).unwrap();
    w.fill_box(v(-8, 0, 27), v(40, 1, 30), Some(mat(1))).unwrap();
    for (x, z, h) in [(0, 0, 14), (14, 0, 22), (28, 0, 9), (0, 32, 11), (20, 32, 17)] {
        w.fill_box(v(x, 0, z), v(x + 9, h, z + 7), Some(mat(2))).unwrap();
        for y in (2..h - 2).step_by(4) {
            w.fill_box(v(x + 2, y, z), v(x + 4, y + 2, z + 1), Some(mat(3))).unwrap();
            w.fill_box(v(x + 5, y, z + 6), v(x + 7, y + 2, z + 7), None).unwrap();
        }
    }
    w
}

#[test]
fn coverage_is_exact_on_the_street_and_random_worlds() {
    let mut worlds = vec![("street".to_string(), street())];
    for seed in [1u64, 2, 3, 4] {
        worlds.push((format!("random seed {seed}"), random_world(seed)));
    }
    for (name, w) in &worlds {
        for merge in MERGES {
            let m = meshes(w, merge);
            let errors = coverage_errors(w, &m);
            assert!(errors.is_empty(), "{name}, merge {}: {} problems, first: {:?}", merge.name(), errors.len(), &errors[..errors.len().min(5)]);
            for (k, mesh) in &m {
                assert_eq!(mesh.summary(), summarize_world(w, *k).unwrap(), "{name} {k:?}: face counts per material");
            }
        }
        let (none, greedy) = (meshes(w, Merge::Unmerged), meshes(w, Merge::Greedy));
        let count = |m: &Meshes| m.iter().map(|x| x.1.quads.len()).sum::<usize>();
        assert!(count(&greedy) < count(&none), "{name}: greedy must merge something");
    }
}

#[test]
fn negative_controls_coverage_checker_reports_planted_defects() {
    let w = random_world(7);
    let good = meshes(&w, Merge::Greedy);
    assert!(coverage_errors(&w, &good).is_empty());
    let at = good.iter().position(|(_, m)| m.quads.len() >= 2).unwrap();

    let plant = |f: &dyn Fn(&mut Vec<Quad>)| {
        let mut bad = good.clone();
        f(&mut bad[at].1.quads);
        coverage_errors(&w, &bad)
    };
    assert!(!plant(&|q| { q.remove(0); }).is_empty(), "dropped face");
    assert!(!plant(&|q| { let d = q[0]; q.push(d); }).is_empty(), "duplicated face");
    assert!(!plant(&|q| { q[0].plane ^= 1; }).is_empty(), "shifted plane");

    // Cross-material merge: two touching voxels of different materials; extend A's top quad over
    // B's and drop B's, as a mesher that ignored materials would.
    let mut w2 = World::new();
    let mats = [mat(0), mat(1)];
    w2.set(VoxelCoord::new(2, 2, 2), Some(mats[0])).unwrap();
    w2.set(VoxelCoord::new(2, 2, 3), Some(mats[1])).unwrap();
    let mut bad = meshes(&w2, Merge::Greedy);
    assert!(coverage_errors(&w2, &bad).is_empty());
    let quads = &mut bad[0].1.quads;
    // +y faces: axis 1, so u = z and v = x. A's top covers z in [2, 3), B's z in [3, 4).
    let a = quads.iter().position(|q| q.face == 3 && q.material == mats[0]).unwrap();
    quads[a].u1 = 4;
    quads.retain(|q| !(q.face == 3 && q.material == mats[1]));
    let errors = coverage_errors(&w2, &bad);
    assert!(errors.iter().any(|e| e.contains("material")), "cross-material merge: {errors:?}");
}

/// Dispatches and completes everything in dispatch order, then publishes.
fn run_to_idle(p: &mut Pipeline, w: &World) {
    loop {
        let jobs = p.dispatch(w);
        if jobs.is_empty() {
            break;
        }
        for j in jobs {
            p.complete(w, j.run());
        }
    }
    p.try_publish(w);
    assert!(p.is_idle(), "pipeline did not drain");
}

#[test]
fn pipeline_publishes_meshes_equal_to_direct_extraction_in_both_modes() {
    let w = random_world(21);
    for merge in MERGES {
        let mut p = Pipeline::new(Config { merge, ..Config::default() });
        p.mark_all(&w);
        run_to_idle(&mut p, &w);
        let snap = p.current();
        let want = meshes(&w, merge);
        assert_eq!(snap.len(), want.len());
        for (k, m) in &want {
            assert_eq!(p.resolve(snap.handle(*k).unwrap()), Some(m), "{k:?} merge {}", merge.name());
        }
    }
}

/// World triangles in half-voxel units (x2), with each triangle's quad.
fn world_triangles(m: &Meshes, split: Split) -> Vec<([[i64; 3]; 3], Quad)> {
    let mut out = Vec::new();
    for (k, mesh) in m {
        let o = k.origin();
        let o2 = [2 * o.x as i64, 2 * o.y as i64, 2 * o.z as i64];
        let t = mesh.triangulate(split);
        assert_eq!(t.indices.len(), t.quad.len());
        for (tri, &qi) in t.indices.iter().zip(&t.quad) {
            let p = tri.map(|i| {
                let v = t.vertices[i as usize];
                [o2[0] + v[0] as i64, o2[1] + v[1] as i64, o2[2] + v[2] as i64]
            });
            out.push((p, mesh.quads[qi as usize]));
        }
    }
    out
}

fn cross(a: [i64; 3], b: [i64; 3], c: [i64; 3]) -> [i64; 3] {
    let (u, v) = ([b[0] - a[0], b[1] - a[1], b[2] - a[2]], [c[0] - a[0], c[1] - a[1], c[2] - a[2]]);
    [u[1] * v[2] - u[2] * v[1], u[2] * v[0] - u[0] * v[2], u[0] * v[1] - u[1] * v[0]]
}

/// Every directed edge is matched by as many reversed ones, and every triangle faces out.
fn watertight_errors(tris: &[([[i64; 3]; 3], Quad)]) -> Vec<String> {
    let mut errors = Vec::new();
    let mut edges: HashMap<([i64; 3], [i64; 3]), i64> = HashMap::new();
    for (p, q) in tris {
        let n = cross(p[0], p[1], p[2]);
        let along = n[q.axis()] * if q.positive() { 1 } else { -1 };
        let off_axis = (0..3).any(|a| a != q.axis() && n[a] != 0);
        if along <= 0 || off_axis {
            errors.push(format!("triangle {p:?} of {q:?}: normal {n:?}"));
        }
        for i in 0..3 {
            *edges.entry((p[i], p[(i + 1) % 3])).or_default() += 1;
        }
    }
    for (&(a, b), &n) in &edges {
        if edges.get(&(b, a)).copied().unwrap_or(0) != n {
            errors.push(format!("edge {a:?} to {b:?}, {n} times, has no matching reverse"));
        }
    }
    errors
}

/// Twice the triangle area in half-voxel units is 8 per unit face.
fn area_errors(m: &Meshes, split: Split) -> Vec<String> {
    let mut errors = Vec::new();
    for (k, mesh) in m {
        let t = mesh.triangulate(split);
        let mut per_quad = vec![0i64; mesh.quads.len()];
        for (tri, &qi) in t.indices.iter().zip(&t.quad) {
            let p = tri.map(|i| t.vertices[i as usize].map(|c| c as i64));
            let n = cross(p[0], p[1], p[2]);
            per_quad[qi as usize] += n.iter().map(|c| c.abs()).sum::<i64>();
        }
        for (q, got) in mesh.quads.iter().zip(per_quad) {
            if got != 8 * q.area() as i64 {
                errors.push(format!("{k:?} {q:?}: triangle area {got}, want {}", 8 * q.area()));
            }
        }
    }
    errors
}

#[test]
fn watertight_triangulation_shares_every_edge() {
    let mut worlds = vec![("street".to_string(), street())];
    for seed in [1u64, 2, 3, 4] {
        worlds.push((format!("random seed {seed}"), random_world(seed)));
    }
    for (name, w) in &worlds {
        for merge in MERGES {
            let m = meshes(w, merge);
            let tris = world_triangles(&m, Split::Watertight);
            let errors = watertight_errors(&tris);
            assert!(errors.is_empty(), "{name}, merge {}: {} problems, first: {:?}", merge.name(), errors.len(), &errors[..errors.len().min(5)]);
            let errors = area_errors(&m, Split::Watertight);
            assert!(errors.is_empty(), "{name}, merge {}: {:?}", merge.name(), &errors[..errors.len().min(5)]);
        }
        // Unmerged quads have unit edges, so splitting changes nothing.
        let none = meshes(w, Merge::Unmerged);
        for (_, mesh) in &none {
            assert_eq!(mesh.triangulate(Split::Watertight), mesh.triangulate(Split::CornersOnly), "{name}");
        }
    }
}

#[test]
fn negative_control_unsplit_greedy_has_t_junctions() {
    // The count must show the T-junctions of unsplit quads, and pass unmerged quads.
    let w = street();
    let greedy = meshes(&w, Merge::Greedy);
    let errors = watertight_errors(&world_triangles(&greedy, Split::CornersOnly));
    assert!(!errors.is_empty(), "unsplit greedy quads must show T-junctions");
    assert!(area_errors(&greedy, Split::CornersOnly).is_empty(), "the area check is independent of splitting");
    assert!(watertight_errors(&world_triangles(&meshes(&w, Merge::Unmerged), Split::CornersOnly)).is_empty());
    // A planted flipped triangle and a dropped triangle are reported.
    let mut tris = world_triangles(&greedy, Split::Watertight);
    tris[0].0.swap(1, 2);
    assert!(!watertight_errors(&tris).is_empty(), "flipped triangle");
    let mut tris = world_triangles(&greedy, Split::Watertight);
    tris.remove(0);
    assert!(!watertight_errors(&tris).is_empty(), "dropped triangle");
}

#[test]
fn outermost_bricks_have_unit_faces() {
    // The last brick ends with the last coordinate, the first one starts with the first.
    let (first, last) = (-0x1000_0000, 0x0FFF_FFFF);
    let quad = |face, plane| Quad { material: mat(0), face, plane, u0: 6, v0: 7, u1: 8, v1: 8 };
    let faces = quad(1, 8).unit_faces(BrickKey { x: last, y: last, z: first });
    let at: Vec<VoxelCoord> = faces.iter().map(|(v, _)| *v).collect();
    assert_eq!(at, [VoxelCoord::new(i32::MAX, i32::MAX - 1, i32::MIN + 7), VoxelCoord::new(i32::MAX, i32::MAX, i32::MIN + 7)]);
    assert!(faces.iter().all(|(_, f)| f.axis == 0 && f.positive));
    let faces = quad(4, 0).unit_faces(BrickKey { x: last, y: first, z: first });
    let at: Vec<VoxelCoord> = faces.iter().map(|(v, _)| *v).collect();
    assert_eq!(at, [VoxelCoord::new(i32::MAX - 1, i32::MIN + 7, i32::MIN), VoxelCoord::new(i32::MAX, i32::MIN + 7, i32::MIN)]);
}
