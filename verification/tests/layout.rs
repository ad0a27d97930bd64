//! Region grouping and the packed device formats.
use voxel_engine::derived::mesh::{extract_world, BrickMesh, Merge};
use voxel_engine::gpu::layout::{
    build_regions, f16_of_halves, f16_of_int, RegionKey, RegionMesh, RegionQuad, RegionSize, Sections, F16_ONE, FACE_SHIFT, MATERIAL_SHIFT,
    PLANE_SHIFT, U0_SHIFT, U1_SHIFT, V0_SHIFT, V1_SHIFT,
};
use voxel_engine::sorted::SortedMap;
use voxel_engine::world::{BrickKey, MaterialId, VoxelCoord, World};

const SIZES: [RegionSize; 4] = [RegionSize::Brick, RegionSize::Bricks2, RegionSize::Chunk, RegionSize::Chunks2];

fn values(m: &SortedMap<RegionKey, RegionMesh>) -> Vec<&RegionMesh> {
    (0..m.len()).map(|i| m.val_at(i)).collect()
}

fn refs(m: &[(BrickKey, BrickMesh)]) -> Vec<(BrickKey, &BrickMesh)> {
    m.iter().map(|(k, m)| (*k, m)).collect()
}

/// A small street across chunk boundaries.
fn street() -> World {
    let mut w = World::new();
    let v = VoxelCoord::new;
    let mat = |id| Some(MaterialId { id });
    w.fill_box(v(-20, -1, -6), v(44, 0, 40), mat(0)).unwrap();
    w.fill_box(v(-20, 0, 10), v(44, 1, 13), mat(1)).unwrap();
    for (x, z, h) in [(-12, 0, 14), (14, 0, 22), (28, 0, 9), (0, 32, 11)] {
        w.fill_box(v(x, 0, z), v(x + 9, h, z + 7), mat(2)).unwrap();
        for y in (2..h - 2).step_by(4) {
            w.fill_box(v(x + 2, y, z), v(x + 4, y + 2, z + 1), mat(3)).unwrap();
        }
    }
    w
}

#[test]
fn f16_integers_are_exact() {
    // Reference values: 1.0 = 0x3C00, 2.0 = 0x4000, 3.0 = 0x4200, 64.0 = 0x5400, 1024 = 0x6400.
    assert_eq!([0, 1, 2, 3, 64, 1024].map(f16_of_int), [0, 0x3C00, 0x4000, 0x4200, 0x5400, 0x6400]);
    assert_eq!(f16_of_int(1), F16_ONE);
    // Halves: 0.5 = 0x3800, 1.5 = 0x3E00, 64.5 = 0x5408; integers agree with f16_of_int.
    assert_eq!([1, 3, 129].map(f16_of_halves), [0x3800, 0x3E00, 0x5408]);
    for n in 0..1024 {
        assert_eq!(f16_of_halves(2 * n), f16_of_int(n));
    }
    // Round-trip every value a region can hold through an independent decoder.
    for n in 0..=64u32 {
        let h = f16_of_int(n) as u32;
        let (e, m) = ((h >> 10) & 0x1F, h & 0x3FF);
        let v = if e == 0 { m as f64 / 1024.0 * 2f64.powi(-14) } else { (1.0 + m as f64 / 1024.0) * 2f64.powi(e as i32 - 15) };
        assert_eq!(v, n as f64);
    }
}

#[test]
fn pack_round_trips_and_fields_do_not_overlap() {
    let q = RegionQuad { material: 0xFFFF, face: 5, plane: 64, u0: 63, v0: 1, u1: 64, v1: 64 };
    assert_eq!(RegionQuad::unpack(q.pack()), q);
    let widths = [(MATERIAL_SHIFT, 16), (FACE_SHIFT, 3), (PLANE_SHIFT, 7), (U0_SHIFT, 7), (V0_SHIFT, 7), (U1_SHIFT, 7), (V1_SHIFT, 7)];
    let mut used = 0u64;
    for (s, n) in widths {
        let m = ((1u64 << n) - 1) << s;
        assert_eq!(used & m, 0, "field at {s} overlaps");
        used |= m;
    }
    assert_eq!(used, (1u64 << 54) - 1, "contiguous 54 bits");
}

#[test]
fn regions_preserve_every_quad_in_world_position() {
    let w = street();
    let meshes: Vec<_> = w.brick_keys().into_iter().map(|k| (k, extract_world(&w, k, Merge::Greedy).unwrap())).collect();
    let total: usize = meshes.iter().map(|(_, m)| m.quads.len()).sum();
    for size in SIZES {
        let regions = build_regions(&refs(&meshes), size);
        assert_eq!(values(&regions).iter().map(|r| r.quads.len()).sum::<usize>(), total, "{size:?}");
        // World-space corners agree with the brick-local ones.
        let mut from_regions: Vec<[i32; 3]> = Vec::new();
        for r in values(&regions) {
            let o = r.key.origin(size);
            for q in &r.quads {
                assert!([q.plane, q.u0, q.v0, q.u1, q.v1].iter().all(|&x| x as i32 <= size.voxels()));
                for c in q.corners() {
                    from_regions.push([o.x + c[0] as i32, o.y + c[1] as i32, o.z + c[2] as i32]);
                }
            }
        }
        let mut from_bricks: Vec<[i32; 3]> = Vec::new();
        for (k, m) in &meshes {
            let o = k.origin();
            for q in &m.quads {
                for c in q.corners() {
                    from_bricks.push([o.x + c[0] as i32, o.y + c[1] as i32, o.z + c[2] as i32]);
                }
            }
        }
        from_regions.sort();
        from_bricks.sort();
        assert_eq!(from_regions, from_bricks, "{size:?}");
        // Every triangle lies on its quad's rectangle, region-local (half-voxel units).
        for r in values(&regions) {
            assert_eq!(r.indices.len(), r.tri_quad.len());
            for (tri, &qi) in r.indices.iter().zip(&r.tri_quad) {
                let q = r.quads[qi as usize];
                let a = (q.face / 2) as usize;
                let (ua, va) = ((a + 1) % 3, (a + 2) % 3);
                for &i in tri {
                    let p = r.vertices[i as usize];
                    assert_eq!(p[a], 2 * q.plane, "{size:?}");
                    assert!((2 * q.u0..=2 * q.u1).contains(&p[ua]) && (2 * q.v0..=2 * q.v1).contains(&p[va]), "{size:?}: {p:?} outside {q:?}");
                }
            }
        }
    }
}

#[test]
fn negative_coordinates_group_into_the_right_region() {
    let mut w = World::new();
    w.set(VoxelCoord::new(-1, -1, -1), Some(MaterialId { id: 0 })).unwrap();
    let (k, _) = VoxelCoord::new(-1, -1, -1).split();
    for size in SIZES {
        let rk = RegionKey::of(k, size);
        assert_eq!((rk.x, rk.y, rk.z), (-1, -1, -1));
        let mesh = extract_world(&w, k, Merge::Greedy).unwrap();
        let regions = build_regions(&vec![(k, &mesh)], size);
        let q = regions.get(&rk).unwrap().quads[0];
        // The voxel at -1 is the last voxel of its region.
        let top = size.voxels() as u8;
        assert!(q.plane == top || q.plane == top - 1, "{size:?}: {q:?}");
    }
}

#[test]
fn image_sections_are_aligned_and_hold_the_triangulation() {
    // One 2x1 slab on the ground: its greedy top quad has a split point on its boundary edges.
    let mut w = World::new();
    w.fill_box(VoxelCoord::new(0, 0, 0), VoxelCoord::new(2, 1, 1), Some(MaterialId { id: 0 })).unwrap();
    let (k, _) = VoxelCoord::new(0, 0, 0).split();
    let mesh = extract_world(&w, k, Merge::Greedy).unwrap();
    let rs = build_regions(&vec![(k, &mesh)], RegionSize::Chunk);
    let r = rs.val_at(0);
    assert!(r.triangle_count() > 2 * r.quad_count(), "split quads are fans");
    let (s, b) = r.image(64);
    assert!([s.indices, s.tri_quad, s.quads, s.total].iter().all(|x| x % 64 == 0));
    assert_eq!(b.len() as u64, s.total);
    let u32_at = |o: u64| u32::from_le_bytes(b[o as usize..][..4].try_into().unwrap());
    for (i, tri) in r.indices.iter().enumerate() {
        for (k, &idx) in tri.iter().enumerate() {
            assert_eq!(u32_at(s.indices + 4 * (3 * i as u64 + k as u64)), idx);
        }
        assert_eq!(u32_at(s.tri_quad + 4 * i as u64), r.tri_quad[i]);
    }
    assert_eq!(u64::from_le_bytes(b[s.quads as usize..][..8].try_into().unwrap()), r.quads[0].pack());
    // Unmerged: two triangles per quad, tri_quad = p / 2.
    let none = extract_world(&w, k, Merge::Unmerged).unwrap();
    let rs = build_regions(&vec![(k, &none)], RegionSize::Chunk);
    let r = rs.val_at(0);
    assert!(r.tri_quad.iter().enumerate().all(|(p, &q)| q as usize == p / 2));
}

#[test]
fn vertices_are_halves_in_the_image() {
    let mut w = World::new();
    w.set(VoxelCoord::new(1, 2, 3), Some(MaterialId { id: 7 })).unwrap();
    let (k, _) = VoxelCoord::new(1, 2, 3).split();
    let mesh = extract_world(&w, k, Merge::Greedy).unwrap();
    let rs = build_regions(&vec![(k, &mesh)], RegionSize::Brick);
    let r = rs.val_at(0);
    let (s, b) = r.image(16);
    assert_eq!(s, Sections::new(r.vertex_count(), r.triangle_count(), r.quad_count(), 16));
    for (i, v) in r.vertices.iter().enumerate() {
        let at = 8 * i;
        let half = |k: usize| u16::from_le_bytes([b[at + 2 * k], b[at + 2 * k + 1]]);
        for (k, x) in v.iter().enumerate() {
            assert_eq!(half(k), f16_of_halves(*x as u32));
        }
        assert_eq!(half(3), F16_ONE);
    }
}

#[test]
fn region_sizes_have_names_and_edges() {
    assert_eq!(SIZES.map(|s| s.name()), ["brick", "2x2x2_bricks", "chunk", "2x2x2_chunks"]);
    assert_eq!(SIZES.map(|s| s.bricks()), [1, 2, 4, 8]);
    assert_eq!(SIZES.map(|s| s.voxels()), [8, 16, 32, 64]);
}

#[test]
fn regions_do_not_depend_on_the_order_of_the_bricks() {
    let w = street();
    let mut meshes: Vec<_> = w.brick_keys().into_iter().map(|k| (k, extract_world(&w, k, Merge::Greedy).unwrap())).collect();
    assert!(meshes.len() > 2);
    for size in SIZES {
        let want = build_regions(&refs(&meshes), size);
        meshes.reverse();
        let reversed = build_regions(&refs(&meshes), size);
        assert_eq!(values(&reversed), values(&want), "{size:?}");
        meshes.rotate_left(1);
        let rotated = build_regions(&refs(&meshes), size);
        assert_eq!(values(&rotated), values(&want), "{size:?}");
    }
}
