//! Scene updates, acceleration structures, emitters, device selection and shader modules.
use voxel_engine::derived::mesh::{extract_world, BrickMesh, Merge};
use voxel_engine::derived::pipeline::{Config, Pipeline};
use voxel_engine::gpu::accel::{batch_builds, build_stats, instance, listed, structure_addresses, table_data, top_bytes, AccelFaults, RegionRef, SCRATCH_BATCH_BYTES};
use voxel_engine::gpu::context::{extensions, heap_usage, select, Candidate, Extension, Family, Heap, Rejection, Validation, Wanted};
use voxel_engine::gpu::emitters::{buffer_bytes, changed, row_bytes, EmitterRow, EmitterSet, GpuEmitter};
use voxel_engine::gpu::layout::{build_regions, RegionKey, RegionMesh, RegionSize, Sections};
use voxel_engine::gpu::mesh::{next_power, section_align, GpuRegion};
use voxel_engine::gpu::regions::{places, present, put_regions, take_regions, RegionSet};
use voxel_engine::gpu::scene::{affected_regions, region_bricks, region_meshes, Scene, SceneFaults};
use voxel_engine::gpu::spirv::{capabilities, extra, module_words, SpirvError};
use voxel_engine::sorted::SortedMap;
use voxel_engine::world::{BrickKey, MaterialId, VoxelCoord, World};

fn v(x: i32, y: i32, z: i32) -> VoxelCoord {
    VoxelCoord::new(x, y, z)
}

fn key(x: i32, y: i32, z: i32) -> RegionKey {
    RegionKey { x, y, z }
}

fn set(keys: &[RegionKey]) -> RegionSet {
    let mut s: RegionSet = SortedMap::new();
    for k in keys {
        s.insert(*k, ());
    }
    s
}

fn keys(s: &RegionSet) -> Vec<RegionKey> {
    (0..s.len()).map(|i| s.key_at(i)).collect()
}

fn drain(p: &mut Pipeline, w: &World) -> Vec<BrickKey> {
    loop {
        let jobs = p.dispatch(w);
        if jobs.is_empty() {
            break;
        }
        for j in jobs {
            p.complete(w, j.run());
        }
    }
    let published = p.try_publish(w);
    assert!(p.is_idle());
    published.map(|x| x.groups.into_iter().flatten().collect()).unwrap_or_default()
}

/// Lamps on a floor, across several regions.
fn night() -> World {
    let mut w = World::new();
    w.fill_box(v(-20, 0, -20), v(40, 1, 40), Some(MaterialId { id: 0 })).unwrap();
    for (x, z) in [(-10, -10), (5, 9), (20, 20), (33, -3)] {
        w.fill_box(v(x, 1, z), v(x + 1, 6, z + 1), Some(MaterialId { id: 0 })).unwrap();
        w.fill_box(v(x - 1, 6, z - 1), v(x + 2, 7, z + 2), Some(MaterialId { id: 1 })).unwrap();
    }
    w
}

/// Only material 1 emits; material 2 is not known.
fn emitting() -> Vec<Option<u16>> {
    vec![None, Some(1)]
}

fn meshes(w: &World) -> Vec<(BrickKey, BrickMesh)> {
    w.brick_keys().into_iter().map(|k| (k, extract_world(w, k, Merge::Greedy).unwrap())).collect()
}

fn grouped(w: &World, size: RegionSize) -> SortedMap<RegionKey, RegionMesh> {
    let m = meshes(w);
    build_regions(&m.iter().map(|(k, m)| (*k, m)).collect(), size)
}

#[test]
fn affected_regions_hold_the_bricks_and_list_their_own() {
    let ks = [v(0, 0, 0).split().0, v(31, 0, 0).split().0, v(-1, 0, 0).split().0];
    assert_eq!(keys(&affected_regions(&ks, RegionSize::Chunk)), [key(-1, 0, 0), key(0, 0, 0)]);
    let b = region_bricks(key(-1, 0, 0), RegionSize::Bricks2);
    assert_eq!(b.len(), 8);
    assert!(b.iter().all(|&k| RegionKey::of(k, RegionSize::Bricks2) == key(-1, 0, 0)));
}

#[test]
fn region_meshes_are_those_of_a_fresh_build() {
    let size = RegionSize::Chunk;
    let mut w = night();
    let mut p = Pipeline::new(Config::default());
    p.mark_all(&w);
    drain(&mut p, &w);
    w.set(v(5, 6, 9), None).unwrap();
    p.notify_edits(&[v(5, 6, 9)]);
    let regions = affected_regions(&drain(&mut p, &w), size);
    assert!(regions.len() > 0);
    let token = p.acquire();
    let got = region_meshes(&p, &token, &regions, size).unwrap();
    p.release(token).unwrap();
    let want = grouped(&w, size);
    for i in 0..got.len() {
        assert_eq!(got.val_at(i).as_ref(), want.get(&got.key_at(i)), "{:?}", got.key_at(i));
    }
}

#[test]
fn a_scene_shows_the_old_snapshot_until_an_update_is_whole() {
    let mut shown: SortedMap<RegionKey, u32> = SortedMap::new();
    shown.insert(key(0, 0, 0), 1);
    shown.insert(key(1, 0, 0), 2);
    shown.insert(key(2, 0, 0), 3);
    let mut s = Scene::build(shown, 7);
    let mut change: SortedMap<RegionKey, Option<RegionMesh>> = SortedMap::new();
    let mesh = || RegionMesh { key: key(0, 0, 0), size: RegionSize::Brick, quads: vec![], vertices: vec![], indices: vec![], tri_quad: vec![] };
    change.insert(key(1, 0, 0), None);
    change.insert(key(2, 0, 0), Some(mesh()));
    change.insert(key(9, 0, 0), Some(mesh()));
    let plan = s.plan(change);
    assert_eq!((plan.regions_changed, plan.regions_uploaded, plan.regions_removed), (3, 2, 1));
    let fresh: Vec<(RegionKey, u32)> = plan.fresh.iter().map(|(k, _)| (*k, 40)).collect();
    let replaced = s.stage(&plan.keys, fresh.clone());
    assert_eq!(replaced, [(key(1, 0, 0), 2), (key(2, 0, 0), 3)]);
    let back = s.roll_back(&plan.keys, replaced);
    assert_eq!(back, fresh);
    assert_eq!((s.snapshot(), s.updates(), s.deferred()), (7, 0, 1));
    assert_eq!(s.region_rows(), [(key(0, 0, 0), 7), (key(1, 0, 0), 7), (key(2, 0, 0), 7)]);
    s.stage(&plan.keys, fresh);
    s.commit(&plan.keys, 8);
    assert_eq!((s.snapshot(), s.updates(), s.deferred()), (8, 1, 1));
    assert_eq!(s.region_rows(), [(key(0, 0, 0), 7), (key(2, 0, 0), 8), (key(9, 0, 0), 8)]);
    s.refuse();
    assert_eq!(s.deferred(), 2);
    s.plant(SceneFaults { skip_region: Some(key(0, 0, 0)), ..SceneFaults::default() });
    let mut change: SortedMap<RegionKey, Option<RegionMesh>> = SortedMap::new();
    change.insert(key(0, 0, 0), None);
    assert_eq!(s.plan(change).regions_changed, 0, "the planted fault misses a region");
}

#[test]
fn regions_are_taken_and_put_back() {
    let mut m: SortedMap<RegionKey, u32> = SortedMap::new();
    for x in 0..4 {
        m.insert(key(x, 0, 0), x as u32);
    }
    let s = set(&[key(1, 0, 0), key(3, 0, 0), key(8, 0, 0)]);
    assert_eq!(places(&m, &s), [1, 3]);
    assert_eq!(keys(&present(&s, &m)), [key(1, 0, 0), key(3, 0, 0)]);
    let t = take_regions(&mut m, &s);
    assert_eq!(m.len(), 2);
    put_regions(&mut m, t);
    assert_eq!((0..4).map(|i| *m.val_at(i)).collect::<Vec<_>>(), [0, 1, 2, 3]);
}

fn gpu_region(x: i32, address: u64, triangles: u64) -> GpuRegion {
    GpuRegion { key: key(x, 0, 0), sections: Sections::new(4, triangles, 1, 16), quad_count: 1, vertex_count: 4, triangle_count: triangles, address }
}

#[test]
fn instances_and_tables_name_their_region() {
    let r = gpu_region(2, 0x1000, 2);
    let row = RegionRef::of(&r);
    assert_eq!((row.quads, row.tri_quad), (0x1000 + r.sections.quads, 0x1000 + r.sections.tri_quad));
    let b = table_data(&[RegionRef::default(), row]);
    assert_eq!(b.len(), 48);
    assert_eq!(u64::from_le_bytes(b[24..32].try_into().unwrap()), row.quads);
    assert_eq!(u32::from_le_bytes(b[40..44].try_into().unwrap()), 1);
    assert_eq!(u32::from_le_bytes(b[44..48].try_into().unwrap()), 2);
    let i = instance(1, 3, key(2, -1, 0), RegionSize::Chunk, &AccelFaults::default(), 99);
    assert_eq!((i.translation, i.custom_index, i.mask, i.flags, i.structure), ([64, -32, 0], 1, 255, 0, 99));
    let bad = AccelFaults { offset_error: [1, 0, 0], flip_facing: true, custom_index_shift: 2, ..AccelFaults::default() };
    let i = instance(1, 3, key(2, -1, 0), RegionSize::Chunk, &bad, 99);
    assert_eq!((i.translation, i.custom_index, i.flags), ([65, -32, 0], 0, 2));
    assert_eq!(listed(3, &AccelFaults::default()), [0, 1, 2]);
    assert_eq!(listed(3, &AccelFaults { skip_region: Some(1), ..AccelFaults::default() }), [0, 2]);
    assert_eq!(top_bytes(0), (64, 24));
    assert_eq!(top_bytes(3), (192, 72));
}

#[test]
fn builds_share_batches_within_the_limit() {
    let half = SCRATCH_BATCH_BYTES / 2;
    let b = batch_builds(&[half, half, 100, 2 * SCRATCH_BATCH_BYTES, 10], 256, 1000);
    assert_eq!(b.batches, vec![vec![(0, 0), (1, half)], vec![(2, 0)], vec![(3, 0)], vec![(4, 0)]]);
    assert_eq!(b.scratch_bytes, 2 * SCRATCH_BATCH_BYTES + 256);
    // Sizes near the end of the number range stay exact.
    let huge = batch_builds(&[1 << 62, 1 << 62], 256, u64::MAX - 511);
    assert_eq!((huge.batches, huge.scratch_bytes), (vec![vec![(0, 0)], vec![(1, 0)]], u64::MAX - 255));
    let rs = [gpu_region(0, 0, 2), gpu_region(1, 0, 5)];
    let s = build_stats(&rs, &vec![1], &[4096], 512, &[10, 20], 2, &b);
    assert_eq!((s.blas_count, s.triangles, s.blas_bytes, s.tlas_bytes), (1, 5, 4096, 512));
    assert_eq!((s.instance_bytes, s.table_bytes, s.accel_buffer_bytes, s.instances, s.blas_batches), (128, 48, 30, 2, 4));
}

#[test]
fn kept_structures_keep_their_address() {
    let mut m: SortedMap<RegionKey, u32> = SortedMap::new();
    for x in 0..3 {
        m.insert(key(x, 0, 0), 0);
    }
    let mut keep: SortedMap<RegionKey, u64> = SortedMap::new();
    keep.insert(key(0, 0, 0), 100);
    keep.insert(key(2, 0, 0), 102);
    assert_eq!(structure_addresses(&m, &set(&[key(1, 0, 0)]), &[7], &keep), [100, 7, 102]);
}

#[test]
fn section_alignment_is_a_power_of_two() {
    assert_eq!([1, 2, 3, 16, 17, 255].map(next_power), [1, 2, 4, 16, 32, 256]);
    assert_eq!(section_align(1), 16);
    assert_eq!(section_align(64), 64);
}

#[test]
fn emitter_sets_follow_edits_like_fresh_builds() {
    let size = RegionSize::Chunk;
    let mut w = night();
    let regions = grouped(&w, size);
    let first = EmitterSet::of_regions(emitting(), &regions, 7);
    assert_eq!(first.len(), first.all().len());
    assert!(first.len() > 0 && !first.is_empty());
    assert!(first.all().iter().all(|q| q.material == 1 && q.id.snapshot == 7));
    // Every region size finds the same unit area.
    let area = |s: &EmitterSet| s.all().iter().map(|q| (q.u1 - q.u0) as u32 * (q.v1 - q.v0) as u32).sum::<u32>();
    for other in [RegionSize::Brick, RegionSize::Bricks2, RegionSize::Chunks2] {
        assert_eq!(area(&EmitterSet::of_regions(emitting(), &grouped(&w, other), 7)), area(&first));
    }
    // Take a lamp away: only its regions are built again.
    w.fill_box(v(4, 6, 8), v(7, 7, 11), None).unwrap();
    let now = grouped(&w, size);
    let lamp = [key(0, 0, 0)];
    let changes: Vec<(RegionKey, Option<RegionMesh>)> = lamp
        .iter()
        .map(|k| {
            let one = grouped(&w, size);
            let mut t = one;
            (*k, t.remove(k))
        })
        .collect();
    let next = first.updated(&changes, 8);
    let fresh = EmitterSet::of_regions(emitting(), &now, 8);
    let content = |s: &EmitterSet| s.all().iter().map(|q| (q.id.key, q.id.quad, q.material, q.face, q.plane, q.u0, q.v0, q.u1, q.v1)).collect::<Vec<_>>();
    assert_eq!(content(&next), content(&fresh), "incremental and fresh sets differ");
    assert_ne!(content(&next), content(&first));
    for q in next.all() {
        assert_eq!(q.id.snapshot, if lamp.contains(&q.id.key) { 8 } else { 7 });
    }
    assert_eq!(content(&first.copy()), content(&first));
    let none = EmitterSet::new(vec![None, None]);
    assert!(none.is_empty());
}

fn row(region: i32, u0: u64, radiance: u64) -> EmitterRow {
    EmitterRow { region: key(region, 0, 0), face: 3, p0: [0, 0, u0], eu: [0, 0, 1], ev: [1, 0, 0], radiance: [2 * radiance, radiance, 1] }
}

/// The emitters in only one of two tables, within the rebuilt regions, as a multiset: moved, removed
/// and recoloured quads count; an unchanged region does not.
#[test]
fn changed_lists_what_differs() {
    let (hot, warm) = (5, 1);
    let old = [row(0, 0, hot), row(0, 2, hot), row(0, 4, hot), row(0, 6, hot), row(1, 40, hot)];
    // Region 0: the first kept, the second moved, the third removed, the fourth recoloured. Region 1
    // moved too, but it is not in the rebuilt set.
    let new = [row(0, 0, hot), row(0, 3, hot), row(0, 6, warm), row(1, 41, hot)];
    let (a, b) = changed(&old, &new, &set(&[key(0, 0, 0)]));
    let mut got: Vec<(u64, u64)> = a.iter().map(|&i| (old[i].p0[2], old[i].radiance[1])).collect();
    got.extend(b.iter().map(|&i| (new[i].p0[2], new[i].radiance[1])));
    assert_eq!(got, [(2, hot), (4, hot), (6, hot), (3, hot), (6, warm)]);
    let all = set(&[key(0, 0, 0), key(1, 0, 0)]);
    let (a, b) = changed(&old, &new, &all);
    assert_eq!(a.len() + b.len(), 7);
    let (a, b) = changed(&old, &old, &all);
    assert!(a.is_empty() && b.is_empty());
    // Copies count one by one.
    let twice = [row(0, 0, hot), row(0, 0, hot), row(0, 0, hot)];
    assert_eq!(changed(&twice, &twice[..1], &all), (vec![1, 2], vec![]));
}

#[test]
fn emitter_rows_are_eighty_bytes() {
    let e = GpuEmitter { p0_area: [1, 2, 3, 4], eu_pdf: [5, 6, 7, 8], ev: [9, 10, 11, 12], radiance: [13, 14, 15, 16], meta: [17, 18, 19, 20] };
    let b = GpuEmitter::bytes(&[e, e]);
    let words: Vec<u32> = b.chunks(4).map(|c| u32::from_le_bytes(c.try_into().unwrap())).collect();
    assert_eq!(words, (1..=20).chain(1..=20).collect::<Vec<u32>>());
    assert_eq!(row_bytes(&[[1, 0, 0, 0x0102_0304]])[12..], [4, 3, 2, 1]);
    assert_eq!(buffer_bytes(0, 0), (80, 16));
    assert_eq!(buffer_bytes(3, 2), (240, 32));
}

fn candidate(ray: bool, discrete: bool) -> Candidate {
    Candidate {
        api_version: 4206592,
        discrete,
        acceleration_structure: ray,
        ray_query: ray,
        deferred_host_operations: ray,
        swapchain: true,
        memory_budget: true,
        present_id: true,
        present_wait: true,
        geometry_shader: true,
        dynamic_rendering: true,
        present_id_feature: true,
        present_wait_feature: true,
        families: vec![Family { flags: 1, timestamp_valid_bits: 64, presents: true }, Family { flags: 3, timestamp_valid_bits: 36, presents: true }],
    }
}

#[test]
fn the_best_device_is_selected() {
    let window = Wanted { window: true, allow_no_ray_tracing: true };
    let c = select(&[candidate(false, true), candidate(true, false), candidate(true, true), candidate(true, true)], window).unwrap();
    assert_eq!((c.device, c.queue_family, c.ray_tracing, c.present_wait), (2, 1, true, true));
    assert_eq!(
        extensions(c, window),
        [
            Extension::AccelerationStructure,
            Extension::RayQuery,
            Extension::DeferredHostOperations,
            Extension::MemoryBudget,
            Extension::Swapchain,
            Extension::PresentId,
            Extension::PresentWait
        ]
    );
    let strict = Wanted { window: true, allow_no_ray_tracing: false };
    let old = Candidate { api_version: 4202496, ..candidate(true, true) };
    let flat = Candidate { geometry_shader: false, ..candidate(true, true) };
    let headless = Candidate { swapchain: false, ..candidate(true, true) };
    let mute = Candidate { families: vec![Family { flags: 3, timestamp_valid_bits: 0, presents: true }], ..candidate(true, true) };
    assert_eq!(
        select(&[candidate(false, true), old, flat, headless, mute], strict),
        Err(vec![(0, Rejection::RayTracing), (1, Rejection::RayTracing), (2, Rejection::Raster), (3, Rejection::Swapchain), (4, Rejection::Queue)])
    );
}

#[test]
fn only_device_local_heaps_count() {
    let h = |flags, usage, budget| Heap { flags, usage, budget };
    assert_eq!(heap_usage(&[h(1, 10, 100), h(0, 20, 200), h(3, 5, 50)]), (15, 150));
}

#[test]
fn validation_keeps_the_first_errors() {
    let mut val = Validation::default();
    for i in 0..10 {
        val.note(true, format!("e{i}"));
    }
    val.note(false, "w".to_string());
    assert_eq!((val.errors, val.warnings, val.first_errors.len()), (10, 1, 8));
    assert_eq!(val.first_errors[7], "e7");
}

fn module(instructions: &[u32]) -> Vec<u8> {
    [0x0723_0203u32, 0x0001_0500, 0, 9, 0].iter().chain(instructions).flat_map(|w| w.to_le_bytes()).collect()
}

#[test]
fn capabilities_are_found_and_held_to_the_device() {
    let m = module(&[(2 << 16) | 17, 1, (2 << 16) | 17, 22, (3 << 16) | 14, 0, 1, (2 << 16) | 17, 4472]);
    assert_eq!(capabilities(&m), Ok(vec![1, 22, 4472]));
    assert_eq!(extra(&[1, 22, 4472, 5347, 2]), [22]);
    assert_eq!(capabilities(&[1, 2, 3, 4]), Err(SpirvError::Magic));
    assert_eq!(capabilities(&[]), Err(SpirvError::Magic));
    assert_eq!(capabilities(&module(&[14])), Err(SpirvError::Malformed(5)));
    assert_eq!(capabilities(&module(&[(1 << 16) | 17])), Err(SpirvError::Truncated(5)));
    assert_eq!(module_words(&m).unwrap().len(), 14);
    assert_eq!(module_words(&m[..7]), None);
}
