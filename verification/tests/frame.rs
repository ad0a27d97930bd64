//! What one frame's passes are told, and what comes back.
use voxel_engine::gpu::compose::{self, ComposeFaults};
use voxel_engine::gpu::debug_view::{region_bytes, selector, source_word, table_bytes, Source, ViewKind, EMISSION_BIT};
use voxel_engine::gpu::decode::{self, groups, plan_outputs, read_outputs, TRI_OK};
use voxel_engine::gpu::denoise::{self, DenoiseFaults, DenoiseSettings};
use voxel_engine::gpu::equivalence::{
    agreement, compare, normal_bits, plane_of, reference_pixel, resolve, Disagreement, Measure, PairMeasure, Probe, RefPixel, Sample, Seen, Wrong,
};
use voxel_engine::gpu::exposure::{sample_pixels, sum_at, sum_bytes};
use voxel_engine::gpu::layout::{RegionKey, RegionMesh, RegionQuad, RegionSize, Sections};
use voxel_engine::gpu::mesh::GpuRegion;
use voxel_engine::gpu::raster::{binding_ranges, draws, read_frame, readback_sections, Faults, Frame, BACKGROUND_MATERIAL, BACKGROUND_WORD};
use voxel_engine::gpu::ray::{read_trace, target_bytes};
use voxel_engine::gpu::reference::{self, frame_flags, submissions, RefFaults, RefSettings};
use voxel_engine::gpu::shade::{self, samples, serves, ShadeFaults, ShadeSettings};
use voxel_engine::gpu::sky::{check_tables, TableSize};
use voxel_engine::gpu::sky_bake::{self, dispatches, replicas, THREADS};
use voxel_engine::gpu::temporal::{self, buffer_bytes, merge, read_guides, read_states, History, Reason, Relight, ResetCause, TemporalFaults};
use voxel_engine::sorted::SortedMap;
use voxel_engine::world::{Face, VoxelCoord};

#[test]
fn axis_normals_encode_to_exact_snorm_bits() {
    let f = |axis, positive| normal_bits(Face { axis, positive });
    assert_eq!(f(0, true), [32767, 0]);
    assert_eq!(f(0, false), [-32767, 0]);
    assert_eq!(f(1, true), [0, 32767]);
    assert_eq!(f(1, false), [0, -32767]);
    assert_eq!(f(2, true), [0, 0]);
    assert_eq!(f(2, false), [32767, 32767]);
    // All six are distinct.
    let mut all: Vec<_> = (0..3).flat_map(|a| [f(a, true), f(a, false)]).collect();
    all.sort();
    all.dedup();
    assert_eq!(all.len(), 6);
}

#[test]
fn resolve_picks_the_voxel_behind_the_face() {
    let q = RegionQuad { material: 3, face: 3, plane: 5, u0: 0, v0: 0, u1: 4, v1: 4 };
    let point: [f64; 3] = [17.5, 13.0, 2.25];
    let cell = point.map(|x| x.floor() as i32);
    // +y face at y = 5 (world 13 with origin y 8): the voxel is below the plane.
    let (v, f) = resolve(q, VoxelCoord::new(16, 8, 0), cell);
    assert_eq!((v, f), (VoxelCoord::new(17, 12, 2), Face { axis: 1, positive: true }));
    let q = RegionQuad { face: 2, ..q };
    let (v, _) = resolve(q, VoxelCoord::new(16, 8, 0), cell);
    assert_eq!(v, VoxelCoord::new(17, 13, 2));
}

const TOP: Face = Face { axis: 1, positive: true };

fn sample(x: i32) -> Sample {
    Sample { voxel: VoxelCoord::new(x, 4, 0), material: 3, face: TOP }
}

#[test]
fn reference_pixels_know_their_edges_and_planes() {
    let hit = |x| Probe::Hit(sample(x));
    let r = reference_pixel(hit(1), [hit(1); 4]);
    assert_eq!(r, RefPixel { centre: Some(sample(1)), near_edge: false, same_plane: true });
    let r = reference_pixel(hit(1), [hit(1), hit(2), hit(1), hit(1)]);
    assert!(r.near_edge && r.same_plane);
    let r = reference_pixel(hit(1), [hit(1), hit(1), Probe::Miss, hit(1)]);
    assert!(r.near_edge && !r.same_plane);
    let r = reference_pixel(Probe::Miss, [Probe::Miss; 4]);
    assert_eq!(r, RefPixel { centre: None, near_edge: false, same_plane: false });
    let r = reference_pixel(Probe::Inside, [Probe::Inside; 4]);
    assert_eq!(r, RefPixel { centre: None, near_edge: true, same_plane: false });
    assert_eq!(plane_of(VoxelCoord::new(1, 4, 0), TOP), (1, true, 5));
}

/// One region with a +y quad at plane 5 and, below it, one at plane 2.
fn regions() -> SortedMap<RegionKey, RegionMesh> {
    let q = RegionQuad { material: 3, face: 3, plane: 5, u0: 0, v0: 0, u1: 8, v1: 8 };
    let key = RegionKey { x: 0, y: 0, z: 0 };
    let m = RegionMesh {
        key,
        size: RegionSize::Brick,
        quads: vec![q, RegionQuad { plane: 2, ..q }],
        vertices: vec![],
        indices: vec![],
        tri_quad: vec![0, 0, 1, 9],
    };
    let mut r = SortedMap::new();
    r.insert(key, m);
    r
}

fn frame(pixels: &[([u32; 2], u16, [i16; 2])]) -> Frame {
    Frame {
        width: pixels.len() as u32,
        height: 1,
        depth: vec![0; pixels.len()],
        normal: pixels.iter().map(|p| p.2).collect(),
        material: pixels.iter().map(|p| p.1).collect(),
        surface: pixels.iter().map(|p| p.0).collect(),
    }
}

const NOTHING: ([u32; 2], u16, [i16; 2]) = ([BACKGROUND_WORD; 2], BACKGROUND_MATERIAL, [0, 0]);

#[test]
fn every_breach_is_counted_once() {
    let up = [0, 32767];
    let good = ([0, 1], 3, up);
    let hit = RefPixel { centre: Some(sample(1)), near_edge: false, same_plane: true };
    let edge = RefPixel { near_edge: true, ..hit };
    let miss = RefPixel { centre: None, near_edge: false, same_plane: false };
    let near = Measure { cell: [1, 0, 0], farther: false, off: false };
    let far = Measure { farther: true, ..near };
    let cases: Vec<(([u32; 2], u16, [i16; 2]), RefPixel, Measure, Option<Wrong>)> = vec![
        (good, hit, near, None),
        (NOTHING, miss, near, None),
        (NOTHING, hit, near, Some(Wrong::Crack)),
        (NOTHING, edge, near, Some(Wrong::Crack)),
        (([0, 2], 3, up), edge, far, Some(Wrong::Crack)),
        (good, edge, far, None),
        (([1, 0], 3, up), hit, near, Some(Wrong::BadId)),
        (([0, 3], 3, up), hit, near, Some(Wrong::BadId)),
        (([0, 4], 3, up), hit, near, Some(Wrong::BadId)),
        (good, miss, near, Some(Wrong::Extra)),
        (([0, 1], 4, up), hit, near, Some(Wrong::Material)),
        (([0, 1], 3, [0, 0]), hit, near, Some(Wrong::Normal)),
        (good, hit, Measure { cell: [2, 0, 0], ..near }, Some(Wrong::Face)),
        (good, hit, Measure { off: true, ..near }, Some(Wrong::Depth)),
    ];
    let f = frame(&cases.iter().map(|c| c.0).collect::<Vec<_>>());
    let refs: Vec<RefPixel> = cases.iter().map(|c| c.1).collect();
    let ms: Vec<Measure> = cases.iter().map(|c| c.2).collect();
    let r = compare(&f, &refs, &ms, &regions());
    let want: Vec<(usize, Wrong)> = cases.iter().enumerate().filter_map(|(i, c)| c.3.map(|w| (i, w))).collect();
    assert_eq!(r.examples, want[..8]);
    assert_eq!(r.failures(), want.len() as u64);
    assert!(!r.passes());
    assert_eq!((r.pixels, r.ref_hits, r.gpu_hits, r.near_edge, r.checked), (14, 12, 11, 3, 5));
    assert_eq!((r.crack, r.plane_depth, r.material, r.normal, r.face, r.depth, r.extra, r.bad_id), (3, 1, 1, 1, 1, 1, 1, 3));
    let ok = compare(&frame(&[good, NOTHING]), &[hit, miss], &[near, near], &regions());
    assert!(ok.passes() && ok.examples.is_empty());
}

#[test]
fn two_frames_agree_away_from_edges() {
    let up = [0, 32767];
    let good = ([0, 1], 3, up);
    let other = ([0, 0], 3, up);
    let flat = RefPixel { centre: None, near_edge: false, same_plane: false };
    let edge = RefPixel { near_edge: true, ..flat };
    let m = PairMeasure { cells: ([1, 0, 0], [1, 0, 0]), off: false };
    let moved = PairMeasure { cells: ([1, 0, 0], [2, 0, 0]), ..m };
    let off = PairMeasure { off: true, ..m };
    let a = frame(&[good, good, good, good, good, good, good, NOTHING]);
    let b = frame(&[good, other, NOTHING, NOTHING, good, good, good, NOTHING]);
    let refs = [flat, flat, flat, edge, flat, edge, flat, flat];
    let ms = [m, m, m, m, moved, moved, off, m];
    let r = agreement(&a, &b, &refs, &ms, &regions());
    assert_eq!((r.pixels, r.both_hit, r.same_id), (8, 5, 4));
    assert_eq!((r.hit_miss, r.hit_miss_edge, r.differ, r.differ_edge, r.depth), (1, 1, 1, 1, 1));
    assert_eq!(r.failures(), 3);
    assert_eq!(r.examples, [(2, Disagreement::HitMiss), (4, Disagreement::Differ), (6, Disagreement::Depth)]);
    let swap: Vec<PairMeasure> = ms.iter().map(|m| PairMeasure { cells: (m.cells.1, m.cells.0), off: m.off }).collect();
    assert_eq!(agreement(&b, &a, &refs, &swap, &regions()).failures(), 3);
    assert!(matches!(voxel_engine::gpu::equivalence::see([0, 1], [1, 0, 0], &regions()), Seen::Surface { material: 3, .. }));
}

#[test]
fn samples_are_every_stride_th_pixel() {
    let px = sample_pixels(1920, 1080);
    assert_eq!(px.len(), 480 * 270);
    assert_eq!(px[0], 2 * 1920 + 2);
    assert_eq!(px[1], 2 * 1920 + 6);
    assert_eq!(*px.last().unwrap(), 1078 * 1920 + 1918);
    for (w, h) in [(6, 6), (1918, 2), (7, 11), (3, 3), (2, 9), (0, 5), (8, 10)] {
        let want: Vec<usize> = (0..w * h).filter(|i| i / w % 4 == 2 && i % w % 4 == 2).collect();
        assert_eq!(sample_pixels(w as u32, h as u32), want, "{w} by {h}");
    }
    assert_eq!(sample_pixels(6, 6), [14]);
    assert_eq!(sum_bytes(3), 3 * 64 * 16);
    assert_eq!(sum_at(2, 5), 16 * (2 * 64 + 5));
}

#[test]
fn emitter_flags_follow_the_settings() {
    let both = shade::EMITTERS | shade::FAULT_NO_SOLID_ANGLE;
    let d = shade::flags(ShadeSettings::default(), ShadeFaults::default());
    assert_eq!(d & both, 0);
    assert_eq!(d, shade::SUN | shade::SKY | shade::BOUNCE);
    let s = ShadeSettings { emitters: true, emitter_samples: 4, ..ShadeSettings::default() };
    let f = shade::flags(s, ShadeFaults { no_solid_angle: true, ..ShadeFaults::default() });
    assert_eq!(f & both, both);
    assert_eq!(samples(s), 4);
    assert_eq!(samples(ShadeSettings { emitter_samples: 0, ..s }), 1);
    assert_eq!(shade::flags(ShadeSettings::off(), ShadeFaults { flip_x: true, depth: true, no_solid_angle: false }), 256 | 512);
    assert!(!serves(f, None) && serves(f, Some(0)) && serves(d, None));
    assert_eq!((shade::emitter_range(0), shade::emitter_range(2), shade::material_range(0)), (80, 160, 16));
}

#[test]
fn reference_frames_reset_once_and_are_all_submitted() {
    let s = RefSettings {
        sun: true,
        sky: true,
        point_sun: false,
        uniform_sky: false,
        albedo_one: true,
        emission: true,
        emitters_direct: false,
        emitters_indirect: true,
        emitter_area_sampling: true,
        no_solid_angle: false,
        double_emission: true,
        no_emitter_cosine: false,
    };
    let f = reference::flags(s, RefFaults { wrong_pdf: true, no_cosine: false });
    assert_eq!(f, 1 | 2 | 16 | 128 | 256 | 2048 | 4096 | 16384);
    assert_eq!(frame_flags(f, 3, 3), f | reference::RESET);
    assert_eq!(frame_flags(f, 4, 3), f);
    assert_eq!(submissions(3, 10, 3), [(3, 6), (6, 9), (9, 10)]);
    assert_eq!(submissions(0, 2, 0), [(0, 1), (1, 2)]);
    assert_eq!(submissions(5, 5, 4), []);
    assert_eq!(submissions(1, 9, u32::MAX), [(1, 9)]);
    assert_eq!(submissions(u32::MAX - 3, u32::MAX, 2), [(u32::MAX - 3, u32::MAX - 1), (u32::MAX - 1, u32::MAX)]);
    assert!(reference::marches(16, 32, 3));
    assert!(!reference::marches(15, 32, 3) && !reference::marches(0, 32, 3) && !reference::marches(16, 31, 3) && !reference::marches(16, 32, 4));
}

#[test]
fn sky_tables_of_another_size_are_refused() {
    let t = |w| TableSize { w, h: 4, want_w: 8, want_h: 4 };
    assert_eq!(check_tables(&[t(8), t(8)]), Ok(()));
    assert_eq!(check_tables(&[t(8), t(7), t(6)]), Err(t(7)));
}

#[test]
fn bakes_fill_the_threads_and_cover_the_samples() {
    assert_eq!(replicas(1000), 64);
    assert_eq!(replicas(100_000), 1);
    let d = dispatches(10, 0, 4, 2, 7, 96, 4, 8);
    assert_eq!(d.iter().map(|p| (p.count, p.jobs, p.first, p.samples)).collect::<Vec<_>>(), [(80, 10, 0, 4), (80, 10, 32, 4), (80, 10, 64, 4)]);
    assert_eq!(THREADS, 32768);
}

#[test]
fn relight_boxes_are_merged_into_the_last_one() {
    let b = |i: i32| Relight { lo: [i, 0, -i], hi: [i + 1, 2, 1 - i] };
    let few: Vec<Relight> = (0..16).map(b).collect();
    assert_eq!(merge(&few), few);
    let many: Vec<Relight> = (0..20).map(b).collect();
    let m = merge(&many);
    assert_eq!(m.len(), 16);
    assert_eq!(m[..15], many[..15]);
    assert_eq!(m[15], Relight { lo: [15, 0, -19], hi: [20, 2, -14] });
    assert_eq!(m[15].side(), 5);
    assert_eq!(Relight { lo: [0; 3], hi: [0; 3] }.side(), 1);
}

#[test]
fn histories_reset_when_the_lights_switch() {
    let mut h = History::new(16, 9);
    assert_eq!(h.size(), (16, 9));
    assert_eq!(h.cause(true, true, false), ResetCause { first: true, ..ResetCause::default() });
    h.advance();
    assert_eq!((h.parity(), h.frames()), (1, 1));
    assert!(!h.cause(false, false, false).any());
    assert!(h.cause(true, false, false).any() && h.cause(false, true, false).any() && h.cause(false, false, true).any());
    h.set_lights(true);
    assert_eq!(h.cause(false, false, false), ResetCause { lights: true, ..ResetCause::default() });
    h.advance();
    assert!(!h.cause(false, false, false).any());
    assert_eq!(h.parity(), 0);
    let f = temporal::flags(ResetCause { cut: true, ..ResetCause::default() }, true, TemporalFaults { never_reject: true, ..TemporalFaults::default() });
    assert_eq!(f, 1 | 2 | 512);
}

#[test]
fn history_states_are_decoded() {
    let mut b = Vec::new();
    for w in [0x0009_0040u32, 0xFF00_0001] {
        b.extend(w.to_le_bytes());
    }
    assert_eq!(read_states(&b), [(64, 9), (1, 0)]);
    let g: Vec<u8> = (1u32..9).flat_map(|w| w.to_le_bytes()).collect();
    assert_eq!(read_guides(&g), [[1, 2, 3, 4], [5, 6, 7, 8]]);
    assert_eq!(buffer_bytes(4, 2), [128, 128, 128, 128, 32, 32, 64]);
    let names: Vec<&str> = (0..10).map(|c| Reason::of_code(c).unwrap().name()).collect();
    assert_eq!(names, ["accepted", "sky", "off-screen", "no previous surface", "material", "normal", "disoccluded", "edited", "reset", "relit"]);
    assert!((0..10).all(|c| Reason::of_code(c).unwrap().code() == c));
    assert_eq!(Reason::of_code(10), None);
}

#[test]
fn the_filter_runs_its_passes_in_order() {
    let s = DenoiseSettings::default();
    let p = denoise::passes(64, 32, 1, s, DenoiseFaults::default());
    assert!(!p.is_empty());
    assert_eq!(p.iter().filter(|x| x.flags & denoise::REMODULATE != 0).count(), 1);
    assert!(p.last().unwrap().flags & denoise::REMODULATE != 0);
}

#[test]
fn compose_groups_cover_the_frame() {
    assert_eq!(compose::groups(1920, 1080), (120, 68));
    assert_eq!(compose::partial_bytes((120, 68)), 120 * 68 * 16);
    assert_eq!(compose::flags(true, ComposeFaults::default()) & compose::EMISSION, compose::EMISSION);
}

#[test]
fn views_are_numbered_in_the_shaders_order() {
    let all = ViewKind::all();
    for (i, v) in all.iter().enumerate() {
        assert_eq!(v.index(), i as u32);
        assert_eq!(selector(*v, false), i as u32);
    }
    assert_eq!(all.iter().filter(|v| !v.reads_gbuffer()).count(), 4);
    assert_eq!(selector(ViewKind::Light, true), 8 | EMISSION_BIT);
    assert_eq!(selector(ViewKind::Lit, true), 7);
    assert_eq!(ViewKind::Surface.name(), "surface-id hash");
    assert_eq!((source_word(Source::Raster), source_word(Source::Ray)), (0, 1));
    let b = region_bytes(&[(RegionKey { x: -1, y: 2, z: i32::MIN }, (7 << 32) | 5)]);
    let words: Vec<i32> = b.chunks(4).map(|c| i32::from_le_bytes(c.try_into().unwrap())).collect();
    assert_eq!(words, [-1, 2, i32::MIN, 5]);
    assert_eq!((table_bytes(0), table_bytes(48)), (16, 48));
}

fn region(x: i32, quads: u64, triangles: u64) -> GpuRegion {
    GpuRegion { key: RegionKey { x, y: 0, z: 0 }, sections: Sections::new(4 * quads, triangles, quads, 16), quad_count: quads, vertex_count: 4 * quads, triangle_count: triangles, address: 0 }
}

#[test]
fn every_region_is_drawn_relative_to_the_camera() {
    let rs = [region(0, 1, 2), region(1, 2, 5)];
    let d = draws(&rs, RegionSize::Chunk, [10, 0, -3], &Faults::default());
    assert_eq!(d.iter().map(|d| (d.region, d.offset, d.index_count)).collect::<Vec<_>>(), [(0, [-10, 0, 3], 6), (1, [22, 0, 3], 15)]);
    let d = draws(&rs, RegionSize::Chunk, [0; 3], &Faults { skip_region: Some(0), ..Faults::default() });
    assert_eq!(d.len(), 1);
    assert_eq!(binding_ranges(&rs[1]), (16, 20));
    // What is not drawn need not be in the camera's range.
    let far = [region(0x0200_0000, 0, 0), region(1, 2, 5), region(0x0200_0000, 1, 2)];
    let d = draws(&far, RegionSize::Chunk, [0; 3], &Faults { skip_region: Some(2), ..Faults::default() });
    assert_eq!(d.iter().map(|d| (d.region, d.offset)).collect::<Vec<_>>(), [(1, [32, 0, 0])]);
}

#[test]
fn frames_are_read_back_from_their_sections() {
    let s = readback_sections(3);
    assert_eq!((s.depth, s.normal, s.material, s.surface), (0, 16, 32, 48));
    let mut b = vec![0u8; s.total as usize];
    b[s.depth as usize + 4..][..4].copy_from_slice(&7u32.to_le_bytes());
    b[s.normal as usize + 8..][..4].copy_from_slice(&[1, 0, 0xff, 0xff]);
    b[s.material as usize + 2..][..2].copy_from_slice(&9u16.to_le_bytes());
    b[s.surface as usize + 16..][..8].copy_from_slice(&[1, 0, 0, 0, 2, 0, 0, 0]);
    let f = read_frame(&b, 3, 1);
    assert_eq!((f.depth[1], f.normal[2], f.material[1], f.surface[2]), (7, [1, -1], 9, [1, 2]));
    assert_eq!(target_bytes(3, 2), (96, 48));
    let t = read_trace(&vec![0u8; 24 * 3], 3, 1);
    assert_eq!(t.surface.len(), 3);
}

#[test]
fn decoded_regions_are_read_from_their_outputs() {
    let rs = [region(0, 2, 3), region(1, 1, 2)];
    let p = plan_outputs(&rs, 16);
    let d = read_outputs(&vec![0u8; p.total as usize], &rs, 16);
    assert_eq!(d.len(), 2);
    assert_eq!((d[0].quads.len(), d[0].triangles.len(), d[1].quads.len(), d[1].triangles.len()), (2, 3, 1, 2));
    assert_eq!(groups(&rs[0]), 1);
    assert_eq!(decode::binding_ranges(&rs[0]), [16, 64, 36, 12, 64, 24]);
    assert_eq!(decode::binding_ranges(&region(0, 0, 0)), [8, 8, 4, 4, 32, 8]);
    assert_eq!(TRI_OK, 31);
}

#[test]
fn slices_with_one_sample_count_are_baked_together() {
    assert_eq!(sky_bake::runs(&[8, 8, 4, 4, 4, 8]), [(0, 2), (2, 5), (5, 6)]);
    assert_eq!(sky_bake::runs(&[1]), [(0, 1)]);
    assert_eq!(sky_bake::runs(&[]), []);
}
