//! The parts that the larger scenarios are made of, on exact values.
use std::collections::BTreeMap;

use voxel_engine::derived::groups::Groups;
use voxel_engine::derived::mesh::{extract, extract_world, Merge};
use voxel_engine::derived::pipeline::{Completion, Config, Pipeline};
use voxel_engine::derived::queue::{Enqueued, WorkQueue};
use voxel_engine::derived::surface::InputSnapshot;
use voxel_engine::derived::triangles::{Split, Triangles};
use voxel_engine::gpu::bytes::{align_up, groups_of, next_multiple, pad_to, push_u16, push_u32, push_u64, u16_at};
use voxel_engine::gpu::temporal::Relight;
use voxel_engine::sorted::SortedMap;
use voxel_engine::world::{floor_div, BrickKey, MaterialId, VoxelCoord, World};

const MERGES: [Merge; 2] = [Merge::Unmerged, Merge::Greedy];
const STONE: MaterialId = MaterialId { id: 0 };

fn key(x: i32, y: i32, z: i32) -> BrickKey {
    BrickKey { x, y, z }
}

fn set(keys: &[BrickKey]) -> SortedMap<BrickKey, ()> {
    let mut s = SortedMap::new();
    for &k in keys {
        s.insert(k, ());
    }
    s
}

/// A staircase that crosses brick borders, with a pillar beside it.
fn stairs() -> World {
    let mut w = World::new();
    for i in 0..12 {
        w.fill_box(VoxelCoord::new(i - 3, 0, -5), VoxelCoord::new(i - 2, i + 1, 9), Some(STONE)).unwrap();
    }
    w.fill_box(VoxelCoord::new(12, 0, 2), VoxelCoord::new(13, 17, 3), Some(MaterialId { id: 3 })).unwrap();
    w
}

/// Everything marked is built and published.
fn settle(p: &mut Pipeline, w: &World) {
    loop {
        let jobs = p.dispatch(w);
        if jobs.is_empty() {
            break;
        }
        for j in jobs {
            p.complete(w, j.run());
        }
        p.try_publish(w);
    }
    assert!(p.is_idle());
}

/// Twice the signed area of a triangle along the axis of its normal.
fn turn(t: &Triangles, j: usize, axis: usize) -> i32 {
    let c = t.indices[j].map(|i| t.vertices[i as usize].map(|x| x as i32));
    let (u, v) = ((axis + 1) % 3, (axis + 2) % 3);
    (c[1][u] - c[0][u]) * (c[2][v] - c[0][v]) - (c[1][v] - c[0][v]) * (c[2][u] - c[0][u])
}

#[test]
fn triangles_face_out_and_fill_their_quads() {
    let w = stairs();
    for merge in MERGES {
        for k in w.brick_keys() {
            let mesh = extract_world(&w, k, merge).unwrap();
            for split in [Split::CornersOnly, Split::Watertight] {
                let t = mesh.triangulate(split);
                let mut sums = vec![0i32; mesh.quads.len()];
                for j in 0..t.indices.len() {
                    let q = mesh.quads[t.quad[j] as usize];
                    let s = turn(&t, j, q.axis()) * if q.positive() { 1 } else { -1 };
                    assert!(s > 0, "triangle {j} of {k:?} faces inward");
                    sums[t.quad[j] as usize] += s;
                }
                // Vertices are in half voxels, so a unit face measures 4, and its double 8.
                for (q, s) in mesh.quads.iter().zip(&sums) {
                    assert_eq!(*s, 8 * q.area() as i32);
                }
            }
        }
    }
}

#[test]
fn unmerged_meshes_are_split_nowhere() {
    let w = stairs();
    for k in w.brick_keys() {
        let mesh = extract_world(&w, k, Merge::Unmerged).unwrap();
        let (a, b) = (mesh.triangulate(Split::CornersOnly), mesh.triangulate(Split::Watertight));
        assert_eq!((a.vertices, a.indices, a.quad), (b.vertices, b.indices, b.quad));
    }
}

#[test]
fn every_edge_is_walked_both_ways() {
    let w = stairs();
    for merge in MERGES {
        let mut edges: BTreeMap<([i32; 3], [i32; 3]), i32> = BTreeMap::new();
        for k in w.brick_keys() {
            let o = k.origin();
            let t = extract_world(&w, k, merge).unwrap().triangulate(Split::Watertight);
            for i in &t.indices {
                let c = i.map(|v| {
                    let p = t.vertices[v as usize];
                    [2 * o.x + p[0] as i32, 2 * o.y + p[1] as i32, 2 * o.z + p[2] as i32]
                });
                for (a, b) in [(c[0], c[1]), (c[1], c[2]), (c[2], c[0])] {
                    *edges.entry((a, b)).or_default() += 1;
                }
            }
        }
        for (&(a, b), &n) in &edges {
            assert_eq!(edges.get(&(b, a)), Some(&n), "{a:?} to {b:?}");
        }
    }
}

#[test]
fn captures_extract_what_the_world_does() {
    let w = stairs();
    for k in w.brick_keys() {
        for merge in MERGES {
            let want = extract_world(&w, k, merge).unwrap();
            assert_eq!(InputSnapshot::capture(&w, k).extract(merge).unwrap().quads, want.quads);
            assert_eq!(extract(k, w.brick(k), |v| w.get(v), merge).unwrap().quads, want.quads);
        }
        assert_eq!(InputSnapshot::capture(&w, k).dependencies().inputs().keys, w.brick(k).map(|_| voxel_engine::derived::surface::input_keys(k)).unwrap());
    }
    assert!(extract(key(90, 0, 0), None, |v| w.get(v), Merge::Greedy).is_none());
}

#[test]
fn batches_pass_through_the_counters() {
    let mut w = World::new();
    for x in [0, 8, 16] {
        w.set(VoxelCoord::new(x, 0, 0), Some(STONE)).unwrap();
    }
    let mut p = Pipeline::new(Config { queue_capacity: 2, max_in_flight: 2, ..Config::default() });
    assert!(p.has_room() && p.is_idle());
    p.mark_batch(&vec![key(0, 0, 0), key(1, 0, 0), key(2, 0, 0), key(1, 0, 0)]);
    assert_eq!((p.pending_len(), p.queue_len(), p.overflow_len()), (3, 2, 1));
    assert_eq!((p.in_flight_len(), p.staged_len()), (0, 0));
    let jobs = p.dispatch(&w);
    assert_eq!((jobs.len(), p.in_flight_len()), (2, 2));
    for j in jobs {
        assert!(matches!(p.complete(&w, j.run()), Completion::Accepted));
    }
    assert_eq!((p.in_flight_len(), p.staged_len()), (0, 2));
    assert!(p.try_publish(&w).is_none(), "the group publishes whole");
    for j in p.dispatch(&w) {
        p.complete(&w, j.run());
    }
    assert_eq!(p.try_publish(&w).unwrap().groups, [vec![key(0, 0, 0), key(1, 0, 0), key(2, 0, 0)]]);
    assert_eq!((p.pending_len(), p.staged_len()), (0, 0));
    assert!(p.is_idle() && p.check_live_handles().is_ok());
}

#[test]
fn groups_merge_split_and_dissolve() {
    let (a, b, c) = (key(0, 0, 0), key(1, 0, 0), key(2, 0, 0));
    let mut g = Groups::new();
    assert!(g.is_empty());
    assert_eq!(g.merge(&set(&[a])), (0, 1));
    assert_eq!(g.merge(&set(&[b])), (0, 1));
    // A batch that touches both makes one group of all three.
    assert_eq!(g.merge(&set(&[a, b, c])), (2, 3));
    let of = g.group(a).unwrap();
    assert_eq!((g.group(b), g.group(c)), (Some(of), Some(of)));
    assert_eq!(g.members(of).unwrap().len(), 3);
    let alone = g.split_off(of, b).unwrap();
    assert_eq!(g.group(b), Some(alone));
    assert_eq!(g.members(of).unwrap().len(), 2);
    assert_eq!(g.split_off(alone, b), None, "a group of one stays");
    assert_eq!(g.dissolve(of), [a, c]);
    assert!(g.members(of).is_none() && g.group(a).is_none());
    assert_eq!(g.dissolve(alone), [b]);
    assert!(g.is_empty());
}

#[test]
fn full_queues_defer_in_order() {
    let mut q = WorkQueue::new(2);
    assert!(matches!(q.enqueue(key(5, 0, 0)), Enqueued::Queued));
    assert!(matches!(q.enqueue(key(5, 0, 0)), Enqueued::Coalesced));
    assert!(matches!(q.enqueue(key(1, 0, 0)), Enqueued::Queued));
    assert!(matches!(q.enqueue(key(9, 0, 0)), Enqueued::Deferred));
    assert_eq!((q.queue_len(), q.overflow_len()), (2, 1));
    assert_eq!([q.pop(), q.pop(), q.pop(), q.pop()], [Some(key(5, 0, 0)), Some(key(1, 0, 0)), Some(key(9, 0, 0)), None]);
}

#[test]
fn numbers_are_written_low_byte_first() {
    let mut b = Vec::new();
    push_u16(&mut b, 0x0102);
    push_u32(&mut b, 0x0304_0506);
    push_u64(&mut b, 0x0708_090A_0B0C_0D0E);
    assert_eq!(b, [2, 1, 6, 5, 4, 3, 0x0E, 0x0D, 0x0C, 0x0B, 0x0A, 9, 8, 7]);
    pad_to(&mut b, 16);
    assert_eq!((b.len(), b[14], b[15]), (16, 0, 0));
    assert_eq!((u16_at(&b, 0), u16_at(&b, 13)), (0x0102, 7));
    assert_eq!((align_up(17, 16), align_up(16, 16), next_multiple(10, 7), next_multiple(0, 7)), (32, 16, 14, 0));
    assert_eq!((groups_of(64, 64), groups_of(65, 64), groups_of(0, 64)), (1, 2, 0));
    assert_eq!((groups_of(u32::MAX, u32::MAX), groups_of(u32::MAX, 1), groups_of(7, 100_000)), (1, u32::MAX, 1));
    assert_eq!((floor_div(-1, 8), floor_div(-8, 8), floor_div(-9, 8), floor_div(7, 8)), (-1, -1, -2, 0));
}

#[test]
fn unions_are_the_smallest_boxes() {
    let (a, b) = (Relight { lo: [0, 5, -2], hi: [1, 6, 0] }, Relight { lo: [3, 1, -1], hi: [4, 9, 7] });
    let u = a.union(b);
    assert_eq!((u.lo, u.hi, u.side()), ([0, 1, -2], [4, 9, 7], 9));
    assert_eq!(a.union(b), b.union(a));
}

#[test]
fn replaced_results_live_as_long_as_their_readers() {
    let mut w = stairs();
    let mut p = Pipeline::new(Config::default());
    assert_eq!((p.acquired(), p.live_snapshots(), p.pool_stats().live), (0, 1, 0));
    p.mark_all(&w);
    settle(&mut p, &w);
    let keys = p.current().keys();
    let handles: Vec<_> = keys.iter().map(|k| p.current().handle(*k).unwrap()).collect();
    for (i, h) in handles.iter().enumerate() {
        assert!(handles[..i].iter().all(|g| g != h), "no two bricks share a result");
        assert!(p.resolve(*h).is_some());
    }
    assert_eq!(p.pool_stats().live, p.current().len());
    let (early, late) = (p.acquire(), p.acquire());
    assert_eq!(p.acquired(), 2);

    let edited = w.brick_keys()[0];
    let corner = edited.origin();
    let other = if w.get(corner).is_some() { None } else { Some(STONE) };
    w.set(corner, other).unwrap();
    p.notify_edits(&[corner]);
    settle(&mut p, &w);
    let replaced: Vec<_> = keys.iter().zip(&handles).filter(|(k, h)| p.current().handle(**k) != Some(**h)).map(|(_, h)| *h).collect();
    assert!(!replaced.is_empty() && replaced.iter().all(|h| p.resolve(*h).is_some()));
    assert_eq!(p.retiring_len(), replaced.len());
    p.release(early).unwrap();
    assert!(replaced.iter().all(|h| p.resolve(*h).is_some()), "a reader is left");
    p.release(late).unwrap();
    assert!(replaced.iter().all(|h| p.resolve(*h).is_none()));
    assert_eq!((p.retiring_len(), p.live_snapshots(), p.staged_len()), (0, 1, 0));
    let s = p.pool_stats();
    assert_eq!((s.live, s.allocations - s.frees), (p.current().len(), s.live as u64));
    assert_eq!(s.frees, replaced.len() as u64);

    // Without a reader the old result goes with the publication itself.
    let h = p.current().handle(edited);
    w.set(corner, if other.is_some() { None } else { Some(STONE) }).unwrap();
    p.notify_edits(&[corner]);
    settle(&mut p, &w);
    assert!(h.is_none() || p.resolve(h.unwrap()).is_none());
    assert_eq!(p.pool_stats().live, p.current().len());
}

#[test]
fn pipelines_share_no_shards() {
    let w = stairs();
    let mut pipelines = [Pipeline::new(Config::default()), Pipeline::new(Config::default())];
    for p in &mut pipelines {
        p.mark_all(&w);
        settle(p, &w);
    }
    let (a, b) = (pipelines[0].current(), pipelines[1].current());
    let (n, shared) = a.shards_shared_with(b);
    assert_eq!((a.keys(), a.id, a.world_version), (b.keys(), b.id, b.world_version));
    assert!(n > 0);
    assert_eq!(shared, 0, "equal content is not the same shard");
    assert_eq!(a.shards_shared_with(a), (n, n));
    assert_eq!(a.clone().shards_shared_with(a), (n, n), "a copy of a snapshot shares its shards");
}

#[test]
fn quads_are_listed_in_order_and_greedy_ones_cannot_grow() {
    let w = stairs();
    for k in w.brick_keys() {
        for merge in MERGES {
            let quads = extract_world(&w, k, merge).unwrap().quads;
            let place = |i: usize| (quads[i].face, quads[i].plane, quads[i].v0, quads[i].u0);
            assert!((1..quads.len()).all(|i| place(i - 1) < place(i)), "{k:?}");
        }
        let quads = extract_world(&w, k, Merge::Greedy).unwrap().quads;
        let unit = extract_world(&w, k, Merge::Unmerged).unwrap().quads;
        for (i, q) in quads.iter().enumerate() {
            let mergeable = |u: u8, v: u8| {
                let there = unit.iter().any(|f| (f.face, f.plane, f.u0, f.v0, f.material) == (q.face, q.plane, u, v, q.material));
                there && !quads[..i].iter().any(|e| (e.face, e.plane) == (q.face, q.plane) && (e.u0..e.u1).contains(&u) && (e.v0..e.v1).contains(&v))
            };
            assert!(!mergeable(q.u1, q.v0), "{q:?} can grow along its row");
            assert!((q.u0..q.u1).any(|u| !mergeable(u, q.v1)), "{q:?} can grow by a row");
        }
    }
}
