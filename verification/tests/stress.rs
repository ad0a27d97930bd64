//! Seeded random interleavings of edits, delayed notifications, dispatches, delayed out-of-order
//! completions, readers and publications. Invariants are checked after every step.
use std::collections::{BTreeMap, BTreeSet};

use voxel_engine::derived::mesh::{extract_world, BrickMesh, Merge};
use voxel_engine::derived::pipeline::{Config, Faults, JobResult, Pipeline, Published, Stats};
use voxel_engine::derived::snapshot::SnapshotId;
use voxel_engine::derived::store::ReaderToken;
use voxel_engine::derived::surface::affected_keys;
use voxel_engine::world::{BrickKey, MaterialId, VoxelCoord, World};

/// A brick's place, which orders.
type Place = (i32, i32, i32);

fn place(k: BrickKey) -> Place {
    (k.x, k.y, k.z)
}

fn materials(n: u16) -> Vec<MaterialId> {
    (0..n).map(|id| MaterialId { id }).collect()
}

/// Derived data recomputed from scratch for every brick of the world (default merge mode).
fn truth(w: &World) -> BTreeMap<Place, BrickMesh> {
    w.brick_keys().into_iter().map(|k| (place(k), extract_world(w, k, Merge::default()).expect("stored bricks are non-empty"))).collect()
}

/// The pipeline's current snapshot must equal `truth(w)` exactly: same keys, same meshes.
fn check_snapshot(p: &Pipeline, w: &World) -> Result<(), String> {
    let snap = p.current();
    let expected = truth(w);
    let got: BTreeSet<Place> = snap.keys().into_iter().map(place).collect();
    let want: BTreeSet<Place> = expected.keys().copied().collect();
    if got != want {
        let extra: Vec<_> = got.difference(&want).collect();
        let missing: Vec<_> = want.difference(&got).collect();
        return Err(format!("snapshot {:?} key mismatch: extra {extra:?}, missing {missing:?}", snap.id));
    }
    for k in w.brick_keys() {
        let s = &expected[&place(k)];
        let h = snap.handle(k).expect("key present");
        match p.resolve(h) {
            None => return Err(format!("snapshot {:?} entry {k:?} dangles", snap.id)),
            Some(g) if g != s => return Err(format!("snapshot {:?} entry {k:?} is stale: got {g:?}, want {s:?}", snap.id)),
            Some(_) => {}
        }
    }
    Ok(())
}

/// Every entry of the current snapshot, resolved.
fn snapshot_values(p: &Pipeline) -> BTreeMap<Place, BrickMesh> {
    let snap = p.current();
    snap.keys().into_iter().map(|k| (place(k), p.resolve(snap.handle(k).unwrap()).expect("current entries resolve").clone())).collect()
}

/// Check after a publication that may be partial. Keys that are not awaiting publication must equal
/// the truth now; keys still awaiting must keep their value from the previous snapshot `prev`.
fn check_published(p: &Pipeline, w: &World, prev: &BTreeMap<Place, BrickMesh>) -> Result<(), String> {
    let now = snapshot_values(p);
    let t = truth(w);
    let keys: BTreeSet<Place> = now.keys().chain(t.keys()).chain(prev.keys()).copied().collect();
    for k in keys {
        let got = now.get(&k);
        if p.is_awaiting(BrickKey { x: k.0, y: k.1, z: k.2 }) {
            if got != prev.get(&k) {
                return Err(format!("snapshot {:?}: awaiting key {k:?} changed before its group was ready", p.current().id));
            }
        } else if got != t.get(&k) {
            return Err(format!("snapshot {:?}: key {k:?} is stale: got {got:?}, want {:?}", p.current().id, t.get(&k)));
        }
    }
    Ok(())
}

/// xorshift64*.
struct Rng(u64);

impl Rng {
    fn next(&mut self) -> u64 {
        self.0 ^= self.0 >> 12;
        self.0 ^= self.0 << 25;
        self.0 ^= self.0 >> 27;
        self.0.wrapping_mul(0x2545_F491_4F6C_DD1D)
    }
    fn below(&mut self, n: u64) -> u64 {
        self.next() % n
    }
    }

const EXTENT: i32 = 24; // voxels [-24, 24) per axis: 6 bricks, crossing chunk edges at 0 and ±32

fn random_voxel(rng: &mut Rng) -> VoxelCoord {
    // Half of the coordinates are forced onto brick faces (local 0 or 7) to stress boundary edits.
    let mut c = || {
        let x = rng.below(2 * EXTENT as u64) as i32 - EXTENT;
        if rng.below(2) == 0 { x.div_euclid(8) * 8 + if rng.below(2) == 0 { 0 } else { 7 } } else { x }
    };
    VoxelCoord::new(c(), c(), c())
}

struct Outcome {
    stats: Stats,
    publishes_checked: usize,
    reader_reads_checked: usize,
    batches_checked: usize,
}

/// Tracks, for every edit batch, whether its keys have been published since. A batch must become
/// visible all at once: after any publication, a batch is fully published or not at all.
#[derive(Default)]
struct BatchTracker {
    open: Vec<BTreeMap<Place, Option<SnapshotId>>>,
    closed: usize,
}

impl BatchTracker {
    fn add(&mut self, keys: impl IntoIterator<Item = Place>) {
        let b: BTreeMap<_, _> = keys.into_iter().map(|k| (k, None)).collect();
        if !b.is_empty() {
            self.open.push(b);
        }
    }

    fn on_publish(&mut self, report: &Published) -> Result<(), String> {
        let keys: BTreeSet<Place> = report.groups.iter().flatten().map(|k| place(*k)).collect();
        for b in &mut self.open {
            for (k, first) in b.iter_mut() {
                if first.is_none() && keys.contains(k) {
                    *first = Some(report.id);
                }
            }
            let done = b.values().filter(|f| f.is_some()).count();
            if done > 0 && done < b.len() {
                let missing: Vec<_> = b.iter().filter(|(_, f)| f.is_none()).map(|(k, _)| *k).collect();
                return Err(format!(
                    "snapshot {:?} published an edit batch half-way: {done} of {} keys; first unpublished {:?}",
                    report.id,
                    b.len(),
                    &missing[..missing.len().min(3)]
                ));
            }
        }
        let before = self.open.len();
        self.open.retain(|b| b.values().any(Option::is_none));
        self.closed += before - self.open.len();
        Ok(())
    }
}

/// Everything the harness tracks besides the pipeline and the world.
struct Harness {
    batches: BatchTracker,
    /// Edits applied to the world whose notification has not been delivered yet.
    unnotified: Vec<VoxelCoord>,
    /// Values of each snapshot at publication, for checking readers later.
    published: BTreeMap<SnapshotId, BTreeMap<Place, BrickMesh>>,
    prev_values: BTreeMap<Place, BrickMesh>,
    publishes_checked: usize,
}

impl Harness {
    fn notify(&mut self, p: &mut Pipeline) {
        if !self.unnotified.is_empty() {
            self.batches.add(self.unnotified.iter().flat_map(|&v| affected_keys(v)).map(place).collect::<BTreeSet<_>>());
            p.notify_edits(&self.unnotified);
            self.unnotified.clear();
        }
    }

    /// Publication happens at a frame boundary, after pending notifications are delivered.
    fn publish(&mut self, p: &mut Pipeline, w: &World) -> Result<(), String> {
        self.notify(p);
        if let Some(report) = p.try_publish(w) {
            check_published(p, w, &self.prev_values)?;
            self.batches.on_publish(&report)?;
            self.prev_values = snapshot_values(p);
            self.published.insert(report.id, self.prev_values.clone());
            self.publishes_checked += 1;
        }
        Ok(())
    }
}

fn stress(seed: u64, faults: Faults, steps: usize) -> Result<Outcome, String> {
    let mut rng = Rng(seed);
    let mut w = World::new();
    let m = materials(4);
    for _ in 0..3000 {
        let v = random_voxel(&mut rng);
        w.set(v, Some(m[rng.below(4) as usize])).unwrap();
    }
    let mut p = Pipeline::new(Config { queue_capacity: 8, max_in_flight: 6, faults, ..Config::default() });
    let mut h = Harness {
        batches: BatchTracker::default(),
        unnotified: Vec::new(),
        published: BTreeMap::from([(p.current().id, BTreeMap::new())]),
        prev_values: BTreeMap::new(),
        publishes_checked: 0,
    };
    h.batches.add(w.brick_keys().into_iter().map(place));
    p.mark_all(&w);

    let mut held: Vec<JobResult> = Vec::new();
    let mut readers: Vec<ReaderToken> = Vec::new();
    let mut reader_reads_checked = 0;

    for step in 0..steps {
        match rng.below(100) {
            // Edit rate is set so processing keeps up on average (with bursts); sustained overload is
            // tested separately in `scenarios::sustained_edits_defer_publication_and_recover`.
            0..=5 => {
                for _ in 0..1 + rng.below(4) {
                    let v = random_voxel(&mut rng);
                    let mat = if rng.below(3) == 0 { None } else { Some(m[rng.below(4) as usize]) };
                    if w.set(v, mat).unwrap() {
                        h.unnotified.push(v);
                    }
                }
            }
            6..=11 => h.notify(&mut p),
            12..=39 => {
                // Jobs run immediately against their captured copies; completion is delayed arbitrarily.
                for j in p.dispatch(&w) {
                    held.push(j.run());
                }
            }
            40..=79 => {
                if !held.is_empty() {
                    let r = held.swap_remove(rng.below(held.len() as u64) as usize);
                    p.complete(&w, r);
                }
            }
            80..=84 => readers.push(p.acquire()),
            85..=89 => {
                if !readers.is_empty() {
                    let r = readers.swap_remove(rng.below(readers.len() as u64) as usize);
                    p.release(r).map_err(|e| format!("release: {e:?}"))?;
                }
            }
            _ => h.publish(&mut p, &w).map_err(|e| format!("step {step}: {e}"))?,
        }
        p.check_live_handles().map_err(|e| format!("step {step}: {e:?}"))?;
        // Every reader sees exactly the data of the snapshot it acquired.
        for r in &readers {
            let expect = &h.published[&r.snapshot];
            for _ in 0..2 {
                let k = random_voxel(&mut rng).split().0;
                let got = p.read(r, k).map_err(|e| format!("step {step}: reader {:?}: {e:?}", r.id))?;
                if got != expect.get(&place(k)) {
                    return Err(format!("step {step}: reader {:?} on {:?} saw {got:?}, want {:?}", r.id, r.snapshot, expect.get(&place(k))));
                }
                reader_reads_checked += 1;
            }
        }
    }

    // Drain: finish everything, release readers, deliver notifications and publish until idle.
    for r in held.drain(..) {
        p.complete(&w, r);
    }
    for r in readers.drain(..) {
        p.release(r).map_err(|e| format!("release: {e:?}"))?;
    }
    for _ in 0..1000 {
        for j in p.dispatch(&w) {
            p.complete(&w, j.run());
        }
        h.publish(&mut p, &w)?;
        if p.is_idle() {
            break;
        }
    }
    if !p.is_idle() {
        return Err("pipeline did not drain".into());
    }
    check_snapshot(&p, &w)?;
    if !h.batches.open.is_empty() {
        return Err(format!("{} edit batches never published", h.batches.open.len()));
    }
    if p.pool_stats().live != p.current().len() || p.retiring_len() != 0 || p.live_snapshots() != 1 {
        return Err(format!("leak: pool live {}, entries {}, retiring {}, snapshots {}", p.pool_stats().live, p.current().len(), p.retiring_len(), p.live_snapshots()));
    }
    Ok(Outcome { stats: p.stats(), publishes_checked: h.publishes_checked, reader_reads_checked, batches_checked: h.batches.closed })
}

const SEEDS: [u64; 4] = [1, 0xDEAD_BEEF, 42, 0x1234_5678_9ABC];

#[test]
fn random_interleavings_keep_every_invariant() {
    for seed in SEEDS {
        let o = stress(seed, Faults::default(), 6000).unwrap_or_else(|e| panic!("seed {seed:#x}: {e}"));
        let s = o.stats;
        println!(
            "seed {seed:#x}: {s:?}, publishes checked {}, reader reads checked {}, batches checked {}",
            o.publishes_checked, o.reader_reads_checked, o.batches_checked
        );
        // The run must exercise every mechanism it claims to test.
        assert!(s.rejected_cancelled > 0 && s.rejected_stale > 0 && s.accepted_by_content > 0, "seed {seed:#x}: {s:?}");
        assert!(s.overflow_deferred > 0 && s.coalesced > 0 && s.publish_deferred > 0 && s.groups_merged > 0, "seed {seed:#x}: {s:?}");
        assert!(s.freed > 0 && o.publishes_checked >= 20 && o.reader_reads_checked > 1000 && o.batches_checked >= 100, "seed {seed:#x}");
    }
}

#[test]
fn stress_is_deterministic() {
    let a = stress(7, Faults::default(), 3000).unwrap().stats;
    let b = stress(7, Faults::default(), 3000).unwrap().stats;
    assert_eq!(a, b);
}

fn detected(faults: Faults) -> Vec<String> {
    SEEDS.iter().filter_map(|&s| stress(s, faults, 6000).err()).collect()
}

#[test]
fn negative_controls_each_guard_is_needed() {
    let cases = [
        ("skip_neighbour_dirty", Faults { skip_neighbour_dirty: true, ..Faults::default() }),
        ("retire_without_readers", Faults { retire_without_readers: true, ..Faults::default() }),
        ("skip_cancel + skip_stale_check", Faults { skip_cancel: true, skip_stale_check: true, ..Faults::default() }),
        ("publish_partial_groups", Faults { publish_partial_groups: true, ..Faults::default() }),
    ];
    for (name, f) in cases {
        let errs = detected(f);
        println!("{name}: detected on {} of {} seeds; first: {:?}", errs.len(), SEEDS.len(), errs.first());
        assert!(!errs.is_empty(), "{name}: the invariants never failed, so they cannot detect this fault");
    }
}

#[test]
fn cancellation_and_stale_check_are_independent_guards() {
    // With either guard alone disabled, the other still keeps every invariant.
    for (name, f) in [
        ("skip_cancel", Faults { skip_cancel: true, ..Faults::default() }),
        ("skip_stale_check", Faults { skip_stale_check: true, ..Faults::default() }),
    ] {
        for seed in SEEDS {
            let o = stress(seed, f, 6000).unwrap_or_else(|e| panic!("{name}, seed {seed:#x}: {e}"));
            if name == "skip_cancel" {
                assert_eq!(o.stats.rejected_cancelled, 0);
                assert!(o.stats.rejected_stale > 0, "the stale check must be doing the cancel's work");
            }
        }
    }
}
