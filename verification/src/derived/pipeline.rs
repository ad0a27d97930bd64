//! Transactional derived data: version-tagged jobs, a bounded queue with a deterministic overflow
//! fallback, atomic publication of edit sets and reader-safe retirement.
//!
//! 1. **Dirty tracking.** `notify_edits` is one edit batch. It marks every brick whose result can
//!    change (the edited brick, plus face neighbours for boundary voxels) as *pending*, and puts
//!    them in one publication group. A batch that touches a key of an unpublished group merges with
//!    that group. Pending keys are always eventually queued again.
//! 2. **Jobs** capture immutable copies of their seven input bricks. They run anywhere and can
//!    finish in any order.
//! 3. **Rejection.** A result is rejected if its job was *cancelled* (its target was dirtied again
//!    after dispatch), or if it is *stale*: an input's relevant content differs from the world now.
//!    A rejected key stays pending and is queued again.
//! 4. **Publication.** Accepted results wait in *staging* inside their group. `try_publish`
//!    re-validates staging, then publishes, in one new snapshot, every group whose members are all
//!    staged, so each published edit set appears all at once.
//! 5. **Retirement.** A replaced or removed result is freed only after every reader that could see
//!    it has released.
//! 6. **Overload.** The queue holds at most `queue_capacity` keys, and dispatch keeps at most
//!    `max_in_flight` jobs. Keys that do not fit go to an ordered overflow set. Nothing is dropped,
//!    and the order is deterministic.
use crate::derived::groups::Groups;
use crate::derived::mesh::{
    inside, law_mesh_depends_on_brick_and_face_layers, mesh_quads, outside, voxel, world_view, BrickMesh, Local, Merge, Quad,
};
use crate::derived::queue::{popped, Enqueued, WorkQueue};
use crate::derived::slots::{Handle, PoolStats};
use crate::derived::snapshot::{Entry, Snapshot, SnapshotId};
use crate::derived::store::{
    applied, changed_among, distinct_keys, law_applied, replaced, Change, DanglingEntry, ReadError, ReaderToken, Store,
};
use crate::derived::surface::{
    affected_keys, cell_of, law_affected_keys_are_those_that_see_the_voxel, law_capture_extracts_the_world_mesh,
    law_current_dependencies_mean_the_same_mesh, law_dependencies_record_the_world, lookup_view, recorded_from, same_voxels,
    spec_affected_keys, spec_face_layer, Dependencies, InputSnapshot,
};
use crate::sorted::{among, in_order, increasing, law_order_is_unique, lemma_among, Key, SortedMap};
use crate::world::{BrickKey, ChunkCoord, ContentVersion, VoxelCoord, World};
use vstd::prelude::*;

verus! {

#[derive(Clone, Copy, Debug, PartialEq, Eq, PartialOrd, Ord, Hash, Structural)]
pub struct JobId {
    pub number: u64,
}

/// Planted faults for negative-control tests. Each disables exactly one guard; all are off by
/// default.
#[derive(Clone, Copy, Debug, PartialEq, Eq, Structural)]
pub struct Faults {
    /// Boundary edits mark only their own brick, not face neighbours.
    pub skip_neighbour_dirty: bool,
    /// Re-dirtying a key does not cancel its in-flight job.
    pub skip_cancel: bool,
    /// Completion and publication do not validate dependencies.
    pub skip_stale_check: bool,
    /// Replaced results are freed at publication, ignoring readers.
    pub retire_without_readers: bool,
    /// Every accepted result publishes immediately, without waiting for the rest of its group.
    pub publish_partial_groups: bool,
}

impl Faults {
    pub open spec fn off() -> Faults {
        Faults {
            skip_neighbour_dirty: false,
            skip_cancel: false,
            skip_stale_check: false,
            retire_without_readers: false,
            publish_partial_groups: false,
        }
    }
}

impl Default for Faults {
    fn default() -> (r: Faults)
        ensures
            r == Faults::off(),
    {
        Faults {
            skip_neighbour_dirty: false,
            skip_cancel: false,
            skip_stale_check: false,
            retire_without_readers: false,
            publish_partial_groups: false,
        }
    }
}

#[derive(Clone, Copy, Debug)]
pub struct Config {
    pub queue_capacity: usize,
    pub max_in_flight: usize,
    /// Mesh merge extent. Every job of a pipeline uses the same one.
    pub merge: Merge,
    pub faults: Faults,
}

impl Default for Config {
    fn default() -> (r: Config)
        ensures
            r == (Config { queue_capacity: 256, max_in_flight: 64, merge: Merge::Greedy, faults: Faults::off() }),
    {
        Config { queue_capacity: 256, max_in_flight: 64, merge: Merge::default(), faults: Faults::default() }
    }
}

/// A unit of work. Send it anywhere, call `run`, and hand the result back to `complete`.
#[derive(Debug)]
pub struct Job {
    pub id: JobId,
    pub key: BrickKey,
    pub merge: Merge,
    pub inputs: InputSnapshot,
}

#[derive(Clone, Debug)]
pub struct JobResult {
    pub id: JobId,
    pub key: BrickKey,
    pub deps: Dependencies,
    pub output: Option<BrickMesh>,
}

#[derive(Clone, Copy, Debug, PartialEq, Eq, Structural)]
pub enum Rejection {
    /// The target was dirtied again after this job was dispatched.
    Cancelled,
    /// A dependency changed since dispatch; `changed` is the first such brick.
    Stale { changed: BrickKey },
    /// Not an in-flight job of this pipeline (for example, a duplicate completion).
    UnknownJob,
}

#[derive(Clone, Copy, Debug, PartialEq, Eq, Structural)]
pub enum Completion {
    Accepted,
    Rejected(Rejection),
}

/// What one successful `try_publish` changed.
#[derive(Clone, Debug, PartialEq, Eq)]
pub struct Published {
    pub id: SnapshotId,
    /// Keys whose entry was added, replaced or removed, grouped by publication group.
    pub groups: Vec<Vec<BrickKey>>,
}

#[derive(Clone, Copy, Debug, PartialEq, Eq, Structural)]
pub struct Stats {
    pub dirtied: u64,
    pub coalesced: u64,
    pub overflow_deferred: u64,
    pub max_queue: usize,
    pub max_overflow: usize,
    pub groups_merged: u64,
    pub max_group_len: usize,
    pub dispatched: u64,
    pub accepted: u64,
    /// Accepted although an input version changed, because the relevant content did not.
    pub accepted_by_content: u64,
    pub rejected_cancelled: u64,
    pub rejected_stale: u64,
    pub rejected_stale_at_publish: u64,
    pub rejected_unknown: u64,
    pub staged_discarded: u64,
    pub publish_deferred: u64,
    pub published: u64,
    pub groups_published: u64,
    pub retired: u64,
    pub freed: u64,
}

impl Stats {
    pub open spec fn zero() -> Stats {
        Stats {
            dirtied: 0,
            coalesced: 0,
            overflow_deferred: 0,
            max_queue: 0,
            max_overflow: 0,
            groups_merged: 0,
            max_group_len: 0,
            dispatched: 0,
            accepted: 0,
            accepted_by_content: 0,
            rejected_cancelled: 0,
            rejected_stale: 0,
            rejected_stale_at_publish: 0,
            rejected_unknown: 0,
            staged_discarded: 0,
            publish_deferred: 0,
            published: 0,
            groups_published: 0,
            retired: 0,
            freed: 0,
        }
    }

    /// The counters of marked keys can still take `n` more.
    pub open spec fn fits_marks(&self, n: int) -> bool {
        &&& self.dirtied + self.accepted + n <= u64::MAX
        &&& self.coalesced + n <= u64::MAX
        &&& self.overflow_deferred + n <= u64::MAX
        &&& self.staged_discarded + n <= u64::MAX
    }

    /// Every counter can still take `n` more.
    pub open spec fn fits(&self, n: int) -> bool {
        &&& self.dirtied + self.accepted + n <= u64::MAX
        &&& self.coalesced + n <= u64::MAX
        &&& self.overflow_deferred + n <= u64::MAX
        &&& self.groups_merged + n <= u64::MAX
        &&& self.dispatched + n <= u64::MAX
        &&& self.accepted_by_content + n <= u64::MAX
        &&& self.rejected_cancelled + n <= u64::MAX
        &&& self.rejected_stale + n <= u64::MAX
        &&& self.rejected_stale_at_publish + n <= u64::MAX
        &&& self.rejected_unknown + n <= u64::MAX
        &&& self.staged_discarded + n <= u64::MAX
        &&& self.publish_deferred + n <= u64::MAX
        &&& self.published + n <= u64::MAX
        &&& self.groups_published + n <= u64::MAX
        &&& self.retired + n <= u64::MAX
        &&& self.freed + n <= u64::MAX
    }
}

impl Default for Stats {
    fn default() -> (r: Stats)
        ensures
            r == Stats::zero(),
    {
        Stats {
            dirtied: 0,
            coalesced: 0,
            overflow_deferred: 0,
            max_queue: 0,
            max_overflow: 0,
            groups_merged: 0,
            max_group_len: 0,
            dispatched: 0,
            accepted: 0,
            accepted_by_content: 0,
            rejected_cancelled: 0,
            rejected_stale: 0,
            rejected_stale_at_publish: 0,
            rejected_unknown: 0,
            staged_discarded: 0,
            publish_deferred: 0,
            published: 0,
            groups_published: 0,
            retired: 0,
            freed: 0,
        }
    }
}

/// An accepted result that waits for the rest of its group.
#[derive(Debug)]
pub struct Staged {
    pub handle: Option<Handle>,
    pub deps: Dependencies,
    /// World version at which `deps` was last found valid. Revalidation is needed only after the
    /// world moves on.
    pub validated_at: ContentVersion,
}

#[derive(Clone, Copy, Debug)]
pub struct InFlight {
    pub key: BrickKey,
    pub cancelled: bool,
}

/// The keys that wait for dispatch, and the counters that go with them.
pub struct Backlog {
    pub line: Seq<BrickKey>,
    pub spill: Set<BrickKey>,
    pub stats: Stats,
}

pub open spec fn larger(a: int, b: int) -> int {
    if a < b {
        b
    } else {
        a
    }
}

/// `b` after `k` was put in the queue.
pub open spec fn enqueued(b: Backlog, cap: int, k: BrickKey) -> Backlog {
    if b.line.contains(k) || b.spill.contains(k) {
        Backlog { stats: Stats { coalesced: (b.stats.coalesced + 1) as u64, ..b.stats }, ..b }
    } else if b.line.len() < cap {
        Backlog {
            line: b.line.push(k),
            stats: Stats { max_queue: larger(b.stats.max_queue as int, b.line.push(k).len() as int) as usize, ..b.stats },
            ..b
        }
    } else {
        Backlog {
            spill: b.spill.insert(k),
            stats: Stats {
                overflow_deferred: (b.stats.overflow_deferred + 1) as u64,
                max_overflow: larger(b.stats.max_overflow as int, b.spill.insert(k).len() as int) as usize,
                ..b.stats
            },
            ..b
        }
    }
}

/// `b` after the first `n` of `ks` were marked dirty, where `staged` are the staged keys.
pub open spec fn all_marked(b: Backlog, cap: int, staged: Set<BrickKey>, ks: Seq<BrickKey>, n: nat) -> Backlog
    decreases n,
{
    if n == 0 {
        b
    } else {
        let p = all_marked(b, cap, staged, ks, (n - 1) as nat);
        let counted = Stats {
            dirtied: (p.stats.dirtied + 1) as u64,
            staged_discarded: (p.stats.staged_discarded + if staged.contains(ks[n - 1]) {
                1int
            } else {
                0
            }) as u64,
            ..p.stats
        };
        enqueued(Backlog { stats: counted, ..p }, cap, ks[n - 1])
    }
}

/// `b` after the first `n` of `ks` were found stale at publication. A key with a running job is
/// not queued again.
pub open spec fn all_requeued(b: Backlog, cap: int, running: Set<BrickKey>, ks: Seq<BrickKey>, n: nat) -> Backlog
    decreases n,
{
    if n == 0 {
        b
    } else {
        let p = all_requeued(b, cap, running, ks, (n - 1) as nat);
        let q = Backlog {
            stats: Stats { rejected_stale_at_publish: (p.stats.rejected_stale_at_publish + 1) as u64, ..p.stats },
            ..p
        };
        if running.contains(ks[n - 1]) {
            q
        } else {
            enqueued(q, cap, ks[n - 1])
        }
    }
}

#[derive(Debug)]
pub struct Pipeline {
    cfg: Config,
    queue: WorkQueue,
    in_flight: SortedMap<u64, InFlight>,
    running: SortedMap<BrickKey, u64>,
    /// Members of unpublished groups; each member is either pending or staged.
    groups: Groups,
    pending: SortedMap<BrickKey, ()>,
    staged: SortedMap<BrickKey, Staged>,
    /// Groups that had a member staged since the last `try_publish`. Only these can have become
    /// ready: dirtying a key always un-stages it, so readiness arises only in `complete`.
    touched: SortedMap<u64, ()>,
    store: Store,
    next_job: u64,
    stats: Stats,
}

impl Pipeline {
    pub closed spec fn config(&self) -> Config {
        self.cfg
    }

    pub closed spec fn backlog(&self) -> Backlog {
        Backlog { line: self.queue.line(), spill: self.queue.spill(), stats: self.stats }
    }

    /// The jobs that were dispatched and not handed back.
    pub closed spec fn flights(&self) -> Map<u64, InFlight> {
        self.in_flight@
    }

    /// The job whose result each key waits for.
    pub closed spec fn running(&self) -> Map<BrickKey, u64> {
        self.running@
    }

    pub closed spec fn spec_groups(&self) -> Groups {
        self.groups
    }

    pub closed spec fn pending(&self) -> Set<BrickKey> {
        self.pending@.dom()
    }

    pub closed spec fn staged(&self) -> Map<BrickKey, Staged> {
        self.staged@
    }

    pub closed spec fn touched(&self) -> Set<u64> {
        self.touched@.dom()
    }

    pub closed spec fn spec_store(&self) -> Store {
        self.store
    }

    pub open spec fn spec_stats(&self) -> Stats {
        self.backlog().stats
    }

    /// `k` waits for dispatch.
    pub open spec fn waits(&self, k: BrickKey) -> bool {
        self.backlog().line.contains(k) || self.backlog().spill.contains(k)
    }

    /// `k` belongs to an unpublished group.
    pub open spec fn awaiting(&self, k: BrickKey) -> bool {
        self.spec_groups().of().dom().contains(k)
    }

    closed spec fn shaped(&self) -> bool {
        &&& self.queue.wf()
        &&& self.queue.limit() == self.cfg.queue_capacity
        &&& self.in_flight.wf()
        &&& self.running.wf()
        &&& self.groups.wf()
        &&& self.pending.wf()
        &&& self.staged.wf()
        &&& self.touched.wf()
        &&& self.store.wf()
        &&& self.store.spec_careless() == self.cfg.faults.retire_without_readers
        &&& 0 < self.cfg.queue_capacity
        &&& 0 < self.cfg.max_in_flight
    }

    /// A running job is in flight, for its key.
    closed spec fn jobs_known(&self) -> bool {
        &&& forall|id: u64| #[trigger] self.flights().dom().contains(id) ==> id < self.next_job
        &&& forall|k: BrickKey| #[trigger]
            self.running().dom().contains(k) ==> {
                &&& self.flights().dom().contains(self.running()[k])
                &&& self.flights()[self.running()[k]].key == k
                &&& !self.flights()[self.running()[k]].cancelled
            }
        &&& self.flights().dom().len() <= self.cfg.max_in_flight
    }

    /// Staged results are the pipeline's own, one for each key.
    closed spec fn results_kept(&self) -> bool {
        &&& forall|k: BrickKey| #[trigger]
            self.staged().dom().contains(k) ==> {
                &&& self.staged()[k].deps.wf()
                &&& self.staged()[k].deps.key() == k
                &&& self.awaiting(k)
                &&& (self.staged()[k].handle matches Some(h) ==> self.store.loose(h))
            }
        &&& forall|k: BrickKey, l: BrickKey|
            #[trigger] self.staged().dom().contains(k) && #[trigger] self.staged().dom().contains(l) && k != l
                && self.staged()[k].handle is Some ==> self.staged()[k].handle != self.staged()[l].handle
    }

    /// `h` is the result of a staged key.
    pub open spec fn stages(&self, h: Handle) -> bool {
        exists|k: BrickKey| #[trigger] self.staged().dom().contains(k) && self.staged()[k].handle == Some(h)
    }

    /// A live result that is in no snapshot and does not fade is staged.
    closed spec fn results_owned(&self) -> bool {
        forall|h: Handle| #[trigger] self.store.loose(h) ==> self.stages(h)
    }

    closed spec fn keys_inner(&self) -> bool {
        &&& forall|k: BrickKey| #[trigger] self.waits(k) ==> k.inner()
        &&& forall|k: BrickKey| #[trigger] self.store.table().dom().contains(k) ==> k.inner()
        &&& forall|id: u64| #[trigger] self.flights().dom().contains(id) ==> self.flights()[id].key.inner()
    }

    closed spec fn counted(&self) -> bool {
        &&& self.next_job == self.stats.dispatched
        &&& self.store.cur() == self.stats.published
        &&& self.groups.spec_next() <= self.stats.dirtied + self.stats.accepted
        &&& forall|g: u64| #[trigger] self.touched().contains(g) ==> g < self.groups.spec_next()
    }

    /// Nothing is lost: a member of a group is pending or staged, a pending key waits or has a
    /// running job, and a group whose members are all staged is a candidate for publication.
    pub open spec fn nothing_lost(&self) -> bool {
        &&& forall|k: BrickKey| #[trigger] self.awaiting(k) <==> self.pending().contains(k) || self.staged().dom().contains(k)
        &&& forall|k: BrickKey| #[trigger] self.pending().contains(k) ==> !self.staged().dom().contains(k)
        &&& forall|k: BrickKey| #[trigger] self.pending().contains(k) <==> self.waits(k) || self.running().dom().contains(k)
        &&& forall|k: BrickKey| #[trigger] self.running().dom().contains(k) ==> !self.waits(k)
        &&& forall|id: u64| #[trigger]
            self.flights().dom().contains(id) && !self.flights()[id].cancelled ==> self.running().dom().contains(
                self.flights()[id].key,
            ) && self.running()[self.flights()[id].key] == id
        &&& forall|g: u64| #[trigger] self.spec_groups().sets().dom().contains(g) && self.whole(g) ==> self.touched().contains(g)
    }

    /// Every member of group `g` is staged.
    pub open spec fn whole(&self, g: u64) -> bool {
        forall|k: BrickKey| #[trigger] self.spec_groups().sets()[g].contains(k) ==> self.staged().dom().contains(k)
    }

    pub closed spec fn wf(&self) -> bool {
        &&& self.shaped()
        &&& self.jobs_known()
        &&& self.results_kept()
        &&& self.results_owned()
        &&& self.keys_inner()
        &&& self.counted()
        &&& (!self.cfg.faults.skip_cancel ==> self.nothing_lost())
    }

    pub fn new(cfg: Config) -> (r: Pipeline)
        requires
            cfg.queue_capacity > 0,
            cfg.max_in_flight > 0,
        ensures
            r.wf(),
            r.config() == cfg,
            r.backlog() == (Backlog { line: Seq::empty(), spill: Set::empty(), stats: Stats::zero() }),
            r.flights() == Map::<u64, InFlight>::empty(),
            r.running() == Map::<BrickKey, u64>::empty(),
            r.spec_groups().sets() == Map::<u64, Set<BrickKey>>::empty(),
            r.spec_groups().of() == Map::<BrickKey, u64>::empty(),
            r.pending() == Set::<BrickKey>::empty(),
            r.staged() == Map::<BrickKey, Staged>::empty(),
            r.touched() == Set::<u64>::empty(),
            r.spec_store().meshes() == Map::<Handle, BrickMesh>::empty(),
            r.spec_store().issued() == 0,
            r.spec_store().table() == Map::<BrickKey, Entry>::empty(),
            r.spec_store().snaps().dom() == set![0u64],
            r.spec_store().snaps()[0].spec_version().number == 0,
            r.spec_store().holding() == Map::<u64, u64>::empty(),
            r.spec_store().fading() == Seq::<(u64, Handle)>::empty(),
            r.spec_store().readers_made() == 0,
            r.spec_store().cur() == 0,
            r.spec_store().pool_room(),
    {
        let r = Pipeline {
            cfg,
            queue: WorkQueue::new(cfg.queue_capacity),
            in_flight: SortedMap::new(),
            running: SortedMap::new(),
            groups: Groups::new(),
            pending: SortedMap::new(),
            staged: SortedMap::new(),
            touched: SortedMap::new(),
            store: Store::new(cfg.faults.retire_without_readers),
            next_job: 0,
            stats: Stats::default(),
        };
        proof {
            assert(r.pending() =~= Set::<BrickKey>::empty());
            assert(r.touched() =~= Set::<u64>::empty());
            assert(r.backlog().line =~= Seq::<BrickKey>::empty());
            assert(r.flights().dom() =~= Set::<u64>::empty());
        }
        r
    }
}

impl Pipeline {
    /// Everything that marking keys dirty needs and keeps.
    closed spec fn usable(&self) -> bool {
        &&& self.shaped()
        &&& self.jobs_known()
        &&& self.results_kept()
        &&& self.results_owned()
        &&& self.keys_inner()
    }

    /// `key` is put in the queue.
    fn enqueue(&mut self, key: BrickKey)
        requires
            old(self).usable(),
            old(self).stats.coalesced < u64::MAX,
            old(self).stats.overflow_deferred < u64::MAX,
            key.inner(),
        ensures
            final(self).usable(),
            final(self).cfg == old(self).cfg,
            final(self).in_flight == old(self).in_flight,
            final(self).running == old(self).running,
            final(self).groups == old(self).groups,
            final(self).pending == old(self).pending,
            final(self).staged == old(self).staged,
            final(self).touched == old(self).touched,
            final(self).store == old(self).store,
            final(self).next_job == old(self).next_job,
            final(self).backlog() == enqueued(old(self).backlog(), old(self).cfg.queue_capacity as int, key),
            forall|k: BrickKey| #[trigger] final(self).waits(k) <==> old(self).waits(k) || k == key,
    {
        let ghost before = *self;
        proof {
            self.queue.law_queue_is_bounded();
        }
        match self.queue.enqueue(key) {
            Enqueued::Coalesced => {
                self.stats.coalesced = self.stats.coalesced + 1;
            },
            Enqueued::Queued => {
                let n: usize = self.queue.queue_len();
                if self.stats.max_queue < n {
                    self.stats.max_queue = n;
                }
            },
            Enqueued::Deferred => {
                self.stats.overflow_deferred = self.stats.overflow_deferred + 1;
                let n: usize = self.queue.overflow_len();
                if self.stats.max_overflow < n {
                    self.stats.max_overflow = n;
                }
            },
        }
        proof {
            let a = before.backlog();
            let b = self.backlog();
            assert forall|k: BrickKey| #[trigger] self.waits(k) <==> before.waits(k) || k == key by {
                if b.line == a.line.push(key) {
                    if a.line.contains(k) {
                        let j = choose|j: int| 0 <= j < a.line.len() && a.line[j] == k;
                        assert(b.line[j] == k);
                    }
                    assert(b.line[a.line.len() as int] == key);
                    if b.line.contains(k) && k != key {
                        let j = choose|j: int| 0 <= j < b.line.len() && b.line[j] == k;
                        assert(a.line[j] == k);
                    }
                }
            }
            assert(self.keys_inner()) by {
                assert forall|k: BrickKey| #[trigger] self.waits(k) implies k.inner() by {
                    assert(before.waits(k) || k == key);
                }
                assert forall|id: u64| #[trigger] self.flights().dom().contains(id) implies self.flights()[id].key.inner() by {
                    assert(before.flights().dom().contains(id));
                }
            }
            assert(self.jobs_known()) by {
                assert(self.flights() == before.flights() && self.running() == before.running());
                assert forall|k: BrickKey| #[trigger] self.running().dom().contains(k) implies {
                    &&& self.flights().dom().contains(self.running()[k])
                    &&& self.flights()[self.running()[k]].key == k
                    &&& !self.flights()[self.running()[k]].cancelled
                } by {
                    assert(before.running().dom().contains(k));
                }
            }
            assert(self.results_kept()) by {
                self.lemma_results_kept(&before);
            }
        }
    }

    /// The same staged results, in a store where they are still the pipeline's own.
    proof fn lemma_results_kept(&self, before: &Pipeline)
        requires
            before.results_kept(),
            forall|k: BrickKey| #[trigger]
                self.staged().dom().contains(k) ==> before.staged().dom().contains(k) && self.staged()[k] == before.staged()[k],
            forall|k: BrickKey| #[trigger] before.awaiting(k) ==> self.awaiting(k),
            forall|k: BrickKey| #[trigger]
                self.staged().dom().contains(k) ==> (self.staged()[k].handle matches Some(h) ==> before.store.loose(h)
                    ==> self.store.loose(h)),
        ensures
            self.results_kept(),
    {
        assert forall|k: BrickKey| #[trigger] self.staged().dom().contains(k) implies {
            &&& self.staged()[k].deps.wf()
            &&& self.staged()[k].deps.key() == k
            &&& self.awaiting(k)
            &&& (self.staged()[k].handle matches Some(h) ==> self.store.loose(h))
        } by {
            assert(before.staged().dom().contains(k));
        }
        assert forall|k: BrickKey, l: BrickKey|
            #[trigger] self.staged().dom().contains(k) && #[trigger] self.staged().dom().contains(l) && k != l
                && self.staged()[k].handle is Some implies self.staged()[k].handle != self.staged()[l].handle by {
            assert(before.staged().dom().contains(k) && before.staged().dom().contains(l));
        }
    }

    /// The results that are still loose were so before, and are still staged.
    proof fn lemma_results_owned(&self, before: &Pipeline)
        requires
            before.results_owned(),
            forall|h: Handle| #[trigger] self.store.loose(h) ==> before.store.loose(h),
            forall|k: BrickKey| #[trigger]
                before.staged().dom().contains(k) ==> (before.staged()[k].handle matches Some(h) ==> self.store.loose(h)
                    ==> self.staged().dom().contains(k) && self.staged()[k].handle == Some(h)),
        ensures
            self.results_owned(),
    {
        assert forall|h: Handle| #[trigger] self.store.loose(h) implies self.stages(h) by {
            assert(before.store.loose(h));
            let k = choose|k: BrickKey| #[trigger] before.staged().dom().contains(k) && before.staged()[k].handle == Some(h);
            assert(self.staged().dom().contains(k));
        }
    }

    /// Job `id` is one that marking the first `n` of `ks` cancels.
    pub open spec fn cancels(&self, ks: Seq<BrickKey>, n: int, id: u64) -> bool {
        let k = self.flights()[id].key;
        !self.config().faults.skip_cancel && self.running().dom().contains(k) && self.running()[k] == id && among(ks, n, k)
    }

    /// `h` is a staged result that marking the first `n` of `ks` discards.
    pub open spec fn discards(&self, ks: Seq<BrickKey>, n: int, h: Handle) -> bool {
        exists|k: BrickKey| #[trigger] self.staged().dom().contains(k) && among(ks, n, k) && self.staged()[k].handle == Some(h)
    }

    /// What marking the first `n` of `ks` dirty does to keys, jobs and results.
    pub open spec fn dirtied(&self, before: &Pipeline, ks: Seq<BrickKey>, n: nat) -> bool {
        &&& self.config() == before.config()
        &&& self.touched() == before.touched()
        &&& forall|k: BrickKey| #[trigger] self.waits(k) <==> before.waits(k) || among(ks, n as int, k)
        &&& forall|k: BrickKey| #[trigger] self.pending().contains(k) <==> before.pending().contains(k) || among(ks, n as int, k)
        &&& forall|k: BrickKey| #[trigger]
            self.staged().dom().contains(k) <==> before.staged().dom().contains(k) && !among(ks, n as int, k)
        &&& forall|k: BrickKey| #[trigger] self.staged().dom().contains(k) ==> self.staged()[k] == before.staged()[k]
        &&& forall|k: BrickKey| #[trigger]
            self.running().dom().contains(k) <==> before.running().dom().contains(k) && (before.config().faults.skip_cancel
                || !among(ks, n as int, k))
        &&& forall|k: BrickKey| #[trigger] self.running().dom().contains(k) ==> self.running()[k] == before.running()[k]
        &&& self.flights().dom() == before.flights().dom()
        &&& forall|id: u64| #[trigger]
            self.flights().dom().contains(id) ==> self.flights()[id] == (InFlight {
                key: before.flights()[id].key,
                cancelled: before.flights()[id].cancelled || before.cancels(ks, n as int, id),
            })
        &&& self.spec_store().same_but_meshes(&before.spec_store())
        &&& self.spec_store().issued() == before.spec_store().issued()
        &&& self.spec_store().remembers(&before.spec_store())
        &&& forall|h: Handle| #[trigger]
            self.spec_store().meshes().dom().contains(h) <==> before.spec_store().meshes().dom().contains(h) && !before.discards(
                ks,
                n as int,
                h,
            )
        &&& forall|h: Handle| #[trigger]
            self.spec_store().meshes().dom().contains(h) ==> self.spec_store().meshes()[h] == before.spec_store().meshes()[h]
    }

    /// This is `before` after the first `n` of `ks` were marked dirty.
    pub open spec fn marked(&self, before: &Pipeline, ks: Seq<BrickKey>, n: nat) -> bool {
        &&& self.spec_groups() == before.spec_groups()
        &&& self.backlog() == all_marked(
            before.backlog(),
            before.config().queue_capacity as int,
            before.staged().dom(),
            ks,
            n,
        )
        &&& self.dirtied(before, ks, n)
    }

    /// This is `before` after `keys` were marked dirty as one publication group, merged with every
    /// unpublished group they touch.
    pub open spec fn batched(&self, before: &Pipeline, keys: Set<BrickKey>) -> bool {
        let old = before.spec_groups();
        let groups = self.spec_groups();
        let ks = in_order(keys);
        let counted = Stats {
            groups_merged: (before.backlog().stats.groups_merged + old.touching(keys).len()) as u64,
            max_group_len: larger(before.backlog().stats.max_group_len as int, old.merged(keys).len() as int) as usize,
            ..before.backlog().stats
        };
        if keys == Set::<BrickKey>::empty() {
            *self == *before
        } else {
            &&& groups.spec_next() == old.spec_next() + 1
            &&& groups.sets() == old.sets().remove_keys(old.touching(keys)).insert(old.spec_next(), old.merged(keys))
            &&& forall|k: BrickKey| #[trigger] self.awaiting(k) <==> before.awaiting(k) || keys.contains(k)
            &&& self.backlog() == all_marked(
                Backlog { stats: counted, ..before.backlog() },
                before.config().queue_capacity as int,
                before.staged().dom(),
                ks,
                ks.len(),
            )
            &&& self.dirtied(before, ks, ks.len())
        }
    }
}

impl Pipeline {
    fn mark_dirty(&mut self, key: BrickKey)
        requires
            old(self).usable(),
            old(self).stats.fits_marks(1),
            key.inner(),
        ensures
            final(self).usable(),
            final(self).marked(old(self), seq![key], 1),
            final(self).next_job == old(self).next_job,
            final(self).stats.dirtied == old(self).stats.dirtied + 1,
            final(self).stats.accepted == old(self).stats.accepted,
            final(self).stats.dispatched == old(self).stats.dispatched,
            final(self).stats.published == old(self).stats.published,
            forall|m: int| 0 <= m && #[trigger] old(self).stats.fits_marks(m + 1) ==> final(self).stats.fits_marks(m),
            old(self).store.pool_room() ==> final(self).store.pool_room(),
    {
        let ghost before = *self;
        self.stats.dirtied = self.stats.dirtied + 1;
        self.pending.insert(key, ());
        if !self.cfg.faults.skip_cancel {
            if let Some(id) = self.running.remove(&key) {
                assert(before.running().dom().contains(key));
                self.in_flight.insert(id, InFlight { key, cancelled: true });
            }
        }
        if let Some(s) = self.staged.remove(&key) {
            // Never published, so no reader can hold it: free immediately.
            assert(before.staged().dom().contains(key));
            self.stats.staged_discarded = self.stats.staged_discarded + 1;
            if let Some(h) = s.handle {
                self.store.discard(h);
            }
        }
        let ghost mid = *self;
        let ghost ks = seq![key];
        proof {
            assert forall|k: BrickKey| #[trigger] among(ks, 1, k) <==> k == key by {
                assert(ks[0] == key);
            }
            assert(mid.flights().dom() =~= before.flights().dom()) by {
                if before.running().dom().contains(key) {
                    assert(before.flights().dom().contains(before.running()[key]));
                }
            }
            assert(mid.backlog().line == before.backlog().line && mid.backlog().spill == before.backlog().spill);
            assert forall|k: BrickKey| #[trigger] mid.waits(k) == before.waits(k) by {}
            assert forall|k: BrickKey| #[trigger] mid.running().dom().contains(k) implies before.running().dom().contains(k)
                && mid.running()[k] == before.running()[k] by {}
            assert(mid.jobs_known()) by {
                assert forall|id: u64| #[trigger] mid.flights().dom().contains(id) implies id < mid.next_job by {
                    assert(before.flights().dom().contains(id));
                }
                assert forall|k: BrickKey| #[trigger] mid.running().dom().contains(k) implies {
                    &&& mid.flights().dom().contains(mid.running()[k])
                    &&& mid.flights()[mid.running()[k]].key == k
                    &&& !mid.flights()[mid.running()[k]].cancelled
                } by {
                    assert(before.running().dom().contains(k));
                    if before.running().dom().contains(key) && !mid.cfg.faults.skip_cancel {
                        assert(before.flights()[before.running()[key]].key == key);
                    }
                }
            }
            assert(mid.results_kept()) by {
                assert forall|k: BrickKey| #[trigger] mid.staged().dom().contains(k) implies before.staged().dom().contains(k)
                    && mid.staged()[k] == before.staged()[k] && (mid.staged()[k].handle matches Some(h) ==> before.store.loose(h)
                    ==> mid.store.loose(h)) by {
                    if before.staged().dom().contains(key) {
                        assert(before.staged()[k].handle is Some ==> before.staged()[k].handle != before.staged()[key].handle);
                    }
                }
                mid.lemma_results_kept(&before);
            }
            mid.lemma_results_owned(&before);
            assert(mid.store.table() == before.store.table());
            assert(mid.keys_inner()) by {
                assert forall|k: BrickKey| #[trigger] mid.waits(k) implies k.inner() by {
                    assert(before.waits(k));
                }
                assert forall|id: u64| #[trigger] mid.flights().dom().contains(id) implies mid.flights()[id].key.inner() by {
                    assert(before.flights().dom().contains(id));
                }
            }
        }
        self.enqueue(key);
        proof {
            reveal_with_fuel(all_marked, 2);
            assert(self.flights() == mid.flights() && self.running() == mid.running() && self.staged() == mid.staged());
            assert(self.pending() =~= before.pending().insert(key));
            assert forall|k: BrickKey| #[trigger] self.waits(k) <==> before.waits(k) || among(ks, 1, k) by {
                assert(self.waits(k) <==> mid.waits(k) || k == key);
            }
            assert forall|id: u64| #[trigger] self.flights().dom().contains(id) implies self.flights()[id] == (InFlight {
                key: before.flights()[id].key,
                cancelled: before.flights()[id].cancelled || before.cancels(ks, 1, id),
            }) by {
                if before.running().dom().contains(key) {
                    assert(before.flights()[before.running()[key]].key == key);
                }
            }
            assert forall|h: Handle| before.discards(ks, 1, h) <==> before.staged().dom().contains(key) && before.staged()[key].handle
                == Some(h) by {
                if before.discards(ks, 1, h) {
                    let k = choose|k: BrickKey| #[trigger]
                        before.staged().dom().contains(k) && among(ks, 1, k) && before.staged()[k].handle == Some(h);
                }
            }
        }
    }

    /// Marking in turn is marking together.
    proof fn lemma_marked_chain(before: &Pipeline, mid: &Pipeline, after: &Pipeline, ks: Seq<BrickKey>, n: nat)
        requires
            n < ks.len(),
            increasing(ks),
            before.jobs_known(),
            before.results_kept(),
            mid.marked(before, ks, n),
            after.marked(mid, seq![ks[n as int]], 1),
        ensures
            after.marked(before, ks, n + 1),
    {
        reveal_with_fuel(all_marked, 2);
        let one = seq![ks[n as int]];
        let key = ks[n as int];
        lemma_among(ks, n as int);
        assert forall|k: BrickKey| #[trigger] among(one, 1, k) <==> k == key by {
            assert(one[0] == key);
        }
        assert(!among(ks, n as int, key)) by {
            if among(ks, n as int, key) {
                let j = choose|j: int| 0 <= j < n && #[trigger] ks[j] == key;
                assert(ks[j].lt(ks[n as int]));
                BrickKey::lt_irreflexive(key);
            }
        }
        assert(mid.staged().dom().contains(key) == before.staged().dom().contains(key));
        let m = all_marked(before.backlog(), before.config().queue_capacity as int, before.staged().dom(), ks, n);
        assert(mid.backlog() == m);
        assert(after.backlog() == all_marked(before.backlog(), before.config().queue_capacity as int, before.staged().dom(), ks, n + 1));
        assert forall|k: BrickKey| #[trigger] after.waits(k) <==> before.waits(k) || among(ks, (n + 1) as int, k) by {
            assert(after.waits(k) <==> mid.waits(k) || among(one, 1, k));
        }
        assert forall|k: BrickKey| #[trigger] after.pending().contains(k) <==> before.pending().contains(k) || among(ks, (n + 1) as int, k) by {
            assert(after.pending().contains(k) <==> mid.pending().contains(k) || among(one, 1, k));
        }
        assert forall|k: BrickKey| #[trigger] after.staged().dom().contains(k) <==> before.staged().dom().contains(k) && !among(
            ks,
            (n + 1) as int,
            k,
        ) by {
            assert(after.staged().dom().contains(k) <==> mid.staged().dom().contains(k) && !among(one, 1, k));
        }
        assert forall|k: BrickKey| #[trigger] after.staged().dom().contains(k) implies after.staged()[k] == before.staged()[k] by {
            assert(mid.staged().dom().contains(k));
        }
        assert forall|k: BrickKey| #[trigger] after.running().dom().contains(k) <==> before.running().dom().contains(k) && (
        before.config().faults.skip_cancel || !among(ks, (n + 1) as int, k)) by {
            assert(mid.running().dom().contains(k) <==> before.running().dom().contains(k) && (before.config().faults.skip_cancel
                || !among(ks, n as int, k)));
        }
        assert forall|k: BrickKey| #[trigger] after.running().dom().contains(k) implies after.running()[k] == before.running()[k] by {
            assert(mid.running().dom().contains(k));
        }
        assert forall|id: u64| #[trigger] after.flights().dom().contains(id) implies after.flights()[id] == (InFlight {
            key: before.flights()[id].key,
            cancelled: before.flights()[id].cancelled || before.cancels(ks, (n + 1) as int, id),
        }) by {
            assert(mid.flights().dom().contains(id));
            let k = before.flights()[id].key;
            assert(mid.running().dom().contains(k) <==> before.running().dom().contains(k) && (before.config().faults.skip_cancel
                || !among(ks, n as int, k)));
            assert(mid.cancels(one, 1, id) <==> before.cancels(ks, (n + 1) as int, id) && !before.cancels(ks, n as int, id));
        }
        assert forall|h: Handle| #[trigger] after.spec_store().meshes().dom().contains(h) <==> before.spec_store().meshes().dom().contains(
            h,
        ) && !before.discards(ks, (n + 1) as int, h) by {
            assert(mid.spec_store().meshes().dom().contains(h) <==> before.spec_store().meshes().dom().contains(h) && !before.discards(
                ks,
                n as int,
                h,
            ));
            if before.discards(ks, (n + 1) as int, h) {
                let k = choose|k: BrickKey| #[trigger]
                    before.staged().dom().contains(k) && among(ks, (n + 1) as int, k) && before.staged()[k].handle == Some(h);
                if k == key {
                    assert(mid.staged().dom().contains(k));
                    assert(mid.discards(one, 1, h));
                } else {
                    assert(before.discards(ks, n as int, h));
                }
            }
            if before.discards(ks, n as int, h) {
                let k = choose|k: BrickKey| #[trigger]
                    before.staged().dom().contains(k) && among(ks, n as int, k) && before.staged()[k].handle == Some(h);
                assert(among(ks, (n + 1) as int, k));
            }
            if mid.discards(one, 1, h) {
                let k = choose|k: BrickKey| #[trigger]
                    mid.staged().dom().contains(k) && among(one, 1, k) && mid.staged()[k].handle == Some(h);
                assert(before.staged().dom().contains(k) && among(ks, (n + 1) as int, k));
            }
        }
        assert forall|h: Handle| #[trigger] after.spec_store().meshes().dom().contains(h) implies after.spec_store().meshes()[h]
            == before.spec_store().meshes()[h] by {
            assert(mid.spec_store().meshes().dom().contains(h));
        }
    }
}

impl Pipeline {
    /// The counters have room for marking `keys`.
    pub open spec fn room_to_mark(&self, keys: Set<BrickKey>) -> bool {
        self.spec_stats().fits(keys.len() as int)
    }

    /// Marks `keys` pending as one publication group.
    fn mark_set(&mut self, keys: &SortedMap<BrickKey, ()>)
        requires
            old(self).wf(),
            keys.wf(),
            old(self).room_to_mark(keys@.dom()),
            forall|k: BrickKey| #[trigger] keys@.dom().contains(k) ==> k.inner(),
        ensures
            final(self).wf(),
            final(self).batched(old(self), keys@.dom()),
            old(self).store.pool_room() ==> final(self).store.pool_room(),
    {
        let ghost before = *self;
        let ghost set = keys@.dom();
        proof {
            keys.lemma_order();
            law_order_is_unique(keys.keys(), keys.keys());
        }
        let n: usize = keys.len();
        if n == 0 {
            assert(set =~= Set::<BrickKey>::empty());
            return;
        }
        proof {
            assert(set.contains(keys.keys()[0]));
            before.groups.lemma_touching_bound(set);
        }
        let (merged, size) = self.groups.merge(keys);
        self.stats.groups_merged = self.stats.groups_merged + merged;
        if self.stats.max_group_len < size {
            self.stats.max_group_len = size;
        }
        let ghost mid = *self;
        let ghost ks = keys.keys();
        proof {
            assert forall|k: BrickKey| #[trigger] before.awaiting(k) implies mid.awaiting(k) by {}
            assert(mid.flights() == before.flights() && mid.running() == before.running() && mid.staged() == before.staged());
            assert(mid.backlog().line == before.backlog().line && mid.backlog().spill == before.backlog().spill);
            assert(mid.jobs_known()) by {
                assert forall|k: BrickKey| #[trigger] mid.running().dom().contains(k) implies {
                    &&& mid.flights().dom().contains(mid.running()[k])
                    &&& mid.flights()[mid.running()[k]].key == k
                    &&& !mid.flights()[mid.running()[k]].cancelled
                } by {
                    assert(before.running().dom().contains(k));
                }
            }
            assert(mid.results_kept()) by {
                mid.lemma_results_kept(&before);
            }
            mid.lemma_results_owned(&before);
            assert(mid.keys_inner()) by {
                assert forall|k: BrickKey| #[trigger] mid.waits(k) implies k.inner() by {
                    assert(before.waits(k));
                }
                assert forall|id: u64| #[trigger] mid.flights().dom().contains(id) implies mid.flights()[id].key.inner() by {
                    assert(before.flights().dom().contains(id));
                }
            }
            assert(mid.dirtied(&mid, ks, 0)) by {
                assert forall|h: Handle| !mid.discards(ks, 0, h) by {}
            }
            assert(mid.marked(&mid, ks, 0));
        }
        let mut i: usize = 0;
        while i < n
            invariant
                i <= n,
                n == ks.len(),
                ks == keys.keys(),
                keys.wf(),
                keys@.dom() == ks.to_set(),
                forall|k: BrickKey| #[trigger] keys@.dom().contains(k) ==> k.inner(),
                mid.jobs_known(),
                mid.results_kept(),
                self.usable(),
                self.marked(&mid, ks, i as nat),
                self.next_job == mid.next_job,
                self.stats.fits_marks(n - i),
                self.stats.dirtied == mid.stats.dirtied + i,
                self.stats.accepted == mid.stats.accepted,
                self.stats.dispatched == mid.stats.dispatched,
                self.stats.published == mid.stats.published,
                mid.store.pool_room() ==> self.store.pool_room(),
            decreases n - i,
        {
            let k = keys.key_at(i);
            proof {
                assert(ks[i as int] == k);
                assert(ks.to_set().contains(k));
                assert(self.stats.fits_marks((n - i - 1) + 1));
            }
            let ghost prior = *self;
            self.mark_dirty(k);
            proof {
                Pipeline::lemma_marked_chain(&mid, &prior, self, ks, i as nat);
            }
            i += 1;
        }
        proof {
            assert forall|k: BrickKey| #[trigger] among(ks, n as int, k) <==> set.contains(k) by {
                assert(ks.to_set().contains(k) == ks.contains(k));
                if ks.contains(k) {
                    let j = choose|j: int| 0 <= j < ks.len() && ks[j] == k;
                    assert(among(ks, n as int, k));
                }
            }
            assert(in_order(set) == ks);
            assert(self.dirtied(&before, ks, n as nat)) by {
                assert forall|k: BrickKey| #[trigger] self.waits(k) <==> before.waits(k) || among(ks, n as int, k) by {
                    assert(mid.waits(k) == before.waits(k));
                }
                assert forall|id: u64| #[trigger] self.flights().dom().contains(id) implies self.flights()[id] == (InFlight {
                    key: before.flights()[id].key,
                    cancelled: before.flights()[id].cancelled || before.cancels(ks, n as int, id),
                }) by {
                    assert(mid.cancels(ks, n as int, id) == before.cancels(ks, n as int, id));
                }
                assert forall|h: Handle| mid.discards(ks, n as int, h) == before.discards(ks, n as int, h) by {}
                assert(self.pending() =~= mid.pending().union(set));
            }
            assert forall|k: BrickKey| #[trigger] self.awaiting(k) <==> before.awaiting(k) || set.contains(k) by {
                assert(mid.groups.of().dom().contains(k) <==> before.groups.of().dom().contains(k) || set.contains(k));
            }
            assert(self.batched(&before, set));
            if !self.cfg.faults.skip_cancel {
                self.lemma_batch_loses_nothing(&before, set);
            }
        }
    }

    proof fn lemma_batch_loses_nothing(&self, before: &Pipeline, keys: Set<BrickKey>)
        requires
            before.wf(),
            self.batched(before, keys),
            keys != Set::<BrickKey>::empty(),
            keys.finite(),
            increasing(in_order(keys)),
            in_order(keys).to_set() == keys,
            !before.config().faults.skip_cancel,
        ensures
            self.nothing_lost(),
    {
        let ks = in_order(keys);
        let n = ks.len();
        assert forall|k: BrickKey| #[trigger] among(ks, n as int, k) <==> keys.contains(k) by {
            assert(ks.to_set().contains(k) == ks.contains(k));
            if ks.contains(k) {
                let j = choose|j: int| 0 <= j < ks.len() && ks[j] == k;
                assert(among(ks, n as int, k));
            }
        }
        assert forall|k: BrickKey| #[trigger] self.awaiting(k) <==> self.pending().contains(k) || self.staged().dom().contains(k) by {
            assert(before.awaiting(k) <==> before.pending().contains(k) || before.staged().dom().contains(k));
        }
        assert forall|k: BrickKey| #[trigger] self.pending().contains(k) implies !self.staged().dom().contains(k) by {
            if !keys.contains(k) {
                assert(before.pending().contains(k));
            }
        }
        assert forall|k: BrickKey| #[trigger] self.pending().contains(k) <==> self.waits(k) || self.running().dom().contains(k) by {
            assert(before.pending().contains(k) <==> before.waits(k) || before.running().dom().contains(k));
        }
        assert forall|k: BrickKey| #[trigger] self.running().dom().contains(k) implies !self.waits(k) by {
            assert(before.running().dom().contains(k));
        }
        assert forall|id: u64| #[trigger] self.flights().dom().contains(id) && !self.flights()[id].cancelled implies self.running().dom().contains(
            self.flights()[id].key,
        ) && self.running()[self.flights()[id].key] == id by {
            assert(before.flights().dom().contains(id));
            let k = before.flights()[id].key;
            assert(before.running().dom().contains(k) && before.running()[k] == id);
            assert(!before.cancels(ks, n as int, id));
        }
        let old = before.spec_groups();
        assert forall|g: u64| #[trigger] self.spec_groups().sets().dom().contains(g) && self.whole(g) implies self.touched().contains(g) by {
            if g == old.spec_next() {
                let k = choose|k: BrickKey| keys.contains(k);
                assert(exists|k: BrickKey| keys.contains(k)) by {
                    if forall|k: BrickKey| !keys.contains(k) {
                        assert(keys =~= Set::<BrickKey>::empty());
                    }
                }
                assert(self.spec_groups().sets()[g].contains(k));
                assert(!self.staged().dom().contains(k));
            } else {
                assert(old.sets().dom().contains(g));
                assert(self.spec_groups().sets()[g] == old.sets()[g]);
                assert forall|k: BrickKey| #[trigger] old.sets()[g].contains(k) implies before.staged().dom().contains(k) by {
                    assert(self.spec_groups().sets()[g].contains(k));
                    assert(self.staged().dom().contains(k));
                }
                assert(before.whole(g));
            }
        }
    }
}

/// The bricks that a batch of edits dirties. With the fault, only the edited bricks themselves.
pub open spec fn dirtied_by(changed: Seq<VoxelCoord>, n: int, skip_neighbours: bool) -> Set<BrickKey> {
    Set::new(
        |k: BrickKey|
            exists|i: int|
                0 <= i < n && if skip_neighbours {
                    (#[trigger] changed[i]).key() == k
                } else {
                    spec_affected_keys(changed[i]).contains(k)
                },
    )
}

/// Adds `list` to `keys`.
fn add_keys(keys: &mut SortedMap<BrickKey, ()>, list: &Vec<BrickKey>)
    requires
        old(keys).wf(),
    ensures
        final(keys).wf(),
        final(keys)@.dom() == old(keys)@.dom().union(list@.to_set()),
        final(keys)@.dom().len() <= old(keys)@.dom().len() + list@.len(),
{
    let ghost before = keys@.dom();
    proof {
        keys.lemma_order();
    }
    let mut i: usize = 0;
    while i < list.len()
        invariant
            i <= list@.len(),
            keys.wf(),
            keys@.dom().finite(),
            keys@.dom().len() <= before.len() + i,
            keys@.dom() =~= before.union(list@.take(i as int).to_set()),
        decreases list@.len() - i,
    {
        let ghost prior = list@.take(i as int);
        let ghost next = list@.take(i + 1);
        proof {
            assert(next =~= prior.push(list@[i as int]));
            assert forall|k: BrickKey| next.to_set().contains(k) <==> prior.to_set().contains(k) || k == list@[i as int] by {
                if prior.contains(k) {
                    let j = choose|j: int| 0 <= j < prior.len() && prior[j] == k;
                    assert(next[j] == k);
                }
                assert(next[i as int] == list@[i as int]);
                if next.contains(k) && k != list@[i as int] {
                    let j = choose|j: int| 0 <= j < next.len() && next[j] == k;
                    assert(prior[j] == k);
                }
            }
        }
        keys.insert(list[i], ());
        i += 1;
    }
    assert(list@.take(list@.len() as int) =~= list@);
}

impl Pipeline {
    /// Marks `keys` pending as one publication group, merged with any unpublished group they touch.
    pub fn mark_batch(&mut self, keys: &Vec<BrickKey>)
        requires
            old(self).wf(),
            old(self).spec_stats().fits(keys@.len() as int),
            forall|i: int| 0 <= i < keys@.len() ==> (#[trigger] keys@[i]).inner(),
        ensures
            final(self).wf(),
            final(self).goes_on(old(self)),
            final(self).batched(old(self), keys@.to_set()),
            old(self).spec_store().pool_room() ==> final(self).spec_store().pool_room(),
    {
        let ghost before = *self;
        let mut set: SortedMap<BrickKey, ()> = SortedMap::new();
        assert(set@.dom() =~= Set::<BrickKey>::empty());
        add_keys(&mut set, keys);
        assert(set@.dom() =~= keys@.to_set());
        self.mark_set(&set);
        proof {
            self.lemma_batched_goes_on(&before, keys@.to_set());
        }
    }

    /// One batch covering every brick currently in the world and every key in the current snapshot.
    pub fn mark_all(&mut self, world: &World)
        requires
            old(self).wf(),
            world.wf(),
            old(self).spec_stats().fits((world.map().dom().len() + old(self).spec_store().table().dom().len()) as int),
        ensures
            final(self).wf(),
            final(self).goes_on(old(self)),
            final(self).batched(old(self), world.map().dom().union(old(self).spec_store().table().dom())),
            old(self).spec_store().pool_room() ==> final(self).spec_store().pool_room(),
    {
        let ghost before = *self;
        let mut set: SortedMap<BrickKey, ()> = SortedMap::new();
        assert(set@.dom() =~= Set::<BrickKey>::empty());
        let bricks = world.brick_keys();
        let shown = self.store.current().keys();
        add_keys(&mut set, &bricks);
        add_keys(&mut set, &shown);
        proof {
            let keys = world.map().dom().union(self.store.table().dom());
            assert(set@.dom() =~= keys);
            lemma_increasing_set_len(bricks@);
            lemma_increasing_set_len(shown@);
            assert forall|k: BrickKey| #[trigger] set@.dom().contains(k) implies k.inner() by {
                if !self.store.table().dom().contains(k) {
                    assert(world.map().dom().contains(k));
                }
            }
        }
        self.mark_set(&set);
        proof {
            self.lemma_batched_goes_on(&before, world.map().dom().union(before.store.table().dom()));
        }
    }

    /// Call after changing these voxels in the world. The whole call is one edit batch.
    pub fn notify_edits(&mut self, changed: &[VoxelCoord])
        requires
            old(self).wf(),
            old(self).spec_stats().fits((4 * changed@.len()) as int),
            forall|i: int| 0 <= i < changed@.len() ==> (#[trigger] changed@[i]).in_bounds(),
        ensures
            final(self).wf(),
            final(self).goes_on(old(self)),
            final(self).batched(
                old(self),
                dirtied_by(changed@, changed@.len() as int, old(self).config().faults.skip_neighbour_dirty),
            ),
            old(self).spec_store().pool_room() ==> final(self).spec_store().pool_room(),
    {
        let ghost before = *self;
        let mut set: SortedMap<BrickKey, ()> = SortedMap::new();
        let skip = self.cfg.faults.skip_neighbour_dirty;
        assert(set@.dom() =~= dirtied_by(changed@, 0, skip));
        assert(set@.dom() =~= Set::<BrickKey>::empty());
        let mut i: usize = 0;
        while i < changed.len()
            invariant
                i <= changed@.len(),
                set.wf(),
                set@.dom() =~= dirtied_by(changed@, i as int, skip),
                set@.dom().len() <= 4 * i,
                forall|j: int| 0 <= j < changed@.len() ==> (#[trigger] changed@[j]).in_bounds(),
                forall|k: BrickKey| #[trigger] set@.dom().contains(k) ==> k.inner(),
            decreases changed@.len() - i,
        {
            let v = changed[i];
            let mut list: Vec<BrickKey> = Vec::new();
            if skip {
                list.push(v.split().0);
                assert(list@ =~= seq![v.key()]);
            } else {
                list = affected_keys(v);
            }
            let ghost prior = set@.dom();
            add_keys(&mut set, &list);
            proof {
                assert(changed@[i as int].in_bounds());
                lemma_affected_inner(v);
                assert forall|k: BrickKey| #[trigger] set@.dom().contains(k) <==> dirtied_by(changed@, i + 1, skip).contains(k) by {
                    assert(set@.dom().contains(k) <==> prior.contains(k) || list@.contains(k));
                    assert(list@.contains(k) <==> if skip {
                        changed@[i as int].key() == k
                    } else {
                        spec_affected_keys(changed@[i as int]).contains(k)
                    }) by {
                        if skip {
                            assert(list@[0] == v.key());
                        }
                    }
                    if prior.contains(k) {
                        let j = choose|j: int|
                            0 <= j < i && if skip {
                                (#[trigger] changed@[j]).key() == k
                            } else {
                                spec_affected_keys(changed@[j]).contains(k)
                            };
                        assert(changed@[j] == changed@[j]);
                    }
                    if dirtied_by(changed@, i + 1, skip).contains(k) {
                        let j = choose|j: int|
                            0 <= j < i + 1 && if skip {
                                (#[trigger] changed@[j]).key() == k
                            } else {
                                spec_affected_keys(changed@[j]).contains(k)
                            };
                        if j < i {
                            assert(prior.contains(k));
                        }
                    }
                }
                assert forall|k: BrickKey| #[trigger] set@.dom().contains(k) implies k.inner() by {
                    if !prior.contains(k) {
                        assert(list@.contains(k));
                        let j = choose|j: int| 0 <= j < list@.len() && list@[j] == k;
                        if skip {
                            assert(k == spec_affected_keys(v)[0]);
                        }
                    }
                }
            }
            i += 1;
        }
        self.mark_set(&set);
        proof {
            self.lemma_batched_goes_on(&before, dirtied_by(changed@, changed@.len() as int, skip));
        }
    }
}

/// The backlog after `n` keys were taken from it.
pub open spec fn after_pops(line: Seq<BrickKey>, spill: Set<BrickKey>, n: nat) -> (Seq<BrickKey>, Set<BrickKey>)
    decreases n,
{
    if n == 0 {
        (line, spill)
    } else {
        let p = after_pops(line, spill, (n - 1) as nat);
        popped(p.0, p.1)
    }
}

/// The pending keys among the first `n` taken. A key that is not pending is passed over.
pub open spec fn taken(line: Seq<BrickKey>, spill: Set<BrickKey>, pending: Set<BrickKey>, n: nat) -> Seq<BrickKey>
    decreases n,
{
    if n == 0 {
        Seq::empty()
    } else {
        let before = taken(line, spill, pending, (n - 1) as nat);
        let head = after_pops(line, spill, (n - 1) as nat).0[0];
        if pending.contains(head) {
            before.push(head)
        } else {
            before
        }
    }
}

impl Pipeline {
    /// After `n` keys were taken from the backlog, `jobs` are out.
    pub open spec fn dispatched(&self, before: &Pipeline, jobs: Seq<Job>, n: nat) -> bool {
        let b = before.backlog();
        &&& self.config() == before.config()
        &&& self.spec_groups() == before.spec_groups()
        &&& self.pending() == before.pending()
        &&& self.staged() == before.staged()
        &&& self.touched() == before.touched()
        &&& self.spec_store() == before.spec_store()
        &&& (self.backlog().line, self.backlog().spill) == after_pops(b.line, b.spill, n)
        &&& self.backlog().stats == (Stats { dispatched: (b.stats.dispatched + jobs.len()) as u64, ..b.stats })
        &&& jobs.len() == taken(b.line, b.spill, before.pending(), n).len()
        &&& forall|i: int|
            0 <= i < jobs.len() ==> {
                &&& (#[trigger] jobs[i]).key == taken(b.line, b.spill, before.pending(), n)[i]
                &&& jobs[i].id.number == b.stats.dispatched + i
                &&& jobs[i].merge == before.config().merge
            }
        &&& forall|id: u64| #[trigger]
            self.flights().dom().contains(id) <==> before.flights().dom().contains(id) || b.stats.dispatched <= id < b.stats.dispatched
                + jobs.len()
        &&& forall|id: u64| #[trigger] before.flights().dom().contains(id) ==> self.flights()[id] == before.flights()[id]
        &&& forall|i: int|
            0 <= i < jobs.len() ==> {
                &&& self.flights()[(#[trigger] jobs[i]).id.number] == (InFlight { key: jobs[i].key, cancelled: false })
                &&& self.running().dom().contains(jobs[i].key)
                &&& self.running()[jobs[i].key] == jobs[i].id.number
            }
        &&& forall|k: BrickKey| #[trigger]
            self.running().dom().contains(k) ==> (exists|i: int| 0 <= i < jobs.len() && (#[trigger] jobs[i]).key == k) || (
            before.running().dom().contains(k) && self.running()[k] == before.running()[k])
        &&& forall|k: BrickKey| #[trigger] before.running().dom().contains(k) ==> self.running().dom().contains(k)
    }

    /// How many keys wait.
    pub open spec fn waiting(&self) -> nat {
        self.backlog().line.len() + self.backlog().spill.len()
    }

    /// Takes one key from the backlog; its job, unless the key is not pending.
    fn dispatch_one(&mut self, world: &World) -> (r: Option<Option<Job>>)
        requires
            old(self).wf(),
            world.wf(),
            old(self).stats.dispatched < u64::MAX,
            old(self).flights().dom().len() < old(self).cfg.max_in_flight,
        ensures
            final(self).wf(),
            match r {
                None => {
                    &&& old(self).backlog().line.len() == 0
                    &&& final(self).dispatched(old(self), Seq::empty(), 0)
                    &&& forall|k: BrickKey| #[trigger] final(self).waits(k) == old(self).waits(k)
                },
                Some(None) => {
                    &&& old(self).backlog().line.len() > 0
                    &&& !old(self).pending().contains(old(self).backlog().line[0])
                    &&& final(self).dispatched(old(self), Seq::empty(), 1)
                    &&& final(self).waiting() + 1 == old(self).waiting()
                    &&& forall|k: BrickKey| #[trigger]
                        final(self).waits(k) <==> old(self).waits(k) && k != old(self).backlog().line[0]
                },
                Some(Some(job)) => {
                    &&& old(self).backlog().line.len() > 0
                    &&& job.key == old(self).backlog().line[0]
                    &&& old(self).pending().contains(job.key)
                    &&& final(self).dispatched(old(self), seq![job], 1)
                    &&& final(self).waiting() + 1 == old(self).waiting()
                    &&& job.inputs.wf()
                    &&& job.inputs.of(world, job.key)
                    &&& final(self).flights().dom().len() == old(self).flights().dom().len() + 1
                    &&& forall|k: BrickKey| #[trigger] final(self).waits(k) <==> old(self).waits(k) && k != job.key
                },
            },
    {
        let ghost before = *self;
        let ghost b = before.backlog();
        proof {
            reveal_with_fuel(taken, 2);
            reveal_with_fuel(after_pops, 2);
            self.in_flight.lemma_order();
        }
        let key = match self.queue.pop() {
            None => {
                proof {
                    assert(self.backlog().line == b.line && self.backlog().spill == b.spill);
                    assert(self.flights() == before.flights() && self.running() == before.running());
                    assert forall|k: BrickKey| #[trigger] self.waits(k) == before.waits(k) by {}
                    self.lemma_same_jobs(&before);
                    assert(self.counted()) by {
                        assert forall|g: u64| #[trigger] self.touched().contains(g) implies g < self.groups.spec_next() by {
                            assert(before.touched().contains(g));
                        }
                    }
                    if !self.cfg.faults.skip_cancel {
                        self.lemma_same_tracking(&before);
                    }
                }
                return None;
            },
            Some(key) => key,
        };
        assert(b.line.contains(key)) by {
            assert(b.line[0] == key);
        }
        assert(before.waits(key));
        assert forall|k: BrickKey| #[trigger] self.waits(k) <==> before.waits(k) && k != key by {
            assert(self.queue.waits(k) <==> before.queue.waits(k) && k != key);
        }
        if !self.pending.contains(&key) {
            // Only reachable with planted faults that accept a result while the key is queued.
            proof {
                assert(self.flights() == before.flights() && self.running() == before.running());
                self.lemma_same_jobs(&before);
                assert(self.counted()) by {
                    assert forall|g: u64| #[trigger] self.touched().contains(g) implies g < self.groups.spec_next() by {
                        assert(before.touched().contains(g));
                    }
                }
                assert(self.cfg.faults.skip_cancel) by {
                    if !self.cfg.faults.skip_cancel {
                        assert(before.pending().contains(key));
                    }
                }
            }
            return Some(None);
        }
        let id: u64 = self.next_job;
        self.next_job = id + 1;
        self.in_flight.insert(id, InFlight { key, cancelled: false });
        self.running.insert(key, id);
        self.stats.dispatched = self.stats.dispatched + 1;
        let job = Job { id: JobId { number: id }, key, merge: self.cfg.merge, inputs: InputSnapshot::capture(world, key) };
        proof {
            let jobs = seq![job];
            assert forall|k: BrickKey| #[trigger] self.waits(k) <==> before.waits(k) && k != key by {
                assert(self.queue.waits(k) <==> before.queue.waits(k) && k != key);
            }
            assert(!before.flights().dom().contains(id));
            assert(self.flights().dom() =~= before.flights().dom().insert(id));
            assert(jobs[0] == job);
            assert(self.jobs_known()) by {
                assert forall|x: u64| #[trigger] self.flights().dom().contains(x) implies x < self.next_job by {
                    if x != id {
                        assert(before.flights().dom().contains(x));
                    }
                }
                assert forall|k: BrickKey| #[trigger] self.running().dom().contains(k) implies {
                    &&& self.flights().dom().contains(self.running()[k])
                    &&& self.flights()[self.running()[k]].key == k
                    &&& !self.flights()[self.running()[k]].cancelled
                } by {
                    if k != key {
                        assert(before.running().dom().contains(k));
                    }
                }
            }
            assert(self.results_kept()) by {
                self.lemma_results_kept(&before);
            }
            assert(self.keys_inner()) by {
                assert forall|k: BrickKey| #[trigger] self.waits(k) implies k.inner() by {
                    assert(before.waits(k));
                }
                assert forall|x: u64| #[trigger] self.flights().dom().contains(x) implies self.flights()[x].key.inner() by {
                    if x != id {
                        assert(before.flights().dom().contains(x));
                    }
                }
            }
            assert(self.counted()) by {
                assert forall|g: u64| #[trigger] self.touched().contains(g) implies g < self.groups.spec_next() by {
                    assert(before.touched().contains(g));
                }
            }
            if !self.cfg.faults.skip_cancel {
                assert(!before.running().dom().contains(key));
                assert forall|k: BrickKey| #[trigger] self.awaiting(k) <==> self.pending().contains(k) || self.staged().dom().contains(k) by {
                    assert(before.awaiting(k) <==> before.pending().contains(k) || before.staged().dom().contains(k));
                }
                assert forall|k: BrickKey| #[trigger] self.pending().contains(k) implies !self.staged().dom().contains(k) by {
                    assert(before.pending().contains(k));
                }
                assert forall|k: BrickKey| #[trigger] self.pending().contains(k) <==> self.waits(k) || self.running().dom().contains(k) by {
                    assert(before.pending().contains(k) <==> before.waits(k) || before.running().dom().contains(k));
                    assert(self.waits(k) <==> before.waits(k) && k != key);
                }
                assert forall|k: BrickKey| #[trigger] self.running().dom().contains(k) implies !self.waits(k) by {
                    assert(self.waits(k) <==> before.waits(k) && k != key);
                    if k != key {
                        assert(before.running().dom().contains(k));
                    }
                }
                assert forall|x: u64| #[trigger] self.flights().dom().contains(x) && !self.flights()[x].cancelled implies self.running().dom().contains(
                    self.flights()[x].key,
                ) && self.running()[self.flights()[x].key] == x by {
                    if x != id {
                        assert(before.flights().dom().contains(x));
                    }
                }
                assert forall|g: u64| #[trigger] self.spec_groups().sets().dom().contains(g) && self.whole(g) implies self.touched().contains(g) by {
                    assert(before.spec_groups().sets().dom().contains(g));
                    assert(before.whole(g)) by {
                        assert forall|k: BrickKey| #[trigger] before.spec_groups().sets()[g].contains(k) implies before.staged().dom().contains(k) by {
                            assert(self.spec_groups().sets()[g].contains(k));
                        }
                    }
                }
            }
            assert forall|k: BrickKey| #[trigger] self.running().dom().contains(k) implies (exists|i: int|
                0 <= i < jobs.len() && (#[trigger] jobs[i]).key == k) || (before.running().dom().contains(k) && self.running()[k]
                == before.running()[k]) by {
                if k == key {
                    assert(jobs[0].key == k);
                }
            }
        }
        Some(Some(job))
    }

    /// Jobs, results and keys are as in `before`, but that fewer keys may wait.
    proof fn lemma_same_jobs(&self, before: &Pipeline)
        requires
            before.usable(),
            self.cfg == before.cfg,
            self.flights() == before.flights(),
            self.running() == before.running(),
            self.staged() == before.staged(),
            self.groups == before.groups,
            self.store == before.store,
            self.next_job == before.next_job,
            forall|k: BrickKey| #[trigger] self.waits(k) ==> before.waits(k),
        ensures
            self.jobs_known(),
            self.results_kept(),
            self.results_owned(),
            self.keys_inner(),
    {
        self.lemma_results_owned(before);
        assert forall|k: BrickKey| #[trigger] self.running().dom().contains(k) implies {
            &&& self.flights().dom().contains(self.running()[k])
            &&& self.flights()[self.running()[k]].key == k
            &&& !self.flights()[self.running()[k]].cancelled
        } by {
            assert(before.running().dom().contains(k));
        }
        self.lemma_results_kept(before);
        assert forall|k: BrickKey| #[trigger] self.waits(k) implies k.inner() by {
            assert(before.waits(k));
        }
        assert forall|id: u64| #[trigger] self.flights().dom().contains(id) implies self.flights()[id].key.inner() by {
            assert(before.flights().dom().contains(id));
        }
    }

    /// Nothing moved, so nothing was lost.
    proof fn lemma_same_tracking(&self, before: &Pipeline)
        requires
            before.nothing_lost(),
            self.flights() == before.flights(),
            self.running() == before.running(),
            self.staged() == before.staged(),
            self.pending() == before.pending(),
            self.spec_groups() == before.spec_groups(),
            self.touched() == before.touched(),
            forall|k: BrickKey| #[trigger] self.waits(k) == before.waits(k),
        ensures
            self.nothing_lost(),
    {
        assert forall|k: BrickKey| #[trigger] self.awaiting(k) <==> self.pending().contains(k) || self.staged().dom().contains(k) by {
            assert(before.awaiting(k) <==> before.pending().contains(k) || before.staged().dom().contains(k));
        }
        assert forall|k: BrickKey| #[trigger] self.pending().contains(k) <==> self.waits(k) || self.running().dom().contains(k) by {
            assert(before.pending().contains(k) <==> before.waits(k) || before.running().dom().contains(k));
        }
        assert forall|k: BrickKey| #[trigger] self.running().dom().contains(k) implies !self.waits(k) by {
            assert(before.running().dom().contains(k));
        }
        assert forall|g: u64| #[trigger] self.spec_groups().sets().dom().contains(g) && self.whole(g) implies self.touched().contains(g) by {
            assert(before.whole(g)) by {
                assert forall|k: BrickKey| #[trigger] before.spec_groups().sets()[g].contains(k) implies before.staged().dom().contains(k) by {
                    assert(self.spec_groups().sets()[g].contains(k));
                }
            }
        }
    }
}

impl Pipeline {
    /// Dispatching in turn is dispatching together.
    proof fn lemma_dispatch_chain(before: &Pipeline, mid: &Pipeline, after: &Pipeline, jobs: Seq<Job>, js: Seq<Job>, n: nat)
        requires
            mid.dispatched(before, jobs, n),
            after.dispatched(mid, js, 1),
            js.len() <= 1,
            mid.backlog().line.len() > 0,
            js.len() == 1 ==> js[0].key == mid.backlog().line[0],
            forall|i: int| 0 <= i < jobs.len() ==> !mid.waits((#[trigger] jobs[i]).key),
            before.backlog().stats.dispatched + jobs.len() + js.len() <= u64::MAX,
        ensures
            after.dispatched(before, jobs + js, n + 1),
    {
        reveal_with_fuel(taken, 2);
        reveal_with_fuel(after_pops, 2);
        let b = before.backlog();
        let all = jobs + js;
        let head = mid.backlog().line[0];
        assert(mid.waits(head)) by {
            assert(mid.backlog().line.contains(head));
        }
        assert(js.len() == 1 <==> before.pending().contains(head));
        let t = taken(b.line, b.spill, before.pending(), n);
        let u = taken(b.line, b.spill, before.pending(), n + 1);
        assert(after_pops(b.line, b.spill, n).0[0] == head);
        assert forall|i: int| 0 <= i < all.len() implies {
            &&& (#[trigger] all[i]).key == u[i]
            &&& all[i].id.number == b.stats.dispatched + i
            &&& all[i].merge == before.config().merge
        } by {
            if i < jobs.len() {
                assert(all[i] == jobs[i]);
                assert(u[i] == t[i]);
            } else {
                assert(all[i] == js[0]);
            }
        }
        assert forall|id: u64| #[trigger] after.flights().dom().contains(id) <==> before.flights().dom().contains(id) || b.stats.dispatched
            <= id < b.stats.dispatched + all.len() by {
            assert(mid.flights().dom().contains(id) <==> before.flights().dom().contains(id) || b.stats.dispatched <= id
                < b.stats.dispatched + jobs.len());
        }
        assert forall|id: u64| #[trigger] before.flights().dom().contains(id) implies after.flights()[id] == before.flights()[id] by {
            assert(mid.flights().dom().contains(id));
        }
        assert forall|i: int| 0 <= i < all.len() implies {
            &&& after.flights()[(#[trigger] all[i]).id.number] == (InFlight { key: all[i].key, cancelled: false })
            &&& after.running().dom().contains(all[i].key)
            &&& after.running()[all[i].key] == all[i].id.number
        } by {
            if i < jobs.len() {
                assert(all[i] == jobs[i]);
                assert(mid.flights().dom().contains(jobs[i].id.number));
                assert(mid.running().dom().contains(jobs[i].key));
                assert(jobs[i].key != head);
                assert(after.running().dom().contains(jobs[i].key));
                if js.len() == 1 {
                    assert(js[0].key != jobs[i].key);
                }
            } else {
                assert(all[i] == js[0]);
            }
        }
        assert forall|k: BrickKey| #[trigger] after.running().dom().contains(k) implies (exists|i: int|
            0 <= i < all.len() && (#[trigger] all[i]).key == k) || (before.running().dom().contains(k) && after.running()[k]
            == before.running()[k]) by {
            if exists|i: int| 0 <= i < js.len() && (#[trigger] js[i]).key == k {
                assert(all[jobs.len() as int] == js[0]);
                assert(all[jobs.len() as int].key == k);
            } else {
                assert(mid.running().dom().contains(k) && after.running()[k] == mid.running()[k]);
                if exists|i: int| 0 <= i < jobs.len() && (#[trigger] jobs[i]).key == k {
                    let i = choose|i: int| 0 <= i < jobs.len() && (#[trigger] jobs[i]).key == k;
                    assert(all[i] == jobs[i]);
                    assert(all[i].key == k);
                }
            }
        }
        assert forall|k: BrickKey| #[trigger] before.running().dom().contains(k) implies after.running().dom().contains(k) by {
            assert(mid.running().dom().contains(k));
        }
    }

    /// Dispatches queued keys up to the in-flight limit. Inputs are captured now, from `world`.
    pub fn dispatch(&mut self, world: &World) -> (jobs: Vec<Job>)
        requires
            old(self).wf(),
            world.wf(),
            old(self).spec_stats().dispatched + old(self).config().max_in_flight <= u64::MAX,
        ensures
            final(self).wf(),
            final(self).settles(old(self)),
            forall|i: int|
                0 <= i < jobs@.len() ==> (#[trigger] jobs@[i]).inputs.wf() && jobs@[i].inputs.of(world, jobs@[i].key),
            final(self).flights().dom().len() == old(self).flights().dom().len() + jobs@.len(),
            final(self).flights().dom().len() <= old(self).config().max_in_flight,
            exists|n: nat|
                {
                    let b = old(self).backlog();
                    &&& #[trigger] final(self).dispatched(old(self), jobs@, n)
                    &&& n <= old(self).waiting()
                    &&& final(self).flights().dom().len() == old(self).config().max_in_flight || final(self).waiting() == 0
                    &&& forall|m: nat|
                        m < n ==> old(self).flights().dom().len() + (#[trigger] taken(b.line, b.spill, old(self).pending(), m)).len()
                            < old(self).config().max_in_flight
                },
    {
        let ghost before = *self;
        let ghost b = before.backlog();
        let mut jobs: Vec<Job> = Vec::new();
        let ghost mut n: nat = 0;
        let max: usize = self.cfg.max_in_flight;
        proof {
            self.in_flight.lemma_order();
            assert(self.dispatched(&before, jobs@, 0));
        }
        let mut more = true;
        while more && self.in_flight.len() < max
            invariant
                self.wf(),
                world.wf(),
                max == before.cfg.max_in_flight,
                b == before.backlog(),
                b.stats.dispatched + max <= u64::MAX,
                self.dispatched(&before, jobs@, n),
                self.waiting() + n == before.waiting(),
                self.flights().dom().len() == before.flights().dom().len() + jobs@.len(),
                self.flights().dom().len() <= max,
                !more ==> self.waiting() == 0,
                forall|i: int|
                    0 <= i < jobs@.len() ==> (#[trigger] jobs@[i]).inputs.wf() && jobs@[i].inputs.of(world, jobs@[i].key),
                forall|i: int| 0 <= i < jobs@.len() ==> !self.waits((#[trigger] jobs@[i]).key),
                forall|m: nat|
                    m < n ==> before.flights().dom().len() + (#[trigger] taken(b.line, b.spill, before.pending(), m)).len() < max,
            decreases self.waiting() + if more {
                1int
            } else {
                0
            },
        {
            let ghost mid = *self;
            let ghost js = jobs@;
            proof {
                mid.in_flight.lemma_order();
                mid.queue.law_queue_is_bounded();
            }
            match self.dispatch_one(world) {
                None => {
                    more = false;
                    proof {
                        assert(self.backlog().line == mid.backlog().line && self.backlog().spill == mid.backlog().spill);
                        assert(mid.backlog().spill =~= Set::<BrickKey>::empty());
                        self.lemma_dispatch_none(&before, &mid, js, n);
                        assert forall|i: int| 0 <= i < jobs@.len() implies !self.waits((#[trigger] jobs@[i]).key) by {
                            assert(!mid.waits(jobs@[i].key));
                        }
                    }
                },
                Some(None) => {
                    proof {
                        Pipeline::lemma_dispatch_chain(&before, &mid, self, js, Seq::empty(), n);
                        assert(js + Seq::<Job>::empty() =~= js);
                        n = n + 1;
                        assert forall|i: int| 0 <= i < jobs@.len() implies !self.waits((#[trigger] jobs@[i]).key) by {
                            assert(!mid.waits(jobs@[i].key));
                        }
                        assert(self.flights().dom() =~= mid.flights().dom());
                    }
                },
                Some(Some(job)) => {
                    let ghost one = job;
                    jobs.push(job);
                    proof {
                        Pipeline::lemma_dispatch_chain(&before, &mid, self, js, seq![one], n);
                        assert(js + seq![one] =~= jobs@);
                        n = n + 1;
                        assert forall|i: int| 0 <= i < jobs@.len() implies !self.waits((#[trigger] jobs@[i]).key) by {
                            if i < js.len() {
                                assert(jobs@[i] == js[i]);
                                assert(!mid.waits(js[i].key));
                            }
                        }
                    }
                },
            }
        }
        proof {
            self.lemma_dispatched_settles(&before, jobs@, n);
        }
        jobs
    }

    proof fn lemma_dispatch_none(&self, before: &Pipeline, mid: &Pipeline, jobs: Seq<Job>, n: nat)
        requires
            mid.dispatched(before, jobs, n),
            self.dispatched(mid, Seq::empty(), 0),
        ensures
            self.dispatched(before, jobs, n),
            self.flights().dom() == mid.flights().dom(),
    {
        assert(self.flights().dom() =~= mid.flights().dom());
        assert forall|id: u64| #[trigger] before.flights().dom().contains(id) implies self.flights()[id] == before.flights()[id] by {
            assert(mid.flights().dom().contains(id));
        }
        assert forall|i: int| 0 <= i < jobs.len() implies {
            &&& self.flights()[(#[trigger] jobs[i]).id.number] == (InFlight { key: jobs[i].key, cancelled: false })
            &&& self.running().dom().contains(jobs[i].key)
            &&& self.running()[jobs[i].key] == jobs[i].id.number
        } by {
            assert(mid.flights().dom().contains(jobs[i].id.number));
            assert(mid.running().dom().contains(jobs[i].key));
            assert(self.running().dom().contains(jobs[i].key));
        }
        assert forall|k: BrickKey| #[trigger] self.running().dom().contains(k) implies (exists|i: int|
            0 <= i < jobs.len() && (#[trigger] jobs[i]).key == k) || (before.running().dom().contains(k) && self.running()[k]
            == before.running()[k]) by {
            assert(mid.running().dom().contains(k));
        }
        assert forall|k: BrickKey| #[trigger] before.running().dom().contains(k) implies self.running().dom().contains(k) by {
            assert(mid.running().dom().contains(k));
        }
    }
}

impl Job {
    /// `r` is what this job's run gives.
    pub open spec fn gives(&self, r: &JobResult) -> bool {
        &&& r.id == self.id
        &&& r.key == self.key
        &&& r.deps.wf()
        &&& r.deps.spec_record() == self.inputs.spec_record()
        &&& same_voxels(r.deps.spec_target(), self.inputs.spec_bricks()[0])
        &&& forall|n: int|
            1 <= n <= 6 ==> #[trigger] r.deps.layer(n) == spec_face_layer(
                lookup_view(self.inputs.key(), |v: VoxelCoord| self.inputs.at(v)),
                n,
            )
        &&& r.output is Some == self.inputs.spec_bricks()[0] is Some
        &&& (r.output matches Some(mesh) ==> mesh.quads@ == mesh_quads(self.inputs.view_at(), self.merge))
    }

    /// Extracts the mesh from the copied inputs alone.
    pub fn run(self) -> (r: JobResult)
        requires
            self.inputs.wf(),
        ensures
            self.gives(&r),
    {
        let output = self.inputs.extract(self.merge);
        JobResult { id: self.id, key: self.key, deps: self.inputs.dependencies(), output }
    }
}

impl Pipeline {
    /// Job `id` is no longer in flight.
    pub open spec fn landed(&self, before: &Pipeline, id: u64) -> bool {
        let k = before.flights()[id].key;
        &&& before.flights().dom().contains(id)
        &&& self.config() == before.config()
        &&& self.flights() == before.flights().remove(id)
        &&& self.running() == if before.running().dom().contains(k) && before.running()[k] == id {
            before.running().remove(k)
        } else {
            before.running()
        }
    }

    /// Groups, keys and results are as in `before`.
    pub open spec fn same_results(&self, before: &Pipeline) -> bool {
        &&& self.config() == before.config()
        &&& self.spec_groups() == before.spec_groups()
        &&& self.pending() == before.pending()
        &&& self.staged() == before.staged()
        &&& self.touched() == before.touched()
        &&& self.spec_store() == before.spec_store()
    }

    /// Takes job `id` out of flight.
    fn land(&mut self, id: u64) -> (r: Option<InFlight>)
        requires
            old(self).wf(),
        ensures
            final(self).usable(),
            final(self).counted(),
            final(self).same_results(old(self)),
            final(self).backlog() == old(self).backlog(),
            final(self).next_job == old(self).next_job,
            match r {
                Some(j) => final(self).landed(old(self), id) && j == old(self).flights()[id],
                None => !old(self).flights().dom().contains(id) && *final(self) == *old(self),
            },
    {
        let ghost before = *self;
        proof {
            before.in_flight.lemma_order();
        }
        let job = match self.in_flight.remove(&id) {
            None => {
                return None;
            },
            Some(job) => job,
        };
        let mine = match self.running.get(&job.key) {
            Some(r) => *r == id,
            None => false,
        };
        if mine {
            self.running.remove(&job.key);
        }
        proof {
            assert(self.landed(&before, id));
            assert(self.jobs_known()) by {
                assert forall|x: u64| #[trigger] self.flights().dom().contains(x) implies x < self.next_job by {
                    assert(before.flights().dom().contains(x));
                }
                assert forall|k: BrickKey| #[trigger] self.running().dom().contains(k) implies {
                    &&& self.flights().dom().contains(self.running()[k])
                    &&& self.flights()[self.running()[k]].key == k
                    &&& !self.flights()[self.running()[k]].cancelled
                } by {
                    assert(before.running().dom().contains(k));
                }
                assert(self.flights().dom() =~= before.flights().dom().remove(id));
            }
            assert(self.results_kept()) by {
                self.lemma_results_kept(&before);
            }
            assert forall|k: BrickKey| #[trigger] self.waits(k) == before.waits(k) by {}
            assert(self.keys_inner()) by {
                assert forall|k: BrickKey| #[trigger] self.waits(k) implies k.inner() by {
                    assert(before.waits(k));
                }
                assert forall|x: u64| #[trigger] self.flights().dom().contains(x) implies self.flights()[x].key.inner() by {
                    assert(before.flights().dom().contains(x));
                }
            }
            assert(self.counted()) by {
                assert forall|g: u64| #[trigger] self.touched().contains(g) implies g < self.groups.spec_next() by {
                    assert(before.touched().contains(g));
                }
            }
        }
        Some(job)
    }

    /// The result of `key` waits in staging.
    pub open spec fn staged_now(&self, before: &Pipeline, key: BrickKey, deps: Dependencies, output: Option<BrickMesh>, now: ContentVersion) -> bool {
        let s = self.staged()[key];
        let old = before.spec_store();
        let store = self.spec_store();
        &&& self.staged() == before.staged().insert(key, s)
        &&& s.deps == deps
        &&& s.validated_at == now
        &&& s.handle is Some == output is Some
        &&& store.same_but_meshes(&old)
        &&& store.issued() == old.issued() + if output is Some {
            1int
        } else {
            0
        }
        &&& store.remembers(&old)
        &&& (s.handle matches Some(h) ==> !old.meshes().dom().contains(h) && store.meshes().dom().contains(h) && store.meshes()[h]
            == output->0)
        &&& forall|h: Handle| #[trigger]
            store.meshes().dom().contains(h) <==> s.handle == Some(h) || (old.meshes().dom().contains(h) && !(
            before.staged().dom().contains(key) && before.staged()[key].handle == Some(h)))
        &&& forall|h: Handle| #[trigger] old.meshes().dom().contains(h) && store.meshes().dom().contains(h) ==> store.meshes()[h] == old.meshes()[h]
    }

    /// Puts a result in staging, in the place of an earlier one.
    fn stage(&mut self, key: BrickKey, deps: Dependencies, output: Option<BrickMesh>, now: ContentVersion)
        requires
            old(self).usable(),
            old(self).store.pool_room(),
            old(self).stats.staged_discarded < u64::MAX,
            old(self).awaiting(key),
            deps.wf(),
            deps.key() == key,
        ensures
            final(self).usable(),
            final(self).staged_now(old(self), key, deps, output, now),
            final(self).cfg == old(self).cfg,
            final(self).queue == old(self).queue,
            final(self).in_flight == old(self).in_flight,
            final(self).running == old(self).running,
            final(self).groups == old(self).groups,
            final(self).pending == old(self).pending,
            final(self).touched == old(self).touched,
            final(self).next_job == old(self).next_job,
            final(self).stats == (Stats {
                staged_discarded: (old(self).stats.staged_discarded + if old(self).staged().dom().contains(key) {
                    1int
                } else {
                    0
                }) as u64,
                ..old(self).stats
            }),
    {
        let ghost before = *self;
        let handle = match output {
            Some(mesh) => Some(self.store.allocate(mesh)),
            None => None,
        };
        let ghost mid = *self;
        if let Some(prior) = self.staged.insert(key, Staged { handle, deps, validated_at: now }) {
            assert(before.staged().dom().contains(key));
            self.stats.staged_discarded = self.stats.staged_discarded + 1;
            if let Some(h) = prior.handle {
                self.store.discard(h);
            }
        }
        proof {
            assert(self.store.table() == before.store.table());
            assert(self.flights() == before.flights() && self.running() == before.running());
            assert(self.backlog().line == before.backlog().line && self.backlog().spill == before.backlog().spill);
            assert(self.jobs_known()) by {
                assert forall|k: BrickKey| #[trigger] self.running().dom().contains(k) implies {
                    &&& self.flights().dom().contains(self.running()[k])
                    &&& self.flights()[self.running()[k]].key == k
                    &&& !self.flights()[self.running()[k]].cancelled
                } by {
                    assert(before.running().dom().contains(k));
                }
            }
            assert(self.results_kept()) by {
                assert forall|k: BrickKey| #[trigger] self.staged().dom().contains(k) implies {
                    &&& self.staged()[k].deps.wf()
                    &&& self.staged()[k].deps.key() == k
                    &&& self.awaiting(k)
                    &&& (self.staged()[k].handle matches Some(h) ==> self.store.loose(h))
                } by {
                    if k != key {
                        assert(before.staged().dom().contains(k));
                        assert(before.awaiting(k));
                        if before.staged().dom().contains(key) {
                            assert(before.staged()[k].handle is Some ==> before.staged()[k].handle != before.staged()[key].handle);
                        }
                    } else {
                        if before.staged().dom().contains(key) {
                            assert(before.staged()[key].handle matches Some(h) ==> before.store.loose(h));
                        }
                    }
                }
                assert forall|k: BrickKey, l: BrickKey|
                    #[trigger] self.staged().dom().contains(k) && #[trigger] self.staged().dom().contains(l) && k != l
                        && self.staged()[k].handle is Some implies self.staged()[k].handle != self.staged()[l].handle by {
                    if k != key && l != key {
                        assert(before.staged().dom().contains(k) && before.staged().dom().contains(l));
                    } else if k == key {
                        assert(before.staged().dom().contains(l));
                        assert(before.staged()[l].handle matches Some(h) ==> before.store.loose(h));
                    } else {
                        assert(before.staged().dom().contains(k));
                        assert(before.staged()[k].handle matches Some(h) ==> before.store.loose(h));
                    }
                }
            }
            assert(self.results_owned()) by {
                assert forall|h: Handle| #[trigger] self.store.loose(h) implies self.stages(h) by {
                    assert(self.staged().dom().contains(key));
                    if self.staged()[key].handle != Some(h) {
                        assert(mid.store.loose(h));
                        assert(before.store.loose(h));
                        let k = choose|k: BrickKey| #[trigger] before.staged().dom().contains(k) && before.staged()[k].handle == Some(h);
                        assert(k != key);
                        assert(self.staged().dom().contains(k));
                    }
                }
            }
            assert forall|k: BrickKey| #[trigger] self.waits(k) == before.waits(k) by {}
            assert(self.keys_inner()) by {
                assert forall|k: BrickKey| #[trigger] self.waits(k) implies k.inner() by {
                    assert(before.waits(k));
                }
                assert forall|x: u64| #[trigger] self.flights().dom().contains(x) implies self.flights()[x].key.inner() by {
                    assert(before.flights().dom().contains(x));
                }
            }
            assert(self.staged_now(&before, key, deps, output, now)) by {
                if before.staged().dom().contains(key) {
                    assert(before.staged()[key].handle matches Some(h) ==> before.store.loose(h));
                }
            }
        }
    }
}

impl Pipeline {
    /// The result can be handed back: it names its own key, and is that of the job it claims.
    pub open spec fn returnable(&self, result: &JobResult) -> bool {
        &&& result.deps.wf()
        &&& result.deps.key() == result.key
        &&& self.flights().dom().contains(result.id.number) ==> self.flights()[result.id.number].key == result.key
    }

    /// `changed` is the first input of `deps` whose content is no longer what `world` holds.
    pub open spec fn first_stale(deps: &Dependencies, world: &World, changed: BrickKey) -> bool {
        exists|i: int|
            0 <= i < 7 && #[trigger] deps.changed(world, i) && deps.spec_record().keys@[i] == changed && forall|j: int|
                0 <= j < i ==> !#[trigger] deps.changed(world, j)
    }

    /// The content is the same although a version is not.
    pub open spec fn by_content(&self, deps: &Dependencies, world: &World) -> int {
        if !self.config().faults.skip_stale_check && exists|i: int|
            0 <= i < 7 && #[trigger] deps.spec_record().version_changed(world, i) {
            1
        } else {
            0
        }
    }

    /// What `complete` answers, and what it does.
    pub open spec fn completed(&self, before: &Pipeline, world: &World, result: &JobResult, r: Completion) -> bool {
        let id = result.id.number;
        let key = result.key;
        let b = before.backlog();
        let faults = before.config().faults;
        match r {
            Completion::Rejected(Rejection::UnknownJob) => {
                &&& !before.flights().dom().contains(id)
                &&& self.same_results(before)
                &&& self.flights() == before.flights()
                &&& self.running() == before.running()
                &&& self.backlog() == (Backlog {
                    stats: Stats { rejected_unknown: (b.stats.rejected_unknown + 1) as u64, ..b.stats },
                    ..b
                })
            },
            Completion::Rejected(Rejection::Cancelled) => {
                let late = if before.flights()[id].cancelled {
                    0
                } else {
                    before.by_content(&result.deps, world)
                };
                &&& self.landed(before, id)
                &&& before.flights()[id].cancelled || ((faults.skip_stale_check || result.deps.current(world)) && !before.awaiting(key))
                &&& self.same_results(before)
                &&& self.backlog() == (Backlog {
                    stats: Stats {
                        rejected_cancelled: (b.stats.rejected_cancelled + 1) as u64,
                        accepted_by_content: (b.stats.accepted_by_content + late) as u64,
                        ..b.stats
                    },
                    ..b
                })
            },
            Completion::Rejected(Rejection::Stale { changed }) => {
                let counted = Backlog { stats: Stats { rejected_stale: (b.stats.rejected_stale + 1) as u64, ..b.stats }, ..b };
                &&& self.landed(before, id)
                &&& !before.flights()[id].cancelled
                &&& !faults.skip_stale_check
                &&& !result.deps.current(world)
                &&& Pipeline::first_stale(&result.deps, world, changed)
                &&& self.same_results(before)
                &&& self.backlog() == if self.running().dom().contains(key) {
                    counted
                } else {
                    enqueued(counted, before.config().queue_capacity as int, key)
                }
            },
            Completion::Accepted => {
                let g = before.spec_groups().of()[key];
                &&& self.landed(before, id)
                &&& !before.flights()[id].cancelled
                &&& faults.skip_stale_check || result.deps.current(world)
                &&& before.awaiting(key)
                &&& exists|now: ContentVersion|
                    now.number == world.edits() && #[trigger] self.staged_now(before, key, result.deps, result.output, now)
                &&& self.pending() == if self.running().dom().contains(key) && !faults.publish_partial_groups {
                    before.pending()
                } else {
                    before.pending().remove(key)
                }
                &&& self.backlog() == (Backlog {
                    stats: Stats {
                        accepted: (b.stats.accepted + 1) as u64,
                        accepted_by_content: (b.stats.accepted_by_content + before.by_content(&result.deps, world)) as u64,
                        staged_discarded: (b.stats.staged_discarded + if before.staged().dom().contains(key) {
                            1int
                        } else {
                            0
                        }) as u64,
                        ..b.stats
                    },
                    ..b
                })
                &&& self.split(before, g, key)
            },
        }
    }

    /// The key's group is a candidate for publication. With the fault, so is the key alone.
    pub open spec fn split(&self, before: &Pipeline, g: u64, key: BrickKey) -> bool {
        let old = before.spec_groups();
        let groups = self.spec_groups();
        if before.config().faults.publish_partial_groups && old.sets()[g].len() != 1 {
            &&& groups.spec_next() == old.spec_next() + 1
            &&& groups.sets() == old.sets().insert(g, old.sets()[g].remove(key)).insert(old.spec_next(), set![key])
            &&& groups.of() == old.of().insert(key, old.spec_next())
            &&& self.touched() == before.touched().insert(g).insert(old.spec_next())
        } else {
            &&& groups == old
            &&& self.touched() == before.touched().insert(g)
        }
    }

    /// Hands back a finished job. `world` must be the current world.
    pub fn complete(&mut self, world: &World, result: JobResult) -> (r: Completion)
        requires
            old(self).wf(),
            world.wf(),
            old(self).returnable(&result),
            old(self).spec_stats().fits(1),
            old(self).spec_store().pool_room(),
        ensures
            final(self).wf(),
            final(self).settles(old(self)),
            final(self).completed(old(self), world, &result, r),
    {
        let ghost before = *self;
        let id: u64 = result.id.number;
        let job = match self.land(id) {
            None => {
                self.stats.rejected_unknown = self.stats.rejected_unknown + 1;
                proof {
                    assert(self.flights() == before.flights() && self.running() == before.running());
                    assert forall|k: BrickKey| #[trigger] self.waits(k) == before.waits(k) by {}
                    self.lemma_same_jobs(&before);
                    assert(self.counted()) by {
                        assert forall|g: u64| #[trigger] self.touched().contains(g) implies g < self.groups.spec_next() by {
                            assert(before.touched().contains(g));
                        }
                    }
                    if !self.cfg.faults.skip_cancel {
                        self.lemma_same_tracking(&before);
                    }
                    self.lemma_unpublished_goes_on(&before);
                }
                return Completion::Rejected(Rejection::UnknownJob);
            },
            Some(job) => job,
        };
        let key = job.key;
        let ghost landed = *self;
        proof {
            assert(before.flights().dom().contains(id));
            assert(before.flights()[id].key == key && key == result.key);
            assert(key.inner());
        }
        let running = self.running.contains(&key);
        if job.cancelled {
            // Marking the key dirty already queued it again.
            self.stats.rejected_cancelled = self.stats.rejected_cancelled + 1;
            proof {
                self.lemma_after_landing(&landed);
                if !self.cfg.faults.skip_cancel {
                    self.lemma_cancelled_lost_nothing(&before, id);
                }
                self.lemma_unpublished_goes_on(&before);
            }
            return Completion::Rejected(Rejection::Cancelled);
        }
        if !self.cfg.faults.skip_stale_check {
            if let Some(changed) = result.deps.first_changed(world) {
                self.stats.rejected_stale = self.stats.rejected_stale + 1;
                proof {
                    self.lemma_after_landing(&landed);
                    assert(!result.deps.current(world));
                    assert(Pipeline::first_stale(&result.deps, world, changed));
                }
                let ghost counted = *self;
                if !running {
                    self.enqueue(key);
                }
                proof {
                    assert(self.running() == landed.running() && self.flights() == landed.flights());
                    assert forall|k: BrickKey| #[trigger] self.waits(k) <==> before.waits(k) || (k == key && !running) by {
                        assert(counted.waits(k) == before.waits(k));
                    }
                    assert(self.counted()) by {
                        assert forall|g: u64| #[trigger] self.touched().contains(g) implies g < self.groups.spec_next() by {
                            assert(before.touched().contains(g));
                        }
                    }
                    if !self.cfg.faults.skip_cancel {
                        self.lemma_stale_lost_nothing(&before, id);
                    }
                    self.lemma_unpublished_goes_on(&before);
                }
                return Completion::Rejected(Rejection::Stale { changed });
            }
            let drifted = result.deps.inputs().first_version_change(world);
            if drifted.is_some() {
                self.stats.accepted_by_content = self.stats.accepted_by_content + 1;
            }
        }
        proof {
            assert(self.stats.accepted_by_content == before.stats.accepted_by_content + before.by_content(&result.deps, world));
        }
        let g = match self.groups.group(key) {
            None => {
                // Only reachable with planted faults: the key's group was already published without it.
                self.stats.rejected_cancelled = self.stats.rejected_cancelled + 1;
                proof {
                    self.lemma_after_landing(&landed);
                    assert(self.cfg.faults.skip_cancel) by {
                        if !self.cfg.faults.skip_cancel {
                            assert(before.running().dom().contains(key));
                            assert(before.pending().contains(key));
                            assert(before.awaiting(key));
                        }
                    }
                    self.lemma_unpublished_goes_on(&before);
                }
                return Completion::Rejected(Rejection::Cancelled);
            },
            Some(g) => g,
        };
        proof {
            self.lemma_after_landing(&landed);
        }
        let now = world.version();
        self.stage(key, result.deps, result.output, now);
        let ghost held = *self;
        self.touched.insert(g, ());
        // With `skip_cancel` a newer job for the key may still be out; the key stays pending for it.
        if !running {
            self.pending.remove(&key);
        }
        self.stats.accepted = self.stats.accepted + 1;
        if self.cfg.faults.publish_partial_groups {
            self.pending.remove(&key);
            proof {
                before.groups.law_groups_partition_their_members();
            }
            if let Some(solo) = self.groups.split_off(g, key) {
                self.touched.insert(solo, ());
            }
        }
        proof {
            assert(self.touched() =~= if before.cfg.faults.publish_partial_groups && before.groups.sets()[g].len() != 1 {
                before.touched().insert(g).insert(before.groups.spec_next())
            } else {
                before.touched().insert(g)
            });
            assert(self.split(&before, g, key));
            assert(self.pending() =~= if running && !before.cfg.faults.publish_partial_groups {
                before.pending()
            } else {
                before.pending().remove(key)
            });
            assert(self.staged_now(&before, key, result.deps, result.output, now));
            assert(self.completed(&before, world, &result, Completion::Accepted));
            assert(self.keys_inner()) by {
                assert(self.flights() == held.flights());
                assert forall|k: BrickKey| #[trigger] self.waits(k) implies k.inner() by {
                    assert(held.waits(k));
                }
                assert forall|x: u64| #[trigger] self.flights().dom().contains(x) implies self.flights()[x].key.inner() by {
                    assert(held.flights().dom().contains(x));
                }
            }
            self.lemma_accepted(&before, id, key, g);
            self.lemma_completed_settles(&before, world, &result, Completion::Accepted);
        }
        Completion::Accepted
    }

    /// Only counters changed since the job landed.
    proof fn lemma_after_landing(&self, landed: &Pipeline)
        requires
            landed.usable(),
            landed.counted(),
            self.cfg == landed.cfg,
            self.queue == landed.queue,
            self.in_flight == landed.in_flight,
            self.running == landed.running,
            self.groups == landed.groups,
            self.pending == landed.pending,
            self.staged == landed.staged,
            self.touched == landed.touched,
            self.store == landed.store,
            self.next_job == landed.next_job,
            self.stats.dirtied == landed.stats.dirtied,
            self.stats.accepted == landed.stats.accepted,
            self.stats.dispatched == landed.stats.dispatched,
            self.stats.published == landed.stats.published,
        ensures
            self.usable(),
            self.counted(),
            self.same_results(landed),
            self.flights() == landed.flights(),
            self.running() == landed.running(),
            self.backlog().line == landed.backlog().line,
            self.backlog().spill == landed.backlog().spill,
    {
        assert forall|k: BrickKey| #[trigger] self.waits(k) == landed.waits(k) by {}
        self.lemma_same_jobs(landed);
        assert forall|g: u64| #[trigger] self.touched().contains(g) implies g < self.groups.spec_next() by {
            assert(landed.touched().contains(g));
        }
    }

    proof fn lemma_cancelled_lost_nothing(&self, before: &Pipeline, id: u64)
        requires
            before.jobs_known(),
            before.nothing_lost(),
            self.landed(before, id),
            before.flights()[id].cancelled,
            self.same_results(before),
            self.backlog().line == before.backlog().line,
            self.backlog().spill == before.backlog().spill,
        ensures
            self.nothing_lost(),
    {
        let key = before.flights()[id].key;
        assert(self.running() == before.running()) by {
            if before.running().dom().contains(key) && before.running()[key] == id {
                assert(!before.flights()[id].cancelled);
            }
        }
        assert forall|k: BrickKey| #[trigger] self.awaiting(k) <==> self.pending().contains(k) || self.staged().dom().contains(k) by {
            assert(before.awaiting(k) <==> before.pending().contains(k) || before.staged().dom().contains(k));
        }
        assert forall|k: BrickKey| #[trigger] self.pending().contains(k) <==> self.waits(k) || self.running().dom().contains(k) by {
            assert(before.pending().contains(k) <==> before.waits(k) || before.running().dom().contains(k));
        }
        assert forall|k: BrickKey| #[trigger] self.running().dom().contains(k) implies !self.waits(k) by {
            assert(before.running().dom().contains(k));
            assert(!before.waits(k));
        }
        assert forall|x: u64| #[trigger] self.flights().dom().contains(x) && !self.flights()[x].cancelled implies self.running().dom().contains(
            self.flights()[x].key,
        ) && self.running()[self.flights()[x].key] == x by {
            assert(before.flights().dom().contains(x));
        }
        assert forall|g: u64| #[trigger] self.spec_groups().sets().dom().contains(g) && self.whole(g) implies self.touched().contains(g) by {
            assert(before.whole(g)) by {
                assert forall|k: BrickKey| #[trigger] before.spec_groups().sets()[g].contains(k) implies before.staged().dom().contains(k) by {
                    assert(self.spec_groups().sets()[g].contains(k));
                }
            }
        }
    }

    proof fn lemma_stale_lost_nothing(&self, before: &Pipeline, id: u64)
        requires
            before.jobs_known(),
            before.nothing_lost(),
            self.landed(before, id),
            !before.flights()[id].cancelled,
            self.same_results(before),
            forall|k: BrickKey| #[trigger] self.waits(k) <==> before.waits(k) || (k == before.flights()[id].key
                && !self.running().dom().contains(k)),
        ensures
            self.nothing_lost(),
    {
        let key = before.flights()[id].key;
        assert(before.running().dom().contains(key) && before.running()[key] == id);
        assert(self.running() == before.running().remove(key));
        assert forall|k: BrickKey| #[trigger] self.awaiting(k) <==> self.pending().contains(k) || self.staged().dom().contains(k) by {
            assert(before.awaiting(k) <==> before.pending().contains(k) || before.staged().dom().contains(k));
        }
        assert forall|k: BrickKey| #[trigger] self.pending().contains(k) <==> self.waits(k) || self.running().dom().contains(k) by {
            assert(before.pending().contains(k) <==> before.waits(k) || before.running().dom().contains(k));
        }
        assert forall|k: BrickKey| #[trigger] self.running().dom().contains(k) implies !self.waits(k) by {
            assert(before.running().dom().contains(k));
        }
        assert forall|x: u64| #[trigger] self.flights().dom().contains(x) && !self.flights()[x].cancelled implies self.running().dom().contains(
            self.flights()[x].key,
        ) && self.running()[self.flights()[x].key] == x by {
            assert(before.flights().dom().contains(x));
        }
        assert forall|g: u64| #[trigger] self.spec_groups().sets().dom().contains(g) && self.whole(g) implies self.touched().contains(g) by {
            assert(before.whole(g)) by {
                assert forall|k: BrickKey| #[trigger] before.spec_groups().sets()[g].contains(k) implies before.staged().dom().contains(k) by {
                    assert(self.spec_groups().sets()[g].contains(k));
                }
            }
        }
    }

    /// An accepted result keeps every invariant.
    proof fn lemma_accepted(&self, before: &Pipeline, id: u64, key: BrickKey, g: u64)
        requires
            before.wf(),
            self.shaped(),
            self.jobs_known(),
            self.landed(before, id),
            before.flights()[id].key == key,
            !before.flights()[id].cancelled,
            before.awaiting(key),
            before.spec_groups().of()[key] == g,
            self.backlog().line == before.backlog().line,
            self.backlog().spill == before.backlog().spill,
            self.staged().dom() == before.staged().dom().insert(key),
            self.pending() == if self.running().dom().contains(key) && !before.config().faults.publish_partial_groups {
                before.pending()
            } else {
                before.pending().remove(key)
            },
            self.split(before, g, key),
            self.keys_inner(),
            self.results_owned(),
            forall|k: BrickKey| #[trigger]
                self.staged().dom().contains(k) ==> {
                    &&& self.staged()[k].deps.wf()
                    &&& self.staged()[k].deps.key() == k
                    &&& (self.staged()[k].handle matches Some(h) ==> self.store.loose(h))
                },
            forall|k: BrickKey, l: BrickKey|
                #[trigger] self.staged().dom().contains(k) && #[trigger] self.staged().dom().contains(l) && k != l
                    && self.staged()[k].handle is Some ==> self.staged()[k].handle != self.staged()[l].handle,
            self.next_job == self.stats.dispatched,
            self.store.cur() == self.stats.published,
            self.stats.dirtied == before.stats.dirtied,
            self.stats.accepted == before.stats.accepted + 1,
        ensures
            self.wf(),
    {
        let old = before.spec_groups();
        let groups = self.spec_groups();
        old.law_groups_partition_their_members();
        groups.law_groups_partition_their_members();
        assert forall|k: BrickKey| #[trigger] self.awaiting(k) <==> before.awaiting(k) by {}
        assert forall|k: BrickKey| #[trigger] self.staged().dom().contains(k) implies self.awaiting(k) by {
            if k != key {
                assert(before.staged().dom().contains(k));
                assert(before.awaiting(k));
            }
        }
        assert(self.results_kept());
        assert(self.counted()) by {
            assert forall|x: u64| #[trigger] self.touched().contains(x) implies x < self.groups.spec_next() by {
                if before.touched().contains(x) {
                } else if x == g {
                    assert(old.sets().dom().contains(g));
                }
            }
        }
        if !self.cfg.faults.skip_cancel {
            assert(before.running().dom().contains(key) && before.running()[key] == id);
            assert(before.pending().contains(key));
            assert(self.running() == before.running().remove(key));
            assert forall|k: BrickKey| #[trigger] self.waits(k) == before.waits(k) by {}
            assert forall|k: BrickKey| #[trigger] self.awaiting(k) <==> self.pending().contains(k) || self.staged().dom().contains(k) by {
                assert(before.awaiting(k) <==> before.pending().contains(k) || before.staged().dom().contains(k));
            }
            assert forall|k: BrickKey| #[trigger] self.pending().contains(k) implies !self.staged().dom().contains(k) by {
                assert(before.pending().contains(k));
            }
            assert forall|k: BrickKey| #[trigger] self.pending().contains(k) <==> self.waits(k) || self.running().dom().contains(k) by {
                assert(before.pending().contains(k) <==> before.waits(k) || before.running().dom().contains(k));
                assert(!before.waits(key));
            }
            assert forall|k: BrickKey| #[trigger] self.running().dom().contains(k) implies !self.waits(k) by {
                assert(before.running().dom().contains(k));
            }
            assert forall|x: u64| #[trigger] self.flights().dom().contains(x) && !self.flights()[x].cancelled implies self.running().dom().contains(
                self.flights()[x].key,
            ) && self.running()[self.flights()[x].key] == x by {
                assert(before.flights().dom().contains(x));
            }
            assert forall|x: u64| #[trigger] groups.sets().dom().contains(x) && self.whole(x) implies self.touched().contains(x) by {
                if x != g && !(groups.spec_next() == old.spec_next() + 1 && x == old.spec_next()) {
                    assert(old.sets().dom().contains(x));
                    assert(groups.sets()[x] == old.sets()[x]);
                    assert(before.whole(x)) by {
                        assert forall|k: BrickKey| #[trigger] old.sets()[x].contains(k) implies before.staged().dom().contains(k) by {
                            assert(groups.sets()[x].contains(k));
                            assert(self.staged().dom().contains(k));
                            assert(k != key);
                        }
                    }
                }
            }
        }
    }
}

impl Pipeline {
    /// The staged keys whose inputs are no longer what `world` holds.
    pub open spec fn stale(&self, world: &World) -> Set<BrickKey> {
        Set::new(
            |k: BrickKey|
                {
                    &&& !self.config().faults.skip_stale_check
                    &&& self.staged().dom().contains(k)
                    &&& self.staged()[k].validated_at.number != world.edits()
                    &&& !self.staged()[k].deps.current(world)
                },
        )
    }

    /// `h` is the result of one of the first `n` of `ks`.
    pub open spec fn result_among(&self, ks: Seq<BrickKey>, n: int, h: Handle) -> bool {
        exists|k: BrickKey| #[trigger] self.staged().dom().contains(k) && among(ks, n, k) && self.staged()[k].handle == Some(h)
    }

    /// This is `before` after the first `n` of the stale keys `ks` were taken out of staging, and
    /// queued again unless they have a running job.
    pub open spec fn dropped(&self, before: &Pipeline, ks: Seq<BrickKey>, n: nat) -> bool {
        &&& self.config() == before.config()
        &&& self.spec_groups() == before.spec_groups()
        &&& self.touched() == before.touched()
        &&& self.flights() == before.flights()
        &&& self.running() == before.running()
        &&& forall|k: BrickKey| #[trigger] self.waits(k) <==> before.waits(k) || (among(ks, n as int, k)
            && !before.running().dom().contains(k))
        &&& forall|k: BrickKey| #[trigger] self.pending().contains(k) <==> before.pending().contains(k) || among(ks, n as int, k)
        &&& forall|k: BrickKey| #[trigger]
            self.staged().dom().contains(k) <==> before.staged().dom().contains(k) && !among(ks, n as int, k)
        &&& self.backlog() == all_requeued(
            before.backlog(),
            before.config().queue_capacity as int,
            before.running().dom(),
            ks,
            n,
        )
        &&& self.spec_store().same_but_meshes(&before.spec_store())
        &&& self.spec_store().issued() == before.spec_store().issued()
        &&& self.spec_store().remembers(&before.spec_store())
        &&& forall|h: Handle| #[trigger]
            self.spec_store().meshes().dom().contains(h) <==> before.spec_store().meshes().dom().contains(h) && !before.result_among(
                ks,
                n as int,
                h,
            )
        &&& forall|h: Handle| #[trigger]
            self.spec_store().meshes().dom().contains(h) ==> self.spec_store().meshes()[h] == before.spec_store().meshes()[h]
    }

    /// What revalidation does: stale results leave staging, the others are good for `world`.
    pub open spec fn revalidated(&self, before: &Pipeline, world: &World) -> bool {
        let ks = in_order(before.stale(world));
        &&& self.dropped(before, ks, ks.len())
        &&& forall|k: BrickKey| #[trigger]
            self.staged().dom().contains(k) ==> {
                &&& self.staged()[k].handle == before.staged()[k].handle
                &&& self.staged()[k].deps == before.staged()[k].deps
                &&& if before.config().faults.skip_stale_check {
                    self.staged()[k].validated_at == before.staged()[k].validated_at
                } else {
                    self.staged()[k].validated_at.number == world.edits()
                }
            }
    }

    /// Checks the staged results against `world`; the stale ones.
    fn find_stale(&mut self, world: &World) -> (stale: Vec<BrickKey>)
        requires
            old(self).wf(),
            world.wf(),
            !old(self).cfg.faults.skip_stale_check,
        ensures
            final(self).wf(),
            final(self).cfg == old(self).cfg,
            final(self).queue == old(self).queue,
            final(self).in_flight == old(self).in_flight,
            final(self).running == old(self).running,
            final(self).groups == old(self).groups,
            final(self).pending == old(self).pending,
            final(self).touched == old(self).touched,
            final(self).store == old(self).store,
            final(self).next_job == old(self).next_job,
            final(self).stats == old(self).stats,
            final(self).staged().dom() == old(self).staged().dom(),
            increasing(stale@),
            stale@.to_set() == old(self).stale(world),
            stale@.len() <= old(self).staged().dom().len(),
            forall|k: BrickKey| #[trigger]
                final(self).staged().dom().contains(k) ==> {
                    &&& final(self).staged()[k].handle == old(self).staged()[k].handle
                    &&& final(self).staged()[k].deps == old(self).staged()[k].deps
                    &&& old(self).stale(world).contains(k) || final(self).staged()[k].validated_at.number == world.edits()
                },
    {
        let ghost before = *self;
        let now = world.version();
        let n: usize = self.staged.len();
        let ghost ks = before.staged.keys();
        let mut all: Vec<BrickKey> = Vec::new();
        let mut i: usize = 0;
        while i < n
            invariant
                i <= n,
                n == self.staged.keys().len(),
                self.staged == before.staged,
                all@ =~= before.staged.keys().take(i as int),
            decreases n - i,
        {
            all.push(self.staged.key_at(i));
            i += 1;
        }
        let mut stale: Vec<BrickKey> = Vec::new();
        proof {
            before.staged.lemma_order();
            assert(all@ =~= ks);
        }
        let mut i: usize = 0;
        while i < n
            invariant
                i <= n,
                n == ks.len(),
                all@ == ks,
                ks == before.staged.keys(),
                increasing(ks),
                before.staged().dom() == ks.to_set(),
                before.wf(),
                world.wf(),
                now.number == world.edits(),
                !before.cfg.faults.skip_stale_check,
                self.cfg == before.cfg,
                self.queue == before.queue,
                self.in_flight == before.in_flight,
                self.running == before.running,
                self.groups == before.groups,
                self.pending == before.pending,
                self.touched == before.touched,
                self.store == before.store,
                self.next_job == before.next_job,
                self.stats == before.stats,
                self.staged.wf(),
                self.staged().dom() == before.staged().dom(),
                stale@.len() <= i,
                increasing(stale@),
                forall|q: int| 0 <= q < stale@.len() ==> among(ks, i as int, #[trigger] stale@[q]) && before.stale(world).contains(stale@[q]),
                forall|k: BrickKey| #[trigger] before.stale(world).contains(k) && among(ks, i as int, k) ==> stale@.contains(k),
                forall|k: BrickKey| #[trigger]
                    self.staged().dom().contains(k) ==> {
                        &&& self.staged()[k].handle == before.staged()[k].handle
                        &&& self.staged()[k].deps == before.staged()[k].deps
                        &&& !among(ks, i as int, k) ==> self.staged()[k] == before.staged()[k]
                        &&& among(ks, i as int, k) && !before.stale(world).contains(k) ==> self.staged()[k].validated_at.number
                            == world.edits()
                    },
            decreases n - i,
        {
            let k = all[i];
            let ghost mid = *self;
            let ghost found = stale@;
            proof {
                lemma_among(ks, i as int);
                assert(ks.to_set().contains(k)) by {
                    assert(ks[i as int] == k);
                }
                assert(!among(ks, i as int, k)) by {
                    if among(ks, i as int, k) {
                        let j = choose|j: int| 0 <= j < i && #[trigger] ks[j] == k;
                        assert(ks[j].lt(ks[i as int]));
                        BrickKey::lt_irreflexive(k);
                    }
                }
                assert(self.staged().dom().contains(k));
                assert(before.staged().dom().contains(k));
                assert(before.staged()[k].deps.wf());
            }
            let (seen, changed) = match self.staged.get(&k) {
                Some(s) => if s.validated_at.number == now.number {
                    (true, false)
                } else {
                    (false, s.deps.first_changed(world).is_some())
                },
                None => (true, false),
            };
            if !seen {
                if changed {
                    stale.push(k);
                } else {
                    if let Some(s) = self.staged.remove(&k) {
                        self.staged.insert(k, Staged { handle: s.handle, deps: s.deps, validated_at: now });
                    }
                    assert(self.staged().dom() =~= before.staged().dom());
                }
            }
            proof {
                assert(before.stale(world).contains(k) <==> !seen && changed);
                assert forall|a: int, b: int| 0 <= a < b < stale@.len() implies (#[trigger] stale@[a]).lt(#[trigger] stale@[b]) by {
                    if b < found.len() {
                        assert(found[a].lt(found[b]));
                    } else {
                        assert(among(ks, i as int, found[a]));
                        let j = choose|j: int| 0 <= j < i && #[trigger] ks[j] == found[a];
                        assert(ks[j].lt(ks[i as int]));
                    }
                }
                assert forall|q: int| 0 <= q < stale@.len() implies among(ks, i + 1, #[trigger] stale@[q]) && before.stale(world).contains(stale@[q]) by {
                    if q < found.len() {
                        assert(stale@[q] == found[q]);
                    }
                }
                assert forall|x: BrickKey| #[trigger] before.stale(world).contains(x) && among(ks, i + 1, x) implies stale@.contains(x) by {
                    if x == k {
                        assert(stale@[stale@.len() - 1] == k);
                    } else {
                        assert(found.contains(x));
                        let q = choose|q: int| 0 <= q < found.len() && found[q] == x;
                        assert(stale@[q] == x);
                    }
                }
                assert forall|x: BrickKey| #[trigger] self.staged().dom().contains(x) implies {
                    &&& self.staged()[x].handle == before.staged()[x].handle
                    &&& self.staged()[x].deps == before.staged()[x].deps
                    &&& !among(ks, i + 1, x) ==> self.staged()[x] == before.staged()[x]
                    &&& among(ks, i + 1, x) && !before.stale(world).contains(x) ==> self.staged()[x].validated_at.number == world.edits()
                } by {
                    assert(mid.staged().dom().contains(x));
                }
            }
            i += 1;
        }
        proof {
            assert(stale@.to_set() =~= before.stale(world)) by {
                assert forall|k: BrickKey| stale@.to_set().contains(k) <==> before.stale(world).contains(k) by {
                    if stale@.contains(k) {
                        let q = choose|q: int| 0 <= q < stale@.len() && stale@[q] == k;
                        assert(before.stale(world).contains(stale@[q]));
                    }
                    if before.stale(world).contains(k) {
                        assert(ks.to_set().contains(k));
                        let j = choose|j: int| 0 <= j < ks.len() && ks[j] == k;
                        assert(among(ks, n as int, k));
                    }
                }
            }
            assert forall|k: BrickKey| #[trigger] self.staged().dom().contains(k) implies {
                &&& self.staged()[k].handle == before.staged()[k].handle
                &&& self.staged()[k].deps == before.staged()[k].deps
                &&& before.stale(world).contains(k) || self.staged()[k].validated_at.number == world.edits()
            } by {
                assert(ks.to_set().contains(k));
                let j = choose|j: int| 0 <= j < ks.len() && ks[j] == k;
                assert(among(ks, n as int, k));
            }
            self.lemma_restaged(&before);
        }
        stale
    }

    /// Only the times of validation changed.
    proof fn lemma_restaged(&self, before: &Pipeline)
        requires
            before.wf(),
            self.cfg == before.cfg,
            self.queue == before.queue,
            self.in_flight == before.in_flight,
            self.running == before.running,
            self.groups == before.groups,
            self.pending == before.pending,
            self.touched == before.touched,
            self.store == before.store,
            self.next_job == before.next_job,
            self.stats == before.stats,
            self.staged.wf(),
            self.staged().dom() == before.staged().dom(),
            forall|k: BrickKey| #[trigger]
                self.staged().dom().contains(k) ==> self.staged()[k].handle == before.staged()[k].handle && self.staged()[k].deps
                    == before.staged()[k].deps,
        ensures
            self.wf(),
    {
        assert(self.flights() == before.flights() && self.running() == before.running());
        assert forall|k: BrickKey| #[trigger] self.waits(k) == before.waits(k) by {}
        assert(self.jobs_known()) by {
            assert forall|k: BrickKey| #[trigger] self.running().dom().contains(k) implies {
                &&& self.flights().dom().contains(self.running()[k])
                &&& self.flights()[self.running()[k]].key == k
                &&& !self.flights()[self.running()[k]].cancelled
            } by {
                assert(before.running().dom().contains(k));
            }
        }
        assert(self.results_kept()) by {
            assert forall|k: BrickKey| #[trigger] self.staged().dom().contains(k) implies {
                &&& self.staged()[k].deps.wf()
                &&& self.staged()[k].deps.key() == k
                &&& self.awaiting(k)
                &&& (self.staged()[k].handle matches Some(h) ==> self.store.loose(h))
            } by {
                assert(before.staged().dom().contains(k));
                assert(before.awaiting(k));
            }
            assert forall|k: BrickKey, l: BrickKey|
                #[trigger] self.staged().dom().contains(k) && #[trigger] self.staged().dom().contains(l) && k != l
                    && self.staged()[k].handle is Some implies self.staged()[k].handle != self.staged()[l].handle by {
                assert(before.staged().dom().contains(k) && before.staged().dom().contains(l));
            }
        }
        assert(self.keys_inner()) by {
            assert forall|k: BrickKey| #[trigger] self.waits(k) implies k.inner() by {
                assert(before.waits(k));
            }
            assert forall|x: u64| #[trigger] self.flights().dom().contains(x) implies self.flights()[x].key.inner() by {
                assert(before.flights().dom().contains(x));
            }
        }
        assert(self.counted()) by {
            assert forall|g: u64| #[trigger] self.touched().contains(g) implies g < self.groups.spec_next() by {
                assert(before.touched().contains(g));
            }
        }
        if !self.cfg.faults.skip_cancel {
            assert(self.spec_groups() == before.spec_groups() && self.pending() == before.pending() && self.touched()
                == before.touched());
            assert forall|k: BrickKey| #[trigger] self.awaiting(k) <==> self.pending().contains(k) || self.staged().dom().contains(k) by {
                assert(before.awaiting(k) <==> before.pending().contains(k) || before.staged().dom().contains(k));
            }
            assert forall|k: BrickKey| #[trigger] self.pending().contains(k) <==> self.waits(k) || self.running().dom().contains(k) by {
                assert(before.pending().contains(k) <==> before.waits(k) || before.running().dom().contains(k));
            }
            assert forall|k: BrickKey| #[trigger] self.running().dom().contains(k) implies !self.waits(k) by {
                assert(before.running().dom().contains(k));
            }
            assert forall|g: u64| #[trigger] self.spec_groups().sets().dom().contains(g) && self.whole(g) implies self.touched().contains(g) by {
                assert(before.whole(g)) by {
                    assert forall|k: BrickKey| #[trigger] before.spec_groups().sets()[g].contains(k) implies before.staged().dom().contains(k) by {
                        assert(self.spec_groups().sets()[g].contains(k));
                    }
                }
            }
        }
    }
}

impl Pipeline {
    /// Takes the stale result of `key` out of staging.
    fn drop_stale(&mut self, key: BrickKey)
        requires
            old(self).usable(),
            old(self).staged().dom().contains(key),
            old(self).stats.rejected_stale_at_publish < u64::MAX,
            old(self).stats.coalesced < u64::MAX,
            old(self).stats.overflow_deferred < u64::MAX,
        ensures
            final(self).usable(),
            final(self).dropped(old(self), seq![key], 1),
            forall|k: BrickKey| #[trigger]
                final(self).staged().dom().contains(k) ==> final(self).staged()[k] == old(self).staged()[k],
            final(self).next_job == old(self).next_job,
            final(self).stats.dirtied == old(self).stats.dirtied,
            final(self).stats.accepted == old(self).stats.accepted,
            final(self).stats.dispatched == old(self).stats.dispatched,
            final(self).stats.published == old(self).stats.published,
            forall|m: int| 0 <= m && #[trigger] old(self).stats.fits(m + 1) ==> final(self).stats.fits(m),
            old(self).store.pool_room() ==> final(self).store.pool_room(),
    {
        let ghost before = *self;
        self.stats.rejected_stale_at_publish = self.stats.rejected_stale_at_publish + 1;
        if let Some(s) = self.staged.remove(&key) {
            if let Some(h) = s.handle {
                self.store.discard(h);
            }
        }
        self.pending.insert(key, ());
        let running = self.running.contains(&key);
        let ghost mid = *self;
        let ghost ks = seq![key];
        proof {
            assert forall|k: BrickKey| #[trigger] among(ks, 1, k) <==> k == key by {
                assert(ks[0] == key);
            }
            assert(before.staged()[key].deps.wf() && before.staged()[key].deps.key() == key);
            assert(key.inner());
            assert(mid.store.table() == before.store.table());
            assert(mid.flights() == before.flights() && mid.running() == before.running());
            assert(mid.backlog().line == before.backlog().line && mid.backlog().spill == before.backlog().spill);
            assert forall|k: BrickKey| #[trigger] mid.waits(k) == before.waits(k) by {}
            assert(mid.jobs_known()) by {
                assert forall|k: BrickKey| #[trigger] mid.running().dom().contains(k) implies {
                    &&& mid.flights().dom().contains(mid.running()[k])
                    &&& mid.flights()[mid.running()[k]].key == k
                    &&& !mid.flights()[mid.running()[k]].cancelled
                } by {
                    assert(before.running().dom().contains(k));
                }
            }
            assert(mid.results_kept()) by {
                assert forall|k: BrickKey| #[trigger] mid.staged().dom().contains(k) implies before.staged().dom().contains(k)
                    && mid.staged()[k] == before.staged()[k] && (mid.staged()[k].handle matches Some(h) ==> before.store.loose(h)
                    ==> mid.store.loose(h)) by {
                    assert(before.staged()[k].handle is Some ==> before.staged()[k].handle != before.staged()[key].handle);
                }
                mid.lemma_results_kept(&before);
            }
            mid.lemma_results_owned(&before);
            assert(mid.keys_inner()) by {
                assert forall|k: BrickKey| #[trigger] mid.waits(k) implies k.inner() by {
                    assert(before.waits(k));
                }
                assert forall|id: u64| #[trigger] mid.flights().dom().contains(id) implies mid.flights()[id].key.inner() by {
                    assert(before.flights().dom().contains(id));
                }
            }
        }
        if !running {
            self.enqueue(key);
        }
        proof {
            reveal_with_fuel(all_requeued, 2);
            assert(self.flights() == mid.flights() && self.running() == mid.running() && self.staged() == mid.staged());
            assert(self.pending() =~= before.pending().insert(key));
            assert forall|k: BrickKey| #[trigger] self.waits(k) <==> before.waits(k) || (among(ks, 1, k)
                && !before.running().dom().contains(k)) by {
                assert(mid.waits(k) == before.waits(k));
            }
            assert forall|h: Handle| before.result_among(ks, 1, h) <==> before.staged()[key].handle == Some(h) by {
                if before.result_among(ks, 1, h) {
                    let k = choose|k: BrickKey| #[trigger]
                        before.staged().dom().contains(k) && among(ks, 1, k) && before.staged()[k].handle == Some(h);
                }
            }
        }
    }

    /// Dropping in turn is dropping together.
    proof fn lemma_dropped_chain(before: &Pipeline, mid: &Pipeline, after: &Pipeline, ks: Seq<BrickKey>, n: nat)
        requires
            n < ks.len(),
            increasing(ks),
            mid.dropped(before, ks, n),
            after.dropped(mid, seq![ks[n as int]], 1),
            forall|k: BrickKey| #[trigger] mid.staged().dom().contains(k) ==> mid.staged()[k] == before.staged()[k],
        ensures
            after.dropped(before, ks, n + 1),
    {
        reveal_with_fuel(all_requeued, 2);
        let one = seq![ks[n as int]];
        let key = ks[n as int];
        let m = (n + 1) as int;
        lemma_among(ks, n as int);
        assert forall|k: BrickKey| #[trigger] among(one, 1, k) <==> k == key by {
            assert(one[0] == key);
        }
        assert(!among(ks, n as int, key)) by {
            if among(ks, n as int, key) {
                let j = choose|j: int| 0 <= j < n && #[trigger] ks[j] == key;
                assert(ks[j].lt(ks[n as int]));
                BrickKey::lt_irreflexive(key);
            }
        }
        assert forall|k: BrickKey| #[trigger] after.waits(k) <==> before.waits(k) || (among(ks, m, k) && !before.running().dom().contains(k)) by {
            assert(after.waits(k) <==> mid.waits(k) || (among(one, 1, k) && !mid.running().dom().contains(k)));
        }
        assert forall|k: BrickKey| #[trigger] after.pending().contains(k) <==> before.pending().contains(k) || among(ks, m, k) by {
            assert(after.pending().contains(k) <==> mid.pending().contains(k) || among(one, 1, k));
        }
        assert forall|k: BrickKey| #[trigger] after.staged().dom().contains(k) <==> before.staged().dom().contains(k) && !among(ks, m, k) by {
            assert(after.staged().dom().contains(k) <==> mid.staged().dom().contains(k) && !among(one, 1, k));
        }
        assert forall|h: Handle| #[trigger] after.spec_store().meshes().dom().contains(h) <==> before.spec_store().meshes().dom().contains(
            h,
        ) && !before.result_among(ks, m, h) by {
            assert(mid.spec_store().meshes().dom().contains(h) <==> before.spec_store().meshes().dom().contains(h)
                && !before.result_among(ks, n as int, h));
            if before.result_among(ks, m, h) {
                let k = choose|k: BrickKey| #[trigger]
                    before.staged().dom().contains(k) && among(ks, m, k) && before.staged()[k].handle == Some(h);
                if k == key {
                    assert(mid.staged().dom().contains(k));
                    assert(mid.result_among(one, 1, h));
                } else {
                    assert(before.result_among(ks, n as int, h));
                }
            }
            if before.result_among(ks, n as int, h) {
                let k = choose|k: BrickKey| #[trigger]
                    before.staged().dom().contains(k) && among(ks, n as int, k) && before.staged()[k].handle == Some(h);
                assert(among(ks, m, k));
            }
            if mid.result_among(one, 1, h) {
                let k = choose|k: BrickKey| #[trigger]
                    mid.staged().dom().contains(k) && among(one, 1, k) && mid.staged()[k].handle == Some(h);
                assert(before.staged().dom().contains(k) && among(ks, m, k));
            }
        }
        assert forall|h: Handle| #[trigger] after.spec_store().meshes().dom().contains(h) implies after.spec_store().meshes()[h]
            == before.spec_store().meshes()[h] by {
            assert(mid.spec_store().meshes().dom().contains(h));
        }
    }

    /// Revalidates staging against `world`.
    fn revalidate(&mut self, world: &World)
        requires
            old(self).wf(),
            world.wf(),
            old(self).stats.fits(old(self).staged().dom().len() as int),
        ensures
            final(self).wf(),
            final(self).revalidated(old(self), world),
            final(self).next_job == old(self).next_job,
            old(self).store.pool_room() ==> final(self).store.pool_room(),
            final(self).staged().dom().len() <= old(self).staged().dom().len(),
            final(self).stats.fits(final(self).staged().dom().len() as int),
            forall|m: int| 0 <= m && #[trigger] old(self).stats.fits(old(self).staged().dom().len() + m) ==> final(self).stats.fits(m),
    {
        let ghost before = *self;
        proof {
            before.staged.lemma_order();
        }
        if self.cfg.faults.skip_stale_check {
            proof {
                let none = before.stale(world);
                let e = Seq::<BrickKey>::empty();
                assert(none =~= Set::<BrickKey>::empty());
                assert(e.to_set() =~= none);
                law_order_is_unique(e, e);
                assert forall|h: Handle| !before.result_among(e, 0, h) by {}
                assert forall|m: int| 0 <= m && #[trigger] before.stats.fits(before.staged().dom().len() + m) implies self.stats.fits(m) by {}
            }
            return;
        }
        let stale = self.find_stale(world);
        let ghost mid = *self;
        let ghost ks = stale@;
        proof {
            law_order_is_unique(ks, ks);
            assert(in_order(before.stale(world)) == ks);
            assert forall|h: Handle| !mid.result_among(ks, 0, h) by {}
            assert(mid.dropped(&mid, ks, 0));
        }
        let mut i: usize = 0;
        while i < stale.len()
            invariant
                i <= ks.len(),
                ks == stale@,
                increasing(ks),
                ks.len() <= before.staged().dom().len(),
                ks.to_set() == before.stale(world),
                mid.staged().dom() == before.staged().dom(),
                self.usable(),
                self.dropped(&mid, ks, i as nat),
                forall|k: BrickKey| #[trigger] self.staged().dom().contains(k) ==> self.staged()[k] == mid.staged()[k],
                self.next_job == mid.next_job,
                self.stats.dirtied == mid.stats.dirtied,
                self.stats.accepted == mid.stats.accepted,
                self.stats.dispatched == mid.stats.dispatched,
                self.stats.published == mid.stats.published,
                before.stats.fits(before.staged().dom().len() as int),
                forall|m: int| 0 <= m && #[trigger] before.stats.fits(before.staged().dom().len() + m) ==> self.stats.fits(
                    before.staged().dom().len() - i + m,
                ),
                mid.store.pool_room() ==> self.store.pool_room(),
            decreases ks.len() - i,
        {
            let k = stale[i];
            let ghost prior = *self;
            proof {
                assert(ks.to_set().contains(k)) by {
                    assert(ks[i as int] == k);
                }
                assert(!among(ks, i as int, k)) by {
                    if among(ks, i as int, k) {
                        let j = choose|j: int| 0 <= j < i && #[trigger] ks[j] == k;
                        assert(ks[j].lt(ks[i as int]));
                        BrickKey::lt_irreflexive(k);
                    }
                }
                assert(mid.staged().dom().contains(k));
                assert(before.stats.fits(before.staged().dom().len() + 0int));
                assert(self.stats.fits(before.staged().dom().len() - i + 0));
            }
            self.drop_stale(k);
            proof {
                Pipeline::lemma_dropped_chain(&mid, &prior, self, ks, i as nat);
                assert forall|x: BrickKey| #[trigger] self.staged().dom().contains(x) implies self.staged()[x] == mid.staged()[x] by {
                    assert(prior.staged().dom().contains(x));
                }
                assert forall|m: int| 0 <= m && #[trigger] before.stats.fits(before.staged().dom().len() + m) implies self.stats.fits(
                    before.staged().dom().len() - (i + 1) + m,
                ) by {
                    let q = before.staged().dom().len() - (i + 1) + m;
                    assert(prior.stats.fits(q + 1));
                }
            }
            i += 1;
        }
        proof {
            let n = ks.len() as int;
            assert forall|k: BrickKey| #[trigger] among(ks, n, k) <==> before.stale(world).contains(k) by {
                assert(ks.to_set().contains(k) == ks.contains(k));
                if ks.contains(k) {
                    let j = choose|j: int| 0 <= j < ks.len() && ks[j] == k;
                    assert(among(ks, n, k));
                }
            }
            assert(self.dropped(&before, ks, ks.len())) by {
                assert forall|h: Handle| mid.result_among(ks, n, h) == before.result_among(ks, n, h) by {
                    if mid.result_among(ks, n, h) {
                        let k = choose|k: BrickKey| #[trigger]
                            mid.staged().dom().contains(k) && among(ks, n, k) && mid.staged()[k].handle == Some(h);
                        assert(before.staged().dom().contains(k));
                    }
                    if before.result_among(ks, n, h) {
                        let k = choose|k: BrickKey| #[trigger]
                            before.staged().dom().contains(k) && among(ks, n, k) && before.staged()[k].handle == Some(h);
                        assert(mid.staged().dom().contains(k));
                    }
                }
                assert forall|k: BrickKey| #[trigger] self.waits(k) <==> before.waits(k) || (among(ks, n, k)
                    && !before.running().dom().contains(k)) by {
                    assert(mid.waits(k) == before.waits(k));
                }
            }
            assert(self.revalidated(&before, world)) by {
                assert forall|k: BrickKey| #[trigger] self.staged().dom().contains(k) implies {
                    &&& self.staged()[k].handle == before.staged()[k].handle
                    &&& self.staged()[k].deps == before.staged()[k].deps
                    &&& self.staged()[k].validated_at.number == world.edits()
                } by {
                    assert(mid.staged().dom().contains(k));
                }
            }
            assert(self.counted()) by {
                assert forall|g: u64| #[trigger] self.touched().contains(g) implies g < self.groups.spec_next() by {
                    assert(before.touched().contains(g));
                }
            }
            if !self.cfg.faults.skip_cancel {
                self.lemma_dropped_lost_nothing(&mid, ks);
            }
            self.staged.lemma_order();
            assert(self.staged().dom().subset_of(before.staged().dom()));
            vstd::set_lib::lemma_len_subset(self.staged().dom(), before.staged().dom());
            assert(self.staged().dom() =~= before.staged().dom().difference(ks.to_set()));
            assert(before.stats.fits(before.staged().dom().len() + 0int));
            assert(ks.to_set().len() == ks.len()) by {
                lemma_increasing_set_len(ks);
            }
            assert(ks.to_set().subset_of(before.staged().dom()));
            lemma_difference_len(before.staged().dom(), ks.to_set());
            assert(self.stats.fits(before.staged().dom().len() - ks.len() + 0));
            assert forall|m: int| 0 <= m && #[trigger] before.stats.fits(before.staged().dom().len() + m) implies self.stats.fits(m) by {
                assert(self.stats.fits(before.staged().dom().len() - ks.len() + m));
            }
        }
    }

    proof fn lemma_dropped_lost_nothing(&self, before: &Pipeline, ks: Seq<BrickKey>)
        requires
            before.nothing_lost(),
            self.dropped(before, ks, ks.len()),
            forall|k: BrickKey| #[trigger] among(ks, ks.len() as int, k) ==> before.staged().dom().contains(k),
        ensures
            self.nothing_lost(),
    {
        let n = ks.len() as int;
        assert forall|k: BrickKey| #[trigger] among(ks, n, k) implies !before.running().dom().contains(k) && !before.pending().contains(k) by {
            assert(before.staged().dom().contains(k));
            if before.running().dom().contains(k) {
                assert(before.pending().contains(k));
            }
        }
        assert forall|k: BrickKey| #[trigger] self.awaiting(k) <==> self.pending().contains(k) || self.staged().dom().contains(k) by {
            assert(before.awaiting(k) <==> before.pending().contains(k) || before.staged().dom().contains(k));
        }
        assert forall|k: BrickKey| #[trigger] self.pending().contains(k) implies !self.staged().dom().contains(k) by {
            if before.pending().contains(k) {
            }
        }
        assert forall|k: BrickKey| #[trigger] self.pending().contains(k) <==> self.waits(k) || self.running().dom().contains(k) by {
            assert(before.pending().contains(k) <==> before.waits(k) || before.running().dom().contains(k));
        }
        assert forall|k: BrickKey| #[trigger] self.running().dom().contains(k) implies !self.waits(k) by {
            assert(before.running().dom().contains(k));
        }
        assert forall|g: u64| #[trigger] self.spec_groups().sets().dom().contains(g) && self.whole(g) implies self.touched().contains(g) by {
            assert(before.whole(g)) by {
                assert forall|k: BrickKey| #[trigger] before.spec_groups().sets()[g].contains(k) implies before.staged().dom().contains(k) by {
                    assert(self.spec_groups().sets()[g].contains(k));
                    assert(self.staged().dom().contains(k));
                }
            }
        }
    }
}

/// What a staged result publishes: its entry, or nothing when the brick is empty.
pub open spec fn entry_of(s: Staged) -> Option<Entry> {
    match s.handle {
        Some(h) => Some(Entry { handle: h, record: s.deps.spec_record() }),
        None => None,
    }
}

impl Pipeline {
    /// Group `g` can be published.
    pub open spec fn is_ready(&self, g: u64) -> bool {
        self.touched().contains(g) && self.spec_groups().sets().dom().contains(g) && self.whole(g)
    }

    /// `ready` are the groups that can be published, in order.
    pub open spec fn all_ready(&self, ready: Seq<u64>) -> bool {
        increasing(ready) && forall|g: u64| #[trigger] ready.contains(g) <==> self.is_ready(g)
    }

    /// The changes that publishing group `g` makes.
    pub open spec fn group_changes(&self, g: u64) -> Seq<Change> {
        let ks = in_order(self.spec_groups().sets()[g]);
        Seq::new(ks.len(), |i: int| Change { key: ks[i], entry: entry_of(self.staged()[ks[i]]) })
    }

    /// The changes that publishing the first `n` groups of `ready` makes.
    pub open spec fn all_changes(&self, ready: Seq<u64>, n: nat) -> Seq<Change>
        decreases n,
    {
        if n == 0 {
            Seq::empty()
        } else {
            self.all_changes(ready, (n - 1) as nat) + self.group_changes(ready[n - 1])
        }
    }

    /// `k` is a member of one of the first `n` groups of `ready`.
    pub open spec fn leaves(&self, ready: Seq<u64>, n: int, k: BrickKey) -> bool {
        self.awaiting(k) && among(ready, n, self.spec_groups().of()[k])
    }

    /// Whether every member of group `g` is staged.
    fn is_whole(&self, g: u64) -> (r: bool)
        requires
            self.wf(),
        ensures
            r == (self.spec_groups().sets().dom().contains(g) && self.whole(g)),
    {
        match self.groups.members(g) {
            None => false,
            Some(m) => {
                proof {
                    m.lemma_order();
                }
                let n: usize = m.len();
                let mut i: usize = 0;
                while i < n
                    invariant
                        i <= n,
                        n == m.keys().len(),
                        m.wf(),
                        self.wf(),
                        m@.dom() == m.keys().to_set(),
                        self.spec_groups().sets()[g] == m@.dom(),
                        forall|k: BrickKey| #[trigger] among(m.keys(), i as int, k) ==> self.staged().dom().contains(k),
                    decreases n - i,
                {
                    let k = m.key_at(i);
                    proof {
                        lemma_among(m.keys(), i as int);
                        assert(m.keys().to_set().contains(k)) by {
                            assert(m.keys()[i as int] == k);
                        }
                    }
                    if !self.staged.contains(&k) {
                        assert(self.spec_groups().sets()[g].contains(k));
                        return false;
                    }
                    i += 1;
                }
                proof {
                    assert forall|k: BrickKey| #[trigger] self.spec_groups().sets()[g].contains(k) implies self.staged().dom().contains(k) by {
                        assert(m.keys().to_set().contains(k));
                        let j = choose|j: int| 0 <= j < m.keys().len() && m.keys()[j] == k;
                        assert(among(m.keys(), n as int, k));
                    }
                }
                true
            },
        }
    }

    /// The groups that can be published.
    fn ready(&self) -> (r: Vec<u64>)
        requires
            self.wf(),
        ensures
            self.all_ready(r@),
    {
        let mut out: Vec<u64> = Vec::new();
        proof {
            self.touched.lemma_order();
        }
        let ghost ts = self.touched.keys();
        let n: usize = self.touched.len();
        let mut i: usize = 0;
        while i < n
            invariant
                i <= n,
                n == ts.len(),
                ts == self.touched.keys(),
                increasing(ts),
                self.touched() == ts.to_set(),
                self.wf(),
                increasing(out@),
                forall|q: int| 0 <= q < out@.len() ==> among(ts, i as int, #[trigger] out@[q]) && self.is_ready(out@[q]),
                forall|g: u64| #[trigger] self.is_ready(g) && among(ts, i as int, g) ==> out@.contains(g),
            decreases n - i,
        {
            let g: u64 = self.touched.key_at(i);
            let ghost found = out@;
            proof {
                lemma_among(ts, i as int);
                assert(ts.to_set().contains(g)) by {
                    assert(ts[i as int] == g);
                }
            }
            if self.is_whole(g) {
                out.push(g);
            }
            proof {
                assert forall|a: int, b: int| 0 <= a < b < out@.len() implies (#[trigger] out@[a]).lt(#[trigger] out@[b]) by {
                    if b < found.len() {
                        assert(found[a].lt(found[b]));
                    } else {
                        assert(among(ts, i as int, found[a]));
                        let j = choose|j: int| 0 <= j < i && #[trigger] ts[j] == found[a];
                        assert(ts[j].lt(ts[i as int]));
                    }
                }
                assert forall|q: int| 0 <= q < out@.len() implies among(ts, i + 1, #[trigger] out@[q]) && self.is_ready(out@[q]) by {
                    if q < found.len() {
                        assert(out@[q] == found[q]);
                    }
                }
                assert forall|x: u64| #[trigger] self.is_ready(x) && among(ts, i + 1, x) implies out@.contains(x) by {
                    if x == g {
                        assert(out@[out@.len() - 1] == g);
                    } else {
                        assert(found.contains(x));
                        let q = choose|q: int| 0 <= q < found.len() && found[q] == x;
                        assert(out@[q] == x);
                    }
                }
            }
            i += 1;
        }
        proof {
            assert forall|g: u64| #[trigger] out@.contains(g) <==> self.is_ready(g) by {
                if out@.contains(g) {
                    let q = choose|q: int| 0 <= q < out@.len() && out@[q] == g;
                    assert(self.is_ready(out@[q]));
                }
                if self.is_ready(g) {
                    assert(ts.to_set().contains(g));
                    let j = choose|j: int| 0 <= j < ts.len() && ts[j] == g;
                    assert(among(ts, n as int, g));
                }
            }
        }
        out
    }

    /// Everything but groups and staging is as in `before`.
    closed spec fn taking(&self, before: &Pipeline) -> bool {
        &&& self.cfg == before.cfg
        &&& self.queue == before.queue
        &&& self.in_flight == before.in_flight
        &&& self.running == before.running
        &&& self.pending == before.pending
        &&& self.touched == before.touched
        &&& self.store == before.store
        &&& self.next_job == before.next_job
        &&& self.stats == before.stats
    }

    /// Takes group `g` and its results out of staging; its members, with their changes added to
    /// `changes`.
    fn take_group(&mut self, g: u64, changes: &mut Vec<Change>) -> (r: Vec<BrickKey>)
        requires
            old(self).groups.wf(),
            old(self).staged.wf(),
            old(self).groups.sets().dom().contains(g),
            forall|k: BrickKey| #[trigger] old(self).groups.sets()[g].contains(k) ==> old(self).staged().dom().contains(k),
        ensures
            final(self).taking(old(self)),
            final(self).groups.wf(),
            final(self).staged.wf(),
            r@ == in_order(old(self).groups.sets()[g]),
            final(changes)@ == old(changes)@ + old(self).group_changes(g),
            final(self).groups.spec_next() == old(self).groups.spec_next(),
            final(self).groups.sets() == old(self).groups.sets().remove(g),
            forall|k: BrickKey| #[trigger]
                final(self).groups.of().dom().contains(k) <==> old(self).groups.of().dom().contains(k) && old(self).groups.of()[k] != g,
            forall|k: BrickKey| #[trigger]
                final(self).groups.of().dom().contains(k) ==> final(self).groups.of()[k] == old(self).groups.of()[k],
            forall|k: BrickKey| #[trigger]
                final(self).staged().dom().contains(k) <==> old(self).staged().dom().contains(k) && !old(self).groups.sets()[g].contains(
                    k,
                ),
            forall|k: BrickKey| #[trigger]
                final(self).staged().dom().contains(k) ==> final(self).staged()[k] == old(self).staged()[k],
    {
        let ghost before = *self;
        let ghost prior = changes@;
        let ghost set = before.groups.sets()[g];
        let members = self.groups.dissolve(g);
        let ghost ks = members@;
        proof {
            law_order_is_unique(ks, ks);
        }
        let mut i: usize = 0;
        while i < members.len()
            invariant
                i <= ks.len(),
                ks == members@,
                increasing(ks),
                ks.to_set() == set,
                set == before.groups.sets()[g],
                ks == in_order(set),
                self.taking(&before),
                self.staged.wf(),
                self.groups.wf(),
                self.groups.spec_next() == before.groups.spec_next(),
                self.groups.sets() == before.groups.sets().remove(g),
                forall|k: BrickKey| #[trigger]
                    self.groups.of().dom().contains(k) <==> before.groups.of().dom().contains(k) && before.groups.of()[k] != g,
                forall|k: BrickKey| #[trigger] self.groups.of().dom().contains(k) ==> self.groups.of()[k] == before.groups.of()[k],
                forall|k: BrickKey| #[trigger] set.contains(k) ==> before.staged().dom().contains(k),
                forall|k: BrickKey| #[trigger]
                    self.staged().dom().contains(k) <==> before.staged().dom().contains(k) && !among(ks, i as int, k),
                forall|k: BrickKey| #[trigger] self.staged().dom().contains(k) ==> self.staged()[k] == before.staged()[k],
                changes@ =~= prior + before.group_changes(g).take(i as int),
            decreases ks.len() - i,
        {
            let k = members[i];
            proof {
                lemma_among(ks, i as int);
                assert(ks.to_set().contains(k)) by {
                    assert(ks[i as int] == k);
                }
                assert(!among(ks, i as int, k)) by {
                    if among(ks, i as int, k) {
                        let j = choose|j: int| 0 <= j < i && #[trigger] ks[j] == k;
                        assert(ks[j].lt(ks[i as int]));
                        BrickKey::lt_irreflexive(k);
                    }
                }
                assert(self.staged().dom().contains(k));
            }
            let ghost mid = *self;
            let entry = match self.staged.remove(&k) {
                Some(s) => match s.handle {
                    Some(h) => Some(Entry { handle: h, record: s.deps.inputs() }),
                    None => None,
                },
                None => None,
            };
            changes.push(Change { key: k, entry });
            proof {
                assert(before.group_changes(g)[i as int] == Change { key: k, entry: entry_of(before.staged()[k]) });
                assert forall|x: BrickKey| #[trigger] self.staged().dom().contains(x) implies self.staged()[x] == before.staged()[x] by {
                    assert(mid.staged().dom().contains(x));
                }
                assert forall|x: BrickKey| #[trigger] self.staged().dom().contains(x) <==> before.staged().dom().contains(x) && !among(
                    ks,
                    i + 1,
                    x,
                ) by {
                    assert(mid.staged().dom().contains(x) <==> before.staged().dom().contains(x) && !among(ks, i as int, x));
                }
            }
            i += 1;
        }
        proof {
            assert(before.group_changes(g).take(ks.len() as int) =~= before.group_changes(g));
            assert forall|k: BrickKey| #[trigger] among(ks, ks.len() as int, k) <==> set.contains(k) by {
                assert(ks.to_set().contains(k) == ks.contains(k));
                if ks.contains(k) {
                    let j = choose|j: int| 0 <= j < ks.len() && ks[j] == k;
                    assert(among(ks, ks.len() as int, k));
                }
            }
        }
        members
    }
}

impl Pipeline {
    /// `changes[i]` publishes the staged result of a leaving key.
    pub open spec fn publishes(&self, ready: Seq<u64>, n: int, c: Change) -> bool {
        self.leaves(ready, n, c.key) && self.staged().dom().contains(c.key) && c.entry == entry_of(self.staged()[c.key])
    }

    /// The changes of the first `n` ready groups are their members' staged results, each once.
    pub proof fn lemma_all_changes(&self, ready: Seq<u64>, n: nat)
        requires
            self.wf(),
            self.all_ready(ready),
            n <= ready.len(),
        ensures
            forall|i: int|
                0 <= i < self.all_changes(ready, n).len() ==> self.publishes(
                    ready,
                    n as int,
                    #[trigger] self.all_changes(ready, n)[i],
                ),
            forall|k: BrickKey| #[trigger]
                self.leaves(ready, n as int, k) ==> changed_among(
                    self.all_changes(ready, n),
                    self.all_changes(ready, n).len() as int,
                    k,
                ),
            distinct_keys(self.all_changes(ready, n)),
        decreases n,
    {
        let groups = self.spec_groups();
        groups.law_groups_partition_their_members();
        if n > 0 {
            let m = (n - 1) as nat;
            self.lemma_all_changes(ready, m);
            let a = self.all_changes(ready, m);
            let g = ready[m as int];
            let b = self.group_changes(g);
            let all = self.all_changes(ready, n);
            assert(all == a + b);
            assert(ready.contains(g));
            assert(self.is_ready(g));
            let set = groups.sets()[g];
            lemma_finite_in_order(set);
            let ks = in_order(set);
            lemma_among(ready, m as int);
            assert(!among(ready, m as int, g)) by {
                if among(ready, m as int, g) {
                    let j = choose|j: int| 0 <= j < m && #[trigger] ready[j] == g;
                    assert(ready[j].lt(ready[m as int]));
                }
            }
            assert forall|i: int| 0 <= i < b.len() implies set.contains((#[trigger] b[i]).key) && b[i].key == ks[i] && b[i].entry
                == entry_of(self.staged()[ks[i]]) by {
                assert(ks.to_set().contains(ks[i]));
            }
            assert forall|i: int| 0 <= i < all.len() implies self.publishes(ready, n as int, #[trigger] all[i]) by {
                if i < a.len() {
                    assert(all[i] == a[i]);
                    assert(self.publishes(ready, m as int, a[i]));
                } else {
                    let q = i - a.len();
                    assert(all[i] == b[q]);
                    assert(set.contains(b[q].key));
                    assert(groups.sets()[g].contains(b[q].key));
                }
            }
            assert forall|k: BrickKey| #[trigger] self.leaves(ready, n as int, k) implies changed_among(all, all.len() as int, k) by {
                if self.leaves(ready, m as int, k) {
                    let i = choose|i: int| 0 <= i < a.len() && (#[trigger] a[i]).key == k;
                    assert(all[i].key == k);
                } else {
                    assert(groups.of()[k] == g);
                    assert(set.contains(k));
                    assert(ks.to_set().contains(k));
                    let j = choose|j: int| 0 <= j < ks.len() && ks[j] == k;
                    assert(all[a.len() + j] == b[j]);
                    assert(all[a.len() + j].key == k);
                }
            }
            assert forall|i: int, j: int| 0 <= i < j < all.len() implies (#[trigger] all[i]).key != (#[trigger] all[j]).key by {
                if j < a.len() {
                    assert(a[i].key != a[j].key);
                } else if i >= a.len() {
                    let (p, q) = (i - a.len(), j - a.len());
                    assert(all[i] == b[p] && all[j] == b[q]);
                    assert(ks[p].lt(ks[q]));
                    BrickKey::lt_irreflexive(ks[p]);
                } else {
                    let q = j - a.len();
                    assert(all[i] == a[i] && all[j] == b[q]);
                    assert(self.publishes(ready, m as int, a[i]));
                    assert(groups.sets()[g].contains(b[q].key));
                }
            }
        }
    }

    /// There are no more changes than staged results.
    proof fn lemma_changes_bound(&self, ready: Seq<u64>)
        requires
            self.wf(),
            self.all_ready(ready),
        ensures
            self.all_changes(ready, ready.len()).len() <= self.staged().dom().len(),
            ready.len() <= self.staged().dom().len(),
    {
        let n = ready.len();
        let c = self.all_changes(ready, n);
        self.lemma_all_changes(ready, n);
        self.staged.lemma_order();
        let keys = Seq::new(c.len(), |i: int| c[i].key);
        assert forall|i: int, j: int| 0 <= i < keys.len() && 0 <= j < keys.len() && i != j implies keys[i] != keys[j] by {
            if i < j {
                assert(c[i].key != c[j].key);
            } else {
                assert(c[j].key != c[i].key);
            }
        }
        keys.unique_seq_to_set();
        assert(keys.to_set().subset_of(self.staged().dom())) by {
            assert forall|k: BrickKey| keys.to_set().contains(k) implies self.staged().dom().contains(k) by {
                let i = choose|i: int| 0 <= i < keys.len() && keys[i] == k;
                assert(self.publishes(ready, n as int, c[i]));
            }
        }
        vstd::set_lib::lemma_len_subset(keys.to_set(), self.staged().dom());
        // Every group has a member of its own.
        let groups = self.spec_groups();
        groups.law_groups_partition_their_members();
        let firsts = Seq::new(n, |i: int| choose|k: BrickKey| #[trigger] groups.sets()[ready[i]].contains(k));
        assert forall|i: int| 0 <= i < n implies groups.sets()[ready[i]].contains(#[trigger] firsts[i]) && groups.of()[firsts[i]] == ready[i]
            && self.staged().dom().contains(firsts[i]) by {
            assert(ready.contains(ready[i]));
            assert(self.is_ready(ready[i]));
            assert(groups.sets().dom().contains(ready[i]));
        }
        assert forall|i: int, j: int| 0 <= i < firsts.len() && 0 <= j < firsts.len() && i != j implies firsts[i] != firsts[j] by {
            assert(groups.of()[firsts[i]] == ready[i] && groups.of()[firsts[j]] == ready[j]);
            if i < j {
                assert(ready[i].lt(ready[j]));
            } else {
                assert(ready[j].lt(ready[i]));
            }
        }
        firsts.unique_seq_to_set();
        assert(firsts.to_set().subset_of(self.staged().dom())) by {
            assert forall|k: BrickKey| firsts.to_set().contains(k) implies self.staged().dom().contains(k) by {
                let i = choose|i: int| 0 <= i < firsts.len() && firsts[i] == k;
                assert(self.staged().dom().contains(firsts[i]));
            }
        }
        vstd::set_lib::lemma_len_subset(firsts.to_set(), self.staged().dom());
    }

    /// Takes every ready group and its results out of staging.
    fn take_ready(&mut self, ready: &Vec<u64>) -> (r: (Vec<Vec<BrickKey>>, Vec<Change>))
        requires
            old(self).wf(),
            old(self).all_ready(ready@),
        ensures
            final(self).taking(old(self)),
            final(self).groups.wf(),
            final(self).staged.wf(),
            final(self).groups.spec_next() == old(self).groups.spec_next(),
            r.0@.len() == ready@.len(),
            forall|i: int| 0 <= i < ready@.len() ==> (#[trigger] r.0@[i])@ == in_order(old(self).groups.sets()[ready@[i]]),
            r.1@ == old(self).all_changes(ready@, ready@.len()),
            forall|g: u64| #[trigger]
                final(self).groups.sets().dom().contains(g) <==> old(self).groups.sets().dom().contains(g) && !ready@.contains(g),
            forall|g: u64| #[trigger]
                final(self).groups.sets().dom().contains(g) ==> final(self).groups.sets()[g] == old(self).groups.sets()[g],
            forall|k: BrickKey| #[trigger]
                final(self).awaiting(k) <==> old(self).awaiting(k) && !old(self).leaves(ready@, ready@.len() as int, k),
            forall|k: BrickKey| #[trigger]
                final(self).staged().dom().contains(k) <==> old(self).staged().dom().contains(k) && !old(self).leaves(
                    ready@,
                    ready@.len() as int,
                    k,
                ),
            forall|k: BrickKey| #[trigger]
                final(self).staged().dom().contains(k) ==> final(self).staged()[k] == old(self).staged()[k],
    {
        let ghost before = *self;
        let mut lists: Vec<Vec<BrickKey>> = Vec::new();
        let mut changes: Vec<Change> = Vec::new();
        proof {
            before.groups.law_groups_partition_their_members();
        }
        let mut i: usize = 0;
        while i < ready.len()
            invariant
                i <= ready@.len(),
                before.wf(),
                before.all_ready(ready@),
                self.taking(&before),
                self.groups.wf(),
                self.staged.wf(),
                self.groups.spec_next() == before.groups.spec_next(),
                lists@.len() == i,
                forall|j: int| 0 <= j < i ==> (#[trigger] lists@[j])@ == in_order(before.groups.sets()[ready@[j]]),
                changes@ == before.all_changes(ready@, i as nat),
                forall|g: u64| #[trigger]
                    self.groups.sets().dom().contains(g) <==> before.groups.sets().dom().contains(g) && !among(ready@, i as int, g),
                forall|g: u64| #[trigger] self.groups.sets().dom().contains(g) ==> self.groups.sets()[g] == before.groups.sets()[g],
                forall|k: BrickKey| #[trigger]
                    self.groups.of().dom().contains(k) <==> before.awaiting(k) && !before.leaves(ready@, i as int, k),
                forall|k: BrickKey| #[trigger] self.groups.of().dom().contains(k) ==> self.groups.of()[k] == before.groups.of()[k],
                forall|k: BrickKey| #[trigger]
                    self.staged().dom().contains(k) <==> before.staged().dom().contains(k) && !before.leaves(ready@, i as int, k),
                forall|k: BrickKey| #[trigger] self.staged().dom().contains(k) ==> self.staged()[k] == before.staged()[k],
            decreases ready@.len() - i,
        {
            let g: u64 = ready[i];
            let ghost mid = *self;
            proof {
                before.groups.law_groups_partition_their_members();
                lemma_among(ready@, i as int);
                assert(ready@.contains(g)) by {
                    assert(ready@[i as int] == g);
                }
                assert(before.is_ready(g));
                assert(!among(ready@, i as int, g)) by {
                    if among(ready@, i as int, g) {
                        let j = choose|j: int| 0 <= j < i && #[trigger] ready@[j] == g;
                        assert(ready@[j].lt(ready@[i as int]));
                    }
                }
                assert(self.groups.sets().dom().contains(g));
                assert forall|k: BrickKey| #[trigger] self.groups.sets()[g].contains(k) implies self.staged().dom().contains(k)
                    && self.staged()[k] == before.staged()[k] by {
                    assert(before.groups.sets()[g].contains(k));
                    assert(before.groups.of()[k] == g);
                    assert(before.spec_groups().sets()[g].contains(k));
                    assert(before.staged().dom().contains(k));
                    assert(!before.leaves(ready@, i as int, k));
                    assert(self.staged().dom().contains(k) <==> before.staged().dom().contains(k) && !before.leaves(
                        ready@,
                        i as int,
                        k,
                    ));
                }
                lemma_finite_in_order(before.groups.sets()[g]);
                let ks = in_order(before.groups.sets()[g]);
                assert(self.group_changes(g) =~= before.group_changes(g)) by {
                    assert forall|q: int| 0 <= q < ks.len() implies self.group_changes(g)[q] == before.group_changes(g)[q] by {
                        assert(ks.to_set().contains(ks[q]));
                        assert(self.groups.sets()[g].contains(ks[q]));
                    }
                }
            }
            let members = self.take_group(g, &mut changes);
            lists.push(members);
            proof {
                assert forall|k: BrickKey| #[trigger] before.leaves(ready@, i + 1, k) <==> before.leaves(ready@, i as int, k) || (
                before.awaiting(k) && before.groups.of()[k] == g) by {}
                assert forall|x: u64| #[trigger] self.groups.sets().dom().contains(x) <==> before.groups.sets().dom().contains(x)
                    && !among(ready@, i + 1, x) by {
                    assert(mid.groups.sets().dom().contains(x) <==> before.groups.sets().dom().contains(x) && !among(
                        ready@,
                        i as int,
                        x,
                    ));
                }
                assert forall|x: u64| #[trigger] self.groups.sets().dom().contains(x) implies self.groups.sets()[x]
                    == before.groups.sets()[x] by {
                    assert(mid.groups.sets().dom().contains(x));
                }
                assert forall|k: BrickKey| #[trigger] self.groups.of().dom().contains(k) <==> before.awaiting(k) && !before.leaves(
                    ready@,
                    i + 1,
                    k,
                ) by {
                    assert(mid.groups.of().dom().contains(k) <==> before.awaiting(k) && !before.leaves(ready@, i as int, k));
                }
                assert forall|k: BrickKey| #[trigger] self.groups.of().dom().contains(k) implies self.groups.of()[k]
                    == before.groups.of()[k] by {
                    assert(mid.groups.of().dom().contains(k));
                }
                assert forall|k: BrickKey| #[trigger] self.staged().dom().contains(k) <==> before.staged().dom().contains(k)
                    && !before.leaves(ready@, i + 1, k) by {
                    assert(mid.staged().dom().contains(k) <==> before.staged().dom().contains(k) && !before.leaves(
                        ready@,
                        i as int,
                        k,
                    ));
                    assert(mid.groups.sets()[g] == before.groups.sets()[g]);
                    if before.awaiting(k) && before.groups.of()[k] == g {
                        assert(before.groups.sets()[g].contains(k));
                    }
                    if before.groups.sets()[g].contains(k) {
                        assert(before.groups.of()[k] == g);
                    }
                }
                assert forall|k: BrickKey| #[trigger] self.staged().dom().contains(k) implies self.staged()[k] == before.staged()[k] by {
                    assert(mid.staged().dom().contains(k));
                }
            }
            i += 1;
        }
        proof {
            let n = ready@.len() as int;
            assert forall|g: u64| #[trigger] among(ready@, n, g) <==> ready@.contains(g) by {
                if ready@.contains(g) {
                    let j = choose|j: int| 0 <= j < ready@.len() && ready@[j] == g;
                    assert(among(ready@, n, g));
                }
            }
            assert forall|k: BrickKey| #[trigger] self.awaiting(k) <==> before.awaiting(k) && !before.leaves(ready@, n, k) by {
                assert(self.groups.of().dom().contains(k) <==> before.awaiting(k) && !before.leaves(ready@, n, k));
            }
        }
        (lists, changes)
    }
}

/// The members of a finite set have an order.
proof fn lemma_finite_in_order(s: Set<BrickKey>)
    requires
        s.finite(),
    ensures
        increasing(in_order(s)),
        in_order(s).to_set() == s,
    decreases s.len(),
{
    let ks = lemma_some_order(s);
    law_order_is_unique(ks, ks);
}

proof fn lemma_some_order(s: Set<BrickKey>) -> (ks: Seq<BrickKey>)
    requires
        s.finite(),
    ensures
        increasing(ks),
        ks.to_set() == s,
    decreases s.len(),
{
    if s.len() == 0 {
        assert(s =~= Set::<BrickKey>::empty());
        let e = Seq::<BrickKey>::empty();
        assert(e.to_set() =~= s);
        e
    } else {
        let x = lemma_some_greatest(s);
        let rest = lemma_some_order(s.remove(x));
        let ks = rest.push(x);
        assert forall|i: int, j: int| 0 <= i < j < ks.len() implies (#[trigger] ks[i]).lt(#[trigger] ks[j]) by {
            if j < rest.len() {
                assert(rest[i].lt(rest[j]));
            } else {
                assert(rest.to_set().contains(rest[i]));
                assert(s.contains(rest[i]) && rest[i] != x);
            }
        }
        assert(ks.to_set() =~= s) by {
            assert forall|k: BrickKey| ks.to_set().contains(k) <==> s.contains(k) by {
                if ks.contains(k) {
                    let j = choose|j: int| 0 <= j < ks.len() && ks[j] == k;
                    if j < rest.len() {
                        assert(rest.to_set().contains(rest[j]));
                    }
                }
                if s.contains(k) {
                    if k == x {
                        assert(ks[rest.len() as int] == k);
                    } else {
                        assert(rest.to_set().contains(k));
                        let j = choose|j: int| 0 <= j < rest.len() && rest[j] == k;
                        assert(ks[j] == k);
                    }
                }
            }
        }
        ks
    }
}

proof fn lemma_some_greatest(s: Set<BrickKey>) -> (x: BrickKey)
    requires
        s.finite(),
        s.len() > 0,
    ensures
        s.contains(x),
        forall|k: BrickKey| #[trigger] s.contains(k) ==> k == x || k.lt(x),
    decreases s.len(),
{
    let a = s.choose();
    assert(s.contains(a));
    if s.len() == 1 {
        assert forall|k: BrickKey| #[trigger] s.contains(k) implies k == a by {
            if k != a {
                assert(s.remove(a).contains(k));
                assert(s.remove(a).len() == 0);
            }
        }
        a
    } else {
        let b = lemma_some_greatest(s.remove(a));
        BrickKey::lt_total(a, b);
        assert(s.contains(b));
        if a.lt(b) {
            assert forall|k: BrickKey| #[trigger] s.contains(k) implies k == b || k.lt(b) by {
                if k != a {
                    assert(s.remove(a).contains(k));
                }
            }
            b
        } else {
            assert forall|k: BrickKey| #[trigger] s.contains(k) implies k == a || k.lt(a) by {
                if k != a {
                    assert(s.remove(a).contains(k));
                    if k != b {
                        BrickKey::lt_transitive(k, b, a);
                    }
                }
            }
            a
        }
    }
}

impl Pipeline {
    /// Jobs and waiting keys are as in `before`.
    pub open spec fn same_work(&self, before: &Pipeline) -> bool {
        &&& self.config() == before.config()
        &&& self.flights() == before.flights()
        &&& self.running() == before.running()
        &&& self.pending() == before.pending()
        &&& self.backlog().line == before.backlog().line
        &&& self.backlog().spill == before.backlog().spill
    }

    /// What publication does once staging is valid.
    pub open spec fn published(&self, before: &Pipeline, world: &World, r: Option<Published>) -> bool {
        let b = before.backlog().stats;
        let old = before.spec_store();
        let store = self.spec_store();
        &&& self.same_work(before)
        &&& self.touched() == Set::<u64>::empty()
        &&& match r {
            None => {
                &&& forall|g: u64| !before.is_ready(g)
                &&& self.spec_groups() == before.spec_groups()
                &&& self.staged() == before.staged()
                &&& store == old
                &&& self.backlog().stats == (Stats {
                    publish_deferred: (b.publish_deferred + if before.spec_groups().sets() == Map::<u64, Set<BrickKey>>::empty() {
                        0int
                    } else {
                        1
                    }) as u64,
                    ..b
                })
            },
            Some(p) => exists|ready: Seq<u64>| #[trigger] before.all_ready(ready) && self.published_groups(before, world, ready, p),
        }
    }

    /// The groups `ready` were published as snapshot `p`.
    pub open spec fn published_groups(&self, before: &Pipeline, world: &World, ready: Seq<u64>, p: Published) -> bool {
        let b = before.backlog().stats;
        let old = before.spec_store();
        let store = self.spec_store();
        let n = ready.len();
        let changes = before.all_changes(ready, n);
        let retired = replaced(old.table(), changes, old.cur(), changes.len()).len();
        &&& n > 0
        &&& p.id.number == old.cur() + 1
        &&& p.groups@.len() == n
        &&& forall|i: int| 0 <= i < n ==> (#[trigger] p.groups@[i])@ == in_order(before.spec_groups().sets()[ready[i]])
        &&& self.spec_groups().spec_next() == before.spec_groups().spec_next()
        &&& forall|g: u64| #[trigger]
            self.spec_groups().sets().dom().contains(g) <==> before.spec_groups().sets().dom().contains(g) && !ready.contains(g)
        &&& forall|g: u64| #[trigger]
            self.spec_groups().sets().dom().contains(g) ==> self.spec_groups().sets()[g] == before.spec_groups().sets()[g]
        &&& forall|k: BrickKey| #[trigger] self.awaiting(k) <==> before.awaiting(k) && !before.leaves(ready, n as int, k)
        &&& forall|k: BrickKey| #[trigger]
            self.staged().dom().contains(k) <==> before.staged().dom().contains(k) && !before.leaves(ready, n as int, k)
        &&& forall|k: BrickKey| #[trigger] self.staged().dom().contains(k) ==> self.staged()[k] == before.staged()[k]
        &&& store.cur() == p.id.number
        &&& store.table() == applied(old.table(), changes, changes.len())
        &&& store.snaps()[store.cur()].spec_version().number == world.edits()
        &&& store.holding() == old.holding()
        &&& store.readers_made() == old.readers_made()
        &&& store.issued() == old.issued()
        &&& store.remembers(&old)
        &&& forall|id: u64| #[trigger] store.snaps().dom().contains(id) <==> id == store.cur() || old.held(id)
        &&& forall|id: u64| old.held(id) ==> #[trigger] store.snaps()[id] == old.snaps()[id]
        &&& (!old.spec_careless() ==> forall|id: u64, k: BrickKey|
            old.held(id) ==> #[trigger] store.seen(id, k) == old.seen(id, k))
        &&& forall|h: Handle| #[trigger]
            store.meshes().dom().contains(h) ==> old.meshes().dom().contains(h) && store.meshes()[h] == old.meshes()[h]
        &&& forall|h: Handle| #[trigger] store.loose(h) <==> old.loose(h) && !Store::publishes(changes, h)
        &&& old.retires(changes, &store)
        &&& old.shares(changes, &store)
        &&& self.backlog().stats == (Stats {
            groups_published: (b.groups_published + n) as u64,
            published: (b.published + 1) as u64,
            retired: (b.retired + retired) as u64,
            freed: (b.freed + old.fading().len() + retired - store.fading().len()) as u64,
            ..b
        })
    }

    /// Publishes every group whose members are all staged, as one new snapshot.
    pub fn try_publish(&mut self, world: &World) -> (r: Option<Published>)
        requires
            old(self).wf(),
            world.wf(),
            old(self).spec_stats().fits(2 * old(self).staged().dom().len() + old(self).spec_store().fading().len() + 1int),
        ensures
            final(self).wf(),
            final(self).settles(old(self)),
            exists|mid: Pipeline| mid.wf() && #[trigger] mid.revalidated(old(self), world) && final(self).published(&mid, world, r),
            old(self).spec_store().pool_room() ==> final(self).spec_store().pool_room(),
    {
        let ghost before = *self;
        proof {
            let n = before.staged().dom().len();
            assert(before.stats.fits(n + (n + before.store.fading().len() + 1int)));
            assert(before.stats.fits(n as int));
        }
        self.revalidate(world);
        let ghost mid = *self;
        proof {
            assert(mid.store.fading() == before.store.fading());
            assert(mid.stats.fits(before.staged().dom().len() + before.store.fading().len() + 1int));
            assert(mid.stats.fits(mid.staged().dom().len() + mid.store.fading().len() + 1int));
            mid.groups.law_groups_partition_their_members();
        }
        let ready = self.ready();
        if ready.len() == 0 {
            self.touched = SortedMap::new();
            if !self.groups.is_empty() {
                self.stats.publish_deferred = self.stats.publish_deferred + 1;
            }
            proof {
                assert(self.touched() =~= Set::<u64>::empty());
                assert forall|g: u64| !mid.is_ready(g) by {
                    assert(!ready@.contains(g));
                }
                self.lemma_published_nothing(&mid);
                assert(self.published(&mid, world, None));
                self.lemma_published_settles(&mid, &before, world, None);
            }
            return None;
        }
        proof {
            mid.lemma_changes_bound(ready@);
            mid.lemma_all_changes(ready@, ready@.len());
            mid.lemma_publishable(ready@);
        }
        let (groups, changes) = self.take_ready(&ready);
        let ghost took = *self;
        self.touched = SortedMap::new();
        let version = world.version();
        let done = self.store.publish(&changes, version);
        proof {
            lemma_replaced_bound(mid.store.table(), changes@, mid.store.cur(), changes@.len());
        }
        self.stats.groups_published = self.stats.groups_published + ready.len() as u64;
        self.stats.published = self.stats.published + 1;
        self.stats.retired = self.stats.retired + done.retired;
        self.stats.freed = self.stats.freed + done.freed;
        let r = Published { id: done.id, groups };
        proof {
            assert(self.touched() =~= Set::<u64>::empty());
            assert(self.staged() == took.staged() && self.spec_groups() == took.spec_groups());
            assert forall|k: BrickKey| #[trigger] self.awaiting(k) <==> mid.awaiting(k) && !mid.leaves(ready@, ready@.len() as int, k) by {
                assert(took.awaiting(k) <==> mid.awaiting(k) && !mid.leaves(ready@, ready@.len() as int, k));
            }
            assert(self.published_groups(&mid, world, ready@, r));
            assert(self.published(&mid, world, Some(r)));
            self.lemma_published_some(&mid, world, ready@, r);
            self.lemma_published_settles(&mid, &before, world, Some(r));
        }
        Some(r)
    }

    proof fn lemma_published_nothing(&self, before: &Pipeline)
        requires
            before.wf(),
            self.cfg == before.cfg,
            self.queue == before.queue,
            self.in_flight == before.in_flight,
            self.running == before.running,
            self.groups == before.groups,
            self.pending == before.pending,
            self.staged == before.staged,
            self.touched.wf(),
            self.touched() == Set::<u64>::empty(),
            self.store == before.store,
            self.next_job == before.next_job,
            self.stats.dirtied == before.stats.dirtied,
            self.stats.accepted == before.stats.accepted,
            self.stats.dispatched == before.stats.dispatched,
            self.stats.published == before.stats.published,
            forall|g: u64| !before.is_ready(g),
        ensures
            self.wf(),
            self.same_work(before),
            self.staged() == before.staged(),
            self.spec_groups() == before.spec_groups(),
            self.spec_store() == before.spec_store(),
    {
        assert(self.flights() == before.flights() && self.running() == before.running());
        assert forall|k: BrickKey| #[trigger] self.waits(k) == before.waits(k) by {}
        self.lemma_same_jobs(before);
        if !self.cfg.faults.skip_cancel {
            assert(self.spec_groups() == before.spec_groups() && self.pending() == before.pending());
            assert forall|k: BrickKey| #[trigger] self.awaiting(k) <==> self.pending().contains(k) || self.staged().dom().contains(k) by {
                assert(before.awaiting(k) <==> before.pending().contains(k) || before.staged().dom().contains(k));
            }
            assert forall|k: BrickKey| #[trigger] self.pending().contains(k) <==> self.waits(k) || self.running().dom().contains(k) by {
                assert(before.pending().contains(k) <==> before.waits(k) || before.running().dom().contains(k));
            }
            assert forall|k: BrickKey| #[trigger] self.running().dom().contains(k) implies !self.waits(k) by {
                assert(before.running().dom().contains(k));
            }
            assert forall|g: u64| #[trigger] self.spec_groups().sets().dom().contains(g) && self.whole(g) implies self.touched().contains(g) by {
                assert(before.whole(g)) by {
                    assert forall|k: BrickKey| #[trigger] before.spec_groups().sets()[g].contains(k) implies before.staged().dom().contains(k) by {
                        assert(self.spec_groups().sets()[g].contains(k));
                    }
                }
                assert(before.spec_groups().sets().dom().contains(g));
                assert(before.touched().contains(g));
                assert(before.is_ready(g));
            }
        }
    }

    /// The changes of the ready groups can be published.
    pub proof fn lemma_publishable(&self, ready: Seq<u64>)
        requires
            self.wf(),
            self.all_ready(ready),
        ensures
            self.spec_store().publishable(self.all_changes(ready, ready.len())),
    {
        let n = ready.len();
        let c = self.all_changes(ready, n);
        self.lemma_all_changes(ready, n);
        assert forall|i: int| 0 <= i < c.len() && (#[trigger] c[i]).entry is Some implies self.store.loose(c[i].entry->0.handle) by {
            assert(self.publishes(ready, n as int, c[i]));
            assert(self.staged().dom().contains(c[i].key));
        }
        assert forall|i: int, j: int| 0 <= i < j < c.len() && (#[trigger] c[i]).entry is Some && (#[trigger] c[j]).entry is Some implies c[i].entry->0.handle
            != c[j].entry->0.handle by {
            assert(self.publishes(ready, n as int, c[i]));
            assert(self.publishes(ready, n as int, c[j]));
            assert(c[i].key != c[j].key);
            assert(self.staged().dom().contains(c[i].key) && self.staged().dom().contains(c[j].key));
        }
    }

    proof fn lemma_published_some(&self, before: &Pipeline, world: &World, ready: Seq<u64>, p: Published)
        requires
            before.wf(),
            before.all_ready(ready),
            self.shaped(),
            self.in_flight == before.in_flight,
            self.running == before.running,
            self.next_job == before.next_job,
            self.same_work(before),
            self.touched() == Set::<u64>::empty(),
            self.published_groups(before, world, ready, p),
            before.stats.published < u64::MAX,
            forall|h: Handle| #[trigger]
                self.store.loose(h) <==> before.store.loose(h) && !Store::publishes(before.all_changes(ready, ready.len()), h),
        ensures
            self.wf(),
    {
        let n = ready.len();
        let c = before.all_changes(ready, n);
        before.lemma_all_changes(ready, n);
        assert(self.flights() == before.flights() && self.running() == before.running());
        assert forall|k: BrickKey| #[trigger] self.waits(k) == before.waits(k) by {}
        assert(self.jobs_known()) by {
            assert forall|k: BrickKey| #[trigger] self.running().dom().contains(k) implies {
                &&& self.flights().dom().contains(self.running()[k])
                &&& self.flights()[self.running()[k]].key == k
                &&& !self.flights()[self.running()[k]].cancelled
            } by {
                assert(before.running().dom().contains(k));
            }
        }
        assert(self.results_kept()) by {
            assert forall|k: BrickKey| #[trigger] self.staged().dom().contains(k) implies {
                &&& self.staged()[k].deps.wf()
                &&& self.staged()[k].deps.key() == k
                &&& self.awaiting(k)
                &&& (self.staged()[k].handle matches Some(h) ==> self.store.loose(h))
            } by {
                assert(before.staged().dom().contains(k));
                assert(before.awaiting(k));
                if let Some(h) = self.staged()[k].handle {
                    assert(before.store.loose(h));
                    if Store::publishes(c, h) {
                        let i = choose|i: int|
                            0 <= i < c.len() && (#[trigger] c[i]).entry is Some && c[i].entry->0.handle == h;
                        assert(before.publishes(ready, n as int, c[i]));
                        assert(before.staged().dom().contains(c[i].key));
                        assert(c[i].key != k);
                    }
                }
            }
            assert forall|k: BrickKey, l: BrickKey|
                #[trigger] self.staged().dom().contains(k) && #[trigger] self.staged().dom().contains(l) && k != l
                    && self.staged()[k].handle is Some implies self.staged()[k].handle != self.staged()[l].handle by {
                assert(before.staged().dom().contains(k) && before.staged().dom().contains(l));
            }
        }
        assert(self.results_owned()) by {
            assert forall|h: Handle| #[trigger] self.store.loose(h) implies self.stages(h) by {
                assert(before.store.loose(h));
                let k = choose|k: BrickKey| #[trigger] before.staged().dom().contains(k) && before.staged()[k].handle == Some(h);
                if before.leaves(ready, n as int, k) {
                    let i = choose|i: int| 0 <= i < c.len() && (#[trigger] c[i]).key == k;
                    assert(before.publishes(ready, n as int, c[i]));
                    assert(c[i].entry is Some && c[i].entry->0.handle == h);
                }
                assert(self.staged().dom().contains(k));
            }
        }
        assert(self.keys_inner()) by {
            law_applied(before.store.table(), c, c.len());
            assert forall|k: BrickKey| #[trigger] self.waits(k) implies k.inner() by {
                assert(before.waits(k));
            }
            assert forall|x: u64| #[trigger] self.flights().dom().contains(x) implies self.flights()[x].key.inner() by {
                assert(before.flights().dom().contains(x));
            }
            assert forall|k: BrickKey| #[trigger] self.store.table().dom().contains(k) implies k.inner() by {
                if changed_among(c, c.len() as int, k) {
                    let i = choose|i: int| 0 <= i < c.len() && (#[trigger] c[i]).key == k;
                    assert(before.publishes(ready, n as int, c[i]));
                    assert(before.staged().dom().contains(c[i].key));
                } else {
                    assert(before.store.table().dom().contains(k));
                }
            }
        }
        assert(self.counted());
        if !self.cfg.faults.skip_cancel {
            before.groups.law_groups_partition_their_members();
            assert forall|k: BrickKey| #[trigger] before.leaves(ready, n as int, k) implies before.staged().dom().contains(k) && !before.pending().contains(k) by {
                let i = choose|i: int| 0 <= i < c.len() && (#[trigger] c[i]).key == k;
                assert(before.publishes(ready, n as int, c[i]));
            }
            assert forall|k: BrickKey| #[trigger] self.awaiting(k) <==> self.pending().contains(k) || self.staged().dom().contains(k) by {
                assert(before.awaiting(k) <==> before.pending().contains(k) || before.staged().dom().contains(k));
            }
            assert forall|k: BrickKey| #[trigger] self.pending().contains(k) implies !self.staged().dom().contains(k) by {
                assert(before.pending().contains(k));
            }
            assert forall|k: BrickKey| #[trigger] self.pending().contains(k) <==> self.waits(k) || self.running().dom().contains(k) by {
                assert(before.pending().contains(k) <==> before.waits(k) || before.running().dom().contains(k));
            }
            assert forall|k: BrickKey| #[trigger] self.running().dom().contains(k) implies !self.waits(k) by {
                assert(before.running().dom().contains(k));
            }
            assert forall|g: u64| #[trigger] self.spec_groups().sets().dom().contains(g) && self.whole(g) implies self.touched().contains(g) by {
                assert(before.spec_groups().sets().dom().contains(g));
                assert(before.whole(g)) by {
                    assert forall|k: BrickKey| #[trigger] before.spec_groups().sets()[g].contains(k) implies before.staged().dom().contains(k) by {
                        assert(self.spec_groups().sets()[g].contains(k));
                        assert(self.staged().dom().contains(k));
                    }
                }
                assert(before.touched().contains(g));
                assert(before.is_ready(g));
                assert(ready.contains(g));
            }
        }
    }
}

proof fn lemma_replaced_bound(m: Map<BrickKey, Entry>, changes: Seq<Change>, last: u64, n: nat)
    requires
        n <= changes.len(),
    ensures
        replaced(m, changes, last, n).len() <= n,
    decreases n,
{
    if n > 0 {
        lemma_replaced_bound(m, changes, last, (n - 1) as nat);
    }
}

impl Pipeline {
    pub fn current(&self) -> (r: &Snapshot)
        requires
            self.wf(),
        ensures
            *r == self.spec_store().snaps()[self.spec_store().cur()],
            r.wf(),
            r.spec_id() == self.spec_store().cur(),
    {
        self.store.current()
    }

    /// True while `key` belongs to an unpublished group (its published value may be older than the
    /// world).
    pub fn is_awaiting(&self, key: BrickKey) -> (r: bool)
        requires
            self.wf(),
        ensures
            r == self.awaiting(key),
    {
        self.groups.group(key).is_some()
    }

    /// Everything but the store and its counters is as in `before`, and the current snapshot is.
    pub open spec fn same_table(&self, before: &Pipeline) -> bool {
        &&& self.same_work(before)
        &&& self.spec_groups() == before.spec_groups()
        &&& self.staged() == before.staged()
        &&& self.touched() == before.touched()
        &&& self.spec_store().cur() == before.spec_store().cur()
        &&& self.spec_store().table() == before.spec_store().table()
        &&& self.spec_store().issued() == before.spec_store().issued()
        &&& self.spec_store().remembers(&before.spec_store())
        &&& forall|h: Handle| #[trigger] self.spec_store().loose(h) <==> before.spec_store().loose(h)
        &&& forall|h: Handle| #[trigger]
            self.spec_store().meshes().dom().contains(h) ==> before.spec_store().meshes().dom().contains(h)
                && self.spec_store().meshes()[h] == before.spec_store().meshes()[h]
    }

    proof fn lemma_same_table(&self, before: &Pipeline)
        requires
            before.wf(),
            self.shaped(),
            self.same_table(before),
            self.next_job == before.next_job,
            self.stats.dirtied == before.stats.dirtied,
            self.stats.accepted == before.stats.accepted,
            self.stats.dispatched == before.stats.dispatched,
            self.stats.published == before.stats.published,
        ensures
            self.wf(),
    {
        assert forall|k: BrickKey| #[trigger] self.waits(k) == before.waits(k) by {}
        assert(self.jobs_known()) by {
            assert forall|k: BrickKey| #[trigger] self.running().dom().contains(k) implies {
                &&& self.flights().dom().contains(self.running()[k])
                &&& self.flights()[self.running()[k]].key == k
                &&& !self.flights()[self.running()[k]].cancelled
            } by {
                assert(before.running().dom().contains(k));
            }
        }
        self.lemma_results_kept(before);
        self.lemma_results_owned(before);
        assert(self.keys_inner()) by {
            assert forall|k: BrickKey| #[trigger] self.waits(k) implies k.inner() by {
                assert(before.waits(k));
            }
            assert forall|x: u64| #[trigger] self.flights().dom().contains(x) implies self.flights()[x].key.inner() by {
                assert(before.flights().dom().contains(x));
            }
        }
        assert(self.counted()) by {
            assert forall|g: u64| #[trigger] self.touched().contains(g) implies g < self.groups.spec_next() by {
                assert(before.touched().contains(g));
            }
        }
        if !self.cfg.faults.skip_cancel {
            self.lemma_same_tracking(before);
        }
    }

    /// A reader of the current snapshot.
    pub fn acquire(&mut self) -> (t: ReaderToken)
        requires
            old(self).wf(),
            old(self).spec_store().readers_made() < u64::MAX,
        ensures
            final(self).wf(),
            final(self).settles(old(self)),
            final(self).same_table(old(self)),
            final(self).spec_stats() == old(self).spec_stats(),
            t.snapshot.number == old(self).spec_store().cur(),
            t.id.number == old(self).spec_store().readers_made(),
            final(self).spec_store().readers_made() == old(self).spec_store().readers_made() + 1,
            final(self).spec_store().holding() == old(self).spec_store().holding().insert(
                t.id.number,
                old(self).spec_store().cur(),
            ),
            final(self).spec_store().snaps() == old(self).spec_store().snaps(),
            final(self).spec_store().meshes() == old(self).spec_store().meshes(),
            final(self).spec_store().fading() == old(self).spec_store().fading(),
            old(self).spec_store().pool_room() ==> final(self).spec_store().pool_room(),
    {
        let ghost before = *self;
        let t = self.store.acquire();
        proof {
            assert forall|id: u64, k: BrickKey| #[trigger] self.store.has(id, k) == before.store.has(id, k) by {}
            assert forall|h: Handle| #[trigger] self.store.loose(h) <==> before.store.loose(h) by {
                if before.store.loose(h) {
                    assert forall|id: u64, k: BrickKey| #[trigger] self.store.has(id, k) implies self.store.handle_at(id, k) != h by {
                        assert(before.store.has(id, k));
                    }
                }
                if self.store.loose(h) {
                    assert forall|id: u64, k: BrickKey| #[trigger] before.store.has(id, k) implies before.store.handle_at(id, k) != h by {
                        assert(self.store.has(id, k));
                    }
                }
            }
            self.lemma_same_table(&before);
            self.lemma_acquired_settles(&before);
        }
        t
    }

    /// Ends a reader's claim, and frees what only that reader could see.
    pub fn release(&mut self, token: ReaderToken) -> (r: Result<(), ReadError>)
        requires
            old(self).wf(),
            old(self).spec_stats().freed + old(self).spec_store().fading().len() <= u64::MAX,
        ensures
            final(self).wf(),
            final(self).settles(old(self)),
            final(self).same_table(old(self)),
            r is Ok == old(self).spec_store().holding().dom().contains(token.id.number),
            r matches Err(e) ==> e == ReadError::UnknownReader && *final(self) == *old(self),
            final(self).spec_store().holding() == old(self).spec_store().holding().remove(token.id.number),
            final(self).spec_store().readers_made() == old(self).spec_store().readers_made(),
            final(self).spec_store().fading().len() <= old(self).spec_store().fading().len(),
            final(self).spec_stats() == (Stats {
                freed: (old(self).spec_stats().freed + old(self).spec_store().fading().len() - final(self).spec_store().fading().len()) as u64,
                ..old(self).spec_stats()
            }),
            r is Ok ==> final(self).spec_store().swept(old(self).spec_store().meshes().dom(), old(self).spec_store().fading()),
            forall|i: u64| #[trigger]
                final(self).spec_store().snaps().dom().contains(i) <==> old(self).spec_store().snaps().dom().contains(i) && (i
                    == final(self).spec_store().cur() || final(self).spec_store().held(i)),
            forall|i: u64| #[trigger]
                final(self).spec_store().snaps().dom().contains(i) ==> final(self).spec_store().snaps()[i] == old(self).spec_store().snaps()[i],
            old(self).spec_store().pool_room() ==> final(self).spec_store().pool_room(),
    {
        let ghost before = *self;
        match self.store.release(token.id) {
            None => {
                proof {
                    assert(before.store.holding() =~= before.store.holding().remove(token.id.number));
                    self.lemma_unpublished_goes_on(&before);
                }
                Err(ReadError::UnknownReader)
            },
            Some(freed) => {
                self.stats.freed = self.stats.freed + freed;
                proof {
                    self.lemma_same_table(&before);
                    self.lemma_released_settles(&before);
                }
                Ok(())
            },
        }
    }

    /// Reads `key` from the reader's snapshot. `Ok(None)` means the brick is absent (empty) in that
    /// snapshot.
    pub fn read(&self, token: &ReaderToken, key: BrickKey) -> (r: Result<Option<&BrickMesh>, ReadError>)
        requires
            self.wf(),
        ensures
            ({
                let store = self.spec_store();
                let held = store.holding()[token.id.number];
                match r {
                    Err(ReadError::UnknownReader) => !store.holding().dom().contains(token.id.number),
                    Err(ReadError::Dangling { key: k }) => {
                        &&& k == key
                        &&& store.holding().dom().contains(token.id.number)
                        &&& store.has(held, key)
                        &&& !store.meshes().dom().contains(store.handle_at(held, key))
                    },
                    Ok(None) => store.holding().dom().contains(token.id.number) && !store.has(held, key),
                    Ok(Some(m)) => store.holding().dom().contains(token.id.number) && store.has(held, key) && store.seen(held, key)
                        == Some(*m),
                }
            }),
            !self.config().faults.retire_without_readers ==> !(r matches Err(ReadError::Dangling { key: _ })),
    {
        self.store.read(token.id, key)
    }

    /// Resolves a handle directly.
    pub fn resolve(&self, h: Handle) -> (r: Option<&BrickMesh>)
        ensures
            match r {
                Some(m) => self.spec_store().meshes().dom().contains(h) && *m == self.spec_store().meshes()[h],
                None => !self.spec_store().meshes().dom().contains(h),
            },
    {
        self.store.resolve(h)
    }

    /// The first entry of a live snapshot that does not resolve, by snapshot, then by key.
    pub fn check_live_handles(&self) -> (r: Result<(), DanglingEntry>)
        requires
            self.wf(),
        ensures
            match r {
                Ok(_) => forall|id: u64, k: BrickKey| #[trigger]
                    self.spec_store().has(id, k) ==> self.spec_store().meshes().dom().contains(self.spec_store().handle_at(id, k)),
                Err(d) => {
                    &&& self.spec_store().has(d.snapshot.number, d.key)
                    &&& self.spec_store().handle_at(d.snapshot.number, d.key) == d.handle
                    &&& !self.spec_store().meshes().dom().contains(d.handle)
                    &&& forall|id: u64, k: BrickKey| #[trigger]
                        self.spec_store().has(id, k) && (id < d.snapshot.number || (id == d.snapshot.number && k.lt(d.key)))
                            ==> self.spec_store().meshes().dom().contains(self.spec_store().handle_at(id, k))
                },
            },
            !self.config().faults.retire_without_readers ==> r is Ok,
    {
        self.store.check_live_handles()
    }

    pub fn stats(&self) -> (r: Stats)
        ensures
            r == self.spec_stats(),
    {
        self.stats
    }

    pub fn pool_stats(&self) -> (r: PoolStats)
        requires
            self.wf(),
        ensures
            r == self.spec_store().spec_pool().spec_stats(),
            r.live == self.spec_store().meshes().dom().len(),
            r.allocations == self.spec_store().issued(),
            r.frees == self.spec_store().issued() - r.live,
    {
        self.store.pool_stats()
    }

    /// Whether another result can be stored.
    pub fn has_room(&self) -> (r: bool)
        requires
            self.wf(),
        ensures
            r == self.spec_store().pool_room(),
    {
        self.store.has_room()
    }

    pub fn pending_len(&self) -> (r: usize)
        requires
            self.wf(),
        ensures
            r == self.pending().len(),
    {
        self.pending.len()
    }

    /// How many accepted results wait for publication.
    pub fn staged_len(&self) -> (r: usize)
        requires
            self.wf(),
        ensures
            r == self.staged().dom().len(),
    {
        self.staged.len()
    }

    pub fn in_flight_len(&self) -> (r: usize)
        requires
            self.wf(),
        ensures
            r == self.flights().dom().len(),
    {
        self.in_flight.len()
    }

    pub fn queue_len(&self) -> (r: usize)
        ensures
            r == self.backlog().line.len(),
    {
        self.queue.queue_len()
    }

    pub fn overflow_len(&self) -> (r: usize)
        requires
            self.wf(),
        ensures
            r == self.backlog().spill.len(),
    {
        self.queue.overflow_len()
    }

    pub fn live_snapshots(&self) -> (r: usize)
        requires
            self.wf(),
        ensures
            r == self.spec_store().snaps().dom().len(),
    {
        self.store.live_snapshots()
    }

    /// How many readers there have been.
    pub fn acquired(&self) -> (r: u64)
        ensures
            r == self.spec_store().readers_made(),
    {
        self.store.acquired()
    }

    pub fn retiring_len(&self) -> (r: usize)
        ensures
            r == self.spec_store().fading().len(),
    {
        self.store.retiring_len()
    }

    pub open spec fn idle(&self) -> bool {
        &&& self.backlog().line.len() == 0
        &&& self.backlog().spill == Set::<BrickKey>::empty()
        &&& self.flights() == Map::<u64, InFlight>::empty()
        &&& self.pending() == Set::<BrickKey>::empty()
        &&& self.staged() == Map::<BrickKey, Staged>::empty()
        &&& self.spec_groups().sets() == Map::<u64, Set<BrickKey>>::empty()
    }

    /// Nothing queued, running, pending, staged or awaiting publication.
    pub fn is_idle(&self) -> (r: bool)
        requires
            self.wf(),
        ensures
            r == self.idle(),
    {
        proof {
            self.queue.law_queue_is_bounded();
            self.pending.lemma_order();
            if self.pending@ == Map::<BrickKey, ()>::empty() {
                assert(self.pending() =~= Set::<BrickKey>::empty());
            }
            if self.pending() == Set::<BrickKey>::empty() {
                assert(self.pending@ =~= Map::<BrickKey, ()>::empty());
            }
            if self.backlog().spill.len() == 0 {
                assert(self.backlog().spill =~= Set::<BrickKey>::empty());
            }
        }
        self.queue.queue_len() == 0 && self.queue.overflow_len() == 0 && self.in_flight.is_empty() && self.pending.is_empty()
            && self.staged.is_empty() && self.groups.is_empty()
    }

    /// The store of published results is sound, so its laws hold of it. It frees replaced results without
    /// regard to readers only where that fault is planted.
    pub proof fn law_store_is_sound(&self)
        requires
            self.wf(),
        ensures
            self.spec_store().wf(),
            self.spec_store().spec_careless() == self.config().faults.retire_without_readers,
    {
    }

    /// Where nothing is unpublished, no key awaits publication.
    pub proof fn law_idle_pipelines_await_nothing(&self)
        requires
            self.wf(),
            self.idle(),
        ensures
            forall|k: BrickKey| !#[trigger] self.awaiting(k),
    {
        self.groups.law_groups_partition_their_members();
        assert forall|k: BrickKey| !#[trigger] self.awaiting(k) by {
            if self.awaiting(k) {
                assert(self.groups.sets().dom().contains(self.groups.of()[k]));
            }
        }
    }

    /// A running job is in flight, for its key and not cancelled; a job in flight was dispatched, and its
    /// number is below how many were; and finitely many keys wait.
    pub proof fn law_jobs_are_known(&self)
        requires
            self.wf(),
        ensures
            forall|k: BrickKey| #[trigger]
                self.running().dom().contains(k) ==> {
                    &&& self.flights().dom().contains(self.running()[k])
                    &&& self.flights()[self.running()[k]].key == k
                    &&& !self.flights()[self.running()[k]].cancelled
                },
            forall|id: u64| #[trigger] self.flights().dom().contains(id) ==> id < self.spec_stats().dispatched,
            self.flights().dom().finite(),
            self.backlog().spill.finite(),
            self.pending().finite(),
            self.staged().dom().finite(),
    {
        self.in_flight.lemma_order();
        self.pending.lemma_order();
        self.staged.lemma_order();
        self.queue.law_queue_is_bounded();
    }

    /// A member of an unpublished group is pending or staged, and a pending key waits or has a
    /// running job: nothing is dropped.
    pub proof fn law_nothing_is_lost(&self)
        requires
            self.wf(),
            !self.config().faults.skip_cancel,
        ensures
            self.nothing_lost(),
    {
    }

    /// The queue holds at most its capacity, at most the limit of jobs is in flight, and keys
    /// overflow only from a full queue.
    pub proof fn law_load_is_bounded(&self)
        requires
            self.wf(),
        ensures
            self.backlog().line.len() <= self.config().queue_capacity,
            self.flights().dom().len() <= self.config().max_in_flight,
            self.backlog().spill != Set::<BrickKey>::empty() ==> self.backlog().line.len() == self.config().queue_capacity,
            self.backlog().line.no_duplicates(),
            forall|k: BrickKey| #[trigger] self.backlog().spill.contains(k) ==> !self.backlog().line.contains(k),
    {
        self.queue.law_queue_is_bounded();
    }

    /// A pipeline that is not idle has a key to dispatch, a job to hand back or a group to publish.
    pub proof fn law_work_goes_on(&self)
        requires
            self.wf(),
            !self.config().faults.skip_cancel,
            !self.idle(),
        ensures
            self.backlog().line.len() > 0 || self.flights() != Map::<u64, InFlight>::empty() || exists|g: u64| #[trigger] self.is_ready(g),
    {
        self.queue.law_queue_is_bounded();
        self.groups.law_groups_partition_their_members();
        if self.backlog().line.len() == 0 && self.flights() == Map::<u64, InFlight>::empty() {
            assert(self.backlog().spill == Set::<BrickKey>::empty());
            assert forall|k: BrickKey| !#[trigger] self.pending().contains(k) by {
                if self.pending().contains(k) {
                    assert(!self.waits(k));
                    assert(self.running().dom().contains(k));
                    assert(self.flights().dom().contains(self.running()[k]));
                }
            }
            assert(self.pending() =~= Set::<BrickKey>::empty());
            if self.spec_groups().sets() == Map::<u64, Set<BrickKey>>::empty() {
                assert forall|k: BrickKey| !self.staged().dom().contains(k) by {
                    if self.staged().dom().contains(k) {
                        assert(self.awaiting(k));
                    }
                }
                assert(self.staged() =~= Map::<BrickKey, Staged>::empty());
            } else {
                let sets = self.spec_groups().sets();
                assert(exists|g: u64| sets.dom().contains(g)) by {
                    if forall|g: u64| !sets.dom().contains(g) {
                        assert(sets =~= Map::<u64, Set<BrickKey>>::empty());
                    }
                }
                let g = choose|g: u64| sets.dom().contains(g);
                assert(self.whole(g)) by {
                    assert forall|k: BrickKey| #[trigger] self.spec_groups().sets()[g].contains(k) implies self.staged().dom().contains(k) by {
                        assert(self.awaiting(k));
                        assert(!self.pending().contains(k));
                    }
                }
                assert(self.touched().contains(g));
                assert(self.is_ready(g));
            }
        }
    }

    /// A published group appears all at once: every member shows its staged result, and no other
    /// key changes.
    pub proof fn law_groups_publish_whole(&self, before: &Pipeline, world: &World, ready: Seq<u64>, p: Published)
        requires
            before.wf(),
            before.all_ready(ready),
            self.published_groups(before, world, ready, p),
        ensures
            forall|g: u64, k: BrickKey|
                ready.contains(g) && #[trigger] before.spec_groups().sets()[g].contains(k) ==> !self.awaiting(k) && match entry_of(
                    before.staged()[k],
                ) {
                    Some(e) => self.spec_store().table().dom().contains(k) && self.spec_store().table()[k] == e,
                    None => !self.spec_store().table().dom().contains(k),
                },
            forall|k: BrickKey|
                !#[trigger] before.leaves(ready, ready.len() as int, k) ==> self.spec_store().table().dom().contains(k)
                    == before.spec_store().table().dom().contains(k) && (before.spec_store().table().dom().contains(k)
                    ==> self.spec_store().table()[k] == before.spec_store().table()[k]),
    {
        let n = ready.len();
        let c = before.all_changes(ready, n);
        before.lemma_all_changes(ready, n);
        law_applied(before.spec_store().table(), c, c.len());
        before.spec_groups().law_groups_partition_their_members();
        assert forall|g: u64, k: BrickKey| ready.contains(g) && #[trigger] before.spec_groups().sets()[g].contains(k) implies !self.awaiting(k)
            && match entry_of(before.staged()[k]) {
            Some(e) => self.spec_store().table().dom().contains(k) && self.spec_store().table()[k] == e,
            None => !self.spec_store().table().dom().contains(k),
        } by {
            assert(before.is_ready(g));
            let j = choose|j: int| 0 <= j < ready.len() && ready[j] == g;
            assert(among(ready, n as int, g));
            assert(before.leaves(ready, n as int, k));
            let i = choose|i: int| 0 <= i < c.len() && (#[trigger] c[i]).key == k;
            assert(before.publishes(ready, n as int, c[i]));
        }
        assert forall|k: BrickKey| !#[trigger] before.leaves(ready, n as int, k) implies self.spec_store().table().dom().contains(k)
            == before.spec_store().table().dom().contains(k) && (before.spec_store().table().dom().contains(k) ==> self.spec_store().table()[k]
            == before.spec_store().table()[k]) by {
            if changed_among(c, c.len() as int, k) {
                let i = choose|i: int| 0 <= i < c.len() && (#[trigger] c[i]).key == k;
                assert(before.publishes(ready, n as int, c[i]));
            }
        }
    }
}

/// What the mesh of brick `k` is in `world`, if there is such a brick.
pub open spec fn truth(world: &World, k: BrickKey, merge: Merge) -> Option<Seq<Quad>> {
    if world.map().dom().contains(k) {
        Some(mesh_quads(world_view(world, k), merge))
    } else {
        None
    }
}

pub open spec fn quads_of(mesh: Option<BrickMesh>) -> Option<Seq<Quad>> {
    match mesh {
        Some(m) => Some(m.quads@),
        None => None,
    }
}

/// `deps` and `output` record an earlier state of `world`, and the mesh that it had.
pub open spec fn honest(deps: &Dependencies, output: Option<Seq<Quad>>, world: &World, merge: Merge) -> bool {
    exists|e: World|
        e.wf() && #[trigger] world.follows(&e) && recorded_from(deps, &e) && output == truth(&e, deps.key(), merge)
}

/// An honest result whose inputs are unchanged is the world's own mesh.
pub proof fn law_current_results_are_true(deps: &Dependencies, output: Option<Seq<Quad>>, world: &World, merge: Merge)
    requires
        deps.wf(),
        world.wf(),
        honest(deps, output, world, merge),
        deps.current(world),
    ensures
        output == truth(world, deps.key(), merge),
{
    let e = choose|e: World|
        e.wf() && #[trigger] world.follows(&e) && recorded_from(deps, &e) && output == truth(&e, deps.key(), merge);
    law_current_dependencies_mean_the_same_mesh(deps, &e, world, merge);
}

/// The result of a job records the world that its inputs were captured from.
pub proof fn law_job_results_are_honest(job: &Job, result: &JobResult, dispatched: &World, world: &World)
    requires
        dispatched.wf(),
        world.follows(dispatched),
        job.inputs.wf(),
        job.inputs.of(dispatched, job.key),
        job.gives(result),
    ensures
        result.deps.key() == job.key,
        honest(&result.deps, quads_of(result.output), world, job.merge),
{
    law_dependencies_record_the_world(&result.deps, &job.inputs, dispatched, job.key);
    law_capture_extracts_the_world_mesh(&job.inputs, dispatched, job.key, job.merge);
    assert(same_voxels(job.inputs.spec_bricks()[0], dispatched.spec_brick(job.inputs.spec_record().keys@[0])));
    assert(world.follows(dispatched));
}

/// What an earlier record said of the world stays true of what the world becomes.
proof fn lemma_honest_later(deps: &Dependencies, output: Option<Seq<Quad>>, world: &World, later: &World, merge: Merge)
    requires
        honest(deps, output, world, merge),
        later.follows(world),
    ensures
        honest(deps, output, later, merge),
{
    let e = choose|e: World|
        e.wf() && #[trigger] world.follows(&e) && recorded_from(deps, &e) && output == truth(&e, deps.key(), merge);
    World::law_follows(&e, world, later);
    assert(later.follows(&e));
}

impl Pipeline {
    /// The mesh that the current snapshot holds for `k`.
    pub open spec fn shown(&self, k: BrickKey) -> Option<Seq<Quad>> {
        quads_of(self.spec_store().seen(self.spec_store().cur(), k))
    }

    /// The staged mesh of `k`.
    pub open spec fn staged_mesh(&self, k: BrickKey) -> Option<Seq<Quad>> {
        match self.staged()[k].handle {
            Some(h) => Some(self.spec_store().meshes()[h].quads@),
            None => None,
        }
    }

    /// Staged results record states of `world`, and those validated now are true of it.
    pub open spec fn stages_faithfully(&self, world: &World) -> bool {
        forall|k: BrickKey| #[trigger]
            self.staged().dom().contains(k) ==> {
                &&& honest(&self.staged()[k].deps, self.staged_mesh(k), world, self.config().merge)
                &&& self.staged()[k].validated_at.number <= world.edits()
                &&& self.staged()[k].validated_at.number == world.edits() ==> self.staged()[k].deps.current(world)
            }
    }

    /// The pipeline is up to date: every key that is not awaiting publication shows `world`'s mesh.
    pub open spec fn faithful(&self, world: &World) -> bool {
        &&& self.stages_faithfully(world)
        &&& forall|k: BrickKey| k.inner() && !#[trigger] self.awaiting(k) ==> self.shown(k) == truth(world, k, self.config().merge)
    }

    /// An idle pipeline shows the world: every brick has the mesh that the world gives it.
    pub proof fn law_idle_pipeline_shows_the_world(&self, world: &World)
        requires
            self.wf(),
            self.faithful(world),
            self.idle(),
        ensures
            forall|k: BrickKey| k.inner() ==> #[trigger] self.shown(k) == truth(world, k, self.config().merge),
    {
        self.groups.law_groups_partition_their_members();
        assert forall|k: BrickKey| k.inner() implies #[trigger] self.shown(k) == truth(world, k, self.config().merge) by {
            assert(!self.awaiting(k));
        }
    }

    /// A pipeline with nothing staged is up to date once every brick of the world and every
    /// published key is marked.
    pub proof fn law_marking_all_catches_up(&self, before: &Pipeline, world: &World)
        requires
            before.wf(),
            self.wf(),
            world.wf(),
            before.stages_faithfully(world),
            self.batched(before, world.map().dom().union(before.spec_store().table().dom())),
        ensures
            self.faithful(world),
    {
        let keys = world.map().dom().union(before.spec_store().table().dom());
        if keys == Set::<BrickKey>::empty() {
            assert forall|k: BrickKey| k.inner() && !#[trigger] self.awaiting(k) implies self.shown(k) == truth(
                world,
                k,
                self.config().merge,
            ) by {
                assert(!keys.contains(k));
            }
        } else {
            let ks = in_order(keys);
            self.lemma_marked_stages(before, ks, world);
            assert forall|k: BrickKey| k.inner() && !#[trigger] self.awaiting(k) implies self.shown(k) == truth(
                world,
                k,
                self.config().merge,
            ) by {
                assert(!keys.contains(k));
                assert(!before.spec_store().table().dom().contains(k));
                assert(!self.spec_store().table().dom().contains(k));
            }
        }
    }

    /// Marking keys keeps what is still staged.
    proof fn lemma_marked_stages(&self, before: &Pipeline, ks: Seq<BrickKey>, world: &World)
        requires
            before.wf(),
            before.stages_faithfully(world),
            self.dirtied(before, ks, ks.len()),
        ensures
            self.stages_faithfully(world),
            self.spec_store().table() == before.spec_store().table(),
    {
        assert forall|k: BrickKey| #[trigger] self.staged().dom().contains(k) implies {
            &&& honest(&self.staged()[k].deps, self.staged_mesh(k), world, self.config().merge)
            &&& self.staged()[k].validated_at.number <= world.edits()
            &&& self.staged()[k].validated_at.number == world.edits() ==> self.staged()[k].deps.current(world)
        } by {
            assert(before.staged().dom().contains(k));
            if let Some(h) = before.staged()[k].handle {
                assert(before.store.loose(h));
                if before.discards(ks, ks.len() as int, h) {
                    let l = choose|l: BrickKey| #[trigger]
                        before.staged().dom().contains(l) && among(ks, ks.len() as int, l) && before.staged()[l].handle == Some(h);
                    assert(l != k);
                }
                assert(self.spec_store().meshes().dom().contains(h));
            }
        }
    }

    /// The current snapshot's meshes are untouched by marking.
    proof fn lemma_marked_shows(&self, before: &Pipeline, ks: Seq<BrickKey>, k: BrickKey)
        requires
            before.wf(),
            self.wf(),
            self.dirtied(before, ks, ks.len()),
        ensures
            self.shown(k) == before.shown(k),
    {
        let cur = before.spec_store().cur();
        self.spec_store().law_live_entries_resolve();
        before.spec_store().law_live_entries_resolve();
        assert(self.spec_store().table() == before.spec_store().table());
        if before.spec_store().has(cur, k) {
            assert(self.spec_store().table().dom().contains(k));
            assert(before.spec_store().table().dom().contains(k));
        }
    }

    /// An edit that is notified keeps the pipeline up to date: whatever it can change is awaiting
    /// publication again.
    pub proof fn law_edits_keep_up(&self, before: &Pipeline, world: &World, edited: &World, changed: Seq<VoxelCoord>)
        requires
            before.wf(),
            self.wf(),
            world.wf(),
            edited.wf(),
            edited.follows(world),
            before.faithful(world),
            forall|p: VoxelCoord| !changed.contains(p) ==> #[trigger] edited.at(p) == world.at(p),
            self.batched(before, dirtied_by(changed, changed.len() as int, false)),
        ensures
            self.faithful(edited),
    {
        let keys = dirtied_by(changed, changed.len() as int, false);
        let merge = before.config().merge;
        before.lemma_stages_later(world, edited);
        let ks = in_order(keys);
        if keys != Set::<BrickKey>::empty() {
            self.lemma_marked_stages(before, ks, edited);
        }
        assert forall|k: BrickKey| k.inner() && !#[trigger] self.awaiting(k) implies self.shown(k) == truth(edited, k, merge) by {
            assert(!keys.contains(k));
            assert(!before.awaiting(k));
            if keys != Set::<BrickKey>::empty() {
                self.lemma_marked_shows(before, ks, k);
            }
            lemma_untouched_truth(world, edited, changed, k, merge);
        }
    }

    /// What is staged stays honest as the world moves on.
    proof fn lemma_stages_later(&self, world: &World, later: &World)
        requires
            self.wf(),
            world.wf(),
            later.wf(),
            later.follows(world),
            self.stages_faithfully(world),
        ensures
            self.stages_faithfully(later),
    {
        assert forall|k: BrickKey| #[trigger] self.staged().dom().contains(k) implies {
            &&& honest(&self.staged()[k].deps, self.staged_mesh(k), later, self.config().merge)
            &&& self.staged()[k].validated_at.number <= later.edits()
            &&& self.staged()[k].validated_at.number == later.edits() ==> self.staged()[k].deps.current(later)
        } by {
            let deps = self.staged()[k].deps;
            lemma_honest_later(&deps, self.staged_mesh(k), world, later, self.config().merge);
            if self.staged()[k].validated_at.number == later.edits() {
                assert(later.map() == world.map());
                assert(deps.current(world));
                assert(world_view(later, deps.key()) =~= world_view(world, deps.key()));
                assert forall|i: int| 0 <= i < 7 implies !#[trigger] deps.changed(later, i) by {
                    assert(!deps.changed(world, i));
                    assert(deps.spec_record().version_changed(later, i) == deps.spec_record().version_changed(world, i));
                }
            }
        }
    }

    /// Dispatch changes nothing that is shown or staged.
    pub proof fn law_dispatch_keeps_up(&self, before: &Pipeline, world: &World, jobs: Seq<Job>, n: nat)
        requires
            before.faithful(world),
            self.dispatched(before, jobs, n),
        ensures
            self.faithful(world),
    {
        assert forall|k: BrickKey| #[trigger] self.staged().dom().contains(k) implies {
            &&& honest(&self.staged()[k].deps, self.staged_mesh(k), world, self.config().merge)
            &&& self.staged()[k].validated_at.number <= world.edits()
            &&& self.staged()[k].validated_at.number == world.edits() ==> self.staged()[k].deps.current(world)
        } by {
            assert(before.staged().dom().contains(k));
            assert(self.staged_mesh(k) == before.staged_mesh(k));
        }
        assert forall|k: BrickKey| k.inner() && !#[trigger] self.awaiting(k) implies self.shown(k) == truth(
            world,
            k,
            self.config().merge,
        ) by {
            assert(!before.awaiting(k));
        }
    }

    /// Handing back an honest result keeps the pipeline up to date.
    pub proof fn law_completion_keeps_up(&self, before: &Pipeline, world: &World, result: &JobResult, r: Completion)
        requires
            before.wf(),
            self.wf(),
            world.wf(),
            before.faithful(world),
            before.returnable(result),
            honest(&result.deps, quads_of(result.output), world, before.config().merge),
            !before.config().faults.skip_stale_check,
            self.completed(before, world, result, r),
        ensures
            self.faithful(world),
    {
        let key = result.key;
        let merge = before.config().merge;
        if r == Completion::Accepted {
            let now = choose|now: ContentVersion|
                now.number == world.edits() && #[trigger] self.staged_now(before, key, result.deps, result.output, now);
            let old = before.spec_store();
            let store = self.spec_store();
            let g = before.spec_groups().of()[key];
            assert forall|k: BrickKey| #[trigger] self.awaiting(k) == before.awaiting(k) by {
                assert(self.split(before, g, key));
            }
            assert forall|k: BrickKey| #[trigger] self.staged().dom().contains(k) implies {
                &&& honest(&self.staged()[k].deps, self.staged_mesh(k), world, merge)
                &&& self.staged()[k].validated_at.number <= world.edits()
                &&& self.staged()[k].validated_at.number == world.edits() ==> self.staged()[k].deps.current(world)
            } by {
                if k == key {
                    assert(self.staged_mesh(k) == quads_of(result.output));
                } else {
                    assert(before.staged().dom().contains(k));
                    if let Some(h) = before.staged()[k].handle {
                        assert(before.store.loose(h));
                        if before.staged().dom().contains(key) {
                            assert(before.staged()[key].handle != Some(h));
                        }
                        assert(store.meshes().dom().contains(h));
                    }
                    assert(self.staged_mesh(k) == before.staged_mesh(k));
                }
            }
            assert forall|k: BrickKey| k.inner() && !#[trigger] self.awaiting(k) implies self.shown(k) == truth(world, k, merge) by {
                assert(!before.awaiting(k));
                let cur = old.cur();
                store.law_live_entries_resolve();
                old.law_live_entries_resolve();
                assert(store.table() == old.table());
                if old.has(cur, k) {
                    assert(store.table().dom().contains(k));
                    assert(old.table().dom().contains(k));
                }
                assert(self.shown(k) == before.shown(k));
            }
        } else {
            assert(self.same_results(before));
            assert forall|k: BrickKey| #[trigger] self.staged().dom().contains(k) implies {
                &&& honest(&self.staged()[k].deps, self.staged_mesh(k), world, merge)
                &&& self.staged()[k].validated_at.number <= world.edits()
                &&& self.staged()[k].validated_at.number == world.edits() ==> self.staged()[k].deps.current(world)
            } by {
                assert(before.staged().dom().contains(k));
                assert(self.staged_mesh(k) == before.staged_mesh(k));
            }
            assert forall|k: BrickKey| k.inner() && !#[trigger] self.awaiting(k) implies self.shown(k) == truth(world, k, merge) by {
                assert(!before.awaiting(k));
            }
        }
    }

    /// Publication keeps the pipeline up to date: what leaves staging is the world's mesh.
    pub proof fn law_publication_keeps_up(&self, before: &Pipeline, valid: &Pipeline, world: &World, r: Option<Published>)
        requires
            before.wf(),
            valid.wf(),
            self.wf(),
            world.wf(),
            before.faithful(world),
            !before.config().faults.skip_stale_check,
            valid.revalidated(before, world),
            self.published(valid, world, r),
        ensures
            self.faithful(world),
    {
        let merge = before.config().merge;
        valid.lemma_revalidated_keeps_up(before, world);
        match r {
            None => {
                assert forall|k: BrickKey| #[trigger] self.staged().dom().contains(k) implies {
                    &&& honest(&self.staged()[k].deps, self.staged_mesh(k), world, merge)
                    &&& self.staged()[k].validated_at.number <= world.edits()
                    &&& self.staged()[k].validated_at.number == world.edits() ==> self.staged()[k].deps.current(world)
                } by {
                    assert(valid.staged().dom().contains(k));
                    assert(self.staged_mesh(k) == valid.staged_mesh(k));
                }
                assert forall|k: BrickKey| k.inner() && !#[trigger] self.awaiting(k) implies self.shown(k) == truth(world, k, merge) by {
                    assert(!valid.awaiting(k));
                }
            },
            Some(p) => {
                let ready = choose|ready: Seq<u64>| #[trigger] valid.all_ready(ready) && self.published_groups(valid, world, ready, p);
                self.lemma_published_keeps_up(valid, world, ready, p);
            },
        }
    }

    proof fn lemma_revalidated_keeps_up(&self, before: &Pipeline, world: &World)
        requires
            before.wf(),
            self.wf(),
            before.faithful(world),
            !before.config().faults.skip_stale_check,
            self.revalidated(before, world),
        ensures
            self.faithful(world),
            forall|k: BrickKey| #[trigger] self.staged().dom().contains(k) ==> self.staged()[k].deps.current(world),
    {
        let merge = before.config().merge;
        let stale = before.stale(world);
        before.staged.lemma_order();
        assert(stale.subset_of(before.staged().dom()));
        vstd::set_lib::lemma_set_subset_finite(before.staged().dom(), stale);
        lemma_finite_in_order(stale);
        let ks = in_order(stale);
        let n = ks.len() as int;
        assert forall|k: BrickKey| #[trigger] among(ks, n, k) <==> stale.contains(k) by {
            assert(ks.to_set().contains(k) == ks.contains(k));
            if ks.contains(k) {
                let j = choose|j: int| 0 <= j < ks.len() && ks[j] == k;
                assert(among(ks, n, k));
            }
        }
        let old = before.spec_store();
        let store = self.spec_store();
        assert forall|k: BrickKey| #[trigger] self.staged().dom().contains(k) implies {
            &&& honest(&self.staged()[k].deps, self.staged_mesh(k), world, merge)
            &&& self.staged()[k].validated_at.number <= world.edits()
            &&& self.staged()[k].deps.current(world)
        } by {
            assert(before.staged().dom().contains(k));
            assert(!stale.contains(k));
            if let Some(h) = before.staged()[k].handle {
                assert(before.store.loose(h));
                if before.result_among(ks, n, h) {
                    let l = choose|l: BrickKey| #[trigger]
                        before.staged().dom().contains(l) && among(ks, n, l) && before.staged()[l].handle == Some(h);
                    assert(l != k);
                }
                assert(store.meshes().dom().contains(h));
            }
            assert(self.staged_mesh(k) == before.staged_mesh(k));
        }
        assert forall|k: BrickKey| k.inner() && !#[trigger] self.awaiting(k) implies self.shown(k) == truth(world, k, merge) by {
            assert(!before.awaiting(k));
            store.law_live_entries_resolve();
            old.law_live_entries_resolve();
            assert(store.table() == old.table());
            if old.has(old.cur(), k) {
                assert(store.table().dom().contains(k));
                assert(old.table().dom().contains(k));
            }
            assert(self.shown(k) == before.shown(k));
        }
    }

    proof fn lemma_published_keeps_up(&self, before: &Pipeline, world: &World, ready: Seq<u64>, p: Published)
        requires
            before.wf(),
            self.wf(),
            world.wf(),
            before.faithful(world),
            before.all_ready(ready),
            forall|k: BrickKey| #[trigger] before.staged().dom().contains(k) ==> before.staged()[k].deps.current(world),
            self.same_work(before),
            self.published_groups(before, world, ready, p),
        ensures
            self.faithful(world),
    {
        let merge = before.config().merge;
        let n = ready.len();
        let old = before.spec_store();
        let store = self.spec_store();
        let c = before.all_changes(ready, n);
        before.lemma_all_changes(ready, n);
        law_applied(old.table(), c, c.len());
        store.law_live_entries_resolve();
        old.law_live_entries_resolve();
        assert forall|k: BrickKey| #[trigger] self.staged().dom().contains(k) implies {
            &&& honest(&self.staged()[k].deps, self.staged_mesh(k), world, merge)
            &&& self.staged()[k].validated_at.number <= world.edits()
            &&& self.staged()[k].validated_at.number == world.edits() ==> self.staged()[k].deps.current(world)
        } by {
            assert(before.staged().dom().contains(k));
            if let Some(h) = self.staged()[k].handle {
                assert(self.store.loose(h));
            }
            assert(self.staged_mesh(k) == before.staged_mesh(k));
        }
        assert forall|k: BrickKey| k.inner() && !#[trigger] self.awaiting(k) implies self.shown(k) == truth(world, k, merge) by {
            if before.awaiting(k) {
                assert(before.leaves(ready, n as int, k));
                let i = choose|i: int| 0 <= i < c.len() && (#[trigger] c[i]).key == k;
                assert(before.publishes(ready, n as int, c[i]));
                let s = before.staged()[k];
                assert(before.staged().dom().contains(k));
                assert(s.deps.wf() && s.deps.key() == k);
                law_current_results_are_true(&s.deps, before.staged_mesh(k), world, merge);
                match s.handle {
                    Some(h) => {
                        assert(store.table().dom().contains(k) && store.table()[k].handle == h);
                        assert(store.has(store.cur(), k));
                        assert(store.meshes().dom().contains(h));
                    },
                    None => {
                        assert(!store.table().dom().contains(k));
                    },
                }
                assert(self.shown(k) == before.staged_mesh(k));
            } else {
                assert(!before.leaves(ready, n as int, k));
                if changed_among(c, c.len() as int, k) {
                    let i = choose|i: int| 0 <= i < c.len() && (#[trigger] c[i]).key == k;
                    assert(before.publishes(ready, n as int, c[i]));
                }
                assert(store.table().dom().contains(k) == old.table().dom().contains(k));
                if old.table().dom().contains(k) {
                    assert(store.table()[k] == old.table()[k]);
                    assert(store.meshes().dom().contains(store.table()[k].handle));
                }
                assert(self.shown(k) == before.shown(k));
            }
        }
    }

    /// Nothing leaks: without readers, and with nothing staged, nothing fades, only the current snapshot
    /// lives, and the live results are exactly its own.
    pub proof fn law_no_results_leak(&self)
        requires
            self.wf(),
            self.spec_store().holding() == Map::<u64, u64>::empty(),
            self.staged() == Map::<BrickKey, Staged>::empty(),
        ensures
            self.spec_store().fading().len() == 0,
            self.spec_store().snaps().dom() == set![self.spec_store().cur()],
            self.spec_store().meshes().dom().len() == self.spec_store().table().dom().len(),
            forall|h: Handle| #[trigger]
                self.spec_store().meshes().dom().contains(h) <==> exists|k: BrickKey| #[trigger]
                    self.spec_store().table().dom().contains(k) && self.spec_store().table()[k].handle == h,
    {
        assert forall|h: Handle| !self.store.loose(h) by {
            if self.store.loose(h) {
                assert(self.stages(h));
            }
        }
        self.store.law_no_leaks();
        self.store.law_without_readers_only_the_current_snapshot_lives();
    }

    /// `k` is one of the keys that `p` lists.
    pub open spec fn lists(p: Published, k: BrickKey) -> bool {
        exists|i: int| 0 <= i < p.groups@.len() && (#[trigger] p.groups@[i])@.contains(k)
    }

    proof fn lemma_lists(&self, before: &Pipeline, world: &World, ready: Seq<u64>, p: Published, k: BrickKey)
        requires
            before.wf(),
            before.all_ready(ready),
            self.published_groups(before, world, ready, p),
        ensures
            Pipeline::lists(p, k) == before.leaves(ready, ready.len() as int, k),
    {
        let sets = before.spec_groups().sets();
        before.groups.law_groups_partition_their_members();
        assert forall|i: int| 0 <= i < ready.len() implies #[trigger] before.is_ready(ready[i]) && (p.groups@[i]@.contains(k) == sets[ready[i]].contains(k)) by {
            assert(ready.contains(ready[i]));
            lemma_finite_in_order(sets[ready[i]]);
            assert(p.groups@[i]@ == in_order(sets[ready[i]]));
            assert(in_order(sets[ready[i]]).to_set().contains(k) == sets[ready[i]].contains(k));
        }
        if Pipeline::lists(p, k) {
            let i = choose|i: int| 0 <= i < p.groups@.len() && (#[trigger] p.groups@[i])@.contains(k);
            assert(before.is_ready(ready[i]));
            assert(sets[ready[i]].contains(k));
            assert(among(ready, ready.len() as int, ready[i]));
        }
        if before.leaves(ready, ready.len() as int, k) {
            let g = before.spec_groups().of()[k];
            let i = choose|i: int| 0 <= i < ready.len() && ready[i] == g;
            assert(before.is_ready(ready[i]));
            assert(p.groups@[i]@.contains(k));
        }
    }

    /// A publication shows what it lists and leaves the rest: it makes the next snapshot, in which every
    /// listed key, one that awaited publication, shows the world's mesh and no longer awaits publication, and every other key has the
    /// entry that it had before.
    pub proof fn law_publications_show_what_they_list(&self, before: &Pipeline, valid: &Pipeline, world: &World, p: Published)
        requires
            before.wf(),
            valid.wf(),
            self.wf(),
            world.wf(),
            before.faithful(world),
            !before.config().faults.skip_stale_check,
            valid.revalidated(before, world),
            self.published(valid, world, Some(p)),
        ensures
            p.id.number == before.spec_store().cur() + 1,
            self.spec_store().cur() == p.id.number,
            forall|k: BrickKey| #[trigger]
                Pipeline::lists(p, k) ==> before.awaiting(k) && !self.awaiting(k) && self.shown(k) == truth(world, k, self.config().merge),
            forall|k: BrickKey|
                !#[trigger] Pipeline::lists(p, k) ==> self.spec_store().table().dom().contains(k) == before.spec_store().table().dom().contains(k)
                    && (before.spec_store().table().dom().contains(k) ==> self.spec_store().table()[k] == before.spec_store().table()[k]),
    {
        self.law_publication_keeps_up(before, valid, world, Some(p));
        let ready = choose|ready: Seq<u64>| #[trigger] valid.all_ready(ready) && self.published_groups(valid, world, ready, p);
        let n = ready.len();
        self.law_groups_publish_whole(valid, world, ready, p);
        valid.lemma_all_changes(ready, n);
        let c = valid.all_changes(ready, n);
        assert forall|k: BrickKey| #[trigger] Pipeline::lists(p, k) implies before.awaiting(k) && !self.awaiting(k) && self.shown(k) == truth(
            world,
            k,
            self.config().merge,
        ) by {
            self.lemma_lists(valid, world, ready, p, k);
            assert(!self.awaiting(k));
            assert(changed_among(c, c.len() as int, k));
            let i = choose|i: int| 0 <= i < c.len() && (#[trigger] c[i]).key == k;
            assert(valid.publishes(ready, n as int, c[i]));
            assert(valid.staged()[k].deps.wf() && valid.staged()[k].deps.key() == k);
            assert(k.inner());
        }
        assert forall|k: BrickKey| !#[trigger] Pipeline::lists(p, k) implies self.spec_store().table().dom().contains(k)
            == before.spec_store().table().dom().contains(k) && (before.spec_store().table().dom().contains(k) ==> self.spec_store().table()[k]
            == before.spec_store().table()[k]) by {
            self.lemma_lists(valid, world, ready, p, k);
        }
    }

    /// A publication copies only the shards of the chunks it lists keys of: the new snapshot shares every
    /// other one with the snapshot before it.
    pub proof fn law_publications_share_untouched_shards(&self, before: &Pipeline, world: &World, p: Published, chunks: Set<ChunkCoord>)
        requires
            before.wf(),
            self.wf(),
            self.published(before, world, Some(p)),
            chunks.finite(),
            forall|k: BrickKey| #[trigger] Pipeline::lists(p, k) ==> chunks.contains(k.spec_chunk()),
        ensures
            ({
                let prev = before.spec_store().snaps()[before.spec_store().cur()];
                let now = self.spec_store().snaps()[self.spec_store().cur()];
                &&& forall|c: ChunkCoord| #[trigger] now.stamps().dom().contains(c) && !chunks.contains(c) ==> now.shared_chunks(&prev).contains(c)
                &&& now.stamps().dom().len() - now.shared_chunks(&prev).len() <= chunks.len()
            }),
    {
        let ready = choose|ready: Seq<u64>| #[trigger] before.all_ready(ready) && self.published_groups(before, world, ready, p);
        let n = ready.len();
        before.lemma_all_changes(ready, n);
        let changes = before.all_changes(ready, n);
        let old = before.spec_store();
        let store = self.spec_store();
        let prev = old.snaps()[old.cur()];
        let now = store.snaps()[store.cur()];
        store.law_live_entries_resolve();
        assert forall|c: ChunkCoord| #[trigger] now.stamps().dom().contains(c) && !chunks.contains(c) implies now.shared_chunks(&prev).contains(c) by {
            if old.touches(changes, changes.len() as int, c) {
                let i = choose|i: int| 0 <= i < changes.len() && (#[trigger] changes[i]).key.spec_chunk() == c;
                assert(before.publishes(ready, n as int, changes[i]));
                self.lemma_lists(before, world, ready, p, changes[i].key);
                assert(Pipeline::lists(p, changes[i].key));
            }
        }
        now.law_snapshots_share_their_own_shards(&prev);
        let fresh = now.stamps().dom().difference(now.shared_chunks(&prev));
        assert(fresh.subset_of(chunks));
        vstd::set_lib::lemma_len_subset(fresh, chunks);
        assert(now.stamps().dom() =~= fresh.union(now.shared_chunks(&prev)));
        assert(fresh.finite());
        vstd::set_lib::lemma_set_disjoint_lens(fresh, now.shared_chunks(&prev));
        assert(fresh + now.shared_chunks(&prev) =~= now.stamps().dom());
    }

    /// Readers come and go without changing what is shown.
    pub proof fn law_readers_change_nothing(&self, before: &Pipeline, world: &World)
        requires
            before.wf(),
            self.wf(),
            before.faithful(world),
            self.same_table(before),
        ensures
            self.faithful(world),
    {
        let old = before.spec_store();
        let store = self.spec_store();
        store.law_live_entries_resolve();
        old.law_live_entries_resolve();
        assert forall|k: BrickKey| #[trigger] self.staged().dom().contains(k) implies {
            &&& honest(&self.staged()[k].deps, self.staged_mesh(k), world, self.config().merge)
            &&& self.staged()[k].validated_at.number <= world.edits()
            &&& self.staged()[k].validated_at.number == world.edits() ==> self.staged()[k].deps.current(world)
        } by {
            assert(before.staged().dom().contains(k));
            if let Some(h) = before.staged()[k].handle {
                assert(before.store.loose(h));
                assert(self.store.loose(h));
            }
            assert(self.staged_mesh(k) == before.staged_mesh(k));
        }
        assert forall|k: BrickKey| k.inner() && !#[trigger] self.awaiting(k) implies self.shown(k) == truth(
            world,
            k,
            self.config().merge,
        ) by {
            assert(!before.awaiting(k));
            if old.table().dom().contains(k) {
                assert(store.table().dom().contains(k));
                assert(store.meshes().dom().contains(store.table()[k].handle));
            }
            assert(self.shown(k) == before.shown(k));
        }
    }
}

/// A brick that sees none of the changed voxels is what it was.
proof fn lemma_untouched_truth(world: &World, edited: &World, changed: Seq<VoxelCoord>, k: BrickKey, merge: Merge)
    requires
        world.wf(),
        edited.wf(),
        k.inner(),
        forall|p: VoxelCoord| !changed.contains(p) ==> #[trigger] edited.at(p) == world.at(p),
        !dirtied_by(changed, changed.len() as int, false).contains(k),
    ensures
        truth(edited, k, merge) == truth(world, k, merge),
{
    let a = world_view(edited, k);
    let b = world_view(world, k);
    assert forall|p: (int, int, int)| inside(p) || outside(p) implies #[trigger] a(p) == b(p) by {
        let v = voxel(k, p);
        if changed.contains(v) {
            let i = choose|i: int| 0 <= i < changed.len() && changed[i] == v;
            law_affected_keys_are_those_that_see_the_voxel(v, k);
            assert(spec_affected_keys(changed[i]).contains(k));
            assert(dirtied_by(changed, changed.len() as int, false).contains(k));
        }
        assert(edited.at(v) == world.at(v));
    }
    law_mesh_depends_on_brick_and_face_layers(a, b, merge);
    lemma_brick_has_a_voxel(world, edited, k, a, b);
    lemma_brick_has_a_voxel(edited, world, k, b, a);
}

/// A brick of the world has a voxel, so it is there as long as its voxels are.
proof fn lemma_brick_has_a_voxel(world: &World, edited: &World, k: BrickKey, a: Local, b: Local)
    requires
        world.wf(),
        edited.wf(),
        k.inner(),
        a == world_view(edited, k),
        b == world_view(world, k),
        forall|p: (int, int, int)| inside(p) ==> #[trigger] a(p) == b(p),
    ensures
        world.map().dom().contains(k) ==> edited.map().dom().contains(k),
{
    if world.map().dom().contains(k) {
        let i = choose|i: int| 0 <= i < 512 && world.map()[k]@[i] is Some;
        let p = cell_of(i);
        assert(inside(p));
        let v = voxel(k, p);
        assert(v.key() == k && v.place() == i);
        assert(b(p) is Some);
        assert(a(p) is Some);
    }
}

proof fn lemma_difference_len(a: Set<BrickKey>, b: Set<BrickKey>)
    requires
        a.finite(),
        b.subset_of(a),
    ensures
        a.difference(b).len() == a.len() - b.len(),
        b.finite(),
    decreases a.len(),
{
    assert(b.finite()) by {
        vstd::set_lib::lemma_set_subset_finite(a, b);
    }
    if b.len() > 0 {
        let x = b.choose();
        assert(b.contains(x));
        lemma_difference_len(a.remove(x), b.remove(x));
        assert(a.remove(x).difference(b.remove(x)) =~= a.difference(b));
    } else {
        assert(b =~= Set::<BrickKey>::empty());
        assert(a.difference(b) =~= a);
    }
}

proof fn lemma_increasing_set_len(s: Seq<BrickKey>)
    requires
        increasing(s),
    ensures
        s.to_set().len() == s.len(),
{
    assert forall|i: int, j: int| 0 <= i < s.len() && 0 <= j < s.len() && i != j implies s[i] != s[j] by {
        if i < j {
            assert(s[i].lt(s[j]));
            BrickKey::lt_irreflexive(s[i]);
        } else {
            assert(s[j].lt(s[i]));
            BrickKey::lt_irreflexive(s[i]);
        }
    }
    s.unique_seq_to_set();
}

/// A voxel in bounds affects at most four bricks, all of them inside the key range.
pub proof fn lemma_affected_inner(v: VoxelCoord)
    requires
        v.in_bounds(),
    ensures
        1 <= spec_affected_keys(v).len() <= 4,
        spec_affected_keys(v)[0] == v.key(),
        forall|i: int| 0 <= i < spec_affected_keys(v).len() ==> (#[trigger] spec_affected_keys(v)[i]).inner(),
{
    let k = v.key();
    assert(k.in_bounds());
    assert(forall|axis: int, l: int| 0 <= axis < 3 ==> crate::derived::surface::touched(k, axis, l).len() <= 1 && (
    crate::derived::surface::touched(k, axis, l).len() == 1 ==> (#[trigger] crate::derived::surface::touched(k, axis, l))[0].inner()));
}

/// Every key that is marked is counted once as dirtied, and once as coalesced, queued or deferred; the queue keeps its
/// order, takes keys at its end only while it has room, and afterwards every marked key waits.
pub proof fn law_every_mark_is_counted(b: Backlog, cap: int, staged: Set<BrickKey>, ks: Seq<BrickKey>, n: nat, k: BrickKey)
    requires
        n <= ks.len(),
        b.stats.fits_marks(n as int),
        b.spill.finite(),
        b.line.len() <= cap <= usize::MAX,
        b.spill.len() + n <= usize::MAX,
    ensures
        ({
            let a = all_marked(b, cap, staged, ks, n);
            &&& a.stats.dirtied == b.stats.dirtied + n
            &&& (a.stats.coalesced - b.stats.coalesced) + (a.line.len() - b.line.len()) + (a.spill.len() - b.spill.len()) == n
            &&& a.stats.overflow_deferred - b.stats.overflow_deferred == a.spill.len() - b.spill.len()
            &&& a.stats.staged_discarded - b.stats.staged_discarded == ks.take(n as int).filter(|k: BrickKey| staged.contains(k)).len()
            &&& b.line.is_prefix_of(a.line) && a.line.len() <= cap
            &&& b.spill.subset_of(a.spill) && a.spill.finite()
            &&& a.spill.len() > b.spill.len() ==> a.line.len() == cap
            &&& a.line.contains(k) || a.spill.contains(k) <==> b.line.contains(k) || b.spill.contains(k) || ks.take(n as int).contains(k)
            &&& a.stats.coalesced >= b.stats.coalesced && a.spill.len() >= b.spill.len()
            &&& a.stats.max_queue == if a.line.len() > b.line.len() && a.line.len() > b.stats.max_queue {
                a.line.len()
            } else {
                b.stats.max_queue as nat
            }
            &&& a.stats.max_overflow == if a.spill.len() > b.spill.len() && a.spill.len() > b.stats.max_overflow {
                a.spill.len()
            } else {
                b.stats.max_overflow as nat
            }
            &&& a.stats.dispatched == b.stats.dispatched && a.stats.accepted == b.stats.accepted && a.stats.published == b.stats.published
        }),
    decreases n,
{
    let now = ks.take(n as int);
    let held = |k: BrickKey| staged.contains(k);
    reveal_with_fuel(Seq::filter, 2);
    if n == 0 {
        assert(now =~= Seq::empty());
    } else {
        law_every_mark_is_counted(b, cap, staged, ks, (n - 1) as nat, k);
        law_every_mark_is_counted(b, cap, staged, ks, (n - 1) as nat, ks[n - 1]);
        let p = all_marked(b, cap, staged, ks, (n - 1) as nat);
        let a = all_marked(b, cap, staged, ks, n);
        let before = ks.take(n - 1);
        let x = ks[n - 1];
        assert(now.drop_last() =~= before);
        assert(now.last() == x);
        assert(before.filter(held).len() <= n - 1) by {
            before.lemma_filter_len(held);
        }
        assert(now.contains(k) <==> before.contains(k) || k == x) by {
            if before.contains(k) {
                let i = choose|i: int| 0 <= i < before.len() && before[i] == k;
                assert(now[i] == k);
            }
            if k == x {
                assert(now[n - 1] == k);
            }
            if now.contains(k) {
                let i = choose|i: int| 0 <= i < now.len() && now[i] == k;
                if i < n - 1 {
                    assert(before[i] == k);
                }
            }
        }
        if !(p.line.contains(x) || p.spill.contains(x)) && p.line.len() < cap {
            assert(a.line[p.line.len() as int] == x);
            assert(a.line.contains(k) <==> p.line.contains(k) || k == x) by {
                if p.line.contains(k) {
                    let i = choose|i: int| 0 <= i < p.line.len() && p.line[i] == k;
                    assert(a.line[i] == k);
                }
            }
        }
    }
}

/// Keys found stale at publication are each counted, and those without a running job wait afterwards.
pub proof fn law_every_stale_key_is_counted(b: Backlog, cap: int, running: Set<BrickKey>, ks: Seq<BrickKey>, n: nat, i: int)
    requires
        n <= ks.len(),
        b.stats.rejected_stale_at_publish + n <= u64::MAX,
        0 <= i < n,
    ensures
        ({
            let a = all_requeued(b, cap, running, ks, n);
            &&& a.stats.rejected_stale_at_publish == b.stats.rejected_stale_at_publish + n
            &&& !running.contains(ks[i]) ==> a.line.contains(ks[i]) || a.spill.contains(ks[i])
            &&& b.line.is_prefix_of(a.line)
            &&& (forall|j: int| 0 <= j < n ==> running.contains(#[trigger] ks[j])) ==> a.line == b.line && a.spill == b.spill
        }),
    decreases n,
{
    let a = all_requeued(b, cap, running, ks, n);
    let p = all_requeued(b, cap, running, ks, (n - 1) as nat);
    if n > 1 {
        law_every_stale_key_is_counted(
            b,
            cap,
            running,
            ks,
            (n - 1) as nat,
            if i < n - 1 {
                i
            } else {
                0
            },
        );
    }
    assert(b.line.is_prefix_of(p.line)) by {
        if n == 1 {
            assert(p.line =~= b.line);
        }
    }
    let x = ks[i];
    assert(p.line.contains(x) ==> a.line.contains(x)) by {
        if p.line.contains(x) {
            let j = choose|j: int| 0 <= j < p.line.len() && p.line[j] == x;
            assert(a.line[j] == x);
        }
    }
    if i == n - 1 && !running.contains(x) {
        if !(p.line.contains(x) || p.spill.contains(x)) && p.line.len() < cap {
            assert(a.line[p.line.len() as int] == x);
        }
    }
}

/// Keys leave the queue in the order they entered it: while the first line lasts, the `n`-th taken is its `n`-th.
pub proof fn law_keys_are_taken_in_order(line: Seq<BrickKey>, spill: Set<BrickKey>, n: nat)
    requires
        n < line.len(),
    ensures
        line.skip(n as int).is_prefix_of(after_pops(line, spill, n).0),
        after_pops(line, spill, n).0[0] == line[n as int],
        spill == Set::<BrickKey>::empty() ==> after_pops(line, spill, n) == (line.skip(n as int), spill),
    decreases n,
{
    let now = after_pops(line, spill, n).0;
    if n == 0 {
        assert(line.skip(0) =~= line);
    } else {
        law_keys_are_taken_in_order(line, spill, (n - 1) as nat);
        let before = after_pops(line, spill, (n - 1) as nat).0;
        let (a, b) = (line.skip(n - 1), line.skip(n as int));
        assert forall|i: int| 0 <= i < b.len() implies b[i] == now[i] by {
            assert(a[i + 1] == before[i + 1]);
            assert(now[i] == before[i + 1]);
        }
        assert(b =~= now.take(b.len() as int));
        if spill == Set::<BrickKey>::empty() {
            assert(now =~= b);
        }
    }
}

/// The keys taken are the pending ones, in the order they leave the queue.
pub proof fn law_only_pending_keys_are_taken(line: Seq<BrickKey>, pending: Set<BrickKey>, n: nat)
    requires
        n <= line.len(),
    ensures
        taken(line, Set::empty(), pending, n) == line.take(n as int).filter(|k: BrickKey| pending.contains(k)),
    decreases n,
{
    reveal_with_fuel(Seq::filter, 2);
    let now = line.take(n as int);
    if n == 0 {
        assert(now =~= Seq::empty());
    } else {
        law_only_pending_keys_are_taken(line, pending, (n - 1) as nat);
        law_keys_are_taken_in_order(line, Set::empty(), (n - 1) as nat);
        assert(now.drop_last() =~= line.take(n - 1));
        assert(now.last() == line[n - 1]);
    }
}

/// Marking keys counts nothing but marks: no other counter changes.
pub proof fn law_marks_change_no_other_counter(b: Backlog, cap: int, staged: Set<BrickKey>, ks: Seq<BrickKey>, n: nat)
    requires
        n <= ks.len(),
    ensures
        ({
            let a = all_marked(b, cap, staged, ks, n).stats;
            &&& a.groups_merged == b.stats.groups_merged && a.max_group_len == b.stats.max_group_len
            &&& a.dispatched == b.stats.dispatched && a.accepted == b.stats.accepted && a.accepted_by_content == b.stats.accepted_by_content
            &&& a.rejected_cancelled == b.stats.rejected_cancelled && a.rejected_stale == b.stats.rejected_stale
            &&& a.rejected_stale_at_publish == b.stats.rejected_stale_at_publish && a.rejected_unknown == b.stats.rejected_unknown
            &&& a.publish_deferred == b.stats.publish_deferred && a.published == b.stats.published
            &&& a.groups_published == b.stats.groups_published && a.retired == b.stats.retired && a.freed == b.stats.freed
        }),
    decreases n,
{
    if n > 0 {
        law_marks_change_no_other_counter(b, cap, staged, ks, (n - 1) as nat);
    }
}

/// A batch is one new group: its keys, and the members of every group that has one of them. Each of those groups is
/// counted as merged and is gone; all others stay. The longest group so far is remembered.
pub proof fn law_batches_become_one_group(p: &Pipeline, before: &Pipeline, keys: Set<BrickKey>, k: BrickKey, g: u64)
    requires
        p.batched(before, keys),
        keys.contains(k),
        before.spec_stats().groups_merged + before.spec_groups().touching(keys).len() <= u64::MAX,
        before.spec_groups().merged(keys).len() <= usize::MAX,
        g != before.spec_groups().spec_next(),
    ensures
        ({
            let (old, now) = (before.spec_groups(), p.spec_groups());
            let fresh = now.sets()[old.spec_next()];
            let met = exists|x: BrickKey| #[trigger] keys.contains(x) && old.of().dom().contains(x) && old.of()[x] == g;
            &&& now.sets().dom().contains(old.spec_next()) && fresh.contains(k)
            &&& forall|y: BrickKey| #[trigger]
                fresh.contains(y) <==> keys.contains(y) || old.of().dom().contains(y) && exists|x: BrickKey| #[trigger]
                    keys.contains(x) && old.of().dom().contains(x) && old.of()[x] == old.of()[y]
            &&& now.sets().dom().contains(g) <==> old.sets().dom().contains(g) && !met
            &&& now.sets().dom().contains(g) ==> now.sets()[g] == old.sets()[g]
            &&& p.spec_stats().groups_merged == before.spec_stats().groups_merged + old.touching(keys).len()
            &&& p.spec_stats().max_group_len >= fresh.len() && p.spec_stats().max_group_len >= before.spec_stats().max_group_len
            &&& p.spec_stats().max_group_len == fresh.len() || p.spec_stats().max_group_len == before.spec_stats().max_group_len
        }),
{
    let (old, now) = (before.spec_groups(), p.spec_groups());
    let ks = in_order(keys);
    let counted = Stats {
        groups_merged: (before.backlog().stats.groups_merged + old.touching(keys).len()) as u64,
        max_group_len: larger(before.backlog().stats.max_group_len as int, old.merged(keys).len() as int) as usize,
        ..before.backlog().stats
    };
    assert(keys != Set::<BrickKey>::empty());
    law_marks_change_no_other_counter(
        Backlog { stats: counted, ..before.backlog() },
        before.config().queue_capacity as int,
        before.staged().dom(),
        ks,
        ks.len(),
    );
    let fresh = now.sets()[old.spec_next()];
    assert(fresh == old.merged(keys));
    assert forall|y: BrickKey| #[trigger]
        fresh.contains(y) <==> keys.contains(y) || old.of().dom().contains(y) && exists|x: BrickKey| #[trigger]
            keys.contains(x) && old.of().dom().contains(x) && old.of()[x] == old.of()[y] by {
        assert(old.merged(keys).contains(y) <==> keys.contains(y) || (old.of().dom().contains(y) && old.touching(keys).contains(old.of()[y])));
    }
}

} // verus!
