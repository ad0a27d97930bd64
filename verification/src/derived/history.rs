//! The life of a store, from one call to the next.
//!
//! Readers come and go while results are published over each other. Along every such history, a reader
//! sees one table for as long as it holds on, and a replaced result resolves exactly while a reader that
//! can see it is left.
use crate::derived::pipeline::{dirtied_by, lemma_affected_inner, Completion, Job, JobResult, Pipeline, Published};
use crate::derived::slots::Handle;
use crate::derived::snapshot::Entry;
use crate::derived::store::{applied, changed_among, law_applied, replaced, Change, Store};
use crate::derived::surface::spec_affected_keys;
use crate::world::{BrickKey, ChunkCoord, VoxelCoord, World};
use vstd::prelude::*;

verus! {

impl Store {
    /// Replaced result `e`, given with the last snapshot that holds it, is kept exactly where a reader can
    /// see it.
    pub open spec fn retains(&self, e: (u64, Handle)) -> bool {
        if self.watched(e.0) {
            self.fading().contains(e)
        } else {
            !self.meshes().dom().contains(e.1)
        }
    }

    /// The current snapshot has entry `e` for `k`, by its result.
    pub open spec fn shows(&self, k: BrickKey, e: Entry) -> bool {
        self.table().dom().contains(k) && self.table()[k].handle == e.handle
    }

    /// This is what one call makes of `before`: it publishes at most once, and a reader comes only where
    /// nothing is published.
    pub open spec fn follows(&self, before: &Store) -> bool {
        &&& self.spec_careless() == before.spec_careless()
        &&& self.remembers(before)
        &&& forall|h: Handle| #[trigger]
            self.meshes().dom().contains(h) && before.meshes().dom().contains(h) ==> self.meshes()[h] == before.meshes()[h]
        &&& before.readers_made() <= self.readers_made()
        &&& forall|r: u64| #[trigger]
            self.holding().dom().contains(r) ==> if before.holding().dom().contains(r) {
                &&& self.holding()[r] == before.holding()[r]
                &&& self.snaps()[self.holding()[r]] == before.snaps()[before.holding()[r]]
            } else {
                &&& r >= before.readers_made()
                &&& self.holding()[r] == self.cur()
                &&& self.cur() == before.cur()
            }
        &&& self.cur() == before.cur() || self.cur() == before.cur() + 1
        &&& self.snaps()[self.cur()].origin() == before.snaps()[before.cur()].origin()
        &&& self.cur() == before.cur() ==> self.snaps()[self.cur()] == before.snaps()[before.cur()]
        &&& !before.spec_careless() ==> forall|j: int|
            0 <= j < before.fading().len() ==> self.retains(#[trigger] before.fading()[j])
        &&& !before.spec_careless() ==> forall|k: BrickKey| #[trigger]
            before.table().dom().contains(k) && !self.shows(k, before.table()[k]) ==> self.retains(
                (before.cur(), before.table()[k].handle),
            )
    }

    /// Storing and discarding unpublished results.
    pub proof fn lemma_quiet_follows(&self, before: &Store)
        requires
            before.wf(),
            self.same_but_meshes(before),
            self.remembers(before),
            forall|h: Handle| #[trigger]
                self.meshes().dom().contains(h) && before.meshes().dom().contains(h) ==> self.meshes()[h] == before.meshes()[h],
        ensures
            self.follows(before),
    {
        before.law_live_entries_resolve();
        assert forall|j: int| 0 <= j < before.fading().len() implies self.retains(#[trigger] before.fading()[j]) by {
            assert(before.watched(before.fading()[j].0));
            let r = choose|r: u64| #[trigger] before.holding().dom().contains(r) && before.holding()[r] <= before.fading()[j].0;
            assert(self.holding().dom().contains(r));
        }
    }

    /// What follows a store follows it also where results were only stored and discarded in between.
    pub proof fn lemma_follows_quiet(&self, mid: &Store, before: &Store)
        requires
            self.wf(),
            self.follows(mid),
            mid.same_but_meshes(before),
            mid.remembers(before),
            forall|h: Handle| #[trigger]
                mid.meshes().dom().contains(h) && before.meshes().dom().contains(h) ==> mid.meshes()[h] == before.meshes()[h],
        ensures
            self.follows(before),
    {
        self.lemma_remembers(mid, before);
        assert forall|h: Handle| #[trigger] self.meshes().dom().contains(h) && before.meshes().dom().contains(h) implies self.meshes()[h]
            == before.meshes()[h] by {
            if !mid.meshes().dom().contains(h) {
                assert(mid.spent(h));
                assert(self.spent(h));
                self.law_spent_results_do_not_resolve(h);
            }
        }
        assert forall|j: int| 0 <= j < before.fading().len() && !before.spec_careless() implies self.retains(#[trigger] before.fading()[j]) by {
            assert(self.retains(mid.fading()[j]));
        }
        assert forall|k: BrickKey| #[trigger]
            before.table().dom().contains(k) && !self.shows(k, before.table()[k]) && !before.spec_careless() implies self.retains(
            (before.cur(), before.table()[k].handle),
        ) by {
            assert(mid.table().dom().contains(k));
        }
    }

    /// A reader comes.
    pub proof fn lemma_acquired_follows(&self, before: &Store)
        requires
            before.wf(),
            self.holding() == before.holding().insert(before.readers_made(), before.cur()),
            self.readers_made() == before.readers_made() + 1,
            self.meshes() == before.meshes(),
            self.remembers(before),
            self.snaps() == before.snaps(),
            self.cur() == before.cur(),
            self.fading() == before.fading(),
            self.spec_careless() == before.spec_careless(),
        ensures
            self.follows(before),
    {
        before.law_live_entries_resolve();
        before.law_readers_are_numbered();
        assert(!before.holding().dom().contains(before.readers_made()));
        assert forall|j: int| 0 <= j < before.fading().len() implies self.retains(#[trigger] before.fading()[j]) by {
            assert(before.watched(before.fading()[j].0));
            let r = choose|r: u64| #[trigger] before.holding().dom().contains(r) && before.holding()[r] <= before.fading()[j].0;
            assert(self.holding().dom().contains(r));
        }
    }

    /// Where results are swept, each is kept exactly where a reader can see it.
    proof fn lemma_swept_retains(&self, live: Set<Handle>, s: Seq<(u64, Handle)>)
        requires
            self.swept(live, s),
        ensures
            forall|j: int| 0 <= j < s.len() ==> self.retains(#[trigger] s[j]),
    {
        assert forall|j: int| 0 <= j < s.len() implies self.retains(#[trigger] s[j]) by {
            if self.watched(s[j].0) {
                self.lemma_still_seen(s, s.len(), j);
            } else {
                assert(self.out_of_sight(s, s[j].1));
            }
        }
    }

    proof fn lemma_still_seen(&self, s: Seq<(u64, Handle)>, n: nat, j: int)
        requires
            0 <= j < n <= s.len(),
            self.watched(s[j].0),
        ensures
            self.still_seen(s, n).contains(s[j]),
        decreases n,
    {
        let seen = self.still_seen(s, n);
        if j < n - 1 {
            self.lemma_still_seen(s, (n - 1) as nat, j);
            let before = self.still_seen(s, (n - 1) as nat);
            let i = choose|i: int| 0 <= i < before.len() && before[i] == s[j];
            assert(seen[i] == s[j]);
        } else {
            assert(seen[seen.len() - 1] == s[j]);
        }
    }

    /// Readers leave.
    pub proof fn lemma_released_follows(&self, before: &Store)
        requires
            before.wf(),
            self.wf(),
            self.holding().submap_of(before.holding()),
            self.readers_made() == before.readers_made(),
            self.swept(before.meshes().dom(), before.fading()),
            self.remembers(before),
            forall|h: Handle| #[trigger] self.meshes().dom().contains(h) ==> self.meshes()[h] == before.meshes()[h],
            forall|i: u64| #[trigger] self.snaps().dom().contains(i) ==> self.snaps()[i] == before.snaps()[i],
            self.cur() == before.cur(),
            self.spec_careless() == before.spec_careless(),
        ensures
            self.follows(before),
    {
        self.law_live_entries_resolve();
        self.lemma_swept_retains(before.meshes().dom(), before.fading());
    }

    /// Changes are published.
    pub proof fn lemma_published_follows(&self, before: &Store, changes: Seq<Change>)
        requires
            before.wf(),
            self.wf(),
            before.publishable(changes),
            self.cur() == before.cur() + 1,
            self.table() == applied(before.table(), changes, changes.len()),
            self.holding() == before.holding(),
            self.readers_made() == before.readers_made(),
            self.spec_careless() == before.spec_careless(),
            self.remembers(before),
            forall|id: u64| before.held(id) ==> #[trigger] self.snaps()[id] == before.snaps()[id],
            forall|h: Handle| #[trigger] self.meshes().dom().contains(h) ==> self.meshes()[h] == before.meshes()[h],
            before.retires(changes, self),
            before.shares(changes, self),
        ensures
            self.follows(before),
    {
        let m = before.table();
        let n = changes.len();
        let gone = replaced(m, changes, before.cur(), n);
        let s = before.fading() + gone;
        law_applied(m, changes, n);
        before.lemma_replaced_listed(changes);
        assert forall|r: u64| #[trigger] self.holding().dom().contains(r) implies self.snaps()[self.holding()[r]]
            == before.snaps()[before.holding()[r]] by {
            assert(before.holding().dom().contains(r));
            assert(before.held(before.holding()[r]));
        }
        if !before.spec_careless() {
            self.lemma_swept_retains(before.meshes().dom(), s);
            assert forall|j: int| 0 <= j < before.fading().len() implies self.retains(#[trigger] before.fading()[j]) by {
                assert(s[j] == before.fading()[j]);
            }
            assert forall|k: BrickKey| #[trigger] m.dom().contains(k) && !self.shows(k, m[k]) implies self.retains(
                (before.cur(), m[k].handle),
            ) by {
                assert(changed_among(changes, n as int, k));
                let i = choose|i: int| 0 <= i < n && (#[trigger] changes[i]).key == k;
                assert(gone.contains((before.cur(), m[changes[i].key].handle)));
                let j = choose|j: int| 0 <= j < gone.len() && gone[j] == (before.cur(), m[k].handle);
                assert(s[before.fading().len() + j] == gone[j]);
            }
        }
    }

    /// A reader that can see past snapshots was there before.
    proof fn lemma_watched_before(&self, before: &Store, id: u64)
        requires
            self.follows(before),
            id < before.cur() || (id == before.cur() && self.cur() != before.cur()),
            self.watched(id),
        ensures
            before.watched(id),
    {
        let r = choose|r: u64| #[trigger] self.holding().dom().contains(r) && self.holding()[r] <= id;
        assert(before.holding().dom().contains(r));
    }
}

/// Call `i` makes the next store of the history out of the one before.
pub open spec fn one_call(hist: Seq<Store>, i: int) -> bool {
    hist[i + 1].follows(&hist[i])
}

/// Stores from one call to the next.
pub open spec fn is_history(hist: Seq<Store>) -> bool {
    &&& hist.len() > 0
    &&& forall|i: int| 0 <= i < hist.len() ==> (#[trigger] hist[i]).wf()
    &&& forall|i: int| 0 <= i < hist.len() - 1 ==> #[trigger] one_call(hist, i)
}

proof fn lemma_shorter(hist: Seq<Store>)
    requires
        is_history(hist),
        hist.len() > 1,
    ensures
        is_history(hist.drop_last()),
        hist.drop_last().last() == hist[hist.len() - 2],
        hist.last().follows(&hist.drop_last().last()),
        hist.last().wf(),
{
    let a = hist.drop_last();
    assert forall|i: int| 0 <= i < a.len() - 1 implies #[trigger] one_call(a, i) by {
        assert(one_call(hist, i));
    }
    assert(one_call(hist, hist.len() - 2));
    assert(hist[hist.len() - 1].wf());
}

/// Result `e` was replaced: it is in no table any more, and is kept exactly where a reader can see it.
spec fn is_past(s: &Store, e: (u64, Handle)) -> bool {
    &&& e.0 < s.cur()
    &&& s.retains(e)
    &&& !s.watched(e.0) ==> s.spent(e.1)
}

/// A past result stays past.
proof fn lemma_stays_past(before: &Store, after: &Store, e: (u64, Handle))
    requires
        before.wf(),
        after.wf(),
        after.follows(before),
        !before.spec_careless(),
        is_past(before, e),
    ensures
        is_past(after, e),
{
    if after.watched(e.0) {
        after.lemma_watched_before(before, e.0);
    }
    if before.watched(e.0) {
        let j = choose|j: int| 0 <= j < before.fading().len() && before.fading()[j] == e;
        assert(after.retains(before.fading()[j]));
        before.law_fading_results_are_live();
        if !after.watched(e.0) {
            assert(before.meshes().dom().contains(e.1));
            assert(after.spent(e.1));
        }
    } else {
        assert(before.spent(e.1));
        assert(after.spent(e.1));
        after.law_spent_results_do_not_resolve(e.1);
    }
}

/// A past result is in no entry of the current table, and resolves exactly where a reader can see it.
proof fn lemma_past(s: &Store, e: (u64, Handle))
    requires
        s.wf(),
        is_past(s, e),
    ensures
        s.meshes().dom().contains(e.1) == s.watched(e.0),
        forall|k: BrickKey| #[trigger] s.table().dom().contains(k) ==> s.table()[k].handle != e.1,
{
    s.law_fading_results_are_live();
    s.law_live_entries_resolve();
    if s.watched(e.0) {
        let j = choose|j: int| 0 <= j < s.fading().len() && s.fading()[j] == e;
        assert(s.meshes().dom().contains(s.fading()[j].1));
        assert forall|k: BrickKey| #[trigger] s.table().dom().contains(k) implies s.table()[k].handle != e.1 by {
            assert(s.has(s.cur(), k));
            assert(s.cur() > s.fading()[j].0);
        }
    }
}

proof fn lemma_past_along(hist: Seq<Store>, m: int, k: BrickKey)
    requires
        is_history(hist),
        !hist[m].spec_careless(),
        0 <= m < hist.len() - 1,
        hist[m].table().dom().contains(k),
        !hist[m + 1].shows(k, hist[m].table()[k]),
    ensures
        is_past(&hist.last(), (hist[m].cur(), hist[m].table()[k].handle)),
        !hist.last().spec_careless(),
    decreases hist.len(),
{
    let e = (hist[m].cur(), hist[m].table()[k].handle);
    lemma_shorter(hist);
    let a = hist.drop_last();
    if m == hist.len() - 2 {
        let (before, after) = (hist[m], hist[m + 1]);
        assert(one_call(hist, m));
        assert(before.wf() && after.wf());
        before.law_live_entries_resolve();
        if after.cur() == before.cur() {
            assert(after.shows(k, before.table()[k]));
        }
        if after.watched(e.0) {
            after.lemma_watched_before(&before, e.0);
        }
        assert(before.meshes().dom().contains(e.1));
        assert(after.retains(e));
    } else {
        assert(a[m] == hist[m] && a[m + 1] == hist[m + 1]);
        lemma_past_along(a, m, k);
        lemma_stays_past(&a.last(), &hist.last(), e);
    }
}

/// Along a history, the result that call `m` replaces resolves from then on exactly while a reader is left
/// whose snapshot is at or before the last one that held it, and no later snapshot holds it.
pub proof fn law_replaced_results_resolve_while_a_reader_is_left(hist: Seq<Store>, m: int, k: BrickKey)
    requires
        is_history(hist),
        !hist[0].spec_careless(),
        0 <= m < hist.len() - 1,
        hist[m].table().dom().contains(k),
        !hist[m + 1].shows(k, hist[m].table()[k]),
    ensures
        hist.last().meshes().dom().contains(hist[m].table()[k].handle) == hist.last().watched(hist[m].cur()),
        hist[m].cur() < hist.last().cur(),
        forall|l: BrickKey| #[trigger]
            hist.last().table().dom().contains(l) ==> hist.last().table()[l].handle != hist[m].table()[k].handle,
{
    lemma_care_along(hist, m);
    lemma_past_along(hist, m, k);
    assert(hist[hist.len() - 1].wf());
    lemma_past(&hist.last(), (hist[m].cur(), hist[m].table()[k].handle));
}

proof fn lemma_care_along(hist: Seq<Store>, m: int)
    requires
        is_history(hist),
        0 <= m < hist.len(),
    ensures
        hist[m].spec_careless() == hist[0].spec_careless(),
    decreases m,
{
    if m > 0 {
        lemma_care_along(hist, m - 1);
        assert(one_call(hist, m - 1));
    }
}

/// Along a history, what a reader sees does not change while it holds on: its snapshot is the one it
/// acquired, with every value that it had then.
pub proof fn law_readers_see_what_they_acquired(hist: Seq<Store>, r: u64)
    requires
        is_history(hist),
        !hist[0].spec_careless(),
        hist[0].holding().dom().contains(r),
        hist.last().holding().dom().contains(r),
    ensures
        hist.last().holding()[r] == hist[0].holding()[r],
        hist.last().snaps()[hist[0].holding()[r]] == hist[0].snaps()[hist[0].holding()[r]],
        forall|k: BrickKey| #[trigger]
            hist.last().seen(hist[0].holding()[r], k) == hist[0].seen(hist[0].holding()[r], k),
    decreases hist.len(),
{
    assert(hist[0].wf());
    if hist.len() > 1 {
        lemma_shorter(hist);
        lemma_care_along(hist, hist.len() - 2);
        let a = hist.drop_last();
        let (before, after) = (a.last(), hist.last());
        assert(a[0] == hist[0]);
        if !before.holding().dom().contains(r) {
            lemma_readers_counted(a, r);
        }
        assert(before.holding().dom().contains(r));
        law_readers_see_what_they_acquired(a, r);
        assert(before.wf());
        before.law_live_entries_resolve();
        after.law_live_entries_resolve();
        let id = hist[0].holding()[r];
        assert forall|k: BrickKey| #[trigger] after.seen(id, k) == hist[0].seen(id, k) by {
            assert(before.seen(id, k) == hist[0].seen(id, k));
            assert(after.has(id, k) == before.has(id, k));
        }
    }
}

/// Reader numbers are given once.
proof fn lemma_readers_counted(hist: Seq<Store>, r: u64)
    requires
        is_history(hist),
        hist[0].holding().dom().contains(r),
    ensures
        r < hist.last().readers_made(),
    decreases hist.len(),
{
    if hist.len() > 1 {
        lemma_shorter(hist);
        assert(hist.drop_last()[0] == hist[0]);
        lemma_readers_counted(hist.drop_last(), r);
    } else {
        hist[0].law_readers_are_numbered();
    }
}

impl Pipeline {
    /// No key of chunk `c` awaits publication.
    pub open spec fn at_rest(&self, c: ChunkCoord) -> bool {
        forall|k: BrickKey| #[trigger] self.awaiting(k) ==> k.spec_chunk() != c
    }

    /// This is what one call makes of `before`. Only what awaited publication is replaced, in a shard of its
    /// chunk.
    pub open spec fn goes_on(&self, before: &Pipeline) -> bool {
        let old = before.spec_store();
        let store = self.spec_store();
        let prev = old.snaps()[old.cur()];
        let now = store.snaps()[store.cur()];
        &&& self.config() == before.config()
        &&& store.follows(&old)
        &&& forall|k: BrickKey|
            !#[trigger] before.awaiting(k) ==> now@.dom().contains(k) == prev@.dom().contains(k) && (prev@.dom().contains(k) ==> now@[k]
                == prev@[k])
        &&& forall|c: ChunkCoord| #[trigger]
            before.at_rest(c) ==> now.stamps().dom().contains(c) == prev.stamps().dom().contains(c) && (prev.stamps().dom().contains(c)
                ==> now.stamps()[c] == prev.stamps()[c])
    }

    /// This is what one call makes of `before`, and nothing was marked.
    pub open spec fn settles(&self, before: &Pipeline) -> bool {
        &&& self.goes_on(before)
        &&& forall|k: BrickKey| #[trigger] self.awaiting(k) ==> before.awaiting(k)
    }

    /// Calls that publish nothing.
    pub proof fn lemma_unpublished_goes_on(&self, before: &Pipeline)
        requires
            before.wf(),
            self.config() == before.config(),
            self.spec_store().same_but_meshes(&before.spec_store()),
            self.spec_store().remembers(&before.spec_store()),
            forall|h: Handle| #[trigger]
                self.spec_store().meshes().dom().contains(h) && before.spec_store().meshes().dom().contains(h)
                    ==> self.spec_store().meshes()[h] == before.spec_store().meshes()[h],
        ensures
            self.goes_on(before),
    {
        before.law_store_is_sound();
        self.spec_store().lemma_quiet_follows(&before.spec_store());
    }

    /// Keys were marked.
    pub proof fn lemma_batched_goes_on(&self, before: &Pipeline, keys: Set<BrickKey>)
        requires
            before.wf(),
            self.batched(before, keys),
        ensures
            self.goes_on(before),
    {
        self.lemma_unpublished_goes_on(before);
    }

    /// Jobs were dispatched.
    pub proof fn lemma_dispatched_settles(&self, before: &Pipeline, jobs: Seq<Job>, n: nat)
        requires
            before.wf(),
            self.dispatched(before, jobs, n),
        ensures
            self.settles(before),
    {
        self.lemma_unpublished_goes_on(before);
    }

    /// A job came back.
    pub proof fn lemma_completed_settles(&self, before: &Pipeline, world: &World, result: &JobResult, r: Completion)
        requires
            before.wf(),
            self.completed(before, world, result, r),
        ensures
            self.settles(before),
    {
        self.lemma_unpublished_goes_on(before);
    }

    /// A reader came.
    pub proof fn lemma_acquired_settles(&self, before: &Pipeline)
        requires
            before.wf(),
            self.wf(),
            self.same_table(before),
            self.spec_store().readers_made() == before.spec_store().readers_made() + 1,
            self.spec_store().holding() == before.spec_store().holding().insert(
                before.spec_store().readers_made(),
                before.spec_store().cur(),
            ),
            self.spec_store().snaps() == before.spec_store().snaps(),
            self.spec_store().meshes() == before.spec_store().meshes(),
            self.spec_store().fading() == before.spec_store().fading(),
        ensures
            self.settles(before),
    {
        before.law_store_is_sound();
        self.law_store_is_sound();
        self.spec_store().lemma_acquired_follows(&before.spec_store());
    }

    /// Readers left.
    pub proof fn lemma_released_settles(&self, before: &Pipeline)
        requires
            before.wf(),
            self.wf(),
            self.same_table(before),
            self.spec_store().holding().submap_of(before.spec_store().holding()),
            self.spec_store().readers_made() == before.spec_store().readers_made(),
            self.spec_store().swept(before.spec_store().meshes().dom(), before.spec_store().fading()),
            forall|i: u64| #[trigger]
                self.spec_store().snaps().dom().contains(i) ==> self.spec_store().snaps()[i] == before.spec_store().snaps()[i],
        ensures
            self.settles(before),
    {
        before.law_store_is_sound();
        self.law_store_is_sound();
        self.spec_store().lemma_released_follows(&before.spec_store());
    }

    /// Groups were published, or none was ready.
    pub proof fn lemma_published_settles(&self, mid: &Pipeline, before: &Pipeline, world: &World, r: Option<Published>)
        requires
            before.wf(),
            mid.wf(),
            self.wf(),
            mid.revalidated(before, world),
            self.published(mid, world, r),
        ensures
            self.settles(before),
    {
        let old = before.spec_store();
        let held = mid.spec_store();
        let store = self.spec_store();
        before.law_store_is_sound();
        mid.law_store_is_sound();
        self.law_store_is_sound();
        if let Some(p) = r {
            let ready = choose|ready: Seq<u64>| #[trigger] mid.all_ready(ready) && self.published_groups(mid, world, ready, p);
            let n = ready.len();
            let changes = mid.all_changes(ready, n);
            mid.lemma_all_changes(ready, n);
            mid.lemma_publishable(ready);
            law_applied(held.table(), changes, changes.len());
            store.lemma_published_follows(&held, changes);
            store.lemma_follows_quiet(&held, &old);
            assert forall|k: BrickKey| !#[trigger] before.awaiting(k) implies store.table().dom().contains(k) == old.table().dom().contains(k)
                && (old.table().dom().contains(k) ==> store.table()[k] == old.table()[k]) by {
                if changed_among(changes, changes.len() as int, k) {
                    let i = choose|i: int| 0 <= i < changes.len() && (#[trigger] changes[i]).key == k;
                    assert(mid.publishes(ready, n as int, changes[i]));
                    assert(mid.awaiting(k));
                }
            }
            let now = store.snaps()[store.cur()];
            assert forall|c: ChunkCoord| #[trigger] before.at_rest(c) implies !held.touches(changes, changes.len() as int, c) by {
                if held.touches(changes, changes.len() as int, c) {
                    let i = choose|i: int| 0 <= i < changes.len() && (#[trigger] changes[i]).key.spec_chunk() == c;
                    assert(mid.publishes(ready, n as int, changes[i]));
                    assert(before.awaiting(changes[i].key));
                }
            }
            assert forall|c: ChunkCoord| #[trigger] before.at_rest(c) implies now.stamps().dom().contains(c)
                == old.snaps()[old.cur()].stamps().dom().contains(c) && (old.snaps()[old.cur()].stamps().dom().contains(c) ==> now.stamps()[c]
                == old.snaps()[old.cur()].stamps()[c]) by {
                assert(now.stamps().dom().contains(c) || !now.stamps().dom().contains(c));
            }
        } else {
            self.lemma_unpublished_goes_on(before);
        }
    }
}

/// Pipelines from one call to the next.
pub open spec fn is_life(hist: Seq<Pipeline>) -> bool {
    &&& hist.len() > 0
    &&& forall|i: int| 0 <= i < hist.len() ==> (#[trigger] hist[i]).wf()
    &&& forall|i: int| 0 <= i < hist.len() - 1 ==> #[trigger] next_call(hist, i)
}

/// Call `i` makes the next pipeline of the history out of the one before.
pub open spec fn next_call(hist: Seq<Pipeline>, i: int) -> bool {
    hist[i + 1].goes_on(&hist[i])
}

/// The stores of the pipelines.
pub open spec fn stores(hist: Seq<Pipeline>) -> Seq<Store> {
    Seq::new(hist.len(), |i: int| hist[i].spec_store())
}

proof fn lemma_stores(hist: Seq<Pipeline>)
    requires
        is_life(hist),
    ensures
        is_history(stores(hist)),
        stores(hist).len() == hist.len(),
        stores(hist).last() == hist.last().spec_store(),
        stores(hist)[0].spec_careless() == hist[0].config().faults.retire_without_readers,
{
    let s = stores(hist);
    assert forall|i: int| 0 <= i < s.len() implies (#[trigger] s[i]).wf() by {
        assert(hist[i].wf());
        hist[i].law_store_is_sound();
    }
    assert forall|i: int| 0 <= i < s.len() - 1 implies #[trigger] one_call(s, i) by {
        assert(next_call(hist, i));
    }
    assert(hist[0].wf());
    hist[0].law_store_is_sound();
}

/// Readers over a history of calls: one that holds on reads what it read at first. A result that some call
/// replaced resolves exactly while a reader is left whose snapshot is at or before the last one that held
/// it, and no snapshot since then holds it. Once no reader is left, nothing retires and one snapshot lives.
pub proof fn law_readers_over_a_history(hist: Seq<Pipeline>)
    requires
        is_life(hist),
        !hist[0].config().faults.retire_without_readers,
    ensures
        ({
            let first = hist[0].spec_store();
            let last = hist.last().spec_store();
            &&& forall|r: u64|
                first.holding().dom().contains(r) && #[trigger] last.holding().dom().contains(r) ==> last.holding()[r] == first.holding()[r]
            &&& forall|r: u64, k: BrickKey|
                first.holding().dom().contains(r) && last.holding().dom().contains(r) ==> #[trigger] last.seen(last.holding()[r], k)
                    == first.seen(first.holding()[r], k)
            &&& forall|m: int, k: BrickKey|
                0 <= m < hist.len() - 1 && #[trigger] hist[m].spec_store().table().dom().contains(k) && !hist[m + 1].spec_store().shows(
                    k,
                    hist[m].spec_store().table()[k],
                ) ==> {
                    let h = hist[m].spec_store().table()[k].handle;
                    &&& last.meshes().dom().contains(h) == last.watched(hist[m].spec_store().cur())
                    &&& forall|l: BrickKey| #[trigger] last.table().dom().contains(l) ==> last.table()[l].handle != h
                }
            &&& last.holding() == Map::<u64, u64>::empty() ==> last.fading().len() == 0 && last.snaps().dom().len() == 1
        }),
{
    lemma_stores(hist);
    let s = stores(hist);
    let first = hist[0].spec_store();
    let last = hist.last().spec_store();
    assert forall|r: u64| first.holding().dom().contains(r) && #[trigger] last.holding().dom().contains(r) implies last.holding()[r]
        == first.holding()[r] by {
        law_readers_see_what_they_acquired(s, r);
    }
    assert forall|r: u64, k: BrickKey|
        first.holding().dom().contains(r) && last.holding().dom().contains(r) implies #[trigger] last.seen(last.holding()[r], k)
        == first.seen(first.holding()[r], k) by {
        law_readers_see_what_they_acquired(s, r);
    }
    assert forall|m: int, k: BrickKey|
        0 <= m < hist.len() - 1 && #[trigger] hist[m].spec_store().table().dom().contains(k) && !hist[m + 1].spec_store().shows(
            k,
            hist[m].spec_store().table()[k],
        ) implies {
        let h = hist[m].spec_store().table()[k].handle;
        &&& last.meshes().dom().contains(h) == last.watched(hist[m].spec_store().cur())
        &&& forall|l: BrickKey| #[trigger] last.table().dom().contains(l) ==> last.table()[l].handle != h
    } by {
        assert(s[m] == hist[m].spec_store() && s[m + 1] == hist[m + 1].spec_store());
        law_replaced_results_resolve_while_a_reader_is_left(s, m, k);
    }
    if last.holding() == Map::<u64, u64>::empty() {
        assert(s[s.len() - 1].wf());
        last.law_without_readers_only_the_current_snapshot_lives();
    }
}

/// The chunks of the bricks that an edit of voxel `at` can change.
pub open spec fn touched_chunks(at: VoxelCoord) -> Set<ChunkCoord> {
    Seq::new(spec_affected_keys(at).len(), |i: int| spec_affected_keys(at)[i].spec_chunk()).to_set()
}

/// The calls behind `hist[1]` derive and publish what was marked by then; readers may come and go.
pub open spec fn settling(hist: Seq<Pipeline>) -> bool {
    forall|i: int| 1 <= i < hist.len() - 1 ==> #[trigger] settling_call(hist, i)
}

pub open spec fn settling_call(hist: Seq<Pipeline>, i: int) -> bool {
    hist[i + 1].settles(&hist[i])
}

/// An idle pipeline, one edit, and the calls that derive and publish it.
pub open spec fn one_edit(hist: Seq<Pipeline>, at: VoxelCoord) -> bool {
    &&& hist.len() >= 2
    &&& is_life(hist)
    &&& at.in_bounds()
    &&& hist[0].idle()
    &&& hist[1].batched(&hist[0], dirtied_by(seq![at], 1, hist[0].config().faults.skip_neighbour_dirty))
    &&& settling(hist)
}

proof fn lemma_one_edit(hist: Seq<Pipeline>, at: VoxelCoord)
    requires
        one_edit(hist, at),
    ensures
        ({
            let prev = hist[0].spec_store().snaps()[hist[0].spec_store().cur()];
            let now = hist.last().spec_store().snaps()[hist.last().spec_store().cur()];
            &&& forall|k: BrickKey| #[trigger] hist.last().awaiting(k) ==> spec_affected_keys(at).contains(k)
            &&& now.origin() == prev.origin()
            &&& forall|k: BrickKey|
                !#[trigger] spec_affected_keys(at).contains(k) ==> now@.dom().contains(k) == prev@.dom().contains(k) && (
                prev@.dom().contains(k) ==> now@[k] == prev@[k])
            &&& forall|c: ChunkCoord|
                !#[trigger] touched_chunks(at).contains(c) ==> now.stamps().dom().contains(c) == prev.stamps().dom().contains(c) && (
                prev.stamps().dom().contains(c) ==> now.stamps()[c] == prev.stamps()[c])
        }),
    decreases hist.len(),
{
    let prev = hist[0].spec_store().snaps()[hist[0].spec_store().cur()];
    let keys = spec_affected_keys(at);
    let chunks = Seq::new(keys.len(), |i: int| keys[i].spec_chunk());
    assert(hist[0].wf());
    assert(next_call(hist, hist.len() - 2));
    let (a, b) = (hist[hist.len() - 2], hist.last());
    let skip = hist[0].config().faults.skip_neighbour_dirty;
    let marked = dirtied_by(seq![at], 1, skip);
    if hist.len() == 2 {
        hist[0].law_idle_pipelines_await_nothing();
        lemma_affected_inner(at);
        assert(seq![at][0] == at);
        assert(marked.contains(at.key()));
        assert forall|k: BrickKey| #[trigger] b.awaiting(k) implies keys.contains(k) by {
            assert(marked.contains(k));
        }
        assert forall|c: ChunkCoord| #[trigger] a.at_rest(c) by {}
    } else {
        let shorter = hist.drop_last();
        assert forall|i: int| 0 <= i < shorter.len() - 1 implies #[trigger] next_call(shorter, i) by {
            assert(next_call(hist, i));
        }
        assert forall|i: int| 1 <= i < shorter.len() - 1 implies #[trigger] settling_call(shorter, i) by {
            assert(settling_call(hist, i));
        }
        assert(settling_call(hist, hist.len() - 2));
        lemma_one_edit(shorter, at);
        assert(shorter.last() == a);
        assert forall|c: ChunkCoord| !#[trigger] touched_chunks(at).contains(c) implies a.at_rest(c) by {
            assert forall|k: BrickKey| #[trigger] a.awaiting(k) implies k.spec_chunk() != c by {
                let i = choose|i: int| 0 <= i < keys.len() && keys[i] == k;
                assert(chunks[i] == k.spec_chunk());
            }
        }
        assert forall|k: BrickKey| !#[trigger] keys.contains(k) implies !a.awaiting(k) by {}
        assert forall|k: BrickKey| #[trigger] b.awaiting(k) implies keys.contains(k) by {
            assert(a.awaiting(k));
        }
    }
    let now = b.spec_store().snaps()[b.spec_store().cur()];
    assert forall|c: ChunkCoord| !#[trigger] touched_chunks(at).contains(c) implies now.stamps().dom().contains(c)
        == prev.stamps().dom().contains(c) && (prev.stamps().dom().contains(c) ==> now.stamps()[c] == prev.stamps()[c]) by {
        assert(a.at_rest(c));
    }
    assert forall|k: BrickKey| !#[trigger] keys.contains(k) implies now@.dom().contains(k) == prev@.dom().contains(k) && (
    prev@.dom().contains(k) ==> now@[k] == prev@[k]) by {
        assert(!a.awaiting(k));
    }
}

/// One edit copies at most the shards of the chunks it touches. Whatever calls derived and published it, the
/// new snapshot shares with the old one every shard of another chunk, and has every other entry as it was;
/// a reader of the old snapshot has it unchanged. A snapshot has one shard for each chunk of its keys, and
/// shares all of them with itself.
pub proof fn law_one_edit_copies_only_what_it_touches(hist: Seq<Pipeline>, at: VoxelCoord)
    requires
        one_edit(hist, at),
    ensures
        ({
            let first = hist[0].spec_store();
            let last = hist.last().spec_store();
            let prev = first.snaps()[first.cur()];
            let now = last.snaps()[last.cur()];
            let all = now.stamps().dom();
            let shared = now.shared_chunks(&prev);
            &&& all.finite()
            &&& shared.finite()
            &&& shared.len() <= all.len()
            &&& all.len() - shared.len() <= touched_chunks(at).len()
            &&& forall|c: ChunkCoord| #[trigger] all.contains(c) && !touched_chunks(at).contains(c) ==> shared.contains(c)
            &&& forall|c: ChunkCoord| #[trigger] all.contains(c) <==> exists|k: BrickKey| #[trigger] now@.dom().contains(k) && k.spec_chunk() == c
            &&& now.shared_chunks(&now) == all
            &&& forall|k: BrickKey|
                !#[trigger] spec_affected_keys(at).contains(k) ==> now@.dom().contains(k) == prev@.dom().contains(k) && (
                prev@.dom().contains(k) ==> now@[k] == prev@[k])
            &&& !hist[0].config().faults.retire_without_readers ==> forall|r: u64|
                first.holding().dom().contains(r) && #[trigger] last.holding().dom().contains(r) && first.holding()[r] == first.cur()
                    ==> last.snaps()[last.holding()[r]] == prev
        }),
{
    lemma_one_edit(hist, at);
    lemma_stores(hist);
    let first = hist[0].spec_store();
    let last = hist.last().spec_store();
    let prev = first.snaps()[first.cur()];
    let now = last.snaps()[last.cur()];
    let all = now.stamps().dom();
    let shared = now.shared_chunks(&prev);
    let s = stores(hist);
    assert(s[s.len() - 1].wf());
    last.law_live_entries_resolve();
    now.law_snapshots_share_their_own_shards(&prev);
    now.law_shards_hold_the_entries();
    let fresh = all.difference(shared);
    let chunks = touched_chunks(at);
    assert(chunks.finite()) by {
        vstd::seq_lib::seq_to_set_is_finite(Seq::new(spec_affected_keys(at).len(), |i: int| spec_affected_keys(at)[i].spec_chunk()));
    }
    assert(fresh.subset_of(chunks));
    vstd::set_lib::lemma_len_subset(fresh, chunks);
    vstd::set_lib::lemma_set_disjoint_lens(fresh, shared);
    assert(fresh + shared =~= all);
    if !hist[0].config().faults.retire_without_readers {
        assert forall|r: u64|
            first.holding().dom().contains(r) && #[trigger] last.holding().dom().contains(r) && first.holding()[r] == first.cur() implies last.snaps()[last.holding()[r]]
            == prev by {
            law_readers_see_what_they_acquired(s, r);
        }
    }
}

} // verus!
