//! Published results: snapshots, their readers, and reader-safe retirement.
//!
//! A replaced or removed result is freed only after every reader that could see it (holding a
//! snapshot at or before the last one containing it) has released.
use crate::derived::mesh::BrickMesh;
use crate::derived::slots::{Handle, PoolStats, SlotPool};
use crate::derived::snapshot::{Entry, Snapshot, SnapshotId};
use crate::sorted::{among, increasing, lemma_among, Key, SortedMap};
use crate::world::{BrickKey, ChunkCoord, ContentVersion};
use vstd::prelude::*;

verus! {

#[derive(Clone, Copy, Debug, PartialEq, Eq, PartialOrd, Ord, Hash, Structural)]
pub struct ReaderId {
    pub number: u64,
}

/// A reader's claim on one snapshot, like a GPU frame in flight. Release it explicitly.
#[derive(Debug, PartialEq, Eq, Structural)]
pub struct ReaderToken {
    pub id: ReaderId,
    pub snapshot: SnapshotId,
}

#[derive(Clone, Copy, Debug, PartialEq, Eq, Structural)]
pub enum ReadError {
    UnknownReader,
    /// The snapshot's resource no longer resolves.
    Dangling { key: BrickKey },
}

/// An entry of a live snapshot that does not resolve.
#[derive(Clone, Copy, Debug, PartialEq, Eq, Structural)]
pub struct DanglingEntry {
    pub snapshot: SnapshotId,
    pub key: BrickKey,
    pub handle: Handle,
}

/// One key's part in a publication: its new entry, or none when the brick is gone.
#[derive(Clone, Copy)]
pub struct Change {
    pub key: BrickKey,
    pub entry: Option<Entry>,
}

/// `m` after the first `n` changes.
pub open spec fn applied(m: Map<BrickKey, Entry>, changes: Seq<Change>, n: nat) -> Map<BrickKey, Entry>
    decreases n,
{
    if n == 0 {
        m
    } else {
        let before = applied(m, changes, (n - 1) as nat);
        match changes[n - 1].entry {
            Some(e) => before.insert(changes[n - 1].key, e),
            None => before.remove(changes[n - 1].key),
        }
    }
}

/// Whether one of the first `n` changes is to `k`.
pub open spec fn changed_among(changes: Seq<Change>, n: int, k: BrickKey) -> bool {
    exists|i: int| 0 <= i < n && (#[trigger] changes[i]).key == k
}

/// No key is changed twice.
pub open spec fn distinct_keys(changes: Seq<Change>) -> bool {
    forall|i: int, j: int| 0 <= i < j < changes.len() ==> (#[trigger] changes[i]).key != (#[trigger] changes[j]).key
}

/// A publication gives every changed key its new entry and leaves every other key alone.
pub proof fn law_applied(m: Map<BrickKey, Entry>, changes: Seq<Change>, n: nat)
    requires
        n <= changes.len(),
        distinct_keys(changes),
    ensures
        forall|k: BrickKey|
            !#[trigger] changed_among(changes, n as int, k) ==> (applied(m, changes, n).dom().contains(k) == m.dom().contains(k)
                && (m.dom().contains(k) ==> applied(m, changes, n)[k] == m[k])),
        forall|i: int|
            0 <= i < n ==> match (#[trigger] changes[i]).entry {
                Some(e) => applied(m, changes, n).dom().contains(changes[i].key) && applied(m, changes, n)[changes[i].key]
                    == e,
                None => !applied(m, changes, n).dom().contains(changes[i].key),
            },
    decreases n,
{
    if n > 0 {
        law_applied(m, changes, (n - 1) as nat);
        let c = changes[n - 1];
        assert forall|k: BrickKey| !#[trigger] changed_among(changes, n as int, k) implies (applied(m, changes, n).dom().contains(k)
            == m.dom().contains(k) && (m.dom().contains(k) ==> applied(m, changes, n)[k] == m[k])) by {
            assert(c.key != k);
            if changed_among(changes, n - 1, k) {
                let i = choose|i: int| 0 <= i < n - 1 && (#[trigger] changes[i]).key == k;
                assert(changes[i].key == k);
            }
        }
        assert forall|i: int| 0 <= i < n implies match (#[trigger] changes[i]).entry {
            Some(e) => applied(m, changes, n).dom().contains(changes[i].key) && applied(m, changes, n)[changes[i].key] == e,
            None => !applied(m, changes, n).dom().contains(changes[i].key),
        } by {
            if i < n - 1 {
                assert(changes[i].key != changes[n - 1].key);
            }
        }
    }
}

/// The entries no older than `o`, among the first `n`.
spec fn kept(s: Seq<(u64, Handle)>, o: u64, n: nat) -> Seq<(u64, Handle)>
    decreases n,
{
    if n == 0 {
        Seq::empty()
    } else if s[n - 1].0 < o {
        kept(s, o, (n - 1) as nat)
    } else {
        kept(s, o, (n - 1) as nat).push(s[n - 1])
    }
}

/// Whether `h` is one of the first `n` entries older than `o`.
spec fn dropped(s: Seq<(u64, Handle)>, o: u64, n: int, h: Handle) -> bool {
    exists|j: int| 0 <= j < n && (#[trigger] s[j]).1 == h && s[j].0 < o
}

proof fn lemma_kept(s: Seq<(u64, Handle)>, o: u64, n: nat)
    requires
        n <= s.len(),
    ensures
        kept(s, o, n).len() <= n,
        forall|i: int|
            0 <= i < kept(s, o, n).len() ==> (#[trigger] kept(s, o, n)[i]).0 >= o && exists|j: int|
                0 <= j < n && #[trigger] s[j] == kept(s, o, n)[i],
        forall|j: int| 0 <= j < n && (#[trigger] s[j]).0 >= o ==> kept(s, o, n).contains(s[j]),
        (forall|i: int, j: int| 0 <= i < j < s.len() ==> (#[trigger] s[i]).1 != (#[trigger] s[j]).1) ==> forall|i: int, j: int|
            0 <= i < j < kept(s, o, n).len() ==> (#[trigger] kept(s, o, n)[i]).1 != (#[trigger] kept(s, o, n)[j]).1,
    decreases n,
{
    if n > 0 {
        lemma_kept(s, o, (n - 1) as nat);
        let a = kept(s, o, (n - 1) as nat);
        let b = kept(s, o, n);
        assert forall|i: int| 0 <= i < b.len() implies (#[trigger] b[i]).0 >= o && exists|j: int| 0 <= j < n && #[trigger] s[j] == b[i] by {
            if i < a.len() {
                assert(b[i] == a[i]);
                let j = choose|j: int| 0 <= j < n - 1 && #[trigger] s[j] == a[i];
                assert(s[j] == b[i]);
            } else {
                assert(s[n - 1] == b[i]);
            }
        }
        assert forall|j: int| 0 <= j < n && (#[trigger] s[j]).0 >= o implies b.contains(s[j]) by {
            if j < n - 1 {
                assert(a.contains(s[j]));
                let i = choose|i: int| 0 <= i < a.len() && a[i] == s[j];
                assert(b[i] == s[j]);
            } else {
                assert(b[b.len() - 1] == s[j]);
            }
        }
        if forall|i: int, j: int| 0 <= i < j < s.len() ==> (#[trigger] s[i]).1 != (#[trigger] s[j]).1 {
            assert forall|i: int, j: int| 0 <= i < j < b.len() implies (#[trigger] b[i]).1 != (#[trigger] b[j]).1 by {
                if j < a.len() {
                    assert(a[i].1 != a[j].1);
                } else {
                    assert(b[j] == s[n - 1]);
                    assert(b[i] == a[i]);
                    let q = choose|q: int| 0 <= q < n - 1 && #[trigger] s[q] == a[i];
                    assert(s[q].1 != s[n - 1].1);
                }
            }
        }
    }
}

/// A map whose values are told apart by handles of a finite set is no larger than that set.
proof fn lemma_handles_bound(m: Map<BrickKey, Entry>, keys: Set<BrickKey>, live: Set<Handle>)
    requires
        keys.finite(),
        live.finite(),
        keys.subset_of(m.dom()),
        forall|k: BrickKey| #[trigger] keys.contains(k) ==> live.contains(m[k].handle),
        forall|k: BrickKey, l: BrickKey|
            #[trigger] keys.contains(k) && #[trigger] keys.contains(l) && m[k].handle == m[l].handle ==> k == l,
    ensures
        keys.len() <= live.len(),
    decreases keys.len(),
{
    if keys.len() > 0 {
        let k = keys.choose();
        assert(keys.contains(k));
        let h = m[k].handle;
        assert forall|l: BrickKey| #[trigger] keys.remove(k).contains(l) implies live.remove(h).contains(m[l].handle) by {
            assert(keys.contains(l));
        }
        assert forall|a: BrickKey, b: BrickKey|
            #[trigger] keys.remove(k).contains(a) && #[trigger] keys.remove(k).contains(b) && m[a].handle == m[b].handle implies a
            == b by {
            assert(keys.contains(a) && keys.contains(b));
        }
        lemma_handles_bound(m, keys.remove(k), live.remove(h));
    }
}

/// Whether `h` is one of the first `n` results of `s`.
pub open spec fn listed(s: Seq<(u64, Handle)>, n: int, h: Handle) -> bool {
    exists|j: int| 0 <= j < n && (#[trigger] s[j]).1 == h
}

/// The results that the first `n` changes replace, each with the last snapshot that contains it.
pub open spec fn replaced(m: Map<BrickKey, Entry>, changes: Seq<Change>, last: u64, n: nat) -> Seq<(u64, Handle)>
    decreases n,
{
    if n == 0 {
        Seq::empty()
    } else {
        let before = replaced(m, changes, last, (n - 1) as nat);
        if m.dom().contains(changes[n - 1].key) {
            before.push((last, m[changes[n - 1].key].handle))
        } else {
            before
        }
    }
}

proof fn lemma_replaced(m: Map<BrickKey, Entry>, changes: Seq<Change>, last: u64, n: nat)
    requires
        n <= changes.len(),
    ensures
        replaced(m, changes, last, n).len() <= n,
        forall|j: int|
            0 <= j < replaced(m, changes, last, n).len() ==> (#[trigger] replaced(m, changes, last, n)[j]).0 == last && exists|i: int|
                0 <= i < n && m.dom().contains((#[trigger] changes[i]).key) && m[changes[i].key].handle == replaced(
                    m,
                    changes,
                    last,
                    n,
                )[j].1,
        forall|i: int|
            0 <= i < n && m.dom().contains((#[trigger] changes[i]).key) ==> replaced(m, changes, last, n).contains(
                (last, m[changes[i].key].handle),
            ),
        distinct_keys(changes) && (forall|k: BrickKey, l: BrickKey|
            #[trigger] m.dom().contains(k) && #[trigger] m.dom().contains(l) && m[k].handle == m[l].handle ==> k == l) ==> forall|
            i: int,
            j: int,
        |
            0 <= i < j < replaced(m, changes, last, n).len() ==> (#[trigger] replaced(m, changes, last, n)[i]).1 != (
            #[trigger] replaced(m, changes, last, n)[j]).1,
    decreases n,
{
    if n > 0 {
        lemma_replaced(m, changes, last, (n - 1) as nat);
        let a = replaced(m, changes, last, (n - 1) as nat);
        let b = replaced(m, changes, last, n);
        let c = changes[n - 1];
        assert forall|j: int| 0 <= j < b.len() implies (#[trigger] b[j]).0 == last && exists|i: int|
            0 <= i < n && m.dom().contains((#[trigger] changes[i]).key) && m[changes[i].key].handle == b[j].1 by {
            if j < a.len() {
                assert(b[j] == a[j]);
                let i = choose|i: int|
                    0 <= i < n - 1 && m.dom().contains((#[trigger] changes[i]).key) && m[changes[i].key].handle == a[j].1;
                assert(m[changes[i].key].handle == b[j].1);
            } else {
                assert(m[changes[n - 1].key].handle == b[j].1);
            }
        }
        assert forall|i: int| 0 <= i < n && m.dom().contains((#[trigger] changes[i]).key) implies b.contains(
            (last, m[changes[i].key].handle),
        ) by {
            if i < n - 1 {
                assert(a.contains((last, m[changes[i].key].handle)));
                let j = choose|j: int| 0 <= j < a.len() && a[j] == (last, m[changes[i].key].handle);
                assert(b[j] == a[j]);
            } else {
                assert(b[b.len() - 1] == (last, m[c.key].handle));
            }
        }
        if distinct_keys(changes) && (forall|k: BrickKey, l: BrickKey|
            #[trigger] m.dom().contains(k) && #[trigger] m.dom().contains(l) && m[k].handle == m[l].handle ==> k == l) {
            assert forall|i: int, j: int| 0 <= i < j < b.len() implies (#[trigger] b[i]).1 != (#[trigger] b[j]).1 by {
                assert(b[i] == a[i]);
                if j < a.len() {
                    assert(a[i].1 != a[j].1);
                } else {
                    let q = choose|q: int|
                        0 <= q < n - 1 && m.dom().contains((#[trigger] changes[q]).key) && m[changes[q].key].handle == a[i].1;
                    assert(changes[q].key != changes[n - 1].key);
                    assert(m.dom().contains(c.key));
                }
            }
        }
    }
}

/// What one publication did.
#[derive(Clone, Copy, Debug, PartialEq, Eq, Structural)]
pub struct Publication {
    pub id: SnapshotId,
    pub retired: u64,
    pub freed: u64,
}

#[derive(Debug)]
pub struct Store {
    pool: SlotPool<BrickMesh>,
    snapshots: SortedMap<u64, Snapshot>,
    current: u64,
    readers: SortedMap<u64, u64>,
    /// (last snapshot that contains the handle, handle)
    retiring: Vec<(u64, Handle)>,
    next_reader: u64,
    /// Free replaced results at publication, ignoring readers.
    careless: bool,
}

impl Store {
    /// The live results.
    pub closed spec fn meshes(&self) -> Map<Handle, BrickMesh> {
        self.pool@
    }

    pub closed spec fn spec_pool(&self) -> SlotPool<BrickMesh> {
        self.pool
    }

    /// How many results were ever stored.
    pub closed spec fn issued(&self) -> u64 {
        self.pool.spec_stats().allocations
    }

    /// The result that `h` named is gone, and no other will have that name.
    pub closed spec fn spent(&self, h: Handle) -> bool {
        self.pool.spent(h)
    }

    /// What stopped resolving since `before` stays gone.
    pub open spec fn remembers(&self, before: &Store) -> bool {
        &&& forall|h: Handle| #[trigger] before.spent(h) ==> self.spent(h)
        &&& forall|h: Handle| #[trigger] before.meshes().dom().contains(h) && !self.meshes().dom().contains(h) ==> self.spent(h)
    }

    pub proof fn lemma_remembers(&self, mid: &Store, before: &Store)
        requires
            self.remembers(mid),
            mid.remembers(before),
        ensures
            self.remembers(before),
    {
        assert forall|h: Handle| #[trigger] before.meshes().dom().contains(h) && !self.meshes().dom().contains(h) implies self.spent(h) by {
            if !mid.meshes().dom().contains(h) {
                assert(mid.spent(h));
            }
        }
        assert forall|h: Handle| #[trigger] before.spent(h) implies self.spent(h) by {
            assert(mid.spent(h));
        }
    }

    /// The live snapshots.
    pub closed spec fn snaps(&self) -> Map<u64, Snapshot> {
        self.snapshots@
    }

    pub closed spec fn cur(&self) -> u64 {
        self.current
    }

    /// The snapshot each reader holds.
    pub closed spec fn holding(&self) -> Map<u64, u64> {
        self.readers@
    }

    /// Replaced results, each with the last snapshot that contains it.
    pub closed spec fn fading(&self) -> Seq<(u64, Handle)> {
        self.retiring@
    }

    pub closed spec fn readers_made(&self) -> u64 {
        self.next_reader
    }

    pub closed spec fn spec_careless(&self) -> bool {
        self.careless
    }

    /// The entries of the current snapshot.
    pub open spec fn table(&self) -> Map<BrickKey, Entry> {
        self.snaps()[self.cur()]@
    }

    /// Live snapshot `id` has an entry for `k`.
    pub open spec fn has(&self, id: u64, k: BrickKey) -> bool {
        self.snaps().dom().contains(id) && self.snaps()[id]@.dom().contains(k)
    }

    pub open spec fn handle_at(&self, id: u64, k: BrickKey) -> Handle {
        self.snaps()[id]@[k].handle
    }

    /// What snapshot `id` holds for `k`.
    pub open spec fn seen(&self, id: u64, k: BrickKey) -> Option<BrickMesh> {
        if self.has(id, k) && self.meshes().dom().contains(self.handle_at(id, k)) {
            Some(self.meshes()[self.handle_at(id, k)])
        } else {
            None
        }
    }

    /// A result that is in no snapshot and is not retiring: the caller owns it.
    pub open spec fn loose(&self, h: Handle) -> bool {
        &&& self.meshes().dom().contains(h)
        &&& forall|id: u64, k: BrickKey| #[trigger] self.has(id, k) ==> self.handle_at(id, k) != h
        &&& forall|j: int| 0 <= j < self.fading().len() ==> (#[trigger] self.fading()[j]).1 != h
    }

    closed spec fn shape(&self) -> bool {
        &&& self.pool.wf()
        &&& self.snapshots.wf()
        &&& self.readers.wf()
        &&& self.snaps().dom().contains(self.cur())
        &&& forall|id: u64| #[trigger]
            self.snaps().dom().contains(id) ==> self.snaps()[id].wf() && self.snaps()[id].spec_id() == id && id <= self.cur()
                && self.snaps()[id].origin() == self.snaps()[self.cur()].origin()
        &&& forall|r: u64| #[trigger]
            self.holding().dom().contains(r) ==> self.snaps().dom().contains(self.holding()[r]) && r < self.readers_made()
    }

    /// Every entry resolves.
    closed spec fn resolves(&self) -> bool {
        forall|id: u64, k: BrickKey| #[trigger]
            self.has(id, k) ==> {
                &&& (self.spec_careless() && id != self.cur()) || self.meshes().dom().contains(self.handle_at(id, k))
                &&& self.meshes().dom().contains(self.handle_at(id, k)) || self.pool.spent(self.handle_at(id, k))
            }
    }

    /// An entry of an older snapshot is in the current one too, or retires no sooner than it.
    closed spec fn covered(&self) -> bool {
        !self.spec_careless() ==> forall|id: u64, k: BrickKey| #[trigger]
            self.has(id, k) ==> (self.has(self.cur(), k) && self.handle_at(self.cur(), k) == self.handle_at(id, k)) || exists|j: int|
                0 <= j < self.fading().len() && (#[trigger] self.fading()[j]).1 == self.handle_at(id, k) && self.fading()[j].0 >= id
    }

    /// Where replaced results are freed at once, an entry of an older snapshot that the current one
    /// lacks is gone.
    closed spec fn buried(&self) -> bool {
        self.spec_careless() ==> forall|id: u64, k: BrickKey| #[trigger]
            self.has(id, k) ==> (self.has(self.cur(), k) && self.handle_at(self.cur(), k) == self.handle_at(id, k)) || !self.meshes().dom().contains(
                self.handle_at(id, k),
            )
    }

    closed spec fn fades(&self) -> bool {
        &&& self.spec_careless() ==> self.fading().len() == 0
        &&& forall|j: int|
            0 <= j < self.fading().len() ==> self.meshes().dom().contains((#[trigger] self.fading()[j]).1) && self.fading()[j].0
                < self.cur()
        &&& forall|j: int, id: u64, k: BrickKey|
            0 <= j < self.fading().len() && #[trigger] self.has(id, k) && id > (#[trigger] self.fading()[j]).0 ==> self.handle_at(
                id,
                k,
            ) != self.fading()[j].1
        &&& forall|i: int, j: int| 0 <= i < j < self.fading().len() ==> (#[trigger] self.fading()[i]).1 != (
        #[trigger] self.fading()[j]).1
    }

    /// A handle belongs to one key.
    closed spec fn keyed(&self) -> bool {
        forall|a: u64, k: BrickKey, b: u64, l: BrickKey| #[trigger]
            self.has(a, k) && #[trigger] self.has(b, l) && self.handle_at(a, k) == self.handle_at(b, l) ==> k == l
    }

    /// Snapshots that share a shard agree on its chunk.
    pub open spec fn sharing(&self) -> bool {
        forall|a: u64, b: u64, k: BrickKey|
            self.snaps().dom().contains(a) && self.snaps().dom().contains(b) && #[trigger] self.snaps()[a].shared_chunks(
                &self.snaps()[b],
            ).contains(k.spec_chunk()) ==> (#[trigger] self.has(a, k) == self.has(b, k)) && (self.has(a, k) ==> self.snaps()[a]@[k]
                == self.snaps()[b]@[k])
    }

    closed spec fn sound(&self) -> bool {
        &&& self.shape()
        &&& self.resolves()
        &&& self.covered()
        &&& self.buried()
        &&& self.fades()
        &&& self.keyed()
        &&& self.sharing()
    }

    /// Some reader holds snapshot `id` or an earlier one.
    pub open spec fn watched(&self, id: u64) -> bool {
        exists|r: u64| #[trigger] self.holding().dom().contains(r) && self.holding()[r] <= id
    }

    /// Some reader holds snapshot `id`.
    pub open spec fn held(&self, id: u64) -> bool {
        exists|r: u64| #[trigger] self.holding().dom().contains(r) && self.holding()[r] == id
    }

    /// Nothing is kept that no reader can see.
    pub open spec fn tidy(&self) -> bool {
        &&& forall|j: int| 0 <= j < self.fading().len() ==> self.watched((#[trigger] self.fading()[j]).0)
        &&& forall|id: u64| #[trigger] self.snaps().dom().contains(id) ==> id == self.cur() || self.held(id)
    }

    pub closed spec fn wf(&self) -> bool {
        self.sound() && self.tidy()
    }

    /// Every entry of every live snapshot resolves, so no reader meets a freed result.
    pub proof fn law_live_entries_resolve(&self)
        requires
            self.wf(),
        ensures
            self.snaps().dom().contains(self.cur()),
            forall|id: u64| #[trigger]
                self.snaps().dom().contains(id) ==> id <= self.cur() && self.snaps()[id].wf() && self.snaps()[id].spec_id() == id
                    && self.snaps()[id].origin() == self.snaps()[self.cur()].origin(),
            forall|k: BrickKey| #[trigger]
                self.table().dom().contains(k) ==> self.meshes().dom().contains(self.table()[k].handle),
            !self.spec_careless() ==> forall|id: u64, k: BrickKey| #[trigger]
                self.has(id, k) ==> self.meshes().dom().contains(self.handle_at(id, k)),
            forall|r: u64| #[trigger] self.holding().dom().contains(r) ==> self.snaps().dom().contains(self.holding()[r]),
            self.tidy(),
            self.sharing(),
    {
        assert forall|k: BrickKey| #[trigger] self.table().dom().contains(k) implies self.meshes().dom().contains(self.table()[k].handle) by {
            assert(self.has(self.cur(), k));
        }
    }

    /// A reader's number is below the number of readers there have been.
    pub proof fn law_readers_are_numbered(&self)
        requires
            self.wf(),
        ensures
            forall|r: u64| #[trigger] self.holding().dom().contains(r) ==> r < self.readers_made(),
    {
    }

    /// A spent result does not resolve.
    pub proof fn law_spent_results_do_not_resolve(&self, h: Handle)
        requires
            self.wf(),
            self.spent(h),
        ensures
            !self.meshes().dom().contains(h),
    {
        self.pool.law_spent_handles_do_not_resolve(h);
    }

    /// A fading result is live, each fades once, and no snapshot after its last one holds it.
    pub proof fn law_fading_results_are_live(&self)
        requires
            self.wf(),
        ensures
            forall|j: int|
                0 <= j < self.fading().len() ==> self.meshes().dom().contains((#[trigger] self.fading()[j]).1) && self.fading()[j].0
                    < self.cur(),
            forall|i: int, j: int|
                0 <= i < j < self.fading().len() ==> (#[trigger] self.fading()[i]).1 != (#[trigger] self.fading()[j]).1,
            forall|j: int, id: u64, k: BrickKey|
                0 <= j < self.fading().len() && #[trigger] self.has(id, k) && id > (#[trigger] self.fading()[j]).0 ==> self.handle_at(
                    id,
                    k,
                ) != self.fading()[j].1,
    {
    }

    pub proof fn lemma_replaced_listed(&self, changes: Seq<Change>)
        ensures
            forall|i: int|
                0 <= i < changes.len() && self.table().dom().contains((#[trigger] changes[i]).key) ==> replaced(
                    self.table(),
                    changes,
                    self.cur(),
                    changes.len(),
                ).contains((self.cur(), self.table()[changes[i].key].handle)),
    {
        lemma_replaced(self.table(), changes, self.cur(), changes.len());
    }

    /// A result belongs to one key: entries of different keys never share a handle, in one snapshot or
    /// in two.
    pub proof fn law_distinct_keys_have_distinct_handles(&self)
        requires
            self.wf(),
        ensures
            forall|k: BrickKey, l: BrickKey|
                #[trigger] self.table().dom().contains(k) && #[trigger] self.table().dom().contains(l) && k != l
                    ==> self.table()[k].handle != self.table()[l].handle,
            forall|a: u64, k: BrickKey, b: u64, l: BrickKey| #[trigger]
                self.has(a, k) && #[trigger] self.has(b, l) && k != l ==> self.handle_at(a, k) != self.handle_at(b, l),
    {
        assert forall|k: BrickKey, l: BrickKey|
            #[trigger] self.table().dom().contains(k) && #[trigger] self.table().dom().contains(l) && k != l implies self.table()[k].handle
            != self.table()[l].handle by {
            assert(self.has(self.cur(), k) && self.has(self.cur(), l));
        }
    }

    /// A replaced result lasts as long as the readers that can see it: after some left, it resolves
    /// exactly where one that is left holds a snapshot at or before the last one that contains it.
    pub proof fn law_replaced_results_last_as_long_as_their_readers(&self, before: &Store)
        requires
            before.wf(),
            self.swept(before.meshes().dom(), before.fading()),
        ensures
            forall|j: int|
                0 <= j < before.fading().len() ==> self.meshes().dom().contains((#[trigger] before.fading()[j]).1) == self.watched(
                    before.fading()[j].0,
                ),
            forall|h: Handle| #[trigger]
                before.meshes().dom().contains(h) && !listed(before.fading(), before.fading().len() as int, h) ==> self.meshes().dom().contains(h),
    {
        let s = before.fading();
        assert forall|j: int| 0 <= j < s.len() implies self.meshes().dom().contains((#[trigger] before.fading()[j]).1) == self.watched(
            before.fading()[j].0,
        ) by {
            assert(before.meshes().dom().contains(s[j].1));
            if self.out_of_sight(s, s[j].1) {
                let q = choose|q: int| 0 <= q < s.len() && (#[trigger] s[q]).1 == s[j].1 && !self.watched(s[q].0);
                if q < j {
                    assert(before.fading()[q].1 != before.fading()[j].1);
                } else if j < q {
                    assert(before.fading()[j].1 != before.fading()[q].1);
                }
            } else {
                assert(s[j].1 == s[j].1);
            }
        }
        assert forall|h: Handle| #[trigger] before.meshes().dom().contains(h) && !listed(s, s.len() as int, h) implies self.meshes().dom().contains(h) by {
            if self.out_of_sight(s, h) {
                let q = choose|q: int| 0 <= q < s.len() && (#[trigger] s[q]).1 == h && !self.watched(s[q].0);
                assert(s[q].1 == h);
            }
        }
    }

    /// A published replacement retires the old result: it resolves exactly while a reader holds a
    /// snapshot at or before the one that was replaced.
    pub proof fn law_replacing_retires(&self, before: &Store, changes: Seq<Change>)
        requires
            before.wf(),
            !before.spec_careless(),
            before.publishable(changes),
            before.retires(changes, self),
        ensures
            forall|i: int|
                0 <= i < changes.len() && before.table().dom().contains((#[trigger] changes[i]).key) ==> self.meshes().dom().contains(
                    before.table()[changes[i].key].handle,
                ) == self.watched(before.cur()),
    {
        let m = before.table();
        let n = changes.len();
        let gone = replaced(m, changes, before.cur(), n);
        let s = before.fading() + gone;
        lemma_replaced(m, changes, before.cur(), n);
        assert forall|i: int| 0 <= i < n && m.dom().contains((#[trigger] changes[i]).key) implies self.meshes().dom().contains(
            m[changes[i].key].handle,
        ) == self.watched(before.cur()) by {
            let h = m[changes[i].key].handle;
            assert(before.has(before.cur(), changes[i].key));
            assert(before.meshes().dom().contains(h));
            assert(gone.contains((before.cur(), h)));
            let j = choose|j: int| 0 <= j < gone.len() && gone[j] == (before.cur(), h);
            assert(s[before.fading().len() + j] == gone[j]);
            assert(s[before.fading().len() + j].1 == h);
            if self.out_of_sight(s, h) {
                let q = choose|q: int| 0 <= q < s.len() && (#[trigger] s[q]).1 == h && !self.watched(s[q].0);
                if q < before.fading().len() {
                    assert(before.fading()[q].1 == h && before.fading()[q].0 < before.cur());
                } else {
                    assert(s[q] == gone[q - before.fading().len()]);
                }
            }
        }
    }

    /// Without readers, nothing fades and only the current snapshot lives.
    pub proof fn law_without_readers_only_the_current_snapshot_lives(&self)
        requires
            self.wf(),
            self.holding() == Map::<u64, u64>::empty(),
        ensures
            self.fading().len() == 0,
            self.snaps().dom() == set![self.cur()],
    {
        if self.fading().len() > 0 {
            assert(self.watched(self.fading()[0].0));
        }
        assert(self.snaps().dom() =~= set![self.cur()]);
    }

    /// Without readers, and with no result in the caller's hands, the live results are exactly the
    /// current snapshot's.
    pub proof fn law_no_leaks(&self)
        requires
            self.wf(),
            self.holding() == Map::<u64, u64>::empty(),
            forall|h: Handle| !self.loose(h),
        ensures
            self.fading().len() == 0,
            self.meshes().dom().len() == self.table().dom().len(),
            forall|h: Handle| #[trigger]
                self.meshes().dom().contains(h) <==> exists|k: BrickKey| #[trigger]
                    self.table().dom().contains(k) && self.table()[k].handle == h,
    {
        if self.fading().len() > 0 {
            assert(self.watched(self.fading()[0].0));
        }
        let m = self.table();
        assert forall|h: Handle| #[trigger] self.meshes().dom().contains(h) <==> exists|k: BrickKey| #[trigger]
            m.dom().contains(k) && m[k].handle == h by {
            if self.meshes().dom().contains(h) {
                assert(!self.loose(h));
                let (id, k) = choose|id: u64, k: BrickKey| #[trigger] self.has(id, k) && self.handle_at(id, k) == h;
                assert(id == self.cur());
                assert(m.dom().contains(k));
            }
            if exists|k: BrickKey| #[trigger] m.dom().contains(k) && m[k].handle == h {
                let k = choose|k: BrickKey| #[trigger] m.dom().contains(k) && m[k].handle == h;
                assert(self.has(self.cur(), k));
            }
        }
        self.snaps()[self.cur()].law_shards_hold_the_entries();
        self.pool.lemma_counts();
        assert forall|k: BrickKey, l: BrickKey|
            #[trigger] m.dom().contains(k) && #[trigger] m.dom().contains(l) && m[k].handle == m[l].handle implies k == l by {
            assert(self.has(self.cur(), k) && self.has(self.cur(), l));
        }
        lemma_handles_match(m, m.dom(), self.meshes().dom());
    }

    pub fn new(careless: bool) -> (r: Store)
        ensures
            r.wf(),
            r.meshes() == Map::<Handle, BrickMesh>::empty(),
            r.issued() == 0,
            r.cur() == 0,
            r.table() == Map::<BrickKey, Entry>::empty(),
            r.snaps().dom() == set![0u64],
            r.snaps()[0].spec_version().number == 0,
            r.holding() == Map::<u64, u64>::empty(),
            r.fading() == Seq::<(u64, Handle)>::empty(),
            r.readers_made() == 0,
            r.spec_careless() == careless,
            r.pool_room(),
    {
        let mut snapshots: SortedMap<u64, Snapshot> = SortedMap::new();
        snapshots.insert(0, Snapshot::first());
        let r = Store {
            pool: SlotPool::new(),
            snapshots,
            current: 0,
            readers: SortedMap::new(),
            retiring: Vec::new(),
            next_reader: 0,
            careless,
        };
        assert(r.snaps().dom() =~= set![0u64]);
        assert(r.fading() =~= Seq::<(u64, Handle)>::empty());
        assert forall|id: u64, k: BrickKey| !#[trigger] r.has(id, k) by {}
        r
    }

    /// Another result can be stored.
    pub closed spec fn pool_room(&self) -> bool {
        self.pool.width() <= u32::MAX && self.pool.spec_stats().allocations < u64::MAX
    }

    pub fn has_room(&self) -> (r: bool)
        requires
            self.wf(),
        ensures
            r == self.pool_room(),
    {
        proof {
            self.pool.lemma_counts();
        }
        let stats = self.pool.stats();
        stats.slots as u64 <= 0xFFFF_FFFF && stats.allocations < u64::MAX
    }

    pub fn current(&self) -> (r: &Snapshot)
        requires
            self.wf(),
        ensures
            *r == self.snaps()[self.cur()],
            r.wf(),
            r.spec_id() == self.cur(),
    {
        match self.snapshots.find(&self.current) {
            Some(i) => self.snapshots.val_at(i),
            None => self.snapshots.val_at(0),
        }
    }

    /// Stores a result. The caller owns it until it is published or discarded.
    pub fn allocate(&mut self, mesh: BrickMesh) -> (h: Handle)
        requires
            old(self).wf(),
            old(self).pool_room(),
        ensures
            final(self).wf(),
            final(self).same_but_meshes(old(self)),
            !old(self).meshes().dom().contains(h),
            final(self).meshes() == old(self).meshes().insert(h, mesh),
            final(self).issued() == old(self).issued() + 1,
            final(self).remembers(old(self)),
            final(self).follows(old(self)),
            forall|x: Handle| #[trigger] final(self).loose(x) <==> old(self).loose(x) || x == h,
            forall|id: u64, k: BrickKey| old(self).has(id, k) ==> #[trigger] final(self).seen(id, k) == old(self).seen(id, k),
    {
        let ghost before = *self;
        let h = self.pool.allocate(mesh);
        proof {
            self.lemma_quiet_follows(&before);
            assert forall|id: u64, k: BrickKey| #[trigger] before.has(id, k) implies before.handle_at(id, k) != h by {}
            self.lemma_same_structure(&before);
            assert forall|x: Handle| #[trigger] self.loose(x) <==> before.loose(x) || x == h by {
                if before.loose(x) {
                    assert forall|id: u64, k: BrickKey| #[trigger] self.has(id, k) implies self.handle_at(id, k) != x by {
                        assert(before.has(id, k));
                    }
                }
                if self.loose(x) && x != h {
                    assert forall|id: u64, k: BrickKey| #[trigger] before.has(id, k) implies before.handle_at(id, k) != x by {
                        assert(self.has(id, k));
                    }
                }
                if x == h {
                    assert forall|id: u64, k: BrickKey| #[trigger] self.has(id, k) implies self.handle_at(id, k) != x by {
                        assert(before.has(id, k));
                    }
                }
            }
        }
        h
    }

    /// Everything but the set of live results is as in `before`.
    pub open spec fn same_but_meshes(&self, before: &Store) -> bool {
        &&& self.snaps() == before.snaps()
        &&& self.cur() == before.cur()
        &&& self.holding() == before.holding()
        &&& self.fading() == before.fading()
        &&& self.readers_made() == before.readers_made()
        &&& self.spec_careless() == before.spec_careless()
    }

    proof fn lemma_same_structure(&self, before: &Store)
        requires
            before.wf(),
            self.same_but_meshes(before),
            self.snapshots == before.snapshots,
            self.readers == before.readers,
            self.pool.wf(),
            forall|id: u64, k: BrickKey| #[trigger]
                before.has(id, k) && before.meshes().dom().contains(before.handle_at(id, k)) ==> self.meshes().dom().contains(
                    before.handle_at(id, k),
                ),
            forall|id: u64, k: BrickKey| #[trigger]
                before.has(id, k) && self.meshes().dom().contains(before.handle_at(id, k)) ==> before.meshes().dom().contains(
                    before.handle_at(id, k),
                ),
            forall|h: Handle| #[trigger] before.pool.spent(h) ==> self.pool.spent(h),
            forall|j: int| 0 <= j < before.fading().len() ==> self.meshes().dom().contains((#[trigger] before.fading()[j]).1),
        ensures
            self.wf(),
    {
        if self.spec_careless() {
            assert forall|id: u64, k: BrickKey| #[trigger] self.has(id, k) implies (self.has(self.cur(), k) && self.handle_at(
                self.cur(),
                k,
            ) == self.handle_at(id, k)) || !self.meshes().dom().contains(self.handle_at(id, k)) by {
                assert(before.has(id, k));
                if before.has(before.cur(), k) {
                    assert(self.has(self.cur(), k));
                }
            }
        }
        assert forall|id: u64, k: BrickKey| #[trigger] self.has(id, k) implies {
            &&& (self.spec_careless() && id != self.cur()) || self.meshes().dom().contains(self.handle_at(id, k))
            &&& self.meshes().dom().contains(self.handle_at(id, k)) || self.pool.spent(self.handle_at(id, k))
        } by {
            assert(before.has(id, k));
        }
        assert forall|id: u64, k: BrickKey| #[trigger] self.has(id, k) == before.has(id, k) by {}
        if !self.spec_careless() {
            assert forall|id: u64, k: BrickKey| #[trigger] self.has(id, k) implies (self.has(self.cur(), k) && self.handle_at(
                self.cur(),
                k,
            ) == self.handle_at(id, k)) || exists|j: int|
                0 <= j < self.fading().len() && (#[trigger] self.fading()[j]).1 == self.handle_at(id, k) && self.fading()[j].0 >= id by {
                assert(before.has(id, k));
                if before.has(before.cur(), k) {
                    assert(self.has(self.cur(), k));
                }
            }
        }
        assert forall|j: int, id: u64, k: BrickKey|
            0 <= j < self.fading().len() && #[trigger] self.has(id, k) && id > (#[trigger] self.fading()[j]).0 implies self.handle_at(
            id,
            k,
        ) != self.fading()[j].1 by {
            assert(before.has(id, k));
            assert(before.fading()[j].0 < id);
        }
        assert forall|a: u64, k: BrickKey, b: u64, l: BrickKey| #[trigger]
            self.has(a, k) && #[trigger] self.has(b, l) && self.handle_at(a, k) == self.handle_at(b, l) implies k == l by {
            assert(before.has(a, k) && before.has(b, l));
        }
        assert forall|a: u64, b: u64, k: BrickKey|
            self.snaps().dom().contains(a) && self.snaps().dom().contains(b) && #[trigger] self.snaps()[a].shared_chunks(
                &self.snaps()[b],
            ).contains(k.spec_chunk()) implies (#[trigger] self.has(a, k) == self.has(b, k)) && (self.has(a, k) ==> self.snaps()[a]@[k]
            == self.snaps()[b]@[k]) by {
            assert(before.snaps()[a].shared_chunks(&before.snaps()[b]).contains(k.spec_chunk()));
            assert(before.has(a, k) == before.has(b, k));
        }
        assert(self.tidy()) by {
            assert forall|j: int| 0 <= j < self.fading().len() implies self.watched((#[trigger] self.fading()[j]).0) by {
                assert(before.watched(before.fading()[j].0));
            }
            assert forall|id: u64| #[trigger] self.snaps().dom().contains(id) implies id == self.cur() || self.held(id) by {
                assert(before.snaps().dom().contains(id));
            }
        }
    }

    /// Frees a result that was never published.
    pub fn discard(&mut self, h: Handle)
        requires
            old(self).wf(),
            old(self).loose(h),
        ensures
            final(self).wf(),
            final(self).same_but_meshes(old(self)),
            final(self).meshes() == old(self).meshes().remove(h),
            final(self).issued() == old(self).issued(),
            final(self).remembers(old(self)),
            final(self).follows(old(self)),
            old(self).pool_room() ==> final(self).pool_room(),
            forall|x: Handle| #[trigger] final(self).loose(x) <==> old(self).loose(x) && x != h,
            forall|id: u64, k: BrickKey| old(self).has(id, k) ==> #[trigger] final(self).seen(id, k) == old(self).seen(id, k),
    {
        let ghost before = *self;
        let _ = self.pool.free(h);
        proof {
            self.lemma_quiet_follows(&before);
            self.lemma_same_structure(&before);
            assert forall|x: Handle| #[trigger] self.loose(x) <==> before.loose(x) && x != h by {
                if before.loose(x) && x != h {
                    assert forall|id: u64, k: BrickKey| #[trigger] self.has(id, k) implies self.handle_at(id, k) != x by {
                        assert(before.has(id, k));
                    }
                }
                if self.loose(x) {
                    assert forall|id: u64, k: BrickKey| #[trigger] before.has(id, k) implies before.handle_at(id, k) != x by {
                        assert(self.has(id, k));
                    }
                }
            }
        }
    }

    pub fn pool_stats(&self) -> (r: PoolStats)
        requires
            self.wf(),
        ensures
            r == self.spec_pool().spec_stats(),
            r.live == self.meshes().dom().len(),
            r.allocations == self.issued(),
            r.frees == self.issued() - r.live,
            self.meshes().dom().finite(),
    {
        proof {
            self.pool.lemma_counts();
        }
        self.pool.stats()
    }

    /// Resolves a handle directly.
    pub fn resolve(&self, h: Handle) -> (r: Option<&BrickMesh>)
        ensures
            match r {
                Some(m) => self.meshes().dom().contains(h) && *m == self.meshes()[h],
                None => !self.meshes().dom().contains(h),
            },
    {
        self.pool.get(h)
    }

    pub fn live_snapshots(&self) -> (r: usize)
        requires
            self.wf(),
        ensures
            r == self.snaps().dom().len(),
    {
        self.snapshots.len()
    }

    /// How many readers there have been.
    pub fn acquired(&self) -> (r: u64)
        ensures
            r == self.readers_made(),
    {
        self.next_reader
    }

    pub fn retiring_len(&self) -> (r: usize)
        ensures
            r == self.fading().len(),
    {
        self.retiring.len()
    }
}

impl Store {
    /// The oldest snapshot that a reader holds, or the current one.
    spec fn is_oldest(&self, o: u64) -> bool {
        &&& o <= self.cur()
        &&& forall|r: u64| #[trigger] self.holding().dom().contains(r) ==> o <= self.holding()[r]
        &&& o == self.cur() || self.held(o)
    }

    fn oldest_live(&self) -> (o: u64)
        requires
            self.shape(),
        ensures
            self.is_oldest(o),
    {
        let mut o: u64 = self.current;
        let n: usize = self.readers.len();
        proof {
            self.readers.lemma_order();
        }
        let mut i: usize = 0;
        while i < n
            invariant
                i <= n,
                n == self.readers.keys().len(),
                n == self.readers.vals().len(),
                forall|j: int|
                    0 <= j < n ==> self.readers@.dom().contains(#[trigger] self.readers.keys()[j])
                        && self.readers@[self.readers.keys()[j]] == self.readers.vals()[j],
                o <= self.current,
                o == self.cur() || self.held(o),
                forall|r: u64| #[trigger] among(self.readers.keys(), i as int, r) ==> o <= self.holding()[r],
            decreases n - i,
        {
            let s: u64 = *self.readers.val_at(i);
            proof {
                lemma_among(self.readers.keys(), i as int);
                let r = self.readers.keys()[i as int];
                assert(self.holding().dom().contains(r) && self.holding()[r] == s);
            }
            if s < o {
                o = s;
            }
            i += 1;
        }
        proof {
            assert forall|r: u64| #[trigger] self.holding().dom().contains(r) implies o <= self.holding()[r] by {
                assert(among(self.readers.keys(), n as int, r));
            }
        }
        o
    }

    /// Whether a reader holds snapshot `id`.
    fn is_held(&self, id: u64) -> (r: bool)
        requires
            self.readers.wf(),
        ensures
            r == self.held(id),
    {
        let n: usize = self.readers.len();
        proof {
            self.readers.lemma_order();
        }
        let mut i: usize = 0;
        while i < n
            invariant
                i <= n,
                n == self.readers.keys().len(),
                n == self.readers.vals().len(),
                forall|j: int|
                    0 <= j < n ==> self.readers@.dom().contains(#[trigger] self.readers.keys()[j])
                        && self.readers@[self.readers.keys()[j]] == self.readers.vals()[j],
                forall|r: u64| #[trigger] among(self.readers.keys(), i as int, r) ==> self.holding()[r] != id,
            decreases n - i,
        {
            proof {
                lemma_among(self.readers.keys(), i as int);
            }
            if *self.readers.val_at(i) == id {
                assert(self.holding().dom().contains(self.readers.keys()[i as int]));
                return true;
            }
            i += 1;
        }
        proof {
            assert forall|r: u64| #[trigger] self.holding().dom().contains(r) implies self.holding()[r] != id by {
                assert(among(self.readers.keys(), n as int, r));
            }
        }
        false
    }

    /// Frees the retiring results older than every live snapshot.
    fn free_retired(&mut self, o: u64) -> (freed: u64)
        requires
            old(self).sound(),
            old(self).is_oldest(o),
            forall|id: u64| #[trigger] old(self).snaps().dom().contains(id) ==> o <= id,
        ensures
            final(self).sound(),
            final(self).snapshots == old(self).snapshots,
            final(self).readers == old(self).readers,
            final(self).cur() == old(self).cur(),
            final(self).readers_made() == old(self).readers_made(),
            final(self).spec_careless() == old(self).spec_careless(),
            final(self).fading() == kept(old(self).fading(), o, old(self).fading().len()),
            freed == old(self).fading().len() - final(self).fading().len(),
            final(self).issued() == old(self).issued(),
            final(self).remembers(old(self)),
            old(self).pool_room() ==> final(self).pool_room(),
            forall|h: Handle| #[trigger]
                final(self).meshes().dom().contains(h) <==> old(self).meshes().dom().contains(h) && !dropped(
                    old(self).fading(),
                    o,
                    old(self).fading().len() as int,
                    h,
                ),
            forall|h: Handle| #[trigger]
                final(self).meshes().dom().contains(h) ==> final(self).meshes()[h] == old(self).meshes()[h],
    {
        let ghost before = *self;
        let n: usize = self.retiring.len();
        let mut keep: Vec<(u64, Handle)> = Vec::new();
        let mut freed: u64 = 0;
        let mut i: usize = 0;
        let ghost s = before.retiring@;
        while i < n
            invariant
                i <= n,
                n == s.len(),
                s == before.retiring@,
                before.sound(),
                forall|id: u64| #[trigger] before.snaps().dom().contains(id) ==> o <= id,
                self.pool.wf(),
                self.snapshots == before.snapshots,
                self.readers == before.readers,
                self.retiring == before.retiring,
                self.current == before.current,
                self.next_reader == before.next_reader,
                self.careless == before.careless,
                keep@ == kept(s, o, i as nat),
                freed == i - keep@.len(),
                keep@.len() <= i,
                self.issued() == before.issued(),
                before.pool_room() ==> self.pool_room(),
                forall|h: Handle| #[trigger]
                    self.meshes().dom().contains(h) <==> before.meshes().dom().contains(h) && !dropped(s, o, i as int, h),
                forall|h: Handle| #[trigger] self.meshes().dom().contains(h) ==> self.meshes()[h] == before.meshes()[h],
                forall|h: Handle| #[trigger] self.pool.spent(h) <==> before.pool.spent(h) || dropped(s, o, i as int, h),
            decreases n - i,
        {
            let (last, h) = self.retiring[i];
            let ghost mid = *self;
            proof {
                assert(before.meshes().dom().contains(before.fading()[i as int].1));
                assert(!dropped(s, o, i as int, h)) by {
                    if dropped(s, o, i as int, h) {
                        let j = choose|j: int| 0 <= j < i && (#[trigger] s[j]).1 == h && s[j].0 < o;
                        assert(before.fading()[j].1 != before.fading()[i as int].1);
                    }
                }
                assert forall|x: Handle| #[trigger] dropped(s, o, i + 1, x) <==> dropped(s, o, i as int, x) || (x == h && last < o) by {
                    if dropped(s, o, i + 1, x) {
                        let j = choose|j: int| 0 <= j < i + 1 && (#[trigger] s[j]).1 == x && s[j].0 < o;
                        if j < i {
                            assert(s[j].1 == x);
                        }
                    }
                    if dropped(s, o, i as int, x) {
                        let j = choose|j: int| 0 <= j < i && (#[trigger] s[j]).1 == x && s[j].0 < o;
                        assert(s[j].1 == x);
                    }
                    if x == h && last < o {
                        assert(s[i as int].1 == x);
                    }
                }
            }
            assert(self.meshes().dom().contains(h));
            if last < o {
                let _ = self.pool.free(h);
                freed = freed + 1;
            } else {
                keep.push((last, h));
            }
            i += 1;
        }
        let ghost left = self.meshes();
        self.retiring = keep;
        proof {
            assert(self.meshes() == left);
            lemma_kept(s, o, n as nat);
            let t = self.fading();
            assert(before.fading() == s);
            assert(self.snaps() == before.snaps());
            assert(self.shape()) by {
                assert forall|r: u64| #[trigger] self.holding().dom().contains(r) implies self.snaps().dom().contains(self.holding()[r])
                    && r < self.readers_made() by {
                    assert(before.holding().dom().contains(r));
                }
                assert forall|i: u64| #[trigger] self.snaps().dom().contains(i) implies self.snaps()[i].wf()
                    && self.snaps()[i].spec_id() == i && i <= self.cur() by {
                    assert(before.snaps().dom().contains(i));
                }
            }
            assert forall|id: u64, k: BrickKey| #[trigger] self.has(id, k) implies self.meshes().dom().contains(self.handle_at(id, k))
                == before.meshes().dom().contains(self.handle_at(id, k)) by {
                assert(before.has(id, k));
                assert(before.snaps().dom().contains(id));
                assert(o <= id);
                if dropped(s, o, n as int, before.handle_at(id, k)) {
                    let j = choose|j: int| 0 <= j < n && (#[trigger] s[j]).1 == before.handle_at(id, k) && s[j].0 < o;
                    assert(before.fading()[j].0 < id);
                }
            }
            assert forall|j: int| 0 <= j < t.len() implies self.meshes().dom().contains((#[trigger] t[j]).1) by {
                let q = choose|q: int| 0 <= q < n && #[trigger] s[q] == kept(s, o, n as nat)[j];
                assert(before.meshes().dom().contains(before.fading()[q].1));
                if dropped(s, o, n as int, t[j].1) {
                    let p = choose|p: int| 0 <= p < n && (#[trigger] s[p]).1 == t[j].1 && s[p].0 < o;
                    if p < q {
                        assert(before.fading()[p].1 != before.fading()[q].1);
                    } else if q < p {
                        assert(before.fading()[q].1 != before.fading()[p].1);
                    }
                }
            }
            assert forall|i: int, j: int| 0 <= i < j < s.len() implies (#[trigger] s[i]).1 != (#[trigger] s[j]).1 by {
                assert(before.fading()[i].1 != before.fading()[j].1);
            }
            self.lemma_thinned(&before, o);
        }
        freed
    }

    proof fn lemma_sharing_kept(&self, before: &Store)
        requires
            before.sharing(),
            forall|id: u64| #[trigger]
                self.snaps().dom().contains(id) ==> before.snaps().dom().contains(id) && self.snaps()[id] == before.snaps()[id],
        ensures
            self.sharing(),
    {
        assert forall|a: u64, b: u64, k: BrickKey|
            self.snaps().dom().contains(a) && self.snaps().dom().contains(b) && #[trigger] self.snaps()[a].shared_chunks(
                &self.snaps()[b],
            ).contains(k.spec_chunk()) implies (#[trigger] self.has(a, k) == self.has(b, k)) && (self.has(a, k) ==> self.snaps()[a]@[k]
            == self.snaps()[b]@[k]) by {
            assert(before.snaps().dom().contains(a) && before.snaps().dom().contains(b));
            assert(before.snaps()[a].shared_chunks(&before.snaps()[b]).contains(k.spec_chunk()));
            assert(before.has(a, k) == before.has(b, k));
        }
    }

    /// Fewer snapshots, and fewer retiring results, that still cover them.
    proof fn lemma_thinned(&self, before: &Store, o: u64)
        requires
            before.sound(),
            self.shape(),
            self.cur() == before.cur(),
            self.spec_careless() == before.spec_careless(),
            forall|id: u64| #[trigger]
                self.snaps().dom().contains(id) ==> before.snaps().dom().contains(id) && self.snaps()[id] == before.snaps()[id] && o
                    <= id,
            forall|id: u64, k: BrickKey| #[trigger]
                self.has(id, k) ==> self.meshes().dom().contains(self.handle_at(id, k)) == before.meshes().dom().contains(
                    self.handle_at(id, k),
                ),
            forall|h: Handle| #[trigger] before.pool.spent(h) ==> self.pool.spent(h),
            self.fading().len() <= before.fading().len(),
            forall|j: int| 0 <= j < self.fading().len() ==> before.fading().contains(#[trigger] self.fading()[j]),
            forall|j: int| 0 <= j < self.fading().len() ==> self.meshes().dom().contains((#[trigger] self.fading()[j]).1),
            forall|j: int|
                0 <= j < before.fading().len() && (#[trigger] before.fading()[j]).0 >= o ==> self.fading().contains(
                    before.fading()[j],
                ),
            forall|i: int, j: int|
                0 <= i < j < self.fading().len() ==> (#[trigger] self.fading()[i]).1 != (#[trigger] self.fading()[j]).1,
        ensures
            self.sound(),
    {
        let s = before.fading();
        let t = self.fading();
        assert forall|id: u64, k: BrickKey| #[trigger] self.has(id, k) implies before.has(id, k) && before.handle_at(id, k)
            == self.handle_at(id, k) by {}
        assert(self.snaps().dom().contains(self.cur()));
        assert forall|k: BrickKey| #[trigger] before.has(before.cur(), k) implies self.has(self.cur(), k) && before.handle_at(
            before.cur(),
            k,
        ) == self.handle_at(self.cur(), k) by {}
        assert(self.resolves()) by {
            assert forall|id: u64, k: BrickKey| #[trigger] self.has(id, k) implies {
                &&& (self.spec_careless() && id != self.cur()) || self.meshes().dom().contains(self.handle_at(id, k))
                &&& self.meshes().dom().contains(self.handle_at(id, k)) || self.pool.spent(self.handle_at(id, k))
            } by {
                assert(before.has(id, k));
            }
        }
        assert(self.covered()) by {
            if !self.spec_careless() {
                assert forall|id: u64, k: BrickKey| #[trigger] self.has(id, k) implies (self.has(self.cur(), k) && self.handle_at(
                    self.cur(),
                    k,
                ) == self.handle_at(id, k)) || exists|j: int|
                    0 <= j < self.fading().len() && (#[trigger] self.fading()[j]).1 == self.handle_at(id, k) && self.fading()[j].0 >= id by {
                    assert(before.has(id, k));
                    if !(before.has(before.cur(), k) && before.handle_at(before.cur(), k) == before.handle_at(id, k)) {
                        let j = choose|j: int|
                            0 <= j < before.fading().len() && (#[trigger] before.fading()[j]).1 == before.handle_at(id, k)
                                && before.fading()[j].0 >= id;
                        assert(t.contains(s[j]));
                        let q = choose|q: int| 0 <= q < t.len() && t[q] == s[j];
                        assert(self.fading()[q].1 == self.handle_at(id, k));
                    }
                }
            }
        }
        assert(self.buried()) by {
            if self.spec_careless() {
                assert forall|id: u64, k: BrickKey| #[trigger] self.has(id, k) implies (self.has(self.cur(), k) && self.handle_at(
                    self.cur(),
                    k,
                ) == self.handle_at(id, k)) || !self.meshes().dom().contains(self.handle_at(id, k)) by {
                    assert(before.has(id, k));
                    if before.has(before.cur(), k) {
                        assert(self.has(self.cur(), k));
                    }
                }
            }
        }
        assert(self.fades()) by {
            assert forall|j: int| 0 <= j < t.len() implies (#[trigger] self.fading()[j]).0 < self.cur() by {
                assert(s.contains(t[j]));
                let q = choose|q: int| 0 <= q < s.len() && s[q] == t[j];
                assert(before.fading()[q].0 < before.cur());
            }
            assert forall|j: int, id: u64, k: BrickKey|
                0 <= j < self.fading().len() && #[trigger] self.has(id, k) && id > (#[trigger] self.fading()[j]).0 implies self.handle_at(
                id,
                k,
            ) != self.fading()[j].1 by {
                assert(s.contains(t[j]));
                let q = choose|q: int| 0 <= q < s.len() && s[q] == t[j];
                assert(before.has(id, k));
                assert(before.fading()[q].0 < id);
            }
        }
        assert(self.keyed()) by {
            assert forall|a: u64, k: BrickKey, b: u64, l: BrickKey| #[trigger]
                self.has(a, k) && #[trigger] self.has(b, l) && self.handle_at(a, k) == self.handle_at(b, l) implies k == l by {
                assert(before.has(a, k) && before.has(b, l));
            }
        }
        self.lemma_sharing_kept(before);
    }

    /// Fewer snapshots, with the same results.
    proof fn lemma_kept_whole(&self, before: &Store)
        requires
            before.sound(),
            self.shape(),
            self.cur() == before.cur(),
            self.spec_careless() == before.spec_careless(),
            forall|id: u64| #[trigger]
                self.snaps().dom().contains(id) ==> before.snaps().dom().contains(id) && self.snaps()[id] == before.snaps()[id],
            self.pool == before.pool,
            self.fading() == before.fading(),
        ensures
            self.sound(),
    {
        let s = before.fading();
        assert forall|j: int| 0 <= j < s.len() implies s.contains(#[trigger] s[j]) by {}
        assert forall|j: int| 0 <= j < self.fading().len() implies self.meshes().dom().contains((#[trigger] self.fading()[j]).1) by {
            assert(before.meshes().dom().contains(before.fading()[j].1));
        }
        assert forall|i: int, j: int| 0 <= i < j < self.fading().len() implies (#[trigger] self.fading()[i]).1 != (
        #[trigger] self.fading()[j]).1 by {
            assert(before.fading()[i].1 != before.fading()[j].1);
        }
        self.lemma_thinned(before, 0);
    }

    /// Drops the snapshots that no reader holds, but the current one.
    fn drop_snapshots(&mut self)
        requires
            old(self).sound(),
        ensures
            final(self).sound(),
            final(self).pool == old(self).pool,
            final(self).readers == old(self).readers,
            final(self).cur() == old(self).cur(),
            final(self).fading() == old(self).fading(),
            final(self).readers_made() == old(self).readers_made(),
            final(self).spec_careless() == old(self).spec_careless(),
            forall|id: u64| #[trigger]
                final(self).snaps().dom().contains(id) <==> old(self).snaps().dom().contains(id) && (id == old(self).cur()
                    || old(self).held(id)),
            forall|id: u64| #[trigger] final(self).snaps().dom().contains(id) ==> final(self).snaps()[id] == old(self).snaps()[id],
    {
        let ghost before = *self;
        let mut ids: Vec<u64> = Vec::new();
        let n: usize = self.snapshots.len();
        let mut i: usize = 0;
        while i < n
            invariant
                i <= n,
                n == self.snapshots.keys().len(),
                ids@ =~= self.snapshots.keys().take(i as int),
            decreases n - i,
        {
            ids.push(self.snapshots.key_at(i));
            i += 1;
        }
        let ghost ks = before.snapshots.keys();
        proof {
            before.snapshots.lemma_order();
            assert(ids@ =~= ks);
        }
        let mut i: usize = 0;
        while i < n
            invariant
                i <= n,
                n == ks.len(),
                ids@ == ks,
                before.shape(),
                self.snapshots.wf(),
                self.pool == before.pool,
                self.readers == before.readers,
                self.retiring == before.retiring,
                self.current == before.current,
                self.next_reader == before.next_reader,
                self.careless == before.careless,
                forall|id: u64| #[trigger]
                    self.snaps().dom().contains(id) <==> before.snaps().dom().contains(id) && (!among(ks, i as int, id) || id
                        == before.cur() || before.held(id)),
                forall|id: u64| #[trigger] self.snaps().dom().contains(id) ==> self.snaps()[id] == before.snaps()[id],
            decreases n - i,
        {
            let id: u64 = ids[i];
            proof {
                lemma_among(ks, i as int);
            }
            assert(self.holding() == before.holding());
            let held = self.is_held(id);
            assert(self.held(id) == before.held(id));
            let ghost mid = self.snaps();
            if id != self.current && !held {
                self.snapshots.remove(&id);
            }
            proof {
                assert forall|x: u64| #[trigger] self.snaps().dom().contains(x) <==> before.snaps().dom().contains(x) && (!among(
                    ks,
                    i + 1,
                    x,
                ) || x == before.cur() || before.held(x)) by {
                    assert(mid.dom().contains(x) <==> before.snaps().dom().contains(x) && (!among(ks, i as int, x) || x
                        == before.cur() || before.held(x)));
                }
                assert forall|x: u64| #[trigger] self.snaps().dom().contains(x) implies self.snaps()[x] == before.snaps()[x] by {
                    assert(mid.dom().contains(x));
                }
            }
            i += 1;
        }
        proof {
            assert forall|id: u64| #[trigger] self.snaps().dom().contains(id) <==> before.snaps().dom().contains(id) && (id
                == before.cur() || before.held(id)) by {
                if before.snaps().dom().contains(id) {
                    assert(among(ks, n as int, id));
                }
            }
            assert(self.holding() == before.holding());
            assert(self.fading() == before.fading());
            assert(self.shape()) by {
                assert forall|r: u64| #[trigger] self.holding().dom().contains(r) implies self.snaps().dom().contains(self.holding()[r])
                    && r < self.readers_made() by {
                    assert(before.holding().dom().contains(r));
                    assert(before.held(before.holding()[r]));
                }
                assert(self.snaps().dom().contains(self.cur()));
                assert forall|id: u64| #[trigger] self.snaps().dom().contains(id) implies self.snaps()[id].wf()
                    && self.snaps()[id].spec_id() == id && id <= self.cur() && self.snaps()[id].origin()
                    == self.snaps()[self.cur()].origin() by {
                    assert(before.snaps().dom().contains(id));
                }
            }
            self.lemma_kept_whole(&before);
        }
    }

    /// Those of the first `n` entries that a reader can still see.
    pub open spec fn still_seen(&self, s: Seq<(u64, Handle)>, n: nat) -> Seq<(u64, Handle)>
        decreases n,
    {
        if n == 0 {
            Seq::empty()
        } else if self.watched(s[n - 1].0) {
            self.still_seen(s, (n - 1) as nat).push(s[n - 1])
        } else {
            self.still_seen(s, (n - 1) as nat)
        }
    }

    /// `h` is a result of `s` whose last reader has left.
    pub open spec fn out_of_sight(&self, s: Seq<(u64, Handle)>, h: Handle) -> bool {
        exists|j: int| 0 <= j < s.len() && (#[trigger] s[j]).1 == h && !self.watched(s[j].0)
    }

    /// Of the results `live`, those that faded as `s` says and that no reader can see any more are freed;
    /// the rest of `s` fades on.
    pub open spec fn swept(&self, live: Set<Handle>, s: Seq<(u64, Handle)>) -> bool {
        &&& self.fading() == self.still_seen(s, s.len())
        &&& forall|h: Handle| #[trigger] self.meshes().dom().contains(h) <==> live.contains(h) && !self.out_of_sight(s, h)
    }

    proof fn lemma_oldest_sees(&self, s: Seq<(u64, Handle)>, o: u64, n: nat)
        requires
            self.is_oldest(o),
            n <= s.len(),
            forall|j: int| 0 <= j < s.len() ==> (#[trigger] s[j]).0 < self.cur(),
        ensures
            self.still_seen(s, n) == kept(s, o, n),
            forall|j: int| 0 <= j < s.len() ==> self.watched((#[trigger] s[j]).0) == (o <= s[j].0),
        decreases n,
    {
        assert forall|j: int| 0 <= j < s.len() implies self.watched((#[trigger] s[j]).0) == (o <= s[j].0) by {
            if o <= s[j].0 {
                assert(self.held(o));
            }
        }
        if n > 0 {
            self.lemma_oldest_sees(s, o, (n - 1) as nat);
        }
    }

    /// In a store where nothing is kept that no reader can see, nothing is left to free.
    pub proof fn lemma_swept_already(&self)
        requires
            self.wf(),
        ensures
            self.swept(self.meshes().dom(), self.fading()),
    {
        let s = self.fading();
        self.lemma_all_seen(s, s.len());
        assert(s.take(s.len() as int) =~= s);
    }

    proof fn lemma_all_seen(&self, s: Seq<(u64, Handle)>, n: nat)
        requires
            n <= s.len(),
            forall|j: int| 0 <= j < n ==> self.watched((#[trigger] s[j]).0),
        ensures
            self.still_seen(s, n) == s.take(n as int),
        decreases n,
    {
        if n > 0 {
            self.lemma_all_seen(s, (n - 1) as nat);
            assert(s.take(n as int) =~= s.take(n - 1).push(s[n - 1]));
        } else {
            assert(s.take(0) =~= Seq::<(u64, Handle)>::empty());
        }
    }

    /// Freeing in two steps, with fewer readers at the second, frees as one step does.
    pub proof fn lemma_swept_on(&self, mid: &Store, live: Set<Handle>, s: Seq<(u64, Handle)>)
        requires
            mid.swept(live, s),
            self.swept(mid.meshes().dom(), mid.fading()),
            forall|r: u64| #[trigger] self.holding().dom().contains(r) ==> mid.holding().dom().contains(r) && mid.holding()[r] == self.holding()[r],
        ensures
            self.swept(live, s),
    {
        self.lemma_seen_on(mid, s, s.len());
        assert forall|x: u64| #[trigger] self.watched(x) implies mid.watched(x) by {
            let r = choose|r: u64| #[trigger] self.holding().dom().contains(r) && self.holding()[r] <= x;
            assert(mid.holding().dom().contains(r));
        }
        let t = mid.fading();
        assert forall|h: Handle| #[trigger] self.meshes().dom().contains(h) <==> live.contains(h) && !self.out_of_sight(s, h) by {
            assert(mid.meshes().dom().contains(h) <==> live.contains(h) && !mid.out_of_sight(s, h));
            if mid.out_of_sight(s, h) {
                let j = choose|j: int| 0 <= j < s.len() && (#[trigger] s[j]).1 == h && !mid.watched(s[j].0);
                assert(s[j].1 == h && !self.watched(s[j].0));
            }
            if self.out_of_sight(t, h) {
                let j = choose|j: int| 0 <= j < t.len() && (#[trigger] t[j]).1 == h && !self.watched(t[j].0);
                let q = choose|q: int| 0 <= q < s.len() && #[trigger] s[q] == mid.still_seen(s, s.len())[j];
                assert(s[q].1 == h && !self.watched(s[q].0));
            }
            if self.out_of_sight(s, h) && !mid.out_of_sight(s, h) {
                let j = choose|j: int| 0 <= j < s.len() && (#[trigger] s[j]).1 == h && !self.watched(s[j].0);
                assert(mid.watched(s[j].0));
                let q = choose|q: int| 0 <= q < t.len() && #[trigger] t[q] == s[j];
                assert(t[q].1 == h);
            }
        }
    }

    proof fn lemma_seen_on(&self, mid: &Store, s: Seq<(u64, Handle)>, n: nat)
        requires
            n <= s.len(),
            forall|r: u64| #[trigger] self.holding().dom().contains(r) ==> mid.holding().dom().contains(r) && mid.holding()[r] == self.holding()[r],
        ensures
            self.still_seen(mid.still_seen(s, n), mid.still_seen(s, n).len()) == self.still_seen(s, n),
            forall|j: int| 0 <= j < mid.still_seen(s, n).len() ==> exists|q: int| 0 <= q < n && #[trigger] s[q] == #[trigger] mid.still_seen(s, n)[j],
            forall|q: int|
                0 <= q < n && mid.watched((#[trigger] s[q]).0) ==> exists|j: int|
                    0 <= j < mid.still_seen(s, n).len() && #[trigger] mid.still_seen(s, n)[j] == s[q],
        decreases n,
    {
        if n > 0 {
            self.lemma_seen_on(mid, s, (n - 1) as nat);
            let a = mid.still_seen(s, (n - 1) as nat);
            let b = mid.still_seen(s, n);
            let x = s[n - 1].0;
            if self.watched(x) {
                let r = choose|r: u64| #[trigger] self.holding().dom().contains(r) && self.holding()[r] <= x;
                assert(mid.holding().dom().contains(r));
                assert(mid.watched(x));
            }
            if mid.watched(x) {
                assert(b == a.push(s[n - 1]));
                self.lemma_seen_prefix(a, b, a.len());
                assert forall|j: int| 0 <= j < b.len() implies exists|q: int| 0 <= q < n && #[trigger] s[q] == #[trigger] b[j] by {
                    if j < a.len() {
                        assert(b[j] == a[j]);
                        let q = choose|q: int| 0 <= q < n - 1 && #[trigger] s[q] == a[j];
                        assert(s[q] == b[j]);
                    } else {
                        assert(s[n - 1] == b[j]);
                    }
                }
                assert forall|q: int| 0 <= q < n && mid.watched((#[trigger] s[q]).0) implies exists|j: int|
                    0 <= j < b.len() && #[trigger] b[j] == s[q] by {
                    if q < n - 1 {
                        let j = choose|j: int| 0 <= j < a.len() && #[trigger] a[j] == s[q];
                        assert(b[j] == s[q]);
                    } else {
                        assert(b[a.len() as int] == s[q]);
                    }
                }
            }
        }
    }

    proof fn lemma_seen_prefix(&self, a: Seq<(u64, Handle)>, b: Seq<(u64, Handle)>, n: nat)
        requires
            n <= a.len() <= b.len(),
            forall|j: int| 0 <= j < a.len() ==> #[trigger] b[j] == a[j],
        ensures
            self.still_seen(a, n) == self.still_seen(b, n),
        decreases n,
    {
        if n > 0 {
            self.lemma_seen_prefix(a, b, (n - 1) as nat);
        }
    }

    /// Frees retired results that no live reader can see, and drops unreferenced old snapshots.
    fn collect(&mut self) -> (freed: u64)
        requires
            old(self).sound(),
        ensures
            final(self).wf(),
            final(self).cur() == old(self).cur(),
            final(self).holding() == old(self).holding(),
            final(self).readers_made() == old(self).readers_made(),
            final(self).spec_careless() == old(self).spec_careless(),
            final(self).issued() == old(self).issued(),
            final(self).remembers(old(self)),
            old(self).pool_room() ==> final(self).pool_room(),
            final(self).snaps().dom().contains(final(self).cur()),
            forall|id: u64| #[trigger]
                final(self).snaps().dom().contains(id) <==> old(self).snaps().dom().contains(id) && (id == old(self).cur()
                    || old(self).held(id)),
            forall|id: u64| #[trigger] final(self).snaps().dom().contains(id) ==> final(self).snaps()[id] == old(self).snaps()[id],
            final(self).swept(old(self).meshes().dom(), old(self).fading()),
            freed == old(self).fading().len() - final(self).fading().len(),
            forall|h: Handle| #[trigger]
                final(self).meshes().dom().contains(h) ==> old(self).meshes().dom().contains(h) && final(self).meshes()[h] == old(self).meshes()[h],
            forall|h: Handle| #[trigger] final(self).loose(h) <==> old(self).loose(h),
    {
        let ghost before = *self;
        let o: u64 = self.oldest_live();
        // Snapshots that no reader holds go first: then every live one is at least the oldest.
        self.drop_snapshots();
        let ghost mid = *self;
        proof {
            assert forall|id: u64| #[trigger] mid.snaps().dom().contains(id) implies o <= id by {
                if id != mid.cur() {
                    assert(before.held(id));
                }
            }
            assert(mid.is_oldest(o)) by {
                if o != before.cur() {
                    assert(before.held(o));
                    let r = choose|r: u64| #[trigger] before.holding().dom().contains(r) && before.holding()[r] == o;
                    assert(mid.holding().dom().contains(r));
                }
            }
        }
        let freed: u64 = self.free_retired(o);
        proof {
            assert(mid.remembers(&before));
            self.lemma_remembers(&mid, &before);
            let s = before.fading();
            lemma_kept(s, o, s.len());
            assert(self.tidy()) by {
                assert forall|j: int| 0 <= j < self.fading().len() implies self.watched((#[trigger] self.fading()[j]).0) by {
                    let e = self.fading()[j];
                    assert(kept(s, o, s.len())[j].0 >= o);
                    assert(e.0 < self.cur());
                    assert(before.held(o));
                    let r = choose|r: u64| #[trigger] before.holding().dom().contains(r) && before.holding()[r] == o;
                    assert(self.holding().dom().contains(r));
                }
                assert forall|id: u64| #[trigger] self.snaps().dom().contains(id) implies id == self.cur() || self.held(id) by {
                    if id != self.cur() {
                        assert(before.held(id));
                        let r = choose|r: u64| #[trigger] before.holding().dom().contains(r) && before.holding()[r] == id;
                        assert(self.holding().dom().contains(r));
                    }
                }
            }
            assert(self.is_oldest(o)) by {
                if o != self.cur() {
                    assert(before.held(o));
                    let r = choose|r: u64| #[trigger] before.holding().dom().contains(r) && before.holding()[r] == o;
                    assert(self.holding().dom().contains(r));
                }
            }
            assert forall|j: int| 0 <= j < s.len() implies (#[trigger] s[j]).0 < self.cur() by {
                assert(before.fading()[j].0 < before.cur());
            }
            self.lemma_oldest_sees(s, o, s.len());
            assert forall|h: Handle| dropped(s, o, s.len() as int, h) == #[trigger] self.out_of_sight(s, h) by {
                if dropped(s, o, s.len() as int, h) {
                    let j = choose|j: int| 0 <= j < s.len() && (#[trigger] s[j]).1 == h && s[j].0 < o;
                    assert(s[j].1 == h && !self.watched(s[j].0));
                }
                if self.out_of_sight(s, h) {
                    let j = choose|j: int| 0 <= j < s.len() && (#[trigger] s[j]).1 == h && !self.watched(s[j].0);
                    assert(s[j].1 == h && s[j].0 < o);
                }
            }
            assert(self.swept(before.meshes().dom(), s));
            assert forall|h: Handle| #[trigger] self.loose(h) implies before.loose(h) by {
                assert forall|j: int| 0 <= j < s.len() implies (#[trigger] before.fading()[j]).1 != h by {
                    if s[j].1 == h {
                        if s[j].0 < o {
                            assert(dropped(s, o, s.len() as int, h));
                        } else {
                            assert(kept(s, o, s.len()).contains(s[j]));
                            let q = choose|q: int| 0 <= q < kept(s, o, s.len()).len() && kept(s, o, s.len())[q] == s[j];
                            assert(self.fading()[q].1 == h);
                        }
                    }
                }
                assert forall|id: u64, k: BrickKey| #[trigger] before.has(id, k) implies before.handle_at(id, k) != h by {
                    if before.handle_at(id, k) == h {
                        if before.has(before.cur(), k) && before.handle_at(before.cur(), k) == h {
                            assert(self.has(self.cur(), k));
                        } else if !before.spec_careless() {
                            let j = choose|j: int|
                                0 <= j < before.fading().len() && (#[trigger] before.fading()[j]).1 == before.handle_at(id, k)
                                    && before.fading()[j].0 >= id;
                            assert(before.fading()[j].1 != h);
                        }
                    }
                }
            }
            assert forall|h: Handle| #[trigger] before.loose(h) implies self.loose(h) by {
                if dropped(s, o, s.len() as int, h) {
                    let j = choose|j: int| 0 <= j < s.len() && (#[trigger] s[j]).1 == h && s[j].0 < o;
                    assert(before.fading()[j].1 != h);
                }
                assert forall|id: u64, k: BrickKey| #[trigger] self.has(id, k) implies self.handle_at(id, k) != h by {
                    assert(before.has(id, k));
                }
                assert forall|j: int| 0 <= j < self.fading().len() implies (#[trigger] self.fading()[j]).1 != h by {
                    let q = choose|q: int| 0 <= q < s.len() && #[trigger] s[q] == kept(s, o, s.len())[j];
                    assert(before.fading()[q].1 != h);
                }
            }
        }
        freed
    }

    /// A reader of the current snapshot.
    pub fn acquire(&mut self) -> (t: ReaderToken)
        requires
            old(self).wf(),
            old(self).readers_made() < u64::MAX,
        ensures
            final(self).wf(),
            t.snapshot.number == old(self).cur(),
            t.id.number == old(self).readers_made(),
            !old(self).holding().dom().contains(t.id.number),
            final(self).holding() == old(self).holding().insert(t.id.number, old(self).cur()),
            final(self).readers_made() == old(self).readers_made() + 1,
            final(self).meshes() == old(self).meshes(),
            final(self).spec_pool() == old(self).spec_pool(),
            final(self).issued() == old(self).issued(),
            final(self).remembers(old(self)),
            final(self).follows(old(self)),
            final(self).pool_room() == old(self).pool_room(),
            final(self).snaps() == old(self).snaps(),
            final(self).cur() == old(self).cur(),
            final(self).fading() == old(self).fading(),
            final(self).spec_careless() == old(self).spec_careless(),
    {
        let ghost before = *self;
        let id: u64 = self.next_reader;
        self.readers.insert(id, self.current);
        self.next_reader = id + 1;
        proof {
            assert(self.fading() == before.fading());
            assert(self.shape()) by {
                assert forall|r: u64| #[trigger] self.holding().dom().contains(r) implies self.snaps().dom().contains(self.holding()[r])
                    && r < self.readers_made() by {
                    if r != id {
                        assert(before.holding().dom().contains(r));
                    }
                }
                assert forall|i: u64| #[trigger] self.snaps().dom().contains(i) implies self.snaps()[i].wf()
                    && self.snaps()[i].spec_id() == i && i <= self.cur() by {
                    assert(before.snaps().dom().contains(i));
                }
            }
            self.lemma_kept_whole(&before);
            assert(self.tidy()) by {
                assert forall|j: int| 0 <= j < self.fading().len() implies self.watched((#[trigger] self.fading()[j]).0) by {
                    let l = before.fading()[j].0;
                    assert(before.watched(l));
                    let r = choose|r: u64| #[trigger] before.holding().dom().contains(r) && before.holding()[r] <= l;
                    assert(self.holding().dom().contains(r));
                }
                assert forall|i: u64| #[trigger] self.snaps().dom().contains(i) implies i == self.cur() || self.held(i) by {
                    assert(before.snaps().dom().contains(i));
                    if i != self.cur() {
                        let r = choose|r: u64| #[trigger] before.holding().dom().contains(r) && before.holding()[r] == i;
                        assert(self.holding().dom().contains(r));
                    }
                }
            }
        }
        proof {
            self.lemma_acquired_follows(&before);
        }
        ReaderToken { id: ReaderId { number: id }, snapshot: SnapshotId { number: self.current } }
    }

    /// Ends a reader's claim. How many results were freed, or `None` for a reader that is not known.
    pub fn release(&mut self, id: ReaderId) -> (r: Option<u64>)
        requires
            old(self).wf(),
        ensures
            final(self).wf(),
            r is Some == old(self).holding().dom().contains(id.number),
            r is None ==> *final(self) == *old(self),
            final(self).holding() == old(self).holding().remove(id.number),
            final(self).cur() == old(self).cur(),
            final(self).readers_made() == old(self).readers_made(),
            final(self).spec_careless() == old(self).spec_careless(),
            final(self).table() == old(self).table(),
            final(self).issued() == old(self).issued(),
            final(self).remembers(old(self)),
            final(self).follows(old(self)),
            old(self).pool_room() ==> final(self).pool_room(),
            r matches Some(freed) ==> {
                &&& freed == old(self).fading().len() - final(self).fading().len()
                &&& final(self).swept(old(self).meshes().dom(), old(self).fading())
            },
            forall|i: u64| #[trigger]
                final(self).snaps().dom().contains(i) <==> old(self).snaps().dom().contains(i) && (i == final(self).cur() || final(self).held(i)),
            forall|i: u64| #[trigger] final(self).snaps().dom().contains(i) ==> final(self).snaps()[i] == old(self).snaps()[i],
            forall|h: Handle| #[trigger]
                final(self).meshes().dom().contains(h) ==> old(self).meshes().dom().contains(h) && final(self).meshes()[h] == old(self).meshes()[h],
            forall|h: Handle| #[trigger] final(self).loose(h) <==> old(self).loose(h),
    {
        let ghost before = *self;
        if self.readers.remove(&id.number).is_none() {
            assert(self.readers == before.readers);
            assert(before.holding() =~= before.holding().remove(id.number));
            assert forall|i: u64| #[trigger] self.snaps().dom().contains(i) implies i == self.cur() || self.held(i) by {}
            proof {
                self.lemma_quiet_follows(&before);
            }
            return None;
        }
        let ghost mid = *self;
        proof {
            assert(self.fading() == before.fading());
            assert(self.shape()) by {
                assert forall|r: u64| #[trigger] self.holding().dom().contains(r) implies self.snaps().dom().contains(self.holding()[r])
                    && r < self.readers_made() by {
                    assert(before.holding().dom().contains(r));
                }
                assert forall|i: u64| #[trigger] self.snaps().dom().contains(i) implies self.snaps()[i].wf()
                    && self.snaps()[i].spec_id() == i && i <= self.cur() by {
                    assert(before.snaps().dom().contains(i));
                }
            }
            self.lemma_kept_whole(&before);
        }
        let freed: u64 = self.collect();
        proof {
            assert(mid.remembers(&before));
            self.lemma_remembers(&mid, &before);
            assert(self.snaps()[self.cur()] == mid.snaps()[mid.cur()]);
            assert forall|i: u64| self.held(i) == #[trigger] mid.held(i) by {
                if self.held(i) {
                    let r = choose|r: u64| #[trigger] self.holding().dom().contains(r) && self.holding()[r] == i;
                    assert(mid.holding().dom().contains(r));
                }
                if mid.held(i) {
                    let r = choose|r: u64| #[trigger] mid.holding().dom().contains(r) && mid.holding()[r] == i;
                    assert(self.holding().dom().contains(r));
                }
            }
            assert forall|h: Handle| #[trigger] self.loose(h) <==> before.loose(h) by {
                if before.loose(h) {
                    assert forall|i: u64, k: BrickKey| #[trigger] mid.has(i, k) implies mid.handle_at(i, k) != h by {
                        assert(before.has(i, k));
                    }
                    assert(mid.loose(h));
                }
                if mid.loose(h) {
                    assert forall|i: u64, k: BrickKey| #[trigger] before.has(i, k) implies before.handle_at(i, k) != h by {
                        assert(mid.has(i, k));
                    }
                }
            }
        }
        proof {
            self.lemma_released_follows(&before);
        }
        Some(freed)
    }

    /// Reads `key` from the reader's snapshot. `Ok(None)` means the brick is absent (empty) in that
    /// snapshot.
    pub fn read(&self, id: ReaderId, key: BrickKey) -> (r: Result<Option<&BrickMesh>, ReadError>)
        requires
            self.wf(),
        ensures
            match r {
                Err(ReadError::UnknownReader) => !self.holding().dom().contains(id.number),
                Err(ReadError::Dangling { key: k }) => {
                    &&& k == key
                    &&& self.holding().dom().contains(id.number)
                    &&& self.has(self.holding()[id.number], key)
                    &&& !self.meshes().dom().contains(self.handle_at(self.holding()[id.number], key))
                },
                Ok(None) => self.holding().dom().contains(id.number) && !self.has(self.holding()[id.number], key),
                Ok(Some(m)) => {
                    &&& self.holding().dom().contains(id.number)
                    &&& self.has(self.holding()[id.number], key)
                    &&& self.seen(self.holding()[id.number], key) == Some(*m)
                },
            },
            !self.spec_careless() ==> !(r matches Err(ReadError::Dangling { key: _ })),
    {
        let s: u64 = match self.readers.get(&id.number) {
            Some(s) => *s,
            None => {
                return Err(ReadError::UnknownReader);
            },
        };
        match self.snapshots.get(&s) {
            None => Err(ReadError::UnknownReader),
            Some(snap) => match snap.entry(key) {
                None => Ok(None),
                Some(e) => match self.pool.get(e.handle) {
                    Some(m) => Ok(Some(m)),
                    None => {
                        assert(self.has(s, key));
                        Err(ReadError::Dangling { key })
                    },
                },
            },
        }
    }

    /// The first entry of a live snapshot that does not resolve, by snapshot, then by key.
    pub fn check_live_handles(&self) -> (r: Result<(), DanglingEntry>)
        requires
            self.wf(),
        ensures
            match r {
                Ok(_) => forall|id: u64, k: BrickKey| #[trigger]
                    self.has(id, k) ==> self.meshes().dom().contains(self.handle_at(id, k)),
                Err(d) => {
                    &&& self.has(d.snapshot.number, d.key)
                    &&& self.handle_at(d.snapshot.number, d.key) == d.handle
                    &&& !self.meshes().dom().contains(d.handle)
                    &&& forall|id: u64, k: BrickKey| #[trigger]
                        self.has(id, k) && (id < d.snapshot.number || (id == d.snapshot.number && k.lt(d.key)))
                            ==> self.meshes().dom().contains(self.handle_at(id, k))
                },
            },
            !self.spec_careless() ==> r is Ok,
    {
        let n: usize = self.snapshots.len();
        proof {
            self.snapshots.lemma_order();
        }
        let mut i: usize = 0;
        while i < n
            invariant
                i <= n,
                n == self.snapshots.keys().len(),
                n == self.snapshots.vals().len(),
                self.wf(),
                increasing(self.snapshots.keys()),
                forall|x: u64| #[trigger] self.snaps().dom().contains(x) ==> self.snapshots.keys().contains(x),
                forall|j: int|
                    0 <= j < n ==> self.snapshots@.dom().contains(#[trigger] self.snapshots.keys()[j])
                        && self.snapshots@[self.snapshots.keys()[j]] == self.snapshots.vals()[j],
                forall|id: u64, k: BrickKey|
                    among(self.snapshots.keys(), i as int, id) && #[trigger] self.has(id, k) ==> self.meshes().dom().contains(
                        self.handle_at(id, k),
                    ),
            decreases n - i,
        {
            let snap = self.snapshots.val_at(i);
            let ghost id = self.snapshots.keys()[i as int];
            proof {
                lemma_among(self.snapshots.keys(), i as int);
                assert(self.snaps().dom().contains(id));
            }
            let keys = snap.keys();
            let mut j: usize = 0;
            while j < keys.len()
                invariant
                    j <= keys@.len(),
                    self.wf(),
                    snap.wf(),
                    self.snaps().dom().contains(id),
                    *snap == self.snaps()[id],
                    snap.spec_id() == id,
                    keys@.to_set() == snap@.dom(),
                    increasing(keys@),
                    i < n,
                    n == self.snapshots.keys().len(),
                    self.snapshots.keys()[i as int] == id,
                    increasing(self.snapshots.keys()),
                    forall|x: u64, k: BrickKey|
                        among(self.snapshots.keys(), i as int, x) && #[trigger] self.has(x, k) ==> self.meshes().dom().contains(
                            self.handle_at(x, k),
                        ),
                    forall|x: u64| #[trigger] self.snaps().dom().contains(x) ==> self.snapshots.keys().contains(x),
                    forall|q: int|
                        0 <= q < j ==> self.meshes().dom().contains(self.handle_at(id, #[trigger] keys@[q])),
                decreases keys@.len() - j,
            {
                let k = keys[j];
                assert(keys@.to_set().contains(k));
                assert(self.has(id, k));
                if let Some(h) = snap.handle(k) {
                    if self.pool.get(h).is_none() {
                        proof {
                            assert forall|x: u64, y: BrickKey| #[trigger] self.has(x, y) && (x < id || (x == id && y.lt(k))) implies self.meshes().dom().contains(
                                self.handle_at(x, y),
                            ) by {
                                if x < id {
                                    let q = choose|q: int|
                                        0 <= q < self.snapshots.keys().len() && self.snapshots.keys()[q] == x;
                                    if q > i {
                                        assert(self.snapshots.keys()[i as int].lt(self.snapshots.keys()[q]));
                                    }
                                    assert(among(self.snapshots.keys(), i as int, x));
                                } else {
                                    assert(keys@.to_set().contains(y));
                                    let q = choose|q: int| 0 <= q < keys@.len() && keys@[q] == y;
                                    if q > j {
                                        assert(keys@[j as int].lt(keys@[q]));
                                        BrickKey::lt_transitive(y, k, y);
                                        BrickKey::lt_irreflexive(y);
                                    }
                                    if q == j {
                                        BrickKey::lt_irreflexive(y);
                                    }
                                    assert(self.meshes().dom().contains(self.handle_at(id, keys@[q])));
                                }
                            }
                        }
                        return Err(DanglingEntry { snapshot: snap.number(), key: k, handle: h });
                    }
                }
                j += 1;
            }
            proof {
                assert forall|k: BrickKey| #[trigger] self.has(id, k) implies self.meshes().dom().contains(self.handle_at(id, k)) by {
                    assert(keys@.to_set().contains(k));
                    let q = choose|q: int| 0 <= q < keys@.len() && keys@[q] == k;
                    assert(self.meshes().dom().contains(self.handle_at(id, keys@[q])));
                }
            }
            i += 1;
        }
        proof {
            assert forall|id: u64, k: BrickKey| #[trigger] self.has(id, k) implies self.meshes().dom().contains(self.handle_at(id, k)) by {
                assert(among(self.snapshots.keys(), n as int, id));
            }
        }
        Ok(())
    }
}

impl Store {
    /// Every changed key gets a result of its own that only the caller holds.
    pub open spec fn publishable(&self, changes: Seq<Change>) -> bool {
        &&& distinct_keys(changes)
        &&& forall|i: int| 0 <= i < changes.len() && (#[trigger] changes[i]).entry is Some ==> self.loose(changes[i].entry->0.handle)
        &&& forall|i: int, j: int|
            0 <= i < j < changes.len() && (#[trigger] changes[i]).entry is Some && (#[trigger] changes[j]).entry is Some
                ==> changes[i].entry->0.handle != changes[j].entry->0.handle
    }

    /// Whether one of the first `n` changes touches an entry of chunk `c`.
    pub open spec fn touches(&self, changes: Seq<Change>, n: int, c: ChunkCoord) -> bool {
        exists|i: int|
            0 <= i < n && (#[trigger] changes[i]).key.spec_chunk() == c && (changes[i].entry is Some || self.table().dom().contains(
                changes[i].key,
            ))
    }

    /// Publishing `changes` retires what they replace: it fades with what was fading, and is freed once
    /// no reader can see it. `next` is the store after the publication.
    pub open spec fn retires(&self, changes: Seq<Change>, next: &Store) -> bool {
        let gone = replaced(self.table(), changes, self.cur(), changes.len());
        if self.spec_careless() {
            &&& next.fading().len() == 0
            &&& forall|h: Handle| #[trigger]
                next.meshes().dom().contains(h) <==> self.meshes().dom().contains(h) && !listed(gone, gone.len() as int, h)
        } else {
            next.swept(self.meshes().dom(), self.fading() + gone)
        }
    }

    /// Only the chunks with a changed entry are copied: a shard without one is the same as in the snapshot
    /// before, and the others are new. `next` is the store after the publication.
    pub open spec fn shares(&self, changes: Seq<Change>, next: &Store) -> bool {
        let prev = self.snaps()[self.cur()];
        let now = next.snaps()[next.cur()];
        &&& now.origin() == prev.origin()
        &&& forall|c: ChunkCoord|
            #![trigger now.stamps().dom().contains(c)]
            if self.touches(changes, changes.len() as int, c) {
                now.stamps().dom().contains(c) ==> now.stamps()[c] == next.cur()
            } else {
                &&& now.stamps().dom().contains(c) == prev.stamps().dom().contains(c)
                &&& now.stamps().dom().contains(c) ==> now.stamps()[c] == prev.stamps()[c]
            }
    }

    /// Whether `h` is one of the results that `changes` publish.
    pub open spec fn publishes(changes: Seq<Change>, h: Handle) -> bool {
        exists|i: int| 0 <= i < changes.len() && (#[trigger] changes[i]).entry is Some && changes[i].entry->0.handle == h
    }

    /// The table after `changes`: an unchanged key keeps its entry, and no two keys share a result.
    proof fn lemma_next_table(&self, changes: Seq<Change>, n: nat)
        requires
            self.sound(),
            self.publishable(changes),
            n <= changes.len(),
        ensures
            forall|k: BrickKey| #[trigger]
                applied(self.table(), changes, n).dom().contains(k) ==> {
                    ||| (self.table().dom().contains(k) && !changed_among(changes, n as int, k) && applied(
                        self.table(),
                        changes,
                        n,
                    )[k] == self.table()[k])
                    ||| exists|i: int|
                        0 <= i < n && (#[trigger] changes[i]).key == k && changes[i].entry == Some(
                            applied(self.table(), changes, n)[k],
                        )
                },
            forall|k: BrickKey| #[trigger]
                applied(self.table(), changes, n).dom().contains(k) ==> self.meshes().dom().contains(
                    applied(self.table(), changes, n)[k].handle,
                ),
            forall|k: BrickKey, l: BrickKey|
                #[trigger] applied(self.table(), changes, n).dom().contains(k) && #[trigger] applied(
                    self.table(),
                    changes,
                    n,
                ).dom().contains(l) && applied(self.table(), changes, n)[k].handle == applied(self.table(), changes, n)[l].handle ==> k
                    == l,
    {
        let m = self.table();
        let t = applied(m, changes, n);
        law_applied(m, changes, n);
        assert forall|k: BrickKey| #[trigger] t.dom().contains(k) implies {
            ||| (m.dom().contains(k) && !changed_among(changes, n as int, k) && t[k] == m[k])
            ||| exists|i: int| 0 <= i < n && (#[trigger] changes[i]).key == k && changes[i].entry == Some(t[k])
        } by {
            if changed_among(changes, n as int, k) {
                let i = choose|i: int| 0 <= i < n && (#[trigger] changes[i]).key == k;
                assert(changes[i].entry == Some(t[k]));
            }
        }
        assert forall|k: BrickKey| #[trigger] t.dom().contains(k) implies self.meshes().dom().contains(t[k].handle) by {
            if changed_among(changes, n as int, k) {
                let i = choose|i: int| 0 <= i < n && (#[trigger] changes[i]).key == k && changes[i].entry == Some(t[k]);
                assert(self.loose(changes[i].entry->0.handle));
            } else {
                assert(self.has(self.cur(), k));
            }
        }
        assert forall|k: BrickKey, l: BrickKey|
            #[trigger] t.dom().contains(k) && #[trigger] t.dom().contains(l) && t[k].handle == t[l].handle implies k == l by {
            if changed_among(changes, n as int, k) {
                let i = choose|i: int| 0 <= i < n && (#[trigger] changes[i]).key == k && changes[i].entry == Some(t[k]);
                assert(self.loose(changes[i].entry->0.handle));
                if changed_among(changes, n as int, l) {
                    let j = choose|j: int| 0 <= j < n && (#[trigger] changes[j]).key == l && changes[j].entry == Some(t[l]);
                    if i < j {
                        assert(changes[i].entry->0.handle != changes[j].entry->0.handle);
                    } else if j < i {
                        assert(changes[j].entry->0.handle != changes[i].entry->0.handle);
                    }
                } else {
                    assert(self.has(self.cur(), l));
                }
            } else {
                assert(self.has(self.cur(), k));
                if changed_among(changes, n as int, l) {
                    let j = choose|j: int| 0 <= j < n && (#[trigger] changes[j]).key == l && changes[j].entry == Some(t[l]);
                    assert(self.loose(changes[j].entry->0.handle));
                } else {
                    assert(self.has(self.cur(), l));
                }
            }
        }
    }

    /// The next snapshot, and the results that it replaces.
    fn next_snapshot(&self, changes: &Vec<Change>, version: ContentVersion) -> (r: (Snapshot, Vec<(u64, Handle)>))
        requires
            self.sound(),
            self.publishable(changes@),
            self.cur() < u64::MAX,
        ensures
            r.0.wf(),
            r.0.spec_id() == self.cur() + 1,
            r.0.spec_version() == version,
            r.0.origin() == self.snaps()[self.cur()].origin(),
            r.0@ == applied(self.table(), changes@, changes@.len()),
            r.1@ == replaced(self.table(), changes@, self.cur(), changes@.len()),
            forall|c: ChunkCoord|
                #![trigger r.0.stamps().dom().contains(c)]
                if self.touches(changes@, changes@.len() as int, c) {
                    r.0.stamps().dom().contains(c) ==> r.0.stamps()[c] == self.cur() + 1
                } else {
                    r.0.stamps().dom().contains(c) == self.snaps()[self.cur()].stamps().dom().contains(c) && (
                    r.0.stamps().dom().contains(c) ==> r.0.stamps()[c] == self.snaps()[self.cur()].stamps()[c])
                },
    {
        let cur = match self.snapshots.find(&self.current) {
            Some(i) => self.snapshots.val_at(i),
            None => self.snapshots.val_at(0),
        };
        let mut next = cur.successor(self.current + 1, version);
        let mut gone: Vec<(u64, Handle)> = Vec::new();
        let ghost m = self.table();
        let mut i: usize = 0;
        while i < changes.len()
            invariant
                i <= changes@.len(),
                self.sound(),
                self.publishable(changes@),
                m == self.table(),
                next.wf(),
                next.spec_id() == self.cur() + 1,
                next.spec_version() == version,
                next.origin() == self.snaps()[self.cur()].origin(),
                next@ == applied(m, changes@, i as nat),
                gone@ == replaced(m, changes@, self.cur(), i as nat),
                forall|c: ChunkCoord|
                    #![trigger next.stamps().dom().contains(c)]
                    if self.touches(changes@, i as int, c) {
                        next.stamps().dom().contains(c) ==> next.stamps()[c] == self.cur() + 1
                    } else {
                        next.stamps().dom().contains(c) == self.snaps()[self.cur()].stamps().dom().contains(c) && (
                        next.stamps().dom().contains(c) ==> next.stamps()[c] == self.snaps()[self.cur()].stamps()[c])
                    },
            decreases changes@.len() - i,
        {
            let change = changes[i];
            let ghost before = next;
            proof {
                law_applied(m, changes@, i as nat);
                if changed_among(changes@, i as int, change.key) {
                    let j = choose|j: int| 0 <= j < i && (#[trigger] changes@[j]).key == change.key;
                    assert(changes@[j].key != changes@[i as int].key);
                }
                self.lemma_next_table(changes@, (i + 1) as nat);
                let t = applied(m, changes@, (i + 1) as nat);
                self.pool.lemma_counts();
                next.law_shards_hold_the_entries();
                if change.entry is Some {
                    assert(t.dom() =~= next@.dom().insert(change.key));
                    lemma_handles_bound(t, t.dom(), self.meshes().dom());
                }
                assert forall|c: ChunkCoord| #[trigger] self.touches(changes@, i + 1, c) <==> self.touches(changes@, i as int, c) || (c
                    == change.key.spec_chunk() && (change.entry is Some || m.dom().contains(change.key))) by {
                    if self.touches(changes@, i + 1, c) {
                        let j = choose|j: int|
                            0 <= j < i + 1 && (#[trigger] changes@[j]).key.spec_chunk() == c && (changes@[j].entry is Some
                                || self.table().dom().contains(changes@[j].key));
                        if j < i {
                            assert(self.touches(changes@, i as int, c));
                        }
                    }
                    if self.touches(changes@, i as int, c) {
                        let j = choose|j: int|
                            0 <= j < i && (#[trigger] changes@[j]).key.spec_chunk() == c && (changes@[j].entry is Some
                                || self.table().dom().contains(changes@[j].key));
                        assert(changes@[j].key.spec_chunk() == c);
                    }
                    if c == change.key.spec_chunk() && (change.entry is Some || m.dom().contains(change.key)) {
                        assert(changes@[i as int].key.spec_chunk() == c);
                    }
                }
            }
            let old = next.entry(change.key);
            if old.is_some() || change.entry.is_some() {
                next.put(change.key, change.entry);
                proof {
                    assert forall|c: ChunkCoord|
                        #![trigger next.stamps().dom().contains(c)]
                        if self.touches(changes@, i + 1, c) {
                            next.stamps().dom().contains(c) ==> next.stamps()[c] == self.cur() + 1
                        } else {
                            next.stamps().dom().contains(c) == self.snaps()[self.cur()].stamps().dom().contains(c) && (
                            next.stamps().dom().contains(c) ==> next.stamps()[c] == self.snaps()[self.cur()].stamps()[c])
                        } by {
                        assert(self.touches(changes@, i + 1, c) <==> self.touches(changes@, i as int, c) || c
                            == change.key.spec_chunk());
                        assert(before.stamps().dom().contains(c) || !before.stamps().dom().contains(c));
                    }
                }
            } else {
                assert(next@ =~= next@.remove(change.key));
                proof {
                    assert forall|c: ChunkCoord| #[trigger] self.touches(changes@, i + 1, c) == self.touches(changes@, i as int, c) by {}
                }
            }
            if let Some(e) = old {
                gone.push((self.current, e.handle));
            }
            i += 1;
        }
        (next, gone)
    }
}

impl Store {
    /// Frees every result in `gone`.
    fn free_all(&mut self, gone: &Vec<(u64, Handle)>)
        requires
            old(self).pool.wf(),
            forall|j: int| 0 <= j < gone@.len() ==> old(self).meshes().dom().contains((#[trigger] gone@[j]).1),
            forall|i: int, j: int| 0 <= i < j < gone@.len() ==> (#[trigger] gone@[i]).1 != (#[trigger] gone@[j]).1,
        ensures
            final(self).pool.wf(),
            final(self).snapshots == old(self).snapshots,
            final(self).readers == old(self).readers,
            final(self).retiring == old(self).retiring,
            final(self).current == old(self).current,
            final(self).next_reader == old(self).next_reader,
            final(self).careless == old(self).careless,
            final(self).issued() == old(self).issued(),
            final(self).remembers(old(self)),
            old(self).pool_room() ==> final(self).pool_room(),
            forall|h: Handle| #[trigger]
                final(self).meshes().dom().contains(h) <==> old(self).meshes().dom().contains(h) && !listed(gone@, gone@.len() as int, h),
            forall|h: Handle| #[trigger]
                final(self).meshes().dom().contains(h) ==> final(self).meshes()[h] == old(self).meshes()[h],
            forall|h: Handle| #[trigger]
                final(self).pool.spent(h) <==> old(self).pool.spent(h) || listed(gone@, gone@.len() as int, h),
    {
        let ghost before = *self;
        let mut i: usize = 0;
        while i < gone.len()
            invariant
                i <= gone@.len(),
                forall|j: int| 0 <= j < gone@.len() ==> before.meshes().dom().contains((#[trigger] gone@[j]).1),
                forall|i: int, j: int| 0 <= i < j < gone@.len() ==> (#[trigger] gone@[i]).1 != (#[trigger] gone@[j]).1,
                self.pool.wf(),
                self.snapshots == before.snapshots,
                self.readers == before.readers,
                self.retiring == before.retiring,
                self.current == before.current,
                self.next_reader == before.next_reader,
                self.careless == before.careless,
                self.issued() == before.issued(),
                before.pool_room() ==> self.pool_room(),
                forall|h: Handle| #[trigger]
                    self.meshes().dom().contains(h) <==> before.meshes().dom().contains(h) && !listed(gone@, i as int, h),
                forall|h: Handle| #[trigger] self.meshes().dom().contains(h) ==> self.meshes()[h] == before.meshes()[h],
                forall|h: Handle| #[trigger] self.pool.spent(h) <==> before.pool.spent(h) || listed(gone@, i as int, h),
            decreases gone@.len() - i,
        {
            let h = gone[i].1;
            proof {
                assert(before.meshes().dom().contains(gone@[i as int].1));
                assert(!listed(gone@, i as int, h)) by {
                    if listed(gone@, i as int, h) {
                        let j = choose|j: int| 0 <= j < i && (#[trigger] gone@[j]).1 == h;
                        assert(gone@[j].1 != gone@[i as int].1);
                    }
                }
                assert forall|x: Handle| #[trigger] listed(gone@, i + 1, x) <==> listed(gone@, i as int, x) || x == h by {
                    if listed(gone@, i + 1, x) {
                        let j = choose|j: int| 0 <= j < i + 1 && (#[trigger] gone@[j]).1 == x;
                        if j < i {
                            assert(gone@[j].1 == x);
                        }
                    }
                    if listed(gone@, i as int, x) {
                        let j = choose|j: int| 0 <= j < i && (#[trigger] gone@[j]).1 == x;
                        assert(gone@[j].1 == x);
                    }
                    if x == h {
                        assert(gone@[i as int].1 == x);
                    }
                }
                assert(self.meshes().dom().contains(h));
            }
            let _ = self.pool.free(h);
            i += 1;
        }
    }

    /// Installing the next snapshot keeps every invariant.
    proof fn lemma_installed(&self, before: &Store, changes: Seq<Change>)
        requires
            before.sound(),
            before.publishable(changes),
            before.cur() < u64::MAX,
            self.pool.wf(),
            self.snapshots.wf(),
            self.readers == before.readers,
            self.next_reader == before.next_reader,
            self.careless == before.careless,
            self.current == before.current + 1,
            self.snaps().dom() == before.snaps().dom().insert(self.cur()),
            forall|id: u64| #[trigger] before.snaps().dom().contains(id) ==> self.snaps()[id] == before.snaps()[id],
            self.snaps()[self.cur()].wf(),
            self.snaps()[self.cur()].spec_id() == self.cur(),
            self.snaps()[self.cur()].origin() == before.snaps()[before.cur()].origin(),
            self.table() == applied(before.table(), changes, changes.len()),
            forall|c: ChunkCoord|
                #![trigger self.snaps()[self.cur()].stamps().dom().contains(c)]
                if before.touches(changes, changes.len() as int, c) {
                    self.snaps()[self.cur()].stamps().dom().contains(c) ==> self.snaps()[self.cur()].stamps()[c] == self.cur()
                } else {
                    self.snaps()[self.cur()].stamps().dom().contains(c) == before.snaps()[before.cur()].stamps().dom().contains(c)
                        && (self.snaps()[self.cur()].stamps().dom().contains(c) ==> self.snaps()[self.cur()].stamps()[c]
                        == before.snaps()[before.cur()].stamps()[c])
                },
            ({
                let gone = replaced(before.table(), changes, before.cur(), changes.len());
                if self.careless {
                    &&& self.fading().len() == 0
                    &&& forall|h: Handle| #[trigger]
                        self.meshes().dom().contains(h) <==> before.meshes().dom().contains(h) && !listed(gone, gone.len() as int, h)
                    &&& forall|h: Handle| #[trigger]
                        self.pool.spent(h) <==> before.pool.spent(h) || listed(gone, gone.len() as int, h)
                } else {
                    &&& self.fading() == before.fading() + gone
                    &&& self.pool == before.pool
                }
            }),
        ensures
            self.sound(),
            forall|h: Handle| #[trigger] self.loose(h) <==> before.loose(h) && !Store::publishes(changes, h),
    {
        let m = before.table();
        let n = changes.len();
        let t = self.table();
        let gone = replaced(m, changes, before.cur(), n);
        let cur = self.cur();
        let prev = before.cur();
        before.lemma_next_table(changes, n);
        law_applied(m, changes, n);
        lemma_replaced(m, changes, prev, n);
        assert forall|k: BrickKey| #[trigger] m.dom().contains(k) implies before.has(prev, k) && before.handle_at(prev, k) == m[k].handle by {}
        assert forall|k: BrickKey, l: BrickKey|
            #[trigger] m.dom().contains(k) && #[trigger] m.dom().contains(l) && m[k].handle == m[l].handle implies k == l by {
            assert(before.has(prev, k) && before.has(prev, l));
        }
        assert forall|id: u64, k: BrickKey| #[trigger] self.has(id, k) && id != cur implies before.has(id, k) && before.handle_at(id, k)
            == self.handle_at(id, k) by {
            assert(before.snaps().dom().contains(id));
        }
        assert forall|id: u64, k: BrickKey| #[trigger] before.has(id, k) implies self.has(id, k) && id != cur && before.handle_at(id, k)
            == self.handle_at(id, k) by {
            assert(before.snaps().dom().contains(id));
        }
        assert forall|k: BrickKey| #[trigger] self.has(cur, k) implies t.dom().contains(k) && t[k].handle == self.handle_at(cur, k) by {}
        assert forall|k: BrickKey| #[trigger] t.dom().contains(k) implies self.has(cur, k) by {}
        // A published result is either new, or the same as in the snapshot before.
        assert forall|k: BrickKey| #[trigger] t.dom().contains(k) implies (m.dom().contains(k) && !changed_among(changes, n as int, k)
            && t[k] == m[k]) || before.loose(t[k].handle) by {
            if !(m.dom().contains(k) && !changed_among(changes, n as int, k) && t[k] == m[k]) {
                let i = choose|i: int| 0 <= i < n && (#[trigger] changes[i]).key == k && changes[i].entry == Some(t[k]);
                assert(before.loose(changes[i].entry->0.handle));
            }
        }
        // A replaced result is not in the new table.
        assert forall|k: BrickKey| #[trigger] t.dom().contains(k) implies !listed(gone, gone.len() as int, t[k].handle) by {
            if listed(gone, gone.len() as int, t[k].handle) {
                let j = choose|j: int| 0 <= j < gone.len() && (#[trigger] gone[j]).1 == t[k].handle;
                let i = choose|i: int|
                    0 <= i < n && m.dom().contains((#[trigger] changes[i]).key) && m[changes[i].key].handle == gone[j].1;
                assert(before.has(prev, changes[i].key));
                if before.loose(t[k].handle) {
                    assert(before.handle_at(prev, changes[i].key) != t[k].handle);
                } else {
                    assert(m.dom().contains(k) && m[k].handle == m[changes[i].key].handle);
                    assert(changed_among(changes, n as int, k));
                }
            }
        }
        assert forall|j: int| 0 <= j < gone.len() implies before.meshes().dom().contains((#[trigger] gone[j]).1) by {
            let i = choose|i: int| 0 <= i < n && m.dom().contains((#[trigger] changes[i]).key) && m[changes[i].key].handle == gone[j].1;
            assert(before.has(prev, changes[i].key));
        }
        assert(self.shape()) by {
            assert forall|r: u64| #[trigger] self.holding().dom().contains(r) implies self.snaps().dom().contains(self.holding()[r]) && r
                < self.readers_made() by {
                assert(before.holding().dom().contains(r));
            }
            assert forall|i: u64| #[trigger] self.snaps().dom().contains(i) implies self.snaps()[i].wf() && self.snaps()[i].spec_id() == i
                && i <= self.cur() && self.snaps()[i].origin() == self.snaps()[cur].origin() by {
                if i != cur {
                    assert(before.snaps().dom().contains(i));
                }
            }
        }
        assert(self.resolves()) by {
            assert forall|id: u64, k: BrickKey| #[trigger] self.has(id, k) implies {
                &&& (self.spec_careless() && id != self.cur()) || self.meshes().dom().contains(self.handle_at(id, k))
                &&& self.meshes().dom().contains(self.handle_at(id, k)) || self.pool.spent(self.handle_at(id, k))
            } by {
                if id == cur {
                    assert(t.dom().contains(k));
                } else {
                    assert(before.has(id, k));
                }
            }
        }
        let f = self.fading();
        if !self.careless {
            assert forall|j: int| 0 <= j < before.fading().len() implies f[j] == (#[trigger] before.fading()[j]) by {}
            assert forall|j: int| 0 <= j < gone.len() implies f[before.fading().len() + j] == (#[trigger] gone[j]) by {}
        }
        assert(self.covered()) by {
            if !self.spec_careless() {
                assert forall|id: u64, k: BrickKey| #[trigger] self.has(id, k) implies (self.has(self.cur(), k) && self.handle_at(
                    self.cur(),
                    k,
                ) == self.handle_at(id, k)) || exists|j: int|
                    0 <= j < self.fading().len() && (#[trigger] self.fading()[j]).1 == self.handle_at(id, k) && self.fading()[j].0 >= id by {
                    if id != cur {
                        assert(before.has(id, k));
                        assert(id <= prev);
                        if before.has(prev, k) && before.handle_at(prev, k) == before.handle_at(id, k) {
                            assert(m.dom().contains(k));
                            if changed_among(changes, n as int, k) {
                                let i = choose|i: int| 0 <= i < n && (#[trigger] changes[i]).key == k;
                                assert(gone.contains((prev, m[changes[i].key].handle)));
                                let j = choose|j: int| 0 <= j < gone.len() && gone[j] == (prev, m[changes[i].key].handle);
                                assert(f[before.fading().len() + j] == gone[j]);
                                assert(self.fading()[before.fading().len() + j].1 == self.handle_at(id, k));
                            } else {
                                assert(t.dom().contains(k));
                                assert(self.has(cur, k));
                            }
                        } else {
                            let j = choose|j: int|
                                0 <= j < before.fading().len() && (#[trigger] before.fading()[j]).1 == before.handle_at(id, k)
                                    && before.fading()[j].0 >= id;
                            assert(self.fading()[j].1 == self.handle_at(id, k));
                        }
                    }
                }
            }
        }
        assert(self.buried()) by {
            if self.spec_careless() {
                assert forall|id: u64, k: BrickKey| #[trigger] self.has(id, k) implies (self.has(self.cur(), k) && self.handle_at(
                    self.cur(),
                    k,
                ) == self.handle_at(id, k)) || !self.meshes().dom().contains(self.handle_at(id, k)) by {
                    if id != cur {
                        assert(before.has(id, k));
                        if before.has(prev, k) && before.handle_at(prev, k) == before.handle_at(id, k) {
                            assert(m.dom().contains(k));
                            if changed_among(changes, n as int, k) {
                                let i = choose|i: int| 0 <= i < n && (#[trigger] changes[i]).key == k;
                                assert(gone.contains((prev, m[changes[i].key].handle)));
                                let j = choose|j: int| 0 <= j < gone.len() && gone[j] == (prev, m[changes[i].key].handle);
                                assert(gone[j].1 == self.handle_at(id, k));
                                assert(listed(gone, gone.len() as int, self.handle_at(id, k)));
                            } else {
                                assert(t.dom().contains(k));
                                assert(self.has(cur, k));
                            }
                        }
                    }
                }
            }
        }
        assert(self.fades()) by {
            if !self.careless {
                assert forall|j: int| 0 <= j < f.len() implies self.meshes().dom().contains((#[trigger] self.fading()[j]).1)
                    && self.fading()[j].0 < self.cur() by {
                    if j < before.fading().len() {
                        assert(before.meshes().dom().contains(before.fading()[j].1));
                    } else {
                        assert(f[j] == gone[j - before.fading().len()]);
                    }
                }
                assert forall|j: int, id: u64, k: BrickKey|
                    0 <= j < self.fading().len() && #[trigger] self.has(id, k) && id > (#[trigger] self.fading()[j]).0 implies self.handle_at(
                    id,
                    k,
                ) != self.fading()[j].1 by {
                    if j < before.fading().len() {
                        assert(f[j] == before.fading()[j]);
                        assert(before.fading()[j].0 < prev);
                        if id == cur {
                            assert(t.dom().contains(k));
                            if before.loose(t[k].handle) {
                                assert(before.fading()[j].1 != t[k].handle);
                            } else {
                                assert(m.dom().contains(k));
                                assert(before.has(prev, k));
                            }
                        } else {
                            assert(before.has(id, k));
                        }
                    } else {
                        let q = j - before.fading().len();
                        assert(f[j] == gone[q]);
                        if id == cur {
                            assert(t.dom().contains(k));
                            if t[k].handle == gone[q].1 {
                                assert(listed(gone, gone.len() as int, t[k].handle));
                            }
                        } else {
                            assert(before.has(id, k));
                        }
                    }
                }
                assert forall|i: int, j: int| 0 <= i < j < self.fading().len() implies (#[trigger] self.fading()[i]).1 != (
                #[trigger] self.fading()[j]).1 by {
                    let b = before.fading().len();
                    if j < b {
                        assert(before.fading()[i].1 != before.fading()[j].1);
                    } else if i >= b {
                        assert(gone[i - b].1 != gone[j - b].1);
                    } else {
                        assert(f[j] == gone[j - b]);
                        let q = choose|q: int|
                            0 <= q < n && m.dom().contains((#[trigger] changes[q]).key) && m[changes[q].key].handle == gone[j - b].1;
                        assert(before.has(prev, changes[q].key));
                        assert(before.fading()[i].0 < prev);
                    }
                }
            }
        }
        assert(self.keyed()) by {
            assert forall|a: u64, k: BrickKey, b: u64, l: BrickKey| #[trigger]
                self.has(a, k) && #[trigger] self.has(b, l) && self.handle_at(a, k) == self.handle_at(b, l) implies k == l by {
                if a == cur && b == cur {
                    assert(t.dom().contains(k) && t.dom().contains(l));
                } else if a == cur {
                    assert(t.dom().contains(k));
                    assert(before.has(b, l));
                    if !before.loose(t[k].handle) {
                        assert(before.has(prev, k));
                    }
                } else if b == cur {
                    assert(t.dom().contains(l));
                    assert(before.has(a, k));
                    if !before.loose(t[l].handle) {
                        assert(before.has(prev, l));
                    }
                } else {
                    assert(before.has(a, k) && before.has(b, l));
                }
            }
        }
        assert(self.sharing()) by {
            self.lemma_shared_next(before, changes);
        }
        assert forall|h: Handle| #[trigger] self.loose(h) implies before.loose(h) && !Store::publishes(changes, h) by {
            assert forall|id: u64, k: BrickKey| #[trigger] before.has(id, k) implies before.handle_at(id, k) != h by {
                assert(self.has(id, k));
            }
            assert forall|j: int| 0 <= j < before.fading().len() implies (#[trigger] before.fading()[j]).1 != h by {
                assert(self.fading()[j].1 != h);
            }
            if Store::publishes(changes, h) {
                let i = choose|i: int| 0 <= i < changes.len() && (#[trigger] changes[i]).entry is Some && changes[i].entry->0.handle == h;
                assert(t.dom().contains(changes[i].key));
                assert(self.has(cur, changes[i].key));
            }
        }
        assert forall|h: Handle| #[trigger] before.loose(h) && !Store::publishes(changes, h) implies self.loose(h) by {
            assert forall|id: u64, k: BrickKey| #[trigger] self.has(id, k) implies self.handle_at(id, k) != h by {
                if id == cur {
                    assert(t.dom().contains(k));
                    if self.handle_at(id, k) == h {
                        if m.dom().contains(k) && !changed_among(changes, n as int, k) && t[k] == m[k] {
                            assert(before.has(prev, k));
                        } else {
                            let i = choose|i: int| 0 <= i < n && (#[trigger] changes[i]).key == k && changes[i].entry == Some(t[k]);
                            assert(changes[i].entry->0.handle == h);
                        }
                    }
                } else {
                    assert(before.has(id, k));
                }
            }
            assert forall|j: int| 0 <= j < gone.len() implies (#[trigger] gone[j]).1 != h by {
                let i = choose|i: int|
                    0 <= i < n && m.dom().contains((#[trigger] changes[i]).key) && m[changes[i].key].handle == gone[j].1;
                assert(before.has(prev, changes[i].key));
            }
            assert(!listed(gone, gone.len() as int, h));
            if !self.careless {
                assert forall|j: int| 0 <= j < self.fading().len() implies (#[trigger] self.fading()[j]).1 != h by {
                    if j < before.fading().len() {
                        assert(before.fading()[j].1 != h);
                    } else {
                        assert(f[j] == gone[j - before.fading().len()]);
                    }
                }
            }
        }
    }

    proof fn lemma_shared_next(&self, before: &Store, changes: Seq<Change>)
        requires
            before.sound(),
            distinct_keys(changes),
            self.current == before.current + 1,
            self.snaps().dom() == before.snaps().dom().insert(self.cur()),
            forall|id: u64| #[trigger] before.snaps().dom().contains(id) ==> self.snaps()[id] == before.snaps()[id],
            self.snaps()[self.cur()].wf(),
            self.snaps()[self.cur()].spec_id() == self.cur(),
            self.snaps()[self.cur()].origin() == before.snaps()[before.cur()].origin(),
            self.table() == applied(before.table(), changes, changes.len()),
            forall|c: ChunkCoord|
                #![trigger self.snaps()[self.cur()].stamps().dom().contains(c)]
                if before.touches(changes, changes.len() as int, c) {
                    self.snaps()[self.cur()].stamps().dom().contains(c) ==> self.snaps()[self.cur()].stamps()[c] == self.cur()
                } else {
                    self.snaps()[self.cur()].stamps().dom().contains(c) == before.snaps()[before.cur()].stamps().dom().contains(c)
                        && (self.snaps()[self.cur()].stamps().dom().contains(c) ==> self.snaps()[self.cur()].stamps()[c]
                        == before.snaps()[before.cur()].stamps()[c])
                },
        ensures
            self.sharing(),
    {
        let cur = self.cur();
        let prev = before.cur();
        let m = before.table();
        let n = changes.len();
        law_applied(m, changes, n);
        // An untouched chunk is the same in both tables.
        assert forall|k: BrickKey| !#[trigger] before.touches(changes, n as int, k.spec_chunk()) implies self.has(cur, k) == before.has(prev, k) && (
        self.has(cur, k) ==> self.table()[k] == m[k]) by {
            if changed_among(changes, n as int, k) {
                let i = choose|i: int| 0 <= i < n && (#[trigger] changes[i]).key == k;
                assert(changes[i].key.spec_chunk() == k.spec_chunk());
                assert(changes[i].entry is None);
            }
        }
        assert forall|b: u64, k: BrickKey| before.snaps().dom().contains(b) && #[trigger] self.snaps()[cur].shared_chunks(
            &self.snaps()[b],
        ).contains(k.spec_chunk()) implies (#[trigger] self.has(cur, k) == self.has(b, k)) && (self.has(cur, k) ==> self.snaps()[cur]@[k]
            == self.snaps()[b]@[k]) by {
            let c = k.spec_chunk();
            before.snaps()[b].law_shards_hold_the_entries();
            assert(before.snaps()[b].spec_id() == b && b <= prev);
            assert(self.snaps()[cur].stamps().dom().contains(c));
            assert(!before.touches(changes, n as int, c));
            assert(before.snaps()[prev].shared_chunks(&before.snaps()[b]).contains(c));
            assert(before.has(prev, k) == before.has(b, k));
        }
        assert forall|a: u64, b: u64, k: BrickKey|
            self.snaps().dom().contains(a) && self.snaps().dom().contains(b) && #[trigger] self.snaps()[a].shared_chunks(
                &self.snaps()[b],
            ).contains(k.spec_chunk()) implies (#[trigger] self.has(a, k) == self.has(b, k)) && (self.has(a, k) ==> self.snaps()[a]@[k]
            == self.snaps()[b]@[k]) by {
            if a != cur && b != cur {
                assert(before.snaps()[a].shared_chunks(&before.snaps()[b]).contains(k.spec_chunk()));
                assert(before.has(a, k) == before.has(b, k));
            } else if a == cur && b != cur {
                assert(before.snaps().dom().contains(b));
                assert(self.has(cur, k) == self.has(b, k));
            } else if a != cur && b == cur {
                assert(before.snaps().dom().contains(a));
                assert(self.snaps()[cur].shared_chunks(&self.snaps()[a]).contains(k.spec_chunk()));
                assert(self.has(cur, k) == self.has(a, k));
            }
        }
    }

    /// Publishes `changes` as one new snapshot.
    pub fn publish(&mut self, changes: &Vec<Change>, version: ContentVersion) -> (r: Publication)
        requires
            old(self).wf(),
            old(self).cur() < u64::MAX,
            old(self).publishable(changes@),
        ensures
            final(self).wf(),
            r.id.number == old(self).cur() + 1,
            final(self).cur() == r.id.number,
            final(self).table() == applied(old(self).table(), changes@, changes@.len()),
            final(self).snaps()[final(self).cur()].spec_version() == version,
            final(self).holding() == old(self).holding(),
            final(self).readers_made() == old(self).readers_made(),
            final(self).spec_careless() == old(self).spec_careless(),
            final(self).issued() == old(self).issued(),
            final(self).remembers(old(self)),
            final(self).follows(old(self)),
            old(self).pool_room() ==> final(self).pool_room(),
            r.retired == replaced(old(self).table(), changes@, old(self).cur(), changes@.len()).len(),
            r.freed == old(self).fading().len() + r.retired - final(self).fading().len(),
            // What a reader holds stays as it was.
            forall|id: u64| #[trigger]
                final(self).snaps().dom().contains(id) <==> id == final(self).cur() || old(self).held(id),
            forall|id: u64|
                old(self).held(id) ==> #[trigger] final(self).snaps()[id] == old(self).snaps()[id],
            !old(self).spec_careless() ==> forall|id: u64, k: BrickKey|
                old(self).held(id) ==> #[trigger] final(self).seen(id, k) == old(self).seen(id, k),
            forall|h: Handle| #[trigger]
                final(self).meshes().dom().contains(h) ==> old(self).meshes().dom().contains(h) && final(self).meshes()[h] == old(self).meshes()[h],
            forall|h: Handle| #[trigger] final(self).loose(h) <==> old(self).loose(h) && !Store::publishes(changes@, h),
            old(self).retires(changes@, final(self)),
            old(self).shares(changes@, final(self)),
    {
        let ghost before = *self;
        let (next, gone) = self.next_snapshot(changes, version);
        let ghost new = next;
        let ghost m = before.table();
        let ghost n = changes@.len();
        proof {
            lemma_replaced(m, changes@, before.cur(), n);
            assert forall|k: BrickKey, l: BrickKey|
                #[trigger] m.dom().contains(k) && #[trigger] m.dom().contains(l) && m[k].handle == m[l].handle implies k == l by {
                assert(before.has(before.cur(), k) && before.has(before.cur(), l));
            }
            assert forall|j: int| 0 <= j < gone@.len() implies before.meshes().dom().contains((#[trigger] gone@[j]).1) by {
                let i = choose|i: int|
                    0 <= i < n && m.dom().contains((#[trigger] changes@[i]).key) && m[changes@[i].key].handle == replaced(
                        m,
                        changes@,
                        before.cur(),
                        n,
                    )[j].1;
                assert(before.has(before.cur(), changes@[i].key));
            }
            assert forall|i: int, j: int| 0 <= i < j < gone@.len() implies (#[trigger] gone@[i]).1 != (#[trigger] gone@[j]).1 by {
                let r = replaced(m, changes@, before.cur(), n);
                assert(r[i].1 != r[j].1);
            }
        }
        let id: u64 = self.current + 1;
        let retired: u64 = gone.len() as u64;
        self.snapshots.insert(id, next);
        self.current = id;
        let mut freed: u64 = 0;
        if self.careless {
            self.free_all(&gone);
            freed = retired;
        } else {
            let mut i: usize = 0;
            let ghost held = *self;
            while i < gone.len()
                invariant
                    i <= gone@.len(),
                    self.pool == held.pool,
                    self.snapshots == held.snapshots,
                    self.readers == held.readers,
                    self.current == held.current,
                    self.next_reader == held.next_reader,
                    self.careless == held.careless,
                    self.retiring@ =~= before.retiring@ + gone@.take(i as int),
                decreases gone@.len() - i,
            {
                self.retiring.push(gone[i]);
                i += 1;
            }
            assert(gone@.take(gone@.len() as int) =~= gone@);
        }
        let ghost mid = *self;
        proof {
            assert(mid.snaps()[mid.cur()] == new);
            assert(mid.snaps().dom() =~= before.snaps().dom().insert(mid.cur()));
            assert forall|id: u64| #[trigger] before.snaps().dom().contains(id) implies mid.snaps()[id] == before.snaps()[id] by {
                assert(id <= before.cur());
            }
            assert(mid.holding() == before.holding());
            mid.lemma_installed(&before, changes@);
        }
        let more: u64 = self.collect();
        freed = freed + more;
        proof {
            assert(mid.remembers(&before));
            self.lemma_remembers(&mid, &before);
            if before.spec_careless() {
                assert(mid.fading().len() == 0);
                assert(forall|h: Handle| !self.out_of_sight(mid.fading(), h));
            } else {
                assert(mid.fading() =~= before.fading() + gone@);
                assert(mid.meshes() == before.meshes());
            }
            assert forall|id: u64| #[trigger] self.snaps().dom().contains(id) <==> id == self.cur() || before.held(id) by {
                if mid.held(id) {
                    let r = choose|r: u64| #[trigger] mid.holding().dom().contains(r) && mid.holding()[r] == id;
                    assert(before.holding().dom().contains(r));
                }
                if before.held(id) {
                    let r = choose|r: u64| #[trigger] before.holding().dom().contains(r) && before.holding()[r] == id;
                    assert(mid.holding().dom().contains(r));
                    assert(before.snaps().dom().contains(id));
                }
            }
            assert forall|id: u64| before.held(id) implies #[trigger] self.snaps()[id] == before.snaps()[id] by {
                let r = choose|r: u64| #[trigger] before.holding().dom().contains(r) && before.holding()[r] == id;
                assert(self.snaps().dom().contains(id));
                assert(before.snaps().dom().contains(id));
            }
            if !before.spec_careless() {
                assert forall|id: u64, k: BrickKey| before.held(id) implies #[trigger] self.seen(id, k) == before.seen(id, k) by {
                    assert(self.snaps()[id] == before.snaps()[id]);
                    assert(self.snaps().dom().contains(id));
                    let r = choose|r: u64| #[trigger] before.holding().dom().contains(r) && before.holding()[r] == id;
                    assert(before.snaps().dom().contains(id));
                    assert(self.has(id, k) == before.has(id, k));
                    if self.has(id, k) {
                        assert(self.meshes().dom().contains(self.handle_at(id, k)));
                    }
                }
            }
        }
        proof {
            self.lemma_published_follows(&before, changes@);
        }
        Publication { id: SnapshotId { number: id }, retired, freed }
    }
}

proof fn lemma_handles_match(m: Map<BrickKey, Entry>, keys: Set<BrickKey>, live: Set<Handle>)
    requires
        keys.finite(),
        live.finite(),
        keys.subset_of(m.dom()),
        forall|h: Handle| #[trigger] live.contains(h) <==> exists|k: BrickKey| #[trigger] keys.contains(k) && m[k].handle == h,
        forall|k: BrickKey, l: BrickKey|
            #[trigger] keys.contains(k) && #[trigger] keys.contains(l) && m[k].handle == m[l].handle ==> k == l,
    ensures
        keys.len() == live.len(),
    decreases keys.len(),
{
    if keys.len() == 0 {
        assert(live =~= Set::<Handle>::empty()) by {
            assert forall|h: Handle| !live.contains(h) by {
                if live.contains(h) {
                    let k = choose|k: BrickKey| #[trigger] keys.contains(k) && m[k].handle == h;
                }
            }
        }
    } else {
        let k = keys.choose();
        assert(keys.contains(k));
        let h = m[k].handle;
        assert(live.contains(h));
        let (a, b) = (keys.remove(k), live.remove(h));
        assert forall|x: Handle| #[trigger] b.contains(x) <==> exists|l: BrickKey| #[trigger] a.contains(l) && m[l].handle == x by {
            if b.contains(x) {
                assert(live.contains(x));
                let l = choose|l: BrickKey| #[trigger] keys.contains(l) && m[l].handle == x;
                assert(a.contains(l));
            }
            if exists|l: BrickKey| #[trigger] a.contains(l) && m[l].handle == x {
                let l = choose|l: BrickKey| #[trigger] a.contains(l) && m[l].handle == x;
                assert(keys.contains(l));
                assert(live.contains(x));
            }
        }
        assert forall|x: BrickKey, y: BrickKey| #[trigger] a.contains(x) && #[trigger] a.contains(y) && m[x].handle == m[y].handle implies x
            == y by {
            assert(keys.contains(x) && keys.contains(y));
        }
        lemma_handles_match(m, a, b);
    }
}

} // verus!
