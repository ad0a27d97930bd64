//! Immutable published tables.
//!
//! A snapshot's entries are sharded by chunk, and shards are shared between snapshots. A
//! publication copies the chunk index (one pointer per chunk) and only the shards it changes.
use crate::derived::slots::Handle;
use crate::derived::surface::InputRecord;
use crate::sorted::{among, increasing, lemma_among, Key, SortedMap};
use crate::world::{BrickKey, ChunkCoord, ContentVersion};
use std::sync::atomic::AtomicBool;
use std::sync::Arc;
use vstd::prelude::*;

verus! {

#[derive(Clone, Copy, Debug, PartialEq, Eq, PartialOrd, Ord, Hash, Structural)]
pub struct SnapshotId {
    pub number: u64,
}

impl SnapshotId {
    /// The snapshot's number (publication order), for display and logs.
    pub fn raw(self) -> (r: u64)
        ensures
            r == self.number,
    {
        self.number
    }
}

/// A published result: where its mesh is, and what it was derived from.
#[derive(Clone, Copy, Debug)]
pub struct Entry {
    pub handle: Handle,
    pub record: InputRecord,
}

/// One chunk's entries. Shared by every snapshot in which the chunk did not change.
#[derive(Debug)]
pub struct Shard {
    /// The publication that made this shard.
    pub stamp: u64,
    pub entries: SortedMap<BrickKey, Entry>,
}

/// A snapshot's entries.
#[derive(Clone, Debug)]
pub struct Shards {
    /// Marks the pipeline that published them: one mark each, whatever it holds.
    mark: Arc<AtomicBool>,
    /// Non-empty shards only.
    by_chunk: SortedMap<ChunkCoord, Arc<Shard>>,
    len: usize,
}

#[derive(Clone, Debug)]
pub struct Snapshot {
    pub id: SnapshotId,
    /// World version at publication.
    pub world_version: ContentVersion,
    pub shards: Shards,
}

/// Another pointer to the same value.
///
/// `Arc::clone`: the clone points to the same allocation, so both hold the same value.
#[verifier::external_body]
fn share<T>(shared: &Arc<T>) -> (r: Arc<T>)
    ensures
        r == *shared,
{
    shared.clone()
}

/// Whether both point to one mark.
///
/// `Arc::ptr_eq`: true exactly where both point to the same allocation. What an allocation holds is an
/// atomic. As a value in contracts that is opaque and stands for the atomic itself, not for its flag, and it
/// is never copied: one allocation is one mark and two allocations are two marks, also where their flags agree.
#[verifier::external_body]
fn same_mark(a: &Arc<AtomicBool>, b: &Arc<AtomicBool>) -> (r: bool)
    ensures
        r == (*a == *b),
{
    Arc::ptr_eq(a, b)
}

impl View for Snapshot {
    type V = Map<BrickKey, Entry>;

    /// The entry of each published brick.
    closed spec fn view(&self) -> Map<BrickKey, Entry> {
        Map::new(
            |k: BrickKey| {
                &&& self.shards.by_chunk@.dom().contains(k.spec_chunk())
                &&& self.shards.by_chunk@[k.spec_chunk()].entries@.dom().contains(k)
            },
            |k: BrickKey| self.shards.by_chunk@[k.spec_chunk()].entries@[k],
        )
    }
}

impl Snapshot {
    pub open spec fn spec_id(&self) -> u64 {
        self.id.number
    }

    pub open spec fn spec_version(&self) -> ContentVersion {
        self.world_version
    }

    /// The mark of the pipeline that published the snapshot.
    pub closed spec fn origin(&self) -> Arc<AtomicBool> {
        self.shards.mark
    }

    /// The publication that made each chunk's shard.
    pub closed spec fn stamps(&self) -> Map<ChunkCoord, u64> {
        Map::new(|c: ChunkCoord| self.shards.by_chunk@.dom().contains(c), |c: ChunkCoord| self.shards.by_chunk@[c].stamp)
    }

    closed spec fn shaped(&self) -> bool {
        &&& self.shards.by_chunk.wf()
        &&& forall|c: ChunkCoord| #[trigger] self.shards.by_chunk@.dom().contains(c) ==> self.shards.by_chunk@[c].entries.wf()
        &&& forall|c: ChunkCoord, k: BrickKey|
            self.shards.by_chunk@.dom().contains(c) && #[trigger] self.shards.by_chunk@[c].entries@.dom().contains(k) ==> k.spec_chunk() == c
        &&& forall|c: ChunkCoord| #[trigger]
            self.shards.by_chunk@.dom().contains(c) ==> self.shards.by_chunk@[c].entries@ != Map::<BrickKey, Entry>::empty()
    }

    pub closed spec fn wf(&self) -> bool {
        &&& self.shaped()
        &&& self@.dom().finite()
        &&& self.shards.len == self@.dom().len()
        &&& forall|c: ChunkCoord| #[trigger] self.stamps().dom().contains(c) ==> self.stamps()[c] <= self.spec_id()
    }

    /// A chunk has a shard exactly when it has an entry, made no later than this snapshot.
    pub proof fn law_shards_hold_the_entries(&self)
        requires
            self.wf(),
        ensures
            self@.dom().finite(),
            forall|k: BrickKey| #[trigger] self@.dom().contains(k) ==> self.stamps().dom().contains(k.spec_chunk()),
            forall|c: ChunkCoord| #[trigger]
                self.stamps().dom().contains(c) ==> self.stamps()[c] <= self.spec_id() && exists|k: BrickKey| #[trigger]
                    self@.dom().contains(k) && k.spec_chunk() == c,
    {
        assert forall|c: ChunkCoord| #[trigger] self.stamps().dom().contains(c) implies exists|k: BrickKey| #[trigger]
            self@.dom().contains(k) && k.spec_chunk() == c by {
            let m = self.shards.by_chunk@[c].entries@;
            assert(m != Map::<BrickKey, Entry>::empty());
            assert(exists|k: BrickKey| m.dom().contains(k)) by {
                if forall|k: BrickKey| !m.dom().contains(k) {
                    assert(m =~= Map::<BrickKey, Entry>::empty());
                }
            }
            let k = choose|k: BrickKey| m.dom().contains(k);
            assert(self@.dom().contains(k));
        }
    }

    /// The snapshot before anything was published, under a new mark. That no other pipeline has that mark is
    /// left unsaid: it holds of where the machine put it.
    pub(crate) fn first() -> (r: Snapshot)
        ensures
            r.wf(),
            r.spec_id() == 0,
            r.spec_version().number == 0,
            r@ == Map::<BrickKey, Entry>::empty(),
            r.stamps() == Map::<ChunkCoord, u64>::empty(),
    {
        let r = Snapshot {
            id: SnapshotId { number: 0 },
            world_version: ContentVersion { number: 0 },
            shards: Shards { mark: Arc::new(AtomicBool::new(false)), by_chunk: SortedMap::new(), len: 0 },
        };
        assert(r@ =~= Map::<BrickKey, Entry>::empty());
        assert(r@.dom() =~= Set::<BrickKey>::empty());
        assert(r.stamps() =~= Map::<ChunkCoord, u64>::empty());
        r
    }

    pub fn number(&self) -> (r: SnapshotId)
        ensures
            r.number == self.spec_id(),
    {
        self.id
    }

    pub fn len(&self) -> (r: usize)
        requires
            self.wf(),
        ensures
            r == self@.dom().len(),
    {
        self.shards.len
    }

    pub fn is_empty(&self) -> (r: bool)
        requires
            self.wf(),
        ensures
            r == (self@ == Map::<BrickKey, Entry>::empty()),
    {
        proof {
            if self@.dom().len() == 0 {
                assert(self@.dom() =~= Set::<BrickKey>::empty());
                assert(self@ =~= Map::<BrickKey, Entry>::empty());
            } else {
                assert(self@.dom() != Set::<BrickKey>::empty());
            }
        }
        self.shards.len == 0
    }

    /// Keys in order (chunk first).
    pub fn keys(&self) -> (r: Vec<BrickKey>)
        requires
            self.wf(),
        ensures
            increasing(r@),
            r@.to_set() == self@.dom(),
    {
        let mut out: Vec<BrickKey> = Vec::new();
        let n: usize = self.shards.by_chunk.len();
        proof {
            self.shards.by_chunk.lemma_order();
        }
        let mut i: usize = 0;
        while i < n
            invariant
                i <= n,
                n == self.shards.by_chunk.keys().len(),
                n == self.shards.by_chunk.vals().len(),
                self.shaped(),
                forall|j: int|
                    0 <= j < n ==> self.shards.by_chunk@.dom().contains(#[trigger] self.shards.by_chunk.keys()[j])
                        && self.shards.by_chunk@[self.shards.by_chunk.keys()[j]] == self.shards.by_chunk.vals()[j],
                increasing(out@),
                forall|q: int|
                    0 <= q < out@.len() ==> self@.dom().contains(#[trigger] out@[q]) && among(
                        self.shards.by_chunk.keys(),
                        i as int,
                        out@[q].spec_chunk(),
                    ),
                forall|k: BrickKey| #[trigger]
                    self@.dom().contains(k) && among(self.shards.by_chunk.keys(), i as int, k.spec_chunk()) ==> out@.contains(k),
            decreases n - i,
        {
            let ghost c = self.shards.by_chunk.keys()[i as int];
            let shard = self.shards.by_chunk.val_at(i);
            let entries = &shard.entries;
            assert(self.shards.by_chunk@.dom().contains(c));
            assert(*entries == self.shards.by_chunk@[c].entries);
            let m: usize = entries.len();
            proof {
                entries.lemma_order();
                lemma_among(self.shards.by_chunk.keys(), i as int);
            }
            let ghost start = out@;
            let mut j: usize = 0;
            while j < m
                invariant
                    j <= m,
                    m == entries.keys().len(),
                    i < n,
                    n == self.shards.by_chunk.keys().len(),
                    c == self.shards.by_chunk.keys()[i as int],
                    entries.wf(),
                    self.shaped(),
                    self.shards.by_chunk@.dom().contains(c),
                    *entries == self.shards.by_chunk@[c].entries,
                    increasing(start),
                    forall|q: int| 0 <= q < start.len() ==> among(self.shards.by_chunk.keys(), i as int, (#[trigger] start[q]).spec_chunk()),
                    forall|q: int| 0 <= q < m ==> entries@.dom().contains(#[trigger] entries.keys()[q]),
                    out@ =~= start + entries.keys().take(j as int),
                decreases m - j,
            {
                out.push(entries.key_at(j));
                j += 1;
            }
            proof {
                let es = entries.keys();
                assert(es.take(m as int) =~= es);
                assert(out@ =~= start + es);
                assert forall|a: int, b: int| 0 <= a < b < out@.len() implies (#[trigger] out@[a]).lt(#[trigger] out@[b]) by {
                    if b < start.len() {
                        assert(start[a].lt(start[b]));
                    } else if a >= start.len() {
                        assert(es[a - start.len()].lt(es[b - start.len()]));
                    } else {
                        let x = start[a];
                        let y = es[b - start.len()];
                        assert(among(self.shards.by_chunk.keys(), i as int, x.spec_chunk()));
                        let q = choose|q: int| 0 <= q < i && #[trigger] self.shards.by_chunk.keys()[q] == x.spec_chunk();
                        assert(self.shards.by_chunk.keys()[q].lt(self.shards.by_chunk.keys()[i as int]));
                        assert(entries@.dom().contains(y));
                        assert(self.shards.by_chunk@[c].entries@.dom().contains(y));
                        assert(y.spec_chunk() == c);
                    }
                }
                assert forall|q: int| 0 <= q < out@.len() implies self@.dom().contains(#[trigger] out@[q]) && among(
                    self.shards.by_chunk.keys(),
                    i + 1,
                    out@[q].spec_chunk(),
                ) by {
                    if q >= start.len() {
                        let y = es[q - start.len()];
                        assert(entries@.dom().contains(y));
                        assert(self.shards.by_chunk@[c].entries@.dom().contains(y));
                        assert(y.spec_chunk() == c);
                    } else {
                        assert(out@[q] == start[q]);
                    }
                }
                assert forall|k: BrickKey| #[trigger] self@.dom().contains(k) && among(self.shards.by_chunk.keys(), i + 1, k.spec_chunk()) implies out@.contains(k) by {
                    if k.spec_chunk() == c {
                        assert(entries@.dom().contains(k));
                        let q = choose|q: int| 0 <= q < es.len() && es[q] == k;
                        assert(out@[start.len() + q] == k);
                    } else {
                        assert(start.contains(k));
                        let q = choose|q: int| 0 <= q < start.len() && start[q] == k;
                        assert(out@[q] == k);
                    }
                }
            }
            i += 1;
        }
        proof {
            assert(out@.to_set() =~= self@.dom()) by {
                assert forall|k: BrickKey| out@.to_set().contains(k) <==> self@.dom().contains(k) by {
                    if out@.contains(k) {
                        let q = choose|q: int| 0 <= q < out@.len() && out@[q] == k;
                        assert(self@.dom().contains(out@[q]));
                    }
                    if self@.dom().contains(k) {
                        assert(among(self.shards.by_chunk.keys(), n as int, k.spec_chunk()));
                    }
                }
            }
        }
        out
    }

    /// The entry of `key`, if the brick is in the snapshot.
    pub fn entry(&self, key: BrickKey) -> (r: Option<Entry>)
        requires
            self.wf(),
        ensures
            match r {
                Some(e) => self@.dom().contains(key) && e == self@[key],
                None => !self@.dom().contains(key),
            },
    {
        match self.shards.by_chunk.get(&key.chunk()) {
            None => None,
            Some(s) => match s.entries.get(&key) {
                Some(e) => Some(*e),
                None => None,
            },
        }
    }

    pub fn handle(&self, key: BrickKey) -> (r: Option<Handle>)
        requires
            self.wf(),
        ensures
            match r {
                Some(h) => self@.dom().contains(key) && h == self@[key].handle,
                None => !self@.dom().contains(key),
            },
    {
        match self.entry(key) {
            Some(e) => Some(e.handle),
            None => None,
        }
    }

    pub fn record(&self, key: BrickKey) -> (r: Option<InputRecord>)
        requires
            self.wf(),
        ensures
            match r {
                Some(x) => self@.dom().contains(key) && x == self@[key].record,
                None => !self@.dom().contains(key),
            },
    {
        match self.entry(key) {
            Some(e) => Some(e.record),
            None => None,
        }
    }

    /// The chunks whose shard is the same in both snapshots: one publication of one pipeline made it.
    pub open spec fn shared_chunks(&self, other: &Snapshot) -> Set<ChunkCoord> {
        Set::new(
            |c: ChunkCoord|
                {
                    &&& self.origin() == other.origin()
                    &&& self.stamps().dom().contains(c)
                    &&& other.stamps().dom().contains(c)
                    &&& self.stamps()[c] == other.stamps()[c]
                },
        )
    }

    /// A snapshot shares every shard with itself, and with another no more than it has.
    pub proof fn law_snapshots_share_their_own_shards(&self, other: &Snapshot)
        requires
            self.wf(),
        ensures
            self.stamps().dom().finite(),
            self.shared_chunks(self) == self.stamps().dom(),
            self.shared_chunks(other).finite(),
            self.shared_chunks(other).len() <= self.stamps().dom().len(),
    {
        self.shards.by_chunk.lemma_order();
        assert(self.stamps().dom() =~= self.shards.by_chunk@.dom());
        assert(self.shared_chunks(self) =~= self.stamps().dom());
        assert(self.shared_chunks(other).subset_of(self.stamps().dom()));
        vstd::set_lib::lemma_len_subset(self.shared_chunks(other), self.stamps().dom());
    }

    /// Number of chunk shards, and how many of them this snapshot shares with `other`. Snapshots of two
    /// pipelines share none.
    pub fn shards_shared_with(&self, other: &Snapshot) -> (r: (usize, usize))
        requires
            self.wf(),
            other.wf(),
        ensures
            r.0 == self.stamps().dom().len(),
            r.1 == self.shared_chunks(other).len(),
            self.stamps().dom().finite(),
            self.shared_chunks(other).finite(),
    {
        let n: usize = self.shards.by_chunk.len();
        proof {
            self.shards.by_chunk.lemma_order();
            assert(self.stamps().dom() =~= self.shards.by_chunk@.dom());
        }
        let kin = same_mark(&self.shards.mark, &other.shards.mark);
        let mut shared: usize = 0;
        let ghost mut found: Set<ChunkCoord> = Set::empty();
        let mut i: usize = 0;
        while i < n
            invariant
                i <= n,
                n == self.shards.by_chunk.keys().len(),
                n == self.shards.by_chunk.vals().len(),
                self.shards.by_chunk.wf(),
                other.shards.by_chunk.wf(),
                self.shards.by_chunk.keys().no_duplicates(),
                forall|j: int|
                    0 <= j < n ==> self.shards.by_chunk@.dom().contains(#[trigger] self.shards.by_chunk.keys()[j])
                        && self.shards.by_chunk@[self.shards.by_chunk.keys()[j]] == self.shards.by_chunk.vals()[j],
                kin == (self.origin() == other.origin()),
                shared <= i,
                found.finite(),
                found.len() == shared,
                forall|c: ChunkCoord| #[trigger]
                    found.contains(c) <==> among(self.shards.by_chunk.keys(), i as int, c) && self.shared_chunks(other).contains(c),
            decreases n - i,
        {
            let c = self.shards.by_chunk.key_at(i);
            let s = self.shards.by_chunk.val_at(i);
            assert(self.shards.by_chunk.keys()[i as int] == c);
            proof {
                lemma_among(self.shards.by_chunk.keys(), i as int);
                if among(self.shards.by_chunk.keys(), i as int, c) {
                    let q = choose|q: int| 0 <= q < i && #[trigger] self.shards.by_chunk.keys()[q] == c;
                    assert(self.shards.by_chunk.keys()[q] != self.shards.by_chunk.keys()[i as int]);
                }
            }
            if let Some(o) = other.shards.by_chunk.get(&c) {
                if kin && o.stamp == s.stamp {
                    proof {
                        assert(self.shared_chunks(other).contains(c));
                        found = found.insert(c);
                    }
                    shared = shared + 1;
                }
            }
            i += 1;
        }
        assert(found =~= self.shared_chunks(other)) by {
            assert forall|c: ChunkCoord| found.contains(c) <==> self.shared_chunks(other).contains(c) by {
                if self.shared_chunks(other).contains(c) {
                    assert(among(self.shards.by_chunk.keys(), n as int, c));
                }
            }
        }
        (n, shared)
    }

    /// The same table under a new number, sharing every shard.
    pub(crate) fn successor(&self, id: u64, version: ContentVersion) -> (r: Snapshot)
        requires
            self.wf(),
            self.spec_id() < id,
        ensures
            r.wf(),
            r.spec_id() == id,
            r.spec_version() == version,
            r.origin() == self.origin(),
            r@ == self@,
            r.stamps() == self.stamps(),
    {
        let mut shards: SortedMap<ChunkCoord, Arc<Shard>> = SortedMap::new();
        let n: usize = self.shards.by_chunk.len();
        proof {
            self.shards.by_chunk.lemma_order();
        }
        let mut i: usize = 0;
        while i < n
            invariant
                i <= n,
                n == self.shards.by_chunk.keys().len(),
                n == self.shards.by_chunk.vals().len(),
                self.shards.by_chunk.wf(),
                shards.wf(),
                forall|j: int|
                    0 <= j < n ==> self.shards.by_chunk@.dom().contains(#[trigger] self.shards.by_chunk.keys()[j])
                        && self.shards.by_chunk@[self.shards.by_chunk.keys()[j]] == self.shards.by_chunk.vals()[j],
                forall|c: ChunkCoord| #[trigger] shards@.dom().contains(c) <==> among(self.shards.by_chunk.keys(), i as int, c),
                forall|c: ChunkCoord| #[trigger] shards@.dom().contains(c) ==> shards@[c] == self.shards.by_chunk@[c],
            decreases n - i,
        {
            let c = self.shards.by_chunk.key_at(i);
            proof {
                lemma_among(self.shards.by_chunk.keys(), i as int);
                assert(self.shards.by_chunk@.dom().contains(self.shards.by_chunk.keys()[i as int]));
            }
            shards.insert(c, share(self.shards.by_chunk.val_at(i)));
            i += 1;
        }
        assert(shards@ =~= self.shards.by_chunk@);
        let r = Snapshot {
            id: SnapshotId { number: id },
            world_version: version,
            shards: Shards { mark: share(&self.shards.mark), by_chunk: shards, len: self.shards.len },
        };
        assert(r@ =~= self@);
        assert(r.stamps() =~= self.stamps());
        r
    }

    /// Replaces the entry of `key` (`None` removes it), in a shard of this snapshot's own. The
    /// entry that was there.
    pub(crate) fn put(&mut self, key: BrickKey, entry: Option<Entry>) -> (r: Option<Entry>)
        requires
            old(self).wf(),
            entry is Some ==> old(self)@.dom().insert(key).len() <= usize::MAX,
        ensures
            final(self).wf(),
            final(self).spec_id() == old(self).spec_id(),
            final(self).spec_version() == old(self).spec_version(),
            final(self).origin() == old(self).origin(),
            final(self)@ == match entry {
                Some(e) => old(self)@.insert(key, e),
                None => old(self)@.remove(key),
            },
            match r {
                Some(e) => old(self)@.dom().contains(key) && e == old(self)@[key],
                None => !old(self)@.dom().contains(key),
            },
            forall|c: ChunkCoord|
                c != key.spec_chunk() ==> (#[trigger] final(self).stamps().dom().contains(c) <==> old(
                    self,
                ).stamps().dom().contains(c)) && (final(self).stamps().dom().contains(c) ==> final(self).stamps()[c] == old(
                    self,
                ).stamps()[c]),
            final(self).stamps().dom().contains(key.spec_chunk()) ==> final(self).stamps()[key.spec_chunk()] == old(
                self,
            ).spec_id(),
    {
        let ghost before = *self;
        let c = key.chunk();
        let mut entries = match self.shards.by_chunk.get(&c) {
            Some(s) => s.entries.copy(),
            None => SortedMap::new(),
        };
        let ghost had = entries@;
        let removed = entries.remove(&key);
        let mut len: usize = self.shards.len;
        proof {
            assert(had.dom().contains(key) == before@.dom().contains(key));
            if before@.dom().contains(key) {
                assert(before@.dom().len() >= 1);
            }
        }
        if removed.is_some() {
            len = len - 1;
        }
        let ghost want = match entry {
            Some(e) => before@.insert(key, e),
            None => before@.remove(key),
        };
        proof {
            match entry {
                Some(e) => {
                    assert(want.dom() =~= before@.dom().insert(key));
                },
                None => {
                    assert(want.dom() =~= before@.dom().remove(key));
                },
            }
        }
        if let Some(e) = entry {
            entries.insert(key, e);
            assert(len + 1 == want.dom().len());
            len = len + 1;
        }
        self.shards.len = len;
        let ghost now = entries@;
        let empty = entries.is_empty();
        if empty {
            self.shards.by_chunk.remove(&c);
        } else {
            self.shards.by_chunk.insert(c, Arc::new(Shard { stamp: self.id.number, entries }));
        }
        proof {
            assert(now =~= match entry {
                Some(e) => had.insert(key, e),
                None => had.remove(key),
            });
            assert forall|k: BrickKey| #[trigger] had.dom().contains(k) implies k.spec_chunk() == c && before@.dom().contains(k)
                && before@[k] == had[k] by {
                assert(before.shards.by_chunk@[c].entries@.dom().contains(k));
            }
            assert forall|k: BrickKey| k.spec_chunk() == c && #[trigger] before@.dom().contains(k) implies had.dom().contains(k) by {}
            assert(self@ =~= want) by {
                assert forall|k: BrickKey| self@.dom().contains(k) <==> want.dom().contains(k) by {
                    if k.spec_chunk() == c {
                        assert(now.dom().contains(k) == want.dom().contains(k));
                        if empty {
                            assert(!now.dom().contains(k));
                        }
                    } else {
                        assert(self.shards.by_chunk@.dom().contains(k.spec_chunk()) == before.shards.by_chunk@.dom().contains(k.spec_chunk()));
                    }
                }
                assert forall|k: BrickKey| self@.dom().contains(k) implies self@[k] == want[k] by {
                    if k.spec_chunk() == c {
                        assert(now.dom().contains(k));
                    }
                }
            }
            assert forall|q: ChunkCoord, k: BrickKey|
                self.shards.by_chunk@.dom().contains(q) && #[trigger] self.shards.by_chunk@[q].entries@.dom().contains(k) implies k.spec_chunk() == q by {
                if q == c {
                    assert(now.dom().contains(k));
                } else {
                    assert(before.shards.by_chunk@[q].entries@.dom().contains(k));
                }
            }
            assert forall|q: ChunkCoord| #[trigger] self.shards.by_chunk@.dom().contains(q) implies self.shards.by_chunk@[q].entries@
                != Map::<BrickKey, Entry>::empty() && self.shards.by_chunk@[q].entries.wf() by {
                if q != c {
                    assert(before.shards.by_chunk@.dom().contains(q));
                }
            }
            assert forall|q: ChunkCoord| #[trigger] self.stamps().dom().contains(q) implies self.stamps()[q] <= self.spec_id() by {
                if q != c {
                    assert(before.stamps().dom().contains(q));
                }
            }
        }
        removed
    }
}

} // verus!
