//! The bounded work queue with its ordered overflow.
//!
//! At most `capacity` keys wait in order of arrival. Keys that do not fit wait in an overflow set,
//! which refills the queue in key order. Nothing is dropped, and the order is deterministic.
use crate::sorted::{Key, SortedMap};
use crate::world::BrickKey;
use std::collections::VecDeque;
use vstd::prelude::*;

verus! {

/// What happened to a key that was put in the queue.
#[derive(Clone, Copy, Debug, PartialEq, Eq, Structural)]
pub enum Enqueued {
    /// It was waiting already.
    Coalesced,
    Queued,
    /// The queue was full: it waits in the overflow.
    Deferred,
}

#[derive(Debug)]
pub struct WorkQueue {
    queue: VecDeque<BrickKey>,
    queued: SortedMap<BrickKey, ()>,
    overflow: SortedMap<BrickKey, ()>,
    capacity: usize,
}

/// `k` comes before every other key of `s`.
pub open spec fn least(s: Set<BrickKey>, k: BrickKey) -> bool {
    s.contains(k) && forall|x: BrickKey| #[trigger] s.contains(x) ==> x == k || k.lt(x)
}

/// The first key of `s`.
pub open spec fn least_of(s: Set<BrickKey>) -> BrickKey {
    choose|k: BrickKey| #[trigger] least(s, k)
}

/// The queue after its first key was taken: the first key of the overflow takes the free place.
pub open spec fn popped(line: Seq<BrickKey>, spill: Set<BrickKey>) -> (Seq<BrickKey>, Set<BrickKey>) {
    if spill == Set::<BrickKey>::empty() {
        (line.drop_first(), spill)
    } else {
        (line.drop_first().push(least_of(spill)), spill.remove(least_of(spill)))
    }
}

proof fn lemma_least(s: Set<BrickKey>, k: BrickKey)
    requires
        least(s, k),
    ensures
        least_of(s) == k,
{
    let l = least_of(s);
    assert(least(s, l));
    if l != k {
        BrickKey::lt_transitive(k, l, k);
        BrickKey::lt_irreflexive(k);
    }
}

impl WorkQueue {
    /// The keys in order of arrival.
    pub closed spec fn line(&self) -> Seq<BrickKey> {
        self.queue@
    }

    /// The keys that did not fit.
    pub closed spec fn spill(&self) -> Set<BrickKey> {
        self.overflow@.dom()
    }

    pub closed spec fn limit(&self) -> int {
        self.capacity as int
    }

    /// Every key that waits.
    pub open spec fn waits(&self, k: BrickKey) -> bool {
        self.line().contains(k) || self.spill().contains(k)
    }

    closed spec fn shaped(&self) -> bool {
        &&& self.queued.wf()
        &&& self.overflow.wf()
        &&& self.queued@.dom() == self.queue@.to_set()
    }

    pub closed spec fn wf(&self) -> bool {
        &&& self.shaped()
        &&& self.line().no_duplicates()
        &&& forall|k: BrickKey| #[trigger] self.spill().contains(k) ==> !self.line().contains(k)
        &&& self.line().len() <= self.limit()
        &&& self.line().len() < self.limit() ==> self.spill() == Set::<BrickKey>::empty()
        &&& 0 < self.limit()
    }

    /// The queue is bounded, holds no key twice, and overflows only when it is full.
    pub proof fn law_queue_is_bounded(&self)
        requires
            self.wf(),
        ensures
            self.line().len() <= self.limit(),
            self.line().no_duplicates(),
            forall|k: BrickKey| #[trigger] self.spill().contains(k) ==> !self.line().contains(k),
            self.spill() != Set::<BrickKey>::empty() ==> self.line().len() == self.limit(),
            self.spill().finite(),
    {
        self.overflow.lemma_order();
    }

    pub fn new(capacity: usize) -> (r: WorkQueue)
        requires
            capacity > 0,
        ensures
            r.wf(),
            r.line() == Seq::<BrickKey>::empty(),
            r.spill() == Set::<BrickKey>::empty(),
            r.limit() == capacity,
    {
        let r = WorkQueue { queue: VecDeque::new(), queued: SortedMap::new(), overflow: SortedMap::new(), capacity };
        assert(r.queue@ =~= Seq::<BrickKey>::empty());
        assert(r.queued@.dom() =~= r.queue@.to_set());
        assert(r.overflow@.dom() =~= Set::<BrickKey>::empty());
        r
    }

    pub fn queue_len(&self) -> (r: usize)
        ensures
            r == self.line().len(),
    {
        self.queue.len()
    }

    pub fn overflow_len(&self) -> (r: usize)
        requires
            self.wf(),
        ensures
            r == self.spill().len(),
    {
        self.overflow.len()
    }

    /// Adds `key` unless it waits already: to the queue, or to the overflow when the queue is full.
    pub fn enqueue(&mut self, key: BrickKey) -> (r: Enqueued)
        requires
            old(self).wf(),
        ensures
            final(self).wf(),
            final(self).limit() == old(self).limit(),
            r == (if old(self).waits(key) {
                Enqueued::Coalesced
            } else if old(self).line().len() < old(self).limit() {
                Enqueued::Queued
            } else {
                Enqueued::Deferred
            }),
            final(self).line() == if r == Enqueued::Queued {
                old(self).line().push(key)
            } else {
                old(self).line()
            },
            final(self).spill() == if r == Enqueued::Deferred {
                old(self).spill().insert(key)
            } else {
                old(self).spill()
            },
    {
        let ghost before = *self;
        if self.queued.contains(&key) || self.overflow.contains(&key) {
            return Enqueued::Coalesced;
        }
        assert(!before.line().contains(key));
        if self.queue.len() < self.capacity {
            self.queue.push_back(key);
            self.queued.insert(key, ());
            proof {
                assert(self.queue@ =~= before.queue@.push(key));
                assert(self.queued@.dom() =~= self.queue@.to_set()) by {
                    assert forall|x: BrickKey| self.queued@.dom().contains(x) <==> self.queue@.to_set().contains(x) by {
                        if before.queue@.contains(x) {
                            let j = choose|j: int| 0 <= j < before.queue@.len() && before.queue@[j] == x;
                            assert(self.queue@[j] == x);
                        }
                        if self.queue@.contains(x) {
                            let j = choose|j: int| 0 <= j < self.queue@.len() && self.queue@[j] == x;
                            if j < before.queue@.len() {
                                assert(before.queue@[j] == x);
                            }
                        }
                        assert(before.queued@.dom().contains(x) == before.queue@.to_set().contains(x));
                        assert(self.queue@[before.queue@.len() as int] == key);
                    }
                }
                assert forall|k: BrickKey| #[trigger] self.spill().contains(k) implies !self.line().contains(k) by {
                    if self.line().contains(k) {
                        let j = choose|j: int| 0 <= j < self.queue@.len() && self.queue@[j] == k;
                        assert(before.spill().contains(k));
                        if j < before.queue@.len() {
                            assert(before.queue@[j] == k);
                        }
                    }
                }
            }
            Enqueued::Queued
        } else {
            self.overflow.insert(key, ());
            proof {
                assert(self.overflow@.dom() =~= before.overflow@.dom().insert(key));
                assert forall|k: BrickKey| #[trigger] self.spill().contains(k) implies !self.line().contains(k) by {
                    if k != key {
                        assert(before.spill().contains(k));
                    }
                }
            }
            Enqueued::Deferred
        }
    }

    /// Takes the first key; the first of the overflow takes its place at the end.
    pub fn pop(&mut self) -> (r: Option<BrickKey>)
        requires
            old(self).wf(),
        ensures
            final(self).wf(),
            final(self).limit() == old(self).limit(),
            match r {
                None => {
                    &&& old(self).line().len() == 0
                    &&& old(self).spill() == Set::<BrickKey>::empty()
                    &&& final(self).line() == old(self).line()
                    &&& final(self).spill() == old(self).spill()
                },
                Some(k) => {
                    &&& old(self).line().len() > 0
                    &&& k == old(self).line()[0]
                    &&& (final(self).line(), final(self).spill()) == popped(old(self).line(), old(self).spill())
                    &&& final(self).line().len() + final(self).spill().len() + 1 == old(self).line().len() + old(self).spill().len()
                    &&& forall|x: BrickKey| #[trigger] final(self).waits(x) <==> old(self).waits(x) && x != k
                },
            },
    {
        let ghost before = *self;
        match self.queue.pop_front() {
            None => None,
            Some(key) => {
                self.queued.remove(&key);
                let ghost rest = before.queue@.drop_first();
                proof {
                    assert(self.queue@ =~= rest);
                    assert(before.queue@[0] == key);
                    assert(self.queued@.dom() =~= rest.to_set()) by {
                        assert forall|x: BrickKey| self.queued@.dom().contains(x) <==> rest.to_set().contains(x) by {
                            assert(before.queued@.dom().contains(x) == before.queue@.to_set().contains(x));
                            if rest.contains(x) {
                                let j = choose|j: int| 0 <= j < rest.len() && rest[j] == x;
                                assert(before.queue@[j + 1] == x);
                                assert(before.queue@.contains(x));
                            }
                            if before.queue@.contains(x) && x != key {
                                let j = choose|j: int| 0 <= j < before.queue@.len() && before.queue@[j] == x;
                                assert(rest[j - 1] == x);
                            }
                        }
                    }
                    assert forall|i: int, j: int| 0 <= i < rest.len() && 0 <= j < rest.len() && i != j implies rest[i]
                        != rest[j] by {
                        assert(before.queue@[i + 1] != before.queue@[j + 1]);
                    }
                    assert forall|k: BrickKey| #[trigger] self.spill().contains(k) implies !rest.contains(k) by {
                        assert(before.spill().contains(k));
                        if rest.contains(k) {
                            let j = choose|j: int| 0 <= j < rest.len() && rest[j] == k;
                            assert(before.queue@[j + 1] == k);
                            assert(before.line().contains(k));
                        }
                    }
                    self.overflow.lemma_order();
                }
                if self.overflow.len() > 0 {
                    let n = self.overflow.key_at(0);
                    proof {
                        let ks = before.overflow.keys();
                        assert forall|x: BrickKey| #[trigger] before.spill().contains(x) implies x == n || n.lt(x) by {
                            let j = choose|j: int| 0 <= j < ks.len() && ks[j] == x;
                            if j > 0 {
                                assert(ks[0].lt(ks[j]));
                            }
                        }
                        assert(least(before.spill(), n));
                        lemma_least(before.spill(), n);
                        assert(before.spill() != Set::<BrickKey>::empty());
                    }
                    let ghost mid = *self;
                    self.overflow.remove(&n);
                    self.queue.push_back(n);
                    self.queued.insert(n, ());
                    proof {
                        assert(self.overflow@.dom() =~= before.overflow@.dom().remove(n));
                        assert(self.queue@ =~= rest.push(n));
                        assert(!rest.contains(n));
                        assert(self.queued@.dom() =~= self.queue@.to_set()) by {
                            assert forall|x: BrickKey| self.queued@.dom().contains(x) <==> self.queue@.to_set().contains(x) by {
                                assert(mid.queued@.dom().contains(x) == rest.to_set().contains(x));
                                if rest.contains(x) {
                                    let j = choose|j: int| 0 <= j < rest.len() && rest[j] == x;
                                    assert(self.queue@[j] == x);
                                }
                                if self.queue@.contains(x) {
                                    let j = choose|j: int| 0 <= j < self.queue@.len() && self.queue@[j] == x;
                                    if j < rest.len() {
                                        assert(rest[j] == x);
                                    }
                                }
                                assert(self.queue@[rest.len() as int] == n);
                            }
                        }
                        assert forall|k: BrickKey| #[trigger] self.spill().contains(k) implies !self.line().contains(k) by {
                            assert(mid.spill().contains(k));
                            if self.line().contains(k) {
                                let j = choose|j: int| 0 <= j < self.queue@.len() && self.queue@[j] == k;
                                if j < rest.len() {
                                    assert(rest[j] == k);
                                }
                            }
                        }
                    }
                } else {
                    assert(before.overflow@.dom() =~= Set::<BrickKey>::empty());
                }
                proof {
                    assert forall|x: BrickKey| #[trigger] rest.contains(x) <==> before.line().contains(x) && x != key by {
                        if rest.contains(x) {
                            let j = choose|j: int| 0 <= j < rest.len() && rest[j] == x;
                            assert(before.queue@[j + 1] == x);
                            assert(before.queue@[0] != before.queue@[j + 1]);
                        }
                        if before.line().contains(x) && x != key {
                            let j = choose|j: int| 0 <= j < before.queue@.len() && before.queue@[j] == x;
                            assert(rest[j - 1] == x);
                        }
                    }
                    assert(before.line().contains(key));
                    assert forall|x: BrickKey| #[trigger] self.waits(x) <==> before.waits(x) && x != key by {
                        let t = self.line();
                        assert(rest.contains(x) <==> before.line().contains(x) && x != key);
                        if rest.contains(x) {
                            let j = choose|j: int| 0 <= j < rest.len() && rest[j] == x;
                            assert(t[j] == x);
                        }
                        if t.contains(x) {
                            let j = choose|j: int| 0 <= j < t.len() && t[j] == x;
                            if j < rest.len() {
                                assert(rest[j] == x);
                            }
                        }
                        if t.len() > rest.len() {
                            assert(t[rest.len() as int] == least_of(before.spill()));
                        }
                    }
                }
                Some(key)
            },
        }
    }
}

/// Popping takes the first key out of the line and no other key out of the queue: the others move up in order, and the
/// first key of the overflow, if it has one, goes to the end of the line.
pub proof fn law_popping_takes_the_first_key_only(line: Seq<BrickKey>, spill: Set<BrickKey>, k: BrickKey)
    requires
        line.len() > 0,
        line.no_duplicates(),
        forall|x: BrickKey| #[trigger] spill.contains(x) ==> !line.contains(x),
        spill == Set::<BrickKey>::empty() || exists|x: BrickKey| #[trigger] least(spill, x),
    ensures
        ({
            let (now, left) = popped(line, spill);
            &&& forall|i: int| 0 <= i < line.len() - 1 ==> #[trigger] now[i] == line[i + 1]
            &&& (now.contains(k) || left.contains(k)) <==> k != line[0] && (line.contains(k) || spill.contains(k))
            &&& spill == Set::<BrickKey>::empty() ==> now.len() == line.len() - 1 && left == spill
            &&& spill != Set::<BrickKey>::empty() ==> now.len() == line.len() && spill.contains(now.last()) && !left.contains(now.last()) && (left.contains(k)
                ==> now.last().lt(k))
        }),
{
    let (now, left) = popped(line, spill);
    let rest = line.drop_first();
    assert forall|i: int| 0 <= i < line.len() - 1 implies #[trigger] now[i] == line[i + 1] by {}
    if line.contains(k) && k != line[0] {
        let i = choose|i: int| 0 <= i < line.len() && line[i] == k;
        assert(now[i - 1] == k);
    }
    if spill != Set::<BrickKey>::empty() {
        let first = least_of(spill);
        assert(least(spill, first));
        assert(now[line.len() - 1] == first);
        if spill.contains(k) && k == line[0] {
            assert(line.contains(k));
        }
    }
    if now.contains(k) {
        let i = choose|i: int| 0 <= i < now.len() && now[i] == k;
        if i < line.len() - 1 {
            assert(line[i + 1] == k);
        } else {
            assert(!line.contains(k));
            assert(line.contains(line[0]));
        }
    }
    if left.contains(k) {
        assert(spill.contains(k));
        assert(line.contains(line[0]));
    }
}

} // verus!
