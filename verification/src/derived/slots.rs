//! Generational slot pool.
//!
//! A `Handle` names a slot and the generation at which it was allocated. Freeing a slot bumps its
//! generation, so every handle to the old occupant stops resolving before the slot is reused.
//! A slot whose generation would wrap is retired permanently instead of being reused.
use crate::sorted::{Key, SortedMap};
use vstd::prelude::*;

verus! {

/// Physical allocation identity. Only valid for the pool that issued it.
#[derive(Clone, Copy, Debug, PartialEq, Eq, PartialOrd, Ord, Hash, Structural)]
pub struct Handle {
    index: u32,
    generation: u32,
}

impl Handle {
    pub closed spec fn spec_index(self) -> u32 {
        self.index
    }

    pub closed spec fn spec_generation(self) -> u32 {
        self.generation
    }

    pub fn index(self) -> (r: u32)
        ensures
            r == self.spec_index(),
    {
        self.index
    }

    pub fn generation(self) -> (r: u32)
        ensures
            r == self.spec_generation(),
    {
        self.generation
    }
}

#[derive(Debug)]
struct Slot<T> {
    generation: u32,
    value: Option<T>,
}

#[derive(Clone, Copy, Debug, PartialEq, Eq, Structural)]
pub struct PoolStats {
    pub live: usize,
    pub slots: usize,
    pub allocations: u64,
    pub frees: u64,
    /// Slots taken out of service because their generation counter would wrap.
    pub exhausted_slots: usize,
}

impl Default for PoolStats {
    fn default() -> (r: PoolStats)
        ensures
            r == (PoolStats { live: 0, slots: 0, allocations: 0, frees: 0, exhausted_slots: 0 }),
    {
        PoolStats { live: 0, slots: 0, allocations: 0, frees: 0, exhausted_slots: 0 }
    }
}

#[derive(Debug)]
pub struct SlotPool<T> {
    slots: Vec<Slot<T>>,
    /// Free slot indices, reused lowest-first so allocation order is deterministic.
    free: SortedMap<u32, ()>,
    stats: PoolStats,
}

impl<T> View for SlotPool<T> {
    type V = Map<Handle, T>;

    /// The live handles and their values.
    closed spec fn view(&self) -> Map<Handle, T> {
        Map::new(
            |h: Handle|
                h.index < self.slots@.len() && self.slots@[h.index as int].generation == h.generation
                    && self.slots@[h.index as int].value is Some,
            |h: Handle| self.slots@[h.index as int].value->0,
        )
    }
}

impl<T> SlotPool<T> {
    pub closed spec fn spec_stats(&self) -> PoolStats {
        self.stats
    }

    /// The indices of the slots that wait for reuse.
    pub closed spec fn vacant(&self) -> Set<u32> {
        self.free@.dom()
    }

    /// How many slots there are.
    pub closed spec fn width(&self) -> int {
        self.slots@.len() as int
    }

    /// The generation of each slot: that of its occupant, or of the next one.
    pub closed spec fn generations(&self) -> Seq<u32> {
        Seq::new(self.slots@.len(), |i: int| self.slots@[i].generation)
    }

    /// Handles that were issued and freed.
    pub closed spec fn spent(&self, h: Handle) -> bool {
        &&& h.index < self.slots@.len()
        &&& {
            ||| h.generation < self.slots@[h.index as int].generation
            ||| h.generation == self.slots@[h.index as int].generation && self.slots@[h.index as int].value is None
                && !self.free@.dom().contains(h.index)
        }
    }

    pub closed spec fn wf(&self) -> bool {
        &&& self.free.wf()
        &&& self.slots@.len() <= u32::MAX + 1
        &&& forall|i: u32| #[trigger]
            self.free@.dom().contains(i) ==> i < self.slots@.len() && self.slots@[i as int].value is None
        &&& forall|i: int|
            0 <= i < self.slots@.len() && (#[trigger] self.slots@[i]).value is None ==> self.free@.dom().contains(i as u32)
                || self.slots@[i].generation == u32::MAX
        &&& self@.dom().finite()
        &&& self@.dom().len() == self.stats.live
        &&& self.stats.slots == self.slots@.len()
        &&& self.stats.live + self.free@.dom().len() + self.stats.exhausted_slots == self.slots@.len()
        &&& self.stats.frees + self.stats.live == self.stats.allocations
    }

    /// A spent handle does not resolve.
    pub proof fn law_spent_handles_do_not_resolve(&self, h: Handle)
        requires
            self.wf(),
            self.spent(h),
        ensures
            !self@.dom().contains(h),
    {
    }

    pub proof fn lemma_counts(&self)
        requires
            self.wf(),
        ensures
            self@.dom().finite(),
            self@.dom().len() == self.spec_stats().live,
            self.spec_stats().slots == self.width(),
            self.spec_stats().live <= self.width(),
            self.spec_stats().frees + self.spec_stats().live == self.spec_stats().allocations,
            forall|i: u32| #[trigger] self.vacant().contains(i) ==> i < self.width(),
            self.generations().len() == self.width(),
            forall|h: Handle| #[trigger]
                self@.dom().contains(h) ==> h.spec_index() < self.width() && self.generations()[h.spec_index() as int] == h.spec_generation(),
    {
    }

    pub fn new() -> (r: SlotPool<T>)
        ensures
            r.wf(),
            r@ == Map::<Handle, T>::empty(),
            r.vacant() == Set::<u32>::empty(),
            r.width() == 0,
            r.generations() == Seq::<u32>::empty(),
            r.spec_stats() == (PoolStats { live: 0, slots: 0, allocations: 0, frees: 0, exhausted_slots: 0 }),
            forall|h: Handle| !r.spent(h),
    {
        let r = SlotPool { slots: Vec::new(), free: SortedMap::new(), stats: PoolStats::default() };
        assert(r@ =~= Map::<Handle, T>::empty());
        assert(r@.dom() =~= Set::<Handle>::empty());
        r
    }

    /// Stores `value` in the lowest free slot, or in a new one.
    pub fn allocate(&mut self, value: T) -> (h: Handle)
        requires
            old(self).wf(),
            old(self).width() <= u32::MAX,
            old(self).spec_stats().allocations < u64::MAX,
        ensures
            final(self).wf(),
            !old(self)@.dom().contains(h),
            !old(self).spent(h),
            final(self)@ == old(self)@.insert(h, value),
            forall|x: Handle| #[trigger] final(self).spent(x) == old(self).spent(x),
            old(self).vacant() == Set::<u32>::empty() ==> {
                &&& h.spec_index() == old(self).width()
                &&& h.spec_generation() == 0
                &&& final(self).generations() == old(self).generations().push(0)
                &&& final(self).width() == old(self).width() + 1
                &&& final(self).vacant() == Set::<u32>::empty()
            },
            old(self).vacant() != Set::<u32>::empty() ==> {
                &&& old(self).vacant().contains(h.spec_index())
                &&& forall|i: u32| #[trigger] old(self).vacant().contains(i) ==> h.spec_index() <= i
                &&& final(self).width() == old(self).width()
                &&& final(self).vacant() == old(self).vacant().remove(h.spec_index())
                &&& h.spec_generation() == old(self).generations()[h.spec_index() as int]
                &&& final(self).generations() == old(self).generations()
            },
            final(self).spec_stats() == (PoolStats {
                live: (old(self).spec_stats().live + 1) as usize,
                slots: final(self).width() as usize,
                allocations: (old(self).spec_stats().allocations + 1) as u64,
                ..old(self).spec_stats()
            }),
    {
        let ghost before = *self;
        proof {
            self.free.lemma_order();
        }
        let h;
        if self.free.len() > 0 {
            let index: u32 = self.free.key_at(0);
            self.free.remove(&index);
            let generation: u32 = self.slots[index as usize].generation;
            self.slots.set(index as usize, Slot { generation, value: Some(value) });
            h = Handle { index, generation };
            proof {
                assert(before.free@.dom().contains(index));
                assert forall|i: u32| #[trigger] before.free@.dom().contains(i) implies index <= i by {
                    let j = choose|j: int| 0 <= j < before.free.keys().len() && before.free.keys()[j] == i;
                    if j > 0 {
                        assert(before.free.keys()[0].lt(before.free.keys()[j]));
                    }
                }
            }
        } else {
            let index: u32 = self.slots.len() as u32;
            self.slots.push(Slot { generation: 0, value: Some(value) });
            h = Handle { index, generation: 0 };
            assert(before.free@.dom() =~= Set::<u32>::empty());
        }
        let live: usize = self.stats.live;
        let width: usize = self.slots.len();
        assert(live < width);
        self.stats = PoolStats {
            live: live + 1,
            slots: width,
            allocations: self.stats.allocations + 1,
            frees: self.stats.frees,
            exhausted_slots: self.stats.exhausted_slots,
        };
        proof {
            if before.vacant() == Set::<u32>::empty() {
                assert(self.generations() =~= before.generations().push(0));
            } else {
                assert(self.generations() =~= before.generations());
            }
            assert(self@ =~= before@.insert(h, value)) by {
                assert forall|x: Handle| self@.dom().contains(x) <==> before@.insert(h, value).dom().contains(x) by {
                    if x.index != h.index && x.index < before.slots@.len() {
                        assert(self.slots@[x.index as int] == before.slots@[x.index as int]);
                    }
                }
                assert forall|x: Handle| self@.dom().contains(x) implies self@[x] == before@.insert(h, value)[x] by {
                    if x.index != h.index && x.index < before.slots@.len() {
                        assert(self.slots@[x.index as int] == before.slots@[x.index as int]);
                    }
                }
            }
            assert(self@.dom() =~= before@.dom().insert(h));
            assert forall|x: Handle| #[trigger] self.spent(x) == before.spent(x) by {
                if x.index != h.index && x.index < before.slots@.len() {
                    assert(self.slots@[x.index as int] == before.slots@[x.index as int]);
                }
            }
            assert forall|i: int| 0 <= i < self.slots@.len() && (#[trigger] self.slots@[i]).value is None implies self.free@.dom().contains(
                i as u32,
            ) || self.slots@[i].generation == u32::MAX by {
                assert(self.slots@[i] == before.slots@[i]);
            }
        }
        h
    }

    /// Resolves a handle. `None` if the slot was freed or reused since the handle was issued.
    pub fn get(&self, h: Handle) -> (r: Option<&T>)
        ensures
            match r {
                Some(v) => self@.dom().contains(h) && *v == self@[h],
                None => !self@.dom().contains(h),
            },
    {
        if (h.index as usize) < self.slots.len() && self.slots[h.index as usize].generation == h.generation {
            self.slots[h.index as usize].value.as_ref()
        } else {
            None
        }
    }

    /// Frees the slot and invalidates every handle to it. Returns the value, or `None` for a stale
    /// handle (a double free is therefore harmless and detectable).
    pub fn free(&mut self, h: Handle) -> (r: Option<T>)
        requires
            old(self).wf(),
        ensures
            final(self).wf(),
            forall|x: Handle| #[trigger] final(self).spent(x) == (old(self).spent(x) || (x == h && old(self)@.dom().contains(h))),
            match r {
                Some(v) => {
                    &&& old(self)@.dom().contains(h)
                    &&& v == old(self)@[h]
                    &&& final(self)@ == old(self)@.remove(h)
                    &&& final(self).width() == old(self).width()
                    &&& final(self).generations() == if h.spec_generation() < u32::MAX {
                        old(self).generations().update(h.spec_index() as int, (h.spec_generation() + 1) as u32)
                    } else {
                        old(self).generations()
                    }
                    &&& final(self).vacant() == if h.spec_generation() < u32::MAX {
                        old(self).vacant().insert(h.spec_index())
                    } else {
                        old(self).vacant()
                    }
                    &&& final(self).spec_stats() == (PoolStats {
                        live: (old(self).spec_stats().live - 1) as usize,
                        frees: (old(self).spec_stats().frees + 1) as u64,
                        exhausted_slots: (old(self).spec_stats().exhausted_slots + if h.spec_generation() < u32::MAX {
                            0int
                        } else {
                            1int
                        }) as usize,
                        ..old(self).spec_stats()
                    })
                },
                None => !old(self)@.dom().contains(h) && *final(self) == *old(self),
            },
    {
        let i: usize = h.index as usize;
        if i >= self.slots.len() || self.slots[i].generation != h.generation || self.slots[i].value.is_none() {
            return None;
        }
        let ghost before = *self;
        let next: u32 = if h.generation < u32::MAX {
            h.generation + 1
        } else {
            h.generation
        };
        let mut slot = Slot { generation: next, value: None };
        std::mem::swap(&mut slot, &mut self.slots[i]);
        let mut exhausted: usize = self.stats.exhausted_slots;
        proof {
            assert(before@.dom().contains(h));
            self.free.lemma_order();
        }
        if h.generation < u32::MAX {
            self.free.insert(h.index, ());
        } else {
            exhausted = exhausted + 1;
        }
        self.stats = PoolStats {
            live: self.stats.live - 1,
            slots: self.stats.slots,
            allocations: self.stats.allocations,
            frees: self.stats.frees + 1,
            exhausted_slots: exhausted,
        };
        proof {
            assert(self.slots@ =~= before.slots@.update(i as int, Slot { generation: next, value: None }));
            assert(self.generations() =~= before.generations().update(i as int, next));
            assert(before.generations().update(i as int, before.slots@[i as int].generation) =~= before.generations());
            assert(!before.free@.dom().contains(h.index));
            assert(self@ =~= before@.remove(h)) by {
                assert forall|x: Handle| self@.dom().contains(x) <==> before@.remove(h).dom().contains(x) by {
                    if x.index != h.index && x.index < before.slots@.len() {
                        assert(self.slots@[x.index as int] == before.slots@[x.index as int]);
                    }
                }
                assert forall|x: Handle| self@.dom().contains(x) implies self@[x] == before@.remove(h)[x] by {
                    assert(self.slots@[x.index as int] == before.slots@[x.index as int]);
                }
            }
            assert(self@.dom() =~= before@.dom().remove(h));
            assert forall|x: Handle| #[trigger] self.spent(x) == (before.spent(x) || (x == h && before@.dom().contains(h))) by {
                if x.index != h.index && x.index < before.slots@.len() {
                    assert(self.slots@[x.index as int] == before.slots@[x.index as int]);
                }
            }
            assert forall|j: int| 0 <= j < self.slots@.len() && (#[trigger] self.slots@[j]).value is None implies self.free@.dom().contains(
                j as u32,
            ) || self.slots@[j].generation == u32::MAX by {
                if j != i {
                    assert(self.slots@[j] == before.slots@[j]);
                }
            }
        }
        slot.value
    }

    pub fn stats(&self) -> (r: PoolStats)
        ensures
            r == self.spec_stats(),
    {
        self.stats
    }

    /// Moves a live slot on to a later generation. The handle to its occupant from now on.
    pub fn force_generation(&mut self, h: Handle, generation: u32) -> (r: Option<Handle>)
        requires
            old(self).wf(),
        ensures
            final(self).wf(),
            match r {
                Some(n) => {
                    &&& old(self)@.dom().contains(h)
                    &&& h.spec_generation() <= generation
                    &&& n.spec_index() == h.spec_index()
                    &&& n.spec_generation() == generation
                    &&& final(self)@ == old(self)@.remove(h).insert(n, old(self)@[h])
                    &&& final(self).generations() == old(self).generations().update(h.spec_index() as int, generation)
                    &&& final(self).vacant() == old(self).vacant()
                    &&& final(self).width() == old(self).width()
                    &&& final(self).spec_stats() == old(self).spec_stats()
                },
                None => (!old(self)@.dom().contains(h) || generation < h.spec_generation()) && *final(self) == *old(self),
            },
    {
        let i: usize = h.index as usize;
        if i >= self.slots.len() || self.slots[i].generation != h.generation || self.slots[i].value.is_none() || generation
            < h.generation {
            return None;
        }
        let ghost before = *self;
        let n = Handle { index: h.index, generation };
        let mut slot = Slot { generation, value: None };
        std::mem::swap(&mut slot, &mut self.slots[i]);
        self.slots.set(i, Slot { generation, value: slot.value });
        proof {
            let v = before@[h];
            assert(self.slots@ =~= before.slots@.update(i as int, Slot { generation, value: Some(v) }));
            assert(self.generations() =~= before.generations().update(i as int, generation));
            assert(self@ =~= before@.remove(h).insert(n, v)) by {
                assert forall|x: Handle| self@.dom().contains(x) <==> before@.remove(h).insert(n, v).dom().contains(x) by {
                    if x.index != h.index && x.index < before.slots@.len() {
                        assert(self.slots@[x.index as int] == before.slots@[x.index as int]);
                    }
                }
                assert forall|x: Handle| self@.dom().contains(x) implies self@[x] == before@.remove(h).insert(n, v)[x] by {
                    if x.index != h.index {
                        assert(self.slots@[x.index as int] == before.slots@[x.index as int]);
                    }
                }
            }
            assert(before@.dom().contains(h));
            assert(self@.dom() =~= before@.dom().remove(h).insert(n));
            assert(!before@.dom().remove(h).contains(n));
            assert forall|j: int| 0 <= j < self.slots@.len() && (#[trigger] self.slots@[j]).value is None implies self.free@.dom().contains(
                j as u32,
            ) || self.slots@[j].generation == u32::MAX by {
                assert(self.slots@[j] == before.slots@[j]);
            }
        }
        Some(n)
    }
}

} // verus!
