//! Publication groups: disjoint sets of keys that are published together.
use crate::sorted::{among, lemma_among, SortedMap};
use crate::world::BrickKey;
use vstd::prelude::*;

verus! {

#[derive(Debug)]
pub struct Groups {
    groups: SortedMap<u64, SortedMap<BrickKey, ()>>,
    group_of: SortedMap<BrickKey, u64>,
    next: u64,
}

impl Groups {
    /// The members of each group.
    pub closed spec fn sets(&self) -> Map<u64, Set<BrickKey>> {
        Map::new(|g: u64| self.groups@.dom().contains(g), |g: u64| self.groups@[g]@.dom())
    }

    /// The group of each member.
    pub closed spec fn of(&self) -> Map<BrickKey, u64> {
        self.group_of@
    }

    pub closed spec fn spec_next(&self) -> u64 {
        self.next
    }

    closed spec fn shaped(&self) -> bool {
        &&& self.groups.wf()
        &&& self.group_of.wf()
        &&& forall|g: u64| #[trigger] self.groups@.dom().contains(g) ==> self.groups@[g].wf()
    }

    pub closed spec fn wf(&self) -> bool {
        &&& self.shaped()
        &&& forall|g: u64| #[trigger] self.sets().dom().contains(g) ==> g < self.spec_next()
        &&& forall|k: BrickKey| #[trigger]
            self.of().dom().contains(k) ==> self.sets().dom().contains(self.of()[k]) && self.sets()[self.of()[k]].contains(k)
        &&& forall|g: u64, k: BrickKey|
            self.sets().dom().contains(g) && #[trigger] self.sets()[g].contains(k) ==> self.of().dom().contains(k)
                && self.of()[k] == g
        &&& forall|g: u64| #[trigger] self.sets().dom().contains(g) ==> exists|k: BrickKey| #[trigger] self.sets()[g].contains(k)
    }

    /// Groups are not empty and share no key, and every member knows its group.
    pub proof fn law_groups_partition_their_members(&self)
        requires
            self.wf(),
        ensures
            forall|k: BrickKey| #[trigger]
                self.of().dom().contains(k) ==> self.sets().dom().contains(self.of()[k]) && self.sets()[self.of()[k]].contains(k),
            forall|g: u64, k: BrickKey|
                self.sets().dom().contains(g) && #[trigger] self.sets()[g].contains(k) ==> self.of().dom().contains(k)
                    && self.of()[k] == g,
            forall|g: u64| #[trigger] self.sets().dom().contains(g) ==> exists|k: BrickKey| #[trigger] self.sets()[g].contains(k),
            forall|g: u64| #[trigger] self.sets().dom().contains(g) ==> g < self.spec_next(),
            forall|g: u64| #[trigger] self.sets().dom().contains(g) ==> self.sets()[g].finite(),
            self.sets() == Map::<u64, Set<BrickKey>>::empty() <==> self.of() == Map::<BrickKey, u64>::empty(),
    {
        assert forall|g: u64| #[trigger] self.sets().dom().contains(g) implies self.sets()[g].finite() by {
            assert(self.groups@.dom().contains(g));
            self.groups@[g].lemma_order();
        }
        if self.sets() == Map::<u64, Set<BrickKey>>::empty() {
            assert forall|k: BrickKey| !self.of().dom().contains(k) by {
                if self.of().dom().contains(k) {
                    assert(self.sets().dom().contains(self.of()[k]));
                }
            }
            assert(self.of() =~= Map::<BrickKey, u64>::empty());
        }
        if self.of() == Map::<BrickKey, u64>::empty() {
            assert forall|g: u64| !self.sets().dom().contains(g) by {
                if self.sets().dom().contains(g) {
                    let k = choose|k: BrickKey| #[trigger] self.sets()[g].contains(k);
                    assert(self.of().dom().contains(k));
                }
            }
            assert(self.sets() =~= Map::<u64, Set<BrickKey>>::empty());
        }
    }

    pub fn new() -> (r: Groups)
        ensures
            r.wf(),
            r.sets() == Map::<u64, Set<BrickKey>>::empty(),
            r.of() == Map::<BrickKey, u64>::empty(),
            r.spec_next() == 0,
    {
        let r = Groups { groups: SortedMap::new(), group_of: SortedMap::new(), next: 0 };
        assert(r.sets() =~= Map::<u64, Set<BrickKey>>::empty());
        r
    }

    pub fn is_empty(&self) -> (r: bool)
        requires
            self.wf(),
        ensures
            r == (self.sets() == Map::<u64, Set<BrickKey>>::empty()),
    {
        proof {
            if self.groups@ == Map::<u64, SortedMap<BrickKey, ()>>::empty() {
                assert(self.sets() =~= Map::<u64, Set<BrickKey>>::empty());
            } else if self.sets() == Map::<u64, Set<BrickKey>>::empty() {
                assert forall|g: u64| !self.groups@.dom().contains(g) by {
                    assert(!self.sets().dom().contains(g));
                }
                assert(self.groups@ =~= Map::<u64, SortedMap<BrickKey, ()>>::empty());
            }
        }
        self.groups.is_empty()
    }

    /// The group of `k`, if it has one.
    pub fn group(&self, k: BrickKey) -> (r: Option<u64>)
        requires
            self.wf(),
        ensures
            match r {
                Some(g) => self.of().dom().contains(k) && self.of()[k] == g,
                None => !self.of().dom().contains(k),
            },
    {
        match self.group_of.get(&k) {
            Some(g) => Some(*g),
            None => None,
        }
    }

    /// The members of group `g`, if there is one.
    pub fn members(&self, g: u64) -> (r: Option<&SortedMap<BrickKey, ()>>)
        requires
            self.wf(),
        ensures
            match r {
                Some(m) => self.sets().dom().contains(g) && m.wf() && m@.dom() == self.sets()[g],
                None => !self.sets().dom().contains(g),
            },
    {
        self.groups.get(&g)
    }

    /// The groups that have a key in `keys`.
    pub open spec fn touching(&self, keys: Set<BrickKey>) -> Set<u64> {
        Set::new(|g: u64| exists|k: BrickKey| #[trigger] keys.contains(k) && self.of().dom().contains(k) && self.of()[k] == g)
    }

    /// `keys` and the members of every group that they touch.
    pub open spec fn merged(&self, keys: Set<BrickKey>) -> Set<BrickKey> {
        Set::new(
            |k: BrickKey| keys.contains(k) || (self.of().dom().contains(k) && self.touching(keys).contains(self.of()[k])),
        )
    }

    /// No more groups are touched than there are keys.
    pub proof fn lemma_touching_bound(&self, keys: Set<BrickKey>)
        requires
            keys.finite(),
        ensures
            self.touching(keys).finite(),
            self.touching(keys).len() <= keys.len(),
        decreases keys.len(),
    {
        if keys.len() == 0 {
            assert(keys =~= Set::<BrickKey>::empty());
            assert(self.touching(keys) =~= Set::<u64>::empty());
        } else {
            let k = keys.choose();
            assert(keys.contains(k));
            let rest = self.touching(keys.remove(k));
            self.lemma_touching_bound(keys.remove(k));
            let all = if self.of().dom().contains(k) {
                rest.insert(self.of()[k])
            } else {
                rest
            };
            assert(self.touching(keys) =~= all) by {
                assert forall|g: u64| self.touching(keys).contains(g) <==> all.contains(g) by {
                    if self.touching(keys).contains(g) {
                        let x = choose|x: BrickKey| #[trigger] keys.contains(x) && self.of().dom().contains(x) && self.of()[x] == g;
                        if x != k {
                            assert(keys.remove(k).contains(x));
                        }
                    }
                    if rest.contains(g) {
                        let x = choose|x: BrickKey| #[trigger]
                            keys.remove(k).contains(x) && self.of().dom().contains(x) && self.of()[x] == g;
                        assert(keys.contains(x));
                    }
                }
            }
        }
    }

    /// Puts `keys` in one new group, together with every group that they touch. How many groups
    /// were merged, and how many members the new group has.
    pub fn merge(&mut self, keys: &SortedMap<BrickKey, ()>) -> (r: (u64, usize))
        requires
            old(self).wf(),
            keys.wf(),
            keys@.dom() != Set::<BrickKey>::empty(),
            old(self).spec_next() < u64::MAX,
        ensures
            final(self).wf(),
            final(self).spec_next() == old(self).spec_next() + 1,
            r.0 == old(self).touching(keys@.dom()).len(),
            old(self).touching(keys@.dom()).finite(),
            r.1 == old(self).merged(keys@.dom()).len(),
            final(self).sets() == old(self).sets().remove_keys(old(self).touching(keys@.dom())).insert(
                old(self).spec_next(),
                old(self).merged(keys@.dom()),
            ),
            forall|k: BrickKey| #[trigger]
                final(self).of().dom().contains(k) <==> old(self).of().dom().contains(k) || keys@.dom().contains(k),
            forall|k: BrickKey| #[trigger]
                final(self).of().dom().contains(k) ==> final(self).of()[k] == if old(self).merged(keys@.dom()).contains(k) {
                    old(self).spec_next()
                } else {
                    old(self).of()[k]
                },
    {
        let ghost before = *self;
        let ghost want = keys@.dom();
        let g: u64 = self.next;
        let n: usize = keys.len();
        proof {
            keys.lemma_order();
            before.law_groups_partition_their_members();
        }
        let mut members: SortedMap<BrickKey, ()> = SortedMap::new();
        let mut merged: u64 = 0;
        let ghost mut gone: Set<u64> = Set::empty();
        let mut i: usize = 0;
        while i < n
            invariant
                i <= n,
                n == keys.keys().len(),
                keys.wf(),
                want == keys@.dom(),
                forall|j: int| 0 <= j < n ==> want.contains(#[trigger] keys.keys()[j]),
                before.wf(),
                members.wf(),
                self.groups.wf(),
                self.group_of == before.group_of,
                self.next == before.next,
                gone.finite(),
                gone.len() == merged,
                merged <= i,
                forall|t: u64| #[trigger]
                    gone.contains(t) <==> exists|j: int|
                        0 <= j < i && before.of().dom().contains(#[trigger] keys.keys()[j]) && before.of()[keys.keys()[j]] == t,
                self.groups@ =~= before.groups@.remove_keys(gone),
                forall|k: BrickKey| #[trigger]
                    members@.dom().contains(k) <==> (among(keys.keys(), i as int, k) || (before.of().dom().contains(k)
                        && gone.contains(before.of()[k]))),
            decreases n - i,
        {
            let k = keys.key_at(i);
            let ghost gone0 = gone;
            let ghost members0 = members@;
            members.insert(k, ());
            let found = match self.group_of.get(&k) {
                Some(t) => Some(*t),
                None => None,
            };
            if let Some(t) = found {
                let taken = self.groups.remove(&t);
                if let Some(set) = taken {
                    proof {
                        assert(before.groups@.dom().contains(t));
                        assert(set == before.groups@[t]);
                        set.lemma_order();
                        gone = gone.insert(t);
                        assert(!gone0.contains(t));
                    }
                    merged = merged + 1;
                    let m: usize = set.len();
                    let mut j: usize = 0;
                    while j < m
                        invariant
                            j <= m,
                            m == set.keys().len(),
                            set.wf(),
                            members.wf(),
                            forall|x: BrickKey| #[trigger]
                                members@.dom().contains(x) <==> (members0.dom().contains(x) || x == k || among(
                                    set.keys(),
                                    j as int,
                                    x,
                                )),
                        decreases m - j,
                    {
                        let x = set.key_at(j);
                        members.insert(x, ());
                        proof {
                            lemma_among(set.keys(), j as int);
                        }
                        j += 1;
                    }
                    proof {
                        assert forall|x: BrickKey| #[trigger] among(set.keys(), m as int, x) <==> (before.of().dom().contains(x)
                            && before.of()[x] == t) by {
                            assert(before.sets()[t] == set@.dom());
                            if before.of().dom().contains(x) && before.of()[x] == t {
                                assert(before.sets()[t].contains(x));
                            }
                            if set@.dom().contains(x) {
                                assert(before.sets()[t].contains(x));
                            }
                        }
                    }
                } else {
                    proof {
                        assert(before.groups@.dom().contains(t)) by {
                            assert(before.sets().dom().contains(t));
                        }
                        assert(gone0.contains(t));
                    }
                }
                assert(before.of().dom().contains(k) && before.of()[k] == t);
            }
            proof {
                assert(keys.keys()[i as int] == k);
                assert forall|t: u64| #[trigger] gone.contains(t) <==> exists|j: int|
                    0 <= j < i + 1 && before.of().dom().contains(#[trigger] keys.keys()[j]) && before.of()[keys.keys()[j]] == t by {
                    if gone0.contains(t) {
                        let j = choose|j: int|
                            0 <= j < i && before.of().dom().contains(#[trigger] keys.keys()[j]) && before.of()[keys.keys()[j]] == t;
                        assert(before.of().dom().contains(keys.keys()[j]));
                    }
                    if exists|j: int|
                        0 <= j < i + 1 && before.of().dom().contains(#[trigger] keys.keys()[j]) && before.of()[keys.keys()[j]] == t {
                        let j = choose|j: int|
                            0 <= j < i + 1 && before.of().dom().contains(#[trigger] keys.keys()[j]) && before.of()[keys.keys()[j]]
                                == t;
                        if j < i {
                            assert(gone0.contains(t));
                        }
                    }
                    if gone.contains(t) && !gone0.contains(t) {
                        assert(before.of().dom().contains(keys.keys()[i as int]));
                    }
                }
                lemma_among(keys.keys(), i as int);
            }
            i += 1;
        }
        let ghost touched = before.touching(want);
        proof {
            assert(touched =~= gone) by {
                assert forall|t: u64| touched.contains(t) <==> gone.contains(t) by {
                    if touched.contains(t) {
                        let k = choose|k: BrickKey| #[trigger]
                            want.contains(k) && before.of().dom().contains(k) && before.of()[k] == t;
                        let j = choose|j: int| 0 <= j < keys.keys().len() && keys.keys()[j] == k;
                        assert(before.of().dom().contains(keys.keys()[j]));
                    }
                    if gone.contains(t) {
                        let j = choose|j: int|
                            0 <= j < n && before.of().dom().contains(#[trigger] keys.keys()[j]) && before.of()[keys.keys()[j]] == t;
                        assert(want.contains(keys.keys()[j]));
                    }
                }
            }
            assert(members@.dom() =~= before.merged(want)) by {
                assert forall|x: BrickKey| members@.dom().contains(x) <==> before.merged(want).contains(x) by {
                    assert(among(keys.keys(), n as int, x) == want.contains(x));
                }
            }
            members.lemma_order();
        }
        let size: usize = members.len();
        let ghost all = members@.dom();
        let mut i: usize = 0;
        while i < size
            invariant
                i <= size,
                size == members.keys().len(),
                members.wf(),
                self.group_of.wf(),
                self.next == before.next,
                g == before.next,
                self.groups.wf(),
                self.groups@ == before.groups@.remove_keys(gone),
                forall|k: BrickKey| #[trigger]
                    self.group_of@.dom().contains(k) <==> (before.of().dom().contains(k) || among(
                        members.keys(),
                        i as int,
                        k,
                    )),
                forall|k: BrickKey| #[trigger]
                    self.group_of@.dom().contains(k) ==> self.group_of@[k] == if among(members.keys(), i as int, k) {
                        g
                    } else {
                        before.of()[k]
                    },
            decreases size - i,
        {
            let k = members.key_at(i);
            let ghost was = self.group_of@;
            self.group_of.insert(k, g);
            proof {
                lemma_among(members.keys(), i as int);
            }
            i += 1;
        }
        proof {
            assert forall|x: BrickKey| #[trigger] among(members.keys(), size as int, x) <==> all.contains(x) by {}
        }
        self.groups.insert(g, members);
        self.next = g + 1;
        proof {
            let after = *self;
            let sets = before.sets().remove_keys(touched).insert(g, all);
            assert(after.sets() =~= sets) by {
                assert forall|t: u64| after.sets().dom().contains(t) <==> sets.dom().contains(t) by {
                    assert(before.sets().dom().contains(t) == before.groups@.dom().contains(t));
                }
                assert forall|t: u64| after.sets().dom().contains(t) implies after.sets()[t] == sets[t] by {
                    if t != g {
                        assert(before.groups@.dom().contains(t));
                    }
                }
            }
            assert forall|k: BrickKey| want.contains(k) implies all.contains(k) by {}
            assert forall|k: BrickKey| #[trigger] after.of().dom().contains(k) <==> before.of().dom().contains(k) || want.contains(k) by {
                if all.contains(k) && !want.contains(k) {
                    assert(before.of().dom().contains(k));
                }
            }
            assert(!before.sets().dom().contains(g));
            assert forall|k: BrickKey| #[trigger] after.of().dom().contains(k) implies after.sets().dom().contains(after.of()[k])
                && after.sets()[after.of()[k]].contains(k) by {
                if !all.contains(k) {
                    assert(before.of().dom().contains(k));
                    assert(!touched.contains(before.of()[k]));
                    assert(before.sets().dom().contains(before.of()[k]));
                }
            }
            assert forall|t: u64, k: BrickKey| after.sets().dom().contains(t) && #[trigger] after.sets()[t].contains(k) implies after.of().dom().contains(
                k,
            ) && after.of()[k] == t by {
                if t != g {
                    assert(before.sets()[t].contains(k));
                    assert(before.of()[k] == t);
                    if all.contains(k) {
                        assert(want.contains(k) || touched.contains(before.of()[k]));
                        if want.contains(k) {
                            assert(touched.contains(t));
                        }
                    }
                }
            }
            assert forall|t: u64| #[trigger] after.sets().dom().contains(t) implies exists|k: BrickKey| #[trigger] after.sets()[t].contains(k) by {
                if t == g {
                    assert(keys.keys().len() > 0) by {
                        if keys.keys().len() == 0 {
                            assert(want =~= Set::<BrickKey>::empty());
                        }
                    }
                    let k = keys.keys()[0];
                    assert(want.contains(k));
                    assert(after.sets()[t].contains(k));
                } else {
                    assert(before.sets().dom().contains(t));
                    let k = choose|k: BrickKey| #[trigger] before.sets()[t].contains(k);
                    assert(after.sets()[t].contains(k));
                }
            }
        }
        (merged, size)
    }

    /// Dissolves group `g`. Its members, in order.
    pub fn dissolve(&mut self, g: u64) -> (r: Vec<BrickKey>)
        requires
            old(self).wf(),
            old(self).sets().dom().contains(g),
        ensures
            final(self).wf(),
            final(self).spec_next() == old(self).spec_next(),
            final(self).sets() == old(self).sets().remove(g),
            crate::sorted::increasing(r@),
            r@.no_duplicates(),
            r@.to_set() == old(self).sets()[g],
            forall|k: BrickKey| #[trigger]
                final(self).of().dom().contains(k) <==> old(self).of().dom().contains(k) && old(self).of()[k] != g,
            forall|k: BrickKey| #[trigger] final(self).of().dom().contains(k) ==> final(self).of()[k] == old(self).of()[k],
    {
        let ghost before = *self;
        let mut out: Vec<BrickKey> = Vec::new();
        assert(before.groups@.dom().contains(g));
        if let Some(set) = self.groups.remove(&g) {
            proof {
                set.lemma_order();
                assert(set == before.groups@[g]);
                assert(before.sets()[g] == set@.dom());
            }
            let n: usize = set.len();
            let mut i: usize = 0;
            while i < n
                invariant
                    i <= n,
                    n == set.keys().len(),
                    set.wf(),
                    self.group_of.wf(),
                    self.groups.wf(),
                    self.groups@ == before.groups@.remove(g),
                    self.next == before.next,
                    out@ =~= set.keys().take(i as int),
                    forall|k: BrickKey| #[trigger]
                        self.group_of@.dom().contains(k) <==> (before.of().dom().contains(k) && !among(
                            set.keys(),
                            i as int,
                            k,
                        )),
                    forall|k: BrickKey| #[trigger] self.group_of@.dom().contains(k) ==> self.group_of@[k] == before.of()[k],
                decreases n - i,
            {
                let k = set.key_at(i);
                let ghost was = self.group_of@;
                self.group_of.remove(&k);
                out.push(k);
                proof {
                    lemma_among(set.keys(), i as int);
                }
                i += 1;
            }
            assert(out@ =~= set.keys());
            proof {
                assert forall|x: BrickKey| #[trigger] among(set.keys(), n as int, x) <==> (before.of().dom().contains(x)
                    && before.of()[x] == g) by {
                    if before.of().dom().contains(x) && before.of()[x] == g {
                        assert(before.sets()[g].contains(x));
                    }
                    if set@.dom().contains(x) {
                        assert(before.sets()[g].contains(x));
                    }
                }
            }
        }
        proof {
            let after = *self;
            assert(after.sets() =~= before.sets().remove(g)) by {
                assert forall|t: u64| after.sets().dom().contains(t) <==> before.sets().remove(g).dom().contains(t) by {
                    assert(before.sets().dom().contains(t) == before.groups@.dom().contains(t));
                }
                assert forall|t: u64| after.sets().dom().contains(t) implies after.sets()[t] == before.sets().remove(g)[t] by {
                    assert(before.groups@.dom().contains(t));
                }
            }
            assert forall|k: BrickKey| #[trigger] after.of().dom().contains(k) implies after.sets().dom().contains(after.of()[k])
                && after.sets()[after.of()[k]].contains(k) by {
                assert(before.of().dom().contains(k));
                assert(before.sets().dom().contains(before.of()[k]));
            }
            assert forall|t: u64, k: BrickKey| after.sets().dom().contains(t) && #[trigger] after.sets()[t].contains(k) implies after.of().dom().contains(
                k,
            ) && after.of()[k] == t by {
                assert(before.sets()[t].contains(k));
            }
            assert forall|t: u64| #[trigger] after.sets().dom().contains(t) implies exists|k: BrickKey| #[trigger] after.sets()[t].contains(k) by {
                assert(before.sets().dom().contains(t));
                let k = choose|k: BrickKey| #[trigger] before.sets()[t].contains(k);
                assert(after.sets()[t].contains(k));
            }
        }
        out
    }

    /// Moves `key` out of group `g` into a group of its own, unless it is alone there already.
    /// The new group.
    pub fn split_off(&mut self, g: u64, key: BrickKey) -> (r: Option<u64>)
        requires
            old(self).wf(),
            old(self).sets().dom().contains(g),
            old(self).sets()[g].contains(key),
            old(self).spec_next() < u64::MAX,
        ensures
            final(self).wf(),
            match r {
                None => old(self).sets()[g].len() == 1 && *final(self) == *old(self),
                Some(s) => {
                    &&& old(self).sets()[g].len() != 1
                    &&& s == old(self).spec_next()
                    &&& final(self).spec_next() == old(self).spec_next() + 1
                    &&& final(self).sets() == old(self).sets().insert(g, old(self).sets()[g].remove(key)).insert(
                        s,
                        set![key],
                    )
                    &&& final(self).of() == old(self).of().insert(key, s)
                },
            },
    {
        let ghost before = *self;
        proof {
            assert(before.groups@.dom().contains(g));
            before.groups@[g].lemma_order();
            before.law_groups_partition_their_members();
        }
        let one = match self.groups.get(&g) {
            Some(m) => m.len() == 1,
            None => true,
        };
        if one {
            return None;
        }
        let taken = self.groups.remove(&g);
        let mut rest = match taken {
            Some(m) => m,
            None => SortedMap::new(),
        };
        rest.remove(&key);
        let ghost left = rest@.dom();
        let ghost had = before.sets()[g];
        assert(left =~= had.remove(key));
        self.groups.insert(g, rest);
        let s: u64 = self.next;
        let mut solo: SortedMap<BrickKey, ()> = SortedMap::new();
        solo.insert(key, ());
        assert(solo@.dom() =~= set![key]);
        self.groups.insert(s, solo);
        self.group_of.insert(key, s);
        self.next = s + 1;
        proof {
            let after = *self;
            assert(!before.sets().dom().contains(s));
            let sets = before.sets().insert(g, had.remove(key)).insert(s, set![key]);
            assert(after.sets() =~= sets) by {
                assert forall|t: u64| after.sets().dom().contains(t) <==> sets.dom().contains(t) by {
                    assert(before.sets().dom().contains(t) == before.groups@.dom().contains(t));
                }
                assert forall|t: u64| after.sets().dom().contains(t) implies after.sets()[t] == sets[t] by {
                    if t != g && t != s {
                        assert(before.groups@.dom().contains(t));
                    }
                }
            }
            assert(before.of()[key] == g);
            assert forall|k: BrickKey| #[trigger] after.of().dom().contains(k) implies after.sets().dom().contains(after.of()[k])
                && after.sets()[after.of()[k]].contains(k) by {
                if k != key {
                    assert(before.of().dom().contains(k));
                    assert(before.sets().dom().contains(before.of()[k]));
                }
            }
            assert forall|t: u64, k: BrickKey| after.sets().dom().contains(t) && #[trigger] after.sets()[t].contains(k) implies after.of().dom().contains(
                k,
            ) && after.of()[k] == t by {
                if t == g {
                    assert(before.sets()[g].contains(k));
                } else if t != s {
                    assert(before.sets()[t].contains(k));
                }
            }
            assert forall|t: u64| #[trigger] after.sets().dom().contains(t) implies exists|k: BrickKey| #[trigger] after.sets()[t].contains(k) by {
                if t == g {
                    assert(had.remove(key).len() > 0);
                    let k = had.remove(key).choose();
                    assert(after.sets()[t].contains(k));
                } else if t == s {
                    assert(after.sets()[t].contains(key));
                } else {
                    assert(before.sets().dom().contains(t));
                    let k = choose|k: BrickKey| #[trigger] before.sets()[t].contains(k);
                    assert(after.sets()[t].contains(k));
                }
            }
        }
        Some(s)
    }
}

/// The merged set is the least one that holds the keys and, with each member of a group, the whole group.
pub proof fn law_merged_sets_hold_whole_groups(g: &Groups, keys: Set<BrickKey>, a: BrickKey, b: BrickKey, s: Set<BrickKey>)
    requires
        forall|x: BrickKey, y: BrickKey|
            #[trigger] s.contains(x) && g.of().dom().contains(x) && #[trigger] g.of().dom().contains(y) && g.of()[x] == g.of()[y] ==> s.contains(y),
        keys.subset_of(s),
    ensures
        keys.subset_of(g.merged(keys)),
        g.merged(keys).contains(a) && g.of().dom().contains(a) && g.of().dom().contains(b) && g.of()[a] == g.of()[b] ==> g.merged(keys).contains(b),
        g.merged(keys).subset_of(s),
{
    assert forall|k: BrickKey| g.merged(keys).contains(k) implies s.contains(k) by {
        if !keys.contains(k) {
            let x = choose|x: BrickKey| #[trigger] keys.contains(x) && g.of().dom().contains(x) && g.of()[x] == g.of()[k];
            assert(s.contains(x));
        }
    }
    if g.merged(keys).contains(a) && g.of().dom().contains(a) && g.of().dom().contains(b) && g.of()[a] == g.of()[b] {
        if keys.contains(a) {
            assert(g.touching(keys).contains(g.of()[a]));
        }
    }
}

} // verus!
