//! Maps kept as vectors sorted by key: deterministic iteration, exact contents.
use vstd::prelude::*;

verus! {

/// A key with a strict total order.
pub trait Key: Copy {
    spec fn lt(self, other: Self) -> bool;

    proof fn lt_irreflexive(a: Self)
        ensures
            !a.lt(a),
    ;

    proof fn lt_transitive(a: Self, b: Self, c: Self)
        requires
            a.lt(b),
            b.lt(c),
        ensures
            a.lt(c),
    ;

    proof fn lt_total(a: Self, b: Self)
        ensures
            a.lt(b) || b.lt(a) || a == b,
    ;

    fn before(&self, other: &Self) -> (r: bool)
        ensures
            r == self.lt(*other),
    ;
}

impl Key for u64 {
    open spec fn lt(self, other: u64) -> bool {
        self < other
    }

    proof fn lt_irreflexive(a: u64) {
    }

    proof fn lt_transitive(a: u64, b: u64, c: u64) {
    }

    proof fn lt_total(a: u64, b: u64) {
    }

    fn before(&self, other: &u64) -> (r: bool) {
        *self < *other
    }
}

impl Key for u32 {
    open spec fn lt(self, other: u32) -> bool {
        self < other
    }

    proof fn lt_irreflexive(a: u32) {
    }

    proof fn lt_transitive(a: u32, b: u32, c: u32) {
    }

    proof fn lt_total(a: u32, b: u32) {
    }

    fn before(&self, other: &u32) -> (r: bool) {
        *self < *other
    }
}

/// The keys of `s` in strictly increasing order.
pub open spec fn increasing<K: Key>(s: Seq<K>) -> bool {
    forall|i: int, j: int| 0 <= i < j < s.len() ==> (#[trigger] s[i]).lt(#[trigger] s[j])
}

/// Whether `x` is one of the first `n` of `s`.
pub open spec fn among<K: Key>(s: Seq<K>, n: int, x: K) -> bool {
    exists|j: int| 0 <= j < n && #[trigger] s[j] == x
}

pub proof fn lemma_among<K: Key>(s: Seq<K>, n: int)
    requires
        0 <= n < s.len(),
    ensures
        forall|x: K| #[trigger] among(s, n + 1, x) <==> among(s, n, x) || x == s[n],
{
    assert forall|x: K| #[trigger] among(s, n + 1, x) <==> among(s, n, x) || x == s[n] by {
        if among(s, n + 1, x) {
            let j = choose|j: int| 0 <= j < n + 1 && #[trigger] s[j] == x;
            if j < n {
                assert(s[j] == x);
            }
        }
        if among(s, n, x) {
            let j = choose|j: int| 0 <= j < n && #[trigger] s[j] == x;
            assert(s[j] == x);
        }
    }
}

/// The keys of a finite set in order.
pub open spec fn in_order<K: Key>(s: Set<K>) -> Seq<K> {
    choose|ks: Seq<K>| increasing(ks) && #[trigger] ks.to_set() == s
}

/// A set has only one order.
pub proof fn law_order_is_unique<K: Key>(a: Seq<K>, b: Seq<K>)
    requires
        increasing(a),
        increasing(b),
        a.to_set() == b.to_set(),
    ensures
        a == b,
        in_order(a.to_set()) == a,
{
    lemma_same_order(a, b);
    let c = in_order(a.to_set());
    assert(increasing(c) && c.to_set() == a.to_set());
    lemma_same_order(a, c);
}

proof fn lemma_same_order<K: Key>(a: Seq<K>, b: Seq<K>)
    requires
        increasing(a),
        increasing(b),
        a.to_set() == b.to_set(),
    ensures
        a == b,
{
    lemma_same_start(a, b, a.len());
    lemma_same_start(b, a, b.len());
    assert(a =~= b);
}

/// The first `n` of `a` are the first `n` of `b`.
proof fn lemma_same_start<K: Key>(a: Seq<K>, b: Seq<K>, n: nat)
    requires
        increasing(a),
        increasing(b),
        a.to_set() == b.to_set(),
        n <= a.len(),
    ensures
        n <= b.len(),
        forall|i: int| 0 <= i < n ==> #[trigger] a[i] == b[i],
    decreases n,
{
    if n > 0 {
        let m = (n - 1) as nat;
        lemma_same_start(a, b, m);
        let x = a[m as int];
        assert(a.to_set().contains(x));
        assert(b.to_set().contains(x));
        let j = choose|j: int| 0 <= j < b.len() && b[j] == x;
        if j < m {
            assert(a[j].lt(a[m as int]));
            K::lt_irreflexive(x);
        }
        let y = b[m as int];
        assert(b.to_set().contains(y));
        assert(a.to_set().contains(y));
        let i = choose|i: int| 0 <= i < a.len() && a[i] == y;
        if i < m {
            assert(b[i].lt(b[m as int]));
            K::lt_irreflexive(y);
        }
        if x != y {
            assert(b[m as int].lt(b[j]));
            assert(a[m as int].lt(a[i]));
            K::lt_transitive(x, y, x);
            K::lt_irreflexive(x);
        }
    }
}

/// A map from keys to values, iterated in key order.
#[derive(Clone, Debug)]
pub struct SortedMap<K: Key, V> {
    entries: Vec<(K, V)>,
}

impl<K: Key, V> View for SortedMap<K, V> {
    type V = Map<K, V>;

    closed spec fn view(&self) -> Map<K, V> {
        Map::new(|k: K| self.keys().contains(k), |k: K| self.vals()[self.keys().index_of(k)])
    }
}

impl<K: Key, V> SortedMap<K, V> {
    /// The keys in order.
    pub closed spec fn keys(&self) -> Seq<K> {
        Seq::new(self.entries@.len(), |i: int| self.entries@[i].0)
    }

    /// The values in key order.
    pub closed spec fn vals(&self) -> Seq<V> {
        Seq::new(self.entries@.len(), |i: int| self.entries@[i].1)
    }

    pub open spec fn wf(&self) -> bool {
        increasing(self.keys())
    }

    /// What iteration by index sees agrees with the map.
    pub proof fn lemma_order(&self)
        requires
            self.wf(),
        ensures
            self.keys().len() == self.vals().len(),
            self.keys().no_duplicates(),
            self@.dom().finite(),
            self@.dom().len() == self.keys().len(),
            self@.dom() == self.keys().to_set(),
            forall|i: int|
                0 <= i < self.keys().len() ==> self@.dom().contains(#[trigger] self.keys()[i]) && self@[self.keys()[i]]
                    == self.vals()[i],
            forall|k: K|
                #[trigger] self@.dom().contains(k) ==> exists|i: int| 0 <= i < self.keys().len() && self.keys()[i] == k,
            forall|k: K| #[trigger] among(self.keys(), self.keys().len() as int, k) <==> self@.dom().contains(k),
    {
        let ks = self.keys();
        assert forall|i: int, j: int| 0 <= i < ks.len() && 0 <= j < ks.len() && i != j implies ks[i] != ks[j] by {
            if i < j {
                K::lt_irreflexive(ks[i]);
            } else {
                K::lt_irreflexive(ks[j]);
            }
        }
        assert forall|i: int| 0 <= i < ks.len() implies self@.dom().contains(#[trigger] ks[i]) && self@[ks[i]] == self.vals()[i] by {
            assert(ks.contains(ks[i]));
            assert(ks.index_of(ks[i]) == i);
        }
        assert(self@.dom() =~= ks.to_set());
        assert forall|k: K| #[trigger] among(ks, ks.len() as int, k) <==> self@.dom().contains(k) by {
            if self@.dom().contains(k) {
                let i = choose|i: int| 0 <= i < ks.len() && ks[i] == k;
                assert(ks[i] == k);
            }
            if among(ks, ks.len() as int, k) {
                let j = choose|j: int| 0 <= j < ks.len() && #[trigger] ks[j] == k;
                assert(self@.dom().contains(ks[j]));
            }
        }
        ks.unique_seq_to_set();
        vstd::seq_lib::seq_to_set_is_finite(ks);
    }

    pub fn new() -> (r: SortedMap<K, V>)
        ensures
            r.wf(),
            r@ == Map::<K, V>::empty(),
            r.keys().len() == 0,
    {
        let r = SortedMap { entries: Vec::new() };
        assert(r.keys() =~= Seq::empty());
        assert(r@ =~= Map::<K, V>::empty());
        r
    }

    pub fn len(&self) -> (r: usize)
        ensures
            r == self.keys().len(),
            self.wf() ==> r == self@.dom().len(),
    {
        proof {
            if self.wf() {
                self.lemma_order();
            }
        }
        self.entries.len()
    }

    pub fn is_empty(&self) -> (r: bool)
        requires
            self.wf(),
        ensures
            r == (self@ == Map::<K, V>::empty()),
            r == (self.keys().len() == 0),
    {
        proof {
            self.lemma_order();
            if self.keys().len() == 0 {
                assert(self@ =~= Map::<K, V>::empty());
            } else {
                assert(self@.dom().contains(self.keys()[0]));
            }
        }
        self.entries.len() == 0
    }

    /// The number of keys before `k`.
    pub fn rank(&self, k: &K) -> (r: usize)
        requires
            self.wf(),
        ensures
            r <= self.keys().len(),
            forall|i: int| 0 <= i < r ==> (#[trigger] self.keys()[i]).lt(*k),
            forall|i: int| r <= i < self.keys().len() ==> !(#[trigger] self.keys()[i]).lt(*k),
    {
        let mut lo: usize = 0;
        let mut hi: usize = self.entries.len();
        while lo < hi
            invariant
                lo <= hi <= self.entries@.len(),
                self.wf(),
                forall|i: int| 0 <= i < lo ==> (#[trigger] self.keys()[i]).lt(*k),
                forall|i: int| hi <= i < self.keys().len() ==> !(#[trigger] self.keys()[i]).lt(*k),
            decreases hi - lo,
        {
            let mid: usize = lo + (hi - lo) / 2;
            if self.entries[mid].0.before(k) {
                proof {
                    assert forall|i: int| 0 <= i < mid + 1 implies (#[trigger] self.keys()[i]).lt(*k) by {
                        if i < mid {
                            K::lt_transitive(self.keys()[i], self.keys()[mid as int], *k);
                        }
                    }
                }
                lo = mid + 1;
            } else {
                proof {
                    assert forall|i: int| mid <= i < self.keys().len() implies !(#[trigger] self.keys()[i]).lt(*k) by {
                        if mid < i && self.keys()[i].lt(*k) {
                            K::lt_transitive(self.keys()[mid as int], self.keys()[i], *k);
                        }
                    }
                }
                hi = mid;
            }
        }
        lo
    }

    /// The position of `k`, if it is a key.
    pub fn find(&self, k: &K) -> (r: Option<usize>)
        requires
            self.wf(),
        ensures
            match r {
                Some(i) => i < self.keys().len() && self.keys()[i as int] == *k && self@.dom().contains(*k) && self@[*k]
                    == self.vals()[i as int],
                None => !self@.dom().contains(*k),
            },
    {
        let i: usize = self.rank(k);
        proof {
            self.lemma_order();
        }
        if i < self.entries.len() && !k.before(&self.entries[i].0) {
            proof {
                K::lt_total(self.keys()[i as int], *k);
            }
            Some(i)
        } else {
            proof {
                if self@.dom().contains(*k) {
                    let j = choose|j: int| 0 <= j < self.keys().len() && self.keys()[j] == *k;
                    K::lt_irreflexive(*k);
                    if j > i {
                        assert(self.keys()[i as int].lt(*k));
                    }
                }
            }
            None
        }
    }

    pub fn contains(&self, k: &K) -> (r: bool)
        requires
            self.wf(),
        ensures
            r == self@.dom().contains(*k),
    {
        self.find(k).is_some()
    }

    pub fn get(&self, k: &K) -> (r: Option<&V>)
        requires
            self.wf(),
        ensures
            match r {
                Some(v) => self@.dom().contains(*k) && *v == self@[*k],
                None => !self@.dom().contains(*k),
            },
    {
        match self.find(k) {
            Some(i) => Some(&self.entries[i].1),
            None => None,
        }
    }

    pub fn key_at(&self, i: usize) -> (r: K)
        requires
            i < self.keys().len(),
        ensures
            r == self.keys()[i as int],
    {
        self.entries[i].0
    }

    pub fn val_at(&self, i: usize) -> (r: &V)
        requires
            i < self.keys().len(),
        ensures
            *r == self.vals()[i as int],
    {
        &self.entries[i].1
    }

    /// Binds `k` to `v`; the value it had, if any.
    pub fn insert(&mut self, k: K, v: V) -> (r: Option<V>)
        requires
            old(self).wf(),
        ensures
            final(self).wf(),
            final(self)@ == old(self)@.insert(k, v),
            match r {
                Some(p) => old(self)@.dom().contains(k) && p == old(self)@[k],
                None => !old(self)@.dom().contains(k),
            },
    {
        let ghost before = *self;
        proof {
            before.lemma_order();
        }
        let prior = self.remove(&k);
        let ghost mid = *self;
        proof {
            mid.lemma_order();
        }
        let i: usize = self.rank(&k);
        self.entries.insert(i, (k, v));
        proof {
            let ks = self.keys();
            assert(ks =~= mid.keys().insert(i as int, k));
            assert forall|a: int, b: int| 0 <= a < b < ks.len() implies (#[trigger] ks[a]).lt(#[trigger] ks[b]) by {
                if a < i && b > i {
                    assert(mid.keys()[a].lt(mid.keys()[b - 1]));
                } else if a == i {
                    let o = mid.keys()[b - 1];
                    K::lt_total(o, k);
                    assert(mid@.dom().contains(o));
                } else if b == i {
                    assert(mid.keys()[a].lt(k));
                } else if a < i && b < i {
                    assert(mid.keys()[a].lt(mid.keys()[b]));
                } else {
                    assert(mid.keys()[a - 1].lt(mid.keys()[b - 1]));
                }
            }
            self.lemma_order();
            assert(self@ =~= before@.insert(k, v)) by {
                assert forall|x: K| self@.dom().contains(x) <==> before@.insert(k, v).dom().contains(x) by {
                    if self@.dom().contains(x) {
                        let j = choose|j: int| 0 <= j < ks.len() && ks[j] == x;
                        if j < i {
                            assert(mid.keys()[j] == x);
                        } else if j > i {
                            assert(mid.keys()[j - 1] == x);
                        }
                    }
                    if before@.insert(k, v).dom().contains(x) {
                        if x == k {
                            assert(ks[i as int] == x);
                        } else {
                            assert(mid@.dom().contains(x));
                            let j = choose|j: int| 0 <= j < mid.keys().len() && mid.keys()[j] == x;
                            if j < i {
                                assert(ks[j] == x);
                            } else {
                                assert(ks[j + 1] == x);
                            }
                        }
                    }
                }
                assert forall|x: K| self@.dom().contains(x) implies self@[x] == before@.insert(k, v)[x] by {
                    let j = choose|j: int| 0 <= j < ks.len() && ks[j] == x;
                    assert(self@[ks[j]] == self.vals()[j]);
                    if j < i {
                        assert(mid.keys()[j] == x && mid.vals()[j] == self.vals()[j]);
                    } else if j > i {
                        assert(mid.keys()[j - 1] == x && mid.vals()[j - 1] == self.vals()[j]);
                    }
                }
            }
        }
        prior
    }

    /// Unbinds `k`; the value it had, if any.
    pub fn remove(&mut self, k: &K) -> (r: Option<V>)
        requires
            old(self).wf(),
        ensures
            final(self).wf(),
            final(self)@ == old(self)@.remove(*k),
            final(self).keys().len() <= old(self).keys().len(),
            match r {
                Some(p) => old(self)@.dom().contains(*k) && p == old(self)@[*k] && final(self).keys().len() + 1
                    == old(self).keys().len(),
                None => !old(self)@.dom().contains(*k) && *final(self) == *old(self),
            },
    {
        let ghost before = *self;
        match self.find(k) {
            None => {
                assert(self@ =~= before@.remove(*k));
                None
            },
            Some(i) => {
                let (_, v) = self.entries.remove(i);
                proof {
                    before.lemma_order();
                    let ks = self.keys();
                    assert(ks =~= before.keys().remove(i as int));
                    assert forall|a: int, b: int| 0 <= a < b < ks.len() implies (#[trigger] ks[a]).lt(#[trigger] ks[b]) by {
                        let a2 = if a < i { a } else { a + 1 };
                        let b2 = if b < i { b } else { b + 1 };
                        assert(before.keys()[a2].lt(before.keys()[b2]));
                    }
                    self.lemma_order();
                    assert(self@ =~= before@.remove(*k)) by {
                        assert forall|x: K| self@.dom().contains(x) <==> before@.remove(*k).dom().contains(x) by {
                            if self@.dom().contains(x) {
                                let j = choose|j: int| 0 <= j < ks.len() && ks[j] == x;
                                let j2 = if j < i { j } else { j + 1 };
                                assert(before.keys()[j2] == x);
                            }
                            if before@.remove(*k).dom().contains(x) {
                                let j = choose|j: int| 0 <= j < before.keys().len() && before.keys()[j] == x;
                                let j2 = if j < i { j } else { j - 1 };
                                assert(ks[j2] == x);
                            }
                        }
                        assert forall|x: K| self@.dom().contains(x) implies self@[x] == before@.remove(*k)[x] by {
                            let j = choose|j: int| 0 <= j < ks.len() && ks[j] == x;
                            let j2 = if j < i { j } else { j + 1 };
                            assert(before.keys()[j2] == x && before.vals()[j2] == self.vals()[j]);
                            assert(self@[ks[j]] == self.vals()[j]);
                        }
                    }
                }
                Some(v)
            },
        }
    }
}

impl<K: Key, V: Copy> SortedMap<K, V> {
    /// An equal map.
    pub fn copy(&self) -> (r: SortedMap<K, V>)
        requires
            self.wf(),
        ensures
            r.wf(),
            r@ == self@,
            r.keys() == self.keys(),
    {
        let mut entries: Vec<(K, V)> = Vec::new();
        let mut i: usize = 0;
        while i < self.entries.len()
            invariant
                i <= self.entries@.len(),
                entries@ =~= self.entries@.take(i as int),
            decreases self.entries@.len() - i,
        {
            entries.push(self.entries[i]);
            i += 1;
        }
        assert(entries@ =~= self.entries@);
        let r = SortedMap { entries };
        assert(r.keys() =~= self.keys());
        assert(r.vals() =~= self.vals());
        assert(r@ =~= self@);
        r
    }
}

} // verus!
