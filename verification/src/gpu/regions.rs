//! Sets of regions, and swapping the regions that changed in a map of regions.
use crate::gpu::layout::RegionKey;
use crate::sorted::{Key, SortedMap};
use vstd::prelude::*;

verus! {

/// A set of regions, in key order.
pub type RegionSet = SortedMap<RegionKey, ()>;

/// Where the regions of `s` stand among the first `n` of `keys`.
pub open spec fn positions(keys: Seq<RegionKey>, s: Set<RegionKey>, n: nat) -> Seq<int>
    decreases n,
{
    if n == 0 {
        Seq::empty()
    } else {
        let before = positions(keys, s, (n - 1) as nat);
        if s.contains(keys[n - 1]) {
            before.push(n - 1)
        } else {
            before
        }
    }
}

pub open spec fn ints(s: Seq<usize>) -> Seq<int> {
    Seq::new(s.len(), |i: int| s[i] as int)
}

/// The positions are those of the regions in `s`, in order.
pub proof fn lemma_positions(keys: Seq<RegionKey>, s: Set<RegionKey>, n: nat)
    requires
        n <= keys.len(),
    ensures
        forall|j: int| 0 <= j < positions(keys, s, n).len() ==> 0 <= #[trigger] positions(keys, s, n)[j] < n && s.contains(
            keys[positions(keys, s, n)[j]],
        ),
        forall|j: int, k: int|
            0 <= j < k < positions(keys, s, n).len() ==> #[trigger] positions(keys, s, n)[j] < #[trigger] positions(keys, s, n)[k],
        forall|i: int| 0 <= i < n && s.contains(#[trigger] keys[i]) ==> positions(keys, s, n).contains(i),
        positions(keys, s, n).len() <= n,
    decreases n,
{
    if n > 0 {
        lemma_positions(keys, s, (n - 1) as nat);
        let before = positions(keys, s, (n - 1) as nat);
        let now = positions(keys, s, n);
        assert forall|i: int| 0 <= i < n && s.contains(#[trigger] keys[i]) implies now.contains(i) by {
            if i == n - 1 {
                assert(now[now.len() - 1] == i);
            } else {
                let j = choose|j: int| 0 <= j < before.len() && before[j] == i;
                assert(now[j] == i);
            }
        }
    }
}

/// Where the regions of `s` stand in `regions`, in order.
pub fn places<R>(regions: &SortedMap<RegionKey, R>, s: &RegionSet) -> (r: Vec<usize>)
    requires
        regions.wf(),
        s.wf(),
    ensures
        ints(r@) == positions(regions.keys(), s@.dom(), regions.keys().len()),
{
    let mut out: Vec<usize> = Vec::new();
    let n: usize = regions.len();
    let mut i: usize = 0;
    assert(ints(out@) =~= positions(regions.keys(), s@.dom(), 0));
    while i < n
        invariant
            i <= n,
            n == regions.keys().len(),
            s.wf(),
            ints(out@) == positions(regions.keys(), s@.dom(), i as nat),
        decreases n - i,
    {
        let ghost before = out@;
        if s.contains(&regions.key_at(i)) {
            out.push(i);
            assert(ints(out@) =~= ints(before).push(i as int));
        }
        i += 1;
    }
    out
}

/// The regions of `s` that `regions` holds.
pub fn present<R>(s: &RegionSet, regions: &SortedMap<RegionKey, R>) -> (r: RegionSet)
    requires
        regions.wf(),
        s.wf(),
    ensures
        r.wf(),
        r@.dom() == s@.dom().intersect(regions@.dom()),
{
    let mut out: RegionSet = SortedMap::new();
    let n: usize = s.len();
    let mut i: usize = 0;
    proof {
        s.lemma_order();
    }
    while i < n
        invariant
            i <= n,
            n == s.keys().len(),
            s.wf(),
            regions.wf(),
            out.wf(),
            forall|k: RegionKey| #[trigger]
                out@.dom().contains(k) <==> regions@.dom().contains(k) && exists|j: int| 0 <= j < i && #[trigger] s.keys()[j] == k,
        decreases n - i,
    {
        let k = s.key_at(i);
        if regions.contains(&k) {
            out.insert(k, ());
        }
        i += 1;
    }
    proof {
        assert forall|k: RegionKey| #[trigger] out@.dom().contains(k) <==> s@.dom().contains(k) && regions@.dom().contains(k) by {
            if s@.dom().contains(k) {
                assert(s.keys().contains(k));
            }
        }
        assert(out@.dom() =~= s@.dom().intersect(regions@.dom()));
    }
    out
}

/// The regions of `ks` that `m` holds, with their values, in order.
pub open spec fn taken<R>(m: Map<RegionKey, R>, ks: Seq<RegionKey>, n: nat) -> Seq<(RegionKey, R)>
    decreases n,
{
    if n == 0 {
        Seq::empty()
    } else {
        let before = taken(m, ks, (n - 1) as nat);
        if m.dom().contains(ks[n - 1]) {
            before.push((ks[n - 1], m[ks[n - 1]]))
        } else {
            before
        }
    }
}

/// `m` without the first `n` regions of `ks`.
pub open spec fn without<R>(m: Map<RegionKey, R>, ks: Seq<RegionKey>, n: nat) -> Map<RegionKey, R>
    decreases n,
{
    if n == 0 {
        m
    } else {
        without(m, ks, (n - 1) as nat).remove(ks[n - 1])
    }
}

/// `m` with the first `n` of `items`.
pub open spec fn with_all<R>(m: Map<RegionKey, R>, items: Seq<(RegionKey, R)>, n: nat) -> Map<RegionKey, R>
    decreases n,
{
    if n == 0 {
        m
    } else {
        with_all(m, items, (n - 1) as nat).insert(items[n - 1].0, items[n - 1].1)
    }
}

pub proof fn lemma_without<R>(m: Map<RegionKey, R>, ks: Seq<RegionKey>, n: nat)
    requires
        n <= ks.len(),
    ensures
        forall|k: RegionKey| #[trigger]
            without(m, ks, n).dom().contains(k) <==> m.dom().contains(k) && !(exists|j: int| 0 <= j < n && #[trigger] ks[j] == k),
        forall|k: RegionKey| #[trigger] without(m, ks, n).dom().contains(k) ==> without(m, ks, n)[k] == m[k],
    decreases n,
{
    if n > 0 {
        lemma_without(m, ks, (n - 1) as nat);
        let before = without(m, ks, (n - 1) as nat);
        assert forall|k: RegionKey| #[trigger]
            without(m, ks, n).dom().contains(k) <==> m.dom().contains(k) && !(exists|j: int| 0 <= j < n && #[trigger] ks[j] == k) by {
            if before.dom().contains(k) && k != ks[n - 1] {
                assert forall|j: int| 0 <= j < n implies #[trigger] ks[j] != k by {
                    if j < n - 1 {
                        assert(ks[j] != k);
                    }
                }
            }
        }
    }
}

/// One of the first `n` items is for region `k`.
pub open spec fn lists<R>(items: Seq<(RegionKey, R)>, n: nat, k: RegionKey) -> bool {
    exists|j: int| 0 <= j < n && (#[trigger] items[j]).0 == k
}

pub proof fn lemma_with_all<R>(m: Map<RegionKey, R>, items: Seq<(RegionKey, R)>, n: nat)
    requires
        n <= items.len(),
    ensures
        forall|k: RegionKey| #[trigger] with_all(m, items, n).dom().contains(k) <==> m.dom().contains(k) || lists(items, n, k),
        forall|k: RegionKey| #[trigger]
            with_all(m, items, n).dom().contains(k) && !lists(items, n, k) ==> with_all(m, items, n)[k] == m[k],
    decreases n,
{
    if n > 0 {
        lemma_with_all(m, items, (n - 1) as nat);
        let before = with_all(m, items, (n - 1) as nat);
        let now = with_all(m, items, n);
        assert forall|k: RegionKey| lists(items, n, k) == (lists(items, (n - 1) as nat, k) || k == items[n - 1].0) by {
            if k == items[n - 1].0 {
                assert(items[n - 1].0 == k);
            } else if lists(items, n, k) {
                let j = choose|j: int| 0 <= j < n && (#[trigger] items[j]).0 == k;
                assert(items[j].0 == k && j < n - 1);
            } else if lists(items, (n - 1) as nat, k) {
                let j = choose|j: int| 0 <= j < n - 1 && (#[trigger] items[j]).0 == k;
                assert(items[j].0 == k && j < n);
            }
        }
        assert forall|k: RegionKey| #[trigger] now.dom().contains(k) <==> m.dom().contains(k) || lists(items, n, k) by {
            assert(before.dom().contains(k) <==> m.dom().contains(k) || lists(items, (n - 1) as nat, k));
        }
        assert forall|k: RegionKey| #[trigger] now.dom().contains(k) && !lists(items, n, k) implies now[k] == m[k] by {
            assert(before.dom().contains(k));
        }
    }
}

/// What was taken out and put back restores the map.
pub proof fn law_putting_back_restores<R>(m: Map<RegionKey, R>, ks: Seq<RegionKey>)
    requires
        ks.no_duplicates(),
    ensures
        with_all(without(m, ks, ks.len()), taken(m, ks, ks.len()), taken(m, ks, ks.len()).len()) == m,
{
    let t = taken(m, ks, ks.len());
    let w = without(m, ks, ks.len());
    let r = with_all(w, t, t.len());
    lemma_without(m, ks, ks.len());
    lemma_taken(m, ks, ks.len());
    lemma_with_all(w, t, t.len());
    lemma_with_taken(m, w, t, t.len());
    assert forall|k: RegionKey| r.dom().contains(k) == m.dom().contains(k) by {
        if m.dom().contains(k) && !w.dom().contains(k) {
            let j = choose|j: int| 0 <= j < ks.len() && #[trigger] ks[j] == k;
            assert(m.dom().contains(ks[j]));
            let i = choose|i: int| 0 <= i < t.len() && (#[trigger] t[i]).0 == ks[j];
            assert(t[i].0 == k);
            assert(lists(t, t.len(), k));
        }
        if r.dom().contains(k) && !w.dom().contains(k) {
            assert(lists(t, t.len(), k));
        }
    }
    assert(r =~= m);
}

proof fn lemma_taken<R>(m: Map<RegionKey, R>, ks: Seq<RegionKey>, n: nat)
    requires
        n <= ks.len(),
    ensures
        forall|i: int|
            0 <= i < taken(m, ks, n).len() ==> m.dom().contains((#[trigger] taken(m, ks, n)[i]).0) && taken(m, ks, n)[i].1 == m[taken(
                m,
                ks,
                n,
            )[i].0],
        forall|j: int|
            0 <= j < n && m.dom().contains(#[trigger] ks[j]) ==> exists|i: int|
                0 <= i < taken(m, ks, n).len() && (#[trigger] taken(m, ks, n)[i]).0 == ks[j],
    decreases n,
{
    if n > 0 {
        lemma_taken(m, ks, (n - 1) as nat);
        let before = taken(m, ks, (n - 1) as nat);
        let now = taken(m, ks, n);
        assert forall|j: int| 0 <= j < n && m.dom().contains(#[trigger] ks[j]) implies exists|i: int|
            0 <= i < now.len() && (#[trigger] now[i]).0 == ks[j] by {
            if j == n - 1 {
                assert(now[now.len() - 1].0 == ks[j]);
            } else {
                let i = choose|i: int| 0 <= i < before.len() && (#[trigger] before[i]).0 == ks[j];
                assert(now[i].0 == ks[j]);
            }
        }
    }
}

proof fn lemma_with_taken<R>(m: Map<RegionKey, R>, w: Map<RegionKey, R>, t: Seq<(RegionKey, R)>, n: nat)
    requires
        n <= t.len(),
        forall|k: RegionKey| #[trigger] w.dom().contains(k) ==> m.dom().contains(k) && w[k] == m[k],
        forall|i: int| 0 <= i < t.len() ==> m.dom().contains((#[trigger] t[i]).0) && t[i].1 == m[t[i].0],
    ensures
        forall|k: RegionKey| #[trigger] with_all(w, t, n).dom().contains(k) ==> m.dom().contains(k) && with_all(w, t, n)[k] == m[k],
    decreases n,
{
    if n > 0 {
        lemma_with_taken(m, w, t, (n - 1) as nat);
        let before = with_all(w, t, (n - 1) as nat);
        assert forall|k: RegionKey| #[trigger] with_all(w, t, n).dom().contains(k) implies m.dom().contains(k) && with_all(w, t, n)[k] == m[k] by {
            if k == t[n - 1].0 {
                assert(m.dom().contains(t[n - 1].0));
            } else {
                assert(before.dom().contains(k));
            }
        }
    }
}

/// Takes the regions of `s` out of `map`, in order.
pub fn take_regions<R>(map: &mut SortedMap<RegionKey, R>, s: &RegionSet) -> (r: Vec<(RegionKey, R)>)
    requires
        old(map).wf(),
        s.wf(),
    ensures
        final(map).wf(),
        final(map)@ == without(old(map)@, s.keys(), s.keys().len()),
        r@ == taken(old(map)@, s.keys(), s.keys().len()),
{
    let ghost m = map@;
    let mut out: Vec<(RegionKey, R)> = Vec::new();
    let n: usize = s.len();
    let mut i: usize = 0;
    while i < n
        invariant
            i <= n,
            n == s.keys().len(),
            s.wf(),
            map.wf(),
            map@ == without(m, s.keys(), i as nat),
            out@ == taken(m, s.keys(), i as nat),
        decreases n - i,
    {
        let k = s.key_at(i);
        proof {
            lemma_without(m, s.keys(), i as nat);
            s.lemma_order();
            assert forall|j: int| 0 <= j < i implies #[trigger] s.keys()[j] != k by {
                assert(s.keys()[j].lt(s.keys()[i as int]));
                RegionKey::lt_irreflexive(k);
            }
        }
        if let Some(v) = map.remove(&k) {
            out.push((k, v));
        }
        i += 1;
    }
    out
}

/// Puts `items` into `map`.
pub fn put_regions<R>(map: &mut SortedMap<RegionKey, R>, items: Vec<(RegionKey, R)>)
    requires
        old(map).wf(),
    ensures
        final(map).wf(),
        final(map)@ == with_all(old(map)@, items@, items@.len()),
{
    let ghost m = map@;
    let ghost all = items@;
    let mut rest = items;
    let n: usize = rest.len();
    let mut i: usize = 0;
    assert(all.skip(0) =~= all);
    while i < n
        invariant
            i <= n == all.len(),
            rest@ == all.skip(i as int),
            map.wf(),
            map@ == with_all(m, all, i as nat),
        decreases n - i,
    {
        assert(rest@[0] == all[i as int]);
        let (k, v) = rest.remove(0);
        map.insert(k, v);
        assert(rest@ =~= all.skip(i + 1));
        i += 1;
    }
}

} // verus!
