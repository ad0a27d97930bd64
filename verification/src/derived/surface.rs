//! A brick's exposed-surface inputs: the dependency record shared by every per-brick surface
//! product, and the exposed-face summary.
//!
//! A face is exposed when an occupied voxel's neighbour across that face is empty. A brick's
//! result depends on its own voxels and on the boundary layers of its six face-neighbour bricks,
//! so edits on brick boundaries invalidate neighbours.
use crate::derived::mesh::{
    answers, brick_view, inside, mesh_quads, outside, voxel, world_view, BrickMesh, Local, Merge,
};
use crate::world::{same_material, Brick, BrickKey, ContentVersion, MaterialId, VoxelCoord, VoxelIndex, World};
use vstd::prelude::*;

verus! {

/// The target brick followed by its six face neighbours (-x, +x, -y, +y, -z, +z).
pub open spec fn spec_input_keys(key: BrickKey) -> Seq<BrickKey> {
    seq![
        key,
        key.spec_offset(-1, 0, 0),
        key.spec_offset(1, 0, 0),
        key.spec_offset(0, -1, 0),
        key.spec_offset(0, 1, 0),
        key.spec_offset(0, 0, -1),
        key.spec_offset(0, 0, 1),
    ]
}

pub fn input_keys(key: BrickKey) -> (r: [BrickKey; 7])
    requires
        key.wf(),
    ensures
        r@ == spec_input_keys(key),
{
    let r = [
        key,
        key.offset(-1, 0, 0),
        key.offset(1, 0, 0),
        key.offset(0, -1, 0),
        key.offset(0, 1, 0),
        key.offset(0, 0, -1),
        key.offset(0, 0, 1),
    ];
    assert(r@ =~= spec_input_keys(key));
    r
}

/// The neighbour of `key` one step along `axis` that touches a voxel at local coordinate `local`.
pub open spec fn touched(key: BrickKey, axis: int, local: int) -> Seq<BrickKey> {
    let s = if local == 0 {
        -1int
    } else {
        1int
    };
    if local == 0 || local == 7 {
        seq![key.spec_offset(if axis == 0 { s } else { 0 }, if axis == 1 { s } else { 0 }, if axis == 2 { s } else { 0 })]
    } else {
        Seq::empty()
    }
}

/// A voxel's own brick, and the neighbours across the brick faces that it lies on.
pub open spec fn spec_affected_keys(v: VoxelCoord) -> Seq<BrickKey> {
    let k = v.key();
    seq![k] + touched(k, 0, v.x as int % 8) + touched(k, 1, v.y as int % 8) + touched(k, 2, v.z as int % 8)
}

/// Bricks whose surface can change when voxel `v` changes: its own brick, plus each neighbour
/// brick across a brick face that `v` lies on.
pub fn affected_keys(v: VoxelCoord) -> (out: Vec<BrickKey>)
    ensures
        out@ == spec_affected_keys(v),
{
    let (key, _) = v.split();
    let o = key.origin();
    let mut out: Vec<BrickKey> = Vec::new();
    out.push(key);
    let ghost k = v.key();
    let (lx, ly, lz) = (v.x - o.x, v.y - o.y, v.z - o.z);
    if lx == 0 {
        out.push(key.offset(-1, 0, 0));
    } else if lx == 7 {
        out.push(key.offset(1, 0, 0));
    }
    assert(out@ =~= seq![k] + touched(k, 0, lx as int));
    if ly == 0 {
        out.push(key.offset(0, -1, 0));
    } else if ly == 7 {
        out.push(key.offset(0, 1, 0));
    }
    assert(out@ =~= seq![k] + touched(k, 0, lx as int) + touched(k, 1, ly as int));
    if lz == 0 {
        out.push(key.offset(0, 0, -1));
    } else if lz == 7 {
        out.push(key.offset(0, 0, 1));
    }
    assert(out@ =~= seq![k] + touched(k, 0, lx as int) + touched(k, 1, ly as int) + touched(k, 2, lz as int));
    out
}

/// The affected bricks are exactly those that see the voxel: as one of their own, or in one of the
/// six layers just outside their faces.
pub proof fn law_affected_keys_are_those_that_see_the_voxel(v: VoxelCoord, k: BrickKey)
    requires
        k.inner(),
    ensures
        spec_affected_keys(v).contains(k) <==> exists|p: (int, int, int)|
            (inside(p) || outside(p)) && #[trigger] voxel(k, p) == v,
{
    let s = spec_affected_keys(v);
    let key = v.key();
    let (lx, ly, lz) = (v.x as int % 8, v.y as int % 8, v.z as int % 8);
    let tx = touched(key, 0, lx);
    let ty = touched(key, 1, ly);
    let tz = touched(key, 2, lz);
    let p = (v.x - 8 * k.x, v.y - 8 * k.y, v.z - 8 * k.z);
    assert(voxel(k, p) == v);
    if s.contains(k) {
        let i = choose|i: int| 0 <= i < s.len() && s[i] == k;
        if i == 0 {
            assert(inside(p));
        } else if i < 1 + tx.len() {
            assert(s[i] == tx[i - 1]);
            assert(outside(p));
        } else if i < 1 + tx.len() + ty.len() {
            assert(s[i] == ty[i - 1 - tx.len()]);
            assert(outside(p));
        } else {
            assert(s[i] == tz[i - 1 - tx.len() - ty.len()]);
            assert(outside(p));
        }
    }
    if exists|q: (int, int, int)| (inside(q) || outside(q)) && #[trigger] voxel(k, q) == v {
        let q = choose|q: (int, int, int)| (inside(q) || outside(q)) && #[trigger] voxel(k, q) == v;
        assert(q == p);
        if inside(q) {
            assert(s[0] == k);
        } else if q.0 == -1 || q.0 == 8 {
            assert(tx.len() == 1 && tx[0] == k);
            assert(s[1] == k);
        } else if q.1 == -1 || q.1 == 8 {
            assert(ty.len() == 1 && ty[0] == k);
            assert(s[1 + tx.len() as int] == k);
        } else {
            assert(tz.len() == 1 && tz[0] == k);
            assert(s[(1 + tx.len() + ty.len()) as int] == k);
        }
    }
}

/// An edit of one voxel leaves the mesh of every brick outside its affected keys as it was.
pub proof fn law_edit_changes_only_affected_bricks(before: &World, after: &World, v: VoxelCoord, k: BrickKey, merge: Merge)
    requires
        before.wf(),
        after.wf(),
        k.inner(),
        forall|p: VoxelCoord| p != v ==> #[trigger] after.at(p) == before.at(p),
        !spec_affected_keys(v).contains(k),
    ensures
        mesh_quads(world_view(after, k), merge) == mesh_quads(world_view(before, k), merge),
{
    law_affected_keys_are_those_that_see_the_voxel(v, k);
    let a = world_view(after, k);
    let b = world_view(before, k);
    assert forall|p: (int, int, int)| inside(p) implies #[trigger] a(p) == b(p) by {
        assert(voxel(k, p) != v);
        assert(after.at(voxel(k, p)) == before.at(voxel(k, p)));
    }
    assert forall|p: (int, int, int)| outside(p) implies (#[trigger] a(p) is None <==> b(p) is None) by {
        assert(voxel(k, p) != v);
        assert(after.at(voxel(k, p)) == before.at(voxel(k, p)));
    }
    crate::derived::mesh::law_mesh_depends_on_brick_and_face_layers(a, b, merge);
}

/// Exposed faces per material, sorted by material; `total` is their sum.
#[derive(Clone, Debug, PartialEq, Eq)]
pub struct SurfaceSummary {
    pub total: u32,
    pub by_material: Vec<(MaterialId, u32)>,
}

pub open spec fn sum_counts(s: Seq<(MaterialId, u32)>) -> int
    decreases s.len(),
{
    if s.len() == 0 {
        0
    } else {
        sum_counts(s.drop_last()) + s.last().1
    }
}

impl SurfaceSummary {
    /// The summary of `counts`: one entry for each material with a count, in material order.
    pub open spec fn of(&self, counts: spec_fn(MaterialId) -> int) -> bool {
        &&& forall|i: int, j: int|
            0 <= i < j < self.by_material@.len() ==> (#[trigger] self.by_material@[i]).0.id < (
            #[trigger] self.by_material@[j]).0.id
        &&& forall|i: int|
            0 <= i < self.by_material@.len() ==> {
                &&& (#[trigger] self.by_material@[i]).1 > 0
                &&& self.by_material@[i].1 == counts(self.by_material@[i].0)
            }
        &&& forall|m: MaterialId| #[trigger]
            counts(m) != 0 ==> exists|i: int| 0 <= i < self.by_material@.len() && (#[trigger] self.by_material@[i]).0 == m
        &&& self.total == sum_counts(self.by_material@)
    }

    /// Counts have one summary.
    pub proof fn law_summary_is_unique(a: &SurfaceSummary, b: &SurfaceSummary, counts: spec_fn(MaterialId) -> int)
        requires
            a.of(counts),
            b.of(counts),
        ensures
            a.total == b.total,
            a.by_material@ == b.by_material@,
    {
        let (s, t) = (a.by_material@, b.by_material@);
        lemma_same_prefix(s, t, counts, s.len() as int);
        lemma_same_prefix(t, s, counts, t.len() as int);
        assert(s =~= t);
    }
}

spec fn listed(s: Seq<(MaterialId, u32)>, counts: spec_fn(MaterialId) -> int) -> bool {
    &&& forall|i: int, j: int| 0 <= i < j < s.len() ==> (#[trigger] s[i]).0.id < (#[trigger] s[j]).0.id
    &&& forall|i: int| 0 <= i < s.len() ==> (#[trigger] s[i]).1 > 0 && s[i].1 == counts(s[i].0)
    &&& forall|m: MaterialId| #[trigger]
        counts(m) != 0 ==> exists|i: int| 0 <= i < s.len() && (#[trigger] s[i]).0 == m
}

proof fn lemma_same_prefix(s: Seq<(MaterialId, u32)>, t: Seq<(MaterialId, u32)>, counts: spec_fn(MaterialId) -> int, n: int)
    requires
        listed(s, counts),
        listed(t, counts),
        0 <= n <= s.len(),
    ensures
        n <= t.len(),
        forall|i: int| 0 <= i < n ==> s[i] == t[i],
    decreases n,
{
    if n > 0 {
        lemma_same_prefix(s, t, counts, n - 1);
        let m = s[n - 1].0;
        assert(counts(m) != 0);
        let j = choose|j: int| 0 <= j < t.len() && (#[trigger] t[j]).0 == m;
        if j < n - 1 {
            assert(t[j] == s[j]);
            assert(s[j].0.id < s[n - 1].0.id);
        } else if j > n - 1 {
            let x = t[n - 1].0;
            assert(x.id < m.id);
            assert(counts(x) != 0);
            let i = choose|i: int| 0 <= i < s.len() && (#[trigger] s[i]).0 == x;
            if i < n - 1 {
                assert(s[i] == t[i]);
                assert(t[i].0.id < t[n - 1].0.id);
            } else {
                assert(i == n - 1 || s[n - 1].0.id < s[i].0.id);
            }
        }
        assert(t[n - 1].1 == counts(t[n - 1].0));
        assert(s[n - 1].1 == counts(s[n - 1].0));
    }
}

pub open spec fn one_if(b: bool) -> int {
    if b {
        1
    } else {
        0
    }
}

/// How many of a cell's six neighbours are empty.
pub open spec fn bare(near: Local, p: (int, int, int)) -> int {
    one_if(near((p.0 - 1, p.1, p.2)) is None) + one_if(near((p.0 + 1, p.1, p.2)) is None) + one_if(
        near((p.0, p.1 - 1, p.2)) is None,
    ) + one_if(near((p.0, p.1 + 1, p.2)) is None) + one_if(near((p.0, p.1, p.2 - 1)) is None) + one_if(
        near((p.0, p.1, p.2 + 1)) is None,
    )
}

/// The cell at place `n`.
pub open spec fn cell_of(n: int) -> (int, int, int) {
    (n % 8, n / 8 % 8, n / 64)
}

/// The exposed faces of material `m` among the first `n` voxels of a brick.
pub open spec fn exposed_count(own: Seq<Option<MaterialId>>, near: Local, m: MaterialId, n: nat) -> int
    decreases n,
{
    if n == 0 {
        0
    } else {
        exposed_count(own, near, m, (n - 1) as nat) + if own[n - 1] == Some(m) {
            bare(near, cell_of(n - 1))
        } else {
            0
        }
    }
}

/// The voxels around local positions of `key`, as `f` gives them.
pub open spec fn lookup_view(key: BrickKey, f: spec_fn(VoxelCoord) -> Option<MaterialId>) -> Local {
    |p: (int, int, int)| f(voxel(key, p))
}

/// `counts` with `c` more of material `m`.
pub open spec fn bump(counts: spec_fn(MaterialId) -> int, m: MaterialId, c: int) -> spec_fn(MaterialId) -> int {
    |x: MaterialId|
        counts(x) + if x == m {
            c
        } else {
            0
        }
}

proof fn lemma_sum_update(s: Seq<(MaterialId, u32)>, i: int, e: (MaterialId, u32))
    requires
        0 <= i < s.len(),
    ensures
        sum_counts(s.update(i, e)) == sum_counts(s) - s[i].1 + e.1,
    decreases s.len(),
{
    let t = s.update(i, e);
    if i == s.len() - 1 {
        assert(t.drop_last() =~= s.drop_last());
    } else {
        assert(t.drop_last() =~= s.drop_last().update(i, e));
        lemma_sum_update(s.drop_last(), i, e);
    }
}

proof fn lemma_sum_insert(s: Seq<(MaterialId, u32)>, i: int, e: (MaterialId, u32))
    requires
        0 <= i <= s.len(),
    ensures
        sum_counts(s.insert(i, e)) == sum_counts(s) + e.1,
    decreases s.len(),
{
    let t = s.insert(i, e);
    if i == s.len() {
        assert(t.drop_last() =~= s);
    } else {
        assert(t.drop_last() =~= s.drop_last().insert(i, e));
        lemma_sum_insert(s.drop_last(), i, e);
    }
}

proof fn lemma_sum_at_least(s: Seq<(MaterialId, u32)>, i: int)
    requires
        0 <= i < s.len(),
    ensures
        sum_counts(s) >= s[i].1,
    decreases s.len(),
{
    lemma_sum_not_negative(s.drop_last());
    if i < s.len() - 1 {
        lemma_sum_at_least(s.drop_last(), i);
    }
}

proof fn lemma_sum_not_negative(s: Seq<(MaterialId, u32)>)
    ensures
        sum_counts(s) >= 0,
    decreases s.len(),
{
    if s.len() > 0 {
        lemma_sum_not_negative(s.drop_last());
    }
}

impl SurfaceSummary {
    fn none() -> (r: SurfaceSummary)
        ensures
            r.total == 0,
            r.total == sum_counts(r.by_material@),
            r.of(|m: MaterialId| 0),
    {
        SurfaceSummary { total: 0, by_material: Vec::new() }
    }

    /// Counts `c` more faces of material `m`.
    fn add(&mut self, m: MaterialId, c: u32)
        requires
            old(self).total + c <= u32::MAX,
            old(self).total == sum_counts(old(self).by_material@),
        ensures
            final(self).total == old(self).total + c,
            final(self).total == sum_counts(final(self).by_material@),
            forall|counts: spec_fn(MaterialId) -> int| #[trigger]
                old(self).of(counts) ==> final(self).of(bump(counts, m, c as int)),
    {
        let ghost before = *self;
        if c == 0 {
            proof {
                assert forall|counts: spec_fn(MaterialId) -> int| #[trigger] before.of(counts) implies self.of(
                    bump(counts, m, c as int),
                ) by {
                    assert(bump(counts, m, 0) =~= counts);
                }
            }
            return;
        }
        let n: usize = self.by_material.len();
        let mut i: usize = 0;
        while i < n && self.by_material[i].0.id < m.id
            invariant
                i <= n,
                n == self.by_material@.len(),
                *self == before,
                forall|j: int| 0 <= j < i ==> (#[trigger] before.by_material@[j]).0.id < m.id,
            decreases n - i,
        {
            i += 1;
        }
        let ghost s = before.by_material@;
        if i < n && self.by_material[i].0.id == m.id {
            let had: u32 = self.by_material[i].1;
            proof {
                lemma_sum_at_least(s, i as int);
            }
            let now: u32 = had + c;
            self.by_material.set(i, (m, now));
            proof {
                lemma_sum_update(s, i as int, (m, now));
            }
        } else {
            self.by_material.insert(i, (m, c));
            proof {
                lemma_sum_insert(s, i as int, (m, c));
            }
        }
        self.total = self.total + c;
        proof {
            let t = self.by_material@;
            assert forall|counts: spec_fn(MaterialId) -> int| #[trigger] before.of(counts) implies self.of(
                bump(counts, m, c as int),
            ) by {
                let f = bump(counts, m, c as int);
                if i < n && s[i as int].0.id == m.id {
                    lemma_sum_at_least(s, i as int);
                    assert(t =~= s.update(i as int, (m, (s[i as int].1 + c) as u32)));
                    assert forall|x: MaterialId| #[trigger] f(x) != 0 implies exists|q: int|
                        0 <= q < t.len() && (#[trigger] t[q]).0 == x by {
                        if x == m {
                            assert(t[i as int].0 == x);
                        } else {
                            assert(counts(x) != 0);
                            let q = choose|q: int| 0 <= q < s.len() && (#[trigger] s[q]).0 == x;
                            assert(t[q].0 == x);
                        }
                    }
                    assert forall|q: int| 0 <= q < t.len() implies (#[trigger] t[q]).1 > 0 && t[q].1 == f(t[q].0) by {
                        assert(s[q].1 > 0);
                        if q != i {
                            assert(s[q].0.id != m.id) by {
                                if q < i {
                                    assert(s[q].0.id < s[i as int].0.id);
                                } else {
                                    assert(s[i as int].0.id < s[q].0.id);
                                }
                            }
                        }
                    }
                    assert forall|a: int, b: int| 0 <= a < b < t.len() implies (#[trigger] t[a]).0.id < (#[trigger] t[b]).0.id by {
                        assert(s[a].0.id < s[b].0.id);
                    }
                } else {
                    assert(t =~= s.insert(i as int, (m, c)));
                    assert forall|q: int| i <= q < s.len() implies (#[trigger] s[q]).0.id > m.id by {
                        if q > i {
                            assert(s[i as int].0.id < s[q].0.id);
                        }
                    }
                    assert(counts(m) == 0) by {
                        if counts(m) != 0 {
                            let q = choose|q: int| 0 <= q < s.len() && (#[trigger] s[q]).0 == m;
                            assert(q < i || q >= i);
                        }
                    }
                    assert forall|x: MaterialId| #[trigger] f(x) != 0 implies exists|q: int|
                        0 <= q < t.len() && (#[trigger] t[q]).0 == x by {
                        if x == m {
                            assert(t[i as int].0 == x);
                        } else {
                            assert(counts(x) != 0);
                            let q = choose|q: int| 0 <= q < s.len() && (#[trigger] s[q]).0 == x;
                            assert(t[if q < i { q } else { q + 1 }].0 == x);
                        }
                    }
                    assert forall|q: int| 0 <= q < t.len() implies (#[trigger] t[q]).1 > 0 && t[q].1 == f(t[q].0) by {
                        if q != i {
                            let o = if q < i { q } else { q - 1 };
                            assert(s[o].1 > 0);
                            assert(t[q] == s[o]);
                        }
                    }
                    assert forall|a: int, b: int| 0 <= a < b < t.len() implies (#[trigger] t[a]).0.id < (#[trigger] t[b]).0.id by {
                        let a2 = if a < i { a } else { a - 1 };
                        let b2 = if b < i { b } else { b - 1 };
                        if a != i && b != i {
                            assert(s[a2].0.id < s[b2].0.id);
                        } else if a == i {
                            assert(s[b2].0.id > m.id);
                        } else {
                            assert(s[a2].0.id < m.id);
                        }
                    }
                }
            }
        }
    }
}

/// The counts of the first `n` voxels of a brick.
pub open spec fn exposed_counts(own: Seq<Option<MaterialId>>, near: Local, n: nat) -> spec_fn(MaterialId) -> int {
    |m: MaterialId| exposed_count(own, near, m, n)
}

/// How many of the six voxels around `p` a lookup finds empty.
fn bare_sides<F: Fn(VoxelCoord) -> Option<MaterialId>>(p: VoxelCoord, lookup: &F) -> (c: u32)
    requires
        i32::MIN < p.x < i32::MAX,
        i32::MIN < p.y < i32::MAX,
        i32::MIN < p.z < i32::MAX,
        forall|v: VoxelCoord| lookup.requires((v,)),
    ensures
        c <= 6,
        forall|f: spec_fn(VoxelCoord) -> Option<MaterialId>| #[trigger]
            answers(*lookup, f) ==> c == one_if(f(VoxelCoord { x: (p.x - 1) as i32, ..p }) is None) + one_if(
                f(VoxelCoord { x: (p.x + 1) as i32, ..p }) is None,
            ) + one_if(f(VoxelCoord { y: (p.y - 1) as i32, ..p }) is None) + one_if(
                f(VoxelCoord { y: (p.y + 1) as i32, ..p }) is None,
            ) + one_if(f(VoxelCoord { z: (p.z - 1) as i32, ..p }) is None) + one_if(
                f(VoxelCoord { z: (p.z + 1) as i32, ..p }) is None,
            ),
{
    let a = lookup(VoxelCoord { x: p.x - 1, y: p.y, z: p.z });
    let b = lookup(VoxelCoord { x: p.x + 1, y: p.y, z: p.z });
    let c = lookup(VoxelCoord { x: p.x, y: p.y - 1, z: p.z });
    let d = lookup(VoxelCoord { x: p.x, y: p.y + 1, z: p.z });
    let e = lookup(VoxelCoord { x: p.x, y: p.y, z: p.z - 1 });
    let g = lookup(VoxelCoord { x: p.x, y: p.y, z: p.z + 1 });
    let mut n: u32 = 0;
    if a.is_none() {
        n += 1;
    }
    if b.is_none() {
        n += 1;
    }
    if c.is_none() {
        n += 1;
    }
    if d.is_none() {
        n += 1;
    }
    if e.is_none() {
        n += 1;
    }
    if g.is_none() {
        n += 1;
    }
    n
}

/// Computes the summary for `key` from a voxel lookup. `None` when the brick is absent (empty).
pub fn summarize<F: Fn(VoxelCoord) -> Option<MaterialId>>(key: BrickKey, target: Option<&Brick>, lookup: F) -> (r: Option<
    SurfaceSummary,
>)
    requires
        target matches Some(b) ==> b.wf() && key.inner(),
        forall|v: VoxelCoord| lookup.requires((v,)),
    ensures
        r is Some == target is Some,
        target matches Some(b) ==> forall|f: spec_fn(VoxelCoord) -> Option<MaterialId>| #[trigger]
            answers(lookup, f) ==> r->0.of(exposed_counts(b@, lookup_view(key, f), 512)),
{
    match target {
        None => None,
        Some(b) => {
            let o = key.origin();
            let mut s = SurfaceSummary::none();
            proof {
                assert forall|f: spec_fn(VoxelCoord) -> Option<MaterialId>| #[trigger] answers(lookup, f) implies s.of(
                    exposed_counts(b@, lookup_view(key, f), 0),
                ) by {
                    assert(exposed_counts(b@, lookup_view(key, f), 0) =~= (|m: MaterialId| 0int));
                }
            }
            let mut n: usize = 0;
            while n < 512
                invariant
                    n <= 512,
                    b.wf(),
                    key.inner(),
                    o == key.spec_origin(),
                    forall|v: VoxelCoord| lookup.requires((v,)),
                    s.total <= 6 * n,
                    s.total == sum_counts(s.by_material@),
                    forall|f: spec_fn(VoxelCoord) -> Option<MaterialId>| #[trigger]
                        answers(lookup, f) ==> s.of(exposed_counts(b@, lookup_view(key, f), n as nat)),
                decreases 512 - n,
            {
                let ghost was = s;
                let idx = VoxelIndex { raw: n };
                if let Some(m) = b.get(idx) {
                    let (x, y, z) = idx.xyz();
                    let p = VoxelCoord { x: o.x + x, y: o.y + y, z: o.z + z };
                    let c: u32 = bare_sides(p, &lookup);
                    s.add(m, c);
                    proof {
                        assert forall|f: spec_fn(VoxelCoord) -> Option<MaterialId>| #[trigger] answers(lookup, f) implies s.of(
                            exposed_counts(b@, lookup_view(key, f), (n + 1) as nat),
                        ) by {
                            let near = lookup_view(key, f);
                            assert(was.of(exposed_counts(b@, near, n as nat)));
                            assert(cell_of(n as int) == (x as int, y as int, z as int));
                            assert(c == bare(near, cell_of(n as int)));
                            assert(bump(exposed_counts(b@, near, n as nat), m, c as int) =~= exposed_counts(
                                b@,
                                near,
                                (n + 1) as nat,
                            ));
                        }
                    }
                } else {
                    proof {
                        assert forall|f: spec_fn(VoxelCoord) -> Option<MaterialId>| #[trigger] answers(lookup, f) implies s.of(
                            exposed_counts(b@, lookup_view(key, f), (n + 1) as nat),
                        ) by {
                            let near = lookup_view(key, f);
                            assert(was.of(exposed_counts(b@, near, n as nat)));
                            assert(exposed_counts(b@, near, n as nat) =~= exposed_counts(b@, near, (n + 1) as nat));
                        }
                    }
                }
                n += 1;
            }
            Some(s)
        },
    }
}

/// The summary computed directly from the world.
pub fn summarize_world(world: &World, key: BrickKey) -> (r: Option<SurfaceSummary>)
    requires
        world.wf(),
    ensures
        r is Some == world.map().dom().contains(key),
        r matches Some(s) ==> s.of(exposed_counts(world.map()[key]@, world_view(world, key), 512)),
{
    let target = world.brick(key);
    let lookup = |v: VoxelCoord| -> (m: Option<MaterialId>)
        requires
            world.wf(),
        ensures
            m == world.at(v),
        { world.get(v) };
    let ghost f = |v: VoxelCoord| world.at(v);
    assert(answers(lookup, f));
    assert(lookup_view(key, f) =~= world_view(world, key));
    summarize(key, target, lookup)
}

/// Unit faces of material `m` covered by the first `n` quads.
pub open spec fn covered_count(quads: Seq<crate::derived::mesh::Quad>, m: MaterialId, n: nat) -> int
    decreases n,
{
    if n == 0 {
        0
    } else {
        covered_count(quads, m, (n - 1) as nat) + if quads[n - 1].material == m {
            quads[n - 1].spec_area()
        } else {
            0
        }
    }
}

pub open spec fn covered_counts(quads: Seq<crate::derived::mesh::Quad>, n: nat) -> spec_fn(MaterialId) -> int {
    |m: MaterialId| covered_count(quads, m, n)
}

/// The total area of the first `n` quads.
pub open spec fn total_area(quads: Seq<crate::derived::mesh::Quad>, n: nat) -> int
    decreases n,
{
    if n == 0 {
        0
    } else {
        total_area(quads, (n - 1) as nat) + quads[n - 1].spec_area()
    }
}

proof fn lemma_total_area_grows(quads: Seq<crate::derived::mesh::Quad>, a: nat, b: nat)
    requires
        a <= b <= quads.len(),
        forall|i: int| 0 <= i < quads.len() ==> (#[trigger] quads[i]).u0 <= quads[i].u1 && quads[i].v0 <= quads[i].v1,
    ensures
        total_area(quads, a) <= total_area(quads, b),
    decreases b - a,
{
    if a < b {
        lemma_total_area_grows(quads, a, (b - 1) as nat);
        let q = quads[b - 1];
        assert(q.spec_area() >= 0) by (nonlinear_arith)
            requires
                q.spec_area() == (q.u1 - q.u0) * (q.v1 - q.v0),
                q.u0 <= q.u1,
                q.v0 <= q.v1,
        ;
    }
}

impl BrickMesh {
    /// Unit faces per material, the same numbers `summarize` counts directly.
    pub fn summary(&self) -> (r: SurfaceSummary)
        requires
            forall|i: int|
                0 <= i < self.quads@.len() ==> (#[trigger] self.quads@[i]).u0 <= self.quads@[i].u1 && self.quads@[i].v0
                    <= self.quads@[i].v1,
            total_area(self.quads@, self.quads@.len()) <= u32::MAX,
        ensures
            r.of(covered_counts(self.quads@, self.quads@.len())),
            r.total == total_area(self.quads@, self.quads@.len()),
    {
        let mut s = SurfaceSummary::none();
        assert(covered_counts(self.quads@, 0) =~= (|m: MaterialId| 0int));
        let mut i: usize = 0;
        while i < self.quads.len()
            invariant
                i <= self.quads@.len(),
                forall|j: int|
                    0 <= j < self.quads@.len() ==> (#[trigger] self.quads@[j]).u0 <= self.quads@[j].u1
                        && self.quads@[j].v0 <= self.quads@[j].v1,
                total_area(self.quads@, self.quads@.len()) <= u32::MAX,
                s.total == total_area(self.quads@, i as nat),
                s.total == sum_counts(s.by_material@),
                s.of(covered_counts(self.quads@, i as nat)),
            decreases self.quads@.len() - i,
        {
            let q = self.quads[i];
            proof {
                lemma_total_area_grows(self.quads@, (i + 1) as nat, self.quads@.len());
            }
            let c: u32 = q.area();
            s.add(q.material, c);
            assert(bump(covered_counts(self.quads@, i as nat), q.material, c as int) =~= covered_counts(
                self.quads@,
                (i + 1) as nat,
            ));
            i += 1;
        }
        s
    }
}

/// Equality of brick versions.
fn same_version(a: Option<ContentVersion>, b: Option<ContentVersion>) -> (r: bool)
    ensures
        r == (a == b),
{
    match (a, b) {
        (None, None) => true,
        (Some(x), Some(y)) => x.number == y.number,
        _ => false,
    }
}

fn version_of(world: &World, k: BrickKey) -> (r: Option<ContentVersion>)
    requires
        world.wf(),
    ensures
        r == world.brick_version(k),
{
    match world.brick(k) {
        Some(b) => Some(b.version()),
        None => None,
    }
}

/// The seven brick keys a result read and the version each had (`None`: the brick did not exist).
#[derive(Clone, Copy, Debug, PartialEq, Eq)]
pub struct InputRecord {
    pub keys: [BrickKey; 7],
    pub versions: [Option<ContentVersion>; 7],
}

impl InputRecord {
    /// Input `i` has another version in `world`.
    pub open spec fn version_changed(&self, world: &World, i: int) -> bool {
        world.brick_version(self.keys@[i]) != self.versions@[i]
    }

    /// The first input whose version differs from the world's current one, if any.
    pub fn first_version_change(&self, world: &World) -> (r: Option<BrickKey>)
        requires
            world.wf(),
        ensures
            match r {
                Some(k) => exists|i: int|
                    0 <= i < 7 && #[trigger] self.version_changed(world, i) && self.keys@[i] == k && forall|j: int|
                        0 <= j < i ==> !#[trigger] self.version_changed(world, j),
                None => forall|i: int| 0 <= i < 7 ==> !#[trigger] self.version_changed(world, i),
            },
    {
        let mut i: usize = 0;
        while i < 7
            invariant
                i <= 7,
                world.wf(),
                forall|j: int| 0 <= j < i ==> !#[trigger] self.version_changed(world, j),
            decreases 7 - i,
        {
            if !same_version(version_of(world, self.keys[i]), self.versions[i]) {
                assert(self.version_changed(world, i as int));
                return Some(self.keys[i]);
            }
            i += 1;
        }
        None
    }
}

/// Cell `i` of the layer just outside face `n` (1..=6 in `input_keys` order).
pub open spec fn layer_cell(n: int, i: int) -> (int, int, int) {
    let out = if n % 2 == 1 {
        -1int
    } else {
        8int
    };
    let (a, b) = (i % 8, i / 8);
    if n <= 2 {
        (out, a, b)
    } else if n <= 4 {
        (a, out, b)
    } else {
        (a, b, out)
    }
}

/// The layer just outside face `n`.
pub open spec fn spec_face_layer(near: Local, n: int) -> Seq<Option<MaterialId>> {
    Seq::new(64, |i: int| near(layer_cell(n, i)))
}

/// The voxel layer just outside `key`'s face `n` (1..=6 in `input_keys` order), read through
/// `lookup`.
fn face_layer<F: Fn(VoxelCoord) -> Option<MaterialId>>(key: BrickKey, n: usize, lookup: &F) -> (r: Vec<Option<MaterialId>>)
    requires
        key.inner(),
        1 <= n <= 6,
        forall|v: VoxelCoord| lookup.requires((v,)),
    ensures
        r@.len() == 64,
        forall|f: spec_fn(VoxelCoord) -> Option<MaterialId>| #[trigger]
            answers(*lookup, f) ==> r@ == spec_face_layer(lookup_view(key, f), n as int),
{
    let o = key.origin();
    let out: i32 = if n % 2 == 1 {
        -1
    } else {
        8
    };
    let mut layer: Vec<Option<MaterialId>> = Vec::new();
    let mut i: usize = 0;
    while i < 64
        invariant
            i <= 64,
            1 <= n <= 6,
            key.inner(),
            o == key.spec_origin(),
            out == if n % 2 == 1 {
                -1int
            } else {
                8int
            },
            forall|v: VoxelCoord| lookup.requires((v,)),
            layer@.len() == i,
            forall|j: int| 0 <= j < i ==> lookup.ensures((voxel(key, layer_cell(n as int, j)),), #[trigger] layer@[j]),
        decreases 64 - i,
    {
        let (a, b) = ((i % 8) as i32, (i / 8) as i32);
        let l = if n <= 2 {
            (out, a, b)
        } else if n <= 4 {
            (a, out, b)
        } else {
            (a, b, out)
        };
        let p = VoxelCoord { x: o.x + l.0, y: o.y + l.1, z: o.z + l.2 };
        assert(p == voxel(key, layer_cell(n as int, i as int)));
        layer.push(lookup(p));
        i += 1;
    }
    proof {
        assert forall|f: spec_fn(VoxelCoord) -> Option<MaterialId>| #[trigger] answers(*lookup, f) implies layer@ == spec_face_layer(
            lookup_view(key, f),
            n as int,
        ) by {
            assert(layer@ =~= spec_face_layer(lookup_view(key, f), n as int));
        }
    }
    layer
}

fn same_layer(a: &Vec<Option<MaterialId>>, b: &Vec<Option<MaterialId>>) -> (r: bool)
    requires
        a@.len() == 64,
        b@.len() == 64,
    ensures
        r == (a@ == b@),
{
    let mut i: usize = 0;
    while i < 64
        invariant
            i <= 64,
            a@.len() == 64,
            b@.len() == 64,
            forall|j: int| 0 <= j < i ==> a@[j] == b@[j],
        decreases 64 - i,
    {
        if !same_material(a[i], b[i]) {
            return false;
        }
        i += 1;
    }
    assert(a@ =~= b@);
    true
}

/// Everything a result depends on, exactly: the target brick's content and the six neighbouring
/// face layers.
#[derive(Clone, Debug)]
pub struct Dependencies {
    pub record: InputRecord,
    pub target: Option<Brick>,
    pub faces: Vec<Vec<Option<MaterialId>>>,
}

/// Whether two bricks, either of which may be absent, hold the same voxels.
pub open spec fn same_voxels(a: Option<Brick>, b: Option<Brick>) -> bool {
    match (a, b) {
        (None, None) => true,
        (Some(x), Some(y)) => x@ == y@,
        _ => false,
    }
}

impl Dependencies {
    pub open spec fn spec_record(&self) -> InputRecord {
        self.record
    }

    pub closed spec fn spec_target(&self) -> Option<Brick> {
        self.target
    }

    /// The recorded layer outside face `n` (1..=6).
    pub closed spec fn layer(&self, n: int) -> Seq<Option<MaterialId>> {
        self.faces@[n - 1]@
    }

    pub closed spec fn shaped(&self) -> bool {
        &&& self.faces@.len() == 6
        &&& forall|i: int| 0 <= i < 6 ==> (#[trigger] self.faces@[i])@.len() == 64
        &&& self.target matches Some(b) ==> b.wf()
    }

    pub open spec fn wf(&self) -> bool {
        &&& self.shaped()
        &&& self.key().inner()
        &&& self.spec_record().keys@ == spec_input_keys(self.key())
    }

    pub open spec fn key(&self) -> BrickKey {
        self.spec_record().keys@[0]
    }

    /// What the result read of input `i` is no longer what `world` holds.
    pub open spec fn changed(&self, world: &World, i: int) -> bool {
        &&& self.spec_record().version_changed(world, i)
        &&& if i == 0 {
            !same_voxels(world.spec_brick(self.key()), self.spec_target())
        } else {
            spec_face_layer(world_view(world, self.key()), i) != self.layer(i)
        }
    }

    /// Nothing the result read has changed.
    pub open spec fn current(&self, world: &World) -> bool {
        forall|i: int| 0 <= i < 7 ==> !#[trigger] self.changed(world, i)
    }

    pub fn inputs(&self) -> (r: InputRecord)
        ensures
            r == self.spec_record(),
    {
        self.record
    }

    /// The first input whose relevant content changed. Versions are the fast path; on a version
    /// mismatch the recorded content is compared with the world's.
    pub fn first_changed(&self, world: &World) -> (r: Option<BrickKey>)
        requires
            world.wf(),
            self.wf(),
        ensures
            match r {
                Some(k) => exists|i: int|
                    0 <= i < 7 && #[trigger] self.changed(world, i) && self.spec_record().keys@[i] == k && forall|j: int|
                        0 <= j < i ==> !#[trigger] self.changed(world, j),
                None => self.current(world),
            },
    {
        let key = self.record.keys[0];
        let lookup = |v: VoxelCoord| -> (m: Option<MaterialId>)
            requires
                world.wf(),
            ensures
                m == world.at(v),
            { world.get(v) };
        let ghost f = |v: VoxelCoord| world.at(v);
        assert(answers(lookup, f));
        assert(lookup_view(key, f) =~= world_view(world, key));
        let mut i: usize = 0;
        while i < 7
            invariant
                i <= 7,
                world.wf(),
                self.wf(),
                key == self.key(),
                forall|v: VoxelCoord| lookup.requires((v,)),
                answers(lookup, f),
                lookup_view(key, f) == world_view(world, key),
                forall|j: int| 0 <= j < i ==> !#[trigger] self.changed(world, j),
            decreases 7 - i,
        {
            let k = self.record.keys[i];
            if !same_version(version_of(world, k), self.record.versions[i]) {
                let differs = if i == 0 {
                    match (world.brick(k), &self.target) {
                        (None, None) => false,
                        (Some(a), Some(b)) => !a.same_content(b),
                        _ => true,
                    }
                } else {
                    let now = face_layer(key, i, &lookup);
                    !same_layer(&now, &self.faces[i - 1])
                };
                if differs {
                    assert(self.changed(world, i as int));
                    return Some(k);
                }
            }
            i += 1;
        }
        None
    }
}

/// Immutable copies of a job's input bricks, taken at dispatch, plus their record.
#[derive(Clone, Debug)]
pub struct InputSnapshot {
    pub record: InputRecord,
    pub bricks: Vec<Option<Brick>>,
}

impl InputSnapshot {
    pub open spec fn spec_record(&self) -> InputRecord {
        self.record
    }

    pub closed spec fn spec_bricks(&self) -> Seq<Option<Brick>> {
        self.bricks@
    }

    pub open spec fn key(&self) -> BrickKey {
        self.spec_record().keys@[0]
    }

    pub open spec fn wf(&self) -> bool {
        &&& self.spec_bricks().len() == 7
        &&& forall|i: int| 0 <= i < 7 ==> (#[trigger] self.spec_bricks()[i] matches Some(b) ==> b.wf())
        &&& self.key().inner()
        &&& self.spec_record().keys@ == spec_input_keys(self.key())
    }

    /// The material of voxel `v` in the copies.
    pub open spec fn at(&self, v: VoxelCoord) -> Option<MaterialId> {
        let i = self.spec_record().keys@.index_of(v.key());
        if self.spec_record().keys@.contains(v.key()) {
            match self.spec_bricks()[i] {
                Some(b) => b@[v.place()],
                None => None,
            }
        } else {
            None
        }
    }

    /// The copies' cells in and around the target.
    pub open spec fn view_at(&self) -> Local {
        brick_view(self.key(), self.spec_bricks()[0]->0, |v: VoxelCoord| self.at(v))
    }

    /// These are copies of `world`'s bricks around `key`.
    pub open spec fn of(&self, world: &World, key: BrickKey) -> bool {
        &&& self.key() == key
        &&& forall|i: int|
            0 <= i < 7 ==> {
                &&& same_voxels(#[trigger] self.spec_bricks()[i], world.spec_brick(self.spec_record().keys@[i]))
                &&& self.spec_record().versions@[i] == world.brick_version(self.spec_record().keys@[i])
            }
    }

    pub fn capture(world: &World, key: BrickKey) -> (r: InputSnapshot)
        requires
            world.wf(),
            key.inner(),
        ensures
            r.wf(),
            r.of(world, key),
    {
        let keys = input_keys(key);
        let mut bricks: Vec<Option<Brick>> = Vec::new();
        let mut i: usize = 0;
        while i < 7
            invariant
                i <= 7,
                world.wf(),
                bricks@.len() == i,
                forall|j: int|
                    0 <= j < i ==> {
                        &&& #[trigger] bricks@[j] matches Some(b) ==> b.wf()
                        &&& same_voxels(bricks@[j], world.spec_brick(keys@[j]))
                        &&& (bricks@[j] matches Some(b) ==> b.spec_version() == world.map()[keys@[j]].spec_version())
                    },
            decreases 7 - i,
        {
            let copied = match world.brick(keys[i]) {
                Some(b) => Some(b.copy()),
                None => None,
            };
            bricks.push(copied);
            i += 1;
        }
        let versions = [
            recorded(&bricks[0]),
            recorded(&bricks[1]),
            recorded(&bricks[2]),
            recorded(&bricks[3]),
            recorded(&bricks[4]),
            recorded(&bricks[5]),
            recorded(&bricks[6]),
        ];
        let r = InputSnapshot { record: InputRecord { keys, versions }, bricks };
        assert forall|j: int| 0 <= j < 7 implies {
            &&& same_voxels(#[trigger] r.spec_bricks()[j], world.spec_brick(r.spec_record().keys@[j]))
            &&& r.spec_record().versions@[j] == world.brick_version(r.spec_record().keys@[j])
        } by {
            let b = r.spec_bricks()[j];
            assert(r.spec_record().versions@[j] == version_in(b));
        }
        r
    }

    fn lookup(&self, v: VoxelCoord) -> (r: Option<MaterialId>)
        requires
            self.wf(),
        ensures
            r == self.at(v),
    {
        let (k, idx) = v.split();
        let mut i: usize = 0;
        while i < 7
            invariant
                i <= 7,
                self.wf(),
                k == v.key(),
                idx.raw == v.place(),
                idx.raw < 512,
                forall|j: int| 0 <= j < i ==> self.spec_record().keys@[j] != k,
            decreases 7 - i,
        {
            if self.record.keys[i] == k {
                proof {
                    lemma_index_of_first(self.spec_record().keys@, k, i as int);
                }
                return match &self.bricks[i] {
                    Some(b) => b.get(idx),
                    None => None,
                };
            }
            i += 1;
        }
        None
    }

    /// Recomputes the summary from the copies alone.
    pub fn summarize(&self) -> (r: Option<SurfaceSummary>)
        requires
            self.wf(),
        ensures
            r is Some == self.spec_bricks()[0] is Some,
            r matches Some(s) ==> s.of(
                exposed_counts(
                    self.spec_bricks()[0]->0@,
                    lookup_view(self.key(), |v: VoxelCoord| self.at(v)),
                    512,
                ),
            ),
    {
        let lookup = |v: VoxelCoord| -> (m: Option<MaterialId>)
            requires
                self.wf(),
            ensures
                m == self.at(v),
            { self.lookup(v) };
        let ghost f = |v: VoxelCoord| self.at(v);
        assert(answers(lookup, f));
        summarize(self.record.keys[0], self.bricks[0].as_ref(), lookup)
    }

    /// Extracts the target's mesh from the copies alone.
    pub fn extract(&self, merge: Merge) -> (r: Option<BrickMesh>)
        requires
            self.wf(),
        ensures
            r is Some == self.spec_bricks()[0] is Some,
            r matches Some(mesh) ==> mesh.quads@ == mesh_quads(self.view_at(), merge),
    {
        let lookup = |v: VoxelCoord| -> (m: Option<MaterialId>)
            requires
                self.wf(),
            ensures
                m == self.at(v),
            { self.lookup(v) };
        let ghost f = |v: VoxelCoord| self.at(v);
        assert(answers(lookup, f));
        crate::derived::mesh::extract(self.record.keys[0], self.bricks[0].as_ref(), lookup, merge)
    }

    /// The exact dependency record for the result computed from these copies.
    pub fn dependencies(&self) -> (r: Dependencies)
        requires
            self.wf(),
        ensures
            r.wf(),
            r.spec_record() == self.spec_record(),
            same_voxels(r.spec_target(), self.spec_bricks()[0]),
            forall|n: int|
                1 <= n <= 6 ==> #[trigger] r.layer(n) == spec_face_layer(
                    lookup_view(self.key(), |v: VoxelCoord| self.at(v)),
                    n,
                ),
    {
        let key = self.record.keys[0];
        let lookup = |v: VoxelCoord| -> (m: Option<MaterialId>)
            requires
                self.wf(),
            ensures
                m == self.at(v),
            { self.lookup(v) };
        let ghost f = |v: VoxelCoord| self.at(v);
        assert(answers(lookup, f));
        let mut faces: Vec<Vec<Option<MaterialId>>> = Vec::new();
        let mut n: usize = 0;
        while n < 6
            invariant
                n <= 6,
                self.wf(),
                key == self.key(),
                forall|v: VoxelCoord| lookup.requires((v,)),
                answers(lookup, f),
                faces@.len() == n,
                forall|j: int|
                    0 <= j < n ==> (#[trigger] faces@[j])@ == spec_face_layer(lookup_view(key, f), j + 1)
                        && faces@[j]@.len() == 64,
            decreases 6 - n,
        {
            faces.push(face_layer(key, n + 1, &lookup));
            n += 1;
        }
        let target = match &self.bricks[0] {
            Some(b) => Some(b.copy()),
            None => None,
        };
        let r = Dependencies { record: self.record, target, faces };
        assert forall|q: int| 1 <= q <= 6 implies #[trigger] r.layer(q) == spec_face_layer(
            lookup_view(self.key(), |v: VoxelCoord| self.at(v)),
            q,
        ) by {
            assert(faces@[q - 1]@ == spec_face_layer(lookup_view(key, f), q));
        }
        r
    }
}

spec fn version_in(b: Option<Brick>) -> Option<ContentVersion> {
    match b {
        Some(x) => Some(x.spec_version()),
        None => None,
    }
}

fn recorded(b: &Option<Brick>) -> (r: Option<ContentVersion>)
    ensures
        r == version_in(*b),
{
    match b {
        Some(x) => Some(x.version()),
        None => None,
    }
}

proof fn lemma_index_of_first(s: Seq<BrickKey>, k: BrickKey, i: int)
    requires
        0 <= i < s.len(),
        s[i] == k,
        s.no_duplicates() || s == spec_input_keys(s[0]) && s[0].inner(),
    ensures
        s.contains(k),
        s.index_of(k) == i,
{
    let j = s.index_of(k);
    assert(s.contains(k));
    assert(0 <= j < s.len() && s[j] == k);
}

/// Around its target, a capture holds what the world held.
pub proof fn lemma_capture_sees_world(snap: &InputSnapshot, world: &World, key: BrickKey)
    requires
        snap.wf(),
        world.wf(),
        snap.of(world, key),
    ensures
        forall|p: (int, int, int)|
            inside(p) || outside(p) ==> #[trigger] snap.at(voxel(key, p)) == world.at(voxel(key, p)),
{
    assert forall|p: (int, int, int)| inside(p) || outside(p) implies #[trigger] snap.at(voxel(key, p)) == world.at(voxel(key, p)) by {
        let v = voxel(key, p);
        let ks = snap.spec_record().keys@;
        let i: int = if inside(p) {
            0
        } else if p.0 == -1 {
            1
        } else if p.0 == 8 {
            2
        } else if p.1 == -1 {
            3
        } else if p.1 == 8 {
            4
        } else if p.2 == -1 {
            5
        } else {
            6
        };
        assert(ks[i] == v.key());
        lemma_index_of_first(ks, v.key(), i);
        assert(same_voxels(snap.spec_bricks()[i], world.spec_brick(ks[i])));
    }
}

/// A mesh extracted from a capture is the mesh of the world it was captured from.
pub proof fn law_capture_extracts_the_world_mesh(snap: &InputSnapshot, world: &World, key: BrickKey, merge: Merge)
    requires
        snap.wf(),
        world.wf(),
        snap.of(world, key),
    ensures
        snap.spec_bricks()[0] is Some == world.map().dom().contains(key),
        world.map().dom().contains(key) ==> mesh_quads(snap.view_at(), merge) == mesh_quads(world_view(world, key), merge),
{
    assert(same_voxels(snap.spec_bricks()[0], world.spec_brick(snap.spec_record().keys@[0])));
    if world.map().dom().contains(key) {
        lemma_capture_sees_world(snap, world, key);
        crate::derived::mesh::lemma_brick_is_world(world, key);
        let a = snap.view_at();
        let b = world_view(world, key);
        assert forall|p: (int, int, int)| inside(p) implies #[trigger] a(p) == b(p) by {
            assert(b(p) == world.map()[key].local(p.0, p.1, p.2));
        }
        assert forall|p: (int, int, int)| outside(p) implies (#[trigger] a(p) is None <==> b(p) is None) by {
            assert(snap.at(voxel(key, p)) == world.at(voxel(key, p)));
        }
        crate::derived::mesh::law_mesh_depends_on_brick_and_face_layers(a, b, merge);
    }
}

/// The summary of a capture is the summary of the world it was captured from.
pub proof fn law_capture_summarizes_the_world(snap: &InputSnapshot, world: &World, key: BrickKey)
    requires
        snap.wf(),
        world.wf(),
        snap.of(world, key),
        world.map().dom().contains(key),
    ensures
        snap.spec_bricks()[0]->0@ == world.map()[key]@,
        exposed_counts(snap.spec_bricks()[0]->0@, lookup_view(key, |v: VoxelCoord| snap.at(v)), 512) == exposed_counts(
            world.map()[key]@,
            world_view(world, key),
            512,
        ),
{
    assert(same_voxels(snap.spec_bricks()[0], world.spec_brick(snap.spec_record().keys@[0])));
    lemma_capture_sees_world(snap, world, key);
    let own = world.map()[key]@;
    let a = lookup_view(key, |v: VoxelCoord| snap.at(v));
    let b = world_view(world, key);
    assert forall|m: MaterialId| exposed_count(own, a, m, 512) == exposed_count(own, b, m, 512) by {
        lemma_counts_agree(own, a, b, m, 512, key, snap, world);
    }
    assert(exposed_counts(own, a, 512) =~= exposed_counts(own, b, 512));
}

proof fn lemma_counts_agree(
    own: Seq<Option<MaterialId>>,
    a: Local,
    b: Local,
    m: MaterialId,
    n: nat,
    key: BrickKey,
    snap: &InputSnapshot,
    world: &World,
)
    requires
        n <= 512,
        a == lookup_view(key, |v: VoxelCoord| snap.at(v)),
        b == world_view(world, key),
        forall|p: (int, int, int)|
            inside(p) || outside(p) ==> #[trigger] snap.at(voxel(key, p)) == world.at(voxel(key, p)),
    ensures
        exposed_count(own, a, m, n) == exposed_count(own, b, m, n),
    decreases n,
{
    if n > 0 {
        lemma_counts_agree(own, a, b, m, (n - 1) as nat, key, snap, world);
        let p = cell_of(n - 1);
        assert(inside(p));
        let s = seq![
            (p.0 - 1, p.1, p.2),
            (p.0 + 1, p.1, p.2),
            (p.0, p.1 - 1, p.2),
            (p.0, p.1 + 1, p.2),
            (p.0, p.1, p.2 - 1),
            (p.0, p.1, p.2 + 1),
        ];
        assert forall|i: int| 0 <= i < 6 implies a(#[trigger] s[i]) == b(s[i]) by {
            assert(inside(s[i]) || outside(s[i]));
            assert(snap.at(voxel(key, s[i])) == world.at(voxel(key, s[i])));
        }
        assert(a(s[0]) == b(s[0]) && a(s[1]) == b(s[1]) && a(s[2]) == b(s[2]) && a(s[3]) == b(s[3]) && a(s[4]) == b(s[4])
            && a(s[5]) == b(s[5]));
    }
}

/// The record holds what `world` held around its key.
pub open spec fn recorded_from(deps: &Dependencies, world: &World) -> bool {
    &&& forall|i: int| 0 <= i < 7 ==> #[trigger] deps.spec_record().versions@[i] == world.brick_version(deps.spec_record().keys@[i])
    &&& same_voxels(deps.spec_target(), world.spec_brick(deps.key()))
    &&& forall|n: int| 1 <= n <= 6 ==> #[trigger] deps.layer(n) == spec_face_layer(world_view(world, deps.key()), n)
}

/// The dependencies of a capture record the world it was captured from.
pub proof fn law_dependencies_record_the_world(deps: &Dependencies, snap: &InputSnapshot, world: &World, key: BrickKey)
    requires
        snap.wf(),
        world.wf(),
        snap.of(world, key),
        deps.wf(),
        deps.spec_record() == snap.spec_record(),
        same_voxels(deps.spec_target(), snap.spec_bricks()[0]),
        forall|n: int|
            1 <= n <= 6 ==> #[trigger] deps.layer(n) == spec_face_layer(
                lookup_view(snap.key(), |v: VoxelCoord| snap.at(v)),
                n,
            ),
    ensures
        recorded_from(deps, world),
{
    lemma_capture_sees_world(snap, world, key);
    assert(same_voxels(snap.spec_bricks()[0], world.spec_brick(snap.spec_record().keys@[0])));
    assert forall|i: int| 0 <= i < 7 implies #[trigger] deps.spec_record().versions@[i] == world.brick_version(deps.spec_record().keys@[i]) by {
        assert(same_voxels(snap.spec_bricks()[i], world.spec_brick(snap.spec_record().keys@[i])));
    }
    assert forall|n: int| 1 <= n <= 6 implies #[trigger] deps.layer(n) == spec_face_layer(world_view(world, deps.key()), n) by {
        let a = lookup_view(snap.key(), |v: VoxelCoord| snap.at(v));
        assert forall|i: int| 0 <= i < 64 implies #[trigger] spec_face_layer(a, n)[i] == spec_face_layer(world_view(world, key), n)[i] by {
            let p = layer_cell(n, i);
            assert(outside(p));
            assert(snap.at(voxel(key, p)) == world.at(voxel(key, p)));
        }
        assert(spec_face_layer(a, n) =~= spec_face_layer(world_view(world, key), n));
    }
}

/// Unchanged dependencies mean an unchanged result, even when a neighbour's version changed
/// through an edit elsewhere in that brick.
pub proof fn law_current_dependencies_mean_the_same_mesh(deps: &Dependencies, earlier: &World, later: &World, merge: Merge)
    requires
        deps.wf(),
        earlier.wf(),
        later.wf(),
        later.follows(earlier),
        recorded_from(deps, earlier),
        deps.current(later),
    ensures
        same_voxels(later.spec_brick(deps.key()), earlier.spec_brick(deps.key())),
        mesh_quads(world_view(later, deps.key()), merge) == mesh_quads(world_view(earlier, deps.key()), merge),
{
    let key = deps.key();
    let ks = deps.spec_record().keys@;
    let a = world_view(later, key);
    let b = world_view(earlier, key);
    assert(!deps.changed(later, 0));
    assert(deps.spec_record().versions@[0] == earlier.brick_version(ks[0]));
    if later.brick_version(key) == earlier.brick_version(key) {
        World::law_equal_version_equal_content(later, earlier, key);
    }
    assert(same_voxels(later.spec_brick(key), earlier.spec_brick(key)));
    assert forall|p: (int, int, int)| inside(p) implies #[trigger] a(p) == b(p) by {
        assert(voxel(key, p).key() == key);
    }
    assert forall|p: (int, int, int)| outside(p) implies (#[trigger] a(p) is None <==> b(p) is None) by {
        let n: int = if p.0 == -1 {
            1
        } else if p.0 == 8 {
            2
        } else if p.1 == -1 {
            3
        } else if p.1 == 8 {
            4
        } else if p.2 == -1 {
            5
        } else {
            6
        };
        let i = if n <= 2 {
            p.1 + 8 * p.2
        } else if n <= 4 {
            p.0 + 8 * p.2
        } else {
            p.0 + 8 * p.1
        };
        assert(layer_cell(n, i) == p);
        assert(!deps.changed(later, n));
        assert(deps.spec_record().versions@[n] == earlier.brick_version(ks[n]));
        if later.brick_version(ks[n]) == earlier.brick_version(ks[n]) {
            World::law_equal_version_equal_content(later, earlier, ks[n]);
            assert(voxel(key, p).key() == ks[n]);
        } else {
            assert(deps.layer(n) == spec_face_layer(b, n));
            assert(spec_face_layer(a, n)[i] == spec_face_layer(b, n)[i]);
        }
    }
    crate::derived::mesh::law_mesh_depends_on_brick_and_face_layers(a, b, merge);
}

} // verus!
