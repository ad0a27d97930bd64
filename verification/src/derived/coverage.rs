//! What a mesh covers: every exposed unit face of its brick exactly once, with its material, and
//! nothing else.
use crate::derived::mesh::{
    cell, covers, face_at, inside, layer_mask, layer_quads, layers, mesh_quads, quad_of, rect_at, row_is, rows, run,
    tiles, without, world_view, Local, Merge, Quad, Rect,
};
use crate::derived::surface::{
    bare, cell_of, covered_count, covered_counts, exposed_count, exposed_counts, one_if, total_area, SurfaceSummary,
};
use crate::world::{BrickKey, MaterialId, World};
use vstd::prelude::*;

verus! {

/// The coordinate of `p` on axis `a`.
pub open spec fn along(a: int, p: (int, int, int)) -> int {
    if a == 0 {
        p.0
    } else if a == 1 {
        p.1
    } else {
        p.2
    }
}

/// Whether `q` covers face `face` of the voxel at `p`.
pub open spec fn quad_covers(q: Quad, p: (int, int, int), face: int) -> bool {
    let a = face / 2;
    &&& q.face == face
    &&& along(a, p) == q.depth()
    &&& q.u0 <= along((a + 1) % 3, p) < q.u1
    &&& q.v0 <= along((a + 2) % 3, p) < q.v1
}

/// The material of face `face` of the voxel at `p`, when that face is exposed.
pub open spec fn exposed_at(occ: Local, p: (int, int, int), face: int) -> Option<MaterialId> {
    face_at(occ, face, along(face / 2, p), along((face / 2 + 1) % 3, p), along((face / 2 + 2) % 3, p))
}

/// Whether `r` covers face `j` of its layer.
pub open spec fn hits(r: Rect, j: int) -> bool {
    covers(r, j % 8, j / 8)
}

proof fn lemma_run_holds(mask: Seq<Option<MaterialId>>, m: MaterialId, u: int, v: int)
    requires
        0 <= u <= 8,
    ensures
        0 <= run(mask, m, u, v) <= 8 - u,
        forall|x: int| u <= x < u + run(mask, m, u, v) ==> #[trigger] mask[8 * v + x] == Some(m),
    decreases 8 - u,
{
    if u < 8 && mask[8 * v + u] == Some(m) {
        lemma_run_holds(mask, m, u + 1, v);
    }
}

proof fn lemma_rows_hold(mask: Seq<Option<MaterialId>>, m: MaterialId, u0: int, u1: int, v: int)
    requires
        0 <= v <= 8,
    ensures
        0 <= rows(mask, m, u0, u1, v) <= 8 - v,
        forall|y: int| v <= y < v + rows(mask, m, u0, u1, v) ==> #[trigger] row_is(mask, m, u0, u1, y),
    decreases 8 - v,
{
    if v < 8 && row_is(mask, m, u0, u1, v) {
        lemma_rows_hold(mask, m, u0, u1, v + 1);
    }
}

/// A rectangle of a layer lies on faces of its own material.
proof fn lemma_rect(mask: Seq<Option<MaterialId>>, merge: Merge, i: int)
    requires
        mask.len() == 64,
        0 <= i < 64,
        mask[i] is Some,
    ensures
        ({
            let r = rect_at(mask, merge, i);
            &&& r.u0 == i % 8
            &&& r.v0 == i / 8
            &&& r.u0 < r.u1 <= 8
            &&& r.v0 < r.v1 <= 8
            &&& mask[i] == Some(r.material)
            &&& forall|j: int| 0 <= j < 64 && #[trigger] hits(r, j) ==> mask[j] == Some(r.material)
        }),
{
    let r = rect_at(mask, merge, i);
    let m = mask[i]->0;
    let (u, v) = (i % 8, i / 8);
    assert(mask[8 * v + u] == Some(m));
    if merge == Merge::Greedy {
        lemma_run_holds(mask, m, u, v);
        lemma_run_holds(mask, m, u + 1, v);
        let w = run(mask, m, u, v);
        assert(row_is(mask, m, u, u + w, v));
        lemma_rows_hold(mask, m, u, u + w, v);
        lemma_rows_hold(mask, m, u, u + w, v + 1);
        assert forall|j: int| 0 <= j < 64 && #[trigger] hits(r, j) implies mask[j] == Some(r.material) by {
            assert(row_is(mask, m, u, u + w, j / 8));
            assert(mask[8 * (j / 8) + j % 8] == Some(m));
        }
    } else {
        assert forall|j: int| 0 <= j < 64 && #[trigger] hits(r, j) implies mask[j] == Some(r.material) by {
            assert(j == i);
        }
    }
}

/// The tiles of a mask cover its faces once each.
proof fn lemma_tiles(mask: Seq<Option<MaterialId>>, merge: Merge, i: int)
    requires
        mask.len() == 64,
        0 <= i <= 64,
        forall|j: int| 0 <= j < i ==> #[trigger] mask[j] is None,
    ensures
        ({
            let t = tiles(mask, merge, i);
            &&& forall|k: int|
                0 <= k < t.len() ==> (#[trigger] t[k]).u0 < t[k].u1 && t[k].u1 <= 8 && t[k].v0 < t[k].v1 && t[k].v1
                    <= 8
            &&& forall|k: int, j: int|
                0 <= k < t.len() && 0 <= j < 64 && #[trigger] hits(t[k], j) ==> mask[j] == Some(
                    t[k].material,
                )
            &&& forall|j: int|
                0 <= j < 64 && #[trigger] mask[j] is Some ==> exists|k: int|
                    0 <= k < t.len() && #[trigger] hits(t[k], j)
            &&& forall|k: int, l: int, j: int|
                0 <= k < l < t.len() && 0 <= j < 64 ==> !(#[trigger] hits(t[k], j) && #[trigger] hits(t[l], j))
        }),
    decreases 64 - i,
{
    let t = tiles(mask, merge, i);
    if i < 64 {
        if mask[i] is None {
            lemma_tiles(mask, merge, i + 1);
            assert(t == tiles(mask, merge, i + 1));
        } else {
            lemma_rect(mask, merge, i);
            let r = rect_at(mask, merge, i);
            let rest = without(mask, r);
            assert(hits(r, i));
            assert forall|j: int| 0 <= j < i + 1 implies #[trigger] rest[j] is None by {
                if j < i {
                    assert(mask[j] is None);
                }
            }
            lemma_tiles(rest, merge, i + 1);
            let s = tiles(rest, merge, i + 1);
            assert(t =~= seq![r] + s);
            assert forall|k: int| 0 <= k < t.len() implies (#[trigger] t[k]).u0 < t[k].u1 && t[k].u1 <= 8 && t[k].v0
                < t[k].v1 && t[k].v1 <= 8 by {
                if k > 0 {
                    assert(t[k] == s[k - 1]);
                }
            }
            assert forall|k: int, j: int| 0 <= k < t.len() && 0 <= j < 64 && #[trigger] hits(t[k], j) implies mask[j]
                == Some(t[k].material) by {
                if k > 0 {
                    assert(t[k] == s[k - 1]);
                    assert(hits(s[k - 1], j));
                    assert(rest[j] == Some(s[k - 1].material));
                }
            }
            assert forall|j: int| 0 <= j < 64 && #[trigger] mask[j] is Some implies exists|k: int|
                0 <= k < t.len() && #[trigger] hits(t[k], j) by {
                if hits(r, j) {
                    assert(hits(t[0], j));
                } else {
                    assert(rest[j] is Some);
                    let k = choose|k: int| 0 <= k < s.len() && #[trigger] hits(s[k], j);
                    assert(hits(t[k + 1], j));
                }
            }
            assert forall|k: int, l: int, j: int| 0 <= k < l < t.len() && 0 <= j < 64 implies !(#[trigger] hits(t[k], j) && #[trigger] hits(t[l], j)) by {
                assert(t[l] == s[l - 1]);
                if k == 0 {
                    if hits(r, j) && hits(s[l - 1], j) {
                        assert(rest[j] is None);
                        assert(rest[j] == Some(s[l - 1].material));
                    }
                } else {
                    assert(t[k] == s[k - 1]);
                }
            }
        }
    }
}

/// Whether layer `n` holds face `face` of the voxel at `p`.
spec fn layer_of(p: (int, int, int), face: int) -> int {
    8 * face + along(face / 2, p)
}

spec fn flat(p: (int, int, int), face: int) -> int {
    along((face / 2 + 1) % 3, p) + 8 * along((face / 2 + 2) % 3, p)
}

proof fn lemma_layer(occ: Local, merge: Merge, n: int)
    requires
        0 <= n < 48,
    ensures
        ({
            let s = layer_quads(occ, merge, n / 8, n % 8);
            &&& forall|k: int|
                0 <= k < s.len() ==> (#[trigger] s[k]).wf() && s[k].face == n / 8 && s[k].depth() == n % 8
            &&& forall|k: int, p: (int, int, int), face: int|
                0 <= k < s.len() && inside(p) && 0 <= face < 6 && #[trigger] quad_covers(s[k], p, face) ==> layer_of(
                    p,
                    face,
                ) == n && exposed_at(occ, p, face) == Some(s[k].material)
            &&& forall|p: (int, int, int), face: int|
                inside(p) && 0 <= face < 6 && layer_of(p, face) == n && #[trigger] exposed_at(occ, p, face) is Some
                    ==> exists|k: int| 0 <= k < s.len() && #[trigger] quad_covers(s[k], p, face)
            &&& forall|k: int, l: int, p: (int, int, int), face: int|
                0 <= k < l < s.len() && inside(p) && 0 <= face < 6 ==> !(#[trigger] quad_covers(s[k], p, face)
                    && #[trigger] quad_covers(s[l], p, face))
        }),
{
    let (f, d) = (n / 8, n % 8);
    let mask = layer_mask(occ, f, d);
    let t = tiles(mask, merge, 0);
    let s = layer_quads(occ, merge, f, d);
    lemma_tiles(mask, merge, 0);
    assert(s.len() == t.len());
    assert forall|k: int| 0 <= k < s.len() implies (#[trigger] s[k]).wf() && s[k].face == f && s[k].depth() == d by {
        let r = t[k];
        assert(s[k] == quad_of(r, f, d));
    }
    assert forall|k: int, p: (int, int, int), face: int|
        0 <= k < s.len() && inside(p) && 0 <= face < 6 && #[trigger] quad_covers(s[k], p, face) implies layer_of(p, face) == n
        && exposed_at(occ, p, face) == Some(s[k].material) && hits(t[k], flat(p, face)) by {
        assert(s[k].wf() && s[k].face == f && s[k].depth() == d);
        let r = t[k];
        assert(s[k] == quad_of(r, f, d));
        let j = flat(p, face);
        assert(hits(t[k], j));
        assert(mask[j] == Some(t[k].material));
    }
    assert forall|p: (int, int, int), face: int|
        inside(p) && 0 <= face < 6 && layer_of(p, face) == n && #[trigger] exposed_at(occ, p, face) is Some implies exists|k: int|
        0 <= k < s.len() && #[trigger] quad_covers(s[k], p, face) by {
        let j = flat(p, face);
        assert(mask[j] is Some);
        let k = choose|k: int| 0 <= k < t.len() && #[trigger] hits(t[k], j);
        let r = t[k];
        assert(s[k] == quad_of(r, f, d));
        assert(s[k].wf() && s[k].face == f && s[k].depth() == d);
        assert(quad_covers(s[k], p, face));
    }
    assert forall|k: int, l: int, p: (int, int, int), face: int|
        0 <= k < l < s.len() && inside(p) && 0 <= face < 6 implies !(#[trigger] quad_covers(s[k], p, face)
        && #[trigger] quad_covers(s[l], p, face)) by {
        if quad_covers(s[k], p, face) && quad_covers(s[l], p, face) {
            let j = flat(p, face);
            assert(hits(t[k], j));
            assert(hits(t[l], j));
        }
    }
}

proof fn lemma_layers(occ: Local, merge: Merge, n: nat)
    requires
        n <= 48,
    ensures
        ({
            let s = layers(occ, merge, n);
            &&& forall|k: int| 0 <= k < s.len() ==> (#[trigger] s[k]).wf()
            &&& forall|k: int, p: (int, int, int), face: int|
                0 <= k < s.len() && inside(p) && 0 <= face < 6 && #[trigger] quad_covers(s[k], p, face) ==> layer_of(
                    p,
                    face,
                ) < n && exposed_at(occ, p, face) == Some(s[k].material)
            &&& forall|p: (int, int, int), face: int|
                inside(p) && 0 <= face < 6 && layer_of(p, face) < n && #[trigger] exposed_at(occ, p, face) is Some
                    ==> exists|k: int| 0 <= k < s.len() && #[trigger] quad_covers(s[k], p, face)
            &&& forall|k: int, l: int, p: (int, int, int), face: int|
                0 <= k < l < s.len() && inside(p) && 0 <= face < 6 ==> !(#[trigger] quad_covers(s[k], p, face)
                    && #[trigger] quad_covers(s[l], p, face))
        }),
    decreases n,
{
    if n > 0 {
        lemma_layers(occ, merge, (n - 1) as nat);
        lemma_layer(occ, merge, n - 1);
        let a = layers(occ, merge, (n - 1) as nat);
        let b = layer_quads(occ, merge, (n - 1) as int / 8, (n - 1) as int % 8);
        let s = layers(occ, merge, n);
        assert(s =~= a + b);
        assert forall|k: int| 0 <= k < s.len() implies (#[trigger] s[k]).wf() by {
            if k < a.len() {
                assert(s[k] == a[k]);
            } else {
                assert(s[k] == b[k - a.len()]);
            }
        }
        assert forall|k: int, p: (int, int, int), face: int|
            0 <= k < s.len() && inside(p) && 0 <= face < 6 && #[trigger] quad_covers(s[k], p, face) implies layer_of(p, face)
            < n && exposed_at(occ, p, face) == Some(s[k].material) by {
            if k < a.len() {
                assert(quad_covers(a[k], p, face));
            } else {
                assert(quad_covers(b[k - a.len()], p, face));
            }
        }
        assert forall|p: (int, int, int), face: int|
            inside(p) && 0 <= face < 6 && layer_of(p, face) < n && #[trigger] exposed_at(occ, p, face) is Some implies exists|k: int|
            0 <= k < s.len() && #[trigger] quad_covers(s[k], p, face) by {
            if layer_of(p, face) < n - 1 {
                let k = choose|k: int| 0 <= k < a.len() && #[trigger] quad_covers(a[k], p, face);
                assert(quad_covers(s[k], p, face));
            } else {
                let k = choose|k: int| 0 <= k < b.len() && #[trigger] quad_covers(b[k], p, face);
                assert(quad_covers(s[a.len() + k], p, face));
            }
        }
        assert forall|k: int, l: int, p: (int, int, int), face: int|
            0 <= k < l < s.len() && inside(p) && 0 <= face < 6 implies !(#[trigger] quad_covers(s[k], p, face)
            && #[trigger] quad_covers(s[l], p, face)) by {
            if quad_covers(s[k], p, face) && quad_covers(s[l], p, face) {
                if l < a.len() {
                    assert(quad_covers(a[k], p, face) && quad_covers(a[l], p, face));
                } else if k >= a.len() {
                    assert(quad_covers(b[k - a.len()], p, face) && quad_covers(b[l - a.len()], p, face));
                } else {
                    assert(quad_covers(a[k], p, face));
                    assert(quad_covers(b[l - a.len()], p, face));
                    assert(layer_of(p, face) < n - 1);
                    assert(layer_of(p, face) == n - 1);
                }
            }
        }
    }
}

/// A mesh covers exactly its brick's exposed unit faces, each exactly once, under the material of
/// the voxel behind it. Both merge modes do.
pub proof fn law_mesh_covers_each_exposed_face_once(occ: Local, merge: Merge, p: (int, int, int), face: int)
    requires
        inside(p),
        0 <= face < 6,
    ensures
        match exposed_at(occ, p, face) {
            Some(m) => exists|k: int|
                0 <= k < mesh_quads(occ, merge).len() && #[trigger] quad_covers(mesh_quads(occ, merge)[k], p, face)
                    && mesh_quads(occ, merge)[k].material == m && forall|l: int|
                    0 <= l < mesh_quads(occ, merge).len() && #[trigger] quad_covers(mesh_quads(occ, merge)[l], p, face)
                        ==> l == k,
            None => forall|k: int|
                0 <= k < mesh_quads(occ, merge).len() ==> !#[trigger] quad_covers(mesh_quads(occ, merge)[k], p, face),
        },
{
    let s = mesh_quads(occ, merge);
    lemma_layers(occ, merge, 48);
    assert(layer_of(p, face) < 48);
    match exposed_at(occ, p, face) {
        Some(m) => {
            let k = choose|k: int| 0 <= k < s.len() && #[trigger] quad_covers(s[k], p, face);
            assert(quad_covers(s[k], p, face) && s[k].material == m);
            assert forall|l: int| 0 <= l < s.len() && #[trigger] quad_covers(s[l], p, face) implies l == k by {
                if l < k {
                    assert(!(quad_covers(s[l], p, face) && quad_covers(s[k], p, face)));
                } else if k < l {
                    assert(!(quad_covers(s[k], p, face) && quad_covers(s[l], p, face)));
                }
            }
        },
        None => {},
    }
}

/// Every quad of a mesh is a rectangle of voxel faces inside the brick.
pub proof fn law_mesh_quads_are_well_formed(occ: Local, merge: Merge, k: int)
    requires
        0 <= k < mesh_quads(occ, merge).len(),
    ensures
        mesh_quads(occ, merge)[k].wf(),
{
    lemma_layers(occ, merge, 48);
}

/// An unmerged mesh has one unit quad per exposed face.
pub proof fn law_unmerged_quads_are_unit_faces(occ: Local, k: int)
    requires
        0 <= k < mesh_quads(occ, Merge::Unmerged).len(),
    ensures
        mesh_quads(occ, Merge::Unmerged)[k].spec_area() == 1,
{
    lemma_unit_layers(occ, 48);
}

proof fn lemma_unit_tiles(mask: Seq<Option<MaterialId>>, i: int)
    requires
        mask.len() == 64,
        0 <= i <= 64,
    ensures
        forall|k: int|
            0 <= k < tiles(mask, Merge::Unmerged, i).len() ==> (#[trigger] tiles(mask, Merge::Unmerged, i)[k]).u1
                == tiles(mask, Merge::Unmerged, i)[k].u0 + 1 && tiles(mask, Merge::Unmerged, i)[k].v1 == tiles(
                mask,
                Merge::Unmerged,
                i,
            )[k].v0 + 1,
    decreases 64 - i,
{
    if i < 64 {
        if mask[i] is None {
            lemma_unit_tiles(mask, i + 1);
            assert(tiles(mask, Merge::Unmerged, i) == tiles(mask, Merge::Unmerged, i + 1));
        } else {
            let r = rect_at(mask, Merge::Unmerged, i);
            lemma_unit_tiles(without(mask, r), i + 1);
            let s = tiles(without(mask, r), Merge::Unmerged, i + 1);
            let t = tiles(mask, Merge::Unmerged, i);
            assert(t =~= seq![r] + s);
            assert forall|k: int| 0 <= k < t.len() implies (#[trigger] t[k]).u1 == t[k].u0 + 1 && t[k].v1 == t[k].v0 + 1 by {
                if k > 0 {
                    assert(t[k] == s[k - 1]);
                }
            }
        }
    }
}

proof fn lemma_unit_layers(occ: Local, n: nat)
    requires
        n <= 48,
    ensures
        forall|k: int|
            0 <= k < layers(occ, Merge::Unmerged, n).len() ==> (#[trigger] layers(occ, Merge::Unmerged, n)[k]).spec_area()
                == 1,
    decreases n,
{
    if n > 0 {
        lemma_unit_layers(occ, (n - 1) as nat);
        let (f, d) = ((n - 1) as int / 8, (n - 1) as int % 8);
        let a = layers(occ, Merge::Unmerged, (n - 1) as nat);
        let b = layer_quads(occ, Merge::Unmerged, f, d);
        lemma_unit_tiles(layer_mask(occ, f, d), 0);
        let s = layers(occ, Merge::Unmerged, n);
        assert forall|k: int| 0 <= k < s.len() implies (#[trigger] s[k]).spec_area() == 1 by {
            if k >= a.len() {
                assert(s[k] == b[k - a.len()]);
                let r = tiles(layer_mask(occ, f, d), Merge::Unmerged, 0)[k - a.len()];
                assert(s[k] == quad_of(r, f, d));
                assert((s[k].u1 - s[k].u0) * (s[k].v1 - s[k].v0) == 1);
            }
        }
    }
}

// ---- Counting -------------------------------------------------------------------------------
/// The sum of `f` over `0..n`.
pub open spec fn sum(f: spec_fn(int) -> int, n: nat) -> int
    decreases n,
{
    if n == 0 {
        0
    } else {
        sum(f, (n - 1) as nat) + f(n - 1)
    }
}

proof fn lemma_sum_same(f: spec_fn(int) -> int, g: spec_fn(int) -> int, n: nat)
    requires
        forall|i: int| 0 <= i < n ==> #[trigger] f(i) == g(i),
    ensures
        sum(f, n) == sum(g, n),
    decreases n,
{
    if n > 0 {
        lemma_sum_same(f, g, (n - 1) as nat);
        assert(f(n - 1) == g(n - 1));
    }
}

proof fn lemma_sum_plus(f: spec_fn(int) -> int, g: spec_fn(int) -> int, n: nat)
    ensures
        sum(|i: int| f(i) + g(i), n) == sum(f, n) + sum(g, n),
    decreases n,
{
    if n > 0 {
        lemma_sum_plus(f, g, (n - 1) as nat);
    }
}

/// Rows first or columns first, the sum is the same.
proof fn lemma_sum_swap(h: spec_fn(int, int) -> int, n: nat, k: nat)
    ensures
        sum(|i: int| sum(|j: int| h(i, j), k), n) == sum(|j: int| sum(|i: int| h(i, j), n), k),
    decreases n,
{
    let by_row = |i: int| sum(|j: int| h(i, j), k);
    if n == 0 {
        lemma_sum_same(|j: int| sum(|i: int| h(i, j), 0), |j: int| 0, k);
        lemma_sum_zero(k);
    } else {
        let m = (n - 1) as nat;
        lemma_sum_swap(h, m, k);
        let short = |j: int| sum(|i: int| h(i, j), m);
        let last = |j: int| h(n - 1, j);
        lemma_sum_plus(short, last, k);
        let whole = |j: int| sum(|i: int| h(i, j), n);
        let both = |j: int| short(j) + last(j);
        assert forall|j: int| 0 <= j < k implies #[trigger] whole(j) == both(j) by {
            let col = |i: int| h(i, j);
            assert(sum(col, n) == sum(col, m) + col(n - 1));
        }
        lemma_sum_same(whole, both, k);
        assert(by_row(n - 1) == sum(last, k)) by {
            lemma_sum_same(|j: int| h(n - 1, j), last, k);
        }
    }
}

proof fn lemma_sum_zero(n: nat)
    ensures
        sum(|j: int| 0, n) == 0,
    decreases n,
{
    if n > 0 {
        lemma_sum_zero((n - 1) as nat);
    }
}

/// A sum over `0..8n`, eight at a time.
proof fn lemma_sum_rows(f: spec_fn(int) -> int, n: nat)
    ensures
        sum(f, 8 * n) == sum(|v: int| sum(|u: int| f(8 * v + u), 8), n),
    decreases n,
{
    if n > 0 {
        lemma_sum_rows(f, (n - 1) as nat);
        let v = n - 1;
        let row = |u: int| f(8 * v + u);
        lemma_sum_of_eight(row);
        assert(sum(f, (8 * v + 8) as nat) == sum(f, (8 * v) as nat) + f(8 * v) + f(8 * v + 1) + f(8 * v + 2) + f(8 * v + 3) + f(
            8 * v + 4,
        ) + f(8 * v + 5) + f(8 * v + 6) + f(8 * v + 7)) by {
            lemma_sum_eight(f, 8 * v);
        }
    }
}

proof fn lemma_sum_eight(f: spec_fn(int) -> int, b: int)
    requires
        b >= 0,
    ensures
        sum(f, (b + 8) as nat) == sum(f, b as nat) + f(b) + f(b + 1) + f(b + 2) + f(b + 3) + f(b + 4) + f(b + 5) + f(b + 6) + f(
            b + 7,
        ),
{
    assert(sum(f, (b + 1) as nat) == sum(f, b as nat) + f(b));
    assert(sum(f, (b + 2) as nat) == sum(f, (b + 1) as nat) + f(b + 1));
    assert(sum(f, (b + 3) as nat) == sum(f, (b + 2) as nat) + f(b + 2));
    assert(sum(f, (b + 4) as nat) == sum(f, (b + 3) as nat) + f(b + 3));
    assert(sum(f, (b + 5) as nat) == sum(f, (b + 4) as nat) + f(b + 4));
    assert(sum(f, (b + 6) as nat) == sum(f, (b + 5) as nat) + f(b + 5));
    assert(sum(f, (b + 7) as nat) == sum(f, (b + 6) as nat) + f(b + 6));
    assert(sum(f, (b + 8) as nat) == sum(f, (b + 7) as nat) + f(b + 7));
}

proof fn lemma_sum_of_eight(f: spec_fn(int) -> int)
    ensures
        sum(f, 8) == f(0) + f(1) + f(2) + f(3) + f(4) + f(5) + f(6) + f(7),
{
    lemma_sum_eight(f, 0);
}

/// The faces of a mask whose material is wanted.
spec fn wanted(mask: Seq<Option<MaterialId>>, pred: spec_fn(MaterialId) -> bool) -> spec_fn(int) -> int {
    |j: int| one_if(mask[j] is Some && pred(mask[j]->0))
}

spec fn is_one(m: MaterialId) -> spec_fn(MaterialId) -> bool {
    |x: MaterialId| x == m
}

/// The area of the wanted rectangles.
spec fn rect_area(t: Seq<Rect>, pred: spec_fn(MaterialId) -> bool) -> int
    decreases t.len(),
{
    if t.len() == 0 {
        0
    } else {
        rect_area(t.drop_first(), pred) + if pred(t[0].material) {
            (t[0].u1 - t[0].u0) * (t[0].v1 - t[0].v0)
        } else {
            0
        }
    }
}

/// A rectangle covers its area.
proof fn lemma_covered_cells(r: Rect, n: nat)
    requires
        r.u0 < r.u1 <= 8,
        r.v0 < r.v1 <= 8,
        n <= 8,
    ensures
        sum(|v: int| sum(|u: int| one_if(covers(r, u, v)), 8), n) == (r.u1 - r.u0) * (if n <= r.v0 {
            0
        } else if n <= r.v1 {
            n - r.v0
        } else {
            r.v1 - r.v0
        }),
    decreases n,
{
    if n > 0 {
        lemma_covered_cells(r, (n - 1) as nat);
        let v = n - 1;
        let row = |u: int| one_if(covers(r, u, v));
        assert(sum(row, 8) == if r.v0 <= v < r.v1 { r.u1 - r.u0 } else { 0 }) by {
            reveal_with_fuel(sum, 9);
        }
        let w = r.u1 - r.u0;
        assert(w * (v - r.v0) + w == w * (v + 1 - r.v0)) by (nonlinear_arith);
        assert(w * 0 == 0);
        assert(w * 1 == w);
    } else {
        assert((r.u1 - r.u0) * 0 == 0);
    }
}

proof fn lemma_area_of_rect(r: Rect)
    requires
        r.u0 < r.u1 <= 8,
        r.v0 < r.v1 <= 8,
    ensures
        sum(|j: int| one_if(hits(r, j)), 64) == (r.u1 - r.u0) * (r.v1 - r.v0),
{
    let f = |j: int| one_if(hits(r, j));
    lemma_sum_rows(f, 8);
    lemma_covered_cells(r, 8);
    let by_row = |v: int| sum(|u: int| f(8 * v + u), 8);
    let want = |v: int| sum(|u: int| one_if(covers(r, u, v)), 8);
    assert forall|v: int| 0 <= v < 8 implies #[trigger] by_row(v) == want(v) by {
        let a = |u: int| f(8 * v + u);
        let b = |u: int| one_if(covers(r, u, v));
        assert forall|u: int| 0 <= u < 8 implies #[trigger] a(u) == b(u) by {
            assert((8 * v + u) % 8 == u && (8 * v + u) / 8 == v);
        }
        lemma_sum_same(a, b, 8);
    }
    lemma_sum_same(by_row, want, 8);
}

/// The wanted tiles have as much area as the mask has wanted faces.
proof fn lemma_tile_area(mask: Seq<Option<MaterialId>>, merge: Merge, i: int, pred: spec_fn(MaterialId) -> bool)
    requires
        mask.len() == 64,
        0 <= i <= 64,
        forall|j: int| 0 <= j < i ==> #[trigger] mask[j] is None,
    ensures
        rect_area(tiles(mask, merge, i), pred) == sum(wanted(mask, pred), 64),
    decreases 64 - i,
{
    if i == 64 {
        lemma_sum_same(wanted(mask, pred), |j: int| 0, 64);
        lemma_sum_zero(64);
    } else if mask[i] is None {
        lemma_tile_area(mask, merge, i + 1, pred);
    } else {
        lemma_rect(mask, merge, i);
        let r = rect_at(mask, merge, i);
        let rest = without(mask, r);
        assert(hits(r, i));
        assert forall|j: int| 0 <= j < i + 1 implies #[trigger] rest[j] is None by {
            if j < i {
                assert(mask[j] is None);
            }
        }
        lemma_tile_area(rest, merge, i + 1, pred);
        let s = tiles(rest, merge, i + 1);
        let t = tiles(mask, merge, i);
        assert(t.drop_first() =~= s);
        assert(t[0] == r);
        lemma_area_of_rect(r);
        let cover = |j: int| one_if(hits(r, j));
        if pred(r.material) {
            lemma_sum_plus(wanted(rest, pred), cover, 64);
            let both = |j: int| wanted(rest, pred)(j) + cover(j);
            assert forall|j: int| 0 <= j < 64 implies #[trigger] wanted(mask, pred)(j) == both(j) by {
                if hits(r, j) {
                    assert(mask[j] == Some(r.material));
                }
            }
            lemma_sum_same(wanted(mask, pred), both, 64);
        } else {
            assert forall|j: int| 0 <= j < 64 implies #[trigger] wanted(mask, pred)(j) == wanted(rest, pred)(j) by {
                if hits(r, j) {
                    assert(mask[j] == Some(r.material));
                }
            }
            lemma_sum_same(wanted(mask, pred), wanted(rest, pred), 64);
        }
    }
}

/// The area of the wanted ones among the first `n` quads.
spec fn quad_area(q: Seq<Quad>, pred: spec_fn(MaterialId) -> bool, n: nat) -> int
    decreases n,
{
    if n == 0 {
        0
    } else {
        quad_area(q, pred, (n - 1) as nat) + if pred(q[n - 1].material) {
            q[n - 1].spec_area()
        } else {
            0
        }
    }
}

proof fn lemma_quad_area_prefix(a: Seq<Quad>, b: Seq<Quad>, pred: spec_fn(MaterialId) -> bool, n: nat)
    requires
        n <= a.len(),
    ensures
        quad_area(a + b, pred, n) == quad_area(a, pred, n),
    decreases n,
{
    if n > 0 {
        lemma_quad_area_prefix(a, b, pred, (n - 1) as nat);
    }
}

proof fn lemma_quad_area_concat(a: Seq<Quad>, b: Seq<Quad>, pred: spec_fn(MaterialId) -> bool, n: nat)
    requires
        n <= b.len(),
    ensures
        quad_area(a + b, pred, a.len() + n) == quad_area(a, pred, a.len()) + quad_area(b, pred, n),
    decreases n,
{
    if n > 0 {
        lemma_quad_area_concat(a, b, pred, (n - 1) as nat);
        assert((a + b)[a.len() + n - 1] == b[n - 1]);
    } else {
        lemma_quad_area_prefix(a, b, pred, a.len());
    }
}

proof fn lemma_rect_area_push(t: Seq<Rect>, r: Rect, pred: spec_fn(MaterialId) -> bool)
    ensures
        rect_area(t.push(r), pred) == rect_area(t, pred) + if pred(r.material) {
            (r.u1 - r.u0) * (r.v1 - r.v0)
        } else {
            0
        },
    decreases t.len(),
{
    if t.len() == 0 {
        assert(t.push(r).drop_first() =~= t);
    } else {
        assert(t.push(r).drop_first() =~= t.drop_first().push(r));
        lemma_rect_area_push(t.drop_first(), r, pred);
    }
}

proof fn lemma_layer_area(t: Seq<Rect>, face: int, d: int, pred: spec_fn(MaterialId) -> bool, n: nat)
    requires
        n <= t.len(),
    ensures
        quad_area(t.map_values(|r: Rect| quad_of(r, face, d)), pred, n) == rect_area(t.take(n as int), pred),
    decreases n,
{
    if n > 0 {
        lemma_layer_area(t, face, d, pred, (n - 1) as nat);
        assert(t.take(n as int) =~= t.take(n - 1).push(t[n - 1]));
        lemma_rect_area_push(t.take(n - 1), t[n - 1], pred);
    }
}

/// Wanted exposed faces in each layer.
spec fn layer_count(occ: Local, pred: spec_fn(MaterialId) -> bool) -> spec_fn(int) -> int {
    |n: int| sum(wanted(layer_mask(occ, n / 8, n % 8), pred), 64)
}

proof fn lemma_layers_area(occ: Local, merge: Merge, pred: spec_fn(MaterialId) -> bool, n: nat)
    requires
        n <= 48,
    ensures
        quad_area(layers(occ, merge, n), pred, layers(occ, merge, n).len()) == sum(layer_count(occ, pred), n),
    decreases n,
{
    if n > 0 {
        lemma_layers_area(occ, merge, pred, (n - 1) as nat);
        let (f, d) = ((n - 1) as int / 8, (n - 1) as int % 8);
        let a = layers(occ, merge, (n - 1) as nat);
        let b = layer_quads(occ, merge, f, d);
        let t = tiles(layer_mask(occ, f, d), merge, 0);
        lemma_quad_area_concat(a, b, pred, b.len());
        lemma_layer_area(t, f, d, pred, t.len());
        assert(t.take(t.len() as int) =~= t);
        lemma_tile_area(layer_mask(occ, f, d), merge, 0, pred);
    }
}

/// Whether face `face` of the voxel at `p` is exposed and wanted.
spec fn shows(occ: Local, pred: spec_fn(MaterialId) -> bool, face: int) -> spec_fn(int, int, int) -> int {
    |x: int, y: int, z: int|
        {
            let e = exposed_at(occ, (x, y, z), face);
            one_if(e is Some && pred(e->0))
        }
}

spec fn sum3(g: spec_fn(int, int, int) -> int) -> int {
    sum(|z: int| sum(|y: int| sum(|x: int| g(x, y, z), 8), 8), 8)
}

/// The wanted faces of one direction, layer by layer or voxel by voxel.
proof fn lemma_direction(occ: Local, pred: spec_fn(MaterialId) -> bool, face: int)
    requires
        0 <= face < 6,
    ensures
        sum(|d: int| layer_count(occ, pred)(8 * face + d), 8) == sum3(shows(occ, pred, face)),
{
    let g = shows(occ, pred, face);
    let a = face / 2;
    // Each layer as rows of columns.
    let by_layer = |d: int| layer_count(occ, pred)(8 * face + d);
    let laid = |d: int| sum(|v: int| sum(|u: int| g(cell(a, d, u, v).0, cell(a, d, u, v).1, cell(a, d, u, v).2), 8), 8);
    assert forall|d: int| 0 <= d < 8 implies #[trigger] by_layer(d) == laid(d) by {
        let mask = layer_mask(occ, face, d);
        let f = wanted(mask, pred);
        assert((8 * face + d) / 8 == face && (8 * face + d) % 8 == d);
        lemma_sum_rows(f, 8);
        let r1 = |v: int| sum(|u: int| f(8 * v + u), 8);
        let r2 = |v: int| sum(|u: int| g(cell(a, d, u, v).0, cell(a, d, u, v).1, cell(a, d, u, v).2), 8);
        assert forall|v: int| 0 <= v < 8 implies #[trigger] r1(v) == r2(v) by {
            let c1 = |u: int| f(8 * v + u);
            let c2 = |u: int| g(cell(a, d, u, v).0, cell(a, d, u, v).1, cell(a, d, u, v).2);
            assert forall|u: int| 0 <= u < 8 implies #[trigger] c1(u) == c2(u) by {
                assert((8 * v + u) % 8 == u && (8 * v + u) / 8 == v);
                assert(mask[8 * v + u] == face_at(occ, face, d, u, v));
                assert(exposed_at(occ, cell(a, d, u, v), face) == face_at(occ, face, d, u, v));
            }
            lemma_sum_same(c1, c2, 8);
        }
        lemma_sum_same(r1, r2, 8);
    }
    lemma_sum_same(by_layer, laid, 8);
    if a == 2 {
        lemma_axis_z(g, laid);
    } else if a == 0 {
        lemma_axis_x(g, laid);
    } else {
        lemma_axis_y(g, laid);
    }
}

proof fn lemma_axis_z(g: spec_fn(int, int, int) -> int, laid: spec_fn(int) -> int)
    requires
        laid == (|d: int| sum(|v: int| sum(|u: int| g(cell(2, d, u, v).0, cell(2, d, u, v).1, cell(2, d, u, v).2), 8), 8)),
    ensures
        sum(laid, 8) == sum3(g),
{
    // Already in order.
    let a = |z: int| sum(|y: int| sum(|x: int| g(x, y, z), 8), 8);
    assert forall|z: int| #[trigger] laid(z) == a(z) by {
        let p = |v: int| sum(|u: int| g(cell(2, z, u, v).0, cell(2, z, u, v).1, cell(2, z, u, v).2), 8);
        let q = |y: int| sum(|x: int| g(x, y, z), 8);
        assert forall|y: int| #[trigger] p(y) == q(y) by {
            lemma_sum_same(|u: int| g(cell(2, z, u, y).0, cell(2, z, u, y).1, cell(2, z, u, y).2), |x: int| g(x, y, z), 8);
        }
        lemma_sum_same(p, q, 8);
    }
    lemma_sum_same(laid, a, 8);
}

proof fn lemma_axis_x(g: spec_fn(int, int, int) -> int, laid: spec_fn(int) -> int)
    requires
        laid == (|d: int| sum(|v: int| sum(|u: int| g(cell(0, d, u, v).0, cell(0, d, u, v).1, cell(0, d, u, v).2), 8), 8)),
    ensures
        sum(laid, 8) == sum3(g),
{
    // Over x, then z, then y.
    let xz = |x: int, z: int| sum(|y: int| g(x, y, z), 8);
    let a = |x: int| sum(|z: int| xz(x, z), 8);
    assert forall|x: int| #[trigger] laid(x) == a(x) by {
        let p = |v: int| sum(|u: int| g(cell(0, x, u, v).0, cell(0, x, u, v).1, cell(0, x, u, v).2), 8);
        let q = |z: int| xz(x, z);
        assert forall|z: int| #[trigger] p(z) == q(z) by {
            lemma_sum_same(|u: int| g(cell(0, x, u, z).0, cell(0, x, u, z).1, cell(0, x, u, z).2), |y: int| g(x, y, z), 8);
        }
        lemma_sum_same(p, q, 8);
    }
    lemma_sum_same(laid, a, 8);
    lemma_sum_swap(xz, 8, 8);
    let b = |z: int| sum(|x: int| xz(x, z), 8);
    let c = |z: int| sum(|y: int| sum(|x: int| g(x, y, z), 8), 8);
    assert forall|z: int| #[trigger] b(z) == c(z) by {
        let h = |x: int, y: int| g(x, y, z);
        lemma_sum_swap(h, 8, 8);
        let p1 = |x: int| xz(x, z);
        let q1 = |x: int| sum(|y: int| h(x, y), 8);
        assert forall|x: int| #[trigger] p1(x) == q1(x) by {
            lemma_sum_same(|y: int| g(x, y, z), |y: int| h(x, y), 8);
        }
        lemma_sum_same(p1, q1, 8);
        let p2 = |y: int| sum(|x: int| h(x, y), 8);
        let q2 = |y: int| sum(|x: int| g(x, y, z), 8);
        assert forall|y: int| #[trigger] p2(y) == q2(y) by {
            lemma_sum_same(|x: int| h(x, y), |x: int| g(x, y, z), 8);
        }
        lemma_sum_same(p2, q2, 8);
    }
    lemma_sum_same(b, c, 8);
}

proof fn lemma_axis_y(g: spec_fn(int, int, int) -> int, laid: spec_fn(int) -> int)
    requires
        laid == (|d: int| sum(|v: int| sum(|u: int| g(cell(1, d, u, v).0, cell(1, d, u, v).1, cell(1, d, u, v).2), 8), 8)),
    ensures
        sum(laid, 8) == sum3(g),
{
    // Over y, then x, then z.
    let yz = |y: int, z: int| sum(|x: int| g(x, y, z), 8);
    let a = |y: int| sum(|z: int| yz(y, z), 8);
    assert forall|y: int| #[trigger] laid(y) == a(y) by {
        let h = |x: int, z: int| g(x, y, z);
        let p = |v: int| sum(|u: int| g(cell(1, y, u, v).0, cell(1, y, u, v).1, cell(1, y, u, v).2), 8);
        let q = |x: int| sum(|z: int| h(x, z), 8);
        assert forall|x: int| #[trigger] p(x) == q(x) by {
            lemma_sum_same(|u: int| g(cell(1, y, u, x).0, cell(1, y, u, x).1, cell(1, y, u, x).2), |z: int| h(x, z), 8);
        }
        lemma_sum_same(p, q, 8);
        lemma_sum_swap(h, 8, 8);
        let p1 = |z: int| sum(|x: int| h(x, z), 8);
        let q1 = |z: int| yz(y, z);
        assert forall|z: int| #[trigger] p1(z) == q1(z) by {
            lemma_sum_same(|x: int| h(x, z), |x: int| g(x, y, z), 8);
        }
        lemma_sum_same(p1, q1, 8);
    }
    lemma_sum_same(laid, a, 8);
    lemma_sum_swap(yz, 8, 8);
    let p2 = |z: int| sum(|y: int| yz(y, z), 8);
    let q2 = |z: int| sum(|y: int| sum(|x: int| g(x, y, z), 8), 8);
    assert forall|z: int| #[trigger] p2(z) == q2(z) by {
        lemma_sum_same(|y: int| yz(y, z), |y: int| sum(|x: int| g(x, y, z), 8), 8);
    }
    lemma_sum_same(p2, q2, 8);
}

/// A sum over a brick's places.
proof fn lemma_places(f: spec_fn(int) -> int, g: spec_fn(int, int, int) -> int)
    requires
        forall|n: int| 0 <= n < 512 ==> #[trigger] f(n) == g(cell_of(n).0, cell_of(n).1, cell_of(n).2),
    ensures
        sum(f, 512) == sum3(g),
{
    lemma_sum_rows(f, 64);
    let rows8 = |r: int| sum(|x: int| f(8 * r + x), 8);
    lemma_sum_rows(rows8, 8);
    let a = |z: int| sum(|y: int| rows8(8 * z + y), 8);
    let b = |z: int| sum(|y: int| sum(|x: int| g(x, y, z), 8), 8);
    assert forall|z: int| 0 <= z < 8 implies #[trigger] a(z) == b(z) by {
        let p = |y: int| rows8(8 * z + y);
        let q = |y: int| sum(|x: int| g(x, y, z), 8);
        assert forall|y: int| 0 <= y < 8 implies #[trigger] p(y) == q(y) by {
            let s = |x: int| f(8 * (8 * z + y) + x);
            let t = |x: int| g(x, y, z);
            assert forall|x: int| 0 <= x < 8 implies #[trigger] s(x) == t(x) by {
                let n = 8 * (8 * z + y) + x;
                assert(cell_of(n) == (x, y, z));
                assert(f(n) == g(cell_of(n).0, cell_of(n).1, cell_of(n).2));
            }
            lemma_sum_same(s, t, 8);
        }
        lemma_sum_same(p, q, 8);
    }
    lemma_sum_same(a, b, 8);
}

/// The wanted exposed faces of the voxel at a place.
spec fn faces_at_place(own: Seq<Option<MaterialId>>, occ: Local, m: MaterialId) -> spec_fn(int) -> int {
    |n: int|
        if own[n] == Some(m) {
            bare(occ, cell_of(n))
        } else {
            0
        }
}

proof fn lemma_exposed_is_sum(own: Seq<Option<MaterialId>>, occ: Local, m: MaterialId, n: nat)
    ensures
        exposed_count(own, occ, m, n) == sum(faces_at_place(own, occ, m), n),
    decreases n,
{
    if n > 0 {
        lemma_exposed_is_sum(own, occ, m, (n - 1) as nat);
    }
}

proof fn lemma_sum_of_sums(f: spec_fn(int) -> int, g: spec_fn(int) -> int, h: spec_fn(int) -> int, n: nat)
    requires
        forall|i: int| 0 <= i < n ==> #[trigger] h(i) == f(i) + g(i),
    ensures
        sum(h, n) == sum(f, n) + sum(g, n),
    decreases n,
{
    if n > 0 {
        lemma_sum_of_sums(f, g, h, (n - 1) as nat);
        assert(h(n - 1) == f(n - 1) + g(n - 1));
    }
}

spec fn place_shows(occ: Local, pred: spec_fn(MaterialId) -> bool, face: int) -> spec_fn(int) -> int {
    |n: int| shows(occ, pred, face)(cell_of(n).0, cell_of(n).1, cell_of(n).2)
}

spec fn place_shows_below(occ: Local, pred: spec_fn(MaterialId) -> bool, faces: nat) -> spec_fn(int) -> int {
    |n: int| sum(|face: int| place_shows(occ, pred, face)(n), faces)
}

proof fn lemma_directions_by_place(occ: Local, pred: spec_fn(MaterialId) -> bool, faces: nat)
    requires
        faces <= 6,
    ensures
        sum(layer_count(occ, pred), 8 * faces) == sum(place_shows_below(occ, pred, faces), 512),
    decreases faces,
{
    if faces == 0 {
        lemma_sum_same(place_shows_below(occ, pred, 0), |n: int| 0, 512);
        lemma_sum_zero(512);
    } else {
        let f = (faces - 1) as nat;
        lemma_directions_by_place(occ, pred, f);
        let lc = layer_count(occ, pred);
        lemma_direction(occ, pred, f as int);
        lemma_places(place_shows(occ, pred, f as int), shows(occ, pred, f as int));
        assert(sum(lc, (8 * f + 8) as nat) == sum(lc, (8 * f) as nat) + sum(|d: int| lc(8 * f + d), 8)) by {
            lemma_sum_eight(lc, 8 * f as int);
            lemma_sum_of_eight(|d: int| lc(8 * f + d));
        }
        let h = place_shows_below(occ, pred, faces);
        assert forall|n: int| 0 <= n < 512 implies #[trigger] h(n) == place_shows_below(occ, pred, f)(n) + place_shows(
            occ,
            pred,
            f as int,
        )(n) by {
            let k = |face: int| place_shows(occ, pred, face)(n);
            assert(sum(k, faces) == sum(k, f) + k(f as int));
        }
        lemma_sum_of_sums(place_shows_below(occ, pred, f), place_shows(occ, pred, f as int), h, 512);
    }
}

/// One voxel's faces, direction by direction.
proof fn lemma_place_faces(own: Seq<Option<MaterialId>>, occ: Local, m: MaterialId, n: int)
    requires
        0 <= n < 512,
        own[n] == occ(cell_of(n)),
    ensures
        place_shows_below(occ, is_one(m), 6)(n) == faces_at_place(own, occ, m)(n),
{
    let pred = is_one(m);
    let p = cell_of(n);
    let k = |face: int| place_shows(occ, pred, face)(n);
    reveal_with_fuel(sum, 7);
    assert(sum(k, 6) == k(0) + k(1) + k(2) + k(3) + k(4) + k(5));
    let own_p = occ(p);
    assert(k(0) == one_if(own_p == Some(m) && occ((p.0 - 1, p.1, p.2)) is None));
    assert(k(1) == one_if(own_p == Some(m) && occ((p.0 + 1, p.1, p.2)) is None));
    assert(k(2) == one_if(own_p == Some(m) && occ((p.0, p.1 - 1, p.2)) is None));
    assert(k(3) == one_if(own_p == Some(m) && occ((p.0, p.1 + 1, p.2)) is None));
    assert(k(4) == one_if(own_p == Some(m) && occ((p.0, p.1, p.2 - 1)) is None));
    assert(k(5) == one_if(own_p == Some(m) && occ((p.0, p.1, p.2 + 1)) is None));
}

proof fn lemma_covered_is_area(q: Seq<Quad>, m: MaterialId, n: nat)
    requires
        n <= q.len(),
    ensures
        covered_count(q, m, n) == quad_area(q, is_one(m), n),
    decreases n,
{
    if n > 0 {
        lemma_covered_is_area(q, m, (n - 1) as nat);
    }
}

proof fn lemma_total_is_area(q: Seq<Quad>, n: nat)
    requires
        n <= q.len(),
    ensures
        total_area(q, n) == quad_area(q, |x: MaterialId| true, n),
    decreases n,
{
    if n > 0 {
        lemma_total_is_area(q, (n - 1) as nat);
    }
}

/// A mesh covers as many unit faces of each material as its brick exposes.
pub proof fn law_mesh_counts_are_exposed_counts(own: Seq<Option<MaterialId>>, occ: Local, merge: Merge)
    requires
        own.len() == 512,
        forall|n: int| 0 <= n < 512 ==> #[trigger] own[n] == occ(cell_of(n)),
    ensures
        covered_counts(mesh_quads(occ, merge), mesh_quads(occ, merge).len()) == exposed_counts(own, occ, 512),
{
    let q = mesh_quads(occ, merge);
    assert forall|m: MaterialId| #[trigger] covered_count(q, m, q.len()) == exposed_count(own, occ, m, 512) by {
        let pred = is_one(m);
        lemma_covered_is_area(q, m, q.len());
        lemma_layers_area(occ, merge, pred, 48);
        lemma_directions_by_place(occ, pred, 6);
        lemma_exposed_is_sum(own, occ, m, 512);
        assert forall|n: int| 0 <= n < 512 implies #[trigger] place_shows_below(occ, pred, 6)(n) == faces_at_place(own, occ, m)(n) by {
            assert(own[n] == occ(cell_of(n)));
            lemma_place_faces(own, occ, m, n);
        }
        lemma_sum_same(place_shows_below(occ, pred, 6), faces_at_place(own, occ, m), 512);
    }
    assert(covered_counts(q, q.len()) =~= exposed_counts(own, occ, 512));
}

/// A mesh covers at most six faces of each of a brick's voxels.
pub proof fn law_mesh_area_is_bounded(occ: Local, merge: Merge)
    ensures
        0 <= total_area(mesh_quads(occ, merge), mesh_quads(occ, merge).len()) <= 3072,
{
    let q = mesh_quads(occ, merge);
    let pred = |x: MaterialId| true;
    lemma_total_is_area(q, q.len());
    lemma_layers_area(occ, merge, pred, 48);
    let lc = layer_count(occ, pred);
    assert forall|n: int| 0 <= n < 48 implies 0 <= #[trigger] lc(n) <= 64 by {
        lemma_sum_bound(wanted(layer_mask(occ, n / 8, n % 8), pred), 1, 64);
    }
    lemma_sum_bound(lc, 64, 48);
}

proof fn lemma_sum_bound(f: spec_fn(int) -> int, b: int, n: nat)
    requires
        forall|i: int| 0 <= i < n ==> 0 <= #[trigger] f(i) <= b,
    ensures
        0 <= sum(f, n) <= b * n,
    decreases n,
{
    if n > 0 {
        lemma_sum_bound(f, b, (n - 1) as nat);
        assert(0 <= f(n - 1) <= b);
        assert(b * n == b * (n - 1) + b) by (nonlinear_arith);
    } else {
        assert(b * 0 == 0);
    }
}

/// The summary of a brick's mesh is the brick's summary.
pub proof fn law_mesh_summary_is_brick_summary(
    world: &World,
    key: BrickKey,
    merge: Merge,
    of_mesh: &SurfaceSummary,
    of_brick: &SurfaceSummary,
)
    requires
        world.wf(),
        world.map().dom().contains(key),
        of_mesh.of(
            covered_counts(
                mesh_quads(world_view(world, key), merge),
                mesh_quads(world_view(world, key), merge).len(),
            ),
        ),
        of_brick.of(exposed_counts(world.map()[key]@, world_view(world, key), 512)),
    ensures
        of_mesh.total == of_brick.total,
        of_mesh.by_material@ == of_brick.by_material@,
{
    let own = world.map()[key]@;
    let occ = world_view(world, key);
    crate::derived::mesh::lemma_brick_is_world(world, key);
    assert forall|n: int| 0 <= n < 512 implies #[trigger] own[n] == occ(cell_of(n)) by {
        let p = cell_of(n);
        assert(inside(p));
        assert(occ(p) == world.map()[key].local(p.0, p.1, p.2));
    }
    law_mesh_counts_are_exposed_counts(own, occ, merge);
    SurfaceSummary::law_summary_is_unique(of_mesh, of_brick, exposed_counts(own, occ, 512));
}

} // verus!
