//! In which order a mesh lists its quads, and how far greedy merging goes.
use crate::derived::mesh::{
    covers, face_at, layer_mask, layer_quads, layers, mesh_quads, quad_of, rect_at, row_is, rows, run, tiles, without, Local,
    Merge, Quad, Rect,
};
use crate::world::MaterialId;
use vstd::prelude::*;

verus! {

/// The quads are listed by face direction, then plane, then row, then place in the row.
pub open spec fn precedes(a: Quad, b: Quad) -> bool {
    if a.face != b.face {
        a.face < b.face
    } else if a.plane != b.plane {
        a.plane < b.plane
    } else if a.v0 != b.v0 {
        a.v0 < b.v0
    } else {
        a.u0 < b.u0
    }
}

/// Where `r` starts in its layer.
spec fn start(r: Rect) -> int {
    8 * r.v0 + r.u0
}

proof fn lemma_tiles_in_order(mask: Seq<Option<MaterialId>>, merge: Merge, i: int)
    requires
        0 <= i <= 64,
    ensures
        forall|k: int| 0 <= k < tiles(mask, merge, i).len() ==> i <= start(#[trigger] tiles(mask, merge, i)[k]) && tiles(
            mask,
            merge,
            i,
        )[k].u0 < 8,
        forall|k: int, l: int|
            0 <= k < l < tiles(mask, merge, i).len() ==> start(#[trigger] tiles(mask, merge, i)[k]) < start(
                #[trigger] tiles(mask, merge, i)[l],
            ),
    decreases 64 - i,
{
    if i < 64 {
        if mask[i] is None {
            lemma_tiles_in_order(mask, merge, i + 1);
            assert(tiles(mask, merge, i) == tiles(mask, merge, i + 1));
        } else {
            let r = rect_at(mask, merge, i);
            let s = tiles(without(mask, r), merge, i + 1);
            let t = tiles(mask, merge, i);
            lemma_tiles_in_order(without(mask, r), merge, i + 1);
            assert(t =~= seq![r] + s);
            assert(start(r) == i);
            assert forall|k: int| 0 <= k < t.len() implies i <= start(#[trigger] t[k]) && t[k].u0 < 8 by {
                if k > 0 {
                    assert(t[k] == s[k - 1]);
                }
            }
            assert forall|k: int, l: int| 0 <= k < l < t.len() implies start(#[trigger] t[k]) < start(#[trigger] t[l]) by {
                assert(t[l] == s[l - 1]);
                if k > 0 {
                    assert(t[k] == s[k - 1]);
                }
            }
        }
    }
}

proof fn lemma_layer_in_order(occ: Local, merge: Merge, n: int)
    requires
        0 <= n < 48,
    ensures
        ({
            let s = layer_quads(occ, merge, n / 8, n % 8);
            &&& forall|k: int| 0 <= k < s.len() ==> (#[trigger] s[k]).face == n / 8 && s[k].plane == n % 8 + n / 8 % 2
            &&& forall|k: int, l: int| 0 <= k < l < s.len() ==> precedes(#[trigger] s[k], #[trigger] s[l])
        }),
{
    let (f, d) = (n / 8, n % 8);
    let t = tiles(layer_mask(occ, f, d), merge, 0);
    let s = layer_quads(occ, merge, f, d);
    lemma_tiles_in_order(layer_mask(occ, f, d), merge, 0);
    assert forall|k: int| 0 <= k < s.len() implies (#[trigger] s[k]).face == f && s[k].plane == d + f % 2 && s[k].u0 == t[k].u0
        && s[k].v0 == t[k].v0 by {
        assert(s[k] == quad_of(t[k], f, d));
    }
    assert forall|k: int, l: int| 0 <= k < l < s.len() implies precedes(#[trigger] s[k], #[trigger] s[l]) by {
        assert(start(t[k]) < start(t[l]));
        assert(t[k].u0 < 8 && t[l].u0 < 8);
    }
}

proof fn lemma_layers_in_order(occ: Local, merge: Merge, n: nat)
    requires
        n <= 48,
    ensures
        ({
            let s = layers(occ, merge, n);
            &&& forall|k: int|
                0 <= k < s.len() ==> 8 * (#[trigger] s[k]).face + s[k].plane - s[k].face as int % 2 < n && s[k].face as int % 2
                    <= s[k].plane <= 7 + s[k].face as int % 2
            &&& forall|k: int, l: int| 0 <= k < l < s.len() ==> precedes(#[trigger] s[k], #[trigger] s[l])
        }),
    decreases n,
{
    if n > 0 {
        lemma_layers_in_order(occ, merge, (n - 1) as nat);
        lemma_layer_in_order(occ, merge, n - 1);
        let a = layers(occ, merge, (n - 1) as nat);
        let b = layer_quads(occ, merge, (n - 1) as int / 8, (n - 1) as int % 8);
        let s = layers(occ, merge, n);
        assert(s =~= a + b);
        assert forall|k: int| 0 <= k < s.len() implies 8 * (#[trigger] s[k]).face + s[k].plane - s[k].face as int % 2 < n
            && s[k].face as int % 2 <= s[k].plane <= 7 + s[k].face as int % 2 by {
            if k < a.len() {
                assert(s[k] == a[k]);
            } else {
                assert(s[k] == b[k - a.len()]);
            }
        }
        assert forall|k: int, l: int| 0 <= k < l < s.len() implies precedes(#[trigger] s[k], #[trigger] s[l]) by {
            if l < a.len() {
                assert(s[k] == a[k] && s[l] == a[l]);
            } else if k >= a.len() {
                assert(s[k] == b[k - a.len()] && s[l] == b[l - a.len()]);
            } else {
                assert(s[k] == a[k] && s[l] == b[l - a.len()]);
                assert(8 * a[k].face + a[k].plane - a[k].face as int % 2 < n - 1);
                assert(8 * s[l].face + s[l].plane - s[l].face as int % 2 == n - 1);
            }
        }
    }
}

/// The quads of a mesh are strictly in order: by face direction, then plane, then in scan order.
pub proof fn law_quads_are_strictly_in_order(occ: Local, merge: Merge, k: int, l: int)
    requires
        0 <= k < l < mesh_quads(occ, merge).len(),
    ensures
        precedes(mesh_quads(occ, merge)[k], mesh_quads(occ, merge)[l]),
{
    lemma_layers_in_order(occ, merge, 48);
}

/// The face at `(u, v)` of a layer cannot be merged into tile `k`: there is none of its material, or an
/// earlier tile has it.
spec fn is_taken(mask: Seq<Option<MaterialId>>, t: Seq<Rect>, k: int, u: int, v: int) -> bool {
    ||| u >= 8
    ||| v >= 8
    ||| mask[8 * v + u] != Some(t[k].material)
    ||| exists|j: int| 0 <= j < k && #[trigger] covers(t[j], u, v)
}

/// Tile `k` ends where the next face in its first row is taken, and where one in the row below is.
spec fn is_stuck(mask: Seq<Option<MaterialId>>, t: Seq<Rect>, k: int) -> bool {
    let r = t[k];
    &&& r.u0 < r.u1 <= 8
    &&& r.v0 < r.v1 <= 8
    &&& is_taken(mask, t, k, r.u1 as int, r.v0 as int)
    &&& exists|u: int| r.u0 <= u < r.u1 && #[trigger] is_taken(mask, t, k, u, r.v1 as int)
}

proof fn lemma_run_ends(mask: Seq<Option<MaterialId>>, m: MaterialId, u: int, v: int)
    requires
        0 <= u <= 8,
    ensures
        0 <= run(mask, m, u, v) <= 8 - u,
        u + run(mask, m, u, v) == 8 || mask[8 * v + (u + run(mask, m, u, v))] != Some(m),
    decreases 8 - u,
{
    if u < 8 && mask[8 * v + u] == Some(m) {
        lemma_run_ends(mask, m, u + 1, v);
    }
}

proof fn lemma_rows_end(mask: Seq<Option<MaterialId>>, m: MaterialId, u0: int, u1: int, v: int)
    requires
        0 <= v <= 8,
    ensures
        0 <= rows(mask, m, u0, u1, v) <= 8 - v,
        v + rows(mask, m, u0, u1, v) == 8 || !row_is(mask, m, u0, u1, v + rows(mask, m, u0, u1, v)),
        v < 8 && row_is(mask, m, u0, u1, v) ==> rows(mask, m, u0, u1, v) > 0,
    decreases 8 - v,
{
    if v < 8 && row_is(mask, m, u0, u1, v) {
        lemma_rows_end(mask, m, u0, u1, v + 1);
    }
}

proof fn lemma_run_row(mask: Seq<Option<MaterialId>>, m: MaterialId, u: int, v: int)
    requires
        0 <= u <= 8,
    ensures
        row_is(mask, m, u, u + run(mask, m, u, v), v),
    decreases 8 - u,
{
    if u < 8 && mask[8 * v + u] == Some(m) {
        lemma_run_row(mask, m, u + 1, v);
        assert forall|x: int| u <= x < u + run(mask, m, u, v) implies #[trigger] mask[8 * v + x] == Some(m) by {
            if x > u {
                assert(row_is(mask, m, u + 1, u + 1 + run(mask, m, u + 1, v), v));
            }
        }
    }
}

/// A greedy rectangle cannot grow.
proof fn lemma_rect_stuck(mask: Seq<Option<MaterialId>>, i: int, t: Seq<Rect>)
    requires
        mask.len() == 64,
        0 <= i < 64,
        mask[i] is Some,
        t.len() > 0,
        t[0] == rect_at(mask, Merge::Greedy, i),
    ensures
        is_stuck(mask, t, 0),
{
    let r = t[0];
    let m = mask[i]->0;
    let (u, v) = (i % 8, i / 8);
    assert(mask[8 * v + u] == Some(m));
    lemma_run_ends(mask, m, u, v);
    lemma_run_ends(mask, m, u + 1, v);
    let w = run(mask, m, u, v);
    lemma_run_row(mask, m, u, v);
    lemma_rows_end(mask, m, u, u + w, v);
    let h = rows(mask, m, u, u + w, v);
    assert(r.u1 == u + w && r.v1 == v + h);
    assert(is_taken(mask, t, 0, r.u1 as int, r.v0 as int));
    if v + h < 8 {
        let x = choose|x: int| u <= x < u + w && #[trigger] mask[8 * (v + h) + x] != Some(m);
        assert(mask[8 * (v + h) + x] != Some(m));
        assert(is_taken(mask, t, 0, x, r.v1 as int));
    } else {
        assert(is_taken(mask, t, 0, u, r.v1 as int));
    }
}

proof fn lemma_taken_behind(mask: Seq<Option<MaterialId>>, r: Rect, s: Seq<Rect>, k: int, u: int, v: int)
    requires
        mask.len() == 64,
        0 <= k < s.len(),
        0 <= u,
        0 <= v,
        is_taken(without(mask, r), s, k, u, v),
    ensures
        is_taken(mask, seq![r] + s, k + 1, u, v),
{
    let t = seq![r] + s;
    assert(t[k + 1] == s[k]);
    if u < 8 && v < 8 {
        assert((8 * v + u) % 8 == u && (8 * v + u) / 8 == v);
        if exists|j: int| 0 <= j < k && #[trigger] covers(s[j], u, v) {
            let j = choose|j: int| 0 <= j < k && #[trigger] covers(s[j], u, v);
            assert(t[j + 1] == s[j]);
            assert(covers(t[j + 1], u, v));
        } else if covers(r, u, v) {
            assert(covers(t[0], u, v));
        }
    }
}

proof fn lemma_tiles_stuck(mask: Seq<Option<MaterialId>>, i: int)
    requires
        mask.len() == 64,
        0 <= i <= 64,
    ensures
        forall|k: int|
            0 <= k < tiles(mask, Merge::Greedy, i).len() ==> #[trigger] is_stuck(mask, tiles(mask, Merge::Greedy, i), k),
    decreases 64 - i,
{
    if i < 64 {
        if mask[i] is None {
            lemma_tiles_stuck(mask, i + 1);
            assert(tiles(mask, Merge::Greedy, i) == tiles(mask, Merge::Greedy, i + 1));
        } else {
            let r = rect_at(mask, Merge::Greedy, i);
            let s = tiles(without(mask, r), Merge::Greedy, i + 1);
            let t = tiles(mask, Merge::Greedy, i);
            lemma_tiles_stuck(without(mask, r), i + 1);
            assert(t =~= seq![r] + s);
            assert forall|k: int| 0 <= k < t.len() implies #[trigger] is_stuck(mask, t, k) by {
                if k == 0 {
                    lemma_rect_stuck(mask, i, t);
                } else {
                    let q = s[k - 1];
                    assert(t[k] == q);
                    assert(is_stuck(without(mask, r), s, k - 1));
                    lemma_taken_behind(mask, r, s, k - 1, q.u1 as int, q.v0 as int);
                    let u = choose|u: int| q.u0 <= u < q.u1 && #[trigger] is_taken(without(mask, r), s, k - 1, u, q.v1 as int);
                    lemma_taken_behind(mask, r, s, k - 1, u, q.v1 as int);
                    assert(is_taken(mask, t, k, u, q.v1 as int));
                }
            }
        }
    }
}

/// `a` lies in the plane of `b` and covers the place `(u, v)` of it.
pub open spec fn overlays(a: Quad, b: Quad, u: int, v: int) -> bool {
    a.face == b.face && a.plane == b.plane && a.u0 <= u < a.u1 && a.v0 <= v < a.v1
}

/// The unit face at `(u, v)` in the plane of quad `k` could be merged into that quad: it is exposed, has the
/// quad's material, and no earlier quad covers it.
pub open spec fn mergeable(occ: Local, quads: Seq<Quad>, k: int, u: int, v: int) -> bool {
    &&& 0 <= u < 8
    &&& 0 <= v < 8
    &&& face_at(occ, quads[k].face as int, quads[k].depth(), u, v) == Some(quads[k].material)
    &&& forall|j: int| 0 <= j < k ==> !#[trigger] overlays(quads[j], quads[k], u, v)
}

/// Quad `k` cannot grow: neither along its first row nor by the row behind its last.
pub open spec fn is_maximal(occ: Local, quads: Seq<Quad>, k: int) -> bool {
    let q = quads[k];
    &&& !mergeable(occ, quads, k, q.u1 as int, q.v0 as int)
    &&& exists|u: int| q.u0 <= u < q.u1 && !#[trigger] mergeable(occ, quads, k, u, q.v1 as int)
}

proof fn lemma_not_mergeable(occ: Local, n: int, quads: Seq<Quad>, from: int, k: int, u: int, v: int)
    requires
        0 <= n < 48,
        0 <= from,
        0 <= k < layer_quads(occ, Merge::Greedy, n / 8, n % 8).len(),
        from + layer_quads(occ, Merge::Greedy, n / 8, n % 8).len() <= quads.len(),
        forall|i: int|
            0 <= i < layer_quads(occ, Merge::Greedy, n / 8, n % 8).len() ==> quads[from + i] == #[trigger] layer_quads(
                occ,
                Merge::Greedy,
                n / 8,
                n % 8,
            )[i],
        0 <= u,
        0 <= v,
        is_taken(layer_mask(occ, n / 8, n % 8), tiles(layer_mask(occ, n / 8, n % 8), Merge::Greedy, 0), k, u, v),
    ensures
        !mergeable(occ, quads, from + k, u, v),
{
    let (f, d) = (n / 8, n % 8);
    let mask = layer_mask(occ, f, d);
    let t = tiles(mask, Merge::Greedy, 0);
    let s = layer_quads(occ, Merge::Greedy, f, d);
    assert(quads[from + k] == s[k] && s[k] == quad_of(t[k], f, d));
    assert(s[k].face == f && s[k].depth() == d);
    if u < 8 && v < 8 {
        assert((8 * v + u) % 8 == u && (8 * v + u) / 8 == v);
        if exists|j: int| 0 <= j < k && #[trigger] covers(t[j], u, v) {
            let j = choose|j: int| 0 <= j < k && #[trigger] covers(t[j], u, v);
            assert(quads[from + j] == s[j] && s[j] == quad_of(t[j], f, d));
            assert(overlays(quads[from + j], quads[from + k], u, v));
        } else {
            assert(mask[8 * v + u] == face_at(occ, f, d, u, v));
        }
    }
}

proof fn lemma_layers_maximal(occ: Local, n: nat, quads: Seq<Quad>)
    requires
        n <= 48,
        layers(occ, Merge::Greedy, n).len() <= quads.len(),
        forall|i: int| 0 <= i < layers(occ, Merge::Greedy, n).len() ==> quads[i] == #[trigger] layers(occ, Merge::Greedy, n)[i],
    ensures
        forall|k: int| 0 <= k < layers(occ, Merge::Greedy, n).len() ==> #[trigger] is_maximal(occ, quads, k),
    decreases n,
{
    if n > 0 {
        let a = layers(occ, Merge::Greedy, (n - 1) as nat);
        let (f, d) = ((n - 1) as int / 8, (n - 1) as int % 8);
        let b = layer_quads(occ, Merge::Greedy, f, d);
        let s = layers(occ, Merge::Greedy, n);
        assert(s =~= a + b);
        assert forall|i: int| 0 <= i < a.len() implies quads[i] == #[trigger] a[i] by {
            assert(s[i] == a[i]);
        }
        assert forall|i: int| 0 <= i < b.len() implies quads[a.len() + i] == #[trigger] b[i] by {
            assert(s[a.len() + i] == b[i]);
        }
        lemma_layers_maximal(occ, (n - 1) as nat, quads);
        let mask = layer_mask(occ, f, d);
        let t = tiles(mask, Merge::Greedy, 0);
        lemma_tiles_stuck(mask, 0);
        assert forall|k: int| 0 <= k < s.len() implies #[trigger] is_maximal(occ, quads, k) by {
            if k >= a.len() {
                let i = k - a.len();
                let r = t[i];
                assert(b[i] == quad_of(r, f, d));
                assert(quads[k] == b[i]);
                assert(is_stuck(mask, t, i));
                lemma_not_mergeable(occ, n - 1, quads, a.len() as int, i, r.u1 as int, r.v0 as int);
                let u = choose|u: int| r.u0 <= u < r.u1 && #[trigger] is_taken(mask, t, i, u, r.v1 as int);
                lemma_not_mergeable(occ, n - 1, quads, a.len() as int, i, u, r.v1 as int);
                let q = quads[k];
                assert(q.u0 == r.u0 && q.v0 == r.v0 && q.u1 == r.u1 && q.v1 == r.v1);
                assert(!mergeable(occ, quads, k, q.u1 as int, q.v0 as int));
                assert(!mergeable(occ, quads, k, u, q.v1 as int));
            }
        }
    }
}

/// Greedy quads are maximal: none can take the next face of its first row, nor the whole row behind its last,
/// from what the quads before it left.
pub proof fn law_greedy_quads_are_maximal(occ: Local, k: int)
    requires
        0 <= k < mesh_quads(occ, Merge::Greedy).len(),
    ensures
        is_maximal(occ, mesh_quads(occ, Merge::Greedy), k),
{
    lemma_layers_maximal(occ, 48, mesh_quads(occ, Merge::Greedy));
}

} // verus!
