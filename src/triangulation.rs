//! Triangulation of a face's polygon into triangles over its own vertex keys.
//!
//! The combinatorial part of the algorithm lives here: the choice between a
//! fan over a convex polygon and ear clipping, the bookkeeping of the
//! remaining corners, the iteration bound and the best-effort fan that closes
//! what ear clipping leaves. The geometric predicates it asks (orientation,
//! turn direction, containment, agreement with the face normal) are answered
//! by a [`PolygonGeometry`] built for the face. Whatever those answers are,
//! the result of a polygon with `n >= 3` corners is `n - 2` triangles, each
//! made of three distinct corners of the polygon.

use vstd::prelude::*;

use crate::mesh::Mesh;

verus! {

/// The geometric questions the triangulator asks about one polygon. Corners
/// are named by their position `0..n` in the polygon's vertex list.
pub trait PolygonGeometry<V>: Sized {
    /// The geometry of the polygon through `keys`, vertices of `mesh`.
    fn of_face(mesh: &Mesh<V>, keys: &Vec<usize>) -> Self;

    /// The sign (-1, 0 or 1) of the polygon's signed area in its projection plane.
    fn area_sign(&self) -> i8;

    /// The sign (-1, 0 or 1, with a small tolerance) of the turn `a -> b -> c`
    /// in the projection plane.
    fn turn_sign(&self, a: usize, b: usize, c: usize) -> i8;

    /// Whether corner `p` lies inside or on the triangle `(a, b, c)` in the
    /// projection plane.
    fn triangle_contains(&self, a: usize, b: usize, c: usize, p: usize) -> bool;

    /// Whether the triangle `(a, b, c)`, wound in this order, faces the same
    /// side as the polygon's normal.
    fn agrees_with_normal(&self, a: usize, b: usize, c: usize) -> bool;
}

/// Three distinct corner positions of a polygon with `n` corners.
pub open spec fn corner_triple(t: [usize; 3], n: int) -> bool {
    &&& t[0] < n
    &&& t[1] < n
    &&& t[2] < n
    &&& t[0] != t[1]
    &&& t[1] != t[2]
    &&& t[0] != t[2]
}

/// `t` is made of the keys at three distinct positions of the polygon `s`.
pub open spec fn corner_triangle(s: Seq<usize>, t: [usize; 3]) -> bool {
    exists|a: int, b: int, c: int|
        #![trigger s[a], s[b], s[c]]
        0 <= a < s.len() && 0 <= b < s.len() && 0 <= c < s.len() && a != b && b != c && a != c
            && t[0] == s[a] && t[1] == s[b] && t[2] == s[c]
}

/// Corner `x` is one of the corners of `t`.
pub open spec fn has_corner(t: [usize; 3], x: usize) -> bool {
    t[0] == x || t[1] == x || t[2] == x
}

/// `t` and `u` are made of different sets of corners.
pub open spec fn differ(t: [usize; 3], u: [usize; 3]) -> bool {
    exists|x: usize| #[trigger] has_corner(t, x) != has_corner(u, x)
}

/// No two triangles of `tris` are made of the same corners.
pub open spec fn all_differ(tris: Seq<[usize; 3]>) -> bool {
    forall|a: int, b: int| 0 <= a < b < tris.len() ==> differ(#[trigger] tris[a], #[trigger] tris[b])
}

/// `t` has a corner that is no longer among `idx`.
spec fn retired(t: [usize; 3], idx: Seq<usize>) -> bool {
    exists|x: usize| #[trigger] has_corner(t, x) && !idx.contains(x)
}

/// A triangulation of the polygon `s`: `s.len() - 2` triangles of its
/// corners, no two of them made of the same corners when the polygon's keys
/// are distinct.
pub open spec fn triangulates(s: Seq<usize>, tris: Seq<[usize; 3]>) -> bool {
    &&& tris.len() + 2 == s.len()
    &&& forall|t: int| 0 <= t < tris.len() ==> corner_triangle(s, #[trigger] tris[t])
    &&& s.no_duplicates() ==> all_differ(tris)
}

proof fn lemma_remove_distinct(s: Seq<usize>, j: int)
    requires
        s.no_duplicates(),
        0 <= j < s.len(),
    ensures
        s.remove(j).no_duplicates(),
        forall|x: usize| s.remove(j).contains(x) ==> s.contains(x),
{
    let r = s.remove(j);
    assert forall|a: int, b: int| 0 <= a < b < r.len() implies r[a] != r[b] by {
        let a2 = if a < j { a } else { a + 1 };
        let b2 = if b < j { b } else { b + 1 };
        assert(r[a] == s[a2] && r[b] == s[b2]);
    }
    assert forall|x: usize| r.contains(x) implies s.contains(x) by {
        let a = choose|a: int| 0 <= a < r.len() && r[a] == x;
        let a2 = if a < j { a } else { a + 1 };
        assert(s[a2] == x);
    }
}

/// The triangle `(a, b, c)`, or `(a, c, b)` where that winding disagrees with
/// the polygon's normal.
fn wound<V, G: PolygonGeometry<V>>(geom: &G, a: usize, b: usize, c: usize) -> (r: [usize; 3])
    ensures
        r == [a, b, c] || r == [a, c, b],
{
    if geom.agrees_with_normal(a, b, c) {
        [a, b, c]
    } else {
        [a, c, b]
    }
}

/// Corner positions `0..n`, in reverse when `reversed`.
fn corner_order(n: usize, reversed: bool) -> (r: Vec<usize>)
    ensures
        r@.len() == n,
        forall|i: int| 0 <= i < n ==> #[trigger] r@[i] == if reversed { n - 1 - i } else { i },
{
    let mut r: Vec<usize> = Vec::new();
    let mut i: usize = 0;
    while i < n
        invariant
            i <= n,
            r@.len() == i,
            forall|k: int| 0 <= k < i ==> #[trigger] r@[k] == if reversed { n - 1 - k } else { k },
        decreases n - i,
    {
        if reversed {
            r.push(n - 1 - i);
        } else {
            r.push(i);
        }
        i = i + 1;
    }
    r
}

proof fn lemma_corner_order_distinct(r: Seq<usize>, n: int, reversed: bool)
    requires
        r.len() == n,
        forall|i: int| 0 <= i < n ==> #[trigger] r[i] == if reversed { n - 1 - i } else { i },
    ensures
        r.no_duplicates(),
        forall|i: int| 0 <= i < n ==> #[trigger] r[i] < n,
{
}

/// Whether every consecutive corner triple of the polygon, walked in the
/// order `idx`, turns left or goes straight.
fn turns_left_throughout<V, G: PolygonGeometry<V>>(geom: &G, idx: &Vec<usize>) -> bool {
    let m = idx.len();
    if m < 3 {
        return false;
    }
    let mut i: usize = 0;
    while i < m
        invariant
            m == idx@.len(),
            m >= 3,
        decreases m - i,
    {
        let b: usize = if i + 1 == m { 0 } else { i + 1 };
        let c: usize = if b + 1 == m { 0 } else { b + 1 };
        if geom.turn_sign(idx[i], idx[b], idx[c]) < 0 {
            return false;
        }
        i = i + 1;
    }
    true
}

/// A fan from the first corner of `idx` over the others; with `wind`, each
/// triangle is wound to agree with the polygon's normal.
fn fan<V, G: PolygonGeometry<V>>(geom: &G, idx: &Vec<usize>, n: usize, wind: bool, tris: &mut Vec<[usize; 3]>)
    requires
        idx@.len() >= 3,
        idx@.no_duplicates(),
        forall|i: int| 0 <= i < idx@.len() ==> #[trigger] idx@[i] < n,
    ensures
        final(tris)@.len() == old(tris)@.len() + idx@.len() - 2,
        forall|t: int| 0 <= t < old(tris)@.len() ==> #[trigger] final(tris)@[t] == old(tris)@[t],
        forall|t: int|
            old(tris)@.len() <= t < final(tris)@.len() ==> corner_triple(#[trigger] final(tris)@[t], n as int),
        forall|t: int, x: usize|
            old(tris)@.len() <= t < final(tris)@.len() && #[trigger] has_corner(final(tris)@[t], x) ==> idx@.contains(x),
        forall|a: int, b: int|
            old(tris)@.len() <= a < b < final(tris)@.len() ==> differ(#[trigger] final(tris)@[a], #[trigger] final(tris)@[b]),
{
    let m = idx.len();
    let mut i: usize = 1;
    while i + 1 < m
        invariant
            m == idx@.len(),
            1 <= i < m,
            idx@.no_duplicates(),
            forall|k: int| 0 <= k < m ==> #[trigger] idx@[k] < n,
            tris@.len() == old(tris)@.len() + i - 1,
            forall|t: int| 0 <= t < old(tris)@.len() ==> #[trigger] tris@[t] == old(tris)@[t],
            forall|t: int| old(tris)@.len() <= t < tris@.len() ==> corner_triple(#[trigger] tris@[t], n as int),
            forall|t: int, x: usize|
                old(tris)@.len() <= t < tris@.len() && #[trigger] has_corner(tris@[t], x) ==> x == idx@[0] || x == idx@[
                    t - old(tris)@.len() + 1] || x == idx@[t - old(tris)@.len() + 2],
            forall|t: int| old(tris)@.len() <= t < tris@.len() ==> #[trigger] has_corner(tris@[t], idx@[t - old(tris)@.len() + 2]),
            forall|a: int, b: int|
                old(tris)@.len() <= a < b < tris@.len() ==> differ(#[trigger] tris@[a], #[trigger] tris@[b]),
        decreases m - i,
    {
        let a = idx[0];
        let b = idx[i];
        let c = idx[i + 1];
        let t = if wind {
            wound(geom, a, b, c)
        } else {
            [a, b, c]
        };
        let ghost t0 = tris@;
        tris.push(t);
        proof {
            let base = old(tris)@.len();
            let newt = t0.len() as int;
            assert(tris@[newt] == t);
            assert forall|a2: int, b2: int|
                base <= a2 < b2 < tris@.len() implies differ(#[trigger] tris@[a2], #[trigger] tris@[b2]) by {
                if b2 < newt {
                    assert(tris@[a2] == t0[a2] && tris@[b2] == t0[b2]);
                } else {
                    let x = idx@[i as int + 1];
                    assert(has_corner(t, x));
                    assert(tris@[a2] == t0[a2]);
                    if has_corner(t0[a2], x) {
                        let k = a2 - base;
                        assert(x == idx@[0] || x == idx@[k + 1] || x == idx@[k + 2]);
                        assert(k + 2 < i + 1);
                    }
                    assert(has_corner(tris@[b2], x) != has_corner(tris@[a2], x));
                }
            }
            assert forall|t2: int, x: usize|
                base <= t2 < tris@.len() && #[trigger] has_corner(tris@[t2], x) implies x == idx@[0] || x == idx@[t2 - base + 1]
                    || x == idx@[t2 - base + 2] by {
                if t2 < newt {
                    assert(tris@[t2] == t0[t2]);
                }
            }
            assert forall|t2: int| base <= t2 < tris@.len() implies #[trigger] has_corner(tris@[t2], idx@[t2 - base + 2]) by {
                if t2 < newt {
                    assert(tris@[t2] == t0[t2]);
                }
            }
        }
        i = i + 1;
    }
    proof {
        let base = old(tris)@.len();
        assert forall|t: int, x: usize|
            base <= t < tris@.len() && #[trigger] has_corner(tris@[t], x) implies idx@.contains(x) by {
            if x == idx@[0] {
            } else if x == idx@[t - base + 1] {
            } else {
                assert(x == idx@[t - base + 2]);
            }
        }
    }
}

/// A triangle whose corners all remain in `idx` differs from every triangle
/// that has a retired corner, and appending it keeps all triangles distinct.
proof fn lemma_new_differs(tris: Seq<[usize; 3]>, idx: Seq<usize>, t: [usize; 3])
    requires
        all_differ(tris),
        forall|u: int| 0 <= u < tris.len() ==> retired(#[trigger] tris[u], idx),
        idx.contains(t[0]),
        idx.contains(t[1]),
        idx.contains(t[2]),
    ensures
        all_differ(tris.push(t)),
{
    let r = tris.push(t);
    assert forall|a: int, b: int| 0 <= a < b < r.len() implies differ(#[trigger] r[a], #[trigger] r[b]) by {
        if b < tris.len() {
            assert(r[a] == tris[a] && r[b] == tris[b]);
        } else {
            assert(r[a] == tris[a] && r[b] == t);
            assert(retired(tris[a], idx));
            let x = choose|x: usize| #[trigger] has_corner(tris[a], x) && !idx.contains(x);
            assert(!has_corner(t, x));
            assert(has_corner(r[a], x) != has_corner(r[b], x));
        }
    }
}

/// Ear clipping over the whole polygon of `n` corners, closed by a fan where
/// no ear is found in time.
fn clip_ears<V, G: PolygonGeometry<V>>(geom: &G, n: usize) -> (r: Vec<[usize; 3]>)
    requires
        n >= 3,
    ensures
        r@.len() + 2 == n,
        forall|t: int| 0 <= t < r@.len() ==> corner_triple(#[trigger] r@[t], n as int),
        all_differ(r@),
{
    let ccw = geom.area_sign() > 0;
    let mut idx = corner_order(n, !ccw);
    proof {
        lemma_corner_order_distinct(idx@, n as int, !ccw);
    }
    let mut tris: Vec<[usize; 3]> = Vec::new();
    let limit: usize = match n.checked_mul(n) {
        Some(l) => l,
        None => usize::MAX,
    };
    let mut guard: usize = 0;
    let mut stuck = false;
    while idx.len() > 3 && guard < limit && !stuck
        invariant
            idx@.len() >= 3,
            idx@.no_duplicates(),
            forall|i: int| 0 <= i < idx@.len() ==> #[trigger] idx@[i] < n,
            tris@.len() + idx@.len() == n,
            forall|t: int| 0 <= t < tris@.len() ==> corner_triple(#[trigger] tris@[t], n as int),
            all_differ(tris@),
            forall|t: int| 0 <= t < tris@.len() ==> retired(#[trigger] tris@[t], idx@),
        decreases idx@.len() + (if stuck { 0int } else { 1int }),
    {
        let m = idx.len();
        let mut ear_found = false;
        let mut j: usize = 0;
        while j < m && !ear_found
            invariant
                m >= 4,
                j <= m,
                !ear_found ==> idx@.len() == m,
                ear_found ==> idx@.len() + 1 == m,
                idx@.len() >= 3,
                idx@.no_duplicates(),
                forall|i: int| 0 <= i < idx@.len() ==> #[trigger] idx@[i] < n,
                tris@.len() + idx@.len() == n,
                forall|t: int| 0 <= t < tris@.len() ==> corner_triple(#[trigger] tris@[t], n as int),
                all_differ(tris@),
                forall|t: int| 0 <= t < tris@.len() ==> retired(#[trigger] tris@[t], idx@),
            decreases m - j,
        {
            let p: usize = if j == 0 { m - 1 } else { j - 1 };
            let q: usize = if j + 1 == m { 0 } else { j + 1 };
            let i0 = idx[p];
            let i1 = idx[j];
            let i2 = idx[q];
            let turn = geom.turn_sign(i0, i1, i2);
            let convex = if ccw { turn > 0 } else { turn < 0 };
            if convex {
                let mut contains = false;
                let mut k: usize = 0;
                while k < m && !contains
                    invariant
                        m == idx@.len(),
                    decreases m - k,
                {
                    let x = idx[k];
                    if x != i0 && x != i1 && x != i2 && geom.triangle_contains(i0, i1, i2, x) {
                        contains = true;
                    }
                    k = k + 1;
                }
                if !contains {
                    let t = wound(geom, i0, i1, i2);
                    let ghost t0 = tris@;
                    proof {
                        assert(idx@.contains(i0) && idx@.contains(i1) && idx@.contains(i2)) by {
                            assert(idx@[p as int] == i0 && idx@[j as int] == i1 && idx@[q as int] == i2);
                        }
                        lemma_new_differs(t0, idx@, t);
                    }
                    tris.push(t);
                    let ghost before = idx@;
                    proof {
                        lemma_remove_distinct(idx@, j as int);
                    }
                    idx.remove(j);
                    proof {
                        assert forall|i: int| 0 <= i < idx@.len() implies #[trigger] idx@[i] < n by {
                            let i2 = if i < j { i } else { i + 1 };
                            assert(idx@[i] == before[i2]);
                        }
                        assert(!idx@.contains(i1)) by {
                            if idx@.contains(i1) {
                                let k = choose|k: int| 0 <= k < idx@.len() && idx@[k] == i1;
                                let k2 = if k < j { k } else { k + 1 };
                                assert(before[k2] == i1 && before[j as int] == i1);
                            }
                        }
                        assert forall|u: int| 0 <= u < tris@.len() implies retired(#[trigger] tris@[u], idx@) by {
                            if u < t0.len() {
                                assert(tris@[u] == t0[u]);
                                assert(retired(t0[u], before));
                                let x = choose|x: usize| #[trigger] has_corner(t0[u], x) && !before.contains(x);
                                assert(has_corner(tris@[u], x) && !idx@.contains(x));
                            } else {
                                assert(tris@[u] == t);
                                assert(has_corner(t, i1) && !idx@.contains(i1));
                            }
                        }
                    }
                    ear_found = true;
                }
            }
            j = j + 1;
        }
        if !ear_found {
            stuck = true;
        } else {
            guard = guard + 1;
        }
    }
    if idx.len() == 3 {
        let t = wound(geom, idx[0], idx[1], idx[2]);
        proof {
            assert(idx@.contains(idx@[0]) && idx@.contains(idx@[1]) && idx@.contains(idx@[2]));
            lemma_new_differs(tris@, idx@, t);
        }
        tris.push(t);
    } else {
        let ghost t0 = tris@;
        fan(geom, &idx, n, false, &mut tris);
        proof {
            assert forall|a: int, b: int| 0 <= a < b < tris@.len() implies differ(#[trigger] tris@[a], #[trigger] tris@[b]) by {
                if b < t0.len() {
                    assert(tris@[a] == t0[a] && tris@[b] == t0[b]);
                } else if a < t0.len() {
                    assert(tris@[a] == t0[a]);
                    assert(retired(t0[a], idx@));
                    let x = choose|x: usize| #[trigger] has_corner(t0[a], x) && !idx@.contains(x);
                    if has_corner(tris@[b], x) {
                        assert(idx@.contains(x));
                    }
                    assert(has_corner(tris@[a], x) != has_corner(tris@[b], x));
                }
            }
        }
    }
    tris
}

/// Triangle corner positions for a polygon of `n >= 3` corners: a wound fan
/// when the polygon, walked counter-clockwise, never turns right; ear
/// clipping otherwise.
fn triangulate_corners<V, G: PolygonGeometry<V>>(geom: &G, n: usize) -> (r: Vec<[usize; 3]>)
    requires
        n >= 3,
    ensures
        r@.len() + 2 == n,
        forall|t: int| 0 <= t < r@.len() ==> corner_triple(#[trigger] r@[t], n as int),
        all_differ(r@),
{
    let reversed = geom.area_sign() < 0;
    let idx = corner_order(n, reversed);
    proof {
        lemma_corner_order_distinct(idx@, n as int, reversed);
    }
    if turns_left_throughout(geom, &idx) {
        let mut tris: Vec<[usize; 3]> = Vec::new();
        fan(geom, &idx, n, true, &mut tris);
        tris
    } else {
        clip_ears(geom, n)
    }
}

/// Triangulate the polygon through `keys` with the geometry `geom` of that
/// polygon. Fewer than three keys give no triangle; exactly three give the
/// polygon itself; more give `n - 2` triangles, each made of the keys at
/// three distinct positions of the polygon.
pub fn triangulate_polygon<V, G: PolygonGeometry<V>>(keys: &Vec<usize>, geom: &G) -> (r: Vec<[usize; 3]>)
    ensures
        keys@.len() < 3 ==> r@.len() == 0,
        keys@.len() == 3 ==> r@ == seq![[keys@[0], keys@[1], keys@[2]]],
        keys@.len() >= 3 ==> triangulates(keys@, r@),
        keys@.no_duplicates() ==> all_differ(r@),
{
    let n = keys.len();
    if n < 3 {
        return Vec::new();
    }
    if n == 3 {
        let r = vec![[keys[0], keys[1], keys[2]]];
        proof {
            let s = keys@;
            assert(r@[0] == [s[0], s[1], s[2]]);
            assert(corner_triangle(s, r@[0]));
        }
        return r;
    }
    let corners = triangulate_corners(geom, n);
    let mut r: Vec<[usize; 3]> = Vec::new();
    let mut i: usize = 0;
    while i < corners.len()
        invariant
            n == keys@.len(),
            corners@.len() + 2 == n,
            forall|t: int| 0 <= t < corners@.len() ==> corner_triple(#[trigger] corners@[t], n as int),
            i <= corners@.len(),
            r@.len() == i,
            forall|t: int| 0 <= t < i ==> corner_triangle(keys@, #[trigger] r@[t]),
            all_differ(corners@),
            forall|t: int| 0 <= t < i ==> #[trigger] r@[t] == keyed(keys@, corners@[t]),
            keys@.no_duplicates() ==> all_differ(r@),
        decreases corners@.len() - i,
    {
        let c = corners[i];
        let t = [keys[c[0]], keys[c[1]], keys[c[2]]];
        proof {
            let s = keys@;
            assert(t[0] == s[c[0] as int] && t[1] == s[c[1] as int] && t[2] == s[c[2] as int]);
            assert(corner_triangle(s, t));
        }
        let ghost r0 = r@;
        r.push(t);
        proof {
            assert(t == keyed(keys@, c));
            if keys@.no_duplicates() {
                assert forall|a: int, b: int| 0 <= a < b < r@.len() implies differ(#[trigger] r@[a], #[trigger] r@[b]) by {
                    if b < r0.len() {
                        assert(r@[a] == r0[a] && r@[b] == r0[b]);
                    } else {
                        assert(r@[a] == keyed(keys@, corners@[a]));
                        assert(differ(corners@[a], corners@[b]));
                        lemma_keyed_differ(keys@, corners@[a], corners@[b]);
                    }
                }
            }
        }
        i = i + 1;
    }
    r
}

/// The triangle of keys at the corner positions of `c`.
pub open spec fn keyed(keys: Seq<usize>, c: [usize; 3]) -> [usize; 3] {
    [keys[c[0] as int], keys[c[1] as int], keys[c[2] as int]]
}

proof fn lemma_keyed_differ(keys: Seq<usize>, c: [usize; 3], d: [usize; 3])
    requires
        keys.no_duplicates(),
        corner_triple(c, keys.len() as int),
        corner_triple(d, keys.len() as int),
        differ(c, d),
    ensures
        differ(keyed(keys, c), keyed(keys, d)),
{
    let x = choose|x: usize| #[trigger] has_corner(c, x) != has_corner(d, x);
    let (t, u) = if has_corner(c, x) { (c, d) } else { (d, c) };
    assert(has_corner(t, x) && !has_corner(u, x));
    let k = keys[x as int];
    assert(has_corner(keyed(keys, t), k));
    assert(!has_corner(keyed(keys, u), k)) by {
        if keys[u[0] as int] == k { assert(u[0] == x); }
        if keys[u[1] as int] == k { assert(u[1] == x); }
        if keys[u[2] as int] == k { assert(u[2] == x); }
    }
    if has_corner(c, x) {
        assert(has_corner(keyed(keys, c), k) != has_corner(keyed(keys, d), k));
    } else {
        assert(has_corner(keyed(keys, c), k) != has_corner(keyed(keys, d), k));
    }
}

} // verus!
