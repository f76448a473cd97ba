//! Building a mesh from polygons given as corner points, merging corners
//! that share a grid key. The caller computes each corner's key (exact bits,
//! or coordinates rounded onto a grid); corners with equal keys become one
//! vertex, the first corner's payload kept. Each polygon whose corners have
//! pairwise distinct keys is then triangulated, and its triangles become the
//! faces.

use vstd::prelude::*;

use std::collections::HashSet;

use crate::mesh::{valid_polygon, Mesh};
use crate::shapes::{auto_key, lemma_auto_faces_push, sides_of};
use crate::triangulation::{corner_triangle, PolygonGeometry};

verus! {

/// A corner's merge key.
pub type GridKey = (i64, i64, i64);

/// The keys of the corners of the first `n` polygons that have at least
/// three corners.
pub open spec fn keys_used<V>(polys: Seq<Vec<(GridKey, V)>>, n: int) -> Set<GridKey> {
    Set::new(
        |k: GridKey|
            exists|i: int, c: int|
                0 <= i < n && polys[i]@.len() >= 3 && 0 <= c < polys[i]@.len() && #[trigger] polys[i]@[c].0 == k,
    )
}

/// No two corners of `p` share a key.
pub open spec fn distinct_keys<V>(p: Seq<(GridKey, V)>) -> bool {
    forall|a: int, b: int| 0 <= a < b < p.len() ==> p[a].0 != p[b].0
}

/// How many triangle faces the first `n` polygons become: a polygon of `m`
/// corners with at least three corners, no two of which share a key, gives
/// `m - 2`; any other polygon gives none.
pub open spec fn faces_made<V>(polys: Seq<Vec<(GridKey, V)>>, n: int) -> nat
    decreases n,
{
    if n <= 0 {
        0
    } else {
        faces_made(polys, n - 1) + if polys[n - 1]@.len() >= 3 && distinct_keys(polys[n - 1]@) {
            (polys[n - 1]@.len() - 2) as nat
        } else {
            0nat
        }
    }
}

/// The total number of corners of the first `n` polygons.
pub open spec fn corner_total<V>(polys: Seq<Vec<(GridKey, V)>>, n: int) -> nat
    decreases n,
{
    if n <= 0 {
        0
    } else {
        corner_total(polys, n - 1) + polys[n - 1]@.len()
    }
}

proof fn lemma_corner_total_monotone<V>(polys: Seq<Vec<(GridKey, V)>>, a: int, b: int)
    requires
        0 <= a <= b,
    ensures
        corner_total(polys, a) <= corner_total(polys, b),
    decreases b - a,
{
    if a < b {
        lemma_corner_total_monotone(polys, a, b - 1);
    }
}

proof fn lemma_faces_made_bound<V>(polys: Seq<Vec<(GridKey, V)>>, n: int)
    requires
        0 <= n,
    ensures
        faces_made(polys, n) <= corner_total(polys, n),
    decreases n,
{
    if n > 0 {
        lemma_faces_made_bound(polys, n - 1);
    }
}

/// Corner `c` of polygon `i` is kept: its polygon has at least three corners.
pub open spec fn kept_corner<V>(polys: Seq<Vec<(GridKey, V)>>, i: int, c: int) -> bool {
    0 <= i < polys.len() && polys[i]@.len() >= 3 && 0 <= c < polys[i]@.len()
}

/// `payload` is the payload of the first kept corner (in polygon order, then
/// corner order) whose key is `k`.
pub open spec fn first_corner<V>(polys: Seq<Vec<(GridKey, V)>>, k: GridKey, payload: V) -> bool {
    exists|i: int, c: int|
        #[trigger] kept_corner(polys, i, c) && polys[i]@[c].0 == k && polys[i]@[c].1 == payload && forall|i2: int, c2: int|
            #[trigger] kept_corner(polys, i2, c2) && (i2 < i || (i2 == i && c2 < c)) ==> polys[i2]@[c2].0 != k
}

/// `f` is a triangle over three distinct corners of polygon `p`, each corner
/// standing for the vertex `auto_key(x)` where `ks[x]` is its key.
pub open spec fn triangle_of_polygon<V>(p: Seq<(GridKey, V)>, ks: Seq<GridKey>, f: Seq<usize>) -> bool {
    exists|c0: int, c1: int, c2: int, x0: int, x1: int, x2: int|
        #![trigger p[c0], p[c1], p[c2], ks[x0], ks[x1], ks[x2]]
        0 <= c0 < p.len() && 0 <= c1 < p.len() && 0 <= c2 < p.len() && c0 != c1 && c1 != c2 && c0 != c2
            && 0 <= x0 < ks.len() && 0 <= x1 < ks.len() && 0 <= x2 < ks.len()
            && ks[x0] == p[c0].0 && ks[x1] == p[c1].0 && ks[x2] == p[c2].0
            && f == seq![auto_key(x0), auto_key(x1), auto_key(x2)]
}

/// The vertices of merging `polys`, with `ks[a]` the key of vertex
/// `auto_key(a)`: the keys are those of the kept corners, each once, and
/// every vertex holds the payload of the first kept corner with its key.
pub open spec fn merged_by<V>(polys: Seq<Vec<(GridKey, V)>>, ks: Seq<GridKey>, m: Mesh<V>) -> bool {
    &&& ks.len() == m.vertices().len()
    &&& ks.no_duplicates()
    &&& forall|k: GridKey| keys_used(polys, polys.len() as int).contains(k) <==> ks.contains(k)
    &&& forall|a: int|
        0 <= a < ks.len() ==> {
            &&& m.vertices().contains_key(#[trigger] auto_key(a))
            &&& first_corner(polys, ks[a], m.vertices()[auto_key(a)])
        }
    &&& faces_from_polygons(m.faces(), polys, ks)
}

/// Every face of `faces` under the automatic keys is a triangle over three
/// corners of one polygon whose corner keys are pairwise distinct, read
/// through the key list `ks`.
pub open spec fn faces_from_polygons<V>(faces: Map<usize, Seq<usize>>, polys: Seq<Vec<(GridKey, V)>>, ks: Seq<GridKey>) -> bool {
    forall|q: int|
        0 <= q < faces.len() ==> {
            &&& faces.contains_key(#[trigger] auto_key(q))
            &&& exists|i: int|
                0 <= i < polys.len() && polys[i]@.len() >= 3 && distinct_keys(polys[i]@)
                    && #[trigger] triangle_of_polygon(polys[i]@, ks, faces[auto_key(q)])
        }
}

proof fn lemma_triangle_extend<V>(p: Seq<(GridKey, V)>, ks: Seq<GridKey>, ks2: Seq<GridKey>, f: Seq<usize>)
    requires
        triangle_of_polygon(p, ks, f),
        ks.len() <= ks2.len(),
        forall|x: int| 0 <= x < ks.len() ==> ks2[x] == ks[x],
    ensures
        triangle_of_polygon(p, ks2, f),
{
    let (c0, c1, c2, x0, x1, x2) = choose|c0: int, c1: int, c2: int, x0: int, x1: int, x2: int|
        #![trigger p[c0], p[c1], p[c2], ks[x0], ks[x1], ks[x2]]
        0 <= c0 < p.len() && 0 <= c1 < p.len() && 0 <= c2 < p.len() && c0 != c1 && c1 != c2 && c0 != c2
            && 0 <= x0 < ks.len() && 0 <= x1 < ks.len() && 0 <= x2 < ks.len()
            && ks[x0] == p[c0].0 && ks[x1] == p[c1].0 && ks[x2] == p[c2].0
            && f == seq![auto_key(x0), auto_key(x1), auto_key(x2)];
    assert(ks2[x0] == p[c0].0 && ks2[x1] == p[c1].0 && ks2[x2] == p[c2].0);
}

proof fn lemma_faces_extend<V>(faces: Map<usize, Seq<usize>>, polys: Seq<Vec<(GridKey, V)>>, ks: Seq<GridKey>, ks2: Seq<GridKey>)
    requires
        faces_from_polygons(faces, polys, ks),
        ks.len() <= ks2.len(),
        forall|x: int| 0 <= x < ks.len() ==> ks2[x] == ks[x],
    ensures
        faces_from_polygons(faces, polys, ks2),
{
    assert forall|q: int| 0 <= q < faces.len() implies {
        &&& faces.contains_key(#[trigger] auto_key(q))
        &&& exists|i: int|
            0 <= i < polys.len() && polys[i]@.len() >= 3 && distinct_keys(polys[i]@)
                && #[trigger] triangle_of_polygon(polys[i]@, ks2, faces[auto_key(q)])
    } by {
        let i = choose|i: int|
            0 <= i < polys.len() && polys[i]@.len() >= 3 && distinct_keys(polys[i]@)
                && #[trigger] triangle_of_polygon(polys[i]@, ks, faces[auto_key(q)]);
        lemma_triangle_extend(polys[i]@, ks, ks2, faces[auto_key(q)]);
    }
}

proof fn lemma_faces_after_add<V>(
    before: Map<usize, Seq<usize>>,
    after: Map<usize, Seq<usize>>,
    polys: Seq<Vec<(GridKey, V)>>,
    ks: Seq<GridKey>,
    i: int,
)
    requires
        faces_from_polygons(before, polys, ks),
        before.len() <= after.len(),
        0 <= i < polys.len(),
        polys[i]@.len() >= 3,
        distinct_keys(polys[i]@),
        forall|q: int|
            0 <= q < after.len() ==> {
                &&& after.contains_key(#[trigger] auto_key(q))
                &&& q < before.len() ==> after[auto_key(q)] == before[auto_key(q)]
                &&& q >= before.len() ==> triangle_of_polygon(polys[i]@, ks, after[auto_key(q)])
            },
    ensures
        faces_from_polygons(after, polys, ks),
{
    assert forall|q: int| 0 <= q < after.len() implies {
        &&& after.contains_key(#[trigger] auto_key(q))
        &&& exists|i2: int|
            0 <= i2 < polys.len() && polys[i2]@.len() >= 3 && distinct_keys(polys[i2]@)
                && #[trigger] triangle_of_polygon(polys[i2]@, ks, after[auto_key(q)])
    } by {
        if q < before.len() {
            assert(before.contains_key(auto_key(q)));
            let i2 = choose|i2: int|
                0 <= i2 < polys.len() && polys[i2]@.len() >= 3 && distinct_keys(polys[i2]@)
                    && #[trigger] triangle_of_polygon(polys[i2]@, ks, before[auto_key(q)]);
        } else {
            assert(triangle_of_polygon(polys[i]@, ks, after[auto_key(q)]));
        }
    }
}

/// Some corner of polygon `p` has key `k`.
pub open spec fn key_in_polygon<V>(p: Seq<(GridKey, V)>, k: GridKey) -> bool {
    exists|q: int| 0 <= q < p.len() && #[trigger] p[q].0 == k
}

/// The keys of a list of (key, vertex key) entries.
pub open spec fn keys_of(known: Seq<(GridKey, usize)>) -> Seq<GridKey> {
    known.map_values(|e: (GridKey, usize)| e.0)
}

proof fn lemma_distinct_iff<V>(s: Seq<usize>, p: Seq<(GridKey, V)>, slots: Seq<int>, known: Seq<(GridKey, usize)>)
    requires
        s.len() == p.len(),
        slots.len() == p.len(),
        forall|q: int|
            0 <= q < slots.len() ==> 0 <= #[trigger] slots[q] < known.len() && known[slots[q]].0 == p[q].0 && s[q]
                == auto_key(slots[q]),
        forall|a: int, b: int| 0 <= a < b < known.len() ==> known[a].0 != known[b].0,
        known.len() <= usize::MAX / 4,
    ensures
        s.no_duplicates() == distinct_keys(p),
{
    if s.no_duplicates() {
        assert forall|a: int, b: int| 0 <= a < b < p.len() implies p[a].0 != p[b].0 by {
            if p[a].0 == p[b].0 {
                if slots[a] != slots[b] {
                    if slots[a] < slots[b] {
                        assert(known[slots[a]].0 != known[slots[b]].0);
                    } else {
                        assert(known[slots[b]].0 != known[slots[a]].0);
                    }
                }
                assert(s[a] == s[b]);
            }
        }
    }
    if distinct_keys(p) {
        assert forall|a: int, b: int| 0 <= a < b < s.len() implies s[a] != s[b] by {
            assert(p[a].0 != p[b].0);
            if s[a] == s[b] {
                assert(auto_key(slots[a]) == auto_key(slots[b]));
                assert(slots[a] == slots[b]);
            }
        }
    }
}

proof fn lemma_keys_used_step<V>(
    polys: Seq<Vec<(GridKey, V)>>,
    i: int,
    k0: Seq<(GridKey, usize)>,
    known: Seq<(GridKey, usize)>,
    slots: Seq<int>,
    j: int,
)
    requires
        j == i + 1,
        0 <= i < polys.len(),
        polys[i]@.len() >= 3,
        k0.len() <= known.len(),
        forall|a: int| 0 <= a < k0.len() ==> #[trigger] known[a] == k0[a],
        forall|k: GridKey|
            keys_used(polys, i).contains(k) <==> exists|a: int| 0 <= a < k0.len() && #[trigger] k0[a].0 == k,
        forall|a: int| k0.len() <= a < known.len() ==> #[trigger] key_in_polygon(polys[i]@, known[a].0),
        slots.len() == polys[i]@.len(),
        forall|q: int|
            0 <= q < slots.len() ==> 0 <= #[trigger] slots[q] < known.len() && known[slots[q]].0 == polys[i]@[q].0,
    ensures
        forall|k: GridKey|
            #[trigger] keys_used(polys, j).contains(k) <==> exists|a: int| 0 <= a < known.len() && #[trigger] known[a].0 == k,
{
    let next = keys_used(polys, j);
    assert forall|k: GridKey| #[trigger] next.contains(k) <==> exists|a: int| 0 <= a < known.len() && #[trigger] known[a].0 == k by {
        if next.contains(k) {
            let (i2, c2) = choose|i2: int, c2: int|
                0 <= i2 < i + 1 && polys[i2]@.len() >= 3 && 0 <= c2 < polys[i2]@.len() && #[trigger] polys[i2]@[c2].0 == k;
            if i2 < i {
                assert(keys_used(polys, i).contains(k));
                let a = choose|a: int| 0 <= a < k0.len() && #[trigger] k0[a].0 == k;
                assert(known[a] == k0[a]);
            } else {
                assert(known[slots[c2]].0 == k);
            }
        }
        if exists|a: int| 0 <= a < known.len() && #[trigger] known[a].0 == k {
            let a = choose|a: int| 0 <= a < known.len() && #[trigger] known[a].0 == k;
            if a < k0.len() {
                assert(k0[a].0 == k);
                assert(keys_used(polys, i).contains(k));
                let (i2, c2) = choose|i2: int, c2: int|
                    0 <= i2 < i && polys[i2]@.len() >= 3 && 0 <= c2 < polys[i2]@.len() && #[trigger] polys[i2]@[c2].0 == k;
                assert(polys[i2]@[c2].0 == k);
            } else {
                assert(key_in_polygon(polys[i]@, known[a].0));
                let q = choose|q: int| 0 <= q < polys[i]@.len() && #[trigger] polys[i]@[q].0 == known[a].0;
                assert(polys[i]@[q].0 == k);
            }
        }
    }
}

/// Vertex key `v` stands for a corner whose key is `k`: `v` is
/// `auto_key(x)` with `ks[x] == k`.
pub open spec fn vertex_of_key(ks: Seq<GridKey>, k: GridKey, v: usize) -> bool {
    exists|x: int| 0 <= x < ks.len() && ks[x] == k && v == #[trigger] auto_key(x)
}

proof fn lemma_triangle_face<V>(s: Seq<usize>, tr: [usize; 3], p: Seq<(GridKey, V)>, ks: Seq<GridKey>, dom: Set<usize>)
    requires
        corner_triangle(s, tr),
        s.no_duplicates(),
        s.len() == p.len(),
        forall|q: int| 0 <= q < s.len() ==> dom.contains(#[trigger] s[q]),
        forall|q: int| 0 <= q < s.len() ==> #[trigger] vertex_of_key(ks, p[q].0, s[q]),
    ensures
        valid_polygon(seq![tr[0], tr[1], tr[2]], dom),
        triangle_of_polygon(p, ks, seq![tr[0], tr[1], tr[2]]),
{
    let (a, b, c) = choose|a: int, b: int, c: int|
        #![trigger s[a], s[b], s[c]]
        0 <= a < s.len() && 0 <= b < s.len() && 0 <= c < s.len() && a != b && b != c && a != c
            && tr[0] == s[a] && tr[1] == s[b] && tr[2] == s[c];
    let fv = seq![tr[0], tr[1], tr[2]];
    assert(fv =~= seq![s[a], s[b], s[c]]);
    assert(dom.contains(s[a]) && dom.contains(s[b]) && dom.contains(s[c]));
    assert(valid_polygon(fv, dom));
    assert(vertex_of_key(ks, p[a].0, s[a]));
    assert(vertex_of_key(ks, p[b].0, s[b]));
    assert(vertex_of_key(ks, p[c].0, s[c]));
    let x0 = choose|x: int| 0 <= x < ks.len() && ks[x] == p[a].0 && s[a] == #[trigger] auto_key(x);
    let x1 = choose|x: int| 0 <= x < ks.len() && ks[x] == p[b].0 && s[b] == #[trigger] auto_key(x);
    let x2 = choose|x: int| 0 <= x < ks.len() && ks[x] == p[c].0 && s[c] == #[trigger] auto_key(x);
    assert(fv == seq![auto_key(x0), auto_key(x1), auto_key(x2)]);
}

/// Whether no entry of `v` repeats.
fn no_repeats(v: &Vec<usize>) -> (r: bool)
    ensures
        r == v@.no_duplicates(),
{
    let mut seen: HashSet<usize> = HashSet::new();
    let mut i: usize = 0;
    while i < v.len()
        invariant
            i <= v@.len(),
            seen@ == v@.subrange(0, i as int).to_set(),
            v@.subrange(0, i as int).no_duplicates(),
        decreases v@.len() - i,
    {
        proof {
            broadcast use vstd::seq_lib::group_seq_properties;
        }
        let ghost pre = v@.subrange(0, i as int);
        if !seen.insert(v[i]) {
            proof {
                broadcast use vstd::seq_lib::group_seq_properties;
                assert(pre.contains(v@[i as int]));
                let j = choose|j: int| 0 <= j < pre.len() && pre[j] == v@[i as int];
                assert(v@[j] == v@[i as int] && j != i);
            }
            return false;
        }
        proof {
            assert(v@.subrange(0, i + 1) =~= pre.push(v@[i as int]));
        }
        i = i + 1;
    }
    proof {
        assert(v@.subrange(0, v@.len() as int) =~= v@);
    }
    true
}




/// Whether `key` is among the first entries of `known`, and where.
fn find_key(known: &Vec<(GridKey, usize)>, key: GridKey) -> (r: Option<usize>)
    ensures
        match r {
            Some(i) => i < known@.len() && known@[i as int].0 == key,
            None => forall|i: int| 0 <= i < known@.len() ==> known@[i].0 != key,
        },
{
    let mut i: usize = 0;
    while i < known.len()
        invariant
            i <= known@.len(),
            forall|j: int| 0 <= j < i ==> known@[j].0 != key,
        decreases known@.len() - i,
    {
        let e = known[i];
        if e.0.0 == key.0 && e.0.1 == key.1 && e.0.2 == key.2 {
            return Some(i);
        }
        i = i + 1;
    }
    None
}

/// Position `p` holds the first occurrence of its key in `keys`.
pub open spec fn first_occurrence(keys: Seq<GridKey>, p: int) -> bool {
    forall|q: int| 0 <= q < p ==> keys[q] != keys[p]
}

/// The key at position `q` of `keys` is the key at one of the positions `r`.
pub open spec fn represented(keys: Seq<GridKey>, r: Seq<usize>, q: int) -> bool {
    exists|j: int| 0 <= j < r.len() && keys[#[trigger] r[j] as int] == keys[q]
}

/// Where in `r` a position holding `key` is, if any.
fn find_position(keys: &Vec<GridKey>, r: &Vec<usize>, key: GridKey) -> (found: Option<usize>)
    requires
        forall|j: int| 0 <= j < r@.len() ==> #[trigger] r@[j] < keys@.len(),
    ensures
        match found {
            Some(j) => j < r@.len() && keys@[r@[j as int] as int] == key,
            None => forall|j: int| 0 <= j < r@.len() ==> keys@[#[trigger] r@[j] as int] != key,
        },
{
    let mut j: usize = 0;
    while j < r.len()
        invariant
            j <= r@.len(),
            forall|t: int| 0 <= t < r@.len() ==> #[trigger] r@[t] < keys@.len(),
            forall|t: int| 0 <= t < j ==> keys@[#[trigger] r@[t] as int] != key,
        decreases r@.len() - j,
    {
        let e = keys[r[j]];
        if e.0 == key.0 && e.1 == key.1 && e.2 == key.2 {
            return Some(j);
        }
        j = j + 1;
    }
    None
}

/// The positions of the first occurrence of each key in `keys`, in order.
pub fn first_of_each_key(keys: &Vec<GridKey>) -> (r: Vec<usize>)
    ensures
        forall|j: int| 0 <= j < r@.len() ==> #[trigger] r@[j] < keys@.len(),
        forall|i: int, j: int| 0 <= i < j < r@.len() ==> r@[i] < r@[j],
        forall|j: int| 0 <= j < r@.len() ==> first_occurrence(keys@, #[trigger] r@[j] as int),
        forall|q: int| 0 <= q < keys@.len() ==> #[trigger] represented(keys@, r@, q),
{
    let mut r: Vec<usize> = Vec::new();
    let mut i: usize = 0;
    while i < keys.len()
        invariant
            i <= keys@.len(),
            forall|j: int| 0 <= j < r@.len() ==> #[trigger] r@[j] < i,
            forall|a: int, b: int| 0 <= a < b < r@.len() ==> r@[a] < r@[b],
            forall|j: int| 0 <= j < r@.len() ==> first_occurrence(keys@, #[trigger] r@[j] as int),
            forall|q: int| 0 <= q < i ==> #[trigger] represented(keys@, r@, q),
        decreases keys@.len() - i,
    {
        let k = keys[i];
        let ghost r0 = r@;
        match find_position(keys, &r, k) {
            Some(j) => {
                proof {
                    assert(keys@[r@[j as int] as int] == keys@[i as int]);
                    assert(represented(keys@, r@, i as int));
                }
            },
            None => {
                r.push(i);
                proof {
                    assert(first_occurrence(keys@, i as int)) by {
                        assert forall|q: int| 0 <= q < i implies keys@[q] != keys@[i as int] by {
                            assert(represented(keys@, r0, q));
                            let j = choose|j: int| 0 <= j < r0.len() && keys@[#[trigger] r0[j] as int] == keys@[q];
                        }
                    }
                    assert forall|q: int| 0 <= q < i + 1 implies #[trigger] represented(keys@, r@, q) by {
                        if q < i {
                            assert(represented(keys@, r0, q));
                            let j = choose|j: int| 0 <= j < r0.len() && keys@[#[trigger] r0[j] as int] == keys@[q];
                            assert(r@[j] == r0[j]);
                        } else {
                            assert(r@[r0.len() as int] == i);
                        }
                    }
                    assert forall|j: int| 0 <= j < r@.len() implies first_occurrence(keys@, #[trigger] r@[j] as int) by {
                        if j < r0.len() {
                            assert(r@[j] == r0[j]);
                        }
                    }
                }
            },
        }
        i = i + 1;
    }
    r
}

proof fn lemma_keys_used_short<V>(polys: Seq<Vec<(GridKey, V)>>, i: int, j: int)
    requires
        j == i + 1,
        0 <= i < polys.len(),
        polys[i]@.len() < 3,
    ensures
        forall|k: GridKey| #[trigger] keys_used(polys, j).contains(k) == keys_used(polys, i).contains(k),
{
    assert forall|k: GridKey| #[trigger] keys_used(polys, j).contains(k) == keys_used(polys, i).contains(k) by {
        if keys_used(polys, j).contains(k) {
            let (i2, c2) = choose|i2: int, c2: int|
                0 <= i2 < j && polys[i2]@.len() >= 3 && 0 <= c2 < polys[i2]@.len() && #[trigger] polys[i2]@[c2].0 == k;
            assert(i2 < i);
        }
        if keys_used(polys, i).contains(k) {
            let (i2, c2) = choose|i2: int, c2: int|
                0 <= i2 < i && polys[i2]@.len() >= 3 && 0 <= c2 < polys[i2]@.len() && #[trigger] polys[i2]@[c2].0 == k;
            assert(polys[i2]@[c2].0 == k);
        }
    }
}

/// The state of a merge after the first `i` polygons: the vertices are
/// the keys seen so far, in order of first use, each holding its first
/// corner's payload; the faces are the triangles of the polygons that were
/// triangulated, under the automatic keys, with their halfedges.
pub open spec fn merge_state<V>(m: Mesh<V>, known: Seq<(GridKey, usize)>, polygons: Seq<Vec<(GridKey, V)>>, i: int) -> bool {
    &&& m.wf()
    &&& known.len() <= corner_total(polygons, i)
    &&& m.vertex_counter() == 2 * known.len()
    &&& m.vertices().len() == known.len()
    &&& forall|a: int| 0 <= a < known.len() ==> #[trigger] known[a].1 == auto_key(a)
    &&& forall|a: int| 0 <= a < known.len() ==> m.vertices().contains_key(#[trigger] auto_key(a))
    &&& forall|a: int| 0 <= a < known.len() ==> first_corner(polygons, #[trigger] known[a].0, m.vertices()[auto_key(a)])
    &&& forall|a: int, b: int| 0 <= a < b < known.len() ==> known[a].0 != known[b].0
    &&& forall|k: GridKey| keys_used(polygons, i).contains(k) <==> exists|a: int| 0 <= a < known.len() && #[trigger] known[a].0 == k
    &&& m.faces().len() == faces_made(polygons, i)
    &&& m.face_counter() == 2 * faces_made(polygons, i)
    &&& m.halfedges() == sides_of(m.auto_faces())
    &&& faces_from_polygons(m.faces(), polygons, keys_of(known))
    &&& forall|q: int| 0 <= q < m.faces().len() ==> m.faces().contains_key(#[trigger] auto_key(q))
}

proof fn lemma_merge_start<V>(m: Mesh<V>, polygons: Seq<Vec<(GridKey, V)>>)
    requires
        m.wf(),
        m.vertices().is_empty(),
        m.faces().is_empty(),
        m.halfedges().is_empty(),
        m.vertex_counter() == 0,
        m.face_counter() == 0,
    ensures
        merge_state(m, Seq::empty(), polygons, 0),
{
    assert(m.auto_faces() =~= Seq::empty());
    assert(m.halfedges() =~= sides_of(Seq::empty()));
    assert forall|k: GridKey| !keys_used(polygons, 0).contains(k) by {}
}

proof fn lemma_merge_result<V>(m: Mesh<V>, known: Seq<(GridKey, usize)>, polygons: Seq<Vec<(GridKey, V)>>)
    requires
        merge_state(m, known, polygons, polygons.len() as int),
    ensures
        m.wf(),
        m.vertices().len() == keys_used(polygons, polygons.len() as int).len(),
        m.faces().len() == faces_made(polygons, polygons.len() as int),
        m.halfedges() == sides_of(m.auto_faces()),
        merged_by(polygons, keys_of(known), m),
{
    let ks = keys_of(known);
    assert(ks.no_duplicates());
    assert forall|k: GridKey| keys_used(polygons, polygons.len() as int).contains(k) <==> ks.contains(k) by {
        if ks.contains(k) {
            let a = choose|a: int| 0 <= a < ks.len() && ks[a] == k;
            assert(known[a].0 == k);
        }
        if keys_used(polygons, polygons.len() as int).contains(k) {
            let a = choose|a: int| 0 <= a < known.len() && #[trigger] known[a].0 == k;
            assert(ks[a] == k);
        }
    }
    assert(ks.to_set() =~= keys_used(polygons, polygons.len() as int)) by {
        assert forall|k: GridKey| ks.to_set().contains(k) <==> keys_used(polygons, polygons.len() as int).contains(k) by {}
    }
    ks.unique_seq_to_set();
    assert forall|a: int| 0 <= a < ks.len() implies {
        &&& m.vertices().contains_key(#[trigger] auto_key(a))
        &&& first_corner(polygons, ks[a], m.vertices()[auto_key(a)])
    } by {
        assert(ks[a] == known[a].0);
    }
    assert(merged_by(polygons, ks, m));
}

impl<V: Copy> Mesh<V> {
    /// A mesh of the polygons `polygons`, each a list of corners with their
    /// merge key. Polygons with fewer than three corners are skipped. Each
    /// new key adds a vertex holding that corner's payload; a key seen before
    /// reuses its vertex. A polygon none of whose corners share a key is then
    /// triangulated with the geometry `G` and its `m - 2` triangles are added
    /// as faces, in order.
    #[verifier::rlimit(100)]
    #[verifier::spinoff_prover]
    pub fn from_keyed_polygons<G: PolygonGeometry<V>>(polygons: &Vec<Vec<(GridKey, V)>>) -> (r: Mesh<V>)
        requires
            polygons@.len() <= usize::MAX / 4,
            corner_total(polygons@, polygons@.len() as int) <= usize::MAX / 4,
        ensures
            r.wf(),
            r.vertices().len() == keys_used(polygons@, polygons@.len() as int).len(),
            r.faces().len() == faces_made(polygons@, polygons@.len() as int),
            r.halfedges() == sides_of(r.auto_faces()),
            exists|ks: Seq<GridKey>| merged_by(polygons@, ks, r),
    {
        let n = polygons.len();
        let mut m: Mesh<V> = Mesh::new();
        let mut known: Vec<(GridKey, usize)> = Vec::new();
        let mut i: usize = 0;
        proof {
            lemma_merge_start(m, polygons@);
        }
        while i < n
            invariant
                n == polygons@.len(),
                n <= usize::MAX / 4,
                corner_total(polygons@, n as int) <= usize::MAX / 4,
                i <= n,
                merge_state(m, known@, polygons@, i as int),
            decreases n - i,
        {
            proof {
                lemma_corner_total_monotone(polygons@, i + 1, n as int);
            }
            m.merge_polygon::<G>(&mut known, polygons, i);
            i = i + 1;
        }
        proof {
            lemma_merge_result(m, known@, polygons@);
        }
        m
    }

    /// Merge polygon `i`: add its new keys as vertices, then, when its corner
    /// keys are pairwise distinct, its triangles as faces.
    #[verifier::rlimit(100)]
    #[verifier::spinoff_prover]
    fn merge_polygon<G: PolygonGeometry<V>>(&mut self, known: &mut Vec<(GridKey, usize)>, polygons: &Vec<Vec<(GridKey, V)>>, i: usize)
        requires
            i < polygons@.len(),
            polygons@.len() <= usize::MAX / 4,
            corner_total(polygons@, i + 1) <= usize::MAX / 4,
            merge_state(*old(self), old(known)@, polygons@, i as int),
        ensures
            merge_state(*final(self), final(known)@, polygons@, i + 1),
    {
        let n = polygons.len();
        let poly = &polygons[i];
        let len = poly.len();
        proof {
            lemma_faces_made_bound(polygons@, i + 1);
        }
        if len >= 3 {
            self.merge_long_polygon::<G>(known, polygons, i);
        } else {
            proof {
                lemma_keys_used_short(polygons@, i as int, i + 1);
                assert(faces_made(polygons@, i + 1) == faces_made(polygons@, i as int));
                assert(corner_total(polygons@, i + 1) == corner_total(polygons@, i as int) + len);
            }
        }
    }

    /// Merge polygon `i`, which has at least three corners.
    #[verifier::rlimit(100)]
    #[verifier::spinoff_prover]
    fn merge_long_polygon<G: PolygonGeometry<V>>(&mut self, known: &mut Vec<(GridKey, usize)>, polygons: &Vec<Vec<(GridKey, V)>>, i: usize)
        requires
            i < polygons@.len(),
            polygons@.len() <= usize::MAX / 4,
            corner_total(polygons@, i + 1) <= usize::MAX / 4,
            polygons@[i as int]@.len() >= 3,
            merge_state(*old(self), old(known)@, polygons@, i as int),
        ensures
            merge_state(*final(self), final(known)@, polygons@, i + 1),
    {
        let n = polygons.len();
        let len = polygons[i].len();
        proof {
            lemma_faces_made_bound(polygons@, i + 1);
        }
            let ghost k0 = known@;
        proof {
            assert(corner_total(polygons@, i + 1) == corner_total(polygons@, i as int) + len);
        }
        let (vkeys, slots_g) = self.gather_corners(known, polygons, i);
        let ghost slots = slots_g@;
        let ghost ks = keys_of(known@);
        proof {
            assert(known@.len() <= usize::MAX / 4) by {
                lemma_corner_total_monotone(polygons@, i + 1, n as int);
            }
            lemma_distinct_iff(vkeys@, polygons@[i as int]@, slots, known@);
            assert forall|q: int| 0 <= q < vkeys@.len() implies self.vertices().dom().contains(#[trigger] vkeys@[q]) by {
                assert(self.vertices().contains_key(auto_key(slots[q])));
            }
            lemma_keys_used_step(polygons@, i as int, k0, known@, slots, i + 1);
            assert forall|x: int| 0 <= x < keys_of(k0).len() implies ks[x] == keys_of(k0)[x] by {
                assert(known@[x] == k0[x]);
            }
            lemma_faces_extend(self.faces(), polygons@, keys_of(k0), ks);
        }
        if no_repeats(&vkeys) {
            proof {
                assert(self.all_vertices(vkeys@));
            }
            let tris = self.triangulate_face_vertices::<G>(&vkeys);
            proof {
                if len == 3 {
                    assert(corner_triangle(vkeys@, tris@[0])) by {
                        assert(tris@[0] == [vkeys@[0], vkeys@[1], vkeys@[2]]);
                        let s = vkeys@;
                        assert(tris@[0] == [s[0], s[1], s[2]]);
                    }
                    assert forall|t: int| 0 <= t < tris@.len() implies corner_triangle(vkeys@, #[trigger] tris@[t]) by {}
                }
                assert forall|q: int| 0 <= q < vkeys@.len() implies #[trigger] vertex_of_key(ks, polygons@[i as int]@[q].0, vkeys@[q]) by {
                    assert(ks[slots[q]] == known@[slots[q]].0);
                    assert(vkeys@[q] == auto_key(slots[q]));
                }
                assert(faces_made(polygons@, i + 1) == faces_made(polygons@, i as int) + len - 2);
            }
            let ghost fbefore = self.faces();
            self.add_polygon_triangles(&tris, Ghost(vkeys@), Ghost(polygons@), Ghost(i as int), Ghost(ks));
            proof {
                lemma_faces_after_add(fbefore, self.faces(), polygons@, ks, i as int);
            }
        } else {
            proof {
                assert(faces_made(polygons@, i + 1) == faces_made(polygons@, i as int));
            }
        }
    }

    /// Add a vertex for each corner of polygon `i` whose key is new, and
    /// return the vertex key of every corner.
    #[verifier::rlimit(60)]
    fn gather_corners(
        &mut self,
        known: &mut Vec<(GridKey, usize)>,
        polygons: &Vec<Vec<(GridKey, V)>>,
        i: usize,
    ) -> (r: (Vec<usize>, Ghost<Seq<int>>))
        requires
            i < polygons@.len(),
            polygons@.len() <= usize::MAX / 4,
            polygons@[i as int]@.len() >= 3,
            corner_total(polygons@, i + 1) <= usize::MAX / 4,
            corner_total(polygons@, i + 1) == corner_total(polygons@, i as int) + polygons@[i as int]@.len(),
            old(known)@.len() <= corner_total(polygons@, i as int),
            forall|k: GridKey|
                keys_used(polygons@, i as int).contains(k) <==> exists|a: int|
                    0 <= a < old(known)@.len() && #[trigger] old(known)@[a].0 == k,
            old(self).wf(),
            old(self).vertex_counter() == 2 * old(known)@.len(),
            old(self).vertices().len() == old(known)@.len(),
            forall|a: int| 0 <= a < old(known)@.len() ==> #[trigger] old(known)@[a].1 == auto_key(a),
            forall|a: int| 0 <= a < old(known)@.len() ==> old(self).vertices().contains_key(#[trigger] auto_key(a)),
            forall|a: int|
                0 <= a < old(known)@.len() ==> first_corner(polygons@, #[trigger] old(known)@[a].0, old(self).vertices()[auto_key(a)]),
            forall|a: int, b: int| 0 <= a < b < old(known)@.len() ==> old(known)@[a].0 != old(known)@[b].0,
        ensures
            final(self).wf(),
            final(self).faces() == old(self).faces(),
            final(self).halfedges() == old(self).halfedges(),
            final(self).face_counter() == old(self).face_counter(),
            final(self).vertex_counter() == 2 * final(known)@.len(),
            final(self).vertices().len() == final(known)@.len(),
            final(known)@.len() <= corner_total(polygons@, i + 1),
            old(known)@.len() <= final(known)@.len(),
            forall|a: int| 0 <= a < old(known)@.len() ==> #[trigger] final(known)@[a] == old(known)@[a],
            forall|a: int| 0 <= a < final(known)@.len() ==> #[trigger] final(known)@[a].1 == auto_key(a),
            forall|a: int| 0 <= a < final(known)@.len() ==> final(self).vertices().contains_key(#[trigger] auto_key(a)),
            forall|a: int|
                0 <= a < final(known)@.len() ==> first_corner(polygons@, #[trigger] final(known)@[a].0, final(self).vertices()[auto_key(a)]),
            forall|a: int, b: int| 0 <= a < b < final(known)@.len() ==> final(known)@[a].0 != final(known)@[b].0,
            forall|a: int|
                old(known)@.len() <= a < final(known)@.len() ==> #[trigger] key_in_polygon(polygons@[i as int]@, final(known)@[a].0),
            r.0@.len() == polygons@[i as int]@.len(),
            r.1@.len() == polygons@[i as int]@.len(),
            forall|q: int|
                0 <= q < r.1@.len() ==> 0 <= #[trigger] r.1@[q] < final(known)@.len() && final(known)@[r.1@[q]].0
                    == polygons@[i as int]@[q].0 && r.0@[q] == auto_key(r.1@[q]),
    {
        let poly = &polygons[i];
        let len = poly.len();
        let n = polygons.len();
        let ghost k0 = known@;
        let ghost verts0 = self.vertices();
        let mut vkeys: Vec<usize> = Vec::new();
        let ghost mut slots: Seq<int> = Seq::empty();
        let mut c: usize = 0;
        while c < len
            invariant
                poly@ == polygons@[i as int]@,
                len == poly@.len(),
                len >= 3,
                i < n,
                n == polygons@.len(),
                n <= usize::MAX / 4,
                c <= len,
                corner_total(polygons@, i + 1) <= usize::MAX / 4,
                corner_total(polygons@, i + 1) == corner_total(polygons@, i as int) + len,
                k0.len() <= corner_total(polygons@, i as int),
                known@.len() <= k0.len() + c,
                k0.len() <= known@.len(),
                forall|a: int| 0 <= a < k0.len() ==> #[trigger] known@[a] == k0[a],
                forall|k: GridKey|
                    keys_used(polygons@, i as int).contains(k) <==> exists|a: int|
                        0 <= a < k0.len() && #[trigger] k0[a].0 == k,
                self.wf(),
                self.faces() == old(self).faces(),
                self.halfedges() == old(self).halfedges(),
                self.face_counter() == old(self).face_counter(),
                self.vertex_counter() == 2 * known@.len(),
                self.vertices().len() == known@.len(),
                forall|a: int| 0 <= a < known@.len() ==> #[trigger] known@[a].1 == auto_key(a),
                forall|a: int| 0 <= a < known@.len() ==> self.vertices().contains_key(#[trigger] auto_key(a)),
                forall|a: int|
                    0 <= a < known@.len() ==> first_corner(polygons@, #[trigger] known@[a].0, self.vertices()[auto_key(a)]),
                forall|a: int, b: int| 0 <= a < b < known@.len() ==> known@[a].0 != known@[b].0,
                forall|a: int|
                    k0.len() <= a < known@.len() ==> exists|q: int| 0 <= q < c && #[trigger] known@[a].0 == poly@[q].0,
                vkeys@.len() == c,
                slots.len() == c,
                forall|q: int|
                    0 <= q < c ==> 0 <= #[trigger] slots[q] < known@.len() && known@[slots[q]].0 == poly@[q].0
                        && vkeys@[q] == auto_key(slots[q]),
            decreases len - c,
        {
            let key = poly[c].0;
            match find_key(known, key) {
                Some(slot) => {
                    vkeys.push(known[slot].1);
                    proof {
                        slots = slots.push(slot as int);
                    }
                },
                None => {
                    let ghost vb = self.vertices();
                    let vk = self.add_vertex(poly[c].1, None);
                    let ghost kb = known@;
                    known.push((key, vk));
                    vkeys.push(vk);
                    proof {
                        slots = slots.push(kb.len() as int);
                        assert forall|a: int| 0 <= a < known@.len() implies self.vertices().contains_key(#[trigger] auto_key(a)) by {
                            if a < kb.len() {
                                assert(known@[a] == kb[a]);
                            }
                        }
                        assert forall|a: int|
                            0 <= a < known@.len() implies first_corner(polygons@, #[trigger] known@[a].0, self.vertices()[auto_key(a)]) by {
                            if a < kb.len() {
                                assert(known@[a] == kb[a]);
                                assert(vb.contains_key(auto_key(a)));
                                assert(self.vertices()[auto_key(a)] == vb[auto_key(a)]);
                            } else {
                                let ii = i as int;
                                let cc = c as int;
                                assert(kept_corner(polygons@, ii, cc));
                                assert forall|i2: int, c2: int|
                                    #[trigger] kept_corner(polygons@, i2, c2) && (i2 < ii || (i2 == ii && c2 < cc))
                                    implies polygons@[i2]@[c2].0 != key by {
                                    if i2 < ii {
                                        let k3 = polygons@[i2]@[c2].0;
                                        assert(keys_used(polygons@, ii).contains(k3));
                                        if k3 == key {
                                            let a3 = choose|a3: int| 0 <= a3 < k0.len() && #[trigger] k0[a3].0 == k3;
                                            assert(kb[a3] == k0[a3]);
                                        }
                                    } else {
                                        assert(kb[slots[c2]].0 == poly@[c2].0);
                                    }
                                }
                            }
                        }
                        assert forall|a: int|
                            k0.len() <= a < known@.len() implies exists|q: int| 0 <= q < c + 1 && #[trigger] known@[a].0 == poly@[q].0 by {
                            if a < kb.len() {
                                assert(known@[a] == kb[a]);
                                let q = choose|q: int| 0 <= q < c && #[trigger] kb[a].0 == poly@[q].0;
                            } else {
                                assert(known@[a].0 == poly@[c as int].0);
                            }
                        }
                    }
                },
            }
            c = c + 1;
        }
        proof {
            assert(k0 == old(known)@);
            assert(poly@ == polygons@[i as int]@);
            assert forall|a: int| old(known)@.len() <= a < known@.len() implies #[trigger] key_in_polygon(polygons@[i as int]@, known@[a].0) by {
                let q = choose|q: int| 0 <= q < len && #[trigger] known@[a].0 == poly@[q].0;
                assert(polygons@[i as int]@[q].0 == poly@[q].0);
            }
        }
        (vkeys, Ghost(slots))
    }

    /// Add the triangles `tris` of a polygon with distinct vertex keys `vkeys`
    /// as faces, in order and with automatic keys.
    #[verifier::rlimit(100)]
    fn add_polygon_triangles(
        &mut self,
        tris: &Vec<[usize; 3]>,
        vkeys: Ghost<Seq<usize>>,
        polys: Ghost<Seq<Vec<(GridKey, V)>>>,
        i: Ghost<int>,
        ks: Ghost<Seq<GridKey>>,
    )
        requires
            old(self).wf(),
            0 <= i@ < polys@.len(),
            polys@[i@]@.len() >= 3,
            distinct_keys(polys@[i@]@),
            vkeys@.len() == polys@[i@]@.len(),
            vkeys@.no_duplicates(),
            forall|q: int| 0 <= q < vkeys@.len() ==> old(self).vertices().contains_key(#[trigger] vkeys@[q]),
            forall|q: int| 0 <= q < vkeys@.len() ==> #[trigger] vertex_of_key(ks@, polys@[i@]@[q].0, vkeys@[q]),
            tris@.len() + 2 == vkeys@.len(),
            forall|t: int| 0 <= t < tris@.len() ==> corner_triangle(vkeys@, #[trigger] tris@[t]),
            old(self).face_counter() == 2 * old(self).faces().len(),
            old(self).faces().len() + tris@.len() <= usize::MAX / 4,
            old(self).halfedges() == sides_of(old(self).auto_faces()),
            forall|q: int| 0 <= q < old(self).faces().len() ==> old(self).faces().contains_key(#[trigger] auto_key(q)),
        ensures
            final(self).wf(),
            final(self).vertices() == old(self).vertices(),
            final(self).vertex_counter() == old(self).vertex_counter(),
            final(self).faces().len() == old(self).faces().len() + tris@.len(),
            final(self).face_counter() == 2 * final(self).faces().len(),
            final(self).halfedges() == sides_of(final(self).auto_faces()),
            forall|q: int|
                0 <= q < final(self).faces().len() ==> {
                    &&& final(self).faces().contains_key(#[trigger] auto_key(q))
                    &&& q < old(self).faces().len() ==> final(self).faces()[auto_key(q)] == old(self).faces()[auto_key(q)]
                    &&& q >= old(self).faces().len() ==> triangle_of_polygon(polys@[i@]@, ks@, final(self).faces()[auto_key(q)])
                },
    {
        let mut t: usize = 0;
        while t < tris.len()
            invariant
                t <= tris@.len(),
                0 <= i@ < polys@.len(),
                vkeys@.len() == polys@[i@]@.len(),
                vkeys@.no_duplicates(),
                forall|q: int| 0 <= q < vkeys@.len() ==> old(self).vertices().contains_key(#[trigger] vkeys@[q]),
                forall|q: int| 0 <= q < vkeys@.len() ==> #[trigger] vertex_of_key(ks@, polys@[i@]@[q].0, vkeys@[q]),
                forall|u: int| 0 <= u < tris@.len() ==> corner_triangle(vkeys@, #[trigger] tris@[u]),
                self.wf(),
                self.vertices() == old(self).vertices(),
                self.vertex_counter() == old(self).vertex_counter(),
                self.faces().len() == old(self).faces().len() + t,
                self.face_counter() == 2 * self.faces().len(),
                self.halfedges() == sides_of(self.auto_faces()),
                old(self).faces().len() + tris@.len() <= usize::MAX / 4,
                forall|q: int|
                    0 <= q < self.faces().len() ==> {
                        &&& self.faces().contains_key(#[trigger] auto_key(q))
                        &&& q < old(self).faces().len() ==> self.faces()[auto_key(q)] == old(self).faces()[auto_key(q)]
                        &&& q >= old(self).faces().len() ==> triangle_of_polygon(polys@[i@]@, ks@, self.faces()[auto_key(q)])
                    },
            decreases tris@.len() - t,
        {
            let tr = tris[t];
            let face = vec![tr[0], tr[1], tr[2]];
            let ghost fv = face@;
            let ghost prev = *self;
            let ghost fcount = self.faces().len() as int;
            proof {
                assert(corner_triangle(vkeys@, tr));
                assert(fv =~= seq![tr[0], tr[1], tr[2]]);
                lemma_triangle_face(vkeys@, tr, polys@[i@]@, ks@, self.vertices().dom());
            }
            let added = self.add_face(face, None);
            proof {
                let fk = added.unwrap();
                assert(fk == auto_key(fcount));
                lemma_auto_faces_push(prev, *self, fv);
                assert(prev.auto_faces().push(fv).drop_last() =~= prev.auto_faces());
                assert forall|q: int| 0 <= q < self.faces().len() implies {
                    &&& self.faces().contains_key(#[trigger] auto_key(q))
                    &&& q < old(self).faces().len() ==> self.faces()[auto_key(q)] == old(self).faces()[auto_key(q)]
                    &&& q >= old(self).faces().len() ==> triangle_of_polygon(polys@[i@]@, ks@, self.faces()[auto_key(q)])
                } by {
                    if q < fcount {
                        assert(prev.faces().contains_key(auto_key(q)));
                        assert(auto_key(q) != auto_key(fcount));
                    }
                }
            }
            t = t + 1;
        }
    }
}

} // verus!
