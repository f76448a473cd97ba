//! The connectivity of an icosphere: the twenty faces of the icosahedron and
//! their recursive subdivision, each triangle split into four through the
//! midpoints of its sides, one midpoint per side shared by both triangles on
//! it. Point positions are computed by the caller: point `base + j` of a pass
//! is the midpoint of the `j`-th pair that the pass returns.

use std::collections::HashMap;
use vstd::prelude::*;

use crate::triangulation::corner_triple;

verus! {

broadcast use vstd::std_specs::hash::group_hash_axioms;

/// The pair `{a, b}` written as `(smaller, larger)`.
pub open spec fn unordered_pair(a: usize, b: usize) -> (usize, usize) {
    if a < b { (a, b) } else { (b, a) }
}

/// `4` to the power `n`.
pub open spec fn pow4(n: nat) -> nat
    decreases n,
{
    if n == 0 { 1 } else { 4 * pow4((n - 1) as nat) }
}

/// The twenty faces of the icosahedron over its twelve corners.
pub open spec fn icosahedron() -> Seq<[usize; 3]> {
    seq![
        [0, 11, 5], [0, 5, 1], [0, 1, 7], [0, 7, 10], [0, 10, 11],
        [1, 5, 9], [5, 11, 4], [11, 10, 2], [10, 7, 6], [7, 1, 8],
        [3, 9, 4], [3, 4, 2], [3, 2, 6], [3, 6, 8], [3, 8, 9],
        [4, 9, 5], [2, 4, 11], [6, 2, 10], [8, 6, 7], [9, 8, 1],
    ]
}

/// The twenty faces of the icosahedron over its twelve corners, the
/// corners `(±1, ±t, 0)`, `(0, ±1, ±t)`, `(±t, 0, ±1)` taken in the order
/// `(-1, t, 0)`, `(1, t, 0)`, `(-1, -t, 0)`, `(1, -t, 0)`, `(0, -1, t)`,
/// `(0, 1, t)`, `(0, -1, -t)`, `(0, 1, -t)`, `(t, 0, -1)`, `(t, 0, 1)`,
/// `(-t, 0, -1)`, `(-t, 0, 1)`.
pub fn icosahedron_faces() -> (r: Vec<[usize; 3]>)
    ensures
        r@ == icosahedron(),
        r@.len() == 20,
        forall|t: int| 0 <= t < 20 ==> corner_triple(#[trigger] r@[t], 12),
{
    let r: Vec<[usize; 3]> = vec![
        [0, 11, 5], [0, 5, 1], [0, 1, 7], [0, 7, 10], [0, 10, 11],
        [1, 5, 9], [5, 11, 4], [11, 10, 2], [10, 7, 6], [7, 1, 8],
        [3, 9, 4], [3, 4, 2], [3, 2, 6], [3, 6, 8], [3, 8, 9],
        [4, 9, 5], [2, 4, 11], [6, 2, 10], [8, 6, 7], [9, 8, 1],
    ];
    assert(r@ =~= icosahedron());
    r
}

spec fn cached(c: Map<usize, HashMap<usize, usize>>, p: (usize, usize)) -> bool {
    c.contains_key(p.0) && c[p.0]@.contains_key(p.1)
}

/// The midpoint cache of a pass maps each pair of `pairs` to its point,
/// `base` plus its position, and nothing else.
spec fn cache_ok(c: Map<usize, HashMap<usize, usize>>, pairs: Seq<(usize, usize)>, base: nat) -> bool {
    &&& forall|j: int|
        0 <= j < pairs.len() ==> cached(c, #[trigger] pairs[j]) && c[pairs[j].0]@[pairs[j].1] == base + j
    &&& forall|lo: usize, hi: usize|
        #[trigger] cached(c, (lo, hi)) ==> {
            let v = c[lo]@[hi];
            &&& base <= v < base + pairs.len()
            &&& pairs[v - base] == (lo, hi)
        }
}

/// The point on the side `{a, b}`: found in the cache, or a new point
/// `base + pairs.len()` recorded for the pair.
fn midpoint(
    a: usize,
    b: usize,
    base: usize,
    pairs: &mut Vec<(usize, usize)>,
    cache: &mut HashMap<usize, HashMap<usize, usize>>,
) -> (r: usize)
    requires
        cache_ok(old(cache)@, old(pairs)@, base as nat),
        base + old(pairs)@.len() < usize::MAX,
    ensures
        cache_ok(final(cache)@, final(pairs)@, base as nat),
        final(pairs)@ == old(pairs)@ || final(pairs)@ == old(pairs)@.push(unordered_pair(a, b)),
        base <= r < base + final(pairs)@.len(),
        final(pairs)@[r - base] == unordered_pair(a, b),
{
    let (lo, hi) = if a < b { (a, b) } else { (b, a) };
    let found: Option<usize> = match cache.get(&lo) {
        Some(row) => match row.get(&hi) {
            Some(v) => Some(*v),
            None => None,
        },
        None => None,
    };
    match found {
        Some(v) => {
            proof {
                assert(cached(cache@, (lo, hi)));
            }
            v
        },
        None => {
            let idx = base + pairs.len();
            let ghost c0 = cache@;
            let ghost pairs0 = pairs@;
            pairs.push((lo, hi));
            let mut row: HashMap<usize, usize> = match cache.remove(&lo) {
                Some(row) => row,
                None => HashMap::new(),
            };
            row.insert(hi, idx);
            cache.insert(lo, row);
            proof {
                assert(!cached(c0, (lo, hi)));
                assert forall|j: int|
                    0 <= j < pairs@.len() implies cached(cache@, #[trigger] pairs@[j]) && cache@[pairs@[j].0]@[pairs@[j].1] == base + j by {
                    if j < pairs0.len() {
                        assert(cached(c0, pairs0[j]));
                        assert(pairs0[j] != (lo, hi));
                    }
                }
                assert forall|x: usize, y: usize| #[trigger] cached(cache@, (x, y)) implies {
                    let v = cache@[x]@[y];
                    &&& base <= v < base + pairs@.len()
                    &&& pairs@[v - base] == (x, y)
                } by {
                    if (x, y) != (lo, hi) {
                        assert(cached(c0, (x, y)));
                    }
                }
            }
            idx
        },
    }
}

/// Triangle `f`, the `t`-th of a pass, was split in `out` through the points
/// of `pairs` numbered from `base`.
pub open spec fn split_at(f: [usize; 3], out: Seq<[usize; 3]>, pairs: Seq<(usize, usize)>, t: int, base: int) -> bool {
    let m = out[4 * t + 3];
    &&& base <= m[0] < base + pairs.len()
    &&& base <= m[1] < base + pairs.len()
    &&& base <= m[2] < base + pairs.len()
    &&& pairs[m[0] - base] == unordered_pair(f[0], f[1])
    &&& pairs[m[1] - base] == unordered_pair(f[1], f[2])
    &&& pairs[m[2] - base] == unordered_pair(f[2], f[0])
    &&& out[4 * t] == [f[0], m[0], m[2]]
    &&& out[4 * t + 1] == [f[1], m[1], m[0]]
    &&& out[4 * t + 2] == [f[2], m[2], m[1]]
}

proof fn lemma_split_kept(
    f: [usize; 3],
    out: Seq<[usize; 3]>,
    pairs: Seq<(usize, usize)>,
    out2: Seq<[usize; 3]>,
    pairs2: Seq<(usize, usize)>,
    t: int,
    base: int,
)
    requires
        split_at(f, out, pairs, t, base),
        0 <= t,
        4 * t + 3 < out.len(),
        out.len() <= out2.len(),
        pairs.len() <= pairs2.len(),
        forall|q: int| 0 <= q < out.len() ==> #[trigger] out2[q] == out[q],
        forall|q: int| 0 <= q < pairs.len() ==> #[trigger] pairs2[q] == pairs[q],
    ensures
        split_at(f, out2, pairs2, t, base),
{
    let m = out[4 * t + 3];
    assert(out2[4 * t + 3] == m);
    assert(out2[4 * t] == out[4 * t]);
    assert(out2[4 * t + 1] == out[4 * t + 1]);
    assert(out2[4 * t + 2] == out[4 * t + 2]);
    assert(pairs2[m[0] - base] == pairs[m[0] - base]);
    assert(pairs2[m[1] - base] == pairs[m[1] - base]);
    assert(pairs2[m[2] - base] == pairs[m[2] - base]);
}

/// One subdivision pass over triangles on points `0..base`: each triangle
/// `(i, j, k)` becomes `(i, a, c)`, `(j, b, a)`, `(k, c, b)`, `(a, b, c)`,
/// where `a`, `b`, `c` are the points on its sides `{i, j}`, `{j, k}`,
/// `{k, i}`. The new points are `base + q` for the `q`-th returned pair,
/// each side getting one point however many triangles share it.
pub fn subdivide(faces: &Vec<[usize; 3]>, base: usize) -> (r: (Vec<[usize; 3]>, Vec<(usize, usize)>))
    requires
        forall|t: int| 0 <= t < faces@.len() ==> corner_triple(#[trigger] faces@[t], base as int),
        base + 4 * faces@.len() < usize::MAX,
    ensures
        r.0@.len() == 4 * faces@.len(),
        r.1@.len() <= 3 * faces@.len(),
        r.1@.no_duplicates(),
        forall|q: int| 0 <= q < r.1@.len() ==> (#[trigger] r.1@[q]).0 < r.1@[q].1 < base,
        forall|t: int| 0 <= t < r.0@.len() ==> corner_triple(#[trigger] r.0@[t], base + r.1@.len()),
        forall|t: int|
            0 <= t < faces@.len() ==> split_at(#[trigger] faces@[t], r.0@, r.1@, t, base as int),
{
    let mut out: Vec<[usize; 3]> = Vec::new();
    let mut pairs: Vec<(usize, usize)> = Vec::new();
    let mut cache: HashMap<usize, HashMap<usize, usize>> = HashMap::new();
    let n = faces.len();
    let mut t: usize = 0;
    proof {
        assert(cache_ok(cache@, pairs@, base as nat));
    }
    while t < n
        invariant
            n == faces@.len(),
            t <= n,
            forall|s: int| 0 <= s < n ==> corner_triple(#[trigger] faces@[s], base as int),
            base + 4 * n < usize::MAX,
            cache_ok(cache@, pairs@, base as nat),
            out@.len() == 4 * t,
            pairs@.len() <= 3 * t,
            forall|q: int| 0 <= q < pairs@.len() ==> (#[trigger] pairs@[q]).0 < pairs@[q].1 < base,
            forall|s: int| 0 <= s < out@.len() ==> corner_triple(#[trigger] out@[s], base + pairs@.len()),
            forall|s: int|
                0 <= s < t ==> split_at(#[trigger] faces@[s], out@, pairs@, s, base as int),
        decreases n - t,
    {
        let f = faces[t];
        let ghost pairs0 = pairs@;
        let ghost o0 = out@;
        proof {
            assert(corner_triple(faces@[t as int], base as int));
        }
        let a = midpoint(f[0], f[1], base, &mut pairs, &mut cache);
        let ghost pairs1 = pairs@;
        let b = midpoint(f[1], f[2], base, &mut pairs, &mut cache);
        let ghost pairs2 = pairs@;
        let c = midpoint(f[2], f[0], base, &mut pairs, &mut cache);
        let ghost pairs3 = pairs@;
        proof {
            assert forall|q: int| 0 <= q < pairs0.len() implies #[trigger] pairs3[q] == pairs0[q] by {
                assert(pairs1[q] == pairs0[q]);
                assert(pairs2[q] == pairs1[q]);
            }
            assert(pairs3[a - base] == pairs1[a - base]);
            assert(pairs3[b - base] == pairs2[b - base]);
            assert forall|q: int| 0 <= q < pairs@.len() implies (#[trigger] pairs@[q]).0 < pairs@[q].1 < base by {
                if q < pairs0.len() {
                    assert(pairs@[q] == pairs0[q]);
                }
            }
            assert(a != c);
            assert(a != b);
            assert(b != c);
        }
        out.push([f[0], a, c]);
        out.push([f[1], b, a]);
        out.push([f[2], c, b]);
        out.push([a, b, c]);
        proof {
            assert forall|s: int| 0 <= s < out@.len() implies corner_triple(#[trigger] out@[s], base + pairs@.len()) by {
                if s < o0.len() {
                    assert(out@[s] == o0[s]);
                }
            }
            assert forall|s: int| 0 <= s < t + 1 implies split_at(#[trigger] faces@[s], out@, pairs@, s, base as int) by {
                if s < t {
                    assert(split_at(faces@[s], o0, pairs0, s, base as int));
                    lemma_split_kept(faces@[s], o0, pairs0, out@, pairs@, s, base as int);
                } else {
                    assert(out@[4 * s + 3] == [a, b, c]);
                }
            }
        }
        t = t + 1;
    }
    proof {
        assert forall|i: int, j: int| 0 <= i < j < pairs@.len() implies pairs@[i] != pairs@[j] by {
            assert(cached(cache@, pairs@[i]));
            assert(cached(cache@, pairs@[j]));
        }
    }
    (out, pairs)
}

proof fn lemma_pow4_monotone(a: nat, b: nat)
    requires
        a <= b,
    ensures
        pow4(a) <= pow4(b),
    decreases b,
{
    if a < b {
        lemma_pow4_monotone(a, (b - 1) as nat);
    }
}

/// Pass `d` of an icosphere built in passes: the triangles `levels[d + 1]`
/// split every triangle of `levels[d]` through the midpoint pairs
/// `pairs[starts[d]..starts[d + 1]]`, whose points are numbered from
/// `12 + starts[d]`; those pairs are pairwise distinct.
pub open spec fn pass_ok(levels: Seq<Seq<[usize; 3]>>, starts: Seq<int>, pairs: Seq<(usize, usize)>, d: int) -> bool {
    &&& 0 <= starts[d] <= starts[d + 1] <= pairs.len()
    &&& levels[d + 1].len() == 4 * levels[d].len()
    &&& pairs.subrange(starts[d], starts[d + 1]).no_duplicates()
    &&& forall|t: int|
        0 <= t < levels[d].len() ==> split_at(
            #[trigger] levels[d][t],
            levels[d + 1],
            pairs.subrange(starts[d], starts[d + 1]),
            t,
            12 + starts[d],
        )
}

/// The first `n` passes, starting from the icosahedron, are all valid.
pub open spec fn passes_ok(levels: Seq<Seq<[usize; 3]>>, starts: Seq<int>, pairs: Seq<(usize, usize)>, n: int) -> bool {
    &&& levels.len() == n + 1
    &&& starts.len() == n + 1
    &&& levels[0] == icosahedron()
    &&& starts[0] == 0
    &&& forall|d: int| 0 <= d < n ==> #[trigger] pass_ok(levels, starts, pairs, d)
}

/// `faces` and `pairs` come out of `n` valid passes from the icosahedron:
/// there are levels of triangles and pair ranges, the last level being
/// `faces` and the ranges covering `pairs`, such that every pass is valid.
pub open spec fn built_in_passes(faces: Seq<[usize; 3]>, pairs: Seq<(usize, usize)>, n: int) -> bool {
    exists|levels: Seq<Seq<[usize; 3]>>, starts: Seq<int>|
        #![trigger passes_ok(levels, starts, pairs, n)]
        passes_ok(levels, starts, pairs, n) && levels[n] == faces && starts[n] == pairs.len()
}

proof fn lemma_pass_kept(
    levels: Seq<Seq<[usize; 3]>>,
    starts: Seq<int>,
    pairs: Seq<(usize, usize)>,
    levels2: Seq<Seq<[usize; 3]>>,
    starts2: Seq<int>,
    pairs2: Seq<(usize, usize)>,
    d: int,
)
    requires
        pass_ok(levels, starts, pairs, d),
        0 <= d,
        d + 1 < levels.len(),
        d + 1 < starts.len(),
        levels.len() <= levels2.len(),
        starts.len() <= starts2.len(),
        forall|k: int| 0 <= k < levels.len() ==> levels2[k] == levels[k],
        forall|k: int| 0 <= k < starts.len() ==> starts2[k] == starts[k],
        pairs.len() <= pairs2.len(),
        forall|k: int| 0 <= k < pairs.len() ==> pairs2[k] == pairs[k],
    ensures
        pass_ok(levels2, starts2, pairs2, d),
{
    assert(levels2[d] == levels[d]);
    assert(levels2[d + 1] == levels[d + 1]);
    assert(starts2[d] == starts[d] && starts2[d + 1] == starts[d + 1]);
    assert(pairs2.subrange(starts[d], starts[d + 1]) =~= pairs.subrange(starts[d], starts[d + 1]));
}

proof fn lemma_pass_step(
    levels: Seq<Seq<[usize; 3]>>,
    starts: Seq<int>,
    pairs0: Seq<(usize, usize)>,
    pairs: Seq<(usize, usize)>,
    faces: Seq<[usize; 3]>,
    next_faces: Seq<[usize; 3]>,
    new_pairs: Seq<(usize, usize)>,
    d: int,
)
    requires
        0 <= d,
        passes_ok(levels, starts, pairs0, d),
        levels[d] == faces,
        starts[d] == pairs0.len(),
        pairs.len() == pairs0.len() + new_pairs.len(),
        forall|k: int| 0 <= k < pairs0.len() ==> #[trigger] pairs[k] == pairs0[k],
        pairs.subrange(pairs0.len() as int, pairs.len() as int) == new_pairs,
        next_faces.len() == 4 * faces.len(),
        new_pairs.no_duplicates(),
        forall|t: int| 0 <= t < faces.len() ==> split_at(#[trigger] faces[t], next_faces, new_pairs, t, 12 + pairs0.len() as int),
    ensures
        passes_ok(levels.push(next_faces), starts.push(pairs.len() as int), pairs, d + 1),
{
    let levels2 = levels.push(next_faces);
    let starts2 = starts.push(pairs.len() as int);
    assert forall|e: int| 0 <= e < d + 1 implies #[trigger] pass_ok(levels2, starts2, pairs, e) by {
        if e < d {
            assert(pass_ok(levels, starts, pairs0, e));
            lemma_pass_kept(levels, starts, pairs0, levels2, starts2, pairs, e);
        } else {
            assert(levels2[d] == faces);
            assert(levels2[d + 1] == next_faces);
            assert(starts2[d] == pairs0.len());
            assert(starts2[d + 1] == pairs.len());
            assert forall|t: int| 0 <= t < levels2[d].len() implies split_at(
                #[trigger] levels2[d][t],
                levels2[d + 1],
                pairs.subrange(starts2[d], starts2[d + 1]),
                t,
                12 + starts2[d],
            ) by {
                assert(split_at(faces[t], next_faces, new_pairs, t, 12 + pairs0.len() as int));
            }
        }
    }
}

/// The icosphere connectivity after `subdiv` subdivision passes over the
/// icosahedron: triangles over the points `0..12 + pairs.len()`, where points
/// `0..12` are the icosahedron's corners and point `12 + q` is the midpoint
/// of the two earlier points `pairs[q]`.
pub fn icosphere_topology(subdiv: usize) -> (r: (Vec<[usize; 3]>, Vec<(usize, usize)>))
    requires
        20 * pow4(subdiv as nat) <= usize::MAX / 8,
    ensures
        r.0@.len() == 20 * pow4(subdiv as nat),
        subdiv == 0 ==> r.1@.len() == 0 && r.0@ == icosahedron(),
        forall|t: int| 0 <= t < r.0@.len() ==> corner_triple(#[trigger] r.0@[t], 12 + r.1@.len() as int),
        forall|q: int| 0 <= q < r.1@.len() ==> (#[trigger] r.1@[q]).0 < r.1@[q].1 < 12 + q,
        built_in_passes(r.0@, r.1@, subdiv as int),
{
    let mut faces = icosahedron_faces();
    let mut pairs: Vec<(usize, usize)> = Vec::new();
    let mut d: usize = 0;
    let ghost mut levels: Seq<Seq<[usize; 3]>> = seq![faces@];
    let ghost mut starts: Seq<int> = seq![0int];
    proof {
        lemma_pow4_monotone(0, subdiv as nat);
    }
    while d < subdiv
        invariant
            d <= subdiv,
            20 * pow4(subdiv as nat) <= usize::MAX / 8,
            faces@.len() == 20 * pow4(d as nat),
            pairs@.len() <= faces@.len(),
            d == 0 ==> pairs@.len() == 0 && faces@ == icosahedron(),
            forall|t: int| 0 <= t < faces@.len() ==> corner_triple(#[trigger] faces@[t], 12 + pairs@.len() as int),
            forall|q: int| 0 <= q < pairs@.len() ==> (#[trigger] pairs@[q]).0 < pairs@[q].1 < 12 + q,
            passes_ok(levels, starts, pairs@, d as int),
            levels[d as int] == faces@,
            starts[d as int] == pairs@.len(),
        decreases subdiv - d,
    {
        proof {
            lemma_pow4_monotone((d + 1) as nat, subdiv as nat);
            assert(pow4((d + 1) as nat) == 4 * pow4(d as nat));
        }
        let base = 12 + pairs.len();
        let (next_faces, new_pairs) = subdivide(&faces, base);
        let ghost pairs0 = pairs@;
        let mut q: usize = 0;
        while q < new_pairs.len()
            invariant
                base == 12 + pairs0.len(),
                q <= new_pairs@.len(),
                new_pairs@.len() <= 3 * faces@.len(),
                faces@.len() <= usize::MAX / 32,
                pairs@.len() == pairs0.len() + q,
                forall|k: int| 0 <= k < pairs0.len() ==> #[trigger] pairs@[k] == pairs0[k],
                forall|k: int| 0 <= k < q ==> #[trigger] pairs@[pairs0.len() + k] == new_pairs@[k],
                forall|k: int| 0 <= k < new_pairs@.len() ==> (#[trigger] new_pairs@[k]).0 < new_pairs@[k].1 < base,
            decreases new_pairs@.len() - q,
        {
            pairs.push(new_pairs[q]);
            q = q + 1;
        }
        proof {
            assert forall|k: int| 0 <= k < pairs@.len() implies (#[trigger] pairs@[k]).0 < pairs@[k].1 < 12 + k by {
                if k < pairs0.len() {
                    assert(pairs@[k] == pairs0[k]);
                } else {
                    let k2 = k - pairs0.len();
                    assert(pairs@[pairs0.len() + k2] == new_pairs@[k2]);
                }
            }
        }
        proof {
            assert(pairs@.subrange(pairs0.len() as int, pairs@.len() as int) =~= new_pairs@) by {
                assert forall|k: int| 0 <= k < new_pairs@.len() implies pairs@[pairs0.len() + k] == new_pairs@[k] by {}
            }
            lemma_pass_step(levels, starts, pairs0, pairs@, faces@, next_faces@, new_pairs@, d as int);
            levels = levels.push(next_faces@);
            starts = starts.push(pairs@.len() as int);
        }
        faces = next_faces;
        d = d + 1;
    }
    proof {
        assert(passes_ok(levels, starts, pairs@, subdiv as int) && levels[subdiv as int] == faces@ && starts[subdiv as int]
            == pairs@.len());
        assert(built_in_passes(faces@, pairs@, subdiv as int));
    }
    (faces, pairs)
}

} // verus!
