//! Render buffers: the vertex order and triangle index buffer of a mesh, and
//! the interleaving of per-vertex attribute buffers.

use std::collections::HashMap;
use vstd::prelude::*;

use crate::mesh::{Mesh, position_of};
use crate::triangulation::{corner_triangle, PolygonGeometry};

verus! {

broadcast use vstd::std_specs::hash::group_hash_axioms;

/// The index layout of a mesh's render buffers.
pub struct BufferLayout {
    /// The vertex keys used by faces, each once, in order of first use over
    /// the faces in insertion order. Buffer vertex `i` is `vertex_keys[i]`.
    pub vertex_keys: Vec<usize>,
    /// Three buffer vertex indices per triangle.
    pub indices: Vec<usize>,
    /// The number of triangles.
    pub triangle_count: usize,
    /// The faces, each once, in the order their triangles appear.
    pub face_keys: Vec<usize>,
}

/// The number of triangles of the faces `order` of `faces`: a face of `n`
/// corners has `n - 2`.
pub open spec fn total_triangles(faces: Map<usize, Seq<usize>>, order: Seq<usize>) -> int
    decreases order.len(),
{
    if order.len() == 0 {
        0
    } else {
        total_triangles(faces, order.drop_last()) + faces[order.last()].len() - 2
    }
}

/// The key triangle that triangle `t` of an index buffer names.
pub open spec fn indexed_triangle(keys: Seq<usize>, indices: Seq<usize>, t: int) -> [usize; 3] {
    [keys[indices[3 * t] as int], keys[indices[3 * t + 1] as int], keys[indices[3 * t + 2] as int]]
}

/// Triangle `t` of the index buffer names three distinct corners of one of
/// the faces `faces`.
pub open spec fn from_some_face(faces: Map<usize, Seq<usize>>, keys: Seq<usize>, indices: Seq<usize>, t: int) -> bool {
    exists|f: usize| faces.contains_key(f) && #[trigger] corner_triangle(faces[f], indexed_triangle(keys, indices, t))
}

/// Triangle `t` of the index buffer is a triangle stored in `cache` for one
/// of the faces `order`.
pub open spec fn stored_in(
    cache: Map<usize, Seq<[usize; 3]>>,
    order: Seq<usize>,
    keys: Seq<usize>,
    indices: Seq<usize>,
    t: int,
) -> bool {
    exists|j: int, u: int|
        #![trigger cache[order[j]][u]]
        0 <= j < order.len() && cache.contains_key(order[j]) && 0 <= u < cache[order[j]].len()
            && cache[order[j]][u] == indexed_triangle(keys, indices, t)
}

impl<V> Mesh<V> {
    /// Lay out the render buffers: triangulate every face (through the cache)
    /// and index each triangle corner into the list of vertices used by
    /// faces. Every triangle maps back onto three distinct corners of one face.
    pub fn buffer_layout<G: PolygonGeometry<V>>(&mut self) -> (r: BufferLayout)
        requires
            old(self).wf(),
        ensures
            final(self).wf(),
            final(self).vertices() == old(self).vertices(),
            final(self).faces() == old(self).faces(),
            final(self).halfedges() == old(self).halfedges(),
            r.vertex_keys@.no_duplicates(),
            forall|k: usize|
                #[trigger] r.vertex_keys@.contains(k) <==> exists|f: usize|
                    old(self).faces().contains_key(f) && #[trigger] old(self).faces()[f].contains(k),
            r.indices@.len() == 3 * r.triangle_count,
            r.face_keys@.no_duplicates(),
            r.face_keys@.to_set() == old(self).faces().dom(),
            forall|f: usize|
                #[trigger] old(self).faces().contains_key(f) ==> final(self).cached_triangulations().contains_key(f),
            forall|t: int|
                0 <= t < r.triangle_count ==> #[trigger] stored_in(
                    final(self).cached_triangulations(),
                    r.face_keys@,
                    r.vertex_keys@,
                    r.indices@,
                    t,
                ),
            r.triangle_count == total_triangles(old(self).faces(), r.face_keys@),
            forall|q: int| 0 <= q < r.indices@.len() ==> #[trigger] r.indices@[q] < r.vertex_keys@.len(),
            forall|t: int| 0 <= t < r.triangle_count ==> #[trigger] from_some_face(old(self).faces(), r.vertex_keys@, r.indices@, t),
    {
        let faces = self.face_keys();
        let nf = faces.len();
        let ghost fs = self.faces();
        let mut keys: Vec<usize> = Vec::new();
        let mut slot: HashMap<usize, usize> = HashMap::new();
        let mut i: usize = 0;
        while i < nf
            invariant
                self.wf(),
                self.faces() == fs,
                nf == faces@.len(),
                faces@.no_duplicates(),
                faces@.to_set() == fs.dom(),
                i <= nf,
                keys@.no_duplicates(),
                slot@.dom() == keys@.to_set(),
                forall|k: usize| #[trigger] slot@.contains_key(k) ==> slot@[k] < keys@.len() && keys@[slot@[k] as int] == k,
                forall|k: usize|
                    #[trigger] keys@.contains(k) ==> exists|f: usize| fs.contains_key(f) && #[trigger] fs[f].contains(k),
                forall|j: int, c: int|
                    0 <= j < i && 0 <= c < fs[faces@[j]].len() ==> slot@.contains_key(#[trigger] fs[faces@[j]][c]),
            decreases nf - i,
        {
            let f = faces[i];
            proof {
                assert(faces@.to_set().contains(f));
            }
            let fv = self.face_vertices(f).unwrap();
            let m = fv.len();
            let mut c: usize = 0;
            while c < m
                invariant
                    fs.contains_key(f),
                    fv@ == fs[f],
                    m == fv@.len(),
                    c <= m,
                    keys@.no_duplicates(),
                    slot@.dom() == keys@.to_set(),
                    forall|k: usize| #[trigger] slot@.contains_key(k) ==> slot@[k] < keys@.len() && keys@[slot@[k] as int] == k,
                    forall|k: usize|
                        #[trigger] keys@.contains(k) ==> exists|g: usize| fs.contains_key(g) && #[trigger] fs[g].contains(k),
                    forall|j: int, c2: int|
                        0 <= j < i && 0 <= c2 < fs[faces@[j]].len() ==> slot@.contains_key(#[trigger] fs[faces@[j]][c2]),
                    forall|c2: int| 0 <= c2 < c ==> slot@.contains_key(#[trigger] fv@[c2]),
                decreases m - c,
            {
                let k = fv[c];
                if !slot.contains_key(&k) {
                    let ghost k0 = keys@;
                    proof {
                        assert(!keys@.to_set().contains(k));
                        assert(fs[f].contains(k)) by {
                            assert(fs[f][c as int] == k);
                        }
                    }
                    slot.insert(k, keys.len());
                    keys.push(k);
                    proof {
                        broadcast use vstd::seq_lib::group_seq_properties;
                        assert(keys@.to_set() =~= k0.to_set().insert(k));
                        assert forall|x: usize| #[trigger] slot@.contains_key(x) implies slot@[x] < keys@.len() && keys@[slot@[x] as int] == x by {
                            if x != k {
                                assert(keys@[slot@[x] as int] == k0[slot@[x] as int]);
                            }
                        }
                        assert forall|x: usize| #[trigger] keys@.contains(x) implies exists|g: usize| fs.contains_key(g) && #[trigger] fs[g].contains(x) by {
                            if x != k {
                                assert(k0.contains(x));
                            }
                        }
                    }
                }
                c = c + 1;
            }
            i = i + 1;
        }
        let ghost used = keys@;
        proof {
            assert forall|k: usize| #[trigger] keys@.contains(k) <==> exists|f: usize|
                fs.contains_key(f) && #[trigger] fs[f].contains(k) by {
                if exists|f: usize| fs.contains_key(f) && #[trigger] fs[f].contains(k) {
                    let f = choose|f: usize| fs.contains_key(f) && #[trigger] fs[f].contains(k);
                    assert(faces@.to_set().contains(f));
                    let j = choose|j: int| 0 <= j < nf && faces@[j] == f;
                    let c = choose|c: int| 0 <= c < fs[f].len() && fs[f][c] == k;
                    assert(slot@.contains_key(fs[faces@[j]][c]));
                    assert(keys@.to_set().contains(k));
                }
            }
        }
        let mut indices: Vec<usize> = Vec::new();
        let mut count: usize = 0;
        i = 0;
        while i < nf
            invariant
                self.wf(),
                self.faces() == fs,
                self.vertices() == old(self).vertices(),
                self.halfedges() == old(self).halfedges(),
                fs == old(self).faces(),
                nf == faces@.len(),
                faces@.to_set() == fs.dom(),
                i <= nf,
                keys@ == used,
                forall|k: usize| #[trigger] slot@.contains_key(k) ==> slot@[k] < keys@.len() && keys@[slot@[k] as int] == k,
                forall|j: int, c: int|
                    0 <= j < nf && 0 <= c < fs[faces@[j]].len() ==> slot@.contains_key(#[trigger] fs[faces@[j]][c]),
                indices@.len() == 3 * count,
                faces@.no_duplicates(),
                count == total_triangles(fs, faces@.subrange(0, i as int)),
                forall|j: int| 0 <= j < i ==> self.cached_triangulations().contains_key(#[trigger] faces@[j]),
                forall|t: int|
                    0 <= t < count ==> #[trigger] stored_in(
                        self.cached_triangulations(),
                        faces@.subrange(0, i as int),
                        keys@,
                        indices@,
                        t,
                    ),
                forall|q: int| 0 <= q < indices@.len() ==> #[trigger] indices@[q] < keys@.len(),
                forall|t: int| 0 <= t < count ==> #[trigger] from_some_face(fs, keys@, indices@, t),
            decreases nf - i,
        {
            let f = faces[i];
            proof {
                assert(faces@.to_set().contains(f));
            }
            let ghost cache0 = self.cached_triangulations();
            let tris = crate::mesh::copy_triangles(self.triangulate_face::<G>(f).unwrap());
            let ghost cache1 = self.cached_triangulations();
            let ghost order1 = faces@.subrange(0, i + 1);
            proof {
                assert forall|j: int| 0 <= j < i + 1 implies self.cached_triangulations().contains_key(#[trigger] faces@[j]) by {
                    if j < i {
                        assert(cache0.contains_key(faces@[j]));
                    }
                }
                assert(cache1[f] == tris@);
                assert forall|s: int| 0 <= s < count implies #[trigger] stored_in(cache1, order1, keys@, indices@, s) by {
                    let order0 = faces@.subrange(0, i as int);
                    assert(stored_in(cache0, order0, keys@, indices@, s));
                    let (j, u) = choose|j: int, u: int|
                        #![trigger cache0[order0[j]][u]]
                        0 <= j < order0.len() && cache0.contains_key(order0[j]) && 0 <= u < cache0[order0[j]].len()
                            && cache0[order0[j]][u] == indexed_triangle(keys@, indices@, s);
                    assert(order1[j] == order0[j]);
                    assert(faces@[j] != faces@[i as int]);
                    assert(cache1[order1[j]] == cache0[order0[j]]);
                    assert(cache1[order1[j]][u] == indexed_triangle(keys@, indices@, s));
                }
            }
            let mut t: usize = 0;
            while t < tris.len()
                invariant
                    fs.contains_key(f),
                    f == faces@[i as int],
                    i < nf,
                    nf == faces@.len(),
                    crate::triangulation::triangulates(fs[f], tris@),
                    keys@ == used,
                    t <= tris@.len(),
                    count == total_triangles(fs, faces@.subrange(0, i as int)) + t,
                    forall|k: usize| #[trigger] slot@.contains_key(k) ==> slot@[k] < keys@.len() && keys@[slot@[k] as int] == k,
                    forall|j: int, c: int|
                        0 <= j < nf && 0 <= c < fs[faces@[j]].len() ==> slot@.contains_key(#[trigger] fs[faces@[j]][c]),
                    indices@.len() == 3 * count,
                    forall|q: int| 0 <= q < indices@.len() ==> #[trigger] indices@[q] < keys@.len(),
                    forall|s: int| 0 <= s < count ==> #[trigger] from_some_face(fs, keys@, indices@, s),
                    faces@.no_duplicates(),
                    self.cached_triangulations() == cache1,
                    order1 == faces@.subrange(0, i + 1),
                    cache1.contains_key(f),
                    cache1[f] == tris@,
                    count - t == total_triangles(fs, faces@.subrange(0, i as int)),
                    forall|s: int| 0 <= s < count ==> #[trigger] stored_in(cache1, order1, keys@, indices@, s),
                decreases tris@.len() - t,
            {
                let tri = tris[t];
                proof {
                    assert(crate::triangulation::corner_triangle(fs[f], tris@[t as int]));
                    let s = fs[f];
                    let (a, b, c) = choose|a: int, b: int, c: int|
                        #![trigger s[a], s[b], s[c]]
                        0 <= a < s.len() && 0 <= b < s.len() && 0 <= c < s.len() && a != b && b != c && a != c
                            && tri[0] == s[a] && tri[1] == s[b] && tri[2] == s[c];
                    assert(slot@.contains_key(fs[faces@[i as int]][a]));
                    assert(slot@.contains_key(fs[faces@[i as int]][b]));
                    assert(slot@.contains_key(fs[faces@[i as int]][c]));
                }
                let ia = *slot.get(&tri[0]).unwrap();
                let ib = *slot.get(&tri[1]).unwrap();
                let ic = *slot.get(&tri[2]).unwrap();
                let ghost i0 = indices@;
                indices.push(ia);
                indices.push(ib);
                indices.push(ic);
                let total = indices.len();
                proof {
                    assert(indices@[3 * count as int] == ia);
                    assert(indices@[3 * count + 1] == ib);
                    assert(indices@[3 * count + 2] == ic);
                    assert(keys@[ia as int] == tri[0]);
                    assert([keys@[ia as int], keys@[ib as int], keys@[ic as int]] == tri);
                    assert forall|s: int| 0 <= s < count + 1 implies #[trigger] from_some_face(fs, keys@, indices@, s) by {
                        if s < count {
                            assert(indices@[3 * s] == i0[3 * s]);
                            assert(indices@[3 * s + 1] == i0[3 * s + 1]);
                            assert(indices@[3 * s + 2] == i0[3 * s + 2]);
                            assert(indexed_triangle(keys@, indices@, s) == indexed_triangle(keys@, i0, s));
                            assert(from_some_face(fs, keys@, i0, s));
                        } else {
                            assert(indexed_triangle(keys@, indices@, s) == tri);
                            assert(corner_triangle(fs[f], tri));
                        }
                    }
                    assert forall|s: int| 0 <= s < count + 1 implies #[trigger] stored_in(cache1, order1, keys@, indices@, s) by {
                        if s < count {
                            assert(indexed_triangle(keys@, indices@, s) == indexed_triangle(keys@, i0, s)) by {
                                assert(indices@[3 * s] == i0[3 * s]);
                                assert(indices@[3 * s + 1] == i0[3 * s + 1]);
                                assert(indices@[3 * s + 2] == i0[3 * s + 2]);
                            }
                            assert(stored_in(cache1, order1, keys@, i0, s));
                            let (j, u) = choose|j: int, u: int|
                                #![trigger cache1[order1[j]][u]]
                                0 <= j < order1.len() && cache1.contains_key(order1[j]) && 0 <= u < cache1[order1[j]].len()
                                    && cache1[order1[j]][u] == indexed_triangle(keys@, i0, s);
                            assert(cache1[order1[j]][u] == indexed_triangle(keys@, indices@, s));
                        } else {
                            assert(order1[i as int] == f);
                            assert(cache1[order1[i as int]][t as int] == tri);
                            assert(indexed_triangle(keys@, indices@, s) == tri);
                        }
                    }
                }
                count = count + 1;
                t = t + 1;
            }
            proof {
                assert(faces@.subrange(0, i + 1).drop_last() =~= faces@.subrange(0, i as int));
                assert(faces@.subrange(0, i + 1).last() == f);
            }
            i = i + 1;
        }
        proof {
            assert(faces@.subrange(0, nf as int) =~= faces@);
        }
        BufferLayout { vertex_keys: keys, indices, triangle_count: count, face_keys: faces }
    }
}

/// Element `j` of the interleaving of three buffers of three components per
/// vertex: component `j % 9` of vertex `j / 9`, taken from the positions for
/// components 0 to 2, the normals for 3 to 5 and the colours for 6 to 8.
pub open spec fn interleaved_at<T>(positions: Seq<T>, normals: Seq<T>, colors: Seq<T>, j: int) -> T {
    let i = j / 9;
    let c = j % 9;
    if c < 3 {
        positions[3 * i + c]
    } else if c < 6 {
        normals[3 * i + c - 3]
    } else {
        colors[3 * i + c - 6]
    }
}

/// Interleave three per-vertex buffers of three components each into one
/// buffer of nine components per vertex: position, then normal, then colour.
pub fn interleave<T: Copy>(positions: &Vec<T>, normals: &Vec<T>, colors: &Vec<T>, count: usize) -> (r: Vec<T>)
    requires
        positions@.len() == 3 * count,
        normals@.len() == 3 * count,
        colors@.len() == 3 * count,
    ensures
        r@.len() == 9 * count,
        forall|j: int| 0 <= j < r@.len() ==> #[trigger] r@[j] == interleaved_at(positions@, normals@, colors@, j),
{
    let mut r: Vec<T> = Vec::new();
    let len = positions.len();
    let mut i: usize = 0;
    while i < count
        invariant
            len == positions@.len(),
            positions@.len() == 3 * count,
            normals@.len() == 3 * count,
            colors@.len() == 3 * count,
            i <= count,
            r@.len() == 9 * i,
            forall|j: int| 0 <= j < r@.len() ==> #[trigger] r@[j] == interleaved_at(positions@, normals@, colors@, j),
        decreases count - i,
    {
        let ghost r0 = r@;
        r.push(positions[3 * i]);
        r.push(positions[3 * i + 1]);
        r.push(positions[3 * i + 2]);
        r.push(normals[3 * i]);
        r.push(normals[3 * i + 1]);
        r.push(normals[3 * i + 2]);
        r.push(colors[3 * i]);
        r.push(colors[3 * i + 1]);
        r.push(colors[3 * i + 2]);
        proof {
            assert forall|j: int| 0 <= j < r@.len() implies #[trigger] r@[j] == interleaved_at(positions@, normals@, colors@, j) by {
                if j < r0.len() {
                    assert(r@[j] == r0[j]);
                } else {
                    let c = j - 9 * i;
                    assert(j / 9 == i && j % 9 == c) by (nonlinear_arith)
                        requires 9 * i <= j < 9 * i + 9, c == j - 9 * i;
                }
            }
        }
        i = i + 1;
    }
    r
}

} // verus!
