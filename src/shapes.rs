//! Procedural shapes: the connectivity of tubes, capped pipes and indexed
//! triangle sets, built from vertex payloads computed by the caller.
//!
//! Every shape starts from an empty mesh and adds its vertices and faces with
//! automatic keys, so the `i`-th vertex and the `i`-th face added both get the
//! key `auto_key(i)`.

use vstd::prelude::*;

use crate::mesh::{next_index, valid_polygon, with_face_sides, Mesh};
use crate::triangulation::corner_triple;

verus! {

/// The halfedges made by adding the polygons `polys`, in order and with
/// keys `auto_key(0)`, `auto_key(1)`, ..., to a mesh that has none: each
/// side is owned by its face, and a reverse that no face has claimed is a
/// boundary halfedge.
pub open spec fn sides_of(polys: Seq<Seq<usize>>) -> Map<(usize, usize), Option<usize>>
    decreases polys.len(),
{
    if polys.len() == 0 {
        Map::empty()
    } else {
        with_face_sides(sides_of(polys.drop_last()), polys.last(), auto_key(polys.len() - 1))
    }
}

impl<V> Mesh<V> {
    /// The faces under the keys `auto_key(0)`, `auto_key(1)`, ..., one per face.
    pub open spec fn auto_faces(&self) -> Seq<Seq<usize>> {
        Seq::new(self.faces().len(), |i: int| self.faces()[auto_key(i)])
    }
}

/// Adding face number `k` under `auto_key(k)` extends the list of faces by
/// one.
pub(crate) proof fn lemma_auto_faces_push<V>(prev: Mesh<V>, next: Mesh<V>, s: Seq<usize>)
    requires
        next.faces() == prev.faces().insert(auto_key(prev.faces().len() as int), s),
        next.faces().len() == prev.faces().len() + 1,
        prev.faces().len() < usize::MAX / 4,
    ensures
        next.auto_faces() == prev.auto_faces().push(s),
{
    let k = prev.faces().len() as int;
    assert forall|j: int| 0 <= j < k implies auto_key(j) != auto_key(k) by {}
    assert(next.auto_faces() =~= prev.auto_faces().push(s));
}

/// The key that the `i`-th automatic insertion into a fresh mesh receives.
pub open spec fn auto_key(i: int) -> usize {
    (2 * i + 1) as usize
}

/// The key of the first vertex of the `i`-th pair added to a fresh mesh.
pub open spec fn first_of_pair(i: int) -> usize {
    auto_key(2 * i)
}

/// The key of the second vertex of the `i`-th pair added to a fresh mesh.
pub open spec fn second_of_pair(i: int) -> usize {
    auto_key(2 * i + 1)
}

/// Face `k` of a capped pipe over rings of `n` corners, with `s_i` and
/// `e_i` the keys of the start and end ring corners, `c_s` and `c_e` those
/// of the two centres, and `j` the side after `i` (wrapping): for side `i`,
/// faces `2i` and `2i + 1` are the wall triangles `(s_i, s_j, e_j)` and
/// `(s_i, e_j, e_i)`; face `2n + i` is the start cap `(c_s, s_j, s_i)`; face
/// `3n + i` is the end cap `(c_e, e_i, e_j)`.
pub open spec fn pipe_face(n: int, k: int) -> Seq<usize> {
    if k < 2 * n {
        let i = k / 2;
        let j = next_index(i, n);
        if k % 2 == 0 {
            seq![first_of_pair(i), first_of_pair(j), second_of_pair(j)]
        } else {
            seq![first_of_pair(i), second_of_pair(j), second_of_pair(i)]
        }
    } else if k < 3 * n {
        let i = k - 2 * n;
        seq![first_of_pair(n), first_of_pair(next_index(i, n)), first_of_pair(i)]
    } else {
        let i = k - 3 * n;
        seq![second_of_pair(n), second_of_pair(i), second_of_pair(next_index(i, n))]
    }
}

impl<V: Copy> Mesh<V> {
    /// Add the payloads of two rings to a fresh mesh, in pairs: `a[0]`,
    /// `b[0]`, `a[1]`, `b[1]`, ...
    fn add_ring_pairs(&mut self, a: &Vec<V>, b: &Vec<V>)
        requires
            old(self).wf(),
            old(self).vertices().is_empty(),
            old(self).vertex_counter() == 0,
            a@.len() == b@.len(),
            a@.len() <= usize::MAX / 16,
        ensures
            final(self).wf(),
            final(self).vertex_counter() == 4 * a@.len(),
            final(self).vertices().len() == 2 * a@.len(),
            forall|i: int|
                0 <= i < a@.len() ==> {
                    &&& final(self).vertices().contains_key(#[trigger] first_of_pair(i))
                    &&& final(self).vertices()[first_of_pair(i)] == a@[i]
                    &&& final(self).vertices().contains_key(second_of_pair(i))
                    &&& final(self).vertices()[second_of_pair(i)] == b@[i]
                },
            forall|k: usize| #[trigger] final(self).vertices().contains_key(k) ==> k < 4 * a@.len(),
            final(self).faces() == old(self).faces(),
            final(self).halfedges() == old(self).halfedges(),
            final(self).face_counter() == old(self).face_counter(),
            final(self).cached_triangulations() == old(self).cached_triangulations(),
    {
        let n = a.len();
        let mut i: usize = 0;
        while i < n
            invariant
                n == a@.len(),
                n == b@.len(),
                n <= usize::MAX / 16,
                i <= n,
                self.wf(),
                self.vertex_counter() == 4 * i,
                self.vertices().len() == 2 * i,
                forall|k: int|
                    0 <= k < i ==> {
                        &&& self.vertices().contains_key(#[trigger] first_of_pair(k))
                        &&& self.vertices()[first_of_pair(k)] == a@[k]
                        &&& self.vertices().contains_key(second_of_pair(k))
                        &&& self.vertices()[second_of_pair(k)] == b@[k]
                    },
                forall|k: usize| #[trigger] self.vertices().contains_key(k) ==> k < 4 * i,
                self.faces() == old(self).faces(),
                self.halfedges() == old(self).halfedges(),
                self.face_counter() == old(self).face_counter(),
                self.cached_triangulations() == old(self).cached_triangulations(),
            decreases n - i,
        {
            let ghost before = self.vertices();
            let k1 = self.add_vertex(a[i], None);
            let ghost mid = self.vertices();
            let k2 = self.add_vertex(b[i], None);
            proof {
                assert(k1 == first_of_pair(i as int));
                assert(k2 == second_of_pair(i as int));
                assert(self.vertices().dom() =~= before.dom().insert(k1).insert(k2));
                assert forall|k: int| 0 <= k < i + 1 implies {
                    &&& self.vertices().contains_key(#[trigger] first_of_pair(k))
                    &&& self.vertices()[first_of_pair(k)] == a@[k]
                    &&& self.vertices().contains_key(second_of_pair(k))
                    &&& self.vertices()[second_of_pair(k)] == b@[k]
                } by {
                    if k < i {
                        assert(before.contains_key(first_of_pair(k)));
                    }
                }
            }
            i = i + 1;
        }
    }

    /// An open tube over two rings of `n >= 2` payloads: vertices
    /// `bottom[i]`, `top[i]` added in pairs, then for each side `i` (with
    /// `j` the next side, wrapping) the quad `bottom[i], bottom[j], top[j],
    /// top[i]`.
    pub fn tube(bottom: &Vec<V>, top: &Vec<V>) -> (r: Mesh<V>)
        requires
            bottom@.len() == top@.len(),
            2 <= bottom@.len() <= usize::MAX / 16,
        ensures
            r.wf(),
            r.vertices().len() == 2 * bottom@.len(),
            r.faces().len() == bottom@.len(),
            r.halfedges() == sides_of(r.auto_faces()),
            forall|i: int|
                0 <= i < bottom@.len() ==> {
                    &&& r.vertices().contains_key(#[trigger] first_of_pair(i))
                    &&& r.vertices()[first_of_pair(i)] == bottom@[i]
                    &&& r.vertices().contains_key(second_of_pair(i))
                    &&& r.vertices()[second_of_pair(i)] == top@[i]
                },
            forall|i: int|
                0 <= i < bottom@.len() ==> {
                    let j = next_index(i, bottom@.len() as int);
                    &&& r.faces().contains_key(#[trigger] auto_key(i))
                    &&& r.faces()[auto_key(i)] == seq![
                        first_of_pair(i),
                        first_of_pair(j),
                        second_of_pair(j),
                        second_of_pair(i),
                    ]
                },
    {
        let n = bottom.len();
        let mut m: Mesh<V> = Mesh::new();
        m.add_ring_pairs(bottom, top);
        let ghost verts = m.vertices();
        let mut polys: Vec<Vec<usize>> = Vec::new();
        let mut i: usize = 0;
        while i < n
            invariant
                n == bottom@.len(),
                2 <= n <= usize::MAX / 16,
                i <= n,
                forall|k: int|
                    0 <= k < n ==> verts.contains_key(#[trigger] first_of_pair(k)) && verts.contains_key(second_of_pair(k)),
                polys@.len() == i,
                forall|k: int|
                    0 <= k < i ==> {
                        let j = next_index(k, n as int);
                        &&& valid_polygon(#[trigger] polys@[k]@, verts.dom())
                        &&& polys@[k]@ == seq![first_of_pair(k), first_of_pair(j), second_of_pair(j), second_of_pair(k)]
                    },
            decreases n - i,
        {
            let j: usize = if i + 1 == n { 0 } else { i + 1 };
            let quad = vec![4 * i + 1, 4 * j + 1, 4 * j + 3, 4 * i + 3];
            proof {
                let (ii, jj) = (i as int, j as int);
                assert(quad@ =~= seq![first_of_pair(ii), first_of_pair(jj), second_of_pair(jj), second_of_pair(ii)]);
                assert(verts.contains_key(first_of_pair(ii)) && verts.contains_key(second_of_pair(ii)));
                assert(verts.contains_key(first_of_pair(jj)) && verts.contains_key(second_of_pair(jj)));
                assert(valid_polygon(quad@, verts.dom()));
            }
            polys.push(quad);
            i = i + 1;
        }
        m.add_faces_fresh(&polys);
        proof {
            assert forall|k: int| 0 <= k < n implies {
                let j = next_index(k, n as int);
                &&& m.faces().contains_key(#[trigger] auto_key(k))
                &&& m.faces()[auto_key(k)] == seq![first_of_pair(k), first_of_pair(j), second_of_pair(j), second_of_pair(k)]
            } by {
                assert(polys@[k]@ == m.faces()[auto_key(k)]);
            }
        }
        m
    }
}

/// The keys of face `k` of a capped pipe over rings of `n` corners.
fn pipe_face_keys(n: usize, k: usize) -> (r: Vec<usize>)
    requires
        2 <= n <= usize::MAX / 16,
        k < 4 * n,
    ensures
        r@ == pipe_face(n as int, k as int),
{
    if k < 2 * n {
        let i = k / 2;
        let j: usize = if i + 1 == n { 0 } else { i + 1 };
        if k % 2 == 0 {
            let r = vec![4 * i + 1, 4 * j + 1, 4 * j + 3];
            assert(r@ =~= pipe_face(n as int, k as int));
            r
        } else {
            let r = vec![4 * i + 1, 4 * j + 3, 4 * i + 3];
            assert(r@ =~= pipe_face(n as int, k as int));
            r
        }
    } else if k < 3 * n {
        let i = k - 2 * n;
        let j: usize = if i + 1 == n { 0 } else { i + 1 };
        let r = vec![4 * n + 1, 4 * j + 1, 4 * i + 1];
        assert(r@ =~= pipe_face(n as int, k as int));
        r
    } else {
        let i = k - 3 * n;
        let j: usize = if i + 1 == n { 0 } else { i + 1 };
        let r = vec![4 * n + 3, 4 * i + 3, 4 * j + 3];
        assert(r@ =~= pipe_face(n as int, k as int));
        r
    }
}

proof fn lemma_pipe_face_valid(n: int, k: int, keys: Set<usize>)
    requires
        2 <= n <= usize::MAX / 16,
        0 <= k < 4 * n,
        forall|i: int| 0 <= i <= n ==> keys.contains(#[trigger] first_of_pair(i)) && keys.contains(second_of_pair(i)),
    ensures
        valid_polygon(pipe_face(n, k), keys),
{
    let i = if k < 2 * n { k / 2 } else if k < 3 * n { k - 2 * n } else { k - 3 * n };
    let j = next_index(i, n);
    assert(keys.contains(first_of_pair(i)) && keys.contains(second_of_pair(i)));
    assert(keys.contains(first_of_pair(j)) && keys.contains(second_of_pair(j)));
    assert(keys.contains(first_of_pair(n)) && keys.contains(second_of_pair(n)));
}

impl<V> Mesh<V> {
    /// Add the polygons `polys`, in order and with automatic keys, to a mesh
    /// that has no face yet.
    fn add_faces_fresh(&mut self, polys: &Vec<Vec<usize>>)
        requires
            old(self).wf(),
            old(self).faces().is_empty(),
            old(self).face_counter() == 0,
            old(self).halfedges().is_empty(),
            polys@.len() <= usize::MAX / 4,
            forall|i: int| 0 <= i < polys@.len() ==> valid_polygon(#[trigger] polys@[i]@, old(self).vertices().dom()),
        ensures
            final(self).wf(),
            final(self).vertices() == old(self).vertices(),
            final(self).faces().len() == polys@.len(),
            final(self).halfedges() == sides_of(final(self).auto_faces()),
            forall|i: int|
                0 <= i < polys@.len() ==> {
                    &&& final(self).faces().contains_key(#[trigger] auto_key(i))
                    &&& final(self).faces()[auto_key(i)] == polys@[i]@
                },
    {
        proof {
            assert(self.auto_faces() =~= Seq::empty());
            assert(self.halfedges() =~= sides_of(Seq::empty()));
        }
        let n = polys.len();
        let mut i: usize = 0;
        while i < n
            invariant
                n == polys@.len(),
                n <= usize::MAX / 4,
                i <= n,
                self.wf(),
                self.vertices() == old(self).vertices(),
                forall|k: int| 0 <= k < n ==> valid_polygon(#[trigger] polys@[k]@, old(self).vertices().dom()),
                self.face_counter() == 2 * i,
                self.faces().len() == i,
                self.halfedges() == sides_of(self.auto_faces()),
                forall|k: usize| #[trigger] self.faces().contains_key(k) ==> k < 2 * i,
                forall|k: int|
                    0 <= k < i ==> {
                        &&& self.faces().contains_key(#[trigger] auto_key(k))
                        &&& self.faces()[auto_key(k)] == polys@[k]@
                    },
            decreases n - i,
        {
            let ghost before = self.faces();
            let ghost prev = *self;
            let poly = polys[i].clone();
            proof {
                assert(poly@ =~= polys@[i as int]@);
            }
            let added = self.add_face(poly, None);
            proof {
                let fk = added.unwrap();
                lemma_auto_faces_push(prev, *self, polys@[i as int]@);
                assert(prev.auto_faces().push(polys@[i as int]@).drop_last() =~= prev.auto_faces());
                assert(fk == auto_key(i as int));
                assert forall|k: int| 0 <= k < i + 1 implies {
                    &&& self.faces().contains_key(#[trigger] auto_key(k))
                    &&& self.faces()[auto_key(k)] == polys@[k]@
                } by {
                    if k < i {
                        assert(before.contains_key(auto_key(k)));
                    }
                }
            }
            i = i + 1;
        }
    }
}

impl<V: Copy> Mesh<V> {
    /// A closed pipe over two rings of `n >= 2` payloads and the two ring
    /// centres. Vertices: `start_ring[i]`, `end_ring[i]` in pairs, then
    /// `start`, then `end`. Faces: see [`pipe_face`].
    pub fn capped_pipe(start_ring: &Vec<V>, end_ring: &Vec<V>, start: V, end: V) -> (r: Mesh<V>)
        requires
            start_ring@.len() == end_ring@.len(),
            2 <= start_ring@.len() <= usize::MAX / 16,
        ensures
            r.wf(),
            r.vertices().len() == 2 * start_ring@.len() + 2,
            r.faces().len() == 4 * start_ring@.len(),
            r.halfedges() == sides_of(r.auto_faces()),
            forall|i: int|
                0 <= i < start_ring@.len() ==> {
                    &&& r.vertices().contains_key(#[trigger] first_of_pair(i))
                    &&& r.vertices()[first_of_pair(i)] == start_ring@[i]
                    &&& r.vertices().contains_key(second_of_pair(i))
                    &&& r.vertices()[second_of_pair(i)] == end_ring@[i]
                },
            r.vertices()[first_of_pair(start_ring@.len() as int)] == start,
            r.vertices()[second_of_pair(start_ring@.len() as int)] == end,
            forall|k: int|
                0 <= k < 4 * start_ring@.len() ==> {
                    &&& r.faces().contains_key(#[trigger] auto_key(k))
                    &&& r.faces()[auto_key(k)] == pipe_face(start_ring@.len() as int, k)
                },
    {
        let n = start_ring.len();
        let mut m: Mesh<V> = Mesh::new();
        m.add_ring_pairs(start_ring, end_ring);
        let ghost rings = m.vertices();
        let cs = m.add_vertex(start, None);
        let ce = m.add_vertex(end, None);
        let ghost verts = m.vertices();
        proof {
            assert(cs == first_of_pair(n as int));
            assert(ce == second_of_pair(n as int));
            assert(verts.contains_key(first_of_pair(n as int)));
            assert(verts.contains_key(second_of_pair(n as int)));
            assert forall|i: int| 0 <= i < n implies {
                &&& verts.contains_key(#[trigger] first_of_pair(i))
                &&& verts[first_of_pair(i)] == start_ring@[i]
                &&& verts.contains_key(second_of_pair(i))
                &&& verts[second_of_pair(i)] == end_ring@[i]
            } by {
                assert(rings.contains_key(first_of_pair(i)));
                assert(rings.contains_key(second_of_pair(i)));
            }
        }
        let mut polys: Vec<Vec<usize>> = Vec::new();
        let mut k: usize = 0;
        while k < 4 * n
            invariant
                n == start_ring@.len(),
                2 <= n <= usize::MAX / 16,
                k <= 4 * n,
                forall|i: int|
                    0 <= i <= n ==> verts.contains_key(#[trigger] first_of_pair(i)) && verts.contains_key(second_of_pair(i)),
                polys@.len() == k,
                forall|q: int|
                    0 <= q < k ==> {
                        &&& valid_polygon(#[trigger] polys@[q]@, verts.dom())
                        &&& polys@[q]@ == pipe_face(n as int, q)
                    },
            decreases 4 * n - k,
        {
            let poly = pipe_face_keys(n, k);
            proof {
                lemma_pipe_face_valid(n as int, k as int, verts.dom());
            }
            polys.push(poly);
            k = k + 1;
        }
        m.add_faces_fresh(&polys);
        m
    }

    /// A mesh of the points `points` (vertex `i` gets key `auto_key(i)`) and
    /// the triangles `tris` over point indices, added in order and as given.
    pub fn from_indexed_triangles(points: &Vec<V>, tris: &Vec<[usize; 3]>) -> (r: Mesh<V>)
        requires
            points@.len() <= usize::MAX / 4,
            tris@.len() <= usize::MAX / 4,
            forall|t: int| 0 <= t < tris@.len() ==> corner_triple(#[trigger] tris@[t], points@.len() as int),
        ensures
            r.wf(),
            r.vertices().len() == points@.len(),
            r.faces().len() == tris@.len(),
            r.halfedges() == sides_of(r.auto_faces()),
            forall|i: int|
                0 <= i < points@.len() ==> {
                    &&& r.vertices().contains_key(#[trigger] auto_key(i))
                    &&& r.vertices()[auto_key(i)] == points@[i]
                },
            forall|t: int|
                0 <= t < tris@.len() ==> {
                    let c = tris@[t];
                    &&& r.faces().contains_key(#[trigger] auto_key(t))
                    &&& r.faces()[auto_key(t)] == seq![auto_key(c[0] as int), auto_key(c[1] as int), auto_key(c[2] as int)]
                },
    {
        let n = points.len();
        let mut m: Mesh<V> = Mesh::new();
        let mut i: usize = 0;
        while i < n
            invariant
                n == points@.len(),
                n <= usize::MAX / 4,
                i <= n,
                m.wf(),
                m.vertex_counter() == 2 * i,
                m.vertices().len() == i,
                forall|k: int|
                    0 <= k < i ==> {
                        &&& m.vertices().contains_key(#[trigger] auto_key(k))
                        &&& m.vertices()[auto_key(k)] == points@[k]
                    },
                m.faces().is_empty(),
                m.halfedges().is_empty(),
                m.face_counter() == 0,
            decreases n - i,
        {
            let ghost before = m.vertices();
            let k1 = m.add_vertex(points[i], None);
            proof {
                assert(k1 == auto_key(i as int));
                assert forall|k: int| 0 <= k < i + 1 implies {
                    &&& m.vertices().contains_key(#[trigger] auto_key(k))
                    &&& m.vertices()[auto_key(k)] == points@[k]
                } by {
                    if k < i {
                        assert(before.contains_key(auto_key(k)));
                    }
                }
            }
            i = i + 1;
        }
        let ghost verts = m.vertices();
        let mut polys: Vec<Vec<usize>> = Vec::new();
        let mut t: usize = 0;
        while t < tris.len()
            invariant
                n == points@.len(),
                n <= usize::MAX / 4,
                t <= tris@.len(),
                forall|k: int| 0 <= k < tris@.len() ==> corner_triple(#[trigger] tris@[k], n as int),
                forall|k: int| 0 <= k < n ==> verts.contains_key(#[trigger] auto_key(k)),
                polys@.len() == t,
                forall|k: int|
                    0 <= k < t ==> {
                        let c = tris@[k];
                        &&& valid_polygon(#[trigger] polys@[k]@, verts.dom())
                        &&& polys@[k]@ == seq![auto_key(c[0] as int), auto_key(c[1] as int), auto_key(c[2] as int)]
                    },
            decreases tris@.len() - t,
        {
            let c = tris[t];
            let poly = vec![2 * c[0] + 1, 2 * c[1] + 1, 2 * c[2] + 1];
            proof {
                assert(poly@ =~= seq![auto_key(c[0] as int), auto_key(c[1] as int), auto_key(c[2] as int)]);
                assert(verts.contains_key(auto_key(c[0] as int)));
                assert(verts.contains_key(auto_key(c[1] as int)));
                assert(verts.contains_key(auto_key(c[2] as int)));
                assert(valid_polygon(poly@, verts.dom()));
            }
            polys.push(poly);
            t = t + 1;
        }
        m.add_faces_fresh(&polys);
        m
    }
}

} // verus!
