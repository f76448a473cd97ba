//! The halfedge connectivity store.

use std::collections::HashMap;
use std::collections::HashSet;
use uuid::Uuid;
use vstd::prelude::*;

use crate::identity::new_guid;
use crate::triangulation::{triangulate_polygon, triangulates, PolygonGeometry};

verus! {

broadcast use vstd::std_specs::hash::group_hash_axioms;

/// Weighting scheme for vertex normal computation.
#[derive(Debug, Clone, Copy, PartialEq, Eq, Structural)]
pub enum NormalWeighting {
    /// Weight face normals by face area.
    Area,
    /// Weight face normals by the interior angle at the vertex.
    Angle,
    /// Every adjacent face contributes equally.
    Uniform,
}

/// A polygon is a sequence of at least three distinct vertex keys, each of
/// which names an existing vertex.
pub open spec fn valid_polygon(s: Seq<usize>, keys: Set<usize>) -> bool {
    &&& s.len() >= 3
    &&& s.no_duplicates()
    &&& forall|i: int| 0 <= i < s.len() ==> keys.contains(#[trigger] s[i])
}

/// The successor of position `i` around a polygon of `n` corners.
pub open spec fn next_index(i: int, n: int) -> int {
    if i + 1 == n { 0 } else { i + 1 }
}

/// `u -> v` is one of the first `n` sides of the polygon `s`.
pub open spec fn side_among(s: Seq<usize>, n: int, u: usize, v: usize) -> bool {
    exists|j: int| 0 <= j < n && #[trigger] s[j] == u && s[next_index(j, s.len() as int)] == v
}

/// `u -> v` is a side of the polygon `s`.
pub open spec fn is_side(s: Seq<usize>, u: usize, v: usize) -> bool {
    side_among(s, s.len() as int, u, v)
}

/// The halfedges after the first `n` sides of face `k` with vertex list `s`
/// were recorded over `h`: each side is owned by `k`; its reverse is added
/// as a boundary halfedge unless it was already there.
pub open spec fn record_sides(
    h: Map<(usize, usize), Option<usize>>,
    s: Seq<usize>,
    k: usize,
    n: int,
) -> Map<(usize, usize), Option<usize>> {
    Map::new(
        |p: (usize, usize)|
            h.contains_key(p) || side_among(s, n, p.0, p.1) || side_among(s, n, p.1, p.0),
        |p: (usize, usize)|
            if side_among(s, n, p.0, p.1) {
                Some(k)
            } else if h.contains_key(p) {
                h[p]
            } else {
                None
            },
    )
}

/// The halfedges after face `k` with vertex list `s` was recorded over `h`.
pub open spec fn with_face_sides(
    h: Map<(usize, usize), Option<usize>>,
    s: Seq<usize>,
    k: usize,
) -> Map<(usize, usize), Option<usize>> {
    record_sides(h, s, k, s.len() as int)
}

/// In a polygon of distinct corners, no side is the reverse of another side.
proof fn lemma_no_reverse_side(s: Seq<usize>, i: int, j: int)
    requires
        s.len() >= 3,
        s.no_duplicates(),
        0 <= i < s.len(),
        0 <= j < s.len(),
    ensures
        !(s[j] == s[next_index(i, s.len() as int)] && s[next_index(j, s.len() as int)] == s[i]),
{
}

proof fn lemma_push_distinct<A>(s: Seq<A>, x: A)
    requires
        s.no_duplicates(),
        !s.contains(x),
    ensures
        s.push(x).no_duplicates(),
{
    assert forall|i: int, j: int| 0 <= i < j < s.len() + 1 implies s.push(x)[i] != s.push(x)[j] by {
        if j == s.len() {
            assert(s.contains(s[i]));
        }
    }
}

/// Distinct corners give distinct sides.
proof fn lemma_side_unique(s: Seq<usize>, i: int, j: int)
    requires
        s.no_duplicates(),
        0 <= i < s.len(),
        0 <= j < s.len(),
        s[i] == s[j],
    ensures
        i == j,
{
}

/// The predecessor of position `i` around a polygon of `n` corners.
pub open spec fn prev_index(i: int, n: int) -> int {
    if i == 0 { n - 1 } else { i - 1 }
}

/// `w` is next to `v` around the polygon `s`.
pub open spec fn neighbor_in(s: Seq<usize>, v: usize, w: usize) -> bool {
    exists|i: int|
        0 <= i < s.len() && #[trigger] s[i] == v && (w == s[prev_index(i, s.len() as int)] || w
            == s[next_index(i, s.len() as int)])
}

/// A copy of a list of triangles.
pub(crate) fn copy_triangles(t: &Vec<[usize; 3]>) -> (r: Vec<[usize; 3]>)
    ensures
        r@ == t@,
{
    let mut r: Vec<[usize; 3]> = Vec::new();
    let mut i: usize = 0;
    while i < t.len()
        invariant
            i <= t@.len(),
            r@ == t@.subrange(0, i as int),
        decreases t@.len() - i,
    {
        r.push(t[i]);
        i = i + 1;
        proof {
            assert(r@ =~= t@.subrange(0, i as int));
        }
    }
    proof {
        assert(r@ =~= t@);
    }
    r
}

/// Whether `p` occurs in `s`.
pub(crate) fn contains_pair(s: &Vec<(usize, usize)>, p: (usize, usize)) -> (r: bool)
    ensures
        r == s@.contains(p),
{
    let mut i: usize = 0;
    while i < s.len()
        invariant
            i <= s@.len(),
            forall|j: int| 0 <= j < i ==> s@[j] != p,
        decreases s@.len() - i,
    {
        let q = s[i];
        if q.0 == p.0 && q.1 == p.1 {
            proof {
                assert(s@[i as int] == p);
            }
            return true;
        }
        i = i + 1;
    }
    false
}

/// The position of `x` in `s`, if it occurs.
pub(crate) fn position_of(s: &Vec<usize>, x: usize) -> (r: Option<usize>)
    ensures
        match r {
            Some(i) => i < s@.len() && s@[i as int] == x,
            None => !s@.contains(x),
        },
{
    let mut i: usize = 0;
    while i < s.len()
        invariant
            i <= s@.len(),
            forall|j: int| 0 <= j < i ==> s@[j] != x,
        decreases s@.len() - i,
    {
        if s[i] == x {
            return Some(i);
        }
        i = i + 1;
    }
    None
}

proof fn lemma_neighbor_at(s: Seq<usize>, v: usize, p: int, w: usize)
    requires
        s.no_duplicates(),
        0 <= p < s.len(),
        s[p] == v,
    ensures
        neighbor_in(s, v, w) == (w == s[prev_index(p, s.len() as int)] || w == s[next_index(p, s.len() as int)]),
{
    if neighbor_in(s, v, w) {
        let i = choose|i: int|
            0 <= i < s.len() && #[trigger] s[i] == v && (w == s[prev_index(i, s.len() as int)] || w
                == s[next_index(i, s.len() as int)]);
        lemma_side_unique(s, i, p);
    }
}

proof fn lemma_prefix_push<A>(s: Seq<A>, i: int)
    requires
        0 <= i < s.len(),
    ensures
        forall|x: A| #[trigger] s.subrange(0, i + 1).contains(x) <==> (s.subrange(0, i).contains(x) || x == s[i]),
{
    let pre = s.subrange(0, i);
    let post = s.subrange(0, i + 1);
    assert forall|x: A| #[trigger] post.contains(x) <==> (pre.contains(x) || x == s[i]) by {
        if post.contains(x) {
            let k = choose|k: int| 0 <= k < post.len() && post[k] == x;
            if k < i { assert(pre[k] == x); }
        }
        if pre.contains(x) {
            let k = choose|k: int| 0 <= k < pre.len() && pre[k] == x;
            assert(post[k] == x);
        }
        if x == s[i] {
            assert(post[i] == x);
        }
    }
}

/// The counter after keys `keys` were inserted in order, starting from `c`:
/// each key at or past the counter moves it to one past that key.
pub open spec fn counter_after(c: nat, keys: Seq<usize>) -> nat
    decreases keys.len(),
{
    if keys.len() == 0 {
        c
    } else {
        let before = counter_after(c, keys.drop_last());
        if keys.last() >= before {
            (keys.last() + 1) as nat
        } else {
            before
        }
    }
}

/// The faces of `faces` that are valid polygons over the vertex keys `dom`,
/// in order.
pub open spec fn accepted_faces(faces: Seq<(usize, Vec<usize>)>, dom: Set<usize>) -> Seq<(usize, Seq<usize>)>
    decreases faces.len(),
{
    if faces.len() == 0 {
        Seq::empty()
    } else {
        let rest = accepted_faces(faces.drop_last(), dom);
        if valid_polygon(faces.last().1@, dom) {
            rest.push((faces.last().0, faces.last().1@))
        } else {
            rest
        }
    }
}

/// The halfedges made by adding the faces `faces`, in order and under their
/// own keys, to a mesh that has none.
pub open spec fn replayed_sides(faces: Seq<(usize, Seq<usize>)>) -> Map<(usize, usize), Option<usize>>
    decreases faces.len(),
{
    if faces.len() == 0 {
        Map::empty()
    } else {
        with_face_sides(replayed_sides(faces.drop_last()), faces.last().1, faces.last().0)
    }
}

/// The first components of a list of pairs.
pub open spec fn firsts<A, B>(s: Seq<(A, B)>) -> Seq<A> {
    s.map_values(|e: (A, B)| e.0)
}

/// A halfedge mesh. Vertices and faces are named by integer keys; the
/// directed halfedge `u -> v` records the face whose boundary runs from `u`
/// to `v`, or `None` where no face has claimed it yet (a boundary halfedge).
///
/// `V` is the vertex payload (its position and attributes); the mesh never
/// looks inside it.
pub struct Mesh<V> {
    vertex: HashMap<usize, V>,
    face: HashMap<usize, Vec<usize>>,
    halfedge: HashMap<usize, HashMap<usize, Option<usize>>>,
    triangulation: HashMap<usize, Vec<[usize; 3]>>,
    vertex_order: Vec<usize>,
    face_order: Vec<usize>,
    halfedge_order: Vec<(usize, usize)>,
    max_vertex: usize,
    max_face: usize,
    guid: Uuid,
    name: String,
}

impl<V> Mesh<V> {
    /// The vertices: key to payload.
    pub closed spec fn vertices(&self) -> Map<usize, V> {
        self.vertex@
    }

    /// The faces: key to the ordered list of its vertex keys.
    pub closed spec fn faces(&self) -> Map<usize, Seq<usize>> {
        self.face@.map_values(|f: Vec<usize>| f@)
    }

    /// The directed halfedges: `(u, v)` to the face that owns `u -> v`.
    pub closed spec fn halfedges(&self) -> Map<(usize, usize), Option<usize>> {
        Map::new(
            |p: (usize, usize)| self.halfedge@.contains_key(p.0) && self.halfedge@[p.0]@.contains_key(p.1),
            |p: (usize, usize)| self.halfedge@[p.0]@[p.1],
        )
    }

    /// The cached triangulations: face key to its triangles.
    pub closed spec fn cached_triangulations(&self) -> Map<usize, Seq<[usize; 3]>> {
        self.triangulation@.map_values(|t: Vec<[usize; 3]>| t@)
    }

    /// The undirected edges, each written once as `(smaller, larger)`.
    pub open spec fn edges(&self) -> Set<(usize, usize)> {
        Set::new(
            |p: (usize, usize)|
                p.0 < p.1 && (self.halfedges().contains_key(p) || self.halfedges().contains_key((p.1, p.0))),
        )
    }

    /// The counter from which the next automatic vertex key is drawn.
    pub closed spec fn vertex_counter(&self) -> nat {
        self.max_vertex as nat
    }

    /// The counter from which the next automatic face key is drawn.
    pub closed spec fn face_counter(&self) -> nat {
        self.max_face as nat
    }

    /// The mesh's name.
    pub closed spec fn name_view(&self) -> Seq<char> {
        self.name@
    }

    /// The mesh's unique identifier.
    pub closed spec fn guid_view(&self) -> Uuid {
        self.guid
    }

    /// Every vertex key is below the vertex counter and every face key below
    /// the face counter, so automatic keys are never reused.
    pub open spec fn keys_below_counters(&self) -> bool {
        &&& forall|k: usize| #[trigger] self.vertices().contains_key(k) ==> k < self.vertex_counter()
        &&& forall|k: usize| #[trigger] self.faces().contains_key(k) ==> k < self.face_counter()
    }

    /// In a well-formed mesh every halfedge joins two different existing
    /// vertices, and its reverse is a halfedge too.
    pub proof fn lemma_halfedges_join_vertices(&self)
        requires
            self.wf(),
        ensures
            forall|p: (usize, usize)|
                #[trigger] self.halfedges().contains_key(p) ==> {
                    &&& p.0 != p.1
                    &&& self.vertices().contains_key(p.0)
                    &&& self.vertices().contains_key(p.1)
                    &&& self.halfedges().contains_key((p.1, p.0))
                },
    {
        assert forall|p: (usize, usize)| #[trigger] self.halfedges().contains_key(p) implies {
            &&& p.0 != p.1
            &&& self.vertices().contains_key(p.0)
            &&& self.vertices().contains_key(p.1)
            &&& self.halfedges().contains_key((p.1, p.0))
        } by {
            self.lemma_halfedge_at(p.0, p.1);
            self.lemma_halfedge_at(p.1, p.0);
        }
    }

    /// A well-formed mesh keeps its keys below its counters.
    pub proof fn lemma_keys_below_counters(&self)
        requires
            self.wf(),
        ensures
            self.keys_below_counters(),
    {
    }

    spec fn has_he(&self, u: usize, v: usize) -> bool {
        self.halfedge@.contains_key(u) && self.halfedge@[u]@.contains_key(v)
    }

    proof fn lemma_halfedge_at(&self, u: usize, v: usize)
        ensures
            self.halfedges().contains_key((u, v)) == self.has_he(u, v),
            self.has_he(u, v) ==> self.halfedges()[(u, v)] == self.halfedge@[u]@[v],
    {
    }

    spec fn face_edges_recorded(&self, s: Seq<usize>) -> bool {
        forall|i: int|
            0 <= i < s.len() ==> {
                &&& #[trigger] self.has_he(s[i], s[next_index(i, s.len() as int)])
                &&& self.halfedge@[s[i]]@[s[next_index(i, s.len() as int)]].is_some()
            }
    }

    /// Well-formedness: the invariant that every operation keeps.
    pub closed spec fn wf(&self) -> bool {
        &&& self.vertex_order@.no_duplicates()
        &&& self.vertex_order@.to_set() == self.vertex@.dom()
        &&& self.face_order@.no_duplicates()
        &&& self.face_order@.to_set() == self.face@.dom()
        &&& self.halfedge_order@.no_duplicates()
        &&& forall|u: usize, v: usize|
            #[trigger] self.has_he(u, v) <==> self.halfedge_order@.contains((u, v))
        &&& forall|u: usize, v: usize|
            #[trigger] self.has_he(u, v) ==> {
                &&& u != v
                &&& self.vertex@.contains_key(u)
                &&& self.vertex@.contains_key(v)
                &&& self.has_he(v, u)
            }
        &&& forall|f: usize|
            #[trigger] self.face@.contains_key(f) ==> {
                &&& valid_polygon(self.face@[f]@, self.vertex@.dom())
                &&& self.face_edges_recorded(self.face@[f]@)
            }
        &&& forall|k: usize| #[trigger] self.vertex@.contains_key(k) ==> k < self.max_vertex
        &&& forall|k: usize| #[trigger] self.face@.contains_key(k) ==> k < self.max_face
        &&& forall|f: usize|
            #[trigger] self.triangulation@.contains_key(f) ==> {
                &&& self.face@.contains_key(f)
                &&& triangulates(self.face@[f]@, self.triangulation@[f]@)
            }
    }

    /// Create an empty mesh named "Mesh" with a fresh identifier.
    pub fn new() -> (r: Self)
        ensures
            r.wf(),
            r.vertices().is_empty(),
            r.faces().is_empty(),
            r.halfedges().is_empty(),
            r.cached_triangulations().is_empty(),
            r.vertex_counter() == 0,
            r.face_counter() == 0,
            r.name_view() == "Mesh"@,
    {
        let r = Mesh {
            vertex: HashMap::new(),
            face: HashMap::new(),
            halfedge: HashMap::new(),
            triangulation: HashMap::new(),
            vertex_order: Vec::new(),
            face_order: Vec::new(),
            halfedge_order: Vec::new(),
            max_vertex: 0,
            max_face: 0,
            guid: new_guid(),
            name: "Mesh".to_string(),
        };
        assert(r.vertex_order@.to_set() =~= r.vertex@.dom());
        assert(r.face_order@.to_set() =~= r.face@.dom());
        assert(r.halfedges() =~= Map::empty());
        assert(r.faces() =~= Map::empty());
        assert(r.cached_triangulations() =~= Map::empty());
        r
    }

    /// True when the mesh has no vertices and no faces.
    pub fn is_empty(&self) -> (r: bool)
        ensures
            r == (self.vertices().is_empty() && self.faces().is_empty()),
    {
        proof {
            assert(self.faces().dom() =~= self.face@.dom());
        }
        self.vertex.is_empty() && self.face.is_empty()
    }

    /// Number of vertices.
    pub fn number_of_vertices(&self) -> (r: usize)
        ensures
            r == self.vertices().len(),
    {
        self.vertex.len()
    }

    /// Number of faces.
    pub fn number_of_faces(&self) -> (r: usize)
        ensures
            r == self.faces().len(),
    {
        proof {
            assert(self.faces().dom() =~= self.face@.dom());
        }
        self.face.len()
    }

    /// Add a vertex holding `position`. With `key` given, the vertex takes that
    /// key (replacing the payload of a vertex already there); otherwise the
    /// counter is advanced and its new value is the key. The counter is then
    /// moved past the key, so automatic keys are never reused.
    pub fn add_vertex(&mut self, position: V, key: Option<usize>) -> (r: usize)
        requires
            old(self).wf(),
            match key {
                Some(k) => k < usize::MAX,
                None => old(self).vertex_counter() + 2 <= usize::MAX,
            },
        ensures
            final(self).wf(),
            match key {
                Some(k) => r == k,
                None => r == old(self).vertex_counter() + 1 && !old(self).vertices().contains_key(r),
            },
            final(self).vertices() == old(self).vertices().insert(r, position),
            final(self).vertices().len() == old(self).vertices().len() + if old(self).vertices().contains_key(r) {
                0int
            } else {
                1int
            },
            final(self).faces() == old(self).faces(),
            final(self).halfedges() == old(self).halfedges(),
            final(self).edges() == old(self).edges(),
            final(self).cached_triangulations() == old(self).cached_triangulations(),
            final(self).vertex_counter() == if r >= old(self).vertex_counter() {
                r + 1
            } else {
                old(self).vertex_counter() as int
            },
            final(self).face_counter() == old(self).face_counter(),
            final(self).name_view() == old(self).name_view(),
    {
        let vertex_key: usize = match key {
            Some(k) => k,
            None => {
                self.max_vertex = self.max_vertex + 1;
                self.max_vertex
            },
        };
        if vertex_key >= self.max_vertex {
            self.max_vertex = vertex_key + 1;
        }
        let ghost old_vertex = self.vertex@;
        if !self.vertex.contains_key(&vertex_key) {
            proof {
                broadcast use vstd::seq_lib::group_seq_properties;
            }
            self.vertex_order.push(vertex_key);
        }
        self.vertex.insert(vertex_key, position);
        if !self.halfedge.contains_key(&vertex_key) {
            self.halfedge.insert(vertex_key, HashMap::new());
        }
        proof {
            broadcast use vstd::seq_lib::group_seq_properties;
            assert(self.vertex_order@.to_set() =~= self.vertex@.dom());
            assert(forall|u: usize, v: usize| #[trigger] self.has_he(u, v) == old(self).has_he(u, v));
            assert(forall|u: usize, v: usize| self.has_he(u, v) ==> self.halfedge@[u]@[v] == old(self).halfedge@[u]@[v]);
            assert forall|f: usize| #[trigger] self.face@.contains_key(f) implies {
                &&& valid_polygon(self.face@[f]@, self.vertex@.dom())
                &&& self.face_edges_recorded(self.face@[f]@)
            } by {
                let s = self.face@[f]@;
                assert(old(self).face_edges_recorded(s));
                assert forall|i: int| 0 <= i < s.len() implies {
                    &&& #[trigger] self.has_he(s[i], s[next_index(i, s.len() as int)])
                    &&& self.halfedge@[s[i]]@[s[next_index(i, s.len() as int)]].is_some()
                } by {
                    assert(old(self).has_he(s[i], s[next_index(i, s.len() as int)]));
                }
            }
            assert(self.halfedges() =~= old(self).halfedges());
            assert(self.vertex@.dom() =~= old(self).vertex@.dom().insert(vertex_key));
        }
        vertex_key
    }

    /// Add a face through `vertices`, in order. It is refused (`None`, mesh
    /// unchanged) when it has fewer than three vertices, names a vertex that
    /// does not exist, or names one twice. Otherwise the face takes key
    /// `fkey`, or the advanced counter when none is given; its cached
    /// triangulation is dropped; each side `u -> v` becomes owned by the face,
    /// and its reverse `v -> u` is added as a boundary halfedge if absent.
    pub fn add_face(&mut self, vertices: Vec<usize>, fkey: Option<usize>) -> (r: Option<usize>)
        requires
            old(self).wf(),
            match fkey {
                Some(k) => k < usize::MAX,
                None => old(self).face_counter() + 2 <= usize::MAX,
            },
        ensures
            final(self).wf(),
            r.is_some() == valid_polygon(vertices@, old(self).vertices().dom()),
            r.is_none() ==> *final(self) == *old(self),
            r.is_some() ==> {
                let k = r.unwrap();
                &&& k == match fkey {
                    Some(k) => k,
                    None => (old(self).face_counter() + 1) as usize,
                }
                &&& fkey.is_none() ==> !old(self).faces().contains_key(k)
                &&& final(self).faces() == old(self).faces().insert(k, vertices@)
                &&& final(self).faces().len() == old(self).faces().len() + if old(self).faces().contains_key(k) {
                    0int
                } else {
                    1int
                }
                &&& final(self).vertices() == old(self).vertices()
                &&& final(self).halfedges() == with_face_sides(old(self).halfedges(), vertices@, k)
                &&& final(self).cached_triangulations() == old(self).cached_triangulations().remove(k)
                &&& final(self).vertex_counter() == old(self).vertex_counter()
                &&& final(self).face_counter() == if k >= old(self).face_counter() {
                    k + 1
                } else {
                    old(self).face_counter() as int
                }
                &&& final(self).name_view() == old(self).name_view()
            },
    {
        let n = vertices.len();
        if n < 3 {
            return None;
        }
        let mut i: usize = 0;
        while i < n
            invariant
                n == vertices@.len(),
                *self == *old(self),
                self.wf(),
                forall|j: int| 0 <= j < i ==> self.vertex@.contains_key(#[trigger] vertices@[j]),
            decreases n - i,
        {
            if !self.vertex.contains_key(&vertices[i]) {
                return None;
            }
            i = i + 1;
        }
        let mut seen: HashSet<usize> = HashSet::new();
        i = 0;
        while i < n
            invariant
                n == vertices@.len(),
                *self == *old(self),
                self.wf(),
                forall|j: int| 0 <= j < n ==> self.vertex@.contains_key(#[trigger] vertices@[j]),
                i <= n,
                seen@ == vertices@.subrange(0, i as int).to_set(),
                vertices@.subrange(0, i as int).no_duplicates(),
            decreases n - i,
        {
            proof {
                broadcast use vstd::seq_lib::group_seq_properties;
            }
            let ghost pre = vertices@.subrange(0, i as int);
            if !seen.insert(vertices[i]) {
                proof {
                    broadcast use vstd::seq_lib::group_seq_properties;
                    assert(pre.contains(vertices@[i as int]));
                    let j = choose|j: int| 0 <= j < pre.len() && pre[j] == vertices@[i as int];
                    assert(vertices@[j] == vertices@[i as int] && j != i);
                }
                return None;
            }
            proof {
                assert(vertices@.subrange(0, i + 1) =~= pre.push(vertices@[i as int]));
                assert(!pre.contains(vertices@[i as int]));
            }
            i = i + 1;
        }
        proof {
            assert(vertices@.subrange(0, n as int) =~= vertices@);
        }
        let face_key: usize = match fkey {
            Some(k) => k,
            None => {
                self.max_face = self.max_face + 1;
                self.max_face
            },
        };
        if face_key >= self.max_face {
            self.max_face = face_key + 1;
        }
        if !self.face.contains_key(&face_key) {
            proof {
                broadcast use vstd::seq_lib::group_seq_properties;
            }
            self.face_order.push(face_key);
        }
        self.face.insert(face_key, vertices.clone());
        self.triangulation.remove(&face_key);
        let ghost s = vertices@;
        let ghost h0 = old(self).halfedges();
        proof {
            broadcast use vstd::seq_lib::group_seq_properties;
            assert(self.face_order@.to_set() =~= self.face@.dom());
            assert(self.halfedges() =~= record_sides(h0, s, face_key, 0));
            assert forall|a: usize, b: usize|
                #[trigger] self.has_he(a, b) <==> self.halfedge_order@.contains((a, b)) by {
                assert(old(self).has_he(a, b) == self.has_he(a, b));
            }
        }
        i = 0;
        while i < n
            invariant
                n == s.len(),
                s == vertices@,
                i <= n,
                valid_polygon(s, self.vertex@.dom()),
                self.vertex@ == old(self).vertex@,
                self.vertex_order == old(self).vertex_order,
                self.face@ == old(self).face@.insert(face_key, self.face@[face_key]),
                self.face@[face_key]@ == s,
                self.face_order@.no_duplicates(),
                self.face_order@.to_set() == self.face@.dom(),
                self.triangulation@ == old(self).triangulation@.remove(face_key),
                self.max_vertex == old(self).max_vertex,
                face_key < self.max_face,
                old(self).max_face <= self.max_face,
                self.max_face == (if face_key >= old(self).max_face { face_key + 1 } else { old(self).max_face as int }),
                self.name == old(self).name,
                self.guid == old(self).guid,
                self.halfedges() == record_sides(h0, s, face_key, i as int),
                self.halfedge_order@.no_duplicates(),
                forall|u: usize, v: usize|
                    #[trigger] self.has_he(u, v) <==> self.halfedge_order@.contains((u, v)),
            decreases n - i,
        {
            let j: usize = if i + 1 == n { 0 } else { i + 1 };
            let u = vertices[i];
            let v = vertices[j];
            let ghost pre = *self;
            let ghost hp = self.halfedges();
            proof {
                lemma_no_reverse_side(s, i as int, i as int);
                assert(u != v) by {
                    if u == v { lemma_side_unique(s, i as int, j as int); }
                }
            }
            let mut row_u: HashMap<usize, Option<usize>> = match self.halfedge.remove(&u) {
                Some(row) => row,
                None => HashMap::new(),
            };
            let fresh_uv = !row_u.contains_key(&v);
            row_u.insert(v, Some(face_key));
            self.halfedge.insert(u, row_u);
            if fresh_uv {
                proof {
                    assert(!pre.has_he(u, v));
                    lemma_push_distinct(self.halfedge_order@, (u, v));
                }
                self.halfedge_order.push((u, v));
            }
            let mut row_v: HashMap<usize, Option<usize>> = match self.halfedge.remove(&v) {
                Some(row) => row,
                None => HashMap::new(),
            };
            if !row_v.contains_key(&u) {
                row_v.insert(u, None);
                proof {
                    assert(!pre.has_he(v, u));
                    assert(!pre.halfedge_order@.contains((v, u)));
                    assert(!self.halfedge_order@.contains((v, u))) by {
                        broadcast use vstd::seq_lib::group_seq_properties;
                    }
                    lemma_push_distinct(self.halfedge_order@, (v, u));
                }
                self.halfedge_order.push((v, u));
            }
            self.halfedge.insert(v, row_v);
            proof {
                broadcast use vstd::seq_lib::group_seq_properties;
                let target = record_sides(h0, s, face_key, i + 1);
                assert forall|a: usize, b: usize|
                    side_among(s, i + 1, a, b) == (side_among(s, i as int, a, b) || (a == u && b == v)) by {
                    if side_among(s, i + 1, a, b) {
                        let w = choose|w: int| 0 <= w < i + 1 && #[trigger] s[w] == a && s[next_index(w, s.len() as int)] == b;
                        if w < i { assert(side_among(s, i as int, a, b)); }
                    }
                    if a == u && b == v {
                        assert(s[i as int] == a && s[next_index(i as int, s.len() as int)] == b);
                    }
                    if side_among(s, i as int, a, b) {
                        let w = choose|w: int| 0 <= w < i && #[trigger] s[w] == a && s[next_index(w, s.len() as int)] == b;
                        assert(0 <= w < i + 1);
                    }
                }
                assert(!side_among(s, i + 1, v, u)) by {
                    if side_among(s, i + 1, v, u) {
                        let w = choose|w: int| 0 <= w < i + 1 && #[trigger] s[w] == v && s[next_index(w, s.len() as int)] == u;
                        lemma_no_reverse_side(s, i as int, w);
                    }
                }
                assert forall|a: usize, b: usize|
                    #[trigger] self.has_he(a, b) == (pre.has_he(a, b) || (a == u && b == v) || (a == v && b == u)) by {}
                assert forall|a: usize, b: usize|
                    self.has_he(a, b) && !(a == u && b == v) && !(a == v && b == u)
                    implies #[trigger] self.halfedge@[a]@[b] == pre.halfedge@[a]@[b] by {}
                assert forall|p: (usize, usize)| #[trigger] self.halfedges().contains_key(p) == target.contains_key(p) by {
                    assert(self.halfedges().contains_key(p) == self.has_he(p.0, p.1));
                    assert(hp.contains_key(p) == pre.has_he(p.0, p.1));
                }
                assert forall|p: (usize, usize)| #[trigger] self.halfedges().contains_key(p)
                    implies self.halfedges()[p] == target[p] by {
                    self.lemma_halfedge_at(p.0, p.1);
                    pre.lemma_halfedge_at(p.0, p.1);
                    assert(side_among(s, i + 1, p.0, p.1) == (side_among(s, i as int, p.0, p.1) || (p.0 == u && p.1 == v)));
                    if p == (u, v) {
                        assert(self.halfedge@[u]@[v] == Some(face_key));
                    } else if p == (v, u) {
                        assert(!side_among(s, i as int, v, u));
                        if pre.has_he(v, u) {
                            assert(self.halfedge@[v]@[u] == pre.halfedge@[v]@[u]);
                        } else {
                            assert(self.halfedge@[v]@[u] == None::<usize>);
                            assert(!h0.contains_key(p));
                        }
                    } else {
                        assert(self.halfedge@[p.0]@[p.1] == pre.halfedge@[p.0]@[p.1]);
                    }
                }
                assert(self.halfedges() =~= target);
                assert forall|a: usize, b: usize|
                    #[trigger] self.has_he(a, b) <==> self.halfedge_order@.contains((a, b)) by {
                    assert(pre.has_he(a, b) <==> pre.halfedge_order@.contains((a, b)));
                }
            }
            i = i + 1;
        }
        proof {
            self.lemma_wf_after_face(*old(self), s, face_key);
            assert(self.faces().dom() =~= self.face@.dom());
            assert(old(self).faces().dom() =~= old(self).face@.dom());
            assert(old(self).face@.dom().finite());
            assert(self.faces().dom() =~= old(self).faces().dom().insert(face_key));
        }
        Some(face_key)
    }

    /// Changing only the cache, to entries that are triangulations of their
    /// faces, keeps the mesh well formed.
    proof fn lemma_wf_cache_only(&self, prev: Self)
        requires
            prev.wf(),
            self.vertex == prev.vertex,
            self.face == prev.face,
            self.halfedge == prev.halfedge,
            self.vertex_order == prev.vertex_order,
            self.face_order == prev.face_order,
            self.halfedge_order == prev.halfedge_order,
            prev.max_vertex <= self.max_vertex || self.vertex@.is_empty(),
            prev.max_face <= self.max_face || self.face@.is_empty(),
            forall|f: usize|
                #[trigger] self.triangulation@.contains_key(f) ==> {
                    &&& self.face@.contains_key(f)
                    &&& triangulates(self.face@[f]@, self.triangulation@[f]@)
                },
        ensures
            self.wf(),
    {
        assert forall|u: usize, v: usize| #[trigger] self.has_he(u, v) == prev.has_he(u, v) by {}
        assert forall|f: usize| #[trigger] self.face@.contains_key(f) implies self.face_edges_recorded(self.face@[f]@) by {
            let t = self.face@[f]@;
            assert(prev.face_edges_recorded(t));
            assert forall|i: int| 0 <= i < t.len() implies {
                &&& #[trigger] self.has_he(t[i], t[next_index(i, t.len() as int)])
                &&& self.halfedge@[t[i]]@[t[next_index(i, t.len() as int)]].is_some()
            } by {
                assert(prev.has_he(t[i], t[next_index(i, t.len() as int)]));
            }
        }
    }

    proof fn lemma_wf_after_face(&self, prev: Self, s: Seq<usize>, k: usize)
        requires
            prev.wf(),
            valid_polygon(s, prev.vertex@.dom()),
            self.vertex@ == prev.vertex@,
            self.vertex_order == prev.vertex_order,
            self.face@ == prev.face@.insert(k, self.face@[k]),
            self.face@[k]@ == s,
            self.face_order@.no_duplicates(),
            self.face_order@.to_set() == self.face@.dom(),
            self.triangulation@ == prev.triangulation@.remove(k),
            self.halfedges() == with_face_sides(prev.halfedges(), s, k),
            self.halfedge_order@.no_duplicates(),
            forall|u: usize, v: usize|
                #[trigger] self.has_he(u, v) <==> self.halfedge_order@.contains((u, v)),
            self.max_vertex == prev.max_vertex,
            k < self.max_face,
            prev.max_face <= self.max_face,
        ensures
            self.wf(),
    {
        let h0 = prev.halfedges();
        assert forall|u: usize, v: usize| #[trigger] self.has_he(u, v) implies {
            &&& u != v
            &&& self.vertex@.contains_key(u)
            &&& self.vertex@.contains_key(v)
            &&& self.has_he(v, u)
        } by {
            self.lemma_halfedge_at(u, v);
            self.lemma_halfedge_at(v, u);
            prev.lemma_halfedge_at(u, v);
            prev.lemma_halfedge_at(v, u);
            if h0.contains_key((u, v)) {
                assert(prev.has_he(u, v));
                assert(h0.contains_key((v, u)));
            } else if is_side(s, u, v) {
                let w = choose|w: int| 0 <= w < s.len() && #[trigger] s[w] == u && s[next_index(w, s.len() as int)] == v;
                let w2 = next_index(w, s.len() as int);
                assert(u != v) by {
                    if u == v { lemma_side_unique(s, w, w2); }
                }
                assert(self.vertex@.contains_key(s[w]));
                assert(self.vertex@.contains_key(s[w2]));
                assert(self.halfedges().contains_key((v, u)));
            } else {
                let w = choose|w: int| 0 <= w < s.len() && #[trigger] s[w] == v && s[next_index(w, s.len() as int)] == u;
                let w2 = next_index(w, s.len() as int);
                assert(u != v) by {
                    if u == v { lemma_side_unique(s, w, w2); }
                }
                assert(self.vertex@.contains_key(s[w]));
                assert(self.vertex@.contains_key(s[w2]));
                assert(self.halfedges().contains_key((v, u)));
            }
        }
        assert forall|f: usize| #[trigger] self.face@.contains_key(f) implies {
            &&& valid_polygon(self.face@[f]@, self.vertex@.dom())
            &&& self.face_edges_recorded(self.face@[f]@)
        } by {
            let t = self.face@[f]@;
            if f == k {
                assert forall|i: int| 0 <= i < t.len() implies {
                    &&& #[trigger] self.has_he(t[i], t[next_index(i, t.len() as int)])
                    &&& self.halfedge@[t[i]]@[t[next_index(i, t.len() as int)]].is_some()
                } by {
                    let p = (t[i], t[next_index(i, t.len() as int)]);
                    self.lemma_halfedge_at(p.0, p.1);
                    assert(side_among(s, s.len() as int, p.0, p.1));
                    assert(self.halfedges().contains_key(p));
                    assert(self.halfedges()[p] == Some(k));
                }
            } else {
                assert(prev.face@.contains_key(f));
                assert(prev.face_edges_recorded(t));
                assert forall|i: int| 0 <= i < t.len() implies {
                    &&& #[trigger] self.has_he(t[i], t[next_index(i, t.len() as int)])
                    &&& self.halfedge@[t[i]]@[t[next_index(i, t.len() as int)]].is_some()
                } by {
                    let p = (t[i], t[next_index(i, t.len() as int)]);
                    self.lemma_halfedge_at(p.0, p.1);
                    prev.lemma_halfedge_at(p.0, p.1);
                    assert(prev.has_he(p.0, p.1));
                    assert(h0.contains_key(p));
                    assert(self.halfedges().contains_key(p));
                }
            }
        }
    }

    /// Number of undirected edges: unordered vertex pairs joined by a
    /// halfedge in either direction.
    pub fn number_of_edges(&self) -> (r: usize)
        requires
            self.wf(),
        ensures
            r == self.edges().len(),
    {
        let n = self.halfedge_order.len();
        let mut count: usize = 0;
        let mut i: usize = 0;
        let ghost mut seen: Set<(usize, usize)> = Set::empty();
        while i < n
            invariant
                self.wf(),
                n == self.halfedge_order@.len(),
                i <= n,
                count <= i,
                seen.finite(),
                count == seen.len(),
                forall|p: (usize, usize)|
                    #[trigger] seen.contains(p) <==> (self.halfedge_order@.subrange(0, i as int).contains(p) && p.0 < p.1),
            decreases n - i,
        {
            let (u, v) = self.halfedge_order[i];
            proof {
                let pre = self.halfedge_order@.subrange(0, i as int);
                let post = self.halfedge_order@.subrange(0, i + 1);
                assert(post =~= pre.push((u, v)));
                assert(!pre.contains((u, v))) by {
                    if pre.contains((u, v)) {
                        let k = choose|k: int| 0 <= k < pre.len() && pre[k] == (u, v);
                        assert(self.halfedge_order@[k] == self.halfedge_order@[i as int]);
                    }
                }
                assert forall|p: (usize, usize)| post.contains(p) <==> (pre.contains(p) || p == (u, v)) by {
                    if post.contains(p) && p != (u, v) {
                        let k = choose|k: int| 0 <= k < post.len() && post[k] == p;
                        assert(pre[k] == p);
                    }
                    if pre.contains(p) {
                        let k = choose|k: int| 0 <= k < pre.len() && pre[k] == p;
                        assert(post[k] == p);
                    }
                    if p == (u, v) {
                        assert(post[i as int] == p);
                    }
                }
                if u < v {
                    seen = seen.insert((u, v));
                }
            }
            if u < v {
                count = count + 1;
            }
            i = i + 1;
        }
        proof {
            assert(self.halfedge_order@.subrange(0, n as int) =~= self.halfedge_order@);
            assert forall|p: (usize, usize)| #[trigger] seen.contains(p) <==> self.edges().contains(p) by {
                self.lemma_halfedge_at(p.0, p.1);
                self.lemma_halfedge_at(p.1, p.0);
                if self.has_he(p.1, p.0) {
                    assert(self.has_he(p.0, p.1));
                }
            }
            assert(seen =~= self.edges());
        }
        count
    }

    /// The Euler characteristic: vertices minus edges plus faces.
    pub fn euler(&self) -> (r: i128)
        requires
            self.wf(),
        ensures
            r == self.vertices().len() - self.edges().len() + self.faces().len(),
    {
        let v = self.number_of_vertices();
        let e = self.number_of_edges();
        let f = self.number_of_faces();
        v as i128 - e as i128 + f as i128
    }

    /// The payload (position) of a vertex, if it exists.
    pub fn vertex_position(&self, vertex_key: usize) -> (r: Option<&V>)
        ensures
            match r {
                Some(p) => self.vertices().contains_key(vertex_key) && *p == self.vertices()[vertex_key],
                None => !self.vertices().contains_key(vertex_key),
            },
    {
        self.vertex.get(&vertex_key)
    }

    /// The ordered vertex keys of a face, if it exists.
    pub fn face_vertices(&self, face_key: usize) -> (r: Option<&Vec<usize>>)
        ensures
            match r {
                Some(f) => self.faces().contains_key(face_key) && f@ == self.faces()[face_key],
                None => !self.faces().contains_key(face_key),
            },
    {
        self.face.get(&face_key)
    }

    /// The keys of all vertices, each once, in order of first insertion.
    pub fn vertex_keys(&self) -> (r: Vec<usize>)
        requires
            self.wf(),
        ensures
            r@.no_duplicates(),
            r@.to_set() == self.vertices().dom(),
    {
        self.vertex_order.clone()
    }

    /// The keys of all faces, each once, in order of first insertion.
    pub fn face_keys(&self) -> (r: Vec<usize>)
        requires
            self.wf(),
        ensures
            r@.no_duplicates(),
            r@.to_set() == self.faces().dom(),
    {
        proof {
            assert(self.faces().dom() =~= self.face@.dom());
        }
        self.face_order.clone()
    }

    /// A halfedge that no face owns.
    pub open spec fn is_boundary_halfedge(&self, p: (usize, usize)) -> bool {
        self.halfedges().contains_key(p) && self.halfedges()[p].is_none()
    }

    /// The faces through a vertex, each once.
    pub fn vertex_faces(&self, vertex_key: usize) -> (r: Vec<usize>)
        requires
            self.wf(),
        ensures
            r@.no_duplicates(),
            forall|f: usize|
                #[trigger] r@.contains(f) <==> (self.faces().contains_key(f) && self.faces()[f].contains(vertex_key)),
    {
        let mut r: Vec<usize> = Vec::new();
        let n = self.face_order.len();
        let mut k: usize = 0;
        while k < n
            invariant
                self.wf(),
                n == self.face_order@.len(),
                k <= n,
                r@.no_duplicates(),
                forall|f: usize|
                    #[trigger] r@.contains(f) <==> (self.face_order@.subrange(0, k as int).contains(f)
                        && self.face@[f]@.contains(vertex_key)),
            decreases n - k,
        {
            let f = self.face_order[k];
            proof {
                lemma_prefix_push(self.face_order@, k as int);
                assert(self.face_order@.to_set().contains(f));
            }
            let fv = self.face.get(&f).unwrap();
            let ghost r0 = r@;
            let found = position_of(fv, vertex_key);
            proof {
                if let Some(p) = found {
                    assert(fv@[p as int] == vertex_key);
                    assert(self.face@[f]@.contains(vertex_key));
                }
            }
            if found.is_some() {
                proof {
                    assert(!self.face_order@.subrange(0, k as int).contains(f)) by {
                        if self.face_order@.subrange(0, k as int).contains(f) {
                            let j = choose|j: int| 0 <= j < k && self.face_order@.subrange(0, k as int)[j] == f;
                            assert(self.face_order@[j] == self.face_order@[k as int]);
                        }
                    }
                    lemma_push_distinct(r@, f);
                }
                r.push(f);
            }
            proof {
                assert forall|g: usize| #[trigger] r@.contains(g) <==> (r0.contains(g) || (g == f && found.is_some())) by {
                    broadcast use vstd::seq_lib::group_seq_properties;
                }
            }
            k = k + 1;
        }
        proof {
            assert(self.face_order@.subrange(0, n as int) =~= self.face_order@);
            assert forall|f: usize| self.face_order@.contains(f) == self.face@.contains_key(f) by {
                assert(self.face_order@.to_set().contains(f) == self.face_order@.contains(f));
            }
        }
        r
    }

    /// The vertices next to a vertex around any face through it, each once.
    pub fn vertex_neighbors(&self, vertex_key: usize) -> (r: Vec<usize>)
        requires
            self.wf(),
        ensures
            r@.no_duplicates(),
            forall|w: usize|
                #[trigger] r@.contains(w) <==> exists|f: usize|
                    self.faces().contains_key(f) && #[trigger] neighbor_in(self.faces()[f], vertex_key, w),
    {
        let mut r: Vec<usize> = Vec::new();
        let n = self.face_order.len();
        let mut k: usize = 0;
        while k < n
            invariant
                self.wf(),
                n == self.face_order@.len(),
                k <= n,
                r@.no_duplicates(),
                forall|w: usize|
                    #[trigger] r@.contains(w) <==> exists|j: int|
                        0 <= j < k && #[trigger] neighbor_in(self.face@[self.face_order@[j]]@, vertex_key, w),
            decreases n - k,
        {
            let f = self.face_order[k];
            proof {
                assert(self.face_order@.to_set().contains(f));
            }
            let fv = self.face.get(&f).unwrap();
            let ghost s = fv@;
            let ghost r0 = r@;
            match position_of(fv, vertex_key) {
                Some(p) => {
                    let len = fv.len();
                    let a = fv[if p == 0 { len - 1 } else { p - 1 }];
                    let b = fv[if p + 1 == len { 0 } else { p + 1 }];
                    if position_of(&r, a).is_none() {
                        proof { lemma_push_distinct(r@, a); }
                        r.push(a);
                    }
                    if position_of(&r, b).is_none() {
                        proof { lemma_push_distinct(r@, b); }
                        r.push(b);
                    }
                    proof {
                        assert forall|w: usize| #[trigger] r@.contains(w) <==> (r0.contains(w) || w == a || w == b) by {
                            broadcast use vstd::seq_lib::group_seq_properties;
                        }
                        assert forall|w: usize| #[trigger] r@.contains(w) <==> exists|j: int|
                            0 <= j < k + 1 && #[trigger] neighbor_in(self.face@[self.face_order@[j]]@, vertex_key, w) by {
                            lemma_neighbor_at(s, vertex_key, p as int, w);
                            if r0.contains(w) {
                                let j = choose|j: int| 0 <= j < k && #[trigger] neighbor_in(self.face@[self.face_order@[j]]@, vertex_key, w);
                            }
                            if exists|j: int| 0 <= j < k + 1 && #[trigger] neighbor_in(self.face@[self.face_order@[j]]@, vertex_key, w) {
                                let j = choose|j: int| 0 <= j < k + 1 && #[trigger] neighbor_in(self.face@[self.face_order@[j]]@, vertex_key, w);
                                if j < k {
                                    assert(r0.contains(w));
                                }
                            }
                            if w == a || w == b {
                                assert(neighbor_in(self.face@[self.face_order@[k as int]]@, vertex_key, w));
                            }
                        }
                    }
                },
                None => {
                    proof {
                        assert forall|w: usize| #[trigger] r@.contains(w) <==> exists|j: int|
                            0 <= j < k + 1 && #[trigger] neighbor_in(self.face@[self.face_order@[j]]@, vertex_key, w) by {
                            if r0.contains(w) {
                                let j = choose|j: int| 0 <= j < k && #[trigger] neighbor_in(self.face@[self.face_order@[j]]@, vertex_key, w);
                            }
                            if exists|j: int| 0 <= j < k + 1 && #[trigger] neighbor_in(self.face@[self.face_order@[j]]@, vertex_key, w) {
                                let j = choose|j: int| 0 <= j < k + 1 && #[trigger] neighbor_in(self.face@[self.face_order@[j]]@, vertex_key, w);
                                if j == k {
                                    let i = choose|i: int| 0 <= i < s.len() && #[trigger] s[i] == vertex_key && (w == s[prev_index(i, s.len() as int)] || w == s[next_index(i, s.len() as int)]);
                                    assert(s.contains(vertex_key));
                                }
                            }
                        }
                    }
                },
            }
            k = k + 1;
        }
        proof {
            assert forall|w: usize| #[trigger] r@.contains(w) <==> exists|f: usize|
                self.faces().contains_key(f) && #[trigger] neighbor_in(self.faces()[f], vertex_key, w) by {
                if r@.contains(w) {
                    let j = choose|j: int| 0 <= j < n && #[trigger] neighbor_in(self.face@[self.face_order@[j]]@, vertex_key, w);
                    let f = self.face_order@[j];
                    assert(self.face_order@.to_set().contains(f));
                    assert(self.faces().contains_key(f) && neighbor_in(self.faces()[f], vertex_key, w));
                }
                if exists|f: usize| self.faces().contains_key(f) && #[trigger] neighbor_in(self.faces()[f], vertex_key, w) {
                    let f = choose|f: usize| self.faces().contains_key(f) && #[trigger] neighbor_in(self.faces()[f], vertex_key, w);
                    assert(self.face_order@.to_set().contains(f));
                    let j = choose|j: int| 0 <= j < n && self.face_order@[j] == f;
                    assert(neighbor_in(self.face@[self.face_order@[j]]@, vertex_key, w));
                }
            }
        }
        r
    }

    /// True when some halfedge into or out of the vertex has no owning face.
    pub fn is_vertex_on_boundary(&self, vertex_key: usize) -> (r: bool)
        requires
            self.wf(),
        ensures
            r == exists|u: usize|
                self.is_boundary_halfedge((vertex_key, u)) || self.is_boundary_halfedge((u, vertex_key)),
    {
        let n = self.halfedge_order.len();
        let mut i: usize = 0;
        while i < n
            invariant
                self.wf(),
                n == self.halfedge_order@.len(),
                i <= n,
                forall|j: int|
                    0 <= j < i ==> {
                        let p = #[trigger] self.halfedge_order@[j];
                        (p.0 == vertex_key || p.1 == vertex_key) ==> !self.is_boundary_halfedge(p)
                    },
            decreases n - i,
        {
            let (a, b) = self.halfedge_order[i];
            proof {
                assert(self.halfedge_order@.contains((a, b)));
                assert(self.has_he(a, b));
                self.lemma_halfedge_at(a, b);
            }
            if a == vertex_key || b == vertex_key {
                let row = self.halfedge.get(&a).unwrap();
                let owner = row.get(&b).unwrap();
                if owner.is_none() {
                    proof {
                        if a == vertex_key {
                            assert(self.is_boundary_halfedge((vertex_key, b)));
                        } else {
                            assert(self.is_boundary_halfedge((a, vertex_key)));
                        }
                    }
                    return true;
                }
            }
            i = i + 1;
        }
        proof {
            assert forall|u: usize|
                !(self.is_boundary_halfedge((vertex_key, u)) || self.is_boundary_halfedge((u, vertex_key))) by {
                self.lemma_halfedge_at(vertex_key, u);
                self.lemma_halfedge_at(u, vertex_key);
                if self.is_boundary_halfedge((vertex_key, u)) {
                    assert(self.halfedge_order@.contains((vertex_key, u)));
                    let j = choose|j: int| 0 <= j < n && self.halfedge_order@[j] == (vertex_key, u);
                }
                if self.is_boundary_halfedge((u, vertex_key)) {
                    assert(self.halfedge_order@.contains((u, vertex_key)));
                    let j = choose|j: int| 0 <= j < n && self.halfedge_order@[j] == (u, vertex_key);
                }
            }
        }
        false
    }

    /// Every key of `s` names an existing vertex.
    pub open spec fn all_vertices(&self, s: Seq<usize>) -> bool {
        forall|i: int| 0 <= i < s.len() ==> self.vertices().contains_key(#[trigger] s[i])
    }

    /// Triangulate the polygon through `face_vertices` without touching the
    /// cache. Fewer than three keys, or more than three of which one names no
    /// vertex, give no triangle; exactly three give the polygon itself.
    pub fn triangulate_face_vertices<G: PolygonGeometry<V>>(&self, face_vertices: &Vec<usize>) -> (r: Vec<[usize; 3]>)
        ensures
            face_vertices@.len() < 3 ==> r@.len() == 0,
            face_vertices@.len() == 3 ==> r@ == seq![[face_vertices@[0], face_vertices@[1], face_vertices@[2]]],
            face_vertices@.len() > 3 && !self.all_vertices(face_vertices@) ==> r@.len() == 0,
            face_vertices@.len() > 3 && self.all_vertices(face_vertices@) ==> triangulates(face_vertices@, r@),
    {
        let n = face_vertices.len();
        if n > 3 {
            let mut i: usize = 0;
            while i < n
                invariant
                    n == face_vertices@.len(),
                    n > 3,
                    forall|j: int| 0 <= j < i ==> self.vertices().contains_key(#[trigger] face_vertices@[j]),
                decreases n - i,
            {
                if !self.vertex.contains_key(&face_vertices[i]) {
                    return Vec::new();
                }
                i = i + 1;
            }
        }
        let geom = G::of_face(self, face_vertices);
        triangulate_polygon(face_vertices, &geom)
    }

    /// Triangulate a face, store the result in the cache and return it;
    /// `None` when no such face exists.
    pub fn triangulate_face<G: PolygonGeometry<V>>(&mut self, face_key: usize) -> (r: Option<&Vec<[usize; 3]>>)
        requires
            old(self).wf(),
        ensures
            final(self).wf(),
            r.is_some() == old(self).faces().contains_key(face_key),
            final(self).vertices() == old(self).vertices(),
            final(self).faces() == old(self).faces(),
            final(self).halfedges() == old(self).halfedges(),
            final(self).vertex_counter() == old(self).vertex_counter(),
            final(self).face_counter() == old(self).face_counter(),
            final(self).name_view() == old(self).name_view(),
            match r {
                Some(t) => {
                    &&& triangulates(old(self).faces()[face_key], t@)
                    &&& final(self).cached_triangulations() == old(self).cached_triangulations().insert(face_key, t@)
                },
                None => final(self).cached_triangulations() == old(self).cached_triangulations(),
            },
    {
        let tris = match self.face.get(&face_key) {
            Some(vkeys) => {
                proof {
                    assert(self.face@.contains_key(face_key));
                    assert(self.all_vertices(vkeys@));
                }
                self.triangulate_face_vertices::<G>(vkeys)
            },
            None => {
                return None;
            },
        };
        let ghost prev = *self;
        self.triangulation.insert(face_key, tris);
        proof {
            self.lemma_wf_cache_only(prev);
            assert(self.cached_triangulations() =~= old(self).cached_triangulations().insert(face_key, tris@));
        }
        self.triangulation.get(&face_key)
    }

    /// The same as [`Mesh::triangulate_face`].
    pub fn get_face_triangulation<G: PolygonGeometry<V>>(&mut self, face_key: usize) -> (r: Option<&Vec<[usize; 3]>>)
        requires
            old(self).wf(),
        ensures
            final(self).wf(),
            r.is_some() == old(self).faces().contains_key(face_key),
            final(self).vertices() == old(self).vertices(),
            final(self).faces() == old(self).faces(),
            final(self).halfedges() == old(self).halfedges(),
            final(self).vertex_counter() == old(self).vertex_counter(),
            final(self).face_counter() == old(self).face_counter(),
            final(self).name_view() == old(self).name_view(),
            match r {
                Some(t) => {
                    &&& triangulates(old(self).faces()[face_key], t@)
                    &&& final(self).cached_triangulations() == old(self).cached_triangulations().insert(face_key, t@)
                },
                None => final(self).cached_triangulations() == old(self).cached_triangulations(),
            },
    {
        self.triangulate_face::<G>(face_key)
    }

    /// The cached triangulation of a face, if one is stored.
    pub fn face_triangulation_cached(&self, face_key: usize) -> (r: Option<&Vec<[usize; 3]>>)
        requires
            self.wf(),
        ensures
            match r {
                Some(t) => {
                    &&& self.cached_triangulations().contains_key(face_key)
                    &&& t@ == self.cached_triangulations()[face_key]
                    &&& triangulates(self.faces()[face_key], t@)
                },
                None => !self.cached_triangulations().contains_key(face_key),
            },
    {
        self.triangulation.get(&face_key)
    }

    /// Drop the cached triangulation of one face.
    pub fn invalidate_face_triangulation(&mut self, face_key: usize)
        requires
            old(self).wf(),
        ensures
            final(self).wf(),
            final(self).cached_triangulations() == old(self).cached_triangulations().remove(face_key),
            final(self).vertices() == old(self).vertices(),
            final(self).faces() == old(self).faces(),
            final(self).halfedges() == old(self).halfedges(),
            final(self).vertex_counter() == old(self).vertex_counter(),
            final(self).face_counter() == old(self).face_counter(),
            final(self).name_view() == old(self).name_view(),
    {
        let ghost prev = *self;
        self.triangulation.remove(&face_key);
        proof {
            self.lemma_wf_cache_only(prev);
            assert(self.cached_triangulations() =~= old(self).cached_triangulations().remove(face_key));
        }
    }

    /// Drop every cached triangulation.
    pub fn invalidate_all_triangulation(&mut self)
        requires
            old(self).wf(),
        ensures
            final(self).wf(),
            final(self).cached_triangulations().is_empty(),
            final(self).vertices() == old(self).vertices(),
            final(self).faces() == old(self).faces(),
            final(self).halfedges() == old(self).halfedges(),
            final(self).vertex_counter() == old(self).vertex_counter(),
            final(self).face_counter() == old(self).face_counter(),
            final(self).name_view() == old(self).name_view(),
    {
        let ghost prev = *self;
        self.triangulation.clear();
        proof {
            self.lemma_wf_cache_only(prev);
            assert(self.cached_triangulations() =~= Map::empty());
        }
    }

    /// The same as [`Mesh::invalidate_all_triangulation`].
    pub fn clear_triangulation_cache(&mut self)
        requires
            old(self).wf(),
        ensures
            final(self).wf(),
            final(self).cached_triangulations().is_empty(),
            final(self).vertices() == old(self).vertices(),
            final(self).faces() == old(self).faces(),
            final(self).halfedges() == old(self).halfedges(),
            final(self).vertex_counter() == old(self).vertex_counter(),
            final(self).face_counter() == old(self).face_counter(),
            final(self).name_view() == old(self).name_view(),
    {
        self.invalidate_all_triangulation();
    }

    /// Triangulate every face (filling the cache) and return each face key
    /// with its triangles, faces in order of first insertion.
    pub fn get_all_triangulations<G: PolygonGeometry<V>>(&mut self) -> (r: Vec<(usize, Vec<[usize; 3]>)>)
        requires
            old(self).wf(),
        ensures
            final(self).wf(),
            final(self).vertices() == old(self).vertices(),
            final(self).faces() == old(self).faces(),
            final(self).halfedges() == old(self).halfedges(),
            r@.len() == old(self).faces().len(),
            forall|i: int, j: int| 0 <= i < j < r@.len() ==> r@[i].0 != r@[j].0,
            forall|i: int|
                0 <= i < r@.len() ==> {
                    let (f, t) = #[trigger] r@[i];
                    &&& old(self).faces().contains_key(f)
                    &&& triangulates(old(self).faces()[f], t@)
                    &&& final(self).cached_triangulations()[f] == t@
                },
    {
        let keys = self.face_keys();
        let n = keys.len();
        proof {
            keys@.unique_seq_to_set();
        }
        let mut r: Vec<(usize, Vec<[usize; 3]>)> = Vec::new();
        let mut i: usize = 0;
        while i < n
            invariant
                self.wf(),
                n == keys@.len(),
                n == old(self).faces().len(),
                keys@.no_duplicates(),
                keys@.to_set() == old(self).faces().dom(),
                self.vertices() == old(self).vertices(),
                self.faces() == old(self).faces(),
                self.halfedges() == old(self).halfedges(),
                i <= n,
                r@.len() == i,
                forall|k: int| 0 <= k < i ==> (#[trigger] r@[k]).0 == keys@[k],
                forall|k: int|
                    0 <= k < i ==> {
                        let (f, t) = #[trigger] r@[k];
                        &&& old(self).faces().contains_key(f)
                        &&& triangulates(old(self).faces()[f], t@)
                        &&& self.cached_triangulations()[f] == t@
                    },
            decreases n - i,
        {
            let f = keys[i];
            proof {
                assert(keys@.to_set().contains(f));
            }
            let ghost before = self.cached_triangulations();
            let t = copy_triangles(self.triangulate_face::<G>(f).unwrap());
            proof {
                assert forall|k: int| 0 <= k < i implies (#[trigger] r@[k]).0 != f by {
                    assert(keys@[k] != keys@[i as int]);
                }
                assert forall|k: int| 0 <= k < i implies self.cached_triangulations()[(#[trigger] r@[k]).0] == before[r@[k].0] by {
                    assert(keys@[k] != keys@[i as int]);
                }
            }
            r.push((f, t));
            i = i + 1;
        }
        r
    }

    /// The undirected edges, each once as `(smaller, larger)`, in order of
    /// first recording.
    pub fn edge_list(&self) -> (r: Vec<(usize, usize)>)
        requires
            self.wf(),
        ensures
            r@.no_duplicates(),
            r@.to_set() == self.edges(),
    {
        let n = self.halfedge_order.len();
        let mut r: Vec<(usize, usize)> = Vec::new();
        let mut i: usize = 0;
        while i < n
            invariant
                self.wf(),
                n == self.halfedge_order@.len(),
                i <= n,
                r@.no_duplicates(),
                forall|p: (usize, usize)|
                    #[trigger] r@.contains(p) <==> (self.halfedge_order@.subrange(0, i as int).contains(p) && p.0 < p.1),
            decreases n - i,
        {
            let (u, v) = self.halfedge_order[i];
            let ghost r0 = r@;
            proof {
                lemma_prefix_push(self.halfedge_order@, i as int);
                assert(!self.halfedge_order@.subrange(0, i as int).contains((u, v))) by {
                    if self.halfedge_order@.subrange(0, i as int).contains((u, v)) {
                        let k = choose|k: int| 0 <= k < i && self.halfedge_order@.subrange(0, i as int)[k] == (u, v);
                        assert(self.halfedge_order@[k] == self.halfedge_order@[i as int]);
                    }
                }
            }
            if u < v {
                proof {
                    lemma_push_distinct(r@, (u, v));
                }
                r.push((u, v));
            }
            proof {
                assert forall|p: (usize, usize)| #[trigger] r@.contains(p) <==> (r0.contains(p) || (p == (u, v) && u < v)) by {
                    broadcast use vstd::seq_lib::group_seq_properties;
                }
            }
            i = i + 1;
        }
        proof {
            assert(self.halfedge_order@.subrange(0, n as int) =~= self.halfedge_order@);
            assert forall|p: (usize, usize)| r@.to_set().contains(p) <==> self.edges().contains(p) by {
                self.lemma_halfedge_at(p.0, p.1);
                self.lemma_halfedge_at(p.1, p.0);
                if self.has_he(p.1, p.0) {
                    assert(self.has_he(p.0, p.1));
                }
            }
            assert(r@.to_set() =~= self.edges());
        }
        r
    }

    /// The edges that carry a boundary halfedge, each once as
    /// `(smaller, larger)`.
    pub fn boundary_edges(&self) -> (r: Vec<(usize, usize)>)
        requires
            self.wf(),
        ensures
            r@.no_duplicates(),
            forall|p: (usize, usize)|
                #[trigger] r@.contains(p) <==> (p.0 < p.1 && (self.is_boundary_halfedge(p) || self.is_boundary_halfedge((p.1, p.0)))),
    {
        let n = self.halfedge_order.len();
        let mut r: Vec<(usize, usize)> = Vec::new();
        let mut i: usize = 0;
        while i < n
            invariant
                self.wf(),
                n == self.halfedge_order@.len(),
                i <= n,
                r@.no_duplicates(),
                forall|p: (usize, usize)|
                    #[trigger] r@.contains(p) <==> (p.0 < p.1 && exists|j: int|
                        0 <= j < i && {
                            let h = #[trigger] self.halfedge_order@[j];
                            (h == p || h == (p.1, p.0)) && self.is_boundary_halfedge(h)
                        }),
            decreases n - i,
        {
            let (u, v) = self.halfedge_order[i];
            let ghost r0 = r@;
            proof {
                assert(self.halfedge_order@.contains((u, v)));
                assert(self.has_he(u, v));
                self.lemma_halfedge_at(u, v);
            }
            let row = self.halfedge.get(&u).unwrap();
            let owner = row.get(&v).unwrap();
            let key: (usize, usize) = if u < v { (u, v) } else { (v, u) };
            if owner.is_none() && !contains_pair(&r, key) {
                proof {
                    lemma_push_distinct(r@, key);
                }
                r.push(key);
            }
            proof {
                assert(u != v);
                assert(self.is_boundary_halfedge((u, v)) == owner.is_none());
                assert forall|p: (usize, usize)| #[trigger] r@.contains(p) <==> (p.0 < p.1 && exists|j: int|
                    0 <= j < i + 1 && {
                        let h = #[trigger] self.halfedge_order@[j];
                        (h == p || h == (p.1, p.0)) && self.is_boundary_halfedge(h)
                    }) by {
                    broadcast use vstd::seq_lib::group_seq_properties;
                    if r0.contains(p) {
                        let j = choose|j: int| 0 <= j < i && {
                            let h = #[trigger] self.halfedge_order@[j];
                            (h == p || h == (p.1, p.0)) && self.is_boundary_halfedge(h)
                        };
                    }
                    if p.0 < p.1 && exists|j: int| 0 <= j < i + 1 && {
                        let h = #[trigger] self.halfedge_order@[j];
                        (h == p || h == (p.1, p.0)) && self.is_boundary_halfedge(h)
                    } {
                        let j = choose|j: int| 0 <= j < i + 1 && {
                            let h = #[trigger] self.halfedge_order@[j];
                            (h == p || h == (p.1, p.0)) && self.is_boundary_halfedge(h)
                        };
                        if j < i {
                            assert(r0.contains(p));
                        } else {
                            assert(p == key);
                        }
                    }
                    if p == key && owner.is_none() {
                        assert(self.halfedge_order@[i as int] == (u, v));
                    }
                }
            }
            i = i + 1;
        }
        proof {
            assert forall|p: (usize, usize)|
                #[trigger] r@.contains(p) <==> (p.0 < p.1 && (self.is_boundary_halfedge(p) || self.is_boundary_halfedge((p.1, p.0)))) by {
                self.lemma_halfedge_at(p.0, p.1);
                self.lemma_halfedge_at(p.1, p.0);
                if self.is_boundary_halfedge(p) {
                    assert(self.halfedge_order@.contains(p));
                    let j = choose|j: int| 0 <= j < n && self.halfedge_order@[j] == p;
                }
                if self.is_boundary_halfedge((p.1, p.0)) {
                    assert(self.halfedge_order@.contains((p.1, p.0)));
                    let j = choose|j: int| 0 <= j < n && self.halfedge_order@[j] == (p.1, p.0);
                }
            }
        }
        r
    }

    /// Every directed halfedge `(u, v, owner)`, each once, in order of first
    /// recording.
    pub fn halfedge_list(&self) -> (r: Vec<(usize, usize, Option<usize>)>)
        requires
            self.wf(),
        ensures
            r@.len() == self.halfedges().len(),
            forall|i: int, j: int| 0 <= i < j < r@.len() ==> (r@[i].0, r@[i].1) != (r@[j].0, r@[j].1),
            forall|i: int|
                0 <= i < r@.len() ==> {
                    let (u, v, o) = #[trigger] r@[i];
                    self.halfedges().contains_key((u, v)) && self.halfedges()[(u, v)] == o
                },
            forall|p: (usize, usize)|
                #[trigger] self.halfedges().contains_key(p) ==> exists|i: int|
                    0 <= i < r@.len() && (#[trigger] r@[i]).0 == p.0 && r@[i].1 == p.1,
    {
        let n = self.halfedge_order.len();
        let mut r: Vec<(usize, usize, Option<usize>)> = Vec::new();
        let mut i: usize = 0;
        while i < n
            invariant
                self.wf(),
                n == self.halfedge_order@.len(),
                i <= n,
                r@.len() == i,
                forall|k: int| 0 <= k < i ==> ((#[trigger] r@[k]).0, r@[k].1) == self.halfedge_order@[k],
                forall|k: int|
                    0 <= k < i ==> {
                        let (u, v, o) = #[trigger] r@[k];
                        self.halfedges().contains_key((u, v)) && self.halfedges()[(u, v)] == o
                    },
            decreases n - i,
        {
            let (u, v) = self.halfedge_order[i];
            proof {
                assert(self.halfedge_order@.contains((u, v)));
                assert(self.has_he(u, v));
                self.lemma_halfedge_at(u, v);
            }
            let owner = *self.halfedge.get(&u).unwrap().get(&v).unwrap();
            r.push((u, v, owner));
            i = i + 1;
        }
        proof {
            assert forall|a: int, b: int| 0 <= a < b < r@.len() implies (r@[a].0, r@[a].1) != (r@[b].0, r@[b].1) by {
                assert(self.halfedge_order@[a] != self.halfedge_order@[b]);
            }
            assert forall|p: (usize, usize)| #[trigger] self.halfedges().contains_key(p) implies exists|k: int|
                0 <= k < r@.len() && (#[trigger] r@[k]).0 == p.0 && r@[k].1 == p.1 by {
                self.lemma_halfedge_at(p.0, p.1);
                assert(self.halfedge_order@.contains(p));
                let k = choose|k: int| 0 <= k < n && self.halfedge_order@[k] == p;
                assert(r@[k].0 == p.0 && r@[k].1 == p.1);
            }
            let hs = self.halfedge_order@.to_set();
            assert(self.halfedges().dom() =~= hs) by {
                assert forall|p: (usize, usize)| self.halfedges().dom().contains(p) <==> hs.contains(p) by {
                    self.lemma_halfedge_at(p.0, p.1);
                }
            }
            self.halfedge_order@.unique_seq_to_set();
        }
        r
    }

    /// Every face key with its vertex keys, faces in order of first insertion.
    pub fn get_face_data(&self) -> (r: Vec<(usize, Vec<usize>)>)
        requires
            self.wf(),
        ensures
            r@.len() == self.faces().len(),
            forall|i: int, j: int| 0 <= i < j < r@.len() ==> r@[i].0 != r@[j].0,
            forall|i: int|
                0 <= i < r@.len() ==> {
                    let (f, s) = #[trigger] r@[i];
                    self.faces().contains_key(f) && s@ == self.faces()[f]
                },
    {
        let keys = self.face_keys();
        proof {
            keys@.unique_seq_to_set();
        }
        let mut r: Vec<(usize, Vec<usize>)> = Vec::new();
        let mut i: usize = 0;
        while i < keys.len()
            invariant
                self.wf(),
                keys@.no_duplicates(),
                keys@.to_set() == self.faces().dom(),
                i <= keys@.len(),
                r@.len() == i,
                forall|k: int| 0 <= k < i ==> (#[trigger] r@[k]).0 == keys@[k],
                forall|k: int|
                    0 <= k < i ==> {
                        let (f, s) = #[trigger] r@[k];
                        self.faces().contains_key(f) && s@ == self.faces()[f]
                    },
            decreases keys@.len() - i,
        {
            let f = keys[i];
            proof {
                assert(keys@.to_set().contains(f));
            }
            let fv = self.face_vertices(f).unwrap().clone();
            proof {
                assert(fv@ =~= self.faces()[f]);
            }
            r.push((f, fv));
            i = i + 1;
        }
        proof {
            assert forall|a: int, b: int| 0 <= a < b < r@.len() implies r@[a].0 != r@[b].0 by {
                assert(r@[a].0 == keys@[a] && r@[b].0 == keys@[b]);
            }
        }
        r
    }

    /// The mesh's unique identifier.
    pub fn guid(&self) -> (r: Uuid)
        ensures
            r == self.guid_view(),
    {
        self.guid
    }

    /// The counter from which the next automatic vertex key is drawn.
    pub fn max_vertex(&self) -> (r: usize)
        ensures
            r == self.vertex_counter(),
    {
        self.max_vertex
    }

    /// The counter from which the next automatic face key is drawn.
    pub fn max_face(&self) -> (r: usize)
        ensures
            r == self.face_counter(),
    {
        self.max_face
    }

    /// The mesh's name.
    pub fn name(&self) -> (r: &str)
        ensures
            r@ == self.name_view(),
    {
        self.name.as_str()
    }

    /// Rename the mesh; nothing else changes.
    pub fn set_name(&mut self, name: &str)
        requires
            old(self).wf(),
        ensures
            final(self).wf(),
            final(self).name_view() == name@,
            final(self).guid_view() == old(self).guid_view(),
            final(self).vertices() == old(self).vertices(),
            final(self).faces() == old(self).faces(),
            final(self).halfedges() == old(self).halfedges(),
            final(self).cached_triangulations() == old(self).cached_triangulations(),
            final(self).vertex_counter() == old(self).vertex_counter(),
            final(self).face_counter() == old(self).face_counter(),
    {
        let ghost prev = *self;
        self.name = name.to_string();
        proof {
            self.lemma_wf_cache_only(prev);
        }
    }

    /// Replace the identifier, as when a stored mesh is read back.
    pub fn set_guid(&mut self, guid: Uuid)
        requires
            old(self).wf(),
        ensures
            final(self).wf(),
            final(self).guid_view() == guid,
            final(self).name_view() == old(self).name_view(),
            final(self).vertices() == old(self).vertices(),
            final(self).faces() == old(self).faces(),
            final(self).halfedges() == old(self).halfedges(),
            final(self).cached_triangulations() == old(self).cached_triangulations(),
            final(self).vertex_counter() == old(self).vertex_counter(),
            final(self).face_counter() == old(self).face_counter(),
    {
        let ghost prev = *self;
        self.guid = guid;
        proof {
            self.lemma_wf_cache_only(prev);
        }
    }

    /// The type tag of a mesh in the interchange document.
    pub fn dtype(&self) -> (r: &'static str)
        ensures
            r@ == "Mesh"@,
    {
        "Mesh"
    }

    /// Remove every vertex, face, halfedge and cached triangulation, and reset
    /// both key counters.
    pub fn clear(&mut self)
        requires
            old(self).wf(),
        ensures
            final(self).wf(),
            final(self).vertices().is_empty(),
            final(self).faces().is_empty(),
            final(self).halfedges().is_empty(),
            final(self).cached_triangulations().is_empty(),
            final(self).vertex_counter() == 0,
            final(self).face_counter() == 0,
            final(self).name_view() == old(self).name_view(),
            final(self).guid_view() == old(self).guid_view(),
    {
        self.halfedge.clear();
        self.vertex.clear();
        self.face.clear();
        self.triangulation.clear();
        self.vertex_order = Vec::new();
        self.face_order = Vec::new();
        self.halfedge_order = Vec::new();
        self.max_vertex = 0;
        self.max_face = 0;
        proof {
            assert(self.vertex_order@.to_set() =~= self.vertex@.dom());
            assert(self.face_order@.to_set() =~= self.face@.dom());
            assert(self.halfedges() =~= Map::empty());
            assert(self.faces() =~= Map::empty());
            assert(self.cached_triangulations() =~= Map::empty());
        }
    }
}

impl<V: Copy> Mesh<V> {
    /// Assemble a mesh from parsed parts: every vertex is added under its
    /// key, then every face is replayed through [`Mesh::add_face`] under its
    /// key, so halfedge connectivity is rebuilt and faces that are not valid
    /// polygons of the parsed vertices are skipped.
    pub fn from_parts(vertices: Vec<(usize, V)>, faces: Vec<(usize, Vec<usize>)>) -> (r: Self)
        requires
            forall|i: int| 0 <= i < vertices@.len() ==> (#[trigger] vertices@[i]).0 < usize::MAX,
            forall|i: int| 0 <= i < faces@.len() ==> (#[trigger] faces@[i]).0 < usize::MAX,
        ensures
            r.wf(),
            forall|k: usize|
                #[trigger] r.vertices().contains_key(k) <==> exists|i: int| 0 <= i < vertices@.len() && #[trigger] vertices@[i].0 == k,
            forall|f: usize|
                #[trigger] r.faces().contains_key(f) <==> exists|i: int|
                    0 <= i < faces@.len() && #[trigger] faces@[i].0 == f && valid_polygon(faces@[i].1@, r.vertices().dom()),
            forall|i: int|
                0 <= i < faces@.len() && valid_polygon(faces@[i].1@, r.vertices().dom())
                    && (forall|j: int| 0 <= j < faces@.len() && j != i ==> faces@[j].0 != faces@[i].0)
                    ==> r.faces()[(#[trigger] faces@[i]).0] == faces@[i].1@,
            r.cached_triangulations().is_empty(),
            r.vertex_counter() == if r.vertices().is_empty() {
                1
            } else {
                counter_after(0, firsts(vertices@))
            },
            r.face_counter() == if r.faces().is_empty() {
                1
            } else {
                counter_after(0, firsts(accepted_faces(faces@, r.vertices().dom())))
            },
            r.halfedges() == replayed_sides(accepted_faces(faces@, r.vertices().dom())),
            r.name_view() == "Mesh"@,
    {
        let mut m: Self = Mesh::new();
        let nv = vertices.len();
        let mut i: usize = 0;
        while i < nv
            invariant
                nv == vertices@.len(),
                i <= nv,
                forall|j: int| 0 <= j < vertices@.len() ==> (#[trigger] vertices@[j]).0 < usize::MAX,
                m.wf(),
                m.faces().is_empty(),
                m.cached_triangulations().is_empty(),
                m.halfedges().is_empty(),
                m.face_counter() == 0,
                m.name_view() == "Mesh"@,
                m.vertex_counter() == counter_after(0, firsts(vertices@.subrange(0, i as int))),
                forall|k: usize|
                    #[trigger] m.vertices().contains_key(k) <==> exists|j: int| 0 <= j < i && #[trigger] vertices@[j].0 == k,
            decreases nv - i,
        {
            let (k, v) = vertices[i];
            let ghost before = m.vertices();
            m.add_vertex(v, Some(k));
            proof {
                let pre = vertices@.subrange(0, i as int);
                let post = vertices@.subrange(0, i + 1);
                assert(firsts(post).drop_last() =~= firsts(pre));
                assert(firsts(post).last() == k);
                assert forall|x: usize|
                    #[trigger] m.vertices().contains_key(x) <==> exists|j: int| 0 <= j < i + 1 && #[trigger] vertices@[j].0 == x by {
                    if x == k {
                        assert(vertices@[i as int].0 == x);
                    } else if before.contains_key(x) {
                        let j = choose|j: int| 0 <= j < i && #[trigger] vertices@[j].0 == x;
                    } else if exists|j: int| 0 <= j < i + 1 && #[trigger] vertices@[j].0 == x {
                        let j = choose|j: int| 0 <= j < i + 1 && #[trigger] vertices@[j].0 == x;
                        assert(j < i);
                    }
                }
            }
            i = i + 1;
        }
        proof {
            assert(vertices@.subrange(0, nv as int) =~= vertices@);
            assert(firsts(vertices@.subrange(0, nv as int)) =~= firsts(vertices@));
            assert(faces@.subrange(0, 0) =~= Seq::empty());
            assert(m.halfedges() =~= replayed_sides(Seq::empty()));
        }
        let ghost vc = m.vertex_counter();
        if m.vertex.is_empty() {
            let ghost prev = m;
            m.max_vertex = 1;
            proof {
                m.lemma_wf_cache_only(prev);
                assert(m.vertices() =~= prev.vertices());
                assert(m.faces() =~= prev.faces());
                assert(m.halfedges() =~= prev.halfedges());
                assert(m.cached_triangulations() =~= prev.cached_triangulations());
            }
        }
        let ghost verts = m.vertices();
        let nf = faces.len();
        i = 0;
        while i < nf
            invariant
                nf == faces@.len(),
                i <= nf,
                forall|j: int| 0 <= j < faces@.len() ==> (#[trigger] faces@[j]).0 < usize::MAX,
                m.wf(),
                m.vertices() == verts,
                m.cached_triangulations().is_empty(),
                m.name_view() == "Mesh"@,
                m.vertex_counter() == if verts.is_empty() { 1 } else { vc },
                vc == counter_after(0, firsts(vertices@)),
                m.face_counter() == counter_after(0, firsts(accepted_faces(faces@.subrange(0, i as int), verts.dom()))),
                m.halfedges() == replayed_sides(accepted_faces(faces@.subrange(0, i as int), verts.dom())),
                forall|f: usize|
                    #[trigger] m.faces().contains_key(f) <==> exists|j: int|
                        0 <= j < i && #[trigger] faces@[j].0 == f && valid_polygon(faces@[j].1@, verts.dom()),
                forall|j: int|
                    0 <= j < i && valid_polygon(faces@[j].1@, verts.dom())
                        && (forall|l: int| 0 <= l < faces@.len() && l != j ==> faces@[l].0 != faces@[j].0)
                        ==> m.faces()[(#[trigger] faces@[j]).0] == faces@[j].1@,
            decreases nf - i,
        {
            let k = faces[i].0;
            let fv = faces[i].1.clone();
            proof {
                assert(fv@ =~= faces@[i as int].1@);
            }
            let ghost before = m.faces();
            let ghost acc0 = accepted_faces(faces@.subrange(0, i as int), verts.dom());
            let added = m.add_face(fv, Some(k));
            proof {
                let post = faces@.subrange(0, i + 1);
                assert(post.drop_last() =~= faces@.subrange(0, i as int));
                assert(post.last() == faces@[i as int]);
                let acc1 = accepted_faces(post, verts.dom());
                if added.is_some() {
                    assert(acc1 == acc0.push((k, fv@)));
                    assert(acc1.drop_last() =~= acc0);
                    assert(replayed_sides(acc1) == with_face_sides(replayed_sides(acc0), fv@, k));
                    assert(firsts(acc1).drop_last() =~= firsts(acc0));
                    assert(firsts(acc1).last() == k);
                    assert(m.cached_triangulations() =~= Map::empty());
                } else {
                    assert(acc1 == acc0);
                }
                assert forall|f: usize|
                    #[trigger] m.faces().contains_key(f) <==> exists|j: int|
                        0 <= j < i + 1 && #[trigger] faces@[j].0 == f && valid_polygon(faces@[j].1@, verts.dom()) by {
                    if exists|j: int| 0 <= j < i + 1 && #[trigger] faces@[j].0 == f && valid_polygon(faces@[j].1@, verts.dom()) {
                        let j = choose|j: int| 0 <= j < i + 1 && #[trigger] faces@[j].0 == f && valid_polygon(faces@[j].1@, verts.dom());
                        if j < i {
                            assert(before.contains_key(f));
                        }
                    }
                    if before.contains_key(f) {
                        let j = choose|j: int| 0 <= j < i && #[trigger] faces@[j].0 == f && valid_polygon(faces@[j].1@, verts.dom());
                    }
                    if added.is_some() && f == k {
                        assert(faces@[i as int].0 == f);
                    }
                }
                assert forall|j: int|
                    0 <= j < i + 1 && valid_polygon(faces@[j].1@, verts.dom())
                        && (forall|l: int| 0 <= l < faces@.len() && l != j ==> faces@[l].0 != faces@[j].0)
                        implies m.faces()[(#[trigger] faces@[j]).0] == faces@[j].1@ by {
                    if j < i {
                        assert(faces@[i as int].0 != faces@[j].0);
                    }
                }
            }
            i = i + 1;
        }
        proof {
            assert(faces@.subrange(0, nf as int) =~= faces@);
        }
        if m.face.is_empty() {
            let ghost prev = m;
            m.max_face = 1;
            proof {
                m.lemma_wf_cache_only(prev);
                assert(m.halfedges() =~= prev.halfedges());
                assert(m.cached_triangulations() =~= prev.cached_triangulations());
                assert(m.faces() =~= prev.faces());
            }
        }
        proof {
            assert(m.faces().dom() =~= m.face@.dom());
            assert(m.vertices() == verts);
        }
        m
    }
}

} // verus!
