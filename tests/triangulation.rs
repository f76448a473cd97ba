use session_rust::mesh::Mesh;
use session_rust::triangulation::{triangulate_polygon, PolygonGeometry};

/// Planar geometry of a polygon: Newell normal, projection that drops the
/// dominant axis, and the usual orientation predicates.
struct Planar {
    pts: Vec<[f64; 3]>,
    flat: Vec<[f64; 2]>,
    normal: [f64; 3],
}

impl Planar {
    fn new(pts: Vec<[f64; 3]>) -> Planar {
        let n = pts.len();
        let (mut nx, mut ny, mut nz) = (0.0, 0.0, 0.0);
        for i in 0..n {
            let p = pts[i];
            let q = pts[(i + 1) % n];
            nx += (p[1] - q[1]) * (p[2] + q[2]);
            ny += (p[2] - q[2]) * (p[0] + q[0]);
            nz += (p[0] - q[0]) * (p[1] + q[1]);
        }
        let len = (nx * nx + ny * ny + nz * nz as f64).sqrt();
        let normal = if len > 0.0 { [nx / len, ny / len, nz / len] } else { [0.0, 0.0, 1.0] };
        let (ax, ay, az) = (normal[0].abs(), normal[1].abs(), normal[2].abs());
        let flat = pts
            .iter()
            .map(|p| {
                if ax >= ay && ax >= az {
                    [p[1], p[2]]
                } else if ay >= ax && ay >= az {
                    [p[0], p[2]]
                } else {
                    [p[0], p[1]]
                }
            })
            .collect();
        Planar { pts, flat, normal }
    }

    fn cross3(&self, a: usize, b: usize, c: usize) -> [f64; 3] {
        let (pa, pb, pc) = (self.pts[a], self.pts[b], self.pts[c]);
        let u = [pb[0] - pa[0], pb[1] - pa[1], pb[2] - pa[2]];
        let v = [pc[0] - pa[0], pc[1] - pa[1], pc[2] - pa[2]];
        [u[1] * v[2] - u[2] * v[1], u[2] * v[0] - u[0] * v[2], u[0] * v[1] - u[1] * v[0]]
    }
}

impl PolygonGeometry<[f64; 3]> for Planar {
    fn of_face(mesh: &Mesh<[f64; 3]>, keys: &Vec<usize>) -> Planar {
        Planar::new(keys.iter().map(|k| *mesh.vertex_position(*k).unwrap()).collect())
    }

    fn area_sign(&self) -> i8 {
        let n = self.flat.len();
        let mut sum = 0.0;
        for i in 0..n {
            let p = self.flat[i];
            let q = self.flat[(i + 1) % n];
            sum += p[0] * q[1] - q[0] * p[1];
        }
        if sum > 0.0 {
            1
        } else if sum < 0.0 {
            -1
        } else {
            0
        }
    }

    fn turn_sign(&self, a: usize, b: usize, c: usize) -> i8 {
        let (pa, pb, pc) = (self.flat[a], self.flat[b], self.flat[c]);
        let cross = (pb[0] - pa[0]) * (pc[1] - pb[1]) - (pb[1] - pa[1]) * (pc[0] - pb[0]);
        if cross > 1e-12 {
            1
        } else if cross < -1e-12 {
            -1
        } else {
            0
        }
    }

    fn triangle_contains(&self, a: usize, b: usize, c: usize, p: usize) -> bool {
        let sign = |r1: [f64; 2], r2: [f64; 2], r3: [f64; 2]| {
            (r1[0] - r3[0]) * (r2[1] - r3[1]) - (r2[0] - r3[0]) * (r1[1] - r3[1])
        };
        let (pa, pb, pc, pp) = (self.flat[a], self.flat[b], self.flat[c], self.flat[p]);
        let s1 = sign(pp, pa, pb);
        let s2 = sign(pp, pb, pc);
        let s3 = sign(pp, pc, pa);
        let has_neg = s1 < -1e-12 || s2 < -1e-12 || s3 < -1e-12;
        let has_pos = s1 > 1e-12 || s2 > 1e-12 || s3 > 1e-12;
        !(has_neg && has_pos)
    }

    fn agrees_with_normal(&self, a: usize, b: usize, c: usize) -> bool {
        let n = self.cross3(a, b, c);
        n[0] * self.normal[0] + n[1] * self.normal[1] + n[2] * self.normal[2] >= 0.0
    }
}

fn mesh_of(points: &[[f64; 3]]) -> (Mesh<[f64; 3]>, Vec<usize>) {
    let mut mesh = Mesh::new();
    let keys: Vec<usize> = points.iter().map(|p| mesh.add_vertex(*p, None)).collect();
    (mesh, keys)
}

fn point_of(mesh: &Mesh<[f64; 3]>, k: usize) -> [f64; 3] {
    *mesh.vertex_position(k).unwrap()
}

fn wound_with_normal(mesh: &Mesh<[f64; 3]>, tri: [usize; 3], normal: [f64; 3]) -> bool {
    let (a, b, c) = (point_of(mesh, tri[0]), point_of(mesh, tri[1]), point_of(mesh, tri[2]));
    let u = [b[0] - a[0], b[1] - a[1], b[2] - a[2]];
    let v = [c[0] - a[0], c[1] - a[1], c[2] - a[2]];
    let n = [u[1] * v[2] - u[2] * v[1], u[2] * v[0] - u[0] * v[2], u[0] * v[1] - u[1] * v[0]];
    n[0] * normal[0] + n[1] * normal[1] + n[2] * normal[2] >= 0.0
}

fn strictly_inside(p: [f64; 2], a: [f64; 2], b: [f64; 2], c: [f64; 2]) -> bool {
    let s = |r1: [f64; 2], r2: [f64; 2], r3: [f64; 2]| (r1[0] - r3[0]) * (r2[1] - r3[1]) - (r2[0] - r3[0]) * (r1[1] - r3[1]);
    let (d1, d2, d3) = (s(p, a, b), s(p, b, c), s(p, c, a));
    (d1 > 1e-9 && d2 > 1e-9 && d3 > 1e-9) || (d1 < -1e-9 && d2 < -1e-9 && d3 < -1e-9)
}

#[test]
fn convex_polygons_give_n_minus_two_triangles_wound_with_the_normal() {
    for n in 3..12usize {
        for clockwise in [false, true] {
            let mut pts: Vec<[f64; 3]> = (0..n)
                .map(|i| {
                    let t = 2.0 * std::f64::consts::PI * (i as f64) / (n as f64);
                    [t.cos(), t.sin(), 0.3 * t.cos()]
                })
                .collect();
            if clockwise {
                pts.reverse();
            }
            let (mut mesh, keys) = mesh_of(&pts);
            let f = mesh.add_face(keys.clone(), None).unwrap();
            let normal = Planar::new(pts.clone()).normal;
            let tris = mesh.triangulate_face::<Planar>(f).unwrap().clone();
            assert_eq!(tris.len(), n - 2);
            for t in &tris {
                assert!(keys.contains(&t[0]) && keys.contains(&t[1]) && keys.contains(&t[2]));
                assert!(t[0] != t[1] && t[1] != t[2] && t[0] != t[2]);
                assert!(wound_with_normal(&mesh, *t, normal));
            }
        }
    }
}

#[test]
fn concave_star_gives_eight_empty_triangles() {
    let pts: Vec<[f64; 3]> = (0..10)
        .map(|i| {
            let t = std::f64::consts::PI * (i as f64) / 5.0;
            let r = if i % 2 == 0 { 1.0 } else { 0.4 };
            [r * t.cos(), r * t.sin(), 0.0]
        })
        .collect();
    let (mut mesh, keys) = mesh_of(&pts);
    let f = mesh.add_face(keys.clone(), None).unwrap();
    let tris = mesh.triangulate_face::<Planar>(f).unwrap().clone();
    assert_eq!(tris.len(), 8);
    let flat = |k: usize| {
        let p = point_of(&mesh, k);
        [p[0], p[1]]
    };
    for t in &tris {
        for k in &keys {
            if t.contains(k) {
                continue;
            }
            assert!(!strictly_inside(flat(*k), flat(t[0]), flat(t[1]), flat(t[2])));
        }
    }
}

#[test]
fn a_triangle_is_its_own_triangulation() {
    let geom = Planar::new(vec![[0.0, 0.0, 0.0], [1.0, 0.0, 0.0], [0.0, 1.0, 0.0]]);
    assert_eq!(triangulate_polygon(&vec![7, 3, 5], &geom), vec![[7, 3, 5]]);
    let none: Vec<[usize; 3]> = Vec::new();
    assert_eq!(triangulate_polygon(&vec![7, 3], &geom), none);
}

#[test]
fn square_fans_from_its_first_corner() {
    let geom = Planar::new(vec![[0.0, 0.0, 0.0], [1.0, 0.0, 0.0], [1.0, 1.0, 0.0], [0.0, 1.0, 0.0]]);
    assert_eq!(triangulate_polygon(&vec![10, 11, 12, 13], &geom), vec![[10, 11, 12], [10, 12, 13]]);
}

#[test]
fn clockwise_square_is_walked_in_reverse_and_rewound() {
    let geom = Planar::new(vec![[0.0, 1.0, 0.0], [1.0, 1.0, 0.0], [1.0, 0.0, 0.0], [0.0, 0.0, 0.0]]);
    assert_eq!(triangulate_polygon(&vec![10, 11, 12, 13], &geom), vec![[13, 11, 12], [13, 10, 11]]);
}

#[test]
fn triangulation_cache_is_filled_and_invalidated() {
    let pts = [[0.0, 0.0, 0.0], [1.0, 0.0, 0.0], [1.0, 1.0, 0.0], [0.0, 1.0, 0.0]];
    let (mut mesh, keys) = mesh_of(&pts);
    let f = mesh.add_face(keys.clone(), None).unwrap();
    assert!(mesh.face_triangulation_cached(f).is_none());
    assert!(mesh.triangulate_face::<Planar>(999).is_none());
    let tris = mesh.get_face_triangulation::<Planar>(f).unwrap().clone();
    assert_eq!(mesh.face_triangulation_cached(f), Some(&tris));
    mesh.invalidate_face_triangulation(f);
    assert!(mesh.face_triangulation_cached(f).is_none());
    mesh.triangulate_face::<Planar>(f);
    mesh.add_face(vec![keys[0], keys[1], keys[2]], Some(f)).unwrap();
    assert!(mesh.face_triangulation_cached(f).is_none());
    let all = mesh.get_all_triangulations::<Planar>();
    assert_eq!(all, vec![(f, vec![[keys[0], keys[1], keys[2]]])]);
    mesh.clear_triangulation_cache();
    assert!(mesh.face_triangulation_cached(f).is_none());
    mesh.get_all_triangulations::<Planar>();
    mesh.invalidate_all_triangulation();
    assert!(mesh.face_triangulation_cached(f).is_none());
}

#[test]
fn triangulating_unknown_vertices_gives_nothing() {
    let (mesh, keys) = mesh_of(&[[0.0, 0.0, 0.0], [1.0, 0.0, 0.0], [1.0, 1.0, 0.0]]);
    let none: Vec<[usize; 3]> = Vec::new();
    assert_eq!(mesh.triangulate_face_vertices::<Planar>(&vec![keys[0], keys[1], keys[2], 99]), none);
    assert_eq!(mesh.triangulate_face_vertices::<Planar>(&vec![keys[0], keys[1]]), none);
}
