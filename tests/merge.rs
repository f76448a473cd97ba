use session_rust::merge::GridKey;
use session_rust::mesh::Mesh;
use session_rust::triangulation::PolygonGeometry;

/// Geometry of planar convex polygons wound counter-clockwise.
struct ConvexFace;

impl PolygonGeometry<[i64; 3]> for ConvexFace {
    fn of_face(_mesh: &Mesh<[i64; 3]>, _keys: &Vec<usize>) -> ConvexFace {
        ConvexFace
    }
    fn area_sign(&self) -> i8 {
        1
    }
    fn turn_sign(&self, _a: usize, _b: usize, _c: usize) -> i8 {
        1
    }
    fn triangle_contains(&self, _a: usize, _b: usize, _c: usize, _p: usize) -> bool {
        false
    }
    fn agrees_with_normal(&self, _a: usize, _b: usize, _c: usize) -> bool {
        true
    }
}

fn corner(x: i64, y: i64, z: i64) -> (GridKey, [i64; 3]) {
    ((x, y, z), [x, y, z])
}

fn quad(c: [[i64; 3]; 4]) -> Vec<(GridKey, [i64; 3])> {
    c.iter().map(|p| corner(p[0], p[1], p[2])).collect()
}

fn cube_quads() -> Vec<Vec<(GridKey, [i64; 3])>> {
    vec![
        quad([[0, 0, 0], [1, 0, 0], [1, 1, 0], [0, 1, 0]]),
        quad([[1, 0, 1], [0, 0, 1], [0, 1, 1], [1, 1, 1]]),
        quad([[0, 0, 1], [0, 0, 0], [0, 1, 0], [0, 1, 1]]),
        quad([[1, 0, 0], [1, 0, 1], [1, 1, 1], [1, 1, 0]]),
        quad([[0, 0, 1], [1, 0, 1], [1, 0, 0], [0, 0, 0]]),
        quad([[0, 1, 0], [1, 1, 0], [1, 1, 1], [0, 1, 1]]),
    ]
}

#[test]
fn shared_corners_merge_into_one_vertex() {
    let polys = vec![
        vec![corner(0, 0, 0), corner(1, 0, 0), corner(0, 1, 0)],
        vec![corner(1, 0, 0), corner(1, 1, 0), corner(0, 1, 0)],
    ];
    let mesh = Mesh::from_keyed_polygons::<ConvexFace>(&polys);
    assert_eq!(mesh.number_of_vertices(), 4);
    assert_eq!(mesh.number_of_faces(), 2);
    assert_eq!(mesh.number_of_edges(), 5);
    assert_eq!(mesh.face_vertices(3), Some(&vec![3, 7, 5]));
}

#[test]
fn short_and_self_merging_polygons_are_skipped() {
    let polys = vec![
        vec![],
        vec![corner(0, 0, 0)],
        vec![corner(0, 0, 0), corner(1, 0, 0)],
        vec![corner(0, 0, 0), corner(1, 0, 0), corner(0, 1, 0)],
        vec![corner(5, 5, 5), corner(6, 5, 5), corner(5, 5, 5)],
    ];
    let mesh = Mesh::from_keyed_polygons::<ConvexFace>(&polys);
    assert_eq!(mesh.number_of_vertices(), 5);
    assert_eq!(mesh.number_of_faces(), 1);
    let none: Vec<Vec<(GridKey, [i64; 3])>> = Vec::new();
    let empty = Mesh::from_keyed_polygons::<ConvexFace>(&none);
    assert_eq!(empty.number_of_vertices(), 0);
    assert_eq!(empty.number_of_faces(), 0);
}

#[test]
fn cube_from_six_quads_is_triangulated() {
    let mesh = Mesh::from_keyed_polygons::<ConvexFace>(&cube_quads());
    assert_eq!(mesh.number_of_vertices(), 8);
    assert_eq!(mesh.number_of_faces(), 12);
    assert_eq!(mesh.number_of_edges(), 18);
    assert_eq!(mesh.euler(), 2);
    assert!(mesh.boundary_edges().is_empty());
    for (_, f) in mesh.get_face_data() {
        assert_eq!(f.len(), 3);
    }
    assert_eq!(mesh.vertex_position(1), Some(&[0, 0, 0]));
    assert_eq!(mesh.face_vertices(1), Some(&vec![1, 3, 5]));
    assert_eq!(mesh.face_vertices(3), Some(&vec![1, 5, 7]));
}

#[test]
fn a_polygon_with_a_repeated_key_adds_no_face() {
    let polys = vec![vec![corner(0, 0, 0), corner(1, 0, 0), corner(1, 1, 0), corner(1, 0, 0)]];
    let mesh = Mesh::from_keyed_polygons::<ConvexFace>(&polys);
    assert_eq!(mesh.number_of_vertices(), 3);
    assert_eq!(mesh.number_of_faces(), 0);
}

#[test]
fn first_occurrence_of_each_key() {
    let keys: Vec<GridKey> = vec![(0, 0, 0), (1, 0, 0), (0, 0, 0), (2, 2, 2), (1, 0, 0), (2, 2, 2), (3, 0, 0)];
    assert_eq!(session_rust::merge::first_of_each_key(&keys), vec![0, 1, 3, 6]);
    let none: Vec<GridKey> = Vec::new();
    assert!(session_rust::merge::first_of_each_key(&none).is_empty());
}
