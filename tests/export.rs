use session_rust::export::interleave;
use session_rust::mesh::Mesh;
use session_rust::triangulation::PolygonGeometry;

/// Geometry of convex counter-clockwise polygons: every corner turns left
/// and every triangle agrees with the normal.
struct Convex;

impl PolygonGeometry<u8> for Convex {
    fn of_face(_mesh: &Mesh<u8>, _keys: &Vec<usize>) -> Convex {
        Convex
    }
    fn area_sign(&self) -> i8 {
        1
    }
    fn turn_sign(&self, _a: usize, _b: usize, _c: usize) -> i8 {
        1
    }
    fn triangle_contains(&self, _a: usize, _b: usize, _c: usize, _p: usize) -> bool {
        false
    }
    fn agrees_with_normal(&self, _a: usize, _b: usize, _c: usize) -> bool {
        true
    }
}

#[test]
fn interleaved_buffer_merges_the_separate_buffers() {
    let positions = vec![0.0f32, 0.5, 1.0, 2.0, 3.0, 4.0];
    let normals = vec![0.0f32, 0.0, 1.0, 0.0, 1.0, 0.0];
    let colors = vec![0.1f32, 0.2, 0.3, 0.4, 0.5, 0.6];
    let r = interleave(&positions, &normals, &colors, 2);
    assert_eq!(r.len(), 18);
    assert_eq!(
        r,
        vec![0.0, 0.5, 1.0, 0.0, 0.0, 1.0, 0.1, 0.2, 0.3, 2.0, 3.0, 4.0, 0.0, 1.0, 0.0, 0.4, 0.5, 0.6]
    );
    let empty: Vec<f32> = Vec::new();
    assert!(interleave(&empty, &empty, &empty, 0).is_empty());
}

#[test]
fn buffer_layout_of_a_triangle() {
    let mut mesh = Mesh::new();
    let a = mesh.add_vertex(0u8, None);
    let b = mesh.add_vertex(1u8, None);
    let c = mesh.add_vertex(2u8, None);
    mesh.add_face(vec![a, b, c], None).unwrap();
    let layout = mesh.buffer_layout::<Convex>();
    assert_eq!(layout.vertex_keys, vec![a, b, c]);
    assert_eq!(layout.indices, vec![0, 1, 2]);
    assert_eq!(layout.triangle_count, 1);
}

#[test]
fn buffer_layout_indexes_every_triangle() {
    let mut mesh = Mesh::new();
    let keys: Vec<usize> = (0..6u8).map(|i| mesh.add_vertex(i, None)).collect();
    mesh.add_face(vec![keys[0], keys[1], keys[2], keys[3]], None).unwrap();
    mesh.add_face(vec![keys[3], keys[2], keys[4], keys[5]], None).unwrap();
    mesh.add_vertex(9u8, None);
    let layout = mesh.buffer_layout::<Convex>();
    assert_eq!(layout.vertex_keys, keys);
    assert_eq!(layout.triangle_count, 4);
    assert_eq!(layout.indices.len(), 3 * layout.triangle_count);
    assert_eq!(layout.indices, vec![0, 1, 2, 0, 2, 3, 3, 2, 4, 3, 4, 5]);
    assert!(mesh.face_triangulation_cached(1).is_some());
}
