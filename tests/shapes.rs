use session_rust::icosphere::{icosahedron_faces, icosphere_topology, subdivide};
use session_rust::mesh::Mesh;

#[test]
fn tube_has_two_rings_and_one_quad_per_side() {
    let bottom: Vec<u32> = (0..8).collect();
    let top: Vec<u32> = (100..108).collect();
    let mesh = Mesh::tube(&bottom, &top);
    assert_eq!(mesh.number_of_vertices(), 16);
    assert_eq!(mesh.number_of_faces(), 8);
    assert_eq!(mesh.number_of_edges(), 24);
    assert_eq!(mesh.euler(), 0);
    assert_eq!(mesh.vertex_position(1), Some(&0));
    assert_eq!(mesh.vertex_position(3), Some(&100));
    assert_eq!(mesh.vertex_position(29), Some(&7));
    assert_eq!(mesh.face_vertices(1), Some(&vec![1, 5, 7, 3]));
    assert_eq!(mesh.face_vertices(15), Some(&vec![29, 1, 3, 31]));
    for v in mesh.vertex_keys() {
        assert!(mesh.is_vertex_on_boundary(v));
    }
}

#[test]
fn high_resolution_tube_has_thirty_two_sides() {
    let ring: Vec<u8> = vec![0; 32];
    let mesh = Mesh::tube(&ring, &ring);
    assert_eq!(mesh.number_of_vertices(), 64);
    assert_eq!(mesh.number_of_faces(), 32);
}

#[test]
fn capped_pipe_is_closed() {
    let start: Vec<i32> = (0..8).collect();
    let end: Vec<i32> = (10..18).collect();
    let mesh = Mesh::capped_pipe(&start, &end, -1, -2);
    assert_eq!(mesh.number_of_vertices(), 18);
    assert_eq!(mesh.number_of_faces(), 32);
    assert_eq!(mesh.number_of_edges(), 48);
    assert_eq!(mesh.euler(), 2);
    assert_eq!(mesh.vertex_position(33), Some(&-1));
    assert_eq!(mesh.vertex_position(35), Some(&-2));
    assert_eq!(mesh.face_vertices(1), Some(&vec![1, 5, 7]));
    assert_eq!(mesh.face_vertices(3), Some(&vec![1, 7, 3]));
    assert_eq!(mesh.face_vertices(33), Some(&vec![33, 5, 1]));
    assert_eq!(mesh.face_vertices(49), Some(&vec![35, 3, 7]));
    assert!(mesh.boundary_edges().is_empty());
    for v in mesh.vertex_keys() {
        assert!(!mesh.is_vertex_on_boundary(v));
    }
}

#[test]
fn icosphere_at_depth_zero_is_the_icosahedron() {
    let (faces, pairs) = icosphere_topology(0);
    assert_eq!(faces.len(), 20);
    assert_eq!(12 + pairs.len(), 12);
    assert_eq!(faces, icosahedron_faces());
    let points: Vec<usize> = (0..12).collect();
    let mesh = Mesh::from_indexed_triangles(&points, &faces);
    assert_eq!(mesh.number_of_vertices(), 12);
    assert_eq!(mesh.number_of_faces(), 20);
    assert_eq!(mesh.number_of_edges(), 30);
    assert_eq!(mesh.euler(), 2);
}

#[test]
fn icosphere_subdivision_counts() {
    let expected_points = [12usize, 42, 162, 642];
    for depth in 0..4usize {
        let (faces, pairs) = icosphere_topology(depth);
        assert_eq!(faces.len(), 20 * 4usize.pow(depth as u32));
        assert_eq!(12 + pairs.len(), expected_points[depth]);
        for (q, p) in pairs.iter().enumerate() {
            assert!(p.0 < p.1 && p.1 < 12 + q);
        }
        let points: Vec<usize> = (0..12 + pairs.len()).collect();
        let mesh = Mesh::from_indexed_triangles(&points, &faces);
        assert_eq!(mesh.euler(), 2);
        assert!(mesh.boundary_edges().is_empty());
    }
}

#[test]
fn one_subdivision_shares_midpoints() {
    let (faces, pairs) = subdivide(&vec![[0, 1, 2], [0, 2, 3]], 4);
    assert_eq!(pairs, vec![(0, 1), (1, 2), (0, 2), (2, 3), (0, 3)]);
    assert_eq!(
        faces,
        vec![[0, 4, 6], [1, 5, 4], [2, 6, 5], [4, 5, 6], [0, 6, 8], [2, 7, 6], [3, 8, 7], [6, 7, 8]]
    );
}

#[test]
fn indexed_triangles_keep_their_order() {
    let points = vec!['a', 'b', 'c', 'd'];
    let mesh = Mesh::from_indexed_triangles(&points, &vec![[0, 1, 2], [0, 3, 1]]);
    assert_eq!(mesh.vertex_position(7), Some(&'d'));
    assert_eq!(mesh.face_vertices(1), Some(&vec![1, 3, 5]));
    assert_eq!(mesh.face_vertices(3), Some(&vec![1, 7, 3]));
}
