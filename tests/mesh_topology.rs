use session_rust::mesh::{Mesh, NormalWeighting};

fn triangle_mesh() -> (Mesh<[f64; 3]>, usize, usize, usize) {
    let mut mesh = Mesh::new();
    let v0 = mesh.add_vertex([0.0, 0.0, 0.0], None);
    let v1 = mesh.add_vertex([1.0, 0.0, 0.0], None);
    let v2 = mesh.add_vertex([0.0, 1.0, 0.0], None);
    (mesh, v0, v1, v2)
}

#[test]
fn test_halfedge_mesh_new() {
    let mesh: Mesh<[f64; 3]> = Mesh::new();
    assert_eq!(mesh.number_of_vertices(), 0);
    assert_eq!(mesh.number_of_faces(), 0);
    assert!(mesh.is_empty());
    assert_eq!(mesh.euler(), 0);
}

#[test]
fn test_add_vertex() {
    let mut mesh = Mesh::new();
    let vertex_key = mesh.add_vertex([1.0, 2.0, 3.0], None);
    assert_eq!(mesh.number_of_vertices(), 1);
    assert!(!mesh.is_empty());

    let pos = mesh.vertex_position(vertex_key).unwrap();
    assert_eq!(pos[0], 1.0);
    assert_eq!(pos[1], 2.0);
    assert_eq!(pos[2], 3.0);
}

#[test]
fn test_add_vertex_with_specific_key() {
    let mut mesh = Mesh::new();
    let vertex_key = mesh.add_vertex([0.0, 0.0, 0.0], Some(42));
    assert_eq!(vertex_key, 42);
    assert_eq!(mesh.number_of_vertices(), 1);
}

#[test]
fn test_add_face() {
    let (mut mesh, v0, v1, v2) = triangle_mesh();
    let _face_key = mesh.add_face(vec![v0, v1, v2], None).unwrap();
    assert_eq!(mesh.number_of_faces(), 1);
    assert_eq!(mesh.number_of_edges(), 3);
    assert_eq!(mesh.euler(), 1);
}

#[test]
fn test_add_face_invalid() {
    let mut mesh = Mesh::new();
    let v0 = mesh.add_vertex([0.0, 0.0, 0.0], None);
    let v1 = mesh.add_vertex([1.0, 0.0, 0.0], None);

    assert!(mesh.add_face(vec![v0, v1], None).is_none());
    assert!(mesh.add_face(vec![v0, v1, 999], None).is_none());
    assert!(mesh.add_face(vec![v0, v1, v0], None).is_none());
}

#[test]
fn test_face_vertices() {
    let (mut mesh, v0, v1, v2) = triangle_mesh();
    let f = mesh.add_face(vec![v0, v1, v2], None).unwrap();
    let vertices = mesh.face_vertices(f).unwrap();
    assert_eq!(vertices, &vec![v0, v1, v2]);
}

#[test]
fn test_vertex_neighbors() {
    let (mut mesh, v0, v1, v2) = triangle_mesh();
    mesh.add_face(vec![v0, v1, v2], None);

    let neighbors = mesh.vertex_neighbors(v0);
    assert_eq!(neighbors.len(), 2);
    assert!(neighbors.contains(&v1));
    assert!(neighbors.contains(&v2));
}

#[test]
fn test_vertex_faces() {
    let (mut mesh, v0, v1, v2) = triangle_mesh();
    let v3 = mesh.add_vertex([1.0, 1.0, 0.0], None);

    let f1 = mesh.add_face(vec![v0, v1, v2], None).unwrap();
    let f2 = mesh.add_face(vec![v1, v3, v2], None).unwrap();

    let faces = mesh.vertex_faces(v1);
    assert_eq!(faces.len(), 2);
    assert!(faces.contains(&f1));
    assert!(faces.contains(&f2));
}

#[test]
fn test_is_vertex_on_boundary() {
    let (mut mesh, v0, v1, v2) = triangle_mesh();
    mesh.add_face(vec![v0, v1, v2], None);

    assert!(mesh.is_vertex_on_boundary(v0));
    assert!(mesh.is_vertex_on_boundary(v1));
    assert!(mesh.is_vertex_on_boundary(v2));
}

#[test]
fn test_clear() {
    let (mut mesh, v0, v1, v2) = triangle_mesh();
    mesh.add_face(vec![v0, v1, v2], None);

    assert!(!mesh.is_empty());
    mesh.clear();
    assert!(mesh.is_empty());
    assert_eq!(mesh.number_of_vertices(), 0);
    assert_eq!(mesh.number_of_faces(), 0);
}

#[test]
fn automatic_keys_skip_past_the_counter() {
    let mut mesh = Mesh::new();
    assert_eq!(mesh.add_vertex([0.0; 3], None), 1);
    assert_eq!(mesh.add_vertex([0.0; 3], None), 3);
    assert_eq!(mesh.add_vertex([0.0; 3], Some(10)), 10);
    assert_eq!(mesh.add_vertex([0.0; 3], None), 12);
    assert_eq!(mesh.add_vertex([0.0; 3], Some(2)), 2);
    assert_eq!(mesh.add_vertex([0.0; 3], None), 14);
    assert_eq!(mesh.number_of_vertices(), 6);
}

#[test]
fn re_adding_a_vertex_key_replaces_its_payload() {
    let mut mesh = Mesh::new();
    mesh.add_vertex([1.0, 1.0, 1.0], Some(5));
    mesh.add_vertex([2.0, 2.0, 2.0], Some(5));
    assert_eq!(mesh.number_of_vertices(), 1);
    assert_eq!(mesh.vertex_position(5), Some(&[2.0, 2.0, 2.0]));
    assert_eq!(mesh.vertex_position(6), None);
}

#[test]
fn rejected_faces_leave_counts_unchanged() {
    let (mut mesh, v0, v1, v2) = triangle_mesh();
    mesh.add_face(vec![v0, v1, v2], None).unwrap();
    let before = (mesh.number_of_vertices(), mesh.number_of_faces(), mesh.number_of_edges());
    assert!(mesh.add_face(vec![], None).is_none());
    assert!(mesh.add_face(vec![v0, v1, 7], None).is_none());
    assert!(mesh.add_face(vec![v0, v1, v2, v1], None).is_none());
    let after = (mesh.number_of_vertices(), mesh.number_of_faces(), mesh.number_of_edges());
    assert_eq!(before, after);
}

#[test]
fn face_keys_are_counted_and_explicit_keys_overwrite() {
    let (mut mesh, v0, v1, v2) = triangle_mesh();
    let v3 = mesh.add_vertex([1.0, 1.0, 0.0], None);
    assert_eq!(mesh.add_face(vec![v0, v1, v2], None), Some(1));
    assert_eq!(mesh.add_face(vec![v1, v3, v2], Some(7)), Some(7));
    assert_eq!(mesh.add_face(vec![v0, v1, v3], None), Some(9));
    assert_eq!(mesh.add_face(vec![v0, v3, v2], Some(1)), Some(1));
    assert_eq!(mesh.number_of_faces(), 3);
    assert_eq!(mesh.face_vertices(1), Some(&vec![v0, v3, v2]));
    assert_eq!(mesh.face_keys(), vec![1, 7, 9]);
}

#[test]
fn shared_edge_is_interior_and_euler_follows_counts() {
    let (mut mesh, v0, v1, v2) = triangle_mesh();
    let v3 = mesh.add_vertex([1.0, 1.0, 0.0], None);
    mesh.add_face(vec![v0, v1, v2], None).unwrap();
    mesh.add_face(vec![v1, v3, v2], None).unwrap();
    assert_eq!(mesh.number_of_edges(), 5);
    assert_eq!(mesh.euler(), 4 - 5 + 2);
    let mut edges = mesh.edge_list();
    edges.sort();
    let mut expected = vec![(v0, v1), (v1, v2), (v0, v2), (v1, v3), (v2, v3)];
    for e in expected.iter_mut() {
        if e.0 > e.1 {
            *e = (e.1, e.0);
        }
    }
    expected.sort();
    assert_eq!(edges, expected);
    let mut boundary = mesh.boundary_edges();
    boundary.sort();
    let mut expected_boundary: Vec<(usize, usize)> =
        vec![(v0, v1), (v0, v2), (v1, v3), (v2, v3)].into_iter().map(|(a, b)| (a.min(b), a.max(b))).collect();
    expected_boundary.sort();
    assert_eq!(boundary, expected_boundary);
}

#[test]
fn closed_tetrahedron_has_no_boundary() {
    let mut mesh = Mesh::new();
    let a = mesh.add_vertex([0.0, 0.0, 0.0], None);
    let b = mesh.add_vertex([1.0, 0.0, 0.0], None);
    let c = mesh.add_vertex([0.0, 1.0, 0.0], None);
    let d = mesh.add_vertex([0.0, 0.0, 1.0], None);
    mesh.add_face(vec![a, c, b], None).unwrap();
    mesh.add_face(vec![a, b, d], None).unwrap();
    mesh.add_face(vec![b, c, d], None).unwrap();
    mesh.add_face(vec![c, a, d], None).unwrap();
    assert_eq!(mesh.number_of_edges(), 6);
    assert_eq!(mesh.euler(), 2);
    for v in [a, b, c, d] {
        assert!(!mesh.is_vertex_on_boundary(v));
        assert_eq!(mesh.vertex_faces(v).len(), 3);
        assert_eq!(mesh.vertex_neighbors(v).len(), 3);
    }
    assert!(mesh.boundary_edges().is_empty());
}

#[test]
fn unknown_vertex_has_no_neighbors_faces_or_boundary() {
    let (mut mesh, v0, v1, v2) = triangle_mesh();
    mesh.add_face(vec![v0, v1, v2], None);
    assert!(mesh.vertex_neighbors(100).is_empty());
    assert!(mesh.vertex_faces(100).is_empty());
    assert!(!mesh.is_vertex_on_boundary(100));
    assert_eq!(mesh.face_vertices(100), None);
}

#[test]
fn face_data_lists_every_face() {
    let (mut mesh, v0, v1, v2) = triangle_mesh();
    let f = mesh.add_face(vec![v0, v1, v2], None).unwrap();
    assert_eq!(mesh.get_face_data(), vec![(f, vec![v0, v1, v2])]);
}

#[test]
fn identity_name_and_type_tag() {
    let mut mesh: Mesh<[f64; 3]> = Mesh::new();
    assert_eq!(mesh.name(), "Mesh");
    assert_eq!(mesh.dtype(), "Mesh");
    mesh.set_name("cube");
    assert_eq!(mesh.name(), "cube");
    let other: Mesh<[f64; 3]> = Mesh::new();
    assert_ne!(mesh.guid(), other.guid());
    let g = other.guid();
    mesh.set_guid(g);
    assert_eq!(mesh.guid(), g);
}

#[test]
fn from_parts_replays_faces_and_rebuilds_halfedges() {
    let vertices = vec![(4, [0.0, 0.0, 0.0]), (8, [1.0, 0.0, 0.0]), (9, [0.0, 1.0, 0.0])];
    let faces = vec![(3, vec![4, 8, 9]), (5, vec![4, 8]), (6, vec![4, 8, 77])];
    let mesh = Mesh::from_parts(vertices, faces);
    assert_eq!(mesh.number_of_vertices(), 3);
    assert_eq!(mesh.number_of_faces(), 1);
    assert_eq!(mesh.face_vertices(3), Some(&vec![4, 8, 9]));
    assert_eq!(mesh.number_of_edges(), 3);
    assert!(mesh.is_vertex_on_boundary(4));
    let mut again = mesh;
    assert_eq!(again.add_vertex([0.0; 3], None), 11);
    assert_eq!(again.add_face(vec![4, 9, 11], None), Some(5));
}

#[test]
fn normal_weighting_is_a_plain_value() {
    let w = NormalWeighting::Angle;
    assert_eq!(w, NormalWeighting::Angle);
    assert_ne!(w, NormalWeighting::Area);
    assert_ne!(NormalWeighting::Uniform, NormalWeighting::Area);
}

#[test]
fn halfedges_of_one_triangle() {
    let (mut mesh, v0, v1, v2) = triangle_mesh();
    let f = mesh.add_face(vec![v0, v1, v2], None).unwrap();
    let mut hs = mesh.halfedge_list();
    hs.sort();
    let mut expected = vec![
        (v0, v1, Some(f)),
        (v1, v0, None),
        (v1, v2, Some(f)),
        (v2, v1, None),
        (v2, v0, Some(f)),
        (v0, v2, None),
    ];
    expected.sort();
    assert_eq!(hs, expected);
}

#[test]
fn second_face_claims_the_boundary_halfedge() {
    let (mut mesh, v0, v1, v2) = triangle_mesh();
    let v3 = mesh.add_vertex([1.0, 1.0, 0.0], None);
    let f1 = mesh.add_face(vec![v0, v1, v2], None).unwrap();
    let f2 = mesh.add_face(vec![v1, v3, v2], None).unwrap();
    let hs = mesh.halfedge_list();
    assert_eq!(hs.len(), 10);
    assert!(hs.contains(&(v1, v2, Some(f1))));
    assert!(hs.contains(&(v2, v1, Some(f2))));
    assert!(hs.contains(&(v3, v1, None)));
}

#[test]
fn empty_parts_start_both_counters_at_one() {
    let vertices: Vec<(usize, [f64; 3])> = Vec::new();
    let mut mesh = Mesh::from_parts(vertices, Vec::new());
    assert_eq!(mesh.max_vertex(), 1);
    assert_eq!(mesh.max_face(), 1);
    assert_eq!(mesh.add_vertex([0.0; 3], None), 2);
}

#[test]
fn loaded_counters_are_one_past_the_largest_key() {
    let vertices = vec![(4, [0.0; 3]), (8, [1.0, 0.0, 0.0]), (2, [0.0, 1.0, 0.0])];
    let mesh = Mesh::from_parts(vertices, vec![(6, vec![4, 8, 2]), (3, vec![4, 8, 2])]);
    assert_eq!(mesh.max_vertex(), 9);
    assert_eq!(mesh.max_face(), 7);
    let only_bad_faces = Mesh::from_parts(vec![(0, [0.0; 3])], vec![(5, vec![0, 1, 2])]);
    assert_eq!(only_bad_faces.max_vertex(), 1);
    assert_eq!(only_bad_faces.max_face(), 1);
}
