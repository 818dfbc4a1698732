use k1fix::topology::{
    cube_missing_top, edge_key, extract_boundary_loops, face_connected_components, EdgeMap,
    MeshIndices,
};

fn two_disjoint_cubes() -> MeshIndices {
    let a = MeshIndices::unit_cube();
    let b = MeshIndices::unit_cube();
    let offset = a.vertex_count as u32;
    let mut tris = a.tris.clone();
    tris.extend(b.tris.into_iter().map(|t| [t[0] + offset, t[1] + offset, t[2] + offset]));
    MeshIndices { vertex_count: a.vertex_count + b.vertex_count, tris }
}

#[test]
fn closed_cube_has_no_boundary() {
    let cube = MeshIndices::unit_cube();
    let map = EdgeMap::build(&cube);
    assert_eq!(map.open_edge_count(), 0);
    assert!(map.nonmanifold_edges().is_empty());
    assert!(cube.boundary_loops().is_empty());
    assert_eq!(cube.connected_components().len(), 1);
}

#[test]
fn cube_missing_top_has_one_boundary_loop() {
    let mesh = cube_missing_top();
    let map = EdgeMap::build(&mesh);
    assert_eq!(map.open_edge_count(), 4);
    let loops = mesh.boundary_loops();
    assert_eq!(loops.len(), 1);
    assert_eq!(loops[0].len(), 4);
}

#[test]
fn two_disjoint_cubes_two_components() {
    let mesh = two_disjoint_cubes();
    assert_eq!(mesh.connected_components().len(), 2);
}

#[test]
fn edge_key_is_ordered() {
    assert_eq!(edge_key(3, 1), (1, 3));
    assert_eq!(edge_key(1, 3), (1, 3));
}

#[test]
fn nonmanifold_edge_detected() {
    // Three triangles sharing the same edge (0,1).
    let mesh = MeshIndices { vertex_count: 5, tris: vec![[0, 1, 2], [0, 1, 3], [0, 1, 4]] };
    let nm = EdgeMap::build(&mesh).nonmanifold_edges();
    assert!(nm.contains(&(0, 1)));
}

#[test]
fn edge_key_ignores_direction() {
    for (a, b) in [(0u32, 0u32), (7, 2), (u32::MAX, 5)] {
        assert_eq!(edge_key(a, b), edge_key(b, a));
        let (lo, hi) = edge_key(a, b);
        assert!(lo <= hi);
    }
}

#[test]
fn edge_map_lists_faces_per_edge() {
    let mesh = MeshIndices { vertex_count: 4, tris: vec![[0, 1, 2], [2, 1, 3]] };
    let map = EdgeMap::build(&mesh);
    assert_eq!(map.faces_of((1, 2)), Some(vec![0, 1]));
    assert_eq!(map.faces_of((0, 1)), Some(vec![0]));
    assert_eq!(map.faces_of((0, 3)), None);
    let mut boundary = map.boundary_edges();
    boundary.sort();
    assert_eq!(boundary, vec![(0, 1), (0, 2), (1, 3), (2, 3)]);
    assert_eq!(map.open_edge_count(), 4);
}

#[test]
fn unit_cube_indices() {
    let cube = MeshIndices::unit_cube();
    assert_eq!(cube.vertex_count, 8);
    assert_eq!(cube.tris.len(), 12);
    assert_eq!(cube.tris[0], [0, 2, 1]);
    assert_eq!(cube.tris[11], [3, 4, 7]);
    let open = cube_missing_top();
    assert_eq!(open.tris.len(), 10);
    assert!(!open.tris.contains(&[4, 5, 6]));
    assert!(!open.tris.contains(&[4, 6, 7]));
}

#[test]
fn boundary_loop_walks_the_rim() {
    let mesh = cube_missing_top();
    let loops = extract_boundary_loops(&mesh);
    assert_eq!(loops.len(), 1);
    let mut verts = loops[0].clone();
    verts.sort();
    assert_eq!(verts, vec![4, 5, 6, 7]);
}

#[test]
fn components_partition_faces() {
    let mesh = two_disjoint_cubes();
    let comps = face_connected_components(&mesh);
    assert_eq!(comps.len(), 2);
    let mut first = comps[0].clone();
    first.sort();
    assert_eq!(first, (0..12).collect::<Vec<u32>>());
    let mut second = comps[1].clone();
    second.sort();
    assert_eq!(second, (12..24).collect::<Vec<u32>>());
    assert_eq!(comps[0][0], 0);
}

#[test]
fn empty_mesh_has_nothing() {
    let mesh = MeshIndices { vertex_count: 0, tris: vec![] };
    assert!(face_connected_components(&mesh).is_empty());
    assert!(extract_boundary_loops(&mesh).is_empty());
    assert_eq!(EdgeMap::build(&mesh).open_edge_count(), 0);
}

#[test]
fn each_rim_is_walked_once_around() {
    let one = cube_missing_top();
    let mut tris = one.tris.clone();
    for t in &one.tris {
        tris.push([t[0] + 8, t[1] + 8, t[2] + 8]);
    }
    let mesh = MeshIndices { vertex_count: 16, tris };
    let loops = extract_boundary_loops(&mesh);
    assert_eq!(loops.len(), 2);
    let mut rims: Vec<Vec<u32>> = loops
        .iter()
        .map(|l| {
            let mut v = l.clone();
            v.sort();
            v
        })
        .collect();
    rims.sort();
    assert_eq!(rims, vec![vec![4, 5, 6, 7], vec![12, 13, 14, 15]]);
    for l in &loops {
        for i in 0..l.len() {
            let (a, b) = (l[i], l[(i + 1) % l.len()]);
            let walked = mesh
                .tris
                .iter()
                .any(|t| (t[0] == a && t[1] == b) || (t[1] == a && t[2] == b) || (t[2] == a && t[0] == b));
            assert!(walked);
        }
    }
}

#[test]
fn components_start_with_their_smallest_face() {
    let mesh = MeshIndices { vertex_count: 8, tris: vec![[4, 5, 6], [0, 1, 2], [1, 2, 3], [5, 6, 7]] };
    let comps = face_connected_components(&mesh);
    assert_eq!(comps.len(), 2);
    for c in &comps {
        assert_eq!(c[0], *c.iter().min().unwrap());
    }
    assert_eq!(comps[0][0], 0);
    assert_eq!(comps[1][0], 1);
}
