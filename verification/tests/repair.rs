use k1fix::repair::{
    apply_degenerate, apply_hole_patches, apply_weld, drop_specks, hole_fillable,
    orient_consistent, remove_duplicate_faces, same_edge_direction, sort_indices,
    split_nonmanifold, RepairOptions,
};
use k1fix::topology::cube_missing_top;
use k1fix::topology::{face_connected_components, EdgeMap, MeshIndices};

#[test]
fn repair_removes_degenerate() {
    let mut mesh = MeshIndices { vertex_count: 3, tris: vec![[0, 1, 2], [0, 0, 1]] };
    // The second triangle has zero area; the first is half a unit square.
    let outcome = apply_degenerate(&mut mesh, &vec![true, false]);
    assert!(mesh.tris.iter().all(|t| t[0] != t[1]));
    assert_eq!(outcome.summary, "removed 1 degenerate triangles");
    assert!(outcome.changed);
}

#[test]
fn default_options_drop_specks() {
    assert!(RepairOptions::default().drop_specks);
}

#[test]
fn flip_winding_twice_restores() {
    let mut mesh = MeshIndices::unit_cube();
    mesh.flip_winding();
    assert_eq!(mesh.tris[0], [0, 1, 2]);
    mesh.flip_winding();
    assert_eq!(mesh.tris, MeshIndices::unit_cube().tris);
}

#[test]
fn weld_rewrites_indices() {
    let mut mesh = MeshIndices { vertex_count: 6, tris: vec![[0, 1, 2], [3, 4, 5]] };
    let outcome = apply_weld(&mut mesh, &vec![0, 1, 2, 2, 1, 3], 4);
    assert_eq!(mesh.tris, vec![[0, 1, 2], [2, 1, 3]]);
    assert_eq!(mesh.vertex_count, 4);
    assert_eq!(outcome.summary, "welded vertices 6 -> 4");
    assert!(outcome.changed);
    let again = apply_weld(&mut mesh, &vec![0, 1, 2, 3], 4);
    assert_eq!(again.summary, "welded vertices 4 -> 4");
    assert!(!again.changed);
}

#[test]
fn duplicate_faces_any_winding() {
    let mut mesh = MeshIndices { vertex_count: 4, tris: vec![[0, 1, 2], [2, 1, 0], [1, 2, 3], [1, 0, 2]] };
    let outcome = remove_duplicate_faces(&mut mesh);
    assert_eq!(mesh.tris, vec![[0, 1, 2], [1, 2, 3]]);
    assert_eq!(outcome.summary, "removed 2 duplicate faces");
    assert!(outcome.changed);
    let again = remove_duplicate_faces(&mut mesh);
    assert_eq!(again.summary, "removed 0 duplicate faces");
    assert!(!again.changed);
}

#[test]
fn sorted_indices() {
    assert_eq!(sort_indices([3, 1, 2]), [1, 2, 3]);
    assert_eq!(sort_indices([2, 2, 0]), [0, 2, 2]);
}

#[test]
fn edge_direction_of_a_triangle() {
    assert!(same_edge_direction(&[0, 1, 2], 1, 2));
    assert!(!same_edge_direction(&[0, 1, 2], 2, 1));
    assert!(same_edge_direction(&[0, 1, 2], 2, 0));
}

#[test]
fn nonmanifold_split_gives_excess_faces_fresh_vertices() {
    let mut mesh = MeshIndices { vertex_count: 5, tris: vec![[0, 1, 2], [0, 1, 3], [0, 1, 4]] };
    let (sources, outcome) = split_nonmanifold(&mut mesh);
    assert_eq!(outcome.summary, "separated non-manifold edges");
    assert!(outcome.changed);
    assert_eq!(sources, vec![0, 1]);
    assert_eq!(mesh.vertex_count, 7);
    assert_eq!(mesh.tris, vec![[0, 1, 2], [0, 1, 3], [5, 6, 4]]);
    assert!(EdgeMap::build(&mesh).nonmanifold_edges().is_empty());
}

#[test]
fn nonmanifold_split_leaves_manifold_meshes() {
    let mut mesh = MeshIndices::unit_cube();
    let (sources, outcome) = split_nonmanifold(&mut mesh);
    assert!(sources.is_empty());
    assert_eq!(outcome.summary, "no non-manifold edges");
    assert!(!outcome.changed);
    assert_eq!(mesh.tris, MeshIndices::unit_cube().tris);
}

#[test]
fn orientation_follows_the_first_face() {
    let mut mesh = MeshIndices::unit_cube();
    let t = mesh.tris[5];
    mesh.tris[5] = [t[0], t[2], t[1]];
    orient_consistent(&mut mesh);
    assert_eq!(mesh.tris, MeshIndices::unit_cube().tris);
}

#[test]
fn specks_are_dropped_by_component() {
    let cube = MeshIndices::unit_cube();
    let mut tris = cube.tris.clone();
    tris.push([8, 9, 10]);
    let mut mesh = MeshIndices { vertex_count: 11, tris };
    let comps = face_connected_components(&mesh);
    assert_eq!(comps.len(), 2);
    let outcome = drop_specks(&mut mesh, &comps, &vec![false, true]);
    assert_eq!(outcome.summary, "dropped 1 speck faces");
    assert!(outcome.changed);
    assert_eq!(mesh.tris, cube.tris);
    let comps = face_connected_components(&mesh);
    let kept = drop_specks(&mut mesh, &comps, &vec![false]);
    assert_eq!(kept.summary, "no specks");
    assert!(!kept.changed);
}

#[test]
fn hole_size_limits() {
    assert!(!hole_fillable(2));
    assert!(hole_fillable(3));
    assert!(hole_fillable(1000));
    assert!(!hole_fillable(1001));
}

#[test]
fn hole_patches_close_the_box() {
    let mut mesh = cube_missing_top();
    assert_eq!(EdgeMap::build(&mesh).open_edge_count(), 4);
    let outcome = apply_hole_patches(&mut mesh, &vec![vec![[4, 5, 6], [4, 6, 7]]]);
    assert_eq!(outcome.summary, "filled holes with 2 triangles");
    assert!(outcome.changed);
    assert_eq!(EdgeMap::build(&mesh).open_edge_count(), 0);
    let none = apply_hole_patches(&mut mesh, &vec![]);
    assert_eq!(none.summary, "filled holes with 0 triangles");
    assert!(!none.changed);
}

#[test]
fn orienting_a_consistent_mesh_changes_nothing() {
    let mut mesh = MeshIndices::unit_cube();
    orient_consistent(&mut mesh);
    assert_eq!(mesh.tris, MeshIndices::unit_cube().tris);
    let mut open = k1fix::topology::cube_missing_top();
    orient_consistent(&mut open);
    assert_eq!(open.tris, k1fix::topology::cube_missing_top().tris);
}

#[test]
fn orientation_follows_each_parent_as_placed() {
    let mut strip = MeshIndices { vertex_count: 5, tris: vec![[0, 1, 2], [1, 2, 3], [3, 2, 4]] };
    orient_consistent(&mut strip);
    assert_eq!(strip.tris, vec![[0, 1, 2], [1, 3, 2], [3, 4, 2]]);
    assert!(!same_edge_direction(&strip.tris[1], 2, 3));
    assert!(same_edge_direction(&strip.tris[2], 2, 3));
}
