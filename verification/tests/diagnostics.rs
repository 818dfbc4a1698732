use k1fix::diagnostics::{
    check_degenerate, check_duplicates, check_nonmanifold, check_open_edges, check_shells,
    check_triangle_count, exit_code_for, shares_vertex, worst_severity, CheckId, Finding, Severity,
};
use k1fix::topology::{cube_missing_top, MeshIndices};

fn finding(id: CheckId, severity: Severity, message: &str) -> Finding {
    Finding::new(id, severity, message.to_string())
}

#[test]
fn check_id_display() {
    assert_eq!(CheckId::Fit001.label(), "FIT001");
    assert_eq!(CheckId::Prt005.as_str(), "PRT005");
}

#[test]
fn worst_severity_ordering() {
    let f = vec![
        Finding::new(CheckId::Prt003, Severity::Info, "i".to_string()),
        Finding::new(CheckId::Fit003, Severity::Warning, "w".to_string()),
        Finding::new(CheckId::Fit001, Severity::Error, "e".to_string()),
    ];
    assert_eq!(worst_severity(&f), Some(Severity::Error));
}

#[test]
fn open_edges_detected() {
    let mesh = cube_missing_top();
    let findings = check_open_edges(&mesh);
    assert!(findings.iter().any(|f| f.id == "MESH001"));
}

#[test]
fn closed_cube_clean_mesh_checks() {
    let mesh = MeshIndices::unit_cube();
    let mut findings = check_open_edges(&mesh);
    findings.extend(check_nonmanifold(&mesh));
    assert!(!findings.iter().any(|f| f.id == "MESH001"));
    assert!(!findings.iter().any(|f| f.id == "MESH002"));
}

#[test]
fn every_check_id_has_its_name() {
    let all = [
        (CheckId::Fit001, "FIT001"),
        (CheckId::Fit002, "FIT002"),
        (CheckId::Fit003, "FIT003"),
        (CheckId::Fit004, "FIT004"),
        (CheckId::Mesh001, "MESH001"),
        (CheckId::Mesh002, "MESH002"),
        (CheckId::Mesh003, "MESH003"),
        (CheckId::Mesh004, "MESH004"),
        (CheckId::Mesh005, "MESH005"),
        (CheckId::Mesh006, "MESH006"),
        (CheckId::Mesh007, "MESH007"),
        (CheckId::Prt001, "PRT001"),
        (CheckId::Prt002, "PRT002"),
        (CheckId::Prt003, "PRT003"),
        (CheckId::Prt004, "PRT004"),
        (CheckId::Prt005, "PRT005"),
    ];
    for (id, name) in all {
        assert_eq!(id.as_str(), name);
        assert_eq!(id.label(), name);
    }
}

#[test]
fn finding_new_keeps_its_parts() {
    let f = finding(CheckId::Mesh004, Severity::Warning, "3 degenerate triangles");
    assert_eq!(f.id, "MESH004");
    assert_eq!(f.severity, Severity::Warning);
    assert_eq!(f.message, "3 degenerate triangles");
}

#[test]
fn worst_severity_of_nothing_is_none() {
    assert_eq!(worst_severity(&[]), None);
    let infos = vec![finding(CheckId::Prt003, Severity::Info, "a"), finding(CheckId::Mesh005, Severity::Info, "b")];
    assert_eq!(worst_severity(&infos), Some(Severity::Info));
    let mixed = vec![finding(CheckId::Fit004, Severity::Warning, "m"), finding(CheckId::Prt003, Severity::Info, "i")];
    assert_eq!(worst_severity(&mixed), Some(Severity::Warning));
}

#[test]
fn exit_codes_follow_the_table() {
    assert_eq!(exit_code_for(&[]), 0);
    assert_eq!(exit_code_for(&[finding(CheckId::Prt003, Severity::Info, "i")]), 0);
    assert_eq!(exit_code_for(&[finding(CheckId::Fit004, Severity::Warning, "w")]), 1);
    assert_eq!(
        exit_code_for(&[
            finding(CheckId::Fit004, Severity::Warning, "w"),
            finding(CheckId::Fit001, Severity::Error, "e"),
            finding(CheckId::Prt003, Severity::Info, "i"),
        ]),
        2
    );
}

#[test]
fn more_findings_never_lower_the_exit_code() {
    let warn = vec![finding(CheckId::Fit004, Severity::Warning, "w")];
    let mut both = warn.clone();
    both.push(finding(CheckId::Prt003, Severity::Info, "i"));
    assert_eq!(exit_code_for(&both), exit_code_for(&warn));
    both.push(finding(CheckId::Mesh001, Severity::Error, "e"));
    assert_eq!(exit_code_for(&both), 2);
}

#[test]
fn open_edges_message_counts_the_rim() {
    let findings = check_open_edges(&cube_missing_top());
    assert_eq!(findings.len(), 1);
    assert_eq!(findings[0].severity, Severity::Error);
    assert_eq!(findings[0].message, "4 open boundary edges (holes)");
}

#[test]
fn nonmanifold_message() {
    let mesh = MeshIndices { vertex_count: 5, tris: vec![[0, 1, 2], [0, 1, 3], [0, 1, 4]] };
    let findings = check_nonmanifold(&mesh);
    assert_eq!(findings.len(), 1);
    assert_eq!(findings[0].id, "MESH002");
    assert_eq!(findings[0].message, "1 non-manifold edges");
}

#[test]
fn shells_are_reported_only_when_several() {
    let cube = MeshIndices::unit_cube();
    assert!(check_shells(&cube).is_empty());
    let mut tris = cube.tris.clone();
    tris.extend(cube.tris.iter().map(|t| [t[0] + 8, t[1] + 8, t[2] + 8]));
    let two = MeshIndices { vertex_count: 16, tris };
    let findings = check_shells(&two);
    assert_eq!(findings.len(), 1);
    assert_eq!(findings[0].id, "MESH006");
    assert_eq!(findings[0].severity, Severity::Info);
    assert_eq!(findings[0].message, "2 disconnected shells");
}

#[test]
fn triangle_count_threshold() {
    assert!(check_triangle_count(2_000_000).is_empty());
    let findings = check_triangle_count(2_000_001);
    assert_eq!(findings.len(), 1);
    assert_eq!(findings[0].id, "PRT005");
    assert_eq!(findings[0].message, "2000001 triangles \u{2014} consider decimation");
}

#[test]
fn degenerate_count_uses_indices_and_area_flags() {
    let mesh = MeshIndices { vertex_count: 4, tris: vec![[0, 1, 2], [0, 0, 1], [1, 2, 3]] };
    let findings = check_degenerate(&mesh, &vec![true, true, false]);
    assert_eq!(findings.len(), 1);
    assert_eq!(findings[0].id, "MESH004");
    assert_eq!(findings[0].severity, Severity::Warning);
    assert_eq!(findings[0].message, "2 degenerate triangles");
    assert!(check_degenerate(&mesh, &vec![true, true, true]).len() == 1);
    let clean = MeshIndices { vertex_count: 3, tris: vec![[0, 1, 2]] };
    assert!(check_degenerate(&clean, &vec![true]).is_empty());
}

#[test]
fn duplicate_vertices_message() {
    assert!(check_duplicates(8, 8).is_empty());
    assert!(check_duplicates(8, 9).is_empty());
    let findings = check_duplicates(24, 8);
    assert_eq!(findings.len(), 1);
    assert_eq!(findings[0].id, "MESH005");
    assert_eq!(findings[0].message, "16 duplicate vertices");
}

#[test]
fn shared_vertices() {
    assert!(shares_vertex([0, 1, 2], [2, 3, 4]));
    assert!(!shares_vertex([0, 1, 2], [3, 4, 5]));
}
