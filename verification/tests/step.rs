use k1fix::error::K1FixError;
use k1fix::step::{explicit_triangles, parse_entity_id, parse_hash_ids, poly_loop_captures};
use k1fix::step_mesh::{cartesian_point_statements, check_step_text, paren_fields, rebuild_mesh, step_mesh};

/// Reads STEP text the way the reader does: header check, point statements
/// (every one here has three coordinates), then the triangle assembly.
fn read_step(text: &str) -> Result<(Vec<i64>, Vec<[u32; 3]>), K1FixError> {
    check_step_text(text.as_bytes())?;
    let ids: Vec<i64> = cartesian_point_statements(text.as_bytes()).into_iter().map(|(id, _)| id).collect();
    rebuild_mesh(text.as_bytes(), &ids)
}

fn step_message(r: Result<(Vec<i64>, Vec<[u32; 3]>), K1FixError>) -> String {
    match r {
        Err(K1FixError::Step(m)) => m,
        _ => panic!("expected a STEP error"),
    }
}

#[test]
fn reads_faceted_step_triangle() {
    let step = r#"ISO-10303-21;
HEADER;
ENDSEC;
DATA;
#1=CARTESIAN_POINT('',(0.0,0.0,0.0));
#2=CARTESIAN_POINT('',(1.0,0.0,0.0));
#3=CARTESIAN_POINT('',(0.0,1.0,0.0));
#4=POLY_LOOP('',(#1,#2,#3));
ENDSEC;
END-ISO-10303-21;
"#;
    let (verts, tris) = read_step(step).expect("parse");
    assert_eq!(tris.len(), 1);
    assert_eq!(verts.len(), 3);
}

#[test]
fn rejects_non_step() {
    assert!(check_step_text(b"hello").is_err());
}

#[test]
fn non_step_and_non_utf8_messages() {
    match check_step_text(b"hello") {
        Err(K1FixError::Step(m)) => assert_eq!(m, "not a STEP file (missing ISO-10303 header)"),
        _ => panic!("expected a STEP error"),
    }
    match check_step_text(&[0x48, 0x45, 0xff]) {
        Err(K1FixError::Step(m)) => assert!(m.starts_with("STEP is not UTF-8: ")),
        _ => panic!("expected a STEP error"),
    }
    assert!(check_step_text(b"ISO-10303-21;").is_ok());
    assert!(check_step_text(b"HEADER;").is_ok());
    assert!(check_step_text(b"header;").is_err());
}

#[test]
fn hash_ids_in_order() {
    assert_eq!(parse_hash_ids(b"#4=POLY_LOOP('',(#1,#22,#3))"), vec![4, 1, 22, 3]);
    assert_eq!(parse_hash_ids(b"# #x #7"), vec![7]);
    assert_eq!(parse_hash_ids(b"#99999999999999999999,#5"), vec![5]);
    assert_eq!(parse_hash_ids(b""), Vec::<i64>::new());
}

#[test]
fn entity_ids() {
    assert_eq!(parse_entity_id(b"#12=CARTESIAN_POINT('',(1.0,2.0,3.0))"), Some(12));
    assert_eq!(parse_entity_id(b"\n  #7=X"), Some(7));
    assert_eq!(parse_entity_id(b"x#7=X"), None);
    assert_eq!(parse_entity_id(b"#=X"), None);
    assert_eq!(parse_entity_id("\u{a0}#3=X".as_bytes()), Some(3));
}

#[test]
fn poly_loops_and_triangles_by_statement() {
    let text = b"#1=poly_loop('',(#2,#3,#4));#5=POLY_LOOP('',(#2,#3));#6=TRIANGLE(#7,#8,#9,#10);#11=X(#1,#2,#3)";
    assert_eq!(poly_loop_captures(text), vec![vec![1, 2, 3, 4], vec![5, 2, 3]]);
    assert_eq!(explicit_triangles(text), vec![[6, 7, 8]]);
}

#[test]
fn point_statements_carry_ids_and_text() {
    let text = b"#1=CARTESIAN_POINT('',(0.,0.,0.));\n#2=cartesian_point('',(1.,0.,0.));X=CARTESIAN_POINT;";
    let points = cartesian_point_statements(text);
    assert_eq!(points.len(), 2);
    assert_eq!(points[0].0, 1);
    assert_eq!(points[0].1, b"#1=CARTESIAN_POINT('',(0.,0.,0.))".to_vec());
    assert_eq!(points[1].0, 2);
    assert_eq!(points[1].1, b"\n#2=cartesian_point('',(1.,0.,0.))".to_vec());
}

#[test]
fn quad_loops_fan_out_and_unknown_points_drop() {
    let text = "ISO-10303-21;\n#20=CARTESIAN_POINT('',(0.,0.,0.));\n#10=CARTESIAN_POINT('',(1.,0.,0.));\n#30=CARTESIAN_POINT('',(1.,1.,0.));\n#40=CARTESIAN_POINT('',(0.,1.,0.));\n#50=POLY_LOOP('',(#10,#20,#99,#30,#40));\n";
    let (order, tris) = read_step(text).expect("parse");
    assert_eq!(order, vec![10, 20, 30, 40]);
    assert_eq!(tris, vec![[0, 1, 2], [0, 2, 3]]);
}

#[test]
fn triangle_loops_need_all_three_points() {
    let text = "HEADER;#1=CARTESIAN_POINT('',(0.,0.,0.));#2=CARTESIAN_POINT('',(1.,0.,0.));#3=CARTESIAN_POINT('',(0.,1.,0.));#4=POLY_LOOP('',(#1,#2,#9));#5=POLY_LOOP('',(#3,#2,#1));#6=TRIANGULATED_FACE(#1,#3,#2);TRIANGLE(#1,#3,#2);TRIANGLE(#1,#2,#8);";
    let (order, tris) = read_step(text).expect("parse");
    assert_eq!(order, vec![1, 2, 3]);
    assert_eq!(tris, vec![[2, 1, 0], [0, 2, 1]]);
}

#[test]
fn dense_numbering_sorts_and_dedups() {
    let text = b"#7=POLY_LOOP('',(#5,#1,#3));";
    let (order, tris) = rebuild_mesh(text, &[5, 3, 1, 3]).expect("parse");
    assert_eq!(order, vec![1, 3, 5]);
    assert_eq!(tris, vec![[2, 0, 1]]);
}

#[test]
fn step_errors() {
    assert_eq!(
        step_message(read_step("ISO-10303-21;\n#4=POLY_LOOP('',(#1,#2,#3));")),
        "no CARTESIAN_POINT entities found"
    );
    assert_eq!(
        step_message(read_step("ISO-10303-21;\n#1=CARTESIAN_POINT('',(0.,0.,0.));\n#2=ADVANCED_FACE('',(#1));")),
        "STEP B-rep has no extractable triangular facets; export as STL/3MF or use a faceted STEP"
    );
}

/// Faceted STEP text for a mesh, written the way the program exports it:
/// one `CARTESIAN_POINT` per vertex, then one `POLY_LOOP` per triangle.
fn faceted_step(verts: &[[f64; 3]], tris: &[[u32; 3]]) -> String {
    let mut body = String::from(
        "ISO-10303-21;\nHEADER;\nFILE_DESCRIPTION(('k1fix'),'2;1');\nFILE_NAME('out.step','',('k1fix'),('k1fix'),'k1fix','k1fix','');\nFILE_SCHEMA(('AUTOMOTIVE_DESIGN'));\nENDSEC;\nDATA;\n",
    );
    let mut next_id: i64 = 1;
    for v in verts {
        body.push_str(&format!("#{next_id}=CARTESIAN_POINT('',({:.6},{:.6},{:.6}));\n", v[0], v[1], v[2]));
        next_id += 1;
    }
    for t in tris {
        body.push_str(&format!("#{next_id}=POLY_LOOP('',(#{},#{},#{}));\n", t[0] + 1, t[1] + 1, t[2] + 1));
        next_id += 1;
    }
    body.push_str("ENDSEC;\nEND-ISO-10303-21;\n");
    body
}

#[test]
fn mesh_to_step_round_trip() {
    let cube = k1fix::topology::MeshIndices::unit_cube();
    let verts = [
        [0.0, 0.0, 0.0],
        [1.0, 0.0, 0.0],
        [1.0, 1.0, 0.0],
        [0.0, 1.0, 0.0],
        [0.0, 0.0, 1.0],
        [1.0, 0.0, 1.0],
        [1.0, 1.0, 1.0],
        [0.0, 1.0, 1.0],
    ];
    let step = faceted_step(&verts, &cube.tris);
    let (order, tris) = read_step(&step).expect("parse");
    assert_eq!(order, (1..=8).collect::<Vec<i64>>());
    assert_eq!(tris.len(), cube.tris.len());
    assert_eq!(tris, cube.tris);
}

#[test]
fn rebuilt_triangles_use_existing_vertices() {
    let text = "ISO-10303-21;\n#3=CARTESIAN_POINT('',(0.,0.,0.));\n#9=CARTESIAN_POINT('',(1.,0.,0.));\n#5=CARTESIAN_POINT('',(1.,1.,0.));\n#2=POLY_LOOP('',(#3,#9,#5,#7));\nTRIANGLE(#5,#9,#3);\n";
    let (order, tris) = read_step(text).expect("parse");
    assert_eq!(order, vec![3, 5, 9]);
    assert_eq!(tris, vec![[0, 2, 1], [1, 2, 0]]);
    assert!(tris.iter().all(|t| t.iter().all(|&v| (v as usize) < order.len())));
}

#[test]
fn step_mesh_checks_the_text_first() {
    match step_mesh(b"nope", &[1, 2, 3]) {
        Err(K1FixError::Step(m)) => assert_eq!(m, "not a STEP file (missing ISO-10303 header)"),
        _ => panic!("expected a STEP error"),
    }
    match step_mesh(b"ISO-10303-21;", &[]) {
        Err(K1FixError::Step(m)) => assert_eq!(m, "no CARTESIAN_POINT entities found"),
        _ => panic!("expected a STEP error"),
    }
    let text = b"ISO-10303-21;\n#7=CARTESIAN_POINT('',(0.,0.,0.));\n#8=CARTESIAN_POINT('',(1.,0.,0.));\n#9=CARTESIAN_POINT('',(0.,1.,0.));\n#10=POLY_LOOP('',(#9,#7,#8));\n";
    let (order, tris) = step_mesh(text, &[9, 7, 8]).expect("parse");
    assert_eq!(order, vec![7, 8, 9]);
    assert_eq!(tris, vec![[2, 0, 1]]);
}

#[test]
fn coordinate_fields_come_from_the_last_parenthesised_list() {
    let fields = paren_fields(b"#1=CARTESIAN_POINT('',(1.5, 2,-3.))").expect("fields");
    assert_eq!(fields, vec![b"1.5".to_vec(), b" 2".to_vec(), b"-3.)".to_vec()]);
    assert_eq!(paren_fields(b"#1=CARTESIAN_POINT"), None);
    assert_eq!(paren_fields(b"a)b("), None);
    assert_eq!(paren_fields(b"()"), Some(vec![Vec::new()]));
}
