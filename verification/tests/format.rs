use k1fix::error::K1FixError;
use k1fix::format::{require_format, require_writable, MeshFormat};

#[test]
fn format_from_path() {
    assert_eq!(MeshFormat::from_path("a.STL"), Some(MeshFormat::Stl));
    assert_eq!(MeshFormat::from_path("a.3mf"), Some(MeshFormat::ThreeMf));
    assert_eq!(MeshFormat::from_path("a.stp"), Some(MeshFormat::Step));
    assert_eq!(MeshFormat::from_path("a.obj"), None);
}

#[test]
fn extension_detection_ignores_case() {
    assert_eq!(MeshFormat::from_extension("STEP"), Some(MeshFormat::Step));
    assert_eq!(MeshFormat::from_extension("Step"), Some(MeshFormat::Step));
    assert_eq!(MeshFormat::from_extension("3MF"), Some(MeshFormat::ThreeMf));
    assert_eq!(MeshFormat::from_extension("sTl"), Some(MeshFormat::Stl));
    assert_eq!(MeshFormat::from_extension("stla"), None);
    assert_eq!(MeshFormat::from_extension(""), None);
}

#[test]
fn paths_without_extension() {
    assert_eq!(MeshFormat::from_path("README"), None);
    assert_eq!(MeshFormat::from_path(".stl"), None);
    assert_eq!(MeshFormat::from_path("dir.stl/model"), None);
    assert_eq!(MeshFormat::from_path("dir/model.tar.step"), Some(MeshFormat::Step));
}

#[test]
fn unsupported_formats_name_the_path() {
    assert_eq!(require_format("m.3MF").ok(), Some(MeshFormat::ThreeMf));
    match require_format("model.obj") {
        Err(K1FixError::UnsupportedFormat { path }) => assert_eq!(path, "model.obj"),
        _ => panic!("expected an unsupported-format error"),
    }
    assert!(require_writable(MeshFormat::Stl).is_ok());
    assert!(require_writable(MeshFormat::ThreeMf).is_ok());
    match require_writable(MeshFormat::Step) {
        Err(K1FixError::UnsupportedFormat { path }) => assert_eq!(path, "out.step"),
        _ => panic!("expected an unsupported-format error"),
    }
}

#[test]
fn bare_file_names_take_the_part_after_their_last_dot() {
    assert_eq!(MeshFormat::from_path("a.stl"), Some(MeshFormat::Stl));
    assert_eq!(MeshFormat::from_path("part.v2.STP"), Some(MeshFormat::Step));
    assert_eq!(MeshFormat::from_path(".stl"), None);
    assert_eq!(MeshFormat::from_path("stl"), None);
    assert_eq!(MeshFormat::from_path("a.stl."), None);
}
