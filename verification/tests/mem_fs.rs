use k1fix::error::{IoErrorKind, K1FixError};
use k1fix::mem_fs::{make_path_key, MemFs};
use k1fix::ports::{FileMeshRepository, Fs};

#[test]
fn mem_fs_round_trip_and_failures() {
    let mut fs = MemFs::new();
    let path = "a.stl";
    assert!(fs.write(path, b"hello").is_ok());
    assert!(fs.file_exists(path));
    assert_eq!(fs.read(path).expect("read"), b"hello");
    fs.set_fail_write(true);
    assert!(fs.write(path, b"x").is_err());
    fs.set_fail_write(false);
    fs.set_fail_read(true);
    assert!(fs.read(path).is_err());
}

#[test]
fn missing_file_is_not_found() {
    let fs = MemFs::new();
    assert!(!fs.file_exists("nope.stl"));
    match fs.read("nope.stl") {
        Err(K1FixError::Io { kind, message }) => {
            assert_eq!(kind, IoErrorKind::NotFound);
            assert_eq!(message, "missing");
        }
        _ => panic!("expected a not-found error"),
    }
}

#[test]
fn forced_failures_carry_their_messages() {
    let mut fs = MemFs::new();
    fs.set_fail_write(true);
    match fs.write("a", b"1") {
        Err(K1FixError::Io { kind, message }) => {
            assert_eq!(kind, IoErrorKind::Other);
            assert_eq!(message, "forced write failure");
        }
        _ => panic!("expected a forced write failure"),
    }
    assert!(!fs.file_exists("a"));
    fs.set_fail_read(true);
    match fs.read("a") {
        Err(K1FixError::Io { kind, message }) => {
            assert_eq!(kind, IoErrorKind::Other);
            assert_eq!(message, "forced read failure");
        }
        _ => panic!("expected a forced read failure"),
    }
}

#[test]
fn overwrite_replaces_and_other_paths_stay() {
    let mut fs = MemFs::new();
    fs.write("a", b"one").unwrap();
    fs.write("b", b"two").unwrap();
    fs.write("a", b"three").unwrap();
    assert_eq!(fs.read("a").unwrap(), b"three");
    assert_eq!(fs.read("b").unwrap(), b"two");
}

#[test]
fn repository_wraps_its_filesystem() {
    let mut fs = MemFs::new();
    fs.write("cube.stl", b"solid").unwrap();
    let mut repo = FileMeshRepository::new(fs);
    assert!(repo.filesystem().file_exists("cube.stl"));
    repo.filesystem_mut().write("out.3mf", b"zip").unwrap();
    assert_eq!(repo.filesystem().read("out.3mf").unwrap(), b"zip");
}

#[test]
fn paths_with_the_same_components_name_one_file() {
    let mut fs = MemFs::new();
    fs.write("a//b", b"x").unwrap();
    assert_eq!(fs.read("a/b").unwrap(), b"x".to_vec());
    assert_eq!(fs.read("a/./b/").unwrap(), b"x".to_vec());
    assert!(fs.file_exists("a/b"));
    assert!(!fs.file_exists("./a/b"));
    assert!(!fs.file_exists("/a/b"));
    fs.write("/a/b", b"y").unwrap();
    assert_eq!(fs.read("//a/b").unwrap(), b"y".to_vec());
    assert_eq!(fs.read("a/b").unwrap(), b"x".to_vec());
    assert_eq!(make_path_key("./x//y/."), "./x/y");
    assert_eq!(make_path_key("/"), "/");
}
