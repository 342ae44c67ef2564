use memfs::path::{resolve, CanonPath};
use memfs::vfs::{create_dir, File, Registry};
use memfs::{EntryKind, FsError};

fn path_of(text: &str) -> CanonPath {
    resolve(&CanonPath::root(), text)
}

#[test]
fn create_dir_then_is_directory_and_read_denied() {
    let mut reg = Registry::new();
    let p = path_of("/docs");
    create_dir(&mut reg, &p);
    assert!(reg.is_directory(&p));
    let mut h = File::open(&reg, &p).unwrap();
    let mut buf = vec![0u8; 8];
    assert_eq!(h.read(&reg, &mut buf), Err(FsError::PermissionDenied));
}

#[test]
fn write_to_directory_denied() {
    let mut reg = Registry::new();
    let p = path_of("/docs");
    create_dir(&mut reg, &p);
    let mut h = File::open(&reg, &p).unwrap();
    let data = vec![1u8, 2u8];
    assert_eq!(h.write(&mut reg, &data), Err(FsError::PermissionDenied));
}

#[test]
fn open_missing_fails_not_found() {
    let reg = Registry::new();
    let p = path_of("/missing");
    match File::open(&reg, &p) {
        Err(e) => assert_eq!(e, FsError::NotFound),
        Ok(_) => panic!("open of an absent path must fail"),
    }
}

#[test]
fn create_then_read_returns_zero_bytes() {
    let mut reg = Registry::new();
    let p = path_of("/empty");
    let mut h = File::create(&mut reg, &p);
    let mut buf = vec![9u8; 4];
    assert_eq!(h.read(&reg, &mut buf), Ok(0));
    assert_eq!(buf, vec![9u8; 4]);
}

#[test]
fn write_then_read_round_trip() {
    let mut reg = Registry::new();
    let p = path_of("/data");
    let mut h = File::create(&mut reg, &p);
    let data = vec![1u8, 2u8, 3u8, 4u8];
    assert_eq!(h.write(&mut reg, &data), Ok(4));
    let mut h2 = File::open(&reg, &p).unwrap();
    let mut buf = vec![0u8; 4];
    assert_eq!(h2.read(&reg, &mut buf), Ok(4));
    assert_eq!(buf, vec![1u8, 2u8, 3u8, 4u8]);
}

#[test]
fn second_write_truncates() {
    let mut reg = Registry::new();
    let p = path_of("/data");
    let mut h = File::create(&mut reg, &p);
    let first = vec![1u8, 2u8, 3u8, 4u8];
    let second = vec![9u8, 8u8];
    assert_eq!(h.write(&mut reg, &first), Ok(4));
    assert_eq!(h.write(&mut reg, &second), Ok(2));
    let mut h2 = File::open(&reg, &p).unwrap();
    let mut buf = vec![0u8; 8];
    // the cursor stayed at 0, so the second write replaced everything
    assert_eq!(h2.read(&reg, &mut buf), Ok(2));
    assert_eq!(&buf[..2], &[9u8, 8u8]);
}

#[test]
fn read_into_smaller_buffer_clamps() {
    let mut reg = Registry::new();
    let p = path_of("/data");
    let mut h = File::create(&mut reg, &p);
    let data = vec![1u8, 2u8, 3u8, 4u8, 5u8];
    assert_eq!(h.write(&mut reg, &data), Ok(5));
    let mut h2 = File::open(&reg, &p).unwrap();
    let mut buf = vec![0u8; 2];
    assert_eq!(h2.read(&reg, &mut buf), Ok(2));
    assert_eq!(buf, vec![1u8, 2u8]);
}

#[test]
fn read_into_larger_buffer_keeps_tail() {
    let mut reg = Registry::new();
    let p = path_of("/data");
    let mut h = File::create(&mut reg, &p);
    let data = vec![1u8, 2u8];
    assert_eq!(h.write(&mut reg, &data), Ok(2));
    let mut h2 = File::open(&reg, &p).unwrap();
    let mut buf = vec![7u8; 4];
    assert_eq!(h2.read(&reg, &mut buf), Ok(2));
    assert_eq!(buf, vec![1u8, 2u8, 7u8, 7u8]);
}

#[test]
fn create_replaces_and_expires_old_handle() {
    let mut reg = Registry::new();
    let p = path_of("/live");
    let mut h1 = File::create(&mut reg, &p);
    let data = vec![5u8, 6u8];
    assert_eq!(h1.write(&mut reg, &data), Ok(2));
    // replacing the entry kills the old slot: the registry was its only owner
    let mut h2 = File::create(&mut reg, &p);
    let mut buf = vec![0u8; 4];
    assert_eq!(h1.read(&reg, &mut buf), Err(FsError::NotFound));
    assert_eq!(h1.write(&mut reg, &data), Err(FsError::NotFound));
    assert_eq!(h2.read(&reg, &mut buf), Ok(0));
}

#[test]
fn overwrite_file_then_open_sees_new_content() {
    let mut reg = Registry::new();
    let p = path_of("/log");
    let mut h = File::create(&mut reg, &p);
    let data = vec![1u8, 2u8, 3u8];
    assert_eq!(h.write(&mut reg, &data), Ok(3));
    File::create(&mut reg, &p);
    let mut h2 = File::open(&reg, &p).unwrap();
    let mut buf = vec![0u8; 4];
    assert_eq!(h2.read(&reg, &mut buf), Ok(0));
}

#[test]
fn create_dir_overwrites_file_entry() {
    let mut reg = Registry::new();
    let p = path_of("/thing");
    File::create(&mut reg, &p);
    assert!(!reg.is_directory(&p));
    create_dir(&mut reg, &p);
    assert!(reg.is_directory(&p));
}

#[test]
fn is_directory_false_for_file_and_missing_true_for_root() {
    let mut reg = Registry::new();
    let f = path_of("/file");
    File::create(&mut reg, &f);
    assert!(!reg.is_directory(&f));
    assert!(!reg.is_directory(&path_of("/absent")));
    assert!(reg.is_directory(&CanonPath::root()));
}

#[test]
fn list_children_of_root() {
    let mut reg = Registry::new();
    File::create(&mut reg, &path_of("/a"));
    create_dir(&mut reg, &path_of("/b"));
    let mut listed = reg.list_children(&CanonPath::root());
    listed.sort();
    assert_eq!(
        listed,
        vec![("a".to_string(), EntryKind::File), ("b".to_string(), EntryKind::Dir)]
    );
}

#[test]
fn list_children_is_limited_to_immediate_children() {
    let mut reg = Registry::new();
    let d = path_of("/d");
    create_dir(&mut reg, &d);
    File::create(&mut reg, &path_of("/d/x"));
    create_dir(&mut reg, &path_of("/d/y"));
    File::create(&mut reg, &path_of("/d/y/deep"));
    File::create(&mut reg, &path_of("/e"));
    let mut listed = reg.list_children(&d);
    listed.sort();
    assert_eq!(
        listed,
        vec![("x".to_string(), EntryKind::File), ("y".to_string(), EntryKind::Dir)]
    );
}

#[test]
fn list_children_of_empty_registry_is_empty() {
    let reg = Registry::new();
    assert!(reg.list_children(&CanonPath::root()).is_empty());
}

#[test]
fn flush_succeeds_and_changes_nothing() {
    let mut reg = Registry::new();
    let p = path_of("/data");
    let mut h = File::create(&mut reg, &p);
    let data = vec![1u8];
    assert_eq!(h.write(&mut reg, &data), Ok(1));
    assert_eq!(h.flush(), Ok(()));
    let mut h2 = File::open(&reg, &p).unwrap();
    let mut buf = vec![0u8; 1];
    assert_eq!(h2.read(&reg, &mut buf), Ok(1));
    assert_eq!(buf, vec![1u8]);
}
