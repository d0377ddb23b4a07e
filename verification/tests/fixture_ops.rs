//! Staging operations: writing, touching, directory creation, error kinds.

use fixture_assert::assertions::check;
use fixture_assert::{
    CaseKind, ChildPath, ExistsPathPredicate, FileTouch, FileWriteBin, FileWriteFile,
    FileWriteStr, FixtureKind, FsNode, FsTree, MissingPathPredicate, PathCreateDir,
};

#[test]
fn write_bytes_then_assert_round_trip() {
    let mut fs = FsTree::new();
    let path = ChildPath::root().child("fresh.bin");
    path.write_binary(&mut fs, &[0u8, 1, 2, 255]).unwrap();
    assert!(check(&fs, &path, &[0u8, 1, 2, 255] as &[u8]).is_none());
    let case = check(&fs, &path, &[0u8, 1, 2, 254] as &[u8]).unwrap();
    assert_eq!(case.kind, CaseKind::BytesMismatch);
}

#[test]
fn write_text_then_assert_round_trip() {
    let mut fs = FsTree::new();
    let path = ChildPath::root().child("greeting.txt");
    path.write_str(&mut fs, "gr\u{00fc}ezi\n").unwrap();
    assert!(check(&fs, &path, "gr\u{00fc}ezi\n").is_none());
    let case = check(&fs, &path, "gruezi\n").unwrap();
    assert_eq!(case.kind, CaseKind::TextMismatch);
}

#[test]
fn invalid_utf8_gives_decode_case() {
    let mut fs = FsTree::new();
    let path = ChildPath::root().child("raw.bin");
    path.write_binary(&mut fs, &[0xffu8, 0xfe, 0x41]).unwrap();
    let case = check(&fs, &path, "A").unwrap();
    assert_eq!(case.kind, CaseKind::InvalidUtf8);
}

#[test]
fn touch_then_existence_predicates() {
    let mut fs = FsTree::new();
    let touched = ChildPath::root().child("foo.txt");
    let untouched = ChildPath::root().child("bar.txt");
    touched.touch(&mut fs).unwrap();
    assert!(check(&fs, &touched, ExistsPathPredicate::new()).is_none());
    assert!(check(&fs, &untouched, MissingPathPredicate::new()).is_none());
    let case = check(&fs, &untouched, ExistsPathPredicate::new()).unwrap();
    assert_eq!(case.kind, CaseKind::UnexpectedlyMissing);
    let case = check(&fs, &touched, MissingPathPredicate::new()).unwrap();
    assert_eq!(case.kind, CaseKind::UnexpectedlyPresent);
}

#[test]
fn touch_truncates_existing_file() {
    let mut fs = FsTree::new();
    let path = ChildPath::root().child("foo.txt");
    path.write_binary(&mut fs, b"content").unwrap();
    path.touch(&mut fs).unwrap();
    assert!(check(&fs, &path, b"" as &[u8]).is_none());
}

#[test]
fn write_materializes_missing_parents() {
    let mut fs = FsTree::new();
    let path = ChildPath::root().child("dir/that/does/not/exist/file.txt");
    path.write_str(&mut fs, "deep").unwrap();
    assert!(check(&fs, &path, "deep").is_none());
    for prefix in ["dir", "dir/that", "dir/that/does", "dir/that/does/not",
        "dir/that/does/not/exist"] {
        let p = ChildPath::root().child(prefix);
        match fs.node_at(&p) {
            Some(FsNode::Dir) => {},
            other => panic!("expected a directory at {}, got {:?}", prefix, other.is_some()),
        }
    }
}

#[test]
fn create_dir_all_is_idempotent() {
    let mut fs = FsTree::new();
    let path = ChildPath::root().child("a/b/c");
    path.create_dir_all(&mut fs).unwrap();
    let before = fs.entry_len();
    path.create_dir_all(&mut fs).unwrap();
    assert_eq!(fs.entry_len(), before);
}

#[test]
fn write_twice_keeps_second_content() {
    let mut fs = FsTree::new();
    let path = ChildPath::root().child("f.txt");
    path.write_binary(&mut fs, b"first").unwrap();
    let count = fs.entry_len();
    path.write_binary(&mut fs, b"second").unwrap();
    assert_eq!(fs.entry_len(), count);
    assert!(check(&fs, &path, b"second" as &[u8]).is_none());
    assert!(check(&fs, &path, b"first" as &[u8]).is_some());
}

#[test]
fn write_file_copies_bytes() {
    let mut fs = FsTree::new();
    let source = ChildPath::root().child("src.txt");
    let target = ChildPath::root().child("copied/dst.txt");
    source.write_binary(&mut fs, b"payload").unwrap();
    target.write_file(&mut fs, &source).unwrap();
    assert!(check(&fs, &target, b"payload" as &[u8]).is_none());
}

#[test]
fn write_file_from_missing_source_fails_with_copy_kind() {
    let mut fs = FsTree::new();
    let source = ChildPath::root().child("absent.txt");
    let target = ChildPath::root().child("dst.txt");
    let err = target.write_file(&mut fs, &source).unwrap_err();
    assert_eq!(err.kind(), FixtureKind::CopyFile);
}

#[test]
fn create_dir_all_over_file_fails_with_create_kind() {
    let mut fs = FsTree::new();
    let file = ChildPath::root().child("x");
    file.touch(&mut fs).unwrap();
    let dir = ChildPath::root().child("x/y");
    let err = dir.create_dir_all(&mut fs).unwrap_err();
    assert_eq!(err.kind(), FixtureKind::CreateDir);
}

#[test]
fn write_onto_directory_fails_with_write_kind() {
    let mut fs = FsTree::new();
    let dir = ChildPath::root().child("d");
    dir.create_dir_all(&mut fs).unwrap();
    let err = dir.write_binary(&mut fs, b"data").unwrap_err();
    assert_eq!(err.kind(), FixtureKind::WriteFile);
}

#[test]
fn write_under_file_fails_with_create_kind() {
    let mut fs = FsTree::new();
    let file = ChildPath::root().child("f");
    file.touch(&mut fs).unwrap();
    let nested = ChildPath::root().child("f/inner.txt");
    let err = nested.write_binary(&mut fs, b"data").unwrap_err();
    assert_eq!(err.kind(), FixtureKind::CreateDir);
}

#[test]
fn free_write_str_matches_trait_operation() {
    let mut fs = FsTree::new();
    let path = ChildPath::root().child("free.txt");
    fixture_assert::tree::write_str(&mut fs, &path, "via the free function").unwrap();
    assert!(check(&fs, &path, "via the free function").is_none());
}

#[test]
fn path_components_normalize_separators() {
    let a = ChildPath::root().child("a//b/");
    let b = ChildPath::root().child("a/b");
    assert!(a.same_as(&b));
    assert_eq!(a.depth(), 2);
    let c = a.child("c.txt");
    assert_eq!(c.depth(), 3);
    assert!(c.parent().same_as(&a));
}
