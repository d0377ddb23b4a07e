//! The glob-filtered tree copier and the glob matcher.

use fixture_assert::assertions::check;
use fixture_assert::glob::glob_match_str;
use fixture_assert::{
    ChildPath, FileWriteBin, FixtureKind, FsNode, FsTree, PathCopy, PathCreateDir,
};

fn sample_source() -> FsTree {
    let mut src = FsTree::new();
    ChildPath::root().child("a.txt").write_binary(&mut src, b"alpha").unwrap();
    ChildPath::root().child("b.md").write_binary(&mut src, b"beta").unwrap();
    ChildPath::root().child("sub/c.txt").write_binary(&mut src, b"gamma").unwrap();
    src
}

#[test]
fn copy_with_empty_pattern_list_is_a_no_op() {
    let src = sample_source();
    let mut target = FsTree::new();
    let patterns: [String; 0] = [];
    ChildPath::root().copy_from(&mut target, &src, &patterns).unwrap();
    assert_eq!(target.entry_len(), 0);
}

#[test]
fn copy_txt_pattern_selects_exactly_the_txt_files() {
    let src = sample_source();
    let mut target = FsTree::new();
    let patterns = [String::from("*.txt")];
    ChildPath::root().copy_from(&mut target, &src, &patterns).unwrap();
    assert_eq!(target.entry_len(), 3);
    assert!(check(&target, &ChildPath::root().child("a.txt"), b"alpha" as &[u8]).is_none());
    assert!(check(&target, &ChildPath::root().child("sub/c.txt"), b"gamma" as &[u8]).is_none());
    match target.node_at(&ChildPath::root().child("sub")) {
        Some(FsNode::Dir) => {},
        _ => panic!("expected the intermediate directory to be materialized"),
    }
    assert!(target.node_at(&ChildPath::root().child("b.md")).is_none());
}

#[test]
fn copy_into_child_location_preserves_relative_structure() {
    let src = sample_source();
    let mut target = FsTree::new();
    let patterns = [String::from("**")];
    ChildPath::root().child("inner").copy_from(&mut target, &src, &patterns).unwrap();
    assert!(check(&target, &ChildPath::root().child("inner/a.txt"), b"alpha" as &[u8]).is_none());
    assert!(check(&target, &ChildPath::root().child("inner/b.md"), b"beta" as &[u8]).is_none());
    assert!(
        check(&target, &ChildPath::root().child("inner/sub/c.txt"), b"gamma" as &[u8]).is_none()
    );
}

#[test]
fn copy_overwrites_existing_file_content() {
    let src = sample_source();
    let mut target = FsTree::new();
    ChildPath::root().child("a.txt").write_binary(&mut target, b"old").unwrap();
    let patterns = [String::from("a.txt")];
    ChildPath::root().copy_from(&mut target, &src, &patterns).unwrap();
    assert!(check(&target, &ChildPath::root().child("a.txt"), b"alpha" as &[u8]).is_none());
}

#[test]
fn copy_onto_conflicting_directory_fails() {
    let src = sample_source();
    let mut target = FsTree::new();
    ChildPath::root().child("a.txt").create_dir_all(&mut target).unwrap();
    let patterns = [String::from("a.txt")];
    let err = ChildPath::root().copy_from(&mut target, &src, &patterns).unwrap_err();
    assert_eq!(err.kind(), FixtureKind::CopyFile);
}

#[test]
fn glob_matches_basename_at_any_depth() {
    let shallow = ChildPath::root().child("a.txt");
    let deep = ChildPath::root().child("sub/c.txt");
    let markdown = ChildPath::root().child("b.md");
    assert!(glob_match_str("*.txt", &shallow));
    assert!(glob_match_str("*.txt", &deep));
    assert!(!glob_match_str("*.txt", &markdown));
}

#[test]
fn glob_with_separator_matches_whole_relative_path() {
    let deep = ChildPath::root().child("sub/c.txt");
    let shallow = ChildPath::root().child("c.txt");
    assert!(glob_match_str("sub/*.txt", &deep));
    assert!(!glob_match_str("sub/*.txt", &shallow));
    assert!(glob_match_str("**/c.txt", &deep));
    assert!(glob_match_str("**/c.txt", &shallow));
    assert!(glob_match_str("s?b/c.txt", &deep));
    assert!(!glob_match_str("s?b/d.txt", &deep));
}
