//! The conversion layer: each accepted shape becomes a path predicate.

use fixture_assert::assertions::check;
use fixture_assert::{
    CaseKind, ChildPath, EqTextPredicate, FileWriteBin, FileWriteStr, FsTree, IntoPathPredicate,
    PathEqPredicate, PathPredicate, StrPathPredicate,
};

// Since IntoPathPredicate exists solely for conversion, test it under that
// scenario to ensure it works as expected.
fn convert_path<I, P>(pred: I) -> P
where
    I: IntoPathPredicate<P>,
    P: PathPredicate,
{
    pred.into_path()
}

#[test]
fn into_path_from_pred() {
    let fs = FsTree::new();
    let path = ChildPath::root().child("hello.md");
    let pred = convert_path(PathEqPredicate::new(ChildPath::root().child("hello.md")));
    let case = pred.find_case(false, &fs, &path);
    println!("Failing case: {:?}", case.as_ref().map(|c| c.kind));
    assert!(case.is_none());
}

#[test]
fn into_path_from_bytes() {
    let mut fs = FsTree::new();
    let path = ChildPath::root().child("tests/fixture/hello.txt");
    path.write_binary(&mut fs, b"hello\n").unwrap();
    let pred = convert_path(b"hello\n" as &[u8]);
    let case = pred.find_case(false, &fs, &path);
    println!("Failing case: {:?}", case.as_ref().map(|c| c.kind));
    assert!(case.is_none());
}

#[test]
fn into_path_from_str() {
    let mut fs = FsTree::new();
    let path = ChildPath::root().child("tests/fixture/hello.txt");
    path.write_str(&mut fs, "hello\n").unwrap();
    let pred = convert_path("hello\n");
    let case = pred.find_case(false, &fs, &path);
    println!("Failing case: {:?}", case.as_ref().map(|c| c.kind));
    assert!(case.is_none());
}

#[test]
fn into_path_from_text_predicate() {
    let mut fs = FsTree::new();
    let path = ChildPath::root().child("note.txt");
    path.write_str(&mut fs, "to be or not to be").unwrap();
    let pred: StrPathPredicate<EqTextPredicate> =
        convert_path(EqTextPredicate::new(String::from("to be or not to be")));
    assert!(pred.find_case(false, &fs, &path).is_none());
    let other: StrPathPredicate<EqTextPredicate> =
        convert_path(EqTextPredicate::new(String::from("something else")));
    let case = other.find_case(false, &fs, &path).unwrap();
    assert_eq!(case.kind, CaseKind::TextPredicateFailed);
}

#[test]
fn check_reports_failure_and_success() {
    let mut fs = FsTree::new();
    let path = ChildPath::root().child("a.txt");
    path.write_binary(&mut fs, b"abc").unwrap();
    assert!(check(&fs, &path, b"abc" as &[u8]).is_none());
    let case = check(&fs, &path, b"abd" as &[u8]).unwrap();
    assert_eq!(case.kind, CaseKind::BytesMismatch);
    assert_eq!(case.describe(), "file bytes differ from the expected bytes");
}
