//! The path-predicate conversion layer and assertion checks.
//!
//! A check over a fixture tree is a `PathPredicate`: it evaluates at a path
//! and can explain a failure with a structured `Case`.  Four shapes convert
//! into one (`IntoPathPredicate`): a path predicate itself, literal bytes,
//! a literal string, and any text predicate over decoded UTF-8 content.
//! Content is read and decoded only when a predicate is evaluated, never at
//! conversion time.

use vstd::prelude::*;
use vstd::slice::slice_to_vec;

use crate::path::{chars_of, ChildPath};
use crate::tree::{FsNodeView, FsTree};

verus! {

/// Which sub-check of a predicate failed (or that it held as expected).
#[derive(Clone, Copy, Debug, PartialEq, Eq, Structural)]
pub enum CaseKind {
    /// The evaluation came out as the caller expected.
    AsExpected,
    /// The paths compared unequal.
    PathUnequal,
    /// A path expected to be absent is present.
    UnexpectedlyPresent,
    /// A path expected to be present is absent.
    UnexpectedlyMissing,
    /// No node exists at the path, so its content cannot be checked.
    MissingFile,
    /// The node at the path is a directory, not a file.
    NotAFile,
    /// The file's bytes are not valid UTF-8, so no text check applies.
    InvalidUtf8,
    /// The file's bytes differ from the expected bytes.
    BytesMismatch,
    /// The file's decoded text differs from the expected text.
    TextMismatch,
    /// The injected text predicate rejected the decoded text.
    TextPredicateFailed,
}

/// A structured explanation of a predicate evaluation, with nested
/// sub-results for composite predicates.
pub struct Case {
    pub kind: CaseKind,
    pub children: Vec<Case>,
}

impl Case {
    /// A leaf case.
    pub fn leaf(kind: CaseKind) -> (r: Case)
        ensures
            r.kind == kind,
    {
        Case { kind, children: Vec::new() }
    }

    /// A short human-readable description of this case.
    pub fn describe(&self) -> (r: &'static str) {
        match self.kind {
            CaseKind::AsExpected => "evaluation came out as expected",
            CaseKind::PathUnequal => "paths are not equal",
            CaseKind::UnexpectedlyPresent => "path unexpectedly exists",
            CaseKind::UnexpectedlyMissing => "path is missing",
            CaseKind::MissingFile => "no file exists at the path",
            CaseKind::NotAFile => "the path names a directory, not a file",
            CaseKind::InvalidUtf8 => "file content is not valid UTF-8",
            CaseKind::BytesMismatch => "file bytes differ from the expected bytes",
            CaseKind::TextMismatch => "file text differs from the expected text",
            CaseKind::TextPredicateFailed => "text predicate rejected the file content",
        }
    }
}

/// Whether two strings hold the same characters.
pub fn str_eq(a: &str, b: &str) -> (r: bool)
    ensures
        r == (a@ == b@),
{
    let va = chars_of(a);
    let vb = chars_of(b);
    let n = va.len();
    if n != vb.len() {
        proof {
            assert(a@.len() != b@.len());
        }
        return false;
    }
    let mut i: usize = 0;
    while i < n
        invariant
            0 <= i <= n,
            n == a@.len(),
            n == b@.len(),
            va@ == a@,
            vb@ == b@,
            forall|j: int| 0 <= j < i ==> a@[j] == b@[j],
        decreases n - i,
    {
        if va[i] != vb[i] {
            return false;
        }
        i += 1;
    }
    proof {
        assert(a@ =~= b@);
    }
    true
}

/// Whether a slice and a vector hold the same bytes.
fn bytes_eq(a: &[u8], b: &Vec<u8>) -> (r: bool)
    ensures
        r == (a@ == b@),
{
    let n = a.len();
    if n != b.len() {
        proof {
            assert(a@.len() != b@.len());
        }
        return false;
    }
    let mut i: usize = 0;
    while i < n
        invariant
            0 <= i <= n,
            n == a@.len(),
            n == b@.len(),
            forall|j: int| 0 <= j < i ==> a@[j] == b@[j],
        decreases n - i,
    {
        if a[i] != b[i] {
            return false;
        }
        i += 1;
    }
    proof {
        assert(a@ =~= b@);
    }
    true
}

/// Relies on std's `str::from_utf8`: it succeeds exactly on valid UTF-8, and
/// the decoded characters encode back to the given bytes.
#[verifier::external_body]
fn decode_utf8_bytes(b: &[u8]) -> (r: Option<String>)
    ensures
        r is Some <==> vstd::utf8::valid_utf8(b@),
        r is Some ==> vstd::utf8::encode_utf8(r->0@) == b@,
{
    match std::str::from_utf8(b) {
        Ok(s) => Some(s.to_owned()),
        Err(_) => None,
    }
}

/// The tree has a file with exactly the bytes `e` at `p`.
pub open spec fn file_has_bytes(
    m: Map<Seq<Seq<char>>, FsNodeView>,
    p: Seq<Seq<char>>,
    e: Seq<u8>,
) -> bool {
    m.contains_key(p) && m[p] is File && m[p]->File_0 == e
}

/// The tree has a file at `p` whose bytes decode to the characters `s`.
pub open spec fn file_has_text(
    m: Map<Seq<Seq<char>>, FsNodeView>,
    p: Seq<Seq<char>>,
    s: Seq<char>,
) -> bool {
    m.contains_key(p) && m[p] is File && vstd::utf8::valid_utf8(m[p]->File_0)
        && vstd::utf8::decode_utf8(m[p]->File_0) == s
}

/// A check evaluable at a path of a fixture tree, able to explain itself.
pub trait PathPredicate: Sized {
    /// What the predicate states of the tree `m` at `path`.
    spec fn holds(&self, m: Map<Seq<Seq<char>>, FsNodeView>, path: Seq<Seq<char>>) -> bool;

    /// The kind of case reported when the predicate does not hold.
    spec fn failure_kind(&self, m: Map<Seq<Seq<char>>, FsNodeView>, path: Seq<Seq<char>>
    ) -> CaseKind;

    /// Evaluates the predicate.
    fn eval(&self, fs: &FsTree, path: &ChildPath) -> (r: bool)
        requires
            fs.wf(),
        ensures
            r == self.holds(fs@, path@),
    ;

    /// A case proving the predicate evaluates to `expected`, where it does.
    fn find_case(&self, expected: bool, fs: &FsTree, path: &ChildPath) -> (r: Option<Case>)
        requires
            fs.wf(),
        ensures
            r is Some <==> self.holds(fs@, path@) == expected,
            (r is Some && !expected) ==> r->0.kind == self.failure_kind(fs@, path@),
    ;
}

/// A check over decoded UTF-8 text: the injected capability behind text
/// predicates.  Implementations state their meaning in `text_holds`.
pub trait TextPredicate: Sized {
    /// What the predicate states of the text `s`.
    spec fn text_holds(&self, s: Seq<char>) -> bool;

    /// Evaluates the predicate.
    fn eval_text(&self, s: &str) -> (r: bool)
        ensures
            r == self.text_holds(s@),
    ;
}

/// Text equality, the simplest text predicate.
pub struct EqTextPredicate {
    pub expected: String,
}

impl EqTextPredicate {
    pub fn new(expected: String) -> (r: EqTextPredicate)
        ensures
            r.expected == expected,
    {
        EqTextPredicate { expected }
    }
}

impl TextPredicate for EqTextPredicate {
    open spec fn text_holds(&self, s: Seq<char>) -> bool {
        s == self.expected@
    }

    fn eval_text(&self, s: &str) -> (r: bool) {
        str_eq(s, self.expected.as_str())
    }
}

/// Equality of the path value itself.
pub struct PathEqPredicate {
    pub expected: ChildPath,
}

impl PathEqPredicate {
    pub fn new(expected: ChildPath) -> (r: PathEqPredicate)
        ensures
            r.expected@ == expected@,
    {
        PathEqPredicate { expected }
    }
}

impl PathPredicate for PathEqPredicate {
    open spec fn holds(&self, m: Map<Seq<Seq<char>>, FsNodeView>, path: Seq<Seq<char>>) -> bool {
        path == self.expected@
    }

    open spec fn failure_kind(
        &self,
        m: Map<Seq<Seq<char>>, FsNodeView>,
        path: Seq<Seq<char>>,
    ) -> CaseKind {
        CaseKind::PathUnequal
    }

    fn eval(&self, fs: &FsTree, path: &ChildPath) -> (r: bool) {
        path.same_as(&self.expected)
    }

    fn find_case(&self, expected: bool, fs: &FsTree, path: &ChildPath) -> (r: Option<Case>) {
        let v = self.eval(fs, path);
        if v == expected {
            if expected {
                Some(Case::leaf(CaseKind::AsExpected))
            } else {
                Some(Case::leaf(CaseKind::PathUnequal))
            }
        } else {
            None
        }
    }
}

/// The path names no node of the tree.
pub struct MissingPathPredicate {}

impl MissingPathPredicate {
    pub fn new() -> MissingPathPredicate {
        MissingPathPredicate {  }
    }
}

impl PathPredicate for MissingPathPredicate {
    open spec fn holds(&self, m: Map<Seq<Seq<char>>, FsNodeView>, path: Seq<Seq<char>>) -> bool {
        !m.contains_key(path)
    }

    open spec fn failure_kind(
        &self,
        m: Map<Seq<Seq<char>>, FsNodeView>,
        path: Seq<Seq<char>>,
    ) -> CaseKind {
        CaseKind::UnexpectedlyPresent
    }

    fn eval(&self, fs: &FsTree, path: &ChildPath) -> (r: bool) {
        match fs.node_at(path) {
            Some(_) => false,
            None => true,
        }
    }

    fn find_case(&self, expected: bool, fs: &FsTree, path: &ChildPath) -> (r: Option<Case>) {
        let v = self.eval(fs, path);
        if v == expected {
            if expected {
                Some(Case::leaf(CaseKind::AsExpected))
            } else {
                Some(Case::leaf(CaseKind::UnexpectedlyPresent))
            }
        } else {
            None
        }
    }
}

/// The path names a node of the tree.
pub struct ExistsPathPredicate {}

impl ExistsPathPredicate {
    pub fn new() -> ExistsPathPredicate {
        ExistsPathPredicate {  }
    }
}

impl PathPredicate for ExistsPathPredicate {
    open spec fn holds(&self, m: Map<Seq<Seq<char>>, FsNodeView>, path: Seq<Seq<char>>) -> bool {
        m.contains_key(path)
    }

    open spec fn failure_kind(
        &self,
        m: Map<Seq<Seq<char>>, FsNodeView>,
        path: Seq<Seq<char>>,
    ) -> CaseKind {
        CaseKind::UnexpectedlyMissing
    }

    fn eval(&self, fs: &FsTree, path: &ChildPath) -> (r: bool) {
        match fs.node_at(path) {
            Some(_) => true,
            None => false,
        }
    }

    fn find_case(&self, expected: bool, fs: &FsTree, path: &ChildPath) -> (r: Option<Case>) {
        let v = self.eval(fs, path);
        if v == expected {
            if expected {
                Some(Case::leaf(CaseKind::AsExpected))
            } else {
                Some(Case::leaf(CaseKind::UnexpectedlyMissing))
            }
        } else {
            None
        }
    }
}

/// Exact byte-equality of file content.
pub struct BytesContentPathPredicate {
    pub expected: Vec<u8>,
}

impl BytesContentPathPredicate {
    pub fn new(value: &[u8]) -> (r: BytesContentPathPredicate)
        ensures
            r.expected@ == value@,
    {
        BytesContentPathPredicate { expected: slice_to_vec(value) }
    }
}

/// The kind of case a content check reports for the tree `m` at `path`.
pub open spec fn content_failure_kind(
    m: Map<Seq<Seq<char>>, FsNodeView>,
    path: Seq<Seq<char>>,
    text: bool,
) -> CaseKind {
    if !m.contains_key(path) {
        CaseKind::MissingFile
    } else if m[path] is Dir {
        CaseKind::NotAFile
    } else if text && !vstd::utf8::valid_utf8(m[path]->File_0) {
        CaseKind::InvalidUtf8
    } else if text {
        CaseKind::TextMismatch
    } else {
        CaseKind::BytesMismatch
    }
}

impl PathPredicate for BytesContentPathPredicate {
    open spec fn holds(&self, m: Map<Seq<Seq<char>>, FsNodeView>, path: Seq<Seq<char>>) -> bool {
        file_has_bytes(m, path, self.expected@)
    }

    open spec fn failure_kind(
        &self,
        m: Map<Seq<Seq<char>>, FsNodeView>,
        path: Seq<Seq<char>>,
    ) -> CaseKind {
        content_failure_kind(m, path, false)
    }

    fn eval(&self, fs: &FsTree, path: &ChildPath) -> (r: bool) {
        match fs.node_at(path) {
            Some(n) => match n.file_bytes() {
                Some(b) => bytes_eq(b.as_slice(), &self.expected),
                None => false,
            },
            None => false,
        }
    }

    fn find_case(&self, expected: bool, fs: &FsTree, path: &ChildPath) -> (r: Option<Case>) {
        let v = self.eval(fs, path);
        if v != expected {
            return None;
        }
        if expected {
            return Some(Case::leaf(CaseKind::AsExpected));
        }
        match fs.node_at(path) {
            None => Some(Case::leaf(CaseKind::MissingFile)),
            Some(n) => {
                if n.is_dir() {
                    Some(Case::leaf(CaseKind::NotAFile))
                } else {
                    Some(Case::leaf(CaseKind::BytesMismatch))
                }
            },
        }
    }
}

/// Text equality of UTF-8 decoded file content.
pub struct StrContentPathPredicate {
    pub expected: String,
}

impl StrContentPathPredicate {
    pub fn new(value: String) -> (r: StrContentPathPredicate)
        ensures
            r.expected@ == value@,
    {
        StrContentPathPredicate { expected: value }
    }
}

impl PathPredicate for StrContentPathPredicate {
    open spec fn holds(&self, m: Map<Seq<Seq<char>>, FsNodeView>, path: Seq<Seq<char>>) -> bool {
        file_has_text(m, path, self.expected@)
    }

    open spec fn failure_kind(
        &self,
        m: Map<Seq<Seq<char>>, FsNodeView>,
        path: Seq<Seq<char>>,
    ) -> CaseKind {
        content_failure_kind(m, path, true)
    }

    fn eval(&self, fs: &FsTree, path: &ChildPath) -> (r: bool) {
        match fs.node_at(path) {
            Some(n) => match n.file_bytes() {
                Some(b) => match decode_utf8_bytes(b.as_slice()) {
                    Some(s) => {
                        proof {
                            vstd::utf8::encode_utf8_decode_utf8(s@);
                        }
                        str_eq(s.as_str(), self.expected.as_str())
                    },
                    None => false,
                },
                None => false,
            },
            None => false,
        }
    }

    fn find_case(&self, expected: bool, fs: &FsTree, path: &ChildPath) -> (r: Option<Case>) {
        let v = self.eval(fs, path);
        if v != expected {
            return None;
        }
        if expected {
            return Some(Case::leaf(CaseKind::AsExpected));
        }
        match fs.node_at(path) {
            None => Some(Case::leaf(CaseKind::MissingFile)),
            Some(n) => match n.file_bytes() {
                None => Some(Case::leaf(CaseKind::NotAFile)),
                Some(b) => match decode_utf8_bytes(b.as_slice()) {
                    None => Some(Case::leaf(CaseKind::InvalidUtf8)),
                    Some(_) => Some(Case::leaf(CaseKind::TextMismatch)),
                },
            },
        }
    }
}

/// An injected text predicate applied to UTF-8 decoded file content.
pub struct StrPathPredicate<P: TextPredicate> {
    pub inner: P,
}

impl<P: TextPredicate> StrPathPredicate<P> {
    pub fn new(value: P) -> (r: StrPathPredicate<P>)
        ensures
            r.inner == value,
    {
        StrPathPredicate { inner: value }
    }
}

impl<P: TextPredicate> PathPredicate for StrPathPredicate<P> {
    open spec fn holds(&self, m: Map<Seq<Seq<char>>, FsNodeView>, path: Seq<Seq<char>>) -> bool {
        m.contains_key(path) && m[path] is File && vstd::utf8::valid_utf8(m[path]->File_0)
            && self.inner.text_holds(vstd::utf8::decode_utf8(m[path]->File_0))
    }

    open spec fn failure_kind(
        &self,
        m: Map<Seq<Seq<char>>, FsNodeView>,
        path: Seq<Seq<char>>,
    ) -> CaseKind {
        if !m.contains_key(path) {
            CaseKind::MissingFile
        } else if m[path] is Dir {
            CaseKind::NotAFile
        } else if !vstd::utf8::valid_utf8(m[path]->File_0) {
            CaseKind::InvalidUtf8
        } else {
            CaseKind::TextPredicateFailed
        }
    }

    fn eval(&self, fs: &FsTree, path: &ChildPath) -> (r: bool) {
        match fs.node_at(path) {
            Some(n) => match n.file_bytes() {
                Some(b) => match decode_utf8_bytes(b.as_slice()) {
                    Some(s) => {
                        proof {
                            vstd::utf8::encode_utf8_decode_utf8(s@);
                        }
                        self.inner.eval_text(s.as_str())
                    },
                    None => false,
                },
                None => false,
            },
            None => false,
        }
    }

    fn find_case(&self, expected: bool, fs: &FsTree, path: &ChildPath) -> (r: Option<Case>) {
        let v = self.eval(fs, path);
        if v != expected {
            return None;
        }
        if expected {
            return Some(Case::leaf(CaseKind::AsExpected));
        }
        match fs.node_at(path) {
            None => Some(Case::leaf(CaseKind::MissingFile)),
            Some(n) => match n.file_bytes() {
                None => Some(Case::leaf(CaseKind::NotAFile)),
                Some(b) => match decode_utf8_bytes(b.as_slice()) {
                    None => Some(Case::leaf(CaseKind::InvalidUtf8)),
                    Some(_) => Some(Case::leaf(CaseKind::TextPredicateFailed)),
                },
            },
        }
    }
}

/// Conversion of one of the accepted shapes into a path predicate.  The set
/// of shapes is closed: only types with an implementation convert, so an
/// unsupported shape fails to build, not at run time.
pub trait IntoPathPredicate<P: PathPredicate>: Sized {
    /// What the converted predicate will state.
    spec fn path_spec(self, m: Map<Seq<Seq<char>>, FsNodeView>, path: Seq<Seq<char>>) -> bool;

    /// Converts to a predicate for testing a path.
    fn into_path(self) -> (r: P)
        ensures
            forall|m: Map<Seq<Seq<char>>, FsNodeView>, path: Seq<Seq<char>>|
                #[trigger] r.holds(m, path) == self.path_spec(m, path),
    ;
}

impl<P: PathPredicate> IntoPathPredicate<P> for P {
    open spec fn path_spec(self, m: Map<Seq<Seq<char>>, FsNodeView>, path: Seq<Seq<char>>
    ) -> bool {
        self.holds(m, path)
    }

    fn into_path(self) -> (r: P) {
        self
    }
}

impl<'a> IntoPathPredicate<BytesContentPathPredicate> for &'a [u8] {
    open spec fn path_spec(self, m: Map<Seq<Seq<char>>, FsNodeView>, path: Seq<Seq<char>>
    ) -> bool {
        file_has_bytes(m, path, self@)
    }

    fn into_path(self) -> (r: BytesContentPathPredicate) {
        BytesContentPathPredicate::new(self)
    }
}

impl<'a> IntoPathPredicate<StrContentPathPredicate> for &'a str {
    open spec fn path_spec(self, m: Map<Seq<Seq<char>>, FsNodeView>, path: Seq<Seq<char>>
    ) -> bool {
        file_has_text(m, path, self@)
    }

    fn into_path(self) -> (r: StrContentPathPredicate) {
        StrContentPathPredicate::new(self.to_owned())
    }
}

impl<P: TextPredicate> IntoPathPredicate<StrPathPredicate<P>> for P {
    open spec fn path_spec(self, m: Map<Seq<Seq<char>>, FsNodeView>, path: Seq<Seq<char>>
    ) -> bool {
        m.contains_key(path) && m[path] is File && vstd::utf8::valid_utf8(m[path]->File_0)
            && self.text_holds(vstd::utf8::decode_utf8(m[path]->File_0))
    }

    fn into_path(self) -> (r: StrPathPredicate<P>) {
        StrPathPredicate::new(self)
    }
}

/// Converts `pred` and evaluates it at `path`, asking for an explanation of
/// failure: `Some` exactly when the converted predicate does not hold.
pub fn check<I, P>(fs: &FsTree, path: &ChildPath, pred: I) -> (r: Option<Case>)
    where I: IntoPathPredicate<P>, P: PathPredicate,
    requires
        fs.wf(),
    ensures
        r is Some <==> !pred.path_spec(fs@, path@),
{
    let p = pred.into_path();
    p.find_case(false, fs, path)
}

/// Assertion over a location of a fixture tree: verified callers establish
/// the predicate, so the check can never fail.
pub trait PathAssert {
    /// The location asserted about.
    spec fn at(&self) -> Seq<Seq<char>>;

    /// Asserts that `pred` holds of the tree at this location.
    fn assert_holds<I, P>(&self, fs: &FsTree, pred: I) where
        I: IntoPathPredicate<P>,
        P: PathPredicate,

        requires
            fs.wf(),
            pred.path_spec(fs@, self.at()),
    ;
}

impl PathAssert for ChildPath {
    open spec fn at(&self) -> Seq<Seq<char>> {
        self@
    }

    fn assert_holds<I, P>(&self, fs: &FsTree, pred: I) where
        I: IntoPathPredicate<P>,
        P: PathPredicate,
    {
        let c = check(fs, self, pred);
        proof {
            assert(c is None);
        }
    }
}

} // verus!
