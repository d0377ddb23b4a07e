//! A verified model of filesystem test fixtures: staging a scratch tree
//! (create directories, write files, copy a glob-selected subtree) and
//! asserting facts about what a test produced, with structured failure
//! explanations.
//!
//! The filesystem is modelled as a finite map from relative paths to nodes
//! (directories and files with byte content); every staging operation states
//! exactly how it transforms that map and when it fails.  Real disk I/O is a
//! thin unverified adapter around this model.

pub mod assertions;
pub mod copy;
pub mod errors;
pub mod glob;
pub mod laws;
pub mod path;
pub mod tools;
pub mod tree;

pub use assertions::{
    BytesContentPathPredicate, Case, CaseKind, EqTextPredicate, ExistsPathPredicate,
    IntoPathPredicate, MissingPathPredicate, PathAssert, PathEqPredicate, PathPredicate,
    StrContentPathPredicate, StrPathPredicate, TextPredicate,
};
pub use errors::{FixtureError, FixtureKind};
pub use path::ChildPath;
pub use tools::{FileTouch, FileWriteBin, FileWriteFile, FileWriteStr, PathCopy, PathCreateDir};
pub use tree::{FsNode, FsTree};
