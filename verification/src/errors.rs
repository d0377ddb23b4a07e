//! Typed errors for fixture operations, identifying which phase failed.

use vstd::prelude::*;

verus! {

/// The phase of a fixture operation that failed.
#[derive(Clone, Copy, Debug, PartialEq, Eq, Structural)]
pub enum FixtureKind {
    /// A directory (or a chain of parent directories) could not be created.
    CreateDir,
    /// A file could not be created or written.
    WriteFile,
    /// A file's bytes could not be copied to their destination.
    CopyFile,
    /// Enumerating a source tree (or resolving its root) failed.
    Walk,
}

/// An error from a fixture operation, carrying the failing phase.
#[derive(Clone, Copy, Debug, PartialEq, Eq, Structural)]
pub struct FixtureError {
    pub kind: FixtureKind,
}

impl FixtureError {
    pub fn new(kind: FixtureKind) -> (r: FixtureError)
        ensures
            r.kind == kind,
    {
        FixtureError { kind }
    }

    pub fn kind(&self) -> (k: FixtureKind)
        ensures
            k == self.kind,
    {
        self.kind
    }
}

} // verus!
