//! Fixture staging operations over a location: the uniform façade.
//!
//! Each trait exposes one staging operation at a location (`ChildPath`); the
//! tree being staged is passed explicitly.  Every operation first guarantees
//! that the parent directory chain exists, so callers never pre-create
//! directories.

use vstd::prelude::*;

use crate::copy::{copy_files, copy_ok, copy_result};
use crate::errors::{FixtureError, FixtureKind};
use crate::path::{views_of, ChildPath};
use crate::tree::{
    dir_chain_ok, file_write_ok, file_written, parent_of, with_dirs, FsTree,
};

verus! {

/// Create empty directories at a location.
pub trait PathCreateDir {
    /// The location operated on.
    spec fn loc(&self) -> Seq<Seq<char>>;

    /// Creates an empty directory (with its parent chain) at this location;
    /// idempotent, succeeding when the directory already exists.
    fn create_dir_all(&self, fs: &mut FsTree) -> (r: Result<(), FixtureError>)
        requires
            old(fs).wf(),
        ensures
            final(fs).wf(),
            r is Ok <==> dir_chain_ok(old(fs)@, self.loc()),
            r is Ok ==> final(fs)@ == with_dirs(old(fs)@, self.loc()),
            r is Err ==> final(fs)@ == old(fs)@ && r->Err_0.kind == FixtureKind::CreateDir,
    ;
}

impl PathCreateDir for ChildPath {
    open spec fn loc(&self) -> Seq<Seq<char>> {
        self@
    }

    fn create_dir_all(&self, fs: &mut FsTree) -> (r: Result<(), FixtureError>) {
        crate::tree::create_dir_all(fs, self)
    }
}

/// Create empty files at a location.
pub trait FileTouch {
    /// The location operated on.
    spec fn loc(&self) -> Seq<Seq<char>>;

    /// Creates an empty file at this location, truncating one already there,
    /// after materializing the parent chain.
    fn touch(&self, fs: &mut FsTree) -> (r: Result<(), FixtureError>)
        requires
            old(fs).wf(),
        ensures
            final(fs).wf(),
            r is Ok <==> file_write_ok(old(fs)@, self.loc()),
            r is Ok ==> final(fs)@ == file_written(old(fs)@, self.loc(), Seq::empty()),
            r is Err ==> (r->Err_0.kind == FixtureKind::CreateDir || r->Err_0.kind
                == FixtureKind::WriteFile),
            r is Err && r->Err_0.kind == FixtureKind::CreateDir ==> final(fs)@ == old(fs)@
                && !dir_chain_ok(old(fs)@, parent_of(self.loc())),
            r is Err && r->Err_0.kind == FixtureKind::WriteFile ==> final(fs)@ == with_dirs(
                old(fs)@,
                parent_of(self.loc()),
            ) && dir_chain_ok(old(fs)@, parent_of(self.loc())),
    ;
}

impl FileTouch for ChildPath {
    open spec fn loc(&self) -> Seq<Seq<char>> {
        self@
    }

    fn touch(&self, fs: &mut FsTree) -> (r: Result<(), FixtureError>) {
        crate::tree::touch(fs, self)
    }
}

/// Write a binary file at a location.
pub trait FileWriteBin {
    /// The location operated on.
    spec fn loc(&self) -> Seq<Seq<char>>;

    /// Writes `data` at this location (full-content overwrite), after
    /// materializing the parent chain.
    fn write_binary(&self, fs: &mut FsTree, data: &[u8]) -> (r: Result<(), FixtureError>)
        requires
            old(fs).wf(),
        ensures
            final(fs).wf(),
            r is Ok <==> file_write_ok(old(fs)@, self.loc()),
            r is Ok ==> final(fs)@ == file_written(old(fs)@, self.loc(), data@),
            r is Err ==> (r->Err_0.kind == FixtureKind::CreateDir || r->Err_0.kind
                == FixtureKind::WriteFile),
            r is Err && r->Err_0.kind == FixtureKind::CreateDir ==> final(fs)@ == old(fs)@
                && !dir_chain_ok(old(fs)@, parent_of(self.loc())),
            r is Err && r->Err_0.kind == FixtureKind::WriteFile ==> final(fs)@ == with_dirs(
                old(fs)@,
                parent_of(self.loc()),
            ) && dir_chain_ok(old(fs)@, parent_of(self.loc())),
    ;
}

impl FileWriteBin for ChildPath {
    open spec fn loc(&self) -> Seq<Seq<char>> {
        self@
    }

    fn write_binary(&self, fs: &mut FsTree, data: &[u8]) -> (r: Result<(), FixtureError>) {
        crate::tree::write_binary(fs, self, data)
    }
}

/// Write a text file at a location.
pub trait FileWriteStr {
    /// The location operated on.
    spec fn loc(&self) -> Seq<Seq<char>>;

    /// Writes the UTF-8 encoding of `data` at this location (full-content
    /// overwrite), after materializing the parent chain.
    fn write_str(&self, fs: &mut FsTree, data: &str) -> (r: Result<(), FixtureError>)
        requires
            old(fs).wf(),
        ensures
            final(fs).wf(),
            r is Ok <==> file_write_ok(old(fs)@, self.loc()),
            r is Ok ==> final(fs)@ == file_written(
                old(fs)@,
                self.loc(),
                vstd::utf8::encode_utf8(data@),
            ),
            r is Err ==> (r->Err_0.kind == FixtureKind::CreateDir || r->Err_0.kind
                == FixtureKind::WriteFile),
            r is Err && r->Err_0.kind == FixtureKind::CreateDir ==> final(fs)@ == old(fs)@
                && !dir_chain_ok(old(fs)@, parent_of(self.loc())),
            r is Err && r->Err_0.kind == FixtureKind::WriteFile ==> final(fs)@ == with_dirs(
                old(fs)@,
                parent_of(self.loc()),
            ) && dir_chain_ok(old(fs)@, parent_of(self.loc())),
    ;
}

impl FileWriteStr for ChildPath {
    open spec fn loc(&self) -> Seq<Seq<char>> {
        self@
    }

    fn write_str(&self, fs: &mut FsTree, data: &str) -> (r: Result<(), FixtureError>) {
        crate::tree::write_str(fs, self, data)
    }
}

/// Copy a file's bytes to a location.
pub trait FileWriteFile {
    /// The location operated on.
    spec fn loc(&self) -> Seq<Seq<char>>;

    /// Copies the bytes of the file at `data` to this location, after
    /// materializing the parent chain.
    fn write_file(&self, fs: &mut FsTree, data: &ChildPath) -> (r: Result<(), FixtureError>)
        requires
            old(fs).wf(),
        ensures
            final(fs).wf(),
            r is Ok <==> (file_write_ok(old(fs)@, self.loc()) && old(fs)@.contains_key(data@)
                && old(fs)@[data@] is File),
            r is Ok ==> final(fs)@ == file_written(
                old(fs)@,
                self.loc(),
                old(fs)@[data@]->File_0,
            ),
            r is Err ==> (r->Err_0.kind == FixtureKind::CreateDir || r->Err_0.kind
                == FixtureKind::CopyFile),
            r is Err && r->Err_0.kind == FixtureKind::CreateDir ==> final(fs)@ == old(fs)@
                && !dir_chain_ok(old(fs)@, parent_of(self.loc())),
            r is Err && r->Err_0.kind == FixtureKind::CopyFile ==> final(fs)@ == with_dirs(
                old(fs)@,
                parent_of(self.loc()),
            ) && dir_chain_ok(old(fs)@, parent_of(self.loc())),
    ;
}

impl FileWriteFile for ChildPath {
    open spec fn loc(&self) -> Seq<Seq<char>> {
        self@
    }

    fn write_file(&self, fs: &mut FsTree, data: &ChildPath) -> (r: Result<(), FixtureError>) {
        crate::tree::write_file(fs, self, data)
    }
}

/// Copy a glob-selected subtree into a location.
pub trait PathCopy {
    /// The location operated on.
    spec fn loc(&self) -> Seq<Seq<char>>;

    /// Copies every entry of `source` selected by `patterns` under this
    /// location, preserving relative structure; an empty pattern list copies
    /// nothing.
    fn copy_from(&self, fs: &mut FsTree, source: &FsTree, patterns: &[String]) -> (r: Result<
        (),
        FixtureError,
    >)
        requires
            old(fs).wf(),
            source.wf(),
        ensures
            final(fs).wf(),
            r is Ok <==> copy_ok(old(fs)@, source@, self.loc(), views_of(patterns@)),
            r is Ok ==> final(fs)@ == copy_result(
                old(fs)@,
                source@,
                self.loc(),
                views_of(patterns@),
            ),
            r is Err ==> (r->Err_0.kind == FixtureKind::CreateDir || r->Err_0.kind
                == FixtureKind::CopyFile),
            patterns@.len() == 0 ==> r is Ok && final(fs)@ == old(fs)@,
    ;
}

impl PathCopy for ChildPath {
    open spec fn loc(&self) -> Seq<Seq<char>> {
        self@
    }

    fn copy_from(&self, fs: &mut FsTree, source: &FsTree, patterns: &[String]) -> (r: Result<
        (),
        FixtureError,
    >) {
        copy_files(fs, self, source, patterns)
    }
}

} // verus!
