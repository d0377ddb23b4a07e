//! The fixture tree model: a finite map from relative paths to nodes.
//!
//! A `FsTree` is the model of a scratch directory: every entry is either a
//! directory or a file with byte content, keyed by its relative path.  The
//! tree is well-formed when paths are unique and non-empty and every proper
//! prefix of an entry is present as a directory.
//!
//! The staging operations mirror a real filesystem: creating a directory
//! chain fails where a file is in the way; writing a file first materializes
//! its parent chain, overwrites file content, and fails where a directory
//! occupies the target path.

use vstd::prelude::*;
use vstd::slice::slice_to_vec;

use crate::errors::{FixtureError, FixtureKind};
use crate::path::ChildPath;

verus! {

/// One node of a fixture tree: a directory or a file with its content.
pub enum FsNode {
    Dir,
    File(Vec<u8>),
}

/// The mathematical value of a node.
pub enum FsNodeView {
    Dir,
    File(Seq<u8>),
}

impl View for FsNode {
    type V = FsNodeView;

    open spec fn view(&self) -> FsNodeView {
        match self {
            FsNode::Dir => FsNodeView::Dir,
            FsNode::File(b) => FsNodeView::File(b@),
        }
    }
}

impl FsNode {
    /// Whether this node is a directory.
    pub fn is_dir(&self) -> (r: bool)
        ensures
            r == (self@ is Dir),
    {
        match self {
            FsNode::Dir => true,
            FsNode::File(_) => false,
        }
    }

    /// The bytes of this node, where it is a file.
    pub fn file_bytes(&self) -> (r: Option<&Vec<u8>>)
        ensures
            r is Some <==> self@ is File,
            r is Some ==> r->0@ == self@->File_0,
    {
        match self {
            FsNode::Dir => None,
            FsNode::File(b) => Some(b),
        }
    }
}

/// Whether `q` is a prefix of `p` (as component sequences).
pub open spec fn is_path_prefix(q: Seq<Seq<char>>, p: Seq<Seq<char>>) -> bool {
    q.len() <= p.len() && q == p.take(q.len() as int)
}

/// The parent path of `p`; the empty path is its own parent.
pub open spec fn parent_of(p: Seq<Seq<char>>) -> Seq<Seq<char>> {
    if p.len() == 0 {
        p
    } else {
        p.take(p.len() - 1)
    }
}

/// No prefix of `p` (including `p` itself) is a file in `m`: the directory
/// chain down to `p` can be created.
pub open spec fn dir_chain_ok(m: Map<Seq<Seq<char>>, FsNodeView>, p: Seq<Seq<char>>) -> bool {
    forall|k: int|
        1 <= k <= p.len() ==> !(m.contains_key(#[trigger] p.take(k)) && m[p.take(k)] is File)
}

/// `m` with a directory at every non-empty prefix of `p` (existing nodes are
/// kept as they are).
pub open spec fn with_dirs(m: Map<Seq<Seq<char>>, FsNodeView>, p: Seq<Seq<char>>) -> Map<
    Seq<Seq<char>>,
    FsNodeView,
> {
    Map::new(
        |q: Seq<Seq<char>>| m.contains_key(q) || (1 <= q.len() && is_path_prefix(q, p)),
        |q: Seq<Seq<char>>|
            if m.contains_key(q) {
                m[q]
            } else {
                FsNodeView::Dir
            },
    )
}

/// A file can be written at `p` in `m`: `p` names a real location, its parent
/// chain is free of files, and no directory occupies `p` itself.
pub open spec fn file_write_ok(m: Map<Seq<Seq<char>>, FsNodeView>, p: Seq<Seq<char>>) -> bool {
    &&& p.len() >= 1
    &&& dir_chain_ok(m, parent_of(p))
    &&& !(m.contains_key(p) && m[p] is Dir)
}

/// `m` after writing a file with content `data` at `p`: the parent chain is
/// materialized and the file content replaced.
pub open spec fn file_written(
    m: Map<Seq<Seq<char>>, FsNodeView>,
    p: Seq<Seq<char>>,
    data: Seq<u8>,
) -> Map<Seq<Seq<char>>, FsNodeView> {
    with_dirs(m, parent_of(p)).insert(p, FsNodeView::File(data))
}

/// Well-formedness of a tree value: non-empty unique keys, and every proper
/// prefix of a key present as a directory.
pub open spec fn map_wf(m: Map<Seq<Seq<char>>, FsNodeView>) -> bool {
    &&& (forall|p: Seq<Seq<char>>| #[trigger] m.contains_key(p) ==> p.len() >= 1)
    &&& (forall|p: Seq<Seq<char>>, k: int|
        m.contains_key(p) && 1 <= k < p.len() ==> m.contains_key(#[trigger] p.take(k))
            && m[p.take(k)] is Dir)
}

pub(crate) struct FsEntry {
    pub path: ChildPath,
    pub node: FsNode,
}

/// The model of a scratch directory tree.
pub struct FsTree {
    entries: Vec<FsEntry>,
}

impl View for FsTree {
    type V = Map<Seq<Seq<char>>, FsNodeView>;

    closed spec fn view(&self) -> Map<Seq<Seq<char>>, FsNodeView> {
        Map::new(
            |q: Seq<Seq<char>>| self.has_path(q),
            |q: Seq<Seq<char>>| self.entries@[self.idx_of(q)].node@,
        )
    }
}

impl FsTree {
    pub(crate) closed spec fn has_path(&self, q: Seq<Seq<char>>) -> bool {
        exists|i: int| 0 <= i < self.entries@.len() && self.entries@[i].path@ == q
    }

    pub(crate) closed spec fn idx_of(&self, q: Seq<Seq<char>>) -> int {
        choose|i: int| 0 <= i < self.entries@.len() && self.entries@[i].path@ == q
    }

    /// How many entries the tree holds.
    pub closed spec fn entry_count(&self) -> nat {
        self.entries@.len()
    }

    /// The path of the entry at position `i`.
    pub closed spec fn epath(&self, i: int) -> Seq<Seq<char>> {
        self.entries@[i].path@
    }

    /// The node of the entry at position `i`.
    pub closed spec fn enode(&self, i: int) -> FsNodeView {
        self.entries@[i].node@
    }

    /// Representation well-formedness: unique non-empty paths whose proper
    /// prefixes are directory entries.
    pub closed spec fn wf(&self) -> bool {
        &&& (forall|i: int, j: int|
            0 <= i < self.entries@.len() && 0 <= j < self.entries@.len() && i != j
                ==> self.entries@[i].path@ != self.entries@[j].path@)
        &&& (forall|i: int|
            0 <= i < self.entries@.len() ==> (#[trigger] self.entries@[i].path@).len() >= 1)
        &&& (forall|i: int, k: int|
            0 <= i < self.entries@.len() && 1 <= k < self.entries@[i].path@.len() ==> {
                let q = #[trigger] self.entries@[i].path@.take(k);
                self.has_path(q) && self@[q] is Dir
            })
    }

    /// The entries of a well-formed tree enumerate its map exactly.
    pub proof fn lemma_entries(&self)
        requires
            self.wf(),
        ensures
            forall|i: int|
                0 <= i < self.entry_count() ==> self@.contains_key(#[trigger] self.epath(i))
                    && self@[self.epath(i)] == self.enode(i),
            forall|i: int| 0 <= i < self.entry_count() ==> (#[trigger] self.epath(i)).len() >= 1,
            forall|i: int, j: int|
                0 <= i < self.entry_count() && 0 <= j < self.entry_count() && i != j
                    ==> self.epath(i) != self.epath(j),
            forall|q: Seq<Seq<char>>|
                #[trigger] self@.contains_key(q) ==> exists|i: int|
                    0 <= i < self.entry_count() && self.epath(i) == q,
            map_wf(self@),
    {
        assert forall|i: int| 0 <= i < self.entry_count() implies self@.contains_key(
            #[trigger] self.epath(i),
        ) && self@[self.epath(i)] == self.enode(i) by {
            assert(self.has_path(self.epath(i)));
            let j = self.idx_of(self.epath(i));
            assert(self.entries@[j].path@ == self.epath(i));
            assert(j == i);
        }
        assert forall|q: Seq<Seq<char>>| #[trigger] self@.contains_key(q) implies exists|i: int|
            0 <= i < self.entry_count() && self.epath(i) == q by {
            let i = self.idx_of(q);
            assert(self.epath(i) == q);
        }
        assert forall|p: Seq<Seq<char>>, k: int|
            self@.contains_key(p) && 1 <= k < p.len() implies self@.contains_key(
            #[trigger] p.take(k),
        ) && self@[p.take(k)] is Dir by {
            let i = self.idx_of(p);
            assert(self.entries@[i].path@ == p);
            assert(self.entries@[i].path@.take(k) == p.take(k));
        }
    }

    /// An empty tree.
    pub fn new() -> (r: FsTree)
        ensures
            r.wf(),
            r@ == Map::<Seq<Seq<char>>, FsNodeView>::empty(),
            r.entry_count() == 0,
    {
        let entries: Vec<FsEntry> = Vec::new();
        let r = FsTree { entries };
        proof {
            assert(r@ =~= Map::<Seq<Seq<char>>, FsNodeView>::empty());
        }
        r
    }

    /// How many entries the tree holds.
    pub fn entry_len(&self) -> (n: usize)
        ensures
            n == self.entry_count(),
    {
        self.entries.len()
    }

    /// The path of the entry at position `i`.
    pub fn entry_path(&self, i: usize) -> (r: &ChildPath)
        requires
            i < self.entry_count(),
        ensures
            r@ == self.epath(i as int),
    {
        &self.entries[i].path
    }

    /// The node of the entry at position `i`.
    pub fn entry_node(&self, i: usize) -> (r: &FsNode)
        requires
            i < self.entry_count(),
        ensures
            r@ == self.enode(i as int),
    {
        &self.entries[i].node
    }

    fn find_index(&self, path: &ChildPath) -> (r: Option<usize>)
        ensures
            match r {
                Some(i) => i < self.entries@.len() && self.entries@[i as int].path@ == path@,
                None => !self.has_path(path@),
            },
    {
        let n = self.entries.len();
        let mut i: usize = 0;
        while i < n
            invariant
                0 <= i <= n,
                n == self.entries@.len(),
                forall|j: int| 0 <= j < i ==> self.entries@[j].path@ != path@,
            decreases n - i,
        {
            if self.entries[i].path.same_as(path) {
                return Some(i);
            }
            i += 1;
        }
        None
    }

    /// The node at `path`, where the tree has one.
    pub fn node_at(&self, path: &ChildPath) -> (r: Option<&FsNode>)
        requires
            self.wf(),
        ensures
            r is Some <==> self@.contains_key(path@),
            r is Some ==> self@.contains_key(path@) && r->0@ == self@[path@],
    {
        match self.find_index(path) {
            Some(i) => {
                proof {
                    assert(self.has_path(path@));
                    let j = self.idx_of(path@);
                    assert(self.entries@[j].path@ == path@);
                    assert(j == i);
                }
                Some(&self.entries[i].node)
            },
            None => None,
        }
    }

    /// Inserts a fresh entry; used only where `path` is not yet present and
    /// its parent chain is made of directories.
    fn insert_entry(&mut self, path: &ChildPath, node: FsNode)
        requires
            old(self).wf(),
            !old(self)@.contains_key(path@),
            path@.len() >= 1,
            forall|k: int|
                1 <= k < path@.len() ==> old(self)@.contains_key(#[trigger] path@.take(k)) && old(
                    self,
                )@[path@.take(k)] is Dir,
        ensures
            final(self).wf(),
            final(self)@ == old(self)@.insert(path@, node@),
    {
        let ghost pre = *self;
        let ghost n = self.entries@.len() as int;
        let e = FsEntry { path: path.duplicate(), node };
        let ghost enode = e.node@;
        self.entries.push(e);
        proof {
            assert(!pre.has_path(path@));
            // the new map equals the old map with `path` inserted
            assert forall|q: Seq<Seq<char>>| #[trigger] self.has_path(q) implies (q == path@
                || pre.has_path(q)) by {
                let i = choose|i: int|
                    0 <= i < self.entries@.len() && self.entries@[i].path@ == q;
                if i < n {
                    assert(pre.entries@[i].path@ == q);
                }
            }
            assert forall|q: Seq<Seq<char>>| #[trigger] pre.has_path(q) implies self.has_path(
                q,
            ) by {
                let i = choose|i: int| 0 <= i < pre.entries@.len() && pre.entries@[i].path@ == q;
                assert(self.entries@[i].path@ == q);
            }
            assert(self.entries@[n].path@ == path@);
            assert(self.has_path(path@));
            assert forall|q: Seq<Seq<char>>| #[trigger] self.has_path(q) && q != path@ implies
                self@[q] == pre@[q] by {
                let i = self.idx_of(q);
                assert(self.entries@[i].path@ == q);
                assert(i < n);
                let j = pre.idx_of(q);
                assert(pre.entries@[j].path@ == q);
                assert(self.entries@[j].path@ == q);
                assert(i == j);
            }
            assert(self@[path@] == enode) by {
                let i = self.idx_of(path@);
                assert(self.entries@[i].path@ == path@);
                if i < n {
                    assert(pre.has_path(path@));
                }
                assert(i == n);
            }
            assert(self@ =~= pre@.insert(path@, enode));
            // well-formedness is preserved
            assert forall|i: int, j: int|
                0 <= i < self.entries@.len() && 0 <= j < self.entries@.len() && i != j implies
                self.entries@[i].path@ != self.entries@[j].path@ by {
                if i < n && j < n {
                    assert(pre.entries@[i].path@ != pre.entries@[j].path@);
                } else if i == n && j < n {
                    assert(!pre.has_path(path@));
                    assert(pre.entries@[j].path@ != path@);
                } else if j == n && i < n {
                    assert(!pre.has_path(path@));
                    assert(pre.entries@[i].path@ != path@);
                }
            }
            assert forall|i: int, k: int|
                0 <= i < self.entries@.len() && 1 <= k < self.entries@[i].path@.len() implies {
                let q = #[trigger] self.entries@[i].path@.take(k);
                self.has_path(q) && self@[q] is Dir
            } by {
                let q = self.entries@[i].path@.take(k);
                if i < n {
                    assert(pre.entries@[i].path@.take(k) == q);
                    assert(pre.has_path(q) && pre@[q] is Dir);
                    assert(pre@.contains_key(q));
                    assert(q != path@);
                    assert(self@[q] == pre@[q]);
                } else {
                    assert(self.entries@[i].path@ == path@);
                    assert(pre@.contains_key(q) && pre@[q] is Dir);
                    assert(pre.has_path(q));
                    assert(self.has_path(q));
                    assert(q != path@);
                    assert(self@[q] == pre@[q]);
                }
            }
        }
    }

    /// Writes file content at `path`, replacing a file already there; used
    /// only where the parent chain is made of directories and no directory
    /// occupies `path`.
    pub(crate) fn upsert_file(&mut self, path: &ChildPath, data: Vec<u8>)
        requires
            old(self).wf(),
            path@.len() >= 1,
            forall|k: int|
                1 <= k < path@.len() ==> old(self)@.contains_key(#[trigger] path@.take(k)) && old(
                    self,
                )@[path@.take(k)] is Dir,
            !(old(self)@.contains_key(path@) && old(self)@[path@] is Dir),
        ensures
            final(self).wf(),
            final(self)@ == old(self)@.insert(path@, FsNodeView::File(data@)),
    {
        let ghost pre = *self;
        let ghost n = self.entries@.len() as int;
        let ghost dv = data@;
        match self.find_index(path) {
            Some(i) => {
                proof {
                    assert(pre.has_path(path@));
                }
                let e = FsEntry { path: path.duplicate(), node: FsNode::File(data) };
                self.entries[i] = e;
                proof {
                    let gi = i as int;
                    assert(self.entries@ == pre.entries@.update(gi, self.entries@[gi]));
                    assert(self.entries@[gi].path@ == path@);
                    assert(self.entries@[gi].node@ == FsNodeView::File(dv));
                    assert(self.entries@.len() == n);
                    assert forall|j: int|
                        0 <= j < n && j != gi implies self.entries@[j] == pre.entries@[j] by {}
                    assert forall|q: Seq<Seq<char>>| #[trigger] self.has_path(q) implies
                        pre.has_path(q) by {
                        let a = choose|a: int|
                            0 <= a < self.entries@.len() && self.entries@[a].path@ == q;
                        if a == gi {
                            assert(pre.entries@[gi].path@ == path@);
                        } else {
                            assert(pre.entries@[a].path@ == q);
                        }
                    }
                    assert forall|q: Seq<Seq<char>>| #[trigger] pre.has_path(q) implies
                        self.has_path(q) by {
                        let a = choose|a: int|
                            0 <= a < pre.entries@.len() && pre.entries@[a].path@ == q;
                        if a == gi {
                            assert(pre.entries@[gi].path@ == path@);
                            assert(self.entries@[gi].path@ == q);
                        } else {
                            assert(self.entries@[a].path@ == q);
                        }
                    }
                    // uniqueness is preserved: the path at `gi` is unchanged
                    assert forall|a: int, b: int|
                        0 <= a < self.entries@.len() && 0 <= b < self.entries@.len() && a != b
                            implies self.entries@[a].path@ != self.entries@[b].path@ by {
                        assert(self.entries@[a].path@ == pre.entries@[a].path@);
                        assert(self.entries@[b].path@ == pre.entries@[b].path@);
                    }
                    assert forall|q: Seq<Seq<char>>| #[trigger] self.has_path(q) && q != path@
                        implies self@[q] == pre@[q] by {
                        let a = self.idx_of(q);
                        assert(self.entries@[a].path@ == q);
                        assert(a != gi);
                        let b = pre.idx_of(q);
                        assert(pre.entries@[b].path@ == q);
                        assert(self.entries@[b].path@ == q);
                        assert(a == b);
                    }
                    assert(self@[path@] == FsNodeView::File(dv)) by {
                        let a = self.idx_of(path@);
                        assert(self.entries@[a].path@ == path@);
                        assert(a == gi);
                    }
                    assert(self@ =~= pre@.insert(path@, FsNodeView::File(dv)));
                    // prefix directories are unchanged
                    assert forall|a: int, k: int|
                        0 <= a < self.entries@.len() && 1 <= k < self.entries@[a].path@.len()
                            implies {
                        let q = #[trigger] self.entries@[a].path@.take(k);
                        self.has_path(q) && self@[q] is Dir
                    } by {
                        assert(self.entries@[a].path@ == pre.entries@[a].path@);
                        let q = pre.entries@[a].path@.take(k);
                        assert(pre.has_path(q) && pre@[q] is Dir);
                        if q == path@ {
                            assert(pre@.contains_key(path@) && pre@[path@] is Dir);
                            assert(false);
                        }
                        assert(self@[q] == pre@[q]);
                    }
                }
            },
            None => {
                proof {
                    assert(!pre@.contains_key(path@));
                }
                self.insert_entry(path, FsNode::File(data));
            },
        }
    }
}


/// Taking a prefix of a prefix is taking the shorter prefix.
pub proof fn lemma_take_take(p: Seq<Seq<char>>, k: int, j: int)
    requires
        0 <= j <= k <= p.len(),
    ensures
        p.take(k).take(j) == p.take(j),
{
    assert(p.take(k).take(j) =~= p.take(j));
}

/// A node is either a directory or a file.
pub proof fn lemma_node_cases(v: FsNodeView)
    ensures
        v is Dir <==> !(v is File),
{
}

/// Creates the directory chain down to the first `upto` components of `path`.
fn dirs_upto(fs: &mut FsTree, path: &ChildPath, upto: usize) -> (r: Result<(), FixtureError>)
    requires
        old(fs).wf(),
        upto <= path@.len(),
    ensures
        final(fs).wf(),
        r is Ok <==> dir_chain_ok(old(fs)@, path@.take(upto as int)),
        r is Ok ==> final(fs)@ == with_dirs(old(fs)@, path@.take(upto as int)),
        r is Err ==> final(fs)@ == old(fs)@ && r->Err_0.kind == FixtureKind::CreateDir,
{
    let ghost m = old(fs)@;
    let ghost p = path@.take(upto as int);
    let mut k: usize = 0;
    while k < upto
        invariant
            *fs == *old(fs),
            fs.wf(),
            0 <= k <= upto,
            upto <= path@.len(),
            m == old(fs)@,
            p == path@.take(upto as int),
            forall|j: int|
                1 <= j <= k ==> !(m.contains_key(#[trigger] path@.take(j)) && m[path@.take(
                    j,
                )] is File),
        decreases upto - k,
    {
        let pre = path.prefix(k + 1);
        let is_file: bool = match fs.node_at(&pre) {
            Some(n) => !n.is_dir(),
            None => false,
        };
        if is_file {
            proof {
                lemma_take_take(path@, upto as int, k + 1 as int);
                assert(p.take(k + 1 as int) == path@.take(k + 1 as int));
                assert(m.contains_key(p.take(k + 1 as int)) && m[p.take(k + 1 as int)] is File);
                assert(!dir_chain_ok(m, p));
            }
            return Err(FixtureError::new(FixtureKind::CreateDir));
        }
        proof {
            lemma_node_cases(if m.contains_key(path@.take(k + 1 as int)) {
                m[path@.take(k + 1 as int)]
            } else {
                FsNodeView::Dir
            });
        }
        k += 1;
    }
    proof {
        assert(p.len() == upto as int);
        assert forall|j: int| 1 <= j <= p.len() implies !(m.contains_key(#[trigger] p.take(j))
            && m[p.take(j)] is File) by {
            lemma_take_take(path@, upto as int, j);
            assert(p.take(j) == path@.take(j));
        }
        assert(dir_chain_ok(m, p));
        assert(path@.take(0) =~= Seq::<Seq<char>>::empty());
        assert(fs@ =~= with_dirs(m, path@.take(0)));
    }
    let mut i: usize = 0;
    while i < upto
        invariant
            fs.wf(),
            0 <= i <= upto,
            upto <= path@.len(),
            m == old(fs)@,
            p == path@.take(upto as int),
            dir_chain_ok(m, p),
            fs@ == with_dirs(m, path@.take(i as int)),
        decreases upto - i,
    {
        let ghost pk = path@.take(i + 1 as int);
        let ghost pk1 = path@.take(i as int);
        proof {
            assert(pk.len() == i + 1 as int);
            assert(pk1.len() == i as int);
        }
        let pre = path.prefix(i + 1);
        let present: bool = match fs.node_at(&pre) {
            Some(_) => true,
            None => false,
        };
        if present {
            proof {
                assert(fs@.contains_key(pk));
                assert(m.contains_key(pk)) by {
                    if !m.contains_key(pk) {
                        assert(is_path_prefix(pk, pk1));
                        assert(false);
                    }
                }
                assert forall|q: Seq<Seq<char>>| #[trigger] with_dirs(m, pk).contains_key(q)
                    implies with_dirs(m, pk1).contains_key(q) by {
                    if !m.contains_key(q) {
                        assert(1 <= q.len() && is_path_prefix(q, pk));
                        if q.len() <= i as int {
                            lemma_take_take(path@, i + 1 as int, q.len() as int);
                            lemma_take_take(path@, i as int, q.len() as int);
                            assert(q == pk1.take(q.len() as int));
                            assert(is_path_prefix(q, pk1));
                        } else {
                            assert(q.len() == i + 1 as int);
                            assert(q == pk.take(pk.len() as int));
                            assert(pk.take(pk.len() as int) =~= pk);
                            assert(false);
                        }
                    }
                }
                assert forall|q: Seq<Seq<char>>| #[trigger] with_dirs(m, pk1).contains_key(q)
                    implies with_dirs(m, pk).contains_key(q) by {
                    if !m.contains_key(q) {
                        assert(1 <= q.len() && is_path_prefix(q, pk1));
                        lemma_take_take(path@, i as int, q.len() as int);
                        lemma_take_take(path@, i + 1 as int, q.len() as int);
                        assert(q == pk.take(q.len() as int));
                        assert(is_path_prefix(q, pk));
                    }
                }
                assert(with_dirs(m, pk) =~= fs@);
            }
        } else {
            proof {
                assert(!fs@.contains_key(pk));
                assert(!m.contains_key(pk));
                assert forall|j: int| 1 <= j < pk.len() implies fs@.contains_key(
                    #[trigger] pk.take(j),
                ) && fs@[pk.take(j)] is Dir by {
                    lemma_take_take(path@, i + 1 as int, j);
                    lemma_take_take(path@, i as int, j);
                    assert(pk.take(j) == path@.take(j));
                    assert(path@.take(j) == pk1.take(j));
                    assert(is_path_prefix(path@.take(j), pk1));
                    assert(fs@.contains_key(path@.take(j)));
                    if m.contains_key(path@.take(j)) {
                        lemma_take_take(path@, upto as int, j);
                        assert(p.take(j) == path@.take(j));
                        assert(!(m[path@.take(j)] is File));
                        lemma_node_cases(m[path@.take(j)]);
                        assert(fs@[path@.take(j)] == m[path@.take(j)]);
                    } else {
                        assert(fs@[path@.take(j)] == FsNodeView::Dir);
                    }
                }
                assert(pk.len() >= 1);
            }
            fs.insert_entry(&pre, FsNode::Dir);
            proof {
                assert(fs@ == with_dirs(m, pk1).insert(pk, FsNodeView::Dir));
                assert forall|q: Seq<Seq<char>>| #[trigger] with_dirs(m, pk).contains_key(q)
                    implies fs@.contains_key(q) by {
                    if !m.contains_key(q) {
                        assert(1 <= q.len() && is_path_prefix(q, pk));
                        if q.len() <= i as int {
                            lemma_take_take(path@, i + 1 as int, q.len() as int);
                            lemma_take_take(path@, i as int, q.len() as int);
                            assert(q == pk1.take(q.len() as int));
                            assert(is_path_prefix(q, pk1));
                        } else {
                            assert(q.len() == i + 1 as int);
                            assert(q == pk.take(pk.len() as int));
                            assert(pk.take(pk.len() as int) =~= pk);
                            assert(q == pk);
                        }
                    }
                }
                assert forall|q: Seq<Seq<char>>| #[trigger] fs@.contains_key(q) implies with_dirs(
                    m,
                    pk,
                ).contains_key(q) by {
                    if q == pk {
                        assert(pk.take(pk.len() as int) =~= pk);
                        assert(is_path_prefix(pk, pk));
                    } else if !m.contains_key(q) {
                        assert(1 <= q.len() && is_path_prefix(q, pk1));
                        lemma_take_take(path@, i as int, q.len() as int);
                        lemma_take_take(path@, i + 1 as int, q.len() as int);
                        assert(q == pk.take(q.len() as int));
                        assert(is_path_prefix(q, pk));
                    }
                }
                assert(fs@ =~= with_dirs(m, pk));
            }
        }
        i += 1;
    }
    proof {
        assert(path@.take(upto as int) == p);
        assert(fs@ == with_dirs(m, p));
    }
    Ok(())
}

/// Creates an empty directory (and its whole parent chain) at `path`.
///
/// Succeeds exactly when no file stands anywhere on the chain; in particular
/// it succeeds when the directory already exists, and a second call is a
/// no-op.  On failure the tree is unchanged.
pub fn create_dir_all(fs: &mut FsTree, path: &ChildPath) -> (r: Result<(), FixtureError>)
    requires
        old(fs).wf(),
    ensures
        final(fs).wf(),
        r is Ok <==> dir_chain_ok(old(fs)@, path@),
        r is Ok ==> final(fs)@ == with_dirs(old(fs)@, path@),
        r is Err ==> final(fs)@ == old(fs)@ && r->Err_0.kind == FixtureKind::CreateDir,
{
    let n = path.depth();
    proof {
        assert(path@.take(n as int) =~= path@);
    }
    dirs_upto(fs, path, n)
}

/// Creates the parent directory chain of `path`.
pub fn ensure_parent_dir(fs: &mut FsTree, path: &ChildPath) -> (r: Result<(), FixtureError>)
    requires
        old(fs).wf(),
    ensures
        final(fs).wf(),
        r is Ok <==> dir_chain_ok(old(fs)@, parent_of(path@)),
        r is Ok ==> final(fs)@ == with_dirs(old(fs)@, parent_of(path@)),
        r is Err ==> final(fs)@ == old(fs)@ && r->Err_0.kind == FixtureKind::CreateDir,
{
    let n = path.depth();
    let upto: usize = if n == 0 {
        0
    } else {
        n - 1
    };
    proof {
        assert(path@.take(upto as int) =~= parent_of(path@));
    }
    dirs_upto(fs, path, upto)
}

/// Writes `data` at `path` with the given failure kind for the leaf write,
/// materializing missing parent directories first.
fn write_leaf(fs: &mut FsTree, path: &ChildPath, data: Vec<u8>, kind: FixtureKind) -> (r: Result<
    (),
    FixtureError,
>)
    requires
        old(fs).wf(),
        kind != FixtureKind::CreateDir,
    ensures
        final(fs).wf(),
        r is Ok <==> file_write_ok(old(fs)@, path@),
        r is Ok ==> final(fs)@ == file_written(old(fs)@, path@, data@),
        r is Err ==> (r->Err_0.kind == FixtureKind::CreateDir || r->Err_0.kind == kind),
        r is Err && r->Err_0.kind == FixtureKind::CreateDir ==> final(fs)@ == old(fs)@
            && !dir_chain_ok(old(fs)@, parent_of(path@)),
        (r is Err && r->Err_0.kind != FixtureKind::CreateDir) ==> final(fs)@ == with_dirs(
            old(fs)@,
            parent_of(path@),
        ) && dir_chain_ok(old(fs)@, parent_of(path@)),
{
    let ghost m = old(fs)@;
    match ensure_parent_dir(fs, path) {
        Err(e) => {
            return Err(e);
        },
        Ok(_) => {},
    }
    if path.depth() == 0 {
        return Err(FixtureError::new(kind));
    }
    let found_dir: bool = match fs.node_at(path) {
        Some(n) => n.is_dir(),
        None => false,
    };
    proof {
        assert(!is_path_prefix(path@, parent_of(path@)));
        if m.contains_key(path@) {
            assert(fs@.contains_key(path@) && fs@[path@] == m[path@]);
        } else {
            if fs@.contains_key(path@) {
                assert(is_path_prefix(path@, parent_of(path@)));
            }
            assert(!fs@.contains_key(path@));
        }
    }
    if found_dir {
        return Err(FixtureError::new(kind));
    }
    proof {
        assert(!(m.contains_key(path@) && m[path@] is Dir));
        assert(file_write_ok(m, path@));
        assert forall|k: int| 1 <= k < path@.len() implies fs@.contains_key(
            #[trigger] path@.take(k),
        ) && fs@[path@.take(k)] is Dir by {
            assert(parent_of(path@) == path@.take(path@.len() - 1));
            lemma_take_take(path@, path@.len() - 1, k);
            assert(path@.take(k) == parent_of(path@).take(k));
            assert(is_path_prefix(path@.take(k), parent_of(path@)));
            assert(fs@.contains_key(path@.take(k)));
            if m.contains_key(path@.take(k)) {
                assert(!(m[path@.take(k)] is File));
                lemma_node_cases(m[path@.take(k)]);
                assert(fs@[path@.take(k)] == m[path@.take(k)]);
            } else {
                assert(fs@[path@.take(k)] == FsNodeView::Dir);
            }
        }
        assert(!(fs@.contains_key(path@) && fs@[path@] is Dir));
    }
    fs.upsert_file(path, data);
    Ok(())
}

/// Writes the bytes `data` at `path`, materializing missing parent
/// directories, truncating a file already there.
///
/// Succeeds exactly when no file blocks the parent chain and no directory
/// occupies `path` itself; the tree then carries `data` at `path`.
pub fn write_binary(fs: &mut FsTree, path: &ChildPath, data: &[u8]) -> (r: Result<
    (),
    FixtureError,
>)
    requires
        old(fs).wf(),
    ensures
        final(fs).wf(),
        r is Ok <==> file_write_ok(old(fs)@, path@),
        r is Ok ==> final(fs)@ == file_written(old(fs)@, path@, data@),
        r is Err ==> (r->Err_0.kind == FixtureKind::CreateDir || r->Err_0.kind
            == FixtureKind::WriteFile),
        r is Err && r->Err_0.kind == FixtureKind::CreateDir ==> final(fs)@ == old(fs)@
            && !dir_chain_ok(old(fs)@, parent_of(path@)),
        r is Err && r->Err_0.kind == FixtureKind::WriteFile ==> final(fs)@ == with_dirs(
            old(fs)@,
            parent_of(path@),
        ) && dir_chain_ok(old(fs)@, parent_of(path@)),
{
    write_leaf(fs, path, slice_to_vec(data), FixtureKind::WriteFile)
}

/// Creates an empty file at `path` (truncating one already there), after
/// materializing its parent directory chain.
pub fn touch(fs: &mut FsTree, path: &ChildPath) -> (r: Result<(), FixtureError>)
    requires
        old(fs).wf(),
    ensures
        final(fs).wf(),
        r is Ok <==> file_write_ok(old(fs)@, path@),
        r is Ok ==> final(fs)@ == file_written(old(fs)@, path@, Seq::empty()),
        r is Err ==> (r->Err_0.kind == FixtureKind::CreateDir || r->Err_0.kind
            == FixtureKind::WriteFile),
        r is Err && r->Err_0.kind == FixtureKind::CreateDir ==> final(fs)@ == old(fs)@
            && !dir_chain_ok(old(fs)@, parent_of(path@)),
        r is Err && r->Err_0.kind == FixtureKind::WriteFile ==> final(fs)@ == with_dirs(
            old(fs)@,
            parent_of(path@),
        ) && dir_chain_ok(old(fs)@, parent_of(path@)),
{
    let data: Vec<u8> = Vec::new();
    write_binary(fs, path, data.as_slice())
}

/// Writes the UTF-8 encoding of `data` at `path`, materializing missing
/// parent directories.
pub fn write_str(fs: &mut FsTree, path: &ChildPath, data: &str) -> (r: Result<(), FixtureError>)
    requires
        old(fs).wf(),
    ensures
        final(fs).wf(),
        r is Ok <==> file_write_ok(old(fs)@, path@),
        r is Ok ==> final(fs)@ == file_written(
            old(fs)@,
            path@,
            vstd::utf8::encode_utf8(data@),
        ),
        r is Err ==> (r->Err_0.kind == FixtureKind::CreateDir || r->Err_0.kind
            == FixtureKind::WriteFile),
        r is Err && r->Err_0.kind == FixtureKind::CreateDir ==> final(fs)@ == old(fs)@
            && !dir_chain_ok(old(fs)@, parent_of(path@)),
        r is Err && r->Err_0.kind == FixtureKind::WriteFile ==> final(fs)@ == with_dirs(
            old(fs)@,
            parent_of(path@),
        ) && dir_chain_ok(old(fs)@, parent_of(path@)),
{
    write_binary(fs, path, data.as_bytes())
}

/// Places copied bytes at `path`, materializing missing parent directories;
/// the leaf action of the tree copier, failing with the copy phase's kind.
pub fn copy_bytes(fs: &mut FsTree, path: &ChildPath, data: &[u8]) -> (r: Result<(), FixtureError>)
    requires
        old(fs).wf(),
    ensures
        final(fs).wf(),
        r is Ok <==> file_write_ok(old(fs)@, path@),
        r is Ok ==> final(fs)@ == file_written(old(fs)@, path@, data@),
        r is Err ==> (r->Err_0.kind == FixtureKind::CreateDir || r->Err_0.kind
            == FixtureKind::CopyFile),
        r is Err && r->Err_0.kind == FixtureKind::CreateDir ==> final(fs)@ == old(fs)@
            && !dir_chain_ok(old(fs)@, parent_of(path@)),
        r is Err && r->Err_0.kind == FixtureKind::CopyFile ==> final(fs)@ == with_dirs(
            old(fs)@,
            parent_of(path@),
        ) && dir_chain_ok(old(fs)@, parent_of(path@)),
{
    write_leaf(fs, path, slice_to_vec(data), FixtureKind::CopyFile)
}

/// Copies the bytes of the file at `data` to `path` within the same tree,
/// materializing the target's parent chain first.
///
/// Succeeds exactly when the target is writable and `data` names a file.
pub fn write_file(fs: &mut FsTree, path: &ChildPath, data: &ChildPath) -> (r: Result<
    (),
    FixtureError,
>)
    requires
        old(fs).wf(),
    ensures
        final(fs).wf(),
        r is Ok <==> (file_write_ok(old(fs)@, path@) && old(fs)@.contains_key(data@) && old(
            fs,
        )@[data@] is File),
        r is Ok ==> final(fs)@ == file_written(old(fs)@, path@, old(fs)@[data@]->File_0),
        r is Err ==> (r->Err_0.kind == FixtureKind::CreateDir || r->Err_0.kind
            == FixtureKind::CopyFile),
        r is Err && r->Err_0.kind == FixtureKind::CreateDir ==> final(fs)@ == old(fs)@
            && !dir_chain_ok(old(fs)@, parent_of(path@)),
        r is Err && r->Err_0.kind == FixtureKind::CopyFile ==> final(fs)@ == with_dirs(
            old(fs)@,
            parent_of(path@),
        ) && dir_chain_ok(old(fs)@, parent_of(path@)),
{
    let ghost m = old(fs)@;
    match ensure_parent_dir(fs, path) {
        Err(e) => {
            return Err(e);
        },
        Ok(_) => {},
    }
    let bytes_opt: Option<Vec<u8>> = match fs.node_at(data) {
        Some(n) => match n.file_bytes() {
            Some(b) => Some(slice_to_vec(b.as_slice())),
            None => None,
        },
        None => None,
    };
    proof {
        if m.contains_key(data@) {
            assert(fs@.contains_key(data@) && fs@[data@] == m[data@]);
        } else {
            if fs@.contains_key(data@) {
                assert(fs@[data@] == FsNodeView::Dir);
            }
        }
    }
    match bytes_opt {
        Some(bytes) => {
            proof {
                assert(m.contains_key(data@) && m[data@] is File);
                assert(bytes@ == m[data@]->File_0);
            }
            let ghost mid = fs@;
            let r = write_leaf(fs, path, bytes, FixtureKind::CopyFile);
            proof {
                // the parent chain was already materialized, so re-deriving it
                // from the intermediate state collapses to the original one
                assert(with_dirs(mid, parent_of(path@)) =~= mid);
                if r is Ok {
                    assert(file_write_ok(m, path@)) by {
                        assert forall|k: int|
                            1 <= k <= parent_of(path@).len() implies !(m.contains_key(
                            #[trigger] parent_of(path@).take(k),
                        ) && m[parent_of(path@).take(k)] is File) by {
                            assert(mid.contains_key(parent_of(path@).take(k)) ==> !(mid[parent_of(
                                path@,
                            ).take(k)] is File));
                        }
                    }
                }
            }
            match r {
                Ok(_) => {
                    proof {
                        assert(fs@ == file_written(mid, path@, m[data@]->File_0));
                        assert(file_written(mid, path@, m[data@]->File_0) =~= file_written(
                            m,
                            path@,
                            m[data@]->File_0,
                        ));
                    }
                    Ok(())
                },
                Err(e) => {
                    proof {
                        assert(e.kind == FixtureKind::CopyFile);
                        assert(with_dirs(mid, parent_of(path@)) =~= with_dirs(
                            m,
                            parent_of(path@),
                        ));
                    }
                    Err(e)
                },
            }
        },
        None => {
            proof {
                assert(!(m.contains_key(data@) && m[data@] is File));
            }
            Err(FixtureError::new(FixtureKind::CopyFile))
        },
    }
}

} // verus!
