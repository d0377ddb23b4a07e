//! The glob-filtered tree copier.
//!
//! `copy_files` mirrors the subset of a source tree selected by glob
//! patterns into a location of a target tree, preserving relative structure:
//! a selected directory is created under the target, a selected file has its
//! parent chain materialized and its bytes copied (overwriting a file
//! already there).  An empty pattern list selects nothing and the copy is a
//! no-op.  The first failing step aborts the whole copy; already copied
//! entries are left in place.

use vstd::prelude::*;

use crate::errors::{FixtureError, FixtureKind};
use crate::glob::any_glob_matches;
use crate::path::{views_of, ChildPath};
use crate::tree::{
    copy_bytes, create_dir_all, dir_chain_ok, file_write_ok, file_written, is_path_prefix,
    with_dirs, FsNodeView, FsTree,
};

verus! {

/// A source node `v` at relative path `p` can be placed under `tgt` in `m`.
pub open spec fn entry_placeable(
    m: Map<Seq<Seq<char>>, FsNodeView>,
    tgt: Seq<Seq<char>>,
    p: Seq<Seq<char>>,
    v: FsNodeView,
) -> bool {
    if v is Dir {
        dir_chain_ok(m, tgt + p)
    } else {
        file_write_ok(m, tgt + p)
    }
}

/// Every selected source entry can be placed under `tgt` in `m`: the copy
/// succeeds as a whole.
pub open spec fn copy_ok(
    m: Map<Seq<Seq<char>>, FsNodeView>,
    src: Map<Seq<Seq<char>>, FsNodeView>,
    tgt: Seq<Seq<char>>,
    pats: Seq<Seq<char>>,
) -> bool {
    forall|p: Seq<Seq<char>>|
        #[trigger] src.contains_key(p) && any_glob_matches(pats, p) ==> entry_placeable(
            m,
            tgt,
            p,
            src[p],
        )
}

/// `q` is the target location of a selected source file.
pub open spec fn copied_file_at(
    src: Map<Seq<Seq<char>>, FsNodeView>,
    tgt: Seq<Seq<char>>,
    pats: Seq<Seq<char>>,
    q: Seq<Seq<char>>,
) -> bool {
    &&& q.len() > tgt.len()
    &&& q.take(tgt.len() as int) == tgt
    &&& src.contains_key(q.skip(tgt.len() as int))
    &&& any_glob_matches(pats, q.skip(tgt.len() as int))
    &&& src[q.skip(tgt.len() as int)] is File
}

/// `q` is a directory the copy creates: a prefix of the target location of a
/// selected source entry (the location itself for a directory entry).
pub open spec fn copied_dir_at(
    src: Map<Seq<Seq<char>>, FsNodeView>,
    tgt: Seq<Seq<char>>,
    pats: Seq<Seq<char>>,
    q: Seq<Seq<char>>,
) -> bool {
    &&& 1 <= q.len()
    &&& exists|p: Seq<Seq<char>>|
        #[trigger] src.contains_key(p) && any_glob_matches(pats, p) && is_path_prefix(q, tgt + p)
            && (src[p] is Dir || q.len() < tgt.len() + p.len())
}

/// The target tree after a successful copy: every selected file's bytes under
/// its target location, the needed directories created, everything else kept.
pub open spec fn copy_result(
    m: Map<Seq<Seq<char>>, FsNodeView>,
    src: Map<Seq<Seq<char>>, FsNodeView>,
    tgt: Seq<Seq<char>>,
    pats: Seq<Seq<char>>,
) -> Map<Seq<Seq<char>>, FsNodeView> {
    Map::new(
        |q: Seq<Seq<char>>|
            m.contains_key(q) || copied_dir_at(src, tgt, pats, q) || copied_file_at(
                src,
                tgt,
                pats,
                q,
            ),
        |q: Seq<Seq<char>>|
            if copied_file_at(src, tgt, pats, q) {
                FsNodeView::File(src[q.skip(tgt.len() as int)]->File_0)
            } else if m.contains_key(q) {
                m[q]
            } else {
                FsNodeView::Dir
            },
    )
}

/// Like `copied_file_at`, over the first `i` entries of the source tree.
spec fn pfile(
    source: FsTree,
    tgt: Seq<Seq<char>>,
    pats: Seq<Seq<char>>,
    i: int,
    q: Seq<Seq<char>>,
) -> bool {
    &&& q.len() > tgt.len()
    &&& q.take(tgt.len() as int) == tgt
    &&& exists|j: int|
        0 <= j < i && #[trigger] source.epath(j) == q.skip(tgt.len() as int) && any_glob_matches(
            pats,
            source.epath(j),
        ) && source.enode(j) is File
}

/// Like `copied_dir_at`, over the first `i` entries of the source tree.
spec fn pdir(
    source: FsTree,
    tgt: Seq<Seq<char>>,
    pats: Seq<Seq<char>>,
    i: int,
    q: Seq<Seq<char>>,
) -> bool {
    &&& 1 <= q.len()
    &&& exists|j: int|
        0 <= j < i && any_glob_matches(pats, #[trigger] source.epath(j)) && is_path_prefix(
            q,
            tgt + source.epath(j),
        ) && (source.enode(j) is Dir || q.len() < tgt.len() + source.epath(j).len())
}

/// The target tree after the first `i` source entries are processed.
spec fn partial(
    m: Map<Seq<Seq<char>>, FsNodeView>,
    source: FsTree,
    tgt: Seq<Seq<char>>,
    pats: Seq<Seq<char>>,
    i: int,
) -> Map<Seq<Seq<char>>, FsNodeView> {
    Map::new(
        |q: Seq<Seq<char>>|
            m.contains_key(q) || pdir(source, tgt, pats, i, q) || pfile(source, tgt, pats, i, q),
        |q: Seq<Seq<char>>|
            if pfile(source, tgt, pats, i, q) {
                FsNodeView::File(source@[q.skip(tgt.len() as int)]->File_0)
            } else if m.contains_key(q) {
                m[q]
            } else {
                FsNodeView::Dir
            },
    )
}

proof fn lemma_concat_take_large(a: Seq<Seq<char>>, b: Seq<Seq<char>>, k: int)
    requires
        a.len() <= k <= a.len() + b.len(),
    ensures
        (a + b).take(k) == a + b.take(k - a.len()),
{
    assert((a + b).take(k) =~= a + b.take(k - a.len()));
}

proof fn lemma_concat_parts(a: Seq<Seq<char>>, b: Seq<Seq<char>>)
    ensures
        (a + b).take(a.len() as int) == a,
        (a + b).skip(a.len() as int) == b,
{
    assert((a + b).take(a.len() as int) =~= a);
    assert((a + b).skip(a.len() as int) =~= b);
}

proof fn lemma_prefix_cancel(tgt: Seq<Seq<char>>, a: Seq<Seq<char>>, b: Seq<Seq<char>>)
    requires
        is_path_prefix(tgt + a, tgt + b),
    ensures
        is_path_prefix(a, b),
{
    lemma_concat_take_large(tgt, b, tgt.len() + a.len() as int);
    assert(tgt + a == tgt + b.take(a.len() as int));
    assert forall|x: int| 0 <= x < a.len() implies a[x] == b.take(a.len() as int)[x] by {
        assert((tgt + a)[tgt.len() + x] == a[x]);
        assert((tgt + b.take(a.len() as int))[tgt.len() + x] == b.take(a.len() as int)[x]);
    }
    assert(a =~= b.take(a.len() as int));
}

/// In a well-formed source tree, a file entry has no entry strictly below it;
/// placing one entry therefore never disturbs the placeability of another:
/// an entry not yet processed can be placed in the partially copied target
/// exactly when it can be placed in the original target.
proof fn lemma_placeable_stable(
    m: Map<Seq<Seq<char>>, FsNodeView>,
    source: FsTree,
    tgt: Seq<Seq<char>>,
    pats: Seq<Seq<char>>,
    i: int,
    p: Seq<Seq<char>>,
)
    requires
        source.wf(),
        source@.contains_key(p),
        forall|j: int| 0 <= j < i ==> source.epath(j) != p,
        0 <= i <= source.entry_count(),
    ensures
        entry_placeable(partial(m, source, tgt, pats, i), tgt, p, source@[p]) == entry_placeable(
            m,
            tgt,
            p,
            source@[p],
        ),
{
    source.lemma_entries();
    let pm = partial(m, source, tgt, pats, i);
    let v = source@[p];
    let full = tgt + p;
    // a prefix of the target location is never a copied file
    assert forall|k: int| 1 <= k <= full.len() && (k < full.len() || v is Dir) implies !pfile(
        source,
        tgt,
        pats,
        i,
        full.take(k),
    ) by {
        if pfile(source, tgt, pats, i, full.take(k)) {
            assert(full.take(k).len() == k);
            assert(k > tgt.len());
            lemma_concat_take_large(tgt, p, k);
            assert(full.take(k) == tgt + p.take(k - tgt.len()));
            lemma_concat_parts(tgt, p.take(k - tgt.len()));
            let j = choose|j: int|
                0 <= j < i && #[trigger] source.epath(j) == full.take(k).skip(tgt.len() as int)
                    && any_glob_matches(pats, source.epath(j)) && source.enode(j) is File;
            assert(source.epath(j) == p.take(k - tgt.len()));
            assert(source@.contains_key(source.epath(j)) && source@[source.epath(j)]
                == source.enode(j));
            if k < full.len() {
                // a proper prefix of `p` is a directory in the source
                assert(1 <= k - tgt.len() < p.len());
                assert(source@.contains_key(p.take(k - tgt.len())) && source@[p.take(
                    k - tgt.len(),
                )] is Dir);
            } else {
                // `p` itself: its node is a directory here
                assert(p.take(k - tgt.len()) =~= p);
                assert(source.epath(j) == p);
            }
        }
    }
    // file presence in the partial target agrees with the original target on
    // the whole chain
    assert forall|k: int| 1 <= k <= full.len() && (k < full.len() || v is Dir) implies ((
    pm.contains_key(#[trigger] full.take(k)) && pm[full.take(k)] is File) == (m.contains_key(
        full.take(k),
    ) && m[full.take(k)] is File)) by {
        assert(!pfile(source, tgt, pats, i, full.take(k)));
    }
    if v is Dir {
        assert(dir_chain_ok(pm, full) == dir_chain_ok(m, full)) by {
            assert forall|k: int| 1 <= k <= full.len() implies ((pm.contains_key(
                #[trigger] full.take(k),
            ) && pm[full.take(k)] is File) == (m.contains_key(full.take(k)) && m[full.take(
                k,
            )] is File)) by {}
        }
    } else {
        let par = crate::tree::parent_of(full);
        assert(par == full.take(full.len() - 1));
        assert(dir_chain_ok(pm, par) == dir_chain_ok(m, par)) by {
            assert forall|k: int| 1 <= k <= par.len() implies ((pm.contains_key(
                #[trigger] par.take(k),
            ) && pm[par.take(k)] is File) == (m.contains_key(par.take(k)) && m[par.take(
                k,
            )] is File)) by {
                crate::tree::lemma_take_take(full, full.len() - 1, k);
                assert(par.take(k) == full.take(k));
            }
        }
        // no directory appears at the file's own location
        assert(!pfile(source, tgt, pats, i, full)) by {
            if pfile(source, tgt, pats, i, full) {
                lemma_concat_parts(tgt, p);
                let j = choose|j: int|
                    0 <= j < i && #[trigger] source.epath(j) == full.skip(tgt.len() as int)
                        && any_glob_matches(pats, source.epath(j)) && source.enode(j) is File;
                assert(source.epath(j) == p);
            }
        }
        assert((pm.contains_key(full) && pm[full] is Dir) == (m.contains_key(full)
            && m[full] is Dir)) by {
            if pdir(source, tgt, pats, i, full) && !m.contains_key(full) {
                let j = choose|j: int|
                    0 <= j < i && any_glob_matches(pats, #[trigger] source.epath(j))
                        && is_path_prefix(full, tgt + source.epath(j)) && (source.enode(
                        j,
                    ) is Dir || full.len() < tgt.len() + source.epath(j).len());
                lemma_prefix_cancel(tgt, p, source.epath(j));
                assert(source@.contains_key(source.epath(j)));
                if p.len() == source.epath(j).len() {
                    assert(p =~= source.epath(j));
                } else {
                    // `p` is a proper prefix of a source entry: a directory
                    assert(1 <= p.len() < source.epath(j).len());
                    assert(source@.contains_key(source.epath(j).take(p.len() as int)));
                    assert(p == source.epath(j).take(p.len() as int));
                    assert(source@[p] is Dir);
                }
            }
        }
    }
}


proof fn lemma_take_skip_parts(q: Seq<Seq<char>>, l: int)
    requires
        0 <= l <= q.len(),
    ensures
        q == q.take(l) + q.skip(l),
{
    assert(q =~= q.take(l) + q.skip(l));
}

/// Before any entry is processed the target is untouched.
proof fn lemma_partial_zero(
    m: Map<Seq<Seq<char>>, FsNodeView>,
    source: FsTree,
    tgt: Seq<Seq<char>>,
    pats: Seq<Seq<char>>,
)
    ensures
        partial(m, source, tgt, pats, 0) == m,
{
    assert(partial(m, source, tgt, pats, 0) =~= m);
}

/// An unselected entry leaves the target as it is.
proof fn lemma_step_skip(
    m: Map<Seq<Seq<char>>, FsNodeView>,
    source: FsTree,
    tgt: Seq<Seq<char>>,
    pats: Seq<Seq<char>>,
    i: int,
)
    requires
        0 <= i < source.entry_count(),
        !any_glob_matches(pats, source.epath(i)),
    ensures
        partial(m, source, tgt, pats, i + 1) == partial(m, source, tgt, pats, i),
{
    assert forall|q: Seq<Seq<char>>| #[trigger] pfile(source, tgt, pats, i + 1, q) implies pfile(
        source,
        tgt,
        pats,
        i,
        q,
    ) by {
        let j = choose|j: int|
            0 <= j < i + 1 && #[trigger] source.epath(j) == q.skip(tgt.len() as int)
                && any_glob_matches(pats, source.epath(j)) && source.enode(j) is File;
        assert(j != i);
        assert(0 <= j < i && source.epath(j) == q.skip(tgt.len() as int) && any_glob_matches(
            pats,
            source.epath(j),
        ) && source.enode(j) is File);
    }
    assert forall|q: Seq<Seq<char>>| #[trigger] pdir(source, tgt, pats, i + 1, q) implies pdir(
        source,
        tgt,
        pats,
        i,
        q,
    ) by {
        let j = choose|j: int|
            0 <= j < i + 1 && any_glob_matches(pats, #[trigger] source.epath(j)) && is_path_prefix(
                q,
                tgt + source.epath(j),
            ) && (source.enode(j) is Dir || q.len() < tgt.len() + source.epath(j).len());
        assert(j != i);
        assert(0 <= j < i && any_glob_matches(pats, source.epath(j)) && is_path_prefix(
            q,
            tgt + source.epath(j),
        ) && (source.enode(j) is Dir || q.len() < tgt.len() + source.epath(j).len()));
    }
    assert forall|q: Seq<Seq<char>>| #[trigger] pfile(source, tgt, pats, i, q) implies pfile(
        source,
        tgt,
        pats,
        i + 1,
        q,
    ) by {}
    assert forall|q: Seq<Seq<char>>| #[trigger] pdir(source, tgt, pats, i, q) implies pdir(
        source,
        tgt,
        pats,
        i + 1,
        q,
    ) by {}
    assert(partial(m, source, tgt, pats, i + 1) =~= partial(m, source, tgt, pats, i));
}

/// Placing a selected directory entry adds exactly its directory chain.
proof fn lemma_step_dir(
    m: Map<Seq<Seq<char>>, FsNodeView>,
    source: FsTree,
    tgt: Seq<Seq<char>>,
    pats: Seq<Seq<char>>,
    i: int,
)
    requires
        source.wf(),
        0 <= i < source.entry_count(),
        any_glob_matches(pats, source.epath(i)),
        source.enode(i) is Dir,
    ensures
        partial(m, source, tgt, pats, i + 1) == with_dirs(
            partial(m, source, tgt, pats, i),
            tgt + source.epath(i),
        ),
    decreases 0int,
{
    source.lemma_entries();
    let p = source.epath(i);
    let full = tgt + p;
    let pi = partial(m, source, tgt, pats, i);
    let pi1 = partial(m, source, tgt, pats, i + 1);
    let wd = with_dirs(pi, full);
    assert forall|q: Seq<Seq<char>>| #[trigger] pfile(source, tgt, pats, i + 1, q) implies pfile(
        source,
        tgt,
        pats,
        i,
        q,
    ) by {
        let j = choose|j: int|
            0 <= j < i + 1 && #[trigger] source.epath(j) == q.skip(tgt.len() as int)
                && any_glob_matches(pats, source.epath(j)) && source.enode(j) is File;
        assert(j != i);
        assert(0 <= j < i && source.epath(j) == q.skip(tgt.len() as int) && any_glob_matches(
            pats,
            source.epath(j),
        ) && source.enode(j) is File);
    }
    assert forall|q: Seq<Seq<char>>| #[trigger] pfile(source, tgt, pats, i, q) implies pfile(
        source,
        tgt,
        pats,
        i + 1,
        q,
    ) by {}
    // domains agree
    assert forall|q: Seq<Seq<char>>| #[trigger] pi1.contains_key(q) implies wd.contains_key(
        q,
    ) by {
        if !m.contains_key(q) && !pfile(source, tgt, pats, i, q) {
            assert(pdir(source, tgt, pats, i + 1, q));
            let j = choose|j: int|
                0 <= j < i + 1 && any_glob_matches(pats, #[trigger] source.epath(j))
                    && is_path_prefix(q, tgt + source.epath(j)) && (source.enode(j) is Dir
                    || q.len() < tgt.len() + source.epath(j).len());
            if j < i {
                assert(pdir(source, tgt, pats, i, q));
                assert(pi.contains_key(q));
            } else {
                assert(is_path_prefix(q, full));
            }
        }
    }
    assert forall|q: Seq<Seq<char>>| #[trigger] wd.contains_key(q) implies pi1.contains_key(
        q,
    ) by {
        if pi.contains_key(q) {
            if !m.contains_key(q) && !pfile(source, tgt, pats, i, q) {
                assert(pdir(source, tgt, pats, i, q));
                let j = choose|j: int|
                    0 <= j < i && any_glob_matches(pats, #[trigger] source.epath(j))
                        && is_path_prefix(q, tgt + source.epath(j)) && (source.enode(j) is Dir
                        || q.len() < tgt.len() + source.epath(j).len());
                assert(pdir(source, tgt, pats, i + 1, q));
            }
        } else {
            assert(1 <= q.len() && is_path_prefix(q, full));
            assert(0 <= i < i + 1 && any_glob_matches(pats, source.epath(i)) && is_path_prefix(
                q,
                tgt + source.epath(i),
            ) && (source.enode(i) is Dir || q.len() < tgt.len() + source.epath(i).len()));
            assert(pdir(source, tgt, pats, i + 1, q));
        }
    }
    // values agree
    assert forall|q: Seq<Seq<char>>| pi1.contains_key(q) && wd.contains_key(q) implies pi1[q]
        == wd[q] by {
        if pfile(source, tgt, pats, i, q) {
            assert(pi.contains_key(q));
            assert(pi[q] == FsNodeView::File(source@[q.skip(tgt.len() as int)]->File_0));
        } else if m.contains_key(q) {
            assert(pi.contains_key(q));
            assert(pi[q] == m[q]);
        } else {
            if pi.contains_key(q) {
                assert(pi[q] == FsNodeView::Dir);
            }
        }
    }
    assert(pi1 =~= wd);
}

/// Placing a selected file entry writes its bytes under the target and adds
/// exactly the parent chain.
proof fn lemma_step_file(
    m: Map<Seq<Seq<char>>, FsNodeView>,
    source: FsTree,
    tgt: Seq<Seq<char>>,
    pats: Seq<Seq<char>>,
    i: int,
)
    requires
        source.wf(),
        0 <= i < source.entry_count(),
        any_glob_matches(pats, source.epath(i)),
        source.enode(i) is File,
    ensures
        partial(m, source, tgt, pats, i + 1) == file_written(
            partial(m, source, tgt, pats, i),
            tgt + source.epath(i),
            source.enode(i)->File_0,
        ),
{
    source.lemma_entries();
    let p = source.epath(i);
    let full = tgt + p;
    let pi = partial(m, source, tgt, pats, i);
    let pi1 = partial(m, source, tgt, pats, i + 1);
    let fw = file_written(pi, full, source.enode(i)->File_0);
    let par = crate::tree::parent_of(full);
    assert(p.len() >= 1);
    assert(full.len() >= 1);
    assert(par == full.take(full.len() - 1));
    lemma_concat_parts(tgt, p);
    // a new copied file appears exactly at the entry's target location
    assert forall|q: Seq<Seq<char>>| #[trigger] pfile(source, tgt, pats, i + 1, q) implies (pfile(
        source,
        tgt,
        pats,
        i,
        q,
    ) || q == full) by {
        let j = choose|j: int|
            0 <= j < i + 1 && #[trigger] source.epath(j) == q.skip(tgt.len() as int)
                && any_glob_matches(pats, source.epath(j)) && source.enode(j) is File;
        if j == i {
            lemma_take_skip_parts(q, tgt.len() as int);
            assert(q == q.take(tgt.len() as int) + q.skip(tgt.len() as int));
            assert(q == tgt + p);
        } else {
            assert(0 <= j < i && source.epath(j) == q.skip(tgt.len() as int) && any_glob_matches(
                pats,
                source.epath(j),
            ) && source.enode(j) is File);
        }
    }
    assert forall|q: Seq<Seq<char>>| #[trigger] pfile(source, tgt, pats, i, q) implies pfile(
        source,
        tgt,
        pats,
        i + 1,
        q,
    ) by {}
    assert(pfile(source, tgt, pats, i + 1, full)) by {
        assert(full.take(tgt.len() as int) == tgt);
        assert(full.skip(tgt.len() as int) == p);
        assert(0 <= i < i + 1 && source.epath(i) == full.skip(tgt.len() as int)
            && any_glob_matches(pats, source.epath(i)) && source.enode(i) is File);
    }
    // prefixes of the parent chain are exactly the proper prefixes
    assert forall|q: Seq<Seq<char>>|
        1 <= q.len() && is_path_prefix(q, par) implies is_path_prefix(q, full) && q.len()
        < full.len() by {
        crate::tree::lemma_take_take(full, full.len() - 1, q.len() as int);
        assert(q == full.take(q.len() as int));
    }
    assert forall|q: Seq<Seq<char>>|
        1 <= q.len() && is_path_prefix(q, full) && q.len() < full.len() implies is_path_prefix(
        q,
        par,
    ) by {
        crate::tree::lemma_take_take(full, full.len() - 1, q.len() as int);
        assert(par.take(q.len() as int) == full.take(q.len() as int));
    }
    // domains agree
    assert forall|q: Seq<Seq<char>>| #[trigger] pi1.contains_key(q) implies fw.contains_key(
        q,
    ) by {
        if q == full {
        } else if !m.contains_key(q) && !pfile(source, tgt, pats, i, q) {
            if pdir(source, tgt, pats, i + 1, q) {
                let j = choose|j: int|
                    0 <= j < i + 1 && any_glob_matches(pats, #[trigger] source.epath(j))
                        && is_path_prefix(q, tgt + source.epath(j)) && (source.enode(j) is Dir
                        || q.len() < tgt.len() + source.epath(j).len());
                if j < i {
                    assert(pdir(source, tgt, pats, i, q));
                    assert(pi.contains_key(q));
                    assert(with_dirs(pi, par).contains_key(q));
                } else {
                    assert(q.len() < full.len());
                    assert(is_path_prefix(q, par));
                    assert(with_dirs(pi, par).contains_key(q));
                }
            } else {
                assert(pfile(source, tgt, pats, i + 1, q));
                assert(q == full);
            }
        } else {
            assert(pi.contains_key(q));
            assert(with_dirs(pi, par).contains_key(q));
        }
    }
    assert forall|q: Seq<Seq<char>>| #[trigger] fw.contains_key(q) implies pi1.contains_key(
        q,
    ) by {
        if q == full {
            assert(pfile(source, tgt, pats, i + 1, full));
        } else if pi.contains_key(q) {
            if !m.contains_key(q) && !pfile(source, tgt, pats, i, q) {
                assert(pdir(source, tgt, pats, i, q));
                let j = choose|j: int|
                    0 <= j < i && any_glob_matches(pats, #[trigger] source.epath(j))
                        && is_path_prefix(q, tgt + source.epath(j)) && (source.enode(j) is Dir
                        || q.len() < tgt.len() + source.epath(j).len());
                assert(pdir(source, tgt, pats, i + 1, q));
            }
        } else {
            assert(1 <= q.len() && is_path_prefix(q, par));
            assert(is_path_prefix(q, full) && q.len() < full.len());
            assert(0 <= i < i + 1 && any_glob_matches(pats, source.epath(i)) && is_path_prefix(
                q,
                tgt + source.epath(i),
            ) && (source.enode(i) is Dir || q.len() < tgt.len() + source.epath(i).len()));
            assert(pdir(source, tgt, pats, i + 1, q));
        }
    }
    // values agree
    assert forall|q: Seq<Seq<char>>| pi1.contains_key(q) && fw.contains_key(q) implies pi1[q]
        == fw[q] by {
        if q == full {
            assert(source@[p] == source.enode(i));
            assert(pi1[q] == FsNodeView::File(source.enode(i)->File_0));
            assert(fw[q] == FsNodeView::File(source.enode(i)->File_0));
        } else if pfile(source, tgt, pats, i, q) {
            assert(pi.contains_key(q));
            assert(pi[q] == FsNodeView::File(source@[q.skip(tgt.len() as int)]->File_0));
            assert(pfile(source, tgt, pats, i + 1, q));
        } else if m.contains_key(q) {
            assert(!pfile(source, tgt, pats, i + 1, q));
            assert(pi.contains_key(q));
            assert(pi[q] == m[q]);
        } else {
            assert(!pfile(source, tgt, pats, i + 1, q));
            assert(pi1[q] == FsNodeView::Dir);
            if pi.contains_key(q) {
                assert(pi[q] == FsNodeView::Dir);
            }
        }
    }
    assert(pi1 =~= fw);
}

/// After the last entry the partially copied target is the declared result.
proof fn lemma_partial_full(
    m: Map<Seq<Seq<char>>, FsNodeView>,
    source: FsTree,
    tgt: Seq<Seq<char>>,
    pats: Seq<Seq<char>>,
)
    requires
        source.wf(),
    ensures
        partial(m, source, tgt, pats, source.entry_count() as int) == copy_result(
            m,
            source@,
            tgt,
            pats,
        ),
{
    source.lemma_entries();
    let n = source.entry_count() as int;
    assert forall|q: Seq<Seq<char>>| #[trigger] pfile(source, tgt, pats, n, q) implies
        copied_file_at(source@, tgt, pats, q) by {
        let j = choose|j: int|
            0 <= j < n && #[trigger] source.epath(j) == q.skip(tgt.len() as int)
                && any_glob_matches(pats, source.epath(j)) && source.enode(j) is File;
        assert(source@.contains_key(source.epath(j)) && source@[source.epath(j)] == source.enode(
            j,
        ));
    }
    assert forall|q: Seq<Seq<char>>| #[trigger] copied_file_at(source@, tgt, pats, q) implies
        pfile(source, tgt, pats, n, q) by {
        let p = q.skip(tgt.len() as int);
        assert(source@.contains_key(p));
        let j = choose|j: int| 0 <= j < source.entry_count() && source.epath(j) == p;
        assert(source@[p] == source.enode(j));
        assert(0 <= j < n && source.epath(j) == q.skip(tgt.len() as int) && any_glob_matches(
            pats,
            source.epath(j),
        ) && source.enode(j) is File);
    }
    assert forall|q: Seq<Seq<char>>| #[trigger] pdir(source, tgt, pats, n, q) implies
        copied_dir_at(source@, tgt, pats, q) by {
        let j = choose|j: int|
            0 <= j < n && any_glob_matches(pats, #[trigger] source.epath(j)) && is_path_prefix(
                q,
                tgt + source.epath(j),
            ) && (source.enode(j) is Dir || q.len() < tgt.len() + source.epath(j).len());
        let p = source.epath(j);
        assert(source@.contains_key(p) && source@[p] == source.enode(j));
        assert(source@.contains_key(p) && any_glob_matches(pats, p) && is_path_prefix(q, tgt + p)
            && (source@[p] is Dir || q.len() < tgt.len() + p.len()));
    }
    assert forall|q: Seq<Seq<char>>| #[trigger] copied_dir_at(source@, tgt, pats, q) implies pdir(
        source,
        tgt,
        pats,
        n,
        q,
    ) by {
        let p = choose|p: Seq<Seq<char>>|
            #[trigger] source@.contains_key(p) && any_glob_matches(pats, p) && is_path_prefix(
                q,
                tgt + p,
            ) && (source@[p] is Dir || q.len() < tgt.len() + p.len());
        let j = choose|j: int| 0 <= j < source.entry_count() && source.epath(j) == p;
        assert(source@[p] == source.enode(j));
        assert(0 <= j < n && any_glob_matches(pats, source.epath(j)) && is_path_prefix(
            q,
            tgt + source.epath(j),
        ) && (source.enode(j) is Dir || q.len() < tgt.len() + source.epath(j).len()));
    }
    assert(partial(m, source, tgt, pats, n) =~= copy_result(m, source@, tgt, pats));
}

/// Copies every entry of `source` selected by `patterns` into `fs` under
/// `target`, preserving relative structure: a selected directory is created,
/// a selected file's bytes are placed (parents materialized, an existing
/// file overwritten).  Succeeds exactly when every selected entry can be
/// placed; the first failing entry aborts the copy, and what was already
/// copied stays.  An empty pattern list selects nothing: the tree is
/// returned unchanged.
pub fn copy_files(
    fs: &mut FsTree,
    target: &ChildPath,
    source: &FsTree,
    patterns: &[String],
) -> (r: Result<(), FixtureError>)
    requires
        old(fs).wf(),
        source.wf(),
    ensures
        final(fs).wf(),
        r is Ok <==> copy_ok(old(fs)@, source@, target@, views_of(patterns@)),
        r is Ok ==> final(fs)@ == copy_result(old(fs)@, source@, target@, views_of(patterns@)),
        r is Err ==> (r->Err_0.kind == FixtureKind::CreateDir || r->Err_0.kind
            == FixtureKind::CopyFile),
        patterns@.len() == 0 ==> r is Ok && final(fs)@ == old(fs)@,
{
    let ghost m = old(fs)@;
    let ghost srct = *source;
    let ghost tgt = target@;
    let ghost pats = views_of(patterns@);
    proof {
        srct.lemma_entries();
        lemma_partial_zero(m, srct, tgt, pats);
    }
    let n = source.entry_len();
    let mut i: usize = 0;
    while i < n
        invariant
            fs.wf(),
            source.wf(),
            *source == srct,
            n == srct.entry_count(),
            0 <= i <= n,
            m == old(fs)@,
            tgt == target@,
            pats == views_of(patterns@),
            fs@ == partial(m, srct, tgt, pats, i as int),
            forall|j: int|
                0 <= j < i ==> (any_glob_matches(pats, #[trigger] srct.epath(j))
                    ==> entry_placeable(m, tgt, srct.epath(j), srct.enode(j))),
        decreases n - i,
    {
        let rel = source.entry_path(i);
        let ghost p = srct.epath(i as int);
        if crate::glob::matches_any(patterns, rel) {
            let full = target.concat(rel);
            proof {
                srct.lemma_entries();
                assert(srct@.contains_key(p) && srct@[p] == srct.enode(i as int));
                assert forall|j: int| 0 <= j < i as int implies srct.epath(j) != p by {}
                lemma_placeable_stable(m, srct, tgt, pats, i as int, p);
            }
            let node_is_dir = source.entry_node(i).is_dir();
            if node_is_dir {
                match create_dir_all(fs, &full) {
                    Ok(_) => {
                        proof {
                            lemma_step_dir(m, srct, tgt, pats, i as int);
                        }
                    },
                    Err(e) => {
                        proof {
                            assert(!dir_chain_ok(partial(m, srct, tgt, pats, i as int), full@));
                            assert(!entry_placeable(m, tgt, p, srct@[p]));
                            assert(!copy_ok(m, srct@, tgt, pats)) by {
                                if copy_ok(m, srct@, tgt, pats) {
                                    assert(srct@.contains_key(p) && any_glob_matches(pats, p));
                                    assert(entry_placeable(m, tgt, p, srct@[p]));
                                }
                            }
                        }
                        return Err(e);
                    },
                }
            } else {
                proof {
                    crate::tree::lemma_node_cases(srct.enode(i as int));
                }
                let node = source.entry_node(i);
                let res = match node.file_bytes() {
                    Some(b) => copy_bytes(fs, &full, b.as_slice()),
                    None => vstd::pervasive::unreached(),
                };
                match res {
                    Ok(_) => {
                        proof {
                            lemma_step_file(m, srct, tgt, pats, i as int);
                        }
                    },
                    Err(e) => {
                        proof {
                            assert(!file_write_ok(partial(m, srct, tgt, pats, i as int), full@));
                            assert(!entry_placeable(m, tgt, p, srct@[p]));
                            assert(!copy_ok(m, srct@, tgt, pats)) by {
                                if copy_ok(m, srct@, tgt, pats) {
                                    assert(srct@.contains_key(p) && any_glob_matches(pats, p));
                                    assert(entry_placeable(m, tgt, p, srct@[p]));
                                }
                            }
                        }
                        return Err(e);
                    },
                }
            }
        } else {
            proof {
                lemma_step_skip(m, srct, tgt, pats, i as int);
            }
        }
        i += 1;
    }
    proof {
        lemma_partial_full(m, srct, tgt, pats);
        assert(copy_ok(m, srct@, tgt, pats)) by {
            assert forall|q: Seq<Seq<char>>|
                #[trigger] srct@.contains_key(q) && any_glob_matches(pats, q) implies
                entry_placeable(m, tgt, q, srct@[q]) by {
                let j = choose|j: int| 0 <= j < srct.entry_count() && srct.epath(j) == q;
                assert(srct@[q] == srct.enode(j));
            }
        }
        if pats.len() == 0 {
            assert forall|q: Seq<Seq<char>>| !copied_file_at(srct@, tgt, pats, q) && !copied_dir_at(
                srct@,
                tgt,
                pats,
                q,
            ) by {
                assert(forall|p2: Seq<Seq<char>>| !any_glob_matches(pats, p2));
            }
            assert(copy_result(m, srct@, tgt, pats) =~= m);
        }
    }
    Ok(())
}

} // verus!
