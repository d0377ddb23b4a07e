//! General laws of the fixture model, stated and proved once for all inputs.

use vstd::prelude::*;

use crate::assertions::{content_failure_kind, file_has_bytes, file_has_text, CaseKind};
use crate::tree::{
    dir_chain_ok, file_write_ok, file_written, is_path_prefix, lemma_node_cases, lemma_take_take,
    parent_of, with_dirs, FsNodeView,
};
use vstd::utf8::{
    decode_utf8, encode_utf8, encode_utf8_decode_utf8, encode_utf8_valid_utf8, valid_utf8,
};

verus! {

/// Writing bytes `b` at a writable location leaves a file that passes the
/// literal-bytes check for `b`, and fails it for any other bytes.
pub proof fn lemma_write_bytes_round_trip(
    m: Map<Seq<Seq<char>>, FsNodeView>,
    p: Seq<Seq<char>>,
    b: Seq<u8>,
    other: Seq<u8>,
)
    requires
        file_write_ok(m, p),
    ensures
        file_has_bytes(file_written(m, p, b), p, b),
        other != b ==> !file_has_bytes(file_written(m, p, b), p, other),
{
}

/// Writing a string as text leaves a file that passes the literal-text check
/// for that same string.
pub proof fn lemma_write_text_round_trip(
    m: Map<Seq<Seq<char>>, FsNodeView>,
    p: Seq<Seq<char>>,
    s: Seq<char>,
)
    requires
        file_write_ok(m, p),
    ensures
        file_has_text(file_written(m, p, encode_utf8(s)), p, s),
{
    encode_utf8_valid_utf8(s);
    encode_utf8_decode_utf8(s);
}

/// A file whose bytes are not valid UTF-8 fails every text check, and with
/// the decode-distinguishing case, not a content mismatch.
pub proof fn lemma_invalid_utf8_distinguished(
    m: Map<Seq<Seq<char>>, FsNodeView>,
    p: Seq<Seq<char>>,
    s: Seq<char>,
)
    requires
        m.contains_key(p),
        m[p] is File,
        !valid_utf8(m[p]->File_0),
    ensures
        !file_has_text(m, p, s),
        content_failure_kind(m, p, true) == CaseKind::InvalidUtf8,
{
}

/// Touching a writable location makes it exist; and no write creates a node
/// outside the written path and its parent chain, so an untouched location
/// stays missing.
pub proof fn lemma_touch_then_exists(
    m: Map<Seq<Seq<char>>, FsNodeView>,
    p: Seq<Seq<char>>,
    b: Seq<u8>,
)
    requires
        file_write_ok(m, p),
    ensures
        file_written(m, p, b).contains_key(p),
        forall|q: Seq<Seq<char>>|
            #[trigger] file_written(m, p, b).contains_key(q) ==> m.contains_key(q) || q == p
                || is_path_prefix(q, parent_of(p)),
{
}

/// Writing at a location materializes every parent directory on its chain.
pub proof fn lemma_write_materializes_parents(
    m: Map<Seq<Seq<char>>, FsNodeView>,
    p: Seq<Seq<char>>,
    b: Seq<u8>,
    k: int,
)
    requires
        file_write_ok(m, p),
        1 <= k < p.len(),
    ensures
        file_written(m, p, b).contains_key(p.take(k)),
        file_written(m, p, b)[p.take(k)] is Dir,
{
    let par = parent_of(p);
    lemma_take_take(p, p.len() - 1, k);
    assert(p.take(k) == par.take(k));
    assert(is_path_prefix(p.take(k), par));
    assert(p.take(k).len() == k);
    assert(p.take(k) != p);
    if m.contains_key(p.take(k)) {
        assert(!(m[par.take(k)] is File));
        lemma_node_cases(m[p.take(k)]);
    }
}

/// Creating a directory chain is idempotent: a second creation finds the
/// chain already in place and changes nothing.
pub proof fn lemma_create_dir_all_idempotent(
    m: Map<Seq<Seq<char>>, FsNodeView>,
    p: Seq<Seq<char>>,
)
    requires
        dir_chain_ok(m, p),
    ensures
        dir_chain_ok(with_dirs(m, p), p),
        with_dirs(with_dirs(m, p), p) == with_dirs(m, p),
{
    let w = with_dirs(m, p);
    assert forall|k: int| 1 <= k <= p.len() implies !(w.contains_key(#[trigger] p.take(k))
        && w[p.take(k)] is File) by {
        assert(p.take(k).len() == k);
        assert(p.take(k) == p.take(p.take(k).len() as int));
        assert(is_path_prefix(p.take(k), p));
        if m.contains_key(p.take(k)) {
            assert(w[p.take(k)] == m[p.take(k)]);
        } else {
            assert(w[p.take(k)] == FsNodeView::Dir);
        }
    }
    assert(with_dirs(w, p) =~= w);
}

/// Writing the same location twice keeps only the second content.
pub proof fn lemma_write_last_wins(
    m: Map<Seq<Seq<char>>, FsNodeView>,
    p: Seq<Seq<char>>,
    b1: Seq<u8>,
    b2: Seq<u8>,
)
    requires
        file_write_ok(m, p),
    ensures
        file_write_ok(file_written(m, p, b1), p),
        file_written(file_written(m, p, b1), p, b2) == file_written(m, p, b2),
{
    let par = parent_of(p);
    let w = with_dirs(m, par);
    let m1 = file_written(m, p, b1);
    assert forall|k: int| 1 <= k <= par.len() implies !(m1.contains_key(#[trigger] par.take(k))
        && m1[par.take(k)] is File) by {
        assert(par.take(k).len() == k);
        assert(par.take(k) != p);
        lemma_take_take(p, p.len() - 1, k);
        assert(par.take(k) == p.take(k));
        assert(is_path_prefix(par.take(k), par));
        if m.contains_key(par.take(k)) {
            assert(m1[par.take(k)] == m[par.take(k)]);
        } else {
            assert(m1[par.take(k)] == FsNodeView::Dir);
        }
    }
    assert(file_write_ok(m1, p));
    assert(with_dirs(m1, par) =~= m1) by {
        assert forall|q: Seq<Seq<char>>|
            1 <= q.len() && is_path_prefix(q, par) implies m1.contains_key(q) by {
            assert(w.contains_key(q));
        }
    }
    assert(file_written(m1, p, b2) =~= m1.insert(p, FsNodeView::File(b2)));
    assert(m1.insert(p, FsNodeView::File(b2)) =~= w.insert(p, FsNodeView::File(b2)));
}

} // verus!
