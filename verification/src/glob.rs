//! Shell-style glob matching over relative paths.
//!
//! Within one component, `*` matches any run of characters and `?` exactly
//! one.  A pattern containing a separator is matched component-wise against
//! the whole relative path, with `**` spanning any number of components; a
//! pattern without a separator selects by final component name at any depth.

use vstd::prelude::*;

use crate::path::{chars_of, split_path, split_slash, views_of, ChildPath};

verus! {

/// One pattern segment matches one path component.
pub open spec fn seg_match(pat: Seq<char>, s: Seq<char>) -> bool
    decreases pat.len() + s.len(),
{
    if pat.len() == 0 {
        s.len() == 0
    } else if pat[0] == '*' {
        seg_match(pat.skip(1), s) || (s.len() > 0 && seg_match(pat, s.skip(1)))
    } else {
        s.len() > 0 && (pat[0] == '?' || pat[0] == s[0]) && seg_match(pat.skip(1), s.skip(1))
    }
}

/// Pattern components match path components; `**` spans any depth.
pub open spec fn comps_match(pats: Seq<Seq<char>>, comps: Seq<Seq<char>>) -> bool
    decreases pats.len() + comps.len(),
{
    if pats.len() == 0 {
        comps.len() == 0
    } else if pats[0] == seq!['*', '*'] {
        comps_match(pats.skip(1), comps) || (comps.len() > 0 && comps_match(pats, comps.skip(1)))
    } else {
        comps.len() > 0 && seg_match(pats[0], comps[0]) && comps_match(
            pats.skip(1),
            comps.skip(1),
        )
    }
}

/// Whether the glob `pat` selects the relative path `rel`.
pub open spec fn glob_matches(pat: Seq<char>, rel: Seq<Seq<char>>) -> bool {
    if pat.contains('/') {
        comps_match(split_slash(pat), rel)
    } else {
        rel.len() >= 1 && seg_match(pat, rel.last())
    }
}

/// Whether any pattern of `pats` selects `rel`.
pub open spec fn any_glob_matches(pats: Seq<Seq<char>>, rel: Seq<Seq<char>>) -> bool {
    exists|i: int| 0 <= i < pats.len() && glob_matches(pats[i], rel)
}

/// The views of a sequence of character vectors.
pub open spec fn char_views(ss: Seq<Vec<char>>) -> Seq<Seq<char>> {
    Seq::new(ss.len(), |i: int| ss[i]@)
}

fn seg_match_at(pat: &Vec<char>, pi: usize, s: &Vec<char>, si: usize) -> (r: bool)
    requires
        pi <= pat@.len(),
        si <= s@.len(),
    ensures
        r == seg_match(pat@.skip(pi as int), s@.skip(si as int)),
    decreases pat@.len() - pi + s@.len() - si,
{
    let ghost sp = pat@.skip(pi as int);
    let ghost ss = s@.skip(si as int);
    if pi == pat.len() {
        return si == s.len();
    }
    let c = pat[pi];
    proof {
        assert(sp[0] == pat@[pi as int]);
        assert(sp.skip(1) =~= pat@.skip(pi + 1 as int));
        if si < s@.len() {
            assert(ss[0] == s@[si as int]);
            assert(ss.skip(1) =~= s@.skip(si + 1 as int));
        }
    }
    if c == '*' {
        if seg_match_at(pat, pi + 1, s, si) {
            return true;
        }
        if si < s.len() {
            return seg_match_at(pat, pi, s, si + 1);
        }
        false
    } else {
        if si == s.len() {
            return false;
        }
        if c != '?' && c != s[si] {
            return false;
        }
        seg_match_at(pat, pi + 1, s, si + 1)
    }
}

fn is_globstar(seg: &Vec<char>) -> (r: bool)
    ensures
        r == (seg@ == seq!['*', '*']),
{
    if seg.len() != 2 {
        proof {
            assert(seg@.len() != 2);
        }
        return false;
    }
    let r = seg[0] == '*' && seg[1] == '*';
    proof {
        if r {
            assert(seg@ =~= seq!['*', '*']);
        } else {
            assert(seg@ != seq!['*', '*']) by {
                if seg@ == seq!['*', '*'] {
                    assert(seg@[0] == '*' && seg@[1] == '*');
                }
            }
        }
    }
    r
}

fn comps_match_at(pats: &Vec<Vec<char>>, pi: usize, comps: &Vec<Vec<char>>, ci: usize) -> (r: bool)
    requires
        pi <= pats@.len(),
        ci <= comps@.len(),
    ensures
        r == comps_match(char_views(pats@).skip(pi as int), char_views(comps@).skip(ci as int)),
    decreases pats@.len() - pi + comps@.len() - ci,
{
    let ghost sp = char_views(pats@).skip(pi as int);
    let ghost sc = char_views(comps@).skip(ci as int);
    if pi == pats.len() {
        proof {
            assert(sp.len() == 0);
            assert(sc.len() == comps@.len() - ci);
        }
        return ci == comps.len();
    }
    proof {
        assert(sp[0] == pats@[pi as int]@);
        assert(sp.skip(1) =~= char_views(pats@).skip(pi + 1 as int));
        if ci < comps@.len() {
            assert(sc[0] == comps@[ci as int]@);
            assert(sc.skip(1) =~= char_views(comps@).skip(ci + 1 as int));
        }
    }
    if is_globstar(&pats[pi]) {
        if comps_match_at(pats, pi + 1, comps, ci) {
            return true;
        }
        if ci < comps.len() {
            return comps_match_at(pats, pi, comps, ci + 1);
        }
        false
    } else {
        if ci == comps.len() {
            return false;
        }
        if !seg_match_at(&pats[pi], 0, &comps[ci], 0) {
            proof {
                assert(pats@[pi as int]@.skip(0) =~= pats@[pi as int]@);
                assert(comps@[ci as int]@.skip(0) =~= comps@[ci as int]@);
            }
            return false;
        }
        proof {
            assert(pats@[pi as int]@.skip(0) =~= pats@[pi as int]@);
            assert(comps@[ci as int]@.skip(0) =~= comps@[ci as int]@);
        }
        comps_match_at(pats, pi + 1, comps, ci + 1)
    }
}

/// The characters of each string, as vectors.
fn comps_of(parts: &Vec<String>) -> (r: Vec<Vec<char>>)
    ensures
        char_views(r@) == views_of(parts@),
{
    let n = parts.len();
    let mut r: Vec<Vec<char>> = Vec::new();
    let mut i: usize = 0;
    while i < n
        invariant
            0 <= i <= n,
            n == parts@.len(),
            char_views(r@) =~= views_of(parts@).take(i as int),
        decreases n - i,
    {
        let cs = chars_of(parts[i].as_str());
        let ghost pre = r@;
        let ghost csv = cs@;
        proof {
            assert(csv == parts@[i as int]@);
            assert(char_views(pre).len() == pre.len());
            assert(pre.len() == i as int);
        }
        r.push(cs);
        proof {
            assert(r@ == pre.push(r@[i as int]));
            assert(r@[i as int]@ == csv);
            assert forall|j: int| 0 <= j < r@.len() implies char_views(r@)[j] == views_of(
                parts@,
            ).take(i + 1 as int)[j] by {
                assert(0 <= j < parts@.len());
                assert(char_views(r@)[j] == r@[j]@);
                assert(views_of(parts@)[j] == parts@[j]@);
                if j < i as int {
                    assert(r@[j] == pre[j]);
                    assert(char_views(pre)[j] == pre[j]@);
                } else {
                    assert(j == i as int);
                }
            }
            assert(char_views(r@) =~= views_of(parts@).take(i + 1 as int));
        }
        i += 1;
    }
    proof {
        assert(char_views(r@) =~= views_of(parts@));
    }
    r
}

/// Whether the glob pattern `pat` selects the relative path `rel`.
pub fn glob_match_str(pat: &str, rel: &ChildPath) -> (r: bool)
    ensures
        r == glob_matches(pat@, rel@),
{
    let pchars = chars_of(pat);
    let n = pchars.len();
    let mut has_slash = false;
    let mut i: usize = 0;
    while i < n
        invariant
            0 <= i <= n,
            n == pat@.len(),
            pchars@ == pat@,
            has_slash == exists|j: int| 0 <= j < i && pat@[j] == '/',
        decreases n - i,
    {
        if pchars[i] == '/' {
            has_slash = true;
        }
        i += 1;
    }
    proof {
        assert(has_slash == pat@.contains('/'));
    }
    if has_slash {
        let psegs = split_path(pat);
        proof {
            crate::path::lemma_views_of(&psegs);
        }
        let pcomps = comps_of(&psegs);
        let rcomps = comps_of(rel.parts());
        let r = comps_match_at(&pcomps, 0, &rcomps, 0);
        proof {
            assert(char_views(pcomps@).skip(0) =~= split_slash(pat@));
            assert(char_views(rcomps@).skip(0) =~= rel@);
        }
        r
    } else {
        let depth = rel.depth();
        if depth == 0 {
            return false;
        }
        let parts = rel.parts();
        let last = chars_of(parts[depth - 1].as_str());
        proof {
            assert(parts@[depth - 1] == parts@[depth - 1]);
            assert(last@ == rel@[depth - 1]);
            assert(rel@.last() == rel@[depth - 1]);
        }
        let r = seg_match_at(&pchars, 0, &last, 0);
        proof {
            assert(pchars@.skip(0) =~= pat@);
            assert(last@.skip(0) =~= rel@.last());
        }
        r
    }
}

/// Whether any pattern of `patterns` selects the relative path `rel`.
pub fn matches_any(patterns: &[String], rel: &ChildPath) -> (r: bool)
    ensures
        r == any_glob_matches(views_of(patterns@), rel@),
{
    let n = patterns.len();
    let mut i: usize = 0;
    while i < n
        invariant
            0 <= i <= n,
            n == patterns@.len(),
            forall|j: int| 0 <= j < i ==> !glob_matches(views_of(patterns@)[j], rel@),
        decreases n - i,
    {
        if glob_match_str(patterns[i].as_str(), rel) {
            proof {
                assert(views_of(patterns@)[i as int] == patterns@[i as int]@);
            }
            return true;
        }
        i += 1;
    }
    false
}

} // verus!
