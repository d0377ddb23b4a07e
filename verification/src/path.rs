//! Relative paths inside a fixture tree: a sequence of components.
//!
//! A `ChildPath` designates a location under a scratch root.  Its view is the
//! sequence of component names, each a sequence of characters.  Building a
//! `ChildPath` from a string splits on `/` and drops empty components, so
//! `"a//b/"` and `"a/b"` designate the same location.

use vstd::prelude::*;
use vstd::string::StrSliceExecFns;

verus! {

/// The views of a sequence of strings.
pub open spec fn views_of(ss: Seq<String>) -> Seq<Seq<char>> {
    Seq::new(ss.len(), |i: int| ss[i]@)
}

/// A vector of strings views deeply to the views of its elements.
pub proof fn lemma_views_of(v: &Vec<String>)
    ensures
        v.deep_view() == views_of(v@),
{
    assert(v.deep_view() =~= views_of(v@));
}

pub proof fn lemma_views_of_push(ss: Seq<String>, x: String)
    ensures
        views_of(ss.push(x)) == views_of(ss).push(x@),
{
    assert(views_of(ss.push(x)) =~= views_of(ss).push(x@));
}

pub proof fn lemma_views_of_take(ss: Seq<String>, k: int)
    requires
        0 <= k <= ss.len(),
    ensures
        views_of(ss.take(k)) == views_of(ss).take(k),
{
    assert(views_of(ss.take(k)) =~= views_of(ss).take(k));
}

pub proof fn lemma_views_of_add(a: Seq<String>, b: Seq<String>)
    ensures
        views_of(a + b) == views_of(a) + views_of(b),
{
    assert(views_of(a + b) =~= views_of(a) + views_of(b));
}

/// Splits the remaining characters `s` into components, `cur` being the
/// partial component read so far.
pub open spec fn split_acc(s: Seq<char>, cur: Seq<char>) -> Seq<Seq<char>>
    decreases s.len(),
{
    if s.len() == 0 {
        if cur.len() == 0 {
            Seq::empty()
        } else {
            seq![cur]
        }
    } else if s[0] == '/' {
        if cur.len() == 0 {
            split_acc(s.skip(1), Seq::empty())
        } else {
            seq![cur] + split_acc(s.skip(1), Seq::empty())
        }
    } else {
        split_acc(s.skip(1), cur.push(s[0]))
    }
}

/// The components of a path string: split on `/`, empty components dropped.
pub open spec fn split_slash(s: Seq<char>) -> Seq<Seq<char>> {
    split_acc(s, Seq::empty())
}

/// The characters of `s` as a vector.
pub fn chars_of(s: &str) -> (r: Vec<char>)
    ensures
        r@ == s@,
{
    let n: usize = s.unicode_len();
    let mut r: Vec<char> = Vec::new();
    let mut i: usize = 0;
    while i < n
        invariant
            0 <= i <= n,
            n == s@.len(),
            r@ == s@.take(i as int),
        decreases n - i,
    {
        r.push(s.get_char(i));
        proof {
            assert(r@ =~= s@.take(i + 1 as int));
        }
        i += 1;
    }
    proof {
        assert(r@ =~= s@);
    }
    r
}

/// Splits a path string into its components.
pub fn split_path(s: &str) -> (r: Vec<String>)
    ensures
        r.deep_view() == split_slash(s@),
{
    let n: usize = s.unicode_len();
    let mut r: Vec<String> = Vec::new();
    let mut start: usize = 0;
    let mut i: usize = 0;
    proof {
        assert(s@.skip(0) =~= s@);
        assert(s@.subrange(0, 0) =~= Seq::<char>::empty());
        assert(views_of(r@) =~= Seq::<Seq<char>>::empty());
        assert(views_of(r@) + split_acc(s@, Seq::empty()) =~= split_slash(s@));
    }
    while i < n
        invariant
            0 <= start <= i <= n,
            n == s@.len(),
            forall|j: int| start <= j < i ==> s@[j] != '/',
            split_slash(s@) == views_of(r@) + split_acc(
                s@.skip(i as int),
                s@.subrange(start as int, i as int),
            ),
        decreases n - i,
    {
        let c = s.get_char(i);
        if c == '/' {
            let ghost cur = s@.subrange(start as int, i as int);
            let ghost pre = r@;
            if i > start {
                let seg = s.substring_char(start, i);
                let owned = seg.to_owned();
                r.push(owned);
                proof {
                    lemma_views_of_push(pre, owned);
                    assert(views_of(r@) =~= views_of(pre) + seq![cur]);
                }
            }
            proof {
                assert(s@.skip(i as int)[0] == '/');
                assert(s@.skip(i as int).skip(1) =~= s@.skip(i + 1 as int));
                assert(s@.subrange(i + 1 as int, i + 1 as int) =~= Seq::<char>::empty());
                if cur.len() == 0 {
                    assert(split_acc(s@.skip(i as int), cur) == split_acc(
                        s@.skip(i + 1 as int),
                        Seq::empty(),
                    ));
                } else {
                    assert(split_acc(s@.skip(i as int), cur) == seq![cur] + split_acc(
                        s@.skip(i + 1 as int),
                        Seq::empty(),
                    ));
                    assert(views_of(pre) + (seq![cur] + split_acc(
                        s@.skip(i + 1 as int),
                        Seq::empty(),
                    )) =~= (views_of(pre) + seq![cur]) + split_acc(
                        s@.skip(i + 1 as int),
                        Seq::empty(),
                    ));
                }
            }
            i += 1;
            start = i;
        } else {
            let ghost cur = s@.subrange(start as int, i as int);
            proof {
                assert(s@.skip(i as int)[0] == c);
                assert(s@.skip(i as int).skip(1) =~= s@.skip(i + 1 as int));
                assert(cur.push(c) =~= s@.subrange(start as int, i + 1 as int));
                assert(split_acc(s@.skip(i as int), cur) == split_acc(
                    s@.skip(i + 1 as int),
                    cur.push(c),
                ));
            }
            i += 1;
        }
    }
    let ghost cur = s@.subrange(start as int, n as int);
    proof {
        assert(s@.skip(n as int) =~= Seq::<char>::empty());
    }
    if i > start {
        let seg = s.substring_char(start, i);
        let owned = seg.to_owned();
        let ghost pre = r@;
        r.push(owned);
        proof {
            lemma_views_of_push(pre, owned);
            assert(split_acc(Seq::empty(), cur) == seq![cur]);
            assert(views_of(r@) =~= views_of(pre) + seq![cur]);
        }
    }
    proof {
        lemma_views_of(&r);
        assert(views_of(r@) =~= split_slash(s@));
    }
    r
}

/// A location under a scratch root: an owned relative path.
pub struct ChildPath {
    parts: Vec<String>,
}

impl View for ChildPath {
    type V = Seq<Seq<char>>;

    closed spec fn view(&self) -> Seq<Seq<char>> {
        views_of(self.parts@)
    }
}

impl ChildPath {
    /// The scratch root itself.
    pub fn root() -> (r: ChildPath)
        ensures
            r@ == Seq::<Seq<char>>::empty(),
    {
        let parts: Vec<String> = Vec::new();
        proof {
            assert(views_of(parts@) =~= Seq::<Seq<char>>::empty());
        }
        ChildPath { parts }
    }

    /// The location `rel` (a `/`-separated relative path) under `self`.
    pub fn child(&self, rel: &str) -> (r: ChildPath)
        ensures
            r@ == self@ + split_slash(rel@),
    {
        let mut parts = self.clone_parts();
        let mut segs = split_path(rel);
        let ghost head = parts@;
        let ghost tail = segs@;
        proof {
            lemma_views_of(&segs);
        }
        parts.append(&mut segs);
        proof {
            assert(parts@ =~= head + tail);
            lemma_views_of_add(head, tail);
        }
        ChildPath { parts }
    }

    /// The components of this path.
    pub fn parts(&self) -> (r: &Vec<String>)
        ensures
            r.deep_view() == self@,
    {
        proof {
            lemma_views_of(&self.parts);
        }
        &self.parts
    }

    /// How many components this path has.
    pub fn depth(&self) -> (n: usize)
        ensures
            n == self@.len(),
    {
        self.parts.len()
    }

    /// The path made of the first `k` components of this one.
    pub fn prefix(&self, k: usize) -> (r: ChildPath)
        requires
            k <= self@.len(),
        ensures
            r@ == self@.take(k as int),
    {
        let mut parts: Vec<String> = Vec::new();
        let mut i: usize = 0;
        while i < k
            invariant
                0 <= i <= k <= self.parts@.len(),
                parts@ =~= self.parts@.take(i as int),
            decreases k - i,
        {
            let item = self.parts[i].clone();
            parts.push(item);
            proof {
                assert(parts@ =~= self.parts@.take(i + 1 as int));
            }
            i += 1;
        }
        proof {
            lemma_views_of_take(self.parts@, k as int);
        }
        ChildPath { parts }
    }

    /// The parent location; the root is its own parent.
    pub fn parent(&self) -> (r: ChildPath)
        ensures
            self@.len() == 0 ==> r@ == self@,
            self@.len() >= 1 ==> r@ == self@.take(self@.len() - 1),
    {
        let n = self.parts.len();
        if n == 0 {
            proof {
                assert(self@.take(0) =~= self@);
            }
            self.prefix(0)
        } else {
            self.prefix(n - 1)
        }
    }

    /// The concatenation of `self` and `other`.
    pub fn concat(&self, other: &ChildPath) -> (r: ChildPath)
        ensures
            r@ == self@ + other@,
    {
        let mut parts = self.clone_parts();
        let mut tail = other.clone_parts();
        let ghost head_parts = parts@;
        let ghost tail_parts = tail@;
        parts.append(&mut tail);
        proof {
            assert(parts@ =~= head_parts + tail_parts);
            lemma_views_of_add(head_parts, tail_parts);
        }
        ChildPath { parts }
    }

    /// An owned copy of this path.
    pub fn duplicate(&self) -> (r: ChildPath)
        ensures
            r@ == self@,
    {
        ChildPath { parts: self.clone_parts() }
    }

    fn clone_parts(&self) -> (r: Vec<String>)
        ensures
            r@ == self.parts@,
            views_of(r@) == self@,
    {
        let mut parts: Vec<String> = Vec::new();
        let n = self.parts.len();
        let mut i: usize = 0;
        while i < n
            invariant
                0 <= i <= n,
                n == self.parts@.len(),
                parts@ =~= self.parts@.take(i as int),
            decreases n - i,
        {
            let item = self.parts[i].clone();
            parts.push(item);
            proof {
                assert(parts@ =~= self.parts@.take(i + 1 as int));
            }
            i += 1;
        }
        proof {
            assert(parts@ =~= self.parts@);
        }
        parts
    }

    /// Whether `self` and `other` designate the same location.
    pub fn same_as(&self, other: &ChildPath) -> (r: bool)
        ensures
            r == (self@ == other@),
    {
        let n = self.parts.len();
        if n != other.parts.len() {
            proof {
                assert(self@.len() != other@.len());
            }
            return false;
        }
        let mut i: usize = 0;
        while i < n
            invariant
                0 <= i <= n,
                n == self.parts@.len(),
                n == other.parts@.len(),
                forall|j: int| 0 <= j < i ==> self@[j] == other@[j],
            decreases n - i,
        {
            if !(self.parts[i] == other.parts[i]) {
                proof {
                    assert(self@[i as int] != other@[i as int]);
                }
                return false;
            }
            i += 1;
        }
        proof {
            assert(self@ =~~= other@);
        }
        true
    }
}

} // verus!
