use vstd::prelude::*;

use crate::error::{Error, ErrorView};
use crate::tree::{child_named, lemma_child_from, tree_wf, NodeView, Tree};

verus! {

/// The values of a sequence of strings.
pub open spec fn strs(v: Seq<String>) -> Seq<Seq<char>> {
    v.map_values(|s: String| s@)
}

/// The non-empty runs of `s` between separators `/`, reading from position
/// `i` on, where the run being read began at `start`.
pub open spec fn segments_from(s: Seq<char>, start: int, i: int) -> Seq<Seq<char>>
    decreases s.len() - i,
{
    if i < 0 || i >= s.len() {
        if 0 <= start < s.len() {
            seq![s.subrange(start, s.len() as int)]
        } else {
            Seq::empty()
        }
    } else if s[i] == '/' {
        (if 0 <= start < i {
            seq![s.subrange(start, i)]
        } else {
            Seq::empty()
        }) + segments_from(s, i + 1, i + 1)
    } else {
        segments_from(s, start, i + 1)
    }
}

/// `s` split on `/`, empty segments left out.
pub open spec fn segments(s: Seq<char>) -> Seq<Seq<char>> {
    segments_from(s, 0, 0)
}

/// The absolute path made of `segs`: each segment after a `/`.
pub open spec fn join_path(segs: Seq<Seq<char>>) -> Seq<char>
    decreases segs.len(),
{
    if segs.len() == 0 {
        Seq::empty()
    } else {
        join_path(segs.drop_last()) + "/"@ + segs.last()
    }
}

/// Walks from node `n` down the segments `segs` from position `i` on: the
/// node reached, or the error that names the resolved part of the path and
/// the part left unresolved, from the first segment without a matching
/// child to the end.
pub open spec fn walk_from(t: Seq<NodeView>, n: usize, segs: Seq<Seq<char>>, i: int) -> Result<usize, ErrorView>
    decreases segs.len() - i,
{
    if i < 0 || i >= segs.len() {
        Ok(n)
    } else {
        match child_named(t, n as int, segs[i]) {
            Some(c) => walk_from(t, c, segs, i + 1),
            None => Err(ErrorView::NodeNotFound(join_path(segs.take(i)), join_path(segs.skip(i)))),
        }
    }
}

/// The node that the absolute path `path` names in `t`.
pub open spec fn resolve_spec(t: Seq<NodeView>, path: Seq<char>) -> Result<usize, ErrorView> {
    if path.len() == 0 || path[0] != '/' {
        Err(ErrorView::NodePathMustBeAbsolute(path))
    } else {
        walk_from(t, 0, segments(path.drop_first()), 0)
    }
}

/// The value of a resolution outcome.
pub open spec fn node_result(r: Result<usize, Error>) -> Result<usize, ErrorView> {
    match r {
        Ok(n) => Ok(n),
        Err(e) => Err(e@),
    }
}

/// A path that does not begin with the separator is refused as not
/// absolute, whatever the tree.
pub proof fn lemma_relative_path_refused(t: Seq<NodeView>, path: Seq<char>)
    requires
        path.len() > 0,
        path[0] != '/',
    ensures
        resolve_spec(t, path) == Err::<usize, ErrorView>(ErrorView::NodePathMustBeAbsolute(path)),
{
}

/// The separator alone names the root of every tree.
pub proof fn lemma_root_path_resolves(t: Seq<NodeView>)
    requires
        tree_wf(t),
    ensures
        resolve_spec(t, "/"@) == Ok::<usize, ErrorView>(0),
{
    reveal_strlit("/");
    assert("/"@.drop_first() =~= Seq::<char>::empty());
}

/// Joining two runs of segments one after the other gives the path of both.
pub proof fn lemma_join_path_concat(a: Seq<Seq<char>>, b: Seq<Seq<char>>)
    ensures
        join_path(a + b) == join_path(a) + join_path(b),
    decreases b.len(),
{
    if b.len() == 0 {
        assert(a + b =~= a);
        assert(join_path(a) + join_path(b) =~= join_path(a));
    } else {
        lemma_join_path_concat(a, b.drop_last());
        assert((a + b).drop_last() =~= a + b.drop_last());
        assert((a + b).last() == b.last());
        assert(join_path(a + b) =~= join_path(a) + join_path(b));
    }
}

/// Where a path names no node, the error's resolved part followed by its
/// unresolved part is the whole path with its empty segments left out, and
/// the unresolved part is not empty.
pub proof fn lemma_not_found_keeps_whole_path(t: Seq<NodeView>, path: Seq<char>)
    ensures
        resolve_spec(t, path) matches Err(ErrorView::NodeNotFound(r, u)) ==> r + u == join_path(
            segments(path.drop_first()),
        ) && u.len() > 0,
{
    if path.len() > 0 && path[0] == '/' {
        lemma_walk_not_found(t, 0, segments(path.drop_first()), 0);
    }
}

/// The walk from position `i` fails only with a split of the whole path whose
/// unresolved part is not empty.
proof fn lemma_walk_not_found(t: Seq<NodeView>, n: usize, segs: Seq<Seq<char>>, i: int)
    requires
        0 <= i,
    ensures
        walk_from(t, n, segs, i) matches Err(ErrorView::NodeNotFound(r, u)) ==> r + u == join_path(segs)
            && u.len() > 0,
    decreases segs.len() - i,
{
    if i < segs.len() {
        match child_named(t, n as int, segs[i]) {
            Some(c) => {
                lemma_walk_not_found(t, c, segs, i + 1);
            },
            None => {
                reveal_strlit("/");
                lemma_join_path_concat(segs.take(i), segs.skip(i));
                assert(segs.take(i) + segs.skip(i) =~= segs);
                let rest = segs.skip(i);
                assert(join_path(rest) == join_path(rest.drop_last()) + "/"@ + rest.last());
            },
        }
    }
}

/// Splits `s` on `/`, leaving out empty segments.
pub fn split_segments(s: &str) -> (r: Vec<String>)
    ensures
        strs(r@) == segments(s@),
{
    let n = s.unicode_len();
    let mut acc: Vec<String> = Vec::new();
    let mut start: usize = 0;
    let mut i: usize = 0;
    while i < n
        invariant
            n == s@.len(),
            start <= i <= n,
            strs(acc@) + segments_from(s@, start as int, i as int) == segments(s@),
        decreases n - i,
    {
        let c = s.get_char(i);
        if c == '/' {
            if start < i {
                let seg = String::from_str(s.substring_char(start, i));
                let ghost before = acc@;
                acc.push(seg);
                assert(strs(acc@) =~= strs(before).push(s@.subrange(start as int, i as int)));
                assert(strs(acc@) + segments_from(s@, (i + 1) as int, (i + 1) as int) =~= strs(before) + (
                seq![s@.subrange(start as int, i as int)] + segments_from(s@, (i + 1) as int, (i + 1) as int)));
            } else {
                assert(strs(acc@) + segments_from(s@, (i + 1) as int, (i + 1) as int) =~= strs(acc@) + (
                Seq::<Seq<char>>::empty() + segments_from(s@, (i + 1) as int, (i + 1) as int)));
            }
            start = i + 1;
        }
        i = i + 1;
    }
    if start < n {
        let seg = String::from_str(s.substring_char(start, n));
        let ghost before = acc@;
        acc.push(seg);
        assert(strs(acc@) =~= strs(before).push(s@.subrange(start as int, n as int)));
        assert(strs(acc@) =~= strs(before) + seq![s@.subrange(start as int, n as int)]);
    } else {
        assert(strs(acc@) =~= strs(acc@) + Seq::<Seq<char>>::empty());
    }
    acc
}

/// The absolute path made of the segments of `segs` from `start` up to,
/// not including, `end`.
pub fn join_segments(segs: &Vec<String>, start: usize, end: usize) -> (r: String)
    requires
        start <= end <= segs@.len(),
    ensures
        r@ == join_path(strs(segs@).subrange(start as int, end as int)),
{
    let mut acc = String::new();
    let mut j: usize = start;
    assert(strs(segs@).subrange(start as int, start as int) =~= Seq::<Seq<char>>::empty());
    while j < end
        invariant
            start <= j <= end <= segs@.len(),
            acc@ == join_path(strs(segs@).subrange(start as int, j as int)),
        decreases end - j,
    {
        assert(strs(segs@).subrange(start as int, j + 1).drop_last() =~= strs(segs@).subrange(start as int, j as int));
        acc.append("/");
        acc.append(segs[j].as_str());
        j = j + 1;
    }
    acc
}

impl Tree {
    /// The node that the absolute path `path` names: `/` alone names the
    /// root, and each segment names a child of the node before it.
    pub fn resolve(&self, path: &str) -> (r: Result<usize, Error>)
        requires
            self.wf(),
        ensures
            node_result(r) == resolve_spec(self@, path@),
            r matches Ok(n) ==> n < self@.len(),
    {
        let len = path.unicode_len();
        if len == 0 || path.get_char(0) != '/' {
            return Err(Error::NodePathMustBeAbsolute(String::from_str(path)));
        }
        let segs = split_segments(path.substring_char(1, len));
        let ghost t = self@;
        let ghost sv = strs(segs@);
        assert(path@.subrange(1, len as int) =~= path@.drop_first());
        let mut cur: usize = self.root();
        let mut i: usize = 0;
        while i < segs.len()
            invariant
                t == self@,
                tree_wf(t),
                sv == strs(segs@),
                path@.len() > 0,
                path@[0] == '/',
                sv == segments(path@.drop_first()),
                i <= segs@.len(),
                cur < t.len(),
                walk_from(t, cur, sv, i as int) == walk_from(t, 0, sv, 0),
            decreases segs@.len() - i,
        {
            assert(sv[i as int] == segs@[i as int]@);
            match self.find_child(cur, &segs[i]) {
                Some(c) => {
                    proof {
                        lemma_child_from(t, t[cur as int].children, sv[i as int], 0);
                    }
                    cur = c;
                },
                None => {
                    let resolved = join_segments(&segs, 0, i);
                    let unresolved = join_segments(&segs, i, segs.len());
                    assert(sv.subrange(0, i as int) =~= sv.take(i as int));
                    assert(sv.subrange(i as int, sv.len() as int) =~= sv.skip(i as int));
                    return Err(Error::NodeNotFound(resolved, unresolved));
                },
            }
            i = i + 1;
        }
        Ok(cur)
    }
}

} // verus!
