use vstd::prelude::*;

use crate::error::{Error, ErrorView};
use crate::path::{resolve_spec, strs};
use crate::template::{node_line, resolve_layout, template_named, LayoutTemplate};
use crate::tree::{tree_wf, NodeView, Tree};

verus! {

/// The nodes rendered for the subtree of `n` with `depth` levels left, each
/// with its level: `n` itself at `level`, then, while levels are left, the
/// subtrees of its children in order, one level deeper.
pub open spec fn visits(t: Seq<NodeView>, n: usize, depth: nat, level: nat) -> Seq<(usize, nat)>
    decreases depth, 0nat,
{
    seq![(n, level)] + if depth == 0 {
        Seq::empty()
    } else {
        visits_all(t, t[n as int].children, (depth - 1) as nat, level + 1)
    }
}

/// The nodes rendered for the subtrees of `cs`, one after the other.
pub open spec fn visits_all(t: Seq<NodeView>, cs: Seq<usize>, depth: nat, level: nat) -> Seq<(usize, nat)>
    decreases depth, cs.len(),
{
    if cs.len() == 0 {
        Seq::empty()
    } else {
        visits_all(t, cs.drop_last(), depth, level) + visits(t, cs.last(), depth, level)
    }
}

/// The text of the rendered nodes `vs`: each node's line, ended by a newline.
pub open spec fn text_of(
    t: Seq<NodeView>,
    vs: Seq<(usize, nat)>,
    k: LayoutTemplate,
    keys: Seq<Seq<char>>,
    hide_keys: bool,
) -> Seq<char>
    decreases vs.len(),
{
    if vs.len() == 0 {
        Seq::empty()
    } else {
        text_of(t, vs.drop_last(), k, keys, hide_keys) + node_line(
            k,
            vs.last().1,
            t[vs.last().0 as int],
            keys,
            hide_keys,
        ) + "\n"@
    }
}

/// What `layout` returns: the template named `name` is looked up first, then
/// `path` is resolved, and only then is the subtree rendered.
pub open spec fn layout_spec(
    t: Seq<NodeView>,
    name: Seq<char>,
    path: Seq<char>,
    depth: nat,
    keys: Seq<Seq<char>>,
    hide_keys: bool,
) -> Result<Seq<char>, ErrorView> {
    match template_named(name) {
        None => Err(ErrorView::UnknownLayout(name)),
        Some(k) => match resolve_spec(t, path) {
            Err(e) => Err(e),
            Ok(n) => Ok(text_of(t, visits(t, n, depth, 0), k, keys, hide_keys)),
        },
    }
}

/// The value of a rendering outcome.
pub open spec fn text_result(r: Result<String, Error>) -> Result<Seq<char>, ErrorView> {
    match r {
        Ok(s) => Ok(s@),
        Err(e) => Err(e@),
    }
}

/// The text of two runs of rendered nodes, one after the other, is the text
/// of the one run made of both.
pub proof fn lemma_text_concat(
    t: Seq<NodeView>,
    a: Seq<(usize, nat)>,
    b: Seq<(usize, nat)>,
    k: LayoutTemplate,
    keys: Seq<Seq<char>>,
    hide_keys: bool,
)
    ensures
        text_of(t, a + b, k, keys, hide_keys) == text_of(t, a, k, keys, hide_keys) + text_of(
            t,
            b,
            k,
            keys,
            hide_keys,
        ),
    decreases b.len(),
{
    if b.len() == 0 {
        assert(a + b =~= a);
    } else {
        lemma_text_concat(t, a, b.drop_last(), k, keys, hide_keys);
        assert((a + b).drop_last() =~= a + b.drop_last());
        assert((a + b).last() == b.last());
    }
}

/// With no levels left, only the start node is rendered: one line, its own.
pub proof fn lemma_depth_zero_renders_one_line(
    t: Seq<NodeView>,
    n: usize,
    level: nat,
    k: LayoutTemplate,
    keys: Seq<Seq<char>>,
    hide_keys: bool,
)
    ensures
        visits(t, n, 0, level) == seq![(n, level)],
        text_of(t, visits(t, n, 0, level), k, keys, hide_keys) == node_line(k, level, t[n as int], keys, hide_keys)
            + "\n"@,
{
    let vs = visits(t, n, 0, level);
    assert(vs =~= seq![(n, level)]);
    assert(vs.drop_last() =~= Seq::<(usize, nat)>::empty());
    assert(text_of(t, vs.drop_last(), k, keys, hide_keys) == Seq::<char>::empty());
    assert(text_of(t, vs, k, keys, hide_keys) =~= node_line(k, level, t[n as int], keys, hide_keys) + "\n"@);
}

/// The first node rendered is the start node, and every node rendered lies
/// at most `depth` levels below it.
pub proof fn lemma_depth_bound(t: Seq<NodeView>, n: usize, depth: nat, level: nat)
    ensures
        visits(t, n, depth, level)[0] == (n, level),
        forall|i: int|
            0 <= i < visits(t, n, depth, level).len() ==> level <= (#[trigger] visits(t, n, depth, level)[i]).1
                <= level + depth,
    decreases depth, 0nat,
{
    let vs = visits(t, n, depth, level);
    if depth > 0 {
        let rest = visits_all(t, t[n as int].children, (depth - 1) as nat, level + 1);
        lemma_depth_bound_all(t, t[n as int].children, (depth - 1) as nat, level + 1);
        assert forall|i: int| 0 <= i < vs.len() implies level <= (#[trigger] vs[i]).1 <= level + depth by {
            if i > 0 {
                assert(vs[i] == rest[i - 1]);
            }
        }
    }
}

/// Every node rendered for the subtrees of `cs` lies between `level` and
/// `level + depth`.
pub proof fn lemma_depth_bound_all(t: Seq<NodeView>, cs: Seq<usize>, depth: nat, level: nat)
    ensures
        forall|i: int|
            0 <= i < visits_all(t, cs, depth, level).len() ==> level <= (#[trigger] visits_all(
                t,
                cs,
                depth,
                level,
            )[i]).1 <= level + depth,
    decreases depth, cs.len(),
{
    if cs.len() > 0 {
        let a = visits_all(t, cs.drop_last(), depth, level);
        let b = visits(t, cs.last(), depth, level);
        lemma_depth_bound_all(t, cs.drop_last(), depth, level);
        lemma_depth_bound(t, cs.last(), depth, level);
        let vs = visits_all(t, cs, depth, level);
        assert forall|i: int| 0 <= i < vs.len() implies level <= (#[trigger] vs[i]).1 <= level + depth by {
            if i < a.len() {
                assert(vs[i] == a[i]);
            } else {
                assert(vs[i] == b[i - a.len()]);
            }
        }
    }
}

/// An unknown layout name fails with that name, whatever the path, and no
/// text is returned.
pub proof fn lemma_unknown_layout_fails_first(
    t: Seq<NodeView>,
    name: Seq<char>,
    path: Seq<char>,
    depth: nat,
    keys: Seq<Seq<char>>,
    hide_keys: bool,
)
    requires
        template_named(name) is None,
    ensures
        layout_spec(t, name, path, depth, keys, hide_keys) == Err::<Seq<char>, ErrorView>(
            ErrorView::UnknownLayout(name),
        ),
{
}

/// Two renderings of the same tree, layout, path, depth, filter and flag
/// give the same outcome, to the character.
pub proof fn lemma_layout_deterministic(
    t: Seq<NodeView>,
    name: Seq<char>,
    path: Seq<char>,
    depth: nat,
    keys: Seq<Seq<char>>,
    hide_keys: bool,
    r1: Result<String, Error>,
    r2: Result<String, Error>,
)
    requires
        text_result(r1) == layout_spec(t, name, path, depth, keys, hide_keys),
        text_result(r2) == layout_spec(t, name, path, depth, keys, hide_keys),
    ensures
        text_result(r1) == text_result(r2),
        r1 is Ok <==> r2 is Ok,
{
}

/// Appends to `out` the text of the subtree of `n`, `level` levels below the
/// start node, with `depth` levels left.
pub fn render_subtree(
    tree: &Tree,
    k: LayoutTemplate,
    n: usize,
    depth: usize,
    level: usize,
    keys: &Vec<String>,
    hide_keys: bool,
    out: &mut String,
)
    requires
        tree.wf(),
        n < tree@.len(),
        level + depth <= usize::MAX,
    ensures
        final(out)@ == old(out)@ + text_of(
            tree@,
            visits(tree@, n, depth as nat, level as nat),
            k,
            strs(keys@),
            hide_keys,
        ),
    decreases depth,
{
    let ghost t = tree@;
    let ghost kv = strs(keys@);
    let ghost base = out@;
    k.render_line(tree, n, level, keys, hide_keys, out);
    out.append("\n");
    let ghost first = seq![(n, level as nat)];
    assert(first.drop_last() =~= Seq::<(usize, nat)>::empty());
    assert(text_of(t, first.drop_last(), k, kv, hide_keys) == Seq::<char>::empty());
    assert(out@ =~= base + text_of(t, first, k, kv, hide_keys));
    if depth > 0 {
        let cs = tree.children(n);
        let mut i: usize = 0;
        while i < cs.len()
            invariant
                t == tree@,
                tree_wf(t),
                kv == strs(keys@),
                n < t.len(),
                cs@ == t[n as int].children,
                i <= cs@.len(),
                level + depth <= usize::MAX,
                depth > 0,
                out@ == base + text_of(
                    t,
                    first + visits_all(t, cs@.take(i as int), (depth - 1) as nat, (level + 1) as nat),
                    k,
                    kv,
                    hide_keys,
                ),
            decreases cs@.len() - i,
        {
            let ghost before = out@;
            let ghost done = first + visits_all(t, cs@.take(i as int), (depth - 1) as nat, (level + 1) as nat);
            let c = cs[i];
            assert(t[n as int].children[i as int] == c);
            render_subtree(tree, k, c, depth - 1, level + 1, keys, hide_keys, out);
            proof {
                let sub = visits(t, c, (depth - 1) as nat, (level + 1) as nat);
                assert(cs@.take(i + 1).drop_last() =~= cs@.take(i as int));
                assert(cs@.take(i + 1).last() == c);
                let all = visits_all(t, cs@.take(i + 1), (depth - 1) as nat, (level + 1) as nat);
                assert(all == visits_all(t, cs@.take(i as int), (depth - 1) as nat, (level + 1) as nat) + sub);
                assert(first + all =~= done + sub);
                lemma_text_concat(t, done, sub, k, kv, hide_keys);
            }
            i = i + 1;
        }
        assert(cs@.take(cs@.len() as int) =~= cs@);
    } else {
        assert(visits(t, n, 0, level as nat) =~= first);
    }
}

/// Renders the subtree at `start_path` of `tree` through the template named
/// `template_name`: `depth` levels below the start node at most, each line
/// showing the attributes whose keys are in `keys` (all of them where `keys`
/// is empty), with or without their keys.
pub fn layout(
    template_name: &str,
    tree: &Tree,
    start_path: &str,
    depth: usize,
    keys: &Vec<String>,
    hide_keys: bool,
) -> (r: Result<String, Error>)
    requires
        tree.wf(),
    ensures
        text_result(r) == layout_spec(tree@, template_name@, start_path@, depth as nat, strs(keys@), hide_keys),
{
    let k = match resolve_layout(template_name) {
        Ok(k) => k,
        Err(e) => {
            return Err(e);
        },
    };
    let n = match tree.resolve(start_path) {
        Ok(n) => n,
        Err(e) => {
            return Err(e);
        },
    };
    let mut out = String::new();
    render_subtree(tree, k, n, depth, 0, keys, hide_keys, &mut out);
    assert(out@ =~= Seq::<char>::empty() + out@);
    Ok(out)
}

} // verus!
