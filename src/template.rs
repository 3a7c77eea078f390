use vstd::prelude::*;

use crate::error::{Error, ErrorView};
use crate::path::strs;
use crate::tree::{attr_view, NodeView, Tree};

verus! {

/// A named strategy that turns one node into one line of text.
#[derive(Clone, Copy, Debug, PartialEq, Eq, Structural)]
pub enum LayoutTemplate {
    /// `line`: four spaces of indent per level, then the name, then each
    /// attribute after two spaces.
    Line,
    /// `tree`: a `|-- ` branch before each node below the start, then the
    /// name, then each attribute in brackets.
    Tree,
}

/// The template registered under `name`, if any.
pub open spec fn template_named(name: Seq<char>) -> Option<LayoutTemplate> {
    if name == "line"@ {
        Some(LayoutTemplate::Line)
    } else if name == "tree"@ {
        Some(LayoutTemplate::Tree)
    } else {
        None
    }
}

/// The name under which a template is registered.
pub open spec fn template_name(k: LayoutTemplate) -> Seq<char> {
    match k {
        LayoutTemplate::Line => "line"@,
        LayoutTemplate::Tree => "tree"@,
    }
}

/// Whether an attribute key passes the filter `keys`; an empty filter
/// passes every key.
pub open spec fn included(key: Seq<char>, keys: Seq<Seq<char>>) -> bool {
    keys.len() == 0 || keys.contains(key)
}

/// The attributes whose keys pass the filter, in their own order.
pub open spec fn selected(attrs: Seq<(Seq<char>, Seq<char>)>, keys: Seq<Seq<char>>) -> Seq<(Seq<char>, Seq<char>)>
    decreases attrs.len(),
{
    if attrs.len() == 0 {
        Seq::empty()
    } else if included(attrs.last().0, keys) {
        selected(attrs.drop_last(), keys).push(attrs.last())
    } else {
        selected(attrs.drop_last(), keys)
    }
}

/// How one attribute is shown: its bare value when keys are hidden, else
/// `key: value`.
pub open spec fn field(p: (Seq<char>, Seq<char>), hide_keys: bool) -> Seq<char> {
    if hide_keys {
        p.1
    } else {
        p.0 + ": "@ + p.1
    }
}

/// How each of `attrs` is shown.
pub open spec fn fields(attrs: Seq<(Seq<char>, Seq<char>)>, hide_keys: bool) -> Seq<Seq<char>> {
    attrs.map_values(|p: (Seq<char>, Seq<char>)| field(p, hide_keys))
}

/// Each of `fs` between `open` and `close`, one after the other.
pub open spec fn wrapped(fs: Seq<Seq<char>>, open: Seq<char>, close: Seq<char>) -> Seq<char>
    decreases fs.len(),
{
    if fs.len() == 0 {
        Seq::empty()
    } else {
        wrapped(fs.drop_last(), open, close) + open + fs.last() + close
    }
}

/// Four spaces for each of `n` levels.
pub open spec fn indent(n: nat) -> Seq<char>
    decreases n,
{
    if n == 0 {
        Seq::empty()
    } else {
        indent((n - 1) as nat) + "    "@
    }
}

/// What a template puts before the name of a node `level` levels below the
/// start node.
pub open spec fn line_prefix(k: LayoutTemplate, level: nat) -> Seq<char> {
    match k {
        LayoutTemplate::Line => indent(level),
        LayoutTemplate::Tree => if level == 0 {
            Seq::empty()
        } else {
            indent((level - 1) as nat) + "|-- "@
        },
    }
}

/// What a template puts before each attribute.
pub open spec fn field_open(k: LayoutTemplate) -> Seq<char> {
    match k {
        LayoutTemplate::Line => "  "@,
        LayoutTemplate::Tree => " ["@,
    }
}

/// What a template puts after each attribute.
pub open spec fn field_close(k: LayoutTemplate) -> Seq<char> {
    match k {
        LayoutTemplate::Line => ""@,
        LayoutTemplate::Tree => "]"@,
    }
}

/// The line that template `k` renders for `node`, `level` levels below the
/// start node, with the key filter `keys`.
pub open spec fn node_line(
    k: LayoutTemplate,
    level: nat,
    node: NodeView,
    keys: Seq<Seq<char>>,
    hide_keys: bool,
) -> Seq<char> {
    line_prefix(k, level) + node.name + wrapped(
        fields(selected(node.attributes, keys), hide_keys),
        field_open(k),
        field_close(k),
    )
}

/// Of each attribute the filter lets through, the line shows the bare value
/// when keys are hidden and `key: value` when they are not.
pub proof fn lemma_hidden_keys(attrs: Seq<(Seq<char>, Seq<char>)>, keys: Seq<Seq<char>>)
    ensures
        fields(selected(attrs, keys), true).len() == selected(attrs, keys).len(),
        fields(selected(attrs, keys), false).len() == selected(attrs, keys).len(),
        forall|i: int|
            0 <= i < selected(attrs, keys).len() ==> #[trigger] fields(selected(attrs, keys), true)[i]
                == selected(attrs, keys)[i].1,
        forall|i: int|
            0 <= i < selected(attrs, keys).len() ==> #[trigger] fields(selected(attrs, keys), false)[i]
                == selected(attrs, keys)[i].0 + ": "@ + selected(attrs, keys)[i].1,
{
}

/// The filter keeps exactly the attributes whose keys it passes: each kept
/// one is an attribute of the node with a passing key, and each attribute
/// with a passing key is kept.
pub proof fn lemma_selected(attrs: Seq<(Seq<char>, Seq<char>)>, keys: Seq<Seq<char>>)
    ensures
        forall|p: (Seq<char>, Seq<char>)|
            #[trigger] selected(attrs, keys).contains(p) <==> attrs.contains(p) && included(p.0, keys),
        selected(attrs, keys).len() <= attrs.len(),
    decreases attrs.len(),
{
    if attrs.len() > 0 {
        let rest = attrs.drop_last();
        lemma_selected(rest, keys);
        assert(attrs =~= rest.push(attrs.last()));
        assert forall|p: (Seq<char>, Seq<char>)|
            #[trigger] selected(attrs, keys).contains(p) <==> attrs.contains(p) && included(p.0, keys) by {
            let s = selected(rest, keys);
            if attrs.contains(p) && included(p.0, keys) {
                let j = choose|j: int| 0 <= j < attrs.len() && attrs[j] == p;
                if j < rest.len() {
                    assert(rest[j] == p);
                    assert(rest.contains(p));
                    assert(s.contains(p));
                    if included(attrs.last().0, keys) {
                        let q = choose|q: int| 0 <= q < s.len() && s[q] == p;
                        assert(s.push(attrs.last())[q] == p);
                    }
                } else {
                    assert(s.push(attrs.last())[s.len() as int] == p);
                }
            }
            if selected(attrs, keys).contains(p) {
                let q = choose|q: int| 0 <= q < selected(attrs, keys).len() && selected(attrs, keys)[q] == p;
                if included(attrs.last().0, keys) && q == s.len() {
                    assert(attrs[attrs.len() - 1] == p);
                } else {
                    assert(s[q] == p);
                    assert(s.contains(p));
                    assert(rest.contains(p));
                    let j = choose|j: int| 0 <= j < rest.len() && rest[j] == p;
                    assert(attrs[j] == p);
                }
            }
        }
    }
}

/// The template registered under `name`.
pub fn resolve_layout(name: &str) -> (r: Result<LayoutTemplate, Error>)
    ensures
        template_named(name@) matches Some(k) ==> r == Ok::<LayoutTemplate, Error>(k),
        template_named(name@) is None ==> (r matches Err(e) && e@ == ErrorView::UnknownLayout(name@)),
{
    let s = String::from_str(name);
    if s == String::from_str("line") {
        Ok(LayoutTemplate::Line)
    } else if s == String::from_str("tree") {
        Ok(LayoutTemplate::Tree)
    } else {
        Err(Error::UnknownLayout(s))
    }
}

/// The name of the layout used when none is given.
pub fn default_layout_name() -> (r: &'static str)
    ensures
        r@ == template_name(LayoutTemplate::Line),
{
    "line"
}

impl LayoutTemplate {
    /// The name under which this template is registered.
    pub fn name(&self) -> (r: &'static str)
        ensures
            r@ == template_name(*self),
    {
        match self {
            LayoutTemplate::Line => "line",
            LayoutTemplate::Tree => "tree",
        }
    }

    /// Appends to `out` the line of node `n` of `tree`, `level` levels below
    /// the start node, with the key filter `keys`.
    pub fn render_line(
        &self,
        tree: &Tree,
        n: usize,
        level: usize,
        keys: &Vec<String>,
        hide_keys: bool,
        out: &mut String,
    )
        requires
            n < tree@.len(),
        ensures
            final(out)@ == old(out)@ + node_line(*self, level as nat, tree@[n as int], strs(keys@), hide_keys),
    {
        let ghost base = out@;
        let ghost kv = strs(keys@);
        let ghost node = tree@[n as int];
        let indents: usize = match self {
            LayoutTemplate::Line => level,
            LayoutTemplate::Tree => if level == 0 {
                0
            } else {
                level - 1
            },
        };
        let mut j: usize = 0;
        while j < indents
            invariant
                j <= indents,
                out@ == base + indent(j as nat),
            decreases indents - j,
        {
            out.append("    ");
            j = j + 1;
        }
        if level > 0 && *self == LayoutTemplate::Tree {
            out.append("|-- ");
        }
        assert(out@ =~= base + line_prefix(*self, level as nat));
        out.append(tree.name(n).as_str());
        let ghost head = out@;
        let (open, close): (&str, &str) = match self {
            LayoutTemplate::Line => ("  ", ""),
            LayoutTemplate::Tree => (" [", "]"),
        };
        let attrs = tree.attributes(n);
        let ghost av = attrs@.map_values(|p: (String, String)| attr_view(p));
        assert(av == node.attributes);
        let mut i: usize = 0;
        while i < attrs.len()
            invariant
                i <= attrs@.len(),
                av == attrs@.map_values(|p: (String, String)| attr_view(p)),
                kv == strs(keys@),
                open@ == field_open(*self),
                close@ == field_close(*self),
                out@ == head + wrapped(fields(selected(av.take(i as int), kv), hide_keys), open@, close@),
            decreases attrs@.len() - i,
        {
            let ghost before = out@;
            let ghost prev = selected(av.take(i as int), kv);
            assert(av.take(i + 1).drop_last() =~= av.take(i as int));
            assert(av.take(i + 1).last() == attr_view(attrs@[i as int]));
            let pass = keys.len() == 0 || contains_key(keys, &attrs[i].0);
            if pass {
                out.append(open);
                if !hide_keys {
                    out.append(attrs[i].0.as_str());
                    out.append(": ");
                }
                out.append(attrs[i].1.as_str());
                out.append(close);
                let ghost p = av.take(i + 1).last();
                assert(fields(prev.push(p), hide_keys) =~= fields(prev, hide_keys).push(field(p, hide_keys)));
                assert(fields(prev.push(p), hide_keys).drop_last() =~= fields(prev, hide_keys));
            }
            i = i + 1;
        }
        assert(av.take(attrs@.len() as int) =~= av);
    }
}

/// Whether `key` is one of `keys`.
pub fn contains_key(keys: &Vec<String>, key: &String) -> (r: bool)
    ensures
        r == strs(keys@).contains(key@),
{
    let mut i: usize = 0;
    while i < keys.len()
        invariant
            i <= keys@.len(),
            forall|j: int| 0 <= j < i ==> strs(keys@)[j] != key@,
        decreases keys@.len() - i,
    {
        if keys[i] == *key {
            assert(strs(keys@)[i as int] == key@);
            return true;
        }
        i = i + 1;
    }
    false
}

} // verus!
