use vstd::prelude::*;

verus! {

/// One node of a [`Tree`]: its name, the indices of its children in
/// order, and its attributes as key/value pairs in order.
pub struct Node {
    name: String,
    children: Vec<usize>,
    attributes: Vec<(String, String)>,
}

/// The mathematical value of a [`Node`].
pub struct NodeView {
    pub name: Seq<char>,
    pub children: Seq<usize>,
    pub attributes: Seq<(Seq<char>, Seq<char>)>,
}

/// The value of one attribute pair.
pub open spec fn attr_view(p: (String, String)) -> (Seq<char>, Seq<char>) {
    (p.0@, p.1@)
}

impl View for Node {
    type V = NodeView;

    closed spec fn view(&self) -> NodeView {
        NodeView {
            name: self.name@,
            children: self.children@,
            attributes: self.attributes@.map_values(|p: (String, String)| attr_view(p)),
        }
    }
}

/// A read-only hierarchy of named nodes kept in an arena. Index 0 is the
/// root; every other node is the child of exactly one node with a smaller
/// index.
pub struct Tree {
    nodes: Vec<Node>,
}

impl View for Tree {
    type V = Seq<NodeView>;

    closed spec fn view(&self) -> Seq<NodeView> {
        self.nodes@.map_values(|n: Node| n@)
    }
}

/// The index of the first child of `cs`, from position `k` on, whose name
/// is `name`.
pub open spec fn child_from(t: Seq<NodeView>, cs: Seq<usize>, name: Seq<char>, k: int) -> Option<usize>
    decreases cs.len() - k,
{
    if k < 0 || k >= cs.len() {
        None
    } else if t[cs[k] as int].name == name {
        Some(cs[k])
    } else {
        child_from(t, cs, name, k + 1)
    }
}

/// The child of node `n` named `name`, if there is one.
pub open spec fn child_named(t: Seq<NodeView>, n: int, name: Seq<char>) -> Option<usize> {
    child_from(t, t[n].children, name, 0)
}

/// The position of the first attribute of `attrs`, from position `k` on,
/// whose key is `key`.
pub open spec fn key_from(attrs: Seq<(Seq<char>, Seq<char>)>, key: Seq<char>, k: int) -> Option<int>
    decreases attrs.len() - k,
{
    if k < 0 || k >= attrs.len() {
        None
    } else if attrs[k].0 == key {
        Some(k)
    } else {
        key_from(attrs, key, k + 1)
    }
}

/// The attributes once `key` is set to `value`: an existing key keeps its
/// place and takes the new value, a new key goes last.
pub open spec fn with_attribute(
    attrs: Seq<(Seq<char>, Seq<char>)>,
    key: Seq<char>,
    value: Seq<char>,
) -> Seq<(Seq<char>, Seq<char>)> {
    match key_from(attrs, key, 0) {
        Some(j) => attrs.update(j, (key, value)),
        None => attrs.push((key, value)),
    }
}

/// Node `j` is a child of some node.
pub open spec fn has_parent(t: Seq<NodeView>, j: int) -> bool {
    exists|i: int, k: int| 0 <= i < t.len() && 0 <= k < t[i].children.len() && t[i].children[k] == j
}

/// The tree invariant: a root exists, each child index is larger than its
/// parent's and in range, each non-root node has exactly one parent,
/// sibling names are distinct, and attribute keys are distinct per node.
pub open spec fn tree_wf(t: Seq<NodeView>) -> bool {
    &&& t.len() > 0
    &&& forall|i: int, k: int|
        0 <= i < t.len() && 0 <= k < t[i].children.len() ==> i < #[trigger] t[i].children[k] < t.len()
    &&& forall|j: int| 0 < j < t.len() ==> #[trigger] has_parent(t, j)
    &&& forall|i1: int, k1: int, i2: int, k2: int|
        0 <= i1 < t.len() && 0 <= k1 < t[i1].children.len() && 0 <= i2 < t.len() && 0 <= k2
            < t[i2].children.len() && #[trigger] t[i1].children[k1] == #[trigger] t[i2].children[k2]
            ==> i1 == i2 && k1 == k2
    &&& forall|i: int, k1: int, k2: int|
        0 <= i < t.len() && 0 <= k1 < k2 < t[i].children.len() ==> t[#[trigger] t[i].children[k1] as int].name
            != t[#[trigger] t[i].children[k2] as int].name
    &&& forall|i: int, k1: int, k2: int|
        0 <= i < t.len() && 0 <= k1 < k2 < t[i].attributes.len() ==> #[trigger] t[i].attributes[k1].0
            != #[trigger] t[i].attributes[k2].0
}

/// Where `child_from` finds nothing, no child from `k` on has the name; where
/// it finds a child, it is one of `cs` and has the name.
pub proof fn lemma_child_from(t: Seq<NodeView>, cs: Seq<usize>, name: Seq<char>, k: int)
    requires
        0 <= k,
    ensures
        child_from(t, cs, name, k) is None ==> forall|j: int|
            k <= j < cs.len() ==> t[#[trigger] cs[j] as int].name != name,
        child_from(t, cs, name, k) matches Some(c) ==> exists|j: int|
            k <= j < cs.len() && cs[j] == c && t[c as int].name == name,
    decreases cs.len() - k,
{
    if k < cs.len() {
        lemma_child_from(t, cs, name, k + 1);
        if t[cs[k] as int].name == name {
            assert(cs[k] == cs[k] && k <= k < cs.len());
        }
    }
}

/// Where `key_from` finds nothing, no attribute from `k` on has the key;
/// where it finds a position, it is in range and holds the key.
pub proof fn lemma_key_from(attrs: Seq<(Seq<char>, Seq<char>)>, key: Seq<char>, k: int)
    requires
        0 <= k,
    ensures
        key_from(attrs, key, k) is None ==> forall|j: int| k <= j < attrs.len() ==> #[trigger] attrs[j].0 != key,
        key_from(attrs, key, k) matches Some(j) ==> k <= j < attrs.len() && attrs[j].0 == key,
    decreases attrs.len() - k,
{
    if k < attrs.len() {
        lemma_key_from(attrs, key, k + 1);
    }
}

impl Tree {
    /// The invariant of this tree.
    pub open spec fn wf(&self) -> bool {
        tree_wf(self@)
    }

    /// A tree that holds only a root named `root_name`, without attributes.
    pub fn new(root_name: String) -> (r: Tree)
        ensures
            r.wf(),
            r@ == seq![NodeView { name: root_name@, children: Seq::empty(), attributes: Seq::empty() }],
    {
        let mut nodes: Vec<Node> = Vec::new();
        nodes.push(Node { name: root_name, children: Vec::new(), attributes: Vec::new() });
        let r = Tree { nodes };
        proof {
            let root = r.nodes@[0];
            assert(root@.attributes =~= Seq::empty());
            assert(r@ =~= seq![NodeView { name: root_name@, children: Seq::empty(), attributes: Seq::empty() }]);
        }
        r
    }

    /// The index of the root.
    pub fn root(&self) -> (r: usize)
        ensures
            r == 0,
    {
        0
    }

    /// The number of nodes.
    pub fn len(&self) -> (r: usize)
        ensures
            r == self@.len(),
    {
        self.nodes.len()
    }

    /// The name of node `n`.
    pub fn name(&self, n: usize) -> (r: &String)
        requires
            n < self@.len(),
        ensures
            r@ == self@[n as int].name,
    {
        &self.nodes[n].name
    }

    /// The children of node `n`, in order.
    pub fn children(&self, n: usize) -> (r: &Vec<usize>)
        requires
            n < self@.len(),
        ensures
            r@ == self@[n as int].children,
    {
        &self.nodes[n].children
    }

    /// The attributes of node `n`, in order.
    pub fn attributes(&self, n: usize) -> (r: &Vec<(String, String)>)
        requires
            n < self@.len(),
        ensures
            r@.map_values(|p: (String, String)| attr_view(p)) == self@[n as int].attributes,
    {
        &self.nodes[n].attributes
    }

    /// The child of node `n` whose name is `name`, if any.
    pub fn find_child(&self, n: usize, name: &String) -> (r: Option<usize>)
        requires
            self.wf(),
            n < self@.len(),
        ensures
            r == child_named(self@, n as int, name@),
    {
        let cs = &self.nodes[n].children;
        let ghost t = self@;
        assert(cs@ == t[n as int].children);
        let mut i: usize = 0;
        while i < cs.len()
            invariant
                i <= cs@.len(),
                cs@ == t[n as int].children,
                t == self@,
                tree_wf(t),
                n < t.len(),
                child_from(t, cs@, name@, i as int) == child_named(t, n as int, name@),
            decreases cs@.len() - i,
        {
            let c = cs[i];
            assert(t[n as int].children[i as int] == c);
            if self.nodes[c].name == *name {
                return Some(c);
            }
            i = i + 1;
        }
        None
    }
    /// Adds a child named `name` as the last child of `parent`. Fails, leaving
    /// the tree as it was, where `parent` already has a child of that name;
    /// else returns the new node's index, which is the old node count.
    pub fn add_child(&mut self, parent: usize, name: String) -> (r: Option<usize>)
        requires
            old(self).wf(),
            parent < old(self)@.len(),
        ensures
            final(self).wf(),
            child_named(old(self)@, parent as int, name@) is Some ==> r is None && final(self)@ == old(self)@,
            child_named(old(self)@, parent as int, name@) is None ==> r == Some(old(self)@.len() as usize)
                && final(self)@ == old(self)@.update(
                parent as int,
                NodeView { children: old(self)@[parent as int].children.push(old(self)@.len() as usize), ..old(self)@[parent as int] },
            ).push(NodeView { name: name@, children: Seq::empty(), attributes: Seq::empty() }),
    {
        if self.find_child(parent, &name).is_some() {
            return None;
        }
        let ghost t = self@;
        let ghost name_v = name@;
        let idx = self.nodes.len();
        let mut node = self.nodes.remove(parent);
        node.children.push(idx);
        self.nodes.insert(parent, node);
        self.nodes.push(Node { name, children: Vec::new(), attributes: Vec::new() });
        proof {
            let pv = NodeView { children: t[parent as int].children.push(idx), ..t[parent as int] };
            let nv = NodeView { name: name_v, children: Seq::empty(), attributes: Seq::empty() };
            assert(self.nodes@[idx as int]@.attributes =~= Seq::empty());
            assert(self.nodes@[parent as int]@ == pv);
            let u = t.update(parent as int, pv).push(nv);
            assert(self@ =~= u);
            lemma_child_from(t, t[parent as int].children, name_v, 0);
            let n = u.len();
            assert forall|i: int, k: int| 0 <= i < n && 0 <= k < u[i].children.len() implies i
                < #[trigger] u[i].children[k] < n by {
                if i == parent && k == t[i].children.len() {
                } else {
                    assert(u[i].children[k] == t[i].children[k]);
                }
            }
            assert forall|j: int| 0 < j < n implies #[trigger] has_parent(u, j) by {
                if j == idx {
                    assert(u[parent as int].children[t[parent as int].children.len() as int] == j);
                } else {
                    assert(has_parent(t, j));
                    let (i, k) = choose|i: int, k: int|
                        0 <= i < t.len() && 0 <= k < t[i].children.len() && t[i].children[k] == j;
                    assert(u[i].children[k] == j);
                }
            }
            assert forall|i1: int, k1: int, i2: int, k2: int|
                0 <= i1 < n && 0 <= k1 < u[i1].children.len() && 0 <= i2 < n && 0 <= k2
                    < u[i2].children.len() && #[trigger] u[i1].children[k1] == #[trigger] u[i2].children[k2]
                implies i1 == i2 && k1 == k2 by {
                let new1 = i1 == parent && k1 == t[i1].children.len();
                let new2 = i2 == parent && k2 == t[i2].children.len();
                if !new1 {
                    assert(u[i1].children[k1] == t[i1].children[k1]);
                }
                if !new2 {
                    assert(u[i2].children[k2] == t[i2].children[k2]);
                }
            }
            assert forall|i: int, k1: int, k2: int|
                0 <= i < n && 0 <= k1 < k2 < u[i].children.len() implies u[#[trigger] u[i].children[k1] as int].name
                    != u[#[trigger] u[i].children[k2] as int].name by {
                assert(u[i].children[k1] == t[i].children[k1]);
                if i == parent && k2 == t[i].children.len() {
                    assert(t[parent as int].children[k1] == u[i].children[k1]);
                } else {
                    assert(u[i].children[k2] == t[i].children[k2]);
                }
            }
            assert forall|i: int, k1: int, k2: int|
                0 <= i < n && 0 <= k1 < k2 < u[i].attributes.len() implies #[trigger] u[i].attributes[k1].0
                    != #[trigger] u[i].attributes[k2].0 by {
                assert(u[i].attributes == t[i].attributes);
            }
        }
        Some(idx)
    }
    /// Sets attribute `key` of node `n` to `value`: an existing key keeps
    /// its place, a new one goes after the others.
    pub fn set_attribute(&mut self, n: usize, key: String, value: String)
        requires
            old(self).wf(),
            n < old(self)@.len(),
        ensures
            final(self).wf(),
            final(self)@ == old(self)@.update(
                n as int,
                NodeView {
                    attributes: with_attribute(old(self)@[n as int].attributes, key@, value@),
                    ..old(self)@[n as int]
                },
            ),
    {
        let ghost t = self@;
        let ghost kv = key@;
        let ghost vv = value@;
        let mut node = self.nodes.remove(n);
        let ghost attrs = node@.attributes;
        assert(attrs == t[n as int].attributes);
        let mut pos: Option<usize> = None;
        let mut i: usize = 0;
        while i < node.attributes.len()
            invariant_except_break
                pos is None,
            invariant
                i <= node.attributes@.len(),
                attrs == node@.attributes,
                key_from(attrs, kv, i as int) == key_from(attrs, kv, 0),
                key@ == kv,
            ensures
                pos matches Some(j) ==> key_from(attrs, kv, 0) == Some(j as int),
                pos is None ==> key_from(attrs, kv, 0) is None,
            decreases node.attributes@.len() - i,
        {
            assert(attrs[i as int] == attr_view(node.attributes@[i as int]));
            if node.attributes[i].0 == key {
                pos = Some(i);
                break;
            }
            i = i + 1;
        }
        proof {
            lemma_key_from(attrs, kv, 0);
        }
        match pos {
            Some(j) => {
                node.attributes.set(j, (key, value));
                assert(node@.attributes =~= attrs.update(j as int, (kv, vv)));
                assert(key_from(attrs, kv, 0) == Some(j as int));
            },
            None => {
                node.attributes.push((key, value));
                assert(node@.attributes =~= attrs.push((kv, vv)));
                assert(key_from(attrs, kv, 0) is None);
            },
        }
        let ghost nv = node@;
        self.nodes.insert(n, node);
        proof {
            let na = with_attribute(attrs, kv, vv);
            assert(nv.attributes =~= na);
            let u = t.update(n as int, NodeView { attributes: na, ..t[n as int] });
            assert(self@ =~= u);
            assert forall|i: int, k1: int, k2: int|
                0 <= i < u.len() && 0 <= k1 < k2 < u[i].attributes.len() implies #[trigger] u[i].attributes[k1].0
                    != #[trigger] u[i].attributes[k2].0 by {
                if i == n {
                    match key_from(attrs, kv, 0) {
                        Some(j) => {
                            if k1 != j && k2 != j {
                                assert(t[i].attributes[k1].0 != t[i].attributes[k2].0);
                            } else if k1 == j {
                                assert(t[i].attributes[k1].0 != t[i].attributes[k2].0);
                            } else {
                                assert(t[i].attributes[k1].0 != t[i].attributes[k2].0);
                            }
                        },
                        None => {
                            if k2 < attrs.len() {
                                assert(t[i].attributes[k1].0 != t[i].attributes[k2].0);
                            }
                        },
                    }
                } else {
                    assert(u[i] == t[i]);
                }
            }
            assert forall|i: int, k: int| 0 <= i < u.len() && 0 <= k < u[i].children.len() implies i
                < #[trigger] u[i].children[k] < u.len() by {
                assert(u[i].children == t[i].children);
            }
            assert forall|j: int| 0 < j < u.len() implies #[trigger] has_parent(u, j) by {
                assert(has_parent(t, j));
                let (i, k) = choose|i: int, k: int|
                    0 <= i < t.len() && 0 <= k < t[i].children.len() && t[i].children[k] == j;
                assert(u[i].children == t[i].children);
            }
            assert forall|i1: int, k1: int, i2: int, k2: int|
                0 <= i1 < u.len() && 0 <= k1 < u[i1].children.len() && 0 <= i2 < u.len() && 0 <= k2
                    < u[i2].children.len() && #[trigger] u[i1].children[k1] == #[trigger] u[i2].children[k2]
                implies i1 == i2 && k1 == k2 by {
                assert(u[i1].children == t[i1].children);
                assert(u[i2].children == t[i2].children);
            }
            assert forall|i: int, k1: int, k2: int|
                0 <= i < u.len() && 0 <= k1 < k2 < u[i].children.len() implies u[#[trigger] u[i].children[k1] as int].name
                    != u[#[trigger] u[i].children[k2] as int].name by {
                assert(u[i].children == t[i].children);
                assert(u[u[i].children[k1] as int].name == t[t[i].children[k1] as int].name);
                assert(u[u[i].children[k2] as int].name == t[t[i].children[k2] as int].name);
            }
        }
    }
}

} // verus!
