//! The DOM that hydration walks, as plain values: each node's kind and text, and its
//! parent, first and last child and next sibling, as the DOM links them. A tree is built
//! from its root down, so a node's parent comes before it and its children and next
//! sibling after it.

use vstd::prelude::*;

verus! {

/// What a node is, with what hydration reads of it.
#[derive(Debug, Clone)]
pub enum NodeKind {
    /// An element: its tag name as the DOM gives it, and its `id` and `class` attributes.
    Element { tag: String, id: Option<String>, class: Option<String> },
    /// A text node and its text.
    Text(String),
    /// A comment and its text.
    Comment(String),
    /// The document.
    Document,
    /// A document fragment, which no view can cast to an element, a text or a comment.
    DocumentFragment,
    /// Any other node, by its node name.
    Other(String),
}

/// A node's kind, with its text as characters.
pub enum KindView {
    Element { tag: Seq<char>, id: Option<Seq<char>>, class: Option<Seq<char>> },
    Text(Seq<char>),
    Comment(Seq<char>),
    Document,
    DocumentFragment,
    Other(Seq<char>),
}

/// The text of an optional string.
pub open spec fn opt_view(text: Option<String>) -> Option<Seq<char>> {
    match text {
        Some(t) => Some(t@),
        None => None,
    }
}

impl View for NodeKind {
    type V = KindView;

    open spec fn view(&self) -> KindView {
        match self {
            NodeKind::Element { tag, id, class } => KindView::Element { tag: tag@, id: opt_view(*id), class: opt_view(*class) },
            NodeKind::Text(text) => KindView::Text(text@),
            NodeKind::Comment(text) => KindView::Comment(text@),
            NodeKind::Document => KindView::Document,
            NodeKind::DocumentFragment => KindView::DocumentFragment,
            NodeKind::Other(name) => KindView::Other(name@),
        }
    }
}

/// A node of the tree and its links.
#[derive(Debug)]
pub struct DomNode {
    kind: NodeKind,
    parent: Option<usize>,
    first_child: Option<usize>,
    last_child: Option<usize>,
    next_sibling: Option<usize>,
}

/// A node, as the tree's view holds it.
pub struct NodeView {
    pub kind: KindView,
    pub parent: Option<usize>,
    pub first_child: Option<usize>,
    pub last_child: Option<usize>,
    pub next_sibling: Option<usize>,
}

impl View for DomNode {
    type V = NodeView;

    closed spec fn view(&self) -> NodeView {
        NodeView {
            kind: self.kind@,
            parent: self.parent,
            first_child: self.first_child,
            last_child: self.last_child,
            next_sibling: self.next_sibling,
        }
    }
}

/// The DOM that hydration walks, and whether hydration has failed on it (after which the
/// walk stops reading it).
#[derive(Debug)]
pub struct DomTree {
    nodes: Vec<DomNode>,
    failed: bool,
}

/// The tree's nodes, and whether hydration has failed.
pub struct DomView {
    pub nodes: Seq<NodeView>,
    pub failed: bool,
}

impl View for DomTree {
    type V = DomView;

    closed spec fn view(&self) -> DomView {
        DomView { nodes: self.nodes@.map_values(|node: DomNode| node@), failed: self.failed }
    }
}

/// Whether `link` is absent or names a node after `i`.
pub open spec fn links_forward(link: Option<usize>, i: int, len: nat) -> bool {
    (link matches Some(k) ==> i < k < len)
}

/// What every tree keeps: fewer nodes than the largest `u32` (a DOM's child lists count
/// in `u32`); each node's parent before it; its children and next sibling after it; and
/// the last child of a node is a child of that node with no next sibling.
pub open spec fn dom_holds(t: DomView) -> bool {
    &&& t.nodes.len() < u32::MAX
    &&& forall|i: int| 0 <= i < t.nodes.len() ==> ((#[trigger] t.nodes[i]).parent matches Some(p) ==> p < i)
    &&& forall|i: int| 0 <= i < t.nodes.len() ==> links_forward((#[trigger] t.nodes[i]).first_child, i, t.nodes.len())
    &&& forall|i: int| 0 <= i < t.nodes.len() ==> links_forward((#[trigger] t.nodes[i]).last_child, i, t.nodes.len())
    &&& forall|i: int| 0 <= i < t.nodes.len() ==> links_forward((#[trigger] t.nodes[i]).next_sibling, i, t.nodes.len())
    &&& forall|i: int| 0 <= i < t.nodes.len() ==> ((#[trigger] t.nodes[i]).first_child is None <==> t.nodes[i].last_child is None)
    &&& forall|i: int|
        0 <= i < t.nodes.len() ==> ((#[trigger] t.nodes[i]).last_child matches Some(l) ==> t.nodes[l as int].next_sibling
            is None && t.nodes[l as int].parent == Some(i as usize))
}

/// A node of `t`, if `i` names one.
pub open spec fn node_at(t: DomView, i: int) -> Option<NodeView> {
    if 0 <= i < t.nodes.len() {
        Some(t.nodes[i])
    } else {
        None
    }
}

impl DomTree {
    /// What every tree keeps (see [`dom_holds`]).
    #[verifier::type_invariant]
    pub open spec fn holds(&self) -> bool {
        dom_holds(self@)
    }

    /// A tree of one node, its root (node 0), on which hydration has not failed.
    pub fn new(root: NodeKind) -> (tree: Self)
        ensures
            tree@.nodes == seq![
                NodeView { kind: root@, parent: None, first_child: None, last_child: None, next_sibling: None },
            ],
            !tree@.failed,
    {
        let mut nodes: Vec<DomNode> = Vec::new();
        nodes.push(DomNode { kind: root, parent: None, first_child: None, last_child: None, next_sibling: None });
        let tree = DomTree { nodes, failed: false };
        assert(tree@.nodes =~= seq![
            NodeView { kind: root@, parent: None, first_child: None, last_child: None, next_sibling: None },
        ]);
        tree
    }

    /// The number of nodes.
    pub fn len(&self) -> (n: usize)
        ensures
            n == self@.nodes.len(),
    {
        self.nodes.len()
    }

    /// The kind of node `i`, if there is one.
    pub fn kind(&self, i: usize) -> (kind: Option<&NodeKind>)
        ensures
            match kind {
                Some(k) => i < self@.nodes.len() && k@ == self@.nodes[i as int].kind,
                None => i >= self@.nodes.len(),
            },
    {
        if i < self.nodes.len() {
            Some(&self.nodes[i].kind)
        } else {
            None
        }
    }

    /// The parent of node `i`, if it has one.
    pub fn parent(&self, i: usize) -> (parent: Option<usize>)
        ensures
            parent == (match node_at(self@, i as int) {
                Some(node) => node.parent,
                None => None,
            }),
    {
        if i < self.nodes.len() {
            self.nodes[i].parent
        } else {
            None
        }
    }

    /// The first child of node `i`, if it has one.
    pub fn first_child(&self, i: usize) -> (child: Option<usize>)
        ensures
            child == (match node_at(self@, i as int) {
                Some(node) => node.first_child,
                None => None,
            }),
    {
        if i < self.nodes.len() {
            self.nodes[i].first_child
        } else {
            None
        }
    }

    /// The next sibling of node `i`, if it has one.
    pub fn next_sibling(&self, i: usize) -> (sibling: Option<usize>)
        ensures
            sibling == (match node_at(self@, i as int) {
                Some(node) => node.next_sibling,
                None => None,
            }),
    {
        if i < self.nodes.len() {
            self.nodes[i].next_sibling
        } else {
            None
        }
    }

    /// Whether a hydration mismatch has been found since the flag was last taken.
    pub fn failed(&self) -> (failed: bool)
        ensures
            failed == self@.failed,
    {
        self.failed
    }

    /// Marks hydration as failed.
    pub fn set_failed(&mut self)
        ensures
            final(self)@ == (DomView { failed: true, ..old(self)@ }),
    {
        proof {
            use_type_invariant(&*self);
        }
        self.failed = true;
    }

    /// Returns whether hydration had failed, and clears the flag.
    pub fn take_failed(&mut self) -> (failed: bool)
        ensures
            failed == old(self)@.failed,
            final(self)@ == (DomView { failed: false, ..old(self)@ }),
    {
        proof {
            use_type_invariant(&*self);
        }
        let failed = self.failed;
        self.failed = false;
        failed
    }

    /// Appends `kind` as the last child of `parent`, and returns the new node's index; or
    /// returns `None`, and leaves the tree as it is, if `parent` is not a node or the tree
    /// is full.
    pub fn append_child(&mut self, parent: usize, kind: NodeKind) -> (added: Option<usize>)
        ensures
            final(self)@.failed == old(self)@.failed,
            added is None <==> (parent >= old(self)@.nodes.len() || old(self)@.nodes.len() + 1 >= u32::MAX),
            added is None ==> final(self)@ == old(self)@,
            added matches Some(n) ==> n == old(self)@.nodes.len() && final(self)@.nodes == appended(
                old(self)@.nodes,
                parent as int,
                kind@,
            ),
    {
        proof {
            use_type_invariant(&*self);
        }
        let n = self.nodes.len();
        if parent >= n || n >= 4294967294 {
            return None;
        }
        let ghost old_nodes = self@.nodes;
        let ghost p = old_nodes[parent as int];
        let mut nodes: Vec<DomNode> = Vec::new();
        std::mem::swap(&mut nodes, &mut self.nodes);
        match nodes[parent].last_child {
            Some(l) => {
                let mut last = nodes.remove(l);
                last.next_sibling = Some(n);
                nodes.insert(l, last);
            },
            None => {},
        }
        assert(nodes@.map_values(|node: DomNode| node@) =~= sibling_linked(old_nodes, parent as int));
        let mut owner = nodes.remove(parent);
        if owner.first_child.is_none() {
            owner.first_child = Some(n);
        }
        owner.last_child = Some(n);
        nodes.insert(parent, owner);
        nodes.push(DomNode { kind, parent: Some(parent), first_child: None, last_child: None, next_sibling: None });
        assert(nodes@.map_values(|node: DomNode| node@) =~= appended(old_nodes, parent as int, kind@));
        proof {
            lemma_appended_holds(old_nodes, parent as int, kind@, self.failed);
        }
        self.nodes = nodes;
        Some(n)
    }
}

/// `nodes` with the last child of `parent`, if it has one, linked to a new node at the end.
pub open spec fn sibling_linked(nodes: Seq<NodeView>, parent: int) -> Seq<NodeView> {
    match nodes[parent].last_child {
        Some(l) => nodes.update(l as int, NodeView { next_sibling: Some(nodes.len() as usize), ..nodes[l as int] }),
        None => nodes,
    }
}

/// `nodes` with a node of kind `kind` appended as the last child of `parent`.
pub open spec fn appended(nodes: Seq<NodeView>, parent: int, kind: KindView) -> Seq<NodeView> {
    let n = nodes.len() as usize;
    let linked = sibling_linked(nodes, parent);
    linked.update(
        parent,
        NodeView {
            first_child: if nodes[parent].first_child is None {
                Some(n)
            } else {
                nodes[parent].first_child
            },
            last_child: Some(n),
            ..linked[parent]
        },
    ).push(NodeView { kind, parent: Some(parent as usize), first_child: None, last_child: None, next_sibling: None })
}

/// Appending a child keeps what every tree keeps.
proof fn lemma_appended_holds(nodes: Seq<NodeView>, parent: int, kind: KindView, failed: bool)
    requires
        dom_holds(DomView { nodes, failed }),
        0 <= parent < nodes.len(),
        nodes.len() + 1 < u32::MAX,
    ensures
        dom_holds(DomView { nodes: appended(nodes, parent, kind), failed }),
{
    let n = nodes.len();
    let after = appended(nodes, parent, kind);
    let pl = nodes[parent].last_child;
    assert forall|k: int| 0 <= k < n implies {
        &&& (#[trigger] after[k]).parent == nodes[k].parent
        &&& after[k].kind == nodes[k].kind
        &&& after[k].next_sibling == (if pl == Some(k as usize) {
            Some(n as usize)
        } else {
            nodes[k].next_sibling
        })
        &&& after[k].last_child == (if k == parent {
            Some(n as usize)
        } else {
            nodes[k].last_child
        })
        &&& after[k].first_child == (if k == parent && nodes[k].first_child is None {
            Some(n as usize)
        } else {
            nodes[k].first_child
        })
    } by {
        if let Some(l) = pl {
            assert(nodes[l as int].parent == Some(parent as usize));
            assert(l != parent);
        }
    }
    assert forall|i: int| 0 <= i < after.len() implies ((#[trigger] after[i]).last_child matches Some(l) ==> after[l as int].next_sibling
        is None && after[l as int].parent == Some(i as usize)) by {
        if i < n {
            if let Some(l) = after[i].last_child {
                if i != parent {
                    assert(nodes[l as int].parent == Some(i as usize));
                    if pl == Some(l) {
                        assert(nodes[l as int].parent == Some(parent as usize));
                    }
                }
            }
        }
    }
    assert forall|i: int| 0 <= i < after.len() implies ((#[trigger] after[i]).parent matches Some(q) ==> q < i) by {}
    assert forall|i: int| 0 <= i < after.len() implies links_forward((#[trigger] after[i]).first_child, i, after.len()) by {}
    assert forall|i: int| 0 <= i < after.len() implies links_forward((#[trigger] after[i]).last_child, i, after.len()) by {}
    assert forall|i: int| 0 <= i < after.len() implies links_forward((#[trigger] after[i]).next_sibling, i, after.len()) by {
        if i < n && pl == Some(i as usize) {
        }
    }
    assert forall|i: int| 0 <= i < after.len() implies ((#[trigger] after[i]).first_child is None <==> after[i].last_child is None) by {}
}

} // verus!
