//! The nodes of the layout tree and the mathematical model of the tree: a map
//! from handles to nodes, in which every node names its parent and every
//! container lists its children.

use crate::allocator::NodeId;
use crate::layout::geometry::{Axis, Constraint, Rect};
use crate::widget::WidgetId;
use vstd::prelude::*;

verus! {

/// A window of the tree: it shows one widget and can hold the focus.
pub struct Leaf {
    pub widget: WidgetId,
    pub parent: Option<NodeId>,
}

/// A node that arranges its children along one axis.
#[derive(Debug)]
pub struct Container {
    pub direction: Axis,
    pub size: Option<Constraint>,
    pub children: Vec<NodeId>,
    pub parent: Option<NodeId>,
}

/// A window outside the flow of the tree, placed by its own rectangle.
pub struct Floating {
    /// The widget to be rendered
    pub widget: WidgetId,
    /// Position and size of the floating window
    pub pos: Rect,
    /// Z-index of the window (only applies when not focused)
    pub z_index: usize,
}

/// A node of the layout: a container, a leaf, or a floating window.
pub enum LayoutNode {
    Container(Container),
    Leaf(Leaf),
    Floating(Floating),
}

impl Leaf {
    /// A leaf that shows `widget` and has no parent.
    pub fn new(widget: WidgetId) -> (l: Self)
        ensures
            l.widget == widget,
            l.parent is None,
    {
        Self { widget, parent: None }
    }

    /// A leaf that shows `widget` and has no parent.
    pub fn from_widget(widget: WidgetId) -> (l: Self)
        ensures
            l.widget == widget,
            l.parent is None,
    {
        Self { widget, parent: None }
    }
}

impl Clone for Leaf {
    /// A leaf that shows the same widget. The copy has no parent: where it
    /// goes in the tree is decided apart.
    fn clone(&self) -> (l: Self)
        ensures
            l.widget == self.widget,
            l.parent is None,
    {
        Self { widget: self.widget, parent: None }
    }
}

impl LayoutNode {
    /// Whether the node is a leaf.
    pub fn is_leaf(&self) -> (b: bool)
        ensures
            b == (*self is Leaf),
    {
        match self {
            Self::Leaf(_) => true,
            _ => false,
        }
    }

    /// Whether the node is a container.
    pub fn is_container(&self) -> (b: bool)
        ensures
            b == (*self is Container),
    {
        match self {
            Self::Container(_) => true,
            _ => false,
        }
    }

    /// Whether the node is a floating window.
    pub fn is_floating(&self) -> (b: bool)
        ensures
            b == (*self is Floating),
    {
        match self {
            Self::Floating(_) => true,
            _ => false,
        }
    }

    /// The leaf, if the node is one.
    pub fn leaf(&self) -> (r: Option<&Leaf>)
        ensures
            r == match *self {
                LayoutNode::Leaf(l) => Some(&l),
                _ => None,
            },
    {
        match self {
            Self::Leaf(leaf) => Some(leaf),
            _ => None,
        }
    }

    /// The container, if the node is one.
    pub fn container(&self) -> (r: Option<&Container>)
        ensures
            r == match *self {
                LayoutNode::Container(c) => Some(&c),
                _ => None,
            },
    {
        match self {
            Self::Container(container) => Some(container),
            _ => None,
        }
    }

    /// The floating window, if the node is one.
    pub fn floating(&self) -> (r: Option<&Floating>)
        ensures
            r == match *self {
                LayoutNode::Floating(f) => Some(&f),
                _ => None,
            },
    {
        match self {
            Self::Floating(floating) => Some(floating),
            _ => None,
        }
    }

    /// The widget that the node shows, if it shows one.
    pub fn widget(&self) -> (r: Option<WidgetId>)
        ensures
            r == match *self {
                LayoutNode::Leaf(l) => Some(l.widget),
                LayoutNode::Floating(f) => Some(f.widget),
                LayoutNode::Container(_) => None,
            },
    {
        match self {
            Self::Leaf(leaf) => Some(leaf.widget),
            Self::Floating(float) => Some(float.widget),
            Self::Container(_) => None,
        }
    }
}

/// What a node is, with the children of a container as a sequence.
pub enum NodeView {
    Container { direction: Axis, size: Option<Constraint>, children: Seq<NodeId>, parent: Option<NodeId> },
    Leaf { widget: WidgetId, parent: Option<NodeId> },
    Floating { widget: WidgetId, pos: Rect, z_index: usize },
}

impl View for LayoutNode {
    type V = NodeView;

    open spec fn view(&self) -> NodeView {
        match *self {
            LayoutNode::Container(c) => NodeView::Container {
                direction: c.direction,
                size: c.size,
                children: c.children@,
                parent: c.parent,
            },
            LayoutNode::Leaf(l) => NodeView::Leaf { widget: l.widget, parent: l.parent },
            LayoutNode::Floating(f) => NodeView::Floating {
                widget: f.widget,
                pos: f.pos,
                z_index: f.z_index,
            },
        }
    }
}

/// The nodes of a layout by handle.
pub type Tree = Map<NodeId, NodeView>;

/// The model of an arena of nodes.
pub open spec fn tree_of(nodes: Map<NodeId, LayoutNode>) -> Tree {
    Map::new(|k: NodeId| nodes.contains_key(k), |k: NodeId| nodes[k]@)
}

/// Whether `n` is a container of the tree.
pub open spec fn is_container(t: Tree, n: NodeId) -> bool {
    t.contains_key(n) && t[n] is Container
}

/// Whether `n` is a leaf of the tree.
pub open spec fn is_leaf(t: Tree, n: NodeId) -> bool {
    t.contains_key(n) && t[n] is Leaf
}

/// Whether `n` is a floating window of the tree.
pub open spec fn is_floating(t: Tree, n: NodeId) -> bool {
    t.contains_key(n) && t[n] is Floating
}

/// The parent that node `n` names, if it names one.
pub open spec fn parent_of(t: Tree, n: NodeId) -> Option<NodeId> {
    if t.contains_key(n) {
        match t[n] {
            NodeView::Container { parent, .. } => parent,
            NodeView::Leaf { parent, .. } => parent,
            NodeView::Floating { .. } => None,
        }
    } else {
        None
    }
}

/// The children of node `n`, in order; none where `n` is no container.
pub open spec fn children_of(t: Tree, n: NodeId) -> Seq<NodeId> {
    if t.contains_key(n) {
        match t[n] {
            NodeView::Container { children, .. } => children,
            _ => Seq::empty(),
        }
    } else {
        Seq::empty()
    }
}

/// The widget that node `n` shows, if it shows one.
pub open spec fn widget_of(t: Tree, n: NodeId) -> Option<WidgetId> {
    if t.contains_key(n) {
        match t[n] {
            NodeView::Leaf { widget, .. } => Some(widget),
            NodeView::Floating { widget, .. } => Some(widget),
            NodeView::Container { .. } => None,
        }
    } else {
        None
    }
}

/// The z-index by which node `n` is ordered among floating windows.
pub open spec fn z_of(t: Tree, n: NodeId) -> usize {
    if t.contains_key(n) {
        match t[n] {
            NodeView::Floating { z_index, .. } => z_index,
            _ => 1,
        }
    } else {
        1
    }
}

/// The node with another parent.
pub open spec fn with_parent(v: NodeView, p: Option<NodeId>) -> NodeView {
    match v {
        NodeView::Container { direction, size, children, parent } => NodeView::Container {
            direction,
            size,
            children,
            parent: p,
        },
        NodeView::Leaf { widget, parent } => NodeView::Leaf { widget, parent: p },
        NodeView::Floating { widget, pos, z_index } => v,
    }
}

/// The node with other children.
pub open spec fn with_children(v: NodeView, cs: Seq<NodeId>) -> NodeView {
    match v {
        NodeView::Container { direction, size, children, parent } => NodeView::Container {
            direction,
            size,
            children: cs,
            parent,
        },
        _ => v,
    }
}

/// Every child of a container is a live node of the flow that names the
/// container as its parent.
pub open spec fn edges_ok(t: Tree) -> bool {
    forall|c: NodeId, i: int|
        #![trigger children_of(t, c)[i]]
        0 <= i < children_of(t, c).len() ==> {
            &&& t.contains_key(children_of(t, c)[i])
            &&& !(t[children_of(t, c)[i]] is Floating)
            &&& parent_of(t, children_of(t, c)[i]) == Some(c)
        }
}

/// No container lists a child twice.
pub open spec fn children_distinct(t: Tree) -> bool {
    forall|c: NodeId, i: int, j: int|
        #![trigger children_of(t, c)[i], children_of(t, c)[j]]
        0 <= i < j < children_of(t, c).len() ==> children_of(t, c)[i] != children_of(t, c)[j]
}

/// The parent that a node names is a container that lists the node.
pub open spec fn parents_ok(t: Tree) -> bool {
    forall|n: NodeId|
        (#[trigger] parent_of(t, n)) is Some ==> {
            &&& is_container(t, parent_of(t, n)->0)
            &&& children_of(t, parent_of(t, n)->0).contains(n)
        }
}

/// `depth` numbers the nodes so that every node lies deeper than its parent,
/// and none as deep as `limit`: the parent links form no cycle.
pub open spec fn ranked(t: Tree, depth: spec_fn(NodeId) -> nat, limit: nat) -> bool {
    forall|n: NodeId| #[trigger]
        t.contains_key(n) ==> {
            &&& depth(n) < limit
            &&& parent_of(t, n) is Some ==> depth(parent_of(t, n)->0) < depth(n)
        }
}

/// The nodes form a forest in which `root` is a container without a parent.
pub open spec fn tree_wf(t: Tree, root: NodeId, depth: spec_fn(NodeId) -> nat, limit: nat) -> bool {
    &&& is_container(t, root)
    &&& parent_of(t, root) is None
    &&& edges_ok(t)
    &&& children_distinct(t)
    &&& parents_ok(t)
    &&& ranked(t, depth, limit)
}

/// Whether `a` is `n` or lies on the chain of parents above `n`.
pub open spec fn ancestor_or_self(t: Tree, depth: spec_fn(NodeId) -> nat, a: NodeId, n: NodeId) -> bool
    decreases depth(n),
{
    n == a || match parent_of(t, n) {
        Some(p) => depth(p) < depth(n) && ancestor_or_self(t, depth, a, p),
        None => false,
    }
}

/// The numbering in which `c` and all below it lie `delta` deeper.
pub open spec fn sunk(t: Tree, depth: spec_fn(NodeId) -> nat, c: NodeId, delta: nat) -> spec_fn(
    NodeId,
) -> nat {
    |n: NodeId|
        if ancestor_or_self(t, depth, c, n) {
            depth(n) + delta
        } else {
            depth(n)
        }
}

/// The tree with one more node, which has neither parent nor children.
pub open spec fn with_node(t: Tree, id: NodeId, v: NodeView) -> Tree {
    t.insert(id, v)
}

/// Whether `v` is a node as it is first put into the tree.
pub open spec fn is_fresh_node(v: NodeView) -> bool {
    match v {
        NodeView::Container { children, parent, .. } => children.len() == 0 && parent is None,
        NodeView::Leaf { parent, .. } => parent is None,
        NodeView::Floating { .. } => true,
    }
}

/// Whether container `p` can take `c` as a child: `c` is a node of the flow
/// without a parent, it is not the root, and `p` does not lie below it.
pub open spec fn can_adopt(
    t: Tree,
    root: NodeId,
    depth: spec_fn(NodeId) -> nat,
    p: NodeId,
    c: NodeId,
) -> bool {
    &&& is_container(t, p)
    &&& t.contains_key(c)
    &&& !(t[c] is Floating)
    &&& parent_of(t, c) is None
    &&& c != root
    &&& !ancestor_or_self(t, depth, c, p)
}

/// The tree in which `c` has become the child at place `i` of container `p`.
pub open spec fn attached(t: Tree, p: NodeId, c: NodeId, i: int) -> Tree {
    t.insert(p, with_children(t[p], children_of(t, p).insert(i, c))).insert(
        c,
        with_parent(t[c], Some(p)),
    )
}

/// The tree in which the child at place `i` of container `p` has been taken
/// out of `p`; the child stays in the tree, without a parent.
pub open spec fn detached(t: Tree, p: NodeId, i: int) -> Tree {
    t.insert(p, with_children(t[p], children_of(t, p).remove(i))).insert(
        children_of(t, p)[i],
        with_parent(t[children_of(t, p)[i]], None),
    )
}

/// A node that is put into the tree on its own leaves the tree well formed.
pub proof fn lemma_with_node(
    t: Tree,
    root: NodeId,
    depth: spec_fn(NodeId) -> nat,
    limit: nat,
    id: NodeId,
    v: NodeView,
)
    requires
        tree_wf(t, root, depth, limit),
        !t.contains_key(id),
        is_fresh_node(v),
        limit > 0,
    ensures
        tree_wf(with_node(t, id, v), root, |n: NodeId| if n == id { 0nat } else { depth(n) }, limit),
        forall|n: NodeId| n != id ==> parent_of(with_node(t, id, v), n) == parent_of(t, n),
        forall|n: NodeId| n != id ==> children_of(with_node(t, id, v), n) == children_of(t, n),
{
    let t2 = with_node(t, id, v);
    let d2 = |n: NodeId| if n == id { 0nat } else { depth(n) };
    assert forall|n: NodeId| n != id implies parent_of(t2, n) == parent_of(t, n) by {}
    assert forall|n: NodeId| n != id implies children_of(t2, n) == children_of(t, n) by {}
    assert(children_of(t2, id).len() == 0);
    assert forall|c: NodeId, i: int|
        #![trigger children_of(t2, c)[i]]
        0 <= i < children_of(t2, c).len() implies {
        &&& t2.contains_key(children_of(t2, c)[i])
        &&& !(t2[children_of(t2, c)[i]] is Floating)
        &&& parent_of(t2, children_of(t2, c)[i]) == Some(c)
    } by {
        assert(c != id);
        let ch = children_of(t, c)[i];
        assert(t.contains_key(ch));
    }
    assert forall|n: NodeId| (#[trigger] parent_of(t2, n)) is Some implies {
        &&& is_container(t2, parent_of(t2, n)->0)
        &&& children_of(t2, parent_of(t2, n)->0).contains(n)
    } by {
        assert(n != id);
        assert(parent_of(t, n) is Some);
        assert(parent_of(t, n)->0 != id);
    }
    assert forall|n: NodeId| #[trigger] t2.contains_key(n) implies {
        &&& d2(n) < limit
        &&& parent_of(t2, n) is Some ==> d2(parent_of(t2, n)->0) < d2(n)
    } by {
        if n != id {
            assert(t.contains_key(n));
            if parent_of(t, n) is Some {
                assert(parent_of(t, n)->0 != id);
            }
        }
    }
}

/// A change to a node that keeps its parent and its children keeps the tree
/// well formed.
pub proof fn lemma_same_links(
    t: Tree,
    t2: Tree,
    root: NodeId,
    depth: spec_fn(NodeId) -> nat,
    limit: nat,
)
    requires
        tree_wf(t, root, depth, limit),
        t2.dom() == t.dom(),
        forall|n: NodeId| #[trigger]
            t.contains_key(n) ==> {
                &&& parent_of(t2, n) == parent_of(t, n)
                &&& children_of(t2, n) == children_of(t, n)
                &&& (t2[n] is Container) == (t[n] is Container)
                &&& t2[n] is Floating ==> t[n] is Floating
            },
    ensures
        tree_wf(t2, root, depth, limit),
{
    assert forall|n: NodeId| parent_of(t2, n) == parent_of(t, n) by {
        if t.contains_key(n) {
        }
    }
    assert forall|n: NodeId| children_of(t2, n) == children_of(t, n) by {
        if t.contains_key(n) {
        }
    }
    assert forall|c: NodeId, i: int|
        #![trigger children_of(t2, c)[i]]
        0 <= i < children_of(t2, c).len() implies {
        &&& t2.contains_key(children_of(t2, c)[i])
        &&& !(t2[children_of(t2, c)[i]] is Floating)
        &&& parent_of(t2, children_of(t2, c)[i]) == Some(c)
    } by {
        let ch = children_of(t, c)[i];
        assert(t.contains_key(ch));
    }
    assert forall|n: NodeId| (#[trigger] parent_of(t2, n)) is Some implies {
        &&& is_container(t2, parent_of(t2, n)->0)
        &&& children_of(t2, parent_of(t2, n)->0).contains(n)
    } by {
        assert(parent_of(t, n) is Some);
    }
    assert forall|n: NodeId| #[trigger] t2.contains_key(n) implies {
        &&& depth(n) < limit
        &&& parent_of(t2, n) is Some ==> depth(parent_of(t2, n)->0) < depth(n)
    } by {
        assert(t.contains_key(n));
    }
}

/// Taking a child out of its container leaves the tree well formed.
pub proof fn lemma_detached(
    t: Tree,
    root: NodeId,
    depth: spec_fn(NodeId) -> nat,
    limit: nat,
    p: NodeId,
    i: int,
)
    requires
        tree_wf(t, root, depth, limit),
        0 <= i < children_of(t, p).len(),
    ensures
        tree_wf(detached(t, p, i), root, depth, limit),
        detached(t, p, i).dom() == t.dom(),
        children_of(detached(t, p, i), p) == children_of(t, p).remove(i),
        parent_of(detached(t, p, i), children_of(t, p)[i]) is None,
        forall|n: NodeId|
            n != children_of(t, p)[i] ==> parent_of(detached(t, p, i), n) == parent_of(t, n),
        forall|n: NodeId| n != p ==> children_of(detached(t, p, i), n) == children_of(t, n),
{
    let c = children_of(t, p)[i];
    let t2 = detached(t, p, i);
    let ch = children_of(t, p);
    assert(t.contains_key(c) && parent_of(t, c) == Some(p));
    assert(is_container(t, p));
    assert(depth(p) < depth(c));
    assert(c != p);
    assert(c != root);
    assert(t2.dom() =~= t.dom());
    assert(children_of(t2, p) == ch.remove(i));
    assert forall|n: NodeId| n != c implies parent_of(t2, n) == parent_of(t, n) by {}
    assert forall|n: NodeId| n != p implies children_of(t2, n) == children_of(t, n) by {}
    assert forall|x: NodeId, j: int|
        #![trigger children_of(t2, x)[j]]
        0 <= j < children_of(t2, x).len() implies {
        &&& t2.contains_key(children_of(t2, x)[j])
        &&& !(t2[children_of(t2, x)[j]] is Floating)
        &&& parent_of(t2, children_of(t2, x)[j]) == Some(x)
    } by {
        if x == p {
            let k = if j < i { j } else { j + 1 };
            assert(children_of(t2, x)[j] == ch[k]);
            assert(ch[k] != c);
            assert(t.contains_key(ch[k]));
        } else {
            let y = children_of(t, x)[j];
            assert(t.contains_key(y));
            assert(y != c);
        }
    }
    assert forall|x: NodeId, j: int, k: int|
        #![trigger children_of(t2, x)[j], children_of(t2, x)[k]]
        0 <= j < k < children_of(t2, x).len() implies children_of(t2, x)[j] != children_of(
        t2,
        x,
    )[k] by {
        if x == p {
            let j2 = if j < i { j } else { j + 1 };
            let k2 = if k < i { k } else { k + 1 };
            assert(children_of(t2, x)[j] == ch[j2]);
            assert(children_of(t2, x)[k] == ch[k2]);
        } else {
            assert(children_of(t, x)[j] != children_of(t, x)[k]);
        }
    }
    assert forall|n: NodeId| (#[trigger] parent_of(t2, n)) is Some implies {
        &&& is_container(t2, parent_of(t2, n)->0)
        &&& children_of(t2, parent_of(t2, n)->0).contains(n)
    } by {
        assert(n != c);
        let q = parent_of(t, n)->0;
        assert(parent_of(t, n) is Some);
        assert(children_of(t, q).contains(n));
        let k = choose|k: int| 0 <= k < children_of(t, q).len() && children_of(t, q)[k] == n;
        if q == p {
            assert(k != i);
            let k2 = if k < i { k } else { k - 1 };
            assert(children_of(t2, q)[k2] == n);
        } else {
            assert(children_of(t2, q)[k] == n);
        }
    }
    assert forall|n: NodeId| #[trigger] t2.contains_key(n) implies {
        &&& depth(n) < limit
        &&& parent_of(t2, n) is Some ==> depth(parent_of(t2, n)->0) < depth(n)
    } by {
        assert(t.contains_key(n));
    }
}

/// Making a parentless node a child of a container that does not lie below it
/// leaves the tree well formed, once the node and all below it are numbered
/// deeper than the container.
pub proof fn lemma_attached(
    t: Tree,
    root: NodeId,
    depth: spec_fn(NodeId) -> nat,
    limit: nat,
    p: NodeId,
    c: NodeId,
    i: int,
)
    requires
        tree_wf(t, root, depth, limit),
        can_adopt(t, root, depth, p, c),
        0 <= i <= children_of(t, p).len(),
    ensures
        tree_wf(
            attached(t, p, c, i),
            root,
            sunk(t, depth, c, depth(p) + 1),
            limit + depth(p) + 1,
        ),
        attached(t, p, c, i).dom() == t.dom(),
        children_of(attached(t, p, c, i), p) == children_of(t, p).insert(i, c),
        parent_of(attached(t, p, c, i), c) == Some(p),
        forall|n: NodeId| n != c ==> parent_of(attached(t, p, c, i), n) == parent_of(t, n),
        forall|n: NodeId| n != p ==> children_of(attached(t, p, c, i), n) == children_of(t, n),
{
    let t2 = attached(t, p, c, i);
    let ch = children_of(t, p);
    let delta = depth(p) + 1;
    let d2 = sunk(t, depth, c, delta);
    let limit2 = limit + delta;
    assert(c != p);
    assert(t2.dom() =~= t.dom());
    assert(children_of(t2, p) == ch.insert(i, c));
    assert(parent_of(t2, c) == Some(p));
    assert forall|n: NodeId| n != c implies parent_of(t2, n) == parent_of(t, n) by {}
    assert forall|n: NodeId| n != p implies children_of(t2, n) == children_of(t, n) by {}
    // No child of any container is `c`, which has had no parent.
    assert forall|x: NodeId, j: int| 0 <= j < children_of(t, x).len() implies #[trigger] children_of(
        t,
        x,
    )[j] != c by {
        assert(parent_of(t, children_of(t, x)[j]) == Some(x));
    }
    assert forall|x: NodeId, j: int|
        #![trigger children_of(t2, x)[j]]
        0 <= j < children_of(t2, x).len() implies {
        &&& t2.contains_key(children_of(t2, x)[j])
        &&& !(t2[children_of(t2, x)[j]] is Floating)
        &&& parent_of(t2, children_of(t2, x)[j]) == Some(x)
    } by {
        if x == p {
            if j == i {
            } else {
                let k = if j < i { j } else { j - 1 };
                assert(children_of(t2, x)[j] == ch[k]);
                assert(t.contains_key(ch[k]));
                assert(ch[k] != c);
            }
        } else {
            let y = children_of(t, x)[j];
            assert(t.contains_key(y));
            assert(y != c);
            assert(parent_of(t, y) == Some(x));
        }
    }
    assert forall|x: NodeId, j: int, k: int|
        #![trigger children_of(t2, x)[j], children_of(t2, x)[k]]
        0 <= j < k < children_of(t2, x).len() implies children_of(t2, x)[j] != children_of(
        t2,
        x,
    )[k] by {
        if x == p {
            let j2 = if j < i { j } else { j - 1 };
            let k2 = if k < i { k } else { k - 1 };
            if j != i && k != i {
                assert(children_of(t2, x)[j] == ch[j2]);
                assert(children_of(t2, x)[k] == ch[k2]);
            } else if j == i {
                assert(children_of(t2, x)[k] == ch[k2]);
            } else {
                assert(children_of(t2, x)[j] == ch[j2]);
            }
        } else {
            assert(children_of(t, x)[j] != children_of(t, x)[k]);
        }
    }
    assert forall|n: NodeId| (#[trigger] parent_of(t2, n)) is Some implies {
        &&& is_container(t2, parent_of(t2, n)->0)
        &&& children_of(t2, parent_of(t2, n)->0).contains(n)
    } by {
        if n == c {
            assert(children_of(t2, p)[i] == c);
        } else {
            let q = parent_of(t, n)->0;
            assert(parent_of(t, n) is Some);
            assert(children_of(t, q).contains(n));
            let k = choose|k: int| 0 <= k < children_of(t, q).len() && children_of(t, q)[k] == n;
            if q == p {
                let k2 = if k < i { k } else { k + 1 };
                assert(children_of(t2, q)[k2] == n);
            } else {
                assert(children_of(t2, q)[k] == n);
            }
        }
    }
    assert forall|n: NodeId| #[trigger] t2.contains_key(n) implies {
        &&& d2(n) < limit2
        &&& parent_of(t2, n) is Some ==> d2(parent_of(t2, n)->0) < d2(n)
    } by {
        assert(t.contains_key(n));
        if n == c {
            assert(ancestor_or_self(t, depth, c, c));
            assert(!ancestor_or_self(t, depth, c, p));
        } else if parent_of(t, n) is Some {
            let q = parent_of(t, n)->0;
            assert(depth(q) < depth(n));
            assert(ancestor_or_self(t, depth, c, n) == ancestor_or_self(t, depth, c, q));
        }
    }
}

/// Whatever lies above a node is numbered no deeper than the node.
pub proof fn lemma_above_is_no_deeper(t: Tree, depth: spec_fn(NodeId) -> nat, a: NodeId, n: NodeId)
    requires
        ancestor_or_self(t, depth, a, n),
    ensures
        depth(a) <= depth(n),
    decreases depth(n),
{
    if n != a {
        lemma_above_is_no_deeper(t, depth, a, parent_of(t, n)->0);
    }
}

/// A node without children lies above nothing but itself.
pub proof fn lemma_childless_is_above_nothing(
    t: Tree,
    root: NodeId,
    depth: spec_fn(NodeId) -> nat,
    limit: nat,
    a: NodeId,
    n: NodeId,
)
    requires
        tree_wf(t, root, depth, limit),
        children_of(t, a).len() == 0,
        ancestor_or_self(t, depth, a, n),
    ensures
        n == a,
    decreases depth(n),
{
    if n != a {
        let p = parent_of(t, n)->0;
        lemma_childless_is_above_nothing(t, root, depth, limit, a, p);
        assert(children_of(t, p).contains(n));
    }
}

/// What lies above a node depends only on the parents named along the chain
/// above it, not on the numbering.
pub proof fn lemma_above_depends_on_chain(
    t: Tree,
    depth: spec_fn(NodeId) -> nat,
    limit: nat,
    t2: Tree,
    depth2: spec_fn(NodeId) -> nat,
    limit2: nat,
    a: NodeId,
    n: NodeId,
)
    requires
        ranked(t, depth, limit),
        ranked(t2, depth2, limit2),
        forall|x: NodeId| #[trigger]
            ancestor_or_self(t, depth, x, n) ==> parent_of(t2, x) == parent_of(t, x),
    ensures
        ancestor_or_self(t2, depth2, a, n) == ancestor_or_self(t, depth, a, n),
    decreases depth(n),
{
    assert(ancestor_or_self(t, depth, n, n));
    if n != a && parent_of(t, n) is Some {
        let p = parent_of(t, n)->0;
        assert(t.contains_key(n));
        assert(t2.contains_key(n));
        assert forall|x: NodeId| #[trigger] ancestor_or_self(t, depth, x, p) implies parent_of(
            t2,
            x,
        ) == parent_of(t, x) by {
            assert(ancestor_or_self(t, depth, x, n));
        }
        lemma_above_depends_on_chain(t, depth, limit, t2, depth2, limit2, a, p);
    }
}

/// The floating windows stay in order while the floating nodes stay as they are.
pub proof fn lemma_floats_untouched(s: Seq<NodeId>, t: Tree, t2: Tree)
    requires
        forall|x: NodeId| is_floating(t, x) ==> #[trigger] t2.contains_key(x) && t2[x] == t[x],
        forall|i: int| 0 <= i < s.len() ==> is_floating(t, #[trigger] s[i]),
        crate::layout::floating::front_to_back(s, t),
    ensures
        crate::layout::floating::front_to_back(s, t2),
{
    assert forall|i: int, j: int| 0 <= i < j < s.len() implies z_of(t2, s[i]) >= z_of(t2, s[j]) by {
        assert(is_floating(t, s[i]));
        assert(is_floating(t, s[j]));
        assert(t2.contains_key(s[i]));
        assert(t2.contains_key(s[j]));
    }
}

/// A container can take a parentless node of the flow that has no children
/// and is not the container itself.
pub proof fn lemma_adopt_childless(
    t: Tree,
    root: NodeId,
    depth: spec_fn(NodeId) -> nat,
    limit: nat,
    p: NodeId,
    c: NodeId,
)
    requires
        tree_wf(t, root, depth, limit),
        is_container(t, p),
        t.contains_key(c),
        !(t[c] is Floating),
        parent_of(t, c) is None,
        c != root,
        c != p,
        children_of(t, c).len() == 0,
    ensures
        can_adopt(t, root, depth, p, c),
{
    if ancestor_or_self(t, depth, c, p) {
        lemma_childless_is_above_nothing(t, root, depth, limit, c, p);
    }
}

/// A node that was taken out of a container `p` can become the child of a
/// container `new` that has meanwhile been put under `p` in its place.
pub proof fn lemma_adopt_former_child(
    t: Tree,
    root: NodeId,
    depth: spec_fn(NodeId) -> nat,
    limit: nat,
    t2: Tree,
    depth2: spec_fn(NodeId) -> nat,
    limit2: nat,
    p: NodeId,
    new: NodeId,
    node: NodeId,
)
    requires
        tree_wf(t, root, depth, limit),
        tree_wf(t2, root, depth2, limit2),
        t.contains_key(node),
        parent_of(t, node) == Some(p),
        children_of(t, new).len() == 0,
        new != p,
        new != node,
        forall|x: NodeId| x != node && x != new ==> parent_of(t2, x) == parent_of(t, x),
        parent_of(t2, new) == Some(p),
        parent_of(t2, node) is None,
        is_container(t2, new),
        t2.contains_key(node),
        !(t2[node] is Floating),
    ensures
        can_adopt(t2, root, depth2, new, node),
{
    assert(depth(p) < depth(node));
    assert forall|x: NodeId| #[trigger] ancestor_or_self(t, depth, x, p) implies parent_of(t2, x)
        == parent_of(t, x) by {
        lemma_above_is_no_deeper(t, depth, x, p);
        if x == new {
            lemma_childless_is_above_nothing(t, root, depth, limit, new, p);
        }
    }
    lemma_above_depends_on_chain(t, depth, limit, t2, depth2, limit2, node, p);
    if ancestor_or_self(t, depth, node, p) {
        lemma_above_is_no_deeper(t, depth, node, p);
    }
    assert(!ancestor_or_self(t2, depth2, node, p));
    assert(t2.contains_key(new));
    assert(depth2(p) < depth2(new));
}

/// What lies above a node lies above everything below the node.
pub proof fn lemma_above_extends(
    t: Tree,
    depth: spec_fn(NodeId) -> nat,
    p: NodeId,
    c: NodeId,
    n: NodeId,
)
    requires
        ancestor_or_self(t, depth, c, n),
        parent_of(t, c) == Some(p),
        depth(p) < depth(c),
    ensures
        ancestor_or_self(t, depth, p, n),
    decreases depth(n),
{
    if n == c {
        assert(ancestor_or_self(t, depth, p, p));
    } else {
        lemma_above_extends(t, depth, p, c, parent_of(t, n)->0);
    }
}

/// Of two nodes that lie above a third, one lies above the other.
pub proof fn lemma_chain_is_linear(
    t: Tree,
    depth: spec_fn(NodeId) -> nat,
    a: NodeId,
    b: NodeId,
    n: NodeId,
)
    requires
        ancestor_or_self(t, depth, a, n),
        ancestor_or_self(t, depth, b, n),
    ensures
        ancestor_or_self(t, depth, a, b) || ancestor_or_self(t, depth, b, a),
    decreases depth(n),
{
    if n != a && n != b {
        lemma_chain_is_linear(t, depth, a, b, parent_of(t, n)->0);
    }
}

/// What lies below a node, and is not the node, lies below one of its children
/// or is one of them.
pub proof fn lemma_below_a_child(
    t: Tree,
    root: NodeId,
    depth: spec_fn(NodeId) -> nat,
    limit: nat,
    node: NodeId,
    c: NodeId,
) -> (j: int)
    requires
        tree_wf(t, root, depth, limit),
        ancestor_or_self(t, depth, node, c),
        c != node,
    ensures
        0 <= j < children_of(t, node).len(),
        ancestor_or_self(t, depth, children_of(t, node)[j], c),
    decreases depth(c),
{
    let p = parent_of(t, c)->0;
    if p == node {
        assert(children_of(t, node).contains(c));
        let j = choose|j: int| 0 <= j < children_of(t, node).len() && children_of(t, node)[j] == c;
        j
    } else {
        let j = lemma_below_a_child(t, root, depth, limit, node, p);
        j
    }
}

/// No child of a container lies below another child of it, and the container
/// lies below none of them.
pub proof fn lemma_children_apart(
    t: Tree,
    root: NodeId,
    depth: spec_fn(NodeId) -> nat,
    limit: nat,
    node: NodeId,
    i: int,
    j: int,
)
    requires
        tree_wf(t, root, depth, limit),
        0 <= i < children_of(t, node).len(),
        0 <= j < children_of(t, node).len(),
        i != j,
    ensures
        !ancestor_or_self(t, depth, children_of(t, node)[i], children_of(t, node)[j]),
        !ancestor_or_self(t, depth, children_of(t, node)[i], node),
{
    let a = children_of(t, node)[i];
    let b = children_of(t, node)[j];
    assert(t.contains_key(a) && parent_of(t, a) == Some(node));
    assert(t.contains_key(b) && parent_of(t, b) == Some(node));
    if i < j {
        assert(a != b);
    } else {
        assert(b != a);
    }
    if ancestor_or_self(t, depth, a, node) {
        lemma_above_is_no_deeper(t, depth, a, node);
    }
}

/// A node that has neither parent nor children, and is not the root, can be
/// taken out of the tree.
pub proof fn lemma_without_node(
    t: Tree,
    root: NodeId,
    depth: spec_fn(NodeId) -> nat,
    limit: nat,
    n: NodeId,
)
    requires
        tree_wf(t, root, depth, limit),
        n != root,
        parent_of(t, n) is None,
        children_of(t, n).len() == 0,
    ensures
        tree_wf(t.remove(n), root, depth, limit),
        forall|k: NodeId| k != n ==> parent_of(t.remove(n), k) == parent_of(t, k),
        forall|k: NodeId| k != n ==> children_of(t.remove(n), k) == children_of(t, k),
{
    let t2 = t.remove(n);
    assert forall|k: NodeId| k != n implies parent_of(t2, k) == parent_of(t, k) by {}
    assert forall|k: NodeId| k != n implies children_of(t2, k) == children_of(t, k) by {}
    assert(children_of(t2, n).len() == 0);
    assert forall|c: NodeId, i: int|
        #![trigger children_of(t2, c)[i]]
        0 <= i < children_of(t2, c).len() implies {
        &&& t2.contains_key(children_of(t2, c)[i])
        &&& !(t2[children_of(t2, c)[i]] is Floating)
        &&& parent_of(t2, children_of(t2, c)[i]) == Some(c)
    } by {
        let ch = children_of(t, c)[i];
        assert(t.contains_key(ch));
        assert(parent_of(t, ch) == Some(c));
    }
    assert forall|k: NodeId| (#[trigger] parent_of(t2, k)) is Some implies {
        &&& is_container(t2, parent_of(t2, k)->0)
        &&& children_of(t2, parent_of(t2, k)->0).contains(k)
    } by {
        assert(parent_of(t, k) is Some);
        let q = parent_of(t, k)->0;
        assert(children_of(t, q).contains(k));
    }
    assert forall|k: NodeId| #[trigger] t2.contains_key(k) implies {
        &&& depth(k) < limit
        &&& parent_of(t2, k) is Some ==> depth(parent_of(t2, k)->0) < depth(k)
    } by {
        assert(t.contains_key(k));
    }
}

} // verus!
