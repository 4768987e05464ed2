//! What a split does to the tree as a whole: it adds one leaf, the new leaf
//! hangs in the tree under the root, and every window shows the widget it
//! showed before.

use crate::allocator::NodeId;
use crate::layout::geometry::Axis;
use crate::layout::node::{
    ancestor_or_self,
    attached,
    children_of,
    detached,
    is_container,
    is_leaf,
    parent_of,
    parents_ok,
    ranked,
    widget_of,
    NodeView,
    Tree,
};
use crate::layout::tree::Layout;
use crate::layout::window::wrapped;
use crate::widget::WidgetId;
use vstd::prelude::*;

verus! {

/// Where every old node keeps its parent, the old nodes keep what lies above
/// them.
pub proof fn lemma_grown_ancestry(
    t0: Tree,
    d0: spec_fn(NodeId) -> nat,
    limit0: nat,
    t1: Tree,
    d1: spec_fn(NodeId) -> nat,
    limit1: nat,
    a: NodeId,
    x: NodeId,
)
    requires
        ranked(t0, d0, limit0),
        ranked(t1, d1, limit1),
        parents_ok(t0),
        t0.contains_key(x),
        forall|y: NodeId| t0.contains_key(y) ==> t1.contains_key(y),
        forall|y: NodeId| #[trigger] t0.contains_key(y) ==> parent_of(t1, y) == parent_of(t0, y),
    ensures
        ancestor_or_self(t1, d1, a, x) == ancestor_or_self(t0, d0, a, x),
    decreases d0(x),
{
    if x != a && parent_of(t0, x) is Some {
        let q = parent_of(t0, x)->0;
        assert(is_container(t0, q));
        assert(t1.contains_key(x));
        lemma_grown_ancestry(t0, d0, limit0, t1, d1, limit1, a, q);
    }
}

/// Where a new node has been put between `node` and its parent, and every
/// other old node keeps its parent, the old nodes keep the old nodes that lie
/// above them.
pub proof fn lemma_rerouted_ancestry(
    t0: Tree,
    d0: spec_fn(NodeId) -> nat,
    limit0: nat,
    t1: Tree,
    d1: spec_fn(NodeId) -> nat,
    limit1: nat,
    node: NodeId,
    new: NodeId,
    a: NodeId,
    x: NodeId,
)
    requires
        ranked(t0, d0, limit0),
        ranked(t1, d1, limit1),
        parents_ok(t0),
        t0.contains_key(x),
        !t0.contains_key(new),
        a != new,
        t0.contains_key(node),
        parent_of(t0, node) is Some,
        parent_of(t1, node) == Some(new),
        parent_of(t1, new) == parent_of(t0, node),
        t1.contains_key(new),
        forall|y: NodeId| t0.contains_key(y) ==> t1.contains_key(y),
        forall|y: NodeId|
            #[trigger] t0.contains_key(y) && y != node ==> parent_of(t1, y) == parent_of(t0, y),
    ensures
        ancestor_or_self(t1, d1, a, x) == ancestor_or_self(t0, d0, a, x),
    decreases d0(x),
{
    if x != a {
        assert(t1.contains_key(x));
        if x == node {
            let p = parent_of(t0, node)->0;
            assert(is_container(t0, p));
            lemma_rerouted_ancestry(t0, d0, limit0, t1, d1, limit1, node, new, a, p);
            assert(d1(new) < d1(node));
            assert(d1(p) < d1(new));
            assert(ancestor_or_self(t1, d1, a, new) == ancestor_or_self(t1, d1, a, p));
        } else if parent_of(t0, x) is Some {
            let q = parent_of(t0, x)->0;
            assert(is_container(t0, q));
            lemma_rerouted_ancestry(t0, d0, limit0, t1, d1, limit1, node, new, a, q);
        }
    }
}

/// The parents in a tree in which a new container has taken the place of a
/// node and holds the node and a new leaf.
pub proof fn lemma_wrapped_links(t: Tree, node: NodeId, new: NodeId, leaf: NodeId)
    requires
        t.contains_key(node),
        parent_of(t, node) is Some,
        is_container(t, parent_of(t, node)->0),
        children_of(t, parent_of(t, node)->0).contains(node),
        t.contains_key(new),
        t.contains_key(leaf),
        t[new] is Container,
        t[leaf] is Leaf,
        !(t[node] is Floating),
        new != leaf,
        new != node,
        leaf != node,
        new != parent_of(t, node)->0,
        leaf != parent_of(t, node)->0,
        node != parent_of(t, node)->0,
    ensures
        wrapped(t, node, new, leaf).dom() == t.dom(),
        parent_of(wrapped(t, node, new, leaf), node) == Some(new),
        parent_of(wrapped(t, node, new, leaf), new) == parent_of(t, node),
        parent_of(wrapped(t, node, new, leaf), leaf) == Some(new),
        forall|y: NodeId|
            y != node && y != new && y != leaf ==> parent_of(wrapped(t, node, new, leaf), y)
                == parent_of(t, y),
        forall|y: NodeId|
            t.contains_key(y) ==> {
                &&& is_container(wrapped(t, node, new, leaf), y) == is_container(t, y)
                &&& is_leaf(wrapped(t, node, new, leaf), y) == is_leaf(t, y)
                &&& widget_of(wrapped(t, node, new, leaf), y) == widget_of(t, y)
            },
{
    let p = parent_of(t, node)->0;
    let cs = children_of(t, p);
    let i = cs.index_of(node);
    assert(cs[i] == node);
    let t3 = detached(t, p, i);
    let t4 = attached(t3, p, new, i);
    let t5 = attached(t4, new, node, 0);
    let t6 = attached(t5, new, leaf, 1);
    assert(t3.dom() =~= t.dom());
    assert(t4.dom() =~= t.dom());
    assert(t5.dom() =~= t.dom());
    assert(t6.dom() =~= t.dom());
    assert(parent_of(t3, node) is None);
    assert(parent_of(t4, new) == Some(p));
    assert(parent_of(t5, node) == Some(new));
    assert(parent_of(t5, new) == Some(p));
    assert(parent_of(t6, leaf) == Some(new));
    assert(parent_of(t6, node) == Some(new));
    assert(parent_of(t6, new) == Some(p));
    assert forall|y: NodeId| y != node && y != new && y != leaf implies parent_of(t6, y)
        == parent_of(t, y) by {
        assert(parent_of(t3, y) == parent_of(t, y));
        assert(parent_of(t4, y) == parent_of(t3, y));
        assert(parent_of(t5, y) == parent_of(t4, y));
    }
    assert forall|y: NodeId| t.contains_key(y) implies {
        &&& is_container(t6, y) == is_container(t, y)
        &&& is_leaf(t6, y) == is_leaf(t, y)
        &&& widget_of(t6, y) == widget_of(t, y)
    } by {
        assert(is_container(t3, y) == is_container(t, y) && is_leaf(t3, y) == is_leaf(t, y)
            && widget_of(t3, y) == widget_of(t, y));
        assert(is_container(t4, y) == is_container(t3, y) && is_leaf(t4, y) == is_leaf(t3, y)
            && widget_of(t4, y) == widget_of(t3, y));
        assert(is_container(t5, y) == is_container(t4, y) && is_leaf(t5, y) == is_leaf(t4, y)
            && widget_of(t5, y) == widget_of(t4, y));
    }
}

impl Layout {
    /// What `split` leaves, by the contract of `split`.
    pub open spec fn is_split_of(
        &self,
        before: &Self,
        node: NodeId,
        direction: Axis,
        widget: WidgetId,
        result: NodeId,
    ) -> bool {
        &&& before.split_error(node, direction) is None
        &&& self.root_id() == before.root_id()
        &&& if is_container(before.tree(), node) && before.tree()[node]->Container_direction
            == direction {
            self.split_by_appending(before, node, result, widget)
        } else {
            &&& self.split_by_wrapping(before, node, direction, widget)
            &&& result == if is_leaf(before.tree(), node) {
                children_of(self.tree(), parent_of(self.tree(), node)->0)[1]
            } else {
                node
            }
        }
    }

    /// The leaf that a split has added.
    pub open spec fn leaf_added_by_split(
        &self,
        before: &Self,
        node: NodeId,
        direction: Axis,
        result: NodeId,
    ) -> NodeId {
        if is_container(before.tree(), node) && before.tree()[node]->Container_direction
            == direction {
            result
        } else {
            children_of(self.tree(), parent_of(self.tree(), node)->0)[1]
        }
    }

    /// A split of a node of the tree under the root adds exactly one leaf to
    /// the tree, the new leaf hangs in the tree under the root, and every
    /// window that was there before shows the widget it showed before.
    pub proof fn lemma_split_adds_one_leaf(
        &self,
        before: &Self,
        node: NodeId,
        direction: Axis,
        widget: WidgetId,
        result: NodeId,
    )
        requires
            before.wf(),
            self.wf(),
            self.is_split_of(before, node, direction, widget, result),
            before.in_flow(node),
        ensures
            self.leaf_order().len() == before.leaf_order().len() + 1,
            self.leaf_order().to_set() == before.leaf_order().to_set().insert(
                self.leaf_added_by_split(before, node, direction, result),
            ),
            !before.tree().contains_key(self.leaf_added_by_split(before, node, direction, result)),
            self.in_flow(self.leaf_added_by_split(before, node, direction, result)),
            widget_of(self.tree(), self.leaf_added_by_split(before, node, direction, result))
                == Some(widget),
            forall|n: NodeId|
                before.tree().contains_key(n) ==> self.tree().contains_key(n) && widget_of(
                    self.tree(),
                    n,
                ) == widget_of(before.tree(), n),
    {
        let t0 = before.tree();
        let t1 = self.tree();
        let d0 = before.depths();
        let d1 = self.depths();
        let root = before.root_id();
        let leaf = self.leaf_added_by_split(before, node, direction, result);
        self.lemma_split_links(before, node, direction, widget, result);
        before.lemma_leaf_order();
        self.lemma_leaf_order();
        let old_leaves = before.leaf_order();
        let new_leaves = self.leaf_order();
        assert forall|x: NodeId| new_leaves.to_set().contains(x) <==> old_leaves.to_set().insert(
            leaf,
        ).contains(x) by {
            assert(new_leaves.to_set().contains(x) == new_leaves.contains(x));
            assert(old_leaves.to_set().contains(x) == old_leaves.contains(x));
            assert(new_leaves.contains(x) == (self.in_flow(x) && is_leaf(t1, x)));
            assert(old_leaves.contains(x) == (before.in_flow(x) && is_leaf(t0, x)));
            if t0.contains_key(x) {
                assert(self.in_flow(x) == before.in_flow(x));
                assert(is_leaf(t1, x) == is_leaf(t0, x));
                assert(x != leaf);
            } else if x != leaf {
                assert(!is_leaf(t1, x));
                assert(!is_leaf(t0, x));
            } else {
                assert(self.in_flow(leaf));
                assert(is_leaf(t1, leaf));
            }
        }
        assert(new_leaves.to_set() =~= old_leaves.to_set().insert(leaf));
        old_leaves.unique_seq_to_set();
        new_leaves.unique_seq_to_set();
        vstd::seq_lib::seq_to_set_is_finite(old_leaves);
        assert(!t0.contains_key(leaf));
        assert(!before.in_flow(leaf));
        assert(old_leaves.contains(leaf) <==> (before.in_flow(leaf) && is_leaf(t0, leaf)));
        assert(old_leaves.to_set().contains(leaf) == old_leaves.contains(leaf));
        assert(!old_leaves.to_set().contains(leaf));
        vstd::set::axiom_set_insert_len(old_leaves.to_set(), leaf);
    }

    /// What a split leaves of the links of the tree: the old nodes keep their
    /// kind and their widget, they hang under the root where they hung there
    /// before, and the new leaf hangs under the root where the node did.
    pub proof fn lemma_split_links(
        &self,
        before: &Self,
        node: NodeId,
        direction: Axis,
        widget: WidgetId,
        result: NodeId,
    )
        requires
            before.wf(),
            self.wf(),
            self.is_split_of(before, node, direction, widget, result),
        ensures
            !before.tree().contains_key(self.leaf_added_by_split(before, node, direction, result)),
            is_leaf(self.tree(), self.leaf_added_by_split(before, node, direction, result)),
            widget_of(self.tree(), self.leaf_added_by_split(before, node, direction, result))
                == Some(widget),
            before.in_flow(node) ==> self.in_flow(
                self.leaf_added_by_split(before, node, direction, result),
            ),
            forall|n: NodeId|
                before.tree().contains_key(n) ==> {
                    &&& self.tree().contains_key(n)
                    &&& widget_of(self.tree(), n) == widget_of(before.tree(), n)
                    &&& is_leaf(self.tree(), n) == is_leaf(before.tree(), n)
                    &&& self.in_flow(n) == before.in_flow(n)
                },
            forall|n: NodeId|
                !before.tree().contains_key(n) && n != self.leaf_added_by_split(
                    before,
                    node,
                    direction,
                    result,
                ) ==> !is_leaf(self.tree(), n),
    {
        let t0 = before.tree();
        let t1 = self.tree();
        let d0 = before.depths();
        let d1 = self.depths();
        let l0 = before.depth_limit();
        let l1 = self.depth_limit();
        let root = before.root_id();
        let leaf = self.leaf_added_by_split(before, node, direction, result);
        if is_container(t0, node) && t0[node]->Container_direction == direction {
            let t = t0.insert(leaf, NodeView::Leaf { widget, parent: None });
            assert(t1 == attached(t, node, leaf, children_of(t0, node).len() as int));
            assert(t1.dom() =~= t.dom());
            assert(parent_of(t1, leaf) == Some(node));
            assert forall|y: NodeId| #[trigger] t0.contains_key(y) implies parent_of(t1, y)
                == parent_of(t0, y) by {}
            assert forall|n: NodeId| t0.contains_key(n) implies {
                &&& t1.contains_key(n)
                &&& widget_of(t1, n) == widget_of(t0, n)
                &&& is_leaf(t1, n) == is_leaf(t0, n)
                &&& self.in_flow(n) == before.in_flow(n)
            } by {
                lemma_grown_ancestry(t0, d0, l0, t1, d1, l1, root, n);
            }
            lemma_grown_ancestry(t0, d0, l0, t1, d1, l1, root, node);
            assert(t1.contains_key(leaf));
            assert(d1(node) < d1(leaf));
        } else {
            let new = parent_of(t1, node)->0;
            let t = t0.insert(
                new,
                NodeView::Container { direction, size: None, children: Seq::empty(), parent: None },
            ).insert(leaf, NodeView::Leaf { widget, parent: None });
            assert(t1 == wrapped(t, node, new, leaf));
            let p = parent_of(t0, node)->0;
            assert(t0.contains_key(node));
            assert(parent_of(t0, node) is Some);
            assert(is_container(t0, p));
            assert(children_of(t0, p).contains(node));
            assert(parent_of(t, node) == Some(p));
            assert(children_of(t, p) == children_of(t0, p));
            assert(d0(p) < d0(node));
            lemma_wrapped_links(t, node, new, leaf);
            assert forall|y: NodeId| t0.contains_key(y) implies t1.contains_key(y) by {
                assert(t.contains_key(y));
            }
            assert forall|y: NodeId| #[trigger] t0.contains_key(y) && y != node implies parent_of(
                t1,
                y,
            ) == parent_of(t0, y) by {
                assert(parent_of(t, y) == parent_of(t0, y));
            }
            assert forall|n: NodeId| t0.contains_key(n) implies {
                &&& t1.contains_key(n)
                &&& widget_of(t1, n) == widget_of(t0, n)
                &&& is_leaf(t1, n) == is_leaf(t0, n)
                &&& self.in_flow(n) == before.in_flow(n)
            } by {
                assert(t.contains_key(n));
                assert(widget_of(t, n) == widget_of(t0, n));
                assert(is_leaf(t, n) == is_leaf(t0, n));
                lemma_rerouted_ancestry(t0, d0, l0, t1, d1, l1, node, new, root, n);
            }
            assert(is_leaf(t, leaf));
            assert(widget_of(t, leaf) == Some(widget));
            assert(is_container(t, new));
            if before.in_flow(node) {
                lemma_rerouted_ancestry(t0, d0, l0, t1, d1, l1, node, new, root, node);
                assert(t1.contains_key(leaf));
                assert(t1.contains_key(node));
                assert(d1(new) < d1(leaf));
                assert(d1(new) < d1(node));
                assert(ancestor_or_self(t1, d1, root, new));
            }
            assert forall|n: NodeId| !t0.contains_key(n) && n != leaf implies !is_leaf(t1, n) by {
                if t1.contains_key(n) {
                    assert(t.contains_key(n));
                    assert(n == new);
                }
            }
        }
    }
}

} // verus!
