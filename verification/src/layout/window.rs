//! Operations that make and unmake windows: cloning a leaf, turning a floating
//! window into a leaf, exchanging a child, and splitting a node in two.

use crate::allocator::NodeId;
use crate::error::Error;
use crate::layout::floating::{lemma_without_is_remove, without};
use crate::layout::geometry::{Axis, Constraint, Rect};
use crate::layout::node::{
    ancestor_or_self,
    attached,
    can_adopt,
    children_of,
    detached,
    is_container,
    is_leaf,
    lemma_above_depends_on_chain,
    lemma_above_is_no_deeper,
    lemma_adopt_childless,
    lemma_adopt_former_child,
    lemma_attached,
    lemma_detached,
    parent_of,
    widget_of,
    with_children,
    with_parent,
    Container,
    LayoutNode,
    Leaf,
    NodeView,
    Tree,
};
use crate::layout::tree::Layout;
use crate::widget::WidgetId;
use vstd::prelude::*;

verus! {

/// The tree in which container `new` has taken the place of `node` under the
/// parent of `node`, and holds `node` and then `leaf` as its children.
pub open spec fn wrapped(t: Tree, node: NodeId, new: NodeId, leaf: NodeId) -> Tree {
    let p = parent_of(t, node)->0;
    let i = children_of(t, p).index_of(node);
    attached(attached(attached(detached(t, p, i), p, new, i), new, node, 0), new, leaf, 1)
}

impl Layout {
    /// Adds a leaf that shows the widget of the leaf `leaf`: the two windows
    /// share the one widget. The new leaf has no parent yet.
    pub fn clone_leaf(&mut self, leaf: NodeId) -> (r: Result<NodeId, Error>)
        requires
            old(self).wf(),
            old(self).spare() > 0,
        ensures
            final(self).wf(),
            match r {
                Ok(id) => {
                    &&& is_leaf(old(self).tree(), leaf)
                    &&& !old(self).tree().contains_key(id)
                    &&& final(self).tree() == old(self).tree().insert(
                        id,
                        NodeView::Leaf {
                            widget: widget_of(old(self).tree(), leaf)->0,
                            parent: None,
                        },
                    )
                    &&& widget_of(final(self).tree(), id) == widget_of(final(self).tree(), leaf)
                    &&& final(self).rects() == old(self).rects().insert(
                        id,
                        Rect { x: 0, y: 0, width: 100, height: 100 },
                    )
                    &&& final(self).root_id() == old(self).root_id()
                    &&& final(self).float_order() == old(self).float_order()
                    &&& final(self).dirty_flag()
                    &&& final(self).spare() == old(self).spare() - 1
                },
                Err(e) => {
                    &&& !is_leaf(old(self).tree(), leaf)
                    &&& e == if old(self).tree().contains_key(leaf) {
                        Error::ExpectedLeaf(leaf)
                    } else {
                        Error::NodeNotFound(leaf)
                    }
                    &&& *final(self) == *old(self)
                },
            },
    {
        let widget = match self.node(leaf) {
            Some(LayoutNode::Leaf(l)) => l.widget,
            Some(_) => {
                return Err(Error::ExpectedLeaf(leaf));
            },
            None => {
                return Err(Error::NodeNotFound(leaf));
            },
        };
        let id = self.add_leaf(widget);
        Ok(id)
    }

    /// Why `new` cannot take the place of `child` under `parent`, if it cannot.
    pub open spec fn replacement_error(&self, parent: NodeId, child: NodeId, new: NodeId) -> Option<
        Error,
    > {
        let t = self.tree();
        if !t.contains_key(parent) {
            Some(Error::NodeNotFound(parent))
        } else if !(t[parent] is Container) {
            Some(Error::ExpectedContainer(parent))
        } else if !children_of(t, parent).contains(child) {
            Some(Error::NoSuchChild(parent))
        } else if new == child {
            None
        } else {
            self.adoption_error(parent, new)
        }
    }

    /// Replace the child of a container with another. The child that is
    /// replaced stays in the layout, without a parent.
    pub fn replace_child(&mut self, parent: NodeId, child: NodeId, new: NodeId) -> (r: Result<
        (),
        Error,
    >)
        requires
            old(self).wf(),
        ensures
            final(self).wf(),
            match old(self).replacement_error(parent, child, new) {
                Some(e) => r == Err::<(), Error>(e) && *final(self) == *old(self),
                None => {
                    &&& r is Ok
                    &&& final(self).tree() == if new == child {
                        old(self).tree()
                    } else {
                        attached(
                            detached(
                                old(self).tree(),
                                parent,
                                children_of(old(self).tree(), parent).index_of(child),
                            ),
                            parent,
                            new,
                            children_of(old(self).tree(), parent).index_of(child),
                        )
                    }
                    &&& final(self).rects() == old(self).rects()
                    &&& final(self).root_id() == old(self).root_id()
                    &&& final(self).float_order() == old(self).float_order()
                    &&& final(self).dirty_flag()
                    &&& final(self).spare() == old(self).spare()
                },
            },
    {
        let ghost before = *self;
        match self.node(parent) {
            None => {
                return Err(Error::NodeNotFound(parent));
            },
            Some(LayoutNode::Container(_)) => {},
            Some(_) => {
                return Err(Error::ExpectedContainer(parent));
            },
        }
        let index = match self.child_index(parent, child) {
            Some(i) => i,
            None => {
                return Err(Error::NoSuchChild(parent));
            },
        };
        proof {
            before.lemma_child_place(parent, child, index as int);
        }
        if new == child {
            self.mark_dirty();
            return Ok(());
        }
        match self.check_adoption(parent, new) {
            Some(e) => {
                return Err(e);
            },
            None => {},
        }
        self.mark_dirty();
        let _ = self.detach(parent, index);
        proof {
            before.lemma_detach_keeps_adoptable(parent, index as int, new);
        }
        self.attach(parent, new, index);
        proof {
            self.lemma_floats_kept(&before);
        }
        Ok(())
    }

    /// A child stands at one place only.
    pub proof fn lemma_child_place(&self, parent: NodeId, child: NodeId, i: int)
        requires
            self.flow_wf(),
            0 <= i < children_of(self.tree(), parent).len(),
            children_of(self.tree(), parent)[i] == child,
        ensures
            children_of(self.tree(), parent).contains(child),
            children_of(self.tree(), parent).index_of(child) == i,
    {
        let cs = children_of(self.tree(), parent);
        let k = cs.index_of(child);
        assert(cs.contains(child));
        assert(cs[k] == child);
        if k != i {
            assert(cs[i] == cs[k]);
        }
    }

    /// A node that `parent` could take before one of its children was taken out
    /// can still be taken afterwards.
    pub(crate) proof fn lemma_detach_keeps_adoptable(&self, parent: NodeId, i: int, new: NodeId)
        requires
            self.flow_wf(),
            0 <= i < children_of(self.tree(), parent).len(),
            new != children_of(self.tree(), parent)[i],
            can_adopt(self.tree(), self.root_id(), self.depths(), parent, new),
        ensures
            can_adopt(
                detached(self.tree(), parent, i),
                self.root_id(),
                self.depths(),
                parent,
                new,
            ),
    {
        let t = self.tree();
        let d = self.depths();
        let limit = self.depth_limit();
        let t2 = detached(t, parent, i);
        let c = children_of(t, parent)[i];
        lemma_detached(t, self.root_id(), d, limit, parent, i);
        assert(t.contains_key(c) && parent_of(t, c) == Some(parent));
        assert(new != parent);
        assert forall|x: NodeId| #[trigger] ancestor_or_self(t, d, x, parent) implies parent_of(
            t2,
            x,
        ) == parent_of(t, x) by {
            lemma_above_is_no_deeper(t, d, x, parent);
        }
        lemma_above_depends_on_chain(t, d, limit, t2, d, limit, new, parent);
    }
}

impl Layout {
    /// Why `node` cannot be split along `direction`, if it cannot.
    pub open spec fn split_error(&self, node: NodeId, direction: Axis) -> Option<Error> {
        let t = self.tree();
        if !t.contains_key(node) {
            Some(Error::NodeNotFound(node))
        } else if t[node] is Floating {
            Some(Error::ExpectedLeaf(node))
        } else if t[node] is Container && t[node]->Container_direction == direction {
            None
        } else if parent_of(t, node) is Some {
            None
        } else if node == self.root_id() {
            Some(Error::RootIsFixed)
        } else {
            Some(Error::Detached(node))
        }
    }

    /// How many new nodes a split of `node` along `direction` makes: none
    /// where it fails, a leaf where a container of that direction takes the
    /// leaf as its last child, a leaf and a container else.
    pub open spec fn split_room(&self, node: NodeId, direction: Axis) -> nat {
        if self.split_error(node, direction) is Some {
            0
        } else if is_container(self.tree(), node) && self.tree()[node]->Container_direction
            == direction {
            1
        } else {
            2
        }
    }

    /// What `split` leaves where it puts a new container in the place of
    /// `node`: the container is the new parent of `node`, the new leaf its
    /// second child.
    pub open spec fn split_by_wrapping(
        &self,
        before: &Self,
        node: NodeId,
        direction: Axis,
        widget: WidgetId,
    ) -> bool {
        let new = parent_of(self.tree(), node)->0;
        let leaf = children_of(self.tree(), new)[1];
        &&& parent_of(self.tree(), node) is Some
        &&& !before.tree().contains_key(new)
        &&& !before.tree().contains_key(leaf)
        &&& new != leaf
        &&& self.tree() == wrapped(
            before.tree().insert(
                new,
                NodeView::Container { direction, size: None, children: Seq::empty(), parent: None },
            ).insert(leaf, NodeView::Leaf { widget, parent: None }),
            node,
            new,
            leaf,
        )
        &&& self.rects() == before.rects().insert(
            new,
            Rect { x: 0, y: 0, width: 100, height: 100 },
        ).insert(leaf, Rect { x: 0, y: 0, width: 100, height: 100 })
        &&& self.spare() == before.spare() - 2
    }

    /// What `split` leaves where it adds the new leaf `leaf` as the last child
    /// of the container `node`.
    pub open spec fn split_by_appending(
        &self,
        before: &Self,
        node: NodeId,
        leaf: NodeId,
        widget: WidgetId,
    ) -> bool {
        &&& !before.tree().contains_key(leaf)
        &&& self.tree() == attached(
            before.tree().insert(leaf, NodeView::Leaf { widget, parent: None }),
            node,
            leaf,
            children_of(before.tree(), node).len() as int,
        )
        &&& self.rects() == before.rects().insert(
            leaf,
            Rect { x: 0, y: 0, width: 100, height: 100 },
        )
        &&& self.spare() == before.spare() - 1
    }

    /// Makes room for a new leaf that shows `widget` beside `node`.
    ///
    /// A container that runs along `direction` takes the new leaf as its last
    /// child, and the new leaf is returned. Any other container, and any leaf,
    /// is replaced under its parent by a new container that runs along
    /// `direction` and holds the node and then the new leaf; for a leaf the
    /// new leaf is returned, for a container the container itself.
    pub fn split(&mut self, node: NodeId, direction: Axis, widget: WidgetId) -> (r: Result<
        NodeId,
        Error,
    >)
        requires
            old(self).wf(),
            old(self).spare() >= old(self).split_room(node, direction),
        ensures
            final(self).wf(),
            match old(self).split_error(node, direction) {
                Some(e) => r == Err::<NodeId, Error>(e) && *final(self) == *old(self),
                None => {
                    &&& r is Ok
                    &&& final(self).root_id() == old(self).root_id()
                    &&& final(self).float_order() == old(self).float_order()
                    &&& final(self).dirty_flag()
                    &&& if is_container(old(self).tree(), node) && old(
                        self,
                    ).tree()[node]->Container_direction == direction {
                        final(self).split_by_appending(old(self), node, r->Ok_0, widget)
                    } else {
                        &&& final(self).split_by_wrapping(old(self), node, direction, widget)
                        &&& r->Ok_0 == if is_leaf(old(self).tree(), node) {
                            children_of(
                                final(self).tree(),
                                parent_of(final(self).tree(), node)->0,
                            )[1]
                        } else {
                            node
                        }
                    }
                },
            },
    {
        let ghost before = *self;
        let is_leaf = match self.node(node) {
            None => {
                return Err(Error::NodeNotFound(node));
            },
            Some(LayoutNode::Floating(_)) => {
                return Err(Error::ExpectedLeaf(node));
            },
            Some(LayoutNode::Leaf(_)) => true,
            Some(LayoutNode::Container(c)) => {
                if c.direction == direction {
                    let count = c.children.len();
                    self.mark_dirty();
                    let leaf = self.create(
                        LayoutNode::Leaf(Leaf { widget, parent: None }),
                        Rect::default(),
                    );
                    proof {
                        lemma_adopt_childless(
                            self.tree(),
                            self.root_id(),
                            self.depths(),
                            self.depth_limit(),
                            node,
                            leaf,
                        );
                    }
                    self.attach(node, leaf, count);
                    proof {
                        self.lemma_floats_kept(&before);
                    }
                    return Ok(leaf);
                }
                false
            },
        };
        let parent = match self.parent(node) {
            Some(p) => p,
            None => {
                if node == self.root() {
                    return Err(Error::RootIsFixed);
                }
                return Err(Error::Detached(node));
            },
        };
        proof {
            assert(children_of(before.tree(), parent).contains(node));
        }
        let index = match self.child_index(parent, node) {
            Some(i) => i,
            None => {
                return Err(Error::Detached(node));
            },
        };
        proof {
            before.lemma_child_place(parent, node, index as int);
        }
        self.mark_dirty();
        let ids = self.wrap(node, parent, index, direction, widget);
        proof {
            self.lemma_floats_kept(&before);
        }
        if is_leaf {
            Ok(ids.1)
        } else {
            Ok(node)
        }
    }

    /// Puts a new container that runs along `direction` in the place of `node`,
    /// the child at place `index` of `parent`, and makes `node` and a new leaf
    /// that shows `widget` its children. Returns the container and the leaf.
    #[verifier::rlimit(60)]
    fn wrap(
        &mut self,
        node: NodeId,
        parent: NodeId,
        index: usize,
        direction: Axis,
        widget: WidgetId,
    ) -> (ids: (NodeId, NodeId))
        requires
            old(self).flow_wf(),
            old(self).spare() >= 2,
            index < children_of(old(self).tree(), parent).len(),
            children_of(old(self).tree(), parent)[index as int] == node,
        ensures
            final(self).flow_wf(),
            final(self).root_id() == old(self).root_id(),
            final(self).float_order() == old(self).float_order(),
            final(self).dirty_flag() == old(self).dirty_flag(),
            parent_of(final(self).tree(), node) == Some(ids.0),
            children_of(final(self).tree(), ids.0) == seq![node, ids.1],
            !old(self).tree().contains_key(ids.0),
            !old(self).tree().contains_key(ids.1),
            ids.0 != ids.1,
            final(self).tree() == wrapped(
                old(self).tree().insert(
                    ids.0,
                    NodeView::Container {
                        direction,
                        size: None,
                        children: Seq::empty(),
                        parent: None,
                    },
                ).insert(ids.1, NodeView::Leaf { widget, parent: None }),
                node,
                ids.0,
                ids.1,
            ),
            final(self).rects() == old(self).rects().insert(
                ids.0,
                Rect { x: 0, y: 0, width: 100, height: 100 },
            ).insert(ids.1, Rect { x: 0, y: 0, width: 100, height: 100 }),
            final(self).spare() == old(self).spare() - 2,
    {
        let ghost before = *self;
        proof {
            assert(before.tree().contains_key(node));
            assert(parent_of(before.tree(), node) == Some(parent));
            assert(is_container(before.tree(), parent));
        }
        let new = self.create(
            LayoutNode::Container(
                Container { children: Vec::new(), direction, size: None, parent: None },
            ),
            Rect::default(),
        );
        let leaf = self.create(LayoutNode::Leaf(Leaf { widget, parent: None }), Rect::default());
        let ghost s2 = *self;
        proof {
            assert(children_of(s2.tree(), parent) == children_of(before.tree(), parent));
            assert(parent_of(s2.tree(), node) == Some(parent));
            s2.lemma_child_place(parent, node, index as int);
        }
        let _ = self.detach(parent, index);
        let ghost s3 = *self;
        proof {
            lemma_detached(
                s2.tree(),
                s2.root_id(),
                s2.depths(),
                s2.depth_limit(),
                parent,
                index as int,
            );
            lemma_adopt_childless(
                s3.tree(),
                s3.root_id(),
                s3.depths(),
                s3.depth_limit(),
                parent,
                new,
            );
        }
        self.attach(parent, new, index);
        let ghost s4 = *self;
        proof {
            lemma_attached(
                s3.tree(),
                s3.root_id(),
                s3.depths(),
                s3.depth_limit(),
                parent,
                new,
                index as int,
            );
            lemma_adopt_former_child(
                s2.tree(),
                s2.root_id(),
                s2.depths(),
                s2.depth_limit(),
                s4.tree(),
                s4.depths(),
                s4.depth_limit(),
                parent,
                new,
                node,
            );
        }
        self.attach(new, node, 0);
        let ghost s5 = *self;
        proof {
            lemma_attached(s4.tree(), s4.root_id(), s4.depths(), s4.depth_limit(), new, node, 0);
            lemma_adopt_childless(
                s5.tree(),
                s5.root_id(),
                s5.depths(),
                s5.depth_limit(),
                new,
                leaf,
            );
        }
        self.attach(new, leaf, 1);
        proof {
            lemma_attached(s5.tree(), s5.root_id(), s5.depths(), s5.depth_limit(), new, leaf, 1);
            assert(children_of(self.tree(), new) =~= seq![node, leaf]);
        }
        (new, leaf)
    }
}

/// The tree without node `n`: its parent no longer lists it, and its children
/// have no parent.
pub open spec fn removed(t: Tree, n: NodeId) -> Tree {
    Map::new(
        |k: NodeId| t.contains_key(k) && k != n,
        |k: NodeId|
            if parent_of(t, n) == Some(k) {
                with_children(t[k], without(children_of(t, k), n))
            } else if parent_of(t, k) == Some(n) {
                with_parent(t[k], None)
            } else {
                t[k]
            },
    )
}

/// Why the node at place `i` of `cs` cannot become a child of a new container
/// together with those before it, if it cannot.
pub open spec fn child_list_error(t: Tree, root: NodeId, cs: Seq<NodeId>, i: int) -> Option<Error> {
    if !t.contains_key(cs[i]) {
        Some(Error::NodeNotFound(cs[i]))
    } else if t[cs[i]] is Floating || cs[i] == root || parent_of(t, cs[i]) is Some || cs.take(
        i,
    ).contains(cs[i]) {
        Some(Error::InvalidChild(cs[i]))
    } else {
        None
    }
}

/// The tree with a new container `id` that has taken the nodes `cs` as its
/// children.
pub open spec fn adopted_all(
    t: Tree,
    id: NodeId,
    direction: Axis,
    size: Option<Constraint>,
    cs: Seq<NodeId>,
) -> Tree {
    Map::new(
        |k: NodeId| t.contains_key(k) || k == id,
        |k: NodeId|
            if k == id {
                NodeView::Container { direction, size, children: cs, parent: None }
            } else if cs.contains(k) {
                with_parent(t[k], Some(id))
            } else {
                t[k]
            },
    )
}

impl Layout {
    /// Drops a node from the layout. Its parent no longer lists it, and its
    /// children stay in the layout without a parent. Without effect on the
    /// tree where the handle reaches no node.
    pub fn remove_node(&mut self, node: NodeId) -> (r: Result<(), Error>)
        requires
            old(self).wf(),
        ensures
            final(self).wf(),
            r == if node == old(self).root_id() {
                Err::<(), Error>(Error::RootIsFixed)
            } else {
                Ok::<(), Error>(())
            },
            r is Err ==> *final(self) == *old(self),
            r is Ok ==> {
                &&& final(self).dirty_flag()
                &&& final(self).root_id() == old(self).root_id()
                &&& if old(self).tree().contains_key(node) {
                    &&& final(self).tree() == removed(old(self).tree(), node)
                    &&& final(self).rects() == old(self).rects().remove(node)
                    &&& final(self).float_order() == without(old(self).float_order(), node)
                    &&& final(self).spare() >= old(self).spare()
                } else {
                    &&& final(self).tree() == old(self).tree()
                    &&& final(self).rects() == old(self).rects()
                    &&& final(self).float_order() == old(self).float_order()
                    &&& final(self).spare() == old(self).spare()
                }
            },
    {
        if node == self.root() {
            return Err(Error::RootIsFixed);
        }
        let ghost before = *self;
        let ghost t0 = before.tree();
        self.mark_dirty();
        if self.node(node).is_none() {
            return Ok(());
        }
        match self.parent(node) {
            Some(p) => {
                proof {
                    assert(children_of(t0, p).contains(node));
                }
                match self.child_index(p, node) {
                    Some(index) => {
                        proof {
                            let cs = children_of(t0, p);
                            assert(cs.no_duplicates());
                            lemma_without_is_remove(cs, index as int);
                            lemma_detached(
                                t0,
                                before.root_id(),
                                before.depths(),
                                before.depth_limit(),
                                p,
                                index as int,
                            );
                        }
                        let _ = self.detach(p, index);
                    },
                    None => {},
                }
            },
            None => {},
        }
        let ghost s1 = *self;
        let ghost t1 = s1.tree();
        let ghost cs = children_of(t0, node);
        proof {
            assert(parent_of(t1, node) is None);
            assert(children_of(t1, node) == cs);
            assert(cs.take(cs.len() as int) =~= cs);
        }
        let mut count: usize = match self.child_count(node) {
            Some(n) => n,
            None => 0,
        };
        while count > 0
            invariant
                self.flow_wf(),
                self.tree().dom() == t1.dom(),
                s1.flow_wf(),
                t1 == s1.tree(),
                t1.contains_key(node),
                parent_of(t1, node) is None,
                cs == children_of(t1, node),
                count <= cs.len(),
                self.rects() == s1.rects(),
                self.root_id() == s1.root_id(),
                self.float_order() == s1.float_order(),
                self.dirty_flag() == s1.dirty_flag(),
                self.spare() == s1.spare(),
                children_of(self.tree(), node) == cs.take(count as int),
                self.tree()[node] == with_children(t1[node], cs.take(count as int)),
                forall|k: NodeId|
                    k != node && !cs.contains(k) && t1.contains_key(k) ==> #[trigger] self.tree()[k]
                        == t1[k],
                forall|j: int|
                    0 <= j < count ==> self.tree()[#[trigger] cs[j]] == t1[cs[j]],
                forall|j: int|
                    count <= j < cs.len() ==> self.tree()[#[trigger] cs[j]] == with_parent(
                        t1[cs[j]],
                        None,
                    ),
            decreases count,
        {
            let ghost prev = *self;
            let _ = self.detach(node, count - 1);
            proof {
                let c = cs[count - 1];
                assert(t1.contains_key(c) && parent_of(t1, c) == Some(node));
                assert(c != node);
                assert(cs.take(count as int).remove(count - 1) =~= cs.take(count - 1));
                assert forall|j: int| 0 <= j < count - 1 implies self.tree()[#[trigger] cs[j]]
                    == t1[cs[j]] by {
                    assert(cs[j] != cs[count - 1]);
                    assert(t1.contains_key(cs[j]) && parent_of(t1, cs[j]) == Some(node));
                }
                assert forall|j: int| count - 1 <= j < cs.len() implies self.tree()[#[trigger] cs[j]]
                    == with_parent(t1[cs[j]], None) by {
                    assert(t1.contains_key(cs[j]) && parent_of(t1, cs[j]) == Some(node));
                    if j > count - 1 {
                        assert(cs[count - 1] != cs[j]);
                    }
                }
                assert forall|k: NodeId|
                    k != node && !cs.contains(k) && t1.contains_key(k) implies #[trigger] self.tree()[k]
                    == t1[k] by {
                    assert(k != c);
                }
            }
            count = count - 1;
        }
        proof {
            self.lemma_floats_kept(&before);
            assert(cs.take(0) =~= Seq::<NodeId>::empty());
        }
        let ghost s2 = *self;
        self.destroy(node);
        proof {
            let t2 = s2.tree();
            let d = before.depths();
            assert forall|k: NodeId| t0.contains_key(k) && k != node implies self.tree()[k] == removed(
                t0,
                node,
            )[k] by {
                if parent_of(t0, node) == Some(k) {
                    // The parent of the node is not among the children of the node.
                    assert(d(k) < d(node));
                    if cs.contains(k) {
                        let j = choose|j: int| 0 <= j < cs.len() && cs[j] == k;
                        assert(parent_of(t0, cs[j]) == Some(node));
                    }
                    assert(t2[k] == t1[k]);
                } else if parent_of(t0, k) == Some(node) {
                    assert(cs.contains(k));
                    let j = choose|j: int| 0 <= j < cs.len() && cs[j] == k;
                    assert(t2[cs[j]] == with_parent(t1[cs[j]], None));
                    assert(t1[k] == t0[k]);
                } else {
                    if cs.contains(k) {
                        let j = choose|j: int| 0 <= j < cs.len() && cs[j] == k;
                        assert(parent_of(t0, cs[j]) == Some(node));
                    }
                    assert(t2[k] == t1[k]);
                    assert(t1[k] == t0[k]);
                }
            }
            assert(self.tree() =~= removed(t0, node));
        }
        Ok(())
    }

    /// Adds a new container node to the layout with the given children, which
    /// must be nodes of the flow without a parent, each named once.
    pub fn add_with_children(
        &mut self,
        direction: Axis,
        size: Option<Constraint>,
        children: Vec<NodeId>,
    ) -> (r: Result<NodeId, Error>)
        requires
            old(self).wf(),
            old(self).spare() > 0,
        ensures
            final(self).wf(),
            match r {
                Ok(id) => {
                    &&& forall|i: int|
                        0 <= i < children@.len() ==> (#[trigger] child_list_error(
                            old(self).tree(),
                            old(self).root_id(),
                            children@,
                            i,
                        )) is None
                    &&& !old(self).tree().contains_key(id)
                    &&& final(self).tree() == adopted_all(
                        old(self).tree(),
                        id,
                        direction,
                        size,
                        children@,
                    )
                    &&& final(self).rects() == old(self).rects().insert(
                        id,
                        Rect { x: 0, y: 0, width: 100, height: 100 },
                    )
                    &&& final(self).root_id() == old(self).root_id()
                    &&& final(self).float_order() == old(self).float_order()
                    &&& final(self).dirty_flag()
                    &&& final(self).spare() == old(self).spare() - 1
                },
                Err(e) => {
                    &&& *final(self) == *old(self)
                    &&& exists|i: int|
                        0 <= i < children@.len() && (#[trigger] child_list_error(
                            old(self).tree(),
                            old(self).root_id(),
                            children@,
                            i,
                        )) == Some(e) && forall|j: int|
                            0 <= j < i ==> (#[trigger] child_list_error(
                                old(self).tree(),
                                old(self).root_id(),
                                children@,
                                j,
                            )) is None
                },
            },
    {
        let ghost before = *self;
        let ghost t0 = before.tree();
        let ghost root = before.root_id();
        let ghost cs = children@;
        let n: usize = children.len();
        let mut i: usize = 0;
        while i < n
            invariant
                i <= n,
                n == children.len(),
                cs == children@,
                *self == before,
                before.wf(),
                t0 == before.tree(),
                root == before.root_id(),
                forall|j: int| 0 <= j < i ==> (#[trigger] child_list_error(t0, root, cs, j)) is None,
            decreases n - i,
        {
            let c = children[i];
            match self.node(c) {
                None => {
                    assert(child_list_error(t0, root, cs, i as int) == Some(Error::NodeNotFound(c)));
                    return Err(Error::NodeNotFound(c));
                },
                Some(LayoutNode::Floating(_)) => {
                    assert(child_list_error(t0, root, cs, i as int) == Some(Error::InvalidChild(c)));
                    return Err(Error::InvalidChild(c));
                },
                Some(_) => {},
            }
            if c == self.root() || self.parent(c).is_some() {
                assert(child_list_error(t0, root, cs, i as int) == Some(Error::InvalidChild(c)));
                return Err(Error::InvalidChild(c));
            }
            let mut j: usize = 0;
            while j < i
                invariant
                    j <= i,
                    i < n,
                    n == children.len(),
                    cs == children@,
                    c == cs[i as int],
                    *self == before,
                    before.wf(),
                    t0 == before.tree(),
                    root == before.root_id(),
                    t0.contains_key(c),
                    forall|m: int|
                        0 <= m < i ==> (#[trigger] child_list_error(t0, root, cs, m)) is None,
                    forall|k: int| 0 <= k < j ==> cs[k] != c,
                decreases i - j,
            {
                if children[j] == c {
                    proof {
                        assert(cs.take(i as int)[j as int] == c);
                        assert(cs.take(i as int).contains(c));
                        assert(child_list_error(t0, root, cs, i as int) == Some(
                            Error::InvalidChild(c),
                        ));
                    }
                    return Err(Error::InvalidChild(c));
                }
                j = j + 1;
            }
            proof {
                assert(!cs.take(i as int).contains(c)) by {
                    if cs.take(i as int).contains(c) {
                        let k = choose|k: int| 0 <= k < i && cs.take(i as int)[k] == c;
                        assert(cs[k] == c);
                    }
                }
            }
            i = i + 1;
        }
        self.mark_dirty();
        let id = self.create(
            LayoutNode::Container(Container { children: Vec::new(), direction, size, parent: None }),
            Rect::default(),
        );
        let ghost s1 = *self;
        let ghost t1 = s1.tree();
        let mut k: usize = 0;
        proof {
            assert(cs.take(0) =~= Seq::<NodeId>::empty());
            assert forall|m: int| 0 <= m < n implies #[trigger] cs[m] != id && t0.contains_key(
                cs[m],
            ) by {
                assert(child_list_error(t0, root, cs, m) is None);
            }
        }
        while k < n
            invariant
                k <= n,
                n == children.len(),
                cs == children@,
                self.flow_wf(),
                t1 == t0.insert(
                    id,
                    NodeView::Container { direction, size, children: Seq::empty(), parent: None },
                ),
                !t0.contains_key(id),
                self.tree().dom() == t1.dom(),
                self.rects() == s1.rects(),
                self.root_id() == root,
                root == before.root_id(),
                self.float_order() == s1.float_order(),
                self.dirty_flag(),
                self.spare() == s1.spare(),
                forall|m: int| 0 <= m < n ==> (#[trigger] child_list_error(t0, root, cs, m)) is None,
                forall|m: int| 0 <= m < n ==> #[trigger] cs[m] != id && t0.contains_key(cs[m]),
                self.tree()[id] == (NodeView::Container {
                    direction,
                    size,
                    children: cs.take(k as int),
                    parent: None,
                }),
                forall|x: NodeId|
                    x != id && !cs.take(k as int).contains(x) && t0.contains_key(x)
                        ==> #[trigger] self.tree()[x] == t0[x],
                forall|m: int|
                    0 <= m < k ==> self.tree()[#[trigger] cs[m]] == with_parent(t0[cs[m]], Some(id)),
            decreases n - k,
        {
            let c = children[k];
            let ghost prev = *self;
            proof {
                let t = prev.tree();
                assert(child_list_error(t0, root, cs, k as int) is None);
                assert(!cs.take(k as int).contains(c));
                assert(t[c] == t0[c]);
                assert(parent_of(t, id) is None);
                assert(children_of(t, id) == cs.take(k as int));
            }
            self.attach(id, c, k);
            proof {
                assert(cs.take(k as int).insert(k as int, c) =~= cs.take(k + 1));
                assert forall|x: NodeId|
                    x != id && !cs.take(k + 1).contains(x) && t0.contains_key(x) implies #[trigger] self.tree()[x]
                    == t0[x] by {
                    assert(cs.take(k + 1)[k as int] == c);
                    assert(x != c);
                    if cs.take(k as int).contains(x) {
                        let m = choose|m: int| 0 <= m < k && cs.take(k as int)[m] == x;
                        assert(cs.take(k + 1)[m] == x);
                    }
                }
                assert forall|m: int| 0 <= m < k + 1 implies self.tree()[#[trigger] cs[m]]
                    == with_parent(t0[cs[m]], Some(id)) by {
                    if m < k {
                        assert(cs.take(k as int)[m] == cs[m]);
                        assert(cs[m] != c);
                    }
                }
            }
            k = k + 1;
        }
        proof {
            assert(cs.take(n as int) =~= cs);
            self.lemma_floats_kept(&before);
            assert forall|x: NodeId| t0.contains_key(x) || x == id implies self.tree()[x]
                == adopted_all(t0, id, direction, size, cs)[x] by {
                if x != id && cs.contains(x) {
                    let m = choose|m: int| 0 <= m < cs.len() && cs[m] == x;
                    assert(self.tree()[cs[m]] == with_parent(t0[cs[m]], Some(id)));
                }
            }
            assert(self.tree() =~= adopted_all(t0, id, direction, size, cs));
        }
        Ok(id)
    }
}

} // verus!
