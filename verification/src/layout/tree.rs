//! The layout tree: an arena of nodes with one root container, the windows
//! that float above it, and the rectangle that the last computation of the
//! layout gave to each node.

use crate::allocator::{NodeId, Slab, MAX_CAPACITY};
use crate::error::Error;
use crate::layout::floating::{
    front_to_back,
    lemma_placed,
    lemma_stacked_fixpoint,
    lemma_without,
    lemma_without_keeps_order,
    placed,
    stacked,
    without,
    FloatStack,
};
use crate::layout::geometry::{Axis, Constraint, Rect};
use crate::layout::node::{
    lemma_floats_untouched,
    lemma_without_node,
    ancestor_or_self,
    attached,
    can_adopt,
    children_of,
    detached,
    is_container,
    is_floating,
    is_fresh_node,
    is_leaf,
    lemma_attached,
    lemma_detached,
    lemma_same_links,
    lemma_with_node,
    parent_of,
    sunk,
    tree_of,
    tree_wf,
    widget_of,
    with_children,
    z_of,
    Container,
    Floating,
    LayoutNode,
    Leaf,
    NodeView,
    Tree,
};
use crate::widget::WidgetId;
use vstd::prelude::*;

verus! {

/// The windows of an application: the tree under the root, the floating windows
/// above it, and the nodes that are kept aside.
pub struct Layout {
    /// The arena containing all nodes, keyed by unique id.
    pub(crate) nodes: Slab<LayoutNode>,
    /// Render results, by slot of the arena. Stale until `compute` has run
    /// after a change.
    pub(crate) layout: Vec<Rect>,
    /// The root node of the layout.
    pub(crate) root: NodeId,
    /// Floating windows attached to the layout
    pub(crate) floating: FloatStack,
    /// Whether the layout should be recomputed
    pub(crate) dirty: bool,
    /// A numbering of the nodes in which every node lies deeper than its parent.
    pub(crate) depth: Ghost<spec_fn(NodeId) -> nat>,
    /// A bound above every number in `depth`.
    pub(crate) limit: Ghost<nat>,
}

impl Layout {
    /// The nodes of the layout.
    pub closed spec fn tree(&self) -> Tree {
        tree_of(self.nodes@)
    }

    /// The rectangle that the last computation left for each node.
    pub closed spec fn rects(&self) -> Map<NodeId, Rect> {
        Map::new(
            |k: NodeId| self.nodes@.contains_key(k),
            |k: NodeId| self.layout@[k.index() as int],
        )
    }

    /// The root of the tree.
    pub closed spec fn root_id(&self) -> NodeId {
        self.root
    }

    /// The floating windows, from front to back.
    pub closed spec fn float_order(&self) -> Seq<NodeId> {
        self.floating@
    }

    /// Whether the layout has changed since it was last computed.
    pub closed spec fn dirty_flag(&self) -> bool {
        self.dirty
    }

    /// The numbering that shows the tree to be free of cycles.
    pub closed spec fn depths(&self) -> spec_fn(NodeId) -> nat {
        self.depth@
    }

    /// The number of node `n` in that numbering.
    pub open spec fn depth_at(&self, n: NodeId) -> nat {
        (self.depths())(n)
    }

    /// A bound above the numbers of all nodes.
    pub closed spec fn depth_limit(&self) -> nat {
        self.limit@
    }

    /// How many more nodes the layout can take.
    pub closed spec fn spare(&self) -> nat {
        self.nodes.spare()
    }

    /// The invariant of the storage behind the tree.
    pub closed spec fn arena_wf(&self) -> bool {
        &&& self.nodes.wf()
        &&& self.layout.len() >= self.nodes.spec_capacity()
    }

    /// Whether the floating windows are in order: the stack holds the floating
    /// nodes of the tree, each once, from front to back.
    pub open spec fn floats_wf(&self) -> bool {
        &&& forall|id: NodeId|
            self.float_order().contains(id) <==> is_floating(self.tree(), id)
        &&& self.float_order().no_duplicates()
        &&& front_to_back(self.float_order(), self.tree())
    }

    /// The invariant of the layout without what it says of floating windows.
    pub open spec fn flow_wf(&self) -> bool {
        &&& self.arena_wf()
        &&& self.depth_limit() > 0
        &&& tree_wf(self.tree(), self.root_id(), self.depths(), self.depth_limit())
        &&& self.rects().dom() == self.tree().dom()
    }

    /// The invariant of the layout.
    pub open spec fn wf(&self) -> bool {
        &&& self.flow_wf()
        &&& self.floats_wf()
    }

    /// Whether `a` is `n` or lies on the chain of parents above `n`.
    pub open spec fn above_or_self(&self, a: NodeId, n: NodeId) -> bool {
        ancestor_or_self(self.tree(), self.depths(), a, n)
    }

    /// Whether `n` belongs to the tree under the root.
    pub open spec fn in_flow(&self, n: NodeId) -> bool {
        self.tree().contains_key(n) && self.above_or_self(self.root_id(), n)
    }

    /// The chain of parents is followed one step at a time.
    pub proof fn lemma_above_or_self(&self, a: NodeId, n: NodeId)
        requires
            self.wf(),
        ensures
            self.above_or_self(a, n) == (n == a || (parent_of(self.tree(), n) is Some
                && self.above_or_self(a, parent_of(self.tree(), n)->0))),
    {
        if parent_of(self.tree(), n) is Some {
            assert(self.tree().contains_key(n));
        }
    }

    /// Initializes a new layout, and creates a root node
    pub fn new() -> (l: Self)
        ensures
            l.wf(),
            l.tree() == Map::<NodeId, NodeView>::empty().insert(
                l.root_id(),
                NodeView::Container {
                    direction: Axis::Vertical,
                    size: None,
                    children: Seq::empty(),
                    parent: None,
                },
            ),
            l.rects() == Map::<NodeId, Rect>::empty().insert(
                l.root_id(),
                Rect { x: 0, y: 0, width: 100, height: 100 },
            ),
            l.float_order() == Seq::<NodeId>::empty(),
            l.dirty_flag(),
            l.spare() == MAX_CAPACITY - 1,
    {
        let mut nodes: Slab<LayoutNode> = Slab::new();
        let root = nodes.insert(
            LayoutNode::Container(
                Container { direction: Axis::Vertical, size: None, children: Vec::new(), parent: None },
            ),
        );
        let mut layout: Vec<Rect> = Vec::new();
        let cap = nodes.capacity();
        while layout.len() < cap
            invariant
                layout.len() <= cap,
                forall|i: int|
                    0 <= i < layout.len() ==> layout[i] == (Rect { x: 0, y: 0, width: 100, height: 100 }),
            decreases cap - layout.len(),
        {
            layout.push(Rect::default());
        }
        let l = Layout {
            nodes,
            layout,
            root,
            floating: FloatStack::new(),
            dirty: true,
            depth: Ghost(|n: NodeId| 0nat),
            limit: Ghost(1nat),
        };
        proof {
            let t = l.tree();
            let v = NodeView::Container {
                direction: Axis::Vertical,
                size: None,
                children: Seq::empty(),
                parent: None,
            };
            assert(t =~= Map::<NodeId, NodeView>::empty().insert(root, v));
            l.nodes.lemma_live_handle(root);
            assert(l.rects() =~= Map::<NodeId, Rect>::empty().insert(
                root,
                Rect { x: 0, y: 0, width: 100, height: 100 },
            ));
            assert(l.rects().dom() =~= t.dom());
            assert forall|c: NodeId| children_of(t, c).len() == 0 by {}
            assert forall|n: NodeId| parent_of(t, n) is None by {}
        }
        l
    }

    /// How many more nodes the layout can take.
    pub fn room(&self) -> (n: usize)
        requires
            self.arena_wf(),
        ensures
            n == self.spare(),
    {
        self.nodes.room()
    }

    /// The floating windows, from front to back.
    pub(crate) fn float_list(&self) -> (out: Vec<NodeId>)
        ensures
            out@ == self.float_order(),
    {
        self.floating.to_vec()
    }

    /// Get the id of the root node
    pub fn root(&self) -> (r: NodeId)
        ensures
            r == self.root_id(),
    {
        self.root
    }

    /// Checks if the node is the root node
    pub fn is_root(&self, node: NodeId) -> (b: bool)
        ensures
            b == (node == self.root_id()),
    {
        node == self.root
    }

    /// Whether the layout has changed since it was last computed.
    pub fn is_dirty(&self) -> (b: bool)
        ensures
            b == self.dirty_flag(),
    {
        self.dirty
    }

    /// Notes that the layout is to be computed anew.
    pub fn mark_dirty(&mut self)
        ensures
            final(self).dirty_flag(),
            final(self).same_but_dirty(old(self)),
    {
        self.dirty = true;
    }

    /// Two layouts that differ at most in whether they count as changed.
    pub open spec fn same_but_dirty(&self, other: &Self) -> bool {
        &&& self.tree() == other.tree()
        &&& self.rects() == other.rects()
        &&& self.root_id() == other.root_id()
        &&& self.float_order() == other.float_order()
        &&& self.depths() == other.depths()
        &&& self.depth_limit() == other.depth_limit()
        &&& self.spare() == other.spare()
        &&& self.arena_wf() == other.arena_wf()
    }

    /// The node that `node` reaches, as it is stored.
    pub closed spec fn stored(&self, node: NodeId) -> LayoutNode {
        self.nodes@[node]
    }

    /// The node that `node` reaches.
    pub fn node(&self, node: NodeId) -> (r: Option<&LayoutNode>)
        requires
            self.arena_wf(),
        ensures
            match r {
                Some(n) => {
                    &&& self.tree().contains_key(node)
                    &&& n@ == self.tree()[node]
                    &&& *n == self.stored(node)
                },
                None => !self.tree().contains_key(node),
            },
    {
        self.nodes.get(node)
    }

    /// Retrieve the computed layout for a given node
    pub fn layout(&self, node: NodeId) -> (r: Option<&Rect>)
        requires
            self.arena_wf(),
        ensures
            match r {
                Some(rect) => self.rects().contains_key(node) && *rect == self.rects()[node],
                None => !self.rects().contains_key(node),
            },
    {
        if self.nodes.contains(node) {
            proof {
                self.nodes.lemma_live_handle(node);
            }
            let (idx, _) = node.into_raw();
            Some(&self.layout[idx as usize])
        } else {
            None
        }
    }

    /// Checks if the given node is a leaf node.
    pub fn is_leaf(&self, node: NodeId) -> (b: bool)
        requires
            self.arena_wf(),
        ensures
            b == is_leaf(self.tree(), node),
    {
        match self.nodes.get(node) {
            Some(LayoutNode::Leaf(_)) => true,
            _ => false,
        }
    }

    /// Checks if the given node is a container node.
    pub fn is_container(&self, node: NodeId) -> (b: bool)
        requires
            self.arena_wf(),
        ensures
            b == is_container(self.tree(), node),
    {
        match self.nodes.get(node) {
            Some(LayoutNode::Container(_)) => true,
            _ => false,
        }
    }

    /// Checks if the given node is a floating window.
    pub fn is_floating(&self, node: NodeId) -> (b: bool)
        requires
            self.arena_wf(),
        ensures
            b == is_floating(self.tree(), node),
    {
        match self.nodes.get(node) {
            Some(LayoutNode::Floating(_)) => true,
            _ => false,
        }
    }

    /// If the given node is a container, returns a reference to its children.
    pub fn children(&self, node: NodeId) -> (r: Option<&Vec<NodeId>>)
        requires
            self.arena_wf(),
        ensures
            match r {
                Some(c) => is_container(self.tree(), node) && c@ == children_of(self.tree(), node),
                None => !is_container(self.tree(), node),
            },
    {
        match self.nodes.get(node) {
            Some(LayoutNode::Container(container)) => Some(&container.children),
            _ => None,
        }
    }

    /// If the given node is a container, returns its layout direction.
    pub fn direction(&self, node: NodeId) -> (r: Option<Axis>)
        requires
            self.arena_wf(),
        ensures
            match r {
                Some(d) => is_container(self.tree(), node) && d == self.tree()[node]->Container_direction,
                None => !is_container(self.tree(), node),
            },
    {
        match self.nodes.get(node) {
            Some(LayoutNode::Container(container)) => Some(container.direction),
            _ => None,
        }
    }

    /// If the given node is a container, returns the number of children it has.
    pub fn child_count(&self, node: NodeId) -> (r: Option<usize>)
        requires
            self.arena_wf(),
        ensures
            match r {
                Some(n) => is_container(self.tree(), node) && n == children_of(
                    self.tree(),
                    node,
                ).len(),
                None => !is_container(self.tree(), node),
            },
    {
        match self.nodes.get(node) {
            Some(LayoutNode::Container(container)) => Some(container.children.len()),
            _ => None,
        }
    }

    /// The handle of the widget that a leaf or a floating window shows.
    pub fn widget(&self, node: NodeId) -> (r: Option<WidgetId>)
        requires
            self.arena_wf(),
        ensures
            r == widget_of(self.tree(), node),
    {
        match self.nodes.get(node) {
            Some(LayoutNode::Leaf(leaf)) => Some(leaf.widget),
            Some(LayoutNode::Floating(float)) => Some(float.widget),
            _ => None,
        }
    }

    /// Returns the parent of the given node, if any.
    pub fn parent(&self, node: NodeId) -> (r: Option<NodeId>)
        requires
            self.arena_wf(),
        ensures
            r == parent_of(self.tree(), node),
    {
        match self.nodes.get(node) {
            Some(LayoutNode::Container(container)) => container.parent,
            Some(LayoutNode::Leaf(leaf)) => leaf.parent,
            _ => None,
        }
    }

    /// The place of `child` among the children of `parent`.
    pub fn child_index(&self, parent: NodeId, child: NodeId) -> (r: Option<usize>)
        requires
            self.arena_wf(),
        ensures
            match r {
                Some(i) => {
                    &&& i < children_of(self.tree(), parent).len()
                    &&& children_of(self.tree(), parent)[i as int] == child
                },
                None => !children_of(self.tree(), parent).contains(child),
            },
    {
        match self.nodes.get(parent) {
            Some(LayoutNode::Container(container)) => {
                let n: usize = container.children.len();
                let mut i: usize = 0;
                while i < n
                    invariant
                        i <= n,
                        n == container.children.len(),
                        container.children@ == children_of(self.tree(), parent),
                        forall|j: int| 0 <= j < i ==> container.children[j] != child,
                    decreases n - i,
                {
                    if container.children[i] == child {
                        return Some(i);
                    }
                    i = i + 1;
                }
                None
            },
            _ => None,
        }
    }

    /// Puts a node that has neither parent nor children into the arena and
    /// gives it `rect` until the layout is next computed.
    pub(crate) fn create(&mut self, node: LayoutNode, rect: Rect) -> (id: NodeId)
        requires
            old(self).flow_wf(),
            old(self).spare() > 0,
            is_fresh_node(node@),
        ensures
            final(self).flow_wf(),
            !old(self).tree().contains_key(id),
            final(self).tree() == old(self).tree().insert(id, node@),
            final(self).rects() == old(self).rects().insert(id, rect),
            final(self).root_id() == old(self).root_id(),
            final(self).float_order() == old(self).float_order(),
            final(self).dirty_flag() == old(self).dirty_flag(),
            final(self).spare() == old(self).spare() - 1,
            final(self).depth_limit() == old(self).depth_limit(),
            forall|n: NodeId| n != id ==> #[trigger] final(self).depth_at(n) == old(self).depth_at(n),
    {
        let ghost before = *self;
        let ghost view = node@;
        let id = self.nodes.insert(node);
        let cap = self.nodes.capacity();
        let ghost mid = *self;
        while self.layout.len() < cap
            invariant
                self.layout.len() >= before.layout.len(),
                forall|i: int| 0 <= i < before.layout.len() ==> self.layout[i] == before.layout[i],
                self.nodes == mid.nodes,
                self.root == mid.root,
                self.floating == mid.floating,
                self.dirty == mid.dirty,
                self.depth == mid.depth,
                self.limit == mid.limit,
            decreases cap - self.layout.len(),
        {
            self.layout.push(Rect::default());
        }
        let (idx, _) = id.into_raw();
        proof {
            self.nodes.lemma_live_handle(id);
        }
        self.layout[idx as usize] = rect;
        proof {
            let d = before.depth@;
            self.depth@ = |n: NodeId| if n == id { 0nat } else { d(n) };
            assert(self.tree() =~= before.tree().insert(id, view));
            assert forall|k: NodeId| before.nodes@.contains_key(k) implies self.layout@[k.index() as int]
                == before.layout@[k.index() as int] by {
                before.nodes.lemma_live_handle(k);
                if k.index() == id.index() {
                    self.nodes.lemma_one_handle_per_slot(k, id);
                }
            }
            assert(self.rects() =~= before.rects().insert(id, rect));
            lemma_with_node(before.tree(), before.root, d, before.limit@, id, view);
            assert(self.rects().dom() =~= self.tree().dom());
        }
        id
    }
}

impl Layout {
    /// Makes the parentless node `child` the child at place `index` of the
    /// container `parent`.
    pub(crate) fn attach(&mut self, parent: NodeId, child: NodeId, index: usize)
        requires
            old(self).flow_wf(),
            can_adopt(old(self).tree(), old(self).root_id(), old(self).depths(), parent, child),
            index <= children_of(old(self).tree(), parent).len(),
        ensures
            final(self).flow_wf(),
            final(self).tree() == attached(old(self).tree(), parent, child, index as int),
            final(self).rects() == old(self).rects(),
            final(self).root_id() == old(self).root_id(),
            final(self).float_order() == old(self).float_order(),
            final(self).dirty_flag() == old(self).dirty_flag(),
            final(self).spare() == old(self).spare(),
            final(self).depths() == sunk(
                old(self).tree(),
                old(self).depths(),
                child,
                old(self).depth_at(parent) + 1,
            ),
            final(self).depth_limit() == old(self).depth_limit() + old(self).depth_at(parent) + 1,
    {
        let ghost before = *self;
        let ghost t = before.tree();
        match self.nodes.get_mut(parent) {
            Some(LayoutNode::Container(c)) => {
                c.children.insert(index, child);
            },
            _ => {},
        }
        let ghost mid = *self;
        proof {
            mid.nodes.lemma_same_slots(&before.nodes);
            assert(mid.tree() =~= t.insert(
                parent,
                with_children(t[parent], children_of(t, parent).insert(index as int, child)),
            ));
        }
        match self.nodes.get_mut(child) {
            Some(LayoutNode::Container(c)) => {
                c.parent = Some(parent);
            },
            Some(LayoutNode::Leaf(l)) => {
                l.parent = Some(parent);
            },
            _ => {},
        }
        proof {
            self.nodes.lemma_same_slots(&mid.nodes);
            assert(self.tree() =~= attached(t, parent, child, index as int));
            assert(self.rects() =~= before.rects());
            let d = before.depth@;
            lemma_attached(t, before.root, d, before.limit@, parent, child, index as int);
            self.depth@ = sunk(t, d, child, d(parent) + 1);
            self.limit@ = before.limit@ + d(parent) + 1;
            assert(self.rects().dom() =~= self.tree().dom());
        }
    }

    /// Takes the child at place `index` out of the container `parent`. The
    /// child stays in the arena, without a parent.
    pub(crate) fn detach(&mut self, parent: NodeId, index: usize) -> (child: NodeId)
        requires
            old(self).flow_wf(),
            index < children_of(old(self).tree(), parent).len(),
        ensures
            final(self).flow_wf(),
            child == children_of(old(self).tree(), parent)[index as int],
            final(self).tree() == detached(old(self).tree(), parent, index as int),
            final(self).rects() == old(self).rects(),
            final(self).root_id() == old(self).root_id(),
            final(self).float_order() == old(self).float_order(),
            final(self).dirty_flag() == old(self).dirty_flag(),
            final(self).spare() == old(self).spare(),
            final(self).depths() == old(self).depths(),
            final(self).depth_limit() == old(self).depth_limit(),
    {
        let ghost before = *self;
        let ghost t = before.tree();
        let ghost c0 = children_of(t, parent)[index as int];
        proof {
            assert(t.contains_key(c0) && parent_of(t, c0) == Some(parent));
            assert(is_container(t, parent));
        }
        let child = match self.nodes.get_mut(parent) {
            Some(LayoutNode::Container(c)) => c.children.remove(index),
            _ => parent,
        };
        let ghost mid = *self;
        proof {
            mid.nodes.lemma_same_slots(&before.nodes);
            assert(mid.tree() =~= t.insert(
                parent,
                with_children(t[parent], children_of(t, parent).remove(index as int)),
            ));
        }
        match self.nodes.get_mut(child) {
            Some(LayoutNode::Container(c)) => {
                c.parent = None;
            },
            Some(LayoutNode::Leaf(l)) => {
                l.parent = None;
            },
            _ => {},
        }
        proof {
            self.nodes.lemma_same_slots(&mid.nodes);
            assert(self.tree() =~= detached(t, parent, index as int));
            assert(self.rects() =~= before.rects());
            lemma_detached(t, before.root, before.depth@, before.limit@, parent, index as int);
            assert(self.rects().dom() =~= self.tree().dom());
        }
        child
    }
}

impl Layout {
    /// Why container `parent` cannot take `child` as a child, if it cannot.
    pub open spec fn adoption_error(&self, parent: NodeId, child: NodeId) -> Option<Error> {
        let t = self.tree();
        if !t.contains_key(parent) {
            Some(Error::NodeNotFound(parent))
        } else if !(t[parent] is Container) {
            Some(Error::ExpectedContainer(parent))
        } else if !t.contains_key(child) {
            Some(Error::NodeNotFound(child))
        } else if t[child] is Floating || child == self.root_id() || parent_of(t, child) is Some
            || self.above_or_self(child, parent) {
            Some(Error::InvalidChild(child))
        } else {
            None
        }
    }

    /// Whether `a` is `n` or lies on the chain of parents above `n`.
    pub fn is_above_or_self(&self, a: NodeId, n: NodeId) -> (b: bool)
        requires
            self.flow_wf(),
        ensures
            b == self.above_or_self(a, n),
    {
        let mut cur = n;
        loop
            invariant
                self.flow_wf(),
                self.above_or_self(a, n) == self.above_or_self(a, cur),
            decreases self.depth_at(cur),
        {
            if cur == a {
                return true;
            }
            match self.parent(cur) {
                Some(p) => {
                    proof {
                        assert(self.tree().contains_key(cur));
                    }
                    cur = p;
                },
                None => {
                    return false;
                },
            }
        }
    }

    /// Finds out why container `parent` cannot take `child`, if it cannot.
    pub(crate) fn check_adoption(&self, parent: NodeId, child: NodeId) -> (r: Option<Error>)
        requires
            self.flow_wf(),
        ensures
            r == self.adoption_error(parent, child),
            r is None ==> can_adopt(self.tree(), self.root_id(), self.depths(), parent, child),
    {
        match self.nodes.get(parent) {
            None => {
                return Some(Error::NodeNotFound(parent));
            },
            Some(LayoutNode::Container(_)) => {},
            Some(_) => {
                return Some(Error::ExpectedContainer(parent));
            },
        }
        match self.nodes.get(child) {
            None => {
                return Some(Error::NodeNotFound(child));
            },
            Some(LayoutNode::Floating(_)) => {
                return Some(Error::InvalidChild(child));
            },
            Some(_) => {},
        }
        if child == self.root || self.parent(child).is_some() || self.is_above_or_self(
            child,
            parent,
        ) {
            return Some(Error::InvalidChild(child));
        }
        None
    }

    /// A change to the flow of the tree that leaves the floating nodes as they
    /// are leaves the floating windows in order.
    pub(crate) proof fn lemma_floats_kept(&self, before: &Self)
        requires
            before.floats_wf(),
            self.float_order() == before.float_order(),
            forall|x: NodeId|
                is_floating(before.tree(), x) ==> #[trigger] self.tree().contains_key(x)
                    && self.tree()[x] == before.tree()[x],
            forall|x: NodeId| #[trigger]
                is_floating(self.tree(), x) ==> is_floating(before.tree(), x),
        ensures
            self.floats_wf(),
    {
        let s = self.float_order();
        assert forall|i: int| 0 <= i < s.len() implies is_floating(
            before.tree(),
            #[trigger] s[i],
        ) by {
            assert(s.contains(s[i]));
        }
        lemma_floats_untouched(s, before.tree(), self.tree());
        assert forall|id: NodeId| s.contains(id) <==> is_floating(self.tree(), id) by {
            if s.contains(id) {
                assert(is_floating(before.tree(), id));
                assert(self.tree().contains_key(id));
            }
        }
    }

    /// Adds a new leaf node to the layout. The leaf has no parent yet.
    pub fn add_leaf(&mut self, widget: WidgetId) -> (id: NodeId)
        requires
            old(self).wf(),
            old(self).spare() > 0,
        ensures
            final(self).wf(),
            !old(self).tree().contains_key(id),
            final(self).tree() == old(self).tree().insert(
                id,
                NodeView::Leaf { widget, parent: None },
            ),
            final(self).rects() == old(self).rects().insert(
                id,
                Rect { x: 0, y: 0, width: 100, height: 100 },
            ),
            final(self).root_id() == old(self).root_id(),
            final(self).float_order() == old(self).float_order(),
            final(self).dirty_flag(),
            final(self).spare() == old(self).spare() - 1,
    {
        let ghost before = *self;
        self.dirty = true;
        let id = self.create(LayoutNode::Leaf(Leaf { widget, parent: None }), Rect::default());
        proof {
            self.lemma_floats_kept(&before);
        }
        id
    }

    /// Adds a new leaf for a widget that is in the store already.
    pub fn add_leaf_raw(&mut self, widget: WidgetId) -> (id: NodeId)
        requires
            old(self).wf(),
            old(self).spare() > 0,
        ensures
            final(self).wf(),
            !old(self).tree().contains_key(id),
            final(self).tree() == old(self).tree().insert(
                id,
                NodeView::Leaf { widget, parent: None },
            ),
            final(self).rects() == old(self).rects().insert(
                id,
                Rect { x: 0, y: 0, width: 100, height: 100 },
            ),
            final(self).root_id() == old(self).root_id(),
            final(self).float_order() == old(self).float_order(),
            final(self).dirty_flag(),
            final(self).spare() == old(self).spare() - 1,
    {
        self.add_leaf(widget)
    }

    /// Adds a new (empty) container node to the layout.
    pub fn add_container(&mut self, direction: Axis, size: Option<Constraint>) -> (id: NodeId)
        requires
            old(self).wf(),
            old(self).spare() > 0,
        ensures
            final(self).wf(),
            !old(self).tree().contains_key(id),
            final(self).tree() == old(self).tree().insert(
                id,
                NodeView::Container { direction, size, children: Seq::empty(), parent: None },
            ),
            final(self).rects() == old(self).rects().insert(
                id,
                Rect { x: 0, y: 0, width: 100, height: 100 },
            ),
            final(self).root_id() == old(self).root_id(),
            final(self).float_order() == old(self).float_order(),
            final(self).dirty_flag(),
            final(self).spare() == old(self).spare() - 1,
    {
        let ghost before = *self;
        self.dirty = true;
        let id = self.create(
            LayoutNode::Container(Container { children: Vec::new(), direction, size, parent: None }),
            Rect::default(),
        );
        proof {
            self.lemma_floats_kept(&before);
        }
        id
    }

    /// Adds a floating window that shows `widget` at `rect`. Among the windows
    /// of its z-index it goes to the back.
    pub fn add_floating(&mut self, widget: WidgetId, rect: Rect) -> (id: NodeId)
        requires
            old(self).wf(),
            old(self).spare() > 0,
        ensures
            final(self).wf(),
            !old(self).tree().contains_key(id),
            final(self).tree() == old(self).tree().insert(
                id,
                NodeView::Floating { widget, pos: rect, z_index: 1 },
            ),
            final(self).rects() == old(self).rects().insert(id, rect),
            final(self).root_id() == old(self).root_id(),
            final(self).float_order() == placed(old(self).float_order(), final(self).tree(), id),
            final(self).dirty_flag(),
            final(self).spare() == old(self).spare() - 1,
    {
        let ghost before = *self;
        self.dirty = true;
        let id = self.create(LayoutNode::Floating(Floating::new(widget, rect)), rect);
        self.floating.push(id, &self.nodes);
        proof {
            let s = before.float_order();
            let t = before.tree();
            let t2 = self.tree();
            assert forall|i: int| 0 <= i < s.len() implies is_floating(t, #[trigger] s[i]) by {
                assert(s.contains(s[i]));
            }
            lemma_floats_untouched(s, t, t2);
            lemma_stacked_fixpoint(s, t2);
            assert(s.push(id).drop_last() =~= s);
            assert(stacked(s.push(id), t2) == placed(s, t2, id));
            assert(!s.contains(id)) by {
                if s.contains(id) {
                    assert(is_floating(t, id));
                }
            }
            lemma_placed(s, t2, id);
            let s2 = self.float_order();
            assert(s2 == placed(s, t2, id));
            assert forall|y: NodeId| s2.contains(y) <==> is_floating(t2, y) by {
                if y != id {
                    assert(is_floating(t2, y) == is_floating(t, y));
                    assert(s.contains(y) == is_floating(t, y));
                }
            }
            assert(s2.no_duplicates());
            assert(front_to_back(s2, t2));
        }
        id
    }

    /// Sets the size hint for a container
    pub fn set_size(&mut self, node: NodeId, size: Constraint)
        requires
            old(self).wf(),
        ensures
            final(self).wf(),
            final(self).tree() == if is_container(old(self).tree(), node) {
                old(self).tree().insert(
                    node,
                    NodeView::Container {
                        direction: old(self).tree()[node]->Container_direction,
                        size: Some(size),
                        children: old(self).tree()[node]->Container_children,
                        parent: old(self).tree()[node]->Container_parent,
                    },
                )
            } else {
                old(self).tree()
            },
            final(self).rects() == old(self).rects(),
            final(self).root_id() == old(self).root_id(),
            final(self).float_order() == old(self).float_order(),
            final(self).dirty_flag(),
            final(self).spare() == old(self).spare(),
    {
        let ghost before = *self;
        self.dirty = true;
        match self.nodes.get_mut(node) {
            Some(LayoutNode::Container(container)) => {
                container.size = Some(size);
            },
            _ => {},
        }
        proof {
            self.nodes.lemma_same_slots(&before.nodes);
            let t = before.tree();
            if is_container(t, node) {
                assert(self.tree() =~= t.insert(
                    node,
                    NodeView::Container {
                        direction: t[node]->Container_direction,
                        size: Some(size),
                        children: t[node]->Container_children,
                        parent: t[node]->Container_parent,
                    },
                ));
            } else {
                assert(self.tree() =~= t);
            }
            assert(self.rects() =~= before.rects());
            lemma_same_links(t, self.tree(), before.root, before.depth@, before.limit@);
            assert(self.rects().dom() =~= self.tree().dom());
            self.lemma_floats_kept(&before);
        }
    }

    /// Sets the direction of a container node.
    pub fn set_direction(&mut self, node: NodeId, axis: Axis)
        requires
            old(self).wf(),
        ensures
            final(self).wf(),
            final(self).tree() == if is_container(old(self).tree(), node) {
                old(self).tree().insert(
                    node,
                    NodeView::Container {
                        direction: axis,
                        size: old(self).tree()[node]->Container_size,
                        children: old(self).tree()[node]->Container_children,
                        parent: old(self).tree()[node]->Container_parent,
                    },
                )
            } else {
                old(self).tree()
            },
            final(self).rects() == old(self).rects(),
            final(self).root_id() == old(self).root_id(),
            final(self).float_order() == old(self).float_order(),
            final(self).dirty_flag(),
            final(self).spare() == old(self).spare(),
    {
        let ghost before = *self;
        self.dirty = true;
        match self.nodes.get_mut(node) {
            Some(LayoutNode::Container(container)) => {
                container.direction = axis;
            },
            _ => {},
        }
        proof {
            self.nodes.lemma_same_slots(&before.nodes);
            let t = before.tree();
            if is_container(t, node) {
                assert(self.tree() =~= t.insert(
                    node,
                    NodeView::Container {
                        direction: axis,
                        size: t[node]->Container_size,
                        children: t[node]->Container_children,
                        parent: t[node]->Container_parent,
                    },
                ));
            } else {
                assert(self.tree() =~= t);
            }
            assert(self.rects() =~= before.rects());
            lemma_same_links(t, self.tree(), before.root, before.depth@, before.limit@);
            assert(self.rects().dom() =~= self.tree().dom());
            self.lemma_floats_kept(&before);
        }
    }

    /// Makes `child` the last child of the container `parent`.
    pub fn add_child(&mut self, parent: NodeId, child: NodeId) -> (r: Result<(), Error>)
        requires
            old(self).wf(),
        ensures
            final(self).wf(),
            match old(self).adoption_error(parent, child) {
                Some(e) => r == Err::<(), Error>(e) && *final(self) == *old(self),
                None => {
                    &&& r is Ok
                    &&& final(self).tree() == attached(
                        old(self).tree(),
                        parent,
                        child,
                        children_of(old(self).tree(), parent).len() as int,
                    )
                    &&& final(self).rects() == old(self).rects()
                    &&& final(self).root_id() == old(self).root_id()
                    &&& final(self).float_order() == old(self).float_order()
                    &&& final(self).dirty_flag()
                    &&& final(self).spare() == old(self).spare()
                },
            },
    {
        let index = match self.child_count(parent) {
            Some(n) => n,
            None => 0,
        };
        self.insert_child_at(parent, child, index)
    }

    /// Inserts a new child node at the given index.
    pub fn insert_child_at(&mut self, parent: NodeId, child: NodeId, index: usize) -> (r: Result<
        (),
        Error,
    >)
        requires
            old(self).wf(),
        ensures
            final(self).wf(),
            match old(self).adoption_error(parent, child) {
                Some(e) => r == Err::<(), Error>(e) && *final(self) == *old(self),
                None => if index <= children_of(old(self).tree(), parent).len() {
                    &&& r is Ok
                    &&& final(self).tree() == attached(
                        old(self).tree(),
                        parent,
                        child,
                        index as int,
                    )
                    &&& final(self).rects() == old(self).rects()
                    &&& final(self).root_id() == old(self).root_id()
                    &&& final(self).float_order() == old(self).float_order()
                    &&& final(self).dirty_flag()
                    &&& final(self).spare() == old(self).spare()
                } else {
                    r == Err::<(), Error>(Error::NoSuchChild(parent)) && *final(self) == *old(self)
                },
            },
    {
        let ghost before = *self;
        match self.check_adoption(parent, child) {
            Some(e) => {
                return Err(e);
            },
            None => {},
        }
        let count = match self.child_count(parent) {
            Some(n) => n,
            None => 0,
        };
        if index > count {
            return Err(Error::NoSuchChild(parent));
        }
        self.dirty = true;
        self.attach(parent, child, index);
        proof {
            self.lemma_floats_kept(&before);
        }
        Ok(())
    }

    /// Takes the child at place `index` out of the container `parent`. The
    /// child stays in the layout, without a parent.
    pub fn remove_child_by_index(&mut self, parent: NodeId, index: usize) -> (r: Result<(), Error>)
        requires
            old(self).wf(),
        ensures
            final(self).wf(),
            r == if !old(self).tree().contains_key(parent) {
                Err::<(), Error>(Error::NodeNotFound(parent))
            } else if !is_container(old(self).tree(), parent) {
                Err::<(), Error>(Error::ExpectedContainer(parent))
            } else if index >= children_of(old(self).tree(), parent).len() {
                Err::<(), Error>(Error::NoSuchChild(parent))
            } else {
                Ok::<(), Error>(())
            },
            r is Err ==> *final(self) == *old(self),
            r is Ok ==> {
                &&& final(self).tree() == detached(old(self).tree(), parent, index as int)
                &&& final(self).rects() == old(self).rects()
                &&& final(self).root_id() == old(self).root_id()
                &&& final(self).float_order() == old(self).float_order()
                &&& final(self).dirty_flag()
                &&& final(self).spare() == old(self).spare()
            },
    {
        let ghost before = *self;
        match self.nodes.get(parent) {
            None => {
                return Err(Error::NodeNotFound(parent));
            },
            Some(LayoutNode::Container(c)) => {
                if index >= c.children.len() {
                    return Err(Error::NoSuchChild(parent));
                }
            },
            Some(_) => {
                return Err(Error::ExpectedContainer(parent));
            },
        }
        self.dirty = true;
        let _ = self.detach(parent, index);
        proof {
            self.lemma_floats_kept(&before);
        }
        Ok(())
    }

    /// Removes a child from the given container. This does not drop the node.
    /// Without effect on the tree where `child` is no child of `parent`.
    pub fn remove_child(&mut self, parent: NodeId, child: NodeId) -> (r: Result<(), Error>)
        requires
            old(self).wf(),
        ensures
            final(self).wf(),
            r == if !old(self).tree().contains_key(parent) {
                Err::<(), Error>(Error::NodeNotFound(parent))
            } else if !is_container(old(self).tree(), parent) {
                Err::<(), Error>(Error::ExpectedContainer(parent))
            } else {
                Ok::<(), Error>(())
            },
            r is Err ==> *final(self) == *old(self),
            r is Ok ==> {
                &&& final(self).tree() == if children_of(old(self).tree(), parent).contains(child) {
                    detached(
                        old(self).tree(),
                        parent,
                        children_of(old(self).tree(), parent).index_of(child),
                    )
                } else {
                    old(self).tree()
                }
                &&& final(self).rects() == old(self).rects()
                &&& final(self).root_id() == old(self).root_id()
                &&& final(self).float_order() == old(self).float_order()
                &&& final(self).dirty_flag()
                &&& final(self).spare() == old(self).spare()
            },
    {
        let ghost before = *self;
        match self.nodes.get(parent) {
            None => {
                return Err(Error::NodeNotFound(parent));
            },
            Some(LayoutNode::Container(_)) => {},
            Some(_) => {
                return Err(Error::ExpectedContainer(parent));
            },
        }
        self.dirty = true;
        match self.child_index(parent, child) {
            Some(index) => {
                proof {
                    let cs = children_of(before.tree(), parent);
                    let k = cs.index_of(child);
                    assert(cs.contains(child));
                    assert(cs[k] == child);
                    if k != index {
                        assert(cs[index as int] == cs[k]);
                    }
                }
                let _ = self.detach(parent, index);
                proof {
                    self.lemma_floats_kept(&before);
                }
            },
            None => {},
        }
        Ok(())
    }

    /// Turns the floating window `node` into a leaf without a parent. Without
    /// effect on the tree where `node` is no floating window.
    pub fn make_leaf(&mut self, node: NodeId)
        requires
            old(self).wf(),
        ensures
            final(self).wf(),
            final(self).dirty_flag(),
            final(self).rects() == old(self).rects(),
            final(self).root_id() == old(self).root_id(),
            final(self).spare() == old(self).spare(),
            if is_floating(old(self).tree(), node) {
                &&& final(self).tree() == old(self).tree().insert(
                    node,
                    NodeView::Leaf {
                        widget: widget_of(old(self).tree(), node)->0,
                        parent: None,
                    },
                )
                &&& final(self).float_order() == without(old(self).float_order(), node)
            } else {
                &&& final(self).tree() == old(self).tree()
                &&& final(self).float_order() == old(self).float_order()
            },
    {
        let ghost before = *self;
        self.dirty = true;
        let widget = match self.nodes.get(node) {
            Some(LayoutNode::Floating(f)) => f.widget,
            _ => {
                return ;
            },
        };
        let _ = self.nodes.set(node, LayoutNode::Leaf(Leaf { widget, parent: None }));
        self.floating.remove(node);
        proof {
            self.nodes.lemma_same_slots(&before.nodes);
            let t = before.tree();
            let t2 = self.tree();
            let s = before.float_order();
            assert(t2 =~= t.insert(node, NodeView::Leaf { widget, parent: None }));
            assert(self.rects() =~= before.rects());
            lemma_same_links(t, t2, before.root, before.depth@, before.limit@);
            assert(self.rects().dom() =~= t2.dom());
            lemma_without(s, node);
            lemma_without_keeps_order(s, t, node);
            let s2 = self.float_order();
            assert forall|i: int, j: int| 0 <= i < j < s2.len() implies z_of(
                t2,
                s2[i],
            ) >= z_of(t2, s2[j]) by {
                assert(s2.contains(s2[i]) && s2.contains(s2[j]));
                assert(s2[i] != node && s2[j] != node);
                assert(z_of(t, s2[i]) >= z_of(t, s2[j]));
            }
            assert forall|y: NodeId| s2.contains(y) <==> is_floating(t2, y) by {
                if y != node {
                    assert(s2.contains(y) == s.contains(y));
                    assert(is_floating(t2, y) == is_floating(t, y));
                }
            }
        }
    }
}

impl Layout {
    /// Gives `node` the rectangle `rect`.
    pub(crate) fn set_rect(&mut self, node: NodeId, rect: Rect)
        requires
            old(self).flow_wf(),
            old(self).tree().contains_key(node),
        ensures
            final(self).flow_wf(),
            final(self).tree() == old(self).tree(),
            final(self).rects() == old(self).rects().insert(node, rect),
            final(self).root_id() == old(self).root_id(),
            final(self).float_order() == old(self).float_order(),
            final(self).dirty_flag() == old(self).dirty_flag(),
            final(self).spare() == old(self).spare(),
            final(self).depths() == old(self).depths(),
            final(self).depth_limit() == old(self).depth_limit(),
    {
        let ghost before = *self;
        proof {
            self.nodes.lemma_live_handle(node);
        }
        let (idx, _) = node.into_raw();
        self.layout[idx as usize] = rect;
        proof {
            assert forall|k: NodeId| before.nodes@.contains_key(k) && k != node implies self.layout@[k.index() as int]
                == before.layout@[k.index() as int] by {
                before.nodes.lemma_live_handle(k);
                if k.index() == node.index() {
                    before.nodes.lemma_one_handle_per_slot(k, node);
                }
            }
            assert(self.rects() =~= before.rects().insert(node, rect));
            assert(self.rects().dom() =~= self.tree().dom());
        }
    }

    /// Notes that the layout has been computed.
    pub(crate) fn mark_clean(&mut self)
        ensures
            !final(self).dirty_flag(),
            final(self).same_but_dirty(old(self)),
    {
        self.dirty = false;
    }
}

impl Layout {
    /// Drops a node that has neither parent nor children from the arena, and
    /// from the floating windows if it is one.
    pub(crate) fn destroy(&mut self, node: NodeId)
        requires
            old(self).wf(),
            old(self).tree().contains_key(node),
            node != old(self).root_id(),
            parent_of(old(self).tree(), node) is None,
            children_of(old(self).tree(), node).len() == 0,
        ensures
            final(self).wf(),
            final(self).tree() == old(self).tree().remove(node),
            final(self).rects() == old(self).rects().remove(node),
            final(self).float_order() == without(old(self).float_order(), node),
            final(self).root_id() == old(self).root_id(),
            final(self).dirty_flag() == old(self).dirty_flag(),
            final(self).spare() >= old(self).spare(),
    {
        let ghost before = *self;
        let _ = self.nodes.remove(node);
        self.floating.remove(node);
        proof {
            let t = before.tree();
            let t2 = self.tree();
            let s = before.float_order();
            let s2 = self.float_order();
            assert(t2 =~= t.remove(node));
            assert(self.rects() =~= before.rects().remove(node));
            lemma_without_node(t, before.root, before.depth@, before.limit@, node);
            assert(self.rects().dom() =~= t2.dom());
            lemma_without(s, node);
            lemma_without_keeps_order(s, t, node);
            assert forall|i: int, j: int| 0 <= i < j < s2.len() implies z_of(t2, s2[i]) >= z_of(
                t2,
                s2[j],
            ) by {
                assert(s2.contains(s2[i]) && s2.contains(s2[j]));
                assert(s2[i] != node && s2[j] != node);
                assert(s.contains(s2[i]) && s.contains(s2[j]));
                assert(z_of(t, s2[i]) >= z_of(t, s2[j]));
            }
            assert forall|y: NodeId| s2.contains(y) <==> is_floating(t2, y) by {
                if y != node {
                    assert(s2.contains(y) == s.contains(y));
                    assert(is_floating(t2, y) == is_floating(t, y));
                }
            }
        }
    }

    /// Drops every node but the root, which is left without children, and
    /// forgets all computed rectangles.
    pub fn clean(&mut self)
        requires
            old(self).wf(),
        ensures
            final(self).wf(),
            final(self).dirty_flag(),
            final(self).root_id() == old(self).root_id(),
            final(self).tree() == Map::<NodeId, NodeView>::empty().insert(
                old(self).root_id(),
                with_children(old(self).tree()[old(self).root_id()], Seq::empty()),
            ),
            final(self).rects() == Map::<NodeId, Rect>::empty().insert(
                old(self).root_id(),
                Rect { x: 0, y: 0, width: 100, height: 100 },
            ),
            final(self).float_order() == Seq::<NodeId>::empty(),
            final(self).spare() >= old(self).spare(),
    {
        let ghost before = *self;
        let root = self.root;
        self.dirty = true;
        let keep_root = |k: NodeId, v: &LayoutNode| -> (keep: bool)
            ensures
                keep == (k == root),
            { k == root };
        self.nodes.retain(keep_root);
        let ghost mid = *self;
        proof {
            assert(before.nodes@.contains_key(root));
            assert forall|k: NodeId| mid.nodes@.contains_key(k) <==> k == root by {
                if mid.nodes@.contains_key(k) {
                    assert(before.nodes@.contains_key(k));
                }
            }
            assert(mid.nodes@.dom() =~= set![root]);
        }
        match self.nodes.get_mut(root) {
            Some(LayoutNode::Container(c)) => {
                c.children.clear();
            },
            _ => {},
        }
        self.floating = FloatStack::new();
        proof {
            self.nodes.lemma_live_handle(root);
            self.nodes.lemma_same_slots(&mid.nodes);
        }
        let (idx, _) = root.into_raw();
        self.layout[idx as usize] = Rect::default();
        proof {
            let t = before.tree();
            let t2 = self.tree();
            assert(t2 =~= Map::<NodeId, NodeView>::empty().insert(
                root,
                with_children(t[root], Seq::empty()),
            ));
            assert(self.rects() =~= Map::<NodeId, Rect>::empty().insert(
                root,
                Rect { x: 0, y: 0, width: 100, height: 100 },
            ));
            assert(self.rects().dom() =~= t2.dom());
            assert forall|c: NodeId| children_of(t2, c).len() == 0 by {}
            assert forall|n: NodeId| parent_of(t2, n) is None by {
                assert(parent_of(t, root) is None);
            }
            assert forall|n: NodeId| #[trigger] t2.contains_key(n) implies {
                &&& (before.depth@)(n) < before.limit@
                &&& parent_of(t2, n) is Some ==> (before.depth@)(parent_of(t2, n)->0) < (
                before.depth@)(n)
            } by {
                assert(t.contains_key(n));
            }
        }
    }
}

} // verus!
