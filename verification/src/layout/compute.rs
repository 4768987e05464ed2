//! Computing the layout: every container divides its rectangle among its
//! children, from the root down, and every floating window is cut back to the
//! screen.

use crate::allocator::NodeId;
use crate::layout::geometry::{Axis, Constraint, Rect};
use crate::layout::node::{
    ancestor_or_self,
    children_of,
    is_container,
    is_floating,
    is_leaf,
    lemma_above_extends,
    lemma_above_is_no_deeper,
    lemma_below_a_child,
    lemma_chain_is_linear,
    lemma_children_apart,
    parent_of,
    tree_wf,
    LayoutNode,
    Tree,
};
use crate::layout::order::slack;
use crate::layout::solver::{
    child_rect, compute_sizes, fill_count, fixed_total, lemma_sizes_fill_the_extent, place_children,
    share_sizes_total, solved, sum_upto,
};
use crate::layout::tree::Layout;
use crate::widget::{Widget, WidgetId, WidgetStore};
use vstd::prelude::*;

verus! {

/// Whether `h` is the size that node `n` asks for. A container asks for the
/// size it was given, or for `Fill`; a leaf asks for what its widget among
/// `known` answers when it is asked for its constraint, or for `Fill` where
/// `known` does not hold its widget; anything else asks for `Fill`.
pub open spec fn hint_fits<W: Widget>(
    t: Tree,
    known: Map<WidgetId, W>,
    n: NodeId,
    h: Constraint,
) -> bool {
    if is_container(t, n) {
        h == match t[n]->Container_size {
            Some(c) => c,
            None => Constraint::Fill,
        }
    } else if is_leaf(t, n) {
        if known.contains_key(t[n]->Leaf_widget) {
            call_ensures(W::constraint, (&known[t[n]->Leaf_widget],), h)
        } else {
            h == Constraint::Fill
        }
    } else {
        h == Constraint::Fill
    }
}

/// Whether `hints` can be the sizes that the children of `c` ask for.
pub open spec fn hints_fit<W: Widget>(
    t: Tree,
    known: Map<WidgetId, W>,
    c: NodeId,
    hints: Seq<Constraint>,
) -> bool {
    &&& hints.len() == children_of(t, c).len()
    &&& forall|i: int|
        0 <= i < hints.len() ==> hint_fits(t, known, children_of(t, c)[i], #[trigger] hints[i])
}

/// Whether the children of container `c` have the rectangles that the solver
/// gives them in the rectangle of `c` when they ask for `hints`.
pub open spec fn arranged(t: Tree, rects: Map<NodeId, Rect>, c: NodeId, hints: Seq<Constraint>) -> bool {
    forall|i: int|
        0 <= i < children_of(t, c).len() ==> rects[#[trigger] children_of(t, c)[i]] == child_rect(
            rects[c],
            t[c]->Container_direction,
            solved(rects[c].extent_along(t[c]->Container_direction) as nat, hints),
            i,
        )
}

/// Whether the children of container `c` divide the rectangle of `c` as the
/// solver says, for sizes that they can have asked for.
pub open spec fn placed<W: Widget>(
    t: Tree,
    rects: Map<NodeId, Rect>,
    known: Map<WidgetId, W>,
    c: NodeId,
) -> bool {
    exists|hints: Seq<Constraint>| #[trigger] hints_fit(t, known, c, hints) && arranged(t, rects, c, hints)
}

/// A container stays placed while its rectangle and those of its children stay.
pub proof fn lemma_placed_kept<W: Widget>(
    t: Tree,
    r1: Map<NodeId, Rect>,
    r2: Map<NodeId, Rect>,
    known: Map<WidgetId, W>,
    c: NodeId,
)
    requires
        placed(t, r1, known, c),
        r2[c] == r1[c],
        forall|i: int|
            0 <= i < children_of(t, c).len() ==> r2[#[trigger] children_of(t, c)[i]]
                == r1[children_of(t, c)[i]],
    ensures
        placed(t, r2, known, c),
{
    let hints = choose|hints: Seq<Constraint>| #[trigger]
        hints_fit(t, known, c, hints) && arranged(t, r1, c, hints);
    assert(arranged(t, r2, c, hints));
}

/// Where every child of the placed container `c` can ask for one size only,
/// the one that `hints` holds for it, the children have the rectangles that
/// the solver gives them for `hints`.
pub proof fn lemma_placed_by<W: Widget>(
    t: Tree,
    rects: Map<NodeId, Rect>,
    known: Map<WidgetId, W>,
    c: NodeId,
    hints: Seq<Constraint>,
)
    requires
        placed(t, rects, known, c),
        hints.len() == children_of(t, c).len(),
        forall|i: int, h: Constraint|
            0 <= i < hints.len() && #[trigger] hint_fits(t, known, children_of(t, c)[i], h) ==> h
                == hints[i],
    ensures
        arranged(t, rects, c, hints),
{
    let found = choose|found: Seq<Constraint>| #[trigger]
        hints_fit(t, known, c, found) && arranged(t, rects, c, found);
    assert forall|i: int| 0 <= i < hints.len() implies found[i] == hints[i] by {
        assert(hint_fits(t, known, children_of(t, c)[i], found[i]));
    }
    assert(found =~= hints);
}

impl Layout {
    /// Whether every container at or below `top` is placed.
    pub open spec fn placed_below<W: Widget>(&self, known: Map<WidgetId, W>, top: NodeId) -> bool {
        forall|c: NodeId| #[trigger]
            self.above_or_self(top, c) && is_container(self.tree(), c) ==> placed(
                self.tree(),
                self.rects(),
                known,
                c,
            )
    }

    /// Whether every node that is not at or below `top` has the rectangle it
    /// has in `before`.
    pub open spec fn kept_outside(&self, before: &Self, top: NodeId) -> bool {
        forall|n: NodeId|
            self.tree().contains_key(n) && !(#[trigger] self.above_or_self(top, n))
                ==> self.rects()[n] == before.rects()[n]
    }

    /// Whether the two layouts differ in nothing but their rectangles.
    pub open spec fn same_but_rects(&self, before: &Self) -> bool {
        &&& self.tree() == before.tree()
        &&& self.rects().dom() == before.rects().dom()
        &&& self.root_id() == before.root_id()
        &&& self.float_order() == before.float_order()
        &&& self.dirty_flag() == before.dirty_flag()
        &&& self.spare() == before.spare()
        &&& self.depths() == before.depths()
        &&& self.depth_limit() == before.depth_limit()
    }

    /// What `compute` leaves where it had work to do: the root fills `bounds`,
    /// every container of the tree under the root divides its rectangle among
    /// its children as the solver says, every floating window has its own
    /// rectangle cut back to `bounds`, and the nodes outside the tree keep the
    /// rectangles they had.
    pub open spec fn laid_out<W: Widget>(
        &self,
        before: &Self,
        bounds: Rect,
        known: Map<WidgetId, W>,
    ) -> bool {
        &&& self.rects()[self.root_id()] == bounds
        &&& self.placed_below(known, self.root_id())
        &&& forall|f: NodeId| #[trigger]
            is_floating(self.tree(), f) ==> self.rects()[f]
                == self.tree()[f]->Floating_pos.clipped_to(&bounds)
        &&& forall|n: NodeId|
            self.tree().contains_key(n) && !(#[trigger] self.above_or_self(self.root_id(), n))
                && !is_floating(self.tree(), n) ==> self.rects()[n] == before.rects()[n]
    }

    /// Get the size hint of a given node
    pub fn size<W: Widget>(&self, node: NodeId, widgets: &WidgetStore<W>) -> (c: Constraint)
        requires
            self.arena_wf(),
            widgets.wf(),
        ensures
            hint_fits(self.tree(), widgets@, node, c),
    {
        match self.node(node) {
            Some(LayoutNode::Container(container)) => match container.size {
                Some(c) => c,
                None => Constraint::Fill,
            },
            Some(LayoutNode::Leaf(leaf)) => match widgets.get(leaf.widget) {
                Some(w) => w.constraint(),
                None => Constraint::Fill,
            },
            Some(LayoutNode::Floating(_)) => Constraint::Fill,
            None => Constraint::Fill,
        }
    }

    /// Asks every child of `node` for its size.
    fn gather_hints<W: Widget>(&self, node: NodeId, widgets: &WidgetStore<W>) -> (r: (
        Vec<NodeId>,
        Vec<Constraint>,
    ))
        requires
            self.arena_wf(),
            widgets.wf(),
        ensures
            r.0@ == children_of(self.tree(), node),
            hints_fit(self.tree(), widgets@, node, r.1@),
    {
        let mut ids: Vec<NodeId> = Vec::new();
        let mut hints: Vec<Constraint> = Vec::new();
        match self.children(node) {
            Some(children) => {
                let n: usize = children.len();
                let mut i: usize = 0;
                while i < n
                    invariant
                        i <= n,
                        n == children.len(),
                        children@ == children_of(self.tree(), node),
                        self.arena_wf(),
                        widgets.wf(),
                        ids@ == children@.take(i as int),
                        hints.len() == i,
                        forall|k: int|
                            0 <= k < i ==> hint_fits(
                                self.tree(),
                                widgets@,
                                children@[k],
                                #[trigger] hints@[k],
                            ),
                    decreases n - i,
                {
                    let child = children[i];
                    let hint = self.size(child, widgets);
                    ids.push(child);
                    hints.push(hint);
                    assert(children@.take(i + 1) =~= children@.take(i as int).push(child));
                    i = i + 1;
                }
                assert(children@.take(n as int) =~= children@);
            },
            None => {
                assert(ids@ =~= children_of(self.tree(), node));
            },
        }
        (ids, hints)
    }

    /// Computes layout for an individual node: gives the node `bounds` and
    /// divides them among its children. Returns the children and their
    /// rectangles.
    fn compute_node<W: Widget>(&mut self, node: NodeId, bounds: &Rect, widgets: &WidgetStore<W>) -> (r:
        (Vec<NodeId>, Vec<Rect>, Ghost<Seq<Constraint>>))
        requires
            old(self).flow_wf(),
            old(self).tree().contains_key(node),
            widgets.wf(),
        ensures
            final(self).flow_wf(),
            final(self).same_but_rects(old(self)),
            r.0@ == children_of(final(self).tree(), node),
            r.1.len() == r.0.len(),
            final(self).rects()[node] == *bounds,
            forall|j: int| 0 <= j < r.0.len() ==> final(self).rects()[#[trigger] r.0@[j]] == r.1@[j],
            forall|n: NodeId|
                final(self).tree().contains_key(n) && n != node && !children_of(
                    final(self).tree(),
                    node,
                ).contains(n) ==> #[trigger] final(self).rects()[n] == old(self).rects()[n],
            hints_fit(final(self).tree(), widgets@, node, r.2@),
            is_container(final(self).tree(), node) ==> arranged(
                final(self).tree(),
                final(self).rects(),
                node,
                r.2@,
            ),
    {
        let ghost before = *self;
        let ghost t = before.tree();
        self.set_rect(node, *bounds);
        let (children, hints) = self.gather_hints(node, widgets);
        let axis = match self.direction(node) {
            Some(a) => a,
            None => Axis::Vertical,
        };
        let sizes = compute_sizes(bounds.extent(axis), &hints);
        let rects = place_children(bounds, axis, &sizes);
        let n: usize = children.len();
        let mut i: usize = 0;
        let ghost mid = *self;
        proof {
            assert forall|j: int| 0 <= j < n implies #[trigger] children@[j] != node by {
                assert(parent_of(t, children@[j]) == Some(node));
                assert(t.contains_key(children@[j]));
            }
        }
        while i < n
            invariant
                i <= n,
                n == children.len(),
                n == rects.len(),
                children@ == children_of(t, node),
                self.flow_wf(),
                self.same_but_rects(&mid),
                t == self.tree(),
                tree_wf(t, self.root_id(), self.depths(), self.depth_limit()),
                self.rects()[node] == *bounds,
                forall|j: int| 0 <= j < n ==> #[trigger] children@[j] != node,
                forall|j: int| 0 <= j < i ==> self.rects()[#[trigger] children@[j]] == rects@[j],
                forall|m: NodeId|
                    t.contains_key(m) && m != node && !children@.contains(m)
                        ==> #[trigger] self.rects()[m] == before.rects()[m],
            decreases n - i,
        {
            let child = children[i];
            let ghost prev = *self;
            proof {
                assert(t.contains_key(child));
            }
            self.set_rect(child, rects[i]);
            proof {
                assert forall|j: int| 0 <= j < i + 1 implies self.rects()[#[trigger] children@[j]]
                    == rects@[j] by {
                    if j < i {
                        assert(children@[j] != children@[i as int]);
                    }
                }
                assert forall|m: NodeId|
                    t.contains_key(m) && m != node && !children@.contains(m) implies #[trigger] self.rects()[m]
                    == before.rects()[m] by {
                    assert(m != child);
                    assert(prev.rects()[m] == before.rects()[m]);
                }
            }
            i = i + 1;
        }
        proof {
            if is_container(t, node) {
                assert(sizes@ == solved(bounds.extent_along(axis) as nat, hints@));
                assert forall|k: int| 0 <= k < children_of(t, node).len() implies self.rects()[#[trigger] children_of(
                    t,
                    node,
                )[k]] == child_rect(
                    self.rects()[node],
                    t[node]->Container_direction,
                    solved(
                        self.rects()[node].extent_along(t[node]->Container_direction) as nat,
                        hints@,
                    ),
                    k,
                ) by {
                    assert(self.rects()[children@[k]] == rects@[k]);
                }
            }
        }
        (children, rects, Ghost(hints@))
    }

    /// Recursively computes the layout of the tree.
    fn compute_tree<W: Widget>(&mut self, node: NodeId, bounds: &Rect, widgets: &WidgetStore<W>)
        requires
            old(self).flow_wf(),
            old(self).tree().contains_key(node),
            widgets.wf(),
        ensures
            final(self).flow_wf(),
            final(self).same_but_rects(old(self)),
            final(self).rects()[node] == *bounds,
            final(self).kept_outside(old(self), node),
            final(self).placed_below(widgets@, node),
        decreases slack(old(self).depths(), old(self).depth_limit(), node),
    {
        let ghost before = *self;
        let ghost t = before.tree();
        let ghost d = before.depths();
        let ghost limit = before.depth_limit();
        let ghost known = widgets@;
        let (children, rects, Ghost(hints)) = self.compute_node(node, bounds, widgets);
        let ghost mid = *self;
        proof {
            assert forall|n: NodeId|
                mid.tree().contains_key(n) && !(#[trigger] mid.above_or_self(node, n)) implies mid.rects()[n]
                == before.rects()[n] by {
                if children_of(t, node).contains(n) {
                    assert(parent_of(t, n) == Some(node));
                    assert(ancestor_or_self(t, d, node, node));
                }
            }
            assert(mid.kept_outside(&before, node));
        }
        let n: usize = children.len();
        let mut i: usize = 0;
        while i < n
            invariant
                i <= n,
                n == children.len(),
                n == rects.len(),
                children@ == children_of(t, node),
                widgets.wf(),
                known == widgets@,
                self.flow_wf(),
                self.same_but_rects(&before),
                t == before.tree(),
                d == before.depths(),
                limit == before.depth_limit(),
                d == old(self).depths(),
                limit == old(self).depth_limit(),
                t.contains_key(node),
                self.rects()[node] == *bounds,
                forall|j: int| 0 <= j < n ==> self.rects()[#[trigger] children@[j]] == rects@[j],
                self.kept_outside(&before, node),
                hints_fit(t, known, node, hints),
                is_container(t, node) ==> arranged(t, self.rects(), node, hints),
                forall|j: int|
                    0 <= j < i ==> self.placed_below(known, #[trigger] children@[j]),
            decreases n - i,
        {
            let child = children[i];
            let ghost prev = *self;
            proof {
                assert(child == children_of(t, node)[i as int]);
                assert(t.contains_key(child));
                assert(parent_of(t, child) == Some(node));
                assert(d(node) < d(child) < limit);
                assert(slack(self.depths(), self.depth_limit(), child) < slack(d, limit, node));
            }
            self.compute_tree(child, &rects[i], widgets);
            proof {
                lemma_child_done(&prev, self, &before, known, node, i as int, hints);
            }
            i = i + 1;
        }
        proof {
            assert forall|c: NodeId| #[trigger]
                self.above_or_self(node, c) && is_container(t, c) implies placed(
                t,
                self.rects(),
                known,
                c,
            ) by {
                if c != node {
                    let j = lemma_below_a_child(t, self.root_id(), d, limit, node, c);
                    assert(self.placed_below(known, children@[j]));
                    assert(self.above_or_self(children@[j], c));
                } else {
                    assert(hints_fit(t, known, node, hints));
                    assert(arranged(t, self.rects(), node, hints));
                }
            }
        }
    }

    /// Computes the layout of the tree for the given bounds. This must be called after each change to the tree.
    ///
    /// Without effect while nothing has changed since the layout was last
    /// computed.
    pub fn compute<W: Widget>(&mut self, bounds: &Rect, widgets: &WidgetStore<W>)
        requires
            old(self).wf(),
            widgets.wf(),
        ensures
            final(self).wf(),
            !final(self).dirty_flag(),
            final(self).tree() == old(self).tree(),
            final(self).root_id() == old(self).root_id(),
            final(self).float_order() == old(self).float_order(),
            final(self).spare() == old(self).spare(),
            final(self).rects().dom() == old(self).rects().dom(),
            if old(self).dirty_flag() {
                final(self).laid_out(old(self), *bounds, widgets@)
            } else {
                final(self).rects() == old(self).rects()
            },
    {
        if !self.is_dirty() {
            return ;
        }
        let ghost before = *self;
        let ghost t = before.tree();
        let ghost known = widgets@;
        let root = self.root();
        self.compute_tree(root, bounds, widgets);
        let ghost mid = *self;
        let floats = self.float_list();
        let n: usize = floats.len();
        let mut i: usize = 0;
        proof {
            assert forall|j: int| 0 <= j < n implies is_floating(t, #[trigger] floats@[j]) by {
                assert(before.float_order().contains(floats@[j]));
            }
        }
        while i < n
            invariant
                i <= n,
                n == floats.len(),
                floats@ == before.float_order(),
                before.wf(),
                t == before.tree(),
                self.flow_wf(),
                self.same_but_rects(&before),
                forall|j: int| 0 <= j < n ==> is_floating(t, #[trigger] floats@[j]),
                forall|m: NodeId|
                    t.contains_key(m) && !is_floating(t, m) ==> #[trigger] self.rects()[m]
                        == mid.rects()[m],
                forall|j: int|
                    0 <= j < i ==> self.rects()[#[trigger] floats@[j]]
                        == t[floats@[j]]->Floating_pos.clipped_to(bounds),
            decreases n - i,
        {
            let id = floats[i];
            let ghost prev = *self;
            let pos = match self.node(id) {
                Some(LayoutNode::Floating(f)) => f.pos,
                _ => *bounds,
            };
            let rect = pos.clip(bounds);
            self.set_rect(id, rect);
            proof {
                assert forall|j: int| 0 <= j < i + 1 implies self.rects()[#[trigger] floats@[j]]
                    == t[floats@[j]]->Floating_pos.clipped_to(bounds) by {
                    if j < i {
                        assert(before.float_order().no_duplicates());
                        assert(floats@[j] != floats@[i as int]);
                        assert(prev.rects()[floats@[j]] == t[floats@[j]]->Floating_pos.clipped_to(
                            bounds,
                        ));
                    }
                }
            }
            i = i + 1;
        }
        self.mark_clean();
        proof {
            assert forall|f: NodeId| #[trigger] is_floating(t, f) implies self.rects()[f]
                == t[f]->Floating_pos.clipped_to(bounds) by {
                assert(before.float_order().contains(f));
                let j = choose|j: int| 0 <= j < floats@.len() && floats@[j] == f;
                assert(self.rects()[floats@[j]] == t[floats@[j]]->Floating_pos.clipped_to(bounds));
            }
            assert forall|c: NodeId| #[trigger]
                self.above_or_self(root, c) && is_container(t, c) implies placed(
                t,
                self.rects(),
                known,
                c,
            ) by {
                assert(mid.above_or_self(root, c));
                assert(placed(t, mid.rects(), known, c));
                assert(self.rects()[c] == mid.rects()[c]);
                assert forall|k: int| 0 <= k < children_of(t, c).len() implies self.rects()[#[trigger] children_of(
                    t,
                    c,
                )[k]] == mid.rects()[children_of(t, c)[k]] by {
                    assert(t.contains_key(children_of(t, c)[k]));
                    assert(!(t[children_of(t, c)[k]] is Floating));
                }
                lemma_placed_kept(t, mid.rects(), self.rects(), known, c);
            }
            assert forall|m: NodeId|
                self.tree().contains_key(m) && !(#[trigger] self.above_or_self(self.root_id(), m))
                    && !is_floating(self.tree(), m) implies self.rects()[m] == before.rects()[m] by {
                assert(!mid.above_or_self(root, m));
                assert(mid.rects()[m] == before.rects()[m]);
            }
            assert(self.rects()[root] == *bounds);
            self.lemma_floats_kept(&before);
        }
    }
}

/// What the computation of the layout under one child of `node` leaves of the
/// work done before it: the children computed earlier and all below them stay
/// placed, and `node` and its children keep their rectangles.
proof fn lemma_child_done<W: Widget>(
    pre: &Layout,
    post: &Layout,
    before: &Layout,
    known: Map<WidgetId, W>,
    node: NodeId,
    i: int,
    hints: Seq<Constraint>,
)
    requires
        pre.flow_wf(),
        post.flow_wf(),
        post.same_but_rects(pre),
        pre.same_but_rects(before),
        0 <= i < children_of(pre.tree(), node).len(),
        pre.tree().contains_key(node),
        post.rects()[children_of(pre.tree(), node)[i]] == pre.rects()[children_of(
            pre.tree(),
            node,
        )[i]],
        post.kept_outside(pre, children_of(pre.tree(), node)[i]),
        post.placed_below(known, children_of(pre.tree(), node)[i]),
        pre.kept_outside(before, node),
        is_container(pre.tree(), node) ==> arranged(pre.tree(), pre.rects(), node, hints),
        forall|j: int| 0 <= j < i ==> pre.placed_below(known, #[trigger] children_of(pre.tree(), node)[j]),
    ensures
        post.rects()[node] == pre.rects()[node],
        forall|j: int|
            0 <= j < children_of(pre.tree(), node).len() ==> post.rects()[#[trigger] children_of(
                pre.tree(),
                node,
            )[j]] == pre.rects()[children_of(pre.tree(), node)[j]],
        post.kept_outside(before, node),
        is_container(pre.tree(), node) ==> arranged(post.tree(), post.rects(), node, hints),
        forall|j: int|
            0 <= j < i + 1 ==> post.placed_below(known, #[trigger] children_of(pre.tree(), node)[j]),
{
    let t = pre.tree();
    let d = pre.depths();
    let limit = pre.depth_limit();
    let root = pre.root_id();
    let cs = children_of(t, node);
    let child = cs[i];
    assert(t.contains_key(child) && parent_of(t, child) == Some(node));
    assert(d(node) < d(child));
    // The node itself does not lie below the child.
    if ancestor_or_self(t, d, child, node) {
        lemma_above_is_no_deeper(t, d, child, node);
    }
    assert(!post.above_or_self(child, node));
    assert(post.rects()[node] == pre.rects()[node]);
    assert forall|j: int| 0 <= j < cs.len() implies post.rects()[#[trigger] cs[j]] == pre.rects()[cs[j]] by {
        assert(t.contains_key(cs[j]));
        if j != i {
            lemma_children_apart(t, root, d, limit, node, i, j);
            assert(!post.above_or_self(child, cs[j]));
        }
    }
    assert forall|n: NodeId|
        post.tree().contains_key(n) && !(#[trigger] post.above_or_self(node, n)) implies post.rects()[n]
        == before.rects()[n] by {
        if ancestor_or_self(t, d, child, n) {
            lemma_above_extends(t, d, node, child, n);
        }
        assert(!post.above_or_self(child, n));
        assert(!pre.above_or_self(node, n));
    }
    assert forall|j: int| 0 <= j < i + 1 implies post.placed_below(known, #[trigger] cs[j]) by {
        if j < i {
            assert(pre.placed_below(known, cs[j]));
            assert forall|c: NodeId| #[trigger]
                post.above_or_self(cs[j], c) && is_container(t, c) implies placed(
                t,
                post.rects(),
                known,
                c,
            ) by {
                assert(pre.above_or_self(cs[j], c));
                assert(placed(t, pre.rects(), known, c));
                lemma_children_apart(t, root, d, limit, node, i, j);
                lemma_children_apart(t, root, d, limit, node, j, i);
                if ancestor_or_self(t, d, child, c) {
                    lemma_chain_is_linear(t, d, child, cs[j], c);
                }
                assert(!post.above_or_self(child, c));
                assert(post.rects()[c] == pre.rects()[c]);
                assert forall|k: int| 0 <= k < children_of(t, c).len() implies post.rects()[#[trigger] children_of(
                    t,
                    c,
                )[k]] == pre.rects()[children_of(t, c)[k]] by {
                    let g = children_of(t, c)[k];
                    assert(t.contains_key(g) && parent_of(t, g) == Some(c));
                    assert(d(c) < d(g));
                    assert(ancestor_or_self(t, d, cs[j], g));
                    if ancestor_or_self(t, d, child, g) {
                        lemma_chain_is_linear(t, d, child, cs[j], g);
                    }
                    assert(!post.above_or_self(child, g));
                }
                lemma_placed_kept(t, pre.rects(), post.rects(), known, c);
            }
        }
    }
    if is_container(t, node) {
        assert forall|k: int| 0 <= k < children_of(t, node).len() implies post.rects()[#[trigger] children_of(
            t,
            node,
        )[k]] == child_rect(
            post.rects()[node],
            t[node]->Container_direction,
            solved(post.rects()[node].extent_along(t[node]->Container_direction) as nat, hints),
            k,
        ) by {
            assert(post.rects()[cs[k]] == pre.rects()[cs[k]]);
        }
    }
}

/// The extents, along the axis of container `c`, of the rectangles of its
/// children.
pub open spec fn child_extents(t: Tree, rects: Map<NodeId, Rect>, c: NodeId) -> Seq<usize> {
    Seq::new(
        children_of(t, c).len(),
        |i: int| rects[children_of(t, c)[i]].extent_along(t[c]->Container_direction),
    )
}

/// The children of a container fill it exactly: where the children have the
/// rectangles that the solver gives them for `hints`, and fixed sizes and
/// shares together ask for no more than the extent of the container, and
/// there is a `Fill` child where they ask for less, the extents of the
/// children add up to the extent of the container.
pub proof fn lemma_children_fill_their_container(
    t: Tree,
    rects: Map<NodeId, Rect>,
    c: NodeId,
    hints: Seq<Constraint>,
)
    requires
        is_container(t, c),
        hints.len() == children_of(t, c).len(),
        arranged(t, rects, c, hints),
        fixed_total(hints) + share_sizes_total(
            rects[c].extent_along(t[c]->Container_direction) as nat,
            hints,
        ) <= rects[c].extent_along(t[c]->Container_direction),
        fill_count(hints) > 0 || fixed_total(hints) + share_sizes_total(
            rects[c].extent_along(t[c]->Container_direction) as nat,
            hints,
        ) == rects[c].extent_along(t[c]->Container_direction),
    ensures
        sum_upto(child_extents(t, rects, c), children_of(t, c).len()) == rects[c].extent_along(
            t[c]->Container_direction,
        ),
{
    let axis = t[c]->Container_direction;
    let extent = rects[c].extent_along(axis) as nat;
    let sizes = solved(extent, hints);
    assert forall|i: int| 0 <= i < sizes.len() implies child_extents(t, rects, c)[i] == sizes[i] by {
        assert(rects[children_of(t, c)[i]] == child_rect(rects[c], axis, sizes, i));
    }
    assert(child_extents(t, rects, c) =~= sizes);
    lemma_sizes_fill_the_extent(extent, hints);
}

} // verus!
