//! The order of the windows: the leaves of the tree from first to last, all
//! nodes of the tree parents first, and the window that lies at a point of the
//! screen.

use crate::allocator::NodeId;
use crate::layout::geometry::Rect;
use crate::layout::node::{
    ancestor_or_self,
    children_of,
    is_container,
    is_floating,
    is_leaf,
    lemma_above_extends,
    lemma_below_a_child,
    lemma_chain_is_linear,
    lemma_children_apart,
    parent_of,
    tree_wf,
    LayoutNode,
    Tree,
};
use crate::layout::tree::Layout;
use vstd::prelude::*;

verus! {

/// How far `n` lies from the bound of the numbering.
pub open spec fn slack(depth: spec_fn(NodeId) -> nat, limit: nat, n: NodeId) -> nat {
    if depth(n) < limit {
        (limit - depth(n)) as nat
    } else {
        0
    }
}

/// The leaves under the children of container `c` from place `i` on, first
/// child first, and under each child from its first to its last.
pub open spec fn leaves_from(
    t: Tree,
    depth: spec_fn(NodeId) -> nat,
    limit: nat,
    c: NodeId,
    i: nat,
) -> Seq<NodeId>
    decreases slack(depth, limit, c), children_of(t, c).len() - i,
{
    if i >= children_of(t, c).len() {
        Seq::empty()
    } else {
        let ch = children_of(t, c)[i as int];
        let head = if is_container(t, ch) {
            if depth(c) < depth(ch) < limit {
                leaves_from(t, depth, limit, ch, 0)
            } else {
                Seq::empty()
            }
        } else {
            seq![ch]
        };
        head + leaves_from(t, depth, limit, c, i + 1)
    }
}

/// The leaves under node `n`: those under its children where it is a
/// container, else the node itself.
pub open spec fn leaves_under(t: Tree, depth: spec_fn(NodeId) -> nat, limit: nat, n: NodeId) -> Seq<
    NodeId,
> {
    if is_container(t, n) {
        leaves_from(t, depth, limit, n, 0)
    } else {
        seq![n]
    }
}

/// The nodes under the children of container `c` from place `i` on, every
/// node before its children.
pub open spec fn nodes_from(
    t: Tree,
    depth: spec_fn(NodeId) -> nat,
    limit: nat,
    c: NodeId,
    i: nat,
) -> Seq<NodeId>
    decreases slack(depth, limit, c), children_of(t, c).len() - i,
{
    if i >= children_of(t, c).len() {
        Seq::empty()
    } else {
        let ch = children_of(t, c)[i as int];
        let below = if is_container(t, ch) && depth(c) < depth(ch) < limit {
            nodes_from(t, depth, limit, ch, 0)
        } else {
            Seq::empty()
        };
        seq![ch] + below + nodes_from(t, depth, limit, c, i + 1)
    }
}

/// The first of `order` whose rectangle holds the point.
pub open spec fn first_hit(order: Seq<NodeId>, rects: Map<NodeId, Rect>, x: int, y: int) -> Option<
    NodeId,
>
    decreases order.len(),
{
    if order.len() == 0 {
        None
    } else if rects.contains_key(order[0]) && rects[order[0]].covers(x, y) {
        Some(order[0])
    } else {
        first_hit(order.skip(1), rects, x, y)
    }
}

/// What `first_hit` finds is the first that holds the point, and it finds
/// nothing only where none holds it.
pub proof fn lemma_first_hit(order: Seq<NodeId>, rects: Map<NodeId, Rect>, x: int, y: int)
    ensures
        match first_hit(order, rects, x, y) {
            Some(id) => exists|i: int|
                0 <= i < order.len() && order[i] == id && rects.contains_key(id)
                    && rects[id].covers(x, y) && forall|j: int|
                    0 <= j < i ==> !(rects.contains_key(#[trigger] order[j])
                        && rects[order[j]].covers(x, y)),
            None => forall|j: int|
                0 <= j < order.len() ==> !(rects.contains_key(#[trigger] order[j])
                    && rects[order[j]].covers(x, y)),
        },
    decreases order.len(),
{
    if order.len() == 0 {
    } else if rects.contains_key(order[0]) && rects[order[0]].covers(x, y) {
        assert(forall|j: int|
            0 <= j < 0 ==> !(rects.contains_key(#[trigger] order[j]) && rects[order[j]].covers(
                x,
                y,
            )));
    } else {
        let rest = order.skip(1);
        lemma_first_hit(rest, rects, x, y);
        match first_hit(rest, rects, x, y) {
            Some(id) => {
                let i = choose|i: int|
                    0 <= i < rest.len() && rest[i] == id && rects.contains_key(id)
                        && rects[id].covers(x, y) && forall|j: int|
                        0 <= j < i ==> !(rects.contains_key(#[trigger] rest[j])
                            && rects[rest[j]].covers(x, y));
                assert(order[i + 1] == id);
                assert forall|j: int| 0 <= j < i + 1 implies !(rects.contains_key(
                    #[trigger] order[j],
                ) && rects[order[j]].covers(x, y)) by {
                    if j > 0 {
                        assert(order[j] == rest[j - 1]);
                    }
                }
            },
            None => {
                assert forall|j: int| 0 <= j < order.len() implies !(rects.contains_key(
                    #[trigger] order[j],
                ) && rects[order[j]].covers(x, y)) by {
                    if j > 0 {
                        assert(order[j] == rest[j - 1]);
                    }
                }
            },
        }
    }
}

impl Layout {
    /// The leaves of the tree under the root, in order.
    pub open spec fn leaf_order(&self) -> Seq<NodeId> {
        leaves_under(self.tree(), self.depths(), self.depth_limit(), self.root_id())
    }

    /// The nodes of the tree from the root on, every node before its children.
    pub open spec fn node_order(&self) -> Seq<NodeId> {
        seq![self.root_id()] + nodes_from(
            self.tree(),
            self.depths(),
            self.depth_limit(),
            self.root_id(),
            0,
        )
    }

    /// The window at a point: the frontmost floating window whose rectangle
    /// holds the point, else the first leaf whose rectangle holds it.
    pub open spec fn window_at(&self, x: int, y: int) -> Option<NodeId> {
        match first_hit(self.float_order(), self.rects(), x, y) {
            Some(id) => Some(id),
            None => first_hit(self.leaf_order(), self.rects(), x, y),
        }
    }

    /// Helper for gathering leaves recursively
    fn leaves_inner(&self, node: NodeId, leaves: &mut Vec<NodeId>)
        requires
            self.flow_wf(),
            self.tree().contains_key(node),
        ensures
            final(leaves)@ == old(leaves)@ + leaves_under(
                self.tree(),
                self.depths(),
                self.depth_limit(),
                node,
            ),
        decreases slack(self.depths(), self.depth_limit(), node),
    {
        let ghost t = self.tree();
        let ghost d = self.depths();
        let ghost limit = self.depth_limit();
        let ghost start = leaves@;
        match self.children(node) {
            Some(children) => {
                let n: usize = children.len();
                let mut i: usize = 0;
                while i < n
                    invariant
                        i <= n,
                        n == children.len(),
                        children@ == children_of(t, node),
                        self.flow_wf(),
                        t == self.tree(),
                        d == self.depths(),
                        limit == self.depth_limit(),
                        t.contains_key(node),
                        leaves@ + leaves_from(t, d, limit, node, i as nat) == start + leaves_from(
                            t,
                            d,
                            limit,
                            node,
                            0,
                        ),
                    decreases n - i,
                {
                    let child = children[i];
                    let ghost mid = leaves@;
                    proof {
                        assert(child == children_of(t, node)[i as int]);
                        assert(t.contains_key(child));
                        assert(parent_of(t, child) == Some(node));
                        assert(d(node) < d(child) < limit);
                    }
                    self.leaves_inner(child, leaves);
                    proof {
                        assert(mid + (leaves_under(t, d, limit, child) + leaves_from(
                            t,
                            d,
                            limit,
                            node,
                            (i + 1) as nat,
                        )) =~= (mid + leaves_under(t, d, limit, child)) + leaves_from(
                            t,
                            d,
                            limit,
                            node,
                            (i + 1) as nat,
                        ));
                    }
                    i = i + 1;
                }
                assert(leaves@ + Seq::<NodeId>::empty() =~= leaves@);
            },
            None => {
                leaves.push(node);
                assert(start.push(node) =~= start + seq![node]);
            },
        }
    }

    /// Get the leaves of the layout tree
    pub fn leaves(&self) -> (out: Vec<NodeId>)
        requires
            self.wf(),
        ensures
            out@ == self.leaf_order(),
    {
        let mut leaves: Vec<NodeId> = Vec::new();
        self.leaves_inner(self.root(), &mut leaves);
        assert(Seq::<NodeId>::empty() + self.leaf_order() =~= self.leaf_order());
        leaves
    }

    /// Get the floats of the layout tree
    pub fn floats(&self) -> (out: Vec<NodeId>)
        requires
            self.wf(),
        ensures
            out@ == self.float_order(),
    {
        self.float_list()
    }

    /// Gathers the nodes under the children of `node`, parents first.
    fn nodes_inner(&self, node: NodeId, out: &mut Vec<NodeId>)
        requires
            self.flow_wf(),
            self.tree().contains_key(node),
        ensures
            final(out)@ == old(out)@ + nodes_from(
                self.tree(),
                self.depths(),
                self.depth_limit(),
                node,
                0,
            ),
        decreases slack(self.depths(), self.depth_limit(), node),
    {
        let ghost t = self.tree();
        let ghost d = self.depths();
        let ghost limit = self.depth_limit();
        let ghost start = out@;
        match self.children(node) {
            Some(children) => {
                let n: usize = children.len();
                let mut i: usize = 0;
                while i < n
                    invariant
                        i <= n,
                        n == children.len(),
                        children@ == children_of(t, node),
                        self.flow_wf(),
                        t == self.tree(),
                        d == self.depths(),
                        limit == self.depth_limit(),
                        t.contains_key(node),
                        out@ + nodes_from(t, d, limit, node, i as nat) == start + nodes_from(
                            t,
                            d,
                            limit,
                            node,
                            0,
                        ),
                    decreases n - i,
                {
                    let child = children[i];
                    let ghost mid = out@;
                    proof {
                        assert(child == children_of(t, node)[i as int]);
                        assert(t.contains_key(child));
                        assert(parent_of(t, child) == Some(node));
                        assert(d(node) < d(child) < limit);
                    }
                    out.push(child);
                    self.nodes_inner(child, out);
                    proof {
                        let below = nodes_from(t, d, limit, child, 0);
                        let rest = nodes_from(t, d, limit, node, (i + 1) as nat);
                        if !is_container(t, child) {
                            assert(children_of(t, child).len() == 0);
                            assert(below =~= Seq::<NodeId>::empty());
                        }
                        assert(mid + (seq![child] + below + rest) =~= (mid.push(child) + below)
                            + rest);
                    }
                    i = i + 1;
                }
                assert(out@ + Seq::<NodeId>::empty() =~= out@);
            },
            None => {
                assert(children_of(t, node).len() == 0);
                assert(start + Seq::<NodeId>::empty() =~= start);
            },
        }
    }

    /// The nodes of the tree from the root on, every node before its children.
    pub fn preorder(&self) -> (out: Vec<NodeId>)
        requires
            self.wf(),
        ensures
            out@ == self.node_order(),
    {
        let mut out: Vec<NodeId> = Vec::new();
        out.push(self.root());
        self.nodes_inner(self.root(), &mut out);
        assert(Seq::<NodeId>::empty().push(self.root_id()) =~= seq![self.root_id()]);
        out
    }

    /// Traverse the layout tree: `f` is called on every node of the tree under
    /// the root, on a container before its children.
    pub fn traverse<F: Fn(NodeId, &LayoutNode)>(&self, f: F)
        requires
            self.wf(),
            forall|id: NodeId, node: &LayoutNode| #[trigger] f.requires((id, node)),
        ensures
            forall|i: int|
                #![trigger self.node_order()[i]]
                0 <= i < self.node_order().len() ==> f.ensures(
                    (self.node_order()[i], &self.stored(self.node_order()[i])),
                    (),
                ),
    {
        let order = self.preorder();
        let n: usize = order.len();
        let mut i: usize = 0;
        while i < n
            invariant
                i <= n,
                n == order.len(),
                order@ == self.node_order(),
                self.wf(),
                forall|id: NodeId, node: &LayoutNode| #[trigger] f.requires((id, node)),
                forall|k: int|
                    #![trigger order@[k]]
                    0 <= k < i ==> f.ensures((order@[k], &self.stored(order@[k])), ()),
            decreases n - i,
        {
            let id = order[i];
            proof {
                self.lemma_node_order_live(i as int);
            }
            let found = self.node(id);
            assert(found is Some);
            if let Some(node) = found {
                f(id, node);
            }
            i = i + 1;
        }
    }

    /// Every node of the order is a node of the tree.
    pub proof fn lemma_node_order_live(&self, i: int)
        requires
            self.wf(),
            0 <= i < self.node_order().len(),
        ensures
            self.tree().contains_key(self.node_order()[i]),
    {
        if i > 0 {
            lemma_nodes_from_live(
                self.tree(),
                self.root_id(),
                self.depths(),
                self.depth_limit(),
                self.root_id(),
                0,
                i - 1,
            );
        }
    }

    /// The window at a point of the screen, by the rectangles of the last
    /// computation.
    pub fn node_at_pos(&self, pos: (u16, u16)) -> (r: Option<NodeId>)
        requires
            self.wf(),
        ensures
            r == self.window_at(pos.0 as int, pos.1 as int),
    {
        let floats = self.floats();
        match self.first_at(&floats, pos) {
            Some(id) => Some(id),
            None => {
                let leaves = self.leaves();
                self.first_at(&leaves, pos)
            },
        }
    }

    /// The first of `order` whose rectangle holds the point.
    fn first_at(&self, order: &Vec<NodeId>, pos: (u16, u16)) -> (r: Option<NodeId>)
        requires
            self.wf(),
        ensures
            r == first_hit(order@, self.rects(), pos.0 as int, pos.1 as int),
    {
        let n: usize = order.len();
        let mut i: usize = 0;
        assert(order@.skip(0) =~= order@);
        while i < n
            invariant
                i <= n,
                n == order.len(),
                self.wf(),
                first_hit(order@, self.rects(), pos.0 as int, pos.1 as int) == first_hit(
                    order@.skip(i as int),
                    self.rects(),
                    pos.0 as int,
                    pos.1 as int,
                ),
            decreases n - i,
        {
            let id = order[i];
            proof {
                assert(order@.skip(i as int)[0] == id);
                assert(order@.skip(i as int).skip(1) =~= order@.skip(i + 1));
            }
            match self.layout(id) {
                Some(rect) => {
                    if rect.contains(pos.0 as usize, pos.1 as usize) {
                        return Some(id);
                    }
                },
                None => {},
            }
            i = i + 1;
        }
        None
    }
}

/// Every node that `nodes_from` lists is a node of the tree.
pub proof fn lemma_nodes_from_live(
    t: Tree,
    root: NodeId,
    depth: spec_fn(NodeId) -> nat,
    limit: nat,
    c: NodeId,
    i: nat,
    k: int,
)
    requires
        crate::layout::node::tree_wf(t, root, depth, limit),
        0 <= k < nodes_from(t, depth, limit, c, i).len(),
    ensures
        t.contains_key(nodes_from(t, depth, limit, c, i)[k]),
    decreases slack(depth, limit, c), children_of(t, c).len() - i,
{
    if i < children_of(t, c).len() {
        let ch = children_of(t, c)[i as int];
        assert(t.contains_key(ch));
        let below = if is_container(t, ch) && depth(c) < depth(ch) < limit {
            nodes_from(t, depth, limit, ch, 0)
        } else {
            Seq::empty()
        };
        let rest = nodes_from(t, depth, limit, c, i + 1);
        if k == 0 {
        } else if k < 1 + below.len() {
            lemma_nodes_from_live(t, root, depth, limit, ch, 0, k - 1);
        } else {
            lemma_nodes_from_live(t, root, depth, limit, c, i + 1, k - 1 - below.len());
        }
    }
}

/// What the leaves under the child at place `i` of `c` are.
pub open spec fn leaves_of_child(
    t: Tree,
    depth: spec_fn(NodeId) -> nat,
    limit: nat,
    c: NodeId,
    i: nat,
) -> Seq<NodeId> {
    leaves_under(t, depth, limit, children_of(t, c)[i as int])
}

/// The leaves from place `i` on are those of the child at place `i` and then
/// those from place `i + 1` on.
pub proof fn lemma_leaves_from_step(
    t: Tree,
    root: NodeId,
    depth: spec_fn(NodeId) -> nat,
    limit: nat,
    c: NodeId,
    i: nat,
)
    requires
        tree_wf(t, root, depth, limit),
        i < children_of(t, c).len(),
    ensures
        leaves_from(t, depth, limit, c, i) == leaves_of_child(t, depth, limit, c, i) + leaves_from(
            t,
            depth,
            limit,
            c,
            i + 1,
        ),
        depth(c) < depth(children_of(t, c)[i as int]) < limit,
        t.contains_key(children_of(t, c)[i as int]),
        parent_of(t, children_of(t, c)[i as int]) == Some(c),
{
    let ch = children_of(t, c)[i as int];
    assert(t.contains_key(ch));
    assert(parent_of(t, ch) == Some(c));
}

/// Every leaf that is listed under the children of `c` from place `i` on is a
/// node of the tree that is no container and lies at or below one of those
/// children.
pub proof fn lemma_leaves_from_below(
    t: Tree,
    root: NodeId,
    depth: spec_fn(NodeId) -> nat,
    limit: nat,
    c: NodeId,
    i: nat,
    k: int,
) -> (j: int)
    requires
        tree_wf(t, root, depth, limit),
        0 <= k < leaves_from(t, depth, limit, c, i).len(),
    ensures
        i <= j < children_of(t, c).len(),
        t.contains_key(leaves_from(t, depth, limit, c, i)[k]),
        !is_container(t, leaves_from(t, depth, limit, c, i)[k]),
        ancestor_or_self(t, depth, children_of(t, c)[j], leaves_from(t, depth, limit, c, i)[k]),
    decreases slack(depth, limit, c), children_of(t, c).len() - i,
{
    lemma_leaves_from_step(t, root, depth, limit, c, i);
    let ch = children_of(t, c)[i as int];
    let head = leaves_of_child(t, depth, limit, c, i);
    let rest = leaves_from(t, depth, limit, c, i + 1);
    if k < head.len() {
        let x = head[k];
        if is_container(t, ch) {
            let g = lemma_leaves_from_below(t, root, depth, limit, ch, 0, k);
            let gc = children_of(t, ch)[g];
            assert(parent_of(t, gc) == Some(ch));
            assert(t.contains_key(gc));
            lemma_above_extends(t, depth, ch, gc, x);
        } else {
            assert(ancestor_or_self(t, depth, ch, ch));
        }
        i as int
    } else {
        lemma_leaves_from_below(t, root, depth, limit, c, i + 1, k - head.len())
    }
}

/// No leaf is listed twice.
pub proof fn lemma_leaves_from_distinct(
    t: Tree,
    root: NodeId,
    depth: spec_fn(NodeId) -> nat,
    limit: nat,
    c: NodeId,
    i: nat,
)
    requires
        tree_wf(t, root, depth, limit),
    ensures
        leaves_from(t, depth, limit, c, i).no_duplicates(),
    decreases slack(depth, limit, c), children_of(t, c).len() - i,
{
    if i < children_of(t, c).len() {
        lemma_leaves_from_step(t, root, depth, limit, c, i);
        let ch = children_of(t, c)[i as int];
        let head = leaves_of_child(t, depth, limit, c, i);
        let rest = leaves_from(t, depth, limit, c, i + 1);
        let all = leaves_from(t, depth, limit, c, i);
        if is_container(t, ch) {
            lemma_leaves_from_distinct(t, root, depth, limit, ch, 0);
        }
        lemma_leaves_from_distinct(t, root, depth, limit, c, i + 1);
        assert forall|a: int, b: int| 0 <= a < all.len() && 0 <= b < all.len() && a != b implies all[a]
            != all[b] by {
            if a < head.len() && b < head.len() {
                assert(head[a] != head[b]);
            } else if a >= head.len() && b >= head.len() {
                assert(rest[a - head.len()] != rest[b - head.len()]);
            } else {
                let h = if a < head.len() { a } else { b };
                let r = if a < head.len() { b } else { a };
                let x = head[h];
                let y = rest[r - head.len()];
                assert(all[h] == x && all[r] == y);
                // `x` lies below the child at place `i`, `y` below a later one.
                if is_container(t, ch) {
                    let g = lemma_leaves_from_below(t, root, depth, limit, ch, 0, h);
                    let gc = children_of(t, ch)[g];
                    assert(parent_of(t, gc) == Some(ch));
                    assert(t.contains_key(gc));
                    lemma_above_extends(t, depth, ch, gc, x);
                } else {
                    assert(ancestor_or_self(t, depth, ch, ch));
                }
                let j = lemma_leaves_from_below(t, root, depth, limit, c, i + 1, r - head.len());
                if x == y {
                    lemma_chain_is_linear(t, depth, ch, children_of(t, c)[j], x);
                    lemma_children_apart(t, root, depth, limit, c, i as int, j);
                    lemma_children_apart(t, root, depth, limit, c, j, i as int);
                }
            }
        }
    }
}

/// Every node at or below `n` that is no container is listed among the leaves
/// under `n`.
pub proof fn lemma_leaf_is_listed(
    t: Tree,
    root: NodeId,
    depth: spec_fn(NodeId) -> nat,
    limit: nat,
    n: NodeId,
    x: NodeId,
)
    requires
        tree_wf(t, root, depth, limit),
        t.contains_key(n),
        t.contains_key(x),
        !is_container(t, x),
        ancestor_or_self(t, depth, n, x),
    ensures
        leaves_under(t, depth, limit, n).contains(x),
    decreases slack(depth, limit, n),
{
    if x == n {
        assert(leaves_under(t, depth, limit, n)[0] == x);
    } else {
        let j = lemma_below_a_child(t, root, depth, limit, n, x);
        let ch = children_of(t, n)[j];
        assert(t.contains_key(ch));
        assert(parent_of(t, ch) == Some(n));
        assert(is_container(t, n));
        lemma_leaf_is_listed(t, root, depth, limit, ch, x);
        lemma_listed_from(t, root, depth, limit, n, 0, j, x);
    }
}

/// What is listed under the child at place `j` is listed from every earlier
/// place on.
proof fn lemma_listed_from(
    t: Tree,
    root: NodeId,
    depth: spec_fn(NodeId) -> nat,
    limit: nat,
    c: NodeId,
    i: nat,
    j: int,
    x: NodeId,
)
    requires
        tree_wf(t, root, depth, limit),
        i <= j < children_of(t, c).len(),
        leaves_under(t, depth, limit, children_of(t, c)[j]).contains(x),
    ensures
        leaves_from(t, depth, limit, c, i).contains(x),
    decreases j - i,
{
    lemma_leaves_from_step(t, root, depth, limit, c, i);
    let head = leaves_of_child(t, depth, limit, c, i);
    let rest = leaves_from(t, depth, limit, c, i + 1);
    let all = leaves_from(t, depth, limit, c, i);
    if i == j {
        let k = choose|k: int| 0 <= k < head.len() && head[k] == x;
        assert(all[k] == x);
    } else {
        lemma_listed_from(t, root, depth, limit, c, i + 1, j, x);
        let k = choose|k: int| 0 <= k < rest.len() && rest[k] == x;
        assert(all[head.len() + k] == x);
    }
}

impl Layout {
    /// The leaves of the tree are listed once each, and the list holds exactly
    /// the nodes of the tree under the root that are no containers.
    pub proof fn lemma_leaf_order(&self)
        requires
            self.wf(),
        ensures
            self.leaf_order().no_duplicates(),
            forall|x: NodeId|
                self.leaf_order().contains(x) <==> (self.in_flow(x) && is_leaf(self.tree(), x)),
    {
        let t = self.tree();
        let d = self.depths();
        let limit = self.depth_limit();
        let root = self.root_id();
        lemma_leaves_from_distinct(t, root, d, limit, root, 0);
        assert forall|x: NodeId|
            self.leaf_order().contains(x) <==> (self.in_flow(x) && is_leaf(t, x)) by {
            if self.leaf_order().contains(x) {
                let k = choose|k: int| 0 <= k < self.leaf_order().len() && self.leaf_order()[k] == x;
                let j = lemma_leaves_from_below(t, root, d, limit, root, 0, k);
                let ch = children_of(t, root)[j];
                assert(parent_of(t, ch) == Some(root));
                assert(t.contains_key(ch));
                lemma_above_extends(t, d, root, ch, x);
                self.lemma_flow_node_kind(x);
            }
            if self.in_flow(x) && is_leaf(t, x) {
                lemma_leaf_is_listed(t, root, d, limit, root, x);
            }
        }
    }

    /// A node of the tree under the root is a container or a leaf.
    pub proof fn lemma_flow_node_kind(&self, x: NodeId)
        requires
            self.wf(),
            self.in_flow(x),
        ensures
            is_container(self.tree(), x) || is_leaf(self.tree(), x),
    {
        let t = self.tree();
        if x != self.root_id() {
            let p = parent_of(t, x)->0;
            assert(children_of(t, p).contains(x));
            let k = choose|k: int| 0 <= k < children_of(t, p).len() && children_of(t, p)[k] == x;
            assert(!(t[children_of(t, p)[k]] is Floating));
        }
    }

    /// A floating window under the pointer wins over any leaf under it: where
    /// the rectangle of a floating window holds a point, the window at that
    /// point is a floating window, the frontmost of those that hold it.
    pub proof fn lemma_float_wins(&self, f: NodeId, x: int, y: int)
        requires
            self.wf(),
            is_floating(self.tree(), f),
            self.rects()[f].covers(x, y),
        ensures
            self.window_at(x, y) is Some,
            is_floating(self.tree(), self.window_at(x, y)->0),
            self.window_at(x, y) == first_hit(self.float_order(), self.rects(), x, y),
    {
        let order = self.float_order();
        assert(order.contains(f));
        let i = choose|i: int| 0 <= i < order.len() && order[i] == f;
        lemma_first_hit(order, self.rects(), x, y);
        assert(self.rects().contains_key(f));
        match first_hit(order, self.rects(), x, y) {
            Some(id) => {
                assert(order.contains(id));
            },
            None => {
                assert(!(self.rects().contains_key(order[i]) && self.rects()[order[i]].covers(x, y)));
            },
        }
    }
}

} // verus!
