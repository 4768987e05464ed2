//! The neighbours of a window, by the shape of the tree: the windows that the
//! focus can move to from it in each direction.
//!
//! The neighbours are found one level around the window, not by a search of
//! the screen: the sibling before and the sibling after it, or the children of
//! such a sibling where it is a container, and the other children of its
//! grandparent.

use crate::allocator::NodeId;
use crate::layout::floating::without;
use crate::layout::geometry::{saturate, Axis, Direction, Rect};
use crate::layout::node::{children_of, is_container, is_floating, parent_of, Tree};
use crate::layout::tree::Layout;
use vstd::prelude::*;

verus! {

/// The side on which the sibling before a window lies.
pub open spec fn side_before(axis: Axis) -> Direction {
    match axis {
        Axis::Vertical => Direction::Up,
        Axis::Horizontal => Direction::Left,
    }
}

/// The side on which the sibling after a window lies.
pub open spec fn side_after(axis: Axis) -> Direction {
    match axis {
        Axis::Vertical => Direction::Down,
        Axis::Horizontal => Direction::Right,
    }
}

/// The side on which the other branches of the grandparent are counted.
pub open spec fn side_of_branches(axis: Axis) -> Direction {
    match axis {
        Axis::Vertical => Direction::Down,
        Axis::Horizontal => Direction::Left,
    }
}

/// Every node of `s`, on side `side`.
pub open spec fn on(s: Seq<NodeId>, side: Direction) -> Seq<(NodeId, Direction)> {
    Seq::new(s.len(), |i: int| (s[i], side))
}

/// What a sibling puts on `side`: its children where it is a container, else
/// itself.
pub open spec fn facing(t: Tree, sibling: NodeId, side: Direction) -> Seq<(NodeId, Direction)> {
    if is_container(t, sibling) {
        on(children_of(t, sibling), side)
    } else {
        seq![(sibling, side)]
    }
}

/// The neighbours of `node` and the side on which each lies: first what the
/// sibling before it puts forward, then what the sibling after it puts
/// forward, then the other children of its grandparent. A floating window, a
/// node without a parent and a node that is not there have none.
pub open spec fn neighbours(t: Tree, node: NodeId) -> Seq<(NodeId, Direction)> {
    if t.contains_key(node) && !(t[node] is Floating) && parent_of(t, node) is Some {
        let p = parent_of(t, node)->0;
        let cs = children_of(t, p);
        let i = cs.index_of(node);
        let axis = t[p]->Container_direction;
        let before = if i > 0 {
            facing(t, cs[i - 1], side_before(axis))
        } else {
            Seq::empty()
        };
        let after = if i + 1 < cs.len() {
            facing(t, cs[i + 1], side_after(axis))
        } else {
            Seq::empty()
        };
        let branches = match parent_of(t, p) {
            Some(g) => on(
                without(children_of(t, g), p),
                side_of_branches(t[g]->Container_direction),
            ),
            None => Seq::empty(),
        };
        before + after + branches
    } else {
        Seq::empty()
    }
}

/// The nodes of `pairs` that lie on `side`, in order.
pub open spec fn on_side(pairs: Seq<(NodeId, Direction)>, side: Direction) -> Seq<NodeId>
    decreases pairs.len(),
{
    if pairs.len() == 0 {
        Seq::empty()
    } else if pairs.last().1 == side {
        on_side(pairs.drop_last(), side).push(pairs.last().0)
    } else {
        on_side(pairs.drop_last(), side)
    }
}

/// Where the far edge of rectangle `l` crosses the edge of rectangle `b` on
/// `side`: `l` reaches across that edge of `b` from outside, and the crossing
/// is named by the end of `l` along the edge.
pub open spec fn crossing(b: Rect, l: Rect, side: Direction) -> Option<usize> {
    match side {
        Direction::Left => if l.right_edge() > b.x && l.x < b.x {
            Some(saturate(l.bottom_edge()))
        } else {
            None
        },
        Direction::Right => if l.x < b.right_edge() && l.right_edge() > b.right_edge() {
            Some(saturate(l.bottom_edge()))
        } else {
            None
        },
        Direction::Up => if l.bottom_edge() > b.y && l.y < b.y {
            Some(saturate(l.right_edge()))
        } else {
            None
        },
        Direction::Down => if l.y < b.bottom_edge() && l.bottom_edge() > b.bottom_edge() {
            Some(saturate(l.right_edge()))
        } else {
            None
        },
    }
}

/// The crossings of the rectangles of `ids` with the edge of `b` on `side`.
pub open spec fn crossings(rects: Map<NodeId, Rect>, b: Rect, ids: Seq<NodeId>, side: Direction) -> Seq<
    usize,
>
    decreases ids.len(),
{
    if ids.len() == 0 {
        Seq::empty()
    } else if rects.contains_key(ids.last()) && crossing(b, rects[ids.last()], side) is Some {
        crossings(rects, b, ids.drop_last(), side).push(crossing(b, rects[ids.last()], side)->0)
    } else {
        crossings(rects, b, ids.drop_last(), side)
    }
}

/// `on` and `push` commute.
proof fn lemma_on_push(s: Seq<NodeId>, x: NodeId, side: Direction)
    ensures
        on(s.push(x), side) == on(s, side).push((x, side)),
{
    assert(on(s.push(x), side) =~= on(s, side).push((x, side)));
}

fn side_before_of(axis: Axis) -> (d: Direction)
    ensures
        d == side_before(axis),
{
    match axis {
        Axis::Vertical => Direction::Up,
        Axis::Horizontal => Direction::Left,
    }
}

fn side_after_of(axis: Axis) -> (d: Direction)
    ensures
        d == side_after(axis),
{
    match axis {
        Axis::Vertical => Direction::Down,
        Axis::Horizontal => Direction::Right,
    }
}

fn side_of_branches_of(axis: Axis) -> (d: Direction)
    ensures
        d == side_of_branches(axis),
{
    match axis {
        Axis::Vertical => Direction::Down,
        Axis::Horizontal => Direction::Left,
    }
}

/// Where the far edge of `l` crosses the edge of `b` on `side`.
fn crossing_of(b: &Rect, l: &Rect, side: Direction) -> (r: Option<usize>)
    ensures
        r == crossing(*b, *l, side),
{
    let l_right: u128 = l.x as u128 + l.width as u128;
    let l_bottom: u128 = l.y as u128 + l.height as u128;
    let b_right: u128 = b.x as u128 + b.width as u128;
    let b_bottom: u128 = b.y as u128 + b.height as u128;
    match side {
        Direction::Left => if l_right > b.x as u128 && l.x < b.x {
            Some(l.bottom())
        } else {
            None
        },
        Direction::Right => if (l.x as u128) < b_right && l_right > b_right {
            Some(l.bottom())
        } else {
            None
        },
        Direction::Up => if l_bottom > b.y as u128 && l.y < b.y {
            Some(l.right())
        } else {
            None
        },
        Direction::Down => if (l.y as u128) < b_bottom && l_bottom > b_bottom {
            Some(l.right())
        } else {
            None
        },
    }
}

impl Layout {
    /// Adds to `out` what the sibling `sibling` puts on `side`.
    fn push_facing(&self, sibling: NodeId, side: Direction, out: &mut Vec<(NodeId, Direction)>)
        requires
            self.arena_wf(),
        ensures
            final(out)@ == old(out)@ + facing(self.tree(), sibling, side),
    {
        let ghost start = out@;
        match self.children(sibling) {
            Some(children) => {
                self.push_on(children, side, out);
            },
            None => {
                out.push((sibling, side));
                assert(out@ =~= start + seq![(sibling, side)]);
            },
        }
    }

    /// Adds every node of `ids` to `out`, on side `side`.
    fn push_on(&self, ids: &Vec<NodeId>, side: Direction, out: &mut Vec<(NodeId, Direction)>)
        ensures
            final(out)@ == old(out)@ + on(ids@, side),
    {
        let ghost start = out@;
        let n: usize = ids.len();
        let mut i: usize = 0;
        assert(start + on(ids@.take(0), side) =~= start);
        while i < n
            invariant
                i <= n,
                n == ids.len(),
                out@ == start + on(ids@.take(i as int), side),
            decreases n - i,
        {
            out.push((ids[i], side));
            proof {
                assert(ids@.take(i + 1) =~= ids@.take(i as int).push(ids@[i as int]));
                lemma_on_push(ids@.take(i as int), ids@[i as int], side);
                assert(start + on(ids@.take(i as int), side).push((ids@[i as int], side)) =~= (start
                    + on(ids@.take(i as int), side)).push((ids@[i as int], side)));
            }
            i = i + 1;
        }
        assert(ids@.take(n as int) =~= ids@);
    }

    /// Returns nodes adjacent to the given node, along with the direction to get to them
    pub fn adjacent(&self, node: NodeId) -> (out: Vec<(NodeId, Direction)>)
        requires
            self.wf(),
        ensures
            out@ == neighbours(self.tree(), node),
    {
        let mut neighbors: Vec<(NodeId, Direction)> = Vec::new();
        let ghost t = self.tree();
        if self.is_floating(node) {
            return neighbors;
        }
        let parent = match self.parent(node) {
            Some(p) => p,
            None => {
                return neighbors;
            },
        };
        proof {
            assert(t.contains_key(node));
            assert(is_container(t, parent));
            assert(children_of(t, parent).contains(node));
        }
        let direction = match self.direction(parent) {
            Some(d) => d,
            None => {
                return neighbors;
            },
        };
        let children = match self.children(parent) {
            Some(c) => c,
            None => {
                return neighbors;
            },
        };
        let index = match self.child_index(parent, node) {
            Some(i) => i,
            None => {
                return neighbors;
            },
        };
        proof {
            self.lemma_child_place(parent, node, index as int);
        }
        if index > 0 {
            self.push_facing(children[index - 1], side_before_of(direction), &mut neighbors);
        }
        let ghost first = neighbors@;
        if index < children.len() - 1 {
            self.push_facing(children[index + 1], side_after_of(direction), &mut neighbors);
        }
        let ghost second = neighbors@;
        match self.parent(parent) {
            Some(grandparent) => {
                proof {
                    assert(is_container(t, grandparent));
                }
                let side = match self.direction(grandparent) {
                    Some(d) => side_of_branches_of(d),
                    None => Direction::Down,
                };
                let others = match self.children(grandparent) {
                    Some(c) => Self::others(c, parent),
                    None => Vec::new(),
                };
                self.push_on(&others, side, &mut neighbors);
            },
            None => {
                assert(second + Seq::<(NodeId, Direction)>::empty() =~= second);
            },
        }
        proof {
            assert(Seq::<(NodeId, Direction)>::empty() + Seq::<(NodeId, Direction)>::empty()
                =~= Seq::<(NodeId, Direction)>::empty());
            assert(neighbors@ =~= neighbours(t, node));
        }
        neighbors
    }

    /// The nodes of `ids` but `node`.
    fn others(ids: &Vec<NodeId>, node: NodeId) -> (out: Vec<NodeId>)
        ensures
            out@ == without(ids@, node),
    {
        let mut out: Vec<NodeId> = Vec::new();
        let n: usize = ids.len();
        let mut i: usize = 0;
        while i < n
            invariant
                i <= n,
                n == ids.len(),
                out@ == without(ids@.take(i as int), node),
            decreases n - i,
        {
            proof {
                assert(ids@.take(i + 1).drop_last() =~= ids@.take(i as int));
            }
            if ids[i] != node {
                out.push(ids[i]);
            }
            i = i + 1;
        }
        assert(ids@.take(n as int) =~= ids@);
        out
    }

    /// Returns nodes that are adjacent to the given node on the given side.
    pub fn adjacent_on_side(&self, node: NodeId, side: Direction) -> (out: Vec<NodeId>)
        requires
            self.wf(),
        ensures
            out@ == on_side(neighbours(self.tree(), node), side),
    {
        let pairs = self.adjacent(node);
        let mut out: Vec<NodeId> = Vec::new();
        let n: usize = pairs.len();
        let mut i: usize = 0;
        while i < n
            invariant
                i <= n,
                n == pairs.len(),
                out@ == on_side(pairs@.take(i as int), side),
            decreases n - i,
        {
            proof {
                assert(pairs@.take(i + 1).drop_last() =~= pairs@.take(i as int));
            }
            if pairs[i].1 == side {
                out.push(pairs[i].0);
            }
            i = i + 1;
        }
        assert(pairs@.take(n as int) =~= pairs@);
        out
    }

    /// The crossings that `side_intersections` finds for `node` on `side`.
    pub open spec fn edge_crossings(&self, node: NodeId, side: Direction) -> Seq<usize> {
        if is_floating(self.tree(), node) || !self.rects().contains_key(node) {
            Seq::empty()
        } else {
            crossings(
                self.rects(),
                self.rects()[node],
                on_side(neighbours(self.tree(), node), side),
                side,
            )
        }
    }

    /// Returns x/y value of intersections between node and other nodes on the given side.
    pub fn side_intersections(&self, node: NodeId, side: Direction) -> (out: Vec<usize>)
        requires
            self.wf(),
        ensures
            out@ == self.edge_crossings(node, side),
    {
        let mut intersections: Vec<usize> = Vec::new();
        if self.is_floating(node) {
            return intersections;
        }
        let bounds = match self.layout(node) {
            Some(b) => *b,
            None => {
                return intersections;
            },
        };
        let adjacent = self.adjacent_on_side(node, side);
        let n: usize = adjacent.len();
        let mut i: usize = 0;
        while i < n
            invariant
                i <= n,
                n == adjacent.len(),
                self.wf(),
                intersections@ == crossings(self.rects(), bounds, adjacent@.take(i as int), side),
            decreases n - i,
        {
            proof {
                assert(adjacent@.take(i + 1).drop_last() =~= adjacent@.take(i as int));
            }
            match self.layout(adjacent[i]) {
                Some(layout) => {
                    match crossing_of(&bounds, layout, side) {
                        Some(at) => {
                            intersections.push(at);
                        },
                        None => {},
                    }
                },
                None => {},
            }
            i = i + 1;
        }
        assert(adjacent@.take(n as int) =~= adjacent@);
        intersections
    }
}

} // verus!
