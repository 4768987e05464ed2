//! Floating windows and the order in which they are stacked.

use crate::allocator::{NodeId, Slab};
use crate::layout::geometry::{Direction, Rect};
use crate::layout::node::{tree_of, z_of, Floating, LayoutNode, Tree};
use crate::widget::{WidgetId, WidgetStore};
use vstd::prelude::*;

verus! {

impl Floating {
    /// A floating window that shows `widget` at `pos`, with z-index 1.
    pub fn new(widget: WidgetId, pos: Rect) -> (f: Self)
        ensures
            f == (Floating { widget, pos, z_index: 1 }),
    {
        Self { widget, pos, z_index: 1 }
    }

    /// A floating window for a widget that is not in the store yet.
    pub fn from_widget<W>(widget: W, pos: Rect, widgets: &mut WidgetStore<W>) -> (f: Self)
        requires
            old(widgets).wf(),
            old(widgets).spare() > 0,
        ensures
            final(widgets).wf(),
            !old(widgets)@.contains_key(f.widget),
            final(widgets)@ == old(widgets)@.insert(f.widget, widget),
            final(widgets).spare() == old(widgets).spare() - 1,
            f.pos == pos,
            f.z_index == 1,
    {
        let widget = widgets.register(widget);
        Self { widget, pos, z_index: 1 }
    }

    /// The same window with another z-index.
    pub fn with_z_index(self, z_index: usize) -> (f: Self)
        ensures
            f == (Floating { z_index, ..self }),
    {
        Self { z_index, ..self }
    }

    /// The z-index of the window.
    pub fn z_index(&self) -> (z: usize)
        ensures
            z == self.z_index,
    {
        self.z_index
    }

    /// The widget that the window shows.
    pub fn widget(&self) -> (w: WidgetId)
        ensures
            w == self.widget,
    {
        self.widget
    }

    /// Moves the corner of the window to `pos`.
    pub fn move_to(&mut self, pos: (usize, usize))
        ensures
            *final(self) == (Floating {
                pos: Rect { x: pos.0, y: pos.1, ..old(self).pos },
                ..*old(self)
            }),
    {
        self.pos.x = pos.0;
        self.pos.y = pos.1;
    }

    /// Moves the window by one cell; it stops at the edge of the plane.
    pub fn move_dir(&mut self, direction: Direction)
        ensures
            final(self).widget == old(self).widget,
            final(self).z_index == old(self).z_index,
            final(self).pos == match direction {
                Direction::Up => old(self).pos.shifted_by(0, -1),
                Direction::Down => old(self).pos.shifted_by(0, 1),
                Direction::Left => old(self).pos.shifted_by(-1, 0),
                Direction::Right => old(self).pos.shifted_by(1, 0),
            },
    {
        match direction {
            Direction::Up => {
                self.pos.y = self.pos.y.saturating_sub(1);
            },
            Direction::Down => {
                self.pos.y = self.pos.y.saturating_add(1);
            },
            Direction::Left => {
                self.pos.x = self.pos.x.saturating_sub(1);
            },
            Direction::Right => {
                self.pos.x = self.pos.x.saturating_add(1);
            },
        }
    }
}

/// The floating windows from front to back: by falling z-index, and among
/// windows of one z-index the one that came first in front.
pub struct FloatStack {
    inner: Vec<NodeId>,
}

/// Whether `s` runs from the highest z-index to the lowest.
pub open spec fn front_to_back(s: Seq<NodeId>, t: Tree) -> bool {
    forall|i: int, j: int| 0 <= i < j < s.len() ==> z_of(t, s[i]) >= z_of(t, s[j])
}

/// The place that a window of z-index `z` takes in `s`: behind every window
/// that is at least as high, from the front on.
pub open spec fn place_for(s: Seq<NodeId>, t: Tree, z: usize) -> int
    decreases s.len(),
{
    if s.len() == 0 || z_of(t, s[0]) < z {
        0
    } else {
        1 + place_for(s.skip(1), t, z)
    }
}

/// `s` with `x` put in at its place.
pub open spec fn placed(s: Seq<NodeId>, t: Tree, x: NodeId) -> Seq<NodeId> {
    s.insert(place_for(s, t, z_of(t, x)), x)
}

/// `s` from front to back, with windows of one z-index in the order in which
/// they stand in `s`.
pub open spec fn stacked(s: Seq<NodeId>, t: Tree) -> Seq<NodeId>
    decreases s.len(),
{
    if s.len() == 0 {
        s
    } else {
        placed(stacked(s.drop_last(), t), t, s.last())
    }
}

/// `s` without `x`.
pub open spec fn without(s: Seq<NodeId>, x: NodeId) -> Seq<NodeId>
    decreases s.len(),
{
    if s.len() == 0 {
        s
    } else if s.last() == x {
        without(s.drop_last(), x)
    } else {
        without(s.drop_last(), x).push(s.last())
    }
}

/// The place of a window lies within the stack; everything in front of it is
/// at least as high, and what stands at it is lower.
pub proof fn lemma_place_for(s: Seq<NodeId>, t: Tree, z: usize)
    ensures
        0 <= place_for(s, t, z) <= s.len(),
        forall|i: int| 0 <= i < place_for(s, t, z) ==> z_of(t, #[trigger] s[i]) >= z,
        place_for(s, t, z) < s.len() ==> z_of(t, s[place_for(s, t, z)]) < z,
    decreases s.len(),
{
    if s.len() == 0 || z_of(t, s[0]) < z {
    } else {
        lemma_place_for(s.skip(1), t, z);
        assert forall|i: int| 0 <= i < place_for(s, t, z) implies z_of(t, #[trigger] s[i])
            >= z by {
            if i > 0 {
                assert(s[i] == s.skip(1)[i - 1]);
            }
        }
    }
}

/// Putting a window in at its place keeps a stack in order and adds nothing
/// but the window.
pub proof fn lemma_placed(s: Seq<NodeId>, t: Tree, x: NodeId)
    requires
        front_to_back(s, t),
    ensures
        front_to_back(placed(s, t, x), t),
        placed(s, t, x).len() == s.len() + 1,
        placed(s, t, x).to_multiset() == s.to_multiset().insert(x),
        forall|y: NodeId| placed(s, t, x).contains(y) <==> (y == x || s.contains(y)),
        s.no_duplicates() && !s.contains(x) ==> placed(s, t, x).no_duplicates(),
{
    let k = place_for(s, t, z_of(t, x));
    let r = placed(s, t, x);
    lemma_place_for(s, t, z_of(t, x));
    if s.no_duplicates() && !s.contains(x) {
        assert forall|i: int, j: int| 0 <= i < r.len() && 0 <= j < r.len() && i != j implies r[i]
            != r[j] by {
            let i2 = if i < k { i } else { i - 1 };
            let j2 = if j < k { j } else { j - 1 };
            if i == k {
                assert(r[j] == s[j2]);
                assert(s.contains(s[j2]));
            } else if j == k {
                assert(r[i] == s[i2]);
                assert(s.contains(s[i2]));
            } else {
                assert(r[i] == s[i2]);
                assert(r[j] == s[j2]);
            }
        }
    }
    assert forall|i: int, j: int| 0 <= i < j < r.len() implies z_of(t, r[i]) >= z_of(t, r[j]) by {
        if j == k {
            assert(r[i] == s[i]);
        } else if i == k {
            assert(r[j] == s[j - 1]);
            if k < j - 1 {
                assert(z_of(t, s[k]) >= z_of(t, s[j - 1]));
            }
        } else {
            let i2 = if i < k { i } else { i - 1 };
            let j2 = if j < k { j } else { j - 1 };
            assert(r[i] == s[i2]);
            assert(r[j] == s[j2]);
        }
    }
    vstd::seq_lib::to_multiset_insert(s, k, x);
    assert forall|y: NodeId| r.contains(y) <==> (y == x || s.contains(y)) by {
        if r.contains(y) {
            let i = choose|i: int| 0 <= i < r.len() && r[i] == y;
            if i != k {
                let i2 = if i < k { i } else { i - 1 };
                assert(s[i2] == y);
            }
        }
        if y == x {
            assert(r[k] == x);
        }
        if s.contains(y) {
            let i = choose|i: int| 0 <= i < s.len() && s[i] == y;
            let i2 = if i < k { i } else { i + 1 };
            assert(r[i2] == y);
        }
    }
}

/// A stack that has been put in order runs from front to back and holds what
/// it held before, each window as often as before.
pub proof fn lemma_stacked(s: Seq<NodeId>, t: Tree)
    ensures
        front_to_back(stacked(s, t), t),
        stacked(s, t).len() == s.len(),
        stacked(s, t).to_multiset() == s.to_multiset(),
        forall|y: NodeId| stacked(s, t).contains(y) <==> s.contains(y),
    decreases s.len(),
{
    if s.len() == 0 {
    } else {
        let init = s.drop_last();
        lemma_stacked(init, t);
        lemma_placed(stacked(init, t), t, s.last());
        assert(init.push(s.last()) =~= s);
        vstd::seq_lib::to_multiset_build(init, s.last());
        assert forall|y: NodeId| stacked(s, t).contains(y) <==> s.contains(y) by {
            if s.contains(y) {
                let i = choose|i: int| 0 <= i < s.len() && s[i] == y;
                if i < s.len() - 1 {
                    assert(init[i] == y);
                }
            }
            if init.contains(y) {
                let i = choose|i: int| 0 <= i < init.len() && init[i] == y;
                assert(s[i] == y);
            }
            assert(s[s.len() - 1] == s.last());
        }
    }
}

/// A stack that is in order already stays as it is.
pub proof fn lemma_stacked_fixpoint(s: Seq<NodeId>, t: Tree)
    requires
        front_to_back(s, t),
    ensures
        stacked(s, t) == s,
    decreases s.len(),
{
    if s.len() > 0 {
        let init = s.drop_last();
        lemma_stacked_fixpoint(init, t);
        lemma_place_for(init, t, z_of(t, s.last()));
        let k = place_for(init, t, z_of(t, s.last()));
        if k < init.len() {
            assert(z_of(t, s[k]) >= z_of(t, s[s.len() - 1]));
            assert(init[k] == s[k]);
        }
        assert(init.insert(init.len() as int, s.last()) =~= s);
    }
}

/// What `without` leaves: everything but `x`, in the old order.
pub proof fn lemma_without(s: Seq<NodeId>, x: NodeId)
    ensures
        !without(s, x).contains(x),
        forall|y: NodeId| y != x ==> (without(s, x).contains(y) <==> s.contains(y)),
        without(s, x).len() <= s.len(),
        !s.contains(x) ==> without(s, x) == s,
    decreases s.len(),
{
    if s.len() > 0 {
        let init = s.drop_last();
        lemma_without(init, x);
        let w = without(s, x);
        assert forall|y: NodeId| y != x implies (w.contains(y) <==> s.contains(y)) by {
            if s.contains(y) {
                let i = choose|i: int| 0 <= i < s.len() && s[i] == y;
                if i < s.len() - 1 {
                    assert(init[i] == y);
                    assert(init.contains(y));
                    assert(without(init, x).contains(y));
                    let j = choose|j: int|
                        0 <= j < without(init, x).len() && without(init, x)[j] == y;
                    assert(w[j] == y);
                } else {
                    assert(w[w.len() - 1] == y);
                }
            }
            if w.contains(y) {
                let j = choose|j: int| 0 <= j < w.len() && w[j] == y;
                if j < without(init, x).len() {
                    assert(without(init, x)[j] == y);
                    assert(init.contains(y));
                    let i = choose|i: int| 0 <= i < init.len() && init[i] == y;
                    assert(s[i] == y);
                } else {
                    assert(s[s.len() - 1] == y);
                }
            }
        }
        if w.contains(x) {
            let j = choose|j: int| 0 <= j < w.len() && w[j] == x;
            if j < without(init, x).len() {
                assert(without(init, x)[j] == x);
            }
        }
        if !s.contains(x) {
            assert(s[s.len() - 1] != x);
            assert forall|i: int| 0 <= i < init.len() implies init[i] != x by {
                assert(s[i] == init[i]);
            }
            assert(init.push(s.last()) =~= s);
        }
    }
}

impl View for FloatStack {
    type V = Seq<NodeId>;

    closed spec fn view(&self) -> Seq<NodeId> {
        self.inner@
    }
}

impl FloatStack {
    /// An empty stack.
    pub fn new() -> (s: Self)
        ensures
            s@ == Seq::<NodeId>::empty(),
    {
        Self { inner: Vec::new() }
    }

    /// The windows from front to back.
    pub fn to_vec(&self) -> (v: Vec<NodeId>)
        ensures
            v@ == self@,
    {
        let mut v: Vec<NodeId> = Vec::new();
        let mut i: usize = 0;
        while i < self.inner.len()
            invariant
                i <= self.inner.len(),
                v@ == self.inner@.take(i as int),
            decreases self.inner.len() - i,
        {
            v.push(self.inner[i]);
            assert(self.inner@.take(i + 1) =~= self.inner@.take(i as int).push(self.inner@[i as int]));
            i = i + 1;
        }
        assert(self.inner@.take(i as int) =~= self.inner@);
        v
    }

    /// The number of windows.
    pub fn len(&self) -> (n: usize)
        ensures
            n == self@.len(),
    {
        self.inner.len()
    }

    /// The window at place `i` from the front.
    pub fn get(&self, i: usize) -> (r: Option<NodeId>)
        ensures
            r == if i < self@.len() {
                Some(self@[i as int])
            } else {
                None
            },
    {
        if i < self.inner.len() {
            Some(self.inner[i])
        } else {
            None
        }
    }

    /// Takes `node` out of the stack, wherever it stands.
    pub fn remove(&mut self, node: NodeId)
        ensures
            final(self)@ == without(old(self)@, node),
    {
        let mut kept: Vec<NodeId> = Vec::new();
        let n: usize = self.inner.len();
        let mut i: usize = 0;
        while i < n
            invariant
                i <= n,
                n == self.inner.len(),
                kept@ == without(self.inner@.take(i as int), node),
            decreases n - i,
        {
            let id = self.inner[i];
            proof {
                assert(self.inner@.take(i + 1).drop_last() =~= self.inner@.take(i as int));
            }
            if id != node {
                kept.push(id);
            }
            i = i + 1;
        }
        assert(self.inner@.take(n as int) =~= self.inner@);
        self.inner = kept;
    }

    /// The z-index recorded for `node` in `nodes`; 1 where there is none.
    fn z_index_of(node: NodeId, nodes: &Slab<LayoutNode>) -> (z: usize)
        requires
            nodes.wf(),
        ensures
            z == z_of(tree_of(nodes@), node),
    {
        match nodes.get(node) {
            Some(LayoutNode::Floating(f)) => f.z_index,
            _ => 1,
        }
    }

    /// Puts the stack in order, front to back, by the z-index that `nodes`
    /// records for each window. Windows of one z-index keep their order.
    pub fn sort(&mut self, nodes: &Slab<LayoutNode>)
        requires
            nodes.wf(),
        ensures
            final(self)@ == stacked(old(self)@, tree_of(nodes@)),
    {
        let ghost t = tree_of(nodes@);
        let mut sorted: Vec<NodeId> = Vec::new();
        let n: usize = self.inner.len();
        let mut i: usize = 0;
        while i < n
            invariant
                i <= n,
                n == self.inner.len(),
                nodes.wf(),
                t == tree_of(nodes@),
                sorted@ == stacked(self.inner@.take(i as int), t),
                sorted@.len() == i,
            decreases n - i,
        {
            let id = self.inner[i];
            proof {
                assert(self.inner@.take(i + 1).drop_last() =~= self.inner@.take(i as int));
                lemma_placed_len(sorted@, t, id);
            }
            Self::put(&mut sorted, id, nodes);
            i = i + 1;
        }
        assert(self.inner@.take(n as int) =~= self.inner@);
        self.inner = sorted;
    }

    /// Puts `node` into `stack` at its place.
    fn put(stack: &mut Vec<NodeId>, node: NodeId, nodes: &Slab<LayoutNode>)
        requires
            nodes.wf(),
        ensures
            final(stack)@ == placed(old(stack)@, tree_of(nodes@), node),
    {
        let ghost t = tree_of(nodes@);
        let ghost s = stack@;
        let z = Self::z_index_of(node, nodes);
        let n: usize = stack.len();
        let mut k: usize = 0;
        assert(s.skip(0) =~= s);
        while k < n && Self::z_index_of(stack[k], nodes) >= z
            invariant
                k <= n,
                n == stack.len(),
                stack@ == s,
                nodes.wf(),
                t == tree_of(nodes@),
                place_for(s, t, z) == k + place_for(s.skip(k as int), t, z),
            decreases n - k,
        {
            proof {
                assert(s.skip(k as int)[0] == s[k as int]);
                assert(s.skip(k as int).skip(1) =~= s.skip(k + 1));
            }
            k = k + 1;
        }
        proof {
            if k < n {
                assert(s.skip(k as int)[0] == s[k as int]);
            } else {
                assert(s.skip(k as int).len() == 0);
            }
        }
        stack.insert(k, node);
    }

    /// Adds `node` and puts the stack in order.
    pub fn push(&mut self, node: NodeId, nodes: &Slab<LayoutNode>)
        requires
            nodes.wf(),
        ensures
            final(self)@ == stacked(old(self)@.push(node), tree_of(nodes@)),
    {
        self.inner.push(node);
        self.sort(nodes);
    }

    /// Puts the stack in order and takes the frontmost window off it.
    pub fn pop(&mut self, nodes: &Slab<LayoutNode>) -> (r: Option<NodeId>)
        requires
            nodes.wf(),
        ensures
            match r {
                Some(id) => {
                    &&& old(self)@.len() > 0
                    &&& id == stacked(old(self)@, tree_of(nodes@))[0]
                    &&& final(self)@ == stacked(old(self)@, tree_of(nodes@)).skip(1)
                },
                None => old(self)@.len() == 0 && final(self)@ == old(self)@,
            },
    {
        proof {
            lemma_stacked(self@, tree_of(nodes@));
        }
        self.sort(nodes);
        if self.inner.len() == 0 {
            None
        } else {
            let ghost s = self.inner@;
            let id = self.inner.remove(0);
            assert(self.inner@ =~= s.skip(1));
            Some(id)
        }
    }

    /// The frontmost window.
    pub fn peek(&self) -> (r: Option<NodeId>)
        ensures
            r == if self@.len() > 0 {
                Some(self@[0])
            } else {
                None
            },
    {
        if self.inner.len() == 0 {
            None
        } else {
            Some(self.inner[0])
        }
    }

    /// Whether the stack holds no window.
    pub fn is_empty(&self) -> (b: bool)
        ensures
            b == (self@.len() == 0),
    {
        self.inner.len() == 0
    }
}

/// Putting a window in makes the stack one longer.
proof fn lemma_placed_len(s: Seq<NodeId>, t: Tree, x: NodeId)
    ensures
        placed(s, t, x).len() == s.len() + 1,
{
    lemma_place_for(s, t, z_of(t, x));
}

/// Taking a window out leaves the others in their order.
pub proof fn lemma_without_keeps_order(s: Seq<NodeId>, t: Tree, x: NodeId)
    requires
        front_to_back(s, t),
        s.no_duplicates(),
    ensures
        front_to_back(without(s, x), t),
        without(s, x).no_duplicates(),
    decreases s.len(),
{
    if s.len() > 0 {
        let init = s.drop_last();
        lemma_without_keeps_order(init, t, x);
        lemma_without(init, x);
        let w = without(s, x);
        let wi = without(init, x);
        if s.last() != x {
            assert forall|i: int, j: int| 0 <= i < j < w.len() implies z_of(t, w[i]) >= z_of(
                t,
                w[j],
            ) by {
                if j == w.len() - 1 {
                    assert(wi[i] == w[i]);
                    assert(wi.contains(w[i]));
                    assert(init.contains(w[i]));
                    let k = choose|k: int| 0 <= k < init.len() && init[k] == w[i];
                    assert(s[k] == w[i]);
                    assert(z_of(t, s[k]) >= z_of(t, s[s.len() - 1]));
                } else {
                    assert(wi[i] == w[i] && wi[j] == w[j]);
                }
            }
            assert forall|i: int, j: int|
                0 <= i < w.len() && 0 <= j < w.len() && i != j implies w[i] != w[j] by {
                if i < wi.len() && j < wi.len() {
                    assert(wi[i] == w[i] && wi[j] == w[j]);
                } else {
                    let m = if i < wi.len() { i } else { j };
                    assert(wi[m] == w[m]);
                    assert(wi.contains(w[m]));
                    assert(init.contains(w[m]));
                    let k = choose|k: int| 0 <= k < init.len() && init[k] == w[m];
                    assert(s[k] == w[m]);
                    assert(s[k] != s[s.len() - 1]);
                }
            }
        }
    }
}

/// In a sequence without repetitions, leaving out what stands at a place is
/// taking that place out.
pub proof fn lemma_without_is_remove(s: Seq<NodeId>, i: int)
    requires
        s.no_duplicates(),
        0 <= i < s.len(),
    ensures
        without(s, s[i]) == s.remove(i),
    decreases s.len(),
{
    let init = s.drop_last();
    if i == s.len() - 1 {
        lemma_without(init, s[i]);
        assert(!init.contains(s[i])) by {
            if init.contains(s[i]) {
                let k = choose|k: int| 0 <= k < init.len() && init[k] == s[i];
                assert(s[k] == s[i]);
            }
        }
        assert(s.remove(i) =~= init);
    } else {
        assert(init.no_duplicates());
        lemma_without_is_remove(init, i);
        assert(init[i] == s[i]);
        assert(s.last() != s[i]);
        assert(s.remove(i) =~= init.remove(i).push(s.last()));
    }
}

/// The windows of `s` whose z-index is `z`, in their order.
pub open spec fn of_height(s: Seq<NodeId>, t: Tree, z: usize) -> Seq<NodeId>
    decreases s.len(),
{
    if s.len() == 0 {
        s
    } else if z_of(t, s.last()) == z {
        of_height(s.drop_last(), t, z).push(s.last())
    } else {
        of_height(s.drop_last(), t, z)
    }
}

/// The windows of one height in a stack that is cut in two are those of the
/// front part and then those of the back part.
proof fn lemma_of_height_add(a: Seq<NodeId>, b: Seq<NodeId>, t: Tree, z: usize)
    ensures
        of_height(a + b, t, z) == of_height(a, t, z) + of_height(b, t, z),
    decreases b.len(),
{
    if b.len() == 0 {
        assert(a + b =~= a);
        assert(of_height(a, t, z) + of_height(b, t, z) =~= of_height(a, t, z));
    } else {
        lemma_of_height_add(a, b.drop_last(), t, z);
        assert((a + b).drop_last() =~= a + b.drop_last());
        assert((a + b).last() == b.last());
        if z_of(t, b.last()) == z {
            assert((of_height(a, t, z) + of_height(b.drop_last(), t, z)).push(b.last())
                =~= of_height(a, t, z) + of_height(b.drop_last(), t, z).push(b.last()));
        }
    }
}

/// A stack in which every window is lower than `z` holds no window of height `z`.
proof fn lemma_of_height_none(s: Seq<NodeId>, t: Tree, z: usize)
    requires
        forall|i: int| 0 <= i < s.len() ==> z_of(t, #[trigger] s[i]) < z,
    ensures
        of_height(s, t, z) == Seq::<NodeId>::empty(),
    decreases s.len(),
{
    if s.len() > 0 {
        assert(z_of(t, s[s.len() - 1]) < z);
        assert forall|i: int| 0 <= i < s.drop_last().len() implies z_of(
            t,
            #[trigger] s.drop_last()[i],
        ) < z by {
            assert(s.drop_last()[i] == s[i]);
        }
        lemma_of_height_none(s.drop_last(), t, z);
    }
}

/// A window that is put into an ordered stack goes behind the windows of its
/// own height, and the windows of every other height stay as they are.
pub proof fn lemma_placed_is_stable(s: Seq<NodeId>, t: Tree, x: NodeId, z: usize)
    requires
        front_to_back(s, t),
    ensures
        of_height(placed(s, t, x), t, z) == if z_of(t, x) == z {
            of_height(s, t, z).push(x)
        } else {
            of_height(s, t, z)
        },
{
    let zx = z_of(t, x);
    let k = place_for(s, t, zx);
    lemma_place_for(s, t, zx);
    let front = s.take(k);
    let back = s.skip(k);
    assert(s =~= front + back);
    assert(placed(s, t, x) =~= (front + seq![x]) + back);
    lemma_of_height_add(front, back, t, z);
    lemma_of_height_add(front + seq![x], back, t, z);
    lemma_of_height_add(front, seq![x], t, z);
    assert(seq![x].drop_last() =~= Seq::<NodeId>::empty());
    assert(seq![x].last() == x);
    assert(of_height(seq![x].drop_last(), t, z) =~= Seq::<NodeId>::empty());
    if zx == z {
        assert(of_height(seq![x], t, z) =~= seq![x]);
        assert forall|i: int| 0 <= i < back.len() implies z_of(t, #[trigger] back[i]) < z by {
            assert(back[i] == s[k + i]);
            if i > 0 {
                assert(z_of(t, s[k]) >= z_of(t, s[k + i]));
            }
        }
        lemma_of_height_none(back, t, z);
        assert(of_height(front, t, z) + seq![x] + Seq::<NodeId>::empty() =~= (of_height(
            front,
            t,
            z,
        ) + Seq::<NodeId>::empty()).push(x));
    } else {
        assert(of_height(seq![x], t, z) =~= Seq::<NodeId>::empty());
        assert(of_height(front, t, z) + Seq::<NodeId>::empty() =~= of_height(front, t, z));
    }
}

/// Putting a stack in order is stable: the windows of every height stand in
/// the order in which they stood before.
pub proof fn lemma_stacked_is_stable(s: Seq<NodeId>, t: Tree, z: usize)
    ensures
        of_height(stacked(s, t), t, z) == of_height(s, t, z),
    decreases s.len(),
{
    if s.len() > 0 {
        lemma_stacked_is_stable(s.drop_last(), t, z);
        lemma_stacked(s.drop_last(), t);
        lemma_placed_is_stable(stacked(s.drop_last(), t), t, s.last(), z);
    }
}

} // verus!
