//! Widgets are kept in a store of their own and named by handle, so that one
//! widget can be shown in several windows of the layout.

use crate::allocator::{NodeId, Slab, MAX_CAPACITY};
use crate::layout::geometry::Constraint;
use vstd::prelude::*;

verus! {

/// What the layout engine asks of a widget.
pub trait Widget {
    /// The size that the widget asks for along the axis of its container.
    fn constraint(&self) -> Constraint {
        Constraint::Fill
    }

    /// Where the widget wants the cursor of the terminal while it has the
    /// focus: the place, among the widgets that it reported when it was last
    /// drawn, of the one that holds the cursor, if one of them does, and the
    /// column and the line of the cursor within that widget or within itself.
    fn cursor(&self) -> Option<(Option<usize>, usize, usize)> {
        None
    }
}

/// A widget in a box asks for what the widget asks for.
impl<T: Widget + ?Sized> Widget for Box<T> {
    fn constraint(&self) -> (c: Constraint)
        ensures
            call_ensures(T::constraint, (&**self,), c),
    {
        (**self).constraint()
    }

    fn cursor(&self) -> (r: Option<(Option<usize>, usize, usize)>)
        ensures
            call_ensures(T::cursor, (&**self,), r),
    {
        (**self).cursor()
    }
}

/// A place for a widget that may be empty for a while, as when the widget has
/// been taken out to be worked on. An empty place asks for nothing.
impl<T: Widget> Widget for Option<T> {
    fn constraint(&self) -> (c: Constraint)
        ensures
            match *self {
                Some(w) => call_ensures(T::constraint, (&w,), c),
                None => c == Constraint::Fill,
            },
    {
        match self {
            Some(w) => w.constraint(),
            None => Constraint::Fill,
        }
    }

    fn cursor(&self) -> (r: Option<(Option<usize>, usize, usize)>)
        ensures
            match *self {
                Some(w) => call_ensures(T::cursor, (&w,), r),
                None => r is None,
            },
    {
        match self {
            Some(w) => w.cursor(),
            None => None,
        }
    }
}

/// A handle to a widget in a widget store.
#[derive(Debug, Clone, Copy, PartialEq, Eq, Hash, Structural)]
pub struct WidgetId(pub NodeId);

/// The widgets of an application, by handle.
pub struct WidgetStore<W> {
    widgets: Slab<W>,
}

impl<W> View for WidgetStore<W> {
    type V = Map<WidgetId, W>;

    /// The registered widgets.
    closed spec fn view(&self) -> Map<WidgetId, W> {
        Map::new(|k: WidgetId| self.widgets@.contains_key(k.0), |k: WidgetId| self.widgets@[k.0])
    }
}

impl<W> WidgetStore<W> {
    /// The invariant of the store.
    pub closed spec fn wf(&self) -> bool {
        self.widgets.wf()
    }

    /// How many more widgets the store can take.
    pub closed spec fn spare(&self) -> nat {
        self.widgets.spare()
    }

    /// An empty store.
    pub fn new() -> (s: Self)
        ensures
            s.wf(),
            s@ == Map::<WidgetId, W>::empty(),
            s.spare() == MAX_CAPACITY,
    {
        let s = WidgetStore { widgets: Slab::new() };
        assert(s@ =~= Map::<WidgetId, W>::empty());
        s
    }

    /// How many more widgets the store can take.
    pub fn room(&self) -> (n: usize)
        requires
            self.wf(),
        ensures
            n == self.spare(),
    {
        self.widgets.room()
    }

    /// The widget that `id` reaches.
    pub fn get(&self, id: WidgetId) -> (r: Option<&W>)
        requires
            self.wf(),
        ensures
            match r {
                Some(w) => self@.contains_key(id) && *w == self@[id],
                None => !self@.contains_key(id),
            },
    {
        self.widgets.get(id.0)
    }

    /// The widget that `id` reaches, for changing it in place.
    pub fn get_mut(&mut self, id: WidgetId) -> (r: Option<&mut W>)
        requires
            old(self).wf(),
        ensures
            final(self).wf(),
            final(self).spare() == old(self).spare(),
            match r {
                Some(w) => {
                    &&& old(self)@.contains_key(id)
                    &&& *w == old(self)@[id]
                    &&& final(self)@ == old(self)@.insert(id, *final(w))
                },
                None => !old(self)@.contains_key(id) && final(self)@ == old(self)@,
            },
    {
        let ghost before = *self;
        let r = self.widgets.get_mut(id.0);
        proof {
            after_borrow(self).widgets.lemma_same_slots(&before.widgets);
            if r is Some {
                assert(after_borrow(self)@ =~= before@.insert(id, *final(r->0)));
            } else {
                assert(after_borrow(self)@ =~= before@);
            }
        }
        r
    }

    /// Takes a widget into the store and returns the handle that reaches it.
    pub fn register(&mut self, widget: W) -> (id: WidgetId)
        requires
            old(self).wf(),
            old(self).spare() > 0,
        ensures
            final(self).wf(),
            !old(self)@.contains_key(id),
            final(self)@ == old(self)@.insert(id, widget),
            final(self).spare() == old(self).spare() - 1,
    {
        let ghost before = *self;
        let key = self.widgets.insert(widget);
        let id = WidgetId(key);
        assert(self@ =~= before@.insert(id, widget));
        id
    }

    /// Takes the widget that `id` reaches out of the store.
    pub fn remove(&mut self, id: WidgetId) -> (r: Option<W>)
        requires
            old(self).wf(),
        ensures
            final(self).wf(),
            final(self).spare() >= old(self).spare(),
            match r {
                Some(w) => {
                    &&& old(self)@.contains_key(id)
                    &&& w == old(self)@[id]
                    &&& final(self)@ == old(self)@.remove(id)
                },
                None => !old(self)@.contains_key(id) && final(self)@ == old(self)@,
            },
    {
        let ghost before = *self;
        let r = self.widgets.remove(id.0);
        proof {
            if r is Some {
                assert(self@ =~= before@.remove(id));
                assert(self.widgets.free_list().len() >= before.widgets.free_list().len());
            } else {
                assert(self@ =~= before@);
            }
        }
        r
    }
}

/// Two windows that show the same widget see the same state of it: what is
/// written to the widget through the handle of one is what is read through
/// the handle of the other.
pub proof fn lemma_shared_widget_is_one<W>(
    before: Map<WidgetId, W>,
    after: Map<WidgetId, W>,
    one: WidgetId,
    other: WidgetId,
    written: W,
)
    requires
        one == other,
        after == before.insert(one, written),
    ensures
        after.contains_key(other),
        after[other] == written,
{
}

} // verus!
