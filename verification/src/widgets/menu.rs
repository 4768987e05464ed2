//! A menu: a title and a list of entries, one of which is active. Every entry
//! has a title, a tag that is shown beside it, and an action.

use crate::event::{Event, KeyCode, KeyEvent, MouseEvent};
use crate::layout::geometry::Constraint;
use crate::widget::Widget;
use vstd::prelude::*;

verus! {

/// A title, entries, and the place of the active entry.
pub struct Menu<A> {
    title: String,
    items: Vec<(String, String, A)>,
    active: usize,
}

/// The place that follows `active` among `len` entries, the first following
/// the last.
pub open spec fn place_after(active: int, len: int) -> int {
    if len <= 0 {
        0
    } else {
        (active + 1) % len
    }
}

/// The place before `active` among `len` entries, the last coming before the
/// first.
pub open spec fn place_before(active: int, len: int) -> int {
    if len <= 0 {
        0
    } else {
        (active + len - 1) % len
    }
}

/// The entry of a menu of `len` entries that is drawn on line `y` of the menu:
/// the title takes the first line, a blank line follows, then the entries.
pub open spec fn entry_on_line(y: int, len: int) -> Option<int> {
    if 2 <= y <= len + 1 {
        Some(y - 2)
    } else {
        None
    }
}

impl<A> Menu<A> {
    /// The title of the menu, as it is stored.
    pub closed spec fn title_string(&self) -> String {
        self.title
    }

    /// The title of the menu.
    pub open spec fn title_view(&self) -> Seq<char> {
        self.title_string()@
    }

    /// The entries of the menu: title, tag and action of each.
    pub closed spec fn items_view(&self) -> Seq<(String, String, A)> {
        self.items@
    }

    /// The place of the active entry.
    pub closed spec fn active_view(&self) -> usize {
        self.active
    }

    /// A menu with the given title and no entries.
    pub fn new(title: String) -> (m: Self)
        ensures
            m.title_view() == title@,
            m.items_view() == Seq::<(String, String, A)>::empty(),
            m.active_view() == 0,
    {
        Self { title, items: Vec::new(), active: 0 }
    }

    /// The menu with one more entry at its end.
    pub fn with_item(self, title: String, tag: String, action: A) -> (m: Self)
        ensures
            m.title_view() == self.title_view(),
            m.items_view() == self.items_view().push((title, tag, action)),
            m.active_view() == self.active_view(),
    {
        let mut this = self;
        this.add_item(title, tag, action);
        this
    }

    /// The menu with `items` added at its end.
    pub fn with_items(self, items: Vec<(String, String, A)>) -> (m: Self)
        ensures
            m.title_view() == self.title_view(),
            m.items_view() == self.items_view() + items@,
            m.active_view() == self.active_view(),
    {
        let mut this = self;
        let mut items = items;
        this.items.append(&mut items);
        this
    }

    /// Adds an entry at the end of the menu.
    pub fn add_item(&mut self, title: String, tag: String, action: A)
        ensures
            final(self).title_view() == old(self).title_view(),
            final(self).items_view() == old(self).items_view().push((title, tag, action)),
            final(self).active_view() == old(self).active_view(),
    {
        self.items.push((title, tag, action));
    }

    /// The number of entries.
    pub fn len(&self) -> (n: usize)
        ensures
            n == self.items_view().len(),
    {
        self.items.len()
    }

    /// The place of the active entry.
    pub fn active(&self) -> (i: usize)
        ensures
            i == self.active_view(),
    {
        self.active
    }

    /// The title of the menu.
    pub fn title(&self) -> (s: &str)
        ensures
            s@ == self.title_view(),
    {
        self.title.as_str()
    }

    /// Makes the entry after the active one active.
    pub fn next(&mut self)
        ensures
            final(self).title_view() == old(self).title_view(),
            final(self).items_view() == old(self).items_view(),
            final(self).active_view() == place_after(
                old(self).active_view() as int,
                old(self).items_view().len() as int,
            ),
    {
        let len: usize = self.items.len();
        if len == 0 {
            self.active = 0;
        } else {
            let next: u128 = (self.active as u128 + 1) % (len as u128);
            self.active = next as usize;
        }
    }

    /// Makes the entry before the active one active.
    pub fn prev(&mut self)
        ensures
            final(self).title_view() == old(self).title_view(),
            final(self).items_view() == old(self).items_view(),
            final(self).active_view() == place_before(
                old(self).active_view() as int,
                old(self).items_view().len() as int,
            ),
    {
        let len: usize = self.items.len();
        if len == 0 {
            self.active = 0;
        } else {
            let prev: u128 = (self.active as u128 + len as u128 - 1) % (len as u128);
            self.active = prev as usize;
        }
    }

    /// The place of the entry whose action is to run when the menu is told to
    /// select: the active entry, if there is an entry at its place.
    pub fn select(&self) -> (r: Option<usize>)
        ensures
            r == if self.active_view() < self.items_view().len() {
                Some(self.active_view())
            } else {
                None
            },
    {
        if self.active < self.items.len() {
            Some(self.active)
        } else {
            None
        }
    }

    /// The entry at `index`: its title, its tag and its action.
    pub fn item(&self, index: usize) -> (r: Option<&(String, String, A)>)
        ensures
            r == if index < self.items_view().len() {
                Some(&self.items_view()[index as int])
            } else {
                None
            },
    {
        if index < self.items.len() {
            Some(&self.items[index])
        } else {
            None
        }
    }

    /// The tag of the entry at `index`.
    pub fn tag(&self, index: usize) -> (r: Option<&str>)
        ensures
            match r {
                Some(s) => index < self.items_view().len() && s@ == self.items_view()[index as int].1@,
                None => index >= self.items_view().len(),
            },
    {
        if index < self.items.len() {
            Some(self.items[index].1.as_str())
        } else {
            None
        }
    }

    /// Replaces the tag of the entry at `index` by what `f` makes of it.
    pub fn update_tag<F: Fn(&String) -> String>(&mut self, index: usize, f: F)
        requires
            forall|s: &String| #[trigger] f.requires((s,)),
        ensures
            final(self).title_view() == old(self).title_view(),
            final(self).active_view() == old(self).active_view(),
            final(self).items_view().len() == old(self).items_view().len(),
            forall|i: int|
                0 <= i < old(self).items_view().len() && i != index ==> final(self).items_view()[i]
                    == old(self).items_view()[i],
            index < old(self).items_view().len() ==> f.ensures(
                (&old(self).items_view()[index as int].1,),
                final(self).items_view()[index as int].1,
            ),
            index < old(self).items_view().len() ==> {
                &&& final(self).items_view()[index as int].0 == old(self).items_view()[index as int].0
                &&& final(self).items_view()[index as int].2 == old(self).items_view()[index as int].2
            },
    {
        if index < self.items.len() {
            let tag = f(&self.items[index].1);
            self.items[index].1 = tag;
        }
    }

    /// The title of the entry at `index`.
    pub fn entry(&self, index: usize) -> (r: Option<&str>)
        ensures
            match r {
                Some(s) => index < self.items_view().len() && s@ == self.items_view()[index as int].0@,
                None => index >= self.items_view().len(),
            },
    {
        if index < self.items.len() {
            Some(self.items[index].0.as_str())
        } else {
            None
        }
    }

    /// Replaces the title of the entry at `index` by what `f` makes of it.
    pub fn update_entry<F: Fn(&String) -> String>(&mut self, index: usize, f: F)
        requires
            forall|s: &String| #[trigger] f.requires((s,)),
        ensures
            final(self).title_view() == old(self).title_view(),
            final(self).active_view() == old(self).active_view(),
            final(self).items_view().len() == old(self).items_view().len(),
            forall|i: int|
                0 <= i < old(self).items_view().len() && i != index ==> final(self).items_view()[i]
                    == old(self).items_view()[i],
            index < old(self).items_view().len() ==> f.ensures(
                (&old(self).items_view()[index as int].0,),
                final(self).items_view()[index as int].0,
            ),
            index < old(self).items_view().len() ==> {
                &&& final(self).items_view()[index as int].1 == old(self).items_view()[index as int].1
                &&& final(self).items_view()[index as int].2 == old(self).items_view()[index as int].2
            },
    {
        if index < self.items.len() {
            let title = f(&self.items[index].0);
            self.items[index].0 = title;
        }
    }

    /// Takes all entries out of the menu.
    pub fn clear(&mut self)
        ensures
            final(self).title_view() == old(self).title_view(),
            final(self).items_view() == Seq::<(String, String, A)>::empty(),
            final(self).active_view() == old(self).active_view(),
    {
        self.items.clear();
    }

    /// Takes the entry at `index` out of the menu.
    pub fn remove(&mut self, index: usize)
        requires
            index < old(self).items_view().len(),
        ensures
            final(self).title_view() == old(self).title_view(),
            final(self).items_view() == old(self).items_view().remove(index as int),
            final(self).active_view() == old(self).active_view(),
    {
        let _ = self.items.remove(index);
    }

    /// Replaces the title of the menu by what `f` makes of it.
    pub fn update_menu_title<F: Fn(&String) -> String>(&mut self, f: F)
        requires
            forall|s: &String| #[trigger] f.requires((s,)),
        ensures
            final(self).items_view() == old(self).items_view(),
            final(self).active_view() == old(self).active_view(),
            f.ensures((&old(self).title_string(),), final(self).title_string()),
    {
        let title = f(&self.title);
        self.title = title;
    }

    /// What the menu does with an event. The arrow keys move the active entry
    /// up and down and Enter selects it; the mouse makes the entry under it
    /// active and the left button selects it. Returns the place of the entry
    /// whose action is to run, if the event selects one.
    pub fn update<U>(&mut self, event: &Event<U>) -> (run: Option<usize>)
        ensures
            final(self).title_view() == old(self).title_view(),
            final(self).items_view() == old(self).items_view(),
            final(self).active_view() == old(self).active_after(event),
            run == old(self).selected_by(event),
    {
        match event {
            Event::Key(KeyEvent { key, .. }) => match key {
                KeyCode::UpArrow => {
                    self.prev();
                    None
                },
                KeyCode::DownArrow => {
                    self.next();
                    None
                },
                KeyCode::Enter => self.select(),
                _ => None,
            },
            Event::Mouse(MouseEvent { y, mouse_buttons, .. }) => {
                let y: usize = *y as usize;
                let on_entry: bool = y >= 2 && y - 2 < self.items.len();
                let left = mouse_buttons.left && !mouse_buttons.right && !mouse_buttons.middle
                    && !mouse_buttons.wheel && !mouse_buttons.wheel_up;
                let idle = !mouse_buttons.left && !mouse_buttons.right && !mouse_buttons.middle
                    && !mouse_buttons.wheel && !mouse_buttons.wheel_up;
                if on_entry && (left || idle) {
                    self.active = y - 2;
                    if left {
                        self.select()
                    } else {
                        None
                    }
                } else {
                    None
                }
            },
            _ => None,
        }
    }

    /// The active place after an event.
    pub open spec fn active_after<U>(&self, event: &Event<U>) -> usize {
        let len = self.items_view().len() as int;
        match *event {
            Event::Key(k) => match k.key {
                KeyCode::UpArrow => place_before(self.active_view() as int, len) as usize,
                KeyCode::DownArrow => place_after(self.active_view() as int, len) as usize,
                _ => self.active_view(),
            },
            Event::Mouse(m) => if (m.mouse_buttons.is_left() || m.mouse_buttons.is_none())
                && entry_on_line(m.y as int, len) is Some {
                entry_on_line(m.y as int, len)->0 as usize
            } else {
                self.active_view()
            },
            _ => self.active_view(),
        }
    }

    /// The entry that an event selects.
    pub open spec fn selected_by<U>(&self, event: &Event<U>) -> Option<usize> {
        let len = self.items_view().len() as int;
        match *event {
            Event::Key(k) => if k.key is Enter && self.active_view() < len {
                Some(self.active_view())
            } else {
                None
            },
            Event::Mouse(m) => if m.mouse_buttons.is_left() && entry_on_line(m.y as int, len)
                is Some {
                Some(entry_on_line(m.y as int, len)->0 as usize)
            } else {
                None
            },
            _ => None,
        }
    }
}

/// A menu takes whatever space is left and shows no cursor.
impl<A> Widget for Menu<A> {
    fn constraint(&self) -> (c: Constraint)
        ensures
            c == Constraint::Fill,
    {
        Constraint::Fill
    }

    fn cursor(&self) -> (r: Option<(Option<usize>, usize, usize)>)
        ensures
            r is None,
    {
        None
    }
}

/// The active place after `steps` steps forward from `start`.
pub open spec fn after_steps(start: int, len: int, steps: nat) -> int
    decreases steps,
{
    if steps == 0 {
        start
    } else {
        place_after(after_steps(start, len, (steps - 1) as nat), len)
    }
}

/// Steps forward add up, around the end of the menu.
pub proof fn lemma_steps_add_up(start: int, len: int, steps: nat)
    requires
        0 < len,
        0 <= start < len,
    ensures
        after_steps(start, len, steps) == (start + steps) % len,
    decreases steps,
{
    if steps > 0 {
        lemma_steps_add_up(start, len, (steps - 1) as nat);
        vstd::arithmetic::div_mod::lemma_add_mod_noop((start + steps - 1) as int, 1, len);
        vstd::arithmetic::div_mod::lemma_mod_twice((start + steps - 1) as int, len);
        if len > 1 {
            vstd::arithmetic::div_mod::lemma_small_mod(1, len as nat);
        }
    } else {
        vstd::arithmetic::div_mod::lemma_small_mod(start as nat, len as nat);
    }
}

/// Going to the next entry as often as there are entries leads back to where
/// one started.
pub proof fn lemma_next_cycles(start: int, len: int)
    requires
        0 < len,
        0 <= start < len,
    ensures
        after_steps(start, len, len as nat) == start,
{
    lemma_steps_add_up(start, len, len as nat);
    vstd::arithmetic::div_mod::lemma_mod_add_multiples_vanish(start, len);
    vstd::arithmetic::div_mod::lemma_small_mod(start as nat, len as nat);
}

} // verus!
