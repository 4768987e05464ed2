//! The state of an application and the decisions of its event loop: which
//! window has the focus, and which widget an event is for.

use crate::allocator::{NodeId, MAX_CAPACITY};
use crate::error::Error;
use crate::event::{Event, KeyCode, KeyEvent, MouseEvent, UserEvent};
use crate::layout::adjacency::{neighbours, on_side};
use crate::layout::geometry::{Axis, Direction, Rect};
use crate::layout::node::{is_container, widget_of, NodeView};
use crate::layout::tree::Layout;
use crate::widget::{Widget, WidgetId, WidgetStore};
use vstd::prelude::*;

verus! {

/// Contains configuration options for the Sanguine application.
#[derive(Debug, Clone, Copy, PartialEq, Eq, Structural)]
pub struct Config {
    /// Whether or not to quit on <kbd>ctrl</kbd>+<kbd>q</kbd> `default: true`
    ///
    /// Set to false if you implement your own exit handling.
    pub ctrl_q_quit: bool,
    /// Whether or not to focus a window when the mouse hovers over it `default: false`
    pub focus_follows_hover: bool,
}

impl Config {
    /// Create a new Config struct with the given options
    pub fn new() -> (c: Self)
        ensures
            c == (Config { ctrl_q_quit: true, focus_follows_hover: false }),
    {
        Config { ctrl_q_quit: true, focus_follows_hover: false }
    }

    /// Set whether or not to quit on <kbd>ctrl</kbd>+<kbd>q</kbd>
    pub fn ctrl_q_quit(self, ctrl_q_quit: bool) -> (c: Self)
        ensures
            c == (Config { ctrl_q_quit, ..self }),
    {
        let mut this = self;
        this.ctrl_q_quit = ctrl_q_quit;
        this
    }

    /// Set whether or not to focus a window when the mouse hovers over it
    pub fn focus_follows_hover(self, focus_follows_hover: bool) -> (c: Self)
        ensures
            c == (Config { focus_follows_hover, ..self }),
    {
        let mut this = self;
        this.focus_follows_hover = focus_follows_hover;
        this
    }
}

impl Default for Config {
    fn default() -> (c: Self)
        ensures
            c == (Config { ctrl_q_quit: true, focus_follows_hover: false }),
    {
        Config { ctrl_q_quit: true, focus_follows_hover: false }
    }
}

/// A widget within a window, as the window reported it when it was last
/// drawn: the window, the rectangle of the widget on the screen, the widget.
pub type Nested = (NodeId, Rect, WidgetId);

/// What the event loop is to do with an event.
#[derive(Debug)]
pub enum Dispatch<U> {
    /// Nothing: the event has been dealt with, or there is no one to take it.
    Nothing,
    /// Hand `event` to `widget`, which occupies `bounds` in window `owner`.
    /// The coordinates of a mouse event are relative to `bounds`.
    Deliver { owner: NodeId, widget: WidgetId, bounds: Rect, event: Event<U> },
}

/// The state of an application: its windows, its widgets, the window that has
/// the focus, and what the windows reported when they were last drawn.
pub struct App<W> {
    /// The layout tree
    layout: Layout,
    /// The arena containing all widgets
    widgets: WidgetStore<W>,
    /// The post-render widget rects for mouse events
    rendered: Vec<Nested>,
    /// The size of the terminal
    size: Rect,
    /// The focused node in the tree, if any
    focus: Option<NodeId>,
    /// Whether the application has been asked to end
    exit: bool,
    /// Configuration struct
    config: Config,
}

/// Whether an event is offered to the global handler of the application
/// before it is routed: every event but a change of size and the request to
/// end.
pub open spec fn is_offered<U>(event: &Event<U>) -> bool {
    match *event {
        Event::Resize { .. } => false,
        Event::User(UserEvent::Exit) => false,
        _ => true,
    }
}

/// Whether an event is the key that ends the application: control and `q`.
pub open spec fn is_quit_key<U>(event: &Event<U>) -> bool {
    match *event {
        Event::Key(k) => k.key == KeyCode::Char('q') && k.modifiers.is_ctrl(),
        _ => false,
    }
}

/// Whether `list` holds a widget of window `owner`.
pub open spec fn has_nested(list: Seq<Nested>, owner: NodeId) -> bool {
    exists|i: int| 0 <= i < list.len() && (#[trigger] list[i]).0 == owner
}

/// The widget of window `owner` that was reported last among those whose
/// rectangle holds the point.
pub open spec fn innermost(list: Seq<Nested>, owner: NodeId, x: int, y: int) -> Option<Nested>
    decreases list.len(),
{
    if list.len() == 0 {
        None
    } else if list.last().0 == owner && list.last().1.covers(x, y) {
        Some(list.last())
    } else {
        innermost(list.drop_last(), owner, x, y)
    }
}

/// What a widget at `outer` reported, on the screen: every rectangle moved by
/// the corner of `outer`.
pub open spec fn on_screen(owner: NodeId, outer: Rect, reported: Seq<(Rect, WidgetId)>) -> Seq<
    Nested,
> {
    Seq::new(
        reported.len(),
        |i: int| (owner, reported[i].0.shifted_by(outer.x as int, outer.y as int), reported[i].1),
    )
}

/// The first place at which `x` stands in `order`; the length of `order`
/// where it stands nowhere.
pub open spec fn place_of(order: Seq<NodeId>, x: NodeId) -> int
    decreases order.len(),
{
    if order.len() == 0 || order[0] == x {
        0
    } else {
        1 + place_of(order.skip(1), x)
    }
}

/// What follows `current` in `order`, the first following the last; nothing
/// where `current` does not stand in `order`.
pub open spec fn next_in(order: Seq<NodeId>, current: NodeId) -> Option<NodeId> {
    if place_of(order, current) < order.len() {
        Some(order[(place_of(order, current) + 1) % (order.len() as int)])
    } else {
        None
    }
}

/// The place of `x` lies within `order` exactly where `x` stands in `order`,
/// and it is the first place at which `x` stands.
pub proof fn lemma_place_of(order: Seq<NodeId>, x: NodeId)
    ensures
        0 <= place_of(order, x) <= order.len(),
        place_of(order, x) < order.len() <==> order.contains(x),
        place_of(order, x) < order.len() ==> order[place_of(order, x)] == x,
        forall|j: int| 0 <= j < place_of(order, x) ==> order[j] != x,
    decreases order.len(),
{
    if order.len() == 0 || order[0] == x {
        if order.len() > 0 {
            assert(order.contains(x));
        }
    } else {
        let rest = order.skip(1);
        lemma_place_of(rest, x);
        if rest.contains(x) {
            let k = choose|k: int| 0 <= k < rest.len() && rest[k] == x;
            assert(order[k + 1] == x);
        }
        if order.contains(x) {
            let k = choose|k: int| 0 <= k < order.len() && order[k] == x;
            assert(rest[k - 1] == x);
        }
        assert forall|j: int| 0 <= j < place_of(order, x) implies order[j] != x by {
            if j > 0 {
                assert(order[j] == rest[j - 1]);
            }
        }
    }
}

/// A mouse event as the widget at `bounds` sees it.
pub open spec fn seen_from(m: MouseEvent, bounds: Rect) -> MouseEvent {
    MouseEvent {
        x: if m.x >= bounds.x {
            (m.x - bounds.x) as u16
        } else {
            0
        },
        y: if m.y >= bounds.y {
            (m.y - bounds.y) as u16
        } else {
            0
        },
        mouse_buttons: m.mouse_buttons,
        modifiers: m.modifiers,
    }
}

impl<W> App<W> {
    /// The layout of the application.
    pub closed spec fn layout_view(&self) -> Layout {
        self.layout
    }

    /// The widgets of the application.
    pub closed spec fn widgets_view(&self) -> WidgetStore<W> {
        self.widgets
    }

    /// What the windows reported when they were last drawn.
    pub closed spec fn rendered_view(&self) -> Seq<Nested> {
        self.rendered@
    }

    /// The size of the screen.
    pub closed spec fn size_view(&self) -> Rect {
        self.size
    }

    /// The window that has the focus.
    pub closed spec fn focus_view(&self) -> Option<NodeId> {
        self.focus
    }

    /// Whether the application has been asked to end.
    pub closed spec fn exit_view(&self) -> bool {
        self.exit
    }

    /// The configuration.
    pub closed spec fn config_view(&self) -> Config {
        self.config
    }

    /// The invariant of the application.
    pub open spec fn wf(&self) -> bool {
        &&& self.layout_view().wf()
        &&& self.widgets_view().wf()
    }

    /// Whether two states differ at most in the focus.
    pub open spec fn same_but_focus(&self, other: &Self) -> bool {
        &&& self.layout_view() == other.layout_view()
        &&& self.widgets_view() == other.widgets_view()
        &&& self.rendered_view() == other.rendered_view()
        &&& self.size_view() == other.size_view()
        &&& self.exit_view() == other.exit_view()
        &&& self.config_view() == other.config_view()
    }

    /// An application with an empty layout on a screen of the given size.
    pub fn new(config: Config, size: Rect) -> (app: Self)
        ensures
            app.wf(),
            app.config_view() == config,
            app.size_view() == size,
            app.focus_view() is None,
            !app.exit_view(),
            app.rendered_view() == Seq::<Nested>::empty(),
            app.widgets_view()@ == Map::<WidgetId, W>::empty(),
            app.widgets_view().spare() == MAX_CAPACITY,
            app.layout_view().tree() == Map::<NodeId, NodeView>::empty().insert(
                app.layout_view().root_id(),
                NodeView::Container {
                    direction: Axis::Vertical,
                    size: None,
                    children: Seq::empty(),
                    parent: None,
                },
            ),
            app.layout_view().rects() == Map::<NodeId, Rect>::empty().insert(
                app.layout_view().root_id(),
                Rect { x: 0, y: 0, width: 100, height: 100 },
            ),
            app.layout_view().spare() == MAX_CAPACITY - 1,
            app.layout_view().float_order() == Seq::<NodeId>::empty(),
            app.layout_view().leaf_order() == Seq::<NodeId>::empty(),
            app.layout_view().dirty_flag(),
    {
        let layout = Layout::new();
        proof {
            let t = layout.tree();
            assert(crate::layout::node::children_of(t, layout.root_id()).len() == 0);
        }
        App {
            layout,
            widgets: WidgetStore::new(),
            rendered: Vec::new(),
            size,
            focus: None,
            exit: false,
            config,
        }
    }

    /// The layout of the application.
    pub fn layout(&self) -> (l: &Layout)
        ensures
            *l == self.layout_view(),
    {
        &self.layout
    }

    /// The layout of the application, for changing it.
    pub fn layout_mut(&mut self) -> (l: &mut Layout)
        ensures
            *l == old(self).layout_view(),
            final(self).layout_view() == *final(l),
            final(self).widgets_view() == old(self).widgets_view(),
            final(self).rendered_view() == old(self).rendered_view(),
            final(self).size_view() == old(self).size_view(),
            final(self).focus_view() == old(self).focus_view(),
            final(self).exit_view() == old(self).exit_view(),
            final(self).config_view() == old(self).config_view(),
    {
        &mut self.layout
    }

    /// The layout and the widgets of the application, for changing both.
    pub fn parts_mut(&mut self) -> (parts: (&mut Layout, &mut WidgetStore<W>))
        ensures
            *parts.0 == old(self).layout_view(),
            *parts.1 == old(self).widgets_view(),
            final(self).layout_view() == *final(parts.0),
            final(self).widgets_view() == *final(parts.1),
            final(self).rendered_view() == old(self).rendered_view(),
            final(self).size_view() == old(self).size_view(),
            final(self).focus_view() == old(self).focus_view(),
            final(self).exit_view() == old(self).exit_view(),
            final(self).config_view() == old(self).config_view(),
    {
        (&mut self.layout, &mut self.widgets)
    }

    /// The widgets of the application.
    pub fn widgets(&self) -> (w: &WidgetStore<W>)
        ensures
            *w == self.widgets_view(),
    {
        &self.widgets
    }

    /// The widgets of the application, for changing them.
    pub fn widgets_mut(&mut self) -> (w: &mut WidgetStore<W>)
        ensures
            *w == old(self).widgets_view(),
            final(self).widgets_view() == *final(w),
            final(self).layout_view() == old(self).layout_view(),
            final(self).rendered_view() == old(self).rendered_view(),
            final(self).size_view() == old(self).size_view(),
            final(self).focus_view() == old(self).focus_view(),
            final(self).exit_view() == old(self).exit_view(),
            final(self).config_view() == old(self).config_view(),
    {
        &mut self.widgets
    }

    /// Takes a widget into the store of the application.
    pub fn register_widget(&mut self, widget: W) -> (id: WidgetId)
        requires
            old(self).wf(),
            old(self).widgets_view().spare() > 0,
        ensures
            final(self).wf(),
            !old(self).widgets_view()@.contains_key(id),
            final(self).widgets_view()@ == old(self).widgets_view()@.insert(id, widget),
            final(self).widgets_view().spare() == old(self).widgets_view().spare() - 1,
            final(self).layout_view() == old(self).layout_view(),
            final(self).rendered_view() == old(self).rendered_view(),
            final(self).size_view() == old(self).size_view(),
            final(self).focus_view() == old(self).focus_view(),
            final(self).exit_view() == old(self).exit_view(),
            final(self).config_view() == old(self).config_view(),
    {
        self.widgets.register(widget)
    }

    /// The widget that `id` reaches.
    pub fn get_widget(&self, id: WidgetId) -> (r: Option<&W>)
        requires
            self.wf(),
        ensures
            match r {
                Some(w) => self.widgets_view()@.contains_key(id) && *w == self.widgets_view()@[id],
                None => !self.widgets_view()@.contains_key(id),
            },
    {
        self.widgets.get(id)
    }

    /// Takes the widget that `id` reaches out of the store.
    pub fn remove_widget(&mut self, id: WidgetId) -> (r: Option<W>)
        requires
            old(self).wf(),
        ensures
            final(self).wf(),
            match r {
                Some(w) => {
                    &&& old(self).widgets_view()@.contains_key(id)
                    &&& w == old(self).widgets_view()@[id]
                    &&& final(self).widgets_view()@ == old(self).widgets_view()@.remove(id)
                },
                None => {
                    &&& !old(self).widgets_view()@.contains_key(id)
                    &&& final(self).widgets_view()@ == old(self).widgets_view()@
                },
            },
            final(self).layout_view() == old(self).layout_view(),
            final(self).rendered_view() == old(self).rendered_view(),
            final(self).size_view() == old(self).size_view(),
            final(self).focus_view() == old(self).focus_view(),
            final(self).exit_view() == old(self).exit_view(),
            final(self).config_view() == old(self).config_view(),
    {
        self.widgets.remove(id)
    }

    /// The size of the screen.
    pub fn size(&self) -> (r: Rect)
        ensures
            r == self.size_view(),
    {
        self.size
    }

    /// Whether the application has been asked to end.
    pub fn should_exit(&self) -> (b: bool)
        ensures
            b == self.exit_view(),
    {
        self.exit
    }

    /// Sets the focus to the given node. Only a leaf or a floating window can
    /// have the focus.
    pub fn set_focus(&mut self, node: NodeId) -> (r: Result<(), Error>)
        requires
            old(self).wf(),
        ensures
            final(self).wf(),
            final(self).same_but_focus(old(self)),
            r == if !old(self).layout_view().tree().contains_key(node) {
                Err::<(), Error>(Error::NodeNotFound(node))
            } else if is_container(old(self).layout_view().tree(), node) {
                Err::<(), Error>(Error::ExpectedLeaf(node))
            } else {
                Ok::<(), Error>(())
            },
            final(self).focus_view() == if r is Ok {
                Some(node)
            } else {
                old(self).focus_view()
            },
    {
        if self.layout.is_container(node) {
            return Err(Error::ExpectedLeaf(node));
        }
        if self.layout.node(node).is_none() {
            return Err(Error::NodeNotFound(node));
        }
        self.focus = Some(node);
        Ok(())
    }

    /// Get the id of the currently focused node, if any
    pub fn get_focus(&self) -> (r: Option<NodeId>)
        ensures
            r == self.focus_view(),
    {
        self.focus
    }

    /// The window that the focus goes to when it is cycled: the leaf after the
    /// focused one in the order of the leaves, the first after the last.
    pub open spec fn next_focus(&self) -> Option<NodeId> {
        match self.focus_view() {
            Some(current) => next_in(self.layout_view().leaf_order(), current),
            None => None,
        }
    }

    /// Cycle focus to the next window
    pub fn cycle_focus(&mut self) -> (r: Result<(), Error>)
        requires
            old(self).wf(),
        ensures
            final(self).wf(),
            final(self).same_but_focus(old(self)),
            match old(self).next_focus() {
                Some(next) => r is Ok && final(self).focus_view() == Some(next),
                None => r == Err::<(), Error>(Error::NoFocus) && final(self).focus_view() == old(
                    self,
                ).focus_view(),
            },
    {
        let current = match self.focus {
            Some(c) => c,
            None => {
                return Err(Error::NoFocus);
            },
        };
        let leaves = self.layout.leaves();
        let n: usize = leaves.len();
        let mut i: usize = 0;
        assert(leaves@.skip(0) =~= leaves@);
        while i < n
            invariant
                i <= n,
                n == leaves.len(),
                *self == *old(self),
                self.wf(),
                self.focus == Some(current),
                leaves@ == self.layout_view().leaf_order(),
                place_of(leaves@, current) == i + place_of(leaves@.skip(i as int), current),
            decreases n - i,
        {
            proof {
                assert(leaves@.skip(i as int)[0] == leaves@[i as int]);
                assert(leaves@.skip(i as int).skip(1) =~= leaves@.skip(i + 1));
            }
            if leaves[i] == current {
                let next_at: usize = if i < n - 1 {
                    i + 1
                } else {
                    0
                };
                let next = leaves[next_at];
                proof {
                    if i < n - 1 {
                        vstd::arithmetic::div_mod::lemma_small_mod((i + 1) as nat, n as nat);
                    } else {
                        vstd::arithmetic::div_mod::lemma_mod_self_0(n as int);
                    }
                }
                self.focus = Some(next);
                return Ok(());
            }
            i = i + 1;
        }
        assert(leaves@.skip(n as int).len() == 0);
        Err(Error::NoFocus)
    }

    /// The window that the focus goes to when it moves towards `direction`.
    pub open spec fn focus_towards(&self, direction: Direction) -> Option<NodeId> {
        match self.focus_view() {
            Some(current) => {
                let found = on_side(neighbours(self.layout_view().tree(), current), direction);
                if found.len() > 0 {
                    Some(found[0])
                } else {
                    None
                }
            },
            None => None,
        }
    }

    /// Focus the window in the given direction from the currently focused one.
    /// Without effect where there is none in that direction.
    pub fn focus_direction(&mut self, direction: Direction) -> (r: Result<(), Error>)
        requires
            old(self).wf(),
        ensures
            final(self).wf(),
            final(self).same_but_focus(old(self)),
            r == if old(self).focus_view() is None {
                Err::<(), Error>(Error::NoFocus)
            } else {
                match old(self).focus_towards(direction) {
                    Some(next) => if is_container(old(self).layout_view().tree(), next) {
                        Err::<(), Error>(Error::ExpectedLeaf(next))
                    } else if !old(self).layout_view().tree().contains_key(next) {
                        Err::<(), Error>(Error::NodeNotFound(next))
                    } else {
                        Ok::<(), Error>(())
                    },
                    None => Ok::<(), Error>(()),
                }
            },
            final(self).focus_view() == if r is Ok && old(self).focus_towards(direction) is Some {
                old(self).focus_towards(direction)
            } else {
                old(self).focus_view()
            },
    {
        let current = match self.focus {
            Some(c) => c,
            None => {
                return Err(Error::NoFocus);
            },
        };
        let available = self.layout.adjacent_on_side(current, direction);
        if available.len() == 0 {
            return Ok(());
        }
        let next = available[0];
        self.set_focus(next)
    }
}

impl<W> App<W> {
    /// Whether two states differ at most in the focus and in whether the
    /// application is to end.
    pub open spec fn same_but_focus_and_exit(&self, other: &Self) -> bool {
        &&& self.layout_view() == other.layout_view()
        &&& self.widgets_view() == other.widgets_view()
        &&& self.rendered_view() == other.rendered_view()
        &&& self.size_view() == other.size_view()
        &&& self.config_view() == other.config_view()
    }

    /// Whether an event asks the application to end: it is control and `q`,
    /// and the configuration gives that key this meaning.
    pub fn wants_exit<U>(&self, event: &Event<U>) -> (b: bool)
        ensures
            b == (self.config_view().ctrl_q_quit && is_quit_key(event)),
    {
        if !self.config.ctrl_q_quit {
            return false;
        }
        match event {
            Event::Key(KeyEvent { key: KeyCode::Char(c), modifiers }) => {
                *c == 'q' && modifiers.ctrl && !modifiers.shift && !modifiers.alt && !modifiers.sup
            },
            _ => false,
        }
    }

    /// Whether an event goes to the global handler of the application before
    /// it is routed.
    pub fn offered_to_handler<U>(event: &Event<U>) -> (b: bool)
        ensures
            b == is_offered(event),
    {
        match event {
            Event::Resize { .. } => false,
            Event::User(UserEvent::Exit) => false,
            _ => true,
        }
    }

    /// The focus after a mouse event. A click, or a hover where the focus
    /// follows it, gives the focus to the window under the pointer while
    /// nothing has it; a click on another window than the focused one moves
    /// the focus there.
    pub open spec fn focus_after_mouse(&self, m: MouseEvent, handled: bool) -> Option<NodeId> {
        let hit = self.layout_view().window_at(m.x as int, m.y as int);
        if handled || hit is None {
            self.focus_view()
        } else {
            match self.focus_view() {
                Some(f) => if f != hit->0 && !m.mouse_buttons.is_none() {
                    hit
                } else {
                    self.focus_view()
                },
                None => if m.mouse_buttons.is_left() || self.config_view().focus_follows_hover {
                    hit
                } else {
                    None
                },
            }
        }
    }

    /// The window whose widgets a mouse event is for: the focused window while
    /// the pointer is over it, and another window while the pointer hovers
    /// over it without a button and the focus follows the pointer.
    pub open spec fn mouse_target(&self, m: MouseEvent, handled: bool) -> Option<NodeId> {
        let hit = self.layout_view().window_at(m.x as int, m.y as int);
        if handled || hit is None || self.focus_view() is None {
            None
        } else if self.focus_view() == hit {
            hit
        } else if m.mouse_buttons.is_none() && self.config_view().focus_follows_hover {
            hit
        } else {
            None
        }
    }

    /// What is to be done with a mouse event. Within its window the event goes
    /// to the innermost widget under the pointer that the window reported
    /// when it was last drawn; where the window reported widgets and none is
    /// under the pointer the event goes to no one; where it reported none the
    /// event goes to the widget of the window itself.
    pub open spec fn mouse_dispatch<U>(&self, m: MouseEvent, handled: bool) -> Dispatch<U> {
        match self.mouse_target(m, handled) {
            None => Dispatch::Nothing,
            Some(target) => {
                let inner = innermost(self.rendered_view(), target, m.x as int, m.y as int);
                let tree = self.layout_view().tree();
                let rects = self.layout_view().rects();
                if inner is Some {
                    let entry = inner.unwrap();
                    Dispatch::Deliver {
                        owner: target,
                        widget: entry.2,
                        bounds: entry.1,
                        event: Event::Mouse(seen_from(m, entry.1)),
                    }
                } else if has_nested(self.rendered_view(), target) {
                    Dispatch::Nothing
                } else if widget_of(tree, target) is Some && rects.contains_key(target) {
                    Dispatch::Deliver {
                        owner: target,
                        widget: widget_of(tree, target)->0,
                        bounds: rects[target],
                        event: Event::Mouse(seen_from(m, rects[target])),
                    }
                } else {
                    Dispatch::Nothing
                }
            },
        }
    }

    /// What is to be done with an event that is not from the mouse: it goes to
    /// the widget of the focused window.
    pub open spec fn key_dispatch<U>(&self, event: Event<U>, handled: bool) -> Dispatch<U> {
        let tree = self.layout_view().tree();
        let rects = self.layout_view().rects();
        if handled || self.focus_view() is None {
            Dispatch::Nothing
        } else if widget_of(tree, self.focus_view()->0) is Some && rects.contains_key(
            self.focus_view()->0,
        ) {
            Dispatch::Deliver {
                owner: self.focus_view()->0,
                widget: widget_of(tree, self.focus_view()->0)->0,
                bounds: rects[self.focus_view()->0],
                event,
            }
        } else {
            Dispatch::Nothing
        }
    }

    /// The widget of `owner` that was reported last among those under the
    /// pointer, and whether `owner` reported any widget.
    fn find_nested(&self, owner: NodeId, x: u16, y: u16) -> (r: (Option<Nested>, bool))
        ensures
            r.0 == innermost(self.rendered_view(), owner, x as int, y as int),
            r.1 == has_nested(self.rendered_view(), owner),
    {
        let mut found: Option<Nested> = None;
        let mut any = false;
        let n: usize = self.rendered.len();
        let mut i: usize = 0;
        let ghost list = self.rendered@;
        assert(list.take(0) =~= Seq::<Nested>::empty());
        while i < n
            invariant
                i <= n,
                n == self.rendered.len(),
                list == self.rendered@,
                found == innermost(list.take(i as int), owner, x as int, y as int),
                any == has_nested(list.take(i as int), owner),
            decreases n - i,
        {
            let entry = self.rendered[i];
            proof {
                let now = list.take(i + 1);
                let was = list.take(i as int);
                assert(now.drop_last() =~= was);
                assert(now.last() == entry);
                if has_nested(was, owner) {
                    let k = choose|k: int| 0 <= k < was.len() && (#[trigger] was[k]).0 == owner;
                    assert(now[k].0 == owner);
                }
                if has_nested(now, owner) && entry.0 != owner {
                    let k = choose|k: int| 0 <= k < now.len() && (#[trigger] now[k]).0 == owner;
                    assert(was[k].0 == owner);
                }
                if entry.0 == owner {
                    assert(now[i as int].0 == owner);
                }
            }
            if entry.0 == owner {
                any = true;
                if entry.1.contains(x as usize, y as usize) {
                    found = Some(entry);
                }
            }
            i = i + 1;
        }
        assert(list.take(n as int) =~= list);
        (found, any)
    }

    /// A mouse event as the widget at `bounds` sees it.
    fn localize(m: &MouseEvent, bounds: &Rect) -> (r: MouseEvent)
        ensures
            r == seen_from(*m, *bounds),
    {
        let x: u16 = if m.x as usize >= bounds.x {
            (m.x as usize - bounds.x) as u16
        } else {
            0
        };
        let y: u16 = if m.y as usize >= bounds.y {
            (m.y as usize - bounds.y) as u16
        } else {
            0
        };
        MouseEvent { x, y, mouse_buttons: m.mouse_buttons, modifiers: m.modifiers }
    }

    /// Routes an event: updates the focus, the size of the screen and the
    /// request to end as the event asks, and says which widget the event is
    /// to be handed to, if any. `handled` tells whether the global handler
    /// of the application has taken the event for itself; it counts only for
    /// the events that are offered to the handler.
    pub fn process_event<U>(&mut self, event: Event<U>, handled: bool) -> (r: Result<
        Dispatch<U>,
        Error,
    >)
        requires
            old(self).wf(),
        ensures
            final(self).wf(),
            final(self).widgets_view() == old(self).widgets_view(),
            final(self).rendered_view() == old(self).rendered_view(),
            final(self).config_view() == old(self).config_view(),
            match event {
                Event::Resize { rows, cols } => {
                    &&& r == Ok::<Dispatch<U>, Error>(Dispatch::Nothing)
                    &&& final(self).size_view() == (Rect { x: 0, y: 0, width: cols, height: rows })
                    &&& final(self).layout_view().dirty_flag()
                    &&& final(self).layout_view().same_but_dirty(&old(self).layout_view())
                    &&& final(self).focus_view() == old(self).focus_view()
                    &&& final(self).exit_view() == old(self).exit_view()
                },
                Event::Mouse(m) => {
                    &&& r == Ok::<Dispatch<U>, Error>(old(self).mouse_dispatch(m, handled))
                    &&& final(self).focus_view() == old(self).focus_after_mouse(m, handled)
                    &&& final(self).same_but_focus(old(self))
                },
                Event::User(UserEvent::Exit) => {
                    &&& r == Ok::<Dispatch<U>, Error>(Dispatch::Nothing)
                    &&& final(self).exit_view()
                    &&& final(self).focus_view() == old(self).focus_view()
                    &&& final(self).same_but_focus_and_exit(old(self))
                },
                _ => {
                    &&& final(self).same_but_focus(old(self))
                    &&& if !handled && old(self).focus_view() is None && old(
                        self,
                    ).layout_view().leaf_order().len() > 0 {
                        let first = old(self).layout_view().leaf_order()[0];
                        if !old(self).layout_view().tree().contains_key(first) {
                            &&& r == Err::<Dispatch<U>, Error>(Error::NodeNotFound(first))
                            &&& final(self).focus_view() is None
                        } else if is_container(old(self).layout_view().tree(), first) {
                            &&& r == Err::<Dispatch<U>, Error>(Error::ExpectedLeaf(first))
                            &&& final(self).focus_view() is None
                        } else {
                            &&& r == Ok::<Dispatch<U>, Error>(Dispatch::Nothing)
                            &&& final(self).focus_view() == Some(first)
                        }
                    } else {
                        &&& r == Ok::<Dispatch<U>, Error>(old(self).key_dispatch(event, handled))
                        &&& final(self).focus_view() == old(self).focus_view()
                    }
                },
            },
    {
        match event {
            Event::Resize { rows, cols } => {
                self.size = Rect::from_size((cols, rows));
                self.layout.mark_dirty();
                Ok(Dispatch::Nothing)
            },
            Event::Mouse(m) => {
                if handled {
                    return Ok(Dispatch::Nothing);
                }
                let node = match self.layout.node_at_pos((m.x, m.y)) {
                    Some(n) => n,
                    None => {
                        return Ok(Dispatch::Nothing);
                    },
                };
                let idle = !m.mouse_buttons.left && !m.mouse_buttons.right
                    && !m.mouse_buttons.middle && !m.mouse_buttons.wheel
                    && !m.mouse_buttons.wheel_up;
                let left = m.mouse_buttons.left && !m.mouse_buttons.right
                    && !m.mouse_buttons.middle && !m.mouse_buttons.wheel
                    && !m.mouse_buttons.wheel_up;
                let focus = match self.focus {
                    Some(f) => f,
                    None => {
                        // If there's no focus, focus the node under the mouse
                        if left || self.config.focus_follows_hover {
                            self.focus = Some(node);
                        }
                        return Ok(Dispatch::Nothing);
                    },
                };
                if focus != node {
                    if !idle {
                        // A click on another window moves the focus there and
                        // is used up by that.
                        self.focus = Some(node);
                        return Ok(Dispatch::Nothing);
                    }
                    if !self.config.focus_follows_hover {
                        return Ok(Dispatch::Nothing);
                    }
                }
                // check if there are inner widgets that the event should be sent to
                let (inner, any) = self.find_nested(node, m.x, m.y);
                match inner {
                    Some((_, bounds, widget)) => Ok(
                        Dispatch::Deliver {
                            owner: node,
                            widget,
                            bounds,
                            event: Event::Mouse(Self::localize(&m, &bounds)),
                        },
                    ),
                    None => {
                        if any {
                            return Ok(Dispatch::Nothing);
                        }
                        let widget = match self.layout.widget(node) {
                            Some(w) => w,
                            None => {
                                return Ok(Dispatch::Nothing);
                            },
                        };
                        let bounds = match self.layout.layout(node) {
                            Some(b) => *b,
                            None => {
                                return Ok(Dispatch::Nothing);
                            },
                        };
                        Ok(
                            Dispatch::Deliver {
                                owner: node,
                                widget,
                                bounds,
                                event: Event::Mouse(Self::localize(&m, &bounds)),
                            },
                        )
                    },
                }
            },
            Event::User(UserEvent::Exit) => {
                self.exit = true;
                Ok(Dispatch::Nothing)
            },
            // Anything that doesn't need special handling (keys, paste, user events)
            _ => {
                if handled {
                    return Ok(Dispatch::Nothing);
                }
                let focus = match self.focus {
                    Some(f) => f,
                    None => {
                        // If there's no focus, the first window takes it.
                        let leaves = self.layout.leaves();
                        if leaves.len() == 0 {
                            return Ok(Dispatch::Nothing);
                        }
                        match self.set_focus(leaves[0]) {
                            Ok(()) => {
                                return Ok(Dispatch::Nothing);
                            },
                            Err(e) => {
                                return Err(e);
                            },
                        }
                    },
                };
                let widget = match self.layout.widget(focus) {
                    Some(w) => w,
                    None => {
                        return Ok(Dispatch::Nothing);
                    },
                };
                let bounds = match self.layout.layout(focus) {
                    Some(b) => *b,
                    None => {
                        return Ok(Dispatch::Nothing);
                    },
                };
                Ok(Dispatch::Deliver { owner: focus, widget, bounds, event })
            },
        }
    }

    /// Forgets what the windows reported when they were last drawn.
    pub fn clear_rendered(&mut self)
        ensures
            final(self).rendered_view() == Seq::<Nested>::empty(),
            final(self).layout_view() == old(self).layout_view(),
            final(self).widgets_view() == old(self).widgets_view(),
            final(self).size_view() == old(self).size_view(),
            final(self).focus_view() == old(self).focus_view(),
            final(self).exit_view() == old(self).exit_view(),
            final(self).config_view() == old(self).config_view(),
    {
        self.rendered.clear();
    }

    /// Notes what the widget at `outer` in window `owner` reported when it was
    /// drawn: widgets of its own, each in a rectangle relative to `outer`.
    /// Returns them with their rectangles on the screen, for drawing.
    pub fn record_rendered(&mut self, owner: NodeId, outer: &Rect, reported: &Vec<(Rect, WidgetId)>) -> (out:
        Vec<(Rect, WidgetId)>)
        ensures
            final(self).rendered_view() == old(self).rendered_view() + on_screen(
                owner,
                *outer,
                reported@,
            ),
            out.len() == reported.len(),
            forall|i: int|
                0 <= i < out.len() ==> out[i] == (
                    reported[i].0.shifted_by(outer.x as int, outer.y as int),
                    reported[i].1,
                ),
            final(self).layout_view() == old(self).layout_view(),
            final(self).widgets_view() == old(self).widgets_view(),
            final(self).size_view() == old(self).size_view(),
            final(self).focus_view() == old(self).focus_view(),
            final(self).exit_view() == old(self).exit_view(),
            final(self).config_view() == old(self).config_view(),
    {
        let ghost start = self.rendered@;
        let mut out: Vec<(Rect, WidgetId)> = Vec::new();
        let n: usize = reported.len();
        let mut i: usize = 0;
        assert(start + on_screen(owner, *outer, reported@.take(0)) =~= start);
        while i < n
            invariant
                i <= n,
                n == reported.len(),
                out.len() == i,
                self.rendered@ == start + on_screen(owner, *outer, reported@.take(i as int)),
                forall|k: int|
                    0 <= k < i ==> out[k] == (
                        reported[k].0.shifted_by(outer.x as int, outer.y as int),
                        reported[k].1,
                    ),
                self.layout == old(self).layout,
                self.widgets == old(self).widgets,
                self.size == old(self).size,
                self.focus == old(self).focus,
                self.exit == old(self).exit,
                self.config == old(self).config,
            decreases n - i,
        {
            let (rect, widget) = reported[i];
            let placed = rect.shift(outer.x, outer.y);
            self.rendered.push((owner, placed, widget));
            out.push((placed, widget));
            proof {
                assert(start + on_screen(owner, *outer, reported@.take(i + 1)) =~= (start
                    + on_screen(owner, *outer, reported@.take(i as int))).push(
                    (owner, placed, widget),
                ));
            }
            i = i + 1;
        }
        assert(reported@.take(n as int) =~= reported@);
        out
    }
}

impl<W: Widget> App<W> {
    /// Starts a pass of drawing: forgets what the windows reported last time,
    /// computes the layout for the size of the screen, and returns the
    /// windows to draw, the leaves first and then the floating windows.
    pub fn begin_render(&mut self) -> (out: Vec<NodeId>)
        requires
            old(self).wf(),
        ensures
            final(self).wf(),
            final(self).rendered_view() == Seq::<Nested>::empty(),
            final(self).widgets_view() == old(self).widgets_view(),
            final(self).size_view() == old(self).size_view(),
            final(self).focus_view() == old(self).focus_view(),
            final(self).exit_view() == old(self).exit_view(),
            final(self).config_view() == old(self).config_view(),
            final(self).layout_view().tree() == old(self).layout_view().tree(),
            !final(self).layout_view().dirty_flag(),
            if old(self).layout_view().dirty_flag() {
                final(self).layout_view().laid_out(
                    &old(self).layout_view(),
                    old(self).size_view(),
                    old(self).widgets_view()@,
                )
            } else {
                final(self).layout_view().rects() == old(self).layout_view().rects()
            },
            out@ == old(self).layout_view().leaf_order() + old(self).layout_view().float_order(),
    {
        self.rendered.clear();
        let mut out = self.layout.leaves();
        let mut floats = self.layout.floats();
        out.append(&mut floats);
        let size = self.size;
        self.layout.compute(&size, &self.widgets);
        out
    }
}

/// Where the cursor of the terminal goes for what the focused widget says of
/// its cursor. The widget names the column and the line of the cursor within
/// itself, or within one of the widgets it reported when it was last drawn;
/// `inside` is the rectangle of the widget itself, `nested` are the
/// rectangles of the reported widgets on the screen.
pub open spec fn cursor_on_screen(
    inside: Rect,
    nested: Seq<(Rect, WidgetId)>,
    cursor: (Option<usize>, usize, usize),
) -> Option<(usize, usize)> {
    match cursor.0 {
        Some(child) => if child < nested.len() {
            Some(
                (
                    crate::layout::geometry::saturate(nested[child as int].0.x + cursor.1),
                    crate::layout::geometry::saturate(nested[child as int].0.y + cursor.2),
                ),
            )
        } else {
            None
        },
        None => Some(
            (
                crate::layout::geometry::saturate(inside.x + cursor.1),
                crate::layout::geometry::saturate(inside.y + cursor.2),
            ),
        ),
    }
}

/// Where the cursor of the terminal goes for what the focused widget says of
/// its cursor.
pub fn cursor_position(
    inside: &Rect,
    nested: &Vec<(Rect, WidgetId)>,
    cursor: (Option<usize>, usize, usize),
) -> (r: Option<(usize, usize)>)
    ensures
        r == cursor_on_screen(*inside, nested@, cursor),
{
    match cursor.0 {
        Some(child) => {
            if child < nested.len() {
                let rect = nested[child].0;
                Some((rect.x.saturating_add(cursor.1), rect.y.saturating_add(cursor.2)))
            } else {
                None
            }
        },
        None => Some((inside.x.saturating_add(cursor.1), inside.y.saturating_add(cursor.2))),
    }
}

/// Where the focus is after it has been cycled `n` times from `start`.
pub open spec fn after_cycles(order: Seq<NodeId>, start: NodeId, n: nat) -> Option<NodeId>
    decreases n,
{
    if n == 0 {
        Some(start)
    } else {
        match after_cycles(order, start, (n - 1) as nat) {
            Some(c) => next_in(order, c),
            None => None,
        }
    }
}

/// In an order without repetitions everything stands at its own place.
pub proof fn lemma_place_of_distinct(order: Seq<NodeId>, i: int)
    requires
        order.no_duplicates(),
        0 <= i < order.len(),
    ensures
        place_of(order, order[i]) == i,
{
    lemma_place_of(order, order[i]);
    let p = place_of(order, order[i]);
    assert(order.contains(order[i]));
    if p != i {
        assert(order[p] == order[i]);
    }
}

/// Cycling moves the focus along the order, around its end.
pub proof fn lemma_cycles_add_up(order: Seq<NodeId>, i: int, n: nat)
    requires
        order.no_duplicates(),
        0 <= i < order.len(),
    ensures
        after_cycles(order, order[i], n) == Some(order[(i + n) % (order.len() as int)]),
    decreases n,
{
    let len = order.len() as int;
    if n == 0 {
        vstd::arithmetic::div_mod::lemma_small_mod(i as nat, len as nat);
    } else {
        lemma_cycles_add_up(order, i, (n - 1) as nat);
        let at = (i + n - 1) % len;
        vstd::arithmetic::div_mod::lemma_mod_bound(i + n - 1, len);
        lemma_place_of_distinct(order, at);
        vstd::arithmetic::div_mod::lemma_add_mod_noop(i + n - 1, 1, len);
        vstd::arithmetic::div_mod::lemma_mod_twice(i + n - 1, len);
        if len > 1 {
            vstd::arithmetic::div_mod::lemma_small_mod(1, len as nat);
        }
    }
}

/// Cycling the focus as often as there are windows in the order brings it
/// back to the window it started from.
pub proof fn lemma_cycle_returns(order: Seq<NodeId>, start: NodeId)
    requires
        order.no_duplicates(),
        order.contains(start),
    ensures
        after_cycles(order, start, order.len()) == Some(start),
{
    let i = choose|i: int| 0 <= i < order.len() && order[i] == start;
    lemma_cycles_add_up(order, i, order.len());
    vstd::arithmetic::div_mod::lemma_mod_add_multiples_vanish(i, order.len() as int);
    vstd::arithmetic::div_mod::lemma_small_mod(i as nat, order.len());
}

/// Without leaves the focus cannot be cycled.
pub proof fn lemma_no_leaves_no_cycle(current: NodeId)
    ensures
        next_in(Seq::<NodeId>::empty(), current) is None,
{
}

impl<W> App<W> {
    /// Cycling the focus once for every leaf of the layout brings it back to
    /// the leaf that had it.
    pub proof fn lemma_focus_cycle_returns(&self)
        requires
            self.wf(),
            self.focus_view() is Some,
            self.layout_view().leaf_order().contains(self.focus_view()->0),
        ensures
            after_cycles(
                self.layout_view().leaf_order(),
                self.focus_view()->0,
                self.layout_view().leaf_order().len(),
            ) == self.focus_view(),
    {
        self.layout_view().lemma_leaf_order();
        lemma_cycle_returns(self.layout_view().leaf_order(), self.focus_view()->0);
    }
}

} // verus!
