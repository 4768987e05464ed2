use sanguine::app::{cursor_position, App, Config, Dispatch};
use sanguine::error::Error;
use sanguine::event::{Event, KeyCode, KeyEvent, Modifiers, MouseButtons, MouseEvent, UserEvent};
use sanguine::layout::geometry::{Axis, Direction, Rect};
use sanguine::layout::NodeId;
use sanguine::widget::{Widget, WidgetId};

struct Plain;

impl Widget for Plain {}

fn key(c: char, modifiers: Modifiers) -> Event<u8> {
    Event::Key(KeyEvent { key: KeyCode::Char(c), modifiers })
}

fn mouse(x: u16, y: u16, mouse_buttons: MouseButtons) -> MouseEvent {
    MouseEvent { x, y, mouse_buttons, modifiers: Modifiers::none() }
}

/// Two windows side by side on a screen of 80 by 24, and a floating window.
fn app(config: Config) -> (App<Plain>, NodeId, NodeId, NodeId, [WidgetId; 3]) {
    let mut app = App::new(config, Rect::from_size((80, 24)));
    let wa = app.register_widget(Plain);
    let wb = app.register_widget(Plain);
    let wf = app.register_widget(Plain);
    let layout = app.layout_mut();
    let root = layout.root();
    layout.set_direction(root, Axis::Horizontal);
    let a = layout.add_leaf(wa);
    let b = layout.add_leaf(wb);
    layout.add_child(root, a).unwrap();
    layout.add_child(root, b).unwrap();
    let f = layout.add_floating(wf, Rect::new(30, 5, 20, 10));
    assert_eq!(app.begin_render(), vec![a, b, f]);
    (app, a, b, f, [wa, wb, wf])
}

fn delivered<U: std::fmt::Debug>(d: Dispatch<U>) -> (NodeId, WidgetId, Rect, Event<U>) {
    match d {
        Dispatch::Deliver { owner, widget, bounds, event } => (owner, widget, bounds, event),
        Dispatch::Nothing => panic!("nothing was delivered"),
    }
}

#[test]
fn focus_is_for_windows() {
    let (mut app, a, _, f, _) = app(Config::new());
    let root = app.layout().root();
    assert_eq!(app.get_focus(), None);
    assert_eq!(app.set_focus(root), Err(Error::ExpectedLeaf(root)));
    assert_eq!(app.set_focus(a), Ok(()));
    assert_eq!(app.get_focus(), Some(a));
    assert_eq!(app.set_focus(f), Ok(()));
    assert_eq!(app.get_focus(), Some(f));
    app.layout_mut().remove_node(a).unwrap();
    assert_eq!(app.set_focus(a), Err(Error::NodeNotFound(a)));
    assert_eq!(app.get_focus(), Some(f));
}

#[test]
fn cycling_goes_around_the_leaves() {
    let (mut app, a, b, f, _) = app(Config::new());
    assert_eq!(app.cycle_focus(), Err(Error::NoFocus));
    app.set_focus(a).unwrap();
    app.cycle_focus().unwrap();
    assert_eq!(app.get_focus(), Some(b));
    app.cycle_focus().unwrap();
    assert_eq!(app.get_focus(), Some(a));
    // As many steps as there are leaves lead back to the start.
    let n = app.layout().leaves().len();
    for _ in 0..n {
        app.cycle_focus().unwrap();
    }
    assert_eq!(app.get_focus(), Some(a));
    app.set_focus(f).unwrap();
    assert_eq!(app.cycle_focus(), Err(Error::NoFocus));
}

#[test]
fn cycling_without_leaves_fails() {
    let mut app: App<Plain> = App::new(Config::new(), Rect::from_size((80, 24)));
    assert_eq!(app.cycle_focus(), Err(Error::NoFocus));
    let w = app.register_widget(Plain);
    let f = app.layout_mut().add_floating(w, Rect::new(0, 0, 5, 5));
    app.set_focus(f).unwrap();
    assert!(app.layout().leaves().is_empty());
    assert_eq!(app.cycle_focus(), Err(Error::NoFocus));
}

#[test]
fn focus_moves_to_a_neighbour() {
    let (mut app, a, b, _, _) = app(Config::new());
    assert_eq!(app.focus_direction(Direction::Right), Err(Error::NoFocus));
    app.set_focus(a).unwrap();
    assert_eq!(app.focus_direction(Direction::Right), Ok(()));
    assert_eq!(app.get_focus(), Some(b));
    assert_eq!(app.focus_direction(Direction::Right), Ok(()));
    assert_eq!(app.get_focus(), Some(b));
    assert_eq!(app.focus_direction(Direction::Left), Ok(()));
    assert_eq!(app.get_focus(), Some(a));
    assert_eq!(app.focus_direction(Direction::Up), Ok(()));
    assert_eq!(app.get_focus(), Some(a));
}

#[test]
fn control_q_asks_to_end() {
    let (app, ..) = app(Config::new());
    assert!(app.wants_exit(&key('q', Modifiers::ctrl())));
    assert!(!app.wants_exit(&key('q', Modifiers::none())));
    assert!(!app.wants_exit(&key('x', Modifiers::ctrl())));
    assert!(!app.wants_exit(&Event::<u8>::Paste("q".to_string())));
    let (quiet, ..) = self::app(Config::new().ctrl_q_quit(false));
    assert!(!quiet.wants_exit(&key('q', Modifiers::ctrl())));
}

#[test]
fn the_handler_sees_all_but_resize_and_exit() {
    assert!(App::<Plain>::offered_to_handler(&key('a', Modifiers::none())));
    assert!(App::<Plain>::offered_to_handler(&Event::<u8>::Mouse(mouse(0, 0, MouseButtons::none()))));
    assert!(App::<Plain>::offered_to_handler(&Event::<u8>::Paste(String::new())));
    assert!(App::<Plain>::offered_to_handler(&Event::User(UserEvent::User(3u8))));
    assert!(App::<Plain>::offered_to_handler(&Event::<u8>::User(UserEvent::Tick)));
    assert!(!App::<Plain>::offered_to_handler(&Event::<u8>::User(UserEvent::Exit)));
    assert!(!App::<Plain>::offered_to_handler(&Event::<u8>::Resize { rows: 1, cols: 1 }));
}

#[test]
fn keys_go_to_the_focused_window() {
    let (mut app, a, b, _, [_, wb, _]) = app(Config::new());
    // Without a focus the first window takes it, and the key is used up.
    let r = app.process_event(key('x', Modifiers::none()), false).unwrap();
    assert!(matches!(r, Dispatch::Nothing));
    assert_eq!(app.get_focus(), Some(a));
    app.set_focus(b).unwrap();
    let (owner, widget, bounds, event) =
        delivered(app.process_event(key('x', Modifiers::none()), false).unwrap());
    assert_eq!((owner, widget, bounds), (b, wb, Rect::new(40, 0, 40, 24)));
    assert!(matches!(event, Event::Key(KeyEvent { key: KeyCode::Char('x'), .. })));
    // An event that the handler has taken goes to no one.
    let r = app.process_event(key('x', Modifiers::none()), true).unwrap();
    assert!(matches!(r, Dispatch::Nothing));
    let (owner, _, _, event) = delivered(app.process_event(Event::<u8>::Paste("hi".into()), false).unwrap());
    assert_eq!(owner, b);
    assert!(matches!(event, Event::Paste(s) if s == "hi"));
    let (_, _, _, event) = delivered(app.process_event(Event::User(UserEvent::User(7u8)), false).unwrap());
    assert!(matches!(event, Event::User(UserEvent::User(7))));
}

#[test]
fn exit_and_resize_are_for_the_application() {
    let (mut app, a, ..) = app(Config::new());
    app.set_focus(a).unwrap();
    assert!(!app.should_exit());
    let r = app.process_event(Event::<u8>::User(UserEvent::Exit), true).unwrap();
    assert!(matches!(r, Dispatch::Nothing));
    assert!(app.should_exit());

    assert!(!app.layout().is_dirty());
    let r = app.process_event(Event::<u8>::Resize { rows: 30, cols: 100 }, true).unwrap();
    assert!(matches!(r, Dispatch::Nothing));
    assert_eq!(app.size(), Rect::new(0, 0, 100, 30));
    assert!(app.layout().is_dirty());
    app.begin_render();
    assert_eq!(app.layout().layout(a), Some(&Rect::new(0, 0, 50, 30)));
}

#[test]
fn a_click_gives_the_focus() {
    let (mut app, a, b, f, [_, wb, wf]) = app(Config::new());
    // Hovering gives no focus unless the focus follows the pointer.
    let r = app.process_event(Event::<u8>::Mouse(mouse(2, 2, MouseButtons::none())), false).unwrap();
    assert!(matches!(r, Dispatch::Nothing));
    assert_eq!(app.get_focus(), None);
    let r = app.process_event(Event::<u8>::Mouse(mouse(2, 2, MouseButtons::left())), false).unwrap();
    assert!(matches!(r, Dispatch::Nothing));
    assert_eq!(app.get_focus(), Some(a));
    // A click on another window moves the focus and is used up by that.
    let r = app.process_event(Event::<u8>::Mouse(mouse(70, 2, MouseButtons::left())), false).unwrap();
    assert!(matches!(r, Dispatch::Nothing));
    assert_eq!(app.get_focus(), Some(b));
    // A click on the focused window goes to its widget, seen from the window.
    let (owner, widget, bounds, event) =
        delivered(app.process_event(Event::<u8>::Mouse(mouse(70, 2, MouseButtons::left())), false).unwrap());
    assert_eq!((owner, widget, bounds), (b, wb, Rect::new(40, 0, 40, 24)));
    assert!(matches!(event, Event::Mouse(MouseEvent { x: 30, y: 2, .. })));
    // The floating window lies above the leaves.
    let r = app.process_event(Event::<u8>::Mouse(mouse(45, 7, MouseButtons::left())), false).unwrap();
    assert!(matches!(r, Dispatch::Nothing));
    assert_eq!(app.get_focus(), Some(f));
    let (owner, widget, bounds, event) =
        delivered(app.process_event(Event::<u8>::Mouse(mouse(45, 7, MouseButtons::left())), false).unwrap());
    assert_eq!((owner, widget, bounds), (f, wf, Rect::new(30, 5, 20, 10)));
    assert!(matches!(event, Event::Mouse(MouseEvent { x: 15, y: 2, .. })));
    // Hovering over another window changes nothing.
    let r = app.process_event(Event::<u8>::Mouse(mouse(2, 2, MouseButtons::none())), false).unwrap();
    assert!(matches!(r, Dispatch::Nothing));
    assert_eq!(app.get_focus(), Some(f));
    // Nothing lies beyond the screen.
    let r = app.process_event(Event::<u8>::Mouse(mouse(200, 200, MouseButtons::left())), false).unwrap();
    assert!(matches!(r, Dispatch::Nothing));
    // What the handler has taken changes nothing.
    let r = app.process_event(Event::<u8>::Mouse(mouse(2, 2, MouseButtons::left())), true).unwrap();
    assert!(matches!(r, Dispatch::Nothing));
    assert_eq!(app.get_focus(), Some(f));
}

#[test]
fn the_focus_can_follow_the_pointer() {
    let (mut app, a, b, _, [wa, ..]) = app(Config::new().focus_follows_hover(true));
    let r = app.process_event(Event::<u8>::Mouse(mouse(70, 2, MouseButtons::none())), false).unwrap();
    assert!(matches!(r, Dispatch::Nothing));
    assert_eq!(app.get_focus(), Some(b));
    // Over another window the hover goes to that window; the focus stays.
    let (owner, widget, _, _) =
        delivered(app.process_event(Event::<u8>::Mouse(mouse(2, 2, MouseButtons::none())), false).unwrap());
    assert_eq!((owner, widget), (a, wa));
    assert_eq!(app.get_focus(), Some(b));
}

#[test]
fn the_mouse_reaches_the_innermost_widget() {
    let (mut app, a, b, _, [wa, wb, wf]) = app(Config::new());
    app.set_focus(b).unwrap();
    let outer = Rect::new(40, 0, 40, 24);
    // The window reports a widget within a border, which reports one more.
    let level1 = app.record_rendered(b, &outer, &vec![(Rect::new(1, 1, 38, 22), wf)]);
    assert_eq!(level1, vec![(Rect::new(41, 1, 38, 22), wf)]);
    let level2 = app.record_rendered(b, &level1[0].0, &vec![(Rect::new(14, 4, 10, 10), wa)]);
    assert_eq!(level2, vec![(Rect::new(55, 5, 10, 10), wa)]);

    let (owner, widget, bounds, event) =
        delivered(app.process_event(Event::<u8>::Mouse(mouse(60, 10, MouseButtons::left())), false).unwrap());
    assert_eq!((owner, widget, bounds), (b, wa, Rect::new(55, 5, 10, 10)));
    assert!(matches!(event, Event::Mouse(MouseEvent { x: 5, y: 5, .. })));
    let (_, widget, bounds, _) =
        delivered(app.process_event(Event::<u8>::Mouse(mouse(42, 2, MouseButtons::left())), false).unwrap());
    assert_eq!((widget, bounds), (wf, Rect::new(41, 1, 38, 22)));
    // On the border no reported widget lies under the pointer.
    let r = app.process_event(Event::<u8>::Mouse(mouse(40, 0, MouseButtons::left())), false).unwrap();
    assert!(matches!(r, Dispatch::Nothing));
    // The other window reported nothing: its own widget takes the event.
    app.set_focus(a).unwrap();
    let (_, widget, _, _) =
        delivered(app.process_event(Event::<u8>::Mouse(mouse(1, 1, MouseButtons::left())), false).unwrap());
    assert_eq!(widget, wa);
    let _ = wb;
    app.clear_rendered();
    app.set_focus(b).unwrap();
    let (_, widget, _, _) =
        delivered(app.process_event(Event::<u8>::Mouse(mouse(60, 10, MouseButtons::left())), false).unwrap());
    assert_eq!(widget, wb);
}

#[test]
fn the_cursor_is_placed_on_the_screen() {
    let inside = Rect::new(10, 5, 30, 10);
    let nested = vec![(Rect::new(11, 6, 28, 8), WidgetId(NodeId::from_raw(0, 2)))];
    assert_eq!(cursor_position(&inside, &nested, (None, 3, 4)), Some((13, 9)));
    assert_eq!(cursor_position(&inside, &nested, (Some(0), 3, 4)), Some((14, 10)));
    assert_eq!(cursor_position(&inside, &nested, (Some(1), 3, 4)), None);
}

#[test]
fn widgets_of_the_application() {
    let (mut app, _, _, _, [wa, ..]) = app(Config::default());
    assert!(app.get_widget(wa).is_some());
    assert!(app.widgets().get(wa).is_some());
    assert!(app.remove_widget(wa).is_some());
    assert!(app.get_widget(wa).is_none());
    assert!(app.widgets_mut().remove(wa).is_none());
}
