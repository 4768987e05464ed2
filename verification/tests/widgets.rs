use sanguine::error::Error;
use sanguine::event::{Event, KeyCode, KeyEvent, Modifiers, MouseButtons, MouseEvent};
use sanguine::layout::geometry::{Constraint, Rect};
use sanguine::widget::{Widget, WidgetStore};
use sanguine::widgets::textbox::Cursor;
use sanguine::widgets::{Border, Menu, TextBox};

fn key(key: KeyCode) -> Event<()> {
    Event::Key(KeyEvent { key, modifiers: Modifiers::none() })
}

fn mouse(x: u16, y: u16, mouse_buttons: MouseButtons) -> Event<()> {
    Event::Mouse(MouseEvent { x, y, mouse_buttons, modifiers: Modifiers::none() })
}

fn lines(t: &TextBox) -> Vec<&str> {
    t.buffer().iter().map(String::as_str).collect()
}

fn menu() -> Menu<u8> {
    Menu::new("Demo menu".to_string())
        .with_item("Quit".to_string(), "".to_string(), 1)
        .with_item("Delete".to_string(), "".to_string(), 2)
        .with_item("Get line count: ".to_string(), "<unknown>".to_string(), 3)
}

#[test]
fn menu_entries() {
    let mut m = menu();
    assert_eq!(m.title(), "Demo menu");
    assert_eq!(m.len(), 3);
    assert_eq!(m.entry(0), Some("Quit"));
    assert_eq!(m.tag(2), Some("<unknown>"));
    assert_eq!(m.entry(3), None);
    assert_eq!(m.tag(3), None);
    assert_eq!(m.item(1).map(|i| i.2), Some(2));
    assert!(m.item(3).is_none());
    m.add_item("Test".to_string(), "t".to_string(), 4);
    assert_eq!(m.len(), 4);
    m.update_tag(2, |_| "17".to_string());
    assert_eq!(m.tag(2), Some("17"));
    m.update_tag(9, |_| "lost".to_string());
    m.update_entry(0, |e| format!("{e}!"));
    assert_eq!(m.entry(0), Some("Quit!"));
    m.update_menu_title(|t| t.to_uppercase());
    assert_eq!(m.title(), "DEMO MENU");
    m.remove(1);
    assert_eq!(m.entry(1), Some("Get line count: "));
    let m = m.with_items(vec![("A".to_string(), "".to_string(), 5), ("B".to_string(), "".to_string(), 6)]);
    assert_eq!(m.len(), 5);
    assert_eq!(m.entry(4), Some("B"));
    let mut m = m;
    m.clear();
    assert_eq!(m.len(), 0);
    assert_eq!(m.select(), None);
}

#[test]
fn menu_steps_around_its_ends() {
    let mut m = menu();
    assert_eq!(m.active(), 0);
    m.next();
    assert_eq!(m.active(), 1);
    m.next();
    m.next();
    assert_eq!(m.active(), 0);
    m.prev();
    assert_eq!(m.active(), 2);
    m.prev();
    assert_eq!(m.active(), 1);
    let mut empty: Menu<u8> = Menu::new(String::new());
    empty.next();
    assert_eq!(empty.active(), 0);
    empty.prev();
    assert_eq!(empty.active(), 0);
}

#[test]
fn menu_keys_and_mouse() {
    let mut m = menu();
    assert_eq!(m.update(&key(KeyCode::DownArrow)), None);
    assert_eq!(m.active(), 1);
    assert_eq!(m.update(&key(KeyCode::Enter)), Some(1));
    assert_eq!(m.update(&key(KeyCode::UpArrow)), None);
    assert_eq!(m.active(), 0);
    assert_eq!(m.update(&key(KeyCode::Char('x'))), None);
    // The entries start on the third line of the menu.
    assert_eq!(m.update(&mouse(0, 4, MouseButtons::none())), None);
    assert_eq!(m.active(), 2);
    assert_eq!(m.update(&mouse(0, 3, MouseButtons::left())), Some(1));
    assert_eq!(m.active(), 1);
    assert_eq!(m.update(&mouse(0, 1, MouseButtons::left())), None);
    assert_eq!(m.update(&mouse(0, 5, MouseButtons::left())), None);
    assert_eq!(m.active(), 1);
    let right = MouseButtons { right: true, ..MouseButtons::none() };
    assert_eq!(m.update(&mouse(0, 2, right)), None);
    assert_eq!(m.active(), 1);
    assert_eq!(m.update(&Event::<()>::Paste("x".to_string())), None);
}

#[test]
fn textbox_starts_with_one_empty_line() {
    let t = TextBox::new();
    assert_eq!(lines(&t), vec![""]);
    assert_eq!(t.cursor_at(), Cursor { x: 0, y: 0 });
    assert_eq!(t.cursor(), Some((None, 0, 0)));
    assert_eq!(t.constraint(), Constraint::Fill);
    assert_eq!(lines(&TextBox::default()), vec![""]);
}

#[test]
fn textbox_reads_lines() {
    assert_eq!(lines(&TextBox::from_str("one\ntwo\r\nthree")), vec!["one", "two", "three"]);
    assert_eq!(lines(&TextBox::from_str("one\n")), vec!["one"]);
    assert_eq!(lines(&TextBox::from_str("one\n\n")), vec!["one", ""]);
    assert_eq!(lines(&TextBox::from_str("\r\n")), vec![""]);
    assert_eq!(lines(&TextBox::from_str("a\rb\r")), vec!["a\rb\r"]);
    assert_eq!(lines(&TextBox::from_str("")), Vec::<&str>::new());
    assert_eq!(lines(&TextBox::from_str("né\nö")), vec!["né", "ö"]);
}

#[test]
fn textbox_types_and_deletes() {
    let mut t = TextBox::new();
    for c in "helo".chars() {
        t.update(&key(KeyCode::Char(c))).unwrap();
    }
    assert_eq!(lines(&t), vec!["helo"]);
    t.update(&key(KeyCode::LeftArrow)).unwrap();
    t.update(&key(KeyCode::Char('l'))).unwrap();
    assert_eq!(lines(&t), vec!["hello"]);
    assert_eq!(t.cursor_at(), Cursor { x: 4, y: 0 });
    t.update(&key(KeyCode::Backspace)).unwrap();
    assert_eq!(lines(&t), vec!["helo"]);
    assert_eq!(t.cursor_at(), Cursor { x: 3, y: 0 });
    t.update(&key(KeyCode::Tab)).unwrap();
    assert_eq!(lines(&t), vec!["hel  o"]);
    let shifted = Event::<()>::Key(KeyEvent { key: KeyCode::Char('X'), modifiers: Modifiers::shift() });
    t.update(&shifted).unwrap();
    assert_eq!(lines(&t), vec!["hel  Xo"]);
    let ctrl = Event::<()>::Key(KeyEvent { key: KeyCode::Char('q'), modifiers: Modifiers::ctrl() });
    t.update(&ctrl).unwrap();
    assert_eq!(lines(&t), vec!["hel  Xo"]);
}

#[test]
fn textbox_breaks_and_joins_lines() {
    let mut t = TextBox::from_str("hello world");
    t.set_cursor(5, 0);
    t.update(&key(KeyCode::Enter)).unwrap();
    assert_eq!(lines(&t), vec!["hello", " world"]);
    assert_eq!(t.cursor_at(), Cursor { x: 0, y: 1 });
    t.update(&key(KeyCode::Backspace)).unwrap();
    assert_eq!(lines(&t), vec!["hello world"]);
    assert_eq!(t.cursor_at(), Cursor { x: 5, y: 0 });
    t.set_cursor(99, 0);
    t.update(&key(KeyCode::Enter)).unwrap();
    assert_eq!(lines(&t), vec!["hello world", ""]);
    assert_eq!(t.cursor_at(), Cursor { x: 0, y: 1 });
    t.set_cursor(0, 0);
    t.update(&key(KeyCode::Backspace)).unwrap();
    assert_eq!(lines(&t), vec!["hello world", ""]);
}

#[test]
fn textbox_cursor_stays_in_the_text() {
    let mut t = TextBox::from_str("long line\nab\n");
    t.set_cursor(7, 0);
    assert_eq!(t.cursor_at(), Cursor { x: 7, y: 0 });
    t.update(&key(KeyCode::DownArrow)).unwrap();
    assert_eq!(t.cursor_at(), Cursor { x: 2, y: 1 });
    t.update(&key(KeyCode::DownArrow)).unwrap();
    assert_eq!(t.cursor_at(), Cursor { x: 2, y: 1 });
    t.update(&key(KeyCode::RightArrow)).unwrap();
    assert_eq!(t.cursor_at(), Cursor { x: 2, y: 1 });
    t.update(&key(KeyCode::UpArrow)).unwrap();
    t.update(&key(KeyCode::UpArrow)).unwrap();
    assert_eq!(t.cursor_at(), Cursor { x: 2, y: 0 });
    t.update(&mouse(4, 9, MouseButtons::left())).unwrap();
    assert_eq!(t.cursor_at(), Cursor { x: 2, y: 1 });
    t.update(&mouse(0, 0, MouseButtons::none())).unwrap();
    assert_eq!(t.cursor_at(), Cursor { x: 2, y: 1 });
    t.set_cursor_x(1);
    t.set_cursor_y(0);
    assert_eq!(t.cursor_at(), Cursor { x: 1, y: 0 });
    t.validate_cursor();
    assert_eq!(t.cursor_at(), Cursor { x: 1, y: 0 });
}

#[test]
fn textbox_without_lines_takes_no_text() {
    let mut t = TextBox::from_str("");
    assert_eq!(t.update(&key(KeyCode::Char('a'))), Err(Error::TerminalError));
    assert_eq!(t.write_char('a'), Err(Error::TerminalError));
    assert_eq!(t.break_line(), Err(Error::TerminalError));
    assert_eq!(t.delete(), Ok(()));
    assert_eq!(t.update(&key(KeyCode::DownArrow)), Ok(()));
    assert_eq!(t.cursor_at(), Cursor { x: 0, y: 0 });
}

#[test]
fn border_leaves_one_cell_all_around() {
    let mut widgets: WidgetStore<Box<dyn Widget>> = WidgetStore::new();
    let inner = widgets.register(Box::new(TextBox::new()));
    let border = Border::new("Editor".to_string(), inner);
    assert_eq!(border.title, "Editor");
    assert_eq!(border.nested(20, 10), vec![(Rect::new(1, 1, 18, 8), inner)]);
    assert_eq!(border.nested(1, 1), vec![(Rect::new(1, 1, 0, 0), inner)]);
    assert_eq!(Border::inner_bounds(&Rect::new(5, 6, 20, 10)), Rect::new(6, 7, 18, 8));
    assert_eq!(Border::cursor_from(Some((None, 3, 4))), Some((Some(0), 3, 4)));
    assert_eq!(Border::cursor_from(None), None);
    assert_eq!(border.top_line_len(20, false), 13);
    assert_eq!(border.top_line_len(20, true), 12);
    assert_eq!(border.top_line_len(3, true), 0);
    assert_eq!(border.cursor(), None);
    let id = widgets.register(Box::new(border));
    assert_eq!(widgets.get(id).unwrap().constraint(), Constraint::Fill);
    assert!(widgets.remove(id).is_some());
    assert!(widgets.get(id).is_none());
}

#[test]
fn textbox_shows_what_fits() {
    let t = TextBox::from_str("one\nlonger line\nthree\nfour");
    assert_eq!(t.visible(6, 3), vec!["one", "longer", "three"]);
    assert_eq!(t.visible(80, 24), vec!["one", "longer line", "three", "four"]);
    assert_eq!(t.visible(0, 2), vec!["", ""]);
    assert!(t.visible(5, 0).is_empty());
}

#[test]
fn label_lines_are_put_in_place() {
    let label = sanguine::label::Label::new("ab\nabcdefgh");
    assert_eq!(label.layout(6, 5), (0, vec!["ab".to_string(), "abcdef".to_string()]));
    let label = sanguine::align::Align::center(*label);
    assert_eq!(label.layout(6, 5), (1, vec!["  ab".to_string(), "abcdef".to_string()]));
    let label = sanguine::align::Align::bottomright(*label);
    assert_eq!(label.layout(6, 5), (3, vec!["    ab".to_string(), "abcdef".to_string()]));
    assert_eq!(label.layout(6, 1), (0, vec!["    ab".to_string()]));
    assert_eq!(label.size_hint(), Constraint::Fill);
    assert_eq!(sanguine::label::spaces(3), "   ");
}

#[test]
fn built_in_widgets_take_what_is_left() {
    let mut widgets: WidgetStore<Box<dyn Widget>> = WidgetStore::new();
    let inner = widgets.register(Box::new(TextBox::new()));
    let border = Border::new("Editor".to_string(), inner);
    assert_eq!(border.constraint(), Constraint::Fill);
    assert_eq!(border.cursor(), None);
    assert_eq!(menu().constraint(), Constraint::Fill);
    assert_eq!(menu().cursor(), None);
    let mut text = TextBox::new();
    assert_eq!(text.constraint(), Constraint::Fill);
    text.update(&key(KeyCode::Char('a')));
    assert_eq!(text.constraint(), Constraint::Fill);
    assert_eq!(text.cursor(), Some((None, 1, 0)));
}
