use sanguine::border::{BorderChars, BorderVariant};
use sanguine::error::Error;
use sanguine::event::KeyCode;
use sanguine::frame::{split_place, LayoutAxis, SplitDirection, Text};
use sanguine::stack::Stack;

#[test]
fn split_directions() {
    assert_eq!(SplitDirection::Left.axis(), LayoutAxis::Row);
    assert_eq!(SplitDirection::Right.axis(), LayoutAxis::Row);
    assert_eq!(SplitDirection::Above.axis(), LayoutAxis::Col);
    assert_eq!(SplitDirection::Below.axis(), LayoutAxis::Col);
    assert!(SplitDirection::Left.is_before());
    assert!(SplitDirection::Above.is_before());
    assert!(!SplitDirection::Right.is_before());
    assert!(!SplitDirection::Below.is_before());
    assert_eq!(LayoutAxis::Row.name(), "row");
    assert_eq!(LayoutAxis::Col.name(), "col");
}

#[test]
fn the_new_window_goes_beside_the_old_one() {
    assert_eq!(split_place(&SplitDirection::Left, 1, 3), 1);
    assert_eq!(split_place(&SplitDirection::Above, 0, 1), 0);
    assert_eq!(split_place(&SplitDirection::Right, 1, 3), 2);
    assert_eq!(split_place(&SplitDirection::Below, 2, 3), 3);
}

#[test]
fn sample_text() {
    let t = Text::test();
    assert_eq!(t.cursor, 0);
    assert_eq!(t.text.lines().count(), 5);
    assert_eq!(t.text.lines().nth(1), Some("Hello, world1!"));
}

#[test]
fn border_characters() {
    let single: BorderChars = BorderVariant::Single.into();
    assert_eq!(single.top_left, '┌');
    assert_eq!(single.vertical, '│');
    let double = BorderChars::from(BorderVariant::Double);
    assert_eq!(double.bottom_right, '╝');
    assert_eq!(double.horizontal, '═');
    let rounded = BorderChars::from(BorderVariant::Rounded);
    assert_eq!(rounded.top_right, '╮');
    let blank = BorderChars::from(BorderVariant::Blank);
    assert_eq!(blank.horizontal, ' ');
    let custom = BorderChars::from(BorderVariant::Custom(single));
    assert_eq!(custom, single);
}

#[test]
fn external_errors_carry_their_message() {
    assert_eq!(Error::external("boom".to_string()), Error::External("boom".to_string()));
}

#[test]
fn layers_are_drawn_from_the_lowest_up() {
    let mut stack: Stack<&str> = Stack::new();
    assert!(stack.order().is_empty());
    stack.add_widget(7, "top");
    stack.add_widget(0, "ground");
    stack.add_or_extend_layer(3, vec!["a", "b"]);
    stack.add_widget(3, "c");
    stack.add_or_extend_layer(7, vec!["roof"]);
    let mut stack = *stack.with_layer(1, "low");
    assert_eq!(stack.order(), vec![0, 1, 3, 7]);
    for z in [40, 12, 99, 5, 64, 23, 8, 77] {
        stack.add_widget(z, "more");
    }
    assert_eq!(stack.order(), vec![0, 1, 3, 5, 7, 8, 12, 23, 40, 64, 77, 99]);
    assert_eq!(stack.layer(3), Some(&vec!["a", "b", "c"]));
    assert_eq!(stack.layer(7), Some(&vec!["top", "roof"]));
    assert_eq!(stack.layer(2), None);
}

#[test]
fn a_text_takes_keys() {
    let mut t = Text { text: "ab".to_string(), cursor: 1 };
    t.handle_input(KeyCode::Char('x'));
    assert_eq!((t.text.as_str(), t.cursor), ("axb", 2));
    t.handle_input(KeyCode::Enter);
    assert_eq!((t.text.as_str(), t.cursor), ("ax\nb", 3));
    t.handle_input(KeyCode::Backspace);
    t.handle_input(KeyCode::Backspace);
    assert_eq!((t.text.as_str(), t.cursor), ("ab", 1));
    t.handle_input(KeyCode::Delete);
    assert_eq!((t.text.as_str(), t.cursor), ("a", 1));
    t.handle_input(KeyCode::Delete);
    t.handle_input(KeyCode::RightArrow);
    assert_eq!((t.text.as_str(), t.cursor), ("a", 1));
    t.handle_input(KeyCode::LeftArrow);
    t.handle_input(KeyCode::LeftArrow);
    t.handle_input(KeyCode::Backspace);
    assert_eq!((t.text.as_str(), t.cursor), ("a", 0));
    t.handle_input(KeyCode::Tab);
    assert_eq!((t.text.as_str(), t.cursor), ("a", 0));
    t.cursor = 9;
    t.handle_input(KeyCode::Char('é'));
    assert_eq!((t.text.as_str(), t.cursor), ("aé", 2));
}
