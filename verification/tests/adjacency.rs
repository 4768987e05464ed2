use sanguine::layout::geometry::{Axis, Constraint, Direction, Rect};
use sanguine::layout::Layout;
use sanguine::widget::{Widget, WidgetStore};
use sanguine::widgets::{Border, TextBox};

#[test]
fn adjacent() {
    // Create the layout struct
    let mut widgets: WidgetStore<Box<dyn Widget>> = WidgetStore::new();
    let mut layout = Layout::new();

    // Create a TextBox widget, wrapped by a Border widget
    let textbox = widgets.register(Box::new(TextBox::new()));
    let editor_1 = widgets.register(Box::new(Border::new("textbox 1".to_owned(), textbox)));

    // Add the first editor to the layout
    let left = layout.add_leaf(editor_1);

    // Add the menu widget
    let top_right = layout.clone_leaf(left).unwrap();

    // Clone the first editor to add it to the layout again
    // This widget will be *shared* between the two windows, meaning that changes to the underlying
    // buffer will be shown in both windows and focusing on either window will allow you to edit
    // the same buffer.
    let bot_right = layout.clone_leaf(left).unwrap();

    // Create a container to hold the two right hand side editors
    let right = layout
        .add_with_children(
            // The container will be a vertical layout
            Axis::Vertical,
            // The container will take up all available space
            Some(Constraint::fill()),
            // The container will contain the cloned first editor, and the second editor
            vec![top_right, bot_right],
        )
        .unwrap();

    // Get the root node of the layout
    let root = layout.root();
    // Ensure that the root container is laid out horizontally
    layout.set_direction(root, Axis::Horizontal);

    // Add the left window (leaf) and the right container to the root
    layout.add_child(root, left).unwrap();
    layout.add_child(root, right).unwrap();

    let _adjacent = layout.adjacent(left);
    assert_eq!(
        _adjacent,
        vec![(top_right, Direction::Right), (bot_right, Direction::Right)]
    );
}

struct Plain;

impl Widget for Plain {}

/// root (horizontal): [a, mid (vertical): [b, c], d]
fn row() -> (Layout, WidgetStore<Plain>, [sanguine::layout::NodeId; 5]) {
    let mut widgets = WidgetStore::new();
    let mut layout = Layout::new();
    let root = layout.root();
    layout.set_direction(root, Axis::Horizontal);
    let a = layout.add_leaf(widgets.register(Plain));
    let b = layout.add_leaf(widgets.register(Plain));
    let c = layout.add_leaf(widgets.register(Plain));
    let d = layout.add_leaf(widgets.register(Plain));
    let mid = layout.add_with_children(Axis::Vertical, None, vec![b, c]).unwrap();
    layout.add_child(root, a).unwrap();
    layout.add_child(root, mid).unwrap();
    layout.add_child(root, d).unwrap();
    (layout, widgets, [a, b, c, d, mid])
}

#[test]
fn siblings_are_neighbours() {
    let (layout, _, [a, b, c, d, mid]) = row();
    // The children of a sibling container stand for the container.
    assert_eq!(layout.adjacent(a), vec![(b, Direction::Right), (c, Direction::Right)]);
    assert_eq!(layout.adjacent(d), vec![(b, Direction::Left), (c, Direction::Left)]);
    assert_eq!(layout.adjacent(mid), vec![(a, Direction::Left), (d, Direction::Right)]);
}

#[test]
fn the_branches_of_the_grandparent_are_neighbours() {
    let (layout, _, [a, b, c, d, _]) = row();
    assert_eq!(
        layout.adjacent(b),
        vec![(c, Direction::Down), (a, Direction::Left), (d, Direction::Left)]
    );
    assert_eq!(
        layout.adjacent(c),
        vec![(b, Direction::Up), (a, Direction::Left), (d, Direction::Left)]
    );
    assert_eq!(layout.adjacent_on_side(c, Direction::Left), vec![a, d]);
    assert_eq!(layout.adjacent_on_side(c, Direction::Up), vec![b]);
    assert!(layout.adjacent_on_side(c, Direction::Right).is_empty());
}

#[test]
fn floats_and_free_nodes_have_no_neighbours() {
    let (mut layout, mut widgets, _) = row();
    let float = layout.add_floating(widgets.register(Plain), Rect::new(0, 0, 5, 5));
    let lone = layout.add_leaf(widgets.register(Plain));
    let root = layout.root();
    assert!(layout.adjacent(float).is_empty());
    assert!(layout.adjacent(lone).is_empty());
    assert!(layout.adjacent(root).is_empty());
    assert!(layout.side_intersections(float, Direction::Left).is_empty());
}

#[test]
fn crossings_on_a_side() {
    let (mut layout, widgets, [a, b, c, _, _]) = row();
    layout.compute(&Rect::new(0, 0, 90, 20), &widgets);
    assert_eq!(layout.layout(a), Some(&Rect::new(0, 0, 30, 20)));
    assert_eq!(layout.layout(b), Some(&Rect::new(30, 0, 30, 10)));
    assert_eq!(layout.layout(c), Some(&Rect::new(30, 10, 30, 10)));
    // The windows abut, so none reaches across an edge of another.
    assert!(layout.side_intersections(a, Direction::Right).is_empty());
    assert!(layout.side_intersections(b, Direction::Down).is_empty());
}
