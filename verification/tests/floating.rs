use sanguine::allocator::Slab;
use sanguine::layout::geometry::{Direction, Rect};
use sanguine::layout::{FloatStack, Floating, LayoutNode};
use sanguine::widget::{WidgetId, WidgetStore};

fn float(nodes: &mut Slab<LayoutNode>, widget: WidgetId, z: usize) -> sanguine::layout::NodeId {
    nodes.insert(LayoutNode::Floating(
        Floating::new(widget, Rect::new(0, 0, 1, 1)).with_z_index(z),
    ))
}

#[test]
fn the_stack_runs_from_the_highest_to_the_lowest() {
    let mut widgets = WidgetStore::new();
    let w = widgets.register(());
    let mut nodes = Slab::new();
    let low = float(&mut nodes, w, 1);
    let high = float(&mut nodes, w, 9);
    let mid = float(&mut nodes, w, 5);
    let mut stack = FloatStack::new();
    stack.push(low, &nodes);
    stack.push(high, &nodes);
    stack.push(mid, &nodes);
    assert_eq!(stack.to_vec(), vec![high, mid, low]);
    assert_eq!(stack.peek(), Some(high));
    assert_eq!(stack.len(), 3);
    assert_eq!(stack.get(1), Some(mid));
    assert_eq!(stack.get(3), None);
}

#[test]
fn equal_heights_keep_their_order() {
    let mut widgets = WidgetStore::new();
    let w = widgets.register(());
    let mut nodes = Slab::new();
    let a = float(&mut nodes, w, 2);
    let b = float(&mut nodes, w, 2);
    let c = float(&mut nodes, w, 3);
    let d = float(&mut nodes, w, 2);
    let mut stack = FloatStack::new();
    for id in [a, b, c, d] {
        stack.push(id, &nodes);
    }
    assert_eq!(stack.to_vec(), vec![c, a, b, d]);
    stack.sort(&nodes);
    assert_eq!(stack.to_vec(), vec![c, a, b, d]);
}

#[test]
fn pop_takes_the_frontmost() {
    let mut widgets = WidgetStore::new();
    let w = widgets.register(());
    let mut nodes = Slab::new();
    let a = float(&mut nodes, w, 1);
    let b = float(&mut nodes, w, 4);
    let mut stack = FloatStack::new();
    assert!(stack.is_empty());
    assert_eq!(stack.pop(&nodes), None);
    stack.push(a, &nodes);
    stack.push(b, &nodes);
    assert_eq!(stack.pop(&nodes), Some(b));
    assert_eq!(stack.pop(&nodes), Some(a));
    assert_eq!(stack.pop(&nodes), None);
    assert!(stack.is_empty());
}

#[test]
fn remove_takes_a_window_out_wherever_it_stands() {
    let mut widgets = WidgetStore::new();
    let w = widgets.register(());
    let mut nodes = Slab::new();
    let a = float(&mut nodes, w, 3);
    let b = float(&mut nodes, w, 2);
    let c = float(&mut nodes, w, 1);
    let mut stack = FloatStack::new();
    for id in [a, b, c] {
        stack.push(id, &nodes);
    }
    stack.remove(b);
    assert_eq!(stack.to_vec(), vec![a, c]);
    stack.remove(b);
    assert_eq!(stack.to_vec(), vec![a, c]);
}

#[test]
fn nodes_without_a_z_index_count_as_one() {
    let mut widgets = WidgetStore::new();
    let w = widgets.register(());
    let mut nodes = Slab::new();
    let gone = float(&mut nodes, w, 7);
    nodes.remove(gone);
    let zero = float(&mut nodes, w, 0);
    let two = float(&mut nodes, w, 2);
    let mut stack = FloatStack::new();
    for id in [zero, gone, two] {
        stack.push(id, &nodes);
    }
    assert_eq!(stack.to_vec(), vec![two, gone, zero]);
}

#[test]
fn a_floating_window_moves_by_cells() {
    let mut widgets = WidgetStore::new();
    let w = widgets.register(());
    let mut f = Floating::new(w, Rect::new(1, 0, 10, 5));
    assert_eq!(f.z_index(), 1);
    assert_eq!(f.widget(), w);
    f.move_dir(Direction::Up);
    assert_eq!(f.pos, Rect::new(1, 0, 10, 5));
    f.move_dir(Direction::Left);
    f.move_dir(Direction::Left);
    assert_eq!(f.pos, Rect::new(0, 0, 10, 5));
    f.move_dir(Direction::Down);
    f.move_dir(Direction::Right);
    assert_eq!(f.pos, Rect::new(1, 1, 10, 5));
    f.move_to((7, 9));
    assert_eq!(f.pos, Rect::new(7, 9, 10, 5));
    let g = Floating::from_widget((), Rect::new(0, 0, 2, 2), &mut widgets);
    assert_ne!(g.widget(), w);
    assert!(widgets.get(g.widget()).is_some());
}
