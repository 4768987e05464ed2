use sanguine::error::Error;
use sanguine::layout::geometry::{Axis, Constraint, Direction, Rect};
use sanguine::layout::{Layout, LayoutNode};
use sanguine::widget::{Widget, WidgetStore};

/// A widget that asks for a given size.
struct Pane(Constraint);

impl Widget for Pane {
    fn constraint(&self) -> Constraint {
        self.0
    }
}

/// A widget that leaves everything to the defaults.
struct Plain;

impl Widget for Plain {}

#[test]
fn new_layout_has_a_vertical_root() {
    let layout = Layout::new();
    let root = layout.root();
    assert!(layout.is_container(root));
    assert!(layout.is_root(root));
    assert_eq!(layout.direction(root), Some(Axis::Vertical));
    assert_eq!(layout.parent(root), None);
    assert_eq!(layout.child_count(root), Some(0));
    assert_eq!(layout.layout(root), Some(&Rect::new(0, 0, 100, 100)));
    assert!(layout.is_dirty());
    assert!(layout.leaves().is_empty());
    assert!(layout.floats().is_empty());
}

#[test]
fn two_leaves_share_a_row() {
    let mut widgets = WidgetStore::new();
    let mut layout = Layout::new();
    let root = layout.root();
    layout.set_direction(root, Axis::Horizontal);
    let a = layout.add_leaf(widgets.register(Pane(Constraint::Percentage(3000))));
    let b = layout.add_leaf(widgets.register(Pane(Constraint::Fill)));
    layout.add_child(root, a).unwrap();
    layout.add_child(root, b).unwrap();

    layout.compute(&Rect::new(0, 0, 100, 10), &widgets);

    assert_eq!(layout.layout(root), Some(&Rect::new(0, 0, 100, 10)));
    assert_eq!(layout.layout(a), Some(&Rect::new(0, 0, 30, 10)));
    assert_eq!(layout.layout(b), Some(&Rect::new(30, 0, 70, 10)));
    assert!(!layout.is_dirty());
}

#[test]
fn splitting_a_leaf_puts_a_container_in_its_place() {
    let mut widgets = WidgetStore::new();
    let mut layout = Layout::new();
    let root = layout.root();
    let first = layout.add_leaf(widgets.register(Plain));
    layout.add_child(root, first).unwrap();
    let second_widget = widgets.register(Plain);

    let second = layout.split(first, Axis::Vertical, second_widget).unwrap();

    let wrapper = layout.parent(first).unwrap();
    assert_ne!(wrapper, root);
    assert!(layout.is_container(wrapper));
    assert_eq!(layout.direction(wrapper), Some(Axis::Vertical));
    assert_eq!(layout.parent(wrapper), Some(root));
    assert_eq!(layout.children(root), Some(&vec![wrapper]));
    assert_eq!(layout.children(wrapper), Some(&vec![first, second]));
    assert_eq!(layout.parent(second), Some(wrapper));
    assert_eq!(layout.widget(second), Some(second_widget));
    assert_eq!(layout.leaves(), vec![first, second]);

    layout.compute(&Rect::new(0, 0, 80, 24), &widgets);
    assert_eq!(layout.layout(first), Some(&Rect::new(0, 0, 80, 12)));
    assert_eq!(layout.layout(second), Some(&Rect::new(0, 12, 80, 12)));

    layout.mark_dirty();
    layout.compute(&Rect::new(0, 0, 80, 25), &widgets);
    assert_eq!(layout.layout(first), Some(&Rect::new(0, 0, 80, 13)));
    assert_eq!(layout.layout(second), Some(&Rect::new(0, 13, 80, 12)));
}

#[test]
fn splitting_a_container_along_its_axis_appends() {
    let mut widgets = WidgetStore::<Plain>::new();
    let mut layout = Layout::new();
    let root = layout.root();
    let a = layout.add_leaf(widgets.register(Plain));
    layout.add_child(root, a).unwrap();
    let leaf = layout.split(root, Axis::Vertical, widgets.register(Plain)).unwrap();
    assert_eq!(layout.children(root), Some(&vec![a, leaf]));
    assert_eq!(layout.leaves(), vec![a, leaf]);
}

#[test]
fn splitting_a_container_across_its_axis_wraps_it() {
    let mut widgets = WidgetStore::<Plain>::new();
    let mut layout = Layout::new();
    let root = layout.root();
    let inner = layout.add_container(Axis::Vertical, None);
    let a = layout.add_leaf(widgets.register(Plain));
    layout.add_child(root, inner).unwrap();
    layout.add_child(inner, a).unwrap();
    let before = layout.leaves().len();

    let returned = layout.split(inner, Axis::Horizontal, widgets.register(Plain)).unwrap();

    assert_eq!(returned, inner);
    let wrapper = layout.parent(inner).unwrap();
    assert_eq!(layout.direction(wrapper), Some(Axis::Horizontal));
    assert_eq!(layout.children(root), Some(&vec![wrapper]));
    let kids = layout.children(wrapper).unwrap().clone();
    assert_eq!(kids.len(), 2);
    assert_eq!(kids[0], inner);
    assert!(layout.is_leaf(kids[1]));
    assert_eq!(layout.leaves().len(), before + 1);
}

#[test]
fn split_errors() {
    let mut widgets = WidgetStore::<Plain>::new();
    let mut layout = Layout::new();
    let root = layout.root();
    let w = widgets.register(Plain);
    assert_eq!(layout.split(root, Axis::Horizontal, w), Err(Error::RootIsFixed));
    let lone = layout.add_leaf(w);
    assert_eq!(layout.split(lone, Axis::Horizontal, w), Err(Error::Detached(lone)));
    let float = layout.add_floating(w, Rect::new(1, 1, 5, 5));
    assert_eq!(layout.split(float, Axis::Horizontal, w), Err(Error::ExpectedLeaf(float)));
    layout.remove_child(root, lone).unwrap();
}

#[test]
fn children_must_be_free_nodes() {
    let mut widgets = WidgetStore::<Plain>::new();
    let mut layout = Layout::new();
    let root = layout.root();
    let w = widgets.register(Plain);
    let a = layout.add_leaf(w);
    let c = layout.add_container(Axis::Horizontal, None);
    let d = layout.add_container(Axis::Horizontal, None);
    let float = layout.add_floating(w, Rect::new(0, 0, 1, 1));

    assert_eq!(layout.add_child(a, c), Err(Error::ExpectedContainer(a)));
    assert_eq!(layout.add_child(root, float), Err(Error::InvalidChild(float)));
    assert_eq!(layout.add_child(c, root), Err(Error::InvalidChild(root)));
    assert_eq!(layout.add_child(c, c), Err(Error::InvalidChild(c)));
    assert_eq!(layout.add_child(root, c), Ok(()));
    assert_eq!(layout.add_child(root, c), Err(Error::InvalidChild(c)));
    assert_eq!(layout.add_child(c, d), Ok(()));
    // `d` lies below `c`, so `c` cannot go below `d`.
    assert_eq!(layout.remove_child(root, c), Ok(()));
    assert_eq!(layout.add_child(d, c), Err(Error::InvalidChild(c)));
    assert_eq!(layout.insert_child_at(root, a, 1), Err(Error::NoSuchChild(root)));
    assert_eq!(layout.insert_child_at(root, a, 0), Ok(()));
    assert_eq!(layout.parent(a), Some(root));
}

#[test]
fn removing_a_child_keeps_the_node() {
    let mut widgets = WidgetStore::<Plain>::new();
    let mut layout = Layout::new();
    let root = layout.root();
    let a = layout.add_leaf(widgets.register(Plain));
    let b = layout.add_leaf(widgets.register(Plain));
    layout.add_child(root, a).unwrap();
    layout.add_child(root, b).unwrap();
    assert_eq!(layout.child_index(root, b), Some(1));

    layout.remove_child(root, a).unwrap();

    assert!(layout.is_leaf(a));
    assert_eq!(layout.parent(a), None);
    assert_eq!(layout.children(root), Some(&vec![b]));
    assert_eq!(layout.remove_child_by_index(root, 1), Err(Error::NoSuchChild(root)));
    assert_eq!(layout.remove_child_by_index(root, 0), Ok(()));
    assert_eq!(layout.child_count(root), Some(0));
    assert_eq!(layout.parent(b), None);
}

#[test]
fn replacing_a_child_frees_the_old_one() {
    let mut widgets = WidgetStore::<Plain>::new();
    let mut layout = Layout::new();
    let root = layout.root();
    let a = layout.add_leaf(widgets.register(Plain));
    let b = layout.add_leaf(widgets.register(Plain));
    let c = layout.add_leaf(widgets.register(Plain));
    layout.add_child(root, a).unwrap();
    layout.add_child(root, b).unwrap();

    layout.replace_child(root, a, c).unwrap();

    assert_eq!(layout.children(root), Some(&vec![c, b]));
    assert_eq!(layout.parent(a), None);
    assert_eq!(layout.parent(c), Some(root));
    assert!(layout.is_leaf(a));
    assert_eq!(layout.replace_child(root, a, c), Err(Error::NoSuchChild(root)));
    assert_eq!(layout.replace_child(root, b, c), Err(Error::InvalidChild(c)));
}

#[test]
fn cloned_leaves_show_one_widget() {
    let mut widgets = WidgetStore::new();
    let mut layout = Layout::new();
    let shared = widgets.register(Pane(Constraint::Fill));
    let first = layout.add_leaf(shared);
    let second = layout.clone_leaf(first).unwrap();
    assert_ne!(first, second);
    assert_eq!(layout.parent(second), None);
    assert_eq!(layout.widget(first), layout.widget(second));

    // What is written through one window is read through the other.
    let id = layout.widget(first).unwrap();
    widgets.get_mut(id).unwrap().0 = Constraint::Fixed(7);
    let seen = widgets.get(layout.widget(second).unwrap()).unwrap();
    assert_eq!(seen.0, Constraint::Fixed(7));

    let root = layout.root();
    assert_eq!(layout.clone_leaf(root), Err(Error::ExpectedLeaf(root)));
}

#[test]
fn floats_lie_above_leaves() {
    let mut widgets = WidgetStore::<Plain>::new();
    let mut layout = Layout::new();
    let root = layout.root();
    let leaf = layout.add_leaf(widgets.register(Plain));
    layout.add_child(root, leaf).unwrap();
    let float = layout.add_floating(widgets.register(Plain), Rect::new(10, 10, 25, 5));
    layout.compute(&Rect::new(0, 0, 80, 24), &widgets);

    assert_eq!(layout.node_at_pos((12, 12)), Some(float));
    assert_eq!(layout.node_at_pos((1, 1)), Some(leaf));
    assert_eq!(layout.node_at_pos((200, 200)), None);
    assert_eq!(layout.floats(), vec![float]);
    assert_eq!(layout.leaves(), vec![leaf]);
}

#[test]
fn floats_are_cut_back_to_the_screen() {
    let mut widgets = WidgetStore::<Plain>::new();
    let mut layout = Layout::new();
    let inside = layout.add_floating(widgets.register(Plain), Rect::new(10, 10, 25, 5));
    let wide = layout.add_floating(widgets.register(Plain), Rect::new(70, 20, 25, 10));
    let outside = layout.add_floating(widgets.register(Plain), Rect::new(90, 30, 5, 5));
    layout.compute(&Rect::new(0, 0, 80, 24), &widgets);
    assert_eq!(layout.layout(inside), Some(&Rect::new(10, 10, 25, 5)));
    assert_eq!(layout.layout(wide), Some(&Rect::new(70, 20, 10, 4)));
    assert_eq!(layout.layout(outside), Some(&Rect::new(90, 30, 0, 0)));
}

#[test]
fn the_first_float_stays_in_front() {
    let mut widgets = WidgetStore::<Plain>::new();
    let mut layout = Layout::new();
    let first = layout.add_floating(widgets.register(Plain), Rect::new(0, 0, 10, 10));
    let second = layout.add_floating(widgets.register(Plain), Rect::new(5, 5, 10, 10));
    layout.compute(&Rect::new(0, 0, 80, 24), &widgets);
    assert_eq!(layout.floats(), vec![first, second]);
    assert_eq!(layout.node_at_pos((7, 7)), Some(first));
    assert_eq!(layout.node_at_pos((12, 12)), Some(second));
}

#[test]
fn a_float_can_become_a_leaf() {
    let mut widgets = WidgetStore::<Plain>::new();
    let mut layout = Layout::new();
    let root = layout.root();
    let w = widgets.register(Plain);
    let float = layout.add_floating(w, Rect::new(0, 0, 10, 10));
    assert!(layout.is_floating(float));
    layout.make_leaf(float);
    assert!(layout.is_leaf(float));
    assert_eq!(layout.widget(float), Some(w));
    assert!(layout.floats().is_empty());
    assert_eq!(layout.add_child(root, float), Ok(()));
    assert_eq!(layout.leaves(), vec![float]);
}

#[test]
fn compute_waits_for_a_change() {
    let mut widgets = WidgetStore::<Plain>::new();
    let mut layout = Layout::new();
    let root = layout.root();
    let leaf = layout.add_leaf(widgets.register(Plain));
    layout.add_child(root, leaf).unwrap();
    layout.compute(&Rect::new(0, 0, 80, 24), &widgets);
    assert_eq!(layout.layout(leaf), Some(&Rect::new(0, 0, 80, 24)));
    // Nothing has changed: other bounds are not taken up.
    layout.compute(&Rect::new(0, 0, 40, 12), &widgets);
    assert_eq!(layout.layout(leaf), Some(&Rect::new(0, 0, 80, 24)));
    layout.mark_dirty();
    layout.compute(&Rect::new(0, 0, 40, 12), &widgets);
    assert_eq!(layout.layout(leaf), Some(&Rect::new(0, 0, 40, 12)));
}

#[test]
fn containers_ask_for_their_own_size() {
    let mut widgets = WidgetStore::new();
    let mut layout = Layout::new();
    let root = layout.root();
    layout.set_direction(root, Axis::Horizontal);
    let side = layout.add_container(Axis::Vertical, Some(Constraint::Fixed(20)));
    let main = layout.add_container(Axis::Vertical, None);
    let top = layout.add_leaf(widgets.register(Pane(Constraint::Fixed(1))));
    let rest = layout.add_leaf(widgets.register(Pane(Constraint::Fill)));
    layout.add_child(root, side).unwrap();
    layout.add_child(root, main).unwrap();
    layout.add_child(main, top).unwrap();
    layout.add_child(main, rest).unwrap();
    assert_eq!(layout.size(side, &widgets), Constraint::Fixed(20));
    assert_eq!(layout.size(main, &widgets), Constraint::Fill);
    assert_eq!(layout.size(top, &widgets), Constraint::Fixed(1));
    layout.set_size(main, Constraint::Percentage(5000));
    assert_eq!(layout.size(main, &widgets), Constraint::Percentage(5000));
    layout.set_size(main, Constraint::Fill);

    layout.compute(&Rect::new(0, 0, 100, 30), &widgets);

    assert_eq!(layout.layout(side), Some(&Rect::new(0, 0, 20, 30)));
    assert_eq!(layout.layout(main), Some(&Rect::new(20, 0, 80, 30)));
    assert_eq!(layout.layout(top), Some(&Rect::new(20, 0, 80, 1)));
    assert_eq!(layout.layout(rest), Some(&Rect::new(20, 1, 80, 29)));
    assert_eq!(layout.leaves(), vec![top, rest]);
    assert_eq!(layout.preorder(), vec![root, side, main, top, rest]);
}

#[test]
fn traverse_visits_parents_first() {
    let mut widgets = WidgetStore::<Plain>::new();
    let mut layout = Layout::new();
    let root = layout.root();
    let inner = layout.add_container(Axis::Horizontal, None);
    let a = layout.add_leaf(widgets.register(Plain));
    let b = layout.add_leaf(widgets.register(Plain));
    layout.add_child(root, a).unwrap();
    layout.add_child(root, inner).unwrap();
    layout.add_child(inner, b).unwrap();
    let seen = std::cell::RefCell::new(Vec::new());
    layout.traverse(|id, node| {
        seen.borrow_mut().push((id, matches!(node, LayoutNode::Container(_))));
    });
    assert_eq!(seen.into_inner(), vec![(root, true), (a, false), (inner, true), (b, false)]);
}

#[test]
fn direction_values_are_distinct() {
    assert_ne!(Direction::Left, Direction::Right);
    assert_ne!(Direction::Up, Direction::Down);
}

#[test]
fn removing_a_node_unhooks_it() {
    let mut widgets = WidgetStore::<Plain>::new();
    let mut layout = Layout::new();
    let root = layout.root();
    let inner = layout.add_container(Axis::Horizontal, None);
    let a = layout.add_leaf(widgets.register(Plain));
    let b = layout.add_leaf(widgets.register(Plain));
    let c = layout.add_leaf(widgets.register(Plain));
    layout.add_child(root, a).unwrap();
    layout.add_child(root, inner).unwrap();
    layout.add_child(inner, b).unwrap();
    layout.add_child(inner, c).unwrap();
    layout.compute(&Rect::new(0, 0, 10, 10), &widgets);
    assert!(!layout.is_dirty());

    assert_eq!(layout.remove_node(root), Err(Error::RootIsFixed));
    assert!(!layout.is_dirty());
    assert_eq!(layout.remove_node(inner), Ok(()));

    assert!(layout.is_dirty());
    assert!(layout.node(inner).is_none());
    assert_eq!(layout.layout(inner), None);
    assert_eq!(layout.children(root), Some(&vec![a]));
    // The children of the node stay, without a parent.
    assert!(layout.is_leaf(b) && layout.is_leaf(c));
    assert_eq!(layout.parent(b), None);
    assert_eq!(layout.parent(c), None);
    assert_eq!(layout.leaves(), vec![a]);
    // A handle that reaches nothing is left alone.
    assert_eq!(layout.remove_node(inner), Ok(()));
    assert_eq!(layout.add_child(root, inner), Err(Error::NodeNotFound(inner)));
    assert_eq!(layout.add_child(inner, a), Err(Error::NodeNotFound(inner)));
    assert_eq!(layout.remove_child(inner, a), Err(Error::NodeNotFound(inner)));
    assert_eq!(layout.remove_child(a, b), Err(Error::ExpectedContainer(a)));
    assert_eq!(layout.clone_leaf(inner), Err(Error::NodeNotFound(inner)));
    assert_eq!(layout.split(inner, Axis::Vertical, widgets.register(Plain)), Err(Error::NodeNotFound(inner)));
    // The handle of a node that is put in later is another one.
    let again = layout.add_container(Axis::Horizontal, None);
    assert_ne!(again, inner);
    assert!(layout.node(inner).is_none());
}

#[test]
fn removing_a_float_takes_it_off_the_stack() {
    let mut widgets = WidgetStore::<Plain>::new();
    let mut layout = Layout::new();
    let first = layout.add_floating(widgets.register(Plain), Rect::new(0, 0, 4, 4));
    let second = layout.add_floating(widgets.register(Plain), Rect::new(0, 0, 4, 4));
    layout.remove_node(first).unwrap();
    assert_eq!(layout.floats(), vec![second]);
    layout.compute(&Rect::new(0, 0, 10, 10), &widgets);
    assert_eq!(layout.node_at_pos((1, 1)), Some(second));
}

#[test]
fn a_container_takes_free_nodes_only() {
    let mut widgets = WidgetStore::<Plain>::new();
    let mut layout = Layout::new();
    let root = layout.root();
    let w = widgets.register(Plain);
    let a = layout.add_leaf(w);
    let b = layout.add_leaf(w);
    let taken = layout.add_leaf(w);
    layout.add_child(root, taken).unwrap();
    let float = layout.add_floating(w, Rect::new(0, 0, 1, 1));
    let gone = layout.add_leaf(w);
    layout.remove_node(gone).unwrap();
    layout.compute(&Rect::new(0, 0, 10, 10), &widgets);

    let none = |l: &mut Layout, cs: Vec<_>| l.add_with_children(Axis::Vertical, None, cs);
    assert_eq!(none(&mut layout, vec![a, gone]), Err(Error::NodeNotFound(gone)));
    assert_eq!(none(&mut layout, vec![a, taken]), Err(Error::InvalidChild(taken)));
    assert_eq!(none(&mut layout, vec![float]), Err(Error::InvalidChild(float)));
    assert_eq!(none(&mut layout, vec![root]), Err(Error::InvalidChild(root)));
    assert_eq!(none(&mut layout, vec![a, b, a]), Err(Error::InvalidChild(a)));
    // Nothing has changed so far.
    assert!(!layout.is_dirty());
    assert_eq!(layout.parent(a), None);

    let group = none(&mut layout, vec![b, a]).unwrap();
    assert!(layout.is_dirty());
    assert_eq!(layout.children(group), Some(&vec![b, a]));
    assert_eq!(layout.parent(a), Some(group));
    assert_eq!(layout.parent(b), Some(group));
    assert_eq!(layout.parent(group), None);
    assert_eq!(layout.direction(group), Some(Axis::Vertical));
    let empty = none(&mut layout, vec![]).unwrap();
    assert_eq!(layout.child_count(empty), Some(0));
}

#[test]
fn clean_leaves_the_root_alone() {
    let mut widgets = WidgetStore::<Plain>::new();
    let mut layout = Layout::new();
    let root = layout.root();
    layout.set_direction(root, Axis::Horizontal);
    let a = layout.add_leaf(widgets.register(Plain));
    let lone = layout.add_leaf(widgets.register(Plain));
    let float = layout.add_floating(widgets.register(Plain), Rect::new(0, 0, 4, 4));
    layout.add_child(root, a).unwrap();
    layout.compute(&Rect::new(0, 0, 10, 10), &widgets);
    let room = layout.room();

    layout.clean();

    assert!(layout.is_dirty());
    assert_eq!(layout.root(), root);
    assert_eq!(layout.direction(root), Some(Axis::Horizontal));
    assert_eq!(layout.child_count(root), Some(0));
    assert_eq!(layout.layout(root), Some(&Rect::new(0, 0, 100, 100)));
    for gone in [a, lone, float] {
        assert!(layout.node(gone).is_none());
    }
    assert!(layout.floats().is_empty());
    assert!(layout.leaves().is_empty());
    assert_eq!(layout.room(), room + 3);
}

#[test]
fn a_split_adds_one_leaf_and_keeps_the_widgets() {
    let mut widgets = WidgetStore::<Plain>::new();
    let mut layout = Layout::new();
    let root = layout.root();
    let wa = widgets.register(Plain);
    let wb = widgets.register(Plain);
    let wc = widgets.register(Plain);
    let a = layout.add_leaf(wa);
    let b = layout.add_leaf(wb);
    layout.add_child(root, a).unwrap();
    layout.add_child(root, b).unwrap();
    let before = layout.leaves();

    let c = layout.split(a, Axis::Horizontal, wc).unwrap();

    let after = layout.leaves();
    assert_eq!(after.len(), before.len() + 1);
    assert_eq!(after, vec![a, c, b]);
    assert_eq!(layout.widget(a), Some(wa));
    assert_eq!(layout.widget(b), Some(wb));
    assert_eq!(layout.widget(c), Some(wc));
    assert_eq!(after.iter().filter(|n| layout.widget(**n) == Some(wa)).count(), 1);
    // The chain of parents of the new leaf ends at the root.
    let mut node = c;
    while let Some(p) = layout.parent(node) {
        node = p;
    }
    assert_eq!(node, root);
    assert!(layout.is_above_or_self(root, c));
    assert!(!layout.is_above_or_self(c, root));
}

#[test]
fn nodes_tell_their_kind() {
    let mut widgets = WidgetStore::<Plain>::new();
    let mut layout = Layout::new();
    let root = layout.root();
    let w = widgets.register(Plain);
    let a = layout.add_leaf_raw(w);
    let f = layout.add_floating(w, Rect::new(1, 2, 3, 4));
    let node = layout.node(root).unwrap();
    assert!(node.is_container() && !node.is_leaf() && !node.is_floating());
    assert_eq!(node.container().map(|c| c.direction), Some(Axis::Vertical));
    assert!(node.leaf().is_none() && node.floating().is_none() && node.widget().is_none());
    let node = layout.node(a).unwrap();
    assert!(node.is_leaf());
    assert_eq!(node.leaf().map(|l| l.widget), Some(w));
    assert_eq!(node.widget(), Some(w));
    let copy = node.leaf().unwrap().clone();
    assert_eq!((copy.widget, copy.parent), (w, None));
    let node = layout.node(f).unwrap();
    assert!(node.is_floating());
    assert_eq!(node.floating().map(|f| (f.pos, f.z_index())), Some((Rect::new(1, 2, 3, 4), 1)));
    assert_eq!(sanguine::layout::Leaf::new(w).widget, w);
    assert_eq!(sanguine::layout::Leaf::from_widget(w).parent, None);
}
