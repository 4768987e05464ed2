use sanguine::layout::geometry::{Axis, Constraint, Rect};

#[test]
fn a_rectangle_holds_its_edges() {
    let r = Rect::new(2, 3, 10, 5);
    assert!(r.contains(2, 3));
    assert!(r.contains(12, 8));
    assert!(r.contains(7, 5));
    assert!(!r.contains(1, 3));
    assert!(!r.contains(13, 3));
    assert!(!r.contains(2, 9));
    assert_eq!(r.left(), 2);
    assert_eq!(r.right(), 12);
    assert_eq!(r.top(), 3);
    assert_eq!(r.bottom(), 8);
    assert_eq!(r.center(), (7, 5));
}

#[test]
fn edges_stop_at_the_end_of_the_plane() {
    let r = Rect::new(usize::MAX - 1, usize::MAX, 10, 10);
    assert_eq!(r.right(), usize::MAX);
    assert_eq!(r.bottom(), usize::MAX);
    assert!(r.contains(usize::MAX, usize::MAX));
    assert!(!r.contains(0, 0));
}

#[test]
fn intersects_looks_at_the_corners_of_the_other() {
    let r = Rect::new(0, 0, 10, 10);
    assert!(r.intersects(&Rect::new(5, 5, 10, 10)));
    assert!(r.intersects(&Rect::new(10, 10, 1, 1)));
    assert!(!r.intersects(&Rect::new(11, 11, 1, 1)));
    // A rectangle that reaches across this one has no corner inside it.
    assert!(!r.intersects(&Rect::new(2, 20, 1, 1)));
    assert!(!Rect::new(4, 4, 1, 1).intersects(&r));
    assert!(r.intersects(&Rect::new(4, 4, 1, 1)));
}

#[test]
fn default_and_from_size() {
    assert_eq!(Rect::default(), Rect::new(0, 0, 100, 100));
    assert_eq!(Rect::from_size((80, 24)), Rect::new(0, 0, 80, 24));
    let mut r = Rect::new(3, 4, 1, 1);
    r.resize(7, 8);
    assert_eq!(r, Rect::new(3, 4, 7, 8));
}

#[test]
fn slices_and_clips() {
    let r = Rect::new(2, 3, 10, 5);
    assert_eq!(r.origin(Axis::Horizontal), 2);
    assert_eq!(r.origin(Axis::Vertical), 3);
    assert_eq!(r.extent(Axis::Horizontal), 10);
    assert_eq!(r.extent(Axis::Vertical), 5);
    assert_eq!(r.slice(Axis::Horizontal, 4, 3), Rect::new(6, 3, 3, 5));
    assert_eq!(r.slice(Axis::Vertical, 1, 2), Rect::new(2, 4, 10, 2));
    assert_eq!(r.shift(5, 6), Rect::new(7, 9, 10, 5));
    let screen = Rect::new(0, 0, 8, 6);
    assert_eq!(r.clip(&screen), Rect::new(2, 3, 6, 3));
    assert_eq!(Rect::new(1, 1, 2, 2).clip(&screen), Rect::new(1, 1, 2, 2));
    assert_eq!(Rect::new(9, 7, 2, 2).clip(&screen), Rect::new(9, 7, 0, 0));
    assert_eq!(Constraint::fill(), Constraint::Fill);
}
