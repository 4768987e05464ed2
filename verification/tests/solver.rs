use sanguine::layout::geometry::{Axis, Constraint, Rect};
use sanguine::layout::solver::{compute_sizes, place_children};

fn total(sizes: &[usize]) -> usize {
    sizes.iter().sum()
}

#[test]
fn one_fill_takes_everything() {
    assert_eq!(compute_sizes(10, &vec![Constraint::Fill]), vec![10]);
}

#[test]
fn two_fills_share_evenly() {
    assert_eq!(compute_sizes(10, &vec![Constraint::Fill, Constraint::Fill]), vec![5, 5]);
}

#[test]
fn three_fills_give_the_remainder_to_the_first() {
    let sizes = compute_sizes(10, &vec![Constraint::Fill, Constraint::Fill, Constraint::Fill]);
    assert_eq!(sizes, vec![4, 3, 3]);
    assert_eq!(total(&sizes), 10);
}

#[test]
fn remainder_goes_to_the_first_fills_in_child_order() {
    let sizes = compute_sizes(
        11,
        &vec![Constraint::Fill, Constraint::Fixed(0), Constraint::Fill, Constraint::Fill],
    );
    assert_eq!(sizes, vec![4, 0, 4, 3]);
}

#[test]
fn fixed_sizes_come_first() {
    let sizes = compute_sizes(20, &vec![Constraint::Fixed(3), Constraint::Fill, Constraint::Fixed(5)]);
    assert_eq!(sizes, vec![3, 12, 5]);
    assert_eq!(total(&sizes), 20);
}

#[test]
fn a_share_is_taken_of_what_fixed_sizes_leave() {
    let sizes = compute_sizes(
        110,
        &vec![Constraint::Fixed(10), Constraint::Percentage(3000), Constraint::Fill],
    );
    assert_eq!(sizes, vec![10, 30, 70]);
}

#[test]
fn shares_round_to_the_nearest_cell() {
    // 25 % of 10 is 2.5 and rounds up; 24 % is 2.4 and rounds down.
    assert_eq!(compute_sizes(10, &vec![Constraint::Percentage(2500), Constraint::Fill]), vec![3, 7]);
    assert_eq!(compute_sizes(10, &vec![Constraint::Percentage(2400), Constraint::Fill]), vec![2, 8]);
}

#[test]
fn shares_beyond_the_whole_are_cut_back() {
    // 70 % + 70 % is 140 %: each share is cut by 20 %.
    let sizes = compute_sizes(
        100,
        &vec![Constraint::Percentage(7000), Constraint::Percentage(7000), Constraint::Fill],
    );
    assert_eq!(sizes, vec![50, 50, 0]);
    assert_eq!(total(&sizes), 100);
}

#[test]
fn uneven_excess_is_cut_rounding_up() {
    // 50 % + 40 % + 20 % is 110 %: the excess of 1000 over three shares is
    // 334 for each, rounded up.
    let sizes = compute_sizes(
        10_000,
        &vec![
            Constraint::Percentage(5000),
            Constraint::Percentage(4000),
            Constraint::Percentage(2000),
            Constraint::Fill,
        ],
    );
    assert_eq!(sizes, vec![4666, 3666, 1666, 2]);
    assert_eq!(total(&sizes), 10_000);
}

#[test]
fn a_share_smaller_than_the_cut_comes_to_nothing() {
    let sizes = compute_sizes(
        100,
        &vec![Constraint::Percentage(1000), Constraint::Percentage(13_000), Constraint::Fill],
    );
    assert_eq!(sizes, vec![0, 110, 0]);
}

#[test]
fn fixed_sizes_beyond_the_extent_leave_nothing() {
    let sizes = compute_sizes(
        10,
        &vec![Constraint::Fixed(8), Constraint::Fixed(8), Constraint::Percentage(5000), Constraint::Fill],
    );
    assert_eq!(sizes, vec![8, 8, 0, 0]);
}

#[test]
fn no_children_no_sizes() {
    assert_eq!(compute_sizes(10, &vec![]), Vec::<usize>::new());
}

#[test]
fn without_fill_the_rest_stays_empty() {
    assert_eq!(compute_sizes(10, &vec![Constraint::Fixed(3)]), vec![3]);
}

#[test]
fn huge_fixed_sizes_do_not_overflow() {
    let sizes = compute_sizes(10, &vec![Constraint::Fixed(usize::MAX), Constraint::Fixed(usize::MAX), Constraint::Fill]);
    assert_eq!(sizes, vec![usize::MAX, usize::MAX, 0]);
}

#[test]
fn children_abut_along_the_axis() {
    let bounds = Rect::new(2, 3, 100, 10);
    let rects = place_children(&bounds, Axis::Horizontal, &vec![30, 70]);
    assert_eq!(rects, vec![Rect::new(2, 3, 30, 10), Rect::new(32, 3, 70, 10)]);
    let rects = place_children(&bounds, Axis::Vertical, &vec![4, 3, 3]);
    assert_eq!(
        rects,
        vec![Rect::new(2, 3, 100, 4), Rect::new(2, 7, 100, 3), Rect::new(2, 10, 100, 3)]
    );
}
