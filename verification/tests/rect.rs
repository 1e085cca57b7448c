use spatial2d::{Direction, Orientation, Rect, UVec2};

fn v(x: u32, y: u32) -> UVec2 {
    UVec2::new(x, y)
}

fn rect(left: u32, top: u32, right: u32, bottom: u32) -> Rect {
    Rect { top_left_corner: v(left, top), bottom_right_corner: v(right, bottom) }
}

#[test]
fn constructors() {
    assert_eq!(Rect::from_top_left_and_size(v(2, 3), v(4, 5)), rect(2, 3, 6, 8));
    assert_eq!(Rect::from_center_and_size(v(10, 10), v(4, 6)), rect(8, 7, 12, 13));
    assert_eq!(Rect::from_center_and_size(v(10, 10), v(5, 1)), rect(8, 10, 12, 10));
    assert_eq!(Rect::from_corners(v(1, 2), v(3, 4)), rect(1, 2, 3, 4));
}

#[test]
fn bounds_from_positions_is_the_tightest_box() {
    let positions = [v(5, 2), v(3, 9), v(7, 4), v(4, 4)];
    assert_eq!(Rect::bounds_from_positions(&positions), rect(3, 2, 7, 9));
    assert_eq!(Rect::bounds_from_positions(&[v(0, 0), v(1, 1)]), rect(0, 0, 1, 1));
}

#[test]
fn measures() {
    let r = rect(2, 3, 8, 6);
    assert_eq!(r.width(), 6);
    assert_eq!(r.height(), 3);
    assert_eq!(r.size(), v(6, 3));
    assert_eq!(r.area(), 18);
    assert_eq!(r.center(), v(5, 4));
    assert_eq!(r.corners(), [v(2, 3), v(8, 3), v(2, 6), v(8, 6)]);
    assert_eq!(r.longest_orientation(), Orientation::Horizontal);
    assert_eq!(rect(0, 0, 2, 9).longest_orientation(), Orientation::Vertical);
}

#[test]
fn positions_include_the_far_sides() {
    assert_eq!(
        rect(1, 1, 3, 2).positions(),
        vec![v(1, 1), v(2, 1), v(3, 1), v(1, 2), v(2, 2), v(3, 2)]
    );
    assert_eq!(rect(4, 4, 4, 4).positions(), vec![v(4, 4)]);
}

#[test]
fn border_positions_leave_out_the_inside() {
    assert_eq!(
        rect(0, 0, 2, 2).border_positions(),
        vec![v(0, 0), v(1, 0), v(2, 0), v(0, 1), v(2, 1), v(0, 2), v(1, 2), v(2, 2)]
    );
    assert_eq!(rect(0, 0, 3, 3).border_positions().len(), 12);
}

#[test]
fn contains_pos_includes_the_sides() {
    let r = rect(2, 3, 8, 6);
    assert!(r.contains_pos(v(2, 3)));
    assert!(r.contains_pos(v(8, 6)));
    assert!(r.contains_pos(v(5, 4)));
    assert!(!r.contains_pos(v(1, 4)));
    assert!(!r.contains_pos(v(9, 4)));
    assert!(!r.contains_pos(v(5, 2)));
    assert!(!r.contains_pos(v(5, 7)));
}

#[test]
fn expand_grows_every_side() {
    assert_eq!(rect(2, 3, 8, 6).expand(2), rect(0, 1, 10, 8));
    let mut r = rect(2, 3, 8, 6);
    r.expand_in_place(1);
    assert_eq!(r, rect(1, 2, 9, 7));
}

#[test]
fn extend_in_dir_moves_the_facing_side_outwards() {
    let start = rect(2, 3, 8, 6);
    let mut r = start;
    r.extend_in_dir(Direction::North, 2);
    assert_eq!(r, rect(2, 1, 8, 6));
    let mut r = start;
    r.extend_in_dir(Direction::East, 2);
    assert_eq!(r, rect(2, 3, 10, 6));
    let mut r = start;
    r.extend_in_dir(Direction::South, 2);
    assert_eq!(r, rect(2, 3, 8, 8));
    let mut r = start;
    r.extend_in_dir(Direction::West, 2);
    assert_eq!(r, rect(0, 3, 8, 6));
}

#[test]
fn shrink_in_dir_moves_the_opposite_side() {
    let start = rect(2, 3, 8, 9);
    let mut r = start;
    r.shrink_in_dir(Direction::North, 2);
    assert_eq!(r, rect(2, 3, 8, 7));
    let mut r = start;
    r.shrink_in_dir(Direction::East, 2);
    assert_eq!(r, rect(4, 3, 8, 9));
    let mut r = start;
    r.shrink_in_dir(Direction::South, 2);
    assert_eq!(r, rect(2, 5, 8, 9));
    let mut r = start;
    r.shrink_in_dir(Direction::West, 2);
    assert_eq!(r, rect(2, 3, 6, 9));
}

#[test]
fn shrink_needs_two_cells_to_remain() {
    assert_eq!(rect(0, 0, 6, 6).shrink(2), Some(rect(2, 2, 4, 4)));
    assert_eq!(rect(0, 0, 5, 6).shrink(2), None);
    assert_eq!(rect(0, 0, 6, 5).shrink(2), None);
    assert_eq!(rect(0, 0, 2, 2).shrink(0), Some(rect(0, 0, 2, 2)));
    assert_eq!(rect(0, 0, 1, 2).shrink(0), None);
    assert_eq!(rect(0, 0, 9, 9).shrink(u32::MAX), None);
    let mut r = rect(1, 1, 9, 7);
    r.shrink_in_place(2);
    assert_eq!(r, rect(3, 3, 7, 5));
}

#[test]
fn scaling_multiplies_and_divides_the_corners() {
    let mut r = rect(1, 2, 3, 5);
    r.scale_up(4);
    assert_eq!(r, rect(4, 8, 12, 20));
    r.scale_down(3);
    assert_eq!(r, rect(1, 2, 4, 6));
}

#[test]
fn bisect_at_cuts_in_two() {
    let r = rect(2, 3, 12, 13);
    assert_eq!(
        r.bisect_at(Orientation::Vertical, 4),
        (rect(2, 3, 6, 13), rect(7, 3, 12, 13))
    );
    assert_eq!(
        r.bisect_at(Orientation::Horizontal, 4),
        (rect(2, 3, 12, 7), rect(2, 8, 12, 13))
    );
}
