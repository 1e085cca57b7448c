use spatial2d::{BoundsCheck, Distance, IVec2, Neighbours, NeighboursChecked, Positions, UVec2};

fn u(x: u32, y: u32) -> UVec2 {
    UVec2::new(x, y)
}

fn i(x: i32, y: i32) -> IVec2 {
    IVec2::new(x, y)
}

#[test]
fn vector_basics() {
    assert_eq!(UVec2::splat(3), u(3, 3));
    assert_eq!(IVec2::splat(-3), i(-3, -3));
    assert_eq!(u(6, 7).element_product(), 42);
    assert_eq!(u(6, 7).min_element(), 6);
    assert_eq!(u(6, 7).max_element(), 7);
    assert_eq!(i(-6, 7).min_element(), -6);
    assert_eq!(i(-6, -7).max_element(), -6);
}

#[test]
fn positions_go_left_to_right_and_top_to_bottom() {
    assert_eq!(
        i(2, 3).positions(),
        vec![i(0, 0), i(1, 0), i(0, 1), i(1, 1), i(0, 2), i(1, 2)]
    );
    assert_eq!(
        i(1, 2).positions_inclusive(),
        vec![i(0, 0), i(1, 0), i(0, 1), i(1, 1), i(0, 2), i(1, 2)]
    );
    assert_eq!(u(2, 2).positions(), vec![u(0, 0), u(1, 0), u(0, 1), u(1, 1)]);
    assert_eq!(u(1, 0).positions_inclusive(), vec![u(0, 0), u(1, 0)]);
    assert!(u(0, 4).positions().is_empty());
    assert!(i(-1, 4).positions().is_empty());
    assert!(i(3, -1).positions_inclusive().is_empty());
    assert_eq!(i(0, 0).positions_inclusive(), vec![i(0, 0)]);
}

#[test]
fn signed_neighbours_in_compass_order() {
    assert_eq!(
        i(0, 0).neighbours(),
        [i(0, -1), i(0, 1), i(-1, 0), i(1, 0), i(-1, -1), i(1, -1), i(-1, 1), i(1, 1)]
    );
    assert_eq!(i(5, 5).neighbours_no_diag(), [i(5, 4), i(5, 6), i(4, 5), i(6, 5)]);
    assert_eq!(i(5, 5).neighbours_diag_only(), [i(4, 4), i(6, 4), i(4, 6), i(6, 6)]);
    assert_eq!(
        i(0, 0).neighbours_length(3),
        [i(0, -3), i(0, 3), i(-3, 0), i(3, 0), i(-3, -3), i(3, -3), i(-3, 3), i(3, 3)]
    );
    assert_eq!(i(1, 1).neighbours_no_diag_length(2), [i(1, -1), i(1, 3), i(-1, 1), i(3, 1)]);
    assert_eq!(i(1, 1).neighbours_diag_only_length(2), [i(-1, -1), i(3, -1), i(-1, 3), i(3, 3)]);
}

#[test]
fn unsigned_neighbours_in_reading_order() {
    assert_eq!(
        u(5, 5).neighbours(),
        [u(4, 4), u(5, 4), u(6, 4), u(4, 5), u(6, 5), u(4, 6), u(5, 6), u(6, 6)]
    );
    assert_eq!(u(5, 5).neighbours_no_diag(), [u(5, 4), u(4, 5), u(6, 5), u(5, 6)]);
    assert_eq!(u(5, 5).neighbours_diag_only(), [u(4, 4), u(6, 4), u(4, 6), u(6, 6)]);
    assert_eq!(
        u(5, 5).neighbours_length(2),
        [u(3, 3), u(5, 3), u(7, 3), u(3, 5), u(7, 5), u(3, 7), u(5, 7), u(7, 7)]
    );
    assert_eq!(u(5, 5).neighbours_no_diag_length(5), [u(5, 0), u(0, 5), u(10, 5), u(5, 10)]);
    assert_eq!(u(5, 5).neighbours_diag_only_length(1), [u(4, 4), u(6, 4), u(4, 6), u(6, 6)]);
}

#[test]
fn square_neighbours_are_the_block_without_the_centre() {
    assert_eq!(
        i(0, 0).neighbours_square(1),
        vec![i(-1, -1), i(0, -1), i(1, -1), i(-1, 0), i(1, 0), i(-1, 1), i(0, 1), i(1, 1)]
    );
    assert_eq!(u(3, 3).neighbours_square(2).len(), 24);
    assert_eq!(u(3, 3).neighbours_square(2)[0], u(1, 1));
    assert!(u(3, 3).neighbours_square(0).is_empty());
}

#[test]
fn circle_neighbours_lie_within_the_radius() {
    assert_eq!(i(0, 0).neighbours_circle(1), vec![i(0, -1), i(-1, 0), i(1, 0), i(0, 1)]);
    assert_eq!(
        u(5, 5).neighbours_circle(2),
        vec![
            u(5, 3),
            u(4, 4),
            u(5, 4),
            u(6, 4),
            u(3, 5),
            u(4, 5),
            u(6, 5),
            u(7, 5),
            u(4, 6),
            u(5, 6),
            u(6, 6),
            u(5, 7)
        ]
    );
    assert_eq!(i(0, 0).neighbours_circle(5).len(), 80);
}

#[test]
fn checked_neighbours_leave_out_what_lies_off_the_edge() {
    assert_eq!(
        u(5, 5).neighbours_checked(),
        vec![u(4, 4), u(5, 4), u(6, 4), u(4, 5), u(6, 5), u(4, 6), u(5, 6), u(6, 6)]
    );
    assert_eq!(u(0, 0).neighbours_checked(), vec![u(1, 0), u(0, 1), u(1, 1)]);
    assert_eq!(
        u(0, 3).neighbours_checked(),
        vec![u(0, 2), u(1, 2), u(1, 3), u(0, 4), u(1, 4)]
    );
    assert_eq!(u(0, 0).neighbours_checked_no_diag(), vec![u(1, 0), u(0, 1)]);
    assert_eq!(u(3, 0).neighbours_checked_no_diag(), vec![u(2, 0), u(4, 0), u(3, 1)]);
    assert_eq!(u(0, 0).neighbours_checked_diag_only(), vec![u(1, 1)]);
    assert_eq!(u(3, 0).neighbours_checked_diag_only(), vec![u(2, 1), u(4, 1)]);
    assert_eq!(
        u(u32::MAX, u32::MAX).neighbours_checked(),
        vec![
            u(u32::MAX - 1, u32::MAX - 1),
            u(u32::MAX, u32::MAX - 1),
            u(u32::MAX - 1, u32::MAX)
        ]
    );
}

#[test]
fn checked_length_neighbours_guard_the_near_edges_by_the_length() {
    assert_eq!(
        u(2, 5).neighbours_checked_length(3),
        vec![u(2, 4), u(3, 4), u(3, 5), u(1, 6), u(2, 6), u(3, 6)]
    );
    assert_eq!(
        u(5, 5).neighbours_checked_length(3),
        vec![u(4, 4), u(5, 4), u(6, 4), u(4, 5), u(6, 5), u(4, 6), u(5, 6), u(6, 6)]
    );
    assert_eq!(u(2, 5).neighbours_checked_no_diag_length(3), vec![u(2, 4), u(3, 5), u(2, 6)]);
    assert_eq!(u(2, 5).neighbours_checked_diag_only_length(3), vec![u(3, 4), u(1, 6), u(3, 6)]);
    assert_eq!(u(0, 0).neighbours_checked_length(0), vec![u(1, 0), u(0, 1), u(1, 1)]);
}

#[test]
fn checked_blocks_are_clipped_at_zero() {
    assert_eq!(u(0, 0).neighbours_checked_square(1), vec![u(1, 0), u(0, 1), u(1, 1)]);
    assert_eq!(u(1, 0).neighbours_checked_square(2).len(), 11);
    assert_eq!(u(0, 0).neighbours_checked_circle(2), vec![u(1, 0), u(2, 0), u(0, 1), u(1, 1), u(0, 2)]);
    assert_eq!(u(5, 5).neighbours_checked_circle(1), vec![u(5, 4), u(4, 5), u(6, 5), u(5, 6)]);
}

#[test]
fn distances() {
    assert_eq!(u(1, 2).distance_manhattan(u(4, 0)), 5);
    assert_eq!(u(4, 0).distance_manhattan(u(1, 2)), 5);
    assert_eq!(u(1, 2).distance_chebyshev(u(4, 0)), 3);
    assert_eq!(u(0, 0).distance_manhattan(u(u32::MAX, u32::MAX)), u32::MAX);
    assert_eq!(u(0, 0).distance_chebyshev(u(u32::MAX, 7)), u32::MAX);
    assert_eq!(i(-3, 4).distance_manhattan(i(2, -1)), 10);
    assert_eq!(i(-3, 4).distance_chebyshev(i(2, -2)), 6);
    assert_eq!(i(i32::MIN, 0).distance_chebyshev(i(i32::MAX, 0)), u32::MAX);
    assert_eq!(i(i32::MIN, i32::MIN).distance_manhattan(i(i32::MAX, i32::MAX)), u32::MAX);
    assert_eq!(i(3, 3).distance_manhattan(i(3, 3)), 0);
}

#[test]
fn bounds_check() {
    assert!(u(2, 3).is_in_bounds(u(3, 4)));
    assert!(!u(3, 3).is_in_bounds(u(3, 4)));
    assert!(!u(2, 4).is_in_bounds(u(3, 4)));
    assert!(!u(0, 0).is_in_bounds(u(0, 0)));
}
