use spatial2d::neighbours::wrap_coordinate;
use spatial2d::{Direction, Matrix, UVec2};

fn v(x: u32, y: u32) -> UVec2 {
    UVec2::new(x, y)
}

#[test]
fn cardinal_neighbours_in_order_north_west_east_south() {
    let grid = Matrix::splat(v(5, 5), 0u8);
    assert_eq!(grid.neighbours_no_diag(v(2, 2)), vec![v(2, 1), v(1, 2), v(3, 2), v(2, 3)]);
}

#[test]
fn cardinal_neighbour_count_is_two_three_or_four() {
    let grid = Matrix::splat(v(4, 3), 0u8);
    for y in 0..3 {
        for x in 0..4 {
            let on_x_edge = x == 0 || x == 3;
            let on_y_edge = y == 0 || y == 2;
            let expected = 4 - on_x_edge as usize - on_y_edge as usize;
            let around = grid.neighbours_no_diag(v(x, y));
            assert_eq!(around.len(), expected);
            for n in around {
                assert!(grid.is_in_bounds(n));
                assert_eq!(n.x.abs_diff(x) + n.y.abs_diff(y), 1);
            }
        }
    }
    assert_eq!(grid.neighbours_no_diag(v(0, 0)), vec![v(1, 0), v(0, 1)]);
    assert_eq!(grid.neighbours_no_diag(v(3, 2)), vec![v(3, 1), v(2, 2)]);
    assert_eq!(grid.neighbours_no_diag(v(0, 1)), vec![v(0, 0), v(1, 1), v(0, 2)]);
}

#[test]
fn cardinal_neighbours_of_a_single_cell_grid_are_none() {
    let grid = Matrix::splat(v(1, 1), 0u8);
    assert!(grid.neighbours_no_diag(v(0, 0)).is_empty());
    assert!(grid.neighbours(v(0, 0)).is_empty());
    assert!(grid.neighbours_diag_only(v(0, 0)).is_empty());
}

#[test]
fn full_neighbours_in_reading_order() {
    let grid = Matrix::splat(v(5, 5), 0u8);
    assert_eq!(
        grid.neighbours(v(2, 2)),
        vec![v(1, 1), v(2, 1), v(3, 1), v(1, 2), v(3, 2), v(1, 3), v(2, 3), v(3, 3)]
    );
    assert_eq!(grid.neighbours(v(0, 0)), vec![v(1, 0), v(0, 1), v(1, 1)]);
    assert_eq!(grid.neighbours(v(4, 4)), vec![v(3, 3), v(4, 3), v(3, 4)]);
    assert_eq!(
        grid.neighbours(v(4, 2)),
        vec![v(3, 1), v(4, 1), v(3, 2), v(3, 3), v(4, 3)]
    );
}

#[test]
fn full_neighbours_hold_the_cardinal_ones() {
    let grid = Matrix::splat(v(4, 3), 0u8);
    for y in 0..3 {
        for x in 0..4 {
            let all = grid.neighbours(v(x, y));
            for n in grid.neighbours_no_diag(v(x, y)) {
                assert!(all.contains(&n));
            }
            for n in grid.neighbours_diag_only(v(x, y)) {
                assert!(all.contains(&n));
            }
        }
    }
}

#[test]
fn diagonal_neighbours_in_order() {
    let grid = Matrix::splat(v(5, 5), 0u8);
    assert_eq!(grid.neighbours_diag_only(v(2, 2)), vec![v(1, 1), v(3, 1), v(1, 3), v(3, 3)]);
    assert_eq!(grid.neighbours_diag_only(v(0, 2)), vec![v(1, 1), v(1, 3)]);
    assert_eq!(grid.neighbours_diag_only(v(4, 0)), vec![v(3, 1)]);
}

#[test]
fn neighbours_of_a_position_outside_the_grid_stay_in_bounds() {
    let grid = Matrix::splat(v(3, 3), 0u8);
    assert_eq!(grid.neighbours_no_diag(v(3, 1)), vec![v(2, 1)]);
    assert_eq!(grid.neighbours_no_diag(v(1, 3)), vec![v(1, 2)]);
    assert!(grid.neighbours_no_diag(v(9, 9)).is_empty());
    assert_eq!(grid.neighbours(v(3, 1)), vec![v(2, 1)]);
    assert!(grid.neighbours_diag_only(v(3, 3)).is_empty());
}

#[test]
fn radius_neighbours_are_the_block_without_the_centre() {
    let grid = Matrix::splat(v(5, 5), 0u8);
    assert_eq!(
        grid.neighbours_radius(v(2, 2), 1),
        vec![v(1, 1), v(2, 1), v(3, 1), v(1, 2), v(3, 2), v(1, 3), v(2, 3), v(3, 3)]
    );
    assert_eq!(grid.neighbours_radius(v(2, 2), 2).len(), 24);
    assert_eq!(grid.neighbours_radius(v(2, 2), 100).len(), 24);
    assert!(grid.neighbours_radius(v(2, 2), 0).is_empty());
}

#[test]
fn radius_neighbours_are_clipped_at_the_edges() {
    let grid = Matrix::splat(v(4, 3), 0u8);
    assert_eq!(grid.neighbours_radius(v(0, 0), 1), vec![v(1, 0), v(0, 1), v(1, 1)]);
    assert_eq!(
        grid.neighbours_radius(v(3, 2), 2),
        vec![v(1, 0), v(2, 0), v(3, 0), v(1, 1), v(2, 1), v(3, 1), v(1, 2), v(2, 2)]
    );
    assert_eq!(grid.neighbours_radius(v(5, 1), 2), vec![v(3, 0), v(3, 1), v(3, 2)]);
    assert_eq!(grid.neighbours_radius(v(0, 0), u32::MAX).len(), 11);
}

#[test]
fn wrapping_neighbours_wrap_at_the_edges() {
    let grid = Matrix::splat(v(4, 4), 0u8);
    assert_eq!(
        grid.neighbours_wrapping(v(0, 0)),
        vec![v(0, 3), v(0, 1), v(3, 0), v(1, 0), v(3, 3), v(1, 3), v(3, 1), v(1, 1)]
    );
    assert_eq!(
        grid.neighbours_no_diag_wrapping(v(3, 3)),
        vec![v(3, 2), v(3, 0), v(2, 3), v(0, 3)]
    );
    assert_eq!(
        grid.neighbours_diag_only_wrapping(v(3, 0)),
        vec![v(2, 3), v(0, 3), v(2, 1), v(0, 1)]
    );
}

#[test]
fn wrapping_uses_the_larger_side_on_both_axes() {
    let grid = Matrix::splat(v(5, 2), 0u8);
    assert_eq!(
        grid.neighbours_no_diag_wrapping(v(0, 0)),
        vec![v(0, 4), v(0, 1), v(4, 0), v(1, 0)]
    );
    assert_eq!(
        grid.neighbours_no_diag_wrapping(v(4, 1)),
        vec![v(4, 0), v(4, 2), v(3, 1), v(0, 1)]
    );
}

#[test]
fn wrap_coordinate_is_the_remainder() {
    assert_eq!(wrap_coordinate(0, -1, 32), 31);
    assert_eq!(wrap_coordinate(31, 1, 32), 0);
    assert_eq!(wrap_coordinate(5, 0, 32), 5);
    assert_eq!(wrap_coordinate(40, 1, 32), 9);
    assert_eq!(wrap_coordinate(u32::MAX, 1, 10), 6);
    assert_eq!(wrap_coordinate(0, -1, 1), 0);
}

#[test]
fn valid_dirs_lists_the_open_cardinal_directions() {
    let grid = Matrix::splat(v(3, 3), 0u8);
    assert_eq!(
        grid.valid_dirs(v(1, 1)),
        vec![Direction::North, Direction::West, Direction::East, Direction::South]
    );
    assert_eq!(grid.valid_dirs(v(0, 0)), vec![Direction::East, Direction::South]);
    assert_eq!(grid.valid_dirs(v(2, 2)), vec![Direction::North, Direction::West]);
    assert_eq!(
        grid.valid_dirs(v(2, 1)),
        vec![Direction::North, Direction::West, Direction::South]
    );
}
