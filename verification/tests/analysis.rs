use spatial2d::{Matrix, UVec2};

fn v(x: u32, y: u32) -> UVec2 {
    UVec2::new(x, y)
}

fn sample() -> Matrix<u32> {
    Matrix::from_elements(vec![4, 9, 2, 9, 1, 7, 1, 3], v(4, 2)).unwrap()
}

#[test]
fn positions_are_listed_row_by_row() {
    let grid = Matrix::splat(v(3, 2), 0u8);
    assert_eq!(
        grid.positions(),
        vec![v(0, 0), v(1, 0), v(2, 0), v(0, 1), v(1, 1), v(2, 1)]
    );
    assert!(Matrix::splat(v(0, 3), 0u8).positions().is_empty());
}

#[test]
fn center_pos_halves_the_size() {
    assert_eq!(Matrix::splat(v(5, 3), 0u8).get_center_pos(), v(2, 1));
    assert_eq!(Matrix::splat(v(7, 8), 0u8).get_center_pos(), v(3, 4));
    assert_eq!(Matrix::splat(v(1, 1), 0u8).get_center_pos(), v(0, 0));
}

#[test]
fn max_value_is_the_last_of_the_greatest() {
    assert_eq!(sample().max_value(), (&9, v(3, 0)));
    assert_eq!(Matrix::splat(v(2, 2), 5u8).max_value(), (&5, v(1, 1)));
}

#[test]
fn min_value_is_the_first_of_the_least() {
    assert_eq!(sample().min_value(), (&1, v(0, 1)));
    assert_eq!(Matrix::splat(v(2, 2), 5u8).min_value(), (&5, v(0, 0)));
}

#[test]
fn mean_value_is_the_sum_over_the_count() {
    assert_eq!(sample().mean_value(), 4);
    assert_eq!(Matrix::splat(v(3, 3), u32::MAX).mean_value(), u32::MAX);
    assert_eq!(Matrix::from_elements(vec![1u32, 2], v(2, 1)).unwrap().mean_value(), 1);
}

#[test]
fn count_matches_counts_the_cells_that_match() {
    let grid = sample();
    assert_eq!(grid.count_matches(|value, _| *value == 9), 2);
    assert_eq!(grid.count_matches(|value, _| *value > 100), 0);
    assert_eq!(grid.count_matches(|_, pos| pos.y == 1), 4);
    assert_eq!(grid.count_matches(|_, _| true), 8);
}

#[test]
fn extract_values_keeps_the_order() {
    let grid = sample();
    assert_eq!(grid.extract_values(|value| *value % 2 == 1), vec![&9, &9, &1, &7, &1, &3]);
    assert!(grid.extract_values(|_| false).is_empty());
}

#[test]
fn extract_positions_keeps_the_order() {
    let grid = sample();
    assert_eq!(grid.extract_positions(|value, _| *value == 1), vec![v(0, 1), v(2, 1)]);
    assert_eq!(
        grid.extract_positions(|_, pos| pos.x == 3),
        vec![v(3, 0), v(3, 1)]
    );
}

#[test]
fn extract_values_and_positions_pairs_them() {
    let grid = sample();
    assert_eq!(
        grid.extract_values_and_positions(|value, pos| *value == 9 || pos == v(1, 1)),
        vec![(&9, v(1, 0)), (&9, v(3, 0)), (&7, v(1, 1))]
    );
}

#[test]
fn map_applies_the_function_to_every_cell() {
    let grid = sample();
    let doubled = grid.map(|value| u64::from(*value) * 2);
    assert_eq!(doubled.size(), v(4, 2));
    assert_eq!(doubled.into_flat_vec(), vec![8u64, 18, 4, 18, 2, 14, 2, 6]);
}

#[test]
fn map_with_pos_hands_over_the_position() {
    let grid = Matrix::splat(v(3, 2), 100u32);
    let mapped = grid.map_with_pos(|value, pos| *value + pos.x * 10 + pos.y);
    assert_eq!(mapped.into_flat_vec(), vec![100, 110, 120, 101, 111, 121]);
}
