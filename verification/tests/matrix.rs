use spatial2d::{GridError, Matrix, MatrixPosIterator, UVec2};

fn counting(width: u32, height: u32) -> Matrix<u32> {
    Matrix::from_elements((0..width * height).collect(), UVec2::new(width, height)).unwrap()
}

#[test]
fn splat_fills_every_cell() {
    let grid = Matrix::splat(UVec2::new(3, 2), 7u8);
    assert_eq!(grid.size(), UVec2::new(3, 2));
    assert_eq!(grid.element_count(), 6);
    assert_eq!(grid.flat_vec(), &vec![7u8; 6]);
}

#[test]
fn new_fills_with_the_default_value() {
    let grid: Matrix<i64> = Matrix::new(UVec2::new(2, 2));
    assert_eq!(grid.into_flat_vec(), vec![0i64; 4]);
    let empty: Matrix<u8> = Matrix::new(UVec2::new(0, 5));
    assert_eq!(empty.element_count(), 0);
}

#[test]
fn from_elements_checks_the_length() {
    assert!(Matrix::from_elements(vec![1, 2, 3, 4, 5, 6], UVec2::new(3, 2)).is_ok());
    assert_eq!(
        Matrix::from_elements(vec![1, 2, 3, 4, 5], UVec2::new(3, 2)),
        Err(GridError::Construction)
    );
    assert_eq!(
        Matrix::from_elements(vec![1, 2, 3, 4, 5, 6, 7], UVec2::new(3, 2)),
        Err(GridError::Construction)
    );
    assert_eq!(
        Matrix::from_elements(Vec::<u8>::new(), UVec2::new(1 << 16, 1 << 16)),
        Err(GridError::Construction)
    );
    assert!(Matrix::from_elements(Vec::<u8>::new(), UVec2::new(0, 9)).is_ok());
}

#[test]
fn from_elements_2d_joins_the_rows_in_order() {
    let grid = Matrix::from_elements_2d(vec![vec![1, 2], vec![3, 4]]).unwrap();
    assert_eq!(grid.size(), UVec2::new(2, 2));
    assert_eq!(grid.flat_vec(), &vec![1, 2, 3, 4]);
    assert_eq!(grid.get(UVec2::new(1, 0)), Ok(&2));
    assert_eq!(grid.get(UVec2::new(0, 1)), Ok(&3));
}

#[test]
fn from_elements_2d_takes_its_size_from_row_count_and_first_row() {
    let grid = Matrix::from_elements_2d(vec![vec![1, 2, 3], vec![4, 5, 6]]).unwrap();
    assert_eq!(grid.size(), UVec2::new(2, 3));
    assert_eq!(grid.into_flat_vec(), vec![1, 2, 3, 4, 5, 6]);
}

#[test]
fn from_elements_2d_rejects_ragged_and_empty_input() {
    assert_eq!(
        Matrix::from_elements_2d(vec![vec![1, 2], vec![3]]),
        Err(GridError::Construction)
    );
    assert_eq!(
        Matrix::from_elements_2d(Vec::<Vec<u8>>::new()),
        Err(GridError::Construction)
    );
    assert!(Matrix::from_elements_2d(vec![Vec::<u8>::new(), Vec::new()]).is_ok());
}

#[test]
fn index_and_position_are_inverse() {
    let grid = counting(5, 3);
    for y in 0..3 {
        for x in 0..5 {
            let pos = UVec2::new(x, y);
            let idx = grid.pos_to_idx(pos);
            assert_eq!(idx, y * 5 + x);
            assert_eq!(grid.idx_to_pos(idx), pos);
        }
    }
    for idx in 0..15 {
        assert_eq!(grid.pos_to_idx(grid.idx_to_pos(idx)), idx);
    }
    assert_eq!(grid.idx_to_pos(7), UVec2::new(2, 1));
}

#[test]
fn bounds_are_checked_on_every_access() {
    let mut grid = counting(3, 2);
    assert!(grid.is_in_bounds(UVec2::new(2, 1)));
    assert!(!grid.is_in_bounds(UVec2::new(3, 1)));
    assert!(!grid.is_in_bounds(UVec2::new(2, 2)));
    assert!(Matrix::<u32>::is_in_bounds_multi(UVec2::new(0, 0), UVec2::new(1, 1)));
    assert!(!Matrix::<u32>::is_in_bounds_multi(UVec2::new(0, 0), UVec2::new(0, 1)));
    assert_eq!(grid.get(UVec2::new(2, 1)), Ok(&5));
    assert_eq!(grid.get(UVec2::new(3, 0)), Err(GridError::OutOfBounds));
    assert_eq!(grid.get(UVec2::new(0, 2)), Err(GridError::OutOfBounds));
    assert_eq!(grid.set(UVec2::new(3, 0), 9), Err(GridError::OutOfBounds));
    assert_eq!(grid.get_mut(UVec2::new(0, 2)), Err(GridError::OutOfBounds));
    assert_eq!(grid.flat_vec(), &vec![0, 1, 2, 3, 4, 5]);
}

#[test]
fn set_and_get_mut_write_one_cell() {
    let mut grid = counting(3, 2);
    assert_eq!(grid.set(UVec2::new(1, 1), 40), Ok(()));
    *grid.get_mut(UVec2::new(2, 0)).unwrap() += 20;
    assert_eq!(grid.flat_vec(), &vec![0, 1, 22, 3, 40, 5]);
}

#[test]
fn clone_keeps_size_and_cells() {
    let grid = counting(2, 3);
    let copy = grid.clone();
    assert_eq!(copy, grid);
    assert_eq!(copy.size(), UVec2::new(2, 3));
}

#[test]
fn iter_yields_cells_in_index_order() {
    let grid = counting(3, 2);
    let mut walk = grid.iter();
    let mut seen = Vec::new();
    while let Some(value) = walk.next() {
        seen.push(*value);
    }
    assert_eq!(seen, vec![0, 1, 2, 3, 4, 5]);
    assert_eq!(walk.next(), None);
}

#[test]
fn iter_with_pos_yields_cells_with_positions() {
    let grid = counting(2, 2);
    let mut walk = grid.iter_with_pos();
    assert_eq!(walk.next(), Some((&0, UVec2::new(0, 0))));
    assert_eq!(walk.next(), Some((&1, UVec2::new(1, 0))));
    assert_eq!(walk.next(), Some((&2, UVec2::new(0, 1))));
    assert_eq!(walk.next(), Some((&3, UVec2::new(1, 1))));
    assert_eq!(walk.next(), None);
    assert_eq!(walk.next(), None);
}

#[test]
fn pos_iterator_over_a_slice() {
    let data = [10, 11, 12, 13, 14, 15];
    let mut walk = MatrixPosIterator::new(&data, 3);
    let mut seen = Vec::new();
    while let Some((value, pos)) = walk.next() {
        seen.push((*value, pos.x, pos.y));
    }
    assert_eq!(
        seen,
        vec![(10, 0, 0), (11, 1, 0), (12, 2, 0), (13, 0, 1), (14, 1, 1), (15, 2, 1)]
    );
    let nothing: [u8; 0] = [];
    assert!(MatrixPosIterator::new(&nothing, 0).next().is_none());
}

#[test]
fn iter_mut_writes_through_to_the_grid() {
    let mut grid = counting(3, 2);
    {
        let mut walk = grid.iter_mut();
        while let Some(value) = walk.next() {
            *value *= 2;
        }
        assert!(walk.next().is_none());
    }
    assert_eq!(grid.flat_vec(), &vec![0, 2, 4, 6, 8, 10]);
}

#[test]
fn iter_with_pos_mut_writes_through_to_the_grid() {
    let mut grid = Matrix::splat(UVec2::new(3, 2), 0u32);
    {
        let mut walk = grid.iter_with_pos_mut();
        while let Some((value, pos)) = walk.next() {
            *value = pos.x * 10 + pos.y;
        }
    }
    assert_eq!(grid.into_flat_vec(), vec![0, 10, 20, 1, 11, 21]);
}
