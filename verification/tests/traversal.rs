use spatial2d::{Matrix, UVec2};

fn v(x: u32, y: u32) -> UVec2 {
    UVec2::new(x, y)
}

fn grid_from(rows: &[&str]) -> Matrix<char> {
    let height = rows.len() as u32;
    let width = rows[0].len() as u32;
    let cells: Vec<char> = rows.iter().flat_map(|row| row.chars()).collect();
    Matrix::from_elements(cells, v(width, height)).unwrap()
}

fn positions(found: &[(UVec2, &char)]) -> Vec<UVec2> {
    found.iter().map(|(pos, _)| *pos).collect()
}

fn sorted(mut cells: Vec<UVec2>) -> Vec<(u32, u32)> {
    cells.sort_by_key(|c| (c.y, c.x));
    cells.into_iter().map(|c| (c.x, c.y)).collect()
}

#[test]
fn bfs_finds_the_only_match_in_grids_of_many_sizes() {
    for (width, height) in [(1u32, 1u32), (1, 7), (6, 1), (4, 4), (9, 5)] {
        for goal_idx in 0..width * height {
            let mut grid = Matrix::splat(v(width, height), 0u32);
            let goal = grid.idx_to_pos(goal_idx);
            grid.set(goal, 1).unwrap();
            let found = grid.bfs(v(0, 0), |value, _| *value == 1);
            assert_eq!(found, Some((goal, &1)));
            let from_far = grid.bfs(v(width - 1, height - 1), |value, _| *value == 1);
            assert_eq!(from_far, Some((goal, &1)));
        }
    }
}

#[test]
fn bfs_without_match_visits_every_cell_once() {
    let grid = Matrix::splat(v(6, 4), 0u32);
    let visits = std::cell::RefCell::new(Vec::new());
    let found = grid.bfs(v(2, 1), |_, pos| {
        visits.borrow_mut().push(pos);
        false
    });
    assert_eq!(found, None);
    let visits = visits.into_inner();
    assert_eq!(visits.len(), 24);
    assert_eq!(sorted(visits), sorted(grid.positions()));
}

#[test]
fn bfs_returns_a_nearest_match() {
    let grid = grid_from(&["x....", ".....", "..s.x", ".....", "....x"]);
    let found = grid.bfs(v(2, 2), |value, _| *value == 'x');
    assert_eq!(found, Some((v(4, 2), &'x')));
}

#[test]
fn bfs_tests_the_start_first() {
    let grid = grid_from(&["xx", "xx"]);
    assert_eq!(grid.bfs(v(1, 1), |value, _| *value == 'x'), Some((v(1, 1), &'x')));
}

#[test]
fn bfs_hands_the_position_to_the_predicate() {
    let grid = Matrix::splat(v(4, 4), 0u8);
    let found = grid.bfs(v(0, 0), |_, pos| pos.x == 3 && pos.y == 2);
    assert_eq!(found, Some((v(3, 2), &0)));
}

#[test]
fn bfs_multi_returns_the_region_of_the_seed() {
    let grid = grid_from(&["##..#", "#...#", "..###", "#...."]);
    let found = grid.bfs_multi(v(0, 0), |value, _| *value == '#');
    assert_eq!(sorted(positions(&found)), vec![(0, 0), (1, 0), (0, 1)]);
    assert_eq!(found[0], (v(0, 0), &'#'));
    for (_, value) in &found {
        assert_eq!(**value, '#');
    }
    let other = grid.bfs_multi(v(4, 2), |value, _| *value == '#');
    assert_eq!(sorted(positions(&other)), vec![(4, 0), (4, 1), (2, 2), (3, 2), (4, 2)]);
}

#[test]
fn bfs_multi_is_empty_when_the_seed_does_not_match() {
    let grid = grid_from(&["##..#", "#...#", "..###", "#...."]);
    let found = grid.bfs_multi(v(2, 0), |value, _| *value == '#');
    assert!(found.is_empty());
    let found = grid.bfs_multi_with_diag(v(2, 0), |value, _| *value == '#');
    assert!(found.is_empty());
}

#[test]
fn bfs_multi_tests_the_neighbours_of_matches_only() {
    let grid = grid_from(&["#.#", "...", "#.#"]);
    let visits = std::cell::RefCell::new(Vec::new());
    let found = grid.bfs_multi(v(0, 0), |value, pos| {
        visits.borrow_mut().push(pos);
        *value == '#'
    });
    assert_eq!(positions(&found), vec![v(0, 0)]);
    assert_eq!(sorted(visits.into_inner()), vec![(0, 0), (1, 0), (0, 1)]);
}

#[test]
fn bfs_multi_lists_each_cell_once_in_dequeue_order() {
    let grid = Matrix::splat(v(3, 3), '#');
    let found = grid.bfs_multi(v(1, 1), |value, _| *value == '#');
    assert_eq!(
        positions(&found),
        vec![
            v(1, 1),
            v(1, 0),
            v(0, 1),
            v(2, 1),
            v(1, 2),
            v(0, 0),
            v(2, 0),
            v(0, 2),
            v(2, 2)
        ]
    );
}

#[test]
fn bfs_multi_with_diag_crosses_diagonals() {
    let grid = grid_from(&["#..", ".#.", "..#"]);
    let cardinal = grid.bfs_multi(v(0, 0), |value, _| *value == '#');
    assert_eq!(positions(&cardinal), vec![v(0, 0)]);
    let diagonal = grid.bfs_multi_with_diag(v(0, 0), |value, _| *value == '#');
    assert_eq!(positions(&diagonal), vec![v(0, 0), v(1, 1), v(2, 2)]);
}

#[test]
fn bfs_multi_with_diag_on_a_full_grid_lists_every_cell() {
    let grid = Matrix::splat(v(5, 4), 1u8);
    let found = grid.bfs_multi_with_diag(v(4, 3), |value, _| *value == 1);
    let cells: Vec<UVec2> = found.iter().map(|(pos, _)| *pos).collect();
    assert_eq!(cells.len(), 20);
    assert_eq!(sorted(cells), sorted(grid.positions()));
}
