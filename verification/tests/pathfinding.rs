use spatial2d::pathfinding::{calculate_h_cost, is_turn, move_cost, PathSearch, COST_SCALE};
use spatial2d::{Matrix, UVec2};

fn manhattan(a: UVec2, b: UVec2) -> u32 {
    a.x.abs_diff(b.x) + a.y.abs_diff(b.y)
}

fn assert_cardinal_route(path: &[UVec2], start: UVec2, target: UVec2) {
    assert_eq!(path.first(), Some(&start));
    assert_eq!(path.last(), Some(&target));
    for pair in path.windows(2) {
        assert_eq!(manhattan(pair[0], pair[1]), 1);
    }
}

fn open_speed(_: UVec2, _: UVec2, passable: &bool) -> i32 {
    if *passable {
        1000
    } else {
        0
    }
}

#[test]
fn a_star_three_by_three_without_diagonals() {
    let grid = Matrix::splat(UVec2::new(3, 3), true);
    let start = UVec2::new(0, 0);
    let target = UVec2::new(2, 2);
    let path = grid
        .a_star_search(start, target, open_speed, 0, None, None)
        .path()
        .unwrap();
    assert_eq!(path.len(), 5);
    assert_cardinal_route(&path, start, target);
    assert_eq!(manhattan(start, target), 4);
}

#[test]
fn a_star_uniform_cost_gives_manhattan_length() {
    let grid = Matrix::splat(UVec2::new(7, 5), true);
    for (start, target) in [
        (UVec2::new(0, 0), UVec2::new(6, 4)),
        (UVec2::new(6, 0), UVec2::new(0, 4)),
        (UVec2::new(3, 2), UVec2::new(3, 2)),
        (UVec2::new(5, 4), UVec2::new(1, 1)),
    ] {
        let path = grid
            .a_star_search(start, target, open_speed, 0, None, None)
            .path()
            .unwrap();
        assert_eq!(path.len() as u32, manhattan(start, target) + 1);
        assert_cardinal_route(&path, start, target);
    }
}

#[test]
fn a_star_wall_without_opening_reports_no_path() {
    let mut grid = Matrix::splat(UVec2::new(5, 5), true);
    for x in 0..5 {
        grid.set(UVec2::new(x, 2), false).unwrap();
    }
    let result = grid.a_star_search(UVec2::new(0, 0), UVec2::new(4, 4), open_speed, 0, None, None);
    assert_eq!(result, PathSearch::NoPath);
}

#[test]
fn a_star_routes_through_the_only_opening() {
    let mut grid = Matrix::splat(UVec2::new(5, 5), true);
    for x in 0..5 {
        grid.set(UVec2::new(x, 2), false).unwrap();
    }
    grid.set(UVec2::new(3, 2), true).unwrap();
    let start = UVec2::new(0, 0);
    let target = UVec2::new(0, 4);
    let path = grid
        .a_star_search(start, target, open_speed, 0, None, None)
        .path()
        .unwrap();
    assert_cardinal_route(&path, start, target);
    assert!(path.contains(&UVec2::new(3, 2)));
    for cell in &path {
        assert_eq!(grid.get(*cell), Ok(&true));
    }
}

#[test]
fn a_star_budget_below_need_reports_budget_exceeded() {
    let grid = Matrix::splat(UVec2::new(6, 6), true);
    let start = UVec2::new(0, 0);
    let target = UVec2::new(5, 5);
    let free = grid.a_star_search(start, target, open_speed, 0, None, None);
    assert!(matches!(free, PathSearch::Found(_)));
    let tight = grid.a_star_search(start, target, open_speed, 0, Some(10), None);
    assert_eq!(tight, PathSearch::BudgetExceeded);
    let none = grid.a_star_search(start, target, open_speed, 0, Some(0), None);
    assert_eq!(none, PathSearch::BudgetExceeded);
}

#[test]
fn a_star_budget_that_suffices_finds_the_route() {
    let grid = Matrix::splat(UVec2::new(4, 1), true);
    let result = grid.a_star_search(UVec2::new(0, 0), UVec2::new(3, 0), open_speed, 0, Some(4), None);
    assert_eq!(
        result,
        PathSearch::Found(vec![
            UVec2::new(0, 0),
            UVec2::new(1, 0),
            UVec2::new(2, 0),
            UVec2::new(3, 0)
        ])
    );
}

#[test]
fn a_star_start_equal_to_target() {
    let grid = Matrix::splat(UVec2::new(2, 2), true);
    let at = UVec2::new(1, 1);
    let result = grid.a_star_search(at, at, open_speed, 0, None, None);
    assert_eq!(result, PathSearch::Found(vec![at]));
}

#[test]
fn a_star_with_diagonals_takes_the_diagonal() {
    let grid = Matrix::splat(UVec2::new(4, 4), true);
    let path = grid
        .a_star_search(UVec2::new(0, 0), UVec2::new(3, 3), open_speed, 0, None, Some(COST_SCALE))
        .path()
        .unwrap();
    assert_eq!(
        path,
        vec![UVec2::new(0, 0), UVec2::new(1, 1), UVec2::new(2, 2), UVec2::new(3, 3)]
    );
}

fn turns_in(path: &[UVec2]) -> usize {
    path.windows(3)
        .filter(|w| is_turn(w[0], w[1], w[2]))
        .count()
}

fn route_cost(path: &[UVec2], turn_penalty: u64) -> u64 {
    (path.len() as u64 - 1) * 1000 + turns_in(path) as u64 * turn_penalty
}

#[test]
fn a_star_turn_penalty_prefers_straight_routes() {
    let grid = Matrix::splat(UVec2::new(6, 6), true);
    let start = UVec2::new(0, 0);
    let target = UVec2::new(5, 5);
    let free = grid
        .a_star_search(start, target, open_speed, 0, None, None)
        .path()
        .unwrap();
    let penalised = grid
        .a_star_search(start, target, open_speed, 5000, None, None)
        .path()
        .unwrap();
    assert_eq!(penalised.len(), 11);
    assert_eq!(turns_in(&penalised), 1);
    assert!(route_cost(&penalised, 5000) >= route_cost(&free, 0));
}

#[test]
fn a_star_target_outside_the_grid_is_not_reached() {
    let grid = Matrix::splat(UVec2::new(3, 3), true);
    let result = grid.a_star_search(UVec2::new(0, 0), UVec2::new(7, 7), open_speed, 0, None, None);
    assert_eq!(result, PathSearch::NoPath);
}

#[test]
fn move_cost_is_the_reciprocal_of_the_speed() {
    assert_eq!(move_cost(1000), 1000);
    assert_eq!(move_cost(2000), 500);
    assert_eq!(move_cost(500), 2000);
    assert_eq!(move_cost(3000), 333);
    assert_eq!(move_cost(1), 1_000_000);
}

#[test]
fn h_cost_is_the_octile_estimate() {
    let a = UVec2::new(1, 1);
    assert_eq!(calculate_h_cost(a, UVec2::new(4, 3), 1000), 2 * 1414 + 1000);
    assert_eq!(calculate_h_cost(UVec2::new(4, 3), a, 1000), 2 * 1414 + 1000);
    assert_eq!(calculate_h_cost(a, UVec2::new(1, 6), 1000), 5000);
    assert_eq!(calculate_h_cost(a, UVec2::new(3, 3), 2000), 2 * 2828);
    assert_eq!(calculate_h_cost(a, UVec2::new(3, 3), 1500), 4242);
    assert_eq!(calculate_h_cost(a, a, 1000), 0);
}

#[test]
fn is_turn_compares_the_two_moves() {
    let o = UVec2::new(5, 5);
    assert!(!is_turn(UVec2::new(4, 5), o, UVec2::new(6, 5)));
    assert!(is_turn(UVec2::new(4, 5), o, UVec2::new(5, 6)));
    assert!(is_turn(UVec2::new(4, 5), o, UVec2::new(4, 5)));
    assert!(!is_turn(UVec2::new(4, 4), o, UVec2::new(6, 6)));
}

fn cheapest_cost(speeds: &Matrix<i32>, start: UVec2, target: UVec2) -> Option<u128> {
    let size = speeds.size();
    let count = (size.x * size.y) as usize;
    let mut best = vec![u128::MAX; count];
    best[speeds.pos_to_idx(start) as usize] = 0;
    for _ in 0..count {
        for idx in 0..count as u32 {
            let here = best[idx as usize];
            if here == u128::MAX {
                continue;
            }
            for next in speeds.neighbours_no_diag(speeds.idx_to_pos(idx)) {
                let speed = *speeds.get(next).unwrap();
                if speed > 0 {
                    let there = here + move_cost(speed);
                    let slot = &mut best[speeds.pos_to_idx(next) as usize];
                    if there < *slot {
                        *slot = there;
                    }
                }
            }
        }
    }
    let cost = best[speeds.pos_to_idx(target) as usize];
    if cost == u128::MAX {
        None
    } else {
        Some(cost)
    }
}

#[test]
fn a_star_finds_a_cheapest_route_at_speeds_up_to_one() {
    let rows = vec![
        vec![1000, 250, 1000, 1000, 1000, 0],
        vec![1000, 250, 1000, 0, 1000, 1000],
        vec![1000, 500, 500, 0, 250, 1000],
        vec![1000, 0, 1000, 1000, 250, 1000],
        vec![1000, 1000, 1000, 250, 1000, 1000],
        vec![0, 1000, 500, 1000, 1000, 1000],
    ];
    let speeds = Matrix::from_elements_2d(rows).unwrap();
    for start_idx in 0..36 {
        for target_idx in 0..36 {
            let start = speeds.idx_to_pos(start_idx);
            let target = speeds.idx_to_pos(target_idx);
            let result = speeds.a_star_search(start, target, |_, _, speed| *speed, 0, None, None);
            match cheapest_cost(&speeds, start, target) {
                Some(cost) => {
                    let path = result.path().unwrap();
                    assert_cardinal_route(&path, start, target);
                    let paid: u128 = path[1..]
                        .iter()
                        .map(|cell| move_cost(*speeds.get(*cell).unwrap()))
                        .sum();
                    assert_eq!(paid, cost);
                }
                None => assert_eq!(result, PathSearch::NoPath),
            }
        }
    }
}
