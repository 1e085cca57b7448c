//! Weighted shortest-path search (A*) over a grid, with a turn penalty, an
//! optional expansion budget and optional diagonal moves.
//!
//! Speeds, costs, the turn penalty and the diagonal multiplier are fixed-point
//! numbers in thousandths: `COST_SCALE` stands for 1.0.

use vstd::prelude::*;
use crate::frontier::{frontier_entries, frontier_new, frontier_pop, frontier_push, Frontier};
use crate::matrix::{
    in_bounds, index_of, lemma_index_in_range, lemma_index_roundtrip,
    lemma_position_in_bounds, Matrix,
};
use crate::neighbours::{lemma_all_neighbours_members, lemma_cardinal_neighbours_members};
use crate::optimality::{
    deterministic, inv_tame, is_cheapest, lemma_linked_route_cost, lemma_observed_speed,
    lemma_popped_is_cheapest, lemma_tame_close, lemma_tame_initial, lemma_tame_relax, multiplier_of,
    route_cost, step_cost, tame, tm_edge, tm_offered,
};
use crate::search_state::{
    covered, has_link, inv_cost, inv_links, inv_open, inv_shape, lemma_close,
    lemma_distinct_cells_bounded, lemma_initial_state, lemma_order_facts, lemma_order_is_expansion,
    lemma_relax, lemma_sure_route_reached, search_inv, step_bound,
};
use crate::traversal::adjacent;
use crate::vec2::UVec2;

verus! {

/// The fixed-point unit: the integer that stands for 1.0.
pub const COST_SCALE: u32 = 1000;

/// The square root of two in fixed point, rounded down.
pub const SQRT_2_SCALED: u32 = 1414;

/// How a shortest-path search ended.
#[derive(Debug, Clone, PartialEq, Eq)]
pub enum PathSearch {
    /// The target was dequeued: the cells from start to target, both included.
    Found(Vec<UVec2>),
    /// The frontier ran empty before the target was dequeued.
    NoPath,
    /// More cells would have had to be expanded than the budget allows.
    BudgetExceeded,
}

impl PathSearch {
    /// The route, when one was found.
    pub fn path(self) -> (p: Option<Vec<UVec2>>)
        ensures
            p == match self {
                PathSearch::Found(cells) => Some(cells),
                _ => None::<Vec<UVec2>>,
            },
    {
        match self {
            PathSearch::Found(cells) => Some(cells),
            _ => None,
        }
    }
}

/// The cost of a move at the given speed: the reciprocal of the speed.
pub open spec fn move_cost_of(speed: i32) -> int
    recommends
        speed > 0,
{
    (COST_SCALE * COST_SCALE) / (speed as int)
}

/// The distance between two coordinates.
pub open spec fn gap(a: u32, b: u32) -> int {
    if a >= b {
        a - b
    } else {
        b - a
    }
}

/// The octile estimate of the remaining cost from `from` to `target`: the
/// shorter of the two coordinate gaps travelled diagonally, at the square
/// root of two times the multiplier apiece, and the rest travelled straight.
pub open spec fn octile_estimate(from: UVec2, target: UVec2, diag_multiplier: u32) -> int {
    let dx = gap(from.x, target.x);
    let dy = gap(from.y, target.y);
    let short = if dx > dy { dy } else { dx };
    let long = if dx > dy { dx } else { dy };
    (short * SQRT_2_SCALED * diag_multiplier) / (COST_SCALE as int) + (long - short) * COST_SCALE
}

/// Whether the move from `current` to `next` goes another way than the move
/// from `previous` to `current` did.
pub open spec fn turns(previous: UVec2, current: UVec2, next: UVec2) -> bool {
    current.x - previous.x != next.x - current.x || current.y - previous.y != next.y - current.y
}

/// The cost of a move at a passable speed.
pub fn move_cost(speed: i32) -> (cost: u128)
    requires
        speed > 0,
    ensures
        cost == move_cost_of(speed),
        cost <= COST_SCALE * COST_SCALE,
{
    let unit: u128 = (COST_SCALE as u128) * (COST_SCALE as u128);
    assert(0 <= 1_000_000int / (speed as int) <= 1_000_000) by (nonlinear_arith)
        requires
            speed > 0,
    ;
    unit / (speed as u128)
}

/// The octile estimate of the remaining cost between two positions.
pub fn calculate_h_cost(start_pos: UVec2, target_pos: UVec2, diag_speed_multiplier: u32) -> (h:
    u128)
    ensures
        h == octile_estimate(start_pos, target_pos, diag_speed_multiplier),
        h <= 0xffff_ffff_ffff_ffff_ffff,
{
    let dist_x: u128 = if start_pos.x >= target_pos.x {
        (start_pos.x - target_pos.x) as u128
    } else {
        (target_pos.x - start_pos.x) as u128
    };
    let dist_y: u128 = if start_pos.y >= target_pos.y {
        (start_pos.y - target_pos.y) as u128
    } else {
        (target_pos.y - start_pos.y) as u128
    };
    let short: u128 = if dist_x > dist_y { dist_y } else { dist_x };
    let long: u128 = if dist_x > dist_y { dist_x } else { dist_y };
    assert(0 <= short * 1414 * diag_speed_multiplier <= 0xffff_ffff * 1414 * 0xffff_ffff)
        by (nonlinear_arith)
        requires
            0 <= short <= 0xffff_ffff,
            0 <= diag_speed_multiplier <= 0xffff_ffff,
    ;
    let root: u128 = SQRT_2_SCALED as u128;
    let unit: u128 = COST_SCALE as u128;
    let diagonal: u128 = short * root * (diag_speed_multiplier as u128) / unit;
    let straight: u128 = (long - short) * unit;
    diagonal + straight
}

/// Whether moving from `previous` to `current` and on to `next` changes
/// direction.
pub fn is_turn(previous: UVec2, current: UVec2, next: UVec2) -> (turn: bool)
    ensures
        turn == turns(previous, current, next),
{
    let before_x = current.x as i64 - previous.x as i64;
    let before_y = current.y as i64 - previous.y as i64;
    let after_x = next.x as i64 - current.x as i64;
    let after_y = next.y as i64 - current.y as i64;
    before_x != after_x || before_y != after_y
}

/// Whether the speed function may be called on every move between two
/// cells of the grid.
pub open spec fn speed_callable<T, F: Fn(UVec2, UVec2, &T) -> i32>(grid: &Matrix<T>, f: F) -> bool {
    forall|a: UVec2, b: UVec2|
        in_bounds(a, grid.spec_size()) && in_bounds(b, grid.spec_size()) ==> call_requires(
            f,
            (a, b, &grid.at(b)),
        )
}

/// Whether the speed function can give the move from `a` to `b` a passable
/// speed, one above zero.
pub open spec fn may_pass<T, F: Fn(UVec2, UVec2, &T) -> i32>(
    grid: &Matrix<T>,
    f: F,
    a: UVec2,
    b: UVec2,
) -> bool {
    exists|speed: i32| speed > 0 && #[trigger] call_ensures(f, (a, b, &grid.at(b)), speed)
}

/// Whether every speed that the speed function can give the move from `a` to
/// `b` is passable.
pub open spec fn must_pass<T, F: Fn(UVec2, UVec2, &T) -> i32>(
    grid: &Matrix<T>,
    f: F,
    a: UVec2,
    b: UVec2,
) -> bool {
    forall|speed: i32| #[trigger] call_ensures(f, (a, b, &grid.at(b)), speed) ==> speed > 0
}

/// A move between adjacent cells of the grid that can be passable.
pub open spec fn legal_move<T, F: Fn(UVec2, UVec2, &T) -> i32>(
    grid: &Matrix<T>,
    f: F,
    a: UVec2,
    b: UVec2,
    diagonal: bool,
) -> bool {
    &&& in_bounds(a, grid.spec_size())
    &&& in_bounds(b, grid.spec_size())
    &&& adjacent(a, b, diagonal)
    &&& may_pass(grid, f, a, b)
}

/// A move between adjacent cells of the grid that is certainly passable.
pub open spec fn sure_move<T, F: Fn(UVec2, UVec2, &T) -> i32>(
    grid: &Matrix<T>,
    f: F,
    a: UVec2,
    b: UVec2,
    diagonal: bool,
) -> bool {
    &&& in_bounds(a, grid.spec_size())
    &&& in_bounds(b, grid.spec_size())
    &&& adjacent(a, b, diagonal)
    &&& must_pass(grid, f, a, b)
}

/// Whether `route` leads from `start` to `target` by legal moves.
pub open spec fn is_route<T, F: Fn(UVec2, UVec2, &T) -> i32>(
    grid: &Matrix<T>,
    f: F,
    route: Seq<UVec2>,
    start: UVec2,
    target: UVec2,
    diagonal: bool,
) -> bool {
    &&& route.len() >= 1
    &&& route[0] == start
    &&& route[route.len() - 1] == target
    &&& in_bounds(start, grid.spec_size())
    &&& forall|i: int|
        0 <= i < route.len() - 1 ==> legal_move(grid, f, #[trigger] route[i], route[i + 1], diagonal)
}

/// Whether `route` leads from `start` to `target` by moves that are certainly
/// passable.
pub open spec fn is_sure_route<T, F: Fn(UVec2, UVec2, &T) -> i32>(
    grid: &Matrix<T>,
    f: F,
    route: Seq<UVec2>,
    start: UVec2,
    target: UVec2,
    diagonal: bool,
) -> bool {
    &&& route.len() >= 1
    &&& route[0] == start
    &&& route[route.len() - 1] == target
    &&& in_bounds(start, grid.spec_size())
    &&& forall|i: int|
        0 <= i < route.len() - 1 ==> sure_move(grid, f, #[trigger] route[i], route[i + 1], diagonal)
}

/// Whether `cells` can be the cells that a search from `start` expanded, in
/// order: none is the target or listed twice, the first is `start`, and each
/// later one is entered by a legal move from an earlier one.
pub open spec fn is_expansion<T, F: Fn(UVec2, UVec2, &T) -> i32>(
    grid: &Matrix<T>,
    f: F,
    cells: Seq<UVec2>,
    start: UVec2,
    target: UVec2,
    diagonal: bool,
) -> bool {
    &&& cells.no_duplicates()
    &&& forall|i: int|
        0 <= i < cells.len() ==> in_bounds(#[trigger] cells[i], grid.spec_size()) && cells[i]
            != target
    &&& cells.len() > 0 ==> cells[0] == start
    &&& forall|i: int|
        0 < i < cells.len() ==> exists|j: int|
            0 <= j < i && legal_move(grid, f, #[trigger] cells[j], #[trigger] cells[i], diagonal)
}

/// What a search returns. A found route is a route from start to target that
/// visits no cell twice and is no longer than the budget. `NoPath` means that
/// no route of certainly passable moves exists. `BudgetExceeded` means that
/// as many cells as the budget allows were expanded without reaching the
/// target.
pub open spec fn search_outcome<T, F: Fn(UVec2, UVec2, &T) -> i32>(
    grid: &Matrix<T>,
    f: F,
    start: UVec2,
    target: UVec2,
    budget: Option<u32>,
    diagonal: bool,
    result: PathSearch,
) -> bool {
    match result {
        PathSearch::Found(route) => {
            &&& is_route(grid, f, route@, start, target, diagonal)
            &&& route@.no_duplicates()
            &&& budget matches Some(limit) ==> route@.len() <= limit
        },
        PathSearch::NoPath => forall|route: Seq<UVec2>|
            !#[trigger] is_sure_route(grid, f, route, start, target, diagonal),
        PathSearch::BudgetExceeded => {
            &&& budget matches Some(limit) && exists|cells: Seq<UVec2>|
                cells.len() == limit && #[trigger] is_expansion(
                    grid,
                    f,
                    cells,
                    start,
                    target,
                    diagonal,
                )
        },
    }
}

/// What `a_star_search` returns: the outcome of the search, and a cheapest
/// route where the search finds one under the conditions that make it find
/// a cheapest one.
pub open spec fn a_star_outcome<T, F: Fn(UVec2, UVec2, &T) -> i32>(
    grid: &Matrix<T>,
    f: F,
    start: UVec2,
    target: UVec2,
    turn_penalty: u32,
    budget: Option<u32>,
    diag_cost_multiplier: Option<u32>,
    result: PathSearch,
) -> bool {
    &&& search_outcome(grid, f, start, target, budget, diag_cost_multiplier is Some, result)
    &&& tame(
        grid,
        f,
        target,
        turn_penalty,
        multiplier_of(diag_cost_multiplier),
        diag_cost_multiplier is Some,
    ) ==> (result matches PathSearch::Found(route) ==> is_cheapest(
        grid,
        f,
        route@,
        start,
        target,
        diag_cost_multiplier is Some,
    ))
}

/// The predecessor recorded for a cell that has none.
pub open spec fn no_predecessor() -> UVec2 {
    UVec2 { x: u32::MAX, y: u32::MAX }
}

/// The sentinel that stands for "no predecessor".
fn unset() -> (p: UVec2)
    ensures
        p == no_predecessor(),
{
    UVec2 { x: u32::MAX, y: u32::MAX }
}

impl<T> Matrix<T> {
    /// The route that the predecessor links describe, from the start to
    /// `current`.
    fn retrace_path<F: Fn(UVec2, UVec2, &T) -> i32>(
        &self,
        came_from: &Vec<UVec2>,
        current: UVec2,
        move_speed_fn: &F,
        Ghost(start): Ghost<UVec2>,
        Ghost(target): Ghost<UVec2>,
        Ghost(diagonal): Ghost<bool>,
        Ghost(g_costs): Ghost<Seq<u128>>,
        Ghost(closed): Ghost<Seq<bool>>,
        Ghost(open): Ghost<Map<u32, u128>>,
        Ghost(order): Ghost<Seq<UVec2>>,
    ) -> (path: Vec<UVec2>)
        requires
            search_inv(self, *move_speed_fn, start, target, diagonal, came_from@, g_costs, closed, open, order),
            in_bounds(current, self.spec_size()),
            g_costs[index_of(current, self.spec_size())] < u128::MAX,
            !closed[index_of(current, self.spec_size())],
        ensures
            is_route(self, *move_speed_fn, path@, start, current, diagonal),
            path@.no_duplicates(),
            path@.len() <= order.len() + 1,
            forall|i: int|
                0 <= i < path@.len() ==> in_bounds(#[trigger] path@[i], self.spec_size())
                    && g_costs[index_of(path@[i], self.spec_size())] < u128::MAX,
            forall|i: int|
                0 <= i < path@.len() - 1 ==> came_from@[index_of(
                    #[trigger] path@[i + 1],
                    self.spec_size(),
                )] == path@[i],
    {
        let ghost size = self.spec_size();
        let ghost f = *move_speed_fn;
        let mut reversed: Vec<UVec2> = Vec::new();
        reversed.push(current);
        let mut cell = current;
        let mut cell_idx = self.pos_to_idx(cell) as usize;
        let ghost mut rank: int = order.len() as int;
        let ghost mut ranks: Seq<int> = seq![order.len() as int];
        let none = unset();
        proof {
            lemma_order_facts(size, start, target, closed, order);
        }
        while came_from[cell_idx] != none
            invariant
                inv_shape(size, start, came_from@, g_costs, closed),
                inv_links(self, f, start, diagonal, came_from@, g_costs, order),
                inv_open(size, g_costs, closed, open),
                order.no_duplicates(),
                forall|i: int|
                    0 <= i < order.len() ==> in_bounds(#[trigger] order[i], size)
                        && closed[index_of(order[i], size)],
                size == self.spec_size(),
                none == no_predecessor(),
                in_bounds(current, size),
                !order.contains(current),
                in_bounds(cell, size),
                cell_idx == index_of(cell, size),
                cell_idx < size.area(),
                g_costs[cell_idx as int] < u128::MAX,
                reversed@.len() >= 1,
                reversed@.len() == ranks.len(),
                reversed@[0] == current,
                reversed@[reversed@.len() - 1] == cell,
                ranks[0] == order.len(),
                ranks[ranks.len() - 1] == rank,
                0 <= rank <= order.len(),
                rank + ranks.len() <= order.len() + 1,
                forall|k: int| 1 <= k < ranks.len() ==> 0 <= #[trigger] ranks[k] < order.len(),
                forall|k: int|
                    1 <= k < reversed@.len() ==> #[trigger] reversed@[k] == order[ranks[k]],
                forall|k: int, m: int|
                    0 <= k < m < ranks.len() ==> #[trigger] ranks[k] > #[trigger] ranks[m],
                forall|k: int|
                    0 <= k < reversed@.len() - 1 ==> legal_move(
                        self,
                        f,
                        #[trigger] reversed@[k + 1],
                        reversed@[k],
                        diagonal,
                    ),
                forall|k: int|
                    0 <= k < reversed@.len() ==> in_bounds(#[trigger] reversed@[k], size)
                        && g_costs[index_of(reversed@[k], size)] < u128::MAX,
                forall|k: int|
                    0 <= k < reversed@.len() - 1 ==> came_from@[index_of(
                        #[trigger] reversed@[k],
                        size,
                    )] == reversed@[k + 1],
            decreases rank,
        {
            proof {
                assert(cell != start);
                assert(has_link(self, f, diagonal, came_from@, order, cell)) by {
                    reveal(inv_links);
                }
                let j = choose|j: int|
                    0 <= j < order.len() && #[trigger] order[j] == came_from@[index_of(cell, size)]
                        && legal_move(self, f, order[j], cell, diagonal) && forall|i: int|
                        0 <= i < order.len() && #[trigger] order[i] == cell ==> j < i;
                if reversed@.len() > 1 {
                    assert(order[rank] == cell);
                }
                assert(j < rank);
                rank = j;
                ranks = ranks.push(j);
                assert(closed[index_of(order[j], size)]);
                assert(g_costs[index_of(order[j], size)] < u128::MAX) by {
                    reveal(inv_open);
                }
            }
            cell = came_from[cell_idx];
            cell_idx = self.pos_to_idx(cell) as usize;
            reversed.push(cell);
        }
        proof {
            if cell != start {
                assert(has_link(self, f, diagonal, came_from@, order, cell)) by {
                    reveal(inv_links);
                }
            }
            assert forall|k: int, m: int| 0 <= k < m < reversed@.len() implies reversed@[k]
                != reversed@[m] by {
                assert(ranks[k] > ranks[m]);
                if k == 0 {
                    assert(order.contains(order[ranks[m]]));
                }
            }
        }
        let mut path: Vec<UVec2> = Vec::new();
        let mut remaining = reversed.len();
        while remaining > 0
            invariant
                0 <= remaining <= reversed@.len(),
                path@.len() == reversed@.len() - remaining,
                forall|k: int|
                    0 <= k < path@.len() ==> #[trigger] path@[k] == reversed@[reversed@.len() - 1 - k],
            decreases remaining,
        {
            remaining -= 1;
            path.push(reversed[remaining]);
        }
        proof {
            let n = reversed@.len() as int;
            assert forall|i: int| 0 <= i < path@.len() - 1 implies legal_move(
                self,
                f,
                #[trigger] path@[i],
                path@[i + 1],
                diagonal,
            ) by {
                let k = n - 2 - i;
                assert(reversed@[k + 1] == path@[i]);
                assert(reversed@[k] == path@[i + 1]);
            }
            assert forall|a: int, b: int| 0 <= a < b < path@.len() implies path@[a] != path@[b] by {
                assert(reversed@[n - 1 - b] != reversed@[n - 1 - a]);
            }
            assert forall|i: int| 0 <= i < path@.len() - 1 implies came_from@[index_of(
                #[trigger] path@[i + 1],
                size,
            )] == path@[i] by {
                let k = n - 2 - i;
                assert(reversed@[k] == path@[i + 1]);
                assert(reversed@[k + 1] == path@[i]);
            }
            assert forall|i: int| 0 <= i < path@.len() implies in_bounds(#[trigger] path@[i], size)
                && g_costs[index_of(path@[i], size)] < u128::MAX by {
                assert(reversed@[n - 1 - i] == path@[i]);
            }
        }
        path
    }

    /// Offers `neighbour` the route through `current`: when the move is
    /// passable and the route is cheaper than the best known one, the
    /// neighbour's predecessor and cost are replaced and it is queued under
    /// its new estimated total cost.
    fn relax<F: Fn(UVec2, UVec2, &T) -> i32>(
        &self,
        current: UVec2,
        neighbour: UVec2,
        target: UVec2,
        move_speed_fn: &F,
        turn_penalty: u32,
        diag_multiplier: u32,
        came_from: &mut Vec<UVec2>,
        g_costs: &mut Vec<u128>,
        closed: &Vec<bool>,
        open: &mut Frontier,
        Ghost(start): Ghost<UVec2>,
        Ghost(diagonal): Ghost<bool>,
        Ghost(order): Ghost<Seq<UVec2>>,
        Ghost(tamed): Ghost<bool>,
    )
        requires
            speed_callable(self, *move_speed_fn),
            tamed ==> deterministic(self, *move_speed_fn) && turn_penalty == 0 && inv_tame(
                self,
                *move_speed_fn,
                start,
                target,
                diag_multiplier,
                diagonal,
                old(came_from)@,
                old(g_costs)@,
                closed@,
                frontier_entries(*old(open)),
                order,
            ),
            search_inv(
                self,
                *move_speed_fn,
                start,
                target,
                diagonal,
                old(came_from)@,
                old(g_costs)@,
                closed@,
                frontier_entries(*old(open)),
                order,
            ),
            order.len() >= 1,
            order[order.len() - 1] == current,
            in_bounds(neighbour, self.spec_size()),
            adjacent(current, neighbour, diagonal),
            !closed@[index_of(neighbour, self.spec_size())],
        ensures
            search_inv(
                self,
                *move_speed_fn,
                start,
                target,
                diagonal,
                final(came_from)@,
                final(g_costs)@,
                closed@,
                frontier_entries(*final(open)),
                order,
            ),
            must_pass(self, *move_speed_fn, current, neighbour) ==> final(g_costs)@[index_of(
                neighbour,
                self.spec_size(),
            )] < u128::MAX,
            forall|k: int|
                0 <= k < old(g_costs)@.len() && old(g_costs)@[k] < u128::MAX
                    ==> #[trigger] final(g_costs)@[k] < u128::MAX,
            tamed ==> inv_tame(
                self,
                *move_speed_fn,
                start,
                target,
                diag_multiplier,
                diagonal,
                final(came_from)@,
                final(g_costs)@,
                closed@,
                frontier_entries(*final(open)),
                order,
            ),
            tamed ==> tm_edge(
                self,
                *move_speed_fn,
                diagonal,
                final(g_costs)@,
                closed@,
                current,
                neighbour,
            ),
            tamed ==> forall|w: UVec2|
                tm_edge(self, *move_speed_fn, diagonal, old(g_costs)@, closed@, current, w)
                    ==> #[trigger] tm_edge(
                    self,
                    *move_speed_fn,
                    diagonal,
                    final(g_costs)@,
                    closed@,
                    current,
                    w,
                ),
    {
        let ghost size = self.spec_size();
        let ghost last = order.len() - 1;
        proof {
            lemma_order_facts(size, start, target, closed@, order);
        }
        let current_idx = self.pos_to_idx(current) as usize;
        let neighbour_idx = self.pos_to_idx(neighbour) as usize;
        let move_speed = move_speed_fn(current, neighbour, self.cell_at(neighbour));
        if move_speed > 0 {
            let cost = move_cost(move_speed);
            let previous = came_from[current_idx];
            let turn = if previous != unset() {
                is_turn(previous, current, neighbour)
            } else {
                false
            };
            proof {
                assert(g_costs@[index_of(order[last], size)] <= last * step_bound()) by {
                    reveal(inv_cost);
                }
                assert(order.len() * step_bound() <= 0xffff_ffff * step_bound()) by (nonlinear_arith)
                    requires
                        order.len() <= 0xffff_ffff,
                        step_bound() >= 0,
                ;
                assert(last * step_bound() + step_bound() == order.len() * step_bound())
                    by (nonlinear_arith)
                    requires
                        last == order.len() - 1,
                ;
            }
            let penalty: u128 = if turn { turn_penalty as u128 } else { 0 };
            let tentative: u128 = g_costs[current_idx] + cost + penalty;
            proof {
                if tamed {
                    lemma_observed_speed(self, *move_speed_fn, current, neighbour, move_speed);
                    assert(tentative == g_costs@[index_of(current, size)] + step_cost(
                        self,
                        *move_speed_fn,
                        current,
                        neighbour,
                    ));
                }
            }
            if tentative < g_costs[neighbour_idx] {
                let ghost came_before = came_from@;
                let ghost g_before = g_costs@;
                let ghost open_before = frontier_entries(*open);
                came_from[neighbour_idx] = current;
                g_costs[neighbour_idx] = tentative;
                let h_cost = calculate_h_cost(neighbour, target, diag_multiplier);
                let f_cost = tentative + h_cost;
                frontier_push(open, neighbour_idx as u32, f_cost);
                proof {
                    assert(may_pass(self, *move_speed_fn, current, neighbour));
                    lemma_relax(
                        self,
                        *move_speed_fn,
                        start,
                        target,
                        diagonal,
                        came_before,
                        g_before,
                        closed@,
                        open_before,
                        order,
                        neighbour,
                        tentative,
                        f_cost,
                    );
                    if tamed {
                        lemma_tame_relax(
                            self,
                            *move_speed_fn,
                            start,
                            target,
                            diag_multiplier,
                            diagonal,
                            came_before,
                            g_before,
                            closed@,
                            open_before,
                            order,
                            neighbour,
                            tentative,
                            f_cost,
                        );
                    }
                }
            }
        } else {
            proof {
                assert(!must_pass(self, *move_speed_fn, current, neighbour));
                if tamed && may_pass(self, *move_speed_fn, current, neighbour) {
                    lemma_observed_speed(self, *move_speed_fn, current, neighbour, move_speed);
                    let other = choose|speed: i32|
                        speed > 0 && #[trigger] call_ensures(
                            *move_speed_fn,
                            (current, neighbour, &self.at(neighbour)),
                            speed,
                        );
                    lemma_observed_speed(self, *move_speed_fn, current, neighbour, other);
                }
            }
        }
    }
}

impl<T> Matrix<T> {
    /// A* search from `start` to `target`.
    ///
    /// `move_speed_fn(current, neighbour, value)` gives the speed of the move
    /// onto `neighbour`, whose cell holds `value`: a speed of zero or less
    /// makes the move impassable, and a passable move costs the reciprocal of
    /// its speed. `turn_penalty` is added to a move that goes another way
    /// than the move before it; the first move of a route is no turn.
    /// `max_search_depth` bounds the number of cells that are dequeued.
    /// `diag_cost_multiplier` allows diagonal moves and scales the diagonal
    /// part of the estimate of the remaining cost. Speeds, penalty and
    /// multiplier are in thousandths.
    ///
    /// Cells are dequeued in the order of their cost so far plus the octile
    /// estimate from them. Which of several cells with one such sum comes
    /// first is left to the queue.
    pub fn a_star_search(
        &self,
        start: UVec2,
        target: UVec2,
        move_speed_fn: impl Fn(UVec2, UVec2, &T) -> i32,
        turn_penalty: u32,
        max_search_depth: Option<u32>,
        diag_cost_multiplier: Option<u32>,
    ) -> (result: PathSearch)
        requires
            in_bounds(start, self.spec_size()),
            speed_callable(self, move_speed_fn),
        ensures
            a_star_outcome(
                self,
                move_speed_fn,
                start,
                target,
                turn_penalty,
                max_search_depth,
                diag_cost_multiplier,
                result,
            ),
    {
        let ghost size = self.spec_size();
        let ghost diagonal = diag_cost_multiplier is Some;
        let count = self.element_count() as usize;
        let none = unset();
        let mut came_from: Vec<UVec2> = vec![none; count];
        let mut g_costs: Vec<u128> = vec![u128::MAX; count];
        let mut closed: Vec<bool> = vec![false; count];
        let mut open_nodes = frontier_new();
        let start_idx = self.pos_to_idx(start);
        frontier_push(&mut open_nodes, start_idx, 0);
        g_costs[start_idx as usize] = 0;
        let mut current_depth: u32 = 0;
        let max_depth = match max_search_depth {
            Some(depth) => depth,
            None => u32::MAX,
        };
        let diag_m = match diag_cost_multiplier {
            Some(multiplier) => multiplier,
            None => COST_SCALE,
        };
        let ghost mut order: Seq<UVec2> = Seq::empty();
        let ghost tamed = tame(self, move_speed_fn, target, turn_penalty, diag_m, diagonal);
        proof {
            lemma_tame_initial(
                self,
                move_speed_fn,
                start,
                target,
                diag_m,
                diagonal,
                came_from@,
                g_costs@,
                closed@,
                frontier_entries(open_nodes),
            );
            lemma_initial_state(
                self,
                move_speed_fn,
                start,
                target,
                diagonal,
                came_from@,
                g_costs@,
                closed@,
                frontier_entries(open_nodes),
            );
        }
        loop
            invariant
                size == self.spec_size(),
                diagonal == (diag_cost_multiplier is Some),
                count == size.area(),
                count == self@.len(),
                none == no_predecessor(),
                in_bounds(start, size),
                speed_callable(self, move_speed_fn),
                max_depth == match max_search_depth {
                    Some(depth) => depth,
                    None => u32::MAX,
                },
                search_inv(
                    self,
                    move_speed_fn,
                    start,
                    target,
                    diagonal,
                    came_from@,
                    g_costs@,
                    closed@,
                    frontier_entries(open_nodes),
                    order,
                ),
                order.len() > 0 ==> covered(
                    self,
                    move_speed_fn,
                    diagonal,
                    g_costs@,
                    order[order.len() - 1],
                ),
                order.len() == 0 ==> frontier_entries(open_nodes).dom() =~= set![
                    index_of(start, size) as u32,
                ],
                current_depth == order.len(),
                current_depth <= max_depth,
                order.len() <= count,
                diag_m == multiplier_of(diag_cost_multiplier),
                tamed == tame(self, move_speed_fn, target, turn_penalty, diag_m, diagonal),
                tamed ==> inv_tame(
                    self,
                    move_speed_fn,
                    start,
                    target,
                    diag_m,
                    diagonal,
                    came_from@,
                    g_costs@,
                    closed@,
                    frontier_entries(open_nodes),
                    order,
                ),
                tamed && order.len() > 0 ==> tm_offered(
                    self,
                    move_speed_fn,
                    diagonal,
                    g_costs@,
                    closed@,
                    order[order.len() - 1],
                ),
            decreases count - order.len(),
        {
            let ghost open_before = frontier_entries(open_nodes);
            let next = frontier_pop(&mut open_nodes);
            match next {
                None => {
                    proof {
                        assert(order.len() > 0) by {
                            if order.len() == 0 {
                                assert(open_before.dom().contains(index_of(start, size) as u32));
                            }
                        }
                        assert forall|route: Seq<UVec2>| !#[trigger] is_sure_route(
                            self,
                            move_speed_fn,
                            route,
                            start,
                            target,
                            diagonal,
                        ) by {
                            if is_sure_route(self, move_speed_fn, route, start, target, diagonal) {
                                assert forall|k: u32| !open_before.contains_key(k) by {
                                    assert(!open_before.dom().contains(k));
                                }
                                lemma_sure_route_reached(
                                    self,
                                    move_speed_fn,
                                    start,
                                    target,
                                    diagonal,
                                    came_from@,
                                    g_costs@,
                                    closed@,
                                    open_before,
                                    order,
                                    route,
                                    target,
                                    route.len() - 1,
                                );
                            }
                        }
                    }
                    return PathSearch::NoPath;
                },
                Some((current_idx, _)) => {
                    proof {
                        lemma_order_facts(size, start, target, closed@, order);
                        assert(current_idx < count && g_costs@[current_idx as int] < u128::MAX
                            && !closed@[current_idx as int]) by {
                            reveal(inv_open);
                        }
                    }
                    let current_pos = self.idx_to_pos(current_idx);
                    proof {
                        lemma_position_in_bounds(current_idx as int, size);
                        assert(!order.contains(current_pos));
                        lemma_distinct_cells_bounded(order.push(current_pos), size);
                        if order.len() == 0 {
                            assert(open_before.dom().contains(current_idx));
                            lemma_index_in_range(start, size);
                            lemma_index_roundtrip(start, size);
                            assert(current_idx == index_of(start, size));
                            assert(current_pos == start);
                        }
                    }
                    proof {
                        if tamed {
                            assert forall|route: Seq<UVec2>| #[trigger]
                                is_route(
                                    self,
                                    move_speed_fn,
                                    route,
                                    start,
                                    current_pos,
                                    diagonal,
                                ) implies g_costs@[index_of(current_pos, size)] <= route_cost(
                                self,
                                move_speed_fn,
                                route,
                            ) by {
                                lemma_popped_is_cheapest(
                                    self,
                                    move_speed_fn,
                                    start,
                                    target,
                                    diag_m,
                                    diagonal,
                                    came_from@,
                                    g_costs@,
                                    closed@,
                                    open_before,
                                    order,
                                    current_pos,
                                    route,
                                );
                            }
                        }
                    }
                    current_depth += 1;
                    if current_depth > max_depth {
                        proof {
                            lemma_order_is_expansion(
                                self,
                                move_speed_fn,
                                start,
                                target,
                                diagonal,
                                came_from@,
                                g_costs@,
                                closed@,
                                open_before,
                                order,
                            );
                        }
                        return PathSearch::BudgetExceeded;
                    }
                    if current_pos == target {
                        let path = self.retrace_path(
                            &came_from,
                            current_pos,
                            &move_speed_fn,
                            Ghost(start),
                            Ghost(target),
                            Ghost(diagonal),
                            Ghost(g_costs@),
                            Ghost(closed@),
                            Ghost(open_before),
                            Ghost(order),
                        );
                        proof {
                            if tamed {
                                lemma_linked_route_cost(
                                    self,
                                    move_speed_fn,
                                    start,
                                    came_from@,
                                    g_costs@,
                                    path@,
                                    path@.len() - 1,
                                );
                                assert(path@.take(path@.len() as int) =~= path@);
                            }
                        }
                        return PathSearch::Found(path);
                    }
                    proof {
                        lemma_close(
                            self,
                            move_speed_fn,
                            start,
                            target,
                            diagonal,
                            came_from@,
                            g_costs@,
                            closed@,
                            open_before,
                            order,
                            current_pos,
                        );
                        if tamed {
                            lemma_tame_close(
                                self,
                                move_speed_fn,
                                start,
                                target,
                                diag_m,
                                diagonal,
                                came_from@,
                                g_costs@,
                                closed@,
                                open_before,
                                order,
                                current_pos,
                            );
                        }
                        order = order.push(current_pos);
                    }
                    closed[current_idx as usize] = true;
                    let neighbours = if diag_cost_multiplier.is_some() {
                        self.neighbours(current_pos)
                    } else {
                        self.neighbours_no_diag(current_pos)
                    };
                    proof {
                        assert forall|n: UVec2|
                            #![trigger neighbours@.contains(n)]
                            #![trigger adjacent(current_pos, n, diagonal)]
                            neighbours@.contains(n) <==> in_bounds(n, size) && adjacent(
                                current_pos,
                                n,
                                diagonal,
                            ) by {
                            lemma_cardinal_neighbours_members(current_pos, size, n);
                            lemma_all_neighbours_members(current_pos, size, n);
                        }
                    }
                    let mut i: usize = 0;
                    while i < neighbours.len()
                        invariant
                            0 <= i <= neighbours@.len(),
                            size == self.spec_size(),
                            count == size.area(),
                            speed_callable(self, move_speed_fn),
                            search_inv(
                                self,
                                move_speed_fn,
                                start,
                                target,
                                diagonal,
                                came_from@,
                                g_costs@,
                                closed@,
                                frontier_entries(open_nodes),
                                order,
                            ),
                            order.len() >= 1,
                            order[order.len() - 1] == current_pos,
                            forall|n: UVec2|
                                #![trigger neighbours@.contains(n)]
                                #![trigger adjacent(current_pos, n, diagonal)]
                                neighbours@.contains(n) <==> in_bounds(n, size) && adjacent(
                                    current_pos,
                                    n,
                                    diagonal,
                                ),
                            forall|k: int|
                                0 <= k < i && must_pass(
                                    self,
                                    move_speed_fn,
                                    current_pos,
                                    #[trigger] neighbours@[k],
                                ) ==> g_costs@[index_of(neighbours@[k], size)] < u128::MAX,
                            tamed == tame(
                                self,
                                move_speed_fn,
                                target,
                                turn_penalty,
                                diag_m,
                                diagonal,
                            ),
                            tamed ==> inv_tame(
                                self,
                                move_speed_fn,
                                start,
                                target,
                                diag_m,
                                diagonal,
                                came_from@,
                                g_costs@,
                                closed@,
                                frontier_entries(open_nodes),
                                order,
                            ),
                            tamed ==> forall|k: int|
                                0 <= k < i ==> tm_edge(
                                    self,
                                    move_speed_fn,
                                    diagonal,
                                    g_costs@,
                                    closed@,
                                    current_pos,
                                    #[trigger] neighbours@[k],
                                ),
                        decreases neighbours@.len() - i,
                    {
                        let neighbour_pos = neighbours[i];
                        proof {
                            assert(neighbours@.contains(neighbours@[i as int]));
                            lemma_index_in_range(neighbour_pos, size);
                        }
                        let neighbour_idx = self.pos_to_idx(neighbour_pos) as usize;
                        let ghost g_before = g_costs@;
                        if !closed[neighbour_idx] {
                            self.relax(
                                current_pos,
                                neighbour_pos,
                                target,
                                &move_speed_fn,
                                turn_penalty,
                                diag_m,
                                &mut came_from,
                                &mut g_costs,
                                &closed,
                                &mut open_nodes,
                                Ghost(start),
                                Ghost(diagonal),
                                Ghost(order),
                                Ghost(tamed),
                            );
                        } else {
                            proof {
                                reveal(inv_open);
                            }
                        }
                        proof {
                            assert forall|k: int|
                                0 <= k < i + 1 && must_pass(
                                    self,
                                    move_speed_fn,
                                    current_pos,
                                    #[trigger] neighbours@[k],
                                ) implies g_costs@[index_of(neighbours@[k], size)] < u128::MAX by {
                                assert(neighbours@.contains(neighbours@[k]));
                                lemma_index_in_range(neighbours@[k], size);
                                if k < i {
                                    assert(g_before[index_of(neighbours@[k], size)] < u128::MAX);
                                }
                            }
                        }
                        i += 1;
                    }
                    proof {
                        assert forall|n: UVec2|
                            in_bounds(n, size) && #[trigger] adjacent(current_pos, n, diagonal)
                                && must_pass(
                                self,
                                move_speed_fn,
                                current_pos,
                                n,
                            ) implies g_costs@[index_of(n, size)] < u128::MAX by {
                            assert(neighbours@.contains(n));
                            let k = choose|k: int| 0 <= k < neighbours@.len() && neighbours@[k] == n;
                            assert(must_pass(self, move_speed_fn, current_pos, neighbours@[k]));
                        }
                        if tamed {
                            assert forall|w: UVec2| #[trigger]
                                legal_move(
                                    self,
                                    move_speed_fn,
                                    current_pos,
                                    w,
                                    diagonal,
                                ) implies tm_edge(
                                self,
                                move_speed_fn,
                                diagonal,
                                g_costs@,
                                closed@,
                                current_pos,
                                w,
                            ) by {
                                assert(neighbours@.contains(w));
                                let k = choose|k: int|
                                    0 <= k < neighbours@.len() && neighbours@[k] == w;
                                assert(tm_edge(
                                    self,
                                    move_speed_fn,
                                    diagonal,
                                    g_costs@,
                                    closed@,
                                    current_pos,
                                    neighbours@[k],
                                ));
                            }
                        }
                    }
                },
            }
        }
    }
}

/// The least number of moves between `a` and `b`: cardinal moves, or moves
/// of any of the eight kinds.
pub open spec fn least_moves(a: UVec2, b: UVec2, diagonal: bool) -> int {
    let dx = gap(a.x, b.x);
    let dy = gap(a.y, b.y);
    if diagonal {
        if dx > dy {
            dx
        } else {
            dy
        }
    } else {
        dx + dy
    }
}

/// The first `upto + 1` cells of a route lead no farther from the start
/// than `upto` moves.
proof fn lemma_route_prefix_reach<T, F: Fn(UVec2, UVec2, &T) -> i32>(
    grid: &Matrix<T>,
    f: F,
    route: Seq<UVec2>,
    start: UVec2,
    target: UVec2,
    diagonal: bool,
    upto: int,
)
    requires
        is_route(grid, f, route, start, target, diagonal),
        0 <= upto < route.len(),
    ensures
        least_moves(start, route[upto], diagonal) <= upto,
    decreases upto,
{
    if upto > 0 {
        lemma_route_prefix_reach(grid, f, route, start, target, diagonal, upto - 1);
        assert(legal_move(grid, f, route[upto - 1], route[upto - 1 + 1], diagonal));
    }
}

/// A route holds at least one cell more than the least number of moves
/// between its ends.
pub proof fn lemma_route_length<T, F: Fn(UVec2, UVec2, &T) -> i32>(
    grid: &Matrix<T>,
    f: F,
    route: Seq<UVec2>,
    start: UVec2,
    target: UVec2,
    diagonal: bool,
)
    requires
        is_route(grid, f, route, start, target, diagonal),
    ensures
        route.len() >= least_moves(start, target, diagonal) + 1,
{
    lemma_route_prefix_reach(grid, f, route, start, target, diagonal, route.len() - 1);
}

/// A search whose budget is no larger than the least number of moves between
/// start and target does not find a route, whatever an unbounded search
/// would find.
pub proof fn lemma_budget_below_need_fails<T, F: Fn(UVec2, UVec2, &T) -> i32>(
    grid: &Matrix<T>,
    f: F,
    start: UVec2,
    target: UVec2,
    turn_penalty: u32,
    budget: u32,
    diag_cost_multiplier: Option<u32>,
    result: PathSearch,
)
    requires
        a_star_outcome(
            grid,
            f,
            start,
            target,
            turn_penalty,
            Some(budget),
            diag_cost_multiplier,
            result,
        ),
        budget <= least_moves(start, target, diag_cost_multiplier is Some),
    ensures
        !(result is Found),
{
    if let PathSearch::Found(route) = result {
        lemma_route_length(grid, f, route@, start, target, diag_cost_multiplier is Some);
    }
}

/// Where every move between adjacent cells is certainly passable, a search
/// without a budget finds a route to any cell of the grid.
pub proof fn lemma_open_grid_is_searched<T, F: Fn(UVec2, UVec2, &T) -> i32>(
    grid: &Matrix<T>,
    f: F,
    start: UVec2,
    target: UVec2,
    turn_penalty: u32,
    diag_cost_multiplier: Option<u32>,
    result: PathSearch,
)
    requires
        a_star_outcome(grid, f, start, target, turn_penalty, None, diag_cost_multiplier, result),
        in_bounds(start, grid.spec_size()),
        in_bounds(target, grid.spec_size()),
        forall|a: UVec2, b: UVec2|
            in_bounds(a, grid.spec_size()) && in_bounds(b, grid.spec_size()) ==> #[trigger] must_pass(
                grid,
                f,
                a,
                b,
            ),
    ensures
        result is Found,
{
    if result is NoPath {
        let diagonal = diag_cost_multiplier is Some;
        let route = lemma_straight_route(grid, f, start, target, diagonal);
        assert(is_sure_route(grid, f, route, start, target, diagonal));
    }
}

/// In a grid where every move is certainly passable and can be made, a
/// route of as few cardinal moves as can be joins any two cells.
pub proof fn lemma_straight_route<T, F: Fn(UVec2, UVec2, &T) -> i32>(
    grid: &Matrix<T>,
    f: F,
    start: UVec2,
    target: UVec2,
    diagonal: bool,
) -> (route: Seq<UVec2>)
    requires
        in_bounds(start, grid.spec_size()),
        in_bounds(target, grid.spec_size()),
        forall|a: UVec2, b: UVec2|
            in_bounds(a, grid.spec_size()) && in_bounds(b, grid.spec_size()) ==> #[trigger] must_pass(
                grid,
                f,
                a,
                b,
            ),
    ensures
        is_sure_route(grid, f, route, start, target, diagonal),
        route.len() == least_moves(start, target, false) + 1,
        (forall|a: UVec2, b: UVec2|
            in_bounds(a, grid.spec_size()) && in_bounds(b, grid.spec_size()) ==> #[trigger] may_pass(
                grid,
                f,
                a,
                b,
            )) ==> is_route(grid, f, route, start, target, diagonal),
    decreases least_moves(start, target, false),
{
    if start == target {
        seq![start]
    } else {
        let before = crate::traversal::lemma_step_towards(start, target, grid.spec_size());
        let route = lemma_straight_route(grid, f, start, before, diagonal);
        let longer = route.push(target);
        assert(adjacent(before, target, diagonal));
        assert forall|i: int| 0 <= i < longer.len() - 1 implies sure_move(
            grid,
            f,
            #[trigger] longer[i],
            longer[i + 1],
            diagonal,
        ) by {
            if i < route.len() - 1 {
                assert(sure_move(grid, f, route[i], route[i + 1], diagonal));
            }
        }
        if forall|a: UVec2, b: UVec2|
            in_bounds(a, grid.spec_size()) && in_bounds(b, grid.spec_size()) ==> #[trigger] may_pass(
                grid,
                f,
                a,
                b,
            ) {
            assert forall|i: int| 0 <= i < longer.len() - 1 implies legal_move(
                grid,
                f,
                #[trigger] longer[i],
                longer[i + 1],
                diagonal,
            ) by {
                if i < route.len() - 1 {
                    assert(legal_move(grid, f, route[i], route[i + 1], diagonal));
                }
            }
        }
        longer
    }
}

} // verus!
