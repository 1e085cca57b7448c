//! When the search finds a cheapest route: the cost of a route, the
//! estimates that never overrate a move, and what the search keeps true of
//! its bookkeeping under them.

use vstd::prelude::*;
use crate::matrix::{
    in_bounds, index_of, lemma_index_in_range, lemma_index_injective, lemma_index_roundtrip,
    position_of, Matrix,
};
use crate::neighbours::cardinal_step;
use crate::pathfinding::{
    a_star_outcome, gap, is_route, least_moves, legal_move, lemma_open_grid_is_searched,
    lemma_route_length, lemma_straight_route, may_pass, move_cost_of, must_pass, octile_estimate,
    turns, PathSearch, COST_SCALE,
};
use crate::search_state::{has_link, inv_links, inv_open, inv_order, search_inv};
use crate::vec2::UVec2;

verus! {

/// Whether the speed function gives each move one speed only.
pub open spec fn deterministic<T, F: Fn(UVec2, UVec2, &T) -> i32>(grid: &Matrix<T>, f: F) -> bool {
    forall|a: UVec2, b: UVec2, s1: i32, s2: i32|
        #[trigger] call_ensures(f, (a, b, &grid.at(b)), s1) && #[trigger] call_ensures(
            f,
            (a, b, &grid.at(b)),
            s2,
        ) ==> s1 == s2
}

/// The speed that the speed function gives the move from `a` to `b`.
pub open spec fn speed_at<T, F: Fn(UVec2, UVec2, &T) -> i32>(
    grid: &Matrix<T>,
    f: F,
    a: UVec2,
    b: UVec2,
) -> i32 {
    choose|speed: i32| call_ensures(f, (a, b, &grid.at(b)), speed)
}

/// The cost of the move from `a` to `b`.
pub open spec fn step_cost<T, F: Fn(UVec2, UVec2, &T) -> i32>(
    grid: &Matrix<T>,
    f: F,
    a: UVec2,
    b: UVec2,
) -> int {
    move_cost_of(speed_at(grid, f, a, b))
}

/// The cost of a route without turn penalties: the sum of the costs of its
/// moves.
pub open spec fn route_cost<T, F: Fn(UVec2, UVec2, &T) -> i32>(
    grid: &Matrix<T>,
    f: F,
    route: Seq<UVec2>,
) -> int
    decreases route.len(),
{
    if route.len() <= 1 {
        0
    } else {
        route_cost(grid, f, route.drop_last()) + step_cost(
            grid,
            f,
            route[route.len() - 2],
            route[route.len() - 1],
        )
    }
}

/// Whether the estimate of the remaining cost never drops by more than the
/// cost of the move along any legal move.
pub open spec fn consistent<T, F: Fn(UVec2, UVec2, &T) -> i32>(
    grid: &Matrix<T>,
    f: F,
    target: UVec2,
    diag_multiplier: u32,
    diagonal: bool,
) -> bool {
    forall|a: UVec2, b: UVec2| #[trigger]
        legal_move(grid, f, a, b, diagonal) ==> octile_estimate(a, target, diag_multiplier)
            <= step_cost(grid, f, a, b) + octile_estimate(b, target, diag_multiplier)
}

/// The multiplier that the estimate is made with.
pub open spec fn multiplier_of(diag_cost_multiplier: Option<u32>) -> u32 {
    match diag_cost_multiplier {
        Some(multiplier) => multiplier,
        None => COST_SCALE,
    }
}

/// The conditions under which the search finds a cheapest route: each move
/// has one speed, the estimate is consistent, and turns cost nothing.
pub open spec fn tame<T, F: Fn(UVec2, UVec2, &T) -> i32>(
    grid: &Matrix<T>,
    f: F,
    target: UVec2,
    turn_penalty: u32,
    diag_multiplier: u32,
    diagonal: bool,
) -> bool {
    &&& deterministic(grid, f)
    &&& consistent(grid, f, target, diag_multiplier, diagonal)
    &&& turn_penalty == 0
}

/// Whether no route from `start` to `target` costs less than `route`.
pub open spec fn is_cheapest<T, F: Fn(UVec2, UVec2, &T) -> i32>(
    grid: &Matrix<T>,
    f: F,
    route: Seq<UVec2>,
    start: UVec2,
    target: UVec2,
    diagonal: bool,
) -> bool {
    forall|other: Seq<UVec2>| #[trigger]
        is_route(grid, f, other, start, target, diagonal) ==> route_cost(grid, f, route)
            <= route_cost(grid, f, other)
}

/// Once a cell has been closed, every queued cell is queued under its cost
/// plus the estimate from it.
#[verifier::opaque]
pub(crate) open spec fn tm_open(
    size: UVec2,
    target: UVec2,
    diag_multiplier: u32,
    g_costs: Seq<u128>,
    open: Map<u32, u128>,
    order: Seq<UVec2>,
) -> bool {
    order.len() > 0 ==> forall|k: u32| #[trigger]
        open.contains_key(k) ==> open[k] == g_costs[k as int] + octile_estimate(
            position_of(k as int, size),
            target,
            diag_multiplier,
        )
}

/// No route to a closed cell costs less than the cost recorded for it.
#[verifier::opaque]
pub(crate) open spec fn tm_closed<T, F: Fn(UVec2, UVec2, &T) -> i32>(
    grid: &Matrix<T>,
    f: F,
    start: UVec2,
    diagonal: bool,
    g_costs: Seq<u128>,
    order: Seq<UVec2>,
) -> bool {
    forall|i: int, route: Seq<UVec2>|
        0 <= i < order.len() && #[trigger] is_route(grid, f, route, start, order[i], diagonal)
            ==> g_costs[index_of(order[i], grid.spec_size())] <= route_cost(grid, f, route)
}

/// Whether the cost recorded for `w`, where `w` is not closed and entered
/// by a legal move from `u`, is no more than the cost of `u` plus that of
/// the move.
pub(crate) open spec fn tm_edge<T, F: Fn(UVec2, UVec2, &T) -> i32>(
    grid: &Matrix<T>,
    f: F,
    diagonal: bool,
    g_costs: Seq<u128>,
    closed: Seq<bool>,
    u: UVec2,
    w: UVec2,
) -> bool {
    legal_move(grid, f, u, w, diagonal) && !closed[index_of(w, grid.spec_size())] ==> g_costs[index_of(
        w,
        grid.spec_size(),
    )] <= g_costs[index_of(u, grid.spec_size())] + step_cost(grid, f, u, w)
}

/// Every move out of the closed cell `u` has been offered.
pub(crate) open spec fn tm_offered<T, F: Fn(UVec2, UVec2, &T) -> i32>(
    grid: &Matrix<T>,
    f: F,
    diagonal: bool,
    g_costs: Seq<u128>,
    closed: Seq<bool>,
    u: UVec2,
) -> bool {
    forall|w: UVec2| #[trigger]
        legal_move(grid, f, u, w, diagonal) ==> tm_edge(grid, f, diagonal, g_costs, closed, u, w)
}

/// Every move out of every closed cell but the last has been offered.
#[verifier::opaque]
pub(crate) open spec fn tm_edges<T, F: Fn(UVec2, UVec2, &T) -> i32>(
    grid: &Matrix<T>,
    f: F,
    diagonal: bool,
    g_costs: Seq<u128>,
    closed: Seq<bool>,
    order: Seq<UVec2>,
) -> bool {
    forall|i: int|
        0 <= i < order.len() - 1 ==> tm_offered(
            grid,
            f,
            diagonal,
            g_costs,
            closed,
            #[trigger] order[i],
        )
}

/// The cost recorded for a reached cell is that of its predecessor plus
/// the cost of the move from it.
#[verifier::opaque]
pub(crate) open spec fn tm_hops<T, F: Fn(UVec2, UVec2, &T) -> i32>(
    grid: &Matrix<T>,
    f: F,
    start: UVec2,
    came_from: Seq<UVec2>,
    g_costs: Seq<u128>,
) -> bool {
    forall|p: UVec2|
        in_bounds(p, grid.spec_size()) && p != start && #[trigger] g_costs[index_of(
            p,
            grid.spec_size(),
        )] < u128::MAX ==> in_bounds(came_from[index_of(p, grid.spec_size())], grid.spec_size())
            && g_costs[index_of(p, grid.spec_size())] == g_costs[index_of(
            came_from[index_of(p, grid.spec_size())],
            grid.spec_size(),
        )] + step_cost(grid, f, came_from[index_of(p, grid.spec_size())], p)
}

/// What the search keeps true of its bookkeeping where it finds a cheapest
/// route.
pub(crate) open spec fn inv_tame<T, F: Fn(UVec2, UVec2, &T) -> i32>(
    grid: &Matrix<T>,
    f: F,
    start: UVec2,
    target: UVec2,
    diag_multiplier: u32,
    diagonal: bool,
    came_from: Seq<UVec2>,
    g_costs: Seq<u128>,
    closed: Seq<bool>,
    open: Map<u32, u128>,
    order: Seq<UVec2>,
) -> bool {
    &&& tm_open(grid.spec_size(), target, diag_multiplier, g_costs, open, order)
    &&& tm_closed(grid, f, start, diagonal, g_costs, order)
    &&& tm_edges(grid, f, diagonal, g_costs, closed, order)
    &&& tm_hops(grid, f, start, came_from, g_costs)
}

/// The cost of a legal move, where each move has one speed, is not
/// negative, and the speed of the move is above zero.
pub proof fn lemma_step_cost<T, F: Fn(UVec2, UVec2, &T) -> i32>(
    grid: &Matrix<T>,
    f: F,
    a: UVec2,
    b: UVec2,
    diagonal: bool,
)
    requires
        deterministic(grid, f),
        legal_move(grid, f, a, b, diagonal),
    ensures
        speed_at(grid, f, a, b) > 0,
        call_ensures(f, (a, b, &grid.at(b)), speed_at(grid, f, a, b)),
        0 <= step_cost(grid, f, a, b) <= COST_SCALE * COST_SCALE,
{
    let s = choose|speed: i32| speed > 0 && #[trigger] call_ensures(f, (a, b, &grid.at(b)), speed);
    let chosen = speed_at(grid, f, a, b);
    assert(call_ensures(f, (a, b, &grid.at(b)), chosen));
    assert(chosen == s);
    assert(0 <= 1_000_000int / (chosen as int) <= 1_000_000) by (nonlinear_arith)
        requires
            chosen > 0,
    ;
}

/// A speed that the speed function has given a move is the speed of the
/// move.
pub proof fn lemma_observed_speed<T, F: Fn(UVec2, UVec2, &T) -> i32>(
    grid: &Matrix<T>,
    f: F,
    a: UVec2,
    b: UVec2,
    speed: i32,
)
    requires
        deterministic(grid, f),
        call_ensures(f, (a, b, &grid.at(b)), speed),
    ensures
        speed_at(grid, f, a, b) == speed,
{
    let chosen = speed_at(grid, f, a, b);
    assert(call_ensures(f, (a, b, &grid.at(b)), chosen));
}

/// The first cells of a route are a route, which costs the whole route less
/// the moves left out, and no route costs less than nothing.
pub proof fn lemma_route_prefix<T, F: Fn(UVec2, UVec2, &T) -> i32>(
    grid: &Matrix<T>,
    f: F,
    route: Seq<UVec2>,
    start: UVec2,
    target: UVec2,
    diagonal: bool,
    upto: int,
)
    requires
        deterministic(grid, f),
        is_route(grid, f, route, start, target, diagonal),
        0 <= upto < route.len(),
    ensures
        is_route(grid, f, route.take(upto + 1), start, route[upto], diagonal),
        0 <= route_cost(grid, f, route.take(upto + 1)) <= route_cost(grid, f, route),
        upto + 1 < route.len() ==> route_cost(grid, f, route.take(upto + 2)) == route_cost(
            grid,
            f,
            route.take(upto + 1),
        ) + step_cost(grid, f, route[upto], route[upto + 1]),
    decreases route.len() - upto,
{
    let prefix = route.take(upto + 1);
    assert forall|i: int| 0 <= i < prefix.len() - 1 implies legal_move(
        grid,
        f,
        #[trigger] prefix[i],
        prefix[i + 1],
        diagonal,
    ) by {
        assert(legal_move(grid, f, route[i], route[i + 1], diagonal));
    }
    lemma_route_cost_nonnegative(grid, f, prefix, start, route[upto], diagonal);
    if upto + 1 < route.len() {
        let longer = route.take(upto + 2);
        assert(longer.drop_last() =~= prefix);
        lemma_route_prefix(grid, f, route, start, target, diagonal, upto + 1);
        assert(legal_move(grid, f, route[upto], route[upto + 1], diagonal));
        lemma_step_cost(grid, f, route[upto], route[upto + 1], diagonal);
    } else {
        assert(prefix =~= route);
    }
}

/// No route costs less than nothing.
pub proof fn lemma_route_cost_nonnegative<T, F: Fn(UVec2, UVec2, &T) -> i32>(
    grid: &Matrix<T>,
    f: F,
    route: Seq<UVec2>,
    start: UVec2,
    target: UVec2,
    diagonal: bool,
)
    requires
        deterministic(grid, f),
        is_route(grid, f, route, start, target, diagonal),
    ensures
        0 <= route_cost(grid, f, route),
    decreases route.len(),
{
    if route.len() > 1 {
        let shorter = route.drop_last();
        let n = route.len() as int;
        assert forall|i: int| 0 <= i < shorter.len() - 1 implies legal_move(
            grid,
            f,
            #[trigger] shorter[i],
            shorter[i + 1],
            diagonal,
        ) by {
            assert(legal_move(grid, f, route[i], route[i + 1], diagonal));
        }
        lemma_route_cost_nonnegative(grid, f, shorter, start, route[n - 2], diagonal);
        assert(legal_move(grid, f, route[n - 2], route[n - 2 + 1], diagonal));
        lemma_step_cost(grid, f, route[n - 2], route[n - 1], diagonal);
    }
}

/// The estimate from a cell of a route is no more than the cost of the rest
/// of the route plus the estimate from its end.
pub(crate) proof fn lemma_rest_estimate<T, F: Fn(UVec2, UVec2, &T) -> i32>(
    grid: &Matrix<T>,
    f: F,
    route: Seq<UVec2>,
    start: UVec2,
    end: UVec2,
    target: UVec2,
    diag_multiplier: u32,
    diagonal: bool,
    from: int,
)
    requires
        deterministic(grid, f),
        consistent(grid, f, target, diag_multiplier, diagonal),
        is_route(grid, f, route, start, end, diagonal),
        0 <= from < route.len(),
    ensures
        octile_estimate(route[from], target, diag_multiplier) + route_cost(
            grid,
            f,
            route.take(from + 1),
        ) <= route_cost(grid, f, route) + octile_estimate(end, target, diag_multiplier),
    decreases route.len() - from,
{
    if from + 1 < route.len() {
        lemma_rest_estimate(grid, f, route, start, end, target, diag_multiplier, diagonal, from + 1);
        lemma_route_prefix(grid, f, route, start, end, diagonal, from);
        assert(legal_move(grid, f, route[from], route[from + 1], diagonal));
    } else {
        assert(route.take(from + 1) =~= route);
    }
}

/// On a route to a cell that is not closed lies a cell that is not closed
/// either and whose recorded cost is no more than the cost of the route up
/// to it.
pub(crate) proof fn lemma_first_open<T, F: Fn(UVec2, UVec2, &T) -> i32>(
    grid: &Matrix<T>,
    f: F,
    start: UVec2,
    target: UVec2,
    diag_multiplier: u32,
    diagonal: bool,
    came_from: Seq<UVec2>,
    g_costs: Seq<u128>,
    closed: Seq<bool>,
    open: Map<u32, u128>,
    order: Seq<UVec2>,
    route: Seq<UVec2>,
    end: UVec2,
    upto: int,
) -> (found: int)
    requires
        deterministic(grid, f),
        search_inv(grid, f, start, target, diagonal, came_from, g_costs, closed, open, order),
        inv_tame(
            grid,
            f,
            start,
            target,
            diag_multiplier,
            diagonal,
            came_from,
            g_costs,
            closed,
            open,
            order,
        ),
        order.len() > 0,
        tm_offered(grid, f, diagonal, g_costs, closed, order[order.len() - 1]),
        is_route(grid, f, route, start, end, diagonal),
        0 <= upto < route.len(),
        !closed[index_of(route[upto], grid.spec_size())],
    ensures
        0 <= found <= upto,
        in_bounds(route[found], grid.spec_size()),
        !closed[index_of(route[found], grid.spec_size())],
        g_costs[index_of(route[found], grid.spec_size())] <= route_cost(
            grid,
            f,
            route.take(found + 1),
        ),
    decreases upto,
{
    let size = grid.spec_size();
    assert(closed[index_of(start, size)]) by {
        reveal(inv_order);
        assert(order.contains(order[0]));
    }
    assert(upto > 0);
    let before = route[upto - 1];
    assert(legal_move(grid, f, before, route[upto - 1 + 1], diagonal));
    if closed[index_of(before, size)] {
        assert(order.contains(before)) by {
            reveal(inv_order);
        }
        let i = choose|i: int| 0 <= i < order.len() && order[i] == before;
        lemma_route_prefix(grid, f, route, start, end, diagonal, upto - 1);
        assert(g_costs[index_of(before, size)] <= route_cost(grid, f, route.take(upto))) by {
            reveal(tm_closed);
            assert(is_route(grid, f, route.take(upto - 1 + 1), start, order[i], diagonal));
        }
        assert(tm_offered(grid, f, diagonal, g_costs, closed, order[i])) by {
            reveal(tm_edges);
        }
        assert(tm_edge(grid, f, diagonal, g_costs, closed, before, route[upto]));
        upto
    } else {
        lemma_first_open(
            grid,
            f,
            start,
            target,
            diag_multiplier,
            diagonal,
            came_from,
            g_costs,
            closed,
            open,
            order,
            route,
            end,
            upto - 1,
        )
    }
}

/// The cell that the frontier hands out has a recorded cost that no route
/// to it undercuts.
pub(crate) proof fn lemma_popped_is_cheapest<T, F: Fn(UVec2, UVec2, &T) -> i32>(
    grid: &Matrix<T>,
    f: F,
    start: UVec2,
    target: UVec2,
    diag_multiplier: u32,
    diagonal: bool,
    came_from: Seq<UVec2>,
    g_costs: Seq<u128>,
    closed: Seq<bool>,
    open: Map<u32, u128>,
    order: Seq<UVec2>,
    popped: UVec2,
    route: Seq<UVec2>,
)
    requires
        deterministic(grid, f),
        consistent(grid, f, target, diag_multiplier, diagonal),
        search_inv(grid, f, start, target, diagonal, came_from, g_costs, closed, open, order),
        inv_tame(
            grid,
            f,
            start,
            target,
            diag_multiplier,
            diagonal,
            came_from,
            g_costs,
            closed,
            open,
            order,
        ),
        order.len() > 0 ==> tm_offered(grid, f, diagonal, g_costs, closed, order[order.len() - 1]),
        order.len() == 0 ==> popped == start,
        in_bounds(popped, grid.spec_size()),
        open.contains_key(index_of(popped, grid.spec_size()) as u32),
        forall|k: u32|
            open.contains_key(k) ==> open[index_of(popped, grid.spec_size()) as u32]
                <= #[trigger] open[k],
        is_route(grid, f, route, start, popped, diagonal),
    ensures
        g_costs[index_of(popped, grid.spec_size())] <= route_cost(grid, f, route),
{
    let size = grid.spec_size();
    lemma_index_in_range(popped, size);
    lemma_route_cost_nonnegative(grid, f, route, start, popped, diagonal);
    if popped == start || route_cost(grid, f, route) >= u128::MAX {
    } else {
        assert(!closed[index_of(popped, size)]) by {
            reveal(inv_open);
        }
        let last = route.len() - 1;
        let i = lemma_first_open(
            grid,
            f,
            start,
            target,
            diag_multiplier,
            diagonal,
            came_from,
            g_costs,
            closed,
            open,
            order,
            route,
            popped,
            last,
        );
        let w = route[i];
        lemma_index_in_range(w, size);
        lemma_index_roundtrip(w, size);
        lemma_index_roundtrip(popped, size);
        lemma_route_prefix(grid, f, route, start, popped, diagonal, i);
        lemma_rest_estimate(grid, f, route, start, popped, target, diag_multiplier, diagonal, i);
        assert(g_costs[index_of(w, size)] < u128::MAX);
        assert(open.contains_key(index_of(w, size) as u32)) by {
            reveal(inv_open);
        }
        reveal(tm_open);
    }
}

/// Before the first step nothing is closed and only the start is reached.
pub(crate) proof fn lemma_tame_initial<T, F: Fn(UVec2, UVec2, &T) -> i32>(
    grid: &Matrix<T>,
    f: F,
    start: UVec2,
    target: UVec2,
    diag_multiplier: u32,
    diagonal: bool,
    came_from: Seq<UVec2>,
    g_costs: Seq<u128>,
    closed: Seq<bool>,
    open: Map<u32, u128>,
)
    requires
        in_bounds(start, grid.spec_size()),
        g_costs.len() == grid.spec_size().area(),
        forall|k: int|
            0 <= k < g_costs.len() && k != index_of(start, grid.spec_size()) ==> g_costs[k]
                == u128::MAX,
    ensures
        inv_tame(
            grid,
            f,
            start,
            target,
            diag_multiplier,
            diagonal,
            came_from,
            g_costs,
            closed,
            open,
            Seq::<UVec2>::empty(),
        ),
{
    let size = grid.spec_size();
    let order = Seq::<UVec2>::empty();
    assert(tm_open(size, target, diag_multiplier, g_costs, open, order)) by {
        reveal(tm_open);
    }
    assert(tm_closed(grid, f, start, diagonal, g_costs, order)) by {
        reveal(tm_closed);
    }
    assert(tm_edges(grid, f, diagonal, g_costs, closed, order)) by {
        reveal(tm_edges);
    }
    assert(tm_hops(grid, f, start, came_from, g_costs)) by {
        reveal(tm_hops);
        assert forall|p: UVec2|
            in_bounds(p, size) && p != start implies #[trigger] g_costs[index_of(p, size)]
            == u128::MAX by {
            lemma_index_in_range(p, size);
            if index_of(p, size) == index_of(start, size) {
                lemma_index_injective(p, start, size);
            }
        }
    }
}

/// Closing the cell that the frontier has handed out keeps what the search
/// keeps true.
pub(crate) proof fn lemma_tame_close<T, F: Fn(UVec2, UVec2, &T) -> i32>(
    grid: &Matrix<T>,
    f: F,
    start: UVec2,
    target: UVec2,
    diag_multiplier: u32,
    diagonal: bool,
    came_from: Seq<UVec2>,
    g_costs: Seq<u128>,
    closed: Seq<bool>,
    open: Map<u32, u128>,
    order: Seq<UVec2>,
    popped: UVec2,
)
    requires
        inv_tame(
            grid,
            f,
            start,
            target,
            diag_multiplier,
            diagonal,
            came_from,
            g_costs,
            closed,
            open,
            order,
        ),
        order.len() > 0 ==> tm_offered(grid, f, diagonal, g_costs, closed, order[order.len() - 1]),
        order.len() == 0 ==> forall|k: u32|
            open.contains_key(k) ==> k == index_of(popped, grid.spec_size()),
        in_bounds(popped, grid.spec_size()),
        closed.len() == grid.spec_size().area(),
        forall|route: Seq<UVec2>| #[trigger]
            is_route(grid, f, route, start, popped, diagonal) ==> g_costs[index_of(
                popped,
                grid.spec_size(),
            )] <= route_cost(grid, f, route),
    ensures
        inv_tame(
            grid,
            f,
            start,
            target,
            diag_multiplier,
            diagonal,
            came_from,
            g_costs,
            closed.update(index_of(popped, grid.spec_size()), true),
            open.remove(index_of(popped, grid.spec_size()) as u32),
            order.push(popped),
        ),
{
    let size = grid.spec_size();
    let k = index_of(popped, size);
    let closed2 = closed.update(k, true);
    let open2 = open.remove(k as u32);
    let order2 = order.push(popped);
    lemma_index_in_range(popped, size);
    assert(tm_open(size, target, diag_multiplier, g_costs, open2, order2)) by {
        reveal(tm_open);
    }
    assert(tm_closed(grid, f, start, diagonal, g_costs, order2)) by {
        reveal(tm_closed);
        assert forall|i: int, route: Seq<UVec2>|
            0 <= i < order2.len() && #[trigger] is_route(
                grid,
                f,
                route,
                start,
                order2[i],
                diagonal,
            ) implies g_costs[index_of(order2[i], size)] <= route_cost(grid, f, route) by {
            if i < order.len() {
                assert(order2[i] == order[i]);
            }
        }
    }
    assert(tm_edges(grid, f, diagonal, g_costs, closed2, order2)) by {
        reveal(tm_edges);
        assert forall|i: int| 0 <= i < order2.len() - 1 implies tm_offered(
            grid,
            f,
            diagonal,
            g_costs,
            closed2,
            #[trigger] order2[i],
        ) by {
            assert(order2[i] == order[i]);
            assert(tm_offered(grid, f, diagonal, g_costs, closed, order[i]));
            assert forall|w: UVec2| #[trigger] legal_move(grid, f, order[i], w, diagonal) implies
                tm_edge(grid, f, diagonal, g_costs, closed2, order[i], w) by {
                assert(tm_edge(grid, f, diagonal, g_costs, closed, order[i], w));
                lemma_index_in_range(w, size);
            }
        }
    }
    assert(tm_hops(grid, f, start, came_from, g_costs)) by {};
}

/// Giving `neighbour` a cheaper route through the last closed cell keeps
/// what the search keeps true, and leaves the offers made from that cell
/// standing.
pub(crate) proof fn lemma_tame_relax<T, F: Fn(UVec2, UVec2, &T) -> i32>(
    grid: &Matrix<T>,
    f: F,
    start: UVec2,
    target: UVec2,
    diag_multiplier: u32,
    diagonal: bool,
    came_from: Seq<UVec2>,
    g_costs: Seq<u128>,
    closed: Seq<bool>,
    open: Map<u32, u128>,
    order: Seq<UVec2>,
    neighbour: UVec2,
    tentative: u128,
    estimate: u128,
)
    requires
        search_inv(grid, f, start, target, diagonal, came_from, g_costs, closed, open, order),
        inv_tame(
            grid,
            f,
            start,
            target,
            diag_multiplier,
            diagonal,
            came_from,
            g_costs,
            closed,
            open,
            order,
        ),
        order.len() >= 1,
        legal_move(grid, f, order[order.len() - 1], neighbour, diagonal),
        !closed[index_of(neighbour, grid.spec_size())],
        tentative == g_costs[index_of(order[order.len() - 1], grid.spec_size())] + step_cost(
            grid,
            f,
            order[order.len() - 1],
            neighbour,
        ),
        tentative < g_costs[index_of(neighbour, grid.spec_size())],
        estimate == tentative + octile_estimate(neighbour, target, diag_multiplier),
    ensures
        inv_tame(
            grid,
            f,
            start,
            target,
            diag_multiplier,
            diagonal,
            came_from.update(index_of(neighbour, grid.spec_size()), order[order.len() - 1]),
            g_costs.update(index_of(neighbour, grid.spec_size()), tentative),
            closed,
            open.insert(index_of(neighbour, grid.spec_size()) as u32, estimate),
            order,
        ),
        forall|w: UVec2|
            tm_edge(grid, f, diagonal, g_costs, closed, order[order.len() - 1], w) ==> #[trigger] tm_edge(
                grid,
                f,
                diagonal,
                g_costs.update(index_of(neighbour, grid.spec_size()), tentative),
                closed,
                order[order.len() - 1],
                w,
            ),
        tm_edge(
            grid,
            f,
            diagonal,
            g_costs.update(index_of(neighbour, grid.spec_size()), tentative),
            closed,
            order[order.len() - 1],
            neighbour,
        ),
{
    let size = grid.spec_size();
    let k = index_of(neighbour, size);
    let last = order.len() - 1;
    let current = order[last];
    let came2 = came_from.update(k, current);
    let g2 = g_costs.update(k, tentative);
    let open2 = open.insert(k as u32, estimate);
    lemma_index_in_range(neighbour, size);
    lemma_index_roundtrip(neighbour, size);
    assert forall|i: int| 0 <= i < order.len() implies in_bounds(#[trigger] order[i], size)
        && closed[index_of(order[i], size)] && index_of(order[i], size) != k && 0 <= index_of(
        order[i],
        size,
    ) < size.area() by {
        reveal(inv_order);
        assert(order.contains(order[i]));
        lemma_index_in_range(order[i], size);
    }
    assert(order[last] == current);
    assert(neighbour != start) by {
        reveal(inv_order);
        assert(order.contains(order[0]));
    }
    assert(tm_open(size, target, diag_multiplier, g2, open2, order)) by {
        reveal(tm_open);
        reveal(inv_open);
    }
    assert(tm_closed(grid, f, start, diagonal, g2, order)) by {
        reveal(tm_closed);
    }
    assert forall|u: UVec2, w: UVec2|
        in_bounds(u, size) && index_of(u, size) != k && tm_edge(
            grid,
            f,
            diagonal,
            g_costs,
            closed,
            u,
            w,
        ) implies #[trigger] tm_edge(grid, f, diagonal, g2, closed, u, w) by {
        lemma_index_in_range(u, size);
        if legal_move(grid, f, u, w, diagonal) {
            lemma_index_in_range(w, size);
        }
    }
    assert(tm_edges(grid, f, diagonal, g2, closed, order)) by {
        reveal(tm_edges);
        assert forall|i: int| 0 <= i < order.len() - 1 implies tm_offered(
            grid,
            f,
            diagonal,
            g2,
            closed,
            #[trigger] order[i],
        ) by {
            assert(tm_offered(grid, f, diagonal, g_costs, closed, order[i]));
            assert forall|w: UVec2| #[trigger] legal_move(grid, f, order[i], w, diagonal) implies
                tm_edge(grid, f, diagonal, g2, closed, order[i], w) by {
                assert(tm_edge(grid, f, diagonal, g_costs, closed, order[i], w));
            }
        }
    }
    assert(tm_hops(grid, f, start, came2, g2)) by {
        reveal(tm_hops);
        assert forall|p: UVec2|
            in_bounds(p, size) && p != start && #[trigger] g2[index_of(p, size)]
                < u128::MAX implies in_bounds(came2[index_of(p, size)], size) && g2[index_of(
            p,
            size,
        )] == g2[index_of(came2[index_of(p, size)], size)] + step_cost(
            grid,
            f,
            came2[index_of(p, size)],
            p,
        ) by {
            lemma_index_in_range(p, size);
            if index_of(p, size) == k {
                lemma_index_injective(p, neighbour, size);
            } else {
                assert(g_costs[index_of(p, size)] < u128::MAX);
                assert(has_link(grid, f, diagonal, came_from, order, p)) by {
                    reveal(inv_links);
                }
                let j = choose|j: int|
                    0 <= j < order.len() && #[trigger] order[j] == came_from[index_of(p, size)]
                        && legal_move(grid, f, order[j], p, diagonal) && forall|i: int|
                        0 <= i < order.len() && #[trigger] order[i] == p ==> j < i;
                assert(index_of(order[j], size) != k);
            }
        }
    }
}

/// A route along predecessor links costs what is recorded for its end.
pub(crate) proof fn lemma_linked_route_cost<T, F: Fn(UVec2, UVec2, &T) -> i32>(
    grid: &Matrix<T>,
    f: F,
    start: UVec2,
    came_from: Seq<UVec2>,
    g_costs: Seq<u128>,
    route: Seq<UVec2>,
    upto: int,
)
    requires
        tm_hops(grid, f, start, came_from, g_costs),
        route.len() >= 1,
        route[0] == start,
        route.no_duplicates(),
        g_costs[index_of(start, grid.spec_size())] == 0,
        forall|i: int|
            0 <= i < route.len() ==> in_bounds(#[trigger] route[i], grid.spec_size())
                && g_costs[index_of(route[i], grid.spec_size())] < u128::MAX,
        forall|i: int|
            0 <= i < route.len() - 1 ==> came_from[index_of(
                #[trigger] route[i + 1],
                grid.spec_size(),
            )] == route[i],
        0 <= upto < route.len(),
    ensures
        route_cost(grid, f, route.take(upto + 1)) == g_costs[index_of(
            route[upto],
            grid.spec_size(),
        )],
    decreases upto,
{
    let size = grid.spec_size();
    if upto > 0 {
        lemma_linked_route_cost(grid, f, start, came_from, g_costs, route, upto - 1);
        assert(route.take(upto + 1).drop_last() =~= route.take(upto));
        assert(route[upto - 1 + 1] == route[upto]);
        assert(route[upto] != route[0]);
        reveal(tm_hops);
    }
}

/// Along a cardinal move the estimate made with the multiplier 1.0 changes
/// by no more than the cost of a move at the speed 1.0.
pub proof fn lemma_estimate_step(a: UVec2, b: UVec2, target: UVec2)
    requires
        cardinal_step(a, b),
    ensures
        octile_estimate(a, target, COST_SCALE) <= octile_estimate(b, target, COST_SCALE)
            + COST_SCALE,
{
    lemma_estimate_value(a, target);
    lemma_estimate_value(b, target);
}

/// The estimate made with the multiplier 1.0: 1.414 for each move of the
/// shorter gap and 1.0 for each move by which the longer gap is longer.
pub proof fn lemma_estimate_value(from: UVec2, target: UVec2)
    ensures
        octile_estimate(from, target, COST_SCALE) == {
            let dx = gap(from.x, target.x);
            let dy = gap(from.y, target.y);
            if dx > dy {
                dy * 414 + dx * 1000
            } else {
                dx * 414 + dy * 1000
            }
        },
{
    let dx = gap(from.x, target.x);
    let dy = gap(from.y, target.y);
    let short = if dx > dy { dy } else { dx };
    assert((short * 1414 * 1000) / 1000 == short * 1414) by (nonlinear_arith);
}

/// Where no legal move is faster than the speed 1.0 and diagonal moves are
/// not allowed, the estimate made with the multiplier 1.0 is consistent.
pub proof fn lemma_slow_moves_are_consistent<T, F: Fn(UVec2, UVec2, &T) -> i32>(
    grid: &Matrix<T>,
    f: F,
    target: UVec2,
)
    requires
        deterministic(grid, f),
        forall|a: UVec2, b: UVec2| #[trigger]
            legal_move(grid, f, a, b, false) ==> speed_at(grid, f, a, b) <= COST_SCALE,
    ensures
        consistent(grid, f, target, COST_SCALE, false),
{
    assert forall|a: UVec2, b: UVec2| #[trigger] legal_move(grid, f, a, b, false) implies
        octile_estimate(a, target, COST_SCALE) <= step_cost(grid, f, a, b) + octile_estimate(
        b,
        target,
        COST_SCALE,
    ) by {
        lemma_step_cost(grid, f, a, b, false);
        lemma_estimate_step(a, b, target);
        let speed = speed_at(grid, f, a, b) as int;
        assert(1_000_000int / speed >= 1000) by (nonlinear_arith)
            requires
                0 < speed <= 1000,
        ;
    }
}

/// Whether every move between two cells of the grid can be made, and is
/// made at the given speed only.
pub open spec fn uniform_speed<T, F: Fn(UVec2, UVec2, &T) -> i32>(
    grid: &Matrix<T>,
    f: F,
    speed: i32,
) -> bool {
    &&& forall|a: UVec2, b: UVec2, given: i32| #[trigger]
        call_ensures(f, (a, b, &grid.at(b)), given) ==> given == speed
    &&& forall|a: UVec2, b: UVec2|
        in_bounds(a, grid.spec_size()) && in_bounds(b, grid.spec_size()) ==> #[trigger] call_ensures(
            f,
            (a, b, &grid.at(b)),
            speed,
        )
}

/// At a uniform speed a route costs the cost of one move for each of its
/// moves.
pub proof fn lemma_uniform_route_cost<T, F: Fn(UVec2, UVec2, &T) -> i32>(
    grid: &Matrix<T>,
    f: F,
    speed: i32,
    route: Seq<UVec2>,
    start: UVec2,
    target: UVec2,
    diagonal: bool,
)
    requires
        uniform_speed(grid, f, speed),
        is_route(grid, f, route, start, target, diagonal),
    ensures
        route_cost(grid, f, route) == move_cost_of(speed) * (route.len() - 1),
    decreases route.len(),
{
    let n = route.len() as int;
    let cost = move_cost_of(speed);
    if n > 1 {
        let shorter = route.drop_last();
        assert forall|i: int| 0 <= i < shorter.len() - 1 implies legal_move(
            grid,
            f,
            #[trigger] shorter[i],
            shorter[i + 1],
            diagonal,
        ) by {
            assert(legal_move(grid, f, route[i], route[i + 1], diagonal));
        }
        lemma_uniform_route_cost(grid, f, speed, shorter, start, route[n - 2], diagonal);
        assert(legal_move(grid, f, route[n - 2], route[n - 2 + 1], diagonal));
        lemma_observed_speed(grid, f, route[n - 2], route[n - 1], speed);
        assert(cost * (n - 2) + cost == cost * (n - 1)) by (nonlinear_arith);
    } else {
        assert(cost * 0 == 0) by (nonlinear_arith);
    }
}

/// On a grid where every move is made at one speed, no faster than 1.0,
/// a search without turn penalty, budget and diagonal moves finds a route of
/// as many cells as the Manhattan distance between start and target, plus
/// one.
pub proof fn lemma_uniform_search_is_shortest<T, F: Fn(UVec2, UVec2, &T) -> i32>(
    grid: &Matrix<T>,
    f: F,
    start: UVec2,
    target: UVec2,
    speed: i32,
    result: PathSearch,
)
    requires
        a_star_outcome(grid, f, start, target, 0, None, None, result),
        in_bounds(start, grid.spec_size()),
        in_bounds(target, grid.spec_size()),
        uniform_speed(grid, f, speed),
        0 < speed <= COST_SCALE,
    ensures
        result is Found,
        result->Found_0@.len() == least_moves(start, target, false) + 1,
{
    let size = grid.spec_size();
    assert forall|a: UVec2, b: UVec2| in_bounds(a, size) && in_bounds(b, size) implies #[trigger] must_pass(
        grid,
        f,
        a,
        b,
    ) by {}
    assert forall|a: UVec2, b: UVec2| in_bounds(a, size) && in_bounds(b, size) implies #[trigger] may_pass(
        grid,
        f,
        a,
        b,
    ) by {
        assert(call_ensures(f, (a, b, &grid.at(b)), speed));
    }
    lemma_open_grid_is_searched(grid, f, start, target, 0, None, result);
    assert(deterministic(grid, f));
    assert forall|a: UVec2, b: UVec2| #[trigger] legal_move(grid, f, a, b, false) implies speed_at(
        grid,
        f,
        a,
        b,
    ) <= COST_SCALE by {
        lemma_observed_speed(grid, f, a, b, speed);
    }
    lemma_slow_moves_are_consistent(grid, f, target);
    let route = result->Found_0@;
    let straight = lemma_straight_route(grid, f, start, target, false);
    assert(is_route(grid, f, straight, start, target, false));
    lemma_uniform_route_cost(grid, f, speed, route, start, target, false);
    lemma_uniform_route_cost(grid, f, speed, straight, start, target, false);
    lemma_route_length(grid, f, route, start, target, false);
    let cost = move_cost_of(speed);
    assert(cost >= 1000) by (nonlinear_arith)
        requires
            cost == 1_000_000int / (speed as int),
            0 < speed <= 1000,
    ;
    assert(route.len() - 1 <= straight.len() - 1) by (nonlinear_arith)
        requires
            cost * (route.len() - 1) <= cost * (straight.len() - 1),
            cost > 0,
    ;
}

/// The number of turns along a route.
pub open spec fn turn_count(route: Seq<UVec2>) -> int
    decreases route.len(),
{
    if route.len() < 3 {
        0
    } else {
        turn_count(route.drop_last()) + if turns(
            route[route.len() - 3],
            route[route.len() - 2],
            route[route.len() - 1],
        ) {
            1int
        } else {
            0
        }
    }
}

/// The cost of a route with its turns: the cost of its moves and the turn
/// penalty for each turn.
pub open spec fn priced<T, F: Fn(UVec2, UVec2, &T) -> i32>(
    grid: &Matrix<T>,
    f: F,
    route: Seq<UVec2>,
    turn_penalty: u32,
) -> int {
    route_cost(grid, f, route) + turn_penalty * turn_count(route)
}

/// A route has no fewer turns than none.
pub proof fn lemma_turn_count_nonnegative(route: Seq<UVec2>)
    ensures
        0 <= turn_count(route),
    decreases route.len(),
{
    if route.len() >= 3 {
        lemma_turn_count_nonnegative(route.drop_last());
    }
}

/// Where each move has one speed and the estimate is consistent, the route
/// found under a turn penalty costs, with its turns, no less than the route
/// found without turn penalty.
pub proof fn lemma_turn_penalty_never_cheapens<T, F: Fn(UVec2, UVec2, &T) -> i32>(
    grid: &Matrix<T>,
    f: F,
    start: UVec2,
    target: UVec2,
    turn_penalty: u32,
    budget: Option<u32>,
    other_budget: Option<u32>,
    diag_cost_multiplier: Option<u32>,
    free: PathSearch,
    penalised: PathSearch,
)
    requires
        a_star_outcome(grid, f, start, target, 0, budget, diag_cost_multiplier, free),
        a_star_outcome(
            grid,
            f,
            start,
            target,
            turn_penalty,
            other_budget,
            diag_cost_multiplier,
            penalised,
        ),
        deterministic(grid, f),
        consistent(
            grid,
            f,
            target,
            multiplier_of(diag_cost_multiplier),
            diag_cost_multiplier is Some,
        ),
        free is Found,
        penalised is Found,
    ensures
        priced(grid, f, free->Found_0@, 0) <= priced(
            grid,
            f,
            penalised->Found_0@,
            turn_penalty,
        ),
{
    let diagonal = diag_cost_multiplier is Some;
    let route = penalised->Found_0@;
    assert(is_route(grid, f, route, start, target, diagonal));
    lemma_turn_count_nonnegative(route);
    assert(turn_penalty * turn_count(route) >= 0) by (nonlinear_arith)
        requires
            turn_penalty >= 0,
            turn_count(route) >= 0,
    ;
    assert(0 * turn_count(free->Found_0@) == 0) by (nonlinear_arith);
}

} // verus!
