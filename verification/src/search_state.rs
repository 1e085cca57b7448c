//! The bookkeeping of the shortest-path search: what holds of it between
//! two steps, and why each step keeps it so.

use vstd::prelude::*;
use crate::matrix::{in_bounds, index_of, lemma_index_in_range, lemma_index_injective, Matrix};
use crate::pathfinding::{
    is_expansion, is_sure_route, legal_move, must_pass, no_predecessor, sure_move, COST_SCALE,
};
use crate::traversal::adjacent;
use crate::vec2::UVec2;
use crate::visited::lemma_bounded_set_len;

verus! {

/// The most that one move can add to the cost of a route.
pub(crate) open spec fn step_bound() -> int {
    COST_SCALE * COST_SCALE + u32::MAX
}

/// Whether the predecessor recorded for `p` is an expanded cell from which
/// `p` is entered by a legal move, expanded before `p` if `p` is expanded.
pub(crate) open spec fn has_link<T, F: Fn(UVec2, UVec2, &T) -> i32>(
    grid: &Matrix<T>,
    f: F,
    diagonal: bool,
    came_from: Seq<UVec2>,
    order: Seq<UVec2>,
    p: UVec2,
) -> bool {
    exists|j: int|
        0 <= j < order.len() && #[trigger] order[j] == came_from[index_of(p, grid.spec_size())]
            && legal_move(grid, f, order[j], p, diagonal) && forall|i: int|
            0 <= i < order.len() && #[trigger] order[i] == p ==> j < i
}

/// Whether every certainly passable move out of `c` leads to a reached cell.
pub(crate) open spec fn covered<T, F: Fn(UVec2, UVec2, &T) -> i32>(
    grid: &Matrix<T>,
    f: F,
    diagonal: bool,
    g_costs: Seq<u128>,
    c: UVec2,
) -> bool {
    forall|n: UVec2|
        in_bounds(n, grid.spec_size()) && #[trigger] adjacent(c, n, diagonal) && must_pass(
            grid,
            f,
            c,
            n,
        ) ==> g_costs[index_of(n, grid.spec_size())] < u128::MAX
}

/// The bookkeeping arrays have one entry per cell, and the start is reached
/// at no cost and has no predecessor.
pub(crate) open spec fn inv_shape(
    size: UVec2,
    start: UVec2,
    came_from: Seq<UVec2>,
    g_costs: Seq<u128>,
    closed: Seq<bool>,
) -> bool {
    &&& came_from.len() == size.area()
    &&& g_costs.len() == size.area()
    &&& closed.len() == size.area()
    &&& size.area() <= u32::MAX
    &&& in_bounds(start, size)
    &&& came_from[index_of(start, size)] == no_predecessor()
    &&& g_costs[index_of(start, size)] == 0
}

/// `order` lists the closed cells, each once; none is the target, and the
/// start comes first.
#[verifier::opaque]
pub(crate) open spec fn inv_order(
    size: UVec2,
    start: UVec2,
    target: UVec2,
    closed: Seq<bool>,
    order: Seq<UVec2>,
) -> bool {
    &&& order.no_duplicates()
    &&& forall|i: int|
        0 <= i < order.len() ==> in_bounds(#[trigger] order[i], size) && order[i] != target
    &&& forall|p: UVec2|
        in_bounds(p, size) ==> (#[trigger] closed[index_of(p, size)] <==> order.contains(p))
    &&& order.len() > 0 ==> order[0] == start
}

/// Every reached cell but the start has a predecessor link.
#[verifier::opaque]
pub(crate) open spec fn inv_links<T, F: Fn(UVec2, UVec2, &T) -> i32>(
    grid: &Matrix<T>,
    f: F,
    start: UVec2,
    diagonal: bool,
    came_from: Seq<UVec2>,
    g_costs: Seq<u128>,
    order: Seq<UVec2>,
) -> bool {
    forall|p: UVec2|
        in_bounds(p, grid.spec_size()) && p != start && #[trigger] g_costs[index_of(
            p,
            grid.spec_size(),
        )] < u128::MAX ==> has_link(grid, f, diagonal, came_from, order, p)
}

/// The frontier holds exactly the reached cells that are not closed, and
/// every closed cell is reached.
#[verifier::opaque]
pub(crate) open spec fn inv_open(size: UVec2, g_costs: Seq<u128>, closed: Seq<bool>, open: Map<u32, u128>) -> bool {
    &&& forall|k: u32| #[trigger]
        open.contains_key(k) ==> k < size.area() && g_costs[k as int] < u128::MAX && !closed[k as int]
    &&& forall|p: UVec2|
        in_bounds(p, size) && #[trigger] g_costs[index_of(p, size)] < u128::MAX && !closed[index_of(
            p,
            size,
        )] ==> open.contains_key(index_of(p, size) as u32)
    &&& forall|p: UVec2|
        in_bounds(p, size) && #[trigger] closed[index_of(p, size)] ==> g_costs[index_of(p, size)]
            < u128::MAX
}

/// The cost of a reached cell is bounded by the number of closed cells, and
/// that of a closed cell by the number of cells closed before it.
#[verifier::opaque]
pub(crate) open spec fn inv_cost(size: UVec2, g_costs: Seq<u128>, order: Seq<UVec2>) -> bool {
    &&& forall|k: int|
        0 <= k < g_costs.len() && #[trigger] g_costs[k] < u128::MAX ==> g_costs[k] <= order.len()
            * step_bound()
    &&& forall|i: int|
        0 <= i < order.len() ==> g_costs[index_of(#[trigger] order[i], size)] <= i * step_bound()
}

/// Every closed cell but the last is covered.
#[verifier::opaque]
pub(crate) open spec fn inv_covered<T, F: Fn(UVec2, UVec2, &T) -> i32>(
    grid: &Matrix<T>,
    f: F,
    diagonal: bool,
    g_costs: Seq<u128>,
    order: Seq<UVec2>,
) -> bool {
    forall|i: int|
        0 <= i < order.len() - 1 ==> covered(grid, f, diagonal, g_costs, #[trigger] order[i])
}

/// What holds of the bookkeeping of a search between two steps: `order`
/// lists the expanded cells, `open` is the frontier.
pub(crate) open spec fn search_inv<T, F: Fn(UVec2, UVec2, &T) -> i32>(
    grid: &Matrix<T>,
    f: F,
    start: UVec2,
    target: UVec2,
    diagonal: bool,
    came_from: Seq<UVec2>,
    g_costs: Seq<u128>,
    closed: Seq<bool>,
    open: Map<u32, u128>,
    order: Seq<UVec2>,
) -> bool {
    &&& inv_shape(grid.spec_size(), start, came_from, g_costs, closed)
    &&& inv_order(grid.spec_size(), start, target, closed, order)
    &&& inv_links(grid, f, start, diagonal, came_from, g_costs, order)
    &&& inv_open(grid.spec_size(), g_costs, closed, open)
    &&& inv_cost(grid.spec_size(), g_costs, order)
    &&& inv_covered(grid, f, diagonal, g_costs, order)
}

/// Distinct cells of a grid are no more than the grid has cells.
pub(crate) proof fn lemma_distinct_cells_bounded(cells: Seq<UVec2>, size: UVec2)
    requires
        cells.no_duplicates(),
        forall|i: int| 0 <= i < cells.len() ==> in_bounds(#[trigger] cells[i], size),
        size.area() <= u32::MAX,
    ensures
        cells.len() <= size.area(),
{
    let indices = Seq::new(cells.len(), |i: int| index_of(cells[i], size) as u32);
    assert forall|i: int, j: int| 0 <= i < j < indices.len() implies indices[i] != indices[j] by {
        lemma_index_in_range(cells[i], size);
        lemma_index_in_range(cells[j], size);
        if indices[i] == indices[j] {
            lemma_index_injective(cells[i], cells[j], size);
        }
    }
    indices.unique_seq_to_set();
    assert forall|k: u32| indices.to_set().contains(k) implies k < size.area() by {
        let i = choose|i: int| 0 <= i < indices.len() && indices[i] == k;
        lemma_index_in_range(cells[i], size);
    }
    lemma_bounded_set_len(indices.to_set(), size.area());
}

/// A cell with an index other than that of `q` is not `q`, and the other way
/// round.
pub(crate) proof fn lemma_other_index(p: UVec2, q: UVec2, size: UVec2)
    requires
        in_bounds(p, size),
        in_bounds(q, size),
    ensures
        0 <= index_of(p, size) < size.area(),
        index_of(p, size) == index_of(q, size) <==> p == q,
{
    lemma_index_in_range(p, size);
    if index_of(p, size) == index_of(q, size) {
        lemma_index_injective(p, q, size);
    }
}

/// The facts about the closed cells that the steps of the search read.
pub(crate) proof fn lemma_order_facts(
    size: UVec2,
    start: UVec2,
    target: UVec2,
    closed: Seq<bool>,
    order: Seq<UVec2>,
)
    requires
        inv_order(size, start, target, closed, order),
        size.area() <= u32::MAX,
    ensures
        order.no_duplicates(),
        order.len() <= size.area(),
        order.len() > 0 ==> order[0] == start,
        forall|i: int|
            0 <= i < order.len() ==> in_bounds(#[trigger] order[i], size) && order[i] != target
                && closed[index_of(order[i], size)],
        forall|p: UVec2|
            in_bounds(p, size) ==> (#[trigger] closed[index_of(p, size)] <==> order.contains(p)),
{
    reveal(inv_order);
    lemma_distinct_cells_bounded(order, size);
    assert forall|i: int| 0 <= i < order.len() implies in_bounds(#[trigger] order[i], size)
        && order[i] != target && closed[index_of(order[i], size)] by {
        assert(order.contains(order[i]));
    }
}

/// Closing the cell `current`, which the frontier has just handed out, keeps
/// the bookkeeping consistent, and every closed cell but the new one covered.
pub(crate) proof fn lemma_close<T, F: Fn(UVec2, UVec2, &T) -> i32>(
    grid: &Matrix<T>,
    f: F,
    start: UVec2,
    target: UVec2,
    diagonal: bool,
    came_from: Seq<UVec2>,
    g_costs: Seq<u128>,
    closed: Seq<bool>,
    open: Map<u32, u128>,
    order: Seq<UVec2>,
    current: UVec2,
)
    requires
        search_inv(grid, f, start, target, diagonal, came_from, g_costs, closed, open, order),
        order.len() > 0 ==> covered(grid, f, diagonal, g_costs, order[order.len() - 1]),
        in_bounds(current, grid.spec_size()),
        open.contains_key(index_of(current, grid.spec_size()) as u32),
        current != target,
        order.len() == 0 ==> current == start,
    ensures
        search_inv(
            grid,
            f,
            start,
            target,
            diagonal,
            came_from,
            g_costs,
            closed.update(index_of(current, grid.spec_size()), true),
            open.remove(index_of(current, grid.spec_size()) as u32),
            order.push(current),
        ),
        order.len() + 1 <= grid.spec_size().area(),
{
    let size = grid.spec_size();
    let k = index_of(current, size);
    let closed2 = closed.update(k, true);
    let open2 = open.remove(k as u32);
    let order2 = order.push(current);
    lemma_index_in_range(current, size);
    lemma_order_facts(size, start, target, closed, order);
    assert(!closed[k]) by {
        reveal(inv_open);
    }
    assert(!order.contains(current));
    assert(inv_order(size, start, target, closed2, order2)) by {
        reveal(inv_order);
        assert forall|p: UVec2| in_bounds(p, size) implies (#[trigger] closed2[index_of(p, size)]
            <==> order2.contains(p)) by {
            lemma_other_index(p, current, size);
            if p == current {
                assert(order2[order.len() as int] == p);
            } else {
                if order.contains(p) {
                    let i = choose|i: int| 0 <= i < order.len() && order[i] == p;
                    assert(order2[i] == p);
                }
                if order2.contains(p) {
                    let i = choose|i: int| 0 <= i < order2.len() && order2[i] == p;
                    assert(order[i] == p);
                }
            }
        }
        assert forall|i: int, j: int| 0 <= i < j < order2.len() implies order2[i] != order2[j] by {
            if j == order.len() {
                assert(order.contains(order[i]));
            }
        }
    }
    lemma_order_facts(size, start, target, closed2, order2);
    assert(inv_links(grid, f, start, diagonal, came_from, g_costs, order2)) by {
        reveal(inv_links);
        assert forall|p: UVec2|
            in_bounds(p, size) && p != start && #[trigger] g_costs[index_of(p, size)]
                < u128::MAX implies has_link(grid, f, diagonal, came_from, order2, p) by {
            assert(has_link(grid, f, diagonal, came_from, order, p));
            let j = choose|j: int|
                0 <= j < order.len() && #[trigger] order[j] == came_from[index_of(p, size)]
                    && legal_move(grid, f, order[j], p, diagonal) && forall|i: int|
                    0 <= i < order.len() && #[trigger] order[i] == p ==> j < i;
            assert(order2[j] == came_from[index_of(p, size)]);
            assert forall|i: int| 0 <= i < order2.len() && #[trigger] order2[i] == p implies j
                < i by {
                if i < order.len() {
                    assert(order[i] == p);
                }
            }
        }
    }
    assert(inv_open(size, g_costs, closed2, open2)) by {
        reveal(inv_open);
        assert forall|p: UVec2|
            in_bounds(p, size) && #[trigger] g_costs[index_of(p, size)] < u128::MAX
                && !closed2[index_of(p, size)] implies open2.contains_key(
            index_of(p, size) as u32,
        ) by {
            lemma_other_index(p, current, size);
        }
        assert forall|p: UVec2| in_bounds(p, size) && #[trigger] closed2[index_of(p, size)] implies
            g_costs[index_of(p, size)] < u128::MAX by {
            lemma_other_index(p, current, size);
        }
    }
    assert(inv_cost(size, g_costs, order2)) by {
        reveal(inv_cost);
        assert(g_costs[k] < u128::MAX) by {
            reveal(inv_open);
        }
        assert forall|m: int|
            0 <= m < g_costs.len() && #[trigger] g_costs[m] < u128::MAX implies g_costs[m]
            <= order2.len() * step_bound() by {
            assert(order.len() * step_bound() <= order2.len() * step_bound()) by (nonlinear_arith)
                requires
                    order2.len() == order.len() + 1,
                    step_bound() >= 0,
            ;
        }
        assert forall|i: int| 0 <= i < order2.len() implies g_costs[index_of(
            #[trigger] order2[i],
            size,
        )] <= i * step_bound() by {
            if i < order.len() {
                assert(order2[i] == order[i]);
            }
        }
    }
    assert(inv_covered(grid, f, diagonal, g_costs, order2)) by {
        reveal(inv_covered);
        assert forall|i: int| 0 <= i < order2.len() - 1 implies covered(
            grid,
            f,
            diagonal,
            g_costs,
            #[trigger] order2[i],
        ) by {
            assert(order2[i] == order[i]);
        }
    }
}

/// Giving `neighbour` the predecessor `current`, the cost `tentative` and a
/// place in the frontier keeps the bookkeeping consistent.
pub(crate) proof fn lemma_relax<T, F: Fn(UVec2, UVec2, &T) -> i32>(
    grid: &Matrix<T>,
    f: F,
    start: UVec2,
    target: UVec2,
    diagonal: bool,
    came_from: Seq<UVec2>,
    g_costs: Seq<u128>,
    closed: Seq<bool>,
    open: Map<u32, u128>,
    order: Seq<UVec2>,
    neighbour: UVec2,
    tentative: u128,
    estimate: u128,
)
    requires
        search_inv(grid, f, start, target, diagonal, came_from, g_costs, closed, open, order),
        order.len() >= 1,
        legal_move(grid, f, order[order.len() - 1], neighbour, diagonal),
        !closed[index_of(neighbour, grid.spec_size())],
        tentative <= order.len() * step_bound(),
        tentative < u128::MAX,
    ensures
        search_inv(
            grid,
            f,
            start,
            target,
            diagonal,
            came_from.update(index_of(neighbour, grid.spec_size()), order[order.len() - 1]),
            g_costs.update(index_of(neighbour, grid.spec_size()), tentative),
            closed,
            open.insert(index_of(neighbour, grid.spec_size()) as u32, estimate),
            order,
        ),
{
    let size = grid.spec_size();
    let k = index_of(neighbour, size);
    let last = order.len() - 1;
    let current = order[last];
    let came2 = came_from.update(k, current);
    let g2 = g_costs.update(k, tentative);
    let open2 = open.insert(k as u32, estimate);
    lemma_index_in_range(neighbour, size);
    lemma_order_facts(size, start, target, closed, order);
    assert(!order.contains(neighbour));
    assert(neighbour != start) by {
        assert(order.contains(order[0]));
    }
    lemma_other_index(start, neighbour, size);
    assert(inv_links(grid, f, start, diagonal, came2, g2, order)) by {
        reveal(inv_links);
        assert forall|p: UVec2|
            in_bounds(p, size) && p != start && #[trigger] g2[index_of(p, size)]
                < u128::MAX implies has_link(grid, f, diagonal, came2, order, p) by {
            lemma_other_index(p, neighbour, size);
            if p == neighbour {
                assert(order[last] == came2[index_of(p, size)]);
                assert forall|i: int| 0 <= i < order.len() && #[trigger] order[i] == p implies last
                    < i by {
                    assert(order.contains(order[i]));
                }
            } else {
                assert(g_costs[index_of(p, size)] < u128::MAX);
                assert(has_link(grid, f, diagonal, came_from, order, p));
                let j = choose|j: int|
                    0 <= j < order.len() && #[trigger] order[j] == came_from[index_of(p, size)]
                        && legal_move(grid, f, order[j], p, diagonal) && forall|i: int|
                        0 <= i < order.len() && #[trigger] order[i] == p ==> j < i;
                assert(order[j] == came2[index_of(p, size)]);
            }
        }
    }
    assert(inv_open(size, g2, closed, open2)) by {
        reveal(inv_open);
        assert forall|p: UVec2|
            in_bounds(p, size) && #[trigger] g2[index_of(p, size)] < u128::MAX && !closed[index_of(
                p,
                size,
            )] implies open2.contains_key(index_of(p, size) as u32) by {
            lemma_other_index(p, neighbour, size);
            if p != neighbour {
                assert(g_costs[index_of(p, size)] < u128::MAX);
            }
        }
        assert forall|p: UVec2| in_bounds(p, size) && #[trigger] closed[index_of(p, size)] implies
            g2[index_of(p, size)] < u128::MAX by {
            lemma_other_index(p, neighbour, size);
            assert(g_costs[index_of(p, size)] < u128::MAX);
        }
    }
    assert(inv_cost(size, g2, order)) by {
        reveal(inv_cost);
        assert forall|i: int| 0 <= i < order.len() implies g2[index_of(#[trigger] order[i], size)]
            <= i * step_bound() by {
            assert(order.contains(order[i]));
            lemma_other_index(order[i], neighbour, size);
        }
    }
    assert(inv_covered(grid, f, diagonal, g2, order)) by {
        reveal(inv_covered);
        assert forall|i: int| 0 <= i < order.len() - 1 implies covered(
            grid,
            f,
            diagonal,
            g2,
            #[trigger] order[i],
        ) by {
            assert(covered(grid, f, diagonal, g_costs, order[i]));
            assert forall|n: UVec2|
                in_bounds(n, size) && #[trigger] adjacent(order[i], n, diagonal) && must_pass(
                    grid,
                    f,
                    order[i],
                    n,
                ) implies g2[index_of(n, size)] < u128::MAX by {
                lemma_other_index(n, neighbour, size);
            }
        }
    }
}

/// Every cell on a route of certainly passable moves is reached, once every
/// closed cell is covered and the frontier is empty.
pub(crate) proof fn lemma_sure_route_reached<T, F: Fn(UVec2, UVec2, &T) -> i32>(
    grid: &Matrix<T>,
    f: F,
    start: UVec2,
    target: UVec2,
    diagonal: bool,
    came_from: Seq<UVec2>,
    g_costs: Seq<u128>,
    closed: Seq<bool>,
    open: Map<u32, u128>,
    order: Seq<UVec2>,
    route: Seq<UVec2>,
    end: UVec2,
    upto: int,
)
    requires
        search_inv(grid, f, start, target, diagonal, came_from, g_costs, closed, open, order),
        order.len() > 0 ==> covered(grid, f, diagonal, g_costs, order[order.len() - 1]),
        forall|k: u32| !open.contains_key(k),
        is_sure_route(grid, f, route, start, end, diagonal),
        0 <= upto < route.len(),
    ensures
        in_bounds(route[upto], grid.spec_size()),
        g_costs[index_of(route[upto], grid.spec_size())] < u128::MAX,
        closed[index_of(route[upto], grid.spec_size())],
        route[upto] != target,
    decreases upto,
{
    let size = grid.spec_size();
    lemma_order_facts(size, start, target, closed, order);
    if upto > 0 {
        lemma_sure_route_reached(
            grid,
            f,
            start,
            target,
            diagonal,
            came_from,
            g_costs,
            closed,
            open,
            order,
            route,
            end,
            upto - 1,
        );
        let before = route[upto - 1];
        assert(sure_move(grid, f, before, route[upto - 1 + 1], diagonal));
        assert(order.contains(before));
        let i = choose|i: int| 0 <= i < order.len() && order[i] == before;
        assert(covered(grid, f, diagonal, g_costs, order[i])) by {
            reveal(inv_covered);
        }
        assert(adjacent(before, route[upto], diagonal));
    }
    let here = route[upto];
    lemma_index_in_range(here, size);
    assert(closed[index_of(here, size)]) by {
        reveal(inv_open);
    }
    assert(order.contains(here));
    let i = choose|i: int| 0 <= i < order.len() && order[i] == here;
    assert(order[i] != target);
}

/// The closed cells, in the order in which they were closed, are an
/// expansion.
pub(crate) proof fn lemma_order_is_expansion<T, F: Fn(UVec2, UVec2, &T) -> i32>(
    grid: &Matrix<T>,
    f: F,
    start: UVec2,
    target: UVec2,
    diagonal: bool,
    came_from: Seq<UVec2>,
    g_costs: Seq<u128>,
    closed: Seq<bool>,
    open: Map<u32, u128>,
    order: Seq<UVec2>,
)
    requires
        search_inv(grid, f, start, target, diagonal, came_from, g_costs, closed, open, order),
    ensures
        is_expansion(grid, f, order, start, target, diagonal),
{
    let size = grid.spec_size();
    lemma_order_facts(size, start, target, closed, order);
    assert forall|i: int| 0 < i < order.len() implies exists|j: int|
        0 <= j < i && legal_move(grid, f, #[trigger] order[j], #[trigger] order[i], diagonal) by {
        let p = order[i];
        lemma_index_in_range(p, size);
        assert(g_costs[index_of(p, size)] < u128::MAX) by {
            reveal(inv_open);
        }
        assert(has_link(grid, f, diagonal, came_from, order, p)) by {
            reveal(inv_links);
        }
        let j = choose|j: int|
            0 <= j < order.len() && #[trigger] order[j] == came_from[index_of(p, size)]
                && legal_move(grid, f, order[j], p, diagonal) && forall|m: int|
                0 <= m < order.len() && #[trigger] order[m] == p ==> j < m;
        assert(j < i);
        assert(legal_move(grid, f, order[j], order[i], diagonal));
    }
}

/// Before the first step only the start is reached, and it waits in the
/// frontier.
pub(crate) proof fn lemma_initial_state<T, F: Fn(UVec2, UVec2, &T) -> i32>(
    grid: &Matrix<T>,
    f: F,
    start: UVec2,
    target: UVec2,
    diagonal: bool,
    came_from: Seq<UVec2>,
    g_costs: Seq<u128>,
    closed: Seq<bool>,
    open: Map<u32, u128>,
)
    requires
        in_bounds(start, grid.spec_size()),
        grid.spec_size().area() <= u32::MAX,
        came_from.len() == grid.spec_size().area(),
        g_costs.len() == grid.spec_size().area(),
        closed.len() == grid.spec_size().area(),
        forall|k: int| 0 <= k < came_from.len() ==> came_from[k] == no_predecessor(),
        forall|k: int| 0 <= k < closed.len() ==> !closed[k],
        forall|k: int|
            0 <= k < g_costs.len() ==> g_costs[k] == if k == index_of(start, grid.spec_size()) {
                0
            } else {
                u128::MAX
            },
        open == Map::<u32, u128>::empty().insert(index_of(start, grid.spec_size()) as u32, 0),
    ensures
        search_inv(
            grid,
            f,
            start,
            target,
            diagonal,
            came_from,
            g_costs,
            closed,
            open,
            Seq::<UVec2>::empty(),
        ),
        open.dom() =~= set![index_of(start, grid.spec_size()) as u32],
{
    let size = grid.spec_size();
    let order = Seq::<UVec2>::empty();
    lemma_index_in_range(start, size);
    assert(inv_order(size, start, target, closed, order)) by {
        reveal(inv_order);
        assert forall|p: UVec2| in_bounds(p, size) implies (#[trigger] closed[index_of(p, size)]
            <==> order.contains(p)) by {
            lemma_index_in_range(p, size);
        }
    }
    assert(inv_links(grid, f, start, diagonal, came_from, g_costs, order)) by {
        reveal(inv_links);
        assert forall|p: UVec2|
            in_bounds(p, size) && p != start && #[trigger] g_costs[index_of(p, size)]
                < u128::MAX implies has_link(grid, f, diagonal, came_from, order, p) by {
            lemma_other_index(p, start, size);
        }
    }
    assert(inv_open(size, g_costs, closed, open)) by {
        reveal(inv_open);
        assert forall|p: UVec2|
            in_bounds(p, size) && #[trigger] g_costs[index_of(p, size)] < u128::MAX
                && !closed[index_of(p, size)] implies open.contains_key(index_of(p, size) as u32) by {
            lemma_other_index(p, start, size);
        }
        assert forall|p: UVec2| in_bounds(p, size) && #[trigger] closed[index_of(p, size)] implies
            g_costs[index_of(p, size)] < u128::MAX by {
            lemma_index_in_range(p, size);
        }
    }
    assert(inv_cost(size, g_costs, order)) by {
        reveal(inv_cost);
    }
    assert(inv_covered(grid, f, diagonal, g_costs, order)) by {
        reveal(inv_covered);
    }
}

} // verus!
