//! Breadth-first traversals of a grid: the search for one matching cell and
//! the flood over a connected region of matching cells.

use std::collections::VecDeque;
use vstd::prelude::*;
use crate::analysis::{lemma_picked_push, picked};
use crate::matrix::{in_bounds, index_of, lemma_index_injective, lemma_index_in_range, Matrix};
use crate::neighbours::{
    all_neighbours, cardinal_neighbours, cardinal_step, king_step, lemma_all_neighbours_distinct,
    lemma_all_neighbours_members, lemma_cardinal_neighbours_distinct,
    lemma_cardinal_neighbours_members,
};
use crate::vec2::UVec2;
use crate::visited::{lemma_bounded_set_len, visited_cells, visited_insert, visited_new, VisitedSet};

verus! {

/// The number of cardinal moves between `a` and `b`.
pub open spec fn manhattan(a: UVec2, b: UVec2) -> int {
    (if a.x >= b.x { a.x - b.x } else { b.x - a.x }) + (if a.y >= b.y { a.y - b.y } else { b.y - a.y })
}

/// Whether the predicate can answer `true` on the cell at `pos`.
pub open spec fn may_accept<T, F: Fn(&T, UVec2) -> bool>(grid: &Matrix<T>, f: F, pos: UVec2) -> bool {
    call_ensures(f, (&grid.at(pos), pos), true)
}

/// Whether the predicate can answer `false` on the cell at `pos`.
pub open spec fn may_reject<T, F: Fn(&T, UVec2) -> bool>(grid: &Matrix<T>, f: F, pos: UVec2) -> bool {
    call_ensures(f, (&grid.at(pos), pos), false)
}

/// Whether the predicate may be called on every cell of the grid.
pub open spec fn callable_on_grid<T, F: Fn(&T, UVec2) -> bool>(grid: &Matrix<T>, f: F) -> bool {
    forall|p: UVec2| in_bounds(p, grid.spec_size()) ==> call_requires(f, (&grid.at(p), p))
}

/// Whether the cell at `pos` has been reached.
pub(crate) open spec fn reached(visited: VisitedSet, pos: UVec2, size: UVec2) -> bool {
    visited_cells(visited).contains(index_of(pos, size) as u32)
}

/// A cell other than `start` has an in-bounds cardinal neighbour that is one
/// move nearer to `start`.
pub proof fn lemma_step_towards(start: UVec2, c: UVec2, size: UVec2) -> (n: UVec2)
    requires
        in_bounds(start, size),
        in_bounds(c, size),
        c != start,
    ensures
        in_bounds(n, size),
        cardinal_step(n, c),
        manhattan(start, n) == manhattan(start, c) - 1,
{
    if c.x > start.x {
        UVec2 { x: (c.x - 1) as u32, y: c.y }
    } else if c.x < start.x {
        UVec2 { x: (c.x + 1) as u32, y: c.y }
    } else if c.y > start.y {
        UVec2 { x: c.x, y: (c.y - 1) as u32 }
    } else {
        UVec2 { x: c.x, y: (c.y + 1) as u32 }
    }
}

/// A set of cells that holds `start` and, with each cell, its in-bounds
/// cardinal neighbours holds every cell of the grid.
pub proof fn lemma_closed_set_is_grid(cells: Set<UVec2>, start: UVec2, size: UVec2, c: UVec2)
    requires
        in_bounds(start, size),
        in_bounds(c, size),
        cells.contains(start),
        forall|p: UVec2, n: UVec2|
            cells.contains(p) && in_bounds(n, size) && cardinal_step(p, n) ==> cells.contains(n),
    ensures
        cells.contains(c),
    decreases manhattan(start, c),
{
    if c != start {
        let n = lemma_step_towards(start, c, size);
        lemma_closed_set_is_grid(cells, start, size, n);
    }
}

/// The neighbours of a cell under the chosen connectivity, in the order in
/// which a walk enqueues them.
pub open spec fn policy_neighbours(pos: UVec2, size: UVec2, diagonal: bool) -> Seq<UVec2> {
    if diagonal {
        all_neighbours(pos, size)
    } else {
        cardinal_neighbours(pos, size)
    }
}

/// The cells among `around` that `visited` does not hold, in their order.
pub open spec fn fresh_cells(around: Seq<UVec2>, visited: Set<UVec2>) -> Seq<UVec2> {
    picked(around.map_values(|c: UVec2| !visited.contains(c)), around)
}

/// The cells in the order in which a breadth-first walk dequeues them.
/// The walk starts with the cells of `queue` waiting and the cells of
/// `visited` seen; a dequeued cell that `expands` holds of has those of its
/// neighbours that are not yet seen enqueued, in their order. `steps` bounds
/// the number of cells that are dequeued.
pub open spec fn walk_order(
    size: UVec2,
    diagonal: bool,
    expands: spec_fn(UVec2) -> bool,
    queue: Seq<UVec2>,
    visited: Set<UVec2>,
    steps: nat,
) -> Seq<UVec2>
    decreases steps,
{
    if steps == 0 || queue.len() == 0 {
        Seq::empty()
    } else if expands(queue[0]) {
        seq![queue[0]] + walk_order(
            size,
            diagonal,
            expands,
            queue.drop_first() + fresh_cells(policy_neighbours(queue[0], size, diagonal), visited),
            visited.union(
                fresh_cells(policy_neighbours(queue[0], size, diagonal), visited).to_set(),
            ),
            (steps - 1) as nat,
        )
    } else {
        seq![queue[0]] + walk_order(
            size,
            diagonal,
            expands,
            queue.drop_first(),
            visited,
            (steps - 1) as nat,
        )
    }
}

/// The cells in the order in which a breadth-first walk from `start`
/// dequeues them, where the cells that `expands` holds of pass the walk on to
/// their neighbours. A grid has steps enough for every cell.
pub open spec fn breadth_first_order(
    size: UVec2,
    start: UVec2,
    diagonal: bool,
    expands: spec_fn(UVec2) -> bool,
) -> Seq<UVec2> {
    walk_order(size, diagonal, expands, seq![start], set![start], size.area())
}

/// The cells of the grid that the visited indices hold.
pub(crate) open spec fn cells_of(visited: Set<u32>, size: UVec2) -> Set<UVec2> {
    Set::new(|p: UVec2| in_bounds(p, size) && holds(visited, p, size))
}

/// Marks each listed cell as reached and appends those that were not reached
/// before to the queue.
fn enqueue_unreached<T>(
    grid: &Matrix<T>,
    cells: &Vec<UVec2>,
    queue: &mut VecDeque<UVec2>,
    visited: &mut VisitedSet,
)
    requires
        forall|i: int| 0 <= i < cells@.len() ==> in_bounds(#[trigger] cells@[i], grid.spec_size()),
        cells@.no_duplicates(),
        visited_cells(*old(visited)).finite(),
    ensures
        visited_cells(*final(visited)).finite(),
        forall|k: u32|
            visited_cells(*final(visited)).contains(k) <==> visited_cells(*old(visited)).contains(k)
                || exists|i: int|
                0 <= i < cells@.len() && index_of(#[trigger] cells@[i], grid.spec_size()) == k,
        final(queue)@.len() >= old(queue)@.len(),
        final(queue)@.take(old(queue)@.len() as int) == old(queue)@,
        final(queue)@.skip(old(queue)@.len() as int).no_duplicates(),
        forall|c: UVec2|
            #![trigger final(queue)@.skip(old(queue)@.len() as int).contains(c)]
            #![trigger cells@.contains(c)]
            final(queue)@.skip(old(queue)@.len() as int).contains(c) <==> cells@.contains(c)
                && !reached(*old(visited), c, grid.spec_size()),
        final(queue)@.len() - visited_cells(*final(visited)).len() == old(queue)@.len()
            - visited_cells(*old(visited)).len(),
        final(queue)@.skip(old(queue)@.len() as int) == fresh_cells(
            cells@,
            cells_of(visited_cells(*old(visited)), grid.spec_size()),
        ),
{
    let ghost size = grid.spec_size();
    let ghost base = queue@.len() as int;
    let ghost seen = cells_of(visited_cells(*visited), size);
    let mut i: usize = 0;
    proof {
        assert(cells@.take(0) =~= Seq::empty());
        assert(cells@.take(0).map_values(|c: UVec2| !seen.contains(c)) =~= Seq::empty());
        assert(queue@.skip(base) =~= Seq::empty());
    }
    while i < cells.len()
        invariant
            0 <= i <= cells@.len(),
            size == grid.spec_size(),
            base == old(queue)@.len(),
            forall|j: int| 0 <= j < cells@.len() ==> in_bounds(#[trigger] cells@[j], size),
            cells@.no_duplicates(),
            visited_cells(*visited).finite(),
            forall|k: u32|
                visited_cells(*visited).contains(k) <==> visited_cells(*old(visited)).contains(k)
                    || exists|j: int| 0 <= j < i && index_of(#[trigger] cells@[j], size) == k,
            queue@.len() >= base,
            queue@.take(base) == old(queue)@,
            queue@.skip(base).no_duplicates(),
            forall|c: UVec2|
                #![trigger queue@.skip(base).contains(c)]
                #![trigger cells@.take(i as int).contains(c)]
                queue@.skip(base).contains(c) <==> cells@.take(i as int).contains(c) && !reached(
                    *old(visited),
                    c,
                    size,
                ),
            queue@.len() - visited_cells(*visited).len() == base - visited_cells(
                *old(visited),
            ).len(),
            seen == cells_of(visited_cells(*old(visited)), size),
            queue@.skip(base) == fresh_cells(cells@.take(i as int), seen),
        decreases cells@.len() - i,
    {
        let cell = cells[i];
        let idx = grid.pos_to_idx(cell);
        let ghost before = *visited;
        let ghost queue_before = queue@;
        let fresh = visited_insert(visited, idx);
        let ghost pre = cells@.take(i as int);
        let ghost cur = cells@.take(i as int + 1);
        proof {
            assert forall|j: int| 0 <= j < i implies index_of(#[trigger] cells@[j], size) != idx by {
                if index_of(cells@[j], size) == idx {
                    lemma_index_injective(cells@[j], cell, size);
                }
            }
            assert(cur =~= pre.push(cell));
            assert(!pre.contains(cell)) by {
                if pre.contains(cell) {
                    let j = choose|j: int| 0 <= j < pre.len() && pre[j] == cell;
                    assert(cells@[j] == cells@[i as int]);
                }
            }
            assert(fresh <==> !reached(*old(visited), cell, size));
            assert(fresh == !seen.contains(cell));
            lemma_picked_push(
                pre.map_values(|c: UVec2| !seen.contains(c)),
                pre,
                !seen.contains(cell),
                cell,
            );
            assert(cur.map_values(|c: UVec2| !seen.contains(c)) =~= pre.map_values(
                |c: UVec2| !seen.contains(c),
            ).push(!seen.contains(cell)));
            assert(fresh_cells(cur, seen) == if fresh {
                fresh_cells(pre, seen).push(cell)
            } else {
                fresh_cells(pre, seen)
            });
        }
        if fresh {
            queue.push_back(cell);
            proof {
                assert(queue@.skip(base) =~= queue_before.skip(base).push(cell));
                assert(queue@.take(base) =~= queue_before.take(base));
                assert(!queue_before.skip(base).contains(cell));
                assert forall|c: UVec2|
                    #![trigger queue@.skip(base).contains(c)]
                    #![trigger cur.contains(c)]
                    queue@.skip(base).contains(c) <==> cur.contains(c)
                        && !reached(*old(visited), c, size) by {
                    if c == cell {
                        assert(queue@.skip(base)[queue_before.skip(base).len() as int] == cell);
                        assert(cur[i as int] == cell);
                    } else {
                        if queue@.skip(base).contains(c) {
                            let j = choose|j: int|
                                0 <= j < queue@.skip(base).len() && queue@.skip(base)[j] == c;
                            assert(queue_before.skip(base)[j] == c);
                            assert(queue_before.skip(base).contains(c));
                            assert(pre.contains(c));
                            let m = choose|m: int| 0 <= m < pre.len() && pre[m] == c;
                            assert(cur[m] == c);
                        }
                        if cur.contains(c) && !reached(
                            *old(visited),
                            c,
                            size,
                        ) {
                            let m = choose|m: int|
                                0 <= m < cur.len() && cur[m] == c;
                            assert(pre[m] == c);
                            assert(pre.contains(c));
                            assert(queue_before.skip(base).contains(c));
                            let j = choose|j: int|
                                0 <= j < queue_before.skip(base).len() && queue_before.skip(
                                    base,
                                )[j] == c;
                            assert(queue@.skip(base)[j] == c);
                        }
                    }
                }
                assert(queue@.skip(base).no_duplicates());
            }
        } else {
            proof {
                assert(visited_cells(*visited) =~= visited_cells(before));
                assert forall|c: UVec2|
                    #![trigger queue@.skip(base).contains(c)]
                    #![trigger cur.contains(c)]
                    queue@.skip(base).contains(c) <==> cur.contains(c)
                        && !reached(*old(visited), c, size) by {
                    if c != cell {
                        if cur.contains(c) {
                            let m = choose|m: int|
                                0 <= m < cur.len() && cur[m] == c;
                            assert(pre[m] == c);
                            assert(pre.contains(c));
                        }
                        if pre.contains(c) {
                            let m = choose|m: int| 0 <= m < pre.len() && pre[m] == c;
                            assert(cur[m] == c);
                            assert(cur.contains(c));
                        }
                    } else {
                        assert(reached(*old(visited), c, size));
                        if queue@.skip(base).contains(c) {
                            assert(pre.contains(c));
                        }
                    }
                }
            }
        }
        i += 1;
    }
    proof {
        assert(cells@.take(i as int) =~= cells@);
    }
}

/// What the search for one matching cell returns: a cell on which the
/// predicate answered `true`, its value, and the knowledge that the predicate
/// answered `false` on every cell nearer to the start; or nothing, when it
/// answered `false` on every cell of the grid.
pub open spec fn bfs_outcome<T, F: Fn(&T, UVec2) -> bool>(
    grid: &Matrix<T>,
    f: F,
    start: UVec2,
    found: Option<(UVec2, &T)>,
) -> bool {
    match found {
        Some((pos, value)) => {
            &&& in_bounds(pos, grid.spec_size())
            &&& *value == grid.at(pos)
            &&& may_accept(grid, f, pos)
            &&& forall|c: UVec2|
                in_bounds(c, grid.spec_size()) && manhattan(start, c) < manhattan(start, pos)
                    ==> #[trigger] may_reject(grid, f, c)
        },
        None => forall|c: UVec2|
            in_bounds(c, grid.spec_size()) ==> #[trigger] may_reject(grid, f, c),
    }
}

/// Whether `a` and `b` are one move apart under the chosen connectivity.
pub open spec fn adjacent(a: UVec2, b: UVec2, diagonal: bool) -> bool {
    if diagonal {
        king_step(a, b)
    } else {
        cardinal_step(a, b)
    }
}

/// What a flood returns. Every listed cell is one on which the predicate
/// answered `true`, with its value, and none is listed twice. The list starts
/// with the seed, and each later cell is adjacent to an earlier one. Around
/// the listed cells the predicate answered `false`: on each unlisted
/// neighbour of a listed cell, and on the seed when the list is empty.
pub open spec fn flood_outcome<T, F: Fn(&T, UVec2) -> bool>(
    grid: &Matrix<T>,
    f: F,
    start: UVec2,
    found: Seq<(UVec2, &T)>,
    diagonal: bool,
) -> bool {
    &&& forall|i: int|
        0 <= i < found.len() ==> in_bounds((#[trigger] found[i]).0, grid.spec_size())
            && *found[i].1 == grid.at(found[i].0) && may_accept(grid, f, found[i].0)
    &&& forall|i: int, j: int|
        0 <= i < j < found.len() ==> (#[trigger] found[i]).0 != (#[trigger] found[j]).0
    &&& found.len() == 0 ==> may_reject(grid, f, start)
    &&& found.len() > 0 ==> found[0].0 == start
    &&& forall|i: int|
        0 < i < found.len() ==> exists|j: int|
            0 <= j < i && adjacent((#[trigger] found[j]).0, (#[trigger] found[i]).0, diagonal)
    &&& forall|i: int, n: UVec2|
        0 <= i < found.len() && in_bounds(n, grid.spec_size()) && #[trigger] adjacent(
            found[i].0,
            n,
            diagonal,
        ) ==> listed(found, n) || may_reject(grid, f, n)
}

/// Whether the flood result lists the cell `pos`.
pub open spec fn listed<T>(found: Seq<(UVec2, &T)>, pos: UVec2) -> bool {
    exists|j: int| 0 <= j < found.len() && (#[trigger] found[j]).0 == pos
}

/// Whether the visited indices hold the cell `pos`.
pub(crate) open spec fn holds(visited: Set<u32>, pos: UVec2, size: UVec2) -> bool {
    visited.contains(index_of(pos, size) as u32)
}

/// The queued cells are cells of the grid, none queued twice.
#[verifier::opaque]
pub(crate) open spec fn fl_queue(size: UVec2, queue: Seq<UVec2>) -> bool {
    &&& queue.no_duplicates()
    &&& forall|i: int| 0 <= i < queue.len() ==> in_bounds(#[trigger] queue[i], size)
}

/// The listed cells are accepted cells with their values, none listed twice
/// and none still queued.
#[verifier::opaque]
pub(crate) open spec fn fl_found<T, F: Fn(&T, UVec2) -> bool>(
    grid: &Matrix<T>,
    f: F,
    found: Seq<(UVec2, &T)>,
    queue: Seq<UVec2>,
) -> bool {
    &&& forall|i: int|
        0 <= i < found.len() ==> in_bounds((#[trigger] found[i]).0, grid.spec_size())
            && *found[i].1 == grid.at(found[i].0) && may_accept(grid, f, found[i].0)
            && !queue.contains(found[i].0)
    &&& forall|i: int, j: int|
        0 <= i < j < found.len() ==> (#[trigger] found[i]).0 != (#[trigger] found[j]).0
}

/// The rejected cells are cells on which the predicate answered `false`,
/// neither queued nor listed.
#[verifier::opaque]
pub(crate) open spec fn fl_rejected<T, F: Fn(&T, UVec2) -> bool>(
    grid: &Matrix<T>,
    f: F,
    rejected: Set<UVec2>,
    queue: Seq<UVec2>,
    found: Seq<(UVec2, &T)>,
) -> bool {
    forall|p: UVec2| #[trigger]
        rejected.contains(p) ==> in_bounds(p, grid.spec_size()) && may_reject(grid, f, p)
            && !queue.contains(p) && !listed(found, p)
}

/// A cell is visited exactly when it is listed, rejected or queued.
#[verifier::opaque]
pub(crate) open spec fn fl_reached<T>(
    size: UVec2,
    visited: Set<u32>,
    queue: Seq<UVec2>,
    found: Seq<(UVec2, &T)>,
    rejected: Set<UVec2>,
) -> bool {
    forall|p: UVec2|
        in_bounds(p, size) ==> (#[trigger] holds(visited, p, size) <==> listed(found, p)
            || rejected.contains(p) || queue.contains(p))
}

/// The seed is the first cell to be listed; while nothing is listed, it is
/// either the only queued cell or a rejected one, nothing being queued.
#[verifier::opaque]
pub(crate) open spec fn fl_seed<T, F: Fn(&T, UVec2) -> bool>(
    grid: &Matrix<T>,
    f: F,
    start: UVec2,
    queue: Seq<UVec2>,
    found: Seq<(UVec2, &T)>,
) -> bool {
    &&& found.len() == 0 ==> queue =~= seq![start] || (queue.len() == 0 && may_reject(
        grid,
        f,
        start,
    ))
    &&& found.len() > 0 ==> found[0].0 == start
}

/// Whether an earlier listed cell than the one at `upto` is adjacent to `c`.
pub(crate) open spec fn joined<T>(found: Seq<(UVec2, &T)>, upto: int, c: UVec2, diagonal: bool) -> bool {
    exists|j: int| 0 <= j < upto && j < found.len() && adjacent((#[trigger] found[j]).0, c, diagonal)
}

/// Each queued cell but the seed, and each listed cell but the first, is
/// adjacent to a cell listed before it.
#[verifier::opaque]
pub(crate) open spec fn fl_links<T>(
    start: UVec2,
    diagonal: bool,
    queue: Seq<UVec2>,
    found: Seq<(UVec2, &T)>,
) -> bool {
    &&& forall|i: int|
        0 <= i < queue.len() ==> #[trigger] queue[i] == start || joined(
            found,
            found.len() as int,
            queue[i],
            diagonal,
        )
    &&& forall|i: int| 0 < i < found.len() ==> joined(found, i, (#[trigger] found[i]).0, diagonal)
}

/// Each neighbour of a listed cell is visited.
#[verifier::opaque]
pub(crate) open spec fn fl_front<T>(
    size: UVec2,
    diagonal: bool,
    visited: Set<u32>,
    found: Seq<(UVec2, &T)>,
) -> bool {
    forall|i: int, n: UVec2|
        0 <= i < found.len() && in_bounds(n, size) && #[trigger] adjacent(found[i].0, n, diagonal)
            ==> holds(visited, n, size)
}

/// What holds of a flood between two steps.
pub(crate) open spec fn flood_inv<T, F: Fn(&T, UVec2) -> bool>(
    grid: &Matrix<T>,
    f: F,
    start: UVec2,
    diagonal: bool,
    visited: Set<u32>,
    queue: Seq<UVec2>,
    found: Seq<(UVec2, &T)>,
    rejected: Set<UVec2>,
) -> bool {
    &&& fl_queue(grid.spec_size(), queue)
    &&& fl_found(grid, f, found, queue)
    &&& fl_rejected(grid, f, rejected, queue, found)
    &&& fl_reached(grid.spec_size(), visited, queue, found, rejected)
    &&& fl_seed(grid, f, start, queue, found)
    &&& fl_links(start, diagonal, queue, found)
    &&& fl_front(grid.spec_size(), diagonal, visited, found)
}

/// How the visited cells and the queue change when the neighbours `around`
/// of `pos` are offered to the queue after `pos` has left it.
pub(crate) open spec fn offers(
    size: UVec2,
    diagonal: bool,
    pos: UVec2,
    around: Seq<UVec2>,
    visited: Set<u32>,
    visited_after: Set<u32>,
    rest: Seq<UVec2>,
    queue_after: Seq<UVec2>,
) -> bool {
    &&& forall|n: UVec2|
        #![trigger around.contains(n)]
        #![trigger adjacent(pos, n, diagonal)]
        around.contains(n) <==> in_bounds(n, size) && adjacent(pos, n, diagonal)
    &&& forall|k: u32|
        visited_after.contains(k) <==> visited.contains(k) || exists|i: int|
            0 <= i < around.len() && index_of(#[trigger] around[i], size) == k
    &&& queue_after.len() >= rest.len()
    &&& queue_after.take(rest.len() as int) == rest
    &&& queue_after.skip(rest.len() as int).no_duplicates()
    &&& forall|c: UVec2|
        #![trigger queue_after.skip(rest.len() as int).contains(c)]
        #![trigger around.contains(c)]
        queue_after.skip(rest.len() as int).contains(c) <==> around.contains(c) && !holds(
            visited,
            c,
            size,
        )
}

/// What is known of the cell at the head of the queue.
proof fn lemma_flood_head<T, F: Fn(&T, UVec2) -> bool>(
    grid: &Matrix<T>,
    f: F,
    start: UVec2,
    diagonal: bool,
    visited: Set<u32>,
    queue: Seq<UVec2>,
    found: Seq<(UVec2, &T)>,
    rejected: Set<UVec2>,
)
    requires
        flood_inv(grid, f, start, diagonal, visited, queue, found, rejected),
        queue.len() > 0,
    ensures
        in_bounds(queue[0], grid.spec_size()),
        holds(visited, queue[0], grid.spec_size()),
        !listed(found, queue[0]),
        !rejected.contains(queue[0]),
        !queue.subrange(1, queue.len() as int).contains(queue[0]),
        queue[0] == start || joined(found, found.len() as int, queue[0], diagonal),
        found.len() == 0 ==> queue[0] == start && queue.len() == 1,
        forall|p: UVec2|
            queue.contains(p) <==> p == queue[0] || #[trigger] queue.subrange(
                1,
                queue.len() as int,
            ).contains(p),
{
    let size = grid.spec_size();
    let pos = queue[0];
    let rest = queue.subrange(1, queue.len() as int);
    reveal(fl_queue);
    assert(queue.contains(pos));
    assert(!listed(found, pos)) by {
        reveal(fl_found);
        if listed(found, pos) {
            let j = choose|j: int| 0 <= j < found.len() && (#[trigger] found[j]).0 == pos;
            assert(!queue.contains(found[j].0));
        }
    }
    assert(!rejected.contains(pos)) by {
        reveal(fl_rejected);
    }
    assert(holds(visited, pos, size)) by {
        reveal(fl_reached);
    }
    assert(pos == start || joined(found, found.len() as int, pos, diagonal)) by {
        reveal(fl_links);
    }
    assert(found.len() == 0 ==> pos == start && queue.len() == 1) by {
        reveal(fl_seed);
    }
    assert forall|p: UVec2|
        queue.contains(p) <==> p == queue[0] || #[trigger] rest.contains(p) by {
        if queue.contains(p) && p != pos {
            let i = choose|i: int| 0 <= i < queue.len() && queue[i] == p;
            assert(rest[i - 1] == p);
        }
        if rest.contains(p) {
            let i = choose|i: int| 0 <= i < rest.len() && rest[i] == p;
            assert(queue[i + 1] == p);
        }
    }
    if rest.contains(pos) {
        let i = choose|i: int| 0 <= i < rest.len() && rest[i] == pos;
        assert(queue[i + 1] == pos);
    }
}

/// A flood stays consistent when the head of the queue is rejected.
proof fn lemma_flood_reject<T, F: Fn(&T, UVec2) -> bool>(
    grid: &Matrix<T>,
    f: F,
    start: UVec2,
    diagonal: bool,
    visited: Set<u32>,
    queue: Seq<UVec2>,
    found: Seq<(UVec2, &T)>,
    rejected: Set<UVec2>,
)
    requires
        flood_inv(grid, f, start, diagonal, visited, queue, found, rejected),
        queue.len() > 0,
        may_reject(grid, f, queue[0]),
    ensures
        flood_inv(
            grid,
            f,
            start,
            diagonal,
            visited,
            queue.subrange(1, queue.len() as int),
            found,
            rejected.insert(queue[0]),
        ),
{
    let size = grid.spec_size();
    let pos = queue[0];
    let rest = queue.subrange(1, queue.len() as int);
    let rejected2 = rejected.insert(pos);
    lemma_flood_head(grid, f, start, diagonal, visited, queue, found, rejected);
    assert(fl_queue(size, rest)) by {
        reveal(fl_queue);
        assert forall|i: int, j: int| 0 <= i < j < rest.len() implies rest[i] != rest[j] by {
            assert(queue[i + 1] != queue[j + 1]);
        }
        assert forall|i: int| 0 <= i < rest.len() implies in_bounds(#[trigger] rest[i], size) by {
            assert(rest[i] == queue[i + 1]);
        }
    }
    assert(fl_found(grid, f, found, rest)) by {
        reveal(fl_found);
    }
    assert(fl_rejected(grid, f, rejected2, rest, found)) by {
        reveal(fl_rejected);
    }
    assert(fl_reached(size, visited, rest, found, rejected2)) by {
        reveal(fl_reached);
    }
    assert(fl_seed(grid, f, start, rest, found)) by {
        reveal(fl_seed);
    }
    assert(fl_links(start, diagonal, rest, found)) by {
        reveal(fl_links);
        assert forall|i: int| 0 <= i < rest.len() implies #[trigger] rest[i] == start || joined(
            found,
            found.len() as int,
            rest[i],
            diagonal,
        ) by {
            assert(rest[i] == queue[i + 1]);
        }
    }
}

/// A flood stays consistent when the head of the queue is accepted and its
/// neighbours are offered to the queue.
proof fn lemma_flood_accept<T, F: Fn(&T, UVec2) -> bool>(
    grid: &Matrix<T>,
    f: F,
    start: UVec2,
    diagonal: bool,
    visited: Set<u32>,
    queue: Seq<UVec2>,
    found: Seq<(UVec2, &T)>,
    rejected: Set<UVec2>,
    value: &T,
    around: Seq<UVec2>,
    visited_after: Set<u32>,
    queue_after: Seq<UVec2>,
)
    requires
        flood_inv(grid, f, start, diagonal, visited, queue, found, rejected),
        queue.len() > 0,
        grid.spec_size().area() <= u32::MAX,
        may_accept(grid, f, queue[0]),
        *value == grid.at(queue[0]),
        offers(
            grid.spec_size(),
            diagonal,
            queue[0],
            around,
            visited,
            visited_after,
            queue.subrange(1, queue.len() as int),
            queue_after,
        ),
    ensures
        flood_inv(
            grid,
            f,
            start,
            diagonal,
            visited_after,
            queue_after,
            found.push((queue[0], value)),
            rejected,
        ),
        forall|k: u32|
            visited_after.contains(k) && !visited.contains(k) ==> k < grid.spec_size().area(),
{
    let size = grid.spec_size();
    let pos = queue[0];
    let rest = queue.subrange(1, queue.len() as int);
    let base = rest.len() as int;
    let added = queue_after.skip(base);
    let found2 = found.push((pos, value));
    let last = found.len() as int;
    lemma_flood_head(grid, f, start, diagonal, visited, queue, found, rejected);
    assert forall|i: int| 0 <= i < base implies #[trigger] queue_after[i] == rest[i] by {
        assert(queue_after.take(base)[i] == queue_after[i]);
    }
    assert forall|i: int| base <= i < queue_after.len() implies #[trigger] queue_after[i]
        == added[i - base] by {}
    assert forall|p: UVec2| #[trigger] queue_after.contains(p) <==> rest.contains(p)
        || added.contains(p) by {
        if queue_after.contains(p) {
            let i = choose|i: int| 0 <= i < queue_after.len() && queue_after[i] == p;
            if i < base {
                assert(rest[i] == p);
            } else {
                assert(added[i - base] == p);
            }
        }
        if rest.contains(p) {
            let i = choose|i: int| 0 <= i < rest.len() && rest[i] == p;
            assert(queue_after[i] == p);
        }
        if added.contains(p) {
            let i = choose|i: int| 0 <= i < added.len() && added[i] == p;
            assert(queue_after[i + base] == p);
        }
    }
    assert forall|p: UVec2| #[trigger] listed(found2, p) <==> listed(found, p) || p == pos by {
        if listed(found2, p) {
            let j = choose|j: int| 0 <= j < found2.len() && (#[trigger] found2[j]).0 == p;
            if j < last {
                assert(found[j].0 == p);
            }
        }
        if listed(found, p) {
            let j = choose|j: int| 0 <= j < found.len() && (#[trigger] found[j]).0 == p;
            assert(found2[j].0 == p);
        }
        if p == pos {
            assert(found2[last].0 == p);
        }
    }
    assert forall|p: UVec2| in_bounds(p, size) implies (#[trigger] holds(visited_after, p, size)
        <==> holds(visited, p, size) || around.contains(p)) by {
        lemma_index_in_range(p, size);
        if holds(visited_after, p, size) && !holds(visited, p, size) {
            let i = choose|i: int|
                0 <= i < around.len() && index_of(#[trigger] around[i], size) == index_of(
                    p,
                    size,
                ) as u32;
            assert(around.contains(around[i]));
            lemma_index_in_range(around[i], size);
            lemma_index_injective(around[i], p, size);
        }
        if around.contains(p) {
            let i = choose|i: int| 0 <= i < around.len() && around[i] == p;
            assert(index_of(around[i], size) == index_of(p, size) as u32);
        }
    }
    assert forall|k: u32| visited_after.contains(k) && !visited.contains(k) implies k
        < size.area() by {
        let i = choose|i: int| 0 <= i < around.len() && index_of(#[trigger] around[i], size) == k;
        assert(around.contains(around[i]));
        lemma_index_in_range(around[i], size);
    }
    assert(fl_queue(size, queue_after)) by {
        reveal(fl_queue);
        assert forall|i: int, j: int| 0 <= i < j < queue_after.len() implies queue_after[i]
            != queue_after[j] by {
            if j < base {
                assert(queue[i + 1] != queue[j + 1]);
            } else if i >= base {
                assert(added[i - base] != added[j - base]);
            } else {
                assert(rest.contains(queue_after[i]));
                assert(queue.contains(queue_after[i]));
                assert(added.contains(added[j - base]));
                assert(holds(visited, queue_after[i], size)) by {
                    reveal(fl_reached);
                }
            }
        }
        assert forall|i: int| 0 <= i < queue_after.len() implies in_bounds(
            #[trigger] queue_after[i],
            size,
        ) by {
            if i < base {
                assert(rest[i] == queue[i + 1]);
            } else {
                assert(added.contains(added[i - base]));
            }
        }
    }
    assert(fl_found(grid, f, found2, queue_after)) by {
        reveal(fl_found);
        assert forall|i: int| 0 <= i < found2.len() implies in_bounds(
            (#[trigger] found2[i]).0,
            size,
        ) && *found2[i].1 == grid.at(found2[i].0) && may_accept(grid, f, found2[i].0)
            && !queue_after.contains(found2[i].0) by {
            let c = found2[i].0;
            if i < last {
                assert(found2[i] == found[i]);
                assert(listed(found, c));
            }
            assert(listed(found2, c));
            if added.contains(c) {
                assert(holds(visited, c, size)) by {
                    reveal(fl_reached);
                }
            }
        }
        assert forall|i: int, j: int| 0 <= i < j < found2.len() implies (#[trigger] found2[i]).0
            != (#[trigger] found2[j]).0 by {
            assert(found2[i] == found[i]);
            if j < last {
                assert(found2[j] == found[j]);
            } else {
                assert(listed(found, found[i].0));
            }
        }
    }
    assert(fl_rejected(grid, f, rejected, queue_after, found2)) by {
        reveal(fl_rejected);
        assert forall|p: UVec2| #[trigger] rejected.contains(p) implies in_bounds(p, size)
            && may_reject(grid, f, p) && !queue_after.contains(p) && !listed(found2, p) by {
            assert(!queue.contains(p));
            if added.contains(p) {
                assert(holds(visited, p, size)) by {
                    reveal(fl_reached);
                }
            }
        }
    }
    assert(fl_reached(size, visited_after, queue_after, found2, rejected)) by {
        reveal(fl_reached);
        assert forall|p: UVec2| in_bounds(p, size) implies (#[trigger] holds(
            visited_after,
            p,
            size,
        ) <==> listed(found2, p) || rejected.contains(p) || queue_after.contains(p)) by {
            assert(holds(visited, p, size) <==> listed(found, p) || rejected.contains(p)
                || queue.contains(p));
            assert(queue_after.contains(p) <==> rest.contains(p) || added.contains(p));
            assert(listed(found2, p) <==> listed(found, p) || p == pos);
        }
    }
    assert(fl_seed(grid, f, start, queue_after, found2)) by {
        reveal(fl_seed);
        if last > 0 {
            assert(found2[0] == found[0]);
        }
    }
    assert(fl_links(start, diagonal, queue_after, found2)) by {
        reveal(fl_links);
        assert forall|c: UVec2, upto: int| joined(found, upto, c, diagonal) implies #[trigger] joined(
            found2,
            upto,
            c,
            diagonal,
        ) by {
            let j = choose|j: int|
                0 <= j < upto && j < found.len() && adjacent((#[trigger] found[j]).0, c, diagonal);
            assert(found2[j] == found[j]);
        }
        assert forall|i: int| 0 <= i < queue_after.len() implies #[trigger] queue_after[i] == start
            || joined(found2, found2.len() as int, queue_after[i], diagonal) by {
            let c = queue_after[i];
            if i < base {
                assert(c == queue[i + 1]);
                if c != start {
                    assert(joined(found, found.len() as int, c, diagonal));
                    let j = choose|j: int|
                        0 <= j < found.len() && adjacent((#[trigger] found[j]).0, c, diagonal);
                    assert(found2[j] == found[j]);
                }
            } else {
                assert(added.contains(added[i - base]));
                assert(adjacent(found2[last].0, c, diagonal));
            }
        }
        assert forall|i: int| 0 < i < found2.len() implies joined(
            found2,
            i,
            (#[trigger] found2[i]).0,
            diagonal,
        ) by {
            if i < last {
                assert(found2[i] == found[i]);
                assert(joined(found, i, found[i].0, diagonal));
            } else {
                assert(pos != start) by {
                    reveal(fl_seed);
                    assert(found[0].0 == start);
                }
                let j = choose|j: int|
                    0 <= j < found.len() && adjacent((#[trigger] found[j]).0, pos, diagonal);
                assert(found2[j] == found[j]);
            }
        }
    }
    assert(fl_front(size, diagonal, visited_after, found2)) by {
        reveal(fl_front);
        assert forall|i: int, n: UVec2|
            0 <= i < found2.len() && in_bounds(n, size) && #[trigger] adjacent(
                found2[i].0,
                n,
                diagonal,
            ) implies holds(visited_after, n, size) by {
            if i < last {
                assert(found2[i] == found[i]);
                assert(adjacent(found[i].0, n, diagonal));
                assert(holds(visited, n, size));
            } else {
                assert(around.contains(n));
            }
        }
    }
}

/// Once the queue is empty, the listed cells are what a flood returns.
proof fn lemma_flood_done<T, F: Fn(&T, UVec2) -> bool>(
    grid: &Matrix<T>,
    f: F,
    start: UVec2,
    diagonal: bool,
    visited: Set<u32>,
    found: Seq<(UVec2, &T)>,
    rejected: Set<UVec2>,
)
    requires
        flood_inv(grid, f, start, diagonal, visited, Seq::<UVec2>::empty(), found, rejected),
    ensures
        flood_outcome(grid, f, start, found, diagonal),
{
    let size = grid.spec_size();
    let queue = Seq::<UVec2>::empty();
    assert(forall|i: int|
        0 <= i < found.len() ==> in_bounds((#[trigger] found[i]).0, grid.spec_size())
            && *found[i].1 == grid.at(found[i].0) && may_accept(grid, f, found[i].0)) by {
        reveal(fl_found);
    }
    assert(forall|i: int, j: int|
        0 <= i < j < found.len() ==> (#[trigger] found[i]).0 != (#[trigger] found[j]).0) by {
        reveal(fl_found);
    }
    assert((found.len() == 0 ==> may_reject(grid, f, start)) && (found.len() > 0 ==> found[0].0
        == start)) by {
        reveal(fl_seed);
        assert(!(queue =~= seq![start]));
    }
    assert forall|i: int| 0 < i < found.len() implies exists|j: int|
        0 <= j < i && adjacent((#[trigger] found[j]).0, (#[trigger] found[i]).0, diagonal) by {
        reveal(fl_links);
        assert(joined(found, i, found[i].0, diagonal));
    }
    assert forall|i: int, n: UVec2|
        0 <= i < found.len() && in_bounds(n, grid.spec_size()) && #[trigger] adjacent(
            found[i].0,
            n,
            diagonal,
        ) implies listed(found, n) || may_reject(grid, f, n) by {
        assert(holds(visited, n, size)) by {
            reveal(fl_front);
        }
        assert(listed(found, n) || rejected.contains(n)) by {
            reveal(fl_reached);
        }
        reveal(fl_rejected);
    }
}

/// Before the first step the seed is the only visited and the only queued
/// cell.
proof fn lemma_flood_begin<T, F: Fn(&T, UVec2) -> bool>(
    grid: &Matrix<T>,
    f: F,
    start: UVec2,
    diagonal: bool,
    visited: Set<u32>,
)
    requires
        in_bounds(start, grid.spec_size()),
        grid.spec_size().area() <= u32::MAX,
        visited == Set::<u32>::empty().insert(index_of(start, grid.spec_size()) as u32),
    ensures
        flood_inv(
            grid,
            f,
            start,
            diagonal,
            visited,
            seq![start],
            Seq::<(UVec2, &T)>::empty(),
            Set::<UVec2>::empty(),
        ),
{
    let size = grid.spec_size();
    let queue = seq![start];
    let found = Seq::<(UVec2, &T)>::empty();
    let rejected = Set::<UVec2>::empty();
    lemma_index_in_range(start, size);
    assert(fl_queue(size, queue)) by {
        reveal(fl_queue);
    }
    assert(fl_found(grid, f, found, queue)) by {
        reveal(fl_found);
    }
    assert(fl_rejected(grid, f, rejected, queue, found)) by {
        reveal(fl_rejected);
    }
    assert(fl_reached(size, visited, queue, found, rejected)) by {
        reveal(fl_reached);
        assert forall|p: UVec2| in_bounds(p, size) implies (#[trigger] holds(visited, p, size)
            <==> listed(found, p) || rejected.contains(p) || queue.contains(p)) by {
            lemma_index_in_range(p, size);
            if holds(visited, p, size) {
                lemma_index_injective(p, start, size);
                assert(queue[0] == p);
            }
        }
    }
    assert(fl_seed(grid, f, start, queue, found)) by {
        reveal(fl_seed);
    }
    assert(fl_links(start, diagonal, queue, found)) by {
        reveal(fl_links);
    }
    assert(fl_front(size, diagonal, visited, found)) by {
        reveal(fl_front);
    }
}

impl<T> Matrix<T> {
    /// The flood shared by both connectivities: cells are dequeued in
    /// breadth-first order, and only a cell on which `search_fn` answers `true`
    /// is listed and has its neighbours enqueued.
    fn flood<F: Fn(&T, UVec2) -> bool>(&self, starting_pos: UVec2, search_fn: &F, diagonal: bool) -> (found:
        Vec<(UVec2, &T)>)
        requires
            in_bounds(starting_pos, self.spec_size()),
            callable_on_grid(self, *search_fn),
        ensures
            flood_outcome(self, *search_fn, starting_pos, found@, diagonal),
            flood_in_order(self, *search_fn, starting_pos, found@, diagonal),
    {
        let ghost size = self.spec_size();
        let ghost start = starting_pos;
        let count = self.element_count();
        let mut found: Vec<(UVec2, &T)> = Vec::new();
        let mut queue: VecDeque<UVec2> = VecDeque::new();
        let mut visited = visited_new();
        let ghost mut rejected: Set<UVec2> = Set::empty();
        let ghost mut emitted: Seq<UVec2> = Seq::empty();
        queue.push_back(starting_pos);
        let start_idx = self.pos_to_idx(starting_pos);
        let _ = visited_insert(&mut visited, start_idx);
        proof {
            assert(queue@ =~= seq![start]);
            assert(found@ =~= Seq::<(UVec2, &T)>::empty());
            lemma_flood_begin(self, *search_fn, start, diagonal, visited_cells(visited));
            lemma_sim_begin(self, *search_fn, start, diagonal, visited_cells(visited));
            lemma_bounded_set_len(visited_cells(visited), count as nat);
        }
        while queue.len() > 0
            invariant
                size == self.spec_size(),
                start == starting_pos,
                count == size.area(),
                callable_on_grid(self, *search_fn),
                visited_cells(visited).finite(),
                visited_cells(visited).len() <= count,
                forall|k: u32| visited_cells(visited).contains(k) ==> k < count,
                flood_inv(
                    self,
                    *search_fn,
                    start,
                    diagonal,
                    visited_cells(visited),
                    queue@,
                    found@,
                    rejected,
                ),
                fl_sim(
                    self,
                    *search_fn,
                    start,
                    diagonal,
                    visited_cells(visited),
                    queue@,
                    found@,
                    emitted,
                ),
                emitted.len() + queue@.len() == visited_cells(visited).len(),
            decreases count - visited_cells(visited).len() + queue@.len(),
        {
            let ghost queue_before = queue@;
            let ghost visited_before = visited_cells(visited);
            let ghost found_before = found@;
            proof {
                lemma_flood_head(
                    self,
                    *search_fn,
                    start,
                    diagonal,
                    visited_before,
                    queue_before,
                    found_before,
                    rejected,
                );
            }
            let pos = queue.pop_front().unwrap();
            let ghost rest = queue@;
            let value = self.cell_at(pos);
            let accepted = search_fn(value, pos);
            if accepted {
                found.push((pos, value));
                let neighbours = if diagonal {
                    self.neighbours(pos)
                } else {
                    self.neighbours_no_diag(pos)
                };
                proof {
                    lemma_cardinal_neighbours_distinct(pos, size);
                    lemma_all_neighbours_distinct(pos, size);
                }
                enqueue_unreached(self, &neighbours, &mut queue, &mut visited);
                proof {
                    assert forall|n: UVec2|
                        #![trigger neighbours@.contains(n)]
                        #![trigger adjacent(pos, n, diagonal)]
                        neighbours@.contains(n) <==> in_bounds(n, size) && adjacent(
                            pos,
                            n,
                            diagonal,
                        ) by {
                        lemma_cardinal_neighbours_members(pos, size, n);
                        lemma_all_neighbours_members(pos, size, n);
                    }
                    assert(offers(
                        size,
                        diagonal,
                        pos,
                        neighbours@,
                        visited_before,
                        visited_cells(visited),
                        rest,
                        queue@,
                    ));
                    lemma_flood_accept(
                        self,
                        *search_fn,
                        start,
                        diagonal,
                        visited_before,
                        queue_before,
                        found_before,
                        rejected,
                        value,
                        neighbours@,
                        visited_cells(visited),
                        queue@,
                    );
                    lemma_bounded_set_len(visited_cells(visited), count as nat);
                    lemma_offers_cells(
                        size,
                        diagonal,
                        pos,
                        neighbours@,
                        visited_before,
                        visited_cells(visited),
                        rest,
                        queue@,
                    );
                    lemma_fl_sim_step(
                        self,
                        *search_fn,
                        start,
                        diagonal,
                        visited_before,
                        queue_before,
                        found_before,
                        emitted,
                        value,
                        accepted,
                        visited_cells(visited),
                        queue@,
                    );
                    emitted = emitted.push(pos);
                }
            } else {
                proof {
                    lemma_flood_reject(
                        self,
                        *search_fn,
                        start,
                        diagonal,
                        visited_before,
                        queue_before,
                        found_before,
                        rejected,
                    );
                    rejected = rejected.insert(pos);
                    lemma_fl_sim_step(
                        self,
                        *search_fn,
                        start,
                        diagonal,
                        visited_before,
                        queue_before,
                        found_before,
                        emitted,
                        value,
                        accepted,
                        visited_cells(visited),
                        queue@,
                    );
                    emitted = emitted.push(pos);
                }
            }
        }
        proof {
            assert(queue@ =~= Seq::<UVec2>::empty());
            lemma_flood_done(
                self,
                *search_fn,
                start,
                diagonal,
                visited_cells(visited),
                found@,
                rejected,
            );
            lemma_fl_sim_done(
                self,
                *search_fn,
                start,
                diagonal,
                visited_cells(visited),
                found@,
                emitted,
            );
        }
        found
    }

    /// The flood over cardinal moves from `starting_pos`: the connected
    /// cells on which `search_fn` answers `true`, with their values, in the
    /// order in which they were dequeued. A seed on which it answers `false`
    /// gives the empty list.
    pub fn bfs_multi(&self, starting_pos: UVec2, search_fn: impl Fn(&T, UVec2) -> bool) -> (found:
        Vec<(UVec2, &T)>)
        requires
            in_bounds(starting_pos, self.spec_size()),
            callable_on_grid(self, search_fn),
        ensures
            flood_outcome(self, search_fn, starting_pos, found@, false),
            flood_in_order(self, search_fn, starting_pos, found@, false),
    {
        self.flood(starting_pos, &search_fn, false)
    }

    /// The flood of `bfs_multi` with diagonal moves allowed as well.
    pub fn bfs_multi_with_diag(
        &self,
        starting_pos: UVec2,
        search_fn: impl Fn(&T, UVec2) -> bool,
    ) -> (found: Vec<(UVec2, &T)>)
        requires
            in_bounds(starting_pos, self.spec_size()),
            callable_on_grid(self, search_fn),
        ensures
            flood_outcome(self, search_fn, starting_pos, found@, true),
            flood_in_order(self, search_fn, starting_pos, found@, true),
    {
        self.flood(starting_pos, &search_fn, true)
    }
}

/// The queued cells are cells of the grid, none queued twice, in the order
/// of their distance from the start, the last at most one move farther out
/// than the first.
#[verifier::opaque]
pub(crate) open spec fn bf_queue(size: UVec2, start: UVec2, queue: Seq<UVec2>) -> bool {
    &&& queue.no_duplicates()
    &&& forall|i: int| 0 <= i < queue.len() ==> in_bounds(#[trigger] queue[i], size)
    &&& forall|i: int, j: int|
        0 <= i <= j < queue.len() ==> manhattan(start, #[trigger] queue[i]) <= manhattan(
            start,
            #[trigger] queue[j],
        )
    &&& queue.len() > 0 ==> manhattan(start, queue[queue.len() - 1]) <= manhattan(start, queue[0])
        + 1
}

/// The tested cells are cells on which the predicate answered `false`, none
/// of them queued.
#[verifier::opaque]
pub(crate) open spec fn bf_tested<T, F: Fn(&T, UVec2) -> bool>(
    grid: &Matrix<T>,
    f: F,
    tested: Set<UVec2>,
    queue: Seq<UVec2>,
) -> bool {
    forall|p: UVec2| #[trigger]
        tested.contains(p) ==> in_bounds(p, grid.spec_size()) && may_reject(grid, f, p)
            && !queue.contains(p)
}

/// A cell is visited exactly when it is tested or queued.
#[verifier::opaque]
pub(crate) open spec fn bf_reached(
    size: UVec2,
    visited: Set<u32>,
    tested: Set<UVec2>,
    queue: Seq<UVec2>,
) -> bool {
    forall|p: UVec2|
        in_bounds(p, size) ==> (#[trigger] holds(visited, p, size) <==> tested.contains(p)
            || queue.contains(p))
}

/// Every cell no farther from the start than the head of the queue is
/// visited.
#[verifier::opaque]
pub(crate) open spec fn bf_near(size: UVec2, start: UVec2, visited: Set<u32>, queue: Seq<UVec2>) -> bool {
    queue.len() > 0 ==> forall|c: UVec2|
        in_bounds(c, size) && manhattan(start, c) <= manhattan(start, queue[0]) ==> #[trigger] holds(
            visited,
            c,
            size,
        )
}

/// Every neighbour of a tested cell is visited.
#[verifier::opaque]
pub(crate) open spec fn bf_front(size: UVec2, visited: Set<u32>, tested: Set<UVec2>) -> bool {
    forall|p: UVec2, n: UVec2|
        tested.contains(p) && in_bounds(n, size) && #[trigger] cardinal_step(p, n) ==> holds(
            visited,
            n,
            size,
        )
}

/// What holds of a search for one match between two steps.
pub(crate) open spec fn bfs_inv<T, F: Fn(&T, UVec2) -> bool>(
    grid: &Matrix<T>,
    f: F,
    start: UVec2,
    visited: Set<u32>,
    queue: Seq<UVec2>,
    tested: Set<UVec2>,
) -> bool {
    &&& in_bounds(start, grid.spec_size())
    &&& holds(visited, start, grid.spec_size())
    &&& bf_queue(grid.spec_size(), start, queue)
    &&& bf_tested(grid, f, tested, queue)
    &&& bf_reached(grid.spec_size(), visited, tested, queue)
    &&& bf_near(grid.spec_size(), start, visited, queue)
    &&& bf_front(grid.spec_size(), visited, tested)
}

/// Before the first step the start is the only visited and the only queued
/// cell.
proof fn lemma_bfs_begin<T, F: Fn(&T, UVec2) -> bool>(
    grid: &Matrix<T>,
    f: F,
    start: UVec2,
    visited: Set<u32>,
)
    requires
        in_bounds(start, grid.spec_size()),
        grid.spec_size().area() <= u32::MAX,
        visited == Set::<u32>::empty().insert(index_of(start, grid.spec_size()) as u32),
    ensures
        bfs_inv(grid, f, start, visited, seq![start], Set::<UVec2>::empty()),
{
    let size = grid.spec_size();
    let queue = seq![start];
    let tested = Set::<UVec2>::empty();
    lemma_index_in_range(start, size);
    assert(bf_queue(size, start, queue)) by {
        reveal(bf_queue);
    }
    assert(bf_tested(grid, f, tested, queue)) by {
        reveal(bf_tested);
    }
    assert(bf_reached(size, visited, tested, queue)) by {
        reveal(bf_reached);
        assert forall|p: UVec2| in_bounds(p, size) implies (#[trigger] holds(visited, p, size)
            <==> tested.contains(p) || queue.contains(p)) by {
            lemma_index_in_range(p, size);
            if holds(visited, p, size) {
                lemma_index_injective(p, start, size);
                assert(queue[0] == p);
            }
        }
    }
    assert(bf_near(size, start, visited, queue)) by {
        reveal(bf_near);
    }
    assert(bf_front(size, visited, tested)) by {
        reveal(bf_front);
    }
}

/// The head of the queue is a cell of the grid, and every cell nearer to
/// the start has been tested.
proof fn lemma_bfs_head<T, F: Fn(&T, UVec2) -> bool>(
    grid: &Matrix<T>,
    f: F,
    start: UVec2,
    visited: Set<u32>,
    queue: Seq<UVec2>,
    tested: Set<UVec2>,
)
    requires
        bfs_inv(grid, f, start, visited, queue, tested),
        queue.len() > 0,
    ensures
        in_bounds(queue[0], grid.spec_size()),
        holds(visited, queue[0], grid.spec_size()),
        forall|c: UVec2|
            in_bounds(c, grid.spec_size()) && manhattan(start, c) < manhattan(start, queue[0])
                ==> #[trigger] may_reject(grid, f, c),
{
    let size = grid.spec_size();
    reveal(bf_queue);
    assert(queue.contains(queue[0]));
    assert(holds(visited, queue[0], size)) by {
        reveal(bf_reached);
    }
    assert forall|c: UVec2|
        in_bounds(c, size) && manhattan(start, c) < manhattan(
            start,
            queue[0],
        ) implies #[trigger] may_reject(grid, f, c) by {
        assert(holds(visited, c, size)) by {
            reveal(bf_near);
        }
        assert(tested.contains(c) || queue.contains(c)) by {
            reveal(bf_reached);
        }
        if queue.contains(c) {
            let i = choose|i: int| 0 <= i < queue.len() && queue[i] == c;
            assert(manhattan(start, queue[0]) <= manhattan(start, queue[i]));
        }
        reveal(bf_tested);
    }
}

/// A search stays consistent when the head of the queue is rejected and its
/// neighbours are offered to the queue.
proof fn lemma_bfs_step<T, F: Fn(&T, UVec2) -> bool>(
    grid: &Matrix<T>,
    f: F,
    start: UVec2,
    visited: Set<u32>,
    queue: Seq<UVec2>,
    tested: Set<UVec2>,
    around: Seq<UVec2>,
    visited_after: Set<u32>,
    queue_after: Seq<UVec2>,
)
    requires
        bfs_inv(grid, f, start, visited, queue, tested),
        queue.len() > 0,
        grid.spec_size().area() <= u32::MAX,
        may_reject(grid, f, queue[0]),
        offers(
            grid.spec_size(),
            false,
            queue[0],
            around,
            visited,
            visited_after,
            queue.subrange(1, queue.len() as int),
            queue_after,
        ),
    ensures
        bfs_inv(grid, f, start, visited_after, queue_after, tested.insert(queue[0])),
        forall|k: u32|
            visited_after.contains(k) && !visited.contains(k) ==> k < grid.spec_size().area(),
{
    let size = grid.spec_size();
    let pos = queue[0];
    let depth = manhattan(start, pos);
    let rest = queue.subrange(1, queue.len() as int);
    let base = rest.len() as int;
    let added = queue_after.skip(base);
    let tested2 = tested.insert(pos);
    assert(in_bounds(pos, size) && queue.no_duplicates()) by {
        reveal(bf_queue);
    }
    assert forall|i: int| 0 <= i < base implies #[trigger] queue_after[i] == queue[i + 1] by {
        assert(queue_after.take(base)[i] == queue_after[i]);
    }
    assert forall|i: int| base <= i < queue_after.len() implies #[trigger] queue_after[i]
        == added[i - base] by {}
    assert forall|p: UVec2| #[trigger] queue_after.contains(p) <==> (queue.contains(p) && p != pos)
        || added.contains(p) by {
        if queue_after.contains(p) {
            let i = choose|i: int| 0 <= i < queue_after.len() && queue_after[i] == p;
            if i < base {
                assert(queue[i + 1] == p);
            } else {
                assert(added[i - base] == p);
            }
        }
        if queue.contains(p) && p != pos {
            let i = choose|i: int| 0 <= i < queue.len() && queue[i] == p;
            assert(queue_after[i - 1] == p);
        }
        if added.contains(p) {
            let i = choose|i: int| 0 <= i < added.len() && added[i] == p;
            assert(queue_after[i + base] == p);
        }
    }
    assert forall|p: UVec2| in_bounds(p, size) implies (#[trigger] holds(visited_after, p, size)
        <==> holds(visited, p, size) || around.contains(p)) by {
        lemma_index_in_range(p, size);
        if holds(visited_after, p, size) && !holds(visited, p, size) {
            let i = choose|i: int|
                0 <= i < around.len() && index_of(#[trigger] around[i], size) == index_of(
                    p,
                    size,
                ) as u32;
            assert(around.contains(around[i]));
            lemma_index_in_range(around[i], size);
            lemma_index_injective(around[i], p, size);
        }
        if around.contains(p) {
            let i = choose|i: int| 0 <= i < around.len() && around[i] == p;
            assert(index_of(around[i], size) == index_of(p, size) as u32);
        }
    }
    assert forall|k: u32| visited_after.contains(k) && !visited.contains(k) implies k
        < size.area() by {
        let i = choose|i: int| 0 <= i < around.len() && index_of(#[trigger] around[i], size) == k;
        assert(around.contains(around[i]));
        lemma_index_in_range(around[i], size);
    }
    // every appended cell is an unvisited neighbour, one move farther out
    assert forall|i: int| 0 <= i < added.len() implies in_bounds(#[trigger] added[i], size)
        && !holds(visited, added[i], size) && manhattan(start, added[i]) == depth + 1 by {
        assert(added.contains(added[i]));
        assert(around.contains(added[i]));
        reveal(bf_near);
    }
    assert(bf_queue(size, start, queue_after)) by {
        reveal(bf_queue);
        assert forall|i: int, j: int| 0 <= i < j < queue_after.len() implies queue_after[i]
            != queue_after[j] by {
            if j < base {
                assert(queue[i + 1] != queue[j + 1]);
            } else if i >= base {
                assert(added[i - base] != added[j - base]);
            } else {
                assert(queue.contains(queue[i + 1]));
                assert(holds(visited, queue[i + 1], size)) by {
                    reveal(bf_reached);
                }
                assert(added[j - base] == queue_after[j]);
            }
        }
        assert forall|i: int| 0 <= i < queue_after.len() implies in_bounds(
            #[trigger] queue_after[i],
            size,
        ) && depth <= manhattan(start, queue_after[i]) <= depth + 1 by {
            if i < base {
                assert(queue_after[i] == queue[i + 1]);
                assert(manhattan(start, queue[0]) <= manhattan(start, queue[i + 1]));
                assert(manhattan(start, queue[i + 1]) <= manhattan(start, queue[queue.len() - 1]));
            } else {
                assert(queue_after[i] == added[i - base]);
            }
        }
        assert forall|i: int, j: int| 0 <= i <= j < queue_after.len() implies manhattan(
            start,
            #[trigger] queue_after[i],
        ) <= manhattan(start, #[trigger] queue_after[j]) by {
            if j < base {
                assert(queue_after[i] == queue[i + 1]);
                assert(queue_after[j] == queue[j + 1]);
            } else if i >= base {
                assert(queue_after[i] == added[i - base]);
                assert(queue_after[j] == added[j - base]);
            } else {
                assert(queue_after[j] == added[j - base]);
            }
        }
    }
    assert(bf_tested(grid, f, tested2, queue_after)) by {
        reveal(bf_tested);
        assert forall|p: UVec2| #[trigger] tested2.contains(p) implies in_bounds(p, size)
            && may_reject(grid, f, p) && !queue_after.contains(p) by {
            assert(queue.contains(queue[0]));
            if added.contains(p) {
                let i = choose|i: int| 0 <= i < added.len() && added[i] == p;
                assert(!holds(visited, added[i], size));
                assert(holds(visited, p, size)) by {
                    reveal(bf_reached);
                }
            }
        }
    }
    assert(bf_reached(size, visited_after, tested2, queue_after)) by {
        reveal(bf_reached);
        assert forall|p: UVec2| in_bounds(p, size) implies (#[trigger] holds(
            visited_after,
            p,
            size,
        ) <==> tested2.contains(p) || queue_after.contains(p)) by {
            assert(holds(visited, p, size) <==> tested.contains(p) || queue.contains(p));
            assert(queue_after.contains(p) <==> (queue.contains(p) && p != pos) || added.contains(
                p,
            ));
            assert(queue.contains(queue[0]));
            if added.contains(p) {
                assert(around.contains(p));
            }
            if around.contains(p) && !holds(visited, p, size) {
                assert(added.contains(p));
            }
        }
    }
    assert(bf_front(size, visited_after, tested2)) by {
        reveal(bf_front);
        assert forall|p: UVec2, n: UVec2|
            tested2.contains(p) && in_bounds(n, size) && #[trigger] cardinal_step(
                p,
                n,
            ) implies holds(visited_after, n, size) by {
            if p == pos {
                assert(adjacent(pos, n, false));
                assert(around.contains(n));
            } else {
                assert(holds(visited, n, size));
            }
        }
    }
    assert(holds(visited_after, start, size));
    assert(bf_near(size, start, visited_after, queue_after)) by {
        if queue_after.len() > 0 {
            let head = queue_after[0];
            assert(depth <= manhattan(start, head) <= depth + 1) by {
                reveal(bf_queue);
                if 0 < base {
                    assert(queue_after[0] == queue[1]);
                    assert(manhattan(start, queue[0]) <= manhattan(start, queue[1]));
                    assert(manhattan(start, queue[1]) <= manhattan(start, queue[queue.len() - 1]));
                } else {
                    assert(queue_after[0] == added[0]);
                }
            }
            assert forall|c: UVec2|
                in_bounds(c, size) && manhattan(start, c) <= manhattan(
                    start,
                    head,
                ) implies #[trigger] holds(visited_after, c, size) by {
                if manhattan(start, c) <= depth {
                    assert(holds(visited, c, size)) by {
                        reveal(bf_near);
                    }
                } else {
                    let towards = lemma_step_towards(start, c, size);
                    assert(holds(visited, towards, size)) by {
                        reveal(bf_near);
                    }
                    assert(tested.contains(towards) || queue.contains(towards)) by {
                        reveal(bf_reached);
                    }
                    if towards != pos && queue.contains(towards) {
                        assert(queue_after.contains(towards));
                        let i = choose|i: int|
                            0 <= i < queue_after.len() && queue_after[i] == towards;
                        assert(manhattan(start, queue_after[0]) <= manhattan(
                            start,
                            queue_after[i],
                        )) by {
                            reveal(bf_queue);
                        }
                    }
                    assert(tested2.contains(towards));
                    assert(cardinal_step(towards, c));
                    reveal(bf_front);
                }
            }
        }
        reveal(bf_near);
    }
}

/// Once the queue is empty, every cell of the grid has been tested.
proof fn lemma_bfs_done<T, F: Fn(&T, UVec2) -> bool>(
    grid: &Matrix<T>,
    f: F,
    start: UVec2,
    visited: Set<u32>,
    tested: Set<UVec2>,
)
    requires
        bfs_inv(grid, f, start, visited, Seq::<UVec2>::empty(), tested),
    ensures
        forall|c: UVec2| in_bounds(c, grid.spec_size()) ==> #[trigger] may_reject(grid, f, c),
{
    let size = grid.spec_size();
    let queue = Seq::<UVec2>::empty();
    assert forall|p: UVec2| in_bounds(p, size) implies (holds(visited, p, size) <==> tested.contains(
        p,
    )) by {
        reveal(bf_reached);
    }
    assert forall|p: UVec2, n: UVec2|
        tested.contains(p) && in_bounds(n, size) && cardinal_step(p, n) implies tested.contains(
        n,
    ) by {
        reveal(bf_front);
    }
    assert forall|c: UVec2| in_bounds(c, size) implies #[trigger] may_reject(grid, f, c) by {
        lemma_closed_set_is_grid(tested, start, size, c);
        reveal(bf_tested);
    }
}

impl<T> Matrix<T> {
    /// Breadth-first search over cardinal moves from `starting_pos`: the
    /// first dequeued cell on which `search_fn` answers `true`, with its
    /// value, or `None` once every cell has been tested.
    pub fn bfs(&self, starting_pos: UVec2, search_fn: impl Fn(&T, UVec2) -> bool) -> (found: Option<
        (UVec2, &T),
    >)
        requires
            in_bounds(starting_pos, self.spec_size()),
            callable_on_grid(self, search_fn),
        ensures
            bfs_outcome(self, search_fn, starting_pos, found),
            bfs_in_order(self, search_fn, starting_pos, found),
    {
        let ghost size = self.spec_size();
        let ghost start = starting_pos;
        let count = self.element_count();
        let mut queue: VecDeque<UVec2> = VecDeque::new();
        let mut visited = visited_new();
        let ghost mut tested: Set<UVec2> = Set::empty();
        let ghost mut emitted: Seq<UVec2> = Seq::empty();
        queue.push_back(starting_pos);
        let start_idx = self.pos_to_idx(starting_pos);
        let _ = visited_insert(&mut visited, start_idx);
        proof {
            assert(queue@ =~= seq![start]);
            lemma_bfs_begin(self, search_fn, start, visited_cells(visited));
            lemma_sim_begin(self, search_fn, start, false, visited_cells(visited));
            lemma_bounded_set_len(visited_cells(visited), count as nat);
        }
        while queue.len() > 0
            invariant
                size == self.spec_size(),
                start == starting_pos,
                count == size.area(),
                callable_on_grid(self, search_fn),
                visited_cells(visited).finite(),
                visited_cells(visited).len() <= count,
                forall|k: u32| visited_cells(visited).contains(k) ==> k < count,
                bfs_inv(self, search_fn, start, visited_cells(visited), queue@, tested),
                bf_sim(size, start, visited_cells(visited), queue@, emitted),
                emitted.len() + queue@.len() == visited_cells(visited).len(),
                forall|j: int| 0 <= j < emitted.len() ==> tested.contains(#[trigger] emitted[j]),
            decreases count - visited_cells(visited).len() + queue@.len(),
        {
            let ghost queue_before = queue@;
            let ghost visited_before = visited_cells(visited);
            proof {
                lemma_bfs_head(self, search_fn, start, visited_before, queue_before, tested);
                lemma_bf_sim_head(size, start, visited_before, queue_before, emitted);
            }
            let pos = queue.pop_front().unwrap();
            let ghost rest = queue@;
            let value = self.cell_at(pos);
            if search_fn(value, pos) {
                proof {
                    let order = breadth_first_order(size, start, false, every_cell());
                    let k = emitted.len() as int;
                    assert(order[k] == pos);
                    assert forall|j: int| 0 <= j < k implies may_reject(
                        self,
                        search_fn,
                        #[trigger] order[j],
                    ) by {
                        assert(tested.contains(emitted[j]));
                        reveal(bf_tested);
                    }
                }
                return Some((pos, value));
            }
            let neighbours = self.neighbours_no_diag(pos);
            proof {
                lemma_cardinal_neighbours_distinct(pos, size);
            }
            enqueue_unreached(self, &neighbours, &mut queue, &mut visited);
            proof {
                assert forall|n: UVec2|
                    #![trigger neighbours@.contains(n)]
                    #![trigger adjacent(pos, n, false)]
                    neighbours@.contains(n) <==> in_bounds(n, size) && adjacent(pos, n, false) by {
                    lemma_cardinal_neighbours_members(pos, size, n);
                }
                assert(offers(
                    size,
                    false,
                    pos,
                    neighbours@,
                    visited_before,
                    visited_cells(visited),
                    rest,
                    queue@,
                ));
                lemma_bfs_step(
                    self,
                    search_fn,
                    start,
                    visited_before,
                    queue_before,
                    tested,
                    neighbours@,
                    visited_cells(visited),
                    queue@,
                );
                tested = tested.insert(pos);
                lemma_bounded_set_len(visited_cells(visited), count as nat);
                lemma_offers_cells(
                    size,
                    false,
                    pos,
                    neighbours@,
                    visited_before,
                    visited_cells(visited),
                    rest,
                    queue@,
                );
                lemma_bf_sim_step(
                    size,
                    start,
                    visited_before,
                    queue_before,
                    emitted,
                    visited_cells(visited),
                    queue@,
                );
                emitted = emitted.push(pos);
            }
        }
        proof {
            assert(queue@ =~= Seq::<UVec2>::empty());
            lemma_bfs_done(self, search_fn, start, visited_cells(visited), tested);
        }
        None
    }
}

/// The positions of a flood result.
pub open spec fn positions_of<T>(found: Seq<(UVec2, &T)>) -> Seq<UVec2> {
    found.map_values(|e: (UVec2, &T)| e.0)
}

/// The predicate that holds of every cell.
pub open spec fn every_cell() -> spec_fn(UVec2) -> bool {
    |c: UVec2| true
}

/// Whether a flood result lists its cells in breadth-first order: for every
/// predicate that the answers agree with, the cells of the breadth-first
/// order through the matching cells that match, in that order.
pub open spec fn flood_in_order<T, F: Fn(&T, UVec2) -> bool>(
    grid: &Matrix<T>,
    f: F,
    start: UVec2,
    found: Seq<(UVec2, &T)>,
    diagonal: bool,
) -> bool {
    forall|matcher: spec_fn(UVec2) -> bool| #[trigger]
        answers_as(grid, f, matcher) ==> positions_of(found) == picked(
            breadth_first_order(grid.spec_size(), start, diagonal, matcher).map_values(matcher),
            breadth_first_order(grid.spec_size(), start, diagonal, matcher),
        )
}

/// Whether the cell that a search for one match returns is the first cell
/// in breadth-first order on which the predicate did not answer `false`.
pub open spec fn bfs_in_order<T, F: Fn(&T, UVec2) -> bool>(
    grid: &Matrix<T>,
    f: F,
    start: UVec2,
    found: Option<(UVec2, &T)>,
) -> bool {
    found matches Some(hit) ==> exists|k: int|
        0 <= k < breadth_first_order(grid.spec_size(), start, false, every_cell()).len()
            && #[trigger] breadth_first_order(grid.spec_size(), start, false, every_cell())[k]
            == hit.0 && forall|j: int|
            0 <= j < k ==> may_reject(
                grid,
                f,
                #[trigger] breadth_first_order(grid.spec_size(), start, false, every_cell())[j],
            )
}

/// The cells that were dequeued, followed by the order in which the walk
/// goes on, are the breadth-first order, for every predicate that the
/// answers agree with; and the listed cells are the dequeued cells that
/// match.
#[verifier::opaque]
pub(crate) open spec fn fl_sim<T, F: Fn(&T, UVec2) -> bool>(
    grid: &Matrix<T>,
    f: F,
    start: UVec2,
    diagonal: bool,
    visited: Set<u32>,
    queue: Seq<UVec2>,
    found: Seq<(UVec2, &T)>,
    emitted: Seq<UVec2>,
) -> bool {
    forall|matcher: spec_fn(UVec2) -> bool| #[trigger]
        answers_as(grid, f, matcher) ==> breadth_first_order(
            grid.spec_size(),
            start,
            diagonal,
            matcher,
        ) == emitted + walk_order(
            grid.spec_size(),
            diagonal,
            matcher,
            queue,
            cells_of(visited, grid.spec_size()),
            (grid.spec_size().area() - emitted.len()) as nat,
        ) && positions_of(found) == picked(emitted.map_values(matcher), emitted)
}

/// The cells that were dequeued, followed by the order in which the walk
/// goes on, are the breadth-first order through every cell.
#[verifier::opaque]
pub(crate) open spec fn bf_sim(
    size: UVec2,
    start: UVec2,
    visited: Set<u32>,
    queue: Seq<UVec2>,
    emitted: Seq<UVec2>,
) -> bool {
    breadth_first_order(size, start, false, every_cell()) == emitted + walk_order(
        size,
        false,
        every_cell(),
        queue,
        cells_of(visited, size),
        (size.area() - emitted.len()) as nat,
    )
}

/// The one visited cell of a walk that begins.
proof fn lemma_cells_of_begin(start: UVec2, size: UVec2)
    requires
        in_bounds(start, size),
        size.area() <= u32::MAX,
    ensures
        cells_of(Set::<u32>::empty().insert(index_of(start, size) as u32), size) == set![start],
{
    let visited = Set::<u32>::empty().insert(index_of(start, size) as u32);
    lemma_index_in_range(start, size);
    assert forall|p: UVec2| cells_of(visited, size).contains(p) <==> set![start].contains(p) by {
        if in_bounds(p, size) {
            lemma_index_in_range(p, size);
            if index_of(p, size) == index_of(start, size) {
                lemma_index_injective(p, start, size);
            }
        }
    }
    assert(cells_of(visited, size) =~= set![start]);
}

/// After the neighbours of a dequeued cell were offered, the queue is what
/// was left of it followed by the fresh neighbours, and the visited cells
/// are those of before and the fresh neighbours.
proof fn lemma_offers_cells(
    size: UVec2,
    diagonal: bool,
    pos: UVec2,
    around: Seq<UVec2>,
    visited: Set<u32>,
    visited_after: Set<u32>,
    rest: Seq<UVec2>,
    queue_after: Seq<UVec2>,
)
    requires
        size.area() <= u32::MAX,
        offers(size, diagonal, pos, around, visited, visited_after, rest, queue_after),
        queue_after.skip(rest.len() as int) == fresh_cells(around, cells_of(visited, size)),
    ensures
        queue_after == rest + fresh_cells(around, cells_of(visited, size)),
        cells_of(visited_after, size) == cells_of(visited, size).union(
            fresh_cells(around, cells_of(visited, size)).to_set(),
        ),
{
    let fresh = fresh_cells(around, cells_of(visited, size));
    let base = rest.len() as int;
    assert(queue_after =~= queue_after.take(base) + queue_after.skip(base));
    assert forall|p: UVec2|
        cells_of(visited_after, size).contains(p) <==> cells_of(visited, size).union(
            fresh.to_set(),
        ).contains(p) by {
        if fresh.to_set().contains(p) {
            assert(fresh.contains(p));
            assert(queue_after.skip(base).contains(p));
            assert(around.contains(p));
            let i = choose|i: int| 0 <= i < around.len() && around[i] == p;
            lemma_index_in_range(p, size);
            assert(index_of(around[i], size) == index_of(p, size) as u32);
        }
        if in_bounds(p, size) {
            lemma_index_in_range(p, size);
            if holds(visited_after, p, size) && !holds(visited, p, size) {
                let i = choose|i: int|
                    0 <= i < around.len() && index_of(#[trigger] around[i], size) == index_of(
                        p,
                        size,
                    ) as u32;
                assert(around.contains(around[i]));
                lemma_index_in_range(around[i], size);
                lemma_index_injective(around[i], p, size);
                assert(queue_after.skip(base).contains(p));
            }
        }
    }
    assert(cells_of(visited_after, size) =~= cells_of(visited, size).union(fresh.to_set()));
}

/// Before the first step the walk that goes on is the whole breadth-first
/// order.
proof fn lemma_sim_begin<T, F: Fn(&T, UVec2) -> bool>(
    grid: &Matrix<T>,
    f: F,
    start: UVec2,
    diagonal: bool,
    visited: Set<u32>,
)
    requires
        in_bounds(start, grid.spec_size()),
        grid.spec_size().area() <= u32::MAX,
        visited == Set::<u32>::empty().insert(index_of(start, grid.spec_size()) as u32),
    ensures
        fl_sim(
            grid,
            f,
            start,
            diagonal,
            visited,
            seq![start],
            Seq::<(UVec2, &T)>::empty(),
            Seq::<UVec2>::empty(),
        ),
        bf_sim(grid.spec_size(), start, visited, seq![start], Seq::<UVec2>::empty()),
{
    let size = grid.spec_size();
    let emitted = Seq::<UVec2>::empty();
    let found = Seq::<(UVec2, &T)>::empty();
    lemma_cells_of_begin(start, size);
    assert(fl_sim(grid, f, start, diagonal, visited, seq![start], found, emitted)) by {
        reveal(fl_sim);
        assert forall|matcher: spec_fn(UVec2) -> bool| #[trigger]
            answers_as(grid, f, matcher) implies breadth_first_order(size, start, diagonal, matcher)
            == emitted + walk_order(
            size,
            diagonal,
            matcher,
            seq![start],
            cells_of(visited, size),
            (size.area() - emitted.len()) as nat,
        ) && positions_of(found) == picked(emitted.map_values(matcher), emitted) by {
            let order = breadth_first_order(size, start, diagonal, matcher);
            assert(emitted + order =~= order);
            assert(positions_of(found) =~= Seq::<UVec2>::empty());
        }
    }
    assert(bf_sim(size, start, visited, seq![start], emitted)) by {
        reveal(bf_sim);
        let order = breadth_first_order(size, start, false, every_cell());
        assert(emitted + order =~= order);
    }
}

/// One step of the walk, where the answers agree with `matcher`: the
/// dequeued cell comes next in the order, and the walk goes on from the
/// queue and the visited cells as they are after the step.
proof fn lemma_walk_step(
    size: UVec2,
    diagonal: bool,
    matcher: spec_fn(UVec2) -> bool,
    queue: Seq<UVec2>,
    visited: Set<u32>,
    visited_after: Set<u32>,
    queue_after: Seq<UVec2>,
    emitted: Seq<UVec2>,
    steps: nat,
)
    requires
        queue.len() > 0,
        steps > 0,
        matcher(queue[0]) ==> queue_after == queue.subrange(1, queue.len() as int) + fresh_cells(
            policy_neighbours(queue[0], size, diagonal),
            cells_of(visited, size),
        ) && cells_of(visited_after, size) == cells_of(visited, size).union(
            fresh_cells(
                policy_neighbours(queue[0], size, diagonal),
                cells_of(visited, size),
            ).to_set(),
        ),
        !matcher(queue[0]) ==> queue_after == queue.subrange(1, queue.len() as int)
            && visited_after == visited,
    ensures
        emitted + walk_order(size, diagonal, matcher, queue, cells_of(visited, size), steps)
            == emitted.push(queue[0]) + walk_order(
            size,
            diagonal,
            matcher,
            queue_after,
            cells_of(visited_after, size),
            (steps - 1) as nat,
        ),
{
    assert(queue.drop_first() =~= queue.subrange(1, queue.len() as int));
    let ahead = walk_order(
        size,
        diagonal,
        matcher,
        queue_after,
        cells_of(visited_after, size),
        (steps - 1) as nat,
    );
    assert(walk_order(size, diagonal, matcher, queue, cells_of(visited, size), steps) == seq![
        queue[0],
    ] + ahead);
    assert(emitted + (seq![queue[0]] + ahead) =~= emitted.push(queue[0]) + ahead);
}

/// The flood stays in step with the breadth-first order when the head of
/// the queue is dequeued: listed, with its neighbours offered, when it was
/// accepted, and dropped when it was rejected.
proof fn lemma_fl_sim_step<T, F: Fn(&T, UVec2) -> bool>(
    grid: &Matrix<T>,
    f: F,
    start: UVec2,
    diagonal: bool,
    visited: Set<u32>,
    queue: Seq<UVec2>,
    found: Seq<(UVec2, &T)>,
    emitted: Seq<UVec2>,
    value: &T,
    accepted: bool,
    visited_after: Set<u32>,
    queue_after: Seq<UVec2>,
)
    requires
        fl_sim(grid, f, start, diagonal, visited, queue, found, emitted),
        queue.len() > 0,
        emitted.len() < grid.spec_size().area(),
        in_bounds(queue[0], grid.spec_size()),
        *value == grid.at(queue[0]),
        call_ensures(f, (value, queue[0]), accepted),
        accepted ==> queue_after == queue.subrange(1, queue.len() as int) + fresh_cells(
            policy_neighbours(queue[0], grid.spec_size(), diagonal),
            cells_of(visited, grid.spec_size()),
        ) && cells_of(visited_after, grid.spec_size()) == cells_of(
            visited,
            grid.spec_size(),
        ).union(
            fresh_cells(
                policy_neighbours(queue[0], grid.spec_size(), diagonal),
                cells_of(visited, grid.spec_size()),
            ).to_set(),
        ),
        !accepted ==> queue_after == queue.subrange(1, queue.len() as int) && visited_after
            == visited,
    ensures
        fl_sim(
            grid,
            f,
            start,
            diagonal,
            visited_after,
            queue_after,
            if accepted {
                found.push((queue[0], value))
            } else {
                found
            },
            emitted.push(queue[0]),
        ),
{
    let size = grid.spec_size();
    let pos = queue[0];
    let found2 = if accepted { found.push((pos, value)) } else { found };
    let emitted2 = emitted.push(pos);
    reveal(fl_sim);
    assert forall|matcher: spec_fn(UVec2) -> bool| #[trigger]
        answers_as(grid, f, matcher) implies breadth_first_order(size, start, diagonal, matcher)
        == emitted2 + walk_order(
        size,
        diagonal,
        matcher,
        queue_after,
        cells_of(visited_after, size),
        (size.area() - emitted2.len()) as nat,
    ) && positions_of(found2) == picked(emitted2.map_values(matcher), emitted2) by {
        assert(matcher(pos) == accepted);
        lemma_walk_step(
            size,
            diagonal,
            matcher,
            queue,
            visited,
            visited_after,
            queue_after,
            emitted,
            (size.area() - emitted.len()) as nat,
        );
        lemma_picked_push(emitted.map_values(matcher), emitted, matcher(pos), pos);
        assert(emitted2.map_values(matcher) =~= emitted.map_values(matcher).push(matcher(pos)));
        if accepted {
            assert(positions_of(found2) =~= positions_of(found).push(pos));
        }
    }
}

/// Once the queue is empty, the listed cells are those of the breadth-first
/// order that match.
proof fn lemma_fl_sim_done<T, F: Fn(&T, UVec2) -> bool>(
    grid: &Matrix<T>,
    f: F,
    start: UVec2,
    diagonal: bool,
    visited: Set<u32>,
    found: Seq<(UVec2, &T)>,
    emitted: Seq<UVec2>,
)
    requires
        fl_sim(grid, f, start, diagonal, visited, Seq::<UVec2>::empty(), found, emitted),
    ensures
        flood_in_order(grid, f, start, found, diagonal),
{
    let size = grid.spec_size();
    reveal(fl_sim);
    assert forall|matcher: spec_fn(UVec2) -> bool| #[trigger]
        answers_as(grid, f, matcher) implies positions_of(found) == picked(
        breadth_first_order(size, start, diagonal, matcher).map_values(matcher),
        breadth_first_order(size, start, diagonal, matcher),
    ) by {
        let ahead = walk_order(
            size,
            diagonal,
            matcher,
            Seq::<UVec2>::empty(),
            cells_of(visited, size),
            (size.area() - emitted.len()) as nat,
        );
        assert(emitted + ahead =~= emitted);
    }
}

/// The search stays in step with the breadth-first order through every
/// cell when the head of the queue is rejected and its neighbours are
/// offered.
proof fn lemma_bf_sim_step(
    size: UVec2,
    start: UVec2,
    visited: Set<u32>,
    queue: Seq<UVec2>,
    emitted: Seq<UVec2>,
    visited_after: Set<u32>,
    queue_after: Seq<UVec2>,
)
    requires
        bf_sim(size, start, visited, queue, emitted),
        queue.len() > 0,
        emitted.len() < size.area(),
        queue_after == queue.subrange(1, queue.len() as int) + fresh_cells(
            policy_neighbours(queue[0], size, false),
            cells_of(visited, size),
        ),
        cells_of(visited_after, size) == cells_of(visited, size).union(
            fresh_cells(policy_neighbours(queue[0], size, false), cells_of(visited, size)).to_set(),
        ),
    ensures
        bf_sim(size, start, visited_after, queue_after, emitted.push(queue[0])),
{
    reveal(bf_sim);
    lemma_walk_step(
        size,
        false,
        every_cell(),
        queue,
        visited,
        visited_after,
        queue_after,
        emitted,
        (size.area() - emitted.len()) as nat,
    );
}

/// The head of the queue is the cell that comes next in the breadth-first
/// order through every cell.
proof fn lemma_bf_sim_head(
    size: UVec2,
    start: UVec2,
    visited: Set<u32>,
    queue: Seq<UVec2>,
    emitted: Seq<UVec2>,
)
    requires
        bf_sim(size, start, visited, queue, emitted),
        queue.len() > 0,
        emitted.len() < size.area(),
    ensures
        emitted.len() < breadth_first_order(size, start, false, every_cell()).len(),
        breadth_first_order(size, start, false, every_cell())[emitted.len() as int] == queue[0],
        forall|j: int|
            0 <= j < emitted.len() ==> #[trigger] breadth_first_order(
                size,
                start,
                false,
                every_cell(),
            )[j] == emitted[j],
{
    reveal(bf_sim);
    let ahead = walk_order(
        size,
        false,
        every_cell(),
        queue,
        cells_of(visited, size),
        (size.area() - emitted.len()) as nat,
    );
    assert(ahead[0] == queue[0]);
}

/// Whether the predicate answers on every cell of the grid as `matcher`
/// says.
pub open spec fn answers_as<T, F: Fn(&T, UVec2) -> bool>(
    grid: &Matrix<T>,
    f: F,
    matcher: spec_fn(UVec2) -> bool,
) -> bool {
    forall|p: UVec2, answer: bool|
        in_bounds(p, grid.spec_size()) && #[trigger] call_ensures(f, (&grid.at(p), p), answer)
            ==> answer == matcher(p)
}

/// With exactly one matching cell in the grid, the search returns that cell
/// and its value, whatever the size of the grid and wherever it starts.
pub proof fn lemma_bfs_finds_the_only_match<T, F: Fn(&T, UVec2) -> bool>(
    grid: &Matrix<T>,
    f: F,
    start: UVec2,
    found: Option<(UVec2, &T)>,
    matcher: spec_fn(UVec2) -> bool,
    goal: UVec2,
)
    requires
        bfs_outcome(grid, f, start, found),
        answers_as(grid, f, matcher),
        in_bounds(goal, grid.spec_size()),
        forall|p: UVec2| in_bounds(p, grid.spec_size()) ==> (matcher(p) <==> p == goal),
    ensures
        found is Some,
        found.unwrap().0 == goal,
        *found.unwrap().1 == grid.at(goal),
{
    if found is None {
        assert(may_reject(grid, f, goal));
    } else {
        assert(may_accept(grid, f, found.unwrap().0));
    }
}

/// With no matching cell in the grid, the search returns nothing.
pub proof fn lemma_bfs_without_match<T, F: Fn(&T, UVec2) -> bool>(
    grid: &Matrix<T>,
    f: F,
    start: UVec2,
    found: Option<(UVec2, &T)>,
    matcher: spec_fn(UVec2) -> bool,
)
    requires
        bfs_outcome(grid, f, start, found),
        answers_as(grid, f, matcher),
        forall|p: UVec2| in_bounds(p, grid.spec_size()) ==> !matcher(p),
    ensures
        found is None,
{
    if found is Some {
        assert(may_accept(grid, f, found.unwrap().0));
    }
}

/// Whether `path` leads from `start` to `end` over matching cells of the
/// grid, each adjacent to the next.
pub open spec fn is_region_path(
    matcher: spec_fn(UVec2) -> bool,
    size: UVec2,
    path: Seq<UVec2>,
    start: UVec2,
    end: UVec2,
    diagonal: bool,
) -> bool {
    &&& path.len() >= 1
    &&& path[0] == start
    &&& path[path.len() - 1] == end
    &&& forall|i: int| 0 <= i < path.len() ==> in_bounds(#[trigger] path[i], size) && matcher(path[i])
    &&& forall|i: int| 0 <= i < path.len() - 1 ==> adjacent(#[trigger] path[i], path[i + 1], diagonal)
}

/// Whether `c` belongs to the connected region of matching cells around
/// `start`.
pub open spec fn in_region(
    matcher: spec_fn(UVec2) -> bool,
    size: UVec2,
    start: UVec2,
    c: UVec2,
    diagonal: bool,
) -> bool {
    exists|path: Seq<UVec2>| #[trigger] is_region_path(matcher, size, path, start, c, diagonal)
}

/// Each listed cell is joined to the seed by a path over matching cells.
proof fn lemma_listed_in_region<T, F: Fn(&T, UVec2) -> bool>(
    grid: &Matrix<T>,
    f: F,
    start: UVec2,
    found: Seq<(UVec2, &T)>,
    diagonal: bool,
    matcher: spec_fn(UVec2) -> bool,
    i: int,
) -> (path: Seq<UVec2>)
    requires
        flood_outcome(grid, f, start, found, diagonal),
        answers_as(grid, f, matcher),
        0 <= i < found.len(),
    ensures
        is_region_path(matcher, grid.spec_size(), path, start, found[i].0, diagonal),
    decreases i,
{
    assert(may_accept(grid, f, found[i].0));
    if i == 0 {
        seq![start]
    } else {
        let j = choose|j: int|
            0 <= j < i && adjacent((#[trigger] found[j]).0, (#[trigger] found[i]).0, diagonal);
        let before = lemma_listed_in_region(grid, f, start, found, diagonal, matcher, j);
        let path = before.push(found[i].0);
        assert forall|k: int| 0 <= k < path.len() - 1 implies adjacent(
            #[trigger] path[k],
            path[k + 1],
            diagonal,
        ) by {
            if k < before.len() - 1 {
                assert(adjacent(before[k], before[k + 1], diagonal));
            }
        }
        path
    }
}

/// Each cell on a path over matching cells from the seed is listed.
proof fn lemma_region_path_listed<T, F: Fn(&T, UVec2) -> bool>(
    grid: &Matrix<T>,
    f: F,
    start: UVec2,
    found: Seq<(UVec2, &T)>,
    diagonal: bool,
    matcher: spec_fn(UVec2) -> bool,
    path: Seq<UVec2>,
    end: UVec2,
    upto: int,
)
    requires
        flood_outcome(grid, f, start, found, diagonal),
        answers_as(grid, f, matcher),
        is_region_path(matcher, grid.spec_size(), path, start, end, diagonal),
        0 <= upto < path.len(),
    ensures
        listed(found, path[upto]),
    decreases upto,
{
    if upto == 0 {
        if found.len() == 0 {
            assert(may_reject(grid, f, start));
            assert(matcher(path[0]));
        } else {
            assert(found[0].0 == start);
        }
    } else {
        lemma_region_path_listed(grid, f, start, found, diagonal, matcher, path, end, upto - 1);
        let i = choose|i: int| 0 <= i < found.len() && (#[trigger] found[i]).0 == path[upto - 1];
        assert(adjacent(path[upto - 1], path[upto - 1 + 1], diagonal));
        assert(adjacent(found[i].0, path[upto], diagonal));
        assert(matcher(path[upto]));
        if !listed(found, path[upto]) {
            assert(may_reject(grid, f, path[upto]));
        }
    }
}

/// The flood lists exactly the connected region of matching cells around
/// the seed: all of it when the seed matches, and nothing when it does not,
/// whatever matches elsewhere.
pub proof fn lemma_flood_is_region<T, F: Fn(&T, UVec2) -> bool>(
    grid: &Matrix<T>,
    f: F,
    start: UVec2,
    found: Seq<(UVec2, &T)>,
    diagonal: bool,
    matcher: spec_fn(UVec2) -> bool,
)
    requires
        flood_outcome(grid, f, start, found, diagonal),
        answers_as(grid, f, matcher),
    ensures
        forall|c: UVec2|
            listed(found, c) <==> #[trigger] in_region(
                matcher,
                grid.spec_size(),
                start,
                c,
                diagonal,
            ),
        !matcher(start) ==> found.len() == 0,
{
    let size = grid.spec_size();
    assert forall|c: UVec2|
        listed(found, c) <==> #[trigger] in_region(matcher, size, start, c, diagonal) by {
        if listed(found, c) {
            let i = choose|i: int| 0 <= i < found.len() && (#[trigger] found[i]).0 == c;
            let path = lemma_listed_in_region(grid, f, start, found, diagonal, matcher, i);
            assert(is_region_path(matcher, size, path, start, c, diagonal));
        }
        if in_region(matcher, size, start, c, diagonal) {
            let path = choose|path: Seq<UVec2>| #[trigger]
                is_region_path(matcher, size, path, start, c, diagonal);
            lemma_region_path_listed(
                grid,
                f,
                start,
                found,
                diagonal,
                matcher,
                path,
                c,
                path.len() - 1,
            );
        }
    }
    if found.len() > 0 {
        assert(may_accept(grid, f, found[0].0));
    }
}

} // verus!
