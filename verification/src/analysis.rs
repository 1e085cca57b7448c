//! Questions asked of a whole grid: extremes, mean, counts, and the cells
//! that a predicate picks.

use core::cmp::Ordering;
use vstd::prelude::*;
use vstd::std_specs::cmp::PartialOrdSpec;
use crate::direction::Direction;
use crate::matrix::{in_bounds, lemma_position_in_bounds, position_of, Matrix};
use crate::neighbours::can_step;
use crate::vec2::UVec2;
use crate::vec2_traits::Positions;

verus! {

/// The items whose answer is `true`, in their order.
pub open spec fn picked<A>(answers: Seq<bool>, items: Seq<A>) -> Seq<A>
    decreases answers.len(),
{
    if answers.len() == 0 || items.len() == 0 {
        Seq::empty()
    } else {
        let before = picked(answers.drop_last(), items.drop_last());
        if answers.last() {
            before.push(items.last())
        } else {
            before
        }
    }
}

/// Whether `answers` holds, for each cell in row-major order, an answer that
/// the predicate can give on the cell and its position.
pub open spec fn answers_on_cells<T, F: Fn(&T, UVec2) -> bool>(
    grid: &Matrix<T>,
    f: F,
    answers: Seq<bool>,
) -> bool {
    &&& answers.len() == grid@.len()
    &&& forall|i: int|
        0 <= i < answers.len() ==> call_ensures(
            f,
            (&grid@[i], position_of(i, grid.spec_size())),
            #[trigger] answers[i],
        )
}

/// Whether `answers` holds, for each cell in row-major order, an answer that
/// the predicate can give on the cell.
pub open spec fn answers_on_values<T, F: Fn(&T) -> bool>(
    grid: &Matrix<T>,
    f: F,
    answers: Seq<bool>,
) -> bool {
    &&& answers.len() == grid@.len()
    &&& forall|i: int| 0 <= i < answers.len() ==> call_ensures(f, (&grid@[i],), #[trigger] answers[i])
}

/// The positions of a grid of the given `size`, in row-major order.
pub open spec fn grid_positions(size: UVec2) -> Seq<UVec2> {
    Seq::new(size.area(), |i: int| position_of(i, size))
}

/// Whether the predicate may be called on every cell with its position.
pub open spec fn callable_on_cells<T, F: Fn(&T, UVec2) -> bool>(grid: &Matrix<T>, f: F) -> bool {
    forall|i: int|
        0 <= i < grid@.len() ==> call_requires(
            f,
            (&#[trigger] grid@[i], position_of(i, grid.spec_size())),
        )
}

/// Whether the predicate may be called on every cell.
pub open spec fn callable_on_values<T, F: Fn(&T) -> bool>(grid: &Matrix<T>, f: F) -> bool {
    forall|i: int| 0 <= i < grid@.len() ==> call_requires(f, (&#[trigger] grid@[i],))
}

/// Picking from one more item keeps what was picked and adds the item when
/// its answer is `true`.
pub proof fn lemma_picked_push<A>(answers: Seq<bool>, items: Seq<A>, answer: bool, item: A)
    requires
        answers.len() == items.len(),
    ensures
        picked(answers.push(answer), items.push(item)) == if answer {
            picked(answers, items).push(item)
        } else {
            picked(answers, items)
        },
        picked(answers, items).len() <= items.len(),
    decreases answers.len(),
{
    assert(answers.push(answer).drop_last() =~= answers);
    assert(items.push(item).drop_last() =~= items);
    if answers.len() > 0 {
        lemma_picked_push(
            answers.drop_last(),
            items.drop_last(),
            answers.last(),
            items.last(),
        );
        assert(answers.drop_last().push(answers.last()) =~= answers);
        assert(items.drop_last().push(items.last()) =~= items);
    }
}

/// The index that a left-to-right scan for the greatest cell ends on: a
/// later cell replaces the best one so far unless that one is greater.
pub open spec fn last_greatest<T: PartialOrd>(cells: Seq<T>, upto: int) -> int
    decreases upto,
{
    if upto <= 1 {
        0
    } else {
        let best = last_greatest(cells, upto - 1);
        if cells[best].partial_cmp_spec(&cells[upto - 1]) == Some(Ordering::Greater) {
            best
        } else {
            upto - 1
        }
    }
}

/// The index that a left-to-right scan for the least cell ends on: a later
/// cell replaces the best one so far only if that one is greater.
pub open spec fn first_least<T: PartialOrd>(cells: Seq<T>, upto: int) -> int
    decreases upto,
{
    if upto <= 1 {
        0
    } else {
        let best = first_least(cells, upto - 1);
        if cells[best].partial_cmp_spec(&cells[upto - 1]) == Some(Ordering::Greater) {
            upto - 1
        } else {
            best
        }
    }
}

/// Where the scan for the greatest cell stands after `upto` cells.
pub open spec fn greatest_among<T: PartialOrd>(cells: Seq<T>, upto: u32) -> int {
    last_greatest(cells, upto as int)
}

/// Where the scan for the least cell stands after `upto` cells.
pub open spec fn least_among<T: PartialOrd>(cells: Seq<T>, upto: u32) -> int {
    first_least(cells, upto as int)
}

/// The position of the greatest cell of the grid.
pub open spec fn greatest_position<T: PartialOrd>(grid: &Matrix<T>) -> UVec2 {
    position_of(last_greatest(grid@, grid@.len() as int), grid.spec_size())
}

/// The position of the least cell of the grid.
pub open spec fn least_position<T: PartialOrd>(grid: &Matrix<T>) -> UVec2 {
    position_of(first_least(grid@, grid@.len() as int), grid.spec_size())
}

/// The scans end on an index of the sequence.
pub proof fn lemma_scan_in_range<T: PartialOrd>(cells: Seq<T>, upto: int)
    requires
        1 <= upto <= cells.len(),
    ensures
        0 <= last_greatest(cells, upto) < upto,
        0 <= first_least(cells, upto) < upto,
    decreases upto,
{
    if upto > 1 {
        lemma_scan_in_range(cells, upto - 1);
    }
}

/// Whether `a` is not greater than `b`.
pub open spec fn not_greater<T: PartialOrd>(a: T, b: T) -> bool {
    a.partial_cmp_spec(&b) != Some(Ordering::Greater)
}

/// Whether "not greater" ranks all values: of any two values one is not
/// greater than the other, and a value that is not greater than a second,
/// which is not greater than a third, is not greater than the third.
pub open spec fn not_greater_ranks<T: PartialOrd>() -> bool {
    &&& forall|a: T, b: T| #[trigger] not_greater(a, b) || not_greater(b, a)
    &&& forall|a: T, b: T, c: T|
        #[trigger] not_greater(a, b) && #[trigger] not_greater(b, c) ==> not_greater(a, c)
}

/// Where "not greater" ranks all values, no cell is greater than the one
/// that the scan for the greatest cell ends on, and that cell is greater than
/// every cell after it.
pub proof fn lemma_scan_finds_last_greatest<T: PartialOrd>(cells: Seq<T>, upto: int, i: int)
    requires
        not_greater_ranks::<T>(),
        1 <= upto <= cells.len(),
        0 <= i < upto,
    ensures
        0 <= last_greatest(cells, upto) < upto,
        not_greater(cells[i], cells[last_greatest(cells, upto)]),
        i > last_greatest(cells, upto) ==> !not_greater(cells[last_greatest(cells, upto)], cells[i]),
    decreases upto,
{
    lemma_scan_in_range(cells, upto);
    let last = cells[upto - 1];
    assert(not_greater(last, last) || not_greater(last, last));
    if upto > 1 {
        let before = last_greatest(cells, upto - 1);
        lemma_scan_in_range(cells, upto - 1);
        assert(not_greater(cells[before], last) || not_greater(last, cells[before]));
        if i < upto - 1 {
            lemma_scan_finds_last_greatest(cells, upto - 1, i);
            assert(not_greater(cells[i], cells[before]));
            if not_greater(cells[before], last) {
                assert(not_greater(cells[i], last));
            }
        }
    }
}

/// Where "not greater" ranks all values, the cell that the scan for the
/// least cell ends on is not greater than any cell, and every cell before it
/// is greater than it.
pub proof fn lemma_scan_finds_first_least<T: PartialOrd>(cells: Seq<T>, upto: int, i: int)
    requires
        not_greater_ranks::<T>(),
        1 <= upto <= cells.len(),
        0 <= i < upto,
    ensures
        0 <= first_least(cells, upto) < upto,
        not_greater(cells[first_least(cells, upto)], cells[i]),
        i < first_least(cells, upto) ==> !not_greater(cells[i], cells[first_least(cells, upto)]),
    decreases upto,
{
    lemma_scan_in_range(cells, upto);
    let last = cells[upto - 1];
    assert(not_greater(last, last) || not_greater(last, last));
    if upto > 1 {
        let before = first_least(cells, upto - 1);
        lemma_scan_in_range(cells, upto - 1);
        assert(not_greater(cells[before], last) || not_greater(last, cells[before]));
        if i < upto - 1 {
            lemma_scan_finds_first_least(cells, upto - 1, i);
            assert(not_greater(cells[before], cells[i]));
            if !not_greater(cells[before], last) {
                assert(not_greater(last, cells[before]));
                assert(not_greater(last, cells[i]));
                if not_greater(cells[i], last) {
                    assert(not_greater(cells[before], last));
                }
            }
        }
    }
}

/// The sum of the cells.
pub open spec fn total(cells: Seq<u32>) -> int
    decreases cells.len(),
{
    if cells.len() == 0 {
        0
    } else {
        total(cells.drop_last()) + cells.last()
    }
}

/// The sum of cells is at most their count times the largest `u32`.
pub proof fn lemma_total_bound(cells: Seq<u32>)
    ensures
        0 <= total(cells) <= cells.len() * u32::MAX,
    decreases cells.len(),
{
    if cells.len() > 0 {
        lemma_total_bound(cells.drop_last());
        assert((cells.len() - 1) * u32::MAX + u32::MAX == cells.len() * u32::MAX)
            by (nonlinear_arith);
    }
}

/// The cardinal directions in which a step from `pos` stays in the grid, in
/// the order North, West, East, South.
pub open spec fn open_directions(pos: UVec2, size: UVec2) -> Seq<Direction> {
    (if can_step(pos, size, 0, -1) { seq![Direction::North] } else { Seq::empty() }) + (if can_step(
        pos,
        size,
        -1,
        0,
    ) { seq![Direction::West] } else { Seq::empty() }) + (if can_step(pos, size, 1, 0) {
        seq![Direction::East]
    } else {
        Seq::empty()
    }) + (if can_step(pos, size, 0, 1) { seq![Direction::South] } else { Seq::empty() })
}

impl<T> Matrix<T> {
    /// The positions of all cells, in row-major order.
    pub fn positions(&self) -> (all: Vec<UVec2>)
        ensures
            all@ == grid_positions(self.spec_size()),
    {
        let size = self.size();
        let all = size.positions();
        proof {
            assert((size.x == 0 || size.y == 0) ==> size.x * size.y == 0) by (nonlinear_arith);
            assert(all@.len() == grid_positions(size).len());
            assert(all@ =~= grid_positions(size));
        }
        all
    }

    /// The middle cell of a grid with an odd number of columns.
    pub fn get_center_pos(&self) -> (centre: UVec2)
        requires
            self.spec_size().x % 2 != 0,
        ensures
            centre.x == self.spec_size().x / 2,
            centre.y == self.spec_size().y / 2,
    {
        let size = self.size();
        UVec2::new(size.x / 2, size.y / 2)
    }

    /// The cardinal directions in which a step from `pos` stays in the grid.
    pub fn valid_dirs(&self, pos: UVec2) -> (dirs: Vec<Direction>)
        ensures
            dirs@ == open_directions(pos, self.spec_size()),
    {
        let size = self.size();
        let mut valid_dirs: Vec<Direction> = Vec::with_capacity(4);
        let in_x = pos.x < size.x;
        let in_y = pos.y < size.y;
        if pos.y > 0 && pos.y - 1 < size.y && in_x {
            valid_dirs.push(Direction::North);
        }
        if pos.x > 0 && pos.x - 1 < size.x && in_y {
            valid_dirs.push(Direction::West);
        }
        if pos.x < u32::MAX && pos.x + 1 < size.x && in_y {
            valid_dirs.push(Direction::East);
        }
        if pos.y < u32::MAX && pos.y + 1 < size.y && in_x {
            valid_dirs.push(Direction::South);
        }
        assert(valid_dirs@ =~= open_directions(pos, size));
        valid_dirs
    }

    /// The greatest cell and its position; among equally great cells, the
    /// last in row-major order.
    pub fn max_value(&self) -> (best: (&T, UVec2)) where T: PartialOrd
        requires
            self@.len() > 0,
            T::obeys_partial_cmp_spec(),
        ensures
            in_bounds(best.1, self.spec_size()),
            *best.0 == self.at(best.1),
            best.1 == greatest_position(self),
    {
        let count = self.element_count();
        let mut best_idx: u32 = 0;
        let mut idx: u32 = 1;
        while idx < count
            invariant
                1 <= idx <= count,
                count == self@.len(),
                T::obeys_partial_cmp_spec(),
                best_idx == greatest_among(self@, idx),
                best_idx < idx,
            decreases count - idx,
        {
            if !(*self.cell_by_index(best_idx) > *self.cell_by_index(idx)) {
                best_idx = idx;
            }
            idx += 1;
        }
        self.cell_with_position(best_idx)
    }

    /// The least cell and its position; among equally small cells, the first
    /// in row-major order.
    pub fn min_value(&self) -> (best: (&T, UVec2)) where T: PartialOrd
        requires
            self@.len() > 0,
            T::obeys_partial_cmp_spec(),
        ensures
            in_bounds(best.1, self.spec_size()),
            *best.0 == self.at(best.1),
            best.1 == least_position(self),
    {
        let count = self.element_count();
        let mut best_idx: u32 = 0;
        let mut idx: u32 = 1;
        while idx < count
            invariant
                1 <= idx <= count,
                count == self@.len(),
                T::obeys_partial_cmp_spec(),
                best_idx == least_among(self@, idx),
                best_idx < idx,
            decreases count - idx,
        {
            if *self.cell_by_index(best_idx) > *self.cell_by_index(idx) {
                best_idx = idx;
            }
            idx += 1;
        }
        self.cell_with_position(best_idx)
    }

    /// The cell at a valid row-major index, with its position.
    fn cell_with_position(&self, idx: u32) -> (cell: (&T, UVec2))
        requires
            idx < self@.len(),
        ensures
            in_bounds(cell.1, self.spec_size()),
            cell.1 == position_of(idx as int, self.spec_size()),
            *cell.0 == self.at(cell.1),
            *cell.0 == self@[idx as int],
    {
        let count = self.element_count();
        let pos = self.idx_to_pos(idx);
        proof {
            lemma_position_in_bounds(idx as int, self.spec_size());
        }
        (self.cell_by_index(idx), pos)
    }

    /// The number of cells on which `match_fn` answers `true`.
    pub fn count_matches<F: Fn(&T, UVec2) -> bool>(&self, match_fn: F) -> (count: u32)
        requires
            callable_on_cells(self, match_fn),
        ensures
            exists|answers: Seq<bool>| #[trigger]
                answers_on_cells(self, match_fn, answers) && count == picked(answers, self@).len(),
    {
        let total = self.element_count();
        let mut count: u32 = 0;
        let mut idx: u32 = 0;
        let ghost mut answers: Seq<bool> = Seq::empty();
        while idx < total
            invariant
                0 <= idx <= total,
                total == self@.len(),
                total == self.spec_size().area(),
                callable_on_cells(self, match_fn),
                answers.len() == idx,
                forall|i: int|
                    0 <= i < idx ==> call_ensures(
                        match_fn,
                        (&self@[i], position_of(i, self.spec_size())),
                        #[trigger] answers[i],
                    ),
                count == picked(answers, self@.take(idx as int)).len(),
                count <= idx,
            decreases total - idx,
        {
            let pos = self.idx_to_pos(idx);
            let answer = match_fn(self.cell_by_index(idx), pos);
            proof {
                lemma_picked_push(answers, self@.take(idx as int), answer, self@[idx as int]);
                assert(self@.take(idx as int).push(self@[idx as int]) =~= self@.take(idx as int + 1));
                answers = answers.push(answer);
            }
            if answer {
                count += 1;
            }
            idx += 1;
        }
        proof {
            assert(self@.take(idx as int) =~= self@);
            assert(answers_on_cells(self, match_fn, answers));
        }
        count
    }

    /// The cells on which `filter_fn` answers `true`, in row-major order.
    pub fn extract_values<'a, F: Fn(&T) -> bool>(&'a self, filter_fn: F) -> (values: Vec<&'a T>)
        requires
            callable_on_values(self, filter_fn),
        ensures
            exists|answers: Seq<bool>| #[trigger]
                answers_on_values(self, filter_fn, answers) && values@.len() == picked(
                    answers,
                    self@,
                ).len() && forall|k: int|
                    0 <= k < values@.len() ==> *#[trigger] values@[k] == picked(answers, self@)[k],
    {
        let total = self.element_count();
        let mut values: Vec<&'a T> = Vec::new();
        let mut idx: u32 = 0;
        let ghost mut answers: Seq<bool> = Seq::empty();
        while idx < total
            invariant
                0 <= idx <= total,
                total == self@.len(),
                callable_on_values(self, filter_fn),
                answers.len() == idx,
                forall|i: int|
                    0 <= i < idx ==> call_ensures(filter_fn, (&self@[i],), #[trigger] answers[i]),
                values@.len() == picked(answers, self@.take(idx as int)).len(),
                forall|k: int|
                    0 <= k < values@.len() ==> *#[trigger] values@[k] == picked(
                        answers,
                        self@.take(idx as int),
                    )[k],
            decreases total - idx,
        {
            let value = self.cell_by_index(idx);
            let answer = filter_fn(value);
            proof {
                lemma_picked_push(answers, self@.take(idx as int), answer, self@[idx as int]);
                assert(self@.take(idx as int).push(self@[idx as int]) =~= self@.take(idx as int + 1));
                answers = answers.push(answer);
            }
            if answer {
                values.push(value);
            }
            idx += 1;
        }
        proof {
            assert(self@.take(idx as int) =~= self@);
            assert(answers_on_values(self, filter_fn, answers));
        }
        values
    }

    /// The cells on which `filter_fn` answers `true`, each with its
    /// position, in row-major order.
    pub fn extract_values_and_positions<'a, F: Fn(&T, UVec2) -> bool>(
        &'a self,
        filter_fn: F,
    ) -> (pairs: Vec<(&'a T, UVec2)>)
        requires
            callable_on_cells(self, filter_fn),
        ensures
            exists|answers: Seq<bool>| #[trigger]
                answers_on_cells(self, filter_fn, answers) && pairs@.len() == picked(
                    answers,
                    self@,
                ).len() && forall|k: int|
                    0 <= k < pairs@.len() ==> *(#[trigger] pairs@[k]).0 == picked(answers, self@)[k]
                        && pairs@[k].1 == picked(answers, grid_positions(self.spec_size()))[k],
    {
        let total = self.element_count();
        let mut pairs: Vec<(&'a T, UVec2)> = Vec::new();
        let mut idx: u32 = 0;
        let ghost mut answers: Seq<bool> = Seq::empty();
        let ghost places = grid_positions(self.spec_size());
        while idx < total
            invariant
                0 <= idx <= total,
                total == self@.len(),
                total == self.spec_size().area(),
                places == grid_positions(self.spec_size()),
                callable_on_cells(self, filter_fn),
                answers.len() == idx,
                forall|i: int|
                    0 <= i < idx ==> call_ensures(
                        filter_fn,
                        (&self@[i], position_of(i, self.spec_size())),
                        #[trigger] answers[i],
                    ),
                pairs@.len() == picked(answers, self@.take(idx as int)).len(),
                pairs@.len() == picked(answers, places.take(idx as int)).len(),
                forall|k: int|
                    0 <= k < pairs@.len() ==> *(#[trigger] pairs@[k]).0 == picked(
                        answers,
                        self@.take(idx as int),
                    )[k] && pairs@[k].1 == picked(answers, places.take(idx as int))[k],
            decreases total - idx,
        {
            let pos = self.idx_to_pos(idx);
            let value = self.cell_by_index(idx);
            let answer = filter_fn(value, pos);
            proof {
                lemma_picked_push(answers, self@.take(idx as int), answer, self@[idx as int]);
                lemma_picked_push(answers, places.take(idx as int), answer, places[idx as int]);
                assert(self@.take(idx as int).push(self@[idx as int]) =~= self@.take(idx as int + 1));
                assert(places.take(idx as int).push(places[idx as int]) =~= places.take(
                    idx as int + 1,
                ));
                answers = answers.push(answer);
            }
            if answer {
                pairs.push((value, pos));
            }
            idx += 1;
        }
        proof {
            assert(self@.take(idx as int) =~= self@);
            assert(places.take(idx as int) =~= places);
            assert(answers_on_cells(self, filter_fn, answers));
        }
        pairs
    }

    /// The positions of the cells on which `filter_fn` answers `true`, in
    /// row-major order.
    pub fn extract_positions<F: Fn(&T, UVec2) -> bool>(&self, filter_fn: F) -> (positions: Vec<
        UVec2,
    >)
        requires
            callable_on_cells(self, filter_fn),
        ensures
            exists|answers: Seq<bool>| #[trigger]
                answers_on_cells(self, filter_fn, answers) && positions@ == picked(
                    answers,
                    grid_positions(self.spec_size()),
                ),
    {
        let total = self.element_count();
        let mut positions: Vec<UVec2> = Vec::new();
        let mut idx: u32 = 0;
        let ghost mut answers: Seq<bool> = Seq::empty();
        let ghost places = grid_positions(self.spec_size());
        while idx < total
            invariant
                0 <= idx <= total,
                total == self@.len(),
                total == self.spec_size().area(),
                places == grid_positions(self.spec_size()),
                callable_on_cells(self, filter_fn),
                answers.len() == idx,
                forall|i: int|
                    0 <= i < idx ==> call_ensures(
                        filter_fn,
                        (&self@[i], position_of(i, self.spec_size())),
                        #[trigger] answers[i],
                    ),
                positions@ == picked(answers, places.take(idx as int)),
            decreases total - idx,
        {
            let pos = self.idx_to_pos(idx);
            let answer = filter_fn(self.cell_by_index(idx), pos);
            proof {
                lemma_picked_push(answers, places.take(idx as int), answer, places[idx as int]);
                assert(places.take(idx as int).push(places[idx as int]) =~= places.take(
                    idx as int + 1,
                ));
                answers = answers.push(answer);
            }
            if answer {
                positions.push(pos);
            }
            idx += 1;
        }
        proof {
            assert(places.take(idx as int) =~= places);
            assert(answers_on_cells(self, filter_fn, answers));
        }
        positions
    }
}

impl Matrix<u32> {
    /// The mean of the cells, rounded down.
    pub fn mean_value(&self) -> (mean: u32)
        requires
            self@.len() > 0,
        ensures
            mean == total(self@) / (self@.len() as int),
    {
        let count = self.element_count();
        let mut sum: u64 = 0;
        let mut idx: u32 = 0;
        while idx < count
            invariant
                0 <= idx <= count,
                count == self@.len(),
                sum == total(self@.take(idx as int)),
            decreases count - idx,
        {
            proof {
                lemma_total_bound(self@.take(idx as int));
                assert(self@.take(idx as int + 1).drop_last() =~= self@.take(idx as int));
                assert(idx * u32::MAX + u32::MAX <= u64::MAX) by (nonlinear_arith)
                    requires
                        idx < u32::MAX,
                ;
            }
            sum = sum + *self.cell_by_index(idx) as u64;
            idx += 1;
        }
        proof {
            assert(self@.take(idx as int) =~= self@);
            lemma_total_bound(self@);
            assert(total(self@) / (count as int) <= u32::MAX) by (nonlinear_arith)
                requires
                    0 <= total(self@) <= count * u32::MAX,
                    count > 0,
            ;
        }
        (sum / count as u64) as u32
    }
}

} // verus!
