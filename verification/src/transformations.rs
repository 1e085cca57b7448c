//! Grids made from a grid by a function applied to every cell.

use vstd::prelude::*;
use crate::matrix::{position_of, Matrix};
use crate::vec2::UVec2;

verus! {

/// Clockwise rotations in steps of 90 degrees.
#[derive(Clone, Copy)]
pub enum MatrixRotation {
    /// 90 degrees clockwise.
    D90,
    /// 180 degrees clockwise.
    D180,
    /// 270 degrees clockwise.
    D270,
}

/// The axis along which a grid is mirrored.
#[derive(Clone, Copy)]
pub enum Flip {
    Horizontal,
    Vertical,
}

impl<T> Matrix<T> {
    /// The grid of the same size whose cells are what `map_fn` makes of this
    /// grid's cells.
    #[must_use]
    pub fn map<R, F: Fn(&T) -> R>(&self, map_fn: F) -> (mapped: Matrix<R>)
        requires
            forall|i: int| 0 <= i < self@.len() ==> call_requires(map_fn, (&#[trigger] self@[i],)),
        ensures
            mapped.spec_size() == self.spec_size(),
            mapped@.len() == self@.len(),
            forall|i: int|
                0 <= i < self@.len() ==> call_ensures(map_fn, (&self@[i],), #[trigger] mapped@[i]),
    {
        let count = self.element_count();
        let mut cells: Vec<R> = Vec::with_capacity(count as usize);
        let mut idx: u32 = 0;
        while idx < count
            invariant
                0 <= idx <= count,
                count == self@.len(),
                forall|i: int|
                    0 <= i < self@.len() ==> call_requires(map_fn, (&#[trigger] self@[i],)),
                cells@.len() == idx,
                forall|i: int|
                    0 <= i < idx ==> call_ensures(map_fn, (&self@[i],), #[trigger] cells@[i]),
            decreases count - idx,
        {
            cells.push(map_fn(self.cell_by_index(idx)));
            idx += 1;
        }
        match Matrix::from_elements(cells, self.size()) {
            Ok(mapped) => mapped,
            Err(_) => unreached(),
        }
    }

    /// The grid of the same size whose cells are what `mapping_function`
    /// makes of this grid's cells and their positions.
    #[must_use]
    pub fn map_with_pos<R, F: Fn(&T, UVec2) -> R>(&self, mapping_function: F) -> (mapped: Matrix<R>)
        requires
            forall|i: int|
                0 <= i < self@.len() ==> call_requires(
                    mapping_function,
                    (&#[trigger] self@[i], position_of(i, self.spec_size())),
                ),
        ensures
            mapped.spec_size() == self.spec_size(),
            mapped@.len() == self@.len(),
            forall|i: int|
                0 <= i < self@.len() ==> call_ensures(
                    mapping_function,
                    (&self@[i], position_of(i, self.spec_size())),
                    #[trigger] mapped@[i],
                ),
    {
        let count = self.element_count();
        let mut cells: Vec<R> = Vec::with_capacity(count as usize);
        let mut idx: u32 = 0;
        while idx < count
            invariant
                0 <= idx <= count,
                count == self@.len(),
                forall|i: int|
                    0 <= i < self@.len() ==> call_requires(
                        mapping_function,
                        (&#[trigger] self@[i], position_of(i, self.spec_size())),
                    ),
                cells@.len() == idx,
                forall|i: int|
                    0 <= i < idx ==> call_ensures(
                        mapping_function,
                        (&self@[i], position_of(i, self.spec_size())),
                        #[trigger] cells@[i],
                    ),
            decreases count - idx,
        {
            let pos = self.idx_to_pos(idx);
            cells.push(mapping_function(self.cell_by_index(idx), pos));
            idx += 1;
        }
        match Matrix::from_elements(cells, self.size()) {
            Ok(mapped) => mapped,
            Err(_) => unreached(),
        }
    }
}

} // verus!
