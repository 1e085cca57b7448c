//! Sequential walks over the cells of a grid, with or without positions.
//! Each walk yields the cells in row-major order, one per call of `next`.

use vstd::prelude::*;
use crate::matrix::{position_of, Matrix};
use crate::vec2::UVec2;

verus! {

/// A walk over the cells in row-major order.
pub struct MatrixIterator<'a, T> {
    elements: &'a [T],
    current_idx: usize,
}

impl<'a, T> MatrixIterator<'a, T> {
    /// The walk has not gone past the last cell.
    #[verifier::type_invariant]
    pub closed spec fn well_formed(&self) -> bool {
        self.current_idx <= self.elements@.len()
    }

    /// The cells that the walk has yet to yield.
    pub closed spec fn remaining(&self) -> Seq<T> {
        self.elements@.skip(self.current_idx as int)
    }

    /// A walk over `elements` from the first cell.
    pub(crate) fn new(elements: &'a [T]) -> (walk: Self)
        ensures
            walk.remaining() == elements@,
    {
        MatrixIterator { elements, current_idx: 0 }
    }

    /// The next cell, or `None` once all cells have been yielded.
    pub fn next(&mut self) -> (item: Option<&'a T>)
        ensures
            item is None ==> old(self).remaining().len() == 0 && final(self).remaining() == old(self).remaining(),
            item matches Some(v) ==> old(self).remaining().len() > 0 && *v == old(self).remaining()[0] && final(self).remaining() == old(self).remaining().skip(1),
    {
        proof {
            use_type_invariant(&*self);
        }
        if self.current_idx < self.elements.len() {
            let item = &self.elements[self.current_idx];
            self.current_idx += 1;
            proof {
                assert(self.elements@.skip(self.current_idx as int) =~= old(self).remaining().skip(1));
            }
            Some(item)
        } else {
            None
        }
    }
}

/// A walk over the cells in row-major order that lets each cell be changed.
pub struct MatrixMutIterator<'a, T> {
    /// The grid under the walk.
    pub grid: &'a mut Matrix<T>,
    /// The number of cells that the walk has yielded.
    pub current_idx: u32,
}

impl<'a, T> MatrixMutIterator<'a, T> {
    /// The cells under the walk, in row-major order.
    pub open spec fn cells(&self) -> Seq<T> {
        self.grid@
    }

    /// The number of cells that the walk has yielded.
    pub open spec fn yielded(&self) -> int {
        self.current_idx as int
    }

    /// A walk over the cells of `grid` from the first cell.
    pub(crate) fn new(grid: &'a mut Matrix<T>) -> (walk: Self)
        ensures
            walk.cells() == old(grid)@,
            walk.yielded() == 0,
            walk.grid.spec_size() == old(grid).spec_size(),
            *final(walk.grid) == *final(grid),
    {
        MatrixMutIterator { grid, current_idx: 0 }
    }

    /// The next cell, or `None` once all cells have been yielded. What is
    /// written to the cell is written to the grid.
    pub fn next(&mut self) -> (item: Option<&mut T>)
        ensures
            item is None ==> old(self).yielded() >= old(self).cells().len() && final(self).cells()
                == old(self).cells() && final(self).yielded() == old(self).yielded(),
            item matches Some(v) ==> old(self).yielded() < old(self).cells().len() && *v == old(self).cells()[old(self).yielded()] && final(self).yielded() == old(self).yielded() + 1
                && final(self).cells() == old(self).cells().update(old(self).yielded(), *final(v)),
            final(self).grid.spec_size() == old(self).grid.spec_size(),
            *final(final(self).grid) == *final(old(self).grid),
    {
        let count = self.grid.element_count();
        if self.current_idx < count {
            let i = self.current_idx;
            self.current_idx += 1;
            Some(self.grid.cell_mut_by_index(i))
        } else {
            None
        }
    }
}

/// A walk over the cells in row-major order, each with its position in a
/// grid of a given width.
pub struct MatrixPosIterator<'a, T> {
    data: &'a [T],
    width: u32,
    current_idx: usize,
}

impl<'a, T> MatrixPosIterator<'a, T> {
    /// The walk has not gone past the last cell, every index fits in `u32`,
    /// and where there are cells the width is not zero.
    #[verifier::type_invariant]
    pub closed spec fn well_formed(&self) -> bool {
        &&& self.current_idx <= self.data@.len()
        &&& self.data@.len() <= u32::MAX
        &&& self.data@.len() > 0 ==> self.width > 0
    }

    /// The cells under the walk, in row-major order.
    pub closed spec fn cells(&self) -> Seq<T> {
        self.data@
    }

    /// The number of cells that the walk has yielded.
    pub closed spec fn yielded(&self) -> int {
        self.current_idx as int
    }

    /// The width of the grid that the positions are taken in.
    pub closed spec fn spec_width(&self) -> u32 {
        self.width
    }

    /// A walk over `data` from the first cell, with positions in a grid
    /// `width` cells wide.
    pub fn new(data: &'a [T], width: u32) -> (walk: Self)
        requires
            data@.len() <= u32::MAX,
            data@.len() > 0 ==> width > 0,
        ensures
            walk.cells() == data@,
            walk.yielded() == 0,
            walk.spec_width() == width,
    {
        MatrixPosIterator { data, width, current_idx: 0 }
    }

    /// The next cell with its position, or `None` once all cells have been
    /// yielded.
    pub fn next(&mut self) -> (item: Option<(&'a T, UVec2)>)
        ensures
            final(self).cells() == old(self).cells(),
            final(self).spec_width() == old(self).spec_width(),
            item is None ==> old(self).yielded() == old(self).cells().len() && final(self).yielded() == old(self).yielded(),
            item matches Some(pair) ==> old(self).yielded() < old(self).cells().len() && *pair.0
                == old(self).cells()[old(self).yielded()] && pair.1.x == old(self).yielded() % (old(self).spec_width() as int) && pair.1.y == old(self).yielded() / (old(self).spec_width() as int) && final(self).yielded() == old(self).yielded() + 1,
    {
        proof {
            use_type_invariant(&*self);
        }
        if self.current_idx >= self.data.len() {
            return None;
        }
        let x = self.current_idx as u32 % self.width;
        let y = self.current_idx as u32 / self.width;
        let pos = UVec2::new(x, y);
        let value = &self.data[self.current_idx];
        self.current_idx += 1;
        Some((value, pos))
    }
}

/// A walk over the cells in row-major order, each with its position, that
/// lets each cell be changed.
pub struct MatrixPosMutIterator<'a, T> {
    /// The grid under the walk.
    pub grid: &'a mut Matrix<T>,
    /// The number of cells that the walk has yielded.
    pub current_idx: u32,
}

impl<'a, T> MatrixPosMutIterator<'a, T> {
    /// The cells under the walk, in row-major order.
    pub open spec fn cells(&self) -> Seq<T> {
        self.grid@
    }

    /// The number of cells that the walk has yielded.
    pub open spec fn yielded(&self) -> int {
        self.current_idx as int
    }

    /// A walk over the cells of `grid` from the first cell.
    pub(crate) fn new(grid: &'a mut Matrix<T>) -> (walk: Self)
        ensures
            walk.cells() == old(grid)@,
            walk.yielded() == 0,
            walk.grid.spec_size() == old(grid).spec_size(),
            *final(walk.grid) == *final(grid),
    {
        MatrixPosMutIterator { grid, current_idx: 0 }
    }

    /// The next cell with its position, or `None` once all cells have been
    /// yielded. What is written to the cell is written to the grid.
    pub fn next(&mut self) -> (item: Option<(&mut T, UVec2)>)
        ensures
            item is None ==> old(self).yielded() >= old(self).cells().len() && final(self).cells()
                == old(self).cells() && final(self).yielded() == old(self).yielded(),
            item matches Some(pair) ==> old(self).yielded() < old(self).cells().len() && *pair.0
                == old(self).cells()[old(self).yielded()] && pair.1 == position_of(
                old(self).yielded(),
                old(self).grid.spec_size(),
            ) && final(self).yielded() == old(self).yielded() + 1 && final(self).cells() == old(self).cells().update(old(self).yielded(), *final(pair.0)),
            final(self).grid.spec_size() == old(self).grid.spec_size(),
            *final(final(self).grid) == *final(old(self).grid),
    {
        let count = self.grid.element_count();
        if self.current_idx < count {
            let i = self.current_idx;
            let pos = self.grid.idx_to_pos(i);
            self.current_idx += 1;
            Some((self.grid.cell_mut_by_index(i), pos))
        } else {
            None
        }
    }
}

} // verus!
