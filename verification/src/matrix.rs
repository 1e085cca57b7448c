//! The grid store: a flat, row-major sequence of cells addressed by position.

use itertools::Itertools;
use vstd::prelude::*;
use crate::error::GridError;
use crate::iterators::{MatrixIterator, MatrixMutIterator, MatrixPosIterator, MatrixPosMutIterator};
use crate::vec2::UVec2;

verus! {

/// Whether `pos` addresses a cell of a grid of the given `size`.
pub open spec fn in_bounds(pos: UVec2, size: UVec2) -> bool {
    pos.x < size.x && pos.y < size.y
}

/// The row-major index of `pos` in a grid of the given `size`.
pub open spec fn index_of(pos: UVec2, size: UVec2) -> int {
    pos.y * size.x + pos.x
}

/// The position whose row-major index is `idx` in a grid of the given `size`.
pub open spec fn position_of(idx: int, size: UVec2) -> UVec2 {
    UVec2 { x: (idx % (size.x as int)) as u32, y: (idx / (size.x as int)) as u32 }
}

/// The index of an in-bounds position is below the cell count.
pub proof fn lemma_index_in_range(pos: UVec2, size: UVec2)
    requires
        in_bounds(pos, size),
    ensures
        0 <= index_of(pos, size) < size.area(),
{
    assert(pos.y * size.x + pos.x < size.x * size.y) by (nonlinear_arith)
        requires
            pos.x < size.x,
            pos.y < size.y,
    ;
    assert(0 <= pos.y * size.x) by (nonlinear_arith);
}

/// Reading the index of an in-bounds position back gives the position.
pub proof fn lemma_index_roundtrip(pos: UVec2, size: UVec2)
    requires
        in_bounds(pos, size),
    ensures
        position_of(index_of(pos, size), size) == pos,
{
    vstd::arithmetic::div_mod::lemma_fundamental_div_mod_converse(
        index_of(pos, size),
        size.x as int,
        pos.y as int,
        pos.x as int,
    );
}

/// Two in-bounds positions with one index are one position.
pub proof fn lemma_index_injective(a: UVec2, b: UVec2, size: UVec2)
    requires
        in_bounds(a, size),
        in_bounds(b, size),
        index_of(a, size) == index_of(b, size),
    ensures
        a == b,
{
    lemma_index_roundtrip(a, size);
    lemma_index_roundtrip(b, size);
}

/// The rows as sequences of cells.
pub open spec fn rows_view<T>(rows: Seq<Vec<T>>) -> Seq<Seq<T>> {
    rows.map_values(|row: Vec<T>| row@)
}

/// `Iterator::flatten` collected by `Itertools::collect_vec`: the cells of all
/// rows, row after row in their order.
#[verifier::external_body]
fn flatten_rows<T>(rows: Vec<Vec<T>>) -> (flat: Vec<T>)
    ensures
        flat@ == rows_view(rows@).flatten(),
{
    rows.into_iter().flatten().collect_vec()
}

/// A dense grid of `size.x` columns and `size.y` rows, stored row by row.
#[derive(Debug, PartialEq, Eq)]
pub struct Matrix<T> {
    elements: Vec<T>,
    size: UVec2,
}

impl<T> View for Matrix<T> {
    type V = Seq<T>;

    /// The cells in row-major order.
    closed spec fn view(&self) -> Seq<T> {
        self.elements@
    }
}

impl<T: Clone> Clone for Matrix<T> {
    /// A grid of the same size whose cells are clones of this grid's cells.
    fn clone(&self) -> (m: Self)
        ensures
            m.spec_size() == self.spec_size(),
            m@.len() == self@.len(),
            forall|i: int| 0 <= i < self@.len() ==> cloned(#[trigger] self@[i], m@[i]),
    {
        proof {
            use_type_invariant(self);
        }
        Matrix { elements: self.elements.clone(), size: self.size }
    }
}

impl<T> Matrix<T> {
    /// The width and height of the grid.
    pub closed spec fn spec_size(&self) -> UVec2 {
        self.size
    }

    /// The cell count matches the size and fits in `u32`.
    #[verifier::type_invariant]
    pub closed spec fn well_formed(&self) -> bool {
        &&& self.elements@.len() == self.size.area()
        &&& self.size.area() <= u32::MAX
    }

    /// The cell at `pos`.
    pub open spec fn at(&self, pos: UVec2) -> T
        recommends
            in_bounds(pos, self.spec_size()),
    {
        self@[index_of(pos, self.spec_size())]
    }

    /// A grid of the requested size with every cell a clone of `value`.
    pub fn splat(size: UVec2, value: T) -> (m: Self) where T: Clone
        requires
            size.area() <= u32::MAX,
        ensures
            m.well_formed(),
            m.spec_size() == size,
            m@.len() == size.area(),
            forall|i: int| 0 <= i < m@.len() ==> cloned(value, #[trigger] m@[i]),
    {
        let n = size.element_product() as usize;
        let vec = vec![value; n];
        Matrix { elements: vec, size }
    }

    /// A grid of the requested size with every cell a clone of the default
    /// value of the cell type.
    pub fn new(size: UVec2) -> (m: Self) where T: Default + Clone
        requires
            size.area() <= u32::MAX,
        ensures
            m.well_formed(),
            m.spec_size() == size,
            m@.len() == size.area(),
            exists|fill: T|
                call_ensures(T::default, (), fill) && forall|i: int|
                    0 <= i < m@.len() ==> cloned(fill, #[trigger] m@[i]),
    {
        Self::splat(size, T::default())
    }

    /// A grid over the cells of `elements`, taken row after row. Its size is
    /// the number of rows by the length of the first row. Rejected when there
    /// is no row or when the rows together do not hold exactly that many
    /// cells.
    pub fn from_elements_2d(elements: Vec<Vec<T>>) -> (r: Result<Self, GridError>)
        ensures
            r is Ok <==> elements@.len() > 0 && elements@.len() <= u32::MAX && elements@[0]@.len()
                <= u32::MAX && rows_view(elements@).flatten().len() == elements@.len()
                * elements@[0]@.len() && elements@.len() * elements@[0]@.len() <= u32::MAX,
            r matches Ok(m) ==> m.well_formed() && m@ == rows_view(elements@).flatten()
                && m.spec_size().x == elements@.len() && m.spec_size().y == elements@[0]@.len(),
            r matches Err(e) ==> e == GridError::Construction,
    {
        if elements.len() == 0 || elements.len() > u32::MAX as usize {
            return Err(GridError::Construction);
        }
        if elements[0].len() > u32::MAX as usize {
            return Err(GridError::Construction);
        }
        let size = UVec2::new(elements.len() as u32, elements[0].len() as u32);
        let flat = flatten_rows(elements);
        Self::from_elements(flat, size)
    }

    /// A grid over an explicit row-major sequence of cells, rejected when the
    /// sequence does not hold exactly `size.x * size.y` cells.
    pub fn from_elements(elements: Vec<T>, size: UVec2) -> (r: Result<Self, GridError>)
        ensures
            r is Ok <==> elements@.len() == size.area() && size.area() <= u32::MAX,
            r is Ok ==> r->Ok_0.well_formed() && r->Ok_0@ == elements@ && r->Ok_0.spec_size()
                == size,
            r is Err ==> r->Err_0 == GridError::Construction,
    {
        assert(size.x * size.y <= u64::MAX) by (nonlinear_arith)
            requires
                size.x <= u32::MAX,
                size.y <= u32::MAX,
        ;
        let count = size.x as u64 * size.y as u64;
        if count > u32::MAX as u64 || elements.len() as u64 != count {
            return Err(GridError::Construction);
        }
        Ok(Matrix { elements, size })
    }

    /// Whether `pos` addresses a cell of this grid.
    pub fn is_in_bounds(&self, pos: UVec2) -> (b: bool)
        ensures
            b == in_bounds(pos, self.spec_size()),
    {
        pos.x < self.size.x && pos.y < self.size.y
    }

    /// Whether `pos` addresses a cell of a grid of the given `size`.
    pub fn is_in_bounds_multi(pos: UVec2, size: UVec2) -> (b: bool)
        ensures
            b == in_bounds(pos, size),
    {
        pos.x < size.x && pos.y < size.y
    }

    /// The width and height of the grid.
    pub fn size(&self) -> (s: UVec2)
        ensures
            s == self.spec_size(),
    {
        self.size
    }

    /// The number of cells.
    pub fn element_count(&self) -> (n: u32)
        ensures
            n == self.spec_size().area(),
            n == self@.len(),
    {
        proof {
            use_type_invariant(self);
        }
        self.size.element_product()
    }

    /// The row-major index of an in-bounds position.
    pub fn pos_to_idx(&self, pos: UVec2) -> (idx: u32)
        requires
            in_bounds(pos, self.spec_size()),
        ensures
            idx == index_of(pos, self.spec_size()),
            idx < self@.len(),
            idx < self.spec_size().area(),
    {
        proof {
            use_type_invariant(self);
            lemma_index_in_range(pos, self.size);
        }
        pos.y * self.size.x + pos.x
    }

    /// The position of a valid row-major index.
    pub fn idx_to_pos(&self, idx: u32) -> (pos: UVec2)
        requires
            idx < self@.len(),
        ensures
            pos == position_of(idx as int, self.spec_size()),
            in_bounds(pos, self.spec_size()),
    {
        proof {
            use_type_invariant(self);
            lemma_position_in_bounds(idx as int, self.size);
        }
        let width = self.size.x;
        UVec2::new(idx % width, idx / width)
    }

    /// The cell at an in-bounds position.
    pub(crate) fn cell_at(&self, pos: UVec2) -> (v: &T)
        requires
            in_bounds(pos, self.spec_size()),
        ensures
            *v == self.at(pos),
    {
        let idx = self.pos_to_idx(pos) as usize;
        &self.elements[idx]
    }

    /// The cell at a valid row-major index.
    pub(crate) fn cell_by_index(&self, idx: u32) -> (v: &T)
        requires
            idx < self@.len(),
        ensures
            *v == self@[idx as int],
    {
        &self.elements[idx as usize]
    }

    /// The cell at `pos`, or `OutOfBounds` when `pos` is outside the grid.
    pub fn get(&self, pos: UVec2) -> (r: Result<&T, GridError>)
        ensures
            in_bounds(pos, self.spec_size()) ==> r == Ok::<&T, GridError>(&self.at(pos)),
            !in_bounds(pos, self.spec_size()) ==> r == Err::<&T, GridError>(
                GridError::OutOfBounds,
            ),
    {
        if !self.is_in_bounds(pos) {
            return Err(GridError::OutOfBounds);
        }
        let idx = self.pos_to_idx(pos) as usize;
        Ok(&self.elements[idx])
    }

    /// The cells in row-major order.
    pub fn flat_vec(&self) -> (cells: &Vec<T>)
        ensures
            cells@ == self@,
    {
        &self.elements
    }

    /// The cells in row-major order, the grid given up for them.
    pub fn into_flat_vec(self) -> (cells: Vec<T>)
        ensures
            cells@ == self@,
    {
        self.elements
    }

    /// The cells in row-major order, as a slice.
    pub(crate) fn inner(&self) -> (cells: &[T])
        ensures
            cells@ == self@,
    {
        self.elements.as_slice()
    }

    /// The cell at `pos`, open to writing, or `OutOfBounds` when `pos` is
    /// outside the grid. What is written to the cell is written to the grid.
    pub fn get_mut(&mut self, pos: UVec2) -> (r: Result<&mut T, GridError>)
        ensures
            final(self).spec_size() == old(self).spec_size(),
            in_bounds(pos, old(self).spec_size()) ==> r is Ok,
            r matches Ok(cell) ==> in_bounds(pos, old(self).spec_size()) && *cell == old(self).at(
                pos,
            ) && final(self)@ == old(self)@.update(
                index_of(pos, old(self).spec_size()),
                *final(cell),
            ),
            r matches Err(e) ==> e == GridError::OutOfBounds && !in_bounds(
                pos,
                old(self).spec_size(),
            ) && final(self)@ == old(self)@,
    {
        if !self.is_in_bounds(pos) {
            return Err(GridError::OutOfBounds);
        }
        proof {
            use_type_invariant(&*self);
        }
        let idx = self.pos_to_idx(pos) as usize;
        Ok(slot(&mut self.elements, idx))
    }

    /// The cell at a valid row-major index, open to writing.
    pub(crate) fn cell_mut_by_index(&mut self, idx: u32) -> (cell: &mut T)
        requires
            idx < old(self)@.len(),
        ensures
            *cell == old(self)@[idx as int],
            final(self)@ == old(self)@.update(idx as int, *final(cell)),
            final(self).spec_size() == old(self).spec_size(),
    {
        proof {
            use_type_invariant(&*self);
        }
        slot(&mut self.elements, idx as usize)
    }

    /// A walk over the cells in row-major order.
    pub fn iter(&self) -> (walk: MatrixIterator<'_, T>)
        ensures
            walk.remaining() == self@,
    {
        MatrixIterator::new(self.inner())
    }

    /// A walk over the cells in row-major order that lets each cell be
    /// changed. What is written to a cell is written to the grid.
    pub fn iter_mut(&mut self) -> (walk: MatrixMutIterator<'_, T>)
        ensures
            walk.cells() == old(self)@,
            walk.yielded() == 0,
            walk.grid.spec_size() == old(self).spec_size(),
            *final(walk.grid) == *final(self),
    {
        MatrixMutIterator::new(self)
    }

    /// A walk over the cells in row-major order, each with its position.
    pub fn iter_with_pos(&self) -> (walk: MatrixPosIterator<'_, T>)
        ensures
            walk.cells() == self@,
            walk.yielded() == 0,
            walk.spec_width() == self.spec_size().x,
    {
        proof {
            use_type_invariant(self);
            assert(self.size.x == 0 ==> self.size.x * self.size.y == 0) by (nonlinear_arith);
        }
        MatrixPosIterator::new(self.inner(), self.size.x)
    }

    /// A walk over the cells in row-major order, each with its position,
    /// that lets each cell be changed. What is written to a cell is written
    /// to the grid.
    pub fn iter_with_pos_mut(&mut self) -> (walk: MatrixPosMutIterator<'_, T>)
        ensures
            walk.cells() == old(self)@,
            walk.yielded() == 0,
            walk.grid.spec_size() == old(self).spec_size(),
            *final(walk.grid) == *final(self),
    {
        MatrixPosMutIterator::new(self)
    }

    /// Replaces the cell at `pos` by `value`; an out-of-bounds `pos` leaves the
    /// grid unchanged and reports `OutOfBounds`.
    pub fn set(&mut self, pos: UVec2, value: T) -> (r: Result<(), GridError>)
        ensures
            final(self).spec_size() == old(self).spec_size(),
            in_bounds(pos, old(self).spec_size()) ==> r is Ok && final(self)@ == old(self)@.update(
                index_of(pos, old(self).spec_size()),
                value,
            ),
            !in_bounds(pos, old(self).spec_size()) ==> r == Err::<(), GridError>(
                GridError::OutOfBounds,
            ) && final(self)@ == old(self)@,
    {
        if !self.is_in_bounds(pos) {
            return Err(GridError::OutOfBounds);
        }
        proof {
            use_type_invariant(&*self);
        }
        let idx = self.pos_to_idx(pos) as usize;
        self.elements[idx] = value;
        Ok(())
    }
}

/// Every index below the cell count names an in-bounds position.
pub proof fn lemma_position_in_bounds(idx: int, size: UVec2)
    requires
        0 <= idx < size.area(),
    ensures
        in_bounds(position_of(idx, size), size),
        index_of(position_of(idx, size), size) == idx,
{
    let w = size.x as int;
    let h = size.y as int;
    assert(w > 0) by (nonlinear_arith)
        requires
            0 <= idx < w * h,
            w >= 0,
    ;
    assert(0 <= idx % w < w);
    assert(idx == w * (idx / w) + idx % w) by {
        vstd::arithmetic::div_mod::lemma_fundamental_div_mod(idx, w);
    }
    assert(0 <= idx / w < h) by (nonlinear_arith)
        requires
            0 <= idx < w * h,
            w > 0,
            idx == w * (idx / w) + idx % w,
            0 <= idx % w < w,
    ;
    assert((idx / w) * w == w * (idx / w)) by (nonlinear_arith);
}

/// The cell of `cells` at `idx`, open to writing.
fn slot<T>(cells: &mut Vec<T>, idx: usize) -> (cell: &mut T)
    requires
        idx < old(cells)@.len(),
    ensures
        *cell == old(cells)@[idx as int],
        final(cells)@ == old(cells)@.update(idx as int, *final(cell)),
    no_unwind
{
    &mut cells[idx]
}

} // verus!
