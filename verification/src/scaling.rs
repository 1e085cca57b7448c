//! Scaling a grid up and down by a power of two: each cell becomes a block
//! of equal cells, or each block is sampled at its centre.

use vstd::prelude::*;
use crate::error::GridError;
use crate::matrix::{
    in_bounds, lemma_index_in_range, lemma_position_in_bounds, position_of, Matrix,
};
use crate::vec2::UVec2;

verus! {

/// Whether `n` is a power of two.
pub open spec fn is_power_of_two(n: int) -> bool
    decreases n,
{
    n == 1 || (n > 1 && n % 2 == 0 && is_power_of_two(n / 2))
}

/// Whether a grid of the given `size` can be scaled up by `factor`: the
/// factor is a power of two and the scaled grid's cell count fits in `u32`.
pub open spec fn can_scale_up(size: UVec2, factor: u32) -> bool {
    &&& is_power_of_two(factor as int)
    &&& size.x * factor <= u32::MAX
    &&& size.y * factor <= u32::MAX
    &&& (size.x * factor) * (size.y * factor) <= u32::MAX
}

/// Whether a grid of the given `size` can be scaled down by `factor`: the
/// factor is a power of two above one that divides both width and height.
pub open spec fn can_scale_down(size: UVec2, factor: u32) -> bool {
    &&& is_power_of_two(factor as int)
    &&& factor >= 2
    &&& size.x % factor == 0
    &&& size.y % factor == 0
}

/// Whether `scaled` is `base` with each cell blown up to a block of `factor`
/// by `factor` equal cells.
pub open spec fn scaled_up<T>(base: &Matrix<T>, factor: u32, scaled: &Matrix<T>) -> bool {
    &&& scaled.spec_size().x == base.spec_size().x * factor
    &&& scaled.spec_size().y == base.spec_size().y * factor
    &&& forall|p: UVec2|
        in_bounds(p, scaled.spec_size()) ==> #[trigger] scaled.at(p) == base.at(
            UVec2 { x: p.x / factor, y: p.y / factor },
        )
}

/// The cell of the base grid that a scaled-down cell is sampled from: the
/// cell of its block nearest to the centre, towards the top left.
pub open spec fn sample_of(p: UVec2, factor: u32) -> UVec2 {
    UVec2 {
        x: (p.x * factor + factor / 2 - 1) as u32,
        y: (p.y * factor + factor / 2 - 1) as u32,
    }
}

/// Whether `scaled` is `base` with each block of `factor` by `factor` cells
/// replaced by the cell sampled from it.
pub open spec fn scaled_down<T>(base: &Matrix<T>, factor: u32, scaled: &Matrix<T>) -> bool {
    &&& scaled.spec_size().x == base.spec_size().x / factor
    &&& scaled.spec_size().y == base.spec_size().y / factor
    &&& forall|p: UVec2|
        in_bounds(p, scaled.spec_size()) ==> #[trigger] scaled.at(p) == base.at(
            sample_of(p, factor),
        )
}

/// Whether `n` is a power of two.
pub fn power_of_two(n: u32) -> (b: bool)
    ensures
        b == is_power_of_two(n as int),
{
    let mut m = n;
    while m > 1 && m % 2 == 0
        invariant
            is_power_of_two(m as int) == is_power_of_two(n as int),
        decreases m,
    {
        m = m / 2;
    }
    m == 1
}

/// The cell that a block sample reads lies in the base grid.
proof fn lemma_sample_in_bounds(p: UVec2, size: UVec2, factor: u32)
    requires
        factor >= 2,
        size.x % factor == 0,
        size.y % factor == 0,
        p.x < size.x / factor,
        p.y < size.y / factor,
    ensures
        p.x * factor + factor / 2 - 1 < size.x,
        p.y * factor + factor / 2 - 1 < size.y,
        0 <= p.x * factor + factor / 2 - 1,
        0 <= p.y * factor + factor / 2 - 1,
{
    lemma_block_start(p.x as int, size.x as int, factor as int);
    lemma_block_start(p.y as int, size.y as int, factor as int);
}

/// The block of index `i` ends within a length that `factor` divides.
proof fn lemma_block_start(i: int, length: int, factor: int)
    requires
        factor >= 2,
        length >= 0,
        length % factor == 0,
        0 <= i < length / factor,
    ensures
        0 <= i * factor,
        i * factor + factor <= length,
{
    vstd::arithmetic::div_mod::lemma_fundamental_div_mod(length, factor);
    assert(i * factor + factor <= (length / factor) * factor) by (nonlinear_arith)
        requires
            0 <= i < length / factor,
            factor >= 2,
    ;
    assert((length / factor) * factor == factor * (length / factor)) by (nonlinear_arith);
    assert(0 <= i * factor) by (nonlinear_arith)
        requires
            0 <= i,
            factor >= 2,
    ;
}

/// The cell that a block of the scaled-up grid copies lies in the base grid.
proof fn lemma_source_in_bounds(p: UVec2, size: UVec2, factor: u32)
    requires
        factor >= 1,
        p.x < size.x * factor,
        p.y < size.y * factor,
    ensures
        p.x / factor < size.x,
        p.y / factor < size.y,
{
    assert(p.x / factor < size.x) by (nonlinear_arith)
        requires
            factor >= 1,
            0 <= p.x < size.x * factor,
    ;
    assert(p.y / factor < size.y) by (nonlinear_arith)
        requires
            factor >= 1,
            0 <= p.y < size.y * factor,
    ;
}

/// The block of index `i` holds the cell at `offset` within it.
proof fn lemma_block_index(i: int, offset: int, factor: int)
    requires
        0 <= i,
        0 <= offset < factor,
    ensures
        (i * factor + offset) / factor == i,
        0 <= i * factor + offset,
{
    vstd::arithmetic::div_mod::lemma_fundamental_div_mod_converse(
        i * factor + offset,
        factor,
        i,
        offset,
    );
    assert(0 <= i * factor) by (nonlinear_arith)
        requires
            0 <= i,
            0 < factor,
    ;
}

/// Scaling a grid up and then down by the same factor gives back a grid of
/// its size with its cells.
pub proof fn lemma_scale_round_trip<T>(
    base: &Matrix<T>,
    factor: u32,
    up: &Matrix<T>,
    down: &Matrix<T>,
)
    requires
        factor >= 2,
        scaled_up(base, factor, up),
        scaled_down(up, factor, down),
    ensures
        down.spec_size() == base.spec_size(),
        forall|p: UVec2|
            in_bounds(p, base.spec_size()) ==> #[trigger] down.at(p) == base.at(p),
{
    let size = base.spec_size();
    lemma_block_index(size.x as int, 0, factor as int);
    lemma_block_index(size.y as int, 0, factor as int);
    assert forall|p: UVec2| in_bounds(p, size) implies #[trigger] down.at(p) == base.at(p) by {
        let offset = factor / 2 - 1;
        lemma_block_index(p.x as int, offset as int, factor as int);
        lemma_block_index(p.y as int, offset as int, factor as int);
        let sample = sample_of(p, factor);
        assert(p.x * factor + offset < size.x * factor) by (nonlinear_arith)
            requires
                p.x < size.x,
                0 <= offset < factor,
        ;
        assert(p.y * factor + offset < size.y * factor) by (nonlinear_arith)
            requires
                p.y < size.y,
                0 <= offset < factor,
        ;
        assert(in_bounds(sample, up.spec_size()));
        assert(up.at(sample) == base.at(UVec2 { x: sample.x / factor, y: sample.y / factor }));
    }
}

/// `base` scaled up by `factor`, or `Configuration` when it cannot be.
pub fn scale_up_cells<T: Copy>(base: &Matrix<T>, factor: u32) -> (r: Result<Matrix<T>, GridError>)
    ensures
        r is Ok <==> can_scale_up(base.spec_size(), factor),
        r matches Ok(m) ==> scaled_up(base, factor, &m),
        r matches Err(e) ==> e == GridError::Configuration,
{
    let base_size = base.size();
    if !power_of_two(factor) {
        return Err(GridError::Configuration);
    }
    assert(base_size.x * factor <= u64::MAX && base_size.y * factor <= u64::MAX) by (nonlinear_arith)
        requires
            base_size.x <= u32::MAX,
            base_size.y <= u32::MAX,
            factor <= u32::MAX,
    ;
    let width = base_size.x as u64 * factor as u64;
    let height = base_size.y as u64 * factor as u64;
    if width > u32::MAX as u64 || height > u32::MAX as u64 {
        return Err(GridError::Configuration);
    }
    assert(width * height <= u64::MAX) by (nonlinear_arith)
        requires
            width <= u32::MAX,
            height <= u32::MAX,
    ;
    let count = width * height;
    if count > u32::MAX as u64 {
        return Err(GridError::Configuration);
    }
    let scaled_size = UVec2::new(width as u32, height as u32);
    let mut cells: Vec<T> = Vec::new();
    let mut idx: u64 = 0;
    while idx < count
        invariant
            0 <= idx <= count,
            count == scaled_size.area(),
            count <= u32::MAX,
            count == width * height,
            width == scaled_size.x,
            factor >= 1,
            base_size == base.spec_size(),
            scaled_size.x == base_size.x * factor,
            scaled_size.y == base_size.y * factor,
            cells@.len() == idx,
            forall|i: int|
                0 <= i < idx ==> #[trigger] cells@[i] == base.at(
                    UVec2 {
                        x: position_of(i, scaled_size).x / factor,
                        y: position_of(i, scaled_size).y / factor,
                    },
                ),
        decreases count - idx,
    {
        proof {
            lemma_position_in_bounds(idx as int, scaled_size);
            lemma_source_in_bounds(position_of(idx as int, scaled_size), base_size, factor);
            assert(width > 0) by (nonlinear_arith)
                requires
                    0 <= idx < width * height,
                    0 <= width,
            ;
        }
        let x = (idx % width) as u32;
        let y = (idx / width) as u32;
        let source = UVec2::new(x / factor, y / factor);
        cells.push(*base.cell_at(source));
        idx += 1;
    }
    match Matrix::from_elements(cells, scaled_size) {
        Ok(scaled) => {
            proof {
                assert forall|p: UVec2| in_bounds(p, scaled.spec_size()) implies #[trigger] scaled.at(
                    p,
                ) == base.at(UVec2 { x: p.x / factor, y: p.y / factor }) by {
                    lemma_index_in_range(p, scaled_size);
                    crate::matrix::lemma_index_roundtrip(p, scaled_size);
                }
            }
            Ok(scaled)
        },
        Err(_) => Err(GridError::Configuration),
    }
}

/// `base` scaled down by `factor`, or `Configuration` when it cannot be.
pub fn scale_down_cells<T: Copy>(base: &Matrix<T>, factor: u32) -> (r: Result<
    Matrix<T>,
    GridError,
>)
    ensures
        r is Ok <==> can_scale_down(base.spec_size(), factor),
        r matches Ok(m) ==> scaled_down(base, factor, &m),
        r matches Err(e) ==> e == GridError::Configuration,
{
    let base_size = base.size();
    if !power_of_two(factor) || factor < 2 {
        return Err(GridError::Configuration);
    }
    if base_size.x % factor != 0 || base_size.y % factor != 0 {
        return Err(GridError::Configuration);
    }
    let scaled_size = UVec2::new(base_size.x / factor, base_size.y / factor);
    let centre = factor / 2 - 1;
    let base_count = base.element_count();
    proof {
        assert(scaled_size.x * scaled_size.y <= base_size.x * base_size.y) by (nonlinear_arith)
            requires
                scaled_size.x <= base_size.x,
                scaled_size.y <= base_size.y,
                0 <= scaled_size.x,
                0 <= scaled_size.y,
        ;
    }
    let count = scaled_size.x * scaled_size.y;
    let mut cells: Vec<T> = Vec::new();
    let mut idx: u32 = 0;
    while idx < count
        invariant
            0 <= idx <= count,
            count == scaled_size.area(),
            factor >= 2,
            centre == factor / 2 - 1,
            base_size == base.spec_size(),
            base_size.x % factor == 0,
            base_size.y % factor == 0,
            scaled_size.x == base_size.x / factor,
            scaled_size.y == base_size.y / factor,
            cells@.len() == idx,
            forall|i: int|
                0 <= i < idx ==> #[trigger] cells@[i] == base.at(
                    sample_of(position_of(i, scaled_size), factor),
                ),
        decreases count - idx,
    {
        proof {
            lemma_position_in_bounds(idx as int, scaled_size);
            lemma_sample_in_bounds(position_of(idx as int, scaled_size), base_size, factor);
        }
        let x = idx % scaled_size.x;
        let y = idx / scaled_size.x;
        let sample = UVec2::new(x * factor + centre, y * factor + centre);
        cells.push(*base.cell_at(sample));
        idx += 1;
    }
    match Matrix::from_elements(cells, scaled_size) {
        Ok(scaled) => {
            proof {
                assert forall|p: UVec2| in_bounds(p, scaled.spec_size()) implies #[trigger] scaled.at(
                    p,
                ) == base.at(sample_of(p, factor)) by {
                    lemma_index_in_range(p, scaled_size);
                    crate::matrix::lemma_index_roundtrip(p, scaled_size);
                }
            }
            Ok(scaled)
        },
        Err(_) => Err(GridError::Configuration),
    }
}

/// Grids that can be scaled by a power of two.
pub trait MatrixScale: Sized {
    /// The size of the grid.
    spec fn scale_size(&self) -> UVec2;

    /// Whether this grid is `base` scaled up by `factor`.
    spec fn is_scale_up_of(&self, base: &Self, factor: u32) -> bool;

    /// Whether this grid is `base` scaled down by `factor`.
    spec fn is_scale_down_of(&self, base: &Self, factor: u32) -> bool;

    /// The grid with each cell blown up to a block of `factor` by `factor`
    /// cells, or `Configuration` when `factor` is not a power of two or the
    /// scaled grid would be too large.
    #[must_use]
    fn scale_up(&self, factor: u32) -> (r: Result<Self, GridError>)
        ensures
            r is Ok <==> can_scale_up(self.scale_size(), factor),
            r matches Ok(m) ==> m.is_scale_up_of(self, factor),
            r matches Err(e) ==> e == GridError::Configuration,
    ;

    /// The grid with each block of `factor` by `factor` cells replaced by
    /// the cell sampled from it, or `Configuration` when `factor` is not a
    /// power of two above one that divides both width and height.
    #[must_use]
    fn scale_down(&self, factor: u32) -> (r: Result<Self, GridError>)
        ensures
            r is Ok <==> can_scale_down(self.scale_size(), factor),
            r matches Ok(m) ==> m.is_scale_down_of(self, factor),
            r matches Err(e) ==> e == GridError::Configuration,
    ;
}

impl MatrixScale for Matrix<u32> {
    open spec fn scale_size(&self) -> UVec2 {
        self.spec_size()
    }

    open spec fn is_scale_up_of(&self, base: &Self, factor: u32) -> bool {
        scaled_up(base, factor, self)
    }

    open spec fn is_scale_down_of(&self, base: &Self, factor: u32) -> bool {
        scaled_down(base, factor, self)
    }

    fn scale_up(&self, factor: u32) -> (r: Result<Self, GridError>) {
        scale_up_cells(self, factor)
    }

    fn scale_down(&self, factor: u32) -> (r: Result<Self, GridError>) {
        scale_down_cells(self, factor)
    }
}

impl MatrixScale for Matrix<bool> {
    open spec fn scale_size(&self) -> UVec2 {
        self.spec_size()
    }

    open spec fn is_scale_up_of(&self, base: &Self, factor: u32) -> bool {
        scaled_up(base, factor, self)
    }

    open spec fn is_scale_down_of(&self, base: &Self, factor: u32) -> bool {
        scaled_down(base, factor, self)
    }

    fn scale_up(&self, factor: u32) -> (r: Result<Self, GridError>) {
        scale_up_cells(self, factor)
    }

    fn scale_down(&self, factor: u32) -> (r: Result<Self, GridError>) {
        scale_down_cells(self, factor)
    }
}

} // verus!
