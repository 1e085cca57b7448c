//! What integer vectors can be asked: the positions they span, their
//! neighbours, their distances, and whether they lie within bounds.

use vstd::prelude::*;
use crate::analysis::{lemma_picked_push, picked};
use crate::vec2::{IVec2, UVec2};

verus! {

/// The cell with row-major index `i` in a rectangle `width` cells wide.
pub open spec fn span_cell(i: int, width: int) -> (int, int) {
    (i % width, i / width)
}

/// The cells of a rectangle of `width` by `height` cells with its corner at
/// the origin, in row-major order; none when a side is not positive.
pub open spec fn span_cells(width: int, height: int) -> Seq<(int, int)> {
    if width <= 0 || height <= 0 {
        Seq::empty()
    } else {
        Seq::new((width * height) as nat, |i: int| span_cell(i, width))
    }
}

/// The cell `(x, y)` of a rectangle has the row-major index `y * width + x`.
pub proof fn lemma_span_cell(x: int, y: int, width: int, height: int)
    requires
        0 <= x < width,
        0 <= y < height,
    ensures
        0 <= y * width + x < width * height,
        span_cell(y * width + x, width) == (x, y),
        y * width + x + 1 == if x + 1 < width {
            y * width + (x + 1)
        } else {
            (y + 1) * width + 0
        },
{
    vstd::arithmetic::div_mod::lemma_fundamental_div_mod_converse(y * width + x, width, y, x);
    assert(y * width + x < width * height) by (nonlinear_arith)
        requires
            0 <= x < width,
            0 <= y < height,
    ;
    assert(0 <= y * width) by (nonlinear_arith)
        requires
            0 <= y,
            0 < width,
    ;
    assert((y + 1) * width == y * width + width) by (nonlinear_arith);
}

/// The cells of a rectangle of `width` by `height` cells, in row-major
/// order.
pub(crate) fn span(width: u64, height: u64) -> (cells: Vec<(u64, u64)>)
    requires
        width <= 0x1_0000_0000,
        height <= 0x1_0000_0000,
    ensures
        cells@.len() == span_cells(width as int, height as int).len(),
        forall|i: int|
            0 <= i < cells@.len() ==> (#[trigger] cells@[i]).0 == span_cells(
                width as int,
                height as int,
            )[i].0 && cells@[i].1 == span_cells(width as int, height as int)[i].1,
{
    let mut cells: Vec<(u64, u64)> = Vec::new();
    if width == 0 || height == 0 {
        return cells;
    }
    let ghost w = width as int;
    let ghost h = height as int;
    let mut y: u64 = 0;
    while y < height
        invariant
            0 < width <= 0x1_0000_0000,
            0 < height <= 0x1_0000_0000,
            w == width,
            h == height,
            0 <= y <= height,
            cells@.len() == y * w,
            forall|i: int|
                0 <= i < cells@.len() ==> (#[trigger] cells@[i]).0 == span_cell(i, w).0
                    && cells@[i].1 == span_cell(i, w).1,
        decreases height - y,
    {
        let mut x: u64 = 0;
        while x < width
            invariant
                0 < width <= 0x1_0000_0000,
                0 < height <= 0x1_0000_0000,
                w == width,
                h == height,
                0 <= y < height,
                0 <= x <= width,
                cells@.len() == y * w + x,
                forall|i: int|
                    0 <= i < cells@.len() ==> (#[trigger] cells@[i]).0 == span_cell(i, w).0
                        && cells@[i].1 == span_cell(i, w).1,
            decreases width - x,
        {
            proof {
                lemma_span_cell(x as int, y as int, w, h);
            }
            cells.push((x, y));
            x += 1;
        }
        proof {
            assert((y + 1) * w == y * w + w) by (nonlinear_arith);
        }
        y += 1;
    }
    proof {
        assert(h * w == w * h) by (nonlinear_arith);
    }
    cells
}

/// Vectors that span a rectangle of positions from the origin.
pub trait Positions: Sized {
    type V;

    /// The position with the given coordinates.
    spec fn position(x: int, y: int) -> Self::V;

    /// The width and height of the rectangle that the vector spans.
    spec fn extent(&self) -> (int, int);

    /// All positions of the rectangle spanned by the vector, its far sides
    /// left out, left to right and top to bottom.
    fn positions(&self) -> (all: Vec<Self::V>)
        ensures
            all@ == span_cells(self.extent().0, self.extent().1).map_values(
                |c: (int, int)| Self::position(c.0, c.1),
            ),
    ;

    /// All positions of the rectangle spanned by the vector, its far sides
    /// included, left to right and top to bottom.
    fn positions_inclusive(&self) -> (all: Vec<Self::V>)
        ensures
            all@ == span_cells(self.extent().0 + 1, self.extent().1 + 1).map_values(
                |c: (int, int)| Self::position(c.0, c.1),
            ),
    ;
}

/// The cells of a span as unsigned vectors.
fn unsigned_cells(width: u64, height: u64) -> (all: Vec<UVec2>)
    requires
        width <= 0x1_0000_0000,
        height <= 0x1_0000_0000,
    ensures
        all@ == span_cells(width as int, height as int).map_values(
            |c: (int, int)| UVec2 { x: c.0 as u32, y: c.1 as u32 },
        ),
{
    let cells = span(width, height);
    let ghost model = span_cells(width as int, height as int);
    let mut all: Vec<UVec2> = Vec::new();
    let mut i: usize = 0;
    while i < cells.len()
        invariant
            0 <= i <= cells@.len(),
            model == span_cells(width as int, height as int),
            width <= 0x1_0000_0000,
            height <= 0x1_0000_0000,
            cells@.len() == model.len(),
            forall|k: int|
                0 <= k < cells@.len() ==> (#[trigger] cells@[k]).0 == model[k].0 && cells@[k].1
                    == model[k].1,
            all@.len() == i,
            forall|k: int|
                0 <= k < i ==> #[trigger] all@[k] == (UVec2 {
                    x: model[k].0 as u32,
                    y: model[k].1 as u32,
                }),
        decreases cells@.len() - i,
    {
        let cell = cells[i];
        proof {
            lemma_span_in_range(i as int, width as int, height as int);
        }
        all.push(UVec2::new(cell.0 as u32, cell.1 as u32));
        i += 1;
    }
    assert(all@ =~= model.map_values(|c: (int, int)| UVec2 { x: c.0 as u32, y: c.1 as u32 }));
    all
}

/// The cells of a span as signed vectors.
fn signed_cells(width: u64, height: u64) -> (all: Vec<IVec2>)
    requires
        width <= 0x8000_0000,
        height <= 0x8000_0000,
    ensures
        all@ == span_cells(width as int, height as int).map_values(
            |c: (int, int)| IVec2 { x: c.0 as i32, y: c.1 as i32 },
        ),
{
    let cells = span(width, height);
    let ghost model = span_cells(width as int, height as int);
    let mut all: Vec<IVec2> = Vec::new();
    let mut i: usize = 0;
    while i < cells.len()
        invariant
            0 <= i <= cells@.len(),
            model == span_cells(width as int, height as int),
            width <= 0x8000_0000,
            height <= 0x8000_0000,
            cells@.len() == model.len(),
            forall|k: int|
                0 <= k < cells@.len() ==> (#[trigger] cells@[k]).0 == model[k].0 && cells@[k].1
                    == model[k].1,
            all@.len() == i,
            forall|k: int|
                0 <= k < i ==> #[trigger] all@[k] == (IVec2 {
                    x: model[k].0 as i32,
                    y: model[k].1 as i32,
                }),
        decreases cells@.len() - i,
    {
        let cell = cells[i];
        proof {
            lemma_span_in_range(i as int, width as int, height as int);
        }
        all.push(IVec2::new(cell.0 as i32, cell.1 as i32));
        i += 1;
    }
    assert(all@ =~= model.map_values(|c: (int, int)| IVec2 { x: c.0 as i32, y: c.1 as i32 }));
    all
}

/// Each cell of a span lies within its width and height.
pub proof fn lemma_span_in_range(i: int, width: int, height: int)
    requires
        0 <= i < span_cells(width, height).len(),
    ensures
        0 <= span_cells(width, height)[i].0 < width,
        0 <= span_cells(width, height)[i].1 < height,
{
    assert(width > 0 && height > 0);
    vstd::arithmetic::div_mod::lemma_fundamental_div_mod(i, width);
    assert(0 <= i / width < height) by (nonlinear_arith)
        requires
            0 <= i < width * height,
            width > 0,
            i == width * (i / width) + i % width,
            0 <= i % width < width,
    ;
}

impl Positions for UVec2 {
    type V = Self;

    open spec fn position(x: int, y: int) -> Self {
        UVec2 { x: x as u32, y: y as u32 }
    }

    open spec fn extent(&self) -> (int, int) {
        (self.x as int, self.y as int)
    }

    fn positions(&self) -> (all: Vec<Self>) {
        unsigned_cells(self.x as u64, self.y as u64)
    }

    fn positions_inclusive(&self) -> (all: Vec<Self>) {
        unsigned_cells(self.x as u64 + 1, self.y as u64 + 1)
    }
}

impl Positions for IVec2 {
    type V = Self;

    open spec fn position(x: int, y: int) -> Self {
        IVec2 { x: x as i32, y: y as i32 }
    }

    open spec fn extent(&self) -> (int, int) {
        (self.x as int, self.y as int)
    }

    fn positions(&self) -> (all: Vec<Self>) {
        let width: u64 = if self.x > 0 { self.x as u64 } else { 0 };
        let height: u64 = if self.y > 0 { self.y as u64 } else { 0 };
        let all = signed_cells(width, height);
        assert(span_cells(width as int, height as int) =~= span_cells(self.x as int, self.y as int));
        all
    }

    fn positions_inclusive(&self) -> (all: Vec<Self>) {
        let width: u64 = if self.x >= 0 { self.x as u64 + 1 } else { 0 };
        let height: u64 = if self.y >= 0 { self.y as u64 + 1 } else { 0 };
        let all = signed_cells(width, height);
        assert(span_cells(width as int, height as int) =~= span_cells(self.x + 1, self.y + 1));
        all
    }
}

/// Vectors that can be tested against bounds.
pub trait BoundsCheck: Sized {
    type V;

    /// Whether the vector lies within the bounds.
    spec fn within(&self, bounds: Self::V) -> bool;

    /// Whether the vector lies within the bounds.
    fn is_in_bounds(&self, bounds: Self::V) -> (b: bool)
        ensures
            b == self.within(bounds),
    ;
}

impl BoundsCheck for UVec2 {
    type V = Self;

    open spec fn within(&self, bounds: Self) -> bool {
        self.x < bounds.x && self.y < bounds.y
    }

    fn is_in_bounds(&self, bounds: Self) -> (b: bool) {
        self.x < bounds.x && self.y < bounds.y
    }
}

/// The smaller of a distance and the largest `u32`.
pub open spec fn clamped(distance: int) -> int {
    if distance > u32::MAX {
        u32::MAX as int
    } else {
        distance
    }
}

/// The distance between two coordinates.
pub open spec fn apart(a: int, b: int) -> int {
    if a >= b {
        a - b
    } else {
        b - a
    }
}

/// Vectors between which distances are measured.
pub trait Distance: Sized {
    type V;

    /// The coordinates of the vector.
    spec fn coordinates(&self) -> (int, int);

    /// The coordinates of the other vector.
    spec fn other_coordinates(other: Self::V) -> (int, int);

    /// The distance with only cardinal moves allowed: the sum of the
    /// coordinate distances, clamped to the largest `u32`.
    fn distance_manhattan(&self, other: Self::V) -> (d: u32)
        ensures
            d == clamped(
                apart(self.coordinates().0, Self::other_coordinates(other).0) + apart(
                    self.coordinates().1,
                    Self::other_coordinates(other).1,
                ),
            ),
    ;

    /// The distance where a diagonal move counts as much as a cardinal one:
    /// the larger of the coordinate distances.
    fn distance_chebyshev(&self, other: Self::V) -> (d: u32)
        ensures
            d == clamped(
                if apart(self.coordinates().0, Self::other_coordinates(other).0) > apart(
                    self.coordinates().1,
                    Self::other_coordinates(other).1,
                ) {
                    apart(self.coordinates().0, Self::other_coordinates(other).0)
                } else {
                    apart(self.coordinates().1, Self::other_coordinates(other).1)
                },
            ),
    ;
}

/// The distance between two coordinates.
fn coordinate_distance(a: i64, b: i64) -> (d: u64)
    requires
        -0x1_0000_0000 <= a <= 0x1_0000_0000,
        -0x1_0000_0000 <= b <= 0x1_0000_0000,
    ensures
        d == apart(a as int, b as int),
{
    if a >= b {
        (a - b) as u64
    } else {
        (b - a) as u64
    }
}

/// The distance, clamped to the largest `u32`.
fn clamp_distance(distance: u64) -> (d: u32)
    ensures
        d == clamped(distance as int),
{
    if distance > u32::MAX as u64 {
        u32::MAX
    } else {
        distance as u32
    }
}

impl Distance for IVec2 {
    type V = IVec2;

    open spec fn coordinates(&self) -> (int, int) {
        (self.x as int, self.y as int)
    }

    open spec fn other_coordinates(other: IVec2) -> (int, int) {
        (other.x as int, other.y as int)
    }

    fn distance_manhattan(&self, other: IVec2) -> (d: u32) {
        let dx = coordinate_distance(self.x as i64, other.x as i64);
        let dy = coordinate_distance(self.y as i64, other.y as i64);
        clamp_distance(dx + dy)
    }

    fn distance_chebyshev(&self, other: IVec2) -> (d: u32) {
        let dx = coordinate_distance(self.x as i64, other.x as i64);
        let dy = coordinate_distance(self.y as i64, other.y as i64);
        clamp_distance(if dx > dy { dx } else { dy })
    }
}

impl Distance for UVec2 {
    type V = UVec2;

    open spec fn coordinates(&self) -> (int, int) {
        (self.x as int, self.y as int)
    }

    open spec fn other_coordinates(other: UVec2) -> (int, int) {
        (other.x as int, other.y as int)
    }

    fn distance_manhattan(&self, other: UVec2) -> (d: u32) {
        let dx = coordinate_distance(self.x as i64, other.x as i64);
        let dy = coordinate_distance(self.y as i64, other.y as i64);
        clamp_distance(dx + dy)
    }

    fn distance_chebyshev(&self, other: UVec2) -> (d: u32) {
        let dx = coordinate_distance(self.x as i64, other.x as i64);
        let dy = coordinate_distance(self.y as i64, other.y as i64);
        clamp_distance(if dx > dy { dx } else { dy })
    }
}

/// The cell with row-major index `i` in the block of the given `radius`
/// around `(cx, cy)`.
pub open spec fn block_cell(i: int, cx: int, cy: int, radius: int) -> (int, int) {
    (cx + i % (2 * radius + 1) - radius, cy + i / (2 * radius + 1) - radius)
}

/// The cells of the block of the given `radius` around `(cx, cy)`, in
/// row-major order.
pub open spec fn block_cells(cx: int, cy: int, radius: int) -> Seq<(int, int)> {
    Seq::new(
        ((2 * radius + 1) * (2 * radius + 1)) as nat,
        |i: int| block_cell(i, cx, cy, radius),
    )
}

/// Whether the cell `c` of the block around `(cx, cy)` counts as a
/// neighbour: it is not the centre, its coordinates lie between `lowest` and
/// `highest`, and, for a round neighbourhood, it is no farther from the
/// centre than `radius`.
pub open spec fn block_keeps(
    c: (int, int),
    cx: int,
    cy: int,
    radius: int,
    lowest: int,
    highest: int,
    round: bool,
) -> bool {
    &&& c.0 != cx || c.1 != cy
    &&& lowest <= c.0 <= highest
    &&& lowest <= c.1 <= highest
    &&& round ==> (c.0 - cx) * (c.0 - cx) + (c.1 - cy) * (c.1 - cy) <= radius * radius
}

/// The neighbours of `(cx, cy)` in its block, in row-major order.
pub open spec fn block_neighbours(
    cx: int,
    cy: int,
    radius: int,
    lowest: int,
    highest: int,
    round: bool,
) -> Seq<(int, int)> {
    picked(
        block_cells(cx, cy, radius).map_values(
            |c: (int, int)| block_keeps(c, cx, cy, radius, lowest, highest, round),
        ),
        block_cells(cx, cy, radius),
    )
}

/// Whether every cell `length` away from `at` along one or both axes has
/// coordinates between `lowest` and `highest`.
pub open spec fn in_reach(at: (int, int), length: int, lowest: int, highest: int) -> bool {
    &&& lowest <= at.0 - length
    &&& at.0 + length <= highest
    &&& lowest <= at.1 - length
    &&& at.1 + length <= highest
}

/// The neighbours of `(cx, cy)` in its block, in row-major order.
fn scan_block(cx: i64, cy: i64, radius: u32, lowest: i64, highest: i64, round: bool) -> (out: Vec<
    (i64, i64),
>)
    requires
        -0x8000_0000 <= cx <= 0xffff_ffff,
        -0x8000_0000 <= cy <= 0xffff_ffff,
        -0x8000_0000 <= lowest <= highest <= 0xffff_ffff,
    ensures
        out@.len() == block_neighbours(
            cx as int,
            cy as int,
            radius as int,
            lowest as int,
            highest as int,
            round,
        ).len(),
        forall|k: int|
            0 <= k < out@.len() ==> (#[trigger] out@[k]).0 == block_neighbours(
                cx as int,
                cy as int,
                radius as int,
                lowest as int,
                highest as int,
                round,
            )[k].0 && out@[k].1 == block_neighbours(
                cx as int,
                cy as int,
                radius as int,
                lowest as int,
                highest as int,
                round,
            )[k].1 && lowest <= out@[k].0 <= highest && lowest <= out@[k].1 <= highest,
{
    let ghost r = radius as int;
    let ghost side_i = 2 * r + 1;
    let ghost cells = block_cells(cx as int, cy as int, r);
    let ghost answers = cells.map_values(
        |c: (int, int)| block_keeps(c, cx as int, cy as int, r, lowest as int, highest as int, round),
    );
    let side: u64 = 2 * (radius as u64) + 1;
    let mut out: Vec<(i64, i64)> = Vec::new();
    let ghost mut model: Seq<(int, int)> = Seq::empty();
    let mut row: u64 = 0;
    proof {
        assert(cells.take(0) =~= Seq::empty());
        assert(answers.take(0) =~= Seq::empty());
        assert(side_i * side_i >= 0) by (nonlinear_arith)
            requires
                side_i >= 1,
        ;
    }
    while row < side
        invariant
            r == radius,
            side_i == 2 * r + 1,
            side == side_i,
            cells == block_cells(cx as int, cy as int, r),
            answers == cells.map_values(
                |c: (int, int)|
                    block_keeps(c, cx as int, cy as int, r, lowest as int, highest as int, round),
            ),
            -0x8000_0000 <= cx <= 0xffff_ffff,
            -0x8000_0000 <= cy <= 0xffff_ffff,
            -0x8000_0000 <= lowest <= highest <= 0xffff_ffff,
            0 <= row <= side,
            0 <= row * side_i <= side_i * side_i,
            model == picked(answers.take(row * side_i), cells.take(row * side_i)),
            out@.len() == model.len(),
            forall|k: int|
                0 <= k < out@.len() ==> (#[trigger] out@[k]).0 == model[k].0 && out@[k].1
                    == model[k].1 && lowest <= out@[k].0 <= highest && lowest <= out@[k].1
                    <= highest,
        decreases side - row,
    {
        let mut column: u64 = 0;
        while column < side
            invariant
                r == radius,
                side_i == 2 * r + 1,
                side == side_i,
                cells == block_cells(cx as int, cy as int, r),
                answers == cells.map_values(
                    |c: (int, int)|
                        block_keeps(
                            c,
                            cx as int,
                            cy as int,
                            r,
                            lowest as int,
                            highest as int,
                            round,
                        ),
                ),
                -0x8000_0000 <= cx <= 0xffff_ffff,
                -0x8000_0000 <= cy <= 0xffff_ffff,
                -0x8000_0000 <= lowest <= highest <= 0xffff_ffff,
                0 <= row < side,
                0 <= column <= side,
                0 <= row * side_i + column <= side_i * side_i,
                model == picked(
                    answers.take(row * side_i + column),
                    cells.take(row * side_i + column),
                ),
                out@.len() == model.len(),
                forall|k: int|
                    0 <= k < out@.len() ==> (#[trigger] out@[k]).0 == model[k].0 && out@[k].1
                        == model[k].1 && lowest <= out@[k].0 <= highest && lowest <= out@[k].1
                        <= highest,
            decreases side - column,
        {
            let ghost i = row * side_i + column;
            proof {
                lemma_span_cell(column as int, row as int, side_i, side_i);
                assert(cells[i] == (cx + column - r, cy + row - r));
            }
            let x: i64 = cx + column as i64 - radius as i64;
            let y: i64 = cy + row as i64 - radius as i64;
            let dx: i128 = column as i128 - radius as i128;
            let dy: i128 = row as i128 - radius as i128;
            assert(dx * dx <= 0x1_0000_0000 * 0x1_0000_0000 && dy * dy <= 0x1_0000_0000
                * 0x1_0000_0000 && 0 <= dx * dx && 0 <= dy * dy) by (nonlinear_arith)
                requires
                    -0x1_0000_0000 <= dx <= 0x1_0000_0000,
                    -0x1_0000_0000 <= dy <= 0x1_0000_0000,
            ;
            assert(radius * radius <= 0x1_0000_0000 * 0x1_0000_0000) by (nonlinear_arith)
                requires
                    0 <= radius <= 0x1_0000_0000,
            ;
            let keep = (x != cx || y != cy) && lowest <= x && x <= highest && lowest <= y && y
                <= highest && (!round || dx * dx + dy * dy <= (radius as i128) * (radius as i128));
            proof {
                assert(keep == answers[i]);
                lemma_picked_push(answers.take(i), cells.take(i), answers[i], cells[i]);
                assert(answers.take(i).push(answers[i]) =~= answers.take(i + 1));
                assert(cells.take(i).push(cells[i]) =~= cells.take(i + 1));
            }
            if keep {
                out.push((x, y));
                proof {
                    model = model.push(cells[i]);
                }
            }
            column += 1;
        }
        proof {
            assert((row + 1) * side_i == row * side_i + side_i) by (nonlinear_arith);
        }
        row += 1;
    }
    proof {
        assert(side * side_i == side_i * side_i);
        assert(cells.take(side_i * side_i) =~= cells);
        assert(answers.take(side_i * side_i) =~= answers);
    }
    out
}

/// Vectors that can list the vectors around them.
pub trait Neighbours: Sized {
    type V;

    /// The vector with the given coordinates.
    spec fn place(x: int, y: int) -> Self::V;

    /// The coordinates of the vector.
    spec fn at(&self) -> (int, int);

    /// The least coordinate a vector can have.
    spec fn lowest() -> int;

    /// The greatest coordinate a vector can have.
    spec fn highest() -> int;

    /// The offsets of the eight neighbours, in the order in which they are
    /// listed.
    spec fn eight_offsets() -> Seq<(int, int)>;

    /// The offsets of the four cardinal neighbours, in the order in which
    /// they are listed.
    spec fn cardinal_offsets() -> Seq<(int, int)>;

    /// The offsets of the four diagonal neighbours, in the order in which
    /// they are listed.
    spec fn diagonal_offsets() -> Seq<(int, int)>;

    /// The vectors at the given offsets, each stretched by `length`.
    spec fn moved_by(&self, offsets: Seq<(int, int)>, length: int) -> Seq<Self::V>;

    /// The eight neighbours.
    fn neighbours(&self) -> (around: [Self::V; 8])
        requires
            in_reach(self.at(), 1, Self::lowest(), Self::highest()),
        ensures
            around@ == self.moved_by(Self::eight_offsets(), 1),
    ;

    /// The four cardinal neighbours.
    fn neighbours_no_diag(&self) -> (around: [Self::V; 4])
        requires
            in_reach(self.at(), 1, Self::lowest(), Self::highest()),
        ensures
            around@ == self.moved_by(Self::cardinal_offsets(), 1),
    ;

    /// The four diagonal neighbours.
    fn neighbours_diag_only(&self) -> (around: [Self::V; 4])
        requires
            in_reach(self.at(), 1, Self::lowest(), Self::highest()),
        ensures
            around@ == self.moved_by(Self::diagonal_offsets(), 1),
    ;

    /// The eight vectors `length` away along one or both axes.
    fn neighbours_length(&self, length: u32) -> (around: [Self::V; 8])
        requires
            in_reach(self.at(), length as int, Self::lowest(), Self::highest()),
        ensures
            around@ == self.moved_by(Self::eight_offsets(), length as int),
    ;

    /// The four vectors `length` away along one axis.
    fn neighbours_no_diag_length(&self, length: u32) -> (around: [Self::V; 4])
        requires
            in_reach(self.at(), length as int, Self::lowest(), Self::highest()),
        ensures
            around@ == self.moved_by(Self::cardinal_offsets(), length as int),
    ;

    /// The four vectors `length` away along both axes.
    fn neighbours_diag_only_length(&self, length: u32) -> (around: [Self::V; 4])
        requires
            in_reach(self.at(), length as int, Self::lowest(), Self::highest()),
        ensures
            around@ == self.moved_by(Self::diagonal_offsets(), length as int),
    ;

    /// The vectors within `radius` along both axes, the vector itself left
    /// out, left to right and top to bottom.
    fn neighbours_square(&self, radius: u32) -> (around: Vec<Self::V>)
        requires
            in_reach(self.at(), radius as int, Self::lowest(), Self::highest()),
        ensures
            around@ == block_neighbours(
                self.at().0,
                self.at().1,
                radius as int,
                Self::lowest(),
                Self::highest(),
                false,
            ).map_values(|c: (int, int)| Self::place(c.0, c.1)),
    ;

    /// The vectors no farther away than `radius` in a straight line, the
    /// vector itself left out, left to right and top to bottom.
    fn neighbours_circle(&self, radius: u32) -> (around: Vec<Self::V>)
        requires
            in_reach(self.at(), radius as int, Self::lowest(), Self::highest()),
        ensures
            around@ == block_neighbours(
                self.at().0,
                self.at().1,
                radius as int,
                Self::lowest(),
                Self::highest(),
                true,
            ).map_values(|c: (int, int)| Self::place(c.0, c.1)),
    ;
}

/// Up, Down, Left, Right, then Up-left, Up-right, Down-left, Down-right.
pub open spec fn compass_offsets() -> Seq<(int, int)> {
    seq![(0, -1), (0, 1), (-1, 0), (1, 0), (-1, -1), (1, -1), (-1, 1), (1, 1)]
}

/// The eight offsets from top left to bottom right, row by row.
pub open spec fn reading_offsets() -> Seq<(int, int)> {
    seq![(-1, -1), (0, -1), (1, -1), (-1, 0), (1, 0), (-1, 1), (0, 1), (1, 1)]
}

/// A step of -1, 0 or 1 times a length is the length taken back, nothing,
/// or the length.
proof fn lemma_step_times(step: int, length: int)
    requires
        -1 <= step <= 1,
    ensures
        step * length == if step < 0 {
            -length
        } else if step > 0 {
            length
        } else {
            0
        },
{
    if step < 0 {
        assert(step * length == -length) by (nonlinear_arith)
            requires
                step == -1,
        ;
    } else if step > 0 {
        assert(step * length == length) by (nonlinear_arith)
            requires
                step == 1,
        ;
    } else {
        assert(step * length == 0) by (nonlinear_arith)
            requires
                step == 0,
        ;
    }
}

/// The block neighbours as unsigned vectors.
fn unsigned_block(at: UVec2, radius: u32, round: bool) -> (around: Vec<UVec2>)
    ensures
        around@ == block_neighbours(
            at.x as int,
            at.y as int,
            radius as int,
            0,
            u32::MAX as int,
            round,
        ).map_values(|c: (int, int)| UVec2 { x: c.0 as u32, y: c.1 as u32 }),
{
    let cells = scan_block(at.x as i64, at.y as i64, radius, 0, u32::MAX as i64, round);
    let ghost model = block_neighbours(
        at.x as int,
        at.y as int,
        radius as int,
        0,
        u32::MAX as int,
        round,
    );
    let mut around: Vec<UVec2> = Vec::new();
    let mut i: usize = 0;
    while i < cells.len()
        invariant
            0 <= i <= cells@.len(),
            cells@.len() == model.len(),
            forall|k: int|
                0 <= k < cells@.len() ==> (#[trigger] cells@[k]).0 == model[k].0 && cells@[k].1
                    == model[k].1 && 0 <= cells@[k].0 <= u32::MAX && 0 <= cells@[k].1 <= u32::MAX,
            around@.len() == i,
            forall|k: int|
                0 <= k < i ==> #[trigger] around@[k] == (UVec2 {
                    x: model[k].0 as u32,
                    y: model[k].1 as u32,
                }),
        decreases cells@.len() - i,
    {
        let cell = cells[i];
        around.push(UVec2::new(cell.0 as u32, cell.1 as u32));
        i += 1;
    }
    assert(around@ =~= model.map_values(|c: (int, int)| UVec2 { x: c.0 as u32, y: c.1 as u32 }));
    around
}

/// The block neighbours as signed vectors.
fn signed_block(at: IVec2, radius: u32, round: bool) -> (around: Vec<IVec2>)
    ensures
        around@ == block_neighbours(
            at.x as int,
            at.y as int,
            radius as int,
            i32::MIN as int,
            i32::MAX as int,
            round,
        ).map_values(|c: (int, int)| IVec2 { x: c.0 as i32, y: c.1 as i32 }),
{
    let cells = scan_block(at.x as i64, at.y as i64, radius, i32::MIN as i64, i32::MAX as i64, round);
    let ghost model = block_neighbours(
        at.x as int,
        at.y as int,
        radius as int,
        i32::MIN as int,
        i32::MAX as int,
        round,
    );
    let mut around: Vec<IVec2> = Vec::new();
    let mut i: usize = 0;
    while i < cells.len()
        invariant
            0 <= i <= cells@.len(),
            cells@.len() == model.len(),
            forall|k: int|
                0 <= k < cells@.len() ==> (#[trigger] cells@[k]).0 == model[k].0 && cells@[k].1
                    == model[k].1 && i32::MIN <= cells@[k].0 <= i32::MAX && i32::MIN
                    <= cells@[k].1 <= i32::MAX,
            around@.len() == i,
            forall|k: int|
                0 <= k < i ==> #[trigger] around@[k] == (IVec2 {
                    x: model[k].0 as i32,
                    y: model[k].1 as i32,
                }),
        decreases cells@.len() - i,
    {
        let cell = cells[i];
        around.push(IVec2::new(cell.0 as i32, cell.1 as i32));
        i += 1;
    }
    assert(around@ =~= model.map_values(|c: (int, int)| IVec2 { x: c.0 as i32, y: c.1 as i32 }));
    around
}

impl UVec2 {
    /// The vector `dx * length` to the right and `dy * length` down.
    fn shifted(&self, dx: i8, dy: i8, length: u32) -> (moved: UVec2)
        requires
            -1 <= dx <= 1,
            -1 <= dy <= 1,
            0 <= self.x + dx * length <= u32::MAX,
            0 <= self.y + dy * length <= u32::MAX,
        ensures
            moved.x == self.x + dx * length,
            moved.y == self.y + dy * length,
    {
        proof {
            lemma_step_times(dx as int, length as int);
            lemma_step_times(dy as int, length as int);
        }
        let x = if dx < 0 {
            self.x - length
        } else if dx > 0 {
            self.x + length
        } else {
            self.x
        };
        let y = if dy < 0 {
            self.y - length
        } else if dy > 0 {
            self.y + length
        } else {
            self.y
        };
        UVec2::new(x, y)
    }
}

impl IVec2 {
    /// The vector `dx * length` to the right and `dy * length` down.
    fn shifted(&self, dx: i8, dy: i8, length: u32) -> (moved: IVec2)
        requires
            -1 <= dx <= 1,
            -1 <= dy <= 1,
            i32::MIN <= self.x + dx * length <= i32::MAX,
            i32::MIN <= self.y + dy * length <= i32::MAX,
        ensures
            moved.x == self.x + dx * length,
            moved.y == self.y + dy * length,
    {
        proof {
            lemma_step_times(dx as int, length as int);
            lemma_step_times(dy as int, length as int);
        }
        let x: i64 = if dx < 0 {
            self.x as i64 - length as i64
        } else if dx > 0 {
            self.x as i64 + length as i64
        } else {
            self.x as i64
        };
        let y: i64 = if dy < 0 {
            self.y as i64 - length as i64
        } else if dy > 0 {
            self.y as i64 + length as i64
        } else {
            self.y as i64
        };
        IVec2::new(x as i32, y as i32)
    }
}

impl Neighbours for UVec2 {
    type V = Self;

    open spec fn place(x: int, y: int) -> Self {
        UVec2 { x: x as u32, y: y as u32 }
    }

    open spec fn at(&self) -> (int, int) {
        (self.x as int, self.y as int)
    }

    open spec fn lowest() -> int {
        0
    }

    open spec fn highest() -> int {
        u32::MAX as int
    }

    open spec fn eight_offsets() -> Seq<(int, int)> {
        reading_offsets()
    }

    open spec fn cardinal_offsets() -> Seq<(int, int)> {
        seq![(0, -1), (-1, 0), (1, 0), (0, 1)]
    }

    open spec fn diagonal_offsets() -> Seq<(int, int)> {
        seq![(-1, -1), (1, -1), (-1, 1), (1, 1)]
    }

    open spec fn moved_by(&self, offsets: Seq<(int, int)>, length: int) -> Seq<Self> {
        offsets.map_values(
            |o: (int, int)|
                UVec2 { x: (self.x + o.0 * length) as u32, y: (self.y + o.1 * length) as u32 },
        )
    }

    fn neighbours(&self) -> (around: [Self; 8]) {
        self.neighbours_length(1)
    }

    fn neighbours_no_diag(&self) -> (around: [Self; 4]) {
        self.neighbours_no_diag_length(1)
    }

    fn neighbours_diag_only(&self) -> (around: [Self; 4]) {
        self.neighbours_diag_only_length(1)
    }

    fn neighbours_length(&self, length: u32) -> (around: [Self; 8]) {
        let around = [
            self.shifted(-1, -1, length),
            self.shifted(0, -1, length),
            self.shifted(1, -1, length),
            self.shifted(-1, 0, length),
            self.shifted(1, 0, length),
            self.shifted(-1, 1, length),
            self.shifted(0, 1, length),
            self.shifted(1, 1, length),
        ];
        assert(around@ =~= self.moved_by(Self::eight_offsets(), length as int));
        around
    }

    fn neighbours_no_diag_length(&self, length: u32) -> (around: [Self; 4]) {
        let around = [
            self.shifted(0, -1, length),
            self.shifted(-1, 0, length),
            self.shifted(1, 0, length),
            self.shifted(0, 1, length),
        ];
        assert(around@ =~= self.moved_by(Self::cardinal_offsets(), length as int));
        around
    }

    fn neighbours_diag_only_length(&self, length: u32) -> (around: [Self; 4]) {
        let around = [
            self.shifted(-1, -1, length),
            self.shifted(1, -1, length),
            self.shifted(-1, 1, length),
            self.shifted(1, 1, length),
        ];
        assert(around@ =~= self.moved_by(Self::diagonal_offsets(), length as int));
        around
    }

    fn neighbours_square(&self, radius: u32) -> (around: Vec<Self>) {
        unsigned_block(*self, radius, false)
    }

    fn neighbours_circle(&self, radius: u32) -> (around: Vec<Self>) {
        unsigned_block(*self, radius, true)
    }
}

impl Neighbours for IVec2 {
    type V = Self;

    open spec fn place(x: int, y: int) -> Self {
        IVec2 { x: x as i32, y: y as i32 }
    }

    open spec fn at(&self) -> (int, int) {
        (self.x as int, self.y as int)
    }

    open spec fn lowest() -> int {
        i32::MIN as int
    }

    open spec fn highest() -> int {
        i32::MAX as int
    }

    open spec fn eight_offsets() -> Seq<(int, int)> {
        compass_offsets()
    }

    open spec fn cardinal_offsets() -> Seq<(int, int)> {
        compass_offsets().subrange(0, 4)
    }

    open spec fn diagonal_offsets() -> Seq<(int, int)> {
        compass_offsets().subrange(4, 8)
    }

    open spec fn moved_by(&self, offsets: Seq<(int, int)>, length: int) -> Seq<Self> {
        offsets.map_values(
            |o: (int, int)|
                IVec2 { x: (self.x + o.0 * length) as i32, y: (self.y + o.1 * length) as i32 },
        )
    }

    fn neighbours(&self) -> (around: [Self; 8]) {
        self.neighbours_length(1)
    }

    fn neighbours_no_diag(&self) -> (around: [Self; 4]) {
        self.neighbours_no_diag_length(1)
    }

    fn neighbours_diag_only(&self) -> (around: [Self; 4]) {
        self.neighbours_diag_only_length(1)
    }

    fn neighbours_length(&self, length: u32) -> (around: [Self; 8]) {
        let around = [
            self.shifted(0, -1, length),
            self.shifted(0, 1, length),
            self.shifted(-1, 0, length),
            self.shifted(1, 0, length),
            self.shifted(-1, -1, length),
            self.shifted(1, -1, length),
            self.shifted(-1, 1, length),
            self.shifted(1, 1, length),
        ];
        assert(around@ =~= self.moved_by(Self::eight_offsets(), length as int));
        around
    }

    fn neighbours_no_diag_length(&self, length: u32) -> (around: [Self; 4]) {
        let around = [
            self.shifted(0, -1, length),
            self.shifted(0, 1, length),
            self.shifted(-1, 0, length),
            self.shifted(1, 0, length),
        ];
        assert(around@ =~= self.moved_by(Self::cardinal_offsets(), length as int));
        around
    }

    fn neighbours_diag_only_length(&self, length: u32) -> (around: [Self; 4]) {
        let around = [
            self.shifted(-1, -1, length),
            self.shifted(1, -1, length),
            self.shifted(-1, 1, length),
            self.shifted(1, 1, length),
        ];
        assert(around@ =~= self.moved_by(Self::diagonal_offsets(), length as int));
        around
    }

    fn neighbours_square(&self, radius: u32) -> (around: Vec<Self>) {
        signed_block(*self, radius, false)
    }

    fn neighbours_circle(&self, radius: u32) -> (around: Vec<Self>) {
        signed_block(*self, radius, true)
    }
}

/// The neighbour of `pos` at the offset `(dx, dy)` as a candidate list: the
/// neighbour when both of its coordinates can be represented and `pos` lies
/// at least `threshold` from each of the near edges that `guard_x` and
/// `guard_y` name, nothing otherwise.
pub open spec fn guarded_candidate(
    pos: UVec2,
    threshold: int,
    dx: int,
    dy: int,
    guard_x: bool,
    guard_y: bool,
) -> Seq<UVec2> {
    if 0 <= pos.x + dx <= u32::MAX && 0 <= pos.y + dy <= u32::MAX && (guard_x ==> pos.x
        >= threshold) && (guard_y ==> pos.y >= threshold) {
        seq![UVec2 { x: (pos.x + dx) as u32, y: (pos.y + dy) as u32 }]
    } else {
        Seq::empty()
    }
}

/// Top, Left, Right, Bottom, each under its guard.
pub open spec fn guarded_cardinal(pos: UVec2, threshold: int) -> Seq<UVec2> {
    guarded_candidate(pos, threshold, 0, -1, false, true) + guarded_candidate(
        pos,
        threshold,
        -1,
        0,
        true,
        false,
    ) + guarded_candidate(pos, threshold, 1, 0, false, false) + guarded_candidate(
        pos,
        threshold,
        0,
        1,
        false,
        false,
    )
}

/// Top-left, Top-right, Bottom-left, Bottom-right, each under its guard.
pub open spec fn guarded_diagonal(pos: UVec2, threshold: int) -> Seq<UVec2> {
    guarded_candidate(pos, threshold, -1, -1, true, true) + guarded_candidate(
        pos,
        threshold,
        1,
        -1,
        false,
        true,
    ) + guarded_candidate(pos, threshold, -1, 1, false, false) + guarded_candidate(
        pos,
        threshold,
        1,
        1,
        false,
        false,
    )
}

/// The eight neighbours from top left to bottom right, each under its
/// guard.
pub open spec fn guarded_eight(pos: UVec2, threshold: int) -> Seq<UVec2> {
    guarded_candidate(pos, threshold, -1, -1, true, true) + guarded_candidate(
        pos,
        threshold,
        0,
        -1,
        false,
        true,
    ) + guarded_candidate(pos, threshold, 1, -1, false, true) + guarded_candidate(
        pos,
        threshold,
        -1,
        0,
        true,
        false,
    ) + guarded_candidate(pos, threshold, 1, 0, false, false) + guarded_candidate(
        pos,
        threshold,
        -1,
        1,
        false,
        false,
    ) + guarded_candidate(pos, threshold, 0, 1, false, false) + guarded_candidate(
        pos,
        threshold,
        1,
        1,
        false,
        false,
    )
}

/// Appends the guarded candidate at the offset `(dx, dy)` to `out`.
fn push_guarded(
    out: &mut Vec<UVec2>,
    pos: UVec2,
    threshold: u32,
    dx: i8,
    dy: i8,
    guard_x: bool,
    guard_y: bool,
)
    requires
        -1 <= dx <= 1,
        -1 <= dy <= 1,
    ensures
        final(out)@ == old(out)@ + guarded_candidate(
            pos,
            threshold as int,
            dx as int,
            dy as int,
            guard_x,
            guard_y,
        ),
{
    let x = pos.x as i64 + dx as i64;
    let y = pos.y as i64 + dy as i64;
    let fits = 0 <= x && x <= u32::MAX as i64 && 0 <= y && y <= u32::MAX as i64;
    if fits && (!guard_x || pos.x >= threshold) && (!guard_y || pos.y >= threshold) {
        out.push(UVec2::new(x as u32, y as u32));
        assert(out@ =~= old(out)@ + guarded_candidate(
            pos,
            threshold as int,
            dx as int,
            dy as int,
            guard_x,
            guard_y,
        ));
    } else {
        assert(out@ =~= old(out)@ + guarded_candidate(
            pos,
            threshold as int,
            dx as int,
            dy as int,
            guard_x,
            guard_y,
        ));
    }
}

/// Unsigned vectors that list the vectors around them, leaving out those
/// whose coordinates cannot be represented.
pub trait NeighboursChecked: Sized {
    type V;

    /// The eight neighbours under the guards of the given threshold.
    spec fn checked_eight(&self, threshold: int) -> Seq<Self::V>;

    /// The cardinal neighbours under the guards of the given threshold.
    spec fn checked_cardinal(&self, threshold: int) -> Seq<Self::V>;

    /// The diagonal neighbours under the guards of the given threshold.
    spec fn checked_diagonal(&self, threshold: int) -> Seq<Self::V>;

    /// The neighbours within `radius` along both axes, or within `radius`
    /// in a straight line for a round neighbourhood.
    spec fn checked_block(&self, radius: int, round: bool) -> Seq<Self::V>;

    /// The neighbours from top left to bottom right whose coordinates can be
    /// represented.
    fn neighbours_checked(&self) -> (around: Vec<Self::V>)
        ensures
            around@ == self.checked_eight(1),
    ;

    /// The cardinal neighbours whose coordinates can be represented.
    fn neighbours_checked_no_diag(&self) -> (around: Vec<Self::V>)
        ensures
            around@ == self.checked_cardinal(1),
    ;

    /// The diagonal neighbours whose coordinates can be represented.
    fn neighbours_checked_diag_only(&self) -> (around: Vec<Self::V>)
        ensures
            around@ == self.checked_diagonal(1),
    ;

    /// The neighbours one step away, those towards the top or the left left
    /// out unless the vector lies at least `length` from that edge.
    fn neighbours_checked_length(&self, length: u32) -> (around: Vec<Self::V>)
        ensures
            around@ == self.checked_eight(length as int),
    ;

    /// The cardinal neighbours of `neighbours_checked_length`.
    fn neighbours_checked_no_diag_length(&self, length: u32) -> (around: Vec<Self::V>)
        ensures
            around@ == self.checked_cardinal(length as int),
    ;

    /// The diagonal neighbours of `neighbours_checked_length`.
    fn neighbours_checked_diag_only_length(&self, length: u32) -> (around: Vec<Self::V>)
        ensures
            around@ == self.checked_diagonal(length as int),
    ;

    /// The vectors within `radius` along both axes whose coordinates can be
    /// represented, the vector itself left out.
    fn neighbours_checked_square(&self, radius: u32) -> (around: Vec<Self::V>)
        ensures
            around@ == self.checked_block(radius as int, false),
    ;

    /// The vectors no farther away than `radius` in a straight line whose
    /// coordinates can be represented, the vector itself left out.
    fn neighbours_checked_circle(&self, radius: u32) -> (around: Vec<Self::V>)
        ensures
            around@ == self.checked_block(radius as int, true),
    ;
}

impl NeighboursChecked for UVec2 {
    type V = Self;

    open spec fn checked_eight(&self, threshold: int) -> Seq<Self> {
        guarded_eight(*self, threshold)
    }

    open spec fn checked_cardinal(&self, threshold: int) -> Seq<Self> {
        guarded_cardinal(*self, threshold)
    }

    open spec fn checked_diagonal(&self, threshold: int) -> Seq<Self> {
        guarded_diagonal(*self, threshold)
    }

    open spec fn checked_block(&self, radius: int, round: bool) -> Seq<Self> {
        block_neighbours(self.x as int, self.y as int, radius, 0, u32::MAX as int, round).map_values(
            |c: (int, int)| UVec2 { x: c.0 as u32, y: c.1 as u32 },
        )
    }

    fn neighbours_checked(&self) -> (around: Vec<Self>) {
        self.neighbours_checked_length(1)
    }

    fn neighbours_checked_no_diag(&self) -> (around: Vec<Self>) {
        self.neighbours_checked_no_diag_length(1)
    }

    fn neighbours_checked_diag_only(&self) -> (around: Vec<Self>) {
        self.neighbours_checked_diag_only_length(1)
    }

    fn neighbours_checked_length(&self, length: u32) -> (around: Vec<Self>) {
        let mut neighbours: Vec<UVec2> = Vec::new();
        push_guarded(&mut neighbours, *self, length, -1, -1, true, true);
        push_guarded(&mut neighbours, *self, length, 0, -1, false, true);
        push_guarded(&mut neighbours, *self, length, 1, -1, false, true);
        push_guarded(&mut neighbours, *self, length, -1, 0, true, false);
        push_guarded(&mut neighbours, *self, length, 1, 0, false, false);
        push_guarded(&mut neighbours, *self, length, -1, 1, false, false);
        push_guarded(&mut neighbours, *self, length, 0, 1, false, false);
        push_guarded(&mut neighbours, *self, length, 1, 1, false, false);
        assert(neighbours@ =~= guarded_eight(*self, length as int));
        neighbours
    }

    fn neighbours_checked_no_diag_length(&self, length: u32) -> (around: Vec<Self>) {
        let mut neighbours: Vec<UVec2> = Vec::new();
        push_guarded(&mut neighbours, *self, length, 0, -1, false, true);
        push_guarded(&mut neighbours, *self, length, -1, 0, true, false);
        push_guarded(&mut neighbours, *self, length, 1, 0, false, false);
        push_guarded(&mut neighbours, *self, length, 0, 1, false, false);
        assert(neighbours@ =~= guarded_cardinal(*self, length as int));
        neighbours
    }

    fn neighbours_checked_diag_only_length(&self, length: u32) -> (around: Vec<Self>) {
        let mut neighbours: Vec<UVec2> = Vec::new();
        push_guarded(&mut neighbours, *self, length, -1, -1, true, true);
        push_guarded(&mut neighbours, *self, length, 1, -1, false, true);
        push_guarded(&mut neighbours, *self, length, -1, 1, false, false);
        push_guarded(&mut neighbours, *self, length, 1, 1, false, false);
        assert(neighbours@ =~= guarded_diagonal(*self, length as int));
        neighbours
    }

    fn neighbours_checked_square(&self, radius: u32) -> (around: Vec<Self>) {
        unsigned_block(*self, radius, false)
    }

    fn neighbours_checked_circle(&self, radius: u32) -> (around: Vec<Self>) {
        unsigned_block(*self, radius, true)
    }
}

} // verus!
