//! The neighbour policies of a grid cell, as ordered sequences of in-bounds
//! positions.

use vstd::prelude::*;
use crate::matrix::{in_bounds, Matrix};
use crate::vec2::UVec2;

verus! {

/// Whether moving `pos` by `(dx, dy)` lands on a cell of a grid of `size`.
pub open spec fn can_step(pos: UVec2, size: UVec2, dx: int, dy: int) -> bool {
    0 <= pos.x + dx < size.x && 0 <= pos.y + dy < size.y
}

/// The position reached from `pos` by the offset `(dx, dy)`.
pub open spec fn stepped(pos: UVec2, dx: int, dy: int) -> UVec2 {
    UVec2 { x: (pos.x + dx) as u32, y: (pos.y + dy) as u32 }
}

/// The cardinal move `(dx, dy)` as a candidate list: the target when it is a
/// cell of the grid, nothing otherwise.
pub open spec fn cardinal_candidate(pos: UVec2, size: UVec2, dx: int, dy: int) -> Seq<UVec2> {
    if can_step(pos, size, dx, dy) {
        seq![stepped(pos, dx, dy)]
    } else {
        Seq::empty()
    }
}

/// The diagonal move `(dx, dy)` as a candidate list: the target when both
/// cardinal moves that make it up are valid, nothing otherwise.
pub open spec fn diagonal_candidate(pos: UVec2, size: UVec2, dx: int, dy: int) -> Seq<UVec2> {
    if can_step(pos, size, dx, 0) && can_step(pos, size, 0, dy) {
        seq![stepped(pos, dx, dy)]
    } else {
        Seq::empty()
    }
}

/// North, West, East, South, each left out when it leaves the grid.
pub open spec fn cardinal_neighbours(pos: UVec2, size: UVec2) -> Seq<UVec2> {
    cardinal_candidate(pos, size, 0, -1) + cardinal_candidate(pos, size, -1, 0)
        + cardinal_candidate(pos, size, 1, 0) + cardinal_candidate(pos, size, 0, 1)
}

/// Top-left, Top-right, Bottom-left, Bottom-right, each left out unless both
/// of its cardinal moves stay in the grid.
pub open spec fn diagonal_neighbours(pos: UVec2, size: UVec2) -> Seq<UVec2> {
    diagonal_candidate(pos, size, -1, -1) + diagonal_candidate(pos, size, 1, -1)
        + diagonal_candidate(pos, size, -1, 1) + diagonal_candidate(pos, size, 1, 1)
}

/// Top-left, Top, Top-right, Left, Right, Bottom-left, Bottom, Bottom-right,
/// each under the rule of its kind.
pub open spec fn all_neighbours(pos: UVec2, size: UVec2) -> Seq<UVec2> {
    diagonal_candidate(pos, size, -1, -1) + cardinal_candidate(pos, size, 0, -1)
        + diagonal_candidate(pos, size, 1, -1) + cardinal_candidate(pos, size, -1, 0)
        + cardinal_candidate(pos, size, 1, 0) + diagonal_candidate(pos, size, -1, 1)
        + cardinal_candidate(pos, size, 0, 1) + diagonal_candidate(pos, size, 1, 1)
}

/// Whether `a` and `b` are one cardinal move apart.
pub open spec fn cardinal_step(a: UVec2, b: UVec2) -> bool {
    ||| (a.x == b.x && (a.y + 1 == b.y || b.y + 1 == a.y))
    ||| (a.y == b.y && (a.x + 1 == b.x || b.x + 1 == a.x))
}

/// Whether `a` and `b` are one move apart, diagonals included.
pub open spec fn king_step(a: UVec2, b: UVec2) -> bool {
    &&& a != b
    &&& a.x - b.x <= 1 && b.x - a.x <= 1
    &&& a.y - b.y <= 1 && b.y - a.y <= 1
}

/// Whether `c` lies in the square of the given `radius` around `pos`.
pub open spec fn within_square(c: UVec2, pos: UVec2, radius: u32) -> bool {
    &&& c.x - pos.x <= radius && pos.x - c.x <= radius
    &&& c.y - pos.y <= radius && pos.y - c.y <= radius
}

/// Whether `a` comes before `b` when cells are read row by row.
pub open spec fn row_major_before(a: UVec2, b: UVec2) -> bool {
    a.y < b.y || (a.y == b.y && a.x < b.x)
}

/// The cells that `cardinal_neighbours` lists are exactly the in-bounds cells
/// one cardinal move away.
pub proof fn lemma_cardinal_neighbours_members(pos: UVec2, size: UVec2, c: UVec2)
    ensures
        cardinal_neighbours(pos, size).contains(c) <==> in_bounds(c, size) && cardinal_step(
            pos,
            c,
        ),
{
    let n = cardinal_candidate(pos, size, 0, -1);
    let w = cardinal_candidate(pos, size, -1, 0);
    let e = cardinal_candidate(pos, size, 1, 0);
    let s = cardinal_candidate(pos, size, 0, 1);
    let all = cardinal_neighbours(pos, size);
    assert(all =~= n + w + e + s);
    if in_bounds(c, size) && cardinal_step(pos, c) {
        if c.y + 1 == pos.y {
            assert(n[0] == c);
            assert(all[0] == c);
        } else if c.x + 1 == pos.x {
            assert(w[0] == c);
            assert(all[n.len() as int] == c);
        } else if pos.x + 1 == c.x {
            assert(e[0] == c);
            assert(all[(n.len() + w.len()) as int] == c);
        } else {
            assert(s[0] == c);
            assert(all[(n.len() + w.len() + e.len()) as int] == c);
        }
    }
    if all.contains(c) {
        let i = choose|i: int| 0 <= i < all.len() && all[i] == c;
        assert(all[i] == c);
    }
}

/// The cells that `all_neighbours` lists from an in-bounds position are
/// exactly the in-bounds cells one move away, diagonals included.
pub proof fn lemma_all_neighbours_members(pos: UVec2, size: UVec2, c: UVec2)
    requires
        in_bounds(pos, size),
    ensures
        all_neighbours(pos, size).contains(c) <==> in_bounds(c, size) && king_step(pos, c),
{
    let tl = diagonal_candidate(pos, size, -1, -1);
    let t = cardinal_candidate(pos, size, 0, -1);
    let tr = diagonal_candidate(pos, size, 1, -1);
    let l = cardinal_candidate(pos, size, -1, 0);
    let r = cardinal_candidate(pos, size, 1, 0);
    let bl = diagonal_candidate(pos, size, -1, 1);
    let b = cardinal_candidate(pos, size, 0, 1);
    let br = diagonal_candidate(pos, size, 1, 1);
    let all = all_neighbours(pos, size);
    assert(all =~= tl + t + tr + l + r + bl + b + br);
    if in_bounds(c, size) && king_step(pos, c) {
        let dx = c.x - pos.x;
        let dy = c.y - pos.y;
        if dy == -1 {
            if dx == -1 {
                assert(all[0] == c);
            } else if dx == 0 {
                assert(all[tl.len() as int] == c);
            } else {
                assert(all[(tl.len() + t.len()) as int] == c);
            }
        } else if dy == 0 {
            if dx == -1 {
                assert(all[(tl.len() + t.len() + tr.len()) as int] == c);
            } else {
                assert(all[(tl.len() + t.len() + tr.len() + l.len()) as int] == c);
            }
        } else {
            if dx == -1 {
                assert(all[(tl.len() + t.len() + tr.len() + l.len() + r.len()) as int] == c);
            } else if dx == 0 {
                assert(all[(tl.len() + t.len() + tr.len() + l.len() + r.len() + bl.len()) as int] == c);
            } else {
                assert(all[(tl.len() + t.len() + tr.len() + l.len() + r.len() + bl.len() + b.len()) as int]
                    == c);
            }
        }
    }
    if all.contains(c) {
        let i = choose|i: int| 0 <= i < all.len() && all[i] == c;
        assert(all[i] == c);
    }
}

/// No cell occurs twice among the cardinal neighbours, and each of them is a
/// cell of the grid.
pub proof fn lemma_cardinal_neighbours_distinct(pos: UVec2, size: UVec2)
    ensures
        cardinal_neighbours(pos, size).no_duplicates(),
        forall|i: int|
            0 <= i < cardinal_neighbours(pos, size).len() ==> in_bounds(
                #[trigger] cardinal_neighbours(pos, size)[i],
                size,
            ),
{
    let all = cardinal_neighbours(pos, size);
    assert forall|i: int, j: int| 0 <= i < j < all.len() implies row_major_before(
        all[i],
        all[j],
    ) by {}
}

/// No cell occurs twice among the full-8 neighbours, and each of them is a
/// cell of the grid.
#[verifier::rlimit(30)]
pub proof fn lemma_all_neighbours_distinct(pos: UVec2, size: UVec2)
    ensures
        all_neighbours(pos, size).no_duplicates(),
        forall|i: int|
            0 <= i < all_neighbours(pos, size).len() ==> in_bounds(
                #[trigger] all_neighbours(pos, size)[i],
                size,
            ),
{
    let top = diagonal_candidate(pos, size, -1, -1) + cardinal_candidate(pos, size, 0, -1)
        + diagonal_candidate(pos, size, 1, -1);
    let middle = cardinal_candidate(pos, size, -1, 0) + cardinal_candidate(pos, size, 1, 0);
    let bottom = diagonal_candidate(pos, size, -1, 1) + cardinal_candidate(pos, size, 0, 1)
        + diagonal_candidate(pos, size, 1, 1);
    let all = all_neighbours(pos, size);
    assert(all =~= top + middle + bottom);
    assert forall|i: int| 0 <= i < top.len() implies in_bounds(#[trigger] top[i], size) && top[i].y
        + 1 == pos.y by {}
    assert forall|i: int, j: int| 0 <= i < j < top.len() implies top[i].x < top[j].x by {}
    assert forall|i: int| 0 <= i < middle.len() implies in_bounds(#[trigger] middle[i], size)
        && middle[i].y == pos.y by {}
    assert forall|i: int, j: int| 0 <= i < j < middle.len() implies middle[i].x < middle[j].x by {}
    assert forall|i: int| 0 <= i < bottom.len() implies in_bounds(#[trigger] bottom[i], size)
        && bottom[i].y == pos.y + 1 by {}
    assert forall|i: int, j: int| 0 <= i < j < bottom.len() implies bottom[i].x < bottom[j].x by {}
    assert forall|i: int| 0 <= i < all.len() implies in_bounds(#[trigger] all[i], size) && all[i].y
        == (if i < top.len() {
        pos.y - 1
    } else if i < top.len() + middle.len() {
        pos.y as int
    } else {
        pos.y + 1
    }) by {
        if i < top.len() {
            assert(all[i] == top[i]);
        } else if i < top.len() + middle.len() {
            assert(all[i] == middle[i - top.len()]);
        } else {
            assert(all[i] == bottom[i - top.len() - middle.len()]);
        }
    }
    assert forall|i: int, j: int| 0 <= i < j < all.len() implies all[i] != all[j] by {
        if j < top.len() {
            assert(all[i] == top[i] && all[j] == top[j]);
        } else if i >= top.len() && j < top.len() + middle.len() {
            assert(all[i] == middle[i - top.len()] && all[j] == middle[j - top.len()]);
        } else if i >= top.len() + middle.len() {
            assert(all[i] == bottom[i - top.len() - middle.len()]);
            assert(all[j] == bottom[j - top.len() - middle.len()]);
        }
    }
}

/// How many of the four sides of the grid the cell `pos` lies on.
pub open spec fn sides_touched(pos: UVec2, size: UVec2) -> int {
    (if pos.x == 0 { 1int } else { 0 }) + (if pos.x + 1 == size.x { 1int } else { 0 }) + (if pos.y
        == 0 { 1int } else { 0 }) + (if pos.y + 1 == size.y { 1int } else { 0 })
}

/// In a grid of at least two columns and two rows, a cell has four cardinal
/// neighbours less one for each side of the grid it lies on: two in a corner,
/// three on an edge, four inside.
pub proof fn lemma_cardinal_neighbour_count(pos: UVec2, size: UVec2)
    requires
        in_bounds(pos, size),
        size.x >= 2,
        size.y >= 2,
    ensures
        cardinal_neighbours(pos, size).len() == 4 - sides_touched(pos, size),
        2 <= cardinal_neighbours(pos, size).len() <= 4,
{
}

/// Every cardinal neighbour is among the full-8 neighbours.
pub proof fn lemma_all_neighbours_hold_cardinal(pos: UVec2, size: UVec2, c: UVec2)
    requires
        cardinal_neighbours(pos, size).contains(c),
    ensures
        all_neighbours(pos, size).contains(c),
{
    let tl = diagonal_candidate(pos, size, -1, -1);
    let t = cardinal_candidate(pos, size, 0, -1);
    let tr = diagonal_candidate(pos, size, 1, -1);
    let l = cardinal_candidate(pos, size, -1, 0);
    let r = cardinal_candidate(pos, size, 1, 0);
    let bl = diagonal_candidate(pos, size, -1, 1);
    let b = cardinal_candidate(pos, size, 0, 1);
    let all = all_neighbours(pos, size);
    let four = cardinal_neighbours(pos, size);
    let i = choose|i: int| 0 <= i < four.len() && four[i] == c;
    assert(four[i] == c);
    if t.len() > 0 && c == t[0] {
        assert(all[tl.len() as int] == c);
    } else if l.len() > 0 && c == l[0] {
        assert(all[(tl.len() + t.len() + tr.len()) as int] == c);
    } else if r.len() > 0 && c == r[0] {
        assert(all[(tl.len() + t.len() + tr.len() + l.len()) as int] == c);
    } else {
        assert(b.len() > 0 && c == b[0]);
        assert(all[(tl.len() + t.len() + tr.len() + l.len() + r.len() + bl.len()) as int] == c);
    }
}

impl<T> Matrix<T> {
    /// The full-8 neighbours of `pos`, in the order Top-left, Top, Top-right,
    /// Left, Right, Bottom-left, Bottom, Bottom-right.
    pub fn neighbours(&self, pos: UVec2) -> (out: Vec<UVec2>)
        ensures
            out@ == all_neighbours(pos, self.spec_size()),
    {
        let size = self.size();
        let mut valid: Vec<UVec2> = Vec::with_capacity(8);
        let in_x = pos.x < size.x;
        let in_y = pos.y < size.y;
        let left = pos.x > 0 && pos.x - 1 < size.x;
        let right = pos.x < u32::MAX && pos.x + 1 < size.x;
        let up = pos.y > 0 && pos.y - 1 < size.y;
        let down = pos.y < u32::MAX && pos.y + 1 < size.y;
        if up && left && in_x && in_y {
            valid.push(UVec2::new(pos.x - 1, pos.y - 1));
        }
        if up && in_x {
            valid.push(UVec2::new(pos.x, pos.y - 1));
        }
        if up && right && in_x && in_y {
            valid.push(UVec2::new(pos.x + 1, pos.y - 1));
        }
        if left && in_y {
            valid.push(UVec2::new(pos.x - 1, pos.y));
        }
        if right && in_y {
            valid.push(UVec2::new(pos.x + 1, pos.y));
        }
        if down && left && in_x && in_y {
            valid.push(UVec2::new(pos.x - 1, pos.y + 1));
        }
        if down && in_x {
            valid.push(UVec2::new(pos.x, pos.y + 1));
        }
        if down && right && in_x && in_y {
            valid.push(UVec2::new(pos.x + 1, pos.y + 1));
        }
        assert(valid@ =~= all_neighbours(pos, size));
        valid
    }

    /// The cardinal neighbours of `pos`, in the order North, West, East,
    /// South.
    pub fn neighbours_no_diag(&self, pos: UVec2) -> (out: Vec<UVec2>)
        ensures
            out@ == cardinal_neighbours(pos, self.spec_size()),
    {
        let size = self.size();
        let mut valid: Vec<UVec2> = Vec::with_capacity(4);
        let in_x = pos.x < size.x;
        let in_y = pos.y < size.y;
        if pos.y > 0 && pos.y - 1 < size.y && in_x {
            valid.push(UVec2::new(pos.x, pos.y - 1));
        }
        if pos.x > 0 && pos.x - 1 < size.x && in_y {
            valid.push(UVec2::new(pos.x - 1, pos.y));
        }
        if pos.x < u32::MAX && pos.x + 1 < size.x && in_y {
            valid.push(UVec2::new(pos.x + 1, pos.y));
        }
        if pos.y < u32::MAX && pos.y + 1 < size.y && in_x {
            valid.push(UVec2::new(pos.x, pos.y + 1));
        }
        assert(valid@ =~= cardinal_neighbours(pos, size));
        valid
    }

    /// The diagonal neighbours of `pos`, in the order Top-left, Top-right,
    /// Bottom-left, Bottom-right.
    pub fn neighbours_diag_only(&self, pos: UVec2) -> (out: Vec<UVec2>)
        ensures
            out@ == diagonal_neighbours(pos, self.spec_size()),
    {
        let size = self.size();
        let mut valid: Vec<UVec2> = Vec::with_capacity(4);
        let inside = pos.x < size.x && pos.y < size.y;
        let left = pos.x > 0 && pos.x - 1 < size.x;
        let right = pos.x < u32::MAX && pos.x + 1 < size.x;
        let up = pos.y > 0 && pos.y - 1 < size.y;
        let down = pos.y < u32::MAX && pos.y + 1 < size.y;
        if inside && up && left {
            valid.push(UVec2::new(pos.x - 1, pos.y - 1));
        }
        if inside && up && right {
            valid.push(UVec2::new(pos.x + 1, pos.y - 1));
        }
        if inside && down && left {
            valid.push(UVec2::new(pos.x - 1, pos.y + 1));
        }
        if inside && down && right {
            valid.push(UVec2::new(pos.x + 1, pos.y + 1));
        }
        assert(valid@ =~= diagonal_neighbours(pos, size));
        valid
    }
}

/// The larger of the grid's width and height: the modulus of the wrapping
/// policies.
pub open spec fn wrap_modulus(size: UVec2) -> int {
    if size.x >= size.y {
        size.x as int
    } else {
        size.y as int
    }
}

/// The position reached from `pos` by the offset `(dx, dy)` when both
/// coordinates wrap around the wrap modulus.
pub open spec fn wrapped_step(pos: UVec2, size: UVec2, dx: int, dy: int) -> UVec2 {
    UVec2 {
        x: ((pos.x + dx) % wrap_modulus(size)) as u32,
        y: ((pos.y + dy) % wrap_modulus(size)) as u32,
    }
}

/// Up, Down, Left, Right, wrapped.
pub open spec fn wrapping_cardinal_neighbours(pos: UVec2, size: UVec2) -> Seq<UVec2> {
    seq![
        wrapped_step(pos, size, 0, -1),
        wrapped_step(pos, size, 0, 1),
        wrapped_step(pos, size, -1, 0),
        wrapped_step(pos, size, 1, 0),
    ]
}

/// Up-left, Up-right, Down-left, Down-right, wrapped.
pub open spec fn wrapping_diagonal_neighbours(pos: UVec2, size: UVec2) -> Seq<UVec2> {
    seq![
        wrapped_step(pos, size, -1, -1),
        wrapped_step(pos, size, 1, -1),
        wrapped_step(pos, size, -1, 1),
        wrapped_step(pos, size, 1, 1),
    ]
}

/// The coordinate `value` moved by `step`, which is -1, 0 or 1, and wrapped
/// into the range below `modulus`.
pub fn wrap_coordinate(value: u32, step: i8, modulus: u32) -> (wrapped: u32)
    requires
        modulus > 0,
        -1 <= step <= 1,
    ensures
        wrapped == (value + step) % (modulus as int),
        wrapped < modulus,
{
    let m = modulus as u64;
    let shifted: u64 = if step < 0 {
        value as u64 + m - 1
    } else if step > 0 {
        value as u64 + 1
    } else {
        value as u64
    };
    proof {
        if step < 0 {
            vstd::arithmetic::div_mod::lemma_mod_add_multiples_vanish(value - 1, modulus as int);
        }
    }
    (shifted % m) as u32
}

impl<T> Matrix<T> {
    /// The in-bounds cells within `radius` columns and rows of `pos`, `pos`
    /// itself left out, in row-major order.
    pub fn neighbours_radius(&self, pos: UVec2, radius: u32) -> (out: Vec<UVec2>)
        ensures
            forall|c: UVec2|
                #[trigger] out@.contains(c) <==> in_bounds(c, self.spec_size()) && within_square(
                    c,
                    pos,
                    radius,
                ) && c != pos,
            forall|i: int, j: int|
                0 <= i < j < out@.len() ==> row_major_before(#[trigger] out@[i], #[trigger] out@[j]),
    {
        let size = self.size();
        let mut out: Vec<UVec2> = Vec::new();
        let y_from: u64 = if pos.y >= radius { (pos.y - radius) as u64 } else { 0 };
        let x_from: u64 = if pos.x >= radius { (pos.x - radius) as u64 } else { 0 };
        let y_reach: u64 = pos.y as u64 + radius as u64 + 1;
        let x_reach: u64 = pos.x as u64 + radius as u64 + 1;
        let y_to: u64 = if y_reach < size.y as u64 { y_reach } else { size.y as u64 };
        let x_to: u64 = if x_reach < size.x as u64 { x_reach } else { size.x as u64 };
        let mut y: u64 = y_from;
        while y < y_to
            invariant
                size == self.spec_size(),
                y_from == if pos.y >= radius { pos.y - radius } else { 0 },
                x_from == if pos.x >= radius { pos.x - radius } else { 0 },
                y_to == if pos.y + radius + 1 < size.y { pos.y + radius + 1 } else { size.y as int },
                x_to == if pos.x + radius + 1 < size.x { pos.x + radius + 1 } else { size.x as int },
                y_from <= y,
                y <= y_to || y == y_from,
                forall|c: UVec2|
                    #[trigger] out@.contains(c) <==> in_bounds(c, size) && within_square(
                        c,
                        pos,
                        radius,
                    ) && c != pos && c.y < y,
                forall|i: int, j: int|
                    0 <= i < j < out@.len() ==> row_major_before(
                        #[trigger] out@[i],
                        #[trigger] out@[j],
                    ),
            decreases y_to - y,
        {
            let mut x: u64 = x_from;
            while x < x_to
                invariant
                    size == self.spec_size(),
                    y_from == if pos.y >= radius { pos.y - radius } else { 0 },
                    x_from == if pos.x >= radius { pos.x - radius } else { 0 },
                    y_to == if pos.y + radius + 1 < size.y {
                        pos.y + radius + 1
                    } else {
                        size.y as int
                    },
                    x_to == if pos.x + radius + 1 < size.x {
                        pos.x + radius + 1
                    } else {
                        size.x as int
                    },
                    y_from <= y < y_to,
                    x_from <= x,
                    x <= x_to || x == x_from,
                    forall|c: UVec2|
                        #[trigger] out@.contains(c) <==> in_bounds(c, size) && within_square(
                            c,
                            pos,
                            radius,
                        ) && c != pos && (c.y < y || (c.y == y && c.x < x)),
                    forall|i: int, j: int|
                        0 <= i < j < out@.len() ==> row_major_before(
                            #[trigger] out@[i],
                            #[trigger] out@[j],
                        ),
                decreases x_to - x,
            {
                let cell = UVec2::new(x as u32, y as u32);
                if cell.x != pos.x || cell.y != pos.y {
                    let ghost before = out@;
                    out.push(cell);
                    proof {
                        assert forall|c: UVec2| #[trigger] out@.contains(c) <==> before.contains(c)
                            || c == cell by {
                            if out@.contains(c) {
                                let i = choose|i: int| 0 <= i < out@.len() && out@[i] == c;
                                if i < before.len() {
                                    assert(before[i] == c);
                                }
                            }
                            if before.contains(c) {
                                let i = choose|i: int| 0 <= i < before.len() && before[i] == c;
                                assert(out@[i] == c);
                            }
                            if c == cell {
                                assert(out@[before.len() as int] == c);
                            }
                        }
                        assert forall|i: int, j: int| 0 <= i < j < out@.len() implies row_major_before(
                            #[trigger] out@[i],
                            #[trigger] out@[j],
                        ) by {
                            if j == before.len() {
                                assert(before.contains(before[i]));
                            }
                        }
                    }
                }
                x += 1;
            }
            y += 1;
        }
        out
    }

    /// The eight neighbours of `pos` with both coordinates wrapped around
    /// the larger of the grid's width and height, in the order Up, Down,
    /// Left, Right, Up-left, Up-right, Down-left, Down-right. On a grid that
    /// is not square, a wrapped neighbour can lie outside the grid.
    pub fn neighbours_wrapping(&self, pos: UVec2) -> (out: Vec<UVec2>)
        requires
            wrap_modulus(self.spec_size()) > 0,
        ensures
            out@ == wrapping_cardinal_neighbours(pos, self.spec_size())
                + wrapping_diagonal_neighbours(pos, self.spec_size()),
    {
        let modulus = self.size().max_element();
        let mut neighbours: Vec<UVec2> = Vec::new();
        neighbours.push(wrapped_neighbour(pos, 0, -1, modulus));
        neighbours.push(wrapped_neighbour(pos, 0, 1, modulus));
        neighbours.push(wrapped_neighbour(pos, -1, 0, modulus));
        neighbours.push(wrapped_neighbour(pos, 1, 0, modulus));
        neighbours.push(wrapped_neighbour(pos, -1, -1, modulus));
        neighbours.push(wrapped_neighbour(pos, 1, -1, modulus));
        neighbours.push(wrapped_neighbour(pos, -1, 1, modulus));
        neighbours.push(wrapped_neighbour(pos, 1, 1, modulus));
        assert(neighbours@ =~= wrapping_cardinal_neighbours(pos, self.spec_size())
            + wrapping_diagonal_neighbours(pos, self.spec_size()));
        neighbours
    }

    /// The four cardinal neighbours of `pos`, wrapped as in
    /// `neighbours_wrapping`, in the order Up, Down, Left, Right.
    pub fn neighbours_no_diag_wrapping(&self, pos: UVec2) -> (out: Vec<UVec2>)
        requires
            wrap_modulus(self.spec_size()) > 0,
        ensures
            out@ == wrapping_cardinal_neighbours(pos, self.spec_size()),
    {
        let modulus = self.size().max_element();
        let mut neighbours: Vec<UVec2> = Vec::new();
        neighbours.push(wrapped_neighbour(pos, 0, -1, modulus));
        neighbours.push(wrapped_neighbour(pos, 0, 1, modulus));
        neighbours.push(wrapped_neighbour(pos, -1, 0, modulus));
        neighbours.push(wrapped_neighbour(pos, 1, 0, modulus));
        assert(neighbours@ =~= wrapping_cardinal_neighbours(pos, self.spec_size()));
        neighbours
    }

    /// The four diagonal neighbours of `pos`, wrapped as in
    /// `neighbours_wrapping`, in the order Up-left, Up-right, Down-left,
    /// Down-right.
    pub fn neighbours_diag_only_wrapping(&self, pos: UVec2) -> (out: Vec<UVec2>)
        requires
            wrap_modulus(self.spec_size()) > 0,
        ensures
            out@ == wrapping_diagonal_neighbours(pos, self.spec_size()),
    {
        let modulus = self.size().max_element();
        let mut neighbours: Vec<UVec2> = Vec::new();
        neighbours.push(wrapped_neighbour(pos, -1, -1, modulus));
        neighbours.push(wrapped_neighbour(pos, 1, -1, modulus));
        neighbours.push(wrapped_neighbour(pos, -1, 1, modulus));
        neighbours.push(wrapped_neighbour(pos, 1, 1, modulus));
        assert(neighbours@ =~= wrapping_diagonal_neighbours(pos, self.spec_size()));
        neighbours
    }
}

/// The neighbour of `pos` at the offset `(dx, dy)`, both coordinates wrapped
/// around `modulus`.
fn wrapped_neighbour(pos: UVec2, dx: i8, dy: i8, modulus: u32) -> (n: UVec2)
    requires
        modulus > 0,
        -1 <= dx <= 1,
        -1 <= dy <= 1,
    ensures
        n.x == (pos.x + dx) % (modulus as int),
        n.y == (pos.y + dy) % (modulus as int),
{
    UVec2::new(wrap_coordinate(pos.x, dx, modulus), wrap_coordinate(pos.y, dy, modulus))
}

} // verus!
