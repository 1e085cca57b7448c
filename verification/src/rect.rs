//! Rectangles of grid cells, given by their top-left and bottom-right
//! corners, both included.

use vstd::prelude::*;
use crate::analysis::{lemma_picked_push, picked};
use crate::direction::{Direction, Orientation};
use crate::scaling::is_power_of_two;
use crate::vec2::UVec2;
use crate::vec2_traits::{lemma_span_in_range, span, span_cells};

verus! {

/// A rectangle of cells between two corners.
#[derive(Copy, Clone, Debug, PartialEq, Eq, Structural)]
pub struct Rect {
    pub top_left_corner: UVec2,
    pub bottom_right_corner: UVec2,
}

/// The rectangle between the corners `(left, top)` and `(right, bottom)`.
pub open spec fn rect_of(left: int, top: int, right: int, bottom: int) -> Rect {
    Rect {
        top_left_corner: UVec2 { x: left as u32, y: top as u32 },
        bottom_right_corner: UVec2 { x: right as u32, y: bottom as u32 },
    }
}

impl Rect {
    /// The top-left corner is neither right of nor below the bottom-right
    /// corner.
    pub open spec fn well_formed(&self) -> bool {
        self.top_left_corner.x <= self.bottom_right_corner.x && self.top_left_corner.y
            <= self.bottom_right_corner.y
    }

    /// The distance between the left and the right side.
    pub open spec fn spec_width(&self) -> int {
        self.bottom_right_corner.x - self.top_left_corner.x
    }

    /// The distance between the top and the bottom side.
    pub open spec fn spec_height(&self) -> int {
        self.bottom_right_corner.y - self.top_left_corner.y
    }

    /// Whether `pos` lies in the rectangle, its sides included.
    pub open spec fn holds(&self, pos: UVec2) -> bool {
        self.top_left_corner.x <= pos.x <= self.bottom_right_corner.x && self.top_left_corner.y
            <= pos.y <= self.bottom_right_corner.y
    }

    /// Whether `pos` lies on a side of the rectangle.
    pub open spec fn on_border(&self, pos: UVec2) -> bool {
        pos.x == self.top_left_corner.x || pos.x == self.bottom_right_corner.x || pos.y
            == self.top_left_corner.y || pos.y == self.bottom_right_corner.y
    }

    /// The positions of the rectangle, sides included, in row-major order.
    pub open spec fn spec_positions(&self) -> Seq<UVec2> {
        span_cells(self.spec_width() + 1, self.spec_height() + 1).map_values(
            |c: (int, int)|
                UVec2 {
                    x: (self.top_left_corner.x + c.0) as u32,
                    y: (self.top_left_corner.y + c.1) as u32,
                },
        )
    }

    /// The rectangle with the given top-left corner and size.
    pub fn from_top_left_and_size(top_left_corner: UVec2, size: UVec2) -> (rect: Self)
        requires
            top_left_corner.x + size.x <= u32::MAX,
            top_left_corner.y + size.y <= u32::MAX,
        ensures
            rect == rect_of(
                top_left_corner.x as int,
                top_left_corner.y as int,
                top_left_corner.x + size.x,
                top_left_corner.y + size.y,
            ),
    {
        Rect {
            top_left_corner,
            bottom_right_corner: UVec2::new(top_left_corner.x + size.x, top_left_corner.y + size.y),
        }
    }

    /// The rectangle that reaches half of `size`, rounded down, from
    /// `center_pos` to each side.
    pub fn from_center_and_size(center_pos: UVec2, size: UVec2) -> (rect: Self)
        requires
            center_pos.x >= size.x / 2,
            center_pos.y >= size.y / 2,
            center_pos.x + size.x / 2 <= u32::MAX,
            center_pos.y + size.y / 2 <= u32::MAX,
        ensures
            rect == rect_of(
                center_pos.x - size.x / 2,
                center_pos.y - size.y / 2,
                center_pos.x + size.x / 2,
                center_pos.y + size.y / 2,
            ),
    {
        Rect {
            top_left_corner: UVec2::new(center_pos.x - size.x / 2, center_pos.y - size.y / 2),
            bottom_right_corner: UVec2::new(center_pos.x + size.x / 2, center_pos.y + size.y / 2),
        }
    }

    /// The rectangle between two corners, the first strictly left of and
    /// above the second.
    pub fn from_corners(top_left_corner: UVec2, bottom_right_corner: UVec2) -> (rect: Self)
        requires
            top_left_corner.x < bottom_right_corner.x,
            top_left_corner.y < bottom_right_corner.y,
        ensures
            rect == (Rect { top_left_corner, bottom_right_corner }),
    {
        Rect { top_left_corner, bottom_right_corner }
    }

    /// The smallest rectangle that holds all `positions`, which must differ
    /// both in `x` and in `y`.
    pub fn bounds_from_positions(positions: &[UVec2]) -> (rect: Self)
        requires
            exists|i: int, j: int|
                0 <= i < positions@.len() && 0 <= j < positions@.len() && (
                #[trigger] positions@[i]).x < (#[trigger] positions@[j]).x,
            exists|i: int, j: int|
                0 <= i < positions@.len() && 0 <= j < positions@.len() && (
                #[trigger] positions@[i]).y < (#[trigger] positions@[j]).y,
        ensures
            forall|i: int| 0 <= i < positions@.len() ==> rect.holds(#[trigger] positions@[i]),
            exists|i: int|
                0 <= i < positions@.len() && (#[trigger] positions@[i]).x
                    == rect.top_left_corner.x,
            exists|i: int|
                0 <= i < positions@.len() && (#[trigger] positions@[i]).y
                    == rect.top_left_corner.y,
            exists|i: int|
                0 <= i < positions@.len() && (#[trigger] positions@[i]).x
                    == rect.bottom_right_corner.x,
            exists|i: int|
                0 <= i < positions@.len() && (#[trigger] positions@[i]).y
                    == rect.bottom_right_corner.y,
    {
        let mut min_x = u32::MAX;
        let mut min_y = u32::MAX;
        let mut max_x = 0u32;
        let mut max_y = 0u32;
        let mut k: usize = 0;
        while k < positions.len()
            invariant
                0 <= k <= positions@.len(),
                forall|i: int|
                    0 <= i < k ==> min_x <= (#[trigger] positions@[i]).x <= max_x && min_y
                        <= positions@[i].y <= max_y,
                k == 0 ==> min_x == u32::MAX && min_y == u32::MAX && max_x == 0 && max_y == 0,
                k > 0 ==> exists|i: int| 0 <= i < k && (#[trigger] positions@[i]).x == min_x,
                k > 0 ==> exists|i: int| 0 <= i < k && (#[trigger] positions@[i]).y == min_y,
                k > 0 ==> exists|i: int| 0 <= i < k && (#[trigger] positions@[i]).x == max_x,
                k > 0 ==> exists|i: int| 0 <= i < k && (#[trigger] positions@[i]).y == max_y,
            decreases positions@.len() - k,
        {
            let pos = positions[k];
            let ghost old_min_x = min_x;
            let ghost old_min_y = min_y;
            let ghost old_max_x = max_x;
            let ghost old_max_y = max_y;
            if pos.x < min_x {
                min_x = pos.x;
            }
            if pos.y < min_y {
                min_y = pos.y;
            }
            if pos.x > max_x {
                max_x = pos.x;
            }
            if pos.y > max_y {
                max_y = pos.y;
            }
            proof {
                let here = k as int;
                if k > 0 {
                    let a = choose|i: int| 0 <= i < k && (#[trigger] positions@[i]).x == old_min_x;
                    let b = choose|i: int| 0 <= i < k && (#[trigger] positions@[i]).y == old_min_y;
                    let c = choose|i: int| 0 <= i < k && (#[trigger] positions@[i]).x == old_max_x;
                    let d = choose|i: int| 0 <= i < k && (#[trigger] positions@[i]).y == old_max_y;
                    assert(positions@[if min_x == old_min_x { a } else { here }].x == min_x);
                    assert(positions@[if min_y == old_min_y { b } else { here }].y == min_y);
                    assert(positions@[if max_x == old_max_x { c } else { here }].x == max_x);
                    assert(positions@[if max_y == old_max_y { d } else { here }].y == max_y);
                } else {
                    assert(positions@[here].x == min_x && positions@[here].x == max_x);
                    assert(positions@[here].y == min_y && positions@[here].y == max_y);
                }
            }
            k += 1;
        }
        proof {
            let (i, j) = choose|i: int, j: int|
                0 <= i < positions@.len() && 0 <= j < positions@.len() && (
                #[trigger] positions@[i]).x < (#[trigger] positions@[j]).x;
            assert(min_x <= positions@[i].x && positions@[j].x <= max_x);
            let (m, n) = choose|i: int, j: int|
                0 <= i < positions@.len() && 0 <= j < positions@.len() && (
                #[trigger] positions@[i]).y < (#[trigger] positions@[j]).y;
            assert(min_y <= positions@[m].y && positions@[n].y <= max_y);
        }
        Self::from_corners(UVec2::new(min_x, min_y), UVec2::new(max_x, max_y))
    }

    /// The corners: top left, top right, bottom left, bottom right.
    pub fn corners(&self) -> (corners: [UVec2; 4])
        ensures
            corners@ == seq![
                self.top_left_corner,
                UVec2 { x: self.bottom_right_corner.x, y: self.top_left_corner.y },
                UVec2 { x: self.top_left_corner.x, y: self.bottom_right_corner.y },
                self.bottom_right_corner,
            ],
    {
        let corners = [
            self.top_left_corner,
            UVec2::new(self.bottom_right_corner.x, self.top_left_corner.y),
            UVec2::new(self.top_left_corner.x, self.bottom_right_corner.y),
            self.bottom_right_corner,
        ];
        assert(corners@ =~= seq![
            self.top_left_corner,
            UVec2 { x: self.bottom_right_corner.x, y: self.top_left_corner.y },
            UVec2 { x: self.top_left_corner.x, y: self.bottom_right_corner.y },
            self.bottom_right_corner,
        ]);
        corners
    }

    /// The cell half of the size, rounded down, from the top-left corner.
    pub fn center(&self) -> (centre: UVec2)
        requires
            self.well_formed(),
        ensures
            centre.x == self.top_left_corner.x + self.spec_width() / 2,
            centre.y == self.top_left_corner.y + self.spec_height() / 2,
    {
        UVec2::new(
            self.top_left_corner.x + self.width() / 2,
            self.top_left_corner.y + self.height() / 2,
        )
    }

    /// The orientation of the longer side of a rectangle that is not square.
    pub fn longest_orientation(&self) -> (orientation: Orientation)
        requires
            self.well_formed(),
            self.spec_width() != self.spec_height(),
        ensures
            orientation == if self.spec_width() > self.spec_height() {
                Orientation::Horizontal
            } else {
                Orientation::Vertical
            },
    {
        if self.width() > self.height() {
            Orientation::Horizontal
        } else {
            Orientation::Vertical
        }
    }

    /// The distance between the left and the right side.
    pub fn width(&self) -> (w: u32)
        requires
            self.well_formed(),
        ensures
            w == self.spec_width(),
    {
        self.bottom_right_corner.x - self.top_left_corner.x
    }

    /// The distance between the top and the bottom side.
    pub fn height(&self) -> (h: u32)
        requires
            self.well_formed(),
        ensures
            h == self.spec_height(),
    {
        self.bottom_right_corner.y - self.top_left_corner.y
    }

    /// Width and height as a vector.
    pub fn size(&self) -> (s: UVec2)
        requires
            self.well_formed(),
        ensures
            s.x == self.spec_width(),
            s.y == self.spec_height(),
    {
        UVec2::new(self.width(), self.height())
    }

    /// Width times height.
    pub fn area(&self) -> (a: u32)
        requires
            self.well_formed(),
            self.spec_width() * self.spec_height() <= u32::MAX,
        ensures
            a == self.spec_width() * self.spec_height(),
    {
        self.size().element_product()
    }

    /// The positions of the rectangle, sides included, in row-major order.
    pub fn positions(&self) -> (all: Vec<UVec2>)
        requires
            self.well_formed(),
        ensures
            all@ == self.spec_positions(),
    {
        let width = self.width() as u64 + 1;
        let height = self.height() as u64 + 1;
        let cells = span(width, height);
        let ghost model = span_cells(width as int, height as int);
        let mut all: Vec<UVec2> = Vec::new();
        let mut i: usize = 0;
        while i < cells.len()
            invariant
                0 <= i <= cells@.len(),
                self.well_formed(),
                width == self.spec_width() + 1,
                height == self.spec_height() + 1,
                model == span_cells(width as int, height as int),
                cells@.len() == model.len(),
                forall|k: int|
                    0 <= k < cells@.len() ==> (#[trigger] cells@[k]).0 == model[k].0
                        && cells@[k].1 == model[k].1,
                all@.len() == i,
                forall|k: int|
                    0 <= k < i ==> #[trigger] all@[k] == (UVec2 {
                        x: (self.top_left_corner.x + model[k].0) as u32,
                        y: (self.top_left_corner.y + model[k].1) as u32,
                    }),
            decreases cells@.len() - i,
        {
            let cell = cells[i];
            proof {
                lemma_span_in_range(i as int, width as int, height as int);
            }
            all.push(
                UVec2::new(
                    (self.top_left_corner.x as u64 + cell.0) as u32,
                    (self.top_left_corner.y as u64 + cell.1) as u32,
                ),
            );
            i += 1;
        }
        assert(all@ =~= self.spec_positions());
        all
    }

    /// The positions on the sides of the rectangle, in row-major order.
    pub fn border_positions(&self) -> (border: Vec<UVec2>)
        requires
            self.well_formed(),
        ensures
            border@ == picked(
                self.spec_positions().map_values(|p: UVec2| self.on_border(p)),
                self.spec_positions(),
            ),
    {
        let all = self.positions();
        let ghost answers = all@.map_values(|p: UVec2| self.on_border(p));
        let mut border: Vec<UVec2> = Vec::new();
        let mut i: usize = 0;
        proof {
            assert(all@.take(0) =~= Seq::empty());
            assert(answers.take(0) =~= Seq::empty());
        }
        while i < all.len()
            invariant
                0 <= i <= all@.len(),
                answers == all@.map_values(|p: UVec2| self.on_border(p)),
                border@ == picked(answers.take(i as int), all@.take(i as int)),
            decreases all@.len() - i,
        {
            let pos = all[i];
            let keep = pos.x == self.top_left_corner.x || pos.x == self.bottom_right_corner.x
                || pos.y == self.top_left_corner.y || pos.y == self.bottom_right_corner.y;
            proof {
                assert(keep == answers[i as int]);
                lemma_picked_push(answers.take(i as int), all@.take(i as int), keep, pos);
                assert(answers.take(i as int).push(keep) =~= answers.take(i as int + 1));
                assert(all@.take(i as int).push(pos) =~= all@.take(i as int + 1));
            }
            if keep {
                border.push(pos);
            }
            i += 1;
        }
        proof {
            assert(all@.take(i as int) =~= all@);
            assert(answers.take(i as int) =~= answers);
        }
        border
    }

    /// Whether `pos` lies in the rectangle, its sides included.
    pub fn contains_pos(&self, pos: UVec2) -> (inside: bool)
        ensures
            inside == self.holds(pos),
    {
        pos.x >= self.top_left_corner.x && pos.y >= self.top_left_corner.y && pos.x
            <= self.bottom_right_corner.x && pos.y <= self.bottom_right_corner.y
    }

    /// The rectangle grown by `amount` on every side.
    #[must_use]
    pub fn expand(&self, amount: u32) -> (rect: Self)
        requires
            self.top_left_corner.x >= amount,
            self.top_left_corner.y >= amount,
            self.bottom_right_corner.x + amount <= u32::MAX,
            self.bottom_right_corner.y + amount <= u32::MAX,
            self.top_left_corner.x - amount < self.bottom_right_corner.x + amount,
            self.top_left_corner.y - amount < self.bottom_right_corner.y + amount,
        ensures
            rect == rect_of(
                self.top_left_corner.x - amount,
                self.top_left_corner.y - amount,
                self.bottom_right_corner.x + amount,
                self.bottom_right_corner.y + amount,
            ),
    {
        Self::from_corners(
            UVec2::new(self.top_left_corner.x - amount, self.top_left_corner.y - amount),
            UVec2::new(self.bottom_right_corner.x + amount, self.bottom_right_corner.y + amount),
        )
    }

    /// Grows the rectangle by `amount` on every side.
    pub fn expand_in_place(&mut self, amount: u32)
        requires
            old(self).top_left_corner.x >= amount,
            old(self).top_left_corner.y >= amount,
            old(self).bottom_right_corner.x + amount <= u32::MAX,
            old(self).bottom_right_corner.y + amount <= u32::MAX,
        ensures
            *final(self) == rect_of(
                old(self).top_left_corner.x - amount,
                old(self).top_left_corner.y - amount,
                old(self).bottom_right_corner.x + amount,
                old(self).bottom_right_corner.y + amount,
            ),
    {
        self.top_left_corner = UVec2::new(
            self.top_left_corner.x - amount,
            self.top_left_corner.y - amount,
        );
        self.bottom_right_corner = UVec2::new(
            self.bottom_right_corner.x + amount,
            self.bottom_right_corner.y + amount,
        );
    }

    /// The rectangle with the side that faces the cardinal `direction`
    /// moved by `amount`: outwards when `outwards` holds, else the opposite
    /// side moved inwards.
    pub open spec fn side_moved(self, direction: Direction, amount: int, outwards: bool) -> Rect {
        let left = self.top_left_corner.x as int;
        let top = self.top_left_corner.y as int;
        let right = self.bottom_right_corner.x as int;
        let bottom = self.bottom_right_corner.y as int;
        match direction {
            Direction::North => if outwards {
                rect_of(left, top - amount, right, bottom)
            } else {
                rect_of(left, top, right, bottom - amount)
            },
            Direction::East => if outwards {
                rect_of(left, top, right + amount, bottom)
            } else {
                rect_of(left + amount, top, right, bottom)
            },
            Direction::South => if outwards {
                rect_of(left, top, right, bottom + amount)
            } else {
                rect_of(left, top + amount, right, bottom)
            },
            _ => if outwards {
                rect_of(left - amount, top, right, bottom)
            } else {
                rect_of(left, top, right - amount, bottom)
            },
        }
    }

    /// Whether the side that `side_moved` moves stays within the coordinates
    /// that a cell can have.
    pub open spec fn side_can_move(self, direction: Direction, amount: int, outwards: bool) -> bool {
        match direction {
            Direction::North => if outwards {
                self.top_left_corner.y >= amount
            } else {
                self.bottom_right_corner.y >= amount
            },
            Direction::East => if outwards {
                self.bottom_right_corner.x + amount <= u32::MAX
            } else {
                self.top_left_corner.x + amount <= u32::MAX
            },
            Direction::South => if outwards {
                self.bottom_right_corner.y + amount <= u32::MAX
            } else {
                self.top_left_corner.y + amount <= u32::MAX
            },
            _ => if outwards {
                self.top_left_corner.x >= amount
            } else {
                self.bottom_right_corner.x >= amount
            },
        }
    }

    /// Moves the side that faces the cardinal `direction` outwards by
    /// `amount`.
    pub fn extend_in_dir(&mut self, direction: Direction, amount: u32)
        requires
            direction.cardinal(),
            old(self).side_can_move(direction, amount as int, true),
        ensures
            *final(self) == old(self).side_moved(direction, amount as int, true),
    {
        match direction {
            Direction::North => {
                self.top_left_corner.y = self.top_left_corner.y - amount;
            },
            Direction::East => {
                self.bottom_right_corner.x = self.bottom_right_corner.x + amount;
            },
            Direction::South => {
                self.bottom_right_corner.y = self.bottom_right_corner.y + amount;
            },
            _ => {
                self.top_left_corner.x = self.top_left_corner.x - amount;
            },
        }
    }

    /// Shrinks the rectangle towards the cardinal `direction`: the side
    /// opposite to it moves by `amount` in that direction.
    pub fn shrink_in_dir(&mut self, direction: Direction, amount: u32)
        requires
            direction.cardinal(),
            old(self).side_can_move(direction, amount as int, false),
        ensures
            *final(self) == old(self).side_moved(direction, amount as int, false),
    {
        match direction {
            Direction::North => {
                self.bottom_right_corner.y = self.bottom_right_corner.y - amount;
            },
            Direction::East => {
                self.top_left_corner.x = self.top_left_corner.x + amount;
            },
            Direction::South => {
                self.top_left_corner.y = self.top_left_corner.y + amount;
            },
            _ => {
                self.bottom_right_corner.x = self.bottom_right_corner.x - amount;
            },
        }
    }

    /// Whether the rectangle is large enough to lose `amount` on every side
    /// and keep a width and a height of two.
    pub open spec fn can_shrink(&self, amount: int) -> bool {
        self.spec_width() >= 2 * amount + 2 && self.spec_height() >= 2 * amount + 2
    }

    /// The rectangle with `amount` taken off every side, or `None` when it
    /// is too small for that.
    pub fn shrink(&self, amount: u32) -> (rect: Option<Self>)
        requires
            self.well_formed(),
        ensures
            rect is Some <==> self.can_shrink(amount as int),
            rect matches Some(r) ==> r == rect_of(
                self.top_left_corner.x + amount,
                self.top_left_corner.y + amount,
                self.bottom_right_corner.x - amount,
                self.bottom_right_corner.y - amount,
            ),
    {
        let min_length = amount as u64 * 2 + 2;
        if (self.width() as u64) < min_length || (self.height() as u64) < min_length {
            return None;
        }
        Some(
            Self::from_corners(
                UVec2::new(self.top_left_corner.x + amount, self.top_left_corner.y + amount),
                UVec2::new(
                    self.bottom_right_corner.x - amount,
                    self.bottom_right_corner.y - amount,
                ),
            ),
        )
    }

    /// Takes `amount` off every side of a rectangle that is large enough.
    pub fn shrink_in_place(&mut self, amount: u32)
        requires
            old(self).well_formed(),
            old(self).can_shrink(amount as int),
        ensures
            *final(self) == rect_of(
                old(self).top_left_corner.x + amount,
                old(self).top_left_corner.y + amount,
                old(self).bottom_right_corner.x - amount,
                old(self).bottom_right_corner.y - amount,
            ),
    {
        self.top_left_corner = UVec2::new(
            self.top_left_corner.x + amount,
            self.top_left_corner.y + amount,
        );
        self.bottom_right_corner = UVec2::new(
            self.bottom_right_corner.x - amount,
            self.bottom_right_corner.y - amount,
        );
    }

    /// Multiplies both corners by a power of two.
    pub fn scale_up(&mut self, scale_factor: u32)
        requires
            is_power_of_two(scale_factor as int),
            old(self).top_left_corner.x * scale_factor <= u32::MAX,
            old(self).top_left_corner.y * scale_factor <= u32::MAX,
            old(self).bottom_right_corner.x * scale_factor <= u32::MAX,
            old(self).bottom_right_corner.y * scale_factor <= u32::MAX,
        ensures
            *final(self) == rect_of(
                old(self).top_left_corner.x * scale_factor,
                old(self).top_left_corner.y * scale_factor,
                old(self).bottom_right_corner.x * scale_factor,
                old(self).bottom_right_corner.y * scale_factor,
            ),
    {
        self.top_left_corner = UVec2::new(
            self.top_left_corner.x * scale_factor,
            self.top_left_corner.y * scale_factor,
        );
        self.bottom_right_corner = UVec2::new(
            self.bottom_right_corner.x * scale_factor,
            self.bottom_right_corner.y * scale_factor,
        );
    }

    /// Divides both corners by `scale_factor`, rounding down.
    pub fn scale_down(&mut self, scale_factor: u32)
        requires
            scale_factor > 0,
        ensures
            *final(self) == rect_of(
                old(self).top_left_corner.x as int / scale_factor as int,
                old(self).top_left_corner.y as int / scale_factor as int,
                old(self).bottom_right_corner.x as int / scale_factor as int,
                old(self).bottom_right_corner.y as int / scale_factor as int,
            ),
    {
        self.top_left_corner = UVec2::new(
            self.top_left_corner.x / scale_factor,
            self.top_left_corner.y / scale_factor,
        );
        self.bottom_right_corner = UVec2::new(
            self.bottom_right_corner.x / scale_factor,
            self.bottom_right_corner.y / scale_factor,
        );
    }

    /// Whether the rectangle can be cut in two across the given axis,
    /// `split_point` cells from its top-left corner, with both parts wider
    /// and higher than nothing.
    pub open spec fn can_bisect(&self, orientation: Orientation, split_point: int) -> bool {
        match orientation {
            Orientation::Vertical => {
                &&& split_point > 0
                &&& self.top_left_corner.y < self.bottom_right_corner.y
                &&& self.top_left_corner.x + split_point + 1 < self.bottom_right_corner.x
            },
            Orientation::Horizontal => {
                &&& split_point > 0
                &&& self.top_left_corner.x < self.bottom_right_corner.x
                &&& self.top_left_corner.y + split_point + 1 < self.bottom_right_corner.y
            },
        }
    }

    /// The two parts of the rectangle cut `split_point` cells from its
    /// top-left corner: left and right of a vertical cut, or above and below
    /// a horizontal one. The second part starts one cell after the first
    /// ends.
    pub fn bisect_at(&self, orientation: Orientation, split_point: u32) -> (parts: (Self, Self))
        requires
            self.can_bisect(orientation, split_point as int),
        ensures
            parts.0.top_left_corner == self.top_left_corner,
            parts.1.bottom_right_corner == self.bottom_right_corner,
            orientation == Orientation::Vertical ==> parts.0.bottom_right_corner == (UVec2 {
                x: (self.top_left_corner.x + split_point) as u32,
                y: self.bottom_right_corner.y,
            }) && parts.1.top_left_corner == (UVec2 {
                x: (self.top_left_corner.x + split_point + 1) as u32,
                y: self.top_left_corner.y,
            }),
            orientation == Orientation::Horizontal ==> parts.0.bottom_right_corner == (UVec2 {
                x: self.bottom_right_corner.x,
                y: (self.top_left_corner.y + split_point) as u32,
            }) && parts.1.top_left_corner == (UVec2 {
                x: self.top_left_corner.x,
                y: (self.top_left_corner.y + split_point + 1) as u32,
            }),
    {
        match orientation {
            Orientation::Vertical => {
                let tl_1 = self.top_left_corner;
                let br_1 = UVec2::new(tl_1.x + split_point, self.bottom_right_corner.y);
                let tl_2 = UVec2::new(tl_1.x + split_point + 1, self.top_left_corner.y);
                let br_2 = self.bottom_right_corner;
                (Self::from_corners(tl_1, br_1), Self::from_corners(tl_2, br_2))
            },
            Orientation::Horizontal => {
                let tl_1 = self.top_left_corner;
                let br_1 = UVec2::new(self.bottom_right_corner.x, tl_1.y + split_point);
                let tl_2 = UVec2::new(self.top_left_corner.x, tl_1.y + split_point + 1);
                let br_2 = self.bottom_right_corner;
                (Self::from_corners(tl_1, br_1), Self::from_corners(tl_2, br_2))
            },
        }
    }
}

} // verus!
