//! Integer 2D vectors: unsigned ones address grid cells, signed ones are
//! offsets between cells.

use vstd::prelude::*;

verus! {

/// A pair of unsigned coordinates: a cell position or a grid size.
#[derive(Clone, Copy, Debug, PartialEq, Eq, Hash, Structural)]
pub struct UVec2 {
    pub x: u32,
    pub y: u32,
}

/// A pair of signed coordinates: an offset between two cells.
#[derive(Clone, Copy, Debug, PartialEq, Eq, Hash, Structural)]
pub struct IVec2 {
    pub x: i32,
    pub y: i32,
}

impl UVec2 {
    /// The vector `(x, y)`.
    pub fn new(x: u32, y: u32) -> (v: Self)
        ensures
            v == (UVec2 { x, y }),
    {
        UVec2 { x, y }
    }

    /// The vector with both coordinates equal to `v`.
    pub fn splat(v: u32) -> (r: Self)
        ensures
            r == (UVec2 { x: v, y: v }),
    {
        UVec2 { x: v, y: v }
    }

    /// The number of cells of a grid of this size.
    pub open spec fn area(self) -> nat {
        (self.x * self.y) as nat
    }

    /// `x * y`, for sizes whose cell count fits in `u32`.
    pub fn element_product(self) -> (p: u32)
        requires
            self.area() <= u32::MAX,
        ensures
            p == self.area(),
    {
        self.x * self.y
    }

    /// The smaller coordinate.
    pub fn min_element(self) -> (m: u32)
        ensures
            m == if self.x <= self.y { self.x } else { self.y },
    {
        if self.x <= self.y { self.x } else { self.y }
    }

    /// The larger coordinate.
    pub fn max_element(self) -> (m: u32)
        ensures
            m == if self.x >= self.y { self.x } else { self.y },
    {
        if self.x >= self.y { self.x } else { self.y }
    }
}

impl IVec2 {
    /// The vector `(x, y)`.
    pub fn new(x: i32, y: i32) -> (v: Self)
        ensures
            v == (IVec2 { x, y }),
    {
        IVec2 { x, y }
    }

    /// The vector with both coordinates equal to `v`.
    pub fn splat(v: i32) -> (r: Self)
        ensures
            r == (IVec2 { x: v, y: v }),
    {
        IVec2 { x: v, y: v }
    }

    /// The smaller coordinate.
    pub fn min_element(self) -> (m: i32)
        ensures
            m == if self.x <= self.y { self.x } else { self.y },
    {
        if self.x <= self.y { self.x } else { self.y }
    }

    /// The larger coordinate.
    pub fn max_element(self) -> (m: i32)
        ensures
            m == if self.x >= self.y { self.x } else { self.y },
    {
        if self.x >= self.y { self.x } else { self.y }
    }
}

} // verus!
