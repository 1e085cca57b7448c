//! The failures that grid operations report.

use vstd::prelude::*;

verus! {

/// Why a grid operation was rejected.
#[derive(Clone, Copy, Debug, PartialEq, Eq, Structural)]
pub enum GridError {
    /// The values handed to a constructor do not fill the declared size.
    Construction,
    /// A position or index lies outside the grid.
    OutOfBounds,
    /// A parameter of a transformation is not usable, such as a scale factor
    /// that is not a power of two.
    Configuration,
}

} // verus!
