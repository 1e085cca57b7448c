//! Dense 2D grids and the spatial searches that run on them.
//!
//! A [`Matrix`] stores its cells row by row and addresses them by position.
//! Around it stand the neighbour policies of a cell, the breadth-first
//! traversals, the weighted shortest-path search, and the small geometry
//! that they share: integer vectors, directions and rectangles.

pub mod analysis;
pub mod direction;
pub mod error;
pub mod frontier;
pub mod iterators;
pub mod matrix;
pub mod neighbours;
pub mod optimality;
pub mod pathfinding;
pub mod random;
pub mod rect;
pub mod scaling;
mod search_state;
pub mod transformations;
pub mod traversal;
pub mod vec2;
pub mod vec2_traits;
pub mod visited;

pub use direction::{Direction, Orientation};
pub use error::GridError;
pub use iterators::{MatrixIterator, MatrixMutIterator, MatrixPosIterator, MatrixPosMutIterator};
pub use matrix::Matrix;
pub use pathfinding::PathSearch;
pub use rect::Rect;
pub use scaling::MatrixScale;
pub use transformations::{Flip, MatrixRotation};
pub use vec2::{IVec2, UVec2};
pub use vec2_traits::{BoundsCheck, Distance, Neighbours, NeighboursChecked, Positions};
