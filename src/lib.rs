//! A grid is a dense two-dimensional array kept in one linear buffer, with
//! shared and exclusive iteration over any rectangular part of it.
use vstd::prelude::*;

pub mod area;
pub mod cursor;
pub mod grid;
pub mod grid_dimension;
pub mod iter;
pub mod iter_mut;
pub mod stride_cursor;
pub mod utils;

pub use crate::area::Area;
pub use crate::grid::Grid;
pub use crate::grid_dimension::GridDimension;
pub use crate::iter::Iter;
pub use crate::iter_mut::IterMut;
pub use crate::utils::{coords_from_index, index_from_coord};

verus! {

} // verus!
