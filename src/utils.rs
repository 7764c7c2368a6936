//! Conversions between a position in the linear buffer and (x, y) coordinates.
use vstd::arithmetic::div_mod::{
    lemma_fundamental_div_mod, lemma_fundamental_div_mod_converse, lemma_mod_pos_bound,
};
use vstd::arithmetic::mul::lemma_mul_inequality;
use vstd::prelude::*;

verus! {

/// Position in the linear buffer of the cell at column `x`, row `y` of a grid
/// `grid_width` cells wide.
pub open spec fn linear_index(x: int, y: int, grid_width: int) -> int {
    y * grid_width + x
}

/// Returns the buffer index of the cell (x, y) in a grid `grid_width` cells wide.
/// The result is not checked against any grid bound.
pub fn index_from_coord(x: usize, y: usize, grid_width: usize) -> (r: usize)
    requires
        linear_index(x as int, y as int, grid_width as int) <= usize::MAX,
    ensures
        r == linear_index(x as int, y as int, grid_width as int),
{
    y * grid_width + x
}

/// Returns the (x, y) coordinates of the buffer index `index` in a grid
/// `grid_width` cells wide.
pub fn coords_from_index(index: usize, grid_width: usize) -> (r: (usize, usize))
    requires
        grid_width > 0,
    ensures
        r == (index % grid_width, index / grid_width),
{
    (index % grid_width, index / grid_width)
}

/// In a `width` x `height` grid, turning a cell's coordinates into its index and
/// back gives the coordinates again; turning an index into coordinates gives a
/// cell of the grid, whose index is the one started from.
pub proof fn lemma_index_coords_round_trip(x: int, y: int, index: int, width: int, height: int)
    requires
        0 <= x < width,
        0 <= y < height,
        0 <= index < width * height,
    ensures
        linear_index(x, y, width) % width == x,
        linear_index(x, y, width) / width == y,
        0 <= index % width < width,
        0 <= index / width < height,
        linear_index(index % width, index / width, width) == index,
{
    lemma_fundamental_div_mod_converse(linear_index(x, y, width), width, y, x);
    lemma_fundamental_div_mod(index, width);
    lemma_mod_pos_bound(index, width);
    assert(index / width >= 0) by {
        vstd::arithmetic::div_mod::lemma_div_pos_is_pos(index, width);
    }
    if index / width >= height {
        lemma_mul_inequality(height, index / width, width);
        assert(width * (index / width) >= width * height) by (nonlinear_arith)
            requires height * width <= (index / width) * width;
    }
}

} // verus!
