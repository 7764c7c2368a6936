//! A cursor that walks the cells of an area as strides through the buffer.
use crate::area::Area;
use vstd::arithmetic::div_mod::{
    lemma_fundamental_div_mod, lemma_fundamental_div_mod_converse, lemma_mod_pos_bound,
};
use vstd::prelude::*;

verus! {

/// Offset, in the buffer of a grid `grid_width` cells wide, from the first cell
/// of an area `cols` cells wide to its k-th cell in row-major order.
pub open spec fn cell_offset(grid_width: int, cols: int, k: int) -> int {
    (k / cols) * grid_width + k % cols
}

/// From one cell of an area to the next in row-major order the offset grows by
/// one, or, from the end of a row to the start of the next, by
/// `grid_width - cols + 1`.
pub proof fn lemma_offset_step(grid_width: int, cols: int, k: int)
    requires
        1 <= cols <= grid_width,
        0 <= k,
    ensures
        cell_offset(grid_width, cols, k + 1) - cell_offset(grid_width, cols, k) == if (k + 1) % cols
            == 0 {
            grid_width - cols + 1
        } else {
            1
        },
{
    lemma_fundamental_div_mod(k, cols);
    lemma_mod_pos_bound(k, cols);
    let q = k / cols;
    let c = k % cols;
    assert(k == q * cols + c) by (nonlinear_arith)
        requires k == cols * q + c;
    if c + 1 < cols {
        lemma_fundamental_div_mod_converse(k + 1, cols, q, c + 1);
    } else {
        assert(k + 1 == (q + 1) * cols + 0) by (nonlinear_arith)
            requires k == q * cols + c, c + 1 == cols;
        lemma_fundamental_div_mod_converse(k + 1, cols, q + 1, 0);
        assert((q + 1) * grid_width == q * grid_width + grid_width) by (nonlinear_arith);
    }
}

/// Offsets of later cells are larger.
pub proof fn lemma_offset_increasing(grid_width: int, cols: int, j: int, m: int)
    requires
        1 <= cols <= grid_width,
        0 <= j <= m,
    ensures
        cell_offset(grid_width, cols, j) + (m - j) <= cell_offset(grid_width, cols, m),
    decreases m - j,
{
    if j < m {
        lemma_offset_step(grid_width, cols, j);
        lemma_offset_increasing(grid_width, cols, j + 1, m);
    }
}

/// Walks the cells of an Area in row-major order as the distance, in buffer
/// positions, from each cell to the next.
pub struct StrideCursor {
    index: usize,
    area_width: usize,
    total_area: usize,
    delta_offset: usize,
}

impl StrideCursor {
    /// How many cells have been stepped past.
    pub closed spec fn produced(&self) -> int {
        self.index as int
    }

    /// Number of cells walked in all.
    pub closed spec fn total(&self) -> int {
        self.total_area as int
    }

    /// Width of the area walked.
    pub closed spec fn cols(&self) -> int {
        self.area_width as int
    }

    /// Width of the grid the strides are computed for.
    pub closed spec fn grid_width(&self) -> int {
        self.delta_offset + self.area_width - 1
    }

    /// The distance from the current cell to the next one, as `next_offset`
    /// gives it: 1 after the last cell.
    pub open spec fn next_step(&self) -> int {
        if self.produced() + 1 < self.total() && (self.produced() + 1) % self.cols() == 0 {
            self.grid_width() - self.cols() + 1
        } else {
            1
        }
    }

    /// The area fits the grid's width, and the counter has not passed the last cell.
    pub closed spec fn wf(&self) -> bool {
        &&& 1 <= self.area_width
        &&& 1 <= self.delta_offset
        &&& self.grid_width() <= usize::MAX
        &&& self.index <= self.total_area
    }

    /// A consistent cursor's area is no wider than its grid.
    pub proof fn lemma_bounds(&self)
        requires
            self.wf(),
        ensures
            1 <= self.cols() <= self.grid_width() <= usize::MAX,
            0 <= self.produced() <= self.total() <= usize::MAX,
    {
    }

    /// A cursor over `area` in a grid `grid_width` cells wide.
    pub fn new(grid_width: usize, area: Area) -> (r: Self)
        requires
            area.is_normalized(),
            area.cols() <= grid_width,
            area.cell_count() <= usize::MAX,
        ensures
            r.wf(),
            r.produced() == 0,
            r.total() == area.cell_count(),
            r.cols() == area.cols(),
            r.grid_width() == grid_width,
    {
        let area_width = area.width();
        let delta_offset = grid_width - area_width + 1;
        StrideCursor { index: 0, area_width, total_area: area.area(), delta_offset }
    }

    /// A cursor with no cell to walk.
    pub fn empty() -> (r: Self)
        ensures
            r.wf(),
            r.total() == 0,
            r.produced() == 0,
    {
        StrideCursor { index: 0, area_width: 1, total_area: 0, delta_offset: 1 }
    }

    /// Step past the current cell and return the distance to the next one
    /// (1 after the last cell).
    pub fn next_offset(&mut self) -> (r: usize)
        requires
            old(self).wf(),
            old(self).produced() < old(self).total(),
        ensures
            final(self).wf(),
            final(self).produced() == old(self).produced() + 1,
            final(self).total() == old(self).total(),
            final(self).cols() == old(self).cols(),
            final(self).grid_width() == old(self).grid_width(),
            r == old(self).next_step(),
    {
        self.index = self.index + 1;
        if self.index < self.total_area && self.index % self.area_width == 0 {
            self.delta_offset
        } else {
            1
        }
    }

    /// The number of cells not yet stepped past.
    pub fn remains(&self) -> (r: usize)
        requires
            self.wf(),
        ensures
            r == self.total() - self.produced(),
    {
        if self.total_area <= self.index {
            0
        } else {
            self.total_area - self.index
        }
    }
}

} // verus!
