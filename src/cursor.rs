//! A cursor that walks the cells of an area in row-major order by coordinates.
use crate::area::{lemma_rank_cell, Area};
use crate::utils::{self, linear_index};
use vstd::arithmetic::mul::lemma_mul_inequality;
use vstd::prelude::*;

verus! {

/// Walks the cells of an Area in row-major order and gives the buffer index
/// of each, in a grid of a known width.
pub struct Cursor {
    grid_width: usize,
    area: Area,
    cursor: (usize, usize),
}

impl Cursor {
    /// An area that a cursor can walk in a grid `grid_width` cells wide:
    /// normalized, with every index it yields, and the row after its last,
    /// representable as a `usize`.
    pub open spec fn fits(grid_width: usize, area: Area) -> bool {
        &&& area.is_normalized()
        &&& area.bottom < usize::MAX
        &&& linear_index(area.right as int, area.bottom as int, grid_width as int) <= usize::MAX
    }

    /// The area walked.
    pub closed spec fn spec_area(&self) -> Area {
        self.area
    }

    /// The width of the grid the indices are computed for.
    pub closed spec fn spec_grid_width(&self) -> usize {
        self.grid_width
    }

    /// How many cells have been walked past.
    pub closed spec fn produced(&self) -> int {
        self.area.rank_of(self.cursor.0 as int, self.cursor.1 as int)
    }

    /// How many cells are left to walk.
    pub open spec fn remaining_count(&self) -> int {
        self.spec_area().cell_count() - self.produced()
    }

    /// The cursor stands on a cell of its area, or just past the last row.
    pub closed spec fn wf(&self) -> bool {
        &&& Cursor::fits(self.grid_width, self.area)
        &&& self.area.left <= self.cursor.0 <= self.area.right
        &&& self.area.top <= self.cursor.1 <= self.area.bottom + 1
        &&& self.cursor.1 == self.area.bottom + 1 ==> self.cursor.0 == self.area.left
    }

    proof fn lemma_wf(&self)
        requires
            self.wf(),
        ensures
            0 <= self.produced() <= self.spec_area().cell_count(),
            self.area.bottom < usize::MAX,
            self.produced() < self.spec_area().cell_count() <==> self.cursor.1 <= self.area.bottom,
            self.cursor.1 > self.area.bottom ==> self.cursor == (
                self.area.left,
                (self.area.bottom + 1) as usize,
            ),
            self.cursor.1 <= self.area.bottom ==> {
                &&& self.area.cell_x(self.produced()) == self.cursor.0
                &&& self.area.cell_y(self.produced()) == self.cursor.1
                &&& linear_index(self.cursor.0 as int, self.cursor.1 as int, self.grid_width as int)
                    <= usize::MAX
            },
    {
        let a = self.area;
        let (x, y) = (self.cursor.0 as int, self.cursor.1 as int);
        if y <= a.bottom {
            lemma_rank_cell(a, 0, x, y);
            lemma_mul_inequality(y, a.bottom as int, self.grid_width as int);
        } else {
            assert(self.produced() == a.cell_count()) by (nonlinear_arith)
                requires
                    self.produced() == (y - a.top) * a.cols() + (x - a.left),
                    x == a.left,
                    y - a.top == a.rows(),
                    a.cell_count() == a.rows() * a.cols(),
            ;
        }
    }

    /// A consistent cursor walks an area that fits its grid, and has walked
    /// past at most every cell of it.
    pub proof fn lemma_bounds(&self)
        requires
            self.wf(),
        ensures
            Cursor::fits(self.spec_grid_width(), self.spec_area()),
            0 <= self.produced() <= self.spec_area().cell_count(),
    {
        self.lemma_wf();
    }

    /// Create a cursor over an Area, standing on its top-left cell. To compute
    /// indices it needs the width of the grid.
    pub fn new(grid_width: usize, area: Area) -> (r: Self)
        requires
            Cursor::fits(grid_width, area),
        ensures
            r.wf(),
            r.spec_area() == area,
            r.spec_grid_width() == grid_width,
            r.produced() == 0,
    {
        Cursor { grid_width, area, cursor: (area.left, area.top) }
    }

    /// A cursor with no cell left to walk.
    pub fn exhausted() -> (r: Self)
        ensures
            r.wf(),
            r.remaining_count() == 0,
    {
        let area = Area { top: 0, left: 0, bottom: 0, right: 0 };
        Cursor { grid_width: 1, area, cursor: (0, 1) }
    }

    /// The (x, y) coordinates the cursor stands on.
    pub fn position(&self) -> (r: (usize, usize))
        requires
            self.wf(),
        ensures
            self.remaining_count() > 0 ==> r == (
                self.spec_area().cell_x(self.produced()) as usize,
                self.spec_area().cell_y(self.produced()) as usize,
            ),
            self.remaining_count() <= 0 ==> r == (
                self.spec_area().left,
                (self.spec_area().bottom + 1) as usize,
            ),
    {
        proof {
            self.lemma_wf();
        }
        self.cursor
    }

    /// The buffer index of the cell the cursor stands on, or `None` once every
    /// cell has been walked.
    pub fn index(&self) -> (r: Option<usize>)
        requires
            self.wf(),
        ensures
            self.remaining_count() > 0 ==> r == Some(
                self.spec_area().cell_index(self.spec_grid_width() as int, self.produced()) as usize,
            ),
            self.remaining_count() <= 0 ==> r is None,
    {
        proof {
            self.lemma_wf();
        }
        if self.cursor.1 <= self.area.bottom {
            Some(self.index_unchecked())
        } else {
            None
        }
    }

    /// The buffer index of the cell the cursor stands on; the cursor must not
    /// be past its last cell.
    pub fn index_unchecked(&self) -> (r: usize)
        requires
            self.wf(),
            self.remaining_count() > 0,
        ensures
            r == self.spec_area().cell_index(self.spec_grid_width() as int, self.produced()),
    {
        proof {
            self.lemma_wf();
        }
        utils::index_from_coord(self.cursor.0, self.cursor.1, self.grid_width)
    }

    /// The buffer index of the next cell in row-major order, moving the cursor
    /// past it; `None` once every cell has been walked.
    pub fn next(&mut self) -> (r: Option<usize>)
        requires
            old(self).wf(),
        ensures
            final(self).wf(),
            final(self).spec_area() == old(self).spec_area(),
            final(self).spec_grid_width() == old(self).spec_grid_width(),
            old(self).remaining_count() > 0 ==> {
                &&& r == Some(
                    old(self).spec_area().cell_index(
                        old(self).spec_grid_width() as int,
                        old(self).produced(),
                    ) as usize,
                )
                &&& final(self).produced() == old(self).produced() + 1
            },
            old(self).remaining_count() <= 0 ==> r is None && final(self).produced()
                == old(self).produced(),
    {
        proof {
            self.lemma_wf();
        }
        if self.cursor.1 > self.area.bottom {
            return None;
        }
        let index = self.index_unchecked();
        let ghost (x, y) = (self.cursor.0 as int, self.cursor.1 as int);
        let ghost a = self.area;
        if self.cursor.0 >= self.area.right {
            self.cursor.0 = self.area.left;
            self.cursor.1 = self.cursor.1 + 1;
            assert(self.produced() == a.rank_of(x, y) + 1) by (nonlinear_arith)
                requires
                    self.produced() == (y + 1 - a.top) * a.cols(),
                    a.rank_of(x, y) == (y - a.top) * a.cols() + (x - a.left),
                    x == a.right,
                    a.cols() == a.right - a.left + 1,
            ;
        } else {
            self.cursor.0 = self.cursor.0 + 1;
        }
        Some(index)
    }
}

} // verus!
