//! Inclusive rectangles of grid coordinates.
use crate::grid_dimension::GridDimension;
use crate::utils::linear_index;
use vstd::arithmetic::div_mod::{lemma_fundamental_div_mod, lemma_fundamental_div_mod_converse};
use vstd::arithmetic::mul::lemma_mul_inequality;
use vstd::prelude::*;

verus! {

/// An inclusive rectangle of cells that bounds an iteration over a grid.
///
/// Built by [`Area::new`], its top-left corner never lies below or right of its
/// bottom-right corner.
#[derive(Default, Debug, PartialEq, Eq, Structural, Clone, Copy)]
pub struct Area {
    /// The area's top bound
    pub top: usize,
    /// The area's left bound
    pub left: usize,
    /// The area's bottom bound
    pub bottom: usize,
    /// The area's right bound
    pub right: usize,
}

/// The smaller of two integers.
pub open spec fn min_of(a: int, b: int) -> int {
    if a <= b { a } else { b }
}

/// The larger of two integers.
pub open spec fn max_of(a: int, b: int) -> int {
    if a <= b { b } else { a }
}

impl Area {
    /// The area spanned by two opposite corners, whatever their order.
    pub open spec fn spec_new(top: usize, left: usize, bottom: usize, right: usize) -> Area {
        Area {
            top: min_of(top as int, bottom as int) as usize,
            left: min_of(left as int, right as int) as usize,
            bottom: max_of(top as int, bottom as int) as usize,
            right: max_of(left as int, right as int) as usize,
        }
    }

    /// The top-left corner is not below or right of the bottom-right one.
    pub open spec fn is_normalized(&self) -> bool {
        self.top <= self.bottom && self.left <= self.right
    }

    /// Number of columns covered.
    pub open spec fn cols(&self) -> int {
        self.right - self.left + 1
    }

    /// Number of rows covered.
    pub open spec fn rows(&self) -> int {
        self.bottom - self.top + 1
    }

    /// Number of cells covered.
    pub open spec fn cell_count(&self) -> int {
        self.rows() * self.cols()
    }

    /// The cell (x, y) lies inside the area.
    pub open spec fn contains(&self, x: int, y: int) -> bool {
        self.left <= x <= self.right && self.top <= y <= self.bottom
    }

    /// Column of the k-th cell of the area, in row-major order.
    pub open spec fn cell_x(&self, k: int) -> int {
        self.left + k % self.cols()
    }

    /// Row of the k-th cell of the area, in row-major order.
    pub open spec fn cell_y(&self, k: int) -> int {
        self.top + k / self.cols()
    }

    /// Buffer index of the k-th cell of the area, in row-major order, in a
    /// grid `grid_width` cells wide.
    pub open spec fn cell_index(&self, grid_width: int, k: int) -> int {
        linear_index(self.cell_x(k), self.cell_y(k), grid_width)
    }

    /// Rank, in row-major order, of the cell (x, y) of the area.
    pub open spec fn rank_of(&self, x: int, y: int) -> int {
        (y - self.top) * self.cols() + (x - self.left)
    }

    /// The elements of `buf`, a grid `grid_width` cells wide, that lie in the
    /// area, in row-major order.
    pub open spec fn values_in<T>(&self, buf: Seq<T>, grid_width: int) -> Seq<T> {
        Seq::new(self.cell_count() as nat, |k: int| buf[self.cell_index(grid_width, k)])
    }

    /// Create a new area from two opposite corners, given in any order.
    ///
    /// The area created always has its top-left coordinates lower than or
    /// equal to its bottom-right ones: `Area::new(9, 9, 0, 0)` spans (0, 0) to (9, 9).
    pub fn new(top: usize, left: usize, bottom: usize, right: usize) -> (r: Self)
        ensures
            r == Area::spec_new(top, left, bottom, right),
            r.is_normalized(),
    {
        let mut top = top;
        let mut left = left;
        let mut bottom = bottom;
        let mut right = right;
        if top > bottom {
            let tmp = top;
            top = bottom;
            bottom = tmp;
        }
        if left > right {
            let tmp = left;
            left = right;
            right = tmp;
        }
        Area { top, left, bottom, right }
    }

    /// Return width of the Area.
    pub fn width(&self) -> (r: usize)
        requires
            self.left <= self.right,
            self.cols() <= usize::MAX,
        ensures
            r == self.cols(),
    {
        self.right - self.left + 1
    }

    /// Return height of the Area.
    pub fn height(&self) -> (r: usize)
        requires
            self.top <= self.bottom,
            self.rows() <= usize::MAX,
        ensures
            r == self.rows(),
    {
        self.bottom - self.top + 1
    }

    /// Return the number of elements covered by the Area, its width times its height.
    pub fn area(&self) -> (r: usize)
        requires
            self.is_normalized(),
            self.cell_count() <= usize::MAX,
        ensures
            r == self.cell_count(),
            r == self.cols() * self.rows(),
    {
        proof {
            assert(self.cols() <= self.cell_count()) by (nonlinear_arith)
                requires self.rows() >= 1, self.cols() >= 1, self.cell_count() == self.rows() * self.cols();
            assert(self.rows() <= self.cell_count()) by (nonlinear_arith)
                requires self.rows() >= 1, self.cols() >= 1, self.cell_count() == self.rows() * self.cols();
        }
        self.height() * self.width()
    }
}

/// Giving the two corners of an area in either order, along either axis, builds
/// the same area; its number of cells is its width times its height.
pub proof fn lemma_corner_order_commutes(top: usize, left: usize, bottom: usize, right: usize)
    ensures
        Area::spec_new(top, left, bottom, right) == Area::spec_new(bottom, left, top, right),
        Area::spec_new(top, left, bottom, right) == Area::spec_new(top, right, bottom, left),
        Area::spec_new(top, left, bottom, right) == Area::spec_new(bottom, right, top, left),
        Area::spec_new(top, left, bottom, right).is_normalized(),
        Area::spec_new(top, left, bottom, right).cell_count()
            == Area::spec_new(top, left, bottom, right).cols()
            * Area::spec_new(top, left, bottom, right).rows(),
{
    let a = Area::spec_new(top, left, bottom, right);
    assert(a.cell_count() == a.cols() * a.rows()) by (nonlinear_arith)
        requires a.cell_count() == a.rows() * a.cols();
}

/// The cells of a normalized area, taken in row-major order, are the cells it
/// contains, each once: the k-th cell lies in the area and has rank k, and a
/// cell of the area is the cell of its rank.
pub proof fn lemma_rank_cell(a: Area, k: int, x: int, y: int)
    requires
        a.is_normalized(),
    ensures
        0 <= k < a.cell_count() ==> a.contains(a.cell_x(k), a.cell_y(k)),
        0 <= k ==> a.rank_of(a.cell_x(k), a.cell_y(k)) == k,
        a.contains(x, y) ==> {
            &&& 0 <= a.rank_of(x, y) < a.cell_count()
            &&& a.cell_x(a.rank_of(x, y)) == x
            &&& a.cell_y(a.rank_of(x, y)) == y
        },
{
    let c = a.cols();
    if 0 <= k {
        lemma_fundamental_div_mod(k, c);
        vstd::arithmetic::div_mod::lemma_mod_pos_bound(k, c);
        vstd::arithmetic::div_mod::lemma_div_pos_is_pos(k, c);
        assert((k / c) * c == c * (k / c)) by (nonlinear_arith);
        if k < a.cell_count() {
            if k / c >= a.rows() {
                lemma_mul_inequality(a.rows(), k / c, c);
                assert(a.rows() * c == a.cell_count()) by (nonlinear_arith)
                    requires a.cell_count() == a.rows() * c;
            }
        }
    }
    if a.contains(x, y) {
        lemma_fundamental_div_mod_converse(a.rank_of(x, y), c, y - a.top, x - a.left);
        lemma_mul_inequality(y - a.top, a.rows() - 1, c);
        assert((a.rows() - 1) * c + c == a.cell_count()) by (nonlinear_arith)
            requires a.cell_count() == a.rows() * c;
        assert((y - a.top) * c >= 0) by (nonlinear_arith)
            requires y - a.top >= 0, c >= 1;
    }
}

/// The buffer index of a cell of the area is that of its first cell plus the
/// cell's row-major offset.
pub proof fn lemma_cell_index_offset(a: Area, grid_width: int, k: int)
    requires
        a.is_normalized(),
    ensures
        a.cell_index(grid_width, k) == a.cell_index(grid_width, 0)
            + crate::stride_cursor::cell_offset(grid_width, a.cols(), k),
        a.cell_index(grid_width, 0) == linear_index(a.left as int, a.top as int, grid_width),
{
    lemma_fundamental_div_mod_converse(0, a.cols(), 0, 0);
    assert((a.top + k / a.cols()) * grid_width == a.top * grid_width + (k / a.cols()) * grid_width)
        by (nonlinear_arith);
}

impl Area {
    /// The area spanning a whole grid of the given dimension.
    pub open spec fn spec_full(dim: GridDimension) -> Area {
        Area {
            top: 0,
            left: 0,
            bottom: if dim.spec_height() > 0 { (dim.spec_height() - 1) as usize } else { 0 },
            right: if dim.spec_width() > 0 { (dim.spec_width() - 1) as usize } else { 0 },
        }
    }
}

impl From<GridDimension> for Area {
    /// The Area covering the whole grid: (0, 0) to (width - 1, height - 1).
    /// For an empty dimension it is the single cell at the origin, which
    /// `GridDimension::rectify` rejects.
    fn from(dim: GridDimension) -> (r: Self) {
        let height = dim.height();
        let width = dim.width();
        Area {
            top: 0,
            left: 0,
            bottom: if height > 0 { height - 1 } else { 0 },
            right: if width > 0 { width - 1 } else { 0 },
        }
    }
}

impl vstd::std_specs::convert::FromSpecImpl<GridDimension> for Area {
    open spec fn obeys_from_spec() -> bool {
        true
    }

    open spec fn from_spec(dim: GridDimension) -> Area {
        Area::spec_full(dim)
    }
}

} // verus!
