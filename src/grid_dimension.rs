//! The size of a grid.
use crate::area::{lemma_cell_index_offset, lemma_rank_cell, min_of, Area};
use crate::stride_cursor::lemma_offset_increasing;
use crate::utils::{self, linear_index};
use vstd::arithmetic::div_mod::lemma_fundamental_div_mod;
use vstd::prelude::*;

verus! {

/// The width and height of a grid, with the conversions between a buffer
/// index and (x, y) coordinates.
#[derive(Debug, Default, Clone, Copy)]
pub struct GridDimension(usize, usize);

impl GridDimension {
    /// Number of columns.
    pub closed spec fn spec_width(&self) -> usize {
        self.0
    }

    /// Number of rows.
    pub closed spec fn spec_height(&self) -> usize {
        self.1
    }

    /// Number of cells.
    pub open spec fn cell_count(&self) -> int {
        self.spec_width() * self.spec_height()
    }

    /// What `rectify` makes of `area`: `None` where its top-left corner lies
    /// outside the grid, else the area with its right and bottom bounds
    /// clamped to the last column and row.
    pub open spec fn spec_rectify(&self, area: Area) -> Option<Area> {
        if area.left >= self.spec_width() || area.top >= self.spec_height() {
            None
        } else {
            Some(
                Area {
                    top: area.top,
                    left: area.left,
                    bottom: min_of(area.bottom as int, self.spec_height() - 1) as usize,
                    right: min_of(area.right as int, self.spec_width() - 1) as usize,
                },
            )
        }
    }

    /// Construct a new GridDimension.
    pub fn new(width: usize, height: usize) -> (r: Self)
        ensures
            r.spec_width() == width,
            r.spec_height() == height,
    {
        GridDimension(width, height)
    }

    /// Convert some (x, y) coord into an index.
    pub fn index_from_coord(&self, x: usize, y: usize) -> (r: usize)
        requires
            linear_index(x as int, y as int, self.spec_width() as int) <= usize::MAX,
        ensures
            r == linear_index(x as int, y as int, self.spec_width() as int),
    {
        utils::index_from_coord(x, y, self.0)
    }

    /// Convert an index into the corresponding coords in the grid.
    pub fn coords_from_index(&self, index: usize) -> (r: (usize, usize))
        requires
            self.spec_width() > 0,
        ensures
            r == (index % self.spec_width(), index / self.spec_width()),
    {
        utils::coords_from_index(index, self.0)
    }

    /// Return the number of cells in the grid.
    pub fn area(&self) -> (r: usize)
        requires
            self.cell_count() <= usize::MAX,
        ensures
            r == self.cell_count(),
    {
        self.0 * self.1
    }

    /// Return the width of the grid.
    #[verifier::when_used_as_spec(spec_width)]
    pub fn width(&self) -> (r: usize)
        ensures
            r == self.spec_width(),
    {
        self.0
    }

    /// Return the height of the grid.
    #[verifier::when_used_as_spec(spec_height)]
    pub fn height(&self) -> (r: usize)
        ensures
            r == self.spec_height(),
    {
        self.1
    }

    /// Clamp an Area so that an iteration over it cannot leave the grid.
    ///
    /// Returns `None` when the area's top-left corner lies outside the grid;
    /// otherwise the area with its right and bottom bounds brought down to
    /// the last column and row.
    pub fn rectify(&self, area: Area) -> (r: Option<Area>)
        ensures
            r == self.spec_rectify(area),
    {
        if area.left >= self.0 || area.top >= self.1 {
            return None;
        }
        let mut area = area;
        if area.right >= self.0 {
            area.right = self.0 - 1;
        }
        if area.bottom >= self.1 {
            area.bottom = self.1 - 1;
        }
        Some(area)
    }
}

impl From<(usize, usize)> for GridDimension {
    /// Construct a new GridDimension from a (width, height) pair.
    fn from(size: (usize, usize)) -> (r: Self) {
        let r = GridDimension::new(size.0, size.1);
        assert(r.spec_width() == size.0 && r.spec_height() == size.1);
        r
    }
}

impl vstd::std_specs::convert::FromSpecImpl<(usize, usize)> for GridDimension {
    open spec fn obeys_from_spec() -> bool {
        true
    }

    open spec fn from_spec(size: (usize, usize)) -> GridDimension {
        choose|d: GridDimension| d.spec_width() == size.0 && d.spec_height() == size.1
    }
}

/// The area spanning a whole grid of a non-empty dimension is kept whole by
/// `rectify`, has one cell per cell of the grid, and its k-th cell in
/// row-major order is the k-th element of the buffer.
pub proof fn lemma_full_area_row_major(dim: GridDimension)
    requires
        dim.spec_width() > 0,
        dim.spec_height() > 0,
    ensures
        dim.spec_rectify(Area::spec_full(dim)) == Some(Area::spec_full(dim)),
        Area::spec_full(dim).is_normalized(),
        Area::spec_full(dim).cols() == dim.spec_width(),
        Area::spec_full(dim).cell_count() == dim.cell_count(),
        Area::spec_full(dim).cell_index(dim.spec_width() as int, 0) == 0,
        linear_index(
            Area::spec_full(dim).right as int,
            Area::spec_full(dim).bottom as int,
            dim.spec_width() as int,
        ) + 1 == dim.cell_count(),
        forall|k: int|
            0 <= k < dim.cell_count() ==> #[trigger] Area::spec_full(dim).cell_index(
                dim.spec_width() as int,
                k,
            ) == k,
{
    let a = Area::spec_full(dim);
    let (w, h) = (dim.spec_width() as int, dim.spec_height() as int);
    assert(a.cell_count() == dim.cell_count()) by (nonlinear_arith)
        requires a.cell_count() == a.rows() * a.cols(), a.rows() == h, a.cols() == w,
            dim.cell_count() == w * h;
    assert((h - 1) * w + (w - 1) + 1 == w * h) by (nonlinear_arith);
    lemma_cell_index_offset(a, w, 0);
    assert forall|k: int| 0 <= k < dim.cell_count() implies #[trigger] a.cell_index(w, k) == k by {
        lemma_fundamental_div_mod(k, w);
        assert((k / w) * w == w * (k / w)) by (nonlinear_arith);
    }
}

/// `rectify` keeps exactly the cells of a normalized area that lie in the
/// grid: `None` when there is none, else an area inside the grid with the same
/// cells of the grid. Its cells in row-major order lie in it and in the buffer,
/// each cell of it once, at increasing buffer indices.
pub proof fn lemma_rectified_cells(dim: GridDimension, area: Area)
    requires
        area.is_normalized(),
    ensures
        dim.spec_rectify(area) is None ==> forall|x: int, y: int|
            0 <= x < dim.spec_width() && 0 <= y < dim.spec_height() ==> !#[trigger] area.contains(
                x,
                y,
            ),
        dim.spec_rectify(area) matches Some(a) ==> {
            &&& a.is_normalized()
            &&& a.right < dim.spec_width()
            &&& a.bottom < dim.spec_height()
            &&& a.cell_count() <= dim.cell_count()
            &&& linear_index(a.right as int, a.bottom as int, dim.spec_width() as int)
                < dim.cell_count()
            &&& forall|x: int, y: int|
                0 <= x < dim.spec_width() && 0 <= y < dim.spec_height() ==> (#[trigger] area.contains(
                    x,
                    y,
                ) <==> a.contains(x, y))
            &&& forall|k: int|
                0 <= k < a.cell_count() ==> #[trigger] a.contains(a.cell_x(k), a.cell_y(k))
            &&& forall|x: int, y: int| #[trigger]
                a.contains(x, y) ==> {
                    &&& 0 <= a.rank_of(x, y) < a.cell_count()
                    &&& a.cell_x(a.rank_of(x, y)) == x
                    &&& a.cell_y(a.rank_of(x, y)) == y
                }
            &&& forall|j: int, k: int|
                0 <= j < k < a.cell_count() ==> #[trigger] a.cell_index(dim.spec_width() as int, j)
                    < #[trigger] a.cell_index(dim.spec_width() as int, k)
            &&& forall|k: int|
                0 <= k < a.cell_count() ==> 0 <= #[trigger] a.cell_index(
                    dim.spec_width() as int,
                    k,
                ) < dim.cell_count()
        },
{
    let (w, h) = (dim.spec_width() as int, dim.spec_height() as int);
    if let Some(a) = dim.spec_rectify(area) {
        assert(a.bottom * w + a.right < w * h) by (nonlinear_arith)
            requires a.bottom < h, a.right < w, a.bottom >= 0;
        assert(a.cell_count() <= w * h) by (nonlinear_arith)
            requires a.cell_count() == a.rows() * a.cols(), 1 <= a.rows() <= h, 1 <= a.cols() <= w;
        assert forall|k: int| 0 <= k < a.cell_count() implies #[trigger] a.contains(
            a.cell_x(k),
            a.cell_y(k),
        ) by {
            lemma_rank_cell(a, k, 0, 0);
        }
        assert forall|x: int, y: int| #[trigger] a.contains(x, y) implies {
            &&& 0 <= a.rank_of(x, y) < a.cell_count()
            &&& a.cell_x(a.rank_of(x, y)) == x
            &&& a.cell_y(a.rank_of(x, y)) == y
        } by {
            lemma_rank_cell(a, 0, x, y);
        }
        assert forall|j: int, k: int| 0 <= j < k < a.cell_count() implies #[trigger] a.cell_index(
            w,
            j,
        ) < #[trigger] a.cell_index(w, k) by {
            lemma_cell_index_offset(a, w, j);
            lemma_cell_index_offset(a, w, k);
            lemma_offset_increasing(w, a.cols(), j, k);
        }
        assert forall|k: int| 0 <= k < a.cell_count() implies 0 <= #[trigger] a.cell_index(w, k)
            < w * h by {
            lemma_rank_cell(a, k, 0, 0);
            let (x, y) = (a.cell_x(k), a.cell_y(k));
            assert(0 <= y * w + x < w * h) by (nonlinear_arith)
                requires 0 <= x < w, 0 <= y < h;
        }
    }
}

} // verus!
