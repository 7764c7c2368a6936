//! Shared iteration over an area of a grid.
use crate::area::Area;
use crate::cursor::Cursor;
use crate::utils::linear_index;
use vstd::prelude::*;

verus! {

/// Rank, among the cells of `area` from the k-th on in row-major order, of the
/// first whose buffer index, in a grid `grid_width` cells wide, is not below
/// `len`; the number of cells of the area if there is none.
pub open spec fn first_outside(area: Area, grid_width: int, len: int, k: int) -> int
    decreases area.cell_count() - k,
{
    if k >= area.cell_count() || area.cell_index(grid_width, k) >= len {
        k
    } else {
        first_outside(area, grid_width, len, k + 1)
    }
}

/// The cells from the k-th up to `first_outside` lie in the buffer, and the
/// one at `first_outside`, if any, does not.
pub proof fn lemma_first_outside(area: Area, grid_width: int, len: int, k: int)
    requires
        0 <= k <= area.cell_count(),
    ensures
        k <= first_outside(area, grid_width, len, k) <= area.cell_count(),
        forall|j: int|
            k <= j < first_outside(area, grid_width, len, k) ==> #[trigger] area.cell_index(
                grid_width,
                j,
            ) < len,
        first_outside(area, grid_width, len, k) < area.cell_count() ==> area.cell_index(
            grid_width,
            first_outside(area, grid_width, len, k),
        ) >= len,
    decreases area.cell_count() - k,
{
    if k < area.cell_count() && area.cell_index(grid_width, k) < len {
        lemma_first_outside(area, grid_width, len, k + 1);
    }
}

/// When the last cell of a normalized area lies in the buffer, all of them do.
pub proof fn lemma_first_outside_none(area: Area, grid_width: int, len: int, k: int)
    requires
        area.is_normalized(),
        grid_width >= 0,
        0 <= k <= area.cell_count(),
        linear_index(area.right as int, area.bottom as int, grid_width) < len,
    ensures
        first_outside(area, grid_width, len, k) == area.cell_count(),
    decreases area.cell_count() - k,
{
    if k < area.cell_count() {
        crate::area::lemma_rank_cell(area, k, 0, 0);
        let (x, y) = (area.cell_x(k), area.cell_y(k));
        assert(y * grid_width + x <= area.bottom * grid_width + area.right) by (nonlinear_arith)
            requires y <= area.bottom, x <= area.right, grid_width >= 0;
        lemma_first_outside_none(area, grid_width, len, k + 1);
    }
}

/// Iterates, in row-major order, over shared references to the elements of a
/// buffer that lie in an area of the grid it holds. It ends at the first cell
/// whose index lies past the buffer.
pub struct Iter<'a, T> {
    inner: &'a [T],
    cursor: Cursor,
}

impl<'a, T> Iter<'a, T> {
    /// The elements still to be yielded, in order.
    pub closed spec fn remaining(&self) -> Seq<T> {
        let a = self.cursor.spec_area();
        let w = self.cursor.spec_grid_width() as int;
        let k = self.cursor.produced();
        Seq::new(
            (first_outside(a, w, self.inner@.len() as int, k) - k) as nat,
            |j: int| self.inner@[a.cell_index(w, k + j)],
        )
    }

    /// The cursor is consistent.
    pub closed spec fn wf(&self) -> bool {
        self.cursor.wf()
    }

    /// Construct an iterator over the cells of `area` in `inner`, a grid
    /// `grid_width` cells wide. It yields the cells in row-major order up to
    /// the first one whose index lies past `inner`: all of them when the
    /// area's last cell lies in `inner`.
    pub fn new(inner: &'a [T], grid_width: usize, area: Area) -> (r: Self)
        requires
            Cursor::fits(grid_width, area),
        ensures
            r.wf(),
            r.remaining() == Seq::new(
                first_outside(area, grid_width as int, inner@.len() as int, 0) as nat,
                |k: int| inner@[area.cell_index(grid_width as int, k)],
            ),
            r.remaining().len() <= area.cell_count(),
            forall|k: int|
                0 <= k < r.remaining().len() ==> #[trigger] area.cell_index(grid_width as int, k)
                    < inner@.len(),
            linear_index(area.right as int, area.bottom as int, grid_width as int) < inner@.len()
                ==> r.remaining() == area.values_in(inner@, grid_width as int),
    {
        let r = Iter { inner, cursor: Cursor::new(grid_width, area) };
        proof {
            lemma_first_outside(area, grid_width as int, inner@.len() as int, 0);
            assert(r.remaining() =~= Seq::new(
                first_outside(area, grid_width as int, inner@.len() as int, 0) as nat,
                |k: int| inner@[area.cell_index(grid_width as int, k)],
            ));
            if linear_index(area.right as int, area.bottom as int, grid_width as int)
                < inner@.len() {
                lemma_first_outside_none(area, grid_width as int, inner@.len() as int, 0);
                assert(r.remaining() =~= area.values_in(inner@, grid_width as int));
            }
        }
        r
    }

    /// An iterator that yields nothing.
    pub fn empty(inner: &'a [T]) -> (r: Self)
        ensures
            r.wf(),
            r.remaining() == Seq::<T>::empty(),
    {
        let r = Iter { inner, cursor: Cursor::exhausted() };
        proof {
            r.cursor.lemma_bounds();
        }
        assert(r.remaining() =~= Seq::<T>::empty());
        r
    }

    /// The next element, or `None` once every cell of the area has been
    /// yielded or a cell lies past the buffer.
    pub fn next(&mut self) -> (r: Option<&'a T>)
        requires
            old(self).wf(),
        ensures
            final(self).wf(),
            old(self).remaining().len() == 0 ==> r is None && final(self).remaining()
                == old(self).remaining(),
            old(self).remaining().len() > 0 ==> {
                &&& r is Some
                &&& *r.unwrap() == old(self).remaining()[0]
                &&& final(self).remaining() == old(self).remaining().drop_first()
            },
    {
        let ghost a = self.cursor.spec_area();
        let ghost w = self.cursor.spec_grid_width() as int;
        let ghost len = self.inner@.len() as int;
        proof {
            self.cursor.lemma_bounds();
            lemma_first_outside(a, w, len, self.cursor.produced());
        }
        let index = match self.cursor.next() {
            Some(index) => index,
            None => return None,
        };
        proof {
            let k = self.cursor.produced() - 1;
            crate::area::lemma_rank_cell(a, k, 0, 0);
            vstd::arithmetic::mul::lemma_mul_inequality(a.cell_y(k), a.bottom as int, w);
        }
        if index >= self.inner.len() {
            self.cursor = Cursor::exhausted();
            proof {
                self.cursor.lemma_bounds();
            }
            assert(self.remaining() =~= old(self).remaining());
            return None;
        }
        assert(self.remaining() =~= old(self).remaining().drop_first());
        Some(&self.inner[index])
    }
}

} // verus!
