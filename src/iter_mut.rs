//! Exclusive iteration over an area of a grid.
use crate::area::Area;
use crate::stride_cursor::{cell_offset, lemma_offset_increasing, lemma_offset_step, StrideCursor};
use crate::utils::linear_index;
use vstd::arithmetic::div_mod::{
    lemma_fundamental_div_mod, lemma_fundamental_div_mod_converse, lemma_mod_pos_bound,
};
use vstd::prelude::*;

verus! {

/// What `window`, the part of a grid's buffer from the k-th cell of an area
/// `cols` cells wide on, holds once the cells of the area from the k-th on are
/// given `vals` in row-major order, and nothing else in it is written.
pub open spec fn window_written<T>(
    window: Seq<T>,
    grid_width: int,
    cols: int,
    k: int,
    vals: Seq<T>,
) -> Seq<T> {
    Seq::new(
        window.len(),
        |i: int|
            {
                let p = cell_offset(grid_width, cols, k) + i;
                if p % grid_width < cols {
                    vals[(p / grid_width) * cols + p % grid_width - k]
                } else {
                    window[i]
                }
            },
    )
}

/// A position of the buffer at a row-major offset with a column below `cols`
/// is the cell of the area of the rank that the offset gives.
proof fn lemma_offset_rank(grid_width: int, cols: int, p: int)
    requires
        1 <= cols <= grid_width,
        0 <= p,
        p % grid_width < cols,
    ensures
        cell_offset(grid_width, cols, (p / grid_width) * cols + p % grid_width) == p,
        0 <= (p / grid_width) * cols + p % grid_width,
{
    lemma_fundamental_div_mod(p, grid_width);
    lemma_mod_pos_bound(p, grid_width);
    vstd::arithmetic::div_mod::lemma_div_pos_is_pos(p, grid_width);
    let r = (p / grid_width) * cols + p % grid_width;
    lemma_fundamental_div_mod_converse(r, cols, p / grid_width, p % grid_width);
    assert(grid_width * (p / grid_width) == (p / grid_width) * grid_width) by (nonlinear_arith);
    assert((p / grid_width) * cols >= 0) by (nonlinear_arith)
        requires p / grid_width >= 0, cols >= 1;
}

/// Iterates, in row-major order, over exclusive references to the elements of
/// a buffer that lie in an area of the grid it holds.
///
/// The iterator keeps only the part of the buffer from the next cell to the
/// last one; each step splits off the element it yields together with the
/// cells up to the next one, so no element can be reached twice. Exhaustion is
/// decided by the count of cells left, which is also right for zero-sized
/// elements.
pub struct IterMut<'a, T> {
    rest: Option<&'a mut [T]>,
    cursor: StrideCursor,
}

impl<'a, T> IterMut<'a, T> {
    /// The part of the buffer still held: from the next cell to yield to the last one.
    pub closed spec fn rest(&self) -> &'a mut [T] {
        self.rest.unwrap()
    }

    /// How many elements have been yielded.
    pub closed spec fn produced(&self) -> int {
        self.cursor.produced()
    }

    /// How many elements are yielded in all.
    pub closed spec fn total(&self) -> int {
        self.cursor.total()
    }

    /// Width of the area walked.
    pub closed spec fn cols(&self) -> int {
        self.cursor.cols()
    }

    /// Width of the grid the buffer holds.
    pub closed spec fn grid_width(&self) -> int {
        self.cursor.grid_width()
    }

    /// How many elements are still to be yielded.
    pub open spec fn remaining_count(&self) -> int {
        self.total() - self.produced()
    }

    /// Where, in `rest()`, the j-th element still to be yielded lies.
    pub open spec fn offset_in_rest(&self, j: int) -> int {
        cell_offset(self.grid_width(), self.cols(), self.produced() + j) - cell_offset(
            self.grid_width(),
            self.cols(),
            self.produced(),
        )
    }

    /// How many elements of `rest()` the next step gives up: the one yielded and
    /// those before the next cell.
    pub open spec fn next_step(&self) -> int {
        if self.produced() + 1 < self.total() && (self.produced() + 1) % self.cols() == 0 {
            self.grid_width() - self.cols() + 1
        } else {
            1
        }
    }

    /// `rest()` runs from the next cell to yield to the last cell of the area.
    pub closed spec fn wf(&self) -> bool {
        &&& self.rest is Some
        &&& self.cursor.wf()
        &&& self.rest()@.len() == if self.produced() < self.total() {
            cell_offset(self.grid_width(), self.cols(), self.total() - 1) + 1 - cell_offset(
                self.grid_width(),
                self.cols(),
                self.produced(),
            )
        } else {
            0
        }
    }

    /// In a consistent iterator every element still to be yielded lies in
    /// `rest()`, the first at its start, and the next step stays within it.
    pub proof fn lemma_bounds(&self)
        requires
            self.wf(),
        ensures
            1 <= self.cols() <= self.grid_width(),
            0 <= self.produced() <= self.total(),
            self.remaining_count() == 0 <==> self.rest()@.len() == 0,
            self.remaining_count() > 0 ==> 1 <= self.next_step() <= self.rest()@.len(),
            forall|j: int|
                0 <= j < self.remaining_count() ==> 0 <= #[trigger] self.offset_in_rest(j)
                    < self.rest()@.len(),
    {
        self.cursor.lemma_bounds();
        let (w, c, k, n) = (self.grid_width(), self.cols(), self.produced(), self.total());
        if k < n {
            lemma_offset_increasing(w, c, k, n - 1);
            lemma_offset_step(w, c, k);
            if k + 1 < n {
                lemma_offset_increasing(w, c, k + 1, n - 1);
            }
            assert forall|j: int| 0 <= j < self.remaining_count() implies 0
                <= #[trigger] self.offset_in_rest(j) < self.rest()@.len() by {
                lemma_offset_increasing(w, c, k, k + j);
                lemma_offset_increasing(w, c, k + j, n - 1);
            }
        }
    }

    /// What `rest()` holds in the end if the elements still to be yielded are
    /// left holding `vals`, in order, and nothing else is written.
    pub open spec fn written_rest(&self, vals: Seq<T>) -> Seq<T> {
        window_written(self.rest()@, self.grid_width(), self.cols(), self.produced(), vals)
    }

    /// One step of `next` keeps `written_rest` consistent: leaving `vals[0]`
    /// in the element yielded and `vals[1..]` in those after it fills `rest()`
    /// as leaving all of `vals` in the elements still to be yielded before the
    /// step.
    pub proof fn lemma_written_step(a: Self, b: Self, vals: Seq<T>)
        requires
            a.wf(),
            a.remaining_count() > 0,
            b.produced() == a.produced() + 1,
            b.total() == a.total(),
            b.cols() == a.cols(),
            b.grid_width() == a.grid_width(),
            b.rest()@ == a.rest()@.subrange(a.next_step(), a.rest()@.len() as int),
            vals.len() == a.remaining_count(),
        ensures
            a.written_rest(vals) == a.rest()@.subrange(0, a.next_step()).update(0, vals[0])
                + b.written_rest(vals.drop_first()),
    {
        a.lemma_bounds();
        let (w, c, k, n) = (a.grid_width(), a.cols(), a.produced(), a.total());
        let step = a.next_step();
        let base = cell_offset(w, c, k);
        let lhs = a.written_rest(vals);
        let rhs = a.rest()@.subrange(0, step).update(0, vals[0]) + b.written_rest(
            vals.drop_first(),
        );
        lemma_offset_step(w, c, k);
        lemma_fundamental_div_mod(k, c);
        lemma_mod_pos_bound(k, c);
        vstd::arithmetic::div_mod::lemma_div_pos_is_pos(k, c);
        assert(base == (k / c) * w + k % c);
        lemma_fundamental_div_mod_converse(base, w, k / c, k % c);
        assert(c * (k / c) == (k / c) * c) by (nonlinear_arith);
        if step > 1 {
            if k % c + 1 < c {
                lemma_fundamental_div_mod_converse(k + 1, c, k / c, k % c + 1);
            }
        }
        if k + 1 < n {
            lemma_offset_increasing(w, c, k + 1, n - 1);
        }
        assert forall|i: int| 0 <= i < lhs.len() implies lhs[i] == rhs[i] by {
            let p = base + i;
            if i == 0 {
            } else if i < step {
                assert(k % c == c - 1);
                lemma_fundamental_div_mod_converse(p, w, k / c, k % c + i);
            } else {
                assert(k + 1 < n);
                if p % w < c {
                    lemma_offset_rank(w, c, p);
                    let r = (p / w) * c + p % w;
                    if r <= k {
                        lemma_offset_increasing(w, c, r, k);
                    }
                    if r >= n {
                        lemma_offset_increasing(w, c, n - 1, r);
                    }
                }
            }
        }
        assert(lhs =~= rhs);
    }

    /// Once every element has been yielded, `rest()` is empty and holds what
    /// it is left with.
    pub proof fn lemma_written_done(&self, vals: Seq<T>)
        requires
            self.wf(),
            self.remaining_count() == 0,
        ensures
            self.written_rest(vals) == self.rest()@,
            self.rest()@.len() == 0,
    {
        self.lemma_bounds();
        assert(self.written_rest(vals) =~= self.rest()@);
    }

    /// Ends the iteration. The elements still held are left as they are, so
    /// a caller learns what the buffer holds in the end.
    pub fn finish(self)
        requires
            self.wf(),
        ensures
            final(self.rest())@ == self.rest()@,
    {
        let _rest = self.rest;
    }

    /// Creates an iterator over the cells of `area` in `slice`, a grid
    /// `grid_width` cells wide. The area must lie in the grid: its last cell
    /// must be inside the slice.
    pub fn new(slice: &'a mut [T], grid_width: usize, area: Area) -> (r: Self)
        requires
            area.is_normalized(),
            area.right < grid_width,
            linear_index(area.right as int, area.bottom as int, grid_width as int) < old(
                slice,
            )@.len(),
        ensures
            r.wf(),
            r.produced() == 0,
            r.total() == area.cell_count(),
            r.cols() == area.cols(),
            r.grid_width() == grid_width,
            r.rest()@ == old(slice)@.subrange(
                area.cell_index(grid_width as int, 0),
                linear_index(area.right as int, area.bottom as int, grid_width as int) + 1,
            ),
            final(slice)@ == old(slice)@.subrange(0, area.cell_index(grid_width as int, 0))
                + final(r.rest())@ + old(slice)@.subrange(
                linear_index(area.right as int, area.bottom as int, grid_width as int) + 1,
                old(slice)@.len() as int,
            ),
    {
        let ghost (w, c, n) = (grid_width as int, area.cols(), area.cell_count());
        proof {
            vstd::slice::axiom_spec_len(&*slice);
            assert(area.top * w <= area.bottom * w) by (nonlinear_arith)
                requires area.top <= area.bottom, w >= 0;
            assert(n - 1 == (area.rows() - 1) * c + (c - 1)) by (nonlinear_arith)
                requires n == area.rows() * c;
            lemma_fundamental_div_mod_converse(n - 1, c, area.rows() - 1, c - 1);
            assert(cell_offset(w, c, n - 1) + area.top * w + area.left == area.bottom * w + area.right)
                by (nonlinear_arith)
                requires
                    cell_offset(w, c, n - 1) == (area.rows() - 1) * w + (c - 1),
                    area.rows() == area.bottom - area.top + 1,
                    c == area.right - area.left + 1,
            ;
            lemma_offset_increasing(w, c, 0, n - 1);
            lemma_fundamental_div_mod_converse(0, c, 0, 0);
        }
        let start = area.top * grid_width + area.left;
        let end = area.bottom * grid_width + area.right + 1;
        let (_, tail) = slice.split_at_mut(start);
        let (window, _) = tail.split_at_mut(end - start);
        IterMut { rest: Some(window), cursor: StrideCursor::new(grid_width, area) }
    }

    /// An iterator that yields nothing. It keeps an empty part of `slice`.
    pub fn empty(slice: &'a mut [T]) -> (r: Self)
        ensures
            r.wf(),
            r.produced() == 0,
            r.total() == 0,
            r.rest()@.len() == 0,
            final(slice)@ == final(r.rest())@ + old(slice)@,
    {
        let (window, _) = slice.split_at_mut(0);
        IterMut { rest: Some(window), cursor: StrideCursor::empty() }
    }

    /// The next element, or `None` once every cell of the area has been yielded.
    ///
    /// The element is the first of `rest()`; the next `next_step()` elements
    /// of `rest()` are given up, and whatever the caller leaves in the element
    /// is what the buffer holds there in the end.
    pub fn next(&mut self) -> (r: Option<&'a mut T>)
        requires
            old(self).wf(),
        ensures
            final(self).wf(),
            final(self).total() == old(self).total(),
            final(self).cols() == old(self).cols(),
            final(self).grid_width() == old(self).grid_width(),
            old(self).remaining_count() == 0 ==> r is None && *final(self) == *old(self),
            old(self).remaining_count() > 0 ==> {
                &&& r is Some
                &&& final(self).produced() == old(self).produced() + 1
                &&& old(self).remaining_count() > 1 ==> old(self).next_step()
                    == old(self).offset_in_rest(1)
                &&& *r.unwrap() == old(self).rest()@[0]
                &&& final(self).rest()@ == old(self).rest()@.subrange(
                    old(self).next_step(),
                    old(self).rest()@.len() as int,
                )
                &&& final(old(self).rest())@ == old(self).rest()@.subrange(
                    0,
                    old(self).next_step(),
                ).update(0, *final(r.unwrap())) + final(final(self).rest())@
            },
    {
        proof {
            self.lemma_bounds();
        }
        if self.cursor.remains() == 0 {
            return None;
        }
        proof {
            let (w, c, k, n) = (self.grid_width(), self.cols(), self.produced(), self.total());
            lemma_offset_step(w, c, k);
            assert(self.offset_in_rest(1) == cell_offset(w, c, k + 1) - cell_offset(w, c, k));
        }
        let step = self.cursor.next_offset();
        let rest = self.rest.take().unwrap();
        let (head, tail) = rest.split_at_mut(step);
        self.rest = Some(tail);
        head.first_mut()
    }

    /// The number of elements still to be yielded, exactly.
    pub fn len(&self) -> (r: usize)
        requires
            self.wf(),
        ensures
            r == self.remaining_count(),
    {
        self.cursor.remains()
    }

    /// Whether every element has been yielded.
    pub fn is_empty(&self) -> (r: bool)
        requires
            self.wf(),
        ensures
            r == (self.remaining_count() == 0),
    {
        self.cursor.remains() == 0
    }
}

} // verus!
