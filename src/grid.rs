//! The grid: a linear buffer seen as a two-dimensional array.
use crate::area::{lemma_cell_index_offset, Area};
use crate::grid_dimension::{lemma_full_area_row_major, lemma_rectified_cells, GridDimension};
use crate::iter::Iter;
use crate::iter_mut::{window_written, IterMut};
use crate::utils::linear_index;
use vstd::arithmetic::div_mod::{lemma_fundamental_div_mod, lemma_fundamental_div_mod_converse};
use vstd::prelude::*;

verus! {

/// A wrapper over a 1D array that acts like a 2D array.
///
/// The horizontal axis, the width, is reached by the `x` coordinate; the
/// vertical axis, the height, by the `y` coordinate. The cell (x, y) is kept
/// at index `y * width + x` of the buffer, so rows follow each other.
pub struct Grid<T> {
    inner: Vec<T>,
    dim: GridDimension,
}

impl<T> View for Grid<T> {
    type V = Seq<T>;

    /// The buffer, row after row.
    closed spec fn view(&self) -> Seq<T> {
        self.inner@
    }
}

impl<T> Grid<T> {
    /// The grid's size.
    pub closed spec fn dimension(&self) -> GridDimension {
        self.dim
    }

    /// Number of columns.
    pub open spec fn width(&self) -> int {
        self.dimension().spec_width() as int
    }

    /// Number of rows.
    pub open spec fn height(&self) -> int {
        self.dimension().spec_height() as int
    }

    /// The buffer holds exactly one element per cell.
    pub open spec fn wf(&self) -> bool {
        self@.len() == self.width() * self.height()
    }
}

impl<T: Default + Clone> Grid<T> {
    /// Every element of the grid is a clone of `val`.
    pub open spec fn filled_with(&self, val: T) -> bool {
        forall|i: int| 0 <= i < self@.len() ==> cloned(val, #[trigger] self@[i])
    }

    /// Construct a new grid with given width and height, filled with default values.
    pub fn new_with_default(width: usize, height: usize) -> (r: Self)
        requires
            width * height <= usize::MAX,
        ensures
            r.wf(),
            r.width() == width,
            r.height() == height,
            exists|d: T| call_ensures(T::default, (), d) && #[trigger] r.filled_with(d),
    {
        let d = T::default();
        let ghost g = d;
        let r = Self::new_filled(width, height, d);
        assert(r.filled_with(g));
        r
    }

    /// Construct a new square grid with given side length, filled with default values.
    pub fn new_square_with_default(length: usize) -> (r: Self)
        requires
            length * length <= usize::MAX,
        ensures
            r.wf(),
            r.width() == length,
            r.height() == length,
            exists|d: T| call_ensures(T::default, (), d) && #[trigger] r.filled_with(d),
    {
        Self::new_with_default(length, length)
    }

    /// Construct a new grid with given width and height, filled with clones of `val`.
    pub fn new_filled(width: usize, height: usize, val: T) -> (r: Self)
        requires
            width * height <= usize::MAX,
        ensures
            r.wf(),
            r.width() == width,
            r.height() == height,
            r.filled_with(val),
    {
        let inner = vec![val; width * height];
        Grid { inner, dim: GridDimension::new(width, height) }
    }

    /// Construct a new square grid with given side length, filled with clones of `val`.
    pub fn new_square_filled(length: usize, val: T) -> (r: Self)
        requires
            length * length <= usize::MAX,
        ensures
            r.wf(),
            r.width() == length,
            r.height() == length,
            r.filled_with(val),
    {
        Self::new_filled(length, length, val)
    }
}

impl<T> Grid<T> {
    /// Creates a Grid from a Vec, `grid_width` cells wide.
    ///
    /// Returns `Some(Grid)`, as high as the Vec holds rows, if the Vec's length
    /// is a multiple of a non-zero `grid_width`; `None` otherwise.
    pub fn try_from_vec(array: Vec<T>, grid_width: usize) -> (r: Option<Self>)
        ensures
            r is Some <==> grid_width > 0 && (array@.len() as int) % (grid_width as int) == 0,
            r matches Some(g) ==> {
                &&& g.wf()
                &&& g@ == array@
                &&& g.width() == grid_width
                &&& g.height() == (array@.len() as int) / (grid_width as int)
            },
    {
        if grid_width == 0 {
            return None;
        }
        let len = array.len();
        if len % grid_width != 0 {
            return None;
        }
        let height = len / grid_width;
        proof {
            lemma_fundamental_div_mod(len as int, grid_width as int);
        }
        Some(Grid { inner: array, dim: GridDimension::new(grid_width, height) })
    }

    /// Return the number of elements in the grid.
    pub fn count(&self) -> (r: usize)
        requires
            self.wf(),
        ensures
            r == self@.len(),
            r == self.width() * self.height(),
    {
        self.inner.len()
    }

    /// Convert some (x, y) coord into an index.
    pub fn index_from_coord(&self, x: usize, y: usize) -> (r: usize)
        requires
            linear_index(x as int, y as int, self.width()) <= usize::MAX,
        ensures
            r == linear_index(x as int, y as int, self.width()),
    {
        self.dim.index_from_coord(x, y)
    }

    /// Convert an index into the corresponding coords in the grid.
    pub fn coords_from_index(&self, index: usize) -> (r: (usize, usize))
        requires
            self.width() > 0,
        ensures
            r == (index % (self.width() as usize), index / (self.width() as usize)),
    {
        self.dim.coords_from_index(index)
    }

    /// The buffer index of (x, y) if the cell lies in the grid, computed
    /// without overflow.
    fn checked_index(&self, x: usize, y: usize) -> (r: Option<usize>)
        requires
            self.wf(),
        ensures
            self@.len() <= usize::MAX,
            x < self.width() && y < self.height() ==> {
                &&& r == Some(linear_index(x as int, y as int, self.width()) as usize)
                &&& linear_index(x as int, y as int, self.width()) < self@.len()
            },
            !(x < self.width() && y < self.height()) ==> r is None,
    {
        proof {
            vstd::std_specs::vec::axiom_spec_len(&self.inner);
        }
        let width = self.dim.width();
        let height = self.dim.height();
        if x >= width || y >= height {
            return None;
        }
        proof {
            assert(y * width + x < width * height) by (nonlinear_arith)
                requires y < height, x < width;
        }
        Some(y * width + x)
    }

    /// Return a shared reference to the item at the coords (x, y): `Some` if
    /// the cell lies in the grid (`x < width`, `y < height`), `None` otherwise.
    pub fn get(&self, x: usize, y: usize) -> (r: Option<&T>)
        requires
            self.wf(),
        ensures
            r is Some <==> x < self.width() && y < self.height(),
            r matches Some(v) ==> *v == self@[linear_index(x as int, y as int, self.width())],
    {
        match self.checked_index(x, y) {
            Some(index) => self.get_at_index(index),
            None => None,
        }
    }

    /// Return a shared reference to the item at the index: `Some` if the index
    /// is smaller than the grid's count, `None` otherwise.
    pub fn get_at_index(&self, index: usize) -> (r: Option<&T>)
        ensures
            r is Some <==> index < self@.len(),
            r matches Some(v) ==> *v == self@[index as int],
    {
        if index < self.inner.len() {
            Some(&self.inner[index])
        } else {
            None
        }
    }

    /// Return a mutable reference to the item at the coords (x, y): `Some` if
    /// the cell lies in the grid (`x < width`, `y < height`), `None` otherwise.
    /// What is left in the item is what the grid holds there afterwards.
    pub fn get_mut(&mut self, x: usize, y: usize) -> (r: Option<&mut T>)
        requires
            old(self).wf(),
        ensures
            final(self).dimension() == old(self).dimension(),
            x < old(self).width() && y < old(self).height() ==> {
                &&& r is Some
                &&& *r.unwrap() == old(self)@[linear_index(x as int, y as int, old(self).width())]
                &&& final(self)@ == old(self)@.update(
                    linear_index(x as int, y as int, old(self).width()),
                    *final(r.unwrap()),
                )
            },
            !(x < old(self).width() && y < old(self).height()) ==> r is None && final(self)@
                == old(self)@,
    {
        match self.checked_index(x, y) {
            Some(index) => self.get_at_index_mut(index),
            None => None,
        }
    }

    /// Return a mutable reference to the item at the index: `Some` if the index
    /// is smaller than the grid's count, `None` otherwise. What is left in the
    /// item is what the grid holds there afterwards.
    pub fn get_at_index_mut(&mut self, index: usize) -> (r: Option<&mut T>)
        ensures
            final(self).dimension() == old(self).dimension(),
            index < old(self)@.len() ==> {
                &&& r is Some
                &&& *r.unwrap() == old(self)@[index as int]
                &&& final(self)@ == old(self)@.update(index as int, *final(r.unwrap()))
            },
            index >= old(self)@.len() ==> r is None && final(self)@ == old(self)@,
    {
        if index < self.inner.len() {
            Some(&mut self.inner[index])
        } else {
            None
        }
    }

    /// Return an iterator over the whole grid, row after row: it yields the
    /// buffer in order.
    pub fn iter(&self) -> (r: Iter<'_, T>)
        requires
            self.wf(),
        ensures
            r.wf(),
            r.remaining() == self@,
    {
        let width = self.dim.width();
        if width == 0 || self.dim.height() == 0 {
            assert(self.width() * self.height() == 0) by (nonlinear_arith)
                requires self.width() == 0 || self.height() == 0;
            assert(self@ =~= Seq::<T>::empty());
            return Iter::empty(self.inner.as_slice());
        }
        let area = Area::from(self.dim);
        proof {
            lemma_full_area_row_major(self.dim);
            vstd::std_specs::vec::axiom_spec_len(&self.inner);
        }
        let r = Iter::new(self.inner.as_slice(), width, area);
        assert(area.values_in(self@, width as int) =~= self@);
        r
    }

    /// Return an iterator over the part of the grid inside `area`, row after
    /// row. Cells of the area outside the grid are left out; an area whose
    /// top-left corner lies outside the grid gives an empty iterator.
    pub fn iter_over(&self, area: Area) -> (r: Iter<'_, T>)
        requires
            self.wf(),
            area.is_normalized(),
        ensures
            r.wf(),
            r.remaining() == match self.dimension().spec_rectify(area) {
                None => Seq::<T>::empty(),
                Some(a) => a.values_in(self@, self.width()),
            },
    {
        proof {
            lemma_rectified_cells(self.dim, area);
            vstd::std_specs::vec::axiom_spec_len(&self.inner);
        }
        match self.dim.rectify(area) {
            Some(a) => Iter::new(self.inner.as_slice(), self.dim.width(), a),
            None => Iter::empty(self.inner.as_slice()),
        }
    }

    /// Return a mutable iterator over the whole grid, row after row. It holds
    /// the whole buffer, giving up one element at each step; what is left in
    /// the buffer it holds is what the grid holds afterwards.
    pub fn iter_mut(&mut self) -> (r: IterMut<'_, T>)
        requires
            old(self).wf(),
        ensures
            r.wf(),
            r.produced() == 0,
            r.total() == old(self)@.len(),
            r.total() > 0 ==> r.cols() == old(self).width() && r.grid_width() == old(self).width(),
            r.rest()@ == old(self)@,
            final(self).dimension() == old(self).dimension(),
            final(self)@ == final(r.rest())@,
    {
        let width = self.dim.width();
        if width == 0 || self.dim.height() == 0 {
            assert(self.width() * self.height() == 0) by (nonlinear_arith)
                requires self.width() == 0 || self.height() == 0;
            assert(self@ =~= Seq::<T>::empty());
            return IterMut::empty(self.inner.as_mut_slice());
        }
        let area = Area::from(self.dim);
        proof {
            lemma_full_area_row_major(self.dim);
        }
        IterMut::new(self.inner.as_mut_slice(), width, area)
    }

    /// Return a mutable iterator over the part of the grid inside `area`, row
    /// after row. The area is first rectified against the grid; where its
    /// top-left corner lies outside the grid the iterator is empty. The
    /// iterator holds the buffer from the area's first cell to its last; what
    /// is left there is what the grid holds afterwards, and the rest of the
    /// buffer is unchanged.
    pub fn iter_over_mut(&mut self, area: Area) -> (r: IterMut<'_, T>)
        requires
            old(self).wf(),
            area.is_normalized(),
        ensures
            r.wf(),
            r.produced() == 0,
            final(self).dimension() == old(self).dimension(),
            match old(self).dimension().spec_rectify(area) {
                None => {
                    &&& r.total() == 0
                    &&& r.rest()@.len() == 0
                    &&& final(self)@ == final(r.rest())@ + old(self)@
                },
                Some(a) => {
                    &&& 0 <= a.cell_index(old(self).width(), 0) <= linear_index(
                        a.right as int,
                        a.bottom as int,
                        old(self).width(),
                    ) + 1 <= old(self)@.len()
                    &&& r.total() == a.cell_count()
                    &&& r.cols() == a.cols()
                    &&& r.grid_width() == old(self).width()
                    &&& forall|k: int|
                        0 <= k < a.cell_count() ==> a.cell_index(old(self).width(), 0)
                            + #[trigger] r.offset_in_rest(k) == a.cell_index(old(self).width(), k)
                    &&& r.rest()@ == old(self)@.subrange(
                        a.cell_index(old(self).width(), 0),
                        linear_index(a.right as int, a.bottom as int, old(self).width()) + 1,
                    )
                    &&& final(self)@ == old(self)@.subrange(0, a.cell_index(old(self).width(), 0))
                        + final(r.rest())@ + old(self)@.subrange(
                        linear_index(a.right as int, a.bottom as int, old(self).width()) + 1,
                        old(self)@.len() as int,
                    )
                },
            },
    {
        proof {
            lemma_rectified_cells(self.dim, area);
            if let Some(a) = self.dim.spec_rectify(area) {
                let w = self.width();
                lemma_cell_index_offset(a, w, 0);
                assert(a.cell_index(w, 0) <= a.bottom * w + a.right) by (nonlinear_arith)
                    requires
                        a.cell_index(w, 0) == a.top * w + a.left,
                        a.top <= a.bottom,
                        a.left <= a.right,
                        w >= 0,
                ;
                assert forall|k: int| 0 <= k < a.cell_count() implies #[trigger] a.cell_index(w, k) == a.cell_index(w, 0)
                    + crate::stride_cursor::cell_offset(w, a.cols(), k) - crate::stride_cursor::cell_offset(w, a.cols(), 0) by {
                    lemma_cell_index_offset(a, w, k);
                    lemma_fundamental_div_mod_converse(0, a.cols(), 0, 0);
                }
            }
        }
        let width = self.dim.width();
        match self.dim.rectify(area) {
            Some(a) => IterMut::new(self.inner.as_mut_slice(), width, a),
            None => IterMut::empty(self.inner.as_mut_slice()),
        }
    }
}

impl<T: Copy> Grid<T> {
    /// Set every cell of the grid inside `area` to `val`, going through the
    /// cells with `iter_over_mut`; every other cell keeps its value.
    pub fn fill_over(&mut self, area: Area, val: T)
        requires
            old(self).wf(),
            area.is_normalized(),
        ensures
            final(self).dimension() == old(self).dimension(),
            final(self).wf(),
            forall|x: int, y: int|
                0 <= x < old(self).width() && 0 <= y < old(self).height()
                    ==> #[trigger] final(self)@[linear_index(x, y, old(self).width())]
                    == if area.contains(x, y) {
                    val
                } else {
                    old(self)@[linear_index(x, y, old(self).width())]
                },
    {
        let ghost dim = self.dim;
        let ghost buf = self@;
        let mut it = self.iter_over_mut(area);
        let ghost n = it.total();
        let ghost vals = Seq::new(n as nat, |_i: int| val);
        let ghost first = it;
        proof {
            first.lemma_bounds();
        }
        assert(vals.subrange(0, n) =~= vals);
        loop
            invariant
                it.wf(),
                first.wf(),
                first.produced() == 0,
                it.total() == n,
                first.total() == n,
                it.cols() == first.cols(),
                it.grid_width() == first.grid_width(),
                0 <= it.produced() <= n,
                vals.len() == n,
                forall|i: int| 0 <= i < n ==> vals[i] == val,
                final(it.rest())@ == it.written_rest(vals.subrange(it.produced(), n))
                    ==> final(first.rest())@ == first.written_rest(vals),
            ensures
                it.wf(),
                it.remaining_count() == 0,
                it.total() == n,
                0 <= it.produced() <= n,
                final(it.rest())@ == it.written_rest(vals.subrange(it.produced(), n))
                    ==> final(first.rest())@ == first.written_rest(vals),
            decreases n - it.produced(),
        {
            let ghost before = it;
            proof {
                before.lemma_bounds();
            }
            match it.next() {
                Some(cell) => {
                    *cell = val;
                    proof {
                        let rest_vals = vals.subrange(before.produced(), n);
                        assert(rest_vals[0] == vals[before.produced()]);
                        assert(rest_vals.drop_first() =~= vals.subrange(it.produced(), n));
                        IterMut::lemma_written_step(before, it, rest_vals);
                    }
                },
                None => {
                    break ;
                },
            }
        }
        proof {
            it.lemma_written_done(vals.subrange(it.produced(), n));
        }
        let ghost last = it;
        it.finish();
        proof {
            assert(final(last.rest())@ == last.rest()@);
            lemma_area_write_back(dim, buf, area, vals);
            lemma_rectified_cells(dim, area);
            if let Some(a) = dim.spec_rectify(area) {
                assert(first.written_rest(vals) == window_written(
                    first.rest()@,
                    dim.spec_width() as int,
                    a.cols(),
                    0,
                    vals,
                ));
                assert(self@ == buffer_after_area_write(dim, buf, area, vals));
            } else {
                assert(self@ =~= buf);
            }
        }
    }
}

impl<T: Copy> Grid<T> {
    /// Replace every cell `v` of the grid inside `area` by `f(v)`, going
    /// through the cells with `iter_over_mut`; every other cell keeps its value.
    pub fn update_over<F: Fn(T) -> T>(&mut self, area: Area, f: F)
        requires
            old(self).wf(),
            area.is_normalized(),
            forall|v: T| #[trigger] f.requires((v,)),
        ensures
            final(self).dimension() == old(self).dimension(),
            final(self).wf(),
            forall|x: int, y: int|
                0 <= x < old(self).width() && 0 <= y < old(self).height() ==> if area.contains(
                    x,
                    y,
                ) {
                    f.ensures(
                        (old(self)@[linear_index(x, y, old(self).width())],),
                        #[trigger] final(self)@[linear_index(x, y, old(self).width())],
                    )
                } else {
                    final(self)@[linear_index(x, y, old(self).width())] == old(self)@[linear_index(x, y, old(self).width())]
                },
    {
        let ghost dim = self.dim;
        let ghost buf = self@;
        let ghost w = self.width();
        proof {
            lemma_rectified_cells(dim, area);
        }
        let mut it = self.iter_over_mut(area);
        let ghost n = it.total();
        let ghost first = it;
        let ghost a = dim.spec_rectify(area).unwrap_or(area);
        let ghost s = a.cell_index(w, 0);
        let ghost e = linear_index(a.right as int, a.bottom as int, w) + 1;
        let ghost mut done: Seq<T> = Seq::empty();
        proof {
            first.lemma_bounds();
            assert forall|vs: Seq<T>|
                vs.len() == n && #[trigger] vs.subrange(0, 0) == done implies (final(it.rest())@ == it.written_rest(vs.subrange(0, n)) ==> final(first.rest())@
                == first.written_rest(vs)) by {
                assert(vs.subrange(0, n) =~= vs);
            }
        }
        loop
            invariant
                it.wf(),
                first.wf(),
                first.produced() == 0,
                it.total() == n,
                first.total() == n,
                it.cols() == first.cols(),
                it.grid_width() == first.grid_width(),
                0 <= it.produced() <= n,
                done.len() == it.produced(),
                n > 0 ==> dim.spec_rectify(area) is Some,
                forall|v: T| #[trigger] f.requires((v,)),
                n > 0 ==> 0 <= s <= e <= buf.len(),
                n > 0 ==> it.produced() < n ==> s + first.offset_in_rest(it.produced())
                    + it.rest()@.len() == e,
                n > 0 ==> it.produced() < n ==> it.rest()@ == buf.subrange(
                    s + first.offset_in_rest(it.produced()),
                    s + first.offset_in_rest(it.produced()) + it.rest()@.len(),
                ),
                n > 0 ==> forall|k: int|
                    0 <= k < n ==> s + #[trigger] first.offset_in_rest(k) == a.cell_index(w, k),
                forall|j: int|
                    0 <= j < done.len() ==> f.ensures((buf[a.cell_index(w, j)],), #[trigger] done[j]),
                forall|vs: Seq<T>|
                    vs.len() == n && #[trigger] vs.subrange(0, it.produced()) == done ==> (final(it.rest())@ == it.written_rest(vs.subrange(it.produced(), n)) ==> final(first.rest())@
                        == first.written_rest(vs)),
            ensures
                it.wf(),
                it.remaining_count() == 0,
                it.total() == n,
                done.len() == n,
                forall|j: int|
                    0 <= j < done.len() ==> f.ensures((buf[a.cell_index(w, j)],), #[trigger] done[j]),
                forall|vs: Seq<T>|
                    vs.len() == n && #[trigger] vs.subrange(0, it.produced()) == done ==> (final(it.rest())@ == it.written_rest(vs.subrange(it.produced(), n)) ==> final(first.rest())@
                        == first.written_rest(vs)),
            decreases n - it.produced(),
        {
            let ghost before = it;
            proof {
                before.lemma_bounds();
                first.lemma_bounds();
            }
            match it.next() {
                Some(cell) => {
                    let ghost k = before.produced();
                    let ghost old_v = *cell;
                    let new_v = f(*cell);
                    *cell = new_v;
                    proof {
                        assert(first.offset_in_rest(k + 1) == first.offset_in_rest(k)
                            + before.offset_in_rest(1));
                        assert(old_v == before.rest()@[0]);
                        assert(old_v == buf[a.cell_index(w, k)]);
                        let done2 = done.push(new_v);
                        assert forall|vs: Seq<T>|
                            vs.len() == n && #[trigger] vs.subrange(0, k + 1) == done2 implies (
                            final(it.rest())@ == it.written_rest(vs.subrange(k + 1, n)) ==> final(first.rest())@ == first.written_rest(vs)) by {
                            assert(vs.subrange(0, k) =~= done2.subrange(0, k));
                            assert(done2.subrange(0, k) =~= done);
                            let rest_vals = vs.subrange(k, n);
                            assert(rest_vals[0] == vs[k]);
                            assert(vs[k] == vs.subrange(0, k + 1)[k]);
                            assert(rest_vals.drop_first() =~= vs.subrange(k + 1, n));
                            IterMut::lemma_written_step(before, it, rest_vals);
                        }
                        if k + 1 < n {
                            assert(it.rest()@ =~= buf.subrange(
                                s + first.offset_in_rest(k + 1),
                                s + first.offset_in_rest(k + 1) + it.rest()@.len(),
                            ));
                        }
                        done = done2;
                    }
                },
                None => {
                    break ;
                },
            }
        }
        proof {
            it.lemma_written_done(done.subrange(n, n));
        }
        let ghost last = it;
        it.finish();
        proof {
            assert(done.subrange(0, n) =~= done);
            assert(final(last.rest())@ == last.rest()@);
            assert(final(first.rest())@ == first.written_rest(done));
            lemma_area_write_back(dim, buf, area, done);
            if let Some(a) = dim.spec_rectify(area) {
                assert(self@ == buffer_after_area_write(dim, buf, area, done));
                assert forall|x: int, y: int|
                    0 <= x < w && 0 <= y < dim.spec_height() && #[trigger] area.contains(x, y)
                    implies a.cell_index(w, a.rank_of(x, y)) == linear_index(x, y, w) by {
                }
            } else {
                assert(self@ =~= buf);
            }
        }
    }
}

/// The buffer of a grid, as `iter_over_mut` over `area` leaves it once the
/// elements it yields are left holding `vals`, in order: the buffer up to the
/// rectified area's first cell, the written window, and the buffer after its
/// last cell.
pub open spec fn buffer_after_area_write<T>(
    dim: GridDimension,
    buf: Seq<T>,
    area: Area,
    vals: Seq<T>,
) -> Seq<T> {
    match dim.spec_rectify(area) {
        None => buf,
        Some(a) => {
            let w = dim.spec_width() as int;
            let s = a.cell_index(w, 0);
            let e = linear_index(a.right as int, a.bottom as int, w) + 1;
            buf.subrange(0, s) + window_written(buf.subrange(s, e), w, a.cols(), 0, vals)
                + buf.subrange(e, buf.len() as int)
        },
    }
}

/// Writing through `iter_over_mut` changes exactly the area: once the elements
/// it yields are left holding `vals`, each cell of the grid inside `area` holds
/// the value of its rank in the rectified area, and every other cell keeps its
/// value.
pub proof fn lemma_area_write_back<T>(dim: GridDimension, buf: Seq<T>, area: Area, vals: Seq<T>)
    requires
        area.is_normalized(),
        buf.len() == dim.cell_count(),
    ensures
        buffer_after_area_write(dim, buf, area, vals).len() == buf.len(),
        forall|x: int, y: int|
            0 <= x < dim.spec_width() && 0 <= y < dim.spec_height() ==> #[trigger] buffer_after_area_write(
                dim,
                buf,
                area,
                vals,
            )[linear_index(x, y, dim.spec_width() as int)] == if area.contains(x, y) {
                vals[dim.spec_rectify(area).unwrap().rank_of(x, y)]
            } else {
                buf[linear_index(x, y, dim.spec_width() as int)]
            },
{
    lemma_rectified_cells(dim, area);
    let (w, h) = (dim.spec_width() as int, dim.spec_height() as int);
    let after = buffer_after_area_write(dim, buf, area, vals);
    if let Some(a) = dim.spec_rectify(area) {
        let s = a.cell_index(w, 0);
        let e = linear_index(a.right as int, a.bottom as int, w) + 1;
        let c = a.cols();
        crate::area::lemma_cell_index_offset(a, w, 0);
        assert(a.top * w <= a.bottom * w) by (nonlinear_arith)
            requires a.top <= a.bottom, w >= 0;
        assert forall|x: int, y: int| 0 <= x < w && 0 <= y < h implies #[trigger] after[linear_index(
            x,
            y,
            w,
        )] == if area.contains(x, y) {
            vals[a.rank_of(x, y)]
        } else {
            buf[linear_index(x, y, w)]
        } by {
            let idx = linear_index(x, y, w);
            assert(0 <= idx < w * h) by (nonlinear_arith)
                requires 0 <= x < w, 0 <= y < h, idx == y * w + x;
            if a.contains(x, y) {
                assert(s <= idx < e) by (nonlinear_arith)
                    requires
                        a.top <= y <= a.bottom,
                        a.left <= x <= a.right,
                        s == a.top * w + a.left,
                        e == a.bottom * w + a.right + 1,
                        idx == y * w + x,
                        w >= 0,
                ;
            }
            if s <= idx < e {
                let i = idx - s;
                assert(crate::stride_cursor::cell_offset(w, c, 0) == 0) by {
                    lemma_fundamental_div_mod_converse(0, c, 0, 0);
                }
                if y < a.top {
                    vstd::arithmetic::mul::lemma_mul_inequality(y, a.top - 1, w);
                    assert((a.top - 1) * w + w == a.top * w) by (nonlinear_arith);
                }
                assert(y <= a.bottom) by (nonlinear_arith)
                    requires idx == y * w + x, e == a.bottom * w + a.right + 1, idx < e, a.right < w, x >= 0;
                if x >= a.left {
                    assert(i == (y - a.top) * w + (x - a.left)) by (nonlinear_arith)
                        requires i == idx - s, idx == y * w + x, s == a.top * w + a.left;
                    lemma_fundamental_div_mod_converse(i, w, y - a.top, x - a.left);
                } else {
                    assert(i == (y - a.top - 1) * w + (w + x - a.left)) by (nonlinear_arith)
                        requires i == idx - s, idx == y * w + x, s == a.top * w + a.left;
                    lemma_fundamental_div_mod_converse(i, w, y - a.top - 1, w + x - a.left);
                }
            }
        }
    }
}

} // verus!
