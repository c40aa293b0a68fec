//! Dense matrices over flat row-major storage.
//!
//! `Mat` is a read-only view over a borrowed contiguous buffer; `MatBuf`
//! owns its buffer. Both carry a `transposed` flag that swaps the logical
//! row and column roles without moving data: logical element `(i, j)` lives
//! at physical `(i, j)` normally and at physical `(j, i)` when the flag is
//! set. Transposing is a flag flip, except that a row or column vector is
//! instead re-addressed from `[1, n]` to `[n, 1]` (or back), which relabels
//! the same storage and leaves no stale flag behind.
//!
//! The logical content of a matrix is its *grid*: the sequence of logical
//! rows, each a sequence of elements. The grid is the view (`@`) of both
//! matrix types, and every contract here speaks of it.

use vstd::prelude::*;
use vstd::slice::{slice_index_get, slice_subrange, slice_to_vec};
use vstd::std_specs::cmp::PartialEqSpec;
use crate::error::Error;

verus! {

/// The flat row-major offset of logical element `(i, j)` in storage with
/// `pcols` physical columns, read through the transpose flag.
pub open spec fn phys_off(pcols: int, transposed: bool, i: int, j: int) -> int {
    if transposed {
        j * pcols + i
    } else {
        i * pcols + j
    }
}

/// The logical row count of storage of physical shape `prows x pcols` read
/// through the transpose flag.
pub open spec fn logical_rows(prows: int, pcols: int, transposed: bool) -> int {
    if transposed {
        pcols
    } else {
        prows
    }
}

/// The logical column count, the counterpart of `logical_rows`.
pub open spec fn logical_cols(prows: int, pcols: int, transposed: bool) -> int {
    if transposed {
        prows
    } else {
        pcols
    }
}

/// The logical element grid (sequence of logical rows) of flat row-major
/// storage read through the transpose flag.
pub open spec fn grid_of<T>(data: Seq<T>, prows: int, pcols: int, transposed: bool) -> Seq<
    Seq<T>,
> {
    Seq::new(
        logical_rows(prows, pcols, transposed) as nat,
        |i: int|
            Seq::new(
                logical_cols(prows, pcols, transposed) as nat,
                |j: int| data[phys_off(pcols, transposed, i, j)],
            ),
    )
}

/// A machine-integer grid read as a grid of mathematical integers.
pub open spec fn grid_int(g: Seq<Seq<i64>>) -> Seq<Seq<int>> {
    Seq::new(g.len(), |i: int| Seq::new(g[i].len(), |j: int| g[i][j] as int))
}

/// Well-formed matrix fields: the storage holds exactly one element per
/// physical cell, and the transpose flag is only ever set on a matrix with
/// at least two rows and two columns (a vector is re-addressed instead).
pub open spec fn mat_wf(len: int, prows: int, pcols: int, transposed: bool) -> bool {
    &&& len == prows * pcols
    &&& (transposed ==> prows >= 2 && pcols >= 2)
}

/// A grid with exactly `rows` rows of `cols` elements each.
pub open spec fn grid_rect<T>(g: Seq<Seq<T>>, rows: int, cols: int) -> bool {
    &&& g.len() == rows
    &&& forall|i: int| 0 <= i < rows ==> (#[trigger] g[i]).len() == cols
}

/// The transpose of a `rows x cols` grid.
pub open spec fn grid_transpose<T>(g: Seq<Seq<T>>, rows: int, cols: int) -> Seq<Seq<T>> {
    Seq::new(cols as nat, |j: int| Seq::new(rows as nat, |i: int| g[i][j]))
}

/// Transposing twice restores every row, every column, and every element:
/// the law behind flipping the transpose flag back and forth.
pub proof fn lemma_grid_transpose_involutive<T>(g: Seq<Seq<T>>, rows: int, cols: int)
    requires
        rows >= 0,
        cols >= 0,
        grid_rect(g, rows, cols),
    ensures
        grid_transpose(grid_transpose(g, rows, cols), cols, rows) == g,
{
    let t = grid_transpose(g, rows, cols);
    let tt = grid_transpose(t, cols, rows);
    assert forall|i: int| 0 <= i < rows implies #[trigger] tt[i] =~= g[i] by {
        assert(forall|j: int| 0 <= j < cols ==> #[trigger] tt[i][j] == g[i][j]);
    }
    assert(tt =~= g);
}

/// A logical element's physical offset stays inside the storage.
pub proof fn lemma_phys_off_in_bounds(prows: int, pcols: int, transposed: bool, i: int, j: int)
    requires
        prows >= 0,
        pcols >= 0,
        0 <= i < logical_rows(prows, pcols, transposed),
        0 <= j < logical_cols(prows, pcols, transposed),
    ensures
        0 <= phys_off(pcols, transposed, i, j) < prows * pcols,
{
    if transposed {
        assert(0 <= j * pcols + i < prows * pcols) by (nonlinear_arith)
            requires 0 <= j < prows, 0 <= i < pcols;
    } else {
        assert(0 <= i * pcols + j < prows * pcols) by (nonlinear_arith)
            requires 0 <= i < prows, 0 <= j < pcols;
    }
}

/// A read-only matrix view over a borrowed contiguous buffer. It does not
/// own the storage and must not outlive it.
#[derive(Debug)]
pub struct Mat<'a, T> {
    pub buf: &'a [T],
    pub prows: usize,
    pub pcols: usize,
    pub transposed: bool,
}

impl<'a, T> View for Mat<'a, T> {
    type V = Seq<Seq<T>>;

    open spec fn view(&self) -> Seq<Seq<T>> {
        grid_of(self.buf@, self.prows as int, self.pcols as int, self.transposed)
    }
}

impl<'a, T> Mat<'a, T> {
    /// The view's invariant: storage length matches the physical shape, and
    /// the transpose flag never marks a vector.
    pub open spec fn wf(&self) -> bool {
        mat_wf(self.buf@.len() as int, self.prows as int, self.pcols as int, self.transposed)
    }

    /// The number of logical rows.
    pub open spec fn rows_spec(&self) -> int {
        logical_rows(self.prows as int, self.pcols as int, self.transposed)
    }

    /// The number of logical columns.
    pub open spec fn cols_spec(&self) -> int {
        logical_cols(self.prows as int, self.pcols as int, self.transposed)
    }

    /// Wraps an existing flat sequence as an untransposed `nrows x ncols`
    /// view, without copying.
    pub fn new(src: &'a [T], nrows: usize, ncols: usize) -> (m: Mat<'a, T>)
        requires
            src@.len() == nrows * ncols,
        ensures
            m.wf(),
            m.buf@ == src@,
            m.prows == nrows,
            m.pcols == ncols,
            !m.transposed,
            m.rows_spec() == nrows,
            m.cols_spec() == ncols,
            m@ == grid_of(src@, nrows as int, ncols as int, false),
    {
        Mat { buf: src, prows: nrows, pcols: ncols, transposed: false }
    }

    /// The number of logical rows.
    pub fn nrows(&self) -> (n: usize)
        ensures
            n == self.rows_spec(),
    {
        if self.transposed {
            self.pcols
        } else {
            self.prows
        }
    }

    /// The number of logical columns.
    pub fn ncols(&self) -> (n: usize)
        ensures
            n == self.cols_spec(),
    {
        if self.transposed {
            self.prows
        } else {
            self.pcols
        }
    }

    /// The number of elements.
    pub fn len(&self) -> (n: usize)
        requires
            self.wf(),
        ensures
            n == self.buf@.len(),
            n == self.rows_spec() * self.cols_spec(),
    {
        let _total = self.buf.len();
        proof {
            assert(self.rows_spec() * self.cols_spec() == self.prows as int * self.pcols as int)
                by (nonlinear_arith);
        }
        self.prows * self.pcols
    }

    /// The logical shape, `[rows, cols]`.
    pub fn shape(&self) -> (s: [usize; 2])
        ensures
            s@.len() == 2,
            s@[0] == self.rows_spec(),
            s@[1] == self.cols_spec(),
    {
        [self.nrows(), self.ncols()]
    }

    /// The flat backing storage in physical order.
    pub fn as_slice(&self) -> (s: &[T])
        ensures
            s@ == self.buf@,
    {
        self.buf
    }

    /// The element at logical position `(i, j)`, or `IndexOutOfBounds` when
    /// `i >= rows()` or `j >= cols()`.
    pub fn at(&self, i: usize, j: usize) -> (r: Result<&T, Error>)
        requires
            self.wf(),
        ensures
            match r {
                Ok(v) => i < self.rows_spec() && j < self.cols_spec() && *v == self@[i as int][
                    j as int
                ],
                Err(e) => e == Error::IndexOutOfBounds && (i >= self.rows_spec() || j
                    >= self.cols_spec()),
            },
    {
        if i >= self.nrows() || j >= self.ncols() {
            return Err(Error::IndexOutOfBounds);
        }
        let _total = self.buf.len();
        proof {
            lemma_phys_off_in_bounds(
                self.prows as int,
                self.pcols as int,
                self.transposed,
                i as int,
                j as int,
            );
        }
        let off = if self.transposed {
            j * self.pcols + i
        } else {
            i * self.pcols + j
        };
        Ok(slice_index_get(self.buf, off))
    }

    /// A read-only contiguous view of logical row `i`.
    ///
    /// A transposed logical row is not contiguous in physical storage, so on
    /// a transposed matrix this fails with `UnsupportedOnTransposedView`
    /// rather than materializing a copy; a row index at or past `rows()`
    /// fails with `IndexOutOfBounds`.
    pub fn row(&self, i: usize) -> (r: Result<&'a [T], Error>)
        requires
            self.wf(),
        ensures
            match r {
                Ok(s) => !self.transposed && i < self.rows_spec() && s@ == self@[i as int],
                Err(e) => if self.transposed {
                    e == Error::UnsupportedOnTransposedView
                } else {
                    e == Error::IndexOutOfBounds && i >= self.rows_spec()
                },
            },
    {
        if self.transposed {
            return Err(Error::UnsupportedOnTransposedView);
        }
        if i >= self.nrows() {
            return Err(Error::IndexOutOfBounds);
        }
        let _total = self.buf.len();
        proof {
            assert((i as int + 1) * self.pcols as int <= self.prows as int * self.pcols as int)
                by (nonlinear_arith)
                requires 0 <= i as int, i as int + 1 <= self.prows as int, self.pcols as int >= 0;
            assert(i as int * self.pcols as int >= 0) by (nonlinear_arith)
                requires i as int >= 0, self.pcols as int >= 0;
            assert((i as int + 1) * self.pcols as int == i as int * self.pcols as int
                + self.pcols as int) by (nonlinear_arith);
        }
        let start = i * self.pcols;
        let s = slice_subrange(self.buf, start, start + self.pcols);
        proof {
            assert forall|j: int| 0 <= j < self.pcols as int implies s@[j] == self@[i as int][j]
            by {
                assert(s@[j] == self.buf@[i as int * self.pcols as int + j]);
            }
            assert(s@ =~= self@[i as int]);
        }
        Ok(s)
    }
}

/// While filling a row-major buffer, every already-written cell of an
/// earlier row lies strictly below the write position.
pub proof fn lemma_row_major_prefix(i: int, j: int, r: int, c: int, cols: int)
    requires
        0 <= c < cols,
        0 <= r < i,
        0 <= j,
    ensures
        0 <= r * cols + c,
        r * cols + c < i * cols + j,
{
    assert(0 <= r * cols + c && r * cols + c < i * cols + j) by (nonlinear_arith)
        requires 0 <= c < cols, 0 <= r < i, 0 <= j;
}

impl<'a, T: Copy> Mat<'a, T> {
    /// The element at logical position `(i, j)`, which the caller shows to
    /// be inside the matrix.
    pub fn get(&self, i: usize, j: usize) -> (v: T)
        requires
            self.wf(),
            i < self.rows_spec(),
            j < self.cols_spec(),
        ensures
            v == self@[i as int][j as int],
    {
        let _total = self.buf.len();
        proof {
            lemma_phys_off_in_bounds(
                self.prows as int,
                self.pcols as int,
                self.transposed,
                i as int,
                j as int,
            );
        }
        let off = if self.transposed {
            j * self.pcols + i
        } else {
            i * self.pcols + j
        };
        *slice_index_get(self.buf, off)
    }

    /// Copies the view into an owning buffer with the same logical content.
    pub fn to_owned(&self) -> (m: MatBuf<T>)
        requires
            self.wf(),
        ensures
            m.wf(),
            m.buf@ == self.buf@,
            m.prows == self.prows,
            m.pcols == self.pcols,
            m.transposed == self.transposed,
            m@ == self@,
    {
        MatBuf {
            buf: slice_to_vec(self.buf),
            prows: self.prows,
            pcols: self.pcols,
            transposed: self.transposed,
        }
    }
}

/// A matrix that exclusively owns its flat row-major storage.
#[derive(Clone, Debug)]
pub struct MatBuf<T> {
    pub buf: Vec<T>,
    pub prows: usize,
    pub pcols: usize,
    pub transposed: bool,
}

impl<T> View for MatBuf<T> {
    type V = Seq<Seq<T>>;

    open spec fn view(&self) -> Seq<Seq<T>> {
        grid_of(self.buf@, self.prows as int, self.pcols as int, self.transposed)
    }
}

impl<T> MatBuf<T> {
    /// The buffer's invariant: storage length matches the physical shape,
    /// and the transpose flag never marks a vector.
    pub open spec fn wf(&self) -> bool {
        mat_wf(self.buf@.len() as int, self.prows as int, self.pcols as int, self.transposed)
    }

    /// The number of logical rows.
    pub open spec fn rows_spec(&self) -> int {
        logical_rows(self.prows as int, self.pcols as int, self.transposed)
    }

    /// The number of logical columns.
    pub open spec fn cols_spec(&self) -> int {
        logical_cols(self.prows as int, self.pcols as int, self.transposed)
    }

    /// An empty `0 x 0` matrix.
    pub fn new() -> (m: MatBuf<T>)
        ensures
            m.wf(),
            m.rows_spec() == 0,
            m.cols_spec() == 0,
            m.buf@.len() == 0,
            !m.transposed,
    {
        MatBuf { buf: Vec::new(), prows: 0, pcols: 0, transposed: false }
    }

    /// An empty `0 x 0` matrix whose storage has room for `cap` elements.
    pub fn with_capacity(cap: usize) -> (m: MatBuf<T>)
        ensures
            m.wf(),
            m.rows_spec() == 0,
            m.cols_spec() == 0,
            m.buf@.len() == 0,
            !m.transposed,
    {
        MatBuf { buf: Vec::with_capacity(cap), prows: 0, pcols: 0, transposed: false }
    }

    /// Wraps a flat vector as an untransposed `n x 1` column buffer: the
    /// length becomes the row count and the column count is one.
    pub fn from_vec(src: Vec<T>) -> (m: MatBuf<T>)
        ensures
            m.wf(),
            m.buf@ == src@,
            m.prows == src@.len(),
            m.pcols == 1,
            !m.transposed,
            m.rows_spec() == src@.len(),
            m.cols_spec() == 1,
    {
        let n = src.len();
        MatBuf { buf: src, prows: n, pcols: 1, transposed: false }
    }

    /// Reinterprets a rank-2 dense array as an untransposed matrix; an array
    /// of any other rank fails with `InvalidRank`.
    pub fn from_array(a: crate::array::ArrayBuf<T>) -> (r: Result<MatBuf<T>, Error>)
        requires
            a.wf(),
        ensures
            match r {
                Ok(m) => a.dims().len() == 2 && m.wf() && m.buf@ == a@ && m.prows == a.dims()[0]
                    && m.pcols == a.dims()[1] && !m.transposed,
                Err(e) => e == Error::InvalidRank && a.dims().len() != 2,
            },
    {
        if a.shape().ndim() != 2 {
            return Err(Error::InvalidRank);
        }
        let prows = a.shape().len_of(0);
        let pcols = a.shape().len_of(1);
        proof {
            let dims = a.dims();
            assert(dims.drop_last().drop_last() =~= Seq::<usize>::empty());
            assert(crate::array::extent_prod(Seq::<usize>::empty()) == 1);
            assert(crate::array::extent_prod(dims.drop_last()) == 1 * (dims[0] as int));
            assert(dims.drop_last()[0] == dims[0]);
            assert(crate::array::shape_len(dims) == (dims[0] as int) * (dims[1] as int));
        }
        let buf = a.into_data();
        Ok(MatBuf { buf, prows, pcols, transposed: false })
    }

    /// The flat backing storage in physical order.
    pub fn as_slice(&self) -> (s: &[T])
        ensures
            s@ == self.buf@,
    {
        self.buf.as_slice()
    }

    /// The flat backing storage in physical order, for elementwise bulk
    /// mutation. A mutable slice cannot change the length, so whatever the
    /// caller writes, the storage keeps one element per physical cell.
    pub fn as_mut_slice(&mut self) -> (s: &mut [T])
        ensures
            s@ == old(self).buf@,
            final(self).buf@ == final(s)@,
            final(self).prows == old(self).prows,
            final(self).pcols == old(self).pcols,
            final(self).transposed == old(self).transposed,
    {
        self.buf.as_mut_slice()
    }

    /// An untransposed constant matrix of the given shape, every logical
    /// element a copy of `t`.
    pub fn new_filled(t: T, shape: [usize; 2]) -> (m: MatBuf<T>) where T: Copy
        requires
            shape@[0] * shape@[1] <= usize::MAX,
        ensures
            m.wf(),
            !m.transposed,
            m.prows == shape@[0],
            m.pcols == shape@[1],
            m.rows_spec() == shape@[0],
            m.cols_spec() == shape@[1],
            forall|i: int, j: int|
                0 <= i < shape@[0] && 0 <= j < shape@[1] ==> #[trigger] m@[i][j] == t,
    {
        let n = shape[0] * shape[1];
        let mut buf: Vec<T> = Vec::with_capacity(n);
        while buf.len() < n
            invariant
                buf@.len() <= n,
                forall|k: int| 0 <= k < buf@.len() ==> #[trigger] buf@[k] == t,
            decreases n - buf@.len(),
        {
            buf.push(t);
        }
        let m = MatBuf { buf, prows: shape[0], pcols: shape[1], transposed: false };
        proof {
            assert forall|i: int, j: int|
                0 <= i < shape@[0] && 0 <= j < shape@[1] implies #[trigger] m@[i][j] == t by {
                lemma_phys_off_in_bounds(shape@[0] as int, shape@[1] as int, false, i, j);
            }
        }
        m
    }

    /// The number of logical rows.
    pub fn nrows(&self) -> (n: usize)
        ensures
            n == self.rows_spec(),
    {
        if self.transposed {
            self.pcols
        } else {
            self.prows
        }
    }

    /// The number of logical columns.
    pub fn ncols(&self) -> (n: usize)
        ensures
            n == self.cols_spec(),
    {
        if self.transposed {
            self.prows
        } else {
            self.pcols
        }
    }

    /// The number of elements.
    pub fn len(&self) -> (n: usize)
        requires
            self.wf(),
        ensures
            n == self.buf@.len(),
            n == self.rows_spec() * self.cols_spec(),
    {
        let _total = self.buf.len();
        proof {
            assert(self.rows_spec() * self.cols_spec() == self.prows as int * self.pcols as int)
                by (nonlinear_arith);
        }
        self.prows * self.pcols
    }

    /// The logical shape, `[rows, cols]`.
    pub fn shape(&self) -> (s: [usize; 2])
        ensures
            s@.len() == 2,
            s@[0] == self.rows_spec(),
            s@[1] == self.cols_spec(),
    {
        [self.nrows(), self.ncols()]
    }

    /// Re-addresses the same storage, in physical order, under a new
    /// physical shape of the same total size; the transpose flag is cleared,
    /// since the new shape speaks of the storage directly.
    pub fn reshape(&mut self, shape: [usize; 2])
        requires
            old(self).buf@.len() == shape@[0] * shape@[1],
        ensures
            final(self).wf(),
            final(self).buf@ == old(self).buf@,
            final(self).prows == shape@[0],
            final(self).pcols == shape@[1],
            !final(self).transposed,
    {
        self.prows = shape[0];
        self.pcols = shape[1];
        self.transposed = false;
    }

    /// A read-only view of the whole matrix, borrowing its storage.
    pub fn as_mat(&self) -> (m: Mat<'_, T>)
        ensures
            m.buf@ == self.buf@,
            m.prows == self.prows,
            m.pcols == self.pcols,
            m.transposed == self.transposed,
            m@ == self@,
            self.wf() ==> m.wf(),
    {
        Mat {
            buf: self.buf.as_slice(),
            prows: self.prows,
            pcols: self.pcols,
            transposed: self.transposed,
        }
    }

    /// The element at logical position `(i, j)`, or `IndexOutOfBounds` when
    /// `i >= rows()` or `j >= cols()`.
    pub fn at(&self, i: usize, j: usize) -> (r: Result<&T, Error>)
        requires
            self.wf(),
        ensures
            match r {
                Ok(v) => i < self.rows_spec() && j < self.cols_spec() && *v == self@[i as int][
                    j as int
                ],
                Err(e) => e == Error::IndexOutOfBounds && (i >= self.rows_spec() || j
                    >= self.cols_spec()),
            },
    {
        if i >= self.nrows() || j >= self.ncols() {
            return Err(Error::IndexOutOfBounds);
        }
        let _total = self.buf.len();
        proof {
            lemma_phys_off_in_bounds(
                self.prows as int,
                self.pcols as int,
                self.transposed,
                i as int,
                j as int,
            );
        }
        let off = if self.transposed {
            j * self.pcols + i
        } else {
            i * self.pcols + j
        };
        Ok(slice_index_get(self.buf.as_slice(), off))
    }

    /// Overwrites the element at logical position `(i, j)`, or fails with
    /// `IndexOutOfBounds`, mutating nothing, when the position is outside
    /// the matrix.
    pub fn set(&mut self, i: usize, j: usize, value: T) -> (r: Result<(), Error>)
        requires
            old(self).wf(),
        ensures
            final(self).wf(),
            final(self).prows == old(self).prows,
            final(self).pcols == old(self).pcols,
            final(self).transposed == old(self).transposed,
            match r {
                Ok(()) => i < old(self).rows_spec() && j < old(self).cols_spec() && final(self)@
                    == old(self)@.update(
                    i as int,
                    old(self)@[i as int].update(j as int, value),
                ),
                Err(e) => e == Error::IndexOutOfBounds && (i >= old(self).rows_spec() || j
                    >= old(self).cols_spec()) && final(self)@ == old(self)@,
            },
    {
        if i >= self.nrows() || j >= self.ncols() {
            return Err(Error::IndexOutOfBounds);
        }
        let _total = self.buf.len();
        proof {
            lemma_phys_off_in_bounds(
                self.prows as int,
                self.pcols as int,
                self.transposed,
                i as int,
                j as int,
            );
        }
        let off = if self.transposed {
            j * self.pcols + i
        } else {
            i * self.pcols + j
        };
        self.buf[off] = value;
        proof {
            let o = old(self)@;
            let n = self@;
            let upd = o.update(i as int, o[i as int].update(j as int, value));
            assert forall|r: int| 0 <= r < n.len() implies n[r] =~= upd[r] by {
                assert forall|c: int| 0 <= c < old(self).cols_spec() implies n[r][c] == upd[r][c]
                by {
                    lemma_phys_off_in_bounds(
                        self.prows as int,
                        self.pcols as int,
                        self.transposed,
                        r,
                        c,
                    );
                    if phys_off(self.pcols as int, self.transposed, r, c) == off as int {
                        lemma_phys_off_injective(
                            self.prows as int,
                            self.pcols as int,
                            self.transposed,
                            r,
                            c,
                            i as int,
                            j as int,
                        );
                    }
                }
            }
            assert(n =~= upd);
        }
        Ok(())
    }

    /// The element at logical position `(i, j)`, which the caller shows to
    /// be inside the matrix.
    pub fn get(&self, i: usize, j: usize) -> (v: T) where T: Copy
        requires
            self.wf(),
            i < self.rows_spec(),
            j < self.cols_spec(),
        ensures
            v == self@[i as int][j as int],
    {
        let _total = self.buf.len();
        proof {
            lemma_phys_off_in_bounds(
                self.prows as int,
                self.pcols as int,
                self.transposed,
                i as int,
                j as int,
            );
        }
        let off = if self.transposed {
            j * self.pcols + i
        } else {
            i * self.pcols + j
        };
        *slice_index_get(self.buf.as_slice(), off)
    }

    /// Swaps the logical row and column roles without moving data.
    ///
    /// In the general case this flips the transpose flag in O(1). A row or
    /// column vector is instead re-addressed from `[1, n]` to `[n, 1]` or
    /// back — for vector-shaped storage the two layouts coincide, so this
    /// too moves nothing and avoids leaving a stale flag.
    pub fn transpose(&mut self)
        requires
            old(self).wf(),
        ensures
            final(self).wf(),
            final(self).buf@ == old(self).buf@,
            final(self).rows_spec() == old(self).cols_spec(),
            final(self).cols_spec() == old(self).rows_spec(),
            final(self)@ == grid_transpose(
                old(self)@,
                old(self).rows_spec(),
                old(self).cols_spec(),
            ),
    {
        if self.prows <= 1 || self.pcols <= 1 {
            let t = self.prows;
            self.prows = self.pcols;
            self.pcols = t;
            proof {
                let len = self.buf@.len() as int;
                let a = old(self).prows as int;
                let b = old(self).pcols as int;
                assert(len == b * a) by (nonlinear_arith)
                    requires len == a * b;
            }
        } else {
            self.transposed = !self.transposed;
        }
        proof {
            lemma_transpose_grid(
                old(self).buf@,
                old(self).prows as int,
                old(self).pcols as int,
                old(self).transposed,
                self.prows as int,
                self.pcols as int,
                self.transposed,
            );
        }
    }
}

/// Logical equality of two matrices under `T`'s own equality: both are
/// well-formed, the logical shapes agree, and every pair of logical elements
/// compares equal by `T`'s equality.
pub open spec fn mats_eq_spec<T: PartialEq>(
    abuf: Seq<T>,
    aprows: int,
    apcols: int,
    at: bool,
    bbuf: Seq<T>,
    bprows: int,
    bpcols: int,
    bt: bool,
) -> bool {
    &&& mat_wf(abuf.len() as int, aprows, apcols, at)
    &&& mat_wf(bbuf.len() as int, bprows, bpcols, bt)
    &&& logical_rows(aprows, apcols, at) == logical_rows(bprows, bpcols, bt)
    &&& logical_cols(aprows, apcols, at) == logical_cols(bprows, bpcols, bt)
    &&& forall|i: int, j: int|
        0 <= i < logical_rows(aprows, apcols, at) && 0 <= j < logical_cols(aprows, apcols, at)
            ==> (#[trigger] grid_of(abuf, aprows, apcols, at)[i][j]).eq_spec(
            &grid_of(bbuf, bprows, bpcols, bt)[i][j],
        )
}

/// Whether matrix fields are well-formed, decided executably.
fn check_mat_wf<T>(buf: &[T], prows: usize, pcols: usize, transposed: bool) -> (r: bool)
    ensures
        r == mat_wf(buf@.len() as int, prows as int, pcols as int, transposed),
{
    let len = buf.len();
    match prows.checked_mul(pcols) {
        Some(p) => p == len && (!transposed || (prows >= 2 && pcols >= 2)),
        None => false,
    }
}

/// Compares two matrices logically: same logical shape, and equal elements
/// at every logical position, each read through its own transpose flag.
/// Matrices whose fields are not well-formed compare unequal.
fn mats_eq<T: PartialEq + Copy>(
    abuf: &[T],
    aprows: usize,
    apcols: usize,
    at: bool,
    bbuf: &[T],
    bprows: usize,
    bpcols: usize,
    bt: bool,
) -> (r: bool)
    ensures
        T::obeys_eq_spec() ==> r == mats_eq_spec(
            abuf@,
            aprows as int,
            apcols as int,
            at,
            bbuf@,
            bprows as int,
            bpcols as int,
            bt,
        ),
{
    if !check_mat_wf(abuf, aprows, apcols, at) || !check_mat_wf(bbuf, bprows, bpcols, bt) {
        return false;
    }
    let arows = if at { apcols } else { aprows };
    let acols = if at { aprows } else { apcols };
    let brows = if bt { bpcols } else { bprows };
    let bcols = if bt { bprows } else { bpcols };
    if arows != brows || acols != bcols {
        return false;
    }
    let _alen = abuf.len();
    let _blen = bbuf.len();
    proof {
        assert(abuf@.len() <= usize::MAX && bbuf@.len() <= usize::MAX);
    }
    let ga = Ghost(grid_of(abuf@, aprows as int, apcols as int, at));
    let gb = Ghost(grid_of(bbuf@, bprows as int, bpcols as int, bt));
    let mut i: usize = 0;
    while i < arows
        invariant
            0 <= i <= arows,
            abuf@.len() <= usize::MAX,
            bbuf@.len() <= usize::MAX,
            mat_wf(abuf@.len() as int, aprows as int, apcols as int, at),
            mat_wf(bbuf@.len() as int, bprows as int, bpcols as int, bt),
            arows == logical_rows(aprows as int, apcols as int, at),
            acols == logical_cols(aprows as int, apcols as int, at),
            arows == logical_rows(bprows as int, bpcols as int, bt),
            acols == logical_cols(bprows as int, bpcols as int, bt),
            ga@ == grid_of(abuf@, aprows as int, apcols as int, at),
            gb@ == grid_of(bbuf@, bprows as int, bpcols as int, bt),
            T::obeys_eq_spec() ==> forall|r: int, c: int|
                0 <= r < i && 0 <= c < acols ==> (#[trigger] ga@[r][c]).eq_spec(&gb@[r][c]),
        decreases arows - i,
    {
        let mut j: usize = 0;
        while j < acols
            invariant
                0 <= i < arows,
                0 <= j <= acols,
                abuf@.len() <= usize::MAX,
                bbuf@.len() <= usize::MAX,
                mat_wf(abuf@.len() as int, aprows as int, apcols as int, at),
                mat_wf(bbuf@.len() as int, bprows as int, bpcols as int, bt),
                arows == logical_rows(aprows as int, apcols as int, at),
                acols == logical_cols(aprows as int, apcols as int, at),
                arows == logical_rows(bprows as int, bpcols as int, bt),
                acols == logical_cols(bprows as int, bpcols as int, bt),
                ga@ == grid_of(abuf@, aprows as int, apcols as int, at),
                gb@ == grid_of(bbuf@, bprows as int, bpcols as int, bt),
                T::obeys_eq_spec() ==> forall|r: int, c: int|
                    0 <= r < i && 0 <= c < acols ==> (#[trigger] ga@[r][c]).eq_spec(&gb@[r][c]),
                T::obeys_eq_spec() ==> forall|c: int|
                    0 <= c < j ==> (#[trigger] ga@[i as int][c]).eq_spec(&gb@[i as int][c]),
            decreases acols - j,
        {
            proof {
                lemma_phys_off_in_bounds(aprows as int, apcols as int, at, i as int, j as int);
                lemma_phys_off_in_bounds(bprows as int, bpcols as int, bt, i as int, j as int);
            }
            let aoff = if at {
                j * apcols + i
            } else {
                i * apcols + j
            };
            let boff = if bt {
                j * bpcols + i
            } else {
                i * bpcols + j
            };
            let av = *slice_index_get(abuf, aoff);
            let bv = *slice_index_get(bbuf, boff);
            proof {
                assert(av == ga@[i as int][j as int]);
                assert(bv == gb@[i as int][j as int]);
            }
            if !(av == bv) {
                return false;
            }
            j += 1;
        }
        i += 1;
    }
    true
}

/// Distinct logical positions have distinct physical offsets.
pub proof fn lemma_phys_off_injective(
    prows: int,
    pcols: int,
    transposed: bool,
    i1: int,
    j1: int,
    i2: int,
    j2: int,
)
    requires
        prows >= 0,
        pcols >= 0,
        0 <= i1 < logical_rows(prows, pcols, transposed),
        0 <= j1 < logical_cols(prows, pcols, transposed),
        0 <= i2 < logical_rows(prows, pcols, transposed),
        0 <= j2 < logical_cols(prows, pcols, transposed),
        phys_off(pcols, transposed, i1, j1) == phys_off(pcols, transposed, i2, j2),
    ensures
        i1 == i2 && j1 == j2,
{
    if transposed {
        assert(j1 == j2 && i1 == i2) by (nonlinear_arith)
            requires
                j1 * pcols + i1 == j2 * pcols + i2,
                0 <= i1 < pcols,
                0 <= i2 < pcols,
                j1 >= 0,
                j2 >= 0;
    } else {
        assert(i1 == i2 && j1 == j2) by (nonlinear_arith)
            requires
                i1 * pcols + j1 == i2 * pcols + j2,
                0 <= j1 < pcols,
                0 <= j2 < pcols,
                i1 >= 0,
                i2 >= 0;
    }
}

impl<'a, T: PartialEq + Copy> PartialEq for Mat<'a, T> {
    fn eq(&self, other: &Mat<'a, T>) -> (r: bool) {
        mats_eq(
            self.buf,
            self.prows,
            self.pcols,
            self.transposed,
            other.buf,
            other.prows,
            other.pcols,
            other.transposed,
        )
    }
}

impl<'a, T: PartialEq + Copy> vstd::std_specs::cmp::PartialEqSpecImpl for Mat<'a, T> {
    open spec fn obeys_eq_spec() -> bool {
        T::obeys_eq_spec()
    }

    open spec fn eq_spec(&self, other: &Mat<'a, T>) -> bool {
        mats_eq_spec(
            self.buf@,
            self.prows as int,
            self.pcols as int,
            self.transposed,
            other.buf@,
            other.prows as int,
            other.pcols as int,
            other.transposed,
        )
    }
}

impl<'a, T: PartialEq + Copy> PartialEq<MatBuf<T>> for Mat<'a, T> {
    fn eq(&self, other: &MatBuf<T>) -> (r: bool) {
        mats_eq(
            self.buf,
            self.prows,
            self.pcols,
            self.transposed,
            other.buf.as_slice(),
            other.prows,
            other.pcols,
            other.transposed,
        )
    }
}

impl<'a, T: PartialEq + Copy> vstd::std_specs::cmp::PartialEqSpecImpl<MatBuf<T>> for Mat<'a, T> {
    open spec fn obeys_eq_spec() -> bool {
        T::obeys_eq_spec()
    }

    open spec fn eq_spec(&self, other: &MatBuf<T>) -> bool {
        mats_eq_spec(
            self.buf@,
            self.prows as int,
            self.pcols as int,
            self.transposed,
            other.buf@,
            other.prows as int,
            other.pcols as int,
            other.transposed,
        )
    }
}

impl<T: PartialEq + Copy> PartialEq for MatBuf<T> {
    fn eq(&self, other: &MatBuf<T>) -> (r: bool) {
        mats_eq(
            self.buf.as_slice(),
            self.prows,
            self.pcols,
            self.transposed,
            other.buf.as_slice(),
            other.prows,
            other.pcols,
            other.transposed,
        )
    }
}

impl<T: PartialEq + Copy> vstd::std_specs::cmp::PartialEqSpecImpl for MatBuf<T> {
    open spec fn obeys_eq_spec() -> bool {
        T::obeys_eq_spec()
    }

    open spec fn eq_spec(&self, other: &MatBuf<T>) -> bool {
        mats_eq_spec(
            self.buf@,
            self.prows as int,
            self.pcols as int,
            self.transposed,
            other.buf@,
            other.prows as int,
            other.pcols as int,
            other.transposed,
        )
    }
}

impl<'a, T: PartialEq + Copy> PartialEq<Mat<'a, T>> for MatBuf<T> {
    fn eq(&self, other: &Mat<'a, T>) -> (r: bool) {
        mats_eq(
            self.buf.as_slice(),
            self.prows,
            self.pcols,
            self.transposed,
            other.buf,
            other.prows,
            other.pcols,
            other.transposed,
        )
    }
}

impl<'a, T: PartialEq + Copy> vstd::std_specs::cmp::PartialEqSpecImpl<Mat<'a, T>> for MatBuf<T> {
    open spec fn obeys_eq_spec() -> bool {
        T::obeys_eq_spec()
    }

    open spec fn eq_spec(&self, other: &Mat<'a, T>) -> bool {
        mats_eq_spec(
            self.buf@,
            self.prows as int,
            self.pcols as int,
            self.transposed,
            other.buf@,
            other.prows as int,
            other.pcols as int,
            other.transposed,
        )
    }
}

/// After either transpose step — a flag flip or a vector's re-addressing —
/// the new grid is the transpose of the old one.
proof fn lemma_transpose_grid<T>(
    data: Seq<T>,
    oprows: int,
    opcols: int,
    ot: bool,
    nprows: int,
    npcols: int,
    nt: bool,
)
    requires
        mat_wf(data.len() as int, oprows, opcols, ot),
        mat_wf(data.len() as int, nprows, npcols, nt),
        oprows >= 0,
        opcols >= 0,
        if oprows <= 1 || opcols <= 1 {
            nprows == opcols && npcols == oprows && nt == ot && !ot
        } else {
            nprows == oprows && npcols == opcols && nt == !ot
        },
    ensures
        grid_of(data, nprows, npcols, nt) == grid_transpose(
            grid_of(data, oprows, opcols, ot),
            logical_rows(oprows, opcols, ot),
            logical_cols(oprows, opcols, ot),
        ),
{
    let og = grid_of(data, oprows, opcols, ot);
    let ng = grid_of(data, nprows, npcols, nt);
    let tg = grid_transpose(og, logical_rows(oprows, opcols, ot), logical_cols(oprows, opcols, ot));
    assert(ng.len() == tg.len());
    assert forall|i: int| 0 <= i < ng.len() implies ng[i] =~= tg[i] by {
        assert forall|j: int| 0 <= j < logical_cols(nprows, npcols, nt) implies ng[i][j]
            == tg[i][j] by {
            lemma_phys_off_in_bounds(nprows, npcols, nt, i, j);
            lemma_phys_off_in_bounds(oprows, opcols, ot, j, i);
            assert(ng[i][j] == data[phys_off(npcols, nt, i, j)]);
            assert(tg[i][j] == og[j][i]);
            assert(og[j][i] == data[phys_off(opcols, ot, j, i)]);
            if oprows <= 1 || opcols <= 1 {
                if oprows == 1 {
                    assert(j == 0);
                    assert(i * oprows + j == j * opcols + i) by (nonlinear_arith)
                        requires oprows == 1, j == 0;
                } else if oprows == 0 {
                    assert(false);
                } else if opcols == 1 {
                    assert(i == 0);
                    assert(i * oprows + j == j * opcols + i) by (nonlinear_arith)
                        requires opcols == 1, i == 0;
                } else {
                    assert(opcols == 0);
                    assert(false);
                }
                assert(phys_off(npcols, nt, i, j) == phys_off(opcols, ot, j, i));
            } else {
                assert(phys_off(npcols, nt, i, j) == phys_off(opcols, ot, j, i));
            }
        }
    }
    assert(ng =~= tg);
}

/// An untransposed buffer whose flat storage holds `F(r, c)` at offset
/// `r * cols + c` has exactly the grid `Seq of F`.
pub proof fn lemma_row_major_grid_eq(m: MatBuf<i64>, target: Seq<Seq<int>>)
    requires
        !m.transposed,
        m.buf@.len() == m.prows as int * m.pcols as int,
        target.len() == m.prows as int,
        forall|r: int| 0 <= r < m.prows as int ==> (#[trigger] target[r]).len() == m.pcols as int,
        forall|r: int, c: int|
            0 <= r < m.prows as int && 0 <= c < m.pcols as int ==> #[trigger] m.buf@[r
                * (m.pcols as int) + c] as int == target[r][c],
    ensures
        grid_int(m@) == target,
{
    let g = grid_int(m@);
    assert forall|r: int| 0 <= r < m.prows as int implies #[trigger] g[r] =~= target[r] by {
        assert forall|c: int| 0 <= c < m.pcols as int implies g[r][c] == target[r][c] by {
            lemma_phys_off_in_bounds(m.prows as int, m.pcols as int, false, r, c);
            assert(m@[r][c] == m.buf@[r * (m.pcols as int) + c]);
        }
    }
    assert(g =~= target);
}

} // verus!
