//! Elementwise addition and subtraction of matrices.
//!
//! Both operands are read through their own transpose flags, so the result
//! is the logical sum (or difference) whatever either operand's layout. The
//! producing forms return a new untransposed buffer; the assigning forms
//! mutate the left operand in place. Operands of unequal logical shape are
//! refused with `ShapeMismatch` before anything is allocated or mutated.

use vstd::prelude::*;
use crate::error::Error;
use crate::linalg::mat::{grid_int, lemma_row_major_grid_eq, lemma_row_major_prefix, MatBuf};

verus! {

/// The pointwise sum of two `rows x cols` integer grids.
pub open spec fn grid_add(a: Seq<Seq<int>>, b: Seq<Seq<int>>, rows: int, cols: int) -> Seq<
    Seq<int>,
> {
    Seq::new(rows as nat, |i: int| Seq::new(cols as nat, |j: int| a[i][j] + b[i][j]))
}

/// The pointwise difference of two `rows x cols` integer grids.
pub open spec fn grid_sub(a: Seq<Seq<int>>, b: Seq<Seq<int>>, rows: int, cols: int) -> Seq<
    Seq<int>,
> {
    Seq::new(rows as nat, |i: int| Seq::new(cols as nat, |j: int| a[i][j] - b[i][j]))
}

/// Elementwise addition is commutative: adding `A` to `B` gives the same
/// grid as adding `B` to `A`, whatever the shape.
pub proof fn lemma_grid_add_comm(a: Seq<Seq<int>>, b: Seq<Seq<int>>, rows: int, cols: int)
    requires
        rows >= 0,
        cols >= 0,
    ensures
        grid_add(a, b, rows, cols) == grid_add(b, a, rows, cols),
{
    let ab = grid_add(a, b, rows, cols);
    let ba = grid_add(b, a, rows, cols);
    assert forall|i: int| 0 <= i < rows implies #[trigger] ab[i] =~= ba[i] by {
        assert(forall|j: int| 0 <= j < cols ==> #[trigger] ab[i][j] == ba[i][j]);
    }
    assert(ab =~= ba);
}

/// Every machine-level sum taken by an elementwise addition of the two
/// matrices stays inside `i64`.
pub open spec fn add_fits(a: MatBuf<i64>, b: MatBuf<i64>) -> bool {
    forall|i: int, j: int|
        0 <= i < a.rows_spec() && 0 <= j < a.cols_spec() ==> i64::MIN <= (#[trigger] a@[i][j])
            + b@[i][j] <= i64::MAX
}

/// Every machine-level difference taken by an elementwise subtraction of
/// the two matrices stays inside `i64`.
pub open spec fn sub_fits(a: MatBuf<i64>, b: MatBuf<i64>) -> bool {
    forall|i: int, j: int|
        0 <= i < a.rows_spec() && 0 <= j < a.cols_spec() ==> i64::MIN <= (#[trigger] a@[i][j])
            - b@[i][j] <= i64::MAX
}

/// The shape-mismatch report for a binary operation on `a` and `b`.
pub open spec fn shape_mismatch(a: MatBuf<i64>, b: MatBuf<i64>) -> Error {
    Error::ShapeMismatch {
        expected_rows: a.rows_spec() as usize,
        expected_cols: a.cols_spec() as usize,
        actual_rows: b.rows_spec() as usize,
        actual_cols: b.cols_spec() as usize,
    }
}

/// Whether two matrices have the same logical shape.
pub open spec fn same_shape(a: MatBuf<i64>, b: MatBuf<i64>) -> bool {
    a.rows_spec() == b.rows_spec() && a.cols_spec() == b.cols_spec()
}

impl MatBuf<i64> {
    /// The elementwise sum `self + rhs` as a new untransposed buffer, or
    /// `ShapeMismatch` when the logical shapes differ.
    pub fn add(&self, rhs: &MatBuf<i64>) -> (r: Result<MatBuf<i64>, Error>)
        requires
            self.wf(),
            rhs.wf(),
            same_shape(*self, *rhs) ==> add_fits(*self, *rhs),
        ensures
            match r {
                Ok(out) => same_shape(*self, *rhs) && out.wf() && !out.transposed
                    && out.rows_spec() == self.rows_spec() && out.cols_spec() == self.cols_spec()
                    && grid_int(out@) == grid_add(
                    grid_int(self@),
                    grid_int(rhs@),
                    self.rows_spec(),
                    self.cols_spec(),
                ),
                Err(e) => !same_shape(*self, *rhs) && e == shape_mismatch(*self, *rhs),
            },
    {
        let rows = self.nrows();
        let cols = self.ncols();
        if rows != rhs.nrows() || cols != rhs.ncols() {
            return Err(
                Error::ShapeMismatch {
                    expected_rows: rows,
                    expected_cols: cols,
                    actual_rows: rhs.nrows(),
                    actual_cols: rhs.ncols(),
                },
            );
        }
        let total = self.len();
        let mut buf: Vec<i64> = Vec::with_capacity(total);
        let mut i: usize = 0;
        while i < rows
            invariant
                self.wf(),
                rhs.wf(),
                add_fits(*self, *rhs),
                rows == self.rows_spec() == rhs.rows_spec(),
                cols == self.cols_spec() == rhs.cols_spec(),
                total == rows * cols <= usize::MAX,
                0 <= i <= rows,
                buf@.len() == i * cols,
                forall|r: int, c: int|
                    0 <= r < i && 0 <= c < cols ==> #[trigger] buf@[r * (cols as int) + c] as int
                        == self@[r][c] + rhs@[r][c],
            decreases rows - i,
        {
            let mut j: usize = 0;
            while j < cols
                invariant
                    self.wf(),
                    rhs.wf(),
                    add_fits(*self, *rhs),
                    rows == self.rows_spec() == rhs.rows_spec(),
                    cols == self.cols_spec() == rhs.cols_spec(),
                    total == rows * cols <= usize::MAX,
                    0 <= i < rows,
                    0 <= j <= cols,
                    buf@.len() == i * cols + j,
                    forall|r: int, c: int|
                        0 <= r < i && 0 <= c < cols ==> #[trigger] buf@[r * (cols as int) + c]
                            as int == self@[r][c] + rhs@[r][c],
                    forall|c: int|
                        0 <= c < j ==> #[trigger] buf@[i as int * (cols as int) + c] as int
                            == self@[i as int][c] + rhs@[i as int][c],
                decreases cols - j,
            {
                proof {
                    assert(i as int * cols as int + j < rows as int * cols as int)
                        by (nonlinear_arith)
                        requires 0 <= i, (i as int) < (rows as int), 0 <= j, j < cols as int;
                }
                let v = self.get(i, j) + rhs.get(i, j);
                buf.push(v);
                proof {
                    assert forall|r: int, c: int|
                        0 <= r < i && 0 <= c < cols implies #[trigger] buf@[r * (cols as int) + c]
                            as int == self@[r][c] + rhs@[r][c] by {
                        lemma_row_major_prefix(i as int, j as int, r, c, cols as int);
                    }
                }
                j += 1;
            }
            proof {
                assert((i as int + 1) * cols as int == i as int * cols as int + cols as int)
                    by (nonlinear_arith);
            }
            i += 1;
        }
        let out = MatBuf { buf, prows: rows, pcols: cols, transposed: false };
        proof {
            lemma_row_major_grid_eq(
                out,
                grid_add(grid_int(self@), grid_int(rhs@), rows as int, cols as int),
            );
        }
        Ok(out)
    }

    /// The elementwise difference `self - rhs` as a new untransposed buffer,
    /// or `ShapeMismatch` when the logical shapes differ.
    pub fn sub(&self, rhs: &MatBuf<i64>) -> (r: Result<MatBuf<i64>, Error>)
        requires
            self.wf(),
            rhs.wf(),
            same_shape(*self, *rhs) ==> sub_fits(*self, *rhs),
        ensures
            match r {
                Ok(out) => same_shape(*self, *rhs) && out.wf() && !out.transposed
                    && out.rows_spec() == self.rows_spec() && out.cols_spec() == self.cols_spec()
                    && grid_int(out@) == grid_sub(
                    grid_int(self@),
                    grid_int(rhs@),
                    self.rows_spec(),
                    self.cols_spec(),
                ),
                Err(e) => !same_shape(*self, *rhs) && e == shape_mismatch(*self, *rhs),
            },
    {
        let rows = self.nrows();
        let cols = self.ncols();
        if rows != rhs.nrows() || cols != rhs.ncols() {
            return Err(
                Error::ShapeMismatch {
                    expected_rows: rows,
                    expected_cols: cols,
                    actual_rows: rhs.nrows(),
                    actual_cols: rhs.ncols(),
                },
            );
        }
        let total = self.len();
        let mut buf: Vec<i64> = Vec::with_capacity(total);
        let mut i: usize = 0;
        while i < rows
            invariant
                self.wf(),
                rhs.wf(),
                sub_fits(*self, *rhs),
                rows == self.rows_spec() == rhs.rows_spec(),
                cols == self.cols_spec() == rhs.cols_spec(),
                total == rows * cols <= usize::MAX,
                0 <= i <= rows,
                buf@.len() == i * cols,
                forall|r: int, c: int|
                    0 <= r < i && 0 <= c < cols ==> #[trigger] buf@[r * (cols as int) + c] as int
                        == self@[r][c] - rhs@[r][c],
            decreases rows - i,
        {
            let mut j: usize = 0;
            while j < cols
                invariant
                    self.wf(),
                    rhs.wf(),
                    sub_fits(*self, *rhs),
                    rows == self.rows_spec() == rhs.rows_spec(),
                    cols == self.cols_spec() == rhs.cols_spec(),
                    total == rows * cols <= usize::MAX,
                    0 <= i < rows,
                    0 <= j <= cols,
                    buf@.len() == i * cols + j,
                    forall|r: int, c: int|
                        0 <= r < i && 0 <= c < cols ==> #[trigger] buf@[r * (cols as int) + c]
                            as int == self@[r][c] - rhs@[r][c],
                    forall|c: int|
                        0 <= c < j ==> #[trigger] buf@[i as int * (cols as int) + c] as int
                            == self@[i as int][c] - rhs@[i as int][c],
                decreases cols - j,
            {
                proof {
                    assert(i as int * cols as int + j < rows as int * cols as int)
                        by (nonlinear_arith)
                        requires 0 <= i, (i as int) < (rows as int), 0 <= j, j < cols as int;
                }
                let v = self.get(i, j) - rhs.get(i, j);
                buf.push(v);
                proof {
                    assert forall|r: int, c: int|
                        0 <= r < i && 0 <= c < cols implies #[trigger] buf@[r * (cols as int) + c]
                            as int == self@[r][c] - rhs@[r][c] by {
                        lemma_row_major_prefix(i as int, j as int, r, c, cols as int);
                    }
                }
                j += 1;
            }
            proof {
                assert((i as int + 1) * cols as int == i as int * cols as int + cols as int)
                    by (nonlinear_arith);
            }
            i += 1;
        }
        let out = MatBuf { buf, prows: rows, pcols: cols, transposed: false };
        proof {
            lemma_row_major_grid_eq(
                out,
                grid_sub(grid_int(self@), grid_int(rhs@), rows as int, cols as int),
            );
        }
        Ok(out)
    }

    /// Replaces `self` by the elementwise sum `self + rhs`; operands of
    /// unequal logical shape are refused with `ShapeMismatch` and nothing
    /// changes.
    pub fn add_assign(&mut self, rhs: &MatBuf<i64>) -> (r: Result<(), Error>)
        requires
            old(self).wf(),
            rhs.wf(),
            same_shape(*old(self), *rhs) ==> add_fits(*old(self), *rhs),
        ensures
            final(self).wf(),
            final(self).rows_spec() == old(self).rows_spec(),
            final(self).cols_spec() == old(self).cols_spec(),
            match r {
                Ok(()) => same_shape(*old(self), *rhs) && grid_int(final(self)@) == grid_add(
                    grid_int(old(self)@),
                    grid_int(rhs@),
                    old(self).rows_spec(),
                    old(self).cols_spec(),
                ),
                Err(e) => !same_shape(*old(self), *rhs) && e == shape_mismatch(*old(self), *rhs)
                    && final(self)@ == old(self)@,
            },
    {
        match self.add(rhs) {
            Ok(out) => {
                *self = out;
                Ok(())
            },
            Err(e) => Err(e),
        }
    }

    /// Replaces `self` by the elementwise difference `self - rhs`; operands
    /// of unequal logical shape are refused with `ShapeMismatch` and nothing
    /// changes.
    pub fn sub_assign(&mut self, rhs: &MatBuf<i64>) -> (r: Result<(), Error>)
        requires
            old(self).wf(),
            rhs.wf(),
            same_shape(*old(self), *rhs) ==> sub_fits(*old(self), *rhs),
        ensures
            final(self).wf(),
            final(self).rows_spec() == old(self).rows_spec(),
            final(self).cols_spec() == old(self).cols_spec(),
            match r {
                Ok(()) => same_shape(*old(self), *rhs) && grid_int(final(self)@) == grid_sub(
                    grid_int(old(self)@),
                    grid_int(rhs@),
                    old(self).rows_spec(),
                    old(self).cols_spec(),
                ),
                Err(e) => !same_shape(*old(self), *rhs) && e == shape_mismatch(*old(self), *rhs)
                    && final(self)@ == old(self)@,
            },
    {
        match self.sub(rhs) {
            Ok(out) => {
                *self = out;
                Ok(())
            },
            Err(e) => Err(e),
        }
    }
}

} // verus!
