//! Masked projection operators over an observation mask.
//!
//! A mask is a `MatBuf<bool>` paired with a data matrix of the same logical
//! shape: `mask[i,j] == true` means entry `(i, j)` is observed. Projecting
//! onto the observed set keeps observed entries and replaces the rest by a
//! zero value; projecting onto a norm ball clips the matrix when its
//! Euclidean norm exceeds a limit — every element is scaled by the ratio of
//! the limit to the norm, multiplying before dividing so the clip is exact
//! up to the machine rounding of each entry — and otherwise multiplies it by
//! the caller's unit value.

use vstd::prelude::*;
use crate::error::Error;
use crate::linalg::mat::{grid_rect, lemma_phys_off_in_bounds, lemma_row_major_prefix, MatBuf};
use crate::linalg::mul::scale_fits;
use crate::linalg::norm::{sum_sq, EuclideanNorm, Norm};
use crate::number::{isqrt, lemma_isqrt_bounds, lemma_sum_le, lemma_sum_nonneg_mono, lemma_sum_scale, lemma_trunc_div_sq, sum, trunc_div};

verus! {

/// The projection of grid `y` onto the observed set of `mask`: entry
/// `(i, j)` is kept where the mask is true and replaced by `zero` elsewhere.
pub open spec fn pomega_grid<T>(
    mask: Seq<Seq<bool>>,
    y: Seq<Seq<T>>,
    zero: T,
    rows: int,
    cols: int,
) -> Seq<Seq<T>> {
    Seq::new(
        rows as nat,
        |i: int| Seq::new(cols as nat, |j: int| if mask[i][j] { y[i][j] } else { zero }),
    )
}

/// The `rows x cols` grid all of whose entries are `v`.
pub open spec fn grid_const<T>(v: T, rows: int, cols: int) -> Seq<Seq<T>> {
    Seq::new(rows as nat, |i: int| Seq::new(cols as nat, |j: int| v))
}

/// Projecting through an all-true mask returns the data unchanged.
pub proof fn lemma_pomega_all_true<T>(
    mask: Seq<Seq<bool>>,
    y: Seq<Seq<T>>,
    zero: T,
    rows: int,
    cols: int,
)
    requires
        rows >= 0,
        cols >= 0,
        grid_rect(y, rows, cols),
        forall|i: int, j: int| 0 <= i < rows && 0 <= j < cols ==> #[trigger] mask[i][j],
    ensures
        pomega_grid(mask, y, zero, rows, cols) == y,
{
    let p = pomega_grid(mask, y, zero, rows, cols);
    assert forall|i: int| 0 <= i < rows implies #[trigger] p[i] =~= y[i] by {
        assert(forall|j: int| 0 <= j < cols ==> #[trigger] p[i][j] == y[i][j]);
    }
    assert(p =~= y);
}

/// Projecting through an all-false mask returns the all-zero matrix.
pub proof fn lemma_pomega_all_false<T>(
    mask: Seq<Seq<bool>>,
    y: Seq<Seq<T>>,
    zero: T,
    rows: int,
    cols: int,
)
    requires
        rows >= 0,
        cols >= 0,
        forall|i: int, j: int| 0 <= i < rows && 0 <= j < cols ==> !(#[trigger] mask[i][j]),
    ensures
        pomega_grid(mask, y, zero, rows, cols) == grid_const(zero, rows, cols),
{
    let p = pomega_grid(mask, y, zero, rows, cols);
    let c = grid_const(zero, rows, cols);
    assert forall|i: int| 0 <= i < rows implies #[trigger] p[i] =~= c[i] by {
        assert(forall|j: int| 0 <= j < cols ==> #[trigger] p[i][j] == c[i][j]);
    }
    assert(p =~= c);
}

/// What the norm-ball projection makes of one stored element `x`, for a
/// matrix of Euclidean norm `nv`: when the limit `l` lies below the norm,
/// `x` is scaled by the ratio `l / nv` — multiplied first, then divided, so
/// the clip is exact up to the machine rounding toward zero — and otherwise
/// `x` is multiplied by the caller's unit value.
pub open spec fn pil_elem(x: i64, l: i64, one: i64, nv: int) -> int {
    if (l as int) < nv {
        trunc_div(x as int * l as int, nv)
    } else {
        x as int * one as int
    }
}

/// Every machine product the norm-ball projection takes on a matrix of norm
/// `nv` stays inside `i64`: `x * l` on the clipping path, `x * one` on the
/// pass-through path.
pub open spec fn pil_fits(data: Seq<i64>, l: i64, one: i64, nv: int) -> bool {
    if (l as int) < nv {
        forall|t: int|
            0 <= t < data.len() ==> i64::MIN <= (#[trigger] data[t]) * l <= i64::MAX
    } else {
        scale_fits(data, one as int)
    }
}

/// A matrix already inside the ball passes through the projection
/// unchanged: when its norm is at most the limit and the unit value is one,
/// every stored element maps to itself.
pub proof fn lemma_pil_inside_ball_unchanged(m: &MatBuf<i64>, l: i64)
    requires
        m.wf(),
        l >= 0,
        isqrt(sum_sq(m.buf@)) <= l as int,
    ensures
        forall|t: int|
            0 <= t < m.buf@.len() ==> pil_elem(#[trigger] m.buf@[t], l, 1, isqrt(sum_sq(m.buf@)))
                == m.buf@[t] as int,
{
}

/// The clipped matrix lies inside the ball: when the limit is below the
/// Euclidean norm, the result the projection promises — every stored element
/// `x` replaced by `(x * l) / norm` — has Euclidean norm at most the limit.
/// (Entrywise rounding can leave the norm strictly below the limit.)
pub proof fn lemma_pil_clip_within_ball(data: Seq<i64>, out: Seq<i64>, l: i64, one: i64)
    requires
        l >= 0,
        (l as int) < isqrt(sum_sq(data)),
        out.len() == data.len(),
        forall|t: int|
            0 <= t < data.len() ==> (#[trigger] out[t]) as int == pil_elem(
                data[t],
                l,
                one,
                isqrt(sum_sq(data)),
            ),
    ensures
        isqrt(sum_sq(out)) <= l as int,
{
    let nv = isqrt(sum_sq(data));
    let n = data.len() as int;
    let li = l as int;
    let sqm = |t: int| (data[t] as int) * (data[t] as int);
    let sqo = |t: int| (out[t] as int) * (out[t] as int);
    let f1 = |t: int| (nv * nv) * sqo(t);
    let f2 = |t: int| (li * li) * sqm(t);
    assert forall|t: int| 0 <= t < n implies #[trigger] sqm(t) >= 0 by {
        let x = data[t] as int;
        assert(x * x >= 0) by (nonlinear_arith);
    }
    assert forall|t: int| 0 <= t < n implies #[trigger] sqo(t) >= 0 by {
        let y = out[t] as int;
        assert(y * y >= 0) by (nonlinear_arith);
    }
    lemma_sum_nonneg_mono(0, n, sqm);
    lemma_sum_nonneg_mono(0, n, sqo);
    let sm = sum_sq(data);
    let so = sum_sq(out);
    assert(sm == sum(n, sqm));
    assert(so == sum(n, sqo));
    // nv >= 1, since 0 <= l and l is strictly below nv.
    assert(nv >= 1);
    // Each squared output entry, scaled by the squared norm, is dominated by
    // the matching squared input entry scaled by the squared limit.
    assert forall|t: int| 0 <= t < n implies #[trigger] f1(t) <= f2(t) by {
        let x = data[t] as int;
        let y = out[t] as int;
        assert(y == trunc_div(x * li, nv));
        lemma_trunc_div_sq(x * li, nv);
        assert((x * li) * (x * li) == (li * li) * (x * x)) by (nonlinear_arith);
        assert(y * y * (nv * nv) == (nv * nv) * (y * y)) by (nonlinear_arith);
    }
    lemma_sum_scale(n, nv * nv, sqo, f1);
    lemma_sum_scale(n, li * li, sqm, f2);
    lemma_sum_le(n, f1, f2);
    assert((nv * nv) * so <= (li * li) * sm);
    lemma_isqrt_bounds(sm);
    // nv^2 * so <= li^2 * sm < li^2 * (nv + 1)^2 forces so < (li + 1)^2.
    assert(so < (li + 1) * (li + 1)) by (nonlinear_arith)
        requires
            nv >= 1,
            0 <= li,
            li < nv,
            (nv * nv) * so <= (li * li) * sm,
            sm < (nv + 1) * (nv + 1),
            so >= 0;
    lemma_isqrt_bounds(so);
    let s = isqrt(so);
    if s > li {
        assert((li + 1) * (li + 1) <= s * s) by (nonlinear_arith)
            requires 0 <= li + 1 <= s;
    }
}

/// An observation mask's projection operators; the canonical pairing is a
/// boolean mask over machine-integer data.
pub trait Omega<T> {
    /// The inputs on which `p_omega` may be asked.
    spec fn p_omega_req(&self, y: &MatBuf<T>, zero: T) -> bool;

    /// Everything `p_omega` promises of its result.
    spec fn p_omega_post(&self, y: &MatBuf<T>, zero: T, r: Result<MatBuf<T>, Error>) -> bool;

    /// The inputs on which `pi_l_omega` may be asked.
    spec fn pi_l_omega_req(&self, m: &MatBuf<T>, l: T, one: T) -> bool;

    /// Everything `pi_l_omega` promises of its result.
    spec fn pi_l_omega_post(&self, m: &MatBuf<T>, l: T, one: T, r: Result<MatBuf<T>, Error>) -> bool;

    /// Projects `y` onto the observed set of the mask.
    fn p_omega(&self, y: MatBuf<T>, zero: T) -> (r: Result<MatBuf<T>, Error>)
        requires
            self.p_omega_req(&y, zero),
        ensures
            self.p_omega_post(&y, zero, r),
    ;

    /// Projects `m` onto the norm ball of radius `l`.
    fn pi_l_omega(&self, m: MatBuf<T>, l: T, one: T) -> (r: Result<MatBuf<T>, Error>)
        requires
            self.pi_l_omega_req(&m, l, one),
        ensures
            self.pi_l_omega_post(&m, l, one, r),
    ;
}

impl Omega<i64> for MatBuf<bool> {
    open spec fn p_omega_req(&self, y: &MatBuf<i64>, zero: i64) -> bool {
        self.wf() && y.wf()
    }

    /// `p_omega` succeeds exactly on a mask of the data's logical shape, and
    /// then returns the projected grid as a new untransposed buffer; a
    /// mismatch reports both shapes and produces nothing.
    open spec fn p_omega_post(&self, y: &MatBuf<i64>, zero: i64, r: Result<MatBuf<i64>, Error>) -> bool {
        match r {
            Ok(out) => self.rows_spec() == y.rows_spec() && self.cols_spec() == y.cols_spec()
                && out.wf() && !out.transposed && out.rows_spec() == y.rows_spec()
                && out.cols_spec() == y.cols_spec() && out@ == pomega_grid(
                self@,
                y@,
                zero,
                y.rows_spec(),
                y.cols_spec(),
            ),
            Err(e) => (self.rows_spec() != y.rows_spec() || self.cols_spec() != y.cols_spec())
                && e == (Error::ShapeMismatch {
                expected_rows: self.rows_spec() as usize,
                expected_cols: self.cols_spec() as usize,
                actual_rows: y.rows_spec() as usize,
                actual_cols: y.cols_spec() as usize,
            }),
        }
    }

    open spec fn pi_l_omega_req(&self, m: &MatBuf<i64>, l: i64, one: i64) -> bool {
        &&& m.wf()
        &&& l >= 0
        &&& sum_sq(m.buf@) <= i64::MAX
        &&& pil_fits(m.buf@, l, one, isqrt(sum_sq(m.buf@)))
    }

    /// `pi_l_omega` fails with `EmptyInput` exactly on an empty matrix.
    /// Otherwise, when the limit lies below the Euclidean norm, every stored
    /// element `x` becomes `(x * l) / norm` — the elementwise clip onto the
    /// ball of radius `l`, exact up to the machine rounding of each entry —
    /// and when the norm is already within the limit every element is
    /// multiplied by the caller's unit value; the shape and layout are kept
    /// either way.
    open spec fn pi_l_omega_post(
        &self,
        m: &MatBuf<i64>,
        l: i64,
        one: i64,
        r: Result<MatBuf<i64>, Error>,
    ) -> bool {
        match r {
            Ok(out) => m.buf@.len() > 0 && out.wf() && out.prows == m.prows && out.pcols
                == m.pcols && out.transposed == m.transposed && out.rows_spec() == m.rows_spec()
                && out.cols_spec() == m.cols_spec() && out.buf@.len() == m.buf@.len() && forall|
                t: int,
            |
                0 <= t < m.buf@.len() ==> #[trigger] out.buf@[t] as int == pil_elem(
                    m.buf@[t],
                    l,
                    one,
                    isqrt(sum_sq(m.buf@)),
                ),
            Err(e) => e == Error::EmptyInput && m.buf@.len() == 0,
        }
    }

    fn p_omega(&self, y: MatBuf<i64>, zero: i64) -> (r: Result<MatBuf<i64>, Error>) {
        let rows = y.nrows();
        let cols = y.ncols();
        if self.nrows() != rows || self.ncols() != cols {
            return Err(
                Error::ShapeMismatch {
                    expected_rows: self.nrows(),
                    expected_cols: self.ncols(),
                    actual_rows: rows,
                    actual_cols: cols,
                },
            );
        }
        let total = y.len();
        let mut buf: Vec<i64> = Vec::with_capacity(total);
        let mut i: usize = 0;
        while i < rows
            invariant
                self.wf(),
                y.wf(),
                rows == y.rows_spec() == self.rows_spec(),
                cols == y.cols_spec() == self.cols_spec(),
                total == rows * cols <= usize::MAX,
                0 <= i <= rows,
                buf@.len() == i * cols,
                forall|r: int, c: int|
                    0 <= r < i && 0 <= c < cols ==> #[trigger] buf@[r * (cols as int) + c]
                        == (if self@[r][c] { y@[r][c] } else { zero }),
            decreases rows - i,
        {
            let mut j: usize = 0;
            while j < cols
                invariant
                    self.wf(),
                    y.wf(),
                    rows == y.rows_spec() == self.rows_spec(),
                    cols == y.cols_spec() == self.cols_spec(),
                    total == rows * cols <= usize::MAX,
                    0 <= i < rows,
                    0 <= j <= cols,
                    buf@.len() == i * cols + j,
                    forall|r: int, c: int|
                        0 <= r < i && 0 <= c < cols ==> #[trigger] buf@[r * (cols as int) + c]
                            == (if self@[r][c] { y@[r][c] } else { zero }),
                    forall|c: int|
                        0 <= c < j ==> #[trigger] buf@[i as int * (cols as int) + c]
                            == (if self@[i as int][c] { y@[i as int][c] } else { zero }),
                decreases cols - j,
            {
                proof {
                    assert(i as int * cols as int + j < rows as int * cols as int)
                        by (nonlinear_arith)
                        requires 0 <= i, (i as int) < (rows as int), 0 <= j, j < cols as int;
                }
                let v = if self.get(i, j) {
                    y.get(i, j)
                } else {
                    zero
                };
                buf.push(v);
                proof {
                    assert forall|r: int, c: int|
                        0 <= r < i && 0 <= c < cols implies #[trigger] buf@[r * (cols as int) + c]
                            == (if self@[r][c] { y@[r][c] } else { zero }) by {
                        lemma_row_major_prefix(i as int, j as int, r, c, cols as int);
                    }
                }
                j += 1;
            }
            proof {
                assert((i as int + 1) * cols as int == i as int * cols as int + cols as int)
                    by (nonlinear_arith);
            }
            i += 1;
        }
        let out = MatBuf { buf, prows: rows, pcols: cols, transposed: false };
        proof {
            let target = pomega_grid(self@, y@, zero, rows as int, cols as int);
            let g = out@;
            assert forall|r: int| 0 <= r < rows as int implies #[trigger] g[r] =~= target[r] by {
                assert forall|c: int| 0 <= c < cols as int implies g[r][c] == target[r][c] by {
                    lemma_phys_off_in_bounds(rows as int, cols as int, false, r, c);
                    assert(g[r][c] == out.buf@[r * (cols as int) + c]);
                }
            }
            assert(g =~= target);
        }
        Ok(out)
    }

    fn pi_l_omega(&self, m: MatBuf<i64>, l: i64, one: i64) -> (r: Result<MatBuf<i64>, Error>) {
        let nv = match <EuclideanNorm as Norm<MatBuf<i64>, Result<i64, Error>>>::norm(&m) {
            Ok(nv) => nv,
            Err(e) => {
                return Err(e);
            },
        };
        proof {
            let data = m.buf@;
            let sq = |t: int| (data[t] as int) * (data[t] as int);
            assert forall|t: int| 0 <= t < data.len() implies #[trigger] sq(t) >= 0 by {
                let x = data[t] as int;
                assert(x * x >= 0) by (nonlinear_arith);
            }
            crate::number::lemma_sum_nonneg_mono(0, data.len() as int, sq);
            crate::number::lemma_isqrt_le(sum_sq(m.buf@));
        }
        if l < nv {
            let total = m.buf.len();
            let mut buf: Vec<i64> = Vec::with_capacity(total);
            let mut t: usize = 0;
            while t < total
                invariant
                    total == m.buf@.len(),
                    nv as int == isqrt(sum_sq(m.buf@)),
                    l >= 0,
                    (l as int) < nv as int,
                    pil_fits(m.buf@, l, one, nv as int),
                    0 <= t <= total,
                    buf@.len() == t,
                    forall|u: int|
                        0 <= u < t ==> #[trigger] buf@[u] as int == pil_elem(
                            m.buf@[u],
                            l,
                            one,
                            nv as int,
                        ),
                decreases total - t,
            {
                let x = *vstd::slice::slice_index_get(m.buf.as_slice(), t);
                let v = (x * l) / nv;
                buf.push(v);
                t += 1;
            }
            Ok(MatBuf { buf, prows: m.prows, pcols: m.pcols, transposed: m.transposed })
        } else {
            Ok(m.scalar_mul(one))
        }
    }
}

} // verus!
