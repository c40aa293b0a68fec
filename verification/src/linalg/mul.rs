//! Dense matrix multiplication and scalar multiplication.
//!
//! `gemm_scalar` is the reference kernel: entry `(i, j)` of the product is
//! the dot product of row `i` of the left operand with column `j` of the
//! right one, seeded with the first term and then accumulated by sequential
//! addition over increasing `k`. Both operands are read through their own
//! transpose flags.

use vstd::prelude::*;
use crate::error::Error;
use crate::linalg::mat::{
    grid_int, grid_rect, lemma_row_major_grid_eq, lemma_row_major_prefix, Mat, MatBuf,
    lemma_phys_off_in_bounds,
};
use crate::number::{lemma_sum_ext, lemma_sum_scale, lemma_sum_swap, sum};

verus! {

/// Entry `(i, j)` of the product of integer grids `a` and `b`, accumulated
/// over the first `n` terms of the dot product of row `i` of `a` with
/// column `j` of `b`.
pub open spec fn mul_elem(a: Seq<Seq<int>>, b: Seq<Seq<int>>, i: int, j: int, n: int) -> int {
    sum(n, |k: int| a[i][k] * b[k][j])
}

/// The product of an `m x n` integer grid and an `n x p` one.
pub open spec fn grid_mul(a: Seq<Seq<int>>, b: Seq<Seq<int>>, m: int, n: int, p: int) -> Seq<
    Seq<int>,
> {
    Seq::new(m as nat, |i: int| Seq::new(p as nat, |j: int| mul_elem(a, b, i, j, n)))
}

/// The `k`-th term of the dot product behind entry `(i, j)` of `a x b`.
pub open spec fn prod_at(a: Seq<Seq<int>>, b: Seq<Seq<int>>, i: int, j: int, k: int) -> int {
    a[i][k] * b[k][j]
}

/// Every machine-level product and every partial dot-product sum taken by
/// `gemm_scalar` on grids of these dimensions stays inside `i64`.
pub open spec fn gemm_fits(a: Seq<Seq<int>>, b: Seq<Seq<int>>, m: int, n: int, p: int) -> bool {
    forall|i: int, j: int, k: int|
        0 <= i < m && 0 <= j < p && 0 <= k < n ==> i64::MIN <= #[trigger] prod_at(a, b, i, j, k)
            <= i64::MAX && i64::MIN <= mul_elem(a, b, i, j, k + 1) <= i64::MAX
}

/// Matrix multiplication is associative: `(A B) C` and `A (B C)` are the
/// same grid for all compatible `A`, `B`, `C`. Over exact integers no
/// rounding intervenes, so the equality is exact.
pub proof fn lemma_grid_mul_assoc(
    a: Seq<Seq<int>>,
    b: Seq<Seq<int>>,
    c: Seq<Seq<int>>,
    m: int,
    n: int,
    p: int,
    q: int,
)
    requires
        m >= 0,
        n >= 0,
        p >= 0,
        q >= 0,
        grid_rect(a, m, n),
        grid_rect(b, n, p),
        grid_rect(c, p, q),
    ensures
        grid_mul(grid_mul(a, b, m, n, p), c, m, p, q) == grid_mul(a, grid_mul(b, c, n, p, q), m, n, q),
{
    let ab = grid_mul(a, b, m, n, p);
    let bc = grid_mul(b, c, n, p, q);
    let l = grid_mul(ab, c, m, p, q);
    let r = grid_mul(a, bc, m, n, q);
    assert forall|i: int| 0 <= i < m implies #[trigger] l[i] =~= r[i] by {
        assert forall|j: int| 0 <= j < q implies l[i][j] == r[i][j] by {
            let f = |t: int, k: int| a[i][t] * (b[t][k] * c[k][j]);
            let lhs_term = |k: int| ab[i][k] * c[k][j];
            let rhs_term = |t: int| a[i][t] * bc[t][j];
            let cs = |k: int| sum(n, |t: int| f(t, k));
            let rs = |t: int| sum(p, |k: int| f(t, k));
            assert(l[i][j] == sum(p, lhs_term));
            assert(r[i][j] == sum(n, rhs_term));
            // Push the right factor `c[k][j]` into each inner dot product.
            assert forall|k: int| 0 <= k < p implies #[trigger] lhs_term(k) == cs(k) by {
                let g = |t: int| a[i][t] * b[t][k];
                let h = |t: int| c[k][j] * g(t);
                assert(ab[i][k] == sum(n, g));
                lemma_sum_scale(n, c[k][j], g, h);
                assert forall|t: int| 0 <= t < n implies #[trigger] h(t) == f(t, k) by {
                    let x = a[i][t];
                    let y = b[t][k];
                    let z = c[k][j];
                    assert(z * (x * y) == x * (y * z)) by (nonlinear_arith);
                }
                lemma_sum_ext(n, h, |t: int| f(t, k));
                assert(lhs_term(k) == sum(n, g) * c[k][j]);
                assert(sum(n, g) * c[k][j] == c[k][j] * sum(n, g)) by (nonlinear_arith);
            }
            lemma_sum_ext(p, lhs_term, cs);
            // Exchange the two finite sums.
            lemma_sum_swap(n, p, f, rs, cs);
            // Pull the left factor `a[i][t]` out of each inner dot product.
            assert forall|t: int| 0 <= t < n implies #[trigger] rhs_term(t) == rs(t) by {
                let g = |k: int| b[t][k] * c[k][j];
                let h = |k: int| a[i][t] * g(k);
                assert(bc[t][j] == sum(p, g));
                lemma_sum_scale(p, a[i][t], g, h);
                assert(forall|k: int| 0 <= k < p ==> #[trigger] h(k) == f(t, k));
                lemma_sum_ext(p, h, |k: int| f(t, k));
            }
            lemma_sum_ext(n, rhs_term, rs);
        }
    }
    assert(l =~= r);
}

/// Rejects a pair of operands whose inner dimensions differ: a product
/// `A x B` needs `A.cols() == B.rows()`.
pub fn check_for_mul<T>(a: &Mat<'_, T>, b: &Mat<'_, T>) -> (r: Result<(), Error>)
    ensures
        match r {
            Ok(()) => a.cols_spec() == b.rows_spec(),
            Err(e) => a.cols_spec() != b.rows_spec() && e == (Error::InnerDimensionMismatch {
                left_cols: a.cols_spec() as usize,
                right_rows: b.rows_spec() as usize,
            }),
        },
{
    if a.ncols() != b.nrows() {
        Err(Error::InnerDimensionMismatch { left_cols: a.ncols(), right_rows: b.nrows() })
    } else {
        Ok(())
    }
}

/// The dense product `A x B`, or `InnerDimensionMismatch` when
/// `A.cols() != B.rows()`.
///
/// Entry `(i, j)` of the result is seeded with `A[i,0] * B[0,j]` and then
/// accumulated by sequential addition over increasing `k`; the result is a
/// new untransposed `A.rows() x B.cols()` buffer. Because the seed reads the
/// first term, a compatible pair with an empty inner dimension is inside the
/// contract only when the output itself is empty.
pub fn gemm_scalar(a: &Mat<'_, i64>, b: &Mat<'_, i64>) -> (r: Result<MatBuf<i64>, Error>)
    requires
        a.wf(),
        b.wf(),
        a.cols_spec() == b.rows_spec() ==> gemm_fits(
            grid_int(a@),
            grid_int(b@),
            a.rows_spec(),
            a.cols_spec(),
            b.cols_spec(),
        ),
        a.cols_spec() == b.rows_spec() && a.rows_spec() > 0 && b.cols_spec() > 0
            ==> a.cols_spec() > 0,
        a.rows_spec() * b.cols_spec() <= usize::MAX,
    ensures
        match r {
            Ok(out) => a.cols_spec() == b.rows_spec() && out.wf() && !out.transposed
                && out.rows_spec() == a.rows_spec() && out.cols_spec() == b.cols_spec()
                && grid_int(out@) == grid_mul(
                grid_int(a@),
                grid_int(b@),
                a.rows_spec(),
                a.cols_spec(),
                b.cols_spec(),
            ),
            Err(e) => a.cols_spec() != b.rows_spec() && e == (Error::InnerDimensionMismatch {
                left_cols: a.cols_spec() as usize,
                right_rows: b.rows_spec() as usize,
            }),
        },
{
    match check_for_mul(a, b) {
        Ok(()) => {},
        Err(e) => {
            return Err(e);
        },
    }
    let m = a.nrows();
    let n = b.nrows();
    let p = b.ncols();
    let ga = Ghost(grid_int(a@));
    let gb = Ghost(grid_int(b@));
    let mut buf: Vec<i64> = Vec::new();
    let mut i: usize = 0;
    while i < m
        invariant
            a.wf(),
            b.wf(),
            m == a.rows_spec(),
            n == a.cols_spec() == b.rows_spec(),
            p == b.cols_spec(),
            m as int * p as int <= usize::MAX,
            m > 0 && p > 0 ==> n > 0,
            ga@ == grid_int(a@),
            gb@ == grid_int(b@),
            gemm_fits(ga@, gb@, m as int, n as int, p as int),
            0 <= i <= m,
            buf@.len() == i * p,
            forall|r: int, c: int|
                0 <= r < i && 0 <= c < p ==> #[trigger] buf@[r * (p as int) + c] as int
                    == mul_elem(ga@, gb@, r, c, n as int),
        decreases m - i,
    {
        let mut j: usize = 0;
        while j < p
            invariant
                a.wf(),
                b.wf(),
                m == a.rows_spec(),
                n == a.cols_spec() == b.rows_spec(),
                p == b.cols_spec(),
                m as int * p as int <= usize::MAX,
                m > 0 && p > 0 ==> n > 0,
                ga@ == grid_int(a@),
                gb@ == grid_int(b@),
                gemm_fits(ga@, gb@, m as int, n as int, p as int),
                0 <= i < m,
                0 <= j <= p,
                buf@.len() == i * p + j,
                forall|r: int, c: int|
                    0 <= r < i && 0 <= c < p ==> #[trigger] buf@[r * (p as int) + c] as int
                        == mul_elem(ga@, gb@, r, c, n as int),
                forall|c: int|
                    0 <= c < j ==> #[trigger] buf@[i as int * (p as int) + c] as int == mul_elem(
                        ga@,
                        gb@,
                        i as int,
                        c,
                        n as int,
                    ),
            decreases p - j,
        {
            proof {
                assert(i as int * p as int + j < m as int * p as int) by (nonlinear_arith)
                    requires 0 <= i, (i as int) < (m as int), 0 <= j, j < p as int;
                assert(prod_at(ga@, gb@, i as int, j as int, 0) == ga@[i as int][0] * gb@[0][
                    j as int
                ]);
                assert(sum(0, |k: int| ga@[i as int][k] * gb@[k][j as int]) == 0);
                assert(mul_elem(ga@, gb@, i as int, j as int, 1) == ga@[i as int][0] * gb@[0][
                    j as int
                ]);
            }
            let mut ans = a.get(i, 0) * b.get(0, j);
            let mut k: usize = 1;
            while k < n
                invariant
                    a.wf(),
                    b.wf(),
                    m == a.rows_spec(),
                    n == a.cols_spec() == b.rows_spec(),
                    p == b.cols_spec(),
                    ga@ == grid_int(a@),
                    gb@ == grid_int(b@),
                    gemm_fits(ga@, gb@, m as int, n as int, p as int),
                    0 <= i < m,
                    0 <= j < p,
                    1 <= k <= n,
                    ans as int == mul_elem(ga@, gb@, i as int, j as int, k as int),
                decreases n - k,
            {
                proof {
                    assert(prod_at(ga@, gb@, i as int, j as int, k as int) == ga@[i as int][
                        k as int
                    ] * gb@[k as int][j as int]);
                    assert(mul_elem(ga@, gb@, i as int, j as int, k as int + 1) == mul_elem(
                        ga@,
                        gb@,
                        i as int,
                        j as int,
                        k as int,
                    ) + prod_at(ga@, gb@, i as int, j as int, k as int));
                }
                ans = ans + a.get(i, k) * b.get(k, j);
                k += 1;
            }
            buf.push(ans);
            proof {
                assert forall|r: int, c: int|
                    0 <= r < i && 0 <= c < p implies #[trigger] buf@[r * (p as int) + c] as int
                        == mul_elem(ga@, gb@, r, c, n as int) by {
                    lemma_row_major_prefix(i as int, j as int, r, c, p as int);
                }
            }
            j += 1;
        }
        proof {
            assert((i as int + 1) * p as int == i as int * p as int + p as int)
                by (nonlinear_arith);
        }
        i += 1;
    }
    let out = MatBuf { buf, prows: m, pcols: p, transposed: false };
    proof {
        lemma_row_major_grid_eq(out, grid_mul(ga@, gb@, m as int, n as int, p as int));
    }
    Ok(out)
}

/// The elementwise scaling of an integer grid by `s`.
pub open spec fn grid_scale(g: Seq<Seq<int>>, s: int, rows: int, cols: int) -> Seq<Seq<int>> {
    Seq::new(rows as nat, |i: int| Seq::new(cols as nat, |j: int| g[i][j] * s))
}

/// Every machine-level product taken when scaling the matrix by `s` stays
/// inside `i64`; the storage is scanned physically, so this speaks of the
/// flat buffer.
pub open spec fn scale_fits(data: Seq<i64>, s: int) -> bool {
    forall|t: int| 0 <= t < data.len() ==> i64::MIN <= (#[trigger] data[t]) * s <= i64::MAX
}

impl MatBuf<i64> {
    /// Multiplies every logical element by the scalar, producing a new
    /// buffer of the same logical shape and layout.
    pub fn scalar_mul(&self, s: i64) -> (r: MatBuf<i64>)
        requires
            self.wf(),
            scale_fits(self.buf@, s as int),
        ensures
            r.wf(),
            r.prows == self.prows,
            r.pcols == self.pcols,
            r.transposed == self.transposed,
            r.buf@.len() == self.buf@.len(),
            forall|t: int| 0 <= t < self.buf@.len() ==> #[trigger] r.buf@[t] as int
                == self.buf@[t] as int * (s as int),
            r.rows_spec() == self.rows_spec(),
            r.cols_spec() == self.cols_spec(),
            grid_int(r@) == grid_scale(grid_int(self@), s as int, self.rows_spec(), self.cols_spec()),
    {
        let total = self.buf.len();
        let mut buf: Vec<i64> = Vec::with_capacity(total);
        let mut t: usize = 0;
        while t < total
            invariant
                self.wf(),
                scale_fits(self.buf@, s as int),
                total == self.buf@.len(),
                0 <= t <= total,
                buf@.len() == t,
                forall|u: int| 0 <= u < t ==> #[trigger] buf@[u] as int == self.buf@[u] as int
                    * (s as int),
            decreases total - t,
        {
            let v = *vstd::slice::slice_index_get(self.buf.as_slice(), t) * s;
            buf.push(v);
            t += 1;
        }
        let r = MatBuf { buf, prows: self.prows, pcols: self.pcols, transposed: self.transposed };
        proof {
            let gr = grid_int(r@);
            let target = grid_scale(
                grid_int(self@),
                s as int,
                self.rows_spec(),
                self.cols_spec(),
            );
            assert forall|i: int| 0 <= i < self.rows_spec() implies #[trigger] gr[i]
                =~= target[i] by {
                assert forall|j: int| 0 <= j < self.cols_spec() implies gr[i][j] == target[i][j]
                by {
                    lemma_phys_off_in_bounds(
                        self.prows as int,
                        self.pcols as int,
                        self.transposed,
                        i,
                        j,
                    );
                }
            }
            assert(gr =~= target);
        }
        r
    }

    /// The dense product `self x rhs`, or `InnerDimensionMismatch` when the
    /// inner dimensions differ.
    pub fn matmul(&self, rhs: &MatBuf<i64>) -> (r: Result<MatBuf<i64>, Error>)
        requires
            self.wf(),
            rhs.wf(),
            self.cols_spec() == rhs.rows_spec() ==> gemm_fits(
                grid_int(self@),
                grid_int(rhs@),
                self.rows_spec(),
                self.cols_spec(),
                rhs.cols_spec(),
            ),
            self.cols_spec() == rhs.rows_spec() && self.rows_spec() > 0 && rhs.cols_spec() > 0
                ==> self.cols_spec() > 0,
            self.rows_spec() * rhs.cols_spec() <= usize::MAX,
        ensures
            match r {
                Ok(out) => self.cols_spec() == rhs.rows_spec() && out.wf() && !out.transposed
                    && out.rows_spec() == self.rows_spec() && out.cols_spec() == rhs.cols_spec()
                    && grid_int(out@) == grid_mul(
                    grid_int(self@),
                    grid_int(rhs@),
                    self.rows_spec(),
                    self.cols_spec(),
                    rhs.cols_spec(),
                ),
                Err(e) => self.cols_spec() != rhs.rows_spec() && e
                    == (Error::InnerDimensionMismatch {
                    left_cols: self.cols_spec() as usize,
                    right_rows: rhs.rows_spec() as usize,
                }),
            },
    {
        gemm_scalar(&self.as_mat(), &rhs.as_mat())
    }
}

} // verus!
