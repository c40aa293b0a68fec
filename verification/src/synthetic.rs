//! Synthetic data: random low-rank matrices and random observation masks.
//!
//! The randomness comes from the `rand` crate through the trusted wrappers
//! below; everything built on top of the drawn values is verified, so the
//! contracts here state only what holds of every possible outcome — shapes,
//! element bounds, and how many mask entries are set.

use vstd::prelude::*;
use crate::linalg::mat::MatBuf;

verus! {

broadcast use vstd::seq_lib::group_to_multiset_ensures;

/// An upper bound on the magnitude of a drawn element, small enough that a
/// product of two drawn elements always fits `i64`.
pub const RAND_BOUND: u64 = 2147483648;

#[verifier::external_type_specification]
#[verifier::external_body]
pub struct ExThreadRng(rand::rngs::ThreadRng);

/// Relies on rand::thread_rng: a lazily seeded thread-local generator.
#[verifier::external_body]
fn fresh_rng() -> rand::rngs::ThreadRng {
    rand::thread_rng()
}

/// Relies on rand::Rng::gen_range: a uniform draw from `[0, bound)`; the
/// range is non-empty, so the call returns and its result is below `bound`.
#[verifier::external_body]
fn gen_below(rng: &mut rand::rngs::ThreadRng, bound: u64) -> (r: u64)
    requires
        bound >= 1,
    ensures
        r < bound,
{
    rand::Rng::gen_range(rng, 0..bound)
}

/// Relies on rand::seq::SliceRandom::shuffle: an in-place permutation by
/// swaps, so the length and the multiset of elements are kept.
#[verifier::external_body]
fn shuffle_bools(v: &mut Vec<bool>, rng: &mut rand::rngs::ThreadRng)
    ensures
        final(v)@.len() == old(v)@.len(),
        final(v)@.to_multiset() == old(v)@.to_multiset(),
{
    rand::seq::SliceRandom::shuffle(v.as_mut_slice(), rng)
}

/// A vector of `n` elements drawn uniformly from `[0, RAND_BOUND)`.
fn random_vec(n: usize) -> (v: Vec<i64>)
    ensures
        v@.len() == n,
        forall|t: int| 0 <= t < n ==> 0 <= #[trigger] v@[t] < RAND_BOUND,
{
    let mut rng = fresh_rng();
    let mut v: Vec<i64> = Vec::with_capacity(n);
    while v.len() < n
        invariant
            v@.len() <= n,
            forall|t: int| 0 <= t < v@.len() ==> 0 <= #[trigger] v@[t] < RAND_BOUND,
        decreases n - v@.len(),
    {
        let x = gen_below(&mut rng, RAND_BOUND);
        v.push(x as i64);
    }
    v
}

/// A random `m x n` matrix of rank at most one: the product of an `m x 1`
/// column of uniform draws with a `1 x n` row of uniform draws. Every
/// element is a product of two draws from `[0, RAND_BOUND)`, so it lies in
/// `[0, RAND_BOUND * RAND_BOUND)` and the multiplication cannot overflow;
/// and whatever the draws, every two-by-two minor of the result vanishes,
/// which is what rank at most one means.
pub fn data(m: usize, n: usize) -> (r: MatBuf<i64>)
    requires
        m * n <= usize::MAX,
    ensures
        r.wf(),
        !r.transposed,
        r.rows_spec() == m,
        r.cols_spec() == n,
        forall|i: int, j: int|
            0 <= i < m && 0 <= j < n ==> 0 <= #[trigger] r@[i][j]
                < RAND_BOUND as int * RAND_BOUND as int,
        forall|i: int, j: int, i2: int, j2: int|
            #![trigger r@[i][j], r@[i2][j2]]
            0 <= i < m && 0 <= j < n && 0 <= i2 < m && 0 <= j2 < n ==> (r@[i][j] as int) * (
            r@[i2][j2] as int) == (r@[i][j2] as int) * (r@[i2][j] as int),
{
    let uv = random_vec(m);
    let u = MatBuf::from_vec(uv);
    let vv = random_vec(n);
    let mut v = MatBuf::from_vec(vv);
    v.reshape([1, n]);
    proof {
        let gu = crate::linalg::mat::grid_int(u@);
        let gv = crate::linalg::mat::grid_int(v@);
        assert forall|i: int, j: int, k: int|
            0 <= i < m && 0 <= j < n && 0 <= k < 1 implies i64::MIN
            <= #[trigger] crate::linalg::mul::prod_at(gu, gv, i, j, k) <= i64::MAX && i64::MIN
            <= crate::linalg::mul::mul_elem(gu, gv, i, j, k + 1) <= i64::MAX by {
            let x = gu[i][0];
            let y = gv[0][j];
            assert(0 <= x * y < RAND_BOUND as int * RAND_BOUND as int) by (nonlinear_arith)
                requires 0 <= x < RAND_BOUND as int, 0 <= y < RAND_BOUND as int;
            assert(crate::number::sum(0, |t: int| gu[i][t] * gv[t][j]) == 0);
            assert(crate::linalg::mul::mul_elem(gu, gv, i, j, 1) == x * y);
        }
    }
    let prod = match u.matmul(&v) {
        Ok(prod) => prod,
        Err(_) => {
            proof {
                assert(false);
            }
            MatBuf::new()
        },
    };
    proof {
        let gu = crate::linalg::mat::grid_int(u@);
        let gv = crate::linalg::mat::grid_int(v@);
        assert forall|i: int, j: int| 0 <= i < m && 0 <= j < n implies (#[trigger] prod@[i][j])
            as int == gu[i][0] * gv[0][j] by {
            assert(crate::number::sum(0, |t: int| gu[i][t] * gv[t][j]) == 0);
            assert(crate::linalg::mul::mul_elem(gu, gv, i, j, 1) == gu[i][0] * gv[0][j]);
            assert(crate::linalg::mat::grid_int(prod@)[i][j] == prod@[i][j] as int);
        }
        assert forall|i: int, j: int| 0 <= i < m && 0 <= j < n implies 0 <= #[trigger] prod@[i][j]
            < RAND_BOUND as int * RAND_BOUND as int by {
            let x = gu[i][0];
            let y = gv[0][j];
            assert(0 <= x * y < RAND_BOUND as int * RAND_BOUND as int) by (nonlinear_arith)
                requires 0 <= x < RAND_BOUND as int, 0 <= y < RAND_BOUND as int;
        }
        assert forall|i: int, j: int, i2: int, j2: int|
            #![trigger prod@[i][j], prod@[i2][j2]]
            0 <= i < m && 0 <= j < n && 0 <= i2 < m && 0 <= j2 < n implies (prod@[i][j] as int)
            * (prod@[i2][j2] as int) == (prod@[i][j2] as int) * (prod@[i2][j] as int) by {
            let a = gu[i][0];
            let b = gv[0][j];
            let c = gu[i2][0];
            let d = gv[0][j2];
            assert((a * b) * (c * d) == (a * d) * (c * b)) by (nonlinear_arith);
        }
    }
    prod
}

/// A random `m x n` observation mask with exactly `sample_cnt` observed
/// entries, placed by a uniform shuffle.
pub fn omega(m: usize, n: usize, sample_cnt: usize) -> (r: MatBuf<bool>)
    requires
        m * n <= usize::MAX,
        sample_cnt <= m * n,
    ensures
        r.wf(),
        !r.transposed,
        r.rows_spec() == m,
        r.cols_spec() == n,
        r.buf@.len() == m * n,
        r.buf@.to_multiset().count(true) == sample_cnt,
{
    let total = m * n;
    let mut rng = fresh_rng();
    let mut a: Vec<bool> = Vec::with_capacity(total);
    while a.len() < sample_cnt
        invariant
            a@.len() <= sample_cnt,
            a@.to_multiset().count(true) == a@.len(),
        decreases sample_cnt - a@.len(),
    {
        a.push(true);
    }
    while a.len() < total
        invariant
            sample_cnt <= a@.len() <= total,
            a@.to_multiset().count(true) == sample_cnt,
        decreases total - a@.len(),
    {
        a.push(false);
    }
    shuffle_bools(&mut a, &mut rng);
    let mut ans = MatBuf::from_vec(a);
    ans.reshape([m, n]);
    ans
}

} // verus!
