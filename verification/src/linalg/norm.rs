//! The Euclidean norm.
//!
//! Every element of this library is an exact integer, so the norm is the
//! floor square root of the sum of squares. Over a matrix the norm reads the
//! flat physical storage in order — not the logical transposed view — which
//! downstream projection math depends on. An empty input fails with
//! `EmptyInput`.

use vstd::prelude::*;
use vstd::slice::slice_index_get;
use crate::error::Error;
use crate::linalg::mat::{Mat, MatBuf};
use crate::number::{isqrt, lemma_isqrt_bounds, lemma_sum_nonneg_mono, sum, Sqrt};

verus! {

/// The sum of the squares of a flat sequence of machine integers.
pub open spec fn sum_sq(data: Seq<i64>) -> int {
    sum(data.len() as int, |t: int| (data[t] as int) * (data[t] as int))
}

/// What the Euclidean norm returns for flat storage `data`: the floor
/// square root of the sum of squares, or `EmptyInput` when there is nothing
/// to sum.
pub open spec fn norm_spec_of(data: Seq<i64>) -> Result<i64, Error> {
    if data.len() == 0 {
        Err(Error::EmptyInput)
    } else {
        Ok(isqrt(sum_sq(data)) as i64)
    }
}

/// A norm over inputs of type `M`, producing `R`.
pub trait Norm<M, R> {
    /// The inputs on which the norm may be asked.
    spec fn norm_req(input: &M) -> bool;

    /// The value that `norm` returns.
    spec fn norm_spec(input: &M) -> R;

    /// The norm of the input.
    fn norm(input: &M) -> (r: R)
        requires
            Self::norm_req(input),
        ensures
            r == Self::norm_spec(input),
    ;
}

/// The Euclidean norm: the square root of the sum of squares, seeded with
/// the first square and accumulated by sequential addition.
pub struct EuclideanNorm;

/// The Euclidean norm of flat storage, or `EmptyInput` when it is empty.
fn norm_slice(data: &[i64]) -> (r: Result<i64, Error>)
    requires
        sum_sq(data@) <= i64::MAX,
    ensures
        r == norm_spec_of(data@),
{
    let len = data.len();
    if len == 0 {
        return Err(Error::EmptyInput);
    }
    let ghost sq = |t: int| (data@[t] as int) * (data@[t] as int);
    proof {
        assert forall|t: int| 0 <= t < len implies #[trigger] sq(t) >= 0 by {
            let x = data@[t] as int;
            assert(x * x >= 0) by (nonlinear_arith);
        }
        lemma_sum_nonneg_mono(1, len as int, sq);
        assert(sum(1, sq) == sum(0, sq) + sq(0));
    }
    let first = *slice_index_get(data, 0);
    let mut acc: i64 = first * first;
    let mut t: usize = 1;
    while t < len
        invariant
            len == data@.len(),
            sum_sq(data@) <= i64::MAX,
            forall|u: int| 0 <= u < len ==> #[trigger] sq(u) >= 0,
            sq == (|u: int| (data@[u] as int) * (data@[u] as int)),
            1 <= t <= len,
            acc as int == sum(t as int, sq),
            0 <= acc,
        decreases len - t,
    {
        proof {
            lemma_sum_nonneg_mono(t as int + 1, len as int, sq);
            lemma_sum_nonneg_mono(t as int, t as int + 1, sq);
            assert(sum(t as int + 1, sq) == sum(t as int, sq) + sq(t as int));
        }
        let v = *slice_index_get(data, t);
        acc = acc + v * v;
        t += 1;
    }
    proof {
        lemma_isqrt_bounds(acc as int);
        let s = isqrt(acc as int);
        if s > acc as int {
            assert(s * s > acc as int) by (nonlinear_arith)
                requires s > acc as int, acc as int >= 0;
        }
    }
    Ok(acc.sqrt())
}

impl Norm<Vec<i64>, Result<i64, Error>> for EuclideanNorm {
    open spec fn norm_req(input: &Vec<i64>) -> bool {
        sum_sq(input@) <= i64::MAX
    }

    open spec fn norm_spec(input: &Vec<i64>) -> Result<i64, Error> {
        norm_spec_of(input@)
    }

    fn norm(input: &Vec<i64>) -> (r: Result<i64, Error>) {
        norm_slice(input.as_slice())
    }
}

impl Norm<MatBuf<i64>, Result<i64, Error>> for EuclideanNorm {
    open spec fn norm_req(input: &MatBuf<i64>) -> bool {
        sum_sq(input.buf@) <= i64::MAX
    }

    open spec fn norm_spec(input: &MatBuf<i64>) -> Result<i64, Error> {
        norm_spec_of(input.buf@)
    }

    fn norm(input: &MatBuf<i64>) -> (r: Result<i64, Error>) {
        norm_slice(input.as_slice())
    }
}

impl<'a> Norm<Mat<'a, i64>, Result<i64, Error>> for EuclideanNorm {
    open spec fn norm_req(input: &Mat<'a, i64>) -> bool {
        sum_sq(input.buf@) <= i64::MAX
    }

    open spec fn norm_spec(input: &Mat<'a, i64>) -> Result<i64, Error> {
        norm_spec_of(input.buf@)
    }

    fn norm(input: &Mat<'a, i64>) -> (r: Result<i64, Error>) {
        norm_slice(input.as_slice())
    }
}

} // verus!
