//! Integer-valued numeric support: finite sums, the integer square root, and
//! the `Sqrt` trait that the norm kernel is generic over.
//!
//! Every element of this library is an exact integer, so the square root of a
//! sum of squares is the floor square root `isqrt`.

use vstd::prelude::*;
use vstd::arithmetic::mul::lemma_mul_inequality;

verus! {

/// Sum of `f(0) + f(1) + ... + f(n - 1)`; zero when `n <= 0`.
pub open spec fn sum(n: int, f: spec_fn(int) -> int) -> int
    decreases n,
{
    if n <= 0 {
        0
    } else {
        sum(n - 1, f) + f(n - 1)
    }
}

/// Two summands that agree on `[0, n)` have the same sum.
pub proof fn lemma_sum_ext(n: int, f: spec_fn(int) -> int, g: spec_fn(int) -> int)
    requires
        forall|k: int| 0 <= k < n ==> #[trigger] f(k) == g(k),
    ensures
        sum(n, f) == sum(n, g),
    decreases n,
{
    if n > 0 {
        lemma_sum_ext(n - 1, f, g);
    }
}

/// Summing `h = f + g` pointwise splits into the two sums.
pub proof fn lemma_sum_split(
    n: int,
    f: spec_fn(int) -> int,
    g: spec_fn(int) -> int,
    h: spec_fn(int) -> int,
)
    requires
        forall|k: int| 0 <= k < n ==> #[trigger] h(k) == f(k) + g(k),
    ensures
        sum(n, h) == sum(n, f) + sum(n, g),
    decreases n,
{
    if n > 0 {
        lemma_sum_split(n - 1, f, g, h);
    }
}

/// A constant factor moves out of a sum: if `g = c * f` pointwise then
/// `sum g = c * sum f`.
pub proof fn lemma_sum_scale(n: int, c: int, f: spec_fn(int) -> int, g: spec_fn(int) -> int)
    requires
        forall|k: int| 0 <= k < n ==> #[trigger] g(k) == c * f(k),
    ensures
        sum(n, g) == c * sum(n, f),
    decreases n,
{
    if n <= 0 {
    } else {
        lemma_sum_scale(n - 1, c, f, g);
        let a = sum(n - 1, f);
        let b = f(n - 1);
        assert(c * (a + b) == c * a + c * b) by (nonlinear_arith);
    }
}

/// A sum of nonnegative terms grows with its length.
pub proof fn lemma_sum_nonneg_mono(j: int, n: int, f: spec_fn(int) -> int)
    requires
        0 <= j <= n,
        forall|k: int| 0 <= k < n ==> #[trigger] f(k) >= 0,
    ensures
        0 <= sum(j, f) <= sum(n, f),
    decreases n,
{
    if n > 0 && j < n {
        lemma_sum_nonneg_mono(j, n - 1, f);
    } else if n > 0 && j == n {
        lemma_sum_nonneg_mono(j - 1, n - 1, f);
    }
}

/// Pointwise-dominated sums compare the same way as their terms.
pub proof fn lemma_sum_le(n: int, f: spec_fn(int) -> int, g: spec_fn(int) -> int)
    requires
        forall|k: int| 0 <= k < n ==> #[trigger] f(k) <= g(k),
    ensures
        sum(n, f) <= sum(n, g),
    decreases n,
{
    if n > 0 {
        lemma_sum_le(n - 1, f, g);
    }
}

/// Exchanging the order of a finite double sum: if `rs(i)` sums row `i` of
/// `f` and `cs(j)` sums column `j`, the row-by-row and column-by-column
/// totals agree.
pub proof fn lemma_sum_swap(
    m: int,
    n: int,
    f: spec_fn(int, int) -> int,
    rs: spec_fn(int) -> int,
    cs: spec_fn(int) -> int,
)
    requires
        forall|i: int| 0 <= i < m ==> #[trigger] rs(i) == sum(n, |j: int| f(i, j)),
        forall|j: int| 0 <= j < n ==> #[trigger] cs(j) == sum(m, |i: int| f(i, j)),
    ensures
        sum(m, rs) == sum(n, cs),
    decreases m,
{
    if m <= 0 {
        let zf = |j: int| 0;
        lemma_sum_ext(n, cs, zf);
        lemma_sum_zero(n, zf);
    } else {
        let cs1 = |j: int| sum(m - 1, |i: int| f(i, j));
        lemma_sum_swap(m - 1, n, f, rs, cs1);
        let last = |j: int| f(m - 1, j);
        assert forall|j: int| 0 <= j < n implies #[trigger] cs(j) == cs1(j) + last(j) by {
            reveal_with_fuel(sum, 2);
            assert(sum(m, |i: int| f(i, j)) == sum(m - 1, |i: int| f(i, j)) + f(m - 1, j));
        }
        lemma_sum_split(n, cs1, last, cs);
        assert(rs(m - 1) == sum(n, last));
    }
}

/// The sum of the all-zero summand is zero.
pub proof fn lemma_sum_zero(n: int, f: spec_fn(int) -> int)
    requires
        forall|k: int| 0 <= k < n ==> #[trigger] f(k) == 0,
    ensures
        sum(n, f) == 0,
    decreases n,
{
    if n > 0 {
        lemma_sum_zero(n - 1, f);
    }
}

/// Division by a positive divisor with the quotient rounded toward zero,
/// the rounding that machine integer division performs.
pub open spec fn trunc_div(a: int, b: int) -> int {
    if a >= 0 {
        a / b
    } else {
        -((-a) / b)
    }
}

/// The square of a truncated quotient is at most the square of the exact
/// ratio: `trunc_div(a, b)^2 * b^2 <= a^2` for a positive divisor.
pub proof fn lemma_trunc_div_sq(a: int, b: int)
    requires
        b >= 1,
    ensures
        trunc_div(a, b) * trunc_div(a, b) * (b * b) <= a * a,
{
    let q = trunc_div(a, b);
    if a >= 0 {
        lemma_fundamental_div_mod_pair(a, b);
        assert(q * q * (b * b) <= a * a) by (nonlinear_arith)
            requires 0 <= q * b <= a;
    } else {
        lemma_fundamental_div_mod_pair(-a, b);
        assert(q * q * (b * b) <= a * a) by (nonlinear_arith)
            requires q == -((-a) / b), 0 <= ((-a) / b) * b <= -a;
    }
}

/// For nonnegative `a` and positive `b`, the rounded-down quotient times the
/// divisor stays between zero and `a`.
proof fn lemma_fundamental_div_mod_pair(a: int, b: int)
    requires
        a >= 0,
        b >= 1,
    ensures
        0 <= (a / b) * b <= a,
{
    vstd::arithmetic::div_mod::lemma_fundamental_div_mod(a, b);
    vstd::arithmetic::div_mod::lemma_mod_bound(a, b);
    assert(0 <= (a / b) * b) by (nonlinear_arith)
        requires a >= 0, b >= 1, a == b * (a / b) + a % b, 0 <= a % b < b;
    assert(b * (a / b) == (a / b) * b) by (nonlinear_arith);
}

/// The floor of the square root of `n`, and `0` for negative `n`.
pub open spec fn isqrt(n: int) -> int
    decreases n,
{
    if n <= 0 {
        0
    } else if (isqrt(n - 1) + 1) * (isqrt(n - 1) + 1) <= n {
        isqrt(n - 1) + 1
    } else {
        isqrt(n - 1)
    }
}

/// `isqrt(n)` is the greatest integer whose square is at most `n`.
pub proof fn lemma_isqrt_bounds(n: int)
    requires
        n >= 0,
    ensures
        isqrt(n) >= 0,
        isqrt(n) * isqrt(n) <= n,
        n < (isqrt(n) + 1) * (isqrt(n) + 1),
    decreases n,
{
    if n > 0 {
        lemma_isqrt_bounds(n - 1);
        let r = isqrt(n - 1);
        if (r + 1) * (r + 1) <= n {
            assert(n - 1 < (r + 1) * (r + 1));
            assert(n == (r + 1) * (r + 1));
            assert((r + 1) * (r + 1) < (r + 2) * (r + 2)) by (nonlinear_arith)
                requires r >= 0;
        }
    }
}

/// The floor square root of a nonnegative integer is between zero and that
/// integer, so it survives a round trip through any type that holds `n`.
pub proof fn lemma_isqrt_le(n: int)
    requires
        n >= 0,
    ensures
        0 <= isqrt(n) <= n,
{
    lemma_isqrt_bounds(n);
    let s = isqrt(n);
    if s > n {
        assert(s * s > n) by (nonlinear_arith)
            requires s > n, n >= 0;
    }
}

/// No integer other than `isqrt(n)` sits between the two squares.
pub proof fn lemma_isqrt_unique(n: int, r: int)
    requires
        n >= 0,
        r >= 0,
        r * r <= n,
        n < (r + 1) * (r + 1),
    ensures
        r == isqrt(n),
{
    lemma_isqrt_bounds(n);
    let s = isqrt(n);
    if r < s {
        lemma_mul_inequality(r + 1, s, r + 1);
        lemma_mul_inequality(r + 1, s, s);
        assert((r + 1) * (r + 1) <= s * s) by (nonlinear_arith)
            requires 0 <= r + 1 <= s;
    }
    if s < r {
        assert((s + 1) * (s + 1) <= r * r) by (nonlinear_arith)
            requires 0 <= s + 1 <= r;
    }
}

/// The floor square root of a nonnegative machine integer, found by binary
/// search over the square.
pub fn isqrt_i64(n: i64) -> (r: i64)
    requires
        n >= 0,
    ensures
        r == isqrt(n as int),
        r >= 0,
        r * r <= n,
        n < (r + 1) * (r + 1),
{
    let mut lo: i64 = 0;
    let mut hi: i64 = if n < 3037000499 {
        n + 1
    } else {
        3037000500
    };
    proof {
        assert((n as int) < (hi as int) * (hi as int)) by (nonlinear_arith)
            requires
                n >= 0,
                hi == if n < 3037000499 { n + 1 as int } else { 3037000500 as int },
                n <= 0x7fff_ffff_ffff_ffff;
    }
    while lo + 1 < hi
        invariant
            0 <= lo < hi <= 3037000500,
            n >= 0,
            lo * lo <= n,
            (n as int) < (hi as int) * (hi as int),
        decreases hi - lo,
    {
        let mid = lo + (hi - lo) / 2;
        assert(lo < mid < hi);
        assert(mid * mid <= 3037000499 * 3037000499) by (nonlinear_arith)
            requires 0 <= mid <= 3037000499;
        if mid * mid <= n {
            lo = mid;
        } else {
            hi = mid;
        }
    }
    proof {
        lemma_isqrt_unique(n as int, lo as int);
    }
    lo
}

/// A type with an in-place square root, as the Euclidean norm uses it.
pub trait Sqrt: Sized {
    /// The inputs on which taking the square root is meaningful.
    spec fn sqrt_req(&self) -> bool;

    /// The value that `sqrt` returns.
    spec fn sqrt_spec(&self) -> Self;

    /// The square root of `self`.
    fn sqrt(self) -> (r: Self)
        requires
            self.sqrt_req(),
        ensures
            r == self.sqrt_spec(),
    ;
}

impl Sqrt for i64 {
    open spec fn sqrt_req(&self) -> bool {
        *self >= 0
    }

    open spec fn sqrt_spec(&self) -> i64 {
        isqrt(*self as int) as i64
    }

    fn sqrt(self) -> (r: i64) {
        let r = isqrt_i64(self);
        proof {
            lemma_isqrt_bounds(self as int);
        }
        r
    }
}

} // verus!
