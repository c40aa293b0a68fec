//! Shape-indexed dense storage: a `Shape` maps a tuple of per-dimension
//! indices to a flat row-major offset, and an `ArrayBuf` owns a flat buffer
//! whose length always equals the number of elements its shape addresses.

use vstd::prelude::*;
use vstd::arithmetic::mul::{lemma_mul_inequality, lemma_mul_is_distributive_add_other_way};
use vstd::arithmetic::div_mod::{lemma_fundamental_div_mod, lemma_mod_bound};
use vstd::slice::slice_index_get;
use crate::error::Error;

verus! {

/// Product of a shape's extents; one for the empty product.
pub open spec fn extent_prod(dims: Seq<usize>) -> int
    decreases dims.len(),
{
    if dims.len() == 0 {
        1
    } else {
        extent_prod(dims.drop_last()) * (dims.last() as int)
    }
}

/// How many elements a shape addresses: the product of its extents, except
/// that a shape with no dimensions addresses no elements (a freshly made
/// buffer is empty).
pub open spec fn shape_len(dims: Seq<usize>) -> int {
    if dims.len() == 0 {
        0
    } else {
        extent_prod(dims)
    }
}

/// The row-major flat offset of a coordinate tuple, in Horner form.
pub open spec fn linear_index(dims: Seq<usize>, coords: Seq<usize>) -> int
    decreases dims.len(),
{
    if dims.len() == 0 {
        0
    } else {
        linear_index(dims.drop_last(), coords.drop_last()) * (dims.last() as int)
            + (coords.last() as int)
    }
}

/// A coordinate tuple is valid for a shape when it has one component per
/// dimension, each strictly below the matching extent.
pub open spec fn coords_valid(dims: Seq<usize>, coords: Seq<usize>) -> bool {
    &&& coords.len() == dims.len()
    &&& forall|d: int| 0 <= d < dims.len() ==> (coords[d] as int) < (dims[d] as int)
}

/// The product of extents is never negative.
pub proof fn lemma_extent_prod_nonneg(dims: Seq<usize>)
    ensures
        extent_prod(dims) >= 0,
    decreases dims.len(),
{
    if dims.len() > 0 {
        lemma_extent_prod_nonneg(dims.drop_last());
        assert(extent_prod(dims.drop_last()) * (dims.last() as int) >= 0) by (nonlinear_arith)
            requires extent_prod(dims.drop_last()) >= 0, dims.last() as int >= 0;
    }
}

/// A shape one of whose extents is zero addresses zero elements.
pub proof fn lemma_extent_prod_zero(dims: Seq<usize>, d: int)
    requires
        0 <= d < dims.len(),
        dims[d] == 0,
    ensures
        extent_prod(dims) == 0,
    decreases dims.len(),
{
    let p = extent_prod(dims.drop_last());
    if d == dims.len() - 1 {
        assert(p * (dims.last() as int) == 0) by (nonlinear_arith)
            requires dims.last() as int == 0;
    } else {
        assert(dims.drop_last()[d] == dims[d]);
        lemma_extent_prod_zero(dims.drop_last(), d);
        assert(p * (dims.last() as int) == 0) by (nonlinear_arith)
            requires p == 0;
    }
}

/// Extending a prefix of a shape by its next extent multiplies the prefix
/// product by that extent.
pub proof fn lemma_extent_prod_prefix_step(dims: Seq<usize>, i: int)
    requires
        0 <= i < dims.len(),
    ensures
        extent_prod(dims.take(i + 1)) == extent_prod(dims.take(i)) * (dims[i] as int),
{
    assert(dims.take(i + 1).drop_last() =~= dims.take(i));
    assert(dims.take(i + 1).last() == dims[i]);
}

/// When every extent is positive, a prefix of the shape addresses no more
/// elements than the whole shape.
pub proof fn lemma_extent_prod_prefix_le(dims: Seq<usize>, i: int)
    requires
        0 <= i <= dims.len(),
        forall|d: int| 0 <= d < dims.len() ==> (dims[d] as int) >= 1,
    ensures
        extent_prod(dims.take(i)) <= extent_prod(dims),
    decreases dims.len() - i,
{
    if i == dims.len() {
        assert(dims.take(i) =~= dims);
    } else {
        lemma_extent_prod_prefix_step(dims, i);
        lemma_extent_prod_prefix_le(dims, i + 1);
        let p = extent_prod(dims.take(i));
        lemma_extent_prod_nonneg(dims.take(i));
        assert(p <= p * (dims[i] as int)) by (nonlinear_arith)
            requires p >= 0, dims[i] as int >= 1;
    }
}

/// A valid coordinate tuple's flat offset lies in `[0, extent_prod)`.
pub proof fn lemma_linear_index_bounds(dims: Seq<usize>, coords: Seq<usize>)
    requires
        coords_valid(dims, coords),
    ensures
        0 <= linear_index(dims, coords) < extent_prod(dims),
    decreases dims.len(),
{
    if dims.len() == 0 {
    } else {
        let dp = dims.drop_last();
        let cp = coords.drop_last();
        assert(coords_valid(dp, cp));
        lemma_linear_index_bounds(dp, cp);
        let li = linear_index(dp, cp);
        let p = extent_prod(dp);
        let e = dims.last() as int;
        let c = coords.last() as int;
        assert(0 <= li * e + c < p * e) by (nonlinear_arith)
            requires 0 <= li <= p - 1, 0 <= c < e;
    }
}

/// Row-major linearization is injective over the valid coordinate space:
/// two valid tuples with the same flat offset are the same tuple.
pub proof fn lemma_linear_index_injective(dims: Seq<usize>, c1: Seq<usize>, c2: Seq<usize>)
    requires
        coords_valid(dims, c1),
        coords_valid(dims, c2),
        linear_index(dims, c1) == linear_index(dims, c2),
    ensures
        c1 == c2,
    decreases dims.len(),
{
    if dims.len() == 0 {
        assert(c1 =~= c2);
    } else {
        let dp = dims.drop_last();
        let a = linear_index(dp, c1.drop_last());
        let b = linear_index(dp, c2.drop_last());
        let e = dims.last() as int;
        let x = c1.last() as int;
        let y = c2.last() as int;
        assert(coords_valid(dp, c1.drop_last()));
        assert(coords_valid(dp, c2.drop_last()));
        lemma_linear_index_bounds(dp, c1.drop_last());
        lemma_linear_index_bounds(dp, c2.drop_last());
        assert(a == b && x == y) by (nonlinear_arith)
            requires a * e + x == b * e + y, 0 <= x < e, 0 <= y < e, a >= 0, b >= 0;
        lemma_linear_index_injective(dp, c1.drop_last(), c2.drop_last());
        assert forall|i: int| 0 <= i < dims.len() implies c1[i] == c2[i] by {
            if i < dims.len() - 1 {
                assert(c1.drop_last()[i] == c1[i]);
                assert(c2.drop_last()[i] == c2[i]);
            }
        }
        assert(c1 =~= c2);
    }
}

/// An ordered sequence of non-negative per-dimension extents.
#[derive(Clone, Debug)]
pub struct Shape {
    pub size: Vec<usize>,
}

impl View for Shape {
    type V = Seq<usize>;

    open spec fn view(&self) -> Seq<usize> {
        self.size@
    }
}

impl Shape {
    /// The shape with no dimensions, addressing no elements.
    pub fn new() -> (s: Shape)
        ensures
            s@.len() == 0,
    {
        Shape { size: Vec::new() }
    }

    /// The shape with the given extents, outermost dimension first.
    pub fn from_dims(size: Vec<usize>) -> (s: Shape)
        ensures
            s@ == size@,
    {
        Shape { size }
    }

    /// Gives the extents back.
    pub fn into_inner(self) -> (v: Vec<usize>)
        ensures
            v@ == self@,
    {
        self.size
    }

    /// The number of elements the shape addresses, when that fits the
    /// machine; `None` reports that the product of the extents overflows.
    pub fn checked_len(&self) -> (r: Option<usize>)
        ensures
            match r {
                Some(n) => n == shape_len(self@),
                None => shape_len(self@) > usize::MAX,
            },
    {
        let n = self.size.len();
        if n == 0 {
            return Some(0);
        }
        let mut d: usize = 0;
        while d < n
            invariant
                n == self@.len(),
                0 <= d <= n,
                forall|k: int| 0 <= k < d ==> (self@[k] as int) >= 1,
            decreases n - d,
        {
            if self.size[d] == 0 {
                proof {
                    lemma_extent_prod_zero(self@, d as int);
                }
                return Some(0);
            }
            d += 1;
        }
        let mut acc: usize = 1;
        let mut i: usize = 0;
        proof {
            assert(self@.take(0) =~= Seq::<usize>::empty());
        }
        while i < n
            invariant
                n == self@.len(),
                0 <= i <= n,
                forall|k: int| 0 <= k < n ==> (self@[k] as int) >= 1,
                acc as int == extent_prod(self@.take(i as int)),
                acc >= 1,
            decreases n - i,
        {
            let s = self.size[i];
            proof {
                lemma_extent_prod_prefix_step(self@, i as int);
                lemma_fundamental_div_mod(usize::MAX as int, s as int);
                lemma_mod_bound(usize::MAX as int, s as int);
            }
            if acc > usize::MAX / s {
                proof {
                    lemma_mul_inequality(
                        usize::MAX as int / s as int + 1,
                        acc as int,
                        s as int,
                    );
                    lemma_mul_is_distributive_add_other_way(
                        s as int,
                        usize::MAX as int / s as int,
                        1,
                    );
                    lemma_extent_prod_prefix_le(self@, i as int + 1);
                }
                return None;
            }
            proof {
                lemma_mul_inequality(acc as int, usize::MAX as int / s as int, s as int);
                assert(acc as int * s as int >= 1) by (nonlinear_arith)
                    requires acc >= 1, s >= 1;
            }
            acc = acc * s;
            i += 1;
        }
        proof {
            assert(self@.take(n as int) =~= self@);
        }
        Some(acc)
    }

    /// The number of elements the shape addresses: the product of the
    /// extents, zero for the dimensionless shape.
    pub fn len(&self) -> (n: usize)
        requires
            shape_len(self@) <= usize::MAX,
        ensures
            n == shape_len(self@),
    {
        match self.checked_len() {
            Some(n) => n,
            None => {
                proof {
                    assert(false);
                }
                0
            },
        }
    }

    /// The extent of one dimension.
    pub fn len_of(&self, dimension: usize) -> (r: usize)
        requires
            dimension < self@.len(),
        ensures
            r == self@[dimension as int],
    {
        self.size[dimension]
    }

    /// How many dimensions the shape has.
    pub fn ndim(&self) -> (n: usize)
        ensures
            n == self@.len(),
    {
        self.size.len()
    }

    /// The row-major flat offset of a coordinate tuple.
    ///
    /// Fails with `DimensionMismatch` when the tuple's dimensionality is not
    /// the shape's, and with `IndexOutOfBounds` when some component is not
    /// strictly below its extent; otherwise the offset is
    /// `sum(coords[d] * stride[d])` with the innermost stride one, and lies
    /// below the shape's length.
    pub fn index(&self, coords: &[usize]) -> (r: Result<usize, Error>)
        requires
            self@.len() > 0,
            shape_len(self@) <= usize::MAX,
        ensures
            match r {
                Ok(off) => coords_valid(self@, coords@) && off == linear_index(self@, coords@)
                    && off < shape_len(self@),
                Err(e) => !coords_valid(self@, coords@) && if coords@.len() != self@.len() {
                    e == (Error::DimensionMismatch {
                        expected: self@.len() as usize,
                        actual: coords@.len() as usize,
                    })
                } else {
                    e == Error::IndexOutOfBounds
                },
            },
    {
        match check_limits(self.size.as_slice(), coords) {
            Ok(()) => {},
            Err(e) => {
                return Err(e);
            },
        }
        let n = coords.len();
        let mut off: usize = 0;
        let mut d: usize = 0;
        proof {
            assert(self@.take(0) =~= Seq::<usize>::empty());
            assert(coords@.take(0) =~= Seq::<usize>::empty());
        }
        while d < n
            invariant
                n == coords@.len(),
                coords_valid(self@, coords@),
                shape_len(self@) <= usize::MAX,
                self@.len() > 0,
                0 <= d <= n,
                off as int == linear_index(self@.take(d as int), coords@.take(d as int)),
                0 <= off as int,
                (off as int) < extent_prod(self@.take(d as int)),
            decreases n - d,
        {
            let s = self.size[d];
            let c = *slice_index_get(coords, d);
            proof {
                let i = d as int;
                assert(self@.take(i + 1).drop_last() =~= self@.take(i));
                assert(coords@.take(i + 1).drop_last() =~= coords@.take(i));
                lemma_extent_prod_prefix_step(self@, i);
                lemma_extent_prod_prefix_le(self@, i + 1);
                let p = extent_prod(self@.take(i));
                assert(0 <= (off as int) * (s as int) + (c as int) < p * (s as int))
                    by (nonlinear_arith)
                    requires 0 <= off as int, off as int <= p - 1, 0 <= c as int, (c as int) < (s as int);
            }
            off = off * s + c;
            d += 1;
        }
        proof {
            assert(self@.take(n as int) =~= self@);
            assert(coords@.take(n as int) =~= coords@);
        }
        Ok(off)
    }
}

/// Rejects an index tuple whose dimensionality differs from the shape's, or
/// one of whose components is not strictly below the matching extent.
fn check_limits(limit: &[usize], index: &[usize]) -> (r: Result<(), Error>)
    ensures
        match r {
            Ok(()) => coords_valid(limit@, index@),
            Err(e) => !coords_valid(limit@, index@) && if index@.len() != limit@.len() {
                e == (Error::DimensionMismatch {
                    expected: limit@.len() as usize,
                    actual: index@.len() as usize,
                })
            } else {
                e == Error::IndexOutOfBounds
            },
        },
{
    if index.len() != limit.len() {
        return Err(Error::DimensionMismatch { expected: limit.len(), actual: index.len() });
    }
    let n = limit.len();
    let mut d: usize = 0;
    while d < n
        invariant
            n == limit@.len() == index@.len(),
            0 <= d <= n,
            forall|k: int| 0 <= k < d ==> (index@[k] as int) < (limit@[k] as int),
        decreases n - d,
    {
        if *slice_index_get(index, d) >= *slice_index_get(limit, d) {
            return Err(Error::IndexOutOfBounds);
        }
        d += 1;
    }
    Ok(())
}

/// The flat contents of a buffer after it is reshaped to hold `new_len`
/// elements: a shrink keeps the leading elements, a growth appends copies of
/// the fill value.
pub open spec fn reshape_seq<T>(data: Seq<T>, new_len: int, fill: T) -> Seq<T> {
    if new_len <= data.len() {
        data.take(new_len)
    } else {
        data + Seq::new((new_len - data.len()) as nat, |i: int| fill)
    }
}

/// Reshaping back to a shape of the original length restores that length,
/// whatever the intervening shape and whatever the fill value.
pub proof fn lemma_reshape_round_trip<T>(data: Seq<T>, mid_len: int, fill: T)
    requires
        mid_len >= 0,
    ensures
        reshape_seq(reshape_seq(data, mid_len, fill), data.len() as int, fill).len()
            == data.len(),
{
}

/// Truncating to a length already at most the current one is idempotent:
/// a second truncation to the same length changes nothing.
pub proof fn lemma_truncate_idempotent<T>(data: Seq<T>, new_len: int)
    requires
        0 <= new_len <= data.len(),
    ensures
        data.take(new_len).take(new_len) == data.take(new_len),
{
    assert(data.take(new_len).take(new_len) =~= data.take(new_len));
}

/// A dense buffer of `T` owning a flat vector of exactly as many elements as
/// its shape addresses.
#[derive(Clone, Debug)]
pub struct ArrayBuf<T> {
    pub shape: Shape,
    pub data: Vec<T>,
}

impl<T> View for ArrayBuf<T> {
    type V = Seq<T>;

    open spec fn view(&self) -> Seq<T> {
        self.data@
    }
}

impl<T> ArrayBuf<T> {
    /// The buffer's invariant: the flat storage holds exactly as many
    /// elements as the shape addresses.
    pub open spec fn wf(&self) -> bool {
        self.data@.len() == shape_len(self.shape@)
    }

    /// The extents of the buffer's shape.
    pub open spec fn dims(&self) -> Seq<usize> {
        self.shape@
    }

    /// An empty buffer with the dimensionless shape.
    pub fn new() -> (a: ArrayBuf<T>)
        ensures
            a.wf(),
            a@.len() == 0,
            a.dims().len() == 0,
    {
        ArrayBuf { shape: Shape::new(), data: Vec::new() }
    }

    /// Wraps a flat vector as a one-dimensional buffer of its length.
    pub fn from_vec(src: Vec<T>) -> (a: ArrayBuf<T>)
        ensures
            a.wf(),
            a@ == src@,
            a.dims() =~= seq![src@.len() as usize],
    {
        let n = src.len();
        let mut size: Vec<usize> = Vec::new();
        size.push(n);
        proof {
            assert(size@ =~= seq![n]);
            assert(size@.drop_last() =~= Seq::<usize>::empty());
            assert(extent_prod(Seq::<usize>::empty()) == 1);
            assert(extent_prod(size@) == 1 * (n as int));
        }
        ArrayBuf { shape: Shape::from_dims(size), data: src }
    }

    /// Gives the flat storage back, consuming the buffer.
    pub fn into_data(self) -> (v: Vec<T>)
        ensures
            v@ == self@,
    {
        self.data
    }

    /// The buffer's shape.
    pub fn shape(&self) -> (s: &Shape)
        ensures
            s@ == self.dims(),
    {
        &self.shape
    }

    /// The number of elements the buffer holds.
    pub fn len(&self) -> (n: usize)
        requires
            self.wf(),
        ensures
            n == self@.len(),
    {
        let _bound = self.data.len();
        self.shape.len()
    }

    /// Whether the buffer holds no elements.
    pub fn is_empty(&self) -> (b: bool)
        requires
            self.wf(),
        ensures
            b == (self@.len() == 0),
    {
        self.len() == 0
    }

    /// How many dimensions the buffer's shape has.
    pub fn ndim(&self) -> (n: usize)
        ensures
            n == self.dims().len(),
    {
        self.shape.ndim()
    }

    /// The flat backing storage, for bulk access by higher layers.
    pub fn as_slice(&self) -> (s: &[T])
        ensures
            s@ == self@,
    {
        self.data.as_slice()
    }

    /// Re-addresses the buffer under a shape of at most the current length,
    /// discarding excess trailing elements without re-linearization.
    ///
    /// Fails with `ShapeGrowthNotAllowed`, before any mutation, when the new
    /// shape addresses more elements than the buffer holds: truncate is
    /// shrink-only by contract.
    pub fn truncate(&mut self, new_shape: Shape) -> (r: Result<(), Error>)
        requires
            old(self).wf(),
        ensures
            final(self).wf(),
            match r {
                Ok(()) => shape_len(new_shape@) <= old(self)@.len() && final(self).dims()
                    == new_shape@ && final(self)@ == old(self)@.take(shape_len(new_shape@)),
                Err(e) => e == Error::ShapeGrowthNotAllowed && shape_len(new_shape@)
                    > old(self)@.len() && final(self).dims() == old(self).dims() && final(self)@ == old(self)@,
            },
    {
        let cur = self.data.len();
        match new_shape.checked_len() {
            None => Err(Error::ShapeGrowthNotAllowed),
            Some(nl) => {
                if nl <= cur {
                    self.data.truncate(nl);
                    self.shape = new_shape;
                    proof {
                        assert(self.data@ =~= old(self)@.take(shape_len(new_shape@)));
                    }
                    Ok(())
                } else {
                    Err(Error::ShapeGrowthNotAllowed)
                }
            },
        }
    }

    /// Re-addresses the buffer under a new shape, truncating on a shrink and
    /// appending values produced by the generator, in order of production,
    /// on a growth.
    pub fn reshape_with<F: Fn() -> T>(&mut self, new_shape: Shape, f: F)
        requires
            old(self).wf(),
            shape_len(new_shape@) <= usize::MAX,
            call_requires(f, ()),
        ensures
            final(self).wf(),
            final(self).dims() == new_shape@,
            final(self)@.len() == shape_len(new_shape@),
            shape_len(new_shape@) <= old(self)@.len() ==> final(self)@ == old(self)@.take(
                shape_len(new_shape@),
            ),
            shape_len(new_shape@) > old(self)@.len() ==> final(self)@.take(
                old(self)@.len() as int,
            ) == old(self)@ && forall|k: int|
                old(self)@.len() <= k < shape_len(new_shape@) ==> call_ensures(
                    f,
                    (),
                    #[trigger] final(self)@[k],
                ),
    {
        let cur = self.data.len();
        let nl = match new_shape.checked_len() {
            Some(nl) => nl,
            None => {
                proof {
                    assert(false);
                }
                0
            },
        };
        if nl <= cur {
            self.data.truncate(nl);
            proof {
                assert(self.data@ =~= old(self)@.take(shape_len(new_shape@)));
            }
        } else {
            while self.data.len() < nl
                invariant
                    old(self)@.len() < nl,
                    old(self)@.len() <= self.data@.len() <= nl,
                    self.data@.take(old(self)@.len() as int) =~= old(self)@,
                    forall|k: int|
                        old(self)@.len() <= k < self.data@.len() ==> call_ensures(
                            f,
                            (),
                            #[trigger] self.data@[k],
                        ),
                    call_requires(f, ()),
                decreases nl - self.data@.len(),
            {
                let v = f();
                self.data.push(v);
            }
        }
        self.shape = new_shape;
    }
}

impl<T: Copy> ArrayBuf<T> {
    /// Re-addresses the buffer under a new shape, truncating on a shrink and
    /// appending copies of the fill value on a growth.
    pub fn reshape(&mut self, new_shape: Shape, value: T)
        requires
            old(self).wf(),
            shape_len(new_shape@) <= usize::MAX,
        ensures
            final(self).wf(),
            final(self).dims() == new_shape@,
            final(self)@ == reshape_seq(old(self)@, shape_len(new_shape@), value),
    {
        let cur = self.data.len();
        let nl = match new_shape.checked_len() {
            Some(nl) => nl,
            None => {
                proof {
                    assert(false);
                }
                0
            },
        };
        if nl <= cur {
            self.data.truncate(nl);
            proof {
                assert(self.data@ =~= reshape_seq(old(self)@, shape_len(new_shape@), value));
            }
        } else {
            while self.data.len() < nl
                invariant
                    old(self)@.len() < nl,
                    old(self)@.len() <= self.data@.len() <= nl,
                    self.data@.take(old(self)@.len() as int) =~= old(self)@,
                    forall|k: int|
                        old(self)@.len() <= k < self.data@.len() ==> self.data@[k] == value,
                decreases nl - self.data@.len(),
            {
                self.data.push(value);
            }
            proof {
                assert(self.data@ =~= reshape_seq(old(self)@, shape_len(new_shape@), value));
            }
        }
        self.shape = new_shape;
    }
}

} // verus!
