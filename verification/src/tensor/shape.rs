use vstd::prelude::*;

verus! {

/// Product of a sequence of dimension sizes; the empty product is 1,
/// so the empty shape is treated as a scalar holding one element.
pub open spec fn prod_of(dims: Seq<usize>) -> int
    decreases dims.len(),
{
    if dims.len() == 0 {
        1
    } else {
        dims[0] * prod_of(dims.drop_first())
    }
}

/// Every suffix product of the dimension vector fits in a `usize`, so the
/// element count and the contiguous strides can be computed without overflow.
pub open spec fn dims_wf(dims: Seq<usize>) -> bool {
    forall|i: int| 0 <= i <= dims.len() ==> #[trigger] prod_of(dims.skip(i)) <= usize::MAX
}

/// The dimension size `k` places from the right end, with missing leading
/// dimensions read as size 1 (the right-aligned broadcast convention).
pub open spec fn dim_from_right(dims: Seq<usize>, k: int) -> usize {
    if k < dims.len() {
        dims[dims.len() - 1 - k]
    } else {
        1
    }
}

/// Two aligned dimension sizes may be broadcast together: equal, or either is 1.
pub open spec fn sizes_compat(x: usize, y: usize) -> bool {
    x == y || x == 1 || y == 1
}

/// The broadcast of two aligned dimension sizes; only meaningful when they
/// are compatible. Equals `max(x, y)` on compatible pairs, with 1 only when
/// both are 1.
pub open spec fn bcast_size(x: usize, y: usize) -> usize {
    if x == 1 {
        y
    } else {
        x
    }
}

/// Right-aligned compatibility of two whole dimension vectors.
pub open spec fn bcast_compat(a: Seq<usize>, b: Seq<usize>) -> bool {
    forall|k: int| 0 <= k ==> #[trigger] sizes_compat(dim_from_right(a, k), dim_from_right(b, k))
}

/// The broadcast result dimension vector of two compatible dimension vectors:
/// as long as the longer of the two, each entry the broadcast of the aligned pair.
pub open spec fn bcast_dims(a: Seq<usize>, b: Seq<usize>) -> Seq<usize> {
    let n = if a.len() >= b.len() { a.len() } else { b.len() };
    Seq::new(n, |j: int| bcast_size(dim_from_right(a, n - 1 - j), dim_from_right(b, n - 1 - j)))
}

/// The stride for iterating a buffer of shape `src` as if it had shape `tgt`
/// (which must be at least as long), per target dimension `j`: 0 for target
/// dimensions `src` does not reach and for `src` dimensions of size 1 repeated
/// against a larger target size; otherwise `src`'s own contiguous stride.
pub open spec fn bcast_stride_at(src: Seq<usize>, tgt: Seq<usize>, j: int) -> int {
    let off = tgt.len() - src.len();
    if j < off {
        0
    } else if src[j - off] == 1 && tgt[j] != 1 {
        0
    } else {
        prod_of(src.skip(j - off + 1))
    }
}

pub proof fn lemma_prod_nonneg(dims: Seq<usize>)
    ensures
        prod_of(dims) >= 0,
    decreases dims.len(),
{
    if dims.len() > 0 {
        lemma_prod_nonneg(dims.drop_first());
        assert(dims[0] * prod_of(dims.drop_first()) >= 0) by (nonlinear_arith)
            requires
                dims[0] >= 0,
                prod_of(dims.drop_first()) >= 0,
        ;
    }
}

/// Peeling one dimension off the front of a suffix multiplies its product back in.
pub proof fn lemma_prod_skip(dims: Seq<usize>, i: int)
    requires
        0 <= i < dims.len(),
    ensures
        prod_of(dims.skip(i)) == dims[i] * prod_of(dims.skip(i + 1)),
{
    assert(dims.skip(i).drop_first() =~= dims.skip(i + 1));
    assert(dims.skip(i)[0] == dims[i]);
}

/// Aligned compatibility is symmetric in its two dimension vectors.
pub proof fn lemma_bcast_compat_symmetric(a: Seq<usize>, b: Seq<usize>)
    ensures
        bcast_compat(a, b) == bcast_compat(b, a),
{
    assert forall|x: Seq<usize>, y: Seq<usize>| bcast_compat(x, y) implies bcast_compat(
        y,
        x,
    ) by {
        assert forall|k: int| 0 <= k implies #[trigger] sizes_compat(
            dim_from_right(y, k),
            dim_from_right(x, k),
        ) by {
            assert(sizes_compat(dim_from_right(x, k), dim_from_right(y, k)));
        }
    }
}

/// On compatible dimension vectors the broadcast result does not depend on
/// the order of the two operands.
pub proof fn lemma_bcast_dims_symmetric(a: Seq<usize>, b: Seq<usize>)
    requires
        bcast_compat(a, b),
    ensures
        bcast_dims(a, b) == bcast_dims(b, a),
{
    let n = if a.len() >= b.len() { a.len() } else { b.len() };
    assert forall|j: int| 0 <= j < n implies bcast_dims(a, b)[j] == bcast_dims(b, a)[j] by {
        let k = n - 1 - j;
        assert(sizes_compat(dim_from_right(a, k), dim_from_right(b, k)));
    }
    assert(bcast_dims(a, b) =~= bcast_dims(b, a));
}

/// An ordered vector of non-negative dimension sizes, outermost first.
/// Immutable once constructed; operations produce new shapes.
#[derive(Debug, PartialEq)]
pub struct Shape {
    pub(crate) dims: Vec<usize>,
}

/// Errors from the broadcast engine: a pair of aligned sizes that the
/// broadcast rule refuses, or a target shape a source cannot be strided over.
#[derive(Debug, Clone, Copy, PartialEq, Eq, Structural)]
pub enum BroadcastError {
    IncompatibleShapes(usize, usize),
    DimensionMismatch,
}

impl View for Shape {
    type V = Seq<usize>;

    closed spec fn view(&self) -> Seq<usize> {
        self.dims@
    }
}

impl Clone for Shape {
    fn clone(&self) -> (r: Shape)
        ensures
            r@ == self@,
    {
        Shape { dims: clone_dims(&self.dims) }
    }
}

/// A copy of a dimension vector.
pub(crate) fn clone_dims(v: &Vec<usize>) -> (r: Vec<usize>)
    ensures
        r@ == v@,
{
    let mut r: Vec<usize> = Vec::new();
    let mut i: usize = 0;
    while i < v.len()
        invariant
            i <= v@.len(),
            r@ == v@.take(i as int),
        decreases v@.len() - i,
    {
        r.push(v[i]);
        assert(r@ =~= v@.take(i + 1));
        i = i + 1;
    }
    assert(r@ =~= v@);
    r
}

impl Shape {
    pub fn new(dims: Vec<usize>) -> (s: Shape)
        ensures
            s@ == dims@,
    {
        Shape { dims }
    }

    /// Give up the shape and keep its dimension vector.
    pub fn into_dims(self) -> (r: Vec<usize>)
        ensures
            r@ == self@,
    {
        self.dims
    }

    pub fn dims(&self) -> (r: &Vec<usize>)
        ensures
            r@ == self@,
    {
        &self.dims
    }

    pub fn is_scalar(&self) -> (r: bool)
        ensures
            r == (self@.len() == 0 || (self@.len() == 1 && self@[0] == 1)),
    {
        self.dims.len() == 0 || (self.dims.len() == 1 && self.dims[0] == 1)
    }

    /// The number of elements a dense buffer of this shape holds.
    pub fn num_elements(&self) -> (n: usize)
        requires
            dims_wf(self@),
        ensures
            n == prod_of(self@),
    {
        let ghost ds = self@;
        let mut acc: usize = 1;
        let mut i: usize = self.dims.len();
        assert(ds.skip(i as int) =~= Seq::<usize>::empty());
        while i > 0
            invariant
                i <= ds.len(),
                self@ == ds,
                dims_wf(ds),
                acc == prod_of(ds.skip(i as int)),
            decreases i,
        {
            i = i - 1;
            proof {
                lemma_prod_skip(ds, i as int);
                lemma_prod_nonneg(ds.skip(i as int));
            }
            acc = self.dims[i] * acc;
        }
        assert(ds.skip(0) =~= ds);
        acc
    }

    /// Standard row-major strides: rightmost dimension fastest-varying, each
    /// stride the product of the sizes to its right.
    pub fn contiguous_strides(&self) -> (r: Vec<usize>)
        requires
            dims_wf(self@),
        ensures
            r@.len() == self@.len(),
            forall|i: int|
                0 <= i < self@.len() ==> r@[i] == prod_of(#[trigger] self@.skip(i + 1)),
    {
        contig_strides_vec(&self.dims)
    }

}

/// Row-major strides of a dimension vector; shared by the shape methods and
/// the kernel index arithmetic.
pub(crate) fn contig_strides_vec(dims: &Vec<usize>) -> (r: Vec<usize>)
    requires
        dims_wf(dims@),
    ensures
        r@.len() == dims@.len(),
        forall|i: int|
            0 <= i < dims@.len() ==> r@[i] == prod_of(#[trigger] dims@.skip(i + 1)),
{
    let ghost ds = dims@;
    let n = dims.len();
    // Walk the dimensions right to left, recording each suffix product.
    let mut rev: Vec<usize> = Vec::new();
    let mut stride: usize = 1;
    let mut k: usize = 0;
    assert(ds.skip(n as int) =~= Seq::<usize>::empty());
    while k < n
        invariant
            k <= n,
            n == ds.len(),
            dims@ == ds,
            dims_wf(ds),
            stride == prod_of(ds.skip(n - k)),
            rev@.len() == k,
            forall|t: int| 0 <= t < k ==> rev@[t] == prod_of(#[trigger] ds.skip(n - t)),
        decreases n - k,
    {
        rev.push(stride);
        let i = n - 1 - k;
        proof {
            lemma_prod_skip(ds, i as int);
            lemma_prod_nonneg(ds.skip(i as int));
        }
        stride = dims[i] * stride;
        k = k + 1;
    }
    let mut r: Vec<usize> = Vec::new();
    let mut j: usize = 0;
    while j < n
        invariant
            j <= n,
            n == ds.len(),
            rev@.len() == n,
            forall|t: int| 0 <= t < n ==> rev@[t] == prod_of(#[trigger] ds.skip(n - t)),
            r@.len() == j,
            forall|i: int| 0 <= i < j ==> r@[i] == prod_of(#[trigger] ds.skip(i + 1)),
        decreases n - j,
    {
        r.push(rev[n - 1 - j]);
        proof {
            let t = n - 1 - j as int;
            assert(rev@[t] == prod_of(ds.skip(n - t)));
            assert(n - t == j + 1);
        }
        j = j + 1;
    }
    r
}

impl Shape {
    pub fn can_broadcast_with(&self, other: &Shape) -> (r: bool)
        ensures
            r == bcast_compat(self@, other@),
    {
        let a_len = self.dims.len();
        let b_len = other.dims.len();
        let n = if a_len >= b_len { a_len } else { b_len };
        let mut k: usize = 0;
        while k < n
            invariant
                k <= n,
                a_len == self@.len(),
                b_len == other@.len(),
                n == if a_len >= b_len { a_len } else { b_len },
                forall|t: int|
                    0 <= t < k ==> #[trigger] sizes_compat(
                        dim_from_right(self@, t),
                        dim_from_right(other@, t),
                    ),
            decreases n - k,
        {
            let sd = dim_right(&self.dims, k);
            let od = dim_right(&other.dims, k);
            if !(sd == od || sd == 1 || od == 1) {
                assert(!sizes_compat(dim_from_right(self@, k as int), dim_from_right(other@, k as int)));
                return false;
            }
            k = k + 1;
        }
        proof {
            assert forall|t: int| 0 <= t implies #[trigger] sizes_compat(
                dim_from_right(self@, t),
                dim_from_right(other@, t),
            ) by {
                if t >= n {
                    assert(dim_from_right(self@, t) == 1);
                }
            }
        }
        true
    }

    /// Right-align the two dimension vectors, padding the shorter on the left
    /// with size-1 dimensions, and broadcast each aligned pair; any pair of
    /// unequal sizes with neither equal to 1 is reported as incompatible,
    /// naming the first offending pair from the right.
    pub fn broadcast_with(&self, other: &Shape) -> (r: Result<Shape, BroadcastError>)
        ensures
            r is Ok <==> bcast_compat(self@, other@),
            r matches Ok(s) ==> s@ == bcast_dims(self@, other@),
            r matches Err(e) ==> exists|k: int|
                0 <= k && !sizes_compat(dim_from_right(self@, k), dim_from_right(other@, k)) && (
                forall|t: int|
                    0 <= t < k ==> #[trigger] sizes_compat(
                        dim_from_right(self@, t),
                        dim_from_right(other@, t),
                    )) && e == BroadcastError::IncompatibleShapes(
                    dim_from_right(self@, k),
                    dim_from_right(other@, k),
                ),
    {
        let a_len = self.dims.len();
        let b_len = other.dims.len();
        let n = if a_len >= b_len { a_len } else { b_len };
        // Broadcast sizes gathered from the right; reversed into place below.
        let mut rev: Vec<usize> = Vec::new();
        let mut k: usize = 0;
        while k < n
            invariant
                k <= n,
                a_len == self@.len(),
                b_len == other@.len(),
                n == if a_len >= b_len { a_len } else { b_len },
                rev@.len() == k,
                forall|t: int|
                    0 <= t < k ==> #[trigger] sizes_compat(
                        dim_from_right(self@, t),
                        dim_from_right(other@, t),
                    ),
                forall|t: int|
                    0 <= t < k ==> rev@[t] == bcast_size(
                        dim_from_right(self@, t),
                        #[trigger] dim_from_right(other@, t),
                    ),
            decreases n - k,
        {
            let sd = dim_right(&self.dims, k);
            let od = dim_right(&other.dims, k);
            if !(sd == od || sd == 1 || od == 1) {
                assert(!sizes_compat(dim_from_right(self@, k as int), dim_from_right(other@, k as int)));
                return Err(BroadcastError::IncompatibleShapes(sd, od));
            }
            let rd = if sd == 1 {
                od
            } else {
                sd
            };
            rev.push(rd);
            k = k + 1;
        }
        let mut dims: Vec<usize> = Vec::new();
        let mut j: usize = 0;
        while j < n
            invariant
                j <= n,
                a_len == self@.len(),
                b_len == other@.len(),
                n == if a_len >= b_len { a_len } else { b_len },
                rev@.len() == n,
                forall|t: int|
                    0 <= t < n ==> rev@[t] == bcast_size(
                        dim_from_right(self@, t),
                        #[trigger] dim_from_right(other@, t),
                    ),
                dims@.len() == j,
                forall|i: int|
                    0 <= i < j ==> dims@[i] == bcast_size(
                        dim_from_right(self@, n - 1 - i),
                        #[trigger] dim_from_right(other@, n - 1 - i),
                    ),
            decreases n - j,
        {
            dims.push(rev[n - 1 - j]);
            j = j + 1;
        }
        proof {
            assert forall|t: int| 0 <= t implies #[trigger] sizes_compat(
                dim_from_right(self@, t),
                dim_from_right(other@, t),
            ) by {
                if t >= n {
                    assert(dim_from_right(self@, t) == 1);
                }
            }
            assert(dims@ =~= bcast_dims(self@, other@));
        }
        Ok(Shape { dims })
    }

    /// One stride per target dimension for iterating this shape's buffer as
    /// if it had the target's shape, without copying: 0 repeats an element
    /// over a broadcast dimension, otherwise the contiguous stride is kept.
    pub fn compute_broadcast_strides(&self, target_shape: &Shape) -> (r: Result<
        Vec<usize>,
        BroadcastError,
    >)
        requires
            dims_wf(self@),
            bcast_compat(self@, target_shape@) ==> self@.len() <= target_shape@.len(),
        ensures
            r is Ok <==> bcast_compat(self@, target_shape@),
            r matches Ok(s) ==> s@.len() == target_shape@.len() && (forall|j: int|
                0 <= j < target_shape@.len() ==> s@[j] == bcast_stride_at(
                    self@,
                    target_shape@,
                    j,
                )),
            r matches Err(e) ==> e == BroadcastError::DimensionMismatch,
    {
        if !self.can_broadcast_with(target_shape) {
            return Err(BroadcastError::DimensionMismatch);
        }
        let self_strides = self.contiguous_strides();
        let n = target_shape.dims.len();
        let off = n - self.dims.len();
        let mut strides: Vec<usize> = Vec::new();
        let mut j: usize = 0;
        while j < n
            invariant
                j <= n,
                n == target_shape@.len(),
                off == n - self@.len(),
                self@.len() <= n,
                self_strides@.len() == self@.len(),
                forall|i: int|
                    0 <= i < self@.len() ==> self_strides@[i] == prod_of(
                        #[trigger] self@.skip(i + 1),
                    ),
                strides@.len() == j,
                forall|t: int|
                    0 <= t < j ==> strides@[t] == #[trigger] bcast_stride_at(
                        self@,
                        target_shape@,
                        t,
                    ),
            decreases n - j,
        {
            if j < off {
                strides.push(0);
            } else {
                let i = j - off;
                if self.dims[i] == 1 && target_shape.dims[j] != 1 {
                    strides.push(0);
                } else {
                    strides.push(self_strides[i]);
                }
            }
            j = j + 1;
        }
        Ok(strides)
    }
}

/// The dimension size `k` places from the right, 1 past the left end.
fn dim_right(dims: &Vec<usize>, k: usize) -> (r: usize)
    ensures
        r == dim_from_right(dims@, k as int),
{
    if k < dims.len() {
        dims[dims.len() - 1 - k]
    } else {
        1
    }
}

} // verus!
