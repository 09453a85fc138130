use vstd::prelude::*;
use vstd::pervasive::unreached;
use vstd::arithmetic::mul::{lemma_mul_inequality, lemma_mul_nonnegative};
use vstd::arithmetic::div_mod::{lemma_div_pos_is_pos, lemma_mod_bound};
use crate::op::Operation;
use crate::tensor::shape::{
    bcast_compat, bcast_dims, bcast_stride_at, clone_dims, dims_wf, lemma_prod_nonneg,
    lemma_prod_skip, prod_of, Shape,
};
use crate::tensor::storage::{
    model_f32_data, model_shape, model_wf, StorageModel, TensorStorage,
};

verus! {

/// The scalar arithmetic capability the kernels are generic over: how two
/// elements, given as raw 32-bit patterns, combine under an operation kind.
/// The reference numeric backend (IEEE-754 single-precision arithmetic,
/// including its division-by-zero convention of infinities and NaNs) lives
/// with the implementor; the kernels only promise which element pair each
/// output position combines.
pub trait ElementKernel {
    /// The mathematical reading of `combine`: one fixed result per
    /// (operation, pattern, pattern) triple.
    spec fn combine_spec(&self, op: Operation, a: u32, b: u32) -> u32;

    fn combine(&self, op: Operation, a: u32, b: u32) -> (r: u32)
        ensures
            r == self.combine_spec(op, a, b),
    ;
}

/// A checked reference implementor of the element capability: modular
/// arithmetic on the raw 32-bit patterns themselves, division by zero
/// yielding zero. It pins the capability's contract to a backend this crate
/// verifies; numeric backends such as IEEE-754 single precision live with
/// the caller.
pub struct WrappingKernel;

impl ElementKernel for WrappingKernel {
    open spec fn combine_spec(&self, op: Operation, a: u32, b: u32) -> u32 {
        match op {
            Operation::Add => ((a + b) % 0x1_0000_0000) as u32,
            Operation::Sub => ((a + 0x1_0000_0000 - b) % 0x1_0000_0000) as u32,
            Operation::Mul => ((a * b) % 0x1_0000_0000) as u32,
            Operation::Div => if b == 0 {
                0
            } else {
                (a / b) as u32
            },
            _ => 0,
        }
    }

    fn combine(&self, op: Operation, a: u32, b: u32) -> (r: u32)
    {
        match op {
            Operation::Add => {
                let w: u64 = (a as u64 + b as u64) % 0x1_0000_0000;
                w as u32
            },
            Operation::Sub => {
                let w: u64 = (a as u64 + 0x1_0000_0000 - b as u64) % 0x1_0000_0000;
                w as u32
            },
            Operation::Mul => {
                proof {
                    assert((a as u64) * (b as u64) <= 0xFFFF_FFFFu64 * 0xFFFF_FFFFu64)
                        by (nonlinear_arith)
                        requires
                            a <= 0xFFFF_FFFFu64,
                            b <= 0xFFFF_FFFFu64,
                    ;
                }
                let w: u64 = (a as u64 * b as u64) % 0x1_0000_0000;
                w as u32
            },
            Operation::Div => {
                if b == 0 {
                    0
                } else {
                    a / b
                }
            },
            _ => 0,
        }
    }
}

/// The flat source offset reached by decomposing `rem` over the dimensions
/// of `dims` from position `j` on — successive division and modulo against
/// suffix products — and weighting each coordinate by its stride.
pub open spec fn offset_rec(dims: Seq<usize>, strides: Seq<usize>, rem: int, j: int) -> int
    decreases dims.len() - j,
{
    if j < 0 || j >= dims.len() {
        0
    } else {
        let next = prod_of(dims.skip(j + 1));
        ((rem / next) % (dims[j] as int)) * (strides[j] as int) + offset_rec(
            dims,
            strides,
            rem % next,
            j + 1,
        )
    }
}

/// The flat offset a whole linear index decomposes to.
pub open spec fn linear_offset(dims: Seq<usize>, strides: Seq<usize>, i: int) -> int {
    offset_rec(dims, strides, i, 0)
}

/// The broadcast strides of `src` against `tgt`, as a stride vector.
pub open spec fn bcast_strides_of(src: Seq<usize>, tgt: Seq<usize>) -> Seq<usize> {
    Seq::new(tgt.len(), |j: int| bcast_stride_at(src, tgt, j) as usize)
}

/// The source-buffer offset that output position `i` of a broadcast over
/// target shape `tgt` reads from a buffer of shape `src`.
pub open spec fn src_offset(src: Seq<usize>, tgt: Seq<usize>, i: int) -> int {
    linear_offset(tgt, bcast_strides_of(src, tgt), i)
}

/// `src` right-aligns into `tgt` without shrinking: every `src` dimension is
/// 1 or equals its aligned `tgt` dimension. This is how each operand of a
/// binary kernel relates to the broadcast target shape.
pub open spec fn aligns_into(src: Seq<usize>, tgt: Seq<usize>) -> bool {
    &&& src.len() <= tgt.len()
    &&& forall|t: int|
        0 <= t < src.len() ==> (#[trigger] src[t]) == 1 || src[t] == tgt[
            t + tgt.len() - src.len()
        ]
}

/// A positive product forces the head dimension and the remaining suffix
/// product to be positive as well.
pub proof fn lemma_head_next_pos(dims: Seq<usize>, j: int)
    requires
        0 <= j < dims.len(),
        prod_of(dims.skip(j)) >= 1,
    ensures
        dims[j] >= 1,
        prod_of(dims.skip(j + 1)) >= 1,
{
    lemma_prod_skip(dims, j);
    lemma_prod_nonneg(dims.skip(j + 1));
    let d = dims[j] as int;
    let next = prod_of(dims.skip(j + 1));
    if d == 0 {
        assert(0 * next == 0) by (nonlinear_arith);
    }
    if next == 0 {
        assert(d * 0 == 0) by (nonlinear_arith);
    }
}

/// A decomposed offset is never negative.
pub proof fn lemma_offset_nonneg(dims: Seq<usize>, strides: Seq<usize>, rem: int, j: int)
    requires
        0 <= j <= dims.len(),
        0 <= rem < prod_of(dims.skip(j)),
    ensures
        offset_rec(dims, strides, rem, j) >= 0,
    decreases dims.len() - j,
{
    if j < dims.len() {
        lemma_head_next_pos(dims, j);
        let d = dims[j] as int;
        let next = prod_of(dims.skip(j + 1));
        lemma_div_pos_is_pos(rem, next);
        lemma_mod_bound(rem / next, d);
        lemma_mod_bound(rem, next);
        lemma_offset_nonneg(dims, strides, rem % next, j + 1);
        lemma_mul_nonnegative((rem / next) % d, strides[j] as int);
    }
}

/// The in-bounds guarantee of broadcast striding: decomposing any linear
/// index of the target shape over the broadcast strides of `src` lands
/// strictly inside a dense buffer of shape `src`.
#[verifier::spinoff_prover]
pub proof fn lemma_offset_in_src(src: Seq<usize>, tgt: Seq<usize>, strides: Seq<usize>, rem: int, j: int)
    requires
        aligns_into(src, tgt),
        strides.len() == tgt.len(),
        forall|t: int| 0 <= t < tgt.len() ==> strides[t] == bcast_stride_at(src, tgt, t),
        0 <= j <= tgt.len(),
        0 <= rem < prod_of(tgt.skip(j)),
    ensures
        0 <= offset_rec(tgt, strides, rem, j) < prod_of(
            src.skip(
                if j <= tgt.len() - src.len() {
                    0int
                } else {
                    j - (tgt.len() - src.len())
                },
            ),
        ),
    decreases tgt.len() - j,
{
    let off = tgt.len() - src.len();
    let sj: int = if j <= off { 0 } else { j - off };
    if j == tgt.len() {
        assert(src.skip(sj) =~= Seq::<usize>::empty());
    } else {
        lemma_head_next_pos(tgt, j);
        let d = tgt[j] as int;
        let next = prod_of(tgt.skip(j + 1));
        lemma_prod_skip(tgt, j);
        let c = (rem / next) % d;
        lemma_div_pos_is_pos(rem, next);
        lemma_mod_bound(rem / next, d);
        let rem2 = rem % next;
        lemma_mod_bound(rem, next);
        lemma_offset_in_src(src, tgt, strides, rem2, j + 1);
        let sj1: int = if j + 1 <= off { 0 } else { j + 1 - off };
        let rest = offset_rec(tgt, strides, rem2, j + 1);
        let s = strides[j] as int;
        lemma_mul_nonnegative(c, s);
        if j < off {
            assert(s == 0);
            assert(c * 0 == 0) by (nonlinear_arith);
        } else {
            let t = j - off;
            let p = prod_of(src.skip(t + 1));
            lemma_prod_skip(src, t);
            lemma_prod_nonneg(src.skip(t + 1));
            if src[t] == 1 && tgt[j] != 1 {
                assert(s == 0);
                assert(c * 0 == 0) by (nonlinear_arith);
            } else {
                assert(s == p);
                assert(src[t] == d);
                lemma_mul_inequality(c, d - 1, p);
                assert((d - 1) * p + p == d * p) by (nonlinear_arith);
            }
        }
    }
}

/// Recover each dimension's coordinate of a flat index by successive
/// division and modulo against suffix products of the shape, and weight the
/// coordinates by the given strides. This is what lets a kernel read a
/// logically-broadcast element without materializing the broadcast buffer.
pub fn compute_index(linear_idx: usize, strides: &Vec<usize>, shape: &Vec<usize>) -> (r: usize)
    requires
        strides@.len() == shape@.len(),
        dims_wf(shape@),
        linear_idx < prod_of(shape@),
        linear_offset(shape@, strides@, linear_idx as int) <= usize::MAX,
    ensures
        r == linear_offset(shape@, strides@, linear_idx as int),
{
    let ghost ds = shape@;
    let ghost ss = strides@;
    let ghost total = linear_offset(ds, ss, linear_idx as int);
    let n = shape.len();
    let sufs = crate::tensor::shape::contig_strides_vec(shape);
    let mut index: usize = 0;
    let mut remaining: usize = linear_idx;
    let mut j: usize = 0;
    assert(ds.skip(0) =~= ds);
    while j < n
        invariant
            j <= n,
            n == ds.len(),
            shape@ == ds,
            strides@ == ss,
            ss.len() == n,
            dims_wf(ds),
            sufs@.len() == n,
            forall|t: int| 0 <= t < n ==> sufs@[t] == prod_of(#[trigger] ds.skip(t + 1)),
            0 <= remaining < prod_of(ds.skip(j as int)),
            index + offset_rec(ds, ss, remaining as int, j as int) == total,
            total <= usize::MAX,
        decreases n - j,
    {
        proof {
            lemma_head_next_pos(ds, j as int);
        }
        let d = shape[j];
        let next = sufs[j];
        let coord = (remaining / next) % d;
        proof {
            let ji = j as int;
            let ri = remaining as int;
            let nexti = prod_of(ds.skip(ji + 1));
            lemma_div_pos_is_pos(ri, nexti);
            lemma_mod_bound(ri / nexti, ds[ji] as int);
            lemma_mod_bound(ri, nexti);
            lemma_offset_nonneg(ds, ss, ri % nexti, ji + 1);
            lemma_mul_nonnegative((ri / nexti) % (ds[ji] as int), ss[ji] as int);
        }
        index = index + coord * strides[j];
        remaining = remaining % next;
        j = j + 1;
    }
    index
}

/// The shapes of both kernel operands, their compatibility, and the target
/// being their broadcast: what every binary kernel requires of its inputs,
/// which must both be 32-bit floating-point storages.
pub open spec fn kernel_pre(lhs: StorageModel, rhs: StorageModel, out: Seq<usize>) -> bool {
    &&& lhs is F32
    &&& rhs is F32
    &&& model_wf(lhs)
    &&& model_wf(rhs)
    &&& bcast_compat(model_shape(lhs), model_shape(rhs))
    &&& out == bcast_dims(model_shape(lhs), model_shape(rhs))
    &&& dims_wf(out)
}

/// What every binary kernel returns: a 32-bit floating-point storage of the
/// target shape whose element at each linear position combines the operand
/// elements that position maps to through the broadcast strides.
pub open spec fn kernel_post<K: ElementKernel>(
    k: K,
    op: Operation,
    lhs: StorageModel,
    rhs: StorageModel,
    out: Seq<usize>,
    r: StorageModel,
) -> bool {
    &&& r is F32
    &&& model_shape(r) == out
    &&& model_f32_data(r).len() == prod_of(out)
    &&& forall|i: int|
        0 <= i < prod_of(out) ==> model_f32_data(r)[i] == k.combine_spec(
            op,
            model_f32_data(lhs)[src_offset(model_shape(lhs), out, i)],
            model_f32_data(rhs)[src_offset(model_shape(rhs), out, i)],
        )
}

/// A broadcast shape is one its own operands align into.
pub proof fn lemma_operand_aligns(a: Seq<usize>, b: Seq<usize>)
    requires
        bcast_compat(a, b),
    ensures
        aligns_into(a, bcast_dims(a, b)),
        bcast_compat(a, bcast_dims(a, b)),
        bcast_dims(a, b).len() >= a.len(),
{
    let tgt = bcast_dims(a, b);
    let n = tgt.len() as int;
    assert forall|t: int| 0 <= t < a.len() implies (#[trigger] a[t]) == 1 || a[t] == tgt[
        t + n - a.len()
    ] by {
        let k = a.len() - 1 - t;
        assert(crate::tensor::shape::sizes_compat(
            crate::tensor::shape::dim_from_right(a, k),
            crate::tensor::shape::dim_from_right(b, k),
        ));
        assert(tgt[n - 1 - k] == crate::tensor::shape::bcast_size(
            crate::tensor::shape::dim_from_right(a, k),
            crate::tensor::shape::dim_from_right(b, k),
        ));
    }
    assert forall|k: int| 0 <= k implies #[trigger] crate::tensor::shape::sizes_compat(
        crate::tensor::shape::dim_from_right(a, k),
        crate::tensor::shape::dim_from_right(tgt, k),
    ) by {
        if k < n {
            assert(crate::tensor::shape::sizes_compat(
                crate::tensor::shape::dim_from_right(a, k),
                crate::tensor::shape::dim_from_right(b, k),
            ));
            assert(tgt[n - 1 - k] == crate::tensor::shape::bcast_size(
                crate::tensor::shape::dim_from_right(a, k),
                crate::tensor::shape::dim_from_right(b, k),
            ));
        } else {
            assert(crate::tensor::shape::dim_from_right(a, k) == 1);
        }
    }
}

/// Evaluate one elementwise binary operation over two dense buffers under a
/// broadcast target shape, reading each operand through its broadcast
/// strides.
fn broadcast_combine<K: ElementKernel>(
    k: &K,
    op: Operation,
    a_data: &Vec<u32>,
    a_shape: &Shape,
    b_data: &Vec<u32>,
    b_shape: &Shape,
    output_shape: &Shape,
) -> (r: Vec<u32>)
    requires
        dims_wf(a_shape@),
        dims_wf(b_shape@),
        dims_wf(output_shape@),
        a_data@.len() == prod_of(a_shape@),
        b_data@.len() == prod_of(b_shape@),
        bcast_compat(a_shape@, b_shape@),
        output_shape@ == bcast_dims(a_shape@, b_shape@),
    ensures
        r@.len() == prod_of(output_shape@),
        forall|i: int|
            0 <= i < r@.len() ==> r@[i] == k.combine_spec(
                op,
                a_data@[src_offset(a_shape@, output_shape@, i)],
                b_data@[src_offset(b_shape@, output_shape@, i)],
            ),
{
    let ghost tgt = output_shape@;
    proof {
        lemma_operand_aligns(a_shape@, b_shape@);
        crate::tensor::shape::lemma_bcast_compat_symmetric(a_shape@, b_shape@);
        lemma_operand_aligns(b_shape@, a_shape@);
        crate::tensor::shape::lemma_bcast_dims_symmetric(a_shape@, b_shape@);
    }
    let lhs_strides = match a_shape.compute_broadcast_strides(output_shape) {
        Ok(s) => s,
        Err(_) => unreached(),
    };
    let rhs_strides = match b_shape.compute_broadcast_strides(output_shape) {
        Ok(s) => s,
        Err(_) => unreached(),
    };
    proof {
        assert(lhs_strides@ =~= bcast_strides_of(a_shape@, tgt));
        assert(rhs_strides@ =~= bcast_strides_of(b_shape@, tgt));
    }
    let output_size = output_shape.num_elements();
    let dims = output_shape.dims();
    let mut result: Vec<u32> = Vec::new();
    let mut i: usize = 0;
    while i < output_size
        invariant
            i <= output_size,
            output_size == prod_of(tgt),
            output_shape@ == tgt,
            dims@ == tgt,
            dims_wf(tgt),
            dims_wf(a_shape@),
            dims_wf(b_shape@),
            a_data@.len() == prod_of(a_shape@),
            b_data@.len() == prod_of(b_shape@),
            aligns_into(a_shape@, tgt),
            aligns_into(b_shape@, tgt),
            lhs_strides@ == bcast_strides_of(a_shape@, tgt),
            rhs_strides@ == bcast_strides_of(b_shape@, tgt),
            forall|t: int|
                0 <= t < tgt.len() ==> lhs_strides@[t] == bcast_stride_at(a_shape@, tgt, t),
            forall|t: int|
                0 <= t < tgt.len() ==> rhs_strides@[t] == bcast_stride_at(b_shape@, tgt, t),
            result@.len() == i,
            forall|t: int|
                0 <= t < i ==> result@[t] == k.combine_spec(
                    op,
                    a_data@[src_offset(a_shape@, tgt, t)],
                    b_data@[src_offset(b_shape@, tgt, t)],
                ),
        decreases output_size - i,
    {
        proof {
            assert(tgt.skip(0) =~= tgt);
            lemma_offset_in_src(a_shape@, tgt, lhs_strides@, i as int, 0);
            lemma_offset_in_src(b_shape@, tgt, rhs_strides@, i as int, 0);
            assert(a_shape@.skip(0) =~= a_shape@);
            assert(b_shape@.skip(0) =~= b_shape@);
        }
        let lhs_idx = compute_index(i, &lhs_strides, dims);
        let rhs_idx = compute_index(i, &rhs_strides, dims);
        let v = k.combine(op, a_data[lhs_idx], b_data[rhs_idx]);
        result.push(v);
        i = i + 1;
    }
    result
}

/// Elementwise addition of two 32-bit floating-point storages over their
/// broadcast shape, element arithmetic supplied by the kernel capability.
pub fn cpu_add<K: ElementKernel>(
    k: &K,
    lhs: &TensorStorage,
    rhs: &TensorStorage,
    output_shape: &Shape,
) -> (r: TensorStorage)
    requires
        kernel_pre(lhs@, rhs@, output_shape@),
    ensures
        kernel_post(*k, Operation::Add, lhs@, rhs@, output_shape@, r@),
        model_wf(r@),
{
    cpu_binary(k, Operation::Add, lhs, rhs, output_shape)
}

/// Elementwise subtraction; see `cpu_add`.
pub fn cpu_sub<K: ElementKernel>(
    k: &K,
    lhs: &TensorStorage,
    rhs: &TensorStorage,
    output_shape: &Shape,
) -> (r: TensorStorage)
    requires
        kernel_pre(lhs@, rhs@, output_shape@),
    ensures
        kernel_post(*k, Operation::Sub, lhs@, rhs@, output_shape@, r@),
        model_wf(r@),
{
    cpu_binary(k, Operation::Sub, lhs, rhs, output_shape)
}

/// Elementwise multiplication; see `cpu_add`.
pub fn cpu_mul<K: ElementKernel>(
    k: &K,
    lhs: &TensorStorage,
    rhs: &TensorStorage,
    output_shape: &Shape,
) -> (r: TensorStorage)
    requires
        kernel_pre(lhs@, rhs@, output_shape@),
    ensures
        kernel_post(*k, Operation::Mul, lhs@, rhs@, output_shape@, r@),
        model_wf(r@),
{
    cpu_binary(k, Operation::Mul, lhs, rhs, output_shape)
}

/// Elementwise division; see `cpu_add`. Division by a zero-valued element is
/// not a fault here: what it yields is the implementor's convention
/// (infinities or NaN under IEEE-754 arithmetic).
pub fn cpu_div<K: ElementKernel>(
    k: &K,
    lhs: &TensorStorage,
    rhs: &TensorStorage,
    output_shape: &Shape,
) -> (r: TensorStorage)
    requires
        kernel_pre(lhs@, rhs@, output_shape@),
    ensures
        kernel_post(*k, Operation::Div, lhs@, rhs@, output_shape@, r@),
        model_wf(r@),
{
    cpu_binary(k, Operation::Div, lhs, rhs, output_shape)
}

/// The shared kernel body behind the four public kernels.
fn cpu_binary<K: ElementKernel>(
    k: &K,
    op: Operation,
    lhs: &TensorStorage,
    rhs: &TensorStorage,
    output_shape: &Shape,
) -> (r: TensorStorage)
    requires
        kernel_pre(lhs@, rhs@, output_shape@),
    ensures
        kernel_post(*k, op, lhs@, rhs@, output_shape@, r@),
        model_wf(r@),
{
    match (lhs, rhs) {
        (
            TensorStorage::F32 { data: lhs_data, shape: lhs_shape },
            TensorStorage::F32 { data: rhs_data, shape: rhs_shape },
        ) => {
            let a_shape = Shape::new(clone_dims(lhs_shape));
            let b_shape = Shape::new(clone_dims(rhs_shape));
            let result = broadcast_combine(
                k,
                op,
                lhs_data,
                &a_shape,
                rhs_data,
                &b_shape,
                output_shape,
            );
            TensorStorage::F32 { data: result, shape: clone_dims(output_shape.dims()) }
        },
        _ => unreached(),
    }
}

} // verus!
