//! Gathers, cache stores and elementwise activations.
use crate::contract::{
    axis_name, check, law_contract_holds_iff_axes_agree, mismatch, Bound, ContractError, Dim, Param,
};
use crate::kernels::{
    bound1, bound2, bound3, lemma_index, make1, make2, make3, threads_within, DecodeStep, HostTensor,
};
use crate::scalar::{strided_sum, sum_from, Scalar, ONE_BITS};
use crate::tensor::TensorShape;
use vstd::prelude::*;

verus! {

/// Tensors of [`embed`].
pub open spec fn embed_bounds(table: TensorShape, x: TensorShape) -> Seq<Bound> {
    seq![
        bound2(Param::Embed, Dim::Vocab, Dim::Dim, table),
        bound1(Param::X, Dim::Dim, x),
    ]
}

/// Holds the tensors of [`embed`] to their contract.
pub fn check_embed(table: TensorShape, x: TensorShape) -> (r: Result<(), ContractError>)
    ensures
        match r {
            Ok(()) => mismatch(embed_bounds(table, x)) is None,
            Err(e) => mismatch(embed_bounds(table, x)) == Some(e),
        },
{
    let mut bounds: Vec<Bound> = Vec::new();
    bounds.push(make2(Param::Embed, Dim::Vocab, Dim::Dim, table));
    bounds.push(make1(Param::X, Dim::Dim, x));
    assert(bounds@ =~= embed_bounds(table, x));
    check(&bounds)
}

proof fn lemma_embed_shapes(table: TensorShape, x: TensorShape)
    requires
        mismatch(embed_bounds(table, x)) is None,
    ensures
        table.dims().len() == 2,
        x.dims().len() == 1,
        table.dims()[1] == x.dims()[0],
{
    let b = embed_bounds(table, x);
    law_contract_holds_iff_axes_agree(b);
    assert(b[0].shape == table && b[1].shape == x);
    assert(axis_name(b, 0, 1) == axis_name(b, 1, 0));
}

/// Gathers one embedding row from a `[vocab, dim]` table into `x`: thread `i` stores
/// element `i` of the row of the step's token.
pub fn embed(
    table: &HostTensor,
    step: &DecodeStep,
    x: &mut HostTensor,
    threads: u32,
) -> (r: Result<(), ContractError>)
    requires
        table.wf(),
        old(x).wf(),
        mismatch(embed_bounds(table.shape, old(x).shape)) is None && threads > 0
            && old(x).data@.len() > 0 ==> step.token < table.dim(0),
    ensures
        final(x).wf(),
        final(x).shape == old(x).shape,
        match r {
            Err(e) => {
                &&& mismatch(embed_bounds(table.shape, old(x).shape)) == Some(e)
                &&& final(x).data@ == old(x).data@
            },
            Ok(()) => {
                &&& mismatch(embed_bounds(table.shape, old(x).shape)) is None
                &&& final(x).data@ == Seq::new(
                    old(x).data@.len(),
                    |i: int|
                        if i < threads {
                            table.data@[step.token * old(x).data@.len() + i]
                        } else {
                            old(x).data@[i]
                        },
                )
            },
        },
{
    match check_embed(table.shape, x.shape) {
        Ok(()) => {},
        Err(e) => {
            return Err(e);
        },
    }
    let dim: usize = x.data.len();
    let n: usize = threads_within(threads, dim);
    let ghost before = x.data@;
    let ghost vocab = table.dim(0);
    proof {
        lemma_embed_shapes(table.shape, x.shape);
    }
    let total: usize = table.data.len();
    let mut i: usize = 0;
    while i < n
        invariant
            i <= n <= dim,
            n <= threads,
            n == dim || n == threads,
            dim == x.data@.len(),
            x.shape == old(x).shape,
            total == table.data@.len(),
            total == vocab * dim,
            n > 0 ==> step.token < vocab,
            before == old(x).data@,
            x.data@ == Seq::new(
                before.len(),
                |j: int|
                    if j < i {
                        table.data@[step.token * before.len() + j]
                    } else {
                        before[j]
                    },
            ),
        decreases n - i,
    {
        proof {
            lemma_index(step.token as int, i as int, vocab, dim as int);
            lemma_index(step.token as int, 0, vocab, dim as int);
        }
        let base: usize = step.token as usize * dim;
        x.data[i] = table.data[base + i].dup();
        i = i + 1;
    }
    Ok(())
}

/// Tensors of [`gemv`].
pub open spec fn gemv_bounds(x: TensorShape, w: TensorShape, xout: TensorShape) -> Seq<Bound> {
    seq![
        bound1(Param::X, Dim::N, x),
        bound2(Param::W, Dim::D, Dim::N, w),
        bound2(Param::Xout, Dim::SeqLen, Dim::D, xout),
    ]
}

/// Holds the tensors of [`gemv`] to their contract.
pub fn check_gemv(x: TensorShape, w: TensorShape, xout: TensorShape) -> (r: Result<
    (),
    ContractError,
>)
    ensures
        match r {
            Ok(()) => mismatch(gemv_bounds(x, w, xout)) is None,
            Err(e) => mismatch(gemv_bounds(x, w, xout)) == Some(e),
        },
{
    let mut bounds: Vec<Bound> = Vec::new();
    bounds.push(make1(Param::X, Dim::N, x));
    bounds.push(make2(Param::W, Dim::D, Dim::N, w));
    bounds.push(make2(Param::Xout, Dim::SeqLen, Dim::D, xout));
    assert(bounds@ =~= gemv_bounds(x, w, xout));
    check(&bounds)
}

proof fn lemma_gemv_shapes(x: TensorShape, w: TensorShape, xout: TensorShape)
    requires
        mismatch(gemv_bounds(x, w, xout)) is None,
    ensures
        x.dims().len() == 1,
        w.dims().len() == 2,
        xout.dims().len() == 2,
        w.dims()[1] == x.dims()[0],
        xout.dims()[1] == w.dims()[0],
{
    let b = gemv_bounds(x, w, xout);
    law_contract_holds_iff_axes_agree(b);
    assert(b[0].shape == x && b[1].shape == w && b[2].shape == xout);
    assert(axis_name(b, 0, 0) == axis_name(b, 1, 1));
    assert(axis_name(b, 1, 0) == axis_name(b, 2, 1));
}

/// Product `j` of the dot product of row `i` of `w` with `x`.
pub open spec fn gemv_term(x: Seq<Scalar>, w: Seq<Scalar>, i: int) -> spec_fn(int) -> Scalar {
    |j: int| Scalar::Mul(Box::new(w[i * x.len() + j]), Box::new(x[j]))
}

/// The dot product of row `i` of `w` with `x`, added in order.
pub open spec fn gemv_value(x: Seq<Scalar>, w: Seq<Scalar>, i: int) -> Scalar {
    strided_sum(gemv_term(x, w, i), 0, 1, x.len() as int)
}

fn dot_row(x: &Vec<Scalar>, w: &Vec<Scalar>, i: usize, d: usize) -> (r: Scalar)
    requires
        i < d,
        w@.len() == d * x@.len(),
    ensures
        r == gemv_value(x@, w@, i as int),
{
    let n: usize = x.len();
    let total: usize = w.len();
    proof {
        lemma_index(i as int, 0, d as int, n as int);
    }
    let base: usize = i * n;
    let mut sum = Scalar::zero();
    let mut j: usize = 0;
    while j < n
        invariant
            j <= n,
            n == x@.len(),
            total == w@.len(),
            total == d * n,
            i < d,
            base == i * n,
            sum_from(gemv_term(x@, w@, i as int), j as int, 1, n as int, sum) == gemv_value(
                x@,
                w@,
                i as int,
            ),
        decreases n - j,
    {
        proof {
            lemma_index(i as int, j as int, d as int, n as int);
        }
        sum = sum.plus(w[base + j].dup().times(x[j].dup()));
        j = j + 1;
    }
    sum
}

/// Position-strided serial GEMV, `[n] x [d, n] -> [seq, d]`: thread `i` stores the dot
/// product of row `i` of `w` with `x` in column `i` of the row of the step's position.
pub fn gemv(
    x: &HostTensor,
    w: &HostTensor,
    xout: &mut HostTensor,
    step: &DecodeStep,
    threads: u32,
) -> (r: Result<(), ContractError>)
    requires
        x.wf(),
        w.wf(),
        old(xout).wf(),
        mismatch(gemv_bounds(x.shape, w.shape, old(xout).shape)) is None && threads > 0 && w.dim(0)
            > 0 ==> step.position < old(xout).dim(0),
    ensures
        final(xout).wf(),
        final(xout).shape == old(xout).shape,
        match r {
            Err(e) => {
                &&& mismatch(gemv_bounds(x.shape, w.shape, old(xout).shape)) == Some(e)
                &&& final(xout).data@ == old(xout).data@
            },
            Ok(()) => {
                &&& mismatch(gemv_bounds(x.shape, w.shape, old(xout).shape)) is None
                &&& final(xout).data@ == Seq::new(
                    old(xout).data@.len(),
                    |j: int|
                        {
                            let i = j - step.position * w.dim(0);
                            if 0 <= i < w.dim(0) && i < threads {
                                gemv_value(x.data@, w.data@, i)
                            } else {
                                old(xout).data@[j]
                            }
                        },
                )
            },
        },
{
    match check_gemv(x.shape, w.shape, xout.shape) {
        Ok(()) => {},
        Err(e) => {
            return Err(e);
        },
    }
    proof {
        lemma_gemv_shapes(x.shape, w.shape, xout.shape);
    }
    let d: usize = w.shape.extent(0) as usize;
    let n: usize = threads_within(threads, d);
    let ghost before = xout.data@;
    let ghost seq = xout.dim(0);
    let len: usize = xout.data.len();
    let mut i: usize = 0;
    while i < n
        invariant
            i <= n <= d,
            n <= threads,
            n == d || n == threads,
            d == w.dim(0),
            len == xout.data@.len(),
            len == seq * d,
            n > 0 ==> step.position < seq,
            xout.shape == old(xout).shape,
            before == old(xout).data@,
            before.len() == len,
            w.data@.len() == d * x.data@.len(),
            xout.data@ == Seq::new(
                before.len(),
                |j: int|
                    {
                        let k = j - step.position * d;
                        if 0 <= k < i {
                            gemv_value(x.data@, w.data@, k)
                        } else {
                            before[j]
                        }
                    },
            ),
        decreases n - i,
    {
        proof {
            lemma_index(step.position as int, i as int, seq, d as int);
            lemma_index(step.position as int, 0, seq, d as int);
        }
        let base: usize = step.position as usize * d;
        xout.data[base + i] = dot_row(&x.data, &w.data, i, d);
        i = i + 1;
    }
    Ok(())
}

/// Tensors of [`cache_store`].
pub open spec fn cache_store_bounds(src: TensorShape, dst: TensorShape) -> Seq<Bound> {
    seq![
        bound1(Param::Src, Dim::KvDim, src),
        bound3(Param::Dst, Dim::SeqLen, Dim::KvHeads, Dim::Head, dst),
    ]
}

/// Holds the tensors of [`cache_store`] to their contract.
pub fn check_cache_store(src: TensorShape, dst: TensorShape) -> (r: Result<(), ContractError>)
    ensures
        match r {
            Ok(()) => mismatch(cache_store_bounds(src, dst)) is None,
            Err(e) => mismatch(cache_store_bounds(src, dst)) == Some(e),
        },
{
    let mut bounds: Vec<Bound> = Vec::new();
    bounds.push(make1(Param::Src, Dim::KvDim, src));
    bounds.push(make3(Param::Dst, Dim::SeqLen, Dim::KvHeads, Dim::Head, dst));
    assert(bounds@ =~= cache_store_bounds(src, dst));
    check(&bounds)
}

proof fn lemma_cache_store_shapes(src: TensorShape, dst: TensorShape)
    requires
        mismatch(cache_store_bounds(src, dst)) is None,
    ensures
        src.dims().len() == 1,
        dst.dims().len() == 3,
{
    let b = cache_store_bounds(src, dst);
    law_contract_holds_iff_axes_agree(b);
    assert(b[0].shape == src && b[1].shape == dst);
}

/// `dst` with the first `n` elements of `src` in place from `base` on.
pub open spec fn stored_at(dst: Seq<Scalar>, base: int, src: Seq<Scalar>, n: int) -> Seq<Scalar> {
    Seq::new(
        dst.len(),
        |j: int|
            if base <= j < base + n {
                src[j - base]
            } else {
                dst[j]
            },
    )
}

/// The first `threads` elements of `len`.
pub open spec fn covered(threads: u32, len: int) -> int {
    if threads < len {
        threads as int
    } else {
        len
    }
}

/// Copies a flat projection into the row of `dst` at the step's position: thread `i`
/// stores element `i`.
pub fn cache_store(
    src: &HostTensor,
    dst: &mut HostTensor,
    step: &DecodeStep,
    threads: u32,
) -> (r: Result<(), ContractError>)
    requires
        src.wf(),
        old(dst).wf(),
        mismatch(cache_store_bounds(src.shape, old(dst).shape)) is None && covered(
            threads,
            src.data@.len() as int,
        ) > 0 ==> step.position * old(dst).shape.row() + covered(threads, src.data@.len() as int)
            <= old(dst).data@.len(),
    ensures
        final(dst).wf(),
        final(dst).shape == old(dst).shape,
        match r {
            Err(e) => {
                &&& mismatch(cache_store_bounds(src.shape, old(dst).shape)) == Some(e)
                &&& final(dst).data@ == old(dst).data@
            },
            Ok(()) => {
                &&& mismatch(cache_store_bounds(src.shape, old(dst).shape)) is None
                &&& final(dst).data@ == stored_at(
                    old(dst).data@,
                    step.position * old(dst).shape.row(),
                    src.data@,
                    covered(threads, src.data@.len() as int),
                )
            },
        },
{
    match check_cache_store(src.shape, dst.shape) {
        Ok(()) => {},
        Err(e) => {
            return Err(e);
        },
    }
    proof {
        lemma_cache_store_shapes(src.shape, dst.shape);
    }
    let n: usize = threads_within(threads, src.data.len());
    let ghost before = dst.data@;
    let ghost base = step.position * dst.shape.row();
    let len: usize = dst.data.len();
    let mut i: usize = 0;
    while i < n
        invariant
            i <= n,
            n == covered(threads, src.data@.len() as int),
            n <= src.data@.len(),
            n > 0 ==> base + n <= len,
            base == step.position * dst.shape.row(),
            len == dst.data@.len(),
            dst.shape == old(dst).shape,
            old(dst).wf(),
            before == old(dst).data@,
            before.len() == len,
            dst.data@ == stored_at(before, base, src.data@, i as int),
        decreases n - i,
    {
        proof {
            if dst.shape.dims()[0] == 0 {
                assert(0 * dst.shape.row() == 0);
            }
            crate::tensor::lemma_row_nonneg(dst.shape);
            assert(0 <= base) by (nonlinear_arith)
                requires
                    base == step.position * dst.shape.row(),
                    dst.shape.row() >= 0,
            ;
        }
        let row: usize = dst.shape.row_u32() as usize;
        let at: usize = step.position as usize * row + i;
        dst.data[at] = src.data[i].dup();
        i = i + 1;
    }
    assert(dst.data@ =~= stored_at(before, base, src.data@, n as int));
    Ok(())
}

/// Tensors of [`swiglu`].
pub open spec fn swiglu_bounds(hb: TensorShape, hb2: TensorShape) -> Seq<Bound> {
    seq![bound1(Param::Hb, Dim::Hidden, hb), bound1(Param::Hb2, Dim::Hidden, hb2)]
}

/// Holds the tensors of [`swiglu`] to their contract.
pub fn check_swiglu(hb: TensorShape, hb2: TensorShape) -> (r: Result<(), ContractError>)
    ensures
        match r {
            Ok(()) => mismatch(swiglu_bounds(hb, hb2)) is None,
            Err(e) => mismatch(swiglu_bounds(hb, hb2)) == Some(e),
        },
{
    let mut bounds: Vec<Bound> = Vec::new();
    bounds.push(make1(Param::Hb, Dim::Hidden, hb));
    bounds.push(make1(Param::Hb2, Dim::Hidden, hb2));
    assert(bounds@ =~= swiglu_bounds(hb, hb2));
    check(&bounds)
}

proof fn lemma_swiglu_shapes(hb: TensorShape, hb2: TensorShape)
    requires
        mismatch(swiglu_bounds(hb, hb2)) is None,
    ensures
        hb.dims().len() == 1,
        hb2.dims().len() == 1,
        hb.dims()[0] == hb2.dims()[0],
{
    let b = swiglu_bounds(hb, hb2);
    law_contract_holds_iff_axes_agree(b);
    assert(b[0].shape == hb && b[1].shape == hb2);
    assert(axis_name(b, 0, 0) == axis_name(b, 1, 0));
}

/// `v * (1 / (1 + exp(-v)))`.
pub open spec fn silu_value(v: Scalar) -> Scalar {
    let one = Scalar::Bits(ONE_BITS);
    Scalar::Mul(
        Box::new(v),
        Box::new(
            Scalar::Div(
                Box::new(one),
                Box::new(
                    Scalar::Add(
                        Box::new(one),
                        Box::new(Scalar::Exp(Box::new(Scalar::Neg(Box::new(v))))),
                    ),
                ),
            ),
        ),
    )
}

/// `silu(v) * u`.
pub open spec fn swiglu_value(v: Scalar, u: Scalar) -> Scalar {
    Scalar::Mul(Box::new(silu_value(v)), Box::new(u))
}

/// SwiGLU: thread `i` replaces `hb[i]` by `silu(hb[i]) * hb2[i]`.
pub fn swiglu(hb: &mut HostTensor, hb2: &HostTensor, threads: u32) -> (r: Result<
    (),
    ContractError,
>)
    requires
        old(hb).wf(),
        hb2.wf(),
    ensures
        final(hb).wf(),
        final(hb).shape == old(hb).shape,
        match r {
            Err(e) => {
                &&& mismatch(swiglu_bounds(old(hb).shape, hb2.shape)) == Some(e)
                &&& final(hb).data@ == old(hb).data@
            },
            Ok(()) => {
                &&& mismatch(swiglu_bounds(old(hb).shape, hb2.shape)) is None
                &&& final(hb).data@ == Seq::new(
                    old(hb).data@.len(),
                    |i: int|
                        if i < threads {
                            swiglu_value(old(hb).data@[i], hb2.data@[i])
                        } else {
                            old(hb).data@[i]
                        },
                )
            },
        },
{
    match check_swiglu(hb.shape, hb2.shape) {
        Ok(()) => {},
        Err(e) => {
            return Err(e);
        },
    }
    proof {
        lemma_swiglu_shapes(hb.shape, hb2.shape);
    }
    let ghost before = hb.data@;
    let n: usize = threads_within(threads, hb.data.len());
    let mut i: usize = 0;
    while i < n
        invariant
            i <= n <= before.len(),
            n <= threads,
            n == before.len() || n == threads,
            hb.data@.len() == before.len(),
            hb2.data@.len() == before.len(),
            before == old(hb).data@,
            hb.shape == old(hb).shape,
            hb.data@ == Seq::new(
                before.len(),
                |j: int|
                    if j < i {
                        swiglu_value(before[j], hb2.data@[j])
                    } else {
                        before[j]
                    },
            ),
        decreases n - i,
    {
        let v = hb.data[i].dup();
        let gate = Scalar::one().over(Scalar::one().plus(v.dup().neg().exp()));
        hb.data[i] = v.times(gate).times(hb2.data[i].dup());
        i = i + 1;
    }
    Ok(())
}

/// A store at position `pos` leaves every other cached position as it was, and reads
/// back what was stored: after the store, row `pos` of `row` elements is `src`, and row
/// `other` is unchanged.
pub proof fn law_store_touches_one_position(
    dst: Seq<Scalar>,
    src: Seq<Scalar>,
    row: int,
    seq_len: int,
    pos: int,
    other: int,
    i: int,
)
    requires
        dst.len() == seq_len * row,
        src.len() == row,
        0 <= pos < seq_len,
        0 <= other < seq_len,
        other != pos,
        0 <= i < row,
    ensures
        stored_at(dst, pos * row, src, row)[pos * row + i] == src[i],
        stored_at(dst, pos * row, src, row)[other * row + i] == dst[other * row + i],
{
    lemma_index(pos, i, seq_len, row);
    lemma_index(other, i, seq_len, row);
    assert(other * row + row <= pos * row || pos * row + row <= other * row) by (nonlinear_arith)
        requires
            other + 1 <= pos || pos + 1 <= other,
            0 < row,
    ;
}

/// Projecting into scratch and then storing the projection at a position gives what
/// the position-strided serial projection stores there.
pub proof fn law_project_then_store_is_strided_projection(
    x: Seq<Scalar>,
    w: Seq<Scalar>,
    dst: Seq<Scalar>,
    d: nat,
    pos: int,
)
    ensures
        stored_at(dst, pos * d, Seq::new(d, |i: int| gemv_value(x, w, i)), d as int) == Seq::new(
            dst.len(),
            |j: int|
                {
                    let i = j - pos * d;
                    if 0 <= i < d {
                        gemv_value(x, w, i)
                    } else {
                        dst[j]
                    }
                },
        ),
{
    assert(stored_at(dst, pos * d, Seq::new(d, |i: int| gemv_value(x, w, i)), d as int)
        =~= Seq::new(
        dst.len(),
        |j: int|
            {
                let i = j - pos * d;
                if 0 <= i < d {
                    gemv_value(x, w, i)
                } else {
                    dst[j]
                }
            },
    ));
}

/// Thread `i` of a store copies element `i` of the source to `i` past the base; elements that
/// no thread has, and those before the base, keep what they held.
pub proof fn law_threads_store_their_elements(
    dst: Seq<Scalar>,
    base: int,
    src: Seq<Scalar>,
    threads: u32,
    i: int,
)
    requires
        0 <= base,
        0 <= base + i < dst.len(),
    ensures
        ({
            let left = stored_at(dst, base, src, covered(threads, src.len() as int));
            &&& left.len() == dst.len()
            &&& 0 <= i < threads && i < src.len() ==> left[base + i] == src[i]
            &&& i < 0 || i >= threads || i >= src.len() ==> left[base + i] == dst[base + i]
        }),
{
}

} // verus!
