//! Rotary position embedding.
use crate::contract::{
    axis_name, check, law_contract_holds_iff_axes_agree, mismatch, Bound, ContractError, Dim, Param,
};
use crate::kernels::elementwise::stored_at;
use crate::kernels::{bound1, bound2, bound3, make1, make2, make3, DecodeStep, HostTensor};
use crate::scalar::{Scalar, ONE_BITS};
use crate::tensor::{lemma_row_nonneg, TensorShape};
use vstd::prelude::*;

verus! {

/// Most threads of a dispatch whose pairs have distinct 32-bit indices.
pub const MAX_PAIR_THREADS: u32 = 0x8000_0000;

/// How many of `threads` threads own a pair that starts below `width`, where thread `t`
/// owns the pair `(2t, 2t + 1)`.
pub open spec fn pairs(threads: int, width: int) -> int {
    if 2 * threads < width {
        threads
    } else {
        (width + 1) / 2
    }
}

/// The angle of the pair at `i`: `pos / theta^((i % head) / head)`.
pub open spec fn rope_angle(pos: u32, i: int, head: u32, theta: u32) -> Scalar {
    let exponent = Scalar::Div(
        Box::new(Scalar::FromI32((i % head as int) as i32)),
        Box::new(Scalar::FromU32(head)),
    );
    let freq = Scalar::Div(
        Box::new(Scalar::Bits(ONE_BITS)),
        Box::new(Scalar::Pow(Box::new(Scalar::Bits(theta)), Box::new(exponent))),
    );
    Scalar::Mul(Box::new(Scalar::FromU32(pos)), Box::new(freq))
}

/// Element `j` of the vector that starts at `base` in `s`, its pair rotated.
pub open spec fn rotated(
    s: Seq<Scalar>,
    base: int,
    j: int,
    pos: u32,
    head: u32,
    theta: u32,
) -> Scalar {
    let i = j - j % 2;
    let angle = rope_angle(pos, i, head, theta);
    let cos = Scalar::Cos(Box::new(angle));
    let sin = Scalar::Sin(Box::new(angle));
    let v0 = s[base + i];
    let v1 = s[base + i + 1];
    if j % 2 == 0 {
        Scalar::Sub(
            Box::new(Scalar::Mul(Box::new(v0), Box::new(cos))),
            Box::new(Scalar::Mul(Box::new(v1), Box::new(sin))),
        )
    } else {
        Scalar::Add(
            Box::new(Scalar::Mul(Box::new(v0), Box::new(sin))),
            Box::new(Scalar::Mul(Box::new(v1), Box::new(cos))),
        )
    }
}

/// `dst`, with the first `n` pairs of the vector at `src_base` in `src` stored,
/// rotated, from `base` on.
pub open spec fn rotate_into(
    dst: Seq<Scalar>,
    base: int,
    src: Seq<Scalar>,
    src_base: int,
    n: int,
    pos: u32,
    head: u32,
    theta: u32,
) -> Seq<Scalar> {
    Seq::new(
        dst.len(),
        |j: int|
            if base <= j < base + 2 * n {
                rotated(src, src_base, j - base, pos, head, theta)
            } else {
                dst[j]
            },
    )
}

/// `v` rotated in place: its first `n` pairs from `base` on.
pub open spec fn rotate_at(
    v: Seq<Scalar>,
    base: int,
    n: int,
    pos: u32,
    head: u32,
    theta: u32,
) -> Seq<Scalar> {
    rotate_into(v, base, v, base, n, pos, head, theta)
}

fn rotate_pair(
    v0: &Scalar,
    v1: &Scalar,
    pos: u32,
    i: u32,
    head: u32,
    theta: u32,
) -> (r: (Scalar, Scalar))
    requires
        head > 0,
    ensures
        ({
            let angle = rope_angle(pos, i as int, head, theta);
            let cos = Scalar::Cos(Box::new(angle));
            let sin = Scalar::Sin(Box::new(angle));
            &&& r.0 == Scalar::Sub(
                Box::new(Scalar::Mul(Box::new(*v0), Box::new(cos))),
                Box::new(Scalar::Mul(Box::new(*v1), Box::new(sin))),
            )
            &&& r.1 == Scalar::Add(
                Box::new(Scalar::Mul(Box::new(*v0), Box::new(sin))),
                Box::new(Scalar::Mul(Box::new(*v1), Box::new(cos))),
            )
        }),
{
    let head_dim: i32 = (i % head) as i32;
    let exponent = Scalar::FromI32(head_dim).over(Scalar::FromU32(head));
    let freq = Scalar::one().over(Scalar::Bits(theta).pow(exponent));
    let val = Scalar::FromU32(pos).times(freq);
    let fcr = val.dup().cos();
    let fci = val.sin();
    let first = v0.dup().times(fcr.dup()).minus(v1.dup().times(fci.dup()));
    let second = v0.dup().times(fci).plus(v1.dup().times(fcr));
    (first, second)
}

/// Rotating one more pair of `src` into `dst`.
proof fn lemma_one_more_pair(
    dst: Seq<Scalar>,
    base: int,
    src: Seq<Scalar>,
    src_base: int,
    n: int,
    pos: u32,
    head: u32,
    theta: u32,
    a: Scalar,
    b: Scalar,
)
    requires
        0 <= n,
        0 <= base,
        base + 2 * n + 2 <= dst.len(),
        a == rotated(src, src_base, 2 * n, pos, head, theta),
        b == rotated(src, src_base, 2 * n + 1, pos, head, theta),
    ensures
        rotate_into(dst, base, src, src_base, n, pos, head, theta).update(base + 2 * n, a).update(
            base + 2 * n + 1,
            b,
        ) == rotate_into(dst, base, src, src_base, n + 1, pos, head, theta),
{
    assert(rotate_into(dst, base, src, src_base, n, pos, head, theta).update(
        base + 2 * n,
        a,
    ).update(base + 2 * n + 1, b) =~= rotate_into(
        dst,
        base,
        src,
        src_base,
        n + 1,
        pos,
        head,
        theta,
    ));
}

/// Tensors of [`rope`].
pub open spec fn rope_bounds(q: TensorShape, k: TensorShape) -> Seq<Bound> {
    seq![
        bound2(Param::Q, Dim::QHeads, Dim::Head, q),
        bound3(Param::K, Dim::SeqLen, Dim::KvHeads, Dim::Head, k),
    ]
}

/// Holds the tensors of [`rope`] to their contract.
pub fn check_rope(q: TensorShape, k: TensorShape) -> (r: Result<(), ContractError>)
    ensures
        match r {
            Ok(()) => mismatch(rope_bounds(q, k)) is None,
            Err(e) => mismatch(rope_bounds(q, k)) == Some(e),
        },
{
    let mut bounds: Vec<Bound> = Vec::new();
    bounds.push(make2(Param::Q, Dim::QHeads, Dim::Head, q));
    bounds.push(make3(Param::K, Dim::SeqLen, Dim::KvHeads, Dim::Head, k));
    assert(bounds@ =~= rope_bounds(q, k));
    check(&bounds)
}

proof fn lemma_rope_shapes(q: TensorShape, k: TensorShape)
    requires
        mismatch(rope_bounds(q, k)) is None,
    ensures
        q.dims().len() == 2,
        k.dims().len() == 3,
        q.dims()[1] == k.dims()[2],
{
    let b = rope_bounds(q, k);
    law_contract_holds_iff_axes_agree(b);
    assert(b[0].shape == q && b[1].shape == k);
    assert(axis_name(b, 0, 1) == axis_name(b, 1, 2));
}

/// The narrower of the query and the key width.
pub open spec fn narrower(q_width: int, kv_width: int) -> int {
    if q_width < kv_width {
        q_width
    } else {
        kv_width
    }
}

/// Every pair that `threads` threads of [`rope`] rotate lies in its tensor: a query of
/// `q_len` elements, and a cache of `k_len` in rows of `row`.
pub open spec fn rope_fits(q_len: int, row: int, k_len: int, step: DecodeStep, threads: u32) -> bool {
    let n = pairs(threads as int, narrower(q_len, row));
    &&& threads <= MAX_PAIR_THREADS
    &&& 2 * pairs(threads as int, q_len) <= q_len
    &&& n > 0 ==> step.position * row + 2 * n <= k_len
}

/// Every pair that [`rope`] rotates lies in its tensor.
pub open spec fn rope_in_bounds(
    q: HostTensor,
    k: HostTensor,
    step: DecodeStep,
    threads: u32,
) -> bool {
    rope_fits(q.data@.len() as int, k.shape.row(), k.data@.len() as int, step, threads)
}

/// Pairwise RoPE on Q and on the K cache row of the step's position, both in place:
/// thread `t` rotates the pair `(2t, 2t + 1)` of each.
pub fn rope(
    q: &mut HostTensor,
    k: &mut HostTensor,
    step: &DecodeStep,
    theta: u32,
    threads: u32,
) -> (r: Result<(), ContractError>)
    requires
        old(q).wf(),
        old(k).wf(),
        mismatch(rope_bounds(old(q).shape, old(k).shape)) is None ==> rope_in_bounds(
            *old(q),
            *old(k),
            *step,
            threads,
        ),
    ensures
        final(q).wf(),
        final(k).wf(),
        final(q).shape == old(q).shape,
        final(k).shape == old(k).shape,
        match r {
            Err(e) => {
                &&& mismatch(rope_bounds(old(q).shape, old(k).shape)) == Some(e)
                &&& final(q).data@ == old(q).data@
                &&& final(k).data@ == old(k).data@
            },
            Ok(()) => {
                &&& mismatch(rope_bounds(old(q).shape, old(k).shape)) is None
                &&& final(q).data@ == rotate_at(
                    old(q).data@,
                    0,
                    pairs(threads as int, old(q).data@.len() as int),
                    step.position,
                    old(q).dim(1) as u32,
                    theta,
                )
                &&& final(k).data@ == rotate_at(
                    old(k).data@,
                    step.position * old(k).shape.row(),
                    pairs(
                        threads as int,
                        narrower(old(q).data@.len() as int, old(k).shape.row()),
                    ),
                    step.position,
                    old(q).dim(1) as u32,
                    theta,
                )
            },
        },
{
    match check_rope(q.shape, k.shape) {
        Ok(()) => {},
        Err(e) => {
            return Err(e);
        },
    }
    proof {
        lemma_rope_shapes(q.shape, k.shape);
        lemma_row_nonneg(k.shape);
    }
    let head: u32 = q.shape.extent(1);
    let dim: usize = q.data.len();
    let kv_len: usize = k.data.len();
    let kv_dim: usize = if k.shape.extent(0) == 0 {
        0
    } else {
        k.shape.row_u32() as usize
    };
    let pos: u32 = step.position;
    let ghost q0 = q.data@;
    let ghost k0 = k.data@;
    let ghost base = pos * k.shape.row();
    let ghost row = k.shape.row();
    let ghost k_pairs = pairs(threads as int, narrower(dim as int, row));
    proof {
        assert(0 <= base) by (nonlinear_arith)
            requires
                base == pos * row,
                row >= 0,
        ;
        if k.shape.dims()[0] == 0 {
            assert(0 * row == 0);
            assert(k_pairs == 0);
        }
        if head == 0 {
            assert(q.shape.dims()[0] * 0 == 0);
        }
        assert(q0 =~= rotate_at(q0, 0, 0, pos, head, theta));
        assert(k0 =~= rotate_at(k0, base, 0, pos, head, theta));
    }
    let mut t: u32 = 0;
    while t < threads && 2 * (t as usize) < dim
        invariant
            t <= threads <= MAX_PAIR_THREADS,
            dim == q0.len(),
            dim <= u32::MAX,
            q.data@.len() == dim,
            k.data@.len() == k0.len(),
            kv_len == k0.len(),
            q.shape == old(q).shape,
            k.shape == old(k).shape,
            q0 == old(q).data@,
            k0 == old(k).data@,
            dim > 0 ==> head > 0,
            2 * pairs(threads as int, dim as int) <= dim,
            0 <= base,
            0 <= row,
            base == pos * row,
            k_pairs == pairs(threads as int, narrower(dim as int, row)),
            k_pairs > 0 ==> base + 2 * k_pairs <= kv_len,
            kv_dim == row || (kv_dim == 0 && k_pairs == 0),
            t <= pairs(threads as int, dim as int),
            q.data@ == rotate_at(q0, 0, t as int, pos, head, theta),
            k.data@ == rotate_at(
                k0,
                base,
                pairs(t as int, narrower(dim as int, kv_dim as int)),
                pos,
                head,
                theta,
            ),
        decreases threads - t,
    {
        let i: usize = 2 * (t as usize);
        let (a, b) = rotate_pair(&q.data[i], &q.data[i + 1], pos, i as u32, head, theta);
        proof {
            lemma_one_more_pair(q0, 0, q0, 0, t as int, pos, head, theta, a, b);
        }
        q.data[i] = a;
        q.data[i + 1] = b;
        if i < kv_dim {
            proof {
                assert(k_pairs > t);
                assert(pairs(t as int, narrower(dim as int, kv_dim as int)) == t);
                assert(pairs(t + 1, narrower(dim as int, kv_dim as int)) == t + 1);
            }
            let at: usize = pos as usize * kv_dim + i;
            let (a, b) = rotate_pair(&k.data[at], &k.data[at + 1], pos, i as u32, head, theta);
            proof {
                lemma_one_more_pair(k0, base, k0, base, t as int, pos, head, theta, a, b);
            }
            k.data[at] = a;
            k.data[at + 1] = b;
        } else {
            proof {
                assert(pairs(t as int, narrower(dim as int, kv_dim as int)) == pairs(
                    t + 1,
                    narrower(dim as int, kv_dim as int),
                ));
            }
        }
        t = t + 1;
    }
    proof {
        assert(t == pairs(threads as int, dim as int));
        assert(pairs(t as int, narrower(dim as int, kv_dim as int)) == k_pairs || k_pairs == 0);
        if k_pairs == 0 {
            assert(pairs(t as int, narrower(dim as int, kv_dim as int)) == 0);
        }
    }
    Ok(())
}

/// Tensors of [`rope_store`].
pub open spec fn rope_store_bounds(
    q: TensorShape,
    k_proj: TensorShape,
    k: TensorShape,
) -> Seq<Bound> {
    seq![
        bound2(Param::Q, Dim::QHeads, Dim::Head, q),
        bound1(Param::KProj, Dim::KvDim, k_proj),
        bound3(Param::K, Dim::SeqLen, Dim::KvHeads, Dim::Head, k),
    ]
}

/// Holds the tensors of [`rope_store`] to their contract.
pub fn check_rope_store(q: TensorShape, k_proj: TensorShape, k: TensorShape) -> (r: Result<
    (),
    ContractError,
>)
    ensures
        match r {
            Ok(()) => mismatch(rope_store_bounds(q, k_proj, k)) is None,
            Err(e) => mismatch(rope_store_bounds(q, k_proj, k)) == Some(e),
        },
{
    let mut bounds: Vec<Bound> = Vec::new();
    bounds.push(make2(Param::Q, Dim::QHeads, Dim::Head, q));
    bounds.push(make1(Param::KProj, Dim::KvDim, k_proj));
    bounds.push(make3(Param::K, Dim::SeqLen, Dim::KvHeads, Dim::Head, k));
    assert(bounds@ =~= rope_store_bounds(q, k_proj, k));
    check(&bounds)
}

pub(crate) proof fn lemma_rope_store_shapes(q: TensorShape, k_proj: TensorShape, k: TensorShape)
    requires
        mismatch(rope_store_bounds(q, k_proj, k)) is None,
    ensures
        q.dims().len() == 2,
        k_proj.dims().len() == 1,
        k.dims().len() == 3,
        q.dims()[1] == k.dims()[2],
{
    let b = rope_store_bounds(q, k_proj, k);
    law_contract_holds_iff_axes_agree(b);
    assert(b[0].shape == q && b[1].shape == k_proj && b[2].shape == k);
    assert(axis_name(b, 0, 1) == axis_name(b, 2, 2));
}

/// Every pair that `threads` threads of [`rope_store`] read or store lies in its tensor: a
/// query of `q_len` elements, a projection of `kv_dim`, and a cache of `k_len`.
pub open spec fn rope_store_fits(
    q_len: int,
    kv_dim: int,
    k_len: int,
    step: DecodeStep,
    threads: u32,
) -> bool {
    let n = pairs(threads as int, narrower(q_len, kv_dim));
    &&& threads <= MAX_PAIR_THREADS
    &&& 2 * pairs(threads as int, q_len) <= q_len
    &&& 2 * n <= kv_dim
    &&& n > 0 ==> step.position * kv_dim + 2 * n <= k_len
}

/// Every pair that [`rope_store`] reads or stores lies in its tensor.
pub open spec fn rope_store_in_bounds(
    q: HostTensor,
    k_proj: HostTensor,
    k: HostTensor,
    step: DecodeStep,
    threads: u32,
) -> bool {
    rope_store_fits(
        q.data@.len() as int,
        k_proj.data@.len() as int,
        k.data@.len() as int,
        step,
        threads,
    )
}

/// Rotates Q in place, and stores RoPE(K) from a flat projection in the K cache row of
/// the step's position: thread `t` owns the pair `(2t, 2t + 1)` of each.
pub fn rope_store(
    q: &mut HostTensor,
    k_proj: &HostTensor,
    k: &mut HostTensor,
    step: &DecodeStep,
    theta: u32,
    threads: u32,
) -> (r: Result<(), ContractError>)
    requires
        old(q).wf(),
        k_proj.wf(),
        old(k).wf(),
        mismatch(rope_store_bounds(old(q).shape, k_proj.shape, old(k).shape)) is None
            ==> rope_store_in_bounds(*old(q), *k_proj, *old(k), *step, threads),
    ensures
        final(q).wf(),
        final(k).wf(),
        final(q).shape == old(q).shape,
        final(k).shape == old(k).shape,
        match r {
            Err(e) => {
                &&& mismatch(rope_store_bounds(old(q).shape, k_proj.shape, old(k).shape)) == Some(e)
                &&& final(q).data@ == old(q).data@
                &&& final(k).data@ == old(k).data@
            },
            Ok(()) => {
                &&& mismatch(rope_store_bounds(old(q).shape, k_proj.shape, old(k).shape)) is None
                &&& final(q).data@ == rotate_at(
                    old(q).data@,
                    0,
                    pairs(threads as int, old(q).data@.len() as int),
                    step.position,
                    old(q).dim(1) as u32,
                    theta,
                )
                &&& final(k).data@ == rotate_into(
                    old(k).data@,
                    step.position * k_proj.data@.len(),
                    k_proj.data@,
                    0,
                    pairs(
                        threads as int,
                        narrower(old(q).data@.len() as int, k_proj.data@.len() as int),
                    ),
                    step.position,
                    old(q).dim(1) as u32,
                    theta,
                )
            },
        },
{
    match check_rope_store(q.shape, k_proj.shape, k.shape) {
        Ok(()) => {},
        Err(e) => {
            return Err(e);
        },
    }
    proof {
        lemma_rope_store_shapes(q.shape, k_proj.shape, k.shape);
    }
    let head: u32 = q.shape.extent(1);
    let dim: usize = q.data.len();
    let kv_dim: usize = k_proj.data.len();
    let kv_len: usize = k.data.len();
    let pos: u32 = step.position;
    let ghost q0 = q.data@;
    let ghost k0 = k.data@;
    let ghost base = pos * kv_dim;
    let ghost k_pairs = pairs(threads as int, narrower(dim as int, kv_dim as int));
    proof {
        assert(0 <= base) by (nonlinear_arith)
            requires
                base == pos * kv_dim,
        ;
        if head == 0 {
            assert(q.shape.dims()[0] * 0 == 0);
        }
        assert(q0 =~= rotate_at(q0, 0, 0, pos, head, theta));
        assert(k0 =~= rotate_into(k0, base, k_proj.data@, 0, 0, pos, head, theta));
    }
    let mut t: u32 = 0;
    while t < threads && 2 * (t as usize) < dim
        invariant
            t <= threads <= MAX_PAIR_THREADS,
            dim == q0.len(),
            dim <= u32::MAX,
            kv_dim == k_proj.data@.len(),
            q.data@.len() == dim,
            k.data@.len() == k0.len(),
            kv_len == k0.len(),
            q.shape == old(q).shape,
            k.shape == old(k).shape,
            q0 == old(q).data@,
            k0 == old(k).data@,
            dim > 0 ==> head > 0,
            2 * pairs(threads as int, dim as int) <= dim,
            0 <= base,
            base == pos * kv_dim,
            k_pairs == pairs(threads as int, narrower(dim as int, kv_dim as int)),
            2 * k_pairs <= kv_dim,
            k_pairs > 0 ==> base + 2 * k_pairs <= kv_len,
            t <= pairs(threads as int, dim as int),
            q.data@ == rotate_at(q0, 0, t as int, pos, head, theta),
            k.data@ == rotate_into(
                k0,
                base,
                k_proj.data@,
                0,
                pairs(t as int, narrower(dim as int, kv_dim as int)),
                pos,
                head,
                theta,
            ),
        decreases threads - t,
    {
        let i: usize = 2 * (t as usize);
        let (a, b) = rotate_pair(&q.data[i], &q.data[i + 1], pos, i as u32, head, theta);
        proof {
            lemma_one_more_pair(q0, 0, q0, 0, t as int, pos, head, theta, a, b);
        }
        q.data[i] = a;
        q.data[i + 1] = b;
        if i < kv_dim {
            proof {
                assert(k_pairs > t);
                assert(pairs(t as int, narrower(dim as int, kv_dim as int)) == t);
                assert(pairs(t + 1, narrower(dim as int, kv_dim as int)) == t + 1);
            }
            let at: usize = pos as usize * kv_dim + i;
            let (a, b) = rotate_pair(
                &k_proj.data[i],
                &k_proj.data[i + 1],
                pos,
                i as u32,
                head,
                theta,
            );
            proof {
                lemma_one_more_pair(k0, base, k_proj.data@, 0, t as int, pos, head, theta, a, b);
            }
            k.data[at] = a;
            k.data[at + 1] = b;
        } else {
            proof {
                assert(pairs(t as int, narrower(dim as int, kv_dim as int)) == pairs(
                    t + 1,
                    narrower(dim as int, kv_dim as int),
                ));
            }
        }
        t = t + 1;
    }
    proof {
        assert(t == pairs(threads as int, dim as int));
        assert(pairs(t as int, narrower(dim as int, kv_dim as int)) == k_pairs);
    }
    Ok(())
}

/// Storing a projection in a cache row and then rotating that row in place gives what
/// [`rope_store`] stores: `n` pairs of the projection, rotated, from `base` on.
pub proof fn law_rope_store_is_store_then_rope(
    k: Seq<Scalar>,
    k_proj: Seq<Scalar>,
    base: int,
    n: int,
    pos: u32,
    head: u32,
    theta: u32,
)
    requires
        0 <= base,
        0 <= n,
        base + k_proj.len() <= k.len(),
        k_proj.len() == 2 * n,
    ensures
        rotate_at(stored_at(k, base, k_proj, k_proj.len() as int), base, n, pos, head, theta)
            == rotate_into(k, base, k_proj, 0, n, pos, head, theta),
{
    let stored = stored_at(k, base, k_proj, k_proj.len() as int);
    let a = rotate_at(stored, base, n, pos, head, theta);
    let b = rotate_into(k, base, k_proj, 0, n, pos, head, theta);
    assert forall|j: int| 0 <= j < k.len() implies a[j] == b[j] by {
        if base <= j < base + 2 * n {
            let i = (j - base) - (j - base) % 2;
            assert(stored[base + i] == k_proj[i]);
            assert(stored[base + i + 1] == k_proj[i + 1]);
        }
    }
    assert(a =~= b);
}

/// A rotation into a row leaves everything outside the rotated pairs as it was.
pub proof fn law_rotation_touches_its_pairs_only(
    dst: Seq<Scalar>,
    base: int,
    src: Seq<Scalar>,
    src_base: int,
    n: int,
    pos: u32,
    head: u32,
    theta: u32,
    j: int,
)
    requires
        0 <= j < dst.len(),
        j < base || base + 2 * n <= j,
    ensures
        rotate_into(dst, base, src, src_base, n, pos, head, theta)[j] == dst[j],
{
}

/// A dispatch of at least one thread for each pair of the query rotates the whole query,
/// and every pair of a key of even width that is no wider.
pub proof fn law_pair_threads_cover(threads: int, q_width: int, kv_width: int)
    requires
        0 <= kv_width <= q_width,
        q_width % 2 == 0,
        kv_width % 2 == 0,
        2 * threads >= q_width,
    ensures
        2 * pairs(threads, q_width) == q_width,
        2 * pairs(threads, narrower(q_width, kv_width)) == kv_width,
{
}

} // verus!
