//! Which shapes the kernels take.
//!
//! Each law gives a kernel's parameters with the names of their axes, as an error names
//! them, and says for which shapes the contract holds.
use crate::contract::{
    axis_name, extents_agree, law_contract_holds_iff_axes_agree, mismatch, ranks_match, Bound,
};
use crate::kernels::attention::{attention_bounds, heads_of};
use crate::kernels::elementwise::{cache_store_bounds, embed_bounds, gemv_bounds, swiglu_bounds};
use crate::kernels::flash::{combine_bounds, partial_bounds};
use crate::kernels::norm::{rmsnorm_bounds, rmsnorm_inplace_bounds};
use crate::kernels::rope::{rope_bounds, rope_store_bounds};
use crate::scheme::Work;
use crate::tensor::{Parcel, TensorShape, TensorView};
use vstd::prelude::*;

verus! {

/// The bound is of a tensor `v`, for the parameter of this name, with axes of these names.
pub open spec fn declares(b: Bound, v: TensorView, param: Seq<char>, axes: Seq<Seq<char>>) -> bool {
    &&& b.shape == v.shape
    &&& b.param.text() == param
    &&& b.axes.names().len() == axes.len()
    &&& forall|i: int|
        0 <= i < axes.len() ==> (#[trigger] b.axes.names()[i]).text() == axes[i]
}

/// A contract holds exactly where ranks are as asked and axes of one name agree.
proof fn lemma_refused(bounds: Seq<Bound>)
    ensures
        mismatch(bounds) is None ==> ranks_match(bounds) && extents_agree(bounds),
        ranks_match(bounds) && extents_agree(bounds) ==> mismatch(bounds) is None,
{
    law_contract_holds_iff_axes_agree(bounds);
}

/// A gather takes a table, and a vector as wide as its rows.
pub proof fn law_embed_takes(table: TensorView, x: TensorView, step: Parcel)
    ensures
        ({
            let b = embed_bounds(table.shape, x.shape);
            let fits = match (table.shape, x.shape) {
                (TensorShape::R2(_, dim), TensorShape::R1(dim1)) => dim1 == dim,
                _ => false,
            };
            let work = Work::Embed { table, step, x };
            &&& b.len() == 2
            &&& declares(b[0], table, "embed"@, seq!["vocab"@, "dim"@])
            &&& declares(b[1], x, "x"@, seq!["dim"@])
            &&& mismatch(b) is None <==> fits
            &&& work.refused() == mismatch(b)
        }),
{
    let b = embed_bounds(table.shape, x.shape);
    lemma_refused(b);
    assert(b[0].shape == table.shape && b[1].shape == x.shape);
    assert(axis_name(b, 0, 1) == axis_name(b, 1, 0));
}

/// A strided projection takes a vector, a matrix with rows of that width, and an output with
/// rows of one element per row of the matrix.
pub proof fn law_gemv_takes(x: TensorView, w: TensorView, xout: TensorView, step: Parcel)
    ensures
        ({
            let b = gemv_bounds(x.shape, w.shape, xout.shape);
            let fits = match (x.shape, w.shape, xout.shape) {
                (
                    TensorShape::R1(n),
                    TensorShape::R2(d, n1),
                    TensorShape::R2(_, d2),
                ) => {
                    &&& n1 == n
                    &&& d2 == d
                },
                _ => false,
            };
            let work = Work::Gemv { x, w, xout, step };
            &&& b.len() == 3
            &&& declares(b[0], x, "x"@, seq!["n"@])
            &&& declares(b[1], w, "w"@, seq!["d"@, "n"@])
            &&& declares(b[2], xout, "xout"@, seq!["seq"@, "d"@])
            &&& mismatch(b) is None <==> fits
            &&& work.refused() == mismatch(b)
        }),
{
    let b = gemv_bounds(x.shape, w.shape, xout.shape);
    lemma_refused(b);
    assert(b[0].shape == x.shape && b[1].shape == w.shape && b[2].shape == xout.shape);
    assert(axis_name(b, 0, 0) == axis_name(b, 1, 1));
    assert(axis_name(b, 1, 0) == axis_name(b, 2, 1));
}

/// RMSNorm takes three vectors of one width.
pub proof fn law_rmsnorm_takes(x: TensorView, weight: TensorView, o: TensorView)
    ensures
        ({
            let b = rmsnorm_bounds(x.shape, weight.shape, o.shape);
            let fits = match (x.shape, weight.shape, o.shape) {
                (
                    TensorShape::R1(dim),
                    TensorShape::R1(dim1),
                    TensorShape::R1(dim2),
                ) => {
                    &&& dim1 == dim
                    &&& dim2 == dim
                },
                _ => false,
            };
            let work = Work::Rmsnorm { x, weight, o };
            &&& b.len() == 3
            &&& declares(b[0], x, "x"@, seq!["dim"@])
            &&& declares(b[1], weight, "weight"@, seq!["dim"@])
            &&& declares(b[2], o, "o"@, seq!["dim"@])
            &&& mismatch(b) is None <==> fits
            &&& work.refused() == mismatch(b)
        }),
{
    let b = rmsnorm_bounds(x.shape, weight.shape, o.shape);
    lemma_refused(b);
    assert(b[0].shape == x.shape && b[1].shape == weight.shape && b[2].shape == o.shape);
    assert(axis_name(b, 0, 0) == axis_name(b, 1, 0));
    assert(axis_name(b, 0, 0) == axis_name(b, 2, 0));
}

/// In-place RMSNorm takes two vectors of one width.
pub proof fn law_rmsnorm_inplace_takes(x: TensorView, weight: TensorView)
    ensures
        ({
            let b = rmsnorm_inplace_bounds(x.shape, weight.shape);
            let fits = match (x.shape, weight.shape) {
                (TensorShape::R1(dim), TensorShape::R1(dim1)) => dim1 == dim,
                _ => false,
            };
            let work = Work::RmsnormInplace { x, weight };
            &&& b.len() == 2
            &&& declares(b[0], x, "x"@, seq!["dim"@])
            &&& declares(b[1], weight, "weight"@, seq!["dim"@])
            &&& mismatch(b) is None <==> fits
            &&& work.refused() == mismatch(b)
        }),
{
    let b = rmsnorm_inplace_bounds(x.shape, weight.shape);
    lemma_refused(b);
    assert(b[0].shape == x.shape && b[1].shape == weight.shape);
    assert(axis_name(b, 0, 0) == axis_name(b, 1, 0));
}

/// RoPE takes query heads and a key cache of one head size.
pub proof fn law_rope_takes(q: TensorView, k: TensorView, step: Parcel, theta: u32)
    ensures
        ({
            let b = rope_bounds(q.shape, k.shape);
            let fits = match (q.shape, k.shape) {
                (TensorShape::R2(_, head), TensorShape::R3(_, _, head1)) => head1 == head,
                _ => false,
            };
            let work = Work::Rope { q, k, step, theta };
            &&& b.len() == 2
            &&& declares(b[0], q, "q"@, seq!["q_heads"@, "head"@])
            &&& declares(b[1], k, "k"@, seq!["seq"@, "kv_heads"@, "head"@])
            &&& mismatch(b) is None <==> fits
            &&& work.refused() == mismatch(b)
        }),
{
    let b = rope_bounds(q.shape, k.shape);
    lemma_refused(b);
    assert(b[0].shape == q.shape && b[1].shape == k.shape);
    assert(axis_name(b, 0, 1) == axis_name(b, 1, 2));
}

/// RoPE with a store takes query heads and a key cache of one head size, and any key vector.
pub proof fn law_rope_store_takes(
    q: TensorView,
    k_proj: TensorView,
    k: TensorView,
    step: Parcel,
    theta: u32,
)
    ensures
        ({
            let b = rope_store_bounds(q.shape, k_proj.shape, k.shape);
            let fits = match (q.shape, k_proj.shape, k.shape) {
                (
                    TensorShape::R2(_, head),
                    TensorShape::R1(_),
                    TensorShape::R3(_, _, head2),
                ) => head2 == head,
                _ => false,
            };
            let work = Work::RopeStore { q, k_proj, k, step, theta };
            &&& b.len() == 3
            &&& declares(b[0], q, "q"@, seq!["q_heads"@, "head"@])
            &&& declares(b[1], k_proj, "k_proj"@, seq!["kv_dim"@])
            &&& declares(b[2], k, "k"@, seq!["seq"@, "kv_heads"@, "head"@])
            &&& mismatch(b) is None <==> fits
            &&& work.refused() == mismatch(b)
        }),
{
    let b = rope_store_bounds(q.shape, k_proj.shape, k.shape);
    lemma_refused(b);
    assert(b[0].shape == q.shape && b[1].shape == k_proj.shape && b[2].shape == k.shape);
    assert(axis_name(b, 0, 1) == axis_name(b, 2, 2));
}

/// A store takes a vector and a cache.
pub proof fn law_cache_store_takes(src: TensorView, dst: TensorView, step: Parcel)
    ensures
        ({
            let b = cache_store_bounds(src.shape, dst.shape);
            let fits = match (src.shape, dst.shape) {
                (TensorShape::R1(_), TensorShape::R3(_, _, _)) => true,
                _ => false,
            };
            let work = Work::CacheStore { src, dst, step };
            &&& b.len() == 2
            &&& declares(b[0], src, "src"@, seq!["kv_dim"@])
            &&& declares(b[1], dst, "dst"@, seq!["seq"@, "kv_heads"@, "head"@])
            &&& mismatch(b) is None <==> fits
            &&& work.refused() == mismatch(b)
        }),
{
    let b = cache_store_bounds(src.shape, dst.shape);
    lemma_refused(b);
    assert(b[0].shape == src.shape && b[1].shape == dst.shape);
}

/// The first pass takes query heads, two caches of one shape and of their head size, and a
/// scratch with as many heads.
pub proof fn law_attention_partial_takes(
    q: TensorView,
    key_cache: TensorView,
    value_cache: TensorView,
    partial: TensorView,
    step: Parcel,
)
    ensures
        ({
            let b = partial_bounds(q.shape, key_cache.shape, value_cache.shape, partial.shape);
            let fits = match (q.shape, key_cache.shape, value_cache.shape, partial.shape) {
                (
                    TensorShape::R2(heads, head),
                    TensorShape::R3(seq_len, kv_heads, head1),
                    TensorShape::R3(seq_len2, kv_heads2, head2),
                    TensorShape::R3(heads3, _, _),
                ) => {
                    &&& head1 == head
                    &&& seq_len2 == seq_len
                    &&& kv_heads2 == kv_heads
                    &&& head2 == head
                    &&& heads3 == heads
                },
                _ => false,
            };
            let work = Work::AttentionPartial { q, key_cache, value_cache, partial, step };
            &&& b.len() == 4
            &&& declares(b[0], q, "q"@, seq!["q_heads"@, "head"@])
            &&& declares(b[1], key_cache, "key_cache"@, seq!["seq"@, "kv_heads"@, "head"@])
            &&& declares(b[2], value_cache, "value_cache"@, seq!["seq"@, "kv_heads"@, "head"@])
            &&& declares(b[3], partial, "partial"@, seq!["q_heads"@, "splits"@, "slot"@])
            &&& mismatch(b) is None <==> fits
            &&& work.refused() == mismatch(b)
        }),
{
    let b = partial_bounds(q.shape, key_cache.shape, value_cache.shape, partial.shape);
    lemma_refused(b);
    assert(b[0].shape == q.shape);
    assert(b[1].shape == key_cache.shape);
    assert(b[2].shape == value_cache.shape);
    assert(b[3].shape == partial.shape);
    assert(axis_name(b, 0, 1) == axis_name(b, 1, 2));
    assert(axis_name(b, 1, 0) == axis_name(b, 2, 0));
    assert(axis_name(b, 1, 1) == axis_name(b, 2, 1));
    assert(axis_name(b, 0, 1) == axis_name(b, 2, 2));
    assert(axis_name(b, 0, 0) == axis_name(b, 3, 0));
}

/// The second pass takes a scratch and an output of as many heads.
pub proof fn law_attention_combine_takes(partial: TensorView, xb: TensorView, step: Parcel)
    ensures
        ({
            let b = combine_bounds(partial.shape, xb.shape);
            let fits = match (partial.shape, xb.shape) {
                (TensorShape::R3(heads, _, _), TensorShape::R2(heads1, _)) => heads1 == heads,
                _ => false,
            };
            let work = Work::AttentionCombine { partial, xb, step };
            &&& b.len() == 2
            &&& declares(b[0], partial, "partial"@, seq!["q_heads"@, "splits"@, "slot"@])
            &&& declares(b[1], xb, "xb"@, seq!["q_heads"@, "head"@])
            &&& mismatch(b) is None <==> fits
            &&& work.refused() == mismatch(b)
        }),
{
    let b = combine_bounds(partial.shape, xb.shape);
    lemma_refused(b);
    assert(b[0].shape == partial.shape && b[1].shape == xb.shape);
    assert(axis_name(b, 0, 0) == axis_name(b, 1, 0));
}

/// Attention takes query heads and an output of one shape, two caches of one shape and of
/// their head size, and weights of one row per head and one column per position.
pub proof fn law_attention_takes(
    q: TensorView,
    att: TensorView,
    xb: TensorView,
    key_cache: TensorView,
    value_cache: TensorView,
    step: Parcel,
)
    ensures
        ({
            let b = attention_bounds(
                q.shape,
                att.shape,
                xb.shape,
                key_cache.shape,
                value_cache.shape,
            );
            let fits = match (q.shape, att.shape, xb.shape, key_cache.shape, value_cache.shape) {
                (
                    TensorShape::R2(heads, head),
                    TensorShape::R2(heads1, seq_len),
                    TensorShape::R2(heads2, head2),
                    TensorShape::R3(seq_len3, kv_heads, head3),
                    TensorShape::R3(seq_len4, kv_heads4, head4),
                ) => {
                    &&& heads1 == heads
                    &&& heads2 == heads
                    &&& head2 == head
                    &&& seq_len3 == seq_len
                    &&& head3 == head
                    &&& seq_len4 == seq_len
                    &&& kv_heads4 == kv_heads
                    &&& head4 == head
                },
                _ => false,
            };
            let work = Work::Attention { q, att, xb, key_cache, value_cache, step };
            &&& b.len() == 5
            &&& declares(b[0], q, "q"@, seq!["q_heads"@, "head"@])
            &&& declares(b[1], att, "att"@, seq!["q_heads"@, "seq"@])
            &&& declares(b[2], xb, "xb"@, seq!["q_heads"@, "head"@])
            &&& declares(b[3], key_cache, "key_cache"@, seq!["seq"@, "kv_heads"@, "head"@])
            &&& declares(b[4], value_cache, "value_cache"@, seq!["seq"@, "kv_heads"@, "head"@])
            &&& mismatch(b) is None <==> fits
            &&& work.refused() == mismatch(b)
        }),
{
    let b = attention_bounds(q.shape, att.shape, xb.shape, key_cache.shape, value_cache.shape);
    lemma_refused(b);
    assert(b[0].shape == q.shape);
    assert(b[1].shape == att.shape);
    assert(b[2].shape == xb.shape);
    assert(b[3].shape == key_cache.shape);
    assert(b[4].shape == value_cache.shape);
    assert(axis_name(b, 0, 0) == axis_name(b, 1, 0));
    assert(axis_name(b, 0, 0) == axis_name(b, 2, 0));
    assert(axis_name(b, 0, 1) == axis_name(b, 2, 1));
    assert(axis_name(b, 1, 1) == axis_name(b, 3, 0));
    assert(axis_name(b, 0, 1) == axis_name(b, 3, 2));
    assert(axis_name(b, 1, 1) == axis_name(b, 4, 0));
    assert(axis_name(b, 3, 1) == axis_name(b, 4, 1));
    assert(axis_name(b, 0, 1) == axis_name(b, 4, 2));
}

/// SwiGLU takes two vectors of one width.
pub proof fn law_swiglu_takes(hb: TensorView, hb2: TensorView)
    ensures
        ({
            let b = swiglu_bounds(hb.shape, hb2.shape);
            let fits = match (hb.shape, hb2.shape) {
                (TensorShape::R1(hidden), TensorShape::R1(hidden1)) => hidden1 == hidden,
                _ => false,
            };
            let work = Work::Swiglu { hb, hb2 };
            &&& b.len() == 2
            &&& declares(b[0], hb, "hb"@, seq!["hidden"@])
            &&& declares(b[1], hb2, "hb2"@, seq!["hidden"@])
            &&& mismatch(b) is None <==> fits
            &&& work.refused() == mismatch(b)
        }),
{
    let b = swiglu_bounds(hb.shape, hb2.shape);
    lemma_refused(b);
    assert(b[0].shape == hb.shape && b[1].shape == hb2.shape);
    assert(axis_name(b, 0, 0) == axis_name(b, 1, 0));
}

/// The head layout of attention: one query head per row of the query, key heads and head
/// size as the cache has them.
pub proof fn law_heads_come_from_the_shapes(q: TensorShape, key_cache: TensorShape)
    ensures
        match (q, key_cache) {
            (TensorShape::R2(q_heads, head), TensorShape::R3(_, kv_heads, _)) => {
                let heads = heads_of(q, key_cache);
                heads.q_heads == q_heads && heads.head == head && heads.kv_heads == kv_heads
            },
            _ => true,
        },
{
}

} // verus!
