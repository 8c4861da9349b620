//! Recording of transformer blocks.
//!
//! These functions decide which dispatches a block is made of, on which views, and
//! append them to a [`Scheme`]. Exchanges stay with the submitting root.
use crate::contract::{mismatch, ContractError};
use crate::kernels::norm::RMS_EPS_BITS;
use crate::kernels::{ATTENTION_MAX_HEAD, ATTENTION_SPLIT, DEFAULT_ROPE_THETA};
use crate::scalar::ONE_BITS;
use crate::scheme::{
    law_node_counts_add_up, node_count, Grid, Recorded, Scheme, TensorOp, Work,
};
use crate::tensor::{
    law_rows_are_a_window, product, Parcel, ShapeError, TensorShape, TensorView,
};
use crate::text::{decimal, push_decimal};
use vstd::prelude::*;
use vstd::string::StringExecFns;

verus! {

/// Activation and weight views for one attention block.
#[derive(Clone, Copy, PartialEq, Eq, Structural, Debug)]
pub struct AttentionSites {
    pub x: TensorView,
    pub xb: TensorView,
    pub xb2: TensorView,
    pub q: TensorView,
    /// Value projection scratch, at least as wide as the key projection.
    pub v: TensorView,
    /// `[q_heads, attention_splits(seq), head + 2]` flash-decoding scratch.
    pub partial: TensorView,
    pub norm: NormScratch,
    pub key: TensorView,
    pub value: TensorView,
    pub step: Parcel,
    pub rms: TensorView,
    pub wq: TensorView,
    pub wk: TensorView,
    pub wv: TensorView,
    pub wo: TensorView,
}

/// Activation and weight views for one SwiGLU feed-forward block.
#[derive(Clone, Copy, PartialEq, Eq, Structural, Debug)]
pub struct FfnSites {
    pub x: TensorView,
    pub xb: TensorView,
    pub hb: TensorView,
    pub hb2: TensorView,
    /// `[hidden]` gate scratch for SwiGLU recorded as tensor operations.
    pub gate: TensorView,
    pub norm: NormScratch,
    pub rms: TensorView,
    pub w1: TensorView,
    pub w2: TensorView,
    pub w3: TensorView,
}

/// Scratch for RMSNorm recorded as tensor operations: the squares, `[dim]`, and
/// their mean and scale, `[1]`.
#[derive(Clone, Copy, PartialEq, Eq, Structural, Debug)]
pub struct NormScratch {
    pub square: TensorView,
    pub scale: TensorView,
}

/// Why a block was not recorded.
#[derive(Clone, Copy, PartialEq, Eq, Structural, Debug)]
pub enum RecordError {
    /// A kernel refused its tensors.
    Contract(ContractError),
    /// A view could not be taken.
    Shape(ShapeError),
    /// The key and value weights have different row counts.
    KvRowsDiffer,
    /// The key width is odd, or wider than the query.
    KvWidth,
    /// The scratch for the key or value projection is too short.
    KvScratch,
    /// The head is wider than a workgroup.
    HeadTooWide { head: u32 },
    /// The flash-decoding scratch has another shape than this.
    PartialScratch { q_heads: u32, splits: u32, slot: u32 },
}

/// What recording appends to a scheme, and the error that cut it short.
pub ghost struct Recording {
    pub entries: Seq<Recorded>,
    pub error: Option<RecordError>,
}

impl Recording {
    /// Nothing recorded for this reason.
    pub open spec fn fail(e: RecordError) -> Recording {
        Recording { entries: Seq::empty(), error: Some(e) }
    }

    /// A kernel dispatch, where the contract holds.
    pub open spec fn kernel(label: Seq<char>, work: Work, grid: Grid) -> Recording {
        match work.refused() {
            Some(e) => Recording::fail(RecordError::Contract(e)),
            None => Recording {
                entries: seq![Recorded::Kernel(label, work, grid)],
                error: None,
            },
        }
    }

    /// A tensor operation.
    pub open spec fn op(label: Seq<char>, op: TensorOp) -> Recording {
        Recording { entries: seq![Recorded::Tensor(label, op)], error: None }
    }

    /// This, and `next` where this was not cut short.
    pub open spec fn followed_by(self, next: Recording) -> Recording {
        match self.error {
            Some(_) => self,
            None => Recording { entries: self.entries + next.entries, error: next.error },
        }
    }

    /// This as a group. A group that was cut short is not recorded at all.
    pub open spec fn grouped(self, label: Seq<char>) -> Recording {
        match self.error {
            Some(e) => Recording::fail(e),
            None => Recording {
                entries: seq![Recorded::Open(label)] + self.entries + seq![Recorded::Close],
                error: None,
            },
        }
    }

    /// Recording took the scheme `before` to `after` and returned `r`.
    pub open spec fn took(self, before: Scheme, after: Scheme, r: Result<(), RecordError>) -> bool {
        &&& after.same_options(before)
        &&& after@ == before@ + self.entries
        &&& r == (match self.error {
            None => Ok::<(), RecordError>(()),
            Some(e) => Err(e),
        })
    }
}

/// Flash-decoding splits of `seq_len` cached positions: the least number of splits of
/// [`ATTENTION_SPLIT`] positions that covers them, and at least one.
pub open spec fn splits_of(seq_len: int) -> int {
    if seq_len <= ATTENTION_SPLIT {
        1
    } else {
        (seq_len + ATTENTION_SPLIT - 1) / (ATTENTION_SPLIT as int)
    }
}

/// Flash-decoding splits covering `seq_len` cached positions.
pub fn attention_splits(seq_len: u32) -> (r: u32)
    ensures
        r == splits_of(seq_len as int),
        r >= 1,
        r * ATTENTION_SPLIT >= seq_len,
        r > 1 ==> (r - 1) * ATTENTION_SPLIT < seq_len,
{
    let whole: u32 = seq_len / ATTENTION_SPLIT;
    let splits: u32 = if seq_len % ATTENTION_SPLIT == 0 {
        whole
    } else {
        whole + 1
    };
    if splits < 1 {
        1
    } else {
        splits
    }
}

fn kernel(scheme: &mut Scheme, label: &str, work: Work, grid: Grid) -> (r: Result<(), RecordError>)
    ensures
        Recording::kernel(label@, work, grid).took(*old(scheme), *final(scheme), r),
{
    match scheme.dispatch(label, work, grid) {
        Ok(()) => {
            assert(scheme@ =~= old(scheme)@ + seq![Recorded::Kernel(label@, work, grid)]);
            Ok(())
        },
        Err(e) => {
            assert(scheme@ =~= old(scheme)@ + Seq::<Recorded>::empty());
            Err(RecordError::Contract(e))
        },
    }
}

fn op(scheme: &mut Scheme, label: &str, op: TensorOp)
    ensures
        Recording::op(label@, op).took(*old(scheme), *final(scheme), Ok(())),
{
    scheme.tensor_op(label, op);
    assert(scheme@ =~= old(scheme)@ + seq![Recorded::Tensor(label@, op)]);
}

/// Recordings that follow each other on one scheme.
proof fn lemma_followed_by(
    a: Recording,
    b: Recording,
    s0: Scheme,
    s1: Scheme,
    s2: Scheme,
    r: Result<(), RecordError>,
)
    requires
        a.took(s0, s1, Ok(())),
        b.took(s1, s2, r),
    ensures
        a.followed_by(b).took(s0, s2, r),
{
    assert(s2@ =~= s0@ + (a.entries + b.entries));
}

/// Ends the group opened after the first `mark` entries, whose recording returned `r`:
/// closes it, or drops it where it was cut short.
pub(crate) fn end_group(
    scheme: &mut Scheme,
    mark: usize,
    r: Result<(), RecordError>,
    Ghost(before): Ghost<Scheme>,
    Ghost(label): Ghost<Seq<char>>,
    Ghost(inner): Ghost<Recording>,
) -> (out: Result<(), RecordError>)
    requires
        mark == before@.len(),
        old(scheme).same_options(before),
        old(scheme)@ == before@.push(Recorded::Open(label)) + inner.entries,
        r == (match inner.error {
            None => Ok::<(), RecordError>(()),
            Some(e) => Err(e),
        }),
    ensures
        inner.grouped(label).took(before, *final(scheme), out),
{
    match r {
        Ok(()) => {
            scheme.close_group();
            assert(scheme@ =~= before@ + inner.grouped(label).entries);
        },
        Err(_) => {
            scheme.rewind(mark);
            assert(scheme@ =~= before@ + inner.grouped(label).entries);
        },
    }
    r
}

/// The gather of [`record_embed`].
pub open spec fn embed_recording(table: TensorView, step: Parcel, x: TensorView) -> Recording {
    Recording::kernel("embed"@, Work::Embed { table, step, x }, Grid::OverTensor(x))
}

/// Token-row gather into `x`.
pub fn record_embed(scheme: &mut Scheme, table: TensorView, step: Parcel, x: TensorView) -> (r:
    Result<(), RecordError>)
    ensures
        embed_recording(table, step, x).took(*old(scheme), *final(scheme), r),
{
    kernel(scheme, "embed", Work::Embed { table, step, x }, Grid::OverTensor(x))
}

/// RMSNorm by the kernel.
pub open spec fn rmsnorm_recording(x: TensorView, weight: TensorView, out: TensorView) -> Recording {
    Recording::kernel("rmsnorm"@, Work::Rmsnorm { x, weight, o: out }, Grid::Groups(1, 1, 1))
}

/// RMSNorm as tensor operations: the squares, their mean, the shifted root's reciprocal,
/// and the scaled and weighted elements.
pub open spec fn semantic_norm_recording(
    x: TensorView,
    weight: TensorView,
    out: TensorView,
    scratch: NormScratch,
) -> Recording {
    let square = scratch.square;
    let scale = scratch.scale;
    Recording::op("rms_square"@, TensorOp::Mul { a: x, b: x, out: square }).followed_by(
        Recording::op("rms_mean"@, TensorOp::Mean { a: square, axis: 0, out: scale }),
    ).followed_by(
        Recording::op(
            "rms_eps"@,
            TensorOp::AddScalar { a: scale, bits: RMS_EPS_BITS, out: scale },
        ),
    ).followed_by(Recording::op("rms_sqrt"@, TensorOp::Sqrt { a: scale, out: scale })).followed_by(
        Recording::op("rms_scale"@, TensorOp::Reciprocal { a: scale, out: scale }),
    ).followed_by(Recording::op("rms_normalize"@, TensorOp::Mul { a: scale, b: x, out })).followed_by(
        Recording::op("rms_weight"@, TensorOp::Mul { a: weight, b: out, out }),
    )
}

/// RMSNorm in the form that the scheme asks for.
pub open spec fn norm_recording(
    semantic: bool,
    x: TensorView,
    weight: TensorView,
    out: TensorView,
    scratch: NormScratch,
) -> Recording {
    if semantic {
        semantic_norm_recording(x, weight, out, scratch)
    } else {
        rmsnorm_recording(x, weight, out)
    }
}

/// The scheme records RMSNorm as tensor operations.
pub open spec fn norm_is_semantic(scheme: Scheme) -> bool {
    scheme.semantic_norm && scheme.automatic_fusion
}

fn semantic_norm(
    scheme: &mut Scheme,
    x: TensorView,
    weight: TensorView,
    out: TensorView,
    scratch: NormScratch,
)
    ensures
        semantic_norm_recording(x, weight, out, scratch).took(*old(scheme), *final(scheme), Ok(())),
{
    let NormScratch { square, scale } = scratch;
    op(scheme, "rms_square", TensorOp::Mul { a: x, b: x, out: square });
    op(scheme, "rms_mean", TensorOp::Mean { a: square, axis: 0, out: scale });
    op(
        scheme,
        "rms_eps",
        TensorOp::AddScalar { a: scale, bits: RMS_EPS_BITS, out: scale },
    );
    op(scheme, "rms_sqrt", TensorOp::Sqrt { a: scale, out: scale });
    op(scheme, "rms_scale", TensorOp::Reciprocal { a: scale, out: scale });
    op(scheme, "rms_normalize", TensorOp::Mul { a: scale, b: x, out });
    op(scheme, "rms_weight", TensorOp::Mul { a: weight, b: out, out });
    assert(scheme@ =~= old(scheme)@ + semantic_norm_recording(x, weight, out, scratch).entries);
}

/// RMSNorm into `out`. Where the scheme asks for it under automatic fusion it is
/// recorded as tensor operations, which fuse into the projections that read `out`. The
/// mean square is then summed in order by one thread rather than across the kernel's
/// 256 lanes.
pub fn norm(
    scheme: &mut Scheme,
    x: TensorView,
    weight: TensorView,
    out: TensorView,
    scratch: NormScratch,
) -> (r: Result<(), RecordError>)
    ensures
        norm_recording(norm_is_semantic(*old(scheme)), x, weight, out, scratch).took(
            *old(scheme),
            *final(scheme),
            r,
        ),
{
    if scheme.semantic_norm && scheme.automatic_fusion {
        semantic_norm(scheme, x, weight, out, scratch);
        Ok(())
    } else {
        record_rmsnorm(scheme, x, weight, out)
    }
}

/// RMSNorm into `out`.
pub fn record_rmsnorm(
    scheme: &mut Scheme,
    x: TensorView,
    weight: TensorView,
    out: TensorView,
) -> (r: Result<(), RecordError>)
    ensures
        rmsnorm_recording(x, weight, out).took(*old(scheme), *final(scheme), r),
{
    kernel(scheme, "rmsnorm", Work::Rmsnorm { x, weight, o: out }, Grid::Groups(1, 1, 1))
}

/// RMSNorm in place by the kernel.
pub open spec fn rmsnorm_inplace_recording(x: TensorView, weight: TensorView) -> Recording {
    Recording::kernel("rmsnorm"@, Work::RmsnormInplace { x, weight }, Grid::Groups(1, 1, 1))
}

/// RMSNorm of `x` in place.
pub fn record_rmsnorm_inplace(scheme: &mut Scheme, x: TensorView, weight: TensorView) -> (r: Result<
    (),
    RecordError,
>)
    ensures
        rmsnorm_inplace_recording(x, weight).took(*old(scheme), *final(scheme), r),
{
    kernel(scheme, "rmsnorm", Work::RmsnormInplace { x, weight }, Grid::Groups(1, 1, 1))
}

/// `out = weight @ x`.
pub fn record_linear(
    scheme: &mut Scheme,
    label: &str,
    weight: TensorView,
    x: TensorView,
    out: TensorView,
)
    ensures
        Recording::op(label@, TensorOp::Matmul { a: weight, b: x, out }).took(
            *old(scheme),
            *final(scheme),
            Ok(()),
        ),
{
    op(scheme, label, TensorOp::Matmul { a: weight, b: x, out });
}

/// SwiGLU as tensor operations, in the kernel's order.
pub open spec fn fused_swiglu_recording(
    hb: TensorView,
    hb2: TensorView,
    gate: TensorView,
) -> Recording {
    Recording::op("silu_neg"@, TensorOp::Neg { a: hb, out: gate }).followed_by(
        Recording::op("silu_exp"@, TensorOp::Exp { a: gate, out: gate }),
    ).followed_by(
        Recording::op(
            "silu_denominator"@,
            TensorOp::AddScalar { a: gate, bits: ONE_BITS, out: gate },
        ),
    ).followed_by(Recording::op("silu_reciprocal"@, TensorOp::Reciprocal { a: gate, out: gate })).followed_by(
        Recording::op("silu"@, TensorOp::Mul { a: hb, b: gate, out: gate }),
    ).followed_by(Recording::op("swiglu"@, TensorOp::Mul { a: gate, b: hb2, out: hb }))
}

/// SwiGLU in the form that the scheme asks for.
pub open spec fn swiglu_recording(
    fusion: bool,
    hb: TensorView,
    hb2: TensorView,
    gate: TensorView,
) -> Recording {
    if fusion {
        fused_swiglu_recording(hb, hb2, gate)
    } else {
        Recording::kernel("swiglu"@, Work::Swiglu { hb, hb2 }, Grid::OverTensor(hb))
    }
}

/// `hb = silu(hb) * hb2`. Under automatic fusion it is recorded as tensor operations in
/// the order of the kernel, which fuse into both projections that feed it.
pub fn record_swiglu(scheme: &mut Scheme, hb: TensorView, hb2: TensorView, gate: TensorView) -> (r:
    Result<(), RecordError>)
    ensures
        swiglu_recording(old(scheme).automatic_fusion, hb, hb2, gate).took(
            *old(scheme),
            *final(scheme),
            r,
        ),
{
    if !scheme.automatic_fusion {
        return kernel(scheme, "swiglu", Work::Swiglu { hb, hb2 }, Grid::OverTensor(hb));
    }
    op(scheme, "silu_neg", TensorOp::Neg { a: hb, out: gate });
    op(scheme, "silu_exp", TensorOp::Exp { a: gate, out: gate });
    op(
        scheme,
        "silu_denominator",
        TensorOp::AddScalar { a: gate, bits: ONE_BITS, out: gate },
    );
    op(scheme, "silu_reciprocal", TensorOp::Reciprocal { a: gate, out: gate });
    op(scheme, "silu", TensorOp::Mul { a: hb, b: gate, out: gate });
    op(scheme, "swiglu", TensorOp::Mul { a: gate, b: hb2, out: hb });
    assert(scheme@ =~= old(scheme)@ + fused_swiglu_recording(hb, hb2, gate).entries);
    Ok(())
}

/// The views that attention takes of its sites.
#[derive(Clone, Copy, PartialEq, Eq, Structural, Debug)]
pub struct AttentionViews {
    /// The query, flat.
    pub q_flat: TensorView,
    /// The attention output, by query head.
    pub xb_heads: TensorView,
    /// The key projection: the prefix of `xb2`.
    pub proj: TensorView,
    /// The value projection: the prefix of `v`.
    pub v: TensorView,
    pub kv_dim: u32,
    pub q_heads: u32,
    pub splits: u32,
}

impl AttentionSites {
    /// The views whose elements are counted are addressable.
    pub open spec fn wf(self) -> bool {
        &&& self.q.wf()
        &&& self.xb.wf()
        &&& self.xb2.wf()
        &&& self.v.wf()
        &&& self.partial.wf()
    }

    /// The views that attention takes, or the first reason to refuse the sites.
    pub open spec fn views(self) -> Result<AttentionViews, RecordError> {
        let head = self.key.shape.dims()[2];
        let q_heads = self.q.shape.dims()[0];
        let by_head = TensorShape::R2(q_heads, head);
        let kv_dim = self.wk.shape.dims()[0];
        let splits = splits_of(self.key.shape.dims()[0] as int) as u32;
        if self.key.shape.dims().len() <= 2 {
            Err(
                RecordError::Shape(
                    ShapeError::Axis { axis: 2, rank: self.key.shape.dims().len() as usize },
                ),
            )
        } else if by_head.numel() != self.xb.numel() {
            Err(
                RecordError::Shape(ShapeError::Numel { from: self.xb.numel() as u32, to: by_head }),
            )
        } else if self.wv.shape.dims()[0] != kv_dim {
            Err(RecordError::KvRowsDiffer)
        } else if kv_dim > self.q.numel() || kv_dim % 2 != 0 {
            Err(RecordError::KvWidth)
        } else if self.xb2.numel() < kv_dim || self.v.numel() < kv_dim {
            Err(RecordError::KvScratch)
        } else if head > ATTENTION_MAX_HEAD {
            Err(RecordError::HeadTooWide { head })
        } else if self.partial.shape != TensorShape::R3(q_heads, splits, (head + 2) as u32) {
            Err(RecordError::PartialScratch { q_heads, splits, slot: (head + 2) as u32 })
        } else if kv_dim > self.xb2.shape.dims()[0] {
            Err(
                RecordError::Shape(
                    ShapeError::Window { start: 0, len: kv_dim, extent: self.xb2.shape.dims()[0] },
                ),
            )
        } else if kv_dim > self.v.shape.dims()[0] {
            Err(
                RecordError::Shape(
                    ShapeError::Window { start: 0, len: kv_dim, extent: self.v.shape.dims()[0] },
                ),
            )
        } else {
            Ok(
                AttentionViews {
                    q_flat: self.q.reshaped(TensorShape::R1(self.q.numel() as u32)),
                    xb_heads: self.xb.reshaped(by_head),
                    proj: self.xb2.rows(0, kv_dim),
                    v: self.v.rows(0, kv_dim),
                    kv_dim,
                    q_heads,
                    splits,
                },
            )
        }
    }
}

fn attention_views(sites: &AttentionSites) -> (r: Result<AttentionViews, RecordError>)
    requires
        sites.wf(),
    ensures
        r == sites.views(),
{
    let head: u32 = match sites.key.shape.dim(2) {
        Ok(head) => head,
        Err(e) => {
            return Err(RecordError::Shape(e));
        },
    };
    let q_heads: u32 = sites.q.shape.extent(0);
    let q_numel: u32 = sites.q.numel_u32();
    let q_flat = match sites.q.reshape(TensorShape::R1(q_numel)) {
        Ok(view) => view,
        Err(e) => {
            return Err(RecordError::Shape(e));
        },
    };
    let xb_heads = match sites.xb.reshape(TensorShape::R2(q_heads, head)) {
        Ok(view) => view,
        Err(e) => {
            return Err(RecordError::Shape(e));
        },
    };
    let kv_dim: u32 = sites.wk.shape.extent(0);
    if sites.wv.shape.extent(0) != kv_dim {
        return Err(RecordError::KvRowsDiffer);
    }
    if kv_dim > q_numel || kv_dim % 2 != 0 {
        return Err(RecordError::KvWidth);
    }
    if sites.xb2.numel_u32() < kv_dim || sites.v.numel_u32() < kv_dim {
        return Err(RecordError::KvScratch);
    }
    if head > ATTENTION_MAX_HEAD {
        return Err(RecordError::HeadTooWide { head });
    }
    let splits: u32 = attention_splits(sites.key.shape.extent(0));
    if sites.partial.shape != TensorShape::R3(q_heads, splits, head + 2) {
        return Err(RecordError::PartialScratch { q_heads, splits, slot: head + 2 });
    }
    let proj = match sites.xb2.narrow(0, kv_dim) {
        Ok(view) => view,
        Err(e) => {
            return Err(RecordError::Shape(e));
        },
    };
    let v = match sites.v.narrow(0, kv_dim) {
        Ok(view) => view,
        Err(e) => {
            return Err(RecordError::Shape(e));
        },
    };
    Ok(AttentionViews { q_flat, xb_heads, proj, v, kv_dim, q_heads, splits })
}

/// Threads of the rotation of a query of `numel` elements: one for each pair, and at
/// least one.
pub open spec fn rope_threads(numel: int) -> u32 {
    if numel < 2 {
        1
    } else {
        (numel / 2) as u32
    }
}

/// The normalized input and its three projections.
pub open spec fn projection_recording(
    semantic: bool,
    s: AttentionSites,
    v: AttentionViews,
) -> Recording {
    norm_recording(semantic, s.x, s.rms, s.xb, s.norm).followed_by(
        Recording::op("wq"@, TensorOp::Matmul { a: s.wq, b: s.xb, out: v.q_flat }),
    ).followed_by(
        Recording::op("wk"@, TensorOp::Matmul { a: s.wk, b: s.xb, out: v.proj }),
    ).followed_by(Recording::op("wv"@, TensorOp::Matmul { a: s.wv, b: s.xb, out: v.v }))
}

/// The rotation, and the stores into the cache.
pub open spec fn cache_recording(s: AttentionSites, v: AttentionViews) -> Recording {
    Recording::kernel(
        "rope"@,
        Work::RopeStore {
            q: s.q,
            k_proj: v.proj,
            k: s.key,
            step: s.step,
            theta: DEFAULT_ROPE_THETA,
        },
        Grid::Over1d(rope_threads(s.q.numel())),
    ).followed_by(
        Recording::kernel(
            "wv_store"@,
            Work::CacheStore { src: v.v, dst: s.value, step: s.step },
            Grid::Over1d(v.kv_dim),
        ),
    )
}

/// The two flash-decoding passes.
pub open spec fn flash_recording(s: AttentionSites, v: AttentionViews) -> Recording {
    Recording::kernel(
        "attn_partial"@,
        Work::AttentionPartial {
            q: s.q,
            key_cache: s.key,
            value_cache: s.value,
            partial: s.partial,
            step: s.step,
        },
        Grid::Groups((v.q_heads * v.splits) as u32, 1, 1),
    ).followed_by(
        Recording::kernel(
            "attn_combine"@,
            Work::AttentionCombine { partial: s.partial, xb: v.xb_heads, step: s.step },
            Grid::Groups(v.q_heads, 1, 1),
        ),
    )
}

/// The output projection and the residual.
pub open spec fn output_recording(s: AttentionSites) -> Recording {
    Recording::op("wo"@, TensorOp::Matmul { a: s.wo, b: s.xb, out: s.xb2 }).followed_by(
        Recording::op("residual"@, TensorOp::Add { a: s.x, b: s.xb2, out: s.x }),
    )
}

/// What [`record_attention`] records on its views.
pub open spec fn attention_dispatches(
    semantic: bool,
    s: AttentionSites,
    v: AttentionViews,
) -> Recording {
    projection_recording(semantic, s, v).followed_by(cache_recording(s, v)).followed_by(
        flash_recording(s, v),
    ).followed_by(output_recording(s))
}

fn record_projections(scheme: &mut Scheme, s: &AttentionSites, v: &AttentionViews) -> (r: Result<
    (),
    RecordError,
>)
    ensures
        projection_recording(norm_is_semantic(*old(scheme)), *s, *v).took(
            *old(scheme),
            *final(scheme),
            r,
        ),
{
    match norm(scheme, s.x, s.rms, s.xb, s.norm) {
        Ok(()) => {},
        Err(e) => {
            return Err(e);
        },
    }
    op(scheme, "wq", TensorOp::Matmul { a: s.wq, b: s.xb, out: v.q_flat });
    op(scheme, "wk", TensorOp::Matmul { a: s.wk, b: s.xb, out: v.proj });
    op(scheme, "wv", TensorOp::Matmul { a: s.wv, b: s.xb, out: v.v });
    assert(scheme@ =~= old(scheme)@ + projection_recording(
        norm_is_semantic(*old(scheme)),
        *s,
        *v,
    ).entries);
    Ok(())
}

fn record_cache(scheme: &mut Scheme, s: &AttentionSites, v: &AttentionViews) -> (r: Result<
    (),
    RecordError,
>)
    requires
        s.wf(),
    ensures
        cache_recording(*s, *v).took(*old(scheme), *final(scheme), r),
{
    let pairs: u32 = s.q.numel_u32() / 2;
    let threads: u32 = if pairs < 1 {
        1
    } else {
        pairs
    };
    let rotate = Work::RopeStore {
        q: s.q,
        k_proj: v.proj,
        k: s.key,
        step: s.step,
        theta: DEFAULT_ROPE_THETA,
    };
    match kernel(scheme, "rope", rotate, Grid::Over1d(threads)) {
        Ok(()) => {},
        Err(e) => {
            return Err(e);
        },
    }
    let store = Work::CacheStore { src: v.v, dst: s.value, step: s.step };
    let r = kernel(scheme, "wv_store", store, Grid::Over1d(v.kv_dim));
    assert(scheme@ =~= old(scheme)@ + cache_recording(*s, *v).entries);
    r
}

fn record_flash(scheme: &mut Scheme, s: &AttentionSites, v: &AttentionViews) -> (r: Result<
    (),
    RecordError,
>)
    requires
        s.wf(),
        s.views() == Ok::<AttentionViews, RecordError>(*v),
    ensures
        flash_recording(*s, *v).took(*old(scheme), *final(scheme), r),
{
    proof {
        lemma_groups_fit(v.q_heads, v.splits, s.partial.shape);
    }
    let first = Work::AttentionPartial {
        q: s.q,
        key_cache: s.key,
        value_cache: s.value,
        partial: s.partial,
        step: s.step,
    };
    match kernel(scheme, "attn_partial", first, Grid::Groups(v.q_heads * v.splits, 1, 1)) {
        Ok(()) => {},
        Err(e) => {
            return Err(e);
        },
    }
    let second = Work::AttentionCombine { partial: s.partial, xb: v.xb_heads, step: s.step };
    let r = kernel(scheme, "attn_combine", second, Grid::Groups(v.q_heads, 1, 1));
    assert(scheme@ =~= old(scheme)@ + flash_recording(*s, *v).entries);
    r
}

fn record_output(scheme: &mut Scheme, s: &AttentionSites)
    ensures
        output_recording(*s).took(*old(scheme), *final(scheme), Ok(())),
{
    op(scheme, "wo", TensorOp::Matmul { a: s.wo, b: s.xb, out: s.xb2 });
    op(scheme, "residual", TensorOp::Add { a: s.x, b: s.xb2, out: s.x });
    assert(scheme@ =~= old(scheme)@ + output_recording(*s).entries);
}

/// What [`record_attention`] records.
pub open spec fn attention_recording(semantic: bool, s: AttentionSites) -> Recording {
    match s.views() {
        Err(e) => Recording::fail(e),
        Ok(v) => attention_dispatches(semantic, s, v),
    }
}

/// RMSNorm, Q/K/V, RoPE, attention, output projection, residual into `x`.
///
/// The three projections of the normalized input are recorded together: `wk` into the
/// prefix of `xb2`, `wv` into `v`. The rotation turns Q in place and stores RoPE(K) in
/// the cache, and V is copied into the cache. `wo` reuses all of `xb2` after those
/// stores.
pub fn record_attention(scheme: &mut Scheme, sites: AttentionSites) -> (r: Result<(), RecordError>)
    requires
        sites.wf(),
    ensures
        attention_recording(norm_is_semantic(*old(scheme)), sites).took(
            *old(scheme),
            *final(scheme),
            r,
        ),
{
    let views = match attention_views(&sites) {
        Ok(views) => views,
        Err(e) => {
            assert(scheme@ =~= old(scheme)@ + Seq::<Recorded>::empty());
            return Err(e);
        },
    };
    let ghost s0 = *scheme;
    let ghost semantic = norm_is_semantic(s0);
    let ghost a = projection_recording(semantic, sites, views);
    let ghost b = cache_recording(sites, views);
    let ghost c = flash_recording(sites, views);
    match record_projections(scheme, &sites, &views) {
        Ok(()) => {},
        Err(e) => {
            return Err(e);
        },
    }
    let ghost s1 = *scheme;
    let stored = record_cache(scheme, &sites, &views);
    proof {
        lemma_followed_by(a, b, s0, s1, *scheme, stored);
    }
    match stored {
        Ok(()) => {},
        Err(e) => {
            return Err(e);
        },
    }
    let ghost s2 = *scheme;
    let attended = record_flash(scheme, &sites, &views);
    proof {
        lemma_followed_by(a.followed_by(b), c, s0, s2, *scheme, attended);
    }
    match attended {
        Ok(()) => {},
        Err(e) => {
            return Err(e);
        },
    }
    let ghost s3 = *scheme;
    record_output(scheme, &sites);
    proof {
        lemma_followed_by(
            a.followed_by(b).followed_by(c),
            output_recording(sites),
            s0,
            s3,
            *scheme,
            Ok(()),
        );
    }
    Ok(())
}

/// A workgroup count that the flash-decoding scratch bounds.
proof fn lemma_groups_fit(q_heads: u32, splits: u32, shape: TensorShape)
    requires
        shape.wf(),
        shape matches TensorShape::R3(a, b, c) && a == q_heads && b == splits && c >= 2,
    ensures
        q_heads * splits <= u32::MAX,
{
    let slot = shape.dims()[2] as int;
    let a = q_heads as int;
    let b = splits as int;
    assert(a * b <= a * (b * slot)) by (nonlinear_arith)
        requires
            0 <= a,
            0 <= b,
            slot >= 1,
    ;
}

/// What [`record_ffn`] records.
pub open spec fn ffn_recording(semantic: bool, fusion: bool, s: FfnSites) -> Recording {
    norm_recording(semantic, s.x, s.rms, s.xb, s.norm).followed_by(
        Recording::op("w1"@, TensorOp::Matmul { a: s.w1, b: s.xb, out: s.hb }),
    ).followed_by(
        Recording::op("w3"@, TensorOp::Matmul { a: s.w3, b: s.xb, out: s.hb2 }),
    ).followed_by(swiglu_recording(fusion, s.hb, s.hb2, s.gate)).followed_by(
        Recording::op("w2"@, TensorOp::Matmul { a: s.w2, b: s.hb, out: s.xb }),
    ).followed_by(Recording::op("residual"@, TensorOp::Add { a: s.x, b: s.xb, out: s.x }))
}

/// RMSNorm, SwiGLU, down projection, residual into `x`.
pub fn record_ffn(scheme: &mut Scheme, sites: FfnSites) -> (r: Result<(), RecordError>)
    ensures
        ffn_recording(
            norm_is_semantic(*old(scheme)),
            old(scheme).automatic_fusion,
            sites,
        ).took(*old(scheme), *final(scheme), r),
{
    let ghost s0 = *scheme;
    match norm(scheme, sites.x, sites.rms, sites.xb, sites.norm) {
        Ok(()) => {},
        Err(e) => {
            return Err(e);
        },
    }
    op(scheme, "w1", TensorOp::Matmul { a: sites.w1, b: sites.xb, out: sites.hb });
    op(scheme, "w3", TensorOp::Matmul { a: sites.w3, b: sites.xb, out: sites.hb2 });
    match record_swiglu(scheme, sites.hb, sites.hb2, sites.gate) {
        Ok(()) => {},
        Err(e) => {
            assert(scheme@ =~= s0@ + ffn_recording(
                norm_is_semantic(s0),
                s0.automatic_fusion,
                sites,
            ).entries);
            return Err(e);
        },
    }
    op(scheme, "w2", TensorOp::Matmul { a: sites.w2, b: sites.hb, out: sites.xb });
    op(scheme, "residual", TensorOp::Add { a: sites.x, b: sites.xb, out: sites.x });
    assert(scheme@ =~= s0@ + ffn_recording(
        norm_is_semantic(s0),
        s0.automatic_fusion,
        sites,
    ).entries);
    Ok(())
}

impl RecordError {
    /// The error in words.
    pub open spec fn text(self) -> Seq<char> {
        match self {
            RecordError::Contract(e) => e.text(),
            RecordError::Shape(e) => e.text(),
            RecordError::KvRowsDiffer => "attention: wk and wv row counts differ"@,
            RecordError::KvWidth => "attention: kv width must be even and no wider than q"@,
            RecordError::KvScratch => "attention: xb2 or v is shorter than the kv projection"@,
            RecordError::HeadTooWide { head } => "attention: head size "@ + decimal(head as nat)
                + " exceeds "@ + decimal(ATTENTION_MAX_HEAD as nat),
            RecordError::PartialScratch { q_heads, splits, slot } =>
                "attention: partial scratch must be ["@ + decimal(q_heads as nat) + ", "@ + decimal(
                splits as nat,
            ) + ", "@ + decimal(slot as nat) + "]"@,
        }
    }

    /// The error in words.
    pub fn message(self) -> (r: String)
        ensures
            r@ == self.text(),
    {
        match self {
            RecordError::Contract(e) => e.message(),
            RecordError::Shape(e) => e.message(),
            RecordError::KvRowsDiffer => "attention: wk and wv row counts differ".to_owned(),
            RecordError::KvWidth =>
                "attention: kv width must be even and no wider than q".to_owned(),
            RecordError::KvScratch =>
                "attention: xb2 or v is shorter than the kv projection".to_owned(),
            RecordError::HeadTooWide { head } => {
                let mut out = "attention: head size ".to_owned();
                push_decimal(&mut out, head as u64);
                out.append(" exceeds ");
                push_decimal(&mut out, ATTENTION_MAX_HEAD as u64);
                out
            },
            RecordError::PartialScratch { q_heads, splits, slot } => {
                let mut out = "attention: partial scratch must be [".to_owned();
                push_decimal(&mut out, q_heads as u64);
                out.append(", ");
                push_decimal(&mut out, splits as u64);
                out.append(", ");
                push_decimal(&mut out, slot as u64);
                out.append("]");
                out
            },
        }
    }
}

/// One entry of the cache of prepared kernels.
#[derive(Clone, Copy, PartialEq, Eq, Structural, Debug)]
pub struct CacheSlot {
    /// The runtime that the kernels were prepared for.
    pub key: usize,
    /// Whether anything still holds them.
    pub live: bool,
}

/// What a lookup does to the cache of prepared kernels.
#[derive(Debug)]
pub struct CacheLookup {
    /// The slots to keep, in order.
    pub kept: Vec<usize>,
    /// The place among the kept slots of the kernels to reuse. Without one, kernels are
    /// prepared and added behind the kept slots.
    pub reuse: Option<usize>,
}

/// The live ones of the first `n` slots, in order.
pub open spec fn live_slots(slots: Seq<CacheSlot>, n: nat) -> Seq<usize>
    decreases n,
{
    if n == 0 {
        Seq::empty()
    } else if slots[n - 1].live {
        live_slots(slots, (n - 1) as nat).push((n - 1) as usize)
    } else {
        live_slots(slots, (n - 1) as nat)
    }
}

/// The kept slot to reuse for the runtime `key`: the first with that key, and none where
/// no kept slot has it.
pub open spec fn is_reuse(
    slots: Seq<CacheSlot>,
    kept: Seq<usize>,
    key: usize,
    reuse: Option<usize>,
) -> bool {
    match reuse {
        Some(at) => {
            &&& at < kept.len()
            &&& slots[kept[at as int] as int].key == key
            &&& forall|i: int| 0 <= i < at ==> slots[#[trigger] kept[i] as int].key != key
        },
        None => forall|i: int| 0 <= i < kept.len() ==> slots[#[trigger] kept[i] as int].key != key,
    }
}

/// Looks up the kernels prepared for the runtime `key`: dead slots are dropped, and the
/// first of the others with that key is reused.
pub fn look_up(slots: &[CacheSlot], key: usize) -> (r: CacheLookup)
    ensures
        r.kept@ == live_slots(slots@, slots@.len()),
        is_reuse(slots@, r.kept@, key, r.reuse),
{
    let mut kept: Vec<usize> = Vec::new();
    let mut reuse: Option<usize> = None;
    let mut i: usize = 0;
    while i < slots.len()
        invariant
            i <= slots@.len(),
            kept@ == live_slots(slots@, i as nat),
            is_reuse(slots@, kept@, key, reuse),
        decreases slots@.len() - i,
    {
        if slots[i].live {
            if reuse.is_none() && slots[i].key == key {
                reuse = Some(kept.len());
            }
            kept.push(i);
        }
        i = i + 1;
    }
    CacheLookup { kept, reuse }
}

/// A lookup keeps a slot exactly where it is live, and keeps the order of the slots.
pub proof fn law_lookup_keeps_the_live(slots: Seq<CacheSlot>, n: nat)
    requires
        n <= slots.len(),
        n <= usize::MAX + 1,
    ensures
        forall|i: int|
            0 <= i < n ==> (#[trigger] slots[i]).live == live_slots(slots, n).contains(i as usize),
        forall|j: int|
            0 <= j < live_slots(slots, n).len() ==> (#[trigger] live_slots(slots, n)[j]) < n,
        forall|j: int, k: int|
            0 <= j < k < live_slots(slots, n).len() ==> (#[trigger] live_slots(slots, n)[j]) < (
            #[trigger] live_slots(slots, n)[k]),
    decreases n,
{
    if n > 0 {
        let m = (n - 1) as nat;
        law_lookup_keeps_the_live(slots, m);
        let before = live_slots(slots, m);
        let after = live_slots(slots, n);
        assert forall|i: int| 0 <= i < n implies (#[trigger] slots[i]).live == after.contains(
            i as usize,
        ) by {
            if slots[m as int].live {
                assert(after[before.len() as int] == m);
                if i < m {
                    if before.contains(i as usize) {
                        let j = choose|j: int| 0 <= j < before.len() && before[j] == i as usize;
                        assert(after[j] == i as usize);
                    }
                    if after.contains(i as usize) {
                        let j = choose|j: int| 0 <= j < after.len() && after[j] == i as usize;
                        assert(j < before.len());
                        assert(before[j] == i as usize);
                    }
                }
            } else if i == m && after.contains(i as usize) {
                let j = choose|j: int| 0 <= j < after.len() && after[j] == i as usize;
                assert(before[j] < m);
            }
        }
    }
}

/// Kernels in the cache: the runtime they were prepared for, and which they are.
pub ghost struct Cached {
    pub key: usize,
    pub blocks: int,
}

/// What asking for the kernels of a runtime leaves in the cache, and which kernels it
/// gives: none where preparing them failed.
pub ghost struct Shared {
    pub cache: Seq<Cached>,
    pub given: Option<int>,
}

/// The slots of a cache, where `held` are the kernels that something still holds.
pub open spec fn slots_of(cache: Seq<Cached>, held: Set<int>) -> Seq<CacheSlot> {
    Seq::new(
        cache.len(),
        |i: int| CacheSlot { key: cache[i].key, live: held.contains(cache[i].blocks) },
    )
}

/// Asks for the kernels of the runtime `key`, with `reuse` from the lookup. Where there is
/// nothing to reuse, `prepared` are the kernels that were prepared, or none where that
/// failed.
pub open spec fn shared(
    cache: Seq<Cached>,
    held: Set<int>,
    key: usize,
    reuse: Option<usize>,
    prepared: Option<int>,
) -> Shared {
    let kept = live_slots(slots_of(cache, held), cache.len());
    let left = Seq::new(kept.len(), |j: int| cache[kept[j] as int]);
    match reuse {
        Some(at) => Shared { cache: left, given: Some(left[at as int].blocks) },
        None => match prepared {
            Some(blocks) => Shared {
                cache: left.push(Cached { key, blocks }),
                given: Some(blocks),
            },
            None => Shared { cache: left, given: None },
        },
    }
}

/// `reuse` is what the lookup gives, and newly prepared kernels are none of the cached.
pub open spec fn is_shared(
    cache: Seq<Cached>,
    held: Set<int>,
    key: usize,
    reuse: Option<usize>,
    prepared: Option<int>,
) -> bool {
    let slots = slots_of(cache, held);
    &&& cache.len() <= usize::MAX
    &&& is_reuse(slots, live_slots(slots, cache.len()), key, reuse)
    &&& prepared matches Some(blocks) ==> forall|i: int|
        0 <= i < cache.len() ==> (#[trigger] cache[i]).blocks != blocks
}

/// No runtime has kernels in the cache twice, and no kernels are there twice.
pub open spec fn one_each(cache: Seq<Cached>) -> bool {
    forall|i: int, j: int|
        #![trigger cache[i], cache[j]]
        0 <= i < j < cache.len() ==> cache[i].key != cache[j].key && cache[i].blocks
            != cache[j].blocks
}

/// Asking for kernels keeps one entry for each runtime, keeps every entry that is still
/// held, and has the given kernels in the cache under their runtime.
pub proof fn law_sharing_keeps_one_entry_each(
    cache: Seq<Cached>,
    held: Set<int>,
    key: usize,
    reuse: Option<usize>,
    prepared: Option<int>,
)
    requires
        one_each(cache),
        is_shared(cache, held, key, reuse, prepared),
    ensures
        ({
            let after = shared(cache, held, key, reuse, prepared);
            &&& one_each(after.cache)
            &&& forall|c: Cached|
                cache.contains(c) && held.contains(c.blocks) ==> #[trigger] after.cache.contains(c)
            &&& after.given matches Some(blocks) ==> after.cache.contains(Cached { key, blocks })
            &&& after.given is None ==> forall|i: int|
                0 <= i < after.cache.len() ==> (#[trigger] after.cache[i]).key != key
        }),
{
    let slots = slots_of(cache, held);
    let kept = live_slots(slots, cache.len());
    let left = Seq::new(kept.len(), |j: int| cache[kept[j] as int]);
    let after = shared(cache, held, key, reuse, prepared);
    law_lookup_keeps_the_live(slots, cache.len());
    assert forall|i: int, j: int|
        #![trigger left[i], left[j]]
        0 <= i < j < left.len() implies left[i].key != left[j].key && left[i].blocks
        != left[j].blocks by {
        assert(kept[i] < kept[j]);
        assert(cache[kept[i] as int].key != cache[kept[j] as int].key);
    }
    assert forall|c: Cached| cache.contains(c) && held.contains(c.blocks) implies left.contains(
        c,
    ) by {
        let i = choose|i: int| 0 <= i < cache.len() && cache[i] == c;
        assert(slots[i].live);
        let j = choose|j: int| 0 <= j < kept.len() && kept[j] == i as usize;
        assert(left[j] == c);
    }
    assert forall|c: Cached|
        cache.contains(c) && held.contains(c.blocks) implies #[trigger] after.cache.contains(c) by {
        let j = choose|j: int| 0 <= j < left.len() && left[j] == c;
        assert(left.contains(c));
        assert(after.cache[j] == c);
    }
    match reuse {
        Some(at) => {
            assert(after.cache[at as int] == Cached { key, blocks: after.given->Some_0 });
        },
        None => {
            assert forall|j: int| 0 <= j < left.len() implies (#[trigger] left[j]).key != key by {
                assert(slots[kept[j] as int].key != key);
            }
            match prepared {
                Some(blocks) => {
                    assert(after.cache[left.len() as int] == Cached { key, blocks });
                    assert forall|i: int, j: int|
                        #![trigger after.cache[i], after.cache[j]]
                        0 <= i < j < after.cache.len() implies after.cache[i].key
                        != after.cache[j].key && after.cache[i].blocks != after.cache[j].blocks by {
                        assert(after.cache[i] == left[i]);
                        assert(cache[kept[i] as int].blocks != blocks);
                        if j < left.len() {
                            assert(after.cache[j] == left[j]);
                        }
                    }
                },
                None => {},
            }
        },
    }
}

/// Kernels that are still held come back for their own runtime, whatever preparing would
/// give, and for no other.
pub proof fn law_held_kernels_come_back(
    cache: Seq<Cached>,
    held: Set<int>,
    owner: Cached,
    key: usize,
    reuse: Option<usize>,
    prepared: Option<int>,
)
    requires
        one_each(cache),
        cache.contains(owner),
        held.contains(owner.blocks),
        is_shared(cache, held, key, reuse, prepared),
    ensures
        key == owner.key ==> reuse is Some && shared(cache, held, key, reuse, prepared).given
            == Some(owner.blocks),
        key != owner.key ==> shared(cache, held, key, reuse, prepared).given != Some(owner.blocks),
{
    let slots = slots_of(cache, held);
    let kept = live_slots(slots, cache.len());
    law_lookup_keeps_the_live(slots, cache.len());
    let i = choose|i: int| 0 <= i < cache.len() && cache[i] == owner;
    assert(slots[i].live);
    let j = choose|j: int| 0 <= j < kept.len() && kept[j] == i as usize;
    assert(slots[kept[j] as int].key == owner.key);
    match reuse {
        Some(at) => {
            let k = kept[at as int] as int;
            assert(cache[k].key == key);
            if k < i {
                assert(cache[k].key != cache[i].key);
            } else if i < k {
                assert(cache[i].key != cache[k].key);
            }
        },
        None => {},
    }
}

/// Two calls in a row. Kernels from the first that are still held at the second are given
/// again for the same runtime, without preparing any, and not for another. Where
/// preparing failed at the first, a second call for that runtime prepares anew.
pub proof fn law_kernels_are_shared_per_runtime(
    cache: Seq<Cached>,
    held: Set<int>,
    key: usize,
    reuse: Option<usize>,
    prepared: Option<int>,
    held2: Set<int>,
    key2: usize,
    reuse2: Option<usize>,
    prepared2: Option<int>,
)
    requires
        one_each(cache),
        is_shared(cache, held, key, reuse, prepared),
        is_shared(shared(cache, held, key, reuse, prepared).cache, held2, key2, reuse2, prepared2),
    ensures
        ({
            let first = shared(cache, held, key, reuse, prepared);
            let second = shared(first.cache, held2, key2, reuse2, prepared2);
            &&& first.given matches Some(blocks) ==> held2.contains(blocks) ==> {
                &&& key2 == key ==> reuse2 is Some && second.given == Some(blocks)
                &&& key2 != key ==> second.given != Some(blocks)
            }
            &&& first.given is None && key2 == key ==> reuse2 is None && second.given == prepared2
        }),
{
    let first = shared(cache, held, key, reuse, prepared);
    law_sharing_keeps_one_entry_each(cache, held, key, reuse, prepared);
    match first.given {
        Some(blocks) => {
            if held2.contains(blocks) {
                law_held_kernels_come_back(
                    first.cache,
                    held2,
                    Cached { key, blocks },
                    key2,
                    reuse2,
                    prepared2,
                );
            }
        },
        None => {
            let slots = slots_of(first.cache, held2);
            let kept = live_slots(slots, first.cache.len());
            law_lookup_keeps_the_live(slots, first.cache.len());
            match reuse2 {
                Some(at) => {
                    assert(first.cache[kept[at as int] as int].key == key2);
                },
                None => {},
            }
        },
    }
}

/// A group is recorded whole or not at all: where it is refused the scheme is as before,
/// and else it adds the nodes of what it groups.
pub proof fn law_group_is_all_or_nothing(
    inner: Recording,
    label: Seq<char>,
    before: Scheme,
    after: Scheme,
    r: Result<(), RecordError>,
)
    requires
        inner.grouped(label).took(before, after, r),
    ensures
        r is Ok <==> inner.error is None,
        r is Err ==> after@ == before@ && r->Err_0 == inner.error->Some_0,
        r is Ok ==> node_count(after@) == node_count(before@) + node_count(inner.entries),
{
    let open = seq![Recorded::Open(label)];
    let close = seq![Recorded::Close];
    match inner.error {
        Some(_) => {
            assert(after@ =~= before@);
        },
        None => {
            law_node_counts_add_up(before@, open + inner.entries + close);
            law_node_counts_add_up(open + inner.entries, close);
            law_node_counts_add_up(open, inner.entries);
            assert(open.drop_last() =~= Seq::<Recorded>::empty());
            assert(close.drop_last() =~= Seq::<Recorded>::empty());
            reveal_with_fuel(node_count, 2);
            assert(node_count(open) == 0);
            assert(node_count(close) == 0);
        },
    }
}

/// The order of a recorded attention block: the three projections of the normalized
/// input, the rotation and the stores, the two passes, and only then the output
/// projection, which overwrites the scratch that the key projection was in, and the
/// residual.
pub proof fn law_attention_order(semantic: bool, s: AttentionSites)
    requires
        attention_recording(semantic, s).error is None,
    ensures
        ({
            let v = s.views()->Ok_0;
            let norm = norm_recording(semantic, s.x, s.rms, s.xb, s.norm).entries;
            attention_recording(semantic, s).entries == norm + seq![
                Recorded::Tensor("wq"@, TensorOp::Matmul { a: s.wq, b: s.xb, out: v.q_flat }),
                Recorded::Tensor("wk"@, TensorOp::Matmul { a: s.wk, b: s.xb, out: v.proj }),
                Recorded::Tensor("wv"@, TensorOp::Matmul { a: s.wv, b: s.xb, out: v.v }),
                Recorded::Kernel(
                    "rope"@,
                    Work::RopeStore {
                        q: s.q,
                        k_proj: v.proj,
                        k: s.key,
                        step: s.step,
                        theta: DEFAULT_ROPE_THETA,
                    },
                    Grid::Over1d(rope_threads(s.q.numel())),
                ),
                Recorded::Kernel(
                    "wv_store"@,
                    Work::CacheStore { src: v.v, dst: s.value, step: s.step },
                    Grid::Over1d(v.kv_dim),
                ),
                Recorded::Kernel(
                    "attn_partial"@,
                    Work::AttentionPartial {
                        q: s.q,
                        key_cache: s.key,
                        value_cache: s.value,
                        partial: s.partial,
                        step: s.step,
                    },
                    Grid::Groups((v.q_heads * v.splits) as u32, 1, 1),
                ),
                Recorded::Kernel(
                    "attn_combine"@,
                    Work::AttentionCombine { partial: s.partial, xb: v.xb_heads, step: s.step },
                    Grid::Groups(v.q_heads, 1, 1),
                ),
                Recorded::Tensor("wo"@, TensorOp::Matmul { a: s.wo, b: s.xb, out: s.xb2 }),
                Recorded::Tensor("residual"@, TensorOp::Add { a: s.x, b: s.xb2, out: s.x }),
            ]
        }),
{
    let v = s.views()->Ok_0;
    let a = projection_recording(semantic, s, v);
    let b = cache_recording(s, v);
    let c = flash_recording(s, v);
    assert(a.error is None && b.error is None && c.error is None);
    assert(attention_recording(semantic, s).entries =~= a.entries + b.entries + c.entries
        + output_recording(s).entries);
}

/// Splits of 32 positions cover a cache, with none to spare but for one at least.
pub proof fn law_splits_cover_the_cache(seq_len: int)
    requires
        0 <= seq_len,
    ensures
        splits_of(seq_len) >= 1,
        32 * splits_of(seq_len) >= seq_len,
        splits_of(seq_len) > 1 ==> 32 * (splits_of(seq_len) - 1) < seq_len,
{
}

/// RoPE asks for one thread per pair of the query, and for one at least.
pub proof fn law_rope_asks_for_a_thread_per_pair(numel: int)
    requires
        0 <= numel <= u32::MAX,
    ensures
        rope_threads(numel) >= 1,
        numel >= 2 ==> numel - 1 <= 2 * rope_threads(numel) <= numel,
        numel < 2 ==> rope_threads(numel) == 1,
{
}

/// A dispatch is recorded exactly where its contract holds; where it is refused nothing is
/// recorded.
pub proof fn law_dispatch_is_recorded_or_refused(
    label: Seq<char>,
    work: Work,
    grid: Grid,
    before: Scheme,
    after: Scheme,
    r: Result<(), RecordError>,
)
    requires
        Recording::kernel(label, work, grid).took(before, after, r),
    ensures
        after.automatic_fusion == before.automatic_fusion,
        after.semantic_norm == before.semantic_norm,
        mismatch(work.bounds()) is None ==> r is Ok && after@ == before@.push(
            Recorded::Kernel(label, work, grid),
        ),
        mismatch(work.bounds()) matches Some(e) ==> r is Err && r->Err_0 == RecordError::Contract(e)
            && after@ == before@,
{
    match work.refused() {
        Some(_) => {
            assert(after@ =~= before@);
        },
        None => {
            assert(after@ =~= before@.push(Recorded::Kernel(label, work, grid)));
        },
    }
}

/// A tensor operation is always recorded.
pub proof fn law_operation_is_recorded(
    label: Seq<char>,
    op: TensorOp,
    before: Scheme,
    after: Scheme,
    r: Result<(), RecordError>,
)
    requires
        Recording::op(label, op).took(before, after, r),
    ensures
        r is Ok,
        after@ == before@.push(Recorded::Tensor(label, op)),
{
    assert(after@ =~= before@.push(Recorded::Tensor(label, op)));
}

/// A recording that follows another is taken after it where that was not cut short, and
/// else not at all.
pub proof fn law_recordings_follow_each_other(
    first: Recording,
    second: Recording,
    before: Scheme,
    middle: Scheme,
    after: Scheme,
    r: Result<(), RecordError>,
)
    requires
        first.error is None,
        first.took(before, middle, Ok(())),
        second.took(middle, after, r),
    ensures
        first.followed_by(second).took(before, after, r),
{
    assert(after@ =~= before@ + (first.entries + second.entries));
}

/// What was cut short stays so, whatever was to follow.
pub proof fn law_cut_short_stays_cut_short(first: Recording, second: Recording)
    requires
        first.error is Some,
    ensures
        first.followed_by(second) == first,
{
}

/// A group of what was recorded opens with its label, holds it, and closes.
pub proof fn law_group_brackets_its_entries(
    inner: Recording,
    label: Seq<char>,
    before: Scheme,
    after: Scheme,
)
    requires
        inner.grouped(label).took(before, after, Ok(())),
    ensures
        inner.error is None,
        after@ == before@.push(Recorded::Open(label)) + inner.entries.push(Recorded::Close),
{
    assert(after@ =~= before@.push(Recorded::Open(label)) + inner.entries.push(Recorded::Close));
}

/// RMSNorm is recorded as tensor operations only where the scheme asks for it and fuses
/// automatically: the square, its mean, the epsilon, the root, the reciprocal, the scaled
/// input, and the weighted one. Else it is one workgroup of the kernel.
pub proof fn law_norm_order(
    scheme: Scheme,
    x: TensorView,
    weight: TensorView,
    out: TensorView,
    scratch: NormScratch,
)
    ensures
        ({
            let square = scratch.square;
            let scale = scratch.scale;
            let recording = norm_recording(norm_is_semantic(scheme), x, weight, out, scratch);
            let refused = (Work::Rmsnorm { x, weight, o: out }).refused();
            &&& scheme.semantic_norm && scheme.automatic_fusion ==> recording.error is None
                && recording.entries == seq![
                Recorded::Tensor("rms_square"@, TensorOp::Mul { a: x, b: x, out: square }),
                Recorded::Tensor("rms_mean"@, TensorOp::Mean { a: square, axis: 0, out: scale }),
                Recorded::Tensor(
                    "rms_eps"@,
                    TensorOp::AddScalar { a: scale, bits: 0x3727_c5ac, out: scale },
                ),
                Recorded::Tensor("rms_sqrt"@, TensorOp::Sqrt { a: scale, out: scale }),
                Recorded::Tensor("rms_scale"@, TensorOp::Reciprocal { a: scale, out: scale }),
                Recorded::Tensor("rms_normalize"@, TensorOp::Mul { a: scale, b: x, out }),
                Recorded::Tensor("rms_weight"@, TensorOp::Mul { a: weight, b: out, out }),
            ]
            &&& !(scheme.semantic_norm && scheme.automatic_fusion) && refused is None
                ==> recording.error is None && recording.entries == seq![
                Recorded::Kernel(
                    "rmsnorm"@,
                    Work::Rmsnorm { x, weight, o: out },
                    Grid::Groups(1, 1, 1),
                ),
            ]
            &&& !(scheme.semantic_norm && scheme.automatic_fusion) && refused is Some
                ==> recording.entries.len() == 0 && recording.error == Some(
                RecordError::Contract(refused->Some_0),
            )
        }),
{
    let square = scratch.square;
    let scale = scratch.scale;
    assert(semantic_norm_recording(x, weight, out, scratch).entries =~= seq![
        Recorded::Tensor("rms_square"@, TensorOp::Mul { a: x, b: x, out: square }),
        Recorded::Tensor("rms_mean"@, TensorOp::Mean { a: square, axis: 0, out: scale }),
        Recorded::Tensor(
            "rms_eps"@,
            TensorOp::AddScalar { a: scale, bits: 0x3727_c5ac, out: scale },
        ),
        Recorded::Tensor("rms_sqrt"@, TensorOp::Sqrt { a: scale, out: scale }),
        Recorded::Tensor("rms_scale"@, TensorOp::Reciprocal { a: scale, out: scale }),
        Recorded::Tensor("rms_normalize"@, TensorOp::Mul { a: scale, b: x, out }),
        Recorded::Tensor("rms_weight"@, TensorOp::Mul { a: weight, b: out, out }),
    ]);
}

/// SwiGLU is recorded as tensor operations under automatic fusion: `-hb`, its exponential,
/// one more, the reciprocal, `hb` times that, and that times `hb2`. Else it is one dispatch
/// of the kernel over `hb`.
pub proof fn law_swiglu_order(fusion: bool, hb: TensorView, hb2: TensorView, gate: TensorView)
    ensures
        ({
            let recording = swiglu_recording(fusion, hb, hb2, gate);
            let refused = (Work::Swiglu { hb, hb2 }).refused();
            &&& fusion ==> recording.error is None && recording.entries == seq![
                Recorded::Tensor("silu_neg"@, TensorOp::Neg { a: hb, out: gate }),
                Recorded::Tensor("silu_exp"@, TensorOp::Exp { a: gate, out: gate }),
                Recorded::Tensor(
                    "silu_denominator"@,
                    TensorOp::AddScalar { a: gate, bits: 0x3f80_0000, out: gate },
                ),
                Recorded::Tensor("silu_reciprocal"@, TensorOp::Reciprocal { a: gate, out: gate }),
                Recorded::Tensor("silu"@, TensorOp::Mul { a: hb, b: gate, out: gate }),
                Recorded::Tensor("swiglu"@, TensorOp::Mul { a: gate, b: hb2, out: hb }),
            ]
            &&& !fusion && refused is None ==> recording.error is None && recording.entries == seq![
                Recorded::Kernel("swiglu"@, Work::Swiglu { hb, hb2 }, Grid::OverTensor(hb)),
            ]
            &&& !fusion && refused is Some ==> recording.entries.len() == 0 && recording.error
                == Some(RecordError::Contract(refused->Some_0))
        }),
{
    assert(fused_swiglu_recording(hb, hb2, gate).entries =~= seq![
        Recorded::Tensor("silu_neg"@, TensorOp::Neg { a: hb, out: gate }),
        Recorded::Tensor("silu_exp"@, TensorOp::Exp { a: gate, out: gate }),
        Recorded::Tensor(
            "silu_denominator"@,
            TensorOp::AddScalar { a: gate, bits: 0x3f80_0000, out: gate },
        ),
        Recorded::Tensor("silu_reciprocal"@, TensorOp::Reciprocal { a: gate, out: gate }),
        Recorded::Tensor("silu"@, TensorOp::Mul { a: hb, b: gate, out: gate }),
        Recorded::Tensor("swiglu"@, TensorOp::Mul { a: gate, b: hb2, out: hb }),
    ]);
}

/// The order of a recorded feed-forward block: the normalized input, its gate and up
/// projections, SwiGLU, the down projection, and the residual.
pub proof fn law_ffn_order(semantic: bool, fusion: bool, s: FfnSites)
    requires
        ffn_recording(semantic, fusion, s).error is None,
    ensures
        ({
            let norm = norm_recording(semantic, s.x, s.rms, s.xb, s.norm).entries;
            let gated = swiglu_recording(fusion, s.hb, s.hb2, s.gate).entries;
            ffn_recording(semantic, fusion, s).entries == norm + seq![
                Recorded::Tensor("w1"@, TensorOp::Matmul { a: s.w1, b: s.xb, out: s.hb }),
                Recorded::Tensor("w3"@, TensorOp::Matmul { a: s.w3, b: s.xb, out: s.hb2 }),
            ] + gated + seq![
                Recorded::Tensor("w2"@, TensorOp::Matmul { a: s.w2, b: s.hb, out: s.xb }),
                Recorded::Tensor("residual"@, TensorOp::Add { a: s.x, b: s.xb, out: s.x }),
            ]
        }),
{
    let norm = norm_recording(semantic, s.x, s.rms, s.xb, s.norm);
    let gated = swiglu_recording(fusion, s.hb, s.hb2, s.gate);
    assert(norm.error is None && gated.error is None);
    assert(ffn_recording(semantic, fusion, s).entries =~= norm.entries + seq![
        Recorded::Tensor("w1"@, TensorOp::Matmul { a: s.w1, b: s.xb, out: s.hb }),
        Recorded::Tensor("w3"@, TensorOp::Matmul { a: s.w3, b: s.xb, out: s.hb2 }),
    ] + gated.entries + seq![
        Recorded::Tensor("w2"@, TensorOp::Matmul { a: s.w2, b: s.hb, out: s.xb }),
        Recorded::Tensor("residual"@, TensorOp::Add { a: s.x, b: s.xb, out: s.x }),
    ]);
}

/// The single dispatches that their kernels accept: the token gather runs over the vector
/// that it fills, and RMSNorm in one workgroup.
pub proof fn law_single_dispatches(
    table: TensorView,
    step: Parcel,
    x: TensorView,
    weight: TensorView,
    out: TensorView,
)
    ensures
        embed_recording(table, step, x).error is None ==> embed_recording(table, step, x).entries
            == seq![
            Recorded::Kernel("embed"@, Work::Embed { table, step, x }, Grid::OverTensor(x)),
        ],
        rmsnorm_recording(x, weight, out).error is None ==> rmsnorm_recording(
            x,
            weight,
            out,
        ).entries == seq![
            Recorded::Kernel(
                "rmsnorm"@,
                Work::Rmsnorm { x, weight, o: out },
                Grid::Groups(1, 1, 1),
            ),
        ],
        rmsnorm_inplace_recording(x, weight).error is None ==> rmsnorm_inplace_recording(
            x,
            weight,
        ).entries == seq![
            Recorded::Kernel("rmsnorm"@, Work::RmsnormInplace { x, weight }, Grid::Groups(1, 1, 1)),
        ],
{
}

/// When an attention block is refused, and why: the first of these that fails. The key
/// cache has a head axis; the heads fill `xb`; key and value are projected to one width,
/// which is even and no wider than the query; both projections fit their scratch; the head
/// is no wider than 128; the flash-decoding scratch has a slot of two more than the head
/// for every query head and split of 32 positions; and the projections fit the leading axes
/// of their scratch.
pub proof fn law_attention_refusals(s: AttentionSites)
    requires
        s.wf(),
    ensures
        ({
            let rank = s.key.shape.dims().len();
            let seq_len = s.key.shape.dims()[0] as int;
            let head = s.key.shape.dims()[2];
            let q_heads = s.q.shape.dims()[0];
            let kv_dim = s.wk.shape.dims()[0];
            let splits = if seq_len == 0 {
                1
            } else {
                (seq_len + 31) / 32
            };
            let slot = (head + 2) as u32;
            let has_heads = rank >= 3;
            let fills = q_heads * head == s.xb.numel();
            let one_width = s.wv.shape.dims()[0] == kv_dim;
            let pairs = kv_dim <= s.q.numel() && kv_dim % 2 == 0;
            let roomy = kv_dim <= s.xb2.numel() && kv_dim <= s.v.numel();
            let narrow = head <= 128;
            let scratch = s.partial.shape == TensorShape::R3(q_heads, splits as u32, slot);
            let proj_fits = kv_dim <= s.xb2.shape.dims()[0];
            let v_fits = kv_dim <= s.v.shape.dims()[0];
            let why = s.views()->Err_0;
            &&& s.views() is Ok <==> has_heads && fills && one_width && pairs && roomy && narrow
                && scratch && proj_fits && v_fits
            &&& !has_heads ==> why == RecordError::Shape(
                ShapeError::Axis { axis: 2, rank: rank as usize },
            )
            &&& has_heads && !fills ==> why == RecordError::Shape(
                ShapeError::Numel {
                    from: s.xb.numel() as u32,
                    to: TensorShape::R2(q_heads, head),
                },
            )
            &&& has_heads && fills && !one_width ==> why == RecordError::KvRowsDiffer
            &&& has_heads && fills && one_width && !pairs ==> why == RecordError::KvWidth
            &&& has_heads && fills && one_width && pairs && !roomy ==> why
                == RecordError::KvScratch
            &&& has_heads && fills && one_width && pairs && roomy && !narrow ==> why
                == (RecordError::HeadTooWide { head })
            &&& has_heads && fills && one_width && pairs && roomy && narrow && !scratch ==> why == (
            RecordError::PartialScratch { q_heads, splits: splits as u32, slot })
            &&& has_heads && fills && one_width && pairs && roomy && narrow && scratch && !proj_fits
                ==> why == RecordError::Shape(
                ShapeError::Window { start: 0, len: kv_dim, extent: s.xb2.shape.dims()[0] },
            )
            &&& has_heads && fills && one_width && pairs && roomy && narrow && scratch && proj_fits
                && !v_fits ==> why == RecordError::Shape(
                ShapeError::Window { start: 0, len: kv_dim, extent: s.v.shape.dims()[0] },
            )
        }),
{
}

/// The views of an attention block that is not refused: the whole query as one vector, `xb`
/// by heads, and the first rows of the scratch for the key and value projections.
pub proof fn law_attention_views(s: AttentionSites, i: int)
    requires
        s.wf(),
        s.views() is Ok,
    ensures
        ({
            let v = s.views()->Ok_0;
            let kv_dim = s.wk.shape.dims()[0];
            &&& v.kv_dim == kv_dim
            &&& v.q_heads == s.q.shape.dims()[0]
            &&& v.splits >= 1
            &&& 32 * v.splits >= s.key.shape.dims()[0]
            &&& v.splits > 1 ==> 32 * (v.splits - 1) < s.key.shape.dims()[0]
            &&& v.q_flat.parcel == s.q.parcel && v.q_flat.index(i) == s.q.index(i)
            &&& v.q_flat.shape == TensorShape::R1(s.q.numel() as u32)
            &&& v.xb_heads.parcel == s.xb.parcel && v.xb_heads.index(i) == s.xb.index(i)
            &&& v.xb_heads.shape == TensorShape::R2(s.q.shape.dims()[0], s.key.shape.dims()[2])
            &&& v.proj.parcel == s.xb2.parcel && v.proj.index(i) == s.xb2.index(i)
            &&& v.proj.shape.dims() == s.xb2.shape.dims().update(0, kv_dim)
            &&& v.v.parcel == s.v.parcel && v.v.index(i) == s.v.index(i)
            &&& v.v.shape.dims() == s.v.shape.dims().update(0, kv_dim)
        }),
{
    let v = s.views()->Ok_0;
    let kv_dim = s.wk.shape.dims()[0];
    law_splits_cover_the_cache(s.key.shape.dims()[0] as int);
    law_rows_are_a_window(s.xb2, 0, kv_dim, i);
    law_rows_are_a_window(s.v, 0, kv_dim, i);
    assert(0 * product(s.xb2.shape.dims().drop_first()) == 0);
    assert(0 * product(s.v.shape.dims().drop_first()) == 0);
}

/// What the errors say, with their numbers in decimal.
pub proof fn law_record_error_words(head: u32, q_heads: u32, splits: u32, slot: u32)
    ensures
        RecordError::KvRowsDiffer.text() == "attention: wk and wv row counts differ"@,
        RecordError::KvWidth.text() == "attention: kv width must be even and no wider than q"@,
        RecordError::KvScratch.text() == "attention: xb2 or v is shorter than the kv projection"@,
        (RecordError::HeadTooWide { head }).text() == "attention: head size "@ + decimal(
            head as nat,
        ) + " exceeds "@ + decimal(128),
        (RecordError::PartialScratch { q_heads, splits, slot }).text()
            == "attention: partial scratch must be ["@ + decimal(q_heads as nat) + ", "@ + decimal(
            splits as nat,
        ) + ", "@ + decimal(slot as nat) + "]"@,
        forall|e: ContractError| (#[trigger] RecordError::Contract(e).text()) == e.text(),
        forall|e: ShapeError| (#[trigger] RecordError::Shape(e).text()) == e.text(),
{
}

} // verus!
