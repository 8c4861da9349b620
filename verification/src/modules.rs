//! Recordable inference modules. They own scratch tensors; the caller supplies
//! activations, weights, and persistent cache. Modules never submit schemes or bind
//! exchanges.
use crate::blocks::{
    attention_recording, attention_splits, embed_recording, end_group, ffn_recording,
    law_splits_cover_the_cache, norm_is_semantic, record_attention, record_embed, record_ffn,
    record_linear, record_rmsnorm, record_rmsnorm_inplace, rmsnorm_inplace_recording,
    rmsnorm_recording, rope_threads, splits_of, AttentionSites, FfnSites, NormScratch, RecordError,
    Recording,
};
use crate::contract::law_contract_holds_iff_axes_agree;
use crate::kernels::elementwise::{cache_store_bounds, swiglu_bounds};
use crate::kernels::flash::{
    combine_bounds, combine_in_bounds, lemma_passes_in_bounds, partial_bounds, partial_in_bounds,
};
use crate::kernels::norm::rmsnorm_bounds;
use crate::kernels::rope::{pairs, rope_store_bounds, rope_store_in_bounds, MAX_PAIR_THREADS};
use crate::kernels::{lemma_index, DecodeStep, HostTensor, ATTENTION_MAX_HEAD};
use crate::scheme::{Scheme, TensorOp};
use crate::tensor::{
    lemma_row_nonneg, Allocation, Parcel, Runtime, ShapeError, Tensor, TensorShape, TensorView,
};
use crate::text::{decimal, push_decimal};
use vstd::arithmetic::div_mod::{lemma_fundamental_div_mod, lemma_fundamental_div_mod_converse};
use vstd::prelude::*;
use vstd::string::StringExecFns;

verus! {

/// Pre-norm causal attention block weights. Scratch stays on [`CausalAttentionBlock`].
#[derive(Clone, Copy, PartialEq, Eq, Structural, Debug)]
pub struct CausalAttentionBlockWeights {
    pub norm: TensorView,
    pub query: TensorView,
    pub key: TensorView,
    pub value: TensorView,
    pub output: TensorView,
}

/// Pre-norm SwiGLU block weights. Scratch stays on [`SwiGluBlock`].
#[derive(Clone, Copy, PartialEq, Eq, Structural, Debug)]
pub struct SwiGluBlockWeights {
    pub norm: TensorView,
    pub gate: TensorView,
    pub up: TensorView,
    pub down: TensorView,
}

/// One layer of a causal KV cache: `[seq, kv_heads, head]`.
#[derive(Clone, Copy, PartialEq, Eq, Structural, Debug)]
pub struct KvLayer {
    pub key: TensorView,
    pub value: TensorView,
}

/// Persistent key/value cache: `[layers, seq, kv_heads, head]`.
#[derive(Clone, Copy, PartialEq, Eq, Structural, Debug)]
pub struct KvCache {
    pub key: Tensor,
    pub value: Tensor,
}

/// Layer `layer` of a cache `[layers, seq, kv_heads, head]`.
pub open spec fn layer_view(cache: Tensor, layer: int) -> TensorView {
    let d = cache.shape.dims();
    TensorView {
        parcel: cache.parcel,
        offset: (layer * cache.shape.row()) as u32,
        shape: TensorShape::R3(d[1], d[2], d[3]),
    }
}

impl KvCache {
    /// Both tensors have the same shape of rank four, and lie in parcels of their own.
    pub open spec fn wf(self) -> bool {
        &&& self.key.wf()
        &&& self.value.wf()
        &&& self.key.shape is R4
        &&& self.value.shape == self.key.shape
        &&& self.key.parcel != self.value.parcel
    }

    /// Number of layers.
    pub open spec fn layers(self) -> int {
        self.key.shape.dims()[0] as int
    }

    /// A cache of zeros.
    pub fn new(
        runtime: &mut Runtime,
        layers: u32,
        seq_len: u32,
        kv_heads: u32,
        head_size: u32,
    ) -> (r: Result<KvCache, ShapeError>)
        ensures
            ({
                let shape = TensorShape::R4(layers, seq_len, kv_heads, head_size);
                let id = old(runtime)@.len();
                match r {
                    Ok(cache) => {
                        &&& shape.wf()
                        &&& cache.wf()
                        &&& cache.key.shape == shape
                        &&& cache.key.parcel.id == id
                        &&& cache.value.parcel.id == id + 1
                        &&& final(runtime)@ == old(runtime)@.push(Allocation::Zeros(shape)).push(
                            Allocation::Zeros(shape),
                        )
                    },
                    Err(e) => {
                        &&& !shape.wf()
                        &&& e == ShapeError::TooLarge
                        &&& final(runtime)@ == old(runtime)@
                    },
                }
            }),
    {
        let shape = match TensorShape::from_dims(&[layers, seq_len, kv_heads, head_size]) {
            Ok(shape) => shape,
            Err(e) => {
                return Err(e);
            },
        };
        let key = Tensor::zeros(runtime, shape);
        let value = Tensor::zeros(runtime, shape);
        Ok(KvCache { key, value })
    }

    /// The views of one layer.
    pub fn layer(&self, layer: u32) -> (r: Result<KvLayer, ShapeError>)
        requires
            self.wf(),
        ensures
            layer < self.layers() ==> r == Ok::<KvLayer, ShapeError>(
                KvLayer {
                    key: layer_view(self.key, layer as int),
                    value: layer_view(self.value, layer as int),
                },
            ),
            layer >= self.layers() ==> r == Err::<KvLayer, ShapeError>(
                ShapeError::Window { start: layer, len: 1, extent: self.layers() as u32 },
            ),
            r matches Ok(l) ==> l.key.wf() && l.value.wf(),
    {
        let key = match squeeze_layer(self.key, layer) {
            Ok(view) => view,
            Err(e) => {
                return Err(e);
            },
        };
        let value = match squeeze_layer(self.value, layer) {
            Ok(view) => view,
            Err(e) => {
                return Err(e);
            },
        };
        Ok(KvLayer { key, value })
    }
}

/// Layer `layer` of a cache, without the leading axis.
fn squeeze_layer(cache: Tensor, layer: u32) -> (r: Result<TensorView, ShapeError>)
    requires
        cache.wf(),
        cache.shape is R4,
    ensures
        layer < cache.shape.dims()[0] ==> r == Ok::<TensorView, ShapeError>(
            layer_view(cache, layer as int),
        ),
        layer >= cache.shape.dims()[0] ==> r == Err::<TensorView, ShapeError>(
            ShapeError::Window { start: layer, len: 1, extent: cache.shape.dims()[0] },
        ),
        r matches Ok(v) ==> v.wf(),
{
    let seq = cache.shape.extent(1);
    let kv_heads = cache.shape.extent(2);
    let head = cache.shape.extent(3);
    let row = match cache.view().narrow(layer, 1) {
        Ok(view) => view,
        Err(e) => {
            return Err(e);
        },
    };
    let shape = TensorShape::R3(seq, kv_heads, head);
    assert(shape.numel() == 1 * cache.shape.row()) by (nonlinear_arith)
        requires
            shape.numel() == seq * (kv_heads * head),
            cache.shape.row() == seq * kv_heads * head,
    ;
    row.reshape(shape)
}

/// Scratch of an RMSNorm recorded as tensor operations over `[hidden]`.
#[derive(Clone, Copy, PartialEq, Eq, Structural, Debug)]
pub struct Norm {
    pub square: Tensor,
    pub scale: Tensor,
}

impl Norm {
    /// The squares are `[hidden]` and the scale `[1]`, in the parcels from `id` on.
    pub open spec fn is_at(self, id: nat, hidden: u32) -> bool {
        &&& self.square.shape == TensorShape::R1(hidden)
        &&& self.square.parcel.id == id
        &&& self.scale.shape == TensorShape::R1(1)
        &&& self.scale.parcel.id == id + 1
    }

    /// The views of the scratch.
    pub open spec fn scratch(self) -> NormScratch {
        NormScratch { square: self.square.whole(), scale: self.scale.whole() }
    }

    fn new(runtime: &mut Runtime, hidden: u32) -> (r: Norm)
        ensures
            r.is_at(old(runtime)@.len(), hidden),
            final(runtime)@ == old(runtime)@ + seq![
                Allocation::Zeros(TensorShape::R1(hidden)),
                Allocation::Zeros(TensorShape::R1(1)),
            ],
    {
        let square = Tensor::zeros(runtime, TensorShape::vector(hidden));
        let scale = Tensor::zeros(runtime, TensorShape::vector(1));
        assert(runtime@ =~= old(runtime)@ + seq![
            Allocation::Zeros(TensorShape::R1(hidden)),
            Allocation::Zeros(TensorShape::R1(1)),
        ]);
        Norm { square, scale }
    }

    fn sites(&self) -> (r: NormScratch)
        ensures
            r == self.scratch(),
    {
        NormScratch { square: self.square.view(), scale: self.scale.view() }
    }
}

/// Token embedding table gather. No decode scratch.
#[derive(Clone, Copy, PartialEq, Eq, Structural, Debug)]
pub struct Embedding {}

impl Embedding {
    pub fn new(_runtime: &Runtime) -> (r: Embedding)
        ensures
            r == (Embedding {  }),
    {
        Embedding {  }
    }

    /// Records the gather of the step's token from `table` into `x`.
    pub fn record(&self, scheme: &mut Scheme, table: TensorView, step: Parcel, x: TensorView) -> (r:
        Result<(), RecordError>)
        ensures
            embed_recording(table, step, x).took(*old(scheme), *final(scheme), r),
    {
        record_embed(scheme, table, step, x)
    }

    /// Records the gather as a group.
    pub fn record_group(
        &self,
        worker: &mut Scheme,
        label: &str,
        table: TensorView,
        step: Parcel,
        x: TensorView,
    ) -> (r: Result<(), RecordError>)
        ensures
            embed_recording(table, step, x).grouped(label@).took(*old(worker), *final(worker), r),
    {
        let ghost before = *worker;
        let mark: usize = worker.entries.len();
        worker.open_group(label);
        let r = self.record(worker, table, step, x);
        end_group(
            worker,
            mark,
            r,
            Ghost(before),
            Ghost(label@),
            Ghost(embed_recording(table, step, x)),
        )
    }
}

/// RMSNorm. Out-of-place writes `out`; [`Self::record_inplace`] overwrites `x`.
#[derive(Clone, Copy, PartialEq, Eq, Structural, Debug)]
pub struct RmsNorm {}

impl RmsNorm {
    pub fn new(_runtime: &Runtime) -> (r: RmsNorm)
        ensures
            r == (RmsNorm {  }),
    {
        RmsNorm {  }
    }

    /// Records the norm of `x` into `out`.
    pub fn record(
        &self,
        scheme: &mut Scheme,
        x: TensorView,
        weight: TensorView,
        out: TensorView,
    ) -> (r: Result<(), RecordError>)
        ensures
            rmsnorm_recording(x, weight, out).took(*old(scheme), *final(scheme), r),
    {
        record_rmsnorm(scheme, x, weight, out)
    }

    /// Records the norm of `x` in place.
    pub fn record_inplace(&self, scheme: &mut Scheme, x: TensorView, weight: TensorView) -> (r:
        Result<(), RecordError>)
        ensures
            rmsnorm_inplace_recording(x, weight).took(*old(scheme), *final(scheme), r),
    {
        record_rmsnorm_inplace(scheme, x, weight)
    }
}

/// Dense projection: `out = weight @ x`.
#[derive(Clone, Copy, PartialEq, Eq, Structural, Debug)]
pub struct Linear {}

impl Linear {
    pub fn new(_runtime: &Runtime) -> (r: Linear)
        ensures
            r == (Linear {  }),
    {
        Linear {  }
    }

    /// Records the projection.
    pub fn record(
        &self,
        scheme: &mut Scheme,
        weight: TensorView,
        x: TensorView,
        out: TensorView,
    )
        ensures
            Recording::op("linear"@, TensorOp::Matmul { a: weight, b: x, out }).took(
                *old(scheme),
                *final(scheme),
                Ok(()),
            ),
    {
        record_linear(scheme, "linear", weight, x, out)
    }
}

/// Why an attention block was not made.
#[derive(Clone, Copy, PartialEq, Eq, Structural, Debug)]
pub enum BlockError {
    /// The hidden width does not split evenly over the query heads.
    Indivisible { hidden: u32, query_heads: u32 },
    /// The scratch has no shape.
    Shape(ShapeError),
}

impl BlockError {
    /// The error in words.
    pub open spec fn text(self) -> Seq<char> {
        match self {
            BlockError::Indivisible { hidden, query_heads } => "hidden "@ + decimal(hidden as nat)
                + " is not divisible by query_heads "@ + decimal(query_heads as nat),
            BlockError::Shape(e) => e.text(),
        }
    }

    /// The error in words.
    pub fn message(self) -> (r: String)
        ensures
            r@ == self.text(),
    {
        match self {
            BlockError::Indivisible { hidden, query_heads } => {
                let mut out = "hidden ".to_owned();
                push_decimal(&mut out, hidden as u64);
                out.append(" is not divisible by query_heads ");
                push_decimal(&mut out, query_heads as u64);
                out
            },
            BlockError::Shape(e) => e.message(),
        }
    }
}

/// Pre-norm causal attention block: RMSNorm, QKV, RoPE, attention, projection, residual.
///
/// Owns decode scratch (`xb`, `xb2`, `q`, `v`, flash-decoding `partial`).
#[derive(Clone, Copy, PartialEq, Eq, Structural, Debug)]
pub struct CausalAttentionBlock {
    pub xb: Tensor,
    pub xb2: Tensor,
    pub q: Tensor,
    pub v: Tensor,
    pub partial: Tensor,
    pub norm: Norm,
}

/// `hidden` splits evenly over the query heads.
pub open spec fn splits_evenly(hidden: u32, query_heads: u32) -> bool {
    query_heads != 0 && hidden % query_heads == 0
}

/// The flash-decoding scratch of an attention block.
pub open spec fn partial_shape(hidden: u32, query_heads: u32, seq_len: u32) -> TensorShape {
    TensorShape::R3(
        query_heads,
        splits_of(seq_len as int) as u32,
        (hidden / query_heads + 2) as u32,
    )
}

impl CausalAttentionBlock {
    pub open spec fn wf(self) -> bool {
        &&& self.xb.wf()
        &&& self.xb2.wf()
        &&& self.q.wf()
        &&& self.v.wf()
        &&& self.partial.wf()
    }

    /// The scratch of a block of these widths, in the parcels from `id` on.
    pub open spec fn is_at(self, id: nat, hidden: u32, query_heads: u32, seq_len: u32) -> bool {
        &&& self.wf()
        &&& self.xb.shape == TensorShape::R1(hidden)
        &&& self.xb.parcel.id == id
        &&& self.xb2.shape == TensorShape::R1(hidden)
        &&& self.xb2.parcel.id == id + 1
        &&& self.q.shape == TensorShape::R2(query_heads, hidden / query_heads)
        &&& self.q.parcel.id == id + 2
        &&& self.v.shape == TensorShape::R1(hidden)
        &&& self.v.parcel.id == id + 3
        &&& self.partial.shape == partial_shape(hidden, query_heads, seq_len)
        &&& self.partial.parcel.id == id + 4
        &&& self.norm.is_at(id + 5, hidden)
    }

    /// What a block of these widths allocates.
    pub open spec fn allocations(hidden: u32, query_heads: u32, seq_len: u32) -> Seq<Allocation> {
        seq![
            Allocation::Zeros(TensorShape::R1(hidden)),
            Allocation::Zeros(TensorShape::R1(hidden)),
            Allocation::Zeros(TensorShape::R2(query_heads, hidden / query_heads)),
            Allocation::Zeros(TensorShape::R1(hidden)),
            Allocation::Zeros(partial_shape(hidden, query_heads, seq_len)),
            Allocation::Zeros(TensorShape::R1(hidden)),
            Allocation::Zeros(TensorShape::R1(1)),
        ]
    }

    /// A block over `hidden` activations in `query_heads` heads, for `seq_len` cached
    /// positions.
    pub fn new(runtime: &mut Runtime, hidden: u32, query_heads: u32, seq_len: u32) -> (r: Result<
        CausalAttentionBlock,
        BlockError,
    >)
        requires
            splits_evenly(hidden, query_heads) ==> hidden / query_heads + 2 <= u32::MAX,
        ensures
            match r {
                Ok(block) => {
                    &&& splits_evenly(hidden, query_heads)
                    &&& partial_shape(hidden, query_heads, seq_len).wf()
                    &&& block.is_at(old(runtime)@.len(), hidden, query_heads, seq_len)
                    &&& final(runtime)@ == old(runtime)@ + Self::allocations(
                        hidden,
                        query_heads,
                        seq_len,
                    )
                },
                Err(e) => {
                    &&& final(runtime)@ == old(runtime)@
                    &&& e == (if splits_evenly(hidden, query_heads) {
                        BlockError::Shape(ShapeError::TooLarge)
                    } else {
                        BlockError::Indivisible { hidden, query_heads }
                    })
                    &&& splits_evenly(hidden, query_heads) ==> !partial_shape(
                        hidden,
                        query_heads,
                        seq_len,
                    ).wf()
                },
            },
    {
        if query_heads == 0 || hidden % query_heads != 0 {
            return Err(BlockError::Indivisible { hidden, query_heads });
        }
        let head: u32 = hidden / query_heads;
        proof {
            lemma_fundamental_div_mod(hidden as int, query_heads as int);
        }
        let by_head = TensorShape::matrix(query_heads, head);
        let splits: u32 = attention_splits(seq_len);
        let slots = match TensorShape::from_dims(&[query_heads, splits, head + 2]) {
            Ok(shape) => shape,
            Err(e) => {
                return Err(BlockError::Shape(e));
            },
        };
        let xb = Tensor::zeros(runtime, TensorShape::vector(hidden));
        let xb2 = Tensor::zeros(runtime, TensorShape::vector(hidden));
        let q = Tensor::zeros(runtime, by_head);
        let v = Tensor::zeros(runtime, TensorShape::vector(hidden));
        let partial = Tensor::zeros(runtime, slots);
        let norm = Norm::new(runtime, hidden);
        assert(runtime@ =~= old(runtime)@ + Self::allocations(hidden, query_heads, seq_len));
        Ok(CausalAttentionBlock { xb, xb2, q, v, partial, norm })
    }

    /// The sites of the block on these views.
    pub open spec fn sites(
        self,
        x: TensorView,
        weights: CausalAttentionBlockWeights,
        cache: KvLayer,
        step: Parcel,
    ) -> AttentionSites {
        AttentionSites {
            x,
            xb: self.xb.whole(),
            xb2: self.xb2.whole(),
            q: self.q.whole(),
            v: self.v.whole(),
            partial: self.partial.whole(),
            norm: self.norm.scratch(),
            key: cache.key,
            value: cache.value,
            step,
            rms: weights.norm,
            wq: weights.query,
            wk: weights.key,
            wv: weights.value,
            wo: weights.output,
        }
    }

    /// Records the block on `x`.
    pub fn record(
        &self,
        scheme: &mut Scheme,
        x: TensorView,
        weights: CausalAttentionBlockWeights,
        cache: KvLayer,
        step: Parcel,
    ) -> (r: Result<(), RecordError>)
        requires
            self.wf(),
        ensures
            attention_recording(
                norm_is_semantic(*old(scheme)),
                self.sites(x, weights, cache, step),
            ).took(*old(scheme), *final(scheme), r),
    {
        record_attention(
            scheme,
            AttentionSites {
                x,
                xb: self.xb.view(),
                xb2: self.xb2.view(),
                q: self.q.view(),
                v: self.v.view(),
                partial: self.partial.view(),
                norm: self.norm.sites(),
                key: cache.key,
                value: cache.value,
                step,
                rms: weights.norm,
                wq: weights.query,
                wk: weights.key,
                wv: weights.value,
                wo: weights.output,
            },
        )
    }

    /// Records the block as a group.
    pub fn record_group(
        &self,
        worker: &mut Scheme,
        label: &str,
        x: TensorView,
        weights: CausalAttentionBlockWeights,
        cache: KvLayer,
        step: Parcel,
    ) -> (r: Result<(), RecordError>)
        requires
            self.wf(),
        ensures
            attention_recording(
                norm_is_semantic(*old(worker)),
                self.sites(x, weights, cache, step),
            ).grouped(label@).took(*old(worker), *final(worker), r),
    {
        let ghost before = *worker;
        let ghost inner = attention_recording(
            norm_is_semantic(before),
            self.sites(x, weights, cache, step),
        );
        let mark: usize = worker.entries.len();
        worker.open_group(label);
        let r = self.record(worker, x, weights, cache, step);
        end_group(worker, mark, r, Ghost(before), Ghost(label@), Ghost(inner))
    }
}

/// Pre-norm SwiGLU block: RMSNorm, gated MLP, residual.
///
/// Owns decode scratch (`xb`, `hb`, `hb2`, `gate`).
#[derive(Clone, Copy, PartialEq, Eq, Structural, Debug)]
pub struct SwiGluBlock {
    pub xb: Tensor,
    pub hb: Tensor,
    pub hb2: Tensor,
    pub gate: Tensor,
    pub norm: Norm,
}

impl SwiGluBlock {
    /// The scratch of a block of these widths, in the parcels from `id` on.
    pub open spec fn is_at(self, id: nat, hidden: u32, intermediate: u32) -> bool {
        &&& self.xb.shape == TensorShape::R1(hidden)
        &&& self.xb.parcel.id == id
        &&& self.hb.shape == TensorShape::R1(intermediate)
        &&& self.hb.parcel.id == id + 1
        &&& self.hb2.shape == TensorShape::R1(intermediate)
        &&& self.hb2.parcel.id == id + 2
        &&& self.gate.shape == TensorShape::R1(intermediate)
        &&& self.gate.parcel.id == id + 3
        &&& self.norm.is_at(id + 4, hidden)
    }

    /// What a block of these widths allocates.
    pub open spec fn allocations(hidden: u32, intermediate: u32) -> Seq<Allocation> {
        seq![
            Allocation::Zeros(TensorShape::R1(hidden)),
            Allocation::Zeros(TensorShape::R1(intermediate)),
            Allocation::Zeros(TensorShape::R1(intermediate)),
            Allocation::Zeros(TensorShape::R1(intermediate)),
            Allocation::Zeros(TensorShape::R1(hidden)),
            Allocation::Zeros(TensorShape::R1(1)),
        ]
    }

    /// A block over `hidden` activations with `intermediate` gated ones.
    pub fn new(runtime: &mut Runtime, hidden: u32, intermediate: u32) -> (r: SwiGluBlock)
        ensures
            r.is_at(old(runtime)@.len(), hidden, intermediate),
            final(runtime)@ == old(runtime)@ + Self::allocations(hidden, intermediate),
    {
        let xb = Tensor::zeros(runtime, TensorShape::vector(hidden));
        let hb = Tensor::zeros(runtime, TensorShape::vector(intermediate));
        let hb2 = Tensor::zeros(runtime, TensorShape::vector(intermediate));
        let gate = Tensor::zeros(runtime, TensorShape::vector(intermediate));
        let norm = Norm::new(runtime, hidden);
        assert(runtime@ =~= old(runtime)@ + Self::allocations(hidden, intermediate));
        SwiGluBlock { xb, hb, hb2, gate, norm }
    }

    /// The sites of the block on these views.
    pub open spec fn sites(self, x: TensorView, weights: SwiGluBlockWeights) -> FfnSites {
        FfnSites {
            x,
            xb: self.xb.whole(),
            hb: self.hb.whole(),
            hb2: self.hb2.whole(),
            gate: self.gate.whole(),
            norm: self.norm.scratch(),
            rms: weights.norm,
            w1: weights.gate,
            w2: weights.down,
            w3: weights.up,
        }
    }

    /// Records the block on `x`.
    pub fn record(&self, scheme: &mut Scheme, x: TensorView, weights: SwiGluBlockWeights) -> (r:
        Result<(), RecordError>)
        ensures
            ffn_recording(
                norm_is_semantic(*old(scheme)),
                old(scheme).automatic_fusion,
                self.sites(x, weights),
            ).took(*old(scheme), *final(scheme), r),
    {
        record_ffn(
            scheme,
            FfnSites {
                x,
                xb: self.xb.view(),
                hb: self.hb.view(),
                hb2: self.hb2.view(),
                gate: self.gate.view(),
                norm: self.norm.sites(),
                rms: weights.norm,
                w1: weights.gate,
                w2: weights.down,
                w3: weights.up,
            },
        )
    }

    /// Records the block as a group.
    pub fn record_group(
        &self,
        worker: &mut Scheme,
        label: &str,
        x: TensorView,
        weights: SwiGluBlockWeights,
    ) -> (r: Result<(), RecordError>)
        ensures
            ffn_recording(
                norm_is_semantic(*old(worker)),
                old(worker).automatic_fusion,
                self.sites(x, weights),
            ).grouped(label@).took(*old(worker), *final(worker), r),
    {
        let ghost before = *worker;
        let ghost inner = ffn_recording(
            norm_is_semantic(before),
            before.automatic_fusion,
            self.sites(x, weights),
        );
        let mark: usize = worker.entries.len();
        worker.open_group(label);
        let r = self.record(worker, x, weights);
        end_group(worker, mark, r, Ghost(before), Ghost(label@), Ghost(inner))
    }
}

/// Every element of a cache lies in exactly one of its layers: element `e` is element
/// `e % row` of layer `e / row`, and of no other.
pub proof fn law_layers_partition_the_cache(cache: Tensor, e: int, layer: int, i: int)
    requires
        cache.wf(),
        cache.shape is R4,
        0 <= e < cache.shape.numel(),
    ensures
        ({
            let row = cache.shape.row();
            &&& 0 <= e / row < cache.shape.dims()[0]
            &&& 0 <= e % row < layer_view(cache, e / row).numel()
            &&& layer_view(cache, e / row).index(e % row) == e
        }),
        0 <= layer < cache.shape.dims()[0] && 0 <= i < layer_view(cache, layer).numel()
            && layer_view(cache, layer).index(i) == e ==> layer == e / cache.shape.row() && i == e
            % cache.shape.row(),
{
    let row = cache.shape.row();
    let layers = cache.shape.dims()[0] as int;
    lemma_row_nonneg(cache.shape);
    if row == 0 {
        assert(layers * 0 == 0);
    }
    let l = e / row;
    assert(0 <= l < layers && 0 <= e % row < row && l * row + e % row == e) by (nonlinear_arith)
        requires
            0 <= e < layers * row,
            row > 0,
            l == e / row,
    ;
    lemma_layer_view(cache, l);
    if 0 <= layer < layers && 0 <= i < layer_view(cache, layer).numel() && layer_view(
        cache,
        layer,
    ).index(i) == e {
        lemma_layer_view(cache, layer);
        lemma_fundamental_div_mod_converse(e, row, layer, i);
    }
}

proof fn lemma_layer_view(cache: Tensor, layer: int)
    requires
        cache.wf(),
        cache.shape is R4,
        0 <= layer < cache.shape.dims()[0],
    ensures
        layer_view(cache, layer).offset == layer * cache.shape.row(),
        layer_view(cache, layer).numel() == cache.shape.row(),
        layer_view(cache, layer).wf(),
{
    let d = cache.shape.dims();
    let row = cache.shape.row();
    let layers = d[0] as int;
    lemma_row_nonneg(cache.shape);
    assert(0 <= layer * row && layer * row + row <= layers * row) by (nonlinear_arith)
        requires
            0 <= layer < layers,
            0 <= row,
    ;
    let (a, b, c) = (d[1] as int, d[2] as int, d[3] as int);
    assert(a * (b * c) == a * b * c) by (nonlinear_arith);
}

/// The tensors that a causal attention block over `hidden` activations and a cache of
/// `kv_heads` heads is meant for.
pub open spec fn attention_shapes(
    hidden: u32,
    query_heads: u32,
    kv_heads: u32,
    seq_len: u32,
    x: TensorView,
    weights: CausalAttentionBlockWeights,
    cache: KvLayer,
) -> bool {
    let head = hidden / query_heads;
    let kv_dim = kv_heads * head;
    &&& x.shape == TensorShape::R1(hidden)
    &&& weights.norm.shape == TensorShape::R1(hidden)
    &&& weights.query.shape == TensorShape::R2(hidden, hidden)
    &&& weights.key.shape == TensorShape::R2(kv_dim as u32, hidden)
    &&& weights.value.shape == TensorShape::R2(kv_dim as u32, hidden)
    &&& weights.output.shape == TensorShape::R2(hidden, hidden)
    &&& cache.key.shape == TensorShape::R3(seq_len, kv_heads, head)
    &&& cache.value.shape == TensorShape::R3(seq_len, kv_heads, head)
    &&& kv_heads <= query_heads
    &&& kv_dim % 2 == 0
    &&& head <= ATTENTION_MAX_HEAD
}

/// A causal attention block is recorded whole on the tensors that it is meant for.
pub proof fn law_attention_block_records(
    block: CausalAttentionBlock,
    id: nat,
    hidden: u32,
    query_heads: u32,
    kv_heads: u32,
    seq_len: u32,
    x: TensorView,
    weights: CausalAttentionBlockWeights,
    cache: KvLayer,
    step: Parcel,
    semantic: bool,
)
    requires
        splits_evenly(hidden, query_heads),
        block.is_at(id, hidden, query_heads, seq_len),
        attention_shapes(hidden, query_heads, kv_heads, seq_len, x, weights, cache),
    ensures
        attention_recording(semantic, block.sites(x, weights, cache, step)).error is None,
{
    let s = block.sites(x, weights, cache, step);
    lemma_head_width(hidden, query_heads, kv_heads);
    assert(s.views() is Ok);
    let v = s.views()->Ok_0;
    let rms = rmsnorm_bounds(s.x.shape, s.rms.shape, s.xb.shape);
    law_contract_holds_iff_axes_agree(rms);
    let rope = rope_store_bounds(s.q.shape, v.proj.shape, s.key.shape);
    law_contract_holds_iff_axes_agree(rope);
    let store = cache_store_bounds(v.v.shape, s.value.shape);
    law_contract_holds_iff_axes_agree(store);
    let first = partial_bounds(s.q.shape, s.key.shape, s.value.shape, s.partial.shape);
    law_contract_holds_iff_axes_agree(first);
    let second = combine_bounds(s.partial.shape, v.xb_heads.shape);
    law_contract_holds_iff_axes_agree(second);
}

/// The width of the heads.
pub(crate) proof fn lemma_head_width(hidden: u32, query_heads: u32, kv_heads: u32)
    requires
        splits_evenly(hidden, query_heads),
        kv_heads <= query_heads,
    ensures
        query_heads * (hidden / query_heads) == hidden,
        0 <= kv_heads * (hidden / query_heads) <= hidden,
{
    let head = (hidden / query_heads) as int;
    lemma_fundamental_div_mod(hidden as int, query_heads as int);
    assert(0 <= kv_heads * head <= query_heads * head) by (nonlinear_arith)
        requires
            0 <= kv_heads <= query_heads,
            0 <= head,
    ;
}

/// A SwiGLU block is recorded whole on activations and weights of its widths.
pub proof fn law_swiglu_block_records(
    block: SwiGluBlock,
    id: nat,
    hidden: u32,
    intermediate: u32,
    x: TensorView,
    weights: SwiGluBlockWeights,
    semantic: bool,
    fusion: bool,
)
    requires
        block.is_at(id, hidden, intermediate),
        x.shape == TensorShape::R1(hidden),
        weights.norm.shape == TensorShape::R1(hidden),
    ensures
        ffn_recording(semantic, fusion, block.sites(x, weights)).error is None,
{
    let s = block.sites(x, weights);
    let rms = rmsnorm_bounds(s.x.shape, s.rms.shape, s.xb.shape);
    law_contract_holds_iff_axes_agree(rms);
    let gate = swiglu_bounds(s.hb.shape, s.hb2.shape);
    law_contract_holds_iff_axes_agree(gate);
}

/// What the dispatches of a recorded causal attention block read and store lies in their
/// tensors, at every position that the cache has: the conditions under which the kernels
/// run all hold. The rotation and the store may have more threads than was asked for, as
/// a device rounds up to whole workgroups.
pub proof fn law_attention_block_stays_in_bounds(
    block: CausalAttentionBlock,
    id: nat,
    hidden: u32,
    query_heads: u32,
    kv_heads: u32,
    seq_len: u32,
    x: TensorView,
    weights: CausalAttentionBlockWeights,
    cache: KvLayer,
    parcel: Parcel,
    step: DecodeStep,
    q: HostTensor,
    k_proj: HostTensor,
    k: HostTensor,
    threads: u32,
)
    requires
        splits_evenly(hidden, query_heads),
        block.is_at(id, hidden, query_heads, seq_len),
        attention_shapes(hidden, query_heads, kv_heads, seq_len, x, weights, cache),
        hidden > 0,
        hidden % 2 == 0,
        kv_heads > 0,
        query_heads % kv_heads == 0,
        cache.key.shape.wf(),
        step.position < seq_len,
        q.wf() && k_proj.wf() && k.wf(),
        q.shape == block.q.shape,
        k_proj.shape == TensorShape::R1((kv_heads * (hidden / query_heads)) as u32),
        k.shape == cache.key.shape,
        threads <= MAX_PAIR_THREADS,
        threads >= rope_threads(block.q.shape.numel()),
    ensures
        ({
            let s = block.sites(x, weights, cache, parcel);
            let v = s.views()->Ok_0;
            let groups = (v.q_heads * v.splits) as u32;
            &&& s.views() is Ok
            &&& rope_store_in_bounds(q, k_proj, k, step, threads)
            &&& 2 * pairs(threads as int, q.data@.len() as int) == hidden
            &&& step.position * k.shape.row() + v.kv_dim <= k.data@.len()
            &&& v.proj.numel() == v.kv_dim
            &&& v.v.numel() == v.kv_dim
            &&& groups == v.q_heads * v.splits
            &&& partial_in_bounds(s.q.shape, s.key.shape, s.partial.shape, step, groups)
            &&& combine_in_bounds(s.partial.shape, v.xb_heads.shape, step, v.q_heads)
        }),
{
    let s = block.sites(x, weights, cache, parcel);
    let head = (hidden / query_heads) as int;
    let kv_dim = kv_heads * head;
    let pos = step.position as int;
    lemma_head_width(hidden, query_heads, kv_heads);
    assert(s.views() is Ok);
    let v = s.views()->Ok_0;
    assert(v.kv_dim == kv_dim);
    assert(v.kv_dim * 1 == v.kv_dim);
    assert(head > 0) by {
        if head == 0 {
            assert(query_heads * 0 == 0);
        }
    }
    assert(q.data@.len() == hidden);
    assert(k_proj.data@.len() == kv_dim);
    lemma_index(pos, kv_dim, seq_len as int, kv_dim);
    assert(k.shape.row() == kv_dim);
    lemma_passes_in_bounds(s.q.shape, s.key.shape, s.partial.shape, v.xb_heads.shape, step);
}

/// Element `(t, h, d)` of a layer is element `(layer, t, h, d)` of the cache, in row-major
/// order.
pub proof fn law_layer_elements(cache: Tensor, layer: int, t: int, h: int, d: int)
    requires
        cache.wf(),
        cache.shape is R4,
        0 <= layer < cache.shape.dims()[0],
    ensures
        ({
            let seq_len = cache.shape.dims()[1];
            let kv_heads = cache.shape.dims()[2];
            let head = cache.shape.dims()[3];
            let view = layer_view(cache, layer);
            &&& view.parcel == cache.parcel
            &&& view.shape.dims() == seq![seq_len, kv_heads, head]
            &&& view.index((t * kv_heads + h) * head + d) == ((layer * seq_len + t) * kv_heads + h)
                * head + d
        }),
{
    let seq_len = cache.shape.dims()[1] as int;
    let kv_heads = cache.shape.dims()[2] as int;
    let head = cache.shape.dims()[3] as int;
    lemma_layer_view(cache, layer);
    assert(layer * (seq_len * kv_heads * head) + ((t * kv_heads + h) * head + d) == ((layer
        * seq_len + t) * kv_heads + h) * head + d) by (nonlinear_arith);
}

/// Heads of one size fill the hidden width exactly where the width is a multiple of their
/// number.
pub proof fn law_heads_fill_the_width(hidden: u32, query_heads: u32)
    ensures
        splits_evenly(hidden, query_heads) <==> exists|head: int|
            0 < query_heads && 0 <= head && #[trigger] (head * query_heads) == hidden,
{
    if splits_evenly(hidden, query_heads) {
        lemma_fundamental_div_mod(hidden as int, query_heads as int);
        let head = hidden as int / query_heads as int;
        assert(head * query_heads == hidden) by (nonlinear_arith)
            requires
                hidden == query_heads * head,
        ;
    }
    if exists|head: int| 0 < query_heads && 0 <= head && #[trigger] (head * query_heads) == hidden {
        let head = choose|head: int|
            0 < query_heads && 0 <= head && #[trigger] (head * query_heads) == hidden;
        lemma_fundamental_div_mod_converse(hidden as int, query_heads as int, head, 0);
    }
}

/// The scratch of a causal attention block: the normalized input, the projections and the
/// values as wide as the activations, the query by heads, and for each head and each split
/// of 32 cached positions a slot of two more than the head. Each was allocated, in order.
pub proof fn law_attention_block_scratch(
    block: CausalAttentionBlock,
    id: nat,
    hidden: u32,
    query_heads: u32,
    seq_len: u32,
)
    requires
        splits_evenly(hidden, query_heads),
        hidden / query_heads + 2 <= u32::MAX,
        block.is_at(id, hidden, query_heads, seq_len),
    ensures
        ({
            let head = hidden / query_heads;
            let made = CausalAttentionBlock::allocations(hidden, query_heads, seq_len);
            let partial = block.partial.shape.dims();
            &&& block.xb.shape.dims() == seq![hidden]
            &&& block.xb2.shape.dims() == seq![hidden]
            &&& block.v.shape.dims() == seq![hidden]
            &&& block.q.shape.dims() == seq![query_heads, head]
            &&& partial.len() == 3
            &&& partial[0] == query_heads
            &&& partial[1] >= 1 && 32 * partial[1] >= seq_len
            &&& partial[1] > 1 ==> 32 * (partial[1] - 1) < seq_len
            &&& partial[2] == head + 2
            &&& block.norm.square.shape.dims() == seq![hidden]
            &&& block.norm.scale.shape.dims() == seq![1u32]
            &&& made.len() == 7
            &&& made[block.xb.parcel.id - id] == Allocation::Zeros(block.xb.shape)
            &&& made[block.xb2.parcel.id - id] == Allocation::Zeros(block.xb2.shape)
            &&& made[block.q.parcel.id - id] == Allocation::Zeros(block.q.shape)
            &&& made[block.v.parcel.id - id] == Allocation::Zeros(block.v.shape)
            &&& made[block.partial.parcel.id - id] == Allocation::Zeros(block.partial.shape)
            &&& made[block.norm.square.parcel.id - id] == Allocation::Zeros(
                block.norm.square.shape,
            )
            &&& made[block.norm.scale.parcel.id - id] == Allocation::Zeros(block.norm.scale.shape)
        }),
{
    law_splits_cover_the_cache(seq_len as int);
}

/// The scratch of a SwiGLU block: the normalized input as wide as the activations, and both
/// projections and `gate` as wide as the gated ones. Each was allocated, in order.
pub proof fn law_swiglu_block_scratch(
    block: SwiGluBlock,
    id: nat,
    hidden: u32,
    intermediate: u32,
)
    requires
        block.is_at(id, hidden, intermediate),
    ensures
        ({
            let made = SwiGluBlock::allocations(hidden, intermediate);
            &&& block.xb.shape.dims() == seq![hidden]
            &&& block.hb.shape.dims() == seq![intermediate]
            &&& block.hb2.shape.dims() == seq![intermediate]
            &&& block.gate.shape.dims() == seq![intermediate]
            &&& block.norm.square.shape.dims() == seq![hidden]
            &&& block.norm.scale.shape.dims() == seq![1u32]
            &&& made.len() == 6
            &&& made[block.xb.parcel.id - id] == Allocation::Zeros(block.xb.shape)
            &&& made[block.hb.parcel.id - id] == Allocation::Zeros(block.hb.shape)
            &&& made[block.hb2.parcel.id - id] == Allocation::Zeros(block.hb2.shape)
            &&& made[block.gate.parcel.id - id] == Allocation::Zeros(block.gate.shape)
            &&& made[block.norm.square.parcel.id - id] == Allocation::Zeros(
                block.norm.square.shape,
            )
            &&& made[block.norm.scale.parcel.id - id] == Allocation::Zeros(block.norm.scale.shape)
        }),
{
}

/// What the errors say, with their numbers in decimal.
pub proof fn law_block_error_words(hidden: u32, query_heads: u32)
    ensures
        (BlockError::Indivisible { hidden, query_heads }).text() == "hidden "@ + decimal(
            hidden as nat,
        ) + " is not divisible by query_heads "@ + decimal(query_heads as nat),
        forall|e: ShapeError| (#[trigger] BlockError::Shape(e).text()) == e.text(),
{
}

} // verus!
