//! What a replay of a recorded scheme computes.
//!
//! The contents of the parcels are scalars, and each entry rewrites one or two views as
//! its kernel or tensor operation does. Where the device sums in an order of its own, a
//! sum is written in order: the laws here compare results in exact arithmetic, where that
//! does not matter.
//!
//! Kernels have a meaning where their contract holds, nothing is read or stored out of
//! bounds, and no view is written while it is read through another. Tensor operations have
//! one on vectors, and matmul on a matrix and a vector. What any other entry leaves is up
//! to the device.
use crate::blocks::{
    attention_recording, ffn_recording, fused_swiglu_recording, law_attention_order,
    norm_recording, rope_threads, semantic_norm_recording, splits_of,
    swiglu_recording, AttentionSites, AttentionViews, FfnSites, NormScratch,
};
use crate::exact::{
    law_rms_lanes_add_up_all_squares, law_two_passes_are_attention, lemma_sum_ext,
    lemma_value_in_order, sum, Exact,
};
use crate::kernels::attention::{
    attention_in_bounds, attention_output, attention_value, attention_weights, heads_of,
};
use crate::kernels::elementwise::{
    covered, gemv_term, gemv_value, silu_value, stored_at, swiglu_value,
};
use crate::kernels::flash::{
    combine_in_bounds, combine_pass, law_live_splits_come_first, lemma_partial_shapes,
    lemma_passes_in_bounds, partial_in_bounds, partial_pass, Flash,
};
use crate::kernels::norm::{rms_normalized, rms_scale, square_lane, RMS_EPS_BITS};
use crate::kernels::rope::{
    law_pair_threads_cover, lemma_rope_store_shapes, narrower, pairs, rope_fits, rope_store_fits,
    rotate_at, rotate_into, MAX_PAIR_THREADS,
};
use crate::kernels::{lemma_index, DecodeStep, ATTENTION_MAX_HEAD, DEFAULT_ROPE_THETA, WORKGROUP};
use crate::modules::{
    attention_shapes, lemma_head_width, splits_evenly, CausalAttentionBlock,
    CausalAttentionBlockWeights, KvLayer, SwiGluBlock, SwiGluBlockWeights,
};
use crate::scalar::{lanes_of, strided_sum, Scalar, ONE_BITS};
use crate::scheme::{Grid, Recorded, TensorOp, Work};
use crate::tensor::{Parcel, TensorShape, TensorView};
use vstd::prelude::*;

verus! {

/// What the device decides.
pub ghost struct Device {
    /// Threads that a grid launches.
    pub threads: spec_fn(Grid) -> u32,
    /// Workgroups that a grid launches.
    pub groups: spec_fn(Grid) -> u32,
    /// The contents of all parcels after an entry that has no meaning here, by those
    /// before.
    pub other: spec_fn(Recorded, spec_fn(Parcel, int) -> Scalar) -> spec_fn(Parcel, int) -> Scalar,
}

impl Device {
    /// A grid launches at least what it asks for, and rounds a count of pairs up to whole
    /// workgroups only.
    pub open spec fn launches_enough(self) -> bool {
        &&& forall|n: u32| n <= #[trigger] (self.threads)(Grid::Over1d(n))
        &&& forall|n: u32|
            n <= MAX_PAIR_THREADS ==> #[trigger] (self.threads)(Grid::Over1d(n))
                <= MAX_PAIR_THREADS
        &&& forall|v: TensorView|
            v.wf() ==> v.numel() <= #[trigger] (self.threads)(Grid::OverTensor(v))
        &&& forall|x: u32| #[trigger] (self.groups)(Grid::Groups(x, 1, 1)) == x
    }
}

/// The contents of all parcels, on a device.
pub ghost struct Memory {
    pub cells: spec_fn(Parcel, int) -> Scalar,
    /// The decode step that each step parcel holds.
    pub steps: spec_fn(Parcel) -> DecodeStep,
    pub device: Device,
}

/// An operand that is read element by element into `out`: of the same shape, or a single
/// element that stands for every one. It is `out` itself, or lies in another parcel.
pub open spec fn is_operand(v: TensorView, out: TensorView) -> bool {
    &&& v.shape == out.shape || v.shape == TensorShape::R1(1)
    &&& v == out || v.parcel != out.parcel
}

/// The operation has a meaning.
pub open spec fn op_is_known(op: TensorOp) -> bool {
    match op {
        TensorOp::Add { a, b, out } => is_operand(a, out) && is_operand(b, out),
        TensorOp::Mul { a, b, out } => is_operand(a, out) && is_operand(b, out),
        TensorOp::Matmul { a, b, out } => {
            &&& a.shape is R2
            &&& b.shape == TensorShape::R1(a.shape.dims()[1])
            &&& out.shape == TensorShape::R1(a.shape.dims()[0])
            &&& out.parcel != a.parcel
            &&& out.parcel != b.parcel
        },
        TensorOp::Mean { a, axis, out } => {
            &&& a.shape is R1
            &&& axis == 0
            &&& out.shape == TensorShape::R1(1)
            &&& out.parcel != a.parcel
        },
        TensorOp::AddScalar { a, bits: _, out } => a.shape == out.shape && is_operand(a, out),
        TensorOp::Sqrt { a, out } => a.shape == out.shape && is_operand(a, out),
        TensorOp::Reciprocal { a, out } => a.shape == out.shape && is_operand(a, out),
        TensorOp::Neg { a, out } => a.shape == out.shape && is_operand(a, out),
        TensorOp::Exp { a, out } => a.shape == out.shape && is_operand(a, out),
    }
}

impl Memory {
    /// The elements of a view.
    pub open spec fn read(self, v: TensorView) -> Seq<Scalar> {
        Seq::new(v.numel() as nat, |i: int| (self.cells)(v.parcel, v.index(i)))
    }

    /// Element `i` of an operand; a single element stands for every one.
    pub open spec fn operand(self, v: TensorView, i: int) -> Scalar {
        if v.shape == TensorShape::R1(1) {
            self.read(v)[0]
        } else {
            self.read(v)[i]
        }
    }

    /// The memory after the elements of `out` became `data`.
    pub open spec fn written(self, out: TensorView, data: Seq<Scalar>) -> Memory {
        Memory {
            cells: |p: Parcel, j: int|
                if p == out.parcel && out.offset <= j < out.offset + out.numel() {
                    data[j - out.offset]
                } else {
                    (self.cells)(p, j)
                },
            steps: self.steps,
            device: self.device,
        }
    }

    /// The memory after element `i` of `out` became `f(i)`.
    pub open spec fn mapped(self, out: TensorView, f: spec_fn(int) -> Scalar) -> Memory {
        self.written(out, Seq::new(out.numel() as nat, f))
    }

    /// The memory after a tensor operation that has a meaning.
    pub open spec fn after_op(self, op: TensorOp) -> Memory {
        match op {
            TensorOp::Add { a, b, out } => self.mapped(
                out,
                |i: int| Scalar::Add(Box::new(self.operand(a, i)), Box::new(self.operand(b, i))),
            ),
            TensorOp::Mul { a, b, out } => self.mapped(
                out,
                |i: int| Scalar::Mul(Box::new(self.operand(a, i)), Box::new(self.operand(b, i))),
            ),
            TensorOp::Matmul { a, b, out } => self.mapped(
                out,
                |i: int| gemv_value(self.read(b), self.read(a), i),
            ),
            TensorOp::Mean { a, axis: _, out } => self.mapped(
                out,
                |i: int|
                    Scalar::Div(
                        Box::new(strided_sum(|j: int| self.read(a)[j], 0, 1, a.numel())),
                        Box::new(Scalar::FromU32(a.numel() as u32)),
                    ),
            ),
            TensorOp::AddScalar { a, bits, out } => self.mapped(
                out,
                |i: int| Scalar::Add(Box::new(self.operand(a, i)), Box::new(Scalar::Bits(bits))),
            ),
            TensorOp::Sqrt { a, out } => self.mapped(
                out,
                |i: int| Scalar::Sqrt(Box::new(self.operand(a, i))),
            ),
            TensorOp::Reciprocal { a, out } => self.mapped(
                out,
                |i: int|
                    Scalar::Div(Box::new(Scalar::Bits(ONE_BITS)), Box::new(self.operand(a, i))),
            ),
            TensorOp::Neg { a, out } => self.mapped(
                out,
                |i: int| Scalar::Neg(Box::new(self.operand(a, i))),
            ),
            TensorOp::Exp { a, out } => self.mapped(
                out,
                |i: int| Scalar::Exp(Box::new(self.operand(a, i))),
            ),
        }
    }

    /// Threads of a kernel that works by thread, or workgroups of one that works by
    /// workgroup.
    pub open spec fn launched(self, work: Work, grid: Grid) -> u32 {
        match work {
            Work::Rmsnorm { x: _, weight: _, o: _ } => (self.device.groups)(grid),
            Work::RmsnormInplace { x: _, weight: _ } => (self.device.groups)(grid),
            Work::AttentionPartial { q: _, key_cache: _, value_cache: _, partial: _, step: _ } => (
            self.device.groups)(grid),
            Work::AttentionCombine { partial: _, xb: _, step: _ } => (self.device.groups)(grid),
            Work::Attention { q: _, att: _, xb: _, key_cache: _, value_cache: _, step: _ } => (
            self.device.groups)(grid),
            _ => (self.device.threads)(grid),
        }
    }

    /// A dispatch of `n` threads, or workgroups, of a kernel has a meaning.
    pub open spec fn work_is_known(self, work: Work, n: u32) -> bool {
        work.refused() is None && match work {
            Work::Embed { table, step, x } => {
                &&& x.parcel != table.parcel
                &&& n > 0 && x.numel() > 0 ==> (self.steps)(step).token < table.shape.dims()[0]
            },
            Work::Gemv { x, w, xout, step } => {
                &&& xout.parcel != x.parcel
                &&& xout.parcel != w.parcel
                &&& n > 0 && w.shape.dims()[0] > 0 ==> (self.steps)(step).position
                    < xout.shape.dims()[0]
            },
            Work::Rmsnorm { x, weight, o } => {
                &&& n == 1
                &&& o.parcel != x.parcel
                &&& o.parcel != weight.parcel
            },
            Work::RmsnormInplace { x, weight } => n == 1 && x.parcel != weight.parcel,
            Work::Rope { q, k, step, theta: _ } => {
                &&& q.parcel != k.parcel
                &&& rope_fits(q.numel(), k.shape.row(), k.numel(), (self.steps)(step), n)
            },
            Work::RopeStore { q, k_proj, k, step, theta: _ } => {
                &&& q.parcel != k.parcel
                &&& q.parcel != k_proj.parcel
                &&& k.parcel != k_proj.parcel
                &&& rope_store_fits(
                    q.numel(),
                    k_proj.numel(),
                    k.numel(),
                    (self.steps)(step),
                    n,
                )
            },
            Work::CacheStore { src, dst, step } => {
                let count = covered(n, src.numel());
                &&& src.parcel != dst.parcel
                &&& count > 0 ==> (self.steps)(step).position * dst.shape.row() + count
                    <= dst.numel()
            },
            Work::AttentionPartial { q, key_cache, value_cache, partial, step } => {
                &&& partial.parcel != q.parcel
                &&& partial.parcel != key_cache.parcel
                &&& partial.parcel != value_cache.parcel
                &&& partial_in_bounds(
                    q.shape,
                    key_cache.shape,
                    partial.shape,
                    (self.steps)(step),
                    n,
                )
            },
            Work::AttentionCombine { partial, xb, step } => {
                &&& partial.parcel != xb.parcel
                &&& combine_in_bounds(partial.shape, xb.shape, (self.steps)(step), n)
            },
            Work::Attention { q, att, xb, key_cache, value_cache, step } => {
                &&& att.parcel != q.parcel
                &&& att.parcel != xb.parcel
                &&& att.parcel != key_cache.parcel
                &&& att.parcel != value_cache.parcel
                &&& xb.parcel != q.parcel
                &&& xb.parcel != key_cache.parcel
                &&& xb.parcel != value_cache.parcel
                &&& attention_in_bounds(q.shape, key_cache.shape, (self.steps)(step), n)
            },
            Work::Swiglu { hb, hb2 } => hb.parcel != hb2.parcel,
        }
    }

    /// The memory after a dispatch of `n` threads, or workgroups, of a kernel that has a
    /// meaning.
    pub open spec fn after_work(self, work: Work, n: u32) -> Memory {
        match work {
            Work::Embed { table, step, x } => self.mapped(
                x,
                |i: int|
                    if i < n {
                        self.read(table)[(self.steps)(step).token * x.numel() + i]
                    } else {
                        self.read(x)[i]
                    },
            ),
            Work::Gemv { x, w, xout, step } => self.written(
                xout,
                stored_at(
                    self.read(xout),
                    (self.steps)(step).position * w.shape.dims()[0],
                    Seq::new(
                        w.shape.dims()[0] as nat,
                        |i: int| gemv_value(self.read(x), self.read(w), i),
                    ),
                    covered(n, w.shape.dims()[0] as int),
                ),
            ),
            Work::Rmsnorm { x, weight, o } => self.written(
                o,
                rms_normalized(self.read(x), self.read(weight)),
            ),
            Work::RmsnormInplace { x, weight } => self.written(
                x,
                rms_normalized(self.read(x), self.read(weight)),
            ),
            Work::Rope { q, k, step, theta } => self.written(
                q,
                rotate_at(
                    self.read(q),
                    0,
                    pairs(n as int, q.numel()),
                    (self.steps)(step).position,
                    q.shape.dims()[1],
                    theta,
                ),
            ).written(
                k,
                rotate_at(
                    self.read(k),
                    (self.steps)(step).position * k.shape.row(),
                    pairs(n as int, narrower(q.numel(), k.shape.row())),
                    (self.steps)(step).position,
                    q.shape.dims()[1],
                    theta,
                ),
            ),
            Work::RopeStore { q, k_proj, k, step, theta } => self.written(
                q,
                rotate_at(
                    self.read(q),
                    0,
                    pairs(n as int, q.numel()),
                    (self.steps)(step).position,
                    q.shape.dims()[1],
                    theta,
                ),
            ).written(
                k,
                rotate_into(
                    self.read(k),
                    (self.steps)(step).position * k_proj.numel(),
                    self.read(k_proj),
                    0,
                    pairs(n as int, narrower(q.numel(), k_proj.numel())),
                    (self.steps)(step).position,
                    q.shape.dims()[1],
                    theta,
                ),
            ),
            Work::CacheStore { src, dst, step } => self.written(
                dst,
                stored_at(
                    self.read(dst),
                    (self.steps)(step).position * dst.shape.row(),
                    self.read(src),
                    covered(n, src.numel()),
                ),
            ),
            Work::AttentionPartial { q, key_cache, value_cache, partial, step } => self.written(
                partial,
                partial_pass(
                    heads_of(q.shape, key_cache.shape),
                    self.read(q),
                    self.read(key_cache),
                    self.read(value_cache),
                    self.read(partial),
                    partial.shape.dims()[1] as int,
                    partial.shape.dims()[2] as int,
                    (self.steps)(step).position as int,
                    n as int,
                ),
            ),
            Work::AttentionCombine { partial, xb, step } => self.written(
                xb,
                combine_pass(
                    self.read(partial),
                    self.read(xb),
                    partial.shape.dims()[1] as int,
                    partial.shape.dims()[2] as int,
                    xb.shape.dims()[1] as int,
                    (self.steps)(step).position as int,
                    n as int,
                ),
            ),
            Work::Attention { q, att, xb, key_cache, value_cache, step } => self.written(
                att,
                attention_weights(
                    heads_of(q.shape, key_cache.shape),
                    self.read(q),
                    self.read(key_cache),
                    self.read(att),
                    att.shape.dims()[1] as int,
                    (self.steps)(step).position as int,
                    n as int,
                ),
            ).written(
                xb,
                attention_output(
                    heads_of(q.shape, key_cache.shape),
                    self.read(q),
                    self.read(key_cache),
                    self.read(value_cache),
                    self.read(xb),
                    (self.steps)(step).position as int,
                    n as int,
                ),
            ),
            Work::Swiglu { hb, hb2 } => self.mapped(
                hb,
                |i: int|
                    if i < n {
                        swiglu_value(self.read(hb)[i], self.read(hb2)[i])
                    } else {
                        self.read(hb)[i]
                    },
            ),
        }
    }

    /// The memory after an entry that has no meaning here.
    pub open spec fn left_to_device(self, r: Recorded) -> Memory {
        Memory {
            cells: (self.device.other)(r, self.cells),
            steps: self.steps,
            device: self.device,
        }
    }

    /// The memory after one entry.
    pub open spec fn after(self, r: Recorded) -> Memory {
        match r {
            Recorded::Kernel(_, work, grid) => {
                let n = self.launched(work, grid);
                if self.work_is_known(work, n) {
                    self.after_work(work, n)
                } else {
                    self.left_to_device(r)
                }
            },
            Recorded::Tensor(_, op) => if op_is_known(op) {
                self.after_op(op)
            } else {
                self.left_to_device(r)
            },
            Recorded::Open(_) => self,
            Recorded::Close => self,
        }
    }

    /// The memory after entries, in order.
    pub open spec fn replayed(self, entries: Seq<Recorded>) -> Memory
        decreases entries.len(),
    {
        if entries.len() == 0 {
            self
        } else {
            self.replayed(entries.drop_last()).after(entries.last())
        }
    }

    /// Nothing changed in a parcel.
    pub open spec fn same_in(self, other: Memory, p: Parcel) -> bool {
        forall|j: int| #[trigger] (self.cells)(p, j) == (other.cells)(p, j)
    }

    /// Nothing changed in the parcel of a view but the view's own elements.
    pub open spec fn same_around(self, other: Memory, v: TensorView) -> bool {
        forall|j: int|
            !(v.offset <= j < v.offset + v.numel()) ==> #[trigger] (self.cells)(v.parcel, j) == (
            other.cells)(v.parcel, j)
    }
}

/// A view of the same elements reads what was written.
pub(crate) proof fn lemma_read_back(m: Memory, out: TensorView, data: Seq<Scalar>, v: TensorView)
    requires
        data.len() == out.numel(),
        v.parcel == out.parcel,
        v.offset == out.offset,
        v.numel() == out.numel(),
    ensures
        m.written(out, data).read(v) == data,
{
    assert(m.written(out, data).read(v) =~= data);
}

/// A view of another parcel reads what it read before.
proof fn lemma_read_other(m: Memory, other: Memory, v: TensorView)
    requires
        m.same_in(other, v.parcel),
    ensures
        m.read(v) == other.read(v),
{
    assert forall|i: int| 0 <= i < v.numel() implies m.read(v)[i] == other.read(v)[i] by {
        assert((m.cells)(v.parcel, v.index(i)) == (other.cells)(v.parcel, v.index(i)));
    }
    assert(m.read(v) =~= other.read(v));
}

/// Entries that follow each other are replayed one after the other.
pub proof fn law_replays_follow_each_other(m: Memory, a: Seq<Recorded>, b: Seq<Recorded>)
    ensures
        m.replayed(a + b) == m.replayed(a).replayed(b),
    decreases b.len(),
{
    if b.len() == 0 {
        assert(a + b =~= a);
    } else {
        law_replays_follow_each_other(m, a, b.drop_last());
        assert((a + b).drop_last() =~= a + b.drop_last());
        assert((a + b).last() == b.last());
    }
}

/// A replay changes no step: uploads come between replays.
pub proof fn law_replay_keeps_the_steps(m: Memory, entries: Seq<Recorded>)
    ensures
        m.replayed(entries).steps == m.steps,
    decreases entries.len(),
{
    if entries.len() > 0 {
        law_replay_keeps_the_steps(m, entries.drop_last());
    }
}

pub(crate) proof fn lemma_replay_one(m: Memory, r: Recorded)
    ensures
        m.replayed(seq![r]) == m.after(r),
{
    assert(seq![r].drop_last() =~= Seq::<Recorded>::empty());
    assert(m.replayed(seq![r].drop_last()) == m);
}

proof fn lemma_replay_push(m: Memory, entries: Seq<Recorded>, r: Recorded)
    ensures
        m.replayed(entries.push(r)) == m.replayed(entries).after(r),
{
    assert(entries.push(r).drop_last() =~= entries);
}

/// SwiGLU as tensor operations leaves in `hb` what the kernel leaves there.
pub proof fn law_fused_swiglu_computes_the_kernel(
    e: Exact,
    m: Memory,
    hb: TensorView,
    hb2: TensorView,
    gate: TensorView,
    i: int,
)
    requires
        hb2.shape == hb.shape,
        gate.shape == hb.shape,
        hb.parcel != hb2.parcel,
        hb.parcel != gate.parcel,
        hb2.parcel != gate.parcel,
        0 <= i < hb.numel(),
    ensures
        e.value(m.replayed(fused_swiglu_recording(hb, hb2, gate).entries).read(hb)[i]) == e.value(
            swiglu_value(m.read(hb)[i], m.read(hb2)[i]),
        ),
{
    let s0 = Seq::<Recorded>::empty();
    let o1 = TensorOp::Neg { a: hb, out: gate };
    let o2 = TensorOp::Exp { a: gate, out: gate };
    let o3 = TensorOp::AddScalar { a: gate, bits: ONE_BITS, out: gate };
    let o4 = TensorOp::Reciprocal { a: gate, out: gate };
    let o5 = TensorOp::Mul { a: hb, b: gate, out: gate };
    let o6 = TensorOp::Mul { a: gate, b: hb2, out: hb };
    let s1 = s0.push(Recorded::Tensor("silu_neg"@, o1));
    let s2 = s1.push(Recorded::Tensor("silu_exp"@, o2));
    let s3 = s2.push(Recorded::Tensor("silu_denominator"@, o3));
    let s4 = s3.push(Recorded::Tensor("silu_reciprocal"@, o4));
    let s5 = s4.push(Recorded::Tensor("silu"@, o5));
    let s6 = s5.push(Recorded::Tensor("swiglu"@, o6));
    assert(fused_swiglu_recording(hb, hb2, gate).entries =~= s6);
    lemma_replay_push(m, s0, Recorded::Tensor("silu_neg"@, o1));
    lemma_replay_push(m, s1, Recorded::Tensor("silu_exp"@, o2));
    lemma_replay_push(m, s2, Recorded::Tensor("silu_denominator"@, o3));
    lemma_replay_push(m, s3, Recorded::Tensor("silu_reciprocal"@, o4));
    lemma_replay_push(m, s4, Recorded::Tensor("silu"@, o5));
    lemma_replay_push(m, s5, Recorded::Tensor("swiglu"@, o6));
    let x = m.read(hb)[i];
    let m1 = m.after_op(o1);
    let m2 = m1.after_op(o2);
    let m3 = m2.after_op(o3);
    let m4 = m3.after_op(o4);
    let m5 = m4.after_op(o5);
    let m6 = m5.after_op(o6);
    let one = Scalar::Bits(ONE_BITS);
    let neg = Scalar::Neg(Box::new(x));
    let exp = Scalar::Exp(Box::new(neg));
    let fused = Scalar::Add(Box::new(exp), Box::new(one));
    let kernel = Scalar::Add(Box::new(one), Box::new(exp));
    let fused_inv = Scalar::Div(Box::new(one), Box::new(fused));
    let kernel_inv = Scalar::Div(Box::new(one), Box::new(kernel));
    assert(m1.read(gate)[i] == neg && m1.read(hb)[i] == x);
    assert(m2.read(gate)[i] == exp && m2.read(hb)[i] == x);
    assert(m3.read(gate)[i] == fused && m3.read(hb)[i] == x);
    assert(m4.read(gate)[i] == fused_inv && m4.read(hb)[i] == x);
    assert(m4.read(hb2)[i] == m.read(hb2)[i]);
    let silu = Scalar::Mul(Box::new(x), Box::new(fused_inv));
    assert(m5.read(gate)[i] == silu);
    assert(m5.read(hb2)[i] == m.read(hb2)[i]);
    let u = m.read(hb2)[i];
    assert(m6.read(hb)[i] == Scalar::Mul(Box::new(silu), Box::new(u)));
    assert(e.value(fused) == e.value(exp) + e.value(one));
    assert(e.value(kernel) == e.value(one) + e.value(exp));
    assert(e.value(fused_inv) == e.value(kernel_inv));
    assert(silu_value(x) == Scalar::Mul(Box::new(x), Box::new(kernel_inv)));
    assert(e.value(silu) == e.value(silu_value(x)));
}

/// The tensors of RMSNorm have one width, and those that are written lie in parcels of
/// their own.
pub open spec fn norm_apart(
    x: TensorView,
    weight: TensorView,
    out: TensorView,
    scratch: NormScratch,
) -> bool {
    &&& x.wf()
    &&& x.shape is R1
    &&& weight.shape == x.shape
    &&& out.shape == x.shape
    &&& scratch.square.shape == x.shape
    &&& scratch.scale.shape == TensorShape::R1(1)
    &&& x.parcel != out.parcel
    &&& x.parcel != scratch.square.parcel
    &&& x.parcel != scratch.scale.parcel
    &&& weight.parcel != out.parcel
    &&& weight.parcel != scratch.square.parcel
    &&& weight.parcel != scratch.scale.parcel
    &&& out.parcel != scratch.square.parcel
    &&& out.parcel != scratch.scale.parcel
    &&& scratch.square.parcel != scratch.scale.parcel
}

/// RMSNorm, in either form, leaves in `out` what the kernel leaves there, and touches no
/// parcel but those of `out` and the scratch.
pub proof fn law_either_norm_computes_rmsnorm(
    e: Exact,
    m: Memory,
    semantic: bool,
    x: TensorView,
    weight: TensorView,
    out: TensorView,
    scratch: NormScratch,
)
    requires
        e.has_zero(),
        m.device.launches_enough(),
        norm_apart(x, weight, out, scratch),
        norm_recording(semantic, x, weight, out, scratch).error is None,
    ensures
        ({
            let after = m.replayed(norm_recording(semantic, x, weight, out, scratch).entries);
            &&& after.steps == m.steps && after.device == m.device
            &&& forall|i: int|
                0 <= i < out.numel() ==> e.value(#[trigger] after.read(out)[i]) == e.value(
                    rms_normalized(m.read(x), m.read(weight))[i],
                )
            &&& forall|p: Parcel|
                p != out.parcel && p != scratch.square.parcel && p != scratch.scale.parcel
                    ==> #[trigger] after.same_in(m, p)
        }),
{
    let after = m.replayed(norm_recording(semantic, x, weight, out, scratch).entries);
    if semantic {
        assert forall|i: int| 0 <= i < out.numel() implies e.value(#[trigger] after.read(out)[i])
            == e.value(rms_normalized(m.read(x), m.read(weight))[i]) by {
            lemma_semantic_norm(e, m, x, weight, out, scratch, i);
        }
        lemma_semantic_norm_frame(m, x, weight, out, scratch);
    } else {
        let work = Work::Rmsnorm { x, weight, o: out };
        let entry = Recorded::Kernel("rmsnorm"@, work, Grid::Groups(1, 1, 1));
        assert(norm_recording(semantic, x, weight, out, scratch).entries =~= seq![entry]);
        lemma_replay_one(m, entry);
        lemma_read_back(m, out, rms_normalized(m.read(x), m.read(weight)), out);
    }
}

/// The operations of RMSNorm, in order.
spec fn norm_ops(
    x: TensorView,
    weight: TensorView,
    out: TensorView,
    scratch: NormScratch,
) -> Seq<Recorded> {
    let square = scratch.square;
    let scale = scratch.scale;
    Seq::<Recorded>::empty().push(
        Recorded::Tensor("rms_square"@, TensorOp::Mul { a: x, b: x, out: square }),
    ).push(
        Recorded::Tensor("rms_mean"@, TensorOp::Mean { a: square, axis: 0, out: scale }),
    ).push(
        Recorded::Tensor(
            "rms_eps"@,
            TensorOp::AddScalar { a: scale, bits: RMS_EPS_BITS, out: scale },
        ),
    ).push(Recorded::Tensor("rms_sqrt"@, TensorOp::Sqrt { a: scale, out: scale })).push(
        Recorded::Tensor("rms_scale"@, TensorOp::Reciprocal { a: scale, out: scale }),
    ).push(Recorded::Tensor("rms_normalize"@, TensorOp::Mul { a: scale, b: x, out })).push(
        Recorded::Tensor("rms_weight"@, TensorOp::Mul { a: weight, b: out, out }),
    )
}

/// The memories between the operations of RMSNorm.
spec fn norm_steps(
    m: Memory,
    x: TensorView,
    weight: TensorView,
    out: TensorView,
    scratch: NormScratch,
) -> (Memory, Memory, Memory, Memory, Memory, Memory, Memory) {
    let square = scratch.square;
    let scale = scratch.scale;
    let m1 = m.after_op(TensorOp::Mul { a: x, b: x, out: square });
    let m2 = m1.after_op(TensorOp::Mean { a: square, axis: 0, out: scale });
    let m3 = m2.after_op(TensorOp::AddScalar { a: scale, bits: RMS_EPS_BITS, out: scale });
    let m4 = m3.after_op(TensorOp::Sqrt { a: scale, out: scale });
    let m5 = m4.after_op(TensorOp::Reciprocal { a: scale, out: scale });
    let m6 = m5.after_op(TensorOp::Mul { a: scale, b: x, out });
    let m7 = m6.after_op(TensorOp::Mul { a: weight, b: out, out });
    (m1, m2, m3, m4, m5, m6, m7)
}

proof fn lemma_norm_replay(
    m: Memory,
    x: TensorView,
    weight: TensorView,
    out: TensorView,
    scratch: NormScratch,
)
    requires
        norm_apart(x, weight, out, scratch),
    ensures
        m.replayed(semantic_norm_recording(x, weight, out, scratch).entries) == norm_steps(
            m,
            x,
            weight,
            out,
            scratch,
        ).6,
{
    let ops = norm_ops(x, weight, out, scratch);
    assert(semantic_norm_recording(x, weight, out, scratch).entries =~= ops);
    let s6 = ops.drop_last();
    let s5 = s6.drop_last();
    let s4 = s5.drop_last();
    let s3 = s4.drop_last();
    let s2 = s3.drop_last();
    let s1 = s2.drop_last();
    assert(s1.drop_last() =~= Seq::<Recorded>::empty());
    assert(m.replayed(s1.drop_last()) == m);
    let steps = norm_steps(m, x, weight, out, scratch);
    assert(m.replayed(s1) == steps.0);
    assert(m.replayed(s2) == steps.1);
    assert(m.replayed(s3) == steps.2);
    assert(m.replayed(s4) == steps.3);
    assert(m.replayed(s5) == steps.4);
    assert(m.replayed(s6) == steps.5);
}

proof fn lemma_semantic_norm_frame(
    m: Memory,
    x: TensorView,
    weight: TensorView,
    out: TensorView,
    scratch: NormScratch,
)
    requires
        norm_apart(x, weight, out, scratch),
    ensures
        ({
            let after = m.replayed(semantic_norm_recording(x, weight, out, scratch).entries);
            &&& after.steps == m.steps && after.device == m.device
            &&& forall|p: Parcel|
                p != out.parcel && p != scratch.square.parcel && p != scratch.scale.parcel
                    ==> #[trigger] after.same_in(m, p)
        }),
{
    lemma_norm_replay(m, x, weight, out, scratch);
}

proof fn lemma_semantic_norm(
    e: Exact,
    m: Memory,
    x: TensorView,
    weight: TensorView,
    out: TensorView,
    scratch: NormScratch,
    i: int,
)
    requires
        e.has_zero(),
        norm_apart(x, weight, out, scratch),
        0 <= i < x.numel(),
    ensures
        e.value(
            m.replayed(semantic_norm_recording(x, weight, out, scratch).entries).read(out)[i],
        ) == e.value(rms_normalized(m.read(x), m.read(weight))[i]),
{
    let square = scratch.square;
    let scale = scratch.scale;
    let n = x.numel();
    let xs = m.read(x);
    let ws = m.read(weight);
    lemma_norm_replay(m, x, weight, out, scratch);
    let (m1, m2, m3, m4, m5, m6, m7) = norm_steps(m, x, weight, out, scratch);
    let squares = |j: int| e.value(xs[j]) * e.value(xs[j]);
    let stored = |j: int| m1.read(square)[j];
    assert forall|j: int| 0 <= j < n implies #[trigger] e.values(stored)(j) == squares(j) by {
        assert(m1.read(square)[j] == Scalar::Mul(Box::new(xs[j]), Box::new(xs[j])));
    }
    lemma_value_in_order(e, stored, n);
    lemma_sum_ext(e.values(stored), squares, 0, n);
    law_rms_lanes_add_up_all_squares(e, xs);
    let count = Scalar::FromU32(n as u32);
    let serial = strided_sum(stored, 0, 1, n);
    let lanes = Scalar::WorkgroupSum(Box::new(lanes_of(square_lane(xs), WORKGROUP as nat)));
    let mean = Scalar::Div(Box::new(serial), Box::new(count));
    let mean2 = Scalar::Div(Box::new(lanes), Box::new(count));
    let eps = Scalar::Bits(RMS_EPS_BITS);
    let one = Scalar::Bits(ONE_BITS);
    let shifted = Scalar::Add(Box::new(mean), Box::new(eps));
    let shifted2 = Scalar::Add(Box::new(mean2), Box::new(eps));
    let root = Scalar::Sqrt(Box::new(shifted));
    let root2 = Scalar::Sqrt(Box::new(shifted2));
    let factor = Scalar::Div(Box::new(one), Box::new(root));
    assert(e.value(mean) == e.value(mean2));
    assert(e.value(shifted) == e.value(shifted2));
    assert(e.value(root) == e.value(root2));
    assert(rms_scale(xs) == Scalar::Div(Box::new(one), Box::new(root2)));
    assert(e.value(factor) == e.value(rms_scale(xs)));
    assert(m2.read(scale)[0] == mean);
    assert(m3.read(scale)[0] == shifted);
    assert(m4.read(scale)[0] == root);
    assert(m5.read(scale)[0] == factor);
    assert(m5.operand(x, i) == xs[i]);
    let scaled = Scalar::Mul(Box::new(factor), Box::new(xs[i]));
    let scaled2 = Scalar::Mul(Box::new(rms_scale(xs)), Box::new(xs[i]));
    assert(m6.read(out)[i] == scaled);
    assert(m6.operand(weight, i) == ws[i]);
    assert(m7.read(out)[i] == Scalar::Mul(Box::new(ws[i]), Box::new(scaled)));
    assert(e.value(scaled) == e.value(scaled2));
    assert(rms_normalized(xs, ws)[i] == Scalar::Mul(Box::new(ws[i]), Box::new(scaled2)));
}

/// The parcels that a block writes differ from each other and from those it only reads.
pub open spec fn apart(written: Seq<Parcel>, kept: Seq<Parcel>) -> bool {
    &&& forall|i: int, j: int|
        0 <= i < j < written.len() ==> #[trigger] written[i] != #[trigger] written[j]
    &&& forall|i: int, k: int|
        0 <= i < written.len() && 0 <= k < kept.len() ==> #[trigger] written[i]
            != #[trigger] kept[k]
}

/// The parcels that a feed-forward block writes.
pub open spec fn ffn_written(s: FfnSites) -> Seq<Parcel> {
    seq![
        s.x.parcel,
        s.xb.parcel,
        s.hb.parcel,
        s.hb2.parcel,
        s.gate.parcel,
        s.norm.square.parcel,
        s.norm.scale.parcel,
    ]
}

/// The parcels that a feed-forward block only reads.
pub open spec fn ffn_kept(s: FfnSites) -> Seq<Parcel> {
    seq![s.rms.parcel, s.w1.parcel, s.w2.parcel, s.w3.parcel]
}

/// The views of a feed-forward block fit together, in parcels of their own.
pub open spec fn ffn_apart(s: FfnSites) -> bool {
    let hidden = s.x.shape.dims()[0];
    let width = s.hb.shape.dims()[0];
    &&& apart(ffn_written(s), ffn_kept(s))
    &&& s.x.wf()
    &&& s.x.shape is R1
    &&& s.rms.shape == s.x.shape
    &&& s.xb.shape == s.x.shape
    &&& s.norm.square.shape == s.x.shape
    &&& s.norm.scale.shape == TensorShape::R1(1)
    &&& s.hb.wf()
    &&& s.hb.shape is R1
    &&& s.hb2.shape == s.hb.shape
    &&& s.gate.shape == s.hb.shape
    &&& s.w1.shape == TensorShape::R2(width, hidden)
    &&& s.w3.shape == TensorShape::R2(width, hidden)
    &&& s.w2.shape == TensorShape::R2(hidden, width)
}

/// The parcels of a feed-forward block, by their place in the two lists.
proof fn lemma_ffn_parcels(s: FfnSites)
    ensures
        ({
            let w = ffn_written(s);
            let k = ffn_kept(s);
            &&& w.len() == 7 && k.len() == 4
            &&& w[0] == s.x.parcel && w[1] == s.xb.parcel && w[2] == s.hb.parcel
            &&& w[3] == s.hb2.parcel && w[4] == s.gate.parcel
            &&& w[5] == s.norm.square.parcel && w[6] == s.norm.scale.parcel
            &&& k[0] == s.rms.parcel && k[1] == s.w1.parcel && k[2] == s.w2.parcel && k[3]
                == s.w3.parcel
        }),
{
}

/// A dot product in exact arithmetic.
proof fn lemma_value_gemv(e: Exact, x: Seq<Scalar>, w: Seq<Scalar>, i: int)
    requires
        e.has_zero(),
    ensures
        e.value(gemv_value(x, w, i)) == sum(
            |j: int| e.value(w[i * x.len() + j]) * e.value(x[j]),
            0,
            x.len() as int,
        ),
{
    let n = x.len() as int;
    lemma_value_in_order(e, gemv_term(x, w, i), n);
    lemma_sum_ext(
        e.values(gemv_term(x, w, i)),
        |j: int| e.value(w[i * x.len() + j]) * e.value(x[j]),
        0,
        n,
    );
}

/// SwiGLU in either form touches `hb` and the scratch only.
proof fn lemma_swiglu_replay(
    e: Exact,
    m: Memory,
    fusion: bool,
    hb: TensorView,
    hb2: TensorView,
    gate: TensorView,
)
    requires
        m.device.launches_enough(),
        hb.wf(),
        hb2.shape == hb.shape,
        gate.shape == hb.shape,
        hb.parcel != hb2.parcel,
        hb.parcel != gate.parcel,
        hb2.parcel != gate.parcel,
        swiglu_recording(fusion, hb, hb2, gate).error is None,
    ensures
        ({
            let after = m.replayed(swiglu_recording(fusion, hb, hb2, gate).entries);
            &&& forall|i: int|
                0 <= i < hb.numel() ==> e.value(#[trigger] after.read(hb)[i]) == e.value(
                    swiglu_value(m.read(hb)[i], m.read(hb2)[i]),
                )
            &&& forall|p: Parcel|
                p != hb.parcel && p != gate.parcel ==> #[trigger] after.same_in(m, p)
        }),
{
    let entries = swiglu_recording(fusion, hb, hb2, gate).entries;
    let after = m.replayed(entries);
    if fusion {
        assert forall|i: int| 0 <= i < hb.numel() implies e.value(#[trigger] after.read(hb)[i])
            == e.value(swiglu_value(m.read(hb)[i], m.read(hb2)[i])) by {
            law_fused_swiglu_computes_the_kernel(e, m, hb, hb2, gate, i);
        }
        let s5 = entries.drop_last();
        let s4 = s5.drop_last();
        let s3 = s4.drop_last();
        let s2 = s3.drop_last();
        let s1 = s2.drop_last();
        assert(s1.drop_last() =~= Seq::<Recorded>::empty());
        assert(m.replayed(s1.drop_last()) == m);
        assert forall|p: Parcel| p != hb.parcel && p != gate.parcel implies #[trigger] after.same_in(
            m,
            p,
        ) by {
            assert(m.replayed(s1).same_in(m, p));
            assert(m.replayed(s2).same_in(m, p));
            assert(m.replayed(s3).same_in(m, p));
            assert(m.replayed(s4).same_in(m, p));
            assert(m.replayed(s5).same_in(m, p));
        }
    } else {
        let entry = Recorded::Kernel("swiglu"@, Work::Swiglu { hb, hb2 }, Grid::OverTensor(hb));
        assert(entries =~= seq![entry]);
        lemma_replay_one(m, entry);
    }
}

/// A recorded feed-forward block computes the gated MLP on the normalized input, and adds
/// it to `x`: `x + w2 @ (silu(w1 @ n) * (w3 @ n))`. It touches no parcel but those that it
/// writes, and no step.
pub proof fn law_ffn_computes_the_gated_mlp(
    e: Exact,
    m: Memory,
    semantic: bool,
    fusion: bool,
    s: FfnSites,
    i: int,
)
    requires
        e.has_zero(),
        m.device.launches_enough(),
        ffn_apart(s),
        ffn_recording(semantic, fusion, s).error is None,
        0 <= i < s.x.numel(),
    ensures
        ({
            let n = m.replayed(
                norm_recording(semantic, s.x, s.rms, s.xb, s.norm).entries,
            ).read(s.xb);
            let after = m.replayed(ffn_recording(semantic, fusion, s).entries);
            let width = s.hb.numel();
            &&& after.steps == m.steps
            &&& forall|p: Parcel|
                !ffn_written(s).contains(p) ==> #[trigger] after.same_in(m, p)
            &&& forall|j: int|
                0 <= j < n.len() ==> e.value(#[trigger] n[j]) == e.value(
                    rms_normalized(m.read(s.x), m.read(s.rms))[j],
                )
            &&& e.value(after.read(s.x)[i]) == e.value(m.read(s.x)[i]) + sum(
                |j: int|
                    e.value(m.read(s.w2)[i * width + j]) * e.value(
                        swiglu_value(
                            gemv_value(n, m.read(s.w1), j),
                            gemv_value(n, m.read(s.w3), j),
                        ),
                    ),
                0,
                width,
            )
        }),
{
    lemma_ffn_parcels(s);
    law_replay_keeps_the_steps(m, ffn_recording(semantic, fusion, s).entries);
    let a = norm_recording(semantic, s.x, s.rms, s.xb, s.norm).entries;
    let g = swiglu_recording(fusion, s.hb, s.hb2, s.gate).entries;
    let e1 = Recorded::Tensor("w1"@, TensorOp::Matmul { a: s.w1, b: s.xb, out: s.hb });
    let e3 = Recorded::Tensor("w3"@, TensorOp::Matmul { a: s.w3, b: s.xb, out: s.hb2 });
    let e2 = Recorded::Tensor("w2"@, TensorOp::Matmul { a: s.w2, b: s.hb, out: s.xb });
    let er = Recorded::Tensor("residual"@, TensorOp::Add { a: s.x, b: s.xb, out: s.x });
    assert(ffn_recording(semantic, fusion, s).entries =~= (a.push(e1).push(e3) + g).push(e2).push(
        er,
    ));
    let m1 = m.replayed(a);
    lemma_replay_push(m, a, e1);
    lemma_replay_push(m, a.push(e1), e3);
    law_replays_follow_each_other(m, a.push(e1).push(e3), g);
    lemma_replay_push(m, a.push(e1).push(e3) + g, e2);
    lemma_replay_push(m, (a.push(e1).push(e3) + g).push(e2), er);
    law_either_norm_computes_rmsnorm(e, m, semantic, s.x, s.rms, s.xb, s.norm);
    let n = m1.read(s.xb);
    assert(m1.same_in(m, s.x.parcel) && m1.same_in(m, s.w1.parcel) && m1.same_in(m, s.w2.parcel)
        && m1.same_in(m, s.w3.parcel));
    lemma_read_other(m1, m, s.w1);
    let m2 = m1.after(e1);
    let width = s.hb.numel();
    let h1 = Seq::new(width as nat, |j: int| gemv_value(n, m.read(s.w1), j));
    lemma_read_back(m1, s.hb, h1, s.hb);
    assert(m2 == m1.written(s.hb, h1));
    assert(m2.same_in(m, s.w3.parcel) && m2.same_in(m1, s.xb.parcel));
    lemma_read_other(m2, m, s.w3);
    lemma_read_other(m2, m1, s.xb);
    let m3 = m2.after(e3);
    let h3 = Seq::new(width as nat, |j: int| gemv_value(n, m.read(s.w3), j));
    lemma_read_back(m2, s.hb2, h3, s.hb2);
    assert(m3 == m2.written(s.hb2, h3));
    assert(m3.same_in(m2, s.hb.parcel));
    lemma_read_other(m3, m2, s.hb);
    lemma_swiglu_replay(e, m3, fusion, s.hb, s.hb2, s.gate);
    let m4 = m3.replayed(g);
    assert(m3.same_in(m, s.w2.parcel) && m3.same_in(m, s.x.parcel));
    assert(m4.same_in(m3, s.w2.parcel) && m4.same_in(m3, s.x.parcel));
    assert(m4.same_in(m, s.w2.parcel) && m4.same_in(m, s.x.parcel));
    lemma_read_other(m4, m, s.w2);
    let hb = m4.read(s.hb);
    let m5 = m4.after(e2);
    let down = Seq::new(s.xb.numel() as nat, |j: int| gemv_value(hb, m.read(s.w2), j));
    lemma_read_back(m4, s.xb, down, s.xb);
    assert(m5 == m4.written(s.xb, down));
    assert(m5.same_in(m, s.x.parcel));
    lemma_read_other(m5, m, s.x);
    let m6 = m5.after(er);
    assert(m6.read(s.x)[i] == Scalar::Add(Box::new(m.read(s.x)[i]), Box::new(down[i])));
    assert forall|p: Parcel| !ffn_written(s).contains(p) implies #[trigger] m6.same_in(m, p) by {
        assert(m1.same_in(m, p) && m3.same_in(m1, p) && m4.same_in(m3, p));
        assert(m6.same_in(m4, p));
    }
    lemma_value_gemv(e, hb, m.read(s.w2), i);
    lemma_sum_ext(
        |j: int| e.value(m.read(s.w2)[i * hb.len() + j]) * e.value(hb[j]),
        |j: int|
            e.value(m.read(s.w2)[i * width + j]) * e.value(
                swiglu_value(gemv_value(n, m.read(s.w1), j), gemv_value(n, m.read(s.w3), j)),
            ),
        0,
        width,
    );
}

/// The parcels that an attention block writes.
pub open spec fn attention_written(s: AttentionSites) -> Seq<Parcel> {
    seq![
        s.x.parcel,
        s.xb.parcel,
        s.xb2.parcel,
        s.q.parcel,
        s.v.parcel,
        s.partial.parcel,
        s.key.parcel,
        s.value.parcel,
        s.norm.square.parcel,
        s.norm.scale.parcel,
    ]
}

/// The parcels that an attention block only reads.
pub open spec fn attention_kept(s: AttentionSites) -> Seq<Parcel> {
    seq![s.rms.parcel, s.wq.parcel, s.wk.parcel, s.wv.parcel, s.wo.parcel]
}

/// The views of an attention block fit together, in parcels of their own: the key and
/// value projections are one cached position wide, the query is made of pairs, and its
/// heads share the key heads evenly.
pub open spec fn attention_apart(s: AttentionSites) -> bool {
    let heads = heads_of(s.q.shape, s.key.shape);
    let hidden = s.x.shape.dims()[0];
    let width = s.key.shape.row() as u32;
    &&& apart(attention_written(s), attention_kept(s))
    &&& s.wf()
    &&& s.x.wf()
    &&& s.x.shape is R1
    &&& s.rms.shape == s.x.shape
    &&& s.xb.shape == s.x.shape
    &&& s.xb2.shape == s.x.shape
    &&& s.norm.square.shape == s.x.shape
    &&& s.norm.scale.shape == TensorShape::R1(1)
    &&& s.v.shape is R1
    &&& s.q.numel() == hidden
    &&& hidden % 2 == 0
    &&& heads.grouped()
    &&& heads.q_heads % heads.kv_heads == 0
    &&& s.key.shape.wf()
    &&& s.key.shape.dims()[2] > 0
    &&& s.key.shape.row() <= u32::MAX
    &&& s.wq.shape == TensorShape::R2(hidden, hidden)
    &&& s.wk.shape == TensorShape::R2(width, hidden)
    &&& s.wv.shape == TensorShape::R2(width, hidden)
    &&& s.wo.shape == TensorShape::R2(hidden, hidden)
}

/// The parcels of an attention block, by their place in the two lists.
proof fn lemma_attention_parcels(s: AttentionSites)
    ensures
        ({
            let w = attention_written(s);
            let k = attention_kept(s);
            &&& w.len() == 10 && k.len() == 5
            &&& w[0] == s.x.parcel && w[1] == s.xb.parcel && w[2] == s.xb2.parcel
            &&& w[3] == s.q.parcel && w[4] == s.v.parcel && w[5] == s.partial.parcel
            &&& w[6] == s.key.parcel && w[7] == s.value.parcel
            &&& w[8] == s.norm.square.parcel && w[9] == s.norm.scale.parcel
            &&& k[0] == s.rms.parcel && k[1] == s.wq.parcel && k[2] == s.wk.parcel
            &&& k[3] == s.wv.parcel && k[4] == s.wo.parcel
        }),
{
}

/// What an attention block attends with at a step, where `n` is its normalized input:
/// the rotated query, and the cache with the rotated key and the value of the step.
pub ghost struct Attended {
    pub q: Seq<Scalar>,
    pub key: Seq<Scalar>,
    pub value: Seq<Scalar>,
}

/// What the block attends with.
pub open spec fn attended(m: Memory, s: AttentionSites, n: Seq<Scalar>) -> Attended {
    let pos = (m.steps)(s.step).position;
    let head = s.q.shape.dims()[1];
    let width = s.key.shape.row();
    let q = Seq::new(s.q.numel() as nat, |i: int| gemv_value(n, m.read(s.wq), i));
    let k = Seq::new(width as nat, |i: int| gemv_value(n, m.read(s.wk), i));
    let v = Seq::new(width as nat, |i: int| gemv_value(n, m.read(s.wv), i));
    Attended {
        q: rotate_at(q, 0, s.q.numel() / 2, pos, head, DEFAULT_ROPE_THETA),
        key: rotate_into(
            m.read(s.key),
            pos * width,
            k,
            0,
            width / 2,
            pos,
            head,
            DEFAULT_ROPE_THETA,
        ),
        value: stored_at(m.read(s.value), pos * width, v, width),
    }
}

/// What the shapes of a recorded attention block give.
proof fn lemma_attention_sizes(semantic: bool, s: AttentionSites)
    requires
        attention_apart(s),
        attention_recording(semantic, s).error is None,
    ensures
        ({
            let v = s.views()->Ok_0;
            let heads = heads_of(s.q.shape, s.key.shape);
            let head = s.key.shape.dims()[2];
            &&& s.views() is Ok
            &&& norm_recording(semantic, s.x, s.rms, s.xb, s.norm).error is None
            &&& heads.q_heads == v.q_heads
            &&& heads.head == head
            &&& 0 < head <= ATTENTION_MAX_HEAD
            &&& s.q.numel() == v.q_heads * head
            &&& s.xb.numel() == v.q_heads * head
            &&& v.xb_heads == s.xb.reshaped(TensorShape::R2(v.q_heads, head))
            &&& v.q_flat == s.q.reshaped(TensorShape::R1(s.q.numel() as u32))
            &&& v.kv_dim == s.key.shape.row()
            &&& v.kv_dim <= s.q.numel()
            &&& v.kv_dim % 2 == 0
            &&& v.proj.parcel == s.xb2.parcel && v.proj.numel() == v.kv_dim
            &&& v.v.parcel == s.v.parcel && v.v.numel() == v.kv_dim
            &&& v.splits == splits_of(s.key.shape.dims()[0] as int)
            &&& s.partial.shape == TensorShape::R3(v.q_heads, v.splits, (head + 2) as u32)
            &&& s.value.shape == s.key.shape
            &&& s.q.shape == TensorShape::R2(v.q_heads, head)
            &&& s.key.shape == TensorShape::R3(s.key.shape.dims()[0], heads.kv_heads, head)
            &&& rope_work(s, v).refused() is None
            &&& store_work(s, v).refused() is None
            &&& partial_work(s).refused() is None
            &&& combine_work(s, v).refused() is None
            &&& v.proj.shape == TensorShape::R1(v.kv_dim)
            &&& v.v.shape == TensorShape::R1(v.kv_dim)
        }),
{
    let v = s.views()->Ok_0;
    assert(rope_work(s, v).refused() is None && store_work(s, v).refused() is None);
    assert(partial_work(s).refused() is None && combine_work(s, v).refused() is None);
    lemma_rope_store_shapes(s.q.shape, v.proj.shape, s.key.shape);
    lemma_partial_shapes(s.q.shape, s.key.shape, s.value.shape, s.partial.shape);
    assert(v.kv_dim * 1 == v.kv_dim);
}

/// The projections of the normalized input.
spec fn projections(s: AttentionSites, v: AttentionViews) -> Seq<Recorded> {
    seq![
        Recorded::Tensor("wq"@, TensorOp::Matmul { a: s.wq, b: s.xb, out: v.q_flat }),
        Recorded::Tensor("wk"@, TensorOp::Matmul { a: s.wk, b: s.xb, out: v.proj }),
        Recorded::Tensor("wv"@, TensorOp::Matmul { a: s.wv, b: s.xb, out: v.v }),
    ]
}

/// The rotation of the query and the step's key.
spec fn rope_work(s: AttentionSites, v: AttentionViews) -> Work {
    Work::RopeStore {
        q: s.q,
        k_proj: v.proj,
        k: s.key,
        step: s.step,
        theta: DEFAULT_ROPE_THETA,
    }
}

/// The store of the step's value.
spec fn store_work(s: AttentionSites, v: AttentionViews) -> Work {
    Work::CacheStore { src: v.v, dst: s.value, step: s.step }
}

/// The first pass.
spec fn partial_work(s: AttentionSites) -> Work {
    Work::AttentionPartial {
        q: s.q,
        key_cache: s.key,
        value_cache: s.value,
        partial: s.partial,
        step: s.step,
    }
}

/// The second pass.
spec fn combine_work(s: AttentionSites, v: AttentionViews) -> Work {
    Work::AttentionCombine { partial: s.partial, xb: v.xb_heads, step: s.step }
}

/// The rotation and the stores.
spec fn stores(s: AttentionSites, v: AttentionViews) -> Seq<Recorded> {
    seq![
        Recorded::Kernel("rope"@, rope_work(s, v), Grid::Over1d(rope_threads(s.q.numel()))),
        Recorded::Kernel("wv_store"@, store_work(s, v), Grid::Over1d(v.kv_dim)),
    ]
}

/// The two passes.
spec fn passes(s: AttentionSites, v: AttentionViews) -> Seq<Recorded> {
    seq![
        Recorded::Kernel(
            "attn_partial"@,
            partial_work(s),
            Grid::Groups((v.q_heads * v.splits) as u32, 1, 1),
        ),
        Recorded::Kernel("attn_combine"@, combine_work(s, v), Grid::Groups(v.q_heads, 1, 1)),
    ]
}

proof fn lemma_replay_two(m: Memory, a: Recorded, b: Recorded)
    ensures
        m.replayed(seq![a, b]) == m.after(a).after(b),
{
    assert(seq![a, b] =~= seq![a].push(b));
    lemma_replay_one(m, a);
    lemma_replay_push(m, seq![a], b);
}

/// The projections read the normalized input and the weights.
proof fn lemma_projections(m: Memory, s: AttentionSites, v: AttentionViews)
    requires
        s.xb.parcel != s.q.parcel,
        s.xb.parcel != s.xb2.parcel,
        s.q.parcel != s.xb2.parcel,
        s.q.parcel != s.v.parcel,
        s.xb2.parcel != s.v.parcel,
        s.wk.parcel != s.q.parcel,
        s.wv.parcel != s.q.parcel,
        s.wv.parcel != s.xb2.parcel,
        v.q_flat.parcel == s.q.parcel && v.q_flat.offset == s.q.offset && v.q_flat.numel()
            == s.q.numel(),
        v.proj.parcel == s.xb2.parcel,
        v.v.parcel == s.v.parcel,
        op_is_known(TensorOp::Matmul { a: s.wq, b: s.xb, out: v.q_flat }),
        op_is_known(TensorOp::Matmul { a: s.wk, b: s.xb, out: v.proj }),
        op_is_known(TensorOp::Matmul { a: s.wv, b: s.xb, out: v.v }),
    ensures
        ({
            let after = m.replayed(projections(s, v));
            let n = m.read(s.xb);
            &&& after.steps == m.steps && after.device == m.device
            &&& after.read(s.q) == Seq::new(
                s.q.numel() as nat,
                |i: int| gemv_value(n, m.read(s.wq), i),
            )
            &&& after.read(v.proj) == Seq::new(
                v.proj.numel() as nat,
                |i: int| gemv_value(n, m.read(s.wk), i),
            )
            &&& after.read(v.v) == Seq::new(
                v.v.numel() as nat,
                |i: int| gemv_value(n, m.read(s.wv), i),
            )
            &&& forall|p: Parcel|
                p != s.q.parcel && p != s.xb2.parcel && p != s.v.parcel
                    ==> #[trigger] after.same_in(m, p)
        }),
{
    let n = m.read(s.xb);
    let eq = Recorded::Tensor("wq"@, TensorOp::Matmul { a: s.wq, b: s.xb, out: v.q_flat });
    let ek = Recorded::Tensor("wk"@, TensorOp::Matmul { a: s.wk, b: s.xb, out: v.proj });
    let ev = Recorded::Tensor("wv"@, TensorOp::Matmul { a: s.wv, b: s.xb, out: v.v });
    assert(projections(s, v) =~= seq![eq, ek].push(ev));
    lemma_replay_two(m, eq, ek);
    lemma_replay_push(m, seq![eq, ek], ev);
    let q0 = Seq::new(s.q.numel() as nat, |i: int| gemv_value(n, m.read(s.wq), i));
    let k0 = Seq::new(v.proj.numel() as nat, |i: int| gemv_value(n, m.read(s.wk), i));
    let v0 = Seq::new(v.v.numel() as nat, |i: int| gemv_value(n, m.read(s.wv), i));
    let m2 = m.after(eq);
    assert(m2 == m.written(v.q_flat, q0));
    lemma_read_back(m, v.q_flat, q0, s.q);
    assert(m2.same_in(m, s.wk.parcel) && m2.same_in(m, s.xb.parcel));
    lemma_read_other(m2, m, s.wk);
    lemma_read_other(m2, m, s.xb);
    let m3 = m2.after(ek);
    assert(m3 == m2.written(v.proj, k0));
    lemma_read_back(m2, v.proj, k0, v.proj);
    assert(m3.same_in(m, s.wv.parcel) && m3.same_in(m, s.xb.parcel));
    lemma_read_other(m3, m, s.wv);
    lemma_read_other(m3, m, s.xb);
    let m4 = m3.after(ev);
    assert(m4 == m3.written(v.v, v0));
    lemma_read_back(m3, v.v, v0, v.v);
    assert(m4.same_in(m2, s.q.parcel) && m4.same_in(m3, s.xb2.parcel));
    lemma_read_other(m4, m2, s.q);
    lemma_read_other(m4, m3, v.proj);
}

/// The rotation turns the query and stores the turned key; the value is stored as it is.
proof fn lemma_stores(m: Memory, s: AttentionSites, v: AttentionViews)
    requires
        s.q.parcel != s.key.parcel,
        s.q.parcel != s.value.parcel,
        s.q.parcel != s.v.parcel,
        s.key.parcel != s.value.parcel,
        s.key.parcel != s.v.parcel,
        s.q.parcel != s.xb2.parcel,
        s.key.parcel != s.xb2.parcel,
        s.value.parcel != s.v.parcel,
        m.device.launches_enough(),
        rope_work(s, v).refused() is None,
        store_work(s, v).refused() is None,
        (m.steps)(s.step).position * s.key.shape.row() + s.key.shape.row() <= s.key.numel(),
        v.proj.parcel == s.xb2.parcel,
        v.v.parcel == s.v.parcel,
        v.proj.numel() == s.key.shape.row(),
        v.v.numel() == s.key.shape.row(),
        v.kv_dim == s.key.shape.row(),
        s.value.shape == s.key.shape,
        0 <= s.q.numel() <= u32::MAX,
        s.q.numel() % 2 == 0,
        v.kv_dim <= s.q.numel(),
        v.kv_dim % 2 == 0,
    ensures
        ({
            let after = m.replayed(stores(s, v));
            let pos = (m.steps)(s.step).position;
            let head = s.q.shape.dims()[1];
            let width = s.key.shape.row();
            &&& after.steps == m.steps && after.device == m.device
            &&& after.read(s.q) == rotate_at(
                m.read(s.q),
                0,
                s.q.numel() / 2,
                pos,
                head,
                DEFAULT_ROPE_THETA,
            )
            &&& after.read(s.key) == rotate_into(
                m.read(s.key),
                pos * width,
                m.read(v.proj),
                0,
                width / 2,
                pos,
                head,
                DEFAULT_ROPE_THETA,
            )
            &&& after.read(s.value) == stored_at(m.read(s.value), pos * width, m.read(v.v), width)
            &&& after.same_around(m, s.key)
            &&& after.same_around(m, s.value)
            &&& forall|p: Parcel|
                p != s.q.parcel && p != s.key.parcel && p != s.value.parcel
                    ==> #[trigger] after.same_in(m, p)
        }),
{
    let er = stores(s, v)[0];
    let es = stores(s, v)[1];
    assert(stores(s, v) =~= seq![er, es]);
    lemma_replay_two(m, er, es);
    let pos = (m.steps)(s.step).position;
    let head = s.q.shape.dims()[1];
    let width = s.key.shape.row();
    let threads = (m.device.threads)(Grid::Over1d(rope_threads(s.q.numel())));
    law_pair_threads_cover(threads as int, s.q.numel(), width);
    assert(m.launched(rope_work(s, v), Grid::Over1d(rope_threads(s.q.numel()))) == threads);
    assert(m.work_is_known(rope_work(s, v), threads));
    let copies = (m.device.threads)(Grid::Over1d(v.kv_dim));
    assert(covered(copies, v.v.numel()) == width);
    let q1 = rotate_at(m.read(s.q), 0, s.q.numel() / 2, pos, head, DEFAULT_ROPE_THETA);
    let k1 = rotate_into(
        m.read(s.key),
        pos * width,
        m.read(v.proj),
        0,
        width / 2,
        pos,
        head,
        DEFAULT_ROPE_THETA,
    );
    let v1 = stored_at(m.read(s.value), pos * width, m.read(v.v), width);
    let turned = m.written(s.q, q1);
    let m5 = m.after(er);
    assert(m5 == turned.written(s.key, k1));
    lemma_read_back(m, s.q, q1, s.q);
    lemma_read_back(turned, s.key, k1, s.key);
    assert(m5.same_in(m, s.v.parcel) && m5.same_in(m, s.value.parcel));
    lemma_read_other(m5, m, v.v);
    lemma_read_other(m5, m, s.value);
    assert(m5.work_is_known(store_work(s, v), copies));
    let m6 = m5.after(es);
    assert(m6 == m5.written(s.value, v1));
    lemma_read_back(m5, s.value, v1, s.value);
    assert(m6.same_in(turned, s.q.parcel) && m6.same_in(m5, s.key.parcel));
    lemma_read_other(m6, turned, s.q);
    lemma_read_other(m6, m5, s.key);
}

/// The two passes leave the attended values in `xb`.
proof fn lemma_passes(m: Memory, s: AttentionSites, v: AttentionViews)
    requires
        s.partial.parcel != s.xb.parcel,
        v.xb_heads == s.xb.reshaped(
            TensorShape::R2(v.q_heads, heads_of(s.q.shape, s.key.shape).head),
        ),
        v.xb_heads.numel() == s.xb.numel(),
        s.partial.shape == TensorShape::R3(
            v.q_heads,
            v.splits,
            (heads_of(s.q.shape, s.key.shape).head + 2) as u32,
        ),
        heads_of(s.q.shape, s.key.shape).head <= ATTENTION_MAX_HEAD,
        v.q_heads * v.splits <= u32::MAX,
        m.device.launches_enough(),
        s.partial.parcel != s.q.parcel,
        s.partial.parcel != s.key.parcel,
        s.partial.parcel != s.value.parcel,
        partial_work(s).refused() is None,
        combine_work(s, v).refused() is None,
        partial_in_bounds(
            s.q.shape,
            s.key.shape,
            s.partial.shape,
            (m.steps)(s.step),
            (v.q_heads * v.splits) as u32,
        ),
        combine_in_bounds(s.partial.shape, v.xb_heads.shape, (m.steps)(s.step), v.q_heads),
    ensures
        ({
            let after = m.replayed(passes(s, v));
            let heads = heads_of(s.q.shape, s.key.shape);
            &&& after.steps == m.steps && after.device == m.device
            &&& after.read(s.xb) == combine_pass(
                partial_pass(
                    heads,
                    m.read(s.q),
                    m.read(s.key),
                    m.read(s.value),
                    m.read(s.partial),
                    v.splits as int,
                    heads.head + 2,
                    (m.steps)(s.step).position as int,
                    v.q_heads * v.splits,
                ),
                m.read(s.xb),
                v.splits as int,
                heads.head + 2,
                heads.head as int,
                (m.steps)(s.step).position as int,
                v.q_heads as int,
            )
            &&& forall|p: Parcel|
                p != s.partial.parcel && p != s.xb.parcel ==> #[trigger] after.same_in(m, p)
        }),
{
    let e1 = passes(s, v)[0];
    let e2 = passes(s, v)[1];
    assert(passes(s, v) =~= seq![e1, e2]);
    lemma_replay_two(m, e1, e2);
    let heads = heads_of(s.q.shape, s.key.shape);
    let p = partial_pass(
        heads,
        m.read(s.q),
        m.read(s.key),
        m.read(s.value),
        m.read(s.partial),
        v.splits as int,
        heads.head + 2,
        (m.steps)(s.step).position as int,
        v.q_heads * v.splits,
    );
    let groups = (v.q_heads * v.splits) as u32;
    assert(m.launched(partial_work(s), Grid::Groups(groups, 1, 1)) == groups);
    assert(m.work_is_known(partial_work(s), groups));
    let m7 = m.after(e1);
    assert(m7 == m.written(s.partial, p));
    lemma_read_back(m, s.partial, p, s.partial);
    assert(m7.same_in(m, s.xb.parcel));
    lemma_read_other(m7, m, v.xb_heads);
    assert(m.read(v.xb_heads) =~= m.read(s.xb));
    let out = combine_pass(
        p,
        m.read(s.xb),
        v.splits as int,
        heads.head + 2,
        heads.head as int,
        (m.steps)(s.step).position as int,
        v.q_heads as int,
    );
    assert(m7.launched(combine_work(s, v), Grid::Groups(v.q_heads, 1, 1)) == v.q_heads);
    assert(m7.work_is_known(combine_work(s, v), v.q_heads));
    let m8 = m7.after(e2);
    assert(m8 == m7.written(v.xb_heads, out));
    lemma_read_back(m7, v.xb_heads, out, s.xb);
}

/// The entries of a recorded attention block, stage by stage.
proof fn lemma_attention_stages(m: Memory, semantic: bool, s: AttentionSites)
    requires
        attention_recording(semantic, s).error is None,
    ensures
        ({
            let v = s.views()->Ok_0;
            let wo = Recorded::Tensor("wo"@, TensorOp::Matmul { a: s.wo, b: s.xb, out: s.xb2 });
            let residual = Recorded::Tensor(
                "residual"@,
                TensorOp::Add { a: s.x, b: s.xb2, out: s.x },
            );
            m.replayed(attention_recording(semantic, s).entries) == m.replayed(
                norm_recording(semantic, s.x, s.rms, s.xb, s.norm).entries,
            ).replayed(projections(s, v)).replayed(stores(s, v)).replayed(passes(s, v)).after(
                wo,
            ).after(residual)
        }),
{
    law_attention_order(semantic, s);
    let v = s.views()->Ok_0;
    let a = norm_recording(semantic, s.x, s.rms, s.xb, s.norm).entries;
    let b = projections(s, v);
    let c = stores(s, v);
    let d = passes(s, v);
    let eo = Recorded::Tensor("wo"@, TensorOp::Matmul { a: s.wo, b: s.xb, out: s.xb2 });
    let ex = Recorded::Tensor("residual"@, TensorOp::Add { a: s.x, b: s.xb2, out: s.x });
    assert(attention_recording(semantic, s).entries =~= a + b + c + d + seq![eo, ex]);
    law_replays_follow_each_other(m, a + b + c + d, seq![eo, ex]);
    law_replays_follow_each_other(m, a + b + c, d);
    law_replays_follow_each_other(m, a + b, c);
    law_replays_follow_each_other(m, a, b);
    lemma_replay_two(m.replayed(a + b + c + d), eo, ex);
}

/// The memory before the output projection of a recorded attention block: the attended
/// values in `xb`, and everything that is still read as before.
proof fn lemma_attention_replay(
    e: Exact,
    m: Memory,
    semantic: bool,
    s: AttentionSites,
) -> (before_output: Memory)
    requires
        e.has_zero(),
        m.device.launches_enough(),
        attention_apart(s),
        attention_recording(semantic, s).error is None,
        (m.steps)(s.step).position < s.key.shape.dims()[0],
    ensures
        ({
            let v = s.views()->Ok_0;
            let heads = heads_of(s.q.shape, s.key.shape);
            let n = m.replayed(
                norm_recording(semantic, s.x, s.rms, s.xb, s.norm).entries,
            ).read(s.xb);
            let a = attended(m, s, n);
            let wo = Recorded::Tensor("wo"@, TensorOp::Matmul { a: s.wo, b: s.xb, out: s.xb2 });
            let residual = Recorded::Tensor(
                "residual"@,
                TensorOp::Add { a: s.x, b: s.xb2, out: s.x },
            );
            &&& m.replayed(attention_recording(semantic, s).entries) == before_output.after(
                wo,
            ).after(residual)
            &&& forall|p: Parcel|
                !attention_written(s).contains(p) ==> #[trigger] before_output.same_in(m, p)
            &&& before_output.same_around(m, s.key)
            &&& before_output.same_around(m, s.value)
            &&& before_output.same_in(m, s.x.parcel)
            &&& before_output.same_in(m, s.wo.parcel)
            &&& before_output.read(s.key) == a.key
            &&& before_output.read(s.value) == a.value
            &&& before_output.read(s.xb) == combine_pass(
                partial_pass(
                    heads,
                    a.q,
                    a.key,
                    a.value,
                    m.read(s.partial),
                    v.splits as int,
                    heads.head + 2,
                    (m.steps)(s.step).position as int,
                    v.q_heads * v.splits,
                ),
                n,
                v.splits as int,
                heads.head + 2,
                heads.head as int,
                (m.steps)(s.step).position as int,
                v.q_heads as int,
            )
        }),
{
    lemma_attention_sizes(semantic, s);
    lemma_attention_stages(m, semantic, s);
    let v = s.views()->Ok_0;
    lemma_attention_parcels(s);
    law_either_norm_computes_rmsnorm(e, m, semantic, s.x, s.rms, s.xb, s.norm);
    let m1 = m.replayed(norm_recording(semantic, s.x, s.rms, s.xb, s.norm).entries);
    let n = m1.read(s.xb);
    let a = attended(m, s, n);
    assert(m1.same_in(m, s.wq.parcel) && m1.same_in(m, s.wk.parcel) && m1.same_in(m, s.wv.parcel));
    lemma_read_other(m1, m, s.wq);
    lemma_read_other(m1, m, s.wk);
    lemma_read_other(m1, m, s.wv);
    lemma_passes_in_bounds(
        s.q.shape,
        s.key.shape,
        s.partial.shape,
        v.xb_heads.shape,
        (m.steps)(s.step),
    );
    lemma_index(
        (m.steps)(s.step).position as int,
        s.key.shape.row(),
        s.key.shape.dims()[0] as int,
        s.key.shape.row(),
    );
    lemma_projections(m1, s, v);
    let m4 = m1.replayed(projections(s, v));
    assert(m4.same_in(m1, s.key.parcel) && m1.same_in(m, s.key.parcel));
    assert(m4.same_in(m1, s.value.parcel) && m1.same_in(m, s.value.parcel));
    lemma_read_other(m4, m, s.key);
    lemma_read_other(m4, m, s.value);
    lemma_stores(m4, s, v);
    let m6 = m4.replayed(stores(s, v));
    assert(m6.read(s.q) == a.q && m6.read(s.key) == a.key && m6.read(s.value) == a.value);
    assert(m6.same_in(m4, s.xb.parcel) && m4.same_in(m1, s.xb.parcel));
    assert(m6.same_in(m4, s.partial.parcel) && m4.same_in(m1, s.partial.parcel) && m1.same_in(
        m,
        s.partial.parcel,
    ));
    lemma_read_other(m6, m1, s.xb);
    lemma_read_other(m6, m, s.partial);
    lemma_passes(m6, s, v);
    let m8 = m6.replayed(passes(s, v));
    assert(m8.same_in(m6, s.key.parcel) && m8.same_in(m6, s.value.parcel));
    lemma_read_other(m8, m6, s.key);
    lemma_read_other(m8, m6, s.value);
    assert(m4.same_in(m, s.key.parcel) && m4.same_in(m, s.value.parcel));
    assert(m8.same_around(m, s.key) && m8.same_around(m, s.value));
    assert(m8.same_in(m6, s.x.parcel) && m6.same_in(m4, s.x.parcel) && m4.same_in(m1, s.x.parcel)
        && m1.same_in(m, s.x.parcel));
    assert(m8.same_in(m6, s.wo.parcel) && m6.same_in(m4, s.wo.parcel) && m4.same_in(
        m1,
        s.wo.parcel,
    ) && m1.same_in(m, s.wo.parcel));
    assert forall|p: Parcel| !attention_written(s).contains(p) implies #[trigger] m8.same_in(
        m,
        p,
    ) by {
        assert(m1.same_in(m, p) && m4.same_in(m1, p) && m6.same_in(m4, p) && m8.same_in(m6, p));
    }
    m8
}

/// A recorded attention block computes causal attention on the normalized input, and adds
/// its output projection to `x`: the query and the step's key are rotated, the step's key
/// and value are stored in the cache, and the attended values are those of serial
/// attention over the cache up to the step's position. It touches no parcel but those that
/// it writes, no step, and in the parcels of the cache no other layer.
pub proof fn law_attention_block_computes_attention(
    e: Exact,
    m: Memory,
    semantic: bool,
    s: AttentionSites,
    i: int,
)
    requires
        e.has_zero(),
        e.has_exponential(),
        m.device.launches_enough(),
        attention_apart(s),
        attention_recording(semantic, s).error is None,
        (m.steps)(s.step).position < s.key.shape.dims()[0],
        0 <= i < s.x.numel(),
    ensures
        ({
            let heads = heads_of(s.q.shape, s.key.shape);
            let head = heads.head as int;
            let pos = (m.steps)(s.step).position as int;
            let n = m.replayed(
                norm_recording(semantic, s.x, s.rms, s.xb, s.norm).entries,
            ).read(s.xb);
            let a = attended(m, s, n);
            let after = m.replayed(attention_recording(semantic, s).entries);
            let width = s.xb.numel();
            &&& after.steps == m.steps
            &&& forall|p: Parcel|
                !attention_written(s).contains(p) ==> #[trigger] after.same_in(m, p)
            &&& after.same_around(m, s.key)
            &&& after.same_around(m, s.value)
            &&& forall|j: int|
                0 <= j < n.len() ==> e.value(#[trigger] n[j]) == e.value(
                    rms_normalized(m.read(s.x), m.read(s.rms))[j],
                )
            &&& after.read(s.key) == a.key
            &&& after.read(s.value) == a.value
            &&& e.value(after.read(s.x)[i]) == e.value(m.read(s.x)[i]) + sum(
                |j: int|
                    e.value(m.read(s.wo)[i * width + j]) * e.value(
                        attention_value(heads, a.q, a.key, a.value, j / head, pos, j % head),
                    ),
                0,
                width,
            )
        }),
{
    lemma_attention_sizes(semantic, s);
    let v = s.views()->Ok_0;
    let heads = heads_of(s.q.shape, s.key.shape);
    let head = heads.head as int;
    let pos = (m.steps)(s.step).position as int;
    let m1 = m.replayed(norm_recording(semantic, s.x, s.rms, s.xb, s.norm).entries);
    let n = m1.read(s.xb);
    let a = attended(m, s, n);
    law_replay_keeps_the_steps(m, attention_recording(semantic, s).entries);
    lemma_attention_parcels(s);
    law_either_norm_computes_rmsnorm(e, m, semantic, s.x, s.rms, s.xb, s.norm);
    let m8 = lemma_attention_replay(e, m, semantic, s);
    let eo = Recorded::Tensor("wo"@, TensorOp::Matmul { a: s.wo, b: s.xb, out: s.xb2 });
    let ex = Recorded::Tensor("residual"@, TensorOp::Add { a: s.x, b: s.xb2, out: s.x });
    let mixed = m8.read(s.xb);
    let width = s.xb.numel();
    lemma_read_other(m8, m, s.wo);
    let m9 = m8.after(eo);
    let out = Seq::new(s.xb2.numel() as nat, |j: int| gemv_value(mixed, m.read(s.wo), j));
    assert(m9 == m8.written(s.xb2, out));
    lemma_read_back(m8, s.xb2, out, s.xb2);
    assert(m9.same_in(m, s.x.parcel));
    lemma_read_other(m9, m, s.x);
    let m10 = m9.after(ex);
    assert(m10.read(s.x)[i] == Scalar::Add(Box::new(m.read(s.x)[i]), Box::new(out[i])));
    assert forall|p: Parcel| !attention_written(s).contains(p) implies #[trigger] m10.same_in(
        m,
        p,
    ) by {
        assert(m8.same_in(m, p) && m10.same_in(m8, p));
    }
    assert(m10.same_in(m8, s.key.parcel) && m10.same_in(m8, s.value.parcel));
    lemma_read_other(m10, m8, s.key);
    lemma_read_other(m10, m8, s.value);
    assert(m10.same_around(m, s.key) && m10.same_around(m, s.value));
    lemma_value_gemv(e, mixed, m.read(s.wo), i);
    let serial = |j: int|
        attention_value(heads, a.q, a.key, a.value, j / head, pos, j % head);
    assert forall|j: int| 0 <= j < width implies e.value(mixed[j]) == e.value(
        #[trigger] serial(j),
    ) by {
        lemma_attended_element(e, m, s, v, n, a, j);
    }
    let got = |j: int| e.value(m.read(s.wo)[i * mixed.len() + j]) * e.value(mixed[j]);
    let want = |j: int| e.value(m.read(s.wo)[i * width + j]) * e.value(
        attention_value(heads, a.q, a.key, a.value, j / head, pos, j % head),
    );
    assert forall|j: int| 0 <= j < width implies #[trigger] got(j) == want(j) by {
        assert(e.value(mixed[j]) == e.value(serial(j)));
    }
    lemma_sum_ext(got, want, 0, width);
}

/// One element of what the two passes leave.
proof fn lemma_attended_element(
    e: Exact,
    m: Memory,
    s: AttentionSites,
    v: AttentionViews,
    n: Seq<Scalar>,
    a: Attended,
    j: int,
)
    requires
        e.has_zero(),
        e.has_exponential(),
        ({
            let heads = heads_of(s.q.shape, s.key.shape);
            &&& heads.q_heads == v.q_heads
            &&& 0 < heads.head <= ATTENTION_MAX_HEAD
            &&& n.len() == v.q_heads * heads.head
            &&& v.splits == splits_of(s.key.shape.dims()[0] as int)
            &&& s.partial.shape == TensorShape::R3(v.q_heads, v.splits, (heads.head + 2) as u32)
        }),
        (m.steps)(s.step).position < s.key.shape.dims()[0],
        0 <= j < n.len(),
    ensures
        ({
            let heads = heads_of(s.q.shape, s.key.shape);
            let pos = (m.steps)(s.step).position as int;
            e.value(
                combine_pass(
                    partial_pass(
                        heads,
                        a.q,
                        a.key,
                        a.value,
                        m.read(s.partial),
                        v.splits as int,
                        heads.head + 2,
                        pos,
                        v.q_heads * v.splits,
                    ),
                    n,
                    v.splits as int,
                    heads.head + 2,
                    heads.head as int,
                    pos,
                    v.q_heads as int,
                )[j],
            ) == e.value(
                attention_value(
                    heads,
                    a.q,
                    a.key,
                    a.value,
                    j / heads.head as int,
                    pos,
                    j % heads.head as int,
                ),
            )
        }),
{
    let heads = heads_of(s.q.shape, s.key.shape);
    let head = heads.head as int;
    let pos = (m.steps)(s.step).position as int;
    let h = j / head;
    let d = j % head;
    let q_heads = v.q_heads as int;
    let splits = v.splits as int;
    let slot = head + 2;
    assert(0 <= h < q_heads && 0 <= d < head && h * head + d == j) by (nonlinear_arith)
        requires
            0 <= j < q_heads * head,
            0 < head,
            h == j / head,
            d == j % head,
    ;
    assert(q_heads * (splits * slot) == q_heads * splits * slot) by (nonlinear_arith);
    assert(q_heads * splits * slot >= 0) by (nonlinear_arith)
        requires
            q_heads >= 0,
            splits >= 0,
            slot >= 0,
    ;
    law_live_splits_come_first(0, pos, s.key.shape.dims()[0] as int);
    let f = Flash { heads, q: a.q, key: a.key, value: a.value, h, pos };
    law_two_passes_are_attention(e, f, m.read(s.partial), n, splits, slot, d);
}

/// A parcel that is none of the `n` from `id` on.
pub open spec fn outside(p: Parcel, id: nat, n: nat) -> bool {
    !(id <= p.id < id + n)
}

/// The scratch that a causal attention block allocates fits together with activations,
/// weights and a cache that lie elsewhere, so what its recording computes is known.
pub proof fn law_attention_block_sites_fit(
    block: CausalAttentionBlock,
    id: nat,
    hidden: u32,
    query_heads: u32,
    kv_heads: u32,
    seq_len: u32,
    x: TensorView,
    weights: CausalAttentionBlockWeights,
    cache: KvLayer,
    step: Parcel,
)
    requires
        splits_evenly(hidden, query_heads),
        block.is_at(id, hidden, query_heads, seq_len),
        attention_shapes(hidden, query_heads, kv_heads, seq_len, x, weights, cache),
        hidden > 0,
        hidden % 2 == 0,
        kv_heads > 0,
        query_heads % kv_heads == 0,
        cache.key.shape.wf(),
        x.wf(),
        apart(
            seq![x.parcel, cache.key.parcel, cache.value.parcel],
            seq![
                weights.norm.parcel,
                weights.query.parcel,
                weights.key.parcel,
                weights.value.parcel,
                weights.output.parcel,
            ],
        ),
        outside(x.parcel, id, 7),
        outside(cache.key.parcel, id, 7),
        outside(cache.value.parcel, id, 7),
        outside(weights.norm.parcel, id, 7),
        outside(weights.query.parcel, id, 7),
        outside(weights.key.parcel, id, 7),
        outside(weights.value.parcel, id, 7),
        outside(weights.output.parcel, id, 7),
    ensures
        attention_apart(block.sites(x, weights, cache, step)),
{
    let s = block.sites(x, weights, cache, step);
    lemma_head_width(hidden, query_heads, kv_heads);
    assert(hidden / query_heads > 0) by {
        if hidden / query_heads == 0 {
            assert(query_heads * 0 == 0);
        }
    }
    let outer = seq![x.parcel, cache.key.parcel, cache.value.parcel];
    assert(outer[0] == x.parcel && outer[1] == cache.key.parcel && outer[2] == cache.value.parcel);
    let kept = seq![
        weights.norm.parcel,
        weights.query.parcel,
        weights.key.parcel,
        weights.value.parcel,
        weights.output.parcel,
    ];
    assert(kept[0] == weights.norm.parcel && kept[1] == weights.query.parcel && kept[2]
        == weights.key.parcel && kept[3] == weights.value.parcel && kept[4]
        == weights.output.parcel);
}

/// The scratch that a SwiGLU block allocates fits together with activations and weights
/// that lie elsewhere, so what its recording computes is known.
pub proof fn law_swiglu_block_sites_fit(
    block: SwiGluBlock,
    id: nat,
    hidden: u32,
    intermediate: u32,
    x: TensorView,
    weights: SwiGluBlockWeights,
)
    requires
        block.is_at(id, hidden, intermediate),
        x.wf(),
        x.shape == TensorShape::R1(hidden),
        weights.norm.shape == TensorShape::R1(hidden),
        weights.gate.shape == TensorShape::R2(intermediate, hidden),
        weights.up.shape == TensorShape::R2(intermediate, hidden),
        weights.down.shape == TensorShape::R2(hidden, intermediate),
        apart(
            seq![x.parcel],
            seq![
                weights.norm.parcel,
                weights.gate.parcel,
                weights.down.parcel,
                weights.up.parcel,
            ],
        ),
        outside(x.parcel, id, 6),
        outside(weights.norm.parcel, id, 6),
        outside(weights.gate.parcel, id, 6),
        outside(weights.down.parcel, id, 6),
        outside(weights.up.parcel, id, 6),
    ensures
        ffn_apart(block.sites(x, weights)),
{
    let outer = seq![x.parcel];
    assert(outer[0] == x.parcel);
    let kept = seq![
        weights.norm.parcel,
        weights.gate.parcel,
        weights.down.parcel,
        weights.up.parcel,
    ];
    assert(kept[0] == weights.norm.parcel && kept[1] == weights.gate.parcel && kept[2]
        == weights.down.parcel && kept[3] == weights.up.parcel);
}

} // verus!
