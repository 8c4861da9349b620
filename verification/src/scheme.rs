//! Recorded work.
//!
//! A scheme is the list of dispatches that a device replays. Recording holds a kernel
//! to its shape contract; it neither submits nor waits.
use crate::contract::{mismatch, Bound, ContractError};
use crate::kernels::attention::{attention_bounds, check_attention};
use crate::kernels::elementwise::{
    cache_store_bounds, check_cache_store, check_embed, check_gemv, check_swiglu, embed_bounds,
    gemv_bounds, swiglu_bounds,
};
use crate::kernels::flash::{
    check_attention_combine, check_attention_partial, combine_bounds, partial_bounds,
};
use crate::kernels::norm::{
    check_rmsnorm, check_rmsnorm_inplace, rmsnorm_bounds, rmsnorm_inplace_bounds,
};
use crate::kernels::rope::{check_rope, check_rope_store, rope_bounds, rope_store_bounds};
use crate::tensor::{Parcel, TensorView};
use vstd::prelude::*;

verus! {

/// A kernel and the tensors it is bound to.
#[derive(Clone, Copy, PartialEq, Eq, Structural, Debug)]
pub enum Work {
    Embed { table: TensorView, step: Parcel, x: TensorView },
    Gemv { x: TensorView, w: TensorView, xout: TensorView, step: Parcel },
    Rmsnorm { x: TensorView, weight: TensorView, o: TensorView },
    RmsnormInplace { x: TensorView, weight: TensorView },
    /// `theta` is a bit pattern.
    Rope { q: TensorView, k: TensorView, step: Parcel, theta: u32 },
    /// `theta` is a bit pattern.
    RopeStore { q: TensorView, k_proj: TensorView, k: TensorView, step: Parcel, theta: u32 },
    CacheStore { src: TensorView, dst: TensorView, step: Parcel },
    AttentionPartial {
        q: TensorView,
        key_cache: TensorView,
        value_cache: TensorView,
        partial: TensorView,
        step: Parcel,
    },
    AttentionCombine { partial: TensorView, xb: TensorView, step: Parcel },
    Attention {
        q: TensorView,
        att: TensorView,
        xb: TensorView,
        key_cache: TensorView,
        value_cache: TensorView,
        step: Parcel,
    },
    Swiglu { hb: TensorView, hb2: TensorView },
}

/// A tensor operation of the device runtime.
#[derive(Clone, Copy, PartialEq, Eq, Structural, Debug)]
pub enum TensorOp {
    Add { a: TensorView, b: TensorView, out: TensorView },
    Mul { a: TensorView, b: TensorView, out: TensorView },
    Matmul { a: TensorView, b: TensorView, out: TensorView },
    /// Mean over `axis`.
    Mean { a: TensorView, axis: usize, out: TensorView },
    /// `bits` is the bit pattern of the scalar.
    AddScalar { a: TensorView, bits: u32, out: TensorView },
    Sqrt { a: TensorView, out: TensorView },
    Reciprocal { a: TensorView, out: TensorView },
    Neg { a: TensorView, out: TensorView },
    Exp { a: TensorView, out: TensorView },
}

/// How many threads a dispatch has.
#[derive(Clone, Copy, PartialEq, Eq, Structural, Debug)]
pub enum Grid {
    /// At least this many threads.
    Over1d(u32),
    /// A thread for each element.
    OverTensor(TensorView),
    /// This many workgroups along each axis.
    Groups(u32, u32, u32),
}

/// One entry of a scheme.
#[derive(Debug)]
pub enum Entry {
    Kernel { label: String, work: Work, grid: Grid },
    Tensor { label: String, op: TensorOp },
    /// Start of a group.
    Open { label: String },
    /// End of the innermost open group.
    Close,
}

/// What an entry records.
pub ghost enum Recorded {
    Kernel(Seq<char>, Work, Grid),
    Tensor(Seq<char>, TensorOp),
    Open(Seq<char>),
    Close,
}

impl View for Entry {
    type V = Recorded;

    open spec fn view(&self) -> Recorded {
        match self {
            Entry::Kernel { label, work, grid } => Recorded::Kernel(label@, *work, *grid),
            Entry::Tensor { label, op } => Recorded::Tensor(label@, *op),
            Entry::Open { label } => Recorded::Open(label@),
            Entry::Close => Recorded::Close,
        }
    }
}

/// A list of recorded entries, and how to record.
pub struct Scheme {
    /// Whether the device runtime fuses tensor operations.
    pub automatic_fusion: bool,
    /// Whether RMSNorm is recorded as tensor operations under automatic fusion.
    pub semantic_norm: bool,
    pub entries: Vec<Entry>,
}

impl View for Scheme {
    type V = Seq<Recorded>;

    open spec fn view(&self) -> Seq<Recorded> {
        self.entries@.map_values(|e: Entry| e@)
    }
}

impl Work {
    /// The tensors that the kernel's contract speaks of.
    pub open spec fn bounds(self) -> Seq<Bound> {
        match self {
            Work::Embed { table, step: _, x } => embed_bounds(table.shape, x.shape),
            Work::Gemv { x, w, xout, step: _ } => gemv_bounds(x.shape, w.shape, xout.shape),
            Work::Rmsnorm { x, weight, o } => rmsnorm_bounds(x.shape, weight.shape, o.shape),
            Work::RmsnormInplace { x, weight } => rmsnorm_inplace_bounds(x.shape, weight.shape),
            Work::Rope { q, k, step: _, theta: _ } => rope_bounds(q.shape, k.shape),
            Work::RopeStore { q, k_proj, k, step: _, theta: _ } => rope_store_bounds(
                q.shape,
                k_proj.shape,
                k.shape,
            ),
            Work::CacheStore { src, dst, step: _ } => cache_store_bounds(src.shape, dst.shape),
            Work::AttentionPartial { q, key_cache, value_cache, partial, step: _ } => partial_bounds(
                q.shape,
                key_cache.shape,
                value_cache.shape,
                partial.shape,
            ),
            Work::AttentionCombine { partial, xb, step: _ } => combine_bounds(
                partial.shape,
                xb.shape,
            ),
            Work::Attention { q, att, xb, key_cache, value_cache, step: _ } => attention_bounds(
                q.shape,
                att.shape,
                xb.shape,
                key_cache.shape,
                value_cache.shape,
            ),
            Work::Swiglu { hb, hb2 } => swiglu_bounds(hb.shape, hb2.shape),
        }
    }

    /// The first thing wrong with the tensors.
    pub open spec fn refused(self) -> Option<ContractError> {
        mismatch(self.bounds())
    }

    /// Holds the tensors to the kernel's contract.
    pub fn check(self) -> (r: Result<(), ContractError>)
        ensures
            match r {
                Ok(()) => self.refused() is None,
                Err(e) => self.refused() == Some(e),
            },
    {
        match self {
            Work::Embed { table, step: _, x } => check_embed(table.shape, x.shape),
            Work::Gemv { x, w, xout, step: _ } => check_gemv(x.shape, w.shape, xout.shape),
            Work::Rmsnorm { x, weight, o } => check_rmsnorm(x.shape, weight.shape, o.shape),
            Work::RmsnormInplace { x, weight } => check_rmsnorm_inplace(x.shape, weight.shape),
            Work::Rope { q, k, step: _, theta: _ } => check_rope(q.shape, k.shape),
            Work::RopeStore { q, k_proj, k, step: _, theta: _ } => check_rope_store(
                q.shape,
                k_proj.shape,
                k.shape,
            ),
            Work::CacheStore { src, dst, step: _ } => check_cache_store(src.shape, dst.shape),
            Work::AttentionPartial { q, key_cache, value_cache, partial, step: _ } =>
                check_attention_partial(
                q.shape,
                key_cache.shape,
                value_cache.shape,
                partial.shape,
            ),
            Work::AttentionCombine { partial, xb, step: _ } => check_attention_combine(
                partial.shape,
                xb.shape,
            ),
            Work::Attention { q, att, xb, key_cache, value_cache, step: _ } => check_attention(
                q.shape,
                att.shape,
                xb.shape,
                key_cache.shape,
                value_cache.shape,
            ),
            Work::Swiglu { hb, hb2 } => check_swiglu(hb.shape, hb2.shape),
        }
    }
}

/// An entry that the device dispatches.
pub open spec fn is_node(r: Recorded) -> bool {
    r is Kernel || r is Tensor
}

/// How many entries the device dispatches.
pub open spec fn node_count(recorded: Seq<Recorded>) -> nat
    decreases recorded.len(),
{
    if recorded.len() == 0 {
        0
    } else {
        node_count(recorded.drop_last()) + (if is_node(recorded.last()) {
            1nat
        } else {
            0
        })
    }
}

/// Whether `AMMON_SEMANTIC_NORM` with this value asks for RMSNorm as tensor operations.
pub fn semantic_norm_requested(value: Option<&str>) -> (r: bool)
    ensures
        r == (value matches Some(v) && v@ == "1"@),
{
    match value {
        Some(v) => {
            proof {
                reveal_strlit("1");
            }
            if v.unicode_len() == 1 && v.get_char(0) == '1' {
                assert(v@ =~= "1"@);
                true
            } else {
                false
            }
        },
        None => false,
    }
}

impl Scheme {
    /// An empty scheme.
    pub fn new(automatic_fusion: bool, semantic_norm: bool) -> (r: Scheme)
        ensures
            r@ == Seq::<Recorded>::empty(),
            r.automatic_fusion == automatic_fusion,
            r.semantic_norm == semantic_norm,
    {
        let r = Scheme { automatic_fusion, semantic_norm, entries: Vec::new() };
        assert(r@ =~= Seq::<Recorded>::empty());
        r
    }

    /// Nothing but the entries changed.
    pub open spec fn same_options(self, other: Scheme) -> bool {
        self.automatic_fusion == other.automatic_fusion && self.semantic_norm
            == other.semantic_norm
    }

    fn push(&mut self, e: Entry)
        ensures
            final(self)@ == old(self)@.push(e@),
            final(self).same_options(*old(self)),
    {
        self.entries.push(e);
        assert(self@ =~= old(self)@.push(e@));
    }

    /// Records a dispatch of a kernel, where its tensors meet its contract.
    pub fn dispatch(&mut self, label: &str, work: Work, grid: Grid) -> (r: Result<
        (),
        ContractError,
    >)
        ensures
            final(self).same_options(*old(self)),
            match r {
                Ok(()) => {
                    &&& work.refused() is None
                    &&& final(self)@ == old(self)@.push(Recorded::Kernel(label@, work, grid))
                },
                Err(e) => {
                    &&& work.refused() == Some(e)
                    &&& final(self)@ == old(self)@
                },
            },
    {
        match work.check() {
            Ok(()) => {
                self.push(Entry::Kernel { label: label.to_owned(), work, grid });
                Ok(())
            },
            Err(e) => Err(e),
        }
    }

    /// Records a tensor operation.
    pub fn tensor_op(&mut self, label: &str, op: TensorOp)
        ensures
            final(self).same_options(*old(self)),
            final(self)@ == old(self)@.push(Recorded::Tensor(label@, op)),
    {
        self.push(Entry::Tensor { label: label.to_owned(), op });
    }

    /// Starts a group.
    pub(crate) fn open_group(&mut self, label: &str)
        ensures
            final(self).same_options(*old(self)),
            final(self)@ == old(self)@.push(Recorded::Open(label@)),
    {
        self.push(Entry::Open { label: label.to_owned() });
    }

    /// Ends the innermost group.
    pub(crate) fn close_group(&mut self)
        ensures
            final(self).same_options(*old(self)),
            final(self)@ == old(self)@.push(Recorded::Close),
    {
        self.push(Entry::Close);
    }

    /// Drops what was recorded after the first `len` entries.
    pub(crate) fn rewind(&mut self, len: usize)
        requires
            len <= old(self)@.len(),
        ensures
            final(self).same_options(*old(self)),
            final(self)@ == old(self)@.take(len as int),
    {
        self.entries.truncate(len);
        assert(self@ =~= old(self)@.take(len as int));
    }

    /// How many entries the device dispatches.
    pub fn ir_node_count(&self) -> (r: usize)
        ensures
            r == node_count(self@),
    {
        let mut n: usize = 0;
        let mut i: usize = 0;
        assert(self@.take(0) =~= Seq::<Recorded>::empty());
        while i < self.entries.len()
            invariant
                i <= self.entries@.len(),
                n <= i,
                n == node_count(self@.take(i as int)),
            decreases self.entries@.len() - i,
        {
            assert(self@.take(i + 1).drop_last() =~= self@.take(i as int));
            assert(self@.take(i + 1).last() == self.entries@[i as int]@);
            match &self.entries[i] {
                Entry::Kernel { label: _, work: _, grid: _ } => {
                    n = n + 1;
                },
                Entry::Tensor { label: _, op: _ } => {
                    n = n + 1;
                },
                Entry::Open { label: _ } => {},
                Entry::Close => {},
            }
            i = i + 1;
        }
        assert(self@.take(i as int) =~= self@);
        n
    }
}

/// Entries that follow each other add up their nodes.
pub proof fn law_node_counts_add_up(a: Seq<Recorded>, b: Seq<Recorded>)
    ensures
        node_count(a + b) == node_count(a) + node_count(b),
    decreases b.len(),
{
    if b.len() == 0 {
        assert(a + b =~= a);
    } else {
        law_node_counts_add_up(a, b.drop_last());
        assert((a + b).drop_last() =~= a + b.drop_last());
        assert((a + b).last() == b.last());
    }
}

/// A dispatch or an operation is a node; the start and the end of a group are none.
pub proof fn law_one_entry_is_one_node_or_none(r: Recorded)
    ensures
        node_count(Seq::empty()) == 0,
        (r is Kernel || r is Tensor) ==> node_count(seq![r]) == 1,
        (r is Open || r is Close) ==> node_count(seq![r]) == 0,
{
    reveal_with_fuel(node_count, 2);
    assert(seq![r].drop_last() =~= Seq::<Recorded>::empty());
}

/// A scheme is read entry by entry, with each label, kernel, grid and operation as it is.
pub proof fn law_entries_are_read_as_they_are(s: Scheme, i: int)
    requires
        0 <= i < s.entries@.len(),
    ensures
        s@.len() == s.entries@.len(),
        match s.entries@[i] {
            Entry::Kernel { label, work, grid } => s@[i] == Recorded::Kernel(label@, work, grid),
            Entry::Tensor { label, op } => s@[i] == Recorded::Tensor(label@, op),
            Entry::Open { label } => s@[i] == Recorded::Open(label@),
            Entry::Close => s@[i] is Close,
        },
{
}

} // verus!
