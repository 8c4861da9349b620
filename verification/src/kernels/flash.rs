//! Flash decoding: attention in two passes over splits of the cached positions.
use crate::blocks::splits_of;
use crate::contract::{
    axis_name, check, law_contract_holds_iff_axes_agree, mismatch, Bound, ContractError, Dim, Param,
};
use crate::kernels::attention::{
    head_base, heads_of, lemma_fits, lemma_flat, lemma_head_fits, lemma_same_element, same_up_to,
    score_term, Heads,
};
use crate::kernels::{
    bound2, bound3, lemma_index, make2, make3, DecodeStep, HostTensor, ATTENTION_MAX_HEAD,
    ATTENTION_SPLIT,
};
use crate::scalar::{
    largest_from, lemma_largest_from_ext, lemma_sum_from_ext, strided_sum, sum_from, Scalar,
    ZERO_BITS,
};
use crate::tensor::TensorShape;
use vstd::prelude::*;

verus! {

/// Threads that share the dot product of one position.
pub const SCORE_LANES: u32 = 4;

/// The first position of a split.
pub open spec fn split_start(split: int) -> int {
    split * ATTENTION_SPLIT
}

/// The split holds a position up to `pos`.
pub open spec fn split_live(split: int, pos: int) -> bool {
    split_start(split) <= pos
}

/// How many positions up to `pos` a live split holds.
pub open spec fn split_len(split: int, pos: int) -> int {
    if pos + 1 - split_start(split) > ATTENTION_SPLIT {
        ATTENTION_SPLIT as int
    } else {
        pos + 1 - split_start(split)
    }
}

/// How many splits are live at `pos`.
pub open spec fn live_splits(pos: int) -> int {
    pos / (ATTENTION_SPLIT as int) + 1
}

/// What one workgroup of the first pass reads.
pub ghost struct Split {
    pub heads: Heads,
    pub q: Seq<Scalar>,
    pub key: Seq<Scalar>,
    pub value: Seq<Scalar>,
    /// Query head.
    pub h: int,
    pub split: int,
    pub pos: int,
}

impl Split {
    /// How many positions the split holds.
    pub open spec fn len(self) -> int {
        split_len(self.split, self.pos)
    }

    /// What lane `l` adds up of the score of position `t`: the products of the
    /// dimensions `l, l + 4, ..`.
    pub open spec fn lane(self, t: int, l: int) -> Scalar {
        strided_sum(
            score_term(self.heads, self.q, self.key, self.h, t),
            l,
            SCORE_LANES as int,
            self.heads.head as int,
        )
    }

    /// The score of position `j` of the split.
    pub open spec fn score(self, j: int) -> Scalar {
        let t = split_start(self.split) + j;
        let pair = Scalar::Add(Box::new(self.lane(t, 0)), Box::new(self.lane(t, 1)));
        let triple = Scalar::Add(Box::new(pair), Box::new(self.lane(t, 2)));
        Scalar::Div(
            Box::new(Scalar::Add(Box::new(triple), Box::new(self.lane(t, 3)))),
            Box::new(Scalar::Sqrt(Box::new(Scalar::FromU32(self.heads.head)))),
        )
    }

    /// The largest score of the split.
    pub open spec fn max(self) -> Scalar {
        largest_from(|j: int| self.score(j), 1, self.len(), self.score(0))
    }

    /// `exp(score - max)` of position `j`.
    pub open spec fn prob(self, j: int) -> Scalar {
        Scalar::Exp(Box::new(Scalar::Sub(Box::new(self.score(j)), Box::new(self.max()))))
    }

    /// The sum of `exp(score - max)`.
    pub open spec fn mass(self) -> Scalar {
        strided_sum(|j: int| self.prob(j), 0, 1, self.len())
    }

    /// How many groups of `head` threads share the positions.
    pub open spec fn ways(self) -> int {
        ATTENTION_MAX_HEAD as int / self.heads.head as int
    }

    /// Product `j` of output dimension `i`.
    pub open spec fn mix_term(self, i: int) -> spec_fn(int) -> Scalar {
        |j: int|
            Scalar::Mul(
                Box::new(self.prob(j)),
                Box::new(
                    self.value[(split_start(self.split) + j) * self.heads.kv_dim()
                        + self.heads.base(self.h) + i],
                ),
            )
    }

    /// What thread group `way` adds up for dimension `i`: the positions
    /// `way, way + ways, ..`.
    pub open spec fn way_sum(self, way: int, i: int) -> Scalar {
        strided_sum(self.mix_term(i), way, self.ways(), self.len())
    }

    /// `sum of exp(score - max) * v` in dimension `i`, over the thread groups in order.
    pub open spec fn mixed(self, i: int) -> Scalar {
        sum_from(|way: int| self.way_sum(way, i), 1, 1, self.ways(), self.way_sum(0, i))
    }

    /// Element `r` of the split's slot: the mixed values, the max, the mass.
    pub open spec fn slot(self, r: int) -> Scalar {
        if r < self.heads.head {
            self.mixed(r)
        } else if r == self.heads.head {
            self.max()
        } else {
            self.mass()
        }
    }

    /// The split's positions lie in its tensors.
    pub open spec fn in_bounds(self) -> bool {
        &&& self.heads.grouped()
        &&& 0 < self.heads.head <= ATTENTION_MAX_HEAD
        &&& 0 <= self.h < self.heads.q_heads
        &&& 0 <= self.split
        &&& split_live(self.split, self.pos)
        &&& self.q.len() == self.heads.q_heads * self.heads.head
        &&& self.key.len() == self.value.len()
        &&& self.heads.fits(
            self.h,
            split_start(self.split) + self.len() - 1,
            self.key.len() as int,
        )
    }
}

fn lane_dot(
    Ghost(s): Ghost<Split>,
    heads: Heads,
    q: &Vec<Scalar>,
    key: &Vec<Scalar>,
    q_base: usize,
    k_base: usize,
    l: u32,
    Ghost(t): Ghost<int>,
) -> (r: Scalar)
    requires
        s.in_bounds(),
        s.heads == heads,
        s.q == q@,
        s.key == key@,
        q_base == s.h * heads.head,
        k_base == t * heads.kv_dim() + heads.base(s.h),
        split_start(s.split) <= t < split_start(s.split) + s.len(),
        l < SCORE_LANES,
    ensures
        r == s.lane(t, l as int),
{
    let head: u32 = heads.head;
    let q_len: usize = q.len();
    let k_len: usize = key.len();
    let ghost term = score_term(heads, q@, key@, s.h, t);
    let mut dot = Scalar::zero();
    let mut i: u32 = l;
    while i < head
        invariant
            head == heads.head,
            head <= ATTENTION_MAX_HEAD,
            q_len == q@.len(),
            k_len == key@.len(),
            s.in_bounds(),
            s.heads == heads,
            s.q == q@,
            s.key == key@,
            q_base == s.h * heads.head,
            k_base == t * heads.kv_dim() + heads.base(s.h),
            split_start(s.split) <= t < split_start(s.split) + s.len(),
            term == score_term(heads, q@, key@, s.h, t),
            sum_from(term, i as int, SCORE_LANES as int, head as int, dot) == s.lane(t, l as int),
        decreases head + SCORE_LANES - i,
    {
        proof {
            lemma_index(s.h, i as int, heads.q_heads as int, heads.head as int);
            lemma_fits(
                heads,
                s.h,
                t,
                split_start(s.split) + s.len() - 1,
                k_len as int,
                i as int,
            );
        }
        dot = dot.plus(q[q_base + i as usize].dup().times(key[k_base + i as usize].dup()));
        i = i + SCORE_LANES;
    }
    dot
}

fn split_scores(
    Ghost(s): Ghost<Split>,
    heads: Heads,
    q: &Vec<Scalar>,
    key: &Vec<Scalar>,
    h: u32,
    t0: u32,
    n: u32,
    base: usize,
    kv_dim: usize,
) -> (r: Vec<Scalar>)
    requires
        s.in_bounds(),
        s.heads == heads,
        s.q == q@,
        s.key == key@,
        s.h == h,
        t0 == split_start(s.split),
        n == s.len(),
        base == heads.base(h as int),
        kv_dim == heads.kv_dim(),
    ensures
        r@ == Seq::new(n as nat, |j: int| s.score(j)),
{
    let mut scores: Vec<Scalar> = Vec::new();
    let k_len: usize = key.len();
    let q_len: usize = q.len();
    let mut p: u32 = 0;
    while p < n
        invariant
            p <= n,
            k_len == key@.len(),
            q_len == q@.len(),
            s.in_bounds(),
            s.heads == heads,
            s.q == q@,
            s.key == key@,
            s.h == h,
            t0 == split_start(s.split),
            n == s.len(),
            base == heads.base(h as int),
            kv_dim == heads.kv_dim(),
            scores@ == Seq::new(p as nat, |j: int| s.score(j)),
        decreases n - p,
    {
        let ghost t = t0 + p;
        proof {
            lemma_index(h as int, 0, heads.q_heads as int, heads.head as int);
            lemma_fits(heads, h as int, t, t0 + n - 1, k_len as int, 0);
        }
        let q_base: usize = h as usize * heads.head as usize;
        let k_base: usize = (t0 as usize + p as usize) * kv_dim + base;
        let l0 = lane_dot(Ghost(s), heads, q, key, q_base, k_base, 0, Ghost(t));
        let l1 = lane_dot(Ghost(s), heads, q, key, q_base, k_base, 1, Ghost(t));
        let l2 = lane_dot(Ghost(s), heads, q, key, q_base, k_base, 2, Ghost(t));
        let l3 = lane_dot(Ghost(s), heads, q, key, q_base, k_base, 3, Ghost(t));
        let sum = l0.plus(l1).plus(l2).plus(l3);
        scores.push(sum.over(Scalar::FromU32(heads.head).sqrt()));
        p = p + 1;
        assert(scores@ =~= Seq::new(p as nat, |j: int| s.score(j)));
    }
    scores
}

fn largest(Ghost(s): Ghost<Split>, scores: &Vec<Scalar>) -> (r: Scalar)
    requires
        s.len() >= 1,
        scores@ == Seq::new(s.len() as nat, |j: int| s.score(j)),
    ensures
        r == s.max(),
{
    let ghost f = |j: int| s.score(j);
    let mut m = scores[0].dup();
    let mut j: usize = 1;
    while j < scores.len()
        invariant
            1 <= j <= scores@.len(),
            scores@ == Seq::new(s.len() as nat, |j: int| s.score(j)),
            scores@.len() == s.len(),
            f == (|j: int| s.score(j)),
            largest_from(f, j as int, s.len(), m) == s.max(),
        decreases scores@.len() - j,
    {
        m = m.larger(scores[j].dup());
        j = j + 1;
    }
    m
}

fn split_probs(Ghost(s): Ghost<Split>, scores: &Vec<Scalar>, m: &Scalar) -> (r: Vec<Scalar>)
    requires
        s.len() >= 1,
        scores@ == Seq::new(s.len() as nat, |j: int| s.score(j)),
        *m == s.max(),
    ensures
        r@ == Seq::new(s.len() as nat, |j: int| s.prob(j)),
{
    let mut probs: Vec<Scalar> = Vec::new();
    let mut j: usize = 0;
    while j < scores.len()
        invariant
            j <= scores@.len(),
            scores@ == Seq::new(s.len() as nat, |j: int| s.score(j)),
            scores@.len() == s.len(),
            *m == s.max(),
            probs@ == Seq::new(j as nat, |j: int| s.prob(j)),
        decreases scores@.len() - j,
    {
        probs.push(scores[j].dup().minus(m.dup()).exp());
        j = j + 1;
        assert(probs@ =~= Seq::new(j as nat, |j: int| s.prob(j)));
    }
    probs
}

fn split_mass(Ghost(s): Ghost<Split>, probs: &Vec<Scalar>) -> (r: Scalar)
    requires
        s.len() >= 1,
        probs@ == Seq::new(s.len() as nat, |j: int| s.prob(j)),
    ensures
        r == s.mass(),
{
    let ghost f = |j: int| s.prob(j);
    let mut l = Scalar::zero();
    let mut j: usize = 0;
    while j < probs.len()
        invariant
            j <= probs@.len(),
            probs@ == Seq::new(s.len() as nat, |j: int| s.prob(j)),
            probs@.len() == s.len(),
            f == (|j: int| s.prob(j)),
            sum_from(f, j as int, 1, s.len(), l) == s.mass(),
        decreases probs@.len() - j,
    {
        l = l.plus(probs[j].dup());
        j = j + 1;
    }
    l
}

fn way_mix(
    Ghost(s): Ghost<Split>,
    heads: Heads,
    probs: &Vec<Scalar>,
    value: &Vec<Scalar>,
    t0: u32,
    base: usize,
    kv_dim: usize,
    ways: u32,
    way: u32,
    i: u32,
) -> (r: Scalar)
    requires
        s.in_bounds(),
        s.heads == heads,
        s.value == value@,
        probs@ == Seq::new(s.len() as nat, |j: int| s.prob(j)),
        t0 == split_start(s.split),
        base == heads.base(s.h),
        kv_dim == heads.kv_dim(),
        ways == s.ways(),
        way < ways <= ATTENTION_MAX_HEAD,
        i < heads.head,
    ensures
        r == s.way_sum(way as int, i as int),
{
    let n: u32 = probs.len() as u32;
    let len: usize = value.len();
    let mut acc = Scalar::zero();
    let mut j: u32 = way;
    while j < n
        invariant
            n == probs@.len(),
            n == s.len(),
            n <= ATTENTION_SPLIT,
            len == value@.len(),
            s.in_bounds(),
            s.heads == heads,
            s.value == value@,
            probs@ == Seq::new(s.len() as nat, |j: int| s.prob(j)),
            t0 == split_start(s.split),
            base == heads.base(s.h),
            kv_dim == heads.kv_dim(),
            ways == s.ways(),
            0 < ways <= ATTENTION_MAX_HEAD,
            i < heads.head,
            sum_from(s.mix_term(i as int), j as int, ways as int, n as int, acc) == s.way_sum(
                way as int,
                i as int,
            ),
        decreases n + ways - j,
    {
        proof {
            lemma_fits(heads, s.h, t0 + j, t0 + n - 1, len as int, i as int);
        }
        let at: usize = (t0 as usize + j as usize) * kv_dim + base + i as usize;
        acc = acc.plus(probs[j as usize].dup().times(value[at].dup()));
        j = j + ways;
    }
    acc
}

fn fold_ways(
    Ghost(s): Ghost<Split>,
    heads: Heads,
    probs: &Vec<Scalar>,
    value: &Vec<Scalar>,
    t0: u32,
    base: usize,
    kv_dim: usize,
    i: u32,
) -> (r: Scalar)
    requires
        s.in_bounds(),
        s.heads == heads,
        s.value == value@,
        probs@ == Seq::new(s.len() as nat, |j: int| s.prob(j)),
        t0 == split_start(s.split),
        base == heads.base(s.h),
        kv_dim == heads.kv_dim(),
        i < heads.head,
    ensures
        r == s.mixed(i as int),
{
    let ways: u32 = ATTENTION_MAX_HEAD / heads.head;
    proof {
        let head = heads.head as int;
        assert(1 <= 128int / head <= 128) by (nonlinear_arith)
            requires
                0 < head <= 128,
        ;
    }
    let ghost f = |way: int| s.way_sum(way, i as int);
    let mut total = way_mix(Ghost(s), heads, probs, value, t0, base, kv_dim, ways, 0, i);
    let mut w: u32 = 1;
    while w < ways
        invariant
            1 <= w <= ways <= ATTENTION_MAX_HEAD,
            s.in_bounds(),
            s.heads == heads,
            s.value == value@,
            probs@ == Seq::new(s.len() as nat, |j: int| s.prob(j)),
            t0 == split_start(s.split),
            base == heads.base(s.h),
            kv_dim == heads.kv_dim(),
            ways == s.ways(),
            i < heads.head,
            f == (|way: int| s.way_sum(way, i as int)),
            sum_from(f, w as int, 1, ways as int, total) == s.mixed(i as int),
        decreases ways - w,
    {
        total = total.plus(
            way_mix(Ghost(s), heads, probs, value, t0, base, kv_dim, ways, w, i),
        );
        w = w + 1;
    }
    total
}

/// One workgroup of the first pass: the slot of its split.
fn split_slot(
    Ghost(s): Ghost<Split>,
    heads: Heads,
    q: &Vec<Scalar>,
    key: &Vec<Scalar>,
    value: &Vec<Scalar>,
    h: u32,
    split: u32,
    pos: u32,
    kv_dim: usize,
) -> (r: Vec<Scalar>)
    requires
        s.in_bounds(),
        s == (Split {
            heads,
            q: q@,
            key: key@,
            value: value@,
            h: h as int,
            split: split as int,
            pos: pos as int,
        }),
        pos < u32::MAX,
        split_start(split as int) <= u32::MAX,
        kv_dim == heads.kv_dim(),
    ensures
        r@ == Seq::new((heads.head + 2) as nat, |r: int| s.slot(r)),
{
    let t0: u32 = split * ATTENTION_SPLIT;
    let left: u32 = pos + 1 - t0;
    let n: u32 = if left > ATTENTION_SPLIT {
        ATTENTION_SPLIT
    } else {
        left
    };
    proof {
        lemma_fits(heads, h as int, t0 + n - 1, t0 + n - 1, key@.len() as int, 0);
    }
    let base: usize = head_base(heads, h, t0 + (n - 1), key.len());
    let scores = split_scores(Ghost(s), heads, q, key, h, t0, n, base, kv_dim);
    let m = largest(Ghost(s), &scores);
    let probs = split_probs(Ghost(s), &scores, &m);
    let mass = split_mass(Ghost(s), &probs);
    let mut out: Vec<Scalar> = Vec::new();
    let mut i: u32 = 0;
    while i < heads.head
        invariant
            i <= heads.head,
            s.in_bounds(),
            s.heads == heads,
            s.h == h,
            s.value == value@,
            probs@ == Seq::new(s.len() as nat, |j: int| s.prob(j)),
            t0 == split_start(s.split),
            base == heads.base(h as int),
            kv_dim == heads.kv_dim(),
            out@ == Seq::new(i as nat, |r: int| s.slot(r)),
        decreases heads.head - i,
    {
        out.push(fold_ways(Ghost(s), heads, &probs, value, t0, base, kv_dim, i));
        i = i + 1;
        assert(out@ =~= Seq::new(i as nat, |r: int| s.slot(r)));
    }
    out.push(m);
    out.push(mass);
    assert(out@ =~= Seq::new((heads.head + 2) as nat, |r: int| s.slot(r)));
    out
}

/// Tensors of [`attention_partial`].
pub open spec fn partial_bounds(
    q: TensorShape,
    key_cache: TensorShape,
    value_cache: TensorShape,
    partial: TensorShape,
) -> Seq<Bound> {
    seq![
        bound2(Param::Q, Dim::QHeads, Dim::Head, q),
        bound3(Param::KeyCache, Dim::SeqLen, Dim::KvHeads, Dim::Head, key_cache),
        bound3(Param::ValueCache, Dim::SeqLen, Dim::KvHeads, Dim::Head, value_cache),
        bound3(Param::Partial, Dim::QHeads, Dim::Splits, Dim::Slot, partial),
    ]
}

/// Holds the tensors of [`attention_partial`] to their contract.
pub fn check_attention_partial(
    q: TensorShape,
    key_cache: TensorShape,
    value_cache: TensorShape,
    partial: TensorShape,
) -> (r: Result<(), ContractError>)
    ensures
        match r {
            Ok(()) => mismatch(partial_bounds(q, key_cache, value_cache, partial)) is None,
            Err(e) => mismatch(partial_bounds(q, key_cache, value_cache, partial)) == Some(e),
        },
{
    let mut bounds: Vec<Bound> = Vec::new();
    bounds.push(make2(Param::Q, Dim::QHeads, Dim::Head, q));
    bounds.push(make3(Param::KeyCache, Dim::SeqLen, Dim::KvHeads, Dim::Head, key_cache));
    bounds.push(make3(Param::ValueCache, Dim::SeqLen, Dim::KvHeads, Dim::Head, value_cache));
    bounds.push(make3(Param::Partial, Dim::QHeads, Dim::Splits, Dim::Slot, partial));
    assert(bounds@ =~= partial_bounds(q, key_cache, value_cache, partial));
    check(&bounds)
}

pub(crate) proof fn lemma_partial_shapes(
    q: TensorShape,
    key_cache: TensorShape,
    value_cache: TensorShape,
    partial: TensorShape,
)
    requires
        mismatch(partial_bounds(q, key_cache, value_cache, partial)) is None,
    ensures
        q.dims().len() == 2,
        key_cache.dims().len() == 3,
        value_cache == key_cache,
        partial.dims().len() == 3,
        key_cache.dims()[2] == q.dims()[1],
        partial.dims()[0] == q.dims()[0],
{
    let b = partial_bounds(q, key_cache, value_cache, partial);
    law_contract_holds_iff_axes_agree(b);
    assert(b[0].shape == q && b[1].shape == key_cache && b[2].shape == value_cache && b[3].shape
        == partial);
    assert(axis_name(b, 0, 1) == axis_name(b, 1, 2));
    assert(axis_name(b, 0, 0) == axis_name(b, 3, 0));
    assert(axis_name(b, 1, 0) == axis_name(b, 2, 0));
    assert(axis_name(b, 1, 1) == axis_name(b, 2, 1));
    assert(axis_name(b, 1, 2) == axis_name(b, 2, 2));
}

/// What workgroup `g` of the first pass reads.
pub open spec fn split_of_group(
    heads: Heads,
    q: Seq<Scalar>,
    key: Seq<Scalar>,
    value: Seq<Scalar>,
    splits: int,
    pos: int,
    g: int,
) -> Split {
    Split { heads, q, key, value, h: g / splits, split: g % splits, pos }
}

/// `partial` after the first `groups` workgroups of the first pass: the slots of their
/// live splits are filled, and nothing else is touched.
pub open spec fn partial_pass(
    heads: Heads,
    q: Seq<Scalar>,
    key: Seq<Scalar>,
    value: Seq<Scalar>,
    partial: Seq<Scalar>,
    splits: int,
    slot: int,
    pos: int,
    groups: int,
) -> Seq<Scalar> {
    Seq::new(
        partial.len(),
        |j: int|
            if j < groups * slot && split_live((j / slot) % splits, pos) && j % slot < heads.head
                + 2 {
                split_of_group(heads, q, key, value, splits, pos, j / slot).slot(j % slot)
            } else {
                partial[j]
            },
    )
}

/// Everything that [`attention_partial`] reads or stores lies in its tensor, and no two
/// workgroups store the same element.
pub open spec fn partial_in_bounds(
    q: TensorShape,
    key_cache: TensorShape,
    partial: TensorShape,
    step: DecodeStep,
    groups: u32,
) -> bool {
    let heads = heads_of(q, key_cache);
    let splits = partial.dims()[1];
    let pos = step.position as int;
    &&& groups <= heads.q_heads * splits
    &&& groups > 0 ==> {
        &&& heads.grouped()
        &&& 0 < heads.head <= ATTENTION_MAX_HEAD
        &&& heads.head + 2 <= partial.dims()[2]
        &&& pos < u32::MAX
        &&& split_start(splits - 1) <= u32::MAX
    }
    &&& forall|g: int|
        #![trigger split_live(g % splits as int, pos)]
        0 <= g < groups && split_live(g % splits as int, pos) ==> heads.fits(
            g / splits as int,
            split_start(g % splits as int) + split_len(g % splits as int, pos) - 1,
            key_cache.numel(),
        )
}

/// Flash-decoding pass 1. Workgroup `h * splits + s` scores the positions
/// `[32 s, 32 s + 32)` up to the step's position for query head `h`, and stores the sum
/// of `exp(score - m) * v`, the split max `m` and the sum of `exp(score - m)` in the slot
/// `partial[h, s]`. A split that starts past the position is not stored.
pub fn attention_partial(
    q: &HostTensor,
    key_cache: &HostTensor,
    value_cache: &HostTensor,
    partial: &mut HostTensor,
    step: &DecodeStep,
    groups: u32,
) -> (r: Result<(), ContractError>)
    requires
        q.wf(),
        key_cache.wf(),
        value_cache.wf(),
        old(partial).wf(),
        mismatch(
            partial_bounds(q.shape, key_cache.shape, value_cache.shape, old(partial).shape),
        ) is None ==> partial_in_bounds(
            q.shape,
            key_cache.shape,
            old(partial).shape,
            *step,
            groups,
        ),
    ensures
        final(partial).wf(),
        final(partial).shape == old(partial).shape,
        match r {
            Err(e) => {
                &&& mismatch(
                    partial_bounds(q.shape, key_cache.shape, value_cache.shape, old(partial).shape),
                ) == Some(e)
                &&& final(partial).data@ == old(partial).data@
            },
            Ok(()) => {
                &&& mismatch(
                    partial_bounds(q.shape, key_cache.shape, value_cache.shape, old(partial).shape),
                ) is None
                &&& final(partial).data@ == partial_pass(
                    heads_of(q.shape, key_cache.shape),
                    q.data@,
                    key_cache.data@,
                    value_cache.data@,
                    old(partial).data@,
                    old(partial).dim(1),
                    old(partial).dim(2),
                    step.position as int,
                    groups as int,
                )
            },
        },
{
    match check_attention_partial(
        q.shape,
        key_cache.shape,
        value_cache.shape,
        partial.shape,
    ) {
        Ok(()) => {},
        Err(e) => {
            return Err(e);
        },
    }
    proof {
        lemma_partial_shapes(q.shape, key_cache.shape, value_cache.shape, partial.shape);
    }
    let heads = Heads {
        q_heads: q.shape.extent(0),
        kv_heads: key_cache.shape.extent(1),
        head: q.shape.extent(1),
    };
    let splits: u32 = partial.shape.extent(1);
    let slot: usize = partial.shape.extent(2) as usize;
    let len: usize = partial.data.len();
    let pos: u32 = step.position;
    let ghost old_data = partial.data@;
    let ghost key_len = key_cache.shape.numel();
    proof {
        assert(heads.q_heads * (splits * slot) == heads.q_heads * splits * slot)
            by (nonlinear_arith);
        if groups > 0 {
            if splits == 0 {
                assert(heads.q_heads * 0 == 0);
            }
            assert(0int % splits as int == 0 && 0int / splits as int == 0) by (nonlinear_arith)
                requires
                    splits > 0,
            ;
            assert(split_live(0int % splits as int, pos as int));
            lemma_fits(
                heads,
                0,
                0,
                split_start(0) + split_len(0, pos as int) - 1,
                key_len,
                heads.head as int,
            );
            if key_cache.shape.dims()[0] == 0 {
                assert(0 * key_cache.shape.row() == 0);
            }
        }
        assert(old_data =~= partial_pass(
            heads,
            q.data@,
            key_cache.data@,
            value_cache.data@,
            old_data,
            splits as int,
            slot as int,
            pos as int,
            0,
        ));
    }
    let kv_dim: usize = if groups > 0 {
        key_cache.shape.row_u32() as usize
    } else {
        0
    };
    let mut g: u32 = 0;
    while g < groups
        invariant
            g <= groups <= heads.q_heads * splits,
            heads == heads_of(q.shape, key_cache.shape),
            groups > 0 ==> {
                &&& heads.grouped()
                &&& 0 < heads.head <= ATTENTION_MAX_HEAD
                &&& heads.head + 2 <= slot
                &&& pos < u32::MAX
                &&& split_start(splits - 1) <= u32::MAX
                &&& splits > 0
                &&& kv_dim == heads.kv_dim()
            },
            forall|g: int|
                #![trigger split_live(g % splits as int, pos as int)]
                0 <= g < groups && split_live(g % splits as int, pos as int) ==> heads.fits(
                    g / splits as int,
                    split_start(g % splits as int) + split_len(g % splits as int, pos as int) - 1,
                    key_len,
                ),
            len == heads.q_heads * splits * slot,
            len == old_data.len(),
            partial.data@.len() == len,
            q.data@.len() == heads.q_heads * heads.head,
            key_cache.data@.len() == key_len,
            value_cache.data@.len() == key_len,
            partial.shape == old(partial).shape,
            old_data == old(partial).data@,
            partial.data@ == partial_pass(
                heads,
                q.data@,
                key_cache.data@,
                value_cache.data@,
                old_data,
                splits as int,
                slot as int,
                pos as int,
                g as int,
            ),
        decreases groups - g,
    {
        let h: u32 = g / splits;
        let split: u32 = g % splits;
        let ghost want = partial_pass(
            heads,
            q.data@,
            key_cache.data@,
            value_cache.data@,
            old_data,
            splits as int,
            slot as int,
            pos as int,
            g + 1,
        );
        proof {
            assert((g + 1) * slot == g * slot + slot) by (nonlinear_arith);
            lemma_index(g as int, slot as int, heads.q_heads * splits, slot as int);
            lemma_split_start_monotonic(split as int, splits - 1);
        }
        let t0: u32 = split * ATTENTION_SPLIT;
        if t0 <= pos {
            let ghost s = split_of_group(
                heads,
                q.data@,
                key_cache.data@,
                value_cache.data@,
                splits as int,
                pos as int,
                g as int,
            );
            proof {
                assert(split_live(g as int % splits as int, pos as int));
                lemma_group_head(g as int, splits as int, heads.q_heads as int);
            }
            let filled = split_slot(
                Ghost(s),
                heads,
                &q.data,
                &key_cache.data,
                &value_cache.data,
                h,
                split,
                pos,
                kv_dim,
            );
            let out: usize = g as usize * slot;
            let mut r: usize = 0;
            while r < filled.len()
                invariant
                    r <= filled@.len(),
                    filled@ == Seq::new((heads.head + 2) as nat, |r: int| s.slot(r)),
                    heads.head + 2 <= slot,
                    out == g * slot,
                    out + slot <= len,
                    (g + 1) * slot == g * slot + slot,
                    split_live(g as int % splits as int, pos as int),
                    s == split_of_group(
                        heads,
                        q.data@,
                        key_cache.data@,
                        value_cache.data@,
                        splits as int,
                        pos as int,
                        g as int,
                    ),
                    want == partial_pass(
                        heads,
                        q.data@,
                        key_cache.data@,
                        value_cache.data@,
                        old_data,
                        splits as int,
                        slot as int,
                        pos as int,
                        g + 1,
                    ),
                    len == old_data.len(),
                    partial.data@.len() == len,
                    partial.shape == old(partial).shape,
                    partial.data@ == Seq::new(
                        old_data.len(),
                        |j: int|
                            if j < out + r {
                                want[j]
                            } else {
                                old_data[j]
                            },
                    ),
                decreases filled@.len() - r,
            {
                proof {
                    lemma_flat(g as int, r as int, slot as int);
                }
                partial.data[out + r] = filled[r].dup();
                r = r + 1;
            }
            proof {
                assert forall|j: int| out + heads.head + 2 <= j < len implies want[j]
                    == old_data[j] by {
                    if j < (g + 1) * slot {
                        lemma_flat(g as int, j - out, slot as int);
                    }
                }
                assert(partial.data@ =~= want);
            }
        } else {
            proof {
                assert forall|j: int| 0 <= j < len implies want[j] == partial.data@[j] by {
                    if g * slot <= j < (g + 1) * slot {
                        lemma_flat(g as int, j - g * slot, slot as int);
                    }
                }
                assert(partial.data@ =~= want);
            }
        }
        g = g + 1;
    }
    Ok(())
}

proof fn lemma_split_start_monotonic(a: int, b: int)
    requires
        a <= b,
    ensures
        split_start(a) <= split_start(b),
{
}

/// The head and the split of a workgroup.
proof fn lemma_group_head(g: int, splits: int, q_heads: int)
    requires
        0 <= g < q_heads * splits,
        0 < splits,
    ensures
        0 <= g / splits < q_heads,
        0 <= g % splits < splits,
{
    assert(0 <= g / splits < q_heads && 0 <= g % splits < splits) by (nonlinear_arith)
        requires
            0 <= g < q_heads * splits,
            0 < splits,
    ;
}

/// Tensors of [`attention_combine`].
pub open spec fn combine_bounds(partial: TensorShape, xb: TensorShape) -> Seq<Bound> {
    seq![
        bound3(Param::Partial, Dim::QHeads, Dim::Splits, Dim::Slot, partial),
        bound2(Param::Xb, Dim::QHeads, Dim::Head, xb),
    ]
}

/// Holds the tensors of [`attention_combine`] to their contract.
pub fn check_attention_combine(partial: TensorShape, xb: TensorShape) -> (r: Result<
    (),
    ContractError,
>)
    ensures
        match r {
            Ok(()) => mismatch(combine_bounds(partial, xb)) is None,
            Err(e) => mismatch(combine_bounds(partial, xb)) == Some(e),
        },
{
    let mut bounds: Vec<Bound> = Vec::new();
    bounds.push(make3(Param::Partial, Dim::QHeads, Dim::Splits, Dim::Slot, partial));
    bounds.push(make2(Param::Xb, Dim::QHeads, Dim::Head, xb));
    assert(bounds@ =~= combine_bounds(partial, xb));
    check(&bounds)
}

proof fn lemma_combine_shapes(partial: TensorShape, xb: TensorShape)
    requires
        mismatch(combine_bounds(partial, xb)) is None,
    ensures
        partial.dims().len() == 3,
        xb.dims().len() == 2,
        partial.dims()[0] == xb.dims()[0],
{
    let b = combine_bounds(partial, xb);
    law_contract_holds_iff_axes_agree(b);
    assert(b[0].shape == partial && b[1].shape == xb);
    assert(axis_name(b, 0, 0) == axis_name(b, 1, 0));
}

/// What one workgroup of the second pass reads: the slots of query head `h`, of which
/// the first `live` are live.
pub ghost struct Slots {
    pub partial: Seq<Scalar>,
    /// Where the first slot starts.
    pub base: int,
    /// Elements from one slot to the next.
    pub slot: int,
    pub head: int,
    pub live: int,
}

impl Slots {
    /// Element `r` of slot `s`.
    pub open spec fn at(self, s: int, r: int) -> Scalar {
        self.partial[self.base + s * self.slot + r]
    }

    /// The largest of the split maxima.
    pub open spec fn max(self) -> Scalar {
        largest_from(|s: int| self.at(s, self.head), 1, self.live, self.at(0, self.head))
    }

    /// `exp(split max - max)` of split `s`.
    pub open spec fn rescale(self, s: int) -> Scalar {
        Scalar::Exp(
            Box::new(Scalar::Sub(Box::new(self.at(s, self.head)), Box::new(self.max()))),
        )
    }

    /// The rescaled sum of element `r` of the live slots.
    pub open spec fn total(self, r: int) -> Scalar {
        strided_sum(
            |s: int| Scalar::Mul(Box::new(self.at(s, r)), Box::new(self.rescale(s))),
            0,
            1,
            self.live,
        )
    }

    /// Output dimension `i`: the rescaled values over the rescaled mass.
    pub open spec fn output(self, i: int) -> Scalar {
        Scalar::Div(Box::new(self.total(i)), Box::new(self.total(self.head + 1)))
    }

    /// The live slots lie in `partial`.
    pub open spec fn in_bounds(self) -> bool {
        &&& 0 <= self.base
        &&& 0 <= self.slot
        &&& 0 <= self.head
        &&& 1 <= self.live
        &&& self.base + (self.live - 1) * self.slot + self.head + 2 <= self.partial.len()
    }
}

/// The slots of query head `h`.
pub open spec fn slots_of_head(
    partial: Seq<Scalar>,
    splits: int,
    slot: int,
    head: int,
    pos: int,
    h: int,
) -> Slots {
    Slots { partial, base: h * splits * slot, slot, head, live: live_splits(pos) }
}

/// `xb` after the first `groups` workgroups of the second pass.
pub open spec fn combine_pass(
    partial: Seq<Scalar>,
    xb: Seq<Scalar>,
    splits: int,
    slot: int,
    head: int,
    pos: int,
    groups: int,
) -> Seq<Scalar> {
    Seq::new(
        xb.len(),
        |j: int|
            if j < groups * head && j % head < ATTENTION_MAX_HEAD {
                slots_of_head(partial, splits, slot, head, pos, j / head).output(j % head)
            } else {
                xb[j]
            },
    )
}

/// Everything that [`attention_combine`] reads or stores lies in its tensor.
pub open spec fn combine_in_bounds(
    partial: TensorShape,
    xb: TensorShape,
    step: DecodeStep,
    groups: u32,
) -> bool {
    let last = (groups - 1) * partial.dims()[1] + live_splits(step.position as int) - 1;
    &&& groups <= xb.dims()[0]
    &&& groups > 0 && xb.dims()[1] > 0 ==> last * partial.dims()[2] + xb.dims()[1] + 2
        <= partial.numel()
}

proof fn lemma_slot_in_bounds(v: Slots, s: int, r: int)
    requires
        v.in_bounds(),
        0 <= s < v.live,
        0 <= r < v.head + 2,
    ensures
        0 <= s * v.slot,
        0 <= v.base + s * v.slot,
        v.base + s * v.slot + r < v.partial.len(),
{
    let slot = v.slot;
    let live = v.live;
    assert(0 <= s * slot <= (live - 1) * slot) by (nonlinear_arith)
        requires
            0 <= s <= live - 1,
            0 <= slot,
    ;
}

fn slots_max(
    Ghost(v): Ghost<Slots>,
    partial: &Vec<Scalar>,
    base: usize,
    slot: usize,
    head: usize,
    live: u32,
) -> (r: Scalar)
    requires
        v.in_bounds(),
        v.partial == partial@,
        v.base == base,
        v.slot == slot,
        v.head == head,
        v.live == live,
    ensures
        r == v.max(),
{
    let len: usize = partial.len();
    let ghost f = |s: int| v.at(s, v.head);
    proof {
        lemma_slot_in_bounds(v, 0, v.head);
        assert(0 * v.slot == 0);
    }
    let mut m = partial[base + head].dup();
    let mut s: u32 = 1;
    while s < live
        invariant
            1 <= s <= live,
            len == partial@.len(),
            v.in_bounds(),
            v.partial == partial@,
            v.base == base,
            v.slot == slot,
            v.head == head,
            v.live == live,
            f == (|s: int| v.at(s, v.head)),
            largest_from(f, s as int, live as int, m) == v.max(),
        decreases live - s,
    {
        proof {
            lemma_slot_in_bounds(v, s as int, v.head);
        }
        m = m.larger(partial[base + s as usize * slot + head].dup());
        s = s + 1;
    }
    m
}

fn slots_total(
    Ghost(v): Ghost<Slots>,
    partial: &Vec<Scalar>,
    base: usize,
    slot: usize,
    head: usize,
    live: u32,
    m: &Scalar,
    r: usize,
) -> (total: Scalar)
    requires
        v.in_bounds(),
        v.partial == partial@,
        v.base == base,
        v.slot == slot,
        v.head == head,
        v.live == live,
        *m == v.max(),
        r < head + 2,
    ensures
        total == v.total(r as int),
{
    let len: usize = partial.len();
    let ghost f = |s: int| Scalar::Mul(Box::new(v.at(s, r as int)), Box::new(v.rescale(s)));
    let mut acc = Scalar::zero();
    let mut s: u32 = 0;
    while s < live
        invariant
            s <= live,
            len == partial@.len(),
            v.in_bounds(),
            v.partial == partial@,
            v.base == base,
            v.slot == slot,
            v.head == head,
            v.live == live,
            *m == v.max(),
            r < head + 2,
            f == (|s: int| Scalar::Mul(Box::new(v.at(s, r as int)), Box::new(v.rescale(s)))),
            sum_from(f, s as int, 1, live as int, acc) == v.total(r as int),
        decreases live - s,
    {
        proof {
            lemma_slot_in_bounds(v, s as int, v.head);
            lemma_slot_in_bounds(v, s as int, r as int);
        }
        let o: usize = base + s as usize * slot;
        let w = partial[o + head].dup().minus(m.dup()).exp();
        acc = acc.plus(partial[o + r].dup().times(w));
        s = s + 1;
    }
    acc
}

/// Flash-decoding pass 2: workgroup `h` rescales and sums the live splits of query head
/// `h` into `xb[h]`.
pub fn attention_combine(
    partial: &HostTensor,
    xb: &mut HostTensor,
    step: &DecodeStep,
    groups: u32,
) -> (r: Result<(), ContractError>)
    requires
        partial.wf(),
        old(xb).wf(),
        mismatch(combine_bounds(partial.shape, old(xb).shape)) is None ==> combine_in_bounds(
            partial.shape,
            old(xb).shape,
            *step,
            groups,
        ),
    ensures
        final(xb).wf(),
        final(xb).shape == old(xb).shape,
        match r {
            Err(e) => {
                &&& mismatch(combine_bounds(partial.shape, old(xb).shape)) == Some(e)
                &&& final(xb).data@ == old(xb).data@
            },
            Ok(()) => {
                &&& mismatch(combine_bounds(partial.shape, old(xb).shape)) is None
                &&& final(xb).data@ == combine_pass(
                    partial.data@,
                    old(xb).data@,
                    partial.dim(1),
                    partial.dim(2),
                    old(xb).dim(1),
                    step.position as int,
                    groups as int,
                )
            },
        },
{
    match check_attention_combine(partial.shape, xb.shape) {
        Ok(()) => {},
        Err(e) => {
            return Err(e);
        },
    }
    proof {
        lemma_combine_shapes(partial.shape, xb.shape);
    }
    let q_heads: u32 = xb.shape.extent(0);
    let head: usize = xb.shape.extent(1) as usize;
    let splits: usize = partial.shape.extent(1) as usize;
    let slot: usize = partial.shape.extent(2) as usize;
    let len: usize = partial.data.len();
    let xb_len: usize = xb.data.len();
    let pos: u32 = step.position;
    let live: u32 = pos / ATTENTION_SPLIT + 1;
    let cols: usize = if head < ATTENTION_MAX_HEAD as usize {
        head
    } else {
        ATTENTION_MAX_HEAD as usize
    };
    let ghost xb0 = xb.data@;
    proof {
        if slot == 0 {
            assert(splits * 0 == 0 && partial.shape.dims()[0] * 0 == 0);
        }
    }
    assert(xb0 =~= combine_pass(
        partial.data@,
        xb0,
        splits as int,
        slot as int,
        head as int,
        pos as int,
        0,
    ));
    let mut h: u32 = 0;
    while h < groups
        invariant
            h <= groups <= q_heads,
            len == partial.data@.len(),
            xb_len == xb0.len(),
            xb.data@.len() == xb_len,
            xb_len == q_heads * head,
            slot == 0 ==> len == 0,
            live == live_splits(pos as int),
            cols <= head,
            cols <= ATTENTION_MAX_HEAD,
            cols == head || cols == ATTENTION_MAX_HEAD,
            groups > 0 && head > 0 ==> ((groups - 1) * splits + live - 1) * slot + head + 2 <= len,
            xb.shape == old(xb).shape,
            xb0 == old(xb).data@,
            xb.data@ == combine_pass(
                partial.data@,
                xb0,
                splits as int,
                slot as int,
                head as int,
                pos as int,
                h as int,
            ),
        decreases groups - h,
    {
        let ghost v = slots_of_head(
            partial.data@,
            splits as int,
            slot as int,
            head as int,
            pos as int,
            h as int,
        );
        let ghost want = combine_pass(
            partial.data@,
            xb0,
            splits as int,
            slot as int,
            head as int,
            pos as int,
            h + 1,
        );
        proof {
            assert((h + 1) * head == h * head + head) by (nonlinear_arith);
            lemma_index(h as int, 0, q_heads as int, head as int);
        }
        if head > 0 {
            proof {
                lemma_head_slots(h as int, groups as int, splits as int, slot as int, live as int);
                if slot == 0 {
                    assert(((groups - 1) * splits + live - 1) * 0 == 0);
                }
            }
            let base: usize = h as usize * splits * slot;
            let m = slots_max(Ghost(v), &partial.data, base, slot, head, live);
            let l = slots_total(Ghost(v), &partial.data, base, slot, head, live, &m, head + 1);
            let xb_base: usize = h as usize * head;
            let mut i: usize = 0;
            while i < cols
                invariant
                    i <= cols <= head,
                    cols <= ATTENTION_MAX_HEAD,
                    h < q_heads,
                    v.in_bounds(),
                    v.partial == partial.data@,
                    v.base == base,
                    v.slot == slot,
                    v.head == head,
                    v.live == live,
                    v == slots_of_head(
                        partial.data@,
                        splits as int,
                        slot as int,
                        head as int,
                        pos as int,
                        h as int,
                    ),
                    want == combine_pass(
                        partial.data@,
                        xb0,
                        splits as int,
                        slot as int,
                        head as int,
                        pos as int,
                        h + 1,
                    ),
                    m == v.max(),
                    l == v.total(head + 1),
                    (h + 1) * head == h * head + head,
                    xb_base == h * head,
                    xb_len == q_heads * head,
                    xb_len == xb0.len(),
                    xb.data@.len() == xb_len,
                    xb.shape == old(xb).shape,
                    xb.data@ == Seq::new(
                        xb0.len(),
                        |j: int|
                            if j < xb_base + i {
                                want[j]
                            } else {
                                xb0[j]
                            },
                    ),
                decreases cols - i,
            {
                proof {
                    lemma_index(h as int, i as int, q_heads as int, head as int);
                    lemma_flat(h as int, i as int, head as int);
                }
                let acc = slots_total(Ghost(v), &partial.data, base, slot, head, live, &m, i);
                xb.data[xb_base + i] = acc.over(l.dup());
                i = i + 1;
            }
            proof {
                assert forall|j: int| xb_base + cols <= j < xb_len implies want[j] == xb0[j] by {
                    if j < (h + 1) * head {
                        lemma_flat(h as int, j - xb_base, head as int);
                    }
                }
            }
        }
        assert(xb.data@ =~= want);
        h = h + 1;
    }
    Ok(())
}

proof fn lemma_head_slots(h: int, groups: int, splits: int, slot: int, live: int)
    requires
        0 <= h < groups,
        0 <= splits,
        0 <= slot,
        1 <= live,
    ensures
        0 <= h * splits,
        0 <= h * splits * slot,
        h * splits <= h * splits * slot || slot == 0,
        h * splits * slot + (live - 1) * slot <= ((groups - 1) * splits + live - 1) * slot,
{
    assert(0 <= h * splits <= (groups - 1) * splits) by (nonlinear_arith)
        requires
            0 <= h <= groups - 1,
            0 <= splits,
    ;
    let a = h * splits;
    let b = (groups - 1) * splits;
    assert(0 <= a * slot && a * slot + (live - 1) * slot <= (b + live - 1) * slot)
        by (nonlinear_arith)
        requires
            0 <= a <= b,
            0 <= slot,
            1 <= live,
    ;
    if slot >= 1 {
        assert(a <= a * slot) by (nonlinear_arith)
            requires
                0 <= a,
                1 <= slot,
        ;
    }
}

/// A split is live exactly where it is among the first [`live_splits`], and a cache of
/// `seq_len` positions has as many splits as any of its positions makes live.
pub proof fn law_live_splits_come_first(split: int, pos: int, seq_len: int)
    requires
        0 <= split,
        0 <= pos < seq_len,
    ensures
        split_live(split, pos) <==> split < live_splits(pos),
        1 <= live_splits(pos) <= splits_of(seq_len),
{
}

/// Each position up to `pos` lies in exactly one live split: `t` lies in split `t / 32`
/// and in no other.
pub proof fn law_splits_partition_positions(t: int, pos: int, split: int)
    requires
        0 <= t <= pos,
    ensures
        split_live(t / (ATTENTION_SPLIT as int), pos),
        split_start(t / (ATTENTION_SPLIT as int)) <= t < split_start(t / (ATTENTION_SPLIT as int))
            + split_len(t / (ATTENTION_SPLIT as int), pos),
        split_start(split) <= t < split_start(split) + split_len(split, pos) ==> split == t / (
        ATTENTION_SPLIT as int),
{
}

/// Attention of one query head, as the two flash-decoding passes compute it.
pub ghost struct Flash {
    pub heads: Heads,
    pub q: Seq<Scalar>,
    pub key: Seq<Scalar>,
    pub value: Seq<Scalar>,
    /// Query head.
    pub h: int,
    pub pos: int,
}

impl Flash {
    /// Split `s` of the head.
    pub open spec fn split(self, s: int) -> Split {
        Split {
            heads: self.heads,
            q: self.q,
            key: self.key,
            value: self.value,
            h: self.h,
            split: s,
            pos: self.pos,
        }
    }

    /// The largest of the split maxima.
    pub open spec fn max(self) -> Scalar {
        largest_from(|s: int| self.split(s).max(), 1, live_splits(self.pos), self.split(0).max())
    }

    /// `exp(split max - max)` of split `s`.
    pub open spec fn rescale(self, s: int) -> Scalar {
        Scalar::Exp(Box::new(Scalar::Sub(Box::new(self.split(s).max()), Box::new(self.max()))))
    }

    /// The rescaled sum of element `r` of the live slots.
    pub open spec fn total(self, r: int) -> Scalar {
        strided_sum(
            |s: int| Scalar::Mul(Box::new(self.split(s).slot(r)), Box::new(self.rescale(s))),
            0,
            1,
            live_splits(self.pos),
        )
    }

    /// Output dimension `i`.
    pub open spec fn output(self, i: int) -> Scalar {
        Scalar::Div(Box::new(self.total(i)), Box::new(self.total(self.heads.head + 1)))
    }
}

/// The second pass over what the first pass left is [`Flash::output`]: it reads the slots
/// of live splits only, so what the scratch held before does not matter.
pub proof fn law_scratch_contents_do_not_matter(
    f: Flash,
    scratch: Seq<Scalar>,
    splits: int,
    slot: int,
    i: int,
)
    requires
        0 <= f.h < f.heads.q_heads,
        0 <= i < f.heads.head,
        0 <= f.pos,
        live_splits(f.pos) <= splits,
        f.heads.head + 2 <= slot,
        scratch.len() == f.heads.q_heads * splits * slot,
    ensures
        slots_of_head(
            partial_pass(
                f.heads,
                f.q,
                f.key,
                f.value,
                scratch,
                splits,
                slot,
                f.pos,
                f.heads.q_heads * splits,
            ),
            splits,
            slot,
            f.heads.head as int,
            f.pos,
            f.h,
        ).output(i) == f.output(i),
{
    let head = f.heads.head as int;
    let live = live_splits(f.pos);
    let partial = partial_pass(
        f.heads,
        f.q,
        f.key,
        f.value,
        scratch,
        splits,
        slot,
        f.pos,
        f.heads.q_heads * splits,
    );
    let v = slots_of_head(partial, splits, slot, head, f.pos, f.h);
    assert forall|s: int, r: int| 0 <= s < live && 0 <= r < head + 2 implies #[trigger] v.at(s, r)
        == f.split(s).slot(r) by {
        lemma_slot_is_filled(f, scratch, splits, slot, s, r);
    }
    let maxima = |s: int| v.at(s, head);
    let split_maxima = |s: int| f.split(s).max();
    assert(v.at(0, head) == f.split(0).slot(head));
    assert forall|s: int| 1 <= s < live implies #[trigger] maxima(s) == split_maxima(s) by {
        assert(v.at(s, head) == f.split(s).slot(head));
    }
    lemma_largest_from_ext(maxima, split_maxima, 1, live, v.at(0, head));
    assert(v.max() == f.max());
    lemma_same_total(v, f, i);
    lemma_same_total(v, f, head + 1);
}

proof fn lemma_same_total(v: Slots, f: Flash, r: int)
    requires
        v.head == f.heads.head,
        v.live == live_splits(f.pos),
        v.max() == f.max(),
        0 <= r < v.head + 2,
        forall|s: int, r: int|
            0 <= s < v.live && 0 <= r < v.head + 2 ==> #[trigger] v.at(s, r) == f.split(s).slot(r),
    ensures
        v.total(r) == f.total(r),
{
    let a = |s: int| Scalar::Mul(Box::new(v.at(s, r)), Box::new(v.rescale(s)));
    let b = |s: int| Scalar::Mul(Box::new(f.split(s).slot(r)), Box::new(f.rescale(s)));
    assert forall|s: int| 0 <= s < v.live implies #[trigger] a(s) == b(s) by {
        assert(v.at(s, r) == f.split(s).slot(r));
        assert(v.at(s, v.head) == f.split(s).slot(v.head));
    }
    lemma_sum_from_ext(a, b, 0, 1, v.live, Scalar::Bits(ZERO_BITS));
}

/// The first pass fills the slots of the live splits.
proof fn lemma_slot_is_filled(
    f: Flash,
    scratch: Seq<Scalar>,
    splits: int,
    slot: int,
    s: int,
    r: int,
)
    requires
        0 <= f.h < f.heads.q_heads,
        0 <= f.pos,
        live_splits(f.pos) <= splits,
        f.heads.head + 2 <= slot,
        scratch.len() == f.heads.q_heads * splits * slot,
        0 <= s < live_splits(f.pos),
        0 <= r < f.heads.head + 2,
    ensures
        slots_of_head(
            partial_pass(
                f.heads,
                f.q,
                f.key,
                f.value,
                scratch,
                splits,
                slot,
                f.pos,
                f.heads.q_heads * splits,
            ),
            splits,
            slot,
            f.heads.head as int,
            f.pos,
            f.h,
        ).at(s, r) == f.split(s).slot(r),
{
    let h = f.h;
    let g = h * splits + s;
    let groups = f.heads.q_heads * splits;
    let j = g * slot + r;
    lemma_flat(h, s, splits);
    lemma_flat(g, r, slot);
    lemma_index(h, s, f.heads.q_heads as int, splits);
    lemma_index(g, r, groups, slot);
    assert(h * splits * slot + s * slot + r == j) by (nonlinear_arith)
        requires
            g == h * splits + s,
            j == g * slot + r,
    ;
    assert(split_live(s, f.pos));
}

/// Flash decoding is causal: what a cache holds past the position does not matter.
pub proof fn law_flash_decoding_is_causal(f: Flash, key: Seq<Scalar>, value: Seq<Scalar>, i: int)
    requires
        f.heads.grouped(),
        f.heads.q_heads % f.heads.kv_heads == 0,
        0 <= f.h < f.heads.q_heads,
        0 <= f.pos,
        0 <= i < f.heads.head <= ATTENTION_MAX_HEAD,
        same_up_to(f.heads, f.key, key, f.pos),
        same_up_to(f.heads, f.value, value, f.pos),
    ensures
        f.output(i) == (Flash { key, value, ..f }).output(i),
{
    let g = Flash { key, value, ..f };
    let live = live_splits(f.pos);
    let head = f.heads.head as int;
    assert forall|s: int, r: int| 0 <= s < live && 0 <= r < head + 2 implies #[trigger] f.split(
        s,
    ).slot(r) == g.split(s).slot(r) by {
        lemma_same_slot(f, key, value, s, r);
    }
    let a = |s: int| f.split(s).max();
    let b = |s: int| g.split(s).max();
    assert forall|s: int| 0 <= s < live implies #[trigger] a(s) == b(s) by {
        assert(f.split(s).slot(head) == g.split(s).slot(head));
    }
    assert(a(0) == b(0));
    lemma_largest_from_ext(a, b, 1, live, a(0));
    assert(f.max() == g.max());
    lemma_same_flash_total(f, g, i);
    lemma_same_flash_total(f, g, head + 1);
}

proof fn lemma_same_flash_total(f: Flash, g: Flash, r: int)
    requires
        g.heads == f.heads,
        g.pos == f.pos,
        f.max() == g.max(),
        0 <= r < f.heads.head + 2,
        forall|s: int, r: int|
            0 <= s < live_splits(f.pos) && 0 <= r < f.heads.head + 2 ==> #[trigger] f.split(s).slot(
                r,
            ) == g.split(s).slot(r),
    ensures
        f.total(r) == g.total(r),
{
    let a = |s: int| Scalar::Mul(Box::new(f.split(s).slot(r)), Box::new(f.rescale(s)));
    let b = |s: int| Scalar::Mul(Box::new(g.split(s).slot(r)), Box::new(g.rescale(s)));
    let head = f.heads.head as int;
    assert forall|s: int| 0 <= s < live_splits(f.pos) implies #[trigger] a(s) == b(s) by {
        assert(f.split(s).slot(r) == g.split(s).slot(r));
        assert(f.split(s).slot(head) == g.split(s).slot(head));
    }
    lemma_sum_from_ext(a, b, 0, 1, live_splits(f.pos), Scalar::Bits(ZERO_BITS));
}

/// A live split reads no position past `pos`.
proof fn lemma_same_slot(f: Flash, key: Seq<Scalar>, value: Seq<Scalar>, s: int, r: int)
    requires
        f.heads.grouped(),
        f.heads.q_heads % f.heads.kv_heads == 0,
        0 <= f.h < f.heads.q_heads,
        0 <= f.pos,
        0 < f.heads.head <= ATTENTION_MAX_HEAD,
        same_up_to(f.heads, f.key, key, f.pos),
        same_up_to(f.heads, f.value, value, f.pos),
        0 <= s < live_splits(f.pos),
        0 <= r < f.heads.head + 2,
    ensures
        f.split(s).slot(r) == (Flash { key, value, ..f }).split(s).slot(r),
{
    let a = f.split(s);
    let b = (Flash { key, value, ..f }).split(s);
    let zero = Scalar::Bits(ZERO_BITS);
    let n = a.len();
    let t0 = split_start(s);
    let head = f.heads.head as int;
    assert(1 <= n && t0 + n - 1 <= f.pos);
    let score_a = |j: int| a.score(j);
    let score_b = |j: int| b.score(j);
    assert forall|j: int| 0 <= j < n implies #[trigger] score_a(j) == score_b(j) by {
        let t = t0 + j;
        let x = score_term(a.heads, a.q, a.key, a.h, t);
        let y = score_term(b.heads, b.q, b.key, b.h, t);
        assert forall|d: int| 0 <= d < head implies #[trigger] x(d) == y(d) by {
            lemma_same_element(f.heads, f.key, key, f.h, f.pos, t, d);
        }
        lemma_sum_from_ext(x, y, 0, SCORE_LANES as int, head, zero);
        lemma_sum_from_ext(x, y, 1, SCORE_LANES as int, head, zero);
        lemma_sum_from_ext(x, y, 2, SCORE_LANES as int, head, zero);
        lemma_sum_from_ext(x, y, 3, SCORE_LANES as int, head, zero);
    }
    assert(score_a(0) == score_b(0));
    lemma_largest_from_ext(score_a, score_b, 1, n, a.score(0));
    assert(a.max() == b.max());
    let prob_a = |j: int| a.prob(j);
    let prob_b = |j: int| b.prob(j);
    assert forall|j: int| 0 <= j < n implies #[trigger] prob_a(j) == prob_b(j) by {
        assert(score_a(j) == score_b(j));
    }
    lemma_sum_from_ext(prob_a, prob_b, 0, 1, n, zero);
    if r < head {
        let x = a.mix_term(r);
        let y = b.mix_term(r);
        assert forall|j: int| 0 <= j < n implies #[trigger] x(j) == y(j) by {
            assert(prob_a(j) == prob_b(j));
            lemma_same_element(f.heads, f.value, value, f.h, f.pos, t0 + j, r);
        }
        let ways = a.ways();
        let sums_a = |way: int| a.way_sum(way, r);
        let sums_b = |way: int| b.way_sum(way, r);
        assert forall|way: int| 0 <= way implies #[trigger] sums_a(way) == sums_b(way) by {
            lemma_sum_from_ext(x, y, way, ways, n, zero);
        }
        assert(sums_a(0) == sums_b(0));
        lemma_sum_from_ext(sums_a, sums_b, 1, 1, ways, a.way_sum(0, r));
    }
}

/// What the two passes read and store lies in their tensors, at every position that the
/// cache has.
pub(crate) proof fn lemma_passes_in_bounds(
    q: TensorShape,
    key: TensorShape,
    partial: TensorShape,
    xb: TensorShape,
    step: DecodeStep,
)
    requires
        ({
            let heads = heads_of(q, key);
            let seq_len = key.dims()[0];
            let splits = splits_of(seq_len as int);
            &&& q == TensorShape::R2(heads.q_heads, heads.head)
            &&& key == TensorShape::R3(seq_len, heads.kv_heads, heads.head)
            &&& partial == TensorShape::R3(
                heads.q_heads,
                splits as u32,
                (heads.head + 2) as u32,
            )
            &&& xb == q
            &&& heads.grouped()
            &&& heads.q_heads % heads.kv_heads == 0
            &&& 0 < heads.head <= ATTENTION_MAX_HEAD
            &&& step.position < seq_len
        }),
        partial.wf(),
    ensures
        q.dims()[0] * partial.dims()[1] <= u32::MAX,
        partial_in_bounds(q, key, partial, step, (q.dims()[0] * partial.dims()[1]) as u32),
        combine_in_bounds(partial, xb, step, q.dims()[0]),
{
    let heads = heads_of(q, key);
    let pos = step.position as int;
    let seq_len = key.dims()[0] as int;
    let splits = partial.dims()[1] as int;
    let slot = partial.dims()[2] as int;
    let a = heads.q_heads as int;
    law_live_splits_come_first(0, pos, seq_len);
    assert(splits == splits_of(seq_len));
    assert(a * splits <= a * (splits * slot)) by (nonlinear_arith)
        requires
            0 <= a,
            0 <= splits,
            slot >= 1,
    ;
    assert forall|g: int|
        #![trigger split_live(g % splits, pos)]
        0 <= g < a * splits && split_live(g % splits, pos) implies heads.fits(
        g / splits,
        split_start(g % splits) + split_len(g % splits, pos) - 1,
        key.numel(),
    ) by {
        lemma_group_head(g, splits, a);
        lemma_head_fits(
            heads,
            g / splits,
            split_start(g % splits) + split_len(g % splits, pos) - 1,
            seq_len,
        );
    }
    let last = (a - 1) * splits + live_splits(pos) - 1;
    assert((a - 1) * splits == a * splits - splits) by (nonlinear_arith);
    assert(last * slot + slot <= a * (splits * slot)) by (nonlinear_arith)
        requires
            last <= a * splits - 1,
            slot >= 0,
    ;
}

} // verus!
