//! Serial multi-head attention.
use crate::contract::{
    axis_name, check, law_contract_holds_iff_axes_agree, mismatch, Bound, ContractError, Dim, Param,
};
use crate::kernels::{bound2, bound3, lemma_index, make2, make3, DecodeStep, HostTensor};
use crate::scalar::{
    lanes_of, lemma_lanes_of_ext, lemma_sum_from_ext, strided_sum, sum_from, Lanes, Scalar, ZERO_BITS,
};
use crate::tensor::TensorShape;
use vstd::arithmetic::div_mod::{lemma_fundamental_div_mod, lemma_fundamental_div_mod_converse};
use vstd::prelude::*;

verus! {

/// The head layout of grouped-query attention.
#[derive(Clone, Copy, PartialEq, Eq, Structural, Debug)]
pub struct Heads {
    pub q_heads: u32,
    pub kv_heads: u32,
    pub head: u32,
}

impl Heads {
    /// Elements of one cached position.
    pub open spec fn kv_dim(self) -> int {
        self.kv_heads * self.head
    }

    /// Query heads that share one key and value head.
    pub open spec fn kv_mul(self) -> int {
        self.q_heads as int / self.kv_heads as int
    }

    /// Where the key and value head of query head `h` starts in a cached position.
    pub open spec fn base(self, h: int) -> int {
        (h / self.kv_mul()) * self.head
    }

    /// Query heads are at least as many as key heads, of which there is one.
    pub open spec fn grouped(self) -> bool {
        0 < self.kv_heads <= self.q_heads
    }

    /// The head of query head `h` lies, at every position up to `pos`, in a cache of
    /// `len` elements.
    pub open spec fn fits(self, h: int, pos: int, len: int) -> bool {
        pos * self.kv_dim() + self.base(h) + self.head <= len
    }
}

/// Product `i` of the score of query head `h` at position `t`.
pub open spec fn score_term(
    heads: Heads,
    q: Seq<Scalar>,
    key: Seq<Scalar>,
    h: int,
    t: int,
) -> spec_fn(int) -> Scalar {
    |i: int|
        Scalar::Mul(
            Box::new(q[h * heads.head + i]),
            Box::new(key[t * heads.kv_dim() + heads.base(h) + i]),
        )
}

/// The score of query head `h` at position `t`: the dot product over `sqrt(head)`.
pub open spec fn score_value(
    heads: Heads,
    q: Seq<Scalar>,
    key: Seq<Scalar>,
    h: int,
    t: int,
) -> Scalar {
    Scalar::Div(
        Box::new(strided_sum(score_term(heads, q, key, h, t), 0, 1, heads.head as int)),
        Box::new(Scalar::Sqrt(Box::new(Scalar::FromU32(heads.head)))),
    )
}

/// The scores of query head `h` at the positions `0 ..= pos`.
pub open spec fn score_lanes(
    heads: Heads,
    q: Seq<Scalar>,
    key: Seq<Scalar>,
    h: int,
    pos: int,
) -> Lanes {
    lanes_of(|t: int| score_value(heads, q, key, h, t), (pos + 1) as nat)
}

/// The attention of query head `h` to position `t`.
pub open spec fn attention_weight(
    heads: Heads,
    q: Seq<Scalar>,
    key: Seq<Scalar>,
    h: int,
    pos: int,
    t: int,
) -> Scalar {
    Scalar::Softmax(Box::new(score_lanes(heads, q, key, h, pos)), t as u32)
}

/// Product `t` of output element `i` of query head `h`.
pub open spec fn mix_term(
    heads: Heads,
    q: Seq<Scalar>,
    key: Seq<Scalar>,
    value: Seq<Scalar>,
    h: int,
    pos: int,
    i: int,
) -> spec_fn(int) -> Scalar {
    |t: int|
        Scalar::Mul(
            Box::new(attention_weight(heads, q, key, h, pos, t)),
            Box::new(value[t * heads.kv_dim() + heads.base(h) + i]),
        )
}

/// Output element `i` of query head `h`: the attended values, added in order.
pub open spec fn attention_value(
    heads: Heads,
    q: Seq<Scalar>,
    key: Seq<Scalar>,
    value: Seq<Scalar>,
    h: int,
    pos: int,
    i: int,
) -> Scalar {
    strided_sum(mix_term(heads, q, key, value, h, pos, i), 0, 1, pos + 1)
}

/// `att` with the attention of the first `groups` heads to the positions `0 ..= pos`.
pub open spec fn attention_weights(
    heads: Heads,
    q: Seq<Scalar>,
    key: Seq<Scalar>,
    att: Seq<Scalar>,
    seq_len: int,
    pos: int,
    groups: int,
) -> Seq<Scalar> {
    Seq::new(
        att.len(),
        |j: int|
            if j < groups * seq_len && j % seq_len <= pos {
                attention_weight(heads, q, key, j / seq_len, pos, j % seq_len)
            } else {
                att[j]
            },
    )
}

/// `xb` with the output of the first `groups` heads.
pub open spec fn attention_output(
    heads: Heads,
    q: Seq<Scalar>,
    key: Seq<Scalar>,
    value: Seq<Scalar>,
    xb: Seq<Scalar>,
    pos: int,
    groups: int,
) -> Seq<Scalar> {
    Seq::new(
        xb.len(),
        |j: int|
            if j < groups * heads.head {
                attention_value(
                    heads,
                    q,
                    key,
                    value,
                    j / heads.head as int,
                    pos,
                    j % heads.head as int,
                )
            } else {
                xb[j]
            },
    )
}

/// Tensors of [`attention`].
pub open spec fn attention_bounds(
    q: TensorShape,
    att: TensorShape,
    xb: TensorShape,
    key_cache: TensorShape,
    value_cache: TensorShape,
) -> Seq<Bound> {
    seq![
        bound2(Param::Q, Dim::QHeads, Dim::Head, q),
        bound2(Param::Att, Dim::QHeads, Dim::SeqLen, att),
        bound2(Param::Xb, Dim::QHeads, Dim::Head, xb),
        bound3(Param::KeyCache, Dim::SeqLen, Dim::KvHeads, Dim::Head, key_cache),
        bound3(Param::ValueCache, Dim::SeqLen, Dim::KvHeads, Dim::Head, value_cache),
    ]
}

/// Holds the tensors of [`attention`] to their contract.
pub fn check_attention(
    q: TensorShape,
    att: TensorShape,
    xb: TensorShape,
    key_cache: TensorShape,
    value_cache: TensorShape,
) -> (r: Result<(), ContractError>)
    ensures
        match r {
            Ok(()) => mismatch(attention_bounds(q, att, xb, key_cache, value_cache)) is None,
            Err(e) => mismatch(attention_bounds(q, att, xb, key_cache, value_cache)) == Some(e),
        },
{
    let mut bounds: Vec<Bound> = Vec::new();
    bounds.push(make2(Param::Q, Dim::QHeads, Dim::Head, q));
    bounds.push(make2(Param::Att, Dim::QHeads, Dim::SeqLen, att));
    bounds.push(make2(Param::Xb, Dim::QHeads, Dim::Head, xb));
    bounds.push(make3(Param::KeyCache, Dim::SeqLen, Dim::KvHeads, Dim::Head, key_cache));
    bounds.push(make3(Param::ValueCache, Dim::SeqLen, Dim::KvHeads, Dim::Head, value_cache));
    assert(bounds@ =~= attention_bounds(q, att, xb, key_cache, value_cache));
    check(&bounds)
}

proof fn lemma_attention_shapes(
    q: TensorShape,
    att: TensorShape,
    xb: TensorShape,
    key_cache: TensorShape,
    value_cache: TensorShape,
)
    requires
        mismatch(attention_bounds(q, att, xb, key_cache, value_cache)) is None,
    ensures
        q.dims().len() == 2,
        att.dims().len() == 2,
        xb == q,
        key_cache.dims().len() == 3,
        value_cache == key_cache,
        att.dims()[0] == q.dims()[0],
        att.dims()[1] == key_cache.dims()[0],
        key_cache.dims()[2] == q.dims()[1],
{
    let b = attention_bounds(q, att, xb, key_cache, value_cache);
    law_contract_holds_iff_axes_agree(b);
    assert(b[0].shape == q && b[1].shape == att && b[2].shape == xb && b[3].shape == key_cache
        && b[4].shape == value_cache);
    assert(axis_name(b, 0, 0) == axis_name(b, 1, 0));
    assert(axis_name(b, 0, 0) == axis_name(b, 2, 0));
    assert(axis_name(b, 0, 1) == axis_name(b, 2, 1));
    assert(axis_name(b, 0, 1) == axis_name(b, 3, 2));
    assert(axis_name(b, 1, 1) == axis_name(b, 3, 0));
    assert(axis_name(b, 3, 0) == axis_name(b, 4, 0));
    assert(axis_name(b, 3, 1) == axis_name(b, 4, 1));
    assert(axis_name(b, 3, 2) == axis_name(b, 4, 2));
}

/// The head layout that a query and a cache shape give.
pub open spec fn heads_of(q: TensorShape, key_cache: TensorShape) -> Heads {
    Heads { q_heads: q.dims()[0], kv_heads: key_cache.dims()[1], head: q.dims()[1] }
}

/// Everything that [`attention`] reads or stores lies in its tensor.
pub open spec fn attention_in_bounds(
    q: TensorShape,
    key_cache: TensorShape,
    step: DecodeStep,
    groups: u32,
) -> bool {
    let heads = heads_of(q, key_cache);
    &&& groups <= heads.q_heads
    &&& groups > 0 ==> heads.grouped() && step.position < key_cache.dims()[0]
    &&& forall|h: int|
        0 <= h < groups ==> #[trigger] heads.fits(h, step.position as int, key_cache.numel())
}

/// A position before `pos` fits where `pos` does.
pub(crate) proof fn lemma_fits(heads: Heads, h: int, t: int, pos: int, len: int, i: int)
    requires
        heads.fits(h, pos, len),
        heads.grouped(),
        0 <= h,
        0 <= t <= pos,
        0 <= i <= heads.head,
    ensures
        0 <= heads.kv_dim(),
        0 <= t * heads.kv_dim(),
        0 <= heads.base(h),
        t * heads.kv_dim() + heads.base(h) + i <= len,
        i < heads.head ==> t * heads.kv_dim() + heads.base(h) + i < len,
{
    let kv = heads.kv_dim();
    assert(kv >= 0) by (nonlinear_arith)
        requires
            kv == heads.kv_heads * heads.head,
    ;
    assert(0 <= t * kv <= pos * kv) by (nonlinear_arith)
        requires
            0 <= t <= pos,
            0 <= kv,
    ;
    lemma_kv_mul(heads);
    let mul = heads.kv_mul();
    assert(h / mul >= 0) by (nonlinear_arith)
        requires
            mul >= 1,
            h >= 0,
    ;
    let g = h / mul;
    assert(g * heads.head >= 0) by (nonlinear_arith)
        requires
            g >= 0,
    ;
}

pub(crate) proof fn lemma_kv_mul(heads: Heads)
    requires
        heads.grouped(),
    ensures
        heads.kv_mul() >= 1,
{
    let q = heads.q_heads as int;
    let kv = heads.kv_heads as int;
    assert(q / kv >= 1) by (nonlinear_arith)
        requires
            0 < kv <= q,
    ;
}

/// Element `(row, i)` of rows of `cols` elements, by its flat index.
pub(crate) proof fn lemma_flat(row: int, i: int, cols: int)
    requires
        0 <= i < cols,
    ensures
        (row * cols + i) / cols == row,
        (row * cols + i) % cols == i,
{
    lemma_fundamental_div_mod_converse(row * cols + i, cols, row, i);
}

/// Where the key and value head of query head `h` starts in a cached position.
pub(crate) fn head_base(heads: Heads, h: u32, pos: u32, len: usize) -> (r: usize)
    requires
        heads.grouped(),
        heads.fits(h as int, pos as int, len as int),
    ensures
        r == heads.base(h as int),
{
    proof {
        lemma_kv_mul(heads);
        lemma_fits(heads, h as int, 0, pos as int, len as int, heads.head as int);
        assert(0 * heads.kv_dim() == 0);
    }
    let kv_mul: u32 = heads.q_heads / heads.kv_heads;
    (h / kv_mul) as usize * heads.head as usize
}

fn score(
    heads: Heads,
    q: &Vec<Scalar>,
    key: &Vec<Scalar>,
    h: u32,
    t: u32,
    pos: u32,
    kv_dim: usize,
) -> (r: Scalar)
    requires
        heads.grouped(),
        h < heads.q_heads,
        t <= pos,
        kv_dim == heads.kv_dim(),
        q@.len() == heads.q_heads * heads.head,
        heads.fits(h as int, pos as int, key@.len() as int),
    ensures
        r == score_value(heads, q@, key@, h as int, t as int),
{
    let head: usize = heads.head as usize;
    let q_len: usize = q.len();
    let k_len: usize = key.len();
    let base: usize = head_base(heads, h, pos, k_len);
    proof {
        lemma_index(h as int, 0, heads.q_heads as int, heads.head as int);
        lemma_fits(heads, h as int, t as int, pos as int, k_len as int, 0);
    }
    let q_base: usize = h as usize * head;
    let k_base: usize = t as usize * kv_dim + base;
    let ghost term = score_term(heads, q@, key@, h as int, t as int);
    let mut sum = Scalar::zero();
    let mut i: usize = 0;
    while i < head
        invariant
            i <= head,
            head == heads.head,
            q_len == q@.len(),
            k_len == key@.len(),
            q_len == heads.q_heads * heads.head,
            h < heads.q_heads,
            heads.grouped(),
            t <= pos,
            q_base == h * heads.head,
            k_base == t * heads.kv_dim() + heads.base(h as int),
            heads.fits(h as int, pos as int, k_len as int),
            term == score_term(heads, q@, key@, h as int, t as int),
            sum_from(term, i as int, 1, head as int, sum) == strided_sum(term, 0, 1, head as int),
        decreases head - i,
    {
        proof {
            lemma_index(h as int, i as int, heads.q_heads as int, heads.head as int);
            lemma_fits(heads, h as int, t as int, pos as int, k_len as int, i as int);
        }
        sum = sum.plus(q[q_base + i].dup().times(key[k_base + i].dup()));
        i = i + 1;
    }
    sum.over(Scalar::FromU32(heads.head).sqrt())
}

fn scores(
    heads: Heads,
    q: &Vec<Scalar>,
    key: &Vec<Scalar>,
    h: u32,
    pos: u32,
    kv_dim: usize,
) -> (r: Lanes)
    requires
        heads.grouped(),
        h < heads.q_heads,
        pos < u32::MAX,
        kv_dim == heads.kv_dim(),
        q@.len() == heads.q_heads * heads.head,
        heads.fits(h as int, pos as int, key@.len() as int),
    ensures
        r == score_lanes(heads, q@, key@, h as int, pos as int),
{
    let ghost f = |t: int| score_value(heads, q@, key@, h as int, t);
    let mut lanes = Lanes::Empty;
    let mut t: u32 = 0;
    while t < pos + 1
        invariant
            t <= pos + 1,
            pos < u32::MAX,
            heads.grouped(),
            h < heads.q_heads,
            kv_dim == heads.kv_dim(),
            q@.len() == heads.q_heads * heads.head,
            heads.fits(h as int, pos as int, key@.len() as int),
            f == (|t: int| score_value(heads, q@, key@, h as int, t)),
            lanes == lanes_of(f, t as nat),
        decreases pos + 1 - t,
    {
        let s = score(heads, q, key, h, t, pos, kv_dim);
        lanes = Lanes::Push(Box::new(lanes), Box::new(s));
        t = t + 1;
    }
    lanes
}

fn mix(
    heads: Heads,
    Ghost(q): Ghost<Seq<Scalar>>,
    Ghost(key): Ghost<Seq<Scalar>>,
    lanes: &Lanes,
    value: &Vec<Scalar>,
    h: u32,
    pos: u32,
    i: u32,
    kv_dim: usize,
) -> (r: Scalar)
    requires
        heads.grouped(),
        i < heads.head,
        pos < u32::MAX,
        kv_dim == heads.kv_dim(),
        heads.fits(h as int, pos as int, value@.len() as int),
        *lanes == score_lanes(heads, q, key, h as int, pos as int),
    ensures
        r == attention_value(heads, q, key, value@, h as int, pos as int, i as int),
{
    let len: usize = value.len();
    let base: usize = head_base(heads, h, pos, len);
    let ghost term = mix_term(heads, q, key, value@, h as int, pos as int, i as int);
    let mut acc = Scalar::zero();
    let mut t: u32 = 0;
    while t < pos + 1
        invariant
            t <= pos + 1,
            pos < u32::MAX,
            heads.grouped(),
            i < heads.head,
            kv_dim == heads.kv_dim(),
            len == value@.len(),
            base == heads.base(h as int),
            heads.fits(h as int, pos as int, len as int),
            *lanes == score_lanes(heads, q, key, h as int, pos as int),
            term == mix_term(heads, q, key, value@, h as int, pos as int, i as int),
            sum_from(term, t as int, 1, pos + 1, acc) == strided_sum(term, 0, 1, pos + 1),
        decreases pos + 1 - t,
    {
        proof {
            lemma_fits(heads, h as int, t as int, pos as int, len as int, i as int);
        }
        let weight = Scalar::Softmax(Box::new(lanes.dup()), t);
        let v = value[t as usize * kv_dim + base + i as usize].dup();
        acc = acc.plus(weight.times(v));
        t = t + 1;
    }
    acc
}

/// Serial multi-head attention over the positions `0 ..= position`: workgroup `h`
/// stores the attention of query head `h` in `att` and its output in `xb`.
pub fn attention(
    q: &HostTensor,
    att: &mut HostTensor,
    xb: &mut HostTensor,
    key_cache: &HostTensor,
    value_cache: &HostTensor,
    step: &DecodeStep,
    groups: u32,
) -> (r: Result<(), ContractError>)
    requires
        q.wf(),
        old(att).wf(),
        old(xb).wf(),
        key_cache.wf(),
        value_cache.wf(),
        mismatch(
            attention_bounds(
                q.shape,
                old(att).shape,
                old(xb).shape,
                key_cache.shape,
                value_cache.shape,
            ),
        ) is None ==> attention_in_bounds(q.shape, key_cache.shape, *step, groups),
    ensures
        final(att).wf(),
        final(xb).wf(),
        final(att).shape == old(att).shape,
        final(xb).shape == old(xb).shape,
        match r {
            Err(e) => {
                &&& mismatch(
                    attention_bounds(
                        q.shape,
                        old(att).shape,
                        old(xb).shape,
                        key_cache.shape,
                        value_cache.shape,
                    ),
                ) == Some(e)
                &&& final(att).data@ == old(att).data@
                &&& final(xb).data@ == old(xb).data@
            },
            Ok(()) => {
                let heads = heads_of(q.shape, key_cache.shape);
                &&& mismatch(
                    attention_bounds(
                        q.shape,
                        old(att).shape,
                        old(xb).shape,
                        key_cache.shape,
                        value_cache.shape,
                    ),
                ) is None
                &&& final(att).data@ == attention_weights(
                    heads,
                    q.data@,
                    key_cache.data@,
                    old(att).data@,
                    old(att).dim(1),
                    step.position as int,
                    groups as int,
                )
                &&& final(xb).data@ == attention_output(
                    heads,
                    q.data@,
                    key_cache.data@,
                    value_cache.data@,
                    old(xb).data@,
                    step.position as int,
                    groups as int,
                )
            },
        },
{
    match check_attention(q.shape, att.shape, xb.shape, key_cache.shape, value_cache.shape) {
        Ok(()) => {},
        Err(e) => {
            return Err(e);
        },
    }
    proof {
        lemma_attention_shapes(q.shape, att.shape, xb.shape, key_cache.shape, value_cache.shape);
    }
    let heads = Heads {
        q_heads: q.shape.extent(0),
        kv_heads: key_cache.shape.extent(1),
        head: q.shape.extent(1),
    };
    let head: usize = heads.head as usize;
    let seq_len: usize = att.shape.extent(1) as usize;
    let att_len: usize = att.data.len();
    let xb_len: usize = xb.data.len();
    let pos: u32 = step.position;
    let ghost att0 = att.data@;
    let ghost xb0 = xb.data@;
    let kv_dim: usize = if groups > 0 {
        key_cache.shape.row_u32() as usize
    } else {
        0
    };
    proof {
        assert(att0 =~= attention_weights(
            heads,
            q.data@,
            key_cache.data@,
            att0,
            seq_len as int,
            pos as int,
            0,
        ));
        assert(xb0 =~= attention_output(
            heads,
            q.data@,
            key_cache.data@,
            value_cache.data@,
            xb0,
            pos as int,
            0,
        ));
    }
    let mut h: u32 = 0;
    while h < groups
        invariant
            h <= groups <= heads.q_heads,
            heads == heads_of(q.shape, key_cache.shape),
            groups > 0 ==> heads.grouped() && pos < seq_len && kv_dim == heads.kv_dim(),
            head == heads.head,
            seq_len <= u32::MAX,
            att_len == att0.len(),
            xb_len == xb0.len(),
            att.data@.len() == att_len,
            xb.data@.len() == xb_len,
            att_len == heads.q_heads * seq_len,
            xb_len == heads.q_heads * head,
            q.data@.len() == heads.q_heads * heads.head,
            key_cache.data@.len() == key_cache.shape.numel(),
            value_cache.data@.len() == key_cache.shape.numel(),
            forall|h: int|
                0 <= h < groups ==> #[trigger] heads.fits(
                    h,
                    pos as int,
                    key_cache.shape.numel(),
                ),
            att.shape == old(att).shape,
            xb.shape == old(xb).shape,
            att0 == old(att).data@,
            xb0 == old(xb).data@,
            att.data@ == attention_weights(
                heads,
                q.data@,
                key_cache.data@,
                att0,
                seq_len as int,
                pos as int,
                h as int,
            ),
            xb.data@ == attention_output(
                heads,
                q.data@,
                key_cache.data@,
                value_cache.data@,
                xb0,
                pos as int,
                h as int,
            ),
        decreases groups - h,
    {
        assert(heads.fits(h as int, pos as int, key_cache.shape.numel()));
        let lanes = scores(heads, &q.data, &key_cache.data, h, pos, kv_dim);
        proof {
            lemma_index(h as int, 0, heads.q_heads as int, seq_len as int);
            lemma_index(h as int, 0, heads.q_heads as int, head as int);
            assert((h + 1) * seq_len == h * seq_len + seq_len) by (nonlinear_arith);
            assert((h + 1) * head == h * head + head) by (nonlinear_arith);
        }
        let att_base: usize = h as usize * seq_len;
        let ghost att_want = attention_weights(
            heads,
            q.data@,
            key_cache.data@,
            att0,
            seq_len as int,
            pos as int,
            h + 1,
        );
        let mut t: u32 = 0;
        while t < pos + 1
            invariant
                t <= pos + 1,
                pos < seq_len <= u32::MAX,
                h < heads.q_heads,
                att_len == att0.len(),
                att.data@.len() == att_len,
                att_len == heads.q_heads * seq_len,
                att_base == h * seq_len,
                att.shape == old(att).shape,
                lanes == score_lanes(heads, q.data@, key_cache.data@, h as int, pos as int),
                (h + 1) * seq_len == h * seq_len + seq_len,
                att_want == attention_weights(
                    heads,
                    q.data@,
                    key_cache.data@,
                    att0,
                    seq_len as int,
                    pos as int,
                    h + 1,
                ),
                att.data@ == Seq::new(
                    att0.len(),
                    |j: int|
                        if j < att_base + t {
                            att_want[j]
                        } else {
                            att0[j]
                        },
                ),
            decreases pos + 1 - t,
        {
            proof {
                lemma_index(h as int, t as int, heads.q_heads as int, seq_len as int);
                lemma_flat(h as int, t as int, seq_len as int);
            }
            att.data[att_base + t as usize] = Scalar::Softmax(Box::new(lanes.dup()), t);
            t = t + 1;
        }
        proof {
            assert forall|j: int| att_base + pos + 1 <= j < att0.len() implies att_want[j]
                == att0[j] by {
                if j < (h + 1) * seq_len {
                    lemma_flat(h as int, j - att_base, seq_len as int);
                }
            }
            assert(att.data@ =~= att_want);
        }
        let xb_base: usize = h as usize * head;
        let ghost xb_want = attention_output(
            heads,
            q.data@,
            key_cache.data@,
            value_cache.data@,
            xb0,
            pos as int,
            h + 1,
        );
        let mut i: usize = 0;
        while i < head
            invariant
                i <= head,
                head == heads.head,
                pos < seq_len <= u32::MAX,
                h < heads.q_heads,
                heads.grouped(),
                kv_dim == heads.kv_dim(),
                xb_len == xb0.len(),
                xb.data@.len() == xb_len,
                xb_len == heads.q_heads * head,
                xb_base == h * head,
                xb.shape == old(xb).shape,
                value_cache.data@.len() == key_cache.shape.numel(),
                heads.fits(h as int, pos as int, key_cache.shape.numel()),
                lanes == score_lanes(heads, q.data@, key_cache.data@, h as int, pos as int),
                (h + 1) * head == h * head + head,
                xb_want == attention_output(
                    heads,
                    q.data@,
                    key_cache.data@,
                    value_cache.data@,
                    xb0,
                    pos as int,
                    h + 1,
                ),
                xb.data@ == Seq::new(
                    xb0.len(),
                    |j: int|
                        if j < xb_base + i {
                            xb_want[j]
                        } else {
                            xb0[j]
                        },
                ),
            decreases head - i,
        {
            proof {
                lemma_index(h as int, i as int, heads.q_heads as int, head as int);
                lemma_flat(h as int, i as int, head as int);
            }
            xb.data[xb_base + i] = mix(
                heads,
                Ghost(q.data@),
                Ghost(key_cache.data@),
                &lanes,
                &value_cache.data,
                h,
                pos,
                i as u32,
                kv_dim,
            );
            i = i + 1;
        }
        assert(xb.data@ =~= xb_want);
        h = h + 1;
    }
    Ok(())
}

/// A query head's key head lies in every cached position.
pub(crate) proof fn lemma_head_fits(heads: Heads, h: int, t: int, seq_len: int)
    requires
        0 < heads.kv_heads <= heads.q_heads,
        heads.q_heads % heads.kv_heads == 0,
        0 <= h < heads.q_heads,
        t < seq_len,
    ensures
        heads.fits(h, t, seq_len * (heads.kv_heads * heads.head)),
{
    let kv = heads.kv_heads as int;
    let mul = heads.kv_mul();
    let head = heads.head as int;
    lemma_fundamental_div_mod(heads.q_heads as int, kv);
    assert(mul >= 1) by (nonlinear_arith)
        requires
            heads.q_heads == kv * mul,
            0 < heads.q_heads,
            0 < kv,
    ;
    let g = h / mul;
    assert(g < kv) by (nonlinear_arith)
        requires
            h < kv * mul,
            g == h / mul,
            mul >= 1,
            0 <= h,
    ;
    let kv_dim = kv * head;
    assert(g * head + head <= kv_dim) by (nonlinear_arith)
        requires
            g + 1 <= kv,
            0 <= head,
            kv_dim == kv * head,
    ;
    assert(t * kv_dim + kv_dim <= seq_len * kv_dim) by (nonlinear_arith)
        requires
            t + 1 <= seq_len,
            0 <= kv_dim,
    ;
}

/// Two caches hold the same in the positions up to `pos`.
pub open spec fn same_up_to(heads: Heads, a: Seq<Scalar>, b: Seq<Scalar>, pos: int) -> bool {
    forall|j: int| 0 <= j < (pos + 1) * heads.kv_dim() ==> #[trigger] a[j] == b[j]
}

/// Element `i` of query head `h` lies among the positions up to `pos`.
pub(crate) proof fn lemma_same_element(
    heads: Heads,
    a: Seq<Scalar>,
    b: Seq<Scalar>,
    h: int,
    pos: int,
    t: int,
    i: int,
)
    requires
        heads.grouped(),
        heads.q_heads % heads.kv_heads == 0,
        0 <= h < heads.q_heads,
        0 <= t <= pos,
        0 <= i < heads.head,
        same_up_to(heads, a, b, pos),
    ensures
        a[t * heads.kv_dim() + heads.base(h) + i] == b[t * heads.kv_dim() + heads.base(h) + i],
{
    let len = (pos + 1) * heads.kv_dim();
    lemma_head_fits(heads, h, t, pos + 1);
    lemma_fits(heads, h, t, t, len, i);
}

/// Attention is causal: what a cache holds past the position does not matter.
pub proof fn law_attention_is_causal(
    heads: Heads,
    q: Seq<Scalar>,
    key: Seq<Scalar>,
    value: Seq<Scalar>,
    key2: Seq<Scalar>,
    value2: Seq<Scalar>,
    h: int,
    pos: int,
    i: int,
)
    requires
        heads.grouped(),
        heads.q_heads % heads.kv_heads == 0,
        0 <= h < heads.q_heads,
        0 <= pos,
        0 <= i < heads.head,
        same_up_to(heads, key, key2, pos),
        same_up_to(heads, value, value2, pos),
    ensures
        attention_value(heads, q, key, value, h, pos, i) == attention_value(
            heads,
            q,
            key2,
            value2,
            h,
            pos,
            i,
        ),
{
    let zero = Scalar::Bits(ZERO_BITS);
    let scores = |t: int| score_value(heads, q, key, h, t);
    let scores2 = |t: int| score_value(heads, q, key2, h, t);
    assert forall|t: int| 0 <= t < pos + 1 implies #[trigger] scores(t) == scores2(t) by {
        let a = score_term(heads, q, key, h, t);
        let b = score_term(heads, q, key2, h, t);
        assert forall|d: int| 0 <= d < heads.head implies #[trigger] a(d) == b(d) by {
            lemma_same_element(heads, key, key2, h, pos, t, d);
        }
        lemma_sum_from_ext(a, b, 0, 1, heads.head as int, zero);
    }
    lemma_lanes_of_ext(scores, scores2, (pos + 1) as nat);
    let a = mix_term(heads, q, key, value, h, pos, i);
    let b = mix_term(heads, q, key2, value2, h, pos, i);
    assert forall|t: int| 0 <= t < pos + 1 implies #[trigger] a(t) == b(t) by {
        lemma_same_element(heads, value, value2, h, pos, t, i);
    }
    lemma_sum_from_ext(a, b, 0, 1, pos + 1, zero);
}

} // verus!
