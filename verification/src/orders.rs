//! In which order the kernels add.
//!
//! Floating-point sums depend on their order. Each law here follows a kernel's sum by its
//! running totals: where `totals` starts at zero and grows by one term after the other, the
//! kernel computes the last of them, operation by operation.
use crate::kernels::attention::{
    attention_value, attention_weight, mix_term, score_term, score_value, Heads,
};
use crate::kernels::elementwise::{gemv_term, gemv_value};
use crate::kernels::flash::{split_start, Flash};
use crate::kernels::norm::{square_lane, square_term};
use crate::scalar::{sum_from, Scalar};
use vstd::prelude::*;

verus! {

/// `totals` starts at zero, and adds `term(0)`, `term(1)`, .. one after the other.
pub open spec fn are_totals(totals: Seq<Scalar>, term: spec_fn(int) -> Scalar) -> bool {
    &&& totals.len() > 0
    &&& totals[0] == Scalar::Bits(0)
    &&& forall|k: int|
        0 <= k < totals.len() - 1 ==> #[trigger] totals[k + 1] == Scalar::Add(
            Box::new(totals[k]),
            Box::new(term(k)),
        )
}

/// A sum over every `stride`th index from `start` on, from its total at `k` to the last.
proof fn lemma_totals(
    summed: spec_fn(int) -> Scalar,
    term: spec_fn(int) -> Scalar,
    start: int,
    stride: int,
    end: int,
    totals: Seq<Scalar>,
    k: int,
)
    requires
        0 < stride,
        are_totals(totals, term),
        0 <= k < totals.len(),
        forall|i: int|
            0 <= i < totals.len() - 1 ==> #[trigger] term(i) == summed(start + i * stride),
        end <= start + (totals.len() - 1) * stride,
        totals.len() > 1 ==> start + (totals.len() - 2) * stride < end,
    ensures
        sum_from(summed, start + k * stride, stride, end, totals[k]) == totals.last(),
    decreases totals.len() - k,
{
    let at = start + k * stride;
    if k == totals.len() - 1 {
        assert(at >= end);
    } else {
        assert(k * stride <= (totals.len() - 2) * stride) by (nonlinear_arith)
            requires
                k <= totals.len() - 2,
                0 < stride,
        ;
        assert(at < end);
        assert(totals[k + 1] == Scalar::Add(Box::new(totals[k]), Box::new(term(k))));
        assert(term(k) == summed(at));
        assert(at + stride == start + (k + 1) * stride) by (nonlinear_arith)
            requires
                at == start + k * stride,
        ;
        lemma_totals(summed, term, start, stride, end, totals, k + 1);
    }
}

/// A matrix-vector product adds the products of a row from left to right.
pub proof fn law_gemv_adds_in_order(x: Seq<Scalar>, w: Seq<Scalar>, i: int, totals: Seq<Scalar>)
    requires
        totals.len() == x.len() + 1,
        are_totals(
            totals,
            |j: int| Scalar::Mul(Box::new(w[i * x.len() + j]), Box::new(x[j])),
        ),
    ensures
        gemv_value(x, w, i) == totals.last(),
{
    let term = |j: int| Scalar::Mul(Box::new(w[i * x.len() + j]), Box::new(x[j]));
    lemma_totals(gemv_term(x, w, i), term, 0, 1, x.len() as int, totals, 0);
}

/// A serial score adds the products of a head from left to right, and is divided then.
pub proof fn law_score_adds_in_order(
    heads: Heads,
    q: Seq<Scalar>,
    key: Seq<Scalar>,
    h: int,
    t: int,
    totals: Seq<Scalar>,
)
    requires
        totals.len() == heads.head + 1,
        are_totals(
            totals,
            |i: int|
                Scalar::Mul(
                    Box::new(q[h * heads.head + i]),
                    Box::new(
                        key[t * (heads.kv_heads * heads.head) + (h / (heads.q_heads as int
                            / heads.kv_heads as int)) * heads.head + i],
                    ),
                ),
        ),
    ensures
        score_value(heads, q, key, h, t) == Scalar::Div(
            Box::new(totals.last()),
            Box::new(Scalar::Sqrt(Box::new(Scalar::FromU32(heads.head)))),
        ),
{
    let term = |i: int|
        Scalar::Mul(
            Box::new(q[h * heads.head + i]),
            Box::new(
                key[t * (heads.kv_heads * heads.head) + (h / (heads.q_heads as int
                    / heads.kv_heads as int)) * heads.head + i],
            ),
        );
    lemma_totals(score_term(heads, q, key, h, t), term, 0, 1, heads.head as int, totals, 0);
}

/// Serial attention adds the weighted values position by position.
pub proof fn law_mix_adds_in_order(
    heads: Heads,
    q: Seq<Scalar>,
    key: Seq<Scalar>,
    value: Seq<Scalar>,
    h: int,
    pos: int,
    i: int,
    totals: Seq<Scalar>,
)
    requires
        0 <= pos,
        totals.len() == pos + 2,
        are_totals(
            totals,
            |t: int|
                Scalar::Mul(
                    Box::new(attention_weight(heads, q, key, h, pos, t)),
                    Box::new(
                        value[t * (heads.kv_heads * heads.head) + (h / (heads.q_heads as int
                            / heads.kv_heads as int)) * heads.head + i],
                    ),
                ),
        ),
    ensures
        attention_value(heads, q, key, value, h, pos, i) == totals.last(),
{
    let term = |t: int|
        Scalar::Mul(
            Box::new(attention_weight(heads, q, key, h, pos, t)),
            Box::new(
                value[t * (heads.kv_heads * heads.head) + (h / (heads.q_heads as int
                    / heads.kv_heads as int)) * heads.head + i],
            ),
        );
    lemma_totals(mix_term(heads, q, key, value, h, pos, i), term, 0, 1, pos + 1, totals, 0);
}

/// Lane `l` of RMSNorm adds the squares of the elements `l`, `l + 256`, ..
pub proof fn law_rms_lane_adds_every_256th(x: Seq<Scalar>, l: int, totals: Seq<Scalar>)
    requires
        0 <= l,
        x.len() <= l + 256 * (totals.len() - 1),
        totals.len() > 1 ==> l + 256 * (totals.len() - 2) < x.len(),
        are_totals(
            totals,
            |k: int| Scalar::Mul(Box::new(x[l + 256 * k]), Box::new(x[l + 256 * k])),
        ),
    ensures
        square_lane(x)(l) == totals.last(),
{
    let term = |k: int| Scalar::Mul(Box::new(x[l + 256 * k]), Box::new(x[l + 256 * k]));
    lemma_totals(square_term(x), term, l, 256, x.len() as int, totals, 0);
}

/// Lane `l` of a split's score adds every fourth product from `l` on.
pub proof fn law_score_lane_adds_every_fourth(
    f: Flash,
    s: int,
    t: int,
    l: int,
    totals: Seq<Scalar>,
)
    requires
        0 <= l,
        f.heads.head <= l + 4 * (totals.len() - 1),
        totals.len() > 1 ==> l + 4 * (totals.len() - 2) < f.heads.head,
        are_totals(
            totals,
            |k: int|
                Scalar::Mul(
                    Box::new(f.q[f.h * f.heads.head + (l + 4 * k)]),
                    Box::new(
                        f.key[t * (f.heads.kv_heads * f.heads.head) + (f.h / (
                        f.heads.q_heads as int / f.heads.kv_heads as int)) * f.heads.head + (l + 4
                            * k)],
                    ),
                ),
        ),
    ensures
        f.split(s).lane(t, l) == totals.last(),
{
    let term = |k: int|
        Scalar::Mul(
            Box::new(f.q[f.h * f.heads.head + (l + 4 * k)]),
            Box::new(
                f.key[t * (f.heads.kv_heads * f.heads.head) + (f.h / (f.heads.q_heads as int
                    / f.heads.kv_heads as int)) * f.heads.head + (l + 4 * k)],
            ),
        );
    lemma_totals(
        score_term(f.heads, f.q, f.key, f.h, t),
        term,
        l,
        4,
        f.heads.head as int,
        totals,
        0,
    );
}

/// The mass of a split adds its probabilities in order of position, each `exp(score - max)`.
pub proof fn law_split_mass_adds_in_order(f: Flash, s: int, totals: Seq<Scalar>)
    requires
        0 <= s,
        32 * s <= f.pos,
        totals.len() == (if 32 * s + 32 <= f.pos + 1 {
            32
        } else {
            f.pos + 1 - 32 * s
        }) + 1,
        are_totals(
            totals,
            |j: int|
                Scalar::Exp(
                    Box::new(
                        Scalar::Sub(
                            Box::new(f.split(s).score(j)),
                            Box::new(f.split(s).slot(f.heads.head as int)),
                        ),
                    ),
                ),
        ),
    ensures
        f.split(s).slot(f.heads.head + 1) == totals.last(),
{
    let sp = f.split(s);
    assert(split_start(s) == 32 * s);
    let term = |j: int|
        Scalar::Exp(
            Box::new(
                Scalar::Sub(
                    Box::new(f.split(s).score(j)),
                    Box::new(f.split(s).slot(f.heads.head as int)),
                ),
            ),
        );
    lemma_totals(|j: int| sp.prob(j), term, 0, 1, sp.len(), totals, 0);
}

} // verus!
