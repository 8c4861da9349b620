//! What the kernels compute, written out in exact arithmetic.
//!
//! Each law gives the number that a kernel leaves in an element as a formula over the
//! numbers that its inputs hold.
use crate::exact::{
    exact_score, law_flash_decoding_is_attention, law_rms_lanes_add_up_all_squares,
    law_two_passes_are_attention, lemma_serial_attention, lemma_split_score, lemma_split_slot,
    lemma_sum_ext, lemma_value_in_order, lemma_value_lanes, slot_weight, sum, unscaled, Exact,
};
use crate::kernels::attention::{
    attention_output, attention_value, attention_weight, attention_weights, lemma_flat,
    score_lanes, score_term, score_value, Heads,
};
use crate::kernels::elementwise::{gemv_term, gemv_value, silu_value, swiglu_value};
use crate::kernels::flash::{
    combine_pass, partial_pass, slots_of_head, split_len, split_start, Flash, SCORE_LANES,
};
use crate::kernels::norm::{rms_normalized, rms_scale, square_lane, RMS_EPS_BITS};
use crate::kernels::rope::{narrower, pairs, rope_angle, rotate_into, rotated};
use crate::kernels::{
    lemma_index, ATTENTION_MAX_HEAD, ATTENTION_SPLIT, DEFAULT_ROPE_THETA, WORKGROUP,
};
use crate::scalar::{lanes_of, largest_from, strided_sum, Scalar, ONE_BITS, ZERO_BITS};
use vstd::prelude::*;

verus! {

impl Exact {
    /// The bits of `1.0` stand for one.
    pub open spec fn has_one(self) -> bool {
        (self.literal)(ONE_BITS) == 1 as real
    }
}

/// A score is the dot product of the query head with the key that its group shares,
/// over the square root of the head size.
pub proof fn law_score_is_scaled_dot_product(
    e: Exact,
    heads: Heads,
    q: Seq<Scalar>,
    key: Seq<Scalar>,
    h: int,
    t: int,
)
    requires
        e.has_zero(),
    ensures
        ({
            let head = heads.head as int;
            let group = heads.q_heads as int / heads.kv_heads as int;
            let row = heads.kv_heads * heads.head;
            e.value(score_value(heads, q, key, h, t)) == sum(
                |i: int|
                    e.value(q[h * head + i]) * e.value(key[t * row + (h / group) * head + i]),
                0,
                head,
            ) / (e.sqrt)(head as real)
        }),
{
    let head = heads.head as int;
    let group = heads.q_heads as int / heads.kv_heads as int;
    let row = heads.kv_heads * heads.head;
    let term = score_term(heads, q, key, h, t);
    let products = |i: int|
        e.value(q[h * head + i]) * e.value(key[t * row + (h / group) * head + i]);
    lemma_value_in_order(e, term, head);
    lemma_sum_ext(e.values(term), products, 0, head);
    let root = Scalar::Sqrt(Box::new(Scalar::FromU32(heads.head)));
    assert(e.value(Scalar::FromU32(heads.head)) == head as real);
    assert(e.value(root) == (e.sqrt)(head as real));
    assert(e.value(strided_sum(term, 0, 1, head)) == sum(products, 0, head));
}

/// A split scores the positions from 32 times its number on, each as the dot product over
/// the square root of the head size.
pub proof fn law_split_score_is_scaled_dot_product(e: Exact, f: Flash, s: int, j: int)
    requires
        e.has_zero(),
    ensures
        ({
            let head = f.heads.head as int;
            let group = f.heads.q_heads as int / f.heads.kv_heads as int;
            let row = f.heads.kv_heads * f.heads.head;
            let t = 32 * s + j;
            e.value(f.split(s).score(j)) == sum(
                |i: int|
                    e.value(f.q[f.h * head + i]) * e.value(
                        f.key[t * row + (f.h / group) * head + i],
                    ),
                0,
                head,
            ) / (e.sqrt)(head as real)
        }),
{
    lemma_split_score(e, f, s, j);
    assert(split_start(s) == 32 * s);
    law_score_is_scaled_dot_product(e, f.heads, f.q, f.key, f.h, 32 * s + j);
}

/// Attention, serial or in two passes, is the sum of `exp(score) * value` over the sum of
/// `exp(score)`, for the positions up to `pos`.
pub proof fn law_attention_is_softmax_of_scores(e: Exact, f: Flash, i: int)
    requires
        e.has_zero(),
        e.has_exponential(),
        0 <= f.pos < u32::MAX,
        0 <= i < f.heads.head,
    ensures
        ({
            let head = f.heads.head as int;
            let group = f.heads.q_heads as int / f.heads.kv_heads as int;
            let row = f.heads.kv_heads * f.heads.head;
            let score = |t: int|
                sum(
                    |d: int|
                        e.value(f.q[f.h * head + d]) * e.value(
                            f.key[t * row + (f.h / group) * head + d],
                        ),
                    0,
                    head,
                ) / (e.sqrt)(head as real);
            let mix = sum(
                |t: int| (e.exp)(score(t)) * e.value(f.value[t * row + (f.h / group) * head + i]),
                0,
                f.pos + 1,
            ) / sum(|t: int| (e.exp)(score(t)), 0, f.pos + 1);
            &&& e.value(attention_value(f.heads, f.q, f.key, f.value, f.h, f.pos, i)) == mix
            &&& f.heads.head <= 128 ==> e.value(f.output(i)) == mix
        }),
{
    let head = f.heads.head as int;
    let group = f.heads.q_heads as int / f.heads.kv_heads as int;
    let row = f.heads.kv_heads * f.heads.head;
    let score = |t: int|
        sum(
            |d: int|
                e.value(f.q[f.h * head + d]) * e.value(f.key[t * row + (f.h / group) * head + d]),
            0,
            head,
        ) / (e.sqrt)(head as real);
    let mixed = |t: int|
        (e.exp)(score(t)) * e.value(f.value[t * row + (f.h / group) * head + i]);
    let masses = |t: int| (e.exp)(score(t));
    assert forall|t: int| #[trigger] exact_score(e, f, t) == score(t) by {
        law_score_is_scaled_dot_product(e, f.heads, f.q, f.key, f.h, t);
    }
    lemma_serial_attention(e, f, i);
    lemma_sum_ext(unscaled(e, f, i), mixed, 0, f.pos + 1);
    lemma_sum_ext(|t: int| (e.exp)(exact_score(e, f, t)), masses, 0, f.pos + 1);
    if f.heads.head <= 128 {
        law_flash_decoding_is_attention(e, f, i);
    }
}

/// The serial kernel leaves the softmax of the scores in `att`: `exp(score)` over the sum of
/// `exp(score)` for the positions up to `pos`. Later positions, and heads beyond the
/// launched groups, keep what they held.
pub proof fn law_attention_weights_are_softmax(
    e: Exact,
    f: Flash,
    att: Seq<Scalar>,
    seq_len: int,
    groups: int,
    t: int,
)
    requires
        e.has_zero(),
        0 <= f.pos < u32::MAX,
        0 <= f.h,
        0 <= t < seq_len,
        f.h * seq_len + t < att.len(),
    ensures
        ({
            let head = f.heads.head as int;
            let group = f.heads.q_heads as int / f.heads.kv_heads as int;
            let row = f.heads.kv_heads * f.heads.head;
            let score = |p: int|
                sum(
                    |d: int|
                        e.value(f.q[f.h * head + d]) * e.value(
                            f.key[p * row + (f.h / group) * head + d],
                        ),
                    0,
                    head,
                ) / (e.sqrt)(head as real);
            let at = f.h * seq_len + t;
            let left = attention_weights(f.heads, f.q, f.key, att, seq_len, f.pos, groups);
            &&& left.len() == att.len()
            &&& f.h < groups && t <= f.pos ==> e.value(left[at]) == (e.exp)(score(t)) / sum(
                |p: int| (e.exp)(score(p)),
                0,
                f.pos + 1,
            )
            &&& f.h >= groups || t > f.pos ==> left[at] == att[at]
        }),
{
    let head = f.heads.head as int;
    let group = f.heads.q_heads as int / f.heads.kv_heads as int;
    let row = f.heads.kv_heads * f.heads.head;
    let score = |p: int|
        sum(
            |d: int|
                e.value(f.q[f.h * head + d]) * e.value(f.key[p * row + (f.h / group) * head + d]),
            0,
            head,
        ) / (e.sqrt)(head as real);
    let masses = |p: int| (e.exp)(score(p));
    let scores = |p: int| score_value(f.heads, f.q, f.key, f.h, p);
    assert forall|p: int| e.value(#[trigger] scores(p)) == score(p) by {
        law_score_is_scaled_dot_product(e, f.heads, f.q, f.key, f.h, p);
    }
    lemma_flat(f.h, t, seq_len);
    if f.h < groups {
        lemma_index(f.h, t, groups, seq_len);
    } else {
        assert(groups * seq_len <= f.h * seq_len) by (nonlinear_arith)
            requires
                groups <= f.h,
                0 <= seq_len,
        ;
    }
    assert(0 <= f.h * seq_len) by (nonlinear_arith)
        requires
            0 <= f.h,
            0 <= seq_len,
    ;
    if t <= f.pos {
        lemma_value_lanes(e, scores, (f.pos + 1) as nat);
        lemma_sum_ext(|p: int| (e.exp)(e.value(scores(p))), masses, 0, f.pos + 1);
        let lanes = lanes_of(scores, (f.pos + 1) as nat);
        assert(lanes == score_lanes(f.heads, f.q, f.key, f.h, f.pos));
        assert(e.lane(lanes, t) == e.value(scores(t)));
        assert(e.value(attention_weight(f.heads, f.q, f.key, f.h, f.pos, t)) == (e.exp)(score(t))
            / sum(masses, 0, f.pos + 1));
    }
}

/// Both ways of computing attention leave in element `(h, i)` of `xb` the sum of
/// `exp(score) * value` over the sum of `exp(score)`, for every head.
pub proof fn law_attention_output_is_softmax_of_scores(
    e: Exact,
    f: Flash,
    scratch: Seq<Scalar>,
    xb: Seq<Scalar>,
    splits: int,
    slot: int,
    i: int,
)
    requires
        e.has_zero(),
        e.has_exponential(),
        0 <= f.h < f.heads.q_heads,
        0 < f.heads.head <= 128,
        0 <= f.pos < u32::MAX,
        0 <= i < f.heads.head,
        f.pos < 32 * splits,
        f.heads.head + 2 <= slot,
        scratch.len() == f.heads.q_heads * splits * slot,
        xb.len() == f.heads.q_heads * f.heads.head,
    ensures
        ({
            let heads = f.heads;
            let head = heads.head as int;
            let group = heads.q_heads as int / heads.kv_heads as int;
            let row = heads.kv_heads * heads.head;
            let score = |t: int|
                sum(
                    |d: int|
                        e.value(f.q[f.h * head + d]) * e.value(
                            f.key[t * row + (f.h / group) * head + d],
                        ),
                    0,
                    head,
                ) / (e.sqrt)(head as real);
            let mix = sum(
                |t: int| (e.exp)(score(t)) * e.value(f.value[t * row + (f.h / group) * head + i]),
                0,
                f.pos + 1,
            ) / sum(|t: int| (e.exp)(score(t)), 0, f.pos + 1);
            let at = f.h * head + i;
            let launched = heads.q_heads * splits;
            let partial = partial_pass(
                heads,
                f.q,
                f.key,
                f.value,
                scratch,
                splits,
                slot,
                f.pos,
                launched,
            );
            let serial = attention_output(
                heads,
                f.q,
                f.key,
                f.value,
                xb,
                f.pos,
                heads.q_heads as int,
            );
            let combined = combine_pass(
                partial,
                xb,
                splits,
                slot,
                head,
                f.pos,
                heads.q_heads as int,
            );
            &&& serial.len() == xb.len()
            &&& combined.len() == xb.len()
            &&& e.value(serial[at]) == mix
            &&& e.value(combined[at]) == mix
        }),
{
    let head = f.heads.head as int;
    law_attention_is_softmax_of_scores(e, f, i);
    law_two_passes_are_attention(e, f, scratch, xb, splits, slot, i);
    lemma_flat(f.h, i, head);
    lemma_index(f.h, i, f.heads.q_heads as int, head);
}

/// `m` is the largest of `f(0), .., f(n - 1)`.
pub open spec fn is_largest(f: spec_fn(int) -> real, n: int, m: real) -> bool {
    &&& forall|j: int| 0 <= j < n ==> #[trigger] f(j) <= m
    &&& exists|j: int| 0 <= j < n && #[trigger] f(j) == m
}

proof fn lemma_value_largest(e: Exact, f: spec_fn(int) -> Scalar, j: int, end: int, acc: Scalar)
    ensures
        ({
            let m = e.value(largest_from(f, j, end, acc));
            &&& e.value(acc) <= m
            &&& forall|i: int| j <= i < end ==> e.value(#[trigger] f(i)) <= m
            &&& e.value(acc) == m || exists|i: int| j <= i < end && e.value(#[trigger] f(i)) == m
        }),
    decreases end - j,
{
    if j < end {
        let next = Scalar::Larger(Box::new(acc), Box::new(f(j)));
        lemma_value_largest(e, f, j + 1, end, next);
        let m = e.value(largest_from(f, j + 1, end, next));
        assert(e.value(next) == (if e.value(f(j)) > e.value(acc) {
            e.value(f(j))
        } else {
            e.value(acc)
        }));
        assert forall|i: int| j <= i < end implies e.value(#[trigger] f(i)) <= m by {
            if i == j {
                assert(e.value(f(j)) <= e.value(next));
            }
        }
    }
}

/// A running maximum that starts at the first of `n` values is their largest.
proof fn lemma_value_max(e: Exact, f: spec_fn(int) -> Scalar, n: int)
    requires
        0 < n,
    ensures
        is_largest(e.values(f), n, e.value(largest_from(f, 1, n, f(0)))),
{
    let m = e.value(largest_from(f, 1, n, f(0)));
    lemma_value_largest(e, f, 1, n, f(0));
    assert forall|j: int| 0 <= j < n implies #[trigger] e.values(f)(j) <= m by {
        assert(e.value(f(j)) <= m);
    }
    if e.value(f(0)) == m {
        assert(e.values(f)(0) == m);
    } else {
        let i = choose|i: int| 1 <= i < n && e.value(#[trigger] f(i)) == m;
        assert(e.values(f)(i) == m);
    }
}

/// The serial kernel leaves in element `(h, i)` of `xb` the sum of `exp(score) * value` over
/// the sum of `exp(score)`, for every head size. Heads beyond the launched groups keep what
/// they held.
pub proof fn law_serial_attention_output(
    e: Exact,
    f: Flash,
    xb: Seq<Scalar>,
    groups: int,
    i: int,
)
    requires
        e.has_zero(),
        e.has_exponential(),
        0 <= f.h,
        0 <= f.pos < u32::MAX,
        0 <= i < f.heads.head,
        f.h * f.heads.head + i < xb.len(),
    ensures
        ({
            let head = f.heads.head as int;
            let group = f.heads.q_heads as int / f.heads.kv_heads as int;
            let row = f.heads.kv_heads * f.heads.head;
            let score = |t: int|
                sum(
                    |d: int|
                        e.value(f.q[f.h * head + d]) * e.value(
                            f.key[t * row + (f.h / group) * head + d],
                        ),
                    0,
                    head,
                ) / (e.sqrt)(head as real);
            let at = f.h * head + i;
            let left = attention_output(f.heads, f.q, f.key, f.value, xb, f.pos, groups);
            &&& left.len() == xb.len()
            &&& f.h < groups ==> e.value(left[at]) == sum(
                |t: int| (e.exp)(score(t)) * e.value(f.value[t * row + (f.h / group) * head + i]),
                0,
                f.pos + 1,
            ) / sum(|t: int| (e.exp)(score(t)), 0, f.pos + 1)
            &&& f.h >= groups ==> left[at] == xb[at]
        }),
{
    let head = f.heads.head as int;
    law_attention_is_softmax_of_scores(e, f, i);
    lemma_flat(f.h, i, head);
    if f.h < groups {
        lemma_index(f.h, i, groups, head);
    } else {
        assert(groups * head <= f.h * head) by (nonlinear_arith)
            requires
                groups <= f.h,
                0 <= head,
        ;
    }
    assert(0 <= f.h * head) by (nonlinear_arith)
        requires
            0 <= f.h,
            0 <= head,
    ;
}

/// What the first pass leaves of a split of positions `32 s .. min(32 s + 32, pos + 1)`: the
/// largest score `m`, the sum of `exp(score - m)`, and for each dimension the sum of
/// `exp(score - m) * value`.
pub proof fn law_partial_slot_summarises_its_split(e: Exact, f: Flash, s: int, i: int)
    requires
        e.has_zero(),
        0 < f.heads.head <= 128,
        0 <= s,
        32 * s <= f.pos,
        0 <= i < f.heads.head,
    ensures
        ({
            let head = f.heads.head as int;
            let group = f.heads.q_heads as int / f.heads.kv_heads as int;
            let row = f.heads.kv_heads * f.heads.head;
            let n = if 32 * s + 32 <= f.pos + 1 {
                32
            } else {
                f.pos + 1 - 32 * s
            };
            let score = |j: int|
                sum(
                    |d: int|
                        e.value(f.q[f.h * head + d]) * e.value(
                            f.key[(32 * s + j) * row + (f.h / group) * head + d],
                        ),
                    0,
                    head,
                ) / (e.sqrt)(head as real);
            let m = e.value(f.split(s).slot(head));
            &&& is_largest(score, n, m)
            &&& e.value(f.split(s).slot(head + 1)) == sum(
                |j: int| (e.exp)(score(j) - m),
                0,
                n,
            )
            &&& e.value(f.split(s).slot(i)) == sum(
                |j: int|
                    (e.exp)(score(j) - m) * e.value(
                        f.value[(32 * s + j) * row + (f.h / group) * head + i],
                    ),
                0,
                n,
            )
        }),
{
    let head = f.heads.head as int;
    let group = f.heads.q_heads as int / f.heads.kv_heads as int;
    let row = f.heads.kv_heads * f.heads.head;
    let n = if 32 * s + 32 <= f.pos + 1 {
        32
    } else {
        f.pos + 1 - 32 * s
    };
    let score = |j: int|
        sum(
            |d: int|
                e.value(f.q[f.h * head + d]) * e.value(
                    f.key[(32 * s + j) * row + (f.h / group) * head + d],
                ),
            0,
            head,
        ) / (e.sqrt)(head as real);
    let sp = f.split(s);
    let m = e.value(sp.slot(head));
    let scalars = |j: int| sp.score(j);
    assert(split_start(s) == 32 * s);
    assert(split_len(s, f.pos) == n);
    assert forall|j: int|
        #[trigger] e.values(scalars)(j) == score(j) && exact_score(e, f, 32 * s + j) == score(
            j,
        ) by {
        law_split_score_is_scaled_dot_product(e, f, s, j);
        lemma_split_score(e, f, s, j);
    }
    lemma_value_max(e, scalars, n);
    assert(is_largest(score, n, m)) by {
        assert forall|j: int| 0 <= j < n implies #[trigger] score(j) <= m by {
            assert(e.values(scalars)(j) <= m);
        }
        let j = choose|j: int| 0 <= j < n && #[trigger] e.values(scalars)(j) == m;
        assert(score(j) == m);
    }
    let mass = |j: int| (e.exp)(score(j) - m);
    let mixed = |j: int|
        (e.exp)(score(j) - m) * e.value(f.value[(32 * s + j) * row + (f.h / group) * head + i]);
    lemma_split_slot(e, f, s, i);
    lemma_split_slot(e, f, s, head + 1);
    let slot_mixed = |j: int|
        (e.exp)(exact_score(e, f, split_start(s) + j) - e.value(sp.max())) * slot_weight(
            e,
            f,
            i,
            split_start(s) + j,
        );
    assert forall|j: int| 0 <= j < n implies #[trigger] slot_mixed(j) == mixed(j) by {
        assert(e.values(scalars)(j) == score(j));
    }
    lemma_sum_ext(slot_mixed, mixed, 0, n);
    let slot_mass = |j: int|
        (e.exp)(exact_score(e, f, split_start(s) + j) - e.value(sp.max())) * slot_weight(
            e,
            f,
            head + 1,
            split_start(s) + j,
        );
    assert forall|j: int| 0 <= j < n implies #[trigger] slot_mass(j) == mass(j) by {
        assert(e.values(scalars)(j) == score(j));
        let x = (e.exp)(score(j) - m);
        assert(x * (1 as real) == x) by (nonlinear_arith);
    }
    lemma_sum_ext(slot_mass, mass, 0, n);
}

/// The first pass fills the slot of head `h` and split `s` where the split starts at or
/// before `pos`, and leaves every other element of the scratch alone.
pub proof fn law_partial_pass_fills_live_slots(
    f: Flash,
    scratch: Seq<Scalar>,
    splits: int,
    slot: int,
    groups: int,
    s: int,
    r: int,
)
    requires
        0 <= f.h,
        0 <= s < splits,
        0 <= r < slot,
        (f.h * splits + s) * slot + r < scratch.len(),
    ensures
        ({
            let at = (f.h * splits + s) * slot + r;
            let left = partial_pass(
                f.heads,
                f.q,
                f.key,
                f.value,
                scratch,
                splits,
                slot,
                f.pos,
                groups,
            );
            let filled = f.h * splits + s < groups && 32 * s <= f.pos && r < f.heads.head + 2;
            &&& left.len() == scratch.len()
            &&& filled ==> left[at] == f.split(s).slot(r)
            &&& !filled ==> left[at] == scratch[at]
        }),
{
    let g = f.h * splits + s;
    lemma_flat(g, r, slot);
    lemma_flat(f.h, s, splits);
    assert(0 <= f.h * splits) by (nonlinear_arith)
        requires
            0 <= f.h,
            0 <= splits,
    ;
    assert(0 <= g * slot) by (nonlinear_arith)
        requires
            0 <= g,
            0 <= slot,
    ;
    if g < groups {
        lemma_index(g, r, groups, slot);
    } else {
        assert(groups * slot <= g * slot) by (nonlinear_arith)
            requires
                groups <= g,
                0 <= slot,
        ;
    }
    assert(split_start(s) == 32 * s);
}

/// The second pass rescales the slots of the `pos / 32 + 1` live splits to their largest
/// maximum `m` and leaves the sum of `mix * exp(max - m)` over the sum of
/// `mass * exp(max - m)`, whatever the slots hold. Heads beyond the launched groups, and
/// dimensions from 128 on, keep what they held.
pub proof fn law_combine_pass_rescales_slots(
    e: Exact,
    partial: Seq<Scalar>,
    xb: Seq<Scalar>,
    splits: int,
    slot: int,
    head: int,
    pos: int,
    groups: int,
    h: int,
    i: int,
    m: real,
)
    requires
        e.has_zero(),
        0 <= pos,
        0 <= h,
        0 <= i < head,
        h * head + i < xb.len(),
        is_largest(
            |s: int| e.value(partial[(h * splits + s) * slot + head]),
            pos / 32 + 1,
            m,
        ),
    ensures
        ({
            let at = h * head + i;
            let left = combine_pass(partial, xb, splits, slot, head, pos, groups);
            let scaled = |r: int|
                sum(
                    |s: int|
                        e.value(partial[(h * splits + s) * slot + r]) * (e.exp)(
                            e.value(partial[(h * splits + s) * slot + head]) - m,
                        ),
                    0,
                    pos / 32 + 1,
                );
            &&& left.len() == xb.len()
            &&& h < groups && i < 128 ==> e.value(left[at]) == scaled(i) / scaled(head + 1)
            &&& h >= groups || i >= 128 ==> left[at] == xb[at]
        }),
{
    let live = pos / 32 + 1;
    let v = slots_of_head(partial, splits, slot, head, pos, h);
    let scaled = |r: int|
        sum(
            |s: int|
                e.value(partial[(h * splits + s) * slot + r]) * (e.exp)(
                    e.value(partial[(h * splits + s) * slot + head]) - m,
                ),
            0,
            live,
        );
    let given = |s: int| e.value(partial[(h * splits + s) * slot + head]);
    let maxima = |s: int| v.at(s, head);
    lemma_flat(h, i, head);
    assert(0 <= h * head) by (nonlinear_arith)
        requires
            0 <= h,
            0 <= head,
    ;
    if h < groups {
        lemma_index(h, i, groups, head);
    } else {
        assert(groups * head <= h * head) by (nonlinear_arith)
            requires
                groups <= h,
                0 <= head,
        ;
    }
    assert forall|s: int, r: int| #[trigger] v.at(s, r) == partial[(h * splits + s) * slot + r] by {
        assert((h * splits + s) * slot == h * splits * slot + s * slot) by (nonlinear_arith);
    }
    lemma_value_max(e, maxima, live);
    let top = e.value(v.max());
    assert(top == m) by {
        let a = choose|a: int| 0 <= a < live && #[trigger] given(a) == m;
        assert(e.values(maxima)(a) == given(a));
        let b = choose|b: int| 0 <= b < live && #[trigger] e.values(maxima)(b) == top;
        assert(given(b) == e.values(maxima)(b));
    }
    assert forall|r: int| e.value(#[trigger] v.total(r)) == scaled(r) by {
        let term = |s: int| Scalar::Mul(Box::new(v.at(s, r)), Box::new(v.rescale(s)));
        let plain = |s: int|
            e.value(partial[(h * splits + s) * slot + r]) * (e.exp)(
                e.value(partial[(h * splits + s) * slot + head]) - m,
            );
        lemma_value_in_order(e, term, live);
        assert forall|s: int| 0 <= s < live implies #[trigger] e.values(term)(s) == plain(s) by {
            let gap = Scalar::Sub(Box::new(v.at(s, head)), Box::new(v.max()));
            assert(e.value(gap) == e.value(v.at(s, head)) - m);
            assert(e.value(v.rescale(s)) == (e.exp)(e.value(gap)));
        }
        lemma_sum_ext(e.values(term), plain, 0, live);
    }
    assert(e.value(v.output(i)) == scaled(i) / scaled(head + 1));
}

/// The angle of the pair at `i` is `pos * (1 / theta^(d / head))`, where `d` is the
/// dimension within the head.
pub proof fn law_rope_angle(e: Exact, pos: u32, i: int, head: u32, theta: u32)
    requires
        e.has_one(),
        0 < head <= 0x8000_0000,
    ensures
        e.value(rope_angle(pos, i, head, theta)) == (pos as int as real) * ((1 as real)
            / (e.pow)(
            (e.literal)(theta),
            ((i % head as int) as real) / (head as int as real),
        )),
{
    let d = i % head as int;
    assert(0 <= d < head) by (nonlinear_arith)
        requires
            0 < head,
            d == i % head as int,
    ;
    assert(d as i32 == d);
    let dim = Scalar::FromI32(d as i32);
    let size = Scalar::FromU32(head);
    assert(e.value(dim) == d as real);
    assert(e.value(size) == head as int as real);
    let exponent = Scalar::Div(Box::new(dim), Box::new(size));
    assert(e.value(exponent) == (d as real) / (head as int as real));
    let base = Scalar::Bits(theta);
    assert(e.value(base) == (e.literal)(theta));
    let power = Scalar::Pow(Box::new(base), Box::new(exponent));
    assert(e.value(power) == (e.pow)((e.literal)(theta), (d as real) / (head as int as real)));
    let one = Scalar::Bits(ONE_BITS);
    assert(e.value(one) == 1 as real);
    let freq = Scalar::Div(Box::new(one), Box::new(power));
    assert(e.value(freq) == (1 as real) / e.value(power));
    assert(e.value(Scalar::FromU32(pos)) == pos as int as real);
}

/// Past position zero, two pairs turn by the same angle exactly where they have the same
/// dimension within their heads, as different powers of theta differ.
pub proof fn law_rope_angles_tell_dimensions_apart(
    e: Exact,
    pos: u32,
    i: int,
    j: int,
    head: u32,
    theta: u32,
)
    requires
        e.has_one(),
        0 < head <= 0x8000_0000,
        0 < pos,
        forall|a: real, b: real|
            a != b ==> #[trigger] (e.pow)((e.literal)(theta), a) != #[trigger] (e.pow)(
                (e.literal)(theta),
                b,
            ),
        forall|a: real| #[trigger] (e.pow)((e.literal)(theta), a) != 0 as real,
    ensures
        e.value(rope_angle(pos, i, head, theta)) == e.value(rope_angle(pos, j, head, theta)) <==> i
            % head as int == j % head as int,
{
    law_rope_angle(e, pos, i, head, theta);
    law_rope_angle(e, pos, j, head, theta);
    let n = head as int as real;
    let t = pos as int as real;
    let a = (i % head as int) as real;
    let b = (j % head as int) as real;
    let x = (e.pow)((e.literal)(theta), a / n);
    let y = (e.pow)((e.literal)(theta), b / n);
    assert(a / n == b / n ==> a == b) by (nonlinear_arith)
        requires
            n > 0 as real,
    ;
    assert(t * ((1 as real) / x) == t * ((1 as real) / y) ==> x == y) by (nonlinear_arith)
        requires
            t > 0 as real,
            x != 0 as real,
            y != 0 as real,
    ;
}

/// Rotation turns the pair `(a, b)` at dimensions `2 k` and `2 k + 1` to
/// `(a cos - b sin, a sin + b cos)` at the angle `pos / theta^(d / head)`, for every pair it
/// covers, and leaves all other elements alone.
pub proof fn law_rotation_turns_each_pair(
    e: Exact,
    dst: Seq<Scalar>,
    base: int,
    src: Seq<Scalar>,
    src_base: int,
    n: int,
    pos: u32,
    head: u32,
    theta: u32,
    k: int,
)
    requires
        e.has_one(),
        0 < head <= 0x8000_0000,
        0 <= base,
        base + 2 * n <= dst.len(),
        0 <= k < n,
    ensures
        ({
            let left = rotate_into(dst, base, src, src_base, n, pos, head, theta);
            let a = e.value(src[src_base + 2 * k]);
            let b = e.value(src[src_base + 2 * k + 1]);
            let angle = (pos as int as real) * ((1 as real) / (e.pow)(
                (e.literal)(theta),
                ((2 * k % head as int) as real) / (head as int as real),
            ));
            &&& left.len() == dst.len()
            &&& e.value(left[base + 2 * k]) == a * (e.cos)(angle) - b * (e.sin)(angle)
            &&& e.value(left[base + 2 * k + 1]) == a * (e.sin)(angle) + b * (e.cos)(angle)
            &&& forall|j: int|
                0 <= j < dst.len() && !(base <= j < base + 2 * n) ==> #[trigger] left[j] == dst[j]
        }),
{
    law_rope_angle(e, pos, 2 * k, head, theta);
    let angle = rope_angle(pos, 2 * k, head, theta);
    let cos = Scalar::Cos(Box::new(angle));
    let sin = Scalar::Sin(Box::new(angle));
    let v0 = src[src_base + 2 * k];
    let v1 = src[src_base + 2 * k + 1];
    let a = e.value(v0);
    let b = e.value(v1);
    let x = e.value(angle);
    assert(e.value(cos) == (e.cos)(x) && e.value(sin) == (e.sin)(x));
    assert(e.value(Scalar::Mul(Box::new(v0), Box::new(cos))) == a * (e.cos)(x));
    assert(e.value(Scalar::Mul(Box::new(v1), Box::new(sin))) == b * (e.sin)(x));
    assert(e.value(Scalar::Mul(Box::new(v0), Box::new(sin))) == a * (e.sin)(x));
    assert(e.value(Scalar::Mul(Box::new(v1), Box::new(cos))) == b * (e.cos)(x));
    assert((2 * k) % 2 == 0 && (2 * k + 1) % 2 == 1);
    assert(e.value(rotated(src, src_base, 2 * k, pos, head, theta)) == a * (e.cos)(x) - b * (e.sin)(
        x,
    ));
    assert(e.value(rotated(src, src_base, 2 * k + 1, pos, head, theta)) == a * (e.sin)(x) + b
        * (e.cos)(x));
}

/// Thread `t` turns the pair at `2 t`: of the launched threads, those whose pair starts
/// within the width.
pub proof fn law_threads_turn_their_pairs(threads: int, q_width: int, kv_width: int, t: int)
    requires
        0 <= threads,
        0 <= q_width,
        0 <= kv_width,
    ensures
        0 <= pairs(threads, q_width),
        0 <= t ==> (t < pairs(threads, q_width) <==> t < threads && 2 * t < q_width),
        0 <= t ==> (t < pairs(threads, narrower(q_width, kv_width)) <==> t < threads && 2 * t
            < q_width && 2 * t < kv_width),
{
}

/// RMSNorm leaves `weight * (x / sqrt(mean of squares + eps))` in each element, where `eps`
/// is `1e-5` as an `f32`.
pub proof fn law_rmsnorm_divides_by_root_mean_square(
    e: Exact,
    x: Seq<Scalar>,
    weight: Seq<Scalar>,
    j: int,
)
    requires
        e.has_zero(),
        e.has_one(),
        0 < x.len() <= u32::MAX,
        0 <= j < x.len(),
    ensures
        ({
            let n = x.len() as int;
            let square = |i: int| e.value(x[i]) * e.value(x[i]);
            let mean = sum(square, 0, n) / (n as real);
            let left = rms_normalized(x, weight);
            &&& left.len() == n
            &&& e.value(left[j]) == e.value(weight[j]) * (((1 as real) / (e.sqrt)(
                mean + (e.literal)(0x3727_c5ac),
            )) * e.value(x[j]))
        }),
{
    let n = x.len() as int;
    let square = |i: int| e.value(x[i]) * e.value(x[i]);
    law_rms_lanes_add_up_all_squares(e, x);
    let total = Scalar::WorkgroupSum(Box::new(lanes_of(square_lane(x), WORKGROUP as nat)));
    assert(e.value(total) == sum(square, 0, n));
    let count = Scalar::FromU32(x.len() as u32);
    assert(e.value(count) == n as real);
    let mean = Scalar::Div(Box::new(total), Box::new(count));
    assert(e.value(mean) == sum(square, 0, n) / (n as real));
    let eps = Scalar::Bits(RMS_EPS_BITS);
    assert(e.value(eps) == (e.literal)(0x3727_c5ac));
    let shifted = Scalar::Add(Box::new(mean), Box::new(eps));
    assert(e.value(shifted) == e.value(mean) + e.value(eps));
    let root = Scalar::Sqrt(Box::new(shifted));
    assert(e.value(root) == (e.sqrt)(e.value(shifted)));
    let one = Scalar::Bits(ONE_BITS);
    assert(e.value(one) == 1 as real);
    assert(e.value(rms_scale(x)) == (1 as real) / e.value(root));
    let scaled = Scalar::Mul(Box::new(rms_scale(x)), Box::new(x[j]));
    assert(e.value(scaled) == e.value(rms_scale(x)) * e.value(x[j]));
}

/// SwiGLU is `v * sigmoid(v) * u`, with `sigmoid(v) = 1 / (1 + exp(-v))`.
pub proof fn law_swiglu_gates_by_sigmoid(e: Exact, v: Scalar, u: Scalar)
    requires
        e.has_one(),
    ensures
        e.value(swiglu_value(v, u)) == (e.value(v) * ((1 as real) / ((1 as real) + (e.exp)(
            -e.value(v),
        )))) * e.value(u),
{
    let one = Scalar::Bits(ONE_BITS);
    assert(e.value(one) == 1 as real);
    let negated = Scalar::Neg(Box::new(v));
    assert(e.value(negated) == -e.value(v));
    let exp = Scalar::Exp(Box::new(negated));
    assert(e.value(exp) == (e.exp)(-e.value(v)));
    let below = Scalar::Add(Box::new(one), Box::new(exp));
    assert(e.value(below) == (1 as real) + (e.exp)(-e.value(v)));
    let sigmoid = Scalar::Div(Box::new(one), Box::new(below));
    assert(e.value(sigmoid) == (1 as real) / e.value(below));
    assert(e.value(silu_value(v)) == e.value(v) * e.value(sigmoid));
}

/// Row `i` of a matrix-vector product is the dot product of row `i` of the matrix with the
/// vector.
pub proof fn law_gemv_is_row_dot_product(e: Exact, x: Seq<Scalar>, w: Seq<Scalar>, i: int)
    requires
        e.has_zero(),
    ensures
        e.value(gemv_value(x, w, i)) == sum(
            |j: int| e.value(w[i * x.len() + j]) * e.value(x[j]),
            0,
            x.len() as int,
        ),
{
    let products = |j: int| e.value(w[i * x.len() + j]) * e.value(x[j]);
    lemma_value_in_order(e, gemv_term(x, w, i), x.len() as int);
    lemma_sum_ext(e.values(gemv_term(x, w, i)), products, 0, x.len() as int);
}

/// `2^k`.
pub open spec fn two_to(k: int) -> real
    decreases (if k < 0 { -k } else { k }),
{
    if k == 0 {
        1 as real
    } else if k > 0 {
        (2 as real) * two_to(k - 1)
    } else {
        two_to(k + 1) / (2 as real)
    }
}

/// The number that a finite `f32` bit pattern stands for: one sign bit, eight bits of
/// exponent, 23 bits of fraction.
pub open spec fn float_of(bits: u32) -> real {
    let exponent = (bits as int / 0x80_0000) % 256;
    let fraction = bits as int % 0x80_0000;
    let magnitude = if exponent == 0 {
        (fraction as real) * two_to(-149)
    } else {
        ((0x80_0000 + fraction) as real) * two_to(exponent - 150)
    };
    if bits as int >= 0x8000_0000 {
        -magnitude
    } else {
        magnitude
    }
}

proof fn lemma_two_to_tens()
    ensures
        two_to(-10) == (1 as real) / (0x400 as real),
        two_to(-20) == (1 as real) / (0x10_0000 as real),
        two_to(-23) == (1 as real) / (0x80_0000 as real),
        two_to(-30) == (1 as real) / (0x4000_0000 as real),
        two_to(-40) == (1 as real) / (0x100_0000_0000 as real),
        two_to(-41) == (1 as real) / (0x200_0000_0000 as real),
{
    reveal_with_fuel(two_to, 12);
    assert(two_to(-10) == (1 as real) / (0x400 as real));
    assert(two_to(-20) == (1 as real) / (0x10_0000 as real));
    assert(two_to(-30) == (1 as real) / (0x4000_0000 as real));
}

/// The literals of the kernels: the epsilon of RMSNorm is the `f32` nearest to `1e-5`, and
/// the default RoPE theta is ten thousand.
pub proof fn law_literals_are_what_they_are_named(e: Exact)
    requires
        forall|bits: u32| #[trigger] (e.literal)(bits) == float_of(bits),
    ensures
        e.has_zero(),
        e.has_one(),
        e.value(Scalar::Bits(ZERO_BITS)) == 0 as real,
        e.value(Scalar::Bits(ONE_BITS)) == 1 as real,
        e.value(Scalar::Bits(DEFAULT_ROPE_THETA)) == 10000 as real,
        -two_to(-41) <= e.value(Scalar::Bits(RMS_EPS_BITS)) - (1 as real) / (100000 as real)
            <= two_to(-41),
{
    lemma_two_to_tens();
    assert((e.literal)(0) == float_of(0));
    assert((e.literal)(0x3f80_0000) == float_of(0x3f80_0000));
    assert((e.literal)(0x461c_4000) == float_of(0x461c_4000));
    assert((e.literal)(0x3727_c5ac) == float_of(0x3727_c5ac));
    assert((0 as real) * two_to(-149) == 0 as real) by (nonlinear_arith);
    assert(float_of(0x3f80_0000) == (0x80_0000 as real) * two_to(-23));
    assert(float_of(0x461c_4000) == (0x9c_4000 as real) * two_to(-10));
    assert(float_of(0x3727_c5ac) == (0xa7_c5ac as real) * two_to(-40));
}

/// Flash decoding splits the cache into 32 positions, for heads of up to 128 dimensions, with
/// four threads to a score; RMSNorm runs in workgroups of 256.
pub proof fn law_launch_sizes()
    ensures
        ATTENTION_SPLIT == 32,
        ATTENTION_MAX_HEAD == 128,
        SCORE_LANES == 4,
        ATTENTION_SPLIT * SCORE_LANES == ATTENTION_MAX_HEAD,
        WORKGROUP == 256,
{
}

} // verus!
