//! What the blocks compute, written out in exact arithmetic.
//!
//! Each law gives the numbers that a replay of a recorded block leaves, as a formula over
//! the numbers that its activations, weights and cache held before.
use crate::blocks::{
    attention_recording, embed_recording, ffn_recording, norm_recording, rmsnorm_inplace_recording,
    rmsnorm_recording, Recording,
};
use crate::exact::{lemma_sum_ext, sum, Exact};
use crate::formulas::{
    law_attention_is_softmax_of_scores, law_gemv_is_row_dot_product,
    law_rmsnorm_divides_by_root_mean_square, law_rotation_turns_each_pair,
    law_swiglu_gates_by_sigmoid,
};
use crate::kernels::attention::{attention_value, heads_of};
use crate::kernels::elementwise::{gemv_value, swiglu_value};
use crate::kernels::flash::Flash;
use crate::kernels::lemma_index;
use crate::kernels::norm::rms_normalized;
use crate::kernels::rope::rotate_into;
use crate::modules::{
    attention_shapes, law_attention_block_records, law_swiglu_block_records, lemma_head_width,
    splits_evenly, CausalAttentionBlock, CausalAttentionBlockWeights, KvLayer, SwiGluBlock,
    SwiGluBlockWeights,
};
use crate::replay::{
    apart, attended, law_attention_block_computes_attention, law_attention_block_sites_fit,
    law_ffn_computes_the_gated_mlp, law_replays_follow_each_other, law_swiglu_block_sites_fit,
    lemma_read_back, lemma_replay_one, outside, Memory,
};
use crate::scalar::Scalar;
use crate::scheme::{Grid, Recorded, TensorOp, Work};
use crate::signatures::law_rmsnorm_takes;
use crate::tensor::{Parcel, TensorShape, TensorView};
use vstd::prelude::*;

verus! {

/// A projection of a vector whose elements have known values.
proof fn lemma_projection(
    e: Exact,
    n: Seq<Scalar>,
    w: Seq<Scalar>,
    given: spec_fn(int) -> real,
    i: int,
)
    requires
        e.has_zero(),
        forall|k: int| 0 <= k < n.len() ==> e.value(#[trigger] n[k]) == given(k),
    ensures
        e.value(gemv_value(n, w, i)) == sum(
            |k: int| e.value(w[i * n.len() + k]) * given(k),
            0,
            n.len() as int,
        ),
{
    let plain = |k: int| e.value(w[i * n.len() + k]) * e.value(n[k]);
    let known = |k: int| e.value(w[i * n.len() + k]) * given(k);
    law_gemv_is_row_dot_product(e, n, w, i);
    assert forall|k: int| 0 <= k < n.len() implies #[trigger] plain(k) == known(k) by {
        assert(e.value(n[k]) == given(k));
    }
    lemma_sum_ext(plain, known, 0, n.len() as int);
}

/// A recorded SwiGLU block adds to each `x` the sum of `down * (g * sigmoid(g)) * u`, where
/// `g` and `u` are two projections of the normalized `x`, by the weights `gate` and `up`.
pub proof fn law_swiglu_block_adds_the_gated_mlp(
    e: Exact,
    m: Memory,
    semantic: bool,
    fusion: bool,
    block: SwiGluBlock,
    id: nat,
    hidden: u32,
    intermediate: u32,
    x: TensorView,
    weights: SwiGluBlockWeights,
    i: int,
)
    requires
        e.has_zero(),
        e.has_one(),
        m.device.launches_enough(),
        block.is_at(id, hidden, intermediate),
        x.wf(),
        x.shape == TensorShape::R1(hidden),
        weights.norm.shape == TensorShape::R1(hidden),
        weights.gate.shape == TensorShape::R2(intermediate, hidden),
        weights.up.shape == TensorShape::R2(intermediate, hidden),
        weights.down.shape == TensorShape::R2(hidden, intermediate),
        apart(
            seq![x.parcel],
            seq![
                weights.norm.parcel,
                weights.gate.parcel,
                weights.down.parcel,
                weights.up.parcel,
            ],
        ),
        outside(x.parcel, id, 6),
        outside(weights.norm.parcel, id, 6),
        outside(weights.gate.parcel, id, 6),
        outside(weights.down.parcel, id, 6),
        outside(weights.up.parcel, id, 6),
        0 <= i < hidden,
    ensures
        ({
            let recording = ffn_recording(semantic, fusion, block.sites(x, weights));
            let after = m.replayed(recording.entries);
            let at = |v: TensorView, j: int| e.value(m.read(v)[j]);
            let mean = sum(|k: int| at(x, k) * at(x, k), 0, hidden as int) / (
            hidden as int as real);
            let scale = (1 as real) / (e.sqrt)(mean + (e.literal)(0x3727_c5ac));
            let normal = |k: int| at(weights.norm, k) * (scale * at(x, k));
            let gate = |j: int|
                sum(|k: int| at(weights.gate, j * hidden + k) * normal(k), 0, hidden as int);
            let up = |j: int|
                sum(|k: int| at(weights.up, j * hidden + k) * normal(k), 0, hidden as int);
            &&& recording.error is None
            &&& e.value(after.read(x)[i]) == at(x, i) + sum(
                |j: int|
                    at(weights.down, i * intermediate + j) * ((gate(j) * ((1 as real) / ((1 as real)
                        + (e.exp)(-gate(j))))) * up(j)),
                0,
                intermediate as int,
            )
        }),
{
    let s = block.sites(x, weights);
    law_swiglu_block_records(block, id, hidden, intermediate, x, weights, semantic, fusion);
    law_swiglu_block_sites_fit(block, id, hidden, intermediate, x, weights);
    law_ffn_computes_the_gated_mlp(e, m, semantic, fusion, s, i);
    let at = |v: TensorView, j: int| e.value(m.read(v)[j]);
    let square = |k: int| at(x, k) * at(x, k);
    let mean = sum(square, 0, hidden as int) / (hidden as int as real);
    let scale = (1 as real) / (e.sqrt)(mean + (e.literal)(0x3727_c5ac));
    let normal = |k: int| at(weights.norm, k) * (scale * at(x, k));
    let gate = |j: int|
        sum(|k: int| at(weights.gate, j * hidden + k) * normal(k), 0, hidden as int);
    let up = |j: int| sum(|k: int| at(weights.up, j * hidden + k) * normal(k), 0, hidden as int);
    let n = m.replayed(
        norm_recording(semantic, s.x, s.rms, s.xb, s.norm).entries,
    ).read(s.xb);
    assert(n.len() == hidden);
    assert(m.read(x).len() == hidden);
    assert forall|k: int| 0 <= k < n.len() implies e.value(#[trigger] n[k]) == normal(k) by {
        law_rmsnorm_divides_by_root_mean_square(e, m.read(x), m.read(weights.norm), k);
        lemma_sum_ext(
            |j: int| e.value(m.read(x)[j]) * e.value(m.read(x)[j]),
            square,
            0,
            hidden as int,
        );
    }
    let got = |j: int|
        e.value(m.read(s.w2)[i * intermediate + j]) * e.value(
            swiglu_value(gemv_value(n, m.read(s.w1), j), gemv_value(n, m.read(s.w3), j)),
        );
    let want = |j: int|
        at(weights.down, i * intermediate + j) * ((gate(j) * ((1 as real) / ((1 as real) + (e.exp)(
            -gate(j),
        )))) * up(j));
    assert forall|j: int| 0 <= j < intermediate implies #[trigger] got(j) == want(j) by {
        lemma_projection(e, n, m.read(weights.gate), normal, j);
        lemma_projection(e, n, m.read(weights.up), normal, j);
        lemma_sum_ext(
            |k: int| e.value(m.read(weights.gate)[j * n.len() + k]) * normal(k),
            |k: int| at(weights.gate, j * hidden + k) * normal(k),
            0,
            hidden as int,
        );
        lemma_sum_ext(
            |k: int| e.value(m.read(weights.up)[j * n.len() + k]) * normal(k),
            |k: int| at(weights.up, j * hidden + k) * normal(k),
            0,
            hidden as int,
        );
        law_swiglu_gates_by_sigmoid(
            e,
            gemv_value(n, m.read(weights.gate), j),
            gemv_value(n, m.read(weights.up), j),
        );
    }
    lemma_sum_ext(got, want, 0, intermediate as int);
}

/// One element of a rotated vector whose elements have known values.
proof fn lemma_turned(
    e: Exact,
    dst: Seq<Scalar>,
    base: int,
    src: Seq<Scalar>,
    n: int,
    pos: u32,
    head: u32,
    theta: u32,
    raw: spec_fn(int) -> real,
    r: int,
)
    requires
        e.has_one(),
        0 < head <= 0x8000_0000,
        0 <= base,
        base + 2 * n <= dst.len(),
        0 <= r < 2 * n,
        2 * n <= src.len(),
        forall|k: int| 0 <= k < 2 * n ==> e.value(#[trigger] src[k]) == raw(k),
    ensures
        ({
            let i = r - r % 2;
            let angle = (pos as int as real) * ((1 as real) / (e.pow)(
                (e.literal)(theta),
                ((i % head as int) as real) / (head as int as real),
            ));
            e.value(rotate_into(dst, base, src, 0, n, pos, head, theta)[base + r]) == (if r % 2
                == 0 {
                raw(r) * (e.cos)(angle) - raw(r + 1) * (e.sin)(angle)
            } else {
                raw(r - 1) * (e.sin)(angle) + raw(r) * (e.cos)(angle)
            })
        }),
{
    let k = r / 2;
    law_rotation_turns_each_pair(e, dst, base, src, 0, n, pos, head, theta, k);
    assert(e.value(src[2 * k]) == raw(2 * k));
    assert(e.value(src[2 * k + 1]) == raw(2 * k + 1));
    assert(r - r % 2 == 2 * k);
}

/// The key and value head of query head `h` lies in a cached position.
proof fn lemma_shared_head(q_heads: int, kv_heads: int, head: int, h: int, d: int)
    requires
        0 < kv_heads <= q_heads,
        q_heads % kv_heads == 0,
        0 <= h < q_heads,
        0 <= d < head,
    ensures
        0 <= (h / (q_heads / kv_heads)) * head + d < kv_heads * head,
{
    let group = q_heads / kv_heads;
    assert(group >= 1 && group * kv_heads == q_heads) by (nonlinear_arith)
        requires
            0 < kv_heads <= q_heads,
            q_heads % kv_heads == 0,
            group == q_heads / kv_heads,
    ;
    assert(0 <= h / group < kv_heads) by (nonlinear_arith)
        requires
            group >= 1,
            0 <= h < group * kv_heads,
    ;
    lemma_index(h / group, d, kv_heads, head);
}

/// A recorded causal attention block adds to each `x` the output projection of attention on
/// the normalized `x`: queries and the step's key are turned by RoPE, the step's key and
/// value join the cache, and each query head mixes the values of its key head up to the
/// step's position by `exp(score)`, a score being the dot product over the square root of
/// the head size.
#[verifier::rlimit(60)]
pub proof fn law_attention_block_adds_attention(
    e: Exact,
    m: Memory,
    semantic: bool,
    block: CausalAttentionBlock,
    id: nat,
    hidden: u32,
    query_heads: u32,
    kv_heads: u32,
    seq_len: u32,
    x: TensorView,
    weights: CausalAttentionBlockWeights,
    cache: KvLayer,
    step: Parcel,
    i: int,
)
    requires
        e.has_zero(),
        e.has_one(),
        e.has_exponential(),
        m.device.launches_enough(),
        splits_evenly(hidden, query_heads),
        block.is_at(id, hidden, query_heads, seq_len),
        attention_shapes(hidden, query_heads, kv_heads, seq_len, x, weights, cache),
        hidden > 0,
        hidden % 2 == 0,
        kv_heads > 0,
        query_heads % kv_heads == 0,
        cache.key.shape.wf(),
        x.wf(),
        apart(
            seq![x.parcel, cache.key.parcel, cache.value.parcel],
            seq![
                weights.norm.parcel,
                weights.query.parcel,
                weights.key.parcel,
                weights.value.parcel,
                weights.output.parcel,
            ],
        ),
        outside(x.parcel, id, 7),
        outside(cache.key.parcel, id, 7),
        outside(cache.value.parcel, id, 7),
        outside(weights.norm.parcel, id, 7),
        outside(weights.query.parcel, id, 7),
        outside(weights.key.parcel, id, 7),
        outside(weights.value.parcel, id, 7),
        outside(weights.output.parcel, id, 7),
        (m.steps)(step).position < seq_len,
        0 <= i < hidden,
    ensures
        ({
            let recording = attention_recording(semantic, block.sites(x, weights, cache, step));
            let after = m.replayed(recording.entries);
            let at = |v: TensorView, j: int| e.value(m.read(v)[j]);
            let width = hidden as int;
            let head = hidden as int / query_heads as int;
            let row = kv_heads * head;
            let group = query_heads as int / kv_heads as int;
            let pos = (m.steps)(step).position as int;
            let mean = sum(|k: int| at(x, k) * at(x, k), 0, width) / (width as real);
            let scale = (1 as real) / (e.sqrt)(mean + (e.literal)(0x3727_c5ac));
            let normal = |k: int| at(weights.norm, k) * (scale * at(x, k));
            let project = |w: TensorView, r: int|
                sum(|k: int| at(w, r * width + k) * normal(k), 0, width);
            let angle = |r: int|
                (pos as real) * ((1 as real) / (e.pow)(
                    (e.literal)(0x461c_4000),
                    (((r - r % 2) % head) as real) / (head as real),
                ));
            let turn = |w: TensorView, r: int|
                if r % 2 == 0 {
                    project(w, r) * (e.cos)(angle(r)) - project(w, r + 1) * (e.sin)(angle(r))
                } else {
                    project(w, r - 1) * (e.sin)(angle(r)) + project(w, r) * (e.cos)(angle(r))
                };
            let key = |t: int, r: int|
                if t == pos {
                    turn(weights.key, r)
                } else {
                    at(cache.key, t * row + r)
                };
            let value = |t: int, r: int|
                if t == pos {
                    project(weights.value, r)
                } else {
                    at(cache.value, t * row + r)
                };
            let score = |h: int, t: int|
                sum(
                    |d: int|
                        turn(weights.query, h * head + d) * key(t, (h / group) * head + d),
                    0,
                    head,
                ) / (e.sqrt)(head as real);
            let mix = |j: int|
                sum(
                    |t: int|
                        (e.exp)(score(j / head, t)) * value(
                            t,
                            ((j / head) / group) * head + j % head,
                        ),
                    0,
                    pos + 1,
                ) / sum(|t: int| (e.exp)(score(j / head, t)), 0, pos + 1);
            &&& recording.error is None
            &&& forall|t: int, r: int|
                #![trigger key(t, r)]
                0 <= t < seq_len && 0 <= r < row ==> e.value(after.read(cache.key)[t * row + r])
                    == key(t, r)
            &&& forall|t: int, r: int|
                #![trigger value(t, r)]
                0 <= t < seq_len && 0 <= r < row ==> e.value(after.read(cache.value)[t * row + r])
                    == value(t, r)
            &&& e.value(after.read(x)[i]) == at(x, i) + sum(
                |j: int| at(weights.output, i * width + j) * mix(j),
                0,
                width,
            )
        }),
{
    let s = block.sites(x, weights, cache, step);
    law_attention_block_records(
        block,
        id,
        hidden,
        query_heads,
        kv_heads,
        seq_len,
        x,
        weights,
        cache,
        step,
        semantic,
    );
    law_attention_block_sites_fit(
        block,
        id,
        hidden,
        query_heads,
        kv_heads,
        seq_len,
        x,
        weights,
        cache,
        step,
    );
    law_attention_block_computes_attention(e, m, semantic, s, i);
    lemma_head_width(hidden, query_heads, kv_heads);
    let at = |v: TensorView, j: int| e.value(m.read(v)[j]);
    let width = hidden as int;
    let head = hidden as int / query_heads as int;
    let row = kv_heads * head;
    let group = query_heads as int / kv_heads as int;
    let pos = (m.steps)(step).position as int;
    let square = |k: int| at(x, k) * at(x, k);
    let mean = sum(square, 0, width) / (width as real);
    let scale = (1 as real) / (e.sqrt)(mean + (e.literal)(0x3727_c5ac));
    let normal = |k: int| at(weights.norm, k) * (scale * at(x, k));
    let project = |w: TensorView, r: int| sum(|k: int| at(w, r * width + k) * normal(k), 0, width);
    let angle = |r: int|
        (pos as real) * ((1 as real) / (e.pow)(
            (e.literal)(0x461c_4000),
            (((r - r % 2) % head) as real) / (head as real),
        ));
    let turn = |w: TensorView, r: int|
        if r % 2 == 0 {
            project(w, r) * (e.cos)(angle(r)) - project(w, r + 1) * (e.sin)(angle(r))
        } else {
            project(w, r - 1) * (e.sin)(angle(r)) + project(w, r) * (e.cos)(angle(r))
        };
    let key = |t: int, r: int|
        if t == pos {
            turn(weights.key, r)
        } else {
            at(cache.key, t * row + r)
        };
    let value = |t: int, r: int|
        if t == pos {
            project(weights.value, r)
        } else {
            at(cache.value, t * row + r)
        };
    let score = |h: int, t: int|
        sum(
            |d: int| turn(weights.query, h * head + d) * key(t, (h / group) * head + d),
            0,
            head,
        ) / (e.sqrt)(head as real);
    let mix = |j: int|
        sum(
            |t: int|
                (e.exp)(score(j / head, t)) * value(t, ((j / head) / group) * head + j % head),
            0,
            pos + 1,
        ) / sum(|t: int| (e.exp)(score(j / head, t)), 0, pos + 1);
    let n = m.replayed(norm_recording(semantic, s.x, s.rms, s.xb, s.norm).entries).read(s.xb);
    let a = attended(m, s, n);
    let heads = heads_of(s.q.shape, s.key.shape);
    assert(heads.q_heads == query_heads && heads.kv_heads == kv_heads && heads.head == head);
    assert(n.len() == width);
    assert(m.read(x).len() == width);
    assert(s.q.numel() == width);
    assert(s.key.shape.row() == row);
    assert forall|k: int| 0 <= k < n.len() implies e.value(#[trigger] n[k]) == normal(k) by {
        law_rmsnorm_divides_by_root_mean_square(e, m.read(x), m.read(weights.norm), k);
        lemma_sum_ext(|j: int| e.value(m.read(x)[j]) * e.value(m.read(x)[j]), square, 0, width);
    }
    assert forall|w: TensorView, r: int|
        e.value(gemv_value(n, m.read(w), r)) == #[trigger] project(w, r) by {
        lemma_projection(e, n, m.read(w), normal, r);
        lemma_sum_ext(
            |k: int| e.value(m.read(w)[r * n.len() + k]) * normal(k),
            |k: int| at(w, r * width + k) * normal(k),
            0,
            width,
        );
    }
    assert forall|r: int| 0 <= r < width implies e.value(#[trigger] a.q[r]) == turn(
        weights.query,
        r,
    ) by {
        let plain = Seq::new(s.q.numel() as nat, |k: int| gemv_value(n, m.read(s.wq), k));
        let raw = |k: int| project(weights.query, k);
        assert forall|k: int| 0 <= k < width implies e.value(#[trigger] plain[k]) == raw(k) by {}
        lemma_turned(
            e,
            plain,
            0,
            plain,
            width / 2,
            pos as u32,
            heads.head,
            0x461c_4000,
            raw,
            r,
        );
    }
    assert forall|t: int, r: int|
        #![trigger key(t, r)]
        0 <= t < seq_len && 0 <= r < row implies e.value(a.key[t * row + r]) == key(t, r)
        && e.value(a.value[t * row + r]) == value(t, r) && 0 <= t * row + r < a.key.len() by {
        lemma_index(t, r, seq_len as int, row);
        lemma_index(pos, row, seq_len as int, row);
        assert(m.read(s.key).len() == seq_len * row);
        let plain = Seq::new(row as nat, |k: int| gemv_value(n, m.read(s.wk), k));
        if t == pos {
            let raw = |k: int| project(weights.key, k);
            assert forall|k: int| 0 <= k < row implies e.value(#[trigger] plain[k]) == raw(k) by {}
            lemma_turned(
                e,
                m.read(s.key),
                pos * row,
                plain,
                row / 2,
                pos as u32,
                heads.head,
                0x461c_4000,
                raw,
                r,
            );
            assert(e.value(gemv_value(n, m.read(weights.value), r)) == project(weights.value, r));
        } else {
            assert(t * row + row <= pos * row || pos * row + row <= t * row) by (nonlinear_arith)
                requires
                    t != pos,
                    0 <= row,
            ;
        }
    }
    assert forall|t: int, r: int|
        #![trigger value(t, r)]
        0 <= t < seq_len && 0 <= r < row implies e.value(a.value[t * row + r]) == value(t, r) by {
        assert(e.value(a.key[t * row + r]) == key(t, r));
    }
    let got = |j: int|
        e.value(m.read(s.wo)[i * width + j]) * e.value(
            attention_value(heads, a.q, a.key, a.value, j / head, pos, j % head),
        );
    let want = |j: int| at(weights.output, i * width + j) * mix(j);
    assert forall|j: int| 0 <= j < width implies #[trigger] got(j) == want(j) by {
        let h = j / head;
        let c = j % head;
        assert(0 <= h < query_heads && 0 <= c < head && h * head + c == j) by (nonlinear_arith)
            requires
                0 <= j < query_heads * head,
                0 < head,
                h == j / head,
                c == j % head,
        ;
        let f = Flash { heads, q: a.q, key: a.key, value: a.value, h, pos };
        law_attention_is_softmax_of_scores(e, f, c);
        let plain = |t: int|
            sum(
                |d: int|
                    e.value(f.q[f.h * head + d]) * e.value(
                        f.key[t * row + (f.h / group) * head + d],
                    ),
                0,
                head,
            ) / (e.sqrt)(head as real);
        assert forall|t: int| 0 <= t <= pos implies #[trigger] plain(t) == score(h, t) && e.value(
            f.value[t * row + (f.h / group) * head + c],
        ) == value(t, (h / group) * head + c) by {
            let shared = (h / group) * head;
            let products = |d: int|
                e.value(f.q[f.h * head + d]) * e.value(f.key[t * row + (f.h / group) * head + d]);
            let known = |d: int|
                turn(weights.query, h * head + d) * key(t, (h / group) * head + d);
            assert forall|d: int| 0 <= d < head implies #[trigger] products(d) == known(d) by {
                lemma_shared_head(query_heads as int, kv_heads as int, head, h, d);
                lemma_index(h, d, query_heads as int, head);
                assert(e.value(a.q[h * head + d]) == turn(weights.query, h * head + d));
                assert(e.value(a.key[t * row + (shared + d)]) == key(t, shared + d));
            }
            lemma_sum_ext(products, known, 0, head);
            lemma_shared_head(query_heads as int, kv_heads as int, head, h, c);
            assert(e.value(a.value[t * row + (shared + c)]) == value(t, shared + c));
        }
        let plain_mixed = |t: int|
            (e.exp)(plain(t)) * e.value(f.value[t * row + (f.h / group) * head + c]);
        let mixed = |t: int|
            (e.exp)(score(j / head, t)) * value(t, ((j / head) / group) * head + j % head);
        assert forall|t: int| 0 <= t < pos + 1 implies #[trigger] plain_mixed(t) == mixed(t) by {
            assert(plain(t) == score(h, t));
        }
        lemma_sum_ext(plain_mixed, mixed, 0, pos + 1);
        let plain_mass = |t: int| (e.exp)(plain(t));
        let mass = |t: int| (e.exp)(score(j / head, t));
        assert forall|t: int| 0 <= t < pos + 1 implies #[trigger] plain_mass(t) == mass(t) by {
            assert(plain(t) == score(h, t));
        }
        lemma_sum_ext(plain_mass, mass, 0, pos + 1);
    }
    lemma_sum_ext(got, want, 0, width);
}

/// A recorded gather copies the row of the step's token from the table into `x`, and touches
/// nothing else.
pub proof fn law_embedding_copies_the_row(
    m: Memory,
    table: TensorView,
    step: Parcel,
    x: TensorView,
    i: int,
)
    requires
        m.device.launches_enough(),
        x.wf(),
        x.parcel != table.parcel,
        embed_recording(table, step, x).error is None,
        (m.steps)(step).token < table.shape.dims()[0],
        0 <= i < x.numel(),
    ensures
        ({
            let after = m.replayed(embed_recording(table, step, x).entries);
            &&& after.read(x)[i] == m.read(table)[(m.steps)(step).token * x.numel() + i]
            &&& after.same_around(m, x)
            &&& forall|p: Parcel| p != x.parcel ==> #[trigger] after.same_in(m, p)
        }),
{
    let work = Work::Embed { table, step, x };
    let grid = Grid::OverTensor(x);
    lemma_replay_one(m, Recorded::Kernel("embed"@, work, grid));
    let n = m.launched(work, grid);
    assert(m.work_is_known(work, n));
    let data = Seq::new(
        x.numel() as nat,
        |j: int|
            if j < n {
                m.read(table)[(m.steps)(step).token * x.numel() + j]
            } else {
                m.read(x)[j]
            },
    );
    lemma_read_back(m, x, data, x);
}

/// Recorded RMSNorm leaves `weight * (x / sqrt(mean of squares + eps))`, in `out` or in place.
pub proof fn law_rmsnorm_dispatches_normalize(
    e: Exact,
    m: Memory,
    x: TensorView,
    weight: TensorView,
    out: TensorView,
    i: int,
)
    requires
        e.has_zero(),
        e.has_one(),
        m.device.launches_enough(),
        x.wf(),
        x.parcel != out.parcel,
        x.parcel != weight.parcel,
        out.parcel != weight.parcel,
        rmsnorm_recording(x, weight, out).error is None,
        rmsnorm_inplace_recording(x, weight).error is None,
        0 <= i < x.numel(),
    ensures
        ({
            let after = m.replayed(rmsnorm_recording(x, weight, out).entries);
            let inplace = m.replayed(rmsnorm_inplace_recording(x, weight).entries);
            let at = |v: TensorView, j: int| e.value(m.read(v)[j]);
            let width = x.numel();
            let mean = sum(|k: int| at(x, k) * at(x, k), 0, width) / (width as real);
            let scale = (1 as real) / (e.sqrt)(mean + (e.literal)(0x3727_c5ac));
            &&& e.value(after.read(out)[i]) == at(weight, i) * (scale * at(x, i))
            &&& e.value(inplace.read(x)[i]) == at(weight, i) * (scale * at(x, i))
            &&& after.same_around(m, out)
            &&& inplace.same_around(m, x)
            &&& forall|p: Parcel| p != out.parcel ==> #[trigger] after.same_in(m, p)
            &&& forall|p: Parcel| p != x.parcel ==> #[trigger] inplace.same_in(m, p)
        }),
{
    let work = Work::Rmsnorm { x, weight, o: out };
    let inplace_work = Work::RmsnormInplace { x, weight };
    let grid = Grid::Groups(1, 1, 1);
    law_rmsnorm_takes(x, weight, out);
    lemma_replay_one(m, Recorded::Kernel("rmsnorm"@, work, grid));
    lemma_replay_one(m, Recorded::Kernel("rmsnorm"@, inplace_work, grid));
    assert(m.launched(work, grid) == 1 && m.launched(inplace_work, grid) == 1);
    assert(m.work_is_known(work, 1) && m.work_is_known(inplace_work, 1));
    let data = rms_normalized(m.read(x), m.read(weight));
    assert(data.len() == x.numel() && out.numel() == x.numel());
    lemma_read_back(m, out, data, out);
    lemma_read_back(m, x, data, x);
    law_rmsnorm_divides_by_root_mean_square(e, m.read(x), m.read(weight), i);
    let at = |v: TensorView, j: int| e.value(m.read(v)[j]);
    lemma_sum_ext(
        |k: int| e.value(m.read(x)[k]) * e.value(m.read(x)[k]),
        |k: int| at(x, k) * at(x, k),
        0,
        x.numel(),
    );
}

/// A recorded matrix-vector product leaves in each element of `out` the dot product of a row
/// of the weight with `x`.
pub proof fn law_linear_projects(
    e: Exact,
    m: Memory,
    label: Seq<char>,
    weight: TensorView,
    x: TensorView,
    out: TensorView,
    i: int,
)
    requires
        e.has_zero(),
        weight.shape is R2,
        x.shape == TensorShape::R1(weight.shape.dims()[1]),
        out.shape == TensorShape::R1(weight.shape.dims()[0]),
        out.parcel != weight.parcel,
        out.parcel != x.parcel,
        0 <= i < out.numel(),
    ensures
        ({
            let recording = Recording::op(label, TensorOp::Matmul { a: weight, b: x, out });
            let after = m.replayed(recording.entries);
            e.value(after.read(out)[i]) == sum(
                |k: int| e.value(m.read(weight)[i * x.numel() + k]) * e.value(m.read(x)[k]),
                0,
                x.numel(),
            )
        }),
{
    let op = TensorOp::Matmul { a: weight, b: x, out };
    lemma_replay_one(m, Recorded::Tensor(label, op));
    let data = Seq::new(
        out.numel() as nat,
        |j: int| gemv_value(m.read(x), m.read(weight), j),
    );
    lemma_read_back(m, out, data, out);
    law_gemv_is_row_dot_product(e, m.read(x), m.read(weight), i);
    lemma_sum_ext(
        |k: int| e.value(m.read(weight)[i * m.read(x).len() + k]) * e.value(m.read(x)[k]),
        |k: int| e.value(m.read(weight)[i * x.numel() + k]) * e.value(m.read(x)[k]),
        0,
        x.numel(),
    );
}

/// Grouping changes nothing about what is computed.
pub proof fn law_group_computes_its_entries(m: Memory, inner: Recording, label: Seq<char>)
    requires
        inner.error is None,
    ensures
        m.replayed(inner.grouped(label).entries) == m.replayed(inner.entries),
{
    let open = seq![Recorded::Open(label)];
    let close = seq![Recorded::Close];
    law_replays_follow_each_other(m, open + inner.entries, close);
    law_replays_follow_each_other(m, open, inner.entries);
    lemma_replay_one(m, Recorded::Open(label));
    lemma_replay_one(m.replayed(inner.entries), Recorded::Close);
}

} // verus!
