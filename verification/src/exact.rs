//! Kernels in exact arithmetic.
//!
//! A [`Scalar`] fixes an order of floating-point operations. Read over the real numbers,
//! where the order of a sum does not matter, scalars that differ in bits can be compared:
//! the laws here say which kernels compute the same thing but for rounding.
use crate::kernels::attention::{
    attention_output, attention_value, attention_weight, lemma_flat, mix_term, score_lanes,
    score_term, score_value,
};
use crate::kernels::flash::{
    combine_pass, law_scratch_contents_do_not_matter, live_splits, partial_pass, split_len,
    split_start, Flash, SCORE_LANES,
};
use crate::kernels::lemma_index;
use crate::kernels::norm::{square_lane, square_term};
use crate::kernels::rope::{rope_angle, rotate_at, rotated};
use crate::kernels::{ATTENTION_MAX_HEAD, WORKGROUP};
use crate::scalar::{lanes_of, strided_sum, sum_from, Lanes, Scalar, ZERO_BITS};
use vstd::prelude::*;

verus! {

/// How literals and elementary functions are read.
pub ghost struct Exact {
    /// The number that a bit pattern stands for.
    pub literal: spec_fn(u32) -> real,
    pub sqrt: spec_fn(real) -> real,
    pub exp: spec_fn(real) -> real,
    pub cos: spec_fn(real) -> real,
    pub sin: spec_fn(real) -> real,
    pub pow: spec_fn(real, real) -> real,
}

/// Number of entries of a list.
pub open spec fn lanes_len(l: Lanes) -> nat
    decreases l,
{
    match l {
        Lanes::Empty => 0,
        Lanes::Push(rest, _) => lanes_len(*rest) + 1,
    }
}

impl Exact {
    /// The number that a scalar stands for.
    pub open spec fn value(self, s: Scalar) -> real
        decreases s,
    {
        match s {
            Scalar::Bits(b) => (self.literal)(b),
            Scalar::FromU32(n) => n as int as real,
            Scalar::FromI32(n) => n as int as real,
            Scalar::Neg(a) => -self.value(*a),
            Scalar::Add(a, b) => self.value(*a) + self.value(*b),
            Scalar::Sub(a, b) => self.value(*a) - self.value(*b),
            Scalar::Mul(a, b) => self.value(*a) * self.value(*b),
            Scalar::Div(a, b) => self.value(*a) / self.value(*b),
            Scalar::Sqrt(a) => (self.sqrt)(self.value(*a)),
            Scalar::Exp(a) => (self.exp)(self.value(*a)),
            Scalar::Cos(a) => (self.cos)(self.value(*a)),
            Scalar::Sin(a) => (self.sin)(self.value(*a)),
            Scalar::Pow(a, b) => (self.pow)(self.value(*a), self.value(*b)),
            Scalar::Larger(a, b) => if self.value(*b) > self.value(*a) {
                self.value(*b)
            } else {
                self.value(*a)
            },
            Scalar::WorkgroupSum(l) => self.lanes_total(*l),
            Scalar::Softmax(l, i) => (self.exp)(self.lane(*l, i as int)) / self.exp_total(*l),
        }
    }

    /// The sum of a list.
    pub open spec fn lanes_total(self, l: Lanes) -> real
        decreases l,
    {
        match l {
            Lanes::Empty => 0 as real,
            Lanes::Push(rest, last) => self.lanes_total(*rest) + self.value(*last),
        }
    }

    /// The sum of the exponentials of a list.
    pub open spec fn exp_total(self, l: Lanes) -> real
        decreases l,
    {
        match l {
            Lanes::Empty => 0 as real,
            Lanes::Push(rest, last) => self.exp_total(*rest) + (self.exp)(self.value(*last)),
        }
    }

    /// Entry `i` of a list.
    pub open spec fn lane(self, l: Lanes, i: int) -> real
        decreases l,
    {
        match l {
            Lanes::Empty => 0 as real,
            Lanes::Push(rest, last) => if i == lanes_len(*rest) {
                self.value(*last)
            } else {
                self.lane(*rest, i)
            },
        }
    }

    /// `exp` turns this sum into a product.
    pub open spec fn turns_sum(self, a: real, b: real) -> bool {
        (self.exp)(a + b) == (self.exp)(a) * (self.exp)(b)
    }

    /// `exp` is positive, and turns sums into products.
    pub open spec fn has_exponential(self) -> bool {
        &&& forall|a: real| (#[trigger] (self.exp)(a)) > 0 as real
        &&& forall|a: real, b: real| #[trigger] self.turns_sum(a, b)
    }

    /// The bits of `0.0` stand for zero.
    pub open spec fn has_zero(self) -> bool {
        (self.literal)(ZERO_BITS) == 0 as real
    }

    /// An angle of zero turns nothing.
    pub open spec fn has_rotation(self) -> bool {
        (self.cos)(0 as real) == 1 as real && (self.sin)(0 as real) == 0 as real
    }

    /// The numbers that scalars stand for.
    pub open spec fn values(self, f: spec_fn(int) -> Scalar) -> spec_fn(int) -> real {
        |i: int| self.value(f(i))
    }
}

/// `f(a) + f(a + 1) + .. + f(b - 1)`.
pub open spec fn sum(f: spec_fn(int) -> real, a: int, b: int) -> real
    decreases b - a,
{
    if a >= b {
        0 as real
    } else {
        sum(f, a, b - 1) + f(b - 1)
    }
}

/// `f(j) + f(j + stride) + ..`, while the index is below `end`.
pub open spec fn stride_sum(f: spec_fn(int) -> real, j: int, stride: int, end: int) -> real
    decreases (if j < end { end - j } else { 0 }),
{
    if j >= end || stride <= 0 {
        0 as real
    } else {
        f(j) + stride_sum(f, j + stride, stride, end)
    }
}

pub(crate) proof fn lemma_sum_ext(f: spec_fn(int) -> real, g: spec_fn(int) -> real, a: int, b: int)
    requires
        forall|i: int| a <= i < b ==> #[trigger] f(i) == g(i),
    ensures
        sum(f, a, b) == sum(g, a, b),
    decreases b - a,
{
    if a < b {
        lemma_sum_ext(f, g, a, b - 1);
        assert(f(b - 1) == g(b - 1));
    }
}

proof fn lemma_sum_concat(f: spec_fn(int) -> real, a: int, b: int, c: int)
    requires
        a <= b <= c,
    ensures
        sum(f, a, c) == sum(f, a, b) + sum(f, b, c),
    decreases c - b,
{
    if b < c {
        lemma_sum_concat(f, a, b, c - 1);
    }
}

/// A sum from `a` on, by the distance from `a`.
proof fn lemma_sum_shift(f: spec_fn(int) -> real, g: spec_fn(int) -> real, a: int, n: int)
    requires
        forall|j: int| 0 <= j < n ==> #[trigger] g(j) == f(a + j),
    ensures
        sum(g, 0, n) == sum(f, a, a + n),
    decreases n,
{
    if n > 0 {
        lemma_sum_shift(f, g, a, n - 1);
        assert(g(n - 1) == f(a + (n - 1)));
    }
}

proof fn lemma_sum_scaled(f: spec_fn(int) -> real, g: spec_fn(int) -> real, c: real, a: int, b: int)
    requires
        forall|i: int| a <= i < b ==> #[trigger] g(i) == f(i) * c,
    ensures
        sum(g, a, b) == sum(f, a, b) * c,
    decreases b - a,
{
    if a < b {
        lemma_sum_scaled(f, g, c, a, b - 1);
        let s = sum(f, a, b - 1);
        let t = f(b - 1);
        assert(s * c + t * c == (s + t) * c) by (nonlinear_arith);
        assert(g(b - 1) == f(b - 1) * c);
    } else {
        assert((0 as real) * c == 0 as real) by (nonlinear_arith);
    }
}

proof fn lemma_sum_positive(f: spec_fn(int) -> real, a: int, b: int)
    requires
        forall|i: int| a <= i < b ==> (#[trigger] f(i)) > 0 as real,
    ensures
        sum(f, a, b) >= 0 as real,
        a < b ==> sum(f, a, b) > 0 as real,
    decreases b - a,
{
    if a < b {
        lemma_sum_positive(f, a, b - 1);
        assert(f(b - 1) > 0 as real);
    }
}

proof fn lemma_stride_sum_one(f: spec_fn(int) -> real, j: int, end: int)
    ensures
        stride_sum(f, j, 1, end) == sum(f, j, end),
    decreases (if j < end { end - j } else { 0 }),
{
    if j < end {
        lemma_stride_sum_one(f, j + 1, end);
        lemma_sum_concat(f, j, j + 1, end);
        assert(sum(f, j, j + 1) == sum(f, j, j) + f(j));
    }
}

/// What one more element adds to a strided sum.
proof fn lemma_stride_sum_step(f: spec_fn(int) -> real, j: int, stride: int, end: int)
    requires
        stride > 0,
    ensures
        stride_sum(f, j, stride, end + 1) == stride_sum(f, j, stride, end) + (if j <= end && (end
            - j) % stride == 0 {
            f(end)
        } else {
            0 as real
        }),
    decreases (if j < end { end - j } else { 0 }),
{
    if j < end {
        lemma_stride_sum_step(f, j + stride, stride, end);
        let d = end - j;
        if d >= stride {
            assert((d - stride) % stride == d % stride) by {
                vstd::arithmetic::div_mod::lemma_mod_sub_multiples_vanish(d, stride);
            }
        } else {
            assert(d % stride == d) by {
                vstd::arithmetic::div_mod::lemma_small_mod(d as nat, stride as nat);
            }
        }
    } else if j == end {
        assert(stride_sum(f, j + stride, stride, end + 1) == 0 as real);
        assert(0int % stride == 0) by {
            vstd::arithmetic::div_mod::lemma_small_mod(0, stride as nat);
        }
    }
}

/// Adding `x` at one index `at` adds it to the sum.
proof fn lemma_sum_bump(
    f: spec_fn(int) -> real,
    g: spec_fn(int) -> real,
    at: int,
    x: real,
    a: int,
    b: int,
)
    requires
        forall|i: int|
            a <= i < b ==> #[trigger] g(i) == f(i) + (if i == at {
                x
            } else {
                0 as real
            }),
    ensures
        sum(g, a, b) == sum(f, a, b) + (if a <= at < b {
            x
        } else {
            0 as real
        }),
    decreases b - a,
{
    if a < b {
        lemma_sum_bump(f, g, at, x, a, b - 1);
        assert(g(b - 1) == f(b - 1) + (if b - 1 == at {
            x
        } else {
            0 as real
        }));
    }
}

/// Lanes that take every `stride`-th element take all of them between them: the sum of
/// the lanes' sums is the sum over `0 .. n`.
pub proof fn law_lanes_partition_a_sum(f: spec_fn(int) -> real, stride: int, n: int)
    requires
        stride > 0,
        0 <= n,
    ensures
        sum(|l: int| stride_sum(f, l, stride, n), 0, stride) == sum(f, 0, n),
    decreases n,
{
    let lane = |l: int| stride_sum(f, l, stride, n);
    if n == 0 {
        assert forall|l: int| 0 <= l < stride implies #[trigger] lane(l) == 0 as real by {}
        lemma_sum_zero(lane, 0, stride);
    } else {
        let m = n - 1;
        let before = |l: int| stride_sum(f, l, stride, m);
        let at = m % stride;
        law_lanes_partition_a_sum(f, stride, m);
        assert forall|l: int| 0 <= l < stride implies #[trigger] lane(l) == before(l) + (if l == at {
            f(m)
        } else {
            0 as real
        }) by {
            lemma_stride_sum_step(f, l, stride, m);
            lemma_lane_of(m, l, stride);
        }
        assert(0 <= at < stride) by (nonlinear_arith)
            requires
                at == m % stride,
                stride > 0,
        ;
        lemma_sum_bump(before, lane, at, f(m), 0, stride);
    }
}

proof fn lemma_sum_zero(f: spec_fn(int) -> real, a: int, b: int)
    requires
        forall|i: int| a <= i < b ==> #[trigger] f(i) == 0 as real,
    ensures
        sum(f, a, b) == 0 as real,
    decreases b - a,
{
    if a < b {
        lemma_sum_zero(f, a, b - 1);
        assert(f(b - 1) == 0 as real);
    }
}

/// Element `m` is taken by lane `m % stride` alone.
proof fn lemma_lane_of(m: int, l: int, stride: int)
    requires
        0 <= m,
        0 <= l < stride,
    ensures
        (l <= m && (m - l) % stride == 0) <==> l == m % stride,
{
    let q = m / stride;
    let r = m % stride;
    assert(m == q * stride + r && 0 <= r < stride && q >= 0) by (nonlinear_arith)
        requires
            q == m / stride,
            r == m % stride,
            0 <= m,
            0 < stride,
    ;
    if l == r {
        assert(q * stride >= 0) by (nonlinear_arith)
            requires
                q >= 0,
                stride > 0,
        ;
        vstd::arithmetic::div_mod::lemma_mod_multiples_basic(q, stride);
    }
    if l <= m && (m - l) % stride == 0 {
        let p = (m - l) / stride;
        assert(m - l == p * stride) by (nonlinear_arith)
            requires
                p == (m - l) / stride,
                (m - l) % stride == 0,
                0 < stride,
        ;
        vstd::arithmetic::div_mod::lemma_fundamental_div_mod_converse(m, stride, p, l);
    }
}

proof fn lemma_value_sum_from(
    e: Exact,
    f: spec_fn(int) -> Scalar,
    j: int,
    stride: int,
    end: int,
    acc: Scalar,
)
    ensures
        e.value(sum_from(f, j, stride, end, acc)) == e.value(acc) + stride_sum(
            e.values(f),
            j,
            stride,
            end,
        ),
    decreases (if j < end { end - j } else { 0 }),
{
    if j < end && stride > 0 {
        let next = Scalar::Add(Box::new(acc), Box::new(f(j)));
        lemma_value_sum_from(e, f, j + stride, stride, end, next);
        assert(e.value(next) == e.value(acc) + e.value(f(j)));
        assert(e.values(f)(j) == e.value(f(j)));
    }
}

proof fn lemma_value_strided(e: Exact, f: spec_fn(int) -> Scalar, j: int, stride: int, end: int)
    requires
        e.has_zero(),
    ensures
        e.value(strided_sum(f, j, stride, end)) == stride_sum(e.values(f), j, stride, end),
{
    lemma_value_sum_from(e, f, j, stride, end, Scalar::Bits(ZERO_BITS));
}

pub(crate) proof fn lemma_value_in_order(e: Exact, f: spec_fn(int) -> Scalar, end: int)
    requires
        e.has_zero(),
    ensures
        e.value(strided_sum(f, 0, 1, end)) == sum(e.values(f), 0, end),
{
    lemma_value_strided(e, f, 0, 1, end);
    lemma_stride_sum_one(e.values(f), 0, end);
}

pub(crate) proof fn lemma_value_lanes(e: Exact, f: spec_fn(int) -> Scalar, n: nat)
    ensures
        lanes_len(lanes_of(f, n)) == n,
        e.lanes_total(lanes_of(f, n)) == sum(e.values(f), 0, n as int),
        e.exp_total(lanes_of(f, n)) == sum(|i: int| (e.exp)(e.value(f(i))), 0, n as int),
        forall|i: int| 0 <= i < n ==> #[trigger] e.lane(lanes_of(f, n), i) == e.value(f(i)),
    decreases n,
{
    if n > 0 {
        lemma_value_lanes(e, f, (n - 1) as nat);
        let rest = lanes_of(f, (n - 1) as nat);
        assert forall|i: int| 0 <= i < n implies #[trigger] e.lane(lanes_of(f, n), i) == e.value(
            f(i),
        ) by {
            if i < n - 1 {
                assert(e.lane(rest, i) == e.value(f(i)));
            }
        }
    }
}

/// The lanes of RMSNorm's workgroup add up the squares of all elements.
pub proof fn law_rms_lanes_add_up_all_squares(e: Exact, x: Seq<Scalar>)
    requires
        e.has_zero(),
    ensures
        e.value(Scalar::WorkgroupSum(Box::new(lanes_of(square_lane(x), WORKGROUP as nat)))) == sum(
            |j: int| e.value(x[j]) * e.value(x[j]),
            0,
            x.len() as int,
        ),
{
    let n = x.len() as int;
    let w = WORKGROUP as int;
    let term = e.values(square_term(x));
    let lane = |l: int| stride_sum(term, l, w, n);
    lemma_value_lanes(e, square_lane(x), WORKGROUP as nat);
    assert forall|l: int| 0 <= l < w implies #[trigger] e.values(square_lane(x))(l) == lane(l) by {
        lemma_value_strided(e, square_term(x), l, w, n);
    }
    lemma_sum_ext(e.values(square_lane(x)), lane, 0, w);
    law_lanes_partition_a_sum(term, w, n);
    lemma_sum_ext(term, |j: int| e.value(x[j]) * e.value(x[j]), 0, n);
}

/// Rotation at position zero leaves a vector as it was.
pub proof fn law_rotation_at_position_zero_is_identity(
    e: Exact,
    v: Seq<Scalar>,
    base: int,
    n: int,
    head: u32,
    theta: u32,
    j: int,
)
    requires
        e.has_rotation(),
        0 <= base,
        0 <= n,
        base + 2 * n <= v.len(),
        0 <= j < v.len(),
    ensures
        e.value(rotate_at(v, base, n, 0, head, theta)[j]) == e.value(v[j]),
{
    if base <= j < base + 2 * n {
        let k = j - base;
        let i = k - k % 2;
        let angle = rope_angle(0, i, head, theta);
        let freq = match angle {
            Scalar::Mul(_, freq) => *freq,
            _ => angle,
        };
        let x = e.value(freq);
        assert((0 as real) * x == 0 as real) by (nonlinear_arith);
        assert(e.value(Scalar::FromU32(0)) == 0 as real);
        assert(e.value(angle) == 0 as real);
        let a = e.value(v[base + i]);
        let b = e.value(v[base + i + 1]);
        let cos = Scalar::Cos(Box::new(angle));
        let sin = Scalar::Sin(Box::new(angle));
        assert(e.value(cos) == 1 as real && e.value(sin) == 0 as real);
        assert(a * (1 as real) == a && b * (0 as real) == 0 as real && a * (0 as real) == 0 as real
            && b * (1 as real) == b) by (nonlinear_arith);
        assert(e.value(Scalar::Mul(Box::new(v[base + i]), Box::new(cos))) == a);
        assert(e.value(Scalar::Mul(Box::new(v[base + i + 1]), Box::new(sin))) == 0 as real);
        assert(e.value(Scalar::Mul(Box::new(v[base + i]), Box::new(sin))) == 0 as real);
        assert(e.value(Scalar::Mul(Box::new(v[base + i + 1]), Box::new(cos))) == b);
        assert(e.value(rotated(v, base, k, 0, head, theta)) == (if k % 2 == 0 {
            a
        } else {
            b
        }));
    }
}

/// The score of query head `h` at position `t`.
pub open spec fn exact_score(e: Exact, f: Flash, t: int) -> real {
    e.value(score_value(f.heads, f.q, f.key, f.h, t))
}

/// Dimension `i` of the value at position `t`.
pub open spec fn exact_value(e: Exact, f: Flash, i: int, t: int) -> real {
    e.value(f.value[t * f.heads.kv_dim() + f.heads.base(f.h) + i])
}

/// The four lanes of a split's score add up the dot product.
pub(crate) proof fn lemma_split_score(e: Exact, f: Flash, s: int, j: int)
    requires
        e.has_zero(),
    ensures
        e.value(f.split(s).score(j)) == exact_score(e, f, split_start(s) + j),
{
    let sp = f.split(s);
    let t = split_start(s) + j;
    let head = f.heads.head as int;
    let term = score_term(f.heads, f.q, f.key, f.h, t);
    let values = e.values(term);
    let lane = |l: int| stride_sum(values, l, SCORE_LANES as int, head);
    lemma_value_strided(e, term, 0, 4, head);
    lemma_value_strided(e, term, 1, 4, head);
    lemma_value_strided(e, term, 2, 4, head);
    lemma_value_strided(e, term, 3, 4, head);
    lemma_value_in_order(e, term, head);
    law_lanes_partition_a_sum(values, 4, head);
    reveal_with_fuel(sum, 5);
    assert(sum(lane, 0, 4) == lane(0) + lane(1) + lane(2) + lane(3));
    let pair = Scalar::Add(Box::new(sp.lane(t, 0)), Box::new(sp.lane(t, 1)));
    let triple = Scalar::Add(Box::new(pair), Box::new(sp.lane(t, 2)));
    let total = Scalar::Add(Box::new(triple), Box::new(sp.lane(t, 3)));
    assert(e.value(pair) == lane(0) + lane(1));
    assert(e.value(triple) == lane(0) + lane(1) + lane(2));
    assert(e.value(total) == lane(0) + lane(1) + lane(2) + lane(3));
}

/// `exp(score - max)` of position `j` of split `s`.
proof fn lemma_split_prob(e: Exact, f: Flash, s: int, j: int)
    requires
        e.has_zero(),
    ensures
        e.value(f.split(s).prob(j)) == (e.exp)(
            exact_score(e, f, split_start(s) + j) - e.value(f.split(s).max()),
        ),
{
    let sp = f.split(s);
    lemma_split_score(e, f, s, j);
    let diff = Scalar::Sub(Box::new(sp.score(j)), Box::new(sp.max()));
    assert(e.value(diff) == e.value(sp.score(j)) - e.value(sp.max()));
}

/// What a slot holds: the sum of `exp(score - max) * v` over the split's positions, where
/// `v` is dimension `r` of the value, or one for the mass.
pub(crate) open spec fn slot_weight(e: Exact, f: Flash, r: int, t: int) -> real {
    if r < f.heads.head {
        exact_value(e, f, r, t)
    } else {
        1 as real
    }
}

pub(crate) proof fn lemma_split_slot(e: Exact, f: Flash, s: int, r: int)
    requires
        e.has_zero(),
        0 < f.heads.head <= ATTENTION_MAX_HEAD,
        split_len(s, f.pos) >= 0,
        0 <= r < f.heads.head || r == f.heads.head + 1,
    ensures
        e.value(f.split(s).slot(r)) == sum(
            |j: int|
                (e.exp)(exact_score(e, f, split_start(s) + j) - e.value(f.split(s).max()))
                    * slot_weight(e, f, r, split_start(s) + j),
            0,
            split_len(s, f.pos),
        ),
{
    let sp = f.split(s);
    let n = split_len(s, f.pos);
    let t0 = split_start(s);
    let want = |j: int|
        (e.exp)(exact_score(e, f, t0 + j) - e.value(sp.max())) * slot_weight(e, f, r, t0 + j);
    if r < f.heads.head {
        let term = sp.mix_term(r);
        let values = e.values(term);
        assert forall|j: int| 0 <= j < n implies #[trigger] values(j) == want(j) by {
            lemma_split_prob(e, f, s, j);
        }
        lemma_sum_ext(values, want, 0, n);
        let head = f.heads.head as int;
        let ways = sp.ways();
        assert(1 <= 128int / head) by (nonlinear_arith)
            requires
                0 < head <= 128,
        ;
        let way_sums = |way: int| sp.way_sum(way, r);
        let lane = |way: int| stride_sum(values, way, ways, n);
        assert forall|way: int| 0 <= way < ways implies #[trigger] e.values(way_sums)(way) == lane(
            way,
        ) by {
            lemma_value_strided(e, term, way, ways, n);
        }
        lemma_value_sum_from(e, way_sums, 1, 1, ways, sp.way_sum(0, r));
        lemma_stride_sum_one(e.values(way_sums), 1, ways);
        lemma_sum_concat(e.values(way_sums), 0, 1, ways);
        assert(sum(e.values(way_sums), 0, 1) == sum(e.values(way_sums), 0, 0) + e.values(way_sums)(
            0,
        ));
        lemma_sum_ext(e.values(way_sums), lane, 0, ways);
        law_lanes_partition_a_sum(values, ways, n);
    } else {
        let probs = |j: int| sp.prob(j);
        lemma_value_in_order(e, probs, n);
        assert forall|j: int| 0 <= j < n implies #[trigger] e.values(probs)(j) == want(j) by {
            lemma_split_prob(e, f, s, j);
            let x = (e.exp)(exact_score(e, f, t0 + j) - e.value(sp.max()));
            assert(x * (1 as real) == x) by (nonlinear_arith);
        }
        lemma_sum_ext(e.values(probs), want, 0, n);
    }
}

/// `exp(score) * v` at position `t`.
pub(crate) open spec fn unscaled(e: Exact, f: Flash, r: int) -> spec_fn(int) -> real {
    |t: int| (e.exp)(exact_score(e, f, t)) * slot_weight(e, f, r, t)
}

/// A rescaled slot: the sum of `exp(score - max) * v` over the split's positions, with
/// the largest score of all splits for `max`.
proof fn lemma_rescaled_slot(e: Exact, f: Flash, s: int, r: int)
    requires
        e.has_zero(),
        e.has_exponential(),
        0 < f.heads.head <= ATTENTION_MAX_HEAD,
        split_len(s, f.pos) >= 0,
        0 <= r < f.heads.head || r == f.heads.head + 1,
    ensures
        e.value(f.split(s).slot(r)) * e.value(f.rescale(s)) == sum(
            unscaled(e, f, r),
            split_start(s),
            split_start(s) + split_len(s, f.pos),
        ) * (e.exp)(-e.value(f.max())),
{
    let n = split_len(s, f.pos);
    let t0 = split_start(s);
    let big = e.value(f.split(s).max());
    let m = e.value(f.max());
    let local = |j: int|
        (e.exp)(exact_score(e, f, t0 + j) - big) * slot_weight(e, f, r, t0 + j);
    let shifted = |j: int| unscaled(e, f, r)(t0 + j);
    let both = |j: int| shifted(j) * (e.exp)(-m);
    lemma_split_slot(e, f, s, r);
    let diff = Scalar::Sub(Box::new(f.split(s).max()), Box::new(f.max()));
    assert(e.value(diff) == big - m);
    assert(e.value(f.rescale(s)) == (e.exp)(big - m));
    assert forall|j: int| 0 <= j < n implies #[trigger] both(j) == local(j) * (e.exp)(big - m) by {
        let x = exact_score(e, f, t0 + j);
        let v = slot_weight(e, f, r, t0 + j);
        assert(e.turns_sum(x - big, big - m));
        assert((x - big) + (big - m) == x + (-m));
        assert(e.turns_sum(x, -m));
        let a = (e.exp)(x - big);
        let b = (e.exp)(big - m);
        let c = (e.exp)(x);
        let d = (e.exp)(-m);
        assert((a * v) * b == (c * v) * d) by (nonlinear_arith)
            requires
                a * b == c * d,
        ;
    }
    lemma_sum_scaled(local, both, (e.exp)(big - m), 0, n);
    lemma_sum_scaled(shifted, both, (e.exp)(-m), 0, n);
    lemma_sum_shift(unscaled(e, f, r), shifted, t0, n);
}

/// The sums over the first `k` splits add up the sum over their positions.
proof fn lemma_blocks(g: spec_fn(int) -> real, pos: int, k: int)
    requires
        0 <= pos,
        0 <= k <= live_splits(pos),
    ensures
        sum(|s: int| sum(g, split_start(s), split_start(s) + split_len(s, pos)), 0, k) == sum(
            g,
            0,
            (if k == live_splits(pos) {
                pos + 1
            } else {
                split_start(k)
            }),
        ),
    decreases k,
{
    let block = |s: int| sum(g, split_start(s), split_start(s) + split_len(s, pos));
    if k > 0 {
        lemma_blocks(g, pos, k - 1);
        let s = k - 1;
        lemma_sum_concat(g, 0, split_start(s), split_start(s) + split_len(s, pos));
        assert(sum(block, 0, k) == sum(block, 0, k - 1) + block(k - 1));
    }
}

/// A total of the second pass: the sum of `exp(score - max) * v` over all positions.
proof fn lemma_flash_total(e: Exact, f: Flash, r: int)
    requires
        e.has_zero(),
        e.has_exponential(),
        0 < f.heads.head <= ATTENTION_MAX_HEAD,
        0 <= f.pos,
        0 <= r < f.heads.head || r == f.heads.head + 1,
    ensures
        e.value(f.total(r)) == sum(unscaled(e, f, r), 0, f.pos + 1) * (e.exp)(-e.value(f.max())),
{
    let live = live_splits(f.pos);
    let c = (e.exp)(-e.value(f.max()));
    let term = |s: int| Scalar::Mul(Box::new(f.split(s).slot(r)), Box::new(f.rescale(s)));
    let block = |s: int|
        sum(unscaled(e, f, r), split_start(s), split_start(s) + split_len(s, f.pos));
    lemma_value_in_order(e, term, live);
    assert forall|s: int| 0 <= s < live implies #[trigger] e.values(term)(s) == block(s) * c by {
        lemma_rescaled_slot(e, f, s, r);
        assert(e.value(term(s)) == e.value(f.split(s).slot(r)) * e.value(f.rescale(s)));
    }
    lemma_sum_scaled(block, e.values(term), c, 0, live);
    lemma_blocks(unscaled(e, f, r), f.pos, live);
}

/// A quotient of two sums of the same scale.
proof fn lemma_quotient(a: real, z: real, c: real)
    requires
        z > 0 as real,
        c > 0 as real,
    ensures
        (a * c) / (z * c) == a / z,
{
    assert(z * c > 0 as real) by (nonlinear_arith)
        requires
            z > 0 as real,
            c > 0 as real,
    ;
    assert((a * c) / (z * c) == a / z) by (nonlinear_arith)
        requires
            z > 0 as real,
            c > 0 as real,
            z * c > 0 as real,
    ;
}

/// The sum of `exp(score)` over the positions up to `pos`.
pub(crate) open spec fn partition_total(e: Exact, f: Flash) -> real {
    sum(|t: int| (e.exp)(exact_score(e, f, t)), 0, f.pos + 1)
}

proof fn lemma_partition_total(e: Exact, f: Flash)
    requires
        e.has_exponential(),
        0 <= f.pos,
    ensures
        partition_total(e, f) > 0 as real,
        sum(unscaled(e, f, f.heads.head + 1), 0, f.pos + 1) == partition_total(e, f),
{
    let g = |t: int| (e.exp)(exact_score(e, f, t));
    let u = unscaled(e, f, f.heads.head + 1);
    lemma_sum_positive(g, 0, f.pos + 1);
    assert forall|t: int| 0 <= t < f.pos + 1 implies #[trigger] u(t) == g(t) by {
        let x = g(t);
        assert(x * (1 as real) == x) by (nonlinear_arith);
    }
    lemma_sum_ext(u, g, 0, f.pos + 1);
}

/// The serial kernel computes the softmax-weighted sum of the values.
pub(crate) proof fn lemma_serial_attention(e: Exact, f: Flash, i: int)
    requires
        e.has_zero(),
        e.has_exponential(),
        0 <= f.pos < u32::MAX,
        0 <= i < f.heads.head,
    ensures
        e.value(attention_value(f.heads, f.q, f.key, f.value, f.h, f.pos, i)) == sum(
            unscaled(e, f, i),
            0,
            f.pos + 1,
        ) / partition_total(e, f),
{
    let n = f.pos + 1;
    let z = partition_total(e, f);
    let term = mix_term(f.heads, f.q, f.key, f.value, f.h, f.pos, i);
    let scores = |t: int| score_value(f.heads, f.q, f.key, f.h, t);
    let lanes = score_lanes(f.heads, f.q, f.key, f.h, f.pos);
    let inv = (1 as real) / z;
    lemma_partition_total(e, f);
    lemma_value_lanes(e, scores, n as nat);
    lemma_sum_ext(
        |t: int| (e.exp)(e.value(scores(t))),
        |t: int| (e.exp)(exact_score(e, f, t)),
        0,
        n,
    );
    assert(e.exp_total(lanes) == z);
    lemma_value_in_order(e, term, n);
    assert forall|t: int| 0 <= t < n implies #[trigger] e.values(term)(t) == unscaled(e, f, i)(t)
        * inv by {
        assert(e.lane(lanes, t) == e.value(scores(t)));
        let x = (e.exp)(exact_score(e, f, t));
        let v = exact_value(e, f, i, t);
        let weight = attention_weight(f.heads, f.q, f.key, f.h, f.pos, t);
        assert(e.value(weight) == x / z);
        assert((x / z) * v == (x * v) * inv) by (nonlinear_arith)
            requires
                z > 0 as real,
                inv == (1 as real) / z,
        ;
    }
    lemma_sum_scaled(unscaled(e, f, i), e.values(term), inv, 0, n);
    let a = sum(unscaled(e, f, i), 0, n);
    assert(a * inv == a / z) by (nonlinear_arith)
        requires
            z > 0 as real,
            inv == (1 as real) / z,
    ;
}

/// Flash decoding computes what serial attention computes.
pub proof fn law_flash_decoding_is_attention(e: Exact, f: Flash, i: int)
    requires
        e.has_zero(),
        e.has_exponential(),
        0 < f.heads.head <= ATTENTION_MAX_HEAD,
        0 <= f.pos < u32::MAX,
        0 <= i < f.heads.head,
    ensures
        e.value(f.output(i)) == e.value(
            attention_value(f.heads, f.q, f.key, f.value, f.h, f.pos, i),
        ),
{
    let head = f.heads.head as int;
    lemma_flash_total(e, f, i);
    lemma_flash_total(e, f, head + 1);
    lemma_partition_total(e, f);
    lemma_serial_attention(e, f, i);
    lemma_quotient(
        sum(unscaled(e, f, i), 0, f.pos + 1),
        partition_total(e, f),
        (e.exp)(-e.value(f.max())),
    );
}

/// The two flash-decoding passes leave in `xb` what serial attention leaves there,
/// whatever the scratch held before.
pub proof fn law_two_passes_are_attention(
    e: Exact,
    f: Flash,
    scratch: Seq<Scalar>,
    xb: Seq<Scalar>,
    splits: int,
    slot: int,
    i: int,
)
    requires
        e.has_zero(),
        e.has_exponential(),
        0 <= f.h < f.heads.q_heads,
        0 < f.heads.head <= ATTENTION_MAX_HEAD,
        0 <= f.pos < u32::MAX,
        0 <= i < f.heads.head,
        live_splits(f.pos) <= splits,
        f.heads.head + 2 <= slot,
        scratch.len() == f.heads.q_heads * splits * slot,
        xb.len() == f.heads.q_heads * f.heads.head,
    ensures
        ({
            let heads = f.heads;
            let at = f.h * heads.head + i;
            let partial = partial_pass(
                heads,
                f.q,
                f.key,
                f.value,
                scratch,
                splits,
                slot,
                f.pos,
                heads.q_heads * splits,
            );
            e.value(
                combine_pass(
                    partial,
                    xb,
                    splits,
                    slot,
                    heads.head as int,
                    f.pos,
                    heads.q_heads as int,
                )[at],
            ) == e.value(
                attention_output(
                    heads,
                    f.q,
                    f.key,
                    f.value,
                    xb,
                    f.pos,
                    heads.q_heads as int,
                )[at],
            )
        }),
{
    let head = f.heads.head as int;
    law_scratch_contents_do_not_matter(f, scratch, splits, slot, i);
    law_flash_decoding_is_attention(e, f, i);
    lemma_flat(f.h, i, head);
    lemma_index(f.h, i, f.heads.q_heads as int, head);
}

} // verus!
