//! Device scalars: what a kernel computes for one tensor element.
//!
//! A kernel works in 32-bit floating point, in an order of operations that matters.
//! A [`Scalar`] keeps that order: it is a literal, or one operation applied to
//! scalars. Two kernels that build the same scalar compute the same bits.
use vstd::prelude::*;

verus! {

/// A floating-point value, as the operations that produce it.
#[derive(Debug)]
pub enum Scalar {
    /// The `f32` with this bit pattern.
    Bits(u32),
    /// An unsigned integer converted to `f32`.
    FromU32(u32),
    /// A signed integer converted to `f32`.
    FromI32(i32),
    Neg(Box<Scalar>),
    Add(Box<Scalar>, Box<Scalar>),
    Sub(Box<Scalar>, Box<Scalar>),
    Mul(Box<Scalar>, Box<Scalar>),
    Div(Box<Scalar>, Box<Scalar>),
    Sqrt(Box<Scalar>),
    Exp(Box<Scalar>),
    Cos(Box<Scalar>),
    Sin(Box<Scalar>),
    /// The first raised to the second.
    Pow(Box<Scalar>, Box<Scalar>),
    /// The second where it compares greater than the first, else the first.
    Larger(Box<Scalar>, Box<Scalar>),
    /// Sum over the lanes of a workgroup, in the device's own order.
    WorkgroupSum(Box<Lanes>),
    /// One entry of the softmax of these values, in the device's own order.
    Softmax(Box<Lanes>, u32),
}

/// A list of scalars, last element outermost.
#[derive(Debug)]
pub enum Lanes {
    Empty,
    Push(Box<Lanes>, Box<Scalar>),
}

/// Bit pattern of `0.0`.
pub const ZERO_BITS: u32 = 0;

/// Bit pattern of `1.0`.
pub const ONE_BITS: u32 = 0x3f80_0000;

/// The list of the first `n` values of `f`.
pub open spec fn lanes_of(f: spec_fn(int) -> Scalar, n: nat) -> Lanes
    decreases n,
{
    if n == 0 {
        Lanes::Empty
    } else {
        Lanes::Push(Box::new(lanes_of(f, (n - 1) as nat)), Box::new(f(n - 1)))
    }
}

/// `acc + term(j) + term(j + stride) + ..`, added left to right while the index is
/// below `end`.
pub open spec fn sum_from(
    term: spec_fn(int) -> Scalar,
    j: int,
    stride: int,
    end: int,
    acc: Scalar,
) -> Scalar
    decreases (if j < end { end - j } else { 0 }),
{
    if j >= end || stride <= 0 {
        acc
    } else {
        sum_from(term, j + stride, stride, end, Scalar::Add(Box::new(acc), Box::new(term(j))))
    }
}

/// `0.0 + term(start) + term(start + stride) + ..`, while the index is below `end`.
pub open spec fn strided_sum(
    term: spec_fn(int) -> Scalar,
    start: int,
    stride: int,
    end: int,
) -> Scalar {
    sum_from(term, start, stride, end, Scalar::Bits(ZERO_BITS))
}

/// The running maximum of `acc, term(j), term(j + 1), .., term(end - 1)`.
pub open spec fn largest_from(
    term: spec_fn(int) -> Scalar,
    j: int,
    end: int,
    acc: Scalar,
) -> Scalar
    decreases end - j,
{
    if j >= end {
        acc
    } else {
        largest_from(term, j + 1, end, Scalar::Larger(Box::new(acc), Box::new(term(j))))
    }
}

impl Scalar {
    /// The literal `0.0`.
    pub fn zero() -> (r: Scalar)
        ensures
            r == Scalar::Bits(ZERO_BITS),
    {
        Scalar::Bits(ZERO_BITS)
    }

    /// The literal `1.0`.
    pub fn one() -> (r: Scalar)
        ensures
            r == Scalar::Bits(ONE_BITS),
    {
        Scalar::Bits(ONE_BITS)
    }

    /// A copy of the scalar.
    pub fn dup(&self) -> (r: Scalar)
        ensures
            r == *self,
        decreases self,
    {
        match self {
            Scalar::Bits(b) => Scalar::Bits(*b),
            Scalar::FromU32(n) => Scalar::FromU32(*n),
            Scalar::FromI32(n) => Scalar::FromI32(*n),
            Scalar::Neg(a) => Scalar::Neg(Box::new(a.dup())),
            Scalar::Add(a, b) => Scalar::Add(Box::new(a.dup()), Box::new(b.dup())),
            Scalar::Sub(a, b) => Scalar::Sub(Box::new(a.dup()), Box::new(b.dup())),
            Scalar::Mul(a, b) => Scalar::Mul(Box::new(a.dup()), Box::new(b.dup())),
            Scalar::Div(a, b) => Scalar::Div(Box::new(a.dup()), Box::new(b.dup())),
            Scalar::Sqrt(a) => Scalar::Sqrt(Box::new(a.dup())),
            Scalar::Exp(a) => Scalar::Exp(Box::new(a.dup())),
            Scalar::Cos(a) => Scalar::Cos(Box::new(a.dup())),
            Scalar::Sin(a) => Scalar::Sin(Box::new(a.dup())),
            Scalar::Pow(a, b) => Scalar::Pow(Box::new(a.dup()), Box::new(b.dup())),
            Scalar::Larger(a, b) => Scalar::Larger(Box::new(a.dup()), Box::new(b.dup())),
            Scalar::WorkgroupSum(l) => Scalar::WorkgroupSum(Box::new(l.dup())),
            Scalar::Softmax(l, i) => Scalar::Softmax(Box::new(l.dup()), *i),
        }
    }

    pub fn neg(self) -> (r: Scalar)
        ensures
            r == Scalar::Neg(Box::new(self)),
    {
        Scalar::Neg(Box::new(self))
    }

    pub fn plus(self, rhs: Scalar) -> (r: Scalar)
        ensures
            r == Scalar::Add(Box::new(self), Box::new(rhs)),
    {
        Scalar::Add(Box::new(self), Box::new(rhs))
    }

    pub fn minus(self, rhs: Scalar) -> (r: Scalar)
        ensures
            r == Scalar::Sub(Box::new(self), Box::new(rhs)),
    {
        Scalar::Sub(Box::new(self), Box::new(rhs))
    }

    pub fn times(self, rhs: Scalar) -> (r: Scalar)
        ensures
            r == Scalar::Mul(Box::new(self), Box::new(rhs)),
    {
        Scalar::Mul(Box::new(self), Box::new(rhs))
    }

    pub fn over(self, rhs: Scalar) -> (r: Scalar)
        ensures
            r == Scalar::Div(Box::new(self), Box::new(rhs)),
    {
        Scalar::Div(Box::new(self), Box::new(rhs))
    }

    pub fn sqrt(self) -> (r: Scalar)
        ensures
            r == Scalar::Sqrt(Box::new(self)),
    {
        Scalar::Sqrt(Box::new(self))
    }

    pub fn exp(self) -> (r: Scalar)
        ensures
            r == Scalar::Exp(Box::new(self)),
    {
        Scalar::Exp(Box::new(self))
    }

    pub fn cos(self) -> (r: Scalar)
        ensures
            r == Scalar::Cos(Box::new(self)),
    {
        Scalar::Cos(Box::new(self))
    }

    pub fn sin(self) -> (r: Scalar)
        ensures
            r == Scalar::Sin(Box::new(self)),
    {
        Scalar::Sin(Box::new(self))
    }

    pub fn pow(self, exponent: Scalar) -> (r: Scalar)
        ensures
            r == Scalar::Pow(Box::new(self), Box::new(exponent)),
    {
        Scalar::Pow(Box::new(self), Box::new(exponent))
    }

    pub fn larger(self, rhs: Scalar) -> (r: Scalar)
        ensures
            r == Scalar::Larger(Box::new(self), Box::new(rhs)),
    {
        Scalar::Larger(Box::new(self), Box::new(rhs))
    }
}

impl Lanes {
    /// A copy of the list.
    pub fn dup(&self) -> (r: Lanes)
        ensures
            r == *self,
        decreases self,
    {
        match self {
            Lanes::Empty => Lanes::Empty,
            Lanes::Push(rest, last) => Lanes::Push(Box::new(rest.dup()), Box::new(last.dup())),
        }
    }
}

/// Sums of equal terms are equal.
pub(crate) proof fn lemma_sum_from_ext(
    f: spec_fn(int) -> Scalar,
    g: spec_fn(int) -> Scalar,
    j: int,
    stride: int,
    end: int,
    acc: Scalar,
)
    requires
        forall|i: int| j <= i < end ==> #[trigger] f(i) == g(i),
    ensures
        sum_from(f, j, stride, end, acc) == sum_from(g, j, stride, end, acc),
    decreases (if j < end { end - j } else { 0 }),
{
    if j < end && stride > 0 {
        lemma_sum_from_ext(
            f,
            g,
            j + stride,
            stride,
            end,
            Scalar::Add(Box::new(acc), Box::new(f(j))),
        );
    }
}

/// Running maxima of equal terms are equal.
pub(crate) proof fn lemma_largest_from_ext(
    f: spec_fn(int) -> Scalar,
    g: spec_fn(int) -> Scalar,
    j: int,
    end: int,
    acc: Scalar,
)
    requires
        forall|i: int| j <= i < end ==> #[trigger] f(i) == g(i),
    ensures
        largest_from(f, j, end, acc) == largest_from(g, j, end, acc),
    decreases end - j,
{
    if j < end {
        lemma_largest_from_ext(f, g, j + 1, end, Scalar::Larger(Box::new(acc), Box::new(f(j))));
    }
}

/// Lists of equal entries are equal.
pub(crate) proof fn lemma_lanes_of_ext(
    f: spec_fn(int) -> Scalar,
    g: spec_fn(int) -> Scalar,
    n: nat,
)
    requires
        forall|i: int| 0 <= i < n ==> #[trigger] f(i) == g(i),
    ensures
        lanes_of(f, n) == lanes_of(g, n),
    decreases n,
{
    if n > 0 {
        lemma_lanes_of_ext(f, g, (n - 1) as nat);
        assert(f(n - 1) == g(n - 1));
    }
}

} // verus!
