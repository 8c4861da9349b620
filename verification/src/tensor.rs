//! Tensor shapes, allocations and views.
//!
//! A view names an allocation, where in it the view starts, and a shape. Views are
//! contiguous and row-major.
use crate::kernels::DecodeStep;
use crate::text::{decimal, push_decimal};
use vstd::prelude::*;
use vstd::string::StringExecFns;

verus! {

/// Extents of a tensor of rank one to four, outermost first.
#[derive(Clone, Copy, PartialEq, Eq, Structural, Debug)]
pub enum TensorShape {
    R1(u32),
    R2(u32, u32),
    R3(u32, u32, u32),
    R4(u32, u32, u32, u32),
}

/// Why a shape or a view was refused.
#[derive(Clone, Copy, PartialEq, Eq, Structural, Debug)]
pub enum ShapeError {
    /// Only ranks one to four have a shape.
    Rank { rank: usize },
    /// The element count does not fit in 32 bits.
    TooLarge,
    /// The shape has no such axis.
    Axis { axis: usize, rank: usize },
    /// A reshape to another element count.
    Numel { from: u32, to: TensorShape },
    /// A window that leaves the leading axis.
    Window { start: u32, len: u32, extent: u32 },
}

impl TensorShape {
    /// The extents, outermost first.
    pub open spec fn dims(self) -> Seq<u32> {
        match self {
            TensorShape::R1(a) => seq![a],
            TensorShape::R2(a, b) => seq![a, b],
            TensorShape::R3(a, b, c) => seq![a, b, c],
            TensorShape::R4(a, b, c, d) => seq![a, b, c, d],
        }
    }

    /// Number of elements in one entry of the leading axis.
    pub open spec fn row(self) -> int {
        match self {
            TensorShape::R1(_) => 1,
            TensorShape::R2(_, b) => b as int,
            TensorShape::R3(_, b, c) => b * c,
            TensorShape::R4(_, b, c, d) => b * c * d,
        }
    }

    /// Number of elements.
    pub open spec fn numel(self) -> int {
        self.dims()[0] * self.row()
    }

    /// The element count fits in 32 bits.
    pub open spec fn wf(self) -> bool {
        self.numel() <= u32::MAX
    }

    /// What [`TensorShape::from_dims`] gives for these extents.
    pub open spec fn of(dims: Seq<u32>) -> Result<TensorShape, ShapeError> {
        if dims.len() < 1 || dims.len() > 4 {
            Err(ShapeError::Rank { rank: dims.len() as usize })
        } else {
            let shape = if dims.len() == 1 {
                TensorShape::R1(dims[0])
            } else if dims.len() == 2 {
                TensorShape::R2(dims[0], dims[1])
            } else if dims.len() == 3 {
                TensorShape::R3(dims[0], dims[1], dims[2])
            } else {
                TensorShape::R4(dims[0], dims[1], dims[2], dims[3])
            };
            if shape.wf() {
                Ok(shape)
            } else {
                Err(ShapeError::TooLarge)
            }
        }
    }

    /// Number of axes.
    pub fn rank(self) -> (r: usize)
        ensures
            r == self.dims().len(),
    {
        match self {
            TensorShape::R1(_) => 1,
            TensorShape::R2(_, _) => 2,
            TensorShape::R3(_, _, _) => 3,
            TensorShape::R4(_, _, _, _) => 4,
        }
    }

    /// Extent of `axis`.
    pub fn dim(self, axis: usize) -> (r: Result<u32, ShapeError>)
        ensures
            axis < self.dims().len() ==> r == Ok::<u32, ShapeError>(self.dims()[axis as int]),
            axis >= self.dims().len() ==> r == Err::<u32, ShapeError>(
                ShapeError::Axis { axis, rank: self.dims().len() as usize },
            ),
    {
        let rank = self.rank();
        if axis >= rank {
            return Err(ShapeError::Axis { axis, rank });
        }
        Ok(self.extent(axis))
    }

    /// Extent of an axis that the shape has.
    pub fn extent(self, axis: usize) -> (r: u32)
        requires
            axis < self.dims().len(),
        ensures
            r == self.dims()[axis as int],
    {
        match self {
            TensorShape::R1(a) => a,
            TensorShape::R2(a, b) => if axis == 0 {
                a
            } else {
                b
            },
            TensorShape::R3(a, b, c) => if axis == 0 {
                a
            } else if axis == 1 {
                b
            } else {
                c
            },
            TensorShape::R4(a, b, c, d) => if axis == 0 {
                a
            } else if axis == 1 {
                b
            } else if axis == 2 {
                c
            } else {
                d
            },
        }
    }

    /// Number of elements, where it fits in 32 bits.
    pub fn checked_numel(self) -> (r: Option<u32>)
        ensures
            self.wf() ==> r == Some(self.numel() as u32),
            !self.wf() ==> r is None,
    {
        let (a, b, c, d): (u32, u32, u32, u32) = match self {
            TensorShape::R1(a) => (a, 1, 1, 1),
            TensorShape::R2(a, b) => (a, b, 1, 1),
            TensorShape::R3(a, b, c) => (a, b, c, 1),
            TensorShape::R4(a, b, c, d) => (a, b, c, d),
        };
        assert(b * c <= 0xffff_ffff * 0xffff_ffff) by (nonlinear_arith)
            requires
                b <= 0xffff_ffff,
                c <= 0xffff_ffff,
        ;
        let bc: u128 = b as u128 * c as u128;
        assert(bc * d <= 0xffff_ffff * 0xffff_ffff * 0xffff_ffff) by (nonlinear_arith)
            requires
                bc <= 0xffff_ffff * 0xffff_ffff,
                d <= 0xffff_ffff,
        ;
        let bcd: u128 = bc * d as u128;
        assert(a * bcd <= 0xffff_ffff * (0xffff_ffff * 0xffff_ffff * 0xffff_ffff)) by (nonlinear_arith)
            requires
                bcd <= 0xffff_ffff * 0xffff_ffff * 0xffff_ffff,
                a <= 0xffff_ffff,
        ;
        let n: u128 = a as u128 * bcd;
        assert(n == self.numel()) by {
            assert(1int * 1 == 1 && b * 1 == b && (b * c) * 1 == b * c);
        }
        if n <= 0xffff_ffff {
            Some(n as u32)
        } else {
            None
        }
    }

    /// Number of elements.
    pub fn numel_u32(self) -> (r: u32)
        requires
            self.wf(),
        ensures
            r == self.numel(),
    {
        match self.checked_numel() {
            Some(n) => n,
            None => 0,
        }
    }

    /// Shape with these extents.
    pub fn from_dims(dims: &[u32]) -> (r: Result<TensorShape, ShapeError>)
        ensures
            r == TensorShape::of(dims@),
    {
        let rank: usize = dims.len();
        if rank < 1 || rank > 4 {
            return Err(ShapeError::Rank { rank });
        }
        let shape = if rank == 1 {
            TensorShape::R1(dims[0])
        } else if rank == 2 {
            TensorShape::R2(dims[0], dims[1])
        } else if rank == 3 {
            TensorShape::R3(dims[0], dims[1], dims[2])
        } else {
            TensorShape::R4(dims[0], dims[1], dims[2], dims[3])
        };
        match shape.checked_numel() {
            Some(_) => Ok(shape),
            None => Err(ShapeError::TooLarge),
        }
    }

    /// Shape of rank one.
    pub fn vector(n: u32) -> (r: TensorShape)
        ensures
            r == TensorShape::R1(n),
            r.wf(),
    {
        TensorShape::R1(n)
    }

    /// Shape of rank two.
    pub fn matrix(rows: u32, cols: u32) -> (r: TensorShape)
        requires
            rows * cols <= u32::MAX,
        ensures
            r == TensorShape::R2(rows, cols),
            r.wf(),
    {
        TensorShape::R2(rows, cols)
    }
}

/// What a parcel is allocated to hold.
#[derive(Clone, Copy, PartialEq, Eq, Structural, Debug)]
pub enum Allocation {
    /// A 32-bit float tensor of this shape, zeroed.
    Zeros(TensorShape),
    /// A scattered buffer of one decode step with these contents.
    Step(DecodeStep),
}

/// The parcels of one device runtime, in the order of their allocation.
pub struct Runtime {
    pub allocations: Vec<Allocation>,
}

/// A parcel, by its place in the runtime's allocations.
#[derive(Clone, Copy, PartialEq, Eq, Structural, Debug)]
pub struct Parcel {
    pub id: usize,
}

/// A tensor that owns its parcel.
#[derive(Clone, Copy, PartialEq, Eq, Structural, Debug)]
pub struct Tensor {
    pub parcel: Parcel,
    pub shape: TensorShape,
}

/// A contiguous window on a tensor: `shape` elements of `parcel` from `offset` on.
#[derive(Clone, Copy, PartialEq, Eq, Structural, Debug)]
pub struct TensorView {
    pub parcel: Parcel,
    pub offset: u32,
    pub shape: TensorShape,
}

impl View for Runtime {
    type V = Seq<Allocation>;

    open spec fn view(&self) -> Seq<Allocation> {
        self.allocations@
    }
}

impl Runtime {
    /// A runtime without parcels.
    pub fn new() -> (r: Runtime)
        ensures
            r@ == Seq::<Allocation>::empty(),
    {
        Runtime { allocations: Vec::new() }
    }

    /// Allocates a parcel.
    pub fn acquire(&mut self, what: Allocation) -> (r: Parcel)
        ensures
            r.id == old(self)@.len(),
            final(self)@ == old(self)@.push(what),
    {
        let id: usize = self.allocations.len();
        self.allocations.push(what);
        Parcel { id }
    }
}

impl Tensor {
    /// A tensor of zeros.
    pub fn zeros(runtime: &mut Runtime, shape: TensorShape) -> (r: Tensor)
        requires
            shape.wf(),
        ensures
            r.wf(),
            r.parcel.id == old(runtime)@.len(),
            r.shape == shape,
            final(runtime)@ == old(runtime)@.push(Allocation::Zeros(shape)),
    {
        let parcel = runtime.acquire(Allocation::Zeros(shape));
        Tensor { parcel, shape }
    }

    pub open spec fn wf(self) -> bool {
        self.shape.wf()
    }

    /// The whole tensor.
    pub open spec fn whole(self) -> TensorView {
        TensorView { parcel: self.parcel, offset: 0, shape: self.shape }
    }

    /// The whole tensor.
    pub fn view(&self) -> (r: TensorView)
        ensures
            r == self.whole(),
            self.wf() ==> r.wf(),
    {
        TensorView { parcel: self.parcel, offset: 0, shape: self.shape }
    }
}

impl TensorView {
    /// The window ends where 32 bits can address it.
    pub open spec fn wf(self) -> bool {
        self.offset + self.shape.numel() <= u32::MAX
    }

    pub open spec fn numel(self) -> int {
        self.shape.numel()
    }

    /// Element `i` of the view is element `self.index(i)` of its parcel.
    pub open spec fn index(self, i: int) -> int {
        self.offset + i
    }

    /// The entries `start .. start + len` of the leading axis.
    pub open spec fn rows(self, start: int, len: u32) -> TensorView {
        TensorView {
            parcel: self.parcel,
            offset: (self.offset + start * self.shape.row()) as u32,
            shape: self.shape.with_leading(len),
        }
    }

    /// The same elements under another shape.
    pub open spec fn reshaped(self, shape: TensorShape) -> TensorView {
        TensorView { parcel: self.parcel, offset: self.offset, shape }
    }

    /// Number of elements.
    pub fn numel_u32(self) -> (r: u32)
        requires
            self.wf(),
        ensures
            r == self.numel(),
    {
        self.shape.numel_u32()
    }

    /// The same elements, in the same order, under `shape`.
    pub fn reshape(self, shape: TensorShape) -> (r: Result<TensorView, ShapeError>)
        requires
            self.wf(),
        ensures
            shape.numel() == self.numel() ==> r == Ok::<TensorView, ShapeError>(
                self.reshaped(shape),
            ),
            shape.numel() != self.numel() ==> r == Err::<TensorView, ShapeError>(
                ShapeError::Numel { from: self.numel() as u32, to: shape },
            ),
            r matches Ok(v) ==> v.wf(),
    {
        let from = self.numel_u32();
        match shape.checked_numel() {
            Some(to) => if to == from {
                Ok(TensorView { parcel: self.parcel, offset: self.offset, shape })
            } else {
                Err(ShapeError::Numel { from, to: shape })
            },
            None => Err(ShapeError::Numel { from, to: shape }),
        }
    }

    /// The entries `start .. start + len` of the leading axis.
    pub fn narrow(self, start: u32, len: u32) -> (r: Result<TensorView, ShapeError>)
        requires
            self.wf(),
        ensures
            start + len <= self.shape.dims()[0] ==> r == Ok::<TensorView, ShapeError>(
                self.rows(start as int, len),
            ),
            start + len > self.shape.dims()[0] ==> r == Err::<TensorView, ShapeError>(
                ShapeError::Window { start, len, extent: self.shape.dims()[0] },
            ),
            r matches Ok(v) ==> {
                &&& v.wf()
                &&& v.offset == self.offset + start * self.shape.row()
                &&& v.numel() == len * self.shape.row()
            },
    {
        let extent = self.shape.extent(0);
        if start > extent || len > extent - start {
            return Err(ShapeError::Window { start, len, extent });
        }
        proof {
            lemma_window(start as int, len as int, extent as int, self.shape.row());
            lemma_row_nonneg(self.shape);
        }
        let shape = self.shape.leading(len);
        if start == 0 {
            assert(0 * self.shape.row() == 0);
            return Ok(TensorView { parcel: self.parcel, offset: self.offset, shape });
        }
        let row = self.shape.row_u32();
        Ok(TensorView { parcel: self.parcel, offset: self.offset + start * row, shape })
    }
}

impl TensorShape {
    /// The same inner extents under another leading one.
    pub open spec fn with_leading(self, n: u32) -> TensorShape {
        match self {
            TensorShape::R1(_) => TensorShape::R1(n),
            TensorShape::R2(_, b) => TensorShape::R2(n, b),
            TensorShape::R3(_, b, c) => TensorShape::R3(n, b, c),
            TensorShape::R4(_, b, c, d) => TensorShape::R4(n, b, c, d),
        }
    }

    fn leading(self, n: u32) -> (r: TensorShape)
        ensures
            r == self.with_leading(n),
            r.row() == self.row(),
            r.dims()[0] == n,
    {
        match self {
            TensorShape::R1(_) => TensorShape::R1(n),
            TensorShape::R2(_, b) => TensorShape::R2(n, b),
            TensorShape::R3(_, b, c) => TensorShape::R3(n, b, c),
            TensorShape::R4(_, b, c, d) => TensorShape::R4(n, b, c, d),
        }
    }

    pub(crate) fn row_u32(self) -> (r: u32)
        requires
            self.dims()[0] >= 1,
            self.wf(),
        ensures
            r == self.row(),
    {
        let one = self.leading(1);
        assert(1 * one.row() == one.row());
        proof {
            lemma_row_nonneg(self);
            lemma_window(0, 1, self.dims()[0] as int, self.row());
        }
        one.numel_u32()
    }
}

pub(crate) proof fn lemma_row_nonneg(shape: TensorShape)
    ensures
        shape.row() >= 0,
{
    match shape {
        TensorShape::R1(_) => {},
        TensorShape::R2(_, _) => {},
        TensorShape::R3(_, b, c) => {
            assert(b * c >= 0) by (nonlinear_arith);
        },
        TensorShape::R4(_, b, c, d) => {
            assert(b * c * d >= 0) by (nonlinear_arith);
        },
    }
}

proof fn lemma_window(start: int, len: int, extent: int, row: int)
    requires
        0 <= start,
        0 <= len,
        start + len <= extent,
    ensures
        row >= 0 ==> 0 <= start * row,
        row >= 0 ==> 0 <= len * row,
        row >= 0 ==> start * row + len * row <= extent * row,
{
    if row >= 0 {
        assert(0 <= start * row && 0 <= len * row && start * row + len * row <= extent * row)
            by (nonlinear_arith)
            requires
                0 <= start,
                0 <= len,
                start + len <= extent,
                0 <= row,
        ;
    }
}

impl ShapeError {
    /// The error in words.
    pub open spec fn text(self) -> Seq<char> {
        match self {
            ShapeError::Rank { rank } => "no shape of rank "@ + decimal(rank as nat),
            ShapeError::TooLarge => "element count does not fit in 32 bits"@,
            ShapeError::Axis { axis, rank } => "no axis "@ + decimal(axis as nat) + " in rank "@
                + decimal(rank as nat),
            ShapeError::Numel { from, to: _ } => "reshape of "@ + decimal(from as nat)
                + " elements to another count"@,
            ShapeError::Window { start, len, extent } => "window of "@ + decimal(len as nat)
                + " from "@ + decimal(start as nat) + " leaves an axis of "@ + decimal(
                extent as nat,
            ),
        }
    }

    /// The error in words.
    pub fn message(self) -> (r: String)
        ensures
            r@ == self.text(),
    {
        match self {
            ShapeError::Rank { rank } => {
                let mut out = "no shape of rank ".to_owned();
                push_decimal(&mut out, rank as u64);
                out
            },
            ShapeError::TooLarge => "element count does not fit in 32 bits".to_owned(),
            ShapeError::Axis { axis, rank } => {
                let mut out = "no axis ".to_owned();
                push_decimal(&mut out, axis as u64);
                out.append(" in rank ");
                push_decimal(&mut out, rank as u64);
                out
            },
            ShapeError::Numel { from, to: _ } => {
                let mut out = "reshape of ".to_owned();
                push_decimal(&mut out, from as u64);
                out.append(" elements to another count");
                out
            },
            ShapeError::Window { start, len, extent } => {
                let mut out = "window of ".to_owned();
                push_decimal(&mut out, len as u64);
                out.append(" from ");
                push_decimal(&mut out, start as u64);
                out.append(" leaves an axis of ");
                push_decimal(&mut out, extent as u64);
                out
            },
        }
    }
}

/// The product of extents.
pub open spec fn product(dims: Seq<u32>) -> int
    decreases dims.len(),
{
    if dims.len() == 0 {
        1
    } else {
        product(dims.drop_last()) * dims.last()
    }
}

proof fn lemma_product_push(dims: Seq<u32>, last: u32)
    ensures
        product(dims.push(last)) == product(dims) * last,
{
    assert(dims.push(last).drop_last() =~= dims);
}

/// The products of up to four extents.
proof fn lemma_products(a: u32, b: u32, c: u32, d: u32)
    ensures
        product(seq![]) == 1,
        product(seq![a]) == a,
        product(seq![a, b]) == a * b,
        product(seq![a, b, c]) == a * b * c,
        product(seq![a, b, c, d]) == a * b * c * d,
{
    let none = Seq::<u32>::empty();
    lemma_product_push(none, a);
    lemma_product_push(seq![a], b);
    lemma_product_push(seq![a, b], c);
    lemma_product_push(seq![a, b, c], d);
    assert(none.push(a) =~= seq![a]);
    assert(seq![a].push(b) =~= seq![a, b]);
    assert(seq![a, b].push(c) =~= seq![a, b, c]);
    assert(seq![a, b, c].push(d) =~= seq![a, b, c, d]);
    assert(product(none) == 1);
    assert(1 * a == a);
}

/// A shape has as many elements as the product of its extents, and an entry of its leading
/// axis as many as the product of the others.
pub proof fn law_shape_counts_the_product(shape: TensorShape)
    ensures
        1 <= shape.dims().len() <= 4,
        shape.numel() == product(shape.dims()),
        shape.row() == product(shape.dims().drop_first()),
{
    let rest = shape.dims().drop_first();
    match shape {
        TensorShape::R1(a) => {
            lemma_products(a, 1, 1, 1);
            assert(rest =~= seq![]);
            assert(a * 1 == a);
        },
        TensorShape::R2(a, b) => {
            lemma_products(a, b, 1, 1);
            lemma_products(b, 1, 1, 1);
            assert(rest =~= seq![b]);
        },
        TensorShape::R3(a, b, c) => {
            lemma_products(a, b, c, 1);
            lemma_products(b, c, 1, 1);
            assert(rest =~= seq![b, c]);
            assert(a * (b * c) == a * b * c) by (nonlinear_arith);
        },
        TensorShape::R4(a, b, c, d) => {
            lemma_products(a, b, c, d);
            lemma_products(b, c, d, 1);
            assert(rest =~= seq![b, c, d]);
            assert(a * (b * c * d) == a * b * c * d) by (nonlinear_arith);
        },
    }
}

/// Extents make a shape where there are one to four of them and their product fits in 32
/// bits. The shape has exactly those extents.
pub proof fn law_extents_make_a_shape(dims: Seq<u32>)
    ensures
        (1 <= dims.len() <= 4 && product(dims) <= u32::MAX) ==> TensorShape::of(dims) is Ok
            && TensorShape::of(dims)->Ok_0.dims() == dims,
        !(1 <= dims.len() <= 4) ==> TensorShape::of(dims) == Err::<TensorShape, ShapeError>(
            ShapeError::Rank { rank: dims.len() as usize },
        ),
        (1 <= dims.len() <= 4 && product(dims) > u32::MAX) ==> TensorShape::of(dims) == Err::<
            TensorShape,
            ShapeError,
        >(ShapeError::TooLarge),
{
    if 1 <= dims.len() <= 4 {
        let shape = if dims.len() == 1 {
            TensorShape::R1(dims[0])
        } else if dims.len() == 2 {
            TensorShape::R2(dims[0], dims[1])
        } else if dims.len() == 3 {
            TensorShape::R3(dims[0], dims[1], dims[2])
        } else {
            TensorShape::R4(dims[0], dims[1], dims[2], dims[3])
        };
        assert(shape.dims() =~= dims);
        law_shape_counts_the_product(shape);
    }
}

/// Element `i` of the rows from `start` on is element `start * row + i` of the view, and the
/// rows keep the extents of the other axes.
pub proof fn law_rows_are_a_window(v: TensorView, start: int, len: u32, i: int)
    requires
        v.wf(),
        0 <= start,
        start + len <= v.shape.dims()[0],
    ensures
        v.rows(start, len).parcel == v.parcel,
        v.rows(start, len).index(i) == v.index(start * product(v.shape.dims().drop_first()) + i),
        v.rows(start, len).shape.dims() == v.shape.dims().update(0, len),
        v.rows(start, len).numel() == len * product(v.shape.dims().drop_first()),
{
    law_shape_counts_the_product(v.shape);
    lemma_row_nonneg(v.shape);
    lemma_window(start, len as int, v.shape.dims()[0] as int, v.shape.row());
    assert(v.rows(start, len).shape.dims() =~= v.shape.dims().update(0, len));
    law_shape_counts_the_product(v.shape.with_leading(len));
}

/// A view under another shape has the same elements in the same places.
pub proof fn law_reshape_keeps_the_elements(v: TensorView, shape: TensorShape, i: int)
    ensures
        v.reshaped(shape).parcel == v.parcel,
        v.reshaped(shape).index(i) == v.index(i),
        v.reshaped(shape).shape == shape,
        v.index(i) == v.offset + i,
{
}

/// A whole tensor is viewed from its first element on.
pub proof fn law_whole_view_starts_at_the_tensor(t: Tensor, i: int)
    ensures
        t.whole().parcel == t.parcel,
        t.whole().shape == t.shape,
        t.whole().index(i) == i,
{
}

/// What the errors say, with their numbers in decimal.
pub proof fn law_shape_error_words(a: usize, b: usize, start: u32, len: u32, extent: u32)
    ensures
        (ShapeError::Rank { rank: a }).text() == "no shape of rank "@ + decimal(a as nat),
        ShapeError::TooLarge.text() == "element count does not fit in 32 bits"@,
        (ShapeError::Axis { axis: a, rank: b }).text() == "no axis "@ + decimal(a as nat)
            + " in rank "@ + decimal(b as nat),
        forall|to: TensorShape|
            (#[trigger] (ShapeError::Numel { from: len, to }).text()) == "reshape of "@ + decimal(
                len as nat,
            ) + " elements to another count"@,
        (ShapeError::Window { start, len, extent }).text() == "window of "@ + decimal(len as nat)
            + " from "@ + decimal(start as nat) + " leaves an axis of "@ + decimal(extent as nat),
{
}

} // verus!
