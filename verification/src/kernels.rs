//! Neural-net kernels. Domain ops, not a specific architecture.
//!
//! Each function runs one dispatch of a kernel on host tensors whose elements are
//! [`Scalar`]s: it holds the tensors to the kernel's shape contract, and then stores,
//! for every thread of the dispatch, the scalar that the thread computes.
use crate::contract::{Axes, Bound, Dim, Param};
use crate::scalar::Scalar;
use crate::scheme::{Recorded, Scheme, TensorOp};
use crate::tensor::{Allocation, Parcel, Runtime, TensorShape, TensorView};
use vstd::prelude::*;

pub mod attention;
pub mod elementwise;
pub mod flash;
pub mod norm;
pub mod rope;

verus! {

/// Threads of a workgroup of the elementwise kernels.
pub const WORKGROUP: u32 = 256;

/// Llama-2 / llama2.c default RoPE base frequency: the bit pattern of `10000.0`.
pub const DEFAULT_ROPE_THETA: u32 = 0x461c_4000;

/// Cached positions reduced by one workgroup of the first flash-decoding pass.
pub const ATTENTION_SPLIT: u32 = 32;

/// Widest head that the flash-decoding kernels cover: the threads of a workgroup.
pub const ATTENTION_MAX_HEAD: u32 = 128;

/// Token and sequence position uploaded each decode step.
#[derive(Clone, Copy, PartialEq, Eq, Structural, Debug)]
pub struct DecodeStep {
    pub token: u32,
    pub position: u32,
}

/// Where an upload lands: the first `elements` decode steps of `buffer`.
#[derive(Clone, Copy, PartialEq, Eq, Structural, Debug)]
pub struct DepositTarget {
    pub buffer: Parcel,
    pub elements: u32,
}

impl DecodeStep {
    /// Retained scattered parcel for a worker deposit. Contents are overwritten each step.
    pub fn parcel(runtime: &mut Runtime) -> (r: Parcel)
        ensures
            r.id == old(runtime)@.len(),
            final(runtime)@ == old(runtime)@.push(
                Allocation::Step(DecodeStep { token: 0, position: 0 }),
            ),
    {
        runtime.acquire(Allocation::Step(DecodeStep { token: 0, position: 0 }))
    }

    /// Deposit target covering one [`DecodeStep`] in `buffer`.
    pub fn deposit_target(buffer: Parcel) -> (r: DepositTarget)
        ensures
            r == (DepositTarget { buffer, elements: 1 }),
    {
        DepositTarget { buffer, elements: 1 }
    }
}

/// Tensor add and semantic matmul of the device runtime.
///
/// Architecture crates record through this. Residuals use the portable binary kernel;
/// packed GEMV/GEMM uses the semantic matmul.
#[derive(Clone, Copy, PartialEq, Eq, Structural, Debug)]
pub struct TensorKernels {}

impl TensorKernels {
    /// The operations, for every scheme of the runtime.
    pub fn prepare(_runtime: &Runtime) -> (r: TensorKernels)
        ensures
            r == (TensorKernels {  }),
    {
        TensorKernels {  }
    }

    /// Records `out = a + b`.
    pub fn add_into(
        &self,
        scheme: &mut Scheme,
        label: &str,
        a: TensorView,
        b: TensorView,
        out: TensorView,
    )
        ensures
            final(scheme).same_options(*old(scheme)),
            final(scheme)@ == old(scheme)@.push(
                Recorded::Tensor(label@, TensorOp::Add { a, b, out }),
            ),
    {
        scheme.tensor_op(label, TensorOp::Add { a, b, out });
    }

    /// Records `out = a @ b`.
    pub fn matmul_into(
        &self,
        scheme: &mut Scheme,
        label: &str,
        a: TensorView,
        b: TensorView,
        out: TensorView,
    )
        ensures
            final(scheme).same_options(*old(scheme)),
            final(scheme)@ == old(scheme)@.push(
                Recorded::Tensor(label@, TensorOp::Matmul { a, b, out }),
            ),
    {
        scheme.tensor_op(label, TensorOp::Matmul { a, b, out });
    }
}

/// A tensor whose elements are in host memory.
#[derive(Debug)]
pub struct HostTensor {
    pub shape: TensorShape,
    pub data: Vec<Scalar>,
}

impl HostTensor {
    /// There is one scalar for each element.
    pub open spec fn wf(self) -> bool {
        self.shape.wf() && self.data@.len() == self.shape.numel()
    }

    /// The extent of `axis`.
    pub open spec fn dim(self, axis: int) -> int {
        self.shape.dims()[axis] as int
    }

    /// A tensor of these elements, where there are as many as the shape asks for.
    pub fn new(shape: TensorShape, data: Vec<Scalar>) -> (r: Option<HostTensor>)
        ensures
            shape.wf() && data@.len() == shape.numel() ==> r == Some(HostTensor { shape, data }),
            !(shape.wf() && data@.len() == shape.numel()) ==> r is None,
            r matches Some(t) ==> t.wf(),
    {
        match shape.checked_numel() {
            Some(n) => if data.len() == n as usize {
                Some(HostTensor { shape, data })
            } else {
                None
            },
            None => None,
        }
    }
}

/// A tensor given for a parameter with one axis.
pub open spec fn bound1(param: Param, a: Dim, shape: TensorShape) -> Bound {
    Bound { param, axes: Axes::A1(a), shape }
}

/// A tensor given for a parameter with two axes.
pub open spec fn bound2(param: Param, a: Dim, b: Dim, shape: TensorShape) -> Bound {
    Bound { param, axes: Axes::A2(a, b), shape }
}

/// A tensor given for a parameter with three axes.
pub open spec fn bound3(param: Param, a: Dim, b: Dim, c: Dim, shape: TensorShape) -> Bound {
    Bound { param, axes: Axes::A3(a, b, c), shape }
}

pub(crate) fn make1(param: Param, a: Dim, shape: TensorShape) -> (r: Bound)
    ensures
        r == bound1(param, a, shape),
{
    Bound { param, axes: Axes::A1(a), shape }
}

pub(crate) fn make2(param: Param, a: Dim, b: Dim, shape: TensorShape) -> (r: Bound)
    ensures
        r == bound2(param, a, b, shape),
{
    Bound { param, axes: Axes::A2(a, b), shape }
}

pub(crate) fn make3(param: Param, a: Dim, b: Dim, c: Dim, shape: TensorShape) -> (r: Bound)
    ensures
        r == bound3(param, a, b, c, shape),
{
    Bound { param, axes: Axes::A3(a, b, c), shape }
}

/// The smaller of a thread count and an element count.
pub(crate) fn threads_within(threads: u32, len: usize) -> (r: usize)
    ensures
        r <= len,
        r <= threads,
        r == len || r == threads,
{
    if (threads as usize) < len {
        threads as usize
    } else {
        len
    }
}

/// Element `(row, i)` of `rows` rows of `cols` elements lies among them.
pub(crate) proof fn lemma_index(row: int, i: int, rows: int, cols: int)
    requires
        0 <= row < rows,
        0 <= i <= cols,
    ensures
        0 <= row * cols,
        row * cols + i <= rows * cols,
        i < cols ==> row * cols + i < rows * cols,
{
    assert(0 <= row * cols && row * cols + cols <= rows * cols) by (nonlinear_arith)
        requires
            0 <= row < rows,
            0 <= cols,
    ;
}

} // verus!
