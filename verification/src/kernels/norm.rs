//! RMSNorm.
use crate::contract::{
    axis_name, check, law_contract_holds_iff_axes_agree, mismatch, Bound, ContractError, Dim, Param,
};
use crate::kernels::{bound1, make1, HostTensor, WORKGROUP};
use crate::scalar::{lanes_of, strided_sum, sum_from, Lanes, Scalar, ONE_BITS};
use crate::tensor::TensorShape;
use vstd::prelude::*;

verus! {

/// Bit pattern of the `1e-5` that is added to the mean square.
pub const RMS_EPS_BITS: u32 = 0x3727_c5ac;

/// The square of element `j`.
pub open spec fn square_term(x: Seq<Scalar>) -> spec_fn(int) -> Scalar {
    |j: int| Scalar::Mul(Box::new(x[j]), Box::new(x[j]))
}

/// What lane `local` of the workgroup adds up: the squares of the elements
/// `local, local + 256, ..`.
pub open spec fn square_lane(x: Seq<Scalar>) -> spec_fn(int) -> Scalar {
    |local: int| strided_sum(square_term(x), local, WORKGROUP as int, x.len() as int)
}

/// `1 / sqrt(mean square + 1e-5)`.
pub open spec fn rms_scale(x: Seq<Scalar>) -> Scalar {
    let total = Scalar::WorkgroupSum(Box::new(lanes_of(square_lane(x), WORKGROUP as nat)));
    let mean = Scalar::Div(Box::new(total), Box::new(Scalar::FromU32(x.len() as u32)));
    let shifted = Scalar::Add(Box::new(mean), Box::new(Scalar::Bits(RMS_EPS_BITS)));
    Scalar::Div(
        Box::new(Scalar::Bits(ONE_BITS)),
        Box::new(Scalar::Sqrt(Box::new(shifted))),
    )
}

/// `x`, scaled to a mean square of one and then by `weight`.
pub open spec fn rms_normalized(x: Seq<Scalar>, weight: Seq<Scalar>) -> Seq<Scalar> {
    Seq::new(
        x.len(),
        |j: int|
            Scalar::Mul(
                Box::new(weight[j]),
                Box::new(Scalar::Mul(Box::new(rms_scale(x)), Box::new(x[j]))),
            ),
    )
}

fn lane_sum(x: &Vec<Scalar>, local: u32) -> (r: Scalar)
    requires
        x@.len() <= u32::MAX,
    ensures
        r == square_lane(x@)(local as int),
{
    let size: u64 = x.len() as u64;
    let mut ss = Scalar::zero();
    let mut j: u64 = local as u64;
    while j < size
        invariant
            size == x@.len(),
            size <= u32::MAX,
            sum_from(square_term(x@), j as int, WORKGROUP as int, size as int, ss) == square_lane(
                x@,
            )(local as int),
        decreases size + WORKGROUP - j,
    {
        let v = x[j as usize].dup();
        ss = ss.plus(v.dup().times(v));
        j = j + WORKGROUP as u64;
    }
    ss
}

fn scale(x: &Vec<Scalar>) -> (r: Scalar)
    requires
        x@.len() <= u32::MAX,
    ensures
        r == rms_scale(x@),
{
    let mut lanes = Lanes::Empty;
    let mut local: u32 = 0;
    while local < WORKGROUP
        invariant
            local <= WORKGROUP,
            x@.len() <= u32::MAX,
            lanes == lanes_of(square_lane(x@), local as nat),
        decreases WORKGROUP - local,
    {
        lanes = Lanes::Push(Box::new(lanes), Box::new(lane_sum(x, local)));
        local = local + 1;
    }
    let total = Scalar::WorkgroupSum(Box::new(lanes));
    let mean = total.over(Scalar::FromU32(x.len() as u32));
    Scalar::one().over(mean.plus(Scalar::Bits(RMS_EPS_BITS)).sqrt())
}

/// Tensors of [`rmsnorm`].
pub open spec fn rmsnorm_bounds(x: TensorShape, weight: TensorShape, o: TensorShape) -> Seq<Bound> {
    seq![
        bound1(Param::X, Dim::Dim, x),
        bound1(Param::Weight, Dim::Dim, weight),
        bound1(Param::O, Dim::Dim, o),
    ]
}

/// Holds the tensors of [`rmsnorm`] to their contract.
pub fn check_rmsnorm(x: TensorShape, weight: TensorShape, o: TensorShape) -> (r: Result<
    (),
    ContractError,
>)
    ensures
        match r {
            Ok(()) => mismatch(rmsnorm_bounds(x, weight, o)) is None,
            Err(e) => mismatch(rmsnorm_bounds(x, weight, o)) == Some(e),
        },
{
    let mut bounds: Vec<Bound> = Vec::new();
    bounds.push(make1(Param::X, Dim::Dim, x));
    bounds.push(make1(Param::Weight, Dim::Dim, weight));
    bounds.push(make1(Param::O, Dim::Dim, o));
    assert(bounds@ =~= rmsnorm_bounds(x, weight, o));
    check(&bounds)
}

proof fn lemma_rmsnorm_shapes(x: TensorShape, weight: TensorShape, o: TensorShape)
    requires
        mismatch(rmsnorm_bounds(x, weight, o)) is None,
    ensures
        x.dims().len() == 1,
        weight.dims().len() == 1,
        o.dims().len() == 1,
        weight.dims()[0] == x.dims()[0],
        o.dims()[0] == x.dims()[0],
{
    let b = rmsnorm_bounds(x, weight, o);
    law_contract_holds_iff_axes_agree(b);
    assert(b[0].shape == x && b[1].shape == weight && b[2].shape == o);
    assert(axis_name(b, 0, 0) == axis_name(b, 1, 0));
    assert(axis_name(b, 0, 0) == axis_name(b, 2, 0));
}

/// RMSNorm of `x` into `o` by one workgroup, strided over the elements.
pub fn rmsnorm(x: &HostTensor, weight: &HostTensor, o: &mut HostTensor) -> (r: Result<
    (),
    ContractError,
>)
    requires
        x.wf(),
        weight.wf(),
        old(o).wf(),
    ensures
        final(o).wf(),
        final(o).shape == old(o).shape,
        match r {
            Err(e) => {
                &&& mismatch(rmsnorm_bounds(x.shape, weight.shape, old(o).shape)) == Some(e)
                &&& final(o).data@ == old(o).data@
            },
            Ok(()) => {
                &&& mismatch(rmsnorm_bounds(x.shape, weight.shape, old(o).shape)) is None
                &&& final(o).data@ == rms_normalized(x.data@, weight.data@)
            },
        },
{
    match check_rmsnorm(x.shape, weight.shape, o.shape) {
        Ok(()) => {},
        Err(e) => {
            return Err(e);
        },
    }
    proof {
        lemma_rmsnorm_shapes(x.shape, weight.shape, o.shape);
    }
    let ss = scale(&x.data);
    let size: usize = x.data.len();
    let mut j: usize = 0;
    while j < size
        invariant
            j <= size,
            size == x.data@.len(),
            size == weight.data@.len(),
            size == o.data@.len(),
            o.shape == old(o).shape,
            ss == rms_scale(x.data@),
            o.data@.take(j as int) == rms_normalized(x.data@, weight.data@).take(j as int),
        decreases size - j,
    {
        let ghost before = o.data@;
        o.data[j] = weight.data[j].dup().times(ss.dup().times(x.data[j].dup()));
        assert(o.data@.take(j + 1) =~= o.data@.take(j as int).push(o.data@[j as int]));
        assert(o.data@.take(j as int) =~= before.take(j as int));
        assert(rms_normalized(x.data@, weight.data@).take(j + 1) =~= rms_normalized(
            x.data@,
            weight.data@,
        ).take(j as int).push(o.data@[j as int]));
        j = j + 1;
    }
    assert(o.data@ =~= o.data@.take(size as int));
    assert(rms_normalized(x.data@, weight.data@) =~= rms_normalized(x.data@, weight.data@).take(
        size as int,
    ));
    Ok(())
}

/// Tensors of [`rmsnorm_inplace`].
pub open spec fn rmsnorm_inplace_bounds(x: TensorShape, weight: TensorShape) -> Seq<Bound> {
    seq![bound1(Param::X, Dim::Dim, x), bound1(Param::Weight, Dim::Dim, weight)]
}

/// Holds the tensors of [`rmsnorm_inplace`] to their contract.
pub fn check_rmsnorm_inplace(x: TensorShape, weight: TensorShape) -> (r: Result<(), ContractError>)
    ensures
        match r {
            Ok(()) => mismatch(rmsnorm_inplace_bounds(x, weight)) is None,
            Err(e) => mismatch(rmsnorm_inplace_bounds(x, weight)) == Some(e),
        },
{
    let mut bounds: Vec<Bound> = Vec::new();
    bounds.push(make1(Param::X, Dim::Dim, x));
    bounds.push(make1(Param::Weight, Dim::Dim, weight));
    assert(bounds@ =~= rmsnorm_inplace_bounds(x, weight));
    check(&bounds)
}

proof fn lemma_rmsnorm_inplace_shapes(x: TensorShape, weight: TensorShape)
    requires
        mismatch(rmsnorm_inplace_bounds(x, weight)) is None,
    ensures
        x.dims().len() == 1,
        weight.dims().len() == 1,
        weight.dims()[0] == x.dims()[0],
{
    let b = rmsnorm_inplace_bounds(x, weight);
    law_contract_holds_iff_axes_agree(b);
    assert(b[0].shape == x && b[1].shape == weight);
    assert(axis_name(b, 0, 0) == axis_name(b, 1, 0));
}

/// RMSNorm of `x` in place by one workgroup.
pub fn rmsnorm_inplace(x: &mut HostTensor, weight: &HostTensor) -> (r: Result<(), ContractError>)
    requires
        old(x).wf(),
        weight.wf(),
    ensures
        final(x).wf(),
        final(x).shape == old(x).shape,
        match r {
            Err(e) => {
                &&& mismatch(rmsnorm_inplace_bounds(old(x).shape, weight.shape)) == Some(e)
                &&& final(x).data@ == old(x).data@
            },
            Ok(()) => {
                &&& mismatch(rmsnorm_inplace_bounds(old(x).shape, weight.shape)) is None
                &&& final(x).data@ == rms_normalized(old(x).data@, weight.data@)
            },
        },
{
    match check_rmsnorm_inplace(x.shape, weight.shape) {
        Ok(()) => {},
        Err(e) => {
            return Err(e);
        },
    }
    proof {
        lemma_rmsnorm_inplace_shapes(x.shape, weight.shape);
    }
    let ss = scale(&x.data);
    let ghost before = x.data@;
    let size: usize = x.data.len();
    let mut j: usize = 0;
    while j < size
        invariant
            j <= size,
            size == before.len(),
            size == weight.data@.len(),
            size == x.data@.len(),
            before == old(x).data@,
            x.shape == old(x).shape,
            ss == rms_scale(before),
            x.data@ == Seq::new(
                before.len(),
                |i: int|
                    if i < j {
                        rms_normalized(before, weight.data@)[i]
                    } else {
                        before[i]
                    },
            ),
        decreases size - j,
    {
        x.data[j] = weight.data[j].dup().times(ss.dup().times(x.data[j].dup()));
        j = j + 1;
    }
    assert(x.data@ =~= rms_normalized(before, weight.data@));
    Ok(())
}

/// In-place RMSNorm takes the tensors that RMSNorm onto its own input takes; both then
/// leave [`rms_normalized`].
pub proof fn law_inplace_takes_what_rmsnorm_takes(x: TensorShape, weight: TensorShape)
    ensures
        mismatch(rmsnorm_bounds(x, weight, x)) is None <==> mismatch(
            rmsnorm_inplace_bounds(x, weight),
        ) is None,
{
    let a = rmsnorm_bounds(x, weight, x);
    let b = rmsnorm_inplace_bounds(x, weight);
    law_contract_holds_iff_axes_agree(a);
    law_contract_holds_iff_axes_agree(b);
    if mismatch(a) is None {
        lemma_rmsnorm_shapes(x, weight, x);
    }
    if mismatch(b) is None {
        lemma_rmsnorm_inplace_shapes(x, weight);
    }
    assert(a[0].shape == x && a[1].shape == weight && a[2].shape == x);
    assert(b[0].shape == x && b[1].shape == weight);
}

} // verus!
