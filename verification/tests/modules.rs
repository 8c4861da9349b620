//! Scratch, caches and views.
use ammon::kernels::HostTensor;
use ammon::modules::BlockError;
use ammon::scalar::Scalar;
use ammon::tensor::{Allocation, Parcel, Runtime, ShapeError, Tensor, TensorShape, TensorView};
use ammon::{CausalAttentionBlock, KvCache, SwiGluBlock};

fn zeros(dims: &[u32]) -> Allocation {
    Allocation::Zeros(TensorShape::from_dims(dims).unwrap())
}

#[test]
fn cache_layers_lie_behind_each_other() {
    let mut runtime = Runtime::new();
    let cache = KvCache::new(&mut runtime, 3, 5, 2, 4).unwrap();
    assert_eq!(runtime.allocations, [zeros(&[3, 5, 2, 4]), zeros(&[3, 5, 2, 4])]);
    for layer in 0..3u32 {
        let views = cache.layer(layer).unwrap();
        let shape = TensorShape::from_dims(&[5, 2, 4]).unwrap();
        let at = |id| TensorView { parcel: Parcel { id }, offset: 40 * layer, shape };
        assert_eq!(views.key, at(0));
        assert_eq!(views.value, at(1));
    }
    let window = ShapeError::Window { start: 3, len: 1, extent: 3 };
    assert_eq!(cache.layer(3).unwrap_err(), window);
    assert_eq!(
        cache.layer(u32::MAX).unwrap_err(),
        ShapeError::Window { start: u32::MAX, len: 1, extent: 3 }
    );
}

#[test]
fn cache_too_large_is_refused() {
    let mut runtime = Runtime::new();
    let err = KvCache::new(&mut runtime, 65536, 65536, 1, 1).unwrap_err();
    assert_eq!(err, ShapeError::TooLarge);
    assert_eq!(err.message(), "element count does not fit in 32 bits");
    assert!(runtime.allocations.is_empty());
}

#[test]
fn attention_block_owns_its_scratch() {
    let mut runtime = Runtime::new();
    Tensor::zeros(&mut runtime, TensorShape::vector(1));
    let block = CausalAttentionBlock::new(&mut runtime, 12, 3, 65).unwrap();
    assert_eq!(
        runtime.allocations[1..],
        [
            zeros(&[12]),
            zeros(&[12]),
            zeros(&[3, 4]),
            zeros(&[12]),
            zeros(&[3, 3, 6]),
            zeros(&[12]),
            zeros(&[1]),
        ]
    );
    assert_eq!(block.xb.parcel, Parcel { id: 1 });
    assert_eq!(block.norm.scale.parcel, Parcel { id: 7 });
}

#[test]
fn attention_block_needs_even_heads() {
    let mut runtime = Runtime::new();
    let err = CausalAttentionBlock::new(&mut runtime, 10, 3, 8).unwrap_err();
    assert_eq!(err, BlockError::Indivisible { hidden: 10, query_heads: 3 });
    assert_eq!(err.message(), "hidden 10 is not divisible by query_heads 3");
    let err = CausalAttentionBlock::new(&mut runtime, 10, 0, 8).unwrap_err();
    assert_eq!(err.message(), "hidden 10 is not divisible by query_heads 0");
    let err = CausalAttentionBlock::new(&mut runtime, 1 << 20, 1 << 20, u32::MAX).unwrap_err();
    assert_eq!(err, BlockError::Shape(ShapeError::TooLarge));
    assert_eq!(err.message(), "element count does not fit in 32 bits");
    assert!(runtime.allocations.is_empty());
}

#[test]
fn swiglu_block_owns_its_scratch() {
    let mut runtime = Runtime::new();
    let block = SwiGluBlock::new(&mut runtime, 4, 6);
    assert_eq!(
        runtime.allocations,
        [zeros(&[4]), zeros(&[6]), zeros(&[6]), zeros(&[6]), zeros(&[4]), zeros(&[1])]
    );
    assert_eq!(block.gate.parcel, Parcel { id: 3 });
}

#[test]
fn shapes_have_one_to_four_axes() {
    assert_eq!(TensorShape::from_dims(&[]).unwrap_err(), ShapeError::Rank { rank: 0 });
    let err = TensorShape::from_dims(&[1, 1, 1, 1, 1]).unwrap_err();
    assert_eq!(err.message(), "no shape of rank 5");
    let shape = TensorShape::from_dims(&[2, 3, 5, 7]).unwrap();
    assert_eq!(shape.rank(), 4);
    assert_eq!(shape.numel_u32(), 210);
    assert_eq!(shape.dim(2), Ok(5));
    assert_eq!(shape.dim(4), Err(ShapeError::Axis { axis: 4, rank: 4 }));
    assert_eq!(TensorShape::from_dims(&[u32::MAX]).unwrap().numel_u32(), u32::MAX);
    let zero = TensorShape::from_dims(&[0, u32::MAX, u32::MAX, u32::MAX]).unwrap();
    assert_eq!(zero.numel_u32(), 0);
}

#[test]
fn views_narrow_and_reshape() {
    let mut runtime = Runtime::new();
    let t = Tensor::zeros(&mut runtime, TensorShape::matrix(4, 3));
    let rows = t.view().narrow(1, 2).unwrap();
    assert_eq!((rows.offset, rows.shape), (3, TensorShape::matrix(2, 3)));
    let flat = rows.reshape(TensorShape::vector(6)).unwrap();
    assert_eq!((flat.offset, flat.numel_u32()), (3, 6));
    assert_eq!(
        rows.reshape(TensorShape::vector(5)),
        Err(ShapeError::Numel { from: 6, to: TensorShape::vector(5) })
    );
    assert_eq!(
        t.view().narrow(3, 2),
        Err(ShapeError::Window { start: 3, len: 2, extent: 4 })
    );
}

#[test]
fn host_tensors_have_all_their_elements() {
    let data = |n: usize| (0..n).map(|_| Scalar::zero()).collect::<Vec<Scalar>>();
    assert!(HostTensor::new(TensorShape::matrix(2, 3), data(6)).is_some());
    assert!(HostTensor::new(TensorShape::matrix(2, 3), data(5)).is_none());
}
