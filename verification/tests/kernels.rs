//! Algebraic kernel checks: recorded schemes are replayed on host memory, and each scalar
//! that a kernel leaves is evaluated in `f32`.
use ammon::blocks::{attention_splits, record_attention, record_swiglu, AttentionSites, NormScratch};
use ammon::blocks::{look_up, CacheSlot, RecordError};
use ammon::kernels::attention::attention;
use ammon::kernels::elementwise::{cache_store, embed, gemv, swiglu};
use ammon::kernels::flash::{attention_combine, attention_partial};
use ammon::kernels::norm::{rmsnorm, rmsnorm_inplace};
use ammon::kernels::rope::{rope, rope_store};
use ammon::kernels::{DecodeStep, DepositTarget, HostTensor, TensorKernels, DEFAULT_ROPE_THETA};
use ammon::scalar::{Lanes, Scalar};
use ammon::scheme::{semantic_norm_requested, Entry, Grid, Scheme, TensorOp, Work};
use ammon::tensor::{Allocation, Parcel, Runtime, ShapeError, Tensor, TensorShape, TensorView};
use ammon::{
    CausalAttentionBlock, CausalAttentionBlockWeights, Embedding, KvCache, KvLayer, Linear, RmsNorm,
    SwiGluBlock, SwiGluBlockWeights,
};

fn lanes(l: &Lanes) -> Vec<f32> {
    match l {
        Lanes::Empty => Vec::new(),
        Lanes::Push(rest, last) => {
            let mut v = lanes(rest);
            v.push(eval(last));
            v
        }
    }
}

fn softmax(scores: &[f32]) -> Vec<f32> {
    let max = scores.iter().cloned().fold(f32::NEG_INFINITY, f32::max);
    let exps: Vec<f32> = scores.iter().map(|s| (s - max).exp()).collect();
    let total: f32 = exps.iter().sum();
    exps.iter().map(|e| e / total).collect()
}

fn eval(s: &Scalar) -> f32 {
    match s {
        Scalar::Bits(b) => f32::from_bits(*b),
        Scalar::FromU32(n) => *n as f32,
        Scalar::FromI32(n) => *n as f32,
        Scalar::Neg(a) => -eval(a),
        Scalar::Add(a, b) => eval(a) + eval(b),
        Scalar::Sub(a, b) => eval(a) - eval(b),
        Scalar::Mul(a, b) => eval(a) * eval(b),
        Scalar::Div(a, b) => eval(a) / eval(b),
        Scalar::Sqrt(a) => eval(a).sqrt(),
        Scalar::Exp(a) => eval(a).exp(),
        Scalar::Cos(a) => eval(a).cos(),
        Scalar::Sin(a) => eval(a).sin(),
        Scalar::Pow(a, b) => eval(a).powf(eval(b)),
        Scalar::Larger(a, b) => {
            let (a, b) = (eval(a), eval(b));
            if b > a {
                b
            } else {
                a
            }
        }
        Scalar::WorkgroupSum(l) => lanes(l).iter().sum(),
        Scalar::Softmax(l, i) => softmax(&lanes(l))[*i as usize],
    }
}

fn host(shape: TensorShape, data: &[f32]) -> HostTensor {
    let data = data.iter().map(|v| Scalar::Bits(v.to_bits())).collect();
    HostTensor::new(shape, data).expect("as many elements as the shape asks for")
}

fn read(t: &HostTensor) -> Vec<f32> {
    t.data.iter().map(eval).collect()
}

/// Host memory for the parcels of a runtime, and the step that kernels read.
struct Device {
    runtime: Runtime,
    parcels: Vec<Vec<f32>>,
    step: DecodeStep,
}

impl Device {
    fn new() -> Device {
        Device {
            runtime: Runtime::new(),
            parcels: Vec::new(),
            step: DecodeStep { token: 0, position: 0 },
        }
    }

    /// Makes room for what the runtime has allocated since.
    fn sync(&mut self) {
        for at in self.parcels.len()..self.runtime.allocations.len() {
            let len = match self.runtime.allocations[at] {
                Allocation::Zeros(shape) => shape.numel_u32() as usize,
                Allocation::Step(step) => {
                    self.step = step;
                    0
                }
            };
            self.parcels.push(vec![0.0; len]);
        }
    }

    fn tensor(&mut self, shape: TensorShape, data: &[f32]) -> Tensor {
        let t = Tensor::zeros(&mut self.runtime, shape);
        self.sync();
        assert_eq!(self.parcels[t.parcel.id].len(), data.len());
        self.parcels[t.parcel.id].copy_from_slice(data);
        t
    }

    fn zeros(&mut self, shape: TensorShape) -> Tensor {
        let t = Tensor::zeros(&mut self.runtime, shape);
        self.sync();
        t
    }

    fn step_buf(&mut self, token: u32, position: u32) -> Parcel {
        let p = DecodeStep::parcel(&mut self.runtime);
        self.sync();
        self.step = DecodeStep { token, position };
        p
    }

    fn get(&self, v: TensorView) -> Vec<f32> {
        let from = v.offset as usize;
        self.parcels[v.parcel.id][from..from + v.numel_u32() as usize].to_vec()
    }

    fn put(&mut self, v: TensorView, data: &[f32]) {
        let from = v.offset as usize;
        self.parcels[v.parcel.id][from..from + data.len()].copy_from_slice(data);
    }

    fn load(&self, v: TensorView) -> HostTensor {
        host(v.shape, &self.get(v))
    }

    fn store(&mut self, v: TensorView, t: &HostTensor) {
        self.put(v, &read(t));
    }

    fn threads(grid: Grid) -> u32 {
        match grid {
            Grid::Over1d(n) => n.div_ceil(256) * 256,
            Grid::OverTensor(v) => v.numel_u32().div_ceil(256) * 256,
            Grid::Groups(x, y, z) => x * y * z,
        }
    }

    fn kernel(&mut self, work: Work, grid: Grid) {
        let n = Device::threads(grid);
        let step = self.step;
        match work {
            Work::Embed { table, step: _, x } => {
                let mut o = self.load(x);
                embed(&self.load(table), &step, &mut o, n).unwrap();
                self.store(x, &o);
            }
            Work::Gemv { x, w, xout, step: _ } => {
                let mut o = self.load(xout);
                gemv(&self.load(x), &self.load(w), &mut o, &step, n).unwrap();
                self.store(xout, &o);
            }
            Work::Rmsnorm { x, weight, o } => {
                let mut out = self.load(o);
                rmsnorm(&self.load(x), &self.load(weight), &mut out).unwrap();
                self.store(o, &out);
            }
            Work::RmsnormInplace { x, weight } => {
                let mut out = self.load(x);
                rmsnorm_inplace(&mut out, &self.load(weight)).unwrap();
                self.store(x, &out);
            }
            Work::Rope { q, k, step: _, theta } => {
                let (mut hq, mut hk) = (self.load(q), self.load(k));
                rope(&mut hq, &mut hk, &step, theta, n).unwrap();
                self.store(q, &hq);
                self.store(k, &hk);
            }
            Work::RopeStore { q, k_proj, k, step: _, theta } => {
                let (mut hq, mut hk) = (self.load(q), self.load(k));
                rope_store(&mut hq, &self.load(k_proj), &mut hk, &step, theta, n).unwrap();
                self.store(q, &hq);
                self.store(k, &hk);
            }
            Work::CacheStore { src, dst, step: _ } => {
                let mut o = self.load(dst);
                cache_store(&self.load(src), &mut o, &step, n).unwrap();
                self.store(dst, &o);
            }
            Work::AttentionPartial { q, key_cache, value_cache, partial, step: _ } => {
                let mut o = self.load(partial);
                let (k, v) = (self.load(key_cache), self.load(value_cache));
                attention_partial(&self.load(q), &k, &v, &mut o, &step, n).unwrap();
                self.store(partial, &o);
            }
            Work::AttentionCombine { partial, xb, step: _ } => {
                let mut o = self.load(xb);
                attention_combine(&self.load(partial), &mut o, &step, n).unwrap();
                self.store(xb, &o);
            }
            Work::Attention { q, att, xb, key_cache, value_cache, step: _ } => {
                let (mut a, mut o) = (self.load(att), self.load(xb));
                let (k, v) = (self.load(key_cache), self.load(value_cache));
                attention(&self.load(q), &mut a, &mut o, &k, &v, &step, n).unwrap();
                self.store(att, &a);
                self.store(xb, &o);
            }
            Work::Swiglu { hb, hb2 } => {
                let mut o = self.load(hb);
                swiglu(&mut o, &self.load(hb2), n).unwrap();
                self.store(hb, &o);
            }
        }
    }

    fn map2(&mut self, a: TensorView, b: TensorView, out: TensorView, f: fn(f32, f32) -> f32) {
        let (a, b) = (self.get(a), self.get(b));
        let pick = |v: &Vec<f32>, i: usize| if v.len() == 1 { v[0] } else { v[i] };
        let n = out.numel_u32() as usize;
        let r: Vec<f32> = (0..n).map(|i| f(pick(&a, i), pick(&b, i))).collect();
        self.put(out, &r);
    }

    fn op(&mut self, op: TensorOp) {
        match op {
            TensorOp::Add { a, b, out } => self.map2(a, b, out, |a, b| a + b),
            TensorOp::Mul { a, b, out } => self.map2(a, b, out, |a, b| a * b),
            TensorOp::Matmul { a, b, out } => {
                let (w, x) = (self.get(a), self.get(b));
                let r = matvec(&w, &x);
                assert_eq!(r.len(), out.numel_u32() as usize);
                self.put(out, &r);
            }
            TensorOp::Mean { a, axis, out } => {
                assert_eq!(axis, 0);
                let v = self.get(a);
                let mean = v.iter().sum::<f32>() / v.len() as f32;
                self.put(out, &[mean]);
            }
            TensorOp::AddScalar { a, bits, out } => {
                let r: Vec<f32> = self.get(a).iter().map(|v| v + f32::from_bits(bits)).collect();
                self.put(out, &r);
            }
            TensorOp::Sqrt { a, out } => {
                let r: Vec<f32> = self.get(a).iter().map(|v| v.sqrt()).collect();
                self.put(out, &r);
            }
            TensorOp::Reciprocal { a, out } => {
                let r: Vec<f32> = self.get(a).iter().map(|v| 1.0 / v).collect();
                self.put(out, &r);
            }
            TensorOp::Neg { a, out } => {
                let r: Vec<f32> = self.get(a).iter().map(|v| -v).collect();
                self.put(out, &r);
            }
            TensorOp::Exp { a, out } => {
                let r: Vec<f32> = self.get(a).iter().map(|v| v.exp()).collect();
                self.put(out, &r);
            }
        }
    }

    fn submit(&mut self, scheme: &Scheme) {
        for entry in &scheme.entries {
            match entry {
                Entry::Kernel { label: _, work, grid } => self.kernel(*work, *grid),
                Entry::Tensor { label: _, op } => self.op(*op),
                Entry::Open { label: _ } => {}
                Entry::Close => {}
            }
        }
    }
}

fn matvec(w: &[f32], x: &[f32]) -> Vec<f32> {
    w.chunks(x.len()).map(|row| row.iter().zip(x).map(|(a, b)| a * b).sum()).collect()
}

fn scheme() -> Scheme {
    Scheme::new(false, false)
}

fn cube(a: u32, b: u32, c: u32) -> TensorShape {
    TensorShape::from_dims(&[a, b, c]).unwrap()
}

/// Made-up weights in `[-0.5, 0.5)`.
fn noise(seed: u32, n: usize) -> Vec<f32> {
    let mut s = seed.wrapping_mul(2654435761).wrapping_add(12345);
    (0..n)
        .map(|_| {
            s = s.wrapping_mul(1664525).wrapping_add(1013904223);
            (s >> 8) as f32 / (1u32 << 24) as f32 - 0.5
        })
        .collect()
}

fn close(a: &[f32], b: &[f32], tolerance: f32) -> bool {
    a.len() == b.len() && a.iter().zip(b).all(|(a, b)| (a - b).abs() < tolerance)
}

fn labels(scheme: &Scheme) -> Vec<String> {
    scheme
        .entries
        .iter()
        .map(|e| match e {
            Entry::Kernel { label, work: _, grid: _ } => label.clone(),
            Entry::Tensor { label, op: _ } => label.clone(),
            Entry::Open { label } => format!("<{label}>"),
            Entry::Close => "</>".to_string(),
        })
        .collect()
}

#[test]
fn embed_gathers_selected_row() {
    let mut device = Device::new();
    let embed = device.tensor(TensorShape::matrix(2, 2), &[1.0, 2.0, 3.0, 4.0]);
    let step = device.step_buf(1, 0);
    let x = device.tensor(TensorShape::vector(2), &[0.0, 0.0]);
    let mut scheme = scheme();
    scheme
        .dispatch(
            "embed",
            Work::Embed { table: embed.view(), step, x: x.view() },
            Grid::Over1d(2),
        )
        .unwrap();
    device.submit(&scheme);
    assert_eq!(device.get(x.view()), vec![3.0, 4.0]);
}

#[test]
fn rope_at_pos_zero_is_identity() {
    let mut device = Device::new();
    let q = device.tensor(TensorShape::matrix(2, 2), &[1.0, 2.0, 3.0, 4.0]);
    let k = device.tensor(cube(1, 2, 2), &[5.0, 6.0, 7.0, 8.0]);
    let step = device.step_buf(0, 0);
    let mut scheme = scheme();
    let work = Work::Rope { q: q.view(), k: k.view(), step, theta: DEFAULT_ROPE_THETA };
    scheme.dispatch("rope", work, Grid::Over1d(2)).unwrap();
    device.submit(&scheme);
    assert_eq!(device.get(q.view()), vec![1.0, 2.0, 3.0, 4.0]);
    assert_eq!(device.get(k.view()), vec![5.0, 6.0, 7.0, 8.0]);
}

#[test]
fn gemv_identity() {
    let mut device = Device::new();
    let x = device.tensor(TensorShape::vector(2), &[1.0, 2.0]);
    let w = device.tensor(TensorShape::matrix(2, 2), &[1.0, 0.0, 0.0, 1.0]);
    let out = device.tensor(TensorShape::matrix(1, 2), &[0.0, 0.0]);
    let step = device.step_buf(0, 0);
    let mut scheme = scheme();
    let work = Work::Gemv { x: x.view(), w: w.view(), xout: out.view(), step };
    scheme.dispatch("gemv", work, Grid::Over1d(2)).unwrap();
    device.submit(&scheme);
    assert_eq!(device.get(out.view()), vec![1.0, 2.0]);
}

#[test]
fn gemv_writes_cache_row_at_position() {
    let mut device = Device::new();
    let x = device.tensor(TensorShape::vector(2), &[1.0, 2.0]);
    let w = device.tensor(TensorShape::matrix(2, 2), &[1.0, 0.0, 0.0, 1.0]);
    let out = device.zeros(TensorShape::matrix(4, 2));
    let step = device.step_buf(0, 2);
    let mut scheme = scheme();
    let work = Work::Gemv { x: x.view(), w: w.view(), xout: out.view(), step };
    scheme.dispatch("gemv_pos", work, Grid::Over1d(2)).unwrap();
    device.submit(&scheme);
    assert_eq!(device.get(out.view()), vec![0.0, 0.0, 0.0, 0.0, 1.0, 2.0, 0.0, 0.0]);
}

#[test]
fn gemv_rejects_rank1_output() {
    let mut device = Device::new();
    let x = device.tensor(TensorShape::vector(2), &[1.0, 2.0]);
    let w = device.tensor(TensorShape::matrix(2, 2), &[1.0, 0.0, 0.0, 1.0]);
    let out = device.tensor(TensorShape::vector(2), &[0.0, 0.0]);
    let step = device.step_buf(0, 0);
    let mut scheme = scheme();
    let before = scheme.ir_node_count();
    let work = Work::Gemv { x: x.view(), w: w.view(), xout: out.view(), step };
    let err = scheme.dispatch("gemv_rank1", work, Grid::Over1d(2)).unwrap_err();
    assert!(err.message().contains("expected rank 2"), "{}", err.message());
    assert_eq!(scheme.ir_node_count(), before);
}

#[test]
fn swiglu_of_zero_is_zero() {
    let mut device = Device::new();
    let hb = device.tensor(TensorShape::vector(2), &[0.0, 0.0]);
    let hb2 = device.tensor(TensorShape::vector(2), &[5.0, 7.0]);
    let mut scheme = scheme();
    let work = Work::Swiglu { hb: hb.view(), hb2: hb2.view() };
    scheme.dispatch("swiglu", work, Grid::Over1d(2)).unwrap();
    device.submit(&scheme);
    assert_eq!(device.get(hb.view()), vec![0.0, 0.0]);
}

#[test]
fn rmsnorm_matches_llama3_cuda_formula() {
    let mut device = Device::new();
    let x = device.tensor(TensorShape::vector(4), &[1.0, 1.0, 1.0, 1.0]);
    let w = device.tensor(TensorShape::vector(4), &[1.0, 1.0, 1.0, 1.0]);
    let o = device.tensor(TensorShape::vector(4), &[0.0; 4]);
    let mut scheme = scheme();
    let work = Work::Rmsnorm { x: x.view(), weight: w.view(), o: o.view() };
    scheme.dispatch("rms", work, Grid::Groups(1, 1, 1)).unwrap();
    device.submit(&scheme);
    let ss = 1.0f32 + 1e-5;
    let scale = 1.0 / ss.sqrt();
    for v in device.get(o.view()) {
        assert!((v - scale).abs() < 1e-5, "{v} vs {scale}");
    }
}

#[test]
fn deposit_feeds_embed_without_rerecord() {
    let mut device = Device::new();
    let embed = device.tensor(TensorShape::matrix(2, 2), &[10.0, 20.0, 30.0, 40.0]);
    let step = device.step_buf(0, 0);
    let x = device.tensor(TensorShape::vector(2), &[0.0, 0.0]);
    let mut worker = scheme();
    let work = Work::Embed { table: embed.view(), step, x: x.view() };
    worker.dispatch("embed", work, Grid::Over1d(2)).unwrap();
    let target = DecodeStep::deposit_target(step);
    assert_eq!(target, DepositTarget { buffer: step, elements: 1 });
    for token in [0u32, 1u32] {
        device.step = DecodeStep { token, position: 0 };
        device.submit(&worker);
        let got = device.get(x.view());
        if token == 0 {
            assert_eq!(got, vec![10.0, 20.0]);
        } else {
            assert_eq!(got, vec![30.0, 40.0]);
        }
    }
    assert_eq!(worker.ir_node_count(), 1);
}

#[test]
fn tensor_add_into_is_elementwise() {
    let mut device = Device::new();
    let a = device.tensor(TensorShape::vector(2), &[1.0, 2.0]);
    let b = device.tensor(TensorShape::vector(2), &[3.0, 4.0]);
    let out = device.zeros(TensorShape::vector(2));
    let kernels = TensorKernels::prepare(&device.runtime);
    let mut scheme = scheme();
    kernels.add_into(&mut scheme, "add", a.view(), b.view(), out.view());
    device.submit(&scheme);
    assert_eq!(device.get(out.view()), vec![4.0, 6.0]);
}

#[test]
fn rope_store_writes_rotated_k_from_scratch() {
    let mut device = Device::new();
    // head = 2, one query head. Position 0 is a no-op rotation (cos=1, sin=0).
    let q = device.tensor(TensorShape::matrix(1, 2), &[1.0, 2.0]);
    let k_proj = device.tensor(TensorShape::vector(2), &[3.0, 4.0]);
    let k = device.zeros(cube(2, 1, 2));
    let step = device.step_buf(0, 1);
    let mut scheme = scheme();
    let work = Work::RopeStore {
        q: q.view(),
        k_proj: k_proj.view(),
        k: k.view(),
        step,
        theta: DEFAULT_ROPE_THETA,
    };
    scheme.dispatch("rope_store", work, Grid::Over1d(1)).unwrap();
    device.submit(&scheme);
    let q_out = device.get(q.view());
    let k_out = device.get(k.view());
    // pos 1, head_dim 0: freq = 1, val = 1, so this is a real rotation of both pairs.
    let (fcr, fci) = (1.0f32.cos(), 1.0f32.sin());
    let rotate = |a: f32, b: f32| (a * fcr - b * fci, a * fci + b * fcr);
    let (q0, q1) = rotate(1.0, 2.0);
    let (k0, k1) = rotate(3.0, 4.0);
    assert!((q_out[0] - q0).abs() < 1e-5 && (q_out[1] - q1).abs() < 1e-5, "{q_out:?}");
    assert_eq!(k_out[..2], [0.0, 0.0]);
    assert!((k_out[2] - k0).abs() < 1e-5 && (k_out[3] - k1).abs() < 1e-5, "{k_out:?}");
}

#[test]
fn cache_store_writes_row_at_position() {
    let mut device = Device::new();
    let src = device.tensor(TensorShape::vector(2), &[9.0, 8.0]);
    let dst = device.zeros(cube(3, 1, 2));
    let step = device.step_buf(0, 2);
    let mut scheme = scheme();
    let work = Work::CacheStore { src: src.view(), dst: dst.view(), step };
    scheme.dispatch("store", work, Grid::Over1d(2)).unwrap();
    device.submit(&scheme);
    assert_eq!(device.get(dst.view()), vec![0.0, 0.0, 0.0, 0.0, 9.0, 8.0]);
}

#[test]
fn semantic_gemv_then_cache_store_matches_serial_identity() {
    let mut device = Device::new();
    let x = device.tensor(TensorShape::vector(2), &[1.0, 2.0]);
    let w = device.tensor(TensorShape::matrix(2, 2), &[1.0, 0.0, 0.0, 1.0]);
    let scratch = device.zeros(TensorShape::vector(4));
    let cache = device.zeros(cube(3, 1, 2));
    let step = device.step_buf(0, 1);
    let tensors = TensorKernels::prepare(&device.runtime);
    let mut scheme = scheme();
    let proj = scratch.view().narrow(0, 2).unwrap();
    tensors.matmul_into(&mut scheme, "wv", w.view(), x.view(), proj);
    let work = Work::CacheStore { src: proj, dst: cache.view(), step };
    scheme.dispatch("wv_store", work, Grid::Over1d(2)).unwrap();
    device.submit(&scheme);
    assert_eq!(device.get(cache.view()), vec![0.0, 0.0, 1.0, 2.0, 0.0, 0.0]);
}

#[test]
fn tensor_matmul_into_is_gemv() {
    let mut device = Device::new();
    let w = device.tensor(TensorShape::matrix(2, 2), &[1.0, 0.0, 0.0, 1.0]);
    let x = device.tensor(TensorShape::vector(2), &[3.0, 4.0]);
    let out = device.zeros(TensorShape::vector(2));
    let kernels = TensorKernels::prepare(&device.runtime);
    let mut scheme = scheme();
    kernels.matmul_into(&mut scheme, "gemv", w.view(), x.view(), out.view());
    device.submit(&scheme);
    assert_eq!(device.get(out.view()), vec![3.0, 4.0]);
}

#[test]
fn rope_rejects_rank2_kv_cache() {
    let mut device = Device::new();
    let q = device.tensor(TensorShape::matrix(2, 2), &[1.0, 2.0, 3.0, 4.0]);
    let k = device.tensor(TensorShape::matrix(1, 4), &[5.0, 6.0, 7.0, 8.0]);
    let step = device.step_buf(0, 0);
    let mut scheme = scheme();
    let before = scheme.ir_node_count();
    let work = Work::Rope { q: q.view(), k: k.view(), step, theta: DEFAULT_ROPE_THETA };
    let err = scheme.dispatch("rope_rank", work, Grid::Over1d(2)).unwrap_err();
    assert!(err.message().contains("parameter `k`"), "{}", err.message());
    assert!(err.message().contains("expected rank 3"), "{}", err.message());
    assert_eq!(scheme.ir_node_count(), before);
}

#[test]
fn embed_rejects_dim_mismatch() {
    let mut device = Device::new();
    let embed = device.tensor(TensorShape::matrix(2, 2), &[1.0, 2.0, 3.0, 4.0]);
    let step = device.step_buf(1, 0);
    let x = device.tensor(TensorShape::vector(3), &[0.0, 0.0, 0.0]);
    let mut scheme = scheme();
    let before = scheme.ir_node_count();
    let work = Work::Embed { table: embed.view(), step, x: x.view() };
    let err = scheme.dispatch("embed_dim", work, Grid::Over1d(3)).unwrap_err();
    assert!(err.message().contains("parameter `x`"), "{}", err.message());
    assert!(err.message().contains("`dim`"), "{}", err.message());
    assert_eq!(scheme.ir_node_count(), before);
}

#[test]
fn contract_errors_in_words() {
    let table = TensorShape::matrix(2, 2);
    let mut x = host(TensorShape::vector(3), &[1.0, 2.0, 3.0]);
    let step = DecodeStep { token: 0, position: 0 };
    let err = embed(&host(table, &[0.0; 4]), &step, &mut x, 3).unwrap_err();
    assert_eq!(err.message(), "parameter `x`: expected `dim` to be 2, found 3");
    assert_eq!(read(&x), vec![1.0, 2.0, 3.0]);
    let mut out = host(TensorShape::vector(2), &[0.0; 2]);
    let w = host(table, &[1.0, 0.0, 0.0, 1.0]);
    let err = gemv(&host(TensorShape::vector(2), &[1.0, 2.0]), &w, &mut out, &step, 2).unwrap_err();
    assert_eq!(err.message(), "parameter `xout`: expected rank 2, found rank 1");
}

#[test]
fn threads_short_of_the_elements_leave_the_rest() {
    let mut hb = host(TensorShape::vector(3), &[1.0, 1.0, 1.0]);
    let hb2 = host(TensorShape::vector(3), &[2.0, 2.0, 2.0]);
    swiglu(&mut hb, &hb2, 2).unwrap();
    let want = 1.0f32 * (1.0 / (1.0 + (-1.0f32).exp())) * 2.0;
    assert_eq!(read(&hb), vec![want, want, 1.0]);
}

#[test]
fn rmsnorm_in_place_matches_out_of_place() {
    let data = noise(3, 300);
    let weight = host(TensorShape::vector(300), &noise(4, 300));
    let x = host(TensorShape::vector(300), &data);
    let mut o = host(TensorShape::vector(300), &[0.0; 300]);
    rmsnorm(&x, &weight, &mut o).unwrap();
    let mut inplace = host(TensorShape::vector(300), &data);
    rmsnorm_inplace(&mut inplace, &weight).unwrap();
    assert_eq!(read(&o), read(&inplace));
    let mean = data.iter().map(|v| v * v).sum::<f32>() / 300.0;
    let scale = 1.0 / (mean + 1e-5).sqrt();
    let want: Vec<f32> = data.iter().zip(noise(4, 300)).map(|(x, w)| w * (scale * x)).collect();
    assert!(close(&read(&o), &want, 1e-5));
}

#[test]
fn store_then_rope_matches_rope_store() {
    let step = DecodeStep { token: 0, position: 2 };
    let k_proj = host(TensorShape::vector(4), &noise(7, 4));
    let mut k = host(cube(3, 1, 4), &noise(8, 12));
    let mut q = host(TensorShape::matrix(2, 4), &noise(9, 8));
    cache_store(&k_proj, &mut k, &step, 256).unwrap();
    rope(&mut q, &mut k, &step, DEFAULT_ROPE_THETA, 256).unwrap();
    let mut k2 = host(cube(3, 1, 4), &noise(8, 12));
    let mut q2 = host(TensorShape::matrix(2, 4), &noise(9, 8));
    rope_store(&mut q2, &k_proj, &mut k2, &step, DEFAULT_ROPE_THETA, 256).unwrap();
    assert_eq!(read(&k), read(&k2));
    assert_eq!(read(&q), read(&q2));
    assert_eq!(read(&k)[..8], noise(8, 12)[..8]);
    // The second pair of a head of four turns by 1 / 10000^(2 / 4) of the position.
    let angle = 2.0f32 * (1.0 / 10000.0f32.powf(0.5));
    let p = noise(7, 4);
    assert!((read(&k)[10] - (p[2] * angle.cos() - p[3] * angle.sin())).abs() < 1e-6);
}

fn naive_attention(q: &[f32], key: &[f32], value: &[f32], dims: [usize; 3], pos: usize) -> Vec<f32> {
    let [q_heads, kv_heads, head] = dims;
    let mut out = Vec::new();
    for h in 0..q_heads {
        let base = h / (q_heads / kv_heads) * head;
        let row = kv_heads * head;
        let scores: Vec<f32> = (0..=pos)
            .map(|t| {
                let k = &key[t * row + base..t * row + base + head];
                let dot: f32 = k.iter().zip(&q[h * head..]).map(|(a, b)| a * b).sum();
                dot / (head as f32).sqrt()
            })
            .collect();
        let w = softmax(&scores);
        for i in 0..head {
            out.push((0..=pos).map(|t| w[t] * value[t * row + base + i]).sum());
        }
    }
    out
}

#[test]
fn flash_decoding_matches_serial_attention() {
    let (q_heads, kv_heads, head, seq) = (4u32, 2u32, 6u32, 70u32);
    let splits = attention_splits(seq);
    assert_eq!(splits, 3);
    let q = host(TensorShape::matrix(q_heads, head), &noise(1, 24));
    let cache_len = (seq * kv_heads * head) as usize;
    let key = host(cube(seq, kv_heads, head), &noise(2, cache_len));
    let value = host(cube(seq, kv_heads, head), &noise(3, cache_len));
    for position in [0u32, 1, 31, 32, 63, 64, 69] {
        let step = DecodeStep { token: 0, position };
        let mut att = host(TensorShape::matrix(q_heads, seq), &vec![0.0; (q_heads * seq) as usize]);
        let mut serial = host(TensorShape::matrix(q_heads, head), &[0.0; 24]);
        attention(&q, &mut att, &mut serial, &key, &value, &step, q_heads).unwrap();
        let slots = (q_heads * splits * (head + 2)) as usize;
        let mut outs: Vec<Vec<f32>> = Vec::new();
        for fill in [0.0f32, 1.0e9] {
            let mut partial = host(cube(q_heads, splits, head + 2), &vec![fill; slots]);
            attention_partial(&q, &key, &value, &mut partial, &step, q_heads * splits).unwrap();
            let mut xb = host(TensorShape::matrix(q_heads, head), &[0.0; 24]);
            attention_combine(&partial, &mut xb, &step, q_heads).unwrap();
            outs.push(read(&xb));
        }
        assert_eq!(outs[0], outs[1]);
        assert!(close(&outs[0], &read(&serial), 1e-5));
        let want = naive_attention(&read(&q), &read(&key), &read(&value), [4, 2, 6], position as usize);
        assert!(close(&read(&serial), &want, 1e-5));
        let weights = &read(&att)[..=position as usize];
        assert!((weights.iter().sum::<f32>() - 1.0).abs() < 1e-5);
    }
}

#[test]
fn attention_ignores_positions_to_come() {
    let step = DecodeStep { token: 0, position: 33 };
    let q = host(TensorShape::matrix(2, 4), &noise(5, 8));
    let mut outs: Vec<Vec<f32>> = Vec::new();
    for future in [0.0f32, 1.0e6] {
        let mut key = noise(6, 40 * 4);
        let mut value = noise(7, 40 * 4);
        key[34 * 4..].fill(future);
        value[34 * 4..].fill(future);
        let (key, value) = (host(cube(40, 1, 4), &key), host(cube(40, 1, 4), &value));
        let mut att = host(TensorShape::matrix(2, 40), &[0.0; 80]);
        let mut serial = host(TensorShape::matrix(2, 4), &[0.0; 8]);
        attention(&q, &mut att, &mut serial, &key, &value, &step, 2).unwrap();
        outs.push(read(&serial));
        let mut partial = host(cube(2, 2, 6), &[0.0; 24]);
        attention_partial(&q, &key, &value, &mut partial, &step, 4).unwrap();
        let mut xb = host(TensorShape::matrix(2, 4), &[0.0; 8]);
        attention_combine(&partial, &mut xb, &step, 2).unwrap();
        outs.push(read(&xb));
    }
    assert_eq!(outs[0], outs[2]);
    assert_eq!(outs[1], outs[3]);
}

#[test]
fn splits_cover_the_cache() {
    assert_eq!(attention_splits(0), 1);
    assert_eq!(attention_splits(1), 1);
    assert_eq!(attention_splits(32), 1);
    assert_eq!(attention_splits(33), 2);
    assert_eq!(attention_splits(64), 2);
    assert_eq!(attention_splits(u32::MAX), 134217728);
}

struct Layer {
    block: CausalAttentionBlock,
    weights: CausalAttentionBlockWeights,
    cache: KvLayer,
    x: Tensor,
    step: Parcel,
}

const HIDDEN: u32 = 8;
const SEQ: u32 = 40;

fn attention_layer(device: &mut Device) -> Layer {
    let h = HIDDEN as usize;
    let block = CausalAttentionBlock::new(&mut device.runtime, HIDDEN, 4, SEQ).unwrap();
    let cache = KvCache::new(&mut device.runtime, 2, SEQ, 2, 2).unwrap().layer(1).unwrap();
    device.sync();
    let square = TensorShape::matrix(HIDDEN, HIDDEN);
    let kv = TensorShape::matrix(4, HIDDEN);
    let weights = CausalAttentionBlockWeights {
        norm: device.tensor(TensorShape::vector(HIDDEN), &noise(11, h)).view(),
        query: device.tensor(square, &noise(12, h * h)).view(),
        key: device.tensor(kv, &noise(13, 4 * h)).view(),
        value: device.tensor(kv, &noise(14, 4 * h)).view(),
        output: device.tensor(square, &noise(15, h * h)).view(),
    };
    let x = device.zeros(TensorShape::vector(HIDDEN));
    let step = device.step_buf(0, 0);
    Layer { block, weights, cache, x, step }
}

fn normalized(x: &[f32], w: &[f32]) -> Vec<f32> {
    let mean = x.iter().map(|v| v * v).sum::<f32>() / x.len() as f32;
    let scale = 1.0 / (mean + 1e-5).sqrt();
    x.iter().zip(w).map(|(x, w)| w * (scale * x)).collect()
}

fn turned(v: &[f32], head: usize, pos: usize) -> Vec<f32> {
    let mut out = v.to_vec();
    for i in (0..v.len()).step_by(2) {
        let angle = pos as f32 / 10000.0f32.powf((i % head) as f32 / head as f32);
        out[i] = v[i] * angle.cos() - v[i + 1] * angle.sin();
        out[i + 1] = v[i] * angle.sin() + v[i + 1] * angle.cos();
    }
    out
}

#[test]
fn attention_block_decodes_like_a_plain_transformer() {
    let h = HIDDEN as usize;
    for (fusion, semantic) in [(false, false), (false, true), (true, false), (true, true)] {
        let mut device = Device::new();
        let layer = attention_layer(&mut device);
        let mut worker = Scheme::new(fusion, semantic);
        layer
            .block
            .record(&mut worker, layer.x.view(), layer.weights, layer.cache, layer.step)
            .unwrap();
        // The first layer of the cache lies before the block's own.
        let first = TensorView { offset: 0, ..layer.cache.key };
        device.put(first, &noise(16, 160));
        let (mut keys, mut values) = (Vec::new(), Vec::new());
        for pos in 0..SEQ as usize {
            let x = noise(100 + pos as u32, h);
            device.put(layer.x.view(), &x);
            device.step = DecodeStep { token: 0, position: pos as u32 };
            device.submit(&worker);
            let n = normalized(&x, &noise(11, h));
            let q = turned(&matvec(&noise(12, h * h), &n), 2, pos);
            keys.extend(turned(&matvec(&noise(13, 4 * h), &n), 2, pos));
            values.extend(matvec(&noise(14, 4 * h), &n));
            let a = naive_attention(&q, &keys, &values, [4, 2, 2], pos);
            let o = matvec(&noise(15, h * h), &a);
            let want: Vec<f32> = x.iter().zip(o).map(|(x, o)| x + o).collect();
            let got = device.get(layer.x.view());
            assert!(close(&got, &want, 1e-4), "{pos}: {got:?} vs {want:?}");
        }
        assert!(close(&device.get(layer.cache.key), &keys, 1e-4));
        assert!(close(&device.get(layer.cache.value), &values, 1e-4));
        assert_eq!(device.get(first), noise(16, 160));
        assert_eq!(device.get(layer.weights.query), noise(12, h * h));
        assert_eq!(device.get(layer.weights.output), noise(15, h * h));
    }
}

#[test]
fn attention_block_records_in_order() {
    let mut device = Device::new();
    let layer = attention_layer(&mut device);
    let mut worker = scheme();
    layer
        .block
        .record_group(&mut worker, "attn", layer.x.view(), layer.weights, layer.cache, layer.step)
        .unwrap();
    let want = [
        "<attn>", "rmsnorm", "wq", "wk", "wv", "rope", "wv_store", "attn_partial", "attn_combine",
        "wo", "residual", "</>",
    ];
    assert_eq!(labels(&worker), want);
    assert_eq!(worker.ir_node_count(), 10);
    match &worker.entries[5] {
        Entry::Kernel { label: _, work: _, grid } => assert_eq!(*grid, Grid::Over1d(4)),
        _ => panic!("a kernel"),
    }
    match &worker.entries[7] {
        Entry::Kernel { label: _, work: _, grid } => assert_eq!(*grid, Grid::Groups(8, 1, 1)),
        _ => panic!("a kernel"),
    }
    let mut fused = Scheme::new(true, true);
    layer
        .block
        .record(&mut fused, layer.x.view(), layer.weights, layer.cache, layer.step)
        .unwrap();
    let norm = [
        "rms_square", "rms_mean", "rms_eps", "rms_sqrt", "rms_scale", "rms_normalize", "rms_weight",
    ];
    assert_eq!(labels(&fused)[..7], norm);
    assert_eq!(fused.ir_node_count(), 16);
}

#[test]
fn refused_group_records_nothing() {
    let mut device = Device::new();
    let layer = attention_layer(&mut device);
    let mut weights = layer.weights;
    weights.norm = device.zeros(TensorShape::vector(7)).view();
    let mut worker = scheme();
    let err = layer
        .block
        .record_group(&mut worker, "attn", layer.x.view(), weights, layer.cache, layer.step)
        .unwrap_err();
    assert_eq!(err.message(), "parameter `weight`: expected `dim` to be 8, found 7");
    assert!(worker.entries.is_empty());
}

#[test]
fn attention_refuses_mismatched_sites() {
    let mut device = Device::new();
    let layer = attention_layer(&mut device);
    let sites = AttentionSites {
        x: layer.x.view(),
        xb: layer.block.xb.view(),
        xb2: layer.block.xb2.view(),
        q: layer.block.q.view(),
        v: layer.block.v.view(),
        partial: layer.block.partial.view(),
        norm: NormScratch {
            square: layer.block.norm.square.view(),
            scale: layer.block.norm.scale.view(),
        },
        key: layer.cache.key,
        value: layer.cache.value,
        step: layer.step,
        rms: layer.weights.norm,
        wq: layer.weights.query,
        wk: layer.weights.key,
        wv: layer.weights.value,
        wo: layer.weights.output,
    };
    let refuse = |s: AttentionSites| {
        let mut worker = scheme();
        let err = record_attention(&mut worker, s).unwrap_err();
        assert!(worker.entries.is_empty());
        err
    };
    let view = |shape: TensorShape| Tensor { parcel: Parcel { id: 99 }, shape }.view();

    let wv = view(TensorShape::matrix(6, HIDDEN));
    let e = refuse(AttentionSites { wv, ..sites });
    assert_eq!(e, RecordError::KvRowsDiffer);
    assert_eq!(e.message(), "attention: wk and wv row counts differ");

    let odd = view(TensorShape::matrix(3, HIDDEN));
    let e = refuse(AttentionSites { wk: odd, wv: odd, ..sites });
    assert_eq!(e, RecordError::KvWidth);
    assert_eq!(e.message(), "attention: kv width must be even and no wider than q");
    let wide = view(TensorShape::matrix(10, HIDDEN));
    assert_eq!(refuse(AttentionSites { wk: wide, wv: wide, ..sites }), RecordError::KvWidth);

    let v = view(TensorShape::vector(3));
    let e = refuse(AttentionSites { v, ..sites });
    assert_eq!(e, RecordError::KvScratch);
    assert_eq!(e.message(), "attention: xb2 or v is shorter than the kv projection");

    let e = refuse(AttentionSites {
        key: view(cube(SEQ, 2, 130)),
        q: view(TensorShape::matrix(4, 130)),
        xb: view(TensorShape::vector(520)),
        ..sites
    });
    assert_eq!(e, RecordError::HeadTooWide { head: 130 });
    assert_eq!(e.message(), "attention: head size 130 exceeds 128");

    let e = refuse(AttentionSites { partial: view(cube(4, 1, 4)), ..sites });
    assert_eq!(e, RecordError::PartialScratch { q_heads: 4, splits: 2, slot: 4 });
    assert_eq!(e.message(), "attention: partial scratch must be [4, 2, 4]");

    let e = refuse(AttentionSites { key: view(TensorShape::matrix(SEQ, 4)), ..sites });
    assert_eq!(e, RecordError::Shape(ShapeError::Axis { axis: 2, rank: 2 }));
    assert_eq!(e.message(), "no axis 2 in rank 2");

    let e = refuse(AttentionSites { xb: view(TensorShape::vector(9)), ..sites });
    let to = TensorShape::matrix(4, 2);
    assert_eq!(e, RecordError::Shape(ShapeError::Numel { from: 9, to }));
    assert_eq!(e.message(), "reshape of 9 elements to another count");

    let e = refuse(AttentionSites { xb2: view(TensorShape::matrix(2, 4)), ..sites });
    let window = ShapeError::Window { start: 0, len: 4, extent: 2 };
    assert_eq!(e, RecordError::Shape(window));
    assert_eq!(e.message(), "window of 4 from 0 leaves an axis of 2");
}

#[test]
fn swiglu_block_computes_the_gated_mlp() {
    let (h, m) = (4usize, 6usize);
    for (fusion, semantic) in [(false, false), (true, false), (true, true)] {
        let mut device = Device::new();
        let block = SwiGluBlock::new(&mut device.runtime, 4, 6);
        device.sync();
        let up = TensorShape::matrix(6, 4);
        let weights = SwiGluBlockWeights {
            norm: device.tensor(TensorShape::vector(4), &noise(21, h)).view(),
            gate: device.tensor(up, &noise(22, h * m)).view(),
            up: device.tensor(up, &noise(23, h * m)).view(),
            down: device.tensor(TensorShape::matrix(4, 6), &noise(24, h * m)).view(),
        };
        let x = device.tensor(TensorShape::vector(4), &noise(25, h));
        let mut worker = Scheme::new(fusion, semantic);
        block.record_group(&mut worker, "ffn", x.view(), weights).unwrap();
        device.submit(&worker);
        let n = normalized(&noise(25, h), &noise(21, h));
        let gate = matvec(&noise(22, h * m), &n);
        let up = matvec(&noise(23, h * m), &n);
        let hb: Vec<f32> =
            gate.iter().zip(up).map(|(g, u)| g * (1.0 / (1.0 + (-g).exp())) * u).collect();
        let down = matvec(&noise(24, h * m), &hb);
        let want: Vec<f32> = noise(25, h).iter().zip(down).map(|(x, d)| x + d).collect();
        assert!(close(&device.get(x.view()), &want, 1e-5));
        let plain = ["<ffn>", "rmsnorm", "w1", "w3", "swiglu", "w2", "residual", "</>"];
        if !fusion {
            assert_eq!(labels(&worker), plain);
        }
    }
}

#[test]
fn fused_swiglu_matches_the_kernel() {
    let mut device = Device::new();
    let hb = device.tensor(TensorShape::vector(3), &[0.5, -1.0, 2.0]);
    let hb2 = device.tensor(TensorShape::vector(3), &[1.0, 3.0, -2.0]);
    let gate = device.zeros(TensorShape::vector(3));
    let mut fused = Scheme::new(true, false);
    record_swiglu(&mut fused, hb.view(), hb2.view(), gate.view()).unwrap();
    let want = ["silu_neg", "silu_exp", "silu_denominator", "silu_reciprocal", "silu", "swiglu"];
    assert_eq!(labels(&fused), want);
    device.submit(&fused);
    let got = device.get(hb.view());
    device.put(hb.view(), &[0.5, -1.0, 2.0]);
    let mut plain = scheme();
    record_swiglu(&mut plain, hb.view(), hb2.view(), gate.view()).unwrap();
    assert_eq!(labels(&plain), ["swiglu"]);
    device.submit(&plain);
    assert_eq!(device.get(hb.view()), got);
}

#[test]
fn kernel_only_modules_record_one_node() {
    let mut device = Device::new();
    let table = device.tensor(TensorShape::matrix(2, 3), &[1.0, 2.0, 3.0, 4.0, 5.0, 6.0]);
    let x = device.zeros(TensorShape::vector(3));
    let out = device.zeros(TensorShape::vector(2));
    let weight = device.tensor(TensorShape::vector(3), &[1.0, 1.0, 1.0]);
    let step = device.step_buf(1, 0);
    let mut worker = scheme();
    let embedding = Embedding::new(&device.runtime);
    embedding.record_group(&mut worker, "embed", table.view(), step, x.view()).unwrap();
    assert_eq!(labels(&worker), ["<embed>", "embed", "</>"]);
    let norm = RmsNorm::new(&device.runtime);
    norm.record_inplace(&mut worker, x.view(), weight.view()).unwrap();
    Linear::new(&device.runtime).record(&mut worker, table.view(), x.view(), out.view());
    assert_eq!(labels(&worker)[3..], ["rmsnorm", "linear"]);
    assert_eq!(worker.ir_node_count(), 3);
    device.submit(&worker);
    let n = normalized(&[4.0, 5.0, 6.0], &[1.0, 1.0, 1.0]);
    assert!(close(&device.get(x.view()), &n, 1e-5));
    assert!(close(&device.get(out.view()), &matvec(&[1.0, 2.0, 3.0, 4.0, 5.0, 6.0], &n), 1e-4));
    norm.record(&mut worker, x.view(), weight.view(), out.view()).unwrap_err();
    assert_eq!(worker.ir_node_count(), 3);
}

#[test]
fn decode_step_parcel_starts_at_zero() {
    let mut runtime = Runtime::new();
    let a = DecodeStep::parcel(&mut runtime);
    let b = DecodeStep::parcel(&mut runtime);
    assert_eq!((a.id, b.id), (0, 1));
    let zero = Allocation::Step(DecodeStep { token: 0, position: 0 });
    assert_eq!(runtime.allocations, [zero, zero]);
}

#[test]
fn semantic_norm_needs_the_value_one() {
    assert!(semantic_norm_requested(Some("1")));
    assert!(!semantic_norm_requested(Some("true")));
    assert!(!semantic_norm_requested(Some("11")));
    assert!(!semantic_norm_requested(Some("")));
    assert!(!semantic_norm_requested(None));
}

#[test]
fn lookup_reuses_the_first_live_slot() {
    let slot = |key, live| CacheSlot { key, live };
    let slots = [slot(7, false), slot(3, true), slot(7, true), slot(9, false), slot(7, true)];
    let found = look_up(&slots, 7);
    assert_eq!(found.kept, vec![1, 2, 4]);
    assert_eq!(found.reuse, Some(1));
    let missing = look_up(&slots, 9);
    assert_eq!(missing.kept, vec![1, 2, 4]);
    assert_eq!(missing.reuse, None);
}

#[test]
fn held_kernels_come_back_for_their_runtime_only() {
    // Entries of the cache: the runtime, and the kernels prepared for it.
    let mut cache: Vec<(usize, u32)> = Vec::new();
    let mut ask = |held: &[u32], key: usize, prepared: Option<u32>| -> Option<u32> {
        let slots: Vec<CacheSlot> = cache
            .iter()
            .map(|(key, blocks)| CacheSlot { key: *key, live: held.contains(blocks) })
            .collect();
        let found = look_up(&slots, key);
        cache = found.kept.iter().map(|at| cache[*at]).collect();
        match found.reuse {
            Some(at) => Some(cache[at].1),
            None => {
                cache.extend(prepared.map(|blocks| (key, blocks)));
                prepared
            }
        }
    };
    assert_eq!(ask(&[], 7, Some(1)), Some(1));
    assert_eq!(ask(&[1], 7, Some(2)), Some(1));
    assert_eq!(ask(&[1], 8, Some(3)), Some(3));
    assert_eq!(ask(&[1, 3], 7, None), Some(1));
    assert_eq!(ask(&[3], 7, None), None);
    assert_eq!(ask(&[3], 7, Some(4)), Some(4));
    assert_eq!(ask(&[3, 4], 8, None), Some(3));
}
