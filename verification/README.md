# Ammon

Inference operators and a greedy decode loop, verified with Verus.

Ammon is not a training framework and not a specific model. It sits between a GPU runtime
of parcels, schemes and tensors (Goldy) and architecture crates.

## Layout

- `src/tensor.rs`: shapes, parcels and contiguous views.
- `src/contract.rs`: the shape contracts of kernels, and their errors.
- `src/scalar.rs`: a floating-point value as the operations that produce it.
- `src/kernels/`: what each kernel leaves in its tensors, scalar by scalar: embedding,
  RMSNorm, RoPE, cache stores, serial and flash-decoding attention, SwiGLU.
- `src/scheme.rs`: a recorded list of dispatches.
- `src/blocks.rs`: which dispatches attention and feed-forward blocks are made of.
- `src/modules.rs`: recordable modules that own their scratch, and the KV cache.
- `src/generate.rs`, `src/model.rs`, `src/tokenizer.rs`: greedy decoding.
- `src/exact.rs`: kernels compared over the real numbers. Flash decoding is attention.
- `src/replay.rs`: what a replay of a recorded block computes.
- `app/`: the device code of the kernels, and the recording of planned schemes on Goldy.
- `tests/`: schemes replayed on host memory in `f32`, and decoding with scripted models.

## What is proved

Every function states what it returns or changes. Proof functions named `law_..` state what
holds across functions: that a block is recorded whole on the shapes it is meant for and
stays in bounds at every position, that layers of the cache do not overlap, that attention
is causal, and that, but for rounding, recorded blocks compute pre-norm attention and the
gated MLP in each form in which they are recorded.

Rounding itself is not modelled: a scalar fixes the order of floating-point operations, and
the laws on values are stated in exact arithmetic.
