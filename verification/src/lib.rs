//! Inference operators and decode control. Not a training runtime.
pub mod block_formulas;
pub mod blocks;
pub mod contract;
pub mod exact;
pub mod formulas;
pub mod generate;
pub mod kernels;
pub mod model;
pub mod modules;
pub mod orders;
pub mod replay;
pub mod scalar;
pub mod scheme;
pub mod signatures;
pub mod tensor;
pub mod text;
pub mod tokenizer;

pub use generate::{
    generate, generate_tokens, GenerateError, GenerateOptions, GenerateOutput, GenerateTokenOutput,
};
pub use model::AutoregressiveModel;
pub use modules::{
    CausalAttentionBlock, CausalAttentionBlockWeights, Embedding, KvCache, KvLayer, Linear, RmsNorm,
    SwiGluBlock, SwiGluBlockWeights,
};
pub use tokenizer::Tokenizer;
