//! A language-model inference engine: reading GGUF model files, tokenizing, and generating text.

pub mod alphabet;
pub mod attention;
pub mod bpe;
pub mod causal;
pub mod distribution;
pub mod dump;
pub mod error;
pub mod finite;
pub mod float;
pub mod fused;
pub mod generate;
pub mod gguf;
pub mod ids;
pub mod laws;
pub mod model;
pub mod perf;
pub mod pieces;
pub mod quant;
pub mod sampler;
pub mod tensor;
pub mod text;
pub mod tokenizer;
pub mod transcript;
pub mod weights;
