//! A Llama-style transformer on flat buffers.

pub mod adjoint;
pub mod arena;
pub mod bytes;
pub mod data;
pub mod exact;
pub mod gguf;
pub mod gradcheck;
pub mod json;
pub mod layout;
pub mod matmul;
pub mod model;
pub mod ops;
pub mod replay;
pub mod rng;
pub mod sample;
pub mod scalar;
pub mod sums;
pub mod tokenizer;
pub mod train;
