//! The tensor operations of the forward and the backward pass.

pub mod attention;
pub mod attention_backward;
pub mod embed;
pub mod linear;
pub mod loss;
pub mod norm;
pub mod pointwise;
pub mod rope;
