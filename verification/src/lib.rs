//! Tensor metadata for Llama-family models: element types, strided layouts, the
//! tensors built from them, the sizes and shapes of every weight of a model, and
//! the weight table that a worker reads its blocks from.

pub mod digit;
pub mod laws;
pub mod layout;
pub mod meta;
pub mod product;
pub mod rearrange;
pub mod storage;
pub mod tensor;
pub mod weights;
