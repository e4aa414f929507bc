//! What holds of the library as a whole.

pub mod address;
pub mod copying;
pub mod merging;
pub mod models;
pub mod tensors;
pub mod transposing;
