//! What a model stores: one item of each kind per block, and the final projection.

use crate::meta::LlamaMeta;
use vstd::prelude::*;

verus! {

/// The kinds of weight that a block has.
#[derive(Clone, Copy, PartialEq, Eq, Hash, Debug)]
pub enum LlamaBlkWeight {
    AttnNorm,
    AttnQKV,
    AttnQKVBias,
    AttnO,
    FfnNorm,
    FfnGateInp,
    FfnGateUp,
    FfnDown,
}

/// One item for each kind of weight of a block.
#[derive(Debug)]
pub struct LlamaBlkStorage<T> {
    pub attn_norm: T,
    pub attn_qkv: T,
    pub attn_qkv_bias: T,
    pub attn_o: T,
    pub ffn_norm: T,
    pub ffn_gate_inp: T,
    pub ffn_gate_up: T,
    pub ffn_down: T,
}

impl<T> LlamaBlkStorage<T> {
    /// The item for one kind of weight.
    pub open spec fn of(self, which: LlamaBlkWeight) -> T {
        match which {
            LlamaBlkWeight::AttnNorm => self.attn_norm,
            LlamaBlkWeight::AttnQKV => self.attn_qkv,
            LlamaBlkWeight::AttnQKVBias => self.attn_qkv_bias,
            LlamaBlkWeight::AttnO => self.attn_o,
            LlamaBlkWeight::FfnNorm => self.ffn_norm,
            LlamaBlkWeight::FfnGateInp => self.ffn_gate_inp,
            LlamaBlkWeight::FfnGateUp => self.ffn_gate_up,
            LlamaBlkWeight::FfnDown => self.ffn_down,
        }
    }
}

/// A whole model: what it is like, the weights of its blocks, and the final projection.
pub struct LlamaStorage<T> {
    pub meta: LlamaMeta,
    pub output_norm: T,
    pub output: T,
    pub blocks: Vec<LlamaBlkStorage<T>>,
}

} // verus!
