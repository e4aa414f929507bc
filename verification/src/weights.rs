//! The weights that a worker holds in main memory.

use crate::digit::DigitLayout;
use crate::meta::{Distribution, LlamaMeta};
use crate::storage::{LlamaBlkStorage, LlamaBlkWeight, LlamaStorage};
use std::marker::PhantomData;
use vstd::prelude::*;

verus! {

/// Bytes in one piece, either borrowed or owned.
pub enum Contiguous<'a> {
    Borrowed(&'a [u8]),
    Owned(Vec<u8>),
}

impl<'a> View for Contiguous<'a> {
    type V = Seq<u8>;

    open spec fn view(&self) -> Seq<u8> {
        match self {
            Contiguous::Borrowed(bytes) => bytes@,
            Contiguous::Owned(bytes) => bytes@,
        }
    }
}

impl<'a> Contiguous<'a> {
    /// The bytes.
    pub fn as_slice(&self) -> (r: &[u8])
        ensures
            r@ == self@,
            self matches Contiguous::Borrowed(bytes) ==> r@ == bytes@,
            self matches Contiguous::Owned(bytes) ==> r@ == bytes@,
    {
        match self {
            Contiguous::Borrowed(bytes) => bytes,
            Contiguous::Owned(bytes) => bytes.as_slice(),
        }
    }
}

/// What the weights say: the bytes of each kind of weight per block, those of the final
/// projection, and how they are to be read.
#[verifier::ext_equal]
pub struct WeightsModel {
    pub blks: Seq<LlamaBlkStorage<Seq<u8>>>,
    pub output_norm: Seq<u8>,
    pub output: Seq<u8>,
    pub dt_embd: DigitLayout,
    pub dt_mat: DigitLayout,
    pub nexp: usize,
}

/// The weights of a worker.
pub struct Weights<'w> {
    blks: Vec<LlamaBlkStorage<Contiguous<'w>>>,
    output_norm: &'w [u8],
    output: &'w [u8],
    dt_embd: DigitLayout,
    dt_mat: DigitLayout,
    nexp: usize,
}

/// The bytes of each kind of weight of a block.
spec fn blk_bytes(blk: LlamaBlkStorage<Contiguous>) -> LlamaBlkStorage<Seq<u8>> {
    LlamaBlkStorage {
        attn_norm: blk.attn_norm@,
        attn_qkv: blk.attn_qkv@,
        attn_qkv_bias: blk.attn_qkv_bias@,
        attn_o: blk.attn_o@,
        ffn_norm: blk.ffn_norm@,
        ffn_gate_inp: blk.ffn_gate_inp@,
        ffn_gate_up: blk.ffn_gate_up@,
        ffn_down: blk.ffn_down@,
    }
}

impl<'w> View for Weights<'w> {
    type V = WeightsModel;

    closed spec fn view(&self) -> WeightsModel {
        WeightsModel {
            blks: Seq::new(self.blks@.len(), |i: int| blk_bytes(self.blks@[i])),
            output_norm: self.output_norm@,
            output: self.output@,
            dt_embd: self.dt_embd,
            dt_mat: self.dt_mat,
            nexp: self.nexp,
        }
    }
}

/// The number of bytes that one of `nexp` experts has of `len`.
pub open spec fn expert_len(len: nat, nexp: usize) -> int {
    len as int / nexp as int
}

/// The bytes of expert `iexp` of `nexp`, which are stored one after the other.
pub open spec fn expert_bytes(all: Seq<u8>, nexp: usize, iexp: int) -> Seq<u8> {
    all.subrange(
        iexp * expert_len(all.len(), nexp),
        iexp * expert_len(all.len(), nexp) + expert_len(all.len(), nexp),
    )
}

/// Whether `bytes` can be what `f` picks for a share from `data`, one kind of weight of a
/// block of a whole model.
pub open spec fn picks<'w, F: Fn(&LlamaMeta, LlamaBlkWeight, &'w [u8], Distribution) -> Contiguous<'w>>(
    f: F,
    meta: &LlamaMeta,
    which: LlamaBlkWeight,
    data: &'w [u8],
    dist: Distribution,
    bytes: Seq<u8>,
) -> bool {
    exists|picked: Contiguous<'w>|
        #[trigger] call_ensures(f, (meta, which, data, dist), picked) && bytes == picked@
}

impl<'w> Weights<'w> {
    /// Takes the share of a worker from a whole model. `distribute_data` picks, for one
    /// kind of weight of a block of the whole model, the bytes that belong to the share.
    pub fn new<F: Fn(&LlamaMeta, LlamaBlkWeight, &'w [u8], Distribution) -> Contiguous<'w>>(
        model: &'w LlamaStorage<&'w [u8]>,
        dist: Distribution,
        distribute_data: F,
    ) -> (r: Self)
        requires
            model.meta.distribute_allowed(dist),
            forall|i: int, which: LlamaBlkWeight|
                0 <= i < model.blocks@.len() ==> call_requires(
                    distribute_data,
                    (&model.meta, which, #[trigger] model.blocks@[i].of(which), dist),
                ),
        ensures
            r@.blks.len() == model.blocks@.len(),
            forall|i: int, which: LlamaBlkWeight|
                0 <= i < model.blocks@.len() ==> picks(
                    distribute_data,
                    &model.meta,
                    which,
                    model.blocks@[i].of(which),
                    dist,
                    #[trigger] r@.blks[i].of(which),
                ),
            forall|i: int| #![trigger r@.blks[i]]
                0 <= i < model.blocks@.len() ==> {
                    &&& picks(
                        distribute_data,
                        &model.meta,
                        LlamaBlkWeight::AttnNorm,
                        model.blocks@[i].attn_norm,
                        dist,
                        r@.blks[i].attn_norm,
                    )
                    &&& picks(
                        distribute_data,
                        &model.meta,
                        LlamaBlkWeight::AttnQKV,
                        model.blocks@[i].attn_qkv,
                        dist,
                        r@.blks[i].attn_qkv,
                    )
                    &&& picks(
                        distribute_data,
                        &model.meta,
                        LlamaBlkWeight::AttnQKVBias,
                        model.blocks@[i].attn_qkv_bias,
                        dist,
                        r@.blks[i].attn_qkv_bias,
                    )
                    &&& picks(
                        distribute_data,
                        &model.meta,
                        LlamaBlkWeight::AttnO,
                        model.blocks@[i].attn_o,
                        dist,
                        r@.blks[i].attn_o,
                    )
                    &&& picks(
                        distribute_data,
                        &model.meta,
                        LlamaBlkWeight::FfnNorm,
                        model.blocks@[i].ffn_norm,
                        dist,
                        r@.blks[i].ffn_norm,
                    )
                    &&& picks(
                        distribute_data,
                        &model.meta,
                        LlamaBlkWeight::FfnGateInp,
                        model.blocks@[i].ffn_gate_inp,
                        dist,
                        r@.blks[i].ffn_gate_inp,
                    )
                    &&& picks(
                        distribute_data,
                        &model.meta,
                        LlamaBlkWeight::FfnGateUp,
                        model.blocks@[i].ffn_gate_up,
                        dist,
                        r@.blks[i].ffn_gate_up,
                    )
                    &&& picks(
                        distribute_data,
                        &model.meta,
                        LlamaBlkWeight::FfnDown,
                        model.blocks@[i].ffn_down,
                        dist,
                        r@.blks[i].ffn_down,
                    )
                },
            r@.output_norm == model.output_norm@,
            r@.output == model.output@,
            r@.dt_embd == model.meta.dt_embd,
            r@.dt_mat == model.meta.dt_linear,
            r@.nexp == model.meta.nexp,
    {
        let mut blks: Vec<LlamaBlkStorage<Contiguous<'w>>> = Vec::new();
        let mut i: usize = 0;
        while i < model.blocks.len()
            invariant
                i <= model.blocks@.len(),
                blks@.len() == i,
                forall|i: int, which: LlamaBlkWeight|
                    0 <= i < model.blocks@.len() ==> call_requires(
                        distribute_data,
                        (&model.meta, which, #[trigger] model.blocks@[i].of(which), dist),
                    ),
                forall|j: int, which: LlamaBlkWeight|
                    0 <= j < i ==> call_ensures(
                        distribute_data,
                        (&model.meta, which, model.blocks@[j].of(which), dist),
                        #[trigger] blks@[j].of(which),
                    ),
            decreases model.blocks@.len() - i,
        {
            let blk: &LlamaBlkStorage<&'w [u8]> = &model.blocks[i];
            proof {
                assert(model.blocks@[i as int].of(LlamaBlkWeight::AttnNorm) == blk.attn_norm);
                assert(model.blocks@[i as int].of(LlamaBlkWeight::AttnQKV) == blk.attn_qkv);
                assert(model.blocks@[i as int].of(LlamaBlkWeight::AttnQKVBias) == blk.attn_qkv_bias);
                assert(model.blocks@[i as int].of(LlamaBlkWeight::AttnO) == blk.attn_o);
                assert(model.blocks@[i as int].of(LlamaBlkWeight::FfnNorm) == blk.ffn_norm);
                assert(model.blocks@[i as int].of(LlamaBlkWeight::FfnGateInp) == blk.ffn_gate_inp);
                assert(model.blocks@[i as int].of(LlamaBlkWeight::FfnGateUp) == blk.ffn_gate_up);
                assert(model.blocks@[i as int].of(LlamaBlkWeight::FfnDown) == blk.ffn_down);
            }
            let picked: LlamaBlkStorage<Contiguous<'w>> = LlamaBlkStorage {
                attn_norm: distribute_data(&model.meta, LlamaBlkWeight::AttnNorm, blk.attn_norm, dist),
                attn_qkv: distribute_data(&model.meta, LlamaBlkWeight::AttnQKV, blk.attn_qkv, dist),
                attn_qkv_bias: distribute_data(&model.meta, LlamaBlkWeight::AttnQKVBias, blk.attn_qkv_bias, dist),
                attn_o: distribute_data(&model.meta, LlamaBlkWeight::AttnO, blk.attn_o, dist),
                ffn_norm: distribute_data(&model.meta, LlamaBlkWeight::FfnNorm, blk.ffn_norm, dist),
                ffn_gate_inp: distribute_data(&model.meta, LlamaBlkWeight::FfnGateInp, blk.ffn_gate_inp, dist),
                ffn_gate_up: distribute_data(&model.meta, LlamaBlkWeight::FfnGateUp, blk.ffn_gate_up, dist),
                ffn_down: distribute_data(&model.meta, LlamaBlkWeight::FfnDown, blk.ffn_down, dist),
            };
            assert forall|which: LlamaBlkWeight|
                call_ensures(
                    distribute_data,
                    (&model.meta, which, model.blocks@[i as int].of(which), dist),
                    #[trigger] picked.of(which),
                ) by {
                match which {
                    LlamaBlkWeight::AttnNorm => {},
                    LlamaBlkWeight::AttnQKV => {},
                    LlamaBlkWeight::AttnQKVBias => {},
                    LlamaBlkWeight::AttnO => {},
                    LlamaBlkWeight::FfnNorm => {},
                    LlamaBlkWeight::FfnGateInp => {},
                    LlamaBlkWeight::FfnGateUp => {},
                    LlamaBlkWeight::FfnDown => {},
                }
            }
            blks.push(picked);
            i = i + 1;
        }
        let meta: LlamaMeta = model.meta.distribute(dist);
        let r: Weights<'w> = Weights {
            blks,
            output_norm: model.output_norm,
            output: model.output,
            dt_embd: meta.dt_embd,
            dt_mat: meta.dt_linear,
            nexp: meta.nexp,
        };
        assert forall|i: int, which: LlamaBlkWeight| 0 <= i < model.blocks@.len() implies picks(
                distribute_data,
                &model.meta,
                which,
                model.blocks@[i].of(which),
                dist,
                #[trigger] r@.blks[i].of(which),
            ) by {
            assert(r@.blks[i].of(which) == r.blks@[i].of(which)@);
        }
        assert forall|i: int| #![trigger r@.blks[i]] 0 <= i < model.blocks@.len() implies {
            &&& picks(
                distribute_data,
                &model.meta,
                LlamaBlkWeight::AttnNorm,
                model.blocks@[i].attn_norm,
                dist,
                r@.blks[i].attn_norm,
            )
            &&& picks(
                distribute_data,
                &model.meta,
                LlamaBlkWeight::AttnQKV,
                model.blocks@[i].attn_qkv,
                dist,
                r@.blks[i].attn_qkv,
            )
            &&& picks(
                distribute_data,
                &model.meta,
                LlamaBlkWeight::AttnQKVBias,
                model.blocks@[i].attn_qkv_bias,
                dist,
                r@.blks[i].attn_qkv_bias,
            )
            &&& picks(
                distribute_data,
                &model.meta,
                LlamaBlkWeight::AttnO,
                model.blocks@[i].attn_o,
                dist,
                r@.blks[i].attn_o,
            )
            &&& picks(
                distribute_data,
                &model.meta,
                LlamaBlkWeight::FfnNorm,
                model.blocks@[i].ffn_norm,
                dist,
                r@.blks[i].ffn_norm,
            )
            &&& picks(
                distribute_data,
                &model.meta,
                LlamaBlkWeight::FfnGateInp,
                model.blocks@[i].ffn_gate_inp,
                dist,
                r@.blks[i].ffn_gate_inp,
            )
            &&& picks(
                distribute_data,
                &model.meta,
                LlamaBlkWeight::FfnGateUp,
                model.blocks@[i].ffn_gate_up,
                dist,
                r@.blks[i].ffn_gate_up,
            )
            &&& picks(
                distribute_data,
                &model.meta,
                LlamaBlkWeight::FfnDown,
                model.blocks@[i].ffn_down,
                dist,
                r@.blks[i].ffn_down,
            )
        } by {
            assert(r@.blks[i].of(LlamaBlkWeight::AttnNorm) == r@.blks[i].attn_norm);
            assert(r@.blks[i].of(LlamaBlkWeight::AttnQKV) == r@.blks[i].attn_qkv);
            assert(r@.blks[i].of(LlamaBlkWeight::AttnQKVBias) == r@.blks[i].attn_qkv_bias);
            assert(r@.blks[i].of(LlamaBlkWeight::AttnO) == r@.blks[i].attn_o);
            assert(r@.blks[i].of(LlamaBlkWeight::FfnNorm) == r@.blks[i].ffn_norm);
            assert(r@.blks[i].of(LlamaBlkWeight::FfnGateInp) == r@.blks[i].ffn_gate_inp);
            assert(r@.blks[i].of(LlamaBlkWeight::FfnGateUp) == r@.blks[i].ffn_gate_up);
            assert(r@.blks[i].of(LlamaBlkWeight::FfnDown) == r@.blks[i].ffn_down);
        }
        r
    }

    /// One kind of weight of a block.
    pub fn load_blk(&self, which: LlamaBlkWeight, iblk: usize) -> (r: Contiguous<'_>)
        requires
            iblk < self@.blks.len(),
        ensures
            r is Borrowed,
            r@ == self@.blks[iblk as int].of(which),
            which is AttnNorm ==> r@ == self@.blks[iblk as int].attn_norm,
            which is AttnQKV ==> r@ == self@.blks[iblk as int].attn_qkv,
            which is AttnQKVBias ==> r@ == self@.blks[iblk as int].attn_qkv_bias,
            which is AttnO ==> r@ == self@.blks[iblk as int].attn_o,
            which is FfnNorm ==> r@ == self@.blks[iblk as int].ffn_norm,
            which is FfnGateInp ==> r@ == self@.blks[iblk as int].ffn_gate_inp,
            which is FfnGateUp ==> r@ == self@.blks[iblk as int].ffn_gate_up,
            which is FfnDown ==> r@ == self@.blks[iblk as int].ffn_down,
    {
        let blk: &LlamaBlkStorage<Contiguous<'w>> = &self.blks[iblk];
        let weight: &Contiguous<'w> = match which {
            LlamaBlkWeight::AttnNorm => &blk.attn_norm,
            LlamaBlkWeight::AttnQKV => &blk.attn_qkv,
            LlamaBlkWeight::AttnQKVBias => &blk.attn_qkv_bias,
            LlamaBlkWeight::AttnO => &blk.attn_o,
            LlamaBlkWeight::FfnNorm => &blk.ffn_norm,
            LlamaBlkWeight::FfnGateInp => &blk.ffn_gate_inp,
            LlamaBlkWeight::FfnGateUp => &blk.ffn_gate_up,
            LlamaBlkWeight::FfnDown => &blk.ffn_down,
        };
        Contiguous::Borrowed(weight.as_slice())
    }

    /// The part of a feed-forward weight that belongs to one expert. This is for weights
    /// that are stored in the type of the embeddings.
    pub fn load_moe(&self, which: LlamaBlkWeight, iblk: usize, iexp: usize) -> (r: Contiguous<'_>)
        requires
            self@.dt_embd == self@.dt_mat,
            which is FfnGateUp || which is FfnDown,
            iblk < self@.blks.len(),
            self@.nexp > 0,
            ({
                let len: nat = self@.blks[iblk as int].of(which).len();
                iexp * expert_len(len, self@.nexp) + expert_len(len, self@.nexp) <= len
            }),
        ensures
            r is Borrowed,
            r@ == expert_bytes(self@.blks[iblk as int].of(which), self@.nexp, iexp as int),
            which is FfnGateUp ==> r@.len() == self@.blks[iblk as int].ffn_gate_up.len() as int
                / self@.nexp as int,
            which is FfnGateUp ==> forall|k: int|
                0 <= k < r@.len() ==> #[trigger] r@[k] == self@.blks[iblk as int].ffn_gate_up[iexp
                    * r@.len() + k],
            which is FfnDown ==> r@.len() == self@.blks[iblk as int].ffn_down.len() as int
                / self@.nexp as int,
            which is FfnDown ==> forall|k: int|
                0 <= k < r@.len() ==> #[trigger] r@[k] == self@.blks[iblk as int].ffn_down[iexp
                    * r@.len() + k],
    {
        let blk: &LlamaBlkStorage<Contiguous<'w>> = &self.blks[iblk];
        let w: &[u8] = match which {
            LlamaBlkWeight::FfnGateUp => blk.ffn_gate_up.as_slice(),
            _ => blk.ffn_down.as_slice(),
        };
        let one: usize = w.len() / self.nexp;
        let start: usize = iexp * one;
        Contiguous::Borrowed(&w[start..start + one])
    }

    /// The weights of the last normalisation.
    pub fn output_norm(&self) -> (r: Contiguous<'_>)
        ensures
            r is Borrowed,
            r@ == self@.output_norm,
    {
        Contiguous::Borrowed(self.output_norm)
    }

    /// The projection to the vocabulary.
    pub fn output(&self) -> (r: Contiguous<'_>)
        ensures
            r is Borrowed,
            r@ == self@.output,
    {
        Contiguous::Borrowed(self.output)
    }
}

/// The operators of a worker that runs on the processor, as node `N` of a topology, with
/// `R` to sum up results over all nodes.
pub struct Operators<N, R>(PhantomData<(N, R)>);

impl<N, R> Operators<N, R> {
    /// Copies bytes out of the memory that operators work in.
    pub fn memcpy_d2h(dst: &mut [u8], src: &[u8])
        requires
            old(dst)@.len() == src@.len(),
        ensures
            final(dst)@ == src@,
    {
        let mut i: usize = 0;
        while i < src.len()
            invariant
                i <= src@.len(),
                dst@.len() == src@.len(),
                forall|k: int| 0 <= k < i ==> #[trigger] dst@[k] == src@[k],
            decreases src@.len() - i,
        {
            dst[i] = src[i];
            i = i + 1;
        }
        assert(dst@ =~= src@);
    }
}

} // verus!
