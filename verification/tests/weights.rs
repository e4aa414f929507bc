//! The weights of a worker, and copying between tensors.

use llama_tensor::digit::{DigitLayout, LayoutContent};
use llama_tensor::meta::{Distribution, LlamaMeta};
use llama_tensor::rearrange::{rearrange, RearrangeArgs};
use llama_tensor::storage::{LlamaBlkStorage, LlamaBlkWeight, LlamaStorage};
use llama_tensor::tensor::Tensor;
use llama_tensor::weights::{Contiguous, Operators, Weights};

const U8: DigitLayout = DigitLayout {
    content: LayoutContent::Unsigned { width: 8 },
    group: 1,
    size: 1,
};

const KINDS: [LlamaBlkWeight; 8] = [
    LlamaBlkWeight::AttnNorm,
    LlamaBlkWeight::AttnQKV,
    LlamaBlkWeight::AttnQKVBias,
    LlamaBlkWeight::AttnO,
    LlamaBlkWeight::FfnNorm,
    LlamaBlkWeight::FfnGateInp,
    LlamaBlkWeight::FfnGateUp,
    LlamaBlkWeight::FfnDown,
];

fn meta() -> LlamaMeta {
    LlamaMeta {
        dt_embd: U8,
        dt_norm: U8,
        dt_linear: U8,
        attn_qkv_bias: true,
        nblk: 2,
        nctx: 16,
        nvoc: 10,
        nh: 4,
        nkvh: 2,
        nexp: 3,
        nexp_use: 1,
        d: 8,
        dh: 2,
        di: 4,
        epsilon_bits: 0,
        theta_bits: 0,
    }
}

fn block(data: &[u8]) -> LlamaBlkStorage<&[u8]> {
    LlamaBlkStorage {
        attn_norm: &data[0..1],
        attn_qkv: &data[1..3],
        attn_qkv_bias: &data[3..6],
        attn_o: &data[6..7],
        ffn_norm: &data[7..9],
        ffn_gate_inp: &data[9..10],
        ffn_gate_up: &data[10..16],
        ffn_down: &data[16..25],
    }
}

const RANGES: [(usize, usize); 8] =
    [(0, 1), (1, 3), (3, 6), (6, 7), (7, 9), (9, 10), (10, 16), (16, 25)];

fn whole<'w>(
    _: &LlamaMeta,
    _: LlamaBlkWeight,
    data: &'w [u8],
    _: Distribution,
) -> Contiguous<'w> {
    Contiguous::Borrowed(data)
}

#[test]
fn load_blk_gives_back_what_is_stored() {
    let a: Vec<u8> = (0..25).collect();
    let b: Vec<u8> = (100..125).collect();
    let model = LlamaStorage {
        meta: meta(),
        output_norm: &a[..3],
        output: &b[..4],
        blocks: vec![block(&a), block(&b)],
    };
    let w = Weights::new(&model, Distribution { start: 0, len: 1, total: 1 }, whole);
    for (which, (from, to)) in KINDS.into_iter().zip(RANGES) {
        assert_eq!(w.load_blk(which, 0).as_slice(), &a[from..to]);
        assert_eq!(w.load_blk(which, 1).as_slice(), &b[from..to]);
    }
    assert!(matches!(w.load_blk(LlamaBlkWeight::AttnO, 0), Contiguous::Borrowed(_)));
    assert_eq!(w.output_norm().as_slice(), &[0, 1, 2]);
    assert_eq!(w.output().as_slice(), &[100, 101, 102, 103]);
}

#[test]
fn new_hands_every_weight_to_the_distribution() {
    let a: Vec<u8> = (0..25).collect();
    let model = LlamaStorage {
        meta: meta(),
        output_norm: &a[..3],
        output: &a[..4],
        blocks: vec![block(&a)],
    };
    let dist = Distribution { start: 1, len: 1, total: 2 };
    let w = Weights::new(&model, dist, |meta, which, data, dist| {
        // The parameters are those of the whole model.
        assert_eq!(meta.nh, 4);
        assert_eq!(dist.info(), [1, 1, 2]);
        let kind = KINDS.iter().position(|k| *k == which).unwrap() as u8;
        Contiguous::Owned(vec![kind, data.len() as u8])
    });
    for (i, (which, (from, to))) in KINDS.into_iter().zip(RANGES).enumerate() {
        assert_eq!(w.load_blk(which, 0).as_slice(), &[i as u8, (to - from) as u8]);
    }
}

#[test]
fn experts_make_up_a_weight() {
    let a: Vec<u8> = (0..25).collect();
    let model = LlamaStorage {
        meta: meta(),
        output_norm: &a[..3],
        output: &a[..4],
        blocks: vec![block(&a)],
    };
    let w = Weights::new(&model, Distribution { start: 0, len: 1, total: 1 }, whole);
    let mut up = vec![];
    let mut down = vec![];
    for i in 0..3 {
        up.extend_from_slice(w.load_moe(LlamaBlkWeight::FfnGateUp, 0, i).as_slice());
        down.extend_from_slice(w.load_moe(LlamaBlkWeight::FfnDown, 0, i).as_slice());
    }
    assert_eq!(w.load_moe(LlamaBlkWeight::FfnGateUp, 0, 1).as_slice(), &[12, 13]);
    assert_eq!(w.load_moe(LlamaBlkWeight::FfnDown, 0, 2).as_slice(), &[22, 23, 24]);
    assert_eq!(up, &a[10..16]);
    assert_eq!(down, &a[16..25]);
}

#[test]
fn memcpy_copies_all_bytes() {
    let mut dst = [0u8; 4];
    Operators::<(), ()>::memcpy_d2h(&mut dst, &[1, 2, 3, 4]);
    assert_eq!(dst, [1, 2, 3, 4]);
}

#[test]
fn rearrange_hands_over_layouts_and_storage() {
    let mut dst = Tensor::new(U8, &[3, 2]).map(|n| vec![0u8; n]);
    let data = [9u8, 1, 2, 3, 4, 5, 6];
    let src = Tensor::new(U8, &[2, 3]).transpose(&[1, 0]).map(|_| &data[1..]);
    let done: Result<(), ()> =
        rearrange(&mut dst, &src, |args: &RearrangeArgs, to: &mut [u8], from: &[u8]| {
            assert_eq!(args.dst_layout.dt, U8);
            assert_eq!(args.dst_layout.shape, &[3, 2]);
            assert_eq!(args.dst_layout.strides, &[2, 1]);
            assert_eq!(args.dst_offset, 0);
            assert_eq!(args.src_layout.shape, &[3, 2]);
            assert_eq!(args.src_layout.strides, &[1, 3]);
            assert_eq!(args.src_offset, 0);
            for i in 0..3 {
                for j in 0..2 {
                    let d = args.dst_offset as isize
                        + i as isize * args.dst_layout.strides[0]
                        + j as isize * args.dst_layout.strides[1];
                    let s = args.src_offset as isize
                        + i as isize * args.src_layout.strides[0]
                        + j as isize * args.src_layout.strides[1];
                    to[d as usize] = from[s as usize];
                }
            }
            Ok(())
        });
    assert_eq!(done, Ok(()));
    assert_eq!(dst.shape(), &[3, 2]);
    assert_eq!(dst.take(), vec![1, 4, 2, 5, 3, 6]);
}

#[test]
fn rearrange_returns_what_the_operator_says() {
    let mut dst = Tensor::new(U8, &[2]).map(|n| vec![7u8; n]);
    let data = [1u8; 6];
    let src = Tensor::new(U8, &[2, 3]).map(|_| &data[..]).index(0, 1);
    let failed = rearrange(&mut dst, &src, |args: &RearrangeArgs, _: &mut [u8], _: &[u8]| {
        Err::<(), usize>(args.src_offset)
    });
    assert_eq!(failed, Err(3));
    assert_eq!(dst.take(), vec![7, 7]);
}
