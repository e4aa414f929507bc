//! The sizes and shapes that follow from the parameters of a model.

use llama_tensor::digit::{DigitLayout, LayoutContent};
use llama_tensor::meta::{Distribution, LlamaMeta, TensorUsage};

const F32: DigitLayout = DigitLayout {
    content: LayoutContent::Real { exponent: 8, mantissa: 23 },
    group: 1,
    size: 4,
};

const F16: DigitLayout = DigitLayout {
    content: LayoutContent::Real { exponent: 5, mantissa: 10 },
    group: 1,
    size: 2,
};

const Q8_0: DigitLayout = DigitLayout {
    content: LayoutContent::Named { name: *b"q80\0\0\0\0\0" },
    group: 32,
    size: 34,
};

fn meta() -> LlamaMeta {
    LlamaMeta {
        dt_embd: F16,
        dt_norm: F32,
        dt_linear: F16,
        attn_qkv_bias: false,
        nblk: 3,
        nctx: 128,
        nvoc: 100,
        nh: 8,
        nkvh: 4,
        nexp: 0,
        nexp_use: 0,
        d: 64,
        dh: 8,
        di: 160,
        epsilon_bits: 1e-5f32.to_bits(),
        theta_bits: 1e4f32.to_bits(),
    }
}

#[test]
fn distribution_tells_its_slots() {
    assert_eq!(Distribution { start: 1, len: 2, total: 4 }.info(), [1, 2, 4]);
}

#[test]
fn distribute_gives_a_share() {
    let m = meta().distribute(Distribution { start: 1, len: 3, total: 4 });
    assert_eq!((m.nh, m.nkvh, m.di), (6, 3, 120));
    assert_eq!((m.d, m.dh, m.nblk, m.nvoc, m.nctx), (64, 8, 3, 100, 128));
    assert_eq!(f32::from_bits(m.epsilon_bits), 1e-5);
    assert_eq!(f32::from_bits(m.theta_bits), 1e4);
    assert_eq!(m.dt_norm, F32);
}

#[test]
fn distribute_rounds_heads_down() {
    let mut m = meta();
    m.nh = 7;
    let m = m.distribute(Distribution { start: 0, len: 2, total: 2 });
    assert_eq!(m.nh, 6);
}

#[test]
fn distribute_of_all_slots_is_the_whole() {
    let m = meta().distribute(Distribution { start: 0, len: 4, total: 4 });
    assert_eq!((m.nh, m.nkvh, m.di), (8, 4, 160));
}

#[test]
fn distributed_shares_add_up() {
    let a = meta().distribute(Distribution { start: 0, len: 1, total: 4 });
    let b = meta().distribute(Distribution { start: 1, len: 3, total: 4 });
    assert_eq!((a.nh + b.nh, a.nkvh + b.nkvh, a.di + b.di), (8, 4, 160));
    let rows = |m: &LlamaMeta| m.attn_qkv(TensorUsage::Storage).shape()[0];
    assert_eq!(4 * rows(&a), rows(&meta()));
    assert_eq!(4 * rows(&b), 3 * rows(&meta()));
}

#[test]
fn experts_make_a_mixture() {
    let mut m = meta();
    assert!(!m.is_moe());
    m.nexp = 8;
    assert!(m.is_moe());
}

#[test]
fn blk_sizes() {
    let mut m = meta();
    let b = m.blk();
    assert_eq!(b.attn_norm, 64 * 4);
    assert_eq!(b.attn_qkv, (8 + 4 + 4) * 8 * 64 * 2);
    assert_eq!(b.attn_qkv_bias, 0);
    assert_eq!(b.attn_o, 64 * 64 * 2);
    assert_eq!(b.ffn_norm, 64 * 4);
    assert_eq!(b.ffn_gate_inp, 0);
    assert_eq!(b.ffn_gate_up, 320 * 64 * 2);
    assert_eq!(b.ffn_down, 64 * 160 * 2);
    m.attn_qkv_bias = true;
    m.nexp = 5;
    let b = m.blk();
    assert_eq!(b.attn_qkv_bias, 128 * 2);
    assert_eq!(b.ffn_gate_inp, 5 * 64 * 2);
    assert_eq!(b.ffn_gate_up, 5 * 320 * 64 * 2);
    assert_eq!(b.ffn_down, 5 * 64 * 160 * 2);
}

#[test]
fn packed_weights_are_stored_by_group() {
    let mut m = meta();
    m.dt_linear = Q8_0;
    let t = m.attn_qkv(TensorUsage::Storage);
    assert_eq!(t.dt(), Q8_0);
    assert_eq!(t.shape(), &[128, 2]);
    assert_eq!(t.strides(), &[68, 34]);
    // 128 * 2 * 34 / 32
    assert_eq!(t.take(), 272);
    let t = m.attn_qkv_bias(TensorUsage::Storage);
    assert_eq!(t.shape(), &[128, 0]);
    assert_eq!(t.take(), 0);
}

#[test]
fn weights_are_transposed_for_computation() {
    let m = meta();
    let t = m.attn_qkv(TensorUsage::Computation);
    assert_eq!(t.shape(), &[64, 128]);
    assert_eq!(t.strides(), &[2, 128]);
    assert_eq!(t.take(), 128 * 64 * 2);
    let t = m.attn_o(TensorUsage::Computation);
    assert_eq!(t.shape(), &[64, 64]);
    let t = m.ffn_gate_up(TensorUsage::Computation);
    assert_eq!(t.shape(), &[64, 320]);
    let t = m.ffn_down(TensorUsage::Computation);
    assert_eq!(t.shape(), &[160, 64]);
    assert_eq!(t.strides(), &[2, 320]);
    let t = m.attn_qkv_bias(TensorUsage::Computation);
    assert_eq!(t.shape(), &[1, 128]);
    let mut m = meta();
    m.nexp = 3;
    assert_eq!(m.ffn_gate_inp(TensorUsage::Computation).shape(), &[64, 3]);
}

#[test]
fn computation_is_in_the_type_of_the_embeddings() {
    let mut m = meta();
    m.dt_embd = F32;
    assert_eq!(m.dt_linear, F16);
    m.nexp = 3;
    for of in [
        LlamaMeta::attn_qkv,
        LlamaMeta::attn_qkv_bias,
        LlamaMeta::attn_o,
        LlamaMeta::ffn_gate_inp,
        LlamaMeta::ffn_gate_up,
        LlamaMeta::ffn_down,
    ] {
        assert_eq!(of(&m, TensorUsage::Storage).dt(), F16);
        assert_eq!(of(&m, TensorUsage::Computation).dt(), F32);
    }
    let t = m.ffn_down(TensorUsage::Computation);
    assert_eq!(t.shape(), &[160, 64]);
    assert_eq!(t.strides(), &[4, 640]);
    assert_eq!(t.take(), 64 * 160 * 4);
}

#[test]
fn packed_weights_are_unpacked_for_computation() {
    let mut m = meta();
    m.dt_linear = Q8_0;
    let t = m.attn_qkv(TensorUsage::Computation);
    assert_eq!(t.dt(), F16);
    assert_eq!(t.shape(), &[64, 128]);
    assert_eq!(t.strides(), &[2, 128]);
    assert_eq!(t.take(), 128 * 64 * 2);
}

#[test]
fn storage_holds_all_experts_and_computation_one() {
    let mut m = meta();
    for (nexp, held) in [(0, 1), (1, 1), (5, 5)] {
        m.nexp = nexp;
        assert_eq!(
            m.ffn_gate_up(TensorUsage::Storage).take(),
            held * m.ffn_gate_up(TensorUsage::Computation).take()
        );
        assert_eq!(
            m.ffn_down(TensorUsage::Storage).take(),
            held * m.ffn_down(TensorUsage::Computation).take()
        );
    }
}

#[test]
fn feed_forward_storage_holds_all_experts() {
    let mut m = meta();
    assert_eq!(m.ffn_gate_up(TensorUsage::Storage).shape(), &[1, 320, 64]);
    m.nexp = 5;
    let t = m.ffn_gate_up(TensorUsage::Storage);
    assert_eq!(t.shape(), &[5, 320, 64]);
    assert_eq!(t.strides(), &[40960, 128, 2]);
    assert_eq!(m.ffn_down(TensorUsage::Storage).shape(), &[5, 64, 160]);
    let one = m.ffn_gate_up(TensorUsage::Computation).take();
    assert_eq!(t.take() / 5, one);
}

#[test]
fn activations() {
    let m = meta();
    let t = m.embd(7);
    assert_eq!(t.shape(), &[7, 64]);
    assert_eq!(t.strides(), &[128, 2]);
    assert_eq!(t.take(), 7 * 64 * 2);
    let t = m.logits(7);
    assert_eq!(t.shape(), &[7, 100]);
    assert_eq!(t.take(), 1400);
    let t = m.norm();
    assert_eq!(t.dt(), F32);
    assert_eq!(t.shape(), &[64]);
    assert_eq!(t.take(), 256);
    let t = m.token_embd();
    assert_eq!(t.shape(), &[100, 64]);
    let t = m.output();
    assert_eq!(t.shape(), &[64, 100]);
    assert_eq!(t.strides(), &[2, 128]);
    assert_eq!(t.take(), 12800);
}

#[test]
fn kv_cache_shape_and_size() {
    let t = meta().kv_cache(10);
    assert_eq!(t.shape(), &[10, 3, 2, 4, 8]);
    assert_eq!(t.strides(), &[384, 128, 64, 16, 2]);
    assert_eq!(t.take(), 3840);
}

#[test]
fn kv_cache_fits_a_size() {
    let m = meta();
    let t = m.kv_cache_in_size(1000, 4000);
    assert_eq!(t.shape()[0], 10);
    assert!(t.take() <= 4000);
    assert!(m.kv_cache(11).take() > 4000);
    assert_eq!(m.kv_cache_in_size(4, 4000).shape()[0], 4);
    assert_eq!(m.kv_cache_in_size(4, 383).shape()[0], 0);
}
