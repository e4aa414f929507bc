//! New tensors, their parts, opened array types and casts.

use ggus::ggml_quants::digit_layout;
use llama_tensor::digit::{DigitLayout, LayoutContent};
use llama_tensor::tensor::Tensor;

fn layout(dt: digit_layout::DigitLayout) -> DigitLayout {
    DigitLayout {
        content: match dt.decode() {
            digit_layout::LayoutContent::Unsigned { width } => LayoutContent::Unsigned { width },
            digit_layout::LayoutContent::Real { exponent, mantissa } => {
                LayoutContent::Real { exponent, mantissa }
            }
            digit_layout::LayoutContent::Named { name } => LayoutContent::Named { name },
        },
        group: dt.group_size() as u16,
        size: dt.nbytes() as u16,
    }
}

fn f32_() -> DigitLayout {
    layout(digit_layout::types::F32)
}

fn f16_() -> DigitLayout {
    layout(digit_layout::types::F16)
}

fn q8_0() -> DigitLayout {
    layout(digit_layout::DigitLayout::named("Q8_0", 32, 34))
}

#[test]
fn digit_layout_is_read() {
    let dt = f32_();
    assert_eq!(dt.group_size(), 1);
    assert_eq!(dt.nbytes(), 4);
    assert_eq!(dt.decode(), LayoutContent::Real { exponent: 8, mantissa: 23 });
    let dt = q8_0();
    assert_eq!(dt.group_size(), 32);
    assert_eq!(dt.nbytes(), 34);
    assert_eq!(dt.decode(), LayoutContent::Named { name: *b"q80\0\0\0\0\0" });
}

#[test]
fn new_tensor_is_contiguous() {
    let t = Tensor::new(f32_(), &[2, 3, 4]);
    assert_eq!(t.dt(), f32_());
    assert_eq!(t.shape(), &[2, 3, 4]);
    assert_eq!(t.strides(), &[48, 16, 4]);
    assert_eq!(t.offset(), 0);
    assert_eq!(*t.get(), 96);
    assert!(t.is_contiguous());
    assert!(t.is_dense());
    assert_eq!(t.get_contiguous_bytes(), Some(96));
    assert_eq!(t.take(), 96);
}

#[test]
fn new_tensor_of_no_dimensions_has_one_element() {
    let t = Tensor::new(f16_(), &[]);
    assert!(t.shape().is_empty());
    assert!(t.strides().is_empty());
    assert_eq!(t.take(), 2);
}

#[test]
fn new_tensor_without_entries_takes_nothing() {
    let t = Tensor::new(f32_(), &[3, 0, 5]);
    assert_eq!(t.strides(), &[0, 20, 4]);
    assert_eq!(t.take(), 0);
}

#[test]
fn new_tensor_of_many_dimensions() {
    let t = Tensor::new(layout(digit_layout::types::U8), &[2, 2, 2, 2, 2, 2, 2]);
    assert_eq!(t.strides(), &[64, 32, 16, 8, 4, 2, 1]);
    assert_eq!(t.take(), 128);
}

#[test]
fn packed_elements_are_counted_by_group() {
    // 2 * 64 * 34 / 32
    let t = Tensor::new(q8_0(), &[2, 64]);
    assert_eq!(t.strides(), &[2176, 34]);
    assert_eq!(t.take(), 136);
}

#[test]
fn one_entry_in_several_dimensions_is_not_dense() {
    let t = Tensor::new(f32_(), &[1, 1]);
    assert!(t.is_contiguous());
    assert!(!t.is_dense());
    assert_eq!(t.get_contiguous_bytes(), Some(4));
    assert!(Tensor::new(f32_(), &[1]).is_dense());
}

#[test]
fn array_of_unsigned_is_opened() {
    let dt = layout(digit_layout::DigitLayout::unsigned(32, 4));
    let t = Tensor::new(dt, &[2, 3]).destruct_array();
    assert_eq!(t.dt(), layout(digit_layout::types::U32));
    assert_eq!(t.shape(), &[2, 3, 4]);
    assert_eq!(t.strides(), &[48, 16, 4]);
    assert_eq!(t.offset(), 0);
    // 2 * 3 * 16 / 4
    assert_eq!(t.take(), 24);
}

#[test]
fn array_of_real_is_opened() {
    let dt = layout(digit_layout::DigitLayout::real(5, 10, 2));
    let t = Tensor::new(dt, &[5]).destruct_array();
    assert_eq!(t.dt(), f16_());
    assert_eq!(t.shape(), &[5, 2]);
    assert_eq!(t.strides(), &[4, 2]);
}

#[test]
fn opening_keeps_the_offset() {
    let dt = layout(digit_layout::DigitLayout::unsigned(8, 8));
    let t = Tensor::new(dt, &[4, 3]).index(0, 2).destruct_array();
    assert_eq!(t.shape(), &[3, 8]);
    assert_eq!(t.strides(), &[8, 1]);
    assert_eq!(t.offset(), 48);
}

#[test]
fn wide_exponents_are_decoded_by_their_low_bits() {
    let dt = DigitLayout {
        content: LayoutContent::Real { exponent: 300, mantissa: 211 },
        group: 2,
        size: 128,
    };
    let t = Tensor::new(dt, &[1]).destruct_array();
    assert_eq!(t.dt().content, LayoutContent::Real { exponent: 44, mantissa: 211 });
    assert_eq!(t.dt().group, 1);
    assert_eq!(t.dt().size, 64);
}

#[test]
fn named_and_single_types_are_not_opened() {
    let t = Tensor::new(q8_0(), &[2, 64]).destruct_array();
    assert_eq!(t.dt(), q8_0());
    assert_eq!(t.shape(), &[2, 64]);
    let t = Tensor::new(f32_(), &[2, 64]).destruct_array();
    assert_eq!(t.dt(), f32_());
    assert_eq!(t.shape(), &[2, 64]);
}

#[test]
fn opening_twice_is_opening_once() {
    let dt = layout(digit_layout::DigitLayout::unsigned(16, 8));
    let once = Tensor::new(dt, &[2, 3]).destruct_array();
    let twice = once.clone().destruct_array();
    assert_eq!(once.dt(), twice.dt());
    assert_eq!(once.shape(), twice.shape());
    assert_eq!(once.strides(), twice.strides());
}

#[test]
fn cast_scales_strides_and_bytes() {
    let t = Tensor::new(f32_(), &[2, 3, 4]).cast(f16_());
    assert_eq!(t.dt(), f16_());
    assert_eq!(t.shape(), &[2, 3, 4]);
    assert_eq!(t.strides(), &[24, 8, 2]);
    assert_eq!(t.offset(), 0);
    assert_eq!(t.take(), 48);
}

#[test]
fn cast_takes_dimensions_in_any_order() {
    let t = Tensor::new(f16_(), &[2, 3, 4]).transpose(&[2, 0, 1]);
    assert!(!t.is_dense());
    let t = t.cast(f32_());
    assert_eq!(t.shape(), &[4, 2, 3]);
    assert_eq!(t.strides(), &[4, 48, 16]);
    assert_eq!(t.take(), 96);
}

#[test]
fn cast_takes_backward_strides_and_drops_the_offset() {
    let t = Tensor::new(f32_(), &[5]).slice(0, 4, -1, 5);
    assert_eq!(t.offset(), 16);
    assert_eq!(t.strides(), &[-4]);
    let t = t.cast(f16_());
    assert_eq!(t.strides(), &[-2]);
    assert_eq!(t.offset(), 0);
    assert_eq!(t.take(), 10);
}

#[test]
fn cast_back_gives_the_same_tensor() {
    let t = Tensor::new(f32_(), &[2, 3, 4]).transpose(&[1, 0]);
    let back = t.cast(f16_()).cast(f32_());
    assert_eq!(back.dt(), t.dt());
    assert_eq!(back.shape(), t.shape());
    assert_eq!(back.strides(), t.strides());
    assert_eq!(back.take(), t.take());
}

#[test]
fn cast_of_new_is_new() {
    let cast = Tensor::new(f32_(), &[6, 7]).cast(f16_());
    let new = Tensor::new(f16_(), &[6, 7]);
    assert_eq!(cast.strides(), new.strides());
    assert_eq!(cast.take(), new.take());
}

#[test]
fn storage_is_reached() {
    let mut t = Tensor::new(f32_(), &[2]).map(|n| vec![0u8; n]);
    t.get_mut()[3] = 7;
    assert_eq!(t.get()[3], 7);
    assert_eq!(t.as_ref().take().len(), 8);
    t.as_mut().take()[4] = 9;
    assert_eq!(t.map_slice().take(), &[0, 0, 0, 7, 9, 0, 0, 0]);
    t.map_slice_mut().take()[0] = 1;
    assert_eq!(t.map_slice().shape(), &[2]);
    let copy = t.clone();
    assert_eq!(copy.shape(), t.shape());
    assert_eq!(copy.take(), vec![1, 0, 0, 7, 9, 0, 0, 0]);
}

#[test]
fn elements_of_new_lie_apart_and_inside() {
    let t = Tensor::new(f32_(), &[2, 3, 4]);
    let s = t.strides();
    let mut seen = vec![false; *t.get()];
    for i in 0..2 {
        for j in 0..3 {
            for k in 0..4 {
                let at = i * s[0] + j * s[1] + k * s[2];
                for byte in at..at + 4 {
                    assert!(!seen[byte as usize]);
                    seen[byte as usize] = true;
                }
            }
        }
    }
    assert!(seen.iter().all(|&b| b));
}

#[test]
fn dense_tensors_are_castable() {
    let t = Tensor::new(f32_(), &[5, 2, 1, 3]).index(0, 4);
    assert!(t.is_dense());
    let u = t.cast(f16_());
    assert_eq!(u.shape(), &[2, 1, 3]);
    assert_eq!(u.strides(), &[6, 6, 2]);
    assert_eq!(u.offset(), 0);
    assert!(u.is_dense());
    assert_eq!(u.take(), 12);
}
