//! Transformations of layouts.

use llama_tensor::digit::{DigitLayout, LayoutContent};
use llama_tensor::tensor::{Splitable, Tensor};
use std::rc::Rc;

const U8: DigitLayout = DigitLayout {
    content: LayoutContent::Unsigned { width: 8 },
    group: 1,
    size: 1,
};

const F32: DigitLayout = DigitLayout {
    content: LayoutContent::Real { exponent: 8, mantissa: 23 },
    group: 1,
    size: 4,
};

#[derive(Clone)]
struct Shared(Rc<Vec<u8>>);

impl Splitable for Shared {
    fn split(&self) -> Self {
        Shared(self.0.clone())
    }
}

fn address<T>(t: &Tensor<T>, at: &[usize]) -> isize {
    assert_eq!(at.len(), t.shape().len());
    at.iter().zip(t.strides()).map(|(&i, &s)| i as isize * s).sum::<isize>() + t.offset() as isize
}

#[test]
fn transpose_of_all_axes() {
    let t = Tensor::new(U8, &[2, 3, 4]).transpose(&[2, 0, 1]);
    assert_eq!(t.shape(), &[4, 2, 3]);
    assert_eq!(t.strides(), &[1, 12, 4]);
}

#[test]
fn transpose_of_some_axes() {
    let t = Tensor::new(U8, &[2, 3, 4]).transpose(&[2, 0]);
    assert_eq!(t.shape(), &[4, 3, 2]);
    assert_eq!(t.strides(), &[1, 4, 12]);
    let t = Tensor::new(U8, &[2, 3, 4]).transpose(&[]);
    assert_eq!(t.shape(), &[2, 3, 4]);
    let t = Tensor::new(U8, &[2, 3, 4]).transpose(&[1, 2]);
    assert_eq!(t.shape(), &[2, 3, 4]);
}

#[test]
fn transpose_back() {
    let t = Tensor::new(U8, &[2, 3, 4]).transpose(&[2, 0, 1]).transpose(&[1, 2, 0]);
    assert_eq!(t.shape(), &[2, 3, 4]);
    assert_eq!(t.strides(), &[12, 4, 1]);
}

#[test]
fn transpose_keeps_addresses() {
    let t = Tensor::new(F32, &[2, 3, 4]);
    let u = t.clone().transpose(&[2, 0, 1]);
    for i in 0..2 {
        for j in 0..3 {
            for k in 0..4 {
                assert_eq!(address(&t, &[i, j, k]), address(&u, &[k, i, j]));
            }
        }
    }
}

#[test]
fn transpose_of_some_axes_keeps_addresses() {
    let t = Tensor::new(U8, &[2, 3, 4]);
    let u = t.clone().transpose(&[2, 0]);
    for i in 0..2 {
        for j in 0..3 {
            for k in 0..4 {
                assert_eq!(address(&t, &[i, j, k]), address(&u, &[k, j, i]));
            }
        }
    }
    assert_eq!(u.transpose(&[2, 0]).strides(), t.strides());
}

#[test]
fn index_picks_an_entry() {
    let t = Tensor::new(U8, &[2, 3, 4]);
    let u = t.clone().index(1, 2);
    assert_eq!(u.shape(), &[2, 4]);
    assert_eq!(u.strides(), &[12, 1]);
    assert_eq!(u.offset(), 8);
    assert_eq!(address(&u, &[1, 3]), address(&t, &[1, 2, 3]));
}

#[test]
fn slice_forward_with_a_step() {
    let t = Tensor::new(U8, &[10, 2]).slice(0, 1, 3, 100);
    assert_eq!(t.shape(), &[3, 2]);
    assert_eq!(t.strides(), &[6, 1]);
    assert_eq!(t.offset(), 2);
    let t = Tensor::new(U8, &[10, 2]).slice(0, 1, 3, 2);
    assert_eq!(t.shape(), &[2, 2]);
}

#[test]
fn slice_backward() {
    let t = Tensor::new(U8, &[2, 3, 4]).slice(1, 2, -1, 2);
    assert_eq!(t.shape(), &[2, 2, 4]);
    assert_eq!(t.strides(), &[12, -4, 1]);
    assert_eq!(t.offset(), 8);
    let t = Tensor::new(U8, &[5]).slice(0, 100, -2, 100);
    assert_eq!(t.shape(), &[3]);
    assert_eq!(t.strides(), &[-2]);
    assert_eq!(t.offset(), 4);
}

#[test]
fn slice_standing_still() {
    let t = Tensor::new(U8, &[5]).slice(0, 3, 0, 7);
    assert_eq!(t.shape(), &[7]);
    assert_eq!(t.strides(), &[0]);
    assert_eq!(t.offset(), 3);
}

#[test]
fn slice_of_no_axis_changes_nothing() {
    let t = Tensor::new(U8, &[5, 6]).slice(2, 9, 1, 1);
    assert_eq!(t.shape(), &[5, 6]);
    assert_eq!(t.strides(), &[6, 1]);
    assert_eq!(t.offset(), 0);
}

#[test]
fn slice_keeps_addresses() {
    let t = Tensor::new(F32, &[10]);
    let u = t.clone().slice(0, 8, -3, 10);
    assert_eq!(u.shape(), &[3]);
    for i in 0..3 {
        assert_eq!(address(&u, &[i]), address(&t, &[8 - 3 * i]));
    }
}

#[test]
fn tile_splits_an_axis() {
    let t = Tensor::new(U8, &[2, 3, 6]).tile(2, &[2, 3]);
    assert_eq!(t.shape(), &[2, 3, 2, 3]);
    assert_eq!(t.strides(), &[18, 6, 3, 1]);
    let t = Tensor::new(U8, &[2, 1]).tile(1, &[]);
    assert_eq!(t.shape(), &[2]);
}

#[test]
fn tile_keeps_addresses() {
    let t = Tensor::new(F32, &[2, 6]);
    let u = t.clone().tile(1, &[2, 3]);
    for i in 0..2 {
        for j in 0..2 {
            for k in 0..3 {
                assert_eq!(address(&u, &[i, j, k]), address(&t, &[i, 3 * j + k]));
            }
        }
    }
}

#[test]
fn merge_undoes_tile() {
    let t = Tensor::new(F32, &[4, 30, 2]).tile(1, &[5, 1, 2, 3]).merge(1..5).unwrap();
    assert_eq!(t.shape(), &[4, 30, 2]);
    assert_eq!(t.strides(), &[240, 8, 4]);
}

#[test]
fn broadcast_repeats_an_entry() {
    let t = Tensor::new(U8, &[1, 5, 2]).broadcast(0, 10);
    assert_eq!(t.shape(), &[10, 5, 2]);
    assert_eq!(t.strides(), &[0, 2, 1]);
    assert_eq!(address(&t, &[7, 3, 1]), 7);
    let t = t.broadcast(0, 3);
    assert_eq!(t.shape(), &[3, 5, 2]);
}

#[test]
fn merge_fuses_row_major_axes() {
    let t = Tensor::new(U8, &[2, 3, 4, 5]).merge(1..3).unwrap();
    assert_eq!(t.shape(), &[2, 12, 5]);
    assert_eq!(t.strides(), &[60, 5, 1]);
    assert_eq!(t.take(), 120);
}

#[test]
fn merge_skips_single_entries() {
    let t = Tensor::new(U8, &[16, 1, 4]).slice(1, 0, 100, 1).merge(0..2).unwrap();
    assert_eq!(t.shape(), &[16, 4]);
    assert_eq!(t.strides(), &[4, 1]);
    let t = Tensor::new(U8, &[1, 1, 3]).merge(0..2).unwrap();
    assert_eq!(t.shape(), &[1, 3]);
    assert_eq!(t.strides(), &[0, 1]);
}

#[test]
fn merge_needs_row_major_axes() {
    assert!(Tensor::new(U8, &[2, 3]).transpose(&[1, 0]).merge(0..2).is_none());
    assert!(Tensor::new(U8, &[4, 6]).slice(1, 0, 1, 3).merge(0..2).is_none());
}

#[test]
fn merge_of_fewer_than_two_axes_changes_nothing() {
    for range in [0..0, 1..2, 2..2, 7..7, 9..3] {
        let t = Tensor::new(U8, &[2, 3, 4]).merge(range).unwrap();
        assert_eq!(t.shape(), &[2, 3, 4]);
        assert_eq!(t.strides(), &[12, 4, 1]);
    }
}

#[test]
fn merge_keeps_addresses_and_elements() {
    let t = Tensor::new(F32, &[2, 3, 4]);
    let u = t.clone().merge(1..3).unwrap();
    assert_eq!(u.shape()[1], 12);
    for i in 0..2 {
        for j in 0..3 {
            for k in 0..4 {
                assert_eq!(address(&t, &[i, j, k]), address(&u, &[i, 4 * j + k]));
            }
        }
    }
}

#[test]
fn contiguity_and_density() {
    let t = Tensor::new(F32, &[2, 3, 4]);
    assert!(t.is_contiguous() && t.is_dense());
    let t = t.transpose(&[1, 0]);
    assert!(!t.is_contiguous());
    assert!(!t.is_dense());
    assert_eq!(t.get_contiguous_bytes(), None);
    // Every other element: row-major, but with gaps.
    let t = Tensor::new(F32, &[6]).slice(0, 0, 2, 3);
    assert!(t.is_contiguous());
    assert!(!t.is_dense());
    assert_eq!(t.get_contiguous_bytes(), Some(12));
    // Backward.
    let t = Tensor::new(F32, &[6]).slice(0, 5, -1, 6);
    assert!(t.is_dense());
}

#[test]
fn neighbours_across_a_single_entry() {
    // [2, 1, 3] with gaps between the rows: each pair of neighbours merges, all three do not.
    let t = Tensor::new(F32, &[2, 1, 4]).slice(2, 0, 1, 3);
    assert!(t.is_contiguous());
    assert_eq!(t.get_contiguous_bytes(), None);
}

#[test]
fn split_cuts_an_axis() {
    let t = Tensor::new(U8, &[2, 3, 4]).map(|n| Shared(Rc::new(vec![5; n])));
    let parts = t.split(2, &[1, 3]);
    assert_eq!(parts.len(), 2);
    assert_eq!(parts[0].shape(), &[2, 3, 1]);
    assert_eq!(parts[0].strides(), &[12, 4, 1]);
    assert_eq!(parts[0].offset(), 0);
    assert_eq!(parts[1].shape(), &[2, 3, 3]);
    assert_eq!(parts[1].offset(), 1);
    assert!(Rc::ptr_eq(&t.get().0, &parts[1].get().0));
}

#[test]
fn split_may_have_empty_parts() {
    let t = Tensor::new(U8, &[4, 2]).map(|n| Shared(Rc::new(vec![0; n])));
    let parts = t.split(0, &[1, 0, 3]);
    assert_eq!(parts[1].shape(), &[0, 2]);
    assert_eq!(parts[1].offset(), 2);
    assert_eq!(parts[2].shape(), &[3, 2]);
    assert_eq!(parts[2].offset(), 2);
}

#[test]
fn split_covers_every_entry_once() {
    let t = Tensor::new(F32, &[7]).map(|n| Shared(Rc::new(vec![0; n])));
    let mut seen = vec![];
    for part in t.split(0, &[2, 4, 1]) {
        for i in 0..part.shape()[0] {
            seen.push(address(&part, &[i]));
        }
    }
    assert_eq!(seen, (0..7).map(|i| address(&t, &[i])).collect::<Vec<_>>());
}
