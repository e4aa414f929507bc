//! The transformations that the `ndarray_layout` crate makes.
//!
//! Each function here hands shape, strides and offset to that crate, has it make one
//! transformation, and takes shape, strides and offset back. What is stated of the result
//! is trusted.

use super::{
    broadcast_allowed, contiguous_dims, contiguous_fits, index_allowed, indexed,
    merge_allowed, merge_any_order_allowed, merged, merged_any_order, part, repeated,
    slice_allowed, sliced, split_allowed, tile_allowed, tiled, transpose_allowed, transposed,
    ArrayLayout, LayoutModel,
};
use crate::product::widen;
use ndarray_layout::Endian;
use vstd::prelude::*;

verus! {

impl ArrayLayout {
    /// Calls `ndarray_layout::ArrayLayout::new_contiguous` in big-endian order. Trusted:
    /// the result has the given shape and no offset, its last dimension steps by `unit`
    /// bytes, and every other one steps over all that lies behind it.
    #[verifier::external_body]
    pub(crate) fn new_contiguous(shape: &[usize], unit: usize) -> (r: Self)
        requires
            contiguous_fits(widen(shape@), unit as nat),
        ensures
            r@ == (LayoutModel { dims: contiguous_dims(widen(shape@), unit as nat), offset: 0 }),
    {
        let l = ndarray_layout::ArrayLayout::<5>::new_contiguous(shape, Endian::BigEndian, unit);
        ArrayLayout { shape: l.shape().to_vec(), strides: l.strides().to_vec(), offset: l.offset() }
    }

    /// Calls `ndarray_layout::ArrayLayout::transpose`. Trusted: the axes listed in `perm`
    /// change places as `transposed` says; all others, and the offset, stay.
    #[verifier::external_body]
    pub(crate) fn transpose(&self, perm: &[usize]) -> (r: Self)
        requires
            transpose_allowed(self@.dims.len(), perm@),
        ensures
            r@ == (LayoutModel { dims: transposed(self@.dims, perm@), ..self@ }),
    {
        let l = ndarray_layout::ArrayLayout::<5>::new(&self.shape, &self.strides, self.offset);
        let l = l.transpose(perm);
        ArrayLayout { shape: l.shape().to_vec(), strides: l.strides().to_vec(), offset: l.offset() }
    }

    /// Calls `ndarray_layout::ArrayLayout::index`. Trusted: the axis goes, and the offset
    /// moves to position `index` of it.
    #[verifier::external_body]
    pub(crate) fn index(&self, axis: usize, index: usize) -> (r: Self)
        requires
            index_allowed(self@, axis as int, index as int),
        ensures
            r@ == indexed(self@, axis as int, index as int),
    {
        let l = ndarray_layout::ArrayLayout::<5>::new(&self.shape, &self.strides, self.offset);
        let l = l.index(axis, index);
        ArrayLayout { shape: l.shape().to_vec(), strides: l.strides().to_vec(), offset: l.offset() }
    }

    /// Calls `ndarray_layout::ArrayLayout::slice`. Trusted: the axis is cut as `sliced`
    /// says, also for steps of zero and below, and an axis that is not there changes
    /// nothing.
    #[verifier::external_body]
    pub(crate) fn slice(&self, axis: usize, start: usize, step: isize, len: usize) -> (r: Self)
        requires
            slice_allowed(self@, axis as int, start as int, step as int),
        ensures
            r@ == sliced(self@, axis as int, start as int, step as int, len as nat),
    {
        let l = ndarray_layout::ArrayLayout::<5>::new(&self.shape, &self.strides, self.offset);
        let l = l.slice(axis, start, step, len);
        ArrayLayout { shape: l.shape().to_vec(), strides: l.strides().to_vec(), offset: l.offset() }
    }

    /// Calls `ndarray_layout::ArrayLayout::tile_be`. Trusted: the axis gives way to one
    /// dimension per tile, the largest first; all others, and the offset, stay.
    #[verifier::external_body]
    pub(crate) fn tile_be(&self, axis: usize, tiles: &[usize]) -> (r: Self)
        requires
            tile_allowed(self@.dims, axis as int, widen(tiles@)),
        ensures
            r@ == (LayoutModel { dims: tiled(self@.dims, axis as int, widen(tiles@)), ..self@ }),
    {
        let l = ndarray_layout::ArrayLayout::<5>::new(&self.shape, &self.strides, self.offset);
        let l = l.tile_be(axis, tiles);
        ArrayLayout { shape: l.shape().to_vec(), strides: l.strides().to_vec(), offset: l.offset() }
    }

    /// Calls `ndarray_layout::ArrayLayout::broadcast`. Trusted: the axis gets `times`
    /// entries and stands still; all others, and the offset, stay.
    #[verifier::external_body]
    pub(crate) fn broadcast(&self, axis: usize, times: usize) -> (r: Self)
        requires
            broadcast_allowed(self@.dims, axis as int),
        ensures
            r@ == (LayoutModel { dims: repeated(self@.dims, axis as int, times as nat), ..self@ }),
    {
        let l = ndarray_layout::ArrayLayout::<5>::new(&self.shape, &self.strides, self.offset);
        let l = l.broadcast(axis, times);
        ArrayLayout { shape: l.shape().to_vec(), strides: l.strides().to_vec(), offset: l.offset() }
    }

    /// Calls `ndarray_layout::ArrayLayout::merge_be`. Trusted: it succeeds exactly where
    /// the dimensions, but for those with one entry, are row-major, and then has one
    /// dimension in their place; all others, and the offset, stay.
    #[verifier::external_body]
    pub(crate) fn merge_be(&self, start: usize, len: usize) -> (r: Option<Self>)
        requires
            merge_allowed(self@, start as int, len as int),
        ensures
            match r {
                Some(l) => merged(self@, start as int, len as int) == Some(l@),
                None => merged(self@, start as int, len as int) is None,
            },
    {
        let l = ndarray_layout::ArrayLayout::<5>::new(&self.shape, &self.strides, self.offset);
        let l = l.merge_be(start, len)?;
        Some(ArrayLayout { shape: l.shape().to_vec(), strides: l.strides().to_vec(), offset: l.offset() })
    }

    /// Calls `ndarray_layout::ArrayLayout::merge_free`. Trusted: it succeeds exactly where
    /// the dimensions, but for those with one entry, are row-major in some order, and then
    /// has one dimension in their place; all others, and the offset, stay.
    #[verifier::external_body]
    pub(crate) fn merge_free(&self, start: usize, len: usize) -> (r: Option<Self>)
        requires
            merge_any_order_allowed(self@, start as int, len as int),
        ensures
            match r {
                Some(l) => merged_any_order(self@, start as int, len as int) == Some(l@),
                None => merged_any_order(self@, start as int, len as int) is None,
            },
    {
        let l = ndarray_layout::ArrayLayout::<5>::new(&self.shape, &self.strides, self.offset);
        let l = l.merge_free(start, len)?;
        Some(ArrayLayout { shape: l.shape().to_vec(), strides: l.strides().to_vec(), offset: l.offset() })
    }

    /// Calls `ndarray_layout::ArrayLayout::split` and collects what it hands out. Trusted:
    /// there is one layout per part, in order; each keeps all but the axis, which has the
    /// part's length and begins where the part before it ended.
    #[verifier::external_body]
    pub(crate) fn split(&self, axis: usize, parts: &[usize]) -> (r: Vec<Self>)
        requires
            split_allowed(self@, axis as int, widen(parts@)),
        ensures
            r@.len() == parts@.len(),
            forall|k: int|
                0 <= k < r@.len() ==> (#[trigger] r@[k])@ == part(
                    self@,
                    axis as int,
                    widen(parts@),
                    k,
                ),
    {
        let l = ndarray_layout::ArrayLayout::<5>::new(&self.shape, &self.strides, self.offset);
        l.split(axis, parts).map(
            |l| ArrayLayout { shape: l.shape().to_vec(), strides: l.strides().to_vec(), offset: l.offset() },
        ).collect()
    }
}

} // verus!
