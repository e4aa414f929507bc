//! Copying the elements of one tensor into the layout of another.

use crate::digit::DigitLayout;
use crate::laws::address::{address, steps};
use crate::layout::zip_dims;
use crate::tensor::{wrapped, Tensor, TensorModel};
use std::ops::DerefMut;
use vstd::prelude::*;

verus! {

/// What an operator is told of a tensor: its element type, shape and strides.
pub struct TensorLayout {
    pub dt: DigitLayout,
    pub shape: Vec<usize>,
    pub strides: Vec<isize>,
}

impl TensorLayout {
    /// Whether this tells the element type, shape and strides of a tensor.
    pub open spec fn describes<T>(self, t: TensorModel<T>) -> bool {
        &&& self.dt == t.dt
        &&& self.shape@.len() == t.layout.dims.len()
        &&& self.strides@.len() == t.layout.dims.len()
        &&& forall|i: int|
            0 <= i < t.layout.dims.len() ==> {
                &&& self.shape@[i] == (#[trigger] t.layout.dims[i]).extent
                &&& self.strides@[i] == t.layout.dims[i].stride
            }
    }
}

/// What the operator that rearranges elements is told: both tensors, and where in their
/// storage they begin.
pub struct RearrangeArgs {
    pub dst_layout: TensorLayout,
    pub dst_offset: usize,
    pub src_layout: TensorLayout,
    pub src_offset: usize,
}

impl RearrangeArgs {
    /// Whether this tells of copying `src` to `dst`.
    pub open spec fn describes<T, U>(self, dst: TensorModel<T>, src: TensorModel<U>) -> bool {
        &&& self.dst_layout.describes(dst)
        &&& self.dst_offset == wrapped(dst.layout.offset)
        &&& self.src_layout.describes(src)
        &&& self.src_offset == wrapped(src.layout.offset)
    }
}

/// What an operator is told of a tensor.
fn layout_of<T>(t: &Tensor<T>) -> (r: TensorLayout)
    ensures
        r.describes(t@),
{
    let mut shape: Vec<usize> = Vec::new();
    shape.extend_from_slice(t.shape());
    let mut strides: Vec<isize> = Vec::new();
    strides.extend_from_slice(t.strides());
    TensorLayout { dt: t.dt(), shape, strides }
}

/// Has `launch` copy the elements of `src` to `dst`. It is handed both layouts with the
/// storage of each, and its outcome is returned.
pub fn rearrange<
    T: DerefMut<Target = [u8]>,
    E,
    F: FnOnce(&RearrangeArgs, &mut [u8], &[u8]) -> Result<(), E>,
>(dst: &mut Tensor<T>, src: &Tensor<&[u8]>, launch: F) -> (r: Result<(), E>)
    requires
        forall|args: &RearrangeArgs, storage: &mut T, bytes: &mut [u8]|
            {
                &&& args.describes(old(dst)@, src@)
                &&& *storage == old(dst)@.physical
                &&& #[trigger] call_ensures(T::deref_mut, (storage,), bytes)
            } ==> #[trigger] call_requires(launch, (args, bytes, src@.physical)),
    ensures
        final(dst)@.dt == old(dst)@.dt,
        final(dst)@.layout == old(dst)@.layout,
        exists|args: &RearrangeArgs, storage: &mut T, bytes: &mut [u8]|
            {
                &&& args.describes(old(dst)@, src@)
                &&& *storage == old(dst)@.physical
                &&& *final(storage) == final(dst)@.physical
                &&& call_ensures(T::deref_mut, (storage,), bytes)
                &&& call_ensures(launch, (args, bytes, src@.physical), r)
                &&& args.dst_layout.dt == old(dst)@.dt
                &&& zip_dims(args.dst_layout.shape@, args.dst_layout.strides@)
                    == old(dst)@.layout.dims
                &&& forall|at: Seq<int>|
                    at.len() == old(dst)@.layout.dims.len() && old(dst)@.layout.offset >= 0
                        ==> #[trigger] address(old(dst)@.layout, at) == args.dst_offset + steps(
                        zip_dims(args.dst_layout.shape@, args.dst_layout.strides@),
                        at,
                    )
                &&& forall|at: Seq<int>|
                    at.len() == old(dst)@.layout.dims.len() && old(dst)@.layout.offset < 0
                        ==> #[trigger] address(old(dst)@.layout, at) + usize::MAX + 1
                        == args.dst_offset + steps(
                        zip_dims(args.dst_layout.shape@, args.dst_layout.strides@),
                        at,
                    )
                &&& args.src_layout.dt == src@.dt
                &&& zip_dims(args.src_layout.shape@, args.src_layout.strides@)
                    == src@.layout.dims
                &&& forall|at: Seq<int>|
                    at.len() == src@.layout.dims.len() && src@.layout.offset >= 0
                        ==> #[trigger] address(src@.layout, at) == args.src_offset + steps(
                        zip_dims(args.src_layout.shape@, args.src_layout.strides@),
                        at,
                    )
                &&& forall|at: Seq<int>|
                    at.len() == src@.layout.dims.len() && src@.layout.offset < 0
                        ==> #[trigger] address(src@.layout, at) + usize::MAX + 1
                        == args.src_offset + steps(
                        zip_dims(args.src_layout.shape@, args.src_layout.strides@),
                        at,
                    )
            },
{
    let args: RearrangeArgs = RearrangeArgs {
        dst_layout: layout_of(dst),
        dst_offset: dst.offset(),
        src_layout: layout_of(src),
        src_offset: src.offset(),
    };
    proof {
        assert(zip_dims(args.dst_layout.shape@, args.dst_layout.strides@) =~= dst@.layout.dims);
        assert(zip_dims(args.src_layout.shape@, args.src_layout.strides@) =~= src@.layout.dims);
    }
    let target: Tensor<&mut [u8]> = dst.map_slice_mut();
    launch(&args, target.take(), *src.get())
}

} // verus!
