//! What an operator that rearranges elements is told of where they are stored.

use crate::laws::address::{address, steps};
use crate::layout::zip_dims;
use crate::rearrange::{RearrangeArgs, TensorLayout};
use crate::tensor::TensorModel;
use vstd::prelude::*;

verus! {

/// From the offset that an operator is told, every position is as many bytes away, by the
/// strides that it is told, as the tensor stores it. An offset below zero is told wrapped
/// around.
pub proof fn law_operator_finds_elements<T, U>(
    args: RearrangeArgs,
    dst: TensorModel<T>,
    src: TensorModel<U>,
    at: Seq<int>,
    from: Seq<int>,
)
    requires
        args.describes(dst, src),
        at.len() == dst.layout.dims.len(),
        from.len() == src.layout.dims.len(),
    ensures
        args.dst_offset + steps(zip_dims(args.dst_layout.shape@, args.dst_layout.strides@), at)
            == address(dst.layout, at) + (if dst.layout.offset < 0 {
            usize::MAX + 1
        } else {
            0
        }),
        args.src_offset + steps(zip_dims(args.src_layout.shape@, args.src_layout.strides@), from)
            == address(src.layout, from) + (if src.layout.offset < 0 {
            usize::MAX + 1
        } else {
            0
        }),
{
    assert(zip_dims(args.dst_layout.shape@, args.dst_layout.strides@) =~= dst.layout.dims);
    assert(zip_dims(args.src_layout.shape@, args.src_layout.strides@) =~= src.layout.dims);
}

/// An operator is told as many dimensions as a tensor has, with as many entries each, and how
/// to read an element.
pub proof fn law_operator_knows_the_shape<T>(told: TensorLayout, t: TensorModel<T>)
    requires
        told.describes(t),
    ensures
        told.dt == t.dt,
        zip_dims(told.shape@, told.strides@) == t.layout.dims,
{
    assert(zip_dims(told.shape@, told.strides@) =~= t.layout.dims);
}

/// What an operator is told leaves nothing open but how it is held: two descriptions of the
/// same tensors agree.
pub proof fn law_operator_is_told_everything<T, U>(
    a: RearrangeArgs,
    b: RearrangeArgs,
    dst: TensorModel<T>,
    src: TensorModel<U>,
)
    requires
        a.describes(dst, src),
        b.describes(dst, src),
    ensures
        a.dst_offset == b.dst_offset,
        a.src_offset == b.src_offset,
        a.dst_layout.dt == b.dst_layout.dt,
        a.src_layout.dt == b.src_layout.dt,
        a.dst_layout.shape@ == b.dst_layout.shape@,
        a.src_layout.shape@ == b.src_layout.shape@,
        a.dst_layout.strides@ == b.dst_layout.strides@,
        a.src_layout.strides@ == b.src_layout.strides@,
{
    lemma_told_alike(a.dst_layout, b.dst_layout, dst);
    lemma_told_alike(a.src_layout, b.src_layout, src);
}

/// Two descriptions of one tensor have the same shape and strides.
proof fn lemma_told_alike<T>(a: TensorLayout, b: TensorLayout, t: TensorModel<T>)
    requires
        a.describes(t),
        b.describes(t),
    ensures
        a.shape@ == b.shape@,
        a.strides@ == b.strides@,
{
    assert forall|i: int| 0 <= i < t.layout.dims.len() implies a.shape@[i] == b.shape@[i]
        && a.strides@[i] == b.strides@[i] by {
        assert(a.shape@[i] == t.layout.dims[i].extent);
    }
    assert(a.shape@ =~= b.shape@);
    assert(a.strides@ =~= b.strides@);
}

} // verus!
