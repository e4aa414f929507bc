//! Tensors: an element type, a layout, and what stores the elements.

use crate::digit::{storable_exponent, storable_width, DigitLayout, LayoutContent};
use crate::laws::address::law_slice_is_longest;
use crate::laws::merging::{law_merge_volume, law_row_volume};
use crate::laws::tensors::law_cast_bytes;
use crate::laws::transposing::law_transpose_permutes;
use crate::layout::{
    broadcast_allowed, contiguous_dims, contiguous_fits, distance, extents, in_isize,
    index_allowed, indexed, merge_allowed, merge_any_order_allowed, merged, merged_any_order,
    part, repeated, slice_allowed, sliced, split_allowed, tile_allowed, tiled,
    transpose_allowed, transposed, ArrayLayout, Dim, LayoutModel,
};
use crate::product::{product, product_of, sum, widen};
use std::ops::{Deref, DerefMut, Range};
use vstd::prelude::*;

verus! {

/// What a tensor says: its element type, its layout, and what stores the elements.
#[verifier::ext_equal]
pub struct TensorModel<T> {
    pub dt: DigitLayout,
    pub layout: LayoutModel,
    pub physical: T,
}

/// A tensor. `T` is what stores its elements; for a tensor that is only planned it is the
/// number of bytes that storing them takes.
pub struct Tensor<T> {
    dt: DigitLayout,
    layout: ArrayLayout,
    physical: T,
}

impl<T> View for Tensor<T> {
    type V = TensorModel<T>;

    closed spec fn view(&self) -> TensorModel<T> {
        TensorModel { dt: self.dt, layout: self.layout@, physical: self.physical }
    }
}

/// What a new tensor asks of its element type and shape: elements pack something, and the
/// strides and the size in bytes can be computed.
pub open spec fn new_allowed(dt: DigitLayout, shape: Seq<nat>) -> bool {
    &&& dt.group > 0
    &&& contiguous_fits(shape, dt.size as nat)
    &&& forall|k: int|
        0 <= k <= shape.len() ==> #[trigger] product(shape.take(k)) <= usize::MAX
    &&& product(shape) * dt.size <= usize::MAX
}

/// The number of bytes that a new tensor takes.
pub open spec fn new_bytes(dt: DigitLayout, shape: Seq<nat>) -> int {
    product(shape) * dt.size / dt.group as int
}

/// A new tensor: contiguous, without an offset, stored in as many bytes as it takes.
pub open spec fn new_tensor(dt: DigitLayout, shape: Seq<nat>) -> TensorModel<usize> {
    TensorModel {
        dt,
        layout: LayoutModel { dims: contiguous_dims(shape, dt.size as nat), offset: 0 },
        physical: new_bytes(dt, shape) as usize,
    }
}

impl Tensor<usize> {
    /// Plans a contiguous tensor.
    pub fn new(dt: DigitLayout, shape: &[usize]) -> (r: Self)
        requires
            new_allowed(dt, widen(shape@)),
        ensures
            r@ == new_tensor(dt, widen(shape@)),
            r@.physical == new_bytes(dt, widen(shape@)),
            r@.dt == dt,
            r@.layout.offset == 0,
            r@.layout.dims.len() == shape@.len(),
            forall|i: int|
                0 <= i < shape@.len() ==> {
                    &&& (#[trigger] r@.layout.dims[i]).extent == shape@[i]
                    &&& r@.layout.dims[i].stride == dt.size * product(widen(shape@).skip(i + 1))
                },
            r@.physical * dt.group <= product(widen(shape@)) * dt.size,
            product(widen(shape@)) * dt.size < (r@.physical + 1) * dt.group,
    {
        let ele: usize = dt.nbytes();
        let total: usize = product_of(shape);
        proof {
            let bytes: int = product(widen(shape@)) * dt.size;
            let (g, q): (int, int) = (dt.group as int, bytes / (dt.group as int));
            vstd::arithmetic::div_mod::lemma_fundamental_div_mod(bytes, g);
            vstd::arithmetic::div_mod::lemma_mod_bound(bytes, g);
            assert(q * g == g * q && (q + 1) * g == g * q + g) by (nonlinear_arith);
        }
        Tensor {
            dt,
            layout: ArrayLayout::new_contiguous(shape, ele),
            physical: total * ele / dt.group_size(),
        }
    }
}

/// What one of the numbers that an element packs is, on its own.
pub open spec fn single(dt: DigitLayout) -> DigitLayout {
    match dt.content {
        LayoutContent::Unsigned { width } => DigitLayout {
            content: dt.content,
            group: 1,
            size: (width / 8) as u16,
        },
        LayoutContent::Real { exponent, mantissa } => DigitLayout {
            content: LayoutContent::Real { exponent: (exponent % 256) as u32, mantissa },
            group: 1,
            size: ((1 + exponent + mantissa) / 8) as u16,
        },
        LayoutContent::Named { .. } => dt,
    }
}

/// Whether an element is an array of plain numbers.
pub open spec fn is_array(dt: DigitLayout) -> bool {
    dt.group > 1 && !(dt.content is Named)
}

/// What opening an array type asks of it: its numbers have a type of their own.
pub open spec fn openable(dt: DigitLayout) -> bool {
    is_array(dt) ==> match dt.content {
        LayoutContent::Unsigned { width } => storable_width(width as int),
        LayoutContent::Real { exponent, mantissa } => {
            &&& storable_width(1 + exponent + mantissa)
            &&& storable_exponent(exponent as int)
        },
        LayoutContent::Named { .. } => true,
    }
}

/// The tensor of the numbers that the elements pack, in a dimension of their own. A tensor
/// whose elements are no arrays stays as it is.
pub open spec fn opened<T>(t: TensorModel<T>) -> TensorModel<T> {
    if is_array(t.dt) {
        TensorModel {
            dt: single(t.dt),
            layout: LayoutModel {
                dims: t.layout.dims.push(
                    Dim { extent: t.dt.group as nat, stride: single(t.dt).size as int },
                ),
                ..t.layout
            },
            physical: t.physical,
        }
    } else {
        t
    }
}

/// The single dimension that a layout with entries in sequence amounts to, in any order.
pub open spec fn dense_dim(layout: LayoutModel) -> Option<Dim> {
    match merged_any_order(layout, 0, layout.dims.len() as int) {
        Some(whole) => Some(whole.dims[0]),
        None => None,
    }
}

/// The dimensions with strides for elements of `to` bytes in place of `from` bytes.
pub open spec fn rescaled(dims: Seq<Dim>, from: int, to: int) -> Seq<Dim> {
    dims.map_values(|d: Dim| Dim { extent: d.extent, stride: d.stride / from * to })
}

/// What casting asks of a tensor: elements that pack equally many numbers, stored densely,
/// at strides that are multiples of the element's size, and sizes that fit.
pub open spec fn cast_allowed<T>(t: TensorModel<T>, target: DigitLayout) -> bool {
    &&& t.dt.group == target.group
    &&& t.dt.size > 0
    &&& t.layout.dims.len() > 0
    &&& merge_any_order_allowed(t.layout, 0, t.layout.dims.len() as int)
    &&& dense_dim(t.layout) matches Some(d) && {
        &&& distance(d) == t.dt.size
        &&& d.extent * target.size <= usize::MAX
    }
    &&& forall|i: int|
        0 <= i < t.layout.dims.len() ==> {
            &&& (#[trigger] t.layout.dims[i]).stride % (t.dt.size as int) == 0
            &&& in_isize(t.layout.dims[i].stride / (t.dt.size as int) * target.size)
        }
}

/// The plan for the same elements in another type.
pub open spec fn cast_tensor<T>(t: TensorModel<T>, target: DigitLayout) -> TensorModel<usize> {
    TensorModel {
        dt: target,
        layout: LayoutModel {
            dims: rescaled(t.layout.dims, t.dt.size as int, target.size as int),
            offset: 0,
        },
        physical: (dense_dim(t.layout)->Some_0.extent * target.size) as usize,
    }
}

/// Dividing a multiple is exact, whichever way the quotient is rounded.
proof fn lemma_exact_quotient(a: int, b: int)
    requires
        b > 0,
        a % b == 0,
    ensures
        -((-a) / b) == a / b,
{
    let q: int = a / b;
    assert(a == b * q) by {
        vstd::arithmetic::div_mod::lemma_fundamental_div_mod(a, b);
    }
    assert(-a == b * (-q)) by (nonlinear_arith)
        requires
            a == b * q,
    ;
    vstd::arithmetic::div_mod::lemma_div_multiples_vanish(-q, b);
}

impl<T> Tensor<T> {
    /// Opens array element types: the numbers that an element packs become a dimension.
    pub fn destruct_array(self) -> (r: Self)
        requires
            openable(self@.dt),
        ensures
            r@ == opened(self@),
            r@.physical == self@.physical,
            r@.layout.offset == self@.layout.offset,
            self@.dt.group <= 1 || self@.dt.content is Named ==> r@ == self@,
            self@.dt.group > 1 && !(self@.dt.content is Named) ==> {
                &&& r@.dt.group == 1
                &&& r@.layout.dims.len() == self@.layout.dims.len() + 1
                &&& r@.layout.dims.drop_last() == self@.layout.dims
                &&& r@.layout.dims.last().extent == self@.dt.group
                &&& r@.layout.dims.last().stride == r@.dt.size
            },
            self@.dt.group > 1 ==> match self@.dt.content {
                LayoutContent::Unsigned { width } => {
                    &&& r@.dt.content == self@.dt.content
                    &&& r@.dt.size == width / 8
                },
                LayoutContent::Real { exponent, mantissa } => {
                    &&& r@.dt.content is Real
                    &&& r@.dt.content->exponent == exponent % 256
                    &&& r@.dt.content->mantissa == mantissa
                    &&& r@.dt.size == (1 + exponent + mantissa) / 8
                },
                LayoutContent::Named { .. } => true,
            },
    {
        let len: usize = self.dt.group_size();
        if len <= 1 {
            return self;
        }
        let dt: DigitLayout = match self.dt.decode() {
            LayoutContent::Unsigned { width } => DigitLayout::new_unsigned(width as u16, 1),
            LayoutContent::Real { exponent, mantissa } => DigitLayout::new_real(
                exponent as u16,
                mantissa as u16,
                1,
            ),
            LayoutContent::Named { .. } => {
                return self;
            },
        };
        let mut shape: Vec<usize> = Vec::new();
        shape.extend_from_slice(self.layout.shape());
        shape.push(len);
        let mut strides: Vec<isize> = Vec::new();
        strides.extend_from_slice(self.layout.strides());
        strides.push(dt.nbytes() as isize);
        let offset: isize = self.layout.offset();
        let r: Tensor<T> = Tensor {
            dt,
            layout: ArrayLayout::new(shape, strides, offset),
            physical: self.physical,
        };
        assert(r@.dt == single(self@.dt));
        assert(r@.layout.dims =~= opened(self@).layout.dims);
        assert(r@.layout.dims.drop_last() =~= self@.layout.dims);
        r
    }

    /// Plans the same tensor with another element type. This is for element types that
    /// pack equally many numbers, and for tensors that are stored densely.
    pub fn cast(&self, target: DigitLayout) -> (r: Tensor<usize>)
        requires
            cast_allowed(self@, target),
        ensures
            r@ == cast_tensor(self@, target),
            r@.physical == dense_dim(self@.layout)->Some_0.extent * target.size,
            r@.dt == target,
            r@.layout.offset == 0,
            r@.layout.dims.len() == self@.layout.dims.len(),
            forall|i: int|
                0 <= i < self@.layout.dims.len() ==> {
                    &&& (#[trigger] r@.layout.dims[i]).extent == self@.layout.dims[i].extent
                    &&& r@.layout.dims[i].stride * self@.dt.size == self@.layout.dims[i].stride
                        * target.size
                },
            r@.physical == product(extents(self@.layout.dims)) * target.size,
    {
        let whole: ArrayLayout = self.layout.merge_free(0, self.layout.ndim()).unwrap();
        let d: usize = whole.shape()[0];

        let div: isize = self.dt.nbytes() as isize;
        let mul: isize = target.nbytes() as isize;

        let mut shape: Vec<usize> = Vec::new();
        shape.extend_from_slice(self.layout.shape());
        let old_strides: &[isize] = self.layout.strides();
        let mut strides: Vec<isize> = Vec::new();
        let mut i: usize = 0;
        while i < old_strides.len()
            invariant
                i <= old_strides@.len(),
                old_strides@.len() == self@.layout.dims.len(),
                div == self@.dt.size,
                mul == target.size,
                cast_allowed(self@, target),
                forall|k: int|
                    0 <= k < old_strides@.len() ==> #[trigger] old_strides@[k]
                        == self@.layout.dims[k].stride,
                strides@.len() == i,
                forall|k: int|
                    0 <= k < i ==> #[trigger] strides@[k] == self@.layout.dims[k].stride / (div as int)
                        * mul,
            decreases old_strides@.len() - i,
        {
            let s: isize = old_strides[i];
            proof {
                assert(self@.layout.dims[i as int].stride == s);
                lemma_exact_quotient(s as int, div as int);
            }
            let q: isize = s / div;
            assert(q == s as int / div as int);
            strides.push(q * mul);
            i = i + 1;
        }
        let r: Tensor<usize> = Tensor {
            dt: target,
            layout: ArrayLayout::new(shape, strides, 0),
            physical: d * mul as usize,
        };
        assert(r@.layout.dims =~= cast_tensor(self@, target).layout.dims);
        proof {
            law_cast_bytes(self@, target);
            assert forall|i: int| 0 <= i < self@.layout.dims.len() implies (
            #[trigger] r@.layout.dims[i]).stride * self@.dt.size == self@.layout.dims[i].stride
                * target.size by {
                let (s, f, m): (int, int, int) = (
                    self@.layout.dims[i].stride,
                    self@.dt.size as int,
                    target.size as int,
                );
                let q: int = s / f;
                assert(self@.layout.dims[i].stride % f == 0);
                vstd::arithmetic::div_mod::lemma_fundamental_div_mod(s, f);
                assert((q * m) * f == s * m) by (nonlinear_arith)
                    requires
                        s == f * q,
                ;
            }
        }
        r
    }
}

/// An offset as a `usize`: one below zero wraps around.
pub open spec fn wrapped(offset: int) -> int {
    if offset < 0 {
        offset + usize::MAX + 1
    } else {
        offset
    }
}

/// Whether every two neighbouring dimensions can be merged.
pub open spec fn neighbours_merge(layout: LayoutModel) -> bool {
    forall|i: int| 0 <= i < layout.dims.len() - 1 ==> #[trigger] merged(layout, i, 2) is Some
}

/// What looking for neighbours that do not merge asks of a layout: each pair up to the
/// first such one can be tried.
pub open spec fn neighbours_allowed(layout: LayoutModel) -> bool {
    forall|i: int|
        0 <= i < layout.dims.len() - 1 && (forall|j: int|
            0 <= j < i ==> #[trigger] merged(layout, j, 2) is Some) ==> #[trigger] merge_allowed(
            layout,
            i,
            2,
        )
}

/// The single dimension that a row-major layout amounts to.
pub open spec fn row_dim(layout: LayoutModel) -> Option<Dim> {
    match merged(layout, 0, layout.dims.len() as int) {
        Some(whole) => Some(whole.dims[0]),
        None => None,
    }
}

/// What merging all dimensions into one asks of a layout: there is one, and merging fits.
pub open spec fn row_allowed(layout: LayoutModel) -> bool {
    &&& layout.dims.len() > 0
    &&& merge_allowed(layout, 0, layout.dims.len() as int)
}

impl<T> Tensor<T> {
    /// The element type.
    pub fn dt(&self) -> (r: DigitLayout)
        ensures
            r == self@.dt,
    {
        self.dt
    }

    /// The extents of all dimensions.
    pub fn shape(&self) -> (r: &[usize])
        ensures
            widen(r@) == extents(self@.layout.dims),
            r@.len() == self@.layout.dims.len(),
            forall|i: int| 0 <= i < r@.len() ==> #[trigger] r@[i] == self@.layout.dims[i].extent,
    {
        self.layout.shape()
    }

    /// The strides of all dimensions, in bytes.
    pub fn strides(&self) -> (r: &[isize])
        ensures
            r@.len() == self@.layout.dims.len(),
            forall|i: int| 0 <= i < r@.len() ==> #[trigger] r@[i] == self@.layout.dims[i].stride,
    {
        self.layout.strides()
    }

    /// The offset of the first element, in bytes. One below zero wraps around.
    pub fn offset(&self) -> (r: usize)
        ensures
            r == wrapped(self@.layout.offset),
            self@.layout.offset >= 0 ==> r == self@.layout.offset,
            self@.layout.offset < 0 ==> r == self@.layout.offset + usize::MAX + 1,
    {
        let offset: isize = self.layout.offset();
        assert(usize::BITS == 32 && offset < 0 ==> offset as usize == offset + 0x1_0000_0000)
            by (bit_vector);
        assert(usize::BITS == 64 && offset < 0 ==> offset as usize == offset
            + 0x1_0000_0000_0000_0000) by (bit_vector);
        #[verifier::truncate]
        (offset as usize)
    }

    /// What stores the elements.
    pub fn take(self) -> (r: T)
        ensures
            r == self@.physical,
    {
        self.physical
    }

    /// What stores the elements.
    pub fn get(&self) -> (r: &T)
        ensures
            *r == self@.physical,
    {
        &self.physical
    }

    /// What stores the elements, to be changed. All else stays.
    pub fn get_mut(&mut self) -> (r: &mut T)
        ensures
            *r == old(self)@.physical,
            final(self)@ == (TensorModel { physical: *final(r), ..old(self)@ }),
    {
        &mut self.physical
    }

    /// The same tensor, by reference to what stores the elements.
    pub fn as_ref(&self) -> (r: Tensor<&T>)
        ensures
            r@ == (TensorModel {
                dt: self@.dt,
                layout: self@.layout,
                physical: &self@.physical,
            }),
    {
        Tensor { dt: self.dt, layout: self.layout.duplicate(), physical: &self.physical }
    }

    /// The same tensor, by reference to what stores the elements, to be changed. All else
    /// stays.
    pub fn as_mut(&mut self) -> (r: Tensor<&mut T>)
        ensures
            r@.dt == old(self)@.dt,
            r@.layout == old(self)@.layout,
            *r@.physical == old(self)@.physical,
            final(self)@ == (TensorModel { physical: *final(r@.physical), ..old(self)@ }),
    {
        Tensor { dt: self.dt, layout: self.layout.duplicate(), physical: &mut self.physical }
    }

    /// The same tensor, stored in what `f` makes of its storage.
    pub fn map<U>(self, f: impl FnOnce(T) -> U) -> (r: Tensor<U>)
        requires
            call_requires(f, (self@.physical,)),
        ensures
            r@.dt == self@.dt,
            r@.layout == self@.layout,
            call_ensures(f, (self@.physical,), r@.physical),
    {
        Tensor { dt: self.dt, layout: self.layout, physical: f(self.physical) }
    }

    /// Whether the tensor is contiguous: any two neighbouring dimensions can be merged.
    pub fn is_contiguous(&self) -> (r: bool)
        requires
            neighbours_allowed(self@.layout),
        ensures
            r == neighbours_merge(self@.layout),
            r <==> (forall|i: int|
                0 <= i && i + 1 < self@.layout.dims.len() ==> #[trigger] merged(
                    self@.layout,
                    i,
                    2,
                ) is Some),
    {
        let ndim: usize = self.layout.ndim();
        let mut i: usize = 0;
        while i < ndim && ndim - i >= 2
            invariant
                i <= ndim,
                ndim == self@.layout.dims.len(),
                neighbours_allowed(self@.layout),
                forall|j: int| 0 <= j < i ==> #[trigger] merged(self@.layout, j, 2) is Some,
            decreases ndim - i,
        {
            let pair: Option<ArrayLayout> = self.layout.merge_be(i, 2);
            if pair.is_none() {
                return false;
            }
            i = i + 1;
        }
        true
    }

    /// Whether the tensor is stored densely: all dimensions can be merged into one, and
    /// that one steps by the size of an element.
    pub fn is_dense(&self) -> (r: bool)
        requires
            row_allowed(self@.layout),
            row_dim(self@.layout) matches Some(d) ==> d.stride > isize::MIN,
        ensures
            r == (row_dim(self@.layout) matches Some(d) && distance(d) == self@.dt.size),
            r <==> (merged(self@.layout, 0, self@.layout.dims.len() as int) matches Some(whole)
                && (whole.dims[0].stride == self@.dt.size || whole.dims[0].stride
                == -self@.dt.size)),
    {
        match self.layout.merge_be(0, self.layout.ndim()) {
            Some(whole) => {
                let s: isize = whole.strides()[0];
                let distance: isize = if s < 0 {
                    -s
                } else {
                    s
                };
                distance == self.dt.nbytes() as isize
            },
            None => false,
        }
    }

    /// The number of bytes that the elements take, where all dimensions can be merged into
    /// one.
    pub fn get_contiguous_bytes(&self) -> (r: Option<usize>)
        requires
            row_allowed(self@.layout),
            row_dim(self@.layout) matches Some(d) ==> d.extent * self@.dt.size <= usize::MAX,
        ensures
            match row_dim(self@.layout) {
                Some(d) => r == Some((d.extent * self@.dt.size) as usize),
                None => r is None,
            },
            r is Some <==> merged(self@.layout, 0, self@.layout.dims.len() as int) is Some,
            r is Some ==> r->Some_0 == product(extents(self@.layout.dims)) * self@.dt.size,
    {
        let whole: ArrayLayout = self.layout.merge_be(0, self.layout.ndim())?;
        let size: usize = whole.shape()[0];
        proof {
            law_row_volume(self@.layout);
        }
        Some(size * self.dt.nbytes())
    }

    /// The tensor with its axes in another order.
    pub fn transpose(self, perm: &[usize]) -> (r: Self)
        requires
            transpose_allowed(self@.layout.dims.len(), perm@),
        ensures
            r@ == (TensorModel {
                layout: LayoutModel {
                    dims: transposed(self@.layout.dims, perm@),
                    ..self@.layout
                },
                ..self@
            }),
            r@.layout.dims.len() == self@.layout.dims.len(),
            perm@.len() == self@.layout.dims.len() ==> forall|i: int|
                0 <= i < perm@.len() ==> #[trigger] r@.layout.dims[i]
                    == self@.layout.dims[perm@[i] as int],
            forall|i: int|
                0 <= i < self@.layout.dims.len() && !perm@.contains(i as usize)
                    ==> #[trigger] r@.layout.dims[i] == self@.layout.dims[i],
    {
        let ndim: usize = self.layout.ndim();
        proof {
            if perm@.len() == ndim {
                law_transpose_permutes(self@.layout.dims, perm@);
            }
        }
        Tensor { dt: self.dt, layout: self.layout.transpose(perm), physical: self.physical }
    }

    /// The entries at one position of an axis.
    pub fn index(self, axis: usize, index: usize) -> (r: Self)
        requires
            index_allowed(self@.layout, axis as int, index as int),
        ensures
            r@ == (TensorModel {
                layout: indexed(self@.layout, axis as int, index as int),
                ..self@
            }),
            r@.dt == self@.dt,
            r@.physical == self@.physical,
            r@.layout.dims.len() + 1 == self@.layout.dims.len(),
            forall|i: int|
                0 <= i < axis ==> #[trigger] r@.layout.dims[i] == self@.layout.dims[i],
            forall|i: int|
                axis <= i < r@.layout.dims.len() ==> #[trigger] r@.layout.dims[i]
                    == self@.layout.dims[i + 1],
            r@.layout.offset == self@.layout.offset + index
                * self@.layout.dims[axis as int].stride,
    {
        Tensor { dt: self.dt, layout: self.layout.index(axis, index), physical: self.physical }
    }

    /// Every `step`-th entry of an axis from `start` on, at most `len` of them.
    pub fn slice(self, axis: usize, start: usize, step: isize, len: usize) -> (r: Self)
        requires
            slice_allowed(self@.layout, axis as int, start as int, step as int),
        ensures
            r@ == (TensorModel {
                layout: sliced(self@.layout, axis as int, start as int, step as int, len as nat),
                ..self@
            }),
            axis >= self@.layout.dims.len() ==> r@ == self@,
            axis < self@.layout.dims.len() ==> {
                let d: Dim = self@.layout.dims[axis as int];
                let cut: Dim = r@.layout.dims[axis as int];
                let first: int = if step < 0 && start >= d.extent {
                    d.extent - 1
                } else {
                    start as int
                };
                &&& r@.layout.dims.len() == self@.layout.dims.len()
                &&& r@.layout.offset == self@.layout.offset + first * d.stride
                &&& cut.stride == d.stride * step
                &&& cut.extent <= len
                &&& cut.extent > 0 ==> 0 <= first + step * (cut.extent - 1) < d.extent
                &&& cut.extent < len ==> !(0 <= first + step * cut.extent < d.extent)
            },
            forall|i: int|
                0 <= i < self@.layout.dims.len() && i != axis ==> #[trigger] r@.layout.dims[i]
                    == self@.layout.dims[i],
    {
        proof {
            if axis < self@.layout.dims.len() {
                law_slice_is_longest(
                    self@.layout,
                    axis as int,
                    start as int,
                    step as int,
                    len as nat,
                );
            }
        }
        Tensor {
            dt: self.dt,
            layout: self.layout.slice(axis, start, step, len),
            physical: self.physical,
        }
    }

    /// The tensor with an axis split into tiles, the largest first.
    pub fn tile(self, axis: usize, tiles: &[usize]) -> (r: Self)
        requires
            tile_allowed(self@.layout.dims, axis as int, widen(tiles@)),
        ensures
            r@ == (TensorModel {
                layout: LayoutModel {
                    dims: tiled(self@.layout.dims, axis as int, widen(tiles@)),
                    ..self@.layout
                },
                ..self@
            }),
            r@.layout.dims.len() + 1 == self@.layout.dims.len() + tiles@.len(),
            forall|i: int|
                0 <= i < axis ==> #[trigger] r@.layout.dims[i] == self@.layout.dims[i],
            forall|i: int|
                axis <= i < axis + tiles@.len() ==> {
                    &&& (#[trigger] r@.layout.dims[i]).extent == tiles@[i - axis]
                    &&& r@.layout.dims[i].stride == self@.layout.dims[axis as int].stride
                        * product(widen(tiles@).skip(i - axis + 1))
                },
            forall|i: int|
                axis + tiles@.len() <= i < r@.layout.dims.len() ==> #[trigger] r@.layout.dims[i]
                    == self@.layout.dims[i + 1 - tiles@.len()],
    {
        Tensor { dt: self.dt, layout: self.layout.tile_be(axis, tiles), physical: self.physical }
    }

    /// The tensor with an axis of one entry repeated.
    pub fn broadcast(self, axis: usize, times: usize) -> (r: Self)
        requires
            broadcast_allowed(self@.layout.dims, axis as int),
        ensures
            r@ == (TensorModel {
                layout: LayoutModel {
                    dims: repeated(self@.layout.dims, axis as int, times as nat),
                    ..self@.layout
                },
                ..self@
            }),
            r@.layout.dims.len() == self@.layout.dims.len(),
            r@.layout.dims[axis as int].extent == times,
            r@.layout.dims[axis as int].stride == 0,
            forall|i: int|
                0 <= i < self@.layout.dims.len() && i != axis ==> #[trigger] r@.layout.dims[i]
                    == self@.layout.dims[i],
    {
        Tensor { dt: self.dt, layout: self.layout.broadcast(axis, times), physical: self.physical }
    }

    /// The tensor with a range of axes merged into one, where they are row-major.
    pub fn merge(self, range: Range<usize>) -> (r: Option<Self>)
        requires
            merge_allowed(self@.layout, range.start as int, range_len(range)),
        ensures
            match merged(self@.layout, range.start as int, range_len(range)) {
                Some(layout) => r matches Some(t) && t@ == (TensorModel { layout, ..self@ }),
                None => r is None,
            },
            range.start < range.end ==> r is Some == merged(
                self@.layout,
                range.start as int,
                range.end - range.start,
            ) is Some,
            range.start < range.end && r is Some ==> Some(r->Some_0@.layout) == merged(
                self@.layout,
                range.start as int,
                range.end - range.start,
            ),
            range.start >= range.end ==> r is Some && r->Some_0@ == self@,
            r is Some ==> {
                &&& r->Some_0@.dt == self@.dt
                &&& r->Some_0@.physical == self@.physical
                &&& r->Some_0@.layout.offset == self@.layout.offset
            },
            r is Some && range.end - range.start >= 2 ==> {
                let dims: Seq<Dim> = r->Some_0@.layout.dims;
                &&& dims.len() + (range.end - range.start) == self@.layout.dims.len() + 1
                &&& dims[range.start as int].extent == product(
                    extents(self@.layout.dims.subrange(range.start as int, range.end as int)),
                )
                &&& dims.take(range.start as int) == self@.layout.dims.take(range.start as int)
                &&& dims.skip(range.start + 1) == self@.layout.dims.skip(range.end as int)
            },
    {
        let len: usize = if range.start < range.end {
            range.end - range.start
        } else {
            0
        };
        let ghost m: LayoutModel = self@.layout;
        proof {
            if merged(m, range.start as int, len as int) is Some && len >= 2 {
                let dims: Seq<Dim> = merged(m, range.start as int, len as int)->Some_0.dims;
                law_merge_volume(m, range.start as int, len as int);
                assert(dims.take(range.start as int) =~= m.dims.take(range.start as int));
                assert(dims.skip(range.start + 1) =~= m.dims.skip(range.end as int));
            }
        }
        match self.layout.merge_be(range.start, len) {
            Some(layout) => Some(Tensor { dt: self.dt, layout, physical: self.physical }),
            None => None,
        }
    }
}

/// The number of positions in a range; none where it ends before it starts.
pub open spec fn range_len(range: Range<usize>) -> int {
    if range.start < range.end {
        range.end - range.start
    } else {
        0
    }
}

impl<T: Clone> Clone for Tensor<T> {
    fn clone(&self) -> (r: Self)
        ensures
            r@.dt == self@.dt,
            r@.layout == self@.layout,
            cloned(self@.physical, r@.physical),
    {
        Tensor { dt: self.dt, layout: self.layout.duplicate(), physical: self.physical.clone() }
    }
}

impl<T, B> Tensor<T> where T: Deref<Target = [B]> {
    /// The same tensor over the slice that its storage dereferences to.
    pub fn map_slice(&self) -> (r: Tensor<&[B]>)
        ensures
            r@.dt == self@.dt,
            r@.layout == self@.layout,
            call_ensures(T::deref, (&self@.physical,), r@.physical),
    {
        Tensor { dt: self.dt, layout: self.layout.duplicate(), physical: self.physical.deref() }
    }
}

impl<T, B> Tensor<T> where T: DerefMut<Target = [B]> {
    /// The same tensor over the slice that its storage dereferences to, to be changed. All
    /// else stays.
    pub fn map_slice_mut(&mut self) -> (r: Tensor<&mut [B]>)
        ensures
            r@.dt == old(self)@.dt,
            r@.layout == old(self)@.layout,
            final(self)@.dt == old(self)@.dt,
            final(self)@.layout == old(self)@.layout,
            exists|storage: &mut T|
                {
                    &&& *storage == old(self)@.physical
                    &&& *final(storage) == final(self)@.physical
                    &&& call_ensures(T::deref_mut, (storage,), r@.physical)
                },
    {
        Tensor { dt: self.dt, layout: self.layout.duplicate(), physical: self.physical.deref_mut() }
    }
}

/// Storage that several tensors can hold at once.
pub trait Splitable: Sized {
    /// Another handle on the same storage.
    fn split(&self) -> Self;
}

impl<T: Splitable> Tensor<T> {
    /// Cuts the tensor along an axis into parts of the given lengths, in order. Each part
    /// gets a handle on the storage from `Splitable::split`.
    pub fn split(&self, axis: usize, parts: &[usize]) -> (r: Vec<Self>)
        requires
            split_allowed(self@.layout, axis as int, widen(parts@)),
        ensures
            r@.len() == parts@.len(),
            forall|k: int|
                0 <= k < r@.len() ==> {
                    &&& (#[trigger] r@[k])@.dt == self@.dt
                    &&& r@[k]@.layout == part(self@.layout, axis as int, widen(parts@), k)
                    &&& call_ensures(T::split, (&self@.physical,), r@[k]@.physical)
                },
            forall|k: int|
                0 <= k < r@.len() ==> {
                    let stride: int = self@.layout.dims[axis as int].stride;
                    &&& (#[trigger] r@[k])@.layout.dims.len() == self@.layout.dims.len()
                    &&& r@[k]@.layout.dims[axis as int].extent == parts@[k]
                    &&& r@[k]@.layout.dims[axis as int].stride == stride
                    &&& r@[k]@.layout.offset == self@.layout.offset + sum(
                        widen(parts@).take(k),
                    ) * stride
                },
            forall|k: int, i: int|
                0 <= k < r@.len() && 0 <= i < self@.layout.dims.len() && i != axis
                    ==> #[trigger] r@[k]@.layout.dims[i] == self@.layout.dims[i],
    {
        let layouts: Vec<ArrayLayout> = self.layout.split(axis, parts);
        let mut r: Vec<Self> = Vec::new();
        let mut k: usize = 0;
        while k < layouts.len()
            invariant
                k <= layouts@.len(),
                layouts@.len() == parts@.len(),
                r@.len() == k,
                forall|k: int|
                    0 <= k < layouts@.len() ==> (#[trigger] layouts@[k])@ == part(
                        self@.layout,
                        axis as int,
                        widen(parts@),
                        k,
                    ),
                forall|j: int|
                    0 <= j < k ==> {
                        &&& (#[trigger] r@[j])@.dt == self@.dt
                        &&& r@[j]@.layout == part(self@.layout, axis as int, widen(parts@), j)
                        &&& call_ensures(T::split, (&self@.physical,), r@[j]@.physical)
                    },
            decreases layouts@.len() - k,
        {
            r.push(
                Tensor {
                    dt: self.dt,
                    layout: layouts[k].duplicate(),
                    physical: self.physical.split(),
                },
            );
            k = k + 1;
        }
        r
    }
}

} // verus!
