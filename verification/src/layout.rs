//! Strided array layouts and the transformations on them.
//!
//! A layout is modelled by its dimensions, outermost first, and the byte offset of its
//! first element. The transformations themselves are made by the `ndarray_layout` crate.

use crate::product::{product, sum, widen};
use vstd::prelude::*;

mod transform;

verus! {

/// One dimension: how many steps it has and how many bytes a step takes.
#[verifier::ext_equal]
pub struct Dim {
    pub extent: nat,
    pub stride: int,
}

/// What a layout says: its dimensions and the offset of its first element in bytes.
#[verifier::ext_equal]
pub struct LayoutModel {
    pub dims: Seq<Dim>,
    pub offset: int,
}

/// Whether a number fits an `isize`.
pub open spec fn in_isize(x: int) -> bool {
    isize::MIN <= x <= isize::MAX
}

/// Whether `count` steps of `stride` bytes can be computed in `isize`.
pub open spec fn step_fits(count: int, stride: int) -> bool {
    &&& stride == 0 || count <= isize::MAX
    &&& in_isize(count * stride)
}

/// The extents of all dimensions.
pub open spec fn extents(dims: Seq<Dim>) -> Seq<nat> {
    dims.map_values(|d: Dim| d.extent)
}

/// The number of elements that the dimensions span.
pub open spec fn volume(dims: Seq<Dim>) -> nat {
    product(extents(dims))
}

/// The dimensions that two lists of the same length describe.
pub open spec fn zip_dims(shape: Seq<usize>, strides: Seq<isize>) -> Seq<Dim> {
    Seq::new(shape.len(), |i: int| Dim { extent: shape[i] as nat, stride: strides[i] as int })
}

/// Contiguous dimensions of the given shape: the last one steps by `unit` bytes, every
/// other one steps over all that lies behind it.
pub open spec fn contiguous_dims(shape: Seq<nat>, unit: nat) -> Seq<Dim> {
    Seq::new(
        shape.len(),
        |i: int| Dim { extent: shape[i], stride: unit * product(shape.skip(i + 1)) as int },
    )
}

/// Whether the strides of a contiguous layout can be computed in `isize`.
pub open spec fn contiguous_fits(shape: Seq<nat>, unit: nat) -> bool {
    forall|i: int| 0 <= i <= shape.len() ==> unit * #[trigger] product(shape.skip(i)) <= isize::MAX
}

/// How many axes listed in `perm` come before `axis`.
pub open spec fn rank(perm: Seq<usize>, axis: int) -> nat {
    perm.filter(|p: usize| p < axis).len()
}

/// The axes listed in `perm` change places among themselves: the smallest of them gets
/// the dimension `perm[0]`, the next one `perm[1]`, and so on. All others stay.
pub open spec fn transposed(dims: Seq<Dim>, perm: Seq<usize>) -> Seq<Dim> {
    Seq::new(
        dims.len(),
        |i: int|
            if perm.contains(i as usize) {
                dims[perm[rank(perm, i) as int] as int]
            } else {
                dims[i]
            },
    )
}

/// Whether `perm` lists axes of an `ndim`-dimensional layout, each at most once.
pub open spec fn transpose_allowed(ndim: nat, perm: Seq<usize>) -> bool {
    &&& perm.no_duplicates()
    &&& forall|k: int| 0 <= k < perm.len() ==> #[trigger] perm[k] < ndim
}

/// The layout of the entries at position `index` of `axis`, without that axis.
pub open spec fn indexed(m: LayoutModel, axis: int, index: int) -> LayoutModel {
    LayoutModel { dims: m.dims.remove(axis), offset: m.offset + index * m.dims[axis].stride }
}

/// Whether position `index` of `axis` exists and its offset fits.
pub open spec fn index_allowed(m: LayoutModel, axis: int, index: int) -> bool {
    &&& 0 <= axis < m.dims.len()
    &&& 0 <= index < m.dims[axis].extent
    &&& step_fits(index, m.dims[axis].stride)
    &&& in_isize(m.offset + index * m.dims[axis].stride)
}

/// `a / b`, rounded up.
pub open spec fn div_up(a: int, b: int) -> int {
    (a + b - 1) / b
}

/// Where a slice of an axis begins: backward slices may start behind the end, which
/// means at the end.
pub open spec fn slice_first(extent: nat, start: int, step: int) -> int {
    if step < 0 && start >= extent {
        extent - 1
    } else {
        start
    }
}

/// How many entries a slice of an axis has: as many as asked for, but no more than there
/// are in that direction. A step of zero repeats one entry.
pub open spec fn slice_len(extent: nat, start: int, step: int, len: nat) -> nat {
    let there: int = if step > 0 {
        div_up(extent - start, step)
    } else if step < 0 {
        div_up(slice_first(extent, start, step) + 1, -step)
    } else {
        len as int
    };
    if there < len {
        there as nat
    } else {
        len
    }
}

/// The layout of every `step`-th entry of `axis` from `start` on, at most `len` of them.
/// A layout without that axis stays as it is.
pub open spec fn sliced(m: LayoutModel, axis: int, start: int, step: int, len: nat) -> LayoutModel {
    if axis < m.dims.len() {
        let d: Dim = m.dims[axis];
        LayoutModel {
            dims: m.dims.update(
                axis,
                Dim { extent: slice_len(d.extent, start, step, len), stride: d.stride * step },
            ),
            offset: m.offset + slice_first(d.extent, start, step) * d.stride,
        }
    } else {
        m
    }
}

/// Whether a slice begins on an entry and its offset and stride fit.
pub open spec fn slice_allowed(m: LayoutModel, axis: int, start: int, step: int) -> bool {
    0 <= axis < m.dims.len() ==> {
        let d: Dim = m.dims[axis];
        let first: int = slice_first(d.extent, start, step);
        &&& 0 <= first < d.extent
        &&& step > isize::MIN
        &&& step_fits(first, d.stride)
        &&& in_isize(m.offset + first * d.stride)
        &&& in_isize(d.stride * step)
    }
}

/// The dimensions that split one of stride `stride` into tiles, the largest first.
pub open spec fn tile_dims(stride: int, tiles: Seq<nat>) -> Seq<Dim> {
    Seq::new(
        tiles.len(),
        |k: int| Dim { extent: tiles[k], stride: stride * product(tiles.skip(k + 1)) },
    )
}

/// The dimensions with `axis` split into tiles.
pub open spec fn tiled(dims: Seq<Dim>, axis: int, tiles: Seq<nat>) -> Seq<Dim> {
    dims.take(axis) + tile_dims(dims[axis].stride, tiles) + dims.skip(axis + 1)
}

/// Whether the tiles make up the axis exactly and its span fits.
pub open spec fn tile_allowed(dims: Seq<Dim>, axis: int, tiles: Seq<nat>) -> bool {
    &&& 0 <= axis < dims.len()
    &&& dims[axis].extent == product(tiles)
    &&& forall|k: int| 0 <= k < tiles.len() ==> #[trigger] tiles[k] > 0
    &&& step_fits(dims[axis].extent as int, dims[axis].stride)
}

/// The dimensions with `axis` standing still for `times` steps.
pub open spec fn repeated(dims: Seq<Dim>, axis: int, times: nat) -> Seq<Dim> {
    dims.update(axis, Dim { extent: times, stride: 0 })
}

/// Whether `axis` can be repeated: it has one entry, or stands still already.
pub open spec fn broadcast_allowed(dims: Seq<Dim>, axis: int) -> bool {
    &&& 0 <= axis < dims.len()
    &&& dims[axis].extent == 1 || dims[axis].stride == 0
}

/// Where part `k` begins when an axis is cut into parts of the given lengths.
pub open spec fn part_start(parts: Seq<nat>, k: int) -> nat {
    sum(parts.take(k))
}

/// Part `k` of a layout that is cut along `axis` into parts of the given lengths.
pub open spec fn part(m: LayoutModel, axis: int, parts: Seq<nat>, k: int) -> LayoutModel {
    LayoutModel {
        dims: m.dims.update(axis, Dim { extent: parts[k], stride: m.dims[axis].stride }),
        offset: m.offset + part_start(parts, k) * m.dims[axis].stride,
    }
}

/// Whether the parts make up the axis exactly and each begins on an entry whose offset
/// fits.
pub open spec fn split_allowed(m: LayoutModel, axis: int, parts: Seq<nat>) -> bool {
    &&& 0 <= axis < m.dims.len()
    &&& sum(parts) == m.dims[axis].extent
    &&& forall|k: int|
        0 <= k < parts.len() ==> {
            &&& #[trigger] part_start(parts, k) < m.dims[axis].extent
            &&& step_fits(part_start(parts, k) as int, m.dims[axis].stride)
            &&& in_isize(m.offset + part_start(parts, k) * m.dims[axis].stride)
        }
}

/// The dimensions that have more, or less, than one entry.
pub open spec fn squeezed(dims: Seq<Dim>) -> Seq<Dim> {
    dims.filter(|d: Dim| d.extent != 1)
}

/// Whether a step of one dimension is all of another.
pub open spec fn steps_over(outer: Dim, inner: Dim) -> bool {
    outer.stride == inner.stride * inner.extent
}

/// Whether every dimension steps over exactly all of the one behind it.
pub open spec fn row_major(dims: Seq<Dim>) -> bool {
    forall|j: int, k: int| #![trigger dims[j], dims[k]]
        0 <= j && k == j + 1 && k < dims.len() ==> steps_over(dims[j], dims[k])
}

/// The single dimension that row-major dimensions make up. None at all make up one entry.
pub open spec fn fused(dims: Seq<Dim>) -> Dim {
    if dims.len() == 0 {
        Dim { extent: 1, stride: 0 }
    } else {
        Dim { extent: volume(dims), stride: dims.last().stride }
    }
}

/// Whether fusing the dimensions from the last one on, up to the first that does not step
/// over those behind it, stays within machine limits.
pub open spec fn fuse_fits(dims: Seq<Dim>) -> bool {
    forall|k: int| #![trigger dims.skip(k)]
        0 <= k < dims.len() && row_major(dims.skip(k)) ==> {
            &&& k > 0 ==> step_fits(volume(dims.skip(k)) as int, dims.last().stride)
            &&& k < dims.len() - 1 ==> volume(dims.skip(k)) <= usize::MAX
        }
}

/// The dimensions with `len` of them, from `start` on, replaced by one.
pub open spec fn replaced(dims: Seq<Dim>, start: int, len: int, d: Dim) -> Seq<Dim> {
    dims.take(start).push(d) + dims.skip(start + len)
}

/// Whether the dimensions `start..start + len` exist and have entries.
pub open spec fn has_entries(dims: Seq<Dim>, start: int, len: int) -> bool {
    &&& start + len <= dims.len()
    &&& forall|i: int| start <= i < start + len ==> (#[trigger] dims[i]).extent > 0
}

/// The layout with the dimensions `start..start + len` fused into one, where they are
/// row-major but for those with one entry. Fewer than two dimensions stay as they are.
pub open spec fn merged(m: LayoutModel, start: int, len: int) -> Option<LayoutModel> {
    let inner: Seq<Dim> = squeezed(m.dims.subrange(start, start + len));
    if len < 2 {
        Some(m)
    } else if row_major(inner) {
        Some(
            LayoutModel { dims: replaced(m.dims, start, len, fused(inner)), offset: m.offset },
        )
    } else {
        None
    }
}

/// What `merged` asks of a layout: its dimensions have entries, and fusing them fits.
pub open spec fn merge_allowed(m: LayoutModel, start: int, len: int) -> bool {
    len >= 2 ==> {
        &&& has_entries(m.dims, start, len)
        &&& fuse_fits(squeezed(m.dims.subrange(start, start + len)))
    }
}

/// Whether `b` lists the dimensions of `a` in some order.
pub open spec fn reordering(a: Seq<Dim>, b: Seq<Dim>) -> bool {
    a.to_multiset() == b.to_multiset()
}

/// The distance of a step, whichever way it goes.
pub open spec fn distance(d: Dim) -> int {
    if d.stride < 0 {
        -d.stride
    } else {
        d.stride
    }
}

/// Whether no dimension takes longer steps than one before it.
pub open spec fn descending(dims: Seq<Dim>) -> bool {
    forall|i: int, j: int|
        0 <= i < j < dims.len() ==> distance(#[trigger] dims[j]) <= distance(#[trigger] dims[i])
}

/// Whether `order` lists the dimensions in row-major order.
pub open spec fn nesting(dims: Seq<Dim>, order: Seq<Dim>) -> bool {
    reordering(dims, order) && row_major(order)
}

/// The layout with the dimensions `start..start + len` fused into one, where those with
/// more than one entry are row-major in some order. Fewer than two dimensions stay as
/// they are.
pub open spec fn merged_any_order(m: LayoutModel, start: int, len: int) -> Option<LayoutModel> {
    let inner: Seq<Dim> = squeezed(m.dims.subrange(start, start + len));
    if len < 2 {
        Some(m)
    } else if exists|order: Seq<Dim>| nesting(inner, order) {
        let order: Seq<Dim> = choose|order: Seq<Dim>| nesting(inner, order);
        Some(
            LayoutModel { dims: replaced(m.dims, start, len, fused(order)), offset: m.offset },
        )
    } else {
        None
    }
}

/// What `merged_any_order` asks of a layout: its dimensions have entries, and fusing them
/// from the shortest step to the longest fits.
pub open spec fn merge_any_order_allowed(m: LayoutModel, start: int, len: int) -> bool {
    len >= 2 ==> {
        &&& has_entries(m.dims, start, len)
        &&& forall|order: Seq<Dim>|
            reordering(squeezed(m.dims.subrange(start, start + len)), order) && descending(order)
                ==> #[trigger] fuse_fits(order)
    }
}

/// A strided layout.
pub struct ArrayLayout {
    shape: Vec<usize>,
    strides: Vec<isize>,
    offset: isize,
}

impl View for ArrayLayout {
    type V = LayoutModel;

    closed spec fn view(&self) -> LayoutModel {
        LayoutModel { dims: zip_dims(self.shape@, self.strides@), offset: self.offset as int }
    }
}

impl ArrayLayout {
    #[verifier::type_invariant]
    spec fn one_stride_per_extent(self) -> bool {
        self.shape@.len() == self.strides@.len()
    }

    /// A layout of the given shape, strides and offset.
    pub fn new(shape: Vec<usize>, strides: Vec<isize>, offset: isize) -> (r: Self)
        requires
            shape@.len() == strides@.len(),
        ensures
            r@ == (LayoutModel { dims: zip_dims(shape@, strides@), offset: offset as int }),
    {
        ArrayLayout { shape, strides, offset }
    }

    /// The same layout once more.
    pub fn duplicate(&self) -> (r: Self)
        ensures
            r@ == self@,
    {
        proof {
            use_type_invariant(self);
        }
        let shape: Vec<usize> = self.shape.clone();
        let strides: Vec<isize> = self.strides.clone();
        assert(shape@ =~= self.shape@);
        assert(strides@ =~= self.strides@);
        ArrayLayout { shape, strides, offset: self.offset }
    }

    /// The number of dimensions.
    pub fn ndim(&self) -> (r: usize)
        ensures
            r == self@.dims.len(),
    {
        self.shape.len()
    }

    /// The extents of all dimensions.
    pub fn shape(&self) -> (r: &[usize])
        ensures
            widen(r@) == extents(self@.dims),
            r@.len() == self@.dims.len(),
            forall|i: int| 0 <= i < r@.len() ==> #[trigger] r@[i] == self@.dims[i].extent,
    {
        proof {
            use_type_invariant(self);
            assert(widen(self.shape@) =~= extents(self@.dims));
        }
        self.shape.as_slice()
    }

    /// The strides of all dimensions, in bytes.
    pub fn strides(&self) -> (r: &[isize])
        ensures
            r@.len() == self@.dims.len(),
            forall|i: int| 0 <= i < r@.len() ==> #[trigger] r@[i] == self@.dims[i].stride,
    {
        proof {
            use_type_invariant(self);
        }
        self.strides.as_slice()
    }

    /// The offset of the first element, in bytes.
    pub fn offset(&self) -> (r: isize)
        ensures
            r == self@.offset,
    {
        self.offset
    }
}

} // verus!
