//! What holds of new tensors, of casts, and of opened array types.

use crate::digit::{DigitLayout, LayoutContent};
use crate::laws::address::{address, flat_index};
use crate::laws::merging::{
    bounded, inside, lemma_bounded_merges, lemma_reordering, lemma_row_span, lemma_row_steps,
    lemma_squeezed_items, lemma_squeezed_step, lemma_tile_extents, lemma_tiles_row_major,
    lemma_volume_empty, lemma_volume_push, lemma_volume_squeezed,
};
use crate::layout::{
    contiguous_dims, descending, distance, extents, fuse_fits, fused, has_entries, in_isize,
    merge_allowed, merge_any_order_allowed, merged, merged_any_order, nesting, reordering,
    row_major, squeezed, step_fits, steps_over, tile_dims, volume, Dim, LayoutModel,
};
use crate::product::{
    lemma_product_concat, lemma_product_head, lemma_product_positive, product,
};
use crate::tensor::{
    cast_allowed, cast_tensor, dense_dim, is_array, neighbours_allowed, neighbours_merge,
    new_allowed, new_bytes, new_tensor, openable, opened, rescaled, row_allowed, row_dim, single,
    TensorModel,
};
use vstd::arithmetic::div_mod::*;
use vstd::arithmetic::mul::*;
use vstd::prelude::*;
use vstd::seq_lib::*;

verus! {

/// A new tensor is laid out like the tiles of one dimension.
proof fn lemma_contiguous_is_tiled(shape: Seq<nat>, unit: nat)
    ensures
        contiguous_dims(shape, unit) == tile_dims(unit as int, shape),
        extents(contiguous_dims(shape, unit)) == shape,
        volume(contiguous_dims(shape, unit)) == product(shape),
{
    assert(contiguous_dims(shape, unit) =~= tile_dims(unit as int, shape));
    lemma_tile_extents(unit as int, shape);
}

/// The layout of a new tensor that has entries can be asked to merge.
proof fn lemma_new_is_bounded(dt: DigitLayout, shape: Seq<nat>)
    requires
        new_allowed(dt, shape),
        forall|i: int| 0 <= i < shape.len() ==> #[trigger] shape[i] > 0,
    ensures
        bounded(new_tensor(dt, shape).layout.dims),
{
    let unit: nat = dt.size as nat;
    let dims: Seq<Dim> = contiguous_dims(shape, unit);
    lemma_contiguous_is_tiled(shape, unit);
    assert(shape.take(shape.len() as int) =~= shape);
    assert(shape.skip(0) =~= shape);
    assert forall|i: int| 0 <= i < dims.len() implies (#[trigger] dims[i]).extent > 0 && in_isize(
        dims[i].extent * dims[i].stride,
    ) by {
        assert(shape[i] > 0);
        let rest: Seq<nat> = shape.skip(i);
        lemma_product_head(rest);
        assert(rest.skip(1) =~= shape.skip(i + 1));
        let v: int = product(shape.skip(i + 1)) as int;
        assert(shape[i] * (unit * v) == unit * (shape[i] * v)) by (nonlinear_arith);
        assert(unit * product(rest) <= isize::MAX);
        assert(unit * product(rest) >= 0) by (nonlinear_arith);
    }
    if unit == 0 {
        assert forall|i: int| 0 <= i < dims.len() implies (#[trigger] dims[i]).stride == 0 by {
            lemma_mul_basics(product(shape.skip(i + 1)) as int);
        }
    } else {
        let v: int = product(shape) as int;
        assert(v <= unit * v) by (nonlinear_arith)
            requires
                unit >= 1,
                v >= 0,
        ;
    }
}

/// The first of several positive numbers, and the last of them, have a product that is at
/// most that of all.
proof fn lemma_product_ends(shape: Seq<nat>, k: int)
    requires
        0 <= k <= shape.len(),
        forall|i: int| 0 <= i < shape.len() ==> #[trigger] shape[i] > 0,
    ensures
        product(shape.take(k)) <= product(shape),
        product(shape.skip(k)) <= product(shape),
{
    let (a, b): (Seq<nat>, Seq<nat>) = (shape.take(k), shape.skip(k));
    assert(shape =~= a + b);
    lemma_product_concat(a, b);
    lemma_product_positive(a);
    lemma_product_positive(b);
    let (x, y): (int, int) = (product(a) as int, product(b) as int);
    assert(x <= x * y && y <= x * y) by (nonlinear_arith)
        requires
            x >= 1,
            y >= 1,
    ;
}

/// A tensor can be planned for any shape that has entries and takes no more bytes than an
/// `isize` can count.
pub proof fn law_new_is_allowed(dt: DigitLayout, shape: Seq<nat>)
    requires
        dt.group > 0,
        dt.size > 0,
        forall|i: int| 0 <= i < shape.len() ==> #[trigger] shape[i] > 0,
        product(shape) * dt.size <= isize::MAX,
    ensures
        new_allowed(dt, shape),
{
    let unit: int = dt.size as int;
    let v: int = product(shape) as int;
    assert(v <= v * unit) by (nonlinear_arith)
        requires
            v >= 0,
            unit >= 1,
    ;
    assert forall|k: int| 0 <= k <= shape.len() implies #[trigger] product(shape.take(k))
        <= usize::MAX by {
        lemma_product_ends(shape, k);
    }
    assert forall|k: int| 0 <= k <= shape.len() implies unit * #[trigger] product(shape.skip(k))
        <= isize::MAX by {
        let y: int = product(shape.skip(k)) as int;
        lemma_product_ends(shape, k);
        assert(unit * y <= v * unit) by (nonlinear_arith)
            requires
                0 <= y <= v,
                unit >= 0,
        ;
    }
}

/// A new tensor that has entries is contiguous.
pub proof fn law_new_is_contiguous(dt: DigitLayout, shape: Seq<nat>)
    requires
        new_allowed(dt, shape),
        forall|i: int| 0 <= i < shape.len() ==> #[trigger] shape[i] > 0,
    ensures
        neighbours_allowed(new_tensor(dt, shape).layout),
        neighbours_merge(new_tensor(dt, shape).layout),
{
    let m: LayoutModel = new_tensor(dt, shape).layout;
    lemma_new_is_bounded(dt, shape);
    assert forall|i: int| 0 <= i < m.dims.len() - 1 implies #[trigger] merge_allowed(m, i, 2) by {
        lemma_bounded_merges(m, i, 2);
    }
    if shape.len() > 0 {
        lemma_new_row(dt, shape);
        crate::laws::merging::law_whole_merges_neighbours(m);
    }
}

/// All dimensions of a new tensor merge into one.
proof fn lemma_new_row(dt: DigitLayout, shape: Seq<nat>)
    requires
        shape.len() > 0,
    ensures
        ({
            let m: LayoutModel = new_tensor(dt, shape).layout;
            &&& row_dim(m) matches Some(d) && d.extent == product(shape)
            &&& (shape.len() == 1 || product(shape) != 1 ==> row_dim(m)->Some_0.stride == dt.size)
        }),
{
    let m: LayoutModel = new_tensor(dt, shape).layout;
    let unit: nat = dt.size as nat;
    let n: int = m.dims.len() as int;
    lemma_contiguous_is_tiled(shape, unit);
    assert(m.dims.subrange(0, n) =~= m.dims);
    lemma_tiles_row_major(unit as int, shape);
    lemma_volume_squeezed(m.dims);
    if n == 1 {
        assert(shape.drop_last() =~= Seq::<nat>::empty());
        assert(product(shape.drop_last()) == 1);
        assert(shape.skip(1) =~= Seq::<nat>::empty());
        lemma_mul_basics(shape[0] as int);
        lemma_mul_basics(unit as int);
        assert(m.dims[0] == (Dim { extent: shape[0], stride: unit as int }));
    } else if squeezed(m.dims).len() == 0 {
        assert(squeezed(m.dims) =~= Seq::<Dim>::empty());
        lemma_volume_empty();
    }
}

/// A new tensor that has entries is stored densely, and its elements take as many bytes as
/// their number times their size. Two or more dimensions with one entry in all are
/// excepted: merged, they stand still.
pub proof fn law_new_is_dense(dt: DigitLayout, shape: Seq<nat>)
    requires
        new_allowed(dt, shape),
        shape.len() > 0,
        forall|i: int| 0 <= i < shape.len() ==> #[trigger] shape[i] > 0,
        shape.len() == 1 || product(shape) != 1,
    ensures
        row_allowed(new_tensor(dt, shape).layout),
        row_dim(new_tensor(dt, shape).layout) == Some(
            Dim { extent: product(shape), stride: dt.size as int },
        ),
{
    let m: LayoutModel = new_tensor(dt, shape).layout;
    lemma_new_is_bounded(dt, shape);
    lemma_bounded_merges(m, 0, m.dims.len() as int);
    lemma_new_row(dt, shape);
}

/// The elements of a new tensor are stored one after the other, row by row.
pub proof fn law_new_address(dt: DigitLayout, shape: Seq<nat>, at: Seq<int>)
    requires
        inside(new_tensor(dt, shape).layout.dims, at),
    ensures
        address(new_tensor(dt, shape).layout, at) == flat_index(shape, at) * dt.size,
{
    let dims: Seq<Dim> = new_tensor(dt, shape).layout.dims;
    lemma_contiguous_is_tiled(shape, dt.size as nat);
    lemma_tiles_row_major(dt.size as int, shape);
    lemma_row_steps(dims, at);
    if squeezed(dims).len() == 0 {
        lemma_mul_basics(dt.size as int);
        lemma_mul_basics(fused(squeezed(dims)).stride);
    }
}

/// A position within bounds has a number below that of all elements.
proof fn lemma_flat_bound(shape: Seq<nat>, at: Seq<int>)
    requires
        at.len() == shape.len(),
        forall|i: int| 0 <= i < shape.len() ==> 0 <= #[trigger] at[i] < shape[i],
    ensures
        0 <= flat_index(shape, at) < product(shape),
    decreases shape.len(),
{
    if shape.len() > 0 {
        let n: int = shape.len() as int;
        let init: Seq<nat> = shape.drop_last();
        let before: Seq<int> = at.drop_last();
        assert forall|i: int| 0 <= i < init.len() implies 0 <= #[trigger] before[i] < init[i] by {
            assert(before[i] == at[i]);
        }
        lemma_flat_bound(init, before);
        let (f, p, e, i): (int, int, int, int) = (
            flat_index(init, before),
            product(init) as int,
            shape.last() as int,
            at.last(),
        );
        assert(at[n - 1] == i);
        assert(0 <= f * e + i < p * e) by (nonlinear_arith)
            requires
                0 <= f <= p - 1,
                0 <= i < e,
        ;
    }
}

/// Different positions within bounds have different numbers.
proof fn lemma_flat_distinct(shape: Seq<nat>, a: Seq<int>, b: Seq<int>)
    requires
        a.len() == shape.len(),
        b.len() == shape.len(),
        forall|i: int| 0 <= i < shape.len() ==> 0 <= #[trigger] a[i] < shape[i],
        forall|i: int| 0 <= i < shape.len() ==> 0 <= #[trigger] b[i] < shape[i],
        flat_index(shape, a) == flat_index(shape, b),
    ensures
        a == b,
    decreases shape.len(),
{
    if shape.len() > 0 {
        let n: int = shape.len() as int;
        let init: Seq<nat> = shape.drop_last();
        let (a1, b1): (Seq<int>, Seq<int>) = (a.drop_last(), b.drop_last());
        assert forall|i: int| 0 <= i < init.len() implies 0 <= #[trigger] a1[i] < init[i] by {
            assert(a1[i] == a[i]);
        }
        assert forall|i: int| 0 <= i < init.len() implies 0 <= #[trigger] b1[i] < init[i] by {
            assert(b1[i] == b[i]);
        }
        let (f, g, e): (int, int, int) = (
            flat_index(init, a1),
            flat_index(init, b1),
            shape.last() as int,
        );
        assert(a[n - 1] == a.last() && b[n - 1] == b.last());
        lemma_fundamental_div_mod_converse(f * e + a.last(), e, f, a.last());
        lemma_fundamental_div_mod_converse(f * e + a.last(), e, g, b.last());
        lemma_flat_distinct(init, a1, b1);
        assert(a =~= a1.push(a.last()));
        assert(b =~= b1.push(b.last()));
    } else {
        assert(a =~= b);
    }
}

/// Every element of a new tensor lies within as many bytes as all elements take. Where an
/// element is one number, these are the bytes that the tensor is stored in.
pub proof fn law_new_stays_inside(dt: DigitLayout, shape: Seq<nat>, at: Seq<int>)
    requires
        inside(new_tensor(dt, shape).layout.dims, at),
    ensures
        0 <= address(new_tensor(dt, shape).layout, at),
        address(new_tensor(dt, shape).layout, at) + dt.size <= product(shape) * dt.size,
        dt.group == 1 ==> address(new_tensor(dt, shape).layout, at) + dt.size <= new_bytes(
            dt,
            shape,
        ),
{
    let dims: Seq<Dim> = new_tensor(dt, shape).layout.dims;
    assert forall|i: int| 0 <= i < shape.len() implies 0 <= #[trigger] at[i] < shape[i] by {
        assert(dims[i].extent == shape[i]);
    }
    law_new_address(dt, shape, at);
    lemma_flat_bound(shape, at);
    let (f, p, s): (int, int, int) = (
        flat_index(shape, at),
        product(shape) as int,
        dt.size as int,
    );
    assert(0 <= f * s && f * s + s <= p * s) by (nonlinear_arith)
        requires
            0 <= f <= p - 1,
            s >= 0,
    ;
}

/// Different elements of a new tensor do not share bytes.
pub proof fn law_new_keeps_apart(dt: DigitLayout, shape: Seq<nat>, a: Seq<int>, b: Seq<int>)
    requires
        inside(new_tensor(dt, shape).layout.dims, a),
        inside(new_tensor(dt, shape).layout.dims, b),
        a != b,
    ensures
        ({
            let x: int = address(new_tensor(dt, shape).layout, a);
            let y: int = address(new_tensor(dt, shape).layout, b);
            x + dt.size <= y || y + dt.size <= x
        }),
{
    let dims: Seq<Dim> = new_tensor(dt, shape).layout.dims;
    assert forall|i: int| 0 <= i < shape.len() implies 0 <= #[trigger] a[i] < shape[i] by {
        assert(dims[i].extent == shape[i]);
    }
    assert forall|i: int| 0 <= i < shape.len() implies 0 <= #[trigger] b[i] < shape[i] by {
        assert(dims[i].extent == shape[i]);
    }
    law_new_address(dt, shape, a);
    law_new_address(dt, shape, b);
    let (f, g, s): (int, int, int) = (
        flat_index(shape, a),
        flat_index(shape, b),
        dt.size as int,
    );
    if f == g {
        lemma_flat_distinct(shape, a, b);
    }
    assert(f * s + s <= g * s || g * s + s <= f * s) by (nonlinear_arith)
        requires
            f + 1 <= g || g + 1 <= f,
            s >= 0,
    ;
}

/// Opening array types twice is opening them once.
pub proof fn law_opened_stays_open<T>(t: TensorModel<T>)
    requires
        openable(t.dt),
    ensures
        openable(opened(t).dt),
        opened(opened(t)) == opened(t),
{
}

/// The numbers that an opened tensor has are those that its elements packed: unsigned integers
/// of the same width, or real numbers of the same mantissa and, up to what a type can tell of
/// it, the same exponent. Each takes a byte for every 8 of its bits.
pub proof fn law_opened_numbers<T>(t: TensorModel<T>)
    requires
        t.dt.group > 1,
        openable(t.dt),
    ensures
        opened(t).physical == t.physical,
        opened(t).layout.offset == t.layout.offset,
        t.dt.content is Named ==> opened(t) == t,
        !(t.dt.content is Named) ==> {
            &&& opened(t).dt.group == 1
            &&& opened(t).layout.dims.len() == t.layout.dims.len() + 1
            &&& opened(t).layout.dims.last().extent == t.dt.group
            &&& opened(t).layout.dims.last().stride == opened(t).dt.size
        },
        match t.dt.content {
            LayoutContent::Unsigned { width } => {
                &&& opened(t).dt.content == t.dt.content
                &&& opened(t).dt.size * 8 == width
            },
            LayoutContent::Real { exponent, mantissa } => {
                &&& opened(t).dt.content is Real
                &&& opened(t).dt.content->mantissa == mantissa
                &&& exponent < 256 ==> opened(t).dt.content == t.dt.content
                &&& opened(t).dt.size * 8 == 1 + exponent + mantissa
            },
            LayoutContent::Named { .. } => true,
        },
{
}

/// Number `j` of the element at position `at` is stored `j` numbers behind where the
/// element was.
pub proof fn law_opened_address<T>(t: TensorModel<T>, at: Seq<int>, j: int)
    requires
        is_array(t.dt),
        at.len() == t.layout.dims.len(),
    ensures
        address(opened(t).layout, at.push(j)) == address(t.layout, at) + j * single(t.dt).size,
{
    assert(opened(t).layout.dims.drop_last() =~= t.layout.dims);
    assert(at.push(j).drop_last() =~= at);
}

/// Opening an array type keeps the number of bytes that the elements take, where an element
/// takes just what its numbers take.
pub proof fn law_opened_bytes<T>(t: TensorModel<T>)
    requires
        is_array(t.dt),
        t.dt.size == single(t.dt).size * t.dt.group,
    ensures
        volume(opened(t).layout.dims) * opened(t).dt.size == volume(t.layout.dims) * t.dt.size,
{
    let d: Dim = Dim { extent: t.dt.group as nat, stride: single(t.dt).size as int };
    lemma_volume_push(t.layout.dims, d);
    let (v, g, s): (int, int, int) = (
        volume(t.layout.dims) as int,
        t.dt.group as int,
        single(t.dt).size as int,
    );
    assert((v * g) * s == v * (s * g)) by (nonlinear_arith);
}

/// In row-major order, dimensions with several entries take ever shorter steps, unless
/// nothing moves.
proof fn lemma_row_major_descends(order: Seq<Dim>, i: int, j: int)
    requires
        row_major(order),
        forall|k: int| 0 <= k < order.len() ==> (#[trigger] order[k]).extent != 1,
        forall|k: int| 0 <= k < order.len() ==> (#[trigger] order[k]).extent > 0,
        0 <= i < j < order.len(),
    ensures
        order[j].stride == 0 ==> order[i].stride == 0,
        order[j].stride != 0 ==> distance(order[j]) < distance(order[i]),
    decreases j - i,
{
    let s: int = order[i + 1].stride;
    let e: int = order[i + 1].extent as int;
    assert(order[i].stride == s * e);
    assert(e >= 2);
    assert(s > 0 ==> s * e >= 2 * s) by (nonlinear_arith)
        requires
            e >= 2,
    ;
    assert(s < 0 ==> s * e <= 2 * s) by (nonlinear_arith)
        requires
            e >= 2,
    ;
    lemma_mul_basics(e);
    if i + 1 < j {
        lemma_row_major_descends(order, i + 1, j);
    }
}

/// In row-major order, dimensions with several entries that move take ever shorter steps.
proof fn lemma_strictly_descending(order: Seq<Dim>)
    requires
        row_major(order),
        forall|k: int|
            0 <= k < order.len() ==> (#[trigger] order[k]).extent != 1 && order[k].extent > 0,
        order.len() > 0 ==> order.last().stride != 0,
    ensures
        forall|i: int, j: int|
            0 <= i < j < order.len() ==> distance(#[trigger] order[j]) < distance(
                #[trigger] order[i],
            ),
        descending(order),
{
    assert forall|i: int, j: int| 0 <= i < j < order.len() implies distance(
        #[trigger] order[j],
    ) < distance(#[trigger] order[i]) by {
        lemma_row_major_descends(order, i, j);
        if j < order.len() - 1 {
            lemma_row_major_descends(order, j, order.len() - 1);
        }
    }
}

/// There is at most one dimension that dimensions with several entries can amount to,
/// whatever their order.
proof fn lemma_nesting_unique(dims: Seq<Dim>, a: Seq<Dim>, b: Seq<Dim>)
    requires
        nesting(dims, a),
        nesting(dims, b),
        forall|k: int| 0 <= k < dims.len() ==> (#[trigger] dims[k]).extent != 1,
        forall|k: int| 0 <= k < dims.len() ==> (#[trigger] dims[k]).extent > 0,
    ensures
        fused(a) == fused(b),
{
    lemma_reordering(dims, a);
    lemma_reordering(dims, b);
    lemma_reordering(a, b);
    lemma_reordering(b, a);
    if a.len() > 0 {
        let n: int = a.len() as int;
        assert forall|k: int| 0 <= k < n implies (#[trigger] a[k]).extent != 1 && a[k].extent > 0 by {
            let j: int = choose|j: int| 0 <= j < dims.len() && dims[j] == a[k];
            assert(dims[j].extent != 1);
        }
        assert forall|k: int| 0 <= k < n implies (#[trigger] b[k]).extent != 1 && b[k].extent > 0 by {
            let j: int = choose|j: int| 0 <= j < dims.len() && dims[j] == b[k];
            assert(dims[j].extent != 1);
        }
        assert(b[n - 1] == b.last());
        assert(a[n - 1] == a.last());
        let i: int = choose|i: int| 0 <= i < n && a[i] == b[n - 1];
        let j: int = choose|j: int| 0 <= j < n && b[j] == a[n - 1];
        if i < n - 1 {
            lemma_row_major_descends(a, i, n - 1);
        }
        if j < n - 1 {
            lemma_row_major_descends(b, j, n - 1);
        }
    }
}

/// A dense layout has the entries of all its dimensions in its single dimension.
proof fn lemma_dense_volume(m: LayoutModel)
    requires
        m.dims.len() > 0,
        dense_dim(m) is Some,
    ensures
        dense_dim(m)->Some_0.extent == volume(m.dims),
{
    let n: int = m.dims.len() as int;
    let inner: Seq<Dim> = squeezed(m.dims.subrange(0, n));
    assert(m.dims.subrange(0, n) =~= m.dims);
    lemma_volume_squeezed(m.dims);
    if n >= 2 {
        let order: Seq<Dim> = choose|order: Seq<Dim>| nesting(inner, order);
        assert(nesting(inner, order));
        lemma_reordering(inner, order);
        if order.len() == 0 {
            assert(inner =~= Seq::<Dim>::empty());
            lemma_volume_empty();
        }
    } else {
        assert(m.dims =~= Seq::<Dim>::empty().push(m.dims[0]));
        lemma_volume_push(Seq::<Dim>::empty(), m.dims[0]);
        lemma_volume_empty();
        lemma_mul_basics(m.dims[0].extent as int);
    }
}

/// A cast tensor takes as many bytes as its number of elements times their new size.
pub proof fn law_cast_bytes<T>(t: TensorModel<T>, target: DigitLayout)
    requires
        cast_allowed(t, target),
    ensures
        cast_tensor(t, target).physical == volume(t.layout.dims) * target.size,
{
    lemma_dense_volume(t.layout);
}

/// What can be merged in order can be merged in any order, with the same outcome.
pub proof fn law_merge_in_order_is_in_any_order(m: LayoutModel, start: int, len: int)
    requires
        0 <= start,
        0 <= len,
        has_entries(m.dims, start, len),
        merged(m, start, len) is Some,
    ensures
        merged_any_order(m, start, len) == merged(m, start, len),
{
    if len >= 2 {
        let range: Seq<Dim> = m.dims.subrange(start, start + len);
        let inner: Seq<Dim> = squeezed(range);
        lemma_squeezed_items(range);
        assert(nesting(inner, inner));
        let order: Seq<Dim> = choose|order: Seq<Dim>| nesting(inner, order);
        assert forall|k: int| 0 <= k < inner.len() implies (#[trigger] inner[k]).extent > 0 by {
            let j: int = choose|j: int| 0 <= j < range.len() && range[j] == inner[k];
            assert(m.dims[start + j] == inner[k]);
        }
        lemma_nesting_unique(inner, inner, order);
    }
}

/// Dimensions that take ever shorter steps can be sorted in one way only.
proof fn lemma_descending_unique(a: Seq<Dim>, b: Seq<Dim>)
    requires
        reordering(a, b),
        forall|i: int, j: int|
            0 <= i < j < a.len() ==> distance(#[trigger] a[j]) < distance(#[trigger] a[i]),
        descending(b),
    ensures
        a == b,
    decreases a.len(),
{
    broadcast use group_to_multiset_ensures;
    lemma_reordering(a, b);
    lemma_reordering(b, a);
    if a.len() > 0 {
        let n: int = a.len() as int;
        let i: int = choose|i: int| 0 <= i < n && a[i] == b[n - 1];
        let j: int = choose|j: int| 0 <= j < n && b[j] == a[n - 1];
        assert(i == n - 1);
        let a1: Seq<Dim> = a.drop_last();
        let b1: Seq<Dim> = b.drop_last();
        assert(a1 =~= a.remove(n - 1));
        assert(b1 =~= b.remove(n - 1));
        to_multiset_remove(a, n - 1);
        to_multiset_remove(b, n - 1);
        lemma_descending_unique(a1, b1);
        assert(a =~= a1.push(a[n - 1]));
        assert(b =~= b1.push(b[n - 1]));
    } else {
        assert(a =~= b);
    }
}

/// All strides of row-major dimensions are multiples of what the last one is a multiple of.
proof fn lemma_row_major_multiples(dims: Seq<Dim>, unit: int, k: int)
    requires
        row_major(dims),
        unit > 0,
        0 <= k < dims.len(),
        dims.last().stride % unit == 0,
    ensures
        dims[k].stride % unit == 0,
    decreases dims.len() - k,
{
    if k + 1 < dims.len() {
        lemma_row_major_multiples(dims, unit, k + 1);
        let s: int = dims[k + 1].stride;
        let e: int = dims[k + 1].extent as int;
        let q: int = s / unit;
        lemma_fundamental_div_mod(s, unit);
        assert(dims[k].stride == s * e);
        assert(s * e == (q * e) * unit) by (nonlinear_arith)
            requires
                s == unit * q,
        ;
        lemma_mod_multiples_basic(q * e, unit);
    }
}

/// A tensor that is stored densely can be cast to a type whose elements pack equally many
/// numbers, within machine limits. Dimensions with one entry whose stride is no multiple of
/// an element's size are excepted.
pub proof fn law_dense_is_castable<T>(t: TensorModel<T>, target: DigitLayout)
    requires
        row_allowed(t.layout),
        row_dim(t.layout) matches Some(d) && distance(d) == t.dt.size,
        t.dt.group == target.group,
        t.dt.size > 0,
        forall|i: int|
            0 <= i < t.layout.dims.len() && (#[trigger] t.layout.dims[i]).extent == 1
                ==> t.layout.dims[i].stride % (t.dt.size as int) == 0,
        volume(t.layout.dims) * target.size <= usize::MAX,
        forall|i: int|
            0 <= i < t.layout.dims.len() ==> in_isize(
                (#[trigger] t.layout.dims[i]).stride / (t.dt.size as int) * target.size,
            ),
    ensures
        cast_allowed(t, target),
{
    let m: LayoutModel = t.layout;
    let dims: Seq<Dim> = m.dims;
    let n: int = dims.len() as int;
    let unit: int = t.dt.size as int;
    let d: Dim = row_dim(m)->Some_0;
    assert(d.stride % unit == 0) by {
        let sign: int = if d.stride < 0 {
            -1
        } else {
            1
        };
        assert(d.stride == sign * unit) by (nonlinear_arith)
            requires
                sign == -1 && d.stride == -unit || sign == 1 && d.stride == unit,
        ;
        lemma_mod_multiples_basic(sign, unit);
    }
    if n >= 2 {
        let inner: Seq<Dim> = squeezed(dims);
        assert(dims.subrange(0, n) =~= dims);
        lemma_squeezed_items(dims);
        law_merge_in_order_is_in_any_order(m, 0, n);
        assert forall|k: int| 0 <= k < inner.len() implies (#[trigger] inner[k]).extent > 0 by {
            let j: int = choose|j: int| 0 <= j < n && dims[j] == inner[k];
            assert(dims[j].extent > 0);
        }
        assert(inner.last().stride == d.stride);
        lemma_strictly_descending(inner);
        assert forall|order: Seq<Dim>|
            reordering(inner, order) && descending(order) implies #[trigger] fuse_fits(order) by {
            lemma_descending_unique(inner, order);
        }
        assert forall|i: int| 0 <= i < n implies (#[trigger] dims[i]).stride % unit == 0 by {
            if dims[i].extent != 1 {
                let keep = |d: Dim| d.extent != 1;
                assert(keep(dims[i]));
                dims.lemma_filter_contains_rev(keep, dims[i]);
                assert(inner.contains(dims[i]));
                let k: int = choose|k: int| 0 <= k < inner.len() && inner[k] == dims[i];
                lemma_row_major_multiples(inner, unit, k);
            }
        }
    }
    lemma_dense_volume(m);
}

/// One dimension with its stride rescaled.
spec fn rescale(d: Dim, from: int, to: int) -> Dim {
    Dim { extent: d.extent, stride: d.stride / from * to }
}

/// Rescaling strides and leaving out dimensions with one entry can change places.
proof fn lemma_squeezed_rescaled(dims: Seq<Dim>, from: int, to: int)
    ensures
        squeezed(rescaled(dims, from, to)) == rescaled(squeezed(dims), from, to),
    decreases dims.len(),
{
    let r: Seq<Dim> = rescaled(dims, from, to);
    if dims.len() > 0 {
        let init: Seq<Dim> = dims.drop_last();
        lemma_squeezed_step(dims);
        lemma_squeezed_step(r);
        assert(r.drop_last() =~= rescaled(init, from, to));
        assert(r.last() == rescale(dims.last(), from, to));
        lemma_squeezed_rescaled(init, from, to);
        assert(squeezed(r) =~= rescaled(squeezed(dims), from, to));
    } else {
        lemma_squeezed_items(dims);
        lemma_squeezed_items(r);
        assert(squeezed(r) =~= rescaled(squeezed(dims), from, to));
    }
}

/// Rescaling strides keeps one list a reordering of another.
proof fn lemma_reordering_rescaled(a: Seq<Dim>, b: Seq<Dim>, from: int, to: int)
    requires
        reordering(a, b),
    ensures
        reordering(rescaled(a, from, to), rescaled(b, from, to)),
    decreases a.len(),
{
    broadcast use group_to_multiset_ensures;

    lemma_reordering(a, b);
    let ra: Seq<Dim> = rescaled(a, from, to);
    let rb: Seq<Dim> = rescaled(b, from, to);
    if a.len() > 0 {
        let d: Dim = a.last();
        let f: Dim = rescale(d, from, to);
        assert(a[a.len() - 1] == d);
        lemma_reordering(b, a);
        let i: int = choose|i: int| 0 <= i < b.len() && b[i] == d;
        to_multiset_remove(a, a.len() - 1);
        to_multiset_remove(b, i);
        assert(a.drop_last() =~= a.remove(a.len() - 1));
        lemma_reordering_rescaled(a.drop_last(), b.remove(i), from, to);
        let ra1: Seq<Dim> = rescaled(a.drop_last(), from, to);
        let rb1: Seq<Dim> = rescaled(b.remove(i), from, to);
        assert(ra =~= ra1.push(f));
        assert(rb =~= rb1.insert(i, f));
        to_multiset_build(ra1, f);
        to_multiset_insert(rb1, i, f);
    } else {
        assert(ra =~= rb);
    }
}

/// Rescaling strides that are multiples keeps dimensions row-major.
proof fn lemma_row_major_rescaled(dims: Seq<Dim>, from: int, to: int)
    requires
        row_major(dims),
        from > 0,
        forall|i: int| 0 <= i < dims.len() ==> (#[trigger] dims[i]).stride % from == 0,
    ensures
        row_major(rescaled(dims, from, to)),
{
    let r: Seq<Dim> = rescaled(dims, from, to);
    assert forall|j: int, k: int| #![trigger r[j], r[k]]
        0 <= j && k == j + 1 && k < r.len() implies steps_over(r[j], r[k]) by {
        let a: int = dims[k].stride;
        let e: int = dims[k].extent as int;
        assert(steps_over(dims[j], dims[k]));
        let q: int = a / from;
        lemma_fundamental_div_mod(a, from);
        assert(a == from * q);
        assert(a * e == from * (q * e)) by (nonlinear_arith)
            requires
                a == from * q,
        ;
        lemma_div_multiples_vanish(q * e, from);
        assert((q * e) * to == (q * to) * e) by (nonlinear_arith);
    }
}

/// A cast tensor is stored densely again, at the accordingly larger or smaller distance.
pub proof fn law_cast_stays_dense<T>(t: TensorModel<T>, target: DigitLayout)
    requires
        cast_allowed(t, target),
    ensures
        dense_dim(cast_tensor(t, target).layout) == Some(
            Dim {
                extent: volume(t.layout.dims),
                stride: dense_dim(t.layout)->Some_0.stride / (t.dt.size as int) * target.size,
            },
        ),
{
    let from: int = t.dt.size as int;
    let to: int = target.size as int;
    let dims: Seq<Dim> = t.layout.dims;
    let r: Seq<Dim> = rescaled(dims, from, to);
    let u: LayoutModel = cast_tensor(t, target).layout;
    let n: int = dims.len() as int;
    assert(extents(r) =~= extents(dims));
    if n >= 2 {
        assert(dims.subrange(0, n) =~= dims);
        assert(r.subrange(0, n) =~= r);
        let inner: Seq<Dim> = squeezed(dims);
        let order: Seq<Dim> = choose|order: Seq<Dim>| nesting(inner, order);
        assert(nesting(inner, order));
        lemma_reordering(inner, order);
        lemma_squeezed_items(dims);
        assert forall|k: int| 0 <= k < order.len() implies (#[trigger] order[k]).stride % from == 0 by {
            let j: int = choose|j: int| 0 <= j < inner.len() && inner[j] == order[k];
            assert(dims.contains(inner[j]));
            let i: int = choose|i: int| 0 <= i < dims.len() && dims[i] == order[k];
            assert(dims[i].stride % from == 0);
        }
        let rorder: Seq<Dim> = rescaled(order, from, to);
        lemma_squeezed_rescaled(dims, from, to);
        lemma_reordering_rescaled(inner, order, from, to);
        lemma_row_major_rescaled(order, from, to);
        let rinner: Seq<Dim> = squeezed(r);
        assert(nesting(rinner, rorder));
        let other: Seq<Dim> = choose|other: Seq<Dim>| nesting(rinner, other);
        lemma_squeezed_items(r);
        assert forall|k: int| 0 <= k < rinner.len() implies (#[trigger] rinner[k]).extent > 0 by {
            assert(rinner[k] == rescale(inner[k], from, to));
            assert(dims.contains(inner[k]));
            let i: int = choose|i: int| 0 <= i < dims.len() && dims[i] == inner[k];
            assert(dims[i].extent > 0);
        }
        lemma_nesting_unique(rinner, rorder, other);
        assert(dense_dim(u) == Some(fused(rorder)));
        assert(order.len() > 0);
        assert(rorder.last() == rescale(order.last(), from, to));
        lemma_dense_volume(u);
    } else {
        lemma_dense_volume(u);
    }
}

/// Fusing the dimensions of a dense tensor stays within machine limits after rescaling their
/// strides to another size.
proof fn lemma_fuse_rescaled(order: Seq<Dim>, from: int, to: int)
    requires
        order.len() > 0,
        row_major(order),
        fuse_fits(order),
        from > 0,
        to > 0,
        order.last().stride != 0,
        forall|k: int| 0 <= k < order.len() ==> {
            &&& (#[trigger] order[k]).stride % from == 0
            &&& in_isize(order[k].stride / from * to)
        },
    ensures
        fuse_fits(rescaled(order, from, to)),
{
    let r: Seq<Dim> = rescaled(order, from, to);
    let n: int = order.len() as int;
    lemma_row_major_rescaled(order, from, to);
    assert forall|k: int| #![trigger r.skip(k)]
        0 <= k < r.len() && row_major(r.skip(k)) implies {
        &&& k > 0 ==> step_fits(volume(r.skip(k)) as int, r.last().stride)
        &&& k < r.len() - 1 ==> volume(r.skip(k)) <= usize::MAX
    } by {
        let q: Seq<Dim> = order.skip(k);
        let rq: Seq<Dim> = r.skip(k);
        assert forall|i: int, j: int| #![trigger q[i], q[j]]
            0 <= i && j == i + 1 && j < q.len() implies steps_over(q[i], q[j]) by {
            assert(q[i] == order[k + i]);
            assert(q[j] == order[k + j]);
        }
        assert(extents(rq) =~= extents(q));
        assert(volume(rq) == volume(q));
        if k > 0 {
            assert(steps_over(r[k - 1], r[k]));
            lemma_row_span(rq);
            assert(rq[0] == r[k]);
            assert(rq.last() == r.last());
            lemma_mul_is_commutative(r[k].stride, r[k].extent as int);
            assert(r[k - 1].stride == order[k - 1].stride / from * to);
        }
    }
}

/// A cast tensor can be asked to merge its dimensions in any order, as the tensor could.
proof fn lemma_cast_merges<T>(t: TensorModel<T>, target: DigitLayout)
    requires
        cast_allowed(t, target),
        target.size > 0,
    ensures
        merge_any_order_allowed(
            cast_tensor(t, target).layout,
            0,
            t.layout.dims.len() as int,
        ),
{
    let from: int = t.dt.size as int;
    let to: int = target.size as int;
    let dims: Seq<Dim> = t.layout.dims;
    let r: Seq<Dim> = rescaled(dims, from, to);
    let n: int = dims.len() as int;
    if n >= 2 {
        assert(dims.subrange(0, n) =~= dims);
        assert(r.subrange(0, n) =~= r);
        assert forall|i: int| 0 <= i < 0 + n implies (#[trigger] r[i]).extent > 0 by {
            assert(dims[i].extent > 0);
        }
        let inner: Seq<Dim> = squeezed(dims);
        let rinner: Seq<Dim> = squeezed(r);
        let order: Seq<Dim> = choose|order: Seq<Dim>| nesting(inner, order);
        assert(nesting(inner, order));
        lemma_reordering(inner, order);
        lemma_squeezed_items(dims);
        assert forall|k: int| 0 <= k < order.len() implies {
            &&& (#[trigger] order[k]).stride % from == 0
            &&& in_isize(order[k].stride / from * to)
            &&& order[k].extent != 1
            &&& order[k].extent > 0
        } by {
            let j: int = choose|j: int| 0 <= j < inner.len() && inner[j] == order[k];
            assert(dims.contains(inner[j]));
            let i: int = choose|i: int| 0 <= i < dims.len() && dims[i] == order[k];
            assert(dims[i].extent > 0);
        }
        assert(order.len() > 0);
        lemma_strictly_descending(order);
        assert(fuse_fits(order));
        let rorder: Seq<Dim> = rescaled(order, from, to);
        lemma_squeezed_rescaled(dims, from, to);
        lemma_reordering_rescaled(inner, order, from, to);
        lemma_row_major_rescaled(order, from, to);
        lemma_fuse_rescaled(order, from, to);
        assert(rorder.last().stride != 0) by {
            lemma_cast_unit(order.last().stride, from, to);
            assert(rorder.last() == rescale(order.last(), from, to));
        }
        lemma_strictly_descending(rorder);
        assert forall|other: Seq<Dim>|
            reordering(rinner, other) && descending(other) implies #[trigger] fuse_fits(other) by {
            lemma_descending_unique(rorder, other);
        }
    }
}

/// A stride of one element of a size becomes one of the other size.
proof fn lemma_cast_unit(stride: int, from: int, to: int)
    requires
        from > 0,
        stride == from || stride == -from,
    ensures
        stride / from * to == (if stride == from {
            to
        } else {
            -to
        }),
{
    let sign: int = if stride == from {
        1
    } else {
        -1
    };
    assert(stride == from * sign) by (nonlinear_arith)
        requires
            sign == 1 && stride == from || sign == -1 && stride == -from,
    ;
    lemma_mul_is_commutative(from, sign);
    lemma_div_multiples_vanish(sign, from);
    assert(sign * to == if sign == 1 {
        to
    } else {
        -to
    }) by (nonlinear_arith)
        requires
            sign == 1 || sign == -1,
    ;
}

/// A cast tensor can be cast back, where the bytes of its elements can be counted, and that
/// gives the same shape and strides, without an offset, and as many bytes as the elements
/// take. Elements that take no bytes are excepted.
pub proof fn law_cast_back<T>(t: TensorModel<T>, target: DigitLayout)
    requires
        cast_allowed(t, target),
        target.size > 0,
        volume(t.layout.dims) * t.dt.size <= usize::MAX,
        forall|i: int|
            0 <= i < t.layout.dims.len() ==> in_isize((#[trigger] t.layout.dims[i]).stride),
    ensures
        cast_allowed(cast_tensor(t, target), t.dt),
        cast_tensor(cast_tensor(t, target), t.dt) == (TensorModel {
            dt: t.dt,
            layout: LayoutModel { offset: 0, ..t.layout },
            physical: (volume(t.layout.dims) * t.dt.size) as usize,
        }),
{
    let from: int = t.dt.size as int;
    let to: int = target.size as int;
    let dims: Seq<Dim> = t.layout.dims;
    let u: TensorModel<usize> = cast_tensor(t, target);
    let r: Seq<Dim> = rescaled(dims, from, to);
    let back: Seq<Dim> = rescaled(r, to, from);
    assert forall|i: int| 0 <= i < dims.len() implies {
        &&& #[trigger] back[i] == dims[i]
        &&& r[i].stride % to == 0
        &&& r[i].stride / to * from == dims[i].stride
    } by {
        let s: int = dims[i].stride;
        let q: int = s / from;
        assert(s % from == 0);
        lemma_fundamental_div_mod(s, from);
        assert(r[i].stride == q * to);
        lemma_mod_multiples_basic(q, to);
        lemma_mul_is_commutative(q, to);
        lemma_div_multiples_vanish(q, to);
        lemma_mul_is_commutative(q, from);
    }
    assert(back =~= dims);
    assert(extents(r) =~= extents(dims));
    law_cast_stays_dense(t, target);
    lemma_cast_unit(dense_dim(t.layout)->Some_0.stride, from, to);
    lemma_cast_merges(t, target);
    assert forall|i: int| 0 <= i < u.layout.dims.len() implies {
        &&& (#[trigger] u.layout.dims[i]).stride % to == 0
        &&& in_isize(u.layout.dims[i].stride / to * from)
    } by {
        assert(back[i] == dims[i]);
    }
    assert(cast_allowed(u, t.dt));
    law_cast_bytes(u, t.dt);
}

/// Casting a new tensor gives the layout of a new tensor of the other type. It can be cast
/// unless it is two or more dimensions with one entry in all.
pub proof fn law_cast_of_new(dt: DigitLayout, target: DigitLayout, shape: Seq<nat>)
    requires
        new_allowed(dt, shape),
        new_allowed(target, shape),
        dt.group == target.group,
        dt.size > 0,
        shape.len() > 0,
        forall|i: int| 0 <= i < shape.len() ==> #[trigger] shape[i] > 0,
        shape.len() == 1 || product(shape) != 1,
    ensures
        cast_allowed(new_tensor(dt, shape), target),
        cast_tensor(new_tensor(dt, shape), target).layout == new_tensor(target, shape).layout,
        cast_tensor(new_tensor(dt, shape), target).physical == product(shape) * target.size,
{
    let t: TensorModel<usize> = new_tensor(dt, shape);
    let m: LayoutModel = t.layout;
    let n: int = m.dims.len() as int;
    let from: int = dt.size as int;
    let to: int = target.size as int;
    lemma_new_is_bounded(dt, shape);
    lemma_bounded_merges(m, 0, n);
    lemma_new_row(dt, shape);
    lemma_contiguous_is_tiled(shape, dt.size as nat);
    assert forall|i: int| 0 <= i < n implies (#[trigger] m.dims[i]).extent > 0 by {
        assert(shape[i] > 0);
    }
    law_merge_in_order_is_in_any_order(m, 0, n);
    assert(dense_dim(m) == row_dim(m));
    let other: Seq<Dim> = new_tensor(target, shape).layout.dims;
    assert forall|i: int| 0 <= i < n implies {
        &&& (#[trigger] m.dims[i]).stride % from == 0
        &&& m.dims[i].stride / from * to == other[i].stride
        &&& in_isize(m.dims[i].stride / from * to)
    } by {
        let v: int = product(shape.skip(i + 1)) as int;
        assert(m.dims[i].stride == from * v);
        lemma_mod_multiples_basic(v, from);
        lemma_mul_is_commutative(v, from);
        lemma_mul_is_commutative(v, to);
        lemma_div_multiples_vanish(v, from);
        assert(to * product(shape.skip(i + 1)) <= isize::MAX);
        assert(to * v >= 0) by (nonlinear_arith)
            requires
                to >= 0,
                v >= 0,
        ;
    }
    assert(rescaled(m.dims, from, to) =~= other);
    assert(cast_allowed(t, target));
}

} // verus!
