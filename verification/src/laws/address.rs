//! Where elements are stored, and how the transformations of a layout keep track of it.

use crate::layout::{
    broadcast_allowed, div_up, in_isize, indexed, part, part_start, repeated, slice_allowed,
    slice_first, slice_len, sliced, split_allowed, step_fits, Dim, LayoutModel,
};
use crate::product::{lemma_sum_step, sum};
use vstd::arithmetic::mul::*;
use vstd::prelude::*;

verus! {

/// The distance in bytes from the first element to the one at position `at`.
pub open spec fn steps(dims: Seq<Dim>, at: Seq<int>) -> int
    decreases dims.len(),
{
    if dims.len() == 0 {
        0
    } else {
        steps(dims.drop_last(), at.drop_last()) + at.last() * dims.last().stride
    }
}

/// Where the element at position `at` is stored.
pub open spec fn address(m: LayoutModel, at: Seq<int>) -> int {
    m.offset + steps(m.dims, at)
}

/// The number of the entry at position `at` when the entries are counted row by row.
pub open spec fn flat_index(shape: Seq<nat>, at: Seq<int>) -> int
    decreases shape.len(),
{
    if shape.len() == 0 {
        0
    } else {
        flat_index(shape.drop_last(), at.drop_last()) * shape.last() + at.last()
    }
}

/// Distances along two lists of dimensions add up.
pub proof fn lemma_steps_concat(a: Seq<Dim>, b: Seq<Dim>, x: Seq<int>, y: Seq<int>)
    requires
        a.len() == x.len(),
        b.len() == y.len(),
    ensures
        steps(a + b, x + y) == steps(a, x) + steps(b, y),
    decreases b.len(),
{
    if b.len() == 0 {
        assert(a + b =~= a);
        assert(x + y =~= x);
    } else {
        assert((a + b).drop_last() =~= a + b.drop_last());
        assert((x + y).drop_last() =~= x + y.drop_last());
        assert((a + b).last() == b.last());
        assert((x + y).last() == y.last());
        lemma_steps_concat(a, b.drop_last(), x, y.drop_last());
    }
}

/// The distance along one dimension.
pub proof fn lemma_steps_one(d: Dim, i: int)
    ensures
        steps(seq![d], seq![i]) == i * d.stride,
{
    assert(seq![d].drop_last() =~= Seq::<Dim>::empty());
    assert(steps(seq![d].drop_last(), seq![i].drop_last()) == 0);
}

/// A distance, taken apart at one axis.
pub proof fn lemma_steps_at(dims: Seq<Dim>, at: Seq<int>, axis: int)
    requires
        dims.len() == at.len(),
        0 <= axis < dims.len(),
    ensures
        steps(dims, at) == steps(dims.take(axis), at.take(axis)) + at[axis] * dims[axis].stride
            + steps(dims.skip(axis + 1), at.skip(axis + 1)),
{
    let d: Seq<Dim> = seq![dims[axis]];
    let i: Seq<int> = seq![at[axis]];
    assert(dims =~= dims.take(axis) + (d + dims.skip(axis + 1)));
    assert(at =~= at.take(axis) + (i + at.skip(axis + 1)));
    lemma_steps_concat(
        dims.take(axis),
        d + dims.skip(axis + 1),
        at.take(axis),
        i + at.skip(axis + 1),
    );
    lemma_steps_concat(d, dims.skip(axis + 1), i, at.skip(axis + 1));
    lemma_steps_one(dims[axis], at[axis]);
}

/// Indexing an axis gives the entries at that position: each is stored where the position
/// was put back into its place.
pub proof fn law_index_address(m: LayoutModel, axis: int, index: int, at: Seq<int>)
    requires
        0 <= axis < m.dims.len(),
        at.len() == m.dims.len() - 1,
    ensures
        address(indexed(m, axis, index), at) == address(m, at.insert(axis, index)),
{
    let back: Seq<int> = at.insert(axis, index);
    lemma_steps_at(m.dims, back, axis);
    assert(m.dims.remove(axis) =~= m.dims.take(axis) + m.dims.skip(axis + 1));
    assert(at =~= back.take(axis) + back.skip(axis + 1));
    lemma_steps_concat(
        m.dims.take(axis),
        m.dims.skip(axis + 1),
        back.take(axis),
        back.skip(axis + 1),
    );
}

/// Changing one dimension and one position changes a distance by that dimension's share.
proof fn lemma_steps_update(dims: Seq<Dim>, at: Seq<int>, axis: int, d: Dim, i: int)
    requires
        dims.len() == at.len(),
        0 <= axis < dims.len(),
    ensures
        steps(dims.update(axis, d), at) - at[axis] * d.stride == steps(dims, at.update(axis, i))
            - i * dims[axis].stride,
{
    let dims2: Seq<Dim> = dims.update(axis, d);
    let at2: Seq<int> = at.update(axis, i);
    lemma_steps_at(dims2, at, axis);
    lemma_steps_at(dims, at2, axis);
    assert(dims2.take(axis) =~= dims.take(axis));
    assert(dims2.skip(axis + 1) =~= dims.skip(axis + 1));
    assert(at2.take(axis) =~= at.take(axis));
    assert(at2.skip(axis + 1) =~= at.skip(axis + 1));
}

/// Slicing an axis gives every `step`-th entry of it, from the first on.
pub proof fn law_slice_address(
    m: LayoutModel,
    axis: int,
    start: int,
    step: int,
    len: nat,
    at: Seq<int>,
)
    requires
        0 <= axis < m.dims.len(),
        at.len() == m.dims.len(),
    ensures
        address(sliced(m, axis, start, step, len), at) == address(
            m,
            at.update(axis, slice_first(m.dims[axis].extent, start, step) + step * at[axis]),
        ),
{
    let d: Dim = m.dims[axis];
    let first: int = slice_first(d.extent, start, step);
    let cut: Dim = Dim {
        extent: slice_len(d.extent, start, step, len),
        stride: d.stride * step,
    };
    lemma_steps_update(m.dims, at, axis, cut, first + step * at[axis]);
    assert((first + step * at[axis]) * d.stride == first * d.stride + at[axis] * (d.stride * step))
        by (nonlinear_arith);
}

/// Every entry of a slice is an entry of the axis that was cut.
pub proof fn law_slice_stays_inside(
    m: LayoutModel,
    axis: int,
    start: int,
    step: int,
    len: nat,
    i: int,
)
    requires
        0 <= axis < m.dims.len(),
        slice_allowed(m, axis, start, step),
        0 <= i < sliced(m, axis, start, step, len).dims[axis].extent,
    ensures
        0 <= slice_first(m.dims[axis].extent, start, step) + step * i < m.dims[axis].extent,
{
    let extent: nat = m.dims[axis].extent;
    let first: int = slice_first(extent, start, step);
    if step > 0 {
        lemma_div_up(extent - start, step, i);
        assert(step * i >= 0) by (nonlinear_arith)
            requires
                step > 0,
                i >= 0,
        ;
    } else if step < 0 {
        lemma_div_up(first + 1, -step, i);
        assert((-step) * i == -(step * i)) by (nonlinear_arith);
        assert(step * i <= 0) by (nonlinear_arith)
            requires
                step < 0,
                i >= 0,
        ;
    }
}

/// A slice has as many entries as were asked for, or as many as there are in its direction:
/// all of them lie on the axis, and where there are fewer than asked for, the next one would
/// not.
pub proof fn law_slice_is_longest(m: LayoutModel, axis: int, start: int, step: int, len: nat)
    requires
        0 <= axis < m.dims.len(),
        slice_allowed(m, axis, start, step),
    ensures
        ({
            let extent: nat = m.dims[axis].extent;
            let first: int = if step < 0 && start >= extent {
                extent - 1
            } else {
                start
            };
            let n: nat = sliced(m, axis, start, step, len).dims[axis].extent;
            &&& n <= len
            &&& n > 0 ==> 0 <= first + step * (n - 1) < extent
            &&& n < len ==> !(0 <= first + step * n < extent)
        }),
{
    let extent: nat = m.dims[axis].extent;
    let first: int = slice_first(extent, start, step);
    let n: nat = sliced(m, axis, start, step, len).dims[axis].extent;
    if step > 0 {
        lemma_div_up_reached(extent - start, step);
    } else if step < 0 {
        lemma_div_up_reached(first + 1, -step);
        assert((-step) * n == -(step * n)) by (nonlinear_arith);
    }
    if n > 0 {
        law_slice_stays_inside(m, axis, start, step, len, n - 1);
    }
}

/// A quotient that was rounded up reaches the dividend, and is not below zero.
proof fn lemma_div_up_reached(a: int, b: int)
    requires
        b > 0,
        a > 0,
    ensures
        b * div_up(a, b) >= a,
        div_up(a, b) >= 0,
{
    vstd::arithmetic::div_mod::lemma_fundamental_div_mod(a + b - 1, b);
    vstd::arithmetic::div_mod::lemma_mod_bound(a + b - 1, b);
    vstd::arithmetic::div_mod::lemma_div_pos_is_pos(a + b - 1, b);
}

/// Anything below a quotient that was rounded up stays below the dividend.
proof fn lemma_div_up(a: int, b: int, i: int)
    requires
        b > 0,
        a > 0,
        i < div_up(a, b),
    ensures
        b * i < a,
{
    let q: int = (a + b - 1) / b;
    vstd::arithmetic::div_mod::lemma_fundamental_div_mod(a + b - 1, b);
    vstd::arithmetic::div_mod::lemma_mod_bound(a + b - 1, b);
    assert(b * q <= a + b - 1);
    assert(b * (i + 1) <= b * q) by (nonlinear_arith)
        requires
            b > 0,
            i + 1 <= q,
    ;
    assert(b * (i + 1) == b * i + b) by (nonlinear_arith);
}

/// Repeating an axis gives its one entry at every position.
pub proof fn law_broadcast_address(m: LayoutModel, axis: int, times: nat, at: Seq<int>)
    requires
        broadcast_allowed(m.dims, axis),
        at.len() == m.dims.len(),
    ensures
        address(LayoutModel { dims: repeated(m.dims, axis, times), ..m }, at) == address(
            m,
            at.update(axis, 0),
        ),
{
    lemma_steps_update(m.dims, at, axis, Dim { extent: times, stride: 0 }, 0);
}

/// Cutting an axis into parts gives consecutive runs of its entries.
pub proof fn law_split_address(
    m: LayoutModel,
    axis: int,
    parts: Seq<nat>,
    k: int,
    at: Seq<int>,
)
    requires
        0 <= axis < m.dims.len(),
        0 <= k < parts.len(),
        at.len() == m.dims.len(),
    ensures
        address(part(m, axis, parts, k), at) == address(
            m,
            at.update(axis, part_start(parts, k) + at[axis]),
        ),
{
    let stride: int = m.dims[axis].stride;
    let begin: int = part_start(parts, k) as int;
    lemma_steps_update(
        m.dims,
        at,
        axis,
        Dim { extent: parts[k], stride },
        begin + at[axis],
    );
    assert((begin + at[axis]) * stride == begin * stride + at[axis] * stride) by (nonlinear_arith);
}

/// The part that an entry of a cut axis belongs to.
proof fn lemma_part_of(parts: Seq<nat>, n: int, i: int) -> (k: int)
    requires
        0 <= n <= parts.len(),
        0 <= i < part_start(parts, n),
    ensures
        0 <= k < n,
        part_start(parts, k) <= i < part_start(parts, k) + parts[k],
    decreases n,
{
    if n == 0 {
        assert(parts.take(0).len() == 0);
        assert(false);
        0
    } else {
        lemma_sum_step(parts, n - 1);
        if i >= part_start(parts, n - 1) {
            n - 1
        } else {
            lemma_part_of(parts, n - 1, i)
        }
    }
}

/// A part begins where those before it end, or later.
proof fn lemma_part_order(parts: Seq<nat>, j: int, k: int)
    requires
        0 <= j < k <= parts.len(),
    ensures
        part_start(parts, j) + parts[j] <= part_start(parts, k),
    decreases k - j,
{
    lemma_sum_step(parts, j);
    if j + 1 < k {
        lemma_part_order(parts, j + 1, k);
    }
}

/// An axis can be cut into any parts that make it up and of which the last is not empty,
/// where its entries can be reached.
pub proof fn law_split_is_allowed(m: LayoutModel, axis: int, parts: Seq<nat>)
    requires
        0 <= axis < m.dims.len(),
        sum(parts) == m.dims[axis].extent,
        parts.len() > 0 ==> parts.last() > 0,
        in_isize(m.offset),
        m.dims[axis].extent > 0 ==> {
            &&& step_fits(m.dims[axis].extent - 1, m.dims[axis].stride)
            &&& in_isize(m.offset + (m.dims[axis].extent - 1) * m.dims[axis].stride)
        },
    ensures
        split_allowed(m, axis, parts),
{
    let n: int = parts.len() as int;
    let end: int = m.dims[axis].extent - 1;
    let stride: int = m.dims[axis].stride;
    assert(parts.take(n) =~= parts);
    assert forall|k: int| 0 <= k < n implies {
        &&& #[trigger] part_start(parts, k) < m.dims[axis].extent
        &&& step_fits(part_start(parts, k) as int, stride)
        &&& in_isize(m.offset + part_start(parts, k) * stride)
    } by {
        let begin: int = part_start(parts, k) as int;
        if k < n - 1 {
            lemma_part_order(parts, k, n - 1);
        }
        lemma_part_order(parts, n - 1, n);
        assert(0 <= begin <= end);
        assert(stride >= 0 ==> 0 <= begin * stride <= end * stride) by (nonlinear_arith)
            requires
                0 <= begin <= end,
        ;
        assert(stride <= 0 ==> end * stride <= begin * stride <= 0) by (nonlinear_arith)
            requires
                0 <= begin <= end,
        ;
    }
}

/// The parts of a cut axis hold every entry of it, and none of them twice.
pub proof fn law_split_covers(m: LayoutModel, axis: int, parts: Seq<nat>, i: int)
    requires
        split_allowed(m, axis, parts),
        0 <= i < m.dims[axis].extent,
    ensures
        exists|k: int|
            0 <= k < parts.len() && #[trigger] part_start(parts, k) <= i < part_start(parts, k)
                + parts[k],
        forall|j: int, k: int| #![trigger part_start(parts, j), part_start(parts, k)]
            0 <= j < parts.len() && 0 <= k < parts.len() && part_start(parts, j) <= i
                < part_start(parts, j) + parts[j] && part_start(parts, k) <= i
                < part_start(parts, k) + parts[k] ==> j == k,
{
    assert(parts.take(parts.len() as int) =~= parts);
    let k: int = lemma_part_of(parts, parts.len() as int, i);
    assert(part_start(parts, k) <= i < part_start(parts, k) + parts[k]);
    assert forall|j: int, k: int| #![trigger part_start(parts, j), part_start(parts, k)]
        0 <= j < parts.len() && 0 <= k < parts.len() && part_start(parts, j) <= i < part_start(
            parts,
            j,
        ) + parts[j] && part_start(parts, k) <= i < part_start(parts, k) + parts[k] implies j
        == k by {
        if j < k {
            lemma_part_order(parts, j, k);
        } else if k < j {
            lemma_part_order(parts, k, j);
        }
    }
}

} // verus!
