//! When dimensions can be merged, and what merging gives.

use crate::laws::address::{address, flat_index, lemma_steps_concat, lemma_steps_one, steps};
use crate::layout::{
    descending, extents, fuse_fits, fused, in_isize, merge_allowed, merge_any_order_allowed,
    merged, reordering, replaced, row_major, squeezed, step_fits, steps_over, tile_allowed,
    tile_dims, tiled, volume, Dim, LayoutModel,
};
use crate::product::{
    lemma_product_concat, lemma_product_head, lemma_product_one, lemma_product_positive, product,
};
use crate::tensor::{neighbours_merge, row_dim};
use vstd::arithmetic::mul::*;
use vstd::prelude::*;
use vstd::seq_lib::*;

verus! {

/// Leaving out dimensions with one entry, one dimension at a time.
pub proof fn lemma_squeezed_step(dims: Seq<Dim>)
    requires
        dims.len() > 0,
    ensures
        squeezed(dims) == (if dims.last().extent != 1 {
            squeezed(dims.drop_last()).push(dims.last())
        } else {
            squeezed(dims.drop_last())
        }),
{
    reveal(Seq::filter);
}

/// Leaving out dimensions with one entry keeps no such dimension, and no other goes.
pub proof fn lemma_squeezed_items(dims: Seq<Dim>)
    ensures
        forall|i: int|
            0 <= i < squeezed(dims).len() ==> (#[trigger] squeezed(dims)[i]).extent != 1
                && dims.contains(squeezed(dims)[i]),
        (forall|i: int| 0 <= i < dims.len() ==> (#[trigger] dims[i]).extent != 1) ==> squeezed(dims)
            == dims,
    decreases dims.len(),
{
    if dims.len() > 0 {
        let init: Seq<Dim> = dims.drop_last();
        lemma_squeezed_step(dims);
        lemma_squeezed_items(init);
        assert forall|i: int| 0 <= i < squeezed(dims).len() implies (#[trigger] squeezed(dims)[i]).extent
            != 1 && dims.contains(squeezed(dims)[i]) by {
            if i < squeezed(init).len() {
                let d: Dim = squeezed(init)[i];
                assert(squeezed(dims)[i] == d);
                let j: int = choose|j: int| 0 <= j < init.len() && init[j] == d;
                assert(dims[j] == d);
            } else {
                assert(squeezed(dims)[i] == dims[dims.len() - 1]);
            }
        }
        if forall|i: int| 0 <= i < dims.len() ==> (#[trigger] dims[i]).extent != 1 {
            assert forall|i: int| 0 <= i < init.len() implies (#[trigger] init[i]).extent != 1 by {
                assert(init[i] == dims[i]);
            }
            assert(dims[dims.len() - 1].extent != 1);
            assert(squeezed(dims) =~= dims);
        }
    } else {
        reveal(Seq::filter);
        assert(squeezed(dims) =~= dims);
    }
}

/// A volume, one dimension at a time.
pub proof fn lemma_volume_push(dims: Seq<Dim>, d: Dim)
    ensures
        volume(dims.push(d)) == volume(dims) * d.extent,
{
    assert(extents(dims.push(d)).drop_last() =~= extents(dims));
    assert(extents(dims.push(d)).last() == d.extent);
}

/// No dimensions span one element.
pub proof fn lemma_volume_empty()
    ensures
        volume(Seq::<Dim>::empty()) == 1,
{
    assert(extents(Seq::<Dim>::empty()) =~= Seq::<nat>::empty());
}

/// Leaving out dimensions with one entry keeps the number of elements.
pub proof fn lemma_volume_squeezed(dims: Seq<Dim>)
    ensures
        volume(squeezed(dims)) == volume(dims),
    decreases dims.len(),
{
    if dims.len() == 0 {
        lemma_squeezed_items(dims);
    } else {
        let init: Seq<Dim> = dims.drop_last();
        lemma_squeezed_step(dims);
        lemma_volume_squeezed(init);
        assert(dims =~= init.push(dims.last()));
        lemma_volume_push(init, dims.last());
        if dims.last().extent != 1 {
            lemma_volume_push(squeezed(init), dims.last());
        } else {
            lemma_mul_basics(volume(init) as int);
        }
    }
}

/// A position within the bounds of all dimensions.
pub open spec fn inside(dims: Seq<Dim>, at: Seq<int>) -> bool {
    &&& at.len() == dims.len()
    &&& forall|i: int| 0 <= i < dims.len() ==> 0 <= #[trigger] at[i] < dims[i].extent
}

/// Along dimensions that are row-major but for those with one entry, elements lie one
/// stride apart in the order in which they are counted.
pub proof fn lemma_row_steps(dims: Seq<Dim>, at: Seq<int>)
    requires
        row_major(squeezed(dims)),
        inside(dims, at),
    ensures
        steps(dims, at) == flat_index(extents(dims), at) * fused(squeezed(dims)).stride,
        squeezed(dims).len() == 0 ==> flat_index(extents(dims), at) == 0,
    decreases dims.len(),
{
    if dims.len() > 0 {
        let init: Seq<Dim> = dims.drop_last();
        let last: Dim = dims.last();
        let before: Seq<int> = at.drop_last();
        let p: Seq<Dim> = squeezed(init);
        lemma_squeezed_step(dims);
        assert(extents(dims).drop_last() =~= extents(init));
        assert(at[dims.len() - 1] == at.last());
        assert forall|i: int| 0 <= i < init.len() implies 0 <= #[trigger] before[i] < init[i].extent by {
            assert(before[i] == at[i]);
        }
        let flat: int = flat_index(extents(init), before);
        if last.extent == 1 {
            lemma_row_steps(init, before);
            assert(flat * 1 + at.last() == flat);
            lemma_mul_basics(last.stride);
            lemma_mul_basics(flat);
        } else {
            let q: Seq<Dim> = squeezed(dims);
            assert forall|j: int, k: int| #![trigger p[j], p[k]]
                0 <= j && k == j + 1 && k < p.len() implies steps_over(p[j], p[k]) by {
                assert(q[j] == p[j]);
                assert(q[k] == p[k]);
            }
            lemma_row_steps(init, before);
            let s: int = last.stride;
            let e: int = last.extent as int;
            let i: int = at.last();
            assert(q.last() == last);
            if p.len() > 0 {
                assert(q[p.len() - 1] == p.last());
                assert(q[p.len() as int] == last);
                assert(p.last().stride == s * e);
                assert(flat * (s * e) + i * s == (flat * e + i) * s) by (nonlinear_arith);
            } else {
                assert(flat == 0);
                lemma_mul_basics(fused(p).stride);
                lemma_mul_basics(e);
            }
        }
    }
}

/// Merging keeps every element where it is, and counts the elements of the merged
/// dimensions row by row.
pub proof fn law_merge_address(
    m: LayoutModel,
    start: int,
    len: int,
    front: Seq<int>,
    at: Seq<int>,
    back: Seq<int>,
)
    requires
        0 <= start,
        2 <= len,
        start + len <= m.dims.len(),
        merged(m, start, len) is Some,
        front.len() == start,
        inside(m.dims.subrange(start, start + len), at),
        back.len() == m.dims.len() - start - len,
    ensures
        address(
            merged(m, start, len)->Some_0,
            front + seq![flat_index(extents(m.dims.subrange(start, start + len)), at)] + back,
        ) == address(m, front + at + back),
{
    let range: Seq<Dim> = m.dims.subrange(start, start + len);
    let head: Seq<Dim> = m.dims.take(start);
    let tail: Seq<Dim> = m.dims.skip(start + len);
    let d: Dim = fused(squeezed(range));
    let i: int = flat_index(extents(range), at);
    lemma_row_steps(range, at);
    assert(m.dims =~= head + range + tail);
    lemma_steps_concat(head + range, tail, front + at, back);
    lemma_steps_concat(head, range, front, at);
    assert(head.push(d) =~= head + seq![d]);
    lemma_steps_concat(head + seq![d], tail, front + seq![i], back);
    lemma_steps_concat(head, seq![d], front, seq![i]);
    lemma_steps_one(d, i);
}

/// Merging keeps the number of elements: the merged dimension has them all.
pub proof fn law_merge_volume(m: LayoutModel, start: int, len: int)
    requires
        0 <= start,
        2 <= len,
        start + len <= m.dims.len(),
        merged(m, start, len) is Some,
    ensures
        merged(m, start, len)->Some_0.dims.len() == m.dims.len() - len + 1,
        merged(m, start, len)->Some_0.dims[start].extent == volume(
            m.dims.subrange(start, start + len),
        ),
{
    let range: Seq<Dim> = m.dims.subrange(start, start + len);
    lemma_volume_squeezed(range);
    if squeezed(range).len() == 0 {
        assert(squeezed(range) =~= Seq::<Dim>::empty());
        lemma_volume_empty();
    }
}

/// Where all dimensions can be merged into one, that one has all elements.
pub proof fn law_row_volume(m: LayoutModel)
    requires
        m.dims.len() > 0,
        row_dim(m) is Some,
    ensures
        row_dim(m)->Some_0.extent == volume(m.dims),
{
    let n: int = m.dims.len() as int;
    if n >= 2 {
        law_merge_volume(m, 0, n);
        assert(m.dims.subrange(0, n) =~= m.dims);
    } else {
        assert(extents(m.dims) =~= seq![m.dims[0].extent]);
        lemma_product_one(m.dims[0].extent);
    }
}

/// The tiles of a dimension, one at a time.
proof fn lemma_tile_dims_step(stride: int, tiles: Seq<nat>)
    requires
        tiles.len() > 0,
    ensures
        tile_dims(stride, tiles) == tile_dims(stride * tiles.last(), tiles.drop_last()).push(
            Dim { extent: tiles.last(), stride },
        ),
{
    let init: Seq<nat> = tiles.drop_last();
    let last: nat = tiles.last();
    let left: Seq<Dim> = tile_dims(stride, tiles);
    let right: Seq<Dim> = tile_dims(stride * last, init).push(Dim { extent: last, stride });
    assert forall|k: int| 0 <= k < tiles.len() implies left[k] == right[k] by {
        if k < init.len() {
            let rest: Seq<nat> = tiles.skip(k + 1);
            assert(rest.drop_last() =~= init.skip(k + 1));
            assert(rest.last() == last);
            let v: int = product(init.skip(k + 1)) as int;
            assert(stride * (v * last) == (stride * last) * v) by (nonlinear_arith);
        } else {
            assert(tiles.skip(k + 1) =~= Seq::<nat>::empty());
            lemma_mul_basics(stride);
        }
    }
    assert(left =~= right);
}

/// The extents of tiles are the tiles.
pub proof fn lemma_tile_extents(stride: int, tiles: Seq<nat>)
    ensures
        extents(tile_dims(stride, tiles)) == tiles,
{
    assert(extents(tile_dims(stride, tiles)) =~= tiles);
}

/// Tiles are row-major but for those with one entry, and step by the stride of what was
/// split.
pub proof fn lemma_tiles_row_major(stride: int, tiles: Seq<nat>)
    ensures
        row_major(squeezed(tile_dims(stride, tiles))),
        squeezed(tile_dims(stride, tiles)).len() > 0 ==> squeezed(
            tile_dims(stride, tiles),
        ).last().stride == stride,
        squeezed(tile_dims(stride, tiles)).len() == 0 ==> product(tiles) == 1,
    decreases tiles.len(),
{
    let dims: Seq<Dim> = tile_dims(stride, tiles);
    let q: Seq<Dim> = squeezed(dims);
    if tiles.len() > 0 {
        let init: Seq<nat> = tiles.drop_last();
        let last: nat = tiles.last();
        let p: Seq<Dim> = squeezed(tile_dims(stride * last, init));
        lemma_tile_dims_step(stride, tiles);
        lemma_squeezed_step(dims);
        assert(dims.drop_last() =~= tile_dims(stride * last, init));
        lemma_tiles_row_major(stride * last, init);
        if last == 1 {
            lemma_mul_basics(stride);
        } else {
            assert forall|j: int, k: int| #![trigger q[j], q[k]]
                0 <= j && k == j + 1 && k < q.len() implies steps_over(q[j], q[k]) by {
                assert(q[j] == p[j]);
                if k < p.len() {
                    assert(q[k] == p[k]);
                } else {
                    assert(p[j] == p.last());
                }
            }
        }
    } else {
        assert(dims =~= Seq::<Dim>::empty());
        lemma_squeezed_items(dims);
    }
}

/// Along tiles, elements lie one stride apart in the order in which they are counted.
proof fn lemma_tile_steps(stride: int, tiles: Seq<nat>, at: Seq<int>)
    requires
        at.len() == tiles.len(),
    ensures
        steps(tile_dims(stride, tiles), at) == flat_index(tiles, at) * stride,
    decreases tiles.len(),
{
    if tiles.len() > 0 {
        let init: Seq<nat> = tiles.drop_last();
        let last: int = tiles.last() as int;
        let dims: Seq<Dim> = tile_dims(stride, tiles);
        lemma_tile_dims_step(stride, tiles);
        assert(dims.drop_last() =~= tile_dims(stride * last, init));
        lemma_tile_steps(stride * last, init, at.drop_last());
        let flat: int = flat_index(init, at.drop_last());
        let i: int = at.last();
        assert(flat * (stride * last) + i * stride == (flat * last + i) * stride)
            by (nonlinear_arith);
    }
}

/// Tiling keeps every element where it is, and counts the entries of the tiled axis row by
/// row.
pub proof fn law_tile_address(
    m: LayoutModel,
    axis: int,
    tiles: Seq<nat>,
    front: Seq<int>,
    at: Seq<int>,
    back: Seq<int>,
)
    requires
        0 <= axis < m.dims.len(),
        front.len() == axis,
        at.len() == tiles.len(),
        back.len() == m.dims.len() - axis - 1,
    ensures
        address(LayoutModel { dims: tiled(m.dims, axis, tiles), ..m }, front + at + back)
            == address(m, front + seq![flat_index(tiles, at)] + back),
{
    let d: Dim = m.dims[axis];
    let head: Seq<Dim> = m.dims.take(axis);
    let tail: Seq<Dim> = m.dims.skip(axis + 1);
    let inner: Seq<Dim> = tile_dims(d.stride, tiles);
    let i: int = flat_index(tiles, at);
    lemma_tile_steps(d.stride, tiles, at);
    lemma_steps_concat(head + inner, tail, front + at, back);
    lemma_steps_concat(head, inner, front, at);
    assert(m.dims =~= head + seq![d] + tail);
    lemma_steps_concat(head + seq![d], tail, front + seq![i], back);
    lemma_steps_concat(head, seq![d], front, seq![i]);
    lemma_steps_one(d, i);
}

/// Any run of row-major dimensions is row-major.
proof fn lemma_row_major_run(a: Seq<Dim>, b: Seq<Dim>, c: Seq<Dim>)
    requires
        row_major(a + b + c),
    ensures
        row_major(b),
{
    let all: Seq<Dim> = a + b + c;
    assert forall|j: int, k: int| #![trigger b[j], b[k]]
        0 <= j && k == j + 1 && k < b.len() implies steps_over(b[j], b[k]) by {
        assert(all[a.len() + j] == b[j]);
        assert(all[a.len() + k] == b[k]);
    }
}

/// Where all dimensions can be merged into one, any two neighbours can be merged.
pub proof fn law_whole_merges_neighbours(m: LayoutModel)
    requires
        row_dim(m) is Some,
    ensures
        neighbours_merge(m),
{
    let n: int = m.dims.len() as int;
    assert forall|i: int| 0 <= i < n - 1 implies #[trigger] merged(m, i, 2) is Some by {
        let a: Seq<Dim> = m.dims.take(i);
        let b: Seq<Dim> = m.dims.subrange(i, i + 2);
        let c: Seq<Dim> = m.dims.skip(i + 2);
        assert(m.dims.subrange(0, n) =~= a + b + c);
        let keep = |d: Dim| d.extent != 1;
        Seq::filter_distributes_over_add(a + b, c, keep);
        Seq::filter_distributes_over_add(a, b, keep);
        lemma_row_major_run(squeezed(a), squeezed(b), squeezed(c));
    }
}

/// Where any two neighbours can be merged and no dimension has just one entry, all
/// dimensions can be merged into one.
pub proof fn law_neighbours_merge_whole(m: LayoutModel)
    requires
        neighbours_merge(m),
        forall|i: int| 0 <= i < m.dims.len() ==> (#[trigger] m.dims[i]).extent != 1,
    ensures
        row_dim(m) is Some,
{
    let n: int = m.dims.len() as int;
    if n >= 2 {
        assert(m.dims.subrange(0, n) =~= m.dims);
        lemma_squeezed_items(m.dims);
        assert forall|j: int, k: int| #![trigger m.dims[j], m.dims[k]]
            0 <= j && k == j + 1 && k < n implies steps_over(m.dims[j], m.dims[k]) by {
            assert(merged(m, j, 2) is Some);
            let pair: Seq<Dim> = m.dims.subrange(j, j + 2);
            assert(pair[0] == m.dims[j] && pair[1] == m.dims[k]);
            lemma_squeezed_items(pair);
            assert(squeezed(pair) == pair);
            assert(row_major(pair));
            assert(steps_over(pair[0], pair[1]));
        }
    }
}

/// Dimensions that have entries, whose spans and whose number of elements fit an `isize`.
/// Where nothing moves, the number of elements need only fit a `usize`.
pub open spec fn bounded(dims: Seq<Dim>) -> bool {
    &&& forall|i: int|
        0 <= i < dims.len() ==> (#[trigger] dims[i]).extent > 0 && in_isize(
            dims[i].extent * dims[i].stride,
        )
    &&& volume(dims) <= usize::MAX
    &&& volume(dims) <= isize::MAX || (forall|i: int|
        0 <= i < dims.len() ==> (#[trigger] dims[i]).stride == 0)
}

/// Row-major dimensions span as many bytes as the first of them.
pub proof fn lemma_row_span(dims: Seq<Dim>)
    requires
        row_major(dims),
        dims.len() > 0,
    ensures
        volume(dims) * dims.last().stride == dims[0].extent * dims[0].stride,
    decreases dims.len(),
{
    let rest: Seq<Dim> = dims.skip(1);
    let e: int = dims[0].extent as int;
    let s: int = dims.last().stride;
    assert(extents(dims).skip(1) =~= extents(rest));
    lemma_product_head(extents(dims));
    if dims.len() == 1 {
        assert(rest =~= Seq::<Dim>::empty());
        lemma_volume_empty();
        lemma_mul_basics(e);
    } else {
        assert forall|j: int, k: int| #![trigger rest[j], rest[k]]
            0 <= j && k == j + 1 && k < rest.len() implies steps_over(rest[j], rest[k]) by {
            assert(dims[j + 1] == rest[j]);
            assert(dims[k + 1] == rest[k]);
        }
        lemma_row_span(rest);
        let v: int = volume(rest) as int;
        assert(steps_over(dims[0], dims[1]));
        assert(rest[0] == dims[1]);
        lemma_mul_is_commutative(dims[1].stride, dims[1].extent as int);
        assert((e * v) * s == e * (v * s)) by (nonlinear_arith);
    }
}

/// A volume, taken apart.
pub proof fn lemma_volume_concat(a: Seq<Dim>, b: Seq<Dim>)
    ensures
        volume(a + b) == volume(a) * volume(b),
{
    assert(extents(a + b) =~= extents(a) + extents(b));
    lemma_product_concat(extents(a), extents(b));
}

/// Dimensions that have entries span at least one element.
pub proof fn lemma_volume_positive(dims: Seq<Dim>)
    requires
        forall|i: int| 0 <= i < dims.len() ==> (#[trigger] dims[i]).extent > 0,
    ensures
        volume(dims) > 0,
{
    assert forall|i: int| 0 <= i < extents(dims).len() implies extents(dims)[i] > 0 by {
        assert(extents(dims)[i] == dims[i].extent);
    }
    lemma_product_positive(extents(dims));
}

/// A run of dimensions that have entries spans no more elements than all of them.
proof fn lemma_volume_run(a: Seq<Dim>, b: Seq<Dim>, c: Seq<Dim>)
    requires
        forall|i: int| 0 <= i < a.len() ==> (#[trigger] a[i]).extent > 0,
        forall|i: int| 0 <= i < c.len() ==> (#[trigger] c[i]).extent > 0,
    ensures
        volume(b) <= volume(a + b + c),
{
    lemma_volume_concat(a + b, c);
    lemma_volume_concat(a, b);
    lemma_volume_positive(a);
    lemma_volume_positive(c);
    let (x, y, z): (int, int, int) = (volume(a) as int, volume(b) as int, volume(c) as int);
    assert(y <= x * y * z) by (nonlinear_arith)
        requires
            x >= 1,
            y >= 0,
            z >= 1,
    ;
}

/// Fusing the tiles of an axis stays within machine limits.
proof fn lemma_tiles_fuse(dims: Seq<Dim>, axis: int, tiles: Seq<nat>)
    requires
        tile_allowed(dims, axis, tiles),
        dims[axis].extent <= usize::MAX,
    ensures
        fuse_fits(squeezed(tile_dims(dims[axis].stride, tiles))),
{
    let none: Seq<Dim> = Seq::empty();
    let stride: int = dims[axis].stride;
    let extent: int = dims[axis].extent as int;
    let inner: Seq<Dim> = tile_dims(stride, tiles);
    let q: Seq<Dim> = squeezed(inner);
    lemma_tiles_row_major(stride, tiles);
    lemma_tile_extents(stride, tiles);
    lemma_volume_squeezed(inner);
    lemma_squeezed_items(inner);
    assert forall|i: int| 0 <= i < q.len() implies (#[trigger] q[i]).extent > 0 by {
        let j: int = choose|j: int| 0 <= j < inner.len() && inner[j] == q[i];
        assert(tiles[j] > 0);
    }
    assert forall|k: int| #![trigger q.skip(k)]
        0 <= k < q.len() && row_major(q.skip(k)) implies {
        &&& k > 0 ==> step_fits(volume(q.skip(k)) as int, q.last().stride)
        &&& k < q.len() - 1 ==> volume(q.skip(k)) <= usize::MAX
    } by {
        let v: int = volume(q.skip(k)) as int;
        assert(q =~= q.take(k) + q.skip(k) + none);
        lemma_volume_run(q.take(k), q.skip(k), none);
        assert(0 <= v <= extent);
        assert(stride >= 0 ==> 0 <= v * stride <= extent * stride) by (nonlinear_arith)
            requires
                0 <= v <= extent,
        ;
        assert(stride <= 0 ==> extent * stride <= v * stride <= 0) by (nonlinear_arith)
            requires
                0 <= v <= extent,
        ;
    }
}

/// Merging the tiles of an axis undoes the tiling. An axis of one entry comes back too,
/// unless its tiles are merged into one that stands still where it did not before, or there
/// are no tiles at all. The tiles can always be asked to merge.
pub proof fn law_merge_undoes_tile(m: LayoutModel, axis: int, tiles: Seq<nat>)
    requires
        tile_allowed(m.dims, axis, tiles),
        m.dims[axis].extent != 1 || tiles.len() == 1 || (tiles.len() >= 2 && m.dims[axis].stride
            == 0),
        m.dims[axis].extent <= usize::MAX,
    ensures
        merge_allowed(
            LayoutModel { dims: tiled(m.dims, axis, tiles), ..m },
            axis,
            tiles.len() as int,
        ),
        merged(
            LayoutModel { dims: tiled(m.dims, axis, tiles), ..m },
            axis,
            tiles.len() as int,
        ) == Some(m),
{
    let d: Dim = m.dims[axis];
    let n: int = tiles.len() as int;
    let t: Seq<Dim> = tiled(m.dims, axis, tiles);
    let inner: Seq<Dim> = tile_dims(d.stride, tiles);
    assert(t.subrange(axis, axis + n) =~= inner);
    if n == 1 {
        assert(tiles.drop_last() =~= Seq::<nat>::empty());
        assert(product(tiles.drop_last()) == 1);
        assert(product(tiles) == 1 * tiles[0]);
        assert(tiles.skip(1) =~= Seq::<nat>::empty());
        lemma_mul_basics(d.stride);
        lemma_mul_basics(tiles[0] as int);
        assert(inner[0] == d);
        assert(t =~= m.dims);
    } else if n == 0 {
        assert(tiles =~= Seq::<nat>::empty());
        assert(false);
    } else {
        lemma_tiles_row_major(d.stride, tiles);
        lemma_volume_squeezed(inner);
        lemma_tile_extents(d.stride, tiles);
        assert(fused(squeezed(inner)) == d);
        lemma_tiles_fuse(m.dims, axis, tiles);
        assert forall|i: int| axis <= i < axis + n implies (#[trigger] t[i]).extent > 0 by {
            assert(tiles[i - axis] > 0);
        }
        assert(replaced(t, axis, n, d) =~= m.dims);
    }
}

/// Fusing bounded dimensions stays within machine limits.
proof fn lemma_bounded_fuses(dims: Seq<Dim>)
    requires
        bounded(dims),
    ensures
        fuse_fits(dims),
{
    let none: Seq<Dim> = Seq::empty();
    assert forall|k: int| #![trigger dims.skip(k)]
        0 <= k < dims.len() && row_major(dims.skip(k)) implies {
        &&& k > 0 ==> step_fits(volume(dims.skip(k)) as int, dims.last().stride)
        &&& k < dims.len() - 1 ==> volume(dims.skip(k)) <= usize::MAX
    } by {
        let q: Seq<Dim> = dims.skip(k);
        lemma_row_span(q);
        assert(q[0] == dims[k]);
        assert(q.last() == dims.last());
        assert(dims[dims.len() - 1] == dims.last());
        assert(dims =~= dims.take(k) + q + none);
        lemma_volume_run(dims.take(k), q, none);
    }
}

/// Reordering keeps the number of elements and which dimensions there are.
pub proof fn lemma_reordering(a: Seq<Dim>, b: Seq<Dim>)
    requires
        reordering(a, b),
    ensures
        a.len() == b.len(),
        volume(a) == volume(b),
        forall|i: int| 0 <= i < b.len() ==> a.contains(#[trigger] b[i]),
    decreases a.len(),
{
    broadcast use group_to_multiset_ensures;
    to_multiset_len(a);
    to_multiset_len(b);
    if a.len() > 0 {
        let d: Dim = a.last();
        to_multiset_contains(a, d);
        assert(a[a.len() - 1] == d);
        assert(b.to_multiset().count(d) > 0);
        to_multiset_contains(b, d);
        let i: int = choose|i: int| 0 <= i < b.len() && b[i] == d;
        let a1: Seq<Dim> = a.drop_last();
        let b1: Seq<Dim> = b.remove(i);
        assert(a1 =~= a.remove(a.len() - 1));
        to_multiset_remove(a, a.len() - 1);
        to_multiset_remove(b, i);
        lemma_reordering(a1, b1);
        assert(a =~= a1.push(d));
        lemma_volume_push(a1, d);
        let front: Seq<Dim> = b.take(i);
        let back: Seq<Dim> = b.skip(i + 1);
        assert(b1 =~= front + back);
        assert(b =~= front.push(d) + back);
        lemma_volume_concat(front, back);
        lemma_volume_concat(front.push(d), back);
        lemma_volume_push(front, d);
        let (x, y, z): (int, int, int) = (volume(front) as int, volume(back) as int, d.extent as int);
        assert(x * y * z == x * z * y) by (nonlinear_arith);
        assert forall|j: int| 0 <= j < b.len() implies a.contains(#[trigger] b[j]) by {
            to_multiset_contains(b, b[j]);
            to_multiset_contains(a, b[j]);
        }
    } else {
        assert(a =~= b);
    }
}

/// Bounded dimensions stay bounded when some are left out and the others reordered.
proof fn lemma_bounded_subset(dims: Seq<Dim>, some: Seq<Dim>)
    requires
        bounded(dims),
        volume(some) <= volume(dims),
        forall|i: int| 0 <= i < some.len() ==> dims.contains(#[trigger] some[i]),
    ensures
        bounded(some),
{
    assert forall|i: int| 0 <= i < some.len() implies (#[trigger] some[i]).extent > 0 && in_isize(
        some[i].extent * some[i].stride,
    ) && (volume(dims) > isize::MAX ==> some[i].stride == 0) by {
        let j: int = choose|j: int| 0 <= j < dims.len() && dims[j] == some[i];
        assert(dims[j].extent > 0);
    }
}

/// Bounded layouts can be asked to merge any of their dimensions, in order or in any order.
pub proof fn lemma_bounded_merges(m: LayoutModel, start: int, len: int)
    requires
        bounded(m.dims),
        0 <= start,
        0 <= len,
        start + len <= m.dims.len(),
    ensures
        merge_allowed(m, start, len),
        merge_any_order_allowed(m, start, len),
{
    let range: Seq<Dim> = m.dims.subrange(start, start + len);
    let inner: Seq<Dim> = squeezed(range);
    assert(m.dims =~= m.dims.take(start) + range + m.dims.skip(start + len));
    lemma_volume_run(m.dims.take(start), range, m.dims.skip(start + len));
    lemma_volume_squeezed(range);
    lemma_squeezed_items(range);
    assert forall|i: int| 0 <= i < inner.len() implies m.dims.contains(#[trigger] inner[i]) by {
        let j: int = choose|j: int| 0 <= j < range.len() && range[j] == inner[i];
        assert(m.dims[start + j] == inner[i]);
    }
    lemma_bounded_subset(m.dims, inner);
    lemma_bounded_fuses(inner);
    assert forall|order: Seq<Dim>|
        reordering(inner, order) && descending(order) implies #[trigger] fuse_fits(order) by {
        lemma_reordering(inner, order);
        lemma_bounded_subset(inner, order);
        lemma_bounded_fuses(order);
    }
}

} // verus!
