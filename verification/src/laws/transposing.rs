//! What transposing the axes of a layout gives.

use crate::laws::address::{address, steps};
use crate::layout::{rank, transpose_allowed, transposed, Dim, LayoutModel};
use vstd::prelude::*;
use vstd::seq_lib::*;
use vstd::set_lib::*;

verus! {

/// Whether `perm` lists every axis of an `ndim`-dimensional layout once.
pub open spec fn permutation(ndim: nat, perm: Seq<usize>) -> bool {
    transpose_allowed(ndim, perm) && perm.len() == ndim
}

/// The same numbers, as mathematical integers.
spec fn axes(perm: Seq<usize>) -> Seq<int> {
    perm.map_values(|p: usize| p as int)
}

/// Picking items keeps them distinct.
proof fn lemma_filter_distinct(s: Seq<usize>, keep: spec_fn(usize) -> bool)
    requires
        s.no_duplicates(),
    ensures
        s.filter(keep).no_duplicates(),
    decreases s.len(),
{
    broadcast use group_filter_ensures;

    reveal(Seq::filter);
    if s.len() > 0 {
        let init: Seq<usize> = s.drop_last();
        let f: Seq<usize> = init.filter(keep);
        assert(init.no_duplicates()) by {
            assert forall|i: int, j: int|
                0 <= i < init.len() && 0 <= j < init.len() && i != j implies init[i] != init[j] by {
                assert(s[i] != s[j]);
            }
        }
        lemma_filter_distinct(init, keep);
        assert(!f.contains(s.last())) by {
            if f.contains(s.last()) {
                init.lemma_filter_contains_rev(keep, s.last());
                let j: int = choose|j: int| 0 <= j < init.len() && init[j] == s.last();
                assert(s[j] != s[s.len() - 1]);
            }
        }
    }
}

/// Distinct axes stay distinct as mathematical integers.
proof fn lemma_axes_distinct(perm: Seq<usize>)
    requires
        perm.no_duplicates(),
    ensures
        axes(perm).no_duplicates(),
{
    assert forall|i: int, j: int|
        0 <= i < axes(perm).len() && 0 <= j < axes(perm).len() && i != j implies axes(perm)[i]
        != axes(perm)[j] by {
        assert(perm[i] != perm[j]);
    }
}

/// A permutation lists every axis, and each axis has as many before it as its number.
proof fn lemma_permutation(ndim: nat, perm: Seq<usize>, axis: int)
    requires
        permutation(ndim, perm),
        0 <= axis < ndim,
        ndim <= usize::MAX,
    ensures
        perm.contains(axis as usize),
        rank(perm, axis) == axis,
{
    let all: Set<int> = set_int_range(0, ndim as int);
    let a: Seq<int> = axes(perm);
    lemma_axes_distinct(perm);
    a.unique_seq_to_set();
    assert(a.to_set().subset_of(all)) by {
        assert forall|x: int| a.to_set().contains(x) implies all.contains(x) by {
            let i: int = choose|i: int| 0 <= i < a.len() && a[i] == x;
            assert(perm[i] < ndim);
        }
    }
    lemma_int_range(0, ndim as int);
    lemma_subset_equality(a.to_set(), all);
    assert forall|x: usize| x < ndim implies #[trigger] perm.contains(x) by {
        assert(all.contains(x as int));
        assert(a.to_set().contains(x as int));
        let i: int = choose|i: int| 0 <= i < a.len() && a[i] == x;
        assert(perm[i] == x);
    }
    broadcast use group_filter_ensures;

    let below = |p: usize| p < axis;
    let f: Seq<usize> = perm.filter(below);
    let g: Seq<int> = axes(f);
    let few: Set<int> = set_int_range(0, axis);
    lemma_filter_distinct(perm, below);
    lemma_axes_distinct(f);
    g.unique_seq_to_set();
    lemma_int_range(0, axis);
    assert(g.to_set() =~= few) by {
        assert forall|x: int| g.to_set().contains(x) implies few.contains(x) by {
            let i: int = choose|i: int| 0 <= i < g.len() && g[i] == x;
            assert(below(f[i]));
        }
        assert forall|x: int| few.contains(x) implies g.to_set().contains(x) by {
            assert(perm.contains(x as usize));
            assert(below(x as usize));
            let k: int = choose|k: int| 0 <= k < perm.len() && perm[k] == x as usize;
            perm.lemma_filter_contains(below, k);
            let i: int = choose|i: int| 0 <= i < f.len() && f[i] == x as usize;
            assert(g[i] == x);
        }
    }
    assert(rank(perm, axis) == f.len());
}

/// Transposing all axes puts the dimension `perm[i]` in place `i`.
pub proof fn law_transpose_permutes(dims: Seq<Dim>, perm: Seq<usize>)
    requires
        permutation(dims.len(), perm),
        dims.len() <= usize::MAX,
    ensures
        transposed(dims, perm) == Seq::new(dims.len(), |i: int| dims[perm[i] as int]),
        completed(dims.len(), perm) == perm,
{
    assert forall|i: int| 0 <= i < dims.len() implies {
        &&& transposed(dims, perm)[i] == dims[perm[i] as int]
        &&& completed(dims.len(), perm)[i] == perm[i]
    } by {
        lemma_permutation(dims.len(), perm, i);
    }
    assert(completed(dims.len(), perm) =~= perm);
    assert(transposed(dims, perm) =~= Seq::new(dims.len(), |i: int| dims[perm[i] as int]));
}

/// The permutation of all axes that a transposition of some of them amounts to: place `i`
/// gets the dimension `completed(ndim, perm)[i]`.
pub open spec fn completed(ndim: nat, perm: Seq<usize>) -> Seq<usize> {
    Seq::new(
        ndim,
        |i: int|
            if perm.contains(i as usize) {
                perm[rank(perm, i) as int]
            } else {
                i as usize
            },
    )
}

/// Fewer items lie below a smaller bound, where the bound itself is one of them.
proof fn lemma_rank_order(perm: Seq<usize>, i: int, j: int)
    requires
        0 <= i < j <= usize::MAX,
    ensures
        rank(perm, i) <= rank(perm, j),
        perm.contains(i as usize) ==> rank(perm, i) < rank(perm, j),
    decreases perm.len(),
{
    reveal(Seq::filter);
    if perm.len() > 0 {
        let init: Seq<usize> = perm.drop_last();
        lemma_rank_order(init, i, j);
        if perm.contains(i as usize) && perm.last() != i {
            let k: int = choose|k: int| 0 <= k < perm.len() && perm[k] == i as usize;
            assert(init[k] == i as usize);
        }
    }
}

/// Not all items lie below a bound that is one of them.
proof fn lemma_rank_bound(perm: Seq<usize>, i: int)
    requires
        0 <= i <= usize::MAX,
    ensures
        rank(perm, i) <= perm.len(),
        perm.contains(i as usize) ==> rank(perm, i) < perm.len(),
    decreases perm.len(),
{
    reveal(Seq::filter);
    if perm.len() > 0 {
        let init: Seq<usize> = perm.drop_last();
        lemma_rank_bound(init, i);
        if perm.contains(i as usize) && perm.last() != i {
            let k: int = choose|k: int| 0 <= k < perm.len() && perm[k] == i as usize;
            assert(init[k] == i as usize);
        }
    }
}

/// Transposing some axes is a permutation of all of them.
pub proof fn law_transpose_some(dims: Seq<Dim>, perm: Seq<usize>)
    requires
        transpose_allowed(dims.len(), perm),
        dims.len() <= usize::MAX,
    ensures
        permutation(dims.len(), completed(dims.len(), perm)),
        transposed(dims, perm) == transposed(dims, completed(dims.len(), perm)),
{
    let full: Seq<usize> = completed(dims.len(), perm);
    assert forall|i: int| 0 <= i < dims.len() implies {
        &&& #[trigger] full[i] < dims.len()
        &&& perm.contains(full[i]) == perm.contains(i as usize)
    } by {
        lemma_rank_bound(perm, i);
    }
    assert forall|i: int, j: int| 0 <= i < j < dims.len() implies full[i] != full[j] by {
        assert(perm.contains(full[i]) == perm.contains(i as usize));
        assert(perm.contains(full[j]) == perm.contains(j as usize));
        lemma_rank_bound(perm, i);
        lemma_rank_bound(perm, j);
        lemma_rank_order(perm, i, j);
    }
    assert(full.no_duplicates());
    law_transpose_permutes(dims, full);
    assert(transposed(dims, perm) =~= transposed(dims, full));
}

/// Transposing by the inverse undoes a transposition.
pub proof fn law_transpose_back(dims: Seq<Dim>, perm: Seq<usize>, inverse: Seq<usize>)
    requires
        transpose_allowed(dims.len(), perm),
        transpose_allowed(dims.len(), inverse),
        dims.len() <= usize::MAX,
        forall|i: int|
            0 <= i < dims.len() ==> completed(dims.len(), perm)[(#[trigger] completed(
                dims.len(),
                inverse,
            )[i]) as int] == i,
    ensures
        transposed(transposed(dims, perm), inverse) == dims,
{
    let there: Seq<usize> = completed(dims.len(), perm);
    let back: Seq<usize> = completed(dims.len(), inverse);
    law_transpose_some(dims, perm);
    law_transpose_some(transposed(dims, perm), inverse);
    law_transpose_permutes(dims, there);
    law_transpose_permutes(transposed(dims, perm), back);
    assert forall|i: int| 0 <= i < dims.len() implies transposed(transposed(dims, perm), inverse)[i]
        == dims[i] by {
        assert(back[i] < dims.len());
        assert(there[back[i] as int] == i);
    }
    assert(transposed(transposed(dims, perm), inverse) =~= dims);
}

/// The sum of `f` over all axes below `n` that `chosen` lists.
spec fn total_chosen(f: spec_fn(int) -> int, chosen: Seq<int>, n: int) -> int
    decreases n,
{
    if n <= 0 {
        0
    } else {
        total_chosen(f, chosen, n - 1) + if chosen.contains(n - 1) {
            f(n - 1)
        } else {
            0
        }
    }
}

/// The sum of `f` over a list of axes.
spec fn total_listed(f: spec_fn(int) -> int, listed: Seq<int>) -> int
    decreases listed.len(),
{
    if listed.len() == 0 {
        0
    } else {
        total_listed(f, listed.drop_last()) + f(listed.last())
    }
}

/// Listing one more axis adds its share.
proof fn lemma_total_push(f: spec_fn(int) -> int, chosen: Seq<int>, v: int, n: int)
    requires
        !chosen.contains(v),
        0 <= v,
    ensures
        total_chosen(f, chosen.push(v), n) == total_chosen(f, chosen, n) + if v < n {
            f(v)
        } else {
            0
        },
    decreases n,
{
    if n > 0 {
        lemma_total_push(f, chosen, v, n - 1);
        assert(chosen.push(v).contains(n - 1) <==> chosen.contains(n - 1) || v == n - 1) by {
            if chosen.contains(n - 1) {
                let i: int = choose|i: int| 0 <= i < chosen.len() && chosen[i] == n - 1;
                assert(chosen.push(v)[i] == n - 1);
            }
            if v == n - 1 {
                assert(chosen.push(v)[chosen.len() as int] == n - 1);
            }
        }
    }
}

/// A sum over distinct axes does not depend on the order in which they are listed.
proof fn lemma_total_listed(f: spec_fn(int) -> int, listed: Seq<int>, n: int)
    requires
        listed.no_duplicates(),
        forall|i: int| 0 <= i < listed.len() ==> 0 <= #[trigger] listed[i] < n,
    ensures
        total_listed(f, listed) == total_chosen(f, listed, n),
    decreases listed.len(),
{
    if listed.len() > 0 {
        let init: Seq<int> = listed.drop_last();
        let v: int = listed.last();
        assert(listed[listed.len() - 1] == v);
        assert forall|i: int| 0 <= i < init.len() implies 0 <= #[trigger] init[i] < n by {
            assert(init[i] == listed[i]);
        }
        assert(!init.contains(v)) by {
            if init.contains(v) {
                let i: int = choose|i: int| 0 <= i < init.len() && init[i] == v;
                assert(listed[i] != listed[listed.len() - 1]);
            }
        }
        assert forall|i: int, j: int|
            0 <= i < init.len() && 0 <= j < init.len() && i != j implies init[i] != init[j] by {
            assert(listed[i] != listed[j]);
        }
        lemma_total_listed(f, init, n);
        lemma_total_push(f, init, v, n);
        assert(listed =~= init.push(v));
    } else {
        lemma_total_none(f, listed, n);
    }
}

/// A sum over no axes is zero.
proof fn lemma_total_none(f: spec_fn(int) -> int, chosen: Seq<int>, n: int)
    requires
        chosen.len() == 0,
    ensures
        total_chosen(f, chosen, n) == 0,
    decreases n,
{
    if n > 0 {
        lemma_total_none(f, chosen, n - 1);
    }
}

/// Two lists of the same axes give the same sum.
proof fn lemma_total_same(f: spec_fn(int) -> int, a: Seq<int>, b: Seq<int>, n: int)
    requires
        forall|i: int| 0 <= i < n ==> a.contains(i) == b.contains(i),
    ensures
        total_chosen(f, a, n) == total_chosen(f, b, n),
    decreases n,
{
    if n > 0 {
        lemma_total_same(f, a, b, n - 1);
        assert(a.contains(n - 1) == b.contains(n - 1));
    }
}

/// A distance is the sum over all axes, in the order of `listed`, of position times stride.
proof fn lemma_steps_listed(dims: Seq<Dim>, at: Seq<int>, listed: Seq<int>, f: spec_fn(int) -> int)
    requires
        dims.len() == listed.len(),
        at.len() == listed.len(),
        forall|i: int| 0 <= i < listed.len() ==> f(#[trigger] listed[i]) == at[i] * dims[i].stride,
    ensures
        steps(dims, at) == total_listed(f, listed),
    decreases listed.len(),
{
    if listed.len() > 0 {
        let n: int = listed.len() as int;
        assert(f(listed[n - 1]) == at[n - 1] * dims[n - 1].stride);
        assert forall|i: int| 0 <= i < n - 1 implies f(#[trigger] listed.drop_last()[i])
            == at.drop_last()[i] * dims.drop_last()[i].stride by {
            assert(f(listed[i]) == at[i] * dims[i].stride);
        }
        lemma_steps_listed(dims.drop_last(), at.drop_last(), listed.drop_last(), f);
    }
}

/// Transposing keeps every element where it is: position `at` is found where each of its
/// numbers moves along with its axis.
pub proof fn law_transpose_address(m: LayoutModel, perm: Seq<usize>, at: Seq<int>)
    requires
        transpose_allowed(m.dims.len(), perm),
        m.dims.len() <= usize::MAX,
        at.len() == m.dims.len(),
    ensures
        address(
            LayoutModel { dims: transposed(m.dims, perm), ..m },
            Seq::new(at.len(), |i: int| at[completed(at.len(), perm)[i] as int]),
        ) == address(m, at),
{
    let n: int = m.dims.len() as int;
    let full: Seq<usize> = completed(m.dims.len(), perm);
    let f = |i: int| at[i] * m.dims[i].stride;
    let order: Seq<int> = axes(full);
    let plain: Seq<int> = Seq::new(m.dims.len(), |i: int| i);
    let moved: Seq<int> = Seq::new(at.len(), |i: int| at[completed(at.len(), perm)[i] as int]);
    law_transpose_some(m.dims, perm);
    law_transpose_permutes(m.dims, full);
    lemma_axes_distinct(full);
    assert forall|i: int| 0 <= i < order.len() implies f(#[trigger] order[i]) == moved[i]
        * transposed(m.dims, perm)[i].stride by {
        assert(full[i] < m.dims.len());
    }
    lemma_steps_listed(transposed(m.dims, perm), moved, order, f);
    lemma_steps_listed(m.dims, at, plain, f);
    assert forall|i: int| 0 <= i < order.len() implies 0 <= #[trigger] order[i] < n by {
        assert(full[i] < m.dims.len());
    }
    lemma_total_listed(f, order, n);
    lemma_total_listed(f, plain, n);
    assert forall|i: int| 0 <= i < n implies order.contains(i) == plain.contains(i) by {
        lemma_permutation(m.dims.len(), full, i);
        let k: int = choose|k: int| 0 <= k < full.len() && full[k] == i as usize;
        assert(order[k] == i);
        assert(plain[i] == i);
    }
    lemma_total_same(f, order, plain, n);
}

} // verus!
