//! Products and sums over sequences of natural numbers.

use vstd::arithmetic::mul::*;
use vstd::prelude::*;

verus! {

/// The product of all items; 1 for the empty sequence.
pub open spec fn product(s: Seq<nat>) -> nat
    decreases s.len(),
{
    if s.len() == 0 {
        1
    } else {
        product(s.drop_last()) * s.last()
    }
}

/// The sum of all items; 0 for the empty sequence.
pub open spec fn sum(s: Seq<nat>) -> nat
    decreases s.len(),
{
    if s.len() == 0 {
        0
    } else {
        sum(s.drop_last()) + s.last()
    }
}

/// The same numbers, without the machine limit.
pub open spec fn widen(s: Seq<usize>) -> Seq<nat> {
    s.map_values(|x: usize| x as nat)
}

/// A product over a concatenation is the product of the two products.
pub proof fn lemma_product_concat(a: Seq<nat>, b: Seq<nat>)
    ensures
        product(a + b) == product(a) * product(b),
    decreases b.len(),
{
    if b.len() == 0 {
        assert(a + b =~= a);
        lemma_mul_basics(product(a) as int);
    } else {
        assert((a + b).drop_last() =~= a + b.drop_last());
        assert((a + b).last() == b.last());
        lemma_product_concat(a, b.drop_last());
        lemma_mul_is_associative(
            product(a) as int,
            product(b.drop_last()) as int,
            b.last() as int,
        );
    }
}

/// The first item can be taken out of a product.
pub proof fn lemma_product_head(s: Seq<nat>)
    requires
        s.len() > 0,
    ensures
        product(s) == s[0] * product(s.skip(1)),
{
    let head: Seq<nat> = seq![s[0]];
    assert(s =~= head + s.skip(1));
    lemma_product_concat(head, s.skip(1));
    assert(product(head) == s[0]) by {
        assert(head.drop_last() =~= Seq::<nat>::empty());
        assert(product(head.drop_last()) == 1);
    }
}

/// A product of positive numbers is positive.
pub proof fn lemma_product_positive(s: Seq<nat>)
    requires
        forall|i: int| 0 <= i < s.len() ==> s[i] > 0,
    ensures
        product(s) > 0,
    decreases s.len(),
{
    if s.len() > 0 {
        lemma_product_positive(s.drop_last());
        assert(s.last() > 0);
        lemma_mul_strictly_positive(product(s.drop_last()) as int, s.last() as int);
    }
}

/// The product of one more number.
pub proof fn lemma_product_push(s: Seq<nat>, x: nat)
    ensures
        product(s.push(x)) == product(s) * x,
{
    assert(s.push(x).drop_last() =~= s);
}

/// The product of one number.
pub proof fn lemma_product_one(a: nat)
    ensures
        product(seq![a]) == a,
{
    assert(seq![a] =~= Seq::<nat>::empty().push(a));
    lemma_product_push(Seq::<nat>::empty(), a);
    lemma_mul_basics(a as int);
}

/// The product of two numbers.
pub proof fn lemma_product_two(a: nat, b: nat)
    ensures
        product(seq![a, b]) == a * b,
{
    assert(seq![a, b] =~= Seq::<nat>::empty().push(a).push(b));
    lemma_product_push(Seq::<nat>::empty().push(a), b);
    lemma_product_push(Seq::<nat>::empty(), a);
    lemma_mul_basics(a as int);
}

/// The product of three numbers.
pub proof fn lemma_product_three(a: nat, b: nat, c: nat)
    ensures
        product(seq![a, b, c]) == a * b * c,
{
    assert(seq![a, b, c] =~= seq![a, b].push(c));
    lemma_product_push(seq![a, b], c);
    lemma_product_two(a, b);
}

/// The sum of a prefix grows by the item that is put behind it.
pub proof fn lemma_sum_step(s: Seq<nat>, k: int)
    requires
        0 <= k < s.len(),
    ensures
        sum(s.take(k + 1)) == sum(s.take(k)) + s[k],
{
    assert(s.take(k + 1).drop_last() =~= s.take(k));
}

/// Multiplies all numbers of `items` together, from the first to the last.
pub fn product_of(items: &[usize]) -> (total: usize)
    requires
        forall|k: int|
            0 <= k <= items@.len() ==> #[trigger] product(widen(items@).take(k)) <= usize::MAX,
    ensures
        total == product(widen(items@)),
{
    let ghost wide: Seq<nat> = widen(items@);
    let mut total: usize = 1;
    let mut k: usize = 0;
    while k < items.len()
        invariant
            k <= items@.len(),
            wide == widen(items@),
            total == product(wide.take(k as int)),
            forall|k: int| 0 <= k <= items@.len() ==> #[trigger] product(wide.take(k)) <= usize::MAX,
        decreases items@.len() - k,
    {
        proof {
            assert(wide.take(k + 1).drop_last() =~= wide.take(k as int));
            assert(wide.take(k + 1).last() == items@[k as int]);
            assert(product(wide.take(k + 1)) <= usize::MAX);
        }
        total = total * items[k];
        k = k + 1;
    }
    assert(wide.take(k as int) =~= wide);
    total
}

} // verus!
