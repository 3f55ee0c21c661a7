//! Sums of a measure over a sequence, and how they follow the sequence's
//! edits.

use vstd::prelude::*;

verus! {

/// The sum of `f` over the items of `q`.
pub open spec fn sum_over<T>(q: Seq<T>, f: spec_fn(T) -> nat) -> nat
    decreases q.len(),
{
    if q.len() == 0 {
        0
    } else {
        sum_over(q.drop_last(), f) + f(q.last())
    }
}

/// The sum over a sequence with one more item at its end.
pub proof fn lemma_sum_push<T>(q: Seq<T>, x: T, f: spec_fn(T) -> nat)
    ensures
        sum_over(q.push(x), f) == sum_over(q, f) + f(x),
{
    assert(q.push(x).drop_last() =~= q);
}

/// The sum over two sequences joined is the sum of their sums.
pub proof fn lemma_sum_concat<T>(a: Seq<T>, b: Seq<T>, f: spec_fn(T) -> nat)
    ensures
        sum_over(a + b, f) == sum_over(a, f) + sum_over(b, f),
    decreases b.len(),
{
    if b.len() == 0 {
        assert(a + b =~= a);
    } else {
        lemma_sum_concat(a, b.drop_last(), f);
        assert((a + b).drop_last() =~= a + b.drop_last());
    }
}

/// The sum over a sequence of one item.
pub proof fn lemma_sum_single<T>(x: T, f: spec_fn(T) -> nat)
    ensures
        sum_over(seq![x], f) == f(x),
{
    assert(seq![x].drop_last() =~= Seq::<T>::empty());
    assert(sum_over(Seq::<T>::empty(), f) == 0);
}

/// Inserting an item adds its measure to the sum.
pub proof fn lemma_sum_insert<T>(q: Seq<T>, i: int, x: T, f: spec_fn(T) -> nat)
    requires
        0 <= i <= q.len(),
    ensures
        sum_over(q.insert(i, x), f) == sum_over(q, f) + f(x),
{
    let head = q.take(i);
    let tail = q.skip(i);
    assert(q.insert(i, x) =~= head + seq![x] + tail);
    assert(q =~= head + tail);
    lemma_sum_concat(head, tail, f);
    lemma_sum_concat(head + seq![x], tail, f);
    lemma_sum_concat(head, seq![x], f);
    lemma_sum_single(x, f);
}

/// Removing an item takes its measure from the sum.
pub proof fn lemma_sum_remove<T>(q: Seq<T>, i: int, f: spec_fn(T) -> nat)
    requires
        0 <= i < q.len(),
    ensures
        sum_over(q.remove(i), f) + f(q[i]) == sum_over(q, f),
{
    let rest = q.remove(i);
    assert(rest.insert(i, q[i]) =~= q);
    lemma_sum_insert(rest, i, q[i], f);
}

/// Replacing an item swaps its measure for the new one in the sum.
pub proof fn lemma_sum_update<T>(q: Seq<T>, i: int, x: T, f: spec_fn(T) -> nat)
    requires
        0 <= i < q.len(),
    ensures
        sum_over(q.update(i, x), f) + f(q[i]) == sum_over(q, f) + f(x),
{
    let rest = q.remove(i);
    assert(rest.insert(i, x) =~= q.update(i, x));
    lemma_sum_remove(q, i, f);
    lemma_sum_insert(rest, i, x, f);
}

/// A sum is at most the length times a bound on every item's measure.
pub proof fn lemma_sum_bounded<T>(q: Seq<T>, f: spec_fn(T) -> nat, bound: nat)
    requires
        forall|i: int| 0 <= i < q.len() ==> #[trigger] f(q[i]) <= bound,
    ensures
        sum_over(q, f) <= q.len() * bound,
    decreases q.len(),
{
    if q.len() > 0 {
        let front = q.drop_last();
        assert forall|i: int| 0 <= i < front.len() implies #[trigger] f(front[i]) <= bound by {
            assert(front[i] == q[i]);
        }
        lemma_sum_bounded(front, f, bound);
        assert(f(q[q.len() - 1]) <= bound);
        assert(q.len() * bound == front.len() * bound + bound) by (nonlinear_arith)
            requires
                q.len() == front.len() + 1,
        ;
    } else {
        assert(q.len() * bound == 0) by (nonlinear_arith)
            requires
                q.len() == 0,
        ;
    }
}

} // verus!
