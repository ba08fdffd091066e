//! Adding up measures of a sequence.

use vstd::prelude::*;

verus! {

/// What the items add up to, each measured by `f`.
pub open spec fn sum_of<A>(items: Seq<A>, f: spec_fn(A) -> int) -> int
    decreases items.len(),
{
    if items.len() == 0 {
        0
    } else {
        sum_of(items.drop_last(), f) + f(items.last())
    }
}

/// Exchanging an item changes the sum by what it changes that item.
pub proof fn lemma_sum_update<A>(items: Seq<A>, f: spec_fn(A) -> int, at: int, item: A)
    requires
        0 <= at < items.len(),
    ensures
        sum_of(items.update(at, item), f) == sum_of(items, f) - f(items[at]) + f(item),
    decreases items.len(),
{
    if at < items.len() - 1 {
        lemma_sum_update(items.drop_last(), f, at, item);
        assert(items.update(at, item).drop_last() =~= items.drop_last().update(at, item));
    } else {
        assert(items.update(at, item).drop_last() =~= items.drop_last());
    }
}

/// Taking an item out lessens the sum by it.
pub proof fn lemma_sum_remove<A>(items: Seq<A>, f: spec_fn(A) -> int, at: int)
    requires
        0 <= at < items.len(),
    ensures
        sum_of(items.remove(at), f) == sum_of(items, f) - f(items[at]),
    decreases items.len(),
{
    if at < items.len() - 1 {
        lemma_sum_remove(items.drop_last(), f, at);
        assert(items.remove(at).drop_last() =~= items.drop_last().remove(at));
        assert(items.remove(at).last() == items.last());
    } else {
        assert(items.remove(at) =~= items.drop_last());
    }
}

/// Items that measure nothing add up to nothing.
pub proof fn lemma_sum_zero<A>(items: Seq<A>, f: spec_fn(A) -> int)
    requires
        forall|i: int| 0 <= i < items.len() ==> f(#[trigger] items[i]) == 0,
    ensures
        sum_of(items, f) == 0,
    decreases items.len(),
{
    if items.len() > 0 {
        let front = items.drop_last();
        assert forall|i: int| 0 <= i < front.len() implies f(#[trigger] front[i]) == 0 by {
            assert(front[i] == items[i]);
        }
        assert(f(items[items.len() - 1]) == 0);
        lemma_sum_zero(front, f);
    }
}

/// Where no item measures less than nothing, some of them add up to no more than
/// all of them.
pub proof fn lemma_sum_filter<A>(items: Seq<A>, f: spec_fn(A) -> int, keep: spec_fn(A) -> bool)
    requires
        forall|i: int| 0 <= i < items.len() ==> f(#[trigger] items[i]) >= 0,
    ensures
        0 <= sum_of(items.filter(keep), f) <= sum_of(items, f),
    decreases items.len(),
{
    reveal(Seq::filter);
    if items.len() > 0 {
        let front = items.drop_last();
        let last = items.last();
        assert forall|i: int| 0 <= i < front.len() implies f(#[trigger] front[i]) >= 0 by {
            assert(front[i] == items[i]);
        }
        assert(f(items[items.len() - 1]) >= 0);
        lemma_sum_filter(front, f, keep);
        if keep(last) {
            assert(front.filter(keep).push(last).drop_last() =~= front.filter(keep));
        }
    }
}

/// The order of the items makes no difference to their sum.
pub proof fn lemma_sum_permuted<A>(items: Seq<A>, f: spec_fn(A) -> int, order: Seq<usize>)
    requires
        crate::order::permutes(order, items.len()),
        items.len() <= usize::MAX,
    ensures
        sum_of(order, |i: usize| f(items[i as int])) == sum_of(items, f),
    decreases items.len(),
{
    let g = |i: usize| f(items[i as int]);
    if items.len() > 0 {
        let front = items.drop_last();
        let n = front.len();
        assert(order.contains(n as usize));
        let at = choose|at: int| 0 <= at < order.len() && order[at] == n as usize;
        let rest = order.remove(at);
        assert forall|i: int| 0 <= i < rest.len() implies #[trigger] rest[i] < n by {
            let was = if i < at {
                i
            } else {
                i + 1
            };
            assert(rest[i] == order[was]);
            if was < at {
                assert(order[was] != order[at]);
            } else {
                assert(order[at] != order[was]);
            }
        }
        assert forall|i: int, j: int|
            #![trigger rest[i], rest[j]]
            0 <= i < j < rest.len() implies rest[i] != rest[j] by {
            let a = if i < at {
                i
            } else {
                i + 1
            };
            let b = if j < at {
                j
            } else {
                j + 1
            };
            assert(rest[i] == order[a] && rest[j] == order[b]);
        }
        assert forall|x: usize| x < n implies #[trigger] rest.contains(x) by {
            assert(order.contains(x));
            let was = choose|was: int| 0 <= was < order.len() && order[was] == x;
            if was < at {
                assert(rest[was] == x);
            } else {
                assert(rest[was - 1] == x);
            }
        }
        lemma_sum_permuted(front, f, rest);
        lemma_sum_remove(order, g, at);
        lemma_sum_same(rest, g, |i: usize| f(front[i as int]));
    }
}

/// Measures that agree on the items give the same sum.
pub proof fn lemma_sum_same<A>(items: Seq<A>, f: spec_fn(A) -> int, g: spec_fn(A) -> int)
    requires
        forall|i: int| 0 <= i < items.len() ==> f(#[trigger] items[i]) == g(items[i]),
    ensures
        sum_of(items, f) == sum_of(items, g),
    decreases items.len(),
{
    if items.len() > 0 {
        let front = items.drop_last();
        assert forall|i: int| 0 <= i < front.len() implies f(#[trigger] front[i]) == g(front[i]) by {
            assert(front[i] == items[i]);
        }
        assert(f(items[items.len() - 1]) == g(items[items.len() - 1]));
        lemma_sum_same(front, f, g);
    }
}

/// Two sequences whose items measure the same, place by place, add up to the
/// same.
pub proof fn lemma_sum_pairwise<A, B>(
    a: Seq<A>,
    f: spec_fn(A) -> int,
    b: Seq<B>,
    g: spec_fn(B) -> int,
)
    requires
        a.len() == b.len(),
        forall|i: int| #![trigger a[i]] #![trigger b[i]] 0 <= i < a.len() ==> f(a[i]) == g(b[i]),
    ensures
        sum_of(a, f) == sum_of(b, g),
    decreases a.len(),
{
    if a.len() > 0 {
        let c = a.drop_last();
        let d = b.drop_last();
        assert forall|i: int|
            #![trigger c[i]]
            #![trigger d[i]]
            0 <= i < c.len() implies f(c[i]) == g(d[i]) by {
            assert(c[i] == a[i] && d[i] == b[i]);
        }
        assert(f(a[a.len() - 1]) == g(b[b.len() - 1]));
        lemma_sum_pairwise(c, f, d, g);
    }
}

} // verus!
