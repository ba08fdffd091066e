//! Percentiles by nearest rank.

use vstd::prelude::*;

use crate::order::{order_by, Ascending};

verus! {

/// The percentiles of a non-empty set of samples.
#[derive(Clone, Copy, Debug, PartialEq, Eq)]
pub struct Percentiles {
    pub p25: u64,
    pub p50: u64,
    pub p75: u64,
    pub p90: u64,
    pub p95: u64,
    pub p99: u64,
    pub max: u64,
    pub samples: usize,
}

/// How many samples do not exceed `value`.
pub open spec fn at_most(samples: Seq<u64>, value: u64) -> nat {
    Set::new(|i: usize| i < samples.len() && samples[i as int] <= value).len()
}

/// How many samples lie below `value`.
pub open spec fn below(samples: Seq<u64>, value: u64) -> nat {
    Set::new(|i: usize| i < samples.len() && samples[i as int] < value).len()
}

/// Whether `value` is the smallest sample that at least `percent` per cent of
/// the samples do not exceed.
pub open spec fn nearest_rank(samples: Seq<u64>, percent: int, value: u64) -> bool {
    &&& samples.contains(value)
    &&& 100 * at_most(samples, value) >= percent * samples.len()
    &&& 100 * below(samples, value) < percent * samples.len()
}

/// Whether `value` is the greatest sample.
pub open spec fn greatest(samples: Seq<u64>, value: u64) -> bool {
    &&& samples.contains(value)
    &&& forall|i: int| 0 <= i < samples.len() ==> samples[i] <= value
}

/// Whether `p` holds the percentiles of `samples`.
pub open spec fn describes(p: Percentiles, samples: Seq<u64>) -> bool {
    &&& nearest_rank(samples, 25, p.p25)
    &&& nearest_rank(samples, 50, p.p50)
    &&& nearest_rank(samples, 75, p.p75)
    &&& nearest_rank(samples, 90, p.p90)
    &&& nearest_rank(samples, 95, p.p95)
    &&& nearest_rank(samples, 99, p.p99)
    &&& greatest(samples, p.max)
    &&& p.samples == samples.len()
}

/// Whether `order` lists the positions of `samples` from the smallest sample to
/// the greatest.
pub closed spec fn sorts(samples: Seq<u64>, order: Seq<usize>) -> bool {
    &&& order.len() == samples.len()
    &&& order.no_duplicates()
    &&& forall|i: int| 0 <= i < order.len() ==> #[trigger] order[i] < samples.len()
    &&& forall|i: int, j: int|
        #![trigger order[i], order[j]]
        0 <= i <= j < order.len() ==> samples[order[i] as int] <= samples[order[j] as int]
    &&& forall|x: usize| x < samples.len() ==> #[trigger] order.contains(x)
}

/// The sample at position `k` of the sorted samples has at most `k` below it,
/// and at least `k + 1` that do not exceed it.
proof fn lemma_sorted_counts(samples: Seq<u64>, order: Seq<usize>, k: int)
    requires
        sorts(samples, order),
        0 <= k < order.len(),
    ensures
        at_most(samples, samples[order[k] as int]) >= k + 1,
        below(samples, samples[order[k] as int]) <= k,
        samples.contains(samples[order[k] as int]),
{
    let value = samples[order[k] as int];
    let all = order.to_set();
    let upto = Set::new(|i: usize| i < samples.len() && samples[i as int] <= value);
    let under = Set::new(|i: usize| i < samples.len() && samples[i as int] < value);
    let head = order.take(k + 1);
    let lead = order.take(k);
    assert(head.no_duplicates());
    assert(lead.no_duplicates());
    head.unique_seq_to_set();
    lead.unique_seq_to_set();
    assert(upto.subset_of(all)) by {
        assert forall|i: usize| upto.contains(i) implies all.contains(i) by {
            assert(order.contains(i));
        }
    }
    assert(head.to_set().subset_of(upto)) by {
        assert forall|i: usize| head.to_set().contains(i) implies upto.contains(i) by {
            let p = choose|p: int| 0 <= p < head.len() && head[p] == i;
            assert(order[p] == i);
        }
    }
    assert(under.subset_of(lead.to_set())) by {
        assert forall|i: usize| under.contains(i) implies lead.to_set().contains(i) by {
            assert(order.contains(i));
            let p = choose|p: int| 0 <= p < order.len() && order[p] == i;
            if p >= k {
                assert(samples[order[k] as int] <= samples[order[p] as int]);
            }
            assert(lead[p] == i);
        }
    }
    vstd::set_lib::lemma_len_subset(upto, all);
    vstd::set_lib::lemma_len_subset(head.to_set(), upto);
    vstd::set_lib::lemma_len_subset(under, lead.to_set());
}

/// The sample at a nearest rank, by the positions of the sorted samples.
fn at_rank(samples: &[u64], order: &Vec<usize>, percent: u8) -> (value: u64)
    requires
        sorts(samples@, order@),
        samples.len() > 0,
        0 < percent <= 100,
    ensures
        nearest_rank(samples@, percent as int, value),
{
    let n: u128 = samples.len() as u128;
    assert(n <= n * percent <= n * 100) by (nonlinear_arith)
        requires
            0 < percent <= 100,
            n >= 0,
    ;
    let rank: u128 = (n * percent as u128 + 99) / 100;
    assert(1 <= rank <= n);
    let k: usize = (rank - 1) as usize;
    proof {
        lemma_sorted_counts(samples@, order@, k as int);
        assert(100 * k < n * percent <= 100 * (k + 1));
        assert(percent * samples@.len() == n * percent) by (nonlinear_arith)
            requires
                n == samples@.len(),
        ;
    }
    samples[order[k]]
}

/// Percentiles by nearest rank over the samples, or nothing where there are
/// none.
pub fn percentiles(samples: &[u64]) -> (found: Option<Percentiles>)
    ensures
        samples@.len() == 0 <==> found is None,
        found matches Some(p) ==> describes(p, samples@),
{
    if samples.len() == 0 {
        return None;
    }
    let mut keys: Vec<Ascending> = Vec::new();
    let mut i: usize = 0;
    while i < samples.len()
        invariant
            i <= samples.len(),
            keys.len() == i,
            forall|k: int| 0 <= k < i ==> (#[trigger] keys[k]).0 == samples[k],
        decreases samples.len() - i,
    {
        keys.push(Ascending(samples[i]));
        i = i + 1;
    }
    let order: Vec<usize> = order_by(&keys);
    proof {
        assert(order@.no_duplicates()) by {
            assert forall|i: int, j: int|
                0 <= i < j < order@.len() implies order@[i] != order@[j] by {
                assert(crate::order::precedes(keys@, order@[i] as int, order@[j] as int));
            }
        }
        assert forall|i: int, j: int|
            #![trigger order@[i], order@[j]]
            0 <= i <= j < order@.len() implies samples@[order@[i] as int]
            <= samples@[order@[j] as int] by {
            if i < j {
                assert(crate::order::precedes(keys@, order@[i] as int, order@[j] as int));
                assert(keys@[order@[i] as int].0 <= keys@[order@[j] as int].0);
            }
        }
    }
    let last: usize = samples.len() - 1;
    assert(greatest(samples@, samples@[order@[last as int] as int])) by {
        assert forall|x: int| 0 <= x < samples@.len() implies #[trigger] samples@[x]
            <= samples@[order@[last as int] as int] by {
            assert(order@.contains(x as usize));
            let p = choose|p: int| 0 <= p < order@.len() && order@[p] == x as usize;
            assert(samples@[order@[p] as int] <= samples@[order@[last as int] as int]);
        }
    }
    Some(
        Percentiles {
            p25: at_rank(samples, &order, 25),
            p50: at_rank(samples, &order, 50),
            p75: at_rank(samples, &order, 75),
            p90: at_rank(samples, &order, 90),
            p95: at_rank(samples, &order, 95),
            p99: at_rank(samples, &order, 99),
            max: samples[order[last]],
            samples: samples.len(),
        },
    )
}

/// A higher percentile is never the smaller sample.
pub proof fn lemma_rank_ascends(samples: Seq<u64>, lower: int, a: u64, higher: int, b: u64)
    requires
        samples.len() <= usize::MAX,
        lower <= higher,
        nearest_rank(samples, lower, a),
        nearest_rank(samples, higher, b),
    ensures
        a <= b,
{
    if a > b {
        let upto = Set::new(|i: usize| i < samples.len() && samples[i as int] <= b);
        let under = Set::new(|i: usize| i < samples.len() && samples[i as int] < a);
        let positions = Seq::new(samples.len(), |i: int| i as usize);
        assert(under.subset_of(positions.to_set())) by {
            assert forall|i: usize| under.contains(i) implies positions.to_set().contains(i) by {
                assert(positions[i as int] == i);
            }
        }
        vstd::set_lib::lemma_len_subset(under, positions.to_set());
        assert(upto.subset_of(under));
        vstd::set_lib::lemma_len_subset(upto, under);
        assert(lower * samples.len() <= higher * samples.len()) by (nonlinear_arith)
            requires
                lower <= higher,
                samples.len() >= 0,
        ;
    }
}

/// The sample at a nearest rank is the only one.
pub proof fn lemma_rank_unique(samples: Seq<u64>, percent: int, a: u64, b: u64)
    requires
        samples.len() <= usize::MAX,
        nearest_rank(samples, percent, a),
        nearest_rank(samples, percent, b),
    ensures
        a == b,
{
    lemma_rank_ascends(samples, percent, a, percent, b);
    lemma_rank_ascends(samples, percent, b, percent, a);
}

/// The percentiles of a report ascend, up to the greatest sample.
pub proof fn lemma_percentiles_ascend(p: Percentiles, samples: Seq<u64>)
    requires
        describes(p, samples),
    ensures
        p.p25 <= p.p50 <= p.p75 <= p.p90 <= p.p95 <= p.p99 <= p.max,
{
    lemma_rank_ascends(samples, 25, p.p25, 50, p.p50);
    lemma_rank_ascends(samples, 50, p.p50, 75, p.p75);
    lemma_rank_ascends(samples, 75, p.p75, 90, p.p90);
    lemma_rank_ascends(samples, 90, p.p90, 95, p.p95);
    lemma_rank_ascends(samples, 95, p.p95, 99, p.p99);
    let at = choose|at: int| 0 <= at < samples.len() && samples[at] == p.p99;
    assert(samples[at] <= p.max);
}

/// Whether `b` holds the samples of `a` in the given order.
pub open spec fn reordered(a: Seq<u64>, b: Seq<u64>, order: Seq<usize>) -> bool {
    &&& crate::order::permutes(order, a.len())
    &&& b.len() == a.len()
    &&& forall|i: int| 0 <= i < b.len() ==> #[trigger] b[i] == a[order[i] as int]
}

/// As many of the samples meet a condition in one order as in another.
proof fn lemma_reordered_count(
    a: Seq<u64>,
    b: Seq<u64>,
    order: Seq<usize>,
    keep: spec_fn(u64) -> bool,
)
    requires
        a.len() <= usize::MAX,
        reordered(a, b, order),
    ensures
        Set::new(|i: usize| i < a.len() && keep(a[i as int])).len() == Set::new(
            |i: usize| i < b.len() && keep(b[i as int]),
        ).len(),
{
    let of_a = Set::new(|i: usize| i < a.len() && keep(a[i as int]));
    let of_b = Set::new(|i: usize| i < b.len() && keep(b[i as int]));
    let f = |i: usize| order[i as int];
    let positions = Seq::new(b.len(), |i: int| i as usize);
    assert(of_b.subset_of(positions.to_set())) by {
        assert forall|i: usize| of_b.contains(i) implies positions.to_set().contains(i) by {
            assert(positions[i as int] == i);
        }
    }
    vstd::set_lib::lemma_len_subset(of_b, positions.to_set());
    assert(vstd::relations::injective_on(f, of_b)) by {
        assert forall|x: usize, y: usize|
            of_b.contains(x) && of_b.contains(y) && #[trigger] f(x) == #[trigger] f(y) implies x
            == y by {
            if x < y {
                assert(order[x as int] != order[y as int]);
            } else if y < x {
                assert(order[y as int] != order[x as int]);
            }
        }
    }
    assert forall|j: usize| #[trigger] of_a.contains(j) implies of_b.map(f).contains(j) by {
        assert(order.contains(j));
        let i = choose|i: int| 0 <= i < order.len() && order[i] == j;
        assert(b[i] == a[j as int]);
        assert(of_b.contains(i as usize) && f(i as usize) == j);
    }
    assert forall|j: usize| #[trigger] of_b.map(f).contains(j) implies of_a.contains(j) by {
        let i = choose|i: usize| of_b.contains(i) && f(i) == j;
        assert(b[i as int] == a[order[i as int] as int]);
    }
    assert(of_b.map(f) =~= of_a);
    vstd::set_lib::lemma_map_size(of_b, of_a, f);
}

/// The sample at a nearest rank is the same in whatever order the samples come.
proof fn lemma_reordered_rank(
    a: Seq<u64>,
    b: Seq<u64>,
    order: Seq<usize>,
    percent: int,
    value: u64,
)
    requires
        a.len() <= usize::MAX,
        reordered(a, b, order),
        nearest_rank(b, percent, value),
    ensures
        nearest_rank(a, percent, value),
{
    let i = choose|i: int| 0 <= i < b.len() && b[i] == value;
    assert(a[order[i] as int] == value);
    let upto = |x: u64| x <= value;
    let under = |x: u64| x < value;
    lemma_reordered_count(a, b, order, upto);
    lemma_reordered_count(a, b, order, under);
    assert(Set::new(|i: usize| i < a.len() && upto(a[i as int])) =~= Set::new(
        |i: usize| i < a.len() && a[i as int] <= value,
    ));
    assert(Set::new(|i: usize| i < b.len() && upto(b[i as int])) =~= Set::new(
        |i: usize| i < b.len() && b[i as int] <= value,
    ));
    assert(Set::new(|i: usize| i < a.len() && under(a[i as int])) =~= Set::new(
        |i: usize| i < a.len() && a[i as int] < value,
    ));
    assert(Set::new(|i: usize| i < b.len() && under(b[i as int])) =~= Set::new(
        |i: usize| i < b.len() && b[i as int] < value,
    ));
}

/// The order in which the samples come makes no difference to the percentiles.
pub proof fn lemma_order_is_ignored(
    a: Seq<u64>,
    b: Seq<u64>,
    order: Seq<usize>,
    p: Percentiles,
    q: Percentiles,
)
    requires
        reordered(a, b, order),
        describes(p, a),
        describes(q, b),
    ensures
        p == q,
{
    lemma_reordered_rank(a, b, order, 25, q.p25);
    lemma_reordered_rank(a, b, order, 50, q.p50);
    lemma_reordered_rank(a, b, order, 75, q.p75);
    lemma_reordered_rank(a, b, order, 90, q.p90);
    lemma_reordered_rank(a, b, order, 95, q.p95);
    lemma_reordered_rank(a, b, order, 99, q.p99);
    lemma_rank_unique(a, 25, p.p25, q.p25);
    lemma_rank_unique(a, 50, p.p50, q.p50);
    lemma_rank_unique(a, 75, p.p75, q.p75);
    lemma_rank_unique(a, 90, p.p90, q.p90);
    lemma_rank_unique(a, 95, p.p95, q.p95);
    lemma_rank_unique(a, 99, p.p99, q.p99);
    let i = choose|i: int| 0 <= i < b.len() && b[i] == q.max;
    assert(a[order[i] as int] <= p.max);
    let j = choose|j: int| 0 <= j < a.len() && a[j] == p.max;
    assert(order.contains(j as usize));
    let k = choose|k: int| 0 <= k < order.len() && order[k] == j as usize;
    assert(b[k] <= q.max);
}

/// Whether `sorted` holds the samples from the smallest to the greatest, each
/// taken from the place that `order` gives.
pub open spec fn arranges(samples: Seq<u64>, sorted: Seq<u64>, order: Seq<usize>) -> bool {
    &&& order.len() == samples.len()
    &&& sorted.len() == samples.len()
    &&& forall|i: int| 0 <= i < order.len() ==> #[trigger] order[i] < samples.len()
    &&& forall|i: int, j: int|
        #![trigger order[i], order[j]]
        0 <= i < j < order.len() ==> order[i] != order[j]
    &&& forall|x: usize| x < samples.len() ==> #[trigger] order.contains(x)
    &&& forall|i: int| 0 <= i < sorted.len() ==> #[trigger] sorted[i] == samples[order[i] as int]
    &&& forall|i: int, j: int|
        #![trigger sorted[i], sorted[j]]
        0 <= i <= j < sorted.len() ==> sorted[i] <= sorted[j]
}

/// A sample stands in the sorted samples at its rank.
proof fn lemma_sorted_rank(sorted: Seq<u64>, percent: int, k: int)
    requires
        sorted.len() <= usize::MAX,
        forall|i: int, j: int|
            #![trigger sorted[i], sorted[j]]
            0 <= i <= j < sorted.len() ==> sorted[i] <= sorted[j],
        0 <= k < sorted.len(),
        100 * k < percent * sorted.len() <= 100 * (k + 1),
    ensures
        nearest_rank(sorted, percent, sorted[k]),
{
    let order = Seq::new(sorted.len(), |i: int| i as usize);
    assert forall|x: usize| x < sorted.len() implies #[trigger] order.contains(x) by {
        assert(order[x as int] == x);
    }
    assert(sorts(sorted, order));
    lemma_sorted_counts(sorted, order, k);
}

/// The percentiles stand in the sorted samples where a share of them, rounded up,
/// has passed; the greatest stands last.
pub proof fn lemma_percentiles_of_sorted(
    p: Percentiles,
    samples: Seq<u64>,
    sorted: Seq<u64>,
    order: Seq<usize>,
)
    requires
        describes(p, samples),
        arranges(samples, sorted, order),
    ensures
        ({
            let n = samples.len() as int;
            &&& n > 0
            &&& p.samples == n
            &&& p.p25 == sorted[(25 * n + 99) / 100 - 1]
            &&& p.p50 == sorted[(50 * n + 99) / 100 - 1]
            &&& p.p75 == sorted[(75 * n + 99) / 100 - 1]
            &&& p.p90 == sorted[(90 * n + 99) / 100 - 1]
            &&& p.p95 == sorted[(95 * n + 99) / 100 - 1]
            &&& p.p99 == sorted[(99 * n + 99) / 100 - 1]
            &&& p.max == sorted[n - 1]
        }),
{
    let n = samples.len() as int;
    assert(reordered(samples, sorted, order));
    lemma_rank_in_sorted(samples, sorted, order, 25, p.p25);
    lemma_rank_in_sorted(samples, sorted, order, 50, p.p50);
    lemma_rank_in_sorted(samples, sorted, order, 75, p.p75);
    lemma_rank_in_sorted(samples, sorted, order, 90, p.p90);
    lemma_rank_in_sorted(samples, sorted, order, 95, p.p95);
    lemma_rank_in_sorted(samples, sorted, order, 99, p.p99);
    let j = choose|j: int| 0 <= j < samples.len() && samples[j] == p.max;
    assert(order.contains(j as usize));
    let k = choose|k: int| 0 <= k < order.len() && order[k] == j as usize;
    assert(sorted[k] <= sorted[n - 1]);
    assert(sorted[n - 1] == samples[order[n - 1] as int]);
}

/// The sample at a nearest rank, among the sorted samples.
proof fn lemma_rank_in_sorted(
    samples: Seq<u64>,
    sorted: Seq<u64>,
    order: Seq<usize>,
    percent: int,
    value: u64,
)
    requires
        samples.len() <= usize::MAX,
        arranges(samples, sorted, order),
        0 < percent <= 100,
        nearest_rank(samples, percent, value),
    ensures
        0 <= (percent * samples.len() + 99) / 100 - 1 < samples.len(),
        value == sorted[(percent * samples.len() + 99) / 100 - 1],
{
    let n = samples.len() as int;
    let k = (percent * n + 99) / 100 - 1;
    assert(n > 0);
    assert(n <= percent * n <= 100 * n) by (nonlinear_arith)
        requires
            0 < percent <= 100,
            n > 0,
    ;
    assert(100 * k < percent * n <= 100 * (k + 1));
    lemma_sorted_rank(sorted, percent, k);
    lemma_reordered_rank(samples, sorted, order, percent, sorted[k]);
    lemma_rank_unique(samples, percent, value, sorted[k]);
}

} // verus!
