//! Stable ordering by a key.

use vstd::prelude::*;

use crate::text::text_in_order;

verus! {

/// A key that rows are ordered by.
pub trait Ranked: Sized {
    /// Whether a row with this key may stand before one with the other.
    spec fn before(self, other: Self) -> bool;

    proof fn lemma_total(a: Self, b: Self)
        ensures
            a.before(b) || b.before(a),
    ;

    proof fn lemma_transitive(a: Self, b: Self, c: Self)
        requires
            a.before(b),
            b.before(c),
        ensures
            a.before(c),
    ;

    /// Whether a row with this key may stand before one with the other.
    fn may_precede(&self, other: &Self) -> (r: bool)
        ensures
            r == self.before(*other),
    ;
}

/// Whether `order` lists the numbers below `n`, each once.
pub open spec fn permutes(order: Seq<usize>, n: nat) -> bool {
    &&& order.len() == n
    &&& forall|i: int| 0 <= i < order.len() ==> #[trigger] order[i] < n
    &&& forall|i: int, j: int|
        #![trigger order[i], order[j]]
        0 <= i < j < order.len() ==> order[i] != order[j]
    &&& forall|x: usize| x < n ==> #[trigger] order.contains(x)
}

/// Whether row `a` stands before row `b` in the stable order: by key, and among
/// equal keys by position.
pub open spec fn precedes<K: Ranked>(keys: Seq<K>, a: int, b: int) -> bool {
    keys[a].before(keys[b]) && (keys[b].before(keys[a]) ==> a < b)
}

/// Whether `order` lists the rows from `lo` to `hi`, each once, in the stable
/// order of their keys.
pub open spec fn orders<K: Ranked>(keys: Seq<K>, lo: int, hi: int, order: Seq<usize>) -> bool {
    &&& order.len() == hi - lo
    &&& forall|i: int| 0 <= i < order.len() ==> lo <= #[trigger] order[i] < hi
    &&& forall|i: int, j: int|
        #![trigger order[i], order[j]]
        0 <= i < j < order.len() ==> precedes(keys, order[i] as int, order[j] as int)
    &&& forall|x: usize| lo <= x < hi ==> #[trigger] order.contains(x)
}

/// Whether `order` lists all rows, each once, in the stable order of their keys.
pub open spec fn stable_order<K: Ranked>(keys: Seq<K>, order: Seq<usize>) -> bool {
    orders(keys, 0, keys.len() as int, order)
}

proof fn lemma_precedes_transitive<K: Ranked>(keys: Seq<K>, a: int, b: int, c: int)
    requires
        precedes(keys, a, b),
        precedes(keys, b, c),
    ensures
        precedes(keys, a, c),
{
    K::lemma_transitive(keys[a], keys[b], keys[c]);
    if keys[c].before(keys[a]) {
        K::lemma_transitive(keys[c], keys[a], keys[b]);
        K::lemma_transitive(keys[b], keys[c], keys[a]);
    }
}

/// Whether every row listed in `left` stands before every row in `right`.
spec fn all_precede<K: Ranked>(keys: Seq<K>, left: Seq<usize>, right: Seq<usize>) -> bool {
    forall|i: int, j: int|
        #![trigger left[i], right[j]]
        0 <= i < left.len() && 0 <= j < right.len() ==> precedes(
            keys,
            left[i] as int,
            right[j] as int,
        )
}

/// Merges two ordered runs, the first of which holds the earlier rows.
fn merge<K: Ranked>(
    keys: &Vec<K>,
    lo: usize,
    mid: usize,
    hi: usize,
    left: &Vec<usize>,
    right: &Vec<usize>,
) -> (order: Vec<usize>)
    requires
        lo <= mid <= hi <= keys.len(),
        orders(keys@, lo as int, mid as int, left@),
        orders(keys@, mid as int, hi as int, right@),
    ensures
        orders(keys@, lo as int, hi as int, order@),
{
    let mut order: Vec<usize> = Vec::new();
    let mut i: usize = 0;
    let mut j: usize = 0;
    while i < left.len() || j < right.len()
        invariant
            lo <= mid <= hi <= keys.len(),
            orders(keys@, lo as int, mid as int, left@),
            orders(keys@, mid as int, hi as int, right@),
            i <= left.len(),
            j <= right.len(),
            order.len() == i + j,
            forall|k: int| 0 <= k < order.len() ==> lo <= #[trigger] order[k] < hi,
            forall|a: int, b: int|
                #![trigger order[a], order[b]]
                0 <= a < b < order.len() ==> precedes(keys@, order[a] as int, order[b] as int),
            all_precede(keys@, order@, left@.skip(i as int)),
            all_precede(keys@, order@, right@.skip(j as int)),
            forall|k: int| 0 <= k < i ==> order@.contains(#[trigger] left@[k]),
            forall|k: int| 0 <= k < j ==> order@.contains(#[trigger] right@[k]),
        decreases left.len() - i + right.len() - j,
    {
        let take_left: bool = if i >= left.len() {
            false
        } else if j >= right.len() {
            true
        } else {
            keys[left[i]].may_precede(&keys[right[j]])
        };
        let ghost earlier = order@;
        if take_left {
            let x: usize = left[i];
            order.push(x);
            proof {
                assert(left@.skip(i as int)[0] == x);
                assert forall|a: int, b: int|
                    #![trigger order@[a], order@[b]]
                    0 <= a < b < order@.len() implies precedes(
                    keys@,
                    order@[a] as int,
                    order@[b] as int,
                ) by {
                    if b == earlier.len() {
                        assert(earlier[a] == order@[a]);
                    } else {
                        assert(earlier[a] == order@[a] && earlier[b] == order@[b]);
                    }
                }
                assert forall|a: int, b: int|
                    #![trigger order@[a], left@.skip(i + 1)[b]]
                    0 <= a < order@.len() && 0 <= b < left@.skip(i + 1).len() implies precedes(
                    keys@,
                    order@[a] as int,
                    left@.skip(i + 1)[b] as int,
                ) by {
                    assert(left@.skip(i + 1)[b] == left@[i + 1 + b]);
                    assert(left@.skip(i + 1)[b] == left@.skip(i as int)[b + 1]);
                    if a < earlier.len() {
                        assert(earlier[a] == order@[a]);
                    }
                }
                assert forall|a: int, b: int|
                    #![trigger order@[a], right@.skip(j as int)[b]]
                    0 <= a < order@.len() && 0 <= b < right@.skip(j as int).len() implies precedes(
                    keys@,
                    order@[a] as int,
                    right@.skip(j as int)[b] as int,
                ) by {
                    let y = right@.skip(j as int)[b];
                    assert(y == right@[j + b]);
                    if a < earlier.len() {
                        assert(earlier[a] == order@[a]);
                    } else {
                        assert(precedes(keys@, x as int, right@[j as int] as int));
                        if b > 0 {
                            assert(right@[j as int] < hi);
                            lemma_precedes_transitive(
                                keys@,
                                x as int,
                                right@[j as int] as int,
                                y as int,
                            );
                        }
                    }
                }
                assert forall|k: int| 0 <= k < i + 1 implies order@.contains(#[trigger] left@[k]) by {
                    if k == i {
                        assert(order@[earlier.len() as int] == left@[k]);
                    } else {
                        assert(earlier.contains(left@[k]));
                        let at = choose|at: int| 0 <= at < earlier.len() && earlier[at] == left@[k];
                        assert(order@[at] == left@[k]);
                    }
                }
                assert forall|k: int| 0 <= k < j implies order@.contains(#[trigger] right@[k]) by {
                    assert(earlier.contains(right@[k]));
                    let at = choose|at: int| 0 <= at < earlier.len() && earlier[at] == right@[k];
                    assert(order@[at] == right@[k]);
                }
            }
            i = i + 1;
        } else {
            let x: usize = right[j];
            order.push(x);
            proof {
                if i < left@.len() {
                    K::lemma_total(keys@[left@[i as int] as int], keys@[x as int]);
                }
                assert(right@.skip(j as int)[0] == x);
                assert forall|a: int, b: int|
                    #![trigger order@[a], order@[b]]
                    0 <= a < b < order@.len() implies precedes(
                    keys@,
                    order@[a] as int,
                    order@[b] as int,
                ) by {
                    if b == earlier.len() {
                        assert(earlier[a] == order@[a]);
                    } else {
                        assert(earlier[a] == order@[a] && earlier[b] == order@[b]);
                    }
                }
                assert forall|a: int, b: int|
                    #![trigger order@[a], right@.skip(j + 1)[b]]
                    0 <= a < order@.len() && 0 <= b < right@.skip(j + 1).len() implies precedes(
                    keys@,
                    order@[a] as int,
                    right@.skip(j + 1)[b] as int,
                ) by {
                    assert(right@.skip(j + 1)[b] == right@[j + 1 + b]);
                    assert(right@.skip(j + 1)[b] == right@.skip(j as int)[b + 1]);
                    if a < earlier.len() {
                        assert(earlier[a] == order@[a]);
                    }
                }
                assert forall|a: int, b: int|
                    #![trigger order@[a], left@.skip(i as int)[b]]
                    0 <= a < order@.len() && 0 <= b < left@.skip(i as int).len() implies precedes(
                    keys@,
                    order@[a] as int,
                    left@.skip(i as int)[b] as int,
                ) by {
                    let y = left@.skip(i as int)[b];
                    assert(y == left@[i + b]);
                    if a < earlier.len() {
                        assert(earlier[a] == order@[a]);
                    } else {
                        assert(precedes(keys@, x as int, left@[i as int] as int));
                        if b > 0 {
                            assert(left@[i as int] < mid);
                            lemma_precedes_transitive(
                                keys@,
                                x as int,
                                left@[i as int] as int,
                                y as int,
                            );
                        }
                    }
                }
                assert forall|k: int| 0 <= k < j + 1 implies order@.contains(#[trigger] right@[k]) by {
                    if k == j {
                        assert(order@[earlier.len() as int] == right@[k]);
                    } else {
                        assert(earlier.contains(right@[k]));
                        let at = choose|at: int| 0 <= at < earlier.len() && earlier[at] == right@[k];
                        assert(order@[at] == right@[k]);
                    }
                }
                assert forall|k: int| 0 <= k < i implies order@.contains(#[trigger] left@[k]) by {
                    assert(earlier.contains(left@[k]));
                    let at = choose|at: int| 0 <= at < earlier.len() && earlier[at] == left@[k];
                    assert(order@[at] == left@[k]);
                }
            }
            j = j + 1;
        }
    }
    proof {
        assert forall|x: usize| lo <= x < hi implies #[trigger] order@.contains(x) by {
            if x < mid {
                assert(left@.contains(x));
                let k = choose|k: int| 0 <= k < left@.len() && left@[k] == x;
                assert(order@.contains(left@[k]));
            } else {
                assert(right@.contains(x));
                let k = choose|k: int| 0 <= k < right@.len() && right@[k] == x;
                assert(order@.contains(right@[k]));
            }
        }
    }
    order
}

/// The positions of the rows from `lo` to `hi` in the stable order of their keys.
fn order_range<K: Ranked>(keys: &Vec<K>, lo: usize, hi: usize) -> (order: Vec<usize>)
    requires
        lo <= hi <= keys.len(),
    ensures
        orders(keys@, lo as int, hi as int, order@),
    decreases hi - lo,
{
    let mut order: Vec<usize> = Vec::new();
    if lo == hi {
        return order;
    }
    if hi - lo == 1 {
        order.push(lo);
        assert(order@[0] == lo);
        return order;
    }
    let mid: usize = lo + (hi - lo) / 2;
    let left: Vec<usize> = order_range(keys, lo, mid);
    let right: Vec<usize> = order_range(keys, mid, hi);
    merge(keys, lo, mid, hi, &left, &right)
}

/// The positions of the rows in the stable order of their keys.
pub fn order_by<K: Ranked>(keys: &Vec<K>) -> (order: Vec<usize>)
    ensures
        stable_order(keys@, order@),
{
    order_range(keys, 0, keys.len())
}

/// A stable order lists every row once.
pub proof fn lemma_stable_order_permutes<K: Ranked>(keys: Seq<K>, order: Seq<usize>)
    requires
        stable_order(keys, order),
    ensures
        permutes(order, keys.len()),
{
    assert forall|i: int, j: int|
        #![trigger order[i], order[j]]
        0 <= i < j < order.len() implies order[i] != order[j] by {
        assert(precedes(keys, order[i] as int, order[j] as int));
    }
}

/// There is one stable order: two listings of the same rows are the same.
pub proof fn lemma_stable_order_unique<K: Ranked>(keys: Seq<K>, a: Seq<usize>, b: Seq<usize>)
    requires
        stable_order(keys, a),
        stable_order(keys, b),
    ensures
        a == b,
{
    assert forall|i: int| 0 <= i < a.len() implies a[i] == b[i] by {
        lemma_same_at(keys, a, b, i);
    }
    assert(a =~= b);
}

proof fn lemma_same_at<K: Ranked>(keys: Seq<K>, a: Seq<usize>, b: Seq<usize>, i: int)
    requires
        stable_order(keys, a),
        stable_order(keys, b),
        0 <= i < a.len(),
    ensures
        a[i] == b[i],
    decreases i,
{
    assert forall|k: int| 0 <= k < i implies a[k] == b[k] by {
        lemma_same_at(keys, a, b, k);
    }
    if a[i] != b[i] {
        assert(b.contains(a[i]));
        let j = choose|j: int| 0 <= j < b.len() && b[j] == a[i];
        assert(a.contains(b[i]));
        let k = choose|k: int| 0 <= k < a.len() && a[k] == b[i];
        if j < i {
            assert(a[j] == b[j]);
            assert(precedes(keys, a[j] as int, a[i] as int));
        }
        if k < i {
            assert(a[k] == b[k]);
            assert(precedes(keys, b[k] as int, b[i] as int));
        }
        assert(precedes(keys, b[i] as int, b[j] as int));
        assert(precedes(keys, a[i] as int, a[k] as int));
    }
}

/// Smaller numbers first.
pub struct Ascending(pub u64);

impl Ranked for Ascending {
    open spec fn before(self, other: Self) -> bool {
        self.0 <= other.0
    }

    proof fn lemma_total(a: Self, b: Self) {
    }

    proof fn lemma_transitive(a: Self, b: Self, c: Self) {
    }

    fn may_precede(&self, other: &Self) -> (r: bool) {
        self.0 <= other.0
    }
}

/// Greater numbers first.
pub struct Descending(pub u64);

impl Ranked for Descending {
    open spec fn before(self, other: Self) -> bool {
        self.0 >= other.0
    }

    proof fn lemma_total(a: Self, b: Self) {
    }

    proof fn lemma_transitive(a: Self, b: Self, c: Self) {
    }

    fn may_precede(&self, other: &Self) -> (r: bool) {
        self.0 >= other.0
    }
}

/// Rows without a text first, then by their text.
pub struct ByText(pub Option<String>);

impl Ranked for ByText {
    open spec fn before(self, other: Self) -> bool {
        match (self.0, other.0) {
            (None, _) => true,
            (Some(_), None) => false,
            (Some(a), Some(b)) => crate::text::text_le(a@, b@),
        }
    }

    proof fn lemma_total(a: Self, b: Self) {
        if a.0 is Some && b.0 is Some {
            crate::text::lemma_text_total(a.0->0@, b.0->0@);
        }
    }

    proof fn lemma_transitive(a: Self, b: Self, c: Self) {
        if a.0 is Some && b.0 is Some && c.0 is Some {
            crate::text::lemma_text_transitive(a.0->0@, b.0->0@, c.0->0@);
        }
    }

    fn may_precede(&self, other: &Self) -> (r: bool) {
        match (&self.0, &other.0) {
            (None, _) => true,
            (Some(_), None) => false,
            (Some(a), Some(b)) => text_in_order(a.as_str(), b.as_str()),
        }
    }
}

} // verus!
