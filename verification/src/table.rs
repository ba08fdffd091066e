//! A table of named rows, in the order in which the names were first seen.

use vstd::hash_map::StringHashMap;
use vstd::prelude::*;

verus! {

/// Whether a row has this name.
pub open spec fn holds<A>(rows: Seq<(Seq<char>, A)>, name: Seq<char>) -> bool {
    exists|i: int| 0 <= i < rows.len() && (#[trigger] rows[i]).0 == name
}

/// Where the row with this name stands.
pub open spec fn position<A>(rows: Seq<(Seq<char>, A)>, name: Seq<char>) -> int {
    choose|i: int| 0 <= i < rows.len() && (#[trigger] rows[i]).0 == name
}

/// Whether no name occurs twice.
pub open spec fn distinct<A>(rows: Seq<(Seq<char>, A)>) -> bool {
    forall|i: int, j: int|
        #![trigger rows[i], rows[j]]
        0 <= i < j < rows.len() ==> rows[i].0 != rows[j].0
}

/// The row with this name, or `fresh` where there is none.
pub open spec fn lookup<A>(rows: Seq<(Seq<char>, A)>, name: Seq<char>, fresh: A) -> A {
    if holds(rows, name) {
        rows[position(rows, name)].1
    } else {
        fresh
    }
}

/// The rows with the one of this name set: in its place, or behind the others
/// where there was none.
pub open spec fn put<A>(rows: Seq<(Seq<char>, A)>, name: Seq<char>, value: A) -> Seq<
    (Seq<char>, A),
> {
    if holds(rows, name) {
        rows.update(position(rows, name), (name, value))
    } else {
        rows.push((name, value))
    }
}

/// A name that no two rows share has one position.
pub proof fn lemma_position<A>(rows: Seq<(Seq<char>, A)>, i: int)
    requires
        distinct(rows),
        0 <= i < rows.len(),
    ensures
        holds(rows, rows[i].0),
        position(rows, rows[i].0) == i,
{
    let p = position(rows, rows[i].0);
    assert(rows[p].0 == rows[i].0);
}

/// Setting a row keeps the names distinct, gives the row back, and leaves every
/// other alone.
pub proof fn lemma_put<A>(rows: Seq<(Seq<char>, A)>, name: Seq<char>, value: A)
    requires
        distinct(rows),
    ensures
        distinct(put(rows, name, value)),
        holds(put(rows, name, value), name),
        forall|fresh: A| #[trigger] lookup(put(rows, name, value), name, fresh) == value,
        forall|other: Seq<char>, fresh: A|
            other != name ==> #[trigger] lookup(put(rows, name, value), other, fresh) == lookup(
                rows,
                other,
                fresh,
            ),
{
    let after = put(rows, name, value);
    let at = if holds(rows, name) {
        position(rows, name)
    } else {
        rows.len() as int
    };
    assert(after[at] == (name, value));
    assert forall|i: int, j: int|
        #![trigger after[i], after[j]]
        0 <= i < j < after.len() implies after[i].0 != after[j].0 by {
        if i < rows.len() && j < rows.len() {
            assert(rows[i].0 != rows[j].0);
        } else {
            assert(rows[i].0 == after[i].0);
        }
    }
    lemma_position(after, at);
    assert forall|other: Seq<char>, fresh: A| other != name implies #[trigger] lookup(
        after,
        other,
        fresh,
    ) == lookup(rows, other, fresh) by {
        if holds(rows, other) {
            let p = position(rows, other);
            assert(after[p] == rows[p]);
            lemma_position(after, p);
        } else if holds(after, other) {
            let p = position(after, other);
            assert(after[p].0 == other);
            if p < rows.len() {
                assert(rows[p].0 == other);
            }
        }
    }
}

/// What the rows add up to, each measured by `f`.
pub open spec fn total<A>(rows: Seq<(Seq<char>, A)>, f: spec_fn(A) -> int) -> int
    decreases rows.len(),
{
    if rows.len() == 0 {
        0
    } else {
        total(rows.drop_last(), f) + f(rows.last().1)
    }
}

proof fn lemma_total_update<A>(
    rows: Seq<(Seq<char>, A)>,
    f: spec_fn(A) -> int,
    at: int,
    row: (Seq<char>, A),
)
    requires
        0 <= at < rows.len(),
    ensures
        total(rows.update(at, row), f) == total(rows, f) - f(rows[at].1) + f(row.1),
    decreases rows.len(),
{
    if at < rows.len() - 1 {
        lemma_total_update(rows.drop_last(), f, at, row);
        assert(rows.update(at, row).drop_last() =~= rows.drop_last().update(at, row));
    } else {
        assert(rows.update(at, row).drop_last() =~= rows.drop_last());
    }
}

/// Setting a row changes the total by what it changes that row, where a row
/// that was not there counts as nothing.
pub proof fn lemma_total_put<A>(
    rows: Seq<(Seq<char>, A)>,
    f: spec_fn(A) -> int,
    name: Seq<char>,
    value: A,
    fresh: A,
)
    requires
        f(fresh) == 0,
    ensures
        total(put(rows, name, value), f) == total(rows, f) - f(lookup(rows, name, fresh)) + f(value),
{
    if holds(rows, name) {
        lemma_total_update(rows, f, position(rows, name), (name, value));
    } else {
        assert(rows.push((name, value)).drop_last() =~= rows);
    }
}

/// Where no row measures less than nothing, no row, and no first few rows,
/// measure more than all of them.
pub proof fn lemma_total_parts<A>(rows: Seq<(Seq<char>, A)>, f: spec_fn(A) -> int, n: int)
    requires
        forall|i: int| 0 <= i < rows.len() ==> f((#[trigger] rows[i]).1) >= 0,
        0 <= n <= rows.len(),
    ensures
        0 <= total(rows.take(n), f) <= total(rows, f),
        n < rows.len() ==> f(rows[n].1) <= total(rows, f),
    decreases rows.len(),
{
    if rows.len() == 0 {
        assert(rows.take(n) =~= rows);
    } else {
        let front = rows.drop_last();
        assert forall|i: int| 0 <= i < front.len() implies f((#[trigger] front[i]).1) >= 0 by {
            assert(front[i] == rows[i]);
        }
        assert(f(rows[rows.len() - 1].1) >= 0);
        if n < rows.len() {
            lemma_total_parts(front, f, n);
            assert(front.take(n) =~= rows.take(n));
        } else {
            lemma_total_parts(front, f, n - 1);
            assert(rows.take(n) =~= rows);
        }
    }
}

/// Rows that measure no more one way than another add up to no more.
pub proof fn lemma_total_bound<A>(
    rows: Seq<(Seq<char>, A)>,
    f: spec_fn(A) -> int,
    g: spec_fn(A) -> int,
)
    requires
        forall|i: int| 0 <= i < rows.len() ==> f((#[trigger] rows[i]).1) <= g(rows[i].1),
    ensures
        total(rows, f) <= total(rows, g),
    decreases rows.len(),
{
    if rows.len() > 0 {
        let front = rows.drop_last();
        assert forall|i: int| 0 <= i < front.len() implies f((#[trigger] front[i]).1) <= g(
            front[i].1,
        ) by {
            assert(front[i] == rows[i]);
        }
        assert(f(rows[rows.len() - 1].1) <= g(rows[rows.len() - 1].1));
        lemma_total_bound(front, f, g);
    }
}

/// Named rows, in the order in which the names were first seen.
#[verifier::reject_recursive_types(V)]
pub struct Table<V> {
    names: Vec<String>,
    values: Vec<V>,
    index: StringHashMap<usize>,
}

impl<V> View for Table<V> {
    type V = Seq<(Seq<char>, V)>;

    closed spec fn view(&self) -> Seq<(Seq<char>, V)> {
        Seq::new(self.names@.len(), |i: int| (self.names@[i]@, self.values@[i]))
    }
}

impl<V> Table<V> {
    /// Every row has its name and value, no name occurs twice, and the index
    /// leads from each name to its row.
    pub closed spec fn wf(&self) -> bool {
        &&& self.names.len() == self.values.len()
        &&& forall|i: int, j: int|
            #![trigger self.names@[i], self.names@[j]]
            0 <= i < j < self.names.len() ==> self.names@[i]@ != self.names@[j]@
        &&& forall|i: int|
            0 <= i < self.names.len() ==> #[trigger] self.index@.contains_key(self.names@[i]@)
                && self.index@[self.names@[i]@] == i
        &&& forall|name: Seq<char>| #[trigger]
            self.index@.contains_key(name) ==> self.index@[name] < self.names.len()
                && self.names@[self.index@[name] as int]@ == name
    }

    /// No name occurs twice, and the number of rows is a machine number.
    pub proof fn lemma_wf(&self)
        requires
            self.wf(),
        ensures
            distinct(self@),
            self@.len() <= usize::MAX,
    {
        assert forall|i: int, j: int|
            #![trigger self@[i], self@[j]]
            0 <= i < j < self@.len() implies self@[i].0 != self@[j].0 by {
            assert(self.names@[i]@ != self.names@[j]@);
        }
    }

    /// A table without rows.
    pub fn new() -> (table: Self)
        ensures
            table.wf(),
            table@ == Seq::<(Seq<char>, V)>::empty(),
    {
        let table = Table { names: Vec::new(), values: Vec::new(), index: StringHashMap::new() };
        assert(table@ =~= Seq::<(Seq<char>, V)>::empty());
        table
    }

    /// The number of rows.
    pub fn len(&self) -> (n: usize)
        requires
            self.wf(),
        ensures
            n == self@.len(),
    {
        self.names.len()
    }

    /// Where the row with this name stands.
    pub fn find(&self, name: &str) -> (at: Option<usize>)
        requires
            self.wf(),
        ensures
            match at {
                Some(i) => i < self@.len() && holds(self@, name@) && i == position(self@, name@)
                    && self@[i as int].0 == name@,
                None => !holds(self@, name@),
            },
    {
        match self.index.get(name) {
            Some(i) => {
                proof {
                    self.lemma_wf();
                    assert(self@[*i as int].0 == name@);
                    lemma_position(self@, *i as int);
                }
                Some(*i)
            },
            None => {
                proof {
                    if holds(self@, name@) {
                        let p = position(self@, name@);
                        assert(self@[p].0 == name@);
                        assert(self.index@.contains_key(self.names@[p]@));
                    }
                }
                None
            },
        }
    }

    /// Where the row with this name stands, after adding it with the value
    /// `fresh` if there is none.
    pub fn entry(&mut self, name: &str, fresh: V) -> (at: usize)
        requires
            old(self).wf(),
        ensures
            final(self).wf(),
            final(self)@ == put(old(self)@, name@, lookup(old(self)@, name@, fresh)),
            at < final(self)@.len(),
            holds(final(self)@, name@),
            at == position(final(self)@, name@),
            final(self)@[at as int] == (name@, lookup(old(self)@, name@, fresh)),
            holds(old(self)@, name@) ==> at == position(old(self)@, name@),
            !holds(old(self)@, name@) ==> at == old(self)@.len(),
    {
        match self.find(name) {
            Some(i) => {
                assert(put(self@, name@, lookup(self@, name@, fresh)) =~= self@);
                i
            },
            None => {
                let at: usize = self.names.len();
                self.names.push(name.to_owned());
                self.values.push(fresh);
                self.index.insert(name.to_owned(), at);
                proof {
                    let before = old(self)@;
                    old(self).lemma_wf();
                    assert(self@ =~= before.push((name@, fresh)));
                    lemma_put(before, name@, fresh);
                    lemma_position(self@, at as int);
                    assert forall|i: int, j: int|
                        #![trigger self.names@[i], self.names@[j]]
                        0 <= i < j < self.names.len() implies self.names@[i]@ != self.names@[j]@ by {
                        assert(self@[i].0 != self@[j].0);
                    }
                    assert forall|i: int|
                        0 <= i < self.names.len() implies #[trigger] self.index@.contains_key(
                        self.names@[i]@,
                    ) && self.index@[self.names@[i]@] == i by {
                        if i < at {
                            assert(old(self).index@.contains_key(old(self).names@[i]@));
                            assert(before[i].0 == self.names@[i]@);
                        }
                    }
                }
                at
            },
        }
    }

    /// The name of a row.
    pub fn name_at(&self, at: usize) -> (name: &str)
        requires
            self.wf(),
            at < self@.len(),
        ensures
            name@ == self@[at as int].0,
    {
        self.names[at].as_str()
    }

    /// The value of a row.
    pub fn value_at(&self, at: usize) -> (value: &V)
        requires
            self.wf(),
            at < self@.len(),
        ensures
            *value == self@[at as int].1,
    {
        &self.values[at]
    }

    /// The value of a row, to be changed in place.
    pub fn value_mut(&mut self, at: usize) -> (value: &mut V)
        requires
            old(self).wf(),
            at < old(self)@.len(),
        ensures
            *value == old(self)@[at as int].1,
            final(self).wf(),
            final(self)@ == old(self)@.update(at as int, (old(self)@[at as int].0, *final(value))),
    {
        &mut self.values[at]
    }
}

} // verus!
