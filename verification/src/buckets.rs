//! Tables of named buckets.

use vstd::prelude::*;

use crate::bucket::{Bucket, BucketView, Observation};
use crate::table::Table;
use crate::traffic::BucketRows;

verus! {

/// The views of named buckets.
pub open spec fn bucket_rows(rows: Seq<(Seq<char>, Bucket)>) -> BucketRows {
    rows.map_values(|row: (Seq<char>, Bucket)| (row.0, row.1@))
}

/// Whether the table and each of its buckets are well-formed.
pub open spec fn table_wf(table: Table<Bucket>) -> bool {
    &&& table.wf()
    &&& forall|i: int| 0 <= i < table@.len() ==> (#[trigger] table@[i]).1.wf()
}

/// A table of buckets and its view have the same names in the same places.
pub proof fn lemma_rows(table: Table<Bucket>, name: Seq<char>)
    requires
        table_wf(table),
    ensures
        crate::traffic::buckets_wf(bucket_rows(table@)),
        bucket_rows(table@).len() == table@.len(),
        crate::table::holds(bucket_rows(table@), name) == crate::table::holds(table@, name),
        crate::table::holds(table@, name) ==> {
            let at = crate::table::position(table@, name);
            &&& 0 <= at < table@.len()
            &&& table@[at].0 == name
            &&& crate::table::position(bucket_rows(table@), name) == at
            &&& crate::traffic::bucket_of(bucket_rows(table@), name) == table@[at].1@
        },
        !crate::table::holds(table@, name) ==> crate::traffic::bucket_of(
            bucket_rows(table@),
            name,
        ) == BucketView::empty(),
{
    table.lemma_wf();
    let rows = bucket_rows(table@);
    assert forall|i: int, j: int|
        #![trigger rows[i], rows[j]]
        0 <= i < j < rows.len() implies rows[i].0 != rows[j].0 by {
        assert(table@[i].0 != table@[j].0);
    }
    assert forall|i: int| 0 <= i < rows.len() implies (#[trigger] rows[i]).1.wf() by {
        assert(table@[i].1.wf());
    }
    if crate::table::holds(table@, name) {
        let at = crate::table::position(table@, name);
        assert(rows[at].0 == name);
        crate::table::lemma_position(rows, at);
    }
    if crate::table::holds(rows, name) {
        let at = crate::table::position(rows, name);
        assert(table@[at].0 == name);
    }
}

/// Where the bucket with this name stands, after adding an empty one if there
/// is none.
pub fn bucket_entry(table: &mut Table<Bucket>, name: &str) -> (at: usize)
    requires
        table_wf(*old(table)),
    ensures
        table_wf(*final(table)),
        at < final(table)@.len(),
        final(table)@[at as int].0 == name@,
        final(table)@[at as int].1@ == crate::traffic::bucket_of(bucket_rows(old(table)@), name@),
        forall|bucket: BucketView| #[trigger]
            crate::table::put(bucket_rows(old(table)@), name@, bucket) == bucket_rows(
                final(table)@,
            ).update(at as int, (name@, bucket)),
{
    let at: usize = table.entry(name, Bucket::default());
    proof {
        let before = bucket_rows(old(table)@);
        let after = bucket_rows(table@);
        lemma_rows(*old(table), name@);
        assert forall|i: int| 0 <= i < table@.len() implies (#[trigger] table@[i]).1.wf() by {
            if i < old(table)@.len() {
                assert(old(table)@[i].1.wf());
            }
        }
        assert forall|bucket: BucketView| #[trigger]
            crate::table::put(before, name@, bucket) == after.update(at as int, (name@, bucket)) by {
            assert(crate::table::put(before, name@, bucket) =~= after.update(
                at as int,
                (name@, bucket),
            ));
        }
    }
    at
}

/// Counts an observation under a name.
pub fn record_under(table: &mut Table<Bucket>, name: &str, obs: &Observation, hour: u64)
    requires
        table_wf(*old(table)),
        crate::traffic::bucket_of(bucket_rows(old(table)@), name@).room_for(*obs),
    ensures
        table_wf(*final(table)),
        exists|after: BucketView|
            #[trigger] crate::traffic::bucket_of(bucket_rows(old(table)@), name@).records(
                *obs,
                hour,
                after,
            ) && bucket_rows(final(table)@) == crate::table::put(
                bucket_rows(old(table)@),
                name@,
                after,
            ),
{
    let at: usize = bucket_entry(table, name);
    let ghost rows = table@;
    assert(rows[at as int].1.wf());
    table.value_mut(at).record(obs, hour);
    proof {
        let after = table@[at as int].1@;
        assert(bucket_rows(table@) =~= bucket_rows(rows).update(at as int, (name@, after)));
        assert(bucket_rows(table@) == crate::table::put(bucket_rows(old(table)@), name@, after));
    }
}

/// Whether the bucket under a name can take one more observation.
pub fn bucket_has_room(table: &Table<Bucket>, name: &str, obs: &Observation) -> (room: bool)
    requires
        table_wf(*table),
    ensures
        room == crate::traffic::bucket_of(bucket_rows(table@), name@).room_for(*obs),
{
    proof {
        lemma_rows(*table, name@);
    }
    match table.find(name) {
        Some(at) => {
            let bucket: &Bucket = table.value_at(at);
            bucket.requests < u64::MAX && obs.json_bytes <= u64::MAX - bucket.json_bytes
                && obs.billed_bytes() <= u64::MAX - bucket.wire_bytes
        },
        None => true,
    }
}

} // verus!
