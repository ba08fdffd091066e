//! The parts of a telemetry report.

use std::collections::HashMap;
use vstd::prelude::*;

use crate::bucket::{Bucket, BucketView, WINDOW_HOURS};
use crate::clock::iso;
use crate::order::{order_by, ByText, Descending};
use crate::percentile::{percentiles, Percentiles};
use crate::table::Table;
use crate::traffic::{BucketRows, Minute, PathStat, TelemetryView, WINDOW_MINUTES};

verus! {

/// Rows of the path leaderboards.
pub const LEADERBOARD: usize = 50;

/// A share of a whole; the share of an empty whole counts as none.
#[derive(Clone, Copy, Debug, PartialEq, Eq)]
pub struct Ratio {
    pub part: u64,
    pub whole: u64,
}

/// The traffic of one endpoint or route. The percentiles describe the last
/// `WINDOW_HOURS`; the counters are lifetime.
#[derive(Debug)]
pub struct BucketReport {
    pub name: String,
    pub requests: u64,
    pub wire_bytes: u64,
    pub json_bytes: u64,
    pub share_of_wire_bytes: Ratio,
    pub mean_wire_bytes: u64,
    /// Greater than one means that compression is working.
    pub compression_ratio: Ratio,
    pub responses_without_content_length: u64,
    pub errors: u64,
    pub cache_hits: u64,
    pub cache_misses: u64,
    pub cache_hit_rate: Ratio,
    pub status: HashMap<u16, u64>,
    pub wire_bytes_percentiles: Option<Percentiles>,
    pub duration_ms_percentiles: Option<Percentiles>,
}

/// The fetches of all endpoints.
#[derive(Clone, Copy, Debug, PartialEq, Eq)]
pub struct Totals {
    pub upstream_requests: u64,
    pub upstream_wire_bytes: u64,
    pub upstream_json_bytes: u64,
    pub errors: u64,
}

/// What the response cache saved.
#[derive(Clone, Copy, Debug, PartialEq, Eq)]
pub struct ResponseCache {
    pub calls: u64,
    pub hits: u64,
    pub misses: u64,
    pub hit_rate: Ratio,
}

/// Bytes spent on paths fetched more than once. This is the ceiling on what a
/// bigger cache or cross-feed dedup could save.
#[derive(Clone, Copy, Debug, PartialEq, Eq)]
pub struct Duplication {
    pub distinct_paths: usize,
    pub redundant_requests: u64,
    pub redundant_wire_bytes: u64,
    pub redundant_share_of_bytes: Ratio,
    pub paths_untracked_over_cap: u64,
}

/// A row of a path leaderboard.
#[derive(Debug)]
pub struct PathReport {
    pub path: String,
    pub requests: u64,
    pub wire_bytes: u64,
}

/// A minute of the rolling window.
#[derive(Debug)]
pub struct MinuteReport {
    pub minute: Option<String>,
    pub requests: u64,
    pub wire_bytes: u64,
}

/// A telemetry report.
#[derive(Debug)]
pub struct Snapshot {
    pub enabled: bool,
    pub collecting_since: Option<String>,
    /// Counters and totals are lifetime; percentiles and `per_minute` cover this
    /// window. Said plainly so that a long-lived process is not misread.
    pub percentile_window_hours: usize,
    pub uptime_seconds: u64,
    pub totals: Totals,
    pub response_cache: ResponseCache,
    pub duplication: Duplication,
    pub by_upstream_endpoint: Vec<BucketReport>,
    pub by_inbound_route: Vec<BucketReport>,
    pub heaviest_paths: Vec<PathReport>,
    pub most_refetched_paths: Vec<PathReport>,
    pub per_minute: Vec<MinuteReport>,
}

/// Whether the percentiles are those of the samples, and absent where there are
/// none.
pub open spec fn percentiles_of(found: Option<Percentiles>, samples: Seq<u64>) -> bool {
    match found {
        Some(p) => samples.len() > 0 && crate::percentile::describes(p, samples),
        None => samples.len() == 0,
    }
}

/// Whether `row` reports the bucket with this name, where all buckets billed
/// `total_bytes`, with the percentiles of the window that ends with `hour`.
pub open spec fn reports_bucket(
    row: BucketReport,
    name: Seq<char>,
    bucket: BucketView,
    total_bytes: int,
    hour: u64,
) -> bool {
    &&& row.name@ == name
    &&& row.requests == bucket.requests
    &&& row.wire_bytes == bucket.wire_bytes
    &&& row.json_bytes == bucket.json_bytes
    &&& row.share_of_wire_bytes.part == bucket.wire_bytes
    &&& row.share_of_wire_bytes.whole == total_bytes
    &&& row.mean_wire_bytes == if bucket.requests == 0 {
        0
    } else {
        bucket.wire_bytes / bucket.requests
    }
    &&& row.compression_ratio.part == bucket.json_bytes
    &&& row.compression_ratio.whole == bucket.wire_bytes
    &&& row.responses_without_content_length == bucket.wire_missing
    &&& row.errors == bucket.errors
    &&& row.cache_hits == bucket.cache_hits
    &&& row.cache_misses == bucket.cache_misses
    &&& row.cache_hit_rate.part == bucket.cache_hits
    &&& row.cache_hit_rate.whole == bucket.cache_hits + bucket.cache_misses
    &&& row.status@ == bucket.status
    &&& percentiles_of(
        row.wire_bytes_percentiles,
        crate::bucket::window_wire(bucket.hours, hour),
    )
    &&& percentiles_of(
        row.duration_ms_percentiles,
        crate::bucket::window_duration(bucket.hours, hour),
    )
}

/// The keys that buckets are ranked by: the heaviest first.
pub open spec fn wire_keys(rows: BucketRows) -> Seq<Descending> {
    rows.map_values(|row: (Seq<char>, BucketView)| Descending(row.1.wire_bytes as u64))
}

/// Whether `out` reports all buckets, the heaviest first, and among those of one
/// weight the one first seen.
pub open spec fn ranks_buckets(
    out: Seq<BucketReport>,
    rows: BucketRows,
    total_bytes: int,
    hour: u64,
) -> bool {
    exists|order: Seq<usize>|
        {
            &&& #[trigger] crate::order::stable_order(wire_keys(rows), order)
            &&& out.len() == order.len()
            &&& forall|k: int|
                0 <= k < out.len() ==> reports_bucket(
                    #[trigger] out[k],
                    rows[order[k] as int].0,
                    rows[order[k] as int].1,
                    total_bytes,
                    hour,
                )
        }
}

/// Whether the cache counts of every bucket can be added up.
pub open spec fn cache_counts_fit(rows: BucketRows) -> bool {
    forall|i: int|
        0 <= i < rows.len() ==> (#[trigger] rows[i]).1.cache_hits + rows[i].1.cache_misses
            <= u64::MAX
}

/// Reports one bucket.
pub fn bucket_report(name: &str, bucket: &Bucket, total_bytes: u64, hour: u64) -> (row: BucketReport)
    requires
        bucket@.cache_hits + bucket@.cache_misses <= u64::MAX,
    ensures
        reports_bucket(row, name@, bucket@, total_bytes as int, hour),
{
    let (wire_samples, duration_samples) = bucket.window_samples(hour);
    let cache_calls: u64 = bucket.cache_hits + bucket.cache_misses;
    BucketReport {
        name: name.to_owned(),
        requests: bucket.requests,
        wire_bytes: bucket.wire_bytes,
        json_bytes: bucket.json_bytes,
        share_of_wire_bytes: Ratio { part: bucket.wire_bytes, whole: total_bytes },
        mean_wire_bytes: if bucket.requests == 0 {
            0
        } else {
            bucket.wire_bytes / bucket.requests
        },
        compression_ratio: Ratio { part: bucket.json_bytes, whole: bucket.wire_bytes },
        responses_without_content_length: bucket.wire_missing,
        errors: bucket.errors,
        cache_hits: bucket.cache_hits,
        cache_misses: bucket.cache_misses,
        cache_hit_rate: Ratio { part: bucket.cache_hits, whole: cache_calls },
        status: bucket.status.clone(),
        wire_bytes_percentiles: percentiles(wire_samples.as_slice()),
        duration_ms_percentiles: percentiles(duration_samples.as_slice()),
    }
}

/// Reports all buckets, the heaviest first.
pub fn bucket_reports(table: &Table<Bucket>, total_bytes: u64, hour: u64) -> (out: Vec<BucketReport>)
    requires
        table.wf(),
        cache_counts_fit(crate::buckets::bucket_rows(table@)),
    ensures
        ranks_buckets(out@, crate::buckets::bucket_rows(table@), total_bytes as int, hour),
{
    let ghost rows = crate::buckets::bucket_rows(table@);
    let mut keys: Vec<Descending> = Vec::new();
    let mut i: usize = 0;
    while i < table.len()
        invariant
            table.wf(),
            i <= table@.len(),
            rows == crate::buckets::bucket_rows(table@),
            keys@ == wire_keys(rows).take(i as int),
        decreases table@.len() - i,
    {
        keys.push(Descending(table.value_at(i).wire_bytes));
        assert(keys@ =~= wire_keys(rows).take(i + 1));
        i = i + 1;
    }
    assert(keys@ =~= wire_keys(rows));
    let order: Vec<usize> = order_by(&keys);
    let mut out: Vec<BucketReport> = Vec::new();
    let mut k: usize = 0;
    while k < order.len()
        invariant
            table.wf(),
            cache_counts_fit(rows),
            rows == crate::buckets::bucket_rows(table@),
            keys@ == wire_keys(rows),
            crate::order::stable_order(keys@, order@),
            k <= order.len(),
            out.len() == k,
            forall|j: int|
                0 <= j < k ==> reports_bucket(
                    #[trigger] out@[j],
                    rows[order@[j] as int].0,
                    rows[order@[j] as int].1,
                    total_bytes as int,
                    hour,
                ),
        decreases order.len() - k,
    {
        let at: usize = order[k];
        assert(rows[at as int].1.cache_hits + rows[at as int].1.cache_misses <= u64::MAX);
        out.push(bucket_report(table.name_at(at), table.value_at(at), total_bytes, hour));
        k = k + 1;
    }
    out
}

/// Whether the totals are those of all endpoints.
pub open spec fn totals_of(totals: Totals, rows: BucketRows) -> bool {
    &&& totals.upstream_requests == crate::table::total(rows, crate::traffic::requests_of())
    &&& totals.upstream_wire_bytes == crate::table::total(rows, crate::traffic::wire_bytes_of())
    &&& totals.upstream_json_bytes == crate::table::total(rows, crate::traffic::json_bytes_of())
    &&& totals.errors == crate::table::total(rows, crate::traffic::errors_of())
}

/// Whether the counters of all endpoints can be added up.
pub open spec fn totals_fit(rows: BucketRows) -> bool {
    &&& crate::table::total(rows, crate::traffic::requests_of()) <= u64::MAX
    &&& crate::table::total(rows, crate::traffic::wire_bytes_of()) <= u64::MAX
    &&& crate::table::total(rows, crate::traffic::json_bytes_of()) <= u64::MAX
}

/// The first few rows add up to no more than all of them, and the errors to no
/// more than the requests.
pub proof fn lemma_partial_totals(table: Table<Bucket>, n: int)
    requires
        crate::buckets::table_wf(table),
        0 <= n <= table@.len(),
    ensures
        ({
            let rows = crate::buckets::bucket_rows(table@);
            let part = rows.take(n);
            &&& 0 <= crate::table::total(part, crate::traffic::requests_of())
                <= crate::table::total(rows, crate::traffic::requests_of())
            &&& 0 <= crate::table::total(part, crate::traffic::wire_bytes_of())
                <= crate::table::total(rows, crate::traffic::wire_bytes_of())
            &&& 0 <= crate::table::total(part, crate::traffic::json_bytes_of())
                <= crate::table::total(rows, crate::traffic::json_bytes_of())
            &&& 0 <= crate::table::total(part, crate::traffic::errors_of())
                <= crate::table::total(rows, crate::traffic::requests_of())
        }),
{
    let rows = crate::buckets::bucket_rows(table@);
    let part = rows.take(n);
    assert forall|i: int| 0 <= i < rows.len() implies {
        &&& (#[trigger] rows[i]).1.requests >= 0
        &&& rows[i].1.wire_bytes >= 0
        &&& rows[i].1.json_bytes >= 0
        &&& 0 <= rows[i].1.errors <= rows[i].1.requests
    } by {
        assert(table@[i].1.wf());
    }
    crate::table::lemma_total_parts(rows, crate::traffic::requests_of(), n);
    crate::table::lemma_total_parts(rows, crate::traffic::wire_bytes_of(), n);
    crate::table::lemma_total_parts(rows, crate::traffic::json_bytes_of(), n);
    crate::table::lemma_total_parts(rows, crate::traffic::errors_of(), n);
    crate::table::lemma_total_bound(
        rows,
        crate::traffic::errors_of(),
        crate::traffic::requests_of(),
    );
}

/// Adds up the counters of all endpoints.
pub fn sum_totals(table: &Table<Bucket>) -> (totals: Totals)
    requires
        crate::buckets::table_wf(*table),
        totals_fit(crate::buckets::bucket_rows(table@)),
    ensures
        totals_of(totals, crate::buckets::bucket_rows(table@)),
{
    let ghost rows = crate::buckets::bucket_rows(table@);
    let mut totals = Totals {
        upstream_requests: 0,
        upstream_wire_bytes: 0,
        upstream_json_bytes: 0,
        errors: 0,
    };
    let mut i: usize = 0;
    while i < table.len()
        invariant
            crate::buckets::table_wf(*table),
            i <= table@.len(),
            rows == crate::buckets::bucket_rows(table@),
            totals_fit(rows),
            totals_of(totals, rows.take(i as int)),
        decreases table@.len() - i,
    {
        let bucket: &Bucket = table.value_at(i);
        proof {
            lemma_partial_totals(*table, i + 1);
            assert(rows.take(i + 1).drop_last() =~= rows.take(i as int));
            assert(rows.take(i + 1).last().1 == bucket@);
        }
        totals = Totals {
            upstream_requests: totals.upstream_requests + bucket.requests,
            upstream_wire_bytes: totals.upstream_wire_bytes + bucket.wire_bytes,
            upstream_json_bytes: totals.upstream_json_bytes + bucket.json_bytes,
            errors: totals.errors + bucket.errors,
        };
        i = i + 1;
    }
    assert(rows.take(i as int) =~= rows);
    totals
}

/// The fetches of a path behind its first.
pub open spec fn repeats_of() -> spec_fn(PathStat) -> int {
    |s: PathStat|
        if s.requests > 1 {
            s.requests - 1
        } else {
            0
        }
}

/// The bytes of a path without those of an average fetch, where it was fetched
/// more than once.
pub open spec fn repeated_bytes_of() -> spec_fn(PathStat) -> int {
    |s: PathStat|
        if s.requests > 1 {
            s.wire_bytes - s.wire_bytes as int / s.requests as int
        } else {
            0
        }
}

/// Whether `d` says what was fetched more than once.
pub open spec fn duplication_of(
    d: Duplication,
    paths: Seq<(Seq<char>, PathStat)>,
    evicted: int,
    total_bytes: int,
) -> bool {
    &&& d.distinct_paths == paths.len()
    &&& d.redundant_requests == crate::table::total(paths, repeats_of())
    &&& d.redundant_wire_bytes == crate::table::total(paths, repeated_bytes_of())
    &&& d.redundant_share_of_bytes.part == crate::table::total(paths, repeated_bytes_of())
    &&& d.redundant_share_of_bytes.whole == total_bytes
    &&& d.paths_untracked_over_cap == evicted
}

/// What was fetched again, of the first few paths, is part of what was fetched
/// again, and that is part of what was fetched.
pub proof fn lemma_repeats(paths: Seq<(Seq<char>, PathStat)>, n: int)
    requires
        0 <= n <= paths.len(),
    ensures
        0 <= crate::table::total(paths.take(n), repeats_of()) <= crate::table::total(
            paths,
            repeats_of(),
        ) <= crate::table::total(paths, crate::traffic::path_requests_of()),
        0 <= crate::table::total(paths.take(n), repeated_bytes_of()) <= crate::table::total(
            paths,
            repeated_bytes_of(),
        ) <= crate::table::total(paths, crate::traffic::path_bytes_of()),
{
    assert forall|i: int| 0 <= i < paths.len() implies {
        &&& 0 <= repeats_of()((#[trigger] paths[i]).1) <= crate::traffic::path_requests_of()(
            paths[i].1,
        )
        &&& 0 <= repeated_bytes_of()(paths[i].1) <= crate::traffic::path_bytes_of()(paths[i].1)
    } by {
        let bytes = paths[i].1.wire_bytes as int;
        let requests = paths[i].1.requests as int;
        if requests > 1 {
            assert(0 <= bytes / requests <= bytes) by (nonlinear_arith)
                requires
                    bytes >= 0,
                    requests > 1,
            ;
        }
    }
    crate::table::lemma_total_parts(paths, repeats_of(), n);
    crate::table::lemma_total_parts(paths, repeated_bytes_of(), n);
    crate::table::lemma_total_bound(paths, repeats_of(), crate::traffic::path_requests_of());
    crate::table::lemma_total_bound(paths, repeated_bytes_of(), crate::traffic::path_bytes_of());
}

/// Adds up what was fetched more than once.
pub fn duplication(paths: &Table<PathStat>, evicted: u64, total_bytes: u64) -> (d: Duplication)
    requires
        paths.wf(),
        crate::table::total(paths@, repeats_of()) <= u64::MAX,
        crate::table::total(paths@, repeated_bytes_of()) <= u64::MAX,
    ensures
        duplication_of(d, paths@, evicted as int, total_bytes as int),
{
    let mut requests: u64 = 0;
    let mut bytes: u64 = 0;
    let mut i: usize = 0;
    while i < paths.len()
        invariant
            paths.wf(),
            i <= paths@.len(),
            crate::table::total(paths@, repeats_of()) <= u64::MAX,
            crate::table::total(paths@, repeated_bytes_of()) <= u64::MAX,
            requests == crate::table::total(paths@.take(i as int), repeats_of()),
            bytes == crate::table::total(paths@.take(i as int), repeated_bytes_of()),
        decreases paths@.len() - i,
    {
        let stat: &PathStat = paths.value_at(i);
        proof {
            lemma_repeats(paths@, i + 1);
            assert(paths@.take(i + 1).drop_last() =~= paths@.take(i as int));
            assert(paths@.take(i + 1).last().1 == *stat);
        }
        if stat.requests > 1 {
            let whole: u64 = stat.wire_bytes;
            let fetches: u64 = stat.requests;
            assert(whole / fetches <= whole) by (nonlinear_arith)
                requires
                    fetches > 1,
                    whole >= 0,
            ;
            requests = requests + (fetches - 1);
            bytes = bytes + (whole - whole / fetches);
        }
        i = i + 1;
    }
    assert(paths@.take(i as int) =~= paths@);
    Duplication {
        distinct_paths: paths.len(),
        redundant_requests: requests,
        redundant_wire_bytes: bytes,
        redundant_share_of_bytes: Ratio { part: bytes, whole: total_bytes },
        paths_untracked_over_cap: evicted,
    }
}

/// Named path counters, in the order in which the paths were first seen.
pub type PathRows = Seq<(Seq<char>, PathStat)>;

/// The keys of the paths that cost the most.
pub open spec fn byte_keys(rows: PathRows) -> Seq<Descending> {
    rows.map_values(|row: (Seq<char>, PathStat)| Descending(row.1.wire_bytes))
}

/// The keys of the paths that were fetched the most.
pub open spec fn request_keys(rows: PathRows) -> Seq<Descending> {
    rows.map_values(|row: (Seq<char>, PathStat)| Descending(row.1.requests))
}

/// The paths that were fetched more than once.
pub open spec fn refetched(rows: PathRows) -> PathRows {
    rows.filter(|row: (Seq<char>, PathStat)| row.1.requests > 1)
}

/// Whether `out` is a leaderboard: the first rows by key, and among those of one
/// key by position, up to its length.
pub open spec fn leads(out: Seq<PathReport>, rows: PathRows, keys: Seq<Descending>) -> bool {
    exists|order: Seq<usize>|
        {
            &&& #[trigger] crate::order::stable_order(keys, order)
            &&& out.len() == if rows.len() < LEADERBOARD {
                rows.len()
            } else {
                LEADERBOARD as nat
            }
            &&& forall|k: int|
                0 <= k < out.len() ==> {
                    &&& (#[trigger] out[k]).path@ == rows[order[k] as int].0
                    &&& out[k].requests == rows[order[k] as int].1.requests
                    &&& out[k].wire_bytes == rows[order[k] as int].1.wire_bytes
                }
        }
}

/// The rows at the given places.
spec fn picked_rows(rows: PathRows, picked: Seq<usize>) -> PathRows {
    picked.map_values(|at: usize| rows[at as int])
}

/// Reports the first of the picked paths by their keys.
fn lead(paths: &Table<PathStat>, picked: &Vec<usize>, keys: &Vec<Descending>) -> (out: Vec<PathReport>)
    requires
        paths.wf(),
        keys.len() == picked.len(),
        forall|k: int| 0 <= k < picked.len() ==> #[trigger] picked@[k] < paths@.len(),
    ensures
        leads(out@, picked_rows(paths@, picked@), keys@),
{
    let order: Vec<usize> = order_by(keys);
    let ghost rows = picked_rows(paths@, picked@);
    let mut out: Vec<PathReport> = Vec::new();
    let mut k: usize = 0;
    while k < order.len() && k < LEADERBOARD
        invariant
            paths.wf(),
            keys.len() == picked.len(),
            forall|j: int| 0 <= j < picked.len() ==> #[trigger] picked@[j] < paths@.len(),
            crate::order::stable_order(keys@, order@),
            rows == picked_rows(paths@, picked@),
            k <= order.len(),
            k <= LEADERBOARD,
            out.len() == k,
            forall|j: int|
                0 <= j < k ==> {
                    &&& (#[trigger] out@[j]).path@ == rows[order@[j] as int].0
                    &&& out@[j].requests == rows[order@[j] as int].1.requests
                    &&& out@[j].wire_bytes == rows[order@[j] as int].1.wire_bytes
                },
        decreases order.len() - k,
    {
        let at: usize = picked[order[k]];
        let stat: &PathStat = paths.value_at(at);
        out.push(
            PathReport {
                path: paths.name_at(at).to_owned(),
                requests: stat.requests,
                wire_bytes: stat.wire_bytes,
            },
        );
        k = k + 1;
    }
    out
}

/// The paths that cost the most.
pub fn heaviest_paths(paths: &Table<PathStat>) -> (out: Vec<PathReport>)
    requires
        paths.wf(),
    ensures
        leads(out@, paths@, byte_keys(paths@)),
{
    let mut picked: Vec<usize> = Vec::new();
    let mut keys: Vec<Descending> = Vec::new();
    let mut i: usize = 0;
    while i < paths.len()
        invariant
            paths.wf(),
            i <= paths@.len(),
            picked.len() == i,
            forall|k: int| 0 <= k < i ==> #[trigger] picked@[k] == k,
            keys@ == byte_keys(paths@).take(i as int),
        decreases paths@.len() - i,
    {
        picked.push(i);
        keys.push(Descending(paths.value_at(i).wire_bytes));
        assert(keys@ =~= byte_keys(paths@).take(i + 1));
        i = i + 1;
    }
    assert(keys@ =~= byte_keys(paths@));
    assert(picked_rows(paths@, picked@) =~= paths@);
    lead(paths, &picked, &keys)
}

/// The paths that were fetched more than once, and those most often first.
pub fn most_refetched_paths(paths: &Table<PathStat>) -> (out: Vec<PathReport>)
    requires
        paths.wf(),
    ensures
        leads(out@, refetched(paths@), request_keys(refetched(paths@))),
{
    let mut picked: Vec<usize> = Vec::new();
    let mut keys: Vec<Descending> = Vec::new();
    let mut i: usize = 0;
    proof {
        reveal(Seq::filter);
        assert(picked_rows(paths@, picked@) =~= refetched(paths@.take(0)));
        assert(keys@ =~= request_keys(refetched(paths@.take(0))));
    }
    while i < paths.len()
        invariant
            paths.wf(),
            i <= paths@.len(),
            forall|k: int| 0 <= k < picked.len() ==> #[trigger] picked@[k] < paths@.len(),
            picked_rows(paths@, picked@) == refetched(paths@.take(i as int)),
            keys@ == request_keys(refetched(paths@.take(i as int))),
        decreases paths@.len() - i,
    {
        let ghost before = picked@;
        let ghost rows = refetched(paths@.take(i as int));
        let requests: u64 = paths.value_at(i).requests;
        proof {
            reveal(Seq::filter);
            assert(paths@.take(i + 1).drop_last() =~= paths@.take(i as int));
            assert(paths@.take(i + 1).last() == paths@[i as int]);
        }
        if requests > 1 {
            picked.push(i);
            keys.push(Descending(requests));
            assert(picked_rows(paths@, picked@) =~= picked_rows(paths@, before).push(
                paths@[i as int],
            ));
            assert(keys@ =~= request_keys(rows.push(paths@[i as int])));
        }
        i = i + 1;
    }
    assert(paths@.take(i as int) =~= paths@);
    lead(paths, &picked, &keys)
}

/// The minutes within the window that ends with `current`, slot by slot.
pub open spec fn live_minutes(minutes: Seq<Minute>, current: u64) -> Seq<Minute> {
    minutes.filter(|minute: Minute| minute.live(current))
}

/// Whether one row may stand before another: rows without a text first, then by
/// their text.
pub open spec fn reads_before(a: Option<String>, b: Option<String>) -> bool {
    match (a, b) {
        (None, _) => true,
        (Some(_), None) => false,
        (Some(x), Some(y)) => crate::text::text_le(x@, y@),
    }
}

/// Whether `row` reports this minute.
pub open spec fn reports_minute(row: MinuteReport, minute: Minute) -> bool {
    &&& crate::clock::optional_text(row.minute) == crate::clock::iso_text(
        (minute.stamp * 60) as u64,
    )
    &&& row.requests == minute.requests
    &&& row.wire_bytes == minute.wire_bytes
}

/// Whether `out` reports these minutes in the given order, which is that of their
/// text and, for minutes with a calendar date, that of time.
pub open spec fn lists_in_turn(
    out: Seq<MinuteReport>,
    live: Seq<Minute>,
    order: Seq<usize>,
) -> bool {
    &&& crate::order::permutes(order, live.len())
    &&& out.len() == live.len()
    &&& forall|k: int|
        0 <= k < out.len() ==> reports_minute(#[trigger] out[k], live[order[k] as int])
    &&& forall|a: int, b: int|
        #![trigger out[a], out[b]]
        0 <= a < b < out.len() ==> {
            &&& reads_before(out[a].minute, out[b].minute)
            &&& reads_before(out[b].minute, out[a].minute) ==> order[a] < order[b]
            &&& live[order[a] as int].stamp * 60 <= crate::clock::LAST_SECOND
                && live[order[b] as int].stamp * 60 <= crate::clock::LAST_SECOND ==> {
                &&& live[order[a] as int].stamp < live[order[b] as int].stamp
                &&& out[a].minute is Some
                &&& out[b].minute is Some
                &&& crate::text::text_lt(out[a].minute->0@, out[b].minute->0@)
            }
        }
}

/// Whether `out` reports all these minutes, each once, ordered by their text.
pub open spec fn lists_minutes(out: Seq<MinuteReport>, live: Seq<Minute>) -> bool {
    exists|order: Seq<usize>| #[trigger] lists_in_turn(out, live, order)
}

/// Whether `text` is that of a stored timestamp, and sorts behind those of the
/// earlier ones.
spec fn text_of(text: Option<String>, secs: u64) -> bool {
    &&& crate::clock::optional_text(text) == crate::clock::iso_text(secs)
    &&& 0 < secs <= crate::clock::LAST_SECOND ==> {
        &&& text is Some
        &&& forall|earlier: u64|
            0 < earlier < secs ==> (#[trigger] crate::clock::iso_text(earlier) matches Some(before)
                ==> crate::text::text_lt(before, text->0@))
    }
}

/// Reports the minutes within the window that ends with `current`, in the order
/// of their text.
pub fn per_minute(minutes: &Vec<Minute>, current: u64) -> (out: Vec<MinuteReport>)
    requires
        minutes@.len() <= WINDOW_MINUTES,
        forall|i: int|
            0 <= i < minutes@.len() ==> {
                let minute = #[trigger] minutes@[i];
                &&& minute.stamp <= u64::MAX / 60
                &&& minute.stamp != 0 ==> minute.stamp % WINDOW_MINUTES as u64 == i
            },
    ensures
        lists_minutes(out@, live_minutes(minutes@, current)),
{
    let mut live: Vec<Minute> = Vec::new();
    let mut texts: Vec<ByText> = Vec::new();
    let mut i: usize = 0;
    proof {
        reveal(Seq::filter);
        assert(live@ =~= live_minutes(minutes@.take(0), current));
    }
    while i < minutes.len()
        invariant
            i <= minutes.len(),
            minutes@.len() <= WINDOW_MINUTES,
            forall|i: int|
                0 <= i < minutes@.len() ==> {
                    let minute = #[trigger] minutes@[i];
                    &&& minute.stamp <= u64::MAX / 60
                    &&& minute.stamp != 0 ==> minute.stamp % WINDOW_MINUTES as u64 == i
                },
            live@ == live_minutes(minutes@.take(i as int), current),
            texts.len() == live.len(),
            forall|k: int|
                0 <= k < live.len() ==> {
                    let minute = #[trigger] live@[k];
                    &&& 0 < minute.stamp <= u64::MAX / 60
                    &&& minute.stamp % (WINDOW_MINUTES as u64) < i
                    &&& text_of(texts@[k].0, (minute.stamp * 60) as u64)
                },
            forall|a: int, b: int|
                #![trigger live@[a], live@[b]]
                0 <= a < b < live.len() ==> live@[a].stamp % (WINDOW_MINUTES as u64)
                    < live@[b].stamp % (WINDOW_MINUTES as u64),
        decreases minutes.len() - i,
    {
        let minute: Minute = minutes[i];
        proof {
            reveal(Seq::filter);
            assert(minutes@.take(i + 1).drop_last() =~= minutes@.take(i as int));
            assert(minutes@.take(i + 1).last() == minute);
        }
        if minute.stamp != 0 && current.saturating_sub(minute.stamp) < WINDOW_MINUTES as u64 {
            texts.push(ByText(iso(minute.stamp * 60)));
            live.push(minute);
        }
        i = i + 1;
    }
    assert(minutes@.take(i as int) =~= minutes@);
    let order: Vec<usize> = order_by(&texts);
    let mut out: Vec<MinuteReport> = Vec::new();
    let mut k: usize = 0;
    while k < order.len()
        invariant
            texts.len() == live.len(),
            crate::order::stable_order(texts@, order@),
            forall|k: int|
                0 <= k < live.len() ==> text_of(
                    texts@[k].0,
                    ((#[trigger] live@[k]).stamp * 60) as u64,
                ),
            k <= order.len(),
            out.len() == k,
            forall|j: int|
                0 <= j < k ==> {
                    &&& reports_minute(#[trigger] out@[j], live@[order@[j] as int])
                    &&& out@[j].minute == texts@[order@[j] as int].0
                },
        decreases order.len() - k,
    {
        let at: usize = order[k];
        let text: Option<String> = match &texts[at].0 {
            Some(text) => Some(text.clone()),
            None => None,
        };
        let minute: Minute = live[at];
        assert(text_of(texts@[at as int].0, (live@[at as int].stamp * 60) as u64));
        out.push(
            MinuteReport {
                minute: text,
                requests: minute.requests,
                wire_bytes: minute.wire_bytes,
            },
        );
        k = k + 1;
    }
    proof {
        assert forall|a: int, b: int|
            #![trigger order@[a], order@[b]]
            0 <= a < b < order@.len() implies order@[a] != order@[b] by {
            assert(crate::order::precedes(texts@, order@[a] as int, order@[b] as int));
        }
        assert(crate::order::permutes(order@, live@.len()));
        assert forall|a: int, b: int|
            #![trigger out@[a], out@[b]]
            0 <= a < b < out@.len() implies {
            &&& reads_before(out@[a].minute, out@[b].minute)
            &&& reads_before(out@[b].minute, out@[a].minute) ==> order@[a] < order@[b]
            &&& live@[order@[a] as int].stamp * 60 <= crate::clock::LAST_SECOND
                && live@[order@[b] as int].stamp * 60 <= crate::clock::LAST_SECOND ==> {
                &&& live@[order@[a] as int].stamp < live@[order@[b] as int].stamp
                &&& out@[a].minute is Some
                &&& out@[b].minute is Some
                &&& crate::text::text_lt(out@[a].minute->0@, out@[b].minute->0@)
            }
        } by {
            let x = order@[a] as int;
            let y = order@[b] as int;
            assert(crate::order::precedes(texts@, x, y));
            assert(text_of(texts@[x].0, (live@[x].stamp * 60) as u64));
            assert(text_of(texts@[y].0, (live@[y].stamp * 60) as u64));
            if x < y {
                assert(live@[x].stamp % (WINDOW_MINUTES as u64) < live@[y].stamp % (
                WINDOW_MINUTES as u64));
            } else {
                assert(live@[y].stamp % (WINDOW_MINUTES as u64) < live@[x].stamp % (
                WINDOW_MINUTES as u64));
            }
            if live@[x].stamp * 60 <= crate::clock::LAST_SECOND && live@[y].stamp * 60
                <= crate::clock::LAST_SECOND && live@[x].stamp > live@[y].stamp {
                let earlier = (live@[y].stamp * 60) as u64;
                assert(crate::clock::iso_text(earlier) is Some);
                crate::text::lemma_text_antisymmetric(texts@[x].0->0@, texts@[y].0->0@);
            }
            if live@[x].stamp * 60 <= crate::clock::LAST_SECOND && live@[y].stamp * 60
                <= crate::clock::LAST_SECOND {
                assert(crate::clock::iso_text((live@[x].stamp * 60) as u64) is Some);
            }
        }
        assert(lists_in_turn(out@, live@, order@));
    }
    out
}

/// Whether what telemetry holds can be added up in a report.
pub open spec fn reportable(held: TelemetryView) -> bool {
    &&& totals_fit(held.by_endpoint)
    &&& cache_counts_fit(held.by_endpoint)
    &&& cache_counts_fit(held.by_route)
}

/// Whether `cache` says what the response cache saved: every call that was not a
/// miss is a hit.
pub open spec fn response_cache_of(cache: ResponseCache, held: TelemetryView) -> bool {
    &&& cache.calls == held.json_calls
    &&& cache.misses == held.cache_misses
    &&& cache.hits == if held.json_calls < held.cache_misses {
        0
    } else {
        held.json_calls - held.cache_misses
    }
    &&& cache.hit_rate.part == cache.hits
    &&& cache.hit_rate.whole == cache.calls
}

/// Whether `report` reports what telemetry holds, with three clock readings in
/// seconds: those for the hour, for the minute and for the uptime.
pub open spec fn snapshot_of(
    report: Snapshot,
    held: TelemetryView,
    first: u64,
    second: u64,
    third: u64,
) -> bool {
    let total_bytes = crate::table::total(held.by_endpoint, crate::traffic::wire_bytes_of());
    let hour = first / 3600;
    &&& report.enabled
    &&& crate::clock::optional_text(report.collecting_since) == crate::clock::iso_text(
        held.started_at,
    )
    &&& report.percentile_window_hours == WINDOW_HOURS
    &&& report.uptime_seconds == crate::clock::elapsed(third, held.started_at)
    &&& totals_of(report.totals, held.by_endpoint)
    &&& response_cache_of(report.response_cache, held)
    &&& duplication_of(report.duplication, held.paths, held.paths_evicted, total_bytes)
    &&& ranks_buckets(report.by_upstream_endpoint@, held.by_endpoint, total_bytes, hour)
    &&& ranks_buckets(report.by_inbound_route@, held.by_route, total_bytes, hour)
    &&& leads(report.heaviest_paths@, held.paths, byte_keys(held.paths))
    &&& leads(
        report.most_refetched_paths@,
        refetched(held.paths),
        request_keys(refetched(held.paths)),
    )
    &&& lists_minutes(report.per_minute@, live_minutes(held.minutes, second / 60))
}

/// The heaviest endpoint stands first: no bucket is reported before one that
/// weighs more, and each name is reported once.
pub proof fn lemma_heaviest_first(
    out: Seq<BucketReport>,
    rows: BucketRows,
    total_bytes: int,
    hour: u64,
    a: int,
    b: int,
)
    requires
        crate::traffic::buckets_wf(rows),
        ranks_buckets(out, rows, total_bytes, hour),
        0 <= a < b < out.len(),
    ensures
        out[a].wire_bytes >= out[b].wire_bytes,
        out[a].name@ != out[b].name@,
        out.len() == rows.len(),
{
    let order = choose|order: Seq<usize>|
        {
            &&& #[trigger] crate::order::stable_order(wire_keys(rows), order)
            &&& out.len() == order.len()
            &&& forall|k: int|
                0 <= k < out.len() ==> reports_bucket(
                    #[trigger] out[k],
                    rows[order[k] as int].0,
                    rows[order[k] as int].1,
                    total_bytes,
                    hour,
                )
        };
    let x = order[a] as int;
    let y = order[b] as int;
    assert(crate::order::precedes(wire_keys(rows), x, y));
    assert(reports_bucket(out[a], rows[x].0, rows[x].1, total_bytes, hour));
    assert(reports_bucket(out[b], rows[y].0, rows[y].1, total_bytes, hour));
    assert(wire_keys(rows)[x] == Descending(rows[x].1.wire_bytes as u64));
    assert(wire_keys(rows)[y] == Descending(rows[y].1.wire_bytes as u64));
    if x < y {
        assert(rows[x].0 != rows[y].0);
    } else {
        assert(rows[y].0 != rows[x].0);
    }
}

/// No path that a leaderboard leaves out has a greater key than one that it
/// lists.
pub proof fn lemma_leaderboard_leads(
    out: Seq<PathReport>,
    rows: PathRows,
    keys: Seq<Descending>,
    at: int,
)
    requires
        leads(out, rows, keys),
        keys.len() == rows.len(),
        rows.len() <= usize::MAX,
        crate::table::distinct(rows),
        0 <= at < rows.len(),
    ensures
        (exists|k: int| 0 <= k < out.len() && (#[trigger] out[k]).path@ == rows[at].0) || (forall|
            i: int,
            k: int,
        |
            #![trigger rows[i], out[k]]
            0 <= i < rows.len() && 0 <= k < out.len() && out[k].path@ == rows[i].0 ==> keys[i].0
                >= keys[at].0),
{
    let order = choose|order: Seq<usize>|
        {
            &&& #[trigger] crate::order::stable_order(keys, order)
            &&& out.len() == if rows.len() < LEADERBOARD {
                rows.len()
            } else {
                LEADERBOARD as nat
            }
            &&& forall|k: int|
                0 <= k < out.len() ==> {
                    &&& (#[trigger] out[k]).path@ == rows[order[k] as int].0
                    &&& out[k].requests == rows[order[k] as int].1.requests
                    &&& out[k].wire_bytes == rows[order[k] as int].1.wire_bytes
                }
        };
    assert(order.contains(at as usize));
    let place = choose|place: int| 0 <= place < order.len() && order[place] == at as usize;
    if place < out.len() {
        assert(out[place].path@ == rows[at].0);
    } else {
        assert forall|i: int, k: int|
            #![trigger rows[i], out[k]]
            0 <= i < rows.len() && 0 <= k < out.len() && out[k].path@ == rows[i].0 implies keys[i].0
            >= keys[at].0 by {
            let j = order[k] as int;
            assert(rows[j].0 == rows[i].0);
            if j < i {
                assert(rows[j].0 != rows[i].0);
            } else if i < j {
                assert(rows[i].0 != rows[j].0);
            }
            assert(crate::order::precedes(keys, order[k] as int, order[place] as int));
        }
    }
}

/// Every tracked path was fetched once and then again as often as its repeats
/// say.
proof fn lemma_repeats_count(paths: PathRows)
    requires
        forall|i: int| 0 <= i < paths.len() ==> (#[trigger] paths[i]).1.requests > 0,
    ensures
        crate::table::total(paths, repeats_of()) + paths.len() == crate::table::total(
            paths,
            crate::traffic::path_requests_of(),
        ),
    decreases paths.len(),
{
    if paths.len() > 0 {
        let front = paths.drop_last();
        assert forall|i: int| 0 <= i < front.len() implies (#[trigger] front[i]).1.requests > 0 by {
            assert(front[i] == paths[i]);
        }
        assert(paths[paths.len() - 1].1.requests > 0);
        lemma_repeats_count(front);
    }
}

/// Whether the rows of a report add up to the totals.
pub open spec fn rows_add_up(rows: Seq<BucketReport>, totals: Totals) -> bool {
    &&& crate::sum::sum_of(rows, |row: BucketReport| row.requests as int)
        == totals.upstream_requests
    &&& crate::sum::sum_of(rows, |row: BucketReport| row.wire_bytes as int)
        == totals.upstream_wire_bytes
    &&& crate::sum::sum_of(rows, |row: BucketReport| row.json_bytes as int)
        == totals.upstream_json_bytes
    &&& crate::sum::sum_of(rows, |row: BucketReport| row.errors as int) == totals.errors
}

/// A total over named rows is the sum of what they hold.
proof fn lemma_total_is_sum(rows: BucketRows, f: spec_fn(BucketView) -> int)
    ensures
        crate::table::total(rows, f) == crate::sum::sum_of(
            rows,
            |row: (Seq<char>, BucketView)| f(row.1),
        ),
    decreases rows.len(),
{
    if rows.len() > 0 {
        lemma_total_is_sum(rows.drop_last(), f);
    }
}

/// A figure of all rows of a report adds up to that of all buckets.
proof fn lemma_ranked_sum(
    out: Seq<BucketReport>,
    rows: BucketRows,
    order: Seq<usize>,
    figure: spec_fn(BucketReport) -> int,
    f: spec_fn(BucketView) -> int,
)
    requires
        rows.len() <= usize::MAX,
        crate::order::permutes(order, rows.len()),
        out.len() == order.len(),
        forall|k: int|
            0 <= k < out.len() ==> figure(#[trigger] out[k]) == f(rows[order[k] as int].1),
    ensures
        crate::sum::sum_of(out, figure) == crate::table::total(rows, f),
{
    let g = |row: (Seq<char>, BucketView)| f(row.1);
    let at = |i: usize| g(rows[i as int]);
    lemma_total_is_sum(rows, f);
    crate::sum::lemma_sum_permuted(rows, g, order);
    assert forall|k: int|
        #![trigger out[k]]
        #![trigger order[k]]
        0 <= k < out.len() implies figure(out[k]) == at(order[k]) by {
    }
    crate::sum::lemma_sum_pairwise(out, figure, order, at);
}

/// Rows of a report add up to the totals that their buckets have.
proof fn lemma_rows_add_up(
    out: Seq<BucketReport>,
    rows: BucketRows,
    total_bytes: int,
    hour: u64,
    totals: Totals,
)
    requires
        ranks_buckets(out, rows, total_bytes, hour),
        totals_of(totals, rows),
        out.len() <= usize::MAX,
    ensures
        rows_add_up(out, totals),
{
    let keys = wire_keys(rows);
    let order = choose|order: Seq<usize>|
        {
            &&& #[trigger] crate::order::stable_order(keys, order)
            &&& out.len() == order.len()
            &&& forall|k: int|
                0 <= k < out.len() ==> reports_bucket(
                    #[trigger] out[k],
                    rows[order[k] as int].0,
                    rows[order[k] as int].1,
                    total_bytes,
                    hour,
                )
        };
    crate::order::lemma_stable_order_permutes(keys, order);
    assert forall|k: int| 0 <= k < out.len() implies {
        let bucket = rows[order[k] as int].1;
        &&& (#[trigger] out[k]).requests == bucket.requests
        &&& out[k].wire_bytes == bucket.wire_bytes
        &&& out[k].json_bytes == bucket.json_bytes
        &&& out[k].errors == bucket.errors
    } by {
        assert(reports_bucket(
            out[k],
            rows[order[k] as int].0,
            rows[order[k] as int].1,
            total_bytes,
            hour,
        ));
    }
    lemma_ranked_sum(
        out,
        rows,
        order,
        |row: BucketReport| row.requests as int,
        crate::traffic::requests_of(),
    );
    lemma_ranked_sum(
        out,
        rows,
        order,
        |row: BucketReport| row.wire_bytes as int,
        crate::traffic::wire_bytes_of(),
    );
    lemma_ranked_sum(
        out,
        rows,
        order,
        |row: BucketReport| row.json_bytes as int,
        crate::traffic::json_bytes_of(),
    );
    lemma_ranked_sum(
        out,
        rows,
        order,
        |row: BucketReport| row.errors as int,
        crate::traffic::errors_of(),
    );
}

/// The figures of a report agree with each other: every upstream request is the
/// first fetch of a path, a redundant one, or untracked; what was spent on
/// redundant fetches is part of what was spent; the misses of the response cache
/// are those of all endpoints; and the rows by endpoint, and those by route, add
/// up to the totals.
pub proof fn lemma_report_adds_up(
    report: Snapshot,
    held: TelemetryView,
    first: u64,
    second: u64,
    third: u64,
)
    requires
        held.wf(),
        snapshot_of(report, held, first, second, third),
    ensures
        report.totals.upstream_requests == report.duplication.distinct_paths
            + report.duplication.redundant_requests + report.duplication.paths_untracked_over_cap,
        report.duplication.redundant_wire_bytes <= report.totals.upstream_wire_bytes,
        report.totals.errors <= report.totals.upstream_requests,
        crate::table::total(held.by_endpoint, crate::traffic::misses_of()) <= u64::MAX
            ==> report.response_cache.misses == crate::table::total(
            held.by_endpoint,
            crate::traffic::misses_of(),
        ),
        rows_add_up(report.by_upstream_endpoint@, report.totals),
        rows_add_up(report.by_inbound_route@, report.totals),
{
    let total_bytes = crate::table::total(held.by_endpoint, crate::traffic::wire_bytes_of());
    assert(report.by_upstream_endpoint@.len() == report.by_upstream_endpoint.len());
    assert(report.by_inbound_route@.len() == report.by_inbound_route.len());
    lemma_rows_add_up(
        report.by_upstream_endpoint@,
        held.by_endpoint,
        total_bytes,
        first / 3600,
        report.totals,
    );
    lemma_rows_add_up(
        report.by_inbound_route@,
        held.by_route,
        total_bytes,
        first / 3600,
        report.totals,
    );
    lemma_repeats_count(held.paths);
    lemma_repeats(held.paths, held.paths.len() as int);
    assert(held.paths.take(held.paths.len() as int) =~= held.paths);
    assert forall|i: int| 0 <= i < held.by_endpoint.len() implies crate::traffic::errors_of()(
        (#[trigger] held.by_endpoint[i]).1,
    ) <= crate::traffic::requests_of()(held.by_endpoint[i].1) by {
        assert(held.by_endpoint[i].1.wf());
    }
    crate::table::lemma_total_bound(
        held.by_endpoint,
        crate::traffic::errors_of(),
        crate::traffic::requests_of(),
    );
    assert forall|i: int| 0 <= i < held.by_endpoint.len() implies crate::traffic::misses_of()(
        (#[trigger] held.by_endpoint[i]).1,
    ) >= 0 by {
        assert(held.by_endpoint[i].1.wf());
    }
    crate::table::lemma_total_parts(held.by_endpoint, crate::traffic::misses_of(), 0);
}

/// The fetches of a row of the minute curve.
pub open spec fn row_requests_of() -> spec_fn(MinuteReport) -> int {
    |row: MinuteReport| row.requests as int
}

/// The bytes of a row of the minute curve.
pub open spec fn row_bytes_of() -> spec_fn(MinuteReport) -> int {
    |row: MinuteReport| row.wire_bytes as int
}

/// The minute curve adds up to the traffic of the minutes within the window, and
/// never to more than the lifetime totals.
pub proof fn lemma_curve_within_totals(
    report: Snapshot,
    held: TelemetryView,
    first: u64,
    second: u64,
    third: u64,
)
    requires
        held.wf(),
        snapshot_of(report, held, first, second, third),
    ensures
        ({
            let live = live_minutes(held.minutes, second / 60);
            let rows = report.per_minute@;
            &&& crate::sum::sum_of(rows, row_requests_of()) == crate::sum::sum_of(
                live,
                crate::traffic::minute_requests_of(),
            )
            &&& crate::sum::sum_of(rows, row_bytes_of()) == crate::sum::sum_of(
                live,
                crate::traffic::minute_bytes_of(),
            )
            &&& crate::sum::sum_of(rows, row_requests_of()) <= report.totals.upstream_requests
            &&& crate::sum::sum_of(rows, row_bytes_of()) <= report.totals.upstream_wire_bytes
        }),
{
    let live = live_minutes(held.minutes, second / 60);
    let rows = report.per_minute@;
    let keep = |minute: Minute| minute.live(second / 60);
    let requests = crate::traffic::minute_requests_of();
    let bytes = crate::traffic::minute_bytes_of();
    held.minutes.lemma_filter_len(keep);
    let order = choose|order: Seq<usize>| #[trigger] lists_in_turn(rows, live, order);
    crate::sum::lemma_sum_permuted(live, requests, order);
    crate::sum::lemma_sum_permuted(live, bytes, order);
    let at_requests = |i: usize| requests(live[i as int]);
    let at_bytes = |i: usize| bytes(live[i as int]);
    assert forall|k: int|
        #![trigger rows[k]]
        #![trigger order[k]]
        0 <= k < rows.len() implies row_requests_of()(rows[k]) == at_requests(order[k])
        && row_bytes_of()(rows[k]) == at_bytes(order[k]) by {
        assert(reports_minute(rows[k], live[order[k] as int]));
    }
    crate::sum::lemma_sum_pairwise(rows, row_requests_of(), order, at_requests);
    crate::sum::lemma_sum_pairwise(rows, row_bytes_of(), order, at_bytes);
    crate::sum::lemma_sum_filter(held.minutes, requests, keep);
    crate::sum::lemma_sum_filter(held.minutes, bytes, keep);
}

/// As long as no more misses than calls were noted, the hits of the response
/// cache are the calls without the misses.
pub proof fn lemma_hits_are_calls_without_misses(cache: ResponseCache, held: TelemetryView)
    requires
        response_cache_of(cache, held),
        held.cache_misses <= held.json_calls,
    ensures
        cache.hits + cache.misses == cache.calls,
{
}

} // verus!
