//! How one event shows in what telemetry holds, and how what it holds shows in a
//! report.

use vstd::prelude::*;

use crate::bucket::{BucketView, Observation, SlotView};
use crate::percentile::Percentiles;
use crate::report::{BucketReport, Duplication, MinuteReport, PathReport, Snapshot};
use crate::traffic::{BucketRows, Minute, PathStat, TelemetryView};

verus! {

/// How often a status was counted.
pub open spec fn tally(status: Map<u16, u64>, code: u16) -> int {
    if status.contains_key(code) {
        status[code] as int
    } else {
        0
    }
}

/// The bytes on the wire, or, for a response without a content-length, the
/// decompressed size.
pub open spec fn paid(obs: Observation) -> u64 {
    if obs.wire_bytes is Some {
        obs.wire_bytes->0
    } else {
        obs.json_bytes
    }
}

/// Whether a reservoir of 512 took a value: behind the others while there was
/// room, else in the place of one of them, or not at all.
pub open spec fn took(was: Seq<u64>, now: Seq<u64>, value: u64) -> bool {
    if was.len() < 512 {
        now == was.push(value)
    } else {
        now == was || exists|k: int| 0 <= k < was.len() && now == #[trigger] was.update(k, value)
    }
}

/// Whether `after` is a bucket after one more fetch in the given hour: it counts
/// once, whatever its status and outcome, with the bytes that were paid, under
/// its status, and, if it failed, among the errors; and its size and duration go
/// to the reservoirs of its hour, which belong to it alone.
pub open spec fn fetched(before: BucketView, obs: Observation, hour: u64, after: BucketView) -> bool {
    let at = (hour % 24) as int;
    let was = before.hours[at];
    let now = after.hours[at];
    &&& after.requests == before.requests + 1
    &&& after.wire_bytes == before.wire_bytes + paid(obs)
    &&& after.json_bytes == before.json_bytes + obs.json_bytes
    &&& after.wire_missing == before.wire_missing + if obs.wire_bytes is None {
        1int
    } else {
        0
    }
    &&& after.errors == before.errors + if obs.is_error {
        1int
    } else {
        0
    }
    &&& after.cache_hits == before.cache_hits
    &&& after.cache_misses == before.cache_misses
    &&& forall|code: u16| #[trigger]
        tally(after.status, code) == tally(before.status, code) + if code == obs.status {
            1int
        } else {
            0
        }
    &&& after.hours.len() == 24
    &&& forall|i: int| 0 <= i < 24 && i != at ==> #[trigger] after.hours[i] == before.hours[i]
    &&& now.stamp == hour
    &&& if was.stamp == hour {
        &&& now.seen == was.seen + 1
        &&& took(was.wire, now.wire, paid(obs))
        &&& took(was.duration, now.duration, obs.duration_ms)
    } else {
        &&& now.seen == 1
        &&& now.wire == seq![paid(obs)]
        &&& now.duration == seq![obs.duration_ms]
    }
}

/// A fetch is counted in its bucket.
pub proof fn lemma_fetch_in_bucket(
    before: BucketView,
    obs: Observation,
    hour: u64,
    after: BucketView,
)
    requires
        before.wf(),
        before.room_for(obs),
        before.records(obs, hour, after),
    ensures
        fetched(before, obs, hour, after),
{
    let (wire_draw, duration_draw) = choose|wire_draw: u64, duration_draw: u64|
        {
            &&& wire_draw < before.ordinal(hour)
            &&& duration_draw < before.ordinal(hour)
            &&& after == #[trigger] before.recorded(obs, hour, wire_draw, duration_draw)
        };
    before.lemma_recorded_wf(obs, hour, wire_draw, duration_draw);
    let at = (hour % 24) as int;
    let was = before.hours[at];
    let now = after.hours[at];
    assert(was.wf());
    if was.stamp != hour {
        assert(now.wire =~= seq![paid(obs)]);
        assert(now.duration =~= seq![obs.duration_ms]);
    } else if was.wire.len() >= 512 {
        if wire_draw < 512 {
            assert(now.wire == was.wire.update(wire_draw as int, paid(obs)));
        }
        if duration_draw < 512 {
            assert(now.duration == was.duration.update(duration_draw as int, obs.duration_ms));
        }
    }
}

/// The bucket with this name, if there is one.
pub open spec fn bucket_named(rows: BucketRows, name: Seq<char>) -> Option<BucketView> {
    if exists|i: int| 0 <= i < rows.len() && (#[trigger] rows[i]).0 == name {
        Some(rows[choose|i: int| 0 <= i < rows.len() && (#[trigger] rows[i]).0 == name].1)
    } else {
        None
    }
}

/// The fetches of the path with this name, if it is tracked.
pub open spec fn path_named(rows: Seq<(Seq<char>, PathStat)>, path: Seq<char>) -> Option<PathStat> {
    if exists|i: int| 0 <= i < rows.len() && (#[trigger] rows[i]).0 == path {
        Some(rows[choose|i: int| 0 <= i < rows.len() && (#[trigger] rows[i]).0 == path].1)
    } else {
        None
    }
}

/// The bucket, or one in which nothing was counted.
pub open spec fn or_nothing(bucket: Option<BucketView>) -> BucketView {
    match bucket {
        Some(b) => b,
        None => BucketView {
            requests: 0,
            wire_bytes: 0,
            json_bytes: 0,
            wire_missing: 0,
            cache_hits: 0,
            cache_misses: 0,
            errors: 0,
            status: Map::empty(),
            hours: Seq::new(
                24,
                |i: int| SlotView { stamp: 0, seen: 0, wire: Seq::empty(), duration: Seq::empty() },
            ),
        },
    }
}

/// The requests of a path, none where it is not tracked.
pub open spec fn requests_in(stat: Option<PathStat>) -> int {
    match stat {
        Some(s) => s.requests as int,
        None => 0,
    }
}

/// The bytes of a path, none where it is not tracked.
pub open spec fn bytes_in(stat: Option<PathStat>) -> int {
    match stat {
        Some(s) => s.wire_bytes as int,
        None => 0,
    }
}

/// Rows with distinct names have one under each.
proof fn lemma_bucket_named(rows: BucketRows, name: Seq<char>)
    requires
        crate::table::distinct(rows),
    ensures
        bucket_named(rows, name) is Some <==> crate::table::holds(rows, name),
        or_nothing(bucket_named(rows, name)) == crate::traffic::bucket_of(rows, name),
        forall|i: int|
            0 <= i < rows.len() && (#[trigger] rows[i]).0 == name ==> bucket_named(rows, name)
                == Some(rows[i].1),
{
    if crate::table::holds(rows, name) {
        let i = crate::table::position(rows, name);
        let j = choose|j: int| 0 <= j < rows.len() && (#[trigger] rows[j]).0 == name;
        assert(rows[i].0 == name && rows[j].0 == name);
        assert(i == j);
    } else {
        assert(or_nothing(None) =~= BucketView::empty());
    }
}

/// Paths with distinct names have one under each.
proof fn lemma_path_named(rows: Seq<(Seq<char>, PathStat)>, path: Seq<char>)
    requires
        crate::table::distinct(rows),
    ensures
        path_named(rows, path) is Some <==> crate::table::holds(rows, path),
        path_named(rows, path) is Some ==> path_named(rows, path) == Some(
            crate::table::lookup(rows, path, PathStat::empty()),
        ),
        forall|i: int|
            0 <= i < rows.len() && (#[trigger] rows[i]).0 == path ==> path_named(rows, path) == Some(
                rows[i].1,
            ),
{
    if crate::table::holds(rows, path) {
        let i = crate::table::position(rows, path);
        let j = choose|j: int| 0 <= j < rows.len() && (#[trigger] rows[j]).0 == path;
        assert(rows[i].0 == path && rows[j].0 == path);
        assert(i == j);
    }
}

/// What setting one bucket does to what is found by name.
proof fn lemma_put_named(rows: BucketRows, name: Seq<char>, bucket: BucketView)
    requires
        crate::table::distinct(rows),
    ensures
        bucket_named(crate::table::put(rows, name, bucket), name) == Some(bucket),
        forall|other: Seq<char>|
            other != name ==> #[trigger] bucket_named(
                crate::table::put(rows, name, bucket),
                other,
            ) == bucket_named(rows, other),
{
    let after = crate::table::put(rows, name, bucket);
    crate::table::lemma_put(rows, name, bucket);
    let at = if crate::table::holds(rows, name) {
        crate::table::position(rows, name)
    } else {
        rows.len() as int
    };
    assert(after[at] == (name, bucket));
    lemma_bucket_named(after, name);
    assert forall|other: Seq<char>| other != name implies #[trigger] bucket_named(after, other)
        == bucket_named(rows, other) by {
        lemma_bucket_named(after, other);
        lemma_bucket_named(rows, other);
        if crate::table::holds(rows, other) {
            let i = crate::table::position(rows, other);
            assert(after[i] == rows[i]);
        } else if crate::table::holds(after, other) {
            let i = crate::table::position(after, other);
            assert(after[i].0 == other);
            if i < rows.len() {
                assert(rows[i].0 == other);
            }
        }
    }
}

/// What setting one path does to what is found by name.
proof fn lemma_put_path(rows: Seq<(Seq<char>, PathStat)>, path: Seq<char>, stat: PathStat)
    requires
        crate::table::distinct(rows),
    ensures
        path_named(crate::table::put(rows, path, stat), path) == Some(stat),
        forall|other: Seq<char>|
            other != path ==> #[trigger] path_named(crate::table::put(rows, path, stat), other)
                == path_named(rows, other),
{
    let after = crate::table::put(rows, path, stat);
    crate::table::lemma_put(rows, path, stat);
    let at = if crate::table::holds(rows, path) {
        crate::table::position(rows, path)
    } else {
        rows.len() as int
    };
    assert(after[at] == (path, stat));
    lemma_path_named(after, path);
    assert forall|other: Seq<char>| other != path implies #[trigger] path_named(after, other)
        == path_named(rows, other) by {
        lemma_path_named(after, other);
        lemma_path_named(rows, other);
        if crate::table::holds(rows, other) {
            let i = crate::table::position(rows, other);
            assert(after[i] == rows[i]);
        } else if crate::table::holds(after, other) {
            let i = crate::table::position(after, other);
            assert(after[i].0 == other);
            if i < rows.len() {
                assert(rows[i].0 == other);
            }
        }
    }
}

/// Whether a path is among the 50000 tracked, or can still join them.
pub open spec fn has_place_for(held: TelemetryView, path: Seq<char>) -> bool {
    path_named(held.paths, path) is Some || held.paths.len() < 50_000
}

/// A fetch is counted under its endpoint and under its route, in the hour of the
/// first reading, and under no other.
pub proof fn lemma_fetch_by_name(
    before: TelemetryView,
    obs: Observation,
    route: Seq<char>,
    first: u64,
    second: u64,
    after: TelemetryView,
)
    requires
        before.wf(),
        before.enabled,
        before.room_for(obs, route, second / 60),
        before.records(obs, route, first, second, after),
    ensures
        bucket_named(after.by_endpoint, obs.endpoint@) is Some,
        fetched(
            or_nothing(bucket_named(before.by_endpoint, obs.endpoint@)),
            obs,
            first / 3600,
            bucket_named(after.by_endpoint, obs.endpoint@)->0,
        ),
        forall|other: Seq<char>|
            other != obs.endpoint@ ==> #[trigger] bucket_named(after.by_endpoint, other)
                == bucket_named(before.by_endpoint, other),
        bucket_named(after.by_route, route) is Some,
        fetched(
            or_nothing(bucket_named(before.by_route, route)),
            obs,
            first / 3600,
            bucket_named(after.by_route, route)->0,
        ),
        forall|other: Seq<char>|
            other != route ==> #[trigger] bucket_named(after.by_route, other) == bucket_named(
                before.by_route,
                other,
            ),
        after.enabled,
        after.started_at == before.started_at,
        after.json_calls == before.json_calls,
        after.cache_misses == before.cache_misses,
{
    let hour = first / 3600;
    let draws = choose|draws: crate::traffic::Draws|
        {
            &&& before.draws_fit(obs, route, hour, draws)
            &&& after == #[trigger] before.recorded(obs, route, hour, second / 60, draws)
        };
    let endpoint = crate::traffic::bucket_of(before.by_endpoint, obs.endpoint@);
    let by_route = crate::traffic::bucket_of(before.by_route, route);
    let endpoint_after = endpoint.recorded(obs, hour, draws.endpoint_wire, draws.endpoint_duration);
    let route_after = by_route.recorded(obs, hour, draws.route_wire, draws.route_duration);
    crate::traffic::lemma_bucket_of_wf(before.by_endpoint, obs.endpoint@);
    crate::traffic::lemma_bucket_of_wf(before.by_route, route);
    lemma_bucket_named(before.by_endpoint, obs.endpoint@);
    lemma_bucket_named(before.by_route, route);
    assert(endpoint.records(obs, hour, endpoint_after));
    assert(by_route.records(obs, hour, route_after));
    lemma_fetch_in_bucket(endpoint, obs, hour, endpoint_after);
    lemma_fetch_in_bucket(by_route, obs, hour, route_after);
    lemma_put_named(before.by_endpoint, obs.endpoint@, endpoint_after);
    lemma_put_named(before.by_route, route, route_after);
}

/// A fetch is counted under its path, with the bytes that were paid, as long as
/// the path is tracked or can still be, else among the untracked; and in the
/// minute of the second reading, whose slot begins anew if it was of another
/// minute. No other path and no other slot changes.
pub proof fn lemma_fetch_by_path_and_minute(
    before: TelemetryView,
    obs: Observation,
    route: Seq<char>,
    first: u64,
    second: u64,
    after: TelemetryView,
)
    requires
        before.wf(),
        before.enabled,
        before.room_for(obs, route, second / 60),
        before.records(obs, route, first, second, after),
    ensures
        ({
            let was = path_named(before.paths, obs.path@);
            let now = path_named(after.paths, obs.path@);
            if has_place_for(before, obs.path@) {
                &&& now is Some
                &&& requests_in(now) == requests_in(was) + 1
                &&& bytes_in(now) == bytes_in(was) + paid(obs)
                &&& after.paths.len() == before.paths.len() + if was is Some {
                    0int
                } else {
                    1
                }
                &&& after.paths_evicted == before.paths_evicted
            } else {
                &&& after.paths == before.paths
                &&& after.paths_evicted == before.paths_evicted + 1
            }
        }),
        forall|other: Seq<char>|
            other != obs.path@ ==> #[trigger] path_named(after.paths, other) == path_named(
                before.paths,
                other,
            ),
        ({
            let stamp = second / 60;
            let slot = (stamp % 1440) as int;
            let was = before.minutes[slot];
            let now = after.minutes[slot];
            &&& after.minutes.len() == 1440
            &&& now.stamp == stamp
            &&& now.requests == 1 + if was.stamp == stamp {
                was.requests as int
            } else {
                0
            }
            &&& now.wire_bytes == paid(obs) + if was.stamp == stamp {
                was.wire_bytes as int
            } else {
                0
            }
            &&& forall|i: int|
                0 <= i < 1440 && i != slot ==> #[trigger] after.minutes[i] == before.minutes[i]
        }),
{
    let draws = choose|draws: crate::traffic::Draws|
        {
            &&& before.draws_fit(obs, route, first / 3600, draws)
            &&& after == #[trigger] before.recorded(obs, route, first / 3600, second / 60, draws)
        };
    let stat = crate::table::lookup(before.paths, obs.path@, PathStat::empty());
    lemma_path_named(before.paths, obs.path@);
    lemma_put_path(before.paths, obs.path@, stat.counted(obs.billed()));
}

/// A call into the response cache counts as a hit of its endpoint until it turns
/// out to be a miss. It touches the tally of calls and nothing else.
pub proof fn lemma_call_by_name(before: TelemetryView, path: Seq<char>)
    requires
        before.wf(),
        before.enabled,
    ensures
        ({
            let endpoint = crate::route::upstream_template(path);
            let after = before.called(path);
            let was = or_nothing(bucket_named(before.by_endpoint, endpoint));
            &&& bucket_named(after.by_endpoint, endpoint) == Some(
                BucketView { cache_hits: was.cache_hits + 1, ..was },
            )
            &&& forall|other: Seq<char>|
                other != endpoint ==> #[trigger] bucket_named(after.by_endpoint, other)
                    == bucket_named(before.by_endpoint, other)
            &&& before.json_calls < u64::MAX ==> after.json_calls == before.json_calls + 1
            &&& before.json_calls == u64::MAX ==> after.json_calls == 0
            &&& after == (TelemetryView {
                json_calls: after.json_calls,
                by_endpoint: after.by_endpoint,
                ..before
            })
        }),
{
    let endpoint = crate::route::upstream_template(path);
    let bucket = crate::traffic::bucket_of(before.by_endpoint, endpoint);
    lemma_bucket_named(before.by_endpoint, endpoint);
    lemma_put_named(before.by_endpoint, endpoint, bucket.called());
}

/// A miss of the response cache takes back a hit of its endpoint, if there is
/// one, and counts as a miss there and in the tally of misses. It touches nothing
/// else.
pub proof fn lemma_miss_by_name(before: TelemetryView, path: Seq<char>)
    requires
        before.wf(),
        before.enabled,
    ensures
        ({
            let endpoint = crate::route::upstream_template(path);
            let after = before.missed(path);
            let was = or_nothing(bucket_named(before.by_endpoint, endpoint));
            &&& bucket_named(after.by_endpoint, endpoint) == Some(
                BucketView {
                    cache_hits: if was.cache_hits > 0 {
                        was.cache_hits - 1
                    } else {
                        0
                    },
                    cache_misses: was.cache_misses + 1,
                    ..was
                },
            )
            &&& forall|other: Seq<char>|
                other != endpoint ==> #[trigger] bucket_named(after.by_endpoint, other)
                    == bucket_named(before.by_endpoint, other)
            &&& before.cache_misses < u64::MAX ==> after.cache_misses == before.cache_misses + 1
            &&& before.cache_misses == u64::MAX ==> after.cache_misses == 0
            &&& after == (TelemetryView {
                cache_misses: after.cache_misses,
                by_endpoint: after.by_endpoint,
                ..before
            })
        }),
{
    let endpoint = crate::route::upstream_template(path);
    let bucket = crate::traffic::bucket_of(before.by_endpoint, endpoint);
    lemma_bucket_named(before.by_endpoint, endpoint);
    crate::traffic::lemma_bucket_of_wf(before.by_endpoint, endpoint);
    lemma_put_named(before.by_endpoint, endpoint, bucket.missed());
}

/// Telemetry starts out with no bucket, no path and no fetch in any minute.
pub proof fn lemma_start_holds_nothing(held: TelemetryView, enabled: bool, started_at: u64)
    requires
        held.starts(enabled, started_at),
    ensures
        held.enabled == enabled,
        held.started_at == started_at,
        held.json_calls == 0,
        held.cache_misses == 0,
        held.by_endpoint.len() == 0,
        held.by_route.len() == 0,
        held.paths.len() == 0,
        held.paths_evicted == 0,
        held.minutes.len() == 1440,
        forall|i: int|
            0 <= i < 1440 ==> {
                let minute = #[trigger] held.minutes[i];
                minute.stamp == 0 && minute.requests == 0 && minute.wire_bytes == 0
            },
{
}

/// A report of telemetry that holds nothing is empty.
pub proof fn lemma_empty_report(
    report: Snapshot,
    held: TelemetryView,
    enabled: bool,
    started_at: u64,
    first: u64,
    second: u64,
    third: u64,
)
    requires
        held.starts(enabled, started_at),
        crate::report::snapshot_of(report, held, first, second, third),
    ensures
        report.totals.upstream_requests == 0,
        report.totals.upstream_wire_bytes == 0,
        report.totals.upstream_json_bytes == 0,
        report.totals.errors == 0,
        report.duplication.distinct_paths == 0,
        report.duplication.redundant_requests == 0,
        report.duplication.redundant_wire_bytes == 0,
        report.duplication.paths_untracked_over_cap == 0,
        report.by_upstream_endpoint@.len() == 0,
        report.by_inbound_route@.len() == 0,
        report.heaviest_paths@.len() == 0,
        report.most_refetched_paths@.len() == 0,
{
    reveal(Seq::filter);
    assert(crate::report::refetched(held.paths) =~= Seq::empty());
}

/// A fetch raises the totals of a report by itself: one request, the bytes that
/// were paid, its decompressed size, and one error if it failed.
pub proof fn lemma_fetch_in_totals(
    before: TelemetryView,
    obs: Observation,
    route: Seq<char>,
    first: u64,
    second: u64,
    after: TelemetryView,
    earlier: Snapshot,
    later: Snapshot,
    read: (u64, u64, u64),
    read_again: (u64, u64, u64),
)
    requires
        before.enabled,
        before.records(obs, route, first, second, after),
        crate::report::snapshot_of(earlier, before, read.0, read.1, read.2),
        crate::report::snapshot_of(later, after, read_again.0, read_again.1, read_again.2),
    ensures
        later.totals.upstream_requests == earlier.totals.upstream_requests + 1,
        later.totals.upstream_wire_bytes == earlier.totals.upstream_wire_bytes + paid(obs),
        later.totals.upstream_json_bytes == earlier.totals.upstream_json_bytes + obs.json_bytes,
        later.totals.errors == earlier.totals.errors + if obs.is_error {
            1int
        } else {
            0
        },
        later.response_cache == earlier.response_cache,
{
    let hour = first / 3600;
    let draws = choose|draws: crate::traffic::Draws|
        {
            &&& before.draws_fit(obs, route, hour, draws)
            &&& after == #[trigger] before.recorded(obs, route, hour, second / 60, draws)
        };
    crate::traffic::lemma_bucket_totals(
        before.by_endpoint,
        obs.endpoint@,
        obs,
        hour,
        draws.endpoint_wire,
        draws.endpoint_duration,
    );
}

/// What a path that was fetched `n` times for `bytes` in all spent on fetches
/// behind its first, each taken at the mean rounded down.
pub open spec fn wasted(n: int, bytes: int) -> int {
    if n >= 2 {
        bytes - bytes / n
    } else {
        0
    }
}

/// A fetch in the duplication of a report: the first of a path adds a distinct
/// path and nothing redundant; each further one adds a redundant request, and the
/// path then wastes what its fetches behind the first cost; one of a path that is
/// not tracked is tallied as such.
pub proof fn lemma_fetch_in_duplication(
    before: TelemetryView,
    obs: Observation,
    route: Seq<char>,
    first: u64,
    second: u64,
    after: TelemetryView,
    earlier: Snapshot,
    later: Snapshot,
    read: (u64, u64, u64),
    read_again: (u64, u64, u64),
)
    requires
        before.wf(),
        before.enabled,
        before.room_for(obs, route, second / 60),
        before.records(obs, route, first, second, after),
        crate::report::snapshot_of(earlier, before, read.0, read.1, read.2),
        crate::report::snapshot_of(later, after, read_again.0, read_again.1, read_again.2),
    ensures
        ({
            let was = path_named(before.paths, obs.path@);
            let n = requests_in(was);
            let bytes = bytes_in(was);
            let old = earlier.duplication;
            let new = later.duplication;
            if has_place_for(before, obs.path@) {
                &&& new.distinct_paths == old.distinct_paths + if n == 0 {
                    1int
                } else {
                    0
                }
                &&& new.redundant_requests == old.redundant_requests + if n == 0 {
                    0int
                } else {
                    1
                }
                &&& new.redundant_wire_bytes == old.redundant_wire_bytes - wasted(n, bytes)
                    + wasted(n + 1, bytes + paid(obs))
                &&& n > 0 && bytes == n * paid(obs) ==> new.redundant_wire_bytes
                    == old.redundant_wire_bytes + paid(obs)
                &&& new.paths_untracked_over_cap == old.paths_untracked_over_cap
            } else {
                &&& new.distinct_paths == old.distinct_paths
                &&& new.redundant_requests == old.redundant_requests
                &&& new.redundant_wire_bytes == old.redundant_wire_bytes
                &&& new.paths_untracked_over_cap == old.paths_untracked_over_cap + 1
            }
        }),
        later.duplication.redundant_share_of_bytes.part == later.duplication.redundant_wire_bytes,
        later.duplication.redundant_share_of_bytes.whole == later.totals.upstream_wire_bytes,
{
    let draws = choose|draws: crate::traffic::Draws|
        {
            &&& before.draws_fit(obs, route, first / 3600, draws)
            &&& after == #[trigger] before.recorded(obs, route, first / 3600, second / 60, draws)
        };
    let was = path_named(before.paths, obs.path@);
    let stat = crate::table::lookup(before.paths, obs.path@, PathStat::empty());
    let now = stat.counted(obs.billed());
    lemma_path_named(before.paths, obs.path@);
    if crate::table::holds(before.paths, obs.path@) {
        let i = crate::table::position(before.paths, obs.path@);
        assert(before.paths[i].1.requests > 0);
    }
    let repeats = crate::report::repeats_of();
    let repeated = crate::report::repeated_bytes_of();
    crate::table::lemma_total_put(before.paths, repeats, obs.path@, now, PathStat::empty());
    crate::table::lemma_total_put(before.paths, repeated, obs.path@, now, PathStat::empty());
    if has_place_for(before, obs.path@) {
        let n = requests_in(was);
        let bytes = bytes_in(was);
        assert(stat.requests == n && stat.wire_bytes == bytes);
        assert(now.requests == n + 1 && now.wire_bytes == bytes + paid(obs));
        assert(repeated(stat) == wasted(n, bytes));
        assert(repeated(now) == wasted(n + 1, bytes + paid(obs)));
        if n > 0 && bytes == n * paid(obs) {
            lemma_even(n, paid(obs) as int);
            lemma_even(n + 1, paid(obs) as int);
            assert((n + 1) * paid(obs) == bytes + paid(obs)) by (nonlinear_arith)
                requires
                    bytes == n * paid(obs),
            ;
            assert(n * paid(obs) - (n - 1) * paid(obs) == paid(obs)) by (nonlinear_arith);
        }
    }
}

/// Fetches of one size waste that size each, but for the first.
proof fn lemma_even(n: int, size: int)
    requires
        n >= 1,
        size >= 0,
    ensures
        wasted(n, n * size) == (n - 1) * size,
{
    assert((n * size) / n == size) by (nonlinear_arith)
        requires
            n >= 1,
            size >= 0,
    ;
    assert(n * size - size == (n - 1) * size) by (nonlinear_arith);
    if n == 1 {
        assert((n - 1) * size == 0) by (nonlinear_arith)
            requires
                n == 1,
        ;
    }
}

/// A path in the duplication of a report: fetched `n` times for `size` bytes each,
/// it adds `n - 1` redundant requests and as many times that size; fetched for
/// other sizes, what it does not add is the mean size, rounded down.
pub proof fn lemma_path_in_duplication(
    without: Duplication,
    with: Duplication,
    paths: Seq<(Seq<char>, PathStat)>,
    name: Seq<char>,
    stat: PathStat,
    size: int,
    evicted: int,
    total_bytes: int,
)
    requires
        stat.requests > 0,
        crate::report::duplication_of(without, paths, evicted, total_bytes),
        crate::report::duplication_of(with, paths.push((name, stat)), evicted, total_bytes),
    ensures
        with.redundant_requests == without.redundant_requests + stat.requests - 1,
        size >= 0 && stat.wire_bytes == stat.requests * size ==> with.redundant_wire_bytes
            == without.redundant_wire_bytes + (stat.requests - 1) * size,
        ({
            let mean = without.redundant_wire_bytes + stat.wire_bytes - with.redundant_wire_bytes;
            mean * stat.requests <= stat.wire_bytes < (mean + 1) * stat.requests
        }),
        with.distinct_paths == without.distinct_paths + 1,
{
    let n = stat.requests as int;
    let bytes = stat.wire_bytes as int;
    assert(paths.push((name, stat)).drop_last() =~= paths);
    assert(crate::report::repeated_bytes_of()(stat) == wasted(n, bytes));
    if size >= 0 && bytes == n * size {
        lemma_even(n, size);
    }
    let mean = bytes - wasted(n, bytes);
    assert(mean == bytes / n) by {
        if n == 1 {
            assert(bytes / 1 == bytes);
        }
    }
    assert((bytes / n) * n <= bytes < (bytes / n + 1) * n) by (nonlinear_arith)
        requires
            n > 0,
            bytes >= 0,
    ;
}

/// Whether the percentiles are those of the samples: absent where there are none,
/// else read off the samples in ascending order.
pub open spec fn measured(found: Option<Percentiles>, samples: Seq<u64>) -> bool {
    let n = samples.len() as int;
    &&& found is None <==> n == 0
    &&& found matches Some(p) ==> p.samples == n && forall|sorted: Seq<u64>, order: Seq<usize>|
        #[trigger] crate::percentile::arranges(samples, sorted, order) ==> {
            &&& p.p25 == sorted[(25 * n + 99) / 100 - 1]
            &&& p.p50 == sorted[(50 * n + 99) / 100 - 1]
            &&& p.p75 == sorted[(75 * n + 99) / 100 - 1]
            &&& p.p90 == sorted[(90 * n + 99) / 100 - 1]
            &&& p.p95 == sorted[(95 * n + 99) / 100 - 1]
            &&& p.p99 == sorted[(99 * n + 99) / 100 - 1]
            &&& p.max == sorted[n - 1]
        }
}

proof fn lemma_measured(found: Option<Percentiles>, samples: Seq<u64>)
    requires
        crate::report::percentiles_of(found, samples),
    ensures
        measured(found, samples),
{
    if found is Some {
        let p = found->0;
        assert forall|sorted: Seq<u64>, order: Seq<usize>| #[trigger]
            crate::percentile::arranges(samples, sorted, order) implies {
            let n = samples.len() as int;
            &&& p.p25 == sorted[(25 * n + 99) / 100 - 1]
            &&& p.p50 == sorted[(50 * n + 99) / 100 - 1]
            &&& p.p75 == sorted[(75 * n + 99) / 100 - 1]
            &&& p.p90 == sorted[(90 * n + 99) / 100 - 1]
            &&& p.p95 == sorted[(95 * n + 99) / 100 - 1]
            &&& p.p99 == sorted[(99 * n + 99) / 100 - 1]
            &&& p.max == sorted[n - 1]
        } by {
            crate::percentile::lemma_percentiles_of_sorted(p, samples, sorted, order);
        }
    }
}

/// Whether a row of a report shows this bucket: its counters, the ratios between
/// them, the mean rounded down, and the percentiles of its window.
pub open spec fn shows(
    row: BucketReport,
    name: Seq<char>,
    bucket: BucketView,
    total_wire_bytes: u64,
    hour: u64,
) -> bool {
    &&& row.name@ == name
    &&& row.requests == bucket.requests
    &&& row.wire_bytes == bucket.wire_bytes
    &&& row.json_bytes == bucket.json_bytes
    &&& row.share_of_wire_bytes.part == row.wire_bytes
    &&& row.share_of_wire_bytes.whole == total_wire_bytes
    &&& row.requests == 0 ==> row.mean_wire_bytes == 0
    &&& row.requests > 0 ==> row.mean_wire_bytes * row.requests <= row.wire_bytes < (
    row.mean_wire_bytes + 1) * row.requests
    &&& row.compression_ratio.part == row.json_bytes
    &&& row.compression_ratio.whole == row.wire_bytes
    &&& row.responses_without_content_length == bucket.wire_missing
    &&& row.errors == bucket.errors
    &&& row.cache_hits == bucket.cache_hits
    &&& row.cache_misses == bucket.cache_misses
    &&& row.cache_hit_rate.part == row.cache_hits
    &&& row.cache_hit_rate.whole == row.cache_hits + row.cache_misses
    &&& forall|code: u16| #[trigger] tally(row.status@, code) == tally(bucket.status, code)
    &&& measured(
        row.wire_bytes_percentiles,
        crate::bucket::window_wire(bucket.hours, hour),
    )
    &&& measured(
        row.duration_ms_percentiles,
        crate::bucket::window_duration(bucket.hours, hour),
    )
}

/// Whether a row of a report shows one of these buckets.
pub open spec fn stands_for(
    row: BucketReport,
    rows: BucketRows,
    total_wire_bytes: u64,
    hour: u64,
) -> bool {
    exists|i: int|
        0 <= i < rows.len() && shows(row, (#[trigger] rows[i]).0, rows[i].1, total_wire_bytes, hour)
}

/// Whether a row of a report shows this bucket.
pub open spec fn is_shown(
    bucket: (Seq<char>, BucketView),
    out: Seq<BucketReport>,
    total_wire_bytes: u64,
    hour: u64,
) -> bool {
    exists|k: int|
        0 <= k < out.len() && shows(#[trigger] out[k], bucket.0, bucket.1, total_wire_bytes, hour)
}

/// Whether the rows of a report show these buckets: each of them once, and none
/// behind one that weighs less.
pub open spec fn all_shown(
    out: Seq<BucketReport>,
    rows: BucketRows,
    total_wire_bytes: u64,
    hour: u64,
) -> bool {
    &&& out.len() == rows.len()
    &&& forall|k: int|
        0 <= k < out.len() ==> stands_for(#[trigger] out[k], rows, total_wire_bytes, hour)
    &&& forall|i: int|
        0 <= i < rows.len() ==> is_shown(#[trigger] rows[i], out, total_wire_bytes, hour)
    &&& forall|a: int, b: int|
        #![trigger out[a], out[b]]
        0 <= a < b < out.len() ==> out[a].wire_bytes >= out[b].wire_bytes && out[a].name@
            != out[b].name@
}

/// A row that reports a bucket shows it.
proof fn lemma_shows(
    row: BucketReport,
    name: Seq<char>,
    bucket: BucketView,
    total_wire_bytes: u64,
    hour: u64,
)
    requires
        bucket.wf(),
        crate::report::reports_bucket(row, name, bucket, total_wire_bytes as int, hour),
    ensures
        shows(row, name, bucket, total_wire_bytes, hour),
{
    lemma_measured(row.wire_bytes_percentiles, crate::bucket::window_wire(bucket.hours, hour));
    lemma_measured(
        row.duration_ms_percentiles,
        crate::bucket::window_duration(bucket.hours, hour),
    );
    let n = bucket.requests;
    let bytes = bucket.wire_bytes;
    if n > 0 {
        assert((bytes / n) * n <= bytes < (bytes / n + 1) * n) by (nonlinear_arith)
            requires
                n > 0,
        ;
    }
}

proof fn lemma_all_shown(
    out: Seq<BucketReport>,
    rows: BucketRows,
    total_wire_bytes: u64,
    hour: u64,
)
    requires
        crate::traffic::buckets_wf(rows),
        crate::report::ranks_buckets(out, rows, total_wire_bytes as int, hour),
        out.len() <= usize::MAX,
    ensures
        all_shown(out, rows, total_wire_bytes, hour),
{
    let keys = crate::report::wire_keys(rows);
    let order = choose|order: Seq<usize>|
        {
            &&& #[trigger] crate::order::stable_order(keys, order)
            &&& out.len() == order.len()
            &&& forall|k: int|
                0 <= k < out.len() ==> crate::report::reports_bucket(
                    #[trigger] out[k],
                    rows[order[k] as int].0,
                    rows[order[k] as int].1,
                    total_wire_bytes as int,
                    hour,
                )
        };
    assert forall|k: int| 0 <= k < out.len() implies stands_for(
        #[trigger] out[k],
        rows,
        total_wire_bytes,
        hour,
    ) by {
        let i = order[k] as int;
        assert(rows[i].1.wf());
        lemma_shows(out[k], rows[i].0, rows[i].1, total_wire_bytes, hour);
    }
    assert forall|i: int| 0 <= i < rows.len() implies is_shown(
        #[trigger] rows[i],
        out,
        total_wire_bytes,
        hour,
    ) by {
        assert(rows[i].1.wf());
        assert(order.contains(i as usize));
        let k = choose|k: int| 0 <= k < order.len() && order[k] == i as usize;
        lemma_shows(out[k], rows[i].0, rows[i].1, total_wire_bytes, hour);
    }
    assert forall|a: int, b: int|
        #![trigger out[a], out[b]]
        0 <= a < b < out.len() implies out[a].wire_bytes >= out[b].wire_bytes && out[a].name@
        != out[b].name@ by {
        crate::report::lemma_heaviest_first(out, rows, total_wire_bytes as int, hour, a, b);
    }
}

/// A report has a row for every endpoint and one for every route, the heaviest
/// first, with the percentiles of the window that ends with the hour of the first
/// reading.
pub proof fn lemma_rows_reported(
    report: Snapshot,
    held: TelemetryView,
    first: u64,
    second: u64,
    third: u64,
)
    requires
        held.wf(),
        crate::report::snapshot_of(report, held, first, second, third),
    ensures
        all_shown(
            report.by_upstream_endpoint@,
            held.by_endpoint,
            report.totals.upstream_wire_bytes,
            first / 3600,
        ),
        all_shown(
            report.by_inbound_route@,
            held.by_route,
            report.totals.upstream_wire_bytes,
            first / 3600,
        ),
{
    assert(report.by_upstream_endpoint@.len() == report.by_upstream_endpoint.len());
    assert(report.by_inbound_route@.len() == report.by_inbound_route.len());
    lemma_all_shown(
        report.by_upstream_endpoint@,
        held.by_endpoint,
        report.totals.upstream_wire_bytes,
        first / 3600,
    );
    lemma_all_shown(
        report.by_inbound_route@,
        held.by_route,
        report.totals.upstream_wire_bytes,
        first / 3600,
    );
}

/// Whether a row of a leaderboard shows this path.
pub open spec fn shows_path(row: PathReport, path: (Seq<char>, PathStat)) -> bool {
    &&& row.path@ == path.0
    &&& row.requests == path.1.requests
    &&& row.wire_bytes == path.1.wire_bytes
}

/// Whether a row of a leaderboard shows one of these paths.
pub open spec fn is_path(row: PathReport, rows: Seq<(Seq<char>, PathStat)>) -> bool {
    exists|i: int| 0 <= i < rows.len() && shows_path(row, #[trigger] rows[i])
}

/// Whether a leaderboard lists this path.
pub open spec fn lists(out: Seq<PathReport>, path: (Seq<char>, PathStat)) -> bool {
    exists|k: int| 0 <= k < out.len() && shows_path(#[trigger] out[k], path)
}

/// In which order a leaderboard goes through these rows, and how far.
proof fn lemma_board(
    out: Seq<PathReport>,
    rows: Seq<(Seq<char>, PathStat)>,
    keys: Seq<crate::order::Descending>,
) -> (order: Seq<usize>)
    requires
        crate::report::leads(out, rows, keys),
        keys.len() == rows.len(),
    ensures
        out.len() == if rows.len() < 50 {
            rows.len()
        } else {
            50
        },
        order.len() == rows.len(),
        forall|k: int| 0 <= k < order.len() ==> #[trigger] order[k] < rows.len(),
        forall|k: int| 0 <= k < out.len() ==> shows_path(#[trigger] out[k], rows[order[k] as int]),
        forall|a: int, b: int|
            #![trigger order[a], order[b]]
            0 <= a < b < order.len() ==> order[a] != order[b] && keys[order[a] as int].0
                >= keys[order[b] as int].0,
        forall|x: usize| x < rows.len() ==> #[trigger] order.contains(x),
{
    let order = choose|order: Seq<usize>|
        {
            &&& #[trigger] crate::order::stable_order(keys, order)
            &&& out.len() == if rows.len() < crate::report::LEADERBOARD {
                rows.len()
            } else {
                crate::report::LEADERBOARD as nat
            }
            &&& forall|k: int|
                0 <= k < out.len() ==> {
                    &&& (#[trigger] out[k]).path@ == rows[order[k] as int].0
                    &&& out[k].requests == rows[order[k] as int].1.requests
                    &&& out[k].wire_bytes == rows[order[k] as int].1.wire_bytes
                }
        };
    assert forall|a: int, b: int|
        #![trigger order[a], order[b]]
        0 <= a < b < order.len() implies order[a] != order[b] && keys[order[a] as int].0
        >= keys[order[b] as int].0 by {
        assert(crate::order::precedes(keys, order[a] as int, order[b] as int));
    }
    order
}

/// The heaviest paths of a report: up to 50 of the paths, each with its requests
/// and bytes; none stands before one with more bytes; and none that is left out
/// has more bytes than one that is listed.
pub proof fn lemma_heaviest_reported(
    report: Snapshot,
    held: TelemetryView,
    first: u64,
    second: u64,
    third: u64,
)
    requires
        held.wf(),
        crate::report::snapshot_of(report, held, first, second, third),
    ensures
        report.heaviest_paths@.len() == if held.paths.len() < 50 {
            held.paths.len()
        } else {
            50
        },
        forall|k: int|
            0 <= k < report.heaviest_paths@.len() ==> is_path(
                #[trigger] report.heaviest_paths@[k],
                held.paths,
            ),
        forall|a: int, b: int|
            #![trigger report.heaviest_paths@[a], report.heaviest_paths@[b]]
            0 <= a < b < report.heaviest_paths@.len() ==> report.heaviest_paths@[a].wire_bytes
                >= report.heaviest_paths@[b].wire_bytes && report.heaviest_paths@[a].path@
                != report.heaviest_paths@[b].path@,
        forall|i: int, k: int|
            #![trigger held.paths[i], report.heaviest_paths@[k]]
            0 <= i < held.paths.len() && !lists(report.heaviest_paths@, held.paths[i]) && 0 <= k
                < report.heaviest_paths@.len() ==> report.heaviest_paths@[k].wire_bytes
                >= held.paths[i].1.wire_bytes,
{
    let out = report.heaviest_paths@;
    let rows = held.paths;
    let keys = crate::report::byte_keys(rows);
    let order = lemma_board(out, rows, keys);
    assert forall|k: int| 0 <= k < out.len() implies is_path(#[trigger] out[k], rows) by {
        assert(shows_path(out[k], rows[order[k] as int]));
    }
    assert forall|a: int, b: int|
        #![trigger out[a], out[b]]
        0 <= a < b < out.len() implies out[a].wire_bytes >= out[b].wire_bytes && out[a].path@
        != out[b].path@ by {
        let i = order[a] as int;
        let j = order[b] as int;
        assert(shows_path(out[a], rows[i]) && shows_path(out[b], rows[j]));
        if i < j {
            assert(rows[i].0 != rows[j].0);
        } else {
            assert(rows[j].0 != rows[i].0);
        }
    }
    assert forall|i: int, k: int|
        #![trigger rows[i], out[k]]
        0 <= i < rows.len() && !lists(out, rows[i]) && 0 <= k < out.len() implies out[k].wire_bytes
        >= rows[i].1.wire_bytes by {
        assert(order.contains(i as usize));
        let place = choose|place: int| 0 <= place < order.len() && order[place] == i as usize;
        if place < out.len() {
            assert(shows_path(out[place], rows[i]));
        }
        assert(keys[order[k] as int].0 >= keys[order[place] as int].0);
        assert(shows_path(out[k], rows[order[k] as int]));
    }
}

/// The rows that are kept are rows, each once, and those that are wanted are kept.
proof fn lemma_refetched(rows: Seq<(Seq<char>, PathStat)>)
    requires
        crate::table::distinct(rows),
    ensures
        crate::table::distinct(crate::report::refetched(rows)),
        crate::report::refetched(rows).len() <= rows.len(),
        forall|x: int|
            0 <= x < crate::report::refetched(rows).len() ==> exists|i: int|
                0 <= i < rows.len() && #[trigger] crate::report::refetched(rows)[x]
                    == #[trigger] rows[i] && rows[i].1.requests >= 2,
        forall|i: int|
            0 <= i < rows.len() && (#[trigger] rows[i]).1.requests >= 2
                ==> crate::report::refetched(rows).contains(rows[i]),
    decreases rows.len(),
{
    reveal(Seq::filter);
    let kept = crate::report::refetched(rows);
    if rows.len() > 0 {
        let front = rows.drop_last();
        let last = rows[rows.len() - 1];
        assert forall|i: int, j: int|
            #![trigger front[i], front[j]]
            0 <= i < j < front.len() implies front[i].0 != front[j].0 by {
            assert(rows[i].0 != rows[j].0);
        }
        lemma_refetched(front);
        let before = crate::report::refetched(front);
        assert(kept == if last.1.requests > 1 {
            before.push(last)
        } else {
            before
        });
        assert forall|x: int| 0 <= x < kept.len() implies exists|i: int|
            0 <= i < rows.len() && #[trigger] kept[x] == #[trigger] rows[i] && rows[i].1.requests
                >= 2 by {
            if x < before.len() {
                let i = choose|i: int|
                    0 <= i < front.len() && before[x] == #[trigger] front[i] && front[i].1.requests
                        >= 2;
                assert(rows[i] == kept[x]);
            } else {
                assert(rows[rows.len() - 1] == kept[x]);
            }
        }
        assert forall|x: int, y: int|
            #![trigger kept[x], kept[y]]
            0 <= x < y < kept.len() implies kept[x].0 != kept[y].0 by {
            if y < before.len() {
                assert(before[x].0 != before[y].0);
            } else {
                let i = choose|i: int|
                    0 <= i < front.len() && before[x] == #[trigger] front[i] && front[i].1.requests
                        >= 2;
                assert(rows[i].0 != rows[rows.len() - 1].0);
            }
        }
        assert forall|i: int|
            0 <= i < rows.len() && (#[trigger] rows[i]).1.requests >= 2 implies kept.contains(
            rows[i],
        ) by {
            if i < front.len() {
                assert(front[i] == rows[i]);
                let x = choose|x: int| 0 <= x < before.len() && before[x] == rows[i];
                assert(kept[x] == rows[i]);
            } else {
                assert(kept[kept.len() - 1] == rows[i]);
            }
        }
    }
}

/// The most refetched paths of a report: up to 50 of the paths that were fetched
/// twice or more, each with its requests and bytes; none stands before one with
/// more requests; and of those only ones with no more requests than any that is
/// listed are left out, and only where 50 are listed.
pub proof fn lemma_refetched_reported(
    report: Snapshot,
    held: TelemetryView,
    first: u64,
    second: u64,
    third: u64,
)
    requires
        held.wf(),
        crate::report::snapshot_of(report, held, first, second, third),
    ensures
        report.most_refetched_paths@.len() <= 50,
        forall|k: int|
            0 <= k < report.most_refetched_paths@.len() ==> is_path(
                #[trigger] report.most_refetched_paths@[k],
                held.paths,
            ) && report.most_refetched_paths@[k].requests >= 2,
        forall|a: int, b: int|
            #![trigger report.most_refetched_paths@[a], report.most_refetched_paths@[b]]
            0 <= a < b < report.most_refetched_paths@.len()
                ==> report.most_refetched_paths@[a].requests
                >= report.most_refetched_paths@[b].requests && report.most_refetched_paths@[a].path@
                != report.most_refetched_paths@[b].path@,
        forall|i: int|
            0 <= i < held.paths.len() && (#[trigger] held.paths[i]).1.requests >= 2 && !lists(
                report.most_refetched_paths@,
                held.paths[i],
            ) ==> report.most_refetched_paths@.len() == 50,
        forall|i: int, k: int|
            #![trigger held.paths[i], report.most_refetched_paths@[k]]
            0 <= i < held.paths.len() && held.paths[i].1.requests >= 2 && !lists(
                report.most_refetched_paths@,
                held.paths[i],
            ) && 0 <= k < report.most_refetched_paths@.len()
                ==> report.most_refetched_paths@[k].requests >= held.paths[i].1.requests,
{
    let out = report.most_refetched_paths@;
    let paths = held.paths;
    let rows = crate::report::refetched(paths);
    let keys = crate::report::request_keys(rows);
    lemma_refetched(paths);
    let order = lemma_board(out, rows, keys);
    assert forall|k: int| 0 <= k < out.len() implies is_path(#[trigger] out[k], paths)
        && out[k].requests >= 2 by {
        let x = order[k] as int;
        assert(shows_path(out[k], rows[x]));
        let i = choose|i: int|
            0 <= i < paths.len() && rows[x] == #[trigger] paths[i] && paths[i].1.requests >= 2;
        assert(shows_path(out[k], paths[i]));
    }
    assert forall|a: int, b: int|
        #![trigger out[a], out[b]]
        0 <= a < b < out.len() implies out[a].requests >= out[b].requests && out[a].path@
        != out[b].path@ by {
        let i = order[a] as int;
        let j = order[b] as int;
        assert(shows_path(out[a], rows[i]) && shows_path(out[b], rows[j]));
        if i < j {
            assert(rows[i].0 != rows[j].0);
        } else {
            assert(rows[j].0 != rows[i].0);
        }
    }
    assert forall|i: int|
        0 <= i < paths.len() && (#[trigger] paths[i]).1.requests >= 2 && !lists(
            out,
            paths[i],
        ) implies out.len() == 50 && forall|k: int|
        0 <= k < out.len() ==> (#[trigger] out[k]).requests >= paths[i].1.requests by {
        let x = choose|x: int| 0 <= x < rows.len() && rows[x] == paths[i];
        assert(order.contains(x as usize));
        let place = choose|place: int| 0 <= place < order.len() && order[place] == x as usize;
        if place < out.len() {
            assert(shows_path(out[place], paths[i]));
        }
        assert forall|k: int| 0 <= k < out.len() implies (#[trigger] out[k]).requests
            >= paths[i].1.requests by {
            assert(keys[order[k] as int].0 >= keys[order[place] as int].0);
            assert(shows_path(out[k], rows[order[k] as int]));
        }
    }
}

/// Whether a row of the curve shows this minute.
pub open spec fn shows_minute(row: MinuteReport, minute: Minute) -> bool {
    &&& crate::health::shown(row.minute) == crate::health::dated((minute.stamp * 60) as u64)
    &&& row.requests == minute.requests
    &&& row.wire_bytes == minute.wire_bytes
}

/// Whether a minute is one of the 1440 that end with the current one, or lies
/// ahead.
pub open spec fn recent(minute: Minute, current: u64) -> bool {
    minute.stamp > 0 && current < minute.stamp + 1440
}

/// Whether a row of the curve shows one of the recent minutes.
pub open spec fn is_recent(row: MinuteReport, minutes: Seq<Minute>, current: u64) -> bool {
    exists|i: int|
        0 <= i < minutes.len() && recent(#[trigger] minutes[i], current) && shows_minute(
            row,
            minutes[i],
        )
}

/// Whether the curve has a row for this minute.
pub open spec fn on_curve(minute: Minute, out: Seq<MinuteReport>) -> bool {
    exists|k: int| 0 <= k < out.len() && shows_minute(#[trigger] out[k], minute)
}

/// Whether one row shows an earlier minute than another.
pub open spec fn shows_earlier(a: MinuteReport, b: MinuteReport, minutes: Seq<Minute>) -> bool {
    exists|x: int, y: int|
        #![trigger minutes[x], minutes[y]]
        {
            &&& 0 <= x < minutes.len()
            &&& 0 <= y < minutes.len()
            &&& shows_minute(a, minutes[x])
            &&& shows_minute(b, minutes[y])
            &&& minutes[x].stamp < minutes[y].stamp
        }
}

/// The minute curve of a report shows the minutes of the last day, as the second
/// reading has it, each once and no other, in the order of time.
pub proof fn lemma_minutes_reported(
    report: Snapshot,
    held: TelemetryView,
    first: u64,
    second: u64,
    third: u64,
)
    requires
        held.wf(),
        crate::report::snapshot_of(report, held, first, second, third),
    ensures
        report.per_minute@.len() == held.minutes.filter(
            |minute: Minute| recent(minute, second / 60),
        ).len(),
        forall|k: int|
            0 <= k < report.per_minute@.len() ==> is_recent(
                #[trigger] report.per_minute@[k],
                held.minutes,
                second / 60,
            ),
        forall|i: int|
            0 <= i < held.minutes.len() && recent(#[trigger] held.minutes[i], second / 60)
                ==> on_curve(held.minutes[i], report.per_minute@),
        (forall|i: int|
            0 <= i < held.minutes.len() ==> (#[trigger] held.minutes[i]).stamp * 60
                <= 253_402_300_799) ==> forall|a: int, b: int|
            #![trigger report.per_minute@[a], report.per_minute@[b]]
            0 <= a < b < report.per_minute@.len() ==> shows_earlier(
                report.per_minute@[a],
                report.per_minute@[b],
                held.minutes,
            ),
{
    let out = report.per_minute@;
    let minutes = held.minutes;
    let current = second / 60;
    let live = crate::report::live_minutes(minutes, current);
    let keep = |minute: Minute| minute.live(current);
    let same = |minute: Minute| recent(minute, current);
    lemma_filter_alike(minutes, keep, same);
    lemma_kept(minutes, keep);
    minutes.lemma_filter_len(keep);
    let order = choose|order: Seq<usize>| #[trigger]
        crate::report::lists_in_turn(out, live, order);
    assert forall|k: int| 0 <= k < out.len() implies is_recent(
        #[trigger] out[k],
        minutes,
        current,
    ) by {
        let x = live[order[k] as int];
        assert(crate::report::reports_minute(out[k], x));
        assert(keep(live[order[k] as int]) && minutes.contains(live[order[k] as int]));
        let i = choose|i: int| 0 <= i < minutes.len() && minutes[i] == x;
        assert(recent(minutes[i], current) && shows_minute(out[k], minutes[i]));
    }
    assert forall|i: int|
        0 <= i < minutes.len() && recent(#[trigger] minutes[i], current) implies on_curve(
        minutes[i],
        out,
    ) by {
        assert(keep(minutes[i]));
        let x = choose|x: int| 0 <= x < live.len() && live[x] == minutes[i];
        assert(order.contains(x as usize));
        let k = choose|k: int| 0 <= k < order.len() && order[k] == x as usize;
        assert(crate::report::reports_minute(out[k], live[order[k] as int]));
        assert(shows_minute(out[k], minutes[i]));
    }
    if forall|i: int|
        0 <= i < minutes.len() ==> (#[trigger] minutes[i]).stamp * 60 <= 253_402_300_799 {
        assert forall|a: int, b: int|
            #![trigger out[a], out[b]]
            0 <= a < b < out.len() implies shows_earlier(out[a], out[b], minutes) by {
            let x = live[order[a] as int];
            let y = live[order[b] as int];
            assert(crate::report::reports_minute(out[a], x));
            assert(crate::report::reports_minute(out[b], y));
            assert(minutes.contains(live[order[a] as int]));
            assert(minutes.contains(live[order[b] as int]));
            let i = choose|i: int| 0 <= i < minutes.len() && minutes[i] == x;
            let j = choose|j: int| 0 <= j < minutes.len() && minutes[j] == y;
            assert(minutes[i].stamp * 60 <= 253_402_300_799);
            assert(minutes[j].stamp * 60 <= 253_402_300_799);
            assert(shows_minute(out[a], minutes[i]) && shows_minute(out[b], minutes[j]));
        }
    }
}

/// Minutes picked in two ways that agree are the same.
proof fn lemma_filter_alike(
    minutes: Seq<Minute>,
    a: spec_fn(Minute) -> bool,
    b: spec_fn(Minute) -> bool,
)
    requires
        forall|minute: Minute| #[trigger] a(minute) == b(minute),
    ensures
        minutes.filter(a) == minutes.filter(b),
    decreases minutes.len(),
{
    reveal(Seq::filter);
    if minutes.len() > 0 {
        lemma_filter_alike(minutes.drop_last(), a, b);
    }
}

/// Minutes that are kept are minutes that are wanted, and those are kept.
proof fn lemma_kept(minutes: Seq<Minute>, keep: spec_fn(Minute) -> bool)
    ensures
        forall|x: int|
            0 <= x < minutes.filter(keep).len() ==> keep(#[trigger] minutes.filter(keep)[x])
                && minutes.contains(minutes.filter(keep)[x]),
        forall|i: int|
            0 <= i < minutes.len() && keep(#[trigger] minutes[i]) ==> minutes.filter(keep).contains(
                minutes[i],
            ),
    decreases minutes.len(),
{
    reveal(Seq::filter);
    if minutes.len() > 0 {
        let front = minutes.drop_last();
        let last = minutes[minutes.len() - 1];
        lemma_kept(front, keep);
        let before = front.filter(keep);
        let kept = minutes.filter(keep);
        assert(kept == if keep(last) {
            before.push(last)
        } else {
            before
        });
        assert forall|x: int| 0 <= x < kept.len() implies keep(#[trigger] kept[x])
            && minutes.contains(kept[x]) by {
            if x < before.len() {
                assert(keep(before[x]));
                let i = choose|i: int| 0 <= i < front.len() && front[i] == before[x];
                assert(minutes[i] == kept[x]);
            } else {
                assert(minutes[minutes.len() - 1] == kept[x]);
            }
        }
        assert forall|i: int|
            0 <= i < minutes.len() && keep(#[trigger] minutes[i]) implies kept.contains(
            minutes[i],
        ) by {
            if i < front.len() {
                assert(front[i] == minutes[i]);
                let x = choose|x: int| 0 <= x < before.len() && before[x] == minutes[i];
                assert(kept[x] == minutes[i]);
            } else {
                assert(kept[kept.len() - 1] == minutes[i]);
            }
        }
    }
}

/// What else a report says: since when and how long telemetry collects, over how
/// many hours the percentiles go, and that every call into the response cache is
/// a hit or a miss, as far as there were calls for the misses.
pub proof fn lemma_rest_reported(
    report: Snapshot,
    held: TelemetryView,
    first: u64,
    second: u64,
    third: u64,
)
    requires
        crate::report::snapshot_of(report, held, first, second, third),
    ensures
        report.enabled,
        crate::health::shown(report.collecting_since) == crate::health::dated(held.started_at),
        report.percentile_window_hours == 24,
        third >= held.started_at ==> held.started_at + report.uptime_seconds == third,
        third < held.started_at ==> report.uptime_seconds == 0,
        report.response_cache.calls == held.json_calls,
        report.response_cache.misses == held.cache_misses,
        held.cache_misses <= held.json_calls ==> report.response_cache.hits
            + report.response_cache.misses == report.response_cache.calls,
        held.cache_misses > held.json_calls ==> report.response_cache.hits == 0,
        report.response_cache.hit_rate.part == report.response_cache.hits,
        report.response_cache.hit_rate.whole == report.response_cache.calls,
        report.duplication.distinct_paths == held.paths.len(),
        report.duplication.paths_untracked_over_cap == held.paths_evicted,
        report.duplication.redundant_share_of_bytes.part
            == report.duplication.redundant_wire_bytes,
        report.duplication.redundant_share_of_bytes.whole == report.totals.upstream_wire_bytes,
{
}

/// No item of a sum measures more than the sum.
proof fn lemma_minute_within(minutes: Seq<Minute>, f: spec_fn(Minute) -> int, i: int)
    requires
        0 <= i < minutes.len(),
        forall|minute: Minute| #[trigger] f(minute) >= 0,
    ensures
        f(minutes[i]) <= crate::sum::sum_of(minutes, f),
{
    crate::sum::lemma_sum_remove(minutes, f, i);
    crate::sum::lemma_sum_filter(minutes.remove(i), f, |minute: Minute| true);
}

/// No bucket counts more than all of them.
proof fn lemma_bucket_within(rows: BucketRows, name: Seq<char>, f: spec_fn(BucketView) -> int)
    requires
        forall|i: int| 0 <= i < rows.len() ==> f((#[trigger] rows[i]).1) >= 0,
        f(BucketView::empty()) == 0,
    ensures
        f(crate::traffic::bucket_of(rows, name)) <= crate::table::total(rows, f),
{
    if crate::table::holds(rows, name) {
        crate::table::lemma_total_parts(rows, f, crate::table::position(rows, name));
    } else {
        crate::table::lemma_total_parts(rows, f, 0);
    }
}

/// There is room for a fetch, whatever its names and its minute, as long as a
/// report can still add it to its totals.
pub proof fn lemma_room_while_totals_fit(
    held: TelemetryView,
    report: Snapshot,
    first: u64,
    second: u64,
    third: u64,
    obs: Observation,
    route: Seq<char>,
)
    requires
        held.wf(),
        crate::report::snapshot_of(report, held, first, second, third),
        report.totals.upstream_requests < u64::MAX,
        report.totals.upstream_wire_bytes + paid(obs) <= u64::MAX,
        report.totals.upstream_json_bytes + obs.json_bytes <= u64::MAX,
    ensures
        held.room_at_any_time(obs, route),
        forall|stamp: u64| #[trigger] held.room_for(obs, route, stamp),
{
    let requests = crate::traffic::requests_of();
    let wire = crate::traffic::wire_bytes_of();
    let json = crate::traffic::json_bytes_of();
    crate::traffic::lemma_bucket_of_wf(held.by_endpoint, obs.endpoint@);
    crate::traffic::lemma_bucket_of_wf(held.by_route, route);
    lemma_bucket_within(held.by_endpoint, obs.endpoint@, requests);
    lemma_bucket_within(held.by_endpoint, obs.endpoint@, wire);
    lemma_bucket_within(held.by_endpoint, obs.endpoint@, json);
    lemma_bucket_within(held.by_route, route, requests);
    lemma_bucket_within(held.by_route, route, wire);
    lemma_bucket_within(held.by_route, route, json);
    let path_requests = crate::traffic::path_requests_of();
    let path_bytes = crate::traffic::path_bytes_of();
    let at = if crate::table::holds(held.paths, obs.path@) {
        crate::table::position(held.paths, obs.path@)
    } else {
        0
    };
    crate::table::lemma_total_parts(held.paths, path_requests, at);
    crate::table::lemma_total_parts(held.paths, path_bytes, at);
    assert forall|i: int| 0 <= i < held.minutes.len() implies (#[trigger] held.minutes[i]).room_for(
        obs.billed(),
    ) by {
        lemma_minute_within(held.minutes, crate::traffic::minute_requests_of(), i);
        lemma_minute_within(held.minutes, crate::traffic::minute_bytes_of(), i);
    }
    assert forall|stamp: u64| #[trigger] held.room_for(obs, route, stamp) by {
        let slot = crate::traffic::minute_slot(stamp);
        assert(held.minutes[slot].room_for(obs.billed()));
    }
}

/// There is room for a call into the response cache, and for a miss, as long as
/// the count of the endpoint can grow.
pub proof fn lemma_room_in_cache(held: TelemetryView, path: Seq<char>)
    requires
        held.wf(),
    ensures
        ({
            let bucket = or_nothing(
                bucket_named(held.by_endpoint, crate::route::upstream_template(path)),
            );
            &&& bucket.cache_hits < u64::MAX ==> held.room_for_call(path)
            &&& bucket.cache_misses < u64::MAX ==> held.room_for_miss(path)
        }),
{
    lemma_bucket_named(held.by_endpoint, crate::route::upstream_template(path));
}

} // verus!
