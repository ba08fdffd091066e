//! What telemetry holds, and what each event does to it.

use vstd::prelude::*;

use crate::bucket::{BucketView, Observation};

verus! {

/// Distinct full paths tracked for the re-fetch and top-talker tables. Past this
/// no new path is admitted, but the ones already held keep counting, so a
/// pathological cardinality spike degrades the leaderboard rather than the
/// process. `paths_evicted` reports when this bites.
pub const MAX_TRACKED_PATHS: usize = 50_000;

/// Minute slots in the rolling window: 24 hours exactly.
pub const WINDOW_MINUTES: usize = 1440;

/// The fetches of one path.
#[derive(Clone, Copy, Debug, PartialEq, Eq)]
pub struct PathStat {
    pub requests: u64,
    pub wire_bytes: u64,
}

impl PathStat {
    /// A path that was not fetched.
    pub open spec fn empty() -> PathStat {
        PathStat { requests: 0, wire_bytes: 0 }
    }

    /// Whether the counters can take one more fetch.
    pub open spec fn room_for(self, billed: u64) -> bool {
        self.requests < u64::MAX && self.wire_bytes + billed <= u64::MAX
    }

    /// The path after one more fetch.
    pub open spec fn counted(self, billed: u64) -> PathStat {
        PathStat {
            requests: (self.requests + 1) as u64,
            wire_bytes: (self.wire_bytes + billed) as u64,
        }
    }
}

/// The fetches of one minute.
#[derive(Clone, Copy, Debug, PartialEq, Eq)]
pub struct Minute {
    /// Minutes since 1970; zero for a slot that was never used.
    pub stamp: u64,
    pub requests: u64,
    pub wire_bytes: u64,
}

impl Minute {
    /// A slot of the minute in which nothing was fetched.
    pub open spec fn empty(stamp: u64) -> Minute {
        Minute { stamp, requests: 0, wire_bytes: 0 }
    }

    /// The slot as the given minute finds it: reset if it was lapped.
    pub open spec fn touched(self, stamp: u64) -> Minute {
        if self.stamp != stamp {
            Minute::empty(stamp)
        } else {
            self
        }
    }

    /// Whether the counters can take one more fetch.
    pub open spec fn room_for(self, billed: u64) -> bool {
        self.requests < u64::MAX && self.wire_bytes + billed <= u64::MAX
    }

    /// The minute after one more fetch.
    pub open spec fn counted(self, billed: u64) -> Minute {
        Minute {
            stamp: self.stamp,
            requests: (self.requests + 1) as u64,
            wire_bytes: (self.wire_bytes + billed) as u64,
        }
    }

    /// Whether the minute lies within the window that ends with `current`.
    pub open spec fn live(self, current: u64) -> bool {
        self.stamp != 0 && current - self.stamp < WINDOW_MINUTES
    }
}

/// What was drawn for the reservoirs that one observation goes through.
pub struct Draws {
    pub endpoint_wire: u64,
    pub endpoint_duration: u64,
    pub route_wire: u64,
    pub route_duration: u64,
}

/// Named buckets, in the order in which the names were first seen.
pub type BucketRows = Seq<(Seq<char>, BucketView)>;

/// What the telemetry holds.
#[verifier::ext_equal]
pub struct TelemetryView {
    pub enabled: bool,
    pub started_at: u64,
    pub json_calls: u64,
    pub cache_misses: u64,
    pub by_endpoint: BucketRows,
    pub by_route: BucketRows,
    pub paths: Seq<(Seq<char>, PathStat)>,
    pub paths_evicted: int,
    pub minutes: Seq<Minute>,
}

/// The requests of a bucket.
pub open spec fn requests_of() -> spec_fn(BucketView) -> int {
    |b: BucketView| b.requests
}

/// The bytes billed to a bucket.
pub open spec fn wire_bytes_of() -> spec_fn(BucketView) -> int {
    |b: BucketView| b.wire_bytes
}

/// The decompressed bytes of a bucket.
pub open spec fn json_bytes_of() -> spec_fn(BucketView) -> int {
    |b: BucketView| b.json_bytes
}

/// The misses of the response cache that a bucket counts.
pub open spec fn misses_of() -> spec_fn(BucketView) -> int {
    |b: BucketView| b.cache_misses
}

/// The failed requests of a bucket.
pub open spec fn errors_of() -> spec_fn(BucketView) -> int {
    |b: BucketView| b.errors
}

/// The fetches of a path.
pub open spec fn path_requests_of() -> spec_fn(PathStat) -> int {
    |s: PathStat| s.requests as int
}

/// The bytes billed to a path.
pub open spec fn path_bytes_of() -> spec_fn(PathStat) -> int {
    |s: PathStat| s.wire_bytes as int
}

/// The fetches of a minute.
pub open spec fn minute_requests_of() -> spec_fn(Minute) -> int {
    |m: Minute| m.requests as int
}

/// The bytes billed to a minute.
pub open spec fn minute_bytes_of() -> spec_fn(Minute) -> int {
    |m: Minute| m.wire_bytes as int
}

impl TelemetryView {
    /// Whether telemetry starts out without traffic.
    pub open spec fn starts(self, enabled: bool, started_at: u64) -> bool {
        self == (TelemetryView {
            enabled,
            started_at,
            json_calls: 0,
            cache_misses: 0,
            by_endpoint: Seq::empty(),
            by_route: Seq::empty(),
            paths: Seq::empty(),
            paths_evicted: 0,
            minutes: Seq::new(WINDOW_MINUTES as nat, |i: int| Minute::empty(0)),
        })
    }

    /// Every fetch is counted once by endpoint, once by route, and once either
    /// by path or among the untracked; the minutes hold no more than all
    /// fetches; and every miss of the response cache is counted once by
    /// endpoint and once in the tally, which wraps around.
    pub open spec fn conserved(self) -> bool {
        &&& crate::table::total(self.by_endpoint, requests_of())
            == crate::table::total(self.by_route, requests_of())
        &&& crate::table::total(self.by_endpoint, wire_bytes_of())
            == crate::table::total(self.by_route, wire_bytes_of())
        &&& crate::table::total(self.by_endpoint, json_bytes_of())
            == crate::table::total(self.by_route, json_bytes_of())
        &&& crate::table::total(self.by_endpoint, errors_of())
            == crate::table::total(self.by_route, errors_of())
        &&& crate::table::total(self.by_endpoint, requests_of())
            == crate::table::total(self.paths, path_requests_of())
            + self.paths_evicted
        &&& crate::table::total(self.paths, path_bytes_of())
            <= crate::table::total(self.by_endpoint, wire_bytes_of())
        &&& self.paths_evicted == 0 ==> crate::table::total(self.paths, path_bytes_of())
            == crate::table::total(
            self.by_endpoint,
            wire_bytes_of(),
        )
        &&& crate::sum::sum_of(self.minutes, minute_requests_of()) <= crate::table::total(
            self.by_endpoint,
            requests_of(),
        )
        &&& crate::sum::sum_of(self.minutes, minute_bytes_of()) <= crate::table::total(
            self.by_endpoint,
            wire_bytes_of(),
        )
        &&& self.cache_misses == crate::table::total(self.by_endpoint, misses_of()) % (u64::MAX
            + 1)
    }

    /// What holds of telemetry at all times.
    pub open spec fn wf(self) -> bool {
        &&& buckets_wf(self.by_endpoint)
        &&& buckets_wf(self.by_route)
        &&& crate::table::distinct(self.paths)
        &&& self.paths.len() <= MAX_TRACKED_PATHS
        &&& forall|i: int|
            0 <= i < self.paths.len() ==> (#[trigger] self.paths[i]).1.requests > 0
        &&& self.paths_evicted >= 0
        &&& self.paths_evicted > 0 ==> self.paths.len() == MAX_TRACKED_PATHS
        &&& self.minutes.len() == WINDOW_MINUTES
        &&& forall|i: int|
            0 <= i < WINDOW_MINUTES ==> {
                let minute = #[trigger] self.minutes[i];
                &&& minute.stamp <= u64::MAX / 60
                &&& minute.stamp != 0 ==> minute.stamp % WINDOW_MINUTES as u64 == i
            }
        &&& self.conserved()
    }

    /// Whether a path is tracked or can still be admitted.
    pub open spec fn admits(self, path: Seq<char>) -> bool {
        crate::table::holds(self.paths, path) || self.paths.len() < MAX_TRACKED_PATHS
    }

    /// Whether the counters by endpoint, route and path can take one more
    /// observation.
    pub open spec fn room_by_name(self, obs: Observation, route: Seq<char>) -> bool {
        &&& bucket_of(self.by_endpoint, obs.endpoint@).room_for(obs)
        &&& bucket_of(self.by_route, route).room_for(obs)
        &&& if self.admits(obs.path@) {
            crate::table::lookup(self.paths, obs.path@, PathStat::empty()).room_for(obs.billed())
        } else {
            self.paths_evicted < u64::MAX
        }
    }

    /// Whether all counters can take one more observation in the given minute.
    pub open spec fn room_for(self, obs: Observation, route: Seq<char>, stamp: u64) -> bool {
        &&& self.room_by_name(obs, route)
        &&& self.minutes[minute_slot(stamp)].touched(stamp).room_for(obs.billed())
    }

    /// Whether all counters can take one more observation, whatever the minute.
    pub open spec fn room_at_any_time(self, obs: Observation, route: Seq<char>) -> bool {
        &&& self.room_by_name(obs, route)
        &&& forall|i: int|
            0 <= i < self.minutes.len() ==> (#[trigger] self.minutes[i]).room_for(obs.billed())
    }

    /// Whether the counters can take one more call into the response cache.
    pub open spec fn room_for_call(self, path: Seq<char>) -> bool {
        bucket_of(self.by_endpoint, crate::route::upstream_template(path)).cache_hits < u64::MAX
    }

    /// Whether the counters can take one more miss of the response cache.
    pub open spec fn room_for_miss(self, path: Seq<char>) -> bool {
        bucket_of(self.by_endpoint, crate::route::upstream_template(path)).cache_misses < u64::MAX
    }

    /// Telemetry after one more observation, given the hour, the minute and what
    /// was drawn for the reservoirs.
    pub open spec fn recorded(
        self,
        obs: Observation,
        route: Seq<char>,
        hour: u64,
        stamp: u64,
        draws: Draws,
    ) -> TelemetryView {
        let billed = obs.billed();
        let slot = minute_slot(stamp);
        TelemetryView {
            by_endpoint: crate::table::put(
                self.by_endpoint,
                obs.endpoint@,
                bucket_of(self.by_endpoint, obs.endpoint@).recorded(
                    obs,
                    hour,
                    draws.endpoint_wire,
                    draws.endpoint_duration,
                ),
            ),
            by_route: crate::table::put(
                self.by_route,
                route,
                bucket_of(self.by_route, route).recorded(
                    obs,
                    hour,
                    draws.route_wire,
                    draws.route_duration,
                ),
            ),
            paths: if self.admits(obs.path@) {
                crate::table::put(
                    self.paths,
                    obs.path@,
                    crate::table::lookup(self.paths, obs.path@, PathStat::empty()).counted(billed),
                )
            } else {
                self.paths
            },
            paths_evicted: self.paths_evicted + if self.admits(obs.path@) {
                0int
            } else {
                1
            },
            minutes: self.minutes.update(
                slot,
                self.minutes[slot].touched(stamp).counted(billed),
            ),
            ..self
        }
    }

    /// Whether numbers below the ordinals of the observation were drawn.
    pub open spec fn draws_fit(
        self,
        obs: Observation,
        route: Seq<char>,
        hour: u64,
        draws: Draws,
    ) -> bool {
        let endpoint = bucket_of(self.by_endpoint, obs.endpoint@).ordinal(hour);
        let by_route = bucket_of(self.by_route, route).ordinal(hour);
        &&& draws.endpoint_wire < endpoint
        &&& draws.endpoint_duration < endpoint
        &&& draws.route_wire < by_route
        &&& draws.route_duration < by_route
    }

    /// Whether `after` is what one more observation makes of telemetry, at the
    /// two clock readings in seconds, whatever was drawn for the reservoirs.
    /// Disabled telemetry stays as it is.
    pub open spec fn records(
        self,
        obs: Observation,
        route: Seq<char>,
        first: u64,
        second: u64,
        after: TelemetryView,
    ) -> bool {
        if self.enabled {
            exists|draws: Draws|
                {
                    &&& self.draws_fit(obs, route, first / 3600, draws)
                    &&& after == #[trigger] self.recorded(
                        obs,
                        route,
                        first / 3600,
                        second / 60,
                        draws,
                    )
                }
        } else {
            after == self
        }
    }

    /// Telemetry after a call into the response cache.
    pub open spec fn called(self, path: Seq<char>) -> TelemetryView {
        if self.enabled {
            let endpoint = crate::route::upstream_template(path);
            TelemetryView {
                json_calls: crate::counter::next(self.json_calls),
                by_endpoint: crate::table::put(
                    self.by_endpoint,
                    endpoint,
                    bucket_of(self.by_endpoint, endpoint).called(),
                ),
                ..self
            }
        } else {
            self
        }
    }

    /// Telemetry after a call into the response cache turned out to be a miss.
    pub open spec fn missed(self, path: Seq<char>) -> TelemetryView {
        if self.enabled {
            let endpoint = crate::route::upstream_template(path);
            TelemetryView {
                cache_misses: crate::counter::next(self.cache_misses),
                by_endpoint: crate::table::put(
                    self.by_endpoint,
                    endpoint,
                    bucket_of(self.by_endpoint, endpoint).missed(),
                ),
                ..self
            }
        } else {
            self
        }
    }
}

/// The slot that a minute falls into.
pub open spec fn minute_slot(stamp: u64) -> int {
    (stamp % WINDOW_MINUTES as u64) as int
}

/// The bucket with this name, empty where there is none.
pub open spec fn bucket_of(rows: BucketRows, name: Seq<char>) -> BucketView {
    crate::table::lookup(rows, name, BucketView::empty())
}

/// Whether no name occurs twice and every bucket is well-formed.
pub open spec fn buckets_wf(rows: BucketRows) -> bool {
    &&& crate::table::distinct(rows)
    &&& forall|i: int| 0 <= i < rows.len() ==> (#[trigger] rows[i]).1.wf()
}

/// The bucket with a name is well-formed.
pub proof fn lemma_bucket_of_wf(rows: BucketRows, name: Seq<char>)
    requires
        buckets_wf(rows),
    ensures
        bucket_of(rows, name).wf(),
{
    BucketView::lemma_empty_wf();
    if crate::table::holds(rows, name) {
        assert(rows[crate::table::position(rows, name)].1.wf());
    }
}

/// Setting a bucket keeps the rows well-formed.
pub proof fn lemma_put_wf(rows: BucketRows, name: Seq<char>, bucket: BucketView)
    requires
        buckets_wf(rows),
        bucket.wf(),
    ensures
        buckets_wf(crate::table::put(rows, name, bucket)),
{
    crate::table::lemma_put(rows, name, bucket);
    let after = crate::table::put(rows, name, bucket);
    assert forall|i: int| 0 <= i < after.len() implies (#[trigger] after[i]).1.wf() by {
        if i < rows.len() {
            assert(rows[i].1.wf());
        }
    }
}

/// What recording under a name does to the totals.
pub proof fn lemma_bucket_totals(
    rows: BucketRows,
    name: Seq<char>,
    obs: Observation,
    hour: u64,
    wire_draw: u64,
    duration_draw: u64,
)
    ensures
        ({
            let after = crate::table::put(
                rows,
                name,
                bucket_of(rows, name).recorded(obs, hour, wire_draw, duration_draw),
            );
            &&& crate::table::total(after, requests_of())
                == crate::table::total(rows, requests_of()) + 1
            &&& crate::table::total(after, wire_bytes_of())
                == crate::table::total(rows, wire_bytes_of()) + obs.billed()
            &&& crate::table::total(after, json_bytes_of())
                == crate::table::total(rows, json_bytes_of()) + obs.json_bytes
            &&& crate::table::total(after, misses_of()) == crate::table::total(rows, misses_of())
            &&& crate::table::total(after, errors_of())
                == crate::table::total(rows, errors_of()) + if obs.is_error {
                1int
            } else {
                0
            }
        }),
{
    let bucket = bucket_of(rows, name).recorded(obs, hour, wire_draw, duration_draw);
    crate::table::lemma_total_put(rows, requests_of(), name, bucket, BucketView::empty());
    crate::table::lemma_total_put(rows, wire_bytes_of(), name, bucket, BucketView::empty());
    crate::table::lemma_total_put(rows, json_bytes_of(), name, bucket, BucketView::empty());
    crate::table::lemma_total_put(rows, misses_of(), name, bucket, BucketView::empty());
    crate::table::lemma_total_put(rows, errors_of(), name, bucket, BucketView::empty());
}

/// What a fetch does to the sums over the minutes: it adds to them, less what
/// the slot held if it was lapped.
proof fn lemma_minute_sums(before: TelemetryView, billed: u64, stamp: u64)
    requires
        before.minutes.len() == WINDOW_MINUTES,
        before.minutes[minute_slot(stamp)].touched(stamp).room_for(billed),
    ensures
        ({
            let slot = minute_slot(stamp);
            let was = before.minutes[slot];
            let after = before.minutes.update(slot, was.touched(stamp).counted(billed));
            let lapped = was.stamp != stamp;
            &&& crate::sum::sum_of(after, minute_requests_of()) == crate::sum::sum_of(
                before.minutes,
                minute_requests_of(),
            ) + 1 - if lapped {
                was.requests as int
            } else {
                0
            }
            &&& crate::sum::sum_of(after, minute_bytes_of()) == crate::sum::sum_of(
                before.minutes,
                minute_bytes_of(),
            ) + billed - if lapped {
                was.wire_bytes as int
            } else {
                0
            }
        }),
{
    let slot = minute_slot(stamp);
    let minute = before.minutes[slot].touched(stamp).counted(billed);
    crate::sum::lemma_sum_update(before.minutes, minute_requests_of(), slot, minute);
    crate::sum::lemma_sum_update(before.minutes, minute_bytes_of(), slot, minute);
}

/// Telemetry starts out with what holds at all times.
pub proof fn lemma_starts_wf(held: TelemetryView, enabled: bool, started_at: u64)
    requires
        held.starts(enabled, started_at),
    ensures
        held.wf(),
{
    crate::sum::lemma_sum_zero(held.minutes, minute_requests_of());
    crate::sum::lemma_sum_zero(held.minutes, minute_bytes_of());
}

/// Recording an observation keeps what holds at all times.
pub proof fn lemma_recorded_wf(
    before: TelemetryView,
    obs: Observation,
    route: Seq<char>,
    hour: u64,
    stamp: u64,
    draws: Draws,
)
    requires
        before.wf(),
        stamp <= u64::MAX / 60,
        before.room_for(obs, route, stamp),
    ensures
        before.recorded(obs, route, hour, stamp, draws).wf(),
{
    let after = before.recorded(obs, route, hour, stamp, draws);
    let endpoint = bucket_of(before.by_endpoint, obs.endpoint@);
    let by_route = bucket_of(before.by_route, route);
    lemma_bucket_of_wf(before.by_endpoint, obs.endpoint@);
    lemma_bucket_of_wf(before.by_route, route);
    endpoint.lemma_recorded_wf(obs, hour, draws.endpoint_wire, draws.endpoint_duration);
    by_route.lemma_recorded_wf(obs, hour, draws.route_wire, draws.route_duration);
    lemma_put_wf(
        before.by_endpoint,
        obs.endpoint@,
        endpoint.recorded(obs, hour, draws.endpoint_wire, draws.endpoint_duration),
    );
    lemma_put_wf(
        before.by_route,
        route,
        by_route.recorded(obs, hour, draws.route_wire, draws.route_duration),
    );
    lemma_bucket_totals(
        before.by_endpoint,
        obs.endpoint@,
        obs,
        hour,
        draws.endpoint_wire,
        draws.endpoint_duration,
    );
    lemma_bucket_totals(
        before.by_route,
        route,
        obs,
        hour,
        draws.route_wire,
        draws.route_duration,
    );
    if before.admits(obs.path@) {
        let stat = crate::table::lookup(before.paths, obs.path@, PathStat::empty());
        let counted = stat.counted(obs.billed());
        crate::table::lemma_put(before.paths, obs.path@, counted);
        crate::table::lemma_total_put(
            before.paths,
            path_requests_of(),
            obs.path@,
            counted,
            PathStat::empty(),
        );
        crate::table::lemma_total_put(
            before.paths,
            path_bytes_of(),
            obs.path@,
            counted,
            PathStat::empty(),
        );
        assert forall|i: int| 0 <= i < after.paths.len() implies 0
            < (#[trigger] after.paths[i]).1.requests by {
            if i < before.paths.len() {
                assert(before.paths[i].1.requests > 0);
            }
        }
    }
    let slot = minute_slot(stamp);
    lemma_minute_sums(before, obs.billed(), stamp);
    assert forall|i: int| 0 <= i < WINDOW_MINUTES implies {
        let minute = #[trigger] after.minutes[i];
        &&& minute.stamp <= u64::MAX / 60
        &&& minute.stamp != 0 ==> minute.stamp % WINDOW_MINUTES as u64 == i
    } by {
        assert(before.minutes[i].stamp <= u64::MAX / 60);
    }
}

/// Notes on the response cache keep what holds at all times.
pub proof fn lemma_cache_wf(before: TelemetryView, path: Seq<char>)
    requires
        before.wf(),
    ensures
        before.called(path).wf(),
        before.missed(path).wf(),
{
    let endpoint = crate::route::upstream_template(path);
    let bucket = bucket_of(before.by_endpoint, endpoint);
    lemma_bucket_of_wf(before.by_endpoint, endpoint);
    lemma_cache_totals(before.by_endpoint, endpoint, bucket.called());
    lemma_cache_totals(before.by_endpoint, endpoint, bucket.missed());
    crate::table::lemma_total_put(
        before.by_endpoint,
        misses_of(),
        endpoint,
        bucket.called(),
        BucketView::empty(),
    );
    crate::table::lemma_total_put(
        before.by_endpoint,
        misses_of(),
        endpoint,
        bucket.missed(),
        BucketView::empty(),
    );
    assert(bucket.called().wf());
    assert(bucket.missed().wf());
    lemma_put_wf(before.by_endpoint, endpoint, bucket.called());
    lemma_put_wf(before.by_endpoint, endpoint, bucket.missed());
}

/// A bucket of which only the cache counts change leaves the totals alone.
proof fn lemma_cache_totals(rows: BucketRows, name: Seq<char>, bucket: BucketView)
    requires
        bucket == (BucketView {
            cache_hits: bucket.cache_hits,
            cache_misses: bucket.cache_misses,
            ..bucket_of(rows, name)
        }),
    ensures
        crate::table::total(crate::table::put(rows, name, bucket), requests_of())
            == crate::table::total(rows, requests_of()),
        crate::table::total(crate::table::put(rows, name, bucket), wire_bytes_of())
            == crate::table::total(rows, wire_bytes_of()),
        crate::table::total(crate::table::put(rows, name, bucket), json_bytes_of())
            == crate::table::total(rows, json_bytes_of()),
        crate::table::total(crate::table::put(rows, name, bucket), errors_of())
            == crate::table::total(rows, errors_of()),
{
    crate::table::lemma_total_put(rows, requests_of(), name, bucket, BucketView::empty());
    crate::table::lemma_total_put(rows, wire_bytes_of(), name, bucket, BucketView::empty());
    crate::table::lemma_total_put(rows, json_bytes_of(), name, bucket, BucketView::empty());
    crate::table::lemma_total_put(rows, errors_of(), name, bucket, BucketView::empty());
}

/// Telemetry that is off records nothing.
pub proof fn lemma_disabled_records_nothing(
    before: TelemetryView,
    obs: Observation,
    route: Seq<char>,
    path: Seq<char>,
    first: u64,
    second: u64,
    after: TelemetryView,
)
    requires
        !before.enabled,
        before.records(obs, route, first, second, after),
    ensures
        after == before,
        before.called(path) == before,
        before.missed(path) == before,
{
}

/// A fetch is counted under its own endpoint and route only, so the figures of
/// one are not diluted by those of another.
pub proof fn lemma_record_is_local(
    before: TelemetryView,
    obs: Observation,
    route: Seq<char>,
    hour: u64,
    stamp: u64,
    draws: Draws,
    other: Seq<char>,
)
    requires
        before.wf(),
    ensures
        ({
            let after = before.recorded(obs, route, hour, stamp, draws);
            &&& other != obs.endpoint@ ==> bucket_of(after.by_endpoint, other) == bucket_of(
                before.by_endpoint,
                other,
            )
            &&& other != route ==> bucket_of(after.by_route, other) == bucket_of(
                before.by_route,
                other,
            )
            &&& other != obs.path@ ==> crate::table::lookup(
                after.paths,
                other,
                PathStat::empty(),
            ) == crate::table::lookup(before.paths, other, PathStat::empty())
            &&& bucket_of(after.by_endpoint, obs.endpoint@) == bucket_of(
                before.by_endpoint,
                obs.endpoint@,
            ).recorded(obs, hour, draws.endpoint_wire, draws.endpoint_duration)
            &&& bucket_of(after.by_route, route) == bucket_of(before.by_route, route).recorded(
                obs,
                hour,
                draws.route_wire,
                draws.route_duration,
            )
        }),
{
    let endpoint = bucket_of(before.by_endpoint, obs.endpoint@).recorded(
        obs,
        hour,
        draws.endpoint_wire,
        draws.endpoint_duration,
    );
    let by_route = bucket_of(before.by_route, route).recorded(
        obs,
        hour,
        draws.route_wire,
        draws.route_duration,
    );
    let stat = crate::table::lookup(before.paths, obs.path@, PathStat::empty()).counted(
        obs.billed(),
    );
    crate::table::lemma_put(before.by_endpoint, obs.endpoint@, endpoint);
    crate::table::lemma_put(before.by_route, route, by_route);
    crate::table::lemma_put(before.paths, obs.path@, stat);
}

/// Past the cap no new path is admitted, but each fetch of one is tallied; the
/// paths already held keep counting.
pub proof fn lemma_paths_at_cap(
    before: TelemetryView,
    obs: Observation,
    route: Seq<char>,
    hour: u64,
    stamp: u64,
    draws: Draws,
)
    requires
        before.wf(),
        before.paths.len() == MAX_TRACKED_PATHS,
    ensures
        ({
            let after = before.recorded(obs, route, hour, stamp, draws);
            let stat = crate::table::lookup(before.paths, obs.path@, PathStat::empty());
            if crate::table::holds(before.paths, obs.path@) {
                &&& after.paths.len() == MAX_TRACKED_PATHS
                &&& after.paths_evicted == before.paths_evicted
                &&& crate::table::lookup(after.paths, obs.path@, PathStat::empty())
                    == stat.counted(obs.billed())
            } else {
                &&& after.paths == before.paths
                &&& after.paths_evicted == before.paths_evicted + 1
            }
        }),
{
    let stat = crate::table::lookup(before.paths, obs.path@, PathStat::empty());
    crate::table::lemma_put(before.paths, obs.path@, stat.counted(obs.billed()));
}

/// A fetch lands in the rolling window: its minute is within the window that ends
/// with it, and holds this fetch alone if its slot was lapped, so that
/// yesterday's traffic never shows up in today's curve. The minutes together gain
/// this fetch and lose what a lapped slot held.
pub proof fn lemma_minute_of_record(
    before: TelemetryView,
    obs: Observation,
    route: Seq<char>,
    hour: u64,
    stamp: u64,
    draws: Draws,
)
    requires
        before.wf(),
        stamp != 0,
        before.room_for(obs, route, stamp),
    ensures
        ({
            let was = before.minutes[minute_slot(stamp)];
            let minute = before.recorded(
                obs,
                route,
                hour,
                stamp,
                draws,
            ).minutes[minute_slot(stamp)];
            &&& minute.live(stamp)
            &&& minute.stamp == stamp
            &&& was.stamp != stamp ==> minute.requests == 1 && minute.wire_bytes == obs.billed()
            &&& was.stamp == stamp ==> minute.requests == was.requests + 1 && minute.wire_bytes
                == was.wire_bytes + obs.billed()
            &&& crate::sum::sum_of(
                before.recorded(obs, route, hour, stamp, draws).minutes,
                minute_requests_of(),
            ) == crate::sum::sum_of(before.minutes, minute_requests_of()) + 1 - if was.stamp
                != stamp {
                was.requests as int
            } else {
                0
            }
        }),
{
    lemma_minute_sums(before, obs.billed(), stamp);
}

/// A call into the response cache adds one to the calls counted by endpoint, and
/// a miss adds none, as long as its endpoint has a call that it can be of.
pub proof fn lemma_calls_by_endpoint(before: TelemetryView, path: Seq<char>)
    requires
        before.wf(),
        before.enabled,
    ensures
        ({
            let calls = |b: BucketView| b.cache_hits + b.cache_misses;
            let was = crate::table::total(before.by_endpoint, calls);
            let bucket = bucket_of(before.by_endpoint, crate::route::upstream_template(path));
            &&& crate::table::total(before.called(path).by_endpoint, calls) == was + 1
            &&& before.called(path).json_calls == crate::counter::next(before.json_calls)
            &&& bucket.cache_hits > 0 ==> crate::table::total(
                before.missed(path).by_endpoint,
                calls,
            ) == was
            &&& before.missed(path).json_calls == before.json_calls
        }),
{
    let calls = |b: BucketView| b.cache_hits + b.cache_misses;
    let endpoint = crate::route::upstream_template(path);
    let bucket = bucket_of(before.by_endpoint, endpoint);
    crate::table::lemma_total_put(
        before.by_endpoint,
        calls,
        endpoint,
        bucket.called(),
        BucketView::empty(),
    );
    crate::table::lemma_total_put(
        before.by_endpoint,
        calls,
        endpoint,
        bucket.missed(),
        BucketView::empty(),
    );
}

/// A call into the response cache that turns out to be a miss leaves the hits of
/// its endpoint as they were, counts one miss there, and touches nothing else
/// but the two tallies.
pub proof fn lemma_call_then_miss(before: TelemetryView, path: Seq<char>, other: Seq<char>)
    requires
        before.wf(),
        before.enabled,
    ensures
        ({
            let endpoint = crate::route::upstream_template(path);
            let bucket = bucket_of(before.by_endpoint, endpoint);
            let after = before.called(path).missed(path);
            &&& bucket_of(after.by_endpoint, endpoint) == (BucketView {
                cache_misses: bucket.cache_misses + 1,
                ..bucket
            })
            &&& other != endpoint ==> bucket_of(after.by_endpoint, other) == bucket_of(
                before.by_endpoint,
                other,
            )
            &&& after == (TelemetryView {
                json_calls: crate::counter::next(before.json_calls),
                cache_misses: crate::counter::next(before.cache_misses),
                by_endpoint: after.by_endpoint,
                ..before
            })
        }),
{
    let endpoint = crate::route::upstream_template(path);
    let bucket = bucket_of(before.by_endpoint, endpoint);
    let between = before.called(path);
    lemma_bucket_of_wf(before.by_endpoint, endpoint);
    lemma_cache_wf(before, path);
    bucket.lemma_call_then_miss();
    crate::table::lemma_put(before.by_endpoint, endpoint, bucket.called());
    crate::table::lemma_put(
        between.by_endpoint,
        endpoint,
        bucket_of(between.by_endpoint, endpoint).missed(),
    );
}

} // verus!
