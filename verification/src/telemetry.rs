//! Upstream traffic telemetry: which endpoint and which inbound route spends the
//! bytes, and how often a path is fetched again.

use vstd::prelude::*;

pub use crate::bucket::{Bucket, Observation};
pub use crate::inbound::normalize_inbound;
pub use crate::route::{current_route, normalize_upstream};

use crate::bucket::{BucketView, WINDOW_HOURS};
use crate::buckets::{bucket_entry, bucket_has_room, record_under};
use crate::clock::{iso, now_secs};
use crate::counter::bump;
use crate::report::{
    bucket_reports, duplication, heaviest_paths, most_refetched_paths, per_minute, sum_totals, Ratio,
    ResponseCache, Snapshot, Totals,
};
use crate::table::Table;
use crate::text::same_text;
use crate::traffic::{Minute, PathStat, TelemetryView, MAX_TRACKED_PATHS, WINDOW_MINUTES};

verus! {

/// The traffic collected since the start.
pub struct Telemetry {
    enabled: bool,
    started_at: u64,
    /// Every call into the response cache, hit or miss.
    json_calls: u64,
    cache_misses: u64,
    by_endpoint: Table<Bucket>,
    by_route: Table<Bucket>,
    paths: Table<PathStat>,
    paths_evicted: u64,
    minutes: Vec<Minute>,
}

impl View for Telemetry {
    type V = TelemetryView;

    closed spec fn view(&self) -> TelemetryView {
        TelemetryView {
            enabled: self.enabled,
            started_at: self.started_at,
            json_calls: self.json_calls,
            cache_misses: self.cache_misses,
            by_endpoint: crate::buckets::bucket_rows(self.by_endpoint@),
            by_route: crate::buckets::bucket_rows(self.by_route@),
            paths: self.paths@,
            paths_evicted: self.paths_evicted as int,
            minutes: self.minutes@,
        }
    }
}

/// The settings that turn collection on.
pub open spec fn turns_on(setting: Option<&str>) -> bool {
    match setting {
        Some(text) => text@ == "on"@ || text@ == "true"@ || text@ == "1"@,
        None => false,
    }
}

/// Whether the setting turns collection on. It is off by default: telemetry
/// holds full request paths, which name what an instance's users read.
pub fn enabled(setting: Option<&str>) -> (on: bool)
    ensures
        on == turns_on(setting),
        on <==> (setting matches Some(text) && (text@ == "on"@ || text@ == "true"@ || text@
            == "1"@)),
{
    match setting {
        Some(text) => same_text(text, "on") || same_text(text, "true") || same_text(text, "1"),
        None => false,
    }
}

impl Telemetry {
    /// The tables hold together, and what they hold is well-formed.
    pub closed spec fn wf(&self) -> bool {
        &&& crate::buckets::table_wf(self.by_endpoint)
        &&& crate::buckets::table_wf(self.by_route)
        &&& self.paths.wf()
        &&& self@.wf()
    }

    /// What holds of telemetry at all times.
    pub proof fn lemma_wf(&self)
        requires
            self.wf(),
        ensures
            self@.wf(),
    {
    }

    /// Whether telemetry is collecting.
    pub fn is_enabled(&self) -> (on: bool)
        ensures
            on == self@.enabled,
    {
        self.enabled
    }

    /// Telemetry without traffic, collecting since `started_at` if enabled.
    pub fn starting_at(enabled: bool, started_at: u64) -> (telemetry: Telemetry)
        ensures
            telemetry.wf(),
            telemetry@.starts(enabled, started_at),
    {
        let mut minutes: Vec<Minute> = Vec::new();
        let mut i: usize = 0;
        while i < WINDOW_MINUTES
            invariant
                i <= WINDOW_MINUTES,
                minutes.len() == i,
                forall|k: int| 0 <= k < i ==> #[trigger] minutes@[k] == Minute::empty(0),
            decreases WINDOW_MINUTES - i,
        {
            minutes.push(Minute { stamp: 0, requests: 0, wire_bytes: 0 });
            i = i + 1;
        }
        let telemetry = Telemetry {
            enabled,
            started_at,
            json_calls: 0,
            cache_misses: 0,
            by_endpoint: Table::new(),
            by_route: Table::new(),
            paths: Table::new(),
            paths_evicted: 0,
            minutes,
        };
        assert(telemetry@.by_endpoint =~= Seq::empty());
        assert(telemetry@.by_route =~= Seq::empty());
        assert(telemetry@.minutes =~= Seq::new(WINDOW_MINUTES as nat, |i: int| Minute::empty(0)));
        proof {
            crate::traffic::lemma_starts_wf(telemetry@, enabled, started_at);
        }
        telemetry
    }
}

/// Starts telemetry, collecting from now on if the setting turns it on.
pub fn init(setting: Option<&str>) -> (telemetry: Telemetry)
    ensures
        telemetry.wf(),
        exists|now: u64|
            now <= crate::clock::LAST_SECOND && #[trigger] telemetry@.starts(
                turns_on(setting),
                now,
            ),
{
    let on: bool = enabled(setting);
    let now: u64 = now_secs();
    Telemetry::starting_at(on, now)
}

/// Collection is on for three settings, and off for any other and where there is
/// none.
pub proof fn lemma_settings(setting: &str)
    ensures
        !turns_on(None),
        turns_on(Some(setting)) <==> setting@ == "on"@ || setting@ == "true"@ || setting@ == "1"@,
{
}

/// Counts a fetch of a path, or among the untracked where there is no room.
fn record_path(paths: &mut Table<PathStat>, evicted: &mut u64, path: &str, billed: u64)
    requires
        old(paths).wf(),
        crate::table::holds(old(paths)@, path@) || old(paths)@.len() < MAX_TRACKED_PATHS
            ==> crate::table::lookup(old(paths)@, path@, PathStat::empty()).room_for(billed),
        !crate::table::holds(old(paths)@, path@) && old(paths)@.len() >= MAX_TRACKED_PATHS
            ==> *old(evicted) < u64::MAX,
    ensures
        final(paths).wf(),
        crate::table::holds(old(paths)@, path@) || old(paths)@.len() < MAX_TRACKED_PATHS ==> {
            &&& final(paths)@ == crate::table::put(
                old(paths)@,
                path@,
                crate::table::lookup(old(paths)@, path@, PathStat::empty()).counted(billed),
            )
            &&& *final(evicted) == *old(evicted)
        },
        !crate::table::holds(old(paths)@, path@) && old(paths)@.len() >= MAX_TRACKED_PATHS ==> {
            &&& final(paths)@ == old(paths)@
            &&& *final(evicted) == *old(evicted) + 1
        },
{
    // Admit new paths only while there is room; existing ones keep counting.
    let known: bool = paths.find(path).is_some();
    if known || paths.len() < MAX_TRACKED_PATHS {
        let at: usize = paths.entry(path, PathStat { requests: 0, wire_bytes: 0 });
        let ghost rows = paths@;
        let stat = paths.value_mut(at);
        stat.requests = stat.requests + 1;
        stat.wire_bytes = stat.wire_bytes + billed;
        proof {
            let counted = crate::table::lookup(old(paths)@, path@, PathStat::empty()).counted(
                billed,
            );
            assert(paths@ =~= crate::table::put(old(paths)@, path@, counted));
        }
    } else {
        *evicted = *evicted + 1;
    }
}

/// Counts a fetch in its minute.
fn record_minute(minutes: &mut Vec<Minute>, stamp: u64, billed: u64)
    requires
        old(minutes)@.len() == WINDOW_MINUTES,
        old(minutes)@[crate::traffic::minute_slot(stamp)].touched(stamp).room_for(billed),
    ensures
        final(minutes)@ == old(minutes)@.update(
            crate::traffic::minute_slot(stamp),
            old(minutes)@[crate::traffic::minute_slot(stamp)].touched(stamp).counted(billed),
        ),
{
    let slot: usize = (stamp % WINDOW_MINUTES as u64) as usize;
    let mut minute: Minute = minutes[slot];
    // A stale slot is one lapped by a full window; reset rather than add, so
    // yesterday's traffic never shows up in today's curve.
    if minute.stamp != stamp {
        minute.stamp = stamp;
        minute.requests = 0;
        minute.wire_bytes = 0;
    }
    minute.requests = minute.requests + 1;
    minute.wire_bytes = minute.wire_bytes + billed;
    minutes.set(slot, minute);
}

/// Records a completed upstream fetch against the endpoint, the inbound route
/// that caused it, the path leaderboard and the rolling minute window. The two
/// clock readings, in seconds, are those for the hour and for the minute.
pub fn record_at(telemetry: &mut Telemetry, obs: Observation, route: &str, first: u64, second: u64)
    requires
        old(telemetry).wf(),
        old(telemetry)@.enabled ==> old(telemetry)@.room_for(obs, route@, second / 60),
    ensures
        final(telemetry).wf(),
        old(telemetry)@.records(obs, route@, first, second, final(telemetry)@),
{
    if !telemetry.enabled {
        return;
    }
    let ghost before = telemetry@;
    let hour: u64 = first / 3600;
    let stamp: u64 = second / 60;
    let billed: u64 = obs.billed_bytes();
    record_under(&mut telemetry.by_endpoint, obs.endpoint.as_str(), &obs, hour);
    record_under(&mut telemetry.by_route, route, &obs, hour);
    record_path(&mut telemetry.paths, &mut telemetry.paths_evicted, obs.path.as_str(), billed);
    record_minute(&mut telemetry.minutes, stamp, billed);
    proof {
        let endpoint = crate::traffic::bucket_of(before.by_endpoint, obs.endpoint@);
        let by_route = crate::traffic::bucket_of(before.by_route, route@);
        let endpoint_after = choose|after: BucketView|
            #[trigger] endpoint.records(obs, hour, after) && telemetry@.by_endpoint
                == crate::table::put(before.by_endpoint, obs.endpoint@, after);
        let route_after = choose|after: BucketView|
            #[trigger] by_route.records(obs, hour, after) && telemetry@.by_route
                == crate::table::put(before.by_route, route@, after);
        let (ew, ed) = choose|wire_draw: u64, duration_draw: u64|
            {
                &&& wire_draw < endpoint.ordinal(hour)
                &&& duration_draw < endpoint.ordinal(hour)
                &&& endpoint_after == #[trigger] endpoint.recorded(
                    obs,
                    hour,
                    wire_draw,
                    duration_draw,
                )
            };
        let (rw, rd) = choose|wire_draw: u64, duration_draw: u64|
            {
                &&& wire_draw < by_route.ordinal(hour)
                &&& duration_draw < by_route.ordinal(hour)
                &&& route_after == #[trigger] by_route.recorded(
                    obs,
                    hour,
                    wire_draw,
                    duration_draw,
                )
            };
        let draws = crate::traffic::Draws {
            endpoint_wire: ew,
            endpoint_duration: ed,
            route_wire: rw,
            route_duration: rd,
        };
        assert(before.draws_fit(obs, route@, hour, draws));
        assert(telemetry@ =~= before.recorded(obs, route@, hour, stamp, draws));
        crate::traffic::lemma_recorded_wf(before, obs, route@, hour, stamp, draws);
    }
}

/// Records a completed upstream fetch, now, against the endpoint, the inbound
/// route that caused it, the path leaderboard and the rolling minute window.
/// `scope` is the route of the request that caused the fetch, if one did.
pub fn record(telemetry: &mut Telemetry, obs: Observation, scope: Option<String>)
    requires
        old(telemetry).wf(),
        old(telemetry)@.enabled ==> old(telemetry)@.room_at_any_time(
            obs,
            crate::route::route_name(scope),
        ),
    ensures
        final(telemetry).wf(),
        exists|first: u64, second: u64|
            first <= crate::clock::LAST_SECOND && second <= crate::clock::LAST_SECOND
                && #[trigger] old(telemetry)@.records(
                obs,
                crate::route::route_name(scope),
                first,
                second,
                final(telemetry)@,
            ),
{
    let route: String = current_route(scope);
    let first: u64 = now_secs();
    let second: u64 = now_secs();
    record_at(telemetry, obs, route.as_str(), first, second);
}

/// Records a call into the response cache, hit or miss. Tracked per endpoint as
/// well as globally: a low hit rate concentrated in one endpoint is a different
/// fix from one spread evenly across all of them.
pub fn note_json_call(telemetry: &mut Telemetry, path: &str)
    requires
        old(telemetry).wf(),
        old(telemetry)@.enabled ==> old(telemetry)@.room_for_call(path@),
    ensures
        final(telemetry).wf(),
        final(telemetry)@ == old(telemetry)@.called(path@),
{
    if !telemetry.enabled {
        return;
    }
    let ghost before = telemetry@;
    telemetry.json_calls = bump(telemetry.json_calls);
    let endpoint: String = normalize_upstream(path);
    let at: usize = bucket_entry(&mut telemetry.by_endpoint, endpoint.as_str());
    let ghost rows = telemetry.by_endpoint@;
    assert(rows[at as int].1.wf());
    let bucket = telemetry.by_endpoint.value_mut(at);
    bucket.cache_hits = bucket.cache_hits + 1;
    proof {
        let after = crate::traffic::bucket_of(before.by_endpoint, endpoint@).called();
        assert(telemetry.by_endpoint@[at as int].1@ =~= after);
        assert(crate::buckets::bucket_rows(telemetry.by_endpoint@)
            =~= crate::buckets::bucket_rows(rows).update(at as int, (endpoint@, after)));
        assert(telemetry@ =~= before.called(path@));
        crate::traffic::lemma_cache_wf(before, path@);
    }
}

/// Records a cache miss: a call that will actually reach Reddit. The hit tally
/// is decremented here rather than incremented on the hit path, because the
/// cache gives no hook that fires only on a hit.
pub fn note_cache_miss(telemetry: &mut Telemetry, path: &str)
    requires
        old(telemetry).wf(),
        old(telemetry)@.enabled ==> old(telemetry)@.room_for_miss(path@),
    ensures
        final(telemetry).wf(),
        final(telemetry)@ == old(telemetry)@.missed(path@),
{
    if !telemetry.enabled {
        return;
    }
    let ghost before = telemetry@;
    telemetry.cache_misses = bump(telemetry.cache_misses);
    let endpoint: String = normalize_upstream(path);
    let at: usize = bucket_entry(&mut telemetry.by_endpoint, endpoint.as_str());
    let ghost rows = telemetry.by_endpoint@;
    assert(rows[at as int].1.wf());
    let bucket = telemetry.by_endpoint.value_mut(at);
    bucket.cache_hits = bucket.cache_hits.saturating_sub(1);
    bucket.cache_misses = bucket.cache_misses + 1;
    proof {
        let after = crate::traffic::bucket_of(before.by_endpoint, endpoint@).missed();
        assert(telemetry.by_endpoint@[at as int].1@ =~= after);
        assert(crate::buckets::bucket_rows(telemetry.by_endpoint@)
            =~= crate::buckets::bucket_rows(rows).update(at as int, (endpoint@, after)));
        assert(telemetry@ =~= before.missed(path@));
        crate::traffic::lemma_cache_wf(before, path@);
    }
}

impl Telemetry {
    /// Whether all counters can take one more observation, whatever the minute.
    /// Telemetry that is off has room for anything.
    pub fn has_room(&self, obs: &Observation, scope: &Option<String>) -> (room: bool)
        requires
            self.wf(),
        ensures
            room == (self@.enabled ==> self@.room_at_any_time(
                *obs,
                crate::route::route_name(*scope),
            )),
    {
        if !self.enabled {
            return true;
        }
        let route: &str = match scope {
            Some(name) => name.as_str(),
            None => "-",
        };
        let billed: u64 = obs.billed_bytes();
        if !bucket_has_room(&self.by_endpoint, obs.endpoint.as_str(), obs) || !bucket_has_room(
            &self.by_route,
            route,
            obs,
        ) {
            return false;
        }
        let path_room: bool = match self.paths.find(obs.path.as_str()) {
            Some(at) => {
                let stat: &PathStat = self.paths.value_at(at);
                stat.requests < u64::MAX && billed <= u64::MAX - stat.wire_bytes
            },
            None => self.paths.len() < MAX_TRACKED_PATHS || self.paths_evicted < u64::MAX,
        };
        if !path_room {
            return false;
        }
        let mut i: usize = 0;
        while i < self.minutes.len()
            invariant
                self.enabled,
                i <= self.minutes.len(),
                billed == obs.billed(),
                forall|k: int| 0 <= k < i ==> (#[trigger] self.minutes@[k]).room_for(billed),
            decreases self.minutes.len() - i,
        {
            let minute: Minute = self.minutes[i];
            if minute.requests == u64::MAX || billed > u64::MAX - minute.wire_bytes {
                assert(!self@.minutes[i as int].room_for(billed));
                return false;
            }
            i = i + 1;
        }
        true
    }

    /// Whether the counters can take one more call into the response cache.
    pub fn has_room_for_call(&self, path: &str) -> (room: bool)
        requires
            self.wf(),
        ensures
            room == (self@.enabled ==> self@.room_for_call(path@)),
    {
        if !self.enabled {
            return true;
        }
        let endpoint: String = normalize_upstream(path);
        proof {
            crate::buckets::lemma_rows(self.by_endpoint, endpoint@);
        }
        match self.by_endpoint.find(endpoint.as_str()) {
            Some(at) => self.by_endpoint.value_at(at).cache_hits < u64::MAX,
            None => true,
        }
    }

    /// Whether the counters can take one more miss of the response cache.
    pub fn has_room_for_miss(&self, path: &str) -> (room: bool)
        requires
            self.wf(),
        ensures
            room == (self@.enabled ==> self@.room_for_miss(path@)),
    {
        if !self.enabled {
            return true;
        }
        let endpoint: String = normalize_upstream(path);
        proof {
            crate::buckets::lemma_rows(self.by_endpoint, endpoint@);
        }
        match self.by_endpoint.find(endpoint.as_str()) {
            Some(at) => self.by_endpoint.value_at(at).cache_misses < u64::MAX,
            None => true,
        }
    }
}

/// Whether the cache counts of every bucket can be added up.
fn cache_counts_add_up(table: &Table<Bucket>) -> (fit: bool)
    requires
        table.wf(),
    ensures
        fit == crate::report::cache_counts_fit(crate::buckets::bucket_rows(table@)),
{
    let ghost rows = crate::buckets::bucket_rows(table@);
    let mut i: usize = 0;
    while i < table.len()
        invariant
            table.wf(),
            i <= table@.len(),
            rows == crate::buckets::bucket_rows(table@),
            forall|k: int|
                0 <= k < i ==> (#[trigger] rows[k]).1.cache_hits + rows[k].1.cache_misses
                    <= u64::MAX,
        decreases table@.len() - i,
    {
        let bucket: &Bucket = table.value_at(i);
        assert(rows[i as int].1 == bucket@);
        if bucket.cache_misses > u64::MAX - bucket.cache_hits {
            return false;
        }
        i = i + 1;
    }
    true
}

/// Whether the counters of all endpoints can be added up.
fn totals_add_up(table: &Table<Bucket>) -> (fit: bool)
    requires
        crate::buckets::table_wf(*table),
    ensures
        fit == crate::report::totals_fit(crate::buckets::bucket_rows(table@)),
{
    let ghost rows = crate::buckets::bucket_rows(table@);
    let mut requests: u64 = 0;
    let mut wire_bytes: u64 = 0;
    let mut json_bytes: u64 = 0;
    let mut i: usize = 0;
    while i < table.len()
        invariant
            crate::buckets::table_wf(*table),
            i <= table@.len(),
            rows == crate::buckets::bucket_rows(table@),
            requests == crate::table::total(
                rows.take(i as int),
                crate::traffic::requests_of(),
            ),
            wire_bytes == crate::table::total(
                rows.take(i as int),
                crate::traffic::wire_bytes_of(),
            ),
            json_bytes == crate::table::total(
                rows.take(i as int),
                crate::traffic::json_bytes_of(),
            ),
        decreases table@.len() - i,
    {
        let bucket: &Bucket = table.value_at(i);
        proof {
            crate::report::lemma_partial_totals(*table, i + 1);
            assert(rows.take(i + 1).drop_last() =~= rows.take(i as int));
            assert(rows.take(i + 1).last().1 == bucket@);
        }
        if bucket.requests > u64::MAX - requests || bucket.wire_bytes > u64::MAX - wire_bytes
            || bucket.json_bytes > u64::MAX - json_bytes {
            return false;
        }
        requests = requests + bucket.requests;
        wire_bytes = wire_bytes + bucket.wire_bytes;
        json_bytes = json_bytes + bucket.json_bytes;
        i = i + 1;
    }
    assert(rows.take(i as int) =~= rows);
    true
}

/// What a request for the metrics is answered with.
#[derive(Debug)]
pub enum MetricsReply {
    /// Telemetry is off.
    Disabled { hint: &'static str },
    Report(Snapshot),
}

impl MetricsReply {
    /// The HTTP status of the answer.
    pub fn status(&self) -> (status: u16)
        ensures
            status == if *self is Disabled {
                503u16
            } else {
                200
            },
    {
        match self {
            MetricsReply::Disabled { .. } => 503,
            MetricsReply::Report(_) => 200,
        }
    }
}

impl Telemetry {
    /// Whether what was collected can be added up in a report.
    pub fn can_report(&self) -> (fit: bool)
        requires
            self.wf(),
        ensures
            fit == crate::report::reportable(self@),
    {
        totals_add_up(&self.by_endpoint) && cache_counts_add_up(&self.by_endpoint)
            && cache_counts_add_up(&self.by_route)
    }
}

/// Reports what was collected, at three clock readings in seconds: those for the
/// hour, for the minute and for the uptime.
pub fn snapshot_at(telemetry: &Telemetry, first: u64, second: u64, third: u64) -> (report: Snapshot)
    requires
        telemetry.wf(),
        crate::report::reportable(telemetry@),
    ensures
        crate::report::snapshot_of(report, telemetry@, first, second, third),
{
    proof {
        let paths = telemetry@.paths;
        crate::report::lemma_repeats(paths, paths.len() as int);
    }
    let hour: u64 = first / 3600;
    let totals: Totals = sum_totals(&telemetry.by_endpoint);
    let total_bytes: u64 = totals.upstream_wire_bytes;
    let calls: u64 = telemetry.json_calls;
    let misses: u64 = telemetry.cache_misses;
    let hits: u64 = calls.saturating_sub(misses);
    Snapshot {
        enabled: true,
        collecting_since: iso(telemetry.started_at),
        percentile_window_hours: WINDOW_HOURS,
        uptime_seconds: third.saturating_sub(telemetry.started_at),
        totals,
        response_cache: ResponseCache {
            calls,
            hits,
            misses,
            hit_rate: Ratio { part: hits, whole: calls },
        },
        duplication: duplication(&telemetry.paths, telemetry.paths_evicted, total_bytes),
        by_upstream_endpoint: bucket_reports(&telemetry.by_endpoint, total_bytes, hour),
        by_inbound_route: bucket_reports(&telemetry.by_route, total_bytes, hour),
        heaviest_paths: heaviest_paths(&telemetry.paths),
        most_refetched_paths: most_refetched_paths(&telemetry.paths),
        per_minute: per_minute(&telemetry.minutes, second / 60),
    }
}

/// Reports, now, what was collected.
pub fn snapshot(telemetry: &Telemetry) -> (report: Snapshot)
    requires
        telemetry.wf(),
        crate::report::reportable(telemetry@),
    ensures
        exists|first: u64, second: u64, third: u64|
            {
                &&& first <= crate::clock::LAST_SECOND
                &&& second <= crate::clock::LAST_SECOND
                &&& third <= crate::clock::LAST_SECOND
                &&& #[trigger] crate::report::snapshot_of(
                    report,
                    telemetry@,
                    first,
                    second,
                    third,
                )
            },
{
    let first: u64 = now_secs();
    let second: u64 = now_secs();
    let third: u64 = now_secs();
    snapshot_at(telemetry, first, second, third)
}

/// Answers a request for the metrics: with a report, or, where telemetry is off,
/// with how to turn it on.
pub fn metrics(telemetry: &Telemetry) -> (reply: MetricsReply)
    requires
        telemetry.wf(),
        telemetry@.enabled ==> crate::report::reportable(telemetry@),
    ensures
        match reply {
            MetricsReply::Disabled { hint } => !telemetry@.enabled && hint@
                == "set REDLIB_TELEMETRY=on"@,
            MetricsReply::Report(report) => telemetry@.enabled && exists|
                first: u64,
                second: u64,
                third: u64,
            |
                {
                    &&& first <= crate::clock::LAST_SECOND
                    &&& second <= crate::clock::LAST_SECOND
                    &&& third <= crate::clock::LAST_SECOND
                    &&& #[trigger] crate::report::snapshot_of(
                        report,
                        telemetry@,
                        first,
                        second,
                        third,
                    )
                },
        },
{
    if !telemetry.enabled {
        return MetricsReply::Disabled { hint: "set REDLIB_TELEMETRY=on" };
    }
    MetricsReply::Report(snapshot(telemetry))
}

} // verus!
