//! The traffic of one endpoint or route: lifetime counters, and hourly
//! reservoirs of samples for percentiles.

use std::collections::HashMap;
use vstd::prelude::*;

verus! {

broadcast use vstd::std_specs::hash::group_hash_axioms;

/// Samples retained per bucket and hour for percentile estimation. Percentiles
/// come from a reservoir rather than a full log: bounded memory, and unbiased
/// for any window length. Totals and counts stay exact regardless.
pub const SAMPLES_PER_HOUR: usize = 512;

/// Hours of percentile samples retained.
pub const WINDOW_HOURS: usize = 24;

/// One completed upstream fetch.
#[derive(Clone, Debug)]
pub struct Observation {
    pub endpoint: String,
    pub path: String,
    pub status: u16,
    pub wire_bytes: Option<u64>,
    pub json_bytes: u64,
    pub duration_ms: u64,
    pub is_error: bool,
}

impl Observation {
    /// The bytes billed: those on the wire, or, for a response without a
    /// content-length, the decompressed size.
    pub open spec fn billed(self) -> u64 {
        match self.wire_bytes {
            Some(bytes) => bytes,
            None => self.json_bytes,
        }
    }

    /// The bytes billed for this fetch.
    pub fn billed_bytes(&self) -> (bytes: u64)
        ensures
            bytes == self.billed(),
    {
        match self.wire_bytes {
            Some(bytes) => bytes,
            None => self.json_bytes,
        }
    }
}

/// An hour's worth of samples for one bucket.
pub struct HourSlot {
    pub stamp: u64,
    /// Observations seen in this slot. Distinct from the bucket's lifetime
    /// `requests`.
    pub seen: u64,
    pub wire: Vec<u64>,
    pub duration: Vec<u64>,
}

/// What an hour slot holds.
#[verifier::ext_equal]
pub struct SlotView {
    pub stamp: u64,
    pub seen: int,
    pub wire: Seq<u64>,
    pub duration: Seq<u64>,
}

impl SlotView {
    /// The slot of an hour in which nothing was observed.
    pub open spec fn empty(stamp: u64) -> SlotView {
        SlotView { stamp, seen: 0, wire: Seq::empty(), duration: Seq::empty() }
    }

    /// The slot as the given hour finds it: cleared if it belongs to another.
    pub open spec fn touched(self, hour: u64) -> SlotView {
        if self.stamp != hour {
            SlotView::empty(hour)
        } else {
            self
        }
    }

    /// Whether the slot's hour lies within the window that ends with `hour`.
    pub open spec fn live(self, hour: u64) -> bool {
        self.stamp != 0 && hour - self.stamp < WINDOW_HOURS
    }

    /// The slot after one more observation.
    pub open spec fn sampled(
        self,
        wire: u64,
        duration: u64,
        wire_draw: u64,
        duration_draw: u64,
    ) -> SlotView {
        SlotView {
            stamp: self.stamp,
            seen: self.seen + 1,
            wire: reservoir(self.wire, wire_draw, wire),
            duration: reservoir(self.duration, duration_draw, duration),
        }
    }

    /// Both reservoirs hold every observation of the hour, up to their bound.
    pub open spec fn wf(self) -> bool {
        &&& self.wire.len() == self.duration.len()
        &&& self.wire.len() == if self.seen < SAMPLES_PER_HOUR {
            self.seen
        } else {
            SAMPLES_PER_HOUR as int
        }
    }
}

impl View for HourSlot {
    type V = SlotView;

    open spec fn view(&self) -> SlotView {
        SlotView {
            stamp: self.stamp,
            seen: self.seen as int,
            wire: self.wire@,
            duration: self.duration@,
        }
    }
}

impl Default for HourSlot {
    fn default() -> (slot: HourSlot)
        ensures
            slot@ == SlotView::empty(0),
    {
        HourSlot { stamp: 0, seen: 0, wire: Vec::new(), duration: Vec::new() }
    }
}

/// A reservoir after one more value: appended while there is room, else put in
/// the place that was drawn, if that lies within the reservoir.
pub open spec fn reservoir(samples: Seq<u64>, draw: u64, value: u64) -> Seq<u64> {
    if samples.len() < SAMPLES_PER_HOUR {
        samples.push(value)
    } else if draw < SAMPLES_PER_HOUR {
        samples.update(draw as int, value)
    } else {
        samples
    }
}

/// The wire samples of the slots that lie within the window, slot by slot.
pub open spec fn window_wire(slots: Seq<SlotView>, hour: u64) -> Seq<u64>
    decreases slots.len(),
{
    if slots.len() == 0 {
        Seq::empty()
    } else if slots.last().live(hour) {
        window_wire(slots.drop_last(), hour) + slots.last().wire
    } else {
        window_wire(slots.drop_last(), hour)
    }
}

/// The duration samples of the slots that lie within the window, slot by slot.
pub open spec fn window_duration(slots: Seq<SlotView>, hour: u64) -> Seq<u64>
    decreases slots.len(),
{
    if slots.len() == 0 {
        Seq::empty()
    } else if slots.last().live(hour) {
        window_duration(slots.drop_last(), hour) + slots.last().duration
    } else {
        window_duration(slots.drop_last(), hour)
    }
}

/// How often a status was counted.
pub open spec fn status_count(status: Map<u16, u64>, code: u16) -> int {
    if status.contains_key(code) {
        status[code] as int
    } else {
        0
    }
}

/// How many responses the status codes below `bound` count.
pub open spec fn status_sum(status: Map<u16, u64>, bound: int) -> int
    decreases bound,
{
    if bound <= 0 {
        0
    } else {
        status_sum(status, bound - 1) + status_count(status, (bound - 1) as u16)
    }
}

/// The number of status codes.
pub const STATUS_CODES: u32 = 65_536;

/// The traffic of one endpoint or route.
pub struct Bucket {
    pub requests: u64,
    /// Bytes as they crossed the wire: what the proxy bills.
    pub wire_bytes: u64,
    /// Bytes after decompression: what was actually parsed.
    pub json_bytes: u64,
    pub wire_missing: u64,
    pub cache_hits: u64,
    pub cache_misses: u64,
    pub errors: u64,
    pub status: HashMap<u16, u64>,
    /// One reservoir per hour slot, indexed by hour-since-epoch modulo
    /// `WINDOW_HOURS`. A slot whose stamp is stale has been lapped and is
    /// cleared on first touch rather than swept, so there is no timer. There
    /// are no slots before the first observation.
    pub hours: Vec<HourSlot>,
}

/// What a bucket holds.
#[verifier::ext_equal]
pub struct BucketView {
    pub requests: int,
    pub wire_bytes: int,
    pub json_bytes: int,
    pub wire_missing: int,
    pub cache_hits: int,
    pub cache_misses: int,
    pub errors: int,
    pub status: Map<u16, u64>,
    pub hours: Seq<SlotView>,
}

impl BucketView {
    /// A bucket that nothing was recorded in.
    pub open spec fn empty() -> BucketView {
        BucketView {
            requests: 0,
            wire_bytes: 0,
            json_bytes: 0,
            wire_missing: 0,
            cache_hits: 0,
            cache_misses: 0,
            errors: 0,
            status: Map::empty(),
            hours: Seq::new(WINDOW_HOURS as nat, |i: int| SlotView::empty(0)),
        }
    }

    /// Every request is counted under one status, no part of the requests is
    /// larger than the whole, and an hour slot holds samples of its own hours.
    pub open spec fn wf(self) -> bool {
        &&& 0 <= self.wire_missing <= self.requests
        &&& 0 <= self.errors <= self.requests
        &&& 0 <= self.wire_bytes
        &&& 0 <= self.json_bytes
        &&& 0 <= self.cache_hits
        &&& 0 <= self.cache_misses
        &&& status_sum(self.status, STATUS_CODES as int) == self.requests
        &&& self.hours.len() == WINDOW_HOURS
        &&& forall|i: int|
            0 <= i < WINDOW_HOURS ==> {
                let slot = #[trigger] self.hours[i];
                &&& slot.wf()
                &&& 0 <= slot.seen <= self.requests
                &&& slot.stamp == 0 || slot.stamp % WINDOW_HOURS as u64 == i
            }
    }

    /// Whether the counters can take one more observation.
    pub open spec fn room_for(self, obs: Observation) -> bool {
        &&& self.requests < u64::MAX
        &&& self.json_bytes + obs.json_bytes <= u64::MAX
        &&& self.wire_bytes + obs.billed() <= u64::MAX
    }

    /// The number that an observation in the given hour has among those of the
    /// hour, from one on.
    pub open spec fn ordinal(self, hour: u64) -> int {
        self.hours[(hour % WINDOW_HOURS as u64) as int].touched(hour).seen + 1
    }

    /// The bucket after one more observation, given what was drawn for the two
    /// reservoirs.
    pub open spec fn recorded(
        self,
        obs: Observation,
        hour: u64,
        wire_draw: u64,
        duration_draw: u64,
    ) -> BucketView {
        let i = (hour % WINDOW_HOURS as u64) as int;
        BucketView {
            requests: self.requests + 1,
            wire_bytes: self.wire_bytes + obs.billed(),
            json_bytes: self.json_bytes + obs.json_bytes,
            wire_missing: self.wire_missing + if obs.wire_bytes is None {
                1int
            } else {
                0
            },
            cache_hits: self.cache_hits,
            cache_misses: self.cache_misses,
            errors: self.errors + if obs.is_error {
                1int
            } else {
                0
            },
            status: self.status.insert(
                obs.status,
                (status_count(self.status, obs.status) + 1) as u64,
            ),
            hours: self.hours.update(
                i,
                self.hours[i].touched(hour).sampled(
                    obs.billed(),
                    obs.duration_ms,
                    wire_draw,
                    duration_draw,
                ),
            ),
        }
    }

    /// Whether `after` is the bucket after one more observation, whatever was
    /// drawn for the two reservoirs.
    pub open spec fn records(self, obs: Observation, hour: u64, after: BucketView) -> bool {
        exists|wire_draw: u64, duration_draw: u64|
            {
                &&& wire_draw < self.ordinal(hour)
                &&& duration_draw < self.ordinal(hour)
                &&& after == #[trigger] self.recorded(obs, hour, wire_draw, duration_draw)
            }
    }

    /// The bucket after one more call into the response cache.
    pub open spec fn called(self) -> BucketView {
        BucketView { cache_hits: self.cache_hits + 1, ..self }
    }

    /// The bucket after a call turned out to be a miss.
    pub open spec fn missed(self) -> BucketView {
        BucketView {
            cache_hits: if self.cache_hits == 0 {
                0
            } else {
                self.cache_hits - 1
            },
            cache_misses: self.cache_misses + 1,
            ..self
        }
    }
}

impl View for Bucket {
    type V = BucketView;

    open spec fn view(&self) -> BucketView {
        BucketView {
            requests: self.requests as int,
            wire_bytes: self.wire_bytes as int,
            json_bytes: self.json_bytes as int,
            wire_missing: self.wire_missing as int,
            cache_hits: self.cache_hits as int,
            cache_misses: self.cache_misses as int,
            errors: self.errors as int,
            status: self.status@,
            hours: if self.hours@.len() == 0 {
                BucketView::empty().hours
            } else {
                self.hours@.map_values(|slot: HourSlot| slot@)
            },
        }
    }
}

/// Counting one status anew changes the sum by what it changes that count.
proof fn lemma_status_insert(status: Map<u16, u64>, code: u16, count: u64, bound: int)
    requires
        0 <= bound <= STATUS_CODES,
    ensures
        status_sum(status.insert(code, count), bound) == status_sum(status, bound) + if code
            < bound {
            count - status_count(status, code)
        } else {
            0
        },
    decreases bound,
{
    if bound > 0 {
        lemma_status_insert(status, code, count, bound - 1);
    }
}

/// No status is counted more often than all of them.
pub proof fn lemma_status_count(status: Map<u16, u64>, code: u16, bound: int)
    requires
        0 <= bound <= STATUS_CODES,
    ensures
        0 <= status_sum(status, bound),
        code < bound ==> status_count(status, code) <= status_sum(status, bound),
    decreases bound,
{
    if bound > 0 {
        lemma_status_count(status, code, bound - 1);
    }
}

proof fn lemma_status_empty(bound: int)
    ensures
        status_sum(Map::empty(), bound) == 0,
    decreases bound,
{
    if bound > 0 {
        lemma_status_empty(bound - 1);
    }
}

impl BucketView {
    /// A bucket that nothing was recorded in is well-formed.
    pub proof fn lemma_empty_wf()
        ensures
            BucketView::empty().wf(),
    {
        lemma_status_empty(STATUS_CODES as int);
    }

    /// Recording an observation keeps a bucket well-formed.
    pub proof fn lemma_recorded_wf(
        self,
        obs: Observation,
        hour: u64,
        wire_draw: u64,
        duration_draw: u64,
    )
        requires
            self.wf(),
            self.room_for(obs),
        ensures
            self.recorded(obs, hour, wire_draw, duration_draw).wf(),
            0 <= status_count(self.status, obs.status) < u64::MAX,
    {
        let after = self.recorded(obs, hour, wire_draw, duration_draw);
        let count = (status_count(self.status, obs.status) + 1) as u64;
        lemma_status_count(self.status, obs.status, STATUS_CODES as int);
        lemma_status_insert(self.status, obs.status, count, STATUS_CODES as int);
        let at = (hour % WINDOW_HOURS as u64) as int;
        assert forall|i: int| 0 <= i < WINDOW_HOURS implies {
            let slot = #[trigger] after.hours[i];
            &&& slot.wf()
            &&& 0 <= slot.seen <= after.requests
            &&& slot.stamp == 0 || slot.stamp % WINDOW_HOURS as u64 == i
        } by {
            assert(self.hours[i].wf());
            assert(0 <= self.hours[at].seen <= self.requests);
        }
    }
}

/// `fastrand::u64` over the numbers below `bound`: some number below it. Which
/// one is left open. An empty range is a panic there, and is ruled out here.
#[verifier::external_body]
fn draw_below(bound: u64) -> (draw: u64)
    requires
        bound > 0,
    ensures
        draw < bound,
{
    fastrand::u64(..bound)
}

impl Default for Bucket {
    fn default() -> (bucket: Bucket)
        ensures
            bucket.wf(),
            bucket@ == BucketView::empty(),
    {
        proof {
            BucketView::lemma_empty_wf();
        }
        let bucket = Bucket {
            requests: 0,
            wire_bytes: 0,
            json_bytes: 0,
            wire_missing: 0,
            cache_hits: 0,
            cache_misses: 0,
            errors: 0,
            status: HashMap::new(),
            hours: Vec::new(),
        };
        assert(bucket@ =~= BucketView::empty());
        bucket
    }
}

impl Bucket {
    /// Either there are no hour slots yet or all of them, and what they hold is
    /// well-formed.
    pub open spec fn wf(&self) -> bool {
        &&& self.hours@.len() == 0 || self.hours@.len() == WINDOW_HOURS
        &&& self@.wf()
    }

    /// Puts `value` into a reservoir, given what was drawn for it.
    pub fn place(target: &mut Vec<u64>, draw: u64, value: u64)
        ensures
            final(target)@ == reservoir(old(target)@, draw, value),
    {
        if target.len() < SAMPLES_PER_HOUR {
            target.push(value);
            return;
        }
        if draw < SAMPLES_PER_HOUR as u64 {
            target.set(draw as usize, value);
        }
    }

    /// Reservoir sampling (Vitter's R) within one hour slot. `seen` is the count
    /// *including* this observation, so the first `SAMPLES_PER_HOUR` always
    /// land.
    pub fn sample(target: &mut Vec<u64>, seen: u64, value: u64)
        requires
            seen > 0 || old(target)@.len() < SAMPLES_PER_HOUR,
        ensures
            old(target)@.len() < SAMPLES_PER_HOUR ==> final(target)@ == old(target)@.push(value),
            old(target)@.len() >= SAMPLES_PER_HOUR ==> exists|draw: u64|
                draw < seen && final(target)@ == #[trigger] reservoir(old(target)@, draw, value),
    {
        if target.len() < SAMPLES_PER_HOUR {
            Self::place(target, 0, value);
            return;
        }
        let draw: u64 = draw_below(seen);
        Self::place(target, draw, value);
        assert(target@ == reservoir(old(target)@, draw, value));
    }

    /// The slot for the given hour, cleared first if it belongs to a previous
    /// day.
    pub fn slot(&mut self, hour: u64) -> (slot: &mut HourSlot)
        requires
            old(self).hours@.len() == 0 || old(self).hours@.len() == WINDOW_HOURS,
        ensures
            slot@ == old(self)@.hours[(hour % WINDOW_HOURS as u64) as int].touched(hour),
            final(self).hours@.len() == WINDOW_HOURS,
            final(self)@ == (BucketView {
                hours: old(self)@.hours.update((hour % WINDOW_HOURS as u64) as int, final(slot)@),
                ..old(self)@
            }),
    {
        if self.hours.len() == 0 {
            let mut i: usize = 0;
            while i < WINDOW_HOURS
                invariant
                    i <= WINDOW_HOURS,
                    self.hours@.len() == i,
                    forall|k: int| 0 <= k < i ==> (#[trigger] self.hours@[k])@ == SlotView::empty(0),
                    *self == (Bucket { hours: self.hours, ..*old(self) }),
                decreases WINDOW_HOURS - i,
            {
                self.hours.push(HourSlot::default());
                i = i + 1;
            }
        }
        let at: usize = (hour % WINDOW_HOURS as u64) as usize;
        assert(self@.hours =~= old(self)@.hours);
        let slot = &mut self.hours[at];
        if slot.stamp != hour {
            slot.stamp = hour;
            slot.seen = 0;
            slot.wire.clear();
            slot.duration.clear();
        }
        slot
    }

    /// Samples from the last `WINDOW_HOURS`, merged: those of the wire sizes and
    /// those of the durations. Slots lapped by a full window are skipped rather
    /// than cleared: `record` clears them on touch.
    pub fn window_samples(&self, hour: u64) -> (samples: (Vec<u64>, Vec<u64>))
        ensures
            samples.0@ == window_wire(self@.hours, hour),
            samples.1@ == window_duration(self@.hours, hour),
    {
        let mut wire: Vec<u64> = Vec::new();
        let mut duration: Vec<u64> = Vec::new();
        let ghost slots = self.hours@.map_values(|slot: HourSlot| slot@);
        let mut i: usize = 0;
        while i < self.hours.len()
            invariant
                i <= self.hours.len(),
                slots == self.hours@.map_values(|slot: HourSlot| slot@),
                wire@ == window_wire(slots.take(i as int), hour),
                duration@ == window_duration(slots.take(i as int), hour),
            decreases self.hours.len() - i,
        {
            let slot: &HourSlot = &self.hours[i];
            assert(slots.take(i + 1).drop_last() =~= slots.take(i as int));
            assert(slots.take(i + 1).last() == slot@);
            if slot.stamp != 0 && hour.saturating_sub(slot.stamp) < WINDOW_HOURS as u64 {
                wire.extend_from_slice(slot.wire.as_slice());
                duration.extend_from_slice(slot.duration.as_slice());
            }
            i = i + 1;
        }
        proof {
            assert(slots.take(i as int) =~= slots);
            if self.hours@.len() == 0 {
                lemma_window_empty(WINDOW_HOURS as nat, hour);
            }
        }
        (wire, duration)
    }

    /// Counts one observation, in the given hour since 1970.
    pub fn record(&mut self, obs: &Observation, hour: u64)
        requires
            old(self).wf(),
            old(self)@.room_for(*obs),
        ensures
            final(self).wf(),
            old(self)@.records(*obs, hour, final(self)@),
    {
        let ghost before = self@;
        let ghost at = (hour % WINDOW_HOURS as u64) as int;
        proof {
            before.lemma_recorded_wf(*obs, hour, 0, 0);
            assert(0 <= before.hours[at].seen <= before.requests);
        }
        self.requests = self.requests + 1;
        self.json_bytes = self.json_bytes + obs.json_bytes;
        if obs.wire_bytes.is_none() {
            // Chunked responses arrive without a content-length. Counting them
            // as zero would understate the bill, so they are tallied separately
            // and the decompressed size stands in for the sample.
            self.wire_missing = self.wire_missing + 1;
        }
        let billed: u64 = obs.billed_bytes();
        self.wire_bytes = self.wire_bytes + billed;

        let slot = self.slot(hour);
        slot.seen = slot.seen + 1;
        let seen: u64 = slot.seen;
        Self::sample(&mut slot.wire, seen, billed);
        Self::sample(&mut slot.duration, seen, obs.duration_ms);

        let count: u64 = match self.status.get(&obs.status) {
            Some(count) => *count,
            None => 0,
        };
        self.status.insert(obs.status, count + 1);
        if obs.is_error {
            self.errors = self.errors + 1;
        }
        proof {
            let was = before.hours[at].touched(hour);
            let now = self@.hours[at];
            assert(was.wire.len() < SAMPLES_PER_HOUR ==> now.wire == reservoir(was.wire, 0, billed));
            assert(was.duration.len() < SAMPLES_PER_HOUR ==> now.duration == reservoir(
                was.duration,
                0,
                obs.duration_ms,
            ));
            let wire_draw = choose|draw: u64|
                draw < seen && now.wire == #[trigger] reservoir(was.wire, draw, billed);
            let duration_draw = choose|draw: u64|
                draw < seen && now.duration == #[trigger] reservoir(
                    was.duration,
                    draw,
                    obs.duration_ms,
                );
            before.lemma_recorded_wf(*obs, hour, wire_draw, duration_draw);
            assert(self@ =~= before.recorded(*obs, hour, wire_draw, duration_draw));
        }
    }
}

/// Slots of hours in which nothing was observed contribute nothing.
proof fn lemma_window_empty(n: nat, hour: u64)
    ensures
        window_wire(Seq::new(n, |i: int| SlotView::empty(0)), hour) == Seq::<u64>::empty(),
        window_duration(Seq::new(n, |i: int| SlotView::empty(0)), hour) == Seq::<u64>::empty(),
    decreases n,
{
    if n > 0 {
        lemma_window_empty((n - 1) as nat, hour);
        assert(Seq::new(n, |i: int| SlotView::empty(0)).drop_last() =~= Seq::new(
            (n - 1) as nat,
            |i: int| SlotView::empty(0),
        ));
    }
}

/// What a window holds comes from slots within it, and all that they hold is
/// there: a size that was sampled in an hour outside the window does not survive
/// into the percentiles unless another within it has the same.
pub proof fn lemma_window_members(slots: Seq<SlotView>, hour: u64, value: u64)
    ensures
        window_wire(slots, hour).contains(value) <==> exists|i: int|
            0 <= i < slots.len() && (#[trigger] slots[i]).live(hour) && slots[i].wire.contains(
                value,
            ),
        window_duration(slots, hour).contains(value) <==> exists|i: int|
            0 <= i < slots.len() && (#[trigger] slots[i]).live(hour) && slots[i].duration.contains(
                value,
            ),
    decreases slots.len(),
{
    if slots.len() > 0 {
        let front = slots.drop_last();
        let last = slots.last();
        lemma_window_members(front, hour, value);
        lemma_concat_members(window_wire(front, hour), last.wire, value);
        lemma_concat_members(window_duration(front, hour), last.duration, value);
        assert forall|i: int| 0 <= i < front.len() implies #[trigger] front[i] == slots[i] by {
        }
        assert(slots[slots.len() - 1] == last);
        if window_wire(front, hour).contains(value) {
            let i = choose|i: int|
                0 <= i < front.len() && (#[trigger] front[i]).live(hour) && front[i].wire.contains(
                    value,
                );
            assert(slots[i].live(hour) && slots[i].wire.contains(value));
        }
        if window_duration(front, hour).contains(value) {
            let i = choose|i: int|
                0 <= i < front.len() && (#[trigger] front[i]).live(hour)
                    && front[i].duration.contains(value);
            assert(slots[i].live(hour) && slots[i].duration.contains(value));
        }
        if exists|i: int|
            0 <= i < slots.len() && (#[trigger] slots[i]).live(hour) && slots[i].wire.contains(
                value,
            ) {
            let i = choose|i: int|
                0 <= i < slots.len() && (#[trigger] slots[i]).live(hour) && slots[i].wire.contains(
                    value,
                );
            if i < front.len() {
                assert(front[i].live(hour) && front[i].wire.contains(value));
            }
        }
        if exists|i: int|
            0 <= i < slots.len() && (#[trigger] slots[i]).live(hour)
                && slots[i].duration.contains(value) {
            let i = choose|i: int|
                0 <= i < slots.len() && (#[trigger] slots[i]).live(hour)
                    && slots[i].duration.contains(value);
            if i < front.len() {
                assert(front[i].live(hour) && front[i].duration.contains(value));
            }
        }
    }
}

proof fn lemma_concat_members(a: Seq<u64>, b: Seq<u64>, value: u64)
    ensures
        (a + b).contains(value) <==> a.contains(value) || b.contains(value),
{
    if a.contains(value) {
        let i = choose|i: int| 0 <= i < a.len() && a[i] == value;
        assert((a + b)[i] == value);
    }
    if b.contains(value) {
        let i = choose|i: int| 0 <= i < b.len() && b[i] == value;
        assert((a + b)[a.len() + i] == value);
    }
}

/// A window that ends a full window or more behind the last hour observed holds
/// nothing.
pub proof fn lemma_window_ages_out(slots: Seq<SlotView>, last: u64, hour: u64)
    requires
        forall|i: int| 0 <= i < slots.len() ==> (#[trigger] slots[i]).stamp <= last,
        hour >= last + WINDOW_HOURS,
    ensures
        window_wire(slots, hour) == Seq::<u64>::empty(),
        window_duration(slots, hour) == Seq::<u64>::empty(),
    decreases slots.len(),
{
    if slots.len() > 0 {
        let front = slots.drop_last();
        assert forall|i: int| 0 <= i < front.len() implies (#[trigger] front[i]).stamp <= last by {
            assert(front[i] == slots[i]);
        }
        assert(slots[slots.len() - 1].stamp <= last);
        lemma_window_ages_out(front, last, hour);
    }
}

/// The memory for samples is bounded: no window holds more than
/// `SAMPLES_PER_HOUR` for each of its hours.
pub proof fn lemma_window_bounded(slots: Seq<SlotView>, hour: u64)
    requires
        forall|i: int| 0 <= i < slots.len() ==> (#[trigger] slots[i]).wf(),
    ensures
        window_wire(slots, hour).len() <= slots.len() * SAMPLES_PER_HOUR,
        window_duration(slots, hour).len() == window_wire(slots, hour).len(),
    decreases slots.len(),
{
    if slots.len() > 0 {
        let front = slots.drop_last();
        assert forall|i: int| 0 <= i < front.len() implies (#[trigger] front[i]).wf() by {
            assert(front[i] == slots[i]);
        }
        assert(slots[slots.len() - 1].wf());
        lemma_window_bounded(front, hour);
    }
}

impl BucketView {
    /// The first `SAMPLES_PER_HOUR` observations of an hour always land, whatever
    /// is drawn.
    pub proof fn lemma_first_samples_land(
        self,
        obs: Observation,
        hour: u64,
        wire_draw: u64,
        duration_draw: u64,
    )
        requires
            self.wf(),
            self.ordinal(hour) <= SAMPLES_PER_HOUR,
        ensures
            ({
                let i = (hour % WINDOW_HOURS as u64) as int;
                let was = self.hours[i].touched(hour);
                let slot = self.recorded(obs, hour, wire_draw, duration_draw).hours[i];
                &&& slot.wire == was.wire.push(obs.billed())
                &&& slot.duration == was.duration.push(obs.duration_ms)
            }),
    {
        assert(self.hours[(hour % WINDOW_HOURS as u64) as int].wf());
    }

    /// An observation that lands is in the window of its own hour and of those
    /// behind it, for as long as the window reaches back to it, and no longer
    /// by its own slot.
    pub proof fn lemma_sample_visible_for_window(
        self,
        obs: Observation,
        hour: u64,
        wire_draw: u64,
        duration_draw: u64,
        later: u64,
    )
        requires
            self.wf(),
            self.ordinal(hour) <= SAMPLES_PER_HOUR,
            hour != 0,
            later >= hour,
        ensures
            ({
                let after = self.recorded(obs, hour, wire_draw, duration_draw);
                let slot = after.hours[(hour % WINDOW_HOURS as u64) as int];
                &&& slot.live(later) <==> later < hour + WINDOW_HOURS
                &&& later < hour + WINDOW_HOURS ==> {
                    &&& window_wire(after.hours, later).contains(obs.billed())
                    &&& window_duration(after.hours, later).contains(obs.duration_ms)
                }
            }),
    {
        let i = (hour % WINDOW_HOURS as u64) as int;
        let after = self.recorded(obs, hour, wire_draw, duration_draw);
        self.lemma_first_samples_land(obs, hour, wire_draw, duration_draw);
        lemma_window_members(after.hours, later, obs.billed());
        lemma_window_members(after.hours, later, obs.duration_ms);
        let slot = after.hours[i];
        assert(slot.wire[slot.wire.len() - 1] == obs.billed());
        assert(slot.duration[slot.duration.len() - 1] == obs.duration_ms);
    }

    /// A slot reused for another hour is reset rather than appended to: it then
    /// holds the new observation alone.
    pub proof fn lemma_lapped_slot_resets(
        self,
        obs: Observation,
        hour: u64,
        wire_draw: u64,
        duration_draw: u64,
    )
        requires
            self.wf(),
            self.hours[(hour % WINDOW_HOURS as u64) as int].stamp != hour,
        ensures
            self.recorded(
                obs,
                hour,
                wire_draw,
                duration_draw,
            ).hours[(hour % WINDOW_HOURS as u64) as int] == (SlotView {
                stamp: hour,
                seen: 1,
                wire: seq![obs.billed()],
                duration: seq![obs.duration_ms],
            }),
    {
        assert(Seq::<u64>::empty().push(obs.billed()) =~= seq![obs.billed()]);
        assert(Seq::<u64>::empty().push(obs.duration_ms) =~= seq![obs.duration_ms]);
    }

    /// A full reservoir changes in at most one place, and holds nothing but what
    /// it held and the new value.
    pub proof fn lemma_reservoir_replaces_one(samples: Seq<u64>, draw: u64, value: u64)
        requires
            samples.len() == SAMPLES_PER_HOUR,
        ensures
            reservoir(samples, draw, value).len() == SAMPLES_PER_HOUR,
            forall|i: int|
                0 <= i < SAMPLES_PER_HOUR && i != draw ==> #[trigger] reservoir(
                    samples,
                    draw,
                    value,
                )[i] == samples[i],
            draw < SAMPLES_PER_HOUR ==> reservoir(samples, draw, value)[draw as int] == value,
    {
    }

    /// A call into the response cache that turns out to be a miss leaves the hits
    /// as they were, and counts one miss.
    pub proof fn lemma_call_then_miss(self)
        requires
            self.wf(),
        ensures
            self.called().missed() == (BucketView { cache_misses: self.cache_misses + 1, ..self }),
    {
    }

    /// Hits and misses together count the calls into the response cache: a call
    /// adds one, and a miss, if a call is there that it can be of, adds none.
    pub proof fn lemma_hits_and_misses_are_calls(self)
        requires
            self.wf(),
        ensures
            self.called().cache_hits + self.called().cache_misses == self.cache_hits
                + self.cache_misses + 1,
            self.cache_hits > 0 ==> self.missed().cache_hits + self.missed().cache_misses
                == self.cache_hits + self.cache_misses,
    {
    }
}

/// What a window holds, slot by slot: nothing of no slots, and of one more slot
/// all that it holds if its hour is one of the last 24, or lies ahead, and nothing
/// otherwise. The hour zero stands for a slot that was never used.
pub proof fn lemma_window_by_slots(slots: Seq<SlotView>, slot: SlotView, hour: u64)
    ensures
        window_wire(Seq::empty(), hour) == Seq::<u64>::empty(),
        window_duration(Seq::empty(), hour) == Seq::<u64>::empty(),
        window_wire(slots.push(slot), hour) == window_wire(slots, hour) + if slot.stamp > 0 && hour
            < slot.stamp + 24 {
            slot.wire
        } else {
            Seq::empty()
        },
        window_duration(slots.push(slot), hour) == window_duration(slots, hour) + if slot.stamp > 0
            && hour < slot.stamp + 24 {
            slot.duration
        } else {
            Seq::empty()
        },
{
    assert(slots.push(slot).drop_last() =~= slots);
    assert(window_wire(slots, hour) + Seq::<u64>::empty() =~= window_wire(slots, hour));
    assert(window_duration(slots, hour) + Seq::<u64>::empty() =~= window_duration(slots, hour));
}

} // verus!
