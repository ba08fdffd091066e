//! What a bucket's hour slots hold after a run of observations: the percentiles
//! cover a real window, however long the process runs.

use vstd::prelude::*;

use crate::bucket::{BucketView, Observation, SlotView, SAMPLES_PER_HOUR, WINDOW_HOURS};

verus! {

/// An observation of a run: what was observed, in which hour, and what was drawn
/// for the two reservoirs.
pub struct Entry {
    pub obs: Observation,
    pub hour: u64,
    pub wire_draw: u64,
    pub duration_draw: u64,
}

/// The bucket after a run of observations.
pub open spec fn recorded_all(run: Seq<Entry>) -> BucketView
    decreases run.len(),
{
    if run.len() == 0 {
        BucketView::empty()
    } else {
        let entry = run.last();
        recorded_all(run.drop_last()).recorded(
            entry.obs,
            entry.hour,
            entry.wire_draw,
            entry.duration_draw,
        )
    }
}

/// Whether no observation of the run is of an earlier hour than the one before,
/// nor of the first hour of 1970.
pub open spec fn chronological(run: Seq<Entry>) -> bool {
    &&& forall|i: int| 0 <= i < run.len() ==> (#[trigger] run[i]).hour > 0
    &&& forall|i: int, j: int|
        #![trigger run[i], run[j]]
        0 <= i < j < run.len() ==> run[i].hour <= run[j].hour
}

/// The observations of one hour.
pub open spec fn of_hour(run: Seq<Entry>, hour: u64) -> Seq<Entry> {
    run.filter(|entry: Entry| entry.hour == hour)
}

/// The bytes billed for each of these observations.
pub open spec fn billed_of(run: Seq<Entry>) -> Seq<u64> {
    run.map_values(|entry: Entry| entry.obs.billed())
}

/// The duration of each of these observations.
pub open spec fn durations_of(run: Seq<Entry>) -> Seq<u64> {
    run.map_values(|entry: Entry| entry.obs.duration_ms)
}

/// Whether a slot holds the observations of its hour: all of them counted, and
/// all of them sampled up to the bound.
pub open spec fn holds_hour(slot: SlotView, run: Seq<Entry>) -> bool {
    let hour = of_hour(run, slot.stamp);
    &&& slot.seen == hour.len()
    &&& slot.wire.len() == slot.duration.len()
    &&& slot.wire.len() <= SAMPLES_PER_HOUR
    &&& hour.len() <= SAMPLES_PER_HOUR ==> slot.wire == billed_of(hour) && slot.duration
        == durations_of(hour)
    &&& hour.len() >= SAMPLES_PER_HOUR ==> slot.wire.len() == SAMPLES_PER_HOUR
}

/// After a run in chronological order every slot holds the observations of its
/// own hour and no others, and every hour of the window that ends with the last
/// observation and in which something was observed has its slot.
pub proof fn lemma_slots_hold_their_hours(run: Seq<Entry>)
    requires
        chronological(run),
    ensures
        recorded_all(run).hours.len() == WINDOW_HOURS,
        forall|i: int|
            0 <= i < WINDOW_HOURS ==> {
                let slot = #[trigger] recorded_all(run).hours[i];
                &&& holds_hour(slot, run)
                &&& slot.stamp != 0 ==> {
                    &&& slot.stamp % WINDOW_HOURS as u64 == i
                    &&& run.len() > 0
                    &&& slot.stamp <= run.last().hour
                }
            },
        forall|k: int|
            0 <= k < run.len() && (#[trigger] run[k]).hour + WINDOW_HOURS > run.last().hour
                ==> recorded_all(run).hours[(run[k].hour % WINDOW_HOURS as u64) as int].stamp
                == run[k].hour,
    decreases run.len(),
{
    reveal(Seq::filter);
    if run.len() == 0 {
        assert forall|i: int| 0 <= i < WINDOW_HOURS implies holds_hour(
            #[trigger] recorded_all(run).hours[i],
            run,
        ) by {
            assert(recorded_all(run).hours[i] == SlotView::empty(0));
            assert(billed_of(of_hour(run, 0)) =~= Seq::empty());
            assert(durations_of(of_hour(run, 0)) =~= Seq::empty());
        }
    } else {
        let front = run.drop_last();
        let entry = run.last();
        let hour = entry.hour;
        let at = (hour % WINDOW_HOURS as u64) as int;
        let before = recorded_all(front);
        let after = recorded_all(run);
        assert forall|i: int| 0 <= i < front.len() implies (#[trigger] front[i]).hour > 0 && front[i]
            == run[i] && front[i].hour <= hour by {
            assert(run[i].hour <= run[run.len() - 1].hour);
        }
        assert(run[run.len() - 1].hour > 0);
        assert(chronological(front)) by {
            assert forall|i: int, j: int|
                #![trigger front[i], front[j]]
                0 <= i < j < front.len() implies front[i].hour <= front[j].hour by {
                assert(run[i].hour <= run[j].hour);
            }
        }
        lemma_slots_hold_their_hours(front);
        assert forall|h: u64| #[trigger] of_hour(run, h) == if h == hour {
            of_hour(front, h).push(entry)
        } else {
            of_hour(front, h)
        } by {
        }
        let was = before.hours[at];
        let touched = was.touched(hour);
        if was.stamp != hour {
            assert(of_hour(front, hour).len() == 0) by {
                if of_hour(front, hour).len() > 0 {
                    lemma_kept_in_run(front, hour, 0);
                    let k = choose|k: int|
                        0 <= k < front.len() && #[trigger] front[k] == of_hour(front, hour)[0]
                            && front[k].hour == hour;
                    assert(front[front.len() - 1].hour <= hour);
                    assert(before.hours[at].stamp == hour);
                }
            }
            assert(billed_of(of_hour(front, hour)) =~= Seq::empty());
            assert(durations_of(of_hour(front, hour)) =~= Seq::empty());
        }
        assert(holds_hour(touched, front));
        assert(billed_of(of_hour(front, hour).push(entry)) =~= billed_of(
            of_hour(front, hour),
        ).push(entry.obs.billed()));
        assert(durations_of(of_hour(front, hour).push(entry)) =~= durations_of(
            of_hour(front, hour),
        ).push(entry.obs.duration_ms));
        assert(of_hour(run, hour) == of_hour(front, hour).push(entry));
        assert(holds_hour(after.hours[at], run));
        assert forall|i: int| 0 <= i < WINDOW_HOURS implies {
            let slot = #[trigger] after.hours[i];
            &&& holds_hour(slot, run)
            &&& slot.stamp != 0 ==> {
                &&& slot.stamp % WINDOW_HOURS as u64 == i
                &&& run.len() > 0
                &&& slot.stamp <= run.last().hour
            }
        } by {
            if i != at {
                let slot = before.hours[i];
                assert(after.hours[i] == slot);
                assert(holds_hour(slot, front));
                if slot.stamp != 0 {
                    assert(slot.stamp != hour);
                    assert(front[front.len() - 1].hour <= hour);
                }
                assert(of_hour(run, slot.stamp) == of_hour(front, slot.stamp));
            }
        }
        assert forall|k: int|
            0 <= k < run.len() && (#[trigger] run[k]).hour + WINDOW_HOURS
                > run.last().hour implies after.hours[(run[k].hour
            % WINDOW_HOURS as u64) as int].stamp == run[k].hour by {
            if k < front.len() {
                assert(front[k] == run[k]);
                assert(front[front.len() - 1].hour <= hour);
                assert(front[k].hour <= hour);
                if (run[k].hour % WINDOW_HOURS as u64) as int == at {
                    assert(run[k].hour == hour);
                }
            }
        }
    }
}

/// An observation of an hour is one of the run.
proof fn lemma_kept_in_run(run: Seq<Entry>, hour: u64, i: int)
    requires
        0 <= i < of_hour(run, hour).len(),
    ensures
        exists|k: int|
            0 <= k < run.len() && #[trigger] run[k] == of_hour(run, hour)[i] && run[k].hour == hour,
    decreases run.len(),
{
    reveal(Seq::filter);
    let front = run.drop_last();
    if run.last().hour == hour && i == of_hour(front, hour).len() {
        assert(run[run.len() - 1] == of_hour(run, hour)[i]);
    } else {
        lemma_kept_in_run(front, hour, i);
        let k = choose|k: int|
            0 <= k < front.len() && #[trigger] front[k] == of_hour(front, hour)[i] && front[k].hour
                == hour;
        assert(run[k] == of_hour(run, hour)[i]);
    }
}

/// The observations that the window which ends with `hour` covers.
pub open spec fn within(run: Seq<Entry>, hour: u64) -> Seq<Entry> {
    run.filter(|entry: Entry| entry.hour + WINDOW_HOURS > hour)
}

/// Whether an observation is within the window and in one of its first `n` slots.
spec fn in_slots(hour: u64, n: int) -> spec_fn(Entry) -> bool {
    |entry: Entry| entry.hour + WINDOW_HOURS > hour && entry.hour % (WINDOW_HOURS as u64) < n
}

/// Observations of two sorts are those of the one and those of the other.
proof fn lemma_filter_parts(
    run: Seq<Entry>,
    either: spec_fn(Entry) -> bool,
    one: spec_fn(Entry) -> bool,
    other: spec_fn(Entry) -> bool,
)
    requires
        forall|k: int|
            0 <= k < run.len() ==> {
                &&& either(#[trigger] run[k]) == (one(run[k]) || other(run[k]))
                &&& !(one(run[k]) && other(run[k]))
            },
    ensures
        billed_of(run.filter(either)).to_multiset() == billed_of(run.filter(one)).to_multiset().add(
            billed_of(run.filter(other)).to_multiset(),
        ),
        durations_of(run.filter(either)).to_multiset() == durations_of(
            run.filter(one),
        ).to_multiset().add(durations_of(run.filter(other)).to_multiset()),
    decreases run.len(),
{
    broadcast use vstd::seq_lib::group_to_multiset_ensures;

    reveal(Seq::filter);
    if run.len() > 0 {
        let front = run.drop_last();
        let last = run.last();
        assert forall|k: int| 0 <= k < front.len() implies {
            &&& either(#[trigger] front[k]) == (one(front[k]) || other(front[k]))
            &&& !(one(front[k]) && other(front[k]))
        } by {
            assert(front[k] == run[k]);
        }
        assert(last == run[run.len() - 1]);
        lemma_filter_parts(front, either, one, other);
        lemma_pushed(front.filter(either), last);
        lemma_pushed(front.filter(one), last);
        lemma_pushed(front.filter(other), last);
    }
    assert(billed_of(run.filter(either)).to_multiset() =~= billed_of(
        run.filter(one),
    ).to_multiset().add(billed_of(run.filter(other)).to_multiset()));
    assert(durations_of(run.filter(either)).to_multiset() =~= durations_of(
        run.filter(one),
    ).to_multiset().add(durations_of(run.filter(other)).to_multiset()));
}

/// What one more observation adds to the sizes and durations.
proof fn lemma_pushed(run: Seq<Entry>, entry: Entry)
    ensures
        billed_of(run.push(entry)) == billed_of(run).push(entry.obs.billed()),
        durations_of(run.push(entry)) == durations_of(run).push(entry.obs.duration_ms),
{
    assert(billed_of(run.push(entry)) =~= billed_of(run).push(entry.obs.billed()));
    assert(durations_of(run.push(entry)) =~= durations_of(run).push(entry.obs.duration_ms));
}

/// Observations picked in two ways that agree on the run are the same.
proof fn lemma_same_filter(
    run: Seq<Entry>,
    a: spec_fn(Entry) -> bool,
    b: spec_fn(Entry) -> bool,
)
    requires
        forall|k: int| 0 <= k < run.len() ==> a(#[trigger] run[k]) == b(run[k]),
    ensures
        run.filter(a) == run.filter(b),
    decreases run.len(),
{
    reveal(Seq::filter);
    if run.len() > 0 {
        let front = run.drop_last();
        assert forall|k: int| 0 <= k < front.len() implies a(#[trigger] front[k]) == b(front[k]) by {
            assert(front[k] == run[k]);
        }
        assert(a(run[run.len() - 1]) == b(run[run.len() - 1]));
        lemma_same_filter(front, a, b);
    }
}

/// What the first slots hold of the window.
proof fn lemma_first_slots(run: Seq<Entry>, hour: u64, n: int)
    requires
        chronological(run),
        run.len() > 0,
        run.last().hour <= hour,
        forall|h: u64|
            h + WINDOW_HOURS > hour ==> (#[trigger] of_hour(run, h)).len() <= SAMPLES_PER_HOUR,
        0 <= n <= WINDOW_HOURS,
    ensures
        crate::bucket::window_wire(recorded_all(run).hours.take(n), hour).to_multiset() == billed_of(
            run.filter(in_slots(hour, n)),
        ).to_multiset(),
        crate::bucket::window_duration(recorded_all(run).hours.take(n), hour).to_multiset()
            == durations_of(run.filter(in_slots(hour, n))).to_multiset(),
    decreases n,
{
    let slots = recorded_all(run).hours;
    lemma_slots_hold_their_hours(run);
    if n == 0 {
        lemma_same_filter(run, in_slots(hour, 0), |entry: Entry| false);
        lemma_none(run);
        assert(billed_of(run.filter(in_slots(hour, 0))) =~= Seq::empty());
        assert(durations_of(run.filter(in_slots(hour, 0))) =~= Seq::empty());
    } else {
        lemma_first_slots(run, hour, n - 1);
        let slot = slots[n - 1];
        assert(slots.take(n).drop_last() =~= slots.take(n - 1));
        assert(slots.take(n).last() == slot);
        assert(holds_hour(slot, run));
        assert forall|k: int|
            0 <= k < run.len() && (#[trigger] run[k]).hour + WINDOW_HOURS > hour && run[k].hour
                % WINDOW_HOURS as u64 == n - 1 implies slot.stamp == run[k].hour && slot.live(
            hour,
        ) by {
            assert(slots[(run[k].hour % WINDOW_HOURS as u64) as int].stamp == run[k].hour);
            assert(run[k].hour <= run.last().hour) by {
                if k < run.len() - 1 {
                    assert(run[k].hour <= run[run.len() - 1].hour);
                }
            }
        }
        if slot.live(hour) {
            let own = |entry: Entry| entry.hour == slot.stamp;
            lemma_filter_parts(run, in_slots(hour, n), in_slots(hour, n - 1), own);
            assert(of_hour(run, slot.stamp) == run.filter(own));
            assert(of_hour(run, slot.stamp).len() <= SAMPLES_PER_HOUR);
            vstd::seq_lib::lemma_multiset_commutative(
                crate::bucket::window_wire(slots.take(n - 1), hour),
                slot.wire,
            );
            vstd::seq_lib::lemma_multiset_commutative(
                crate::bucket::window_duration(slots.take(n - 1), hour),
                slot.duration,
            );
        } else {
            lemma_same_filter(run, in_slots(hour, n), in_slots(hour, n - 1));
        }
    }
}

/// Nothing is picked where nothing is wanted.
proof fn lemma_none(run: Seq<Entry>)
    ensures
        run.filter(|entry: Entry| false) == Seq::<Entry>::empty(),
    decreases run.len(),
{
    reveal(Seq::filter);
    if run.len() > 0 {
        lemma_none(run.drop_last());
    }
}

/// The percentiles cover a real window: after a run in chronological order, with
/// no more observations in an hour of the window than its reservoir holds, the
/// window holds the sizes and durations observed in its `WINDOW_HOURS` hours,
/// each as often as it was observed, and nothing that is older.
pub proof fn lemma_window_is_real(run: Seq<Entry>, hour: u64)
    requires
        chronological(run),
        run.len() > 0,
        run.last().hour <= hour,
        forall|h: u64|
            h + WINDOW_HOURS > hour ==> (#[trigger] of_hour(run, h)).len() <= SAMPLES_PER_HOUR,
    ensures
        crate::bucket::window_wire(recorded_all(run).hours, hour).to_multiset() == billed_of(
            within(run, hour),
        ).to_multiset(),
        crate::bucket::window_duration(recorded_all(run).hours, hour).to_multiset() == durations_of(
            within(run, hour),
        ).to_multiset(),
{
    let slots = recorded_all(run).hours;
    lemma_slots_hold_their_hours(run);
    lemma_first_slots(run, hour, WINDOW_HOURS as int);
    assert(slots.take(WINDOW_HOURS as int) =~= slots);
    lemma_same_filter(
        run,
        in_slots(hour, WINDOW_HOURS as int),
        |entry: Entry| entry.hour + WINDOW_HOURS > hour,
    );
}

} // verus!
