//! On which timelines there is data, at which times, and how much.
use crate::names::{TimeInt, Timeline};
use crate::row::{DiffView, StoreDiff, StoreDiffKind, StoreEvent};
use vstd::prelude::*;

verus! {

/// How many events there are at one time.
#[derive(Clone, Copy, Debug, PartialEq, Eq, Structural)]
pub struct TimeCount {
    pub time: TimeInt,
    pub count: u64,
}

/// How many events there are at each time of one timeline.
#[derive(Debug)]
pub struct TimeHistogram {
    pub timeline: Timeline,
    /// In the order of time, without any zeroes.
    pub times: Vec<TimeCount>,
}

/// How many events there are at each time of each timeline.
#[derive(Debug)]
pub struct TimesPerTimeline {
    pub timelines: Vec<TimeHistogram>,
}

#[verifier::ext_equal]
pub struct HistogramView {
    pub timeline: Timeline,
    pub times: Seq<TimeCount>,
}

impl View for TimeHistogram {
    type V = HistogramView;

    open spec fn view(&self) -> HistogramView {
        HistogramView { timeline: self.timeline, times: self.times@ }
    }
}

impl View for TimesPerTimeline {
    type V = Seq<HistogramView>;

    open spec fn view(&self) -> Seq<HistogramView> {
        Seq::new(self.timelines@.len(), |i: int| self.timelines@[i]@)
    }
}

/// How many times come before a given one.
pub open spec fn counts_below(times: Seq<TimeCount>, time: TimeInt) -> int
    decreases times.len(),
{
    if times.len() == 0 {
        0
    } else if times.last().time.value < time.value {
        times.len() as int
    } else {
        counts_below(times.drop_last(), time)
    }
}

/// A count with some added, as far as one can count, or some taken away, but not below zero.
pub open spec fn count_changed(count: int, add: bool, weight: int) -> int {
    if add {
        if count + weight > u64::MAX {
            u64::MAX as int
        } else {
            count + weight
        }
    } else if count < weight {
        0
    } else {
        count - weight
    }
}

/// The counts once that of one time was changed. Times that count nothing are left out.
pub open spec fn counts_changed(times: Seq<TimeCount>, time: TimeInt, add: bool, weight: int)
    -> Seq<TimeCount> {
    let at = counts_below(times, time);
    let found = at < times.len() && times[at].time == time;
    let count = count_changed(
        if found {
            times[at].count as int
        } else {
            0
        },
        add,
        weight,
    );
    if count == 0 {
        if found {
            times.remove(at)
        } else {
            times
        }
    } else {
        let new = TimeCount { time, count: count as u64 };
        if found {
            times.update(at, new)
        } else {
            times.insert(at, new)
        }
    }
}

/// The position of the counts of a timeline.
pub open spec fn histogram_index(all: Seq<HistogramView>, timeline: Timeline) -> Option<int>
    decreases all.len(),
{
    if all.len() == 0 {
        None
    } else {
        match histogram_index(all.drop_last(), timeline) {
            Some(i) => Some(i),
            None => if all.last().timeline@ == timeline@ {
                Some(all.len() - 1)
            } else {
                None
            },
        }
    }
}

/// All counts once that of one time on one timeline was changed.
pub open spec fn time_changed(
    all: Seq<HistogramView>,
    timeline: Timeline,
    time: TimeInt,
    add: bool,
    weight: int,
) -> Seq<HistogramView> {
    match histogram_index(all, timeline) {
        Some(i) => all.update(
            i,
            HistogramView {
                timeline: all[i].timeline,
                times: counts_changed(all[i].times, time, add, weight),
            },
        ),
        None => all.push(
            HistogramView { timeline, times: counts_changed(Seq::empty(), time, add, weight) },
        ),
    }
}

/// All counts once a row was added or removed at some times.
pub open spec fn times_changed(
    all: Seq<HistogramView>,
    times: Seq<(Timeline, TimeInt)>,
    add: bool,
    weight: int,
) -> Seq<HistogramView>
    decreases times.len(),
{
    if times.len() == 0 {
        all
    } else {
        time_changed(
            times_changed(all, times.drop_last(), add, weight),
            times.last().0,
            times.last().1,
            add,
            weight,
        )
    }
}

/// All counts after some events, each of which counts once.
pub open spec fn times_after(all: Seq<HistogramView>, diffs: Seq<DiffView>) -> Seq<HistogramView>
    decreases diffs.len(),
{
    if diffs.len() == 0 {
        all
    } else {
        let diff = diffs.last();
        times_changed(times_after(all, diffs.drop_last()), diff.times, diff.kind is Addition, 1)
    }
}

/// All counts after some events, each of which counts once for every cell.
pub open spec fn histograms_after(all: Seq<HistogramView>, diffs: Seq<DiffView>) -> Seq<
    HistogramView,
>
    decreases diffs.len(),
{
    if diffs.len() == 0 {
        all
    } else {
        let diff = diffs.last();
        times_changed(
            histograms_after(all, diffs.drop_last()),
            diff.times,
            diff.kind is Addition,
            diff.cells.len() as int,
        )
    }
}

proof fn lemma_histogram_index_prefix(all: Seq<HistogramView>, timeline: Timeline, n: int)
    requires
        0 <= n <= all.len(),
        histogram_index(all.take(n), timeline) is Some,
    ensures
        histogram_index(all, timeline) == histogram_index(all.take(n), timeline),
    decreases all.len(),
{
    if n == all.len() {
        assert(all.take(n) =~= all);
    } else {
        assert(all.drop_last().take(n) =~= all.take(n));
        lemma_histogram_index_prefix(all.drop_last(), timeline, n);
    }
}

impl TimeHistogram {
    /// Adds to the count of a time, or takes away from it.
    fn change(&mut self, time: TimeInt, add: bool, weight: u64)
        ensures
            final(self)@ == (HistogramView {
                timeline: old(self).timeline,
                times: counts_changed(old(self).times@, time, add, weight as int),
            }),
    {
        let ghost all = self.times@;
        let mut at: usize = self.times.len();
        assert(all.take(at as int) =~= all);
        while at > 0 && self.times[at - 1].time.value >= time.value
            invariant
                at <= self.times@.len(),
                all == self.times@,
                counts_below(all, time) == counts_below(all.take(at as int), time),
            decreases at,
        {
            assert(all.take(at as int).drop_last() =~= all.take(at - 1));
            at -= 1;
        }
        let found = at < self.times.len() && self.times[at].time.value == time.value;
        let before: u64 = if found {
            self.times[at].count
        } else {
            0
        };
        let count: u64 = if add {
            match before.checked_add(weight) {
                Some(sum) => sum,
                None => u64::MAX,
            }
        } else if before < weight {
            0
        } else {
            before - weight
        };
        if count == 0 {
            if found {
                self.times.remove(at);
            }
        } else if found {
            self.times.set(at, TimeCount { time, count });
        } else {
            self.times.insert(at, TimeCount { time, count });
        }
    }
}

impl TimesPerTimeline {
    pub fn new() -> (r: TimesPerTimeline)
        ensures
            r@ == Seq::<HistogramView>::empty(),
    {
        let r = TimesPerTimeline { timelines: Vec::new() };
        assert(r@ =~= Seq::<HistogramView>::empty());
        r
    }

    /// The position of the counts of a timeline.
    pub fn position(&self, timeline: &Timeline) -> (r: Option<usize>)
        ensures
            match r {
                Some(i) => i < self@.len() && histogram_index(self@, *timeline) == Some(i as int),
                None => histogram_index(self@, *timeline) is None,
            },
    {
        let ghost all = self@;
        let mut i: usize = 0;
        while i < self.timelines.len()
            invariant
                i <= self.timelines@.len(),
                all == self@,
                histogram_index(all.take(i as int), *timeline) is None,
            decreases self.timelines@.len() - i,
        {
            assert(all.take(i + 1).drop_last() =~= all.take(i as int));
            if self.timelines[i].timeline.is(timeline) {
                proof {
                    assert(histogram_index(all.take(i + 1), *timeline) == Some(i as int));
                    lemma_histogram_index_prefix(all, *timeline, i + 1);
                }
                return Some(i);
            }
            i += 1;
        }
        assert(all.take(i as int) =~= all);
        None
    }

    fn change_one(&mut self, timeline: Timeline, time: TimeInt, add: bool, weight: u64)
        ensures
            final(self)@ == time_changed(old(self)@, timeline, time, add, weight as int),
    {
        match self.position(&timeline) {
            Some(i) => {
                self.timelines[i].change(time, add, weight);
            },
            None => {
                let mut new = TimeHistogram { timeline, times: Vec::new() };
                new.change(time, add, weight);
                self.timelines.push(new);
            },
        }
        assert(self@ =~= time_changed(old(self)@, timeline, time, add, weight as int));
    }

    /// Adds a row to the counts, or takes it away.
    pub fn change(&mut self, diff: &StoreDiff, weight: u64)
        ensures
            final(self)@ == times_changed(
                old(self)@,
                diff.times@,
                diff.kind is Addition,
                weight as int,
            ),
    {
        let add = match diff.kind {
            StoreDiffKind::Addition => true,
            StoreDiffKind::Deletion => false,
        };
        let mut i: usize = 0;
        while i < diff.times.len()
            invariant
                i <= diff.times@.len(),
                add == (diff.kind is Addition),
                self@ == times_changed(
                    old(self)@,
                    diff.times@.take(i as int),
                    add,
                    weight as int,
                ),
            decreases diff.times@.len() - i,
        {
            assert(diff.times@.take(i + 1).drop_last() =~= diff.times@.take(i as int));
            self.change_one(diff.times[i].0, diff.times[i].1, add, weight);
            i += 1;
        }
        assert(diff.times@.take(i as int) =~= diff.times@);
    }

    /// Takes note of events.
    pub fn on_events(&mut self, events: &Vec<StoreEvent>)
        ensures
            final(self)@ == times_after(old(self)@, crate::row::event_diffs(events@)),
    {
        let ghost all = crate::row::event_diffs(events@);
        let mut i: usize = 0;
        while i < events.len()
            invariant
                i <= events@.len(),
                all == crate::row::event_diffs(events@),
                self@ == times_after(old(self)@, all.take(i as int)),
            decreases events@.len() - i,
        {
            assert(all.take(i + 1).drop_last() =~= all.take(i as int));
            assert(all.take(i + 1).last() == events@[i as int].diff@);
            self.change(&events[i].diff, 1);
            i += 1;
        }
        assert(all.take(i as int) =~= all);
    }

    /// Takes note of the cells in events.
    pub fn on_cells(&mut self, events: &Vec<StoreEvent>)
        ensures
            final(self)@ == histograms_after(old(self)@, crate::row::event_diffs(events@)),
    {
        let ghost all = crate::row::event_diffs(events@);
        let mut i: usize = 0;
        while i < events.len()
            invariant
                i <= events@.len(),
                all == crate::row::event_diffs(events@),
                self@ == histograms_after(old(self)@, all.take(i as int)),
            decreases events@.len() - i,
        {
            assert(all.take(i + 1).drop_last() =~= all.take(i as int));
            assert(all.take(i + 1).last() == events@[i as int].diff@);
            self.change(&events[i].diff, events[i].diff.cells.len() as u64);
            i += 1;
        }
        assert(all.take(i as int) =~= all);
    }
}

// --- Counts.

/// How many events there are at a time.
pub open spec fn count_at(times: Seq<TimeCount>, time: TimeInt) -> int
    decreases times.len(),
{
    if times.len() == 0 {
        0
    } else if times.last().time == time {
        times.last().count as int
    } else {
        count_at(times.drop_last(), time)
    }
}

/// How many events there are at a time of a timeline.
pub open spec fn count_of(all: Seq<HistogramView>, timeline: Timeline, time: TimeInt) -> int {
    match histogram_index(all, timeline) {
        Some(i) => count_at(all[i].times, time),
        None => 0,
    }
}

/// Whether times are in order, each with a count.
pub open spec fn in_order(times: Seq<TimeCount>) -> bool {
    &&& forall|i: int, j: int|
        #![trigger times[i], times[j]]
        0 <= i < j < times.len() ==> times[i].time.value < times[j].time.value
    &&& forall|i: int| 0 <= i < times.len() ==> (#[trigger] times[i]).count > 0
}

/// Whether the times of all timelines are in order.
pub open spec fn all_in_order(all: Seq<HistogramView>) -> bool {
    forall|i: int| 0 <= i < all.len() ==> in_order((#[trigger] all[i]).times)
}

/// What a row at some times, each of which counts for something, adds to the count of one time.
pub open spec fn share_of(
    times: Seq<(Timeline, TimeInt)>,
    timeline: Timeline,
    time: TimeInt,
    weight: int,
) -> int
    decreases times.len(),
{
    if times.len() == 0 {
        0
    } else {
        share_of(times.drop_last(), timeline, time, weight) + if times.last().0@ == timeline@
            && times.last().1 == time {
            weight
        } else {
            0
        }
    }
}

proof fn lemma_counts_below(times: Seq<TimeCount>, time: TimeInt)
    requires
        in_order(times),
    ensures
        0 <= counts_below(times, time) <= times.len(),
        forall|i: int|
            0 <= i < counts_below(times, time) ==> (#[trigger] times[i]).time.value < time.value,
        forall|i: int|
            counts_below(times, time) <= i < times.len() ==> (#[trigger] times[i]).time.value
                >= time.value,
    decreases times.len(),
{
    if times.len() > 0 && times.last().time.value >= time.value {
        let init = times.drop_last();
        assert(in_order(init)) by {
            assert forall|i: int, j: int|
                #![trigger init[i], init[j]]
                0 <= i < j < init.len() implies init[i].time.value < init[j].time.value by {
                assert(times[i].time.value < times[j].time.value);
            }
            assert forall|i: int| 0 <= i < init.len() implies (#[trigger] init[i]).count > 0 by {
                assert(times[i].count > 0);
            }
        }
        lemma_counts_below(init, time);
        assert forall|i: int| 0 <= i < counts_below(times, time) implies (#[trigger]
        times[i]).time.value < time.value by {
            assert(init[i] == times[i]);
        }
        assert forall|i: int| counts_below(times, time) <= i < times.len() implies (#[trigger]
        times[i]).time.value >= time.value by {
            if i < init.len() {
                assert(init[i] == times[i]);
            }
        }
    } else if times.len() > 0 {
        assert forall|i: int| 0 <= i < times.len() implies (#[trigger] times[i]).time.value
            < time.value by {
            if i < times.len() - 1 {
                assert(times[i].time.value < times[times.len() - 1].time.value);
            }
        }
    }
}

proof fn lemma_count_at(times: Seq<TimeCount>, time: TimeInt, i: int)
    requires
        in_order(times),
        0 <= i < times.len(),
        times[i].time == time,
    ensures
        count_at(times, time) == times[i].count,
    decreases times.len(),
{
    if i < times.len() - 1 {
        let init = times.drop_last();
        assert(times[i].time.value < times[times.len() - 1].time.value);
        assert(in_order(init)) by {
            assert forall|i: int, j: int|
                #![trigger init[i], init[j]]
                0 <= i < j < init.len() implies init[i].time.value < init[j].time.value by {
                assert(times[i].time.value < times[j].time.value);
            }
            assert forall|i: int| 0 <= i < init.len() implies (#[trigger] init[i]).count > 0 by {
                assert(times[i].count > 0);
            }
        }
        lemma_count_at(init, time, i);
    }
}

proof fn lemma_count_at_none(times: Seq<TimeCount>, time: TimeInt)
    requires
        forall|i: int| 0 <= i < times.len() ==> (#[trigger] times[i]).time != time,
    ensures
        count_at(times, time) == 0,
    decreases times.len(),
{
    if times.len() > 0 {
        let init = times.drop_last();
        assert forall|i: int| 0 <= i < init.len() implies (#[trigger] init[i]).time != time by {
            assert(init[i] == times[i]);
        }
        assert(times[times.len() - 1].time != time);
        lemma_count_at_none(init, time);
    }
}

/// Histograms that list a time alike count it alike.
proof fn lemma_count_at_same(a: Seq<TimeCount>, b: Seq<TimeCount>, time: TimeInt)
    requires
        in_order(a),
        in_order(b),
        forall|i: int|
            0 <= i < a.len() && (#[trigger] a[i]).time == time ==> exists|j: int|
                0 <= j < b.len() && #[trigger] b[j] == a[i],
        forall|j: int|
            0 <= j < b.len() && (#[trigger] b[j]).time == time ==> exists|i: int|
                0 <= i < a.len() && #[trigger] a[i] == b[j],
    ensures
        count_at(a, time) == count_at(b, time),
{
    if exists|i: int| 0 <= i < a.len() && (#[trigger] a[i]).time == time {
        let i = choose|i: int| 0 <= i < a.len() && (#[trigger] a[i]).time == time;
        let j = choose|j: int| 0 <= j < b.len() && #[trigger] b[j] == a[i];
        lemma_count_at(a, time, i);
        lemma_count_at(b, time, j);
    } else {
        lemma_count_at_none(a, time);
        lemma_count_at_none(b, time);
    }
}

/// The count of a time is where times begin not to come before it.
proof fn lemma_count_found(times: Seq<TimeCount>, time: TimeInt)
    requires
        in_order(times),
    ensures
        ({
            let at = counts_below(times, time);
            &&& 0 <= at <= times.len()
            &&& if at < times.len() && times[at].time == time {
                count_at(times, time) == times[at].count
            } else {
                &&& count_at(times, time) == 0
                &&& forall|i: int| 0 <= i < times.len() ==> (#[trigger] times[i]).time != time
            }
        }),
{
    let at = counts_below(times, time);
    lemma_counts_below(times, time);
    if at < times.len() && times[at].time == time {
        lemma_count_at(times, time, at);
    } else {
        assert forall|i: int| 0 <= i < times.len() implies (#[trigger] times[i]).time != time by {
            if at <= i && at < times.len() {
                assert(times[at].time.value > time.value);
                if at < i {
                    assert(times[at].time.value < times[i].time.value);
                }
            }
        }
        lemma_count_at_none(times, time);
    }
}

/// Taking out a time leaves the others alone.
proof fn lemma_time_removed(times: Seq<TimeCount>, at: int, other: TimeInt)
    requires
        in_order(times),
        0 <= at < times.len(),
    ensures
        in_order(times.remove(at)),
        count_at(times.remove(at), other) == if other == times[at].time {
            0
        } else {
            count_at(times, other)
        },
{
    let after = times.remove(at);
    assert forall|i: int| 0 <= i < after.len() implies #[trigger] after[i] == if i < at {
        times[i]
    } else {
        times[i + 1]
    } by {}
    if other == times[at].time {
        assert forall|i: int| 0 <= i < after.len() implies (#[trigger] after[i]).time != other by {
            if i < at {
                assert(times[i].time.value < times[at].time.value);
            } else {
                assert(times[at].time.value < times[i + 1].time.value);
            }
        }
        lemma_count_at_none(after, other);
    } else {
        assert forall|i: int|
            0 <= i < times.len() && (#[trigger] times[i]).time == other implies exists|j: int|
            0 <= j < after.len() && #[trigger] after[j] == times[i] by {
            assert(after[if i < at {
                i
            } else {
                i - 1
            }] == times[i]);
        }
        lemma_count_at_same(times, after, other);
    }
}

/// Giving a time another count leaves the others alone.
proof fn lemma_time_updated(times: Seq<TimeCount>, at: int, new: TimeCount, other: TimeInt)
    requires
        in_order(times),
        0 <= at < times.len(),
        new.time == times[at].time,
        new.count > 0,
    ensures
        in_order(times.update(at, new)),
        count_at(times.update(at, new), other) == if other == new.time {
            new.count as int
        } else {
            count_at(times, other)
        },
{
    let after = times.update(at, new);
    if other == new.time {
        lemma_count_at(after, other, at);
    } else {
        assert forall|i: int|
            0 <= i < times.len() && (#[trigger] times[i]).time == other implies exists|j: int|
            0 <= j < after.len() && #[trigger] after[j] == times[i] by {
            assert(after[i] == times[i]);
        }
        assert forall|j: int|
            0 <= j < after.len() && (#[trigger] after[j]).time == other implies exists|i: int|
            0 <= i < times.len() && #[trigger] times[i] == after[j] by {
            assert(times[j] == after[j]);
        }
        lemma_count_at_same(times, after, other);
    }
}

/// A new time leaves the others alone.
proof fn lemma_time_inserted(times: Seq<TimeCount>, new: TimeCount, other: TimeInt)
    requires
        in_order(times),
        new.count > 0,
        forall|i: int| 0 <= i < times.len() ==> (#[trigger] times[i]).time != new.time,
    ensures
        in_order(times.insert(counts_below(times, new.time), new)),
        count_at(times.insert(counts_below(times, new.time), new), other) == if other
            == new.time {
            new.count as int
        } else {
            count_at(times, other)
        },
{
    let at = counts_below(times, new.time);
    lemma_counts_below(times, new.time);
    let after = times.insert(at, new);
    assert forall|i: int| 0 <= i < after.len() implies #[trigger] after[i] == if i < at {
        times[i]
    } else if i == at {
        new
    } else {
        times[i - 1]
    } by {}
    assert forall|i: int, j: int|
        #![trigger after[i], after[j]]
        0 <= i < j < after.len() implies after[i].time.value < after[j].time.value by {
        let k = if i < at {
            i
        } else {
            i - 1
        };
        let l = if j < at {
            j
        } else {
            j - 1
        };
        if i != at && j != at {
            assert(times[k].time.value < times[l].time.value);
        } else if i == at {
            assert(times[l].time.value >= new.time.value && times[l].time != new.time);
        } else {
            assert(times[k].time.value < new.time.value);
        }
    }
    assert(in_order(after));
    if other == new.time {
        lemma_count_at(after, other, at);
    } else {
        assert forall|i: int|
            0 <= i < times.len() && (#[trigger] times[i]).time == other implies exists|j: int|
            0 <= j < after.len() && #[trigger] after[j] == times[i] by {
            assert(after[if i < at {
                i
            } else {
                i + 1
            }] == times[i]);
        }
        lemma_count_at_same(times, after, other);
    }
}

proof fn lemma_counts_changed(
    times: Seq<TimeCount>,
    time: TimeInt,
    add: bool,
    weight: int,
    other: TimeInt,
)
    requires
        in_order(times),
        weight >= 0,
    ensures
        in_order(counts_changed(times, time, add, weight)),
        count_at(counts_changed(times, time, add, weight), other) == if other == time {
            count_changed(count_at(times, time), add, weight)
        } else {
            count_at(times, other)
        },
        0 <= count_at(times, other) <= u64::MAX,
{
    let at = counts_below(times, time);
    lemma_count_found(times, time);
    lemma_count_found(times, other);
    let found = at < times.len() && times[at].time == time;
    let count = count_changed(count_at(times, time), add, weight);
    let new = TimeCount { time, count: count as u64 };
    if count == 0 {
        if found {
            lemma_time_removed(times, at, other);
        }
    } else if found {
        lemma_time_updated(times, at, new, other);
    } else {
        lemma_time_inserted(times, new, other);
    }
}

proof fn lemma_histogram_index(all: Seq<HistogramView>, timeline: Timeline)
    ensures
        match histogram_index(all, timeline) {
            Some(i) => {
                &&& 0 <= i < all.len()
                &&& all[i].timeline@ == timeline@
                &&& forall|j: int| 0 <= j < i ==> (#[trigger] all[j]).timeline@ != timeline@
            },
            None => forall|j: int|
                0 <= j < all.len() ==> (#[trigger] all[j]).timeline@ != timeline@,
        },
    decreases all.len(),
{
    if all.len() > 0 {
        let init = all.drop_last();
        lemma_histogram_index(init, timeline);
        if histogram_index(init, timeline) is None {
            assert forall|j: int| 0 <= j < all.len() - 1 implies (#[trigger] all[j]).timeline@
                != timeline@ by {
                assert(init[j] == all[j]);
            }
        } else {
            let i = histogram_index(init, timeline)->0;
            assert forall|j: int| 0 <= j < i implies (#[trigger] all[j]).timeline@
                != timeline@ by {
                assert(init[j] == all[j]);
            }
        }
    }
}

proof fn lemma_histogram_index_is(all: Seq<HistogramView>, timeline: Timeline, i: int)
    requires
        0 <= i < all.len(),
        all[i].timeline@ == timeline@,
        forall|j: int| 0 <= j < i ==> (#[trigger] all[j]).timeline@ != timeline@,
    ensures
        histogram_index(all, timeline) == Some(i),
{
    lemma_histogram_index(all, timeline);
    match histogram_index(all, timeline) {
        Some(j) => {
            if j < i {
                assert(all[j].timeline@ != timeline@);
            }
        },
        None => {
            assert(all[i].timeline@ != timeline@);
        },
    }
}

proof fn lemma_time_changed(
    all: Seq<HistogramView>,
    timeline: Timeline,
    time: TimeInt,
    add: bool,
    weight: int,
    other: Timeline,
    at: TimeInt,
)
    requires
        all_in_order(all),
        weight >= 0,
    ensures
        all_in_order(time_changed(all, timeline, time, add, weight)),
        count_of(time_changed(all, timeline, time, add, weight), other, at) == if other@
            == timeline@ && at == time {
            count_changed(count_of(all, timeline, time), add, weight)
        } else {
            count_of(all, other, at)
        },
{
    let after = time_changed(all, timeline, time, add, weight);
    lemma_histogram_index(all, timeline);
    lemma_histogram_index(all, other);
    match histogram_index(all, timeline) {
        Some(i) => {
            lemma_counts_changed(all[i].times, time, add, weight, at);
            assert forall|k: int| 0 <= k < after.len() implies in_order(
                (#[trigger] after[k]).times,
            ) by {
                assert(in_order(all[k].times));
            }
            match histogram_index(all, other) {
                Some(j) => {
                    assert forall|k: int| 0 <= k < j implies (#[trigger] after[k]).timeline@
                        != other@ by {
                        assert(all[k].timeline@ != other@);
                    }
                    lemma_histogram_index_is(after, other, j);
                    if other@ == timeline@ {
                        if i < j {
                            assert(all[i].timeline@ != other@);
                        }
                        if j < i {
                            assert(all[j].timeline@ != timeline@);
                        }
                    }
                },
                None => {
                    assert(all[i].timeline@ != other@);
                    lemma_histogram_index(after, other);
                    match histogram_index(after, other) {
                        Some(k) => {
                            assert(all[k].timeline@ != other@);
                        },
                        None => {},
                    }
                },
            }
        },
        None => {
            let none = Seq::<TimeCount>::empty();
            assert(in_order(none));
            lemma_counts_changed(none, time, add, weight, at);
            assert forall|k: int| 0 <= k < after.len() implies in_order(
                (#[trigger] after[k]).times,
            ) by {
                if k < all.len() {
                    assert(in_order(all[k].times));
                }
            }
            match histogram_index(all, other) {
                Some(j) => {
                    assert(all[j].timeline@ != timeline@);
                    assert forall|k: int| 0 <= k < j implies (#[trigger] after[k]).timeline@
                        != other@ by {
                        assert(all[k].timeline@ != other@);
                    }
                    lemma_histogram_index_is(after, other, j);
                },
                None => {
                    assert forall|k: int| 0 <= k < all.len() implies (#[trigger]
                    after[k]).timeline@ != other@ by {
                        assert(all[k].timeline@ != other@);
                    }
                    if other@ == timeline@ {
                        lemma_histogram_index_is(after, other, all.len() as int);
                    } else {
                        lemma_histogram_index(after, other);
                    }
                },
            }
        },
    }
}

/// Law: a row that is added counts at its times and nowhere else, and one that is removed no longer
/// does. Times stay in order, and those that count nothing are not listed.
pub proof fn law_counts_follow_rows(
    all: Seq<HistogramView>,
    times: Seq<(Timeline, TimeInt)>,
    add: bool,
    weight: int,
    timeline: Timeline,
    time: TimeInt,
)
    requires
        all_in_order(all),
        weight >= 0,
        add ==> count_of(all, timeline, time) + share_of(times, timeline, time, weight)
            <= u64::MAX,
        !add ==> share_of(times, timeline, time, weight) <= count_of(all, timeline, time),
    ensures
        all_in_order(times_changed(all, times, add, weight)),
        count_of(times_changed(all, times, add, weight), timeline, time) == if add {
            count_of(all, timeline, time) + share_of(times, timeline, time, weight)
        } else {
            count_of(all, timeline, time) - share_of(times, timeline, time, weight)
        },
        share_of(times, timeline, time, weight) >= 0,
    decreases times.len(),
{
    if times.len() > 0 {
        let init = times.drop_last();
        law_counts_follow_rows(all, init, add, weight, timeline, time);
        lemma_time_changed(
            times_changed(all, init, add, weight),
            times.last().0,
            times.last().1,
            add,
            weight,
            timeline,
            time,
        );
        lemma_count_of_alike(
            times_changed(all, init, add, weight),
            times.last().0,
            timeline,
            time,
        );
    }
}

proof fn lemma_count_of_alike(all: Seq<HistogramView>, a: Timeline, b: Timeline, time: TimeInt)
    ensures
        a@ == b@ ==> count_of(all, a, time) == count_of(all, b, time),
{
    lemma_histogram_index(all, a);
    if a@ == b@ {
        match histogram_index(all, a) {
            Some(i) => {
                lemma_histogram_index_is(all, b, i);
            },
            None => {
                lemma_histogram_index(all, b);
            },
        }
    }
}

/// Law: removing what was added undoes the addition, at every time of every timeline.
pub proof fn law_removals_undo_additions(
    all: Seq<HistogramView>,
    times: Seq<(Timeline, TimeInt)>,
    weight: int,
    timeline: Timeline,
    time: TimeInt,
)
    requires
        all_in_order(all),
        weight >= 0,
        count_of(all, timeline, time) + share_of(times, timeline, time, weight) <= u64::MAX,
    ensures
        count_of(
            times_changed(times_changed(all, times, true, weight), times, false, weight),
            timeline,
            time,
        ) == count_of(all, timeline, time),
{
    lemma_count_of_nonnegative(all, timeline, time);
    law_counts_follow_rows(all, times, true, weight, timeline, time);
    law_counts_follow_rows(
        times_changed(all, times, true, weight),
        times,
        false,
        weight,
        timeline,
        time,
    );
}

proof fn lemma_count_of_nonnegative(all: Seq<HistogramView>, timeline: Timeline, time: TimeInt)
    requires
        all_in_order(all),
    ensures
        count_of(all, timeline, time) >= 0,
{
    lemma_histogram_index(all, timeline);
    match histogram_index(all, timeline) {
        Some(i) => {
            assert(in_order(all[i].times));
            lemma_counts_changed(all[i].times, time, true, 0, time);
        },
        None => {},
    }
}

} // verus!
