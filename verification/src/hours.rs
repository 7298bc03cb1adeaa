//! Series of samples that are closed into hourly buckets.

use std::collections::VecDeque;

use vstd::prelude::*;

use crate::calendar;
use crate::calendar::Calendar;
use crate::calendar::Lookups;
use crate::counters;
use crate::counters::AggregatedBucket;
use crate::counters::CounterQuad;
use crate::counters::CurrentHourPointState;
use crate::counters::HistoryPoint;
use crate::lists;
use crate::sorting;
use crate::sorting::Ranked;
use crate::table;
use crate::table::Table;
use crate::table::TableKey;

verus! {

/// The number of closed hours that a series keeps: those of one leap year.
pub const HISTOGRAM_MAX_HOURS: usize = 366 * 24;

impl View for HistoryPoint {
    type V = HistoryPoint;

    open spec fn view(&self) -> HistoryPoint {
        *self
    }
}

/// Samples are put in order by their time.
impl Ranked for HistoryPoint {
    open spec fn rank(a: HistoryPoint, b: HistoryPoint) -> int {
        u64::rank(a.ts_ms, b.ts_ms)
    }

    fn ranked_against(&self, other: &HistoryPoint) -> (r: i8) {
        self.ts_ms.ranked_against(&other.ts_ms)
    }

    proof fn law_flip(a: HistoryPoint, b: HistoryPoint) {
    }

    proof fn law_chain(a: HistoryPoint, b: HistoryPoint, c: HistoryPoint) {
    }
}

/// Buckets are put in order by the beginning of their window.
impl Ranked for AggregatedBucket {
    open spec fn rank(a: AggregatedBucket, b: AggregatedBucket) -> int {
        u64::rank(a.start_ts_ms, b.start_ts_ms)
    }

    fn ranked_against(&self, other: &AggregatedBucket) -> (r: i8) {
        self.start_ts_ms.ranked_against(&other.start_ts_ms)
    }

    proof fn law_flip(a: AggregatedBucket, b: AggregatedBucket) {
    }

    proof fn law_chain(a: AggregatedBucket, b: AggregatedBucket, c: AggregatedBucket) {
    }
}

/// A sample of the open hour, which carries no running total.
pub open spec fn hour_point(ts_ms: u64, metrics: CounterQuad) -> HistoryPoint {
    HistoryPoint { ts_ms, metrics, cumulative: counters::zero_quad() }
}

fn new_point(ts_ms: u64, metrics: CounterQuad) -> (r: HistoryPoint)
    ensures
        r == hour_point(ts_ms, metrics),
{
    HistoryPoint { ts_ms, metrics, cumulative: CounterQuad::default() }
}

/// Samples as they are saved.
pub open spec fn saved_points(s: Seq<HistoryPoint>) -> Seq<CurrentHourPointState> {
    Seq::new(s.len(), |i: int| CurrentHourPointState { ts_ms: s[i].ts_ms, metrics: s[i].metrics })
}

/// The saved samples that lie in a window, both ends counted.
pub open spec fn points_within(
    points: Seq<CurrentHourPointState>,
    w: (u64, u64),
) -> Seq<HistoryPoint>
    decreases points.len(),
{
    if points.len() == 0 {
        Seq::empty()
    } else {
        let rest = points_within(points.drop_last(), w);
        let p = points.last();
        if w.0 <= p.ts_ms <= w.1 {
            rest.push(hour_point(p.ts_ms, p.metrics))
        } else {
            rest
        }
    }
}

/// Of samples in order, the first of each time.
pub open spec fn first_of_each(s: Seq<HistoryPoint>) -> Seq<HistoryPoint>
    decreases s.len(),
{
    if s.len() == 0 {
        s
    } else {
        let rest = first_of_each(s.drop_last());
        if rest.len() > 0 && rest.last().ts_ms == s.last().ts_ms {
            rest
        } else {
            rest.push(s.last())
        }
    }
}

/// The saved samples that lie in a window, in order of time, one for each time.
pub open spec fn cleaned(points: Seq<CurrentHourPointState>, w: (u64, u64)) -> Seq<HistoryPoint> {
    first_of_each(sorting::sorted::<HistoryPoint>(points_within(points, w)))
}

proof fn lemma_points_within(points: Seq<CurrentHourPointState>, w: (u64, u64))
    ensures
        forall|i: int|
            0 <= i < points_within(points, w).len() ==> w.0 <= (#[trigger] points_within(
                points,
                w,
            )[i]).ts_ms <= w.1,
    decreases points.len(),
{
    if points.len() > 0 {
        lemma_points_within(points.drop_last(), w);
        let t = points_within(points.drop_last(), w);
        let r = points_within(points, w);
        assert forall|i: int| 0 <= i < r.len() implies w.0 <= (#[trigger] r[i]).ts_ms <= w.1 by {
            if i < t.len() {
                assert(w.0 <= t[i].ts_ms <= w.1);
            }
        }
    }
}

proof fn lemma_first_of_each(s: Seq<HistoryPoint>)
    requires
        sorting::in_order::<HistoryPoint>(s),
    ensures
        first_of_each(s).len() <= s.len(),
        s.len() > 0 ==> first_of_each(s).len() > 0 && first_of_each(s).last().ts_ms
            == s.last().ts_ms,
        forall|i: int, j: int|
            0 <= i < j < first_of_each(s).len() ==> (#[trigger] first_of_each(s)[i]).ts_ms < (
            #[trigger] first_of_each(s)[j]).ts_ms,
        forall|i: int|
            0 <= i < first_of_each(s).len() ==> s.contains(#[trigger] first_of_each(s)[i]),
    decreases s.len(),
{
    if s.len() > 0 {
        let h = s.drop_last();
        assert forall|i: int, j: int| 0 <= i < j < h.len() implies HistoryPoint::rank(
            #[trigger] h[i],
            #[trigger] h[j],
        ) <= 0 by {
            assert(HistoryPoint::rank(s[i], s[j]) <= 0);
        }
        lemma_first_of_each(h);
        let t = first_of_each(h);
        let r = first_of_each(s);
        if h.len() > 0 {
            assert(HistoryPoint::rank(s[h.len() - 1], s[s.len() - 1]) <= 0);
        }
        assert forall|i: int| 0 <= i < r.len() implies s.contains(#[trigger] r[i]) by {
            if i < t.len() {
                assert(h.contains(t[i]));
                let n = choose|n: int| 0 <= n < h.len() && h[n] == t[i];
                assert(s[n] == r[i]);
            } else {
                assert(s[s.len() - 1] == r[i]);
            }
        }
        assert forall|i: int, j: int| 0 <= i < j < r.len() implies (#[trigger] r[i]).ts_ms < (
        #[trigger] r[j]).ts_ms by {
            if j < t.len() {
                assert(t[i].ts_ms < t[j].ts_ms);
            } else if i < t.len() - 1 {
                assert(t[i].ts_ms < t[t.len() - 1].ts_ms);
            }
        }
    }
}

/// Cleaned samples lie in the window and come strictly one after another, and some are left exactly
/// where some lay in the window.
pub proof fn lemma_cleaned(points: Seq<CurrentHourPointState>, w: (u64, u64))
    ensures
        cleaned(points, w).len() == 0 <==> points_within(points, w).len() == 0,
        forall|i: int, j: int|
            0 <= i < j < cleaned(points, w).len() ==> (#[trigger] cleaned(points, w)[i]).ts_ms < (
            #[trigger] cleaned(points, w)[j]).ts_ms,
        forall|i: int|
            0 <= i < cleaned(points, w).len() ==> w.0 <= (#[trigger] cleaned(points, w)[i]).ts_ms
                <= w.1,
{
    broadcast use vstd::multiset::group_multiset_axioms;
    broadcast use vstd::seq_lib::group_to_multiset_ensures;

    let s = points_within(points, w);
    let t = sorting::sorted::<HistoryPoint>(s);
    sorting::lemma_sorted::<HistoryPoint>(s);
    lemma_first_of_each(t);
    lemma_points_within(points, w);
    let c = cleaned(points, w);
    assert forall|i: int| 0 <= i < c.len() implies w.0 <= (#[trigger] c[i]).ts_ms <= w.1 by {
        assert(t.contains(c[i]));
        assert(t.to_multiset().count(c[i]) > 0);
        assert(s.to_multiset().count(c[i]) > 0);
        assert(s.contains(c[i]));
        let n = choose|n: int| 0 <= n < s.len() && s[n] == c[i];
        assert(w.0 <= s[n].ts_ms <= w.1);
    }
}

/// The saved samples that lie in a window, in order of time, one for each time.
pub fn clean_points(points: &[CurrentHourPointState], w: (u64, u64)) -> (r: Vec<HistoryPoint>)
    ensures
        r@ == cleaned(points@, w),
{
    let mut inside: Vec<HistoryPoint> = Vec::new();
    assert(points@.take(0) =~= Seq::<CurrentHourPointState>::empty());
    for i in 0..points.len()
        invariant
            inside@ == points_within(points@.take(i as int), w),
    {
        assert(points@.take(i + 1).drop_last() =~= points@.take(i as int));
        let p = points[i];
        if w.0 <= p.ts_ms && p.ts_ms <= w.1 {
            inside.push(new_point(p.ts_ms, p.metrics));
        }
    }
    assert(points@.take(points@.len() as int) =~= points@);
    assert(sorting::views(inside@) =~= inside@);
    let ordered = sorting::sort_ranked(inside);
    assert(sorting::views(ordered@) =~= ordered@);
    let mut r: Vec<HistoryPoint> = Vec::new();
    assert(ordered@.take(0) =~= Seq::<HistoryPoint>::empty());
    for i in 0..ordered.len()
        invariant
            r@ == first_of_each(ordered@.take(i as int)),
    {
        assert(ordered@.take(i + 1).drop_last() =~= ordered@.take(i as int));
        let p = ordered[i];
        if r.len() == 0 || r[r.len() - 1].ts_ms != p.ts_ms {
            r.push(p);
        }
    }
    assert(ordered@.take(ordered@.len() as int) =~= ordered@);
    r
}

/// The saved samples of an hour, if the hour is the one in the window and some samples lie in it.
pub open spec fn normalized(
    hour_start_ts_ms: u64,
    points: Seq<CurrentHourPointState>,
    w: (u64, u64),
) -> Option<(u64, Seq<HistoryPoint>)> {
    if hour_start_ts_ms != w.0 || cleaned(points, w).len() == 0 {
        None
    } else {
        Some((hour_start_ts_ms, cleaned(points, w)))
    }
}

/// The bucket of a saved hour, if the hour is the one in the window and some samples lie in it.
pub open spec fn promoted(
    hour_start_ts_ms: u64,
    points: Seq<CurrentHourPointState>,
    w: (u64, u64),
) -> Option<AggregatedBucket> {
    if hour_start_ts_ms != w.0 || cleaned(points, w).len() == 0 {
        None
    } else {
        Some(counters::points_bucket(hour_start_ts_ms, w.1, cleaned(points, w)))
    }
}

/// The samples of the hour that is not over.
#[derive(Debug)]
pub struct OpenHour {
    pub start_ts_ms: u64,
    pub points: Vec<HistoryPoint>,
}

impl View for OpenHour {
    type V = (u64, Seq<HistoryPoint>);

    open spec fn view(&self) -> (u64, Seq<HistoryPoint>) {
        (self.start_ts_ms, self.points@)
    }
}

/// The saved samples of an hour, if it is the hour in the window and some samples lie in it.
pub fn normalize_points_within(
    hour_start_ts_ms: u64,
    points: &[CurrentHourPointState],
    w: (u64, u64),
) -> (r: Option<OpenHour>)
    ensures
        match r {
            Some(open) => normalized(hour_start_ts_ms, points@, w) == Some(open@),
            None => normalized(hour_start_ts_ms, points@, w) is None,
        },
{
    if hour_start_ts_ms != w.0 {
        return None;
    }
    let points = clean_points(points, w);
    if points.len() == 0 {
        return None;
    }
    Some(OpenHour { start_ts_ms: hour_start_ts_ms, points })
}

/// The saved samples of an hour, if the local hour around `now_ms` is the same and some samples lie
/// in it.
pub fn normalize_current_hour_points(
    hour_start_ts_ms: u64,
    points: &[CurrentHourPointState],
    now_ms: u64,
) -> (r: Option<OpenHour>)
    ensures
        exists|w: (u64, u64)| #[trigger]
            calendar::can_be_hour(now_ms, w) && match r {
                Some(open) => normalized(hour_start_ts_ms, points@, w) == Some(open@),
                None => normalized(hour_start_ts_ms, points@, w) is None,
            },
{
    let w = calendar::hourly_bucket_local(now_ms);
    assert(calendar::can_be_hour(now_ms, w));
    normalize_points_within(hour_start_ts_ms, points, w)
}

/// The bucket of a saved hour, if it is the hour in the window and some samples lie in it.
pub fn promote_points_within(
    hour_start_ts_ms: u64,
    points: &[CurrentHourPointState],
    w: (u64, u64),
) -> (r: Option<AggregatedBucket>)
    ensures
        r == promoted(hour_start_ts_ms, points@, w),
{
    if hour_start_ts_ms != w.0 {
        return None;
    }
    let points = clean_points(points, w);
    if points.len() == 0 {
        return None;
    }
    Some(counters::points_to_bucket_within(hour_start_ts_ms, w.1, &points))
}

/// The bucket of a saved hour, if a local hour begins where it says and some samples lie in it.
pub fn promote_stale_points_to_bucket(
    hour_start_ts_ms: u64,
    points: &[CurrentHourPointState],
) -> (r: Option<AggregatedBucket>)
    ensures
        exists|w: (u64, u64)| #[trigger]
            calendar::can_be_hour(hour_start_ts_ms, w) && r == promoted(
                hour_start_ts_ms,
                points@,
                w,
            ),
{
    let w = calendar::hourly_bucket_local(hour_start_ts_ms);
    assert(calendar::can_be_hour(hour_start_ts_ms, w));
    promote_points_within(hour_start_ts_ms, points, w)
}

/// The bucket of the local hour that begins at a time, in which these samples were taken.
pub fn points_to_bucket(start_ms: u64, points: &[HistoryPoint]) -> (r: AggregatedBucket)
    ensures
        exists|w: (u64, u64)| #[trigger]
            calendar::can_be_hour(start_ms, w) && r == counters::points_bucket(
                start_ms,
                w.1,
                points@,
            ),
{
    let w = calendar::hourly_bucket_local(start_ms);
    assert(calendar::can_be_hour(start_ms, w));
    counters::points_to_bucket_within(start_ms, w.1, points)
}

/// Drops the oldest buckets until no more than `max_hours` are left.
pub fn trim_histogram_completed(queue: &mut VecDeque<AggregatedBucket>, max_hours: usize)
    ensures
        final(queue)@ == lists::kept_last(old(queue)@, max_hours as nat),
{
    lists::trim_front(queue, max_hours);
}

impl TableKey for u32 {
    fn same(&self, other: &u32) -> (r: bool) {
        *self == *other
    }

    fn copied(&self) -> (r: u32) {
        *self
    }
}

/// The open and closed hours of some series.
#[verifier::ext_equal]
pub struct SeriesView<A> {
    pub current: Seq<(A, (u64, Seq<HistoryPoint>))>,
    pub completed: Seq<(A, Seq<AggregatedBucket>)>,
}

/// The open hour of a series before a sample of it is taken in. A series without one begins with
/// the sample.
pub open spec fn open_hour<A>(
    s: SeriesView<A>,
    k: A,
    ts_ms: u64,
    metrics: CounterQuad,
    cal: Lookups,
) -> (u64, Seq<HistoryPoint>) {
    table::lookup_or(
        s.current,
        k,
        (calendar::hour_at(cal, ts_ms).0, seq![hour_point(ts_ms, metrics)]),
    )
}

/// The series after a bucket has been closed.
pub open spec fn closed<A>(s: SeriesView<A>, k: A, b: AggregatedBucket) -> SeriesView<A> {
    SeriesView {
        completed: table::assigned(
            s.completed,
            k,
            lists::kept_last(
                table::lookup_or(s.completed, k, Seq::empty()).push(b),
                HISTOGRAM_MAX_HOURS as nat,
            ),
        ),
        ..s
    }
}

/// The bucket that a sample closes: that of the open hour, where the sample lies in another one.
pub open spec fn closed_by<A>(
    s: SeriesView<A>,
    k: A,
    ts_ms: u64,
    metrics: CounterQuad,
    cal: Lookups,
) -> Option<AggregatedBucket> {
    let open = open_hour(s, k, ts_ms, metrics, cal);
    let from = calendar::hour_at(cal, open.0).0;
    if from == calendar::hour_at(cal, ts_ms).0 {
        None
    } else {
        Some(counters::points_bucket(from, calendar::hour_at(cal, from).1, open.1))
    }
}

/// The series after a sample has been taken in: it joins the open hour, or closes it and begins the
/// next one.
pub open spec fn ingested<A>(
    s: SeriesView<A>,
    k: A,
    ts_ms: u64,
    metrics: CounterQuad,
    cal: Lookups,
) -> SeriesView<A> {
    let open = open_hour(s, k, ts_ms, metrics, cal);
    let p = hour_point(ts_ms, metrics);
    match closed_by(s, k, ts_ms, metrics, cal) {
        None => SeriesView {
            current: table::assigned(s.current, k, (open.0, open.1.push(p))),
            ..s
        },
        Some(b) => SeriesView {
            current: table::assigned(
                s.current,
                k,
                (calendar::hour_at(cal, ts_ms).0, seq![p]),
            ),
            ..closed(s, k, b)
        },
    }
}

/// Whether a bucket and the times from `start_ms` to `end_ms` have a moment in common.
pub open spec fn overlaps(b: AggregatedBucket, start_ms: u64, end_ms: u64) -> bool {
    b.start_ts_ms <= end_ms && b.end_ts_ms >= start_ms
}

/// The test for a range of times, as a function of buckets.
pub open spec fn overlap_test(start_ms: u64, end_ms: u64) -> spec_fn(AggregatedBucket) -> bool {
    |b: AggregatedBucket| overlaps(b, start_ms, end_ms)
}

/// The bucket that the open hour of a series would close into.
pub open spec fn open_bucket(open: (u64, Seq<HistoryPoint>), cal: Lookups) -> AggregatedBucket {
    let from = calendar::hour_at(cal, open.0).0;
    counters::points_bucket(from, calendar::hour_at(cal, from).1, open.1)
}

/// The hours of a series from `start_ms` to `end_ms`, closed ones first.
pub open spec fn hours_between<A>(
    s: SeriesView<A>,
    k: A,
    start_ms: u64,
    end_ms: u64,
    cal: Lookups,
) -> Seq<AggregatedBucket> {
    let done = lists::picked(
        table::lookup_or(s.completed, k, Seq::empty()),
        overlap_test(start_ms, end_ms),
    );
    match table::lookup(s.current, k) {
        Some(open) => {
            let w = calendar::hour_at(cal, open.0);
            if w.0 <= end_ms && w.1 >= start_ms && open.1.len() > 0 {
                done.push(open_bucket(open, cal))
            } else {
                done
            }
        },
        None => done,
    }
}

/// The hours of a series from `start_ms` to `end_ms`, in order.
pub open spec fn hourly<A>(
    s: SeriesView<A>,
    k: A,
    start_ms: u64,
    end_ms: u64,
    cal: Lookups,
) -> Seq<AggregatedBucket> {
    sorting::sorted::<AggregatedBucket>(hours_between(s, k, start_ms, end_ms, cal))
}

/// Whether the calendar answers for every open hour, and for where it begins.
pub open spec fn covers_open<A>(cal: Lookups, current: Seq<(A, (u64, Seq<HistoryPoint>))>) -> bool {
    forall|i: int|
        0 <= i < current.len() ==> cal.hours.contains_key((#[trigger] current[i]).1.0)
            && cal.hours.contains_key(calendar::hour_at(cal, current[i].1.0).0)
}

/// Whether the calendar answers for a time, for where its hour begins, and for where that hour does.
pub open spec fn covers_time(cal: Lookups, ts_ms: u64) -> bool {
    let from = calendar::hour_at(cal, ts_ms).0;
    &&& cal.hours.contains_key(ts_ms)
    &&& cal.hours.contains_key(from)
    &&& cal.hours.contains_key(calendar::hour_at(cal, from).0)
}

/// A calendar that answers more still answers for the open hours.
pub proof fn lemma_covers_open_extends<A>(
    c: Lookups,
    d: Lookups,
    current: Seq<(A, (u64, Seq<HistoryPoint>))>,
)
    requires
        covers_open(c, current),
        calendar::extends(c, d),
    ensures
        covers_open(d, current),
{
    assert forall|i: int| 0 <= i < current.len() implies d.hours.contains_key(
        (#[trigger] current[i]).1.0,
    ) && d.hours.contains_key(calendar::hour_at(d, current[i].1.0).0) by {
        assert(c.hours.contains_key(current[i].1.0));
        assert(c.hours.contains_key(calendar::hour_at(c, current[i].1.0).0));
    }
}

/// Series of samples under keys, with their open and closed hours.
#[derive(Debug)]
pub struct HourSeries<K> {
    current: Table<K, OpenHour>,
    completed: Table<K, VecDeque<AggregatedBucket>>,
}

impl<K: TableKey> View for HourSeries<K> {
    type V = SeriesView<K::V>;

    closed spec fn view(&self) -> SeriesView<K::V> {
        SeriesView { current: self.current@, completed: self.completed@ }
    }
}

impl<K: TableKey> HourSeries<K> {
    /// No key has two open hours, nor two lists of closed ones, and no such list is empty.
    pub open spec fn wf(&self) -> bool {
        &&& table::distinct(self@.current)
        &&& table::distinct(self@.completed)
        &&& rings_filled(self@)
    }

    /// No series.
    pub fn new() -> (r: Self)
        ensures
            r@ == (SeriesView::<K::V> { current: Seq::empty(), completed: Seq::empty() }),
            r.wf(),
    {
        HourSeries { current: Table::new(), completed: Table::new() }
    }

    /// The keys that have an open hour.
    pub fn current(&self) -> (r: &Table<K, OpenHour>)
        ensures
            r@ == self@.current,
    {
        &self.current
    }

    /// The keys that have closed hours.
    pub fn completed(&self) -> (r: &Table<K, VecDeque<AggregatedBucket>>)
        ensures
            r@ == self@.completed,
    {
        &self.completed
    }

    /// Adds a closed hour to a series, dropping the oldest where there are too many.
    pub fn close(&mut self, k: &K, b: AggregatedBucket)
        ensures
            final(self)@ == closed(old(self)@, k@, b),
            old(self).wf() ==> final(self).wf(),
    {
        proof {
            let q = lists::kept_last(
                table::lookup_or(self@.completed, k@, Seq::empty()).push(b),
                HISTOGRAM_MAX_HOURS as nat,
            );
            if self.wf() {
                table::lemma_assigned_distinct(self@.completed, k@, q);
                lemma_closed_filled(self@, k@, b);
            }
        }
        match self.completed.find(k) {
            Some(i) => {
                let q = self.completed.value_at_mut(i);
                q.push_back(b);
                trim_histogram_completed(q, HISTOGRAM_MAX_HOURS);
            },
            None => {
                let mut q: VecDeque<AggregatedBucket> = VecDeque::new();
                q.push_back(b);
                trim_histogram_completed(&mut q, HISTOGRAM_MAX_HOURS);
                assert(Seq::<AggregatedBucket>::empty().push(b) =~= seq![b]);
                self.completed.insert(k.copied(), q);
            },
        }
    }

    /// Forgets the series whose key meets `p`; says whether there were any.
    pub(crate) fn remove_if<F: Fn(&K) -> bool>(
        &mut self,
        f: &F,
        Ghost(p): Ghost<spec_fn(K::V) -> bool>,
    ) -> (removed: bool)
        requires
            forall|k: &K| #[trigger] f.requires((k,)),
            forall|k: &K, b: bool| #[trigger] f.ensures((k,), b) ==> b == p(k@),
        ensures
            final(self)@ == (SeriesView {
                current: table::without(old(self)@.current, p),
                completed: table::without(old(self)@.completed, p),
            }),
            removed == (table::some_key(old(self)@.current, p) || table::some_key(
                old(self)@.completed,
                p,
            )),
            old(self).wf() ==> final(self).wf(),
    {
        let ghost before = self@;
        let open = self.current.remove_if(f, Ghost(p));
        let done = self.completed.remove_if(f, Ghost(p));
        proof {
            if rings_filled(before) {
                assert forall|i: int| 0 <= i < self@.completed.len() implies (
                #[trigger] self@.completed[i]).1.len() > 0 by {
                    table::lemma_without_member(before.completed, p, i);
                }
            }
        }
        open || done
    }

    /// Sets the open hour of a series.
    pub fn reopen(&mut self, k: K, open: OpenHour)
        ensures
            final(self)@ == (SeriesView {
                current: table::assigned(old(self)@.current, k@, open@),
                ..old(self)@
            }),
            old(self).wf() ==> final(self).wf(),
    {
        self.current.insert(k, open);
    }

    /// Takes in a sample; gives back the bucket that it closed.
    pub fn ingest(&mut self, k: &K, ts_ms: u64, metrics: &CounterQuad, cal: &Calendar) -> (r: Option<
        AggregatedBucket,
    >)
        ensures
            final(self)@ == ingested(old(self)@, k@, ts_ms, *metrics, cal@),
            r == closed_by(old(self)@, k@, ts_ms, *metrics, cal@),
            old(self).wf() ==> final(self).wf(),
    {
        let ghost before = self@;
        let p = new_point(ts_ms, *metrics);
        let now: u64 = cal.hour(ts_ms).0;
        match self.current.find(k) {
            Some(i) => {
                let open: &mut OpenHour = self.current.value_at_mut(i);
                let from: u64 = cal.hour(open.start_ts_ms).0;
                if from == now {
                    open.points.push(p);
                    None
                } else {
                    let b = counters::points_to_bucket_within(from, cal.hour(from).1, &open.points);
                    let mut points: Vec<HistoryPoint> = Vec::new();
                    points.push(p);
                    assert(points@ =~= seq![p]);
                    *open = OpenHour { start_ts_ms: now, points };
                    self.close(k, b);
                    Some(b)
                }
            },
            None => {
                let mut points: Vec<HistoryPoint> = Vec::new();
                points.push(p);
                assert(points@ =~= seq![p]);
                let from: u64 = cal.hour(now).0;
                if from == now {
                    points.push(p);
                    self.current.insert(k.copied(), OpenHour { start_ts_ms: now, points });
                    None
                } else {
                    let b = counters::points_to_bucket_within(from, cal.hour(from).1, &points);
                    self.current.insert(k.copied(), OpenHour { start_ts_ms: now, points });
                    self.close(k, b);
                    Some(b)
                }
            },
        }
    }

    /// The hours of a series from `start_ms` to `end_ms`, in order.
    pub fn query_hourly(&self, k: &K, start_ms: u64, end_ms: u64, cal: &Calendar) -> (r: Vec<
        AggregatedBucket,
    >)
        ensures
            r@ == hourly(self@, k@, start_ms, end_ms, cal@),
    {
        let ghost p = overlap_test(start_ms, end_ms);
        let mut found: Vec<AggregatedBucket> = Vec::new();
        if let Some(done) = self.completed.get(k) {
            assert(done@.take(0) =~= Seq::<AggregatedBucket>::empty());
            for i in 0..done.len()
                invariant
                    p == overlap_test(start_ms, end_ms),
                    found@ == lists::picked(done@.take(i as int), p),
            {
                assert(done@.take(i + 1) =~= done@.take(i as int).push(done@[i as int]));
                proof {
                    lists::lemma_picked_push(done@.take(i as int), done@[i as int], p);
                }
                let b = done[i];
                if b.start_ts_ms <= end_ms && b.end_ts_ms >= start_ms {
                    found.push(b);
                }
            }
            assert(done@.take(done@.len() as int) =~= done@);
        }
        if let Some(open) = self.current.get(k) {
            let w = cal.hour(open.start_ts_ms);
            if w.0 <= end_ms && w.1 >= start_ms && open.points.len() > 0 {
                found.push(counters::points_to_bucket_within(w.0, cal.hour(w.0).1, &open.points));
            }
        }
        assert(sorting::views(found@) =~= found@);
        let r = sorting::sort_ranked(found);
        assert(sorting::views(r@) =~= r@);
        r
    }

    /// Looks up every open hour, and where it begins.
    pub fn look_up_open(&self, cal: &mut Calendar)
        ensures
            covers_open(final(cal)@, self@.current),
            calendar::extends(old(cal)@, final(cal)@),
            final(cal)@.days == old(cal)@.days,
            calendar::is_local(old(cal)@) ==> calendar::is_local(final(cal)@),
    {
        let ghost first = cal@;
        let n: usize = self.current.len();
        for i in 0..n
            invariant
                n == self.current@.len(),
                self@.current == self.current@,
                calendar::extends(first, cal@),
                cal@.days == first.days,
                calendar::is_local(first) ==> calendar::is_local(cal@),
                forall|j: int|
                    0 <= j < i ==> cal@.hours.contains_key((#[trigger] self.current@[j]).1.0)
                        && cal@.hours.contains_key(
                        calendar::hour_at(cal@, self.current@[j].1.0).0,
                    ),
        {
            let start: u64 = self.current.value_at(i).start_ts_ms;
            let w = cal.look_up_hour(start);
            let _ = cal.look_up_hour(w.0);
        }
    }
}

/// Looks up a time, where its hour begins, and where that hour does.
pub fn look_up_time(cal: &mut Calendar, ts_ms: u64)
    ensures
        covers_time(final(cal)@, ts_ms),
        calendar::extends(old(cal)@, final(cal)@),
        final(cal)@.days == old(cal)@.days,
        calendar::is_local(old(cal)@) ==> calendar::is_local(final(cal)@),
{
    let w = cal.look_up_hour(ts_ms);
    let v = cal.look_up_hour(w.0);
    let _ = cal.look_up_hour(v.0);
}

/// Taking in a sample changes neither the open nor the closed hours of any other series.
pub proof fn lemma_ingest_leaves_others<A>(
    s: SeriesView<A>,
    k: A,
    ts_ms: u64,
    metrics: CounterQuad,
    cal: Lookups,
    other: A,
)
    requires
        other != k,
    ensures
        table::lookup(ingested(s, k, ts_ms, metrics, cal).current, other) == table::lookup(
            s.current,
            other,
        ),
        table::lookup(ingested(s, k, ts_ms, metrics, cal).completed, other) == table::lookup(
            s.completed,
            other,
        ),
{
    let open = open_hour(s, k, ts_ms, metrics, cal);
    let p = hour_point(ts_ms, metrics);
    match closed_by(s, k, ts_ms, metrics, cal) {
        None => {
            table::lemma_lookup_assigned(s.current, k, (open.0, open.1.push(p)), other);
        },
        Some(b) => {
            table::lemma_lookup_assigned(
                s.current,
                k,
                (calendar::hour_at(cal, ts_ms).0, seq![p]),
                other,
            );
            lemma_closed_lookup(s, k, b, other);
        },
    }
}

/// After a sample has been taken in, it is the last one of the open hour of its series.
pub proof fn lemma_ingest_appends<A>(
    s: SeriesView<A>,
    k: A,
    ts_ms: u64,
    metrics: CounterQuad,
    cal: Lookups,
)
    ensures
        match table::lookup(ingested(s, k, ts_ms, metrics, cal).current, k) {
            Some(open) => open.1.len() > 0 && open.1.last() == hour_point(ts_ms, metrics),
            None => false,
        },
{
    let open = open_hour(s, k, ts_ms, metrics, cal);
    let p = hour_point(ts_ms, metrics);
    match closed_by(s, k, ts_ms, metrics, cal) {
        None => {
            table::lemma_lookup_assigned(s.current, k, (open.0, open.1.push(p)), k);
        },
        Some(b) => {
            table::lemma_lookup_assigned(
                s.current,
                k,
                (calendar::hour_at(cal, ts_ms).0, seq![p]),
                k,
            );
        },
    }
}

/// Closing an hour adds it to the end of its series, and leaves the others as they are.
pub proof fn lemma_closed_lookup<A>(s: SeriesView<A>, k: A, b: AggregatedBucket, other: A)
    ensures
        closed(s, k, b).current == s.current,
        other != k ==> table::lookup(closed(s, k, b).completed, other) == table::lookup(
            s.completed,
            other,
        ),
        match table::lookup(closed(s, k, b).completed, k) {
            Some(q) => q.len() > 0 && q.last() == b,
            None => false,
        },
{
    let q = lists::kept_last(
        table::lookup_or(s.completed, k, Seq::empty()).push(b),
        HISTOGRAM_MAX_HOURS as nat,
    );
    table::lemma_lookup_assigned(s.completed, k, q, other);
    table::lemma_lookup_assigned(s.completed, k, q, k);
}

/// No series has an empty list of closed hours.
pub open spec fn rings_filled<A>(s: SeriesView<A>) -> bool {
    forall|i: int| 0 <= i < s.completed.len() ==> (#[trigger] s.completed[i]).1.len() > 0
}

/// Closing an hour leaves no list of closed hours empty.
pub proof fn lemma_closed_filled<A>(s: SeriesView<A>, k: A, b: AggregatedBucket)
    requires
        rings_filled(s),
    ensures
        rings_filled(closed(s, k, b)),
{
    let t = closed(s, k, b);
    assert forall|i: int| 0 <= i < t.completed.len() implies (#[trigger] t.completed[i]).1.len()
        > 0 by {
        if table::has_key(s.completed, k) {
            assert(table::is_place(s.completed, k, table::place_of(s.completed, k)));
            if i != table::place_of(s.completed, k) {
                assert(s.completed[i].1.len() > 0);
            }
        } else if i < s.completed.len() {
            assert(s.completed[i].1.len() > 0);
        }
    }
}

/// No series has more closed hours than are kept.
pub open spec fn rings_bounded<A>(s: SeriesView<A>) -> bool {
    forall|i: int|
        0 <= i < s.completed.len() ==> (#[trigger] s.completed[i]).1.len() <= HISTOGRAM_MAX_HOURS
}

/// Closing an hour keeps every series within the number of hours that are kept.
pub proof fn lemma_closed_bounded<A>(s: SeriesView<A>, k: A, b: AggregatedBucket)
    requires
        rings_bounded(s),
    ensures
        rings_bounded(closed(s, k, b)),
{
    let t = closed(s, k, b);
    assert forall|i: int| 0 <= i < t.completed.len() implies (#[trigger] t.completed[i]).1.len()
        <= HISTOGRAM_MAX_HOURS by {
        if table::has_key(s.completed, k) {
            assert(table::is_place(s.completed, k, table::place_of(s.completed, k)));
            if i != table::place_of(s.completed, k) {
                assert(s.completed[i].1.len() <= HISTOGRAM_MAX_HOURS);
            }
        } else if i < s.completed.len() {
            assert(s.completed[i].1.len() <= HISTOGRAM_MAX_HOURS);
        }
    }
}

/// Taking in a sample keeps every series within the number of hours that are kept.
pub proof fn lemma_ingest_bounded<A>(
    s: SeriesView<A>,
    k: A,
    ts_ms: u64,
    metrics: CounterQuad,
    cal: Lookups,
)
    requires
        rings_bounded(s),
    ensures
        rings_bounded(ingested(s, k, ts_ms, metrics, cal)),
{
    if let Some(b) = closed_by(s, k, ts_ms, metrics, cal) {
        lemma_closed_bounded(s, k, b);
        assert(ingested(s, k, ts_ms, metrics, cal).completed == closed(s, k, b).completed);
    }
}

/// Whether the calendar gives the beginning of the open hour of a series the window of that hour.
pub open spec fn steady_open<A>(s: SeriesView<A>, k: A, cal: Lookups) -> bool {
    match table::lookup(s.current, k) {
        Some(open) => calendar::steady_at(cal, open.0),
        None => true,
    }
}

/// Whether the open hour of a series has a moment in common with some times exactly where the
/// bucket that it would close into has. The two can differ only in their ends.
pub open spec fn told_alike<A>(
    s: SeriesView<A>,
    k: A,
    start_ms: u64,
    end_ms: u64,
    cal: Lookups,
) -> bool {
    match table::lookup(s.current, k) {
        Some(open) => {
            let w = calendar::hour_at(cal, open.0);
            open.1.len() == 0 || ((w.0 <= end_ms && w.1 >= start_ms) <==> overlaps(
                open_bucket(open, cal),
                start_ms,
                end_ms,
            ))
        },
        None => true,
    }
}

/// Where the calendar gives the beginning of an hour the window of the hour, an open hour and its
/// bucket agree on all times.
pub proof fn lemma_steady_told_alike<A>(
    s: SeriesView<A>,
    k: A,
    start_ms: u64,
    end_ms: u64,
    cal: Lookups,
)
    requires
        steady_open(s, k, cal),
    ensures
        told_alike(s, k, start_ms, end_ms, cal),
{
}

/// Hours come out in order of their beginning. Where the open hour agrees with its bucket, every
/// one of them has a moment in common with the times asked for.
pub proof fn lemma_hourly<A>(s: SeriesView<A>, k: A, start_ms: u64, end_ms: u64, cal: Lookups)
    ensures
        sorting::in_order::<AggregatedBucket>(hourly(s, k, start_ms, end_ms, cal)),
        told_alike(s, k, start_ms, end_ms, cal) ==> forall|b: AggregatedBucket|
            hourly(s, k, start_ms, end_ms, cal).contains(b) ==> overlaps(b, start_ms, end_ms),
{
    let all = hours_between(s, k, start_ms, end_ms, cal);
    let r = hourly(s, k, start_ms, end_ms, cal);
    sorting::lemma_sorted::<AggregatedBucket>(all);
    if told_alike(s, k, start_ms, end_ms, cal) {
        assert forall|b: AggregatedBucket| r.contains(b) implies overlaps(b, start_ms, end_ms) by {
            sorting::lemma_sorted_members::<AggregatedBucket>(all, b);
            let n = choose|n: int| 0 <= n < all.len() && all[n] == b;
            let ring = table::lookup_or(s.completed, k, Seq::empty());
            let done = lists::picked(ring, overlap_test(start_ms, end_ms));
            if n < done.len() {
                lists::lemma_picked_member(ring, overlap_test(start_ms, end_ms), n);
            }
        }
    }
}

/// All hours of a series: the closed ones, and the open one where it has samples.
pub open spec fn all_hours<A>(s: SeriesView<A>, k: A, cal: Lookups) -> Seq<AggregatedBucket> {
    let ring = table::lookup_or(s.completed, k, Seq::empty());
    match table::lookup(s.current, k) {
        Some(open) => if open.1.len() > 0 {
            ring.push(open_bucket(open, cal))
        } else {
            ring
        },
        None => ring,
    }
}

/// Asked for all times, a series shows all its hours.
pub proof fn lemma_hours_of_all_times<A>(s: SeriesView<A>, k: A, cal: Lookups)
    ensures
        hours_between(s, k, 0, u64::MAX, cal) == all_hours(s, k, cal),
{
    let ring = table::lookup_or(s.completed, k, Seq::empty());
    lists::lemma_picked_all(ring, overlap_test(0, u64::MAX));
}

/// A range of times shows exactly those of all hours of a series that have a moment in common with
/// it, in the same order, if and only if the open hour agrees with its bucket on these times.
pub proof fn lemma_hourly_within<A>(s: SeriesView<A>, k: A, start_ms: u64, end_ms: u64, cal: Lookups)
    ensures
        hourly(s, k, start_ms, end_ms, cal) == lists::picked(
            hourly(s, k, 0, u64::MAX, cal),
            overlap_test(start_ms, end_ms),
        ) <==> told_alike(s, k, start_ms, end_ms, cal),
        hourly(s, k, 0, u64::MAX, cal).to_multiset() == all_hours(s, k, cal).to_multiset(),
{
    let p = overlap_test(start_ms, end_ms);
    let ring = table::lookup_or(s.completed, k, Seq::empty());
    let all = all_hours(s, k, cal);
    let between = hours_between(s, k, start_ms, end_ms, cal);
    lemma_hours_of_all_times(s, k, cal);
    if let Some(open) = table::lookup(s.current, k) {
        if open.1.len() > 0 {
            lists::lemma_picked_push(ring, open_bucket(open, cal), p);
        }
    }
    lists::lemma_picked_sorted::<AggregatedBucket>(all, p);
    sorting::lemma_sorted::<AggregatedBucket>(all);
    sorting::lemma_sorted::<AggregatedBucket>(between);
    sorting::lemma_sorted::<AggregatedBucket>(lists::picked(all, p));
    if told_alike(s, k, start_ms, end_ms, cal) {
        assert(between == lists::picked(all, p));
    } else {
        assert(between.len() != lists::picked(all, p).len());
    }
}

/// An hour that was closed is found by every query that it overlaps.
pub proof fn lemma_closed_is_found<A>(
    s: SeriesView<A>,
    k: A,
    b: AggregatedBucket,
    start_ms: u64,
    end_ms: u64,
    cal: Lookups,
)
    ensures
        overlaps(b, start_ms, end_ms) ==> hourly(closed(s, k, b), k, start_ms, end_ms, cal).contains(
            b,
        ),
{
    let t = closed(s, k, b);
    lemma_closed_lookup(s, k, b, k);
    let ring = table::lookup_or(t.completed, k, Seq::empty());
    let all = hours_between(t, k, start_ms, end_ms, cal);
    if overlaps(b, start_ms, end_ms) {
        let p = overlap_test(start_ms, end_ms);
        lists::lemma_picked_complete(ring, p, ring.len() - 1);
        let done = lists::picked(ring, p);
        let n = choose|n: int| 0 <= n < done.len() && done[n] == b;
        assert(all[n] == b);
        sorting::lemma_sorted_members::<AggregatedBucket>(all, b);
    }
}

/// Samples of one hour in order of time are restored with one for each time; where no two are of the
/// same time, that is as they were saved.
pub proof fn lemma_saved_hour_restored(points: Seq<HistoryPoint>, w: (u64, u64))
    requires
        points.len() > 0,
        sorting::in_order::<HistoryPoint>(points),
        forall|i: int|
            0 <= i < points.len() ==> w.0 <= (#[trigger] points[i]).ts_ms <= w.1
                && points[i].cumulative == counters::zero_quad(),
    ensures
        normalized(w.0, saved_points(points), w) == Some((w.0, first_of_each(points))),
        (forall|i: int, j: int|
            0 <= i < j < points.len() ==> (#[trigger] points[i]).ts_ms < (
            #[trigger] points[j]).ts_ms) ==> first_of_each(points) == points,
{
    lemma_within_all(points, w);
    sorting::lemma_sorted_already::<HistoryPoint>(points);
    lemma_first_of_each(points);
    if forall|i: int, j: int|
        0 <= i < j < points.len() ==> (#[trigger] points[i]).ts_ms < (#[trigger] points[j]).ts_ms {
        lemma_first_of_strict(points);
    }
}

proof fn lemma_within_all(points: Seq<HistoryPoint>, w: (u64, u64))
    requires
        forall|i: int|
            0 <= i < points.len() ==> w.0 <= (#[trigger] points[i]).ts_ms <= w.1
                && points[i].cumulative == counters::zero_quad(),
    ensures
        points_within(saved_points(points), w) == points,
    decreases points.len(),
{
    let s = saved_points(points);
    if points.len() > 0 {
        let h = points.drop_last();
        assert forall|i: int| 0 <= i < h.len() implies w.0 <= (#[trigger] h[i]).ts_ms <= w.1
            && h[i].cumulative == counters::zero_quad() by {
            assert(w.0 <= points[i].ts_ms <= w.1);
        }
        lemma_within_all(h, w);
        assert(s.drop_last() =~= saved_points(h));
        assert(w.0 <= points[points.len() - 1].ts_ms <= w.1);
        assert(h.push(points.last()) =~= points);
    } else {
        assert(points =~= Seq::<HistoryPoint>::empty());
    }
}

/// Of samples that come strictly one after another, every one is the first of its time.
pub proof fn lemma_first_of_strict(points: Seq<HistoryPoint>)
    requires
        forall|i: int, j: int|
            0 <= i < j < points.len() ==> (#[trigger] points[i]).ts_ms < (
            #[trigger] points[j]).ts_ms,
    ensures
        first_of_each(points) == points,
    decreases points.len(),
{
    if points.len() > 0 {
        let h = points.drop_last();
        assert forall|i: int, j: int| 0 <= i < j < h.len() implies (#[trigger] h[i]).ts_ms < (
        #[trigger] h[j]).ts_ms by {
            assert(points[i].ts_ms < points[j].ts_ms);
        }
        lemma_first_of_strict(h);
        if h.len() > 0 {
            assert(points[h.len() - 1].ts_ms < points[points.len() - 1].ts_ms);
        }
        assert(h.push(points.last()) =~= points);
    }
}

} // verus!
