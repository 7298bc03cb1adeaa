//! What the recent samples of a device that is behind several interfaces add up to.

use vstd::prelude::*;

use crate::counters;
use crate::counters::HistoryPoint;
use crate::history;
use crate::history::HistorySample;
use crate::lists;
use crate::stats;
use crate::text;

verus! {

/// The test for samples of one time.
pub open spec fn sample_test(ts_ms: u64) -> spec_fn(HistorySample) -> bool {
    |x: HistorySample| x.ts_ms == ts_ms
}

/// The samples that a device shows for a time, asked for behind one interface after another.
pub open spec fn samples_at(
    s: Seq<((u32, Seq<char>), Seq<HistoryPoint>)>,
    ifaces: Seq<u32>,
    mac: Seq<char>,
    ts_ms: u64,
) -> Seq<HistorySample>
    decreases ifaces.len(),
{
    if ifaces.len() == 0 {
        Seq::empty()
    } else {
        samples_at(s, ifaces.drop_last(), mac, ts_ms) + lists::picked(
            history::sums_by_time(history::named_points(s, Some(ifaces.last()), mac)),
            sample_test(ts_ms),
        )
    }
}

/// One figure of some samples, added up, and stopping at the largest number.
pub open spec fn sum_of(xs: Seq<HistorySample>, f: spec_fn(HistorySample) -> u64) -> u64 {
    stats::capped(stats::total(lists::numbers(xs, f)))
}

/// Some samples, added up figure by figure.
pub open spec fn sample_sum(ts_ms: u64, xs: Seq<HistorySample>) -> HistorySample {
    HistorySample {
        ts_ms,
        up_v4_bps: sum_of(xs, |x: HistorySample| x.up_v4_bps),
        up_v6_bps: sum_of(xs, |x: HistorySample| x.up_v6_bps),
        down_v4_bps: sum_of(xs, |x: HistorySample| x.down_v4_bps),
        down_v6_bps: sum_of(xs, |x: HistorySample| x.down_v6_bps),
        up_v4_bytes: sum_of(xs, |x: HistorySample| x.up_v4_bytes),
        up_v6_bytes: sum_of(xs, |x: HistorySample| x.up_v6_bytes),
        down_v4_bytes: sum_of(xs, |x: HistorySample| x.down_v4_bytes),
        down_v6_bytes: sum_of(xs, |x: HistorySample| x.down_v6_bytes),
        up_v4_bytes_cumulative: sum_of(xs, |x: HistorySample| x.up_v4_bytes_cumulative),
        up_v6_bytes_cumulative: sum_of(xs, |x: HistorySample| x.up_v6_bytes_cumulative),
        down_v4_bytes_cumulative: sum_of(xs, |x: HistorySample| x.down_v4_bytes_cumulative),
        down_v6_bytes_cumulative: sum_of(xs, |x: HistorySample| x.down_v6_bytes_cumulative),
    }
}

/// Whether the list names every interface behind which some device has samples.
pub open spec fn lists_ifaces(
    s: Seq<((u32, Seq<char>), Seq<HistoryPoint>)>,
    ifaces: Seq<u32>,
) -> bool {
    forall|i: int| 0 <= i < s.len() ==> ifaces.contains((#[trigger] s[i]).0.0)
}

/// What the samples of one time add up to in one figure.
spec fn total_at(q: Seq<HistoryPoint>, ts_ms: u64, g: spec_fn(HistoryPoint) -> u64) -> nat {
    stats::total(lists::numbers(lists::picked(q, history::time_test(ts_ms)), g))
}

/// What a device's samples of one time add up to, behind one interface after another.
spec fn totals_at(
    s: Seq<((u32, Seq<char>), Seq<HistoryPoint>)>,
    ifaces: Seq<u32>,
    mac: Seq<char>,
    ts_ms: u64,
    g: spec_fn(HistoryPoint) -> u64,
) -> nat
    decreases ifaces.len(),
{
    if ifaces.len() == 0 {
        0
    } else {
        totals_at(s, ifaces.drop_last(), mac, ts_ms, g) + total_at(
            history::named_points(s, Some(ifaces.last()), mac),
            ts_ms,
            g,
        )
    }
}

proof fn lemma_total_at_add(
    a: Seq<HistoryPoint>,
    b: Seq<HistoryPoint>,
    ts_ms: u64,
    g: spec_fn(HistoryPoint) -> u64,
)
    ensures
        total_at(a + b, ts_ms, g) == total_at(a, ts_ms, g) + total_at(b, ts_ms, g),
{
    let p = history::time_test(ts_ms);
    let x = lists::picked(a, p);
    let y = lists::picked(b, p);
    lists::lemma_picked_add(a, b, p);
    assert(lists::numbers(x + y, g) =~= lists::numbers(x, g) + lists::numbers(y, g));
    stats::lemma_total_add(lists::numbers(x, g), lists::numbers(y, g));
}

proof fn lemma_totals_last(
    s: Seq<((u32, Seq<char>), Seq<HistoryPoint>)>,
    ifaces: Seq<u32>,
    mac: Seq<char>,
    ts_ms: u64,
    g: spec_fn(HistoryPoint) -> u64,
)
    requires
        s.len() > 0,
        ifaces.no_duplicates(),
    ensures
        totals_at(s, ifaces, mac, ts_ms, g) == totals_at(s.drop_last(), ifaces, mac, ts_ms, g)
            + if ifaces.contains(s.last().0.0) && history::names_any(s.last().0, None, mac) {
            total_at(s.last().1, ts_ms, g)
        } else {
            0
        },
    decreases ifaces.len(),
{
    if ifaces.len() > 0 {
        let rest = ifaces.drop_last();
        let k = s.last().0;
        assert(rest.no_duplicates());
        lemma_totals_last(s, rest, mac, ts_ms, g);
        lemma_total_at_add(
            history::named_points(s.drop_last(), Some(ifaces.last()), mac),
            s.last().1,
            ts_ms,
            g,
        );
        if ifaces.last() == k.0 {
            assert(ifaces[ifaces.len() - 1] == k.0);
            if rest.contains(k.0) {
                let n = choose|n: int| 0 <= n < rest.len() && rest[n] == k.0;
                assert(ifaces[n] == ifaces[ifaces.len() - 1]);
            }
        } else if ifaces.contains(k.0) {
            let n = choose|n: int| 0 <= n < ifaces.len() && ifaces[n] == k.0;
            assert(rest[n] == k.0);
        } else if rest.contains(k.0) {
            let n = choose|n: int| 0 <= n < rest.len() && rest[n] == k.0;
            assert(ifaces[n] == k.0);
        }
    }
}

proof fn lemma_totals_nothing(
    ifaces: Seq<u32>,
    mac: Seq<char>,
    ts_ms: u64,
    g: spec_fn(HistoryPoint) -> u64,
)
    ensures
        totals_at(Seq::empty(), ifaces, mac, ts_ms, g) == 0,
    decreases ifaces.len(),
{
    if ifaces.len() > 0 {
        lemma_totals_nothing(ifaces.drop_last(), mac, ts_ms, g);
    }
}

proof fn lemma_totals(
    s: Seq<((u32, Seq<char>), Seq<HistoryPoint>)>,
    ifaces: Seq<u32>,
    mac: Seq<char>,
    ts_ms: u64,
    g: spec_fn(HistoryPoint) -> u64,
)
    requires
        ifaces.no_duplicates(),
        lists_ifaces(s, ifaces),
    ensures
        total_at(history::named_points(s, None, mac), ts_ms, g) == totals_at(
            s,
            ifaces,
            mac,
            ts_ms,
            g,
        ),
    decreases s.len(),
{
    if s.len() > 0 {
        let h = s.drop_last();
        assert forall|i: int| 0 <= i < h.len() implies ifaces.contains((#[trigger] h[i]).0.0) by {
            assert(ifaces.contains(s[i].0.0));
        }
        lemma_totals(h, ifaces, mac, ts_ms, g);
        lemma_totals_last(s, ifaces, mac, ts_ms, g);
        assert(ifaces.contains(s[s.len() - 1].0.0));
        lemma_total_at_add(history::named_points(h, None, mac), s.last().1, ts_ms, g);
    } else {
        assert(s =~= Seq::empty());
        lemma_totals_nothing(ifaces, mac, ts_ms, g);
    }
}

/// Asked for a time, a device shows one sample where some of its samples are of that time, and else
/// none.
proof fn lemma_sample_at(q: Seq<HistoryPoint>, ts_ms: u64)
    ensures
        lists::picked(history::sums_by_time(q), sample_test(ts_ms)) == (if history::times_of(
            q,
        ).contains(ts_ms) {
            seq![history::sum_at(q, ts_ms)]
        } else {
            Seq::empty()
        }),
        history::times_of(q).contains(ts_ms) <==> lists::picked(
            q,
            history::time_test(ts_ms),
        ).len() > 0,
{
    let times = lists::ascending_once(history::times_of(q));
    let out = history::sums_by_time(q);
    let p = sample_test(ts_ms);
    lists::lemma_ascending_once(history::times_of(q));
    assert forall|i: int| 0 <= i < out.len() implies (#[trigger] out[i]).ts_ms == times[i] by {}
    if history::times_of(q).contains(ts_ms) {
        assert(times.contains(ts_ms));
        let n = choose|n: int| 0 <= n < times.len() && times[n] == ts_ms;
        assert forall|j: int| 0 <= j < out.len() implies (p(#[trigger] out[j]) <==> j == n) by {
            if j < n {
                assert(times[j] < times[n]);
            } else if n < j {
                assert(times[n] < times[j]);
            }
        }
        lists::lemma_picked_one(out, p, n);
        let m = choose|m: int| 0 <= m < q.len() && history::times_of(q)[m] == ts_ms;
        lists::lemma_picked_complete(q, history::time_test(ts_ms), m);
    } else {
        assert forall|j: int| 0 <= j < out.len() implies !p(#[trigger] out[j]) by {
            assert(times.contains(times[j]));
        }
        lists::lemma_picked_none(out, p);
        assert forall|j: int| 0 <= j < q.len() implies !(history::time_test(ts_ms))(
            #[trigger] q[j],
        ) by {
            assert(history::times_of(q)[j] == q[j].ts_ms);
            assert(history::times_of(q).contains(q[j].ts_ms));
        }
        lists::lemma_picked_none(q, history::time_test(ts_ms));
    }
}

proof fn lemma_samples_total(
    s: Seq<((u32, Seq<char>), Seq<HistoryPoint>)>,
    ifaces: Seq<u32>,
    mac: Seq<char>,
    ts_ms: u64,
    shown: spec_fn(HistorySample) -> u64,
    taken: spec_fn(HistoryPoint) -> u64,
)
    requires
        forall|q: Seq<HistoryPoint>| shown(#[trigger] history::sum_at(q, ts_ms)) == stats::capped(
            total_at(q, ts_ms, taken),
        ),
    ensures
        sum_of(samples_at(s, ifaces, mac, ts_ms), shown) == stats::capped(
            totals_at(s, ifaces, mac, ts_ms, taken),
        ),
    decreases ifaces.len(),
{
    if ifaces.len() > 0 {
        let rest = ifaces.drop_last();
        lemma_samples_total(s, rest, mac, ts_ms, shown, taken);
        let q = history::named_points(s, Some(ifaces.last()), mac);
        let x = samples_at(s, rest, mac, ts_ms);
        let y = lists::picked(history::sums_by_time(q), sample_test(ts_ms));
        lemma_sample_at(q, ts_ms);
        assert(lists::numbers(x + y, shown) =~= lists::numbers(x, shown) + lists::numbers(y, shown));
        stats::lemma_total_add(lists::numbers(x, shown), lists::numbers(y, shown));
        if y.len() > 0 {
            assert(lists::numbers(y, shown) =~= Seq::<u64>::empty().push(
                shown(history::sum_at(q, ts_ms)),
            ));
            stats::lemma_total_push(Seq::empty(), shown(history::sum_at(q, ts_ms)));
        }
    }
}

proof fn lemma_field_adds_up(
    s: Seq<((u32, Seq<char>), Seq<HistoryPoint>)>,
    ifaces: Seq<u32>,
    mac: Seq<char>,
    ts_ms: u64,
    shown: spec_fn(HistorySample) -> u64,
    taken: spec_fn(HistoryPoint) -> u64,
)
    requires
        ifaces.no_duplicates(),
        lists_ifaces(s, ifaces),
        forall|q: Seq<HistoryPoint>| shown(#[trigger] history::sum_at(q, ts_ms)) == stats::capped(
            total_at(q, ts_ms, taken),
        ),
    ensures
        shown(history::sum_at(history::named_points(s, None, mac), ts_ms)) == sum_of(
            samples_at(s, ifaces, mac, ts_ms),
            shown,
        ),
{
    lemma_totals(s, ifaces, mac, ts_ms, taken);
    lemma_samples_total(s, ifaces, mac, ts_ms, shown, taken);
}

proof fn lemma_total_of_ones(v: Seq<HistoryPoint>, g: spec_fn(HistoryPoint) -> u64)
    requires
        forall|x: HistoryPoint| #[trigger] g(x) == 1,
    ensures
        stats::total(lists::numbers(v, g)) == v.len(),
    decreases v.len(),
{
    if v.len() > 0 {
        lemma_total_of_ones(v.drop_last(), g);
        assert(lists::numbers(v, g) =~= lists::numbers(v.drop_last(), g).push(1));
        stats::lemma_total_push(lists::numbers(v.drop_last(), g), 1);
    }
}

proof fn lemma_some_sample(
    s: Seq<((u32, Seq<char>), Seq<HistoryPoint>)>,
    ifaces: Seq<u32>,
    mac: Seq<char>,
    ts_ms: u64,
    g: spec_fn(HistoryPoint) -> u64,
)
    requires
        forall|x: HistoryPoint| #[trigger] g(x) == 1,
    ensures
        samples_at(s, ifaces, mac, ts_ms).len() > 0 <==> totals_at(s, ifaces, mac, ts_ms, g) > 0,
    decreases ifaces.len(),
{
    if ifaces.len() > 0 {
        lemma_some_sample(s, ifaces.drop_last(), mac, ts_ms, g);
        let q = history::named_points(s, Some(ifaces.last()), mac);
        lemma_sample_at(q, ts_ms);
        lemma_total_of_ones(lists::picked(q, history::time_test(ts_ms)), g);
    }
}

/// Asked for behind all interfaces, a device shows for each time the sum of what it shows behind each
/// of them, figure by figure, and for no other time anything.
pub proof fn lemma_ifaces_add_up(
    s: Seq<((u32, Seq<char>), Seq<HistoryPoint>)>,
    ifaces: Seq<u32>,
    mac: Seq<char>,
    ts_ms: u64,
)
    requires
        ifaces.no_duplicates(),
        lists_ifaces(s, ifaces),
    ensures
        lists::picked(
            history::sums_by_time(history::named_points(s, None, mac)),
            sample_test(ts_ms),
        ) == (if samples_at(s, ifaces, mac, ts_ms).len() > 0 {
            seq![sample_sum(ts_ms, samples_at(s, ifaces, mac, ts_ms))]
        } else {
            Seq::empty()
        }),
{
    let q = history::named_points(s, None, mac);
    lemma_sample_at(q, ts_ms);
    let one = |p: HistoryPoint| 1u64;
    lemma_some_sample(s, ifaces, mac, ts_ms, one);
    lemma_totals(s, ifaces, mac, ts_ms, one);
    lemma_total_of_ones(lists::picked(q, history::time_test(ts_ms)), one);
    let shown = |x: HistorySample| x.up_v4_bps;
    let taken = |p: HistoryPoint| p.metrics.up_v4_bps;
    assert forall|q: Seq<HistoryPoint>| shown(#[trigger] history::sum_at(q, ts_ms)) == stats::capped(
        total_at(q, ts_ms, taken),
    ) by {
        let at = lists::picked(q, history::time_test(ts_ms));
        assert(counters::up_v4_bps_of(counters::metrics_of(at)) =~= lists::numbers(at, taken));
    }
    lemma_field_adds_up(s, ifaces, mac, ts_ms, shown, taken);
    let shown = |x: HistorySample| x.up_v6_bps;
    let taken = |p: HistoryPoint| p.metrics.up_v6_bps;
    assert forall|q: Seq<HistoryPoint>| shown(#[trigger] history::sum_at(q, ts_ms)) == stats::capped(
        total_at(q, ts_ms, taken),
    ) by {
        let at = lists::picked(q, history::time_test(ts_ms));
        assert(counters::up_v6_bps_of(counters::metrics_of(at)) =~= lists::numbers(at, taken));
    }
    lemma_field_adds_up(s, ifaces, mac, ts_ms, shown, taken);
    let shown = |x: HistorySample| x.down_v4_bps;
    let taken = |p: HistoryPoint| p.metrics.down_v4_bps;
    assert forall|q: Seq<HistoryPoint>| shown(#[trigger] history::sum_at(q, ts_ms)) == stats::capped(
        total_at(q, ts_ms, taken),
    ) by {
        let at = lists::picked(q, history::time_test(ts_ms));
        assert(counters::down_v4_bps_of(counters::metrics_of(at)) =~= lists::numbers(at, taken));
    }
    lemma_field_adds_up(s, ifaces, mac, ts_ms, shown, taken);
    let shown = |x: HistorySample| x.down_v6_bps;
    let taken = |p: HistoryPoint| p.metrics.down_v6_bps;
    assert forall|q: Seq<HistoryPoint>| shown(#[trigger] history::sum_at(q, ts_ms)) == stats::capped(
        total_at(q, ts_ms, taken),
    ) by {
        let at = lists::picked(q, history::time_test(ts_ms));
        assert(counters::down_v6_bps_of(counters::metrics_of(at)) =~= lists::numbers(at, taken));
    }
    lemma_field_adds_up(s, ifaces, mac, ts_ms, shown, taken);
    let shown = |x: HistorySample| x.up_v4_bytes;
    let taken = |p: HistoryPoint| p.metrics.up_v4_bytes;
    assert forall|q: Seq<HistoryPoint>| shown(#[trigger] history::sum_at(q, ts_ms)) == stats::capped(
        total_at(q, ts_ms, taken),
    ) by {
        let at = lists::picked(q, history::time_test(ts_ms));
        assert(counters::up_v4_bytes_of(counters::metrics_of(at)) =~= lists::numbers(at, taken));
    }
    lemma_field_adds_up(s, ifaces, mac, ts_ms, shown, taken);
    let shown = |x: HistorySample| x.up_v6_bytes;
    let taken = |p: HistoryPoint| p.metrics.up_v6_bytes;
    assert forall|q: Seq<HistoryPoint>| shown(#[trigger] history::sum_at(q, ts_ms)) == stats::capped(
        total_at(q, ts_ms, taken),
    ) by {
        let at = lists::picked(q, history::time_test(ts_ms));
        assert(counters::up_v6_bytes_of(counters::metrics_of(at)) =~= lists::numbers(at, taken));
    }
    lemma_field_adds_up(s, ifaces, mac, ts_ms, shown, taken);
    let shown = |x: HistorySample| x.down_v4_bytes;
    let taken = |p: HistoryPoint| p.metrics.down_v4_bytes;
    assert forall|q: Seq<HistoryPoint>| shown(#[trigger] history::sum_at(q, ts_ms)) == stats::capped(
        total_at(q, ts_ms, taken),
    ) by {
        let at = lists::picked(q, history::time_test(ts_ms));
        assert(counters::down_v4_bytes_of(counters::metrics_of(at)) =~= lists::numbers(at, taken));
    }
    lemma_field_adds_up(s, ifaces, mac, ts_ms, shown, taken);
    let shown = |x: HistorySample| x.down_v6_bytes;
    let taken = |p: HistoryPoint| p.metrics.down_v6_bytes;
    assert forall|q: Seq<HistoryPoint>| shown(#[trigger] history::sum_at(q, ts_ms)) == stats::capped(
        total_at(q, ts_ms, taken),
    ) by {
        let at = lists::picked(q, history::time_test(ts_ms));
        assert(counters::down_v6_bytes_of(counters::metrics_of(at)) =~= lists::numbers(at, taken));
    }
    lemma_field_adds_up(s, ifaces, mac, ts_ms, shown, taken);
    let shown = |x: HistorySample| x.up_v4_bytes_cumulative;
    let taken = |p: HistoryPoint| p.cumulative.up_v4_bytes;
    assert forall|q: Seq<HistoryPoint>| shown(#[trigger] history::sum_at(q, ts_ms)) == stats::capped(
        total_at(q, ts_ms, taken),
    ) by {
        let at = lists::picked(q, history::time_test(ts_ms));
        assert(counters::up_v4_bytes_of(counters::cumulative_of(at)) =~= lists::numbers(at, taken));
    }
    lemma_field_adds_up(s, ifaces, mac, ts_ms, shown, taken);
    let shown = |x: HistorySample| x.up_v6_bytes_cumulative;
    let taken = |p: HistoryPoint| p.cumulative.up_v6_bytes;
    assert forall|q: Seq<HistoryPoint>| shown(#[trigger] history::sum_at(q, ts_ms)) == stats::capped(
        total_at(q, ts_ms, taken),
    ) by {
        let at = lists::picked(q, history::time_test(ts_ms));
        assert(counters::up_v6_bytes_of(counters::cumulative_of(at)) =~= lists::numbers(at, taken));
    }
    lemma_field_adds_up(s, ifaces, mac, ts_ms, shown, taken);
    let shown = |x: HistorySample| x.down_v4_bytes_cumulative;
    let taken = |p: HistoryPoint| p.cumulative.down_v4_bytes;
    assert forall|q: Seq<HistoryPoint>| shown(#[trigger] history::sum_at(q, ts_ms)) == stats::capped(
        total_at(q, ts_ms, taken),
    ) by {
        let at = lists::picked(q, history::time_test(ts_ms));
        assert(counters::down_v4_bytes_of(counters::cumulative_of(at)) =~= lists::numbers(at, taken));
    }
    lemma_field_adds_up(s, ifaces, mac, ts_ms, shown, taken);
    let shown = |x: HistorySample| x.down_v6_bytes_cumulative;
    let taken = |p: HistoryPoint| p.cumulative.down_v6_bytes;
    assert forall|q: Seq<HistoryPoint>| shown(#[trigger] history::sum_at(q, ts_ms)) == stats::capped(
        total_at(q, ts_ms, taken),
    ) by {
        let at = lists::picked(q, history::time_test(ts_ms));
        assert(counters::down_v6_bytes_of(counters::cumulative_of(at)) =~= lists::numbers(at, taken));
    }
    lemma_field_adds_up(s, ifaces, mac, ts_ms, shown, taken);
}

/// The samples of a device do not depend on the case in which its address is written.
pub proof fn lemma_samples_ignore_case(
    s: Seq<((u32, Seq<char>), Seq<HistoryPoint>)>,
    ifindex: Option<u32>,
    mac: Seq<char>,
    other: Seq<char>,
)
    requires
        text::same_ignoring_case(mac, other),
    ensures
        history::named_points(s, ifindex, mac) == history::named_points(s, ifindex, other),
    decreases s.len(),
{
    if s.len() > 0 {
        lemma_samples_ignore_case(s.drop_last(), ifindex, mac, other);
        text::lemma_same_case_alike(s.last().0.1, mac, other);
    }
}

} // verus!
