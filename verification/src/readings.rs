//! What a snapshot shows of the counters that were read.

use vstd::prelude::*;

use crate::collect;
use crate::collect::AddressesView;
use crate::collect::NeighborView;
use crate::collect::Readings;
use crate::counters;
use crate::counters::CounterQuad;
use crate::lists;
use crate::mac;
use crate::runtime::DeviceCounter;
use crate::runtime::DeviceTrafficKey;
use crate::runtime::InterfaceTrafficKey;
use crate::runtime::KnownView;
use crate::runtime::RuntimeView;
use crate::snapshot::DeviceListItem;
use crate::snapshot::DeviceView;
use crate::sorting;
use crate::stats;
use crate::table;
use crate::topology::IfaceInfo;

verus! {

/// The rate of some bytes is the whole number of bits per second that is nearest, the larger one of
/// two that are equally near, unless that is too large for a counter.
pub proof fn lemma_bit_rate(bytes: u64, elapsed_ms: u64)
    requires
        elapsed_ms > 0,
    ensures
        ({
            let r = collect::bit_rate(bytes, elapsed_ms);
            &&& r < u64::MAX ==> (2 * r - 1) * elapsed_ms <= 16000 * bytes < (2 * r + 1)
                * elapsed_ms
            &&& r == u64::MAX ==> (2 * r - 1) * elapsed_ms <= 16000 * bytes
        }),
{
    let a = bytes * 8000;
    let b = elapsed_ms as int;
    let q = a / b;
    let r = a % b;
    assert(a == b * q + r && 0 <= r < b) by (nonlinear_arith)
        requires
            0 < b,
            q == a / b,
            r == a % b,
    ;
    let n: int = if 2 * r >= b {
        q + 1
    } else {
        q
    };
    assert((2 * n - 1) * b <= 2 * a < (2 * n + 1) * b) by (nonlinear_arith)
        requires
            a == b * q + r,
            0 <= r < b,
            n == (if 2 * r >= b {
                q + 1
            } else {
                q
            }),
    ;
    assert(q >= 0) by (nonlinear_arith)
        requires
            a == b * q + r,
            0 <= r < b,
            0 < b,
            0 <= a,
    ;
    assert(stats::rounded_ratio(a as nat, b as nat) == n);
    if n > u64::MAX {
        let c = u64::MAX as int;
        assert((2 * c - 1) * b <= (2 * n - 1) * b) by (nonlinear_arith)
            requires
                c <= n,
                0 < b,
        ;
    }
}

spec fn mine(id: (u32, Seq<u8>), v: u8, d: u8) -> spec_fn((DeviceTrafficKey, u64)) -> bool {
    |e: (DeviceTrafficKey, u64)|
        e.0.ifindex == id.0 && e.0.mac@ == id.1 && e.0.ip_version == v && e.0.direction == d
}

spec fn grown(prev: Seq<(DeviceCounter, u64)>) -> spec_fn((DeviceTrafficKey, u64)) -> u64 {
    |e: (DeviceTrafficKey, u64)| counters::growth(e.1, table::lookup_or(prev, e.0@, 0))
}

spec fn rated(prev: Seq<(DeviceCounter, u64)>, elapsed_ms: u64) -> spec_fn(
    (DeviceTrafficKey, u64),
) -> u64 {
    |e: (DeviceTrafficKey, u64)| collect::bit_rate(grown(prev)(e), elapsed_ms)
}

spec fn byte_sum(
    counted: Seq<(DeviceTrafficKey, u64)>,
    prev: Seq<(DeviceCounter, u64)>,
    id: (u32, Seq<u8>),
    v: u8,
    d: u8,
) -> u64 {
    stats::capped(
        stats::total(lists::numbers(lists::picked(counted, mine(id, v, d)), grown(prev))),
    )
}

spec fn rate_sum(
    counted: Seq<(DeviceTrafficKey, u64)>,
    prev: Seq<(DeviceCounter, u64)>,
    id: (u32, Seq<u8>),
    v: u8,
    d: u8,
    elapsed_ms: u64,
) -> u64 {
    stats::capped(
        stats::total(lists::numbers(lists::picked(counted, mine(id, v, d)), rated(prev, elapsed_ms))),
    )
}

spec fn quad_read(
    counted: Seq<(DeviceTrafficKey, u64)>,
    prev: Seq<(DeviceCounter, u64)>,
    id: (u32, Seq<u8>),
    elapsed_ms: u64,
) -> CounterQuad {
    CounterQuad {
        up_v4_bps: rate_sum(counted, prev, id, 4, 0, elapsed_ms),
        up_v4_bytes: byte_sum(counted, prev, id, 4, 0),
        down_v4_bps: rate_sum(counted, prev, id, 4, 1, elapsed_ms),
        down_v4_bytes: byte_sum(counted, prev, id, 4, 1),
        up_v6_bps: rate_sum(counted, prev, id, 6, 0, elapsed_ms),
        up_v6_bytes: byte_sum(counted, prev, id, 6, 0),
        down_v6_bps: rate_sum(counted, prev, id, 6, 1, elapsed_ms),
        down_v6_bytes: byte_sum(counted, prev, id, 6, 1),
    }
}

proof fn lemma_sum_step(
    h: Seq<(DeviceTrafficKey, u64)>,
    e: (DeviceTrafficKey, u64),
    prev: Seq<(DeviceCounter, u64)>,
    id: (u32, Seq<u8>),
    v: u8,
    d: u8,
    elapsed_ms: u64,
)
    ensures
        byte_sum(h.push(e), prev, id, v, d) == (if mine(id, v, d)(e) {
            stats::capped((byte_sum(h, prev, id, v, d) + grown(prev)(e)) as nat)
        } else {
            byte_sum(h, prev, id, v, d)
        }),
        rate_sum(h.push(e), prev, id, v, d, elapsed_ms) == (if mine(id, v, d)(e) {
            stats::capped(
                (rate_sum(h, prev, id, v, d, elapsed_ms) + rated(prev, elapsed_ms)(e)) as nat,
            )
        } else {
            rate_sum(h, prev, id, v, d, elapsed_ms)
        }),
{
    let s = lists::picked(h, mine(id, v, d));
    lists::lemma_picked_push(h, e, mine(id, v, d));
    let f = grown(prev);
    let g = rated(prev, elapsed_ms);
    assert(lists::numbers(s.push(e), f) =~= lists::numbers(s, f).push(f(e)));
    assert(lists::numbers(s.push(e), g) =~= lists::numbers(s, g).push(g(e)));
    stats::lemma_capped_step(lists::numbers(s, f), f(e));
    stats::lemma_capped_step(lists::numbers(s, g), g(e));
}

proof fn lemma_quad_read_step(
    h: Seq<(DeviceTrafficKey, u64)>,
    e: (DeviceTrafficKey, u64),
    prev: Seq<(DeviceCounter, u64)>,
    id: (u32, Seq<u8>),
    elapsed_ms: u64,
)
    ensures
        quad_read(h.push(e), prev, id, elapsed_ms) == (if e.0.ifindex == id.0 && e.0.mac@ == id.1 {
            collect::filled(
                e.0.ip_version,
                e.0.direction,
                quad_read(h, prev, id, elapsed_ms),
                grown(prev)(e),
                elapsed_ms,
            )
        } else {
            quad_read(h, prev, id, elapsed_ms)
        }),
{
    lemma_sum_step(h, e, prev, id, 4, 0, elapsed_ms);
    lemma_sum_step(h, e, prev, id, 4, 1, elapsed_ms);
    lemma_sum_step(h, e, prev, id, 6, 0, elapsed_ms);
    lemma_sum_step(h, e, prev, id, 6, 1, elapsed_ms);
}

proof fn lemma_prev_read(
    prev: Seq<(DeviceCounter, u64)>,
    group: Seq<((u32, Seq<u8>), DeviceView)>,
    counted: Seq<(DeviceTrafficKey, u64)>,
    elapsed_ms: u64,
    k: DeviceCounter,
)
    requires
        forall|i: int| 0 <= i < counted.len() ==> (#[trigger] counted[i]).0@ != k,
    ensures
        table::lookup(collect::devices_read(prev, group, counted, elapsed_ms).0, k)
            == table::lookup(prev, k),
    decreases counted.len(),
{
    if counted.len() > 0 {
        let h = counted.drop_last();
        assert forall|i: int| 0 <= i < h.len() implies (#[trigger] h[i]).0@ != k by {
            assert(counted[i].0@ != k);
        }
        lemma_prev_read(prev, group, h, elapsed_ms, k);
        assert(counted[counted.len() - 1].0@ != k);
        table::lemma_lookup_assigned(
            collect::devices_read(prev, group, h, elapsed_ms).0,
            counted.last().0@,
            counted.last().1,
            k,
        );
    }
}

/// Whether no counter of a device was read twice.
pub open spec fn each_once(s: Seq<(DeviceTrafficKey, u64)>) -> bool {
    forall|i: int, j: int| 0 <= i < j < s.len() ==> (#[trigger] s[i]).0@ != (#[trigger] s[j]).0@
}

proof fn lemma_devices_read(
    prev: Seq<(DeviceCounter, u64)>,
    group: Seq<((u32, Seq<u8>), DeviceView)>,
    counted: Seq<(DeviceTrafficKey, u64)>,
    elapsed_ms: u64,
    id: (u32, Seq<u8>),
)
    requires
        each_once(counted),
        match table::lookup(group, id) {
            Some(d) => d.metrics == counters::zero_quad(),
            None => true,
        },
    ensures
        table::lookup(collect::devices_read(prev, group, counted, elapsed_ms).1, id) == (
        match table::lookup(group, id) {
            Some(d) => Some(
                DeviceView { metrics: quad_read(counted, prev, id, elapsed_ms), ..d },
            ),
            None => None,
        }),
    decreases counted.len(),
{
    if counted.len() > 0 {
        let h = counted.drop_last();
        let e = counted.last();
        assert forall|i: int, j: int| 0 <= i < j < h.len() implies (#[trigger] h[i]).0@ != (
        #[trigger] h[j]).0@ by {
            assert(counted[i].0@ != counted[j].0@);
        }
        lemma_devices_read(prev, group, h, elapsed_ms, id);
        assert(h.push(e) =~= counted);
        lemma_quad_read_step(h, e, prev, id, elapsed_ms);
        assert forall|i: int| 0 <= i < h.len() implies (#[trigger] h[i]).0@ != e.0@ by {
            assert(counted[i].0@ != counted[counted.len() - 1].0@);
        }
        lemma_prev_read(prev, group, h, elapsed_ms, e.0@);
        let (p, g) = collect::devices_read(prev, group, h, elapsed_ms);
        let other = (e.0.ifindex, e.0.mac@);
        if let Some(d) = table::lookup(g, other) {
            let grew = counters::growth(e.1, table::lookup_or(p, e.0@, 0));
            table::lemma_lookup_assigned(
                g,
                other,
                DeviceView {
                    metrics: collect::filled(
                        e.0.ip_version,
                        e.0.direction,
                        d.metrics,
                        grew,
                        elapsed_ms,
                    ),
                    ..d
                },
                id,
            );
        }
    } else {
        assert(quad_read(counted, prev, id, elapsed_ms) == counters::zero_quad());
    }
}

proof fn lemma_devices_read_distinct(
    prev: Seq<(DeviceCounter, u64)>,
    group: Seq<((u32, Seq<u8>), DeviceView)>,
    counted: Seq<(DeviceTrafficKey, u64)>,
    elapsed_ms: u64,
)
    requires
        table::distinct(group),
    ensures
        table::distinct(collect::devices_read(prev, group, counted, elapsed_ms).1),
    decreases counted.len(),
{
    if counted.len() > 0 {
        let h = counted.drop_last();
        let e = counted.last();
        lemma_devices_read_distinct(prev, group, h, elapsed_ms);
        let (p, g) = collect::devices_read(prev, group, h, elapsed_ms);
        let other = (e.0.ifindex, e.0.mac@);
        if let Some(d) = table::lookup(g, other) {
            let grew = counters::growth(e.1, table::lookup_or(p, e.0@, 0));
            table::lemma_assigned_distinct(
                g,
                other,
                DeviceView {
                    metrics: collect::filled(
                        e.0.ip_version,
                        e.0.direction,
                        d.metrics,
                        grew,
                        elapsed_ms,
                    ),
                    ..d
                },
            );
        }
    }
}

/// Whether a device that is there is shown under its own interface and address, with nothing
/// counted yet.
spec fn fresh(id: (u32, Seq<u8>), d: DeviceView) -> bool {
    &&& d.ifindex == id.0
    &&& d.mac == mac::mac_text(id.1)
    &&& id.1.len() == 6
    &&& d.online
    &&& d.metrics == counters::zero_quad()
}

proof fn lemma_gathered_keys(s: Seq<NeighborView>)
    requires
        forall|i: int| 0 <= i < s.len() ==> (#[trigger] s[i]).mac.len() == 6,
    ensures
        forall|i: int|
            0 <= i < collect::gathered(s).len() ==> (#[trigger] collect::gathered(s)[i]).0.1.len()
                == 6,
    decreases s.len(),
{
    if s.len() > 0 {
        let h = s.drop_last();
        assert forall|i: int| 0 <= i < h.len() implies (#[trigger] h[i]).mac.len() == 6 by {
            assert(s[i].mac.len() == 6);
        }
        lemma_gathered_keys(h);
        let rest = collect::gathered(h);
        let all = collect::gathered(s);
        let n = s[s.len() - 1];
        let k = (n.dev, n.mac);
        assert forall|i: int| 0 <= i < all.len() implies (#[trigger] all[i]).0.1.len() == 6 by {
            if table::has_key(rest, k) {
                assert(table::is_place(rest, k, table::place_of(rest, k)));
            }
            if i < rest.len() {
                assert(rest[i].0.1.len() == 6);
            }
        }
    }
}

proof fn lemma_online_fresh(
    s: Seq<((Seq<char>, Seq<u8>), AddressesView)>,
    registry: Seq<((u32, Seq<u8>), KnownView)>,
    names: Seq<Seq<char>>,
    rd: Readings,
    t: Seq<IfaceInfo>,
    now_ms: u64,
    id: (u32, Seq<u8>),
)
    requires
        forall|i: int| 0 <= i < s.len() ==> (#[trigger] s[i]).0.1.len() == 6,
    ensures
        table::distinct(collect::devices_online(s, registry, names, rd, t, now_ms)),
        match table::lookup(collect::devices_online(s, registry, names, rd, t, now_ms), id) {
            Some(d) => fresh(id, d),
            None => true,
        },
    decreases s.len(),
{
    let all = collect::devices_online(s, registry, names, rd, t, now_ms);
    if s.len() > 0 {
        let h = s.drop_last();
        assert forall|i: int| 0 <= i < h.len() implies (#[trigger] h[i]).0.1.len() == 6 by {
            assert(s[i].0.1.len() == 6);
        }
        lemma_online_fresh(h, registry, names, rd, t, now_ms, id);
        let rest = collect::devices_online(h, registry, names, rd, t, now_ms);
        let (k, a) = s[s.len() - 1];
        if let Some((ifindex, x)) = collect::watched_iface(k.0, names, rd, t) {
            let d = collect::online_device(registry, ifindex, x, k.1, a, rd, now_ms);
            table::lemma_lookup_assigned(rest, (ifindex, k.1), d, id);
            table::lemma_assigned_distinct(rest, (ifindex, k.1), d);
        }
    } else {
        assert(!table::has_key(all, id));
    }
}

proof fn lemma_absent_offline(
    registry: Seq<((u32, Seq<u8>), KnownView)>,
    totals: Seq<((u32, Seq<u8>), CounterQuad)>,
    group: Seq<((u32, Seq<u8>), DeviceView)>,
    names: Seq<Seq<char>>,
    t: Seq<IfaceInfo>,
)
    ensures
        forall|i: int|
            0 <= i < collect::devices_offline(registry, totals, group, names, t).len() ==> !(
            #[trigger] collect::devices_offline(registry, totals, group, names, t)[i]).online,
    decreases registry.len(),
{
    if registry.len() > 0 {
        lemma_absent_offline(registry.drop_last(), totals, group, names, t);
        let rest = collect::devices_offline(registry.drop_last(), totals, group, names, t);
        let all = collect::devices_offline(registry, totals, group, names, t);
        assert forall|i: int| 0 <= i < all.len() implies !(#[trigger] all[i]).online by {
            if i < rest.len() {
                assert(!rest[i].online);
            }
        }
    }
}

/// The group of a reading, and where an online device of the snapshot stands in it.
proof fn lemma_online_place(
    r: RuntimeView,
    names: Seq<Seq<char>>,
    rd: Readings,
    t: Seq<IfaceInfo>,
    now_ms: u64,
    elapsed_ms: u64,
    i: int,
    m: Seq<u8>,
)
    requires
        each_once(rd.device_stats@),
        0 <= i < collect::shown(r, names, rd, t, now_ms, elapsed_ms).devices.len(),
        collect::shown(r, names, rd, t, now_ms, elapsed_ms).devices[i].online,
        collect::shown(r, names, rd, t, now_ms, elapsed_ms).devices[i].mac == mac::mac_text(m),
        m.len() == 6,
    ensures
        ({
            let d = collect::shown(r, names, rd, t, now_ms, elapsed_ms).devices[i];
            let id = (d.ifindex, m);
            let group = collect::group_of(r, names, rd, t, now_ms, elapsed_ms).1;
            &&& table::distinct(group)
            &&& table::lookup(group, id) is Some
            &&& d.metrics == table::lookup(group, id).unwrap().metrics
            &&& d.metrics == quad_read(rd.device_stats@, r.prev_device_bytes, id, elapsed_ms)
            &&& d.cumulative == counters::quad_sum(
                table::lookup_or(r.cumulative_device, id, counters::zero_quad()),
                d.metrics,
            )
        }),
{
    let d = collect::shown(r, names, rd, t, now_ms, elapsed_ms).devices[i];
    let seen = sorting::views(rd.neighbors@);
    let near = collect::gathered(seen);
    let first = collect::devices_online(near, r.registry, names, rd, t, now_ms);
    let group = collect::group_of(r, names, rd, t, now_ms, elapsed_ms).1;
    let here = collect::with_totals(r.cumulative_device, group);
    let after = collect::remembered_after(r, names, rd, t, now_ms, elapsed_ms);
    let gone = collect::devices_offline(after.registry, after.cumulative_device, here, names, t);
    let all = collect::values_of(here) + gone;
    let listed = sorting::sorted::<DeviceListItem>(all);
    assert(listed.contains(d));
    sorting::lemma_sorted_members::<DeviceListItem>(all, d);
    lemma_absent_offline(after.registry, after.cumulative_device, here, names, t);
    let n = choose|n: int| 0 <= n < all.len() && all[n] == d;
    if n >= here.len() {
        assert(!gone[n - here.len()].online);
    }
    let id = here[n].0;
    assert forall|j: int| 0 <= j < seen.len() implies (#[trigger] seen[j]).mac.len() == 6 by {}
    lemma_gathered_keys(seen);
    lemma_online_fresh(near, r.registry, names, rd, t, now_ms, id);
    lemma_devices_read_distinct(r.prev_device_bytes, first, rd.device_stats@, elapsed_ms);
    lemma_devices_read(r.prev_device_bytes, first, rd.device_stats@, elapsed_ms, id);
    table::lemma_lookup_at(group, n);
    assert(group[n].0 == id);
    mac::lemma_mac_round_trip(id.1);
    mac::lemma_mac_round_trip(m);
    assert(id == (d.ifindex, m));
    collect::lemma_device_totals(r.cumulative_device, group, id);
    assert(here[n].1.cumulative == d.cumulative);
}

/// Each of the four byte figures that a device which is there shows is the sum of what exactly those
/// of its counters grew by that are marked with the family and the direction of the figure, and each
/// rate is the sum of the rates of that. A counter of what comes in from a device counts as up, one
/// of what goes out to it as down. A counter that shows less than before began anew.
pub proof fn lemma_device_figures(
    r: RuntimeView,
    names: Seq<Seq<char>>,
    rd: Readings,
    t: Seq<IfaceInfo>,
    now_ms: u64,
    elapsed_ms: u64,
    i: int,
    m: Seq<u8>,
)
    requires
        each_once(rd.device_stats@),
        0 <= i < collect::shown(r, names, rd, t, now_ms, elapsed_ms).devices.len(),
        collect::shown(r, names, rd, t, now_ms, elapsed_ms).devices[i].online,
        collect::shown(r, names, rd, t, now_ms, elapsed_ms).devices[i].mac == mac::mac_text(m),
        m.len() == 6,
    ensures
        ({
            let d = collect::shown(r, names, rd, t, now_ms, elapsed_ms).devices[i];
            let grew = |e: (DeviceTrafficKey, u64)|
                if table::has_key(r.prev_device_bytes, e.0@) && table::lookup_or(
                    r.prev_device_bytes,
                    e.0@,
                    0,
                ) <= e.1 {
                    (e.1 - table::lookup_or(r.prev_device_bytes, e.0@, 0)) as u64
                } else {
                    e.1
                };
            &&& d.metrics.up_v4_bytes == stats::capped(
                stats::total(
                    lists::numbers(
                        lists::picked(
                            rd.device_stats@,
                            |e: (DeviceTrafficKey, u64)|
                                e.0.ifindex == d.ifindex && e.0.mac@ == m && e.0.ip_version == 4
                                    && e.0.direction == 0,
                        ),
                        grew,
                    ),
                ),
            )
            &&& d.metrics.up_v4_bps == stats::capped(
                stats::total(
                    lists::numbers(
                        lists::picked(
                            rd.device_stats@,
                            |e: (DeviceTrafficKey, u64)|
                                e.0.ifindex == d.ifindex && e.0.mac@ == m && e.0.ip_version == 4
                                    && e.0.direction == 0,
                        ),
                        |e: (DeviceTrafficKey, u64)| collect::bit_rate(grew(e), elapsed_ms),
                    ),
                ),
            )
            &&& d.metrics.down_v4_bytes == stats::capped(
                stats::total(
                    lists::numbers(
                        lists::picked(
                            rd.device_stats@,
                            |e: (DeviceTrafficKey, u64)|
                                e.0.ifindex == d.ifindex && e.0.mac@ == m && e.0.ip_version == 4
                                    && e.0.direction == 1,
                        ),
                        grew,
                    ),
                ),
            )
            &&& d.metrics.down_v4_bps == stats::capped(
                stats::total(
                    lists::numbers(
                        lists::picked(
                            rd.device_stats@,
                            |e: (DeviceTrafficKey, u64)|
                                e.0.ifindex == d.ifindex && e.0.mac@ == m && e.0.ip_version == 4
                                    && e.0.direction == 1,
                        ),
                        |e: (DeviceTrafficKey, u64)| collect::bit_rate(grew(e), elapsed_ms),
                    ),
                ),
            )
            &&& d.metrics.up_v6_bytes == stats::capped(
                stats::total(
                    lists::numbers(
                        lists::picked(
                            rd.device_stats@,
                            |e: (DeviceTrafficKey, u64)|
                                e.0.ifindex == d.ifindex && e.0.mac@ == m && e.0.ip_version == 6
                                    && e.0.direction == 0,
                        ),
                        grew,
                    ),
                ),
            )
            &&& d.metrics.up_v6_bps == stats::capped(
                stats::total(
                    lists::numbers(
                        lists::picked(
                            rd.device_stats@,
                            |e: (DeviceTrafficKey, u64)|
                                e.0.ifindex == d.ifindex && e.0.mac@ == m && e.0.ip_version == 6
                                    && e.0.direction == 0,
                        ),
                        |e: (DeviceTrafficKey, u64)| collect::bit_rate(grew(e), elapsed_ms),
                    ),
                ),
            )
            &&& d.metrics.down_v6_bytes == stats::capped(
                stats::total(
                    lists::numbers(
                        lists::picked(
                            rd.device_stats@,
                            |e: (DeviceTrafficKey, u64)|
                                e.0.ifindex == d.ifindex && e.0.mac@ == m && e.0.ip_version == 6
                                    && e.0.direction == 1,
                        ),
                        grew,
                    ),
                ),
            )
            &&& d.metrics.down_v6_bps == stats::capped(
                stats::total(
                    lists::numbers(
                        lists::picked(
                            rd.device_stats@,
                            |e: (DeviceTrafficKey, u64)|
                                e.0.ifindex == d.ifindex && e.0.mac@ == m && e.0.ip_version == 6
                                    && e.0.direction == 1,
                        ),
                        |e: (DeviceTrafficKey, u64)| collect::bit_rate(grew(e), elapsed_ms),
                    ),
                ),
            )
        }),
{
    let x = collect::shown(r, names, rd, t, now_ms, elapsed_ms).devices[i];
    let id = (x.ifindex, m);
    lemma_online_place(r, names, rd, t, now_ms, elapsed_ms, i, m);
    let grew = |e: (DeviceTrafficKey, u64)|
        if table::has_key(r.prev_device_bytes, e.0@) && table::lookup_or(
            r.prev_device_bytes,
            e.0@,
            0,
        ) <= e.1 {
            (e.1 - table::lookup_or(r.prev_device_bytes, e.0@, 0)) as u64
        } else {
            e.1
        };
    assert(grown(r.prev_device_bytes) =~= grew);
    assert(rated(r.prev_device_bytes, elapsed_ms) =~= (|e: (DeviceTrafficKey, u64)|
        collect::bit_rate(grew(e), elapsed_ms)));
    assert(mine(id, 4, 0) =~= (|e: (DeviceTrafficKey, u64)|
        e.0.ifindex == x.ifindex && e.0.mac@ == m && e.0.ip_version == 4 && e.0.direction == 0));
    assert(mine(id, 4, 1) =~= (|e: (DeviceTrafficKey, u64)|
        e.0.ifindex == x.ifindex && e.0.mac@ == m && e.0.ip_version == 4 && e.0.direction == 1));
    assert(mine(id, 6, 0) =~= (|e: (DeviceTrafficKey, u64)|
        e.0.ifindex == x.ifindex && e.0.mac@ == m && e.0.ip_version == 6 && e.0.direction == 0));
    assert(mine(id, 6, 1) =~= (|e: (DeviceTrafficKey, u64)|
        e.0.ifindex == x.ifindex && e.0.mac@ == m && e.0.ip_version == 6 && e.0.direction == 1));
}

/// The totals that a device which is there shows are those that it had with what it shows to have
/// grown by added, figure by figure, and are remembered.
pub proof fn lemma_device_totals_shown(
    r: RuntimeView,
    names: Seq<Seq<char>>,
    rd: Readings,
    t: Seq<IfaceInfo>,
    now_ms: u64,
    elapsed_ms: u64,
    i: int,
    m: Seq<u8>,
)
    requires
        each_once(rd.device_stats@),
        0 <= i < collect::shown(r, names, rd, t, now_ms, elapsed_ms).devices.len(),
        collect::shown(r, names, rd, t, now_ms, elapsed_ms).devices[i].online,
        collect::shown(r, names, rd, t, now_ms, elapsed_ms).devices[i].mac == mac::mac_text(m),
        m.len() == 6,
    ensures
        ({
            let d = collect::shown(r, names, rd, t, now_ms, elapsed_ms).devices[i];
            let had = table::lookup_or(
                r.cumulative_device,
                (d.ifindex, m),
                counters::zero_quad(),
            );
            &&& d.cumulative.up_v4_bps == stats::capped((had.up_v4_bps + d.metrics.up_v4_bps) as nat)
            &&& d.cumulative.down_v4_bps == stats::capped((had.down_v4_bps + d.metrics.down_v4_bps) as nat)
            &&& d.cumulative.up_v6_bps == stats::capped((had.up_v6_bps + d.metrics.up_v6_bps) as nat)
            &&& d.cumulative.down_v6_bps == stats::capped((had.down_v6_bps + d.metrics.down_v6_bps) as nat)
            &&& d.cumulative.up_v4_bytes == stats::capped((had.up_v4_bytes + d.metrics.up_v4_bytes) as nat)
            &&& d.cumulative.down_v4_bytes == stats::capped((had.down_v4_bytes + d.metrics.down_v4_bytes) as nat)
            &&& d.cumulative.up_v6_bytes == stats::capped((had.up_v6_bytes + d.metrics.up_v6_bytes) as nat)
            &&& d.cumulative.down_v6_bytes == stats::capped((had.down_v6_bytes + d.metrics.down_v6_bytes) as nat)
            &&& table::lookup(
                collect::remembered_after(r, names, rd, t, now_ms, elapsed_ms).cumulative_device,
                (d.ifindex, m),
            ) == Some(d.cumulative)
        }),
{
    let d = collect::shown(r, names, rd, t, now_ms, elapsed_ms).devices[i];
    let group = collect::group_of(r, names, rd, t, now_ms, elapsed_ms).1;
    lemma_online_place(r, names, rd, t, now_ms, elapsed_ms, i, m);
    collect::lemma_device_totals(r.cumulative_device, group, (d.ifindex, m));
}

spec fn of_iface(ifindex: u32, v: u8, d: u8) -> spec_fn((InterfaceTrafficKey, u64)) -> bool {
    |e: (InterfaceTrafficKey, u64)|
        e.0.ifindex == ifindex && e.0.ip_version == v && e.0.direction == d
}

spec fn iface_grown(prev: Seq<(InterfaceTrafficKey, u64)>) -> spec_fn(
    (InterfaceTrafficKey, u64),
) -> u64 {
    |e: (InterfaceTrafficKey, u64)| counters::growth(e.1, table::lookup_or(prev, e.0, 0))
}

spec fn iface_rated(prev: Seq<(InterfaceTrafficKey, u64)>, elapsed_ms: u64) -> spec_fn(
    (InterfaceTrafficKey, u64),
) -> u64 {
    |e: (InterfaceTrafficKey, u64)| collect::bit_rate(iface_grown(prev)(e), elapsed_ms)
}

spec fn iface_byte_sum(
    counted: Seq<(InterfaceTrafficKey, u64)>,
    prev: Seq<(InterfaceTrafficKey, u64)>,
    ifindex: u32,
    v: u8,
    d: u8,
) -> u64 {
    stats::capped(
        stats::total(
            lists::numbers(lists::picked(counted, of_iface(ifindex, v, d)), iface_grown(prev)),
        ),
    )
}

spec fn iface_rate_sum(
    counted: Seq<(InterfaceTrafficKey, u64)>,
    prev: Seq<(InterfaceTrafficKey, u64)>,
    ifindex: u32,
    v: u8,
    d: u8,
    elapsed_ms: u64,
) -> u64 {
    stats::capped(
        stats::total(
            lists::numbers(
                lists::picked(counted, of_iface(ifindex, v, d)),
                iface_rated(prev, elapsed_ms),
            ),
        ),
    )
}

spec fn iface_quad_read(
    counted: Seq<(InterfaceTrafficKey, u64)>,
    prev: Seq<(InterfaceTrafficKey, u64)>,
    ifindex: u32,
    elapsed_ms: u64,
) -> CounterQuad {
    CounterQuad {
        up_v4_bps: iface_rate_sum(counted, prev, ifindex, 4, 0, elapsed_ms),
        up_v4_bytes: iface_byte_sum(counted, prev, ifindex, 4, 0),
        down_v4_bps: iface_rate_sum(counted, prev, ifindex, 4, 1, elapsed_ms),
        down_v4_bytes: iface_byte_sum(counted, prev, ifindex, 4, 1),
        up_v6_bps: iface_rate_sum(counted, prev, ifindex, 6, 0, elapsed_ms),
        up_v6_bytes: iface_byte_sum(counted, prev, ifindex, 6, 0),
        down_v6_bps: iface_rate_sum(counted, prev, ifindex, 6, 1, elapsed_ms),
        down_v6_bytes: iface_byte_sum(counted, prev, ifindex, 6, 1),
    }
}

proof fn lemma_iface_sum_step(
    h: Seq<(InterfaceTrafficKey, u64)>,
    e: (InterfaceTrafficKey, u64),
    prev: Seq<(InterfaceTrafficKey, u64)>,
    ifindex: u32,
    v: u8,
    d: u8,
    elapsed_ms: u64,
)
    ensures
        iface_byte_sum(h.push(e), prev, ifindex, v, d) == (if of_iface(ifindex, v, d)(e) {
            stats::capped((iface_byte_sum(h, prev, ifindex, v, d) + iface_grown(prev)(e)) as nat)
        } else {
            iface_byte_sum(h, prev, ifindex, v, d)
        }),
        iface_rate_sum(h.push(e), prev, ifindex, v, d, elapsed_ms) == (if of_iface(ifindex, v, d)(e) {
            stats::capped(
                (iface_rate_sum(h, prev, ifindex, v, d, elapsed_ms) + iface_rated(
                    prev,
                    elapsed_ms,
                )(e)) as nat,
            )
        } else {
            iface_rate_sum(h, prev, ifindex, v, d, elapsed_ms)
        }),
{
    let s = lists::picked(h, of_iface(ifindex, v, d));
    lists::lemma_picked_push(h, e, of_iface(ifindex, v, d));
    let f = iface_grown(prev);
    let g = iface_rated(prev, elapsed_ms);
    assert(lists::numbers(s.push(e), f) =~= lists::numbers(s, f).push(f(e)));
    assert(lists::numbers(s.push(e), g) =~= lists::numbers(s, g).push(g(e)));
    stats::lemma_capped_step(lists::numbers(s, f), f(e));
    stats::lemma_capped_step(lists::numbers(s, g), g(e));
}

proof fn lemma_iface_quad_read_step(
    h: Seq<(InterfaceTrafficKey, u64)>,
    e: (InterfaceTrafficKey, u64),
    prev: Seq<(InterfaceTrafficKey, u64)>,
    ifindex: u32,
    elapsed_ms: u64,
)
    ensures
        iface_quad_read(h.push(e), prev, ifindex, elapsed_ms) == (if e.0.ifindex == ifindex {
            collect::filled(
                e.0.ip_version,
                e.0.direction,
                iface_quad_read(h, prev, ifindex, elapsed_ms),
                iface_grown(prev)(e),
                elapsed_ms,
            )
        } else {
            iface_quad_read(h, prev, ifindex, elapsed_ms)
        }),
{
    lemma_iface_sum_step(h, e, prev, ifindex, 4, 0, elapsed_ms);
    lemma_iface_sum_step(h, e, prev, ifindex, 4, 1, elapsed_ms);
    lemma_iface_sum_step(h, e, prev, ifindex, 6, 0, elapsed_ms);
    lemma_iface_sum_step(h, e, prev, ifindex, 6, 1, elapsed_ms);
}

proof fn lemma_iface_read(
    prev: Seq<(InterfaceTrafficKey, u64)>,
    counted: Seq<(InterfaceTrafficKey, u64)>,
    ifindex: u32,
    elapsed_ms: u64,
)
    requires
        table::distinct(counted),
    ensures
        collect::iface_read(prev, counted, ifindex, elapsed_ms).1 == iface_quad_read(
            counted,
            prev,
            ifindex,
            elapsed_ms,
        ),
    decreases counted.len(),
{
    if counted.len() > 0 {
        let h = counted.drop_last();
        let e = counted.last();
        lemma_iface_read(prev, h, ifindex, elapsed_ms);
        assert(h.push(e) =~= counted);
        lemma_iface_quad_read_step(h, e, prev, ifindex, elapsed_ms);
        collect::lemma_iface_read_lookup(prev, h, ifindex, elapsed_ms, e.0);
        if table::has_key(h, e.0) {
            let p = table::place_of(h, e.0);
            assert(table::is_place(h, e.0, p));
            assert(counted[p].0 != counted[counted.len() - 1].0);
        }
    } else {
        assert(iface_quad_read(counted, prev, ifindex, elapsed_ms) == counters::zero_quad());
    }
}

proof fn lemma_same_prev(
    a: Seq<(InterfaceTrafficKey, u64)>,
    b: Seq<(InterfaceTrafficKey, u64)>,
    counted: Seq<(InterfaceTrafficKey, u64)>,
    ifindex: u32,
    elapsed_ms: u64,
)
    requires
        forall|k: InterfaceTrafficKey|
            k.ifindex == ifindex ==> #[trigger] table::lookup(a, k) == table::lookup(b, k),
    ensures
        iface_quad_read(counted, a, ifindex, elapsed_ms) == iface_quad_read(
            counted,
            b,
            ifindex,
            elapsed_ms,
        ),
    decreases counted.len(),
{
    if counted.len() > 0 {
        let h = counted.drop_last();
        let e = counted.last();
        lemma_same_prev(a, b, h, ifindex, elapsed_ms);
        assert(h.push(e) =~= counted);
        lemma_iface_quad_read_step(h, e, a, ifindex, elapsed_ms);
        lemma_iface_quad_read_step(h, e, b, ifindex, elapsed_ms);
        if e.0.ifindex == ifindex {
            assert(table::lookup(a, e.0) == table::lookup(b, e.0));
        }
    }
}

/// What an interface that was not read before shows, and what was read of it stays until then.
proof fn lemma_ifaces_read(
    r: RuntimeView,
    names: Seq<Seq<char>>,
    rd: Readings,
    t: Seq<IfaceInfo>,
    elapsed_ms: u64,
    ifindex: u32,
)
    requires
        table::distinct(rd.iface_stats@),
    ensures
        ({
            let done = collect::ifaces_read(r, names, rd, t, elapsed_ms);
            &&& (forall|j: int| 0 <= j < done.items.len() ==> (#[trigger] done.items[j]).ifindex
                != ifindex) ==> {
                &&& forall|k: InterfaceTrafficKey|
                    k.ifindex == ifindex ==> #[trigger] table::lookup(done.prev, k) == table::lookup(
                        r.prev_iface_bytes,
                        k,
                    )
                &&& done.cumulative.get(ifindex) == r.cumulative_iface.get(ifindex)
            }
            &&& forall|i: int|
                0 <= i < done.items.len() && (#[trigger] done.items[i]).ifindex == ifindex && (
                forall|j: int| 0 <= j < i ==> (#[trigger] done.items[j]).ifindex != ifindex) ==> {
                    &&& done.items[i].metrics == iface_quad_read(
                        rd.iface_stats@,
                        r.prev_iface_bytes,
                        ifindex,
                        elapsed_ms,
                    )
                    &&& done.items[i].cumulative == counters::quad_sum(
                        counters::quad_under(r.cumulative_iface, ifindex),
                        done.items[i].metrics,
                    )
                }
            &&& forall|i: int|
                0 <= i < done.items.len() && (#[trigger] done.items[i]).ifindex == ifindex && (
                forall|j: int| i < j < done.items.len() ==> (#[trigger] done.items[j]).ifindex
                    != ifindex) ==> done.cumulative.get(ifindex) == Some(done.items[i].cumulative)
        }),
    decreases names.len(),
{
    if names.len() > 0 {
        let h = names.drop_last();
        lemma_ifaces_read(r, h, rd, t, elapsed_ms, ifindex);
        let rest = collect::ifaces_read(r, h, rd, t, elapsed_ms);
        let done = collect::ifaces_read(r, names, rd, t, elapsed_ms);
        if done.items.len() > rest.items.len() {
            let n = rest.items.len() as int;
            let here = done.items[n].ifindex;
            assert(done.items.drop_last() =~= rest.items);
            assert forall|k: InterfaceTrafficKey| here != ifindex && k.ifindex == ifindex implies
                #[trigger] table::lookup(done.prev, k) == table::lookup(rest.prev, k) by {
                collect::lemma_iface_read_lookup(
                    rest.prev,
                    rd.iface_stats@,
                    here,
                    elapsed_ms,
                    k,
                );
            }
            if forall|j: int| 0 <= j < done.items.len() ==> (#[trigger] done.items[j]).ifindex
                != ifindex {
                assert(done.items[n].ifindex != ifindex);
                assert forall|j: int| 0 <= j < rest.items.len() implies (
                #[trigger] rest.items[j]).ifindex != ifindex by {
                    assert(done.items[j].ifindex != ifindex);
                }
            }
            assert forall|i: int|
                0 <= i < done.items.len() && (#[trigger] done.items[i]).ifindex == ifindex && (
                forall|j: int| 0 <= j < i ==> (#[trigger] done.items[j]).ifindex
                    != ifindex) implies done.items[i].metrics == iface_quad_read(
                rd.iface_stats@,
                r.prev_iface_bytes,
                ifindex,
                elapsed_ms,
            ) && done.items[i].cumulative == counters::quad_sum(
                counters::quad_under(r.cumulative_iface, ifindex),
                done.items[i].metrics,
            ) by {
                if i < n {
                    assert(done.items[i] == rest.items[i]);
                    assert forall|j: int| 0 <= j < i implies (#[trigger] rest.items[j]).ifindex
                        != ifindex by {
                        assert(done.items[j].ifindex != ifindex);
                    }
                } else {
                    assert forall|j: int| 0 <= j < rest.items.len() implies (
                    #[trigger] rest.items[j]).ifindex != ifindex by {
                        assert(done.items[j].ifindex != ifindex);
                    }
                    lemma_iface_read(rest.prev, rd.iface_stats@, ifindex, elapsed_ms);
                    lemma_same_prev(
                        rest.prev,
                        r.prev_iface_bytes,
                        rd.iface_stats@,
                        ifindex,
                        elapsed_ms,
                    );
                    assert(rest.cumulative.get(ifindex) == r.cumulative_iface.get(ifindex));
                }
            }
            assert forall|i: int|
                0 <= i < done.items.len() && (#[trigger] done.items[i]).ifindex == ifindex && (
                forall|j: int| i < j < done.items.len() ==> (#[trigger] done.items[j]).ifindex
                    != ifindex) implies done.cumulative.get(ifindex) == Some(
                done.items[i].cumulative,
            ) by {
                if i < n {
                    assert(done.items[n].ifindex != ifindex);
                    assert(done.items[i] == rest.items[i]);
                    assert forall|j: int| i < j < rest.items.len() implies (
                    #[trigger] rest.items[j]).ifindex != ifindex by {
                        assert(done.items[j].ifindex != ifindex);
                    }
                }
            }
        }
    }
}

/// Each of the four byte figures that an interface shows is the sum of what exactly those of its
/// counters grew by that are marked with the family and the direction of the figure, and each rate is
/// the sum of the rates of that. Its totals are those that it had with that added, figure by figure.
/// This holds of an interface the first time that it is shown in a snapshot.
pub proof fn lemma_iface_figures(
    r: RuntimeView,
    names: Seq<Seq<char>>,
    rd: Readings,
    t: Seq<IfaceInfo>,
    now_ms: u64,
    elapsed_ms: u64,
    i: int,
)
    requires
        table::distinct(rd.iface_stats@),
        0 <= i < collect::shown(r, names, rd, t, now_ms, elapsed_ms).interfaces.len(),
        forall|j: int|
            0 <= j < i ==> (#[trigger] collect::shown(
                r,
                names,
                rd,
                t,
                now_ms,
                elapsed_ms,
            ).interfaces[j]).ifindex != collect::shown(
                r,
                names,
                rd,
                t,
                now_ms,
                elapsed_ms,
            ).interfaces[i].ifindex,
    ensures
        ({
            let x = collect::shown(r, names, rd, t, now_ms, elapsed_ms).interfaces[i];
            let grew = |e: (InterfaceTrafficKey, u64)|
                if table::has_key(r.prev_iface_bytes, e.0) && table::lookup_or(
                    r.prev_iface_bytes,
                    e.0,
                    0,
                ) <= e.1 {
                    (e.1 - table::lookup_or(r.prev_iface_bytes, e.0, 0)) as u64
                } else {
                    e.1
                };
            let had = if r.cumulative_iface.contains_key(x.ifindex) {
                r.cumulative_iface[x.ifindex]
            } else {
                counters::zero_quad()
            };
            &&& x.metrics.up_v4_bytes == stats::capped(
                stats::total(
                    lists::numbers(
                        lists::picked(
                            rd.iface_stats@,
                            |e: (InterfaceTrafficKey, u64)|
                                e.0.ifindex == x.ifindex && e.0.ip_version == 4 && e.0.direction
                                    == 0,
                        ),
                        grew,
                    ),
                ),
            )
            &&& x.metrics.up_v4_bps == stats::capped(
                stats::total(
                    lists::numbers(
                        lists::picked(
                            rd.iface_stats@,
                            |e: (InterfaceTrafficKey, u64)|
                                e.0.ifindex == x.ifindex && e.0.ip_version == 4 && e.0.direction
                                    == 0,
                        ),
                        |e: (InterfaceTrafficKey, u64)| collect::bit_rate(grew(e), elapsed_ms),
                    ),
                ),
            )
            &&& x.metrics.down_v4_bytes == stats::capped(
                stats::total(
                    lists::numbers(
                        lists::picked(
                            rd.iface_stats@,
                            |e: (InterfaceTrafficKey, u64)|
                                e.0.ifindex == x.ifindex && e.0.ip_version == 4 && e.0.direction
                                    == 1,
                        ),
                        grew,
                    ),
                ),
            )
            &&& x.metrics.down_v4_bps == stats::capped(
                stats::total(
                    lists::numbers(
                        lists::picked(
                            rd.iface_stats@,
                            |e: (InterfaceTrafficKey, u64)|
                                e.0.ifindex == x.ifindex && e.0.ip_version == 4 && e.0.direction
                                    == 1,
                        ),
                        |e: (InterfaceTrafficKey, u64)| collect::bit_rate(grew(e), elapsed_ms),
                    ),
                ),
            )
            &&& x.metrics.up_v6_bytes == stats::capped(
                stats::total(
                    lists::numbers(
                        lists::picked(
                            rd.iface_stats@,
                            |e: (InterfaceTrafficKey, u64)|
                                e.0.ifindex == x.ifindex && e.0.ip_version == 6 && e.0.direction
                                    == 0,
                        ),
                        grew,
                    ),
                ),
            )
            &&& x.metrics.up_v6_bps == stats::capped(
                stats::total(
                    lists::numbers(
                        lists::picked(
                            rd.iface_stats@,
                            |e: (InterfaceTrafficKey, u64)|
                                e.0.ifindex == x.ifindex && e.0.ip_version == 6 && e.0.direction
                                    == 0,
                        ),
                        |e: (InterfaceTrafficKey, u64)| collect::bit_rate(grew(e), elapsed_ms),
                    ),
                ),
            )
            &&& x.metrics.down_v6_bytes == stats::capped(
                stats::total(
                    lists::numbers(
                        lists::picked(
                            rd.iface_stats@,
                            |e: (InterfaceTrafficKey, u64)|
                                e.0.ifindex == x.ifindex && e.0.ip_version == 6 && e.0.direction
                                    == 1,
                        ),
                        grew,
                    ),
                ),
            )
            &&& x.metrics.down_v6_bps == stats::capped(
                stats::total(
                    lists::numbers(
                        lists::picked(
                            rd.iface_stats@,
                            |e: (InterfaceTrafficKey, u64)|
                                e.0.ifindex == x.ifindex && e.0.ip_version == 6 && e.0.direction
                                    == 1,
                        ),
                        |e: (InterfaceTrafficKey, u64)| collect::bit_rate(grew(e), elapsed_ms),
                    ),
                ),
            )
            &&& x.cumulative.up_v4_bps == stats::capped((had.up_v4_bps + x.metrics.up_v4_bps) as nat)
            &&& x.cumulative.down_v4_bps == stats::capped((had.down_v4_bps + x.metrics.down_v4_bps) as nat)
            &&& x.cumulative.up_v6_bps == stats::capped((had.up_v6_bps + x.metrics.up_v6_bps) as nat)
            &&& x.cumulative.down_v6_bps == stats::capped((had.down_v6_bps + x.metrics.down_v6_bps) as nat)
            &&& x.cumulative.up_v4_bytes == stats::capped((had.up_v4_bytes + x.metrics.up_v4_bytes) as nat)
            &&& x.cumulative.down_v4_bytes == stats::capped((had.down_v4_bytes + x.metrics.down_v4_bytes) as nat)
            &&& x.cumulative.up_v6_bytes == stats::capped((had.up_v6_bytes + x.metrics.up_v6_bytes) as nat)
            &&& x.cumulative.down_v6_bytes == stats::capped((had.down_v6_bytes + x.metrics.down_v6_bytes) as nat)
        }),
{
    let x = collect::shown(r, names, rd, t, now_ms, elapsed_ms).interfaces[i];
    lemma_ifaces_read(r, names, rd, t, elapsed_ms, x.ifindex);
    let grew = |e: (InterfaceTrafficKey, u64)|
        if table::has_key(r.prev_iface_bytes, e.0) && table::lookup_or(r.prev_iface_bytes, e.0, 0)
            <= e.1 {
            (e.1 - table::lookup_or(r.prev_iface_bytes, e.0, 0)) as u64
        } else {
            e.1
        };
    assert(iface_grown(r.prev_iface_bytes) =~= grew);
    assert(iface_rated(r.prev_iface_bytes, elapsed_ms) =~= (|e: (InterfaceTrafficKey, u64)|
        collect::bit_rate(grew(e), elapsed_ms)));
    assert(of_iface(x.ifindex, 4, 0) =~= (|e: (InterfaceTrafficKey, u64)|
        e.0.ifindex == x.ifindex && e.0.ip_version == 4 && e.0.direction == 0));
    assert(of_iface(x.ifindex, 4, 1) =~= (|e: (InterfaceTrafficKey, u64)|
        e.0.ifindex == x.ifindex && e.0.ip_version == 4 && e.0.direction == 1));
    assert(of_iface(x.ifindex, 6, 0) =~= (|e: (InterfaceTrafficKey, u64)|
        e.0.ifindex == x.ifindex && e.0.ip_version == 6 && e.0.direction == 0));
    assert(of_iface(x.ifindex, 6, 1) =~= (|e: (InterfaceTrafficKey, u64)|
        e.0.ifindex == x.ifindex && e.0.ip_version == 6 && e.0.direction == 1));
    assert(collect::ifaces_read(r, names, rd, t, elapsed_ms).items[i] == x);
}
} // verus!
