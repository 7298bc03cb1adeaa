//! Counters of traffic and the hourly and daily sums of them.

use std::collections::HashMap;

use vstd::prelude::*;

use crate::stats;

verus! {

/// Rates and byte counts by IP family and direction.
#[derive(Debug, Clone, Copy, PartialEq, Eq)]
pub struct CounterQuad {
    pub up_v4_bps: u64,
    pub down_v4_bps: u64,
    pub up_v6_bps: u64,
    pub down_v6_bps: u64,
    pub up_v4_bytes: u64,
    pub down_v4_bytes: u64,
    pub up_v6_bytes: u64,
    pub down_v6_bytes: u64,
}

impl View for CounterQuad {
    type V = CounterQuad;

    open spec fn view(&self) -> CounterQuad {
        *self
    }
}

/// A quad with nothing counted.
pub open spec fn zero_quad() -> CounterQuad {
    CounterQuad {
        up_v4_bps: 0,
        down_v4_bps: 0,
        up_v6_bps: 0,
        down_v6_bps: 0,
        up_v4_bytes: 0,
        down_v4_bytes: 0,
        up_v6_bytes: 0,
        down_v6_bytes: 0,
    }
}

impl Default for CounterQuad {
    fn default() -> (r: CounterQuad)
        ensures
            r == zero_quad(),
    {
        CounterQuad {
            up_v4_bps: 0,
            down_v4_bps: 0,
            up_v6_bps: 0,
            down_v6_bps: 0,
            up_v4_bytes: 0,
            down_v4_bytes: 0,
            up_v6_bytes: 0,
            down_v6_bytes: 0,
        }
    }
}

/// The `up_v4_bps` of each quad.
pub open spec fn up_v4_bps_of(s: Seq<CounterQuad>) -> Seq<u64> {
    Seq::new(s.len(), |i: int| s[i].up_v4_bps)
}

/// The `down_v4_bps` of each quad.
pub open spec fn down_v4_bps_of(s: Seq<CounterQuad>) -> Seq<u64> {
    Seq::new(s.len(), |i: int| s[i].down_v4_bps)
}

/// The `up_v6_bps` of each quad.
pub open spec fn up_v6_bps_of(s: Seq<CounterQuad>) -> Seq<u64> {
    Seq::new(s.len(), |i: int| s[i].up_v6_bps)
}

/// The `down_v6_bps` of each quad.
pub open spec fn down_v6_bps_of(s: Seq<CounterQuad>) -> Seq<u64> {
    Seq::new(s.len(), |i: int| s[i].down_v6_bps)
}

/// The `up_v4_bytes` of each quad.
pub open spec fn up_v4_bytes_of(s: Seq<CounterQuad>) -> Seq<u64> {
    Seq::new(s.len(), |i: int| s[i].up_v4_bytes)
}

/// The `down_v4_bytes` of each quad.
pub open spec fn down_v4_bytes_of(s: Seq<CounterQuad>) -> Seq<u64> {
    Seq::new(s.len(), |i: int| s[i].down_v4_bytes)
}

/// The `up_v6_bytes` of each quad.
pub open spec fn up_v6_bytes_of(s: Seq<CounterQuad>) -> Seq<u64> {
    Seq::new(s.len(), |i: int| s[i].up_v6_bytes)
}

/// The `down_v6_bytes` of each quad.
pub open spec fn down_v6_bytes_of(s: Seq<CounterQuad>) -> Seq<u64> {
    Seq::new(s.len(), |i: int| s[i].down_v6_bytes)
}

/// The sum of some quads, field by field, each stopping at the largest number.
pub open spec fn quad_total(s: Seq<CounterQuad>) -> CounterQuad {
    CounterQuad {
        up_v4_bps: stats::capped(stats::total(up_v4_bps_of(s))),
        down_v4_bps: stats::capped(stats::total(down_v4_bps_of(s))),
        up_v6_bps: stats::capped(stats::total(up_v6_bps_of(s))),
        down_v6_bps: stats::capped(stats::total(down_v6_bps_of(s))),
        up_v4_bytes: stats::capped(stats::total(up_v4_bytes_of(s))),
        down_v4_bytes: stats::capped(stats::total(down_v4_bytes_of(s))),
        up_v6_bytes: stats::capped(stats::total(up_v6_bytes_of(s))),
        down_v6_bytes: stats::capped(stats::total(down_v6_bytes_of(s))),
    }
}

/// The sum of two quads, field by field, each stopping at the largest number.
pub open spec fn quad_sum(a: CounterQuad, b: CounterQuad) -> CounterQuad {
    CounterQuad {
        up_v4_bps: stats::capped((a.up_v4_bps + b.up_v4_bps) as nat),
        down_v4_bps: stats::capped((a.down_v4_bps + b.down_v4_bps) as nat),
        up_v6_bps: stats::capped((a.up_v6_bps + b.up_v6_bps) as nat),
        down_v6_bps: stats::capped((a.down_v6_bps + b.down_v6_bps) as nat),
        up_v4_bytes: stats::capped((a.up_v4_bytes + b.up_v4_bytes) as nat),
        down_v4_bytes: stats::capped((a.down_v4_bytes + b.down_v4_bytes) as nat),
        up_v6_bytes: stats::capped((a.up_v6_bytes + b.up_v6_bytes) as nat),
        down_v6_bytes: stats::capped((a.down_v6_bytes + b.down_v6_bytes) as nat),
    }
}

/// No quads add up to nothing.
pub proof fn lemma_quad_total_empty()
    ensures
        quad_total(Seq::empty()) == zero_quad(),
{
}

/// One more quad is added to the sum of those before it.
pub proof fn lemma_quad_total_push(s: Seq<CounterQuad>, q: CounterQuad)
    ensures
        quad_total(s.push(q)) == quad_sum(quad_total(s), q),
{
    assert(up_v4_bps_of(s.push(q)) =~= up_v4_bps_of(s).push(q.up_v4_bps));
    stats::lemma_capped_step(up_v4_bps_of(s), q.up_v4_bps);
    assert(down_v4_bps_of(s.push(q)) =~= down_v4_bps_of(s).push(q.down_v4_bps));
    stats::lemma_capped_step(down_v4_bps_of(s), q.down_v4_bps);
    assert(up_v6_bps_of(s.push(q)) =~= up_v6_bps_of(s).push(q.up_v6_bps));
    stats::lemma_capped_step(up_v6_bps_of(s), q.up_v6_bps);
    assert(down_v6_bps_of(s.push(q)) =~= down_v6_bps_of(s).push(q.down_v6_bps));
    stats::lemma_capped_step(down_v6_bps_of(s), q.down_v6_bps);
    assert(up_v4_bytes_of(s.push(q)) =~= up_v4_bytes_of(s).push(q.up_v4_bytes));
    stats::lemma_capped_step(up_v4_bytes_of(s), q.up_v4_bytes);
    assert(down_v4_bytes_of(s.push(q)) =~= down_v4_bytes_of(s).push(q.down_v4_bytes));
    stats::lemma_capped_step(down_v4_bytes_of(s), q.down_v4_bytes);
    assert(up_v6_bytes_of(s.push(q)) =~= up_v6_bytes_of(s).push(q.up_v6_bytes));
    stats::lemma_capped_step(up_v6_bytes_of(s), q.up_v6_bytes);
    assert(down_v6_bytes_of(s.push(q)) =~= down_v6_bytes_of(s).push(q.down_v6_bytes));
    stats::lemma_capped_step(down_v6_bytes_of(s), q.down_v6_bytes);
}

/// What stands under a key, or nothing counted where nothing does.
pub open spec fn quad_under(m: Map<u32, CounterQuad>, k: u32) -> CounterQuad {
    if m.contains_key(k) {
        m[k]
    } else {
        zero_quad()
    }
}

/// What stands under a key, or nothing counted where nothing does.
pub fn get_quad(m: &HashMap<u32, CounterQuad>, k: u32) -> (r: CounterQuad)
    ensures
        r == quad_under(m@, k),
{
    broadcast use vstd::std_specs::hash::group_hash_axioms;

    match m.get(&k) {
        Some(q) => *q,
        None => CounterQuad::default(),
    }
}

/// Adds `src` to `dst`.
pub fn add_quad(dst: &mut CounterQuad, src: &CounterQuad)
    ensures
        *final(dst) == quad_sum(*old(dst), *src),
{
    dst.up_v4_bps = stats::add_capped(dst.up_v4_bps, src.up_v4_bps);
    dst.down_v4_bps = stats::add_capped(dst.down_v4_bps, src.down_v4_bps);
    dst.up_v6_bps = stats::add_capped(dst.up_v6_bps, src.up_v6_bps);
    dst.down_v6_bps = stats::add_capped(dst.down_v6_bps, src.down_v6_bps);
    dst.up_v4_bytes = stats::add_capped(dst.up_v4_bytes, src.up_v4_bytes);
    dst.down_v4_bytes = stats::add_capped(dst.down_v4_bytes, src.down_v4_bytes);
    dst.up_v6_bytes = stats::add_capped(dst.up_v6_bytes, src.up_v6_bytes);
    dst.down_v6_bytes = stats::add_capped(dst.down_v6_bytes, src.down_v6_bytes);
}

/// What one series carried in one hour or one day.
#[derive(Debug, Clone, Copy, PartialEq, Eq)]
pub struct AggregatedBucket {
    pub start_ts_ms: u64,
    pub end_ts_ms: u64,
    pub up_v4_bytes: u64,
    pub down_v4_bytes: u64,
    pub up_v6_bytes: u64,
    pub down_v6_bytes: u64,
    pub up_v4_bps_avg: u64,
    pub up_v4_bps_max: u64,
    pub up_v4_bps_min: u64,
    pub up_v4_bps_p95: u64,
    pub down_v4_bps_avg: u64,
    pub down_v4_bps_max: u64,
    pub down_v4_bps_min: u64,
    pub down_v4_bps_p95: u64,
    pub up_v6_bps_avg: u64,
    pub up_v6_bps_max: u64,
    pub up_v6_bps_min: u64,
    pub up_v6_bps_p95: u64,
    pub down_v6_bps_avg: u64,
    pub down_v6_bps_max: u64,
    pub down_v6_bps_min: u64,
    pub down_v6_bps_p95: u64,
}

impl View for AggregatedBucket {
    type V = AggregatedBucket;

    open spec fn view(&self) -> AggregatedBucket {
        *self
    }
}

/// Which IP family a query is about.
#[derive(Debug, Clone, Copy, PartialEq, Eq, Structural)]
pub enum HistoryTrafficType {
    All,
    Ipv4,
    Ipv6,
}

/// Which direction a query is about.
#[derive(Debug, Clone, Copy, PartialEq, Eq, Structural)]
pub enum HistoryDirection {
    Both,
    Up,
    Down,
}

/// The width of the buckets that a query asks for.
#[derive(Debug, Clone, Copy, PartialEq, Eq, Structural)]
pub enum AggregateBucket {
    Hourly,
    Daily,
}

/// A bucket with everything about IPv6 set to zero.
pub open spec fn without_v6(b: AggregatedBucket) -> AggregatedBucket {
    AggregatedBucket {
        up_v6_bytes: 0,
        down_v6_bytes: 0,
        up_v6_bps_avg: 0,
        up_v6_bps_max: 0,
        up_v6_bps_min: 0,
        up_v6_bps_p95: 0,
        down_v6_bps_avg: 0,
        down_v6_bps_max: 0,
        down_v6_bps_min: 0,
        down_v6_bps_p95: 0,
        ..b
    }
}

/// A bucket with everything about IPv4 set to zero.
pub open spec fn without_v4(b: AggregatedBucket) -> AggregatedBucket {
    AggregatedBucket {
        up_v4_bytes: 0,
        down_v4_bytes: 0,
        up_v4_bps_avg: 0,
        up_v4_bps_max: 0,
        up_v4_bps_min: 0,
        up_v4_bps_p95: 0,
        down_v4_bps_avg: 0,
        down_v4_bps_max: 0,
        down_v4_bps_min: 0,
        down_v4_bps_p95: 0,
        ..b
    }
}

/// The part of a bucket that is about the IP family asked for; the rest is zero.
pub open spec fn of_type(b: AggregatedBucket, tt: HistoryTrafficType) -> AggregatedBucket {
    match tt {
        HistoryTrafficType::All => b,
        HistoryTrafficType::Ipv4 => without_v6(b),
        HistoryTrafficType::Ipv6 => without_v4(b),
    }
}

impl AggregatedBucket {
    /// Keeps what is about the IP family asked for and sets the rest to zero.
    pub fn with_traffic_type(self, tt: HistoryTrafficType) -> (r: Self)
        ensures
            r == of_type(self, tt),
    {
        let mut b = self;
        match tt {
            HistoryTrafficType::All => {},
            HistoryTrafficType::Ipv4 => {
                b.up_v6_bytes = 0;
                b.down_v6_bytes = 0;
                b.up_v6_bps_avg = 0;
                b.up_v6_bps_max = 0;
                b.up_v6_bps_min = 0;
                b.up_v6_bps_p95 = 0;
                b.down_v6_bps_avg = 0;
                b.down_v6_bps_max = 0;
                b.down_v6_bps_min = 0;
                b.down_v6_bps_p95 = 0;
            },
            HistoryTrafficType::Ipv6 => {
                b.up_v4_bytes = 0;
                b.down_v4_bytes = 0;
                b.up_v4_bps_avg = 0;
                b.up_v4_bps_max = 0;
                b.up_v4_bps_min = 0;
                b.up_v4_bps_p95 = 0;
                b.down_v4_bps_avg = 0;
                b.down_v4_bps_max = 0;
                b.down_v4_bps_min = 0;
                b.down_v4_bps_p95 = 0;
            },
        }
        b
    }
}

/// Filtering by IP family twice is the same as filtering once.
pub proof fn lemma_of_type_idempotent(b: AggregatedBucket, tt: HistoryTrafficType)
    ensures
        of_type(of_type(b, tt), tt) == of_type(b, tt),
{
}

/// Bytes of both families add up to the bytes of all traffic.
pub proof fn lemma_of_type_splits(b: AggregatedBucket)
    ensures
        of_type(b, HistoryTrafficType::Ipv4).up_v4_bytes + of_type(
            b,
            HistoryTrafficType::Ipv6,
        ).up_v6_bytes == b.up_v4_bytes + b.up_v6_bytes,
        of_type(b, HistoryTrafficType::Ipv4).down_v4_bytes + of_type(
            b,
            HistoryTrafficType::Ipv6,
        ).down_v6_bytes == b.down_v4_bytes + b.down_v6_bytes,
        of_type(b, HistoryTrafficType::Ipv4).up_v6_bytes == 0,
        of_type(b, HistoryTrafficType::Ipv4).down_v6_bytes == 0,
        of_type(b, HistoryTrafficType::Ipv6).up_v4_bytes == 0,
        of_type(b, HistoryTrafficType::Ipv6).down_v4_bytes == 0,
{
}

/// A bucket for a window in which nothing was counted.
pub open spec fn blank_bucket(start_ts_ms: u64, end_ts_ms: u64) -> AggregatedBucket {
    AggregatedBucket {
        start_ts_ms,
        end_ts_ms,
        up_v4_bytes: 0,
        down_v4_bytes: 0,
        up_v6_bytes: 0,
        down_v6_bytes: 0,
        up_v4_bps_avg: 0,
        up_v4_bps_max: 0,
        up_v4_bps_min: 0,
        up_v4_bps_p95: 0,
        down_v4_bps_avg: 0,
        down_v4_bps_max: 0,
        down_v4_bps_min: 0,
        down_v4_bps_p95: 0,
        up_v6_bps_avg: 0,
        up_v6_bps_max: 0,
        up_v6_bps_min: 0,
        up_v6_bps_p95: 0,
        down_v6_bps_avg: 0,
        down_v6_bps_max: 0,
        down_v6_bps_min: 0,
        down_v6_bps_p95: 0,
    }
}

/// A bucket for a window in which nothing was counted.
pub fn empty_bucket(start_ts_ms: u64, end_ts_ms: u64) -> (r: AggregatedBucket)
    ensures
        r == blank_bucket(start_ts_ms, end_ts_ms),
{
    AggregatedBucket {
        start_ts_ms,
        end_ts_ms,
        up_v4_bytes: 0,
        down_v4_bytes: 0,
        up_v6_bytes: 0,
        down_v6_bytes: 0,
        up_v4_bps_avg: 0,
        up_v4_bps_max: 0,
        up_v4_bps_min: 0,
        up_v4_bps_p95: 0,
        down_v4_bps_avg: 0,
        down_v4_bps_max: 0,
        down_v4_bps_min: 0,
        down_v4_bps_p95: 0,
        up_v6_bps_avg: 0,
        up_v6_bps_max: 0,
        up_v6_bps_min: 0,
        up_v6_bps_p95: 0,
        down_v6_bps_avg: 0,
        down_v6_bps_max: 0,
        down_v6_bps_min: 0,
        down_v6_bps_p95: 0,
    }
}

/// The sum of two buckets in the window of the first, every count and rate stopping at the largest
/// number.
pub open spec fn bucket_sum(a: AggregatedBucket, b: AggregatedBucket) -> AggregatedBucket {
    AggregatedBucket {
        start_ts_ms: a.start_ts_ms,
        end_ts_ms: a.end_ts_ms,
        up_v4_bytes: stats::capped((a.up_v4_bytes + b.up_v4_bytes) as nat),
        down_v4_bytes: stats::capped((a.down_v4_bytes + b.down_v4_bytes) as nat),
        up_v6_bytes: stats::capped((a.up_v6_bytes + b.up_v6_bytes) as nat),
        down_v6_bytes: stats::capped((a.down_v6_bytes + b.down_v6_bytes) as nat),
        up_v4_bps_avg: stats::capped((a.up_v4_bps_avg + b.up_v4_bps_avg) as nat),
        up_v4_bps_max: stats::capped((a.up_v4_bps_max + b.up_v4_bps_max) as nat),
        up_v4_bps_min: stats::capped((a.up_v4_bps_min + b.up_v4_bps_min) as nat),
        up_v4_bps_p95: stats::capped((a.up_v4_bps_p95 + b.up_v4_bps_p95) as nat),
        down_v4_bps_avg: stats::capped((a.down_v4_bps_avg + b.down_v4_bps_avg) as nat),
        down_v4_bps_max: stats::capped((a.down_v4_bps_max + b.down_v4_bps_max) as nat),
        down_v4_bps_min: stats::capped((a.down_v4_bps_min + b.down_v4_bps_min) as nat),
        down_v4_bps_p95: stats::capped((a.down_v4_bps_p95 + b.down_v4_bps_p95) as nat),
        up_v6_bps_avg: stats::capped((a.up_v6_bps_avg + b.up_v6_bps_avg) as nat),
        up_v6_bps_max: stats::capped((a.up_v6_bps_max + b.up_v6_bps_max) as nat),
        up_v6_bps_min: stats::capped((a.up_v6_bps_min + b.up_v6_bps_min) as nat),
        up_v6_bps_p95: stats::capped((a.up_v6_bps_p95 + b.up_v6_bps_p95) as nat),
        down_v6_bps_avg: stats::capped((a.down_v6_bps_avg + b.down_v6_bps_avg) as nat),
        down_v6_bps_max: stats::capped((a.down_v6_bps_max + b.down_v6_bps_max) as nat),
        down_v6_bps_min: stats::capped((a.down_v6_bps_min + b.down_v6_bps_min) as nat),
        down_v6_bps_p95: stats::capped((a.down_v6_bps_p95 + b.down_v6_bps_p95) as nat),
    }
}

/// Adds every count and rate of `src` to `dst`.
pub fn accumulate_bucket(dst: &mut AggregatedBucket, src: &AggregatedBucket)
    ensures
        *final(dst) == bucket_sum(*old(dst), *src),
{
    dst.up_v4_bytes = stats::add_capped(dst.up_v4_bytes, src.up_v4_bytes);
    dst.down_v4_bytes = stats::add_capped(dst.down_v4_bytes, src.down_v4_bytes);
    dst.up_v6_bytes = stats::add_capped(dst.up_v6_bytes, src.up_v6_bytes);
    dst.down_v6_bytes = stats::add_capped(dst.down_v6_bytes, src.down_v6_bytes);
    dst.up_v4_bps_avg = stats::add_capped(dst.up_v4_bps_avg, src.up_v4_bps_avg);
    dst.up_v4_bps_max = stats::add_capped(dst.up_v4_bps_max, src.up_v4_bps_max);
    dst.up_v4_bps_min = stats::add_capped(dst.up_v4_bps_min, src.up_v4_bps_min);
    dst.up_v4_bps_p95 = stats::add_capped(dst.up_v4_bps_p95, src.up_v4_bps_p95);
    dst.down_v4_bps_avg = stats::add_capped(dst.down_v4_bps_avg, src.down_v4_bps_avg);
    dst.down_v4_bps_max = stats::add_capped(dst.down_v4_bps_max, src.down_v4_bps_max);
    dst.down_v4_bps_min = stats::add_capped(dst.down_v4_bps_min, src.down_v4_bps_min);
    dst.down_v4_bps_p95 = stats::add_capped(dst.down_v4_bps_p95, src.down_v4_bps_p95);
    dst.up_v6_bps_avg = stats::add_capped(dst.up_v6_bps_avg, src.up_v6_bps_avg);
    dst.up_v6_bps_max = stats::add_capped(dst.up_v6_bps_max, src.up_v6_bps_max);
    dst.up_v6_bps_min = stats::add_capped(dst.up_v6_bps_min, src.up_v6_bps_min);
    dst.up_v6_bps_p95 = stats::add_capped(dst.up_v6_bps_p95, src.up_v6_bps_p95);
    dst.down_v6_bps_avg = stats::add_capped(dst.down_v6_bps_avg, src.down_v6_bps_avg);
    dst.down_v6_bps_max = stats::add_capped(dst.down_v6_bps_max, src.down_v6_bps_max);
    dst.down_v6_bps_min = stats::add_capped(dst.down_v6_bps_min, src.down_v6_bps_min);
    dst.down_v6_bps_p95 = stats::add_capped(dst.down_v6_bps_p95, src.down_v6_bps_p95);
}

/// A quad with the bytes of a bucket and no rates.
pub open spec fn bucket_bytes(b: AggregatedBucket) -> CounterQuad {
    CounterQuad {
        up_v4_bps: 0,
        down_v4_bps: 0,
        up_v6_bps: 0,
        down_v6_bps: 0,
        up_v4_bytes: b.up_v4_bytes,
        down_v4_bytes: b.down_v4_bytes,
        up_v6_bytes: b.up_v6_bytes,
        down_v6_bytes: b.down_v6_bytes,
    }
}

/// The bytes of each bucket.
pub open spec fn bytes_of(s: Seq<AggregatedBucket>) -> Seq<CounterQuad> {
    Seq::new(s.len(), |i: int| bucket_bytes(s[i]))
}

/// Adds the bytes of a bucket to a quad.
pub fn add_bucket_bytes(dst: &mut CounterQuad, bucket: &AggregatedBucket)
    ensures
        *final(dst) == quad_sum(*old(dst), bucket_bytes(*bucket)),
{
    dst.up_v4_bytes = stats::add_capped(dst.up_v4_bytes, bucket.up_v4_bytes);
    dst.down_v4_bytes = stats::add_capped(dst.down_v4_bytes, bucket.down_v4_bytes);
    dst.up_v6_bytes = stats::add_capped(dst.up_v6_bytes, bucket.up_v6_bytes);
    dst.down_v6_bytes = stats::add_capped(dst.down_v6_bytes, bucket.down_v6_bytes);
}

/// The bytes of all buckets, with no rates.
pub fn cumulative_from_buckets(buckets: &[AggregatedBucket]) -> (r: CounterQuad)
    ensures
        r == quad_total(bytes_of(buckets@)),
{
    let mut out = CounterQuad::default();
    proof {
        lemma_quad_total_empty();
        assert(bytes_of(buckets@.take(0)) =~= Seq::<CounterQuad>::empty());
    }
    for i in 0..buckets.len()
        invariant
            out == quad_total(bytes_of(buckets@.take(i as int))),
    {
        proof {
            lemma_quad_total_push(
                bytes_of(buckets@.take(i as int)),
                bucket_bytes(buckets@[i as int]),
            );
            assert(bytes_of(buckets@.take(i + 1)) =~= bytes_of(buckets@.take(i as int)).push(
                bucket_bytes(buckets@[i as int]),
            ));
        }
        add_bucket_bytes(&mut out, &buckets[i]);
    }
    assert(buckets@.take(buckets@.len() as int) =~= buckets@);
    out
}

/// The growth of a counter since it was last read; all of it where the counter began anew.
pub open spec fn growth(current: u64, previous: u64) -> u64 {
    if current >= previous {
        (current - previous) as u64
    } else {
        current
    }
}

/// The growth of a counter since it was last read; all of it where the counter began anew.
pub fn delta_bytes(current: u64, previous: u64) -> (r: u64)
    ensures
        r == growth(current, previous),
{
    if current >= previous {
        current - previous
    } else {
        current
    }
}

/// One sample of a series: what was counted since the sample before, and in all.
#[derive(Debug, Clone, Copy, PartialEq, Eq)]
pub struct HistoryPoint {
    pub ts_ms: u64,
    pub metrics: CounterQuad,
    pub cumulative: CounterQuad,
}

/// One sample of the hour that is not over, as it is kept across restarts.
#[derive(Debug, Clone, Copy, PartialEq, Eq)]
pub struct CurrentHourPointState {
    pub ts_ms: u64,
    pub metrics: CounterQuad,
}

/// What each sample counted since the one before.
pub open spec fn metrics_of(s: Seq<HistoryPoint>) -> Seq<CounterQuad> {
    Seq::new(s.len(), |i: int| s[i].metrics)
}

/// What each sample counted in all.
pub open spec fn cumulative_of(s: Seq<HistoryPoint>) -> Seq<CounterQuad> {
    Seq::new(s.len(), |i: int| s[i].cumulative)
}

/// The four `up_v4` rates of each bucket: mean, greatest, least and percentile.
pub open spec fn up_v4_rates(s: Seq<AggregatedBucket>) -> Seq<u64>
    decreases s.len(),
{
    if s.len() == 0 {
        Seq::empty()
    } else {
        let b = s.last();
        up_v4_rates(s.drop_last()) + seq![
            b.up_v4_bps_avg,
            b.up_v4_bps_max,
            b.up_v4_bps_min,
            b.up_v4_bps_p95,
        ]
    }
}

/// The four `down_v4` rates of each bucket: mean, greatest, least and percentile.
pub open spec fn down_v4_rates(s: Seq<AggregatedBucket>) -> Seq<u64>
    decreases s.len(),
{
    if s.len() == 0 {
        Seq::empty()
    } else {
        let b = s.last();
        down_v4_rates(s.drop_last()) + seq![
            b.down_v4_bps_avg,
            b.down_v4_bps_max,
            b.down_v4_bps_min,
            b.down_v4_bps_p95,
        ]
    }
}

/// The four `up_v6` rates of each bucket: mean, greatest, least and percentile.
pub open spec fn up_v6_rates(s: Seq<AggregatedBucket>) -> Seq<u64>
    decreases s.len(),
{
    if s.len() == 0 {
        Seq::empty()
    } else {
        let b = s.last();
        up_v6_rates(s.drop_last()) + seq![
            b.up_v6_bps_avg,
            b.up_v6_bps_max,
            b.up_v6_bps_min,
            b.up_v6_bps_p95,
        ]
    }
}

/// The four `down_v6` rates of each bucket: mean, greatest, least and percentile.
pub open spec fn down_v6_rates(s: Seq<AggregatedBucket>) -> Seq<u64>
    decreases s.len(),
{
    if s.len() == 0 {
        Seq::empty()
    } else {
        let b = s.last();
        down_v6_rates(s.drop_last()) + seq![
            b.down_v6_bps_avg,
            b.down_v6_bps_max,
            b.down_v6_bps_min,
            b.down_v6_bps_p95,
        ]
    }
}

/// The bucket for a window in which these bytes and these rates were counted.
pub open spec fn bucket_from(
    start_ts_ms: u64,
    end_ts_ms: u64,
    bytes: CounterQuad,
    up_v4: Seq<u64>,
    down_v4: Seq<u64>,
    up_v6: Seq<u64>,
    down_v6: Seq<u64>,
) -> AggregatedBucket {
    AggregatedBucket {
        start_ts_ms,
        end_ts_ms,
        up_v4_bytes: bytes.up_v4_bytes,
        down_v4_bytes: bytes.down_v4_bytes,
        up_v6_bytes: bytes.up_v6_bytes,
        down_v6_bytes: bytes.down_v6_bytes,
        up_v4_bps_avg: stats::rate_stats(up_v4).avg,
        up_v4_bps_max: stats::rate_stats(up_v4).max,
        up_v4_bps_min: stats::rate_stats(up_v4).min,
        up_v4_bps_p95: stats::rate_stats(up_v4).p95,
        down_v4_bps_avg: stats::rate_stats(down_v4).avg,
        down_v4_bps_max: stats::rate_stats(down_v4).max,
        down_v4_bps_min: stats::rate_stats(down_v4).min,
        down_v4_bps_p95: stats::rate_stats(down_v4).p95,
        up_v6_bps_avg: stats::rate_stats(up_v6).avg,
        up_v6_bps_max: stats::rate_stats(up_v6).max,
        up_v6_bps_min: stats::rate_stats(up_v6).min,
        up_v6_bps_p95: stats::rate_stats(up_v6).p95,
        down_v6_bps_avg: stats::rate_stats(down_v6).avg,
        down_v6_bps_max: stats::rate_stats(down_v6).max,
        down_v6_bps_min: stats::rate_stats(down_v6).min,
        down_v6_bps_p95: stats::rate_stats(down_v6).p95,
    }
}

/// The bucket for a window in which these samples were taken.
pub open spec fn points_bucket(
    start_ts_ms: u64,
    end_ts_ms: u64,
    points: Seq<HistoryPoint>,
) -> AggregatedBucket {
    let m = metrics_of(points);
    bucket_from(
        start_ts_ms,
        end_ts_ms,
        quad_total(m),
        up_v4_bps_of(m),
        down_v4_bps_of(m),
        up_v6_bps_of(m),
        down_v6_bps_of(m),
    )
}

/// The bucket for a window that these buckets fill.
pub open spec fn merged_bucket(
    start_ts_ms: u64,
    end_ts_ms: u64,
    parts: Seq<AggregatedBucket>,
) -> AggregatedBucket {
    bucket_from(
        start_ts_ms,
        end_ts_ms,
        quad_total(bytes_of(parts)),
        up_v4_rates(parts),
        down_v4_rates(parts),
        up_v6_rates(parts),
        down_v6_rates(parts),
    )
}

/// A bucket that is being filled.
#[derive(Debug)]
pub struct BucketAccum {
    pub start_ts_ms: u64,
    pub end_ts_ms: u64,
    pub up_v4_bytes: u64,
    pub down_v4_bytes: u64,
    pub up_v6_bytes: u64,
    pub down_v6_bytes: u64,
    pub up_v4_bps: Vec<u64>,
    pub down_v4_bps: Vec<u64>,
    pub up_v6_bps: Vec<u64>,
    pub down_v6_bps: Vec<u64>,
}

impl BucketAccum {
    /// The bucket that comes of what has been filled in.
    pub open spec fn bucket(&self) -> AggregatedBucket {
        bucket_from(
            self.start_ts_ms,
            self.end_ts_ms,
            self.bytes(),
            self.up_v4_bps@,
            self.down_v4_bps@,
            self.up_v6_bps@,
            self.down_v6_bps@,
        )
    }

    /// The bytes that have been filled in.
    pub open spec fn bytes(&self) -> CounterQuad {
        CounterQuad {
            up_v4_bytes: self.up_v4_bytes,
            down_v4_bytes: self.down_v4_bytes,
            up_v6_bytes: self.up_v6_bytes,
            down_v6_bytes: self.down_v6_bytes,
            ..zero_quad()
        }
    }

    /// Whether it is filled with these bytes and rates.
    pub open spec fn holds(
        &self,
        bytes: CounterQuad,
        up_v4: Seq<u64>,
        down_v4: Seq<u64>,
        up_v6: Seq<u64>,
        down_v6: Seq<u64>,
    ) -> bool {
        &&& self.up_v4_bytes == bytes.up_v4_bytes
        &&& self.down_v4_bytes == bytes.down_v4_bytes
        &&& self.up_v6_bytes == bytes.up_v6_bytes
        &&& self.down_v6_bytes == bytes.down_v6_bytes
        &&& self.up_v4_bps@ == up_v4
        &&& self.down_v4_bps@ == down_v4
        &&& self.up_v6_bps@ == up_v6
        &&& self.down_v6_bps@ == down_v6
    }

    /// An accumulator with nothing in it.
    pub fn new(start_ts_ms: u64, end_ts_ms: u64) -> (r: BucketAccum)
        ensures
            r.start_ts_ms == start_ts_ms,
            r.end_ts_ms == end_ts_ms,
            r.holds(zero_quad(), Seq::empty(), Seq::empty(), Seq::empty(), Seq::empty()),
    {
        BucketAccum {
            start_ts_ms,
            end_ts_ms,
            up_v4_bytes: 0,
            down_v4_bytes: 0,
            up_v6_bytes: 0,
            down_v6_bytes: 0,
            up_v4_bps: Vec::new(),
            down_v4_bps: Vec::new(),
            up_v6_bps: Vec::new(),
            down_v6_bps: Vec::new(),
        }
    }

    /// Adds what one sample counted.
    pub fn add_metrics(&mut self, m: &CounterQuad)
        ensures
            final(self).start_ts_ms == old(self).start_ts_ms,
            final(self).end_ts_ms == old(self).end_ts_ms,
            final(self).holds(
                quad_sum(old(self).bytes(), *m),
                old(self).up_v4_bps@.push(m.up_v4_bps),
                old(self).down_v4_bps@.push(m.down_v4_bps),
                old(self).up_v6_bps@.push(m.up_v6_bps),
                old(self).down_v6_bps@.push(m.down_v6_bps),
            ),
    {
        self.up_v4_bytes = stats::add_capped(self.up_v4_bytes, m.up_v4_bytes);
        self.down_v4_bytes = stats::add_capped(self.down_v4_bytes, m.down_v4_bytes);
        self.up_v6_bytes = stats::add_capped(self.up_v6_bytes, m.up_v6_bytes);
        self.down_v6_bytes = stats::add_capped(self.down_v6_bytes, m.down_v6_bytes);
        self.up_v4_bps.push(m.up_v4_bps);
        self.down_v4_bps.push(m.down_v4_bps);
        self.up_v6_bps.push(m.up_v6_bps);
        self.down_v6_bps.push(m.down_v6_bps);
    }

    /// Adds a bucket.
    pub fn add_bucket(&mut self, b: &AggregatedBucket)
        ensures
            final(self).start_ts_ms == old(self).start_ts_ms,
            final(self).end_ts_ms == old(self).end_ts_ms,
            final(self).holds(
                quad_sum(old(self).bytes(), bucket_bytes(*b)),
                old(self).up_v4_bps@ + seq![b.up_v4_bps_avg, b.up_v4_bps_max, b.up_v4_bps_min, b.up_v4_bps_p95],
                old(self).down_v4_bps@ + seq![b.down_v4_bps_avg, b.down_v4_bps_max, b.down_v4_bps_min, b.down_v4_bps_p95],
                old(self).up_v6_bps@ + seq![b.up_v6_bps_avg, b.up_v6_bps_max, b.up_v6_bps_min, b.up_v6_bps_p95],
                old(self).down_v6_bps@ + seq![b.down_v6_bps_avg, b.down_v6_bps_max, b.down_v6_bps_min, b.down_v6_bps_p95],
            ),
    {
        self.up_v4_bytes = stats::add_capped(self.up_v4_bytes, b.up_v4_bytes);
        self.down_v4_bytes = stats::add_capped(self.down_v4_bytes, b.down_v4_bytes);
        self.up_v6_bytes = stats::add_capped(self.up_v6_bytes, b.up_v6_bytes);
        self.down_v6_bytes = stats::add_capped(self.down_v6_bytes, b.down_v6_bytes);
        push_four(
            &mut self.up_v4_bps,
            b.up_v4_bps_avg,
            b.up_v4_bps_max,
            b.up_v4_bps_min,
            b.up_v4_bps_p95,
        );
        push_four(
            &mut self.down_v4_bps,
            b.down_v4_bps_avg,
            b.down_v4_bps_max,
            b.down_v4_bps_min,
            b.down_v4_bps_p95,
        );
        push_four(
            &mut self.up_v6_bps,
            b.up_v6_bps_avg,
            b.up_v6_bps_max,
            b.up_v6_bps_min,
            b.up_v6_bps_p95,
        );
        push_four(
            &mut self.down_v6_bps,
            b.down_v6_bps_avg,
            b.down_v6_bps_max,
            b.down_v6_bps_min,
            b.down_v6_bps_p95,
        );
    }
}

fn push_four(v: &mut Vec<u64>, a: u64, b: u64, c: u64, d: u64)
    ensures
        final(v)@ == old(v)@ + seq![a, b, c, d],
{
    let ghost before = v@;
    v.push(a);
    v.push(b);
    v.push(c);
    v.push(d);
    assert(v@ =~= before + seq![a, b, c, d]);
}

/// Closes a bucket that has been filled.
pub fn bucket_accum_to_aggregated(a: BucketAccum) -> (r: AggregatedBucket)
    ensures
        r == a.bucket(),
{
    let (up_v4_avg, up_v4_min, up_v4_max, up_v4_p95) = stats::bps_stats(&a.up_v4_bps);
    let (down_v4_avg, down_v4_min, down_v4_max, down_v4_p95) = stats::bps_stats(&a.down_v4_bps);
    let (up_v6_avg, up_v6_min, up_v6_max, up_v6_p95) = stats::bps_stats(&a.up_v6_bps);
    let (down_v6_avg, down_v6_min, down_v6_max, down_v6_p95) = stats::bps_stats(&a.down_v6_bps);
    AggregatedBucket {
        start_ts_ms: a.start_ts_ms,
        end_ts_ms: a.end_ts_ms,
        up_v4_bytes: a.up_v4_bytes,
        down_v4_bytes: a.down_v4_bytes,
        up_v6_bytes: a.up_v6_bytes,
        down_v6_bytes: a.down_v6_bytes,
        up_v4_bps_avg: up_v4_avg,
        up_v4_bps_max: up_v4_max,
        up_v4_bps_min: up_v4_min,
        up_v4_bps_p95: up_v4_p95,
        down_v4_bps_avg: down_v4_avg,
        down_v4_bps_max: down_v4_max,
        down_v4_bps_min: down_v4_min,
        down_v4_bps_p95: down_v4_p95,
        up_v6_bps_avg: up_v6_avg,
        up_v6_bps_max: up_v6_max,
        up_v6_bps_min: up_v6_min,
        up_v6_bps_p95: up_v6_p95,
        down_v6_bps_avg: down_v6_avg,
        down_v6_bps_max: down_v6_max,
        down_v6_bps_min: down_v6_min,
        down_v6_bps_p95: down_v6_p95,
    }
}

/// The bucket for a window in which these samples were taken.
pub fn points_to_bucket_within(
    start_ts_ms: u64,
    end_ts_ms: u64,
    points: &[HistoryPoint],
) -> (r: AggregatedBucket)
    ensures
        r == points_bucket(start_ts_ms, end_ts_ms, points@),
{
    let mut accum = BucketAccum::new(start_ts_ms, end_ts_ms);
    let ghost ms = metrics_of(points@);
    proof {
        lemma_quad_total_empty();
        assert(ms.take(0) =~= Seq::<CounterQuad>::empty());
        assert(up_v4_bps_of(ms.take(0)) =~= Seq::<u64>::empty());
        assert(down_v4_bps_of(ms.take(0)) =~= Seq::<u64>::empty());
        assert(up_v6_bps_of(ms.take(0)) =~= Seq::<u64>::empty());
        assert(down_v6_bps_of(ms.take(0)) =~= Seq::<u64>::empty());
    }
    for i in 0..points.len()
        invariant
            ms == metrics_of(points@),
            accum.start_ts_ms == start_ts_ms,
            accum.end_ts_ms == end_ts_ms,
            accum.holds(
                quad_total(ms.take(i as int)),
                up_v4_bps_of(ms.take(i as int)),
                down_v4_bps_of(ms.take(i as int)),
                up_v6_bps_of(ms.take(i as int)),
                down_v6_bps_of(ms.take(i as int)),
            ),
    {
        proof {
            let s = ms.take(i as int);
            assert(ms.take(i + 1) =~= s.push(ms[i as int]));
            lemma_quad_total_push(s, ms[i as int]);
            assert(up_v4_bps_of(s.push(ms[i as int])) =~= up_v4_bps_of(s).push(ms[i as int].up_v4_bps));
            assert(down_v4_bps_of(s.push(ms[i as int])) =~= down_v4_bps_of(s).push(ms[i as int].down_v4_bps));
            assert(up_v6_bps_of(s.push(ms[i as int])) =~= up_v6_bps_of(s).push(ms[i as int].up_v6_bps));
            assert(down_v6_bps_of(s.push(ms[i as int])) =~= down_v6_bps_of(s).push(ms[i as int].down_v6_bps));
        }
        accum.add_metrics(&points[i].metrics);
    }
    assert(ms.take(points@.len() as int) =~= ms);
    bucket_accum_to_aggregated(accum)
}

} // verus!
