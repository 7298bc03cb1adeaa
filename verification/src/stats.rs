//! Sums that stop at the largest number, and the statistics of a series of rates.

use vstd::prelude::*;

use crate::sorting;
use crate::sorting::Ranked;

verus! {

/// The sum of some numbers.
pub open spec fn total(s: Seq<u64>) -> nat
    decreases s.len(),
{
    if s.len() == 0 {
        0
    } else {
        total(s.drop_last()) + s.last() as nat
    }
}

/// A number, or the largest `u64` where it is larger still.
pub open spec fn capped(n: nat) -> u64 {
    if n > u64::MAX {
        u64::MAX
    } else {
        n as u64
    }
}

/// One more number adds to the sum.
pub proof fn lemma_total_push(s: Seq<u64>, x: u64)
    ensures
        total(s.push(x)) == total(s) + x,
{
    assert(s.push(x).drop_last() =~= s);
}

/// Capped sums can be carried on from number to number.
pub proof fn lemma_capped_step(s: Seq<u64>, x: u64)
    ensures
        capped(total(s.push(x))) == capped((capped(total(s)) + x) as nat),
{
    lemma_total_push(s, x);
}

/// The sum of the numbers of two series is the sum of both sums.
pub proof fn lemma_total_add(a: Seq<u64>, b: Seq<u64>)
    ensures
        total(a + b) == total(a) + total(b),
    decreases b.len(),
{
    if b.len() == 0 {
        assert(a + b =~= a);
    } else {
        assert((a + b).drop_last() =~= a + b.drop_last());
        lemma_total_add(a, b.drop_last());
    }
}

proof fn lemma_total_inserted(s: Seq<u64>, x: u64)
    ensures
        total(sorting::inserted::<u64>(s, x)) == total(s) + x,
    decreases s.len(),
{
    if s.len() > 0 && u64::rank(x, s.last()) < 0 {
        lemma_total_inserted(s.drop_last(), x);
        lemma_total_push(sorting::inserted::<u64>(s.drop_last(), x), s.last());
    } else {
        lemma_total_push(s, x);
    }
}

proof fn lemma_total_ascending(s: Seq<u64>)
    ensures
        total(sorting::ascending(s)) == total(s),
    decreases s.len(),
{
    if s.len() > 0 {
        lemma_total_ascending(s.drop_last());
        lemma_total_inserted(sorting::ascending(s.drop_last()), s.last());
    }
}

/// The sum of some numbers does not depend on their order.
pub proof fn lemma_total_reordered(s: Seq<u64>, t: Seq<u64>)
    requires
        s.to_multiset() == t.to_multiset(),
    ensures
        total(s) == total(t),
{
    lemma_total_ascending(s);
    lemma_total_ascending(t);
    sorting::lemma_ascending(t);
    sorting::lemma_ascending_unique(s, sorting::ascending(t));
}

/// The statistics of a series do not depend on its order.
pub proof fn lemma_rate_stats_reordered(s: Seq<u64>, t: Seq<u64>)
    requires
        s.to_multiset() == t.to_multiset(),
    ensures
        rate_stats(s) == rate_stats(t),
{
    lemma_total_reordered(s, t);
    s.to_multiset_ensures();
    t.to_multiset_ensures();
    sorting::lemma_ascending(t);
    sorting::lemma_ascending_unique(s, sorting::ascending(t));
}

proof fn lemma_total_bound(s: Seq<u64>)
    ensures
        total(s) <= s.len() * u64::MAX,
    decreases s.len(),
{
    if s.len() > 0 {
        lemma_total_bound(s.drop_last());
        assert((s.len() - 1) * u64::MAX + u64::MAX == s.len() * u64::MAX) by (nonlinear_arith);
    }
}

/// The mean of some numbers, rounded to the nearest whole number, halves upwards.
pub open spec fn rounded_mean(s: Seq<u64>) -> nat {
    rounded_ratio(total(s), s.len())
}

/// `a / b` rounded to the nearest whole number, halves upwards.
pub open spec fn rounded_ratio(a: nat, b: nat) -> nat {
    if 2 * (a % b) >= b {
        a / b + 1
    } else {
        a / b
    }
}

/// Mean, least, greatest and 95th percentile of a series of rates.
#[derive(Debug, Clone, Copy, PartialEq, Eq)]
pub struct RateStats {
    pub avg: u64,
    pub min: u64,
    pub max: u64,
    pub p95: u64,
}

/// The place of the 95th percentile among `n` numbers in ascending order.
pub open spec fn p95_place(n: nat) -> int {
    (n * 95 / 100) as int
}

/// The statistics of a series; all zero for an empty one.
pub open spec fn rate_stats(s: Seq<u64>) -> RateStats {
    if s.len() == 0 {
        RateStats { avg: 0, min: 0, max: 0, p95: 0 }
    } else {
        RateStats {
            avg: rounded_mean(s) as u64,
            min: sorting::ascending(s)[0],
            max: sorting::ascending(s)[s.len() - 1],
            p95: sorting::ascending(s)[p95_place(s.len())],
        }
    }
}

/// The sum of two numbers, or the largest one where it would be larger.
pub fn add_capped(a: u64, b: u64) -> (r: u64)
    ensures
        r == capped((a + b) as nat),
{
    a.saturating_add(b)
}

proof fn lemma_mean_fits(a: int, b: int)
    requires
        0 < b,
        0 <= a <= b * u64::MAX,
    ensures
        0 <= a / b <= u64::MAX,
        0 <= a % b < b,
        2 * (a % b) >= b ==> a / b < u64::MAX,
{
    assert(a == b * (a / b) + a % b && 0 <= a % b < b) by (nonlinear_arith)
        requires
            0 < b,
    ;
    let q = a / b;
    let r = a % b;
    let m = u64::MAX as int;
    assert(q <= m && (r > 0 ==> q < m)) by (nonlinear_arith)
        requires
            a == b * q + r,
            0 <= r < b,
            0 < b,
            a <= b * m,
    ;
    assert(q >= 0) by (nonlinear_arith)
        requires
            a == b * q + r,
            0 <= r < b,
            0 < b,
            0 <= a,
    ;
}

/// Mean, least, greatest and 95th percentile of a series of rates.
pub fn bps_stats(v: &[u64]) -> (r: (u64, u64, u64, u64))
    ensures
        r.0 == rate_stats(v@).avg,
        r.1 == rate_stats(v@).min,
        r.2 == rate_stats(v@).max,
        r.3 == rate_stats(v@).p95,
{
    let n: usize = v.len();
    if n == 0 {
        return (0, 0, 0, 0);
    }
    let in_order = sorting::sort_numbers(v);
    let mut sum: u128 = 0;
    assert(v@.take(0) =~= Seq::<u64>::empty());
    for i in 0..n
        invariant
            n == v@.len(),
            sum == total(v@.take(i as int)),
            sum <= i * u64::MAX,
    {
        assert(v@.take(i + 1) =~= v@.take(i as int).push(v@[i as int]));
        proof {
            lemma_total_push(v@.take(i as int), v@[i as int]);
            assert(i * u64::MAX + u64::MAX <= 0xffff_ffff_ffff_ffff * u64::MAX + u64::MAX)
                by (nonlinear_arith)
                requires
                    i <= 0xffff_ffff_ffff_ffff,
            ;
            assert((i + 1) * u64::MAX == i * u64::MAX + u64::MAX) by (nonlinear_arith);
        }
        sum = sum + v[i] as u128;
    }
    assert(v@.take(n as int) =~= v@);
    proof {
        lemma_mean_fits(sum as int, n as int);
    }
    let count: u128 = n as u128;
    let whole: u128 = sum / count;
    let rest: u128 = sum % count;
    let avg: u64 = if 2 * rest >= count {
        whole as u64 + 1
    } else {
        whole as u64
    };
    let place: usize = (count * 95 / 100) as usize;
    (avg, in_order[0], in_order[n - 1], in_order[place])
}

/// The least, the percentile and the greatest come in this order, and each is one of the series.
pub proof fn lemma_rate_stats_order(s: Seq<u64>)
    requires
        s.len() > 0,
    ensures
        rate_stats(s).min <= rate_stats(s).p95 <= rate_stats(s).max,
        s.contains(rate_stats(s).min),
        s.contains(rate_stats(s).p95),
        s.contains(rate_stats(s).max),
        forall|i: int| 0 <= i < s.len() ==> rate_stats(s).min <= #[trigger] s[i] <= rate_stats(s).max,
{
    broadcast use vstd::multiset::group_multiset_axioms;
    broadcast use vstd::seq_lib::group_to_multiset_ensures;

    sorting::lemma_ascending(s);
    let t = sorting::ascending(s);
    assert(t.contains(t[0]));
    assert(t.contains(t[s.len() - 1]));
    assert(t.contains(t[p95_place(s.len())]));
    assert(s.to_multiset().count(t[0]) > 0);
    assert(s.to_multiset().count(t[s.len() - 1]) > 0);
    assert(s.to_multiset().count(t[p95_place(s.len())]) > 0);
    assert forall|i: int| 0 <= i < s.len() implies rate_stats(s).min <= #[trigger] s[i]
        <= rate_stats(s).max by {
        assert(s.contains(s[i]));
        assert(t.to_multiset().count(s[i]) > 0);
        let j = choose|j: int| 0 <= j < t.len() && t[j] == s[i];
        assert(t[0] <= t[j] <= t[t.len() - 1]);
    }
}

/// The mean lies between the least and the greatest of the series.
pub proof fn lemma_rate_stats_mean(s: Seq<u64>)
    requires
        s.len() > 0,
    ensures
        rate_stats(s).min <= rate_stats(s).avg <= rate_stats(s).max,
{
    lemma_rate_stats_order(s);
    let lo = rate_stats(s).min;
    let hi = rate_stats(s).max;
    lemma_total_between(s, lo, hi);
    lemma_total_bound(s);
    let a = total(s) as int;
    let b = s.len() as int;
    lemma_mean_fits(a, b);
    let q = a / b;
    let r = a % b;
    assert(a == b * q + r && 0 <= r < b) by (nonlinear_arith)
        requires
            0 < b,
            q == a / b,
            r == a % b,
    ;
    assert(lo <= q && q <= hi && (r > 0 ==> q < hi)) by (nonlinear_arith)
        requires
            a == b * q + r,
            0 <= r < b,
            b * lo <= a <= b * hi,
    ;
}

/// The mean is the nearest whole number, the larger one of two that are equally near.
pub proof fn lemma_mean_rounded(s: Seq<u64>)
    requires
        s.len() > 0,
    ensures
        (2 * rate_stats(s).avg - 1) * s.len() <= 2 * total(s) < (2 * rate_stats(s).avg + 1)
            * s.len(),
{
    lemma_total_bound(s);
    let a = total(s) as int;
    let b = s.len() as int;
    lemma_mean_fits(a, b);
    let q = a / b;
    let r = a % b;
    assert(a == b * q + r && 0 <= r < b) by (nonlinear_arith)
        requires
            0 < b,
            q == a / b,
            r == a % b,
    ;
    let n: int = if 2 * r >= b {
        q + 1
    } else {
        q
    };
    assert((2 * n - 1) * b <= 2 * a < (2 * n + 1) * b) by (nonlinear_arith)
        requires
            a == b * q + r,
            0 <= r < b,
            n == (if 2 * r >= b {
                q + 1
            } else {
                q
            }),
    ;
    assert(rate_stats(s).avg == n);
}

proof fn lemma_total_between(s: Seq<u64>, lo: u64, hi: u64)
    requires
        forall|i: int| 0 <= i < s.len() ==> lo <= #[trigger] s[i] <= hi,
    ensures
        s.len() * lo <= total(s) <= s.len() * hi,
    decreases s.len(),
{
    if s.len() > 0 {
        let h = s.drop_last();
        assert forall|i: int| 0 <= i < h.len() implies lo <= #[trigger] h[i] <= hi by {
            assert(lo <= s[i] <= hi);
        }
        lemma_total_between(h, lo, hi);
        assert(lo <= s[s.len() - 1] <= hi);
        assert((s.len() - 1) * lo + lo == s.len() * lo) by (nonlinear_arith);
        assert((s.len() - 1) * hi + hi == s.len() * hi) by (nonlinear_arith);
    }
}

} // verus!
