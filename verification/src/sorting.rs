//! Stable sorting.

use vstd::prelude::*;

verus! {

/// What can be put in order. Values that stand equal may still differ.
pub trait Ranked: View + Sized {
    /// Negative where `a` stands before `b`, zero where neither goes first, positive otherwise.
    spec fn rank(a: Self::V, b: Self::V) -> int;

    /// The sign of the rank of `self` against `other`.
    fn ranked_against(&self, other: &Self) -> (r: i8)
        ensures
            r == Self::rank(self@, other@),
    ;

    /// Ranking the other way round changes the sign.
    proof fn law_flip(a: Self::V, b: Self::V)
        ensures
            Self::rank(a, b) == -Self::rank(b, a),
    ;

    /// Ranks chain, and one strict step makes the chain strict.
    proof fn law_chain(a: Self::V, b: Self::V, c: Self::V)
        requires
            Self::rank(a, b) <= 0,
            Self::rank(b, c) <= 0,
        ensures
            Self::rank(a, c) <= 0,
            Self::rank(a, b) < 0 || Self::rank(b, c) < 0 ==> Self::rank(a, c) < 0,
    ;
}

/// The views of a sequence of values.
pub open spec fn views<T: View>(s: Seq<T>) -> Seq<T::V> {
    Seq::new(s.len(), |i: int| s[i]@)
}

/// `s` with `x` behind everything that does not have to follow it.
pub open spec fn inserted<T: Ranked>(s: Seq<T::V>, x: T::V) -> Seq<T::V>
    decreases s.len(),
{
    if s.len() > 0 && T::rank(x, s.last()) < 0 {
        inserted::<T>(s.drop_last(), x).push(s.last())
    } else {
        s.push(x)
    }
}

/// The values in order, equal ones as they came.
pub open spec fn sorted<T: Ranked>(s: Seq<T::V>) -> Seq<T::V>
    decreases s.len(),
{
    if s.len() == 0 {
        s
    } else {
        inserted::<T>(sorted::<T>(s.drop_last()), s.last())
    }
}

/// Nothing stands behind what has to follow it.
pub open spec fn in_order<T: Ranked>(s: Seq<T::V>) -> bool {
    forall|i: int, j: int| 0 <= i < j < s.len() ==> T::rank(#[trigger] s[i], #[trigger] s[j]) <= 0
}

proof fn lemma_inserted<T: Ranked>(s: Seq<T::V>, x: T::V)
    requires
        in_order::<T>(s),
    ensures
        in_order::<T>(inserted::<T>(s, x)),
        inserted::<T>(s, x).to_multiset() == s.to_multiset().insert(x),
        forall|i: int|
            0 <= i < inserted::<T>(s, x).len() ==> #[trigger] inserted::<T>(s, x)[i] == x || s.contains(
                inserted::<T>(s, x)[i],
            ),
    decreases s.len(),
{
    broadcast use vstd::multiset::group_multiset_axioms;
    broadcast use vstd::seq_lib::group_to_multiset_ensures;

    let r = inserted::<T>(s, x);
    if s.len() > 0 && T::rank(x, s.last()) < 0 {
        let h = s.drop_last();
        assert forall|i: int, j: int| 0 <= i < j < h.len() implies T::rank(
            #[trigger] h[i],
            #[trigger] h[j],
        ) <= 0 by {
            assert(T::rank(s[i], s[j]) <= 0);
        }
        lemma_inserted::<T>(h, x);
        let t = inserted::<T>(h, x);
        assert(h.push(s.last()) =~= s);
        assert(r.to_multiset() =~= s.to_multiset().insert(x));
        assert forall|i: int| 0 <= i < r.len() implies #[trigger] r[i] == x || s.contains(r[i]) by {
            if i < t.len() {
                assert(t[i] == r[i]);
                if t[i] != x {
                    let n = choose|n: int| 0 <= n < h.len() && h[n] == t[i];
                    assert(s[n] == r[i]);
                }
            } else {
                assert(s[s.len() - 1] == r[i]);
            }
        }
        assert forall|i: int, j: int| 0 <= i < j < r.len() implies T::rank(
            #[trigger] r[i],
            #[trigger] r[j],
        ) <= 0 by {
            if j < t.len() {
                assert(T::rank(t[i], t[j]) <= 0);
            } else {
                assert(t[i] == r[i]);
                if t[i] != x {
                    let n = choose|n: int| 0 <= n < h.len() && h[n] == t[i];
                    assert(s[n] == r[i]);
                    assert(T::rank(s[n], s[s.len() - 1]) <= 0);
                }
            }
        }
    } else {
        assert forall|i: int| 0 <= i < r.len() implies #[trigger] r[i] == x || s.contains(r[i]) by {
            if i < s.len() {
                assert(s[i] == r[i]);
            }
        }
        assert forall|i: int, j: int| 0 <= i < j < r.len() implies T::rank(
            #[trigger] r[i],
            #[trigger] r[j],
        ) <= 0 by {
            if j < s.len() {
                assert(T::rank(s[i], s[j]) <= 0);
            } else {
                T::law_flip(x, s.last());
                if i < s.len() - 1 {
                    assert(T::rank(s[i], s[s.len() - 1]) <= 0);
                    T::law_chain(s[i], s.last(), x);
                }
            }
        }
    }
}

/// Sorting puts the values in order and neither drops nor adds any.
pub proof fn lemma_sorted<T: Ranked>(s: Seq<T::V>)
    ensures
        in_order::<T>(sorted::<T>(s)),
        sorted::<T>(s).to_multiset() == s.to_multiset(),
        sorted::<T>(s).len() == s.len(),
    decreases s.len(),
{
    broadcast use vstd::multiset::group_multiset_axioms;
    broadcast use vstd::seq_lib::group_to_multiset_ensures;

    if s.len() > 0 {
        lemma_sorted::<T>(s.drop_last());
        lemma_inserted::<T>(sorted::<T>(s.drop_last()), s.last());
        assert(s.drop_last().push(s.last()) =~= s);
    }
    assert(sorted::<T>(s).to_multiset().len() == s.to_multiset().len());
}

/// The values of `s` that stand equal to `x`, as they come.
pub open spec fn equals_of<T: Ranked>(s: Seq<T::V>, x: T::V) -> Seq<T::V>
    decreases s.len(),
{
    if s.len() == 0 {
        s
    } else if T::rank(s.last(), x) == 0 {
        equals_of::<T>(s.drop_last(), x).push(s.last())
    } else {
        equals_of::<T>(s.drop_last(), x)
    }
}

proof fn lemma_inserted_stable<T: Ranked>(s: Seq<T::V>, y: T::V, x: T::V)
    requires
        in_order::<T>(s),
    ensures
        equals_of::<T>(inserted::<T>(s, y), x) == equals_of::<T>(s.push(y), x),
    decreases s.len(),
{
    assert(s.push(y).drop_last() =~= s);
    if s.len() > 0 && T::rank(y, s.last()) < 0 {
        let h = s.drop_last();
        assert forall|i: int, j: int| 0 <= i < j < h.len() implies T::rank(
            #[trigger] h[i],
            #[trigger] h[j],
        ) <= 0 by {
            assert(T::rank(s[i], s[j]) <= 0);
        }
        lemma_inserted_stable::<T>(h, y, x);
        assert(h.push(y).drop_last() =~= h);
        assert(inserted::<T>(h, y).push(s.last()).drop_last() =~= inserted::<T>(h, y));
        assert(equals_of::<T>(h.push(y), x) == if T::rank(y, x) == 0 {
            equals_of::<T>(h, x).push(y)
        } else {
            equals_of::<T>(h, x)
        });
        assert(equals_of::<T>(s, x) == if T::rank(s.last(), x) == 0 {
            equals_of::<T>(h, x).push(s.last())
        } else {
            equals_of::<T>(h, x)
        });
        if T::rank(y, x) == 0 && T::rank(s.last(), x) == 0 {
            T::law_flip(s.last(), x);
            T::law_chain(y, x, s.last());
            T::law_flip(y, s.last());
            T::law_flip(x, y);
            T::law_chain(s.last(), x, y);
            assert(false);
        }
    }
}

/// Sorting keeps each value, and each as often as it came.
pub proof fn lemma_sorted_members<T: Ranked>(s: Seq<T::V>, x: T::V)
    ensures
        sorted::<T>(s).contains(x) <==> s.contains(x),
        s.no_duplicates() ==> sorted::<T>(s).no_duplicates(),
{
    broadcast use vstd::multiset::group_multiset_axioms;
    broadcast use vstd::seq_lib::group_to_multiset_ensures;

    let r = sorted::<T>(s);
    lemma_sorted::<T>(s);
    assert(r.contains(x) <==> r.to_multiset().count(x) > 0);
    assert(s.contains(x) <==> s.to_multiset().count(x) > 0);
    if s.no_duplicates() {
        s.lemma_multiset_has_no_duplicates();
        r.lemma_multiset_has_no_duplicates_conv();
    }
}

/// Sorting keeps values that stand equal in the order in which they came.
pub proof fn lemma_sorted_stable<T: Ranked>(s: Seq<T::V>, x: T::V)
    ensures
        equals_of::<T>(sorted::<T>(s), x) == equals_of::<T>(s, x),
    decreases s.len(),
{
    if s.len() > 0 {
        let h = s.drop_last();
        lemma_sorted::<T>(h);
        lemma_sorted_stable::<T>(h, x);
        lemma_inserted_stable::<T>(sorted::<T>(h), s.last(), x);
        assert(sorted::<T>(h).push(s.last()).drop_last() =~= sorted::<T>(h));
    }
}

/// What stands in order is left as it is by sorting.
pub proof fn lemma_sorted_already<T: Ranked>(s: Seq<T::V>)
    requires
        in_order::<T>(s),
    ensures
        sorted::<T>(s) == s,
    decreases s.len(),
{
    if s.len() > 0 {
        let h = s.drop_last();
        assert forall|i: int, j: int| 0 <= i < j < h.len() implies T::rank(
            #[trigger] h[i],
            #[trigger] h[j],
        ) <= 0 by {
            assert(T::rank(s[i], s[j]) <= 0);
        }
        lemma_sorted_already::<T>(h);
        if h.len() > 0 {
            assert(T::rank(s[h.len() - 1], s[s.len() - 1]) <= 0);
            T::law_flip(s.last(), h.last());
        }
        assert(h.push(s.last()) =~= s);
    }
}

/// Puts a value in its place among ordered ones.
pub fn insert_ranked<T: Ranked>(v: &mut Vec<T>, x: T)
    ensures
        views(final(v)@) == inserted::<T>(views(old(v)@), x@),
{
    let ghost whole = views(v@);
    let mut at: usize = v.len();
    assert(whole.take(at as int) =~= whole);
    assert(inserted::<T>(whole, x@) =~= inserted::<T>(whole.take(at as int), x@) + whole.skip(
        at as int,
    ));
    while at > 0
        invariant_except_break
            inserted::<T>(whole, x@) == inserted::<T>(whole.take(at as int), x@) + whole.skip(at as int),
        invariant
            at <= v.len(),
            whole == views(v@),
        ensures
            inserted::<T>(whole, x@) == whole.take(at as int).push(x@) + whole.skip(at as int),
        decreases at,
    {
        let ghost part = whole.take(at as int);
        assert(part.last() == v@[at - 1]@);
        if x.ranked_against(&v[at - 1]) >= 0 {
            break;
        }
        assert(part.drop_last() =~= whole.take(at - 1));
        assert(inserted::<T>(part, x@) + whole.skip(at as int) =~= inserted::<T>(
            whole.take(at - 1),
            x@,
        ) + whole.skip(at - 1));
        at = at - 1;
        if at == 0 {
            assert(whole.take(0) =~= Seq::<T::V>::empty());
        }
    }
    v.insert(at, x);
    assert(views(v@) =~= whole.take(at as int).push(x@) + whole.skip(at as int));
}

/// Sorts the values, equal ones staying as they came.
pub fn sort_ranked<T: Ranked>(v: Vec<T>) -> (r: Vec<T>)
    ensures
        views(r@) == sorted::<T>(views(v@)),
        r@.len() == v@.len(),
{
    let mut r: Vec<T> = Vec::new();
    let ghost whole = views(v@);
    let ghost given = v@;
    assert(views(r@) =~= Seq::<T::V>::empty());
    assert(whole.take(0) =~= Seq::<T::V>::empty());
    for x in it: v
        invariant
            it.seq() == given,
            whole == views(given),
            views(r@) == sorted::<T>(whole.take(it.index() as int)),
    {
        let ghost i = it.index() as int;
        assert(whole.take(i + 1).drop_last() =~= whole.take(i));
        assert(whole.take(i + 1).last() == x@);
        insert_ranked(&mut r, x);
    }
    assert(whole.take(whole.len() as int) =~= whole);
    proof {
        lemma_sorted::<T>(whole);
        assert(views(r@).len() == r@.len());
    }
    r
}

impl Ranked for u64 {
    open spec fn rank(a: u64, b: u64) -> int {
        if a < b {
            -1
        } else if a == b {
            0
        } else {
            1
        }
    }

    fn ranked_against(&self, other: &u64) -> (r: i8) {
        if *self < *other {
            -1
        } else if *self == *other {
            0
        } else {
            1
        }
    }

    proof fn law_flip(a: u64, b: u64) {
    }

    proof fn law_chain(a: u64, b: u64, c: u64) {
    }
}

impl Ranked for u32 {
    open spec fn rank(a: u32, b: u32) -> int {
        if a < b {
            -1
        } else if a == b {
            0
        } else {
            1
        }
    }

    fn ranked_against(&self, other: &u32) -> (r: i8) {
        if *self < *other {
            -1
        } else if *self == *other {
            0
        } else {
            1
        }
    }

    proof fn law_flip(a: u32, b: u32) {
    }

    proof fn law_chain(a: u32, b: u32, c: u32) {
    }
}

/// The numbers in ascending order.
pub open spec fn ascending(s: Seq<u64>) -> Seq<u64> {
    sorted::<u64>(s)
}

/// Every number is at most each one behind it.
pub open spec fn is_ascending(s: Seq<u64>) -> bool {
    forall|i: int, j: int| 0 <= i < j < s.len() ==> #[trigger] s[i] <= #[trigger] s[j]
}

/// The ascending order of some numbers is ascending and holds the same numbers.
pub proof fn lemma_ascending(s: Seq<u64>)
    ensures
        is_ascending(ascending(s)),
        ascending(s).to_multiset() == s.to_multiset(),
        ascending(s).len() == s.len(),
{
    lemma_sorted::<u64>(s);
    let t = ascending(s);
    assert forall|i: int, j: int| 0 <= i < j < t.len() implies #[trigger] t[i] <= #[trigger] t[j] by {
        assert(<u64 as Ranked>::rank(t[i], t[j]) <= 0);
    }
}

/// Ascending numbers are the ascending order of whatever holds the same numbers.
pub proof fn lemma_ascending_unique(s: Seq<u64>, t: Seq<u64>)
    requires
        is_ascending(t),
        t.to_multiset() == s.to_multiset(),
    ensures
        t == ascending(s),
{
    lemma_ascending(s);
    let leq = |x: u64, y: u64| x <= y;
    assert(vstd::relations::sorted_by(t, leq));
    assert(vstd::relations::sorted_by(ascending(s), leq));
    vstd::seq_lib::lemma_sorted_unique(t, ascending(s), leq);
}

fn merge(a: &Vec<u64>, b: &Vec<u64>) -> (r: Vec<u64>)
    requires
        is_ascending(a@),
        is_ascending(b@),
    ensures
        is_ascending(r@),
        r@.to_multiset() == a@.to_multiset().add(b@.to_multiset()),
{
    broadcast use vstd::multiset::group_multiset_axioms;
    broadcast use vstd::seq_lib::group_to_multiset_ensures;

    let mut r: Vec<u64> = Vec::new();
    let mut i: usize = 0;
    let mut j: usize = 0;
    assert(r@.to_multiset() =~= a@.take(0).to_multiset().add(b@.take(0).to_multiset()));
    while i < a.len() || j < b.len()
        invariant
            i <= a.len(),
            j <= b.len(),
            is_ascending(a@),
            is_ascending(b@),
            is_ascending(r@),
            r@.to_multiset() == a@.take(i as int).to_multiset().add(b@.take(j as int).to_multiset()),
            forall|n: int, m: int| 0 <= n < r.len() && i <= m < a.len() ==> #[trigger] r@[n] <= #[trigger] a@[m],
            forall|n: int, m: int| 0 <= n < r.len() && j <= m < b.len() ==> #[trigger] r@[n] <= #[trigger] b@[m],
        decreases a.len() - i + b.len() - j,
    {
        let ghost before = r@;
        if j >= b.len() || (i < a.len() && a[i] <= b[j]) {
            assert(a@.take(i + 1) =~= a@.take(i as int).push(a@[i as int]));
            r.push(a[i]);
            proof {
                before.to_multiset_ensures();
                a@.take(i as int).to_multiset_ensures();
            }
            assert(r@.to_multiset() =~= a@.take(i + 1).to_multiset().add(
                b@.take(j as int).to_multiset(),
            ));
            i = i + 1;
        } else {
            assert(b@.take(j + 1) =~= b@.take(j as int).push(b@[j as int]));
            r.push(b[j]);
            proof {
                before.to_multiset_ensures();
                b@.take(j as int).to_multiset_ensures();
            }
            assert(r@.to_multiset() =~= a@.take(i as int).to_multiset().add(
                b@.take(j + 1).to_multiset(),
            ));
            j = j + 1;
        }
    }
    assert(a@.take(i as int) =~= a@);
    assert(b@.take(j as int) =~= b@);
    r
}

fn sort_range(v: &[u64], from: usize, to: usize) -> (r: Vec<u64>)
    requires
        from <= to <= v.len(),
    ensures
        is_ascending(r@),
        r@.to_multiset() == v@.subrange(from as int, to as int).to_multiset(),
    decreases to - from,
{
    broadcast use vstd::seq_lib::group_to_multiset_ensures;

    if to - from <= 1 {
        let mut r: Vec<u64> = Vec::new();
        if from < to {
            r.push(v[from]);
        }
        assert(r@ =~= v@.subrange(from as int, to as int));
        r
    } else {
        let middle: usize = from + (to - from) / 2;
        let left = sort_range(v, from, middle);
        let right = sort_range(v, middle, to);
        proof {
            let x = v@.subrange(from as int, middle as int);
            let y = v@.subrange(middle as int, to as int);
            assert(x + y =~= v@.subrange(from as int, to as int));
            vstd::seq_lib::lemma_multiset_commutative(x, y);
        }
        merge(&left, &right)
    }
}

/// The numbers in ascending order.
pub fn sort_numbers(v: &[u64]) -> (r: Vec<u64>)
    ensures
        r@ == ascending(v@),
        r@.len() == v@.len(),
{
    let r = sort_range(v, 0, v.len());
    assert(v@.subrange(0, v@.len() as int) =~= v@);
    proof {
        lemma_ascending_unique(v@, r@);
        lemma_ascending(v@);
    }
    r
}

} // verus!
