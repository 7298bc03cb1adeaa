//! Small operations on sequences.

use std::collections::HashMap;
use std::collections::VecDeque;

use vstd::prelude::*;

use crate::sorting;
use crate::sorting::Ranked;

verus! {

/// The elements that meet `p`, as they come.
pub open spec fn picked<T>(s: Seq<T>, p: spec_fn(T) -> bool) -> Seq<T>
    decreases s.len(),
{
    if s.len() == 0 {
        s
    } else if p(s.last()) {
        picked(s.drop_last(), p).push(s.last())
    } else {
        picked(s.drop_last(), p)
    }
}

/// One more element is picked exactly where it meets `p`.
pub proof fn lemma_picked_push<T>(s: Seq<T>, x: T, p: spec_fn(T) -> bool)
    ensures
        picked(s.push(x), p) == (if p(x) {
            picked(s, p).push(x)
        } else {
            picked(s, p)
        }),
{
    assert(s.push(x).drop_last() =~= s);
}

/// What is picked is an element that meets `p`.
pub proof fn lemma_picked_member<T>(s: Seq<T>, p: spec_fn(T) -> bool, i: int)
    requires
        0 <= i < picked(s, p).len(),
    ensures
        p(picked(s, p)[i]),
        s.contains(picked(s, p)[i]),
    decreases s.len(),
{
    let t = picked(s.drop_last(), p);
    let e = picked(s, p)[i];
    if i < t.len() {
        lemma_picked_member(s.drop_last(), p, i);
        let j = choose|j: int| 0 <= j < s.drop_last().len() && s.drop_last()[j] == e;
        assert(s[j] == e);
    } else {
        assert(s[s.len() - 1] == e);
    }
}

/// Every element that meets `p` is picked.
pub proof fn lemma_picked_complete<T>(s: Seq<T>, p: spec_fn(T) -> bool, i: int)
    requires
        0 <= i < s.len(),
        p(s[i]),
    ensures
        picked(s, p).contains(s[i]),
    decreases s.len(),
{
    let t = picked(s.drop_last(), p);
    if i < s.len() - 1 {
        lemma_picked_complete(s.drop_last(), p, i);
        let j = choose|j: int| 0 <= j < t.len() && t[j] == s[i];
        assert(picked(s, p)[j] == s[i]);
    } else {
        assert(picked(s, p)[t.len() as int] == s[i]);
    }
}

/// Where every element meets `p`, all are picked.
pub proof fn lemma_picked_all<T>(s: Seq<T>, p: spec_fn(T) -> bool)
    requires
        forall|i: int| 0 <= i < s.len() ==> p(#[trigger] s[i]),
    ensures
        picked(s, p) == s,
    decreases s.len(),
{
    if s.len() > 0 {
        let h = s.drop_last();
        assert forall|i: int| 0 <= i < h.len() implies p(#[trigger] h[i]) by {
            assert(p(s[i]));
        }
        lemma_picked_all(h, p);
        assert(p(s[s.len() - 1]));
        assert(h.push(s.last()) =~= s);
    }
}

/// Where no element meets `p`, none is picked.
pub proof fn lemma_picked_none<T>(s: Seq<T>, p: spec_fn(T) -> bool)
    requires
        forall|i: int| 0 <= i < s.len() ==> !p(#[trigger] s[i]),
    ensures
        picked(s, p) == Seq::<T>::empty(),
{
    if picked(s, p).len() > 0 {
        lemma_picked_member(s, p, 0);
        let i = choose|i: int| 0 <= i < s.len() && s[i] == picked(s, p)[0];
        assert(!p(s[i]));
    }
    assert(picked(s, p) =~= Seq::<T>::empty());
}

/// Where only one element meets `p`, it alone is picked.
pub proof fn lemma_picked_one<T>(s: Seq<T>, p: spec_fn(T) -> bool, i: int)
    requires
        0 <= i < s.len(),
        forall|j: int| 0 <= j < s.len() ==> (p(#[trigger] s[j]) <==> j == i),
    ensures
        picked(s, p) == seq![s[i]],
    decreases s.len(),
{
    let h = s.drop_last();
    assert forall|j: int| 0 <= j < h.len() implies (p(#[trigger] h[j]) <==> j == i) by {
        assert(p(s[j]) <==> j == i);
    }
    assert(p(s[s.len() - 1]) <==> s.len() - 1 == i);
    if i < h.len() {
        lemma_picked_one(h, p, i);
    } else {
        lemma_picked_none(h, p);
    }
    assert(picked(s, p) =~= seq![s[i]]);
}

/// From two series one after another, each gives what is picked of it.
pub proof fn lemma_picked_add<T>(s: Seq<T>, t: Seq<T>, p: spec_fn(T) -> bool)
    ensures
        picked(s + t, p) == picked(s, p) + picked(t, p),
    decreases t.len(),
{
    if t.len() > 0 {
        assert((s + t).drop_last() =~= s + t.drop_last());
        lemma_picked_add(s, t.drop_last(), p);
    } else {
        assert(s + t =~= s);
    }
    assert(picked(s + t, p) =~= picked(s, p) + picked(t, p));
}

/// An element is picked as often as it comes, where it meets `p`.
pub proof fn lemma_picked_count<T>(s: Seq<T>, p: spec_fn(T) -> bool, x: T)
    ensures
        picked(s, p).to_multiset().count(x) == (if p(x) {
            s.to_multiset().count(x)
        } else {
            0
        }),
    decreases s.len(),
{
    broadcast use vstd::multiset::group_multiset_axioms;

    if s.len() > 0 {
        let h = s.drop_last();
        lemma_picked_count(h, p, x);
        assert(h.push(s.last()) =~= s);
        h.to_multiset_ensures();
        picked(h, p).to_multiset_ensures();
    } else {
        s.to_multiset_ensures();
    }
}

/// From the same elements in another order, the same ones are picked.
pub proof fn lemma_picked_reordered<T>(s: Seq<T>, t: Seq<T>, p: spec_fn(T) -> bool)
    requires
        s.to_multiset() == t.to_multiset(),
    ensures
        picked(s, p).to_multiset() == picked(t, p).to_multiset(),
{
    broadcast use vstd::multiset::group_multiset_axioms;

    let a = picked(s, p).to_multiset();
    let b = picked(t, p).to_multiset();
    assert forall|x: T| a.count(x) == b.count(x) by {
        lemma_picked_count(s, p, x);
        lemma_picked_count(t, p, x);
    }
    assert(a =~= b);
}

proof fn lemma_picked_inserted<T: Ranked>(s: Seq<T::V>, x: T::V, p: spec_fn(T::V) -> bool)
    requires
        sorting::in_order::<T>(s),
    ensures
        picked(sorting::inserted::<T>(s, x), p) == (if p(x) {
            sorting::inserted::<T>(picked(s, p), x)
        } else {
            picked(s, p)
        }),
    decreases s.len(),
{
    if s.len() > 0 && T::rank(x, s.last()) < 0 {
        let h = s.drop_last();
        assert forall|i: int, j: int| 0 <= i < j < h.len() implies T::rank(
            #[trigger] h[i],
            #[trigger] h[j],
        ) <= 0 by {
            assert(T::rank(s[i], s[j]) <= 0);
        }
        lemma_picked_inserted::<T>(h, x, p);
        lemma_picked_push(sorting::inserted::<T>(h, x), s.last(), p);
        if p(s.last()) {
            assert(picked(s, p).drop_last() =~= picked(h, p));
        }
    } else {
        lemma_picked_push(s, x, p);
        let t = picked(s, p);
        if p(x) && t.len() > 0 && T::rank(x, t.last()) < 0 {
            lemma_picked_member(s, p, t.len() - 1);
            let n = choose|n: int| 0 <= n < s.len() && s[n] == t.last();
            if n < s.len() - 1 {
                assert(T::rank(s[n], s[s.len() - 1]) <= 0);
                T::law_chain(x, s[n], s.last());
            }
            assert(false);
        }
    }
}

/// It does not matter whether elements are picked before sorting or after.
pub proof fn lemma_picked_sorted<T: Ranked>(s: Seq<T::V>, p: spec_fn(T::V) -> bool)
    ensures
        sorting::sorted::<T>(picked(s, p)) == picked(sorting::sorted::<T>(s), p),
    decreases s.len(),
{
    if s.len() > 0 {
        let h = s.drop_last();
        lemma_picked_sorted::<T>(h, p);
        sorting::lemma_sorted::<T>(h);
        lemma_picked_inserted::<T>(sorting::sorted::<T>(h), s.last(), p);
        if p(s.last()) {
            assert(picked(s, p).drop_last() =~= picked(h, p));
        }
    }
}

/// What `g` makes of each element, one after another.
pub open spec fn flat<T, U>(s: Seq<T>, g: spec_fn(T) -> Seq<U>) -> Seq<U>
    decreases s.len(),
{
    if s.len() == 0 {
        Seq::empty()
    } else {
        flat(s.drop_last(), g) + g(s.last())
    }
}

proof fn lemma_flat_without<T, U>(s: Seq<T>, g: spec_fn(T) -> Seq<U>, i: int)
    requires
        0 <= i < s.len(),
    ensures
        flat(s, g).to_multiset() == flat(s.remove(i), g).to_multiset().add(g(s[i]).to_multiset()),
    decreases s.len(),
{
    broadcast use vstd::multiset::group_multiset_axioms;

    let h = s.drop_last();
    let t = s.remove(i);
    vstd::seq_lib::lemma_multiset_commutative(flat(h, g), g(s.last()));
    if i == s.len() - 1 {
        assert(t =~= h);
    } else {
        lemma_flat_without(h, g, i);
        assert(t.drop_last() =~= h.remove(i));
        assert(t.last() == s.last());
        vstd::seq_lib::lemma_multiset_commutative(flat(h.remove(i), g), g(s.last()));
        assert(flat(s, g).to_multiset() =~= flat(t, g).to_multiset().add(g(s[i]).to_multiset()));
    }
}

/// The same elements in another order give the same in another order.
pub proof fn lemma_flat_reordered<T, U>(s: Seq<T>, t: Seq<T>, g: spec_fn(T) -> Seq<U>)
    requires
        s.to_multiset() == t.to_multiset(),
    ensures
        flat(s, g).to_multiset() == flat(t, g).to_multiset(),
    decreases s.len(),
{
    broadcast use vstd::multiset::group_multiset_axioms;

    s.to_multiset_ensures();
    t.to_multiset_ensures();
    if s.len() > 0 {
        let n = s.len() - 1;
        assert(s.contains(s[n]));
        assert(t.to_multiset().count(s[n]) > 0);
        let j = choose|j: int| 0 <= j < t.len() && t[j] == s[n];
        assert(s.remove(n).to_multiset() =~= t.remove(j).to_multiset());
        lemma_flat_reordered(s.remove(n), t.remove(j), g);
        lemma_flat_without(s, g, n);
        lemma_flat_without(t, g, j);
    }
}

/// Whatever `g` makes of an element is among what it makes of all.
pub proof fn lemma_flat_complete<T, U>(s: Seq<T>, g: spec_fn(T) -> Seq<U>, i: int, x: U)
    requires
        0 <= i < s.len(),
        g(s[i]).contains(x),
    ensures
        flat(s, g).contains(x),
    decreases s.len(),
{
    let rest = flat(s.drop_last(), g);
    if i < s.len() - 1 {
        lemma_flat_complete(s.drop_last(), g, i, x);
        let n = choose|n: int| 0 <= n < rest.len() && rest[n] == x;
        assert(flat(s, g)[n] == x);
    } else {
        let made = g(s[i]);
        let n = choose|n: int| 0 <= n < made.len() && made[n] == x;
        assert(flat(s, g)[rest.len() + n] == x);
    }
}

/// What `g` makes of all elements it makes of one of them.
pub proof fn lemma_flat_member<T, U>(s: Seq<T>, g: spec_fn(T) -> Seq<U>, x: U) -> (i: int)
    requires
        flat(s, g).contains(x),
    ensures
        0 <= i < s.len(),
        g(s[i]).contains(x),
    decreases s.len(),
{
    let rest = flat(s.drop_last(), g);
    let n = choose|n: int| 0 <= n < flat(s, g).len() && flat(s, g)[n] == x;
    if n < rest.len() {
        assert(rest[n] == x);
        lemma_flat_member(s.drop_last(), g, x)
    } else {
        assert(g(s.last())[n - rest.len()] == x);
        s.len() - 1
    }
}

/// One number of each element.
pub open spec fn numbers<T>(s: Seq<T>, f: spec_fn(T) -> u64) -> Seq<u64> {
    Seq::new(s.len(), |i: int| f(s[i]))
}

/// The same elements in another order have the same numbers in another order.
pub proof fn lemma_numbers_reordered<T>(s: Seq<T>, t: Seq<T>, f: spec_fn(T) -> u64)
    requires
        s.to_multiset() == t.to_multiset(),
    ensures
        numbers(s, f).to_multiset() == numbers(t, f).to_multiset(),
{
    let g = |x: T| seq![f(x)];
    lemma_flat_reordered(s, t, g);
    lemma_numbers_flat(s, f);
    lemma_numbers_flat(t, f);
}

proof fn lemma_numbers_flat<T>(s: Seq<T>, f: spec_fn(T) -> u64)
    ensures
        flat(s, |x: T| seq![f(x)]) == numbers(s, f),
    decreases s.len(),
{
    if s.len() > 0 {
        lemma_numbers_flat(s.drop_last(), f);
    }
    assert(flat(s, |x: T| seq![f(x)]) =~= numbers(s, f));
}

/// The last `n` elements, or all where there are no more.
pub open spec fn kept_last<T>(s: Seq<T>, n: nat) -> Seq<T> {
    if s.len() > n {
        s.skip(s.len() - n)
    } else {
        s
    }
}

/// Drops elements from the front until no more than `n` are left.
pub fn trim_front<T>(q: &mut VecDeque<T>, n: usize)
    ensures
        final(q)@ == kept_last(old(q)@, n as nat),
{
    let ghost whole = q@;
    let ghost mut gone: int = 0;
    assert(whole.skip(0) =~= whole);
    while q.len() > n
        invariant
            0 <= gone <= whole.len(),
            q@ == whole.skip(gone),
            gone > 0 ==> q@.len() >= n,
        decreases q@.len(),
    {
        let _ = q.pop_front();
        proof {
            gone = gone + 1;
            assert(q@ =~= whole.skip(gone));
        }
    }
    assert(q@ =~= kept_last(whole, n as nat));
}

/// The numbers without repetition, each where it first came.
pub open spec fn numbers_seen(s: Seq<u64>) -> Seq<u64>
    decreases s.len(),
{
    if s.len() == 0 {
        s
    } else if s.drop_last().contains(s.last()) {
        numbers_seen(s.drop_last())
    } else {
        numbers_seen(s.drop_last()).push(s.last())
    }
}

/// Removing repetitions loses no number and invents none, and leaves none twice.
pub proof fn lemma_numbers_seen(s: Seq<u64>)
    ensures
        forall|x: u64| numbers_seen(s).contains(x) <==> s.contains(x),
        numbers_seen(s).no_duplicates(),
    decreases s.len(),
{
    if s.len() > 0 {
        let h = s.drop_last();
        let t = numbers_seen(h);
        let r = numbers_seen(s);
        lemma_numbers_seen(h);
        assert forall|x: u64| r.contains(x) <==> s.contains(x) by {
            if s.contains(x) {
                let i = choose|i: int| 0 <= i < s.len() && s[i] == x;
                if i < h.len() {
                    assert(h[i] == x);
                    assert(h.contains(x));
                    assert(t.contains(x));
                    let j = choose|j: int| 0 <= j < t.len() && t[j] == x;
                    assert(r[j] == x);
                } else if h.contains(x) {
                    assert(t.contains(x));
                } else {
                    assert(r[t.len() as int] == x);
                }
            }
            if r.contains(x) {
                let j = choose|j: int| 0 <= j < r.len() && r[j] == x;
                if j < t.len() {
                    assert(t[j] == x);
                    assert(h.contains(x));
                    let i = choose|i: int| 0 <= i < h.len() && h[i] == x;
                    assert(s[i] == x);
                } else {
                    assert(s[s.len() - 1] == x);
                }
            }
        }
        assert(r.no_duplicates()) by {
            if !h.contains(s.last()) {
                assert forall|i: int, j: int| 0 <= i < r.len() && 0 <= j < r.len() && i != j implies r[i]
                    != r[j] by {
                    if i < t.len() && j < t.len() {
                        assert(t[i] != t[j]);
                    } else if i < t.len() {
                        assert(t.contains(t[i]));
                    } else {
                        assert(t.contains(t[j]));
                    }
                }
            }
        }
    }
}

fn holds_number(v: &Vec<u64>, x: u64) -> (r: bool)
    ensures
        r == v@.contains(x),
{
    for i in 0..v.len()
        invariant
            forall|j: int| 0 <= j < i ==> v@[j] != x,
    {
        if v[i] == x {
            return true;
        }
    }
    false
}

/// The numbers in ascending order, each once.
pub open spec fn ascending_once(s: Seq<u64>) -> Seq<u64> {
    sorting::ascending(numbers_seen(s))
}

/// The numbers in ascending order, each once.
pub fn sort_once(v: &Vec<u64>) -> (r: Vec<u64>)
    ensures
        r@ == ascending_once(v@),
{
    let mut seen: Vec<u64> = Vec::new();
    assert(v@.take(0) =~= Seq::<u64>::empty());
    for i in 0..v.len()
        invariant
            seen@ == numbers_seen(v@.take(i as int)),
    {
        let ghost h = v@.take(i as int);
        assert(v@.take(i + 1).drop_last() =~= h);
        proof {
            lemma_numbers_seen(h);
        }
        if !holds_number(&seen, v[i]) {
            seen.push(v[i]);
        }
    }
    assert(v@.take(v@.len() as int) =~= v@);
    sorting::sort_numbers(&seen)
}

/// Each number follows a smaller one, and the numbers are those of the series.
pub proof fn lemma_ascending_once(s: Seq<u64>)
    ensures
        forall|i: int, j: int|
            0 <= i < j < ascending_once(s).len() ==> #[trigger] ascending_once(s)[i]
                < #[trigger] ascending_once(s)[j],
        forall|x: u64| ascending_once(s).contains(x) <==> s.contains(x),
{
    broadcast use vstd::multiset::group_multiset_axioms;
    broadcast use vstd::seq_lib::group_to_multiset_ensures;

    let n = numbers_seen(s);
    let r = ascending_once(s);
    lemma_numbers_seen(s);
    sorting::lemma_ascending(n);
    assert forall|x: u64| r.contains(x) <==> s.contains(x) by {
        assert(r.contains(x) <==> r.to_multiset().count(x) > 0);
        assert(n.contains(x) <==> n.to_multiset().count(x) > 0);
    }
    assert forall|i: int, j: int| 0 <= i < j < r.len() implies #[trigger] r[i] < #[trigger] r[j] by {
        if r[i] == r[j] {
            n.lemma_multiset_has_no_duplicates();
            assert(r.contains(r[i]));
            lemma_count_two(r, i, j);
            assert(n.to_multiset().count(r[i]) <= 1);
        }
    }
}

/// Series that hold the same numbers are the same in ascending order, each number once.
pub proof fn lemma_ascending_once_same(s: Seq<u64>, t: Seq<u64>)
    requires
        forall|x: u64| s.contains(x) <==> t.contains(x),
    ensures
        ascending_once(s) == ascending_once(t),
{
    broadcast use vstd::multiset::group_multiset_axioms;

    let a = numbers_seen(s);
    let b = numbers_seen(t);
    lemma_numbers_seen(s);
    lemma_numbers_seen(t);
    a.to_multiset_ensures();
    b.to_multiset_ensures();
    a.lemma_multiset_has_no_duplicates();
    b.lemma_multiset_has_no_duplicates();
    assert forall|x: u64| a.to_multiset().count(x) == b.to_multiset().count(x) by {
        assert(a.contains(x) <==> s.contains(x));
        assert(b.contains(x) <==> t.contains(x));
        assert(a.to_multiset().contains(x) <==> a.to_multiset().count(x) > 0);
        assert(b.to_multiset().contains(x) <==> b.to_multiset().count(x) > 0);
    }
    assert(a.to_multiset() =~= b.to_multiset());
    sorting::lemma_ascending(b);
    sorting::lemma_ascending_unique(a, sorting::ascending(b));
}

proof fn lemma_count_two(s: Seq<u64>, i: int, j: int)
    requires
        0 <= i < j < s.len(),
        s[i] == s[j],
    ensures
        s.to_multiset().count(s[i]) >= 2,
{
    broadcast use vstd::multiset::group_multiset_axioms;
    broadcast use vstd::seq_lib::group_to_multiset_ensures;

    let a = s.take(j);
    let b = s.skip(j);
    assert(a + b =~= s);
    vstd::seq_lib::lemma_multiset_commutative(a, b);
    assert(a[i] == s[i]);
    assert(a.contains(s[i]));
    assert(b[0] == s[j]);
    assert(b.contains(s[i]));
    assert(a.to_multiset().count(s[i]) >= 1);
    assert(b.to_multiset().count(s[i]) >= 1);
}

/// Whether a list holds the keys of a map, each once and in ascending order.
pub open spec fn lists_keys<V>(s: Seq<u32>, m: Map<u32, V>) -> bool {
    &&& forall|i: int, j: int| 0 <= i < j < s.len() ==> #[trigger] s[i] < #[trigger] s[j]
    &&& forall|k: u32| s.contains(k) <==> #[trigger] m.contains_key(k)
}

/// The keys of a map in ascending order.
pub fn ascending_keys<V>(m: &HashMap<u32, V>) -> (r: Vec<u32>)
    ensures
        lists_keys(r@, m@),
{
    broadcast use vstd::std_specs::hash::group_hash_axioms;

    let mut keys: Vec<u32> = Vec::new();
    let ghost all = vstd::std_specs::iter::IteratorSpec::remaining(&m.keys());
    for k in it: m.keys()
        invariant
            it.seq() == all,
            keys@ =~= all.unref().take(it.index() as int),
    {
        keys.push(*k);
    }
    let ghost given = keys@;
    assert(given =~= all.unref());
    assert(sorting::views(keys@) =~= keys@);
    let r = sorting::sort_ranked(keys);
    assert(sorting::views(r@) =~= r@);
    proof {
        sorting::lemma_sorted::<u32>(given);
        assert(given.no_duplicates()) by {
            assert forall|i: int, j: int| 0 <= i < given.len() && 0 <= j < given.len() && i != j implies
                given[i] != given[j] by {
                assert(all[i] != all[j]);
            }
        }
        assert forall|k: u32| r@.contains(k) <==> #[trigger] m@.contains_key(k) by {
            sorting::lemma_sorted_members::<u32>(given, k);
            assert(given.to_set().contains(k) <==> given.contains(k));
        }
        assert forall|i: int, j: int| 0 <= i < j < r@.len() implies #[trigger] r@[i]
            < #[trigger] r@[j] by {
            sorting::lemma_sorted_members::<u32>(given, r@[i]);
            assert(<u32 as Ranked>::rank(r@[i], r@[j]) <= 0);
            assert(r@[i] != r@[j]);
        }
    }
    r
}

/// The texts of a list.
pub open spec fn texts(v: Seq<String>) -> Seq<Seq<char>> {
    Seq::new(v.len(), |i: int| v[i]@)
}

/// A list with the same texts.
pub fn copy_texts(v: &Vec<String>) -> (r: Vec<String>)
    ensures
        texts(r@) == texts(v@),
{
    let mut r: Vec<String> = Vec::new();
    for i in 0..v.len()
        invariant
            texts(r@) =~= texts(v@).take(i as int),
    {
        let ghost before = texts(r@);
        r.push(v[i].clone());
        assert(texts(r@) =~= before.push(v@[i as int]@));
        assert(texts(v@).take(i + 1) =~= texts(v@).take(i as int).push(v@[i as int]@));
    }
    assert(texts(v@).take(v@.len() as int) =~= texts(v@));
    r
}

/// Whether a text is in a list.
pub fn holds_text(v: &Vec<String>, x: &str) -> (r: bool)
    ensures
        r == texts(v@).contains(x@),
{
    for i in 0..v.len()
        invariant
            forall|j: int| 0 <= j < i ==> texts(v@)[j] != x@,
    {
        assert(texts(v@)[i as int] == v@[i as int]@);
        if crate::text::same_text(v[i].as_str(), x) {
            return true;
        }
    }
    false
}

/// Where no two elements meet `p`, no more than one is picked.
pub proof fn lemma_at_most_one<T>(s: Seq<T>, p: spec_fn(T) -> bool)
    requires
        forall|i: int, j: int|
            0 <= i < j < s.len() && p(#[trigger] s[i]) ==> !p(#[trigger] s[j]),
    ensures
        picked(s, p).len() <= 1,
    decreases s.len(),
{
    if s.len() > 0 {
        let h = s.drop_last();
        assert forall|i: int, j: int| 0 <= i < j < h.len() && p(#[trigger] h[i]) implies !p(
            #[trigger] h[j],
        ) by {
            assert(p(s[i]));
            assert(!p(s[j]));
        }
        lemma_at_most_one(h, p);
        if p(s.last()) {
            assert forall|i: int| 0 <= i < h.len() implies !p(#[trigger] h[i]) by {
                if p(s[i]) {
                    assert(!p(s[s.len() - 1]));
                }
            }
            lemma_picked_none(h, p);
        }
    }
}

} // verus!
