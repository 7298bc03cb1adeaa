//! Tables that keep their entries in the order in which the keys first came.

use vstd::prelude::*;

verus! {

/// Whether `i` is the first place at which the key stands.
pub open spec fn is_place<A, B>(s: Seq<(A, B)>, k: A, i: int) -> bool {
    &&& 0 <= i < s.len()
    &&& s[i].0 == k
    &&& forall|j: int| 0 <= j < i ==> (#[trigger] s[j]).0 != k
}

/// Whether an entry has the key.
pub open spec fn has_key<A, B>(s: Seq<(A, B)>, k: A) -> bool {
    exists|i: int| is_place(s, k, i)
}

/// The place of a key that the entries hold.
pub open spec fn place_of<A, B>(s: Seq<(A, B)>, k: A) -> int {
    choose|i: int| is_place(s, k, i)
}

/// The value under a key, if there is one.
pub open spec fn lookup<A, B>(s: Seq<(A, B)>, k: A) -> Option<B> {
    if has_key(s, k) {
        Some(s[place_of(s, k)].1)
    } else {
        None
    }
}

/// The value under a key, or `d` where there is none.
pub open spec fn lookup_or<A, B>(s: Seq<(A, B)>, k: A, d: B) -> B {
    match lookup(s, k) {
        Some(v) => v,
        None => d,
    }
}

/// The entries with `v` under the key: in its place, or at the end where the key is new.
pub open spec fn assigned<A, B>(s: Seq<(A, B)>, k: A, v: B) -> Seq<(A, B)> {
    if has_key(s, k) {
        s.update(place_of(s, k), (k, v))
    } else {
        s.push((k, v))
    }
}

/// No key stands twice.
pub open spec fn distinct<A, B>(s: Seq<(A, B)>) -> bool {
    forall|i: int, j: int| 0 <= i < j < s.len() ==> (#[trigger] s[i]).0 != (#[trigger] s[j]).0
}

/// Any entry with the key shows that the key has a place.
pub proof fn lemma_has_key<A, B>(s: Seq<(A, B)>, k: A, i: int)
    requires
        0 <= i < s.len(),
        s[i].0 == k,
    ensures
        has_key(s, k),
    decreases i,
{
    if exists|j: int| 0 <= j < i && (#[trigger] s[j]).0 == k {
        let j = choose|j: int| 0 <= j < i && (#[trigger] s[j]).0 == k;
        lemma_has_key(s, k, j);
    } else {
        assert(is_place(s, k, i));
    }
}

/// Setting a value leaves the keys distinct.
pub proof fn lemma_assigned_distinct<A, B>(s: Seq<(A, B)>, k: A, v: B)
    requires
        distinct(s),
    ensures
        distinct(assigned(s, k, v)),
{
    let t = assigned(s, k, v);
    if has_key(s, k) {
        assert(is_place(s, k, place_of(s, k)));
        assert forall|i: int, j: int| 0 <= i < j < t.len() implies (#[trigger] t[i]).0 != (
        #[trigger] t[j]).0 by {
            assert(s[i].0 != s[j].0);
        }
    } else {
        assert forall|i: int, j: int| 0 <= i < j < t.len() implies (#[trigger] t[i]).0 != (
        #[trigger] t[j]).0 by {
            if j < s.len() {
                assert(s[i].0 != s[j].0);
            } else if s[i].0 == k {
                lemma_has_key(s, k, i);
            }
        }
    }
}

/// What was set under a key is what is found there, and every other key keeps its value.
pub proof fn lemma_lookup_assigned<A, B>(s: Seq<(A, B)>, k: A, v: B, other: A)
    ensures
        lookup(assigned(s, k, v), other) == (if other == k {
            Some(v)
        } else {
            lookup(s, other)
        }),
{
    let t = assigned(s, k, v);
    let at = if has_key(s, k) {
        place_of(s, k)
    } else {
        s.len() as int
    };
    if has_key(s, k) {
        assert(is_place(s, k, at));
    }
    if other == k {
        assert forall|j: int| 0 <= j < at implies (#[trigger] t[j]).0 != k by {
            assert(t[j] == s[j]);
            if s[j].0 == k {
                lemma_has_key(s, k, j);
            }
        }
        assert(is_place(t, k, at));
        assert(is_place(t, k, place_of(t, k)));
    } else if has_key(s, other) {
        let p = place_of(s, other);
        assert(is_place(s, other, p));
        assert forall|j: int| 0 <= j < p implies (#[trigger] t[j]).0 != other by {
            assert(s[j].0 != other);
        }
        assert(is_place(t, other, p));
        assert(is_place(t, other, place_of(t, other)));
    } else if has_key(t, other) {
        let p = place_of(t, other);
        assert(is_place(t, other, p));
        assert(s[p].0 == other);
        lemma_has_key(s, other, p);
    }
}

/// Setting the same value again changes nothing more.
pub proof fn lemma_assigned_twice<A, B>(s: Seq<(A, B)>, k: A, v: B)
    ensures
        assigned(assigned(s, k, v), k, v) == assigned(s, k, v),
{
    let t = assigned(s, k, v);
    lemma_lookup_assigned(s, k, v, k);
    let p = place_of(t, k);
    assert(is_place(t, k, p));
    assert(t.update(p, (k, v)) =~= t);
}

/// Where no key stands twice, the last entry answers for its key and the others for the rest.
pub proof fn lemma_lookup_last<A, B>(s: Seq<(A, B)>, k: A)
    requires
        distinct(s),
        s.len() > 0,
    ensures
        distinct(s.drop_last()),
        lookup(s, k) == (if s.last().0 == k {
            Some(s.last().1)
        } else {
            lookup(s.drop_last(), k)
        }),
        s.last().0 == k ==> lookup(s.drop_last(), k) is None,
{
    let h = s.drop_last();
    assert forall|i: int, j: int| 0 <= i < j < h.len() implies (#[trigger] h[i]).0 != (
    #[trigger] h[j]).0 by {
        assert(s[i].0 != s[j].0);
    }
    if s.last().0 == k {
        let n = s.len() - 1;
        assert forall|j: int| 0 <= j < n implies (#[trigger] s[j]).0 != k by {
            assert(s[j].0 != s[n].0);
        }
        assert(is_place(s, k, n));
        assert(is_place(s, k, place_of(s, k)));
        if has_key(h, k) {
            let p = place_of(h, k);
            assert(is_place(h, k, p));
            assert(s[p].0 == k);
        }
    } else if has_key(h, k) {
        let p = place_of(h, k);
        assert(is_place(h, k, p));
        assert forall|j: int| 0 <= j < p implies (#[trigger] s[j]).0 != k by {
            assert(h[j].0 != k);
        }
        assert(is_place(s, k, p));
        assert(is_place(s, k, place_of(s, k)));
    } else if has_key(s, k) {
        let p = place_of(s, k);
        assert(is_place(s, k, p));
        assert(h[p].0 == k);
        lemma_has_key(h, k, p);
    }
}

/// The entries whose key does not meet `p`.
pub open spec fn without<A, B>(s: Seq<(A, B)>, p: spec_fn(A) -> bool) -> Seq<(A, B)>
    decreases s.len(),
{
    if s.len() == 0 {
        s
    } else if p(s.last().0) {
        without(s.drop_last(), p)
    } else {
        without(s.drop_last(), p).push(s.last())
    }
}

/// Whether the key of some entry meets `p`.
pub open spec fn some_key<A, B>(s: Seq<(A, B)>, p: spec_fn(A) -> bool) -> bool {
    exists|i: int| 0 <= i < s.len() && p((#[trigger] s[i]).0)
}

/// The first key that meets `p`.
pub open spec fn first_key<A, B>(s: Seq<(A, B)>, p: spec_fn(A) -> bool) -> Option<A>
    decreases s.len(),
{
    if s.len() == 0 {
        None
    } else if p(s[0].0) {
        Some(s[0].0)
    } else {
        first_key(s.drop_first(), p)
    }
}

/// The first key that meets `p` is a key that does; where there is none, no key does.
pub proof fn lemma_first_key<A, B>(s: Seq<(A, B)>, p: spec_fn(A) -> bool)
    ensures
        match first_key(s, p) {
            Some(k) => p(k) && exists|i: int| 0 <= i < s.len() && (#[trigger] s[i]).0 == k,
            None => forall|i: int| 0 <= i < s.len() ==> !p((#[trigger] s[i]).0),
        },
    decreases s.len(),
{
    if s.len() > 0 {
        let r = s.drop_first();
        lemma_first_key(r, p);
        if p(s[0].0) {
            assert(s[0].0 == s[0].0);
        } else {
            match first_key(r, p) {
                Some(k) => {
                    let i = choose|i: int| 0 <= i < r.len() && (#[trigger] r[i]).0 == k;
                    assert(s[i + 1].0 == k);
                },
                None => {
                    assert forall|i: int| 0 <= i < s.len() implies !p((#[trigger] s[i]).0) by {
                        if i > 0 {
                            assert(!p(r[i - 1].0));
                        }
                    }
                },
            }
        }
    }
}

/// What is left holds entries of the whole only, and none whose key meets `p`.
pub proof fn lemma_without_member<A, B>(s: Seq<(A, B)>, p: spec_fn(A) -> bool, i: int)
    requires
        0 <= i < without(s, p).len(),
    ensures
        !p(without(s, p)[i].0),
        s.contains(without(s, p)[i]),
    decreases s.len(),
{
    let t = without(s.drop_last(), p);
    let e = without(s, p)[i];
    if i < t.len() {
        lemma_without_member(s.drop_last(), p, i);
        let j = choose|j: int| 0 <= j < s.drop_last().len() && s.drop_last()[j] == e;
        assert(s[j] == e);
    } else {
        assert(s[s.len() - 1] == e);
    }
}

/// Every entry whose key does not meet `p` is kept.
pub proof fn lemma_without_keeps<A, B>(s: Seq<(A, B)>, p: spec_fn(A) -> bool, i: int)
    requires
        0 <= i < s.len(),
        !p(s[i].0),
    ensures
        without(s, p).contains(s[i]),
    decreases s.len(),
{
    let t = without(s.drop_last(), p);
    if i < s.len() - 1 {
        lemma_without_keeps(s.drop_last(), p, i);
        let j = choose|j: int| 0 <= j < t.len() && t[j] == s[i];
        assert(without(s, p)[j] == s[i]);
    } else {
        assert(without(s, p)[t.len() as int] == s[i]);
    }
}

/// Leaving entries out keeps the keys distinct.
pub proof fn lemma_without_distinct<A, B>(s: Seq<(A, B)>, p: spec_fn(A) -> bool)
    requires
        distinct(s),
    ensures
        distinct(without(s, p)),
    decreases s.len(),
{
    if s.len() > 0 {
        let h = s.drop_last();
        assert forall|i: int, j: int| 0 <= i < j < h.len() implies (#[trigger] h[i]).0 != (
        #[trigger] h[j]).0 by {
            assert(s[i].0 != s[j].0);
        }
        lemma_without_distinct(h, p);
        let t = without(h, p);
        let w = without(s, p);
        assert forall|i: int, j: int| 0 <= i < j < w.len() implies (#[trigger] w[i]).0 != (
        #[trigger] w[j]).0 by {
            if j < t.len() {
                assert(t[i].0 != t[j].0);
            } else {
                lemma_without_member(h, p, i);
                let n = choose|n: int| 0 <= n < h.len() && h[n] == t[i];
                assert(s[n].0 != s[s.len() - 1].0);
            }
        }
    }
}

/// Entries are left out exactly where the number of entries shrinks.
pub proof fn lemma_without_len<A, B>(s: Seq<(A, B)>, p: spec_fn(A) -> bool)
    ensures
        without(s, p).len() <= s.len(),
        some_key(s, p) <==> without(s, p).len() != s.len(),
        !some_key(s, p) ==> without(s, p) == s,
    decreases s.len(),
{
    if s.len() > 0 {
        let h = s.drop_last();
        lemma_without_len(h, p);
        assert(some_key(s, p) <==> some_key(h, p) || p(s.last().0)) by {
            if some_key(h, p) {
                let i = choose|i: int| 0 <= i < h.len() && p((#[trigger] h[i]).0);
                assert(p(s[i].0));
            }
            if some_key(s, p) {
                let i = choose|i: int| 0 <= i < s.len() && p((#[trigger] s[i]).0);
                if i < h.len() {
                    assert(p(h[i].0));
                }
            }
            if p(s.last().0) {
                assert(p(s[s.len() - 1].0));
            }
        }
        if !some_key(s, p) {
            assert(h.push(s.last()) =~= s);
        }
    }
}

/// Leaving entries out does not change what is found under the other keys.
pub proof fn lemma_lookup_without<A, B>(s: Seq<(A, B)>, p: spec_fn(A) -> bool, k: A)
    requires
        distinct(s),
        !p(k),
    ensures
        lookup(without(s, p), k) == lookup(s, k),
    decreases s.len(),
{
    if s.len() > 0 {
        lemma_lookup_last(s, k);
        lemma_lookup_without(s.drop_last(), p, k);
        if !p(s.last().0) {
            lemma_without_distinct(s, p);
            let t = without(s, p);
            assert(t.drop_last() =~= without(s.drop_last(), p));
            lemma_lookup_last(t, k);
        }
    }
}

/// A key that a table can be searched by.
pub trait TableKey: View + Sized {
    /// Whether two keys are the same.
    fn same(&self, other: &Self) -> (r: bool)
        ensures
            r == (self@ == other@),
    ;

    /// Another key that is the same.
    fn copied(&self) -> (r: Self)
        ensures
            r@ == self@,
    ;
}

/// A list of keys with a value for each.
#[derive(Debug)]
pub struct Table<K, V> {
    entries: Vec<(K, V)>,
}

/// The entry as its key and value are viewed.
pub open spec fn entry_view<K: View, V: View>(e: (K, V)) -> (K::V, V::V) {
    (e.0@, e.1@)
}

impl<K: View, V: View> View for Table<K, V> {
    type V = Seq<(K::V, V::V)>;

    closed spec fn view(&self) -> Seq<(K::V, V::V)> {
        Seq::new(self.entries@.len(), |i: int| entry_view(self.entries@[i]))
    }
}

impl<K: TableKey, V: View> Table<K, V> {
    /// The table holds no key twice.
    pub open spec fn wf(&self) -> bool {
        distinct(self@)
    }

    /// A table without entries.
    pub fn new() -> (r: Self)
        ensures
            r@ == Seq::<(K::V, V::V)>::empty(),
            r.wf(),
    {
        let r = Table { entries: Vec::new() };
        assert(r@ =~= Seq::<(K::V, V::V)>::empty());
        r
    }

    /// The number of entries.
    pub fn len(&self) -> (n: usize)
        ensures
            n == self@.len(),
    {
        self.entries.len()
    }

    /// The key at a place.
    pub fn key_at(&self, i: usize) -> (k: &K)
        requires
            i < self@.len(),
        ensures
            k@ == self@[i as int].0,
    {
        &self.entries[i].0
    }

    /// The value at a place.
    pub fn value_at(&self, i: usize) -> (v: &V)
        requires
            i < self@.len(),
        ensures
            v@ == self@[i as int].1,
    {
        &self.entries[i].1
    }

    /// The value at a place, to be changed there.
    pub fn value_at_mut(&mut self, i: usize) -> (v: &mut V)
        requires
            i < old(self)@.len(),
        ensures
            v@ == old(self)@[i as int].1,
            final(self)@ == old(self)@.update(i as int, (old(self)@[i as int].0, final(v)@)),
    {
        &mut self.entries[i].1
    }

    /// The place of a key.
    pub fn find(&self, k: &K) -> (r: Option<usize>)
        ensures
            match r {
                Some(i) => has_key(self@, k@) && i == place_of(self@, k@) && i < self@.len() && is_place(
                    self@,
                    k@,
                    i as int,
                ),
                None => !has_key(self@, k@),
            },
    {
        for i in 0..self.entries.len()
            invariant
                forall|j: int| 0 <= j < i ==> (#[trigger] self@[j]).0 != k@,
        {
            assert(self@[i as int].0 == self.entries@[i as int].0@);
            if self.entries[i].0.same(k) {
                assert(is_place(self@, k@, i as int));
                return Some(i);
            }
        }
        None
    }

    /// The value under a key.
    pub fn get(&self, k: &K) -> (r: Option<&V>)
        ensures
            match r {
                Some(v) => lookup(self@, k@) == Some(v@),
                None => lookup(self@, k@) is None,
            },
    {
        match self.find(k) {
            Some(i) => Some(&self.entries[i].1),
            None => None,
        }
    }

    /// Whether the table has the key.
    pub fn contains_key(&self, k: &K) -> (r: bool)
        ensures
            r == has_key(self@, k@),
    {
        self.find(k).is_some()
    }

    /// Puts a value under a key.
    pub fn insert(&mut self, k: K, v: V)
        ensures
            final(self)@ == assigned(old(self)@, k@, v@),
            old(self).wf() ==> final(self).wf(),
    {
        proof {
            if self.wf() {
                lemma_assigned_distinct(self@, k@, v@);
            }
        }
        match self.find(&k) {
            Some(i) => {
                let ghost before = self@;
                self.entries[i].1 = v;
                assert(self@ =~= before.update(i as int, (k@, v@)));
            },
            None => {
                let ghost before = self@;
                self.entries.push((k, v));
                assert(self@ =~= before.push((k@, v@)));
            },
        }
    }

    /// Drops the entries whose key meets `p`; says whether there were any.
    pub(crate) fn remove_if<F: Fn(&K) -> bool>(
        &mut self,
        f: &F,
        Ghost(p): Ghost<spec_fn(K::V) -> bool>,
    ) -> (removed: bool)
        requires
            forall|k: &K| #[trigger] f.requires((k,)),
            forall|k: &K, b: bool| #[trigger] f.ensures((k,), b) ==> b == p(k@),
        ensures
            final(self)@ == without(old(self)@, p),
            removed == some_key(old(self)@, p),
            old(self).wf() ==> final(self).wf(),
    {
        let ghost before = self@;
        let mut all: Vec<(K, V)> = Vec::new();
        std::mem::swap(&mut all, &mut self.entries);
        let ghost whole = all@;
        let n: usize = all.len();
        assert(before.take(0) =~= Seq::<(K::V, V::V)>::empty());
        assert(self@ =~= Seq::<(K::V, V::V)>::empty());
        for e in it: all
            invariant
                it.seq() == whole,
                before.len() == whole.len(),
                forall|i: int| 0 <= i < whole.len() ==> before[i] == entry_view(#[trigger] whole[i]),
                forall|k: &K| #[trigger] f.requires((k,)),
                forall|k: &K, b: bool| #[trigger] f.ensures((k,), b) ==> b == p(k@),
                self@ == without(before.take(it.index() as int), p),
        {
            let ghost i = it.index() as int;
            assert(whole[i] == e);
            assert(before.take(i + 1).drop_last() =~= before.take(i));
            assert(before.take(i + 1).last() == before[i]);
            let drop = f(&e.0);
            if !drop {
                let ghost kept = self@;
                self.entries.push(e);
                assert(self@ =~= kept.push(entry_view(e)));
            }
        }
        assert(before.take(before.len() as int) =~= before);
        proof {
            lemma_without_len(before, p);
            if distinct(before) {
                lemma_without_distinct(before, p);
            }
        }
        self.entries.len() != n
    }

    /// The place of the first key that meets `p`.
    pub(crate) fn find_if<F: Fn(&K) -> bool>(
        &self,
        f: &F,
        Ghost(p): Ghost<spec_fn(K::V) -> bool>,
    ) -> (r: Option<usize>)
        requires
            forall|k: &K| #[trigger] f.requires((k,)),
            forall|k: &K, b: bool| #[trigger] f.ensures((k,), b) ==> b == p(k@),
        ensures
            match r {
                Some(i) => i < self@.len() && first_key(self@, p) == Some(self@[i as int].0),
                None => first_key(self@, p) is None,
            },
    {
        assert(self@.skip(0) =~= self@);
        for i in 0..self.entries.len()
            invariant
                self@.len() == self.entries@.len(),
                forall|k: &K| #[trigger] f.requires((k,)),
                forall|k: &K, b: bool| #[trigger] f.ensures((k,), b) ==> b == p(k@),
                first_key(self@, p) == first_key(self@.skip(i as int), p),
        {
            assert(self@.skip(i as int)[0] == entry_view(self.entries@[i as int]));
            assert(self@.skip(i as int).drop_first() =~= self@.skip(i + 1));
            if f(&self.entries[i].0) {
                return Some(i);
            }
        }
        None
    }

    /// Forgets every entry.
    pub fn clear(&mut self)
        ensures
            final(self)@ == Seq::<(K::V, V::V)>::empty(),
            final(self).wf(),
    {
        self.entries.clear();
        assert(self@ =~= Seq::<(K::V, V::V)>::empty());
    }
}

/// Where no key stands twice, each entry is found under its key.
pub proof fn lemma_lookup_at<A, B>(s: Seq<(A, B)>, i: int)
    requires
        distinct(s),
        0 <= i < s.len(),
    ensures
        lookup(s, s[i].0) == Some(s[i].1),
{
    let k = s[i].0;
    lemma_has_key(s, k, i);
    let p = place_of(s, k);
    assert(is_place(s, k, p));
    if p < i {
        assert(s[p].0 != s[i].0);
    } else if i < p {
        assert(s[i].0 != s[p].0);
    }
}

} // verus!
