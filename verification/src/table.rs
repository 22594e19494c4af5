//! A map whose entries stand in the order of their keys.
//!
//! What a device sends, renders or compares is walked in key order, so that two
//! devices holding the same things walk them the same way.

use vstd::prelude::*;

use crate::order::lemma_one_strict_order;
use crate::uuid::{lemma_key_injective, Uuid};

verus! {

/// What a table can be keyed by.
pub trait Key: Copy {
    /// Where the key stands.
    spec fn place(self) -> nat;

    proof fn one_key_per_place(a: Self, b: Self)
        requires
            a.place() == b.place(),
        ensures
            a == b,
    ;

    fn comes_before(&self, other: &Self) -> (r: bool)
        ensures
            r == (self.place() < other.place()),
    ;
}

impl Key for Uuid {
    open spec fn place(self) -> nat {
        self.key()
    }

    proof fn one_key_per_place(a: Uuid, b: Uuid) {
        lemma_key_injective(a, b);
    }

    fn comes_before(&self, other: &Uuid) -> (r: bool) {
        self.precedes(other)
    }
}

impl Key for u16 {
    open spec fn place(self) -> nat {
        self as nat
    }

    proof fn one_key_per_place(a: u16, b: u16) {
    }

    fn comes_before(&self, other: &u16) -> (r: bool) {
        *self < *other
    }
}

/// Whether keys stand in order, each of them once.
pub open spec fn ascending<K: Key>(keys: Seq<K>) -> bool {
    forall|i: int, j: int|
        0 <= i < j < keys.len() ==> (#[trigger] keys[i]).place() < (#[trigger] keys[j]).place()
}

/// Whether `keys` lists exactly the members of a set, in order.
pub open spec fn lists<K: Key>(keys: Seq<K>, members: Set<K>) -> bool {
    &&& ascending(keys)
    &&& forall|k: K| #[trigger] keys.contains(k) <==> members.contains(k)
}

/// A set is listed in one way only.
pub proof fn law_one_listing<K: Key>(a: Seq<K>, b: Seq<K>, members: Set<K>)
    requires
        lists(a, members),
        lists(b, members),
    ensures
        a == b,
{
    assert forall|k: K| #[trigger] a.contains(k) <==> b.contains(k) by {
        assert(b.contains(k) <==> members.contains(k));
    }
    lemma_one_strict_order(a, b, |x: K, y: K| x.place() < y.place());
}

/// A listing has as many keys as the set has members.
pub proof fn lemma_listing_counts<K: Key>(keys: Seq<K>, members: Set<K>)
    requires
        lists(keys, members),
    ensures
        members.finite(),
        members.len() == keys.len(),
{
    keys.unique_seq_to_set();
    assert(keys.to_set() =~= members);
}

/// A map from `K` to `V`, in key order.
#[derive(Clone, Debug)]
pub struct Table<K: Key, V> {
    entries: Vec<(K, V)>,
}

spec fn keys_of<K: Key, V>(entries: Seq<(K, V)>) -> Seq<K> {
    Seq::new(entries.len(), |i: int| entries[i].0)
}

spec fn map_of<K: Key, V>(entries: Seq<(K, V)>) -> Map<K, V> {
    Map::new(
        |k: K| keys_of(entries).contains(k),
        |k: K| entries[keys_of(entries).index_of(k)].1,
    )
}

impl<K: Key, V> View for Table<K, V> {
    type V = Map<K, V>;

    closed spec fn view(&self) -> Map<K, V> {
        map_of(self.entries@)
    }
}

proof fn lemma_at<K: Key, V>(entries: Seq<(K, V)>, i: int)
    requires
        ascending(keys_of(entries)),
        0 <= i < entries.len(),
    ensures
        map_of(entries).dom().contains(entries[i].0),
        map_of(entries)[entries[i].0] == entries[i].1,
        keys_of(entries).index_of(entries[i].0) == i,
{
    let keys = keys_of(entries);
    assert(keys[i] == entries[i].0);
    let p = keys.index_of(entries[i].0);
    assert(keys[p] == keys[i]);
    if p < i {
        assert(keys[p].place() < keys[i].place());
    } else if i < p {
        assert(keys[i].place() < keys[p].place());
    }
}

impl<K: Key, V> Table<K, V> {
    /// The keys, in order.
    pub closed spec fn keys(&self) -> Seq<K> {
        keys_of(self.entries@)
    }

    pub closed spec fn wf(&self) -> bool {
        ascending(self.keys())
    }

    /// The keys of a table list its domain.
    pub proof fn keys_list_the_domain(&self)
        requires
            self.wf(),
        ensures
            lists(self.keys(), self@.dom()),
    {
    }

    pub fn new() -> (t: Table<K, V>)
        ensures
            t.wf(),
            t@ == Map::<K, V>::empty(),
            t.keys() == Seq::<K>::empty(),
    {
        let t = Table { entries: Vec::new() };
        assert(t@ =~= Map::<K, V>::empty());
        assert(t.keys() =~= Seq::<K>::empty());
        t
    }

    pub fn len(&self) -> (n: usize)
        ensures
            n == self.keys().len(),
    {
        self.entries.len()
    }

    /// The key in place `i`.
    pub fn key_at(&self, i: usize) -> (k: K)
        requires
            i < self.keys().len(),
        ensures
            k == self.keys()[i as int],
    {
        self.entries[i].0
    }

    /// The value in place `i`.
    pub fn value_at(&self, i: usize) -> (v: &V)
        requires
            self.wf(),
            i < self.keys().len(),
        ensures
            self@.dom().contains(self.keys()[i as int]),
            *v == self@[self.keys()[i as int]],
    {
        proof {
            lemma_at(self.entries@, i as int);
        }
        &self.entries[i].1
    }

    /// The keys, in order.
    pub fn key_list(&self) -> (out: Vec<K>)
        ensures
            out@ == self.keys(),
    {
        let mut out: Vec<K> = Vec::new();
        let mut i: usize = 0;
        while i < self.len()
            invariant
                i <= self.keys().len(),
                out@ == self.keys().take(i as int),
            decreases self.keys().len() - i,
        {
            out.push(self.key_at(i));
            i += 1;
            assert(out@ =~= self.keys().take(i as int));
        }
        assert(self.keys().take(i as int) =~= self.keys());
        out
    }

    /// The first place whose key does not come before `k`.
    fn seat(&self, k: K) -> (i: usize)
        requires
            self.wf(),
        ensures
            i <= self.keys().len(),
            forall|j: int| 0 <= j < i ==> (#[trigger] self.keys()[j]).place() < k.place(),
            forall|j: int|
                i <= j < self.keys().len() ==> k.place() <= (#[trigger] self.keys()[j]).place(),
    {
        let mut i: usize = 0;
        while i < self.entries.len() && self.entries[i].0.comes_before(&k)
            invariant
                self.wf(),
                i <= self.keys().len(),
                forall|j: int| 0 <= j < i ==> (#[trigger] self.keys()[j]).place() < k.place(),
            decreases self.entries@.len() - i,
        {
            assert(self.keys()[i as int] == self.entries@[i as int].0);
            i += 1;
        }
        assert forall|j: int| i <= j < self.keys().len() implies k.place() <= (
        #[trigger] self.keys()[j]).place() by {
            assert(self.keys()[i as int] == self.entries@[i as int].0);
        }
        i
    }

    /// Where `k` is, if it is there.
    fn find(&self, k: K) -> (r: Option<usize>)
        requires
            self.wf(),
        ensures
            r is Some == self@.dom().contains(k),
            r matches Some(i) ==> i < self.entries@.len() && self.entries@[i as int].0 == k,
    {
        let i: usize = self.seat(k);
        if i < self.entries.len() && !k.comes_before(&self.entries[i].0) {
            proof {
                assert(self.keys()[i as int] == self.entries@[i as int].0);
                K::one_key_per_place(k, self.entries@[i as int].0);
                lemma_at(self.entries@, i as int);
            }
            Some(i)
        } else {
            proof {
                if self.keys().contains(k) {
                    let j = choose|j: int| 0 <= j < self.keys().len() && self.keys()[j] == k;
                    if j > i {
                        assert(self.keys()[i as int].place() < self.keys()[j].place());
                    }
                    assert(self.keys()[i as int] == self.entries@[i as int].0);
                }
            }
            None
        }
    }

    pub fn contains(&self, k: K) -> (r: bool)
        requires
            self.wf(),
        ensures
            r == self@.dom().contains(k),
    {
        self.find(k).is_some()
    }

    pub fn get(&self, k: K) -> (r: Option<&V>)
        requires
            self.wf(),
        ensures
            match r {
                Some(v) => self@.dom().contains(k) && *v == self@[k],
                None => !self@.dom().contains(k),
            },
    {
        match self.find(k) {
            Some(i) => {
                proof {
                    lemma_at(self.entries@, i as int);
                }
                Some(&self.entries[i].1)
            },
            None => None,
        }
    }

    /// The value under a key, to change in place.
    pub fn get_mut(&mut self, k: K) -> (r: Option<&mut V>)
        requires
            old(self).wf(),
        ensures
            final(self).wf(),
            final(self).keys() == old(self).keys(),
            match r {
                Some(v) => {
                    &&& old(self)@.dom().contains(k)
                    &&& *v == old(self)@[k]
                    &&& final(self)@ == old(self)@.insert(k, *final(v))
                },
                None => !old(self)@.dom().contains(k) && final(self)@ == old(self)@,
            },
    {
        let ghost was = self.entries@;
        match self.find(k) {
            Some(i) => {
                proof {
                    lemma_at(was, i as int);
                    assert forall|v: V| ascending(#[trigger] keys_of(was.update(i as int, (k, v))))
                        && keys_of(was.update(i as int, (k, v))) == keys_of(was) && map_of(
                        was.update(i as int, (k, v)),
                    ) == map_of(was).insert(k, v) by {
                        lemma_replaced(was, i as int, v);
                    }
                }
                let entry = &mut self.entries[i];
                Some(&mut entry.1)
            },
            None => None,
        }
    }

    /// Put a value under a key, in place of what was there.
    pub fn insert(&mut self, k: K, v: V)
        requires
            old(self).wf(),
        ensures
            final(self).wf(),
            final(self)@ == old(self)@.insert(k, v),
            old(self)@.dom().contains(k) ==> final(self).keys() == old(self).keys(),
    {
        let ghost was = self.entries@;
        match self.find(k) {
            Some(i) => {
                self.entries[i] = (k, v);
                proof {
                    assert(self.entries@ =~= was.update(i as int, (k, v)));
                    lemma_replaced(was, i as int, v);
                }
            },
            None => {
                let i: usize = self.seat(k);
                self.entries.insert(i, (k, v));
                proof {
                    let now = self.entries@;
                    assert(now =~= was.insert(i as int, (k, v)));
                    lemma_inserted(was, i as int, k, v);
                }
            },
        }
    }

    /// Take the value from under a key.
    pub fn remove(&mut self, k: K) -> (r: Option<V>)
        requires
            old(self).wf(),
        ensures
            final(self).wf(),
            final(self)@ == old(self)@.remove(k),
            match r {
                Some(v) => old(self)@.dom().contains(k) && v == old(self)@[k],
                None => !old(self)@.dom().contains(k),
            },
    {
        let ghost was = self.entries@;
        match self.find(k) {
            Some(i) => {
                let (_key, value) = self.entries.remove(i);
                proof {
                    lemma_at(was, i as int);
                    lemma_removed(was, i as int);
                }
                Some(value)
            },
            None => {
                assert(self@ =~= old(self)@.remove(k));
                None
            },
        }
    }
}

proof fn lemma_replaced<K: Key, V>(was: Seq<(K, V)>, i: int, v: V)
    requires
        ascending(keys_of(was)),
        0 <= i < was.len(),
    ensures
        keys_of(was.update(i, (was[i].0, v))) == keys_of(was),
        map_of(was.update(i, (was[i].0, v))) == map_of(was).insert(was[i].0, v),
{
    let k = was[i].0;
    let now = was.update(i, (k, v));
    assert(keys_of(now) =~= keys_of(was));
    assert forall|q: K| #[trigger] map_of(now).dom().contains(q) implies map_of(now)[q] == map_of(
        was,
    ).insert(k, v)[q] by {
        let j = keys_of(now).index_of(q);
        assert(keys_of(now)[j] == q);
        lemma_at(now, j);
        lemma_at(was, j);
        lemma_at(was, i);
    }
    lemma_at(was, i);
    assert(map_of(now) =~= map_of(was).insert(k, v));
}

proof fn lemma_inserted<K: Key, V>(was: Seq<(K, V)>, i: int, k: K, v: V)
    requires
        ascending(keys_of(was)),
        0 <= i <= was.len(),
        !map_of(was).dom().contains(k),
        forall|j: int| 0 <= j < i ==> (#[trigger] keys_of(was)[j]).place() < k.place(),
        forall|j: int| i <= j < was.len() ==> k.place() <= (#[trigger] keys_of(was)[j]).place(),
    ensures
        ascending(keys_of(was.insert(i, (k, v)))),
        map_of(was.insert(i, (k, v))) == map_of(was).insert(k, v),
{
    let now = was.insert(i, (k, v));
    let (old_keys, keys) = (keys_of(was), keys_of(now));
    assert forall|a: int, b: int| 0 <= a < b < keys.len() implies (#[trigger] keys[a]).place() < (
    #[trigger] keys[b]).place() by {
        let x = if a < i {
            a
        } else {
            a - 1
        };
        let y = if b < i {
            b
        } else {
            b - 1
        };
        if a == i {
            assert(keys[b] == old_keys[y]);
            assert(old_keys.contains(old_keys[y]));
            if k.place() == old_keys[y].place() {
                K::one_key_per_place(k, old_keys[y]);
            }
        } else if b == i {
            assert(keys[a] == old_keys[x]);
        } else {
            assert(keys[a] == old_keys[x] && keys[b] == old_keys[y]);
        }
    }
    assert forall|q: K| map_of(now).dom().contains(q) <==> #[trigger] map_of(was).insert(
        k,
        v,
    ).dom().contains(q) by {
        if keys.contains(q) {
            let a = keys.index_of(q);
            if a < i {
                assert(old_keys[a] == q);
            } else if a > i {
                assert(old_keys[a - 1] == q);
            }
        }
        if old_keys.contains(q) {
            let a = old_keys.index_of(q);
            assert(keys[if a < i {
                a
            } else {
                a + 1
            }] == q);
        }
        assert(keys[i] == k);
    }
    assert forall|q: K| #[trigger] map_of(now).dom().contains(q) implies map_of(now)[q] == map_of(
        was,
    ).insert(k, v)[q] by {
        let a = keys.index_of(q);
        assert(keys[a] == q);
        lemma_at(now, a);
        if a < i {
            lemma_at(was, a);
        } else if a > i {
            lemma_at(was, a - 1);
        }
        if a != i && q == k {
            assert(keys[i] == k);
        }
        lemma_at(now, i);
    }
    assert(map_of(now) =~= map_of(was).insert(k, v));
}

proof fn lemma_removed<K: Key, V>(was: Seq<(K, V)>, i: int)
    requires
        ascending(keys_of(was)),
        0 <= i < was.len(),
    ensures
        ascending(keys_of(was.remove(i))),
        map_of(was.remove(i)) == map_of(was).remove(was[i].0),
{
    let now = was.remove(i);
    let k = was[i].0;
    let (old_keys, keys) = (keys_of(was), keys_of(now));
    assert forall|a: int, b: int| 0 <= a < b < keys.len() implies (#[trigger] keys[a]).place() < (
    #[trigger] keys[b]).place() by {
        let x = if a < i {
            a
        } else {
            a + 1
        };
        let y = if b < i {
            b
        } else {
            b + 1
        };
        assert(keys[a] == old_keys[x] && keys[b] == old_keys[y]);
    }
    assert forall|q: K| map_of(now).dom().contains(q) <==> #[trigger] map_of(was).remove(
        k,
    ).dom().contains(q) by {
        assert(old_keys[i] == k);
        if keys.contains(q) {
            let a = keys.index_of(q);
            let x = if a < i {
                a
            } else {
                a + 1
            };
            assert(old_keys[x] == q);
            if x < i {
                assert(old_keys[x].place() < old_keys[i].place());
            } else {
                assert(old_keys[i].place() < old_keys[x].place());
            }
        }
        if old_keys.contains(q) && q != k {
            let a = old_keys.index_of(q);
            assert(keys[if a < i {
                a
            } else {
                a - 1
            }] == q);
        }
    }
    assert forall|q: K| #[trigger] map_of(now).dom().contains(q) implies map_of(now)[q] == map_of(
        was,
    ).remove(k)[q] by {
        let a = keys.index_of(q);
        assert(keys[a] == q);
        lemma_at(now, a);
        if a < i {
            lemma_at(was, a);
        } else {
            lemma_at(was, a + 1);
        }
    }
    assert(map_of(now) =~= map_of(was).remove(k));
}

} // verus!
