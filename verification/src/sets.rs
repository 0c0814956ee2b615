//! A set of ordered keys.
use crate::order::lex_lt;
use crate::ordmap::{
    ascending, entry_index, entry_map, has_entry, lemma_ascending_unique, lemma_entry,
    lemma_listing_unique, listing_of, unique_entries, MapKey, SortedMap,
};
use vstd::prelude::*;

verus! {

/// Keys, each of them once, in ascending order.
pub struct SortedSet<K: MapKey> {
    pub items: SortedMap<K, bool>,
}

impl<K: MapKey> View for SortedSet<K> {
    type V = Set<K::Id>;

    open spec fn view(&self) -> Set<K::Id> {
        self.items@.dom()
    }
}

impl<K: MapKey> SortedSet<K> {
    pub fn new() -> (r: Self)
        ensures
            r@ == Set::<K::Id>::empty(),
    {
        let r = SortedSet { items: SortedMap::new() };
        proof {
            assert(r@ =~= Set::<K::Id>::empty());
        }
        r
    }

    pub fn contains(&self, key: &K) -> (r: bool)
        ensures
            r == self@.contains(key.id()),
    {
        self.items.contains(key)
    }

    /// Adds a key, and tells whether it is new.
    pub fn insert(&mut self, key: K) -> (added: bool)
        ensures
            final(self)@ == old(self)@.insert(key.id()),
            added == !old(self)@.contains(key.id()),
    {
        let ghost before = self@;
        let added = !self.items.contains(&key);
        let ghost id = key.id();
        let _ = self.items.insert(key, true);
        proof {
            assert(self@ =~= before.insert(id));
        }
        added
    }

    pub fn remove(&mut self, key: &K)
        ensures
            final(self)@ == old(self)@.remove(key.id()),
    {
        let ghost before = self@;
        let _ = self.items.remove(key);
        proof {
            assert(self@ =~= before.remove(key.id()));
        }
    }

    pub fn len(&self) -> (n: usize)
        ensures
            n == self.items.sequence().len(),
    {
        self.items.len()
    }

    pub fn at(&self, i: usize) -> (k: &K)
        requires
            i < self.items.sequence().len(),
        ensures
            k.id() == self.items.sequence()[i as int].0,
    {
        self.items.key_at(i)
    }

    /// Tells whether both sets hold the same keys.
    pub fn same(&self, other: &Self) -> (r: bool)
        ensures
            r == (self@ == other@),
    {
        let r = self.within(other) && other.within(self);
        proof {
            if r {
                assert(self@ =~= other@);
            }
        }
        r
    }

    /// Tells whether every key is in the other set too.
    pub fn within(&self, other: &Self) -> (r: bool)
        ensures
            r == self@.subset_of(other@),
    {
        self.items.expose();
        let ghost s = self.items.sequence();
        let mut i: usize = 0;
        while i < self.items.len()
            invariant
                s == self.items.sequence(),
                unique_entries(s),
                i <= s.len(),
                forall|j: int| 0 <= j < i ==> other@.contains((#[trigger] s[j]).0),
            decreases s.len() - i,
        {
            proof {
                lemma_entry(s, i as int);
            }
            if !other.items.contains(self.items.key_at(i)) {
                proof {
                    assert(self@.contains(s[i as int].0));
                }
                return false;
            }
            i = i + 1;
        }
        proof {
            assert forall|k: K::Id| self@.contains(k) implies other@.contains(k) by {
                let j = entry_index(s, k);
                lemma_entry(s, j);
            }
        }
        true
    }

    pub fn duplicate_set(&self) -> (r: Self)
        ensures
            r@ == self@,
    {
        self.items.expose();
        let ghost s = self.items.sequence();
        let mut r: SortedSet<K> = SortedSet::new();
        let mut i: usize = 0;
        while i < self.items.len()
            invariant
                s == self.items.sequence(),
                unique_entries(s),
                i <= s.len(),
                forall|j: int| 0 <= j < i ==> r@.contains((#[trigger] s[j]).0),
                forall|k: K::Id| r@.contains(k) ==> #[trigger] self@.contains(k),
            decreases s.len() - i,
        {
            proof {
                lemma_entry(s, i as int);
                assert(self@.contains(s[i as int].0));
            }
            let key = self.items.key_at(i).copy();
            let _ = r.insert(key);
            i = i + 1;
        }
        proof {
            assert forall|k: K::Id| self@.contains(k) implies r@.contains(k) by {
                let j = entry_index(s, k);
                lemma_entry(s, j);
            }
            assert(r@ =~= self@);
        }
        r
    }
}

/// The keys of a set in ascending order.
pub open spec fn order_of<K: MapKey>(set: Set<K::Id>) -> Seq<K::Id> {
    let listed = listing_of::<K, bool>(Map::new(|k: K::Id| set.contains(k), |k: K::Id| true));
    Seq::new(listed.len(), |i: int| listed[i].0)
}

/// The keys of a sorted set stand in ascending order.
pub proof fn lemma_order_of<K: MapKey>(set: SortedSet<K>)
    requires
        ascending::<K, bool>(set.items.sequence()),
        set.items@ == entry_map(set.items.sequence()),
    ensures
        order_of::<K>(set@) == Seq::new(
            set.items.sequence().len(),
            |i: int| set.items.sequence()[i].0,
        ),
{
    let s = set.items.sequence();
    let t = Seq::new(s.len(), |i: int| (s[i].0, true));
    let m = Map::new(|k: K::Id| set@.contains(k), |k: K::Id| true);
    lemma_ascending_unique::<K, bool>(s);
    assert(ascending::<K, bool>(t)) by {
        assert forall|i: int, j: int| 0 <= i < j < t.len() implies lex_lt(
            K::rank((#[trigger] t[i]).0),
            K::rank((#[trigger] t[j]).0),
        ) by {
            assert(s[i].0 == t[i].0 && s[j].0 == t[j].0);
        }
    }
    lemma_ascending_unique::<K, bool>(t);
    assert(entry_map(t) =~= m) by {
        assert forall|k: K::Id| #[trigger] entry_map(t).contains_key(k) == m.contains_key(k) by {
            if has_entry(t, k) {
                let i = entry_index(t, k);
                assert(s[i].0 == k);
                lemma_entry(s, i);
            }
            if has_entry(s, k) {
                let i = entry_index(s, k);
                assert(t[i].0 == k);
                lemma_entry(t, i);
            }
        }
        assert forall|k: K::Id| #[trigger] entry_map(t).contains_key(k) implies entry_map(t)[k]
            == m[k] by {
            let i = entry_index(t, k);
            lemma_entry(t, i);
        }
    }
    let l = listing_of::<K, bool>(m);
    assert(ascending::<K, bool>(l) && entry_map(l) == m);
    lemma_listing_unique::<K, bool>(l, t);
    assert(order_of::<K>(set@) =~= Seq::new(s.len(), |i: int| s[i].0));
}

} // verus!
