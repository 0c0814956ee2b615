//! A map with ordered keys, held as a sorted list.
use crate::order::{
    lemma_lex_asymmetric, lemma_lex_irreflexive, lemma_lex_total, lemma_lex_transitive, lex_lt,
    byte_rank, differs_at, lemma_byte_rank_injective, lex_position, order_bytes, Position,
};
use crate::text::{order_text, text_rank, lemma_text_rank_injective};
use vstd::prelude::*;

verus! {

/// Keys that are told apart and ordered by a rank.
pub trait MapKey: Sized {
    type Id;

    /// What the key stands for.
    spec fn id(&self) -> Self::Id;

    /// Place of a key in the order.
    spec fn rank(id: Self::Id) -> Seq<int>;

    proof fn rank_injective(a: Self::Id, b: Self::Id)
        requires
            Self::rank(a) == Self::rank(b),
        ensures
            a == b,
    ;

    fn order(&self, other: &Self) -> (r: Position)
        ensures
            r == lex_position(Self::rank(self.id()), Self::rank(other.id())),
    ;

    fn copy(&self) -> (r: Self)
        ensures
            r.id() == self.id(),
    ;
}

struct Entries<K, V> {
    keys: Vec<K>,
    values: Vec<V>,
}

spec fn entries_ok<K: MapKey, V>(e: Entries<K, V>) -> bool {
    &&& e.keys@.len() == e.values@.len()
    &&& forall|i: int, j: int|
        0 <= i < j < e.keys@.len() ==> lex_lt(
            K::rank((#[trigger] e.keys@[i]).id()),
            K::rank((#[trigger] e.keys@[j]).id()),
        )
}

/// A map whose entries are kept in ascending order of their keys.
pub struct SortedMap<K: MapKey, V> {
    entries: Entries<K, V>,
}

impl<K: MapKey, V> SortedMap<K, V> {
    #[verifier::type_invariant]
    spec fn inv(self) -> bool {
        entries_ok::<K, V>(self.entries)
    }

    /// The entries in ascending order of their keys.
    pub closed spec fn sequence(&self) -> Seq<(K::Id, V)> {
        Seq::new(
            self.entries.keys@.len(),
            |i: int| (self.entries.keys@[i].id(), self.entries.values@[i]),
        )
    }
}

/// Where `key` stands in a sequence of entries.
pub open spec fn entry_index<I, V>(s: Seq<(I, V)>, key: I) -> int {
    choose|i: int| 0 <= i < s.len() && (#[trigger] s[i]).0 == key
}

/// Whether `key` stands in a sequence of entries.
pub open spec fn has_entry<I, V>(s: Seq<(I, V)>, key: I) -> bool {
    exists|i: int| 0 <= i < s.len() && (#[trigger] s[i]).0 == key
}

/// The map that a sequence of entries describes.
pub open spec fn entry_map<I, V>(s: Seq<(I, V)>) -> Map<I, V> {
    Map::new(|key: I| has_entry(s, key), |key: I| s[entry_index(s, key)].1)
}

/// No key stands twice.
pub open spec fn unique_entries<I, V>(s: Seq<(I, V)>) -> bool {
    forall|i: int, j: int|
        0 <= i < s.len() && 0 <= j < s.len() && (#[trigger] s[i]).0 == (#[trigger] s[j]).0 ==> i == j
}

/// The keys ascend in rank.
pub open spec fn ascending<K: MapKey, V>(s: Seq<(K::Id, V)>) -> bool {
    forall|i: int, j: int|
        0 <= i < j < s.len() ==> lex_lt(K::rank((#[trigger] s[i]).0), K::rank((#[trigger] s[j]).0))
}

pub proof fn lemma_entry<I, V>(s: Seq<(I, V)>, i: int)
    requires
        unique_entries(s),
        0 <= i < s.len(),
    ensures
        has_entry(s, s[i].0),
        entry_index(s, s[i].0) == i,
        entry_map(s).contains_key(s[i].0),
        entry_map(s)[s[i].0] == s[i].1,
{
    assert(s[i].0 == s[i].0);
    let j = entry_index(s, s[i].0);
    assert(0 <= j < s.len() && s[j].0 == s[i].0);
}

/// There are as many keys as entries.
pub proof fn lemma_entry_count<I, V>(s: Seq<(I, V)>)
    requires
        unique_entries(s),
    ensures
        entry_map(s).dom().finite(),
        entry_map(s).len() == s.len(),
    decreases s.len(),
{
    let m = entry_map(s);
    if s.len() == 0 {
        assert(m.dom() =~= Set::empty());
    } else {
        let t = s.drop_last();
        let last = s.last().0;
        assert(unique_entries(t)) by {
            assert forall|i: int, j: int|
                0 <= i < t.len() && 0 <= j < t.len() && (#[trigger] t[i]).0 == (#[trigger] t[j]).0 implies i
                == j by {
                assert(s[i].0 == s[j].0);
            }
        }
        lemma_entry_count(t);
        lemma_entry(s, s.len() - 1);
        assert(!entry_map(t).contains_key(last)) by {
            if has_entry(t, last) {
                let i = entry_index(t, last);
                assert(s[i].0 == s[s.len() - 1].0);
            }
        }
        assert forall|k: I| m.contains_key(k) == (k == last || entry_map(t).contains_key(k)) by {
            if has_entry(s, k) && k != last {
                let i = entry_index(s, k);
                assert(t[i].0 == k);
            }
            if has_entry(t, k) {
                let i = entry_index(t, k);
                assert(s[i].0 == k);
            }
        }
        assert(m.dom() =~= entry_map(t).dom().insert(last));
    }
}

pub proof fn lemma_ascending_unique<K: MapKey, V>(s: Seq<(K::Id, V)>)
    requires
        ascending::<K, V>(s),
    ensures
        unique_entries(s),
{
    assert forall|i: int, j: int|
        0 <= i < s.len() && 0 <= j < s.len() && (#[trigger] s[i]).0 == (#[trigger] s[j]).0 implies i
        == j by {
        if i < j {
            lemma_lex_irreflexive(K::rank(s[i].0));
        } else if j < i {
            lemma_lex_irreflexive(K::rank(s[i].0));
        }
    }
}

/// A new entry between the others adds its key to the map.
pub proof fn lemma_insert_entry<K: MapKey, V>(s: Seq<(K::Id, V)>, i: int, key: K::Id, value: V)
    requires
        ascending::<K, V>(s),
        0 <= i <= s.len(),
        forall|j: int| 0 <= j < i ==> lex_lt(K::rank((#[trigger] s[j]).0), K::rank(key)),
        forall|j: int| i <= j < s.len() ==> lex_lt(K::rank(key), K::rank((#[trigger] s[j]).0)),
    ensures
        ascending::<K, V>(s.insert(i, (key, value))),
        entry_map(s.insert(i, (key, value))) == entry_map(s).insert(key, value),
        !entry_map(s).contains_key(key),
{
    let t = s.insert(i, (key, value));
    assert(ascending::<K, V>(t)) by {
        assert forall|a: int, b: int| 0 <= a < b < t.len() implies lex_lt(
            K::rank((#[trigger] t[a]).0),
            K::rank((#[trigger] t[b]).0),
        ) by {
            if a < i {
                assert(t[a] == s[a]);
            } else if a > i {
                assert(t[a] == s[a - 1]);
            }
            if b < i {
                assert(t[b] == s[b]);
            } else if b > i {
                assert(t[b] == s[b - 1]);
            }
        }
    }
    lemma_ascending_unique::<K, V>(s);
    lemma_ascending_unique::<K, V>(t);
    assert(!has_entry(s, key)) by {
        if has_entry(s, key) {
            let j = entry_index(s, key);
            lemma_lex_irreflexive(K::rank(key));
        }
    }
    let m = entry_map(s).insert(key, value);
    assert forall|k: K::Id| entry_map(t).contains_key(k) == m.contains_key(k) by {
        if has_entry(t, k) {
            let a = entry_index(t, k);
            if a < i {
                assert(t[a] == s[a]);
                assert(s[a].0 == k);
            } else if a > i {
                assert(t[a] == s[a - 1]);
                assert(s[a - 1].0 == k);
            }
        }
        if has_entry(s, k) {
            let a = entry_index(s, k);
            if a < i {
                assert(t[a] == s[a]);
                assert(t[a].0 == k);
            } else {
                assert(t[a + 1] == s[a]);
                assert(t[a + 1].0 == k);
            }
        }
        assert(t[i].0 == key);
    }
    assert forall|k: K::Id| entry_map(t).contains_key(k) implies entry_map(t)[k] == m[k] by {
        let a = entry_index(t, k);
        if a < i {
            assert(t[a] == s[a]);
            lemma_entry(s, a);
        } else if a > i {
            assert(t[a] == s[a - 1]);
            lemma_entry(s, a - 1);
        }
    }
    assert(entry_map(t) =~= m);
}

/// Taking one entry out removes its key from the map.
pub proof fn lemma_remove_entry<K: MapKey, V>(s: Seq<(K::Id, V)>, i: int)
    requires
        ascending::<K, V>(s),
        0 <= i < s.len(),
    ensures
        ascending::<K, V>(s.remove(i)),
        entry_map(s.remove(i)) == entry_map(s).remove(s[i].0),
{
    let t = s.remove(i);
    let key = s[i].0;
    assert(ascending::<K, V>(t)) by {
        assert forall|a: int, b: int| 0 <= a < b < t.len() implies lex_lt(
            K::rank((#[trigger] t[a]).0),
            K::rank((#[trigger] t[b]).0),
        ) by {
            let a2 = if a < i {
                a
            } else {
                a + 1
            };
            let b2 = if b < i {
                b
            } else {
                b + 1
            };
            assert(t[a] == s[a2]);
            assert(t[b] == s[b2]);
        }
    }
    lemma_ascending_unique::<K, V>(s);
    lemma_ascending_unique::<K, V>(t);
    let m = entry_map(s).remove(key);
    assert forall|k: K::Id| entry_map(t).contains_key(k) == m.contains_key(k) by {
        if has_entry(t, k) {
            let a = entry_index(t, k);
            let a2 = if a < i {
                a
            } else {
                a + 1
            };
            assert(s[a2].0 == k);
            assert(s[i].0 == key);
        }
        if has_entry(s, k) && k != key {
            let a = entry_index(s, k);
            let a2 = if a < i {
                a
            } else {
                a - 1
            };
            assert(a != i);
            assert(t[a2].0 == k);
        }
    }
    assert forall|k: K::Id| entry_map(t).contains_key(k) implies entry_map(t)[k] == m[k] by {
        let a = entry_index(t, k);
        let a2 = if a < i {
            a
        } else {
            a + 1
        };
        assert(t[a] == s[a2]);
        lemma_entry(s, a2);
    }
    assert(entry_map(t) =~= m);
}

/// A new value in one entry changes the map at its key.
pub proof fn lemma_update_entry<K: MapKey, V>(s: Seq<(K::Id, V)>, i: int, value: V)
    requires
        ascending::<K, V>(s),
        0 <= i < s.len(),
    ensures
        ascending::<K, V>(s.update(i, (s[i].0, value))),
        entry_map(s.update(i, (s[i].0, value))) == entry_map(s).insert(s[i].0, value),
{
    let t = s.update(i, (s[i].0, value));
    assert(forall|a: int| 0 <= a < s.len() ==> (#[trigger] t[a]).0 == s[a].0);
    assert(ascending::<K, V>(t)) by {
        assert forall|a: int, b: int| 0 <= a < b < t.len() implies lex_lt(
            K::rank((#[trigger] t[a]).0),
            K::rank((#[trigger] t[b]).0),
        ) by {
            assert(s[a].0 == t[a].0 && s[b].0 == t[b].0);
        }
    }
    lemma_ascending_unique::<K, V>(s);
    lemma_ascending_unique::<K, V>(t);
    let m = entry_map(s).insert(s[i].0, value);
    assert forall|k: K::Id| entry_map(t).contains_key(k) == m.contains_key(k) by {
        if has_entry(t, k) {
            let a = entry_index(t, k);
            assert(s[a].0 == k);
        }
        if has_entry(s, k) {
            let a = entry_index(s, k);
            assert(t[a].0 == k);
        }
        assert(t[i].0 == s[i].0);
    }
    assert forall|k: K::Id| entry_map(t).contains_key(k) implies entry_map(t)[k] == m[k] by {
        let a = entry_index(t, k);
        if a != i {
            lemma_entry(s, a);
            assert(s[a].0 != s[i].0);
        }
    }
    assert(entry_map(t) =~= m);
}

impl<K: MapKey, V> View for SortedMap<K, V> {
    type V = Map<K::Id, V>;

    open spec fn view(&self) -> Map<K::Id, V> {
        entry_map(self.sequence())
    }
}

impl<K: MapKey, V> SortedMap<K, V> {
    pub fn new() -> (r: Self)
        ensures
            r.sequence() == Seq::<(K::Id, V)>::empty(),
            r@ == Map::<K::Id, V>::empty(),
    {
        let r = SortedMap { entries: Entries { keys: Vec::new(), values: Vec::new() } };
        proof {
            assert(r.sequence() =~= Seq::empty());
            assert(r@ =~= Map::empty());
        }
        r
    }

    pub fn len(&self) -> (n: usize)
        ensures
            n == self.sequence().len(),
    {
        self.entries.keys.len()
    }

    /// The entries ascend and no key stands twice.
    pub fn expose(&self)
        ensures
            ascending::<K, V>(self.sequence()),
            unique_entries(self.sequence()),
    {
        proof {
            use_type_invariant(self);
            assert(ascending::<K, V>(self.sequence()));
            lemma_ascending_unique::<K, V>(self.sequence());
        }
    }

    pub fn key_at(&self, i: usize) -> (k: &K)
        requires
            i < self.sequence().len(),
        ensures
            k.id() == self.sequence()[i as int].0,
    {
        &self.entries.keys[i]
    }

    pub fn value_at(&self, i: usize) -> (v: &V)
        requires
            i < self.sequence().len(),
        ensures
            *v == self.sequence()[i as int].1,
    {
        proof {
            use_type_invariant(self);
        }
        &self.entries.values[i]
    }

    /// The index of the first entry whose key is not before `key`, and whether it holds `key`.
    pub fn locate(&self, key: &K) -> (r: (usize, bool))
        ensures
            r.0 <= self.sequence().len(),
            forall|j: int|
                0 <= j < r.0 ==> lex_lt(K::rank((#[trigger] self.sequence()[j]).0), K::rank(key.id())),
            r.1 ==> r.0 < self.sequence().len() && self.sequence()[r.0 as int].0 == key.id(),
            !r.1 ==> forall|j: int|
                r.0 <= j < self.sequence().len() ==> lex_lt(
                    K::rank(key.id()),
                    K::rank((#[trigger] self.sequence()[j]).0),
                ),
            r.1 == self@.contains_key(key.id()),
            r.1 ==> self@[key.id()] == self.sequence()[r.0 as int].1,
    {
        self.expose();
        let ghost s = self.sequence();
        let ghost rank = K::rank(key.id());
        let mut low: usize = 0;
        let mut high: usize = self.entries.keys.len();
        while low < high
            invariant
                s == self.sequence(),
                s.len() == self.entries.keys@.len(),
                ascending::<K, V>(s),
                unique_entries(s),
                rank == K::rank(key.id()),
                low <= high <= s.len(),
                forall|j: int| 0 <= j < low ==> lex_lt(K::rank((#[trigger] s[j]).0), rank),
                forall|j: int| high <= j < s.len() ==> lex_lt(rank, K::rank((#[trigger] s[j]).0)),
            decreases high - low,
        {
            let middle = low + (high - low) / 2;
            let ghost m = middle as int;
            match self.entries.keys[middle].order(key) {
                Position::Before => {
                    proof {
                        assert(lex_lt(K::rank(s[m].0), rank));
                        assert forall|j: int| 0 <= j < middle + 1 implies lex_lt(
                            K::rank((#[trigger] s[j]).0),
                            rank,
                        ) by {
                            if j < m {
                                lemma_lex_transitive(K::rank(s[j].0), K::rank(s[m].0), rank);
                            }
                        }
                    }
                    low = middle + 1;
                },
                Position::Same => {
                    proof {
                        K::rank_injective(s[m].0, key.id());
                        lemma_entry(s, m);
                    }
                    return (middle, true);
                },
                Position::After => {
                    proof {
                        lemma_lex_total(K::rank(s[m].0), rank);
                        assert forall|j: int| middle <= j < s.len() implies lex_lt(
                            rank,
                            K::rank((#[trigger] s[j]).0),
                        ) by {
                            if m < j {
                                lemma_lex_transitive(rank, K::rank(s[m].0), K::rank(s[j].0));
                            }
                        }
                    }
                    high = middle;
                },
            }
        }
        proof {
            if has_entry(s, key.id()) {
                let j = entry_index(s, key.id());
                lemma_lex_irreflexive(rank);
                assert(s[j].0 == key.id());
            }
        }
        (low, false)
    }

    pub fn contains(&self, key: &K) -> (r: bool)
        ensures
            r == self@.contains_key(key.id()),
    {
        self.locate(key).1
    }

    pub fn get(&self, key: &K) -> (r: Option<&V>)
        ensures
            r is Some == self@.contains_key(key.id()),
            r matches Some(v) ==> *v == self@[key.id()],
    {
        let (i, found) = self.locate(key);
        if found {
            Some(self.value_at(i))
        } else {
            None
        }
    }

    /// Binds `key` to `value`.
    pub fn insert(&mut self, key: K, value: V) -> (previous: Option<V>)
        ensures
            final(self)@ == old(self)@.insert(key.id(), value),
            previous is Some == old(self)@.contains_key(key.id()),
            previous matches Some(v) ==> v == old(self)@[key.id()],
    {
        let (i, found) = self.locate(&key);
        if found {
            Some(self.replace_at(i, value))
        } else {
            self.insert_at(i, key, value);
            None
        }
    }

    /// Puts a new entry in its place.
    pub fn insert_at(&mut self, i: usize, key: K, value: V)
        requires
            i <= old(self).sequence().len(),
            forall|j: int|
                0 <= j < i ==> lex_lt(
                    K::rank((#[trigger] old(self).sequence()[j]).0),
                    K::rank(key.id()),
                ),
            forall|j: int|
                i <= j < old(self).sequence().len() ==> lex_lt(
                    K::rank(key.id()),
                    K::rank((#[trigger] old(self).sequence()[j]).0),
                ),
        ensures
            final(self).sequence() == old(self).sequence().insert(i as int, (key.id(), value)),
            final(self)@ == old(self)@.insert(key.id(), value),
            !old(self)@.contains_key(key.id()),
    {
        self.expose();
        proof {
            use_type_invariant(&*self);
        }
        let ghost s = self.sequence();
        let ghost id = key.id();
        let mut e = Entries { keys: Vec::new(), values: Vec::new() };
        core::mem::swap(&mut e, &mut self.entries);
        e.keys.insert(i, key);
        e.values.insert(i, value);
        let ghost t = Seq::new(e.keys@.len(), |j: int| (e.keys@[j].id(), e.values@[j]));
        proof {
            lemma_insert_entry::<K, V>(s, i as int, id, value);
            assert(t =~= s.insert(i as int, (id, value)));
            assert(entries_ok::<K, V>(e)) by {
                assert forall|a: int, b: int| 0 <= a < b < e.keys@.len() implies lex_lt(
                    K::rank((#[trigger] e.keys@[a]).id()),
                    K::rank((#[trigger] e.keys@[b]).id()),
                ) by {
                    assert(t[a].0 == e.keys@[a].id());
                    assert(t[b].0 == e.keys@[b].id());
                }
            }
        }
        self.entries = e;
        proof {
            assert(self.sequence() =~= t);
        }
    }

    /// Gives the entry at `i` a new value and hands out the one before.
    pub fn replace_at(&mut self, i: usize, value: V) -> (previous: V)
        requires
            i < old(self).sequence().len(),
        ensures
            final(self).sequence() == old(self).sequence().update(
                i as int,
                (old(self).sequence()[i as int].0, value),
            ),
            final(self)@ == old(self)@.insert(old(self).sequence()[i as int].0, value),
            previous == old(self).sequence()[i as int].1,
    {
        self.expose();
        proof {
            use_type_invariant(&*self);
        }
        let ghost s = self.sequence();
        let mut e = Entries { keys: Vec::new(), values: Vec::new() };
        core::mem::swap(&mut e, &mut self.entries);
        let mut held = value;
        core::mem::swap(&mut held, &mut e.values[i]);
        proof {
            lemma_update_entry::<K, V>(s, i as int, value);
        }
        self.entries = e;
        proof {
            assert(self.sequence() =~= s.update(i as int, (s[i as int].0, value)));
        }
        held
    }

    /// Lends the value of the entry at `i`.
    pub fn value_mut_at(&mut self, i: usize) -> (r: &mut V)
        requires
            i < old(self).sequence().len(),
        ensures
            *r == old(self).sequence()[i as int].1,
            final(self).sequence() == old(self).sequence().update(
                i as int,
                (old(self).sequence()[i as int].0, *final(r)),
            ),
            final(self)@ == old(self)@.insert(old(self).sequence()[i as int].0, *final(r)),
    {
        self.expose();
        proof {
            use_type_invariant(&*self);
        }
        let ghost s = self.sequence();
        let r = &mut self.entries.values[i];
        proof {
            lemma_update_entry::<K, V>(s, i as int, *final(r));
        }
        r
    }

    /// Lends the value that `key` is bound to.
    pub fn get_mut(&mut self, key: &K) -> (r: Option<&mut V>)
        ensures
            r is Some == old(self)@.contains_key(key.id()),
            match r {
                Some(v) => *v == old(self)@[key.id()] && final(self)@ == old(self)@.insert(
                    key.id(),
                    *final(v),
                ),
                None => *final(self) == *old(self),
            },
    {
        let (i, found) = self.locate(key);
        if found {
            Some(self.value_mut_at(i))
        } else {
            None
        }
    }

    /// Takes the entry at `i` out.
    pub fn remove_at(&mut self, i: usize) -> (value: V)
        requires
            i < old(self).sequence().len(),
        ensures
            final(self).sequence() == old(self).sequence().remove(i as int),
            final(self)@ == old(self)@.remove(old(self).sequence()[i as int].0),
            value == old(self).sequence()[i as int].1,
    {
        self.expose();
        proof {
            use_type_invariant(&*self);
        }
        let ghost s = self.sequence();
        let mut e = Entries { keys: Vec::new(), values: Vec::new() };
        core::mem::swap(&mut e, &mut self.entries);
        let _ = e.keys.remove(i);
        let value = e.values.remove(i);
        let ghost t = Seq::new(e.keys@.len(), |j: int| (e.keys@[j].id(), e.values@[j]));
        proof {
            lemma_remove_entry::<K, V>(s, i as int);
            assert(t =~= s.remove(i as int));
            assert(entries_ok::<K, V>(e)) by {
                assert forall|a: int, b: int| 0 <= a < b < e.keys@.len() implies lex_lt(
                    K::rank((#[trigger] e.keys@[a]).id()),
                    K::rank((#[trigger] e.keys@[b]).id()),
                ) by {
                    assert(t[a].0 == e.keys@[a].id());
                    assert(t[b].0 == e.keys@[b].id());
                }
            }
        }
        self.entries = e;
        proof {
            assert(self.sequence() =~= t);
        }
        value
    }

    /// Removes the entry of `key`, if there is one.
    pub fn remove(&mut self, key: &K) -> (value: Option<V>)
        ensures
            final(self)@ == old(self)@.remove(key.id()),
            value is Some == old(self)@.contains_key(key.id()),
            value matches Some(v) ==> v == old(self)@[key.id()],
    {
        let (i, found) = self.locate(key);
        if found {
            Some(self.remove_at(i))
        } else {
            proof {
                assert(self@.remove(key.id()) =~= self@);
            }
            None
        }
    }

    /// Keeps the entries for which `keep` holds.
    pub fn retain<F: Fn(&K, &V) -> bool>(
        &mut self,
        keep: F,
        Ghost(holds): Ghost<spec_fn(K::Id, V) -> bool>,
    )
        requires
            forall|k: &K, v: &V| #[trigger] keep.requires((k, v)),
            forall|k: &K, v: &V, b: bool| #[trigger]
                keep.ensures((k, v), b) ==> b == holds(k.id(), *v),
        ensures
            final(self)@ == kept(old(self)@, holds),
    {
        let ghost before = self@;
        let mut i: usize = 0;
        while i < self.len()
            invariant
                forall|k: &K, v: &V| #[trigger] keep.requires((k, v)),
                forall|k: &K, v: &V, b: bool| #[trigger]
                    keep.ensures((k, v), b) ==> b == holds(k.id(), *v),
                i <= self.sequence().len(),
                forall|k: K::Id| #[trigger]
                    self@.contains_key(k) ==> before.contains_key(k) && self@[k] == before[k],
                forall|k: K::Id| #[trigger]
                    before.contains_key(k) && !self@.contains_key(k) ==> !holds(k, before[k]),
                forall|j: int|
                    0 <= j < i ==> holds(
                        (#[trigger] self.sequence()[j]).0,
                        self.sequence()[j].1,
                    ),
            decreases self.sequence().len() - i,
        {
            self.expose();
            let ghost s = self.sequence();
            proof {
                lemma_entry(s, i as int);
            }
            if keep(self.key_at(i), self.value_at(i)) {
                i = i + 1;
            } else {
                let _ = self.remove_at(i);
                proof {
                    assert forall|j: int| 0 <= j < i implies holds(
                        (#[trigger] self.sequence()[j]).0,
                        self.sequence()[j].1,
                    ) by {
                        assert(self.sequence()[j] == s[j]);
                    }
                }
            }
        }
        self.expose();
        proof {
            let s = self.sequence();
            assert forall|k: K::Id| self@.contains_key(k) implies holds(k, self@[k]) by {
                let j = entry_index(s, k);
                lemma_entry(s, j);
            }
            assert(self@ =~= kept(before, holds));
        }
    }

    /// Removes every entry.
    pub fn clear(&mut self)
        ensures
            final(self).sequence() == Seq::<(K::Id, V)>::empty(),
            final(self)@ == Map::<K::Id, V>::empty(),
    {
        self.entries = Entries { keys: Vec::new(), values: Vec::new() };
        proof {
            assert(self.sequence() =~= Seq::empty());
            assert(self@ =~= Map::empty());
        }
    }
}

impl MapKey for String {
    type Id = Seq<char>;

    open spec fn id(&self) -> Seq<char> {
        self@
    }

    open spec fn rank(id: Seq<char>) -> Seq<int> {
        text_rank(id)
    }

    proof fn rank_injective(a: Seq<char>, b: Seq<char>) {
        lemma_text_rank_injective(a, b);
    }

    fn order(&self, other: &Self) -> (r: Position) {
        order_text(self.as_str(), other.as_str())
    }

    fn copy(&self) -> (r: Self) {
        self.clone()
    }
}

impl MapKey for Vec<u8> {
    type Id = Seq<u8>;

    open spec fn id(&self) -> Seq<u8> {
        self@
    }

    open spec fn rank(id: Seq<u8>) -> Seq<int> {
        byte_rank(id)
    }

    proof fn rank_injective(a: Seq<u8>, b: Seq<u8>) {
        lemma_byte_rank_injective(a, b);
    }

    fn order(&self, other: &Self) -> (r: Position) {
        order_bytes(self.as_slice(), other.as_slice())
    }

    fn copy(&self) -> (r: Self) {
        let mut r: Vec<u8> = Vec::new();
        crate::bytes::put_bytes(&mut r, self.as_slice());
        proof {
            assert(r@ =~= self@);
        }
        r
    }
}

impl MapKey for u64 {
    type Id = u64;

    open spec fn id(&self) -> u64 {
        *self
    }

    open spec fn rank(id: u64) -> Seq<int> {
        seq![id as int]
    }

    proof fn rank_injective(a: u64, b: u64) {
        assert(Self::rank(a)[0] == a as int);
        assert(Self::rank(b)[0] == b as int);
    }

    fn order(&self, other: &Self) -> (r: Position) {
        proof {
            let a = Self::rank(*self);
            let b = Self::rank(*other);
            assert(a[0] == *self as int && b[0] == *other as int);
            if *self < *other {
                assert(differs_at(a, b, 0));
                assert(a != b);
                lemma_lex_asymmetric(a, b);
            } else if *other < *self {
                assert(differs_at(b, a, 0));
                assert(a != b);
                lemma_lex_asymmetric(b, a);
                assert(!lex_lt(a, b));
            } else {
                assert(a =~= b);
            }
            assert(lex_position(a, b) == if *self < *other {
                Position::Before
            } else if *self == *other {
                Position::Same
            } else {
                Position::After
            });
            assert(a == Self::rank(self.id()));
            assert(b == Self::rank(other.id()));
        }
        if *self < *other {
            Position::Before
        } else if *self == *other {
            Position::Same
        } else {
            Position::After
        }
    }

    fn copy(&self) -> (r: Self) {
        *self
    }
}

/// One sequence behind another, with a mark between them that comes before every number
/// from zero on.
pub open spec fn chained(a: Seq<int>, b: Seq<int>) -> Seq<int> {
    a + seq![-1int] + b
}

/// Every number is at least zero.
pub open spec fn unsigned(a: Seq<int>) -> bool {
    forall|i: int| 0 <= i < a.len() ==> #[trigger] a[i] >= 0
}

proof fn lemma_chained_heads(a: Seq<int>, b: Seq<int>, c: Seq<int>, d: Seq<int>)
    requires
        unsigned(a),
        unsigned(c),
        lex_lt(a, c),
    ensures
        lex_lt(chained(a, b), chained(c, d)),
{
    let k = choose|k: int| differs_at(a, c, k);
    let x = chained(a, b);
    let y = chained(c, d);
    assert(differs_at(x, y, k)) by {
        assert forall|j: int| 0 <= j < k implies x[j] == y[j] by {
            assert(x[j] == a[j]);
            assert(y[j] == c[j]);
        }
        assert(y[k] == c[k]);
        assert(c[k] >= 0);
        if k < a.len() {
            assert(x[k] == a[k]);
        } else {
            assert(x[k] == -1);
        }
    }
}

proof fn lemma_chained_tails(a: Seq<int>, b: Seq<int>, d: Seq<int>)
    requires
        lex_lt(b, d),
    ensures
        lex_lt(chained(a, b), chained(a, d)),
{
    let k = choose|k: int| differs_at(b, d, k);
    let x = chained(a, b);
    let y = chained(a, d);
    let n = a.len() + 1;
    assert(differs_at(x, y, n + k)) by {
        assert forall|j: int| 0 <= j < n + k implies x[j] == y[j] by {
            if j >= n {
                assert(x[j] == b[j - n]);
                assert(y[j] == d[j - n]);
            }
        }
        assert(y[n + k] == d[k]);
        if k < b.len() {
            assert(x[n + k] == b[k]);
        }
    }
}

/// Chained sequences compare by their heads, then by their tails.
pub proof fn lemma_chained(a: Seq<int>, b: Seq<int>, c: Seq<int>, d: Seq<int>)
    requires
        unsigned(a),
        unsigned(c),
    ensures
        lex_position(chained(a, b), chained(c, d)) == if a == c {
            lex_position(b, d)
        } else {
            lex_position(a, c)
        },
        chained(a, b) == chained(c, d) ==> a == c && b == d,
{
    lemma_lex_total(a, c);
    if lex_lt(a, c) {
        lemma_lex_asymmetric(a, c);
        lemma_chained_heads(a, b, c, d);
        lemma_lex_asymmetric(chained(a, b), chained(c, d));
    } else if lex_lt(c, a) {
        lemma_lex_asymmetric(c, a);
        lemma_chained_heads(c, d, a, b);
        lemma_lex_asymmetric(chained(c, d), chained(a, b));
    } else {
        lemma_lex_total(b, d);
        if lex_lt(b, d) {
            lemma_lex_asymmetric(b, d);
            lemma_chained_tails(a, b, d);
            lemma_lex_asymmetric(chained(a, b), chained(c, d));
        } else if lex_lt(d, b) {
            lemma_lex_asymmetric(d, b);
            lemma_chained_tails(a, d, b);
            lemma_lex_asymmetric(chained(c, d), chained(a, b));
        }
    }
}

impl<B: MapKey> MapKey for (u64, B) {
    type Id = (u64, B::Id);

    open spec fn id(&self) -> (u64, B::Id) {
        (self.0, self.1.id())
    }

    open spec fn rank(id: (u64, B::Id)) -> Seq<int> {
        chained(seq![id.0 as int], B::rank(id.1))
    }

    proof fn rank_injective(a: (u64, B::Id), b: (u64, B::Id)) {
        let x = seq![a.0 as int];
        let y = seq![b.0 as int];
        lemma_chained(x, B::rank(a.1), y, B::rank(b.1));
        assert(x[0] == y[0]);
        B::rank_injective(a.1, b.1);
    }

    fn order(&self, other: &Self) -> (r: Position) {
        proof {
            lemma_chained(
                seq![self.0 as int],
                B::rank(self.1.id()),
                seq![other.0 as int],
                B::rank(other.1.id()),
            );
        }
        match self.0.order(&other.0) {
            Position::Before => Position::Before,
            Position::After => Position::After,
            Position::Same => {
                proof {
                    assert(seq![self.0 as int] =~= seq![other.0 as int]);
                }
                self.1.order(&other.1)
            },
        }
    }

    fn copy(&self) -> (r: Self) {
        (self.0, self.1.copy())
    }
}

impl<B: MapKey> MapKey for (String, B) {
    type Id = (Seq<char>, B::Id);

    open spec fn id(&self) -> (Seq<char>, B::Id) {
        (self.0@, self.1.id())
    }

    open spec fn rank(id: (Seq<char>, B::Id)) -> Seq<int> {
        chained(text_rank(id.0), B::rank(id.1))
    }

    proof fn rank_injective(a: (Seq<char>, B::Id), b: (Seq<char>, B::Id)) {
        lemma_chained(text_rank(a.0), B::rank(a.1), text_rank(b.0), B::rank(b.1));
        lemma_text_rank_injective(a.0, b.0);
        B::rank_injective(a.1, b.1);
    }

    fn order(&self, other: &Self) -> (r: Position) {
        proof {
            lemma_chained(
                text_rank(self.0@),
                B::rank(self.1.id()),
                text_rank(other.0@),
                B::rank(other.1.id()),
            );
        }
        match order_text(self.0.as_str(), other.0.as_str()) {
            Position::Before => Position::Before,
            Position::After => Position::After,
            Position::Same => self.1.order(&other.1),
        }
    }

    fn copy(&self) -> (r: Self) {
        (self.0.clone(), self.1.copy())
    }
}

/// The entries for which `holds` holds.
pub open spec fn kept<I, V>(m: Map<I, V>, holds: spec_fn(I, V) -> bool) -> Map<I, V> {
    Map::new(|k: I| m.contains_key(k) && holds(k, m[k]), |k: I| m[k])
}

/// What the values of a map stand for, key by key.
pub open spec fn shown<K: MapKey, V: View>(m: SortedMap<K, V>) -> Map<K::Id, V::V> {
    Map::new(|k: K::Id| m@.contains_key(k), |k: K::Id| m@[k]@)
}

/// The sum of a measure over all entries.
pub open spec fn total<I, V>(s: Seq<(I, V)>, f: spec_fn(V) -> nat) -> nat
    decreases s.len(),
{
    if s.len() == 0 {
        0
    } else {
        total(s.drop_last(), f) + f(s.last().1)
    }
}

pub proof fn lemma_total_insert<I, V>(s: Seq<(I, V)>, i: int, x: (I, V), f: spec_fn(V) -> nat)
    requires
        0 <= i <= s.len(),
    ensures
        total(s.insert(i, x), f) == total(s, f) + f(x.1),
    decreases s.len(),
{
    let t = s.insert(i, x);
    if i == s.len() {
        assert(t.drop_last() =~= s);
    } else {
        lemma_total_insert(s.drop_last(), i, x, f);
        assert(t.drop_last() =~= s.drop_last().insert(i, x));
        assert(t.last() == s.last());
    }
}

pub proof fn lemma_total_remove<I, V>(s: Seq<(I, V)>, i: int, f: spec_fn(V) -> nat)
    requires
        0 <= i < s.len(),
    ensures
        total(s.remove(i), f) + f(s[i].1) == total(s, f),
{
    lemma_total_insert(s.remove(i), i, s[i], f);
    assert(s.remove(i).insert(i, s[i]) =~= s);
}

pub proof fn lemma_total_update<I, V>(s: Seq<(I, V)>, i: int, x: (I, V), f: spec_fn(V) -> nat)
    requires
        0 <= i < s.len(),
    ensures
        total(s.update(i, x), f) + f(s[i].1) == total(s, f) + f(x.1),
{
    lemma_total_remove(s, i, f);
    lemma_total_insert(s.remove(i), i, x, f);
    assert(s.remove(i).insert(i, x) =~= s.update(i, x));
}

/// The entries of a map in ascending order, values as what they stand for.
pub open spec fn listing<K: MapKey, V: View>(m: SortedMap<K, V>) -> Seq<(K::Id, V::V)> {
    Seq::new(m.sequence().len(), |i: int| (m.sequence()[i].0, m.sequence()[i].1@))
}

/// The entries of a map in ascending order of their keys.
pub open spec fn listing_of<K: MapKey, W>(m: Map<K::Id, W>) -> Seq<(K::Id, W)> {
    choose|s: Seq<(K::Id, W)>| ascending::<K, W>(s) && entry_map(s) == m
}

/// A map is listed in one way only.
pub proof fn lemma_listing_unique<K: MapKey, W>(s: Seq<(K::Id, W)>, t: Seq<(K::Id, W)>)
    requires
        ascending::<K, W>(s),
        ascending::<K, W>(t),
        entry_map(s) == entry_map(t),
    ensures
        s == t,
    decreases s.len(),
{
    lemma_ascending_unique::<K, W>(s);
    lemma_ascending_unique::<K, W>(t);
    if s.len() == 0 {
        if t.len() > 0 {
            lemma_entry(t, 0);
            assert(entry_map(s).contains_key(t[0].0));
        }
        assert(s =~= t);
    } else {
        let n = s.len() - 1;
        let x = s[n];
        lemma_entry(s, n);
        assert(entry_map(t).contains_key(x.0));
        let p = entry_index(t, x.0);
        assert(t[p].0 == x.0);
        lemma_entry(t, p);
        let m = t.len() - 1;
        if p < m {
            let y = t[m];
            lemma_entry(t, m);
            assert(entry_map(s).contains_key(y.0));
            let q = entry_index(s, y.0);
            assert(s[q].0 == y.0);
            assert(lex_lt(K::rank(t[p].0), K::rank(t[m].0)));
            lemma_lex_asymmetric(K::rank(x.0), K::rank(y.0));
            if q < n {
                assert(lex_lt(K::rank(s[q].0), K::rank(s[n].0)));
            }
            assert(false);
        }
        lemma_remove_entry::<K, W>(s, n);
        lemma_remove_entry::<K, W>(t, m);
        lemma_listing_unique::<K, W>(s.remove(n), t.remove(m));
        assert(s =~= s.remove(n).push(x));
        assert(t =~= t.remove(m).push(t[m]));
    }
}

/// A map's own listing is the listing of what it holds.
pub proof fn lemma_listing<K: MapKey, V: View>(m: SortedMap<K, V>)
    requires
        ascending::<K, V>(m.sequence()),
    ensures
        ascending::<K, V::V>(listing(m)),
        entry_map(listing(m)) == shown(m),
        listing_of::<K, V::V>(shown(m)) == listing(m),
{
    let s = m.sequence();
    let l = listing(m);
    assert(ascending::<K, V::V>(l)) by {
        assert forall|i: int, j: int| 0 <= i < j < l.len() implies lex_lt(
            K::rank((#[trigger] l[i]).0),
            K::rank((#[trigger] l[j]).0),
        ) by {
            assert(s[i].0 == l[i].0 && s[j].0 == l[j].0);
        }
    }
    lemma_ascending_unique::<K, V>(s);
    lemma_ascending_unique::<K, V::V>(l);
    assert forall|k: K::Id| entry_map(l).contains_key(k) == shown(m).contains_key(k) by {
        if has_entry(l, k) {
            let i = entry_index(l, k);
            assert(s[i].0 == k);
        }
        if has_entry(s, k) {
            let i = entry_index(s, k);
            assert(l[i].0 == k);
        }
    }
    assert forall|k: K::Id| entry_map(l).contains_key(k) implies entry_map(l)[k] == shown(m)[k] by {
        let i = entry_index(l, k);
        lemma_entry(s, i);
    }
    assert(entry_map(l) =~= shown(m));
    let c = listing_of::<K, V::V>(shown(m));
    assert(ascending::<K, V::V>(c) && entry_map(c) == shown(m));
    lemma_listing_unique::<K, V::V>(c, l);
}

/// Where a key goes in an ascending list that does not hold it.
proof fn lemma_room<K: MapKey, V>(s: Seq<(K::Id, V)>, key: K::Id) -> (i: int)
    requires
        ascending::<K, V>(s),
        !has_entry(s, key),
    ensures
        0 <= i <= s.len(),
        forall|j: int| 0 <= j < i ==> lex_lt(K::rank((#[trigger] s[j]).0), K::rank(key)),
        forall|j: int| i <= j < s.len() ==> lex_lt(K::rank(key), K::rank((#[trigger] s[j]).0)),
    decreases s.len(),
{
    if s.len() == 0 {
        0
    } else {
        let n = s.len() - 1;
        let t = s.drop_last();
        assert(s[n].0 != key);
        lemma_lex_total(K::rank(s[n].0), K::rank(key));
        if K::rank(s[n].0) == K::rank(key) {
            K::rank_injective(s[n].0, key);
        }
        if lex_lt(K::rank(s[n].0), K::rank(key)) {
            assert forall|j: int| 0 <= j < s.len() implies lex_lt(
                K::rank((#[trigger] s[j]).0),
                K::rank(key),
            ) by {
                if j < n {
                    lemma_lex_transitive(K::rank(s[j].0), K::rank(s[n].0), K::rank(key));
                }
            }
            s.len() as int
        } else {
            assert(ascending::<K, V>(t)) by {
                assert forall|a: int, b: int| 0 <= a < b < t.len() implies lex_lt(
                    K::rank((#[trigger] t[a]).0),
                    K::rank((#[trigger] t[b]).0),
                ) by {
                    assert(s[a] == t[a] && s[b] == t[b]);
                }
            }
            assert(!has_entry(t, key)) by {
                if has_entry(t, key) {
                    let a = choose|a: int| 0 <= a < t.len() && (#[trigger] t[a]).0 == key;
                    assert(s[a].0 == key);
                }
            }
            let i = lemma_room::<K, V>(t, key);
            assert forall|j: int| 0 <= j < i implies lex_lt(
                K::rank((#[trigger] s[j]).0),
                K::rank(key),
            ) by {
                assert(s[j] == t[j]);
            }
            assert forall|j: int| i <= j < s.len() implies lex_lt(
                K::rank(key),
                K::rank((#[trigger] s[j]).0),
            ) by {
                if j < n {
                    assert(s[j] == t[j]);
                }
            }
            i
        }
    }
}

/// Every finite map can be listed: the listing ascends and holds what the map holds.
pub proof fn lemma_listing_of<K: MapKey, W>(m: Map<K::Id, W>)
    requires
        m.dom().finite(),
    ensures
        ascending::<K, W>(listing_of::<K, W>(m)),
        entry_map(listing_of::<K, W>(m)) == m,
        forall|k: K::Id| #[trigger]
            m.contains_key(k) ==> listing_of::<K, W>(m).contains((k, m[k])),
        forall|i: int|
            0 <= i < listing_of::<K, W>(m).len() ==> m.contains_key(
                (#[trigger] listing_of::<K, W>(m)[i]).0,
            ) && m[listing_of::<K, W>(m)[i].0] == listing_of::<K, W>(m)[i].1,
    decreases m.dom().len(),
{
    if m.dom().len() == 0 {
        let s: Seq<(K::Id, W)> = Seq::empty();
        assert(m.dom() =~= Set::empty());
        assert(entry_map(s) =~= m);
        assert(ascending::<K, W>(s));
    } else {
        let key = m.dom().choose();
        let rest = m.remove(key);
        assert(rest.dom() =~= m.dom().remove(key));
        lemma_listing_of::<K, W>(rest);
        let t = listing_of::<K, W>(rest);
        assert(!has_entry(t, key)) by {
            if has_entry(t, key) {
                assert(entry_map(t).contains_key(key));
            }
        }
        let i = lemma_room::<K, W>(t, key);
        lemma_insert_entry::<K, W>(t, i, key, m[key]);
        let s = t.insert(i, (key, m[key]));
        assert(entry_map(s) =~= m);
        assert(ascending::<K, W>(s));
    }
    let l = listing_of::<K, W>(m);
    assert(ascending::<K, W>(l) && entry_map(l) == m);
    lemma_ascending_unique::<K, W>(l);
    assert forall|k: K::Id| #[trigger] m.contains_key(k) implies l.contains((k, m[k])) by {
        assert(entry_map(l).contains_key(k));
        let i = entry_index(l, k);
        assert(l[i].0 == k);
        lemma_entry(l, i);
    }
    assert forall|i: int| 0 <= i < l.len() implies m.contains_key((#[trigger] l[i]).0)
        && m[l[i].0] == l[i].1 by {
        lemma_entry(l, i);
    }
}

/// One entry counts for no more than all.
pub proof fn lemma_total_one<I, V>(s: Seq<(I, V)>, i: int, f: spec_fn(V) -> nat)
    requires
        0 <= i < s.len(),
    ensures
        f(s[i].1) <= total(s, f),
{
    lemma_total_remove(s, i, f);
}

/// The first entries count for no more than all.
pub proof fn lemma_total_prefix<I, V>(s: Seq<(I, V)>, n: int, f: spec_fn(V) -> nat)
    requires
        0 <= n <= s.len(),
    ensures
        total(s.subrange(0, n), f) <= total(s, f),
        n < s.len() ==> total(s.subrange(0, n + 1), f) == total(s.subrange(0, n), f) + f(s[n].1),
    decreases s.len(),
{
    if n < s.len() {
        assert(s.subrange(0, n + 1).drop_last() =~= s.subrange(0, n));
        lemma_total_prefix(s.drop_last(), n, f);
        assert(s.drop_last().subrange(0, n) =~= s.subrange(0, n));
    } else {
        assert(s.subrange(0, n) =~= s);
    }
}

} // verus!
