//! An association map that keeps its entries in insertion order.

use vstd::prelude::*;

verus! {

/// A key type with a mathematical model and an executable equality test on it.
pub trait MapKey: Sized {
    /// What two equal keys have in common.
    type Model;

    /// The model of a key.
    spec fn model(&self) -> Self::Model;

    /// Whether two keys have the same model.
    fn same(&self, other: &Self) -> (same: bool)
        ensures
            same == (self.model() == other.model()),
    ;
}

impl MapKey for u64 {
    type Model = u64;

    open spec fn model(&self) -> u64 {
        *self
    }

    fn same(&self, other: &Self) -> (same: bool) {
        *self == *other
    }
}

impl MapKey for String {
    type Model = Seq<char>;

    open spec fn model(&self) -> Seq<char> {
        self@
    }

    fn same(&self, other: &Self) -> (same: bool) {
        *self == *other
    }
}

/// An association map: at most one value per key, entries kept in the order in which their keys
/// were first inserted.
#[derive(Debug)]
pub struct AssocMap<K: MapKey, V> {
    entries: Vec<(K, V)>,
}

/// Whether some entry has the key `k`.
pub open spec fn has_key<K: MapKey, V>(entries: Seq<(K, V)>, k: K::Model) -> bool {
    exists|i: int| 0 <= i < entries.len() && (#[trigger] entries[i]).0.model() == k
}

/// The index of an entry with the key `k`.
pub open spec fn key_index<K: MapKey, V>(entries: Seq<(K, V)>, k: K::Model) -> int {
    choose|i: int| 0 <= i < entries.len() && (#[trigger] entries[i]).0.model() == k
}

/// Whether no two entries have the same key.
pub open spec fn distinct_keys<K: MapKey, V>(entries: Seq<(K, V)>) -> bool {
    forall|i: int, j: int|
        0 <= i < entries.len() && 0 <= j < entries.len() && (#[trigger] entries[i]).0.model() == (
        #[trigger] entries[j]).0.model() ==> i == j
}

/// The finite map that a sequence of entries with distinct keys stands for.
pub open spec fn entries_map<K: MapKey, V>(entries: Seq<(K, V)>) -> Map<K::Model, V> {
    Map::new(|k: K::Model| has_key(entries, k), |k: K::Model| entries[key_index(entries, k)].1)
}

/// Each entry of a sequence with distinct keys is in the map that the sequence stands for.
pub proof fn lemma_entry_in_map<K: MapKey, V>(entries: Seq<(K, V)>, i: int)
    requires
        distinct_keys(entries),
        0 <= i < entries.len(),
    ensures
        entries_map(entries).contains_key(entries[i].0.model()),
        entries_map(entries)[entries[i].0.model()] == entries[i].1,
{
    assert(has_key(entries, entries[i].0.model()));
    let j = key_index(entries, entries[i].0.model());
    assert(0 <= j < entries.len() && entries[j].0.model() == entries[i].0.model());
}

/// Appending an entry with a new key inserts it into the map that the sequence stands for.
pub proof fn lemma_push_entry<K: MapKey, V>(entries: Seq<(K, V)>, e: (K, V))
    requires
        distinct_keys(entries),
        !has_key(entries, e.0.model()),
    ensures
        distinct_keys(entries.push(e)),
        entries_map(entries.push(e)) == entries_map(entries).insert(e.0.model(), e.1),
{
    let k = e.0.model();
    let after = entries.push(e);
    assert(distinct_keys(after)) by {
        assert forall|a: int, b: int|
            0 <= a < after.len() && 0 <= b < after.len() && (#[trigger] after[a]).0.model() == (
            #[trigger] after[b]).0.model() implies a == b by {
            if a < entries.len() && b < entries.len() {
                assert(entries[a].0.model() == entries[b].0.model());
            } else if a < entries.len() {
                assert(entries[a].0.model() == k);
            } else if b < entries.len() {
                assert(entries[b].0.model() == k);
            }
        }
    }
    assert(after[entries.len() as int].0.model() == k);
    assert forall|x: K::Model| has_key(after, x) == (has_key(entries, x) || x == k) by {
        if has_key(entries, x) {
            let j = key_index(entries, x);
            assert(after[j].0.model() == x);
        }
        if has_key(after, x) && x != k {
            let j = key_index(after, x);
            assert(entries[j].0.model() == x);
        }
    }
    assert forall|x: K::Model| has_key(after, x) implies entries_map(after)[x] == entries_map(
        entries,
    ).insert(k, e.1)[x] by {
        let j = key_index(after, x);
        lemma_entry_in_map(after, j);
        if j < entries.len() {
            lemma_entry_in_map(entries, j);
            assert(entries[j].0.model() == x);
        }
    }
    assert(entries_map(after) =~= entries_map(entries).insert(k, e.1));
}

/// Without its last entry a sequence with distinct keys stands for the map without that key.
pub proof fn lemma_pop_entry<K: MapKey, V>(entries: Seq<(K, V)>)
    requires
        distinct_keys(entries),
        entries.len() > 0,
    ensures
        distinct_keys(entries.drop_last()),
        !has_key(entries.drop_last(), entries.last().0.model()),
        entries_map(entries) == entries_map(entries.drop_last()).insert(
            entries.last().0.model(),
            entries.last().1,
        ),
{
    let before = entries.drop_last();
    let k = entries.last().0.model();
    assert(distinct_keys(before)) by {
        assert forall|a: int, b: int|
            0 <= a < before.len() && 0 <= b < before.len() && (#[trigger] before[a]).0.model() == (
            #[trigger] before[b]).0.model() implies a == b by {
            assert(entries[a].0.model() == entries[b].0.model());
        }
    }
    if has_key(before, k) {
        let j = key_index(before, k);
        assert(entries[j].0.model() == entries[entries.len() - 1].0.model());
    }
    lemma_push_entry(before, entries.last());
    assert(before.push(entries.last()) =~= entries);
}

/// Distinct keys and the number of entries: the map has one key per entry.
pub proof fn lemma_map_len<K: MapKey, V>(entries: Seq<(K, V)>)
    requires
        distinct_keys(entries),
    ensures
        entries_map(entries).dom().finite(),
        entries_map(entries).dom().len() == entries.len(),
    decreases entries.len(),
{
    if entries.len() == 0 {
        assert(entries_map(entries).dom() =~= Set::<K::Model>::empty());
    } else {
        lemma_pop_entry(entries);
        lemma_map_len(entries.drop_last());
        let k = entries.last().0.model();
        assert(entries_map(entries).dom() =~= entries_map(entries.drop_last()).dom().insert(k));
    }
}

impl<K: MapKey, V> AssocMap<K, V> {
    /// The entries in insertion order.
    pub closed spec fn entries(&self) -> Seq<(K, V)> {
        self.entries@
    }

    /// The contents as a finite map.
    pub open spec fn view(&self) -> Map<K::Model, V> {
        entries_map(self.entries())
    }

    #[verifier::type_invariant]
    spec fn inv(&self) -> bool {
        distinct_keys(self.entries@)
    }

    /// The empty map.
    pub fn new() -> (map: Self)
        ensures
            map.entries() == Seq::<(K, V)>::empty(),
            map@ == Map::<K::Model, V>::empty(),
    {
        let map = AssocMap { entries: Vec::new() };
        assert(map@ =~= Map::<K::Model, V>::empty());
        map
    }

    /// The number of entries.
    pub fn len(&self) -> (n: usize)
        ensures
            n == self.entries().len(),
            n == self@.dom().len(),
            self@.dom().finite(),
            distinct_keys(self.entries()),
    {
        proof {
            use_type_invariant(self);
            lemma_map_len(self.entries@);
        }
        self.entries.len()
    }

    /// Whether there is no entry.
    pub fn is_empty(&self) -> (empty: bool)
        ensures
            empty == (self.entries().len() == 0),
            empty == (self@ == Map::<K::Model, V>::empty()),
    {
        if self.entries.len() == 0 {
            assert(self@ =~= Map::<K::Model, V>::empty());
            true
        } else {
            assert(has_key(self.entries@, self.entries@[0].0.model()));
            assert(self@.contains_key(self.entries@[0].0.model()));
            false
        }
    }

    /// The entry at the given position in insertion order.
    pub fn entry(&self, i: usize) -> (entry: &(K, V))
        requires
            i < self.entries().len(),
        ensures
            *entry == self.entries()[i as int],
            self@.contains_key(entry.0.model()),
            self@[entry.0.model()] == entry.1,
    {
        proof {
            use_type_invariant(self);
            lemma_entry_in_map(self.entries@, i as int);
        }
        &self.entries[i]
    }

    /// The position of the entry with the given key.
    fn find(&self, key: &K) -> (found: Option<usize>)
        ensures
            match found {
                Some(i) => i < self.entries().len() && self.entries()[i as int].0.model()
                    == key.model(),
                None => !has_key(self.entries(), key.model()),
            },
    {
        let mut i: usize = 0;
        while i < self.entries.len()
            invariant
                i <= self.entries@.len(),
                forall|j: int|
                    0 <= j < i ==> (#[trigger] self.entries@[j]).0.model() != key.model(),
            decreases self.entries@.len() - i,
        {
            if self.entries[i].0.same(key) {
                return Some(i);
            }
            i = i + 1;
        }
        None
    }

    /// The value of a key.
    pub fn lookup(&self, key: &K) -> (value: Option<&V>)
        ensures
            match value {
                Some(v) => self@.contains_key(key.model()) && self@[key.model()] == *v,
                None => !self@.contains_key(key.model()),
            },
    {
        match self.find(key) {
            Some(i) => {
                proof {
                    use_type_invariant(self);
                    lemma_entry_in_map(self.entries@, i as int);
                }
                Some(&self.entries[i].1)
            },
            None => None,
        }
    }

    /// Whether the key has a value.
    pub fn contains_key(&self, key: &K) -> (found: bool)
        ensures
            found == self@.contains_key(key.model()),
    {
        self.lookup(key).is_some()
    }

    /// Gives the key a value: in place where the key has one already, else as the last entry.
    pub fn insert(&mut self, key: K, value: V)
        ensures
            final(self)@ == old(self)@.insert(key.model(), value),
            !old(self)@.contains_key(key.model()) ==> final(self).entries()
                == old(self).entries().push((key, value)),
            old(self)@.contains_key(key.model()) ==> {
                let i = key_index(old(self).entries(), key.model());
                final(self).entries() == old(self).entries().update(
                    i,
                    (old(self).entries()[i].0, value),
                )
            },
    {
        proof {
            use_type_invariant(&*self);
        }
        let ghost before = self.entries@;
        let found = self.find(&key);
        let mut entries: Vec<(K, V)> = Vec::new();
        core::mem::swap(&mut entries, &mut self.entries);
        match found {
            Some(i) => {
                let ghost k = key.model();
                let (kept, _) = entries.remove(i);
                entries.insert(i, (kept, value));
                proof {
                    let after = entries@;
                    assert(after =~= before.update(i as int, (before[i as int].0, value)));
                    assert(has_key(before, k));
                    assert(key_index(before, k) == i);
                    assert forall|x: K::Model| has_key(after, x) == has_key(before, x) by {
                        if has_key(before, x) {
                            let j = key_index(before, x);
                            assert(after[j].0.model() == x);
                        }
                        if has_key(after, x) {
                            let j = key_index(after, x);
                            assert(before[j].0.model() == x);
                        }
                    }
                    assert(distinct_keys(after)) by {
                        assert forall|a: int, b: int|
                            0 <= a < after.len() && 0 <= b < after.len() && (#[trigger] after[a]).0.model()
                                == (#[trigger] after[b]).0.model() implies a == b by {
                            assert(before[a].0.model() == before[b].0.model());
                        }
                    }
                    assert forall|x: K::Model| has_key(after, x) implies entries_map(after)[x]
                        == entries_map(before).insert(k, value)[x] by {
                        let j = key_index(after, x);
                        lemma_entry_in_map(after, j);
                        lemma_entry_in_map(before, j);
                        assert(before[j].0.model() == x);
                    }
                    assert(entries_map(after) =~= entries_map(before).insert(k, value));
                }
            },
            None => {
                let ghost pushed = (key, value);
                entries.push((key, value));
                proof {
                    let after = entries@;
                    assert(after =~= before.push(pushed));
                    lemma_push_entry(before, pushed);
                }
            },
        }
        self.entries = entries;
    }

    /// Gives each key of `other` the value that it has there.
    pub fn extend(&mut self, other: AssocMap<K, V>)
        ensures
            final(self)@ == old(self)@.union_prefer_right(other@),
    {
        proof {
            use_type_invariant(&other);
        }
        let ghost all = other.entries@;
        let mut rest = other.entries;
        while rest.len() > 0
            invariant
                distinct_keys(rest@),
                self@.union_prefer_right(entries_map(rest@)) == old(self)@.union_prefer_right(
                    entries_map(all),
                ),
            decreases rest@.len(),
        {
            let ghost before = rest@;
            proof {
                lemma_pop_entry(before);
            }
            match rest.pop() {
                Some((k, v)) => {
                    let ghost key = k.model();
                    let ghost prior = self@;
                    self.insert(k, v);
                    assert(rest@ == before.drop_last());
                    assert(self@.union_prefer_right(entries_map(rest@)) =~= prior.union_prefer_right(
                        entries_map(before),
                    ));
                },
                None => {},
            }
        }
        assert(entries_map(rest@) =~= Map::<K::Model, V>::empty());
        assert(self@.union_prefer_right(entries_map(rest@)) =~= self@);
    }

    /// Removes the key and gives back its value.
    pub fn remove(&mut self, key: &K) -> (value: Option<V>)
        ensures
            final(self)@ == old(self)@.remove(key.model()),
            match value {
                Some(v) => old(self)@.contains_key(key.model()) && old(self)@[key.model()] == v
                    && final(self).entries() == old(self).entries().remove(
                    key_index(old(self).entries(), key.model()),
                ),
                None => !old(self)@.contains_key(key.model()) && final(self).entries() == old(
                    self,
                ).entries(),
            },
    {
        proof {
            use_type_invariant(&*self);
        }
        let ghost before = self.entries@;
        match self.find(key) {
            Some(i) => {
                let mut entries: Vec<(K, V)> = Vec::new();
                core::mem::swap(&mut entries, &mut self.entries);
                let (_, value) = entries.remove(i);
                proof {
                    let k = key.model();
                    let after = entries@;
                    assert(has_key(before, k));
                    assert(key_index(before, k) == i);
                    lemma_entry_in_map(before, i as int);
                    assert(distinct_keys(after)) by {
                        assert forall|a: int, b: int|
                            0 <= a < after.len() && 0 <= b < after.len() && (#[trigger] after[a]).0.model()
                                == (#[trigger] after[b]).0.model() implies a == b by {
                            let x = if a < i { a } else { a + 1 };
                            let y = if b < i { b } else { b + 1 };
                            assert(before[x].0.model() == before[y].0.model());
                        }
                    }
                    assert forall|x: K::Model|
                        has_key(after, x) == (has_key(before, x) && x != k) by {
                        if has_key(before, x) && x != k {
                            let j = key_index(before, x);
                            let y = if j < i { j } else { j - 1 };
                            assert(after[y].0.model() == x);
                        }
                        if has_key(after, x) {
                            let j = key_index(after, x);
                            let y = if j < i { j } else { j + 1 };
                            assert(before[y].0.model() == x);
                        }
                    }
                    assert forall|x: K::Model| has_key(after, x) implies entries_map(after)[x]
                        == entries_map(before)[x] by {
                        let j = key_index(after, x);
                        let y = if j < i { j } else { j + 1 };
                        lemma_entry_in_map(after, j);
                        lemma_entry_in_map(before, y);
                        assert(before[y].0.model() == x);
                    }
                    assert(entries_map(after) =~= entries_map(before).remove(k));
                }
                self.entries = entries;
                Some(value)
            },
            None => {
                assert(entries_map(before) =~= entries_map(before).remove(key.model()));
                None
            },
        }
    }
}

impl<V> AssocMap<String, V> {
    /// The value of a text key.
    pub fn get(&self, key: &str) -> (value: Option<&V>)
        ensures
            match value {
                Some(v) => self@.contains_key(key@) && self@[key@] == *v,
                None => !self@.contains_key(key@),
            },
    {
        let owned = key.to_owned();
        self.lookup(&owned)
    }
}

} // verus!
