//! Collections of strings kept in code-point order without duplicates.

use std::sync::Arc;

use vstd::prelude::*;

use crate::text::{compare, Order};

verus! {

/// Every key comes strictly before the keys after it.
pub open spec fn ascending(keys: Seq<Seq<char>>) -> bool {
    forall|i: int, j: int|
        0 <= i < j < keys.len() ==> crate::text::precedes(#[trigger] keys[i], #[trigger] keys[j])
}

/// In an ascending sequence a key occurs once.
pub proof fn lemma_ascending_distinct(keys: Seq<Seq<char>>, i: int, j: int)
    requires
        ascending(keys),
        0 <= i < keys.len(),
        0 <= j < keys.len(),
        keys[i] == keys[j],
    ensures
        i == j,
{
    crate::text::lemma_precedes_irreflexive(keys[i]);
}

/// `list` holds exactly the members of `set`, in order.
pub open spec fn is_listing(list: Seq<Seq<char>>, set: Set<Seq<char>>) -> bool {
    &&& ascending(list)
    &&& forall|key: Seq<char>| #[trigger] list.contains(key) <==> set.contains(key)
}

/// The members of `set` in order.
pub open spec fn listing(set: Set<Seq<char>>) -> Seq<Seq<char>> {
    choose|list: Seq<Seq<char>>| is_listing(list, set)
}

/// A set has one listing.
pub proof fn lemma_listing(list: Seq<Seq<char>>, set: Set<Seq<char>>)
    requires
        is_listing(list, set),
    ensures
        listing(set) == list,
{
    lemma_same_listing(listing(set), list, set);
}

/// Where a key has to go so that an ascending sequence stays ascending.
proof fn lemma_slot(list: Seq<Seq<char>>, key: Seq<char>) -> (slot: int)
    requires
        ascending(list),
        !list.contains(key),
    ensures
        0 <= slot <= list.len(),
        forall|i: int| 0 <= i < slot ==> crate::text::precedes(#[trigger] list[i], key),
        forall|i: int| slot <= i < list.len() ==> crate::text::precedes(key, #[trigger] list[i]),
    decreases list.len(),
{
    if list.len() == 0 {
        0
    } else {
        let last = list.len() - 1;
        assert(list.contains(list[last]));
        crate::text::lemma_precedes_total(list[last], key);
        if crate::text::precedes(list[last], key) {
            assert forall|i: int| 0 <= i < list.len() implies crate::text::precedes(
                #[trigger] list[i],
                key,
            ) by {
                if i < last {
                    crate::text::lemma_precedes_transitive(list[i], list[last], key);
                }
            }
            list.len() as int
        } else {
            let front = list.drop_last();
            if front.contains(key) {
                assert(list[front.index_of(key)] == key);
            }
            let slot = lemma_slot(front, key);
            assert forall|i: int| 0 <= i < slot implies crate::text::precedes(
                #[trigger] list[i],
                key,
            ) by {
                assert(front[i] == list[i]);
            }
            assert forall|i: int| slot <= i < list.len() implies crate::text::precedes(
                key,
                #[trigger] list[i],
            ) by {
                if i < last {
                    assert(front[i] == list[i]);
                }
            }
            slot
        }
    }
}

/// A finite set has a listing.
pub proof fn lemma_finite_listing(set: Set<Seq<char>>)
    requires
        set.finite(),
    ensures
        is_listing(listing(set), set),
    decreases set.len(),
{
    if set.len() == 0 {
        let none = Seq::<Seq<char>>::empty();
        assert(set =~= Set::<Seq<char>>::empty());
        assert(is_listing(none, set));
    } else {
        let key = set.choose();
        let rest = set.remove(key);
        lemma_finite_listing(rest);
        let list = listing(rest);
        let slot = lemma_slot(list, key);
        let whole = list.insert(slot, key);
        assert forall|k: Seq<char>| #[trigger] whole.contains(k) <==> set.contains(k) by {
            if list.contains(k) {
                let i = list.index_of(k);
                if i < slot {
                    assert(whole[i] == k);
                } else {
                    assert(whole[i + 1] == k);
                }
            }
            assert(whole[slot] == key);
            if whole.contains(k) && k != key {
                let i = whole.index_of(k);
                if i < slot {
                    assert(list[i] == k);
                } else {
                    assert(list[i - 1] == k);
                }
            }
        }
        assert(is_listing(whole, set));
    }
}

proof fn lemma_same_listing(a: Seq<Seq<char>>, b: Seq<Seq<char>>, set: Set<Seq<char>>)
    requires
        is_listing(a, set),
        is_listing(b, set),
    ensures
        a == b,
    decreases a.len(),
{
    if a.len() == 0 {
        if b.len() > 0 {
            assert(b.contains(b[0]));
            assert(a.contains(b[0]));
        }
        assert(a =~= b);
    } else {
        assert(a.contains(a.last()));
        assert(b.contains(a.last()));
        assert(b.contains(b.last()));
        assert(a.contains(b.last()));
        let i = a.index_of(b.last());
        let j = b.index_of(a.last());
        assert(a.last() == b.last()) by {
            crate::text::lemma_precedes_irreflexive(a.last());
            if i < a.len() - 1 && j < b.len() - 1 {
                assert(crate::text::precedes(a[i], a[a.len() - 1]));
                assert(crate::text::precedes(b[j], b[b.len() - 1]));
                crate::text::lemma_precedes_transitive(a.last(), b.last(), a.last());
            }
        }
        let rest = set.remove(a.last());
        lemma_listing_drop_last(a, set);
        lemma_listing_drop_last(b, set);
        lemma_same_listing(a.drop_last(), b.drop_last(), rest);
        assert(a =~= a.drop_last().push(a.last()));
        assert(b =~= b.drop_last().push(b.last()));
    }
}

proof fn lemma_listing_drop_last(list: Seq<Seq<char>>, set: Set<Seq<char>>)
    requires
        is_listing(list, set),
        list.len() > 0,
    ensures
        is_listing(list.drop_last(), set.remove(list.last())),
{
    let front = list.drop_last();
    assert forall|key: Seq<char>| #[trigger] front.contains(key) <==> set.remove(
        list.last(),
    ).contains(key) by {
        if front.contains(key) {
            let i = front.index_of(key);
            assert(list[i] == key);
            assert(list.contains(key));
            if key == list.last() {
                lemma_ascending_distinct(list, i, list.len() - 1);
            }
        }
        if set.contains(key) && key != list.last() {
            assert(list.contains(key));
            let i = list.index_of(key);
            assert(front[i] == key);
        }
    }
}

/// A map from strings to values whose keys are kept in order.
#[derive(Debug, PartialEq, Eq)]
pub struct StringMap<V> {
    entries: Vec<(String, V)>,
}

impl<V> StringMap<V> {
    /// The keys in order.
    pub closed spec fn keys(&self) -> Seq<Seq<char>> {
        Seq::new(self.entries@.len(), |i: int| self.entries@[i].0@)
    }

    /// The values in the order of their keys.
    pub closed spec fn values(&self) -> Seq<V> {
        Seq::new(self.entries@.len(), |i: int| self.entries@[i].1)
    }

    /// The keys are in order and each has one value.
    pub open spec fn wf(&self) -> bool {
        &&& ascending(self.keys())
        &&& self.values().len() == self.keys().len()
    }
}

impl<V> View for StringMap<V> {
    type V = Map<Seq<char>, V>;

    open spec fn view(&self) -> Map<Seq<char>, V> {
        Map::new(
            |key: Seq<char>| self.keys().contains(key),
            |key: Seq<char>| self.values()[self.keys().index_of(key)],
        )
    }
}

impl<V: DeepView> DeepView for StringMap<V> {
    type V = Map<Seq<char>, V::V>;

    open spec fn deep_view(&self) -> Map<Seq<char>, V::V> {
        Map::new(
            |key: Seq<char>| self@.dom().contains(key),
            |key: Seq<char>| self@[key].deep_view(),
        )
    }
}

/// A key's value in the map is the value at the key's position.
pub proof fn lemma_map_at<V>(map: StringMap<V>, i: int)
    requires
        map.wf(),
        0 <= i < map.keys().len(),
    ensures
        map@.dom().contains(map.keys()[i]),
        map@[map.keys()[i]] == map.values()[i],
{
    let keys = map.keys();
    assert(keys.contains(keys[i]));
    let j = keys.index_of(keys[i]);
    lemma_ascending_distinct(keys, i, j);
}

/// The keys of a map list its domain.
pub proof fn lemma_keys<V>(map: StringMap<V>)
    requires
        map.wf(),
    ensures
        is_listing(map.keys(), map@.dom()),
        map@.dom().finite(),
        map@.dom().len() == map.keys().len(),
{
    let keys = map.keys();
    assert forall|i: int, j: int|
        0 <= i < keys.len() && 0 <= j < keys.len() && i != j implies keys[i] != keys[j] by {
        if keys[i] == keys[j] {
            lemma_ascending_distinct(keys, i, j);
        }
    }
    keys.unique_seq_to_set();
    assert(map@.dom() =~= keys.to_set());
}

/// A key of the map has a position.
pub proof fn lemma_map_position<V>(map: StringMap<V>, key: Seq<char>) -> (i: int)
    requires
        map.wf(),
        map@.dom().contains(key),
    ensures
        0 <= i < map.keys().len(),
        map.keys()[i] == key,
        map.values()[i] == map@[key],
{
    map.keys().index_of(key)
}

impl<V> StringMap<V> {
    /// Creates an empty map.
    pub fn new() -> (result: Self)
        ensures
            result.wf(),
            result.keys() == Seq::<Seq<char>>::empty(),
            result@ == Map::<Seq<char>, V>::empty(),
    {
        let result = StringMap { entries: Vec::new() };
        proof {
            assert(result.keys() =~= Seq::<Seq<char>>::empty());
            assert(result@ =~= Map::<Seq<char>, V>::empty());
        }
        result
    }

    /// Returns the number of keys.
    pub fn len(&self) -> (result: usize)
        ensures
            result == self.keys().len(),
            result == self.values().len(),
    {
        self.entries.len()
    }

    /// Reports whether the map has no keys.
    pub fn is_empty(&self) -> (result: bool)
        ensures
            result == (self.keys().len() == 0),
    {
        self.entries.len() == 0
    }

    /// Returns the key at a position.
    pub fn key_at(&self, index: usize) -> (result: &String)
        requires
            index < self.keys().len(),
        ensures
            result@ == self.keys()[index as int],
    {
        &self.entries[index].0
    }

    /// Returns the value at a position.
    pub fn value_at(&self, index: usize) -> (result: &V)
        requires
            index < self.keys().len(),
        ensures
            *result == self.values()[index as int],
    {
        &self.entries[index].1
    }

    /// Returns where `key` is, or where it would have to be inserted.
    fn search(&self, key: &str) -> (result: Result<usize, usize>)
        requires
            self.wf(),
        ensures
            match result {
                Ok(i) => i < self.keys().len() && self.keys()[i as int] == key@,
                Err(i) => {
                    &&& i <= self.keys().len()
                    &&& !self.keys().contains(key@)
                    &&& forall|j: int|
                        0 <= j < i ==> crate::text::precedes(#[trigger] self.keys()[j], key@)
                    &&& forall|j: int|
                        i <= j < self.keys().len() ==> crate::text::precedes(
                            key@,
                            #[trigger] self.keys()[j],
                        )
                },
            },
    {
        let mut low: usize = 0;
        let mut high: usize = self.entries.len();
        while low < high
            invariant
                self.wf(),
                self.keys().len() == self.entries@.len(),
                low <= high <= self.keys().len(),
                forall|j: int|
                    0 <= j < low ==> crate::text::precedes(#[trigger] self.keys()[j], key@),
                forall|j: int|
                    high <= j < self.keys().len() ==> crate::text::precedes(
                        key@,
                        #[trigger] self.keys()[j],
                    ),
            decreases high - low,
        {
            let middle: usize = low + (high - low) / 2;
            let order = compare(self.entries[middle].0.as_str(), key);
            assert(self.keys()[middle as int] == self.entries@[middle as int].0@);
            match order {
                Order::Same => {
                    return Ok(middle);
                },
                Order::Before => {
                    proof {
                        assert forall|j: int| 0 <= j < middle + 1 implies crate::text::precedes(
                            #[trigger] self.keys()[j],
                            key@,
                        ) by {
                            if j < middle {
                                crate::text::lemma_precedes_transitive(
                                    self.keys()[j],
                                    self.keys()[middle as int],
                                    key@,
                                );
                            }
                        }
                    }
                    low = middle + 1;
                },
                Order::After => {
                    proof {
                        crate::text::lemma_precedes_total(self.keys()[middle as int], key@);
                        assert forall|j: int|
                            middle <= j < self.keys().len() implies crate::text::precedes(
                            key@,
                            #[trigger] self.keys()[j],
                        ) by {
                            if j > middle {
                                crate::text::lemma_precedes_transitive(
                                    key@,
                                    self.keys()[middle as int],
                                    self.keys()[j],
                                );
                            }
                        }
                    }
                    high = middle;
                },
            }
        }
        proof {
            if self.keys().contains(key@) {
                crate::text::lemma_precedes_irreflexive(key@);
                let j = self.keys().index_of(key@);
                assert(self.keys()[j] == key@);
            }
        }
        Err(low)
    }

    /// Returns the position of `key`.
    pub fn position(&self, key: &str) -> (result: Option<usize>)
        requires
            self.wf(),
        ensures
            match result {
                Some(i) => {
                    &&& i < self.keys().len()
                    &&& self.keys()[i as int] == key@
                    &&& self@.dom().contains(key@)
                    &&& self@[key@] == self.values()[i as int]
                },
                None => !self@.dom().contains(key@),
            },
    {
        match self.search(key) {
            Ok(i) => {
                proof {
                    lemma_map_at(*self, i as int);
                }
                Some(i)
            },
            Err(_) => None,
        }
    }

    /// Reports whether `key` has a value.
    pub fn contains_key(&self, key: &str) -> (result: bool)
        requires
            self.wf(),
        ensures
            result == self@.dom().contains(key@),
    {
        self.position(key).is_some()
    }

    /// Returns the value of `key`.
    pub fn get(&self, key: &str) -> (result: Option<&V>)
        requires
            self.wf(),
        ensures
            match result {
                Some(value) => self@.dom().contains(key@) && *value == self@[key@],
                None => !self@.dom().contains(key@),
            },
    {
        match self.position(key) {
            Some(i) => Some(&self.entries[i].1),
            None => None,
        }
    }

    /// Returns the value at a position for changing it in place.
    pub fn value_at_mut(&mut self, index: usize) -> (result: &mut V)
        requires
            old(self).wf(),
            index < old(self).keys().len(),
        ensures
            *result == old(self).values()[index as int],
            final(self).wf(),
            final(self).keys() == old(self).keys(),
            final(self).values() == old(self).values().update(index as int, *final(result)),
            final(self)@ == old(self)@.insert(old(self).keys()[index as int], *final(result)),
    {
        proof {
            let entry = self.entries@[index as int];
            assert forall|after: StringMap<V>|
                #![trigger after.entries@]
                after.entries@ == self.entries@.update(
                    index as int,
                    (entry.0, after.entries@[index as int].1),
                ) implies after.wf() && after@ == self@.insert(
                self.keys()[index as int],
                after.entries@[index as int].1,
            ) by {
                let value = after.entries@[index as int].1;
                assert(after.keys() =~= self.keys());
                assert(after.values() =~= self.values().update(index as int, value));
                lemma_updated(*self, after, index as int, value);
            }
        }
        &mut self.entries[index].1
    }

    /// Replaces the value at a position.
    pub fn set_at(&mut self, index: usize, value: V)
        requires
            old(self).wf(),
            index < old(self).keys().len(),
        ensures
            final(self).wf(),
            final(self).keys() == old(self).keys(),
            final(self).values() == old(self).values().update(index as int, value),
            final(self)@ == old(self)@.insert(old(self).keys()[index as int], value),
    {
        let key = self.entries[index].0.clone();
        self.entries.set(index, (key, value));
        proof {
            assert(self.keys() =~= old(self).keys());
            assert(self.values() =~= old(self).values().update(index as int, value));
            lemma_updated(*old(self), *self, index as int, value);
        }
    }

    /// Gives `key` a value, replacing the one it had.
    pub fn insert(&mut self, key: String, value: V)
        requires
            old(self).wf(),
        ensures
            final(self).wf(),
            final(self)@ == old(self)@.insert(key@, value),
            old(self)@.dom().contains(key@) ==> final(self).keys() == old(self).keys(),
            !old(self)@.dom().contains(key@) ==> final(self).keys().len() == old(
                self,
            ).keys().len() + 1,
    {
        match self.search(key.as_str()) {
            Ok(i) => {
                self.set_at(i, value);
            },
            Err(i) => {
                let ghost before = *self;
                let ghost name = key@;
                self.entries.insert(i, (key, value));
                proof {
                    assert(self.keys() =~= before.keys().insert(i as int, name));
                    assert(self.values() =~= before.values().insert(i as int, value));
                    lemma_inserted(before, *self, i as int, name, value);
                }
            },
        }
    }

    /// Takes `key` out of the map and returns its value.
    pub fn remove(&mut self, key: &str) -> (result: Option<V>)
        requires
            old(self).wf(),
        ensures
            final(self).wf(),
            final(self)@ == old(self)@.remove(key@),
            match result {
                Some(value) => old(self)@.dom().contains(key@) && value == old(self)@[key@],
                None => !old(self)@.dom().contains(key@) && *final(self) == *old(self),
            },
    {
        match self.search(key) {
            Ok(i) => {
                let ghost before = *self;
                let (_, value) = self.entries.remove(i);
                proof {
                    lemma_map_at(before, i as int);
                    assert(self.keys() =~= before.keys().remove(i as int));
                    assert(self.values() =~= before.values().remove(i as int));
                    lemma_removed(before, *self, i as int);
                }
                Some(value)
            },
            Err(_) => {
                proof {
                    assert(self@.remove(key@) =~= self@);
                }
                None
            },
        }
    }
}

impl<V> StringMap<V> {
    /// Puts every value behind a shared handle.
    pub fn into_shared(self) -> (result: StringMap<Arc<V>>)
        ensures
            result.keys() == self.keys(),
            result.values().len() == self.values().len(),
            forall|i: int|
                0 <= i < self.values().len() ==> *#[trigger] result.values()[i] == self.values()[i],
    {
        let ghost before = self.entries@;
        let mut entries: Vec<(String, Arc<V>)> = Vec::new();
        for entry in iter: self.entries
            invariant
                iter.seq() == before,
                entries@.len() == iter.index(),
                forall|j: int|
                    0 <= j < entries@.len() ==> {
                        &&& (#[trigger] entries@[j]).0@ == before[j].0@
                        &&& *entries@[j].1 == before[j].1
                    },
        {
            let (key, value) = entry;
            entries.push((key, Arc::new(value)));
        }
        let result = StringMap { entries };
        assert(result.keys() =~= self.keys());
        result
    }
}

/// Changing the value at a position changes exactly its key's value.
proof fn lemma_updated<V>(before: StringMap<V>, after: StringMap<V>, i: int, value: V)
    requires
        before.wf(),
        0 <= i < before.keys().len(),
        after.keys() == before.keys(),
        after.values() == before.values().update(i, value),
    ensures
        after.wf(),
        after@ == before@.insert(before.keys()[i], value),
{
    let keys = before.keys();
    let key = keys[i];
    assert(keys.contains(key));
    assert forall|k: Seq<char>| #[trigger] keys.contains(k) implies after@[k] == before@.insert(
        key,
        value,
    )[k] by {
        if k == key {
            lemma_ascending_distinct(keys, i, keys.index_of(k));
        }
    }
    assert(after@ =~= before@.insert(key, value));
}

/// Inserting a new key between its neighbours adds exactly that key.
proof fn lemma_inserted<V>(
    before: StringMap<V>,
    after: StringMap<V>,
    i: int,
    key: Seq<char>,
    value: V,
)
    requires
        before.wf(),
        0 <= i <= before.keys().len(),
        !before.keys().contains(key),
        forall|j: int| 0 <= j < i ==> crate::text::precedes(#[trigger] before.keys()[j], key),
        forall|j: int|
            i <= j < before.keys().len() ==> crate::text::precedes(key, #[trigger] before.keys()[j]),
        after.keys() == before.keys().insert(i, key),
        after.values() == before.values().insert(i, value),
    ensures
        after.wf(),
        after@ == before@.insert(key, value),
{
    let old_keys = before.keys();
    let keys = after.keys();
    assert forall|a: int, b: int| 0 <= a < b < keys.len() implies crate::text::precedes(
        #[trigger] keys[a],
        #[trigger] keys[b],
    ) by {
        let x = if a < i {
            a
        } else {
            a - 1
        };
        let y = if b < i {
            b
        } else {
            b - 1
        };
        if a != i && b != i {
            assert(keys[a] == old_keys[x]);
            assert(keys[b] == old_keys[y]);
        } else if a == i {
            assert(keys[b] == old_keys[y]);
        } else {
            assert(keys[a] == old_keys[x]);
        }
    }
    assert(keys[i] == key);
    assert forall|k: Seq<char>| keys.contains(k) <==> (old_keys.contains(k) || k == key) by {
        if keys.contains(k) {
            let a = keys.index_of(k);
            if a < i {
                assert(old_keys[a] == k);
            } else if a > i {
                assert(old_keys[a - 1] == k);
            }
        }
        if old_keys.contains(k) {
            let a = old_keys.index_of(k);
            if a < i {
                assert(keys[a] == k);
            } else {
                assert(keys[a + 1] == k);
            }
        }
    }
    assert forall|k: Seq<char>| keys.contains(k) implies #[trigger] after@[k] == before@.insert(
        key,
        value,
    )[k] by {
        let a = keys.index_of(k);
        lemma_map_at(after, a);
        if k == key {
            lemma_ascending_distinct(keys, a, i);
        } else if a < i {
            lemma_map_at(before, a);
        } else {
            lemma_map_at(before, a - 1);
        }
    }
    assert(after@ =~= before@.insert(key, value));
}

/// Removing the entry at a position removes exactly its key.
proof fn lemma_removed<V>(before: StringMap<V>, after: StringMap<V>, i: int)
    requires
        before.wf(),
        0 <= i < before.keys().len(),
        after.keys() == before.keys().remove(i),
        after.values() == before.values().remove(i),
    ensures
        after.wf(),
        after@ == before@.remove(before.keys()[i]),
{
    let old_keys = before.keys();
    let keys = after.keys();
    let key = old_keys[i];
    assert forall|a: int, b: int| 0 <= a < b < keys.len() implies crate::text::precedes(
        #[trigger] keys[a],
        #[trigger] keys[b],
    ) by {
        let x = if a < i {
            a
        } else {
            a + 1
        };
        let y = if b < i {
            b
        } else {
            b + 1
        };
        assert(keys[a] == old_keys[x]);
        assert(keys[b] == old_keys[y]);
    }
    assert forall|k: Seq<char>| keys.contains(k) <==> (old_keys.contains(k) && k != key) by {
        if keys.contains(k) {
            let a = keys.index_of(k);
            let x = if a < i {
                a
            } else {
                a + 1
            };
            assert(old_keys[x] == k);
            if k == key {
                lemma_ascending_distinct(old_keys, x, i);
            }
        }
        if old_keys.contains(k) && k != key {
            let x = old_keys.index_of(k);
            let a = if x < i {
                x
            } else {
                x - 1
            };
            assert(keys[a] == k);
        }
    }
    assert forall|k: Seq<char>| keys.contains(k) implies #[trigger] after@[k] == before@.remove(
        key,
    )[k] by {
        let a = keys.index_of(k);
        lemma_map_at(after, a);
        if a < i {
            lemma_map_at(before, a);
        } else {
            lemma_map_at(before, a + 1);
        }
    }
    assert(after@ =~= before@.remove(key));
}

impl<V: Clone> Clone for StringMap<V> {
    fn clone(&self) -> (result: Self)
        ensures
            result.keys() == self.keys(),
            result.values().len() == self.values().len(),
            forall|i: int|
                0 <= i < self.values().len() ==> cloned::<V>(
                    #[trigger] self.values()[i],
                    result.values()[i],
                ),
    {
        let mut entries: Vec<(String, V)> = Vec::new();
        let count = self.entries.len();
        let mut i: usize = 0;
        while i < count
            invariant
                count == self.entries@.len(),
                i <= count,
                entries@.len() == i,
                forall|j: int|
                    0 <= j < i ==> {
                        &&& (#[trigger] entries@[j]).0@ == self.entries@[j].0@
                        &&& cloned::<V>(self.entries@[j].1, entries@[j].1)
                    },
            decreases count - i,
        {
            entries.push((self.entries[i].0.clone(), self.entries[i].1.clone()));
            i = i + 1;
        }
        let result = StringMap { entries };
        proof {
            assert(result.keys() =~= self.keys());
            assert forall|i: int| 0 <= i < self.values().len() implies cloned::<V>(
                #[trigger] self.values()[i],
                result.values()[i],
            ) by {
                assert(cloned::<V>(self.entries@[i].1, entries@[i].1));
            }
        }
        result
    }
}

/// A set of strings kept in order.
#[derive(Debug, PartialEq, Eq)]
pub struct StringSet {
    items: StringMap<()>,
}

impl StringSet {
    /// The members in order.
    pub closed spec fn members(&self) -> Seq<Seq<char>> {
        self.items.keys()
    }

    /// The members are in order.
    pub closed spec fn wf(&self) -> bool {
        self.items.wf()
    }
}

impl View for StringSet {
    type V = Set<Seq<char>>;

    open spec fn view(&self) -> Set<Seq<char>> {
        Set::new(|member: Seq<char>| self.members().contains(member))
    }
}

impl DeepView for StringSet {
    type V = Set<Seq<char>>;

    open spec fn deep_view(&self) -> Set<Seq<char>> {
        self@
    }
}

impl StringSet {
    /// The members of a well-formed set ascend.
    pub proof fn lemma_members(&self)
        requires
            self.wf(),
        ensures
            ascending(self.members()),
    {
    }

    /// A set has as many members as its listing.
    pub proof fn lemma_len(&self)
        requires
            self.wf(),
        ensures
            self@.finite(),
            self@.len() == self.members().len(),
    {
        lemma_keys(self.items);
        assert(self@ =~= self.items@.dom());
    }

    /// Creates an empty set.
    pub fn new() -> (result: Self)
        ensures
            result.wf(),
            result.members() == Seq::<Seq<char>>::empty(),
            result@ == Set::<Seq<char>>::empty(),
    {
        let result = StringSet { items: StringMap::new() };
        assert(result@ =~= Set::<Seq<char>>::empty());
        result
    }

    /// Returns the number of members.
    pub fn len(&self) -> (result: usize)
        ensures
            result == self.members().len(),
    {
        self.items.len()
    }

    /// Reports whether the set has no members.
    pub fn is_empty(&self) -> (result: bool)
        ensures
            result == (self.members().len() == 0),
            result == (self@ == Set::<Seq<char>>::empty()),
    {
        proof {
            if self.members().len() > 0 {
                assert(self.members().contains(self.members()[0]));
                assert(self@.contains(self.members()[0]));
            } else {
                assert(self@ =~= Set::<Seq<char>>::empty());
            }
        }
        self.items.is_empty()
    }

    /// Returns the member at a position.
    pub fn at(&self, index: usize) -> (result: &String)
        requires
            index < self.members().len(),
        ensures
            result@ == self.members()[index as int],
            self@.contains(result@),
    {
        proof {
            assert(self.members().contains(self.members()[index as int]));
        }
        self.items.key_at(index)
    }

    /// Reports whether `member` is in the set.
    pub fn contains(&self, member: &str) -> (result: bool)
        requires
            self.wf(),
        ensures
            result == self@.contains(member@),
    {
        self.items.contains_key(member)
    }

    /// Adds `member` and reports whether it was new.
    pub fn insert(&mut self, member: String) -> (result: bool)
        requires
            old(self).wf(),
        ensures
            final(self).wf(),
            final(self)@ == old(self)@.insert(member@),
            result == !old(self)@.contains(member@),
            result ==> final(self).members().len() == old(self).members().len() + 1,
            !result ==> *final(self) == *old(self),
    {
        if self.items.contains_key(member.as_str()) {
            assert(self@.insert(member@) =~= self@);
            false
        } else {
            let ghost name = member@;
            self.items.insert(member, ());
            proof {
                assert forall|k: Seq<char>| self@.contains(k) <==> old(self)@.insert(
                    name,
                ).contains(k) by {
                    assert(self.items@.dom().contains(k) <==> old(self).items@.insert(
                        name,
                        (),
                    ).dom().contains(k));
                }
                assert(self@ =~= old(self)@.insert(name));
            }
            true
        }
    }

    /// Adds every member of `other`.
    pub fn extend(&mut self, other: &StringSet)
        requires
            old(self).wf(),
        ensures
            final(self).wf(),
            final(self)@ == old(self)@.union(other@),
    {
        let count = other.len();
        let mut i: usize = 0;
        while i < count
            invariant
                count == other.members().len(),
                i <= count,
                self.wf(),
                forall|k: Seq<char>| #[trigger]
                    self@.contains(k) <==> (old(self)@.contains(k) || other.members().take(
                        i as int,
                    ).contains(k)),
            decreases count - i,
        {
            let ghost before = self@;
            let ghost seen = other.members().take(i as int);
            let member = other.at(i).clone();
            let ghost name = member@;
            self.insert(member);
            proof {
                let after = other.members().take(i + 1);
                assert(after =~= seen.push(name));
                assert forall|k: Seq<char>| #[trigger] self@.contains(k) <==> (old(
                    self,
                )@.contains(k) || after.contains(k)) by {
                    assert(before.contains(k) <==> (old(self)@.contains(k) || seen.contains(k)));
                    if seen.contains(k) {
                        assert(after[seen.index_of(k)] == k);
                    }
                    if after.contains(k) && k != name {
                        assert(seen[after.index_of(k)] == k);
                    }
                    if k == name {
                        assert(after[i as int] == k);
                    }
                }
            }
            i = i + 1;
        }
        proof {
            assert(other.members().take(count as int) =~= other.members());
            assert(self@ =~= old(self)@.union(other@));
        }
    }
}

impl Clone for StringSet {
    fn clone(&self) -> (result: Self)
        ensures
            result.members() == self.members(),
            result@ == self@,
            self.wf() ==> result.wf(),
    {
        let result = StringSet { items: self.items.clone() };
        assert(result@ =~= self@);
        result
    }
}

impl StringSet {
    /// Returns the members in order.
    pub fn to_list(&self) -> (result: Vec<String>)
        requires
            self.wf(),
        ensures
            result.deep_view() == self.members(),
            result.deep_view() == listing(self@),
            is_listing(result.deep_view(), self@),
    {
        let mut result: Vec<String> = Vec::new();
        let count = self.len();
        let mut i: usize = 0;
        while i < count
            invariant
                count == self.members().len(),
                i <= count,
                result.deep_view() == self.members().take(i as int),
            decreases count - i,
        {
            let ghost before = result.deep_view();
            let member = self.at(i).clone();
            let ghost name = member@;
            result.push(member);
            proof {
                assert(result.deep_view() =~= before.push(name));
                assert(self.members().take(i + 1) =~= self.members().take(i as int).push(name));
            }
            i = i + 1;
        }
        proof {
            assert(self.members().take(count as int) =~= self.members());
            self.lemma_members();
            lemma_listing(self.members(), self@);
        }
        result
    }
}

/// Returns the given names in order, each once.
pub fn sorted(names: &[String]) -> (result: Vec<String>)
    ensures
        result.deep_view() == listing(names.deep_view().to_set()),
        is_listing(result.deep_view(), names.deep_view().to_set()),
{
    let mut set = StringSet::new();
    let ghost all = names.deep_view();
    let mut i: usize = 0;
    assert(set@ =~= all.take(0).to_set());
    while i < names.len()
        invariant
            all == names.deep_view(),
            i <= names@.len(),
            set.wf(),
            set@ == all.take(i as int).to_set(),
        decreases names@.len() - i,
    {
        let name = names[i].clone();
        proof {
            let before = all.take(i as int);
            let after = all.take(i + 1);
            assert(after =~= before.push(name@));
            assert forall|k: Seq<char>| after.contains(k) <==> (before.contains(k) || k == name@) by {
                if before.contains(k) {
                    assert(after[before.index_of(k)] == k);
                }
                assert(after[i as int] == name@);
                if after.contains(k) && k != name@ {
                    assert(before[after.index_of(k)] == k);
                }
            }
            assert(after.to_set() =~= before.to_set().insert(name@));
        }
        set.insert(name);
        i = i + 1;
    }
    assert(all.take(names@.len() as int) =~= all);
    set.to_list()
}

} // verus!
