//! A table keyed by strings, kept as a list of entries in the order of their
//! keys, together with the theory of reading a list of entries as a map.

use crate::order::{key_less, lemma_key_less_total, lemma_key_less_transitive, place_of, Place};
use vstd::prelude::*;

verus! {

/// The map that a list of entries stands for when it is read front to back
/// and each entry overwrites what an earlier one stored under its key.
pub open spec fn to_map<V>(entries: Seq<(Seq<char>, V)>) -> Map<Seq<char>, V>
    decreases entries.len(),
{
    if entries.len() == 0 {
        Map::empty()
    } else {
        to_map(entries.drop_last()).insert(entries.last().0, entries.last().1)
    }
}

/// Some entry of the list has the key `key`.
pub open spec fn has_key<V>(entries: Seq<(Seq<char>, V)>, key: Seq<char>) -> bool {
    exists|i: int| 0 <= i < entries.len() && (#[trigger] entries[i]).0 == key
}

/// No key occurs in two entries of the list.
pub open spec fn distinct_keys<V>(entries: Seq<(Seq<char>, V)>) -> bool {
    forall|i: int, j: int|
        0 <= i < j < entries.len() ==> (#[trigger] entries[i]).0 != (#[trigger] entries[j]).0
}

/// The entries stand in the order of their keys, each key before the next.
pub open spec fn sorted_keys<V>(entries: Seq<(Seq<char>, V)>) -> bool {
    forall|i: int, j: int|
        0 <= i < j < entries.len() ==> key_less(
            (#[trigger] entries[i]).0,
            (#[trigger] entries[j]).0,
        )
}

/// The entries of the map `map` in the order of their keys.
pub open spec fn listing<V>(map: Map<Seq<char>, V>) -> Seq<(Seq<char>, V)> {
    choose|entries: Seq<(Seq<char>, V)>| sorted_keys(entries) && to_map(entries) == map
}

/// Entry `i` is the last one of the list with its key.
pub open spec fn is_last_with_key<V>(entries: Seq<(Seq<char>, V)>, i: int) -> bool {
    &&& 0 <= i < entries.len()
    &&& forall|j: int| i < j < entries.len() ==> (#[trigger] entries[j]).0 != entries[i].0
}

/// The keys of the map are the keys of the entries.
pub proof fn lemma_to_map_domain<V>(entries: Seq<(Seq<char>, V)>, key: Seq<char>)
    ensures
        to_map(entries).contains_key(key) <==> has_key(entries, key),
    decreases entries.len(),
{
    if entries.len() > 0 {
        let front = entries.drop_last();
        lemma_to_map_domain(front, key);
        if has_key(entries, key) {
            let i = choose|i: int| 0 <= i < entries.len() && (#[trigger] entries[i]).0 == key;
            if i < front.len() {
                assert(front[i].0 == key);
            }
        }
        if has_key(front, key) {
            let i = choose|i: int| 0 <= i < front.len() && (#[trigger] front[i]).0 == key;
            assert(entries[i].0 == key);
        }
        if entries.last().0 == key {
            assert(entries[entries.len() - 1].0 == key);
        }
    }
}

/// Under each key the map holds the value of the last entry with that key.
pub proof fn lemma_to_map_last_wins<V>(entries: Seq<(Seq<char>, V)>, i: int)
    requires
        is_last_with_key(entries, i),
    ensures
        to_map(entries).contains_key(entries[i].0),
        to_map(entries)[entries[i].0] == entries[i].1,
    decreases entries.len(),
{
    if i < entries.len() - 1 {
        let front = entries.drop_last();
        assert(entries[entries.len() - 1].0 != entries[i].0);
        assert forall|j: int| i < j < front.len() implies (#[trigger] front[j]).0
            != front[i].0 by {
            assert(entries[j].0 != entries[i].0);
        }
        lemma_to_map_last_wins(front, i);
    }
}

/// Where no key occurs twice, the map holds each entry under its key and has
/// no other keys.
pub proof fn lemma_distinct_table<V>(entries: Seq<(Seq<char>, V)>)
    requires
        distinct_keys(entries),
    ensures
        forall|i: int|
            0 <= i < entries.len() ==> to_map(entries).contains_key((#[trigger] entries[i]).0)
                && to_map(entries)[entries[i].0] == entries[i].1,
        forall|key: Seq<char>| to_map(entries).contains_key(key) <==> has_key(entries, key),
{
    assert forall|i: int| 0 <= i < entries.len() implies to_map(entries).contains_key(
        (#[trigger] entries[i]).0,
    ) && to_map(entries)[entries[i].0] == entries[i].1 by {
        lemma_to_map_last_wins(entries, i);
    }
    assert forall|key: Seq<char>| to_map(entries).contains_key(key) <==> has_key(
        entries,
        key,
    ) by {
        lemma_to_map_domain(entries, key);
    }
}

/// Entries in the order of their keys have no key twice.
pub proof fn lemma_sorted_distinct<V>(entries: Seq<(Seq<char>, V)>)
    requires
        sorted_keys(entries),
    ensures
        distinct_keys(entries),
{
    assert forall|i: int, j: int| 0 <= i < j < entries.len() implies (#[trigger] entries[i]).0 != (
    #[trigger] entries[j]).0 by {
        lemma_key_less_total(entries[i].0, entries[j].0);
    }
}

/// Where no key occurs twice, a new value at entry `i` is a new value under
/// that entry's key and changes nothing else.
proof fn lemma_to_map_update<V>(entries: Seq<(Seq<char>, V)>, i: int, value: V)
    requires
        distinct_keys(entries),
        0 <= i < entries.len(),
    ensures
        to_map(entries.update(i, (entries[i].0, value))) == to_map(entries).insert(
            entries[i].0,
            value,
        ),
    decreases entries.len(),
{
    let key = entries[i].0;
    let updated = entries.update(i, (key, value));
    let front = entries.drop_last();
    if i == entries.len() - 1 {
        assert(updated.drop_last() == front);
        assert(to_map(updated) == to_map(entries).insert(key, value));
    } else {
        lemma_drop_last_distinct(entries);
        lemma_to_map_update(front, i, value);
        assert(updated.drop_last() == front.update(i, (key, value)));
        assert(updated.last() == entries.last());
        assert(entries[entries.len() - 1].0 != entries[i].0);
        assert(to_map(updated) == to_map(entries).insert(key, value));
    }
}

/// An entry with a key that the list lacks, put in at any place, is one more
/// key of the map and changes nothing else.
proof fn lemma_to_map_insert<V>(entries: Seq<(Seq<char>, V)>, at: int, key: Seq<char>, value: V)
    requires
        !has_key(entries, key),
        0 <= at <= entries.len(),
    ensures
        to_map(entries.insert(at, (key, value))) == to_map(entries).insert(key, value),
    decreases entries.len(),
{
    let grown = entries.insert(at, (key, value));
    if at == entries.len() {
        assert(grown.drop_last() == entries);
    } else {
        let front = entries.drop_last();
        assert(!has_key(front, key)) by {
            if has_key(front, key) {
                let i = choose|i: int| 0 <= i < front.len() && (#[trigger] front[i]).0 == key;
                assert(entries[i].0 == key);
            }
        }
        lemma_to_map_insert(front, at, key, value);
        assert(grown.drop_last() == front.insert(at, (key, value)));
        assert(grown.last() == entries.last());
        assert(entries[entries.len() - 1].0 != key);
        assert(to_map(grown) == to_map(entries).insert(key, value));
    }
}

/// Without its last entry a list without repeated keys is still one, and the
/// map it stands for lacks that entry's key.
proof fn lemma_drop_last_distinct<V>(entries: Seq<(Seq<char>, V)>)
    requires
        distinct_keys(entries),
        entries.len() > 0,
    ensures
        distinct_keys(entries.drop_last()),
        !has_key(entries.drop_last(), entries.last().0),
        to_map(entries.drop_last()) == to_map(entries).remove(entries.last().0),
{
    let front = entries.drop_last();
    assert forall|a: int, b: int| 0 <= a < b < front.len() implies (#[trigger] front[a]).0 != (
    #[trigger] front[b]).0 by {
        assert(entries[a].0 != entries[b].0);
    }
    if has_key(front, entries.last().0) {
        let i = choose|i: int| 0 <= i < front.len() && (#[trigger] front[i]).0 == entries.last().0;
        assert(entries[i].0 != entries[entries.len() - 1].0);
    }
    lemma_to_map_domain(front, entries.last().0);
    assert(to_map(front) == to_map(entries).remove(entries.last().0));
}

/// Where no key occurs twice, the map has as many keys as the list has
/// entries.
proof fn lemma_domain_len<V>(entries: Seq<(Seq<char>, V)>)
    requires
        distinct_keys(entries),
    ensures
        to_map(entries).dom().finite(),
        to_map(entries).dom().len() == entries.len(),
    decreases entries.len(),
{
    if entries.len() > 0 {
        let front = entries.drop_last();
        lemma_drop_last_distinct(entries);
        lemma_domain_len(front);
        lemma_to_map_domain(front, entries.last().0);
        assert(to_map(entries).dom() == to_map(front).dom().insert(entries.last().0));
    }
}

/// Two lists in the order of their keys that stand for the same map are the
/// same list.
pub proof fn lemma_sorted_unique<V>(a: Seq<(Seq<char>, V)>, b: Seq<(Seq<char>, V)>)
    requires
        sorted_keys(a),
        sorted_keys(b),
        to_map(a) == to_map(b),
    ensures
        a == b,
    decreases a.len(),
{
    lemma_sorted_distinct(a);
    lemma_sorted_distinct(b);
    lemma_domain_len(a);
    lemma_domain_len(b);
    if a.len() > 0 {
        let n = a.len() - 1;
        lemma_distinct_table(a);
        lemma_distinct_table(b);
        assert(to_map(a).contains_key(a[n].0));
        assert(to_map(b).contains_key(b[n].0));
        assert(has_key(b, a[n].0));
        assert(has_key(a, b[n].0));
        let j = choose|j: int| 0 <= j < b.len() && (#[trigger] b[j]).0 == a[n].0;
        let i = choose|i: int| 0 <= i < a.len() && (#[trigger] a[i]).0 == b[n].0;
        if j < n {
            assert(key_less(b[j].0, b[n].0));
            if i < n {
                assert(key_less(a[i].0, a[n].0));
            }
            lemma_key_less_total(a[n].0, b[n].0);
        }
        assert(a[n].0 == b[n].0);
        assert(a[n].1 == b[n].1);
        assert(a[n] == b[n]);
        lemma_drop_last_distinct(a);
        lemma_drop_last_distinct(b);
        assert forall|x: int, y: int| 0 <= x < y < n implies key_less(
            (#[trigger] a.drop_last()[x]).0,
            (#[trigger] a.drop_last()[y]).0,
        ) by {
            assert(key_less(a[x].0, a[y].0));
        }
        assert forall|x: int, y: int| 0 <= x < y < n implies key_less(
            (#[trigger] b.drop_last()[x]).0,
            (#[trigger] b.drop_last()[y]).0,
        ) by {
            assert(key_less(b[x].0, b[y].0));
        }
        lemma_sorted_unique(a.drop_last(), b.drop_last());
        assert(a == a.drop_last().push(a[n]));
        assert(b == b.drop_last().push(b[n]));
    } else {
        assert(a == b);
    }
}

/// A list in the order of its keys is the listing of the map it stands for.
pub proof fn lemma_listing<V>(entries: Seq<(Seq<char>, V)>)
    requires
        sorted_keys(entries),
    ensures
        listing(to_map(entries)) == entries,
{
    let found = listing(to_map(entries));
    assert(sorted_keys(found) && to_map(found) == to_map(entries));
    lemma_sorted_unique(found, entries);
}

/// A table from strings to values of `V`. Its entries stand in the order of
/// their keys, so no key occurs twice.
pub struct StringTable<V> {
    entries: Vec<(String, V)>,
}

impl<V> StringTable<V> {
    /// The entries as pairs of a key's characters and a value, in order.
    pub closed spec fn entries(&self) -> Seq<(Seq<char>, V)> {
        self.entries@.map_values(|e: (String, V)| (e.0@, e.1))
    }

    #[verifier::type_invariant]
    spec fn sorted(&self) -> bool {
        sorted_keys(self.entries())
    }

    /// The table as a map from a key's characters to its value.
    pub open spec fn view(&self) -> Map<Seq<char>, V> {
        to_map(self.entries())
    }

    /// The entries are the listing of the map in the order of the keys; the
    /// map holds each entry under its key and nothing else. This does nothing
    /// when run: it hands the table's invariant to the caller's proof.
    pub fn entries_sorted(&self)
        ensures
            sorted_keys(self.entries()),
            distinct_keys(self.entries()),
            self.entries() == listing(self@),
            forall|i: int|
                0 <= i < self.entries().len() ==> self@.contains_key(
                    (#[trigger] self.entries()[i]).0,
                ) && self@[self.entries()[i].0] == self.entries()[i].1,
            forall|key: Seq<char>| self@.contains_key(key) <==> has_key(self.entries(), key),
    {
        proof {
            use_type_invariant(self);
            lemma_sorted_distinct(self.entries());
            lemma_distinct_table(self.entries());
            lemma_listing(self.entries());
        }
    }

    /// The empty table.
    pub fn new() -> (table: Self)
        ensures
            table@ == Map::<Seq<char>, V>::empty(),
    {
        let table = StringTable { entries: Vec::new() };
        assert(table.entries() == Seq::<(Seq<char>, V)>::empty());
        table
    }

    /// The number of entries.
    pub fn len(&self) -> (n: usize)
        ensures
            n == self.entries().len(),
            n == self@.dom().len(),
    {
        proof {
            use_type_invariant(self);
            lemma_sorted_distinct(self.entries());
            lemma_domain_len(self.entries());
        }
        self.entries.len()
    }

    /// The key of entry `i`.
    pub fn key_at(&self, i: usize) -> (key: &String)
        requires
            i < self.entries().len(),
        ensures
            key@ == self.entries()[i as int].0,
    {
        &self.entries[i].0
    }

    /// The value of entry `i`.
    pub fn value_at(&self, i: usize) -> (value: &V)
        requires
            i < self.entries().len(),
        ensures
            *value == self.entries()[i as int].1,
    {
        &self.entries[i].1
    }

    /// Moves the entries out and leaves the table empty, so that they can be
    /// changed and put back in one step.
    fn take_entries(&mut self) -> (entries: Vec<(String, V)>)
        ensures
            entries == old(self).entries,
            final(self).entries@.len() == 0,
    {
        let mut entries: Vec<(String, V)> = Vec::new();
        core::mem::swap(&mut entries, &mut self.entries);
        entries
    }

    /// The place of the entry with the key `key` and `true`, or the place at
    /// which an entry with that key belongs and `false`.
    fn search(&self, key: &str) -> (found: (usize, bool))
        ensures
            found.0 <= self.entries().len(),
            forall|i: int| 0 <= i < found.0 ==> key_less((#[trigger] self.entries()[i]).0, key@),
            forall|i: int|
                found.0 + (if found.1 {
                    1int
                } else {
                    0int
                }) <= i < self.entries().len() ==> key_less(
                    key@,
                    (#[trigger] self.entries()[i]).0,
                ),
            found.1 ==> found.0 < self.entries().len() && self.entries()[found.0 as int].0 == key@,
            found.1 == has_key(self.entries(), key@),
    {
        proof {
            use_type_invariant(self);
        }
        let ghost entries = self.entries();
        let mut low: usize = 0;
        let mut high: usize = self.entries.len();
        while low < high
            invariant
                low <= high <= entries.len(),
                entries == self.entries(),
                sorted_keys(entries),
                forall|i: int| 0 <= i < low ==> key_less((#[trigger] entries[i]).0, key@),
                forall|i: int|
                    high <= i < entries.len() ==> key_less(key@, (#[trigger] entries[i]).0),
            decreases high - low,
        {
            let middle = low + (high - low) / 2;
            match place_of(self.entries[middle].0.as_str(), key) {
                Place::Before => {
                    assert forall|i: int| 0 <= i < middle + 1 implies key_less(
                        (#[trigger] entries[i]).0,
                        key@,
                    ) by {
                        if i < middle {
                            lemma_key_less_transitive(entries[i].0, entries[middle as int].0, key@);
                        }
                    }
                    low = middle + 1;
                },
                Place::Same => {
                    assert(entries[middle as int].0 == key@);
                    assert forall|i: int| 0 <= i < middle implies key_less(
                        (#[trigger] entries[i]).0,
                        key@,
                    ) by {
                        assert(key_less(entries[i].0, entries[middle as int].0));
                    }
                    assert forall|i: int| middle + 1 <= i < entries.len() implies key_less(
                        key@,
                        (#[trigger] entries[i]).0,
                    ) by {
                        assert(key_less(entries[middle as int].0, entries[i].0));
                    }
                    return (middle, true);
                },
                Place::After => {
                    assert forall|i: int| middle <= i < entries.len() implies key_less(
                        key@,
                        (#[trigger] entries[i]).0,
                    ) by {
                        if middle < i {
                            lemma_key_less_transitive(key@, entries[middle as int].0, entries[i].0);
                        }
                    }
                    high = middle;
                },
            }
        }
        proof {
            if has_key(entries, key@) {
                let i = choose|i: int| 0 <= i < entries.len() && (#[trigger] entries[i]).0 == key@;
                lemma_key_less_total(key@, key@);
            }
        }
        (low, false)
    }

    /// The value stored under `key`, if there is one.
    pub fn get(&self, key: &str) -> (value: Option<&V>)
        ensures
            match value {
                Some(v) => self@.contains_key(key@) && *v == self@[key@],
                None => !self@.contains_key(key@),
            },
    {
        self.entries_sorted();
        let (place, found) = self.search(key);
        if found {
            Some(&self.entries[place].1)
        } else {
            None
        }
    }

    /// Whether a value is stored under `key`.
    pub fn contains_key(&self, key: &str) -> (found: bool)
        ensures
            found == self@.contains_key(key@),
    {
        self.get(key).is_some()
    }

    /// Puts the entry of `key` and `value` in at `place`, where it belongs.
    fn insert_at(&mut self, place: usize, key: String, value: V)
        requires
            place <= old(self).entries().len(),
            !has_key(old(self).entries(), key@),
            forall|i: int| 0 <= i < place ==> key_less((#[trigger] old(self).entries()[i]).0, key@),
            forall|i: int|
                place <= i < old(self).entries().len() ==> key_less(
                    key@,
                    (#[trigger] old(self).entries()[i]).0,
                ),
        ensures
            final(self)@ == old(self)@.insert(key@, value),
    {
        proof {
            use_type_invariant(&*self);
        }
        let ghost before = self.entries();
        let ghost grown = before.insert(place as int, (key@, value));
        proof {
            lemma_to_map_insert(before, place as int, key@, value);
            assert forall|i: int, j: int| 0 <= i < j < grown.len() implies key_less(
                (#[trigger] grown[i]).0,
                (#[trigger] grown[j]).0,
            ) by {
                if j < place {
                    assert(key_less(before[i].0, before[j].0));
                } else if j == place {
                    assert(key_less(before[i].0, key@));
                } else if i < place {
                    assert(key_less(before[i].0, before[j - 1].0));
                } else if i == place {
                    assert(key_less(key@, before[j - 1].0));
                } else {
                    assert(key_less(before[i - 1].0, before[j - 1].0));
                }
            }
        }
        let mut entries = self.take_entries();
        entries.insert(place, (key, value));
        assert(entries@.map_values(|e: (String, V)| (e.0@, e.1)) == grown);
        self.entries = entries;
    }

    /// Stores `value` under `key`, in place of what was stored there. Says
    /// whether something was.
    pub fn insert(&mut self, key: String, value: V) -> (replaced: bool)
        ensures
            final(self)@ == old(self)@.insert(key@, value),
            replaced == old(self)@.contains_key(key@),
    {
        self.entries_sorted();
        let ghost before = self.entries();
        let (place, found) = self.search(key.as_str());
        if found {
            proof {
                lemma_to_map_update(before, place as int, value);
            }
            let ghost updated = before.update(place as int, (key@, value));
            assert forall|i: int, j: int| 0 <= i < j < updated.len() implies key_less(
                (#[trigger] updated[i]).0,
                (#[trigger] updated[j]).0,
            ) by {
                assert(key_less(before[i].0, before[j].0));
            }
            let mut entries = self.take_entries();
            entries.set(place, (key, value));
            assert(entries@.map_values(|e: (String, V)| (e.0@, e.1)) == updated);
            self.entries = entries;
        } else {
            self.insert_at(place, key, value);
        }
        found
    }

    /// Stores `value` under `key` unless something is stored there already.
    /// Says whether it stored the value.
    pub fn insert_if_absent(&mut self, key: String, value: V) -> (inserted: bool)
        ensures
            inserted == !old(self)@.contains_key(key@),
            inserted ==> final(self)@ == old(self)@.insert(key@, value),
            !inserted ==> final(self)@ == old(self)@,
    {
        self.entries_sorted();
        let (place, found) = self.search(key.as_str());
        if !found {
            self.insert_at(place, key, value);
        }
        !found
    }
}

} // verus!
