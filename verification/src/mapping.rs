//! The destination mapping: for each destination path of the tree that is
//! being assembled, the one source path on local storage that fills it.

use crate::order::key_less;
use crate::table::{
    distinct_keys, has_key, lemma_distinct_table, lemma_listing, lemma_sorted_distinct,
    lemma_to_map_domain, listing, sorted_keys, to_map, StringTable,
};
use crate::text::texts;
use vstd::prelude::*;

verus! {

/// Two mappings put together so that the first keeps every destination it
/// has: the second adds only destinations that the first lacks.
pub open spec fn merge_first_wins(
    first: Map<Seq<char>, Seq<char>>,
    second: Map<Seq<char>, Seq<char>>,
) -> Map<Seq<char>, Seq<char>> {
    second.union_prefer_right(first)
}

/// The destinations of `entries` that `existing` has already, in the order of
/// the entries.
pub open spec fn conflicts(
    existing: Map<Seq<char>, Seq<char>>,
    entries: Seq<(Seq<char>, Seq<char>)>,
) -> Seq<Seq<char>>
    decreases entries.len(),
{
    if entries.len() == 0 {
        Seq::empty()
    } else if existing.contains_key(entries.last().0) {
        conflicts(existing, entries.drop_last()).push(entries.last().0)
    } else {
        conflicts(existing, entries.drop_last())
    }
}

/// A mapping from destination paths to source paths. The entries stand in the
/// order of their destinations.
pub struct DestinationMapping {
    files: StringTable<String>,
}

impl View for DestinationMapping {
    type V = Map<Seq<char>, Seq<char>>;

    closed spec fn view(&self) -> Map<Seq<char>, Seq<char>> {
        self.files@.map_values(|source: String| source@)
    }
}

impl DestinationMapping {
    /// The entries as pairs of a destination and its source, in order.
    pub closed spec fn entries(&self) -> Seq<(Seq<char>, Seq<char>)> {
        self.files.entries().map_values(|e: (Seq<char>, String)| (e.0, e.1@))
    }

    /// The entries are the listing of the map in the order of the
    /// destinations; the map holds each entry under its destination and
    /// nothing else. This does nothing when run: it hands the mapping's
    /// invariant to the caller's proof.
    pub fn entries_sorted(&self)
        ensures
            sorted_keys(self.entries()),
            distinct_keys(self.entries()),
            self@ == to_map(self.entries()),
            self.entries() == listing(self@),
            forall|i: int|
                0 <= i < self.entries().len() ==> self@.contains_key(
                    (#[trigger] self.entries()[i]).0,
                ) && self@[self.entries()[i].0] == self.entries()[i].1,
            forall|dest: Seq<char>| self@.contains_key(dest) <==> has_key(self.entries(), dest),
    {
        self.files.entries_sorted();
        proof {
            let raw = self.files.entries();
            let entries = self.entries();
            lemma_to_map_of_views(raw);
            assert forall|i: int, j: int| 0 <= i < j < entries.len() implies key_less(
                (#[trigger] entries[i]).0,
                (#[trigger] entries[j]).0,
            ) by {
                assert(key_less(raw[i].0, raw[j].0));
            }
            lemma_sorted_distinct(entries);
            lemma_distinct_table(entries);
            lemma_listing(entries);
        }
    }

    /// The empty mapping.
    pub fn new() -> (mapping: Self)
        ensures
            mapping@ == Map::<Seq<char>, Seq<char>>::empty(),
    {
        let mapping = DestinationMapping { files: StringTable::new() };
        assert(mapping@ == Map::<Seq<char>, Seq<char>>::empty());
        mapping
    }

    /// The number of destinations.
    pub fn len(&self) -> (n: usize)
        ensures
            n == self.entries().len(),
            n == self@.dom().len(),
    {
        assert(self@.dom() == self.files@.dom());
        self.files.len()
    }

    /// The destination of entry `i`.
    pub fn dest_at(&self, i: usize) -> (dest: &String)
        requires
            i < self.entries().len(),
        ensures
            dest@ == self.entries()[i as int].0,
    {
        self.files.key_at(i)
    }

    /// The source of entry `i`.
    pub fn source_at(&self, i: usize) -> (source: &String)
        requires
            i < self.entries().len(),
        ensures
            source@ == self.entries()[i as int].1,
    {
        self.files.value_at(i)
    }

    /// The source that fills `dest`, if the mapping has that destination.
    pub fn get(&self, dest: &str) -> (source: Option<&String>)
        ensures
            match source {
                Some(s) => self@.contains_key(dest@) && s@ == self@[dest@],
                None => !self@.contains_key(dest@),
            },
    {
        self.files.get(dest)
    }

    /// Whether the mapping has the destination `dest`.
    pub fn contains(&self, dest: &str) -> (found: bool)
        ensures
            found == self@.contains_key(dest@),
    {
        self.files.contains_key(dest)
    }

    /// Fills `dest` from `source`, whatever filled it before. Says whether
    /// something did.
    pub fn insert(&mut self, dest: String, source: String) -> (replaced: bool)
        ensures
            final(self)@ == old(self)@.insert(dest@, source@),
            replaced == old(self)@.contains_key(dest@),
    {
        let ghost before = self.files@;
        let replaced = self.files.insert(dest, source);
        assert(self@ == before.map_values(|s: String| s@).insert(dest@, source@));
        replaced
    }

    /// Fills `dest` from `source` unless the mapping has that destination
    /// already. Says whether it stored the entry.
    pub fn insert_if_absent(&mut self, dest: String, source: String) -> (inserted: bool)
        ensures
            inserted == !old(self)@.contains_key(dest@),
            inserted ==> final(self)@ == old(self)@.insert(dest@, source@),
            !inserted ==> final(self)@ == old(self)@,
    {
        let ghost before = self.files@;
        let inserted = self.files.insert_if_absent(dest, source);
        proof {
            if inserted {
                assert(self@ == before.map_values(|s: String| s@).insert(dest@, source@));
            }
        }
        inserted
    }

    /// Adds the entries of `other` whose destinations this mapping lacks, and
    /// returns the destinations of the others, which it skips, in their
    /// order: what this mapping holds stays.
    pub fn merge(&mut self, other: &DestinationMapping) -> (skipped: Vec<String>)
        ensures
            final(self)@ == merge_first_wins(old(self)@, other@),
            texts(skipped@) == conflicts(old(self)@, other.entries()),
    {
        other.entries_sorted();
        let ghost start = self@;
        let ghost added = other.entries();
        let mut skipped: Vec<String> = Vec::new();
        let n = other.len();
        let mut i: usize = 0;
        assert(added.take(0) == Seq::<(Seq<char>, Seq<char>)>::empty());
        assert(self@ == merge_first_wins(start, to_map(added.take(0))));
        assert(texts(skipped@) == conflicts(start, added.take(0)));
        while i < n
            invariant
                i <= n == added.len(),
                added == other.entries(),
                distinct_keys(added),
                self@ == merge_first_wins(start, to_map(added.take(i as int))),
                texts(skipped@) == conflicts(start, added.take(i as int)),
            decreases n - i,
        {
            let dest = other.dest_at(i).clone();
            let source = other.source_at(i).clone();
            let ghost part = added.take(i as int);
            let ghost next = added.take(i + 1);
            proof {
                assert(next.drop_last() == part);
                assert(next.last() == added[i as int]);
                lemma_to_map_domain(part, dest@);
                if has_key(part, dest@) {
                    let j = choose|j: int| 0 <= j < part.len() && (#[trigger] part[j]).0 == dest@;
                    assert(added[j].0 != added[i as int].0);
                }
            }
            if !self.insert_if_absent(dest, source) {
                let ghost before = skipped@;
                skipped.push(other.dest_at(i).clone());
                assert(texts(skipped@) == texts(before).push(added[i as int].0));
                assert(start.contains_key(added[i as int].0));
                assert(self@ == merge_first_wins(start, to_map(next)));
            } else {
                assert(!start.contains_key(added[i as int].0));
                assert(self@ == merge_first_wins(start, to_map(next)));
            }
            i += 1;
        }
        assert(added.take(n as int) == added);
        skipped
    }
}

/// Reading the entries as a map commutes with reading each source as text.
proof fn lemma_to_map_of_views(raw: Seq<(Seq<char>, String)>)
    ensures
        to_map(raw).map_values(|s: String| s@) == to_map(
            raw.map_values(|e: (Seq<char>, String)| (e.0, e.1@)),
        ),
    decreases raw.len(),
{
    let viewed = raw.map_values(|e: (Seq<char>, String)| (e.0, e.1@));
    if raw.len() > 0 {
        lemma_to_map_of_views(raw.drop_last());
        assert(viewed.drop_last() == raw.drop_last().map_values(
            |e: (Seq<char>, String)| (e.0, e.1@),
        ));
        assert(to_map(raw).map_values(|s: String| s@) == to_map(raw.drop_last()).map_values(
            |s: String| s@,
        ).insert(raw.last().0, raw.last().1@));
    } else {
        assert(to_map(raw).map_values(|s: String| s@) == Map::<Seq<char>, Seq<char>>::empty());
    }
}

/// The merge of a list of mappings in their order: each keeps what all the
/// earlier ones lack.
pub open spec fn merge_all(locals: Seq<Map<Seq<char>, Seq<char>>>) -> Map<Seq<char>, Seq<char>>
    decreases locals.len(),
{
    if locals.len() == 0 {
        Map::empty()
    } else {
        merge_first_wins(merge_all(locals.drop_last()), locals.last())
    }
}

/// The merge has a destination exactly if one of the mappings has it.
pub proof fn lemma_merge_all_domain(locals: Seq<Map<Seq<char>, Seq<char>>>, dest: Seq<char>)
    ensures
        merge_all(locals).contains_key(dest) <==> exists|i: int|
            0 <= i < locals.len() && (#[trigger] locals[i]).contains_key(dest),
    decreases locals.len(),
{
    if locals.len() > 0 {
        let front = locals.drop_last();
        lemma_merge_all_domain(front, dest);
        if exists|i: int| 0 <= i < front.len() && (#[trigger] front[i]).contains_key(dest) {
            let i = choose|i: int| 0 <= i < front.len() && (#[trigger] front[i]).contains_key(dest);
            assert(locals[i].contains_key(dest));
        }
        if exists|i: int| 0 <= i < locals.len() && (#[trigger] locals[i]).contains_key(dest) {
            let i = choose|i: int|
                0 <= i < locals.len() && (#[trigger] locals[i]).contains_key(dest);
            if i < front.len() {
                assert(front[i].contains_key(dest));
            }
        }
        if locals.last().contains_key(dest) {
            assert(locals[locals.len() - 1].contains_key(dest));
        }
    }
}

/// In the merge a destination is filled by the first mapping in the list that
/// has it, whatever the later ones say.
pub proof fn lemma_merge_all_first_wins(
    locals: Seq<Map<Seq<char>, Seq<char>>>,
    i: int,
    dest: Seq<char>,
)
    requires
        0 <= i < locals.len(),
        locals[i].contains_key(dest),
        forall|j: int| 0 <= j < i ==> !(#[trigger] locals[j]).contains_key(dest),
    ensures
        merge_all(locals).contains_key(dest),
        merge_all(locals)[dest] == locals[i][dest],
    decreases locals.len(),
{
    let front = locals.drop_last();
    if i < locals.len() - 1 {
        assert(front[i] == locals[i]);
        assert forall|j: int| 0 <= j < i implies !(#[trigger] front[j]).contains_key(dest) by {
            assert(!locals[j].contains_key(dest));
        }
        lemma_merge_all_first_wins(front, i, dest);
    } else {
        lemma_merge_all_domain(front, dest);
        if merge_all(front).contains_key(dest) {
            let j = choose|j: int| 0 <= j < front.len() && (#[trigger] front[j]).contains_key(dest);
            assert(locals[j].contains_key(dest));
        }
    }
}

} // verus!
