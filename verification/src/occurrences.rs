//! The occurrence index: for each canonical value, the places where it was
//! found, in the order of discovery.

use rustc_hash::{FxHashMap, FxHasher};
use std::hash::BuildHasherDefault;
use vstd::prelude::*;

verus! {

/// A place as contracts see it: a file path and a zero-based line index.
pub type Place = (Seq<char>, usize);

/// An index as contracts see it: its entries in the order in which their keys
/// were first recorded, each a key with its places.
pub type Index = Seq<(Seq<char>, Seq<Place>)>;

/// A line location within a file: the file's path and the zero-based index of
/// the line.
#[derive(Clone, Debug)]
pub struct FileLocation {
    pub path: String,
    pub line_number: usize,
}

impl View for FileLocation {
    type V = Place;

    open spec fn view(&self) -> Place {
        (self.path@, self.line_number)
    }
}

/// The places that a list of locations names.
pub open spec fn places(locations: Seq<FileLocation>) -> Seq<Place> {
    Seq::new(locations.len(), |i: int| locations[i]@)
}

/// One canonical value with every location recorded for it.
#[derive(Clone, Debug)]
pub struct Entry {
    pub key: String,
    pub locations: Vec<FileLocation>,
}

impl View for Entry {
    type V = (Seq<char>, Seq<Place>);

    open spec fn view(&self) -> (Seq<char>, Seq<Place>) {
        (self.key@, places(self.locations@))
    }
}

/// The index without entries.
pub open spec fn empty_index() -> Index {
    Seq::empty()
}

/// The entries as contracts see them, in order.
pub open spec fn entry_views(entries: Seq<Entry>) -> Index {
    Seq::new(entries.len(), |i: int| entries[i]@)
}

/// Whether `idx` has an entry for `key`.
pub open spec fn has_key(idx: Index, key: Seq<char>) -> bool {
    exists|i: int| 0 <= i < idx.len() && (#[trigger] idx[i]).0 == key
}

/// The position of the entry for `key`, where there is one.
pub open spec fn slot_of(idx: Index, key: Seq<char>) -> int {
    choose|i: int| 0 <= i < idx.len() && (#[trigger] idx[i]).0 == key
}

/// The places recorded for `key`: none where the key is absent.
pub open spec fn places_of(idx: Index, key: Seq<char>) -> Seq<Place> {
    if has_key(idx, key) {
        idx[slot_of(idx, key)].1
    } else {
        Seq::empty()
    }
}

/// No key has two entries.
pub open spec fn distinct_keys(idx: Index) -> bool {
    forall|i: int, j: int| 0 <= i < j < idx.len() ==> (#[trigger] idx[i]).0 != (#[trigger] idx[j]).0
}

/// `idx` after `more` was added behind the places of `key`; a key that was
/// absent gets a new entry behind all others.
pub open spec fn extend_spec(idx: Index, key: Seq<char>, more: Seq<Place>) -> Index {
    if has_key(idx, key) {
        let i = slot_of(idx, key);
        idx.update(i, (key, idx[i].1 + more))
    } else {
        idx.push((key, more))
    }
}

/// `idx` after one place was recorded for `key`.
pub open spec fn record_spec(idx: Index, key: Seq<char>, place: Place) -> Index {
    extend_spec(idx, key, seq![place])
}

/// `target` after every entry of `source` was moved into it, in order.
pub open spec fn merge_spec(target: Index, source: Index) -> Index
    decreases source.len(),
{
    if source.len() == 0 {
        target
    } else {
        extend_spec(merge_spec(target, source.drop_last()), source.last().0, source.last().1)
    }
}

/// In an index with distinct keys, the entry at `i` is the one found for its
/// key.
pub proof fn lemma_slot_of(idx: Index, i: int)
    requires
        distinct_keys(idx),
        0 <= i < idx.len(),
    ensures
        has_key(idx, idx[i].0),
        slot_of(idx, idx[i].0) == i,
        places_of(idx, idx[i].0) == idx[i].1,
{
    let key = idx[i].0;
    let j = slot_of(idx, key);
    assert(0 <= j < idx.len() && idx[j].0 == key);
    if j < i {
        assert(idx[j].0 != idx[i].0);
    } else if i < j {
        assert(idx[i].0 != idx[j].0);
    }
}

/// Extending an index keeps its keys distinct, adds `more` behind the places
/// of `key`, and leaves every other key as it was.
pub proof fn lemma_extend(idx: Index, key: Seq<char>, more: Seq<Place>)
    requires
        distinct_keys(idx),
    ensures
        distinct_keys(extend_spec(idx, key, more)),
        has_key(extend_spec(idx, key, more), key),
        places_of(extend_spec(idx, key, more), key) == places_of(idx, key) + more,
        forall|other: Seq<char>|
            other != key ==> has_key(extend_spec(idx, key, more), other) == has_key(idx, other)
                && places_of(extend_spec(idx, key, more), other) == places_of(idx, other),
{
    let out = extend_spec(idx, key, more);
    let at = if has_key(idx, key) {
        slot_of(idx, key)
    } else {
        idx.len() as int
    };
    assert(0 <= at < out.len() && out[at].0 == key);
    assert forall|i: int| 0 <= i < idx.len() implies (#[trigger] out[i]).0 == idx[i].0 by {}
    assert(distinct_keys(out)) by {
        assert forall|i: int, j: int| 0 <= i < j < out.len() implies (#[trigger] out[i]).0 != (
        #[trigger] out[j]).0 by {
            if j < idx.len() {
                assert(idx[i].0 != idx[j].0);
            } else {
                assert(idx[i].0 != key);
            }
        }
    }
    lemma_slot_of(out, at);
    if has_key(idx, key) {
        lemma_slot_of(idx, at);
    } else {
        assert(places_of(idx, key) + more == more);
    }
    assert forall|other: Seq<char>| other != key implies has_key(out, other) == has_key(idx, other)
        && places_of(out, other) == places_of(idx, other) by {
        if has_key(idx, other) {
            let i = slot_of(idx, other);
            assert(out[i].0 == other);
            lemma_slot_of(idx, i);
            lemma_slot_of(out, i);
        }
        if has_key(out, other) {
            let i = slot_of(out, other);
            assert(i < idx.len());
            assert(idx[i].0 == other);
        }
    }
}

/// Leaving out the last entry of an index with distinct keys takes away that
/// entry's key and changes nothing for any other key.
pub proof fn lemma_drop_last(idx: Index, key: Seq<char>)
    requires
        distinct_keys(idx),
        idx.len() > 0,
    ensures
        distinct_keys(idx.drop_last()),
        key == idx.last().0 ==> !has_key(idx.drop_last(), key) && places_of(idx, key)
            == idx.last().1,
        key != idx.last().0 ==> has_key(idx.drop_last(), key) == has_key(idx, key) && places_of(
            idx.drop_last(),
            key,
        ) == places_of(idx, key),
{
    let fewer = idx.drop_last();
    assert forall|i: int, j: int| 0 <= i < j < fewer.len() implies (#[trigger] fewer[i]).0 != (
    #[trigger] fewer[j]).0 by {}
    if key == idx.last().0 {
        lemma_slot_of(idx, idx.len() - 1);
        if has_key(fewer, key) {
            let i = slot_of(fewer, key);
        }
    } else {
        if has_key(fewer, key) {
            let i = slot_of(fewer, key);
            lemma_slot_of(idx, i);
            lemma_slot_of(fewer, i);
        }
        if has_key(idx, key) {
            let i = slot_of(idx, key);
            assert(fewer[i].0 == key);
        }
    }
}

/// After a merge each key has the places that the target had for it, and
/// behind them those that the source had; no key has two entries.
pub proof fn lemma_merge(target: Index, source: Index, key: Seq<char>)
    requires
        distinct_keys(target),
        distinct_keys(source),
    ensures
        distinct_keys(merge_spec(target, source)),
        has_key(merge_spec(target, source), key) == (has_key(target, key) || has_key(source, key)),
        places_of(merge_spec(target, source), key) == places_of(target, key) + places_of(
            source,
            key,
        ),
    decreases source.len(),
{
    if source.len() != 0 {
        let fewer = source.drop_last();
        let last = source.last();
        lemma_drop_last(source, key);
        lemma_merge(target, fewer, key);
        let merged = merge_spec(target, fewer);
        lemma_extend(merged, last.0, last.1);
        if key == last.0 {
            lemma_slot_of(source, source.len() - 1);
        }
    }
}

/// The hasher of `rustc_hash`, declared so that the lookup table below can
/// be a field. Nothing is claimed of it.
#[verifier::external_type_specification]
#[verifier::external_body]
pub struct ExFxHasher(FxHasher);

/// The standard library's builder of default hashers, declared for the same
/// reason. Nothing is claimed of it.
#[verifier::external_type_specification]
#[verifier::external_body]
#[verifier::reject_recursive_types(H)]
pub struct ExBuildHasherDefault<H>(BuildHasherDefault<H>);

/// A lookup table from keys to numbers, hashed with the hasher of
/// `rustc_hash`.
pub type SlotTable = FxHashMap<String, usize>;

/// What a lookup table holds: for each key that it has, the number stored
/// under it.
pub uninterp spec fn slots_of(table: SlotTable) -> Map<Seq<char>, usize>;

/// An empty lookup table.
///
/// Trusted: calls `HashMap::default` of the standard library, with the
/// hasher of `rustc_hash`; the map that it makes holds nothing.
#[verifier::external_body]
fn slots_new() -> (table: SlotTable)
    ensures
        slots_of(table) == (Map::<Seq<char>, usize>::empty()),
{
    FxHashMap::default()
}

/// The number stored under `key`, if there is one.
///
/// Trusted: calls `HashMap::get` of the standard library, which finds the
/// value stored under a key that equals `key`, and finds nothing where no
/// such key was stored. Strings are equal where their characters are, and the
/// hasher of `rustc_hash` gives equal strings equal hashes.
#[verifier::external_body]
fn slots_get(table: &SlotTable, key: &str) -> (slot: Option<usize>)
    ensures
        slot == if slots_of(*table).contains_key(key@) {
            Some(slots_of(*table)[key@])
        } else {
            None::<usize>
        },
{
    table.get(key).copied()
}

/// Stores `slot` under `key`.
///
/// Trusted: calls `HashMap::insert` of the standard library, which stores
/// the value under the key, in place of what was stored under it before, and
/// leaves every other key as it was.
#[verifier::external_body]
fn slots_insert(table: &mut SlotTable, key: String, slot: usize)
    ensures
        slots_of(*final(table)) == slots_of(*old(table)).insert(key@, slot),
{
    table.insert(key, slot);
}

/// The occurrence index of one file or of many: each key once, in the order
/// in which the keys were first recorded, each with its locations in the order
/// in which they were recorded.
pub struct Occurrences {
    entries: Vec<Entry>,
    slots: SlotTable,
}

impl View for Occurrences {
    type V = Index;

    closed spec fn view(&self) -> Index {
        entry_views(self.entries@)
    }
}

impl Occurrences {
    /// The invariant of the index: the lookup table names, for each key, the
    /// entry that holds it, and names nothing else.
    pub closed spec fn wf(&self) -> bool {
        &&& forall|i: int|
            0 <= i < self.entries@.len() ==> slots_of(self.slots).contains_key(
                (#[trigger] self.entries@[i]).key@,
            ) && slots_of(self.slots)[self.entries@[i].key@] == i
        &&& forall|k: Seq<char>| #[trigger]
            slots_of(self.slots).contains_key(k) ==> slots_of(self.slots)[k] < self.entries@.len()
                && self.entries@[slots_of(self.slots)[k] as int].key@ == k
    }

    /// A well-formed index has no key twice.
    pub proof fn lemma_distinct(&self)
        requires
            self.wf(),
        ensures
            distinct_keys(self@),
    {
        assert forall|i: int, j: int| 0 <= i < j < self@.len() implies (#[trigger] self@[i]).0 != (
        #[trigger] self@[j]).0 by {}
    }

    /// The empty index.
    pub fn new() -> (out: Self)
        ensures
            out.wf(),
            out@ == empty_index(),
    {
        let out = Occurrences { entries: Vec::new(), slots: slots_new() };
        out
    }

    /// The number of keys.
    pub fn len(&self) -> (n: usize)
        ensures
            n == self@.len(),
    {
        self.entries.len()
    }

    /// The entries, in the order in which their keys were first recorded.
    pub fn entries(&self) -> (out: &Vec<Entry>)
        ensures
            entry_views(out@) == self@,
    {
        &self.entries
    }

    /// The entries themselves, in the order in which their keys were first
    /// recorded.
    pub fn into_entries(self) -> (out: Vec<Entry>)
        ensures
            entry_views(out@) == self@,
    {
        self.entries
    }

    /// The locations recorded for `key`, if it has an entry.
    pub fn get(&self, key: &str) -> (out: Option<&Vec<FileLocation>>)
        requires
            self.wf(),
        ensures
            out is Some == has_key(self@, key@),
            out is Some ==> places(out.unwrap()@) == places_of(self@, key@),
    {
        proof {
            self.lemma_distinct();
        }
        match slots_get(&self.slots, key) {
            Some(i) => {
                proof {
                    lemma_slot_of(self@, i as int);
                }
                Some(&self.entries[i].locations)
            },
            None => {
                assert(!has_key(self@, key@)) by {
                    if has_key(self@, key@) {
                        let i = slot_of(self@, key@);
                    }
                }
                None
            },
        }
    }

    /// Adds `more` behind the locations of `key`, with a new last entry where
    /// the key had none.
    pub fn extend(&mut self, key: String, more: Vec<FileLocation>)
        requires
            old(self).wf(),
        ensures
            final(self).wf(),
            final(self)@ == extend_spec(old(self)@, key@, places(more@)),
    {
        proof {
            self.lemma_distinct();
        }
        let ghost before = self@;
        let ghost old_entries = self.entries@;
        let mut more = more;
        let ghost added = places(more@);
        match slots_get(&self.slots, key.as_str()) {
            Some(i) => {
                proof {
                    assert(before[i as int].0 == key@);
                    lemma_slot_of(before, i as int);
                }
                let ghost had = self.entries@[i as int].locations@;
                let ghost moved = more@;
                self.entries[i].locations.append(&mut more);
                assert(self.entries@[i as int].locations@ == had + moved);
                assert(places(had + moved) =~= places(had) + added);
                assert(self@ =~= extend_spec(before, key@, added));
            },
            None => {
                assert(!has_key(before, key@)) by {
                    if has_key(before, key@) {
                        let i = slot_of(before, key@);
                        assert(old_entries[i].key@ == key@);
                    }
                }
                let n: usize = self.entries.len();
                slots_insert(&mut self.slots, key.clone(), n);
                self.entries.push(Entry { key, locations: more });
                assert(self@ =~= extend_spec(before, key@, added));
            },
        }
    }

    /// Records one location for `key`.
    pub fn record(&mut self, key: String, location: FileLocation)
        requires
            old(self).wf(),
        ensures
            final(self).wf(),
            final(self)@ == record_spec(old(self)@, key@, location@),
    {
        let mut one: Vec<FileLocation> = Vec::new();
        let ghost place = location@;
        one.push(location);
        assert(places(one@) =~= seq![place]);
        self.extend(key, one);
    }
}

/// Moves every entry of `source` into `target`: the locations of a key that
/// `target` has already go behind those it has, and a key that is new to it
/// gets a new last entry.
pub fn merge_records(target: &mut Occurrences, source: Occurrences)
    requires
        old(target).wf(),
    ensures
        final(target).wf(),
        final(target)@ == merge_spec(old(target)@, source@),
{
    let ghost from = source@;
    let ghost start = target@;
    let entries = source.entries;
    let ghost moved = entries@;
    for entry in it: entries
        invariant
            it.seq() == moved,
            from.len() == moved.len(),
            forall|i: int| 0 <= i < moved.len() ==> (#[trigger] moved[i])@ == from[i],
            target.wf(),
            target@ == merge_spec(start, from.take(it.index() as int)),
    {
        assert(from.take(it.index() + 1).drop_last() == from.take(it.index() as int));
        target.extend(entry.key, entry.locations);
    }
    assert(from.take(from.len() as int) == from);
}

} // verus!
