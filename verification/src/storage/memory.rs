//! An ordered store in memory: the entries in a vector, sorted by key.
use vstd::prelude::*;
use crate::error::StorageError;
use crate::storage::lex::{
    begins_with, lemma_lex_lt_asymmetric, lemma_lex_lt_irreflexive, lemma_lex_lt_transitive,
    lex_lt, place_of, Place,
};
use crate::storage::{
    copy_of, entries_view, keys_ascend, keys_with_prefix, lemma_filter_keeps_order, lists,
    lists_key, KeyRange, Storage,
};

verus! {

pub const STORE_FULL: &'static str = "the store holds as many entries as it may";

/// The place of an entry of `entries` that has the key `key`.
pub open spec fn index_of(entries: Seq<(Seq<u8>, Seq<u8>)>, key: Seq<u8>) -> int {
    choose|i: int| 0 <= i < entries.len() && (#[trigger] entries[i]).0 == key
}

/// The map that holds each of `entries` under its key.
pub open spec fn map_of(entries: Seq<(Seq<u8>, Seq<u8>)>) -> Map<Seq<u8>, Seq<u8>> {
    Map::new(
        |key: Seq<u8>| lists_key(entries, key),
        |key: Seq<u8>| entries[index_of(entries, key)].1,
    )
}

/// In entries with ascending keys each key leads to its own entry.
pub proof fn lemma_map_of_entry(entries: Seq<(Seq<u8>, Seq<u8>)>, i: int)
    requires
        keys_ascend(entries),
        0 <= i < entries.len(),
    ensures
        map_of(entries).contains_key(entries[i].0),
        map_of(entries)[entries[i].0] == entries[i].1,
{
    let key = entries[i].0;
    let at = index_of(entries, key);
    if at < i {
        lemma_lex_lt_asymmetric(entries[at].0, entries[i].0);
    }
    if i < at {
        lemma_lex_lt_asymmetric(entries[i].0, entries[at].0);
    }
}

/// The part of sorted entries that a choice of keys selects lists what the
/// entries hold under those keys.
pub proof fn lemma_selection_lists(entries: Seq<(Seq<u8>, Seq<u8>)>, selected: Set<Seq<u8>>)
    requires
        keys_ascend(entries),
    ensures
        lists(
            entries.filter(|entry: (Seq<u8>, Seq<u8>)| selected.contains(entry.0)),
            map_of(entries),
            selected,
        ),
{
    let keep = |entry: (Seq<u8>, Seq<u8>)| selected.contains(entry.0);
    let part = entries.filter(keep);
    lemma_filter_keeps_order(entries, keep);
    assert forall|i: int| 0 <= i < part.len() implies {
        let (key, value) = #[trigger] part[i];
        selected.contains(key) && map_of(entries).contains_key(key) && map_of(entries)[key]
            == value
    } by {
        entries.lemma_filter_pred(keep, i);
        assert(part.contains(part[i]));
        entries.lemma_filter_contains_rev(keep, part[i]);
        let at = choose|at: int| 0 <= at < entries.len() && entries[at] == part[i];
        lemma_map_of_entry(entries, at);
    }
    assert forall|key: Seq<u8>|
        selected.contains(key) && #[trigger] map_of(entries).contains_key(key) implies lists_key(
        part,
        key,
    ) by {
        let at = choose|at: int| 0 <= at < entries.len() && (#[trigger] entries[at]).0 == key;
        entries.lemma_filter_contains(keep, at);
        let i = choose|i: int| 0 <= i < part.len() && part[i] == entries[at];
        assert(part[i].0 == key);
    }
}

/// An ordered store that lives in memory.
pub struct Memory {
    entries: Vec<(Vec<u8>, Vec<u8>)>,
    limit: Option<usize>,
}

impl Memory {
    #[verifier::type_invariant]
    spec fn sorted(&self) -> bool {
        keys_ascend(entries_view(self.entries@))
    }

    /// The number of entries that the store does not go beyond, if it has
    /// such a limit.
    pub closed spec fn limit(&self) -> Option<usize> {
        self.limit
    }

    /// The store has room for a value under `key`: it holds one there
    /// already, or it has not come to its limit.
    pub open spec fn has_room(&self, key: Seq<u8>) -> bool {
        self.contents().contains_key(key) || match self.limit() {
            Some(limit) => self.contents().len() < limit,
            None => true,
        }
    }

    /// An empty store that takes any number of entries.
    pub fn new() -> (store: Memory)
        ensures
            store.contents() == Map::<Seq<u8>, Seq<u8>>::empty(),
            store.limit() is None,
    {
        let store = Memory { entries: Vec::new(), limit: None };
        proof {
            assert(store.contents() =~= Map::<Seq<u8>, Seq<u8>>::empty());
        }
        store
    }

    /// An empty store that refuses to hold more than `limit` entries.
    pub fn with_limit(limit: usize) -> (store: Memory)
        ensures
            store.contents() == Map::<Seq<u8>, Seq<u8>>::empty(),
            store.limit() == Some(limit),
    {
        let store = Memory { entries: Vec::new(), limit: Some(limit) };
        proof {
            assert(store.contents() =~= Map::<Seq<u8>, Seq<u8>>::empty());
        }
        store
    }

    /// The number of entries.
    pub fn len(&self) -> (len: usize)
        ensures
            len == self.contents().len(),
            self.contents().dom().finite(),
    {
        proof {
            use_type_invariant(self);
            lemma_map_of_len(entries_view(self.entries@));
        }
        self.entries.len()
    }

    /// Where `key` is or would have to be: the index of the first entry whose
    /// key is not before `key`, and whether that entry's key is `key`.
    fn position(&self, key: &[u8]) -> (r: (usize, bool))
        ensures
            r.0 <= self.entries@.len(),
            forall|i: int| 0 <= i < r.0 ==> lex_lt((#[trigger] self.entries@[i]).0@, key@),
            forall|i: int|
                r.0 < i < self.entries@.len() ==> lex_lt(key@, (#[trigger] self.entries@[i]).0@),
            r.1 ==> r.0 < self.entries@.len() && self.entries@[r.0 as int].0@ == key@,
            !r.1 && r.0 < self.entries@.len() ==> lex_lt(key@, self.entries@[r.0 as int].0@),
    {
        proof {
            use_type_invariant(self);
        }
        let ghost listed = entries_view(self.entries@);
        let mut low: usize = 0;
        let mut high: usize = self.entries.len();
        while low < high
            invariant
                low <= high <= self.entries@.len(),
                listed == entries_view(self.entries@),
                keys_ascend(listed),
                forall|i: int| 0 <= i < low ==> lex_lt((#[trigger] self.entries@[i]).0@, key@),
                forall|i: int|
                    high <= i < self.entries@.len() ==> lex_lt(
                        key@,
                        (#[trigger] self.entries@[i]).0@,
                    ),
            decreases high - low,
        {
            let middle: usize = low + (high - low) / 2;
            let ghost pivot = listed[middle as int].0;
            assert(pivot == self.entries@[middle as int].0@);
            match place_of(self.entries[middle].0.as_slice(), key) {
                Place::Same => {
                    proof {
                        assert forall|i: int| 0 <= i < middle implies lex_lt(
                            (#[trigger] self.entries@[i]).0@,
                            key@,
                        ) by {
                            assert(lex_lt(listed[i].0, listed[middle as int].0));
                        }
                        assert forall|i: int| middle < i < self.entries@.len() implies lex_lt(
                            key@,
                            (#[trigger] self.entries@[i]).0@,
                        ) by {
                            assert(lex_lt(listed[middle as int].0, listed[i].0));
                        }
                    }
                    return (middle, true);
                },
                Place::Before => {
                    proof {
                        assert forall|i: int| 0 <= i < middle + 1 implies lex_lt(
                            (#[trigger] self.entries@[i]).0@,
                            key@,
                        ) by {
                            if i < middle {
                                assert(lex_lt(listed[i].0, listed[middle as int].0));
                                lemma_lex_lt_transitive(listed[i].0, pivot, key@);
                            }
                        }
                    }
                    low = middle + 1;
                },
                Place::After => {
                    proof {
                        assert forall|i: int| middle <= i < self.entries@.len() implies lex_lt(
                            key@,
                            (#[trigger] self.entries@[i]).0@,
                        ) by {
                            if middle < i {
                                assert(lex_lt(listed[middle as int].0, listed[i].0));
                                lemma_lex_lt_transitive(key@, pivot, listed[i].0);
                            }
                        }
                    }
                    high = middle;
                },
            }
        }
        (low, false)
    }

    /// The entries whose keys `wanted` accepts, in their order.
    fn select(&self, range: Option<&KeyRange>, prefix: &[u8]) -> (found: Vec<(Vec<u8>, Vec<u8>)>)
        ensures
            lists(
                entries_view(found@),
                self.contents(),
                match range {
                    Some(range) => range.keys(),
                    None => keys_with_prefix(prefix@),
                },
            ),
    {
        proof {
            use_type_invariant(self);
        }
        let ghost listed = entries_view(self.entries@);
        let ghost selected = match range {
            Some(range) => range.keys(),
            None => keys_with_prefix(prefix@),
        };
        let ghost keep = |entry: (Seq<u8>, Seq<u8>)| selected.contains(entry.0);
        let mut found: Vec<(Vec<u8>, Vec<u8>)> = Vec::new();
        let mut i: usize = 0;
        proof {
            reveal(Seq::filter);
            assert(listed.take(0) =~= Seq::empty());
            assert(entries_view(found@) =~= listed.take(0).filter(keep));
        }
        while i < self.entries.len()
            invariant
                i <= self.entries@.len(),
                listed == entries_view(self.entries@),
                selected == match range {
                    Some(range) => range.keys(),
                    None => keys_with_prefix(prefix@),
                },
                keep == |entry: (Seq<u8>, Seq<u8>)| selected.contains(entry.0),
                entries_view(found@) == listed.take(i as int).filter(keep),
            decreases self.entries@.len() - i,
        {
            let ghost before = entries_view(found@);
            proof {
                reveal(Seq::filter);
                let entry = self.entries@[i as int];
                assert(listed[i as int] == (entry.0@, entry.1@));
                assert(listed.take(i + 1).drop_last() =~= listed.take(i as int));
                assert(listed.take(i + 1).last() == listed[i as int]);
            }
            let key = self.entries[i].0.as_slice();
            let wanted = match range {
                Some(range) => {
                    let from = place_of(range.start.as_slice(), key);
                    let to = place_of(key, range.end.as_slice());
                    proof {
                        if from == Place::After {
                            lemma_lex_lt_asymmetric(key@, range.start@);
                        }
                        if to == Place::After {
                            lemma_lex_lt_asymmetric(range.end@, key@);
                        }
                        if to == Place::Same {
                            lemma_lex_lt_irreflexive(key@);
                        }
                    }
                    from != Place::After && (to == Place::Before || (to == Place::Same
                        && range.end_inclusive))
                },
                None => begins_with(key, prefix),
            };
            if wanted {
                found.push((copy_of(&self.entries[i].0), copy_of(&self.entries[i].1)));
                proof {
                    assert(entries_view(found@) =~= before.push(listed[i as int]));
                }
            }
            i = i + 1;
        }
        proof {
            assert(listed.take(i as int) =~= listed);
            lemma_selection_lists(listed, selected);
        }
        found
    }
}

/// A copy of the bytes of `bytes`.
fn vec_of(bytes: &[u8]) -> (copy: Vec<u8>)
    ensures
        copy@ == bytes@,
{
    let mut copy: Vec<u8> = Vec::new();
    let mut i: usize = 0;
    while i < bytes.len()
        invariant
            i <= bytes@.len(),
            copy@ == bytes@.take(i as int),
        decreases bytes@.len() - i,
    {
        copy.push(bytes[i]);
        proof {
            assert(copy@ =~= bytes@.take(i + 1));
        }
        i = i + 1;
    }
    proof {
        assert(bytes@.take(i as int) =~= bytes@);
    }
    copy
}

/// Entries with ascending keys make a map of as many entries.
pub proof fn lemma_map_of_len(entries: Seq<(Seq<u8>, Seq<u8>)>)
    requires
        keys_ascend(entries),
    ensures
        map_of(entries).dom().finite(),
        map_of(entries).len() == entries.len(),
    decreases entries.len(),
{
    if entries.len() == 0 {
        assert(map_of(entries).dom() =~= Set::<Seq<u8>>::empty());
    } else {
        let front = entries.drop_last();
        let last = entries.last();
        assert(keys_ascend(front)) by {
            assert forall|i: int, j: int| 0 <= i < j < front.len() implies lex_lt(
                (#[trigger] front[i]).0,
                (#[trigger] front[j]).0,
            ) by {
                assert(front[i] == entries[i] && front[j] == entries[j]);
            }
        }
        lemma_map_of_len(front);
        assert(!map_of(front).dom().contains(last.0)) by {
            if map_of(front).dom().contains(last.0) {
                let at = choose|at: int|
                    0 <= at < front.len() && (#[trigger] front[at]).0 == last.0;
                assert(front[at] == entries[at]);
                assert(lex_lt(entries[at].0, entries[entries.len() - 1].0));
                lemma_lex_lt_asymmetric(entries[at].0, last.0);
            }
        }
        assert(map_of(entries).dom() =~= map_of(front).dom().insert(last.0)) by {
            assert forall|key: Seq<u8>| map_of(entries).dom().contains(key) implies map_of(
                front,
            ).dom().insert(last.0).contains(key) by {
                let at = choose|at: int|
                    0 <= at < entries.len() && (#[trigger] entries[at]).0 == key;
                if at < entries.len() - 1 {
                    assert(front[at].0 == key);
                }
            }
            assert forall|key: Seq<u8>| map_of(front).dom().insert(last.0).contains(
                key,
            ) implies map_of(entries).dom().contains(key) by {
                if key == last.0 {
                    assert(entries[entries.len() - 1].0 == key);
                } else {
                    let at = choose|at: int|
                        0 <= at < front.len() && (#[trigger] front[at]).0 == key;
                    assert(entries[at].0 == key);
                }
            }
        }
    }
}

impl Storage for Memory {
    closed spec fn contents(&self) -> Map<Seq<u8>, Seq<u8>> {
        map_of(entries_view(self.entries@))
    }

    fn get(&mut self, key: &[u8]) -> (r: Result<Option<Vec<u8>>, StorageError>)
        ensures
            r is Ok,
            final(self).limit() == old(self).limit(),
    {
        proof {
            use_type_invariant(&*self);
        }
        let ghost listed = entries_view(self.entries@);
        let (at, found) = self.position(key);
        if found {
            proof {
                assert(listed[at as int].0 == key@);
                lemma_map_of_entry(listed, at as int);
            }
            Ok(Some(copy_of(&self.entries[at].1)))
        } else {
            proof {
                if lists_key(listed, key@) {
                    let i = choose|i: int|
                        0 <= i < listed.len() && (#[trigger] listed[i]).0 == key@;
                    assert(listed[i].0 == self.entries@[i].0@);
                    lemma_lex_lt_irreflexive(key@);
                }
            }
            Ok(None)
        }
    }

    fn put(&mut self, key: &[u8], value: &[u8]) -> (r: Result<(), StorageError>)
        ensures
            r is Ok <==> old(self).has_room(key@),
            r matches Err(e) ==> e.message@ == STORE_FULL@,
            final(self).limit() == old(self).limit(),
    {
        proof {
            use_type_invariant(&*self);
            lemma_map_of_len(entries_view(self.entries@));
        }
        let ghost before = entries_view(self.entries@);
        let (at, found) = self.position(key);
        if found {
            let mut entries: Vec<(Vec<u8>, Vec<u8>)> = Vec::new();
            core::mem::swap(&mut self.entries, &mut entries);
            entries.set(at, (vec_of(key), vec_of(value)));
            proof {
                let after = entries_view(entries@);
                assert(after =~= before.update(at as int, (key@, value@)));
                lemma_put_in_place(before, at as int, value@);
            }
            self.entries = entries;
            Ok(())
        } else {
            match self.limit {
                Some(limit) => {
                    if self.entries.len() >= limit {
                        proof {
                            if lists_key(before, key@) {
                                let i = choose|i: int|
                                    0 <= i < before.len() && (#[trigger] before[i]).0 == key@;
                                assert(before[i].0 == self.entries@[i].0@);
                                lemma_lex_lt_irreflexive(key@);
                            }
                        }
                        return Err(StorageError { message: STORE_FULL.to_owned() });
                    }
                },
                None => {},
            }
            let mut entries: Vec<(Vec<u8>, Vec<u8>)> = Vec::new();
            core::mem::swap(&mut self.entries, &mut entries);
            entries.insert(at, (vec_of(key), vec_of(value)));
            proof {
                let after = entries_view(entries@);
                assert(after =~= before.insert(at as int, (key@, value@)));
                assert forall|i: int| 0 <= i < at implies lex_lt(
                    (#[trigger] before[i]).0,
                    key@,
                ) by {
                    assert(before[i].0 == old(self).entries@[i].0@);
                }
                assert forall|i: int| at <= i < before.len() implies lex_lt(
                    key@,
                    (#[trigger] before[i]).0,
                ) by {
                    assert(before[i].0 == old(self).entries@[i].0@);
                }
                lemma_put_new(before, at as int, key@, value@);
            }
            self.entries = entries;
            Ok(())
        }
    }

    fn delete(&mut self, key: &[u8]) -> (r: Result<(), StorageError>)
        ensures
            r is Ok,
            final(self).limit() == old(self).limit(),
    {
        proof {
            use_type_invariant(&*self);
        }
        let ghost before = entries_view(self.entries@);
        let (at, found) = self.position(key);
        if found {
            let mut entries: Vec<(Vec<u8>, Vec<u8>)> = Vec::new();
            core::mem::swap(&mut self.entries, &mut entries);
            entries.remove(at);
            proof {
                let after = entries_view(entries@);
                assert(after =~= before.remove(at as int));
                assert(before[at as int].0 == key@);
                lemma_delete_at(before, at as int);
            }
            self.entries = entries;
        } else {
            proof {
                if lists_key(before, key@) {
                    let i = choose|i: int|
                        0 <= i < before.len() && (#[trigger] before[i]).0 == key@;
                    assert(before[i].0 == self.entries@[i].0@);
                    lemma_lex_lt_irreflexive(key@);
                }
                assert(self.contents() =~= old(self).contents().remove(key@));
            }
        }
        Ok(())
    }

    fn scan(&mut self, range: &KeyRange) -> (r: Result<Vec<(Vec<u8>, Vec<u8>)>, StorageError>)
        ensures
            r is Ok,
            final(self).limit() == old(self).limit(),
    {
        let nothing: Vec<u8> = Vec::new();
        Ok(self.select(Some(range), nothing.as_slice()))
    }

    fn scan_prefix(&mut self, prefix: &[u8]) -> (r: Result<
        Vec<(Vec<u8>, Vec<u8>)>,
        StorageError,
    >)
        ensures
            r is Ok,
            final(self).limit() == old(self).limit(),
    {
        Ok(self.select(None, prefix))
    }
}

/// A new value in the place of an entry changes what is held under its key.
proof fn lemma_put_in_place(entries: Seq<(Seq<u8>, Seq<u8>)>, at: int, value: Seq<u8>)
    requires
        keys_ascend(entries),
        0 <= at < entries.len(),
    ensures
        keys_ascend(entries.update(at, (entries[at].0, value))),
        map_of(entries.update(at, (entries[at].0, value))) == map_of(entries).insert(
            entries[at].0,
            value,
        ),
{
    let key = entries[at].0;
    let after = entries.update(at, (key, value));
    assert forall|i: int, j: int| 0 <= i < j < after.len() implies lex_lt(
        (#[trigger] after[i]).0,
        (#[trigger] after[j]).0,
    ) by {
        assert(after[i].0 == entries[i].0 && after[j].0 == entries[j].0);
    }
    assert forall|stored: Seq<u8>| lists_key(after, stored) == (lists_key(entries, stored)
        || stored == key) by {
        if lists_key(after, stored) {
            let i = choose|i: int| 0 <= i < after.len() && (#[trigger] after[i]).0 == stored;
            assert(entries[i].0 == stored);
        }
        if lists_key(entries, stored) {
            let i = choose|i: int| 0 <= i < entries.len() && (#[trigger] entries[i]).0 == stored;
            assert(after[i].0 == stored);
        }
        if stored == key {
            assert(after[at].0 == stored);
        }
    }
    assert forall|stored: Seq<u8>| lists_key(after, stored) implies map_of(after)[stored]
        == map_of(entries).insert(key, value)[stored] by {
        let i = choose|i: int| 0 <= i < after.len() && (#[trigger] after[i]).0 == stored;
        lemma_map_of_entry(after, i);
        lemma_map_of_entry(entries, i);
        if i != at {
            if i < at {
                lemma_lex_lt_asymmetric(entries[i].0, entries[at].0);
            } else {
                lemma_lex_lt_asymmetric(entries[at].0, entries[i].0);
            }
        }
    }
    assert(map_of(after) =~= map_of(entries).insert(key, value));
}

/// A new entry at the place of its key adds to what is held.
proof fn lemma_put_new(entries: Seq<(Seq<u8>, Seq<u8>)>, at: int, key: Seq<u8>, value: Seq<u8>)
    requires
        keys_ascend(entries),
        0 <= at <= entries.len(),
        forall|i: int| 0 <= i < at ==> lex_lt((#[trigger] entries[i]).0, key),
        forall|i: int| at <= i < entries.len() ==> lex_lt(key, (#[trigger] entries[i]).0),
    ensures
        keys_ascend(entries.insert(at, (key, value))),
        map_of(entries.insert(at, (key, value))) == map_of(entries).insert(key, value),
{
    let after = entries.insert(at, (key, value));
    assert forall|i: int, j: int| 0 <= i < j < after.len() implies lex_lt(
        (#[trigger] after[i]).0,
        (#[trigger] after[j]).0,
    ) by {
        let a = if i < at { i } else { i - 1 };
        let b = if j < at { j } else { j - 1 };
        if i != at {
            assert(after[i] == entries[a]);
        }
        if j != at {
            assert(after[j] == entries[b]);
        }
        if i != at && j != at {
            assert(lex_lt(entries[a].0, entries[b].0));
        }
    }
    assert forall|stored: Seq<u8>| lists_key(after, stored) == (lists_key(entries, stored)
        || stored == key) by {
        if lists_key(after, stored) {
            let i = choose|i: int| 0 <= i < after.len() && (#[trigger] after[i]).0 == stored;
            if i < at {
                assert(entries[i].0 == stored);
            } else if i > at {
                assert(entries[i - 1].0 == stored);
            }
        }
        if lists_key(entries, stored) {
            let i = choose|i: int| 0 <= i < entries.len() && (#[trigger] entries[i]).0 == stored;
            if i < at {
                assert(after[i].0 == stored);
            } else {
                assert(after[i + 1].0 == stored);
            }
        }
        if stored == key {
            assert(after[at].0 == stored);
        }
    }
    assert forall|stored: Seq<u8>| lists_key(after, stored) implies map_of(after)[stored]
        == map_of(entries).insert(key, value)[stored] by {
        let i = choose|i: int| 0 <= i < after.len() && (#[trigger] after[i]).0 == stored;
        lemma_map_of_entry(after, i);
        if i < at {
            lemma_map_of_entry(entries, i);
            lemma_lex_lt_asymmetric(entries[i].0, key);
        } else if i > at {
            lemma_map_of_entry(entries, i - 1);
            lemma_lex_lt_asymmetric(key, entries[i - 1].0);
        }
    }
    assert(map_of(after) =~= map_of(entries).insert(key, value));
}

/// Without one of its entries a store holds nothing under that entry's key.
proof fn lemma_delete_at(entries: Seq<(Seq<u8>, Seq<u8>)>, at: int)
    requires
        keys_ascend(entries),
        0 <= at < entries.len(),
    ensures
        keys_ascend(entries.remove(at)),
        map_of(entries.remove(at)) == map_of(entries).remove(entries[at].0),
{
    let key = entries[at].0;
    let after = entries.remove(at);
    assert forall|i: int, j: int| 0 <= i < j < after.len() implies lex_lt(
        (#[trigger] after[i]).0,
        (#[trigger] after[j]).0,
    ) by {
        let a = if i < at { i } else { i + 1 };
        let b = if j < at { j } else { j + 1 };
        assert(after[i] == entries[a] && after[j] == entries[b]);
        assert(lex_lt(entries[a].0, entries[b].0));
    }
    assert forall|stored: Seq<u8>| lists_key(after, stored) == (lists_key(entries, stored)
        && stored != key) by {
        if lists_key(after, stored) {
            let i = choose|i: int| 0 <= i < after.len() && (#[trigger] after[i]).0 == stored;
            let a = if i < at { i } else { i + 1 };
            assert(entries[a].0 == stored);
            if a < at {
                lemma_lex_lt_asymmetric(entries[a].0, entries[at].0);
            } else {
                lemma_lex_lt_asymmetric(entries[at].0, entries[a].0);
            }
        }
        if lists_key(entries, stored) && stored != key {
            let i = choose|i: int| 0 <= i < entries.len() && (#[trigger] entries[i]).0 == stored;
            if i < at {
                assert(after[i].0 == stored);
            } else {
                assert(after[i - 1].0 == stored);
            }
        }
    }
    assert forall|stored: Seq<u8>| lists_key(after, stored) implies map_of(after)[stored]
        == map_of(entries)[stored] by {
        let i = choose|i: int| 0 <= i < after.len() && (#[trigger] after[i]).0 == stored;
        let a = if i < at { i } else { i + 1 };
        assert(after[i] == entries[a]);
        lemma_map_of_entry(after, i);
        lemma_map_of_entry(entries, a);
    }
    assert(map_of(after) =~= map_of(entries).remove(key));
}

} // verus!
