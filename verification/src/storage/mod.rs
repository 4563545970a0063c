//! The storage side of the library: the ordered store that the transaction
//! layer stands on, and versions, keys and transactions themselves.
use vstd::prelude::*;
use crate::error::StorageError;
use crate::storage::lex::{lemma_lex_lt_asymmetric, lex_le, lex_lt};

pub mod key;
pub mod keycode;
pub mod laws;
pub mod lex;
pub mod memory;
pub mod model;
pub mod mvcc;
pub mod scanned;
pub mod version;

verus! {

/// The keys from `start` up to `end`, which itself belongs to the range only
/// where `end_inclusive` is set.
#[derive(Debug, Clone, PartialEq, Eq)]
pub struct KeyRange {
    pub start: Vec<u8>,
    pub end: Vec<u8>,
    pub end_inclusive: bool,
}

impl KeyRange {
    /// The keys that the range holds.
    pub open spec fn keys(&self) -> Set<Seq<u8>> {
        keys_between(self.start@, self.end@, self.end_inclusive)
    }
}

/// The keys from `start` up to `end`, and `end` itself where `end_inclusive`
/// is set.
pub open spec fn keys_between(start: Seq<u8>, end: Seq<u8>, end_inclusive: bool) -> Set<Seq<u8>> {
    Set::new(
        |key: Seq<u8>|
            lex_le(start, key) && if end_inclusive {
                lex_le(key, end)
            } else {
                lex_lt(key, end)
            },
    )
}

/// The keys that begin with `prefix`.
pub open spec fn keys_with_prefix(prefix: Seq<u8>) -> Set<Seq<u8>> {
    Set::new(|key: Seq<u8>| prefix.is_prefix_of(key))
}

/// The entries of a scan as pairs of byte strings.
pub open spec fn entries_view(entries: Seq<(Vec<u8>, Vec<u8>)>) -> Seq<(Seq<u8>, Seq<u8>)> {
    Seq::new(entries.len(), |i: int| (entries[i].0@, entries[i].1@))
}

/// What a point lookup finds as a byte string.
pub open spec fn value_view(found: Option<Vec<u8>>) -> Option<Seq<u8>> {
    match found {
        Some(value) => Some(value@),
        None => None,
    }
}

/// What `contents` holds under `key`.
pub open spec fn lookup(contents: Map<Seq<u8>, Seq<u8>>, key: Seq<u8>) -> Option<Seq<u8>> {
    if contents.contains_key(key) {
        Some(contents[key])
    } else {
        None
    }
}

/// `key` is the key of one of `entries`.
pub open spec fn lists_key(entries: Seq<(Seq<u8>, Seq<u8>)>, key: Seq<u8>) -> bool {
    exists|i: int| 0 <= i < entries.len() && (#[trigger] entries[i]).0 == key
}

/// The keys of `entries` grow from each entry to the next.
pub open spec fn keys_ascend(entries: Seq<(Seq<u8>, Seq<u8>)>) -> bool {
    forall|i: int, j: int|
        0 <= i < j < entries.len() ==> lex_lt((#[trigger] entries[i]).0, (#[trigger] entries[j]).0)
}

/// `entries` are exactly the entries of `contents` whose keys are in
/// `selected`, each once, in ascending order of their keys.
pub open spec fn lists(
    entries: Seq<(Seq<u8>, Seq<u8>)>,
    contents: Map<Seq<u8>, Seq<u8>>,
    selected: Set<Seq<u8>>,
) -> bool {
    &&& keys_ascend(entries)
    &&& forall|i: int|
        0 <= i < entries.len() ==> {
            let (key, value) = #[trigger] entries[i];
            selected.contains(key) && contents.contains_key(key) && contents[key] == value
        }
    &&& forall|key: Seq<u8>|
        selected.contains(key) && #[trigger] contents.contains_key(key) ==> lists_key(
            entries,
            key,
        )
}

/// In a listing an entry with a smaller key stands before one with a greater.
pub proof fn lemma_listed_in_order(
    entries: Seq<(Seq<u8>, Seq<u8>)>,
    contents: Map<Seq<u8>, Seq<u8>>,
    selected: Set<Seq<u8>>,
    i: int,
    j: int,
)
    requires
        lists(entries, contents, selected),
        0 <= i < entries.len(),
        0 <= j < entries.len(),
        lex_lt(entries[i].0, entries[j].0),
    ensures
        i < j,
{
    lemma_lex_lt_asymmetric(entries[i].0, entries[j].0);
    if j < i {
        assert(lex_lt(entries[j].0, entries[i].0));
    }
}

/// The part of a listing that a test on the entries keeps is in ascending
/// order as the listing is.
pub proof fn lemma_filter_keeps_order(
    entries: Seq<(Seq<u8>, Seq<u8>)>,
    keep: spec_fn((Seq<u8>, Seq<u8>)) -> bool,
)
    requires
        keys_ascend(entries),
    ensures
        keys_ascend(entries.filter(keep)),
    decreases entries.len(),
{
    reveal(Seq::filter);
    if entries.len() > 0 {
        let front = entries.drop_last();
        let last = entries.last();
        assert(keys_ascend(front)) by {
            assert forall|i: int, j: int| 0 <= i < j < front.len() implies lex_lt(
                (#[trigger] front[i]).0,
                (#[trigger] front[j]).0,
            ) by {
                assert(front[i] == entries[i] && front[j] == entries[j]);
            }
        }
        lemma_filter_keeps_order(front, keep);
        let kept = front.filter(keep);
        if keep(last) {
            let all = kept.push(last);
            assert forall|i: int, j: int| 0 <= i < j < all.len() implies lex_lt(
                (#[trigger] all[i]).0,
                (#[trigger] all[j]).0,
            ) by {
                if j == kept.len() {
                    assert(kept.contains(kept[i]));
                    front.lemma_filter_contains_rev(keep, kept[i]);
                    let at = choose|at: int| 0 <= at < front.len() && front[at] == kept[i];
                    assert(entries[at] == kept[i]);
                    assert(entries[entries.len() - 1] == last);
                } else {
                    assert(all[i] == kept[i] && all[j] == kept[j]);
                }
            }
        }
    }
}

/// An ordered store of byte strings under byte-string keys.
///
/// The transaction layer reads and writes the store through these five
/// operations and relies on what they promise here. Each may fail; a failed
/// operation leaves the contents as they were.
pub trait Storage {
    /// What the store holds. A store that is written and proved in Verus
    /// says so here; one that is not has nothing to say.
    open spec fn contents(&self) -> Map<Seq<u8>, Seq<u8>> {
        arbitrary()
    }

    /// The value under `key`, if there is one.
    fn get(&mut self, key: &[u8]) -> (r: Result<Option<Vec<u8>>, StorageError>)
        ensures
            final(self).contents() == old(self).contents(),
            r matches Ok(found) ==> value_view(found) == lookup(old(self).contents(), key@),
    ;

    /// Puts `value` under `key`, in place of what was there.
    fn put(&mut self, key: &[u8], value: &[u8]) -> (r: Result<(), StorageError>)
        ensures
            r is Ok ==> final(self).contents() == old(self).contents().insert(key@, value@),
            r is Err ==> final(self).contents() == old(self).contents(),
    ;

    /// Removes `key` and its value, if it is there.
    fn delete(&mut self, key: &[u8]) -> (r: Result<(), StorageError>)
        ensures
            r is Ok ==> final(self).contents() == old(self).contents().remove(key@),
            r is Err ==> final(self).contents() == old(self).contents(),
    ;

    /// The entries whose keys lie in `range`, in ascending key order.
    fn scan(&mut self, range: &KeyRange) -> (r: Result<Vec<(Vec<u8>, Vec<u8>)>, StorageError>)
        ensures
            final(self).contents() == old(self).contents(),
            r matches Ok(entries) ==> lists(
                entries_view(entries@),
                old(self).contents(),
                range.keys(),
            ),
    ;

    /// The entries whose keys begin with `prefix`, in ascending key order.
    fn scan_prefix(&mut self, prefix: &[u8]) -> (r: Result<
        Vec<(Vec<u8>, Vec<u8>)>,
        StorageError,
    >)
        ensures
            final(self).contents() == old(self).contents(),
            r matches Ok(entries) ==> lists(
                entries_view(entries@),
                old(self).contents(),
                keys_with_prefix(prefix@),
            ),
    ;
}

/// A copy of `bytes`.
pub fn copy_of(bytes: &Vec<u8>) -> (copy: Vec<u8>)
    ensures
        copy@ == bytes@,
{
    let copy = bytes.clone();
    proof {
        assert(copy@ =~= bytes@);
    }
    copy
}

} // verus!
