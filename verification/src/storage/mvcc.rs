//! Snapshot-isolated transactions over an ordered store.
//!
//! A transaction is a version and the set of versions that were active when
//! it began. It reads the newest value that a visible version wrote, and it
//! writes under its own version unless a version that it cannot see has
//! written the key already.
use vstd::prelude::*;
use crate::error::{Error, MALFORMED_KEY};
use crate::storage::key::{
    lemma_active_order, lemma_encode_parse, lemma_parse_encode, lemma_prefix_covers,
    lemma_version_order, KeyView, MvccKey, MvccKeyPrefix, PrefixView,
};
use crate::storage::lex::{lemma_lex_lt_asymmetric, lex_le, lex_lt};
use crate::storage::model::{
    active_key, active_versions, after_begin, after_commit, after_rollback, after_write, begun,
    can_begin, counter_reading, ends_in_stray_key, has_stray_key, hidden, is_newest_from,
    is_newest_visible, lemma_newest_visible_unique, lemma_no_stray_key,
    lemma_span_holds_versions, lemma_version_in_span, logged_values, lost_only, next_version,
    next_version_key, read, shown, stored_version, stray_key_blocks, version_key, version_span,
    write_conflict, write_key, write_log, Snapshot,
};
use crate::storage::scanned::{log_read, logged_key, marked_active, value_read};
use crate::storage::version::Version;
use crate::storage::{
    copy_of, entries_view, keys_ascend, keys_with_prefix, lemma_filter_keeps_order,
    lemma_listed_in_order, lists, lists_key, lookup, value_view, KeyRange, Storage,
};

verus! {

/// The versions of `list` as a set.
pub open spec fn version_set(list: Seq<Version>) -> Set<u64> {
    Set::new(|version: u64| exists|i: int| 0 <= i < list.len() && (#[trigger] list[i]).0 == version)
}

/// The versions of `list` grow from each to the next.
pub open spec fn ascending(list: Seq<Version>) -> bool {
    forall|i: int, j: int|
        0 <= i < j < list.len() ==> (#[trigger] list[i]).0 < (#[trigger] list[j]).0
}

/// The stored keys of the values that the transaction sees under keys that
/// begin with `prefix`.
pub open spec fn visible_keys(snapshot: Snapshot, prefix: Seq<u8>) -> Set<Seq<u8>> {
    Set::new(
        |stored: Seq<u8>|
            KeyView::parse(stored) matches Some(KeyView::Version(key, version))
                && prefix.is_prefix_of(key) && snapshot.sees(version),
    )
}

/// The byte strings of `keys` as a set.
pub open spec fn key_set(keys: Seq<Vec<u8>>) -> Set<Seq<u8>> {
    Set::new(|key: Seq<u8>| exists|i: int| 0 <= i < keys.len() && (#[trigger] keys[i])@ == key)
}

/// How a `begin` that fails with an internal error leaves the store:
/// untouched where the counter gives no version, with the text that says
/// why, and with the transaction begun where a stray key sits among the
/// markers.
pub open spec fn begin_fault(
    before: Map<Seq<u8>, Seq<u8>>,
    after: Map<Seq<u8>, Seq<u8>>,
    message: Seq<char>,
) -> bool {
    match counter_reading(lookup(before, next_version_key())) {
        Err(text) => message == text && after == before,
        Ok(version) => {
            &&& message == MALFORMED_KEY@
            &&& after == after_begin(before, version)
            &&& has_stray_key(after, keys_with_prefix(PrefixView::TxnActive.encode()))
        },
    }
}

/// How a `begin` that the store fails can leave it: untouched, with the
/// counter moved on, or with the transaction begun.
pub open spec fn begin_cut_short(
    before: Map<Seq<u8>, Seq<u8>>,
    after: Map<Seq<u8>, Seq<u8>>,
) -> bool {
    ||| after == before
    ||| next_version(before) matches Some(version) && 1 <= version < u64::MAX && {
        ||| after == before.insert(
            next_version_key(),
            Version((version + 1) as u64).encode_spec(),
        )
        ||| after == after_begin(before, version)
    }
}

/// `r` and `after` are what becomes of a write by the transaction in the
/// store `before`, of `value` under `key` or, where `value` is `None`, of the
/// removal of `key`:
/// - an internal error that leaves the store alone, where the last key
///   that the store holds among the versions of `key` from the
///   transaction's floor upwards is a stray key;
/// - otherwise done, where the newest of those versions is one that the
///   transaction sees, or where there is none;
/// - otherwise a write conflict that leaves the store alone;
/// - a failure of the store, with nothing written or with the write logged
///   and no more.
pub open spec fn write_done(
    before: Map<Seq<u8>, Seq<u8>>,
    after: Map<Seq<u8>, Seq<u8>>,
    snapshot: Snapshot,
    key: Seq<u8>,
    value: Option<Seq<u8>>,
    r: Result<(), Error>,
) -> bool {
    match r {
        Ok(()) => {
            &&& !ends_in_stray_key(before, version_span(key, snapshot.floor(), u64::MAX, true))
            &&& !write_conflict(before, snapshot, key)
            &&& after == after_write(before, snapshot.version, key, value)
        },
        Err(Error::WriteConflict) => {
            &&& !ends_in_stray_key(before, version_span(key, snapshot.floor(), u64::MAX, true))
            &&& write_conflict(before, snapshot, key)
            &&& after == before
        },
        Err(Error::InternalError(message)) => {
            &&& message@ == MALFORMED_KEY@
            &&& ends_in_stray_key(before, version_span(key, snapshot.floor(), u64::MAX, true))
            &&& after == before
        },
        Err(Error::Storage(_)) => {
            ||| after == before
            ||| after == before.insert(write_key(snapshot.version, key), Seq::empty())
        },
    }
}

/// A transaction.
pub struct Mvcc {
    current_version: Version,
    active_versions: Vec<Version>,
}

impl View for Mvcc {
    type V = Snapshot;

    closed spec fn view(&self) -> Snapshot {
        Snapshot { version: self.current_version.0, active: version_set(self.active_versions@) }
    }
}

/// `r` and `after` are what becomes of a `begin` in the store `before`:
/// - a transaction with the version that the counter gives and with the
///   active transactions of the store as it then is, itself among them,
///   where the counter gives a version and no stray key sits among the
///   markers;
/// - an internal error, as `begin_fault` says, where the counter gives no
///   version or a stray key sits among the markers;
/// - a failure of the store, as `begin_cut_short` says.
pub open spec fn begin_done(
    before: Map<Seq<u8>, Seq<u8>>,
    after: Map<Seq<u8>, Seq<u8>>,
    r: Result<Mvcc, Error>,
) -> bool {
    match r {
        Ok(txn) => {
            &&& can_begin(before)
            &&& txn@ == begun(before)
            &&& 1 <= txn@.version < u64::MAX
            &&& txn@.active.contains(txn@.version)
            &&& after == after_begin(before, txn@.version)
            &&& !has_stray_key(after, keys_with_prefix(PrefixView::TxnActive.encode()))
        },
        Err(Error::InternalError(message)) => begin_fault(before, after, message@),
        Err(Error::Storage(_)) => begin_cut_short(before, after),
        Err(Error::WriteConflict) => false,
    }
}

/// `r` and `after` are what becomes of the commit of transaction `version`
/// in the store `before`:
/// - done, with the write log and the marker gone, where no stray key sits
///   in the write log;
/// - an internal error that leaves the store alone, where one does;
/// - a failure of the store, after which nothing is lost but entries of
///   the write log.
pub open spec fn commit_done(
    before: Map<Seq<u8>, Seq<u8>>,
    after: Map<Seq<u8>, Seq<u8>>,
    version: u64,
    r: Result<(), Error>,
) -> bool {
    match r {
        Ok(()) => {
            &&& after == after_commit(before, version)
            &&& !has_stray_key(before, keys_with_prefix(PrefixView::TxnWrite(version).encode()))
        },
        Err(Error::InternalError(message)) => {
            &&& message@ == MALFORMED_KEY@
            &&& has_stray_key(before, keys_with_prefix(PrefixView::TxnWrite(version).encode()))
            &&& after == before
        },
        Err(Error::Storage(_)) => lost_only(before, after, write_log(version)),
        Err(Error::WriteConflict) => false,
    }
}

/// `r` and `after` are what becomes of the rollback of transaction
/// `version` in the store `before`:
/// - done, with the values that the write log accounts for, the log and
///   the marker gone, where no stray key sits in the write log;
/// - an internal error that leaves the store alone, where one does;
/// - a failure of the store, after which nothing is lost but such values
///   and entries of the write log.
pub open spec fn rollback_done(
    before: Map<Seq<u8>, Seq<u8>>,
    after: Map<Seq<u8>, Seq<u8>>,
    version: u64,
    r: Result<(), Error>,
) -> bool {
    match r {
        Ok(()) => {
            &&& after == after_rollback(before, version)
            &&& !has_stray_key(before, keys_with_prefix(PrefixView::TxnWrite(version).encode()))
        },
        Err(Error::InternalError(message)) => {
            &&& message@ == MALFORMED_KEY@
            &&& has_stray_key(before, keys_with_prefix(PrefixView::TxnWrite(version).encode()))
            &&& after == before
        },
        Err(Error::Storage(_)) => lost_only(
            before,
            after,
            logged_values(before, version) + write_log(version),
        ),
        Err(Error::WriteConflict) => false,
    }
}

impl Mvcc {
    #[verifier::type_invariant]
    spec fn well_formed(&self) -> bool {
        &&& ascending(self.active_versions@)
        &&& 1 <= self.current_version.0 < u64::MAX
    }

    /// The version of the transaction, which is neither of the two that no
    /// transaction gets.
    pub fn version(&self) -> (version: Version)
        ensures
            version.0 == self@.version,
            1 <= version.0 < u64::MAX,
    {
        proof {
            use_type_invariant(self);
        }
        self.current_version
    }

    /// Whether the transaction sees what `version` wrote: `version` is not
    /// later than its own and was not active when it began.
    pub fn is_version_visible(&self, version: Version) -> (r: bool)
        ensures
            r == self@.sees(version.0),
    {
        proof {
            use_type_invariant(self);
        }
        version.0 <= self.current_version.0 && !is_listed(&self.active_versions, version)
    }

    /// Begins a transaction: takes the next version from the counter in
    /// `storage`, moves the counter on, marks the transaction as active and
    /// notes which transactions are active at this moment, itself among them.
    /// A counter that holds `0` or `u64::MAX`, the two versions that no
    /// transaction gets, or bytes that are no version, is an internal error
    /// that leaves the store alone.
    pub fn begin<S: Storage>(storage: &mut S) -> (r: Result<Mvcc, Error>)
        ensures
            begin_done(old(storage).contents(), final(storage).contents(), r),
    {
        let counter_key = MvccKey::NextVersion.encode()?;
        let stored = match storage.get(counter_key.as_slice()) {
            Ok(stored) => stored,
            Err(e) => {
                return Err(Error::Storage(e));
            },
        };
        let next_version = Self::version_from_counter(stored)?;
        let following = (next_version + 1).encode()?;
        match storage.put(counter_key.as_slice(), following.as_slice()) {
            Ok(()) => {},
            Err(e) => {
                return Err(Error::Storage(e));
            },
        }
        let marker = MvccKey::TxnActive(next_version).encode()?;
        let nothing: Vec<u8> = Vec::new();
        match storage.put(marker.as_slice(), nothing.as_slice()) {
            Ok(()) => {},
            Err(e) => {
                return Err(Error::Storage(e));
            },
        }
        proof {
            assert(nothing@ =~= Seq::<u8>::empty());
        }
        let active_versions = Self::scan_active_txn(storage)?;
        Ok(Mvcc { current_version: next_version, active_versions })
    }

    /// The transactions that are active in `storage`, oldest first.
    pub fn scan_active_txn<S: Storage>(storage: &mut S) -> (r: Result<Vec<Version>, Error>)
        ensures
            final(storage).contents() == old(storage).contents(),
            match r {
                Ok(list) => {
                    &&& ascending(list@)
                    &&& version_set(list@) == active_versions(old(storage).contents())
                    &&& !has_stray_key(
                        old(storage).contents(),
                        keys_with_prefix(PrefixView::TxnActive.encode()),
                    )
                },
                Err(Error::InternalError(message)) => message@ == MALFORMED_KEY@ && has_stray_key(
                    old(storage).contents(),
                    keys_with_prefix(PrefixView::TxnActive.encode()),
                ),
                Err(Error::Storage(_)) => true,
                Err(Error::WriteConflict) => false,
            },
    {
        let prefix = MvccKeyPrefix::TxnActive.encode()?;
        let entries = match storage.scan_prefix(prefix.as_slice()) {
            Ok(entries) => entries,
            Err(e) => {
                return Err(Error::Storage(e));
            },
        };
        let ghost store = storage.contents();
        let ghost listed = entries_view(entries@);
        let r = Self::active_from_entries(&entries);
        proof {
            match &r {
                Ok(list) => {
                    assert forall|i: int| 0 <= i < listed.len() implies KeyView::parse(
                        (#[trigger] listed[i]).0,
                    ) is Some by {
                        assert(marked_active(listed[i].0) is Some);
                    }
                    lemma_no_stray_key(
                        listed,
                        store,
                        keys_with_prefix(PrefixView::TxnActive.encode()),
                    );
                    assert forall|i: int, j: int| 0 <= i < j < list@.len() implies (
                    #[trigger] list@[i]).0 < (#[trigger] list@[j]).0 by {
                        lemma_markers_ascend(listed, list@, i, j);
                    }
                    assert(version_set(list@) =~= active_versions(store)) by {
                        assert forall|version: u64|
                            version_set(list@).contains(version) implies active_versions(
                            store,
                        ).contains(version) by {
                            let i = choose|i: int|
                                0 <= i < list@.len() && (#[trigger] list@[i]).0 == version;
                            lemma_encode_parse(listed[i].0);
                        }
                        assert forall|version: u64|
                            active_versions(store).contains(version) implies version_set(
                            list@,
                        ).contains(version) by {
                            lemma_prefix_covers(PrefixView::TxnActive, KeyView::TxnActive(version));
                            lemma_parse_encode(KeyView::TxnActive(version));
                            assert(lists_key(listed, active_key(version)));
                            let i = choose|i: int|
                                0 <= i < listed.len() && (#[trigger] listed[i]).0 == active_key(
                                    version,
                                );
                            assert(marked_active(listed[i].0) == Some(list@[i].0));
                        }
                    }
                },
                Err(_) => {
                    let i = choose|i: int|
                        0 <= i < listed.len() && marked_active((#[trigger] listed[i]).0) is None;
                    let stored = listed[i].0;
                    if let Some(key) = KeyView::parse(stored) {
                        lemma_encode_parse(stored);
                        lemma_prefix_covers(PrefixView::TxnActive, key);
                    }
                    assert(store.contains_key(stored));
                },
            }
        }
        r
    }

    /// Reads `key`: the newest value that a version visible to the
    /// transaction, and older than the transaction, wrote under it.
    pub fn get<S: Storage>(&self, storage: &mut S, key: Vec<u8>) -> (r: Result<
        Option<Vec<u8>>,
        Error,
    >)
        ensures
            final(storage).contents() == old(storage).contents(),
            match r {
                Ok(found) => {
                    &&& value_view(found) == read(old(storage).contents(), self@, key@)
                    &&& !stray_key_blocks(
                        old(storage).contents(),
                        self@,
                        version_span(key@, 0, self@.version, false),
                    )
                },
                Err(Error::InternalError(message)) => message@ == MALFORMED_KEY@
                    && stray_key_blocks(
                    old(storage).contents(),
                    self@,
                    version_span(key@, 0, self@.version, false),
                ),
                Err(Error::Storage(_)) => true,
                Err(Error::WriteConflict) => false,
            },
    {
        let begin = MvccKey::Version(copy_of(&key), Version::min()).encode()?;
        let end = MvccKey::Version(copy_of(&key), self.current_version).encode()?;
        let range = KeyRange { start: begin, end, end_inclusive: false };
        let entries = match storage.scan(&range) {
            Ok(entries) => entries,
            Err(e) => {
                return Err(Error::Storage(e));
            },
        };
        let r = self.newest_visible(&entries);
        proof {
            self.lemma_read_from_scan(storage.contents(), key@, entries_view(entries@), r);
        }
        r
    }

    /// Writes `value` under `key`.
    pub fn set<S: Storage>(&self, storage: &mut S, key: Vec<u8>, value: Vec<u8>) -> (r: Result<
        (),
        Error,
    >)
        ensures
            write_done(
                old(storage).contents(),
                final(storage).contents(),
                self@,
                key@,
                Some(value@),
                r,
            ),
    {
        self.write_inner(storage, key, Some(value))
    }

    /// Deletes `key`: removes what the transaction itself wrote under it.
    pub fn delete<S: Storage>(&self, storage: &mut S, key: Vec<u8>) -> (r: Result<(), Error>)
        ensures
            write_done(
                old(storage).contents(),
                final(storage).contents(),
                self@,
                key@,
                None,
                r,
            ),
    {
        self.write_inner(storage, key, None)
    }

    /// Writes `value` under `key`, or deletes `key` where `value` is `None`,
    /// unless the newest version of `key` is one that the transaction cannot
    /// see.
    fn write_inner<S: Storage>(&self, storage: &mut S, key: Vec<u8>, value: Option<Vec<u8>>) -> (r:
        Result<(), Error>)
        ensures
            write_done(
                old(storage).contents(),
                final(storage).contents(),
                self@,
                key@,
                value_view(value),
                r,
            ),
    {
        let floor = self.floor();
        let begin_key = MvccKey::Version(copy_of(&key), floor).encode()?;
        let end_key = MvccKey::Version(copy_of(&key), Version::max()).encode()?;
        let range = KeyRange { start: begin_key, end: end_key, end_inclusive: true };
        let entries = match storage.scan(&range) {
            Ok(entries) => entries,
            Err(e) => {
                return Err(Error::Storage(e));
            },
        };
        let ghost listed = entries_view(entries@);
        let checked = if entries.len() > 0 {
            let last: usize = entries.len() - 1;
            assert(listed[last as int].0 == entries@[last as int].0@);
            self.check_newest(entries[last].0.as_slice())
        } else {
            Ok(())
        };
        proof {
            self.lemma_conflict_from_scan(storage.contents(), key@, floor.0, listed);
        }
        checked?;
        let log_key = MvccKey::TxnWrite(self.current_version, copy_of(&key)).encode()?;
        let nothing: Vec<u8> = Vec::new();
        proof {
            assert(nothing@ =~= Seq::<u8>::empty());
        }
        match storage.put(log_key.as_slice(), nothing.as_slice()) {
            Ok(()) => {},
            Err(e) => {
                return Err(Error::Storage(e));
            },
        }
        let value_key = MvccKey::Version(key, self.current_version).encode()?;
        let done = match value {
            Some(bytes) => storage.put(value_key.as_slice(), bytes.as_slice()),
            None => storage.delete(value_key.as_slice()),
        };
        match done {
            Ok(()) => Ok(()),
            Err(e) => Err(Error::Storage(e)),
        }
    }

    /// The lowest version that may be invisible to the transaction.
    fn floor(&self) -> (floor: Version)
        ensures
            floor.0 == self@.floor(),
    {
        proof {
            use_type_invariant(self);
            let list = self.active_versions@;
            if list.len() > 0 {
                assert(version_set(list).contains(list[0].0));
                assert(self@.oldest_active(list[0].0));
                let oldest = choose|version: u64| self@.oldest_active(version);
                assert(oldest == list[0].0);
            }
        }
        if self.active_versions.len() == 0 {
            self.current_version + 1
        } else {
            self.active_versions[0]
        }
    }

    /// The entries under keys that begin with `prefix` whose values the
    /// transaction sees: every visible version of every such key, under its
    /// stored key and in the order of the stored keys.
    pub fn scan_visible_versions<S: Storage>(&self, storage: &mut S, prefix: Vec<u8>) -> (r: Result<
        Vec<(Vec<u8>, Vec<u8>)>,
        Error,
    >)
        ensures
            final(storage).contents() == old(storage).contents(),
            match r {
                Ok(entries) => {
                    &&& lists(
                        entries_view(entries@),
                        old(storage).contents(),
                        visible_keys(self@, prefix@),
                    )
                    &&& !has_stray_key(
                        old(storage).contents(),
                        keys_with_prefix(PrefixView::Version(prefix@).encode()),
                    )
                },
                Err(Error::InternalError(message)) => message@ == MALFORMED_KEY@ && has_stray_key(
                    old(storage).contents(),
                    keys_with_prefix(PrefixView::Version(prefix@).encode()),
                ),
                Err(Error::Storage(_)) => true,
                Err(Error::WriteConflict) => false,
            },
    {
        let stored_prefix = MvccKeyPrefix::Version(prefix).encode()?;
        let entries = match storage.scan_prefix(stored_prefix.as_slice()) {
            Ok(entries) => entries,
            Err(e) => {
                return Err(Error::Storage(e));
            },
        };
        let r = self.visible_entries(&entries);
        proof {
            let store = storage.contents();
            let listed = entries_view(entries@);
            let front = PrefixView::Version(prefix@);
            let keep = |entry: (Seq<u8>, Seq<u8>)| shown(self@, entry.0);
            match &r {
                Ok(kept) => {
                    let part = entries_view(kept@);
                    assert forall|i: int| 0 <= i < listed.len() implies KeyView::parse(
                        (#[trigger] listed[i]).0,
                    ) is Some by {
                        assert(stored_version(listed[i].0) is Some);
                    }
                    lemma_no_stray_key(listed, store, keys_with_prefix(front.encode()));
                    lemma_filter_keeps_order(listed, keep);
                    assert forall|i: int| 0 <= i < part.len() implies {
                        let (key, value) = #[trigger] part[i];
                        visible_keys(self@, prefix@).contains(key) && store.contains_key(key)
                            && store[key] == value
                    } by {
                        listed.lemma_filter_pred(keep, i);
                        assert(part.contains(part[i]));
                        listed.lemma_filter_contains_rev(keep, part[i]);
                        let at = choose|at: int| 0 <= at < listed.len() && listed[at] == part[i];
                        lemma_encode_parse(listed[at].0);
                        lemma_prefix_covers(front, KeyView::parse(listed[at].0).unwrap());
                    }
                    assert forall|key: Seq<u8>|
                        visible_keys(self@, prefix@).contains(key) && #[trigger] store.contains_key(
                            key,
                        ) implies lists_key(part, key) by {
                        lemma_encode_parse(key);
                        lemma_prefix_covers(front, KeyView::parse(key).unwrap());
                        assert(lists_key(listed, key));
                        let at = choose|at: int|
                            0 <= at < listed.len() && (#[trigger] listed[at]).0 == key;
                        listed.lemma_filter_contains(keep, at);
                        let i = choose|i: int| 0 <= i < part.len() && part[i] == listed[at];
                        assert(part[i].0 == key);
                    }
                },
                Err(e) => {
                    assert forall|i: int|
                        0 <= i < listed.len() && stored_version((#[trigger] listed[i]).0)
                            is None implies KeyView::parse(listed[i].0) is None
                        && store.contains_key(listed[i].0) by {
                        let stored = listed[i].0;
                        if let Some(key) = KeyView::parse(stored) {
                            lemma_encode_parse(stored);
                            lemma_prefix_covers(front, key);
                        }
                    }
                },
            }
        }
        r
    }

    /// Commits the transaction: removes its write log and its marker, so
    /// that transactions which begin from now on see what it wrote.
    pub fn commit<S: Storage>(&self, storage: &mut S) -> (r: Result<(), Error>)
        ensures
            commit_done(old(storage).contents(), final(storage).contents(), self@.version, r),
    {
        let prefix = MvccKeyPrefix::TxnWrite(self.current_version).encode()?;
        let entries = match storage.scan_prefix(prefix.as_slice()) {
            Ok(entries) => entries,
            Err(e) => {
                return Err(Error::Storage(e));
            },
        };
        let logged = Self::logged_keys(&entries);
        let log_keys = keys_of(&entries);
        proof {
            self.lemma_log_from_scan(storage.contents(), entries_view(entries@), logged, log_keys@);
        }
        logged?;
        delete_all(storage, &log_keys)?;
        let marker = MvccKey::TxnActive(self.current_version).encode()?;
        let unmarked = storage.delete(marker.as_slice());
        proof {
            if unmarked is Ok {
                assert(storage.contents() =~= after_commit(
                    old(storage).contents(),
                    self@.version,
                ));
            }
        }
        match unmarked {
            Ok(()) => Ok(()),
            Err(e) => Err(Error::Storage(e)),
        }
    }

    /// Rolls the transaction back: removes the values that its write log
    /// accounts for, then the log and its marker.
    pub fn rollback<S: Storage>(&self, storage: &mut S) -> (r: Result<(), Error>)
        ensures
            rollback_done(old(storage).contents(), final(storage).contents(), self@.version, r),
    {
        let prefix = MvccKeyPrefix::TxnWrite(self.current_version).encode()?;
        let entries = match storage.scan_prefix(prefix.as_slice()) {
            Ok(entries) => entries,
            Err(e) => {
                return Err(Error::Storage(e));
            },
        };
        let logged = Self::logged_keys(&entries);
        let log_keys = keys_of(&entries);
        proof {
            self.lemma_log_from_scan(storage.contents(), entries_view(entries@), logged, log_keys@);
        }
        let keys = logged?;
        let mut value_keys: Vec<Vec<u8>> = Vec::new();
        let mut i: usize = 0;
        while i < keys.len()
            invariant
                i <= keys@.len(),
                value_keys@.len() == i,
                forall|j: int|
                    0 <= j < i ==> (#[trigger] value_keys@[j])@ == version_key(
                        keys@[j]@,
                        self@.version,
                    ),
            decreases keys@.len() - i,
        {
            let value_key = MvccKey::Version(copy_of(&keys[i]), self.current_version).encode()?;
            value_keys.push(value_key);
            i = i + 1;
        }
        proof {
            self.lemma_values_from_log(
                storage.contents(),
                entries_view(entries@),
                keys@,
                value_keys@,
            );
        }
        delete_all(storage, &value_keys)?;
        let ghost valueless = storage.contents();
        let unlogged = delete_all(storage, &log_keys);
        proof {
            let before = old(storage).contents();
            let after = storage.contents();
            let gone = logged_values(before, self@.version) + write_log(self@.version);
            assert forall|stored: Seq<u8>|
                #![trigger after.contains_key(stored)]
                before.contains_key(stored) && !gone.contains(stored) implies after.contains_key(
                stored,
            ) by {
                assert(valueless.contains_key(stored));
            }
            assert(after.submap_of(before)) by {
                assert forall|stored: Seq<u8>| #[trigger]
                    after.dom().contains(stored) implies before.dom().contains(stored)
                    && after[stored] == before[stored] by {
                    assert(valueless.dom().contains(stored));
                }
            }
            if unlogged is Ok {
                assert(after =~= valueless.remove_keys(write_log(self@.version)));
            }
        }
        unlogged?;
        let marker = MvccKey::TxnActive(self.current_version).encode()?;
        match storage.delete(marker.as_slice()) {
            Ok(()) => Ok(()),
            Err(e) => Err(Error::Storage(e)),
        }
    }

    /// What `newest_visible` makes of a scan of the versions of `key` below
    /// the transaction's own is what the transaction reads under `key`.
    proof fn lemma_read_from_scan(
        &self,
        store: Map<Seq<u8>, Seq<u8>>,
        key: Seq<u8>,
        listed: Seq<(Seq<u8>, Seq<u8>)>,
        r: Result<Option<Vec<u8>>, Error>,
    )
        requires
            lists(listed, store, version_span(key, 0, self@.version, false)),
            value_read(self@, listed, r),
        ensures
            match r {
                Ok(found) => value_view(found) == read(store, self@, key) && !stray_key_blocks(
                    store,
                    self@,
                    version_span(key, 0, self@.version, false),
                ),
                Err(e) => e.is_internal(MALFORMED_KEY@) && stray_key_blocks(
                    store,
                    self@,
                    version_span(key, 0, self@.version, false),
                ),
            },
    {
        let span = version_span(key, 0, self@.version, false);
        let me = self@;
        // A stray key that blocks the read is listed, and nothing that is
        // listed after it is seen.
        assert forall|stray: Seq<u8>|
            #![trigger store.contains_key(stray)]
            store.contains_key(stray) && span.contains(stray) && KeyView::parse(stray) is None
                && (forall|other: Seq<u8>|
                #![trigger store.contains_key(other)]
                store.contains_key(other) && span.contains(other) && lex_lt(stray, other)
                    ==> hidden(me, other)) implies exists|at: int|
            0 <= at < listed.len() && stored_version((#[trigger] listed[at]).0) is None
                && forall|j: int|
                at < j < listed.len() ==> hidden(me, (#[trigger] listed[j]).0) by {
            assert(lists_key(listed, stray));
            let at = choose|at: int| 0 <= at < listed.len() && (#[trigger] listed[at]).0 == stray;
            assert forall|j: int| at < j < listed.len() implies hidden(
                me,
                (#[trigger] listed[j]).0,
            ) by {
                assert(lex_lt(listed[at].0, listed[j].0));
                assert(store.contains_key(listed[j].0));
            }
        }
        // Every version of `key` in the store that is older than the
        // transaction is listed, under its own key.
        assert forall|version: u64|
            version < me.version && store.contains_key(
                #[trigger] version_key(key, version),
            ) implies lists_key(listed, version_key(key, version)) by {
            lemma_version_in_span(key, 0, me.version, false, version);
        }
        match r {
            Ok(Some(value)) => {
                let i = choose|i: int|
                    {
                        &&& 0 <= i < listed.len()
                        &&& stored_version((#[trigger] listed[i]).0) matches Some(version)
                            && self@.sees(version)
                        &&& value@ == listed[i].1
                        &&& forall|j: int|
                            i < j < listed.len() ==> hidden(self@, (#[trigger] listed[j]).0)
                    };
                let version = stored_version(listed[i].0).unwrap();
                lemma_span_holds_versions(key, 0, me.version, false, listed[i].0);
                assert forall|later: u64|
                    version < later < me.version && store.contains_key(
                        #[trigger] version_key(key, later),
                    ) implies !me.sees(later) by {
                    assert(lists_key(listed, version_key(key, later)));
                    let j = choose|j: int|
                        0 <= j < listed.len() && (#[trigger] listed[j]).0 == version_key(
                            key,
                            later,
                        );
                    lemma_version_order(key, version, later);
                    lemma_listed_in_order(listed, store, span, i, j);
                    lemma_parse_encode(KeyView::Version(key, later));
                    assert(hidden(me, listed[j].0));
                }
                assert(is_newest_visible(store, me, key, version));
                let chosen = choose|version: u64| is_newest_visible(store, me, key, version);
                lemma_newest_visible_unique(store, me, key, version, chosen);
            },
            Ok(None) => {
                assert forall|version: u64| !is_newest_visible(store, me, key, version) by {
                    if is_newest_visible(store, me, key, version) {
                        assert(lists_key(listed, version_key(key, version)));
                        let j = choose|j: int|
                            0 <= j < listed.len() && (#[trigger] listed[j]).0 == version_key(
                                key,
                                version,
                            );
                        lemma_parse_encode(KeyView::Version(key, version));
                        assert(hidden(me, listed[j].0));
                    }
                }
            },
            Err(e) => {
                let i = choose|i: int|
                    0 <= i < listed.len() && stored_version((#[trigger] listed[i]).0) is None
                        && forall|j: int|
                        i < j < listed.len() ==> hidden(me, (#[trigger] listed[j]).0);
                let stray = listed[i].0;
                lemma_span_holds_versions(key, 0, me.version, false, stray);
                assert(store.contains_key(stray));
                assert forall|other: Seq<u8>|
                    #![trigger store.contains_key(other)]
                    store.contains_key(other) && span.contains(other) && lex_lt(
                        stray,
                        other,
                    ) implies hidden(me, other) by {
                    assert(lists_key(listed, other));
                    let j = choose|j: int|
                        0 <= j < listed.len() && (#[trigger] listed[j]).0 == other;
                    lemma_listed_in_order(listed, store, span, i, j);
                }
            },
        }
    }

    /// What the key of the last entry of a scan from the floor upwards says
    /// of a write: there is a conflict exactly where it is the key of a
    /// version that the transaction cannot see.
    proof fn lemma_conflict_from_scan(
        &self,
        store: Map<Seq<u8>, Seq<u8>>,
        key: Seq<u8>,
        floor: u64,
        listed: Seq<(Seq<u8>, Seq<u8>)>,
    )
        requires
            floor == self@.floor(),
            lists(listed, store, version_span(key, floor, u64::MAX, true)),
        ensures
            listed.len() == 0 ==> !write_conflict(store, self@, key) && !ends_in_stray_key(
                store,
                version_span(key, floor, u64::MAX, true),
            ),
            listed.len() > 0 ==> match stored_version(listed.last().0) {
                Some(version) => write_conflict(store, self@, key) == !self@.sees(version)
                    && !ends_in_stray_key(store, version_span(key, floor, u64::MAX, true)),
                None => KeyView::parse(listed.last().0) is None && ends_in_stray_key(
                    store,
                    version_span(key, floor, u64::MAX, true),
                ),
            },
    {
        let span = version_span(key, floor, u64::MAX, true);
        let me = self@;
        // A stray key that ends what the store holds in the span ends the listing.
        assert forall|stray: Seq<u8>|
            #![trigger store.contains_key(stray)]
            store.contains_key(stray) && span.contains(stray) && (forall|other: Seq<u8>|
                #![trigger store.contains_key(other)]
                store.contains_key(other) && span.contains(other) ==> lex_le(
                    other,
                    stray,
                )) implies listed.len() > 0 && listed.last().0 == stray by {
            assert(lists_key(listed, stray));
            let j = choose|j: int| 0 <= j < listed.len() && (#[trigger] listed[j]).0 == stray;
            let last = listed.len() - 1;
            if j < last {
                assert(store.contains_key(listed[last].0));
                assert(lex_lt(listed[j].0, listed[last].0));
                lemma_lex_lt_asymmetric(listed[j].0, listed[last].0);
            }
        }
        assert forall|version: u64|
            floor <= version && store.contains_key(
                #[trigger] version_key(key, version),
            ) implies lists_key(listed, version_key(key, version)) by {
            lemma_version_in_span(key, floor, u64::MAX, true, version);
        }
        if listed.len() == 0 {
            assert forall|version: u64| !is_newest_from(store, key, me.floor(), version) by {
                if is_newest_from(store, key, me.floor(), version) {
                    assert(lists_key(listed, version_key(key, version)));
                }
            }
        } else {
            let last = listed.len() - 1;
            let stored = listed[last].0;
            lemma_span_holds_versions(key, floor, u64::MAX, true, stored);
            assert(store.contains_key(stored));
            if stored_version(stored) is None {
                assert forall|other: Seq<u8>|
                    #![trigger store.contains_key(other)]
                    store.contains_key(other) && span.contains(other) implies lex_le(
                    other,
                    stored,
                ) by {
                    assert(lists_key(listed, other));
                    let j = choose|j: int|
                        0 <= j < listed.len() && (#[trigger] listed[j]).0 == other;
                    if j < last {
                        assert(lex_lt(listed[j].0, listed[last].0));
                    }
                }
            }
            if let Some(newest) = stored_version(stored) {
                assert forall|later: u64| newest < later implies !store.contains_key(
                    #[trigger] version_key(key, later),
                ) by {
                    if store.contains_key(version_key(key, later)) {
                        assert(lists_key(listed, version_key(key, later)));
                        let j = choose|j: int|
                            0 <= j < listed.len() && (#[trigger] listed[j]).0 == version_key(
                                key,
                                later,
                            );
                        lemma_version_order(key, newest, later);
                        lemma_listed_in_order(listed, store, span, last, j);
                    }
                }
                assert(is_newest_from(store, key, me.floor(), newest));
                assert forall|version: u64|
                    is_newest_from(store, key, me.floor(), version) implies version == newest by {
                    if version < newest {
                        assert(store.contains_key(version_key(key, newest)));
                    }
                }
            }
        }
    }

    /// The stored keys that a scan of the transaction's write log lists are
    /// the keys of its write log in the store, unless a stray key is among
    /// them.
    proof fn lemma_log_from_scan(
        &self,
        store: Map<Seq<u8>, Seq<u8>>,
        listed: Seq<(Seq<u8>, Seq<u8>)>,
        logged: Result<Vec<Vec<u8>>, Error>,
        log_keys: Seq<Vec<u8>>,
    )
        requires
            lists(listed, store, keys_with_prefix(PrefixView::TxnWrite(self@.version).encode())),
            log_read(listed, logged),
            log_keys.len() == listed.len(),
            forall|i: int| 0 <= i < log_keys.len() ==> (#[trigger] log_keys[i])@ == listed[i].0,
        ensures
            match logged {
                Ok(_) => {
                    &&& forall|stored: Seq<u8>| #[trigger]
                        store.contains_key(stored) ==> key_set(log_keys).contains(stored)
                            == write_log(self@.version).contains(stored)
                    &&& !has_stray_key(
                        store,
                        keys_with_prefix(PrefixView::TxnWrite(self@.version).encode()),
                    )
                },
                Err(e) => e.is_internal(MALFORMED_KEY@) && has_stray_key(
                    store,
                    keys_with_prefix(PrefixView::TxnWrite(self@.version).encode()),
                ),
            },
    {
        let front = PrefixView::TxnWrite(self@.version);
        match logged {
            Ok(keys) => {
                assert forall|i: int| 0 <= i < listed.len() implies KeyView::parse(
                    (#[trigger] listed[i]).0,
                ) is Some by {
                    assert(logged_key(listed[i].0) is Some);
                }
                lemma_no_stray_key(listed, store, keys_with_prefix(front.encode()));
                assert forall|stored: Seq<u8>| #[trigger] store.contains_key(stored) implies key_set(
                    log_keys,
                ).contains(stored) == write_log(self@.version).contains(stored) by {
                    if key_set(log_keys).contains(stored) {
                        let i = choose|i: int|
                            0 <= i < log_keys.len() && (#[trigger] log_keys[i])@ == stored;
                        assert(logged_key(listed[i].0) is Some);
                        lemma_encode_parse(stored);
                        lemma_prefix_covers(front, KeyView::parse(stored).unwrap());
                    }
                    if write_log(self@.version).contains(stored) {
                        lemma_encode_parse(stored);
                        lemma_prefix_covers(front, KeyView::parse(stored).unwrap());
                        assert(lists_key(listed, stored));
                        let i = choose|i: int|
                            0 <= i < listed.len() && (#[trigger] listed[i]).0 == stored;
                        assert(log_keys[i]@ == stored);
                    }
                }
            },
            Err(_) => {
                assert forall|i: int|
                    0 <= i < listed.len() && logged_key((#[trigger] listed[i]).0)
                        is None implies KeyView::parse(listed[i].0) is None && store.contains_key(
                    listed[i].0,
                ) by {
                    let stored = listed[i].0;
                    if let Some(key) = KeyView::parse(stored) {
                        lemma_encode_parse(stored);
                        lemma_prefix_covers(front, key);
                    }
                }
            },
        }
    }

    /// The stored keys of the transaction's versions of the keys that its
    /// write log records are the keys of the values that the log accounts
    /// for.
    proof fn lemma_values_from_log(
        &self,
        store: Map<Seq<u8>, Seq<u8>>,
        listed: Seq<(Seq<u8>, Seq<u8>)>,
        keys: Seq<Vec<u8>>,
        value_keys: Seq<Vec<u8>>,
    )
        requires
            lists(listed, store, keys_with_prefix(PrefixView::TxnWrite(self@.version).encode())),
            keys.len() == listed.len(),
            forall|i: int|
                0 <= i < listed.len() ==> logged_key((#[trigger] listed[i]).0) == Some(keys[i]@),
            value_keys.len() == keys.len(),
            forall|i: int|
                0 <= i < keys.len() ==> (#[trigger] value_keys[i])@ == version_key(
                    keys[i]@,
                    self@.version,
                ),
        ensures
            key_set(value_keys) == logged_values(store, self@.version),
    {
        let front = PrefixView::TxnWrite(self@.version);
        let me = self@.version;
        assert forall|stored: Seq<u8>| key_set(value_keys).contains(stored) implies logged_values(
            store,
            me,
        ).contains(stored) by {
            let i = choose|i: int|
                0 <= i < value_keys.len() && (#[trigger] value_keys[i])@ == stored;
            assert(logged_key(listed[i].0) == Some(keys[i]@));
            lemma_encode_parse(listed[i].0);
            lemma_prefix_covers(front, KeyView::parse(listed[i].0).unwrap());
            lemma_parse_encode(KeyView::Version(keys[i]@, me));
            assert(store.contains_key(listed[i].0));
        }
        assert forall|stored: Seq<u8>| logged_values(store, me).contains(stored) implies key_set(
            value_keys,
        ).contains(stored) by {
            lemma_encode_parse(stored);
            let key = KeyView::parse(stored).unwrap()->Version_0;
            lemma_prefix_covers(front, KeyView::TxnWrite(me, key));
            lemma_parse_encode(KeyView::TxnWrite(me, key));
            assert(lists_key(listed, write_key(me, key)));
            let i = choose|i: int|
                0 <= i < listed.len() && (#[trigger] listed[i]).0 == write_key(me, key);
            assert(logged_key(listed[i].0) == Some(keys[i]@));
            assert(value_keys[i]@ == stored);
        }
        assert(key_set(value_keys) =~= logged_values(store, me));
    }
}

/// Whether `version` is in `list`, by bisection.
fn is_listed(list: &Vec<Version>, version: Version) -> (r: bool)
    requires
        ascending(list@),
    ensures
        r == version_set(list@).contains(version.0),
{
    let mut low: usize = 0;
    let mut high: usize = list.len();
    while low < high
        invariant
            low <= high <= list@.len(),
            ascending(list@),
            forall|i: int| 0 <= i < low ==> (#[trigger] list@[i]).0 < version.0,
            forall|i: int| high <= i < list@.len() ==> version.0 < (#[trigger] list@[i]).0,
        decreases high - low,
    {
        let middle: usize = low + (high - low) / 2;
        let found: u64 = list[middle].0;
        if found == version.0 {
            return true;
        } else if found < version.0 {
            low = middle + 1;
        } else {
            high = middle;
        }
    }
    false
}

/// Removes each of `keys` from `storage`, and stops at the first that the
/// store fails to remove.
fn delete_all<S: Storage>(storage: &mut S, keys: &Vec<Vec<u8>>) -> (r: Result<(), Error>)
    ensures
        lost_only(old(storage).contents(), final(storage).contents(), key_set(keys@)),
        match r {
            Ok(()) => final(storage).contents() == old(storage).contents().remove_keys(
                key_set(keys@),
            ),
            Err(e) => e is Storage,
        },
{
    let mut i: usize = 0;
    proof {
        assert(storage.contents() =~= old(storage).contents().remove_keys(
            key_set(keys@.take(0)),
        ));
    }
    while i < keys.len()
        invariant
            i <= keys@.len(),
            storage.contents() == old(storage).contents().remove_keys(
                key_set(keys@.take(i as int)),
            ),
        decreases keys@.len() - i,
    {
        let ghost done = key_set(keys@.take(i as int));
        proof {
            assert forall|key: Seq<u8>| done.contains(key) implies key_set(keys@).contains(
                key,
            ) by {
                let at = choose|at: int|
                    0 <= at < keys@.take(i as int).len() && (#[trigger] keys@.take(
                        i as int,
                    )[at])@ == key;
                assert(keys@[at]@ == key);
            }
        }
        match storage.delete(keys[i].as_slice()) {
            Ok(()) => {},
            Err(e) => {
                return Err(Error::Storage(e));
            },
        }
        proof {
            let next = key_set(keys@.take(i + 1));
            assert forall|key: Seq<u8>| next.contains(key) == (done.contains(key) || key
                == keys@[i as int]@) by {
                if next.contains(key) {
                    let at = choose|at: int|
                        0 <= at < keys@.take(i + 1).len() && (#[trigger] keys@.take(
                            i + 1,
                        )[at])@ == key;
                    if at < i {
                        assert(keys@.take(i as int)[at]@ == key);
                    }
                }
                if done.contains(key) {
                    let at = choose|at: int|
                        0 <= at < keys@.take(i as int).len() && (#[trigger] keys@.take(
                            i as int,
                        )[at])@ == key;
                    assert(keys@.take(i + 1)[at]@ == key);
                }
                if key == keys@[i as int]@ {
                    assert(keys@.take(i + 1)[i as int]@ == key);
                }
            }
            assert(storage.contents() =~= old(storage).contents().remove_keys(next));
        }
        i = i + 1;
    }
    proof {
        assert(keys@.take(i as int) =~= keys@);
    }
    Ok(())
}

/// The stored keys of `entries`.
fn keys_of(entries: &Vec<(Vec<u8>, Vec<u8>)>) -> (keys: Vec<Vec<u8>>)
    ensures
        keys@.len() == entries@.len(),
        forall|i: int| 0 <= i < keys@.len() ==> (#[trigger] keys@[i])@ == entries@[i].0@,
{
    let mut keys: Vec<Vec<u8>> = Vec::new();
    let mut i: usize = 0;
    while i < entries.len()
        invariant
            i <= entries@.len(),
            keys@.len() == i,
            forall|j: int| 0 <= j < i ==> (#[trigger] keys@[j])@ == entries@[j].0@,
        decreases entries@.len() - i,
    {
        keys.push(copy_of(&entries[i].0));
        i = i + 1;
    }
    keys
}

/// Markers that a scan lists in order stand for versions in ascending order.
proof fn lemma_markers_ascend(listed: Seq<(Seq<u8>, Seq<u8>)>, list: Seq<Version>, i: int, j: int)
    requires
        0 <= i < j < list.len(),
        list.len() == listed.len(),
        keys_ascend(listed),
        forall|a: int|
            0 <= a < listed.len() ==> marked_active((#[trigger] listed[a]).0) == Some(list[a].0),
    ensures
        list[i].0 < list[j].0,
{
    assert(marked_active(listed[i].0) == Some(list[i].0));
    assert(marked_active(listed[j].0) == Some(list[j].0));
    lemma_encode_parse(listed[i].0);
    lemma_encode_parse(listed[j].0);
    lemma_active_order(list[i].0, list[j].0);
}

} // verus!
