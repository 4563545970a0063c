//! What a transaction makes of the entries that a scan of the store hands
//! it. Nothing here touches the store: each function takes the entries as
//! they came and says what follows from them.
use vstd::prelude::*;
use crate::error::{
    Error, MALFORMED_KEY, UNEXPECTED_ACTIVE_KEY, UNEXPECTED_VERSION_KEY, UNEXPECTED_WRITE_KEY,
    VERSIONS_EXHAUSTED, VERSION_RESERVED,
};
use crate::storage::key::{KeyView, MvccKey};
use crate::storage::model::{counter_reading, hidden, shown, stored_version, Snapshot};
use crate::storage::mvcc::Mvcc;
use crate::storage::version::Version;
use crate::storage::{copy_of, entries_view, value_view};

verus! {

/// The version that the stored key `stored` marks as active, if it is such a
/// marker.
pub open spec fn marked_active(stored: Seq<u8>) -> Option<u64> {
    match KeyView::parse(stored) {
        Some(KeyView::TxnActive(version)) => Some(version),
        _ => None,
    }
}

/// The key that the stored key `stored` records as written, if it is an
/// entry of a write log.
pub open spec fn logged_key(stored: Seq<u8>) -> Option<Seq<u8>> {
    match KeyView::parse(stored) {
        Some(KeyView::TxnWrite(_, key)) => Some(key),
        _ => None,
    }
}

/// The text of the error that a stored key gives where another was expected:
/// one that is no key at all is malformed, one of another family unexpected.
pub open spec fn key_fault(stored: Seq<u8>, unexpected: Seq<char>) -> Seq<char> {
    if KeyView::parse(stored) is None {
        MALFORMED_KEY@
    } else {
        unexpected
    }
}

/// `r` is what reading the markers in `listed` gives: the versions behind
/// them in their order, or an internal error for the first entry whose key
/// is no marker of an active transaction.
pub open spec fn markers_read(
    listed: Seq<(Seq<u8>, Seq<u8>)>,
    r: Result<Vec<Version>, Error>,
) -> bool {
    match r {
        Ok(list) => {
            &&& list@.len() == listed.len()
            &&& forall|i: int|
                0 <= i < listed.len() ==> marked_active((#[trigger] listed[i]).0) == Some(
                    list@[i].0,
                )
        },
        Err(e) => exists|i: int|
            {
                &&& 0 <= i < listed.len()
                &&& marked_active((#[trigger] listed[i]).0) is None
                &&& e.is_internal(key_fault(listed[i].0, UNEXPECTED_ACTIVE_KEY@))
                &&& forall|j: int| 0 <= j < i ==> marked_active((#[trigger] listed[j]).0) is Some
            },
    }
}

/// `r` is what a transaction reads from `listed`, the versions of one key in
/// ascending order: the value of the last entry whose version it sees, or
/// nothing where it sees none of them, or an internal error for an entry
/// after all those that it sees whose key is not that of a value.
pub open spec fn value_read(
    snapshot: Snapshot,
    listed: Seq<(Seq<u8>, Seq<u8>)>,
    r: Result<Option<Vec<u8>>, Error>,
) -> bool {
    match r {
        Ok(Some(value)) => exists|i: int|
            {
                &&& 0 <= i < listed.len()
                &&& stored_version((#[trigger] listed[i]).0) matches Some(version) && snapshot.sees(
                    version,
                )
                &&& value@ == listed[i].1
                &&& forall|j: int|
                    i < j < listed.len() ==> hidden(snapshot, (#[trigger] listed[j]).0)
            },
        Ok(None) => forall|j: int|
            0 <= j < listed.len() ==> hidden(snapshot, (#[trigger] listed[j]).0),
        Err(e) => exists|i: int|
            {
                &&& 0 <= i < listed.len()
                &&& stored_version((#[trigger] listed[i]).0) is None
                &&& e.is_internal(key_fault(listed[i].0, UNEXPECTED_VERSION_KEY@))
                &&& forall|j: int|
                    i < j < listed.len() ==> hidden(snapshot, (#[trigger] listed[j]).0)
            },
    }
}

/// The entries of `listed` whose values the transaction sees, in their order.
pub open spec fn visible_part(snapshot: Snapshot, listed: Seq<(Seq<u8>, Seq<u8>)>) -> Seq<
    (Seq<u8>, Seq<u8>),
> {
    listed.filter(|entry: (Seq<u8>, Seq<u8>)| shown(snapshot, entry.0))
}

/// `r` is what a transaction keeps of `listed`: the entries whose values it
/// sees, or an internal error for the first entry whose key is not that of
/// a value.
pub open spec fn entries_kept(
    snapshot: Snapshot,
    listed: Seq<(Seq<u8>, Seq<u8>)>,
    r: Result<Vec<(Vec<u8>, Vec<u8>)>, Error>,
) -> bool {
    match r {
        Ok(kept) => {
            &&& forall|i: int|
                0 <= i < listed.len() ==> stored_version((#[trigger] listed[i]).0) is Some
            &&& entries_view(kept@) == visible_part(snapshot, listed)
        },
        Err(e) => exists|i: int|
            {
                &&& 0 <= i < listed.len()
                &&& stored_version((#[trigger] listed[i]).0) is None
                &&& e.is_internal(key_fault(listed[i].0, UNEXPECTED_VERSION_KEY@))
                &&& forall|j: int| 0 <= j < i ==> stored_version((#[trigger] listed[j]).0) is Some
            },
    }
}

/// `r` is what reading the write log in `listed` gives: the keys that its
/// entries record, in their order, or an internal error for the first entry
/// whose key is not that of a write log.
pub open spec fn log_read(listed: Seq<(Seq<u8>, Seq<u8>)>, r: Result<Vec<Vec<u8>>, Error>) -> bool {
    match r {
        Ok(keys) => {
            &&& keys@.len() == listed.len()
            &&& forall|i: int|
                0 <= i < listed.len() ==> logged_key((#[trigger] listed[i]).0) == Some(keys@[i]@)
        },
        Err(e) => exists|i: int|
            {
                &&& 0 <= i < listed.len()
                &&& logged_key((#[trigger] listed[i]).0) is None
                &&& e.is_internal(key_fault(listed[i].0, UNEXPECTED_WRITE_KEY@))
                &&& forall|j: int| 0 <= j < i ==> logged_key((#[trigger] listed[j]).0) is Some
            },
    }
}

impl Mvcc {
    /// The version for the next transaction, from what the store holds
    /// under the counter's key: `1` where it holds nothing, else the version
    /// that the bytes store. Bytes that store no version, and the versions
    /// `0` and `u64::MAX`, which no transaction gets, are internal errors.
    pub fn version_from_counter(stored: Option<Vec<u8>>) -> (r: Result<Version, Error>)
        ensures
            match counter_reading(value_view(stored)) {
                Ok(version) => r == Ok::<Version, Error>(Version(version)),
                Err(text) => r matches Err(e) && e.is_internal(text),
            },
    {
        let version = match stored {
            Some(bytes) => Version::decode(bytes.as_slice())?,
            None => Version(1),
        };
        if version.0 == 0 {
            Err(Error::internal(VERSION_RESERVED))
        } else if version.0 == u64::MAX {
            Err(Error::internal(VERSIONS_EXHAUSTED))
        } else {
            Ok(version)
        }
    }

    /// The versions behind the markers in `entries`, in the order of the
    /// entries. The first entry whose key is no marker of an active
    /// transaction is an internal error.
    pub fn active_from_entries(entries: &Vec<(Vec<u8>, Vec<u8>)>) -> (r: Result<
        Vec<Version>,
        Error,
    >)
        ensures
            markers_read(entries_view(entries@), r),
    {
        let ghost listed = entries_view(entries@);
        let mut list: Vec<Version> = Vec::new();
        let mut i: usize = 0;
        while i < entries.len()
            invariant
                i <= entries@.len(),
                list@.len() == i,
                listed == entries_view(entries@),
                forall|j: int|
                    0 <= j < i ==> marked_active((#[trigger] listed[j]).0) == Some(list@[j].0),
            decreases entries@.len() - i,
        {
            assert(listed[i as int].0 == entries@[i as int].0@);
            match MvccKey::decode(entries[i].0.as_slice()) {
                Ok(MvccKey::TxnActive(version)) => {
                    list.push(version);
                },
                Ok(_) => {
                    return Err(Error::internal(UNEXPECTED_ACTIVE_KEY));
                },
                Err(e) => {
                    return Err(e);
                },
            }
            i = i + 1;
        }
        Ok(list)
    }

    /// The value to read from `entries`, which hold versions of one key in
    /// ascending order: the value of the last entry whose version the
    /// transaction sees. An entry after it whose key is not that of a value is
    /// an internal error.
    pub fn newest_visible(&self, entries: &Vec<(Vec<u8>, Vec<u8>)>) -> (r: Result<
        Option<Vec<u8>>,
        Error,
    >)
        ensures
            value_read(self@, entries_view(entries@), r),
    {
        let ghost listed = entries_view(entries@);
        let mut i: usize = entries.len();
        while i > 0
            invariant
                i <= entries@.len(),
                listed == entries_view(entries@),
                forall|j: int| i <= j < listed.len() ==> hidden(self@, (#[trigger] listed[j]).0),
            decreases i,
        {
            i = i - 1;
            assert(listed[i as int] == (entries@[i as int].0@, entries@[i as int].1@));
            match MvccKey::decode(entries[i].0.as_slice()) {
                Ok(MvccKey::Version(_, version)) => {
                    if self.is_version_visible(version) {
                        return Ok(Some(copy_of(&entries[i].1)));
                    }
                },
                Ok(_) => {
                    return Err(Error::internal(UNEXPECTED_VERSION_KEY));
                },
                Err(e) => {
                    return Err(e);
                },
            }
        }
        Ok(None)
    }

    /// Whether the transaction may write a key whose newest version is
    /// stored under `stored`: it may where it sees that version, and
    /// conflicts with it where it does not. A key that is not that of a
    /// value is an internal error.
    pub fn check_newest(&self, stored: &[u8]) -> (r: Result<(), Error>)
        ensures
            match stored_version(stored@) {
                Some(version) => if self@.sees(version) {
                    r is Ok
                } else {
                    r matches Err(Error::WriteConflict)
                },
                None => r matches Err(e) && e.is_internal(
                    key_fault(stored@, UNEXPECTED_VERSION_KEY@),
                ),
            },
    {
        match MvccKey::decode(stored) {
            Ok(MvccKey::Version(_, version)) => {
                if self.is_version_visible(version) {
                    Ok(())
                } else {
                    Err(Error::WriteConflict)
                }
            },
            Ok(_) => Err(Error::internal(UNEXPECTED_VERSION_KEY)),
            Err(e) => Err(e),
        }
    }

    /// The entries of `entries` whose values the transaction sees, in their
    /// order. The first entry whose key is not that of a value is an
    /// internal error.
    pub fn visible_entries(&self, entries: &Vec<(Vec<u8>, Vec<u8>)>) -> (r: Result<
        Vec<(Vec<u8>, Vec<u8>)>,
        Error,
    >)
        ensures
            entries_kept(self@, entries_view(entries@), r),
    {
        let ghost listed = entries_view(entries@);
        let ghost keep = |entry: (Seq<u8>, Seq<u8>)| shown(self@, entry.0);
        let mut kept: Vec<(Vec<u8>, Vec<u8>)> = Vec::new();
        let mut i: usize = 0;
        proof {
            reveal(Seq::filter);
            assert(listed.take(0) =~= Seq::empty());
            assert(entries_view(kept@) =~= listed.take(0).filter(keep));
        }
        while i < entries.len()
            invariant
                i <= entries@.len(),
                listed == entries_view(entries@),
                keep == |entry: (Seq<u8>, Seq<u8>)| shown(self@, entry.0),
                forall|j: int| 0 <= j < i ==> stored_version((#[trigger] listed[j]).0) is Some,
                entries_view(kept@) == listed.take(i as int).filter(keep),
            decreases entries@.len() - i,
        {
            let ghost before = entries_view(kept@);
            proof {
                reveal(Seq::filter);
                assert(listed[i as int] == (entries@[i as int].0@, entries@[i as int].1@));
                assert(listed.take(i + 1).drop_last() =~= listed.take(i as int));
                assert(listed.take(i + 1).last() == listed[i as int]);
            }
            match MvccKey::decode(entries[i].0.as_slice()) {
                Ok(MvccKey::Version(_, version)) => {
                    if self.is_version_visible(version) {
                        kept.push((copy_of(&entries[i].0), copy_of(&entries[i].1)));
                        proof {
                            assert(entries_view(kept@) =~= before.push(listed[i as int]));
                        }
                    }
                },
                Ok(_) => {
                    return Err(Error::internal(UNEXPECTED_VERSION_KEY));
                },
                Err(e) => {
                    return Err(e);
                },
            }
            i = i + 1;
        }
        proof {
            assert(listed.take(i as int) =~= listed);
        }
        Ok(kept)
    }

    /// The keys that the entries of a write log record, in the order of the
    /// entries. The first entry whose key is not that of a write log is an
    /// internal error.
    pub fn logged_keys(entries: &Vec<(Vec<u8>, Vec<u8>)>) -> (r: Result<Vec<Vec<u8>>, Error>)
        ensures
            log_read(entries_view(entries@), r),
    {
        let ghost listed = entries_view(entries@);
        let mut keys: Vec<Vec<u8>> = Vec::new();
        let mut i: usize = 0;
        while i < entries.len()
            invariant
                i <= entries@.len(),
                keys@.len() == i,
                listed == entries_view(entries@),
                forall|j: int|
                    0 <= j < i ==> logged_key((#[trigger] listed[j]).0) == Some(keys@[j]@),
            decreases entries@.len() - i,
        {
            assert(listed[i as int].0 == entries@[i as int].0@);
            match MvccKey::decode(entries[i].0.as_slice()) {
                Ok(MvccKey::TxnWrite(_, key)) => {
                    keys.push(key);
                },
                Ok(_) => {
                    return Err(Error::internal(UNEXPECTED_WRITE_KEY));
                },
                Err(e) => {
                    return Err(e);
                },
            }
            i = i + 1;
        }
        Ok(keys)
    }
}

} // verus!
