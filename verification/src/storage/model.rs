//! What the stored bytes mean to the transaction layer: the next version, the
//! active transactions, the write logs and the versioned values, and how each
//! operation of a transaction changes them.
use vstd::prelude::*;
use crate::error::{MALFORMED_VERSION, VERSIONS_EXHAUSTED, VERSION_RESERVED};
use crate::storage::key::{lemma_encode_parse, lemma_version_between, lemma_version_order, KeyView};
use crate::storage::{keys_between, lists, lists_key};
use crate::storage::lex::{lex_le, lex_lt};
use crate::storage::version::Version;

verus! {

/// The key of the counter that holds the next version.
pub open spec fn next_version_key() -> Seq<u8> {
    KeyView::NextVersion.encode()
}

/// The key that marks transaction `version` as active.
pub open spec fn active_key(version: u64) -> Seq<u8> {
    KeyView::TxnActive(version).encode()
}

/// The key that records that transaction `version` wrote `key`.
pub open spec fn write_key(version: u64, key: Seq<u8>) -> Seq<u8> {
    KeyView::TxnWrite(version, key).encode()
}

/// The key of the value that transaction `version` wrote for `key`.
pub open spec fn version_key(key: Seq<u8>, version: u64) -> Seq<u8> {
    KeyView::Version(key, version).encode()
}

/// What the counter says of the next transaction, from the bytes that are
/// stored under the counter's key, if any are: the version that it gets, or
/// the text of the error why it cannot begin. Where nothing is stored the
/// version is `1`. Bytes that are no version are an error, and so are the
/// two versions that no transaction gets, `0` and `u64::MAX`.
pub open spec fn counter_reading(stored: Option<Seq<u8>>) -> Result<u64, Seq<char>> {
    match stored {
        None => Ok(1),
        Some(bytes) => match Version::decode_spec(bytes) {
            None => Err(MALFORMED_VERSION@),
            Some(version) => if version.0 == 0 {
                Err(VERSION_RESERVED@)
            } else if version.0 == u64::MAX {
                Err(VERSIONS_EXHAUSTED@)
            } else {
                Ok(version.0)
            },
        },
    }
}

/// The version that the counter of `store` holds: `1` in a store that holds
/// no counter, `None` where the counter cannot be read.
pub open spec fn next_version(store: Map<Seq<u8>, Seq<u8>>) -> Option<u64> {
    if store.contains_key(next_version_key()) {
        match Version::decode_spec(store[next_version_key()]) {
            Some(version) => Some(version.0),
            None => None,
        }
    } else {
        Some(1)
    }
}

/// The transactions that have begun and neither committed nor rolled back.
pub open spec fn active_versions(store: Map<Seq<u8>, Seq<u8>>) -> Set<u64> {
    Set::new(|version: u64| store.contains_key(active_key(version)))
}

/// The stored keys of the write log of transaction `version`.
pub open spec fn write_log(version: u64) -> Set<Seq<u8>> {
    Set::new(
        |stored: Seq<u8>|
            KeyView::parse(stored) matches Some(KeyView::TxnWrite(writer, _)) && writer == version,
    )
}

/// The stored keys of the values that the write log of transaction `version`
/// in `store` accounts for.
pub open spec fn logged_values(store: Map<Seq<u8>, Seq<u8>>, version: u64) -> Set<Seq<u8>> {
    Set::new(
        |stored: Seq<u8>|
            KeyView::parse(stored) matches Some(KeyView::Version(key, writer)) && writer == version
                && store.contains_key(write_key(version, key)),
    )
}

/// Of what `store` holds among `keys`, the last key is the stored form of no
/// key.
pub open spec fn ends_in_stray_key(store: Map<Seq<u8>, Seq<u8>>, keys: Set<Seq<u8>>) -> bool {
    exists|stray: Seq<u8>|
        #![trigger store.contains_key(stray)]
        {
            &&& store.contains_key(stray) && keys.contains(stray)
            &&& KeyView::parse(stray) is None
            &&& forall|other: Seq<u8>|
                #![trigger store.contains_key(other)]
                store.contains_key(other) && keys.contains(other) ==> lex_le(other, stray)
        }
}

/// `store` holds, among `keys`, a key that is the stored form of no key.
pub open spec fn has_stray_key(store: Map<Seq<u8>, Seq<u8>>, keys: Set<Seq<u8>>) -> bool {
    exists|stored: Seq<u8>|
        #![trigger store.contains_key(stored)]
        store.contains_key(stored) && keys.contains(stored) && KeyView::parse(stored) is None
}

/// The stored keys from version `low` of `key` up to version `high`, and
/// `high` itself where `high_inclusive` is set.
pub open spec fn version_span(key: Seq<u8>, low: u64, high: u64, high_inclusive: bool) -> Set<
    Seq<u8>,
> {
    keys_between(version_key(key, low), version_key(key, high), high_inclusive)
}

/// The version of the value that is stored under `stored`, if `stored` is the
/// key of a value.
pub open spec fn stored_version(stored: Seq<u8>) -> Option<u64> {
    match KeyView::parse(stored) {
        Some(KeyView::Version(_, version)) => Some(version),
        _ => None,
    }
}

/// The versions of `key` within a span are stored under keys within it.
pub proof fn lemma_version_in_span(
    key: Seq<u8>,
    low: u64,
    high: u64,
    high_inclusive: bool,
    version: u64,
)
    ensures
        version_span(key, low, high, high_inclusive).contains(version_key(key, version)) == (low
            <= version && if high_inclusive {
            version <= high
        } else {
            version < high
        }),
{
    lemma_version_order(key, low, version);
    lemma_version_order(key, version, high);
}

/// A stored key within a span of versions of `key` is the key of one of
/// those versions, or of nothing at all.
pub proof fn lemma_span_holds_versions(
    key: Seq<u8>,
    low: u64,
    high: u64,
    high_inclusive: bool,
    stored: Seq<u8>,
)
    requires
        version_span(key, low, high, high_inclusive).contains(stored),
    ensures
        match KeyView::parse(stored) {
            Some(found) => found matches KeyView::Version(inner, version) && inner == key
                && stored == version_key(key, version) && low <= version && if high_inclusive {
                version <= high
            } else {
                version < high
            },
            None => true,
        },
{
    if let Some(found) = KeyView::parse(stored) {
        lemma_encode_parse(stored);
        lemma_version_between(key, low, high, found);
        if let KeyView::Version(inner, version) = found {
            lemma_version_order(key, version, high);
        }
    }
}

/// Where a listing of the keys in `keys` holds keys only, no stray key is
/// among those keys in the store.
pub proof fn lemma_no_stray_key(
    listed: Seq<(Seq<u8>, Seq<u8>)>,
    store: Map<Seq<u8>, Seq<u8>>,
    keys: Set<Seq<u8>>,
)
    requires
        lists(listed, store, keys),
        forall|i: int| 0 <= i < listed.len() ==> KeyView::parse((#[trigger] listed[i]).0) is Some,
    ensures
        !has_stray_key(store, keys),
{
    assert forall|stored: Seq<u8>|
        #![trigger store.contains_key(stored)]
        store.contains_key(stored) && keys.contains(stored) implies KeyView::parse(
        stored,
    ) is Some by {
        assert(lists_key(listed, stored));
    }
}

/// `after` is `before` without some of its entries under `keys`: nothing
/// was added or changed, and nothing else was lost.
pub open spec fn lost_only(
    before: Map<Seq<u8>, Seq<u8>>,
    after: Map<Seq<u8>, Seq<u8>>,
    keys: Set<Seq<u8>>,
) -> bool {
    &&& after.submap_of(before)
    &&& forall|stored: Seq<u8>|
        #![trigger after.contains_key(stored)]
        before.contains_key(stored) && !keys.contains(stored) ==> after.contains_key(stored)
}

/// What a transaction knows of the others for as long as it lives: its own
/// version, and the transactions that were active when it began.
pub struct Snapshot {
    pub version: u64,
    pub active: Set<u64>,
}

impl Snapshot {
    /// The visibility rule: a version is visible to the transaction iff it is
    /// not later than the transaction's own and was not active when it began.
    pub open spec fn sees(self, version: u64) -> bool {
        version <= self.version && !self.active.contains(version)
    }

    /// `version` is the oldest of the transactions that were active.
    pub open spec fn oldest_active(self, version: u64) -> bool {
        self.active.contains(version) && forall|other: u64|
            self.active.contains(other) ==> version <= other
    }

    /// The lowest version that may be invisible to the transaction: the oldest
    /// active one, or the one after its own where none was active.
    pub open spec fn floor(self) -> u64 {
        if exists|version: u64| self.oldest_active(version) {
            choose|version: u64| self.oldest_active(version)
        } else if self.version < u64::MAX {
            (self.version + 1) as u64
        } else {
            u64::MAX
        }
    }
}

/// The stored key `stored` holds a value that the transaction cannot see.
pub open spec fn hidden(snapshot: Snapshot, stored: Seq<u8>) -> bool {
    stored_version(stored) matches Some(version) && !snapshot.sees(version)
}

/// The stored key `stored` holds a value that the transaction sees.
pub open spec fn shown(snapshot: Snapshot, stored: Seq<u8>) -> bool {
    stored_version(stored) matches Some(version) && snapshot.sees(version)
}

/// A stray key stands in the way of a read among `keys`: the store holds,
/// among `keys`, a key that is the stored form of no key, and after it
/// nothing but values that the transaction cannot see.
pub open spec fn stray_key_blocks(
    store: Map<Seq<u8>, Seq<u8>>,
    snapshot: Snapshot,
    keys: Set<Seq<u8>>,
) -> bool {
    exists|stray: Seq<u8>|
        #![trigger store.contains_key(stray)]
        {
            &&& store.contains_key(stray) && keys.contains(stray)
            &&& KeyView::parse(stray) is None
            &&& forall|other: Seq<u8>|
                #![trigger store.contains_key(other)]
                store.contains_key(other) && keys.contains(other) && lex_lt(stray, other)
                    ==> hidden(snapshot, other)
        }
}

/// Among the values of `key` in `store`, `version` is the newest that the
/// transaction can read: visible to it, older than the transaction itself,
/// and followed only by invisible ones up to the transaction's own version.
pub open spec fn is_newest_visible(
    store: Map<Seq<u8>, Seq<u8>>,
    snapshot: Snapshot,
    key: Seq<u8>,
    version: u64,
) -> bool {
    &&& version < snapshot.version
    &&& snapshot.sees(version)
    &&& store.contains_key(version_key(key, version))
    &&& forall|later: u64|
        version < later < snapshot.version && store.contains_key(#[trigger] version_key(key, later))
            ==> !snapshot.sees(later)
}

/// What the transaction reads under `key`: the newest visible value, if any.
pub open spec fn read(store: Map<Seq<u8>, Seq<u8>>, snapshot: Snapshot, key: Seq<u8>) -> Option<
    Seq<u8>,
> {
    if exists|version: u64| is_newest_visible(store, snapshot, key, version) {
        let version = choose|version: u64| is_newest_visible(store, snapshot, key, version);
        Some(store[version_key(key, version)])
    } else {
        None
    }
}

/// At most one version is the newest that a transaction can read.
pub proof fn lemma_newest_visible_unique(
    store: Map<Seq<u8>, Seq<u8>>,
    snapshot: Snapshot,
    key: Seq<u8>,
    a: u64,
    b: u64,
)
    requires
        is_newest_visible(store, snapshot, key, a),
        is_newest_visible(store, snapshot, key, b),
    ensures
        a == b,
{
    if a < b {
        assert(store.contains_key(version_key(key, b)));
    }
    if b < a {
        assert(store.contains_key(version_key(key, a)));
    }
}

/// `version` is the newest version of `key` in `store`, and not below `floor`.
pub open spec fn is_newest_from(
    store: Map<Seq<u8>, Seq<u8>>,
    key: Seq<u8>,
    floor: u64,
    version: u64,
) -> bool {
    &&& floor <= version
    &&& store.contains_key(version_key(key, version))
    &&& forall|later: u64|
        version < later ==> !store.contains_key(#[trigger] version_key(key, later))
}

/// A write of `key` by the transaction conflicts: the newest version of `key`
/// that may be invisible to the transaction is invisible to it.
pub open spec fn write_conflict(
    store: Map<Seq<u8>, Seq<u8>>,
    snapshot: Snapshot,
    key: Seq<u8>,
) -> bool {
    exists|version: u64|
        is_newest_from(store, key, snapshot.floor(), version) && !snapshot.sees(version)
}

/// The store after transaction `version` has begun in it.
pub open spec fn after_begin(store: Map<Seq<u8>, Seq<u8>>, version: u64) -> Map<Seq<u8>, Seq<u8>>
    recommends
        1 <= version < u64::MAX,
{
    store.insert(next_version_key(), Version((version + 1) as u64).encode_spec()).insert(
        active_key(version),
        Seq::empty(),
    )
}

/// The store after transaction `version` has written `value` under `key`, or
/// has deleted `key` where `value` is `None`.
pub open spec fn after_write(
    store: Map<Seq<u8>, Seq<u8>>,
    version: u64,
    key: Seq<u8>,
    value: Option<Seq<u8>>,
) -> Map<Seq<u8>, Seq<u8>> {
    let logged = store.insert(write_key(version, key), Seq::empty());
    match value {
        Some(bytes) => logged.insert(version_key(key, version), bytes),
        None => logged.remove(version_key(key, version)),
    }
}

/// The store after transaction `version` has committed: its write log and its
/// marker are gone, its values stay.
pub open spec fn after_commit(store: Map<Seq<u8>, Seq<u8>>, version: u64) -> Map<
    Seq<u8>,
    Seq<u8>,
> {
    store.remove_keys(write_log(version)).remove(active_key(version))
}

/// The store after transaction `version` has rolled back: the values that its
/// write log accounts for are gone, and so are the log and its marker.
pub open spec fn after_rollback(store: Map<Seq<u8>, Seq<u8>>, version: u64) -> Map<
    Seq<u8>,
    Seq<u8>,
> {
    store.remove_keys(logged_values(store, version)).remove_keys(write_log(version)).remove(
        active_key(version),
    )
}

/// A transaction can begin in `store`: the counter can be read and holds a
/// version that a transaction may get, neither `0` nor `u64::MAX`.
pub open spec fn can_begin(store: Map<Seq<u8>, Seq<u8>>) -> bool {
    next_version(store) matches Some(version) && 1 <= version < u64::MAX
}

/// What the transaction that begins in `store` knows: the version that the
/// counter gives it, and the transactions that are active once it has begun,
/// itself among them.
pub open spec fn begun(store: Map<Seq<u8>, Seq<u8>>) -> Snapshot
    recommends
        can_begin(store),
{
    let version = next_version(store).unwrap();
    Snapshot { version, active: active_versions(after_begin(store, version)) }
}

/// What one operation of one transaction does to the store. Each operation
/// holds the store for itself while it runs, so what transactions do side
/// by side is a sequence of such steps. An operation that the store fails
/// half-way is a step too: it is cut short.
pub enum Step {
    /// A transaction begins.
    Begin,
    /// A begin is cut short when the counter has moved on and no marker is
    /// written yet.
    BeginCut,
    /// A transaction writes a value, or removes its own where `value` is
    /// `None`.
    Write { version: u64, key: Seq<u8>, value: Option<Seq<u8>> },
    /// A write is cut short when it is logged and the value is not touched
    /// yet.
    WriteCut { version: u64, key: Seq<u8> },
    /// A transaction commits.
    Commit { version: u64 },
    /// A commit is cut short and leaves `left`: the store without a part of
    /// the transaction's write log.
    CommitCut { version: u64, left: Map<Seq<u8>, Seq<u8>> },
    /// A transaction rolls back.
    Rollback { version: u64 },
    /// A rollback is cut short and leaves `left`: the store without a part
    /// of the transaction's write log and of the values that the log
    /// accounts for.
    RollbackCut { version: u64, left: Map<Seq<u8>, Seq<u8>> },
}

impl Step {
    /// The transaction that takes the step, where it has a version already.
    pub open spec fn actor(self) -> Option<u64> {
        match self {
            Step::Begin => None,
            Step::BeginCut => None,
            Step::Write { version, .. } => Some(version),
            Step::WriteCut { version, .. } => Some(version),
            Step::Commit { version } => Some(version),
            Step::CommitCut { version, .. } => Some(version),
            Step::Rollback { version } => Some(version),
            Step::RollbackCut { version, .. } => Some(version),
        }
    }

    /// The step moves the counter on: it is a begin, whole or cut short.
    pub open spec fn takes_version(self) -> bool {
        self is Begin || self is BeginCut
    }
}

/// The store after `step`. A transaction that cannot begin leaves it as it
/// is, and so does a step that is cut short with something left that the
/// operation cannot leave.
pub open spec fn after_step(store: Map<Seq<u8>, Seq<u8>>, step: Step) -> Map<Seq<u8>, Seq<u8>> {
    match step {
        Step::Begin => if can_begin(store) {
            after_begin(store, next_version(store).unwrap())
        } else {
            store
        },
        Step::BeginCut => if can_begin(store) {
            store.insert(
                next_version_key(),
                Version((next_version(store).unwrap() + 1) as u64).encode_spec(),
            )
        } else {
            store
        },
        Step::Write { version, key, value } => after_write(store, version, key, value),
        Step::WriteCut { version, key } => store.insert(write_key(version, key), Seq::empty()),
        Step::Commit { version } => after_commit(store, version),
        Step::CommitCut { version, left } => if lost_only(store, left, write_log(version)) {
            left
        } else {
            store
        },
        Step::Rollback { version } => after_rollback(store, version),
        Step::RollbackCut { version, left } => if lost_only(
            store,
            left,
            logged_values(store, version) + write_log(version),
        ) {
            left
        } else {
            store
        },
    }
}

/// One operation, whatever became of it, can leave `after` where it found
/// `before`: nothing changed, or one step was taken.
pub open spec fn operated(before: Map<Seq<u8>, Seq<u8>>, after: Map<Seq<u8>, Seq<u8>>) -> bool {
    after == before || exists|step: Step| after == #[trigger] after_step(before, step)
}

/// The store after `steps`, taken one after the other.
pub open spec fn after_steps(store: Map<Seq<u8>, Seq<u8>>, steps: Seq<Step>) -> Map<
    Seq<u8>,
    Seq<u8>,
>
    decreases steps.len(),
{
    if steps.len() == 0 {
        store
    } else {
        after_step(after_steps(store, steps.drop_last()), steps.last())
    }
}

} // verus!
