//! What holds of transactions that work on one store side by side, stated
//! over the model of the store and proved from it.
use vstd::prelude::*;
use crate::storage::key::{lemma_encode_injective, lemma_parse_encode, KeyView};
use crate::error::Error;
use crate::storage::model::{
    active_key, after_begin, after_commit, after_rollback, after_step, after_steps, after_write,
    begun, can_begin, is_newest_from, is_newest_visible, lemma_newest_visible_unique,
    logged_values, lost_only, next_version, next_version_key, operated, read, version_key,
    write_conflict, write_key, write_log, Snapshot, Step,
};
use crate::storage::lookup;
use crate::storage::mvcc::{begin_done, commit_done, rollback_done, write_done, Mvcc};
use crate::storage::version::{lemma_version_decode_encode, Version};

verus! {

/// What is lost of a store among keys that the counter's key is not one of
/// leaves the counter as it is.
proof fn lemma_loss_keeps_counter(
    before: Map<Seq<u8>, Seq<u8>>,
    after: Map<Seq<u8>, Seq<u8>>,
    keys: Set<Seq<u8>>,
)
    requires
        lost_only(before, after, keys),
        !keys.contains(next_version_key()),
    ensures
        next_version(after) == next_version(before),
{
    let counter = next_version_key();
    if before.contains_key(counter) {
        assert(after.contains_key(counter));
    }
    if after.contains_key(counter) {
        assert(after.dom().contains(counter));
    }
}

/// No step but a transaction's begin, whole or cut short, touches the
/// counter, and a begin moves it on by one.
pub proof fn lemma_step_moves_counter(store: Map<Seq<u8>, Seq<u8>>, step: Step)
    ensures
        next_version(after_step(store, step)) == if step.takes_version() && can_begin(store) {
            Some((next_version(store).unwrap() + 1) as u64)
        } else {
            next_version(store)
        },
{
    let counter = next_version_key();
    lemma_parse_encode(KeyView::NextVersion);
    match step {
        Step::Begin => {
            if can_begin(store) {
                let version = next_version(store).unwrap();
                lemma_encode_injective(KeyView::TxnActive(version), KeyView::NextVersion);
                lemma_version_decode_encode(Version((version + 1) as u64));
            }
        },
        Step::BeginCut => {
            if can_begin(store) {
                let version = next_version(store).unwrap();
                lemma_version_decode_encode(Version((version + 1) as u64));
            }
        },
        Step::WriteCut { version, key } => {
            lemma_encode_injective(KeyView::TxnWrite(version, key), KeyView::NextVersion);
        },
        Step::CommitCut { version, left } => {
            if lost_only(store, left, write_log(version)) {
                lemma_loss_keeps_counter(store, left, write_log(version));
            }
        },
        Step::RollbackCut { version, left } => {
            let keys = logged_values(store, version) + write_log(version);
            if lost_only(store, left, keys) {
                lemma_loss_keeps_counter(store, left, keys);
            }
        },
        Step::Write { version, key, value } => {
            lemma_encode_injective(KeyView::TxnWrite(version, key), KeyView::NextVersion);
            lemma_encode_injective(KeyView::Version(key, version), KeyView::NextVersion);
        },
        Step::Commit { version } => {
            lemma_encode_injective(KeyView::TxnActive(version), KeyView::NextVersion);
        },
        Step::Rollback { version } => {
            lemma_encode_injective(KeyView::TxnActive(version), KeyView::NextVersion);
        },
    }
}

/// Over any steps the counter, once it can be read, stays readable and
/// never falls.
pub proof fn lemma_counter_never_falls(store: Map<Seq<u8>, Seq<u8>>, steps: Seq<Step>)
    requires
        next_version(store) is Some,
    ensures
        next_version(after_steps(store, steps)) matches Some(later) && next_version(
            store,
        ).unwrap() <= later,
    decreases steps.len(),
{
    if steps.len() > 0 {
        lemma_counter_never_falls(store, steps.drop_last());
        lemma_step_moves_counter(after_steps(store, steps.drop_last()), steps.last());
    }
}

/// Running steps one part after the other is running them all.
pub proof fn lemma_steps_in_parts(store: Map<Seq<u8>, Seq<u8>>, first: Seq<Step>, then: Seq<Step>)
    ensures
        after_steps(store, first + then) == after_steps(after_steps(store, first), then),
    decreases then.len(),
{
    if then.len() == 0 {
        assert(first + then =~= first);
    } else {
        assert((first + then).drop_last() =~= first + then.drop_last());
        assert((first + then).last() == then.last());
        lemma_steps_in_parts(store, first, then.drop_last());
    }
}

/// Versions are handed out in strictly ascending order: of two transactions
/// that begin among any steps of any transactions, the one that begins later
/// gets the greater version.
pub proof fn lemma_versions_ascend(store: Map<Seq<u8>, Seq<u8>>, steps: Seq<Step>, i: int, j: int)
    requires
        0 <= i < j < steps.len(),
        steps[i] is Begin,
        steps[j] is Begin,
        can_begin(after_steps(store, steps.take(i))),
        can_begin(after_steps(store, steps.take(j))),
    ensures
        begun(after_steps(store, steps.take(i))).version < begun(
            after_steps(store, steps.take(j)),
        ).version,
{
    let at_first = after_steps(store, steps.take(i));
    let up_to_first = steps.take(i + 1);
    let between = steps.subrange(i + 1, j);
    assert(up_to_first.drop_last() =~= steps.take(i));
    assert(up_to_first.last() == steps[i]);
    lemma_step_moves_counter(at_first, steps[i]);
    assert(steps.take(j) =~= up_to_first + between);
    lemma_steps_in_parts(store, up_to_first, between);
    lemma_counter_never_falls(after_steps(store, up_to_first), between);
}

/// Two stores hold the same under the key of every value that the
/// transaction sees.
pub open spec fn same_to(
    snapshot: Snapshot,
    a: Map<Seq<u8>, Seq<u8>>,
    b: Map<Seq<u8>, Seq<u8>>,
) -> bool {
    forall|key: Seq<u8>, version: u64|
        snapshot.sees(version) ==> lookup(a, #[trigger] version_key(key, version)) == lookup(
            b,
            version_key(key, version),
        )
}

/// What is lost of a store among keys that the key of no value which a
/// transaction sees is one of leaves all that the transaction sees.
proof fn lemma_loss_keeps_seen(
    before: Map<Seq<u8>, Seq<u8>>,
    after: Map<Seq<u8>, Seq<u8>>,
    keys: Set<Seq<u8>>,
    snapshot: Snapshot,
)
    requires
        lost_only(before, after, keys),
        forall|key: Seq<u8>, version: u64|
            snapshot.sees(version) ==> !keys.contains(#[trigger] version_key(key, version)),
    ensures
        same_to(snapshot, before, after),
{
    assert forall|key: Seq<u8>, version: u64| snapshot.sees(version) implies lookup(
        before,
        #[trigger] version_key(key, version),
    ) == lookup(after, version_key(key, version)) by {
        let stored = version_key(key, version);
        if before.contains_key(stored) {
            assert(after.contains_key(stored));
        }
        if after.contains_key(stored) {
            assert(after.dom().contains(stored));
        }
    }
}

/// A step of a transaction that another one does not see, whole or cut
/// short, and any transaction's begin, leaves every value that the other
/// one sees as it is.
pub proof fn lemma_unseen_step(store: Map<Seq<u8>, Seq<u8>>, snapshot: Snapshot, step: Step)
    requires
        step.actor() matches Some(actor) ==> !snapshot.sees(actor),
    ensures
        same_to(snapshot, store, after_step(store, step)),
{
    let after = after_step(store, step);
    assert forall|key: Seq<u8>, version: u64| snapshot.sees(version) implies lookup(
        store,
        #[trigger] version_key(key, version),
    ) == lookup(after, version_key(key, version)) by {
        let seen = KeyView::Version(key, version);
        lemma_parse_encode(seen);
        lemma_encode_injective(seen, KeyView::NextVersion);
        match step {
            Step::Begin => {
                if can_begin(store) {
                    lemma_encode_injective(seen, KeyView::TxnActive(next_version(store).unwrap()));
                }
            },
            Step::BeginCut => {},
            Step::WriteCut { version: actor, key: written } => {
                lemma_encode_injective(seen, KeyView::TxnWrite(actor, written));
            },
            Step::CommitCut { version: actor, left } => {
                let keys = write_log(actor);
                if lost_only(store, left, keys) {
                    assert forall|other: Seq<u8>, writer: u64| snapshot.sees(writer) implies
                        !keys.contains(#[trigger] version_key(other, writer)) by {
                        lemma_parse_encode(KeyView::Version(other, writer));
                    }
                    lemma_loss_keeps_seen(store, left, keys, snapshot);
                }
            },
            Step::RollbackCut { version: actor, left } => {
                let keys = logged_values(store, actor) + write_log(actor);
                if lost_only(store, left, keys) {
                    assert forall|other: Seq<u8>, writer: u64| snapshot.sees(writer) implies
                        !keys.contains(#[trigger] version_key(other, writer)) by {
                        lemma_parse_encode(KeyView::Version(other, writer));
                    }
                    lemma_loss_keeps_seen(store, left, keys, snapshot);
                }
            },
            Step::Write { version: actor, key: written, value } => {
                lemma_encode_injective(seen, KeyView::TxnWrite(actor, written));
                lemma_encode_injective(seen, KeyView::Version(written, actor));
            },
            Step::Commit { version: actor } => {
                lemma_encode_injective(seen, KeyView::TxnActive(actor));
            },
            Step::Rollback { version: actor } => {
                lemma_encode_injective(seen, KeyView::TxnActive(actor));
            },
        }
    }
}

/// What a transaction reads depends on nothing but the values that it sees.
pub proof fn lemma_read_of_seen(
    snapshot: Snapshot,
    a: Map<Seq<u8>, Seq<u8>>,
    b: Map<Seq<u8>, Seq<u8>>,
    key: Seq<u8>,
)
    requires
        same_to(snapshot, a, b),
    ensures
        read(a, snapshot, key) == read(b, snapshot, key),
{
    assert forall|version: u64|
        is_newest_visible(a, snapshot, key, version) == is_newest_visible(
            b,
            snapshot,
            key,
            version,
        ) by {
        if is_newest_visible(a, snapshot, key, version) {
            lemma_newest_of_seen(snapshot, a, b, key, version);
        }
        if is_newest_visible(b, snapshot, key, version) {
            lemma_newest_of_seen(snapshot, b, a, key, version);
        }
    }
    if exists|version: u64| is_newest_visible(a, snapshot, key, version) {
        let in_a = choose|version: u64| is_newest_visible(a, snapshot, key, version);
        let in_b = choose|version: u64| is_newest_visible(b, snapshot, key, version);
        lemma_newest_visible_unique(a, snapshot, key, in_a, in_b);
        assert(lookup(a, version_key(key, in_a)) == lookup(b, version_key(key, in_a)));
    }
}

proof fn lemma_newest_of_seen(
    snapshot: Snapshot,
    a: Map<Seq<u8>, Seq<u8>>,
    b: Map<Seq<u8>, Seq<u8>>,
    key: Seq<u8>,
    version: u64,
)
    requires
        same_to(snapshot, a, b) || same_to(snapshot, b, a),
        is_newest_visible(a, snapshot, key, version),
    ensures
        is_newest_visible(b, snapshot, key, version),
{
    assert(lookup(a, version_key(key, version)) == lookup(b, version_key(key, version)));
    assert forall|later: u64|
        version < later < snapshot.version && b.contains_key(
            #[trigger] version_key(key, later),
        ) implies !snapshot.sees(later) by {
        if snapshot.sees(later) {
            assert(lookup(a, version_key(key, later)) == lookup(b, version_key(key, later)));
        }
    }
}

/// Snapshot isolation: whatever the transactions that a transaction does
/// not see do, and whenever they do it, the transaction reads what it would
/// have read before. Those are the transactions that were active when it
/// began, those that began later, and the transaction itself.
pub proof fn lemma_snapshot_isolation(
    store: Map<Seq<u8>, Seq<u8>>,
    snapshot: Snapshot,
    steps: Seq<Step>,
    key: Seq<u8>,
)
    requires
        forall|i: int|
            0 <= i < steps.len() ==> ((#[trigger] steps[i]).actor() matches Some(actor)
                ==> !snapshot.sees(actor)),
    ensures
        same_to(snapshot, store, after_steps(store, steps)),
        read(after_steps(store, steps), snapshot, key) == read(store, snapshot, key),
    decreases steps.len(),
{
    if steps.len() > 0 {
        let front = steps.drop_last();
        assert forall|i: int| 0 <= i < front.len() implies ((#[trigger] front[i]).actor() matches Some(
            actor,
        ) ==> !snapshot.sees(actor)) by {
            assert(front[i] == steps[i]);
        }
        lemma_snapshot_isolation(store, snapshot, front, key);
        let before = after_steps(store, front);
        assert(steps[steps.len() - 1] == steps.last());
        lemma_unseen_step(before, snapshot, steps.last());
        let after = after_steps(store, steps);
        assert forall|other: Seq<u8>, version: u64| snapshot.sees(version) implies lookup(
            store,
            #[trigger] version_key(other, version),
        ) == lookup(after, version_key(other, version)) by {
            assert(lookup(store, version_key(other, version)) == lookup(
                before,
                version_key(other, version),
            ));
        }
    }
    lemma_read_of_seen(snapshot, after_steps(store, steps), store, key);
}

/// At or above a version of `key` that the store holds there is a newest.
proof fn lemma_newest_exists(store: Map<Seq<u8>, Seq<u8>>, key: Seq<u8>, version: u64)
    requires
        store.contains_key(version_key(key, version)),
    ensures
        exists|newest: u64| version <= newest && is_newest_from(store, key, version, newest),
    decreases u64::MAX - version,
{
    if exists|later: u64| version < later && store.contains_key(version_key(key, later)) {
        let later = choose|later: u64|
            version < later && store.contains_key(version_key(key, later));
        lemma_newest_exists(store, key, later);
        let newest = choose|newest: u64|
            later <= newest && is_newest_from(store, key, later, newest);
        assert(is_newest_from(store, key, version, newest));
    } else {
        assert(is_newest_from(store, key, version, version));
    }
}

/// A transaction that was itself active when it began cannot write a key of
/// which the store holds a version later than its own.
pub proof fn lemma_later_version_conflicts(
    store: Map<Seq<u8>, Seq<u8>>,
    snapshot: Snapshot,
    key: Seq<u8>,
    later: u64,
)
    requires
        snapshot.active.contains(snapshot.version),
        snapshot.version < later,
        store.contains_key(version_key(key, later)),
    ensures
        write_conflict(store, snapshot, key),
{
    lemma_newest_exists(store, key, later);
    let newest = choose|newest: u64|
        later <= newest && is_newest_from(store, key, later, newest);
    if exists|version: u64| snapshot.oldest_active(version) {
        let oldest = choose|version: u64| snapshot.oldest_active(version);
        assert(oldest <= snapshot.version);
    }
    assert(is_newest_from(store, key, snapshot.floor(), newest) && !snapshot.sees(newest));
}

/// First writer wins: where one transaction begins, another begins after
/// it, writes a key and commits, the first one's write of that key is a
/// write conflict.
pub proof fn lemma_first_writer_wins(store: Map<Seq<u8>, Seq<u8>>, key: Seq<u8>, value: Seq<u8>)
    requires
        can_begin(store),
        can_begin(after_begin(store, begun(store).version)),
    ensures
        ({
            let first = begun(store);
            let first_begun = after_begin(store, first.version);
            let second = begun(first_begun);
            let second_begun = after_begin(first_begun, second.version);
            let written = after_write(second_begun, second.version, key, Some(value));
            let committed = after_commit(written, second.version);
            first.version < second.version && write_conflict(committed, first, key)
        }),
{
    let first = begun(store);
    let first_begun = after_begin(store, first.version);
    let second = begun(first_begun);
    let second_begun = after_begin(first_begun, second.version);
    let written = after_write(second_begun, second.version, key, Some(value));
    let committed = after_commit(written, second.version);
    lemma_step_moves_counter(store, Step::Begin);
    let stored = KeyView::Version(key, second.version);
    lemma_parse_encode(stored);
    lemma_encode_injective(stored, KeyView::TxnActive(second.version));
    assert(written.contains_key(version_key(key, second.version)));
    assert(committed.contains_key(version_key(key, second.version)));
    assert(first_begun.contains_key(active_key(first.version)));
    lemma_later_version_conflicts(committed, first, key, second.version);
}

/// Commit exposes writes: where a transaction writes a key without a
/// conflict and commits, the transaction that begins next reads the value
/// under that key.
pub proof fn lemma_commit_exposes_writes(
    store: Map<Seq<u8>, Seq<u8>>,
    writer: Snapshot,
    key: Seq<u8>,
    value: Seq<u8>,
)
    requires
        writer.active.contains(writer.version),
        next_version(store) matches Some(next) && writer.version < next < u64::MAX,
        !write_conflict(store, writer, key),
    ensures
        ({
            let written = after_write(store, writer.version, key, Some(value));
            let committed = after_commit(written, writer.version);
            let reader = begun(committed);
            read(after_begin(committed, reader.version), reader, key) == Some(value)
        }),
{
    let written = after_write(store, writer.version, key, Some(value));
    let committed = after_commit(written, writer.version);
    let reader = begun(committed);
    let read_in = after_begin(committed, reader.version);
    let mine = KeyView::Version(key, writer.version);
    lemma_step_moves_counter(
        store,
        Step::Write { version: writer.version, key, value: Some(value) },
    );
    lemma_step_moves_counter(written, Step::Commit { version: writer.version });
    assert(reader.version == next_version(store).unwrap());
    // The value is there, under the writer's version.
    lemma_parse_encode(mine);
    lemma_encode_injective(mine, KeyView::TxnActive(writer.version));
    lemma_encode_injective(mine, KeyView::TxnActive(reader.version));
    lemma_encode_injective(mine, KeyView::NextVersion);
    assert(read_in.contains_key(version_key(key, writer.version)));
    assert(read_in[version_key(key, writer.version)] == value);
    // The reader sees the writer, whose marker is gone.
    lemma_encode_injective(KeyView::TxnActive(writer.version), KeyView::TxnActive(reader.version));
    lemma_encode_injective(KeyView::TxnActive(writer.version), KeyView::NextVersion);
    assert(!read_in.contains_key(active_key(writer.version)));
    assert(reader.sees(writer.version));
    // No version of the key is later than the writer's.
    assert forall|later: u64| writer.version < later implies !read_in.contains_key(
        #[trigger] version_key(key, later),
    ) by {
        let other = KeyView::Version(key, later);
        lemma_parse_encode(other);
        lemma_encode_injective(other, mine);
        lemma_encode_injective(other, KeyView::TxnWrite(writer.version, key));
        lemma_encode_injective(other, KeyView::TxnActive(reader.version));
        lemma_encode_injective(other, KeyView::NextVersion);
        if store.contains_key(version_key(key, later)) {
            lemma_later_version_conflicts(store, writer, key, later);
        }
    }
    assert(is_newest_visible(read_in, reader, key, writer.version));
    let chosen = choose|version: u64| is_newest_visible(read_in, reader, key, version);
    lemma_newest_visible_unique(read_in, reader, key, chosen, writer.version);
}

/// Commit removes bookkeeping and nothing else: the marker and the write
/// log of the transaction are gone, and every value is as it was.
pub proof fn lemma_commit_removes_bookkeeping(store: Map<Seq<u8>, Seq<u8>>, version: u64)
    ensures
        !after_commit(store, version).contains_key(active_key(version)),
        forall|key: Seq<u8>|
            !after_commit(store, version).contains_key(#[trigger] write_key(version, key)),
        forall|key: Seq<u8>, writer: u64|
            lookup(after_commit(store, version), #[trigger] version_key(key, writer)) == lookup(
                store,
                version_key(key, writer),
            ),
{
    assert forall|key: Seq<u8>| !after_commit(store, version).contains_key(
        #[trigger] write_key(version, key),
    ) by {
        lemma_parse_encode(KeyView::TxnWrite(version, key));
    }
    assert forall|key: Seq<u8>, writer: u64|
        lookup(after_commit(store, version), #[trigger] version_key(key, writer)) == lookup(
            store,
            version_key(key, writer),
        ) by {
        lemma_parse_encode(KeyView::Version(key, writer));
        lemma_encode_injective(KeyView::Version(key, writer), KeyView::TxnActive(version));
    }
}

/// Rollback removes the bookkeeping too: the marker and the write log of
/// the transaction are gone.
pub proof fn lemma_rollback_removes_bookkeeping(store: Map<Seq<u8>, Seq<u8>>, version: u64)
    ensures
        !after_rollback(store, version).contains_key(active_key(version)),
        forall|key: Seq<u8>|
            !after_rollback(store, version).contains_key(#[trigger] write_key(version, key)),
{
    assert forall|key: Seq<u8>| !after_rollback(store, version).contains_key(
        #[trigger] write_key(version, key),
    ) by {
        lemma_parse_encode(KeyView::TxnWrite(version, key));
    }
}

/// The store after transaction `version` has made `writes` one after the
/// other, each a key and the value to write, or `None` to delete the key.
pub open spec fn after_writes(
    store: Map<Seq<u8>, Seq<u8>>,
    version: u64,
    writes: Seq<(Seq<u8>, Option<Seq<u8>>)>,
) -> Map<Seq<u8>, Seq<u8>>
    decreases writes.len(),
{
    if writes.len() == 0 {
        store
    } else {
        after_write(
            after_writes(store, version, writes.drop_last()),
            version,
            writes.last().0,
            writes.last().1,
        )
    }
}

/// The writes of a transaction leave the values of the others alone, and
/// its write log accounts for each value of its own.
proof fn lemma_writes_are_logged(
    store: Map<Seq<u8>, Seq<u8>>,
    version: u64,
    writes: Seq<(Seq<u8>, Option<Seq<u8>>)>,
)
    requires
        forall|key: Seq<u8>| !store.contains_key(#[trigger] version_key(key, version)),
    ensures
        forall|key: Seq<u8>|
            after_writes(store, version, writes).contains_key(#[trigger] version_key(key, version))
                ==> after_writes(store, version, writes).contains_key(write_key(version, key)),
        forall|key: Seq<u8>, other: u64|
            other != version ==> lookup(
                after_writes(store, version, writes),
                #[trigger] version_key(key, other),
            ) == lookup(store, version_key(key, other)),
    decreases writes.len(),
{
    if writes.len() > 0 {
        let before = after_writes(store, version, writes.drop_last());
        let after = after_writes(store, version, writes);
        let (written, value) = writes.last();
        lemma_writes_are_logged(store, version, writes.drop_last());
        assert forall|key: Seq<u8>| after.contains_key(
            #[trigger] version_key(key, version),
        ) implies after.contains_key(write_key(version, key)) by {
            lemma_encode_injective(
                KeyView::Version(key, version),
                KeyView::TxnWrite(version, written),
            );
            lemma_encode_injective(
                KeyView::Version(key, version),
                KeyView::Version(written, version),
            );
            lemma_encode_injective(
                KeyView::TxnWrite(version, key),
                KeyView::Version(written, version),
            );
            lemma_encode_injective(
                KeyView::TxnWrite(version, key),
                KeyView::TxnWrite(version, written),
            );
            if key != written {
                assert(before.contains_key(version_key(key, version)));
            }
        }
        assert forall|key: Seq<u8>, other: u64| other != version implies lookup(
            after,
            #[trigger] version_key(key, other),
        ) == lookup(store, version_key(key, other)) by {
            lemma_encode_injective(
                KeyView::Version(key, other),
                KeyView::TxnWrite(version, written),
            );
            lemma_encode_injective(
                KeyView::Version(key, other),
                KeyView::Version(written, version),
            );
            assert(lookup(before, version_key(key, other)) == lookup(
                store,
                version_key(key, other),
            ));
        }
    }
}

/// Rollback undoes writes: after a transaction has written what it will and
/// has rolled back, the store holds every value that it held before the
/// transaction wrote, and no other, so every transaction reads what it would
/// have read had the transaction never written.
pub proof fn lemma_rollback_undoes_writes(
    store: Map<Seq<u8>, Seq<u8>>,
    version: u64,
    writes: Seq<(Seq<u8>, Option<Seq<u8>>)>,
    reader: Snapshot,
    key: Seq<u8>,
)
    requires
        forall|key: Seq<u8>| !store.contains_key(#[trigger] version_key(key, version)),
    ensures
        ({
            let rolled_back = after_rollback(after_writes(store, version, writes), version);
            &&& forall|key: Seq<u8>, other: u64|
                lookup(rolled_back, #[trigger] version_key(key, other)) == lookup(
                    store,
                    version_key(key, other),
                )
            &&& read(rolled_back, reader, key) == read(store, reader, key)
        }),
{
    let written = after_writes(store, version, writes);
    let rolled_back = after_rollback(written, version);
    lemma_writes_are_logged(store, version, writes);
    assert forall|key: Seq<u8>, other: u64|
        lookup(rolled_back, #[trigger] version_key(key, other)) == lookup(
            store,
            version_key(key, other),
        ) by {
        let stored = KeyView::Version(key, other);
        lemma_parse_encode(stored);
        lemma_encode_injective(stored, KeyView::TxnActive(version));
        if other == version {
            if written.contains_key(version_key(key, version)) {
                assert(logged_values(written, version).contains(version_key(key, version)));
            }
        } else {
            assert(lookup(written, version_key(key, other)) == lookup(
                store,
                version_key(key, other),
            ));
        }
    }
    lemma_read_of_seen(reader, rolled_back, store, key);
}

/// Whatever becomes of a `begin`, it leaves the store as it found it or
/// as a begin, whole or cut short, leaves it; and where it gives a
/// transaction, the store is as a whole begin leaves it.
pub proof fn lemma_begin_takes_a_step(
    before: Map<Seq<u8>, Seq<u8>>,
    after: Map<Seq<u8>, Seq<u8>>,
    r: Result<Mvcc, Error>,
)
    requires
        begin_done(before, after, r),
    ensures
        operated(before, after),
        r is Ok ==> can_begin(before) && after == after_step(before, Step::Begin),
{
    if after != before {
        if after == after_step(before, Step::Begin) {
        } else {
            assert(after == after_step(before, Step::BeginCut));
        }
    }
}

/// Whatever becomes of a write, it leaves the store as it found it or as a
/// write, whole or cut short, leaves it.
pub proof fn lemma_write_takes_a_step(
    before: Map<Seq<u8>, Seq<u8>>,
    after: Map<Seq<u8>, Seq<u8>>,
    snapshot: Snapshot,
    key: Seq<u8>,
    value: Option<Seq<u8>>,
    r: Result<(), Error>,
)
    requires
        write_done(before, after, snapshot, key, value, r),
    ensures
        operated(before, after),
{
    if after != before {
        let whole = Step::Write { version: snapshot.version, key, value };
        let cut = Step::WriteCut { version: snapshot.version, key };
        if after == after_step(before, whole) {
        } else {
            assert(after == after_step(before, cut));
        }
    }
}

/// Whatever becomes of a commit, it leaves the store as it found it or as
/// a commit, whole or cut short, leaves it.
pub proof fn lemma_commit_takes_a_step(
    before: Map<Seq<u8>, Seq<u8>>,
    after: Map<Seq<u8>, Seq<u8>>,
    version: u64,
    r: Result<(), Error>,
)
    requires
        commit_done(before, after, version, r),
    ensures
        operated(before, after),
{
    if after != before {
        if after == after_step(before, Step::Commit { version }) {
        } else {
            assert(after == after_step(before, Step::CommitCut { version, left: after }));
        }
    }
}

/// Whatever becomes of a rollback, it leaves the store as it found it or
/// as a rollback, whole or cut short, leaves it.
pub proof fn lemma_rollback_takes_a_step(
    before: Map<Seq<u8>, Seq<u8>>,
    after: Map<Seq<u8>, Seq<u8>>,
    version: u64,
    r: Result<(), Error>,
)
    requires
        rollback_done(before, after, version, r),
    ensures
        operated(before, after),
{
    if after != before {
        if after == after_step(before, Step::Rollback { version }) {
        } else {
            assert(after == after_step(before, Step::RollbackCut { version, left: after }));
        }
    }
}

/// Each store of `stores` is what one operation can leave of the store
/// before it.
pub open spec fn is_history(stores: Seq<Map<Seq<u8>, Seq<u8>>>) -> bool {
    forall|k: int| 0 <= k < stores.len() - 1 ==> operated(#[trigger] stores[k], stores[k + 1])
}

/// Along a history the counter, once it can be read, stays readable and
/// never falls.
pub proof fn lemma_history_keeps_counter(stores: Seq<Map<Seq<u8>, Seq<u8>>>, i: int, j: int)
    requires
        is_history(stores),
        0 <= i <= j < stores.len(),
        next_version(stores[i]) is Some,
    ensures
        next_version(stores[j]) matches Some(later) && next_version(stores[i]).unwrap() <= later,
    decreases j - i,
{
    if i < j {
        lemma_history_keeps_counter(stores, i, j - 1);
        let before = stores[j - 1];
        assert(operated(before, stores[j]));
        if stores[j] != before {
            let step = choose|step: Step| stores[j] == #[trigger] after_step(before, step);
            lemma_step_moves_counter(before, step);
        }
    }
}

/// Versions are never handed out twice, nor out of order: where a begin
/// gives a transaction and, after any operations of any transactions,
/// whole or cut short by the store, another begin gives one, the later
/// transaction has the greater version.
pub proof fn lemma_versions_never_reused(stores: Seq<Map<Seq<u8>, Seq<u8>>>, i: int, j: int)
    requires
        is_history(stores),
        0 <= i < j < stores.len() - 1,
        can_begin(stores[i]),
        stores[i + 1] == after_step(stores[i], Step::Begin),
        can_begin(stores[j]),
    ensures
        begun(stores[i]).version < begun(stores[j]).version,
{
    lemma_step_moves_counter(stores[i], Step::Begin);
    lemma_history_keeps_counter(stores, i + 1, j);
}

} // verus!
