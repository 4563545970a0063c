use mvcc::{Error, Memory, Mvcc, MvccKey, Storage, StorageError, Version};

fn internal(text: &str) -> Error {
    Error::InternalError(text.to_string())
}

fn full() -> Error {
    let message = "the store holds as many entries as it may".to_string();
    Error::Storage(StorageError { message })
}

fn stored(key: &MvccKey) -> Vec<u8> {
    key.encode().unwrap()
}

#[test]
fn versions_are_handed_out_in_order() {
    let mut store = Memory::new();
    let a = Mvcc::begin(&mut store).unwrap();
    let b = Mvcc::begin(&mut store).unwrap();
    a.set(&mut store, b"k".to_vec(), b"v".to_vec()).unwrap();
    a.commit(&mut store).unwrap();
    let c = Mvcc::begin(&mut store).unwrap();
    b.rollback(&mut store).unwrap();
    let d = Mvcc::begin(&mut store).unwrap();
    assert_eq!(a.version(), Version(1));
    assert_eq!(b.version(), Version(2));
    assert_eq!(c.version(), Version(3));
    assert_eq!(d.version(), Version(4));
}

#[test]
fn begin_leaves_the_counter_and_a_marker() {
    let mut store = Memory::new();
    let a = Mvcc::begin(&mut store).unwrap();
    assert_eq!(a.version(), Version(1));
    assert_eq!(store.len(), 2);
    assert_eq!(
        store.get(&stored(&MvccKey::NextVersion)).unwrap(),
        Some(vec![2, 0, 0, 0, 0, 0, 0, 0])
    );
    assert_eq!(store.get(&stored(&MvccKey::TxnActive(Version(1)))).unwrap(), Some(Vec::new()));
}

#[test]
fn begin_takes_the_version_that_the_counter_holds() {
    let mut store = Memory::new();
    store.put(&stored(&MvccKey::NextVersion), &Version(41).encode().unwrap()).unwrap();
    let a = Mvcc::begin(&mut store).unwrap();
    assert_eq!(a.version(), Version(41));
    assert_eq!(
        store.get(&stored(&MvccKey::NextVersion)).unwrap(),
        Some(Version(42).encode().unwrap())
    );
}

#[test]
fn begin_refuses_a_counter_that_cannot_be_read() {
    let mut store = Memory::new();
    store.put(&stored(&MvccKey::NextVersion), &[1, 2, 3]).unwrap();
    assert_eq!(
        Mvcc::begin(&mut store).err(),
        Some(internal("stored version is shorter than eight bytes"))
    );
    assert_eq!(store.len(), 1);
}

#[test]
fn begin_never_hands_out_version_zero() {
    let mut store = Memory::new();
    store.put(&stored(&MvccKey::NextVersion), &Version(0).encode().unwrap()).unwrap();
    assert_eq!(
        Mvcc::begin(&mut store).err(),
        Some(internal("the next version is 0, which no transaction gets"))
    );
    // the store is as it was: the counter has not moved and no marker is there
    assert_eq!(store.len(), 1);
    assert_eq!(
        store.get(&stored(&MvccKey::NextVersion)).unwrap(),
        Some(Version(0).encode().unwrap())
    );
    assert_eq!(store.get(&stored(&MvccKey::TxnActive(Version(0)))).unwrap(), None);
}

#[test]
fn the_first_version_is_one() {
    let mut store = Memory::new();
    let first = Mvcc::begin(&mut store).unwrap();
    assert_eq!(first.version(), Version(1));
    assert!(Version::min() < first.version());
    assert!(first.version() < Version::max());
}

#[test]
fn begin_never_hands_out_the_greatest_version() {
    let mut store = Memory::new();
    store.put(&stored(&MvccKey::NextVersion), &Version(u64::MAX - 1).encode().unwrap()).unwrap();
    let last = Mvcc::begin(&mut store).unwrap();
    assert_eq!(last.version(), Version(u64::MAX - 1));
    assert_eq!(Mvcc::begin(&mut store).err(), Some(internal("no version is left to allocate")));
    assert_eq!(store.len(), 2);
}

#[test]
fn begin_refuses_a_stray_key_among_the_markers() {
    let mut store = Memory::new();
    store.put(&[1, 9], b"").unwrap();
    assert_eq!(
        Mvcc::begin(&mut store).err(),
        Some(internal("stored key does not belong to any key family"))
    );
    // the transaction has begun all the same
    assert_eq!(store.get(&stored(&MvccKey::TxnActive(Version(1)))).unwrap(), Some(Vec::new()));
}

#[test]
fn begin_hands_on_the_failure_of_the_store() {
    let mut store = Memory::with_limit(0);
    assert_eq!(Mvcc::begin(&mut store).err(), Some(full()));
    assert_eq!(store.len(), 0);

    let mut store = Memory::with_limit(1);
    assert_eq!(Mvcc::begin(&mut store).err(), Some(full()));
    // the counter has moved on
    assert_eq!(
        store.get(&stored(&MvccKey::NextVersion)).unwrap(),
        Some(Version(2).encode().unwrap())
    );
}

#[test]
fn a_transaction_sees_what_is_older_and_was_not_active() {
    let mut store = Memory::new();
    let a = Mvcc::begin(&mut store).unwrap();
    let b = Mvcc::begin(&mut store).unwrap();
    a.commit(&mut store).unwrap();
    let c = Mvcc::begin(&mut store).unwrap();
    // c began with b active and a committed
    assert!(c.is_version_visible(Version(0)));
    assert!(c.is_version_visible(a.version()));
    assert!(!c.is_version_visible(b.version()));
    assert!(!c.is_version_visible(c.version()));
    assert!(!c.is_version_visible(Version(4)));
    assert!(!c.is_version_visible(Version::max()));
    // b began with a active
    assert!(!b.is_version_visible(a.version()));
    assert!(!b.is_version_visible(b.version()));
    assert!(b.is_version_visible(Version(0)));
}

#[test]
fn commit_exposes_writes() {
    let mut store = Memory::new();
    let a = Mvcc::begin(&mut store).unwrap();
    a.set(&mut store, b"k".to_vec(), b"v1".to_vec()).unwrap();
    a.commit(&mut store).unwrap();
    let b = Mvcc::begin(&mut store).unwrap();
    assert_eq!(b.get(&mut store, b"k".to_vec()).unwrap(), Some(b"v1".to_vec()));
}

#[test]
fn commit_removes_the_bookkeeping_and_keeps_the_values() {
    let mut store = Memory::new();
    let a = Mvcc::begin(&mut store).unwrap();
    a.set(&mut store, b"k".to_vec(), b"v".to_vec()).unwrap();
    a.set(&mut store, b"l".to_vec(), b"w".to_vec()).unwrap();
    assert_eq!(store.len(), 6);
    a.commit(&mut store).unwrap();
    assert_eq!(store.len(), 3);
    assert_eq!(
        store.get(&stored(&MvccKey::Version(b"k".to_vec(), Version(1)))).unwrap(),
        Some(b"v".to_vec())
    );
    assert_eq!(
        store.get(&stored(&MvccKey::Version(b"l".to_vec(), Version(1)))).unwrap(),
        Some(b"w".to_vec())
    );
    assert_eq!(store.get(&stored(&MvccKey::TxnActive(Version(1)))).unwrap(), None);
    assert_eq!(store.get(&stored(&MvccKey::TxnWrite(Version(1), b"k".to_vec()))).unwrap(), None);
    // a raw key that happens to be a written key is not touched
    store.put(b"k", b"raw").unwrap();
    let b = Mvcc::begin(&mut store).unwrap();
    b.set(&mut store, b"k".to_vec(), b"v2".to_vec()).unwrap();
    b.commit(&mut store).unwrap();
    assert_eq!(store.get(b"k").unwrap(), Some(b"raw".to_vec()));
}

#[test]
fn commit_leaves_the_logs_of_others() {
    let mut store = Memory::new();
    let a = Mvcc::begin(&mut store).unwrap();
    let b = Mvcc::begin(&mut store).unwrap();
    a.set(&mut store, b"k".to_vec(), b"a".to_vec()).unwrap();
    b.set(&mut store, b"l".to_vec(), b"b".to_vec()).unwrap();
    a.commit(&mut store).unwrap();
    assert_eq!(
        store.get(&stored(&MvccKey::TxnWrite(Version(2), b"l".to_vec()))).unwrap(),
        Some(Vec::new())
    );
    assert_eq!(store.get(&stored(&MvccKey::TxnActive(Version(2)))).unwrap(), Some(Vec::new()));
}

#[test]
fn snapshot_isolation_holds_against_later_commits() {
    let mut store = Memory::new();
    let w = Mvcc::begin(&mut store).unwrap();
    w.set(&mut store, b"k".to_vec(), b"old".to_vec()).unwrap();
    w.commit(&mut store).unwrap();

    let a = Mvcc::begin(&mut store).unwrap();
    let b = Mvcc::begin(&mut store).unwrap();
    assert_eq!(a.get(&mut store, b"k".to_vec()).unwrap(), Some(b"old".to_vec()));
    b.set(&mut store, b"k".to_vec(), b"new".to_vec()).unwrap();
    assert_eq!(a.get(&mut store, b"k".to_vec()).unwrap(), Some(b"old".to_vec()));
    b.set(&mut store, b"fresh".to_vec(), b"x".to_vec()).unwrap();
    b.commit(&mut store).unwrap();
    assert_eq!(a.get(&mut store, b"k".to_vec()).unwrap(), Some(b"old".to_vec()));
    assert_eq!(a.get(&mut store, b"fresh".to_vec()).unwrap(), None);
    assert_eq!(a.scan_visible_versions(&mut store, Vec::new()).unwrap().len(), 1);

    let c = Mvcc::begin(&mut store).unwrap();
    assert_eq!(c.get(&mut store, b"k".to_vec()).unwrap(), Some(b"new".to_vec()));
    assert_eq!(c.get(&mut store, b"fresh".to_vec()).unwrap(), Some(b"x".to_vec()));
}

#[test]
fn a_transaction_that_was_active_at_begin_stays_invisible() {
    let mut store = Memory::new();
    let a = Mvcc::begin(&mut store).unwrap();
    let b = Mvcc::begin(&mut store).unwrap();
    a.set(&mut store, b"k".to_vec(), b"a".to_vec()).unwrap();
    a.commit(&mut store).unwrap();
    // a was active when b began
    assert_eq!(b.get(&mut store, b"k".to_vec()).unwrap(), None);
}

#[test]
fn a_transaction_does_not_read_its_own_writes() {
    let mut store = Memory::new();
    let a = Mvcc::begin(&mut store).unwrap();
    a.set(&mut store, b"k".to_vec(), b"mine".to_vec()).unwrap();
    assert_eq!(a.get(&mut store, b"k".to_vec()).unwrap(), None);
    assert_eq!(a.scan_visible_versions(&mut store, b"k".to_vec()).unwrap(), Vec::new());
}

#[test]
fn get_returns_the_newest_visible_version() {
    let mut store = Memory::new();
    for value in [b"one", b"two"] {
        let w = Mvcc::begin(&mut store).unwrap();
        w.set(&mut store, b"k".to_vec(), value.to_vec()).unwrap();
        w.commit(&mut store).unwrap();
    }
    let pending = Mvcc::begin(&mut store).unwrap();
    pending.set(&mut store, b"k".to_vec(), b"three".to_vec()).unwrap();
    let reader = Mvcc::begin(&mut store).unwrap();
    assert_eq!(reader.get(&mut store, b"k".to_vec()).unwrap(), Some(b"two".to_vec()));
    assert_eq!(reader.get(&mut store, b"other".to_vec()).unwrap(), None);
    // a key that the read key begins, or that begins with it, is another key
    assert_eq!(reader.get(&mut store, b"k0".to_vec()).unwrap(), None);
    assert_eq!(reader.get(&mut store, Vec::new()).unwrap(), None);
}

#[test]
fn first_writer_wins() {
    let mut store = Memory::new();
    let a = Mvcc::begin(&mut store).unwrap();
    let b = Mvcc::begin(&mut store).unwrap();
    b.set(&mut store, b"k".to_vec(), b"b".to_vec()).unwrap();
    b.commit(&mut store).unwrap();
    let before = store.len();
    assert_eq!(a.set(&mut store, b"k".to_vec(), b"a".to_vec()), Err(Error::WriteConflict));
    assert_eq!(a.delete(&mut store, b"k".to_vec()), Err(Error::WriteConflict));
    assert_eq!(store.len(), before);
    // another key is free
    assert_eq!(a.set(&mut store, b"l".to_vec(), b"a".to_vec()), Ok(()));
}

#[test]
fn an_uncommitted_write_of_an_older_transaction_conflicts_too() {
    let mut store = Memory::new();
    let a = Mvcc::begin(&mut store).unwrap();
    let b = Mvcc::begin(&mut store).unwrap();
    a.set(&mut store, b"k".to_vec(), b"a".to_vec()).unwrap();
    assert_eq!(b.set(&mut store, b"k".to_vec(), b"b".to_vec()), Err(Error::WriteConflict));
}

#[test]
fn a_transaction_cannot_write_over_its_own_write() {
    let mut store = Memory::new();
    let a = Mvcc::begin(&mut store).unwrap();
    a.set(&mut store, b"k".to_vec(), b"1".to_vec()).unwrap();
    assert_eq!(a.set(&mut store, b"k".to_vec(), b"2".to_vec()), Err(Error::WriteConflict));
}

#[test]
fn a_visible_version_is_no_conflict() {
    let mut store = Memory::new();
    let a = Mvcc::begin(&mut store).unwrap();
    a.set(&mut store, b"k".to_vec(), b"a".to_vec()).unwrap();
    a.commit(&mut store).unwrap();
    let b = Mvcc::begin(&mut store).unwrap();
    assert_eq!(b.set(&mut store, b"k".to_vec(), b"b".to_vec()), Ok(()));
    assert_eq!(
        store.get(&stored(&MvccKey::Version(b"k".to_vec(), Version(2)))).unwrap(),
        Some(b"b".to_vec())
    );
    assert_eq!(
        store.get(&stored(&MvccKey::TxnWrite(Version(2), b"k".to_vec()))).unwrap(),
        Some(Vec::new())
    );
}

#[test]
fn rollback_undoes_writes() {
    let mut store = Memory::new();
    let a = Mvcc::begin(&mut store).unwrap();
    a.set(&mut store, b"k".to_vec(), b"x".to_vec()).unwrap();
    a.rollback(&mut store).unwrap();
    let b = Mvcc::begin(&mut store).unwrap();
    assert_eq!(b.get(&mut store, b"k".to_vec()).unwrap(), None);
    // nothing is left of the first transaction but the counter
    assert_eq!(store.get(&stored(&MvccKey::Version(b"k".to_vec(), Version(1)))).unwrap(), None);
    assert_eq!(store.get(&stored(&MvccKey::TxnWrite(Version(1), b"k".to_vec()))).unwrap(), None);
    assert_eq!(store.get(&stored(&MvccKey::TxnActive(Version(1)))).unwrap(), None);
    assert_eq!(store.len(), 2);
}

#[test]
fn rollback_brings_back_what_was_read_before() {
    let mut store = Memory::new();
    let w = Mvcc::begin(&mut store).unwrap();
    w.set(&mut store, b"k".to_vec(), b"kept".to_vec()).unwrap();
    w.commit(&mut store).unwrap();
    let a = Mvcc::begin(&mut store).unwrap();
    a.set(&mut store, b"k".to_vec(), b"x".to_vec()).unwrap();
    a.set(&mut store, b"l".to_vec(), b"y".to_vec()).unwrap();
    a.rollback(&mut store).unwrap();
    let b = Mvcc::begin(&mut store).unwrap();
    assert_eq!(b.get(&mut store, b"k".to_vec()).unwrap(), Some(b"kept".to_vec()));
    assert_eq!(b.get(&mut store, b"l".to_vec()).unwrap(), None);
    // and the key can be written again
    assert_eq!(b.set(&mut store, b"k".to_vec(), b"z".to_vec()), Ok(()));
}

#[test]
fn delete_removes_the_transactions_own_version_only() {
    let mut store = Memory::new();
    let w = Mvcc::begin(&mut store).unwrap();
    w.set(&mut store, b"k".to_vec(), b"old".to_vec()).unwrap();
    w.commit(&mut store).unwrap();
    let d = Mvcc::begin(&mut store).unwrap();
    d.delete(&mut store, b"k".to_vec()).unwrap();
    assert_eq!(
        store.get(&stored(&MvccKey::TxnWrite(Version(2), b"k".to_vec()))).unwrap(),
        Some(Vec::new())
    );
    assert_eq!(store.get(&stored(&MvccKey::Version(b"k".to_vec(), Version(2)))).unwrap(), None);
    d.commit(&mut store).unwrap();
    // no tombstone is written: a later reader falls through to the older value
    let r = Mvcc::begin(&mut store).unwrap();
    assert_eq!(r.get(&mut store, b"k".to_vec()).unwrap(), Some(b"old".to_vec()));
}

#[test]
fn prefix_scan_returns_visible_entries_in_key_order() {
    let mut store = Memory::new();
    let a = Mvcc::begin(&mut store).unwrap();
    a.set(&mut store, b"a/2".to_vec(), b"two".to_vec()).unwrap();
    a.set(&mut store, b"b/1".to_vec(), b"other".to_vec()).unwrap();
    a.set(&mut store, b"a/1".to_vec(), b"one".to_vec()).unwrap();
    a.commit(&mut store).unwrap();
    let b = Mvcc::begin(&mut store).unwrap();
    let found = b.scan_visible_versions(&mut store, b"a/".to_vec()).unwrap();
    assert_eq!(
        found,
        vec![
            (stored(&MvccKey::Version(b"a/1".to_vec(), Version(1))), b"one".to_vec()),
            (stored(&MvccKey::Version(b"a/2".to_vec(), Version(1))), b"two".to_vec()),
        ]
    );
}

#[test]
fn prefix_scan_lists_every_visible_version() {
    let mut store = Memory::new();
    for value in [b"1", b"2"] {
        let w = Mvcc::begin(&mut store).unwrap();
        w.set(&mut store, b"a".to_vec(), value.to_vec()).unwrap();
        w.commit(&mut store).unwrap();
    }
    let pending = Mvcc::begin(&mut store).unwrap();
    pending.set(&mut store, b"ab".to_vec(), b"hidden".to_vec()).unwrap();
    let r = Mvcc::begin(&mut store).unwrap();
    let found = r.scan_visible_versions(&mut store, b"a".to_vec()).unwrap();
    assert_eq!(
        found,
        vec![
            (stored(&MvccKey::Version(b"a".to_vec(), Version(1))), b"1".to_vec()),
            (stored(&MvccKey::Version(b"a".to_vec(), Version(2))), b"2".to_vec()),
        ]
    );
    assert_eq!(r.scan_visible_versions(&mut store, b"b".to_vec()).unwrap(), Vec::new());
    assert_eq!(r.scan_visible_versions(&mut store, Vec::new()).unwrap().len(), 2);
}

#[test]
fn a_stray_key_among_the_versions_is_an_internal_error() {
    let mut store = Memory::new();
    let a = Mvcc::begin(&mut store).unwrap();
    a.set(&mut store, b"k".to_vec(), b"v".to_vec()).unwrap();
    a.commit(&mut store).unwrap();
    // a key that lies among the versions of "k" and is the key of nothing
    let mut stray = stored(&MvccKey::Version(b"k".to_vec(), Version(1)));
    stray.push(0);
    store.put(&stray, b"").unwrap();

    let r = Mvcc::begin(&mut store).unwrap();
    let malformed = internal("stored key does not belong to any key family");
    assert_eq!(r.get(&mut store, b"k".to_vec()), Err(malformed.clone()));
    assert_eq!(r.scan_visible_versions(&mut store, b"k".to_vec()), Err(malformed.clone()));
    // the stray key is older than all that a write looks at
    assert_eq!(r.set(&mut store, b"k".to_vec(), b"w".to_vec()), Ok(()));
    let mut stray = stored(&MvccKey::Version(b"k".to_vec(), Version(7)));
    stray.push(0);
    store.put(&stray, b"").unwrap();
    assert_eq!(r.set(&mut store, b"k".to_vec(), b"w".to_vec()), Err(malformed.clone()));
    assert_eq!(r.delete(&mut store, b"k".to_vec()), Err(malformed));
    // other keys are read and written as before
    assert_eq!(r.get(&mut store, b"j".to_vec()), Ok(None));
    assert_eq!(r.set(&mut store, b"j".to_vec(), b"w".to_vec()), Ok(()));
}

#[test]
fn a_stray_key_below_the_value_that_is_read_does_no_harm() {
    let mut store = Memory::new();
    let mut stray = stored(&MvccKey::Version(b"k".to_vec(), Version(0)));
    stray.push(0);
    store.put(&stray, b"").unwrap();
    let a = Mvcc::begin(&mut store).unwrap();
    a.set(&mut store, b"k".to_vec(), b"v".to_vec()).unwrap();
    a.commit(&mut store).unwrap();
    let r = Mvcc::begin(&mut store).unwrap();
    assert_eq!(r.get(&mut store, b"k".to_vec()), Ok(Some(b"v".to_vec())));
}

#[test]
fn a_stray_key_in_the_write_log_stops_commit_and_rollback() {
    let mut store = Memory::new();
    let a = Mvcc::begin(&mut store).unwrap();
    a.set(&mut store, b"k".to_vec(), b"v".to_vec()).unwrap();
    let mut stray = stored(&MvccKey::TxnWrite(Version(1), b"k".to_vec()));
    stray.push(7);
    store.put(&stray, b"").unwrap();
    let before = store.len();
    let malformed = internal("stored key does not belong to any key family");
    assert_eq!(a.commit(&mut store), Err(malformed.clone()));
    assert_eq!(a.rollback(&mut store), Err(malformed));
    assert_eq!(store.len(), before);
}

#[test]
fn a_write_hands_on_the_failure_of_the_store() {
    let mut store = Memory::with_limit(2);
    let a = Mvcc::begin(&mut store).unwrap();
    assert_eq!(a.set(&mut store, b"k".to_vec(), b"v".to_vec()), Err(full()));
    assert_eq!(store.len(), 2);

    let mut store = Memory::with_limit(3);
    let a = Mvcc::begin(&mut store).unwrap();
    assert_eq!(a.set(&mut store, b"k".to_vec(), b"v".to_vec()), Err(full()));
    // the write is logged, the value is not there
    assert_eq!(
        store.get(&stored(&MvccKey::TxnWrite(Version(1), b"k".to_vec()))).unwrap(),
        Some(Vec::new())
    );
    assert_eq!(store.get(&stored(&MvccKey::Version(b"k".to_vec(), Version(1)))).unwrap(), None);
}
