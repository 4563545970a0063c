use mvcc::{Error, Memory, Mvcc, MvccKey, Version};

fn internal(text: &str) -> Error {
    Error::InternalError(text.to_string())
}

fn value_entry(key: &[u8], version: u64, value: &[u8]) -> (Vec<u8>, Vec<u8>) {
    (MvccKey::Version(key.to_vec(), Version(version)).encode().unwrap(), value.to_vec())
}

fn marker(version: u64) -> (Vec<u8>, Vec<u8>) {
    (MvccKey::TxnActive(Version(version)).encode().unwrap(), Vec::new())
}

fn log_entry(version: u64, key: &[u8]) -> (Vec<u8>, Vec<u8>) {
    (MvccKey::TxnWrite(Version(version), key.to_vec()).encode().unwrap(), Vec::new())
}

/// A transaction with version 4 that began while 2 was active.
fn fourth(store: &mut Memory) -> Mvcc {
    let a = Mvcc::begin(store).unwrap();
    let _b = Mvcc::begin(store).unwrap();
    let c = Mvcc::begin(store).unwrap();
    a.commit(store).unwrap();
    c.commit(store).unwrap();
    let d = Mvcc::begin(store).unwrap();
    assert_eq!(d.version(), Version(4));
    d
}

#[test]
fn markers_give_their_versions_in_order() {
    let entries = vec![marker(1), marker(7), marker(300)];
    assert_eq!(
        Mvcc::active_from_entries(&entries),
        Ok(vec![Version(1), Version(7), Version(300)])
    );
    assert_eq!(Mvcc::active_from_entries(&Vec::new()), Ok(Vec::new()));
}

#[test]
fn an_entry_that_is_no_marker_is_refused() {
    let entries = vec![marker(1), value_entry(b"k", 1, b"v"), (vec![9], Vec::new())];
    assert_eq!(
        Mvcc::active_from_entries(&entries),
        Err(internal("unexpected key when scanning active transactions"))
    );
    let entries = vec![marker(1), (vec![1, 2], Vec::new()), value_entry(b"k", 1, b"v")];
    assert_eq!(
        Mvcc::active_from_entries(&entries),
        Err(internal("stored key does not belong to any key family"))
    );
}

#[test]
fn the_active_transactions_are_scanned_oldest_first() {
    let mut store = Memory::new();
    assert_eq!(Mvcc::scan_active_txn(&mut store), Ok(Vec::new()));
    let a = Mvcc::begin(&mut store).unwrap();
    let _b = Mvcc::begin(&mut store).unwrap();
    let _c = Mvcc::begin(&mut store).unwrap();
    assert_eq!(Mvcc::scan_active_txn(&mut store), Ok(vec![Version(1), Version(2), Version(3)]));
    a.commit(&mut store).unwrap();
    assert_eq!(Mvcc::scan_active_txn(&mut store), Ok(vec![Version(2), Version(3)]));
}

#[test]
fn the_last_visible_entry_is_read() {
    let mut store = Memory::new();
    let d = fourth(&mut store);
    let entries = vec![
        value_entry(b"k", 1, b"one"),
        value_entry(b"k", 2, b"two"),
        value_entry(b"k", 3, b"three"),
        value_entry(b"k", 4, b"four"),
        value_entry(b"k", 9, b"nine"),
    ];
    assert_eq!(d.newest_visible(&entries), Ok(Some(b"three".to_vec())));
    let entries = vec![value_entry(b"k", 1, b"one"), value_entry(b"k", 2, b"two")];
    assert_eq!(d.newest_visible(&entries), Ok(Some(b"one".to_vec())));
    let entries = vec![value_entry(b"k", 2, b"two"), value_entry(b"k", 4, b"four")];
    assert_eq!(d.newest_visible(&entries), Ok(None));
    assert_eq!(d.newest_visible(&Vec::new()), Ok(None));
}

#[test]
fn an_entry_that_is_no_value_stops_the_read_where_it_is_reached() {
    let mut store = Memory::new();
    let d = fourth(&mut store);
    let entries = vec![value_entry(b"k", 1, b"one"), marker(1), value_entry(b"k", 2, b"two")];
    assert_eq!(d.newest_visible(&entries), Err(internal("unexpected key when scanning versions")));
    let entries = vec![value_entry(b"k", 1, b"one"), (vec![3], Vec::new())];
    assert_eq!(
        d.newest_visible(&entries),
        Err(internal("stored key does not belong to any key family"))
    );
    // below the value that is read nothing is looked at
    let entries = vec![marker(1), (vec![3], Vec::new()), value_entry(b"k", 3, b"three")];
    assert_eq!(d.newest_visible(&entries), Ok(Some(b"three".to_vec())));
}

#[test]
fn the_newest_version_decides_a_write() {
    let mut store = Memory::new();
    let d = fourth(&mut store);
    assert_eq!(d.check_newest(&value_entry(b"k", 0, b"").0), Ok(()));
    assert_eq!(d.check_newest(&value_entry(b"k", 1, b"").0), Ok(()));
    assert_eq!(d.check_newest(&value_entry(b"k", 3, b"").0), Ok(()));
    assert_eq!(d.check_newest(&value_entry(b"k", 2, b"").0), Err(Error::WriteConflict));
    assert_eq!(d.check_newest(&value_entry(b"k", 4, b"").0), Err(Error::WriteConflict));
    assert_eq!(d.check_newest(&value_entry(b"k", 5, b"").0), Err(Error::WriteConflict));
    assert_eq!(
        d.check_newest(&log_entry(2, b"k").0),
        Err(internal("unexpected key when scanning versions"))
    );
    assert_eq!(
        d.check_newest(&[3, 1]),
        Err(internal("stored key does not belong to any key family"))
    );
}

#[test]
fn the_visible_entries_are_kept_in_their_order() {
    let mut store = Memory::new();
    let d = fourth(&mut store);
    let entries = vec![
        value_entry(b"a", 1, b"a1"),
        value_entry(b"a", 2, b"a2"),
        value_entry(b"b", 3, b"b3"),
        value_entry(b"b", 4, b"b4"),
        value_entry(b"c", 0, b"c0"),
        value_entry(b"c", 5, b"c5"),
    ];
    assert_eq!(
        d.visible_entries(&entries),
        Ok(vec![
            value_entry(b"a", 1, b"a1"),
            value_entry(b"b", 3, b"b3"),
            value_entry(b"c", 0, b"c0"),
        ])
    );
    assert_eq!(d.visible_entries(&Vec::new()), Ok(Vec::new()));
}

#[test]
fn an_entry_that_is_no_value_is_not_passed_over() {
    let mut store = Memory::new();
    let d = fourth(&mut store);
    let entries = vec![value_entry(b"a", 1, b"a1"), log_entry(1, b"a")];
    assert_eq!(d.visible_entries(&entries), Err(internal("unexpected key when scanning versions")));
    let entries = vec![(Vec::new(), Vec::new()), log_entry(1, b"a")];
    assert_eq!(
        d.visible_entries(&entries),
        Err(internal("stored key does not belong to any key family"))
    );
}

#[test]
fn a_write_log_gives_the_keys_that_were_written() {
    let entries = vec![log_entry(1, b"a"), log_entry(1, b""), log_entry(2, &[0, 1])];
    assert_eq!(Mvcc::logged_keys(&entries), Ok(vec![b"a".to_vec(), Vec::new(), vec![0, 1]]));
    assert_eq!(Mvcc::logged_keys(&Vec::new()), Ok(Vec::new()));
}

#[test]
fn an_entry_that_is_no_log_entry_is_refused() {
    let entries = vec![log_entry(1, b"a"), marker(1)];
    assert_eq!(
        Mvcc::logged_keys(&entries),
        Err(internal("unexpected key when scanning txn writes"))
    );
    let entries = vec![(vec![2, 0], Vec::new()), marker(1)];
    assert_eq!(
        Mvcc::logged_keys(&entries),
        Err(internal("stored key does not belong to any key family"))
    );
}

#[test]
fn the_counter_gives_the_next_version() {
    assert_eq!(Mvcc::version_from_counter(None), Ok(Version(1)));
    assert_eq!(Mvcc::version_from_counter(Some(vec![1, 0, 0, 0, 0, 0, 0, 0])), Ok(Version(1)));
    assert_eq!(Mvcc::version_from_counter(Some(vec![0, 1, 0, 0, 0, 0, 0, 0])), Ok(Version(256)));
    assert_eq!(
        Mvcc::version_from_counter(Some(Version(u64::MAX - 1).encode().unwrap())),
        Ok(Version(u64::MAX - 1))
    );
    // what follows the eighth byte does not count
    assert_eq!(Mvcc::version_from_counter(Some(vec![7, 0, 0, 0, 0, 0, 0, 0, 9])), Ok(Version(7)));
}

#[test]
fn the_counter_never_gives_a_reserved_version() {
    assert_eq!(
        Mvcc::version_from_counter(Some(vec![0; 8])),
        Err(internal("the next version is 0, which no transaction gets"))
    );
    assert_eq!(
        Mvcc::version_from_counter(Some(vec![255; 8])),
        Err(internal("no version is left to allocate"))
    );
}

#[test]
fn a_counter_of_too_few_bytes_gives_no_version() {
    let short = Err(internal("stored version is shorter than eight bytes"));
    assert_eq!(Mvcc::version_from_counter(Some(Vec::new())), short);
    assert_eq!(Mvcc::version_from_counter(Some(vec![1, 0, 0, 0, 0, 0, 0])), short);
}
