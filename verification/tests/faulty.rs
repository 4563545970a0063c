use mvcc::{Error, KeyRange, Memory, Mvcc, Storage, StorageError};

/// A store that fails every operation once its budget of operations is spent.
struct Failing {
    inner: Memory,
    budget: usize,
}

impl Failing {
    fn spend(&mut self) -> Result<(), StorageError> {
        if self.budget == 0 {
            return Err(StorageError { message: "out of order".to_string() });
        }
        self.budget -= 1;
        Ok(())
    }
}

impl Storage for Failing {
    fn get(&mut self, key: &[u8]) -> Result<Option<Vec<u8>>, StorageError> {
        self.spend()?;
        self.inner.get(key)
    }

    fn put(&mut self, key: &[u8], value: &[u8]) -> Result<(), StorageError> {
        self.spend()?;
        self.inner.put(key, value)
    }

    fn delete(&mut self, key: &[u8]) -> Result<(), StorageError> {
        self.spend()?;
        self.inner.delete(key)
    }

    fn scan(&mut self, range: &KeyRange) -> Result<Vec<(Vec<u8>, Vec<u8>)>, StorageError> {
        self.spend()?;
        self.inner.scan(range)
    }

    fn scan_prefix(&mut self, prefix: &[u8]) -> Result<Vec<(Vec<u8>, Vec<u8>)>, StorageError> {
        self.spend()?;
        self.inner.scan_prefix(prefix)
    }
}

fn out_of_order() -> Error {
    Error::Storage(StorageError { message: "out of order".to_string() })
}

#[test]
fn every_operation_hands_on_the_failure_of_the_store() {
    let mut store = Failing { inner: Memory::new(), budget: 4 };
    let a = Mvcc::begin(&mut store).unwrap();
    assert_eq!(a.get(&mut store, b"k".to_vec()), Err(out_of_order()));
    assert_eq!(a.set(&mut store, b"k".to_vec(), b"v".to_vec()), Err(out_of_order()));
    assert_eq!(a.delete(&mut store, b"k".to_vec()), Err(out_of_order()));
    assert_eq!(a.scan_visible_versions(&mut store, b"k".to_vec()), Err(out_of_order()));
    assert_eq!(a.commit(&mut store), Err(out_of_order()));
    assert_eq!(a.rollback(&mut store), Err(out_of_order()));
    assert_eq!(Mvcc::begin(&mut store).err(), Some(out_of_order()));
    assert_eq!(Mvcc::scan_active_txn(&mut store), Err(out_of_order()));
    assert_eq!(store.inner.len(), 2);
}

#[test]
fn versions_ascend_across_operations_that_the_store_cut_short() {
    let mut store = Failing { inner: Memory::new(), budget: 4 };
    let a = Mvcc::begin(&mut store).unwrap();
    assert_eq!(a.version(), mvcc::Version(1));

    // a begin that fails once the counter has moved on
    store.budget = 2;
    assert_eq!(Mvcc::begin(&mut store).err(), Some(out_of_order()));
    // a write that fails once it is logged
    store.budget = 2;
    assert_eq!(a.set(&mut store, b"k".to_vec(), b"v".to_vec()), Err(out_of_order()));
    // a commit that fails once the write log is gone
    store.budget = 2;
    assert_eq!(a.commit(&mut store), Err(out_of_order()));

    store.budget = 4;
    let b = Mvcc::begin(&mut store).unwrap();
    assert_eq!(b.version(), mvcc::Version(3));
    assert!(a.version() < b.version());
}
