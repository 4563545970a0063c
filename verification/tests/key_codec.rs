use mvcc::{Error, MvccKey, MvccKeyPrefix, Version};

#[test]
fn test_mvcc_key_codec() {
    let key = MvccKey::NextVersion;
    let encoded = key.encode().unwrap();
    let decoded = MvccKey::decode(&encoded).unwrap();
    assert_eq!(key, decoded);

    let key = MvccKey::TxnActive(1.into());
    let encoded = key.encode().unwrap();
    let decoded = MvccKey::decode(&encoded).unwrap();
    assert_eq!(key, decoded);

    let key = MvccKey::TxnWrite(1.into(), b"key".to_vec());
    let encoded = key.encode().unwrap();
    let decoded = MvccKey::decode(&encoded).unwrap();
    assert_eq!(key, decoded);

    let key = MvccKey::Version(b"key".to_vec(), 1.into());
    let encoded = key.encode().unwrap();
    let decoded = MvccKey::decode(&encoded).unwrap();
    assert_eq!(key, decoded);
}

#[test]
fn test_mvcckey_encode() {
    let key_1 = MvccKey::TxnActive(1.into());
    let encoded_1 = key_1.encode().unwrap();

    let key_2 = MvccKey::TxnActive(114514.into());
    let encoded_2 = key_2.encode().unwrap();

    assert_ne!(encoded_1, encoded_2);

    let key_3 = MvccKey::NextVersion;
    let encoded_3 = key_3.encode().unwrap();
    assert_ne!(encoded_1, encoded_3);

    let key_4 = MvccKey::TxnActive(114514.into());
    let encoded_4 = key_4.encode().unwrap();
    assert_eq!(encoded_2, encoded_4);
}

#[test]
fn test_mvcckey_encode_prefix() {
    let key_prefix_1 = MvccKeyPrefix::TxnActive;
    let encoded_prefix_1 = key_prefix_1.encode().unwrap();

    let key_1 = MvccKey::TxnActive(114514.into());
    let encoded_1 = key_1.encode().unwrap();
    assert!(encoded_1.starts_with(&encoded_prefix_1));

    let key_prefix_2 = MvccKeyPrefix::Version(b"key".to_vec());
    let encoded_prefix_2 = key_prefix_2.encode().unwrap();

    let key_2 = MvccKey::Version(b"key".to_vec(), 114514.into());
    let encoded_2 = key_2.encode().unwrap();
    assert!(encoded_2.starts_with(&encoded_prefix_2));
    assert!(!encoded_2.starts_with(&encoded_prefix_1));
}

#[test]
fn each_family_has_its_exact_bytes() {
    assert_eq!(MvccKey::NextVersion.encode().unwrap(), vec![0]);
    assert_eq!(
        MvccKey::TxnActive(Version(0x0102_0304_0506_0708)).encode().unwrap(),
        vec![1, 1, 2, 3, 4, 5, 6, 7, 8]
    );
    assert_eq!(
        MvccKey::TxnWrite(Version(258), b"ab".to_vec()).encode().unwrap(),
        vec![2, 0, 0, 0, 0, 0, 0, 1, 2, b'a', b'b', 0, 0]
    );
    assert_eq!(
        MvccKey::Version(b"ab".to_vec(), Version(u64::MAX)).encode().unwrap(),
        vec![3, b'a', b'b', 0, 0, 255, 255, 255, 255, 255, 255, 255, 255]
    );
}

#[test]
fn each_prefix_has_its_exact_bytes() {
    assert_eq!(MvccKeyPrefix::NextVersion.encode().unwrap(), vec![0]);
    assert_eq!(MvccKeyPrefix::TxnActive.encode().unwrap(), vec![1]);
    assert_eq!(
        MvccKeyPrefix::TxnWrite(Version(7)).encode().unwrap(),
        vec![2, 0, 0, 0, 0, 0, 0, 0, 7]
    );
    assert_eq!(MvccKeyPrefix::Version(b"a/".to_vec()).encode().unwrap(), vec![3, b'a', b'/']);
    assert_eq!(MvccKeyPrefix::Version(Vec::new()).encode().unwrap(), vec![3]);
}

#[test]
fn zero_bytes_in_a_key_are_escaped() {
    let key = MvccKey::Version(vec![0, 7, 0], Version(1));
    let encoded = key.encode().unwrap();
    assert_eq!(encoded, vec![3, 0, 255, 7, 0, 255, 0, 0, 0, 0, 0, 0, 0, 0, 0, 1]);
    assert_eq!(MvccKey::decode(&encoded).unwrap(), key);

    let key = MvccKey::TxnWrite(Version(1), vec![0, 0]);
    let encoded = key.encode().unwrap();
    assert_eq!(encoded, vec![2, 0, 0, 0, 0, 0, 0, 0, 1, 0, 255, 0, 255, 0, 0]);
    assert_eq!(MvccKey::decode(&encoded).unwrap(), key);

    assert_eq!(MvccKeyPrefix::Version(vec![1, 0]).encode().unwrap(), vec![3, 1, 0, 255]);
}

#[test]
fn empty_keys_round_trip() {
    let key = MvccKey::Version(Vec::new(), Version(0));
    let encoded = key.encode().unwrap();
    assert_eq!(encoded, vec![3, 0, 0, 0, 0, 0, 0, 0, 0, 0, 0]);
    assert_eq!(MvccKey::decode(&encoded).unwrap(), key);

    let key = MvccKey::TxnWrite(Version(u64::MAX), Vec::new());
    let encoded = key.encode().unwrap();
    assert_eq!(MvccKey::decode(&encoded).unwrap(), key);
}

fn malformed() -> Result<MvccKey, Error> {
    Err(Error::InternalError("stored key does not belong to any key family".to_string()))
}

#[test]
fn bytes_that_store_no_key_are_refused() {
    assert_eq!(MvccKey::decode(&[]), malformed());
    assert_eq!(MvccKey::decode(&[4]), malformed());
    assert_eq!(MvccKey::decode(&[255, 0, 0]), malformed());
    // a counter key with something after the tag
    assert_eq!(MvccKey::decode(&[0, 0]), malformed());
    // a marker with a version of seven or nine bytes
    assert_eq!(MvccKey::decode(&[1, 0, 0, 0, 0, 0, 0, 1]), malformed());
    assert_eq!(MvccKey::decode(&[1, 0, 0, 0, 0, 0, 0, 0, 1, 0]), malformed());
    // a log entry without its terminator, with a broken escape, with bytes after the terminator
    assert_eq!(MvccKey::decode(&[2, 0, 0, 0, 0, 0, 0, 0, 1, b'k']), malformed());
    assert_eq!(MvccKey::decode(&[2, 0, 0, 0, 0, 0, 0, 0, 1, 0, 1, 0, 0]), malformed());
    assert_eq!(MvccKey::decode(&[2, 0, 0, 0, 0, 0, 0, 0, 1, b'k', 0, 0, 9]), malformed());
    assert_eq!(MvccKey::decode(&[2, 0, 0, 0, 0, 0, 0, 0, 1, b'k', 0]), malformed());
    assert_eq!(MvccKey::decode(&[2, 0, 0, 0]), malformed());
    // a value key with a short version, with a long one, without a terminator
    assert_eq!(MvccKey::decode(&[3, b'k', 0, 0, 0, 0, 0, 0, 0, 0, 1]), malformed());
    assert_eq!(MvccKey::decode(&[3, b'k', 0, 0, 0, 0, 0, 0, 0, 0, 0, 1, 1]), malformed());
    assert_eq!(MvccKey::decode(&[3, b'k', b'k']), malformed());
    assert_eq!(MvccKey::decode(&[3]), malformed());
}

#[test]
fn stored_versions_of_a_key_sort_as_the_versions() {
    let versions: [u64; 8] = [0, 1, 2, 255, 256, 65535, 1 << 40, u64::MAX];
    for i in 0..versions.len() {
        for j in 0..versions.len() {
            let a = MvccKey::Version(b"k".to_vec(), Version(versions[i])).encode().unwrap();
            let b = MvccKey::Version(b"k".to_vec(), Version(versions[j])).encode().unwrap();
            assert_eq!(a < b, versions[i] < versions[j]);
            let a = MvccKey::TxnActive(Version(versions[i])).encode().unwrap();
            let b = MvccKey::TxnActive(Version(versions[j])).encode().unwrap();
            assert_eq!(a < b, versions[i] < versions[j]);
        }
    }
}

#[test]
fn a_prefix_begins_the_keys_of_its_family_only() {
    let next = MvccKey::NextVersion.encode().unwrap();
    let active = MvccKey::TxnActive(Version(3)).encode().unwrap();
    let write = MvccKey::TxnWrite(Version(3), b"a/1".to_vec()).encode().unwrap();
    let value = MvccKey::Version(b"a/1".to_vec(), Version(3)).encode().unwrap();

    let p_next = MvccKeyPrefix::NextVersion.encode().unwrap();
    let p_active = MvccKeyPrefix::TxnActive.encode().unwrap();
    let p_write = MvccKeyPrefix::TxnWrite(Version(3)).encode().unwrap();
    let p_other_write = MvccKeyPrefix::TxnWrite(Version(4)).encode().unwrap();
    let p_value = MvccKeyPrefix::Version(b"a/".to_vec()).encode().unwrap();
    let p_other_value = MvccKeyPrefix::Version(b"b/".to_vec()).encode().unwrap();

    assert!(next.starts_with(&p_next));
    assert!(active.starts_with(&p_active));
    assert!(write.starts_with(&p_write));
    assert!(value.starts_with(&p_value));

    assert!(!write.starts_with(&p_other_write));
    assert!(!value.starts_with(&p_other_value));
    for key in [&active, &write, &value] {
        assert!(!key.starts_with(&p_next));
    }
    for key in [&next, &write, &value] {
        assert!(!key.starts_with(&p_active));
    }
    for key in [&next, &active, &value] {
        assert!(!key.starts_with(&p_write));
    }
    for key in [&next, &active, &write] {
        assert!(!key.starts_with(&p_value));
    }
}

#[test]
fn a_prefix_that_ends_in_zero_begins_longer_keys_only() {
    // the key [1] does not begin with [1, 0], though its terminator starts with a zero
    let shorter = MvccKey::Version(vec![1], Version(0)).encode().unwrap();
    let longer = MvccKey::Version(vec![1, 0, 5], Version(0)).encode().unwrap();
    let prefix = MvccKeyPrefix::Version(vec![1, 0]).encode().unwrap();
    assert!(!shorter.starts_with(&prefix));
    assert!(longer.starts_with(&prefix));
}

#[test]
fn stored_values_sort_by_key_and_then_by_version() {
    let keys: [&[u8]; 7] = [b"", &[0], &[0, 0], &[0, 1], b"a", &[b'a', 0], b"ab"];
    let versions: [u64; 3] = [0, 256, u64::MAX];
    for (i, key) in keys.iter().enumerate() {
        for (j, other_key) in keys.iter().enumerate() {
            for version in versions {
                for other in versions {
                    let a = MvccKey::Version(key.to_vec(), Version(version)).encode().unwrap();
                    let b = MvccKey::Version(other_key.to_vec(), Version(other)).encode().unwrap();
                    assert_eq!(a < b, i < j || (i == j && version < other));
                }
            }
        }
    }
}
