use mvcc::{Error, StorageError, Version};

#[test]
fn a_version_is_stored_as_eight_bytes_lowest_first() {
    assert_eq!(Version(1).encode().unwrap(), vec![1, 0, 0, 0, 0, 0, 0, 0]);
    assert_eq!(
        Version(0x0102_0304_0506_0708).encode().unwrap(),
        vec![8, 7, 6, 5, 4, 3, 2, 1]
    );
    assert_eq!(Version(u64::MAX).encode().unwrap(), vec![255; 8]);
}

#[test]
fn a_stored_version_reads_back() {
    assert_eq!(Version::decode(&[1, 0, 0, 0, 0, 0, 0, 0]), Ok(Version(1)));
    assert_eq!(Version::decode(&[0, 1, 0, 0, 0, 0, 0, 0]), Ok(Version(256)));
    for value in [0u64, 1, 255, 256, 114514, u64::MAX - 1, u64::MAX] {
        let bytes = Version(value).encode().unwrap();
        assert_eq!(Version::decode(&bytes), Ok(Version(value)));
    }
}

#[test]
fn bytes_after_the_eighth_are_ignored() {
    assert_eq!(Version::decode(&[2, 0, 0, 0, 0, 0, 0, 0, 9, 9]), Ok(Version(2)));
}

#[test]
fn fewer_than_eight_bytes_are_no_version() {
    let short = Err(Error::InternalError(
        "stored version is shorter than eight bytes".to_string(),
    ));
    assert_eq!(Version::decode(&[]), short);
    assert_eq!(Version::decode(&[1, 0, 0, 0, 0, 0, 0]), short);
}

#[test]
fn the_bounds_are_the_ends_of_the_range() {
    assert_eq!(Version::min(), Version(0));
    assert_eq!(Version::max(), Version(u64::MAX));
    assert!(Version::min() < Version(1));
    assert!(Version(1) < Version::max());
}

#[test]
fn a_version_plus_a_number_is_a_version() {
    assert_eq!(Version(1) + 1, Version(2));
    assert_eq!(Version(41) + 0, Version(41));
    assert_eq!(Version(u64::MAX - 1) + 1, Version::max());
}

#[test]
fn a_number_turns_into_a_version() {
    let version: Version = 7.into();
    assert_eq!(version, Version(7));
    assert_eq!(Version::from(114514), Version(114514));
}

#[test]
fn an_error_says_what_went_wrong() {
    assert_eq!(Error::WriteConflict.message(), "write conflict");
    assert_eq!(Error::InternalError("stray".to_string()).message(), "stray");
    assert_eq!(Error::internal("stray"), Error::InternalError("stray".to_string()));
    let failure = StorageError { message: "disk".to_string() };
    assert_eq!(Error::Storage(failure).message(), "disk");
}
