//! Transaction versions and their stored form.
use vstd::prelude::*;
use vstd::bytes::{spec_u64_from_le_bytes, spec_u64_to_le_bytes};
use vstd::std_specs::convert::FromSpecImpl;
use vstd::std_specs::ops::AddSpecImpl;
use crate::error::{Error, MALFORMED_VERSION, UNWRITTEN_VERSION};

verus! {

/// `bincode::ErrorKind`, the error of the two calls below. Nothing is read
/// from it.
#[verifier::external_type_specification]
#[verifier::external_body]
pub struct ExBincodeErrorKind(bincode::ErrorKind);

/// Calls `bincode::serialize` on a `u64`. With the fixed-width little-endian
/// configuration of that function the call cannot fail and yields the eight
/// bytes of the integer, least significant first.
#[verifier::external_body]
fn serialize_u64(value: u64) -> (r: Result<Vec<u8>, Box<bincode::ErrorKind>>)
    ensures
        r is Ok,
        r matches Ok(bytes) ==> bytes@ == spec_u64_to_le_bytes(value),
{
    bincode::serialize(&value)
}

/// Calls `bincode::deserialize` for a `u64`. The call reads the first eight
/// bytes as a little-endian integer, ignores what follows them, and fails when
/// fewer than eight bytes are given.
#[verifier::external_body]
fn deserialize_u64(bytes: &[u8]) -> (r: Result<u64, Box<bincode::ErrorKind>>)
    ensures
        r is Ok <==> bytes@.len() >= 8,
        r matches Ok(value) ==> value == spec_u64_from_le_bytes(bytes@.subrange(0, 8)),
{
    bincode::deserialize(bytes)
}

/// The identifier of a transaction, which also stamps every value it writes.
#[derive(Debug, Clone, Copy, PartialEq, Eq, PartialOrd, Ord, Hash, Structural)]
pub struct Version(pub u64);

impl Version {
    /// The bytes under which a version is stored as a value.
    pub open spec fn encode_spec(self) -> Seq<u8> {
        spec_u64_to_le_bytes(self.0)
    }

    /// The version that stored bytes stand for, if they are long enough.
    pub open spec fn decode_spec(bytes: Seq<u8>) -> Option<Version> {
        if bytes.len() >= 8 {
            Some(Version(spec_u64_from_le_bytes(bytes.subrange(0, 8))))
        } else {
            None
        }
    }

    /// The stored form of the version.
    pub fn encode(&self) -> (r: Result<Vec<u8>, Error>)
        ensures
            r matches Ok(bytes) && bytes@ == self.encode_spec(),
    {
        match serialize_u64(self.0) {
            Ok(bytes) => Ok(bytes),
            Err(_) => Err(Error::internal(UNWRITTEN_VERSION)),
        }
    }

    /// The version that `bytes` store. Fewer than eight bytes are an internal
    /// error.
    pub fn decode(bytes: &[u8]) -> (r: Result<Version, Error>)
        ensures
            match Version::decode_spec(bytes@) {
                Some(version) => r == Ok::<Version, Error>(version),
                None => r matches Err(e) && e.is_internal(MALFORMED_VERSION@),
            },
    {
        match deserialize_u64(bytes) {
            Ok(value) => Ok(Version(value)),
            Err(_) => Err(Error::internal(MALFORMED_VERSION)),
        }
    }

    /// The upper bound of every scan: no transaction is ever given this version.
    pub fn max() -> (r: Version)
        ensures
            r.0 == u64::MAX,
    {
        Version(u64::MAX)
    }

    /// The lower bound of every scan: no transaction is ever given this version.
    pub fn min() -> (r: Version)
        ensures
            r.0 == 0,
    {
        Version(0)
    }
}

impl core::ops::Add<u64> for Version {
    type Output = Version;

    fn add(self, rhs: u64) -> (sum: Version) {
        Version(self.0 + rhs)
    }
}

impl AddSpecImpl<u64> for Version {
    open spec fn obeys_add_spec() -> bool {
        true
    }

    open spec fn add_req(self, rhs: u64) -> bool {
        self.0 + rhs <= u64::MAX
    }

    open spec fn add_spec(self, rhs: u64) -> Version {
        Version((self.0 + rhs) as u64)
    }
}

impl From<u64> for Version {
    fn from(value: u64) -> (version: Version) {
        Version(value)
    }
}

impl FromSpecImpl<u64> for Version {
    open spec fn obeys_from_spec() -> bool {
        true
    }

    open spec fn from_spec(value: u64) -> Version {
        Version(value)
    }
}

/// A stored version reads back as the version that was stored.
pub proof fn lemma_version_decode_encode(version: Version)
    ensures
        Version::decode_spec(version.encode_spec()) == Some(version),
{
    vstd::bytes::lemma_auto_spec_u64_to_from_le_bytes();
    let bytes = version.encode_spec();
    assert(bytes.subrange(0, 8) =~= bytes);
}

} // verus!
