//! The keys under which the transaction layer keeps its bookkeeping and its
//! data side by side in one ordered keyspace.
//!
//! A stored key is a tag byte that names the family, followed by the parts of
//! the key. Versions are eight big-endian bytes and byte strings are escaped
//! and terminated, so that stored keys sort as the keys they stand for.
use vstd::prelude::*;
use crate::error::{Error, MALFORMED_KEY};
use crate::storage::keycode::{
    be_u64, be_value, escaped, lemma_be_u64_of_value, lemma_be_u64_order, lemma_escaped_prefix,
    lemma_parse_terminated, lemma_parse_terminated_sound, lemma_terminated_order,
    parse_terminated, push_be_u64, push_escaped, push_terminated, read_be_u64, read_terminated,
    terminated,
};
use crate::storage::lex::{
    lemma_between_keeps_prefix, lemma_lex_le_common_prefix, lemma_lex_lt_common_prefix,
    lemma_lex_lt_irreflexive, lex_le, lex_lt,
};
use crate::storage::version::Version;

verus! {

/// The first byte of the key of the counter.
pub const TAG_NEXT_VERSION: u8 = 0;

/// The first byte of the marker of an active transaction.
pub const TAG_TXN_ACTIVE: u8 = 1;

/// The first byte of an entry of a write log.
pub const TAG_TXN_WRITE: u8 = 2;

/// The first byte of the key of a value.
pub const TAG_VERSION: u8 = 3;

/// What a key says, apart from the bytes that store it.
pub enum KeyView {
    /// The counter that holds the next version.
    NextVersion,
    /// The marker of the active transaction with this version.
    TxnActive(u64),
    /// The record that the transaction with this version wrote this key.
    TxnWrite(u64, Seq<u8>),
    /// The value under this key that the transaction with this version wrote.
    Version(Seq<u8>, u64),
}

impl KeyView {
    /// The stored form of the key.
    pub open spec fn encode(self) -> Seq<u8> {
        match self {
            KeyView::NextVersion => seq![TAG_NEXT_VERSION],
            KeyView::TxnActive(version) => seq![TAG_TXN_ACTIVE] + be_u64(version),
            KeyView::TxnWrite(version, key) => seq![TAG_TXN_WRITE] + be_u64(version) + terminated(
                key,
            ),
            KeyView::Version(key, version) => seq![TAG_VERSION] + terminated(key) + be_u64(
                version,
            ),
        }
    }

    /// The key that `bytes` store, or `None` where they store none.
    pub open spec fn parse(bytes: Seq<u8>) -> Option<KeyView> {
        if bytes.len() == 0 {
            None
        } else if bytes[0] == TAG_NEXT_VERSION {
            if bytes.len() == 1 {
                Some(KeyView::NextVersion)
            } else {
                None
            }
        } else if bytes[0] == TAG_TXN_ACTIVE {
            if bytes.len() == 9 {
                Some(KeyView::TxnActive(be_value(bytes.skip(1)) as u64))
            } else {
                None
            }
        } else if bytes[0] == TAG_TXN_WRITE {
            if bytes.len() >= 9 {
                match parse_terminated(bytes.skip(9)) {
                    Some((key, taken)) => if 9 + taken == bytes.len() {
                        Some(KeyView::TxnWrite(be_value(bytes.subrange(1, 9)) as u64, key))
                    } else {
                        None
                    },
                    None => None,
                }
            } else {
                None
            }
        } else if bytes[0] == TAG_VERSION {
            match parse_terminated(bytes.skip(1)) {
                Some((key, taken)) => if 1 + taken + 8 == bytes.len() {
                    Some(KeyView::Version(key, be_value(bytes.skip(1 + taken)) as u64))
                } else {
                    None
                },
                None => None,
            }
        } else {
            None
        }
    }
}

/// What a key prefix says: a whole family, or the part of one that a scan
/// has to visit.
pub enum PrefixView {
    /// The counter.
    NextVersion,
    /// The markers of all active transactions.
    TxnActive,
    /// The write log of the transaction with this version.
    TxnWrite(u64),
    /// The values under all keys that begin with these bytes.
    Version(Seq<u8>),
}

impl PrefixView {
    /// The stored form of the prefix.
    pub open spec fn encode(self) -> Seq<u8> {
        match self {
            PrefixView::NextVersion => seq![TAG_NEXT_VERSION],
            PrefixView::TxnActive => seq![TAG_TXN_ACTIVE],
            PrefixView::TxnWrite(version) => seq![TAG_TXN_WRITE] + be_u64(version),
            PrefixView::Version(key) => seq![TAG_VERSION] + escaped(key),
        }
    }

    /// `key` is one of the keys that the prefix stands for.
    pub open spec fn covers(self, key: KeyView) -> bool {
        match (self, key) {
            (PrefixView::NextVersion, KeyView::NextVersion) => true,
            (PrefixView::TxnActive, KeyView::TxnActive(_)) => true,
            (PrefixView::TxnWrite(version), KeyView::TxnWrite(writer, _)) => version == writer,
            (PrefixView::Version(prefix), KeyView::Version(key, _)) => prefix.is_prefix_of(key),
            _ => false,
        }
    }
}

/// A key of the transaction layer.
///
/// - `NextVersion` holds the next version to hand out.
/// - `TxnActive` marks a transaction that has neither committed nor rolled back.
/// - `TxnWrite` records that a transaction wrote a key, for its rollback.
/// - `Version` holds the value that a transaction wrote for a key.
#[derive(Debug, PartialEq)]
pub enum MvccKey {
    NextVersion,
    TxnActive(Version),
    TxnWrite(Version, Vec<u8>),
    Version(Vec<u8>, Version),
}

impl View for MvccKey {
    type V = KeyView;

    open spec fn view(&self) -> KeyView {
        match self {
            MvccKey::NextVersion => KeyView::NextVersion,
            MvccKey::TxnActive(version) => KeyView::TxnActive(version.0),
            MvccKey::TxnWrite(version, key) => KeyView::TxnWrite(version.0, key@),
            MvccKey::Version(key, version) => KeyView::Version(key@, version.0),
        }
    }
}

impl MvccKey {
    /// The stored form of the key.
    pub fn encode(&self) -> (r: Result<Vec<u8>, Error>)
        ensures
            r matches Ok(bytes) && bytes@ == self@.encode(),
    {
        let mut bytes: Vec<u8> = Vec::new();
        match self {
            MvccKey::NextVersion => {
                bytes.push(TAG_NEXT_VERSION);
            },
            MvccKey::TxnActive(version) => {
                bytes.push(TAG_TXN_ACTIVE);
                push_be_u64(&mut bytes, version.0);
            },
            MvccKey::TxnWrite(version, key) => {
                bytes.push(TAG_TXN_WRITE);
                push_be_u64(&mut bytes, version.0);
                push_terminated(&mut bytes, key.as_slice());
            },
            MvccKey::Version(key, version) => {
                bytes.push(TAG_VERSION);
                push_terminated(&mut bytes, key.as_slice());
                push_be_u64(&mut bytes, version.0);
            },
        }
        proof {
            assert(bytes@ =~= self@.encode());
        }
        Ok(bytes)
    }

    /// The key that `bytes` store. Bytes that store no key are an internal
    /// error.
    pub fn decode(bytes: &[u8]) -> (r: Result<MvccKey, Error>)
        ensures
            match KeyView::parse(bytes@) {
                Some(key) => r matches Ok(found) && found@ == key,
                None => r matches Err(e) && e.is_internal(MALFORMED_KEY@),
            },
    {
        let len: usize = bytes.len();
        if len == 0 {
            return Err(Error::internal(MALFORMED_KEY));
        }
        let tag: u8 = bytes[0];
        if tag == TAG_NEXT_VERSION {
            if len == 1 {
                return Ok(MvccKey::NextVersion);
            }
        } else if tag == TAG_TXN_ACTIVE {
            if len == 9 {
                proof {
                    assert(bytes@.skip(1) =~= bytes@.subrange(1, 9));
                    lemma_be_u64_of_value(bytes@.skip(1));
                }
                return Ok(MvccKey::TxnActive(Version(read_be_u64(bytes, 1))));
            }
        } else if tag == TAG_TXN_WRITE {
            if len >= 9 {
                if let Some((key, end)) = read_terminated(bytes, 9) {
                    if end == len {
                        proof {
                            lemma_be_u64_of_value(bytes@.subrange(1, 9));
                        }
                        return Ok(MvccKey::TxnWrite(Version(read_be_u64(bytes, 1)), key));
                    }
                }
            }
        } else if tag == TAG_VERSION {
            if let Some((key, end)) = read_terminated(bytes, 1) {
                proof {
                    lemma_parse_terminated_sound(bytes@.skip(1));
                }
                if len - end == 8 {
                    proof {
                        assert(bytes@.skip(end as int) =~= bytes@.subrange(end as int, end + 8));
                        lemma_be_u64_of_value(bytes@.skip(end as int));
                    }
                    return Ok(MvccKey::Version(key, Version(read_be_u64(bytes, end))));
                }
            }
        }
        Err(Error::internal(MALFORMED_KEY))
    }
}

/// The front that the stored keys of a family, or of a part of one, share.
///
/// - `NextVersion`, `TxnActive`: the whole family.
/// - `TxnWrite`: what one transaction wrote.
/// - `Version`: the versions of every key that begins with the given bytes.
#[derive(Debug, PartialEq)]
pub enum MvccKeyPrefix {
    NextVersion,
    TxnActive,
    TxnWrite(Version),
    Version(Vec<u8>),
}

impl View for MvccKeyPrefix {
    type V = PrefixView;

    open spec fn view(&self) -> PrefixView {
        match self {
            MvccKeyPrefix::NextVersion => PrefixView::NextVersion,
            MvccKeyPrefix::TxnActive => PrefixView::TxnActive,
            MvccKeyPrefix::TxnWrite(version) => PrefixView::TxnWrite(version.0),
            MvccKeyPrefix::Version(key) => PrefixView::Version(key@),
        }
    }
}

impl MvccKeyPrefix {
    /// The stored form of the prefix.
    pub fn encode(&self) -> (r: Result<Vec<u8>, Error>)
        ensures
            r matches Ok(bytes) && bytes@ == self@.encode(),
    {
        let mut bytes: Vec<u8> = Vec::new();
        match self {
            MvccKeyPrefix::NextVersion => {
                bytes.push(TAG_NEXT_VERSION);
            },
            MvccKeyPrefix::TxnActive => {
                bytes.push(TAG_TXN_ACTIVE);
            },
            MvccKeyPrefix::TxnWrite(version) => {
                bytes.push(TAG_TXN_WRITE);
                push_be_u64(&mut bytes, version.0);
            },
            MvccKeyPrefix::Version(key) => {
                bytes.push(TAG_VERSION);
                push_escaped(&mut bytes, key.as_slice());
            },
        }
        proof {
            assert(bytes@ =~= self@.encode());
        }
        Ok(bytes)
    }
}

/// Encoding a key and parsing the bytes gives the key back.
pub proof fn lemma_parse_encode(key: KeyView)
    ensures
        KeyView::parse(key.encode()) == Some(key),
{
    let bytes = key.encode();
    match key {
        KeyView::NextVersion => {},
        KeyView::TxnActive(version) => {
            lemma_be_u64_order(version, version);
            assert(bytes.skip(1) =~= be_u64(version));
        },
        KeyView::TxnWrite(version, inner) => {
            lemma_be_u64_order(version, version);
            lemma_parse_terminated(inner, Seq::empty());
            assert(bytes.skip(9) =~= terminated(inner) + Seq::<u8>::empty());
            assert(bytes.subrange(1, 9) =~= be_u64(version));
        },
        KeyView::Version(inner, version) => {
            lemma_be_u64_order(version, version);
            lemma_parse_terminated(inner, be_u64(version));
            assert(bytes.skip(1) =~= terminated(inner) + be_u64(version));
            assert(bytes.skip(1 + terminated(inner).len() as int) =~= be_u64(version));
        },
    }
}

/// Bytes that parse as a key are the stored form of that key.
pub proof fn lemma_encode_parse(bytes: Seq<u8>)
    ensures
        KeyView::parse(bytes) matches Some(key) ==> key.encode() == bytes,
{
    if let Some(key) = KeyView::parse(bytes) {
        match key {
            KeyView::NextVersion => {
                assert(bytes =~= seq![TAG_NEXT_VERSION]);
            },
            KeyView::TxnActive(version) => {
                lemma_be_u64_of_value(bytes.skip(1));
                assert(bytes =~= seq![TAG_TXN_ACTIVE] + bytes.skip(1));
            },
            KeyView::TxnWrite(version, inner) => {
                lemma_be_u64_of_value(bytes.subrange(1, 9));
                lemma_parse_terminated_sound(bytes.skip(9));
                assert(bytes.skip(9).subrange(0, bytes.len() - 9) =~= bytes.skip(9));
                assert(bytes =~= seq![TAG_TXN_WRITE] + bytes.subrange(1, 9) + bytes.skip(9));
            },
            KeyView::Version(inner, version) => {
                lemma_parse_terminated_sound(bytes.skip(1));
                let taken = terminated(inner).len() as int;
                lemma_be_u64_of_value(bytes.skip(1 + taken));
                assert(bytes =~= seq![TAG_VERSION] + bytes.skip(1).subrange(0, taken)
                    + bytes.skip(1 + taken));
            },
        }
    }
}

/// Two keys that are stored as the same bytes are the same key: no family's
/// keys collide with those of another, nor with each other.
pub proof fn lemma_encode_injective(a: KeyView, b: KeyView)
    ensures
        (a.encode() == b.encode()) == (a == b),
{
    lemma_parse_encode(a);
    lemma_parse_encode(b);
}

/// The stored form of a prefix begins the stored form of exactly the keys
/// that the prefix stands for: every key of its family, and none of another.
pub proof fn lemma_prefix_covers(prefix: PrefixView, key: KeyView)
    ensures
        prefix.encode().is_prefix_of(key.encode()) == prefix.covers(key),
{
    let p = prefix.encode();
    let k = key.encode();
    assert(p.len() > 0 && k.len() > 0);
    if p.is_prefix_of(k) {
        assert(p[0] == k.subrange(0, p.len() as int)[0]);
    }
    match (prefix, key) {
        (PrefixView::NextVersion, KeyView::NextVersion) => {
            assert(p =~= k.subrange(0, 1));
        },
        (PrefixView::TxnActive, KeyView::TxnActive(_)) => {
            assert(p =~= k.subrange(0, 1));
        },
        (PrefixView::TxnWrite(version), KeyView::TxnWrite(writer, inner)) => {
            lemma_be_u64_order(version, writer);
            lemma_be_u64_order(writer, version);
            assert(p.len() == 9 && k.len() >= 9);
            assert(be_u64(version) =~= p.skip(1));
            assert(be_u64(writer) =~= k.subrange(1, 9));
            if p.is_prefix_of(k) {
                assert(k.subrange(0, 9).skip(1) =~= k.subrange(1, 9));
            }
            if version == writer {
                assert(p =~= k.subrange(0, 9));
            }
        },
        (PrefixView::Version(start), KeyView::Version(inner, version)) => {
            lemma_escaped_prefix(start, inner, be_u64(version));
            let body = terminated(inner) + be_u64(version);
            assert(k =~= seq![TAG_VERSION] + body);
            if p.is_prefix_of(k) {
                assert(escaped(start) =~= body.subrange(0, escaped(start).len() as int)) by {
                    assert forall|i: int| 0 <= i < escaped(start).len() implies escaped(start)[i]
                        == body[i] by {
                        assert(p[i + 1] == k.subrange(0, p.len() as int)[i + 1]);
                    }
                }
            }
            if escaped(start).is_prefix_of(body) {
                assert(p =~= k.subrange(0, p.len() as int)) by {
                    assert forall|i: int| 0 <= i < p.len() implies p[i] == k[i] by {
                        if i > 0 {
                            assert(escaped(start)[i - 1] == body.subrange(
                                0,
                                escaped(start).len() as int,
                            )[i - 1]);
                        }
                    }
                }
            }
        },
        _ => {
            assert(p[0] != k[0]);
        },
    }
}

/// The stored keys of one key's versions sort as the versions do.
pub proof fn lemma_version_order(key: Seq<u8>, a: u64, b: u64)
    ensures
        lex_lt(KeyView::Version(key, a).encode(), KeyView::Version(key, b).encode()) == (a < b),
        lex_le(KeyView::Version(key, a).encode(), KeyView::Version(key, b).encode()) == (a <= b),
{
    let front = seq![TAG_VERSION] + terminated(key);
    lemma_lex_lt_common_prefix(front, be_u64(a), be_u64(b));
    lemma_lex_le_common_prefix(front, be_u64(a), be_u64(b));
    lemma_be_u64_order(a, b);
}

/// The stored keys of values sort by the keys that the values are under and,
/// under one key, by their versions.
pub proof fn lemma_value_order(key: Seq<u8>, version: u64, other_key: Seq<u8>, other: u64)
    ensures
        lex_lt(
            KeyView::Version(key, version).encode(),
            KeyView::Version(other_key, other).encode(),
        ) == (lex_lt(key, other_key) || (key == other_key && version < other)),
{
    if key == other_key {
        lemma_version_order(key, version, other);
        lemma_lex_lt_irreflexive(key);
    } else {
        lemma_terminated_order(key, other_key, be_u64(version), be_u64(other));
        lemma_lex_lt_common_prefix(
            seq![TAG_VERSION],
            terminated(key) + be_u64(version),
            terminated(other_key) + be_u64(other),
        );
        assert(KeyView::Version(key, version).encode() =~= seq![TAG_VERSION] + (terminated(key)
            + be_u64(version)));
        assert(KeyView::Version(other_key, other).encode() =~= seq![TAG_VERSION] + (terminated(
            other_key,
        ) + be_u64(other)));
    }
}

/// The stored markers of active transactions sort as their versions do.
pub proof fn lemma_active_order(a: u64, b: u64)
    ensures
        lex_lt(KeyView::TxnActive(a).encode(), KeyView::TxnActive(b).encode()) == (a < b),
{
    lemma_lex_lt_common_prefix(seq![TAG_TXN_ACTIVE], be_u64(a), be_u64(b));
    lemma_be_u64_order(a, b);
}

/// A stored key that lies between two versions of `key` is a version of
/// `key` between those two.
pub proof fn lemma_version_between(key: Seq<u8>, low: u64, high: u64, found: KeyView)
    requires
        lex_le(KeyView::Version(key, low).encode(), found.encode()),
        lex_le(found.encode(), KeyView::Version(key, high).encode()),
    ensures
        found matches KeyView::Version(inner, version) && inner == key && low <= version <= high,
{
    let front = seq![TAG_VERSION] + terminated(key);
    let bytes = found.encode();
    lemma_between_keeps_prefix(front, be_u64(low), be_u64(high), bytes);
    assert(bytes[0] == front[0]);
    match found {
        KeyView::Version(inner, version) => {
            lemma_parse_terminated(inner, be_u64(version));
            lemma_parse_terminated(key, bytes.skip(front.len() as int));
            assert(bytes.skip(1) =~= terminated(inner) + be_u64(version));
            assert(bytes.skip(1) =~= terminated(key) + bytes.skip(front.len() as int)) by {
                assert(front =~= bytes.subrange(0, front.len() as int));
                assert forall|i: int| 0 <= i < terminated(key).len() implies bytes.skip(1)[i]
                    == terminated(key)[i] by {
                    assert(front[i + 1] == bytes[i + 1]);
                }
            }
            assert(inner == key);
            lemma_version_order(key, low, version);
            lemma_version_order(key, version, high);
        },
        _ => {},
    }
}

} // verus!
