//! How keys are written as bytes and read back.
//!
//! Every key starts with the account (four bytes, big-endian), the
//! collection, and one byte that tells the families apart: the family byte of
//! a bitmap key, or the type byte of another key. Integers are fixed-width
//! and big-endian, so byte order is numeric order.

use vstd::prelude::*;
use crate::codec::{
    be32, be32_value, be64, lemma_be32_injective, lemma_be32_of_value, lemma_be64_injective,
    lemma_be64_order, lemma_be64_value, lemma_lex_common_prefix, lex_lt, push_u32, push_u64,
    read_u32, read_u64,
};
use crate::keys::{AclKey, LogKey, ValueKey, KEY_ACL, KEY_LOG, KEY_VALUE};

verus! {

/// The six bytes that every key of a collection starts with.
pub open spec fn key_prefix(account_id: u32, collection: u8, tag: u8) -> Seq<u8> {
    be32(account_id) + seq![collection, tag]
}

/// What a prefix followed by `rest` holds, place by place.
pub proof fn lemma_key_prefix(account_id: u32, collection: u8, tag: u8, rest: Seq<u8>)
    ensures
        (key_prefix(account_id, collection, tag) + rest).len() == 6 + rest.len(),
        (key_prefix(account_id, collection, tag) + rest).subrange(0, 4) == be32(account_id),
        (key_prefix(account_id, collection, tag) + rest)[4] == collection,
        (key_prefix(account_id, collection, tag) + rest)[5] == tag,
        (key_prefix(account_id, collection, tag) + rest).skip(6) == rest,
{
    let e = key_prefix(account_id, collection, tag) + rest;
    assert(e.subrange(0, 4) =~= be32(account_id));
    assert(e.skip(6) =~= rest);
}

/// Equal keys have equal prefixes and equal remainders.
pub proof fn lemma_key_prefix_unique(
    a1: u32,
    c1: u8,
    t1: u8,
    r1: Seq<u8>,
    a2: u32,
    c2: u8,
    t2: u8,
    r2: Seq<u8>,
)
    requires
        key_prefix(a1, c1, t1) + r1 == key_prefix(a2, c2, t2) + r2,
    ensures
        a1 == a2,
        c1 == c2,
        t1 == t2,
        r1 == r2,
{
    lemma_key_prefix(a1, c1, t1, r1);
    lemma_key_prefix(a2, c2, t2, r2);
    lemma_be32_injective(a1, a2);
}

/// Appends the prefix of a key.
pub(crate) fn push_prefix(out: &mut Vec<u8>, account_id: u32, collection: u8, tag: u8)
    ensures
        final(out)@ == old(out)@ + key_prefix(account_id, collection, tag),
{
    push_u32(out, account_id);
    out.push(collection);
    out.push(tag);
    assert(out@ =~= old(out)@ + key_prefix(account_id, collection, tag));
}

/// Splits `bytes` into prefix and remainder where it is long enough.
pub(crate) proof fn lemma_split_prefix(bytes: Seq<u8>)
    requires
        bytes.len() >= 6,
    ensures
        bytes == key_prefix(be32_value(bytes.subrange(0, 4)), bytes[4], bytes[5]) + bytes.skip(6),
{
    lemma_be32_of_value(bytes.subrange(0, 4));
    assert(bytes =~= key_prefix(be32_value(bytes.subrange(0, 4)), bytes[4], bytes[5]) + bytes.skip(
        6,
    ));
}

impl ValueKey {
    /// Prefix, document, field: eleven bytes.
    pub open spec fn encoding(self) -> Seq<u8> {
        key_prefix(self.account_id, self.collection, KEY_VALUE) + (be32(self.document_id) + seq![
            self.field,
        ])
    }

    /// The key that `bytes` are the encoding of, if they are the encoding
    /// of one.
    pub open spec fn decoding(bytes: Seq<u8>) -> Option<ValueKey> {
        if exists|k: ValueKey| k.encoding() == bytes {
            Some(choose|k: ValueKey| k.encoding() == bytes)
        } else {
            None
        }
    }

    /// Different keys have different encodings.
    pub proof fn lemma_injective(k1: ValueKey, k2: ValueKey)
        requires
            k1.encoding() == k2.encoding(),
        ensures
            k1 == k2,
    {
        let r1 = be32(k1.document_id) + seq![k1.field];
        let r2 = be32(k2.document_id) + seq![k2.field];
        lemma_key_prefix_unique(
            k1.account_id,
            k1.collection,
            KEY_VALUE,
            r1,
            k2.account_id,
            k2.collection,
            KEY_VALUE,
            r2,
        );
        assert(r1.subrange(0, 4) =~= be32(k1.document_id));
        assert(r2.subrange(0, 4) =~= be32(k2.document_id));
        lemma_be32_injective(k1.document_id, k2.document_id);
        assert(r1[4] == k1.field);
        assert(r2[4] == k2.field);
    }

    /// Decoding the encoding of a key gives the key back.
    pub proof fn lemma_roundtrip(k: ValueKey)
        ensures
            ValueKey::decoding(k.encoding()) == Some(k),
    {
        let found = choose|f: ValueKey| f.encoding() == k.encoding();
        Self::lemma_injective(found, k);
    }

    /// The bytes of the key.
    pub fn encode(&self) -> (bytes: Vec<u8>)
        ensures
            bytes@ == self.encoding(),
    {
        let mut out: Vec<u8> = Vec::new();
        push_prefix(&mut out, self.account_id, self.collection, KEY_VALUE);
        push_u32(&mut out, self.document_id);
        out.push(self.field);
        assert(out@ =~= self.encoding());
        out
    }

    /// Reads a key; `None` where `bytes` are not the encoding of a value key.
    pub fn decode(bytes: &[u8]) -> (r: Option<ValueKey>)
        ensures
            r == ValueKey::decoding(bytes@),
    {
        if bytes.len() != 11 || bytes[5] != KEY_VALUE {
            proof {
                assert forall|k: ValueKey| k.encoding() != bytes@ by {
                    lemma_key_prefix(
                        k.account_id,
                        k.collection,
                        KEY_VALUE,
                        be32(k.document_id) + seq![k.field],
                    );
                }
            }
            return None;
        }
        let k = ValueKey {
            account_id: read_u32(bytes, 0),
            collection: bytes[4],
            document_id: read_u32(bytes, 6),
            field: bytes[10],
        };
        proof {
            lemma_split_prefix(bytes@);
            assert(bytes@.skip(6) =~= be32(k.document_id) + seq![k.field]);
            Self::lemma_roundtrip(k);
        }
        Some(k)
    }
}

impl AclKey {
    /// Prefix of the document granted on, the document, the grantee:
    /// fourteen bytes. The grants on one document are neighbours.
    pub open spec fn encoding(self) -> Seq<u8> {
        key_prefix(self.to_account_id, self.to_collection, KEY_ACL) + (be32(self.to_document_id)
            + be32(self.grant_account_id))
    }

    /// The key that `bytes` are the encoding of, if they are the encoding
    /// of one.
    pub open spec fn decoding(bytes: Seq<u8>) -> Option<AclKey> {
        if exists|k: AclKey| k.encoding() == bytes {
            Some(choose|k: AclKey| k.encoding() == bytes)
        } else {
            None
        }
    }

    /// Different keys have different encodings.
    pub proof fn lemma_injective(k1: AclKey, k2: AclKey)
        requires
            k1.encoding() == k2.encoding(),
        ensures
            k1 == k2,
    {
        let r1 = be32(k1.to_document_id) + be32(k1.grant_account_id);
        let r2 = be32(k2.to_document_id) + be32(k2.grant_account_id);
        lemma_key_prefix_unique(
            k1.to_account_id,
            k1.to_collection,
            KEY_ACL,
            r1,
            k2.to_account_id,
            k2.to_collection,
            KEY_ACL,
            r2,
        );
        assert(r1.subrange(0, 4) =~= be32(k1.to_document_id));
        assert(r2.subrange(0, 4) =~= be32(k2.to_document_id));
        assert(r1.subrange(4, 8) =~= be32(k1.grant_account_id));
        assert(r2.subrange(4, 8) =~= be32(k2.grant_account_id));
        lemma_be32_injective(k1.to_document_id, k2.to_document_id);
        lemma_be32_injective(k1.grant_account_id, k2.grant_account_id);
    }

    /// Decoding the encoding of a key gives the key back.
    pub proof fn lemma_roundtrip(k: AclKey)
        ensures
            AclKey::decoding(k.encoding()) == Some(k),
    {
        let found = choose|f: AclKey| f.encoding() == k.encoding();
        Self::lemma_injective(found, k);
    }

    /// The bytes of the key.
    pub fn encode(&self) -> (bytes: Vec<u8>)
        ensures
            bytes@ == self.encoding(),
    {
        let mut out: Vec<u8> = Vec::new();
        push_prefix(&mut out, self.to_account_id, self.to_collection, KEY_ACL);
        push_u32(&mut out, self.to_document_id);
        push_u32(&mut out, self.grant_account_id);
        assert(out@ =~= self.encoding());
        out
    }

    /// Reads a key; `None` where `bytes` are not the encoding of an
    /// access-grant key.
    pub fn decode(bytes: &[u8]) -> (r: Option<AclKey>)
        ensures
            r == AclKey::decoding(bytes@),
    {
        if bytes.len() != 14 || bytes[5] != KEY_ACL {
            proof {
                assert forall|k: AclKey| k.encoding() != bytes@ by {
                    lemma_key_prefix(
                        k.to_account_id,
                        k.to_collection,
                        KEY_ACL,
                        be32(k.to_document_id) + be32(k.grant_account_id),
                    );
                }
            }
            return None;
        }
        let k = AclKey {
            grant_account_id: read_u32(bytes, 10),
            to_account_id: read_u32(bytes, 0),
            to_collection: bytes[4],
            to_document_id: read_u32(bytes, 6),
        };
        proof {
            lemma_split_prefix(bytes@);
            assert(bytes@.skip(6) =~= be32(k.to_document_id) + be32(k.grant_account_id));
            Self::lemma_roundtrip(k);
        }
        Some(k)
    }
}

impl LogKey {
    /// Prefix and change id: fourteen bytes. The entries of one collection
    /// sort by change id.
    pub open spec fn encoding(self) -> Seq<u8> {
        key_prefix(self.account_id, self.collection, KEY_LOG) + be64(self.change_id)
    }

    /// The key that `bytes` are the encoding of, if they are the encoding
    /// of one.
    pub open spec fn decoding(bytes: Seq<u8>) -> Option<LogKey> {
        if exists|k: LogKey| k.encoding() == bytes {
            Some(choose|k: LogKey| k.encoding() == bytes)
        } else {
            None
        }
    }

    /// Different keys have different encodings.
    pub proof fn lemma_injective(k1: LogKey, k2: LogKey)
        requires
            k1.encoding() == k2.encoding(),
        ensures
            k1 == k2,
    {
        lemma_key_prefix_unique(
            k1.account_id,
            k1.collection,
            KEY_LOG,
            be64(k1.change_id),
            k2.account_id,
            k2.collection,
            KEY_LOG,
            be64(k2.change_id),
        );
        lemma_be64_injective(k1.change_id, k2.change_id);
    }

    /// Decoding the encoding of a key gives the key back.
    pub proof fn lemma_roundtrip(k: LogKey)
        ensures
            LogKey::decoding(k.encoding()) == Some(k),
    {
        let found = choose|f: LogKey| f.encoding() == k.encoding();
        Self::lemma_injective(found, k);
    }

    /// Within one collection, the byte order of the keys is the order of
    /// their change ids.
    pub proof fn lemma_order(k1: LogKey, k2: LogKey)
        requires
            k1.account_id == k2.account_id,
            k1.collection == k2.collection,
        ensures
            lex_lt(k1.encoding(), k2.encoding()) == (k1.change_id < k2.change_id),
    {
        lemma_lex_common_prefix(
            key_prefix(k1.account_id, k1.collection, KEY_LOG),
            be64(k1.change_id),
            be64(k2.change_id),
        );
        lemma_be64_order(k1.change_id, k2.change_id);
    }

    /// The bytes of the key.
    pub fn encode(&self) -> (bytes: Vec<u8>)
        ensures
            bytes@ == self.encoding(),
    {
        let mut out: Vec<u8> = Vec::new();
        push_prefix(&mut out, self.account_id, self.collection, KEY_LOG);
        push_u64(&mut out, self.change_id);
        assert(out@ =~= self.encoding());
        out
    }

    /// Reads a key; `None` where `bytes` are not the encoding of a
    /// change-log key.
    pub fn decode(bytes: &[u8]) -> (r: Option<LogKey>)
        ensures
            r == LogKey::decoding(bytes@),
    {
        if bytes.len() != 14 || bytes[5] != KEY_LOG {
            proof {
                assert forall|k: LogKey| k.encoding() != bytes@ by {
                    lemma_be64_value(k.change_id);
                    lemma_key_prefix(k.account_id, k.collection, KEY_LOG, be64(k.change_id));
                }
            }
            return None;
        }
        let k = LogKey {
            account_id: read_u32(bytes, 0),
            collection: bytes[4],
            change_id: read_u64(bytes, 6),
        };
        proof {
            lemma_split_prefix(bytes@);
            assert(bytes@.skip(6) =~= be64(k.change_id));
            Self::lemma_roundtrip(k);
        }
        Some(k)
    }
}

} // verus!
