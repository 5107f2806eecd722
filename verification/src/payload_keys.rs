//! The key families that carry a byte payload: bitmap, index and blob keys.
//!
//! A bitmap key and a blob key end with their payload. An index key holds
//! its payload before the document id, in escaped form, so that the entries
//! of one field sort by payload first.

use vstd::prelude::*;
use crate::codec::{
    be32, copy_range, escaped, lemma_be32_injective, lemma_be32_order, lemma_be32_value,
    lemma_escaped_len, lemma_escaped_order, lemma_escaped_unescaped, lemma_escaped_unique,
    lemma_lex_common_prefix, lemma_unescaped_escaped, lex_lt, push_bytes, push_escaped, push_u32,
    read_escaped, read_u32,
};
use crate::key_codec::{
    key_prefix, lemma_key_prefix, lemma_key_prefix_unique, lemma_split_prefix, push_prefix,
};
use crate::keys::{BitmapFamily, BitmapKey, BlobKey, IndexKey, KEY_BLOB, KEY_INDEX};

verus! {

impl BitmapKey<Seq<u8>> {
    /// The family byte names a family.
    pub open spec fn wf(self) -> bool {
        BitmapFamily::of_byte(self.family) is Some
    }

    /// Prefix with the family byte, field, payload.
    pub open spec fn encoding(self) -> Seq<u8> {
        key_prefix(self.account_id, self.collection, self.family) + (seq![self.field] + self.key)
    }

    /// The well-formed key that `bytes` are the encoding of, if they are the
    /// encoding of one.
    pub open spec fn decoding(bytes: Seq<u8>) -> Option<BitmapKey<Seq<u8>>> {
        if exists|k: BitmapKey<Seq<u8>>| k.wf() && k.encoding() == bytes {
            Some(choose|k: BitmapKey<Seq<u8>>| k.wf() && k.encoding() == bytes)
        } else {
            None
        }
    }

    /// Different keys have different encodings.
    pub proof fn lemma_injective(k1: BitmapKey<Seq<u8>>, k2: BitmapKey<Seq<u8>>)
        requires
            k1.encoding() == k2.encoding(),
        ensures
            k1 == k2,
    {
        let r1 = seq![k1.field] + k1.key;
        let r2 = seq![k2.field] + k2.key;
        lemma_key_prefix_unique(
            k1.account_id,
            k1.collection,
            k1.family,
            r1,
            k2.account_id,
            k2.collection,
            k2.family,
            r2,
        );
        assert(r1[0] == k1.field);
        assert(r2[0] == k2.field);
        assert(r1.skip(1) =~= k1.key);
        assert(r2.skip(1) =~= k2.key);
    }

    /// Decoding the encoding of a well-formed key gives the key back.
    pub proof fn lemma_roundtrip(k: BitmapKey<Seq<u8>>)
        requires
            k.wf(),
        ensures
            Self::decoding(k.encoding()) == Some(k),
    {
        let found = choose|f: BitmapKey<Seq<u8>>| f.wf() && f.encoding() == k.encoding();
        Self::lemma_injective(found, k);
    }

    /// Keys of different families of one collection lie in ranges that do
    /// not overlap: whatever their fields and payloads, the key of the lower
    /// family byte comes first.
    pub proof fn lemma_families_apart(k1: BitmapKey<Seq<u8>>, k2: BitmapKey<Seq<u8>>)
        requires
            k1.account_id == k2.account_id,
            k1.collection == k2.collection,
            k1.family < k2.family,
        ensures
            lex_lt(k1.encoding(), k2.encoding()),
    {
        let head = be32(k1.account_id) + seq![k1.collection];
        let t1 = seq![k1.family] + (seq![k1.field] + k1.key);
        let t2 = seq![k2.family] + (seq![k2.field] + k2.key);
        assert(k1.encoding() =~= head + t1);
        assert(k2.encoding() =~= head + t2);
        lemma_lex_common_prefix(head, t1, t2);
    }
}

/// Writes a bitmap key.
fn write_bitmap_key(account_id: u32, collection: u8, family: u8, field: u8, key: &[u8]) -> (bytes:
    Vec<u8>)
    ensures
        bytes@ == (BitmapKey::<Seq<u8>> {
            account_id,
            collection,
            family,
            field,
            key: key@,
        }).encoding(),
{
    let mut out: Vec<u8> = Vec::new();
    push_prefix(&mut out, account_id, collection, family);
    out.push(field);
    push_bytes(&mut out, key);
    assert(out@ =~= key_prefix(account_id, collection, family) + (seq![field] + key@));
    out
}

impl BitmapKey<Vec<u8>> {
    /// The bytes of the key.
    pub fn encode(&self) -> (bytes: Vec<u8>)
        ensures
            bytes@ == self@.encoding(),
    {
        write_bitmap_key(
            self.account_id,
            self.collection,
            self.family,
            self.field,
            self.key.as_slice(),
        )
    }

    /// Reads a key; `None` where `bytes` are not the encoding of a bitmap
    /// key with a family byte that names a family.
    pub fn decode(bytes: &[u8]) -> (r: Option<BitmapKey<Vec<u8>>>)
        ensures
            match r {
                Some(k) => BitmapKey::<Seq<u8>>::decoding(bytes@) == Some(k@),
                None => BitmapKey::<Seq<u8>>::decoding(bytes@) is None,
            },
    {
        if bytes.len() < 7 || BitmapFamily::from_byte(bytes[5]).is_none() {
            proof {
                assert forall|k: BitmapKey<Seq<u8>>| !(k.wf() && k.encoding() == bytes@) by {
                    lemma_key_prefix(
                        k.account_id,
                        k.collection,
                        k.family,
                        seq![k.field] + k.key,
                    );
                }
            }
            return None;
        }
        let k = BitmapKey {
            account_id: read_u32(bytes, 0),
            collection: bytes[4],
            family: bytes[5],
            field: bytes[6],
            key: copy_range(bytes, 7, bytes.len()),
        };
        proof {
            lemma_split_prefix(bytes@);
            assert(bytes@.skip(6) =~= seq![k.field] + k.key@);
            BitmapKey::<Seq<u8>>::lemma_roundtrip(k@);
        }
        Some(k)
    }
}

impl<'a> BitmapKey<&'a [u8]> {
    /// The bytes of the key.
    pub fn encode(&self) -> (bytes: Vec<u8>)
        ensures
            bytes@ == self@.encoding(),
    {
        write_bitmap_key(self.account_id, self.collection, self.family, self.field, self.key)
    }
}

impl IndexKey<Seq<u8>> {
    /// Prefix, field, the payload in escaped form, document.
    pub open spec fn encoding(self) -> Seq<u8> {
        key_prefix(self.account_id, self.collection, KEY_INDEX) + (seq![self.field] + (escaped(
            self.key,
        ) + be32(self.document_id)))
    }

    /// The key that `bytes` are the encoding of, if they are the encoding
    /// of one.
    pub open spec fn decoding(bytes: Seq<u8>) -> Option<IndexKey<Seq<u8>>> {
        if exists|k: IndexKey<Seq<u8>>| k.encoding() == bytes {
            Some(choose|k: IndexKey<Seq<u8>>| k.encoding() == bytes)
        } else {
            None
        }
    }

    /// What an encoding holds after the prefix and the field.
    proof fn lemma_parts(self)
        ensures
            self.encoding().len() == 7 + escaped(self.key).len() + 4,
            self.encoding()[5] == KEY_INDEX,
            self.encoding()[6] == self.field,
            self.encoding().skip(7) == escaped(self.key) + be32(self.document_id),
    {
        let rest = seq![self.field] + (escaped(self.key) + be32(self.document_id));
        lemma_key_prefix(self.account_id, self.collection, KEY_INDEX, rest);
        assert(self.encoding().skip(6) == rest);
        assert(self.encoding().skip(7) =~= rest.skip(1));
        assert(rest.skip(1) =~= escaped(self.key) + be32(self.document_id));
    }

    /// Different keys have different encodings.
    pub proof fn lemma_injective(k1: IndexKey<Seq<u8>>, k2: IndexKey<Seq<u8>>)
        requires
            k1.encoding() == k2.encoding(),
        ensures
            k1 == k2,
    {
        let r1 = seq![k1.field] + (escaped(k1.key) + be32(k1.document_id));
        let r2 = seq![k2.field] + (escaped(k2.key) + be32(k2.document_id));
        lemma_key_prefix_unique(
            k1.account_id,
            k1.collection,
            KEY_INDEX,
            r1,
            k2.account_id,
            k2.collection,
            KEY_INDEX,
            r2,
        );
        k1.lemma_parts();
        k2.lemma_parts();
        lemma_escaped_unique(k1.key, k2.key, be32(k1.document_id), be32(k2.document_id));
        lemma_be32_injective(k1.document_id, k2.document_id);
    }

    /// Decoding the encoding of a key gives the key back.
    pub proof fn lemma_roundtrip(k: IndexKey<Seq<u8>>)
        ensures
            Self::decoding(k.encoding()) == Some(k),
    {
        let found = choose|f: IndexKey<Seq<u8>>| f.encoding() == k.encoding();
        Self::lemma_injective(found, k);
    }

    /// Among the index keys of one field of one collection, byte order is
    /// the byte order of the payloads; entries with the same payload are in
    /// the order of their document ids.
    pub proof fn lemma_order(k1: IndexKey<Seq<u8>>, k2: IndexKey<Seq<u8>>)
        requires
            k1.account_id == k2.account_id,
            k1.collection == k2.collection,
            k1.field == k2.field,
        ensures
            lex_lt(k1.encoding(), k2.encoding()) == (lex_lt(k1.key, k2.key) || (k1.key == k2.key
                && k1.document_id < k2.document_id)),
    {
        let head = key_prefix(k1.account_id, k1.collection, KEY_INDEX) + seq![k1.field];
        let t1 = escaped(k1.key) + be32(k1.document_id);
        let t2 = escaped(k2.key) + be32(k2.document_id);
        assert(k1.encoding() =~= head + t1);
        assert(k2.encoding() =~= head + t2);
        lemma_lex_common_prefix(head, t1, t2);
        lemma_escaped_order(k1.key, k2.key, be32(k1.document_id), be32(k2.document_id));
        lemma_be32_order(k1.document_id, k2.document_id);
    }

    /// Where the payloads are big-endian numbers, byte order of the keys is
    /// the numeric order of the payloads, then of the document ids.
    pub proof fn lemma_numeric_order(k1: IndexKey<Seq<u8>>, k2: IndexKey<Seq<u8>>, v1: u32, v2: u32)
        requires
            k1.account_id == k2.account_id,
            k1.collection == k2.collection,
            k1.field == k2.field,
            k1.key == be32(v1),
            k2.key == be32(v2),
        ensures
            lex_lt(k1.encoding(), k2.encoding()) == (v1 < v2 || (v1 == v2 && k1.document_id
                < k2.document_id)),
    {
        Self::lemma_order(k1, k2);
        lemma_be32_order(v1, v2);
        if k1.key == k2.key {
            lemma_be32_injective(v1, v2);
        }
    }
}

/// Writes an index key.
fn write_index_key(
    account_id: u32,
    collection: u8,
    document_id: u32,
    field: u8,
    key: &[u8],
) -> (bytes:
    Vec<u8>)
    ensures
        bytes@ == (IndexKey::<Seq<u8>> {
            account_id,
            collection,
            document_id,
            field,
            key: key@,
        }).encoding(),
{
    let mut out: Vec<u8> = Vec::new();
    push_prefix(&mut out, account_id, collection, KEY_INDEX);
    out.push(field);
    push_escaped(&mut out, key);
    push_u32(&mut out, document_id);
    assert(out@ =~= key_prefix(account_id, collection, KEY_INDEX) + (seq![field] + (escaped(key@)
        + be32(document_id))));
    out
}

impl IndexKey<Vec<u8>> {
    /// The bytes of the key.
    pub fn encode(&self) -> (bytes: Vec<u8>)
        ensures
            bytes@ == self@.encoding(),
    {
        write_index_key(
            self.account_id,
            self.collection,
            self.document_id,
            self.field,
            self.key.as_slice(),
        )
    }

    /// Reads a key; `None` where `bytes` are not the encoding of an index
    /// key.
    pub fn decode(bytes: &[u8]) -> (r: Option<IndexKey<Vec<u8>>>)
        ensures
            match r {
                Some(k) => IndexKey::<Seq<u8>>::decoding(bytes@) == Some(k@),
                None => IndexKey::<Seq<u8>>::decoding(bytes@) is None,
            },
    {
        let n = bytes.len();
        if n < 13 || bytes[5] != KEY_INDEX {
            proof {
                assert forall|k: IndexKey<Seq<u8>>| k.encoding() != bytes@ by {
                    k.lemma_parts();
                    lemma_escaped_len(k.key);
                }
            }
            return None;
        }
        match read_escaped(bytes, 7) {
            Some((payload, next)) => {
                if n - next != 4 {
                    proof {
                        assert forall|k: IndexKey<Seq<u8>>| k.encoding() != bytes@ by {
                            k.lemma_parts();
                            lemma_unescaped_escaped(k.key, be32(k.document_id));
                        }
                    }
                    return None;
                }
                let k = IndexKey {
                    account_id: read_u32(bytes, 0),
                    collection: bytes[4],
                    document_id: read_u32(bytes, next),
                    field: bytes[6],
                    key: payload,
                };
                proof {
                    let tail = bytes@.skip(7);
                    lemma_split_prefix(bytes@);
                    lemma_escaped_unescaped(tail);
                    assert(tail.subrange(0, next - 7) == escaped(k.key@));
                    assert(tail.skip(next - 7) =~= be32(k.document_id));
                    assert(tail =~= tail.subrange(0, next - 7) + tail.skip(next - 7));
                    assert(bytes@.skip(6) =~= seq![k.field] + tail);
                    IndexKey::<Seq<u8>>::lemma_roundtrip(k@);
                }
                Some(k)
            },
            None => {
                proof {
                    assert forall|k: IndexKey<Seq<u8>>| k.encoding() != bytes@ by {
                        k.lemma_parts();
                        lemma_unescaped_escaped(k.key, be32(k.document_id));
                    }
                }
                None
            },
        }
    }
}

impl<'a> IndexKey<&'a [u8]> {
    /// The bytes of the key.
    pub fn encode(&self) -> (bytes: Vec<u8>)
        ensures
            bytes@ == self@.encoding(),
    {
        write_index_key(self.account_id, self.collection, self.document_id, self.field, self.key)
    }
}

impl BlobKey<Seq<u8>> {
    /// Prefix, document, content hash.
    pub open spec fn encoding(self) -> Seq<u8> {
        key_prefix(self.account_id, self.collection, KEY_BLOB) + (be32(self.document_id)
            + self.hash)
    }

    /// The key that `bytes` are the encoding of, if they are the encoding
    /// of one.
    pub open spec fn decoding(bytes: Seq<u8>) -> Option<BlobKey<Seq<u8>>> {
        if exists|k: BlobKey<Seq<u8>>| k.encoding() == bytes {
            Some(choose|k: BlobKey<Seq<u8>>| k.encoding() == bytes)
        } else {
            None
        }
    }

    /// Different keys have different encodings.
    pub proof fn lemma_injective(k1: BlobKey<Seq<u8>>, k2: BlobKey<Seq<u8>>)
        requires
            k1.encoding() == k2.encoding(),
        ensures
            k1 == k2,
    {
        let r1 = be32(k1.document_id) + k1.hash;
        let r2 = be32(k2.document_id) + k2.hash;
        lemma_key_prefix_unique(
            k1.account_id,
            k1.collection,
            KEY_BLOB,
            r1,
            k2.account_id,
            k2.collection,
            KEY_BLOB,
            r2,
        );
        assert(r1.subrange(0, 4) =~= be32(k1.document_id));
        assert(r2.subrange(0, 4) =~= be32(k2.document_id));
        lemma_be32_injective(k1.document_id, k2.document_id);
        assert(r1.skip(4) =~= k1.hash);
        assert(r2.skip(4) =~= k2.hash);
    }

    /// Decoding the encoding of a key gives the key back.
    pub proof fn lemma_roundtrip(k: BlobKey<Seq<u8>>)
        ensures
            Self::decoding(k.encoding()) == Some(k),
    {
        let found = choose|f: BlobKey<Seq<u8>>| f.encoding() == k.encoding();
        Self::lemma_injective(found, k);
    }
}

/// Writes a blob key.
fn write_blob_key(account_id: u32, collection: u8, document_id: u32, hash: &[u8]) -> (bytes: Vec<
    u8,
>)
    ensures
        bytes@ == (BlobKey::<Seq<u8>> { account_id, collection, document_id, hash: hash@ }).encoding(),
{
    let mut out: Vec<u8> = Vec::new();
    push_prefix(&mut out, account_id, collection, KEY_BLOB);
    push_u32(&mut out, document_id);
    push_bytes(&mut out, hash);
    assert(out@ =~= key_prefix(account_id, collection, KEY_BLOB) + (be32(document_id) + hash@));
    out
}

impl BlobKey<Vec<u8>> {
    /// The bytes of the key.
    pub fn encode(&self) -> (bytes: Vec<u8>)
        ensures
            bytes@ == self@.encoding(),
    {
        write_blob_key(self.account_id, self.collection, self.document_id, self.hash.as_slice())
    }

    /// Reads a key; `None` where `bytes` are not the encoding of a blob key.
    pub fn decode(bytes: &[u8]) -> (r: Option<BlobKey<Vec<u8>>>)
        ensures
            match r {
                Some(k) => BlobKey::<Seq<u8>>::decoding(bytes@) == Some(k@),
                None => BlobKey::<Seq<u8>>::decoding(bytes@) is None,
            },
    {
        if bytes.len() < 10 || bytes[5] != KEY_BLOB {
            proof {
                assert forall|k: BlobKey<Seq<u8>>| k.encoding() != bytes@ by {
                    lemma_be32_value(k.document_id);
                    lemma_key_prefix(
                        k.account_id,
                        k.collection,
                        KEY_BLOB,
                        be32(k.document_id) + k.hash,
                    );
                }
            }
            return None;
        }
        let k = BlobKey {
            account_id: read_u32(bytes, 0),
            collection: bytes[4],
            document_id: read_u32(bytes, 6),
            hash: copy_range(bytes, 10, bytes.len()),
        };
        proof {
            lemma_split_prefix(bytes@);
            assert(bytes@.skip(6) =~= be32(k.document_id) + k.hash@);
            BlobKey::<Seq<u8>>::lemma_roundtrip(k@);
        }
        Some(k)
    }
}

impl<'a> BlobKey<&'a [u8]> {
    /// The bytes of the key.
    pub fn encode(&self) -> (bytes: Vec<u8>)
        ensures
            bytes@ == self@.encoding(),
    {
        write_blob_key(self.account_id, self.collection, self.document_id, self.hash)
    }
}

} // verus!
