//! The whole key space as one closed type: any key of the store, told apart
//! by the byte that follows account and collection.

use vstd::prelude::*;
use crate::error::Error;
use crate::key_codec::lemma_key_prefix;
use crate::keys::{
    AclKey, BitmapFamily, BitmapKey, BlobKey, Deserialize, IndexKey, LogKey, Serialize, ValueKey,
    KEY_ACL, KEY_BLOB, KEY_INDEX, KEY_LOG, KEY_VALUE,
};
use crate::codec::{be32, be64, escaped};

verus! {

/// A key of any family.
#[derive(Debug, Clone, PartialEq, Eq, Hash)]
pub enum Key {
    Bitmap(BitmapKey<Vec<u8>>),
    Index(IndexKey<Vec<u8>>),
    Value(ValueKey),
    Blob(BlobKey<Vec<u8>>),
    Acl(AclKey),
    Log(LogKey),
}

/// A key of any family, as contracts speak of it.
pub enum KeyView {
    Bitmap(BitmapKey<Seq<u8>>),
    Index(IndexKey<Seq<u8>>),
    Value(ValueKey),
    Blob(BlobKey<Seq<u8>>),
    Acl(AclKey),
    Log(LogKey),
}

impl View for Key {
    type V = KeyView;

    open spec fn view(&self) -> KeyView {
        match self {
            Key::Bitmap(k) => KeyView::Bitmap(k@),
            Key::Index(k) => KeyView::Index(k@),
            Key::Value(k) => KeyView::Value(*k),
            Key::Blob(k) => KeyView::Blob(k@),
            Key::Acl(k) => KeyView::Acl(*k),
            Key::Log(k) => KeyView::Log(*k),
        }
    }
}

impl KeyView {
    /// A bitmap key is well formed where its family byte names a family;
    /// every other key is.
    pub open spec fn wf(self) -> bool {
        match self {
            KeyView::Bitmap(k) => k.wf(),
            _ => true,
        }
    }

    /// The bytes of the key, by its family.
    pub open spec fn encoding(self) -> Seq<u8> {
        match self {
            KeyView::Bitmap(k) => k.encoding(),
            KeyView::Index(k) => k.encoding(),
            KeyView::Value(k) => k.encoding(),
            KeyView::Blob(k) => k.encoding(),
            KeyView::Acl(k) => k.encoding(),
            KeyView::Log(k) => k.encoding(),
        }
    }

    /// The well-formed key that `bytes` are the encoding of, if they are the
    /// encoding of one.
    pub open spec fn decoding(bytes: Seq<u8>) -> Option<KeyView> {
        if exists|k: KeyView| k.wf() && k.encoding() == bytes {
            Some(choose|k: KeyView| k.wf() && k.encoding() == bytes)
        } else {
            None
        }
    }

    /// The byte that tells the families apart: the family byte of a bitmap
    /// key, the type byte of any other.
    pub open spec fn tag(self) -> u8 {
        match self {
            KeyView::Bitmap(k) => k.family,
            KeyView::Index(_) => KEY_INDEX,
            KeyView::Value(_) => KEY_VALUE,
            KeyView::Blob(_) => KEY_BLOB,
            KeyView::Acl(_) => KEY_ACL,
            KeyView::Log(_) => KEY_LOG,
        }
    }

    /// The tag stands sixth in the encoding, after account and collection.
    pub proof fn lemma_tag(self)
        ensures
            self.encoding().len() >= 6,
            self.encoding()[5] == self.tag(),
            self.wf() && self is Bitmap ==> self.tag() < KEY_VALUE,
    {
        match self {
            KeyView::Bitmap(k) => {
                lemma_key_prefix(k.account_id, k.collection, k.family, seq![k.field] + k.key);
                if k.wf() {
                    let f = choose|f: BitmapFamily| f.byte() == k.family;
                    BitmapFamily::lemma_of_byte(f);
                }
            },
            KeyView::Index(k) => {
                lemma_key_prefix(
                    k.account_id,
                    k.collection,
                    KEY_INDEX,
                    seq![k.field] + (escaped(k.key) + be32(k.document_id)),
                );
            },
            KeyView::Value(k) => {
                lemma_key_prefix(
                    k.account_id,
                    k.collection,
                    KEY_VALUE,
                    be32(k.document_id) + seq![k.field],
                );
            },
            KeyView::Blob(k) => {
                lemma_key_prefix(k.account_id, k.collection, KEY_BLOB, be32(k.document_id) + k.hash);
            },
            KeyView::Acl(k) => {
                lemma_key_prefix(
                    k.to_account_id,
                    k.to_collection,
                    KEY_ACL,
                    be32(k.to_document_id) + be32(k.grant_account_id),
                );
            },
            KeyView::Log(k) => {
                lemma_key_prefix(k.account_id, k.collection, KEY_LOG, be64(k.change_id));
            },
        }
    }

    /// Different well-formed keys have different encodings, across all
    /// families: no two keys of the store share their bytes.
    pub proof fn lemma_injective(k1: KeyView, k2: KeyView)
        requires
            k1.wf(),
            k2.wf(),
            k1.encoding() == k2.encoding(),
        ensures
            k1 == k2,
    {
        k1.lemma_tag();
        k2.lemma_tag();
        match (k1, k2) {
            (KeyView::Bitmap(a), KeyView::Bitmap(b)) => {
                BitmapKey::<Seq<u8>>::lemma_injective(a, b);
            },
            (KeyView::Index(a), KeyView::Index(b)) => {
                IndexKey::<Seq<u8>>::lemma_injective(a, b);
            },
            (KeyView::Value(a), KeyView::Value(b)) => {
                ValueKey::lemma_injective(a, b);
            },
            (KeyView::Blob(a), KeyView::Blob(b)) => {
                BlobKey::<Seq<u8>>::lemma_injective(a, b);
            },
            (KeyView::Acl(a), KeyView::Acl(b)) => {
                AclKey::lemma_injective(a, b);
            },
            (KeyView::Log(a), KeyView::Log(b)) => {
                LogKey::lemma_injective(a, b);
            },
            _ => {},
        }
    }

    /// Decoding the encoding of a well-formed key of any family gives the
    /// key back.
    pub proof fn lemma_roundtrip(k: KeyView)
        requires
            k.wf(),
        ensures
            KeyView::decoding(k.encoding()) == Some(k),
    {
        let found = choose|f: KeyView| f.wf() && f.encoding() == k.encoding();
        Self::lemma_injective(found, k);
    }

    /// What the decoders of the single families find is what the decoder of
    /// the whole key space finds.
    proof fn lemma_decoding_none(bytes: Seq<u8>)
        requires
            BitmapKey::<Seq<u8>>::decoding(bytes) is None,
            IndexKey::<Seq<u8>>::decoding(bytes) is None,
            ValueKey::decoding(bytes) is None,
            BlobKey::<Seq<u8>>::decoding(bytes) is None,
            AclKey::decoding(bytes) is None,
            LogKey::decoding(bytes) is None,
        ensures
            KeyView::decoding(bytes) is None,
    {
        assert forall|k: KeyView| !(k.wf() && k.encoding() == bytes) by {
            match k {
                KeyView::Bitmap(a) => {
                    assert(!(a.wf() && a.encoding() == bytes));
                },
                KeyView::Index(a) => {
                    assert(a.encoding() != bytes);
                },
                KeyView::Value(a) => {
                    assert(a.encoding() != bytes);
                },
                KeyView::Blob(a) => {
                    assert(a.encoding() != bytes);
                },
                KeyView::Acl(a) => {
                    assert(a.encoding() != bytes);
                },
                KeyView::Log(a) => {
                    assert(a.encoding() != bytes);
                },
            }
        }
    }
}

impl Key {
    /// The bytes of the key.
    pub fn encode(&self) -> (bytes: Vec<u8>)
        ensures
            bytes@ == self@.encoding(),
    {
        match self {
            Key::Bitmap(k) => k.encode(),
            Key::Index(k) => k.encode(),
            Key::Value(k) => k.encode(),
            Key::Blob(k) => k.encode(),
            Key::Acl(k) => k.encode(),
            Key::Log(k) => k.encode(),
        }
    }

    /// Reads a key of any family. Bytes that are the encoding of no
    /// well-formed key are reported as corruption.
    pub fn decode(bytes: &[u8]) -> (r: Result<Key, Error>)
        ensures
            match r {
                Ok(k) => KeyView::decoding(bytes@) == Some(k@),
                Err(e) => KeyView::decoding(bytes@) is None && e is InternalError,
            },
    {
        let found = if let Some(k) = BitmapKey::<Vec<u8>>::decode(bytes) {
            Some(Key::Bitmap(k))
        } else if let Some(k) = IndexKey::<Vec<u8>>::decode(bytes) {
            Some(Key::Index(k))
        } else if let Some(k) = ValueKey::decode(bytes) {
            Some(Key::Value(k))
        } else if let Some(k) = BlobKey::<Vec<u8>>::decode(bytes) {
            Some(Key::Blob(k))
        } else if let Some(k) = AclKey::decode(bytes) {
            Some(Key::Acl(k))
        } else if let Some(k) = LogKey::decode(bytes) {
            Some(Key::Log(k))
        } else {
            None
        };
        match found {
            Some(k) => {
                proof {
                    KeyView::lemma_roundtrip(k@);
                }
                Ok(k)
            },
            None => {
                proof {
                    KeyView::lemma_decoding_none(bytes@);
                }
                Err(Error::InternalError("corrupt key".to_owned()))
            },
        }
    }
}

impl Serialize for Key {
    open spec fn serialized(self) -> Seq<u8> {
        self@.encoding()
    }

    fn serialize(self) -> (bytes: Vec<u8>) {
        self.encode()
    }
}

impl Deserialize for Key {
    open spec fn deserialized(bytes: Seq<u8>, r: Option<Key>) -> bool {
        match r {
            Some(k) => KeyView::decoding(bytes) == Some(k@),
            None => KeyView::decoding(bytes) is None,
        }
    }

    fn deserialize(bytes: &[u8]) -> (r: Option<Key>) {
        match Key::decode(bytes) {
            Ok(k) => Some(k),
            Err(_) => None,
        }
    }
}

impl Serialize for BitmapKey<Vec<u8>> {
    open spec fn serialized(self) -> Seq<u8> {
        self@.encoding()
    }

    fn serialize(self) -> (bytes: Vec<u8>) {
        self.encode()
    }
}

impl<'a> Serialize for BitmapKey<&'a [u8]> {
    open spec fn serialized(self) -> Seq<u8> {
        self@.encoding()
    }

    fn serialize(self) -> (bytes: Vec<u8>) {
        self.encode()
    }
}

impl Deserialize for BitmapKey<Vec<u8>> {
    open spec fn deserialized(bytes: Seq<u8>, r: Option<BitmapKey<Vec<u8>>>) -> bool {
        match r {
            Some(k) => BitmapKey::<Seq<u8>>::decoding(bytes) == Some(k@),
            None => BitmapKey::<Seq<u8>>::decoding(bytes) is None,
        }
    }

    fn deserialize(bytes: &[u8]) -> (r: Option<BitmapKey<Vec<u8>>>) {
        BitmapKey::<Vec<u8>>::decode(bytes)
    }
}

impl Serialize for IndexKey<Vec<u8>> {
    open spec fn serialized(self) -> Seq<u8> {
        self@.encoding()
    }

    fn serialize(self) -> (bytes: Vec<u8>) {
        self.encode()
    }
}

impl<'a> Serialize for IndexKey<&'a [u8]> {
    open spec fn serialized(self) -> Seq<u8> {
        self@.encoding()
    }

    fn serialize(self) -> (bytes: Vec<u8>) {
        self.encode()
    }
}

impl Deserialize for IndexKey<Vec<u8>> {
    open spec fn deserialized(bytes: Seq<u8>, r: Option<IndexKey<Vec<u8>>>) -> bool {
        match r {
            Some(k) => IndexKey::<Seq<u8>>::decoding(bytes) == Some(k@),
            None => IndexKey::<Seq<u8>>::decoding(bytes) is None,
        }
    }

    fn deserialize(bytes: &[u8]) -> (r: Option<IndexKey<Vec<u8>>>) {
        IndexKey::<Vec<u8>>::decode(bytes)
    }
}

impl Serialize for BlobKey<Vec<u8>> {
    open spec fn serialized(self) -> Seq<u8> {
        self@.encoding()
    }

    fn serialize(self) -> (bytes: Vec<u8>) {
        self.encode()
    }
}

impl<'a> Serialize for BlobKey<&'a [u8]> {
    open spec fn serialized(self) -> Seq<u8> {
        self@.encoding()
    }

    fn serialize(self) -> (bytes: Vec<u8>) {
        self.encode()
    }
}

impl Deserialize for BlobKey<Vec<u8>> {
    open spec fn deserialized(bytes: Seq<u8>, r: Option<BlobKey<Vec<u8>>>) -> bool {
        match r {
            Some(k) => BlobKey::<Seq<u8>>::decoding(bytes) == Some(k@),
            None => BlobKey::<Seq<u8>>::decoding(bytes) is None,
        }
    }

    fn deserialize(bytes: &[u8]) -> (r: Option<BlobKey<Vec<u8>>>) {
        BlobKey::<Vec<u8>>::decode(bytes)
    }
}

impl Serialize for ValueKey {
    open spec fn serialized(self) -> Seq<u8> {
        self.encoding()
    }

    fn serialize(self) -> (bytes: Vec<u8>) {
        self.encode()
    }
}

impl Deserialize for ValueKey {
    open spec fn deserialized(bytes: Seq<u8>, r: Option<ValueKey>) -> bool {
        r == ValueKey::decoding(bytes)
    }

    fn deserialize(bytes: &[u8]) -> (r: Option<ValueKey>) {
        ValueKey::decode(bytes)
    }
}

impl Serialize for AclKey {
    open spec fn serialized(self) -> Seq<u8> {
        self.encoding()
    }

    fn serialize(self) -> (bytes: Vec<u8>) {
        self.encode()
    }
}

impl Deserialize for AclKey {
    open spec fn deserialized(bytes: Seq<u8>, r: Option<AclKey>) -> bool {
        r == AclKey::decoding(bytes)
    }

    fn deserialize(bytes: &[u8]) -> (r: Option<AclKey>) {
        AclKey::decode(bytes)
    }
}

impl Serialize for LogKey {
    open spec fn serialized(self) -> Seq<u8> {
        self.encoding()
    }

    fn serialize(self) -> (bytes: Vec<u8>) {
        self.encode()
    }
}

impl Deserialize for LogKey {
    open spec fn deserialized(bytes: Seq<u8>, r: Option<LogKey>) -> bool {
        r == LogKey::decoding(bytes)
    }

    fn deserialize(bytes: &[u8]) -> (r: Option<LogKey>) {
        LogKey::decode(bytes)
    }
}

} // verus!
