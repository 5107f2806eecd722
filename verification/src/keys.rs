//! The six typed key families of the store, and the closed set of bitmap
//! families that a family byte can name.

use vstd::prelude::*;

verus! {

/// Family byte of the set of all document ids of a collection.
pub const BM_DOCUMENT_IDS: u8 = 0;

/// Base of the family bytes of term postings.
pub const BM_TERM: u8 = 0x10;

/// Base of the family bytes of tag postings.
pub const BM_TAG: u8 = 0x20;

/// Base of the family bytes of bloom blocks.
pub const BM_BLOOM: u8 = 0x40;

/// Bloom blocks built from stems.
pub const BLOOM_STEMMED: u8 = 0x00;

/// Bloom blocks built from windows of two bytes.
pub const BLOOM_BIGRAM: u8 = 0x01;

/// Bloom blocks built from windows of three bytes.
pub const BLOOM_TRIGRAM: u8 = 0x02;

/// Terms that are tokens as they stand.
pub const TERM_EXACT: u8 = 0x00;

/// Terms that are stems of tokens.
pub const TERM_STEMMED: u8 = 0x01;

/// Terms that are whole field values.
pub const TERM_STRING: u8 = 0x02;

/// Flag added to a term family byte when the posting is keyed by the hash
/// of a long token instead of the token.
pub const TERM_HASH: u8 = 0x04;

/// Tags that are numeric identifiers.
pub const TAG_ID: u8 = 0x00;

/// Tags that are free text.
pub const TAG_TEXT: u8 = 0x01;

/// Tags that are values of a fixed enumeration.
pub const TAG_STATIC: u8 = 0x02;

/// Type byte of a value key. Type bytes stand where a bitmap key has its
/// family byte, and are all above every family byte.
pub const KEY_VALUE: u8 = 0x80;

/// Type byte of an index key.
pub const KEY_INDEX: u8 = 0x81;

/// Type byte of a blob key.
pub const KEY_BLOB: u8 = 0x82;

/// Type byte of an access-grant key.
pub const KEY_ACL: u8 = 0x83;

/// Type byte of a change-log key.
pub const KEY_LOG: u8 = 0x84;

/// How a term posting was derived from the text.
#[derive(Debug, Clone, Copy, PartialEq, Eq, Structural)]
pub enum TermKind {
    /// The normalized token as it stands.
    Exact,
    /// The token reduced to its stem.
    Stemmed,
    /// The whole field value as one term.
    Text,
}

/// What a tag posting is keyed by.
#[derive(Debug, Clone, Copy, PartialEq, Eq, Structural)]
pub enum TagKind {
    /// A numeric identifier.
    Id,
    /// Free text.
    Text,
    /// A value of a fixed enumeration.
    Static,
}

/// What a bloom block was built from.
#[derive(Debug, Clone, Copy, PartialEq, Eq, Structural)]
pub enum BloomKind {
    Stemmed,
    Bigram,
    Trigram,
}

/// The family of a bitmap key, read once from its family byte.
#[derive(Debug, Clone, Copy, PartialEq, Eq, Structural)]
pub enum BitmapFamily {
    /// The ids of all live documents of the collection.
    DocumentIds,
    /// Documents whose field holds a term.
    Term { kind: TermKind, hashed: bool },
    /// Documents that carry a tag.
    Tag(TagKind),
    /// One block of a bloom filter over substrings.
    Bloom(BloomKind),
}

impl BitmapFamily {
    /// The family byte: the sum of the family's base and its kind, which
    /// share no bits.
    pub open spec fn byte(self) -> u8 {
        match self {
            BitmapFamily::DocumentIds => BM_DOCUMENT_IDS,
            BitmapFamily::Term { kind, hashed } => (BM_TERM + match kind {
                TermKind::Exact => TERM_EXACT,
                TermKind::Stemmed => TERM_STEMMED,
                TermKind::Text => TERM_STRING,
            } + if hashed {
                TERM_HASH
            } else {
                0u8
            }) as u8,
            BitmapFamily::Tag(kind) => (BM_TAG + match kind {
                TagKind::Id => TAG_ID,
                TagKind::Text => TAG_TEXT,
                TagKind::Static => TAG_STATIC,
            }) as u8,
            BitmapFamily::Bloom(kind) => (BM_BLOOM + match kind {
                BloomKind::Stemmed => BLOOM_STEMMED,
                BloomKind::Bigram => BLOOM_BIGRAM,
                BloomKind::Trigram => BLOOM_TRIGRAM,
            }) as u8,
        }
    }

    /// The family that `b` is the byte of, if it is the byte of one.
    pub open spec fn of_byte(b: u8) -> Option<BitmapFamily> {
        if exists|f: BitmapFamily| f.byte() == b {
            Some(choose|f: BitmapFamily| f.byte() == b)
        } else {
            None
        }
    }

    /// Different families have different bytes.
    pub proof fn lemma_byte_injective(f: BitmapFamily, g: BitmapFamily)
        requires
            f.byte() == g.byte(),
        ensures
            f == g,
    {
    }

    /// Reading a family's byte gives the family back, and every family byte
    /// is below the type bytes of the other key families.
    pub proof fn lemma_of_byte(f: BitmapFamily)
        ensures
            BitmapFamily::of_byte(f.byte()) == Some(f),
            f.byte() < KEY_VALUE,
    {
        let g = choose|g: BitmapFamily| g.byte() == f.byte();
        Self::lemma_byte_injective(f, g);
    }

    /// The family byte.
    pub fn to_byte(self) -> (b: u8)
        ensures
            b == self.byte(),
    {
        match self {
            BitmapFamily::DocumentIds => BM_DOCUMENT_IDS,
            BitmapFamily::Term { kind, hashed } => {
                let base: u8 = match kind {
                    TermKind::Exact => BM_TERM + TERM_EXACT,
                    TermKind::Stemmed => BM_TERM + TERM_STEMMED,
                    TermKind::Text => BM_TERM + TERM_STRING,
                };
                if hashed {
                    base + TERM_HASH
                } else {
                    base
                }
            },
            BitmapFamily::Tag(kind) => match kind {
                TagKind::Id => BM_TAG + TAG_ID,
                TagKind::Text => BM_TAG + TAG_TEXT,
                TagKind::Static => BM_TAG + TAG_STATIC,
            },
            BitmapFamily::Bloom(kind) => match kind {
                BloomKind::Stemmed => BM_BLOOM + BLOOM_STEMMED,
                BloomKind::Bigram => BM_BLOOM + BLOOM_BIGRAM,
                BloomKind::Trigram => BM_BLOOM + BLOOM_TRIGRAM,
            },
        }
    }

    /// Reads a family byte; `None` for a byte that names no family.
    pub fn from_byte(b: u8) -> (r: Option<BitmapFamily>)
        ensures
            r == BitmapFamily::of_byte(b),
    {
        let r = if b == BM_DOCUMENT_IDS {
            Some(BitmapFamily::DocumentIds)
        } else if b == BM_TERM + TERM_EXACT {
            Some(BitmapFamily::Term { kind: TermKind::Exact, hashed: false })
        } else if b == BM_TERM + TERM_STEMMED {
            Some(BitmapFamily::Term { kind: TermKind::Stemmed, hashed: false })
        } else if b == BM_TERM + TERM_STRING {
            Some(BitmapFamily::Term { kind: TermKind::Text, hashed: false })
        } else if b == BM_TERM + TERM_HASH + TERM_EXACT {
            Some(BitmapFamily::Term { kind: TermKind::Exact, hashed: true })
        } else if b == BM_TERM + TERM_HASH + TERM_STEMMED {
            Some(BitmapFamily::Term { kind: TermKind::Stemmed, hashed: true })
        } else if b == BM_TERM + TERM_HASH + TERM_STRING {
            Some(BitmapFamily::Term { kind: TermKind::Text, hashed: true })
        } else if b == BM_TAG + TAG_ID {
            Some(BitmapFamily::Tag(TagKind::Id))
        } else if b == BM_TAG + TAG_TEXT {
            Some(BitmapFamily::Tag(TagKind::Text))
        } else if b == BM_TAG + TAG_STATIC {
            Some(BitmapFamily::Tag(TagKind::Static))
        } else if b == BM_BLOOM + BLOOM_STEMMED {
            Some(BitmapFamily::Bloom(BloomKind::Stemmed))
        } else if b == BM_BLOOM + BLOOM_BIGRAM {
            Some(BitmapFamily::Bloom(BloomKind::Bigram))
        } else if b == BM_BLOOM + BLOOM_TRIGRAM {
            Some(BitmapFamily::Bloom(BloomKind::Trigram))
        } else {
            None
        };
        proof {
            match r {
                Some(f) => {
                    Self::lemma_of_byte(f);
                },
                None => {
                    assert forall|f: BitmapFamily| f.byte() != b by {}
                },
            }
        }
        r
    }
}

/// Names one posting list: the documents of a collection that a family of
/// index holds under `key` for `field`.
#[derive(Debug, Clone, Copy, PartialEq, Eq, Hash)]
pub struct BitmapKey<T> {
    pub account_id: u32,
    pub collection: u8,
    pub family: u8,
    pub field: u8,
    pub key: T,
}

/// One entry of a secondary index: `document_id` has the value `key` for
/// `field`. Entries of one field sort by `key`, then by document.
#[derive(Debug, Clone, Copy, PartialEq, Eq, Hash)]
pub struct IndexKey<T> {
    pub account_id: u32,
    pub collection: u8,
    pub document_id: u32,
    pub field: u8,
    pub key: T,
}

/// Names the stored record of one field of one document.
#[derive(Debug, Clone, Copy, PartialEq, Eq, Hash)]
pub struct ValueKey {
    pub account_id: u32,
    pub collection: u8,
    pub document_id: u32,
    pub field: u8,
}

/// Links a document to a binary payload by the payload's content hash.
#[derive(Debug, Clone, Copy, PartialEq, Eq, Hash)]
pub struct BlobKey<T> {
    pub account_id: u32,
    pub collection: u8,
    pub document_id: u32,
    pub hash: T,
}

/// Names the grant that `grant_account_id` holds on one document.
#[derive(Debug, Clone, Copy, PartialEq, Eq, Hash)]
pub struct AclKey {
    pub grant_account_id: u32,
    pub to_account_id: u32,
    pub to_collection: u8,
    pub to_document_id: u32,
}

/// Names one entry of the change ledger of a collection.
#[derive(Debug, Clone, Copy, PartialEq, Eq, Hash)]
pub struct LogKey {
    pub account_id: u32,
    pub collection: u8,
    pub change_id: u64,
}

impl<T: View<V = Seq<u8>>> View for BitmapKey<T> {
    type V = BitmapKey<Seq<u8>>;

    open spec fn view(&self) -> BitmapKey<Seq<u8>> {
        BitmapKey {
            account_id: self.account_id,
            collection: self.collection,
            family: self.family,
            field: self.field,
            key: self.key@,
        }
    }
}

impl<T: View<V = Seq<u8>>> View for IndexKey<T> {
    type V = IndexKey<Seq<u8>>;

    open spec fn view(&self) -> IndexKey<Seq<u8>> {
        IndexKey {
            account_id: self.account_id,
            collection: self.collection,
            document_id: self.document_id,
            field: self.field,
            key: self.key@,
        }
    }
}

impl<T: View<V = Seq<u8>>> View for BlobKey<T> {
    type V = BlobKey<Seq<u8>>;

    open spec fn view(&self) -> BlobKey<Seq<u8>> {
        BlobKey {
            account_id: self.account_id,
            collection: self.collection,
            document_id: self.document_id,
            hash: self.hash@,
        }
    }
}

/// A value that can be written as bytes.
pub trait Serialize {
    /// The bytes that stand for the value.
    spec fn serialized(self) -> Seq<u8>;

    fn serialize(self) -> (bytes: Vec<u8>)
        ensures
            bytes@ == self.serialized(),
    ;
}

/// A value that can be read from bytes.
pub trait Deserialize: Sized + Sync + Send {
    /// Whether `r` is what reading `bytes` gives: the value they stand for,
    /// or `None` where they stand for none.
    spec fn deserialized(bytes: Seq<u8>, r: Option<Self>) -> bool;

    fn deserialize(bytes: &[u8]) -> (r: Option<Self>)
        ensures
            Self::deserialized(bytes@, r),
    ;
}

} // verus!
