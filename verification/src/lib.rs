//! The core of a multi-tenant document store: a typed key space over one
//! ordered table of bytes, posting lists, a full-text index, transactional
//! writes with a change ledger, queries, access grants and binary payloads.

pub mod acl;
pub mod batch;
pub mod bitmap;
pub mod bitmap_algebra;
pub mod bitmap_codec;
pub mod blob_model;
pub mod blob_store;
pub mod blobs;
pub mod cache;
pub mod changelog;
pub mod codec;
pub mod documents;
pub mod error;
pub mod fts;
pub mod index;
pub mod key_codec;
pub mod key_space;
pub mod keys;
pub mod laws;
pub mod management;
pub mod payload_keys;
pub mod query;
pub mod search;
pub mod sorting;
pub mod store;
pub mod table;
pub mod text;
pub mod txn;

pub use error::Error;
pub use keys::{
    AclKey, BitmapKey, BlobKey, Deserialize, IndexKey, LogKey, Serialize, ValueKey, BLOOM_BIGRAM,
    BLOOM_STEMMED, BLOOM_TRIGRAM, BM_BLOOM, BM_DOCUMENT_IDS, BM_TAG, BM_TERM, TAG_ID, TAG_STATIC,
    TAG_TEXT, TERM_EXACT, TERM_HASH, TERM_STEMMED, TERM_STRING,
};
pub use store::Store;
