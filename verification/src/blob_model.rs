//! How binary payloads are kept: a payload is stored once under its content
//! hash, and every document that holds it has a link to the hash. Document
//! ids start at one, so the key of the payload itself is the blob key of the
//! hash with the document id zero.

use vstd::prelude::*;
use crate::codec::{be32, lemma_be32_injective, lemma_be32_value, starts_with};
use crate::key_codec::{key_prefix, lemma_key_prefix};
use crate::key_space::KeyView;
use crate::keys::{BlobKey, KEY_ACL, KEY_BLOB};
use crate::txn::raw;

verus! {

/// The key of the link of a document to a payload.
pub open spec fn link_key(
    account_id: u32,
    collection: u8,
    document_id: u32,
    hash: Seq<u8>,
) -> BlobKey<Seq<u8>> {
    BlobKey { account_id, collection, document_id, hash }
}

/// The key of a payload.
pub open spec fn content_key(account_id: u32, collection: u8, hash: Seq<u8>) -> BlobKey<Seq<u8>> {
    BlobKey { account_id, collection, document_id: 0, hash }
}

/// Whether some document of the collection has a link to the payload.
pub open spec fn referenced(
    m: Map<Seq<u8>, Seq<u8>>,
    account_id: u32,
    collection: u8,
    hash: Seq<u8>,
) -> bool {
    exists|d: u32|
        d != 0 && (#[trigger] raw(m, KeyView::Blob(link_key(account_id, collection, d, hash))))
            is Some
}

/// A payload is kept exactly as long as a document has a link to it.
pub open spec fn blobs_kept(m: Map<Seq<u8>, Seq<u8>>) -> bool {
    forall|account_id: u32, collection: u8, hash: Seq<u8>| #[trigger]
        raw(m, KeyView::Blob(content_key(account_id, collection, hash))) is Some <==> referenced(
            m,
            account_id,
            collection,
            hash,
        )
}

/// What the keys of one kind of one document begin with.
pub open spec fn document_prefix(account_id: u32, collection: u8, tag: u8, document_id: u32) -> Seq<
    u8,
> {
    key_prefix(account_id, collection, tag) + be32(document_id)
}

/// Whether a key of the store is a grant on the document.
pub open spec fn is_grant_on(
    k: KeyView,
    account_id: u32,
    collection: u8,
    document_id: u32,
) -> bool {
    k matches KeyView::Acl(ak) && ak.to_account_id == account_id && ak.to_collection == collection
        && ak.to_document_id == document_id
}

/// Whether a key of the store is a blob key of the document: a link, or,
/// for the document id zero, a payload.
pub open spec fn is_blob_of(k: KeyView, account_id: u32, collection: u8, document_id: u32) -> bool {
    k matches KeyView::Blob(bk) && bk.account_id == account_id && bk.collection == collection
        && bk.document_id == document_id
}

/// The first ten bytes of a key whose remainder begins with a document id.
proof fn lemma_document_head(
    account_id: u32,
    collection: u8,
    tag: u8,
    document_id: u32,
    rest: Seq<u8>,
)
    ensures
        (key_prefix(account_id, collection, tag) + (be32(document_id) + rest)).subrange(0, 10)
            == document_prefix(account_id, collection, tag, document_id),
        (key_prefix(account_id, collection, tag) + (be32(document_id) + rest)).len() >= 10,
{
    lemma_be32_value(document_id);
    lemma_be32_value(account_id);
    let e = key_prefix(account_id, collection, tag) + (be32(document_id) + rest);
    assert(e.subrange(0, 10) =~= document_prefix(account_id, collection, tag, document_id));
}

/// Two document prefixes are equal only where account, collection, kind and
/// document are.
proof fn lemma_document_prefix_unique(
    a1: u32,
    c1: u8,
    t1: u8,
    d1: u32,
    a2: u32,
    c2: u8,
    t2: u8,
    d2: u32,
)
    requires
        document_prefix(a1, c1, t1, d1) == document_prefix(a2, c2, t2, d2),
    ensures
        a1 == a2,
        c1 == c2,
        t1 == t2,
        d1 == d2,
{
    crate::key_codec::lemma_key_prefix_unique(a1, c1, t1, be32(d1), a2, c2, t2, be32(d2));
    lemma_be32_injective(d1, d2);
}

/// The grants on a document are the keys of the store that begin with its
/// grant prefix, and its blob keys those that begin with its blob prefix.
pub proof fn lemma_document_keys(k: KeyView, account_id: u32, collection: u8, document_id: u32)
    requires
        k.wf(),
    ensures
        starts_with(k.encoding(), document_prefix(account_id, collection, KEY_ACL, document_id))
            <==> is_grant_on(k, account_id, collection, document_id),
        starts_with(k.encoding(), document_prefix(account_id, collection, KEY_BLOB, document_id))
            <==> is_blob_of(k, account_id, collection, document_id),
{
    k.lemma_tag();
    let acl = document_prefix(account_id, collection, KEY_ACL, document_id);
    let blob = document_prefix(account_id, collection, KEY_BLOB, document_id);
    lemma_document_head(account_id, collection, KEY_ACL, document_id, Seq::empty());
    lemma_document_head(account_id, collection, KEY_BLOB, document_id, Seq::empty());
    lemma_be32_value(document_id);
    lemma_be32_value(account_id);
    assert(acl.len() == 10 && blob.len() == 10);
    assert(acl[5] == KEY_ACL && blob[5] == KEY_BLOB);
    let e = k.encoding();
    if starts_with(e, acl) {
        assert(e[5] == e.subrange(0, 10)[5]);
    }
    if starts_with(e, blob) {
        assert(e[5] == e.subrange(0, 10)[5]);
    }
    match k {
        KeyView::Acl(ak) => {
            lemma_document_head(
                ak.to_account_id,
                ak.to_collection,
                KEY_ACL,
                ak.to_document_id,
                be32(ak.grant_account_id),
            );
            if starts_with(e, acl) {
                lemma_document_prefix_unique(
                    ak.to_account_id,
                    ak.to_collection,
                    KEY_ACL,
                    ak.to_document_id,
                    account_id,
                    collection,
                    KEY_ACL,
                    document_id,
                );
            }
        },
        KeyView::Blob(bk) => {
            lemma_document_head(bk.account_id, bk.collection, KEY_BLOB, bk.document_id, bk.hash);
            if starts_with(e, blob) {
                lemma_document_prefix_unique(
                    bk.account_id,
                    bk.collection,
                    KEY_BLOB,
                    bk.document_id,
                    account_id,
                    collection,
                    KEY_BLOB,
                    document_id,
                );
            }
        },
        _ => {},
    }
}

/// All blob keys of a collection begin with its blob prefix.
pub proof fn lemma_collection_blobs(bk: BlobKey<Seq<u8>>)
    ensures
        starts_with(bk.encoding(), key_prefix(bk.account_id, bk.collection, KEY_BLOB)),
{
    lemma_key_prefix(bk.account_id, bk.collection, KEY_BLOB, be32(bk.document_id) + bk.hash);
    lemma_be32_value(bk.account_id);
    assert(bk.encoding().subrange(0, 6) =~= key_prefix(bk.account_id, bk.collection, KEY_BLOB));
}

} // verus!
