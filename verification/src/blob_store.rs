//! Binary payloads of documents: stored once under their content hash,
//! linked from every document that holds them, and dropped with the last
//! link.

use vstd::prelude::*;
use crate::batch::{apply_ops, Op};
use crate::blob_model::{blobs_kept, content_key, link_key, referenced};
use crate::blobs::{collect_one, collected_one};
use crate::codec::{bytes_equal, copy_bytes};
use crate::error::Error;
use crate::key_space::KeyView;
use crate::keys::BlobKey;
use crate::store::{consistent, lemma_consistent_but_grants, live, live_key, Store};
use crate::txn::{lemma_put_unchanged, posting_ok, raw, Txn};

verus! {

/// Every key of the store but the link and the payload of a hash holds the
/// same in both tables.
pub open spec fn only_blob_changed(
    before: Map<Seq<u8>, Seq<u8>>,
    after: Map<Seq<u8>, Seq<u8>>,
    account_id: u32,
    collection: u8,
    document_id: u32,
    hash: Seq<u8>,
) -> bool {
    forall|k: KeyView|
        k.wf() && k != KeyView::Blob(link_key(account_id, collection, document_id, hash)) && k
            != KeyView::Blob(content_key(account_id, collection, hash)) ==> #[trigger] raw(after, k)
            == raw(before, k)
}

/// A table that gained a link and its payload keeps its payloads as it did.
proof fn lemma_linked(
    before: Map<Seq<u8>, Seq<u8>>,
    after: Map<Seq<u8>, Seq<u8>>,
    account_id: u32,
    collection: u8,
    document_id: u32,
    hash: Seq<u8>,
)
    requires
        document_id != 0,
        only_blob_changed(before, after, account_id, collection, document_id, hash),
        raw(after, KeyView::Blob(link_key(account_id, collection, document_id, hash))) is Some,
        raw(after, KeyView::Blob(content_key(account_id, collection, hash))) is Some,
    ensures
        consistent(before) ==> consistent(after),
        blobs_kept(before) ==> blobs_kept(after),
{
    assert forall|k: KeyView| k.wf() && !(k is Acl) && !(k is Blob) implies #[trigger] raw(after, k)
        == raw(before, k) by {}
    if consistent(before) {
        lemma_consistent_but_grants(before, after);
    }
    if blobs_kept(before) {
        assert forall|a: u32, c: u8, h: Seq<u8>| #[trigger]
            raw(after, KeyView::Blob(content_key(a, c, h))) is Some <==> referenced(after, a, c, h) by {
            let k = KeyView::Blob(content_key(a, c, h));
            assert(k.wf());
            if a == account_id && c == collection && h == hash {
                assert(raw(
                    after,
                    KeyView::Blob(link_key(account_id, collection, document_id, hash)),
                ) is Some);
            } else {
                assert(raw(after, k) == raw(before, k));
                assert(raw(before, k) is Some <==> referenced(before, a, c, h));
                if referenced(before, a, c, h) {
                    let d = choose|d: u32|
                        d != 0 && (#[trigger] raw(before, KeyView::Blob(link_key(a, c, d, h))))
                            is Some;
                    let lk = KeyView::Blob(link_key(a, c, d, h));
                    assert(lk.wf());
                    assert(raw(after, lk) == raw(before, lk));
                }
                if referenced(after, a, c, h) {
                    let d = choose|d: u32|
                        d != 0 && (#[trigger] raw(after, KeyView::Blob(link_key(a, c, d, h))))
                            is Some;
                    let lk = KeyView::Blob(link_key(a, c, d, h));
                    assert(lk.wf());
                    assert(raw(after, lk) == raw(before, lk));
                }
            }
        }
    }
}

/// A table that lost a link, and the payload where nothing else links to
/// it, keeps its payloads as it did.
proof fn lemma_unlinked(
    m0: Map<Seq<u8>, Seq<u8>>,
    m1: Map<Seq<u8>, Seq<u8>>,
    m2: Map<Seq<u8>, Seq<u8>>,
    account_id: u32,
    collection: u8,
    document_id: u32,
    hash: Seq<u8>,
)
    requires
        document_id != 0,
        forall|k: KeyView|
            k.wf() && k != KeyView::Blob(link_key(account_id, collection, document_id, hash))
                ==> #[trigger] raw(m1, k) == raw(m0, k),
        raw(m1, KeyView::Blob(link_key(account_id, collection, document_id, hash))) is None,
        collected_one(m1, m2, account_id, collection, hash),
    ensures
        only_blob_changed(m0, m2, account_id, collection, document_id, hash),
        raw(m2, KeyView::Blob(link_key(account_id, collection, document_id, hash))) is None,
        raw(m2, KeyView::Blob(content_key(account_id, collection, hash))) == (if referenced(
            m2,
            account_id,
            collection,
            hash,
        ) {
            raw(m0, KeyView::Blob(content_key(account_id, collection, hash)))
        } else {
            None
        }),
        consistent(m0) ==> consistent(m2),
        blobs_kept(m0) ==> blobs_kept(m2),
{
    let lk0 = KeyView::Blob(link_key(account_id, collection, document_id, hash));
    let ck0 = KeyView::Blob(content_key(account_id, collection, hash));
    assert(lk0.wf() && ck0.wf());
    assert(seq![hash][0] == hash);
    assert(seq![hash].contains(hash));
    assert forall|k: KeyView| k.wf() && k != lk0 && k != ck0 implies #[trigger] raw(m2, k) == raw(
        m0,
        k,
    ) by {
        assert(raw(m2, k) == raw(m1, k));
        assert(raw(m1, k) == raw(m0, k));
    }
    assert(raw(m2, lk0) == raw(m1, lk0));
    assert forall|bk: BlobKey<Seq<u8>>| bk.document_id != 0 implies #[trigger] raw(
        m2,
        KeyView::Blob(bk),
    ) == raw(m1, KeyView::Blob(bk)) by {
        assert(KeyView::Blob(bk).wf());
    }
    assert(referenced(m2, account_id, collection, hash) == referenced(
        m1,
        account_id,
        collection,
        hash,
    )) by {
        if referenced(m2, account_id, collection, hash) {
            let d = choose|d: u32|
                d != 0 && (#[trigger] raw(
                    m2,
                    KeyView::Blob(link_key(account_id, collection, d, hash)),
                )) is Some;
            assert(raw(m1, KeyView::Blob(link_key(account_id, collection, d, hash))) is Some);
        }
        if referenced(m1, account_id, collection, hash) {
            let d = choose|d: u32|
                d != 0 && (#[trigger] raw(
                    m1,
                    KeyView::Blob(link_key(account_id, collection, d, hash)),
                )) is Some;
            assert(raw(m2, KeyView::Blob(link_key(account_id, collection, d, hash))) is Some);
        }
    }
    assert(raw(m1, ck0) == raw(m0, ck0));
    assert forall|k: KeyView| k.wf() && !(k is Acl) && !(k is Blob) implies #[trigger] raw(m2, k)
        == raw(m0, k) by {}
    if consistent(m0) {
        lemma_consistent_but_grants(m0, m2);
    }
    if blobs_kept(m0) {
        assert forall|a: u32, c: u8, h: Seq<u8>| #[trigger]
            raw(m2, KeyView::Blob(content_key(a, c, h))) is Some <==> referenced(m2, a, c, h) by {
            let k = KeyView::Blob(content_key(a, c, h));
            assert(k.wf());
            assert(raw(m0, k) is Some <==> referenced(m0, a, c, h));
            if referenced(m2, a, c, h) {
                let d = choose|d: u32|
                    d != 0 && (#[trigger] raw(m2, KeyView::Blob(link_key(a, c, d, h)))) is Some;
                let lk = KeyView::Blob(link_key(a, c, d, h));
                assert(lk.wf());
                assert(raw(m2, lk) == raw(m1, lk));
                assert(raw(m0, lk) is Some);
                assert(raw(m1, lk) is Some);
                assert(referenced(m1, a, c, h));
                assert(raw(m1, k) == raw(m0, k));
                assert(raw(m2, k) == raw(m1, k) || (raw(m2, k) is None && !referenced(m1, a, c, h)));
            }
            if raw(m2, k) is Some {
                assert(raw(m2, k) == raw(m1, k) || raw(m2, k) is None);
                assert(raw(m1, k) == raw(m0, k));
                assert(referenced(m0, a, c, h));
                if a == account_id && c == collection && h == hash {
                    assert(referenced(m1, account_id, collection, hash));
                } else {
                    let d = choose|d: u32|
                        d != 0 && (#[trigger] raw(m0, KeyView::Blob(link_key(a, c, d, h)))) is Some;
                    let lk = KeyView::Blob(link_key(a, c, d, h));
                    assert(lk.wf());
                    assert(lk != lk0);
                    assert(raw(m1, lk) == raw(m0, lk));
                    assert(raw(m2, lk) == raw(m1, lk));
                }
            }
        }
    }
}

impl Store {
    /// Links a live document to a payload, and stores the payload under
    /// its content hash where it is not yet stored. A payload that is stored
    /// under the hash with other bytes is corruption.
    pub fn put_blob(
        &mut self,
        account_id: u32,
        collection: u8,
        document_id: u32,
        hash: &[u8],
        payload: &[u8],
    ) -> (r: Result<Vec<Op>, Error>)
        requires
            old(self).wf(),
        ensures
            final(self).wf(),
            r is Err ==> final(self)@ == old(self)@,
            r matches Ok(ops) ==> final(self)@ == apply_ops(old(self)@, ops@) && raw(
                final(self)@,
                KeyView::Blob(link_key(account_id, collection, document_id, hash@)),
            ) == Some(Seq::<u8>::empty()) && raw(
                final(self)@,
                KeyView::Blob(content_key(account_id, collection, hash@)),
            ) == Some(payload@) && only_blob_changed(
                old(self)@,
                final(self)@,
                account_id,
                collection,
                document_id,
                hash@,
            ),
            posting_ok(old(self)@, live_key(account_id, collection)) ==> (r is Ok <==> document_id
                != 0 && live(old(self)@, account_id, collection).contains(document_id) && (raw(
                old(self)@,
                KeyView::Blob(content_key(account_id, collection, hash@)),
            ) matches Some(stored) ==> stored == payload@)),
            posting_ok(old(self)@, live_key(account_id, collection)) ==> (r matches Err(e) && e
                is NotFound <==> document_id == 0 || !live(
                old(self)@,
                account_id,
                collection,
            ).contains(document_id)),
            r is Ok ==> (consistent(old(self)@) ==> consistent(final(self)@)) && (blobs_kept(
                old(self)@,
            ) ==> blobs_kept(final(self)@)),
    {
        let ghost m0 = self@;
        if document_id == 0 {
            return Err(Error::NotFound);
        }
        let is_live = match self.document_ids(account_id, collection) {
            Ok(b) => b.contains(document_id),
            Err(e) => {
                return Err(e);
            },
        };
        if !is_live {
            return Err(Error::NotFound);
        }
        let content = BlobKey { account_id, collection, document_id: 0u32, hash };
        let link = BlobKey { account_id, collection, document_id, hash };
        assert(content@ == content_key(account_id, collection, hash@));
        assert(link@ == link_key(account_id, collection, document_id, hash@));
        let content_bytes = content.encode();
        match self.table().get(content_bytes.as_slice()) {
            Some(stored) => {
                if !bytes_equal(stored, payload) {
                    return Err(Error::InternalError("payload differs under its hash".to_owned()));
                }
            },
            None => {},
        }
        let mut txn = Txn::begin(self.table());
        proof {
            lemma_put_unchanged(m0, KeyView::Blob(content@), payload@);
        }
        txn.put(content_bytes, copy_bytes(payload));
        let ghost m1 = txn@;
        proof {
            lemma_put_unchanged(m1, KeyView::Blob(link@), Seq::empty());
        }
        txn.put(link.encode(), Vec::new());
        proof {
            let m2 = txn@;
            assert(raw(m2, KeyView::Blob(content@)) == raw(m1, KeyView::Blob(content@)));
            assert forall|k: KeyView|
                k.wf() && k != KeyView::Blob(link@) && k != KeyView::Blob(
                    content@,
                ) implies #[trigger] raw(m2, k) == raw(m0, k) by {
                assert(raw(m2, k) == raw(m1, k));
                assert(raw(m1, k) == raw(m0, k));
            }
            lemma_linked(m0, m2, account_id, collection, document_id, hash@);
        }
        Ok(self.commit(txn))
    }

    /// The payload that a document is linked to under a hash. `NotFound`
    /// where the document has no such link; a link without its payload is
    /// corruption.
    pub fn get_blob(&self, account_id: u32, collection: u8, document_id: u32, hash: &[u8]) -> (r:
        Result<Vec<u8>, Error>)
        requires
            self.wf(),
        ensures
            match raw(
                self@,
                KeyView::Blob(link_key(account_id, collection, document_id, hash@)),
            ) {
                None => r matches Err(e) && e is NotFound,
                Some(_) => match raw(
                    self@,
                    KeyView::Blob(content_key(account_id, collection, hash@)),
                ) {
                    Some(payload) => r matches Ok(bytes) && bytes@ == payload,
                    None => r matches Err(e) && e is InternalError,
                },
            },
    {
        let link = BlobKey { account_id, collection, document_id, hash }.encode();
        if !self.table().contains_key(link.as_slice()) {
            return Err(Error::NotFound);
        }
        let content = BlobKey { account_id, collection, document_id: 0u32, hash }.encode();
        match self.table().get(content.as_slice()) {
            Some(payload) => Ok(copy_bytes(payload)),
            None => Err(Error::InternalError("link without payload".to_owned())),
        }
    }

    /// Takes the link of a document to a payload away, and drops the
    /// payload where no other document of the collection links to it.
    pub fn remove_blob(
        &mut self,
        account_id: u32,
        collection: u8,
        document_id: u32,
        hash: &[u8],
    ) -> (r:
        Result<Vec<Op>, Error>)
        requires
            old(self).wf(),
        ensures
            final(self).wf(),
            r is Ok <==> document_id != 0 && raw(
                old(self)@,
                KeyView::Blob(link_key(account_id, collection, document_id, hash@)),
            ) is Some,
            r matches Err(e) ==> e is NotFound && final(self)@ == old(self)@,
            r matches Ok(ops) ==> final(self)@ == apply_ops(old(self)@, ops@) && raw(
                final(self)@,
                KeyView::Blob(link_key(account_id, collection, document_id, hash@)),
            ) is None && raw(
                final(self)@,
                KeyView::Blob(content_key(account_id, collection, hash@)),
            ) == (if referenced(final(self)@, account_id, collection, hash@) {
                raw(old(self)@, KeyView::Blob(content_key(account_id, collection, hash@)))
            } else {
                None
            }) && only_blob_changed(
                old(self)@,
                final(self)@,
                account_id,
                collection,
                document_id,
                hash@,
            ),
            r is Ok ==> (consistent(old(self)@) ==> consistent(final(self)@)) && (blobs_kept(
                old(self)@,
            ) ==> blobs_kept(final(self)@)),
    {
        let ghost m0 = self@;
        if document_id == 0 {
            return Err(Error::NotFound);
        }
        let link = BlobKey { account_id, collection, document_id, hash };
        assert(link@ == link_key(account_id, collection, document_id, hash@));
        let link_bytes = link.encode();
        if !self.table().contains_key(link_bytes.as_slice()) {
            return Err(Error::NotFound);
        }
        let mut txn = Txn::begin(self.table());
        proof {
            lemma_put_unchanged(m0, KeyView::Blob(link@), Seq::empty());
        }
        txn.delete(link_bytes);
        let ghost m1 = txn@;
        collect_one(&mut txn, account_id, collection, hash);
        proof {
            lemma_unlinked(m0, m1, txn@, account_id, collection, document_id, hash@);
        }
        Ok(self.commit(txn))
    }
}

} // verus!
