//! Access grants: what one account may do with a document of another. A
//! grant is a byte of capability bits under the key of grantee and document;
//! no key means no grant.

use vstd::prelude::*;
use crate::batch::{apply_ops, Op};
use crate::error::Error;
use crate::key_space::KeyView;
use crate::keys::AclKey;
use crate::store::{consistent, lemma_consistent_but_grants, Store};
use crate::txn::{lemma_put_unchanged, raw, Txn};

verus! {

/// The key of the grant that an account holds on a document.
pub open spec fn grant_key(
    grant_account_id: u32,
    to_account_id: u32,
    to_collection: u8,
    to_document_id: u32,
) -> AclKey {
    AclKey { grant_account_id, to_account_id, to_collection, to_document_id }
}

/// What is stored under a grant key is one byte, where anything is stored.
pub open spec fn grant_ok(m: Map<Seq<u8>, Seq<u8>>, key: AclKey) -> bool {
    raw(m, KeyView::Acl(key)) matches Some(v) ==> v.len() == 1
}

/// The capabilities granted under a key; none where the key is absent.
pub open spec fn granted(m: Map<Seq<u8>, Seq<u8>>, key: AclKey) -> u8 {
    match raw(m, KeyView::Acl(key)) {
        Some(v) => if v.len() == 1 {
            v[0]
        } else {
            0
        },
        None => 0,
    }
}

/// Every key of the store but the grant key holds the same in both tables.
pub open spec fn only_grant_changed(
    before: Map<Seq<u8>, Seq<u8>>,
    after: Map<Seq<u8>, Seq<u8>>,
    key: AclKey,
) -> bool {
    forall|k: KeyView| k.wf() && k != KeyView::Acl(key) ==> #[trigger] raw(after, k) == raw(before, k)
}

/// A capability that was granted is held, and one that was revoked is not.
pub proof fn lemma_grant_then_check(had: u8, capabilities: u8)
    ensures
        (had | capabilities) & capabilities == capabilities,
        capabilities != 0 ==> (had & !capabilities) & capabilities != capabilities,
        (had | capabilities) & had == had,
        (had & !capabilities) | had == had,
{
    assert((had | capabilities) & capabilities == capabilities) by (bit_vector);
    assert(capabilities != 0 ==> (had & !capabilities) & capabilities != capabilities)
        by (bit_vector);
    assert((had | capabilities) & had == had) by (bit_vector);
    assert((had & !capabilities) | had == had) by (bit_vector);
}

/// A table in which only a grant changed is as consistent as it was, and
/// keeps its payloads as it did.
proof fn lemma_grant_frame(before: Map<Seq<u8>, Seq<u8>>, after: Map<Seq<u8>, Seq<u8>>, key: AclKey)
    requires
        only_grant_changed(before, after, key),
    ensures
        consistent(before) ==> consistent(after),
        crate::blob_model::blobs_kept(before) ==> crate::blob_model::blobs_kept(after),
{
    assert forall|k: KeyView| k.wf() && !(k is Acl) && !(k is Blob) implies #[trigger] raw(after, k)
        == raw(before, k) by {}
    assert forall|k: KeyView| k.wf() && k is Blob implies #[trigger] raw(after, k) == raw(before, k) by {}
    if consistent(before) {
        lemma_consistent_but_grants(before, after);
    }
    crate::store::lemma_blobs_unchanged(before, after);
}

impl Store {
    /// The capabilities that an account holds on a document. A stored grant
    /// that is not one byte is corruption.
    pub fn grants(
        &self,
        grant_account_id: u32,
        to_account_id: u32,
        to_collection: u8,
        to_document_id: u32,
    ) -> (r: Result<u8, Error>)
        requires
            self.wf(),
        ensures
            ({
                let key = grant_key(grant_account_id, to_account_id, to_collection, to_document_id);
                &&& r is Ok == grant_ok(self@, key)
                &&& r matches Ok(held) ==> held == granted(self@, key)
                &&& r matches Err(e) ==> e is InternalError
            }),
    {
        let key = AclKey { grant_account_id, to_account_id, to_collection, to_document_id }.encode();
        match self.table().get(key.as_slice()) {
            None => Ok(0),
            Some(v) => {
                if v.len() == 1 {
                    Ok(v[0])
                } else {
                    Err(Error::InternalError("corrupt grant".to_owned()))
                }
            },
        }
    }

    /// Whether an account holds all of the given capabilities on a document.
    pub fn check_acl(
        &self,
        grant_account_id: u32,
        to_account_id: u32,
        to_collection: u8,
        to_document_id: u32,
        capabilities: u8,
    ) -> (r: Result<bool, Error>)
        requires
            self.wf(),
        ensures
            ({
                let key = grant_key(grant_account_id, to_account_id, to_collection, to_document_id);
                &&& r is Ok == grant_ok(self@, key)
                &&& r matches Ok(held) ==> held == (granted(self@, key) & capabilities
                    == capabilities)
                &&& r matches Err(e) ==> e is InternalError
            }),
    {
        match self.grants(grant_account_id, to_account_id, to_collection, to_document_id) {
            Ok(held) => Ok(held & capabilities == capabilities),
            Err(e) => Err(e),
        }
    }

    /// Writes the capabilities of a grant; none of them takes the key out.
    fn set_grant(&mut self, key: AclKey, capabilities: u8) -> (ops: Vec<Op>)
        requires
            old(self).wf(),
        ensures
            final(self).wf(),
            final(self)@ == apply_ops(old(self)@, ops@),
            granted(final(self)@, key) == capabilities,
            grant_ok(final(self)@, key),
            capabilities == 0 ==> raw(final(self)@, KeyView::Acl(key)) is None,
            only_grant_changed(old(self)@, final(self)@, key),
            consistent(old(self)@) ==> consistent(final(self)@),
            crate::blob_model::blobs_kept(old(self)@) ==> crate::blob_model::blobs_kept(
                final(self)@,
            ),
    {
        let ghost m0 = self@;
        let mut txn = Txn::begin(self.table());
        if capabilities == 0 {
            proof {
                lemma_put_unchanged(m0, KeyView::Acl(key), Seq::empty());
            }
            txn.delete(key.encode());
        } else {
            let mut v: Vec<u8> = Vec::new();
            v.push(capabilities);
            proof {
                lemma_put_unchanged(m0, KeyView::Acl(key), v@);
            }
            txn.put(key.encode(), v);
        }
        proof {
            lemma_grant_frame(m0, txn@, key);
        }
        self.commit(txn)
    }

    /// Grants capabilities on a document to an account, on top of what it
    /// holds.
    pub fn grant(
        &mut self,
        grant_account_id: u32,
        to_account_id: u32,
        to_collection: u8,
        to_document_id: u32,
        capabilities: u8,
    ) -> (r: Result<Vec<Op>, Error>)
        requires
            old(self).wf(),
        ensures
            final(self).wf(),
            ({
                let key = grant_key(grant_account_id, to_account_id, to_collection, to_document_id);
                &&& r is Ok == grant_ok(old(self)@, key)
                &&& r matches Ok(ops) ==> final(self)@ == apply_ops(old(self)@, ops@) && granted(
                    final(self)@,
                    key,
                ) == granted(old(self)@, key) | capabilities && only_grant_changed(
                    old(self)@,
                    final(self)@,
                    key,
                )
                &&& r matches Err(e) ==> e is InternalError && final(self)@ == old(self)@
            }),
            old(self).inv() && r is Ok ==> final(self).inv(),
    {
        let key = AclKey { grant_account_id, to_account_id, to_collection, to_document_id };
        match self.grants(grant_account_id, to_account_id, to_collection, to_document_id) {
            Ok(held) => Ok(self.set_grant(key, held | capabilities)),
            Err(e) => Err(e),
        }
    }

    /// Takes capabilities on a document away from an account. Where none is
    /// left, the grant is gone from the table.
    pub fn revoke(
        &mut self,
        grant_account_id: u32,
        to_account_id: u32,
        to_collection: u8,
        to_document_id: u32,
        capabilities: u8,
    ) -> (r: Result<Vec<Op>, Error>)
        requires
            old(self).wf(),
        ensures
            final(self).wf(),
            ({
                let key = grant_key(grant_account_id, to_account_id, to_collection, to_document_id);
                &&& r is Ok == grant_ok(old(self)@, key)
                &&& r matches Ok(ops) ==> final(self)@ == apply_ops(old(self)@, ops@) && granted(
                    final(self)@,
                    key,
                ) == granted(old(self)@, key) & !capabilities && only_grant_changed(
                    old(self)@,
                    final(self)@,
                    key,
                ) && (granted(final(self)@, key) == 0 ==> raw(final(self)@, KeyView::Acl(key))
                    is None)
                &&& r matches Err(e) ==> e is InternalError && final(self)@ == old(self)@
            }),
            old(self).inv() && r is Ok ==> final(self).inv(),
    {
        let key = AclKey { grant_account_id, to_account_id, to_collection, to_document_id };
        match self.grants(grant_account_id, to_account_id, to_collection, to_document_id) {
            Ok(held) => Ok(self.set_grant(key, held & !capabilities)),
            Err(e) => Err(e),
        }
    }
}

} // verus!
