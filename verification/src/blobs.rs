//! Keeping and dropping binary payloads, and taking the grants and links of
//! a document out when the document goes.

use vstd::prelude::*;
use crate::blob_model::{
    blobs_kept, content_key, document_prefix, is_blob_of, is_grant_on, lemma_collection_blobs,
    lemma_document_keys, link_key, referenced,
};
use crate::codec::{bytes_equal, push_u32, starts_with};
use crate::fts::views;
use crate::key_codec::{key_prefix, push_prefix};
use crate::key_space::KeyView;
use crate::keys::{BlobKey, KEY_ACL, KEY_BLOB};
use crate::table::Table;
use crate::txn::{lemma_put_unchanged, raw, Txn};

verus! {

/// Whether a key of the table is a link of some document of the collection
/// to the payload.
pub open spec fn is_link_to(key: Seq<u8>, account_id: u32, collection: u8, hash: Seq<u8>) -> bool {
    BlobKey::<Seq<u8>>::decoding(key) matches Some(bk) && bk.account_id == account_id
        && bk.collection == collection && bk.document_id != 0 && bk.hash == hash
}

/// What the keys of one kind of one document begin with.
pub fn make_document_prefix(account_id: u32, collection: u8, tag: u8, document_id: u32) -> (p: Vec<
    u8,
>)
    ensures
        p@ == document_prefix(account_id, collection, tag, document_id),
{
    let mut p: Vec<u8> = Vec::new();
    push_prefix(&mut p, account_id, collection, tag);
    push_u32(&mut p, document_id);
    p
}

impl Table {
    /// Whether some document of the collection has a link to the payload.
    /// Only the blob keys of the collection are looked at.
    pub fn blob_referenced(&self, account_id: u32, collection: u8, hash: &[u8]) -> (r: bool)
        requires
            self.wf(),
        ensures
            r == referenced(self@, account_id, collection, hash@),
    {
        let ghost s = self.ordered();
        let ghost m = self@;
        proof {
            self.lemma_ordered();
        }
        let mut prefix: Vec<u8> = Vec::new();
        push_prefix(&mut prefix, account_id, collection, KEY_BLOB);
        assert(prefix@ =~= key_prefix(account_id, collection, KEY_BLOB));
        let (lo, hi) = self.prefix_range(prefix.as_slice());
        let mut i: usize = lo;
        while i < hi
            invariant
                self.wf(),
                s == self.ordered(),
                m == self@,
                lo <= i <= hi <= s.len(),
                forall|p: int|
                    lo <= p < i ==> !is_link_to((#[trigger] s[p]).0, account_id, collection, hash@),
            decreases hi - i,
        {
            let found = match BlobKey::<Vec<u8>>::decode(self.key_at(i)) {
                Some(bk) => bk.account_id == account_id && bk.collection == collection
                    && bk.document_id != 0 && bytes_equal(bk.hash.as_slice(), hash),
                None => false,
            };
            if found {
                proof {
                    self.lemma_ordered();
                    let bk = BlobKey::<Seq<u8>>::decoding(s[i as int].0)->0;
                    assert(bk.encoding() == s[i as int].0);
                    assert(m.contains_key(s[i as int].0));
                    assert(bk == link_key(account_id, collection, bk.document_id, hash@));
                    assert(raw(
                        m,
                        KeyView::Blob(link_key(account_id, collection, bk.document_id, hash@)),
                    ) is Some);
                }
                return true;
            }
            i += 1;
        }
        proof {
            if referenced(m, account_id, collection, hash@) {
                let d = choose|d: u32|
                    d != 0 && (#[trigger] raw(
                        m,
                        KeyView::Blob(link_key(account_id, collection, d, hash@)),
                    )) is Some;
                let lk = link_key(account_id, collection, d, hash@);
                let e = lk.encoding();
                assert(m.contains_key(e));
                let p = choose|p: int| 0 <= p < s.len() && (#[trigger] s[p]).0 == e;
                lemma_collection_blobs(lk);
                assert(lo <= p < hi);
                BlobKey::<Seq<u8>>::lemma_roundtrip(lk);
                assert(is_link_to(s[p].0, account_id, collection, hash@));
            }
        }
        false
    }
}

/// What taking the grants and links of a document out does to the grants
/// and blob keys of the table: every grant on the document and every link of
/// it is gone, a payload is gone only where no link to it is left, and the
/// grants and links of other documents are as they were.
pub open spec fn cleaned_keys(
    before: Map<Seq<u8>, Seq<u8>>,
    after: Map<Seq<u8>, Seq<u8>>,
    account_id: u32,
    collection: u8,
    document_id: u32,
) -> bool {
    &&& forall|k: KeyView|
        k.wf() && k is Acl && !is_grant_on(k, account_id, collection, document_id)
            ==> #[trigger] raw(after, k) == raw(before, k)
    &&& forall|k: KeyView|
        k.wf() && (is_grant_on(k, account_id, collection, document_id) || is_blob_of(
            k,
            account_id,
            collection,
            document_id,
        )) ==> #[trigger] raw(after, k) is None
    &&& forall|bk: BlobKey<Seq<u8>>|
        bk.document_id != 0 && !is_blob_of(
            KeyView::Blob(bk),
            account_id,
            collection,
            document_id,
        ) ==> #[trigger] raw(after, KeyView::Blob(bk)) == raw(before, KeyView::Blob(bk))
    &&& forall|bk: BlobKey<Seq<u8>>|
        bk.document_id == 0 ==> #[trigger] raw(after, KeyView::Blob(bk)) == raw(
            before,
            KeyView::Blob(bk),
        ) || raw(after, KeyView::Blob(bk)) is None
    &&& blobs_kept(before) ==> blobs_kept(after)
}

/// What taking the grants and links of a document out does to the table:
/// to its grants and blob keys what `cleaned_keys` says, and nothing to any
/// other key.
pub open spec fn cleaned(
    before: Map<Seq<u8>, Seq<u8>>,
    after: Map<Seq<u8>, Seq<u8>>,
    account_id: u32,
    collection: u8,
    document_id: u32,
) -> bool {
    &&& cleaned_keys(before, after, account_id, collection, document_id)
    &&& forall|k: KeyView|
        k.wf() && !(k is Blob) && !(k is Acl) ==> #[trigger] raw(after, k) == raw(before, k)
}

/// The links that are in a table once those of one document are taken out
/// of another.
spec fn links_taken(
    before: Map<Seq<u8>, Seq<u8>>,
    after: Map<Seq<u8>, Seq<u8>>,
    account_id: u32,
    collection: u8,
    document_id: u32,
) -> bool {
    forall|bk: BlobKey<Seq<u8>>|
        bk.document_id != 0 ==> #[trigger] raw(after, KeyView::Blob(bk)) == (if is_blob_of(
            KeyView::Blob(bk),
            account_id,
            collection,
            document_id,
        ) {
            None
        } else {
            raw(before, KeyView::Blob(bk))
        })
}

/// Where the links of a table are those of another without the links of one
/// document, a payload that is referenced was referenced before.
proof fn lemma_referenced_after(
    before: Map<Seq<u8>, Seq<u8>>,
    after: Map<Seq<u8>, Seq<u8>>,
    account_id: u32,
    collection: u8,
    document_id: u32,
    a: u32,
    c: u8,
    hash: Seq<u8>,
)
    requires
        links_taken(before, after, account_id, collection, document_id),
    ensures
        referenced(after, a, c, hash) ==> referenced(before, a, c, hash),
        (a != account_id || c != collection || raw(
            before,
            KeyView::Blob(link_key(account_id, collection, document_id, hash)),
        ) is None) ==> (referenced(after, a, c, hash) <==> referenced(before, a, c, hash)),
{
    if referenced(after, a, c, hash) {
        let d = choose|d: u32|
            d != 0 && (#[trigger] raw(after, KeyView::Blob(link_key(a, c, d, hash)))) is Some;
        assert(raw(before, KeyView::Blob(link_key(a, c, d, hash))) is Some);
    }
    if referenced(before, a, c, hash) && (a != account_id || c != collection || raw(
        before,
        KeyView::Blob(link_key(account_id, collection, document_id, hash)),
    ) is None) {
        let d = choose|d: u32|
            d != 0 && (#[trigger] raw(before, KeyView::Blob(link_key(a, c, d, hash)))) is Some;
        assert(raw(after, KeyView::Blob(link_key(a, c, d, hash))) is Some);
    }
}

/// Takes the grants on a document out.
fn remove_grants(txn: &mut Txn, account_id: u32, collection: u8, document_id: u32)
    requires
        old(txn).wf(),
    ensures
        final(txn).wf(),
        final(txn).base() == old(txn).base(),
        forall|k: KeyView|
            k.wf() ==> #[trigger] raw(final(txn)@, k) == (if is_grant_on(
                k,
                account_id,
                collection,
                document_id,
            ) {
                None
            } else {
                raw(old(txn)@, k)
            }),
{
    let prefix = make_document_prefix(account_id, collection, KEY_ACL, document_id);
    let _ = txn.delete_prefix(prefix.as_slice());
    proof {
        assert forall|k: KeyView| k.wf() implies #[trigger] raw(txn@, k) == (if is_grant_on(
            k,
            account_id,
            collection,
            document_id,
        ) {
            None
        } else {
            raw(old(txn)@, k)
        }) by {
            lemma_document_keys(k, account_id, collection, document_id);
        }
    }
}

/// Takes the links of a document out; tells the hashes they were to.
fn remove_links(txn: &mut Txn, account_id: u32, collection: u8, document_id: u32) -> (hashes: Vec<
    Vec<u8>,
>)
    requires
        old(txn).wf(),
    ensures
        final(txn).wf(),
        final(txn).base() == old(txn).base(),
        forall|k: KeyView|
            k.wf() ==> #[trigger] raw(final(txn)@, k) == (if is_blob_of(
                k,
                account_id,
                collection,
                document_id,
            ) {
                None
            } else {
                raw(old(txn)@, k)
            }),
        forall|h: Seq<u8>|
            raw(old(txn)@, KeyView::Blob(link_key(account_id, collection, document_id, h)))
                is Some ==> views(hashes@).contains(h),
{
    let ghost m0 = txn@;
    let prefix = make_document_prefix(account_id, collection, KEY_BLOB, document_id);
    let removed = txn.delete_prefix(prefix.as_slice());
    proof {
        assert forall|k: KeyView| k.wf() implies #[trigger] raw(txn@, k) == (if is_blob_of(
            k,
            account_id,
            collection,
            document_id,
        ) {
            None
        } else {
            raw(m0, k)
        }) by {
            lemma_document_keys(k, account_id, collection, document_id);
        }
    }
    proof {
        assert forall|j: int| 0 <= j < removed@.len() implies starts_with(
            (#[trigger] removed@[j])@,
            document_prefix(account_id, collection, KEY_BLOB, document_id),
        ) by {
            assert(views(removed@)[j] == removed@[j]@);
            assert(views(removed@).contains(removed@[j]@));
        }
    }
    let mut hashes: Vec<Vec<u8>> = Vec::new();
    let mut i: usize = 0;
    while i < removed.len()
        invariant
            i <= removed@.len(),
            hashes@.len() == i,
            forall|j: int|
                0 <= j < i ==> removed@[j]@.len() >= 10 && (#[trigger] hashes@[j])@
                    == removed@[j]@.skip(10),
            forall|j: int|
                0 <= j < removed@.len() ==> starts_with(
                    (#[trigger] removed@[j])@,
                    document_prefix(account_id, collection, KEY_BLOB, document_id),
                ),
        decreases removed@.len() - i,
    {
        let key = removed[i].as_slice();
        proof {
            assert(views(removed@)[i as int] == removed@[i as int]@);
            assert(views(removed@).contains(removed@[i as int]@));
            crate::codec::lemma_be32_value(document_id);
        }
        let h = crate::codec::copy_range(key, 10, key.len());
        assert(h@ =~= key@.skip(10));
        hashes.push(h);
        i += 1;
    }
    proof {
        assert forall|h: Seq<u8>|
            raw(m0, KeyView::Blob(link_key(account_id, collection, document_id, h)))
                is Some implies views(hashes@).contains(h) by {
            let lk = link_key(account_id, collection, document_id, h);
            lemma_document_keys(KeyView::Blob(lk), account_id, collection, document_id);
            assert(views(removed@).contains(lk.encoding()));
            let j = choose|j: int| 0 <= j < views(removed@).len() && views(removed@)[j] == lk.encoding();
            crate::codec::lemma_be32_value(document_id);
            assert(lk.encoding().skip(10) =~= h);
            assert(views(hashes@)[j] == h);
        }
    }
    hashes
}

/// Tables with the same links reference the same payloads.
proof fn lemma_same_links(before: Map<Seq<u8>, Seq<u8>>, after: Map<Seq<u8>, Seq<u8>>)
    requires
        forall|bk: BlobKey<Seq<u8>>|
            bk.document_id != 0 ==> #[trigger] raw(after, KeyView::Blob(bk)) == raw(
                before,
                KeyView::Blob(bk),
            ),
    ensures
        forall|a: u32, c: u8, h: Seq<u8>| #[trigger]
            referenced(after, a, c, h) == referenced(before, a, c, h),
{
    assert forall|a: u32, c: u8, h: Seq<u8>| #[trigger]
        referenced(after, a, c, h) == referenced(before, a, c, h) by {
        if referenced(after, a, c, h) {
            let d = choose|d: u32|
                d != 0 && (#[trigger] raw(after, KeyView::Blob(link_key(a, c, d, h)))) is Some;
            assert(raw(before, KeyView::Blob(link_key(a, c, d, h))) is Some);
        }
        if referenced(before, a, c, h) {
            let d = choose|d: u32|
                d != 0 && (#[trigger] raw(before, KeyView::Blob(link_key(a, c, d, h)))) is Some;
            assert(raw(after, KeyView::Blob(link_key(a, c, d, h))) is Some);
        }
    }
}

/// The payloads while those to which the first hashes of a list pointed have
/// been looked at: a payload is gone only where nothing links to it, and
/// those of the hashes looked at are gone where nothing links to them.
pub open spec fn collecting(
    start: Map<Seq<u8>, Seq<u8>>,
    now: Map<Seq<u8>, Seq<u8>>,
    account_id: u32,
    collection: u8,
    looked_at: Seq<Seq<u8>>,
) -> bool {
    &&& forall|k: KeyView|
        k.wf() && !(k matches KeyView::Blob(bk) && bk.document_id == 0) ==> #[trigger] raw(now, k)
            == raw(start, k)
    &&& forall|bk: BlobKey<Seq<u8>>|
        bk.document_id == 0 ==> #[trigger] raw(now, KeyView::Blob(bk)) == raw(
            start,
            KeyView::Blob(bk),
        ) || (raw(now, KeyView::Blob(bk)) is None && !referenced(
            start,
            bk.account_id,
            bk.collection,
            bk.hash,
        ))
    &&& forall|h: Seq<u8>|
        looked_at.contains(h) && !referenced(start, account_id, collection, h) ==> #[trigger] raw(
            now,
            KeyView::Blob(content_key(account_id, collection, h)),
        ) is None
}

/// Drops the payloads of the given hashes to which nothing links any more.
fn collect_payloads(txn: &mut Txn, account_id: u32, collection: u8, hashes: &Vec<Vec<u8>>)
    requires
        old(txn).wf(),
    ensures
        final(txn).wf(),
        final(txn).base() == old(txn).base(),
        collecting(old(txn)@, final(txn)@, account_id, collection, views(hashes@)),
{
    let ghost m0 = txn@;
    let mut i: usize = 0;
    assert(views(hashes@).subrange(0, 0) =~= Seq::empty());
    while i < hashes.len()
        invariant
            i <= hashes@.len(),
            txn.wf(),
            txn.base() == old(txn).base(),
            m0 == old(txn)@,
            collecting(m0, txn@, account_id, collection, views(hashes@).subrange(0, i as int)),
        decreases hashes@.len() - i,
    {
        let ghost m = txn@;
        let ghost done = views(hashes@).subrange(0, i as int);
        let ghost next = views(hashes@).subrange(0, i + 1);
        let hash = hashes[i].as_slice();
        let ck = BlobKey { account_id, collection, document_id: 0u32, hash };
        assert(ck@ == content_key(account_id, collection, hash@));
        proof {
            assert forall|bk: BlobKey<Seq<u8>>| bk.document_id != 0 implies #[trigger] raw(
                m,
                KeyView::Blob(bk),
            ) == raw(m0, KeyView::Blob(bk)) by {
                assert(KeyView::Blob(bk).wf());
            }
            lemma_same_links(m0, m);
        }
        let kept = txn.table().blob_referenced(account_id, collection, hash);
        assert(kept == referenced(m0, account_id, collection, hash@));
        if !kept {
            proof {
                lemma_put_unchanged(m, KeyView::Blob(ck@), Seq::empty());
            }
            txn.delete(ck.encode());
        }
        proof {
            let m1 = txn@;
            assert(next =~= done.push(hash@));
            assert forall|k: KeyView|
                k.wf() && !(k matches KeyView::Blob(bk) && bk.document_id == 0) implies #[trigger] raw(
                m1,
                k,
            ) == raw(m0, k) by {
                assert(raw(m1, k) == raw(m, k));
            }
            assert forall|bk: BlobKey<Seq<u8>>| bk.document_id == 0 implies #[trigger] raw(
                m1,
                KeyView::Blob(bk),
            ) == raw(m0, KeyView::Blob(bk)) || (raw(m1, KeyView::Blob(bk)) is None && !referenced(
                m0,
                bk.account_id,
                bk.collection,
                bk.hash,
            )) by {
                assert(KeyView::Blob(bk).wf());
                if bk != ck@ || kept {
                    assert(raw(m1, KeyView::Blob(bk)) == raw(m, KeyView::Blob(bk)));
                }
            }
            assert forall|h: Seq<u8>|
                next.contains(h) && !referenced(m0, account_id, collection, h) implies #[trigger] raw(
                m1,
                KeyView::Blob(content_key(account_id, collection, h)),
            ) is None by {
                let k = KeyView::Blob(content_key(account_id, collection, h));
                assert(k.wf());
                if h == hash@ {
                } else {
                    let x = choose|x: int| 0 <= x < next.len() && next[x] == h;
                    assert(done[x] == h);
                    assert(done.contains(h));
                    assert(raw(m, k) is None);
                    assert(raw(m1, k) == raw(m, k) || raw(m1, k) is None);
                }
            }
        }
        i += 1;
    }
    assert(views(hashes@).subrange(0, i as int) =~= views(hashes@));
}

/// The payloads after that of one hash was looked at.
pub open spec fn collected_one(
    start: Map<Seq<u8>, Seq<u8>>,
    now: Map<Seq<u8>, Seq<u8>>,
    account_id: u32,
    collection: u8,
    hash: Seq<u8>,
) -> bool {
    &&& collecting(start, now, account_id, collection, seq![hash])
    &&& forall|k: KeyView|
        k.wf() && k != KeyView::Blob(content_key(account_id, collection, hash)) ==> #[trigger] raw(
            now,
            k,
        ) == raw(start, k)
}

/// Drops the payload of a hash where nothing links to it any more.
pub fn collect_one(txn: &mut Txn, account_id: u32, collection: u8, hash: &[u8])
    requires
        old(txn).wf(),
    ensures
        final(txn).wf(),
        final(txn).base() == old(txn).base(),
        collected_one(old(txn)@, final(txn)@, account_id, collection, hash@),
{
    let ghost m0 = txn@;
    let ck = BlobKey { account_id, collection, document_id: 0u32, hash };
    assert(ck@ == content_key(account_id, collection, hash@));
    let kept = txn.table().blob_referenced(account_id, collection, hash);
    if !kept {
        proof {
            lemma_put_unchanged(m0, KeyView::Blob(ck@), Seq::empty());
        }
        txn.delete(ck.encode());
    }
    proof {
        let m1 = txn@;
        assert(KeyView::Blob(ck@).wf());
        assert forall|h: Seq<u8>|
            seq![hash@].contains(h) && !referenced(m0, account_id, collection, h) implies #[trigger] raw(
            m1,
            KeyView::Blob(content_key(account_id, collection, h)),
        ) is None by {
            let x = choose|x: int| 0 <= x < seq![hash@].len() && seq![hash@][x] == h;
            assert(h == hash@);
        }
        assert forall|bk: BlobKey<Seq<u8>>| bk.document_id == 0 implies #[trigger] raw(
            m1,
            KeyView::Blob(bk),
        ) == raw(m0, KeyView::Blob(bk)) || (raw(m1, KeyView::Blob(bk)) is None && !referenced(
            m0,
            bk.account_id,
            bk.collection,
            bk.hash,
        )) by {
            assert(KeyView::Blob(bk).wf());
        }
    }
}

/// Takes the grants on a document and its links out, and drops the payloads
/// to which nothing links any more.
pub fn remove_document_keys(txn: &mut Txn, account_id: u32, collection: u8, document_id: u32)
    requires
        old(txn).wf(),
        document_id != 0,
    ensures
        final(txn).wf(),
        final(txn).base() == old(txn).base(),
        cleaned(old(txn)@, final(txn)@, account_id, collection, document_id),
{
    let ghost m0 = txn@;
    remove_grants(txn, account_id, collection, document_id);
    let ghost m1 = txn@;
    let hashes = remove_links(txn, account_id, collection, document_id);
    let ghost m2 = txn@;
    collect_payloads(txn, account_id, collection, &hashes);
    proof {
        let m3 = txn@;
        lemma_cleaned(m0, m1, m2, m3, account_id, collection, document_id, views(hashes@));
    }
}

/// The three steps of taking the keys of a document out clean the table.
proof fn lemma_cleaned(
    m0: Map<Seq<u8>, Seq<u8>>,
    m1: Map<Seq<u8>, Seq<u8>>,
    m2: Map<Seq<u8>, Seq<u8>>,
    m3: Map<Seq<u8>, Seq<u8>>,
    account_id: u32,
    collection: u8,
    document_id: u32,
    hashes: Seq<Seq<u8>>,
)
    requires
        document_id != 0,
        forall|k: KeyView|
            k.wf() ==> #[trigger] raw(m1, k) == (if is_grant_on(
                k,
                account_id,
                collection,
                document_id,
            ) {
                None
            } else {
                raw(m0, k)
            }),
        forall|k: KeyView|
            k.wf() ==> #[trigger] raw(m2, k) == (if is_blob_of(
                k,
                account_id,
                collection,
                document_id,
            ) {
                None
            } else {
                raw(m1, k)
            }),
        forall|h: Seq<u8>|
            raw(m1, KeyView::Blob(link_key(account_id, collection, document_id, h)))
                is Some ==> hashes.contains(h),
        collecting(m2, m3, account_id, collection, hashes),
    ensures
        cleaned(m0, m3, account_id, collection, document_id),
{
    assert forall|k: KeyView| k.wf() && !(k is Blob) && !(k is Acl) implies #[trigger] raw(m3, k)
        == raw(m0, k) by {
        assert(raw(m3, k) == raw(m2, k));
        assert(raw(m2, k) == raw(m1, k));
        assert(raw(m1, k) == raw(m0, k));
    }
    assert forall|k: KeyView|
        k.wf() && k is Acl && !is_grant_on(
            k,
            account_id,
            collection,
            document_id,
        ) implies #[trigger] raw(m3, k) == raw(m0, k) by {
        assert(raw(m3, k) == raw(m2, k));
        assert(raw(m2, k) == raw(m1, k));
        assert(raw(m1, k) == raw(m0, k));
    }
    assert forall|k: KeyView|
        k.wf() && (is_grant_on(k, account_id, collection, document_id) || is_blob_of(
            k,
            account_id,
            collection,
            document_id,
        )) implies #[trigger] raw(m3, k) is None by {
        assert(raw(m3, k) == raw(m2, k));
        assert(raw(m2, k) == (if is_blob_of(k, account_id, collection, document_id) {
            None
        } else {
            raw(m1, k)
        }));
    }
    assert forall|bk: BlobKey<Seq<u8>>|
        bk.document_id != 0 && !is_blob_of(
            KeyView::Blob(bk),
            account_id,
            collection,
            document_id,
        ) implies #[trigger] raw(m3, KeyView::Blob(bk)) == raw(m0, KeyView::Blob(bk)) by {
        let k = KeyView::Blob(bk);
        assert(k.wf());
        assert(raw(m3, k) == raw(m2, k));
        assert(raw(m2, k) == raw(m1, k));
        assert(raw(m1, k) == raw(m0, k));
    }
    assert forall|bk: BlobKey<Seq<u8>>| bk.document_id == 0 implies #[trigger] raw(
        m3,
        KeyView::Blob(bk),
    ) == raw(m0, KeyView::Blob(bk)) || raw(m3, KeyView::Blob(bk)) is None by {
        let k = KeyView::Blob(bk);
        assert(k.wf());
        assert(raw(m2, k) == raw(m1, k));
        assert(raw(m1, k) == raw(m0, k));
    }
    if blobs_kept(m0) {
        assert forall|bk: BlobKey<Seq<u8>>| bk.document_id != 0 implies #[trigger] raw(
            m3,
            KeyView::Blob(bk),
        ) == raw(m2, KeyView::Blob(bk)) by {
            assert(KeyView::Blob(bk).wf());
        }
        lemma_same_links(m2, m3);
        assert forall|bk: BlobKey<Seq<u8>>| bk.document_id != 0 implies #[trigger] raw(
            m1,
            KeyView::Blob(bk),
        ) == raw(m0, KeyView::Blob(bk)) by {
            assert(KeyView::Blob(bk).wf());
        }
        lemma_same_links(m0, m1);
        assert(links_taken(m1, m2, account_id, collection, document_id)) by {
            assert forall|bk: BlobKey<Seq<u8>>| bk.document_id != 0 implies #[trigger] raw(
                m2,
                KeyView::Blob(bk),
            ) == (if is_blob_of(KeyView::Blob(bk), account_id, collection, document_id) {
                None
            } else {
                raw(m1, KeyView::Blob(bk))
            }) by {
                assert(KeyView::Blob(bk).wf());
            }
        }
        assert forall|a: u32, c: u8, h: Seq<u8>| #[trigger]
            raw(m3, KeyView::Blob(content_key(a, c, h))) is Some <==> referenced(m3, a, c, h) by {
            let ck = content_key(a, c, h);
            let k = KeyView::Blob(ck);
            assert(k.wf());
            lemma_referenced_after(m1, m2, account_id, collection, document_id, a, c, h);
            assert(referenced(m3, a, c, h) == referenced(m2, a, c, h));
            assert(referenced(m1, a, c, h) == referenced(m0, a, c, h));
            assert(raw(m0, k) is Some <==> referenced(m0, a, c, h));
            assert(raw(m2, k) == raw(m1, k));
            assert(raw(m1, k) == raw(m0, k));
            assert(raw(m3, k) == raw(m2, k) || (raw(m3, k) is None && !referenced(m2, a, c, h)));
            if raw(m3, k) is Some && !referenced(m2, a, c, h) {
                // The payload was referenced before, so the document had a
                // link to it, and its hash was looked at.
                assert(referenced(m1, a, c, h));
                assert(a == account_id && c == collection);
                assert(hashes.contains(h));
            }
        }
    }
}

} // verus!
