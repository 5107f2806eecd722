//! The store: one long-lived handle over the table, through which documents
//! are created, changed and destroyed. Every write is one transaction: it
//! either reaches the table whole, with its ledger entry, or not at all.

use vstd::prelude::*;
use crate::batch::{apply_ops, Op};
use crate::blob_model::blobs_kept;
use crate::blobs::{cleaned, cleaned_keys, remove_document_keys};
use crate::changelog::{
    change_at, entry_bytes, head, head_bytes, head_ok, last_change, last_document, ledger_ok,
    lemma_entry_of, lemma_head_bytes, log_key, Change, ChangeKind,
};
use crate::documents::{
    apply_fields, field_after, field_key, fields_written, is_field_of, is_index_of, FieldChange,
};
use crate::error::Error;
use crate::index::{indexed, postings_readable, sort_indexed, sorted_field, value_key_of};
use crate::key_space::KeyView;
use crate::keys::{BitmapFamily, BitmapKey, IndexKey, ValueKey, BM_DOCUMENT_IDS};
use crate::table::Table;
use crate::txn::{posting, posting_ok, raw, unchanged_but, Txn};

verus! {

/// The document store.
pub struct Store {
    table: Table,
}

/// What a write that went through reports: the document, the number of the
/// change in the ledger, and the changes that were made to the table.
#[derive(Debug)]
pub struct Written {
    pub document_id: u32,
    pub change_id: u64,
    pub ops: Vec<Op>,
}

/// The key of the set of live documents of a collection.
pub open spec fn live_key(account_id: u32, collection: u8) -> BitmapKey<Seq<u8>> {
    BitmapKey { account_id, collection, family: BM_DOCUMENT_IDS, field: 0, key: Seq::empty() }
}

/// The live documents of a collection.
pub open spec fn live(m: Map<Seq<u8>, Seq<u8>>, account_id: u32, collection: u8) -> Set<u32> {
    posting(m, live_key(account_id, collection))
}

/// Only live documents have stored fields.
pub open spec fn fields_of_live(m: Map<Seq<u8>, Seq<u8>>) -> bool {
    forall|vk: ValueKey| #[trigger]
        raw(m, KeyView::Value(vk)) is Some ==> live(m, vk.account_id, vk.collection).contains(
            vk.document_id,
        )
}

/// The ids of live documents run from one to the id of the last document
/// created.
pub open spec fn ids_allocated(m: Map<Seq<u8>, Seq<u8>>) -> bool {
    forall|account_id: u32, collection: u8, document_id: u32| #[trigger]
        live(m, account_id, collection).contains(document_id) ==> 1 <= document_id
            <= last_document(m, account_id, collection)
}

/// Every stored record has its options byte.
pub open spec fn records_ok(m: Map<Seq<u8>, Seq<u8>>) -> bool {
    forall|vk: ValueKey| #[trigger] raw(m, KeyView::Value(vk)) matches Some(r) ==> r.len() > 0
}

/// What reading asks of a table: every posting list can be read and every
/// record has its options byte. A consistent table meets it.
pub open spec fn sound(m: Map<Seq<u8>, Seq<u8>>) -> bool {
    postings_readable(m) && records_ok(m)
}

/// What holds of a table that only this store has written: every posting
/// list can be read, the index agrees with the records, the ledgers are
/// whole, only live documents have fields, and no live document has an id
/// that has not been given out.
pub open spec fn consistent(m: Map<Seq<u8>, Seq<u8>>) -> bool {
    &&& postings_readable(m)
    &&& indexed(m)
    &&& sort_indexed(m)
    &&& ledger_ok(m)
    &&& fields_of_live(m)
    &&& ids_allocated(m)
    &&& records_ok(m)
}

/// The key of the set of live documents names a family of the index.
pub proof fn lemma_live_key(account_id: u32, collection: u8)
    ensures
        live_key(account_id, collection).wf(),
        KeyView::Bitmap(live_key(account_id, collection)).wf(),
{
    BitmapFamily::lemma_of_byte(BitmapFamily::DocumentIds);
}

/// The ledger after a change was appended to it: the entry is there, the
/// counters are those of the header written, and the ledgers are whole again.
proof fn lemma_ledger_appended(
    before: Map<Seq<u8>, Seq<u8>>,
    after: Map<Seq<u8>, Seq<u8>>,
    account_id: u32,
    collection: u8,
    change: Change,
    new_last_document: u32,
)
    requires
        ledger_ok(before),
        change.change_id == last_change(before, account_id, collection) + 1,
        raw(after, KeyView::Log(log_key(account_id, collection, change.change_id))) == Some(
            entry_bytes(change.document_id, change.kind),
        ),
        head(after, account_id, collection) == Some(head_bytes(change.change_id, new_last_document)),
        forall|k: KeyView|
            k.wf() && k is Log && k != KeyView::Log(
                log_key(account_id, collection, change.change_id),
            ) && k != KeyView::Log(log_key(account_id, collection, 0)) ==> #[trigger] raw(after, k)
                == raw(before, k),
    ensures
        ledger_ok(after),
        last_change(after, account_id, collection) == change.change_id,
        last_document(after, account_id, collection) == new_last_document,
        change_at(after, account_id, collection, change.change_id) == Some(change),
        forall|a: u32, c: u8|
            (a != account_id || c != collection) ==> #[trigger] last_document(after, a, c)
                == last_document(before, a, c),
        forall|a: u32, c: u8|
            (a != account_id || c != collection) ==> #[trigger] last_change(after, a, c)
                == last_change(before, a, c),
{
    lemma_head_bytes(change.change_id, new_last_document);
    lemma_entry_of(change.change_id, change.document_id, change.kind);
    assert forall|a: u32, c: u8| #[trigger] head_ok(after, a, c) by {
        if a != account_id || c != collection {
            assert(KeyView::Log(log_key(a, c, 0)).wf());
            assert(raw(after, KeyView::Log(log_key(a, c, 0))) == raw(
                before,
                KeyView::Log(log_key(a, c, 0)),
            ));
            assert(head_ok(before, a, c));
        }
    }
    assert forall|a: u32, c: u8| (a != account_id || c != collection) implies #[trigger] last_document(
        after,
        a,
        c,
    ) == last_document(before, a, c) by {
        assert(KeyView::Log(log_key(a, c, 0)).wf());
        assert(raw(after, KeyView::Log(log_key(a, c, 0))) == raw(
            before,
            KeyView::Log(log_key(a, c, 0)),
        ));
    }
    assert forall|a: u32, c: u8| (a != account_id || c != collection) implies #[trigger] last_change(
        after,
        a,
        c,
    ) == last_change(before, a, c) by {
        assert(KeyView::Log(log_key(a, c, 0)).wf());
        assert(raw(after, KeyView::Log(log_key(a, c, 0))) == raw(
            before,
            KeyView::Log(log_key(a, c, 0)),
        ));
    }
    assert forall|a: u32, c: u8, id: u64| id >= 1 implies (#[trigger] change_at(after, a, c, id) is Some
        <==> id <= last_change(after, a, c)) by {
        let k = KeyView::Log(log_key(a, c, id));
        assert(k.wf());
        assert(change_at(before, a, c, id) is Some <==> id <= last_change(before, a, c));
        if a == account_id && c == collection {
            if id != change.change_id {
                assert(raw(after, k) == raw(before, k));
            }
        } else {
            assert(raw(after, k) == raw(before, k));
            assert(last_change(after, a, c) == last_change(before, a, c));
        }
    }
}

/// Tables that hold the same under every ledger key have the same ledgers.
proof fn lemma_ledger_unchanged(before: Map<Seq<u8>, Seq<u8>>, after: Map<Seq<u8>, Seq<u8>>)
    requires
        forall|k: KeyView| k.wf() && k is Log ==> #[trigger] raw(after, k) == raw(before, k),
    ensures
        ledger_ok(before) ==> ledger_ok(after),
        forall|a: u32, c: u8| #[trigger] last_change(after, a, c) == last_change(before, a, c),
        forall|a: u32, c: u8| #[trigger] last_document(after, a, c) == last_document(before, a, c),
        forall|a: u32, c: u8, id: u64| #[trigger]
            change_at(after, a, c, id) == change_at(before, a, c, id),
{
    assert forall|a: u32, c: u8| #[trigger] last_change(after, a, c) == last_change(before, a, c) by {
        assert(KeyView::Log(log_key(a, c, 0)).wf());
        assert(head(after, a, c) == head(before, a, c));
    }
    assert forall|a: u32, c: u8| #[trigger] last_document(after, a, c) == last_document(
        before,
        a,
        c,
    ) by {
        assert(KeyView::Log(log_key(a, c, 0)).wf());
        assert(head(after, a, c) == head(before, a, c));
    }
    assert forall|a: u32, c: u8, id: u64| #[trigger]
        change_at(after, a, c, id) == change_at(before, a, c, id) by {
        assert(KeyView::Log(log_key(a, c, id)).wf());
    }
    if ledger_ok(before) {
        assert forall|a: u32, c: u8| #[trigger] head_ok(after, a, c) by {
            assert(KeyView::Log(log_key(a, c, 0)).wf());
            assert(head(after, a, c) == head(before, a, c));
            assert(head_ok(before, a, c));
        }
        assert forall|a: u32, c: u8, id: u64| id >= 1 implies (#[trigger] change_at(
            after,
            a,
            c,
            id,
        ) is Some <==> id <= last_change(after, a, c)) by {
            assert(change_at(before, a, c, id) is Some <==> id <= last_change(before, a, c));
        }
    }
}

/// What one write does to the table, but for what a deletion does to
/// grants and blob keys (`strict` says that they are as they were): the
/// ledger of the collection gains
/// the entry of the change, under the next number; the document enters the
/// live documents when it is created and leaves them when it is destroyed;
/// its fields are as the changes leave them; and every record, grant and
/// ledger of other documents and collections is as it was.
pub open spec fn written_with(
    before: Map<Seq<u8>, Seq<u8>>,
    after: Map<Seq<u8>, Seq<u8>>,
    account_id: u32,
    collection: u8,
    change: Change,
    changes: Seq<FieldChange>,
    strict: bool,
) -> bool {
    let document_id = change.document_id;
    &&& change.change_id == last_change(before, account_id, collection) + 1
    &&& last_change(after, account_id, collection) == change.change_id
    &&& change_at(after, account_id, collection, change.change_id) == Some(change)
    &&& change.kind is Insert ==> document_id == last_document(before, account_id, collection) + 1
    &&& last_document(after, account_id, collection) == (if change.kind is Insert {
        document_id
    } else {
        last_document(before, account_id, collection)
    })
    &&& live(after, account_id, collection) == (match change.kind {
        ChangeKind::Insert => live(before, account_id, collection).insert(document_id),
        ChangeKind::Update => live(before, account_id, collection),
        ChangeKind::Delete => live(before, account_id, collection).remove(document_id),
    })
    &&& forall|field: u8| #[trigger]
        raw(after, KeyView::Value(field_key(account_id, collection, document_id, field)))
            == field_after(
            changes,
            field,
            raw(before, KeyView::Value(field_key(account_id, collection, document_id, field))),
        )
    &&& forall|k: KeyView|
        k.wf() && !(k is Bitmap) && !(k is Log) && !is_field_of(
            k,
            account_id,
            collection,
            document_id,
        ) && !is_index_of(k, account_id, collection, document_id) && (strict || !(k is Acl || k
            is Blob)) ==> #[trigger] raw(after, k) == raw(before, k)
    &&& forall|bk: BitmapKey<Seq<u8>>, other: u32|
        bk.wf() && other != document_id ==> (#[trigger] posting(after, bk).contains(other)
            <==> posting(before, bk).contains(other))
    &&& forall|a: u32, c: u8, id: u64|
        (a != account_id || c != collection) ==> #[trigger] change_at(after, a, c, id)
            == change_at(before, a, c, id)
    &&& forall|id: u64|
        id != change.change_id ==> #[trigger] change_at(after, account_id, collection, id)
            == change_at(before, account_id, collection, id)
}

/// What one write does to the table: what `written_with` says, where the
/// grants and blob keys are as they were unless the document is destroyed,
/// and then the grants on it, its links, and the payloads that only it
/// linked to are gone.
pub open spec fn written(
    before: Map<Seq<u8>, Seq<u8>>,
    after: Map<Seq<u8>, Seq<u8>>,
    account_id: u32,
    collection: u8,
    change: Change,
    changes: Seq<FieldChange>,
) -> bool {
    &&& written_with(
        before,
        after,
        account_id,
        collection,
        change,
        changes,
        !(change.kind is Delete),
    )
    &&& change.kind is Delete ==> cleaned_keys(
        before,
        after,
        account_id,
        collection,
        change.document_id,
    )
}

/// Whether a write of the given kind to the given document goes through on
/// a consistent table: the document is live unless it is being created, and
/// the numbers of changes, and of documents for a creation, are not used up.
pub open spec fn can_write(
    m: Map<Seq<u8>, Seq<u8>>,
    account_id: u32,
    collection: u8,
    kind: ChangeKind,
    document_id: u32,
) -> bool {
    &&& kind is Insert || live(m, account_id, collection).contains(document_id)
    &&& last_change(m, account_id, collection) < u64::MAX
    &&& kind is Insert ==> last_document(m, account_id, collection) < u32::MAX
}

/// The three steps of a write, from table to table: the fields are written,
/// the document enters or leaves the live documents, the ledger gains its
/// entry.
pub open spec fn write_steps(
    m0: Map<Seq<u8>, Seq<u8>>,
    m1: Map<Seq<u8>, Seq<u8>>,
    m2: Map<Seq<u8>, Seq<u8>>,
    m3: Map<Seq<u8>, Seq<u8>>,
    account_id: u32,
    collection: u8,
    change: Change,
    changes: Seq<FieldChange>,
) -> bool {
    let lk = live_key(account_id, collection);
    let document_id = change.document_id;
    &&& head_ok(m0, account_id, collection)
    &&& change.change_id == last_change(m0, account_id, collection) + 1
    &&& change.kind is Insert ==> document_id == last_document(m0, account_id, collection) + 1
    &&& fields_written(m0, m1, account_id, collection, document_id, changes)
    &&& posting(m2, lk) == (match change.kind {
        ChangeKind::Insert => posting(m1, lk).insert(document_id),
        ChangeKind::Update => posting(m1, lk),
        ChangeKind::Delete => posting(m1, lk).remove(document_id),
    })
    &&& posting_ok(m1, lk) ==> posting_ok(m2, lk)
    &&& unchanged_but(m1, m2, KeyView::Bitmap(lk))
    &&& raw(m3, KeyView::Log(log_key(account_id, collection, change.change_id))) == Some(
        entry_bytes(change.document_id, change.kind),
    )
    &&& head(m3, account_id, collection) == Some(
        head_bytes(
            change.change_id,
            if change.kind is Insert {
                document_id
            } else {
                last_document(m0, account_id, collection)
            },
        ),
    )
    &&& forall|k: KeyView|
        k.wf() && k != KeyView::Log(log_key(account_id, collection, change.change_id)) && k
            != KeyView::Log(log_key(account_id, collection, 0)) ==> #[trigger] raw(m3, k) == raw(
            m2,
            k,
        )
}

/// The three steps of a write make the write.
proof fn lemma_written(
    m0: Map<Seq<u8>, Seq<u8>>,
    m1: Map<Seq<u8>, Seq<u8>>,
    m2: Map<Seq<u8>, Seq<u8>>,
    m3: Map<Seq<u8>, Seq<u8>>,
    account_id: u32,
    collection: u8,
    change: Change,
    changes: Seq<FieldChange>,
)
    requires
        write_steps(m0, m1, m2, m3, account_id, collection, change, changes),
    ensures
        written_with(m0, m3, account_id, collection, change, changes, true),
        forall|k: KeyView| k.wf() && !(k is Log) ==> #[trigger] raw(m3, k) == raw(m2, k),
        ledger_ok(m0) ==> ledger_ok(m3),
        forall|a: u32, c: u8|
            (a != account_id || c != collection) ==> #[trigger] last_document(m3, a, c)
                == last_document(m0, a, c),
{
    let lk = live_key(account_id, collection);
    let document_id = change.document_id;
    let new_last_doc = if change.kind is Insert {
        document_id
    } else {
        last_document(m0, account_id, collection)
    };
    lemma_live_key(account_id, collection);
    lemma_head_bytes(change.change_id, new_last_doc);
    lemma_entry_of(change.change_id, change.document_id, change.kind);
    assert(posting(m1, lk) == posting(m0, lk));
    assert(raw(m3, KeyView::Bitmap(lk)) == raw(m2, KeyView::Bitmap(lk)));
    assert forall|k: KeyView| k.wf() && k is Log implies #[trigger] raw(m2, k) == raw(m0, k) by {
        assert(raw(m2, k) == raw(m1, k));
        assert(raw(m1, k) == raw(m0, k));
    }
    lemma_ledger_unchanged(m0, m2);
    assert forall|k: KeyView| k.wf() && !(k is Log) implies #[trigger] raw(m3, k) == raw(m2, k) by {}
    assert forall|bk: BitmapKey<Seq<u8>>| bk.wf() implies #[trigger] posting(m3, bk) == posting(
        m2,
        bk,
    ) by {
        assert(raw(m3, KeyView::Bitmap(bk)) == raw(m2, KeyView::Bitmap(bk)));
    }
    assert forall|bk: BitmapKey<Seq<u8>>| bk.wf() && bk != lk implies #[trigger] posting(m2, bk)
        == posting(m1, bk) by {
        assert(raw(m2, KeyView::Bitmap(bk)) == raw(m1, KeyView::Bitmap(bk)));
    }
    assert forall|field: u8| #[trigger]
        raw(m3, KeyView::Value(field_key(account_id, collection, document_id, field)))
            == field_after(
            changes,
            field,
            raw(m0, KeyView::Value(field_key(account_id, collection, document_id, field))),
        ) by {
        let k = KeyView::Value(field_key(account_id, collection, document_id, field));
        assert(raw(m3, k) == raw(m2, k));
        assert(raw(m2, k) == raw(m1, k));
    }
    assert forall|k: KeyView|
        k.wf() && !(k is Bitmap) && !(k is Log) && !is_field_of(
            k,
            account_id,
            collection,
            document_id,
        ) && !is_index_of(k, account_id, collection, document_id) implies #[trigger] raw(m3, k)
        == raw(m0, k) by {
        assert(raw(m3, k) == raw(m2, k));
        assert(raw(m2, k) == raw(m1, k));
        assert(raw(m1, k) == raw(m0, k));
    }
    assert forall|bk: BitmapKey<Seq<u8>>, other: u32|
        bk.wf() && other != document_id implies (#[trigger] posting(m3, bk).contains(other)
        <==> posting(m0, bk).contains(other)) by {
        assert(posting(m3, bk) == posting(m2, bk));
        assert(posting(m1, bk).contains(other) <==> posting(m0, bk).contains(other));
        if bk != lk {
            assert(posting(m2, bk) == posting(m1, bk));
        }
    }
    if ledger_ok(m0) {
        lemma_ledger_appended(m2, m3, account_id, collection, change, new_last_doc);
    }
    assert forall|a: u32, c: u8| (a != account_id || c != collection) implies #[trigger] last_document(
        m3,
        a,
        c,
    ) == last_document(m0, a, c) by {
        assert(KeyView::Log(log_key(a, c, 0)).wf());
        assert(raw(m3, KeyView::Log(log_key(a, c, 0))) == raw(m2, KeyView::Log(log_key(a, c, 0))));
        assert(head(m3, a, c) == head(m0, a, c));
    }
    assert forall|a: u32, c: u8, id: u64|
        (a != account_id || c != collection) implies #[trigger] change_at(m3, a, c, id)
        == change_at(m0, a, c, id) by {
        assert(KeyView::Log(log_key(a, c, id)).wf());
        assert(raw(m3, KeyView::Log(log_key(a, c, id))) == raw(m2, KeyView::Log(log_key(a, c, id))));
    }
    assert forall|id: u64| id != change.change_id implies #[trigger] change_at(
        m3,
        account_id,
        collection,
        id,
    ) == change_at(m0, account_id, collection, id) by {
        let k = KeyView::Log(log_key(account_id, collection, id));
        assert(k.wf());
        if id != 0 {
            assert(raw(m3, k) == raw(m2, k));
        }
    }
}

/// Makes one write inside a transaction: the fields, the set of live
/// documents, the ledger. For a creation the document gets the next id and
/// `document_id` is not looked at.
fn write_document(
    txn: &mut Txn,
    account_id: u32,
    collection: u8,
    kind: ChangeKind,
    document_id: u32,
    changes: &[FieldChange],
) -> (r: Result<Change, Error>)
    requires
        old(txn).wf(),
        kind is Delete ==> forall|field: u8, initial: Option<Seq<u8>>| #[trigger]
            field_after(changes@, field, initial) is None,
    ensures
        final(txn).wf(),
        final(txn).base() == old(txn).base(),
        r matches Ok(change) ==> change.kind == kind && (kind is Insert || change.document_id
            == document_id) && written_with(
            old(txn)@,
            final(txn)@,
            account_id,
            collection,
            change,
            changes@,
            true,
        ),
        consistent(old(txn)@) ==> (r is Ok <==> can_write(
            old(txn)@,
            account_id,
            collection,
            kind,
            document_id,
        )),
        consistent(old(txn)@) ==> (r matches Err(e) && e is NotFound <==> !(kind is Insert) && !live(
            old(txn)@,
            account_id,
            collection,
        ).contains(document_id)),
        kind is Insert ==> (r matches Err(e) ==> e is InternalError),
        consistent(old(txn)@) && r is Ok ==> consistent(final(txn)@),
{
    let ghost m0 = txn@;
    let live_bk = BitmapKey {
        account_id,
        collection,
        family: BM_DOCUMENT_IDS,
        field: 0,
        key: Vec::new(),
    };
    assert(live_bk@ == live_key(account_id, collection));
    proof {
        lemma_live_key(account_id, collection);
    }
    let (last, last_doc) = match txn.table().read_head(account_id, collection) {
        Ok(counters) => counters,
        Err(e) => {
            assert(!head_ok(m0, account_id, collection));
            return Err(e);
        },
    };
    let document_id = match kind {
        ChangeKind::Insert => {
            if last_doc == u32::MAX {
                return Err(Error::InternalError("document ids used up".to_owned()));
            }
            last_doc + 1
        },
        _ => {
            let is_live = match txn.read_posting(&live_bk) {
                Ok(b) => b.contains(document_id),
                Err(e) => {
                    assert(!posting_ok(m0, live_bk@));
                    return Err(e);
                },
            };
            if !is_live {
                return Err(Error::NotFound);
            }
            document_id
        },
    };
    if last == u64::MAX {
        return Err(Error::InternalError("change ids used up".to_owned()));
    }
    let change = Change { change_id: last + 1, document_id, kind };
    match apply_fields(txn, account_id, collection, document_id, changes) {
        Ok(()) => {},
        Err(e) => {
            return Err(e);
        },
    }
    let ghost m1 = txn@;
    let moved = match kind {
        ChangeKind::Insert => txn.posting_add(&live_bk, document_id),
        ChangeKind::Update => Ok(()),
        ChangeKind::Delete => txn.posting_remove(&live_bk, document_id),
    };
    match moved {
        Ok(()) => {},
        Err(e) => {
            assert(!posting_ok(m1, live_bk@));
            return Err(e);
        },
    }
    let ghost m2 = txn@;
    let new_last_doc = match kind {
        ChangeKind::Insert => document_id,
        _ => last_doc,
    };
    txn.append_change(account_id, collection, &change, new_last_doc);
    proof {
        let m3 = txn@;
        assert(write_steps(m0, m1, m2, m3, account_id, collection, change, changes@));
        lemma_written(m0, m1, m2, m3, account_id, collection, change, changes@);
        if consistent(m0) {
            lemma_written_consistent(m0, m1, m2, m3, account_id, collection, change, changes@);
        }
    }
    Ok(change)
}

/// A consistent table is consistent again after a write.
proof fn lemma_written_consistent(
    m0: Map<Seq<u8>, Seq<u8>>,
    m1: Map<Seq<u8>, Seq<u8>>,
    m2: Map<Seq<u8>, Seq<u8>>,
    m3: Map<Seq<u8>, Seq<u8>>,
    account_id: u32,
    collection: u8,
    change: Change,
    changes: Seq<FieldChange>,
)
    requires
        consistent(m0),
        write_steps(m0, m1, m2, m3, account_id, collection, change, changes),
        written_with(m0, m3, account_id, collection, change, changes, true),
        ledger_ok(m3),
        postings_readable(m1),
        indexed(m1),
        sort_indexed(m1),
        !(change.kind is Insert) ==> live(m0, account_id, collection).contains(change.document_id),
        forall|k: KeyView| k.wf() && !(k is Log) ==> #[trigger] raw(m3, k) == raw(m2, k),
        change.kind is Delete ==> forall|field: u8, initial: Option<Seq<u8>>| #[trigger]
            field_after(changes, field, initial) is None,
        forall|a: u32, c: u8|
            (a != account_id || c != collection) ==> #[trigger] last_document(m3, a, c)
                == last_document(m0, a, c),
    ensures
        consistent(m3),
{
    let lk = live_key(account_id, collection);
    let document_id = change.document_id;
    lemma_live_key(account_id, collection);
    assert forall|bk: BitmapKey<Seq<u8>>| bk.wf() implies #[trigger] posting_ok(m3, bk) by {
        assert(raw(m3, KeyView::Bitmap(bk)) == raw(m2, KeyView::Bitmap(bk)));
        assert(posting_ok(m1, bk));
        if bk != lk {
            assert(raw(m2, KeyView::Bitmap(bk)) == raw(m1, KeyView::Bitmap(bk)));
        }
    }
    assert forall|bk: BitmapKey<Seq<u8>>, d: u32|
        bk.wf() && bk.family != BM_DOCUMENT_IDS implies (#[trigger] posting(m3, bk).contains(d)
        <==> crate::index::stored_postings(raw(m3, KeyView::Value(value_key_of(bk, d)))).contains(
        (bk.family, bk.key),
    )) by {
        let vk = KeyView::Value(value_key_of(bk, d));
        assert(raw(m3, KeyView::Bitmap(bk)) == raw(m2, KeyView::Bitmap(bk)));
        assert(raw(m2, KeyView::Bitmap(bk)) == raw(m1, KeyView::Bitmap(bk)));
        assert(raw(m3, vk) == raw(m2, vk));
        assert(raw(m2, vk) == raw(m1, vk));
        assert(posting(m1, bk).contains(d) <==> crate::index::stored_postings(
            raw(m1, vk),
        ).contains((bk.family, bk.key)));
    }
    assert forall|ik: IndexKey<Seq<u8>>| #[trigger]
        raw(m3, KeyView::Index(ik)) is Some <==> crate::index::sort_payload(
            raw(m3, KeyView::Value(sorted_field(ik))),
        ) == Some(ik.key) by {
        let k = KeyView::Index(ik);
        let vk = KeyView::Value(sorted_field(ik));
        assert(k.wf() && vk.wf());
        assert(raw(m3, k) == raw(m2, k));
        assert(raw(m2, k) == raw(m1, k));
        assert(raw(m3, vk) == raw(m2, vk));
        assert(raw(m2, vk) == raw(m1, vk));
        assert(raw(m1, k) is Some <==> crate::index::sort_payload(raw(m1, vk)) == Some(ik.key));
    }
    assert forall|a: u32, c: u8| (a != account_id || c != collection) implies #[trigger] live(
        m3,
        a,
        c,
    ) == live(m0, a, c) by {
        let other = live_key(a, c);
        lemma_live_key(a, c);
        assert(raw(m3, KeyView::Bitmap(other)) == raw(m2, KeyView::Bitmap(other)));
        assert(raw(m2, KeyView::Bitmap(other)) == raw(m1, KeyView::Bitmap(other)));
        assert(posting(m1, other) == posting(m0, other));
    }
    assert forall|vk: ValueKey| #[trigger] raw(m3, KeyView::Value(vk)) is Some implies live(
        m3,
        vk.account_id,
        vk.collection,
    ).contains(vk.document_id) by {
        let k = KeyView::Value(vk);
        if is_field_of(k, account_id, collection, document_id) {
            assert(vk == field_key(account_id, collection, document_id, vk.field));
            if change.kind is Delete {
                assert(field_after(
                    changes,
                    vk.field,
                    raw(m0, KeyView::Value(field_key(account_id, collection, document_id, vk.field))),
                ) is None);
            }
        } else {
            assert(raw(m3, k) == raw(m0, k));
            assert(raw(m0, k) is Some);
            assert(live(m0, vk.account_id, vk.collection).contains(vk.document_id));
            if vk.account_id == account_id && vk.collection == collection {
                assert(vk.document_id != document_id);
            } else {
                assert(live(m3, vk.account_id, vk.collection) == live(
                    m0,
                    vk.account_id,
                    vk.collection,
                ));
            }
        }
    }
    assert forall|vk: ValueKey| #[trigger] raw(m3, KeyView::Value(vk)) is Some implies raw(
        m3,
        KeyView::Value(vk),
    )->0.len() > 0 by {
        let k = KeyView::Value(vk);
        if is_field_of(k, account_id, collection, document_id) {
            assert(vk == field_key(account_id, collection, document_id, vk.field));
            crate::documents::lemma_field_after_record(
                changes,
                vk.field,
                raw(m0, KeyView::Value(vk)),
            );
        } else {
            assert(raw(m3, k) == raw(m0, k));
        }
    }
    assert forall|a: u32, c: u8, d: u32| #[trigger] live(m3, a, c).contains(d) implies 1 <= d
        <= last_document(m3, a, c) by {
        if a == account_id && c == collection {
            if d != document_id {
                assert(live(m0, a, c).contains(d));
            }
        } else {
            assert(live(m3, a, c) == live(m0, a, c));
            assert(live(m0, a, c).contains(d));
            assert(last_document(m3, a, c) == last_document(m0, a, c));
        }
    }
}

/// The changes that clear every field of a document.
pub open spec fn all_cleared() -> Seq<FieldChange> {
    Seq::new(256, |i: int| FieldChange { field: i as u8, value: None })
}

/// After the first `n` of the clearing changes, the fields below `n` are
/// cleared.
proof fn lemma_all_cleared(n: int, field: u8, initial: Option<Seq<u8>>)
    requires
        0 <= n <= 256,
    ensures
        field_after(all_cleared().subrange(0, n), field, initial) == (if field < n {
            None
        } else {
            initial
        }),
    decreases n,
{
    let s = all_cleared().subrange(0, n);
    if n > 0 {
        assert(s.drop_last() =~= all_cleared().subrange(0, n - 1));
        assert(s.last() == all_cleared()[n - 1]);
        lemma_all_cleared(n - 1, field, initial);
    }
}

/// Tables that differ only under access-grant and blob keys are consistent
/// together.
pub proof fn lemma_consistent_but_grants(
    before: Map<Seq<u8>, Seq<u8>>,
    after: Map<Seq<u8>, Seq<u8>>,
)
    requires
        consistent(before),
        forall|k: KeyView|
            k.wf() && !(k is Acl) && !(k is Blob) ==> #[trigger] raw(after, k) == raw(before, k),
    ensures
        consistent(after),
{
    lemma_ledger_unchanged(before, after);
    assert forall|bk: BitmapKey<Seq<u8>>| bk.wf() implies #[trigger] posting_ok(after, bk) by {
        assert(raw(after, KeyView::Bitmap(bk)) == raw(before, KeyView::Bitmap(bk)));
        assert(posting_ok(before, bk));
    }
    assert forall|bk: BitmapKey<Seq<u8>>, d: u32|
        bk.wf() && bk.family != BM_DOCUMENT_IDS implies (#[trigger] posting(after, bk).contains(d)
        <==> crate::index::stored_postings(
        raw(after, KeyView::Value(value_key_of(bk, d))),
    ).contains((bk.family, bk.key))) by {
        let vk = KeyView::Value(value_key_of(bk, d));
        assert(raw(after, KeyView::Bitmap(bk)) == raw(before, KeyView::Bitmap(bk)));
        assert(raw(after, vk) == raw(before, vk));
        assert(posting(before, bk).contains(d) <==> crate::index::stored_postings(
            raw(before, vk),
        ).contains((bk.family, bk.key)));
    }
    assert forall|ik: IndexKey<Seq<u8>>| #[trigger]
        raw(after, KeyView::Index(ik)) is Some <==> crate::index::sort_payload(
            raw(after, KeyView::Value(sorted_field(ik))),
        ) == Some(ik.key) by {
        let k = KeyView::Index(ik);
        let vk = KeyView::Value(sorted_field(ik));
        assert(raw(after, k) == raw(before, k));
        assert(raw(after, vk) == raw(before, vk));
        assert(raw(before, k) is Some <==> crate::index::sort_payload(raw(before, vk)) == Some(
            ik.key,
        ));
    }
    assert forall|a: u32, c: u8| #[trigger] live(after, a, c) == live(before, a, c) by {
        lemma_live_key(a, c);
        assert(raw(after, KeyView::Bitmap(live_key(a, c))) == raw(
            before,
            KeyView::Bitmap(live_key(a, c)),
        ));
    }
    assert forall|vk: ValueKey| #[trigger] raw(after, KeyView::Value(vk)) is Some implies live(
        after,
        vk.account_id,
        vk.collection,
    ).contains(vk.document_id) by {
        assert(raw(after, KeyView::Value(vk)) == raw(before, KeyView::Value(vk)));
        assert(live(after, vk.account_id, vk.collection) == live(
            before,
            vk.account_id,
            vk.collection,
        ));
    }
    assert forall|a: u32, c: u8, d: u32| #[trigger] live(after, a, c).contains(d) implies 1 <= d
        <= last_document(after, a, c) by {
        assert(live(after, a, c) == live(before, a, c));
        assert(live(before, a, c).contains(d));
        assert(last_document(after, a, c) == last_document(before, a, c));
    }
    assert forall|vk: ValueKey| #[trigger] raw(after, KeyView::Value(vk)) is Some implies raw(
        after,
        KeyView::Value(vk),
    )->0.len() > 0 by {
        assert(raw(after, KeyView::Value(vk)) == raw(before, KeyView::Value(vk)));
    }
}

/// A table from which the grants and links of a document were taken, or
/// that is as it was, is as fit for a write as it was.
proof fn lemma_write_after_cleaning(
    m0: Map<Seq<u8>, Seq<u8>>,
    mc: Map<Seq<u8>, Seq<u8>>,
    account_id: u32,
    collection: u8,
    kind: ChangeKind,
    document_id: u32,
)
    requires
        mc == m0 || cleaned(m0, mc, account_id, collection, document_id),
    ensures
        consistent(m0) ==> consistent(mc),
        blobs_kept(m0) ==> blobs_kept(mc),
        live(mc, account_id, collection) == live(m0, account_id, collection),
        can_write(mc, account_id, collection, kind, document_id) == can_write(
            m0,
            account_id,
            collection,
            kind,
            document_id,
        ),
{
    if mc != m0 {
        assert forall|k: KeyView| k.wf() && !(k is Acl) && !(k is Blob) implies #[trigger] raw(mc, k)
            == raw(m0, k) by {}
        if consistent(m0) {
            lemma_consistent_but_grants(m0, mc);
        }
        lemma_ledger_unchanged(m0, mc);
        lemma_live_key(account_id, collection);
        assert(raw(mc, KeyView::Bitmap(live_key(account_id, collection))) == raw(
            m0,
            KeyView::Bitmap(live_key(account_id, collection)),
        ));
    }
}

/// Tables with the same blob keys keep their payloads alike.
pub proof fn lemma_blobs_unchanged(before: Map<Seq<u8>, Seq<u8>>, after: Map<Seq<u8>, Seq<u8>>)
    requires
        forall|k: KeyView| k.wf() && k is Blob ==> #[trigger] raw(after, k) == raw(before, k),
    ensures
        blobs_kept(before) ==> blobs_kept(after),
{
    if blobs_kept(before) {
        assert forall|a: u32, c: u8, h: Seq<u8>| #[trigger]
            raw(after, KeyView::Blob(crate::blob_model::content_key(a, c, h)))
                is Some <==> crate::blob_model::referenced(after, a, c, h) by {
            let k = KeyView::Blob(crate::blob_model::content_key(a, c, h));
            assert(k.wf());
            assert(raw(after, k) == raw(before, k));
            assert(raw(before, k) is Some <==> crate::blob_model::referenced(before, a, c, h));
            if crate::blob_model::referenced(before, a, c, h) {
                let d = choose|d: u32|
                    d != 0 && (#[trigger] raw(
                        before,
                        KeyView::Blob(crate::blob_model::link_key(a, c, d, h)),
                    )) is Some;
                let lk = KeyView::Blob(crate::blob_model::link_key(a, c, d, h));
                assert(lk.wf());
                assert(raw(after, lk) == raw(before, lk));
            }
            if crate::blob_model::referenced(after, a, c, h) {
                let d = choose|d: u32|
                    d != 0 && (#[trigger] raw(
                        after,
                        KeyView::Blob(crate::blob_model::link_key(a, c, d, h)),
                    )) is Some;
                let lk = KeyView::Blob(crate::blob_model::link_key(a, c, d, h));
                assert(lk.wf());
                assert(raw(after, lk) == raw(before, lk));
            }
        }
    }
}

/// A write after the grants and links of the document were taken out is the
/// write of a deletion; a write on the table as it was is the write.
proof fn lemma_written_after_cleaning(
    m0: Map<Seq<u8>, Seq<u8>>,
    mc: Map<Seq<u8>, Seq<u8>>,
    m3: Map<Seq<u8>, Seq<u8>>,
    account_id: u32,
    collection: u8,
    change: Change,
    changes: Seq<FieldChange>,
)
    requires
        written_with(mc, m3, account_id, collection, change, changes, true),
        change.kind is Delete ==> cleaned(m0, mc, account_id, collection, change.document_id),
        !(change.kind is Delete) ==> mc == m0,
    ensures
        written(m0, m3, account_id, collection, change, changes),
        blobs_kept(m0) ==> blobs_kept(m3),
{
    let document_id = change.document_id;
    assert forall|k: KeyView| k.wf() && k is Blob implies #[trigger] raw(m3, k) == raw(mc, k) by {}
    lemma_blobs_unchanged(mc, m3);
    if change.kind is Delete {
        assert forall|k: KeyView| k.wf() && !(k is Acl) && !(k is Blob) implies #[trigger] raw(mc, k)
            == raw(m0, k) by {}
        lemma_ledger_unchanged(m0, mc);
        lemma_live_key(account_id, collection);
        assert(raw(mc, KeyView::Bitmap(live_key(account_id, collection))) == raw(
            m0,
            KeyView::Bitmap(live_key(account_id, collection)),
        ));
        assert forall|field: u8| #[trigger]
            raw(m3, KeyView::Value(field_key(account_id, collection, document_id, field)))
                == field_after(
                changes,
                field,
                raw(m0, KeyView::Value(field_key(account_id, collection, document_id, field))),
            ) by {
            let k = KeyView::Value(field_key(account_id, collection, document_id, field));
            assert(k.wf());
            assert(raw(mc, k) == raw(m0, k));
        }
        assert forall|k: KeyView|
            k.wf() && !(k is Bitmap) && !(k is Log) && !is_field_of(
                k,
                account_id,
                collection,
                document_id,
            ) && !is_index_of(k, account_id, collection, document_id) && !(k is Acl || k
                is Blob) implies #[trigger] raw(m3, k) == raw(m0, k) by {
            assert(raw(m3, k) == raw(mc, k));
            assert(raw(mc, k) == raw(m0, k));
        }
        assert forall|bk: BitmapKey<Seq<u8>>, other: u32|
            bk.wf() && other != document_id implies (#[trigger] posting(m3, bk).contains(other)
            <==> posting(m0, bk).contains(other)) by {
            assert(raw(mc, KeyView::Bitmap(bk)) == raw(m0, KeyView::Bitmap(bk)));
            assert(posting(m3, bk).contains(other) <==> posting(mc, bk).contains(other));
        }
        assert forall|a: u32, c: u8, id: u64|
            (a != account_id || c != collection) implies #[trigger] change_at(m3, a, c, id)
            == change_at(m0, a, c, id) by {
            assert(change_at(m3, a, c, id) == change_at(mc, a, c, id));
            assert(change_at(mc, a, c, id) == change_at(m0, a, c, id));
        }
        assert forall|id: u64| id != change.change_id implies #[trigger] change_at(
            m3,
            account_id,
            collection,
            id,
        ) == change_at(m0, account_id, collection, id) by {
            assert(change_at(m3, account_id, collection, id) == change_at(
                mc,
                account_id,
                collection,
                id,
            ));
            assert(change_at(mc, account_id, collection, id) == change_at(
                m0,
                account_id,
                collection,
                id,
            ));
        }
        // Grants and blob keys are after the write what the cleaning left.
        assert forall|k: KeyView| k.wf() && (k is Acl || k is Blob) implies #[trigger] raw(m3, k)
            == raw(mc, k) by {}
        assert(cleaned_keys(m0, m3, account_id, collection, document_id)) by {
            assert forall|k: KeyView|
                k.wf() && k is Acl && !crate::blob_model::is_grant_on(
                    k,
                    account_id,
                    collection,
                    document_id,
                ) implies #[trigger] raw(m3, k) == raw(m0, k) by {
                assert(raw(m3, k) == raw(mc, k));
            }
            assert forall|k: KeyView|
                k.wf() && (crate::blob_model::is_grant_on(k, account_id, collection, document_id)
                    || crate::blob_model::is_blob_of(
                    k,
                    account_id,
                    collection,
                    document_id,
                )) implies #[trigger] raw(m3, k) is None by {
                assert(raw(m3, k) == raw(mc, k));
            }
            assert forall|bk: crate::keys::BlobKey<Seq<u8>>|
                bk.document_id != 0 && !crate::blob_model::is_blob_of(
                    KeyView::Blob(bk),
                    account_id,
                    collection,
                    document_id,
                ) implies #[trigger] raw(m3, KeyView::Blob(bk)) == raw(m0, KeyView::Blob(bk)) by {
                assert(KeyView::Blob(bk).wf());
                assert(raw(m3, KeyView::Blob(bk)) == raw(mc, KeyView::Blob(bk)));
            }
            assert forall|bk: crate::keys::BlobKey<Seq<u8>>|
                bk.document_id == 0 implies #[trigger] raw(m3, KeyView::Blob(bk)) == raw(
                m0,
                KeyView::Blob(bk),
            ) || raw(m3, KeyView::Blob(bk)) is None by {
                assert(KeyView::Blob(bk).wf());
                assert(raw(m3, KeyView::Blob(bk)) == raw(mc, KeyView::Blob(bk)));
            }
        }
    }
}

/// The changes that clear every field of a document, as a list.
fn clear_all() -> (clears: Vec<FieldChange>)
    ensures
        clears@ == all_cleared(),
        forall|field: u8, initial: Option<Seq<u8>>| #[trigger]
            field_after(clears@, field, initial) is None,
{
    let mut clears: Vec<FieldChange> = Vec::new();
    let mut next: u16 = 0;
    while next < 256
        invariant
            next <= 256,
            clears@.len() == next,
            forall|i: int| 0 <= i < clears@.len() ==> #[trigger] clears@[i] == all_cleared()[i],
        decreases 256 - next,
    {
        clears.push(FieldChange { field: next as u8, value: None });
        next += 1;
    }
    assert(clears@ =~= all_cleared());
    proof {
        assert forall|f: u8, initial: Option<Seq<u8>>| #[trigger]
            field_after(all_cleared(), f, initial) is None by {
            lemma_all_cleared(256, f, initial);
            assert(all_cleared().subrange(0, 256) =~= all_cleared());
        }
    }
    clears
}

/// Makes one write inside a transaction. The grants and links of a
/// document that is destroyed go first; then its fields, the set of live
/// documents and the ledger are written.
fn write_in(
    txn: &mut Txn,
    account_id: u32,
    collection: u8,
    kind: ChangeKind,
    document_id: u32,
    changes: &[FieldChange],
) -> (r: Result<Change, Error>)
    requires
        old(txn).wf(),
        kind is Delete ==> forall|field: u8, initial: Option<Seq<u8>>| #[trigger]
            field_after(changes@, field, initial) is None,
    ensures
        final(txn).wf(),
        final(txn).base() == old(txn).base(),
        r matches Ok(change) ==> change.kind == kind && (kind is Insert || change.document_id
            == document_id) && written(
            old(txn)@,
            final(txn)@,
            account_id,
            collection,
            change,
            changes@,
        ),
        consistent(old(txn)@) ==> (r is Ok <==> can_write(
            old(txn)@,
            account_id,
            collection,
            kind,
            document_id,
        )),
        consistent(old(txn)@) ==> (r matches Err(e) && e is NotFound <==> !(kind is Insert) && !live(
            old(txn)@,
            account_id,
            collection,
        ).contains(document_id)),
        kind is Insert ==> (r matches Err(e) ==> e is InternalError),
        r is Ok && consistent(old(txn)@) ==> consistent(final(txn)@),
        r is Ok && blobs_kept(old(txn)@) ==> blobs_kept(final(txn)@),
{
    let ghost m0 = txn@;
    match kind {
        ChangeKind::Delete => {
            if document_id == 0 {
                proof {
                    if consistent(m0) {
                        assert(!live(m0, account_id, collection).contains(0u32));
                    }
                }
                return Err(Error::NotFound);
            }
            remove_document_keys(txn, account_id, collection, document_id);
        },
        _ => {},
    }
    let ghost mc = txn@;
    proof {
        lemma_write_after_cleaning(m0, mc, account_id, collection, kind, document_id);
    }
    match write_document(txn, account_id, collection, kind, document_id, changes) {
        Ok(change) => {
            proof {
                lemma_written_after_cleaning(m0, mc, txn@, account_id, collection, change, changes@);
            }
            Ok(change)
        },
        Err(e) => Err(e),
    }
}

/// One write of a batch: what is done, and to which document. For a
/// creation the document id is not looked at, and for a deletion the changes
/// are not.
#[derive(Debug)]
pub struct Mutation {
    pub kind: ChangeKind,
    pub document_id: u32,
    pub changes: Vec<FieldChange>,
}

/// What a batch that went through reports: the ledger entry of each of its
/// writes, and the changes that were made to the table.
#[derive(Debug)]
pub struct BatchWritten {
    pub changes: Vec<Change>,
    pub ops: Vec<Op>,
}

/// The changes to the fields that a write of a batch makes.
pub open spec fn effective(mutation: Mutation) -> Seq<FieldChange> {
    if mutation.kind is Delete {
        all_cleared()
    } else {
        mutation.changes@
    }
}

/// What a batch does to the table: each of its writes, one after the
/// other, each on the table that the one before it left.
pub open spec fn batch_written(
    before: Map<Seq<u8>, Seq<u8>>,
    after: Map<Seq<u8>, Seq<u8>>,
    account_id: u32,
    collection: u8,
    mutations: Seq<Mutation>,
    changes: Seq<Change>,
) -> bool
    decreases mutations.len(),
{
    if mutations.len() == 0 {
        changes.len() == 0 && after == before
    } else {
        changes.len() == mutations.len() && changes.last().kind == mutations.last().kind && (
        changes.last().kind is Insert || changes.last().document_id
            == mutations.last().document_id) && exists|mid: Map<Seq<u8>, Seq<u8>>|
            batch_written(
                before,
                mid,
                account_id,
                collection,
                mutations.drop_last(),
                changes.drop_last(),
            ) && #[trigger] written(
                mid,
                after,
                account_id,
                collection,
                changes.last(),
                effective(mutations.last()),
            )
    }
}

/// How far the writes of a batch get: through, with the live documents and
/// the counters of the collection as the writes leave them, or to a write to
/// a document that is not live, or to a write for which the numbers of the
/// collection are used up.
pub enum Progress {
    Through { live: Set<u32>, last_change: u64, last_document: u32 },
    Missing,
    UsedUp,
}

/// Where a collection stands before a batch.
pub open spec fn standing(m: Map<Seq<u8>, Seq<u8>>, account_id: u32, collection: u8) -> Progress {
    Progress::Through {
        live: live(m, account_id, collection),
        last_change: last_change(m, account_id, collection),
        last_document: last_document(m, account_id, collection),
    }
}

/// How far a batch gets with one more write. A write that is no creation
/// wants its document live; every write wants a change number, and a
/// creation a document id. A creation makes the next document live, a
/// deletion takes its document out of the live ones.
pub open spec fn progress_after(so_far: Progress, kind: ChangeKind, document_id: u32) -> Progress {
    match so_far {
        Progress::Through { live, last_change, last_document } => {
            if !(kind is Insert) && !live.contains(document_id) {
                Progress::Missing
            } else if last_change >= u64::MAX || (kind is Insert && last_document >= u32::MAX) {
                Progress::UsedUp
            } else {
                Progress::Through {
                    live: match kind {
                        ChangeKind::Insert => live.insert((last_document + 1) as u32),
                        ChangeKind::Update => live,
                        ChangeKind::Delete => live.remove(document_id),
                    },
                    last_change: (last_change + 1) as u64,
                    last_document: if kind is Insert {
                        (last_document + 1) as u32
                    } else {
                        last_document
                    },
                }
            }
        },
        stopped => stopped,
    }
}

/// How far the writes of a batch get, taken in order from where the
/// collection stands: each write sees the documents that the writes before
/// it made and destroyed, and the first write that cannot be made stops the
/// batch.
pub open spec fn progress(start: Progress, mutations: Seq<Mutation>) -> Progress
    decreases mutations.len(),
{
    if mutations.len() == 0 {
        start
    } else {
        progress_after(
            progress(start, mutations.drop_last()),
            mutations.last().kind,
            mutations.last().document_id,
        )
    }
}

/// A batch that is stopped by one of its first writes is stopped there,
/// whatever follows.
proof fn lemma_progress_stopped(start: Progress, mutations: Seq<Mutation>, k: int)
    requires
        0 <= k <= mutations.len(),
        !(progress(start, mutations.subrange(0, k)) is Through),
    ensures
        progress(start, mutations) == progress(start, mutations.subrange(0, k)),
    decreases mutations.len() - k,
{
    if k == mutations.len() {
        assert(mutations.subrange(0, k) =~= mutations);
    } else {
        let shorter = mutations.drop_last();
        assert(shorter.subrange(0, k) =~= mutations.subrange(0, k));
        lemma_progress_stopped(start, shorter, k);
    }
}

/// A write that goes through on a table takes the collection one step
/// further.
proof fn lemma_progress_written(
    before: Map<Seq<u8>, Seq<u8>>,
    after: Map<Seq<u8>, Seq<u8>>,
    account_id: u32,
    collection: u8,
    change: Change,
    changes: Seq<FieldChange>,
    document_id: u32,
)
    requires
        written(before, after, account_id, collection, change, changes),
        change.kind is Insert || change.document_id == document_id,
        can_write(before, account_id, collection, change.kind, document_id),
    ensures
        standing(after, account_id, collection) == progress_after(
            standing(before, account_id, collection),
            change.kind,
            document_id,
        ),
{
}

/// A write that cannot be made on a table stops the batch: at a document
/// that is not live, or else at numbers that are used up.
proof fn lemma_progress_refused(
    before: Map<Seq<u8>, Seq<u8>>,
    account_id: u32,
    collection: u8,
    kind: ChangeKind,
    document_id: u32,
)
    requires
        !can_write(before, account_id, collection, kind, document_id),
    ensures
        !(progress_after(standing(before, account_id, collection), kind, document_id) is Through),
        progress_after(standing(before, account_id, collection), kind, document_id) is Missing
            <==> !(kind is Insert) && !live(before, account_id, collection).contains(document_id),
{
}

/// The writes of a batch carry the numbers that follow the last change
/// before the batch, one after the other.
pub proof fn lemma_batch_numbers(
    before: Map<Seq<u8>, Seq<u8>>,
    after: Map<Seq<u8>, Seq<u8>>,
    account_id: u32,
    collection: u8,
    mutations: Seq<Mutation>,
    changes: Seq<Change>,
)
    requires
        batch_written(before, after, account_id, collection, mutations, changes),
    ensures
        last_change(after, account_id, collection) == last_change(before, account_id, collection)
            + changes.len(),
        forall|i: int|
            0 <= i < changes.len() ==> (#[trigger] changes[i]).change_id == last_change(
                before,
                account_id,
                collection,
            ) + 1 + i,
    decreases mutations.len(),
{
    if mutations.len() > 0 {
        let mid = choose|mid: Map<Seq<u8>, Seq<u8>>|
            batch_written(
                before,
                mid,
                account_id,
                collection,
                mutations.drop_last(),
                changes.drop_last(),
            ) && #[trigger] written(
                mid,
                after,
                account_id,
                collection,
                changes.last(),
                effective(mutations.last()),
            );
        lemma_batch_numbers(
            before,
            mid,
            account_id,
            collection,
            mutations.drop_last(),
            changes.drop_last(),
        );
        assert forall|i: int| 0 <= i < changes.len() implies (#[trigger] changes[i]).change_id
            == last_change(before, account_id, collection) + 1 + i by {
            if i < changes.len() - 1 {
                assert(changes[i] == changes.drop_last()[i]);
            }
        }
    }
}

impl View for Store {
    type V = Map<Seq<u8>, Seq<u8>>;

    /// The table of the store.
    closed spec fn view(&self) -> Map<Seq<u8>, Seq<u8>> {
        self.table@
    }
}

impl Store {
    /// The table is in key order.
    pub closed spec fn wf(&self) -> bool {
        self.table.wf()
    }

    /// The keys and values of the table in key order.
    pub closed spec fn ordered(&self) -> Seq<(Seq<u8>, Seq<u8>)> {
        self.table.ordered()
    }

    /// The store is well formed, its table consistent, and its payloads
    /// kept exactly as long as something links to them.
    pub open spec fn inv(&self) -> bool {
        self.wf() && consistent(self@) && blobs_kept(self@)
    }

    /// An empty store.
    pub fn new() -> (s: Store)
        ensures
            s.inv(),
            s@ == Map::<Seq<u8>, Seq<u8>>::empty(),
    {
        let s = Store { table: Table::new() };
        assert(consistent(s@));
        assert(blobs_kept(s@));
        s
    }

    /// A store over a table that was filled elsewhere.
    pub fn from_table(table: Table) -> (s: Store)
        requires
            table.wf(),
        ensures
            s.wf(),
            s@ == table@,
    {
        Store { table }
    }

    /// The table of the store.
    pub fn table(&self) -> (t: &Table)
        ensures
            t@ == self@,
            t.wf() == self.wf(),
            t.ordered() == self.ordered(),
    {
        &self.table
    }

    /// Puts the result of a transaction on the table of the store in place.
    pub(crate) fn commit(&mut self, txn: Txn) -> (ops: Vec<Op>)
        requires
            old(self).wf(),
            txn.wf(),
            txn.base() == old(self)@,
        ensures
            final(self).wf(),
            final(self)@ == txn@,
            final(self)@ == apply_ops(old(self)@, ops@),
    {
        let (table, ops) = txn.finish();
        self.table = table;
        ops
    }

    /// Runs one write as a transaction and puts its result in place.
    fn write(
        &mut self,
        account_id: u32,
        collection: u8,
        kind: ChangeKind,
        document_id: u32,
        changes: &[FieldChange],
    ) -> (r: Result<Written, Error>)
        requires
            old(self).wf(),
            kind is Delete ==> forall|field: u8, initial: Option<Seq<u8>>| #[trigger]
                field_after(changes@, field, initial) is None,
        ensures
            final(self).wf(),
            r is Err ==> final(self)@ == old(self)@,
            r matches Ok(w) ==> final(self)@ == apply_ops(old(self)@, w.ops@) && (kind is Insert
                || w.document_id == document_id) && written(
                old(self)@,
                final(self)@,
                account_id,
                collection,
                Change { change_id: w.change_id, document_id: w.document_id, kind },
                changes@,
            ),
            old(self).inv() ==> (r is Ok <==> can_write(
                old(self)@,
                account_id,
                collection,
                kind,
                document_id,
            )),
            old(self).inv() ==> (r matches Err(e) && e is NotFound <==> !(kind is Insert) && !live(
                old(self)@,
                account_id,
                collection,
            ).contains(document_id)),
            kind is Insert ==> (r matches Err(e) ==> e is InternalError),
            old(self).inv() && r is Ok ==> final(self).inv(),
    {
        let mut txn = Txn::begin(&self.table);
        match write_in(&mut txn, account_id, collection, kind, document_id, changes) {
            Ok(change) => {
                let ops = self.commit(txn);
                Ok(Written { document_id: change.document_id, change_id: change.change_id, ops })
            },
            Err(e) => Err(e),
        }
    }

    /// Makes a list of writes to the documents of one collection as one
    /// transaction: either every one of them reaches the table, in the
    /// order of the list, or none does.
    ///
    /// On a consistent store the batch goes through exactly where each of
    /// its writes can be made on what the writes before it left. It fails
    /// with `NotFound` where the first write that cannot be made is to a
    /// document that is not live, and with an internal error where that
    /// write finds the numbers of the collection used up.
    pub fn write_batch(&mut self, account_id: u32, collection: u8, mutations: &[Mutation]) -> (r:
        Result<BatchWritten, Error>)
        requires
            old(self).wf(),
        ensures
            final(self).wf(),
            r is Err ==> final(self)@ == old(self)@,
            r matches Ok(w) ==> final(self)@ == apply_ops(old(self)@, w.ops@) && batch_written(
                old(self)@,
                final(self)@,
                account_id,
                collection,
                mutations@,
                w.changes@,
            ),
            old(self).inv() ==> (r is Ok <==> progress(
                standing(old(self)@, account_id, collection),
                mutations@,
            ) is Through),
            old(self).inv() ==> (r matches Err(e) && e is NotFound <==> progress(
                standing(old(self)@, account_id, collection),
                mutations@,
            ) is Missing),
            old(self).inv() && r is Ok ==> progress(
                standing(old(self)@, account_id, collection),
                mutations@,
            ) == standing(final(self)@, account_id, collection),
            old(self).inv() && r is Ok ==> final(self).inv(),
    {
        let ghost m0 = self@;
        let ghost start = standing(m0, account_id, collection);
        let mut txn = Txn::begin(&self.table);
        let mut out: Vec<Change> = Vec::new();
        let mut i: usize = 0;
        assert(mutations@.subrange(0, 0) =~= Seq::<Mutation>::empty());
        while i < mutations.len()
            invariant
                i <= mutations@.len(),
                self.wf(),
                self@ == m0,
                m0 == old(self)@,
                txn.wf(),
                txn.base() == m0,
                out@.len() == i,
                batch_written(
                    m0,
                    txn@,
                    account_id,
                    collection,
                    mutations@.subrange(0, i as int),
                    out@,
                ),
                consistent(m0) && blobs_kept(m0) ==> consistent(txn@) && blobs_kept(txn@),
                start == standing(m0, account_id, collection),
                consistent(m0) && blobs_kept(m0) ==> progress(
                    start,
                    mutations@.subrange(0, i as int),
                ) == standing(txn@, account_id, collection),
            decreases mutations@.len() - i,
        {
            let ghost mid = txn@;
            let ghost done = mutations@.subrange(0, i as int);
            let ghost had = out@;
            let mutation = &mutations[i];
            let outcome = match mutation.kind {
                ChangeKind::Delete => {
                    let clears = clear_all();
                    write_in(
                        &mut txn,
                        account_id,
                        collection,
                        ChangeKind::Delete,
                        mutation.document_id,
                        clears.as_slice(),
                    )
                },
                kind => write_in(
                    &mut txn,
                    account_id,
                    collection,
                    kind,
                    mutation.document_id,
                    mutation.changes.as_slice(),
                ),
            };
            let ghost next = mutations@.subrange(0, i + 1);
            proof {
                assert(next.drop_last() =~= done);
                assert(next.last() == mutations@[i as int]);
            }
            match outcome {
                Ok(change) => {
                    out.push(change);
                },
                Err(e) => {
                    proof {
                        if consistent(m0) && blobs_kept(m0) {
                            lemma_progress_refused(
                                mid,
                                account_id,
                                collection,
                                mutation.kind,
                                mutation.document_id,
                            );
                            lemma_progress_stopped(start, mutations@, i + 1);
                        }
                    }
                    return Err(e);
                },
            }
            proof {
                assert(out@.drop_last() =~= had);
                assert(written(
                    mid,
                    txn@,
                    account_id,
                    collection,
                    out@.last(),
                    effective(next.last()),
                ));
                if consistent(m0) && blobs_kept(m0) {
                    lemma_progress_written(
                        mid,
                        txn@,
                        account_id,
                        collection,
                        out@.last(),
                        effective(next.last()),
                        mutation.document_id,
                    );
                }
            }
            i += 1;
        }
        assert(mutations@.subrange(0, i as int) =~= mutations@);
        let ops = self.commit(txn);
        Ok(BatchWritten { changes: out, ops })
    }

    /// Creates a document with the given fields in a collection. The
    /// document gets the id after that of the last document created there,
    /// and the change the number after the last change.
    ///
    /// Nothing is written unless everything is. On a consistent store the
    /// creation goes through unless the ids or the change numbers of the
    /// collection are used up, which is an internal error.
    pub fn create(&mut self, account_id: u32, collection: u8, fields: &[FieldChange]) -> (r: Result<
        Written,
        Error,
    >)
        requires
            old(self).wf(),
        ensures
            final(self).wf(),
            r is Err ==> final(self)@ == old(self)@,
            r matches Ok(w) ==> final(self)@ == apply_ops(old(self)@, w.ops@) && written(
                old(self)@,
                final(self)@,
                account_id,
                collection,
                Change {
                    change_id: w.change_id,
                    document_id: w.document_id,
                    kind: ChangeKind::Insert,
                },
                fields@,
            ),
            old(self).inv() ==> (r is Ok <==> last_change(old(self)@, account_id, collection)
                < u64::MAX && last_document(old(self)@, account_id, collection) < u32::MAX),
            r matches Err(e) ==> e is InternalError,
            old(self).inv() && r is Ok ==> final(self).inv(),
    {
        self.write(account_id, collection, ChangeKind::Insert, 0, fields)
    }

    /// Changes fields of a live document.
    ///
    /// Nothing is written unless everything is. On a consistent store the
    /// update fails with `NotFound` exactly where the document is not live,
    /// and otherwise goes through unless the change numbers of the
    /// collection are used up.
    pub fn update(
        &mut self,
        account_id: u32,
        collection: u8,
        document_id: u32,
        changes: &[FieldChange],
    ) -> (r: Result<Written, Error>)
        requires
            old(self).wf(),
        ensures
            final(self).wf(),
            r is Err ==> final(self)@ == old(self)@,
            r matches Ok(w) ==> final(self)@ == apply_ops(old(self)@, w.ops@) && w.document_id
                == document_id && written(
                old(self)@,
                final(self)@,
                account_id,
                collection,
                Change { change_id: w.change_id, document_id, kind: ChangeKind::Update },
                changes@,
            ),
            old(self).inv() ==> (r is Ok <==> live(old(self)@, account_id, collection).contains(
                document_id,
            ) && last_change(old(self)@, account_id, collection) < u64::MAX),
            old(self).inv() ==> (r matches Err(e) && e is NotFound <==> !live(
                old(self)@,
                account_id,
                collection,
            ).contains(document_id)),
            old(self).inv() && r is Ok ==> final(self).inv(),
    {
        self.write(account_id, collection, ChangeKind::Update, document_id, changes)
    }

    /// Destroys a live document: every field and every index entry of it
    /// goes, it leaves the live documents, and the ledger gains a tombstone.
    ///
    /// Nothing is written unless everything is. On a consistent store the
    /// deletion fails with `NotFound` exactly where the document is not
    /// live, and otherwise goes through unless the change numbers of the
    /// collection are used up.
    pub fn delete(&mut self, account_id: u32, collection: u8, document_id: u32) -> (r: Result<
        Written,
        Error,
    >)
        requires
            old(self).wf(),
        ensures
            final(self).wf(),
            r is Err ==> final(self)@ == old(self)@,
            r matches Ok(w) ==> final(self)@ == apply_ops(old(self)@, w.ops@) && w.document_id
                == document_id && written(
                old(self)@,
                final(self)@,
                account_id,
                collection,
                Change { change_id: w.change_id, document_id, kind: ChangeKind::Delete },
                all_cleared(),
            ),
            old(self).inv() ==> (r is Ok <==> live(old(self)@, account_id, collection).contains(
                document_id,
            ) && last_change(old(self)@, account_id, collection) < u64::MAX),
            old(self).inv() ==> (r matches Err(e) && e is NotFound <==> !live(
                old(self)@,
                account_id,
                collection,
            ).contains(document_id)),
            old(self).inv() && r is Ok ==> final(self).inv(),
    {
        let clears = clear_all();
        self.write(account_id, collection, ChangeKind::Delete, document_id, clears.as_slice())
    }

    /// The stored text of a field of a document. `NotFound` where the field
    /// has no record; a record without its options byte is corruption.
    pub fn get_value(&self, account_id: u32, collection: u8, document_id: u32, field: u8) -> (r:
        Result<Vec<u8>, Error>)
        requires
            self.wf(),
        ensures
            match raw(
                self@,
                KeyView::Value(field_key(account_id, collection, document_id, field)),
            ) {
                None => r matches Err(e) && e is NotFound,
                Some(record) => if record.len() == 0 {
                    r matches Err(e) && e is InternalError
                } else {
                    r matches Ok(text) && text@ == record.skip(1)
                },
            },
    {
        let key = ValueKey { account_id, collection, document_id, field }.encode();
        match self.table.get(key.as_slice()) {
            None => Err(Error::NotFound),
            Some(record) => {
                if record.len() == 0 {
                    Err(Error::InternalError("corrupt record".to_owned()))
                } else {
                    let text = crate::codec::copy_range(record, 1, record.len());
                    assert(record@.subrange(1, record@.len() as int) =~= record@.skip(1));
                    Ok(text)
                }
            },
        }
    }

    /// The posting list under a bitmap key. `NotFound` where the key is
    /// absent, which it always is where the family byte names no family;
    /// bytes that are no posting list are corruption.
    pub fn get_bitmap(
        &self,
        account_id: u32,
        collection: u8,
        family: u8,
        field: u8,
        payload: &[u8],
    ) -> (r: Result<crate::bitmap::Bitmap, Error>)
        requires
            self.wf(),
        ensures
            ({
                let bk = BitmapKey::<Seq<u8>> {
                    account_id,
                    collection,
                    family,
                    field,
                    key: payload@,
                };
                if !bk.wf() || raw(self@, KeyView::Bitmap(bk)) is None {
                    r matches Err(e) && e is NotFound
                } else if !posting_ok(self@, bk) {
                    r matches Err(e) && e is InternalError
                } else {
                    r matches Ok(b) && b.wf() && b@ == posting(self@, bk)
                }
            }),
    {
        if BitmapFamily::from_byte(family).is_none() {
            return Err(Error::NotFound);
        }
        let bk = BitmapKey {
            account_id,
            collection,
            family,
            field,
            key: crate::codec::copy_bytes(payload),
        };
        let key = bk.encode();
        if !self.table.contains_key(key.as_slice()) {
            return Err(Error::NotFound);
        }
        self.table.read_posting(&bk)
    }

    /// The live documents of a collection.
    pub fn document_ids(&self, account_id: u32, collection: u8) -> (r: Result<
        crate::bitmap::Bitmap,
        Error,
    >)
        requires
            self.wf(),
        ensures
            r is Ok == posting_ok(self@, live_key(account_id, collection)),
            r matches Ok(b) ==> b.wf() && b@ == live(self@, account_id, collection),
            r matches Err(e) ==> e is InternalError,
    {
        let bk = BitmapKey {
            account_id,
            collection,
            family: BM_DOCUMENT_IDS,
            field: 0,
            key: Vec::new(),
        };
        assert(bk@ == live_key(account_id, collection));
        self.table.read_posting(&bk)
    }

    /// The changes of a collection after the change `since`, in the order
    /// of their numbers, which follow one another without a gap. It can be
    /// asked again with the same `since` and gives the same.
    pub fn get_changes(&self, account_id: u32, collection: u8, since: u64) -> (r: Result<
        Vec<Change>,
        Error,
    >)
        requires
            self.wf(),
        ensures
            r is Ok <==> crate::changelog::readable_since(self@, account_id, collection, since),
            self.inv() ==> r is Ok,
            r matches Ok(changes) ==> crate::changelog::changes_since(
                self@,
                account_id,
                collection,
                since,
                changes@,
            ),
            r matches Err(e) ==> e is InternalError,
    {
        self.table.read_changes(account_id, collection, since)
    }
}

} // verus!
