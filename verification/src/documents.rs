//! Writing the fields of one document inside a transaction.

use vstd::prelude::*;
use crate::error::Error;
use crate::index::{
    family_ok, indexed, lemma_stored_families, new_record, posting_after, postings_readable,
    record_bytes, sort_indexed, stored_postings, write_field, FieldValue,
};
use crate::key_space::KeyView;
use crate::keys::{BitmapKey, ValueKey, BM_DOCUMENT_IDS};
use crate::txn::{posting, raw, Txn};

verus! {

/// A change to one field of a document: a new value, or none to clear the
/// field.
#[derive(Debug, Clone, PartialEq, Eq)]
pub struct FieldChange {
    pub field: u8,
    pub value: Option<FieldValue>,
}

/// The record that a change leaves under the value key of its field.
pub open spec fn record_of(value: Option<FieldValue>) -> Option<Seq<u8>> {
    match value {
        Some(v) => Some(record_bytes(v.options, v.text@)),
        None => None,
    }
}

/// What is stored for `field` after a list of changes: what the last change
/// to that field left, or `initial` where no change names the field.
pub open spec fn field_after(
    changes: Seq<FieldChange>,
    field: u8,
    initial: Option<Seq<u8>>,
) -> Option<Seq<u8>>
    decreases changes.len(),
{
    if changes.len() == 0 {
        initial
    } else if changes.last().field == field {
        record_of(changes.last().value)
    } else {
        field_after(changes.drop_last(), field, initial)
    }
}

/// A record that changes leave has its options byte, where what was there
/// before had.
pub proof fn lemma_field_after_record(
    changes: Seq<FieldChange>,
    field: u8,
    initial: Option<Seq<u8>>,
)
    requires
        initial matches Some(r) ==> r.len() > 0,
    ensures
        field_after(changes, field, initial) matches Some(r) ==> r.len() > 0,
    decreases changes.len(),
{
    if changes.len() > 0 && changes.last().field != field {
        lemma_field_after_record(changes.drop_last(), field, initial);
    }
}

/// The value key of a field of a document.
pub open spec fn field_key(
    account_id: u32,
    collection: u8,
    document_id: u32,
    field: u8,
) -> ValueKey {
    ValueKey { account_id, collection, document_id, field }
}

/// Whether a key of the store is the value key of a field of the document.
pub open spec fn is_field_of(
    k: KeyView,
    account_id: u32,
    collection: u8,
    document_id: u32,
) -> bool {
    k matches KeyView::Value(vk) && vk.account_id == account_id && vk.collection == collection
        && vk.document_id == document_id
}

/// Whether a key of the store is a sort entry of a field of the document.
pub open spec fn is_index_of(
    k: KeyView,
    account_id: u32,
    collection: u8,
    document_id: u32,
) -> bool {
    k matches KeyView::Index(ik) && ik.account_id == account_id && ik.collection == collection
        && ik.document_id == document_id
}

/// What a table holds after the fields of one document were written, seen
/// from the table before: the fields of the document as the changes leave
/// them, every key that is neither a field of the document nor a bitmap key
/// as it was, and in the index only the membership of this document changed,
/// and not in the sets of live documents.
pub open spec fn fields_written(
    before: Map<Seq<u8>, Seq<u8>>,
    after: Map<Seq<u8>, Seq<u8>>,
    account_id: u32,
    collection: u8,
    document_id: u32,
    changes: Seq<FieldChange>,
) -> bool {
    &&& forall|field: u8| #[trigger]
        raw(after, KeyView::Value(field_key(account_id, collection, document_id, field)))
            == field_after(
            changes,
            field,
            raw(before, KeyView::Value(field_key(account_id, collection, document_id, field))),
        )
    &&& forall|k: KeyView|
        k.wf() && !(k is Bitmap) && !is_field_of(k, account_id, collection, document_id)
            && !is_index_of(k, account_id, collection, document_id) ==> #[trigger] raw(after, k)
            == raw(before, k)
    &&& forall|bk: BitmapKey<Seq<u8>>, other: u32|
        bk.wf() && other != document_id ==> (#[trigger] posting(after, bk).contains(other)
            <==> posting(before, bk).contains(other))
    &&& forall|bk: BitmapKey<Seq<u8>>|
        bk.wf() && bk.family == BM_DOCUMENT_IDS ==> #[trigger] posting(after, bk) == posting(
            before,
            bk,
        )
}

/// An entry list of records holds no entry of the family of live documents.
proof fn lemma_no_live_entry(stored: Option<Seq<u8>>, key: Seq<u8>)
    ensures
        !stored_postings(stored).contains((BM_DOCUMENT_IDS, key)),
{
    lemma_stored_families(stored);
    let list = stored_postings(stored);
    if list.contains((BM_DOCUMENT_IDS, key)) {
        let j = choose|j: int| 0 <= j < list.len() && list[j] == (BM_DOCUMENT_IDS, key);
        assert(family_ok(list[j].0));
    }
}

/// Writes the changed fields of one document, one after the other, keeping
/// the index in step. Fails only on a posting list that cannot be read.
pub fn apply_fields(
    txn: &mut Txn,
    account_id: u32,
    collection: u8,
    document_id: u32,
    changes: &[FieldChange],
) -> (r: Result<(), Error>)
    requires
        old(txn).wf(),
    ensures
        final(txn).wf(),
        final(txn).base() == old(txn).base(),
        postings_readable(old(txn)@) ==> r is Ok,
        r matches Err(e) ==> e is InternalError,
        r is Ok ==> fields_written(
            old(txn)@,
            final(txn)@,
            account_id,
            collection,
            document_id,
            changes@,
        ),
        r is Ok && postings_readable(old(txn)@) ==> postings_readable(final(txn)@),
        r is Ok && indexed(old(txn)@) ==> indexed(final(txn)@),
        r is Ok && sort_indexed(old(txn)@) ==> sort_indexed(final(txn)@),
{
    let ghost m0 = txn@;
    let mut i: usize = 0;
    assert(changes@.subrange(0, 0) =~= Seq::<FieldChange>::empty());
    while i < changes.len()
        invariant
            i <= changes@.len(),
            txn.wf(),
            txn.base() == old(txn).base(),
            m0 == old(txn)@,
            fields_written(
                m0,
                txn@,
                account_id,
                collection,
                document_id,
                changes@.subrange(0, i as int),
            ),
            postings_readable(m0) ==> postings_readable(txn@),
            indexed(m0) ==> indexed(txn@),
            sort_indexed(m0) ==> sort_indexed(txn@),
        decreases changes@.len() - i,
    {
        let ghost m = txn@;
        let ghost done = changes@.subrange(0, i as int);
        let ghost next = changes@.subrange(0, i + 1);
        let change = &changes[i];
        let key = ValueKey { account_id, collection, document_id, field: change.field };
        let value: Option<&FieldValue> = match &change.value {
            Some(v) => Some(v),
            None => None,
        };
        assert(new_record(value) == record_of(change.value));
        match write_field(txn, &key, value) {
            Ok(()) => {},
            Err(e) => {
                return Err(e);
            },
        }
        proof {
            let m1 = txn@;
            let before = stored_postings(raw(m, KeyView::Value(key)));
            let after = stored_postings(new_record(value));
            assert(next.drop_last() =~= done);
            assert(next.last() == changes@[i as int]);
            assert forall|field: u8| #[trigger]
                raw(m1, KeyView::Value(field_key(account_id, collection, document_id, field)))
                    == field_after(
                    next,
                    field,
                    raw(m0, KeyView::Value(field_key(account_id, collection, document_id, field))),
                ) by {
                let fk = field_key(account_id, collection, document_id, field);
                if field != change.field {
                    assert(KeyView::Value(fk).wf());
                    assert(raw(m1, KeyView::Value(fk)) == raw(m, KeyView::Value(fk)));
                }
            }
            assert forall|k: KeyView|
                k.wf() && !(k is Bitmap) && !is_field_of(k, account_id, collection, document_id)
                    && !is_index_of(
                    k,
                    account_id,
                    collection,
                    document_id,
                ) implies #[trigger] raw(m1, k) == raw(m0, k) by {
                assert(raw(m1, k) == raw(m, k));
            }
            assert forall|bk: BitmapKey<Seq<u8>>, other: u32|
                bk.wf() && other != document_id implies (#[trigger] posting(m1, bk).contains(other)
                <==> posting(m0, bk).contains(other)) by {
                assert(posting(m1, bk) == posting_after(m, bk, key, before, after));
                assert(posting(m, bk).contains(other) <==> posting(m0, bk).contains(other));
            }
            assert forall|bk: BitmapKey<Seq<u8>>|
                bk.wf() && bk.family == BM_DOCUMENT_IDS implies #[trigger] posting(m1, bk)
                == posting(m0, bk) by {
                assert(posting(m1, bk) == posting_after(m, bk, key, before, after));
                lemma_no_live_entry(raw(m, KeyView::Value(key)), bk.key);
                lemma_no_live_entry(new_record(value), bk.key);
                assert(posting(m, bk) == posting(m0, bk));
            }
        }
        i += 1;
    }
    assert(changes@.subrange(0, i as int) =~= changes@);
    Ok(())
}

} // verus!
