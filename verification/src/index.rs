//! Keeping the index in step with the stored records: when the record of a
//! field changes, the document leaves the posting lists that only the old
//! record asks for and enters those that only the new one asks for.

use vstd::prelude::*;
use vstd::slice::slice_subrange;
use crate::codec::{bytes_equal, copy_bytes};
use crate::error::Error;
use crate::fts::{
    bloom_postings, exact_postings, has_flag, posting_views, postings, postings_of,
    stemmed_postings, tokens, Posting, INDEX_BLOOM, INDEX_EXACT, INDEX_SORT, INDEX_STEMMED,
    INDEX_TAG,
};
use crate::key_space::KeyView;
use crate::keys::{
    BitmapFamily, BitmapKey, BloomKind, IndexKey, TagKind, TermKind, ValueKey, BM_DOCUMENT_IDS,
};
use crate::txn::{posting, posting_ok, raw, lemma_put_unchanged, Txn};

verus! {

/// What is stored for a field: how it is indexed, and its text.
#[derive(Debug, Clone, PartialEq, Eq)]
pub struct FieldValue {
    pub options: u8,
    pub text: Vec<u8>,
}

/// The stored record of a field: the options byte, then the text.
pub open spec fn record_bytes(options: u8, text: Seq<u8>) -> Seq<u8> {
    seq![options] + text
}

/// The index entries that a stored record asks for.
pub open spec fn record_postings(record: Seq<u8>) -> Seq<(u8, Seq<u8>)> {
    if record.len() == 0 {
        Seq::empty()
    } else {
        postings_of(record[0], record.skip(1))
    }
}

/// The index entries that what is stored under a value key asks for.
pub open spec fn stored_postings(stored: Option<Seq<u8>>) -> Seq<(u8, Seq<u8>)> {
    match stored {
        Some(record) => record_postings(record),
        None => Seq::empty(),
    }
}

/// The value key of the field that a bitmap key indexes, for a document.
pub open spec fn value_key_of(bk: BitmapKey<Seq<u8>>, document_id: u32) -> ValueKey {
    ValueKey {
        account_id: bk.account_id,
        collection: bk.collection,
        document_id,
        field: bk.field,
    }
}

/// Whether a bitmap key indexes the field of a value key.
pub open spec fn same_field(bk: BitmapKey<Seq<u8>>, key: ValueKey) -> bool {
    bk.account_id == key.account_id && bk.collection == key.collection && bk.field == key.field
}

/// The index agrees with the records: a document is in the posting list of
/// an entry if and only if the stored record of the field asks for that
/// entry.
pub open spec fn indexed(m: Map<Seq<u8>, Seq<u8>>) -> bool {
    forall|bk: BitmapKey<Seq<u8>>, document_id: u32|
        bk.wf() && bk.family != BM_DOCUMENT_IDS ==> (#[trigger] posting(m, bk).contains(document_id)
            <==> stored_postings(
            raw(m, KeyView::Value(value_key_of(bk, document_id))),
        ).contains((bk.family, bk.key)))
}

/// Every posting list of the table can be read.
pub open spec fn postings_readable(m: Map<Seq<u8>, Seq<u8>>) -> bool {
    forall|bk: BitmapKey<Seq<u8>>| bk.wf() ==> #[trigger] posting_ok(m, bk)
}

/// A family byte that an index entry of a record may carry.
pub open spec fn family_ok(family: u8) -> bool {
    BitmapFamily::of_byte(family) is Some && family != BM_DOCUMENT_IDS
}

/// The posting list under `bk` after the record under `key` went from one
/// that asks for the entries `before` to one that asks for `after`.
pub open spec fn posting_after(
    m: Map<Seq<u8>, Seq<u8>>,
    bk: BitmapKey<Seq<u8>>,
    key: ValueKey,
    before: Seq<(u8, Seq<u8>)>,
    after: Seq<(u8, Seq<u8>)>,
) -> Set<u32> {
    let entry = (bk.family, bk.key);
    if same_field(bk, key) && before.contains(entry) && !after.contains(entry) {
        posting(m, bk).remove(key.document_id)
    } else if same_field(bk, key) && after.contains(entry) && !before.contains(entry) {
        posting(m, bk).insert(key.document_id)
    } else {
        posting(m, bk)
    }
}

/// The family bytes that records ask for name families of the index.
proof fn lemma_family_bytes()
    ensures
        family_ok(0x10),
        family_ok(0x11),
        family_ok(0x14),
        family_ok(0x15),
        family_ok(0x21),
        family_ok(0x42),
{
    BitmapFamily::lemma_of_byte(BitmapFamily::Term { kind: TermKind::Exact, hashed: false });
    BitmapFamily::lemma_of_byte(BitmapFamily::Term { kind: TermKind::Stemmed, hashed: false });
    BitmapFamily::lemma_of_byte(BitmapFamily::Term { kind: TermKind::Exact, hashed: true });
    BitmapFamily::lemma_of_byte(BitmapFamily::Term { kind: TermKind::Stemmed, hashed: true });
    BitmapFamily::lemma_of_byte(BitmapFamily::Tag(TagKind::Text));
    BitmapFamily::lemma_of_byte(BitmapFamily::Bloom(BloomKind::Trigram));
}

/// Every index entry of a text carries the byte of a family of the index.
pub proof fn lemma_postings_families(options: u8, text: Seq<u8>)
    ensures
        forall|i: int|
            0 <= i < postings_of(options, text).len() ==> family_ok(
                (#[trigger] postings_of(options, text)[i]).0,
            ),
{
    lemma_family_bytes();
    let a = if has_flag(options, INDEX_EXACT) {
        exact_postings(tokens(text))
    } else {
        Seq::empty()
    };
    let b = if has_flag(options, INDEX_STEMMED) {
        stemmed_postings(tokens(text))
    } else {
        Seq::empty()
    };
    let c = if has_flag(options, INDEX_TAG) {
        seq![(0x21u8, text)]
    } else {
        Seq::empty()
    };
    let d = if has_flag(options, INDEX_BLOOM) {
        bloom_postings(text)
    } else {
        Seq::empty()
    };
    let all = postings_of(options, text);
    assert(all =~= a + b + c + d);
    assert forall|i: int| 0 <= i < all.len() implies family_ok((#[trigger] all[i]).0) by {
        if i < a.len() {
            assert(all[i] == a[i]);
        } else if i < a.len() + b.len() {
            assert(all[i] == b[i - a.len()]);
        } else if i < a.len() + b.len() + c.len() {
            assert(all[i] == c[i - a.len() - b.len()]);
        } else {
            assert(all[i] == d[i - a.len() - b.len() - c.len()]);
        }
    }
}

/// Every index entry of a stored record carries the byte of a family.
pub proof fn lemma_stored_families(stored: Option<Seq<u8>>)
    ensures
        forall|i: int|
            0 <= i < stored_postings(stored).len() ==> family_ok(
                (#[trigger] stored_postings(stored)[i]).0,
            ),
{
    if let Some(record) = stored {
        if record.len() > 0 {
            lemma_postings_families(record[0], record.skip(1));
        }
    }
}

/// What the first `i + 1` elements hold is what the first `i` hold, and the
/// `i`-th.
proof fn lemma_prefix_contains(s: Seq<(u8, Seq<u8>)>, i: int, e: (u8, Seq<u8>))
    requires
        0 <= i < s.len(),
    ensures
        s.subrange(0, i + 1).contains(e) <==> (s.subrange(0, i).contains(e) || s[i] == e),
        !s.subrange(0, 0).contains(e),
        s.subrange(0, s.len() as int) == s,
{
    let a = s.subrange(0, i);
    let b = s.subrange(0, i + 1);
    if b.contains(e) {
        let j = choose|j: int| 0 <= j < b.len() && b[j] == e;
        if j < i {
            assert(a[j] == e);
        }
    }
    if a.contains(e) {
        let j = choose|j: int| 0 <= j < a.len() && a[j] == e;
        assert(b[j] == e);
    }
    if s[i] == e {
        assert(b[i] == e);
    }
    assert(s.subrange(0, s.len() as int) =~= s);
}

/// Where the value under one key and the posting lists change as
/// `posting_after` says, an index that agreed with the records still does.
pub proof fn lemma_indexed_step(
    m0: Map<Seq<u8>, Seq<u8>>,
    m1: Map<Seq<u8>, Seq<u8>>,
    key: ValueKey,
    new_record: Option<Seq<u8>>,
)
    requires
        indexed(m0),
        raw(m1, KeyView::Value(key)) == new_record,
        forall|vk: ValueKey| vk != key ==> #[trigger] raw(m1, KeyView::Value(vk)) == raw(m0, KeyView::Value(vk)),
        forall|bk: BitmapKey<Seq<u8>>|
            bk.wf() ==> #[trigger] posting(m1, bk) == posting_after(
                m0,
                bk,
                key,
                stored_postings(raw(m0, KeyView::Value(key))),
                stored_postings(new_record),
            ),
    ensures
        indexed(m1),
{
    let before = stored_postings(raw(m0, KeyView::Value(key)));
    let after = stored_postings(new_record);
    assert forall|bk: BitmapKey<Seq<u8>>, document_id: u32|
        bk.wf() && bk.family != BM_DOCUMENT_IDS implies (#[trigger] posting(m1, bk).contains(
        document_id,
    ) <==> stored_postings(raw(m1, KeyView::Value(value_key_of(bk, document_id)))).contains(
        (bk.family, bk.key),
    )) by {
        let vk = value_key_of(bk, document_id);
        let entry = (bk.family, bk.key);
        assert(posting(m1, bk) == posting_after(m0, bk, key, before, after));
        assert(posting(m0, bk).contains(document_id) <==> stored_postings(
            raw(m0, KeyView::Value(vk)),
        ).contains(entry));
        if vk == key {
            assert(same_field(bk, key));
        } else {
            assert(raw(m1, KeyView::Value(vk)) == raw(m0, KeyView::Value(vk)));
            assert(!same_field(bk, key) || document_id != key.document_id);
        }
    }
}

/// Whether a list of entries holds an entry.
pub fn list_contains(list: &Vec<Posting>, p: &Posting) -> (r: bool)
    ensures
        r == posting_views(list@).contains(p@),
{
    let mut i: usize = 0;
    while i < list.len()
        invariant
            i <= list@.len(),
            forall|j: int| 0 <= j < i ==> posting_views(list@)[j] != p@,
        decreases list@.len() - i,
    {
        if list[i].family == p.family && bytes_equal(list[i].key.as_slice(), p.key.as_slice()) {
            assert(posting_views(list@)[i as int] == p@);
            return true;
        }
        i += 1;
    }
    false
}

/// The bitmap key of an index entry of the field of a value key.
fn bitmap_key_for(key: &ValueKey, p: &Posting) -> (bk: BitmapKey<Vec<u8>>)
    ensures
        bk@ == (BitmapKey::<Seq<u8>> {
            account_id: key.account_id,
            collection: key.collection,
            family: p.family,
            field: key.field,
            key: p.key@,
        }),
{
    BitmapKey {
        account_id: key.account_id,
        collection: key.collection,
        family: p.family,
        field: key.field,
        key: copy_bytes(p.key.as_slice()),
    }
}

/// The posting list under `bk` while the entries `done` of the old record
/// have been dealt with: the document has left the lists of those entries
/// that the new record does not ask for.
spec fn posting_leaving(
    m: Map<Seq<u8>, Seq<u8>>,
    bk: BitmapKey<Seq<u8>>,
    key: ValueKey,
    done: Seq<(u8, Seq<u8>)>,
    after: Seq<(u8, Seq<u8>)>,
) -> Set<u32> {
    let entry = (bk.family, bk.key);
    if same_field(bk, key) && done.contains(entry) && !after.contains(entry) {
        posting(m, bk).remove(key.document_id)
    } else {
        posting(m, bk)
    }
}

/// Every entry of a list carries the byte of a family of the index.
spec fn families_ok(list: Seq<(u8, Seq<u8>)>) -> bool {
    forall|i: int| 0 <= i < list.len() ==> family_ok((#[trigger] list[i]).0)
}

/// The keys of the store that are no bitmap keys hold the same in both
/// tables.
spec fn others_unchanged(before: Map<Seq<u8>, Seq<u8>>, after: Map<Seq<u8>, Seq<u8>>) -> bool {
    forall|k: KeyView| k.wf() && !(k is Bitmap) ==> #[trigger] raw(after, k) == raw(before, k)
}

/// The posting lists that could be read can still be read.
spec fn still_readable(before: Map<Seq<u8>, Seq<u8>>, after: Map<Seq<u8>, Seq<u8>>) -> bool {
    forall|bk: BitmapKey<Seq<u8>>| bk.wf() && posting_ok(before, bk) ==> #[trigger] posting_ok(after, bk)
}

/// Takes the document out of the posting lists that only the old record
/// asks for.
fn leave_postings(
    txn: &mut Txn,
    key: &ValueKey,
    old_list: &Vec<Posting>,
    new_list: &Vec<Posting>,
) -> (r:
    Result<(), Error>)
    requires
        old(txn).wf(),
        families_ok(posting_views(old_list@)),
    ensures
        final(txn).wf(),
        final(txn).base() == old(txn).base(),
        postings_readable(old(txn)@) ==> r is Ok,
        r matches Err(e) ==> e is InternalError,
        r is Ok ==> others_unchanged(old(txn)@, final(txn)@) && still_readable(
            old(txn)@,
            final(txn)@,
        ) && forall|bk: BitmapKey<Seq<u8>>|
            bk.wf() ==> #[trigger] posting(final(txn)@, bk) == posting_leaving(
                old(txn)@,
                bk,
                *key,
                posting_views(old_list@),
                posting_views(new_list@),
            ),
{
    let ghost m0 = txn@;
    let ghost l0 = posting_views(old_list@);
    let ghost l1 = posting_views(new_list@);
    let mut i: usize = 0;
    proof {
        assert forall|bk: BitmapKey<Seq<u8>>| bk.wf() implies #[trigger] posting(txn@, bk)
            == posting_leaving(m0, bk, *key, l0.subrange(0, 0), l1) by {
            assert(l0.subrange(0, 0) =~= Seq::empty());
        }
    }
    while i < old_list.len()
        invariant
            i <= old_list@.len(),
            txn.wf(),
            txn.base() == old(txn).base(),
            m0 == old(txn)@,
            l0 == posting_views(old_list@),
            l1 == posting_views(new_list@),
            families_ok(l0),
            others_unchanged(m0, txn@),
            still_readable(m0, txn@),
            forall|bk: BitmapKey<Seq<u8>>|
                bk.wf() ==> #[trigger] posting(txn@, bk) == posting_leaving(
                    m0,
                    bk,
                    *key,
                    l0.subrange(0, i as int),
                    l1,
                ),
        decreases old_list@.len() - i,
    {
        let p = &old_list[i];
        let ghost m = txn@;
        let ghost entry = l0[i as int];
        assert(entry == p@);
        assert(family_ok(entry.0));
        if !list_contains(new_list, p) {
            let bk = bitmap_key_for(key, p);
            match txn.posting_remove(&bk, key.document_id) {
                Ok(()) => {},
                Err(e) => {
                    assert(!posting_ok(m, bk@));
                    assert(!posting_ok(m0, bk@));
                    return Err(e);
                },
            }
            proof {
                let m1 = txn@;
                assert forall|k: KeyView| k.wf() && !(k is Bitmap) implies #[trigger] raw(m1, k)
                    == raw(m0, k) by {
                    assert(raw(m1, k) == raw(m, k));
                }
                assert forall|b2: BitmapKey<Seq<u8>>|
                    b2.wf() && posting_ok(m0, b2) implies #[trigger] posting_ok(m1, b2) by {
                    if b2 != bk@ {
                        assert(raw(m1, KeyView::Bitmap(b2)) == raw(m, KeyView::Bitmap(b2)));
                        assert(posting_ok(m, b2));
                    }
                }
                assert forall|b2: BitmapKey<Seq<u8>>| b2.wf() implies #[trigger] posting(m1, b2)
                    == posting_leaving(m0, b2, *key, l0.subrange(0, i + 1), l1) by {
                    lemma_prefix_contains(l0, i as int, (b2.family, b2.key));
                    assert(posting(m, b2) == posting_leaving(
                        m0,
                        b2,
                        *key,
                        l0.subrange(0, i as int),
                        l1,
                    ));
                    if b2 == bk@ {
                        assert(posting(m0, b2).remove(key.document_id).remove(key.document_id)
                            =~= posting(m0, b2).remove(key.document_id));
                    } else {
                        assert(raw(m1, KeyView::Bitmap(b2)) == raw(m, KeyView::Bitmap(b2)));
                    }
                }
            }
        } else {
            proof {
                assert forall|b2: BitmapKey<Seq<u8>>| b2.wf() implies #[trigger] posting(txn@, b2)
                    == posting_leaving(m0, b2, *key, l0.subrange(0, i + 1), l1) by {
                    lemma_prefix_contains(l0, i as int, (b2.family, b2.key));
                    assert(posting(m, b2) == posting_leaving(
                        m0,
                        b2,
                        *key,
                        l0.subrange(0, i as int),
                        l1,
                    ));
                }
            }
        }
        i += 1;
    }
    assert(l0.subrange(0, i as int) =~= l0);
    Ok(())
}

/// Puts the document into the posting lists that only the new record asks
/// for.
fn enter_postings(
    txn: &mut Txn,
    key: &ValueKey,
    old_list: &Vec<Posting>,
    new_list: &Vec<Posting>,
) -> (r:
    Result<(), Error>)
    requires
        old(txn).wf(),
        families_ok(posting_views(new_list@)),
    ensures
        final(txn).wf(),
        final(txn).base() == old(txn).base(),
        postings_readable(old(txn)@) ==> r is Ok,
        r matches Err(e) ==> e is InternalError,
        r is Ok ==> others_unchanged(old(txn)@, final(txn)@) && still_readable(
            old(txn)@,
            final(txn)@,
        ) && forall|bk: BitmapKey<Seq<u8>>|
            bk.wf() ==> #[trigger] posting(final(txn)@, bk) == (if same_field(bk, *key)
                && posting_views(new_list@).contains((bk.family, bk.key)) && !posting_views(
                old_list@,
            ).contains((bk.family, bk.key)) {
                posting(old(txn)@, bk).insert(key.document_id)
            } else {
                posting(old(txn)@, bk)
            }),
{
    let ghost m0 = txn@;
    let ghost l0 = posting_views(old_list@);
    let ghost l1 = posting_views(new_list@);
    let mut i: usize = 0;
    proof {
        assert(l1.subrange(0, 0) =~= Seq::empty());
    }
    while i < new_list.len()
        invariant
            i <= new_list@.len(),
            txn.wf(),
            txn.base() == old(txn).base(),
            m0 == old(txn)@,
            l0 == posting_views(old_list@),
            l1 == posting_views(new_list@),
            families_ok(l1),
            others_unchanged(m0, txn@),
            still_readable(m0, txn@),
            forall|bk: BitmapKey<Seq<u8>>|
                bk.wf() ==> #[trigger] posting(txn@, bk) == (if same_field(bk, *key) && l1.subrange(
                    0,
                    i as int,
                ).contains((bk.family, bk.key)) && !l0.contains((bk.family, bk.key)) {
                    posting(m0, bk).insert(key.document_id)
                } else {
                    posting(m0, bk)
                }),
        decreases new_list@.len() - i,
    {
        let p = &new_list[i];
        let ghost m = txn@;
        let ghost entry = l1[i as int];
        assert(entry == p@);
        assert(family_ok(entry.0));
        if !list_contains(old_list, p) {
            let bk = bitmap_key_for(key, p);
            match txn.posting_add(&bk, key.document_id) {
                Ok(()) => {},
                Err(e) => {
                    assert(!posting_ok(m, bk@));
                    assert(!posting_ok(m0, bk@));
                    return Err(e);
                },
            }
            proof {
                let m1 = txn@;
                assert forall|k: KeyView| k.wf() && !(k is Bitmap) implies #[trigger] raw(m1, k)
                    == raw(m0, k) by {
                    assert(raw(m1, k) == raw(m, k));
                }
                assert forall|b2: BitmapKey<Seq<u8>>|
                    b2.wf() && posting_ok(m0, b2) implies #[trigger] posting_ok(m1, b2) by {
                    if b2 != bk@ {
                        assert(raw(m1, KeyView::Bitmap(b2)) == raw(m, KeyView::Bitmap(b2)));
                        assert(posting_ok(m, b2));
                    }
                }
                assert forall|b2: BitmapKey<Seq<u8>>| b2.wf() implies #[trigger] posting(m1, b2) == (
                if same_field(b2, *key) && l1.subrange(0, i + 1).contains((b2.family, b2.key))
                    && !l0.contains((b2.family, b2.key)) {
                    posting(m0, b2).insert(key.document_id)
                } else {
                    posting(m0, b2)
                }) by {
                    lemma_prefix_contains(l1, i as int, (b2.family, b2.key));
                    let was = posting(m, b2);
                    if b2 == bk@ {
                        assert(posting(m0, b2).insert(key.document_id).insert(key.document_id)
                            =~= posting(m0, b2).insert(key.document_id));
                    } else {
                        assert(raw(m1, KeyView::Bitmap(b2)) == raw(m, KeyView::Bitmap(b2)));
                    }
                }
            }
        } else {
            proof {
                assert forall|b2: BitmapKey<Seq<u8>>| b2.wf() implies #[trigger] posting(txn@, b2) == (
                if same_field(b2, *key) && l1.subrange(0, i + 1).contains((b2.family, b2.key))
                    && !l0.contains((b2.family, b2.key)) {
                    posting(m0, b2).insert(key.document_id)
                } else {
                    posting(m0, b2)
                }) by {
                    lemma_prefix_contains(l1, i as int, (b2.family, b2.key));
                    let was = posting(m, b2);
                }
            }
        }
        i += 1;
    }
    assert(l1.subrange(0, i as int) =~= l1);
    Ok(())
}

/// What is stored under a value key once `value` has been written there.
pub open spec fn new_record(value: Option<&FieldValue>) -> Option<Seq<u8>> {
    match value {
        Some(v) => Some(record_bytes(v.options, v.text@)),
        None => None,
    }
}

/// The keys of the store that are neither bitmap keys nor `key` hold the
/// same in both tables.
pub open spec fn rest_unchanged(
    before: Map<Seq<u8>, Seq<u8>>,
    after: Map<Seq<u8>, Seq<u8>>,
    key: ValueKey,
) -> bool {
    forall|k: KeyView|
        k.wf() && !(k is Bitmap) && k != KeyView::Value(key) ==> #[trigger] raw(after, k) == raw(
            before,
            k,
        )
}

/// Writes the record of one field of one document, or clears it, and brings
/// the index in step: the document leaves the posting lists that only the
/// old record asks for and enters those that only the new one asks for.
/// Fails only on a posting list that cannot be read.
pub fn set_field(
    txn: &mut Txn,
    key: &ValueKey,
    value: Option<&FieldValue>,
) -> (r: Result<(), Error>)
    requires
        old(txn).wf(),
    ensures
        final(txn).wf(),
        final(txn).base() == old(txn).base(),
        postings_readable(old(txn)@) ==> r is Ok,
        r matches Err(e) ==> e is InternalError,
        r is Ok ==> raw(final(txn)@, KeyView::Value(*key)) == new_record(value),
        r is Ok ==> rest_unchanged(old(txn)@, final(txn)@, *key),
        r is Ok ==> forall|bk: BitmapKey<Seq<u8>>|
            bk.wf() ==> #[trigger] posting(final(txn)@, bk) == posting_after(
                old(txn)@,
                bk,
                *key,
                stored_postings(raw(old(txn)@, KeyView::Value(*key))),
                stored_postings(new_record(value)),
            ),
        r is Ok && postings_readable(old(txn)@) ==> postings_readable(final(txn)@),
        r is Ok && indexed(old(txn)@) ==> indexed(final(txn)@),
{
    let ghost m0 = txn@;
    let value_key = key.encode();
    let old_list = match txn.get(value_key.as_slice()) {
        Some(record) => {
            if record.len() > 0 {
                assert(record@.subrange(1, record@.len() as int) =~= record@.skip(1));
                postings(record[0], slice_subrange(record, 1, record.len()))
            } else {
                Vec::new()
            }
        },
        None => Vec::new(),
    };
    let new_list = match value {
        Some(v) => postings(v.options, v.text.as_slice()),
        None => Vec::new(),
    };
    let ghost l0 = posting_views(old_list@);
    let ghost l1 = posting_views(new_list@);
    proof {
        lemma_stored_families(raw(m0, KeyView::Value(*key)));
        lemma_stored_families(new_record(value));
        assert(l0 =~= stored_postings(raw(m0, KeyView::Value(*key))));
        if let Some(v) = value {
            assert(record_bytes(v.options, v.text@).skip(1) =~= v.text@);
        }
        assert(l1 =~= stored_postings(new_record(value)));
    }
    match leave_postings(txn, key, &old_list, &new_list) {
        Ok(()) => {},
        Err(e) => {
            return Err(e);
        },
    }
    let ghost m1 = txn@;
    proof {
        if postings_readable(m0) {
            assert forall|bk: BitmapKey<Seq<u8>>| bk.wf() implies #[trigger] posting_ok(m1, bk) by {
                assert(posting_ok(m0, bk));
            }
        }
    }
    match enter_postings(txn, key, &old_list, &new_list) {
        Ok(()) => {},
        Err(e) => {
            return Err(e);
        },
    }
    let ghost m2 = txn@;
    match value {
        Some(v) => {
            let mut record: Vec<u8> = Vec::new();
            record.push(v.options);
            crate::codec::push_bytes(&mut record, v.text.as_slice());
            assert(record@ =~= record_bytes(v.options, v.text@));
            proof {
                lemma_put_unchanged(m2, KeyView::Value(*key), record@);
            }
            txn.put(value_key, record);
        },
        None => {
            proof {
                lemma_put_unchanged(m2, KeyView::Value(*key), Seq::empty());
            }
            txn.delete(value_key);
        },
    }
    proof {
        let m3 = txn@;
        assert forall|k: KeyView|
            k.wf() && !(k is Bitmap) && k != KeyView::Value(*key) implies #[trigger] raw(m3, k)
            == raw(m0, k) by {
            assert(raw(m3, k) == raw(m2, k));
            assert(raw(m2, k) == raw(m1, k));
            assert(raw(m1, k) == raw(m0, k));
        }
        assert forall|bk: BitmapKey<Seq<u8>>| bk.wf() implies #[trigger] posting(m3, bk)
            == posting_after(m0, bk, *key, l0, l1) by {
            assert(raw(m3, KeyView::Bitmap(bk)) == raw(m2, KeyView::Bitmap(bk)));
            assert(posting(m3, bk) == posting(m2, bk));
            assert(posting(m1, bk) == posting_leaving(m0, bk, *key, l0, l1));
        }
        if postings_readable(m0) {
            assert forall|bk: BitmapKey<Seq<u8>>| bk.wf() implies #[trigger] posting_ok(m3, bk) by {
                assert(raw(m3, KeyView::Bitmap(bk)) == raw(m2, KeyView::Bitmap(bk)));
                assert(posting_ok(m1, bk));
                assert(posting_ok(m2, bk));
            }
        }
        if indexed(m0) {
            assert forall|vk: ValueKey| vk != *key implies #[trigger] raw(m3, KeyView::Value(vk))
                == raw(m0, KeyView::Value(vk)) by {
                assert(KeyView::Value(vk).wf());
            }
            lemma_indexed_step(m0, m3, *key, new_record(value));
        }
    }
    Ok(())
}

/// The payload under which a stored record asks to be sorted, if it asks.
pub open spec fn sort_payload(stored: Option<Seq<u8>>) -> Option<Seq<u8>> {
    match stored {
        Some(record) => if record.len() > 0 && has_flag(record[0], INDEX_SORT) {
            Some(record.skip(1))
        } else {
            None
        },
        None => None,
    }
}

/// The value key of the field that an index key sorts.
pub open spec fn sorted_field(ik: IndexKey<Seq<u8>>) -> ValueKey {
    ValueKey {
        account_id: ik.account_id,
        collection: ik.collection,
        document_id: ik.document_id,
        field: ik.field,
    }
}

/// Whether a key of the store is a sort entry of the field of a value key.
pub open spec fn is_sort_entry_of(k: KeyView, key: ValueKey) -> bool {
    k matches KeyView::Index(ik) && sorted_field(ik) == key
}

/// The sort index agrees with the records: a field has a sort entry with a
/// payload if and only if its stored record asks to be sorted under that
/// payload.
pub open spec fn sort_indexed(m: Map<Seq<u8>, Seq<u8>>) -> bool {
    forall|ik: IndexKey<Seq<u8>>| #[trigger]
        raw(m, KeyView::Index(ik)) is Some <==> sort_payload(
            raw(m, KeyView::Value(sorted_field(ik))),
        ) == Some(ik.key)
}

/// What stands under a sort entry with the payload `payload` after the
/// record of its field went from asking for `before` to asking for `after`.
pub open spec fn sort_entry_after(
    was: Option<Seq<u8>>,
    before: Option<Seq<u8>>,
    after: Option<Seq<u8>>,
    payload: Seq<u8>,
) -> Option<Seq<u8>> {
    if before == after {
        was
    } else if after == Some(payload) {
        Some(Seq::empty())
    } else if before == Some(payload) {
        None
    } else {
        was
    }
}

/// The keys of the store that are no bitmap keys, not `key` and no sort
/// entries of its field hold the same in both tables.
pub open spec fn field_rest_unchanged(
    before: Map<Seq<u8>, Seq<u8>>,
    after: Map<Seq<u8>, Seq<u8>>,
    key: ValueKey,
) -> bool {
    forall|k: KeyView|
        k.wf() && !(k is Bitmap) && k != KeyView::Value(key) && !is_sort_entry_of(k, key)
            ==> #[trigger] raw(after, k) == raw(before, k)
}

/// The payload under which a stored record asks to be sorted.
fn read_sort_payload(record: Option<&[u8]>) -> (r: Option<Vec<u8>>)
    ensures
        match r {
            Some(p) => sort_payload(
                match record {
                    Some(b) => Some(b@),
                    None => None,
                },
            ) == Some(p@),
            None => sort_payload(
                match record {
                    Some(b) => Some(b@),
                    None => None,
                },
            ) is None,
        },
{
    match record {
        Some(b) => {
            if b.len() > 0 && crate::fts::flag_set(b[0], INDEX_SORT) {
                let p = crate::codec::copy_range(b, 1, b.len());
                assert(b@.subrange(1, b@.len() as int) =~= b@.skip(1));
                Some(p)
            } else {
                None
            }
        },
        None => None,
    }
}

/// The encoding of the sort entry of a field with a payload.
fn sort_entry_key(key: &ValueKey, payload: &[u8]) -> (bytes: Vec<u8>)
    ensures
        bytes@ == (IndexKey::<Seq<u8>> {
            account_id: key.account_id,
            collection: key.collection,
            document_id: key.document_id,
            field: key.field,
            key: payload@,
        }).encoding(),
{
    IndexKey {
        account_id: key.account_id,
        collection: key.collection,
        document_id: key.document_id,
        field: key.field,
        key: payload,
    }.encode()
}

/// Writes the record of one field of one document, or clears it, and brings
/// both the index and the sort index in step.
/// Fails only on a posting list that cannot be read.
pub fn write_field(
    txn: &mut Txn,
    key: &ValueKey,
    value: Option<&FieldValue>,
) -> (r: Result<(), Error>)
    requires
        old(txn).wf(),
    ensures
        final(txn).wf(),
        final(txn).base() == old(txn).base(),
        postings_readable(old(txn)@) ==> r is Ok,
        r matches Err(e) ==> e is InternalError,
        r is Ok ==> raw(final(txn)@, KeyView::Value(*key)) == new_record(value),
        r is Ok ==> field_rest_unchanged(old(txn)@, final(txn)@, *key),
        r is Ok ==> forall|bk: BitmapKey<Seq<u8>>|
            bk.wf() ==> #[trigger] posting(final(txn)@, bk) == posting_after(
                old(txn)@,
                bk,
                *key,
                stored_postings(raw(old(txn)@, KeyView::Value(*key))),
                stored_postings(new_record(value)),
            ),
        r is Ok ==> forall|ik: IndexKey<Seq<u8>>|
            sorted_field(ik) == *key ==> #[trigger] raw(final(txn)@, KeyView::Index(ik))
                == sort_entry_after(
                raw(old(txn)@, KeyView::Index(ik)),
                sort_payload(raw(old(txn)@, KeyView::Value(*key))),
                sort_payload(new_record(value)),
                ik.key,
            ),
        r is Ok && postings_readable(old(txn)@) ==> postings_readable(final(txn)@),
        r is Ok && indexed(old(txn)@) ==> indexed(final(txn)@),
        r is Ok && sort_indexed(old(txn)@) ==> sort_indexed(final(txn)@),
{
    let ghost m0 = txn@;
    let value_key = key.encode();
    let before = read_sort_payload(txn.get(value_key.as_slice()));
    let after: Option<&[u8]> = match value {
        Some(v) => if crate::fts::flag_set(v.options, INDEX_SORT) {
            assert(record_bytes(v.options, v.text@).skip(1) =~= v.text@);
            Some(v.text.as_slice())
        } else {
            None
        },
        None => None,
    };
    let ghost sorted_before = sort_payload(raw(m0, KeyView::Value(*key)));
    let ghost sorted_after = sort_payload(new_record(value));
    assert(match before {
        Some(p) => sorted_before == Some(p@),
        None => sorted_before is None,
    });
    assert(match after {
        Some(p) => sorted_after == Some(p@),
        None => sorted_after is None,
    });
    match set_field(txn, key, value) {
        Ok(()) => {},
        Err(e) => {
            return Err(e);
        },
    }
    let ghost m1 = txn@;
    let same = match (&before, after) {
        (Some(a), Some(b)) => bytes_equal(a.as_slice(), b),
        (None, None) => true,
        _ => false,
    };
    assert(same == (sorted_before == sorted_after));
    if !same {
        match &before {
            Some(p) => {
                proof {
                    let ik = IndexKey::<Seq<u8>> {
                        account_id: key.account_id,
                        collection: key.collection,
                        document_id: key.document_id,
                        field: key.field,
                        key: p@,
                    };
                    lemma_put_unchanged(txn@, KeyView::Index(ik), Seq::empty());
                }
                txn.delete(sort_entry_key(key, p.as_slice()));
            },
            None => {},
        }
        let ghost m2 = txn@;
        match after {
            Some(p) => {
                proof {
                    let ik = IndexKey::<Seq<u8>> {
                        account_id: key.account_id,
                        collection: key.collection,
                        document_id: key.document_id,
                        field: key.field,
                        key: p@,
                    };
                    lemma_put_unchanged(txn@, KeyView::Index(ik), Seq::empty());
                }
                txn.put(sort_entry_key(key, p), Vec::new());
            },
            None => {},
        }
        proof {
            let m3 = txn@;
            assert forall|k: KeyView| k.wf() && !is_sort_entry_of(k, *key) implies #[trigger] raw(
                m3,
                k,
            ) == raw(m1, k) by {
                assert(raw(m3, k) == raw(m2, k));
                assert(raw(m2, k) == raw(m1, k));
            }
            assert forall|ik: IndexKey<Seq<u8>>| sorted_field(ik) == *key implies #[trigger] raw(
                m3,
                KeyView::Index(ik),
            ) == sort_entry_after(raw(m0, KeyView::Index(ik)), sorted_before, sorted_after, ik.key) by {
                let k = KeyView::Index(ik);
                assert(k.wf());
                assert(raw(m1, k) == raw(m0, k));
                if sorted_after != Some(ik.key) {
                    assert(raw(m3, k) == raw(m2, k));
                    if sorted_before != Some(ik.key) {
                        assert(raw(m2, k) == raw(m1, k));
                    }
                }
            }
        }
    }
    proof {
        let m3 = txn@;
        assert forall|k: KeyView| k.wf() && !is_sort_entry_of(k, *key) implies #[trigger] raw(m3, k)
            == raw(m1, k) by {}
        assert forall|bk: BitmapKey<Seq<u8>>| bk.wf() implies #[trigger] posting(m3, bk) == posting(
            m1,
            bk,
        ) by {
            assert(raw(m3, KeyView::Bitmap(bk)) == raw(m1, KeyView::Bitmap(bk)));
        }
        assert forall|bk: BitmapKey<Seq<u8>>| bk.wf() && posting_ok(m1, bk) implies #[trigger] posting_ok(
            m3,
            bk,
        ) by {
            assert(raw(m3, KeyView::Bitmap(bk)) == raw(m1, KeyView::Bitmap(bk)));
        }
        assert forall|vk: ValueKey| #[trigger] raw(m3, KeyView::Value(vk)) == raw(m1, KeyView::Value(vk)) by {
            assert(KeyView::Value(vk).wf());
        }
        assert forall|ik: IndexKey<Seq<u8>>| sorted_field(ik) == *key implies #[trigger] raw(
            m3,
            KeyView::Index(ik),
        ) == sort_entry_after(raw(m0, KeyView::Index(ik)), sorted_before, sorted_after, ik.key) by {
            assert(KeyView::Index(ik).wf());
            if same {
                assert(raw(m3, KeyView::Index(ik)) == raw(m1, KeyView::Index(ik)));
                assert(raw(m1, KeyView::Index(ik)) == raw(m0, KeyView::Index(ik)));
            }
        }
        assert forall|k: KeyView|
            k.wf() && !(k is Bitmap) && k != KeyView::Value(*key) && !is_sort_entry_of(
                k,
                *key,
            ) implies #[trigger] raw(m3, k) == raw(m0, k) by {
            assert(raw(m3, k) == raw(m1, k));
            assert(raw(m1, k) == raw(m0, k));
        }
        if indexed(m0) {
            assert forall|bk: BitmapKey<Seq<u8>>, d: u32|
                bk.wf() && bk.family != BM_DOCUMENT_IDS implies (#[trigger] posting(m3, bk).contains(
                d,
            ) <==> stored_postings(raw(m3, KeyView::Value(value_key_of(bk, d)))).contains(
                (bk.family, bk.key),
            )) by {
                assert(posting(m3, bk) == posting(m1, bk));
                assert(posting(m1, bk).contains(d) <==> stored_postings(
                    raw(m1, KeyView::Value(value_key_of(bk, d))),
                ).contains((bk.family, bk.key)));
            }
        }
        if sort_indexed(m0) {
            assert forall|ik: IndexKey<Seq<u8>>| #[trigger]
                raw(m3, KeyView::Index(ik)) is Some <==> sort_payload(
                    raw(m3, KeyView::Value(sorted_field(ik))),
                ) == Some(ik.key) by {
                let k = KeyView::Index(ik);
                assert(k.wf());
                assert(raw(m0, k) is Some <==> sort_payload(
                    raw(m0, KeyView::Value(sorted_field(ik))),
                ) == Some(ik.key));
                if sorted_field(ik) == *key {
                    assert(raw(m3, k) == sort_entry_after(raw(m0, k), sorted_before, sorted_after, ik.key));
                } else {
                    assert(raw(m3, k) == raw(m0, k));
                    assert(KeyView::Value(sorted_field(ik)).wf());
                    assert(raw(m3, KeyView::Value(sorted_field(ik))) == raw(
                        m0,
                        KeyView::Value(sorted_field(ik)),
                    ));
                }
            }
        }
    }
    Ok(())
}

} // verus!
