//! What holds of the store as a whole, stated over the contracts of its
//! operations.

use vstd::prelude::*;
use crate::changelog::{changes_since, last_change, Change};
use crate::codec::lex_lt;
use crate::documents::field_key;
use crate::fts::{
    bloom_postings, exact_postings, has_flag, lower, lowered, postings_of, stem, stemmed_postings,
    term_posting, tokens, INDEX_BLOOM, INDEX_EXACT, INDEX_STEMMED, INDEX_TAG, MAX_TOKEN_LEN,
};
use crate::index::{indexed, stored_postings, value_key_of};
use crate::key_space::KeyView;
use crate::keys::{BitmapFamily, BitmapKey, BloomKind, IndexKey, TermKind};
use crate::search::{
    candidates, entry_key, has_substring, search_entry, term_matches, window_key, Strategy,
};
use crate::sorting::hits;
use crate::store::{fields_of_live, live};
use crate::table::keys_increasing;
use crate::txn::{posting, raw};

verus! {

/// The bitmap key of the exact postings of a term in a field.
pub open spec fn exact_key(account_id: u32, collection: u8, field: u8, term: Seq<u8>) -> BitmapKey<
    Seq<u8>,
> {
    BitmapKey { account_id, collection, family: 0x10, field, key: term }
}

/// The bitmap key of the postings of a stem in a field.
pub open spec fn stemmed_key(
    account_id: u32,
    collection: u8,
    field: u8,
    stemmed: Seq<u8>,
) -> BitmapKey<Seq<u8>> {
    BitmapKey { account_id, collection, family: 0x11, field, key: stemmed }
}

/// Whether a stored record is indexed by its exact tokens and holds `term`
/// as a token.
pub open spec fn holds_token(stored: Option<Seq<u8>>, term: Seq<u8>) -> bool {
    stored matches Some(record) && record.len() > 0 && has_flag(record[0], INDEX_EXACT) && tokens(
        record.skip(1),
    ).contains(term)
}

/// Whether a stored record is indexed by stems and holds a token with the
/// stem `stemmed`.
pub open spec fn holds_stem(stored: Option<Seq<u8>>, stemmed: Seq<u8>) -> bool {
    stored matches Some(record) && record.len() > 0 && has_flag(record[0], INDEX_STEMMED)
        && exists|i: int|
        0 <= i < tokens(record.skip(1)).len() && stem(#[trigger] tokens(record.skip(1))[i])
            == stemmed
}

/// The parts of the index entries of a text.
proof fn lemma_postings_parts(options: u8, text: Seq<u8>, entry: (u8, Seq<u8>))
    ensures
        postings_of(options, text).contains(entry) <==> ((has_flag(options, INDEX_EXACT)
            && exact_postings(tokens(text)).contains(entry)) || (has_flag(options, INDEX_STEMMED)
            && stemmed_postings(tokens(text)).contains(entry)) || (has_flag(options, INDEX_TAG)
            && entry == (0x21u8, text)) || (has_flag(options, INDEX_BLOOM) && bloom_postings(
            text,
        ).contains(entry))),
{
    let a = if has_flag(options, INDEX_EXACT) {
        exact_postings(tokens(text))
    } else {
        Seq::empty()
    };
    let b = if has_flag(options, INDEX_STEMMED) {
        stemmed_postings(tokens(text))
    } else {
        Seq::empty()
    };
    let c = if has_flag(options, INDEX_TAG) {
        seq![(0x21u8, text)]
    } else {
        Seq::empty()
    };
    let d = if has_flag(options, INDEX_BLOOM) {
        bloom_postings(text)
    } else {
        Seq::empty()
    };
    let all = postings_of(options, text);
    assert(all =~= a + b + c + d);
    if all.contains(entry) {
        let i = choose|i: int| 0 <= i < all.len() && all[i] == entry;
        if i < a.len() {
            assert(a[i] == entry);
        } else if i < a.len() + b.len() {
            assert(b[i - a.len()] == entry);
        } else if i < a.len() + b.len() + c.len() {
            assert(c[i - a.len() - b.len()] == entry);
        } else {
            assert(d[i - a.len() - b.len() - c.len()] == entry);
        }
    }
    if a.contains(entry) {
        let i = choose|i: int| 0 <= i < a.len() && a[i] == entry;
        assert(all[i] == entry);
    }
    if b.contains(entry) {
        let i = choose|i: int| 0 <= i < b.len() && b[i] == entry;
        assert(all[a.len() + i] == entry);
    }
    if has_flag(options, INDEX_TAG) && entry == (0x21u8, text) {
        assert(c[0] == entry);
        assert(all[(a.len() + b.len()) as int] == entry);
    }
    if d.contains(entry) {
        let i = choose|i: int| 0 <= i < d.len() && d[i] == entry;
        assert(all[a.len() + b.len() + c.len() + i] == entry);
    }
}

/// On an index that agrees with the records, a document is in the posting
/// list of a term if and only if the stored value of the field, indexed by
/// its exact tokens, holds the term as a token. It is said of terms that are
/// short enough to be indexed as they stand.
pub proof fn lemma_exact_postings(
    m: Map<Seq<u8>, Seq<u8>>,
    account_id: u32,
    collection: u8,
    field: u8,
    document_id: u32,
    term: Seq<u8>,
)
    requires
        indexed(m),
        term.len() <= MAX_TOKEN_LEN,
    ensures
        posting(m, exact_key(account_id, collection, field, term)).contains(document_id)
            <==> holds_token(
            raw(m, KeyView::Value(field_key(account_id, collection, document_id, field))),
            term,
        ),
{
    let bk = exact_key(account_id, collection, field, term);
    BitmapFamily::lemma_of_byte(BitmapFamily::Term { kind: TermKind::Exact, hashed: false });
    let stored = raw(m, KeyView::Value(field_key(account_id, collection, document_id, field)));
    assert(value_key_of(bk, document_id) == field_key(account_id, collection, document_id, field));
    assert(posting(m, bk).contains(document_id) <==> stored_postings(stored).contains(
        (0x10u8, term),
    ));
    if let Some(record) = stored {
        if record.len() > 0 {
            let text = record.skip(1);
            let toks = tokens(text);
            lemma_postings_parts(record[0], text, (0x10u8, term));
            let ex = exact_postings(toks);
            if ex.contains((0x10u8, term)) {
                let i = choose|i: int| 0 <= i < ex.len() && ex[i] == (0x10u8, term);
                assert(term_posting(0, toks[i]) == (0x10u8, term));
                assert(toks[i] == term);
            }
            if toks.contains(term) {
                let i = choose|i: int| 0 <= i < toks.len() && toks[i] == term;
                assert(ex[i] == (0x10u8, term));
            }
            let st = stemmed_postings(toks);
            if st.contains((0x10u8, term)) {
                let i = choose|i: int| 0 <= i < st.len() && st[i] == (0x10u8, term);
                assert(term_posting(1, stem(toks[i])).0 != 0x10);
            }
            let bl = bloom_postings(text);
            if bl.contains((0x10u8, term)) {
                let i = choose|i: int| 0 <= i < bl.len() && bl[i] == (0x10u8, term);
                assert(bl[i].0 == 0x42);
            }
        }
    }
}

/// On an index that agrees with the records, a document is in the posting
/// list of a stem if and only if the stored value of the field, indexed by
/// stems, holds a token with that stem. It is said of stems that are short
/// enough to be indexed as they stand.
pub proof fn lemma_stemmed_postings(
    m: Map<Seq<u8>, Seq<u8>>,
    account_id: u32,
    collection: u8,
    field: u8,
    document_id: u32,
    stemmed: Seq<u8>,
)
    requires
        indexed(m),
        stemmed.len() <= MAX_TOKEN_LEN,
    ensures
        posting(m, stemmed_key(account_id, collection, field, stemmed)).contains(document_id)
            <==> holds_stem(
            raw(m, KeyView::Value(field_key(account_id, collection, document_id, field))),
            stemmed,
        ),
{
    let bk = stemmed_key(account_id, collection, field, stemmed);
    BitmapFamily::lemma_of_byte(BitmapFamily::Term { kind: TermKind::Stemmed, hashed: false });
    let stored = raw(m, KeyView::Value(field_key(account_id, collection, document_id, field)));
    assert(value_key_of(bk, document_id) == field_key(account_id, collection, document_id, field));
    assert(posting(m, bk).contains(document_id) <==> stored_postings(stored).contains(
        (0x11u8, stemmed),
    ));
    if let Some(record) = stored {
        if record.len() > 0 {
            let text = record.skip(1);
            let toks = tokens(text);
            lemma_postings_parts(record[0], text, (0x11u8, stemmed));
            let st = stemmed_postings(toks);
            if st.contains((0x11u8, stemmed)) {
                let i = choose|i: int| 0 <= i < st.len() && st[i] == (0x11u8, stemmed);
                assert(term_posting(1, stem(toks[i])) == (0x11u8, stemmed));
                assert(stem(toks[i]) == stemmed);
            }
            if exists|i: int| 0 <= i < toks.len() && stem(#[trigger] toks[i]) == stemmed {
                let i = choose|i: int| 0 <= i < toks.len() && stem(#[trigger] toks[i]) == stemmed;
                assert(st[i] == (0x11u8, stemmed));
            }
            let ex = exact_postings(toks);
            if ex.contains((0x11u8, stemmed)) {
                let i = choose|i: int| 0 <= i < ex.len() && ex[i] == (0x11u8, stemmed);
                assert(term_posting(0, toks[i]).0 != 0x11);
            }
            let bl = bloom_postings(text);
            if bl.contains((0x11u8, stemmed)) {
                let i = choose|i: int| 0 <= i < bl.len() && bl[i] == (0x11u8, stemmed);
                assert(bl[i].0 == 0x42);
            }
        }
    }
}

/// On an index that agrees with the records, a search for a term as an
/// exact token finds a document if and only if the stored value of the
/// field, indexed by its exact tokens, holds the term as a token, small and
/// capital letters taken as the same. This holds of every term, whether it
/// is indexed as it stands or by its hash.
pub proof fn lemma_search_exact(
    m: Map<Seq<u8>, Seq<u8>>,
    account_id: u32,
    collection: u8,
    field: u8,
    document_id: u32,
    term: Seq<u8>,
)
    requires
        indexed(m),
    ensures
        term_matches(m, account_id, collection, field, term, Strategy::Exact).contains(document_id)
            <==> holds_token(
            raw(m, KeyView::Value(field_key(account_id, collection, document_id, field))),
            lowered(term),
        ),
{
    let t = lowered(term);
    let stored = raw(m, KeyView::Value(field_key(account_id, collection, document_id, field)));
    if t.len() <= MAX_TOKEN_LEN {
        lemma_exact_postings(m, account_id, collection, field, document_id, t);
        assert(entry_key(account_id, collection, field, search_entry(Strategy::Exact, term))
            == exact_key(account_id, collection, field, t));
    } else {
        let entry = term_posting(0, t);
        let bk = entry_key(account_id, collection, field, entry);
        BitmapFamily::lemma_of_byte(BitmapFamily::Term { kind: TermKind::Exact, hashed: true });
        assert(bk.wf());
        assert(value_key_of(bk, document_id) == field_key(
            account_id,
            collection,
            document_id,
            field,
        ));
        assert(posting(m, bk).contains(document_id) <==> stored_postings(stored).contains(entry));
        if let Some(record) = stored {
            if record.len() > 0 {
                let text = record.skip(1);
                let toks = tokens(text);
                lemma_postings_parts(record[0], text, entry);
                let ex = exact_postings(toks);
                if toks.contains(t) {
                    let i = choose|i: int| 0 <= i < toks.len() && toks[i] == t;
                    assert(ex[i] == entry);
                }
                let st = stemmed_postings(toks);
                if st.contains(entry) {
                    let i = choose|i: int| 0 <= i < st.len() && st[i] == entry;
                    assert(term_posting(1, stem(toks[i])).0 != 0x14);
                }
                let bl = bloom_postings(text);
                if bl.contains(entry) {
                    let i = choose|i: int| 0 <= i < bl.len() && bl[i] == entry;
                    assert(bl[i].0 == 0x42);
                }
            }
        }
    }
}

/// On an index that agrees with the records, a search for a word by its
/// stem finds a document if and only if the stored value of the field,
/// indexed by stems, holds a token with the stem of the word, small and
/// capital letters taken as the same. This holds of every word, whether its
/// stem is indexed as it stands or by its hash.
pub proof fn lemma_search_stemmed(
    m: Map<Seq<u8>, Seq<u8>>,
    account_id: u32,
    collection: u8,
    field: u8,
    document_id: u32,
    term: Seq<u8>,
)
    requires
        indexed(m),
    ensures
        term_matches(m, account_id, collection, field, term, Strategy::Stemmed).contains(
            document_id,
        ) <==> holds_stem(
            raw(m, KeyView::Value(field_key(account_id, collection, document_id, field))),
            stem(lowered(term)),
        ),
{
    let t = stem(lowered(term));
    let stored = raw(m, KeyView::Value(field_key(account_id, collection, document_id, field)));
    if t.len() <= MAX_TOKEN_LEN {
        lemma_stemmed_postings(m, account_id, collection, field, document_id, t);
        assert(entry_key(account_id, collection, field, search_entry(Strategy::Stemmed, term))
            == stemmed_key(account_id, collection, field, t));
    } else {
        let entry = term_posting(1, t);
        let bk = entry_key(account_id, collection, field, entry);
        BitmapFamily::lemma_of_byte(BitmapFamily::Term { kind: TermKind::Stemmed, hashed: true });
        assert(bk.wf());
        assert(value_key_of(bk, document_id) == field_key(
            account_id,
            collection,
            document_id,
            field,
        ));
        assert(posting(m, bk).contains(document_id) <==> stored_postings(stored).contains(entry));
        if let Some(record) = stored {
            if record.len() > 0 {
                let text = record.skip(1);
                let toks = tokens(text);
                lemma_postings_parts(record[0], text, entry);
                let st = stemmed_postings(toks);
                if exists|i: int| 0 <= i < toks.len() && stem(#[trigger] toks[i]) == t {
                    let i = choose|i: int| 0 <= i < toks.len() && stem(#[trigger] toks[i]) == t;
                    assert(st[i] == entry);
                }
                let ex = exact_postings(toks);
                if ex.contains(entry) {
                    let i = choose|i: int| 0 <= i < ex.len() && ex[i] == entry;
                    assert(term_posting(0, toks[i]).0 != 0x15);
                }
                let bl = bloom_postings(text);
                if bl.contains(entry) {
                    let i = choose|i: int| 0 <= i < bl.len() && bl[i] == entry;
                    assert(bl[i].0 == 0x42);
                }
            }
        }
    }
}

/// The changes read from a ledger carry numbers that rise by one from entry
/// to entry, starting after `since`: they are strictly increasing and have
/// no gaps. Read from the start, the `i`-th entry carries the number
/// `i + 1`, and the last one the number of the last change.
pub proof fn lemma_changes_in_order(
    m: Map<Seq<u8>, Seq<u8>>,
    account_id: u32,
    collection: u8,
    since: u64,
    changes: Seq<Change>,
)
    requires
        changes_since(m, account_id, collection, since, changes),
    ensures
        forall|i: int, j: int|
            0 <= i < j < changes.len() ==> (#[trigger] changes[i]).change_id
                < (#[trigger] changes[j]).change_id,
        forall|i: int, j: int|
            0 <= i && j == i + 1 && j < changes.len() ==> (#[trigger] changes[j]).change_id
                == (#[trigger] changes[i]).change_id + 1,
        changes.len() > 0 ==> changes[0].change_id == since + 1 && changes.last().change_id
            == last_change(m, account_id, collection),
        since == 0 ==> changes.len() == last_change(m, account_id, collection),
{
    assert forall|i: int, j: int| 0 <= i < j < changes.len() implies (#[trigger] changes[i]).change_id
        < (#[trigger] changes[j]).change_id by {
        assert(changes[i].change_id == since + 1 + i);
        assert(changes[j].change_id == since + 1 + j);
    }
    assert forall|i: int, j: int| 0 <= i && j == i + 1 && j < changes.len() implies (
    #[trigger] changes[j]).change_id == (#[trigger] changes[i]).change_id + 1 by {
        assert(changes[i].change_id == since + 1 + i);
        assert(changes[j].change_id == since + 1 + j);
    }
    if changes.len() > 0 {
        assert(changes[0].change_id == since + 1 + 0);
        assert(changes[changes.len() - 1].change_id == since + 1 + (changes.len() - 1));
    }
}

/// The bloom filter has no false negatives: on an index that agrees with
/// the records, every document whose field is indexed for substrings and
/// whose text holds the needle, small and capital letters taken as the same,
/// is among the candidates for the needle.
pub proof fn lemma_candidates_complete(
    m: Map<Seq<u8>, Seq<u8>>,
    account_id: u32,
    collection: u8,
    field: u8,
    document_id: u32,
    needle: Seq<u8>,
)
    requires
        indexed(m),
        fields_of_live(m),
        raw(
            m,
            KeyView::Value(field_key(account_id, collection, document_id, field)),
        ) matches Some(record) && record.len() > 0 && has_flag(record[0], INDEX_BLOOM)
            && has_substring(lowered(record.skip(1)), lowered(needle)),
    ensures
        candidates(m, account_id, collection, field, needle).contains(document_id),
{
    let vk = field_key(account_id, collection, document_id, field);
    let record = raw(m, KeyView::Value(vk))->0;
    let text = record.skip(1);
    if needle.len() < 3 {
        assert(raw(m, KeyView::Value(vk)) is Some);
        assert(live(m, vk.account_id, vk.collection).contains(vk.document_id));
    } else {
        let low_text = lowered(text);
        let low_needle = lowered(needle);
        let at = choose|at: int|
            0 <= at && at + low_needle.len() <= low_text.len() && #[trigger] low_text.subrange(
                at,
                at + low_needle.len(),
            ) == low_needle;
        BitmapFamily::lemma_of_byte(BitmapFamily::Bloom(BloomKind::Trigram));
        assert forall|i: int| 0 <= i <= needle.len() - 3 implies (#[trigger] posting(
            m,
            window_key(account_id, collection, field, needle, i),
        )).contains(document_id) by {
            let bk = window_key(account_id, collection, field, needle, i);
            let window = low_text.subrange(at, at + low_needle.len());
            assert(window[i] == low_needle[i]);
            assert(window[i + 1] == low_needle[i + 1]);
            assert(window[i + 2] == low_needle[i + 2]);
            assert(lower(text[at + i]) == lower(needle[i]));
            assert(lower(text[at + i + 1]) == lower(needle[i + 1]));
            assert(lower(text[at + i + 2]) == lower(needle[i + 2]));
            let entry = (0x42u8, bk.key);
            let bl = bloom_postings(text);
            assert(bl[at + i] == entry);
            assert(bl.contains(entry));
            lemma_postings_parts(record[0], text, entry);
            assert(value_key_of(bk, document_id) == vk);
            assert(stored_postings(raw(m, KeyView::Value(vk))).contains(entry));
        }
    }
}

/// The sort entry of a key of the table, where the key is one of the field
/// and its document is asked for.
pub open spec fn hit_entry(
    key: Seq<u8>,
    account_id: u32,
    collection: u8,
    field: u8,
    wanted: Set<u32>,
) -> Option<IndexKey<Seq<u8>>> {
    match IndexKey::<Seq<u8>>::decoding(key) {
        Some(ik) => if ik.account_id == account_id && ik.collection == collection && ik.field
            == field && wanted.contains(ik.document_id) {
            Some(ik)
        } else {
            None
        },
        None => None,
    }
}

/// The sort entries behind the hits of a table, in the order of the keys.
pub open spec fn hit_entries(
    s: Seq<(Seq<u8>, Seq<u8>)>,
    account_id: u32,
    collection: u8,
    field: u8,
    wanted: Set<u32>,
) -> Seq<IndexKey<Seq<u8>>>
    decreases s.len(),
{
    if s.len() == 0 {
        Seq::empty()
    } else {
        let before = hit_entries(s.drop_last(), account_id, collection, field, wanted);
        match hit_entry(s.last().0, account_id, collection, field, wanted) {
            Some(ik) => before.push(ik),
            None => before,
        }
    }
}

/// Whether the key at a place of the table is the encoding of a sort entry.
pub open spec fn stands_at(s: Seq<(Seq<u8>, Seq<u8>)>, p: int, ik: IndexKey<Seq<u8>>) -> bool {
    0 <= p < s.len() && s[p].0 == ik.encoding()
}

/// Whether a sort entry comes before another in the order of a sorted
/// field: by payload, and by document between equal payloads.
pub open spec fn sorts_before(a: IndexKey<Seq<u8>>, b: IndexKey<Seq<u8>>) -> bool {
    lex_lt(a.key, b.key) || (a.key == b.key && a.document_id < b.document_id)
}

/// The hits of a table in key order are the documents of the sort entries
/// of the field that are in the table and asked for, each entry once, in
/// the order of their payloads, and between equal payloads in the order of
/// the documents.
pub proof fn lemma_hits_sorted(
    s: Seq<(Seq<u8>, Seq<u8>)>,
    account_id: u32,
    collection: u8,
    field: u8,
    wanted: Set<u32>,
)
    requires
        keys_increasing(s),
    ensures
        ({
            let entries = hit_entries(s, account_id, collection, field, wanted);
            let docs = hits(s, account_id, collection, field, wanted);
            &&& docs.len() == entries.len()
            &&& forall|i: int|
                0 <= i < entries.len() ==> docs[i] == (#[trigger] entries[i]).document_id
                    && entries[i].account_id == account_id && entries[i].collection == collection
                    && entries[i].field == field && wanted.contains(entries[i].document_id)
                    && exists|p: int| stands_at(s, p, entries[i])
            &&& forall|i: int, j: int|
                0 <= i < j < entries.len() ==> sorts_before(
                    #[trigger] entries[i],
                    #[trigger] entries[j],
                )
            &&& forall|ik: IndexKey<Seq<u8>>, p: int| #[trigger]
                stands_at(s, p, ik) && ik.account_id == account_id && ik.collection == collection
                    && ik.field == field && wanted.contains(ik.document_id) ==> entries.contains(ik)
        }),
    decreases s.len(),
{
    let entries = hit_entries(s, account_id, collection, field, wanted);
    let docs = hits(s, account_id, collection, field, wanted);
    if s.len() > 0 {
        let t = s.drop_last();
        let last = s.last();
        assert forall|i: int, j: int| 0 <= i < j < t.len() implies lex_lt(
            #[trigger] t[i].0,
            #[trigger] t[j].0,
        ) by {
            assert(t[i] == s[i] && t[j] == s[j]);
        }
        lemma_hits_sorted(t, account_id, collection, field, wanted);
        let before = hit_entries(t, account_id, collection, field, wanted);
        assert forall|i: int| 0 <= i < before.len() implies exists|p: int|
            stands_at(s, p, #[trigger] before[i]) by {
            let p = choose|p: int| stands_at(t, p, before[i]);
            assert(s[p] == t[p]);
            assert(stands_at(s, p, before[i]));
        }
        match hit_entry(last.0, account_id, collection, field, wanted) {
            Some(ik) => {
                assert(ik.encoding() == last.0);
                assert(stands_at(s, s.len() - 1, ik));
                assert forall|i: int, j: int| 0 <= i < j < entries.len() implies sorts_before(
                    #[trigger] entries[i],
                    #[trigger] entries[j],
                ) by {
                    if j == entries.len() - 1 {
                        let p = choose|p: int| stands_at(t, p, before[i]);
                        assert(s[p] == t[p]);
                        assert(lex_lt(s[p].0, s[s.len() - 1].0));
                        IndexKey::<Seq<u8>>::lemma_order(before[i], ik);
                    } else {
                        assert(sorts_before(before[i], before[j]));
                    }
                }
            },
            None => {},
        }
        assert forall|ik: IndexKey<Seq<u8>>, p: int| #[trigger]
            stands_at(s, p, ik) && ik.account_id == account_id && ik.collection == collection
                && ik.field == field && wanted.contains(ik.document_id) implies entries.contains(
            ik,
        ) by {
            if p < t.len() {
                assert(t[p] == s[p]);
                assert(stands_at(t, p, ik));
                assert(before.contains(ik));
                let i = choose|i: int| 0 <= i < before.len() && before[i] == ik;
                assert(entries[i] == ik);
            } else {
                IndexKey::<Seq<u8>>::lemma_roundtrip(ik);
                assert(hit_entry(last.0, account_id, collection, field, wanted) == Some(ik));
                assert(entries[entries.len() - 1] == ik);
            }
        }
    }
}

} // verus!
