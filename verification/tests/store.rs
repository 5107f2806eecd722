use docstore::bitmap::Bitmap;
use docstore::changelog::{Change, ChangeKind};
use docstore::documents::FieldChange;
use docstore::error::Error;
use docstore::fts::{
    hash_bytes, postings, stem_length, tokenize, Posting, INDEX_BLOOM, INDEX_EXACT, INDEX_STEMMED,
    INDEX_TAG,
};
use docstore::index::FieldValue;
use docstore::keys::{BitmapKey, BM_BLOOM, BM_DOCUMENT_IDS, BM_TAG, BM_TERM, KEY_VALUE, TERM_HASH, TERM_STEMMED};
use docstore::search::{contains_sub, holds_term, Strategy};
use docstore::store::{Mutation, Store};
use docstore::table::Table;

const EMAIL: u8 = 2;
const SUBJECT: u8 = 7;
const BODY: u8 = 8;

fn set(field: u8, options: u8, text: &str) -> FieldChange {
    FieldChange { field, value: Some(FieldValue { options, text: text.as_bytes().to_vec() }) }
}

fn clear(field: u8) -> FieldChange {
    FieldChange { field, value: None }
}

fn ids(r: Result<Bitmap, Error>) -> Vec<u32> {
    r.unwrap().to_vec()
}

fn snapshot(s: &Store) -> Table {
    s.table().clone()
}

#[test]
fn tokens_are_lowercased_runs_of_word_bytes() {
    let t = tokenize(b"Hello, World! x2  -- caf\xc3\xa9");
    assert_eq!(t, vec![b"hello".to_vec(), b"world".to_vec(), b"x2".to_vec(), b"caf\xc3\xa9".to_vec()]);
    assert!(tokenize(b"").is_empty());
    assert!(tokenize(b" ,.;").is_empty());
    assert_eq!(tokenize(b"one"), vec![b"one".to_vec()]);
}

#[test]
fn stems_drop_common_endings() {
    assert_eq!(stem_length(b"running"), 4);
    assert_eq!(stem_length(b"walked"), 4);
    assert_eq!(stem_length(b"boxes"), 3);
    assert_eq!(stem_length(b"cats"), 3);
    assert_eq!(stem_length(b"glass"), 5);
    assert_eq!(stem_length(b"hello"), 5);
    assert_eq!(stem_length(b"sing"), 4);
    assert_eq!(stem_length(b"is"), 2);
    assert_eq!(stem_length(b""), 0);
}

#[test]
fn hash_has_exact_values() {
    assert_eq!(hash_bytes(b""), 0);
    assert_eq!(hash_bytes(b"a"), 97);
    assert_eq!(hash_bytes(b"ab"), 97 * 31 + 98);
    assert_eq!(hash_bytes(&[255; 8]), 3_963_989_888);
}

#[test]
fn postings_follow_the_options() {
    assert!(postings(0, b"hello world").is_empty());
    assert_eq!(
        postings(INDEX_EXACT, b"Hello world"),
        vec![
            Posting { family: BM_TERM, key: b"hello".to_vec() },
            Posting { family: BM_TERM, key: b"world".to_vec() },
        ]
    );
    assert_eq!(
        postings(INDEX_STEMMED, b"running cats"),
        vec![
            Posting { family: BM_TERM | TERM_STEMMED, key: b"runn".to_vec() },
            Posting { family: BM_TERM | TERM_STEMMED, key: b"cat".to_vec() },
        ]
    );
    assert_eq!(postings(INDEX_TAG, b"In Box"), vec![Posting { family: BM_TAG | 1, key: b"In Box".to_vec() }]);
    let bloom = postings(INDEX_BLOOM, b"AbcD");
    let block = |a: u32, b: u32, c: u32| {
        let h = ((a * 31 + b) * 31 + c) % 4096;
        vec![(h / 256) as u8, (h % 256) as u8]
    };
    assert_eq!(
        bloom,
        vec![
            Posting { family: BM_BLOOM | 2, key: block(97, 98, 99) },
            Posting { family: BM_BLOOM | 2, key: block(98, 99, 100) },
        ]
    );
    assert!(postings(INDEX_BLOOM, b"ab").is_empty());
    assert_eq!(postings(INDEX_EXACT | INDEX_STEMMED | INDEX_TAG | INDEX_BLOOM, b"cats").len(), 5);
}

#[test]
fn long_tokens_are_indexed_by_hash() {
    let long = "a".repeat(33);
    let p = postings(INDEX_EXACT, long.as_bytes());
    assert_eq!(p.len(), 1);
    assert_eq!(p[0].family, BM_TERM | TERM_HASH);
    assert_eq!(p[0].key, hash_bytes(long.as_bytes()).to_be_bytes().to_vec());
    let fits = "a".repeat(32);
    assert_eq!(postings(INDEX_EXACT, fits.as_bytes())[0].family, BM_TERM);
}

#[test]
fn substring_check_is_exact() {
    assert!(contains_sub(b"hello world", b"lo w"));
    assert!(contains_sub(b"hello", b""));
    assert!(contains_sub(b"", b""));
    assert!(contains_sub(b"hello", b"hello"));
    assert!(contains_sub(b"aab", b"ab"));
    assert!(!contains_sub(b"hello", b"hellos"));
    assert!(!contains_sub(b"", b"a"));
    assert!(!contains_sub(b"hello", b"leh"));
}

#[test]
fn create_gives_ids_and_change_numbers_in_order() {
    let mut s = Store::new();
    let a = s.create(1, EMAIL, &[set(SUBJECT, INDEX_EXACT, "first")]).unwrap();
    let b = s.create(1, EMAIL, &[set(SUBJECT, INDEX_EXACT, "second")]).unwrap();
    let c = s.create(1, 3, &[]).unwrap();
    let d = s.create(2, EMAIL, &[]).unwrap();
    assert_eq!((a.document_id, a.change_id), (1, 1));
    assert_eq!((b.document_id, b.change_id), (2, 2));
    assert_eq!((c.document_id, c.change_id), (1, 1));
    assert_eq!((d.document_id, d.change_id), (1, 1));
    assert_eq!(ids(s.document_ids(1, EMAIL)), vec![1, 2]);
    assert_eq!(ids(s.document_ids(1, 3)), vec![1]);
    assert!(ids(s.document_ids(9, 9)).is_empty());
    assert_eq!(s.get_value(1, EMAIL, 2, SUBJECT).unwrap(), b"second".to_vec());
}

#[test]
fn ids_are_not_given_out_twice() {
    let mut s = Store::new();
    assert_eq!(s.create(1, EMAIL, &[]).unwrap().document_id, 1);
    assert_eq!(s.create(1, EMAIL, &[]).unwrap().document_id, 2);
    s.delete(1, EMAIL, 2).unwrap();
    assert_eq!(s.create(1, EMAIL, &[]).unwrap().document_id, 3);
    assert_eq!(ids(s.document_ids(1, EMAIL)), vec![1, 3]);
}

#[test]
fn stemmed_search_follows_the_stored_subject() {
    let mut s = Store::new();
    let d1 = s.create(1, EMAIL, &[set(SUBJECT, INDEX_STEMMED, "hello world")]).unwrap().document_id;
    assert_eq!(ids(s.search(1, EMAIL, SUBJECT, b"hello", Strategy::Stemmed)), vec![d1]);
    assert_eq!(ids(s.search(1, EMAIL, SUBJECT, b"Hello", Strategy::Stemmed)), vec![d1]);
    assert_eq!(ids(s.search(1, EMAIL, SUBJECT, b"world", Strategy::Stemmed)), vec![d1]);
    s.update(1, EMAIL, d1, &[set(SUBJECT, INDEX_STEMMED, "world")]).unwrap();
    assert!(ids(s.search(1, EMAIL, SUBJECT, b"hello", Strategy::Stemmed)).is_empty());
    assert_eq!(ids(s.search(1, EMAIL, SUBJECT, b"world", Strategy::Stemmed)), vec![d1]);
}

#[test]
fn search_is_scoped_by_account_collection_and_field() {
    let mut s = Store::new();
    s.create(1, EMAIL, &[set(SUBJECT, INDEX_EXACT, "hello")]).unwrap();
    assert_eq!(ids(s.search(1, EMAIL, SUBJECT, b"hello", Strategy::Exact)), vec![1]);
    assert!(ids(s.search(2, EMAIL, SUBJECT, b"hello", Strategy::Exact)).is_empty());
    assert!(ids(s.search(1, 3, SUBJECT, b"hello", Strategy::Exact)).is_empty());
    assert!(ids(s.search(1, EMAIL, BODY, b"hello", Strategy::Exact)).is_empty());
    assert!(ids(s.search(1, EMAIL, SUBJECT, b"hello", Strategy::Stemmed)).is_empty());
    assert!(ids(s.search(1, EMAIL, SUBJECT, b"hello", Strategy::Tag)).is_empty());
}

#[test]
fn stems_match_across_word_forms() {
    let mut s = Store::new();
    s.create(1, EMAIL, &[set(BODY, INDEX_STEMMED, "walking the dogs")]).unwrap();
    assert_eq!(ids(s.search(1, EMAIL, BODY, b"walked", Strategy::Stemmed)), vec![1]);
    assert_eq!(ids(s.search(1, EMAIL, BODY, b"dog", Strategy::Stemmed)), vec![1]);
    assert!(ids(s.search(1, EMAIL, BODY, b"cat", Strategy::Stemmed)).is_empty());
}

#[test]
fn tags_match_the_whole_value() {
    let mut s = Store::new();
    s.create(1, EMAIL, &[set(SUBJECT, INDEX_TAG, "In Box")]).unwrap();
    s.create(1, EMAIL, &[set(SUBJECT, INDEX_TAG, "Sent")]).unwrap();
    assert_eq!(ids(s.search(1, EMAIL, SUBJECT, b"In Box", Strategy::Tag)), vec![1]);
    assert!(ids(s.search(1, EMAIL, SUBJECT, b"in box", Strategy::Tag)).is_empty());
    assert!(ids(s.search(1, EMAIL, SUBJECT, b"In", Strategy::Tag)).is_empty());
}

#[test]
fn index_follows_every_create_update_delete() {
    let mut s = Store::new();
    let opts = INDEX_EXACT;
    s.create(1, EMAIL, &[set(SUBJECT, opts, "red green")]).unwrap();
    s.create(1, EMAIL, &[set(SUBJECT, opts, "green blue")]).unwrap();
    s.create(1, EMAIL, &[set(SUBJECT, opts, "blue red")]).unwrap();
    let find = |s: &Store, t: &str| ids(s.search(1, EMAIL, SUBJECT, t.as_bytes(), Strategy::Exact));
    assert_eq!(find(&s, "red"), vec![1, 3]);
    assert_eq!(find(&s, "green"), vec![1, 2]);
    assert_eq!(find(&s, "blue"), vec![2, 3]);
    s.update(1, EMAIL, 1, &[set(SUBJECT, opts, "blue")]).unwrap();
    assert_eq!(find(&s, "red"), vec![3]);
    assert_eq!(find(&s, "green"), vec![2]);
    assert_eq!(find(&s, "blue"), vec![1, 2, 3]);
    s.delete(1, EMAIL, 2).unwrap();
    assert!(find(&s, "green").is_empty());
    assert_eq!(find(&s, "blue"), vec![1, 3]);
    s.update(1, EMAIL, 3, &[clear(SUBJECT)]).unwrap();
    assert!(find(&s, "red").is_empty());
    assert_eq!(find(&s, "blue"), vec![1]);
    s.update(1, EMAIL, 3, &[set(SUBJECT, 0, "red")]).unwrap();
    assert!(find(&s, "red").is_empty());
    assert_eq!(s.get_value(1, EMAIL, 3, SUBJECT).unwrap(), b"red".to_vec());
}

#[test]
fn later_change_to_a_field_wins() {
    let mut s = Store::new();
    s.create(1, EMAIL, &[set(SUBJECT, INDEX_EXACT, "one"), set(SUBJECT, INDEX_EXACT, "two")]).unwrap();
    assert_eq!(s.get_value(1, EMAIL, 1, SUBJECT).unwrap(), b"two".to_vec());
    assert!(ids(s.search(1, EMAIL, SUBJECT, b"one", Strategy::Exact)).is_empty());
    assert_eq!(ids(s.search(1, EMAIL, SUBJECT, b"two", Strategy::Exact)), vec![1]);
}

#[test]
fn substring_search_returns_only_documents_that_hold_the_needle() {
    let mut s = Store::new();
    s.create(1, EMAIL, &[set(BODY, INDEX_BLOOM, "The quick brown fox")]).unwrap();
    s.create(1, EMAIL, &[set(BODY, INDEX_BLOOM, "quicksand ahead")]).unwrap();
    s.create(1, EMAIL, &[set(BODY, INDEX_BLOOM, "nothing here")]).unwrap();
    s.create(1, EMAIL, &[set(BODY, 0, "quick but not indexed")]).unwrap();
    assert_eq!(ids(s.search_substring(1, EMAIL, BODY, b"quick")), vec![1, 2]);
    assert_eq!(ids(s.search_substring(1, EMAIL, BODY, b"QUICK B")), vec![1]);
    assert_eq!(ids(s.search_substring(1, EMAIL, BODY, b"ick")), vec![1, 2]);
    assert!(ids(s.search_substring(1, EMAIL, BODY, b"quickly")).is_empty());
    // A needle shorter than a window is checked against every live document.
    assert_eq!(ids(s.search_substring(1, EMAIL, BODY, b"qu")), vec![1, 2, 4]);
    assert_eq!(ids(s.search_substring(1, EMAIL, BODY, b"")), vec![1, 2, 3, 4]);
}

#[test]
fn bloom_candidates_are_checked_against_the_text() {
    // Two windows that fall into the same block: (a*31 + b)*31 + c is the same modulo 4096.
    let text_a = [1u8, 1, 1];
    let text_b = [1u8, 0, 32];
    let mut s = Store::new();
    let field = |t: &[u8]| FieldChange { field: BODY, value: Some(FieldValue { options: INDEX_BLOOM, text: t.to_vec() }) };
    s.create(1, EMAIL, &[field(&text_a)]).unwrap();
    s.create(1, EMAIL, &[field(&text_b)]).unwrap();
    assert_eq!(ids(s.substring_candidates(1, EMAIL, BODY, &text_a)), vec![1, 2]);
    assert_eq!(ids(s.search_substring(1, EMAIL, BODY, &text_a)), vec![1]);
    assert_eq!(ids(s.search_substring(1, EMAIL, BODY, &text_b)), vec![2]);
}

#[test]
fn update_and_delete_of_a_missing_document_are_not_found() {
    let mut s = Store::new();
    s.create(1, EMAIL, &[set(SUBJECT, INDEX_EXACT, "x")]).unwrap();
    let before = snapshot(&s);
    assert!(matches!(s.update(1, EMAIL, 2, &[set(SUBJECT, INDEX_EXACT, "y")]), Err(Error::NotFound)));
    assert!(matches!(s.delete(1, EMAIL, 2), Err(Error::NotFound)));
    assert!(matches!(s.update(2, EMAIL, 1, &[]), Err(Error::NotFound)));
    assert!(matches!(s.delete(1, 3, 1), Err(Error::NotFound)));
    assert_eq!(snapshot(&s), before);
    s.delete(1, EMAIL, 1).unwrap();
    assert!(matches!(s.delete(1, EMAIL, 1), Err(Error::NotFound)));
    assert!(matches!(s.get_value(1, EMAIL, 1, SUBJECT), Err(Error::NotFound)));
}

#[test]
fn delete_leaves_only_the_ledger() {
    let mut s = Store::new();
    s.create(1, EMAIL, &[set(SUBJECT, INDEX_EXACT | INDEX_STEMMED | INDEX_TAG | INDEX_BLOOM, "hello world"), set(BODY, INDEX_EXACT, "body text")]).unwrap();
    s.delete(1, EMAIL, 1).unwrap();
    let t = s.table();
    for i in 0..t.len() {
        assert_eq!(t.key_at(i)[5], 0x84, "only ledger keys are left");
    }
    assert_eq!(t.len(), 3);
}

#[test]
fn a_failed_write_leaves_the_store_as_it_was() {
    // A table with a posting list that cannot be read.
    let mut s = Store::new();
    s.create(1, EMAIL, &[set(SUBJECT, INDEX_EXACT, "alpha")]).unwrap();
    let mut t = snapshot(&s);
    let bad = BitmapKey { account_id: 1, collection: EMAIL, family: BM_TERM, field: SUBJECT, key: &b"beta"[..] }.encode();
    t.put(bad, vec![1, 2, 3]);
    let mut s = Store::from_table(t);
    let before = snapshot(&s);
    // The write first takes the document out of "alpha", then fails on "beta".
    let r = s.update(1, EMAIL, 1, &[set(SUBJECT, INDEX_EXACT, "beta")]);
    assert!(matches!(r, Err(Error::InternalError(_))));
    assert_eq!(snapshot(&s), before);
    assert!(matches!(s.create(1, EMAIL, &[set(SUBJECT, INDEX_EXACT, "gamma beta")]), Err(Error::InternalError(_))));
    assert_eq!(snapshot(&s), before);
    assert!(matches!(s.search(1, EMAIL, SUBJECT, b"beta", Strategy::Exact), Err(Error::InternalError(_))));
    assert!(matches!(s.get_bitmap(1, EMAIL, BM_TERM, SUBJECT, b"beta"), Err(Error::InternalError(_))));
    // Writes that do not touch the bad list still go through.
    assert!(s.update(1, EMAIL, 1, &[set(SUBJECT, INDEX_EXACT, "delta")]).is_ok());
}

#[test]
fn reported_changes_lead_from_the_old_table_to_the_new() {
    let mut s = Store::new();
    let mut mirror = Table::new();
    let w = s.create(1, EMAIL, &[set(SUBJECT, INDEX_EXACT | INDEX_BLOOM, "hello world")]).unwrap();
    mirror.apply(&w.ops);
    assert_eq!(&mirror, s.table());
    let w = s.update(1, EMAIL, 1, &[set(SUBJECT, INDEX_EXACT | INDEX_BLOOM, "world peace"), set(BODY, INDEX_TAG, "x")]).unwrap();
    mirror.apply(&w.ops);
    assert_eq!(&mirror, s.table());
    let w = s.delete(1, EMAIL, 1).unwrap();
    mirror.apply(&w.ops);
    assert_eq!(&mirror, s.table());
}

#[test]
fn changes_are_numbered_without_gaps() {
    let mut s = Store::new();
    assert!(s.get_changes(1, EMAIL, 0).unwrap().is_empty());
    s.create(1, EMAIL, &[]).unwrap();
    s.create(1, EMAIL, &[]).unwrap();
    s.update(1, EMAIL, 1, &[set(SUBJECT, 0, "x")]).unwrap();
    s.create(1, 3, &[]).unwrap();
    s.delete(1, EMAIL, 2).unwrap();
    let all = s.get_changes(1, EMAIL, 0).unwrap();
    assert_eq!(
        all,
        vec![
            Change { change_id: 1, document_id: 1, kind: ChangeKind::Insert },
            Change { change_id: 2, document_id: 2, kind: ChangeKind::Insert },
            Change { change_id: 3, document_id: 1, kind: ChangeKind::Update },
            Change { change_id: 4, document_id: 2, kind: ChangeKind::Delete },
        ]
    );
    assert_eq!(s.get_changes(1, EMAIL, 0).unwrap(), all);
    assert_eq!(s.get_changes(1, EMAIL, 2).unwrap(), all[2..].to_vec());
    assert!(s.get_changes(1, EMAIL, 4).unwrap().is_empty());
    assert!(s.get_changes(1, EMAIL, 99).unwrap().is_empty());
    assert!(s.get_changes(1, EMAIL, u64::MAX).unwrap().is_empty());
    assert_eq!(s.get_changes(1, 3, 0).unwrap().len(), 1);
}

#[test]
fn a_broken_ledger_is_an_internal_error() {
    let mut s = Store::new();
    s.create(1, EMAIL, &[]).unwrap();
    s.create(1, EMAIL, &[]).unwrap();
    let mut t = snapshot(&s);
    let entry = docstore::keys::LogKey { account_id: 1, collection: EMAIL, change_id: 1 }.encode();
    t.delete(&entry);
    let s = Store::from_table(t.clone());
    assert!(matches!(s.get_changes(1, EMAIL, 0), Err(Error::InternalError(_))));
    assert_eq!(s.get_changes(1, EMAIL, 1).unwrap().len(), 1);
    t.put(entry, vec![9, 0, 0, 0, 1]);
    assert!(matches!(Store::from_table(t.clone()).get_changes(1, EMAIL, 0), Err(Error::InternalError(_))));
    let head = docstore::keys::LogKey { account_id: 1, collection: EMAIL, change_id: 0 }.encode();
    t.put(head, vec![1, 2, 3]);
    let mut s = Store::from_table(t);
    assert!(matches!(s.get_changes(1, EMAIL, 5), Err(Error::InternalError(_))));
    assert!(matches!(s.create(1, EMAIL, &[]), Err(Error::InternalError(_))));
}

#[test]
fn used_up_numbers_are_an_internal_error() {
    let mut t = Table::new();
    let head = docstore::keys::LogKey { account_id: 1, collection: EMAIL, change_id: 0 }.encode();
    let mut h = Vec::new();
    h.extend_from_slice(&5u64.to_be_bytes());
    h.extend_from_slice(&u32::MAX.to_be_bytes());
    t.put(head.clone(), h);
    let mut s = Store::from_table(t.clone());
    assert!(matches!(s.create(1, EMAIL, &[]), Err(Error::InternalError(_))));
    let mut h = Vec::new();
    h.extend_from_slice(&u64::MAX.to_be_bytes());
    h.extend_from_slice(&5u32.to_be_bytes());
    t.put(head, h);
    let mut s = Store::from_table(t);
    assert!(matches!(s.create(1, EMAIL, &[]), Err(Error::InternalError(_))));
}

#[test]
fn values_and_bitmaps_are_read_back() {
    let mut s = Store::new();
    s.create(1, EMAIL, &[set(SUBJECT, INDEX_EXACT, "Hello"), set(BODY, 0, "")]).unwrap();
    assert_eq!(s.get_value(1, EMAIL, 1, SUBJECT).unwrap(), b"Hello".to_vec());
    assert_eq!(s.get_value(1, EMAIL, 1, BODY).unwrap(), Vec::<u8>::new());
    assert!(matches!(s.get_value(1, EMAIL, 1, 99), Err(Error::NotFound)));
    assert_eq!(ids(s.get_bitmap(1, EMAIL, BM_TERM, SUBJECT, b"hello")), vec![1]);
    assert_eq!(ids(s.get_bitmap(1, EMAIL, BM_DOCUMENT_IDS, 0, b"")), vec![1]);
    assert!(matches!(s.get_bitmap(1, EMAIL, BM_TERM, SUBJECT, b"nope"), Err(Error::NotFound)));
    // A family byte that names no family is never found, even where it is the type byte of
    // another key that is there.
    assert!(matches!(s.get_bitmap(1, EMAIL, KEY_VALUE, 0, &[0, 0, 1, SUBJECT]), Err(Error::NotFound)));
    assert!(matches!(s.get_bitmap(1, EMAIL, 0x13, SUBJECT, b"hello"), Err(Error::NotFound)));
}

#[test]
fn a_record_without_options_is_corrupt() {
    let mut t = Table::new();
    t.put(docstore::keys::ValueKey { account_id: 1, collection: EMAIL, document_id: 1, field: SUBJECT }.encode(), vec![]);
    let s = Store::from_table(t);
    assert!(matches!(s.get_value(1, EMAIL, 1, SUBJECT), Err(Error::InternalError(_))));
    assert!(Error::NotFound.is_not_found());
    assert!(!Error::InternalError(String::new()).is_not_found());
}

#[test]
fn terms_that_share_a_hash_are_told_apart_by_the_text() {
    // Two tokens of 33 bytes with the same hash: 0x80 * 31 + 0xA0 == 0x81 * 31 + 0x81.
    let mut one = vec![b'x'; 31];
    one.extend_from_slice(&[0x80, 0xA0]);
    let mut two = vec![b'x'; 31];
    two.extend_from_slice(&[0x81, 0x81]);
    assert_eq!(hash_bytes(&one), hash_bytes(&two));
    let mut s = Store::new();
    let field = |t: &[u8]| FieldChange { field: BODY, value: Some(FieldValue { options: INDEX_EXACT | INDEX_STEMMED, text: t.to_vec() }) };
    s.create(1, EMAIL, &[field(&one)]).unwrap();
    s.create(1, EMAIL, &[field(&two)]).unwrap();
    assert_eq!(ids(s.search(1, EMAIL, BODY, &one, Strategy::Exact)), vec![1, 2]);
    assert_eq!(ids(s.search_verified(1, EMAIL, BODY, &one, Strategy::Exact)), vec![1]);
    assert_eq!(ids(s.search_verified(1, EMAIL, BODY, &two, Strategy::Exact)), vec![2]);
    assert_eq!(ids(s.search_verified(1, EMAIL, BODY, &one, Strategy::Stemmed)), vec![1]);
    assert_eq!(ids(s.search_verified(1, EMAIL, BODY, &two, Strategy::Stemmed)), vec![2]);
    // Short terms are found as they stand.
    s.create(1, EMAIL, &[field(b"Hello")]).unwrap();
    assert_eq!(ids(s.search_verified(1, EMAIL, BODY, b"hello", Strategy::Exact)), vec![3]);
    assert_eq!(ids(s.search_verified(1, EMAIL, BODY, b"HELLO", Strategy::Stemmed)), vec![3]);
    assert!(ids(s.search_verified(1, EMAIL, BODY, b"hell", Strategy::Exact)).is_empty());
}

#[test]
fn a_text_holds_a_term_by_the_strategy() {
    assert!(holds_term(b"Hello, World", Strategy::Exact, b"WORLD"));
    assert!(!holds_term(b"Hello, World", Strategy::Exact, b"wor"));
    assert!(holds_term(b"walking dogs", Strategy::Stemmed, b"walked"));
    assert!(!holds_term(b"walking dogs", Strategy::Stemmed, b"cat"));
    assert!(holds_term(b"In Box", Strategy::Tag, b"In Box"));
    assert!(!holds_term(b"In Box", Strategy::Tag, b"in box"));
    assert!(!holds_term(b"", Strategy::Exact, b""));
}

fn mutation(kind: ChangeKind, document_id: u32, changes: Vec<FieldChange>) -> Mutation {
    Mutation { kind, document_id, changes }
}

#[test]
fn a_batch_reaches_the_table_whole() {
    let mut s = Store::new();
    s.create(1, EMAIL, &[set(SUBJECT, INDEX_EXACT, "old")]).unwrap();
    let mut mirror = snapshot(&s);
    let batch = vec![
        mutation(ChangeKind::Insert, 0, vec![set(SUBJECT, INDEX_EXACT, "first")]),
        mutation(ChangeKind::Insert, 99, vec![set(SUBJECT, INDEX_EXACT, "second")]),
        mutation(ChangeKind::Update, 2, vec![set(SUBJECT, INDEX_EXACT, "changed")]),
        mutation(ChangeKind::Delete, 1, vec![set(SUBJECT, INDEX_EXACT, "ignored")]),
        mutation(ChangeKind::Update, 3, vec![]),
    ];
    let w = s.write_batch(1, EMAIL, &batch).unwrap();
    assert_eq!(
        w.changes,
        vec![
            Change { change_id: 2, document_id: 2, kind: ChangeKind::Insert },
            Change { change_id: 3, document_id: 3, kind: ChangeKind::Insert },
            Change { change_id: 4, document_id: 2, kind: ChangeKind::Update },
            Change { change_id: 5, document_id: 1, kind: ChangeKind::Delete },
            Change { change_id: 6, document_id: 3, kind: ChangeKind::Update },
        ]
    );
    mirror.apply(&w.ops);
    assert_eq!(&mirror, s.table());
    assert_eq!(ids(s.document_ids(1, EMAIL)), vec![2, 3]);
    assert_eq!(ids(s.search(1, EMAIL, SUBJECT, b"changed", Strategy::Exact)), vec![2]);
    assert!(ids(s.search(1, EMAIL, SUBJECT, b"first", Strategy::Exact)).is_empty());
    assert!(ids(s.search(1, EMAIL, SUBJECT, b"old", Strategy::Exact)).is_empty());
    assert_eq!(s.get_changes(1, EMAIL, 1).unwrap(), w.changes);
    let none = s.write_batch(1, EMAIL, &[]).unwrap();
    assert!(none.changes.is_empty() && none.ops.is_empty());
}

#[test]
fn a_batch_that_fails_partway_leaves_nothing_behind() {
    let mut s = Store::new();
    s.create(1, EMAIL, &[set(SUBJECT, INDEX_EXACT, "old")]).unwrap();
    let before = snapshot(&s);
    let batch = vec![
        mutation(ChangeKind::Insert, 0, vec![set(SUBJECT, INDEX_EXACT, "first")]),
        mutation(ChangeKind::Delete, 1, vec![]),
        mutation(ChangeKind::Update, 7, vec![set(SUBJECT, INDEX_EXACT, "missing")]),
        mutation(ChangeKind::Insert, 0, vec![]),
    ];
    assert!(matches!(s.write_batch(1, EMAIL, &batch), Err(Error::NotFound)));
    assert_eq!(snapshot(&s), before);
    assert_eq!(s.get_changes(1, EMAIL, 0).unwrap().len(), 1);
    // A document that an earlier write of the batch destroyed is gone for the later ones.
    let twice = vec![mutation(ChangeKind::Delete, 1, vec![]), mutation(ChangeKind::Update, 1, vec![])];
    assert!(matches!(s.write_batch(1, EMAIL, &twice), Err(Error::NotFound)));
    assert_eq!(snapshot(&s), before);
}

#[test]
fn a_batch_stops_at_its_first_write_that_cannot_be_made() {
    // A collection whose document ids are used up.
    let mut t = Table::new();
    let head = docstore::keys::LogKey { account_id: 1, collection: EMAIL, change_id: 0 }.encode();
    let mut h = Vec::new();
    h.extend_from_slice(&0u64.to_be_bytes());
    h.extend_from_slice(&u32::MAX.to_be_bytes());
    t.put(head, h);
    let mut s = Store::from_table(t);
    let before = snapshot(&s);
    let create = || mutation(ChangeKind::Insert, 0, vec![]);
    let update = |doc| mutation(ChangeKind::Update, doc, vec![]);
    assert!(matches!(s.write_batch(1, EMAIL, &[create()]), Err(Error::InternalError(_))));
    assert!(matches!(s.write_batch(1, EMAIL, &[update(3), create()]), Err(Error::NotFound)));
    assert!(matches!(s.write_batch(1, EMAIL, &[create(), update(3)]), Err(Error::InternalError(_))));
    assert_eq!(snapshot(&s), before);
    // Another collection is not held up.
    let w = s.write_batch(1, 3, &[create(), update(1), create(), mutation(ChangeKind::Delete, 1, vec![]), update(2)]).unwrap();
    assert_eq!(w.changes.len(), 5);
    assert_eq!(ids(s.document_ids(1, 3)), vec![2]);
    // A document that the batch itself creates can be written to later in the batch.
    let mut fresh = Store::new();
    let w = fresh.write_batch(1, EMAIL, &[create(), update(1), update(2)]);
    assert!(matches!(w, Err(Error::NotFound)));
    let w = fresh.write_batch(1, EMAIL, &[create(), create(), update(2)]).unwrap();
    assert_eq!(w.changes[2], Change { change_id: 3, document_id: 2, kind: ChangeKind::Update });
}
