use docstore::documents::FieldChange;
use docstore::error::Error;
use docstore::fts::{INDEX_BLOOM, INDEX_EXACT, INDEX_SORT, INDEX_STEMMED, INDEX_TAG};
use docstore::index::FieldValue;
use docstore::keys::{IndexKey, ValueKey};
use docstore::query::{page_of_ids, Filter, Sort};
use docstore::search::Strategy;
use docstore::store::Store;
use docstore::bitmap::Bitmap;

const MAIL: u8 = 2;
const SUBJECT: u8 = 7;
const BODY: u8 = 8;
const SIZE: u8 = 9;

fn set(field: u8, options: u8, text: &[u8]) -> FieldChange {
    FieldChange { field, value: Some(FieldValue { options, text: text.to_vec() }) }
}

fn term(field: u8, t: &str) -> Filter {
    Filter::Term { field, term: t.as_bytes().to_vec(), strategy: Strategy::Exact }
}

fn and(a: Filter, b: Filter) -> Filter {
    Filter::And(Box::new(a), Box::new(b))
}

fn or(a: Filter, b: Filter) -> Filter {
    Filter::Or(Box::new(a), Box::new(b))
}

fn not(a: Filter) -> Filter {
    Filter::Not(Box::new(a))
}

/// Five mails: subject words, a size as a big-endian number, a body.
fn mailbox() -> Store {
    let mut s = Store::new();
    let mails: [(&str, u32, &str); 5] = [
        ("red apple", 300, "The quick brown fox"),
        ("green apple", 100, "jumps over"),
        ("red cherry", 200, "the lazy dog"),
        ("yellow banana", 100, "quickly done"),
        ("green cherry", 50, ""),
    ];
    for (subject, size, body) in mails {
        s.create(
            1,
            MAIL,
            &[
                set(SUBJECT, INDEX_EXACT | INDEX_SORT, subject.as_bytes()),
                set(SIZE, INDEX_SORT, &size.to_be_bytes()),
                set(BODY, INDEX_BLOOM | INDEX_STEMMED, body.as_bytes()),
            ],
        )
        .unwrap();
    }
    s
}

fn run(s: &Store, f: &Filter, sort: Option<Sort>, offset: usize, limit: Option<usize>) -> Vec<u32> {
    s.query(1, MAIL, f, sort, offset, limit).unwrap()
}

#[test]
fn filters_combine_as_sets() {
    let s = mailbox();
    let ids = |f: Filter| s.resolve(1, MAIL, &f).unwrap().to_vec();
    assert_eq!(ids(term(SUBJECT, "red")), vec![1, 3]);
    assert_eq!(ids(and(term(SUBJECT, "red"), term(SUBJECT, "apple"))), vec![1]);
    assert_eq!(ids(or(term(SUBJECT, "red"), term(SUBJECT, "apple"))), vec![1, 2, 3]);
    assert_eq!(ids(not(term(SUBJECT, "red"))), vec![2, 4, 5]);
    assert_eq!(ids(and(not(term(SUBJECT, "red")), not(term(SUBJECT, "green")))), vec![4]);
    assert_eq!(ids(not(not(term(SUBJECT, "cherry")))), vec![3, 5]);
    assert!(ids(and(term(SUBJECT, "red"), term(SUBJECT, "banana"))).is_empty());
    assert!(ids(term(SUBJECT, "missing")).is_empty());
    assert_eq!(ids(not(term(SUBJECT, "missing"))), vec![1, 2, 3, 4, 5]);
    assert_eq!(ids(Filter::Substring { field: BODY, needle: b"QUICK".to_vec() }), vec![1, 4]);
    assert_eq!(
        ids(and(Filter::Substring { field: BODY, needle: b"quick".to_vec() }, term(SUBJECT, "red"))),
        vec![1]
    );
    assert_eq!(
        ids(Filter::Term { field: BODY, term: b"jumped".to_vec(), strategy: Strategy::Stemmed }),
        vec![2]
    );
}

#[test]
fn an_empty_first_branch_ends_a_conjunction() {
    // The second branch would fail on a posting list that cannot be read.
    let s = mailbox();
    let mut t = s.table().clone();
    let bad = docstore::keys::BitmapKey { account_id: 1, collection: MAIL, family: 0x10, field: SUBJECT, key: &b"broken"[..] }.encode();
    t.put(bad, vec![7]);
    let s = Store::from_table(t);
    assert!(matches!(s.resolve(1, MAIL, &term(SUBJECT, "broken")), Err(Error::InternalError(_))));
    assert!(s.resolve(1, MAIL, &and(term(SUBJECT, "missing"), term(SUBJECT, "broken"))).unwrap().is_empty());
    assert!(matches!(
        s.resolve(1, MAIL, &and(term(SUBJECT, "red"), term(SUBJECT, "broken"))),
        Err(Error::InternalError(_))
    ));
    assert!(matches!(
        s.resolve(1, MAIL, &or(term(SUBJECT, "missing"), term(SUBJECT, "broken"))),
        Err(Error::InternalError(_))
    ));
}

#[test]
fn unsorted_results_come_in_id_order() {
    let s = mailbox();
    let all = not(term(SUBJECT, "missing"));
    assert_eq!(run(&s, &all, None, 0, None), vec![1, 2, 3, 4, 5]);
    assert_eq!(run(&s, &all, None, 1, Some(2)), vec![2, 3]);
    assert_eq!(run(&s, &all, None, 4, Some(2)), vec![5]);
    assert_eq!(run(&s, &all, None, 5, Some(2)), Vec::<u32>::new());
    assert_eq!(run(&s, &all, None, 9, None), Vec::<u32>::new());
    assert_eq!(run(&s, &all, None, 0, Some(0)), Vec::<u32>::new());
    assert_eq!(run(&s, &all, None, 0, Some(usize::MAX)), vec![1, 2, 3, 4, 5]);
    assert_eq!(run(&s, &all, None, usize::MAX, Some(usize::MAX)), Vec::<u32>::new());
}

#[test]
fn sorted_results_follow_the_payload_then_the_document() {
    let s = mailbox();
    let all = not(term(SUBJECT, "missing"));
    let by_size = |ascending| Some(Sort { field: SIZE, ascending });
    assert_eq!(run(&s, &all, by_size(true), 0, None), vec![5, 2, 4, 3, 1]);
    assert_eq!(run(&s, &all, by_size(false), 0, None), vec![1, 3, 4, 2, 5]);
    let by_subject = |ascending| Some(Sort { field: SUBJECT, ascending });
    assert_eq!(run(&s, &all, by_subject(true), 0, None), vec![2, 5, 1, 3, 4]);
    assert_eq!(run(&s, &all, by_subject(false), 0, None), vec![4, 3, 1, 5, 2]);
    let red = term(SUBJECT, "red");
    assert_eq!(run(&s, &red, by_size(true), 0, None), vec![3, 1]);
    assert_eq!(run(&s, &red, by_size(false), 0, None), vec![1, 3]);
    assert_eq!(run(&s, &term(SUBJECT, "missing"), by_size(true), 0, None), Vec::<u32>::new());
}

#[test]
fn sorted_results_are_paged_during_the_walk() {
    let s = mailbox();
    let all = not(term(SUBJECT, "missing"));
    let up = Some(Sort { field: SIZE, ascending: true });
    let down = Some(Sort { field: SIZE, ascending: false });
    assert_eq!(run(&s, &all, up, 0, Some(2)), vec![5, 2]);
    assert_eq!(run(&s, &all, up, 2, Some(2)), vec![4, 3]);
    assert_eq!(run(&s, &all, up, 4, Some(2)), vec![1]);
    assert_eq!(run(&s, &all, up, 5, Some(2)), Vec::<u32>::new());
    assert_eq!(run(&s, &all, up, 3, None), vec![3, 1]);
    assert_eq!(run(&s, &all, up, 0, Some(0)), Vec::<u32>::new());
    assert_eq!(run(&s, &all, down, 0, Some(2)), vec![1, 3]);
    assert_eq!(run(&s, &all, down, 1, Some(3)), vec![3, 4, 2]);
    assert_eq!(run(&s, &all, down, 4, Some(9)), vec![5]);
    assert_eq!(run(&s, &all, down, 7, None), Vec::<u32>::new());
}

#[test]
fn sort_sees_only_the_field_asked_for() {
    let mut s = Store::new();
    s.create(1, MAIL, &[set(8, INDEX_SORT, b"b"), set(9, INDEX_SORT, b"a"), set(10, INDEX_SORT, b"c")]).unwrap();
    s.create(1, MAIL, &[set(8, INDEX_SORT, b"a"), set(9, INDEX_SORT, b"b")]).unwrap();
    s.create(1, 3, &[set(9, INDEX_SORT, b"0")]).unwrap();
    s.create(2, MAIL, &[set(9, INDEX_SORT, b"0")]).unwrap();
    let all = not(term(SUBJECT, "x"));
    let by = |field| Some(Sort { field, ascending: true });
    assert_eq!(run(&s, &all, by(8), 0, None), vec![2, 1]);
    assert_eq!(run(&s, &all, by(9), 0, None), vec![1, 2]);
    assert_eq!(run(&s, &all, by(10), 0, None), vec![1]);
    assert_eq!(run(&s, &all, by(11), 0, None), Vec::<u32>::new());
    assert_eq!(run(&s, &all, by(255), 0, None), Vec::<u32>::new());
    assert_eq!(run(&s, &all, by(0), 0, None), Vec::<u32>::new());
}

#[test]
fn payloads_that_are_others_cut_short_sort_first() {
    let mut s = Store::new();
    for text in [&b"ab"[..], b"a", b"", b"a\0", b"a\0\0", b"b", b"a\xff"] {
        s.create(1, MAIL, &[set(SIZE, INDEX_SORT, text)]).unwrap();
    }
    let all = not(term(SUBJECT, "x"));
    // "" < "a" < "a\0" < "a\0\0" < "ab" < "a\xff" < "b"
    assert_eq!(run(&s, &all, Some(Sort { field: SIZE, ascending: true }), 0, None), vec![3, 2, 4, 5, 1, 7, 6]);
}

#[test]
fn the_sort_index_follows_updates_and_deletes() {
    let mut s = mailbox();
    let all = not(term(SUBJECT, "missing"));
    let up = Some(Sort { field: SIZE, ascending: true });
    s.update(1, MAIL, 5, &[set(SIZE, INDEX_SORT, &400u32.to_be_bytes())]).unwrap();
    assert_eq!(run(&s, &all, up, 0, None), vec![2, 4, 3, 1, 5]);
    s.update(1, MAIL, 2, &[set(SIZE, 0, &0u32.to_be_bytes())]).unwrap();
    assert_eq!(run(&s, &all, up, 0, None), vec![4, 3, 1, 5]);
    s.update(1, MAIL, 4, &[FieldChange { field: SIZE, value: None }]).unwrap();
    assert_eq!(run(&s, &all, up, 0, None), vec![3, 1, 5]);
    s.delete(1, MAIL, 1).unwrap();
    assert_eq!(run(&s, &all, up, 0, None), vec![3, 5]);
    // An update that keeps the payload keeps the entry.
    s.update(1, MAIL, 3, &[set(SIZE, INDEX_SORT | INDEX_TAG, &200u32.to_be_bytes())]).unwrap();
    assert_eq!(run(&s, &all, up, 0, None), vec![3, 5]);
    let entry = IndexKey { account_id: 1, collection: MAIL, document_id: 3, field: SIZE, key: &200u32.to_be_bytes()[..] }.encode();
    assert!(s.table().contains_key(&entry));
    let value = ValueKey { account_id: 1, collection: MAIL, document_id: 3, field: SIZE }.encode();
    assert_eq!(s.table().get(&value).unwrap()[0], INDEX_SORT | INDEX_TAG);
}

#[test]
fn pages_of_ids_are_cut_exactly() {
    let mut b = Bitmap::new();
    for id in [10, 20, 30] {
        b.insert(id);
    }
    assert_eq!(page_of_ids(&b, 0, None), vec![10, 20, 30]);
    assert_eq!(page_of_ids(&b, 1, Some(1)), vec![20]);
    assert_eq!(page_of_ids(&b, 2, Some(5)), vec![30]);
    assert_eq!(page_of_ids(&b, 3, Some(5)), Vec::<u32>::new());
    assert_eq!(page_of_ids(&Bitmap::new(), 0, None), Vec::<u32>::new());
}
