use docstore::batch::Op;
use docstore::bitmap::Bitmap;
use docstore::cache::{is_touched, PostingCache};
use docstore::documents::FieldChange;
use docstore::fts::INDEX_EXACT;
use docstore::index::FieldValue;
use docstore::keys::{BitmapKey, BM_TERM};
use docstore::store::Store;

fn term_key(term: &str) -> BitmapKey<Vec<u8>> {
    BitmapKey { account_id: 1, collection: 2, family: BM_TERM, field: 7, key: term.as_bytes().to_vec() }
}

fn subject(text: &str) -> FieldChange {
    FieldChange { field: 7, value: Some(FieldValue { options: INDEX_EXACT, text: text.as_bytes().to_vec() }) }
}

fn bitmap(ids: &[u32]) -> Bitmap {
    let mut b = Bitmap::new();
    for id in ids {
        b.insert(*id);
    }
    b
}

#[test]
fn the_cache_holds_the_last_list_put_under_a_key() {
    let mut c = PostingCache::new();
    assert_eq!(c.lookup(b"k"), None);
    c.remember(b"k".to_vec(), bitmap(&[1]));
    c.remember(b"other".to_vec(), bitmap(&[9]));
    c.remember(b"k".to_vec(), bitmap(&[1, 2]));
    assert_eq!(c.lookup(b"k"), Some(bitmap(&[1, 2])));
    assert_eq!(c.lookup(b"other"), Some(bitmap(&[9])));
    assert_eq!(c.lookup(b""), None);
}

#[test]
fn changed_keys_leave_the_cache() {
    let mut c = PostingCache::new();
    c.remember(b"a".to_vec(), bitmap(&[1]));
    c.remember(b"b".to_vec(), bitmap(&[2]));
    c.remember(b"a".to_vec(), bitmap(&[3]));
    c.remember(b"c".to_vec(), bitmap(&[4]));
    let ops = vec![
        Op::Put { key: b"a".to_vec(), value: vec![] },
        Op::Delete { key: b"c".to_vec() },
        Op::Delete { key: b"zz".to_vec() },
    ];
    assert!(is_touched(&ops, b"a"));
    assert!(is_touched(&ops, b"zz"));
    assert!(!is_touched(&ops, b"b"));
    assert!(!is_touched(&[], b"a"));
    c.invalidate(&ops);
    assert_eq!(c.lookup(b"a"), None);
    assert_eq!(c.lookup(b"c"), None);
    assert_eq!(c.lookup(b"b"), Some(bitmap(&[2])));
    c.invalidate(&[]);
    assert_eq!(c.lookup(b"b"), Some(bitmap(&[2])));
}

#[test]
fn no_reader_sees_a_stale_list_after_a_write() {
    let mut s = Store::new();
    let mut cache = PostingCache::new();
    s.create(1, 2, &[subject("red green")]).unwrap();
    assert_eq!(s.cached_posting(&mut cache, &term_key("red")).unwrap().to_vec(), vec![1]);
    assert_eq!(s.cached_posting(&mut cache, &term_key("green")).unwrap().to_vec(), vec![1]);
    assert_eq!(s.cached_posting(&mut cache, &term_key("blue")).unwrap().to_vec(), Vec::<u32>::new());
    assert_eq!(cache.lookup(&term_key("red").encode()), Some(bitmap(&[1])));
    // The writer takes the changed keys out of the cache as it commits.
    let w = s.create(1, 2, &[subject("red blue")]).unwrap();
    cache.invalidate(&w.ops);
    assert_eq!(cache.lookup(&term_key("red").encode()), None);
    assert_eq!(cache.lookup(&term_key("blue").encode()), None);
    assert_eq!(cache.lookup(&term_key("green").encode()), Some(bitmap(&[1])));
    assert_eq!(s.cached_posting(&mut cache, &term_key("red")).unwrap().to_vec(), vec![1, 2]);
    assert_eq!(s.cached_posting(&mut cache, &term_key("blue")).unwrap().to_vec(), vec![2]);
    assert_eq!(s.cached_posting(&mut cache, &term_key("green")).unwrap().to_vec(), vec![1]);
    let w = s.delete(1, 2, 1).unwrap();
    cache.invalidate(&w.ops);
    assert_eq!(s.cached_posting(&mut cache, &term_key("green")).unwrap().to_vec(), Vec::<u32>::new());
    assert_eq!(s.cached_posting(&mut cache, &term_key("red")).unwrap().to_vec(), vec![2]);
}
