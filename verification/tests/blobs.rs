use docstore::documents::FieldChange;
use docstore::error::Error;
use docstore::fts::{INDEX_EXACT, INDEX_SORT};
use docstore::index::FieldValue;
use docstore::keys::{BlobKey, KEY_ACL, KEY_BLOB, KEY_LOG};
use docstore::store::Store;
use docstore::table::Table;
use docstore::txn::Txn;

const FILES: u8 = 4;

fn store_with(docs: u32) -> Store {
    let mut s = Store::new();
    for _ in 0..docs {
        s.create(1, FILES, &[]).unwrap();
    }
    s
}

fn kinds(s: &Store) -> Vec<u8> {
    let t = s.table();
    (0..t.len()).map(|i| t.key_at(i)[5]).collect()
}

fn count(s: &Store, kind: u8) -> usize {
    kinds(s).into_iter().filter(|k| *k == kind).count()
}

#[test]
fn a_payload_is_stored_once_for_all_documents() {
    let mut s = store_with(3);
    s.put_blob(1, FILES, 1, b"h1", b"payload").unwrap();
    s.put_blob(1, FILES, 2, b"h1", b"payload").unwrap();
    s.put_blob(1, FILES, 2, b"h2", b"other").unwrap();
    // Two payloads and three links.
    assert_eq!(count(&s, KEY_BLOB), 5);
    assert_eq!(s.get_blob(1, FILES, 1, b"h1").unwrap(), b"payload".to_vec());
    assert_eq!(s.get_blob(1, FILES, 2, b"h1").unwrap(), b"payload".to_vec());
    assert_eq!(s.get_blob(1, FILES, 2, b"h2").unwrap(), b"other".to_vec());
    assert!(matches!(s.get_blob(1, FILES, 1, b"h2"), Err(Error::NotFound)));
    assert!(matches!(s.get_blob(1, FILES, 3, b"h1"), Err(Error::NotFound)));
    assert!(matches!(s.get_blob(2, FILES, 1, b"h1"), Err(Error::NotFound)));
    // Linking again changes nothing.
    let before = s.table().clone();
    s.put_blob(1, FILES, 1, b"h1", b"payload").unwrap();
    assert_eq!(s.table(), &before);
}

#[test]
fn a_payload_goes_with_its_last_link() {
    let mut s = store_with(2);
    s.put_blob(1, FILES, 1, b"h", b"payload").unwrap();
    s.put_blob(1, FILES, 2, b"h", b"payload").unwrap();
    s.remove_blob(1, FILES, 1, b"h").unwrap();
    assert!(matches!(s.get_blob(1, FILES, 1, b"h"), Err(Error::NotFound)));
    assert_eq!(s.get_blob(1, FILES, 2, b"h").unwrap(), b"payload".to_vec());
    assert_eq!(count(&s, KEY_BLOB), 2);
    s.remove_blob(1, FILES, 2, b"h").unwrap();
    assert_eq!(count(&s, KEY_BLOB), 0);
    assert!(matches!(s.remove_blob(1, FILES, 2, b"h"), Err(Error::NotFound)));
}

#[test]
fn payloads_are_kept_per_collection() {
    let mut s = store_with(1);
    s.create(1, 5, &[]).unwrap();
    s.put_blob(1, FILES, 1, b"h", b"payload").unwrap();
    s.put_blob(1, 5, 1, b"h", b"payload").unwrap();
    s.remove_blob(1, FILES, 1, b"h").unwrap();
    assert_eq!(s.get_blob(1, 5, 1, b"h").unwrap(), b"payload".to_vec());
    assert_eq!(count(&s, KEY_BLOB), 2);
}

#[test]
fn hashes_that_are_others_cut_short_are_told_apart() {
    let mut s = store_with(2);
    s.put_blob(1, FILES, 1, b"ab", b"one").unwrap();
    s.put_blob(1, FILES, 2, b"abc", b"two").unwrap();
    s.put_blob(1, FILES, 2, b"", b"none").unwrap();
    s.remove_blob(1, FILES, 1, b"ab").unwrap();
    assert_eq!(s.get_blob(1, FILES, 2, b"abc").unwrap(), b"two".to_vec());
    assert_eq!(s.get_blob(1, FILES, 2, b"").unwrap(), b"none".to_vec());
    assert!(matches!(s.get_blob(1, FILES, 1, b"ab"), Err(Error::NotFound)));
    assert_eq!(count(&s, KEY_BLOB), 4);
}

#[test]
fn only_live_documents_can_be_linked() {
    let mut s = store_with(1);
    let before = s.table().clone();
    assert!(matches!(s.put_blob(1, FILES, 2, b"h", b"p"), Err(Error::NotFound)));
    assert!(matches!(s.put_blob(1, FILES, 0, b"h", b"p"), Err(Error::NotFound)));
    assert!(matches!(s.put_blob(2, FILES, 1, b"h", b"p"), Err(Error::NotFound)));
    assert!(matches!(s.remove_blob(1, FILES, 0, b"h"), Err(Error::NotFound)));
    assert!(matches!(s.get_blob(1, FILES, 0, b"h"), Err(Error::NotFound)));
    assert_eq!(s.table(), &before);
}

#[test]
fn different_bytes_under_one_hash_are_corruption() {
    let mut s = store_with(2);
    s.put_blob(1, FILES, 1, b"h", b"payload").unwrap();
    let before = s.table().clone();
    assert!(matches!(s.put_blob(1, FILES, 2, b"h", b"forged"), Err(Error::InternalError(_))));
    assert_eq!(s.table(), &before);
    // A link whose payload is gone.
    let mut t = before.clone();
    t.delete(&BlobKey { account_id: 1, collection: FILES, document_id: 0, hash: &b"h"[..] }.encode());
    let s = Store::from_table(t);
    assert!(matches!(s.get_blob(1, FILES, 1, b"h"), Err(Error::InternalError(_))));
}

#[test]
fn blob_changes_are_reported() {
    let mut s = store_with(1);
    let mut mirror = s.table().clone();
    mirror.apply(&s.put_blob(1, FILES, 1, b"h", b"payload").unwrap());
    assert_eq!(&mirror, s.table());
    mirror.apply(&s.remove_blob(1, FILES, 1, b"h").unwrap());
    assert_eq!(&mirror, s.table());
}

#[test]
fn deleting_a_document_removes_every_key_of_it() {
    let mut s = Store::new();
    let field = |text: &str| FieldChange {
        field: 7,
        value: Some(FieldValue { options: INDEX_EXACT | INDEX_SORT, text: text.as_bytes().to_vec() }),
    };
    s.create(1, FILES, &[field("keep me")]).unwrap();
    s.create(1, FILES, &[field("drop me")]).unwrap();
    s.create(1, FILES, &[field("keep too")]).unwrap();
    for doc in [1, 2, 3] {
        s.grant(9, 1, FILES, doc, 1).unwrap();
        s.grant(8, 1, FILES, doc, 2).unwrap();
    }
    s.put_blob(1, FILES, 1, b"shared", b"s").unwrap();
    s.put_blob(1, FILES, 2, b"shared", b"s").unwrap();
    s.put_blob(1, FILES, 2, b"own", b"o").unwrap();
    s.put_blob(1, FILES, 3, b"third", b"t").unwrap();
    let mut mirror = s.table().clone();
    let w = s.delete(1, FILES, 2).unwrap();
    mirror.apply(&w.ops);
    assert_eq!(&mirror, s.table());
    // Grants: those on the other two documents are left.
    assert_eq!(count(&s, KEY_ACL), 4);
    assert_eq!(s.grants(9, 1, FILES, 2).unwrap(), 0);
    assert_eq!(s.grants(8, 1, FILES, 2).unwrap(), 0);
    assert_eq!(s.grants(9, 1, FILES, 1).unwrap(), 1);
    assert_eq!(s.grants(8, 1, FILES, 3).unwrap(), 2);
    // Blobs: the shared payload stays, the own one is gone.
    assert_eq!(s.get_blob(1, FILES, 1, b"shared").unwrap(), b"s".to_vec());
    assert_eq!(s.get_blob(1, FILES, 3, b"third").unwrap(), b"t".to_vec());
    assert!(matches!(s.get_blob(1, FILES, 2, b"shared"), Err(Error::NotFound)));
    assert!(matches!(s.get_blob(1, FILES, 2, b"own"), Err(Error::NotFound)));
    assert_eq!(count(&s, KEY_BLOB), 4);
    // No key of the document is left but its ledger entries.
    let t = s.table();
    let doc = 2u32.to_be_bytes();
    for i in 0..t.len() {
        let key = t.key_at(i);
        let names_document = match key[5] {
            0x80 | 0x82 | 0x83 => key[6..10] == doc,
            0x81 => key[key.len() - 4..] == doc,
            _ => false,
        };
        assert!(!names_document, "key {:?} is left", key);
    }
    assert_eq!(count(&s, KEY_LOG), 5);
    assert_eq!(s.search(1, FILES, 7, b"drop", docstore::search::Strategy::Exact).unwrap().to_vec(), Vec::<u32>::new());
    assert_eq!(s.search(1, FILES, 7, b"keep", docstore::search::Strategy::Exact).unwrap().to_vec(), vec![1, 3]);
}

#[test]
fn keys_are_removed_by_their_prefix() {
    let mut t = Table::new();
    for k in [&b"a"[..], b"ab", b"abc", b"abd", b"ac", b"b", b""] {
        t.put(k.to_vec(), k.to_vec());
    }
    assert_eq!(t.prefix_range(b"ab"), (2, 5));
    assert_eq!(t.prefix_range(b""), (0, 7));
    assert_eq!(t.prefix_range(b"zz"), (7, 7));
    assert_eq!(t.prefix_range(b"aa"), (2, 2));
    let mut txn = Txn::begin(&t);
    let removed = txn.delete_prefix(b"ab");
    assert_eq!(removed, vec![b"ab".to_vec(), b"abc".to_vec(), b"abd".to_vec()]);
    assert!(txn.delete_prefix(b"ab").is_empty());
    let (after, ops) = txn.finish();
    assert_eq!(after.len(), 4);
    assert!(after.contains_key(b"a") && after.contains_key(b"ac") && after.contains_key(b"b") && after.contains_key(b""));
    let mut mirror = t.clone();
    mirror.apply(&ops);
    assert_eq!(mirror, after);
    assert!(t.blob_referenced(1, 2, b"x") == false);
}
