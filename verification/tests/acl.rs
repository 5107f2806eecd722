use docstore::documents::FieldChange;
use docstore::error::Error;
use docstore::fts::INDEX_EXACT;
use docstore::index::FieldValue;
use docstore::keys::{AclKey, KEY_ACL};
use docstore::search::Strategy;
use docstore::store::Store;
use docstore::table::Table;

const READ: u8 = 1;
const WRITE: u8 = 2;
const SHARE: u8 = 4;

#[test]
fn absence_is_no_grant() {
    let s = Store::new();
    assert_eq!(s.check_acl(5, 1, 2, 3, READ).unwrap(), false);
    assert_eq!(s.grants(5, 1, 2, 3).unwrap(), 0);
    // Asking for nothing is always granted.
    assert_eq!(s.check_acl(5, 1, 2, 3, 0).unwrap(), true);
}

#[test]
fn grants_add_up_and_revokes_take_away() {
    let mut s = Store::new();
    s.grant(5, 1, 2, 3, READ).unwrap();
    assert!(s.check_acl(5, 1, 2, 3, READ).unwrap());
    assert!(!s.check_acl(5, 1, 2, 3, WRITE).unwrap());
    assert!(!s.check_acl(5, 1, 2, 3, READ | WRITE).unwrap());
    s.grant(5, 1, 2, 3, WRITE | SHARE).unwrap();
    assert_eq!(s.grants(5, 1, 2, 3).unwrap(), READ | WRITE | SHARE);
    assert!(s.check_acl(5, 1, 2, 3, READ | WRITE).unwrap());
    s.revoke(5, 1, 2, 3, WRITE).unwrap();
    assert_eq!(s.grants(5, 1, 2, 3).unwrap(), READ | SHARE);
    assert!(!s.check_acl(5, 1, 2, 3, WRITE).unwrap());
    s.revoke(5, 1, 2, 3, WRITE).unwrap();
    assert_eq!(s.grants(5, 1, 2, 3).unwrap(), READ | SHARE);
}

#[test]
fn grants_are_per_grantee_and_document() {
    let mut s = Store::new();
    s.grant(5, 1, 2, 3, READ).unwrap();
    assert!(!s.check_acl(6, 1, 2, 3, READ).unwrap());
    assert!(!s.check_acl(5, 2, 2, 3, READ).unwrap());
    assert!(!s.check_acl(5, 1, 3, 3, READ).unwrap());
    assert!(!s.check_acl(5, 1, 2, 4, READ).unwrap());
    assert!(!s.check_acl(1, 5, 2, 3, READ).unwrap());
}

#[test]
fn revoking_everything_removes_the_key() {
    let mut s = Store::new();
    s.grant(5, 1, 2, 3, READ | WRITE).unwrap();
    assert_eq!(s.table().len(), 1);
    let key = AclKey { grant_account_id: 5, to_account_id: 1, to_collection: 2, to_document_id: 3 }.encode();
    assert_eq!(key[5], KEY_ACL);
    assert_eq!(s.table().get(&key), Some(&[READ | WRITE][..]));
    s.revoke(5, 1, 2, 3, READ).unwrap();
    assert_eq!(s.table().len(), 1);
    s.revoke(5, 1, 2, 3, 0xFF).unwrap();
    assert_eq!(s.table().len(), 0);
    s.revoke(5, 1, 2, 3, READ).unwrap();
    s.grant(5, 1, 2, 3, 0).unwrap();
    assert_eq!(s.table().len(), 0);
}

#[test]
fn grant_changes_are_reported_and_touch_nothing_else() {
    let mut s = Store::new();
    s.create(1, 2, &[FieldChange { field: 7, value: Some(FieldValue { options: INDEX_EXACT, text: b"hello".to_vec() }) }]).unwrap();
    let mut mirror = s.table().clone();
    let ops = s.grant(5, 1, 2, 1, READ).unwrap();
    mirror.apply(&ops);
    assert_eq!(&mirror, s.table());
    let ops = s.revoke(5, 1, 2, 1, READ).unwrap();
    mirror.apply(&ops);
    assert_eq!(&mirror, s.table());
    assert_eq!(s.search(1, 2, 7, b"hello", Strategy::Exact).unwrap().to_vec(), vec![1]);
    assert_eq!(s.get_changes(1, 2, 0).unwrap().len(), 1);
}

#[test]
fn a_grant_of_the_wrong_length_is_corrupt() {
    let mut t = Table::new();
    let key = AclKey { grant_account_id: 5, to_account_id: 1, to_collection: 2, to_document_id: 3 }.encode();
    t.put(key, vec![1, 2]);
    let mut s = Store::from_table(t.clone());
    assert!(matches!(s.check_acl(5, 1, 2, 3, READ), Err(Error::InternalError(_))));
    assert!(matches!(s.grant(5, 1, 2, 3, READ), Err(Error::InternalError(_))));
    assert!(matches!(s.revoke(5, 1, 2, 3, READ), Err(Error::InternalError(_))));
    assert_eq!(s.table(), &t);
}
