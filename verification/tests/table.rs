use docstore::batch::{decide, Batch, Decision, Op, Outcome};
use docstore::error::Error;
use docstore::table::Table;

fn table(pairs: &[(&[u8], &[u8])]) -> Table {
    let mut t = Table::new();
    for (k, v) in pairs {
        t.put(k.to_vec(), v.to_vec());
    }
    t
}

fn keys(t: &Table) -> Vec<Vec<u8>> {
    (0..t.len()).map(|i| t.key_at(i).to_vec()).collect()
}

#[test]
fn table_keeps_keys_in_byte_order() {
    let t = table(&[(b"b", b"2"), (b"a", b"1"), (b"ab", b"3"), (b"", b"0")]);
    assert_eq!(keys(&t), vec![b"".to_vec(), b"a".to_vec(), b"ab".to_vec(), b"b".to_vec()]);
    assert_eq!(t.value_at(2), b"3");
    assert_eq!(t.get(b"ab"), Some(&b"3"[..]));
    assert_eq!(t.get(b"c"), None);
    assert!(t.contains_key(b""));
    assert!(!t.contains_key(b"aa"));
}

#[test]
fn put_overwrites_and_delete_removes() {
    let mut t = table(&[(b"a", b"1"), (b"b", b"2")]);
    t.put(b"a".to_vec(), b"9".to_vec());
    assert_eq!(t.len(), 2);
    assert_eq!(t.get(b"a"), Some(&b"9"[..]));
    t.delete(b"a");
    t.delete(b"zz");
    assert_eq!(keys(&t), vec![b"b".to_vec()]);
}

#[test]
fn seek_finds_the_first_key_not_before() {
    let t = table(&[(b"b", b""), (b"d", b""), (b"f", b"")]);
    assert_eq!(t.seek(b"a"), 0);
    assert_eq!(t.seek(b"b"), 0);
    assert_eq!(t.seek(b"c"), 1);
    assert_eq!(t.seek(b"f"), 2);
    assert_eq!(t.seek(b"g"), 3);
    assert_eq!(Table::new().seek(b"x"), 0);
}

#[test]
fn clone_table_is_independent() {
    let t = table(&[(b"a", b"1")]);
    let mut c = t.clone_table();
    c.put(b"b".to_vec(), b"2".to_vec());
    assert_eq!(t.len(), 1);
    assert_eq!(c.len(), 2);
}

#[test]
fn apply_makes_changes_in_order() {
    let mut t = table(&[(b"a", b"1")]);
    t.apply(&[
        Op::Put { key: b"b".to_vec(), value: b"2".to_vec() },
        Op::Delete { key: b"a".to_vec() },
        Op::Put { key: b"b".to_vec(), value: b"3".to_vec() },
        Op::Put { key: b"a".to_vec(), value: b"4".to_vec() },
        Op::Delete { key: b"missing".to_vec() },
    ]);
    assert_eq!(t, table(&[(b"a", b"4"), (b"b", b"3")]));
}

#[test]
fn commit_is_all_or_nothing() {
    let mut t = table(&[(b"a", b"1")]);
    let before = t.clone();
    let mut batch = Batch::new();
    batch.expect(b"a".to_vec(), Some(b"1".to_vec()));
    batch.expect(b"b".to_vec(), Some(b"x".to_vec()));
    batch.put(b"a".to_vec(), b"2".to_vec());
    batch.delete(b"a".to_vec());
    assert_eq!(t.commit(&batch), Outcome::Conflict);
    assert_eq!(t, before);
    let mut ok = Batch::new();
    ok.expect(b"a".to_vec(), Some(b"1".to_vec()));
    ok.expect(b"b".to_vec(), None);
    ok.put(b"b".to_vec(), b"2".to_vec());
    ok.put(b"a".to_vec(), b"3".to_vec());
    assert_eq!(t.commit(&ok), Outcome::Committed);
    assert_eq!(t, table(&[(b"a", b"3"), (b"b", b"2")]));
    assert!(t.check(&[]));
}

#[test]
fn retries_are_bounded() {
    assert_eq!(decide(Outcome::Committed, 0, 0), Decision::Done);
    assert_eq!(decide(Outcome::Committed, 5, 3), Decision::Done);
    assert_eq!(decide(Outcome::Conflict, 0, 3), Decision::Retry);
    assert_eq!(decide(Outcome::Conflict, 2, 3), Decision::Retry);
    assert_eq!(decide(Outcome::Conflict, 3, 3), Decision::GiveUp);
    assert_eq!(decide(Outcome::Conflict, 0, 0), Decision::GiveUp);
}

#[test]
fn two_writers_one_commits_the_other_conflicts_after_retries() {
    // Both writers checked, outside the store, that the name is free, and
    // prepared their batches on that footing.
    let mut t = Table::new();
    let name = b"unique/alice".to_vec();
    let mut first = Batch::new();
    first.expect(name.clone(), None);
    first.put(name.clone(), b"writer-1".to_vec());
    let mut second = Batch::new();
    second.expect(name.clone(), None);
    second.put(name.clone(), b"writer-2".to_vec());
    assert!(t.write(&first, 3).is_ok());
    let after_first = t.clone();
    let r = t.write(&second, 3);
    assert!(matches!(r, Err(Error::InternalError(_))));
    assert_eq!(t, after_first);
    assert_eq!(t.get(&name), Some(&b"writer-1"[..]));
    // Without retries the outcome is the same.
    assert!(matches!(t.write(&second, 0), Err(Error::InternalError(_))));
    assert_eq!(t.commit(&second), Outcome::Conflict);
}
