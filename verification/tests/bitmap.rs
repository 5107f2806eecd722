use docstore::bitmap::Bitmap;
use docstore::bitmap_algebra::{intersect_all, union_all, BitmapOp};
use docstore::keys::{Deserialize, Serialize};

fn bitmap(ids: &[u32]) -> Bitmap {
    let mut b = Bitmap::new();
    for id in ids {
        b.insert(*id);
    }
    b
}

#[test]
fn insert_keeps_ids_ascending_and_unique() {
    let mut b = Bitmap::new();
    assert!(b.is_empty());
    assert!(b.insert(5));
    assert!(b.insert(1));
    assert!(b.insert(9));
    assert!(!b.insert(5));
    assert_eq!(b.to_vec(), vec![1, 5, 9]);
    assert_eq!(b.len(), 3);
    assert_eq!(b.get(1), 5);
    assert!(b.contains(9));
    assert!(!b.contains(2));
    assert!(!b.is_empty());
}

#[test]
fn remove_takes_only_the_id_out() {
    let mut b = bitmap(&[1, 5, 9]);
    assert!(b.remove(5));
    assert!(!b.remove(5));
    assert!(!b.remove(7));
    assert_eq!(b.to_vec(), vec![1, 9]);
    assert!(b.remove(1));
    assert!(b.remove(9));
    assert!(b.is_empty());
}

#[test]
fn boundary_ids_are_held() {
    let mut b = bitmap(&[u32::MAX, 0]);
    assert_eq!(b.to_vec(), vec![0, u32::MAX]);
    assert!(b.contains(0));
    assert!(b.contains(u32::MAX));
    assert!(b.remove(0));
    assert_eq!(b.to_vec(), vec![u32::MAX]);
}

#[test]
fn union_intersection_difference_are_set_operations() {
    let a = bitmap(&[1, 2, 3, 8]);
    let b = bitmap(&[2, 3, 4, 9, 10]);
    assert_eq!(a.union(&b).to_vec(), vec![1, 2, 3, 4, 8, 9, 10]);
    assert_eq!(a.intersection(&b).to_vec(), vec![2, 3]);
    assert_eq!(b.intersection(&a).to_vec(), vec![2, 3]);
    assert_eq!(a.difference(&b).to_vec(), vec![1, 8]);
    assert_eq!(b.difference(&a).to_vec(), vec![4, 9, 10]);
    let empty = Bitmap::new();
    assert_eq!(a.union(&empty).to_vec(), a.to_vec());
    assert!(a.intersection(&empty).is_empty());
    assert_eq!(a.difference(&empty).to_vec(), a.to_vec());
    assert!(empty.difference(&a).is_empty());
}

#[test]
fn lists_of_bitmaps_combine() {
    let list = vec![bitmap(&[1, 2, 3]), bitmap(&[2, 3, 4]), bitmap(&[3, 5])];
    assert_eq!(union_all(&list).to_vec(), vec![1, 2, 3, 4, 5]);
    assert_eq!(intersect_all(&list).to_vec(), vec![3]);
    assert!(union_all(&[]).is_empty());
    assert!(intersect_all(&[]).is_empty());
    let apart = vec![bitmap(&[1]), bitmap(&[2]), bitmap(&[1])];
    assert!(intersect_all(&apart).is_empty());
    assert_eq!(intersect_all(&list[..1]).to_vec(), vec![1, 2, 3]);
}

#[test]
fn pending_changes_merge_in_order() {
    let mut b = bitmap(&[1, 2]);
    b.merge(&[
        BitmapOp::Insert(5),
        BitmapOp::Remove(1),
        BitmapOp::Insert(1),
        BitmapOp::Remove(2),
        BitmapOp::Remove(7),
    ]);
    assert_eq!(b.to_vec(), vec![1, 5]);
    b.merge(&[]);
    assert_eq!(b.to_vec(), vec![1, 5]);
}

#[test]
fn from_ascending_wants_strictly_increasing_ids() {
    assert_eq!(Bitmap::from_ascending(vec![1, 2, 9]).map(|b| b.to_vec()), Some(vec![1, 2, 9]));
    assert!(Bitmap::from_ascending(vec![]).is_some());
    assert!(Bitmap::from_ascending(vec![1, 1]).is_none());
    assert!(Bitmap::from_ascending(vec![2, 1]).is_none());
}

#[test]
fn bitmap_bytes_round_trip() {
    let b = bitmap(&[1, 256, 0x0102_0304]);
    let bytes = b.encode();
    assert_eq!(bytes, vec![0, 0, 0, 1, 0, 0, 1, 0, 1, 2, 3, 4]);
    assert_eq!(Bitmap::decode(&bytes), Some(b.clone()));
    assert_eq!(Bitmap::deserialize(&b.clone().serialize()), Some(b));
    assert_eq!(Bitmap::decode(&[]), Some(Bitmap::new()));
}

#[test]
fn bitmap_bytes_out_of_order_or_cut_are_rejected() {
    assert_eq!(Bitmap::decode(&[0, 0, 0, 1, 0]), None);
    assert_eq!(Bitmap::decode(&[0, 0, 0, 2, 0, 0, 0, 1]), None);
    assert_eq!(Bitmap::decode(&[0, 0, 0, 2, 0, 0, 0, 2]), None);
}

#[test]
fn clone_set_copies() {
    let b = bitmap(&[3, 4]);
    let mut c = b.clone_set();
    c.insert(5);
    assert_eq!(b.to_vec(), vec![3, 4]);
    assert_eq!(c.to_vec(), vec![3, 4, 5]);
}
