use docstore::codec::{lex_less, push_escaped, push_u32, push_u64, read_escaped, read_u32, read_u64};
use docstore::error::Error;
use docstore::key_space::Key;
use docstore::keys::{
    AclKey, BitmapFamily, BitmapKey, BlobKey, BloomKind, Deserialize, IndexKey, LogKey, Serialize,
    TagKind, TermKind, ValueKey, BM_BLOOM, BM_DOCUMENT_IDS, BM_TAG, BM_TERM, BLOOM_TRIGRAM,
    KEY_ACL, KEY_BLOB, KEY_INDEX, KEY_LOG, KEY_VALUE, TAG_STATIC, TERM_HASH, TERM_STEMMED,
};

#[test]
fn big_endian_integers_have_exact_bytes() {
    let mut out = Vec::new();
    push_u32(&mut out, 0x0102_0304);
    push_u64(&mut out, 0x1122_3344_5566_7788);
    assert_eq!(out, vec![1, 2, 3, 4, 0x11, 0x22, 0x33, 0x44, 0x55, 0x66, 0x77, 0x88]);
    assert_eq!(read_u32(&out, 0), 0x0102_0304);
    assert_eq!(read_u64(&out, 4), 0x1122_3344_5566_7788);
    assert_eq!(read_u32(&[0xFF, 0xFF, 0xFF, 0xFF], 0), u32::MAX);
}

#[test]
fn escaped_payload_has_exact_bytes() {
    let mut out = vec![9u8];
    push_escaped(&mut out, &[5, 0, 7]);
    assert_eq!(out, vec![9, 5, 0, 0xFF, 7, 0, 0]);
    assert_eq!(read_escaped(&out, 1), Some((vec![5, 0, 7], 7)));
    let mut empty = Vec::new();
    push_escaped(&mut empty, &[]);
    assert_eq!(empty, vec![0, 0]);
    assert_eq!(read_escaped(&empty, 0), Some((vec![], 2)));
}

#[test]
fn escaped_payload_rejects_bad_input() {
    assert_eq!(read_escaped(&[], 0), None);
    assert_eq!(read_escaped(&[1, 2, 3], 0), None);
    assert_eq!(read_escaped(&[1, 0], 0), None);
    assert_eq!(read_escaped(&[1, 0, 5, 0, 0], 0), None);
}

#[test]
fn byte_order_is_lexicographic() {
    assert!(lex_less(&[], &[0]));
    assert!(!lex_less(&[], &[]));
    assert!(lex_less(&[1, 2], &[1, 3]));
    assert!(lex_less(&[1], &[1, 0]));
    assert!(!lex_less(&[2], &[1, 9]));
    assert!(!lex_less(&[1, 2], &[1, 2]));
}

#[test]
fn value_key_has_exact_bytes() {
    let k = ValueKey { account_id: 1, collection: 2, document_id: 0x0A0B0C0D, field: 7 };
    let bytes = k.encode();
    assert_eq!(bytes, vec![0, 0, 0, 1, 2, KEY_VALUE, 0x0A, 0x0B, 0x0C, 0x0D, 7]);
    assert_eq!(ValueKey::decode(&bytes), Some(k));
    assert_eq!(ValueKey::deserialize(&k.serialize()), Some(k));
}

#[test]
fn acl_key_has_exact_bytes() {
    let k = AclKey { grant_account_id: 9, to_account_id: 1, to_collection: 3, to_document_id: 5 };
    let bytes = k.encode();
    assert_eq!(bytes, vec![0, 0, 0, 1, 3, KEY_ACL, 0, 0, 0, 5, 0, 0, 0, 9]);
    assert_eq!(AclKey::decode(&bytes), Some(k));
    assert_eq!(AclKey::deserialize(&k.serialize()), Some(k));
}

#[test]
fn log_key_has_exact_bytes() {
    let k = LogKey { account_id: 1, collection: 2, change_id: 0x0102 };
    let bytes = k.encode();
    assert_eq!(bytes, vec![0, 0, 0, 1, 2, KEY_LOG, 0, 0, 0, 0, 0, 0, 1, 2]);
    assert_eq!(LogKey::decode(&bytes), Some(k));
    assert_eq!(LogKey::deserialize(&k.serialize()), Some(k));
}

#[test]
fn bitmap_key_has_exact_bytes() {
    let k = BitmapKey {
        account_id: 1,
        collection: 2,
        family: BM_TERM | TERM_STEMMED,
        field: 4,
        key: b"hello".to_vec(),
    };
    let bytes = k.encode();
    assert_eq!(bytes, vec![0, 0, 0, 1, 2, 0x11, 4, b'h', b'e', b'l', b'l', b'o']);
    assert_eq!(BitmapKey::<Vec<u8>>::decode(&bytes), Some(k.clone()));
    let borrowed = BitmapKey { account_id: 1, collection: 2, family: 0x11, field: 4, key: &b"hello"[..] };
    assert_eq!(borrowed.encode(), bytes);
    assert_eq!(borrowed.serialize(), bytes);
    assert_eq!(BitmapKey::<Vec<u8>>::deserialize(&k.clone().serialize()), Some(k));
}

#[test]
fn bitmap_key_with_unknown_family_is_rejected() {
    let k = BitmapKey { account_id: 1, collection: 2, family: 0x13, field: 4, key: vec![1u8] };
    assert_eq!(BitmapKey::<Vec<u8>>::decode(&k.encode()), None);
    assert_eq!(BitmapKey::<Vec<u8>>::decode(&[0, 0, 0, 1, 2, 0]), None);
}

#[test]
fn index_key_has_exact_bytes() {
    let k = IndexKey { account_id: 1, collection: 2, document_id: 3, field: 4, key: vec![8u8, 0, 9] };
    let bytes = k.encode();
    assert_eq!(bytes, vec![0, 0, 0, 1, 2, KEY_INDEX, 4, 8, 0, 0xFF, 9, 0, 0, 0, 0, 0, 3]);
    assert_eq!(IndexKey::<Vec<u8>>::decode(&bytes), Some(k.clone()));
    let borrowed = IndexKey { account_id: 1, collection: 2, document_id: 3, field: 4, key: &[8u8, 0, 9][..] };
    assert_eq!(borrowed.encode(), bytes);
    assert_eq!(IndexKey::<Vec<u8>>::deserialize(&k.clone().serialize()), Some(k));
}

#[test]
fn index_key_rejects_truncated_and_padded_bytes() {
    let k = IndexKey { account_id: 1, collection: 2, document_id: 3, field: 4, key: vec![8u8, 0, 9] };
    let bytes = k.encode();
    assert_eq!(IndexKey::<Vec<u8>>::decode(&bytes[..bytes.len() - 1]), None);
    let mut longer = bytes.clone();
    longer.push(0);
    assert_eq!(IndexKey::<Vec<u8>>::decode(&longer), None);
    assert_eq!(IndexKey::<Vec<u8>>::decode(&[0, 0, 0, 1, 2, KEY_INDEX, 4, 8, 0, 7, 0, 0, 0, 0, 0, 3]), None);
}

#[test]
fn blob_key_has_exact_bytes() {
    let k = BlobKey { account_id: 1, collection: 2, document_id: 3, hash: vec![0xAAu8, 0xBB] };
    let bytes = k.encode();
    assert_eq!(bytes, vec![0, 0, 0, 1, 2, KEY_BLOB, 0, 0, 0, 3, 0xAA, 0xBB]);
    assert_eq!(BlobKey::<Vec<u8>>::decode(&bytes), Some(k.clone()));
    let borrowed = BlobKey { account_id: 1, collection: 2, document_id: 3, hash: &[0xAAu8, 0xBB][..] };
    assert_eq!(borrowed.encode(), bytes);
    assert_eq!(BlobKey::<Vec<u8>>::deserialize(&k.clone().serialize()), Some(k));
}

#[test]
fn every_key_variant_round_trips() {
    let keys = vec![
        Key::Bitmap(BitmapKey { account_id: u32::MAX, collection: 255, family: BM_DOCUMENT_IDS, field: 0, key: vec![] }),
        Key::Bitmap(BitmapKey { account_id: 7, collection: 1, family: BM_BLOOM | BLOOM_TRIGRAM, field: 9, key: vec![0, 0, 0] }),
        Key::Bitmap(BitmapKey { account_id: 7, collection: 1, family: BM_TAG | TAG_STATIC, field: 9, key: vec![0x80] }),
        Key::Bitmap(BitmapKey { account_id: 7, collection: 1, family: BM_TERM | TERM_HASH | TERM_STEMMED, field: 9, key: vec![1] }),
        Key::Index(IndexKey { account_id: 0, collection: 0, document_id: 0, field: 0, key: vec![] }),
        Key::Index(IndexKey { account_id: 5, collection: 6, document_id: u32::MAX, field: 8, key: vec![0, 0xFF, 0, 0] }),
        Key::Value(ValueKey { account_id: 1, collection: 2, document_id: 3, field: 4 }),
        Key::Blob(BlobKey { account_id: 1, collection: 2, document_id: 3, hash: vec![] }),
        Key::Blob(BlobKey { account_id: 1, collection: 2, document_id: 3, hash: vec![1, 2, 3, 4] }),
        Key::Acl(AclKey { grant_account_id: 4, to_account_id: 3, to_collection: 2, to_document_id: 1 }),
        Key::Log(LogKey { account_id: 1, collection: 2, change_id: u64::MAX }),
    ];
    for k in keys {
        let bytes = k.encode();
        assert_eq!(Key::decode(&bytes).ok(), Some(k.clone()));
        assert_eq!(Key::deserialize(&k.clone().serialize()), Some(k));
    }
}

#[test]
fn malformed_key_is_corruption() {
    assert!(matches!(Key::decode(&[]), Err(Error::InternalError(_))));
    assert!(matches!(Key::decode(&[0, 0, 0, 1, 2, 0x99, 1, 2, 3]), Err(Error::InternalError(_))));
    assert!(matches!(Key::decode(&[0, 0, 0, 1, 2, KEY_VALUE, 1, 2, 3]), Err(Error::InternalError(_))));
    assert!(matches!(Key::decode(&[0, 0, 0, 1, 2, KEY_LOG, 1, 2, 3]), Err(Error::InternalError(_))));
    assert_eq!(Key::deserialize(&[0, 0, 0, 1, 2, 0x99, 1, 2, 3]), None);
}

#[test]
fn index_keys_sort_by_payload_then_document() {
    let enc = |doc: u32, key: &[u8]| {
        IndexKey { account_id: 1, collection: 2, document_id: doc, field: 3, key }.encode()
    };
    // A payload that is another cut short comes first, whatever the documents are.
    assert!(lex_less(&enc(u32::MAX, &[1]), &enc(0, &[1, 0])));
    assert!(lex_less(&enc(u32::MAX, &[1]), &enc(0, &[1, 1])));
    assert!(lex_less(&enc(9, &[]), &enc(0, &[0])));
    assert!(lex_less(&enc(9, &[1, 0xFF]), &enc(0, &[2])));
    assert!(lex_less(&enc(9, &[0]), &enc(0, &[0, 0])));
    assert!(!lex_less(&enc(0, &[2]), &enc(9, &[1, 0xFF])));
    // Equal payloads: the document decides.
    assert!(lex_less(&enc(4, &[7, 7]), &enc(5, &[7, 7])));
    assert!(!lex_less(&enc(5, &[7, 7]), &enc(4, &[7, 7])));
    // Numeric payloads.
    assert!(lex_less(&enc(9, &255u32.to_be_bytes()), &enc(0, &256u32.to_be_bytes())));
    assert!(lex_less(&enc(9, &1u32.to_be_bytes()), &enc(0, &0x0100_0000u32.to_be_bytes())));
}

#[test]
fn log_keys_sort_by_change_id() {
    let enc = |id: u64| LogKey { account_id: 1, collection: 2, change_id: id }.encode();
    assert!(lex_less(&enc(0), &enc(1)));
    assert!(lex_less(&enc(255), &enc(256)));
    assert!(lex_less(&enc(u32::MAX as u64), &enc(u32::MAX as u64 + 1)));
    assert!(!lex_less(&enc(7), &enc(7)));
}

#[test]
fn bitmap_families_lie_apart() {
    let enc = |family: u8, field: u8, key: &[u8]| {
        BitmapKey { account_id: 1, collection: 2, family, field, key }.encode()
    };
    assert!(lex_less(&enc(BM_DOCUMENT_IDS, 255, &[255]), &enc(BM_TERM, 0, &[])));
    assert!(lex_less(&enc(BM_TERM | TERM_HASH | 2, 255, &[255]), &enc(BM_TAG, 0, &[])));
    assert!(lex_less(&enc(BM_TAG | TAG_STATIC, 255, &[255]), &enc(BM_BLOOM, 0, &[])));
}

#[test]
fn family_bytes_round_trip() {
    let all = vec![
        (BitmapFamily::DocumentIds, 0x00u8),
        (BitmapFamily::Term { kind: TermKind::Exact, hashed: false }, 0x10),
        (BitmapFamily::Term { kind: TermKind::Stemmed, hashed: false }, 0x11),
        (BitmapFamily::Term { kind: TermKind::Text, hashed: false }, 0x12),
        (BitmapFamily::Term { kind: TermKind::Exact, hashed: true }, 0x14),
        (BitmapFamily::Term { kind: TermKind::Stemmed, hashed: true }, 0x15),
        (BitmapFamily::Term { kind: TermKind::Text, hashed: true }, 0x16),
        (BitmapFamily::Tag(TagKind::Id), 0x20),
        (BitmapFamily::Tag(TagKind::Text), 0x21),
        (BitmapFamily::Tag(TagKind::Static), 0x22),
        (BitmapFamily::Bloom(BloomKind::Stemmed), 0x40),
        (BitmapFamily::Bloom(BloomKind::Bigram), 0x41),
        (BitmapFamily::Bloom(BloomKind::Trigram), 0x42),
    ];
    let mut known = 0;
    for b in 0..=255u8 {
        match BitmapFamily::from_byte(b) {
            Some(f) => {
                known += 1;
                assert_eq!(f.to_byte(), b);
                assert!(all.contains(&(f, b)));
            }
            None => assert!(!all.iter().any(|(_, x)| *x == b)),
        }
    }
    assert_eq!(known, all.len());
}
