use std::cmp::Ordering;

use humrock::batch::stamp_batch;
use humrock::order::{
    compare_bytes, compare_epochs, compare_versions, compare_without_epochs, decode_epoch,
    encode_epoch,
};
use humrock::version::VersionedEntry;
use humrock::wire::{batch_from_request, get_response, key_bound, BoundType, Operation};
use humrock::bound::KeyBound;

#[test]
fn stamp_batch_keeps_order_and_epoch() {
    let out = stamp_batch(
        vec![
            (b"k1".to_vec(), Some(b"v1".to_vec())),
            (b"k2".to_vec(), None),
            (b"k1".to_vec(), Some(b"v2".to_vec())),
        ],
        7,
    );
    assert_eq!(
        out,
        vec![
            VersionedEntry { key: b"k1".to_vec(), epoch: 7, value: Some(b"v1".to_vec()) },
            VersionedEntry { key: b"k2".to_vec(), epoch: 7, value: None },
            VersionedEntry { key: b"k1".to_vec(), epoch: 7, value: Some(b"v2".to_vec()) },
        ]
    );
}

#[test]
fn stamp_empty_batch() {
    assert!(stamp_batch(Vec::new(), 3).is_empty());
}

#[test]
fn epoch_encoding_is_little_endian() {
    assert_eq!(encode_epoch(1), vec![1, 0, 0, 0, 0, 0, 0, 0]);
    assert_eq!(encode_epoch(0x0102), vec![2, 1, 0, 0, 0, 0, 0, 0]);
    assert_eq!(encode_epoch(u64::MAX), vec![0xff; 8]);
    assert_eq!(encode_epoch(0x0102).as_slice(), 0x0102u64.to_le_bytes().as_slice());
}

#[test]
fn epoch_decoding() {
    let bytes = encode_epoch(0x1122_3344_5566_7788);
    assert_eq!(decode_epoch(&bytes, 0), 0x1122_3344_5566_7788);
    let mut key = b"k".to_vec();
    key.extend_from_slice(&encode_epoch(42));
    assert_eq!(decode_epoch(&key, 1), 42);
}

fn stored(key: &[u8], epoch: u64) -> Vec<u8> {
    let mut k = key.to_vec();
    k.extend_from_slice(&encode_epoch(epoch));
    k
}

#[test]
fn version_order_newest_first() {
    assert_eq!(compare_versions(&stored(b"k", 3), &stored(b"k", 1)), Ordering::Less);
    assert_eq!(compare_versions(&stored(b"k", 1), &stored(b"k", 3)), Ordering::Greater);
    assert_eq!(compare_versions(&stored(b"k", 2), &stored(b"k", 2)), Ordering::Equal);
    assert_eq!(compare_versions(&stored(b"a", 1), &stored(b"b", 9)), Ordering::Less);
    assert_eq!(compare_versions(&stored(b"b", 9), &stored(b"ab", 1)), Ordering::Greater);
}

#[test]
fn epoch_and_key_comparisons() {
    assert_eq!(compare_epochs(&encode_epoch(1), &encode_epoch(256)), Ordering::Less);
    assert_eq!(compare_epochs(&encode_epoch(5), &encode_epoch(5)), Ordering::Equal);
    assert_eq!(compare_epochs(&encode_epoch(300), &encode_epoch(2)), Ordering::Greater);
    assert_eq!(compare_bytes(b"abc", b"abd"), Ordering::Less);
    assert_eq!(compare_bytes(b"abc", b"ab"), Ordering::Greater);
    assert_eq!(compare_bytes(b"", b""), Ordering::Equal);
    assert_eq!(compare_without_epochs(&stored(b"k", 1), true, b"k", false), Ordering::Equal);
    assert_eq!(compare_without_epochs(&stored(b"a", 9), true, &stored(b"b", 1), true), Ordering::Less);
}

#[test]
fn get_response_marks_absence() {
    assert_eq!(get_response(None).exists, false);
    assert!(get_response(None).value.is_empty());
    let present_empty = get_response(Some(Vec::new()));
    assert!(present_empty.exists);
    assert!(present_empty.value.is_empty());
    assert_eq!(get_response(Some(b"v".to_vec())).value, b"v".to_vec());
}

#[test]
fn request_pairs_follow_operations() {
    let out = batch_from_request(
        vec![
            (b"a".to_vec(), b"1".to_vec()),
            (b"b".to_vec(), b"2".to_vec()),
            (b"c".to_vec(), b"3".to_vec()),
        ],
        vec![Operation::Put, Operation::Delete],
    );
    assert_eq!(
        out,
        vec![(b"a".to_vec(), Some(b"1".to_vec())), (b"b".to_vec(), None)]
    );
}

#[test]
fn request_bounds() {
    assert_eq!(key_bound(b"x".to_vec(), BoundType::Included), KeyBound::Included(b"x".to_vec()));
    assert_eq!(key_bound(b"x".to_vec(), BoundType::Excluded), KeyBound::Excluded(b"x".to_vec()));
    assert_eq!(key_bound(b"x".to_vec(), BoundType::Unbounded), KeyBound::Unbounded);
}
