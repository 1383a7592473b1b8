use humrock::bound::{bytes_less, is_past_end, scan_start, KeyBound, ScanStart};
use humrock::error::StoreError;
use humrock::scan::{collect_scan, Scan, ScanItem};

fn row(k: &str, v: &str) -> ScanItem {
    Ok((k.as_bytes().to_vec(), v.as_bytes().to_vec()))
}

fn keys(items: &[ScanItem]) -> Vec<Vec<u8>> {
    items
        .iter()
        .map(|i| i.as_ref().unwrap().0.clone())
        .collect()
}

fn four_rows() -> Vec<ScanItem> {
    vec![row("a", "1"), row("b", "2"), row("c", "3"), row("d", "4")]
}

#[test]
fn scan_included_start_excluded_end() {
    // The store seeks to the first key not below "b".
    let start = scan_start(KeyBound::Included(b"b".to_vec())).unwrap();
    assert_eq!(start, ScanStart::From(b"b".to_vec()));
    let cursor = vec![row("b", "2"), row("c", "3"), row("d", "4")];
    let out = collect_scan(cursor, KeyBound::Excluded(b"d".to_vec()), 10);
    assert_eq!(out, vec![row("b", "2"), row("c", "3")]);
}

#[test]
fn scan_included_end_keeps_end_key() {
    let out = collect_scan(four_rows(), KeyBound::Included(b"c".to_vec()), 10);
    assert_eq!(keys(&out), vec![b"a".to_vec(), b"b".to_vec(), b"c".to_vec()]);
}

#[test]
fn scan_limit_takes_smallest_keys() {
    assert_eq!(scan_start(KeyBound::Unbounded), Ok(ScanStart::First));
    let out = collect_scan(four_rows(), KeyBound::Unbounded, 2);
    assert_eq!(out, vec![row("a", "1"), row("b", "2")]);
}

#[test]
fn scan_limit_zero_yields_nothing() {
    assert!(collect_scan(four_rows(), KeyBound::Unbounded, 0).is_empty());
}

#[test]
fn scan_passes_over_deleted_key() {
    // At epoch 2 the store's cursor no longer yields the deleted "b".
    let cursor = vec![row("a", "1"), row("c", "3"), row("d", "4")];
    let out = collect_scan(cursor, KeyBound::Unbounded, 10);
    assert_eq!(keys(&out), vec![b"a".to_vec(), b"c".to_vec(), b"d".to_vec()]);
}

#[test]
fn scan_exhausted_before_limit() {
    let out = collect_scan(four_rows(), KeyBound::Unbounded, 100);
    assert_eq!(out, four_rows());
}

#[test]
fn scan_excluded_start_is_refused() {
    assert_eq!(
        scan_start(KeyBound::Excluded(b"a".to_vec())),
        Err(StoreError::UnsupportedStartBound)
    );
}

#[test]
fn scan_stops_after_first_failure() {
    let cursor = vec![
        row("a", "1"),
        Err(StoreError::ReadFailed("io".to_string())),
        row("c", "3"),
    ];
    let out = collect_scan(cursor, KeyBound::Unbounded, 10);
    assert_eq!(
        out,
        vec![row("a", "1"), Err(StoreError::ReadFailed("io".to_string()))]
    );
}

#[test]
fn scan_step_by_step() {
    let mut scan = Scan::new(KeyBound::Excluded(b"c".to_vec()), 10);
    assert!(!scan.is_done());
    assert_eq!(scan.step(Some(row("a", "1"))), Some(row("a", "1")));
    assert!(!scan.is_done());
    assert_eq!(scan.step(Some(row("c", "3"))), None);
    assert!(scan.is_done());
}

#[test]
fn scan_step_reaches_limit() {
    let mut scan = Scan::new(KeyBound::Unbounded, 1);
    assert_eq!(scan.step(Some(row("a", "1"))), Some(row("a", "1")));
    assert!(scan.is_done());
}

#[test]
fn scan_step_exhausted_and_consumer_gone() {
    let mut scan = Scan::new(KeyBound::Unbounded, 5);
    assert_eq!(scan.step(None), None);
    assert!(scan.is_done());
    let mut other = Scan::new(KeyBound::Unbounded, 5);
    other.consumer_gone();
    assert!(other.is_done());
}

#[test]
fn byte_order_and_end_bounds() {
    assert!(bytes_less(b"a", b"b"));
    assert!(bytes_less(b"ab", b"b"));
    assert!(bytes_less(b"a", b"ab"));
    assert!(!bytes_less(b"ab", b"ab"));
    assert!(!bytes_less(b"", b""));
    assert!(bytes_less(b"", b"a"));
    assert!(is_past_end(b"d", &KeyBound::Included(b"c".to_vec())));
    assert!(!is_past_end(b"c", &KeyBound::Included(b"c".to_vec())));
    assert!(is_past_end(b"c", &KeyBound::Excluded(b"c".to_vec())));
    assert!(!is_past_end(b"b", &KeyBound::Excluded(b"c".to_vec())));
    assert!(!is_past_end(b"zzz", &KeyBound::Unbounded));
}
