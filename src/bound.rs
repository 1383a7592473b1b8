use vstd::prelude::*;

use crate::error::StoreError;

verus! {

/// One end of a scan range over byte-string keys.
#[derive(Debug, PartialEq, Eq, Clone)]
pub enum KeyBound {
    Included(Vec<u8>),
    Excluded(Vec<u8>),
    Unbounded,
}

/// Where a forward scan begins: at the first key of the table, or at the
/// first key not below the given one.
#[derive(Debug, PartialEq, Eq, Clone)]
pub enum ScanStart {
    First,
    From(Vec<u8>),
}

/// `a` sorts strictly before `b`, looking from position `i` on, given that
/// the two agree below `i`.
pub open spec fn lt_from(a: Seq<u8>, b: Seq<u8>, i: int) -> bool
    decreases a.len() - i,
{
    if i < 0 || i >= b.len() {
        false
    } else if i >= a.len() {
        true
    } else if a[i] != b[i] {
        a[i] < b[i]
    } else {
        lt_from(a, b, i + 1)
    }
}

/// Lexicographic strict order on byte strings: the order of the table's keys.
pub open spec fn bytes_lt(a: Seq<u8>, b: Seq<u8>) -> bool {
    lt_from(a, b, 0)
}

/// A key lies beyond the end bound of a scan.
pub open spec fn past_end(key: Seq<u8>, end: KeyBound) -> bool {
    match end {
        KeyBound::Included(e) => bytes_lt(e@, key),
        KeyBound::Excluded(e) => !bytes_lt(key, e@),
        KeyBound::Unbounded => false,
    }
}

/// Whether `a` sorts strictly before `b` in byte order.
pub fn bytes_less(a: &[u8], b: &[u8]) -> (r: bool)
    ensures
        r == bytes_lt(a@, b@),
{
    let mut i: usize = 0;
    while i < a.len() && i < b.len() && a[i] == b[i]
        invariant
            i <= a@.len(),
            i <= b@.len(),
            lt_from(a@, b@, 0) == lt_from(a@, b@, i as int),
        decreases a.len() - i,
    {
        i = i + 1;
    }
    if i >= b.len() {
        false
    } else if i >= a.len() {
        true
    } else {
        a[i] < b[i]
    }
}

/// Whether `key` lies beyond `end`: above it for an inclusive bound, at or
/// above it for an exclusive one, never for an open end.
pub fn is_past_end(key: &[u8], end: &KeyBound) -> (r: bool)
    ensures
        r == past_end(key@, *end),
{
    match end {
        KeyBound::Included(e) => bytes_less(e.as_slice(), key),
        KeyBound::Excluded(e) => !bytes_less(key, e.as_slice()),
        KeyBound::Unbounded => false,
    }
}

/// The position a scan seeks to for its start bound. An exclusive start
/// bound is not supported and is refused at once.
pub fn scan_start(start: KeyBound) -> (r: Result<ScanStart, StoreError>)
    ensures
        match start {
            KeyBound::Included(k) => r == Ok::<ScanStart, StoreError>(ScanStart::From(k)),
            KeyBound::Excluded(_) => r == Err::<ScanStart, StoreError>(
                StoreError::UnsupportedStartBound,
            ),
            KeyBound::Unbounded => r == Ok::<ScanStart, StoreError>(ScanStart::First),
        },
{
    match start {
        KeyBound::Included(k) => Ok(ScanStart::From(k)),
        KeyBound::Excluded(_) => Err(StoreError::UnsupportedStartBound),
        KeyBound::Unbounded => Ok(ScanStart::First),
    }
}

} // verus!
