use vstd::prelude::*;

use core::cmp::Ordering;

use crate::bound::{bytes_lt, lt_from};

verus! {

/// The number of bytes of an epoch stamped at the end of each stored key.
pub const EPOCH_LEN: usize = 8;

/// How two byte strings compare in lexicographic order.
pub open spec fn bytes_cmp(a: Seq<u8>, b: Seq<u8>) -> Ordering {
    if bytes_lt(a, b) {
        Ordering::Less
    } else if a == b {
        Ordering::Equal
    } else {
        Ordering::Greater
    }
}

/// The epoch that eight little-endian bytes stand for.
pub open spec fn epoch_of(s: Seq<u8>) -> int {
    s[0] as int + s[1] as int * 0x100 + s[2] as int * 0x1_0000 + s[3] as int * 0x100_0000
        + s[4] as int * 0x1_0000_0000 + s[5] as int * 0x100_0000_0000 + s[6] as int
        * 0x1_0000_0000_0000 + s[7] as int * 0x100_0000_0000_0000
}

/// The user key of a stored key: all but its trailing epoch.
pub open spec fn user_key(k: Seq<u8>) -> Seq<u8> {
    k.subrange(0, k.len() - EPOCH_LEN)
}

/// The epoch a stored key ends with.
pub open spec fn key_epoch(k: Seq<u8>) -> int {
    epoch_of(k.subrange(k.len() - EPOCH_LEN, k.len() as int))
}

/// The order of stored versions: by user key, and for one user key the
/// newest epoch first, so that a read as of an epoch meets the newest
/// version not above it first.
pub open spec fn version_cmp(a: Seq<u8>, b: Seq<u8>) -> Ordering {
    match bytes_cmp(user_key(a), user_key(b)) {
        Ordering::Equal => if key_epoch(a) > key_epoch(b) {
            Ordering::Less
        } else if key_epoch(a) == key_epoch(b) {
            Ordering::Equal
        } else {
            Ordering::Greater
        },
        o => o,
    }
}

/// Compares the first `an` bytes of `a` with the first `bn` bytes of `b`.
pub fn compare_prefixes(a: &[u8], an: usize, b: &[u8], bn: usize) -> (r: Ordering)
    requires
        an <= a@.len(),
        bn <= b@.len(),
    ensures
        r == bytes_cmp(a@.subrange(0, an as int), b@.subrange(0, bn as int)),
{
    let ghost x = a@.subrange(0, an as int);
    let ghost y = b@.subrange(0, bn as int);
    let mut i: usize = 0;
    while i < an && i < bn && a[i] == b[i]
        invariant
            an <= a@.len(),
            bn <= b@.len(),
            x == a@.subrange(0, an as int),
            y == b@.subrange(0, bn as int),
            i <= an,
            i <= bn,
            forall|j: int| 0 <= j < i ==> x[j] == y[j],
            lt_from(x, y, 0) == lt_from(x, y, i as int),
        decreases an - i,
    {
        assert(x[i as int] == a@[i as int] && y[i as int] == b@[i as int]);
        i = i + 1;
    }
    if i >= an && i >= bn {
        assert(x =~= y);
        Ordering::Equal
    } else if i >= bn {
        assert(x.len() != y.len());
        Ordering::Greater
    } else if i >= an {
        Ordering::Less
    } else {
        assert(x[i as int] == a@[i as int] && y[i as int] == b@[i as int]);
        if a[i] < b[i] {
            Ordering::Less
        } else {
            assert(x[i as int] != y[i as int]);
            Ordering::Greater
        }
    }
}

/// Compares two byte strings in lexicographic order.
pub fn compare_bytes(a: &[u8], b: &[u8]) -> (r: Ordering)
    ensures
        r == bytes_cmp(a@, b@),
{
    let r = compare_prefixes(a, a.len(), b, b.len());
    assert(a@.subrange(0, a@.len() as int) =~= a@);
    assert(b@.subrange(0, b@.len() as int) =~= b@);
    r
}

/// Reads the epoch stored in the eight bytes of `s` from `at` on.
pub fn decode_epoch(s: &[u8], at: usize) -> (r: u64)
    requires
        at + EPOCH_LEN <= s@.len(),
    ensures
        r == epoch_of(s@.subrange(at as int, at + EPOCH_LEN)),
{
    let ghost t = s@.subrange(at as int, at + EPOCH_LEN);
    assert(t[0] == s@[at as int] && t[1] == s@[at + 1] && t[2] == s@[at + 2] && t[3] == s@[at + 3]);
    assert(t[4] == s@[at + 4] && t[5] == s@[at + 5] && t[6] == s@[at + 6] && t[7] == s@[at + 7]);
    s[at] as u64 + s[at + 1] as u64 * 0x100 + s[at + 2] as u64 * 0x1_0000 + s[at + 3] as u64
        * 0x100_0000 + s[at + 4] as u64 * 0x1_0000_0000 + s[at + 5] as u64 * 0x100_0000_0000
        + s[at + 6] as u64 * 0x1_0000_0000_0000 + s[at + 7] as u64 * 0x100_0000_0000_0000
}

/// Compares two epochs given as their stored bytes, older first.
pub fn compare_epochs(a: &[u8], b: &[u8]) -> (r: Ordering)
    requires
        a@.len() == EPOCH_LEN,
        b@.len() == EPOCH_LEN,
    ensures
        r == (if epoch_of(a@) < epoch_of(b@) {
            Ordering::Less
        } else if epoch_of(a@) == epoch_of(b@) {
            Ordering::Equal
        } else {
            Ordering::Greater
        }),
{
    let x = decode_epoch(a, 0);
    let y = decode_epoch(b, 0);
    assert(a@.subrange(0, EPOCH_LEN as int) =~= a@);
    assert(b@.subrange(0, EPOCH_LEN as int) =~= b@);
    if x < y {
        Ordering::Less
    } else if x == y {
        Ordering::Equal
    } else {
        Ordering::Greater
    }
}

/// Compares two stored keys, each a user key followed by its epoch.
pub fn compare_versions(a: &[u8], b: &[u8]) -> (r: Ordering)
    requires
        a@.len() >= EPOCH_LEN,
        b@.len() >= EPOCH_LEN,
    ensures
        r == version_cmp(a@, b@),
{
    let an = a.len() - EPOCH_LEN;
    let bn = b.len() - EPOCH_LEN;
    match compare_prefixes(a, an, b, bn) {
        Ordering::Equal => {
            let x = decode_epoch(a, an);
            let y = decode_epoch(b, bn);
            if x > y {
                Ordering::Less
            } else if x == y {
                Ordering::Equal
            } else {
                Ordering::Greater
            }
        },
        o => o,
    }
}

/// Compares two keys by their user keys alone; a key that carries an epoch
/// has it set aside first.
pub fn compare_without_epochs(a: &[u8], a_has_epoch: bool, b: &[u8], b_has_epoch: bool) -> (r:
    Ordering)
    requires
        a_has_epoch ==> a@.len() >= EPOCH_LEN,
        b_has_epoch ==> b@.len() >= EPOCH_LEN,
    ensures
        r == bytes_cmp(
            if a_has_epoch {
                user_key(a@)
            } else {
                a@
            },
            if b_has_epoch {
                user_key(b@)
            } else {
                b@
            },
        ),
{
    let an = if a_has_epoch {
        a.len() - EPOCH_LEN
    } else {
        a.len()
    };
    let bn = if b_has_epoch {
        b.len() - EPOCH_LEN
    } else {
        b.len()
    };
    assert(a@.subrange(0, a@.len() as int) =~= a@);
    assert(b@.subrange(0, b@.len() as int) =~= b@);
    compare_prefixes(a, an, b, bn)
}

/// The eight little-endian bytes by which the store orders and compares
/// an epoch.
pub open spec fn epoch_bytes(epoch: u64) -> Seq<u8> {
    seq![
        (epoch % 0x100) as u8,
        ((epoch / 0x100) % 0x100) as u8,
        ((epoch / 0x1_0000) % 0x100) as u8,
        ((epoch / 0x100_0000) % 0x100) as u8,
        ((epoch / 0x1_0000_0000) % 0x100) as u8,
        ((epoch / 0x100_0000_0000) % 0x100) as u8,
        ((epoch / 0x1_0000_0000_0000) % 0x100) as u8,
        ((epoch / 0x100_0000_0000_0000) % 0x100) as u8,
    ]
}

/// The timestamp bytes of an epoch, as the store takes them on writes and
/// reads.
pub fn encode_epoch(epoch: u64) -> (r: Vec<u8>)
    ensures
        r@ == epoch_bytes(epoch),
{
    let mut r: Vec<u8> = Vec::new();
    r.push((epoch % 0x100) as u8);
    r.push(((epoch / 0x100) % 0x100) as u8);
    r.push(((epoch / 0x1_0000) % 0x100) as u8);
    r.push(((epoch / 0x100_0000) % 0x100) as u8);
    r.push(((epoch / 0x1_0000_0000) % 0x100) as u8);
    r.push(((epoch / 0x100_0000_0000) % 0x100) as u8);
    r.push(((epoch / 0x1_0000_0000_0000) % 0x100) as u8);
    r.push(((epoch / 0x100_0000_0000_0000) % 0x100) as u8);
    proof {
        assert(r@ =~= epoch_bytes(epoch));
    }
    r
}

} // verus!
