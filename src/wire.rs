use vstd::prelude::*;

use crate::bound::KeyBound;

verus! {

/// The reply to a point read: whether the key is present at the epoch, and
/// its value, empty when it is not.
#[derive(Debug, PartialEq, Eq, Clone)]
pub struct GetResponse {
    pub exists: bool,
    pub value: Vec<u8>,
}

/// What an entry of an ingest request does to its key.
#[derive(Debug, PartialEq, Eq, Clone, Copy)]
pub enum Operation {
    Put,
    Delete,
}

/// The kind of one end of a requested scan range.
#[derive(Debug, PartialEq, Eq, Clone, Copy)]
pub enum BoundType {
    Included,
    Excluded,
    Unbounded,
}

/// The reply to a read that found `value`, or nothing.
pub fn get_response(value: Option<Vec<u8>>) -> (r: GetResponse)
    ensures
        r.exists == value is Some,
        r.value@ == match value {
            Some(v) => v@,
            None => Seq::<u8>::empty(),
        },
{
    match value {
        Some(value) => GetResponse { exists: true, value },
        None => GetResponse { exists: false, value: Vec::new() },
    }
}

/// The scan bound a request's key and bound kind stand for.
pub fn key_bound(key: Vec<u8>, bound_type: BoundType) -> (r: KeyBound)
    ensures
        r == match bound_type {
            BoundType::Included => KeyBound::Included(key),
            BoundType::Excluded => KeyBound::Excluded(key),
            BoundType::Unbounded => KeyBound::Unbounded,
        },
{
    match bound_type {
        BoundType::Included => KeyBound::Included(key),
        BoundType::Excluded => KeyBound::Excluded(key),
        BoundType::Unbounded => KeyBound::Unbounded,
    }
}

/// The pairs of an ingest request paired with its operations in turn, as
/// far as both lists go: a put keeps its value, a delete becomes a tombstone.
pub fn batch_from_request(kvs: Vec<(Vec<u8>, Vec<u8>)>, operations: Vec<Operation>) -> (r: Vec<
    (Vec<u8>, Option<Vec<u8>>),
>)
    ensures
        r@.len() == if kvs@.len() < operations@.len() {
            kvs@.len()
        } else {
            operations@.len()
        },
        forall|i: int|
            0 <= i < r@.len() ==> (#[trigger] r@[i]).0 == kvs@[i].0 && r@[i].1 == match operations@[i] {
                Operation::Put => Some(kvs@[i].1),
                Operation::Delete => None::<Vec<u8>>,
            },
{
    let ghost all = kvs@;
    let mut rest = kvs;
    let mut out: Vec<(Vec<u8>, Option<Vec<u8>>)> = Vec::new();
    let mut i: usize = 0;
    while i < operations.len() && rest.len() > 0
        invariant
            i == out@.len(),
            i <= operations@.len(),
            i <= all.len(),
            rest@ =~= all.subrange(i as int, all.len() as int),
            forall|j: int|
                0 <= j < i ==> (#[trigger] out@[j]).0 == all[j].0 && out@[j].1 == match operations@[j] {
                    Operation::Put => Some(all[j].1),
                    Operation::Delete => None::<Vec<u8>>,
                },
        decreases operations.len() - i,
    {
        let (key, value) = rest.remove(0);
        let entry = match operations[i] {
            Operation::Put => (key, Some(value)),
            Operation::Delete => (key, None),
        };
        out.push(entry);
        i = i + 1;
    }
    out
}

} // verus!
