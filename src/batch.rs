use vstd::prelude::*;

use crate::version::{latest, lemma_later_writes_unseen, visible, VersionedEntry};

verus! {

/// The versions a batch of `(key, value-or-tombstone)` pairs becomes when it
/// is ingested at `epoch`, in the batch's order.
pub open spec fn stamped(entries: Seq<(Vec<u8>, Option<Vec<u8>>)>, epoch: u64) -> Seq<
    VersionedEntry,
> {
    Seq::new(
        entries.len(),
        |i: int| VersionedEntry { key: entries[i].0, epoch: epoch, value: entries[i].1 },
    )
}

/// Stamps every pair of a batch with the batch's epoch: a put for a value, a
/// tombstone for `None`. The order of the batch is kept, so that of two
/// writes to one key the later one is the version that stays visible.
pub fn stamp_batch(entries: Vec<(Vec<u8>, Option<Vec<u8>>)>, epoch: u64) -> (r: Vec<
    VersionedEntry,
>)
    ensures
        r@ == stamped(entries@, epoch),
{
    let ghost all = entries@;
    let mut out: Vec<VersionedEntry> = Vec::new();
    let mut rest = entries;
    while rest.len() > 0
        invariant
            rest@.len() + out@.len() == all.len(),
            rest@ =~= all.subrange(out@.len() as int, all.len() as int),
            out@ =~= stamped(all, epoch).subrange(0, out@.len() as int),
        decreases rest.len(),
    {
        let ghost n = out@.len();
        let (key, value) = rest.remove(0);
        out.push(VersionedEntry { key, epoch, value });
        proof {
            assert(out@ =~= stamped(all, epoch).subrange(0, out@.len() as int));
        }
    }
    proof {
        assert(stamped(all, epoch).subrange(0, all.len() as int) =~= stamped(all, epoch));
    }
    out
}

/// Ingesting a batch at a later epoch leaves every read at an earlier epoch
/// as it was.
pub proof fn lemma_batch_unseen_before_its_epoch(
    history: Seq<VersionedEntry>,
    entries: Seq<(Vec<u8>, Option<Vec<u8>>)>,
    batch_epoch: u64,
    key: Seq<u8>,
    epoch: u64,
)
    requires
        epoch < batch_epoch,
    ensures
        visible(history + stamped(entries, batch_epoch), key, epoch) == visible(history, key, epoch),
{
    lemma_later_writes_unseen(history, stamped(entries, batch_epoch), key, epoch);
}

/// After a batch whose epoch no earlier write of a key exceeds, a read at
/// or after that epoch sees the key's last pair in the batch.
pub proof fn lemma_batch_last_write_wins(
    history: Seq<VersionedEntry>,
    entries: Seq<(Vec<u8>, Option<Vec<u8>>)>,
    batch_epoch: u64,
    j: int,
    epoch: u64,
)
    requires
        0 <= j < entries.len(),
        batch_epoch <= epoch,
        forall|i: int| j < i < entries.len() ==> (#[trigger] entries[i]).0@ != entries[j].0@,
        forall|i: int|
            0 <= i < history.len() && (#[trigger] history[i]).key@ == entries[j].0@
                ==> history[i].epoch <= batch_epoch,
    ensures
        latest(history + stamped(entries, batch_epoch), entries[j].0@, epoch) == Some(
            stamped(entries, batch_epoch)[j],
        ),
    decreases entries.len(),
{
    let s = stamped(entries, batch_epoch);
    let key = entries[j].0@;
    if j == entries.len() - 1 {
        let h = history + s.drop_last();
        crate::version::lemma_latest_is_entry(h, key, epoch);
        assert forall|i: int| 0 <= i < h.len() && (#[trigger] h[i]).key@ == key implies h[i].epoch
            <= batch_epoch by {
            if i >= history.len() {
                assert(h[i] == s[i - history.len()]);
            } else {
                assert(h[i] == history[i]);
            }
        }
        crate::version::lemma_newest_version_visible(h, s[j], epoch);
        assert(h.push(s[j]) =~= history + s);
    } else {
        let shorter = entries.drop_last();
        assert forall|i: int| j < i < shorter.len() implies (#[trigger] shorter[i]).0@ != shorter[j].0@ by {
            assert(shorter[i] == entries[i]);
        }
        lemma_batch_last_write_wins(history, shorter, batch_epoch, j, epoch);
        let s2 = stamped(shorter, batch_epoch);
        assert(s2 =~= s.drop_last());
        assert((history + s).drop_last() =~= history + s2);
        let last = entries[entries.len() - 1];
        assert(last.0@ != key);
        assert((history + s).last() == s[s.len() - 1]);
    }
}

} // verus!
