use vstd::prelude::*;

verus! {

/// One version of a key: the value written at an epoch, or `None` for a
/// tombstone that deletes the key from that epoch on.
#[derive(Debug, PartialEq, Eq, Clone)]
pub struct VersionedEntry {
    pub key: Vec<u8>,
    pub epoch: u64,
    pub value: Option<Vec<u8>>,
}

/// The value of an optional byte string, as a sequence.
pub open spec fn opt_bytes(v: Option<Vec<u8>>) -> Option<Seq<u8>> {
    match v {
        Some(b) => Some(b@),
        None => None,
    }
}

/// The version of `key` that a read at `epoch` sees in a store that took the
/// entries of `history` in order: the one with the greatest epoch not above
/// `epoch`, the later of two written at the same epoch.
pub open spec fn latest(history: Seq<VersionedEntry>, key: Seq<u8>, epoch: u64) -> Option<
    VersionedEntry,
>
    decreases history.len(),
{
    if history.len() == 0 {
        None
    } else {
        let prev = latest(history.drop_last(), key, epoch);
        let x = history.last();
        if x.key@ == key && x.epoch <= epoch && (match prev {
            None => true,
            Some(p) => p.epoch <= x.epoch,
        }) {
            Some(x)
        } else {
            prev
        }
    }
}

/// What a read of `key` as of `epoch` returns: the visible version's value,
/// or nothing where no version is visible or the visible one is a tombstone.
pub open spec fn visible(history: Seq<VersionedEntry>, key: Seq<u8>, epoch: u64) -> Option<
    Seq<u8>,
> {
    match latest(history, key, epoch) {
        None => None,
        Some(x) => opt_bytes(x.value),
    }
}

/// The visible version is one of the key's own entries at or before the
/// read epoch.
pub proof fn lemma_latest_is_entry(history: Seq<VersionedEntry>, key: Seq<u8>, epoch: u64)
    ensures
        match latest(history, key, epoch) {
            None => true,
            Some(x) => {
                &&& x.key@ == key
                &&& x.epoch <= epoch
                &&& exists|i: int| 0 <= i < history.len() && history[i] == x
            },
        },
    decreases history.len(),
{
    if history.len() > 0 {
        let h = history.drop_last();
        lemma_latest_is_entry(h, key, epoch);
        match latest(history, key, epoch) {
            None => {},
            Some(x) => {
                if x == history.last() {
                    assert(history[history.len() - 1] == x);
                } else {
                    let i = choose|i: int| 0 <= i < h.len() && h[i] == x;
                    assert(history[i] == x);
                }
            },
        }
    }
}

/// A read sees nothing of a key none of whose entries is at or before the
/// read epoch.
pub proof fn lemma_read_before_any_write(history: Seq<VersionedEntry>, key: Seq<u8>, epoch: u64)
    requires
        forall|i: int| 0 <= i < history.len() && (#[trigger] history[i]).key@ == key ==> history[i].epoch > epoch,
    ensures
        latest(history, key, epoch) is None,
        visible(history, key, epoch) is None,
    decreases history.len(),
{
    if history.len() > 0 {
        let h = history.drop_last();
        assert forall|i: int| 0 <= i < h.len() && (#[trigger] h[i]).key@ == key implies h[i].epoch > epoch by {
            assert(h[i] == history[i]);
        }
        lemma_read_before_any_write(h, key, epoch);
        assert(history[history.len() - 1] == history.last());
    }
}

/// Writing at a later epoch leaves every read at an earlier epoch as it was:
/// in particular such a read never returns the later value.
pub proof fn lemma_later_writes_unseen(
    history: Seq<VersionedEntry>,
    later: Seq<VersionedEntry>,
    key: Seq<u8>,
    epoch: u64,
)
    requires
        forall|i: int| 0 <= i < later.len() ==> (#[trigger] later[i]).epoch > epoch,
    ensures
        latest(history + later, key, epoch) == latest(history, key, epoch),
        visible(history + later, key, epoch) == visible(history, key, epoch),
    decreases later.len(),
{
    if later.len() == 0 {
        assert(history + later =~= history);
    } else {
        let l = later.drop_last();
        assert forall|i: int| 0 <= i < l.len() implies (#[trigger] l[i]).epoch > epoch by {
            assert(l[i] == later[i]);
        }
        lemma_later_writes_unseen(history, l, key, epoch);
        assert((history + later).drop_last() =~= history + l);
        assert((history + later).last() == later[later.len() - 1]);
    }
}

/// A version that no entry of its key outdates is what every read from its
/// epoch on sees: its value, or nothing for a tombstone.
pub proof fn lemma_newest_version_visible(
    history: Seq<VersionedEntry>,
    x: VersionedEntry,
    epoch: u64,
)
    requires
        x.epoch <= epoch,
        forall|i: int| 0 <= i < history.len() && (#[trigger] history[i]).key@ == x.key@ ==> history[i].epoch <= x.epoch,
    ensures
        latest(history.push(x), x.key@, epoch) == Some(x),
        visible(history.push(x), x.key@, epoch) == opt_bytes(x.value),
{
    lemma_latest_is_entry(history, x.key@, epoch);
    assert(history.push(x).drop_last() =~= history);
}

} // verus!
