use vstd::prelude::*;

use crate::bound::{bytes_lt, is_past_end, past_end, KeyBound};
use crate::error::StoreError;

verus! {

/// How many items a scan may have handed on that its receiver has not yet
/// taken; the producer waits while that many are outstanding.
pub const SCAN_BUFFER: usize = 256;

/// One item of a scan: a key with its visible value, or the failure that
/// ended the scan.
pub type ScanItem = Result<(Vec<u8>, Vec<u8>), StoreError>;

/// The item is a row whose key lies within the end bound.
pub open spec fn item_is_row_within(item: ScanItem, end: KeyBound) -> bool {
    match item {
        Ok((k, _)) => !past_end(k@, end),
        Err(_) => false,
    }
}

/// What a scan hands on when the store's cursor yields `items` in turn: rows
/// up to the first one beyond `end`, at most `limit` items in all, and a
/// failure as the last item if the cursor fails before either stop.
pub open spec fn emitted(items: Seq<ScanItem>, end: KeyBound, limit: nat) -> Seq<ScanItem>
    decreases items.len(),
{
    if items.len() == 0 || limit == 0 {
        seq![]
    } else {
        match items[0] {
            Err(_) => seq![items[0]],
            Ok((k, _)) => if past_end(k@, end) {
                seq![]
            } else {
                seq![items[0]] + emitted(items.drop_first(), end, (limit - 1) as nat)
            },
        }
    }
}

/// Every item fetched so far was a row within the range, and fewer than
/// `limit` of them: the scan must go on.
pub open spec fn open_run(items: Seq<ScanItem>, end: KeyBound, limit: nat) -> bool {
    &&& items.len() < limit
    &&& forall|j: int| 0 <= j < items.len() ==> item_is_row_within(#[trigger] items[j], end)
}

/// Nothing the cursor might yield after `items` changes what the scan hands on.
pub open spec fn settled(items: Seq<ScanItem>, end: KeyBound, limit: nat) -> bool {
    forall|more: Seq<ScanItem>| #[trigger] emitted(items + more, end, limit) == emitted(items, end, limit)
}

/// Over an open run, the scan hands on the run itself and then goes on with
/// what remains of the limit.
pub proof fn lemma_emitted_after_open_run(
    p: Seq<ScanItem>,
    rest: Seq<ScanItem>,
    end: KeyBound,
    limit: nat,
)
    requires
        open_run(p, end, limit),
    ensures
        emitted(p + rest, end, limit) == p + emitted(rest, end, (limit - p.len()) as nat),
    decreases p.len(),
{
    if p.len() == 0 {
        assert(p + rest =~= rest);
        assert(p + emitted(rest, end, limit) =~= emitted(rest, end, limit));
    } else {
        let q = p.drop_first();
        assert(item_is_row_within(p[0], end));
        assert forall|j: int| 0 <= j < q.len() implies item_is_row_within(#[trigger] q[j], end) by {
            assert(q[j] == p[j + 1]);
        }
        lemma_emitted_after_open_run(q, rest, end, (limit - 1) as nat);
        assert((p + rest).drop_first() =~= q + rest);
        assert((p + rest)[0] == p[0]);
        assert(p =~= seq![p[0]] + q);
    }
}

/// The run so far is open: the scan has handed on exactly these items.
pub proof fn lemma_open_run_emitted(p: Seq<ScanItem>, end: KeyBound, limit: nat)
    requires
        open_run(p, end, limit),
    ensures
        emitted(p, end, limit) == p,
{
    lemma_emitted_after_open_run(p, seq![], end, limit);
    assert(p + seq![] =~= p);
}

/// The scan's first step over a cursor that yields `item` and then `more`.
proof fn lemma_emitted_head(item: ScanItem, more: Seq<ScanItem>, end: KeyBound, n: nat)
    requires
        n > 0,
    ensures
        emitted(seq![item] + more, end, n) == match item {
            Err(_) => seq![item],
            Ok((k, _)) => if past_end(k@, end) {
                seq![]
            } else {
                seq![item] + emitted(more, end, (n - 1) as nat)
            },
        },
{
    let x = seq![item] + more;
    assert(x[0] == item);
    assert(x.drop_first() =~= more);
}

/// What the scan hands on once `item` has closed the open run `p`.
pub open spec fn closed_by(p: Seq<ScanItem>, item: ScanItem, end: KeyBound) -> Seq<ScanItem> {
    if item_is_row_within(item, end) || item is Err {
        p.push(item)
    } else {
        p
    }
}

/// An open run followed by one item that closes it: the scan has stopped for
/// good, having handed on the run and, unless it was a row beyond `end`, the
/// item.
proof fn lemma_closing_item(p: Seq<ScanItem>, item: ScanItem, end: KeyBound, limit: nat)
    requires
        open_run(p, end, limit),
        !open_run(p.push(item), end, limit),
    ensures
        settled(p.push(item), end, limit),
        emitted(p.push(item), end, limit) == closed_by(p, item, end),
{
    let rem = (limit - p.len()) as nat;
    if item_is_row_within(item, end) {
        assert forall|j: int| 0 <= j < p.push(item).len() implies item_is_row_within(
            #[trigger] p.push(item)[j],
            end,
        ) by {
            if j < p.len() {
                assert(p.push(item)[j] == p[j]);
            }
        }
        assert(rem == 1);
    }
    assert forall|more: Seq<ScanItem>|
        emitted(p.push(item) + more, end, limit) == closed_by(p, item, end) by {
        lemma_emitted_after_open_run(p, seq![item] + more, end, limit);
        lemma_emitted_head(item, more, end, rem);
        assert(p.push(item) + more =~= p + (seq![item] + more));
        if item_is_row_within(item, end) {
            assert(emitted(more, end, 0) == Seq::<ScanItem>::empty());
            assert(seq![item] + Seq::<ScanItem>::empty() =~= seq![item]);
        }
        assert(p + seq![item] =~= p.push(item));
        assert(p + Seq::<ScanItem>::empty() =~= p);
    }
    assert(p.push(item) + Seq::<ScanItem>::empty() =~= p.push(item));
    assert(emitted(p.push(item) + Seq::<ScanItem>::empty(), end, limit) == closed_by(p, item, end));
    assert forall|more: Seq<ScanItem>| #[trigger]
        emitted(p.push(item) + more, end, limit) == emitted(p.push(item), end, limit) by {
        assert(emitted(p.push(item) + more, end, limit) == closed_by(p, item, end));
    }
}

/// A scan hands on a prefix of what the cursor yields, in the cursor's
/// order, and never more than `limit` items.
pub proof fn lemma_scan_prefix_within_limit(items: Seq<ScanItem>, end: KeyBound, limit: nat)
    ensures
        emitted(items, end, limit).len() <= limit,
        emitted(items, end, limit).len() <= items.len(),
        forall|j: int|
            0 <= j < emitted(items, end, limit).len() ==> #[trigger] emitted(items, end, limit)[j]
                == items[j],
    decreases items.len(),
{
    if items.len() > 0 && limit > 0 {
        let rest = items.drop_first();
        lemma_scan_prefix_within_limit(rest, end, (limit - 1) as nat);
        let e = emitted(items, end, limit);
        if item_is_row_within(items[0], end) {
            assert forall|j: int| 0 <= j < e.len() implies #[trigger] e[j] == items[j] by {
                if j > 0 {
                    assert(e[j] == emitted(rest, end, (limit - 1) as nat)[j - 1]);
                    assert(rest[j - 1] == items[j]);
                }
            }
        }
    }
}

/// The key of a row, empty for a failure.
pub open spec fn row_key(item: ScanItem) -> Seq<u8> {
    match item {
        Ok((k, _)) => k@,
        Err(_) => Seq::empty(),
    }
}

/// The rows among `items` come in strictly ascending key order.
pub open spec fn rows_ascending(items: Seq<ScanItem>) -> bool {
    forall|i: int, j: int|
        0 <= i < j < items.len() && items[i] is Ok && items[j] is Ok ==> bytes_lt(
            row_key(#[trigger] items[i]),
            row_key(#[trigger] items[j]),
        )
}

/// A cursor that yields keys in ascending order gives a scan whose keys
/// ascend strictly.
pub proof fn lemma_scan_keys_ascending(items: Seq<ScanItem>, end: KeyBound, limit: nat)
    requires
        rows_ascending(items),
    ensures
        rows_ascending(emitted(items, end, limit)),
{
    lemma_scan_prefix_within_limit(items, end, limit);
    let e = emitted(items, end, limit);
    assert forall|i: int, j: int|
        0 <= i < j < e.len() && e[i] is Ok && e[j] is Ok implies bytes_lt(
        row_key(#[trigger] e[i]),
        row_key(#[trigger] e[j]),
    ) by {
        assert(e[i] == items[i]);
        assert(e[j] == items[j]);
    }
}

/// Every row a scan hands on lies within its end bound.
pub proof fn lemma_scan_rows_within_end(items: Seq<ScanItem>, end: KeyBound, limit: nat)
    ensures
        forall|j: int|
            0 <= j < emitted(items, end, limit).len() && (#[trigger] emitted(
                items,
                end,
                limit,
            )[j]) is Ok ==> item_is_row_within(emitted(items, end, limit)[j], end),
    decreases items.len(),
{
    if items.len() > 0 && limit > 0 {
        let rest = items.drop_first();
        lemma_scan_rows_within_end(rest, end, (limit - 1) as nat);
        let e = emitted(items, end, limit);
        if item_is_row_within(items[0], end) {
            assert forall|j: int| 0 <= j < e.len() && (#[trigger] e[j]) is Ok implies item_is_row_within(
                e[j],
                end,
            ) by {
                if j > 0 {
                    assert(e[j] == emitted(rest, end, (limit - 1) as nat)[j - 1]);
                }
            }
        }
    }
}

/// A scan ends its output at the first failure the cursor yields: a failure
/// can only be the last item handed on.
pub proof fn lemma_scan_failure_is_last(items: Seq<ScanItem>, end: KeyBound, limit: nat)
    ensures
        forall|j: int|
            0 <= j < emitted(items, end, limit).len() - 1 ==> (#[trigger] emitted(
                items,
                end,
                limit,
            )[j]) is Ok,
    decreases items.len(),
{
    if items.len() > 0 && limit > 0 {
        let rest = items.drop_first();
        lemma_scan_failure_is_last(rest, end, (limit - 1) as nat);
        let e = emitted(items, end, limit);
        if item_is_row_within(items[0], end) {
            assert forall|j: int| 0 <= j < e.len() - 1 implies (#[trigger] e[j]) is Ok by {
                if j > 0 {
                    assert(e[j] == emitted(rest, end, (limit - 1) as nat)[j - 1]);
                }
            }
        }
    }
}

/// Where the cursor yields at least `limit` rows within the range before
/// anything else, the scan hands on exactly the first `limit` of them.
pub proof fn lemma_scan_fills_limit(items: Seq<ScanItem>, end: KeyBound, limit: nat)
    requires
        limit <= items.len(),
        forall|j: int| 0 <= j < limit ==> item_is_row_within(#[trigger] items[j], end),
    ensures
        emitted(items, end, limit) == items.subrange(0, limit as int),
    decreases items.len(),
{
    if limit > 0 {
        let rest = items.drop_first();
        assert(item_is_row_within(items[0], end));
        assert forall|j: int| 0 <= j < limit - 1 implies item_is_row_within(#[trigger] rest[j], end) by {
            assert(rest[j] == items[j + 1]);
        }
        lemma_scan_fills_limit(rest, end, (limit - 1) as nat);
        assert(items.subrange(0, limit as int) =~= seq![items[0]] + rest.subrange(
            0,
            limit - 1,
        ));
    } else {
        assert(items.subrange(0, 0) =~= Seq::<ScanItem>::empty());
    }
}

/// The decisions of one forward scan, fed the store cursor's items one at a
/// time. The scan holds at most one item at a time: each item it accepts is
/// to be delivered before the next is fetched.
pub struct Scan {
    end: KeyBound,
    limit: usize,
    count: usize,
    done: bool,
    fetched: Ghost<Seq<ScanItem>>,
}

impl Scan {
    /// The end bound of the range.
    pub closed spec fn end_bound(&self) -> KeyBound {
        self.end
    }

    /// The most items the scan hands on.
    pub closed spec fn limit(&self) -> nat {
        self.limit as nat
    }

    /// The items the cursor has yielded to the scan so far.
    pub closed spec fn fetched(&self) -> Seq<ScanItem> {
        self.fetched@
    }

    /// No further item is to be fetched.
    pub closed spec fn done(&self) -> bool {
        self.done
    }

    /// The scan's bookkeeping agrees with what it has fetched.
    pub closed spec fn wf(&self) -> bool {
        &&& !self.done ==> open_run(self.fetched@, self.end, self.limit as nat)
        &&& !self.done ==> self.count == self.fetched@.len()
    }

    /// A scan of the range up to `end` that hands on at most `limit` items.
    pub fn new(end: KeyBound, limit: usize) -> (s: Scan)
        ensures
            s.wf(),
            s.end_bound() == end,
            s.limit() == limit,
            s.fetched() == Seq::<ScanItem>::empty(),
            s.done() == (limit == 0),
    {
        Scan { end, limit, count: 0, done: limit == 0, fetched: Ghost(Seq::empty()) }
    }

    /// Whether the scan is over: no further item is to be fetched.
    pub fn is_done(&self) -> (r: bool)
        ensures
            r == self.done(),
    {
        self.done
    }

    /// Takes the cursor's next item, `None` when the cursor is exhausted,
    /// and returns the item to deliver, if any. A row beyond the end bound
    /// is not delivered; a failure is delivered and ends the scan, as does
    /// reaching the limit.
    pub fn step(&mut self, next: Option<ScanItem>) -> (r: Option<ScanItem>)
        requires
            old(self).wf(),
            !old(self).done(),
        ensures
            final(self).wf(),
            final(self).end_bound() == old(self).end_bound(),
            final(self).limit() == old(self).limit(),
            emitted(old(self).fetched(), old(self).end_bound(), old(self).limit())
                == old(self).fetched(),
            match next {
                None => {
                    &&& r is None
                    &&& final(self).done()
                    &&& final(self).fetched() == old(self).fetched()
                },
                Some(item) => {
                    &&& final(self).fetched() == old(self).fetched().push(item)
                    &&& r == (if item_is_row_within(item, old(self).end_bound()) || item is Err {
                        Some(item)
                    } else {
                        None::<ScanItem>
                    })
                    &&& final(self).done() == !open_run(
                        final(self).fetched(),
                        old(self).end_bound(),
                        old(self).limit(),
                    )
                    &&& emitted(final(self).fetched(), old(self).end_bound(), old(self).limit())
                        == match r {
                        Some(x) => old(self).fetched().push(x),
                        None => old(self).fetched(),
                    }
                    &&& final(self).done() ==> settled(
                        final(self).fetched(),
                        old(self).end_bound(),
                        old(self).limit(),
                    )
                },
            },
    {
        proof {
            lemma_open_run_emitted(self.fetched@, self.end, self.limit as nat);
        }
        match next {
            None => {
                self.done = true;
                None
            },
            Some(item) => {
                let ghost p = self.fetched@;
                let ghost q = p.push(item);
                self.fetched = Ghost(q);
                let deliver: bool;
                let stop: bool;
                match &item {
                    Ok((k, _)) => {
                        let beyond = is_past_end(k.as_slice(), &self.end);
                        deliver = !beyond;
                        stop = beyond || self.count + 1 >= self.limit;
                    },
                    Err(_) => {
                        deliver = true;
                        stop = true;
                    },
                }
                proof {
                    assert(q[q.len() - 1] == item);
                    if !stop {
                        assert forall|j: int| 0 <= j < q.len() implies item_is_row_within(
                            #[trigger] q[j],
                            self.end,
                        ) by {
                            if j < p.len() {
                                assert(q[j] == p[j]);
                            }
                        }
                        lemma_open_run_emitted(q, self.end, self.limit as nat);
                    } else {
                        lemma_closing_item(p, item, self.end, self.limit as nat);
                    }
                }
                self.done = stop;
                if !stop {
                    self.count = self.count + 1;
                }
                if deliver {
                    Some(item)
                } else {
                    None
                }
            },
        }
    }

    /// The receiving side has gone away: the scan stops at once.
    pub fn consumer_gone(&mut self)
        ensures
            final(self).done(),
            final(self).end_bound() == old(self).end_bound(),
            final(self).limit() == old(self).limit(),
            final(self).fetched() == old(self).fetched(),
    {
        self.done = true;
    }
}

/// Runs a scan over the items a store cursor yields, delivering every
/// accepted item to a receiver that keeps reading.
pub fn collect_scan(items: Vec<ScanItem>, end: KeyBound, limit: usize) -> (r: Vec<ScanItem>)
    ensures
        r@ == emitted(items@, end, limit as nat),
{
    let ghost all = items@;
    let mut scan = Scan::new(end, limit);
    let mut out: Vec<ScanItem> = Vec::new();
    let mut rest = items;
    proof {
        assert(all =~= Seq::<ScanItem>::empty() + rest@);
    }
    while !scan.is_done()
        invariant
            scan.wf(),
            scan.end_bound() == end,
            scan.limit() == limit,
            !scan.done() ==> all == scan.fetched() + rest@,
            !scan.done() ==> out@ == scan.fetched(),
            scan.done() ==> out@ == emitted(all, end, limit as nat),
        decreases rest.len() * 2 + (if scan.done() { 0int } else { 1int }),
    {
        let ghost before = scan.fetched();
        let ghost rest_before = rest@;
        let next = if rest.len() > 0 {
            Some(rest.remove(0))
        } else {
            None
        };
        let ghost next_item = next;
        let got = scan.step(next);
        match got {
            Some(x) => {
                out.push(x);
            },
            None => {},
        }
        proof {
            match next_item {
                None => {
                    assert(all =~= before);
                },
                Some(item) => {
                    assert(rest_before =~= seq![item] + rest@);
                    assert(all =~= scan.fetched() + rest@);
                    if !scan.done() {
                        assert(scan.fetched()[scan.fetched().len() - 1] == item);
                        assert(item_is_row_within(item, end));
                        assert(out@ =~= scan.fetched());
                    }
                    if scan.done() {
                        assert(emitted(scan.fetched() + rest@, end, limit as nat) == emitted(
                            scan.fetched(),
                            end,
                            limit as nat,
                        ));
                    }
                },
            }
        }
    }
    proof {
        if limit == 0 {
            assert(emitted(all, end, 0) == Seq::<ScanItem>::empty());
        }
    }
    out
}

} // verus!
