//! The queue of retirements that have not run yet.
use std::collections::VecDeque;
use vstd::prelude::*;

use crate::scan::Scan;

verus! {

/// One callback waiting for its readers to leave.
pub struct Retirement<F> {
    /// Order of publication.
    pub sequence: u64,
    /// The epoch the writer sampled.
    pub epoch: u64,
    /// What to run.
    pub run: F,
}

/// Retirements not yet run, and the sequence number the next one gets.
pub struct Garbage<F> {
    pub next_sequence: u64,
    pub entries: VecDeque<Retirement<F>>,
}

/// Whether a completed scan allows this retirement to run.
///
/// Strictly less than: something retired in the same epoch a reader pinned in
/// may still be reachable by that reader.
pub open spec fn covers<F>(scan: Scan, r: Retirement<F>) -> bool {
    r.sequence < scan.cutoff && r.epoch < scan.min_pinned
}

/// The retirements a scan allows to run.
pub open spec fn covered<F>(scan: Scan) -> spec_fn(Retirement<F>) -> bool {
    |r: Retirement<F>| covers(scan, r)
}

/// The retirements a scan does not allow to run.
pub open spec fn withheld<F>(scan: Scan) -> spec_fn(Retirement<F>) -> bool {
    |r: Retirement<F>| !covers(scan, r)
}

/// How many queued retirements an extraction looks at: it stops once it has
/// found `limit` that may run, or at the end of the queue.
pub open spec fn inspected<F>(queue: Seq<Retirement<F>>, scan: Scan, limit: int) -> int
    decreases queue.len(),
{
    if queue.len() == 0 || limit <= 0 {
        0
    } else if covers(scan, queue[0]) {
        1 + inspected(queue.skip(1), scan, limit - 1)
    } else {
        1 + inspected(queue.skip(1), scan, limit)
    }
}

/// The retirements an extraction takes out, in the order they run.
pub open spec fn taken_out<F>(queue: Seq<Retirement<F>>, scan: Scan, limit: int) -> Seq<
    Retirement<F>,
> {
    queue.take(inspected(queue, scan, limit)).filter(covered(scan))
}

/// The queue once its first `k` retirements were looked at: those not looked at
/// yet, then those looked at and withheld.
pub open spec fn rotated<F>(queue: Seq<Retirement<F>>, scan: Scan, k: int) -> Seq<Retirement<F>> {
    queue.skip(k) + queue.take(k).filter(withheld(scan))
}

/// The queue an extraction leaves.
pub open spec fn left_over<F>(queue: Seq<Retirement<F>>, scan: Scan, limit: int) -> Seq<
    Retirement<F>,
> {
    rotated(queue, scan, inspected(queue, scan, limit))
}

/// The queue with every retirement made older than any pin.
pub open spec fn aged<F>(queue: Seq<Retirement<F>>) -> Seq<Retirement<F>> {
    queue.map_values(|r: Retirement<F>| Retirement { epoch: 0, ..r })
}

/// Every sequence number in the queue is below `bound`.
pub open spec fn numbered_below<F>(queue: Seq<Retirement<F>>, bound: u64) -> bool {
    forall|i: int| 0 <= i < queue.len() ==> (#[trigger] queue[i]).sequence < bound
}

/// No two retirements in the queue have the same sequence number.
pub open spec fn distinctly_numbered<F>(queue: Seq<Retirement<F>>) -> bool {
    forall|i: int, j: int|
        0 <= i < j < queue.len() ==> (#[trigger] queue[i]).sequence != (
        #[trigger] queue[j]).sequence
}

/// No retirement in the queue is stamped later than `epoch`.
pub open spec fn stamped_within<F>(queue: Seq<Retirement<F>>, epoch: u64) -> bool {
    forall|i: int| 0 <= i < queue.len() ==> (#[trigger] queue[i]).epoch <= epoch
}

impl<F> Retirement<F> {
    /// Whether a completed scan allows this retirement to run.
    pub fn covered_by(&self, scan: &Scan) -> (b: bool)
        ensures
            b == covers(*scan, *self),
    {
        self.sequence < scan.cutoff && self.epoch < scan.min_pinned
    }
}

impl<F> Garbage<F> {
    /// Sequence numbers are unique and all below the next one.
    pub open spec fn wf(&self) -> bool {
        numbered_below(self.entries@, self.next_sequence) && distinctly_numbered(self.entries@)
    }

    /// An empty queue.
    pub fn new() -> (g: Garbage<F>)
        ensures
            g.wf(),
            g.next_sequence == 0,
            g.entries@.len() == 0,
    {
        Garbage { next_sequence: 0, entries: VecDeque::new() }
    }

    /// Queues a retirement stamped with a sampled epoch.
    ///
    /// The sequence number never wraps: an old scan must not mistake new garbage
    /// for its batch.
    pub fn push(&mut self, epoch: u64, run: F)
        requires
            old(self).wf(),
            old(self).next_sequence < u64::MAX,
        ensures
            final(self).wf(),
            final(self).next_sequence == old(self).next_sequence + 1,
            final(self).entries@ == old(self).entries@.push(
                Retirement { sequence: old(self).next_sequence, epoch, run },
            ),
    {
        let sequence: u64 = self.next_sequence;
        self.next_sequence = sequence + 1;
        self.entries.push_back(Retirement { sequence, epoch, run });
    }

    /// The sequence number a scan beginning now may cover up to, or `None` if
    /// there is nothing to reclaim.
    pub fn cutoff(&self) -> (c: Option<u64>)
        ensures
            c == (if self.entries@.len() == 0 {
                None
            } else {
                Some(self.next_sequence)
            }),
    {
        if self.entries.len() == 0 {
            None
        } else {
            Some(self.next_sequence)
        }
    }

    /// Takes out at most `limit` retirements that the scan allows to run.
    ///
    /// Pops from the front and rotates what is withheld to the back, so the part
    /// of the queue that was not looked at does not move, and each queued entry
    /// is looked at no more than once. Nothing is assumed about the order of
    /// epochs in the queue.
    pub fn extract(&mut self, scan: Scan, limit: usize) -> (batch: VecDeque<Retirement<F>>)
        requires
            old(self).wf(),
        ensures
            final(self).wf(),
            final(self).next_sequence == old(self).next_sequence,
            batch@ == taken_out(old(self).entries@, scan, limit as int),
            final(self).entries@ == left_over(old(self).entries@, scan, limit as int),
            batch@.len() <= limit,
    {
        let ghost q = self.entries@;
        let queued: usize = self.entries.len();
        let mut batch: VecDeque<Retirement<F>> = VecDeque::new();
        let mut i: usize = 0;
        proof {
            reveal(Seq::filter);
            assert(q.skip(0) =~= q);
            assert(self.entries@ =~= rotated(q, scan, 0));
        }
        while i < queued && batch.len() != limit
            invariant
                i <= queued,
                queued == q.len(),
                batch@.len() <= limit,
                self.next_sequence == old(self).next_sequence,
                self.entries@ == rotated(q, scan, i as int),
                batch@ == q.take(i as int).filter(covered(scan)),
                inspected(q, scan, limit as int) == i + inspected(
                    q.skip(i as int),
                    scan,
                    limit - batch@.len(),
                ),
            decreases queued - i,
        {
            let ghost tail = q.skip(i as int);
            let r: Retirement<F> = self.entries.pop_front().unwrap();
            proof {
                reveal(Seq::filter);
                let next = q.take(i + 1);
                assert(next.drop_last() =~= q.take(i as int));
                assert(next.last() == q[i as int]);
                assert(r == q[i as int]);
                assert(tail[0] == r);
                assert(tail.skip(1) =~= q.skip(i + 1));
                assert(self.entries@ =~= q.skip(i + 1) + q.take(i as int).filter(withheld(scan)));
            }
            if r.covered_by(&scan) {
                batch.push_back(r);
            } else {
                self.entries.push_back(r);
                assert(self.entries@ =~= rotated(q, scan, i + 1));
            }
            i = i + 1;
        }
        proof {
            assert(inspected(q.skip(i as int), scan, limit - batch@.len()) == 0);
            lemma_left_over_is_numbered(q, scan, limit as int, self.next_sequence);
        }
        batch
    }

    /// Puts retirements that were taken out but did not run back in the queue.
    ///
    /// They keep their original stamps: a concurrent scan must still respect its
    /// own cutoff.
    pub fn requeue(&mut self, batch: &mut VecDeque<Retirement<F>>)
        ensures
            final(self).next_sequence == old(self).next_sequence,
            final(self).entries@ == old(self).entries@ + old(batch)@,
            final(batch)@.len() == 0,
    {
        self.entries.append(batch);
    }

    /// Makes every queued retirement older than any pin, without running it or
    /// changing its sequence number.
    pub fn age(&mut self)
        requires
            old(self).wf(),
        ensures
            final(self).wf(),
            final(self).next_sequence == old(self).next_sequence,
            final(self).entries@ == aged(old(self).entries@),
    {
        let ghost q = self.entries@;
        let queued: usize = self.entries.len();
        let mut i: usize = 0;
        assert(self.entries@ =~= q.skip(0) + aged(q.take(0)));
        while i < queued
            invariant
                i <= queued,
                queued == q.len(),
                self.next_sequence == old(self).next_sequence,
                self.entries@ == q.skip(i as int) + aged(q.take(i as int)),
            decreases queued - i,
        {
            let mut r: Retirement<F> = self.entries.pop_front().unwrap();
            r.epoch = 0;
            self.entries.push_back(r);
            assert(self.entries@ =~= q.skip(i + 1) + aged(q.take(i + 1)));
            i = i + 1;
        }
        assert(self.entries@ =~= aged(q)) by {
            assert(q.take(i as int) =~= q);
        }
    }
}

/// Filtering keeps members and keeps distinct sequence numbers distinct.
pub proof fn lemma_filter_is_numbered<F>(
    queue: Seq<Retirement<F>>,
    p: spec_fn(Retirement<F>) -> bool,
)
    requires
        distinctly_numbered(queue),
    ensures
        distinctly_numbered(queue.filter(p)),
        forall|i: int|
            0 <= i < queue.filter(p).len() ==> queue.contains(#[trigger] queue.filter(p)[i]),
    decreases queue.len(),
{
    reveal(Seq::filter);
    if queue.len() > 0 {
        let front = queue.drop_last();
        lemma_filter_is_numbered(front, p);
        let kept = front.filter(p);
        assert forall|i: int| 0 <= i < queue.filter(p).len() implies queue.contains(
            #[trigger] queue.filter(p)[i],
        ) by {
            if i < kept.len() {
                assert(front.contains(kept[i]));
                let j = choose|j: int| 0 <= j < front.len() && front[j] == kept[i];
                assert(queue[j] == kept[i]);
            } else {
                assert(queue[queue.len() - 1] == queue.filter(p)[i]);
            }
        }
        assert forall|i: int| 0 <= i < kept.len() implies (#[trigger] kept[i]).sequence
            != queue.last().sequence by {
            assert(front.contains(kept[i]));
            let j = choose|j: int| 0 <= j < front.len() && front[j] == kept[i];
            assert(queue[j].sequence != queue[queue.len() - 1].sequence);
        }
    }
}

/// How many retirements an extraction looks at is within the queue.
pub proof fn lemma_inspected<F>(queue: Seq<Retirement<F>>, scan: Scan, limit: int)
    ensures
        0 <= inspected(queue, scan, limit) <= queue.len(),
    decreases queue.len(),
{
    if queue.len() > 0 && limit > 0 {
        lemma_inspected(queue.skip(1), scan, limit - 1);
        lemma_inspected(queue.skip(1), scan, limit);
    }
}

/// What an extraction takes out was queued.
pub proof fn lemma_taken_out_was_queued<F>(queue: Seq<Retirement<F>>, scan: Scan, limit: int)
    ensures
        forall|i: int|
            0 <= i < taken_out(queue, scan, limit).len() ==> queue.contains(
                #[trigger] taken_out(queue, scan, limit)[i],
            ) && covers(scan, taken_out(queue, scan, limit)[i]),
{
    lemma_inspected(queue, scan, limit);
    let head = queue.take(inspected(queue, scan, limit));
    let batch = taken_out(queue, scan, limit);
    assert forall|i: int| 0 <= i < batch.len() implies queue.contains(#[trigger] batch[i])
        && covers(scan, batch[i]) by {
        head.lemma_filter_pred(covered(scan), i);
        assert(batch.contains(batch[i]));
        head.lemma_filter_contains_rev(covered(scan), batch[i]);
        let j = choose|j: int| 0 <= j < head.len() && head[j] == batch[i];
        assert(queue[j] == batch[i]);
    }
}

/// What an extraction leaves was queued.
pub proof fn lemma_left_over_was_queued<F>(queue: Seq<Retirement<F>>, scan: Scan, limit: int)
    ensures
        forall|i: int|
            0 <= i < left_over(queue, scan, limit).len() ==> queue.contains(
                #[trigger] left_over(queue, scan, limit)[i],
            ),
{
    lemma_inspected(queue, scan, limit);
    let k = inspected(queue, scan, limit);
    let head = queue.take(k);
    let kept = head.filter(withheld(scan));
    let rest = left_over(queue, scan, limit);
    assert forall|i: int| 0 <= i < rest.len() implies queue.contains(#[trigger] rest[i]) by {
        if i < queue.len() - k {
            assert(rest[i] == queue[k + i]);
        } else {
            let m = i - (queue.len() - k);
            assert(rest[i] == kept[m]);
            assert(kept.contains(kept[m]));
            head.lemma_filter_contains_rev(withheld(scan), kept[m]);
            let j = choose|j: int| 0 <= j < head.len() && head[j] == kept[m];
            assert(queue[j] == kept[m]);
        }
    }
}

/// Extraction leaves distinct sequence numbers, all below the next one.
pub proof fn lemma_left_over_is_numbered<F>(
    queue: Seq<Retirement<F>>,
    scan: Scan,
    limit: int,
    bound: u64,
)
    requires
        numbered_below(queue, bound),
        distinctly_numbered(queue),
    ensures
        numbered_below(left_over(queue, scan, limit), bound),
        distinctly_numbered(left_over(queue, scan, limit)),
{
    lemma_inspected(queue, scan, limit);
    let k = inspected(queue, scan, limit);
    let head = queue.take(k);
    let kept = head.filter(withheld(scan));
    let tail = queue.skip(k);
    let rest = left_over(queue, scan, limit);
    lemma_filter_is_numbered(head, withheld(scan));
    assert forall|i: int| 0 <= i < kept.len() implies (exists|j: int|
        0 <= j < k && #[trigger] queue[j] == #[trigger] kept[i]) by {
        assert(head.contains(kept[i]));
        let j = choose|j: int| 0 <= j < head.len() && head[j] == kept[i];
        assert(queue[j] == kept[i]);
    }
    assert forall|i: int| 0 <= i < rest.len() implies (#[trigger] rest[i]).sequence < bound by {
        if i < tail.len() {
            assert(rest[i] == queue[k + i]);
        } else {
            assert(rest[i] == kept[i - tail.len()]);
        }
    }
    assert forall|i: int, j: int| 0 <= i < j < rest.len() implies (#[trigger] rest[i]).sequence != (
    #[trigger] rest[j]).sequence by {
        if i < tail.len() {
            assert(rest[i] == queue[k + i]);
        } else {
            assert(rest[i] == kept[i - tail.len()]);
        }
        if j < tail.len() {
            assert(rest[j] == queue[k + j]);
        } else {
            assert(rest[j] == kept[j - tail.len()]);
        }
    }
}

} // verus!
