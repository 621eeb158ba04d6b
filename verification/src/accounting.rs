//! Every retirement is somewhere: queued, taken out, or run, and only once.
use vstd::prelude::*;

use crate::garbage::{
    covered, covers, distinctly_numbered, inspected, left_over, lemma_filter_is_numbered,
    lemma_inspected, numbered_below, taken_out, withheld, Retirement,
};
use crate::protocol::{Event, Pass, System};
use crate::safety::{possible, reached};
use crate::scan::Scan;

verus! {

/// Whether the queue holds the retirement with this sequence number.
pub open spec fn numbers<F>(queue: Seq<Retirement<F>>, q: u64) -> bool {
    exists|i: int| 0 <= i < queue.len() && (#[trigger] queue[i]).sequence == q
}

/// What a pass has taken out and not run yet.
pub open spec fn in_hand<F>(pass: Pass<F>) -> Seq<Retirement<F>> {
    match pass {
        Pass::Running { now, batch } => batch,
        _ => Seq::empty(),
    }
}

/// Sequence numbers of the callbacks that were run by these steps.
pub open spec fn ran<F>(s: System<F>, events: Seq<Event<F>>) -> Set<u64>
    decreases events.len(),
{
    if events.len() == 0 {
        Set::empty()
    } else {
        let before = ran(s, events.drop_last());
        match events.last() {
            Event::RunOne { pass } => before.insert(
                in_hand(reached(s, events.drop_last()).passes[pass])[0].sequence,
            ),
            _ => before,
        }
    }
}

impl<F> System<F> {
    /// A pass has the retirement with this sequence number in hand.
    pub open spec fn holds_out(self, p: nat, q: u64) -> bool {
        self.passes.contains_key(p) && numbers(in_hand(self.passes[p]), q)
    }

    /// The retirement with this sequence number has not run yet.
    pub open spec fn pending(self, q: u64) -> bool {
        numbers(self.queue, q) || exists|p: nat| self.holds_out(p, q)
    }

    /// No retirement is in two places.
    pub open spec fn places_inv(self) -> bool {
        &&& distinctly_numbered(self.queue)
        &&& numbered_below(self.queue, self.next_sequence)
        &&& forall|p: nat| #[trigger]
            self.passes.contains_key(p) ==> distinctly_numbered(in_hand(self.passes[p]))
                && numbered_below(in_hand(self.passes[p]), self.next_sequence)
        &&& forall|p: nat, q: u64| #[trigger] self.holds_out(p, q) ==> !numbers(self.queue, q)
        &&& forall|p: nat, o: nat, q: u64| #[trigger]
            self.holds_out(p, q) && #[trigger] self.holds_out(o, q) ==> p == o
    }
}

proof fn lemma_numbers_below<F>(queue: Seq<Retirement<F>>, bound: u64, q: u64)
    requires
        numbered_below(queue, bound),
        numbers(queue, q),
    ensures
        q < bound,
{
}

/// What an extraction takes out and what it leaves, by sequence number.
proof fn lemma_extraction_splits<F>(queue: Seq<Retirement<F>>, scan: Scan, limit: int)
    requires
        distinctly_numbered(queue),
    ensures
        distinctly_numbered(taken_out(queue, scan, limit)),
        forall|q: u64|
            numbers(queue, q) <==> #[trigger] numbers(taken_out(queue, scan, limit), q) || numbers(
                left_over(queue, scan, limit),
                q,
            ),
        forall|q: u64|
            !(#[trigger] numbers(taken_out(queue, scan, limit), q) && numbers(
                left_over(queue, scan, limit),
                q,
            )),
{
    lemma_inspected(queue, scan, limit);
    let k = inspected(queue, scan, limit);
    let head = queue.take(k);
    let tail = queue.skip(k);
    let out = taken_out(queue, scan, limit);
    let kept = head.filter(withheld(scan));
    let rest = left_over(queue, scan, limit);
    lemma_filter_is_numbered(head, covered(scan));
    lemma_filter_is_numbered(head, withheld(scan));
    // Where each piece comes from.
    assert forall|i: int| 0 <= i < out.len() implies (exists|j: int|
        0 <= j < k && #[trigger] queue[j] == #[trigger] out[i] && covers(scan, queue[j])) by {
        head.lemma_filter_pred(covered(scan), i);
        let j = choose|j: int| 0 <= j < head.len() && head[j] == out[i];
        assert(queue[j] == out[i]);
    }
    assert forall|i: int| 0 <= i < kept.len() implies (exists|j: int|
        0 <= j < k && #[trigger] queue[j] == #[trigger] kept[i] && !covers(scan, queue[j])) by {
        head.lemma_filter_pred(withheld(scan), i);
        let j = choose|j: int| 0 <= j < head.len() && head[j] == kept[i];
        assert(queue[j] == kept[i]);
    }
    assert forall|q: u64| numbers(rest, q) <==> numbers(tail, q) || #[trigger] numbers(kept, q) by {
        if numbers(rest, q) {
            let i = choose|i: int| 0 <= i < rest.len() && (#[trigger] rest[i]).sequence == q;
            if i < tail.len() {
                assert(tail[i].sequence == q);
            } else {
                assert(kept[i - tail.len()].sequence == q);
            }
        }
        if numbers(tail, q) {
            let i = choose|i: int| 0 <= i < tail.len() && (#[trigger] tail[i]).sequence == q;
            assert(rest[i].sequence == q);
        }
        if numbers(kept, q) {
            let i = choose|i: int| 0 <= i < kept.len() && (#[trigger] kept[i]).sequence == q;
            assert(rest[tail.len() + i].sequence == q);
        }
    }
    assert forall|q: u64| #[trigger] numbers(out, q) implies !numbers(rest, q) && numbers(
        queue,
        q,
    ) by {
        let i = choose|i: int| 0 <= i < out.len() && (#[trigger] out[i]).sequence == q;
        let a = choose|j: int|
            0 <= j < k && #[trigger] queue[j] == out[i] && covers(scan, queue[j]);
        assert(queue[a].sequence == q);
        if numbers(rest, q) {
            assert(numbers(tail, q) || numbers(kept, q));
            if numbers(tail, q) {
                let m = choose|m: int| 0 <= m < tail.len() && (#[trigger] tail[m]).sequence == q;
                assert(tail[m] == queue[k + m]);
                assert(queue[a].sequence != queue[k + m].sequence);
            } else {
                let m = choose|m: int| 0 <= m < kept.len() && (#[trigger] kept[m]).sequence == q;
                let b = choose|j: int|
                    0 <= j < k && #[trigger] queue[j] == kept[m] && !covers(scan, queue[j]);
                if a < b {
                    assert(queue[a].sequence != queue[b].sequence);
                } else if b < a {
                    assert(queue[b].sequence != queue[a].sequence);
                }
            }
        }
    }
    assert forall|q: u64| numbers(queue, q) implies #[trigger] numbers(out, q) || numbers(
        rest,
        q,
    ) by {
        let j = choose|j: int| 0 <= j < queue.len() && (#[trigger] queue[j]).sequence == q;
        if j < k {
            assert(head[j] == queue[j]);
            if covers(scan, queue[j]) {
                head.lemma_filter_contains(covered(scan), j);
                let m = choose|m: int| 0 <= m < out.len() && out[m] == head[j];
                assert(out[m].sequence == q);
            } else {
                head.lemma_filter_contains(withheld(scan), j);
                let m = choose|m: int| 0 <= m < kept.len() && kept[m] == head[j];
                assert(kept[m].sequence == q);
                assert(rest[tail.len() + m].sequence == q);
            }
        } else {
            assert(tail[j - k].sequence == q);
            assert(rest[j - k].sequence == q);
        }
    }
    assert forall|q: u64| numbers(rest, q) implies numbers(queue, q) by {
        assert(numbers(kept, q) || !numbers(kept, q));
        if numbers(tail, q) {
            let m = choose|m: int| 0 <= m < tail.len() && (#[trigger] tail[m]).sequence == q;
            assert(queue[k + m].sequence == q);
        } else {
            let m = choose|m: int| 0 <= m < kept.len() && (#[trigger] kept[m]).sequence == q;
            let b = choose|j: int|
                0 <= j < k && #[trigger] queue[j] == kept[m] && !covers(scan, queue[j]);
            assert(queue[b].sequence == q);
        }
    }
    assert forall|q: u64|
        numbers(queue, q) <==> #[trigger] numbers(out, q) || numbers(rest, q) by {}
}

/// What one step does to where retirements are.
pub open spec fn moves<F>(s: System<F>, ev: Event<F>, post: System<F>) -> bool {
    match ev {
        Event::Enqueue { retiring, run } => forall|q: u64| #[trigger]
            post.pending(q) <==> s.pending(q) || q == s.next_sequence,
        Event::RunOne { pass } => forall|q: u64| #[trigger]
            post.pending(q) <==> s.pending(q) && q != in_hand(s.passes[pass])[0].sequence,
        _ => forall|q: u64| #[trigger] post.pending(q) <==> s.pending(q),
    }
}

/// A step that touches neither the queue nor what any pass has in hand.
proof fn lemma_nothing_moves<F>(s: System<F>, post: System<F>)
    requires
        s.places_inv(),
        post.queue == s.queue,
        post.next_sequence == s.next_sequence,
        forall|p: nat, q: u64| #[trigger] post.holds_out(p, q) <==> s.holds_out(p, q),
        forall|p: nat| #[trigger]
            post.passes.contains_key(p) ==> in_hand(post.passes[p]).len() == 0 || (
            s.passes.contains_key(p) && post.passes[p] == s.passes[p]),
    ensures
        post.places_inv(),
        forall|q: u64| #[trigger] post.pending(q) <==> s.pending(q),
{
    assert forall|q: u64| #[trigger] post.pending(q) <==> s.pending(q) by {
        if exists|p: nat| s.holds_out(p, q) {
            let p = choose|p: nat| s.holds_out(p, q);
            assert(post.holds_out(p, q));
        }
        if exists|p: nat| post.holds_out(p, q) {
            let p = choose|p: nat| post.holds_out(p, q);
            assert(s.holds_out(p, q));
        }
    }
    assert forall|p: nat, q: u64| #[trigger] post.holds_out(p, q) implies !numbers(
        post.queue,
        q,
    ) by {
        assert(s.holds_out(p, q));
    }
    assert forall|p: nat, o: nat, q: u64| #[trigger]
        post.holds_out(p, q) && #[trigger] post.holds_out(o, q) implies p == o by {
        assert(s.holds_out(p, q) && s.holds_out(o, q));
    }
}

proof fn lemma_enqueue_places<F>(s: System<F>, retiring: nat, run: F)
    requires
        s.places_inv(),
        s.enabled(Event::Enqueue { retiring, run }),
    ensures
        s.after(Event::Enqueue { retiring, run }).places_inv(),
        moves(s, Event::Enqueue { retiring, run }, s.after(Event::Enqueue { retiring, run })),
{
    let post = s.after(Event::Enqueue { retiring, run });
    assert forall|q: u64|
        #[trigger] numbers(post.queue, q) <==> numbers(s.queue, q) || q == s.next_sequence by {
        if numbers(s.queue, q) {
            let i = choose|i: int| 0 <= i < s.queue.len() && (#[trigger] s.queue[i]).sequence == q;
            assert(post.queue[i].sequence == q);
        }
        if q == s.next_sequence {
            assert(post.queue[s.queue.len() as int].sequence == q);
        }
        if numbers(post.queue, q) {
            let i = choose|i: int|
                0 <= i < post.queue.len() && (#[trigger] post.queue[i]).sequence == q;
            if i < s.queue.len() {
                assert(s.queue[i].sequence == q);
            }
        }
    }
    assert forall|p: nat, q: u64| #[trigger] post.holds_out(p, q) <==> s.holds_out(p, q) by {}
    assert forall|q: u64| #[trigger] post.pending(q) <==> s.pending(q) || q == s.next_sequence by {
        if exists|p: nat| s.holds_out(p, q) {
            let p = choose|p: nat| s.holds_out(p, q);
            assert(post.holds_out(p, q));
        }
        if exists|p: nat| post.holds_out(p, q) {
            let p = choose|p: nat| post.holds_out(p, q);
            assert(s.holds_out(p, q));
        }
        assert(numbers(post.queue, q) <==> numbers(s.queue, q) || q == s.next_sequence);
    }
    assert forall|p: nat, q: u64| #[trigger] post.holds_out(p, q) implies !numbers(
        post.queue,
        q,
    ) by {
        assert(s.holds_out(p, q));
        lemma_numbers_below(in_hand(s.passes[p]), s.next_sequence, q);
    }
    assert forall|p: nat, o: nat, q: u64| #[trigger]
        post.holds_out(p, q) && #[trigger] post.holds_out(o, q) implies p == o by {
        assert(s.holds_out(p, q) && s.holds_out(o, q));
    }
}

proof fn lemma_extract_places<F>(s: System<F>, pass: nat, limit: int)
    requires
        s.places_inv(),
        s.enabled(Event::Extract { pass, limit }),
    ensures
        s.after(Event::Extract { pass, limit }).places_inv(),
        moves(s, Event::Extract { pass, limit }, s.after(Event::Extract { pass, limit })),
{
    let post = s.after(Event::Extract { pass, limit });
    let scan = s.passes[pass]->Reading_scan;
    let out = taken_out(s.queue, scan, limit);
    lemma_extraction_splits(s.queue, scan, limit);
    crate::garbage::lemma_left_over_is_numbered(s.queue, scan, limit, s.next_sequence);
    assert(in_hand(post.passes[pass]) == out);
    assert(in_hand(s.passes[pass]).len() == 0);
    assert(numbered_below(out, s.next_sequence)) by {
        assert forall|i: int| 0 <= i < out.len() implies (#[trigger] out[i]).sequence
            < s.next_sequence by {
            assert(numbers(out, out[i].sequence));
            lemma_numbers_below(s.queue, s.next_sequence, out[i].sequence);
        }
    }
    assert forall|p: nat, q: u64| #[trigger]
        post.holds_out(p, q) <==> (if p == pass {
            numbers(out, q)
        } else {
            s.holds_out(p, q)
        }) by {}
    assert forall|q: u64| #[trigger] post.pending(q) <==> s.pending(q) by {
        if exists|p: nat| s.holds_out(p, q) {
            let p = choose|p: nat| s.holds_out(p, q);
            assert(post.holds_out(p, q));
        }
        if exists|p: nat| post.holds_out(p, q) {
            let p = choose|p: nat| post.holds_out(p, q);
            if p != pass {
                assert(s.holds_out(p, q));
            }
        }
        if numbers(out, q) {
            assert(post.holds_out(pass, q));
        }
    }
    assert forall|p: nat, q: u64| #[trigger] post.holds_out(p, q) implies !numbers(
        post.queue,
        q,
    ) by {
        assert(numbers(s.queue, q) <==> numbers(out, q) || numbers(post.queue, q));
        assert(!(numbers(out, q) && numbers(post.queue, q)));
        if p != pass {
            assert(s.holds_out(p, q));
        }
    }
    assert forall|p: nat, o: nat, q: u64| #[trigger]
        post.holds_out(p, q) && #[trigger] post.holds_out(o, q) implies p == o by {
        if p != pass {
            assert(s.holds_out(p, q));
        }
        if o != pass {
            assert(s.holds_out(o, q));
        }
    }
}

proof fn lemma_run_places<F>(s: System<F>, pass: nat)
    requires
        s.places_inv(),
        s.enabled(Event::RunOne { pass }),
    ensures
        s.after(Event::RunOne { pass }).places_inv(),
        moves(s, Event::RunOne { pass }, s.after(Event::RunOne { pass })),
{
    let post = s.after(Event::RunOne { pass });
    let batch = in_hand(s.passes[pass]);
    let rest = batch.skip(1);
    let first = batch[0].sequence;
    assert(in_hand(post.passes[pass]) == rest);
    assert forall|q: u64| #[trigger] numbers(rest, q) <==> numbers(batch, q) && q != first by {
        if numbers(rest, q) {
            let i = choose|i: int| 0 <= i < rest.len() && (#[trigger] rest[i]).sequence == q;
            assert(rest[i] == batch[i + 1]);
            assert(batch[0].sequence != batch[i + 1].sequence);
        }
        if numbers(batch, q) && q != first {
            let i = choose|i: int| 0 <= i < batch.len() && (#[trigger] batch[i]).sequence == q;
            assert(rest[i - 1] == batch[i]);
        }
    }
    assert(distinctly_numbered(rest)) by {
        assert forall|i: int, j: int| 0 <= i < j < rest.len() implies (#[trigger] rest[i]).sequence
            != (#[trigger] rest[j]).sequence by {
            assert(rest[i] == batch[i + 1] && rest[j] == batch[j + 1]);
        }
    }
    assert(numbered_below(rest, s.next_sequence)) by {
        assert forall|i: int| 0 <= i < rest.len() implies (#[trigger] rest[i]).sequence
            < s.next_sequence by {
            assert(rest[i] == batch[i + 1]);
        }
    }
    assert forall|p: nat, q: u64| #[trigger]
        post.holds_out(p, q) <==> (s.holds_out(p, q) && !(p == pass && q == first)) by {
        if p == pass {
            assert(numbers(rest, q) <==> numbers(batch, q) && q != first);
        }
    }
    assert(s.holds_out(pass, first)) by {
        assert(batch[0].sequence == first);
    }
    assert forall|q: u64| #[trigger] post.pending(q) <==> s.pending(q) && q != first by {
        if exists|p: nat| s.holds_out(p, q) {
            let p = choose|p: nat| s.holds_out(p, q);
            if q != first {
                assert(post.holds_out(p, q));
            }
        }
        if exists|p: nat| post.holds_out(p, q) {
            let p = choose|p: nat| post.holds_out(p, q);
            assert(s.holds_out(p, q));
        }
        if q == first {
            assert(!numbers(s.queue, q));
            assert forall|p: nat| !post.holds_out(p, q) by {
                if post.holds_out(p, q) {
                    assert(s.holds_out(p, q) && s.holds_out(pass, q));
                }
            }
        }
    }
    assert forall|p: nat, q: u64| #[trigger] post.holds_out(p, q) implies !numbers(
        post.queue,
        q,
    ) by {
        assert(s.holds_out(p, q));
    }
    assert forall|p: nat, o: nat, q: u64| #[trigger]
        post.holds_out(p, q) && #[trigger] post.holds_out(o, q) implies p == o by {
        assert(s.holds_out(p, q) && s.holds_out(o, q));
    }
}

proof fn lemma_requeue_places<F>(s: System<F>, pass: nat)
    requires
        s.places_inv(),
        s.enabled(Event::Requeue { pass }),
    ensures
        s.after(Event::Requeue { pass }).places_inv(),
        moves(s, Event::Requeue { pass }, s.after(Event::Requeue { pass })),
{
    let post = s.after(Event::Requeue { pass });
    let batch = in_hand(s.passes[pass]);
    let n = s.queue.len();
    assert forall|q: u64|
        #[trigger] numbers(post.queue, q) <==> numbers(s.queue, q) || numbers(batch, q) by {
        if numbers(s.queue, q) {
            let i = choose|i: int| 0 <= i < n && (#[trigger] s.queue[i]).sequence == q;
            assert(post.queue[i].sequence == q);
        }
        if numbers(batch, q) {
            let i = choose|i: int| 0 <= i < batch.len() && (#[trigger] batch[i]).sequence == q;
            assert(post.queue[n + i].sequence == q);
        }
        if numbers(post.queue, q) {
            let i = choose|i: int|
                0 <= i < post.queue.len() && (#[trigger] post.queue[i]).sequence == q;
            if i < n {
                assert(s.queue[i].sequence == q);
            } else {
                assert(batch[i - n].sequence == q);
            }
        }
    }
    assert(distinctly_numbered(post.queue)) by {
        assert forall|i: int, j: int| 0 <= i < j < post.queue.len() implies (
        #[trigger] post.queue[i]).sequence != (#[trigger] post.queue[j]).sequence by {
            if i < n && j >= n {
                let q = batch[j - n].sequence;
                assert(s.holds_out(pass, q));
                assert(!numbers(s.queue, q));
                assert(post.queue[i] == s.queue[i] && post.queue[j] == batch[j - n]);
            } else if i >= n {
                assert(post.queue[i] == batch[i - n] && post.queue[j] == batch[j - n]);
            }
        }
    }
    assert forall|p: nat, q: u64| #[trigger]
        post.holds_out(p, q) <==> s.holds_out(p, q) && p != pass by {}
    assert forall|q: u64| #[trigger] post.pending(q) <==> s.pending(q) by {
        assert(numbers(post.queue, q) <==> numbers(s.queue, q) || numbers(batch, q));
        if numbers(batch, q) {
            assert(s.holds_out(pass, q));
        }
        if exists|p: nat| s.holds_out(p, q) {
            let p = choose|p: nat| s.holds_out(p, q);
            if p != pass {
                assert(post.holds_out(p, q));
            }
        }
        if exists|p: nat| post.holds_out(p, q) {
            let p = choose|p: nat| post.holds_out(p, q);
            assert(s.holds_out(p, q));
        }
    }
    assert forall|p: nat, q: u64| #[trigger] post.holds_out(p, q) implies !numbers(
        post.queue,
        q,
    ) by {
        assert(s.holds_out(p, q));
        if numbers(batch, q) {
            assert(s.holds_out(pass, q));
        }
    }
    assert forall|p: nat, o: nat, q: u64| #[trigger]
        post.holds_out(p, q) && #[trigger] post.holds_out(o, q) implies p == o by {
        assert(s.holds_out(p, q) && s.holds_out(o, q));
    }
}

proof fn lemma_renew_places<F>(s: System<F>)
    requires
        s.places_inv(),
        s.enabled(Event::Renew),
    ensures
        s.after(Event::Renew).places_inv(),
        moves(s, Event::Renew, s.after(Event::Renew)),
{
    let post = s.after(Event::Renew);
    assert forall|q: u64| #[trigger] numbers(post.queue, q) <==> numbers(s.queue, q) by {
        if numbers(s.queue, q) {
            let i = choose|i: int| 0 <= i < s.queue.len() && (#[trigger] s.queue[i]).sequence == q;
            assert(post.queue[i].sequence == q);
        }
        if numbers(post.queue, q) {
            let i = choose|i: int|
                0 <= i < post.queue.len() && (#[trigger] post.queue[i]).sequence == q;
            assert(s.queue[i].sequence == q);
        }
    }
    assert forall|p: nat, q: u64| !#[trigger] post.holds_out(p, q) by {
        assert(!s.passes.dom().contains(p));
    }
    assert forall|p: nat, q: u64| !#[trigger] s.holds_out(p, q) by {
        assert(!s.passes.dom().contains(p));
    }
    assert forall|q: u64| #[trigger] post.pending(q) <==> s.pending(q) by {
        assert(numbers(post.queue, q) <==> numbers(s.queue, q));
    }
    assert forall|p: nat| !#[trigger] post.passes.contains_key(p) by {
        assert(!s.passes.dom().contains(p));
    }
}

/// Every step keeps retirements in one place each, and moves them as stated.
proof fn lemma_step_places<F>(s: System<F>, ev: Event<F>)
    requires
        s.places_inv(),
        s.enabled(ev),
        forall|p: nat| #[trigger] s.passes.contains_key(p) ==> p < s.fresh,
    ensures
        s.after(ev).places_inv(),
        moves(s, ev, s.after(ev)),
{
    let post = s.after(ev);
    match ev {
        Event::Enqueue { retiring, run } => lemma_enqueue_places(s, retiring, run),
        Event::Extract { pass, limit } => lemma_extract_places(s, pass, limit),
        Event::RunOne { pass } => lemma_run_places(s, pass),
        Event::Requeue { pass } => lemma_requeue_places(s, pass),
        Event::Renew => lemma_renew_places(s),
        _ => {
            lemma_nothing_moves(s, post);
        },
    }
}

/// What ran is exactly what was queued and is not pending any more.
pub open spec fn accounted<F>(s: System<F>, done: Set<u64>) -> bool {
    &&& forall|q: u64| #[trigger] s.pending(q) == (q < s.next_sequence && !done.contains(q))
    &&& forall|q: u64| #[trigger] done.contains(q) ==> q < s.next_sequence
}

/// In every reachable state: retirements are in one place each, those that ran
/// are in none, and those that are in none ran.
pub proof fn lemma_reached_places<F>(s: System<F>, events: Seq<Event<F>>)
    requires
        s.initial(),
        possible(s, events),
    ensures
        reached(s, events).places_inv(),
        accounted(reached(s, events), ran(s, events)),
    decreases events.len(),
{
    if events.len() == 0 {
        assert forall|p: nat, q: u64| !#[trigger] s.holds_out(p, q) by {}
    } else {
        let front = events.drop_last();
        let mid = reached(s, front);
        let ev = events.last();
        let post = reached(s, events);
        lemma_reached_places(s, front);
        crate::safety::lemma_reached_inv(s, front);
        lemma_step_places(mid, ev);
        let before = ran(s, front);
        let done = ran(s, events);
        assert(accounted(mid, before));
        assert(mid.next_sequence <= post.next_sequence);
        assert forall|q: u64| #[trigger] done.contains(q) implies q < post.next_sequence by {
            if !before.contains(q) {
                let batch = in_hand(mid.passes[ev->RunOne_pass]);
                assert(batch[0].sequence < mid.next_sequence);
            }
        }
        assert forall|q: u64| #[trigger] post.pending(q) == (q < post.next_sequence
            && !done.contains(q)) by {
            assert(mid.pending(q) == (q < mid.next_sequence && !before.contains(q)));
            match ev {
                Event::RunOne { pass } => {
                    let batch = in_hand(mid.passes[pass]);
                    assert(batch[0].sequence < mid.next_sequence);
                    assert(post.pending(q) <==> mid.pending(q) && q != batch[0].sequence);
                },
                Event::Enqueue { retiring, run } => {
                    assert(post.pending(q) <==> mid.pending(q) || q == mid.next_sequence);
                },
                _ => {
                    assert(post.pending(q) <==> mid.pending(q));
                },
            }
        }
    }
}

/// No callback runs twice: whenever a reclaimer is about to run one, no reclaimer
/// has run it before, in any interleaving and however often it was requeued.
pub proof fn law_no_retirement_runs_twice<F>(
    start: System<F>,
    events: Seq<Event<F>>,
    pass: nat,
)
    requires
        start.initial(),
        possible(start, events),
        reached(start, events).enabled(Event::RunOne { pass }),
    ensures
        !ran(start, events).contains(
            reached(start, events).passes[pass]->batch[0].sequence,
        ),
{
    let s = reached(start, events);
    lemma_reached_places(start, events);
    let batch = in_hand(s.passes[pass]);
    assert(numbers(batch, batch[0].sequence));
    assert(s.holds_out(pass, batch[0].sequence));
    assert(s.pending(batch[0].sequence));
}

/// No retirement is lost: each one that was queued is still queued, in the hands
/// of a reclaimer that has yet to run it, or was run.
pub proof fn law_no_retirement_is_lost<F>(start: System<F>, events: Seq<Event<F>>, sequence: u64)
    requires
        start.initial(),
        possible(start, events),
        sequence < reached(start, events).next_sequence,
    ensures
        reached(start, events).pending(sequence) || ran(start, events).contains(sequence),
{
    lemma_reached_places(start, events);
}

} // verus!
