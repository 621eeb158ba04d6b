//! What holds of domains and the registry as a whole.
use vstd::prelude::*;

use crate::domain::{next_epoch, Domain};
use crate::garbage::{
    aged, covered, covers, inspected, left_over, lemma_inspected, rotated, taken_out, withheld,
    Retirement,
};
use crate::pins::{
    lemma_mask_with, mask_with, next_entry, occupied, word_epoch, word_matches, MAX_EPOCH,
    NO_DOMAIN, PINS_PER_THREAD, WILDCARD,
};
use crate::registry::{
    lemma_recovery_index, RegistryView, SlotView, MAX_THREADS, OVERFLOW_SLOT,
};
use crate::scan::{any_wildcard, least, oldest_in, oldest_pinned, Scan};
use crate::stats::{available_count, lemma_issued_partition, still_pinned};

verus! {

/// A pin that a domain sees when it looks at these slots.
pub open spec fn sees(slots: Seq<SlotView>, id: u64, i: int, e: int) -> bool {
    &&& 0 <= i < slots.len()
    &&& 0 <= e < slots[i].pins.len()
    &&& word_matches(slots[i].pins[e], id)
}

proof fn lemma_oldest_in(words: Seq<u64>, id: u64, bound: int)
    ensures
        oldest_in(words, id, bound) <= bound,
        forall|e: int|
            0 <= e < words.len() && word_matches(#[trigger] words[e], id) ==> oldest_in(
                words,
                id,
                bound,
            ) <= word_epoch(words[e]),
        oldest_in(words, id, bound) == bound || exists|e: int|
            0 <= e < words.len() && word_matches(#[trigger] words[e], id) && oldest_in(
                words,
                id,
                bound,
            ) == word_epoch(words[e]),
    decreases words.len(),
{
    if words.len() > 0 {
        let front = words.drop_last();
        lemma_oldest_in(front, id, bound);
        assert forall|e: int| 0 <= e < words.len() && word_matches(#[trigger] words[e], id) implies
            oldest_in(words, id, bound) <= word_epoch(words[e]) by {
            if e < front.len() {
                assert(word_matches(front[e], id));
            }
        }
        let m = oldest_in(words, id, bound);
        if m == oldest_in(front, id, bound) {
            if m != bound {
                let e = choose|e: int|
                    0 <= e < front.len() && word_matches(#[trigger] front[e], id) && m
                        == word_epoch(front[e]);
                assert(word_matches(words[e], id));
            }
        } else {
            assert(word_matches(words[words.len() - 1], id));
        }
    }
}

/// The bound a scan ends with is the least of the epoch after the one it sampled
/// and the epochs of all the pins it sees.
pub proof fn law_scan_finds_the_oldest_reader(slots: Seq<SlotView>, id: u64, bound: int)
    ensures
        oldest_pinned(slots, id, bound) <= bound,
        forall|i: int, e: int| #[trigger]
            sees(slots, id, i, e) ==> oldest_pinned(slots, id, bound) <= word_epoch(
                slots[i].pins[e],
            ),
        oldest_pinned(slots, id, bound) == bound || exists|i: int, e: int| #[trigger]
            sees(slots, id, i, e) && oldest_pinned(slots, id, bound) == word_epoch(
                slots[i].pins[e],
            ),
    decreases slots.len(),
{
    if slots.len() > 0 {
        let front = slots.drop_last();
        let before = oldest_pinned(front, id, bound);
        law_scan_finds_the_oldest_reader(front, id, bound);
        lemma_oldest_in(slots.last().pins, id, before);
        let m = oldest_pinned(slots, id, bound);
        assert forall|i: int, e: int| #[trigger] sees(slots, id, i, e) implies m <= word_epoch(
            slots[i].pins[e],
        ) by {
            if i < front.len() {
                assert(sees(front, id, i, e));
            } else {
                assert(slots.last().pins[e] == slots[i].pins[e]);
            }
        }
        if m == before {
            if m != bound {
                let (i, e) = choose|i: int, e: int| #[trigger]
                    sees(front, id, i, e) && m == word_epoch(front[i].pins[e]);
                assert(sees(slots, id, i, e));
            }
        } else {
            let e = choose|e: int|
                0 <= e < slots.last().pins.len() && word_matches(
                    #[trigger] slots.last().pins[e],
                    id,
                ) && m == word_epoch(slots.last().pins[e]);
            assert(sees(slots, id, slots.len() - 1, e));
        }
    }
}

/// Readers in strictly later epochs do not delay older retirements.
///
/// If nobody is pinned in every domain, and every pin this domain has to respect
/// was made in a later epoch than a queued retirement was stamped with, then a
/// pass may run that retirement.
pub proof fn law_later_readers_do_not_delay<F>(d: Domain<F>, r: RegistryView, limit: int, i: int)
    requires
        d.wf(),
        r.wf(),
        limit > 0,
        0 <= i < d.garbage.entries@.len(),
        !any_wildcard(r.slots.take(r.active())),
        forall|s: int, e: int| #[trigger]
            sees(r.slots.take(r.active()), d.id, s, e) ==> word_epoch(
                r.slots.take(r.active())[s].pins[e],
            ) > d.garbage.entries@[i].epoch,
    ensures
        d.planned_scan(r, limit) is Some,
        covers(d.planned_scan(r, limit)->0, d.garbage.entries@[i]),
{
    let slots = r.slots.take(r.active());
    law_scan_finds_the_oldest_reader(slots, d.id, d.epoch + 1);
    crate::scan::lemma_oldest_pinned_range(slots, d.id, d.epoch + 1);
}

/// A reader delays every retirement that was stamped with its own epoch or a
/// later one, and so every retirement made while it is pinned.
pub proof fn law_a_reader_delays_its_own_epoch<F>(
    d: Domain<F>,
    r: RegistryView,
    limit: int,
    i: int,
    s: int,
    e: int,
)
    requires
        d.wf(),
        r.wf(),
        0 <= i < d.garbage.entries@.len(),
        sees(r.slots.take(r.active()), d.id, s, e),
        word_epoch(r.slots.take(r.active())[s].pins[e]) <= d.garbage.entries@[i].epoch,
    ensures
        d.planned_scan(r, limit) matches Some(scan) ==> !covers(scan, d.garbage.entries@[i]),
{
    let slots = r.slots.take(r.active());
    law_scan_finds_the_oldest_reader(slots, d.id, d.epoch + 1);
    crate::scan::lemma_oldest_pinned_range(slots, d.id, d.epoch + 1);
}

/// A wildcard pin delays every domain.
pub proof fn law_wildcards_delay_every_domain<F>(d: Domain<F>, r: RegistryView, limit: int, s: int)
    requires
        r.wf(),
        0 <= s < r.active(),
        r.slots[s].wildcard != 0,
    ensures
        d.planned_scan(r, limit) is None,
{
    let slots = r.slots.take(r.active());
    assert(slots[s].wildcard != 0);
}

/// Without a reader, one pass with room for it runs everything that is queued,
/// in the order it was queued.
pub proof fn law_an_idle_domain_drains_at_once<F>(d: Domain<F>, r: RegistryView, limit: int)
    requires
        d.wf(),
        r.wf(),
        0 < d.garbage.entries@.len() <= limit,
        !any_wildcard(r.slots.take(r.active())),
        forall|s: int, e: int| !#[trigger] sees(r.slots.take(r.active()), d.id, s, e),
    ensures
        d.planned_scan(r, limit) is Some,
        taken_out(d.garbage.entries@, d.planned_scan(r, limit)->0, limit) == d.garbage.entries@,
        left_over(d.garbage.entries@, d.planned_scan(r, limit)->0, limit).len() == 0,
{
    let queue = d.garbage.entries@;
    let scan = d.planned_scan(r, limit)->0;
    law_later_readers_do_not_delay(d, r, limit, 0);
    assert forall|i: int| 0 <= i < queue.len() implies covers(scan, #[trigger] queue[i]) by {
        law_later_readers_do_not_delay(d, r, limit, i);
    }
    lemma_all_covered(queue, scan, limit);
}

proof fn lemma_all_covered<F>(queue: Seq<Retirement<F>>, scan: Scan, limit: int)
    requires
        queue.len() <= limit,
        forall|i: int| 0 <= i < queue.len() ==> covers(scan, #[trigger] queue[i]),
    ensures
        inspected(queue, scan, limit) == queue.len(),
        taken_out(queue, scan, limit) == queue,
        left_over(queue, scan, limit).len() == 0,
{
    lemma_inspects_all(queue, scan, limit);
    assert(queue.take(queue.len() as int) =~= queue);
    lemma_filter_all(queue, covered(scan));
    queue.lemma_all_neg_filter_empty(withheld(scan));
}

proof fn lemma_inspects_all<F>(queue: Seq<Retirement<F>>, scan: Scan, limit: int)
    requires
        queue.len() <= limit,
        forall|i: int| 0 <= i < queue.len() ==> covers(scan, #[trigger] queue[i]),
    ensures
        inspected(queue, scan, limit) == queue.len(),
    decreases queue.len(),
{
    if queue.len() > 0 {
        let rest = queue.skip(1);
        assert forall|i: int| 0 <= i < rest.len() implies covers(scan, #[trigger] rest[i]) by {
            assert(rest[i] == queue[i + 1]);
        }
        lemma_inspects_all(rest, scan, limit - 1);
    }
}

proof fn lemma_filter_all<A>(s: Seq<A>, p: spec_fn(A) -> bool)
    requires
        forall|i: int| 0 <= i < s.len() ==> p(#[trigger] s[i]),
    ensures
        s.filter(p) == s,
    decreases s.len(),
{
    reveal(Seq::filter);
    if s.len() > 0 {
        lemma_filter_all(s.drop_last(), p);
        assert(s.drop_last().push(s.last()) =~= s);
    } else {
        assert(s.filter(p) =~= s);
    }
}

/// A bounded pass runs exactly as many callbacks as it may: the limit, or all
/// that are eligible if those are fewer.
pub proof fn law_a_bounded_pass_uses_its_limit<F>(
    queue: Seq<Retirement<F>>,
    scan: Scan,
    limit: int,
)
    requires
        limit >= 0,
    ensures
        taken_out(queue, scan, limit).len() == least(
            limit,
            queue.filter(covered(scan)).len() as int,
        ),
    decreases queue.len(),
{
    let p = covered::<F>(scan);
    if queue.len() == 0 || limit == 0 {
        assert(queue.take(0).filter(p).len() == 0) by {
            reveal(Seq::filter);
        }
        assert(queue.len() == 0 ==> queue.filter(p).len() == 0) by {
            reveal(Seq::filter);
        }
    } else {
        let rest = queue.skip(1);
        let first = queue.take(1);
        let left = if covers(scan, queue[0]) {
            limit - 1
        } else {
            limit
        };
        let k = inspected(rest, scan, left);
        law_a_bounded_pass_uses_its_limit(rest, scan, left);
        lemma_inspected(rest, scan, left);
        assert(queue =~= first + rest);
        assert(queue.take(1 + k) =~= first + rest.take(k));
        Seq::filter_distributes_over_add(first, rest, p);
        Seq::filter_distributes_over_add(first, rest.take(k), p);
        assert(first.filter(p).len() == (if covers(scan, queue[0]) {
            1nat
        } else {
            0nat
        })) by {
            reveal(Seq::filter);
            assert(first.drop_last() =~= Seq::<Retirement<F>>::empty());
            assert(first.last() == queue[0]);
            assert(first.drop_last().filter(p).len() == 0);
        }
    }
}

/// Nothing is lost and nothing runs twice: what a pass takes out and what it
/// leaves are together exactly what was queued, with unchanged stamps.
pub proof fn law_extraction_conserves_retirements<F>(
    queue: Seq<Retirement<F>>,
    scan: Scan,
    limit: int,
)
    ensures
        taken_out(queue, scan, limit).to_multiset().add(
            left_over(queue, scan, limit).to_multiset(),
        ) == queue.to_multiset(),
        taken_out(queue, scan, limit).len() + left_over(queue, scan, limit).len() == queue.len(),
{
    lemma_inspected(queue, scan, limit);
    law_a_stopped_pass_leaves_the_rest_queued(queue, scan, inspected(queue, scan, limit));
}

proof fn lemma_split_by_filter<F>(s: Seq<Retirement<F>>, scan: Scan)
    ensures
        s.filter(covered(scan)).to_multiset().add(s.filter(withheld(scan)).to_multiset())
            =~= s.to_multiset(),
        s.filter(covered(scan)).len() + s.filter(withheld(scan)).len() == s.len(),
    decreases s.len(),
{
    broadcast use vstd::seq_lib::group_to_multiset_ensures;

    reveal(Seq::filter);
    if s.len() > 0 {
        lemma_split_by_filter(s.drop_last(), scan);
        assert(s.drop_last().push(s.last()) =~= s);
        if covers(scan, s.last()) {
            assert(s.filter(covered(scan)) =~= s.drop_last().filter(covered(scan)).push(s.last()));
            assert(s.filter(withheld(scan)) =~= s.drop_last().filter(withheld(scan)));
        } else {
            assert(s.filter(withheld(scan)) =~= s.drop_last().filter(withheld(scan)).push(s.last()));
            assert(s.filter(covered(scan)) =~= s.drop_last().filter(covered(scan)));
        }
    } else {
        assert(s.filter(covered(scan)) =~= s);
        assert(s.filter(withheld(scan)) =~= s);
    }
}

/// A pass that stops anywhere, such as at a callback that unwinds, has lost
/// nothing: the callbacks it invoked and those it leaves queued are together
/// exactly what was queued, with unchanged stamps.
pub proof fn law_a_stopped_pass_leaves_the_rest_queued<F>(
    queue: Seq<Retirement<F>>,
    scan: Scan,
    k: int,
)
    requires
        0 <= k <= queue.len(),
    ensures
        queue.take(k).filter(covered(scan)).to_multiset().add(
            rotated(queue, scan, k).to_multiset(),
        ) == queue.to_multiset(),
        queue.take(k).filter(covered(scan)).len() + rotated(queue, scan, k).len() == queue.len(),
{
    broadcast use vstd::seq_lib::group_to_multiset_ensures;

    let head = queue.take(k);
    let tail = queue.skip(k);
    lemma_split_by_filter(head, scan);
    assert(queue =~= head + tail);
    vstd::seq_lib::lemma_multiset_commutative(head, tail);
    vstd::seq_lib::lemma_multiset_commutative(tail, head.filter(withheld(scan)));
    assert(head.filter(covered(scan)).to_multiset().add(rotated(queue, scan, k).to_multiset())
        =~= queue.to_multiset());
}

/// If a callback of an extracted batch unwinds, requeueing puts the callbacks after
/// it back with their original stamps: with those that ran and the one that
/// unwound, they are still exactly what was queued.
pub proof fn law_unwinding_requeues_the_rest<F>(
    queue: Seq<Retirement<F>>,
    scan: Scan,
    limit: int,
    invoked: int,
)
    requires
        0 <= invoked <= taken_out(queue, scan, limit).len(),
    ensures
        ({
            let batch = taken_out(queue, scan, limit);
            let requeued = left_over(queue, scan, limit) + batch.skip(invoked);
            batch.take(invoked).to_multiset().add(requeued.to_multiset()) == queue.to_multiset()
        }),
{
    broadcast use vstd::seq_lib::group_to_multiset_ensures;

    let batch = taken_out(queue, scan, limit);
    let rest = left_over(queue, scan, limit);
    law_extraction_conserves_retirements(queue, scan, limit);
    assert(batch =~= batch.take(invoked) + batch.skip(invoked));
    vstd::seq_lib::lemma_multiset_commutative(batch.take(invoked), batch.skip(invoked));
    vstd::seq_lib::lemma_multiset_commutative(rest, batch.skip(invoked));
    assert(batch.take(invoked).to_multiset().add((rest + batch.skip(invoked)).to_multiset())
        =~= queue.to_multiset());
}

/// A retirement queued after a scan took its cutoff is not touched by that scan,
/// whatever the scan saw and whatever epoch the retirement is stamped with.
pub proof fn law_a_post_scan_retirement_waits<F>(
    d: Domain<F>,
    r: RegistryView,
    limit: int,
    late: Retirement<F>,
)
    requires
        late.sequence >= d.garbage.next_sequence,
    ensures
        d.planned_scan(r, limit) matches Some(scan) ==> !covers(scan, late),
{
}

/// Renewal makes all queued work older than every pin: whoever pins afterwards, a
/// pass that is not blocked by a wildcard may run all of it.
pub proof fn law_renewed_work_is_not_delayed<F>(
    d: Domain<F>,
    queue: Seq<Retirement<F>>,
    r: RegistryView,
    limit: int,
    i: int,
)
    requires
        d.wf(),
        r.wf(),
        limit > 0,
        d.garbage.entries@ == aged(queue),
        0 <= i < queue.len(),
        !any_wildcard(r.slots.take(r.active())),
        forall|s: int, e: int| #[trigger]
            sees(r.slots.take(r.active()), d.id, s, e) ==> word_epoch(
                r.slots.take(r.active())[s].pins[e],
            ) >= 1,
    ensures
        d.planned_scan(r, limit) is Some,
        covers(d.planned_scan(r, limit)->0, d.garbage.entries@[i]),
{
    assert(d.garbage.entries@[i].epoch == 0);
    law_later_readers_do_not_delay(d, r, limit, i);
}

/// Renewal keeps every pending retirement, its callback and its sequence number.
pub proof fn law_renewal_keeps_pending_work<F>(queue: Seq<Retirement<F>>, i: int)
    requires
        0 <= i < queue.len(),
    ensures
        aged(queue).len() == queue.len(),
        aged(queue)[i].sequence == queue[i].sequence,
        aged(queue)[i].run == queue[i].run,
        aged(queue)[i].epoch == 0,
{
}

/// Epochs never go back and never leave the range that fits in a pin. Once the
/// last epoch is reached they stay there.
pub proof fn law_epochs_saturate(now: u64)
    requires
        1 <= now <= MAX_EPOCH,
    ensures
        now <= next_epoch(now) <= MAX_EPOCH,
        now < MAX_EPOCH ==> next_epoch(now) == now + 1,
        next_epoch(MAX_EPOCH) == MAX_EPOCH,
{
}

/// Reclamation progresses although readers never stop overlapping.
///
/// One pass that is not blocked moves the epoch on. Readers that pin after it are
/// in a later epoch than everything retired before it, so once the older readers
/// have left, the next pass may run all of that.
pub proof fn law_reclamation_progresses_under_readers<F: FnOnce()>(
    d: Domain<F>,
    r: RegistryView,
    limit: int,
    post: Domain<F>,
    n: int,
    later: RegistryView,
    next_limit: int,
    i: int,
)
    requires
        d.wf(),
        d.epoch < MAX_EPOCH,
        d.planned_scan(r, limit) is Some,
        d.advanced(r, limit, post, n),
        post.wf(),
        later.wf(),
        next_limit > 0,
        !any_wildcard(later.slots.take(later.active())),
        // Whoever is pinned now pinned after the first pass.
        forall|s: int, e: int| #[trigger]
            sees(later.slots.take(later.active()), d.id, s, e) ==> word_epoch(
                later.slots.take(later.active())[s].pins[e],
            ) >= post.epoch,
        0 <= i < post.garbage.entries@.len(),
    ensures
        post.planned_scan(later, next_limit) is Some,
        covers(post.planned_scan(later, next_limit)->0, post.garbage.entries@[i]),
{
    let scan = d.planned_scan(r, limit)->0;
    crate::garbage::lemma_left_over_was_queued(d.garbage.entries@, scan, limit);
    let queue = d.garbage.entries@;
    let j = choose|j: int| 0 <= j < queue.len() && queue[j] == post.garbage.entries@[i];
    assert(queue[j].epoch <= d.epoch);
    law_later_readers_do_not_delay(post, later, next_limit, i);
}

/// At saturation a new retirement waits for every reader of the domain, however
/// late it pinned, and is delayed by no reader only if there is none.
pub proof fn law_saturated_epochs_need_a_quiet_scan<F>(
    d: Domain<F>,
    r: RegistryView,
    limit: int,
    i: int,
)
    requires
        d.wf(),
        r.wf(),
        limit > 0,
        d.epoch == MAX_EPOCH,
        0 <= i < d.garbage.entries@.len(),
        d.garbage.entries@[i].epoch == MAX_EPOCH,
        !any_wildcard(r.slots.take(r.active())),
    ensures
        d.planned_scan(r, limit) is Some,
        covers(d.planned_scan(r, limit)->0, d.garbage.entries@[i]) <==> forall|s: int, e: int|
            !#[trigger] sees(r.slots.take(r.active()), d.id, s, e),
{
    let slots = r.slots.take(r.active());
    if forall|s: int, e: int| !#[trigger] sees(slots, d.id, s, e) {
        law_later_readers_do_not_delay(d, r, limit, i);
    } else {
        let (s, e) = choose|s: int, e: int| #[trigger] sees(slots, d.id, s, e);
        let word = slots[s].pins[e];
        assert(word_epoch(word) <= MAX_EPOCH);
        law_a_reader_delays_its_own_epoch(d, r, limit, i, s, e);
    }
}

/// Domains do not delay each other: a pin of one domain in an empty entry changes
/// nothing about what a domain with a different truncated id may reclaim.
pub proof fn law_domains_do_not_delay_each_other<F>(
    d: Domain<F>,
    r: RegistryView,
    slot: int,
    entry: usize,
    word: u64,
    limit: int,
)
    requires
        r.wf(),
        d.wf(),
        0 <= slot < MAX_THREADS,
        entry < PINS_PER_THREAD,
        r.slots[slot].pins[entry as int] == NO_DOMAIN,
        !word_matches(word, d.id),
    ensures
        d.planned_scan(r.pinned(slot, entry, word), limit) == d.planned_scan(r, limit),
{
    let post = r.pinned(slot, entry, word);
    let a = r.slots.take(r.active());
    let b = post.slots.take(post.active());
    assert(r.slots[slot].shaped());
    assert(any_wildcard(a) == any_wildcard(b)) by {
        if any_wildcard(a) {
            let i = choose|i: int| 0 <= i < a.len() && (#[trigger] a[i]).wildcard != 0;
            assert(b[i].wildcard != 0);
        }
        if any_wildcard(b) {
            let i = choose|i: int| 0 <= i < b.len() && (#[trigger] b[i]).wildcard != 0;
            assert(a[i].wildcard != 0);
        }
    }
    assert forall|i: int, e: int| sees(a, d.id, i, e) == #[trigger] sees(b, d.id, i, e) && (sees(
        a,
        d.id,
        i,
        e,
    ) ==> a[i].pins[e] == b[i].pins[e]) by {
        if 0 <= i < a.len() {
            assert(r.slots[i].shaped());
        }
    }
    law_scan_finds_the_oldest_reader(a, d.id, d.epoch + 1);
    law_scan_finds_the_oldest_reader(b, d.id, d.epoch + 1);
    let m = oldest_pinned(a, d.id, d.epoch + 1);
    let n = oldest_pinned(b, d.id, d.epoch + 1);
    assert(m <= n) by {
        if n != d.epoch + 1 {
            let (i, e) = choose|i: int, e: int| #[trigger]
                sees(b, d.id, i, e) && n == word_epoch(b[i].pins[e]);
            assert(sees(a, d.id, i, e));
        }
    }
    assert(n <= m) by {
        if m != d.epoch + 1 {
            let (i, e) = choose|i: int, e: int| #[trigger]
                sees(a, d.id, i, e) && m == word_epoch(a[i].pins[e]);
            assert(sees(b, d.id, i, e));
        }
    }
}

/// Releasing a pin undoes it: the registry is what it was before.
pub proof fn law_unpin_undoes_pin(r: RegistryView, slot: int, entry: usize, word: u64)
    requires
        r.wf(),
        0 <= slot < MAX_THREADS,
        entry == WILDCARD || entry < PINS_PER_THREAD,
        entry == WILDCARD ==> r.slots[slot].wildcard < u64::MAX,
        entry != WILDCARD ==> r.slots[slot].pins[entry as int] == NO_DOMAIN,
    ensures
        r.pinned(slot, entry, word).unpinned_at(slot, entry) == r,
{
    let post = r.pinned(slot, entry, word).unpinned_at(slot, entry);
    assert(r.slots[slot].shaped());
    assert(post.slots[slot].pins =~= r.slots[slot].pins);
    assert(post.slots =~= r.slots);
}

/// Overflow pins compose: when two registrations share a slot, releasing the pin
/// of one leaves the other's in force.
pub proof fn law_overflow_pins_compose(slot: SlotView)
    requires
        slot.wildcard < u64::MAX - 1,
    ensures
        slot.wildcard_added().wildcard_added().wildcard_removed().wildcard != 0,
{
}

/// A registration nests four normal pins, through distinct entries; the next one
/// is a wildcard.
pub proof fn law_four_pins_nest_before_the_wildcard(
    first: u8,
    second: u8,
    third: u8,
    fourth: u8,
)
    requires
        first == mask_with(0, next_entry(false, 0) as int),
        second == mask_with(first, next_entry(false, first) as int),
        third == mask_with(second, next_entry(false, second) as int),
        fourth == mask_with(third, next_entry(false, third) as int),
    ensures
        next_entry(false, 0) == 0,
        next_entry(false, first) == 1,
        next_entry(false, second) == 2,
        next_entry(false, third) == 3,
        next_entry(false, fourth) == WILDCARD,
{
    assert(forall|e: u8| e < 4 ==> (#[trigger] (0u8 >> e)) & 1u8 == 0u8) by (bit_vector);
    assert((0u8 >> 0u8) & 1u8 == 0u8);
    assert((0u8 >> 1u8) & 1u8 == 0u8);
    assert((0u8 >> 2u8) & 1u8 == 0u8);
    assert((0u8 >> 3u8) & 1u8 == 0u8);
    assert(!occupied(0, 0) && !occupied(0, 1) && !occupied(0, 2) && !occupied(0, 3));
    lemma_mask_with(0, 0);
    assert(occupied(first, 0) && !occupied(first, 1) && !occupied(first, 2) && !occupied(first, 3));
    lemma_mask_with(first, 1);
    assert(occupied(second, 0) && occupied(second, 1) && !occupied(second, 2) && !occupied(
        second,
        3,
    ));
    lemma_mask_with(second, 2);
    assert(occupied(third, 0) && occupied(third, 1) && occupied(third, 2) && !occupied(third, 3));
    lemma_mask_with(third, 3);
    assert(occupied(fourth, 0) && occupied(fourth, 1) && occupied(fourth, 2) && occupied(
        fourth,
        3,
    ));
}

/// A registration that shares its slot only ever pins through the wildcard.
pub proof fn law_shared_registrations_never_use_entries(mask: u8)
    ensures
        next_entry(true, mask) == WILDCARD,
{
}

/// An acquisition is given an exclusive slot if and only if one is available.
pub proof fn law_acquisition_is_exclusive_while_capacity_lasts(r: RegistryView)
    requires
        r.wf(),
    ensures
        available_count(r) >= 0,
        r.acquire_result().1 <==> available_count(r) == 0,
{
    lemma_issued_partition(r);
    lemma_recovery_index(r, 0);
    let p = still_pinned(r.slots);
    r.quarantine.lemma_filter_len(p);
    if r.can_recover() {
        let k = r.recovery_index(0);
        lemma_one_dropped(r.quarantine, p, k);
    } else {
        lemma_filter_all(r.quarantine, p);
    }
}

proof fn lemma_one_dropped(s: Seq<usize>, p: spec_fn(usize) -> bool, k: int)
    requires
        0 <= k < s.len(),
        !p(s[k]),
    ensures
        s.filter(p).len() < s.len(),
    decreases s.len(),
{
    reveal(Seq::filter);
    if k == s.len() - 1 {
        s.drop_last().lemma_filter_len(p);
    } else {
        lemma_one_dropped(s.drop_last(), p, k);
    }
}

/// An exclusive acquisition hands out a slot that publishes nothing, is not the
/// shared one, and was owned by nobody. No slot is cleared to get there.
pub proof fn law_acquired_slots_are_idle(r: RegistryView)
    requires
        r.wf(),
        !r.acquire_result().1,
    ensures
        r.acquire_result().0 < OVERFLOW_SLOT,
        r.slots[r.acquire_result().0 as int].idle(),
        !r.leased(r.acquire_result().0 as int),
        r.acquired().slots == r.slots,
{
    lemma_recovery_index(r, 0);
    let slot = r.acquire_result().0;
    if r.free.len() > 0 {
        assert(r.free[r.free.len() - 1] == slot);
        assert(r.free.contains(slot));
    } else if r.can_recover() {
        assert(r.quarantine.contains(slot));
    }
}

/// Giving a slot back never clears what it publishes. A slot with a guard
/// outstanding goes to quarantine, and is not handed out again before the last of
/// its pins is withdrawn; an idle one is the next to be handed out.
pub proof fn law_returned_slots_are_reused_only_when_idle(r: RegistryView, idx: usize)
    requires
        r.wf(),
        r.leased(idx as int),
    ensures
        r.released(idx, false).slots == r.slots,
        r.slots[idx as int].idle() ==> r.released(idx, false).acquire_result() == (idx, false),
        !r.slots[idx as int].idle() ==> {
            &&& r.released(idx, false).quarantine.contains(idx)
            &&& r.released(idx, false).acquire_result().0 != idx
        },
{
    let post = r.released(idx, false);
    crate::registry::lemma_release_keeps_wf(r, idx);
    if !r.slots[idx as int].idle() {
        assert(post.quarantine.last() == idx);
        assert(post.quarantine.contains(idx));
        if !post.acquire_result().1 {
            law_acquired_slots_are_idle(post);
        }
    }
}

/// Once the last guard of a quarantined slot is gone, the slot is available again
/// to an acquisition that finds no returned slot and no earlier one to recover.
pub proof fn law_quarantined_slots_are_recovered(r: RegistryView, k: int)
    requires
        r.wf(),
        r.free.len() == 0,
        0 <= k < r.quarantine.len(),
        r.slots[r.quarantine[k] as int].idle(),
        forall|i: int| 0 <= i < k ==> !r.slots[(#[trigger] r.quarantine[i]) as int].idle(),
    ensures
        r.acquire_result() == (r.quarantine[k], false),
        r.acquired().quarantine == r.quarantine.remove(k),
        r.acquired().next == r.next,
{
    lemma_recovery_index(r, 0);
    let found = r.recovery_index(0);
    if found < k {
        assert(!r.slots[r.quarantine[found] as int].idle());
    }
}

/// The high-water mark only grows, does not grow on reuse, and once it is
/// saturated no exclusive slot is handed out anew.
pub proof fn law_the_high_water_mark_only_grows(r: RegistryView)
    requires
        r.wf(),
    ensures
        r.next <= r.acquired().next <= r.next + 1,
        r.free.len() > 0 || r.can_recover() ==> r.acquired().next == r.next,
        r.next == usize::MAX && r.free.len() == 0 && !r.can_recover() ==> r.acquire_result() == (
            OVERFLOW_SLOT,
            true,
        ) && r.acquired() == r,
{
}

/// Slots past the ones ever handed out publish nothing, so a scan misses no
/// reader by stopping there.
pub proof fn law_unscanned_slots_are_idle(r: RegistryView, i: int)
    requires
        r.wf(),
        r.active() <= i < MAX_THREADS,
    ensures
        r.slots[i].idle(),
{
}

} // verus!
