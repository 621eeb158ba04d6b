//! Steps that nobody interrupts are the executable operations: pinning,
//! releasing, retiring, renewing, and a reclamation pass.
use vstd::prelude::*;

use crate::accounting::lemma_reached_places;
use crate::domain::Domain;
use crate::garbage::{
    aged, distinctly_numbered, left_over, numbered_below, stamped_within, taken_out, Retirement,
};
use crate::pins::{
    law_pin_word_round_trip, next_entry, pin_word, MAX_EPOCH, PINS_PER_THREAD, WILDCARD,
};
use crate::protocol::{readers_of, wildcards_in, words_per_slot, Event, Owner, Pass, System};
use crate::registry::{claimed_mask, holds, released_mask, SlotView, MAX_THREADS};
use crate::safety::{lemma_reached_inv, possible, reached};
use crate::scan::{
    any_wildcard, lemma_oldest_in_range, lemma_oldest_pinned_range, oldest_in, oldest_pinned, Scan,
};

verus! {

/// The state after a pass reads `n` words in a row.
pub open spec fn after_reads<F>(s: System<F>, pass: nat, n: int) -> System<F>
    decreases n,
{
    if n <= 0 {
        s
    } else {
        after_reads(s, pass, n - 1).after(Event::ReadWord { pass })
    }
}

/// The state with one pass replaced.
pub open spec fn with_pass<F>(s: System<F>, pass: nat, p: Pass<F>) -> System<F> {
    System { passes: s.passes.insert(pass, p), ..s }
}

/// Reading a prefix of a slot's words.
proof fn lemma_read_entries<F>(
    s: System<F>,
    pass: nat,
    scan: Scan,
    leased: int,
    i: int,
    n: int,
)
    requires
        s.registry.wf(),
        s.passes.contains_key(pass),
        s.passes[pass] == (Pass::<F>::Reading { scan, leased, pos: i * words_per_slot() }),
        0 <= i < leased <= s.registry.slots.len(),
        s.registry.slots[i].wildcard == 0,
        0 <= n <= PINS_PER_THREAD,
        scan.wf(),
    ensures
        after_reads(s, pass, n + 1) == with_pass(
            s,
            pass,
            Pass::Reading {
                scan: scan.bounded(
                    oldest_in(
                        s.registry.slots[i].pins.take(n),
                        scan.id,
                        scan.min_pinned as int,
                    ),
                ),
                leased,
                pos: i * words_per_slot() + n + 1,
            },
        ),
    decreases n,
{
    let words = s.registry.slots[i].pins;
    assert(s.registry.slots[i].shaped());
    if n == 0 {
        assert(after_reads(s, pass, 0) == s);
        assert((i * words_per_slot()) / words_per_slot() == i);
        assert((i * words_per_slot()) % words_per_slot() == 0);
        assert(words.take(0) =~= Seq::<u64>::empty());
        assert(scan.bounded(scan.min_pinned as int) == scan);
    } else {
        lemma_read_entries(s, pass, scan, leased, i, n - 1);
        let mid = after_reads(s, pass, n);
        let pos = i * words_per_slot() + n;
        assert(pos / words_per_slot() == i);
        assert(pos % words_per_slot() == n);
        let word = words[n - 1];
        assert(words.take(n).drop_last() =~= words.take(n - 1));
        assert(words.take(n).last() == word);
        assert(seq![word].drop_last() =~= Seq::<u64>::empty());
        assert(seq![word].last() == word);
        reveal_with_fuel(oldest_in, 2);
        lemma_oldest_in_range(words.take(n - 1), scan.id, scan.min_pinned as int);
        let post = mid.after(Event::ReadWord { pass });
        assert(post.passes =~= with_pass(s, pass, post.passes[pass]).passes);
    }
}

proof fn lemma_reads_add<F>(s: System<F>, pass: nat, m: int, n: int)
    requires
        0 <= m,
        0 <= n,
    ensures
        after_reads(s, pass, m + n) == after_reads(after_reads(s, pass, m), pass, n),
    decreases n,
{
    if n > 0 {
        lemma_reads_add(s, pass, m, n - 1);
    }
}

/// Reading whole slots, none of which publishes a wildcard.
proof fn lemma_read_slots<F>(s: System<F>, pass: nat, scan: Scan, leased: int, i: int)
    requires
        s.registry.wf(),
        s.passes.contains_key(pass),
        s.passes[pass] == (Pass::<F>::Reading { scan, leased, pos: 0 }),
        0 <= i <= leased <= s.registry.slots.len(),
        forall|k: int| 0 <= k < i ==> (#[trigger] s.registry.slots[k]).wildcard == 0,
        scan.wf(),
    ensures
        after_reads(s, pass, i * words_per_slot()) == with_pass(
            s,
            pass,
            Pass::Reading {
                scan: scan.bounded(
                    oldest_pinned(s.registry.slots.take(i), scan.id, scan.min_pinned as int),
                ),
                leased,
                pos: i * words_per_slot(),
            },
        ),
    decreases i,
{
    let slots = s.registry.slots;
    if i == 0 {
        assert(slots.take(0) =~= Seq::<SlotView>::empty());
        assert(scan.bounded(scan.min_pinned as int) == scan);
        assert(with_pass(s, pass, s.passes[pass]).passes =~= s.passes);
    } else {
        lemma_read_slots(s, pass, scan, leased, i - 1);
        let mid = after_reads(s, pass, (i - 1) * words_per_slot());
        let front = slots.take(i - 1);
        let seen = scan.bounded(oldest_pinned(front, scan.id, scan.min_pinned as int));
        lemma_oldest_pinned_range(front, scan.id, scan.min_pinned as int);
        lemma_read_entries(mid, pass, seen, leased, i - 1, PINS_PER_THREAD as int);
        lemma_reads_add(s, pass, (i - 1) * words_per_slot(), words_per_slot());
        assert(slots[i - 1].shaped());
        assert(slots[i - 1].pins.take(PINS_PER_THREAD as int) =~= slots[i - 1].pins);
        assert(slots.take(i).drop_last() =~= front);
        assert(slots.take(i).last() == slots[i - 1]);
        let post = after_reads(s, pass, i * words_per_slot());
        assert(post.passes =~= with_pass(s, pass, post.passes[pass]).passes);
    }
}

/// The steps of a pass, taken without interruption, are the executable operation:
/// what they end up allowing is exactly the scan that `Domain::scan` returns, and
/// extracting takes out and leaves exactly what `Domain::reclaim` does.
pub proof fn law_an_uninterrupted_pass_is_one_scan<F>(d: Domain<F>, s: System<F>, limit: int)
    requires
        d.wf(),
        s.registry.wf(),
        s.id == d.id,
        s.epoch == d.epoch,
        s.queue == d.garbage.entries@,
        s.next_sequence == d.garbage.next_sequence,
        s.queue.len() > 0,
        limit > 0,
        !any_wildcard(s.registry.slots.take(s.registry.active())),
    ensures
        ({
            let pass = s.fresh;
            let begun = s.after(Event::BeginPass).after(Event::SampleEpoch { pass }).after(
                Event::SampleBound { pass },
            );
            let leased = s.registry.active();
            let read = after_reads(begun, pass, leased * words_per_slot());
            let scan = d.planned_scan(s.registry, limit)->0;
            let extracted = read.after(Event::Extract { pass, limit });
            &&& d.planned_scan(s.registry, limit) is Some
            &&& read.passes[pass] == (Pass::<F>::Reading {
                scan,
                leased,
                pos: leased * words_per_slot(),
            })
            &&& read.enabled(Event::Extract { pass, limit })
            &&& extracted.queue == left_over(d.garbage.entries@, scan, limit)
            &&& extracted.passes[pass] == (Pass::<F>::Running {
                now: d.epoch,
                batch: taken_out(d.garbage.entries@, scan, limit),
            })
        }),
{
    let pass = s.fresh;
    let begun = s.after(Event::BeginPass).after(Event::SampleEpoch { pass }).after(
        Event::SampleBound { pass },
    );
    let leased = s.registry.active();
    let first = Scan {
        id: s.id,
        cutoff: s.next_sequence,
        now: s.epoch,
        min_pinned: (s.epoch + 1) as u64,
    };
    assert(begun.passes[pass] == (Pass::<F>::Reading { scan: first, leased, pos: 0 }));
    let slots = s.registry.slots.take(leased);
    assert forall|k: int| 0 <= k < leased implies (#[trigger] begun.registry.slots[k]).wildcard
        == 0 by {
        assert(slots[k].wildcard == 0);
    }
    lemma_read_slots(begun, pass, first, leased, leased);
}

/// Sampling an epoch and publishing it at once is what `Domain::pin` and
/// `Domain::pin_with` do to the registry and to the occupancy mask.
pub proof fn law_an_uninterrupted_pin_is_one_pin<F>(d: Domain<F>, s: System<F>, owner: nat)
    requires
        s.inv(),
        s.id == d.id,
        s.epoch == d.epoch,
        s.owners.contains_key(owner),
        s.registry.slots[s.owners[owner].slot].wildcard < u64::MAX,
    ensures
        ({
            let sample = Event::<F>::SamplePin { owner, domain: d.id, epoch: d.epoch };
            let publish = Event::<F>::Publish { pinning: s.fresh };
            let post = s.after(sample).after(publish);
            let o = s.owners[owner];
            let entry = next_entry(o.shared, o.mask);
            let word = pin_word(d.epoch as int, d.id as int) as u64;
            &&& s.enabled(sample)
            &&& s.after(sample).enabled(publish)
            &&& post.registry == s.registry.pinned(o.slot, entry, word)
            &&& post.owners[owner].mask == claimed_mask(o.mask, entry)
            &&& post.readers[s.fresh + 1].slot == o.slot
            &&& post.readers[s.fresh + 1].entry == entry
            &&& post.queue == s.queue
        }),
{
}

/// Withdrawing a pin is what releasing a guard does to the registry and to the
/// occupancy masks: the guard's own registration has the entry back; once that
/// registration is gone, the thread may have no cache or that of a later
/// registration, and nobody's occupancy changes.
pub proof fn law_an_unpin_is_one_release<F>(s: System<F>, reader: nat, local: Option<nat>)
    requires
        s.inv(),
        s.readers.contains_key(reader),
        s.readers[reader].hold is Guarded,
        local matches Some(o) ==> s.owners.contains_key(o),
        s.owners.contains_key(s.readers[reader].owner) ==> local == Some(s.readers[reader].owner),
    ensures
        ({
            let r = s.readers[reader];
            let unpin = Event::<F>::Unpin { reader, local };
            let post = s.after(unpin);
            &&& s.enabled(unpin)
            &&& holds(s.registry.slots[r.slot], r.entry)
            &&& post.registry == s.registry.unpinned_at(r.slot, r.entry)
            &&& post.queue == s.queue
            &&& s.owners.contains_key(r.owner) ==> {
                let o = s.owners[r.owner];
                &&& o.slot == r.slot
                &&& post.owners == s.owners.insert(
                    r.owner,
                    Owner { mask: released_mask(o.mask, r.entry), ..o },
                )
            }
            &&& !s.owners.contains_key(r.owner) ==> {
                &&& post.owners == s.owners
                &&& local matches Some(o) ==> r.entry == WILDCARD || s.owners[o].slot != r.slot
            }
        }),
{
    let r = s.readers[reader];
    let post = s.after(Event::<F>::Unpin { reader, local });
    if r.entry == WILDCARD {
        assert(wildcards_in(s.readers, r.slot).contains(reader));
        assert(s.registry.slots[r.slot].wildcard == wildcards_in(s.readers, r.slot).len());
    } else {
        law_pin_word_round_trip(
            r.epoch,
            r.domain,
            s.registry.slots[r.slot].pins[r.entry as int],
        );
    }
    if s.owners.contains_key(r.owner) {
        let o = s.owners[r.owner];
        assert(post.owners =~= s.owners.insert(
            r.owner,
            Owner { mask: released_mask(o.mask, r.entry), ..o },
        ));
    } else if let Some(o) = local {
        assert(s.registry.usable(s.owners[o].slot, s.owners[o].shared));
    }
}

/// Forgetting a guard releases nothing: its pin stays where it is, its entry stays
/// taken, and it goes on protecting whatever it protected.
pub proof fn law_a_forgotten_guard_keeps_its_pin<F>(
    s: System<F>,
    reader: nat,
    sequence: u64,
    k: nat,
)
    requires
        s.enabled(Event::Forget { reader }),
    ensures
        ({
            let post = s.after(Event::Forget { reader });
            &&& post.registry == s.registry
            &&& post.owners == s.owners
            &&& post.readers.contains_key(reader)
            &&& post.still_read(sequence, k) == s.still_read(sequence, k)
        }),
{
}

/// Renewing is what `Domain::renew_epoch` does. It needs no guard of the domain to
/// be live, but forgotten ones do not stand in its way, and it neither erases a
/// registration nor withdraws their pins.
pub proof fn law_a_renewal_is_one_renewal<F>(d: Domain<F>, s: System<F>)
    requires
        s.inv(),
        s.queue == d.garbage.entries@,
        s.unguarded(),
        forall|p: nat|
            s.pinning.contains_key(p) ==> (#[trigger] s.pinning[p]).domain != s.id,
        s.retiring.dom() == Set::<nat>::empty(),
        s.passes.dom() == Set::<nat>::empty(),
    ensures
        ({
            let post = s.after(Event::Renew);
            &&& s.enabled(Event::Renew)
            &&& post.epoch == 1
            &&& post.queue == aged(d.garbage.entries@)
            &&& post.next_sequence == s.next_sequence
            &&& post.registry == s.registry
            &&& post.owners == s.owners
            &&& post.readers.dom() == s.readers.dom()
        }),
{
    assert(s.after(Event::Renew).readers.dom() =~= s.readers.dom());
}

/// Sampling an epoch and queueing at once is what `Domain::retire` does.
pub proof fn law_an_uninterrupted_retirement_is_one_retire<F>(d: Domain<F>, s: System<F>, run: F)
    requires
        s.epoch == d.epoch,
        s.queue == d.garbage.entries@,
        s.next_sequence == d.garbage.next_sequence,
        s.next_sequence < u64::MAX,
    ensures
        ({
            let queue = Event::Enqueue { retiring: s.fresh, run };
            let post = s.after(Event::BeginRetire).after(queue);
            &&& s.after(Event::BeginRetire).enabled(queue)
            &&& post.next_sequence == d.garbage.next_sequence + 1
            &&& post.queue == d.garbage.entries@.push(
                Retirement { sequence: d.garbage.next_sequence, epoch: d.epoch, run },
            )
            &&& post.older[s.next_sequence] == readers_of(s.readers, s.id)
        }),
{
}

/// In every interleaving, each executable step finds what it asks for: the
/// registry and the queue are well formed, epochs fit in a pin, scans are sound,
/// registrations own their slots and guards their pins.
pub proof fn law_interleaved_steps_meet_their_preconditions<F>(
    start: System<F>,
    events: Seq<Event<F>>,
)
    requires
        start.initial(),
        possible(start, events),
    ensures
        ({
            let s = reached(start, events);
            &&& s.registry.wf()
            &&& 1 <= s.epoch <= MAX_EPOCH
            &&& numbered_below(s.queue, s.next_sequence)
            &&& distinctly_numbered(s.queue)
            &&& stamped_within(s.queue, s.epoch)
            &&& forall|o: nat| #[trigger]
                s.owners.contains_key(o) ==> s.registry.usable(s.owners[o].slot, s.owners[o].shared)
            &&& forall|p: nat| #[trigger]
                s.pinning.contains_key(p) ==> s.pinning[p].epoch <= MAX_EPOCH
            &&& forall|k: nat| #[trigger]
                s.readers.contains_key(k) ==> 0 <= s.readers[k].slot < MAX_THREADS && holds(
                    s.registry.slots[s.readers[k].slot],
                    s.readers[k].entry,
                )
            &&& forall|p: nat| #[trigger]
                s.passes.contains_key(p) ==> match s.passes[p] {
                    Pass::Sampled { scan } => scan.wf(),
                    Pass::Reading { scan, leased, pos } => scan.wf(),
                    _ => true,
                }
        }),
{
    let s = reached(start, events);
    lemma_reached_inv(start, events);
    lemma_reached_places(start, events);
    assert forall|k: nat| #[trigger] s.readers.contains_key(k) implies holds(
        s.registry.slots[s.readers[k].slot],
        s.readers[k].entry,
    ) by {
        let r = s.readers[k];
        if r.entry == WILDCARD {
            assert(wildcards_in(s.readers, r.slot).contains(k));
            assert(s.registry.slots[r.slot].wildcard == wildcards_in(s.readers, r.slot).len());
        } else {
            law_pin_word_round_trip(
                r.epoch,
                r.domain,
                s.registry.slots[r.slot].pins[r.entry as int],
            );
        }
    }
    assert forall|p: nat| #[trigger] s.passes.contains_key(p) implies s.pass_inv(s.passes[p]) by {}
}

/// Ending a domain is safe: once none of its guards is live, nobody that predates
/// any queued retirement holds a live guard.
pub proof fn law_disposal_needs_no_scan<F>(s: System<F>, i: int, reader: nat)
    requires
        s.unguarded(),
        0 <= i < s.queue.len(),
    ensures
        s.still_read(s.queue[i].sequence, reader) ==> s.readers[reader].hold is Forgotten,
{
}

} // verus!
