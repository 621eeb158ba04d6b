//! Grace-period domains.
use std::collections::VecDeque;
use vstd::prelude::*;

use crate::garbage::{
    aged, covered, inspected, left_over, lemma_left_over_is_numbered, lemma_left_over_was_queued,
    rotated, stamped_within, taken_out, withheld, Garbage, Retirement,
};
use crate::guard::{Guard, Handle, HandleGuard};
use crate::local::{participant_in, Local, OwnedLocal};
use crate::pins::{next_entry, pack_pin, pin_word, MAX_EPOCH, NO_DOMAIN, WILDCARD};
use crate::promises::{
    law_a_pass_leaves_only_what_readers_hold, law_a_pass_runs_up_to_its_limit,
    law_a_pass_spares_what_readers_hold, law_a_pin_names_its_epoch_and_domain,
};
use crate::registry::{claimed_mask, Participant, Registry, RegistryView};
use crate::scan::{any_wildcard, least, oldest_pinned, Scan};

verus! {

/// The source of domain ids.
pub struct DomainIds {
    pub next: u64,
}

impl DomainIds {
    /// Ids start at one.
    pub fn new() -> (ids: DomainIds)
        ensures
            ids.next == 1,
    {
        DomainIds { next: 1 }
    }

    /// The next id.
    pub fn take(&mut self) -> (id: u64)
        ensures
            id == old(self).next,
            final(self).next == old(self).next.wrapping_add(1),
    {
        let id: u64 = self.next;
        self.next = id.wrapping_add(1);
        id
    }
}

/// One grace period.
///
/// Normal pins are domain-specific; wildcard overflow pins conservatively delay
/// all domains. The participant registry is shared by every domain.
///
/// `F` is the callback type of its retirements.
pub struct Domain<F> {
    pub id: u64,
    /// Advanced only by reclamation, never on a read.
    pub epoch: u64,
    pub garbage: Garbage<F>,
}

/// The epoch that follows `now`. Saturates instead of wrapping, because only 40
/// epoch bits fit in a pin.
pub open spec fn next_epoch(now: u64) -> int {
    least(now + 1, MAX_EPOCH as int)
}

/// The epoch a finished pass moves on to from the one it sampled.
pub fn following_epoch(now: u64) -> (e: u64)
    requires
        now <= MAX_EPOCH,
    ensures
        e == next_epoch(now),
{
    if now < MAX_EPOCH {
        now + 1
    } else {
        MAX_EPOCH
    }
}

/// Whether some pin published for domain `id` is as old as `epoch`.
pub open spec fn within_reach(slots: Seq<Participant>, id: u64, epoch: u64) -> bool {
    exists|i: int, e: int|
        0 <= i < 256 && 0 <= e < 4 && (#[trigger] slots[i].pins@[e]) != NO_DOMAIN
            && slots[i].pins@[e] as int % 0x100_0000 == id as int % 0x100_0000
            && slots[i].pins@[e] as int / 0x100_0000 <= epoch
}

/// The registry once a thread is registered.
pub open spec fn once_registered(r: RegistryView, local: Local) -> RegistryView {
    if local.mine is Some {
        r
    } else {
        r.acquired()
    }
}

/// A thread's cache once it is registered.
pub open spec fn registered_local(r: RegistryView, local: Local) -> Local {
    if local.mine is Some {
        local
    } else {
        Local {
            mine: Some(r.acquire_result().0),
            shared: r.acquire_result().1,
            ..local
        }
    }
}

/// Runs every callback of a batch, in order. If one unwinds, the rest is dropped.
fn run_batch<F: FnOnce()>(batch: VecDeque<Retirement<F>>)
    requires
        forall|i: int| 0 <= i < batch@.len() ==> call_requires((#[trigger] batch@[i]).run, ()),
    ensures
        forall|i: int| 0 <= i < batch@.len() ==> call_ensures((#[trigger] batch@[i]).run, (), ()),
{
    let ghost all = batch@;
    let mut batch: VecDeque<Retirement<F>> = batch;
    let ghost mut ran: int = 0;
    while batch.len() > 0
        invariant
            0 <= ran <= all.len(),
            batch@ == all.skip(ran),
            forall|i: int| 0 <= i < all.len() ==> call_requires((#[trigger] all[i]).run, ()),
            forall|i: int| 0 <= i < ran ==> call_ensures((#[trigger] all[i]).run, (), ()),
        decreases batch@.len(),
    {
        let r: Retirement<F> = batch.pop_front().unwrap();
        assert(r == all[ran]);
        let run = r.run;
        run();
        proof {
            ran = ran + 1;
        }
        assert(batch@ =~= all.skip(ran));
    }
}

impl<F> Domain<F> {
    pub open spec fn wf(&self) -> bool {
        &&& 1 <= self.epoch <= MAX_EPOCH
        &&& self.garbage.wf()
        &&& stamped_within(self.garbage.entries@, self.epoch)
    }

    /// The scan a reclamation pass completes, or `None` if it must do nothing:
    /// it may run no callback, nothing is retired, or some reader is pinned in
    /// every domain.
    pub open spec fn planned_scan(&self, r: RegistryView, limit: int) -> Option<Scan> {
        let slots = r.slots.take(r.active());
        if limit == 0 || self.garbage.entries@.len() == 0 || any_wildcard(slots) {
            None
        } else {
            Some(
                Scan {
                    id: self.id,
                    cutoff: self.garbage.next_sequence,
                    now: self.epoch,
                    min_pinned: oldest_pinned(slots, self.id, self.epoch + 1) as u64,
                },
            )
        }
    }

    /// What retiring `f` does to the domain.
    pub open spec fn retired(&self, f: F, post: Domain<F>) -> bool {
        &&& post.id == self.id
        &&& post.epoch == self.epoch
        &&& post.garbage.next_sequence == self.garbage.next_sequence + 1
        &&& post.garbage.entries@ == self.garbage.entries@.push(
            Retirement { sequence: self.garbage.next_sequence, epoch: self.epoch, run: f },
        )
    }

    /// What renewing its epoch does to the domain.
    pub open spec fn renewed(&self, post: Domain<F>) -> bool {
        &&& post.id == self.id
        &&& post.epoch == 1
        &&& post.garbage.next_sequence == self.garbage.next_sequence
        &&& post.garbage.entries@ == aged(self.garbage.entries@)
    }

    /// A fresh domain with its own grace period.
    pub fn new(ids: &mut DomainIds) -> (d: Domain<F>)
        ensures
            d.wf(),
            d.id == old(ids).next,
            d.epoch == 1,
            d.garbage.next_sequence == 0,
            d.garbage.entries@.len() == 0,
            final(ids).next == old(ids).next.wrapping_add(1),
    {
        Domain { id: ids.take(), epoch: 1, garbage: Garbage::new() }
    }

    /// Pins the calling thread into this domain.
    ///
    /// Hold the returned guard across every load and dereference of a pointer
    /// this domain protects. Pin before loading a protected pointer; a pin cannot
    /// resurrect a pointer retired before the protected load.
    pub fn pin(&self, registry: &mut Registry, owned: &mut OwnedLocal) -> (g: Guard)
        requires
            self.wf(),
            old(registry).wf(),
            old(owned).wf(),
            old(owned).backed_by(old(registry)@),
            !old(owned).local.closed,
        ensures
            final(registry).wf(),
            final(owned).wf(),
            final(owned).backed_by(final(registry)@),
            g.wf(),
            ({
                let local = registered_local(old(registry)@, old(owned).local);
                let entry = next_entry(local.shared, local.pin_mask);
                let word = pin_word(self.epoch as int, self.id as int) as u64;
                &&& g.slot() == local.mine->0
                &&& g.held_entry() == entry
                &&& final(registry)@ == once_registered(old(registry)@, old(owned).local).pinned(
                    g.slot(),
                    entry,
                    word,
                )
                &&& final(owned).local == (Local {
                    pin_mask: claimed_mask(local.pin_mask, entry),
                    ..local
                })
            }),
            old(owned).local.mine matches Some(mine) ==> {
                &&& g.slot() == mine
                &&& final(registry).free@ == old(registry).free@
                &&& final(registry).quarantine@ == old(registry).quarantine@
                &&& final(registry).next == old(registry).next
            },
            final(owned).local.mine == Some(g.slot() as usize),
            forall|i: int, e: int|
                0 <= i < 256 && 0 <= e < 4 && !(i == g.slot() && e == g.held_entry()) ==> (
                #[trigger] final(registry).slots@[i].pins@[e]) == old(registry).slots@[i].pins@[e],
            forall|i: int|
                0 <= i < 256 && !(i == g.slot() && g.held_entry() == WILDCARD) ==> (
                #[trigger] final(registry).slots@[i]).wildcard == old(registry).slots@[i].wildcard,
            g.held_entry() != WILDCARD ==> {
                let word = final(registry).slots@[g.slot()].pins@[g.held_entry() as int];
                &&& word != NO_DOMAIN
                &&& word as int / 0x100_0000 == self.epoch
                &&& word as int % 0x100_0000 == self.id as int % 0x100_0000
            },
            g.held_entry() == WILDCARD ==> final(registry).slots@[g.slot()].wildcard == old(
                registry,
            ).slots@[g.slot()].wildcard.wrapping_add(1),
    {
        let slot: usize = participant_in(registry, owned);
        let word: u64 = pack_pin(self.epoch, self.id);
        proof {
            law_a_pin_names_its_epoch_and_domain(self.epoch, self.id, word, self.id);
        }
        let shared: bool = owned.local.shared;
        let entry: usize = registry.claim(slot, shared, &mut owned.local.pin_mask, word);
        Guard::new(slot, entry)
    }

    /// Pins through a reusable registration.
    ///
    /// The guard must cover every protected pointer load and dereference, just as
    /// with [`Self::pin`].
    pub fn pin_with(&self, registry: &mut Registry, handle: &mut Handle) -> (g: HandleGuard)
        requires
            self.wf(),
            old(registry).wf(),
            old(handle).backed_by(old(registry)@),
        ensures
            final(registry).wf(),
            final(handle).backed_by(final(registry)@),
            g.wf(),
            g.participant == old(handle).participant,
            g.entry == next_entry(old(handle).shared, old(handle).pin_mask),
            final(registry)@ == old(registry)@.pinned(
                g.participant as int,
                g.entry,
                pin_word(self.epoch as int, self.id as int) as u64,
            ),
            *final(handle) == (Handle {
                pin_mask: claimed_mask(old(handle).pin_mask, g.entry),
                ..*old(handle)
            }),
            final(registry).free@ == old(registry).free@,
            final(registry).quarantine@ == old(registry).quarantine@,
            final(registry).next == old(registry).next,
            forall|i: int, e: int|
                0 <= i < 256 && 0 <= e < 4 && !(i == g.participant && e == g.entry) ==> (
                #[trigger] final(registry).slots@[i].pins@[e]) == old(registry).slots@[i].pins@[e],
            forall|i: int|
                0 <= i < 256 && !(i == g.participant && g.entry == WILDCARD) ==> (
                #[trigger] final(registry).slots@[i]).wildcard == old(registry).slots@[i].wildcard,
            g.entry != WILDCARD ==> {
                let word = final(registry).slots@[g.participant as int].pins@[g.entry as int];
                &&& word != NO_DOMAIN
                &&& word as int / 0x100_0000 == self.epoch
                &&& word as int % 0x100_0000 == self.id as int % 0x100_0000
            },
            g.entry == WILDCARD ==> final(registry).slots@[g.participant as int].wildcard == old(
                registry,
            ).slots@[g.participant as int].wildcard.wrapping_add(1),
    {
        let slot: usize = handle.participant;
        let word: u64 = pack_pin(self.epoch, self.id);
        proof {
            law_a_pin_names_its_epoch_and_domain(self.epoch, self.id, word, self.id);
        }
        let shared: bool = handle.shared;
        let entry: usize = registry.claim(slot, shared, &mut handle.pin_mask, word);
        HandleGuard { participant: slot, entry }
    }

    /// Retires `f`, to run once every reader pinned now has unpinned.
    ///
    /// Does not pin. Call it while holding the guard under which the pointer was
    /// unlinked. Callback order is unspecified. Callbacks should not panic. If one
    /// unwinds from [`Self::advance`], it is not retried, but callbacks not yet
    /// invoked stay queued with their original stamps. When the domain is disposed
    /// of there is no queue to stay in: an unwinding callback drops the remaining
    /// captures without invoking their callbacks.
    pub fn retire(&mut self, f: F)
        requires
            old(self).wf(),
            old(self).garbage.next_sequence < u64::MAX,
        ensures
            final(self).wf(),
            final(self).id == old(self).id,
            final(self).epoch == old(self).epoch,
            final(self).garbage.next_sequence == old(self).garbage.next_sequence + 1,
            final(self).garbage.entries@ == old(self).garbage.entries@.push(
                Retirement {
                    sequence: old(self).garbage.next_sequence,
                    epoch: old(self).epoch,
                    run: f,
                },
            ),
            old(self).retired(f, *final(self)),
    {
        let epoch: u64 = self.epoch;
        self.garbage.push(epoch, f);
    }

    /// Retirements not yet run.
    ///
    /// This queue can grow without bound unless reclamation is driven.
    pub fn pending(&self) -> (n: usize)
        ensures
            n == self.garbage.entries@.len(),
    {
        self.garbage.entries.len()
    }

    /// Remaining epoch increments before conservative saturation.
    ///
    /// Plan an exclusive maintenance window before this approaches zero.
    pub fn epoch_headroom(&self) -> (n: u64)
        requires
            self.wf(),
        ensures
            n == MAX_EPOCH - self.epoch,
    {
        MAX_EPOCH - self.epoch
    }

    /// Renews epoch headroom during an exclusive maintenance window.
    ///
    /// No guard of this domain may be live. Existing retirements become older
    /// than every new pin, without invoking callbacks or changing their sequence
    /// numbers. It does not erase any registration or recover a forgotten guard's
    /// slot.
    pub fn renew_epoch(&mut self)
        requires
            old(self).wf(),
        ensures
            final(self).wf(),
            final(self).id == old(self).id,
            final(self).epoch == 1,
            final(self).garbage.next_sequence == old(self).garbage.next_sequence,
            final(self).garbage.entries@ == aged(old(self).garbage.entries@),
            old(self).renewed(*final(self)),
    {
        self.garbage.age();
        self.epoch = 1;
    }

    /// Decides what may be reclaimed: the first half of a reclamation pass.
    ///
    /// Checking for an empty queue first turns a pass over an idle domain into a
    /// length read instead of a registry sweep.
    pub fn scan(&self, registry: &Registry, limit: usize) -> (s: Option<Scan>)
        requires
            self.wf(),
            registry.wf(),
        ensures
            s == self.planned_scan(registry@, limit as int),
            s matches Some(scan) ==> scan.wf(),
    {
        if limit == 0 {
            return None;
        }
        match self.garbage.cutoff() {
            None => None,
            Some(cutoff) => registry.scan(Scan::new(self.id, cutoff, self.epoch)),
        }
    }

    /// Moves the epoch on behalf of a scan that sampled `now`, unless another
    /// pass has moved it since.
    pub fn finish_scan(&mut self, now: u64)
        requires
            old(self).wf(),
        ensures
            final(self).wf(),
            final(self).id == old(self).id,
            final(self).garbage == old(self).garbage,
            final(self).epoch == (if old(self).epoch == now {
                next_epoch(now)
            } else {
                old(self).epoch as int
            }),
    {
        if self.epoch == now {
            self.epoch = following_epoch(now);
        }
    }
}

impl<F: FnOnce()> Domain<F> {
    /// Every queued callback may be called.
    pub open spec fn callable(&self) -> bool {
        forall|i: int|
            0 <= i < self.garbage.entries@.len() ==> call_requires(
                (#[trigger] self.garbage.entries@[i]).run,
                (),
            )
    }

    /// The second half of a reclamation pass: runs what a scan covers, then tries
    /// to advance the epoch. Returns how many callbacks ran.
    ///
    /// Each callback leaves the queue only when it is about to run, so one that
    /// unwinds leaves the others queued.
    pub fn reclaim(&mut self, scan: Scan, limit: usize) -> (n: usize)
        requires
            old(self).wf(),
            old(self).callable(),
        ensures
            final(self).wf(),
            final(self).callable(),
            final(self).id == old(self).id,
            final(self).garbage.next_sequence == old(self).garbage.next_sequence,
            ({
                let queue = old(self).garbage.entries@;
                let batch = taken_out(queue, scan, limit as int);
                &&& n == batch.len()
                &&& n <= limit
                &&& final(self).garbage.entries@ == left_over(queue, scan, limit as int)
                &&& forall|i: int|
                    0 <= i < batch.len() ==> call_ensures((#[trigger] batch[i]).run, (), ())
            }),
            final(self).epoch == (if old(self).epoch == scan.now {
                next_epoch(scan.now)
            } else {
                old(self).epoch as int
            }),
    {
        let ghost queue = self.garbage.entries@;
        let queued: usize = self.garbage.entries.len();
        let mut n: usize = 0;
        let mut i: usize = 0;
        proof {
            reveal(Seq::filter);
            assert(queue.skip(0) =~= queue);
            assert(self.garbage.entries@ =~= rotated(queue, scan, 0));
        }
        while i < queued && n != limit
            invariant
                i <= queued,
                queued == queue.len(),
                n <= limit,
                self.id == old(self).id,
                self.epoch == old(self).epoch,
                self.garbage.next_sequence == old(self).garbage.next_sequence,
                self.garbage.entries@ == rotated(queue, scan, i as int),
                n == queue.take(i as int).filter(covered(scan)).len(),
                inspected(queue, scan, limit as int) == i + inspected(
                    queue.skip(i as int),
                    scan,
                    limit - n,
                ),
                forall|j: int|
                    0 <= j < queue.len() ==> call_requires((#[trigger] queue[j]).run, ()),
                forall|j: int|
                    0 <= j < n ==> call_ensures(
                        (#[trigger] queue.take(i as int).filter(covered(scan))[j]).run,
                        (),
                        (),
                    ),
            decreases queued - i,
        {
            let ghost tail = queue.skip(i as int);
            let r: Retirement<F> = self.garbage.entries.pop_front().unwrap();
            proof {
                reveal(Seq::filter);
                assert(queue.take(i + 1).drop_last() =~= queue.take(i as int));
                assert(queue.take(i + 1).last() == queue[i as int]);
                assert(tail[0] == r && r == queue[i as int]);
                assert(tail.skip(1) =~= queue.skip(i + 1));
                assert(self.garbage.entries@ =~= queue.skip(i + 1) + queue.take(i as int).filter(
                    withheld(scan),
                ));
            }
            if r.covered_by(&scan) {
                // Should the callback unwind, everything else is in the queue.
                assert(self.garbage.entries@ == rotated(queue, scan, i + 1));
                let run = r.run;
                run();
                n = n + 1;
            } else {
                self.garbage.entries.push_back(r);
                assert(self.garbage.entries@ =~= rotated(queue, scan, i + 1));
            }
            i = i + 1;
        }
        proof {
            assert(inspected(queue.skip(i as int), scan, limit - n) == 0);
            lemma_left_over_is_numbered(
                queue,
                scan,
                limit as int,
                self.garbage.next_sequence,
            );
            lemma_left_over_was_queued(queue, scan, limit as int);
            assert forall|j: int| 0 <= j < self.garbage.entries@.len() implies (
            #[trigger] self.garbage.entries@[j]).epoch <= self.epoch && call_requires(
                self.garbage.entries@[j].run,
                (),
            ) by {
                let m = choose|m: int|
                    0 <= m < queue.len() && queue[m] == self.garbage.entries@[j];
            }
        }
        self.finish_scan(scan.now);
        n
    }

    /// Runs eligible retirements from a pre-scan snapshot. Returns how many ran.
    ///
    /// Never waits for readers. While a reader pinned before a retirement is still
    /// pinned, that retirement is simply not run yet. A reader that started in a
    /// later epoch does not hold it up. Readers in the retirement's epoch
    /// conservatively delay it, even if they started after retirement.
    pub fn advance(&mut self, registry: &Registry) -> (n: usize)
        requires
            old(self).wf(),
            old(self).callable(),
            registry.wf(),
        ensures
            final(self).wf(),
            final(self).callable(),
            old(self).advanced(registry@, usize::MAX as int, *final(self), n as int),
            n + final(self).garbage.entries@.len() == old(self).garbage.entries@.len(),
            n < usize::MAX && (forall|i: int|
                0 <= i < 256 ==> (#[trigger] registry.slots@[i]).wildcard == 0) ==> forall|j: int|
                0 <= j < final(self).garbage.entries@.len() ==> within_reach(
                    registry.slots@,
                    old(self).id,
                    (#[trigger] final(self).garbage.entries@[j]).epoch,
                ),
            (exists|i: int| 0 <= i < 256 && (#[trigger] registry.slots@[i]).wildcard != 0)
                ==> *final(self) == *old(self),
            forall|i: int, e: int, j: int|
                0 <= i < 256 && 0 <= e < 4 && 0 <= j < old(self).garbage.entries@.len() && (
                #[trigger] registry.slots@[i].pins@[e]) != NO_DOMAIN
                    && registry.slots@[i].pins@[e] as int % 0x100_0000 == old(self).id as int
                    % 0x100_0000 && registry.slots@[i].pins@[e] as int / 0x100_0000 <= (
                #[trigger] old(self).garbage.entries@[j]).epoch
                    ==> final(self).garbage.entries@.contains(old(self).garbage.entries@[j]),
    {
        self.advance_up_to(registry, usize::MAX)
    }

    /// Runs at most `limit` eligible retirements with the same epoch progression
    /// as [`Self::advance`]. A zero limit does nothing. Returns how many ran.
    ///
    /// Eligible retirements beyond `limit` stay queued for a later pass.
    pub fn advance_up_to(&mut self, registry: &Registry, limit: usize) -> (n: usize)
        requires
            old(self).wf(),
            old(self).callable(),
            registry.wf(),
        ensures
            final(self).wf(),
            final(self).callable(),
            old(self).advanced(registry@, limit as int, *final(self), n as int),
            n <= limit,
            n + final(self).garbage.entries@.len() == old(self).garbage.entries@.len(),
            n < limit && (forall|i: int|
                0 <= i < 256 ==> (#[trigger] registry.slots@[i]).wildcard == 0) ==> forall|j: int|
                0 <= j < final(self).garbage.entries@.len() ==> within_reach(
                    registry.slots@,
                    old(self).id,
                    (#[trigger] final(self).garbage.entries@[j]).epoch,
                ),
            (exists|i: int| 0 <= i < 256 && (#[trigger] registry.slots@[i]).wildcard != 0)
                ==> *final(self) == *old(self),
            forall|i: int, e: int, j: int|
                0 <= i < 256 && 0 <= e < 4 && 0 <= j < old(self).garbage.entries@.len() && (
                #[trigger] registry.slots@[i].pins@[e]) != NO_DOMAIN
                    && registry.slots@[i].pins@[e] as int % 0x100_0000 == old(self).id as int
                    % 0x100_0000 && registry.slots@[i].pins@[e] as int / 0x100_0000 <= (
                #[trigger] old(self).garbage.entries@[j]).epoch
                    ==> final(self).garbage.entries@.contains(old(self).garbage.entries@[j]),
    {
        let n: usize = match self.scan(registry, limit) {
            None => 0,
            Some(scan) => self.reclaim(scan, limit),
        };
        proof {
            law_a_pass_runs_up_to_its_limit(
                *old(self),
                registry@,
                limit as int,
                *self,
                n as int,
            );
            law_a_pass_spares_what_readers_hold(
                *old(self),
                registry@,
                limit as int,
                *self,
                n as int,
            );
            assert(registry.slots@.len() == 256);
            if exists|i: int| 0 <= i < 256 && (#[trigger] registry.slots@[i]).wildcard != 0 {
                let i = choose|i: int|
                    0 <= i < 256 && (#[trigger] registry.slots@[i]).wildcard != 0;
                assert(registry@.slots[i].wildcard != 0);
            }
            assert forall|i: int, e: int|
                0 <= i < 256 && 0 <= e < 4 implies (#[trigger] registry.slots@[i].pins@[e])
                == registry@.slots[i].pins[e] by {}
            if n < limit && (forall|i: int|
                0 <= i < 256 ==> (#[trigger] registry.slots@[i]).wildcard == 0) {
                assert forall|j: int| 0 <= j < self.garbage.entries@.len() implies within_reach(
                    registry.slots@,
                    old(self).id,
                    (#[trigger] self.garbage.entries@[j]).epoch,
                ) by {
                    law_a_pass_leaves_only_what_readers_hold(
                        *old(self),
                        registry@,
                        limit as int,
                        *self,
                        n as int,
                        j,
                    );
                    let (i, e) = choose|i: int, e: int|
                        0 <= i < 256 && 0 <= e < 4 && (#[trigger] registry@.slots[i].pins[e]) != 0
                            && registry@.slots[i].pins[e] as int % 0x100_0000 == old(self).id as int
                            % 0x100_0000 && registry@.slots[i].pins[e] as int / 0x100_0000
                            <= self.garbage.entries@[j].epoch;
                    assert(registry.slots@[i].pins@[e] == registry@.slots[i].pins[e]);
                }
            }
        }
        n
    }

    /// What one reclamation pass does to the domain, and how many callbacks it
    /// runs.
    pub open spec fn advanced(
        &self,
        r: RegistryView,
        limit: int,
        post: Domain<F>,
        n: int,
    ) -> bool {
        match self.planned_scan(r, limit) {
            None => n == 0 && post == *self,
            Some(scan) => {
                let queue = self.garbage.entries@;
                let batch = taken_out(queue, scan, limit);
                &&& n == batch.len()
                &&& n <= limit
                &&& post.id == self.id
                &&& post.epoch == next_epoch(self.epoch)
                &&& post.garbage.next_sequence == self.garbage.next_sequence
                &&& post.garbage.entries@ == left_over(queue, scan, limit)
                &&& forall|i: int|
                    0 <= i < batch.len() ==> call_ensures((#[trigger] batch[i]).run, (), ())
            },
        }
    }

    /// Ends the domain and runs whatever is left: exclusive ownership proves that
    /// no reader is pinned here. Returns how many callbacks ran.
    pub fn dispose(self) -> (n: usize)
        requires
            self.callable(),
        ensures
            n == self.garbage.entries@.len(),
            forall|i: int|
                0 <= i < self.garbage.entries@.len() ==> call_ensures(
                    (#[trigger] self.garbage.entries@[i]).run,
                    (),
                    (),
                ),
    {
        let n: usize = self.garbage.entries.len();
        run_batch(self.garbage.entries);
        n
    }
}

} // verus!
