//! What every interleaving keeps, and that no retirement runs too early.
use vstd::prelude::*;

use crate::garbage::{
    covers, lemma_left_over_was_queued, lemma_taken_out_was_queued, numbered_below, stamped_within,
    taken_out,
};
use crate::pins::{
    law_pin_word_round_trip, lemma_mask_with, lemma_mask_without, mask_with, mask_without,
    occupied, pin_word, MAX_EPOCH, NO_DOMAIN, PINS_PER_THREAD, WILDCARD,
};
use crate::protocol::{wildcards_in, word_of, words_per_slot, Event, Pass, Reader, System};
use crate::registry::{
    holds, lemma_acquire_keeps_wf, lemma_pin_keeps_wf, lemma_recovery_index,
    lemma_release_keeps_wf, lemma_unpin_keeps_wf, MAX_THREADS,
};
use crate::scan::oldest_in;

verus! {

impl<F> System<F> {
    /// Every name in use is below `fresh`.
    pub open spec fn names_inv(self) -> bool {
        &&& forall|k: nat| #[trigger] self.owners.contains_key(k) ==> k < self.fresh
        &&& forall|k: nat| #[trigger] self.pinning.contains_key(k) ==> k < self.fresh
        &&& forall|k: nat| #[trigger] self.readers.contains_key(k) ==> k < self.fresh
        &&& forall|k: nat| #[trigger] self.retiring.contains_key(k) ==> k < self.fresh
        &&& forall|k: nat| #[trigger] self.passes.contains_key(k) ==> k < self.fresh
        &&& forall|w: nat, k: nat|
            self.retiring.contains_key(w) && #[trigger] self.retiring[w].older.contains(k) ==> k
                < self.fresh
        &&& forall|s: u64, k: nat|
            self.older.contains_key(s) && #[trigger] self.older[s].contains(k) ==> k < self.fresh
    }

    /// Registrations own usable slots, no exclusive slot has two owners, and a
    /// registration knows exactly which entries are taken in its slot.
    pub open spec fn owners_inv(self) -> bool {
        &&& forall|o: nat| #[trigger]
            self.owners.contains_key(o) ==> self.registry.usable(
                self.owners[o].slot,
                self.owners[o].shared,
            )
        &&& forall|o: nat, p: nat| #[trigger]
            self.owners.contains_key(o) && #[trigger] self.owners.contains_key(p) && o != p
                && !self.owners[o].shared && !self.owners[p].shared ==> self.owners[o].slot
                != self.owners[p].slot
        &&& forall|o: nat, e: int| #[trigger]
            self.owners.contains_key(o) && !self.owners[o].shared && 0 <= e < PINS_PER_THREAD
                ==> #[trigger] occupied(self.owners[o].mask, e) == (
            self.registry.slots[self.owners[o].slot].pins[e] != NO_DOMAIN)
    }

    /// Every reader is published, where nobody else is.
    pub open spec fn readers_inv(self) -> bool {
        &&& self.readers.dom().finite()
        &&& forall|k: nat| #[trigger]
            self.readers.contains_key(k) ==> {
                let r = self.readers[k];
                &&& 1 <= r.epoch <= MAX_EPOCH
                &&& r.domain == self.id && r.hold !is Outlived ==> r.epoch <= self.epoch
                &&& 0 <= r.slot < self.registry.active()
                &&& r.owner < self.fresh
                &&& self.owners.contains_key(r.owner) ==> self.owners[r.owner].slot == r.slot
                &&& r.entry != WILDCARD ==> {
                    &&& r.entry < PINS_PER_THREAD
                    &&& r.slot < self.registry.issued()
                    &&& self.registry.slots[r.slot].pins[r.entry as int] == pin_word(
                        r.epoch as int,
                        r.domain as int,
                    )
                }
            }
        &&& forall|j: nat, k: nat| #[trigger]
            self.readers.contains_key(j) && #[trigger] self.readers.contains_key(k) && j != k
                && self.readers[j].entry != WILDCARD && self.readers[j].entry
                == self.readers[k].entry ==> self.readers[j].slot != self.readers[k].slot
        // While a pin is published, nobody but its own registration gets its slot.
        &&& forall|k: nat, o: nat| #[trigger]
            self.readers.contains_key(k) && #[trigger] self.owners.contains_key(o)
                && !self.owners[o].shared && self.owners[o].slot == self.readers[k].slot
                ==> self.readers[k].owner == o
        &&& forall|s: int|
            0 <= s < MAX_THREADS ==> (#[trigger] self.registry.slots[s]).wildcard == wildcards_in(
                self.readers,
                s,
            ).len()
    }

    /// Sampled epochs are not ahead of the domain.
    pub open spec fn samples_inv(self) -> bool {
        &&& 1 <= self.epoch <= MAX_EPOCH
        &&& forall|p: nat| #[trigger]
            self.pinning.contains_key(p) ==> {
                &&& self.owners.contains_key(self.pinning[p].owner)
                &&& 1 <= self.pinning[p].epoch <= MAX_EPOCH
                &&& self.pinning[p].domain == self.id ==> self.pinning[p].epoch <= self.epoch
            }
        &&& forall|w: nat| #[trigger]
            self.retiring.contains_key(w) ==> self.retiring[w].epoch <= self.epoch
        &&& forall|w: nat, k: nat|
            self.retiring.contains_key(w) && #[trigger] self.retiring[w].older.contains(k)
                && self.readers.contains_key(k) && self.readers[k].domain == self.id
                ==> self.readers[k].epoch <= self.retiring[w].epoch
    }

    /// Queued retirements are numbered, and none is stamped after the domain's epoch
    /// or before a reader that predates it.
    pub open spec fn queue_inv(self) -> bool {
        &&& numbered_below(self.queue, self.next_sequence)
        &&& stamped_within(self.queue, self.epoch)
        &&& forall|s: u64| s < self.next_sequence ==> #[trigger] self.older.contains_key(s)
        &&& forall|i: int, k: nat|
            0 <= i < self.queue.len() && #[trigger] self.still_read(self.queue[i].sequence, k)
                ==> self.readers[k].epoch <= self.queue[i].epoch
    }

    /// What one pass may rely on.
    pub open spec fn pass_inv(self, pass: Pass<F>) -> bool {
        match pass {
            Pass::Begun { cutoff } => cutoff <= self.next_sequence,
            Pass::Sampled { scan } => {
                &&& scan.wf()
                &&& scan.id == self.id
                &&& scan.cutoff <= self.next_sequence
            },
            Pass::Reading { scan, leased, pos } => {
                &&& scan.wf()
                &&& scan.id == self.id
                &&& scan.cutoff <= self.next_sequence
                &&& 0 <= leased <= MAX_THREADS
                &&& 0 <= pos <= leased * words_per_slot()
                &&& forall|i: int, k: nat|
                    0 <= i < self.queue.len() && self.queue[i].sequence < scan.cutoff
                        && #[trigger] self.still_read(self.queue[i].sequence, k) ==> {
                        &&& self.readers[k].slot < leased
                        &&& word_of(self.readers[k]) < pos ==> self.readers[k].entry != WILDCARD
                            && scan.min_pinned <= self.readers[k].epoch
                    }
            },
            Pass::Running { now, batch } => {
                &&& numbered_below(batch, self.next_sequence)
                &&& stamped_within(batch, self.epoch)
                &&& forall|i: int, k: nat|
                    0 <= i < batch.len() ==> !#[trigger] self.still_read(batch[i].sequence, k)
            },
        }
    }

    pub open spec fn passes_inv(self) -> bool {
        forall|p: nat| #[trigger] self.passes.contains_key(p) ==> self.pass_inv(self.passes[p])
    }

    /// Holds in every state that can be reached.
    pub open spec fn inv(self) -> bool {
        &&& self.registry.wf()
        &&& self.names_inv()
        &&& self.owners_inv()
        &&& self.readers_inv()
        &&& self.samples_inv()
        &&& self.queue_inv()
        &&& self.passes_inv()
    }
}

/// The invariant holds at the start.
pub proof fn lemma_initial_inv<F>(s: System<F>)
    requires
        s.initial(),
    ensures
        s.inv(),
{
    assert forall|i: int| 0 <= i < MAX_THREADS implies (#[trigger] s.registry.slots[i]).wildcard
        == wildcards_in(s.readers, i).len() by {
        assert(wildcards_in(s.readers, i) =~= Set::<nat>::empty());
    }
}

proof fn lemma_register<F>(s: System<F>)
    requires
        s.inv(),
    ensures
        s.after(Event::Register).inv(),
{
    let post = s.after(Event::Register);
    let (slot, shared) = s.registry.acquire_result();
    lemma_acquire_keeps_wf(s.registry);
    lemma_recovery_index(s.registry, 0);
    assert(post.registry.slots == s.registry.slots);
    // The new owner's slot publishes nothing, and nobody owns it.
    if !shared {
        assert(s.registry.slots[slot as int].idle()) by {
            if s.registry.free.len() > 0 {
                assert(s.registry.free[s.registry.free.len() - 1] == slot);
            }
        }
        assert(!s.registry.leased(slot as int)) by {
            if s.registry.free.len() > 0 {
                assert(s.registry.free[s.registry.free.len() - 1] == slot);
                assert(s.registry.free.contains(slot));
            } else if s.registry.can_recover() {
                assert(s.registry.quarantine.contains(slot));
            }
        }
    }
    assert forall|i: int| s.registry.leased(i) implies post.registry.leased(i) by {
        if s.registry.free.len() > 0 {
            assert(post.registry.free =~= s.registry.free.drop_last());
            if post.registry.free.contains(i as usize) {
                let j = choose|j: int|
                    0 <= j < post.registry.free.len() && post.registry.free[j] == i as usize;
                assert(s.registry.free[j] == i as usize);
            }
        } else if s.registry.can_recover() {
            let k = s.registry.recovery_index(0);
            if post.registry.quarantine.contains(i as usize) {
                let j = choose|j: int|
                    0 <= j < post.registry.quarantine.len() && post.registry.quarantine[j]
                        == i as usize;
                let j2 = if j < k { j } else { j + 1 };
                assert(s.registry.quarantine[j2] == i as usize);
            }
        }
    }
    assert forall|o: nat| #[trigger] post.owners.contains_key(o) implies post.registry.usable(
        post.owners[o].slot,
        post.owners[o].shared,
    ) by {
        if o != s.fresh {
            assert(s.owners.contains_key(o));
        }
    }
    assert(forall|e: u8| e < 4 ==> (#[trigger] (0u8 >> e)) & 1u8 == 0u8) by (bit_vector);
    assert forall|o: nat, e: int| #[trigger]
        post.owners.contains_key(o) && !post.owners[o].shared && 0 <= e < PINS_PER_THREAD implies
            #[trigger] occupied(post.owners[o].mask, e) == (
        post.registry.slots[post.owners[o].slot].pins[e] != NO_DOMAIN) by {
        if o != s.fresh {
            assert(s.owners.contains_key(o));
            assert(occupied(s.owners[o].mask, e) == (s.registry.slots[s.owners[o].slot].pins[e]
                != NO_DOMAIN));
        } else {
            assert((0u8 >> e as u8) & 1u8 == 0u8);
        }
    }
    assert forall|k: nat, o: nat| #[trigger]
        post.readers.contains_key(k) && #[trigger] post.owners.contains_key(o)
            && !post.owners[o].shared && post.owners[o].slot == post.readers[k].slot implies
            post.readers[k].owner == o by {
        assert(s.readers.contains_key(k));
        if o == s.fresh {
            let r = s.readers[k];
            if r.entry == WILDCARD {
                assert(wildcards_in(s.readers, r.slot).contains(k));
            } else {
                law_pin_word_round_trip(
                    r.epoch,
                    r.domain,
                    s.registry.slots[r.slot].pins[r.entry as int],
                );
            }
        } else {
            assert(s.owners.contains_key(o));
        }
    }
    lemma_same_passes(s, post);
}

/// A step that leaves the queue and its stamps alone, and brings back no reader
/// that predates a retirement, keeps what queued work and running passes rely
/// on.
proof fn lemma_same_passes<F>(s: System<F>, post: System<F>)
    requires
        s.passes_inv(),
        s.queue_inv(),
        post.id == s.id,
        post.epoch >= s.epoch,
        post.queue == s.queue,
        post.next_sequence == s.next_sequence,
        post.older == s.older,
        post.passes == s.passes,
        forall|q: u64, k: nat|
            s.older.contains_key(q) && #[trigger] post.still_read(q, k) ==> s.still_read(q, k)
                && post.readers[k].slot == s.readers[k].slot && post.readers[k].entry
                == s.readers[k].entry && post.readers[k].epoch == s.readers[k].epoch,
    ensures
        post.passes_inv(),
        post.queue_inv(),
{
    assert forall|p: nat| #[trigger] post.passes.contains_key(p) implies post.pass_inv(
        post.passes[p],
    ) by {
        assert(s.pass_inv(s.passes[p]));
        match post.passes[p] {
            Pass::Reading { scan, leased, pos } => {
                assert forall|i: int, k: nat|
                    0 <= i < post.queue.len() && post.queue[i].sequence < scan.cutoff
                        && #[trigger] post.still_read(post.queue[i].sequence, k) implies {
                    &&& post.readers[k].slot < leased
                    &&& word_of(post.readers[k]) < pos ==> post.readers[k].entry != WILDCARD
                        && scan.min_pinned <= post.readers[k].epoch
                } by {
                    assert(s.still_read(s.queue[i].sequence, k));
                }
            },
            Pass::Running { now, batch } => {
                assert forall|i: int, k: nat| 0 <= i < batch.len() implies !#[trigger] post.still_read(
                    batch[i].sequence,
                    k,
                ) by {
                    assert(!s.still_read(batch[i].sequence, k));
                }
            },
            _ => {},
        }
    }
    assert forall|i: int, k: nat|
        0 <= i < post.queue.len() && #[trigger] post.still_read(post.queue[i].sequence, k) implies
            post.readers[k].epoch <= post.queue[i].epoch by {
        assert(s.still_read(s.queue[i].sequence, k));
    }
}

proof fn lemma_unregister<F>(s: System<F>, owner: nat)
    requires
        s.inv(),
        s.enabled(Event::Unregister { owner }),
    ensures
        s.after(Event::Unregister { owner }).inv(),
{
    let post = s.after(Event::Unregister { owner });
    let o = s.owners[owner];
    assert(s.registry.usable(o.slot, o.shared));
    if !o.shared {
        lemma_release_keeps_wf(s.registry, o.slot as usize);
    }
    assert(post.registry.slots == s.registry.slots);
    assert forall|i: int| s.registry.leased(i) && (o.shared || i != o.slot) implies
        post.registry.leased(i) by {
        let u = i as usize;
        if post.registry.free.contains(u) {
            let j = choose|j: int| 0 <= j < post.registry.free.len() && post.registry.free[j] == u;
            assert(j < s.registry.free.len() ==> s.registry.free[j] == u);
        }
        if post.registry.quarantine.contains(u) {
            let j = choose|j: int|
                0 <= j < post.registry.quarantine.len() && post.registry.quarantine[j] == u;
            assert(j < s.registry.quarantine.len() ==> s.registry.quarantine[j] == u);
        }
    }
    assert forall|p: nat| #[trigger] post.owners.contains_key(p) implies post.registry.usable(
        post.owners[p].slot,
        post.owners[p].shared,
    ) by {
        assert(s.owners.contains_key(p) && s.owners.contains_key(owner));
    }
    assert forall|p: nat| #[trigger] post.pinning.contains_key(p) implies post.owners.contains_key(
        post.pinning[p].owner,
    ) by {
        assert(s.pinning.contains_key(p));
    }
    lemma_same_passes(s, post);
}

proof fn lemma_sample_pin<F>(s: System<F>, owner: nat, domain: u64, epoch: u64)
    requires
        s.inv(),
        s.enabled(Event::SamplePin { owner, domain, epoch }),
    ensures
        s.after(Event::SamplePin { owner, domain, epoch }).inv(),
{
    let post = s.after(Event::SamplePin { owner, domain, epoch });
    lemma_same_passes(s, post);
}

proof fn lemma_publish<F>(s: System<F>, pinning: nat)
    requires
        s.inv(),
        s.enabled(Event::Publish { pinning }),
    ensures
        s.after(Event::Publish { pinning }).inv(),
{
    let post = s.after(Event::Publish { pinning });
    let p = s.pinning[pinning];
    assert(s.pinning.contains_key(pinning));
    assert(s.owners.contains_key(p.owner));
    let o = s.owner_of_pin(pinning);
    let entry = s.entry_of_pin(pinning);
    let word = pin_word(p.epoch as int, p.domain as int) as u64;
    let new = post.readers[s.fresh];
    assert(s.registry.usable(o.slot, o.shared));
    lemma_pin_keeps_wf(s.registry, o.slot, o.shared, entry, word);
    law_pin_word_round_trip(p.epoch, p.domain, word);
    assert(!s.readers.contains_key(s.fresh));
    if entry != WILDCARD {
        lemma_mask_with(o.mask, entry as int);
        assert(!occupied(o.mask, entry as int));
        assert(s.registry.slots[o.slot].pins[entry as int] == NO_DOMAIN);
    }
    // Nobody else's word is touched.
    assert forall|k: nat| #[trigger] s.readers.contains_key(k) && s.readers[k].entry
        != WILDCARD implies post.registry.slots[s.readers[k].slot].pins[s.readers[k].entry as int]
        == s.registry.slots[s.readers[k].slot].pins[s.readers[k].entry as int] by {
        let r = s.readers[k];
        law_pin_word_round_trip(
            r.epoch,
            r.domain,
            s.registry.slots[r.slot].pins[r.entry as int],
        );
        assert(s.registry.slots[r.slot].shaped());
    }
    assert(post.readers.dom() =~= s.readers.dom().insert(s.fresh));
    assert forall|i: int| 0 <= i < MAX_THREADS implies (#[trigger] post.registry.slots[i]).wildcard
        == wildcards_in(post.readers, i).len() by {
        assert(s.registry.slots[i].wildcard == wildcards_in(s.readers, i).len());
        if i == o.slot && entry == WILDCARD {
            assert(wildcards_in(post.readers, i) =~= wildcards_in(s.readers, i).insert(s.fresh));
        } else {
            assert(wildcards_in(post.readers, i) =~= wildcards_in(s.readers, i));
        }
    }
    assert forall|q: nat, e: int| #[trigger]
        post.owners.contains_key(q) && !post.owners[q].shared && 0 <= e < PINS_PER_THREAD implies
            #[trigger] occupied(post.owners[q].mask, e) == (
        post.registry.slots[post.owners[q].slot].pins[e] != NO_DOMAIN) by {
        assert(s.owners.contains_key(q));
        assert(s.registry.usable(s.owners[q].slot, s.owners[q].shared));
        assert(s.registry.slots[o.slot].shaped());
        assert(occupied(s.owners[q].mask, e) == (s.registry.slots[s.owners[q].slot].pins[e]
            != NO_DOMAIN));
        if q == p.owner && entry != WILDCARD {
            assert(occupied(mask_with(o.mask, entry as int), e) == (e == entry || occupied(
                o.mask,
                e,
            )));
        }
    }
    assert forall|j: nat, k: nat| #[trigger]
        post.readers.contains_key(j) && #[trigger] post.readers.contains_key(k) && j != k
            && post.readers[j].entry != WILDCARD && post.readers[j].entry == post.readers[k].entry
        implies post.readers[j].slot != post.readers[k].slot by {
        let x = if j == s.fresh { k } else { j };
        assert(s.readers.contains_key(x));
        let r = s.readers[x];
        if r.entry != WILDCARD {
            law_pin_word_round_trip(
                r.epoch,
                r.domain,
                s.registry.slots[r.slot].pins[r.entry as int],
            );
        }
    }
    assert forall|k: nat, q: nat| #[trigger]
        post.readers.contains_key(k) && #[trigger] post.owners.contains_key(q)
            && !post.owners[q].shared && post.owners[q].slot == post.readers[k].slot implies
            post.readers[k].owner == q by {
        assert(s.owners.contains_key(q));
        assert(s.registry.usable(s.owners[q].slot, s.owners[q].shared));
        if k != s.fresh {
            assert(s.readers.contains_key(k));
        }
    }
    lemma_same_passes(s, post);
}

proof fn lemma_unpin<F>(s: System<F>, reader: nat, local: Option<nat>)
    requires
        s.inv(),
        s.enabled(Event::Unpin { reader, local }),
    ensures
        s.after(Event::Unpin { reader, local }).inv(),
{
    let post = s.after(Event::Unpin { reader, local });
    let r = s.readers[reader];
    assert(s.readers.contains_key(reader));
    if r.entry == WILDCARD {
        assert(wildcards_in(s.readers, r.slot).contains(reader));
    } else {
        law_pin_word_round_trip(
            r.epoch,
            r.domain,
            s.registry.slots[r.slot].pins[r.entry as int],
        );
        lemma_mask_without(s.owners[local->0].mask, r.entry as int);
    }
    assert(holds(s.registry.slots[r.slot], r.entry));
    lemma_unpin_keeps_wf(s.registry, r.slot, r.entry);
    assert(post.readers.dom() =~= s.readers.dom().remove(reader));
    assert(s.registry.slots[r.slot].shaped());
    assert forall|k: nat| #[trigger] post.readers.contains_key(k) && post.readers[k].entry
        != WILDCARD implies post.registry.slots[post.readers[k].slot].pins[post.readers[k].entry as int]
        == s.registry.slots[s.readers[k].slot].pins[s.readers[k].entry as int] by {
        assert(s.readers.contains_key(k) && s.readers.contains_key(reader));
    }
    assert forall|i: int| 0 <= i < MAX_THREADS implies (#[trigger] post.registry.slots[i]).wildcard
        == wildcards_in(post.readers, i).len() by {
        assert(s.registry.slots[i].wildcard == wildcards_in(s.readers, i).len());
        if i == r.slot && r.entry == WILDCARD {
            assert(wildcards_in(post.readers, i) =~= wildcards_in(s.readers, i).remove(reader));
        } else {
            assert(wildcards_in(post.readers, i) =~= wildcards_in(s.readers, i));
        }
    }
    assert forall|q: nat, e: int| #[trigger]
        post.owners.contains_key(q) && !post.owners[q].shared && 0 <= e < PINS_PER_THREAD implies
            #[trigger] occupied(post.owners[q].mask, e) == (
        post.registry.slots[post.owners[q].slot].pins[e] != NO_DOMAIN) by {
        assert(s.owners.contains_key(q));
        assert(s.registry.usable(s.owners[q].slot, s.owners[q].shared));
        assert(occupied(s.owners[q].mask, e) == (s.registry.slots[s.owners[q].slot].pins[e]
            != NO_DOMAIN));
        if s.owners[q].slot == r.slot {
            assert(r.owner == q);
            if r.entry != WILDCARD {
                assert(occupied(mask_without(s.owners[q].mask, r.entry as int), e) == (e != r.entry
                    && occupied(s.owners[q].mask, e)));
            }
        }
    }
    assert forall|q: nat| #[trigger] post.owners.contains_key(q) implies s.owners.contains_key(q)
        && post.owners[q].slot == s.owners[q].slot && post.owners[q].shared
        == s.owners[q].shared by {}
    lemma_same_passes(s, post);
}

proof fn lemma_forget<F>(s: System<F>, reader: nat)
    requires
        s.inv(),
        s.enabled(Event::Forget { reader }),
    ensures
        s.after(Event::Forget { reader }).inv(),
{
    let post = s.after(Event::Forget { reader });
    assert(post.readers.dom() =~= s.readers.dom());
    lemma_same_pins(s, post);
    lemma_same_passes(s, post);
}

/// What is said of published pins does not depend on what became of their guards.
proof fn lemma_same_pins<F>(s: System<F>, post: System<F>)
    requires
        s.readers_inv(),
        post.id == s.id,
        post.fresh == s.fresh,
        post.registry == s.registry,
        post.owners == s.owners,
        post.readers.dom() == s.readers.dom(),
        forall|k: nat| #[trigger]
            post.readers.contains_key(k) ==> post.readers[k] == (Reader {
                hold: post.readers[k].hold,
                ..s.readers[k]
            }) && (post.readers[k].domain == post.id && post.readers[k].hold !is Outlived
                ==> post.readers[k].epoch <= post.epoch),
    ensures
        post.readers_inv(),
{
    assert forall|k: nat| #[trigger] post.readers.contains_key(k) == s.readers.contains_key(k) by {
        assert(post.readers.dom().contains(k) == s.readers.dom().contains(k));
    }
    assert forall|k: nat| #[trigger] post.readers.contains_key(k) implies {
        let r = post.readers[k];
        &&& 1 <= r.epoch <= MAX_EPOCH
        &&& 0 <= r.slot < post.registry.active()
    } by {
        assert(s.readers.contains_key(k));
    }
    assert forall|i: int| 0 <= i < MAX_THREADS implies (#[trigger] post.registry.slots[i]).wildcard
        == wildcards_in(post.readers, i).len() by {
        assert(wildcards_in(post.readers, i) =~= wildcards_in(s.readers, i)) by {
            assert forall|k: nat|
                wildcards_in(post.readers, i).contains(k) == wildcards_in(s.readers, i).contains(
                    k,
                ) by {
                assert(post.readers.contains_key(k) == s.readers.contains_key(k));
            }
        }
    }
}

proof fn lemma_begin_retire<F>(s: System<F>)
    requires
        s.inv(),
    ensures
        s.after(Event::BeginRetire).inv(),
{
    let post = s.after(Event::BeginRetire);
    assert forall|w: nat, k: nat|
        post.retiring.contains_key(w) && #[trigger] post.retiring[w].older.contains(k) implies k
        < post.fresh by {
        if w != s.fresh {
            assert(s.retiring[w].older.contains(k));
        } else {
            assert(s.readers.contains_key(k));
        }
    }
    assert forall|w: nat, k: nat|
        post.retiring.contains_key(w) && #[trigger] post.retiring[w].older.contains(k)
            && post.readers.contains_key(k) && post.readers[k].domain == post.id implies
            post.readers[k].epoch <= post.retiring[w].epoch by {
        if w != s.fresh {
            assert(s.retiring[w].older.contains(k));
        }
    }
    lemma_same_passes(s, post);
}

proof fn lemma_enqueue<F>(s: System<F>, retiring: nat, run: F)
    requires
        s.inv(),
        s.enabled(Event::Enqueue { retiring, run }),
    ensures
        s.after(Event::Enqueue { retiring, run }).inv(),
{
    let post = s.after(Event::Enqueue { retiring, run });
    let w = s.retiring[retiring];
    assert forall|q: u64, k: nat|
        post.older.contains_key(q) && #[trigger] post.older[q].contains(k) implies k
        < post.fresh by {
        if q == s.next_sequence {
            assert(s.retiring[retiring].older.contains(k));
        } else {
            assert(s.older[q].contains(k));
        }
    }
    assert forall|u: nat, k: nat|
        post.retiring.contains_key(u) && #[trigger] post.retiring[u].older.contains(k) implies k
        < post.fresh && (post.readers.contains_key(k) && post.readers[k].domain == post.id
        ==> post.readers[k].epoch <= post.retiring[u].epoch) by {
        assert(s.retiring[u].older.contains(k));
    }
    assert forall|q: u64| q < post.next_sequence implies #[trigger] post.older.contains_key(q) by {
        if q != s.next_sequence {
            assert(s.older.contains_key(q));
        }
    }
    assert forall|i: int, k: nat|
        0 <= i < post.queue.len() && #[trigger] post.still_read(post.queue[i].sequence, k) implies
            post.readers[k].epoch <= post.queue[i].epoch by {
        if i < s.queue.len() {
            assert(post.queue[i] == s.queue[i]);
            assert(s.queue[i].sequence < s.next_sequence);
            assert(s.still_read(s.queue[i].sequence, k));
        } else {
            assert(s.retiring[retiring].older.contains(k));
        }
    }
    assert forall|p: nat| #[trigger] post.passes.contains_key(p) implies post.pass_inv(
        post.passes[p],
    ) by {
        assert(s.pass_inv(s.passes[p]));
        match post.passes[p] {
            Pass::Reading { scan, leased, pos } => {
                assert forall|i: int, k: nat|
                    0 <= i < post.queue.len() && post.queue[i].sequence < scan.cutoff
                        && #[trigger] post.still_read(post.queue[i].sequence, k) implies {
                    &&& post.readers[k].slot < leased
                    &&& word_of(post.readers[k]) < pos ==> post.readers[k].entry != WILDCARD
                        && scan.min_pinned <= post.readers[k].epoch
                } by {
                    assert(i < s.queue.len());
                    assert(post.queue[i] == s.queue[i]);
                    assert(s.still_read(s.queue[i].sequence, k));
                }
            },
            Pass::Running { now, batch } => {
                assert forall|i: int, k: nat| 0 <= i < batch.len() implies !#[trigger] post.still_read(
                    batch[i].sequence,
                    k,
                ) by {
                    assert(batch[i].sequence < s.next_sequence);
                    assert(!s.still_read(batch[i].sequence, k));
                }
            },
            _ => {},
        }
    }
}

/// A step of one pass that leaves everything but that pass alone.
proof fn lemma_one_pass<F>(s: System<F>, post: System<F>, pass: nat)
    requires
        s.inv(),
        s.passes.contains_key(pass),
        post == (System { passes: post.passes, ..s }),
        post.passes == s.passes.remove(pass) || (post.passes == s.passes.insert(
            pass,
            post.passes[pass],
        ) && s.pass_inv(post.passes[pass])),
    ensures
        post.inv(),
{
    assert forall|q: u64, k: nat| post.still_read(q, k) == s.still_read(q, k) by {}
    assert forall|p: nat| #[trigger] post.passes.contains_key(p) implies post.pass_inv(
        post.passes[p],
    ) by {
        assert(s.pass_inv(post.passes[p]));
        lemma_same_view_of_pass(s, post, post.passes[p]);
    }
    assert forall|i: int, k: nat|
        0 <= i < post.queue.len() && #[trigger] post.still_read(post.queue[i].sequence, k) implies
            post.readers[k].epoch <= post.queue[i].epoch by {
        assert(s.still_read(s.queue[i].sequence, k));
    }
}

/// What a pass relies on does not depend on the other passes.
proof fn lemma_same_view_of_pass<F>(s: System<F>, post: System<F>, pass: Pass<F>)
    requires
        s.pass_inv(pass),
        post.id == s.id,
        post.epoch >= s.epoch,
        post.queue == s.queue,
        post.next_sequence == s.next_sequence,
        post.older == s.older,
        post.readers == s.readers,
    ensures
        post.pass_inv(pass),
{
    match pass {
        Pass::Reading { scan, leased, pos } => {
            assert forall|i: int, k: nat|
                0 <= i < post.queue.len() && post.queue[i].sequence < scan.cutoff
                    && #[trigger] post.still_read(post.queue[i].sequence, k) implies {
                &&& post.readers[k].slot < leased
                &&& word_of(post.readers[k]) < pos ==> post.readers[k].entry != WILDCARD
                    && scan.min_pinned <= post.readers[k].epoch
            } by {
                assert(s.still_read(s.queue[i].sequence, k));
            }
        },
        Pass::Running { now, batch } => {
            assert forall|i: int, k: nat| 0 <= i < batch.len() implies !#[trigger] post.still_read(
                batch[i].sequence,
                k,
            ) by {
                assert(!s.still_read(batch[i].sequence, k));
            }
        },
        _ => {},
    }
}

proof fn lemma_begin_pass<F>(s: System<F>)
    requires
        s.inv(),
        s.enabled(Event::BeginPass),
    ensures
        s.after(Event::BeginPass).inv(),
{
    let post = s.after(Event::BeginPass);
    assert forall|p: nat| #[trigger] post.passes.contains_key(p) implies post.pass_inv(
        post.passes[p],
    ) by {
        if p != s.fresh {
            assert(s.pass_inv(s.passes[p]));
            lemma_same_view_of_pass(s, post, s.passes[p]);
        }
    }
    assert forall|i: int, k: nat|
        0 <= i < post.queue.len() && #[trigger] post.still_read(post.queue[i].sequence, k) implies
            post.readers[k].epoch <= post.queue[i].epoch by {
        assert(s.still_read(s.queue[i].sequence, k));
    }
}

proof fn lemma_sample_bound<F>(s: System<F>, pass: nat)
    requires
        s.inv(),
        s.enabled(Event::SampleBound { pass }),
    ensures
        s.after(Event::SampleBound { pass }).inv(),
{
    let post = s.after(Event::SampleBound { pass });
    assert(s.pass_inv(s.passes[pass]));
    assert forall|k: nat| s.readers.contains_key(k) implies word_of(#[trigger] s.readers[k])
        >= 0 by {}
    assert(s.pass_inv(post.passes[pass]));
    lemma_one_pass(s, post, pass);
}

/// Reading a matching word leaves the bound at or below its epoch.
proof fn lemma_oldest_in_one(word: u64, id: u64, bound: int)
    requires
        0 <= bound,
    ensures
        oldest_in(seq![word], id, bound) <= bound,
        0 <= oldest_in(seq![word], id, bound),
        crate::pins::word_matches(word, id) ==> oldest_in(seq![word], id, bound)
            <= crate::pins::word_epoch(word),
{
    assert(seq![word].drop_last() =~= Seq::<u64>::empty());
    assert(seq![word].last() == word);
    reveal_with_fuel(oldest_in, 2);
}

proof fn lemma_read_word<F>(s: System<F>, pass: nat)
    requires
        s.inv(),
        s.enabled(Event::ReadWord { pass }),
    ensures
        s.after(Event::ReadWord { pass }).inv(),
{
    let post = s.after(Event::ReadWord { pass });
    assert(s.pass_inv(s.passes[pass]));
    let scan = s.passes[pass]->Reading_scan;
    let leased = s.passes[pass]->leased;
    let pos = s.passes[pass]->pos;
    let index = pos / words_per_slot();
    let slot = s.registry.slots[index];
    let word = pos % words_per_slot();
    assert(0 <= index < leased);
    if word == 0 && slot.wildcard != 0 {
        lemma_one_pass(s, post, pass);
    } else {
        let seen = post.passes[pass]->Reading_scan;
        if word != 0 {
            lemma_oldest_in_one(slot.pins[word - 1], scan.id, scan.min_pinned as int);
        }
        assert forall|i: int, k: nat|
            0 <= i < s.queue.len() && s.queue[i].sequence < seen.cutoff && #[trigger] s.still_read(
                s.queue[i].sequence,
                k,
            ) implies {
            &&& s.readers[k].slot < leased
            &&& word_of(s.readers[k]) < pos + 1 ==> s.readers[k].entry != WILDCARD
                && seen.min_pinned <= s.readers[k].epoch
        } by {
            let r = s.readers[k];
            assert(s.readers.contains_key(k));
            if word_of(r) == pos {
                assert(r.slot == index && word == (if r.entry == WILDCARD {
                    0
                } else {
                    r.entry + 1
                }));
                if r.entry == WILDCARD {
                    assert(wildcards_in(s.readers, r.slot).contains(k));
                    assert(slot.wildcard == wildcards_in(s.readers, r.slot).len());
                } else {
                    law_pin_word_round_trip(r.epoch, r.domain, slot.pins[r.entry as int]);
                }
            }
        }
        assert(s.pass_inv(post.passes[pass]));
        lemma_one_pass(s, post, pass);
    }
}

proof fn lemma_extract<F>(s: System<F>, pass: nat, limit: int)
    requires
        s.inv(),
        s.enabled(Event::Extract { pass, limit }),
    ensures
        s.after(Event::Extract { pass, limit }).inv(),
{
    let post = s.after(Event::Extract { pass, limit });
    assert(s.pass_inv(s.passes[pass]));
    let scan = s.passes[pass]->Reading_scan;
    let leased = s.passes[pass]->leased;
    let pos = s.passes[pass]->pos;
    let batch = taken_out(s.queue, scan, limit);
    lemma_taken_out_was_queued(s.queue, scan, limit);
    lemma_left_over_was_queued(s.queue, scan, limit);
    assert forall|q: u64, k: nat| post.still_read(q, k) == s.still_read(q, k) by {}
    // Every reader that predates an extracted retirement was read, and would
    // have held it back.
    assert forall|i: int, k: nat| 0 <= i < batch.len() implies !#[trigger] post.still_read(
        batch[i].sequence,
        k,
    ) by {
        assert(s.queue.contains(batch[i]) && covers(scan, batch[i]));
        let j = choose|j: int| 0 <= j < s.queue.len() && s.queue[j] == batch[i];
        if s.still_read(s.queue[j].sequence, k) {
            let r = s.readers[k];
            assert(s.readers.contains_key(k));
            assert(r.slot < leased);
            assert(word_of(r) < pos);
            assert(r.epoch <= s.queue[j].epoch);
        }
    }
    assert(numbered_below(batch, s.next_sequence)) by {
        assert forall|i: int| 0 <= i < batch.len() implies (#[trigger] batch[i]).sequence
            < s.next_sequence by {
            assert(s.queue.contains(batch[i]));
            let j = choose|j: int| 0 <= j < s.queue.len() && s.queue[j] == batch[i];
        }
    }
    assert(numbered_below(post.queue, post.next_sequence)) by {
        assert forall|i: int| 0 <= i < post.queue.len() implies (#[trigger] post.queue[i]).sequence
            < s.next_sequence by {
            assert(s.queue.contains(post.queue[i]));
            let j = choose|j: int| 0 <= j < s.queue.len() && s.queue[j] == post.queue[i];
        }
    }
    assert forall|i: int, k: nat|
        0 <= i < post.queue.len() && #[trigger] post.still_read(post.queue[i].sequence, k) implies
            post.readers[k].epoch <= post.queue[i].epoch by {
        assert(s.queue.contains(post.queue[i]));
        let j = choose|j: int| 0 <= j < s.queue.len() && s.queue[j] == post.queue[i];
        assert(s.still_read(s.queue[j].sequence, k));
    }
    assert forall|p: nat| #[trigger] post.passes.contains_key(p) implies post.pass_inv(
        post.passes[p],
    ) by {
        if p != pass {
            assert(s.pass_inv(s.passes[p]));
            match post.passes[p] {
                Pass::Reading { scan: other, leased: l, pos: at } => {
                    assert forall|i: int, k: nat|
                        0 <= i < post.queue.len() && post.queue[i].sequence < other.cutoff
                            && #[trigger] post.still_read(post.queue[i].sequence, k) implies {
                        &&& post.readers[k].slot < l
                        &&& word_of(post.readers[k]) < at ==> post.readers[k].entry != WILDCARD
                            && other.min_pinned <= post.readers[k].epoch
                    } by {
                        assert(s.queue.contains(post.queue[i]));
                        let j = choose|j: int| 0 <= j < s.queue.len() && s.queue[j] == post.queue[i];
                        assert(s.still_read(s.queue[j].sequence, k));
                    }
                },
                Pass::Running { now, batch: b } => {
                    assert forall|i: int, k: nat| 0 <= i < b.len() implies !#[trigger] post.still_read(
                        b[i].sequence,
                        k,
                    ) by {
                        assert(!s.still_read(b[i].sequence, k));
                    }
                },
                _ => {},
            }
        }
    }
}

proof fn lemma_run_one<F>(s: System<F>, pass: nat)
    requires
        s.inv(),
        s.enabled(Event::RunOne { pass }),
    ensures
        s.after(Event::RunOne { pass }).inv(),
{
    let post = s.after(Event::RunOne { pass });
    assert(s.pass_inv(s.passes[pass]));
    let batch = s.passes[pass]->batch;
    let rest = batch.skip(1);
    assert forall|i: int, k: nat| 0 <= i < rest.len() implies !#[trigger] s.still_read(
        rest[i].sequence,
        k,
    ) by {
        assert(rest[i] == batch[i + 1]);
        assert(!s.still_read(batch[i + 1].sequence, k));
    }
    assert(s.pass_inv(post.passes[pass]));
    lemma_one_pass(s, post, pass);
}

proof fn lemma_requeue<F>(s: System<F>, pass: nat)
    requires
        s.inv(),
        s.enabled(Event::Requeue { pass }),
    ensures
        s.after(Event::Requeue { pass }).inv(),
{
    let post = s.after(Event::Requeue { pass });
    assert(s.pass_inv(s.passes[pass]));
    let batch = s.passes[pass]->batch;
    assert forall|q: u64, k: nat| post.still_read(q, k) == s.still_read(q, k) by {}
    assert forall|i: int, k: nat|
        0 <= i < post.queue.len() && #[trigger] post.still_read(
            post.queue[i].sequence,
            k,
        ) implies i < s.queue.len() && s.still_read(s.queue[i].sequence, k) by {
        if i >= s.queue.len() {
            assert(post.queue[i] == batch[i - s.queue.len()]);
            assert(!s.still_read(batch[i - s.queue.len()].sequence, k));
        }
    }
    assert(numbered_below(post.queue, post.next_sequence)) by {
        assert forall|i: int| 0 <= i < post.queue.len() implies (#[trigger] post.queue[i]).sequence
            < s.next_sequence by {
            if i >= s.queue.len() {
                assert(post.queue[i] == batch[i - s.queue.len()]);
            }
        }
    }
    assert forall|p: nat| #[trigger] post.passes.contains_key(p) implies post.pass_inv(
        post.passes[p],
    ) by {
        assert(s.pass_inv(s.passes[p]));
        match post.passes[p] {
            Pass::Reading { scan, leased, pos } => {
                assert forall|i: int, k: nat|
                    0 <= i < post.queue.len() && post.queue[i].sequence < scan.cutoff
                        && #[trigger] post.still_read(post.queue[i].sequence, k) implies {
                    &&& post.readers[k].slot < leased
                    &&& word_of(post.readers[k]) < pos ==> post.readers[k].entry != WILDCARD
                        && scan.min_pinned <= post.readers[k].epoch
                } by {
                    assert(i < s.queue.len() && s.still_read(s.queue[i].sequence, k));
                }
            },
            Pass::Running { now, batch: b } => {
                assert forall|i: int, k: nat| 0 <= i < b.len() implies !#[trigger] post.still_read(
                    b[i].sequence,
                    k,
                ) by {
                    assert(!s.still_read(b[i].sequence, k));
                }
            },
            _ => {},
        }
    }
}

proof fn lemma_finish<F>(s: System<F>, pass: nat)
    requires
        s.inv(),
        s.enabled(Event::Finish { pass }),
    ensures
        s.after(Event::Finish { pass }).inv(),
{
    let post = s.after(Event::Finish { pass });
    let mid = System { passes: post.passes, ..s };
    lemma_one_pass(s, mid, pass);
    lemma_same_passes(mid, post);
}

proof fn lemma_renew<F>(s: System<F>)
    requires
        s.inv(),
        s.enabled(Event::Renew),
    ensures
        s.after(Event::Renew).inv(),
{
    let post = s.after(Event::Renew);
    assert forall|w: nat| !#[trigger] post.retiring.contains_key(w) by {
        assert(!s.retiring.dom().contains(w));
    }
    assert forall|p: nat| !#[trigger] post.passes.contains_key(p) by {
        assert(!s.passes.dom().contains(p));
    }
    assert forall|i: int| 0 <= i < post.queue.len() implies (#[trigger] post.queue[i]).sequence
        < post.next_sequence by {
        assert(post.queue[i].sequence == s.queue[i].sequence);
    }
    assert forall|p: nat| #[trigger] post.pinning.contains_key(p) implies post.pinning[p].domain
        != post.id by {
        assert(s.pinning[p].domain != s.id);
    }
    assert(post.readers.dom() =~= s.readers.dom());
    lemma_same_pins(s, post);
    assert forall|q: u64, k: nat| !#[trigger] post.still_read(q, k) by {}
}

/// Every step keeps the invariant.
pub proof fn lemma_step_keeps_inv<F>(s: System<F>, ev: Event<F>)
    requires
        s.inv(),
        s.enabled(ev),
    ensures
        s.after(ev).inv(),
{
    match ev {
        Event::Register => lemma_register(s),
        Event::Unregister { owner } => lemma_unregister(s, owner),
        Event::SamplePin { owner, domain, epoch } => lemma_sample_pin(s, owner, domain, epoch),
        Event::Publish { pinning } => lemma_publish(s, pinning),
        Event::Unpin { reader, local } => lemma_unpin(s, reader, local),
        Event::Forget { reader } => lemma_forget(s, reader),
        Event::BeginRetire => lemma_begin_retire(s),
        Event::Enqueue { retiring, run } => lemma_enqueue(s, retiring, run),
        Event::BeginPass => lemma_begin_pass(s),
        Event::SampleEpoch { pass } => {
            assert(s.pass_inv(s.passes[pass]));
            lemma_one_pass(s, s.after(ev), pass);
        },
        Event::SampleBound { pass } => lemma_sample_bound(s, pass),
        Event::ReadWord { pass } => lemma_read_word(s, pass),
        Event::Extract { pass, limit } => lemma_extract(s, pass, limit),
        Event::RunOne { pass } => lemma_run_one(s, pass),
        Event::Requeue { pass } => lemma_requeue(s, pass),
        Event::Finish { pass } => lemma_finish(s, pass),
        Event::Renew => lemma_renew(s),
    }
}

/// The state reached by taking these steps one after the other.
pub open spec fn reached<F>(s: System<F>, events: Seq<Event<F>>) -> System<F>
    decreases events.len(),
{
    if events.len() == 0 {
        s
    } else {
        reached(s, events.drop_last()).after(events.last())
    }
}

/// Whether these steps can be taken one after the other.
pub open spec fn possible<F>(s: System<F>, events: Seq<Event<F>>) -> bool
    decreases events.len(),
{
    events.len() > 0 ==> possible(s, events.drop_last()) && reached(
        s,
        events.drop_last(),
    ).enabled(events.last())
}

/// The invariant holds in every state that can be reached.
pub proof fn lemma_reached_inv<F>(s: System<F>, events: Seq<Event<F>>)
    requires
        s.initial(),
        possible(s, events),
    ensures
        reached(s, events).inv(),
    decreases events.len(),
{
    if events.len() == 0 {
        lemma_initial_inv(s);
    } else {
        lemma_reached_inv(s, events.drop_last());
        lemma_step_keeps_inv(reached(s, events.drop_last()), events.last());
    }
}

/// A retirement does not run while a reader that predates it is live.
///
/// In every interleaving of any number of readers, writers, reclaimers and
/// registrations, whenever a reclaimer is about to run a callback, every reader of
/// the domain whose guard was live when that callback was retired has released
/// its guard. It does not matter which slot the reader pinned through, whether it
/// pinned through the wildcard, whether its registration is gone, or how often the
/// callback was requeued. A guard that was forgotten protects like a live one,
/// until exclusive maintenance renews its domain.
pub proof fn law_no_retirement_runs_under_an_older_reader<F>(
    start: System<F>,
    events: Seq<Event<F>>,
    pass: nat,
    reader: nat,
)
    requires
        start.initial(),
        possible(start, events),
        reached(start, events).enabled(Event::RunOne { pass }),
    ensures
        !reached(start, events).still_read(
            reached(start, events).passes[pass]->batch[0].sequence,
            reader,
        ),
{
    let s = reached(start, events);
    lemma_reached_inv(start, events);
    assert(s.pass_inv(s.passes[pass]));
    let batch = s.passes[pass]->batch;
    assert(!s.still_read(batch[0].sequence, reader));
}

/// A reader stays visible: from the moment its pin is published until it is
/// withdrawn, the word that names its epoch and domain, or a wildcard count
/// that takes it in, stands in a slot every later scan reads. A forgotten guard's
/// pin is never withdrawn, by renewal either.
pub proof fn law_a_live_reader_stays_published<F>(
    start: System<F>,
    events: Seq<Event<F>>,
    reader: nat,
)
    requires
        start.initial(),
        possible(start, events),
        reached(start, events).readers.contains_key(reader),
    ensures
        ({
            let s = reached(start, events);
            let r = s.readers[reader];
            let slot = s.registry.slots[r.slot];
            &&& 0 <= r.slot < s.registry.active()
            &&& r.entry == WILDCARD ==> slot.wildcard != 0
            &&& r.entry != WILDCARD ==> slot.pins[r.entry as int] == pin_word(
                r.epoch as int,
                r.domain as int,
            )
        }),
{
    let s = reached(start, events);
    lemma_reached_inv(start, events);
    let r = s.readers[reader];
    if r.entry == WILDCARD {
        assert(wildcards_in(s.readers, r.slot).contains(reader));
        assert(s.registry.slots[r.slot].wildcard == wildcards_in(s.readers, r.slot).len());
    }
}

/// No two live registrations own one exclusive slot, and no slot is handed to a
/// registration while a guard of an earlier one is still published in it.
pub proof fn law_exclusive_slots_are_never_shared<F>(
    start: System<F>,
    events: Seq<Event<F>>,
    owner: nat,
)
    requires
        start.initial(),
        possible(start, events),
        reached(start, events).owners.contains_key(owner),
        !reached(start, events).owners[owner].shared,
    ensures
        ({
            let s = reached(start, events);
            &&& forall|other: nat|
                #[trigger] s.owners.contains_key(other) && other != owner
                    && !s.owners[other].shared ==> s.owners[other].slot != s.owners[owner].slot
            &&& forall|k: nat|
                #[trigger] s.readers.contains_key(k) && s.readers[k].slot == s.owners[owner].slot
                    ==> s.readers[k].owner == owner
        }),
{
    lemma_reached_inv(start, events);
}

/// A registration's occupancy mask is exact, not a hint: an entry is recorded as
/// taken if and only if its slot publishes a pin there, whatever order guards are
/// released in.
pub proof fn law_occupancy_is_exact<F>(
    start: System<F>,
    events: Seq<Event<F>>,
    owner: nat,
    entry: int,
)
    requires
        start.initial(),
        possible(start, events),
        reached(start, events).owners.contains_key(owner),
        !reached(start, events).owners[owner].shared,
        0 <= entry < PINS_PER_THREAD,
    ensures
        ({
            let s = reached(start, events);
            let o = s.owners[owner];
            occupied(o.mask, entry) <==> s.registry.slots[o.slot].pins[entry] != NO_DOMAIN
        }),
{
    let s = reached(start, events);
    lemma_reached_inv(start, events);
    assert(occupied(s.owners[owner].mask, entry) == (
    s.registry.slots[s.owners[owner].slot].pins[entry] != NO_DOMAIN));
}

/// Reading never reclaims: no step of a reader takes anything out of the queue,
/// runs a callback or moves the epoch.
pub proof fn law_reads_reclaim_nothing<F>(s: System<F>, ev: Event<F>)
    requires
        s.enabled(ev),
        ev is SamplePin || ev is Publish || ev is Unpin || ev is Forget || ev is Register
            || ev is Unregister,
    ensures
        s.after(ev).queue == s.queue,
        s.after(ev).passes == s.passes,
        s.after(ev).epoch == s.epoch,
{
}

} // verus!
