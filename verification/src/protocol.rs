//! Every interleaving of readers, writers and reclaimers.
//!
//! Registrations, readers, writers and reclaimers of one domain run side by
//! side, each as a series of steps on what they share: a word of a slot, the
//! epoch, the retirement queue. Any step of one may fall between two steps of
//! another. This module states what such an execution is, step by step, over the
//! same functions the executable operations are specified with.
//!
//! Steps take effect one at a time, in one order that everybody agrees on.
//! `Publish` is the moment a pin becomes visible to every reclaimer. A concurrent
//! front end owes the fence that puts this moment before the reader's first
//! protected load, and the one that puts a reclaimer's cutoff before its reads.
use vstd::prelude::*;

use crate::domain::next_epoch;
use crate::garbage::{aged, left_over, taken_out, Retirement};
use crate::pins::{mask_without, next_entry, pin_word, MAX_EPOCH, PINS_PER_THREAD, WILDCARD};
use crate::registry::{claimed_mask, RegistryView, MAX_THREADS};
use crate::scan::{oldest_in, Scan};

verus! {

/// A live registration: its slot, and the entries it has taken.
pub ghost struct Owner {
    pub slot: int,
    pub shared: bool,
    pub mask: u8,
}

/// A reader that has sampled an epoch but not published its pin yet.
pub ghost struct Pinning {
    pub owner: nat,
    pub domain: u64,
    pub epoch: u64,
}

/// What has become of a guard whose pin is still published.
pub ghost enum Hold {
    /// It is live.
    Guarded,
    /// It was forgotten without being released: its pin stays, and protects.
    Forgotten,
    /// It was forgotten, and its domain has been renewed since: its pin stays, but
    /// counts for nothing that is retired in that domain.
    Outlived,
}

/// A guard whose pin is published.
pub ghost struct Reader {
    pub owner: nat,
    pub domain: u64,
    pub epoch: u64,
    pub slot: int,
    pub entry: usize,
    pub hold: Hold,
}

/// A writer that has sampled an epoch but not queued its retirement yet.
pub ghost struct Retiring {
    pub epoch: u64,
    /// The readers of the domain when the retirement began.
    pub older: Set<nat>,
}

/// How far one reclamation pass has come.
pub ghost enum Pass<F> {
    /// The cutoff is taken.
    Begun { cutoff: u64 },
    /// The epoch is sampled.
    Sampled { scan: Scan },
    /// The number of slots is sampled, and `pos` words of them are read.
    Reading { scan: Scan, leased: int, pos: int },
    /// What may run is taken out; what has not run yet is left in `batch`.
    Running { now: u64, batch: Seq<Retirement<F>> },
}

/// What readers, writers and reclaimers of the domain `id` share, and how far
/// each of them has come.
#[verifier::reject_recursive_types(F)]
pub ghost struct System<F> {
    pub registry: RegistryView,
    pub id: u64,
    pub epoch: u64,
    pub queue: Seq<Retirement<F>>,
    pub next_sequence: u64,
    /// Names not used yet.
    pub fresh: nat,
    pub owners: Map<nat, Owner>,
    pub pinning: Map<nat, Pinning>,
    pub readers: Map<nat, Reader>,
    pub retiring: Map<nat, Retiring>,
    pub passes: Map<nat, Pass<F>>,
    /// For each retirement, by sequence number, the readers that predate it.
    pub older: Map<u64, Set<nat>>,
}

/// One step of one participant.
pub ghost enum Event<F> {
    /// A registration takes a slot.
    Register,
    /// A registration gives its slot back, with or without guards outstanding.
    Unregister { owner: nat },
    /// A reader samples the epoch of the domain it is about to pin.
    SamplePin { owner: nat, domain: u64, epoch: u64 },
    /// A reader publishes its pin.
    Publish { pinning: nat },
    /// A reader withdraws its pin. `local` is the registration its thread has
    /// now, if any.
    Unpin { reader: nat, local: Option<nat> },
    /// A reader forgets its guard, which leaves the pin published for good.
    Forget { reader: nat },
    /// A writer that has unlinked something samples the epoch.
    BeginRetire,
    /// A writer queues its retirement.
    Enqueue { retiring: nat, run: F },
    /// A reclaimer finds garbage and takes its cutoff.
    BeginPass,
    /// A reclaimer samples the epoch.
    SampleEpoch { pass: nat },
    /// A reclaimer samples how many slots were ever handed out.
    SampleBound { pass: nat },
    /// A reclaimer reads one more word.
    ReadWord { pass: nat },
    /// A reclaimer that has read every word takes out what may run.
    Extract { pass: nat, limit: int },
    /// A reclaimer runs one callback.
    RunOne { pass: nat },
    /// A callback unwound: what has not run goes back to the queue.
    Requeue { pass: nat },
    /// A reclaimer that has run everything tries to advance the epoch.
    Finish { pass: nat },
    /// Exclusive maintenance renews the epoch. No guard of the domain is live, but
    /// some may have been forgotten.
    Renew,
}

/// Words read per slot: the wildcard count, then the entries.
pub open spec fn words_per_slot() -> int {
    PINS_PER_THREAD + 1
}

/// The word that publishes this reader, in the order a reclaimer reads them.
pub open spec fn word_of(r: Reader) -> int {
    r.slot * words_per_slot() + if r.entry == WILDCARD {
        0
    } else {
        r.entry + 1
    }
}

/// The readers pinned through the wildcard of one slot.
pub open spec fn wildcards_in(readers: Map<nat, Reader>, slot: int) -> Set<nat> {
    readers.dom().filter(|k: nat| readers[k].slot == slot && readers[k].entry == WILDCARD)
}

/// The readers that a domain owes protection to: those whose guards are live, and
/// those who forgot their guards since it was last renewed.
pub open spec fn readers_of(readers: Map<nat, Reader>, id: u64) -> Set<nat> {
    readers.dom().filter(|k: nat| readers[k].domain == id && readers[k].hold !is Outlived)
}

/// The readers once the domain is renewed.
pub open spec fn outlived(readers: Map<nat, Reader>, id: u64) -> Map<nat, Reader> {
    readers.map_values(
        |r: Reader|
            if r.domain == id {
                Reader { hold: Hold::Outlived, ..r }
            } else {
                r
            },
    )
}

impl<F> System<F> {
    /// A domain that was just created, with a registry nobody has used.
    pub open spec fn initial(self) -> bool {
        &&& self.registry.wf()
        &&& self.registry.next == 0
        &&& forall|i: int| 0 <= i < MAX_THREADS ==> (#[trigger] self.registry.slots[i]).idle()
        &&& self.epoch == 1
        &&& self.queue.len() == 0
        &&& self.next_sequence == 0
        &&& self.owners == Map::<nat, Owner>::empty()
        &&& self.pinning == Map::<nat, Pinning>::empty()
        &&& self.readers == Map::<nat, Reader>::empty()
        &&& self.retiring == Map::<nat, Retiring>::empty()
        &&& self.passes == Map::<nat, Pass<F>>::empty()
        &&& self.older == Map::<u64, Set<nat>>::empty()
    }

    /// The registration that a reader publishes through.
    pub open spec fn owner_of_pin(self, p: nat) -> Owner {
        self.owners[self.pinning[p].owner]
    }

    /// The entry a reader is about to publish through.
    pub open spec fn entry_of_pin(self, p: nat) -> usize {
        next_entry(self.owner_of_pin(p).shared, self.owner_of_pin(p).mask)
    }

    /// No guard of the domain is live.
    pub open spec fn unguarded(self) -> bool {
        forall|k: nat| #[trigger]
            self.readers.contains_key(k) && self.readers[k].domain == self.id
                ==> self.readers[k].hold !is Guarded
    }

    /// Whether a step can be taken.
    pub open spec fn enabled(self, ev: Event<F>) -> bool {
        match ev {
            Event::Register => true,
            Event::Unregister { owner } => {
                &&& self.owners.contains_key(owner)
                // A registration is used by one thread, which is not pinning.
                &&& forall|p: nat|
                    self.pinning.contains_key(p) ==> (#[trigger] self.pinning[p]).owner != owner
            },
            Event::SamplePin { owner, domain, epoch } => {
                &&& self.owners.contains_key(owner)
                &&& 1 <= epoch <= MAX_EPOCH
                &&& domain == self.id ==> epoch == self.epoch
            },
            Event::Publish { pinning } => {
                &&& self.pinning.contains_key(pinning)
                // A count of 64 bits is never used up.
                &&& self.registry.slots[self.owner_of_pin(pinning).slot].wildcard < u64::MAX
            },
            Event::Unpin { reader, local } => {
                &&& self.readers.contains_key(reader)
                &&& self.readers[reader].hold is Guarded
                &&& local matches Some(o) ==> self.owners.contains_key(o)
                // A guard stays on its thread, which has the guard's own
                // registration for as long as that lives.
                &&& self.owners.contains_key(self.readers[reader].owner) ==> local == Some(
                    self.readers[reader].owner,
                )
            },
            Event::Forget { reader } => {
                &&& self.readers.contains_key(reader)
                &&& self.readers[reader].hold is Guarded
            },
            Event::BeginRetire => true,
            Event::Enqueue { retiring, run } => {
                &&& self.retiring.contains_key(retiring)
                &&& self.next_sequence < u64::MAX
            },
            Event::BeginPass => self.queue.len() > 0,
            Event::SampleEpoch { pass } => {
                &&& self.passes.contains_key(pass)
                &&& self.passes[pass] is Begun
            },
            Event::SampleBound { pass } => {
                &&& self.passes.contains_key(pass)
                &&& self.passes[pass] is Sampled
            },
            Event::ReadWord { pass } => {
                &&& self.passes.contains_key(pass)
                &&& self.passes[pass] matches Pass::Reading { scan, leased, pos }
                    && pos < leased * words_per_slot()
            },
            Event::Extract { pass, limit } => {
                &&& self.passes.contains_key(pass)
                &&& self.passes[pass] matches Pass::Reading { scan, leased, pos }
                    && pos == leased * words_per_slot()
            },
            Event::RunOne { pass } => {
                &&& self.passes.contains_key(pass)
                &&& self.passes[pass] matches Pass::Running { now, batch } && batch.len() > 0
            },
            Event::Requeue { pass } => {
                &&& self.passes.contains_key(pass)
                &&& self.passes[pass] is Running
            },
            Event::Finish { pass } => {
                &&& self.passes.contains_key(pass)
                &&& self.passes[pass] matches Pass::Running { now, batch } && batch.len() == 0
            },
            Event::Renew => {
                &&& self.unguarded()
                &&& forall|p: nat|
                    self.pinning.contains_key(p) ==> (#[trigger] self.pinning[p]).domain != self.id
                &&& self.retiring.dom() == Set::<nat>::empty()
                &&& self.passes.dom() == Set::<nat>::empty()
            },
        }
    }

    /// What a step does.
    pub open spec fn after(self, ev: Event<F>) -> System<F> {
        match ev {
            Event::Register => {
                let (slot, shared) = self.registry.acquire_result();
                System {
                    registry: self.registry.acquired(),
                    owners: self.owners.insert(
                        self.fresh,
                        Owner { slot: slot as int, shared, mask: 0 },
                    ),
                    fresh: self.fresh + 1,
                    ..self
                }
            },
            Event::Unregister { owner } => {
                let o = self.owners[owner];
                System {
                    registry: self.registry.released(o.slot as usize, o.shared),
                    owners: self.owners.remove(owner),
                    ..self
                }
            },
            Event::SamplePin { owner, domain, epoch } => {
                System {
                    pinning: self.pinning.insert(self.fresh, Pinning { owner, domain, epoch }),
                    fresh: self.fresh + 1,
                    ..self
                }
            },
            Event::Publish { pinning } => {
                let p = self.pinning[pinning];
                let o = self.owner_of_pin(pinning);
                let entry = self.entry_of_pin(pinning);
                let word = pin_word(p.epoch as int, p.domain as int) as u64;
                System {
                    registry: self.registry.pinned(o.slot, entry, word),
                    owners: self.owners.insert(
                        p.owner,
                        Owner { mask: claimed_mask(o.mask, entry), ..o },
                    ),
                    pinning: self.pinning.remove(pinning),
                    readers: self.readers.insert(
                        self.fresh,
                        Reader {
                            owner: p.owner,
                            domain: p.domain,
                            epoch: p.epoch,
                            slot: o.slot,
                            entry,
                            hold: Hold::Guarded,
                        },
                    ),
                    fresh: self.fresh + 1,
                    ..self
                }
            },
            Event::Unpin { reader, local } => {
                let r = self.readers[reader];
                let owners = match local {
                    Some(o) => if r.entry != WILDCARD && self.owners[o].slot == r.slot {
                        self.owners.insert(
                            o,
                            Owner {
                                mask: mask_without(self.owners[o].mask, r.entry as int),
                                ..self.owners[o]
                            },
                        )
                    } else {
                        self.owners
                    },
                    None => self.owners,
                };
                System {
                    registry: self.registry.unpinned_at(r.slot, r.entry),
                    owners,
                    readers: self.readers.remove(reader),
                    ..self
                }
            },
            Event::Forget { reader } => {
                System {
                    readers: self.readers.insert(
                        reader,
                        Reader { hold: Hold::Forgotten, ..self.readers[reader] },
                    ),
                    ..self
                }
            },
            Event::BeginRetire => {
                System {
                    retiring: self.retiring.insert(
                        self.fresh,
                        Retiring { epoch: self.epoch, older: readers_of(self.readers, self.id) },
                    ),
                    fresh: self.fresh + 1,
                    ..self
                }
            },
            Event::Enqueue { retiring, run } => {
                let w = self.retiring[retiring];
                System {
                    queue: self.queue.push(
                        Retirement { sequence: self.next_sequence, epoch: w.epoch, run },
                    ),
                    next_sequence: (self.next_sequence + 1) as u64,
                    older: self.older.insert(self.next_sequence, w.older),
                    retiring: self.retiring.remove(retiring),
                    ..self
                }
            },
            Event::BeginPass => {
                System {
                    passes: self.passes.insert(
                        self.fresh,
                        Pass::Begun { cutoff: self.next_sequence },
                    ),
                    fresh: self.fresh + 1,
                    ..self
                }
            },
            Event::SampleEpoch { pass } => {
                let scan = Scan {
                    id: self.id,
                    cutoff: self.passes[pass]->cutoff,
                    now: self.epoch,
                    min_pinned: (self.epoch + 1) as u64,
                };
                System { passes: self.passes.insert(pass, Pass::Sampled { scan }), ..self }
            },
            Event::SampleBound { pass } => {
                let scan = self.passes[pass]->Sampled_scan;
                System {
                    passes: self.passes.insert(
                        pass,
                        Pass::Reading { scan, leased: self.registry.active(), pos: 0 },
                    ),
                    ..self
                }
            },
            Event::ReadWord { pass } => {
                let scan = self.passes[pass]->Reading_scan;
                let leased = self.passes[pass]->leased;
                let pos = self.passes[pass]->pos;
                let slot = self.registry.slots[pos / words_per_slot()];
                let word = pos % words_per_slot();
                if word == 0 {
                    if slot.wildcard != 0 {
                        System { passes: self.passes.remove(pass), ..self }
                    } else {
                        System {
                            passes: self.passes.insert(
                                pass,
                                Pass::Reading { scan, leased, pos: pos + 1 },
                            ),
                            ..self
                        }
                    }
                } else {
                    let seen = scan.bounded(
                        oldest_in(seq![slot.pins[word - 1]], scan.id, scan.min_pinned as int),
                    );
                    System {
                        passes: self.passes.insert(
                            pass,
                            Pass::Reading { scan: seen, leased, pos: pos + 1 },
                        ),
                        ..self
                    }
                }
            },
            Event::Extract { pass, limit } => {
                let scan = self.passes[pass]->Reading_scan;
                System {
                    queue: left_over(self.queue, scan, limit),
                    passes: self.passes.insert(
                        pass,
                        Pass::Running { now: scan.now, batch: taken_out(self.queue, scan, limit) },
                    ),
                    ..self
                }
            },
            Event::RunOne { pass } => {
                System {
                    passes: self.passes.insert(
                        pass,
                        Pass::Running {
                            now: self.passes[pass]->now,
                            batch: self.passes[pass]->batch.skip(1),
                        },
                    ),
                    ..self
                }
            },
            Event::Requeue { pass } => {
                System {
                    queue: self.queue + self.passes[pass]->batch,
                    passes: self.passes.remove(pass),
                    ..self
                }
            },
            Event::Finish { pass } => {
                let now = self.passes[pass]->now;
                System {
                    epoch: if self.epoch == now {
                        next_epoch(now) as u64
                    } else {
                        self.epoch
                    },
                    passes: self.passes.remove(pass),
                    ..self
                }
            },
            Event::Renew => {
                System {
                    queue: aged(self.queue),
                    epoch: 1,
                    readers: outlived(self.readers, self.id),
                    ..self
                }
            },
        }
    }

    /// A reader of this domain that predates a retirement and has not released its
    /// guard. One that forgot its guard counts until the domain is renewed.
    pub open spec fn still_read(self, sequence: u64, k: nat) -> bool {
        &&& self.older[sequence].contains(k)
        &&& self.readers.contains_key(k)
        &&& self.readers[k].domain == self.id
        &&& self.readers[k].hold !is Outlived
    }
}

} // verus!
