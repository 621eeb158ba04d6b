//! Guards and caller-owned registrations.
use vstd::prelude::*;

use crate::local::{Local, SlotLease};
use crate::pins::{PINS_PER_THREAD, WILDCARD};
use crate::registry::{
    holds, mark_released, released_mask, Registry, RegistryView, MAX_THREADS,
};

verus! {

/// The low bits of a guard that name its pin entry.
pub const ENTRY_MASK: usize = 0b111;

/// How far the slot is shifted above the entry.
pub const ENTRY_BITS: u32 = 3;

/// The wildcard tag. Entries are stored as `entry + 1`, leaving zero free to
/// mean "no entry", which is what a pin past the last entry gets.
pub const WILDCARD_TAG: usize = 0;

/// Holds a thread's pin open, until it is released.
///
/// A guard is one word: the slot with its pin entry packed into the low bits. A
/// caller that returns one from a hot lookup pays for its size on every call.
#[must_use]
pub struct Guard {
    /// The slot, with this guard's pin entry in the low three bits.
    pub packed: usize,
}

/// The tag a guard stores for an entry.
pub open spec fn entry_tag(entry: usize) -> int {
    if entry == WILDCARD {
        WILDCARD_TAG as int
    } else {
        entry + 1
    }
}

impl Guard {
    /// The slot the guard pins through.
    pub open spec fn slot(self) -> int {
        self.packed as int / 8
    }

    /// The entry the guard pins through, which may be the wildcard.
    pub open spec fn held_entry(self) -> usize {
        if self.packed as int % 8 == WILDCARD_TAG {
            WILDCARD
        } else {
            (self.packed as int % 8 - 1) as usize
        }
    }

    /// Names a slot of the registry and one of its entries.
    pub open spec fn wf(self) -> bool {
        self.slot() < MAX_THREADS && self.packed as int % 8 <= PINS_PER_THREAD
    }

    /// Packs a slot and an entry.
    pub fn new(slot: usize, entry: usize) -> (g: Guard)
        requires
            slot < MAX_THREADS,
            entry == WILDCARD || entry < PINS_PER_THREAD,
        ensures
            g.wf(),
            g.packed == slot * 8 + entry_tag(entry),
            g.slot() == slot,
            g.held_entry() == entry,
    {
        let tag: usize = if entry == WILDCARD {
            WILDCARD_TAG
        } else {
            entry + 1
        };
        assert((slot << 3u32) | tag == slot * 8 + tag) by (bit_vector)
            requires
                slot < 256,
                tag < 8,
        ;
        Guard { packed: (slot << ENTRY_BITS) | tag }
    }

    /// The slot this guard pins through.
    pub fn participant(&self) -> (slot: usize)
        ensures
            slot == self.slot(),
    {
        let p: usize = self.packed;
        assert(p >> 3u32 == p / 8) by (bit_vector);
        self.packed >> ENTRY_BITS
    }

    /// This guard's pin entry, or `None` for the wildcard.
    pub fn entry(&self) -> (e: Option<usize>)
        ensures
            e == (if self.held_entry() == WILDCARD {
                None
            } else {
                Some(self.held_entry())
            }),
    {
        let p: usize = self.packed;
        assert(p & 0b111 == p % 8) by (bit_vector);
        let tag: usize = self.packed & ENTRY_MASK;
        if tag == WILDCARD_TAG {
            None
        } else {
            Some(tag - 1)
        }
    }

    /// Withdraws the pin of a guard whose thread has no cache any more.
    pub fn release_detached(self, registry: &mut Registry)
        requires
            self.wf(),
            old(registry).wf(),
            holds(old(registry)@.slots[self.slot()], self.held_entry()),
        ensures
            final(registry).wf(),
            final(registry)@ == old(registry)@.unpinned_at(self.slot(), self.held_entry()),
            final(registry).free@ == old(registry).free@,
            final(registry).quarantine@ == old(registry).quarantine@,
            final(registry).next == old(registry).next,
            forall|i: int, e: int|
                0 <= i < 256 && 0 <= e < 4 && !(i == self.slot() && e == self.held_entry()) ==> (
                #[trigger] final(registry).slots@[i].pins@[e]) == old(registry).slots@[i].pins@[e],
            forall|i: int|
                0 <= i < 256 && !(i == self.slot() && self.held_entry() == WILDCARD) ==> (
                #[trigger] final(registry).slots@[i]).wildcard == old(registry).slots@[i].wildcard,
    {
        let slot: usize = self.participant();
        match self.entry() {
            None => registry.unclaim(slot, WILDCARD),
            Some(entry) => registry.unclaim(slot, entry),
        }
    }

    /// Withdraws the pin, and records its entry as free in the thread's cache.
    ///
    /// The cache may belong to a later registration than the guard, whose occupancy
    /// is left alone.
    pub fn release(self, registry: &mut Registry, local: &mut Local)
        requires
            self.wf(),
            old(registry).wf(),
            holds(old(registry)@.slots[self.slot()], self.held_entry()),
        ensures
            final(registry).wf(),
            final(registry)@ == old(registry)@.unpinned_at(self.slot(), self.held_entry()),
            final(registry).free@ == old(registry).free@,
            final(registry).quarantine@ == old(registry).quarantine@,
            final(registry).next == old(registry).next,
            forall|i: int, e: int|
                0 <= i < 256 && 0 <= e < 4 && !(i == self.slot() && e == self.held_entry()) ==> (
                #[trigger] final(registry).slots@[i].pins@[e]) == old(registry).slots@[i].pins@[e],
            forall|i: int|
                0 <= i < 256 && !(i == self.slot() && self.held_entry() == WILDCARD) ==> (
                #[trigger] final(registry).slots@[i]).wildcard == old(registry).slots@[i].wildcard,
            *final(local) == (Local {
                pin_mask: if old(local).mine is Some && old(local).mine->0 == self.slot() {
                    released_mask(old(local).pin_mask, self.held_entry())
                } else {
                    old(local).pin_mask
                },
                ..*old(local)
            }),
    {
        let slot: usize = self.participant();
        let entry: usize = match self.entry() {
            None => WILDCARD,
            Some(entry) => entry,
        };
        registry.unclaim(slot, entry);
        local.forget_pin(slot, entry);
    }
}

/// One caller-owned registration, reusable across every domain on a thread.
///
/// Construct once outside the hot path and use `Domain::pin_with` for reads. Each
/// live handle consumes one registry slot, regardless of domain count. Multiple
/// handles and the implicit thread registration consume separate slots; after 255
/// exclusive registrations, pins use the shared wildcard slot and delay
/// reclamation in every domain. Prefer one handle per worker.
pub struct Handle {
    /// The slot this registration publishes through.
    pub participant: usize,
    /// Whether that slot is the shared one.
    pub shared: bool,
    /// Occupied entries of the slot.
    pub pin_mask: u8,
    /// The claim on the slot, until the handle is closed.
    pub lease: Option<SlotLease>,
}

impl Handle {
    /// The handle still owns its slot, and the registry agrees.
    pub open spec fn backed_by(&self, r: RegistryView) -> bool {
        &&& self.lease == Some(SlotLease(self.participant, self.shared))
        &&& r.usable(self.participant as int, self.shared)
    }

    /// Acquires one registry slot. Keep it outside latency-sensitive read loops.
    pub fn new(registry: &mut Registry) -> (h: Handle)
        requires
            old(registry).wf(),
        ensures
            final(registry).wf(),
            final(registry)@ == old(registry)@.acquired(),
            final(registry).slots@ == old(registry).slots@,
            h.participant == old(registry)@.acquire_result().0,
            h.shared == old(registry)@.acquire_result().1,
            h.pin_mask == 0,
            h.backed_by(final(registry)@),
    {
        let (idx, shared) = registry.acquire();
        Handle {
            participant: idx,
            shared,
            pin_mask: 0,
            lease: Some(SlotLease(idx, shared)),
        }
    }

    /// Ends the registration and gives its slot back.
    pub fn close(self, registry: &mut Registry)
        requires
            old(registry).wf(),
            self.backed_by(old(registry)@),
        ensures
            final(registry).wf(),
            final(registry)@ == old(registry)@.released(self.participant, self.shared),
            final(registry).slots@ == old(registry).slots@,
            final(registry).next == old(registry).next,
    {
        if let Some(lease) = self.lease {
            lease.give_back(registry);
        }
    }
}

/// A pin taken through a [`Handle`].
///
/// This is two words (slot and entry), unlike the packed one-word [`Guard`].
#[must_use]
pub struct HandleGuard {
    pub participant: usize,
    pub entry: usize,
}

impl HandleGuard {
    /// Names a slot of the registry and one of its entries.
    pub open spec fn wf(self) -> bool {
        self.participant < MAX_THREADS && (self.entry == WILDCARD || self.entry < PINS_PER_THREAD)
    }

    /// Withdraws the pin, and records its entry as free in the handle.
    pub fn release(self, registry: &mut Registry, handle: &mut Handle)
        requires
            self.wf(),
            old(registry).wf(),
            old(handle).participant == self.participant,
            holds(old(registry)@.slots[self.participant as int], self.entry),
        ensures
            final(registry).wf(),
            final(registry)@ == old(registry)@.unpinned_at(self.participant as int, self.entry),
            final(registry).free@ == old(registry).free@,
            final(registry).quarantine@ == old(registry).quarantine@,
            final(registry).next == old(registry).next,
            forall|i: int, e: int|
                0 <= i < 256 && 0 <= e < 4 && !(i == self.participant && e == self.entry) ==> (
                #[trigger] final(registry).slots@[i].pins@[e]) == old(registry).slots@[i].pins@[e],
            forall|i: int|
                0 <= i < 256 && !(i == self.participant && self.entry == WILDCARD) ==> (
                #[trigger] final(registry).slots@[i]).wildcard == old(registry).slots@[i].wildcard,
            *final(handle) == (Handle {
                pin_mask: released_mask(old(handle).pin_mask, self.entry),
                ..*old(handle)
            }),
    {
        registry.unclaim(self.participant, self.entry);
        handle.pin_mask = mark_released(handle.pin_mask, self.entry);
    }
}

} // verus!
