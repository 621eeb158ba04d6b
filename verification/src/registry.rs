//! Participant registry.
//!
//! Registrations own a slot and publish *which domains* they are pinned in. The
//! registry is shared across every domain rather than owned by each, because
//! there is a domain per table and a per-domain array would cost megabytes at
//! a thousand tables.
use vstd::prelude::*;

use crate::pins::{
    choose_entry, mask_with, mask_without, next_entry, occupy, vacate, NO_DOMAIN, PINS_PER_THREAD,
    WILDCARD,
};
use crate::promises::law_acquisition_hands_over_one_slot;

verus! {

/// Registry capacity, including one shared overflow slot.
///
/// Each live `Handle` and each implicit thread registration uses a slot. After
/// 255 exclusive registrations, pins share the last slot and delay reclamation
/// in all domains. It is not a bound on the number of OS threads.
pub const MAX_THREADS: usize = 256;

/// The slot every registration past the exclusive capacity shares.
pub const OVERFLOW_SLOT: usize = 255;

/// What one slot publishes.
#[verifier::ext_equal]
pub ghost struct SlotView {
    pub pins: Seq<u64>,
    pub wildcard: u64,
}

impl SlotView {
    /// Every entry a slot has.
    pub open spec fn shaped(self) -> bool {
        self.pins.len() == PINS_PER_THREAD
    }

    /// No normal pin is published.
    pub open spec fn unpinned(self) -> bool {
        forall|e: int| 0 <= e < PINS_PER_THREAD ==> #[trigger] self.pins[e] == NO_DOMAIN
    }

    /// Neither a normal pin nor a wildcard is published.
    pub open spec fn idle(self) -> bool {
        self.wildcard == 0 && self.unpinned()
    }

    /// The slot with `word` stored in one entry.
    pub open spec fn stored(self, entry: int, word: u64) -> SlotView {
        SlotView { pins: self.pins.update(entry, word), wildcard: self.wildcard }
    }

    /// The slot with one more wildcard pin.
    pub open spec fn wildcard_added(self) -> SlotView {
        SlotView { pins: self.pins, wildcard: self.wildcard.wrapping_add(1) }
    }

    /// The slot with one wildcard pin fewer.
    pub open spec fn wildcard_removed(self) -> SlotView {
        SlotView { pins: self.pins, wildcard: self.wildcard.wrapping_sub(1) }
    }

    /// The slot after a pin through `entry`, the wildcard included.
    pub open spec fn pinned(self, entry: usize, word: u64) -> SlotView {
        if entry == WILDCARD {
            self.wildcard_added()
        } else {
            self.stored(entry as int, word)
        }
    }

    /// The slot after a pin through `entry` is released.
    pub open spec fn unpinned_at(self, entry: usize) -> SlotView {
        if entry == WILDCARD {
            self.wildcard_removed()
        } else {
            self.stored(entry as int, NO_DOMAIN)
        }
    }
}

/// One registration's pins.
pub struct Participant {
    /// Packed epoch and domain id, or [`NO_DOMAIN`]. Packed so publishing a pin
    /// is one store rather than two.
    pub pins: [u64; PINS_PER_THREAD],
    /// Non-zero when a registration ran out of entries, or shares its slot, and
    /// must be treated as pinned in every domain.
    pub wildcard: u64,
}

impl View for Participant {
    type V = SlotView;

    open spec fn view(&self) -> SlotView {
        SlotView { pins: self.pins@, wildcard: self.wildcard }
    }
}

impl Participant {
    /// A slot that publishes nothing.
    pub fn new() -> (p: Participant)
        ensures
            p@.idle(),
    {
        Participant { pins: [NO_DOMAIN; PINS_PER_THREAD], wildcard: 0 }
    }

    /// Whether the slot publishes neither a normal pin nor a wildcard.
    pub fn is_idle(&self) -> (b: bool)
        ensures
            b == self@.idle(),
    {
        if self.wildcard != 0 {
            return false;
        }
        let mut i: usize = 0;
        while i < PINS_PER_THREAD
            invariant
                i <= PINS_PER_THREAD,
                forall|e: int| 0 <= e < i ==> self.pins@[e] == NO_DOMAIN,
            decreases PINS_PER_THREAD - i,
        {
            if self.pins[i] != NO_DOMAIN {
                assert(self@.pins[i as int] != NO_DOMAIN);
                return false;
            }
            i = i + 1;
        }
        true
    }

    /// Stores `word` in one entry.
    pub fn store(&mut self, entry: usize, word: u64)
        requires
            entry < PINS_PER_THREAD,
        ensures
            final(self)@ == old(self)@.stored(entry as int, word),
    {
        self.pins[entry] = word;
    }

    /// Publishes one more wildcard pin. The returned entry says so.
    pub fn pin_wildcard(&mut self) -> (entry: usize)
        ensures
            entry == WILDCARD,
            final(self)@ == old(self)@.wildcard_added(),
    {
        self.wildcard = self.wildcard.wrapping_add(1);
        WILDCARD
    }

    /// Withdraws one wildcard pin.
    pub fn unpin_wildcard(&mut self)
        ensures
            final(self)@ == old(self)@.wildcard_removed(),
    {
        self.wildcard = self.wildcard.wrapping_sub(1);
    }

    /// Publishes `word` through the lowest free entry of the mask, or as a
    /// wildcard if the slot is shared or the mask is full.
    ///
    /// A registration sharing the overflow slot must not touch the entries: they
    /// are single values, so another registration's release would clear this
    /// pin. The wildcard is a count and therefore composes.
    pub fn claim(&mut self, shared: bool, mask: &mut u8, word: u64) -> (entry: usize)
        ensures
            entry == next_entry(shared, *old(mask)),
            final(self)@ == old(self)@.pinned(entry, word),
            *final(mask) == claimed_mask(*old(mask), entry),
    {
        let entry: usize = choose_entry(shared, *mask);
        if entry == WILDCARD {
            self.pin_wildcard()
        } else {
            self.store(entry, word);
            *mask = mark_claimed(*mask, entry);
            entry
        }
    }

    /// Releases the pin held through `entry`.
    pub fn unclaim(&mut self, entry: usize)
        requires
            entry == WILDCARD || entry < PINS_PER_THREAD,
        ensures
            final(self)@ == old(self)@.unpinned_at(entry),
    {
        if entry == WILDCARD {
            self.unpin_wildcard();
        } else {
            self.store(entry, NO_DOMAIN);
        }
    }
}

/// The occupancy mask after a pin through `entry`.
pub open spec fn claimed_mask(mask: u8, entry: usize) -> u8 {
    if entry == WILDCARD {
        mask
    } else {
        mask_with(mask, entry as int)
    }
}

/// Records a pin through `entry` in an occupancy mask. A wildcard takes no entry.
pub fn mark_claimed(mask: u8, entry: usize) -> (m: u8)
    requires
        entry == WILDCARD || entry < PINS_PER_THREAD,
    ensures
        m == claimed_mask(mask, entry),
{
    if entry == WILDCARD {
        mask
    } else {
        occupy(mask, entry)
    }
}

/// The occupancy mask after a pin held through `entry` is released.
pub open spec fn released_mask(mask: u8, entry: usize) -> u8 {
    if entry == WILDCARD {
        mask
    } else {
        mask_without(mask, entry as int)
    }
}

/// Records the release of a pin held through `entry` in an occupancy mask.
pub fn mark_released(mask: u8, entry: usize) -> (m: u8)
    requires
        entry == WILDCARD || entry < PINS_PER_THREAD,
    ensures
        m == released_mask(mask, entry),
{
    if entry == WILDCARD {
        mask
    } else {
        vacate(mask, entry)
    }
}

/// The registry as a mathematical value.
#[verifier::ext_equal]
pub ghost struct RegistryView {
    pub slots: Seq<SlotView>,
    pub free: Seq<usize>,
    pub quarantine: Seq<usize>,
    pub next: int,
}

impl RegistryView {
    /// Exclusive slots that have been handed out at least once.
    pub open spec fn issued(self) -> int {
        if self.next < OVERFLOW_SLOT {
            self.next
        } else {
            OVERFLOW_SLOT as int
        }
    }

    /// Slots a scan has to look at: every slot ever handed out.
    pub open spec fn active(self) -> int {
        if self.next < MAX_THREADS {
            self.next
        } else {
            MAX_THREADS as int
        }
    }

    /// Whether a registration owns this exclusive slot.
    pub open spec fn leased(self, idx: int) -> bool {
        &&& 0 <= idx < self.issued()
        &&& !self.free.contains(idx as usize)
        &&& !self.quarantine.contains(idx as usize)
    }

    /// Whether a registration with this slot may publish through it.
    pub open spec fn usable(self, idx: int, shared: bool) -> bool {
        if shared {
            idx == OVERFLOW_SLOT && self.next > OVERFLOW_SLOT
        } else {
            self.leased(idx)
        }
    }

    pub open spec fn wf(self) -> bool {
        &&& self.slots.len() == MAX_THREADS
        &&& self.next >= 0
        &&& self.next <= usize::MAX
        &&& forall|i: int| 0 <= i < MAX_THREADS ==> (#[trigger] self.slots[i]).shaped()
        &&& self.free.no_duplicates()
        &&& self.quarantine.no_duplicates()
        &&& forall|i: int|
            0 <= i < self.free.len() ==> (#[trigger] self.free[i]) < self.issued()
                && self.slots[self.free[i] as int].idle() && !self.quarantine.contains(self.free[i])
        &&& forall|i: int|
            0 <= i < self.quarantine.len() ==> (#[trigger] self.quarantine[i]) < self.issued()
        // A slot that was never handed out still publishes nothing.
        &&& forall|i: int| self.active() <= i < MAX_THREADS ==> (#[trigger] self.slots[i]).idle()
        // Nobody owns the overflow slot, so nobody pins through its entries.
        &&& self.slots[OVERFLOW_SLOT as int].unpinned()
    }

    /// Position in the quarantine of the first slot, from `from` on, that
    /// publishes nothing any more; the quarantine's length if there is none.
    pub open spec fn recovery_index(self, from: int) -> int
        decreases self.quarantine.len() - from,
    {
        if from >= self.quarantine.len() {
            self.quarantine.len() as int
        } else if self.slots[self.quarantine[from] as int].idle() {
            from
        } else {
            self.recovery_index(from + 1)
        }
    }

    /// Whether some quarantined slot can be handed out again.
    pub open spec fn can_recover(self) -> bool {
        self.recovery_index(0) < self.quarantine.len()
    }

    /// The slot an acquisition returns, and whether it is the shared one.
    pub open spec fn acquire_result(self) -> (usize, bool) {
        if self.free.len() > 0 {
            (self.free.last(), false)
        } else if self.can_recover() {
            (self.quarantine[self.recovery_index(0)], false)
        } else if self.next < OVERFLOW_SLOT {
            (self.next as usize, false)
        } else {
            (OVERFLOW_SLOT, true)
        }
    }

    /// The registry after an acquisition.
    pub open spec fn acquired(self) -> RegistryView {
        if self.free.len() > 0 {
            RegistryView { free: self.free.drop_last(), ..self }
        } else if self.can_recover() {
            RegistryView { quarantine: self.quarantine.remove(self.recovery_index(0)), ..self }
        } else if self.next < usize::MAX {
            RegistryView { next: self.next + 1, ..self }
        } else {
            self
        }
    }

    /// The registry after a registration gives its slot back.
    pub open spec fn released(self, idx: usize, shared: bool) -> RegistryView {
        if shared {
            self
        } else if self.slots[idx as int].idle() {
            RegistryView { free: self.free.push(idx), ..self }
        } else {
            RegistryView { quarantine: self.quarantine.push(idx), ..self }
        }
    }

    /// The registry with one slot replaced.
    pub open spec fn with_slot(self, idx: int, slot: SlotView) -> RegistryView {
        RegistryView { slots: self.slots.update(idx, slot), ..self }
    }

    /// The registry after a pin through one entry of a slot.
    pub open spec fn pinned(self, idx: int, entry: usize, word: u64) -> RegistryView {
        self.with_slot(idx, self.slots[idx].pinned(entry, word))
    }

    /// The registry after a pin through one entry of a slot is released.
    pub open spec fn unpinned_at(self, idx: int, entry: usize) -> RegistryView {
        self.with_slot(idx, self.slots[idx].unpinned_at(entry))
    }
}

/// Every slot, and which of them may be handed out.
pub struct Registry {
    pub slots: Vec<Participant>,
    /// Indices handed back idle, reused rather than growing without bound in a
    /// program that spawns many short-lived threads.
    pub free: Vec<usize>,
    /// Indices handed back while a guard was still outstanding. They become
    /// reusable once that guard is gone, and are never cleared to get there.
    pub quarantine: Vec<usize>,
    /// Acquisitions not served from a returned slot. A high-water mark.
    pub next: usize,
}

pub open spec fn slot_views(slots: Seq<Participant>) -> Seq<SlotView> {
    Seq::new(slots.len(), |i: int| slots[i]@)
}

impl View for Registry {
    type V = RegistryView;

    open spec fn view(&self) -> RegistryView {
        RegistryView {
            slots: slot_views(self.slots@),
            free: self.free@,
            quarantine: self.quarantine@,
            next: self.next as int,
        }
    }
}

impl Registry {
    pub open spec fn wf(&self) -> bool {
        self@.wf()
    }

    /// A registry with no slot handed out.
    pub fn new() -> (r: Registry)
        ensures
            r.wf(),
            r@.next == 0,
            r@.free.len() == 0,
            r@.quarantine.len() == 0,
            forall|i: int| 0 <= i < MAX_THREADS ==> (#[trigger] r@.slots[i]).idle(),
    {
        let mut slots: Vec<Participant> = Vec::new();
        while slots.len() < MAX_THREADS
            invariant
                slots@.len() <= MAX_THREADS,
                forall|i: int| 0 <= i < slots@.len() ==> (#[trigger] slots@[i])@.idle(),
            decreases MAX_THREADS - slots@.len(),
        {
            slots.push(Participant::new());
        }
        Registry { slots, free: Vec::new(), quarantine: Vec::new(), next: 0 }
    }

    /// The position of the first quarantined slot that publishes nothing.
    fn find_recoverable(&self) -> (k: usize)
        requires
            self.wf(),
        ensures
            k == self@.recovery_index(0),
            k <= self.quarantine@.len(),
    {
        let mut k: usize = 0;
        while k < self.quarantine.len()
            invariant
                self.wf(),
                k <= self.quarantine@.len(),
                self@.recovery_index(0) == self@.recovery_index(k as int),
            decreases self.quarantine@.len() - k,
        {
            let idx: usize = self.quarantine[k];
            assert(self@.quarantine[k as int] == idx);
            assert(self@.slots[idx as int] == self.slots@[idx as int]@);
            if self.slots[idx].is_idle() {
                return k;
            }
            k = k + 1;
        }
        k
    }

    /// A slot, and whether the registration has to share the overflow one.
    ///
    /// A slot's entries are single values, not a counted aggregate: two
    /// registrations on one slot would overwrite each other's pins. So the
    /// overflow slot is reported, and callers put those registrations on the
    /// wildcard instead, which is a counter and therefore composes.
    ///
    /// Returned slots come first, then quarantined slots whose last guard is
    /// gone, then slots never handed out before.
    pub fn acquire(&mut self) -> (r: (usize, bool))
        requires
            old(self).wf(),
        ensures
            final(self).wf(),
            r == old(self)@.acquire_result(),
            final(self)@ == old(self)@.acquired(),
            final(self)@.usable(r.0 as int, r.1),
            final(self).slots@ == old(self).slots@,
            r.1 ==> r.0 == OVERFLOW_SLOT && final(self).free@ == old(self).free@
                && final(self).quarantine@ == old(self).quarantine@,
            !r.1 ==> forall|u: usize|
                u != r.0 ==> (#[trigger] final(self).free@.contains(u)) == old(
                    self,
                ).free@.contains(u),
            !r.1 ==> forall|u: usize|
                u != r.0 ==> (#[trigger] final(self).quarantine@.contains(u)) == old(
                    self,
                ).quarantine@.contains(u),
            !r.1 ==> r.0 < OVERFLOW_SLOT && old(self).slots@[r.0 as int].wildcard == 0 && (forall|e: int|
                0 <= e < 4 ==> #[trigger] old(self).slots@[r.0 as int].pins@[e] == NO_DOMAIN),
            old(self).free@.len() > 0 ==> !r.1 && old(self).free@ == final(self).free@.push(r.0),
            old(self).free@.contains(r.0) || old(self).quarantine@.contains(r.0)
                ==> final(self).next == old(self).next,
            !old(self).free@.contains(r.0) && !old(self).quarantine@.contains(r.0)
                ==> final(self).next == old(self).next + 1 || final(self).next == usize::MAX
                == old(self).next,
    {
        proof {
            law_acquisition_hands_over_one_slot(self@);
        }
        let ghost before = self@;
        if let Some(idx) = self.free.pop() {
            proof {
                lemma_acquire_keeps_wf(before);
                assert(self@ == before.acquired());
            }
            return (idx, false);
        }
        let k: usize = self.find_recoverable();
        if k < self.quarantine.len() {
            let idx: usize = self.quarantine.remove(k);
            proof {
                lemma_acquire_keeps_wf(before);
                assert(self@ == before.acquired());
            }
            return (idx, false);
        }
        proof {
            lemma_acquire_keeps_wf(before);
        }
        // Keep the counter monotonic. Wrapping could hand out an exclusive slot
        // that is still in use.
        let idx: usize = self.next;
        if self.next < usize::MAX {
            self.next = self.next + 1;
        }
        assert(self@ == before.acquired());
        if idx < OVERFLOW_SLOT {
            (idx, false)
        } else {
            (OVERFLOW_SLOT, true)
        }
    }

    /// Takes a slot back from its registration.
    ///
    /// The overflow slot belongs to every overflow registration at once, so
    /// leaving it is nothing. An exclusive slot that still publishes a pin, of a
    /// guard that outlives its registration, is quarantined instead of reused.
    pub fn release(&mut self, idx: usize, shared: bool)
        requires
            old(self).wf(),
            !shared ==> old(self)@.leased(idx as int),
        ensures
            final(self).wf(),
            final(self)@ == old(self)@.released(idx, shared),
            final(self).slots@ == old(self).slots@,
            final(self).next == old(self).next,
            shared ==> final(self).free@ == old(self).free@ && final(self).quarantine@ == old(
                self,
            ).quarantine@,
            !shared ==> if old(self).slots@[idx as int].wildcard == 0 && (forall|e: int|
                0 <= e < 4 ==> #[trigger] old(self).slots@[idx as int].pins@[e] == NO_DOMAIN) {
                final(self).free@ == old(self).free@.push(idx) && final(self).quarantine@ == old(
                    self,
                ).quarantine@
            } else {
                final(self).quarantine@ == old(self).quarantine@.push(idx) && final(self).free@
                    == old(self).free@
            },
    {
        if shared {
            return;
        }
        let ghost before = self@;
        proof {
            lemma_release_keeps_wf(before, idx);
        }
        assert(self@.slots[idx as int] == self.slots@[idx as int]@);
        if self.slots[idx].is_idle() {
            self.free.push(idx);
        } else {
            self.quarantine.push(idx);
        }
        assert(self@ == before.released(idx, shared));
    }
}

/// Acquisition keeps the registry well formed, and what it hands out belongs
/// to nobody else.
pub proof fn lemma_acquire_keeps_wf(r: RegistryView)
    requires
        r.wf(),
    ensures
        r.acquired().wf(),
        r.acquired().usable(r.acquire_result().0 as int, r.acquire_result().1),
{
    let post = r.acquired();
    let k = r.recovery_index(0);
    lemma_recovery_index(r, 0);
    if r.free.len() > 0 {
        let last = r.free.last();
        assert(r.free[r.free.len() - 1] == last);
        assert(!post.free.contains(last));
        assert forall|i: int| 0 <= i < post.free.len() implies (#[trigger] post.free[i])
            < post.issued() && post.slots[post.free[i] as int].idle() && !post.quarantine.contains(
            post.free[i],
        ) by {
            assert(post.free[i] == r.free[i]);
        }
    } else if r.can_recover() {
        let q = r.quarantine[k];
        assert(post.quarantine =~= r.quarantine.remove(k));
        assert forall|i: int| 0 <= i < post.quarantine.len() implies (#[trigger] post.quarantine[i])
            < post.issued() && post.quarantine[i] != q by {
            let j = if i < k { i } else { i + 1 };
            assert(post.quarantine[i] == r.quarantine[j]);
        }
        assert(post.quarantine.no_duplicates()) by {
            assert forall|i: int, j: int|
                0 <= i < post.quarantine.len() && 0 <= j < post.quarantine.len() && i
                    != j implies post.quarantine[i] != post.quarantine[j] by {
                let i2 = if i < k { i } else { i + 1 };
                let j2 = if j < k { j } else { j + 1 };
                assert(r.quarantine[i2] != r.quarantine[j2]);
            }
        }
        assert(!post.quarantine.contains(q));
        assert(!post.free.contains(q));
    } else {
        assert(post.free =~= r.free);
        if r.next < OVERFLOW_SLOT {
            assert(!post.quarantine.contains(r.next as usize)) by {
                if post.quarantine.contains(r.next as usize) {
                    let i = choose|i: int|
                        0 <= i < r.quarantine.len() && r.quarantine[i] == r.next as usize;
                    assert(r.quarantine[i] < r.issued());
                }
            }
        }
    }
}

/// What `recovery_index` finds.
pub proof fn lemma_recovery_index(r: RegistryView, from: int)
    requires
        0 <= from <= r.quarantine.len(),
    ensures
        from <= r.recovery_index(from) <= r.quarantine.len(),
        r.recovery_index(from) < r.quarantine.len() ==> r.slots[r.quarantine[r.recovery_index(
            from,
        )] as int].idle(),
        forall|i: int|
            from <= i < r.recovery_index(from) ==> !r.slots[(#[trigger] r.quarantine[i]) as int].idle(),
    decreases r.quarantine.len() - from,
{
    if from < r.quarantine.len() && !r.slots[r.quarantine[from] as int].idle() {
        lemma_recovery_index(r, from + 1);
    }
}

/// Giving a slot back keeps the registry well formed.
pub proof fn lemma_release_keeps_wf(r: RegistryView, idx: usize)
    requires
        r.wf(),
        r.leased(idx as int),
    ensures
        r.released(idx, false).wf(),
{
    let post = r.released(idx, false);
    if r.slots[idx as int].idle() {
        assert forall|i: int| 0 <= i < post.free.len() implies (#[trigger] post.free[i])
            < post.issued() && post.slots[post.free[i] as int].idle() && !post.quarantine.contains(
            post.free[i],
        ) by {
            if i < r.free.len() {
                assert(post.free[i] == r.free[i]);
            }
        }
    } else {
        assert forall|i: int| 0 <= i < post.free.len() implies !post.quarantine.contains(
            #[trigger] post.free[i],
        ) by {
            assert(post.free[i] == r.free[i]);
            assert(r.free.contains(r.free[i]));
            if post.quarantine.contains(post.free[i]) {
                let j = choose|j: int|
                    0 <= j < post.quarantine.len() && post.quarantine[j] == post.free[i];
                if j < r.quarantine.len() {
                    assert(r.quarantine.contains(r.free[i]));
                }
            }
        }
    }
}

/// Whether a pin held through `entry` is published in the slot.
pub open spec fn holds(slot: SlotView, entry: usize) -> bool {
    if entry == WILDCARD {
        slot.wildcard != 0
    } else {
        entry < PINS_PER_THREAD && slot.pins[entry as int] != NO_DOMAIN
    }
}

impl Registry {
    /// Publishes `word` for the registration that owns slot `idx`.
    pub fn claim(&mut self, idx: usize, shared: bool, mask: &mut u8, word: u64) -> (entry: usize)
        requires
            old(self).wf(),
            old(self)@.usable(idx as int, shared),
        ensures
            final(self).wf(),
            entry == next_entry(shared, *old(mask)),
            final(self)@ == old(self)@.pinned(idx as int, entry, word),
            *final(mask) == claimed_mask(*old(mask), entry),
            final(self).free@ == old(self).free@,
            final(self).quarantine@ == old(self).quarantine@,
            final(self).next == old(self).next,
            forall|i: int, e: int|
                0 <= i < 256 && 0 <= e < 4 && !(i == idx && e == entry) ==> (
                #[trigger] final(self).slots@[i].pins@[e]) == old(self).slots@[i].pins@[e],
            forall|i: int|
                0 <= i < 256 && !(i == idx && entry == WILDCARD) ==> (
                #[trigger] final(self).slots@[i]).wildcard == old(self).slots@[i].wildcard,
            entry != WILDCARD ==> final(self).slots@[idx as int].pins@[entry as int] == word,
            entry == WILDCARD ==> final(self).slots@[idx as int].wildcard == old(
                self,
            ).slots@[idx as int].wildcard.wrapping_add(1),
    {
        let ghost before = self@;
        let entry: usize = self.slots[idx].claim(shared, mask, word);
        proof {
            assert(self@ == before.pinned(idx as int, entry, word));
            lemma_pin_keeps_wf(before, idx as int, shared, entry, word);
        }
        entry
    }

    /// Releases the pin held through one entry of slot `idx`.
    pub fn unclaim(&mut self, idx: usize, entry: usize)
        requires
            old(self).wf(),
            idx < MAX_THREADS,
            holds(old(self)@.slots[idx as int], entry),
        ensures
            final(self).wf(),
            final(self)@ == old(self)@.unpinned_at(idx as int, entry),
            final(self).free@ == old(self).free@,
            final(self).quarantine@ == old(self).quarantine@,
            final(self).next == old(self).next,
            forall|i: int, e: int|
                0 <= i < 256 && 0 <= e < 4 && !(i == idx && e == entry) ==> (
                #[trigger] final(self).slots@[i].pins@[e]) == old(self).slots@[i].pins@[e],
            forall|i: int|
                0 <= i < 256 && !(i == idx && entry == WILDCARD) ==> (
                #[trigger] final(self).slots@[i]).wildcard == old(self).slots@[i].wildcard,
            entry != WILDCARD ==> final(self).slots@[idx as int].pins@[entry as int] == NO_DOMAIN,
            entry == WILDCARD ==> final(self).slots@[idx as int].wildcard == old(
                self,
            ).slots@[idx as int].wildcard - 1,
    {
        let ghost before = self@;
        self.slots[idx].unclaim(entry);
        proof {
            assert(self@ == before.unpinned_at(idx as int, entry));
            lemma_unpin_keeps_wf(before, idx as int, entry);
        }
    }

    /// How many slots a scan has to look at: every slot ever handed out.
    ///
    /// A slot is only ever handed out by `acquire`, which raises `next`, and
    /// `release` gives the index back without lowering it. So slots at or above
    /// this bound still publish nothing.
    pub fn active_slots(&self) -> (n: usize)
        ensures
            n == self@.active(),
            n == (if self.next < 256 {
                self.next
            } else {
                256
            }),
    {
        if self.next < MAX_THREADS {
            self.next
        } else {
            MAX_THREADS
        }
    }
}

/// Slots handed out so far, which is a high-water mark and not a live count.
///
/// `release` gives an index back without lowering this, so a process that
/// started and joined many threads reads high while few are live. Once exclusive
/// capacity is reached, acquisition uses returned slots first, otherwise the
/// shared wildcard slot. This counter takes in overflow acquisition attempts, but
/// not reuse, and saturates at `usize::MAX`.
pub fn slots_handed_out(registry: &Registry) -> (n: usize)
    ensures
        n == registry@.next,
        n == registry.next,
{
    registry.next
}

/// Publishing through an owned slot keeps the registry well formed.
pub proof fn lemma_pin_keeps_wf(r: RegistryView, idx: int, shared: bool, entry: usize, word: u64)
    requires
        r.wf(),
        r.usable(idx, shared),
        shared ==> entry == WILDCARD,
        entry == WILDCARD || entry < PINS_PER_THREAD,
    ensures
        r.pinned(idx, entry, word).wf(),
{
    let post = r.pinned(idx, entry, word);
    assert forall|i: int| 0 <= i < post.free.len() implies post.slots[(
    #[trigger] post.free[i]) as int].idle() by {
        assert(r.free.contains(r.free[i]));
    }
}

/// Releasing a published pin keeps the registry well formed.
pub proof fn lemma_unpin_keeps_wf(r: RegistryView, idx: int, entry: usize)
    requires
        r.wf(),
        0 <= idx < MAX_THREADS,
        holds(r.slots[idx], entry),
    ensures
        r.unpinned_at(idx, entry).wf(),
{
    let post = r.unpinned_at(idx, entry);
    assert(!r.slots[idx].idle());
    assert forall|i: int| 0 <= i < post.free.len() implies post.slots[(
    #[trigger] post.free[i]) as int].idle() by {
        assert(r.slots[r.free[i] as int].idle());
    }
}

} // verus!
