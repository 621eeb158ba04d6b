//! One pass over the registry, deciding how old the oldest reader is.
use vstd::prelude::*;

use crate::pins::{pin_matches, unpack_epoch, word_epoch, word_matches, MAX_EPOCH, PINS_PER_THREAD};
use crate::registry::{Participant, Registry, SlotView};

verus! {

/// What a reclaimer knows while it looks for readers.
///
/// `cutoff` is read before the first slot is looked at, so no retirement made
/// after that can be mistaken for one this scan covers.
#[derive(Clone, Copy)]
pub struct Scan {
    /// The domain on whose behalf the scan runs.
    pub id: u64,
    /// Only retirements with a smaller sequence number are covered.
    pub cutoff: u64,
    /// The epoch sampled when the scan began.
    pub now: u64,
    /// The oldest epoch a matching reader seen so far is pinned in, or one more
    /// than `now` if there is none.
    pub min_pinned: u64,
}

/// The lesser of two numbers.
pub open spec fn least(a: int, b: int) -> int {
    if a <= b {
        a
    } else {
        b
    }
}

/// `bound`, lowered to the oldest epoch among these words that pins domain `id`.
pub open spec fn oldest_in(words: Seq<u64>, id: u64, bound: int) -> int
    decreases words.len(),
{
    if words.len() == 0 {
        bound
    } else {
        let rest = oldest_in(words.drop_last(), id, bound);
        if word_matches(words.last(), id) {
            least(rest, word_epoch(words.last()))
        } else {
            rest
        }
    }
}

/// `bound`, lowered to the oldest epoch any of these slots pins domain `id` in.
pub open spec fn oldest_pinned(slots: Seq<SlotView>, id: u64, bound: int) -> int
    decreases slots.len(),
{
    if slots.len() == 0 {
        bound
    } else {
        oldest_in(slots.last().pins, id, oldest_pinned(slots.drop_last(), id, bound))
    }
}

/// Looking at more words only ever lowers the bound.
pub proof fn lemma_oldest_in_range(words: Seq<u64>, id: u64, bound: int)
    requires
        0 <= bound,
    ensures
        0 <= oldest_in(words, id, bound) <= bound,
    decreases words.len(),
{
    if words.len() > 0 {
        lemma_oldest_in_range(words.drop_last(), id, bound);
    }
}

/// Looking at more slots only ever lowers the bound.
pub proof fn lemma_oldest_pinned_range(slots: Seq<SlotView>, id: u64, bound: int)
    requires
        0 <= bound,
    ensures
        0 <= oldest_pinned(slots, id, bound) <= bound,
    decreases slots.len(),
{
    if slots.len() > 0 {
        lemma_oldest_pinned_range(slots.drop_last(), id, bound);
        lemma_oldest_in_range(
            slots.last().pins,
            id,
            oldest_pinned(slots.drop_last(), id, bound),
        );
    }
}

/// Whether some slot publishes a wildcard, which pins every domain.
pub open spec fn any_wildcard(slots: Seq<SlotView>) -> bool {
    exists|i: int| 0 <= i < slots.len() && (#[trigger] slots[i]).wildcard != 0
}

impl Scan {
    pub open spec fn wf(&self) -> bool {
        self.now <= MAX_EPOCH && self.min_pinned <= self.now + 1
    }

    /// The scan with its bound replaced.
    pub open spec fn bounded(self, min_pinned: int) -> Scan {
        Scan { min_pinned: min_pinned as u64, ..self }
    }

    /// Begins a scan that has seen no reader.
    ///
    /// No reader pinned here means nothing retired so far can be reached, so
    /// everything up to and including the current epoch would be safe.
    pub fn new(id: u64, cutoff: u64, now: u64) -> (s: Scan)
        requires
            now <= MAX_EPOCH,
        ensures
            s.wf(),
            s == (Scan { id, cutoff, now, min_pinned: (now + 1) as u64 }),
    {
        Scan { id, cutoff, now, min_pinned: now + 1 }
    }

    /// Takes one published word into account.
    pub fn visit_pin(&mut self, word: u64)
        requires
            old(self).wf(),
        ensures
            final(self).wf(),
            *final(self) == old(self).bounded(
                oldest_in(seq![word], old(self).id, old(self).min_pinned as int),
            ),
    {
        proof {
            assert(seq![word].drop_last() =~= Seq::<u64>::empty());
            assert(seq![word].last() == word);
            reveal_with_fuel(oldest_in, 2);
        }
        if pin_matches(word, self.id) {
            let epoch: u64 = unpack_epoch(word);
            if epoch < self.min_pinned {
                self.min_pinned = epoch;
            }
        }
    }

    /// Takes one slot into account. Returns whether it pins every domain, in
    /// which case the scan ends there.
    pub fn visit(&mut self, p: &Participant) -> (blocked: bool)
        requires
            old(self).wf(),
        ensures
            final(self).wf(),
            blocked == (p@.wildcard != 0),
            !blocked ==> *final(self) == old(self).bounded(
                oldest_in(p@.pins, old(self).id, old(self).min_pinned as int),
            ),
            blocked ==> *final(self) == *old(self),
    {
        if p.wildcard != 0 {
            return true;
        }
        let mut i: usize = 0;
        while i < PINS_PER_THREAD
            invariant
                i <= PINS_PER_THREAD,
                self.wf(),
                *self == old(self).bounded(
                    oldest_in(p@.pins.take(i as int), old(self).id, old(self).min_pinned as int),
                ),
            decreases PINS_PER_THREAD - i,
        {
            let word: u64 = p.pins[i];
            proof {
                let next = p@.pins.take(i + 1);
                assert(next.drop_last() =~= p@.pins.take(i as int));
                assert(next.last() == word);
                assert(seq![word].drop_last() =~= Seq::<u64>::empty());
                assert(seq![word].last() == word);
                reveal_with_fuel(oldest_in, 2);
                lemma_oldest_in_range(
                    p@.pins.take(i as int),
                    old(self).id,
                    old(self).min_pinned as int,
                );
            }
            self.visit_pin(word);
            i = i + 1;
        }
        assert(p@.pins.take(PINS_PER_THREAD as int) =~= p@.pins);
        false
    }
}

impl Registry {
    /// Looks at every slot ever handed out. `None` means some reader is
    /// conservatively pinned everywhere, so nothing may be reclaimed.
    pub fn scan(&self, begun: Scan) -> (r: Option<Scan>)
        requires
            self.wf(),
            begun.wf(),
        ensures
            r is None <==> any_wildcard(self@.slots.take(self@.active())),
            r matches Some(s) ==> s.wf() && s == begun.bounded(
                oldest_pinned(
                    self@.slots.take(self@.active()),
                    begun.id,
                    begun.min_pinned as int,
                ),
            ),
    {
        let mut scan: Scan = begun;
        let leased: usize = self.active_slots();
        let ghost slots = self@.slots.take(leased as int);
        let mut i: usize = 0;
        while i < leased
            invariant
                self.wf(),
                i <= leased,
                leased == self@.active(),
                slots == self@.slots.take(leased as int),
                scan.wf(),
                scan == begun.bounded(
                    oldest_pinned(slots.take(i as int), begun.id, begun.min_pinned as int),
                ),
                forall|k: int| 0 <= k < i ==> (#[trigger] slots[k]).wildcard == 0,
            decreases leased - i,
        {
            assert(slots[i as int] == self.slots@[i as int]@);
            proof {
                let next = slots.take(i + 1);
                assert(next.drop_last() =~= slots.take(i as int));
                assert(next.last() == slots[i as int]);
                lemma_oldest_pinned_range(
                    slots.take(i as int),
                    begun.id,
                    begun.min_pinned as int,
                );
            }
            if scan.visit(&self.slots[i]) {
                return None;
            }
            i = i + 1;
        }
        assert(slots.take(leased as int) =~= slots);
        Some(scan)
    }
}

} // verus!
