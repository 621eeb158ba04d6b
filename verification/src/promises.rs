//! What callers observe of each operation, told in the published words, the slot
//! lists and the queue entries themselves.
//!
//! A pin word is read here as plain arithmetic: its epoch is the word divided by
//! 2^24, and it concerns every domain whose id leaves the same remainder. A slot
//! is looked at word by word, and a queue entry by entry.
use vstd::prelude::*;

use crate::domain::{next_epoch, once_registered, registered_local, Domain};
use crate::garbage::{
    covered, covers, inspected, left_over, lemma_inspected, taken_out, withheld, Retirement,
};
use crate::guard::{entry_tag, Guard};
use crate::laws::{law_a_bounded_pass_uses_its_limit, law_scan_finds_the_oldest_reader, sees};
use crate::local::Local;
use crate::pins::{
    law_vacate_undoes_occupy, lemma_mask_with, lemma_mask_without, next_entry, occupied, pin_word,
    word_epoch, word_matches, WILDCARD,
};
use crate::registry::{
    claimed_mask, lemma_acquire_keeps_wf, lemma_recovery_index, lemma_release_keeps_wf,
    released_mask, RegistryView,
};
use crate::scan::{any_wildcard, lemma_oldest_pinned_range, oldest_pinned, Scan};
use crate::stats::{
    available_count, leased_slots, lemma_issued_partition, pinned_count, still_pinned,
};
use crate::tls::key_of;

verus! {

/// A packed pin gives back its epoch, is never empty, and concerns exactly the
/// domains whose ids agree with the one it was made for in their low 24 bits.
pub proof fn law_a_pin_names_its_epoch_and_domain(epoch: u64, id: u64, word: u64, other: u64)
    requires
        1 <= epoch <= 0xff_ffff_ffff,
        word == pin_word(epoch as int, id as int),
    ensures
        word != 0,
        word as int / 0x100_0000 == epoch,
        word_epoch(word) == epoch,
        word_matches(word, other) <==> other as int % 0x100_0000 == id as int % 0x100_0000,
{
}

/// Whoever reads a word takes its epoch from the high bits and its domain from the
/// low ones, and an empty word concerns nobody.
pub proof fn law_words_are_read_as_they_are_packed(word: u64, id: u64)
    ensures
        word_epoch(word) == word as int / 0x100_0000,
        word_matches(word, id) <==> word != 0 && word as int % 0x100_0000 == id as int
            % 0x100_0000,
{
}

/// Whether bit `e` of an occupancy mask is set.
pub open spec fn bit(mask: u8, e: int) -> bool {
    (mask >> e as u8) & 1 == 1
}

/// A pin goes through the lowest entry that is clear in the mask. It is a wildcard
/// if and only if the slot is shared or none of the four entries is clear.
pub proof fn law_a_pin_takes_the_lowest_free_entry(shared: bool, mask: u8)
    ensures
        ({
            let entry = next_entry(shared, mask);
            &&& entry == usize::MAX <==> shared || (bit(mask, 0) && bit(mask, 1) && bit(mask, 2)
                && bit(mask, 3))
            &&& entry != usize::MAX ==> {
                &&& 0 <= entry < 4
                &&& !bit(mask, entry as int)
                &&& forall|e: int| 0 <= e < entry ==> #[trigger] bit(mask, e)
            }
        }),
{
    let entry = next_entry(shared, mask);
    assert(occupied(mask, 0) == bit(mask, 0));
    assert(occupied(mask, 1) == bit(mask, 1));
    assert(occupied(mask, 2) == bit(mask, 2));
    assert(occupied(mask, 3) == bit(mask, 3));
}

/// Taking an entry sets its bit and releasing it clears its bit; no other bit
/// moves. A wildcard takes no entry.
pub proof fn law_occupancy_moves_one_bit(mask: u8, entry: usize, e: int)
    requires
        entry == usize::MAX || entry < 4,
        0 <= e < 8,
    ensures
        bit(claimed_mask(mask, entry), e) == (e == entry || bit(mask, e)),
        bit(released_mask(mask, entry), e) == (e != entry && bit(mask, e)),
        entry == usize::MAX ==> claimed_mask(mask, entry) == mask && released_mask(mask, entry)
            == mask,
{
    if entry != WILDCARD {
        lemma_mask_with(mask, entry as int);
        lemma_mask_without(mask, entry as int);
        assert(occupied(claimed_mask(mask, entry), e) == (e == entry || occupied(mask, e)));
        assert(occupied(released_mask(mask, entry), e) == (e != entry && occupied(mask, e)));
    }
}

/// Releasing a pin undoes taking it: the occupancy mask is what it was, whichever
/// entry the pin went through.
pub proof fn law_a_release_restores_the_occupancy(shared: bool, mask: u8)
    ensures
        released_mask(
            claimed_mask(mask, next_entry(shared, mask)),
            next_entry(shared, mask),
        ) == mask,
{
    let entry = next_entry(shared, mask);
    law_a_pin_takes_the_lowest_free_entry(shared, mask);
    if entry != WILDCARD {
        law_vacate_undoes_occupy(mask, entry as int);
    }
}

/// Publishing a pin changes one word or one count and nothing else: every word and
/// every count that stood elsewhere stands.
pub proof fn law_a_pin_changes_one_word(r: RegistryView, slot: int, entry: usize, word: u64)
    requires
        r.wf(),
        0 <= slot < 256,
        entry == usize::MAX || entry < 4,
    ensures
        ({
            let post = r.pinned(slot, entry, word);
            &&& post.free == r.free
            &&& post.quarantine == r.quarantine
            &&& post.next == r.next
            &&& post.slots.len() == r.slots.len()
            &&& forall|i: int, e: int|
                0 <= i < 256 && 0 <= e < 4 && !(i == slot && e == entry) ==> (
                #[trigger] post.slots[i].pins[e]) == r.slots[i].pins[e]
            &&& forall|i: int|
                0 <= i < 256 && i != slot ==> (#[trigger] post.slots[i]).wildcard
                    == r.slots[i].wildcard
            &&& entry != usize::MAX ==> post.slots[slot].pins[entry as int] == word
                && post.slots[slot].wildcard == r.slots[slot].wildcard
            &&& entry == usize::MAX && r.slots[slot].wildcard < u64::MAX
                ==> post.slots[slot].wildcard == r.slots[slot].wildcard + 1
        }),
{
    assert forall|i: int| 0 <= i < 256 implies (#[trigger] r.slots[i]).pins.len() == 4 by {
        assert(r.slots[i].shaped());
    }
}

/// Releasing a pin clears one word or lowers one count and nothing else.
pub proof fn law_a_release_clears_one_word(r: RegistryView, slot: int, entry: usize)
    requires
        r.wf(),
        0 <= slot < 256,
        entry == usize::MAX || entry < 4,
    ensures
        ({
            let post = r.unpinned_at(slot, entry);
            &&& post.free == r.free
            &&& post.quarantine == r.quarantine
            &&& post.next == r.next
            &&& post.slots.len() == r.slots.len()
            &&& forall|i: int, e: int|
                0 <= i < 256 && 0 <= e < 4 && !(i == slot && e == entry) ==> (
                #[trigger] post.slots[i].pins[e]) == r.slots[i].pins[e]
            &&& forall|i: int|
                0 <= i < 256 && i != slot ==> (#[trigger] post.slots[i]).wildcard
                    == r.slots[i].wildcard
            &&& entry != usize::MAX ==> post.slots[slot].pins[entry as int] == 0
                && post.slots[slot].wildcard == r.slots[slot].wildcard
            &&& entry == usize::MAX && r.slots[slot].wildcard > 0
                ==> post.slots[slot].wildcard == r.slots[slot].wildcard - 1
        }),
{
    assert forall|i: int| 0 <= i < 256 implies (#[trigger] r.slots[i]).pins.len() == 4 by {
        assert(r.slots[i].shaped());
    }
}

/// What `Domain::pin` leaves behind: a thread that is registered goes on with its
/// own slot and the slot lists stand; in either case every word and count
/// published before still stands, and the one new word names this domain and its
/// epoch.
pub proof fn law_pinning_disturbs_no_other_pin<F>(d: Domain<F>, r: RegistryView, local: Local)
    requires
        d.wf(),
        r.wf(),
        local.mine is Some ==> r.usable(local.mine->0 as int, local.shared),
    ensures
        ({
            let after = registered_local(r, local);
            let slot = after.mine->0 as int;
            let entry = next_entry(after.shared, after.pin_mask);
            let word = pin_word(d.epoch as int, d.id as int) as u64;
            let post = once_registered(r, local).pinned(slot, entry, word);
            &&& after.mine is Some
            &&& 0 <= slot < 256
            &&& after.pin_mask == local.pin_mask
            &&& after.closed == local.closed
            &&& local.mine is Some ==> {
                &&& after == local
                &&& post.free == r.free
                &&& post.quarantine == r.quarantine
                &&& post.next == r.next
            }
            &&& local.mine is None ==> {
                &&& (after.mine->0, after.shared) == r.acquire_result()
                &&& post.free == r.acquired().free
                &&& post.quarantine == r.acquired().quarantine
                &&& post.next == r.acquired().next
            }
            &&& forall|i: int, e: int|
                0 <= i < 256 && 0 <= e < 4 && !(i == slot && e == entry) ==> (
                #[trigger] post.slots[i].pins[e]) == r.slots[i].pins[e]
            &&& forall|i: int|
                0 <= i < 256 && !(i == slot && entry == usize::MAX) ==> (
                #[trigger] post.slots[i]).wildcard == r.slots[i].wildcard
            &&& entry != usize::MAX ==> {
                let new = post.slots[slot].pins[entry as int];
                &&& new != 0
                &&& new as int / 0x100_0000 == d.epoch
                &&& new as int % 0x100_0000 == d.id as int % 0x100_0000
            }
            &&& entry == usize::MAX && r.slots[slot].wildcard < u64::MAX
                ==> post.slots[slot].wildcard == r.slots[slot].wildcard + 1
        }),
{
    let after = registered_local(r, local);
    let slot = after.mine->0 as int;
    let entry = next_entry(after.shared, after.pin_mask);
    let word = pin_word(d.epoch as int, d.id as int) as u64;
    let mid = once_registered(r, local);
    lemma_acquire_keeps_wf(r);
    law_acquisition_hands_over_one_slot(r);
    law_a_pin_takes_the_lowest_free_entry(after.shared, after.pin_mask);
    law_a_pin_names_its_epoch_and_domain(d.epoch, d.id, word, d.id);
    law_a_pin_changes_one_word(mid, slot, entry, word);
}

/// Whether some registration owns exclusive slot `i`: it was handed out, and is on
/// neither list of returned slots.
pub open spec fn owned(r: RegistryView, i: int) -> bool {
    &&& 0 <= i < 255
    &&& i < r.next
    &&& !r.free.contains(i as usize)
    &&& !r.quarantine.contains(i as usize)
}

/// Whether slot `i` publishes neither a word nor a count.
pub open spec fn quiet(r: RegistryView, i: int) -> bool {
    &&& r.slots[i].wildcard == 0
    &&& r.slots[i].pins[0] == 0
    &&& r.slots[i].pins[1] == 0
    &&& r.slots[i].pins[2] == 0
    &&& r.slots[i].pins[3] == 0
}

proof fn lemma_quiet(r: RegistryView, i: int)
    ensures
        r.slots[i].idle() == quiet(r, i),
{
    if r.slots[i].idle() {
        assert(r.slots[i].pins[0] == 0 && r.slots[i].pins[1] == 0);
        assert(r.slots[i].pins[2] == 0 && r.slots[i].pins[3] == 0);
    }
}

proof fn lemma_owned(r: RegistryView)
    ensures
        forall|i: int| #[trigger] owned(r, i) == r.leased(i),
{
}

/// An acquisition changes the owner of one slot only, and clears nothing.
///
/// It is shared exactly if no returned slot is left, every quarantined one still
/// publishes a pin, and all exclusive slots were handed out. Otherwise the slot it
/// hands over is quiet, was nobody's, and is off both lists; every other slot
/// stays on the list it was on, and with the owner it had.
pub proof fn law_acquisition_hands_over_one_slot(r: RegistryView)
    requires
        r.wf(),
    ensures
        ({
            let (slot, shared) = r.acquire_result();
            let post = r.acquired();
            &&& post.slots == r.slots
            &&& shared <==> r.free.len() == 0 && r.next >= 255 && forall|k: int|
                0 <= k < r.quarantine.len() ==> !quiet(r, (#[trigger] r.quarantine[k]) as int)
            &&& shared ==> {
                &&& slot == 255
                &&& post.free == r.free
                &&& post.quarantine == r.quarantine
                &&& post.next > 255
                &&& forall|i: int| #[trigger] owned(post, i) == owned(r, i)
            }
            &&& !shared ==> {
                &&& 0 <= slot < 255
                &&& quiet(r, slot as int)
                &&& !owned(r, slot as int)
                &&& owned(post, slot as int)
                &&& forall|i: int| i != slot ==> #[trigger] owned(post, i) == owned(r, i)
                &&& forall|u: usize| #[trigger]
                    post.free.contains(u) == (r.free.contains(u) && u != slot)
                &&& forall|u: usize| #[trigger]
                    post.quarantine.contains(u) == (r.quarantine.contains(u) && u != slot)
            }
        }),
{
    let (slot, shared) = r.acquire_result();
    let post = r.acquired();
    let k = r.recovery_index(0);
    lemma_acquire_keeps_wf(r);
    lemma_recovery_index(r, 0);
    lemma_quiet(r, slot as int);
    assert forall|j: int| 0 <= j < r.quarantine.len() implies r.slots[(
    #[trigger] r.quarantine[j]) as int].idle() == quiet(r, r.quarantine[j] as int) by {
        lemma_quiet(r, r.quarantine[j] as int);
    }
    if r.free.len() > 0 {
        let last = r.free.len() - 1;
        assert(r.free[last] == slot);
        assert forall|u: usize| #[trigger] post.free.contains(u) == (r.free.contains(u) && u
            != slot) by {
            if post.free.contains(u) {
                let j = choose|j: int| 0 <= j < post.free.len() && post.free[j] == u;
                assert(r.free[j] == u && r.free[j] != r.free[last]);
            }
            if r.free.contains(u) && u != slot {
                let j = choose|j: int| 0 <= j < r.free.len() && r.free[j] == u;
                assert(post.free[j] == u);
            }
        }
        assert(!r.quarantine.contains(slot));
        assert(r.free.contains(slot));
    } else if r.can_recover() {
        assert(r.quarantine[k] == slot);
        assert forall|u: usize| #[trigger]
            post.quarantine.contains(u) == (r.quarantine.contains(u) && u != slot) by {
            if post.quarantine.contains(u) {
                let j = choose|j: int| 0 <= j < post.quarantine.len() && post.quarantine[j] == u;
                let j2 = if j < k { j } else { j + 1 };
                assert(r.quarantine[j2] == u && r.quarantine[j2] != r.quarantine[k]);
            }
            if r.quarantine.contains(u) && u != slot {
                let j = choose|j: int| 0 <= j < r.quarantine.len() && r.quarantine[j] == u;
                let j2 = if j < k { j } else { j - 1 };
                assert(post.quarantine[j2] == u);
            }
        }
        assert(r.quarantine.contains(slot));
        assert(!r.free.contains(slot));
    } else if r.next < 255 {
        assert(!r.free.contains(slot));
        if r.quarantine.contains(slot) {
            let j = choose|j: int| 0 <= j < r.quarantine.len() && r.quarantine[j] == slot;
            assert(r.quarantine[j] < r.issued());
        }
        assert(r.slots[slot as int].idle());
    }
}

/// The high-water mark moves exactly when a slot is used that was never handed out,
/// or the shared one is: by one, until it is saturated.
pub proof fn law_the_high_water_mark_counts_first_uses(r: RegistryView)
    requires
        r.wf(),
    ensures
        ({
            let (slot, shared) = r.acquire_result();
            let post = r.acquired();
            &&& !shared && slot < r.next ==> post.next == r.next
            &&& shared || slot >= r.next ==> post.next == (if r.next < usize::MAX {
                r.next + 1
            } else {
                usize::MAX as int
            })
            &&& !shared ==> slot <= r.next
        }),
{
    lemma_recovery_index(r, 0);
    if r.free.len() > 0 {
        assert(r.free[r.free.len() - 1] < r.issued());
    } else if r.can_recover() {
        assert(r.quarantine[r.recovery_index(0)] < r.issued());
    }
}

/// Giving a slot back changes the owner of that slot only, clears nothing and
/// leaves the high-water mark. A quiet slot goes to the end of the free list, one
/// that still publishes a pin to the end of the quarantine. Leaving the shared slot
/// changes nothing.
pub proof fn law_a_return_hands_back_one_slot(r: RegistryView, idx: usize)
    requires
        r.wf(),
        owned(r, idx as int),
    ensures
        r.released(255, true) == r,
        ({
            let post = r.released(idx, false);
            &&& post.slots == r.slots
            &&& post.next == r.next
            &&& !owned(post, idx as int)
            &&& forall|i: int| i != idx ==> #[trigger] owned(post, i) == owned(r, i)
            &&& quiet(r, idx as int) ==> post.free == r.free.push(idx) && post.quarantine
                == r.quarantine
            &&& !quiet(r, idx as int) ==> post.quarantine == r.quarantine.push(idx) && post.free
                == r.free
        }),
{
    let post = r.released(idx, false);
    lemma_quiet(r, idx as int);
    if quiet(r, idx as int) {
        assert(post.free[r.free.len() as int] == idx);
        assert forall|u: usize| #[trigger] post.free.contains(u) == (r.free.contains(u) || u
            == idx) by {
            if r.free.contains(u) {
                let j = choose|j: int| 0 <= j < r.free.len() && r.free[j] == u;
                assert(post.free[j] == u);
            }
            if post.free.contains(u) {
                let j = choose|j: int| 0 <= j < post.free.len() && post.free[j] == u;
                if j < r.free.len() {
                    assert(r.free[j] == u);
                }
            }
        }
    } else {
        assert(post.quarantine[r.quarantine.len() as int] == idx);
        assert forall|u: usize| #[trigger] post.quarantine.contains(u) == (r.quarantine.contains(u)
            || u == idx) by {
            if r.quarantine.contains(u) {
                let j = choose|j: int| 0 <= j < r.quarantine.len() && r.quarantine[j] == u;
                assert(post.quarantine[j] == u);
            }
            if post.quarantine.contains(u) {
                let j = choose|j: int| 0 <= j < post.quarantine.len() && post.quarantine[j] == u;
                if j < r.quarantine.len() {
                    assert(r.quarantine[j] == u);
                }
            }
        }
    }
}

/// Acquiring right after a quiet slot was given back undoes the return: the same
/// slot is handed over, and the registry is what it was.
pub proof fn law_acquiring_undoes_a_return(r: RegistryView, idx: usize)
    requires
        r.wf(),
        owned(r, idx as int),
        quiet(r, idx as int),
    ensures
        r.released(idx, false).acquire_result() == (idx, false),
        r.released(idx, false).acquired() == r,
{
    lemma_quiet(r, idx as int);
    let mid = r.released(idx, false);
    assert(mid.acquired().free =~= r.free);
}

/// Giving back, unused, a slot that came off the free list undoes the acquisition.
pub proof fn law_a_return_undoes_an_acquisition(r: RegistryView)
    requires
        r.wf(),
        r.free.len() > 0,
    ensures
        r.acquired().released(r.acquire_result().0, r.acquire_result().1) == r,
{
    let slot = r.acquire_result().0;
    assert(r.free[r.free.len() - 1] == slot);
    let post = r.acquired().released(slot, false);
    assert(post.free =~= r.free);
}

/// Two slots that are given back are both used again, the later one first, before
/// any new slot is: after two acquisitions the registry is what it was.
pub proof fn law_returned_slots_are_used_up_first(r: RegistryView, idx: usize, other: usize)
    requires
        r.wf(),
        owned(r, idx as int),
        owned(r, other as int),
        idx != other,
        quiet(r, idx as int),
        quiet(r, other as int),
    ensures
        ({
            let both = r.released(idx, false).released(other, false);
            &&& both.acquire_result() == (other, false)
            &&& both.acquired().acquire_result() == (idx, false)
            &&& both.acquired().acquired() == r
        }),
{
    let mid = r.released(idx, false);
    lemma_owned(r);
    lemma_release_keeps_wf(r, idx);
    law_a_return_hands_back_one_slot(r, idx);
    assert(owned(mid, other as int));
    law_acquiring_undoes_a_return(mid, other);
    law_acquiring_undoes_a_return(r, idx);
}

/// Two registrations in a row never own one exclusive slot, and the first still owns
/// its slot after the second is made.
pub proof fn law_two_registrations_own_different_slots(r: RegistryView)
    requires
        r.wf(),
        !r.acquire_result().1,
    ensures
        ({
            let (first, _) = r.acquire_result();
            let (second, shared) = r.acquired().acquire_result();
            &&& first != second
            &&& shared ==> second == 255
            &&& owned(r.acquired().acquired(), first as int)
            &&& !shared ==> owned(r.acquired().acquired(), second as int)
        }),
{
    lemma_acquire_keeps_wf(r);
    law_acquisition_hands_over_one_slot(r);
    law_acquisition_hands_over_one_slot(r.acquired());
    let (first, _) = r.acquire_result();
    assert(owned(r.acquired(), first as int));
}

/// How available capacity moves: an exclusive acquisition takes one slot from it, a
/// shared one finds none, a quiet return adds one, and the return of a slot that
/// still publishes a pin adds to the pinned quarantine instead.
pub proof fn law_capacity_moves_by_one(r: RegistryView, idx: usize)
    requires
        r.wf(),
        owned(r, idx as int),
    ensures
        r.acquire_result().1 ==> available_count(r) == 0 && available_count(r.acquired()) == 0,
        !r.acquire_result().1 ==> available_count(r.acquired()) == available_count(r) - 1,
        pinned_count(r.acquired()) == pinned_count(r),
        quiet(r, idx as int) ==> available_count(r.released(idx, false)) == available_count(r) + 1
            && pinned_count(r.released(idx, false)) == pinned_count(r),
        !quiet(r, idx as int) ==> available_count(r.released(idx, false)) == available_count(r)
            && pinned_count(r.released(idx, false)) == pinned_count(r) + 1,
{
    let p = still_pinned(r.slots);
    let k = r.recovery_index(0);
    let q = r.quarantine;
    lemma_quiet(r, idx as int);
    lemma_recovery_index(r, 0);
    crate::laws::law_acquisition_is_exclusive_while_capacity_lasts(r);
    if r.free.len() == 0 && r.can_recover() {
        let one = seq![q[k]];
        assert(q =~= q.take(k) + one + q.skip(k + 1));
        assert(r.acquired().quarantine =~= q.take(k) + q.skip(k + 1));
        Seq::filter_distributes_over_add(q.take(k) + one, q.skip(k + 1), p);
        Seq::filter_distributes_over_add(q.take(k), one, p);
        Seq::filter_distributes_over_add(q.take(k), q.skip(k + 1), p);
        lemma_filter_one(q[k], p);
    }
    Seq::filter_distributes_over_add(q, seq![idx], p);
    assert(q.push(idx) =~= q + seq![idx]);
    lemma_filter_one(idx, p);
}

proof fn lemma_filter_one<A>(x: A, p: spec_fn(A) -> bool)
    ensures
        seq![x].filter(p).len() == (if p(x) {
            1nat
        } else {
            0nat
        }),
{
    reveal(Seq::filter);
    assert(seq![x].drop_last() =~= Seq::<A>::empty());
    assert(seq![x].drop_last().filter(p).len() == 0);
    assert(seq![x].last() == x);
}

/// The exclusive slots that are quarantined and still publish a pin.
pub open spec fn held_back(r: RegistryView) -> Set<int> {
    Set::new(|i: int| 0 <= i < 255 && r.quarantine.contains(i as usize) && !quiet(r, i))
}

/// The exclusive slots that some registration owns.
pub open spec fn in_use(r: RegistryView) -> Set<int> {
    Set::new(|i: int| owned(r, i))
}

/// The capacity figures count slots: those quarantined under a pin, and those that
/// are neither that nor owned.
pub proof fn law_capacity_figures_count_slots(r: RegistryView)
    requires
        r.wf(),
    ensures
        held_back(r).finite(),
        in_use(r).finite(),
        pinned_count(r) == held_back(r).len(),
        available_count(r) == 255 - in_use(r).len() - held_back(r).len(),
{
    lemma_issued_partition(r);
    lemma_owned(r);
    assert(in_use(r) =~= leased_slots(r));
    let p = still_pinned(r.slots);
    let f = r.quarantine.filter(p);
    let m = f.map_values(|i: usize| i as int);
    lemma_filter_keeps_distinct(r.quarantine, p);
    assert(m.no_duplicates()) by {
        assert forall|i: int, j: int| 0 <= i < m.len() && 0 <= j < m.len() && i != j implies m[i]
            != m[j] by {
            assert(f[i] != f[j]);
        }
    }
    m.unique_seq_to_set();
    assert forall|i: int| held_back(r).contains(i) == m.to_set().contains(i) by {
        lemma_quiet(r, i);
        if held_back(r).contains(i) {
            let j = choose|j: int| 0 <= j < r.quarantine.len() && r.quarantine[j] == i as usize;
            r.quarantine.lemma_filter_contains(p, j);
            let l = choose|l: int| 0 <= l < f.len() && f[l] == i as usize;
            assert(m[l] == i);
        }
        if m.contains(i) {
            let l = choose|l: int| 0 <= l < m.len() && m[l] == i;
            assert(f.contains(f[l]));
            r.quarantine.lemma_filter_contains_rev(p, f[l]);
            r.quarantine.lemma_filter_pred(p, l);
            let j = choose|j: int| 0 <= j < r.quarantine.len() && r.quarantine[j] == f[l];
            assert(r.quarantine[j] < r.issued());
        }
    }
    assert(held_back(r) =~= m.to_set());
}

proof fn lemma_filter_keeps_distinct<A>(s: Seq<A>, p: spec_fn(A) -> bool)
    requires
        s.no_duplicates(),
    ensures
        s.filter(p).no_duplicates(),
    decreases s.len(),
{
    reveal(Seq::filter);
    if s.len() > 0 {
        let front = s.drop_last();
        lemma_filter_keeps_distinct(front, p);
        let kept = front.filter(p);
        assert forall|i: int| 0 <= i < kept.len() implies #[trigger] kept[i] != s.last() by {
            assert(kept.contains(kept[i]));
            front.lemma_filter_contains_rev(p, kept[i]);
            let j = choose|j: int| 0 <= j < front.len() && front[j] == kept[i];
            assert(s[j] != s[s.len() - 1]);
        }
    }
}

/// Whether some slot publishes a wildcard.
pub open spec fn blocked(r: RegistryView) -> bool {
    exists|i: int| 0 <= i < 256 && (#[trigger] r.slots[i]).wildcard != 0
}

/// Whether no published pin of domain `id` is as old as `epoch`.
pub open spec fn out_of_reach(r: RegistryView, id: u64, epoch: u64) -> bool {
    forall|i: int, e: int|
        0 <= i < 256 && 0 <= e < 4 && (#[trigger] r.slots[i].pins[e]) != 0
            && r.slots[i].pins[e] as int % 0x100_0000 == id as int % 0x100_0000
            ==> r.slots[i].pins[e] as int / 0x100_0000 > epoch
}

/// The queued retirements that no reader of domain `id` can reach any more.
pub open spec fn unreachable<F>(r: RegistryView, id: u64) -> spec_fn(Retirement<F>) -> bool {
    |x: Retirement<F>| out_of_reach(r, id, x.epoch)
}

/// A scan looks at every word that is published anywhere. It is refused if and
/// only if there is nothing to do or some slot publishes a wildcard; otherwise its
/// bound is the oldest epoch published for the domain, and one more than the
/// domain's own epoch if none is older than that.
pub proof fn law_a_scan_sees_every_pin<F>(d: Domain<F>, r: RegistryView, limit: int)
    requires
        d.wf(),
        r.wf(),
    ensures
        d.planned_scan(r, limit) is None <==> limit == 0 || d.garbage.entries@.len() == 0
            || blocked(r),
        d.planned_scan(r, limit) matches Some(scan) ==> {
            &&& scan.id == d.id
            &&& scan.cutoff == d.garbage.next_sequence
            &&& scan.now == d.epoch
            &&& scan.min_pinned <= d.epoch + 1
            &&& forall|i: int, e: int|
                0 <= i < 256 && 0 <= e < 4 && (#[trigger] r.slots[i].pins[e]) != 0
                    && r.slots[i].pins[e] as int % 0x100_0000 == d.id as int % 0x100_0000
                    ==> scan.min_pinned <= r.slots[i].pins[e] as int / 0x100_0000
            &&& scan.min_pinned <= d.epoch ==> exists|i: int, e: int|
                0 <= i < 256 && 0 <= e < 4 && (#[trigger] r.slots[i].pins[e]) != 0
                    && r.slots[i].pins[e] as int % 0x100_0000 == d.id as int % 0x100_0000
                    && scan.min_pinned == r.slots[i].pins[e] as int / 0x100_0000
        },
{
    let slots = r.slots.take(r.active());
    assert(any_wildcard(slots) == blocked(r)) by {
        if any_wildcard(slots) {
            let i = choose|i: int| 0 <= i < slots.len() && (#[trigger] slots[i]).wildcard != 0;
            assert(r.slots[i].wildcard != 0);
        }
        if blocked(r) {
            let i = choose|i: int| 0 <= i < 256 && (#[trigger] r.slots[i]).wildcard != 0;
            assert(!r.slots[i].idle());
            assert(slots[i].wildcard != 0);
        }
    }
    law_scan_finds_the_oldest_reader(slots, d.id, d.epoch + 1);
    lemma_oldest_pinned_range(slots, d.id, d.epoch + 1);
    let m = oldest_pinned(slots, d.id, d.epoch + 1);
    assert forall|i: int, e: int|
        0 <= i < 256 && 0 <= e < 4 && (#[trigger] r.slots[i].pins[e]) != 0
            && r.slots[i].pins[e] as int % 0x100_0000 == d.id as int % 0x100_0000 implies m
        <= r.slots[i].pins[e] as int / 0x100_0000 by {
        assert(!r.slots[i].idle());
        assert(r.slots[i].shaped());
        law_words_are_read_as_they_are_packed(r.slots[i].pins[e], d.id);
        assert(sees(slots, d.id, i, e));
    }
    if m <= d.epoch {
        let (i, e) = choose|i: int, e: int| #[trigger]
            sees(slots, d.id, i, e) && m == word_epoch(slots[i].pins[e]);
        assert(r.slots[i].shaped());
        law_words_are_read_as_they_are_packed(r.slots[i].pins[e], d.id);
        assert(r.slots[i].pins[e] == slots[i].pins[e]);
    }
}

/// How a walk over a queue that stops after `limit` hits splits it: `batch` are the
/// hits among the first `k`, and `rest` is what comes after those, followed by the
/// misses among them. It stops at the last hit it may take, or at the end.
pub open spec fn splits<A>(
    queue: Seq<A>,
    hit: spec_fn(A) -> bool,
    limit: int,
    k: int,
    batch: Seq<A>,
    rest: Seq<A>,
) -> bool {
    &&& 0 <= k <= queue.len()
    &&& batch == queue.take(k).filter(hit)
    &&& rest == queue.skip(k) + queue.take(k).filter(|x: A| !hit(x))
    &&& batch.len() <= limit
    &&& k == queue.len() || batch.len() == limit
    &&& batch.len() == limit && k > 0 ==> hit(queue[k - 1])
}

proof fn lemma_inspected_stops<F>(queue: Seq<Retirement<F>>, scan: Scan, limit: int)
    requires
        limit >= 0,
    ensures
        ({
            let k = inspected(queue, scan, limit);
            let n = queue.take(k).filter(covered(scan)).len();
            &&& k < queue.len() ==> n == limit
            &&& n == limit && k > 0 ==> covers(scan, queue[k - 1])
        }),
    decreases queue.len(),
{
    let p = covered::<F>(scan);
    let k = inspected(queue, scan, limit);
    reveal(Seq::filter);
    if queue.len() == 0 || limit == 0 {
        assert(queue.take(0).filter(p).len() == 0);
    } else {
        let rest = queue.skip(1);
        let left = if covers(scan, queue[0]) {
            limit - 1
        } else {
            limit
        };
        lemma_inspected_stops(rest, scan, left);
        lemma_inspected(rest, scan, left);
        let l = inspected(rest, scan, left);
        assert(k == l + 1);
        assert(queue.take(k) =~= seq![queue[0]] + rest.take(l));
        Seq::filter_distributes_over_add(seq![queue[0]], rest.take(l), p);
        lemma_filter_one(queue[0], p);
        if l > 0 {
            assert(rest[l - 1] == queue[k - 1]);
        } else {
            assert(rest.take(0).filter(p).len() == 0);
        }
    }
}

proof fn lemma_filter_same<A>(s: Seq<A>, p: spec_fn(A) -> bool, q: spec_fn(A) -> bool)
    requires
        forall|i: int| 0 <= i < s.len() ==> p(#[trigger] s[i]) == q(s[i]),
    ensures
        s.filter(p) == s.filter(q),
    decreases s.len(),
{
    reveal(Seq::filter);
    if s.len() > 0 {
        let front = s.drop_last();
        assert forall|i: int| 0 <= i < front.len() implies p(#[trigger] front[i]) == q(
            front[i],
        ) by {
            assert(front[i] == s[i]);
        }
        lemma_filter_same(front, p, q);
        assert(s[s.len() - 1] == s.last());
    }
}

/// What a scan allows to run: retirements numbered below its cutoff and stamped
/// strictly before its bound. A walk over the queue takes the first `limit` of
/// them, in order, and puts those it passes over behind the rest.
pub proof fn law_extraction_takes_the_first_that_may_run<F>(
    queue: Seq<Retirement<F>>,
    scan: Scan,
    limit: int,
    hit: spec_fn(Retirement<F>) -> bool,
)
    requires
        limit >= 0,
        forall|i: int|
            0 <= i < queue.len() ==> hit(#[trigger] queue[i]) == (queue[i].sequence < scan.cutoff
                && queue[i].epoch < scan.min_pinned),
    ensures
        exists|k: int| #[trigger]
            splits(
                queue,
                hit,
                limit,
                k,
                taken_out(queue, scan, limit),
                left_over(queue, scan, limit),
            ),
{
    let k = inspected(queue, scan, limit);
    let head = queue.take(k);
    lemma_inspected(queue, scan, limit);
    lemma_inspected_stops(queue, scan, limit);
    law_a_bounded_pass_uses_its_limit(queue, scan, limit);
    assert forall|i: int| 0 <= i < head.len() implies hit(#[trigger] head[i]) == covers(
        scan,
        head[i],
    ) by {
        assert(head[i] == queue[i]);
    }
    lemma_filter_same(head, covered(scan), hit);
    lemma_filter_same(head, withheld(scan), |x: Retirement<F>| !hit(x));
    if k > 0 {
        assert(hit(queue[k - 1]) == covers(scan, queue[k - 1]));
    }
    assert(splits(
        queue,
        hit,
        limit,
        k,
        taken_out(queue, scan, limit),
        left_over(queue, scan, limit),
    ));
}

/// What a pass that is not refused may run are exactly the retirements that no
/// reader can reach.
proof fn lemma_covered_is_unreachable<F>(d: Domain<F>, r: RegistryView, limit: int, j: int)
    requires
        d.wf(),
        r.wf(),
        d.planned_scan(r, limit) is Some,
        0 <= j < d.garbage.entries@.len(),
    ensures
        covers(d.planned_scan(r, limit)->0, d.garbage.entries@[j]) == out_of_reach(
            r,
            d.id,
            d.garbage.entries@[j].epoch,
        ),
{
    law_a_scan_sees_every_pin(d, r, limit);
    let scan = d.planned_scan(r, limit)->0;
    let x = d.garbage.entries@[j];
    assert(x.sequence < scan.cutoff);
    assert(x.epoch <= d.epoch);
    if out_of_reach(r, d.id, x.epoch) && scan.min_pinned <= d.epoch {
        let (i, e) = choose|i: int, e: int|
            0 <= i < 256 && 0 <= e < 4 && (#[trigger] r.slots[i].pins[e]) != 0
                && r.slots[i].pins[e] as int % 0x100_0000 == d.id as int % 0x100_0000
                && scan.min_pinned == r.slots[i].pins[e] as int / 0x100_0000;
        assert(r.slots[i].pins[e] as int / 0x100_0000 > x.epoch);
    }
}

/// What one pass does, in full. It changes nothing if it may run nothing, nothing
/// is queued or some slot publishes a wildcard. Otherwise it walks the queue, takes
/// out and calls the first `limit` retirements that no reader can reach, puts those
/// it passes over behind the rest, and moves the epoch on by one, up to the last
/// one that fits in 40 bits.
pub proof fn law_a_pass_walks_the_queue<F: FnOnce()>(
    d: Domain<F>,
    r: RegistryView,
    limit: int,
    post: Domain<F>,
    n: int,
)
    requires
        d.wf(),
        r.wf(),
        limit >= 0,
        d.advanced(r, limit, post, n),
    ensures
        limit == 0 || d.garbage.entries@.len() == 0 || blocked(r) ==> n == 0 && post == d,
        limit > 0 && d.garbage.entries@.len() > 0 && !blocked(r) ==> {
            &&& post.id == d.id
            &&& post.garbage.next_sequence == d.garbage.next_sequence
            &&& post.epoch == (if d.epoch < 0xff_ffff_ffff {
                d.epoch + 1
            } else {
                0xff_ffff_ffff
            })
            &&& exists|k: int, batch: Seq<Retirement<F>>|
                #[trigger] splits(
                    d.garbage.entries@,
                    unreachable(r, d.id),
                    limit,
                    k,
                    batch,
                    post.garbage.entries@,
                ) && n == batch.len() && forall|i: int|
                    0 <= i < batch.len() ==> call_ensures((#[trigger] batch[i]).run, (), ())
        },
{
    law_a_scan_sees_every_pin(d, r, limit);
    if d.planned_scan(r, limit) is Some {
        let queue = d.garbage.entries@;
        let scan = d.planned_scan(r, limit)->0;
        assert forall|j: int| 0 <= j < queue.len() implies unreachable::<F>(r, d.id)(
            #[trigger] queue[j],
        ) == (queue[j].sequence < scan.cutoff && queue[j].epoch < scan.min_pinned) by {
            lemma_covered_is_unreachable(d, r, limit, j);
        }
        law_extraction_takes_the_first_that_may_run(queue, scan, limit, unreachable(r, d.id));
        let k = choose|k: int| #[trigger]
            splits(
                queue,
                unreachable(r, d.id),
                limit,
                k,
                taken_out(queue, scan, limit),
                left_over(queue, scan, limit),
            );
        assert(splits(
            queue,
            unreachable(r, d.id),
            limit,
            k,
            taken_out(queue, scan, limit),
            post.garbage.entries@,
        ));
    }
}

/// A pass never runs what a reader may still hold: every queued retirement that was
/// stamped in the epoch of some pin published for the domain, or later, is still
/// queued after it. While any slot publishes a wildcard nothing changes at all.
pub proof fn law_a_pass_spares_what_readers_hold<F: FnOnce()>(
    d: Domain<F>,
    r: RegistryView,
    limit: int,
    post: Domain<F>,
    n: int,
)
    requires
        d.wf(),
        r.wf(),
        limit >= 0,
        d.advanced(r, limit, post, n),
    ensures
        (exists|i: int| 0 <= i < 256 && (#[trigger] r.slots[i]).wildcard != 0) ==> post == d && n
            == 0,
        forall|i: int, e: int, j: int|
            0 <= i < 256 && 0 <= e < 4 && 0 <= j < d.garbage.entries@.len() && (
            #[trigger] r.slots[i].pins[e]) != 0 && r.slots[i].pins[e] as int % 0x100_0000
                == d.id as int % 0x100_0000 && r.slots[i].pins[e] as int / 0x100_0000 <= (
            #[trigger] d.garbage.entries@[j]).epoch ==> post.garbage.entries@.contains(
                d.garbage.entries@[j],
            ),
{
    law_a_pass_walks_the_queue(d, r, limit, post, n);
    let queue = d.garbage.entries@;
    let rest = post.garbage.entries@;
    assert forall|i: int, e: int, j: int|
        0 <= i < 256 && 0 <= e < 4 && 0 <= j < queue.len() && (#[trigger] r.slots[i].pins[e]) != 0
            && r.slots[i].pins[e] as int % 0x100_0000 == d.id as int % 0x100_0000
            && r.slots[i].pins[e] as int / 0x100_0000 <= (
        #[trigger] queue[j]).epoch implies rest.contains(queue[j]) by {
        if limit == 0 || blocked(r) {
            assert(rest[j] == queue[j]);
        } else {
            let hit = unreachable::<F>(r, d.id);
            assert(!hit(queue[j]));
            lemma_miss_is_kept(queue, hit, limit, rest, j);
        }
    }
}

/// A walk keeps everything that is no hit.
proof fn lemma_miss_is_kept<A>(
    queue: Seq<A>,
    hit: spec_fn(A) -> bool,
    limit: int,
    rest: Seq<A>,
    j: int,
)
    requires
        exists|k: int, batch: Seq<A>| #[trigger] splits(queue, hit, limit, k, batch, rest),
        0 <= j < queue.len(),
        !hit(queue[j]),
    ensures
        rest.contains(queue[j]),
{
    let (k, batch) = choose|k: int, batch: Seq<A>| #[trigger]
        splits(queue, hit, limit, k, batch, rest);
    let miss = |x: A| !hit(x);
    let head = queue.take(k);
    if j < k {
        assert(head[j] == queue[j] && miss(head[j]));
        head.lemma_filter_contains(miss, j);
        let m = choose|m: int| 0 <= m < head.filter(miss).len() && head.filter(miss)[m] == head[j];
        assert(rest[queue.len() - k + m] == queue[j]);
    } else {
        assert(rest[j - k] == queue[j]);
    }
}

proof fn lemma_hits_and_misses<A>(s: Seq<A>, hit: spec_fn(A) -> bool)
    ensures
        s.filter(hit).len() + s.filter(|x: A| !hit(x)).len() == s.len(),
        s.filter(|x: A| !hit(x)).filter(hit).len() == 0,
    decreases s.len(),
{
    reveal(Seq::filter);
    let miss = |x: A| !hit(x);
    if s.len() > 0 {
        lemma_hits_and_misses(s.drop_last(), hit);
        if miss(s.last()) {
            let kept = s.drop_last().filter(miss);
            assert(s.filter(miss) == kept.push(s.last()));
            assert(kept.push(s.last()).drop_last() =~= kept);
        }
    } else {
        assert(s.filter(miss).filter(hit).len() == 0);
    }
}

/// A pass runs exactly as many callbacks as it may: the limit, or every queued
/// retirement that no reader can reach if those are fewer. The queue is shorter by
/// just that many.
pub proof fn law_a_pass_runs_up_to_its_limit<F: FnOnce()>(
    d: Domain<F>,
    r: RegistryView,
    limit: int,
    post: Domain<F>,
    n: int,
)
    requires
        d.wf(),
        r.wf(),
        limit >= 0,
        d.advanced(r, limit, post, n),
    ensures
        n <= limit,
        n == d.garbage.entries@.len() - post.garbage.entries@.len(),
        !blocked(r) ==> n == (if d.garbage.entries@.filter(unreachable(r, d.id)).len() <= limit {
            d.garbage.entries@.filter(unreachable(r, d.id)).len() as int
        } else {
            limit
        }),
        !blocked(r) ==> post.garbage.entries@.filter(unreachable(r, d.id)).len()
            == d.garbage.entries@.filter(unreachable(r, d.id)).len() - n,
{
    law_a_pass_walks_the_queue(d, r, limit, post, n);
    let queue = d.garbage.entries@;
    let rest = post.garbage.entries@;
    let hit = unreachable::<F>(r, d.id);
    if limit > 0 && queue.len() > 0 && !blocked(r) {
        let (k, batch) = choose|k: int, batch: Seq<Retirement<F>>|
            #[trigger] splits(queue, hit, limit, k, batch, rest) && n == batch.len();
        let head = queue.take(k);
        let tail = queue.skip(k);
        let kept = head.filter(|x: Retirement<F>| !hit(x));
        lemma_hits_and_misses(head, hit);
        assert(queue =~= head + tail);
        Seq::filter_distributes_over_add(head, tail, hit);
        Seq::filter_distributes_over_add(tail, kept, hit);
        if k == queue.len() {
            assert(tail.len() == 0);
            tail.lemma_filter_len(hit);
        }
    } else {
        reveal(Seq::filter);
        assert(queue.len() == 0 ==> queue.filter(hit).len() == 0);
    }
}

/// A pass leaves nothing behind that it could have run: unless it used up its limit
/// or some slot publishes a wildcard, everything still queued was stamped in the
/// epoch of some pin published for the domain, or later.
pub proof fn law_a_pass_leaves_only_what_readers_hold<F: FnOnce()>(
    d: Domain<F>,
    r: RegistryView,
    limit: int,
    post: Domain<F>,
    n: int,
    j: int,
)
    requires
        d.wf(),
        r.wf(),
        n < limit,
        d.advanced(r, limit, post, n),
        forall|i: int| 0 <= i < 256 ==> (#[trigger] r.slots[i]).wildcard == 0,
        0 <= j < post.garbage.entries@.len(),
    ensures
        exists|i: int, e: int|
            0 <= i < 256 && 0 <= e < 4 && (#[trigger] r.slots[i].pins[e]) != 0
                && r.slots[i].pins[e] as int % 0x100_0000 == d.id as int % 0x100_0000
                && r.slots[i].pins[e] as int / 0x100_0000 <= post.garbage.entries@[j].epoch,
{
    assert(!blocked(r));
    let rest = post.garbage.entries@;
    let hit = unreachable::<F>(r, d.id);
    law_a_pass_walks_the_queue(d, r, limit, post, n);
    law_a_pass_runs_up_to_its_limit(d, r, limit, post, n);
    assert(rest.filter(hit).len() == 0);
    if hit(rest[j]) {
        rest.lemma_filter_contains(hit, j);
    }
    assert(!out_of_reach(r, d.id, rest[j].epoch));
}

/// Two bounded passes over the same readers run as many callbacks as one pass with
/// room for both.
pub proof fn law_bounded_passes_add_up<F: FnOnce()>(
    d: Domain<F>,
    r: RegistryView,
    first: int,
    mid: Domain<F>,
    m: int,
    second: int,
    post: Domain<F>,
    n: int,
    whole: Domain<F>,
    total: int,
)
    requires
        d.wf(),
        mid.wf(),
        r.wf(),
        first >= 0,
        second >= 0,
        d.advanced(r, first, mid, m),
        mid.advanced(r, second, post, n),
        d.advanced(r, first + second, whole, total),
    ensures
        m + n == total,
        post.garbage.entries@.len() == whole.garbage.entries@.len(),
{
    law_a_pass_walks_the_queue(d, r, first, mid, m);
    law_a_pass_runs_up_to_its_limit(d, r, first, mid, m);
    law_a_pass_runs_up_to_its_limit(mid, r, second, post, n);
    law_a_pass_runs_up_to_its_limit(d, r, first + second, whole, total);
    law_a_pass_walks_the_queue(mid, r, second, post, n);
    law_a_pass_walks_the_queue(d, r, first + second, whole, total);
}

/// A pass loses nothing and makes up nothing. Whatever is queued after it was
/// queued before, unchanged, and whatever is not queued any more was called and was
/// out of every reader's reach. Older entries go first: where a retirement that
/// could have run stays, so does everything queued behind it.
pub proof fn law_a_pass_loses_nothing<F: FnOnce()>(
    d: Domain<F>,
    r: RegistryView,
    limit: int,
    post: Domain<F>,
    n: int,
    j: int,
)
    requires
        d.wf(),
        r.wf(),
        post.wf(),
        limit >= 0,
        d.advanced(r, limit, post, n),
        0 <= j < d.garbage.entries@.len(),
    ensures
        post.garbage.entries@.contains(d.garbage.entries@[j]) || (out_of_reach(
            r,
            d.id,
            d.garbage.entries@[j].epoch,
        ) && call_ensures(d.garbage.entries@[j].run, (), ())),
        forall|i: int|
            0 <= i < post.garbage.entries@.len() ==> d.garbage.entries@.contains(
                #[trigger] post.garbage.entries@[i],
            ),
        post.garbage.entries@.contains(d.garbage.entries@[j]) && out_of_reach(
            r,
            d.id,
            d.garbage.entries@[j].epoch,
        ) ==> forall|i: int|
            j <= i < d.garbage.entries@.len() ==> post.garbage.entries@.contains(
                #[trigger] d.garbage.entries@[i],
            ),
{
    law_a_pass_walks_the_queue(d, r, limit, post, n);
    let queue = d.garbage.entries@;
    let rest = post.garbage.entries@;
    let hit = unreachable::<F>(r, d.id);
    if limit > 0 && !blocked(r) {
        let (k, batch) = choose|k: int, batch: Seq<Retirement<F>>|
            #[trigger] splits(queue, hit, limit, k, batch, rest) && n == batch.len()
                && forall|i: int|
                0 <= i < batch.len() ==> call_ensures((#[trigger] batch[i]).run, (), ());
        assert(queue.no_duplicates()) by {
            assert forall|a: int, b: int|
                0 <= a < queue.len() && 0 <= b < queue.len() && a != b implies queue[a]
                != queue[b] by {
                if a < b {
                    assert(queue[a].sequence != queue[b].sequence);
                } else {
                    assert(queue[b].sequence != queue[a].sequence);
                }
            }
        }
        lemma_split_parts(queue, hit, limit, k, batch, rest);
        assert(hit(queue[j]) == out_of_reach(r, d.id, queue[j].epoch));
        if j < k {
            if hit(queue[j]) {
                assert(batch.contains(queue[j]));
                let m = choose|m: int| 0 <= m < batch.len() && batch[m] == queue[j];
                assert(call_ensures(batch[m].run, (), ()));
            } else {
                lemma_miss_is_kept(queue, hit, limit, rest, j);
            }
        }
    } else {
        assert forall|i: int| 0 <= i < queue.len() implies rest.contains(#[trigger] queue[i]) by {
            assert(rest[i] == queue[i]);
        }
    }
}

/// Where the entries of a walked queue end up.
proof fn lemma_split_parts<A>(
    queue: Seq<A>,
    hit: spec_fn(A) -> bool,
    limit: int,
    k: int,
    batch: Seq<A>,
    rest: Seq<A>,
)
    requires
        queue.no_duplicates(),
        splits(queue, hit, limit, k, batch, rest),
    ensures
        forall|i: int| 0 <= i < rest.len() ==> queue.contains(#[trigger] rest[i]),
        forall|i: int| k <= i < queue.len() ==> rest.contains(#[trigger] queue[i]),
        forall|i: int|
            0 <= i < k && hit(#[trigger] queue[i]) ==> batch.contains(queue[i]) && !rest.contains(
                queue[i],
            ),
{
    let head = queue.take(k);
    let miss = |x: A| !hit(x);
    let kept = head.filter(miss);
    assert forall|i: int| 0 <= i < kept.len() implies !hit(#[trigger] kept[i]) && head.contains(
        kept[i],
    ) by {
        head.lemma_filter_pred(miss, i);
        assert(kept.contains(kept[i]));
        head.lemma_filter_contains_rev(miss, kept[i]);
    }
    assert forall|i: int| k <= i < queue.len() implies rest.contains(#[trigger] queue[i]) by {
        assert(rest[i - k] == queue[i]);
    }
    assert forall|i: int| 0 <= i < rest.len() implies queue.contains(#[trigger] rest[i]) by {
        if i < queue.len() - k {
            assert(rest[i] == queue[k + i]);
        } else {
            let x = kept[i - (queue.len() - k)];
            assert(rest[i] == x);
            let l = choose|l: int| 0 <= l < head.len() && head[l] == x;
            assert(queue[l] == x);
        }
    }
    assert forall|i: int| 0 <= i < k && hit(#[trigger] queue[i]) implies batch.contains(queue[i])
        && !rest.contains(queue[i]) by {
        assert(head[i] == queue[i]);
        head.lemma_filter_contains(hit, i);
        if rest.contains(queue[i]) {
            let l = choose|l: int| 0 <= l < rest.len() && rest[l] == queue[i];
            if l < queue.len() - k {
                assert(rest[l] == queue[k + l]);
            } else {
                assert(rest[l] == kept[l - (queue.len() - k)]);
            }
        }
    }
}

/// Retiring puts one entry behind the others and touches none of them. It carries
/// the callback, the domain's epoch, and a number that no earlier one has.
pub proof fn law_retiring_appends_one_entry<F>(d: Domain<F>, f: F, post: Domain<F>)
    requires
        d.wf(),
        d.retired(f, post),
    ensures
        ({
            let before = d.garbage.entries@;
            let after = post.garbage.entries@;
            &&& post.id == d.id
            &&& post.epoch == d.epoch
            &&& after.len() == before.len() + 1
            &&& forall|i: int| 0 <= i < before.len() ==> #[trigger] after[i] == before[i]
            &&& after.last().run == f
            &&& after.last().epoch == d.epoch
            &&& forall|i: int|
                0 <= i < before.len() ==> (#[trigger] before[i]).sequence < after.last().sequence
            &&& after.last().sequence < post.garbage.next_sequence
        }),
{
}

/// A reader holds what is retired after it pinned.
///
/// Whatever slot and entry it pinned through, and whatever else is published or
/// queued: if its pin stands when a callback is retired and still stands when a
/// pass is made, that pass leaves the callback queued.
pub proof fn law_a_pin_protects_what_is_retired_after_it<F: FnOnce()>(
    d: Domain<F>,
    r: RegistryView,
    slot: int,
    entry: usize,
    f: F,
    mid: Domain<F>,
    limit: int,
    post: Domain<F>,
    n: int,
)
    requires
        d.wf(),
        mid.wf(),
        r.wf(),
        0 <= slot < 256,
        entry == usize::MAX || entry < 4,
        r.slots[slot].wildcard < u64::MAX,
        r.pinned(slot, entry, pin_word(d.epoch as int, d.id as int) as u64).wf(),
        d.retired(f, mid),
        limit >= 0,
        mid.advanced(
            r.pinned(slot, entry, pin_word(d.epoch as int, d.id as int) as u64),
            limit,
            post,
            n,
        ),
    ensures
        exists|i: int|
            0 <= i < post.garbage.entries@.len() && (#[trigger] post.garbage.entries@[i]).run == f
                && post.garbage.entries@[i].epoch == d.epoch
                && post.garbage.entries@[i].sequence == d.garbage.next_sequence,
{
    let word = pin_word(d.epoch as int, d.id as int) as u64;
    let held = r.pinned(slot, entry, word);
    law_a_pin_names_its_epoch_and_domain(d.epoch, d.id, word, d.id);
    law_a_pin_changes_one_word(r, slot, entry, word);
    law_a_pass_spares_what_readers_hold(mid, held, limit, post, n);
    let queue = mid.garbage.entries@;
    let last = queue.len() - 1;
    if entry == WILDCARD {
        assert(held.slots[slot].wildcard != 0);
        assert(post.garbage.entries@[last].run == f);
    } else {
        assert(held.slots[slot].pins[entry as int] == word);
        assert(post.garbage.entries@.contains(queue[last]));
        let i = choose|i: int|
            0 <= i < post.garbage.entries@.len() && post.garbage.entries@[i] == queue[last];
        assert(post.garbage.entries@[i].run == f);
    }
}

/// Once nobody is pinned, one pass with room for it calls everything that is
/// queued.
pub proof fn law_a_quiet_registry_holds_nothing<F: FnOnce()>(
    d: Domain<F>,
    r: RegistryView,
    limit: int,
    post: Domain<F>,
    n: int,
)
    requires
        d.wf(),
        post.wf(),
        r.wf(),
        forall|i: int| 0 <= i < 256 ==> #[trigger] quiet(r, i),
        limit >= d.garbage.entries@.len(),
        d.advanced(r, limit, post, n),
    ensures
        n == d.garbage.entries@.len(),
        post.garbage.entries@.len() == 0,
        forall|j: int|
            0 <= j < d.garbage.entries@.len() ==> call_ensures(
                (#[trigger] d.garbage.entries@[j]).run,
                (),
                (),
            ),
{
    let queue = d.garbage.entries@;
    assert(!blocked(r)) by {
        if blocked(r) {
            let i = choose|i: int| 0 <= i < 256 && (#[trigger] r.slots[i]).wildcard != 0;
            assert(quiet(r, i));
        }
    }
    assert forall|i: int, e: int| 0 <= i < 256 && 0 <= e < 4 implies (
    #[trigger] r.slots[i].pins[e]) == 0 by {
        assert(quiet(r, i));
    }
    let hit = unreachable::<F>(r, d.id);
    assert forall|j: int| 0 <= j < queue.len() implies hit(#[trigger] queue[j]) by {}
    lemma_filter_same(queue, hit, |x: Retirement<F>| true);
    lemma_filter_true(queue);
    law_a_pass_runs_up_to_its_limit(d, r, limit, post, n);
    assert forall|j: int| 0 <= j < queue.len() implies call_ensures(
        (#[trigger] queue[j]).run,
        (),
        (),
    ) by {
        law_a_pass_loses_nothing(d, r, limit, post, n, j);
    }
}

proof fn lemma_filter_true<A>(s: Seq<A>)
    ensures
        s.filter(|x: A| true) == s,
    decreases s.len(),
{
    reveal(Seq::filter);
    if s.len() > 0 {
        lemma_filter_true(s.drop_last());
        assert(s.drop_last().push(s.last()) =~= s);
    } else {
        assert(s.filter(|x: A| true) =~= s);
    }
}

/// Renewing keeps every entry where it is, with its callback and its number, and
/// puts all of them before the first epoch that a pin can have.
pub proof fn law_renewing_only_ages_entries<F>(d: Domain<F>, post: Domain<F>)
    requires
        d.wf(),
        d.renewed(post),
    ensures
        ({
            let before = d.garbage.entries@;
            let after = post.garbage.entries@;
            &&& post.id == d.id
            &&& post.epoch == 1
            &&& post.garbage.next_sequence == d.garbage.next_sequence
            &&& after.len() == before.len()
            &&& forall|i: int|
                0 <= i < before.len() ==> (#[trigger] after[i]).run == before[i].run
                    && after[i].sequence == before[i].sequence && after[i].epoch == 0
        }),
{
}

/// The epoch of a domain moves by one and stops at the last one that fits in 40
/// bits.
pub proof fn law_the_next_epoch_is_one_later(now: u64)
    requires
        now <= 0xff_ffff_ffff,
    ensures
        now < 0xff_ffff_ffff ==> next_epoch(now) == now + 1,
        now == 0xff_ffff_ffff ==> next_epoch(now) == now,
{
}

/// A guard is one word that names its slot and entry, and two guards are the same
/// word only if they name the same.
pub proof fn law_a_guard_names_its_slot_and_entry(g: Guard, slot: int, entry: usize)
    requires
        0 <= slot < 256,
        entry == usize::MAX || entry < 4,
        g.packed == slot * 8 + entry_tag(entry),
    ensures
        g.slot() == slot,
        g.held_entry() == entry,
        g.packed == slot * 8 + (if entry == usize::MAX {
            0
        } else {
            entry + 1
        }),
{
}

/// A stored key word is the key plus one; zero stands for no key.
pub proof fn law_keys_are_stored_plus_one(key: usize)
    requires
        key < usize::MAX,
    ensures
        key_of(0) is None,
        key_of((key + 1) as usize) == Some(key),
{
}

} // verus!
