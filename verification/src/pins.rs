//! Packed pin words and per-registration occupancy masks.
//!
//! A pin is one word: the epoch the reader sampled in the high 40 bits and the
//! low 24 bits of the domain id below it. A registration owns four such words
//! and remembers which of them are taken in a small bit mask.
use vstd::prelude::*;
use vstd::std_specs::bits::axiom_u8_trailing_zeros;

verus! {

/// Normal simultaneous pins per registration.
pub const PINS_PER_THREAD: usize = 4;

/// Empty pin entry. Published epochs start at 1, so a packed pin is never this
/// value even if its truncated domain id is zero.
pub const NO_DOMAIN: u64 = 0;

/// Bits of a packed entry given to the domain id, leaving 40 for the epoch.
pub const DOMAIN_BITS: u32 = 24;

/// The bits of a packed entry that hold the domain id.
pub const DOMAIN_MASK: u64 = 0xff_ffff;

/// The largest epoch that fits above the domain id.
pub const MAX_EPOCH: u64 = 0xff_ffff_ffff;

/// The entry value that stands for a wildcard pin.
pub const WILDCARD: usize = usize::MAX;

/// Number of distinct truncated domain ids.
pub open spec fn domain_span() -> int {
    0x100_0000
}

/// The word a reader of domain `id` publishes after sampling `epoch`.
pub open spec fn pin_word(epoch: int, id: int) -> int {
    epoch * domain_span() + id % domain_span()
}

/// The epoch held in a pin word.
pub open spec fn word_epoch(word: u64) -> int {
    word as int / domain_span()
}

/// Whether a pin word holds a pin that domain `id` has to respect.
///
/// Ids that agree in their low 24 bits are not told apart, which only makes a
/// domain wait for readers that are not its own.
pub open spec fn word_matches(word: u64, id: u64) -> bool {
    word != NO_DOMAIN && word as int % domain_span() == id as int % domain_span()
}

/// Packs an epoch and a domain id into one pin word.
pub fn pack_pin(epoch: u64, id: u64) -> (word: u64)
    requires
        epoch <= MAX_EPOCH,
    ensures
        word == pin_word(epoch as int, id as int),
{
    assert((epoch << 24u32) | (id & 0xff_ffff) == epoch * 0x100_0000 + id % 0x100_0000)
        by (bit_vector)
        requires
            epoch <= 0xff_ffff_ffffu64,
    ;
    (epoch << DOMAIN_BITS) | (id & DOMAIN_MASK)
}

/// The epoch of a pin word.
pub fn unpack_epoch(word: u64) -> (epoch: u64)
    ensures
        epoch == word_epoch(word),
        epoch <= MAX_EPOCH,
{
    assert(word >> 24u32 == word / 0x100_0000 && word >> 24u32 <= 0xff_ffff_ffffu64)
        by (bit_vector);
    word >> DOMAIN_BITS
}

/// Whether `word` is a pin that domain `id` has to respect.
pub fn pin_matches(word: u64, id: u64) -> (b: bool)
    ensures
        b == word_matches(word, id),
{
    assert(word & 0xff_ffff == word % 0x100_0000) by (bit_vector);
    assert(id & 0xff_ffff == id % 0x100_0000) by (bit_vector);
    word != NO_DOMAIN && (word & DOMAIN_MASK) == (id & DOMAIN_MASK)
}

/// A packed pin of a live epoch is never mistaken for an empty entry, and it
/// gives back the epoch it was made from to its own domain.
pub proof fn law_pin_word_round_trip(epoch: u64, id: u64, word: u64)
    requires
        1 <= epoch <= MAX_EPOCH,
        word == pin_word(epoch as int, id as int),
    ensures
        word != NO_DOMAIN,
        word_epoch(word) == epoch,
        word_matches(word, id),
{
}

/// A pin of one domain is invisible to every domain whose low 24 id bits differ.
pub proof fn law_pin_word_is_domain_specific(epoch: u64, id: u64, other: u64, word: u64)
    requires
        epoch <= MAX_EPOCH,
        word == pin_word(epoch as int, id as int),
        id as int % domain_span() != other as int % domain_span(),
    ensures
        !word_matches(word, other),
{
}

/// Whether the mask records `entry` as taken.
pub open spec fn occupied(mask: u8, entry: int) -> bool {
    (mask >> entry as u8) & 1 == 1
}

/// The lowest entry that is not taken, or `PINS_PER_THREAD` if all are.
pub open spec fn first_free(mask: u8) -> int {
    if !occupied(mask, 0) {
        0
    } else if !occupied(mask, 1) {
        1
    } else if !occupied(mask, 2) {
        2
    } else if !occupied(mask, 3) {
        3
    } else {
        4
    }
}

/// The entry a registration pins through next: its lowest free entry, or the
/// wildcard when it shares its slot or has no entry left.
pub open spec fn next_entry(shared: bool, mask: u8) -> usize {
    if shared || first_free(mask) == PINS_PER_THREAD {
        WILDCARD
    } else {
        first_free(mask) as usize
    }
}

/// Chooses the entry for the next pin of a registration.
pub fn choose_entry(shared: bool, mask: u8) -> (entry: usize)
    ensures
        entry == next_entry(shared, mask),
        entry != WILDCARD ==> entry < PINS_PER_THREAD && !occupied(mask, entry as int),
{
    if shared {
        return WILDCARD;
    }
    if mask == 0 {
        assert((0u8 >> 0u8) & 1u8 == 0u8) by (bit_vector);
        return 0;
    }
    let free: u32 = (!mask).trailing_zeros();
    proof {
        axiom_u8_trailing_zeros(!mask);
        assert(forall|j: u8| j < 8 ==> #[trigger] ((!mask) >> j) & 1u8 == 0u8 ==> (mask >> j) & 1u8 == 1u8) by (bit_vector);
        assert(forall|j: u8| j < 8 ==> #[trigger] ((!mask) >> j) & 1u8 == 1u8 ==> (mask >> j) & 1u8 == 0u8) by (bit_vector);
        let m = !mask;
        assert(free > 0 ==> (m >> 0u8) & 1u8 == 0u8);
        assert(free > 1 ==> (m >> 1u8) & 1u8 == 0u8);
        assert(free > 2 ==> (m >> 2u8) & 1u8 == 0u8);
        assert(free > 3 ==> (m >> 3u8) & 1u8 == 0u8);
    }
    if (free as usize) < PINS_PER_THREAD {
        free as usize
    } else {
        WILDCARD
    }
}

/// The mask with `entry` recorded as taken.
pub open spec fn mask_with(mask: u8, entry: int) -> u8 {
    mask | (1u8 << entry as u8)
}

/// The mask with `entry` recorded as free.
pub open spec fn mask_without(mask: u8, entry: int) -> u8 {
    mask & !(1u8 << entry as u8)
}

/// Taking an entry changes the record of that entry and of no other.
pub proof fn lemma_mask_with(mask: u8, entry: int)
    requires
        0 <= entry < PINS_PER_THREAD,
    ensures
        forall|e: int|
            0 <= e < 8 ==> #[trigger] occupied(mask_with(mask, entry), e) == (e == entry
                || occupied(mask, e)),
{
    let bit = entry as u8;
    let m = mask | (1u8 << bit);
    assert forall|e: int| 0 <= e < 8 implies #[trigger] occupied(m, e) == (e == entry || occupied(
        mask,
        e,
    )) by {
        let f = e as u8;
        assert(((m >> f) & 1u8 == 1u8) == (f == bit || (mask >> f) & 1u8 == 1u8)) by (bit_vector)
            requires
                f < 8,
                bit < 4,
                m == mask | (1u8 << bit),
        ;
    }
}

/// Freeing an entry changes the record of that entry and of no other.
pub proof fn lemma_mask_without(mask: u8, entry: int)
    requires
        0 <= entry < PINS_PER_THREAD,
    ensures
        forall|e: int|
            0 <= e < 8 ==> #[trigger] occupied(mask_without(mask, entry), e) == (e != entry
                && occupied(mask, e)),
{
    let bit = entry as u8;
    let m = mask & !(1u8 << bit);
    assert forall|e: int| 0 <= e < 8 implies #[trigger] occupied(m, e) == (e != entry && occupied(
        mask,
        e,
    )) by {
        let f = e as u8;
        assert(((m >> f) & 1u8 == 1u8) == (f != bit && (mask >> f) & 1u8 == 1u8)) by (bit_vector)
            requires
                f < 8,
                bit < 4,
                m == mask & !(1u8 << bit),
        ;
    }
}

/// Freeing an entry undoes taking it.
pub proof fn law_vacate_undoes_occupy(mask: u8, entry: int)
    requires
        0 <= entry < PINS_PER_THREAD,
        !occupied(mask, entry),
    ensures
        mask_without(mask_with(mask, entry), entry) == mask,
{
    let bit = entry as u8;
    assert((mask | (1u8 << bit)) & !(1u8 << bit) == mask) by (bit_vector)
        requires
            bit < 4,
            (mask >> bit) & 1u8 != 1u8,
    ;
    assert((mask >> bit) & 1u8 != 1u8);
}

/// A hole left by an out-of-order release is the next entry to be taken,
/// whenever every lower entry is still held.
pub proof fn law_lowest_hole_is_reused(mask: u8, hole: int)
    requires
        0 <= hole < PINS_PER_THREAD,
        forall|e: int| 0 <= e < hole ==> occupied(mask, e),
    ensures
        next_entry(false, mask_without(mask, hole)) == hole,
{
    lemma_mask_without(mask, hole);
    let m = mask_without(mask, hole);
    assert(occupied(m, 0) == (0 != hole && occupied(mask, 0)));
    assert(occupied(m, 1) == (1 != hole && occupied(mask, 1)));
    assert(occupied(m, 2) == (2 != hole && occupied(mask, 2)));
    assert(occupied(m, 3) == (3 != hole && occupied(mask, 3)));
}

/// Records `entry` as taken.
pub fn occupy(mask: u8, entry: usize) -> (m: u8)
    requires
        entry < PINS_PER_THREAD,
    ensures
        m == mask_with(mask, entry as int),
{
    mask | (1u8 << (entry as u8))
}

/// Records `entry` as free again.
pub fn vacate(mask: u8, entry: usize) -> (m: u8)
    requires
        entry < PINS_PER_THREAD,
    ensures
        m == mask_without(mask, entry as int),
{
    mask & !(1u8 << (entry as u8))
}

} // verus!
