//! Slots, leases, quarantine, packed words and keys.

use ps_reclaim::guard::Guard;
use ps_reclaim::local::{install_lease, participant_in, register, Local, OwnedLocal, SlotLease};
use ps_reclaim::pins::{
    choose_entry, occupy, pack_pin, pin_matches, unpack_epoch, vacate, MAX_EPOCH, WILDCARD,
};
use ps_reclaim::registry::{Participant, Registry};
use ps_reclaim::scan::Scan;
use ps_reclaim::tls::{access, bias, settle_key, unbias, Access, Tls};
use ps_reclaim::{registry_stats, slots_handed_out, MAX_NESTED_PINS, MAX_THREADS};

#[test]
fn saturated_registration_counter_never_reissues_an_exclusive_slot() {
    let mut registry = Registry {
        slots: (0..MAX_THREADS).map(|_| Participant::new()).collect(),
        free: Vec::new(),
        quarantine: Vec::new(),
        next: usize::MAX,
    };
    for _ in 0..3 {
        assert_eq!(registry.acquire(), (MAX_THREADS - 1, true));
    }
    assert_eq!(registry.next, usize::MAX);
}

#[test]
fn acquisition_prefers_returned_then_quarantined_then_new_slots() {
    let mut registry = Registry::new();
    for expected in 0..3 {
        assert_eq!(registry.acquire(), (expected, false));
    }
    // Slot 0 goes to quarantine under a pin, slot 1 comes back idle.
    registry.slots[0].store(2, 77);
    registry.release(0, false);
    registry.release(1, false);
    assert_eq!(registry.free, vec![1]);
    assert_eq!(registry.quarantine, vec![0]);
    assert_eq!(registry.acquire(), (1, false));
    // Quarantined but still pinned: a new slot is taken.
    assert_eq!(registry.acquire(), (3, false));
    registry.slots[0].store(2, 0);
    assert_eq!(registry.acquire(), (0, false));
    assert_eq!(slots_handed_out(&registry), 4);
    assert!(registry.quarantine.is_empty());
}

#[test]
fn a_remaining_wildcard_prevents_reuse_after_the_normal_pin_has_cleared() {
    let mut registry = Registry::new();
    let (idx, shared) = registry.acquire();
    let mut mask = 0;
    assert_eq!(registry.claim(idx, shared, &mut mask, 99), 0);
    assert_eq!(registry.slots[idx].pin_wildcard(), usize::MAX);
    registry.release(idx, shared);
    registry.unclaim(idx, 0);
    assert_eq!(registry.acquire(), (1, false));
    assert_eq!(registry.quarantine, vec![idx]);
    registry.unclaim(idx, WILDCARD);
    assert_eq!(registry.acquire(), (idx, false));
}

#[test]
fn the_first_recoverable_slot_is_taken() {
    let mut registry = Registry::new();
    for _ in 0..3 {
        registry.acquire();
    }
    for idx in 0..3 {
        registry.slots[idx].store(0, 5);
        registry.release(idx, false);
    }
    registry.slots[1].store(0, 0);
    registry.slots[2].store(0, 0);
    assert_eq!(registry.acquire(), (1, false));
    assert_eq!(registry.quarantine, vec![0, 2]);
}

#[test]
fn exclusive_capacity_runs_out_after_255() {
    let mut registry = Registry::new();
    for idx in 0..MAX_THREADS - 1 {
        assert_eq!(
            registry_stats(&registry).available_exclusive,
            MAX_THREADS - 1 - idx
        );
        assert_eq!(registry.acquire(), (idx, false));
    }
    assert_eq!(registry.active_slots(), MAX_THREADS - 1);
    assert_eq!(registry_stats(&registry).available_exclusive, 0);
    assert_eq!(registry.acquire(), (MAX_THREADS - 1, true));
    assert_eq!(registry.active_slots(), MAX_THREADS);
    assert_eq!(registry.acquire(), (MAX_THREADS - 1, true));
    assert_eq!(slots_handed_out(&registry), MAX_THREADS + 1);
    assert_eq!(registry.active_slots(), MAX_THREADS);
    // Leaving the shared slot is nothing; an exclusive one is reused.
    registry.release(MAX_THREADS - 1, true);
    assert!(registry.free.is_empty());
    registry.release(9, false);
    assert_eq!(registry.acquire(), (9, false));
    assert_eq!(slots_handed_out(&registry), MAX_THREADS + 1);
}

#[test]
fn stats_tell_pinned_and_recoverable_quarantine_apart() {
    let mut registry = Registry::new();
    for _ in 0..4 {
        registry.acquire();
    }
    for idx in 0..3 {
        registry.slots[idx].store(1, 5);
        registry.release(idx, false);
    }
    registry.slots[1].store(1, 0);
    let stats = registry_stats(&registry);
    assert_eq!(stats.quarantined, 3);
    assert_eq!(stats.pinned_quarantined, 2);
    // 251 never handed out, and one recoverable.
    assert_eq!(stats.available_exclusive, 252);
}

#[test]
fn registration_is_cached_and_torn_down() {
    let mut registry = Registry::new();
    let mut owned = OwnedLocal::new();
    assert_eq!(participant_in(&mut registry, &mut owned), 0);
    assert_eq!(participant_in(&mut registry, &mut owned), 0);
    assert_eq!(slots_handed_out(&registry), 1);
    assert!(matches!(owned.lease, Some(SlotLease(0, false))));
    let local = owned.teardown(&mut registry);
    assert!(local.closed);
    assert_eq!(local.mine, None);
    assert_eq!(registry.free, vec![0]);
    let mut next = OwnedLocal::new();
    assert_eq!(register(&mut registry, &mut next), 0);
}

#[test]
fn a_rejected_installation_returns_the_unused_slot() {
    let mut registry = Registry::new();
    let mut owned = OwnedLocal::new();
    let (idx, shared) = registry.acquire();
    assert_eq!(
        install_lease(&mut registry, &mut owned, SlotLease(idx, shared), false),
        None
    );
    assert_eq!(registry.free, vec![0]);
    assert_eq!(owned.local.mine, None);
    let (idx, shared) = registry.acquire();
    assert_eq!(
        install_lease(&mut registry, &mut owned, SlotLease(idx, shared), true),
        Some(0)
    );
    assert_eq!(owned.local.mine, Some(0));
    let mut local = Local::new();
    local.close();
    assert!(local.closed && local.mine.is_none());
}

#[test]
fn packed_words() {
    assert_eq!(pack_pin(1, 1), (1 << 24) | 1);
    assert_eq!(pack_pin(3, (5 << 24) + 9), (3 << 24) | 9);
    assert_eq!(pack_pin(MAX_EPOCH, u64::MAX), u64::MAX);
    // Nonzero even if the truncated id is zero.
    assert_eq!(pack_pin(1, 1 << 24), 1 << 24);
    assert_eq!(unpack_epoch(pack_pin(MAX_EPOCH, 4)), MAX_EPOCH);
    assert!(pin_matches(pack_pin(2, 9), 9));
    assert!(pin_matches(pack_pin(2, 9), 9 + (1 << 24)));
    assert!(!pin_matches(pack_pin(2, 9), 10));
    assert!(!pin_matches(0, 0));
}

#[test]
fn occupancy_masks() {
    let mut mask = 0;
    for expected in 0..MAX_NESTED_PINS {
        let entry = choose_entry(false, mask);
        assert_eq!(entry, expected);
        mask = occupy(mask, entry);
    }
    assert_eq!(mask, 0b1111);
    assert_eq!(choose_entry(false, mask), WILDCARD);
    assert_eq!(choose_entry(true, 0), WILDCARD);
    mask = vacate(mask, 2);
    assert_eq!(mask, 0b1011);
    assert_eq!(choose_entry(false, mask), 2);
}

#[test]
fn guards_pack_slot_and_entry() {
    let guard = Guard::new(255, 3);
    assert_eq!(guard.packed, 255 * 8 + 4);
    assert_eq!((guard.participant(), guard.entry()), (255, Some(3)));
    let guard = Guard::new(17, WILDCARD);
    assert_eq!((guard.participant(), guard.entry()), (17, None));
    let guard = Guard::new(0, 0);
    assert_eq!(
        (guard.packed, guard.participant(), guard.entry()),
        (1, 0, Some(0))
    );
}

#[test]
fn a_scan_takes_the_oldest_matching_pin() {
    let mut registry = Registry::new();
    for _ in 0..2 {
        registry.acquire();
    }
    registry.slots[0].store(0, pack_pin(5, 1));
    registry.slots[0].store(3, pack_pin(2, 8));
    registry.slots[1].store(1, pack_pin(4, 1));
    // Past the slots ever handed out: never looked at.
    registry.slots[2].store(0, pack_pin(1, 1));
    let begun = Scan::new(1, 10, 6);
    assert_eq!(begun.min_pinned, 7);
    let scan = registry.scan(begun).unwrap();
    assert_eq!((scan.id, scan.cutoff, scan.now), (1, 10, 6));
    assert_eq!(scan.min_pinned, 4);
    assert_eq!(registry.scan(Scan::new(8, 10, 6)).unwrap().min_pinned, 2);
    assert_eq!(registry.scan(Scan::new(9, 10, 6)).unwrap().min_pinned, 7);
    registry.slots[1].pin_wildcard();
    assert!(registry.scan(begun).is_none());
    registry.slots[1].unpin_wildcard();
    assert!(registry.scan(begun).is_some());
}

#[test]
fn racing_threads_agree_on_one_key() {
    let mut tls = Tls::new();
    assert_eq!(tls.get(), None);
    let winner = tls.offer(4);
    assert_eq!((winner.key, winner.discard), (4, None));
    let loser = tls.offer(9);
    assert_eq!((loser.key, loser.discard), (4, Some(9)));
    assert_eq!(tls.get(), Some(4));
    assert_eq!((bias(0), unbias(1), unbias(0)), (1, Some(0), None));
    let lost = settle_key(7, Err(bias(3)));
    assert_eq!((lost.key, lost.discard), (3, Some(7)));
    let won = settle_key(7, Ok(0));
    assert_eq!((won.key, won.discard), (7, None));
}

#[test]
fn a_value_that_was_not_stored_is_dropped() {
    assert!(matches!(access(true, None), Access::LendExisting));
    assert!(matches!(access(false, None), Access::Initialise));
    assert!(matches!(access(false, Some(true)), Access::LendFresh));
    assert!(matches!(access(false, Some(false)), Access::DropFresh));
}
