//! Registration ownership and reclamation through the explicit API.

use ps_reclaim::{
    registry_stats, slots_handed_out, Domain, DomainIds, Guard, Handle, OwnedLocal, Registry,
    MAX_NESTED_PINS, MAX_THREADS,
};
use std::sync::atomic::{AtomicBool, AtomicUsize, Ordering};
use std::sync::Arc;

type Callback = Box<dyn FnOnce()>;

fn retire_counter(domain: &mut Domain<Callback>, count: &Arc<AtomicUsize>) {
    let count = Arc::clone(count);
    domain.retire(Box::new(move || {
        count.fetch_add(1, Ordering::Release);
    }));
}

#[test]
fn one_registration_covers_many_domains_and_out_of_order_guards() {
    let mut registry = Registry::new();
    let mut ids = DomainIds::new();
    let mut registration = Handle::new(&mut registry);
    let mut domains: Vec<Domain<Callback>> = (0..512).map(|_| Domain::new(&mut ids)).collect();
    let hits = Arc::new(AtomicUsize::new(0));
    let first = domains[0].pin_with(&mut registry, &mut registration);
    let second = domains[1].pin_with(&mut registry, &mut registration);
    first.release(&mut registry, &mut registration);
    let replacement = domains[2].pin_with(&mut registry, &mut registration);
    retire_counter(&mut domains[1], &hits);
    domains[1].advance(&registry);
    assert_eq!(hits.load(Ordering::Acquire), 0);
    // Visiting many domains must not allocate more registrations or erase the
    // held pin.
    for domain in &domains[3..] {
        domain
            .pin_with(&mut registry, &mut registration)
            .release(&mut registry, &mut registration);
    }
    domains[1].advance(&registry);
    assert_eq!(hits.load(Ordering::Acquire), 0);
    assert_eq!(slots_handed_out(&registry), 1);
    second.release(&mut registry, &mut registration);
    replacement.release(&mut registry, &mut registration);
    for _ in 0..64 {
        domains[1].advance(&registry);
    }
    assert_eq!(hits.load(Ordering::Acquire), 1);
}

#[test]
fn tls_and_explicit_pins_protect_independently() {
    let mut registry = Registry::new();
    let mut ids = DomainIds::new();
    let mut domain = Domain::new(&mut ids);
    let mut registration = Handle::new(&mut registry);
    let mut local = OwnedLocal::new();
    let hits = Arc::new(AtomicUsize::new(0));
    let explicit = domain.pin_with(&mut registry, &mut registration);
    let implicit = domain.pin(&mut registry, &mut local);
    retire_counter(&mut domain, &hits);
    explicit.release(&mut registry, &mut registration);
    domain.advance(&registry);
    assert_eq!(hits.load(Ordering::Acquire), 0);
    implicit.release(&mut registry, &mut local.local);
    for _ in 0..64 {
        domain.advance(&registry);
    }
    assert_eq!(hits.load(Ordering::Acquire), 1);
}

#[test]
fn forgotten_guard_does_not_allow_registration_reuse() {
    let mut registry = Registry::new();
    let mut ids = DomainIds::new();
    let mut domain = Domain::new(&mut ids);
    let mut registration = Handle::new(&mut registry);
    let hits = Arc::new(AtomicUsize::new(0));
    let guard = domain.pin_with(&mut registry, &mut registration);
    retire_counter(&mut domain, &hits);
    core::mem::forget(guard);
    registration.close(&mut registry);
    // A mistaken release/clear here would expose the forgotten reader.
    for _ in 0..32 {
        let mut other = Handle::new(&mut registry);
        domain
            .pin_with(&mut registry, &mut other)
            .release(&mut registry, &mut other);
        other.close(&mut registry);
        domain.advance(&registry);
    }
    assert_eq!(hits.load(Ordering::Acquire), 0);
    let stats = registry_stats(&registry);
    assert_eq!((stats.quarantined, stats.pinned_quarantined), (1, 1));
    assert_eq!(stats.available_exclusive, MAX_THREADS - 2);
}

/// One pin more than a registration has entries for.
#[test]
fn nested_wildcard_releases_protection() {
    let mut registry = Registry::new();
    let mut ids = DomainIds::new();
    let mut domain = Domain::new(&mut ids);
    let mut registration = Handle::new(&mut registry);
    let hits = Arc::new(AtomicUsize::new(0));
    let guards: Vec<_> = (0..=MAX_NESTED_PINS)
        .map(|_| domain.pin_with(&mut registry, &mut registration))
        .collect();
    let entries: Vec<usize> = guards.iter().map(|g| g.entry).collect();
    assert_eq!(entries, vec![0, 1, 2, 3, usize::MAX]);
    retire_counter(&mut domain, &hits);
    domain.advance(&registry);
    assert_eq!(hits.load(Ordering::Acquire), 0);
    for guard in guards {
        guard.release(&mut registry, &mut registration);
    }
    assert_eq!(registration.pin_mask, 0);
    for _ in 0..64 {
        domain.advance(&registry);
    }
    assert_eq!(hits.load(Ordering::Acquire), 1);
}

#[test]
fn independent_overflow_handles_share_a_count_not_a_pin() {
    let mut registry = Registry::new();
    let mut ids = DomainIds::new();
    let mut domain = Domain::new(&mut ids);
    let mut handles: Vec<_> = (0..MAX_THREADS + 2)
        .map(|_| Handle::new(&mut registry))
        .collect();
    let first = domain.pin_with(&mut registry, &mut handles[MAX_THREADS]);
    let second = domain.pin_with(&mut registry, &mut handles[MAX_THREADS + 1]);
    let hits = Arc::new(AtomicUsize::new(0));
    retire_counter(&mut domain, &hits);
    first.release(&mut registry, &mut handles[MAX_THREADS]);
    domain.advance(&registry);
    assert_eq!(hits.load(Ordering::Acquire), 0);
    second.release(&mut registry, &mut handles[MAX_THREADS + 1]);
    domain.advance(&registry);
    assert_eq!(hits.load(Ordering::Acquire), 1);
}

#[test]
fn nested_overflow_alone_protects_its_domain_and_releases() {
    let mut registry = Registry::new();
    let mut ids = DomainIds::new();
    let mut local = OwnedLocal::new();
    let ordinary: Domain<Callback> = Domain::new(&mut ids);
    let mut overflow_domain = Domain::new(&mut ids);
    let normal: Vec<Guard> = (0..MAX_NESTED_PINS)
        .map(|_| ordinary.pin(&mut registry, &mut local))
        .collect();
    let overflow = overflow_domain.pin(&mut registry, &mut local);
    assert_eq!(overflow.entry(), None);
    let ran = Arc::new(AtomicUsize::new(0));
    retire_counter(&mut overflow_domain, &ran);
    // Release every ordinary entry. The wildcard is now the ONLY protection of
    // overflow_domain; same-domain normal pins cannot mask a broken fallback.
    for guard in normal {
        guard.release(&mut registry, &mut local.local);
    }
    for _ in 0..4 {
        overflow_domain.advance(&registry);
    }
    assert_eq!(ran.load(Ordering::Acquire), 0);
    overflow.release(&mut registry, &mut local.local);
    assert_eq!(overflow_domain.advance(&registry), 1);
    assert_eq!(ran.load(Ordering::Acquire), 1);
}

/// More simultaneously pinned threads than there are slots.
#[test]
fn an_overflow_thread_releasing_does_not_unpin_another_one() {
    let mut registry = Registry::new();
    let mut ids = DomainIds::new();
    let mut domain = Domain::new(&mut ids);
    // Fill every private slot, so the two threads below are forced to overflow.
    let fill = MAX_THREADS - 1;
    let mut fillers: Vec<OwnedLocal> = (0..fill).map(|_| OwnedLocal::new()).collect();
    for filler in fillers.iter_mut() {
        let g = domain.pin(&mut registry, filler);
        g.release(&mut registry, &mut filler.local);
    }

    let mut b = OwnedLocal::new();
    let b_guard = domain.pin(&mut registry, &mut b);
    let mut a = OwnedLocal::new();
    let a_guard = domain.pin(&mut registry, &mut a);
    assert!(a.local.shared && b.local.shared);
    a_guard.release(&mut registry, &mut a.local);
    a.teardown(&mut registry);

    // B is still pinned. Nothing retired now may run.
    let reclaimed = Arc::new(AtomicBool::new(false));
    let flag = Arc::clone(&reclaimed);
    domain.retire(Box::new(move || flag.store(true, Ordering::Release)));
    for _ in 0..8 {
        domain.advance(&registry);
    }
    assert!(
        !reclaimed.load(Ordering::Acquire),
        "a retirement ran while an overflow thread was still pinned: its slot was cleared by another \
         thread sharing it, so the reclaimer saw no pin"
    );
    b_guard.release(&mut registry, &mut b.local);
    domain.advance(&registry);
    assert!(reclaimed.load(Ordering::Acquire));
    for filler in fillers {
        filler.teardown(&mut registry);
    }
    assert_eq!(
        registry_stats(&registry).available_exclusive,
        MAX_THREADS - 1
    );
}

/// A guard can outlive the lease of the thread that took it.
#[test]
fn a_guard_outliving_its_tls_lease_remains_visible() {
    let mut registry = Registry::new();
    let mut ids = DomainIds::new();
    let mut domain = Domain::new(&mut ids);
    let rounds = MAX_THREADS * 2;
    for _ in 0..rounds {
        let freed = Arc::new(AtomicBool::new(false));
        let retired = Arc::clone(&freed);
        let mut thread = OwnedLocal::new();
        let guard = domain.pin(&mut registry, &mut thread);
        domain.retire(Box::new(move || retired.store(true, Ordering::Release)));
        // The lease goes first, then a late destructor registers afresh, pins and
        // advances, and only then the guard is released.
        let mut local = thread.teardown(&mut registry);
        let mut other = Handle::new(&mut registry);
        domain
            .pin_with(&mut registry, &mut other)
            .release(&mut registry, &mut other);
        domain.advance(&registry);
        let early_free = freed.load(Ordering::Acquire);
        other.close(&mut registry);
        guard.release(&mut registry, &mut local);
        assert!(!early_free);
        domain.advance(&registry);
        assert!(freed.load(Ordering::Acquire));
        let stats = registry_stats(&registry);
        assert_eq!(stats.pinned_quarantined, 0);
        assert_eq!(stats.available_exclusive, MAX_THREADS - 1);
    }
    // The destructor's temporary explicit handle needs a second slot, but repeated
    // lease-before-guard teardown must not consume new ones forever.
    assert!(slots_handed_out(&registry) <= 2);
}

/// A guard released after its thread registered afresh leaves the new
/// registration's occupancy alone.
#[test]
fn a_late_guard_does_not_clear_a_new_registration() {
    let mut registry = Registry::new();
    let mut ids = DomainIds::new();
    let domain: Domain<Callback> = Domain::new(&mut ids);
    let mut thread = OwnedLocal::new();
    let late = domain.pin(&mut registry, &mut thread);
    thread.teardown(&mut registry);
    let mut again = OwnedLocal::new();
    let held = domain.pin(&mut registry, &mut again);
    assert_eq!((late.participant(), held.participant()), (0, 1));
    assert_eq!(late.entry(), held.entry());
    late.release(&mut registry, &mut again.local);
    assert_eq!(again.local.pin_mask, 1);
    assert_ne!(registry.slots[1].pins[0], 0);
    held.release(&mut registry, &mut again.local);
    assert_eq!(again.local.pin_mask, 0);
    // With no cache at all, only the slot is touched.
    let held = domain.pin(&mut registry, &mut again);
    held.release_detached(&mut registry);
    assert_eq!(registry.slots[1].pins[0], 0);
    assert_eq!(again.local.pin_mask, 1);
}
