//! Properties of overlapping readers and reclaimers, one step at a time.

use std::sync::atomic::{AtomicBool, AtomicUsize, Ordering};
use std::sync::Arc;

use ps_reclaim::scan::Scan;
use ps_reclaim::{slots_handed_out, Domain, DomainIds, Guard, OwnedLocal, Registry};

type Callback = Box<dyn FnOnce()>;

fn counting(count: &Arc<AtomicUsize>) -> Callback {
    let count = Arc::clone(count);
    Box::new(move || {
        count.fetch_add(1, Ordering::Release);
    })
}

struct RemoteReader {
    local: OwnedLocal,
    held: Option<Guard>,
}

impl RemoteReader {
    fn spawn() -> Self {
        Self {
            local: OwnedLocal::new(),
            held: None,
        }
    }

    fn pin(&mut self, domain: &Domain<Callback>, registry: &mut Registry) {
        self.held = Some(domain.pin(registry, &mut self.local));
    }

    fn unpin(&mut self, registry: &mut Registry) {
        if let Some(guard) = self.held.take() {
            guard.release(registry, &mut self.local.local);
        }
    }
}

/// A slot acquired after a scan took its cutoff is still protected, whether the
/// scan sees it or not.
#[test]
fn a_slot_leased_in_the_middle_of_a_scan_is_still_protected() {
    for seen in [false, true] {
        let mut registry = Registry::new();
        let mut ids = DomainIds::new();
        let mut domain = Domain::new(&mut ids);
        let poisoned = Arc::new(AtomicUsize::new(0));
        let seeds = Arc::new(AtomicUsize::new(0));
        domain.retire(counting(&seeds));
        let cutoff = domain.garbage.cutoff().unwrap();
        let begun = Scan::new(domain.id, cutoff, domain.epoch);
        let bound = registry.active_slots();
        assert_eq!(bound, 0);

        let mut reader = RemoteReader::spawn();
        reader.pin(&domain, &mut registry);
        domain.retire(counting(&poisoned));

        let scan = if seen {
            registry.scan(begun).unwrap()
        } else {
            begun
        };
        domain.reclaim(scan, usize::MAX);
        assert_eq!(poisoned.load(Ordering::Acquire), 0);
        // A reader seen in the seed's epoch conservatively delays the seed too.
        assert_eq!(seeds.load(Ordering::Acquire), if seen { 0 } else { 1 });
        domain.advance(&registry);
        assert_eq!(poisoned.load(Ordering::Acquire), 0);
        reader.unpin(&mut registry);
        domain.advance(&registry);
        assert_eq!(poisoned.load(Ordering::Acquire), 1);
        assert_eq!(seeds.load(Ordering::Acquire), 1);
    }
}

/// Every handover preserves overlap. Progress is asserted BEFORE releasing the
/// last reader.
#[test]
fn reclamation_progresses_under_continuous_readers() {
    let mut registry = Registry::new();
    let mut ids = DomainIds::new();
    let mut domain = Domain::new(&mut ids);
    let ran = Arc::new(AtomicUsize::new(0));
    let mut first = RemoteReader::spawn();
    let mut second = RemoteReader::spawn();
    first.pin(&domain, &mut registry);
    const RETIREMENTS: usize = 256;
    for expected in 1..=RETIREMENTS {
        domain.retire(counting(&ran));
        second.pin(&domain, &mut registry);
        first.unpin(&mut registry);
        domain.advance(&registry);
        first.pin(&domain, &mut registry); // strictly later epoch; second still holds its old pin
        second.unpin(&mut registry);
        domain.advance(&registry);
        assert_eq!(
            ran.load(Ordering::Acquire),
            expected,
            "stalled while readers overlapped"
        );
        assert_eq!(
            domain.pending(),
            0,
            "backlog grew during controlled traffic"
        );
    }
    first.unpin(&mut registry);
    domain.advance(&registry);
    assert_eq!(ran.load(Ordering::Acquire), RETIREMENTS);
}

/// A hole left by an out-of-order drop is reused without falling back to the
/// process-wide wildcard.
#[test]
fn out_of_order_drop_reuses_the_exact_pin_slot() {
    let mut registry = Registry::new();
    let mut ids = DomainIds::new();
    let mut local = OwnedLocal::new();
    let held_domain: Domain<Callback> = Domain::new(&mut ids);
    let mut unrelated = Domain::new(&mut ids);
    let a = held_domain.pin(&mut registry, &mut local);
    let b = held_domain.pin(&mut registry, &mut local);
    let c = held_domain.pin(&mut registry, &mut local);
    let d = held_domain.pin(&mut registry, &mut local);
    b.release(&mut registry, &mut local.local);
    let replacement = held_domain.pin(&mut registry, &mut local);
    assert_eq!(replacement.entry(), Some(1));

    let ran = Arc::new(AtomicUsize::new(0));
    unrelated.retire(counting(&ran));
    for _ in 0..4 {
        unrelated.advance(&registry);
    }
    assert_eq!(
        ran.load(Ordering::Acquire),
        1,
        "reusing a free nested slot incorrectly published a wildcard pin"
    );

    replacement.release(&mut registry, &mut local.local);
    d.release(&mut registry, &mut local.local);
    c.release(&mut registry, &mut local.local);
    a.release(&mut registry, &mut local.local);
    assert_eq!(local.local.pin_mask, 0);
}

/// Many short-lived threads reuse slots rather than exhausting the registry.
#[test]
fn short_lived_threads_return_their_slots() {
    let mut registry = Registry::new();
    let mut ids = DomainIds::new();
    let domain: Domain<Callback> = Domain::new(&mut ids);
    for _ in 0..64 {
        let mut thread = OwnedLocal::new();
        let guard = domain.pin(&mut registry, &mut thread);
        guard.release(&mut registry, &mut thread.local);
        thread.teardown(&mut registry);
    }
    // 64 sequential threads must not have consumed 64 slots.
    assert!(
        slots_handed_out(&registry) < 64,
        "slots were not reused: {} handed out for 64 sequential threads",
        slots_handed_out(&registry)
    );
}

/// A retirement made under a pin is not reclaimed by the pinning thread itself.
#[test]
fn a_thread_does_not_reclaim_under_its_own_pin() {
    let mut registry = Registry::new();
    let mut ids = DomainIds::new();
    let mut local = OwnedLocal::new();
    let mut domain: Domain<Callback> = Domain::new(&mut ids);
    let ran = Arc::new(AtomicBool::new(false));

    let guard = domain.pin(&mut registry, &mut local);
    {
        let ran = Arc::clone(&ran);
        domain.retire(Box::new(move || ran.store(true, Ordering::Release)));
    }
    domain.advance(&registry);
    assert!(
        !ran.load(Ordering::Acquire),
        "a thread reclaimed a retirement made under its own live pin"
    );
    guard.release(&mut registry, &mut local.local);
    domain.advance(&registry);
    assert!(
        ran.load(Ordering::Acquire),
        "not reclaimed after the guard dropped"
    );
}

/// Two reclaimers scan side by side and extract in turn: nothing runs twice, and
/// a reader that pinned between the scans holds what it predates.
#[test]
fn two_reclaimers_never_run_a_retirement_twice() {
    let mut registry = Registry::new();
    let mut ids = DomainIds::new();
    let mut domain = Domain::new(&mut ids);
    let ran = Arc::new(AtomicUsize::new(0));
    let mut reader = RemoteReader::spawn();
    for _ in 0..6 {
        domain.retire(counting(&ran));
    }
    let early = domain.scan(&registry, usize::MAX).unwrap();
    reader.pin(&domain, &mut registry);
    domain.retire(counting(&ran));
    let late = domain.scan(&registry, usize::MAX).unwrap();
    assert_eq!((early.cutoff, late.cutoff), (6, 7));
    assert_eq!((early.min_pinned, late.min_pinned), (2, 1));
    assert_eq!(domain.reclaim(late, usize::MAX), 0);
    assert_eq!(domain.epoch, 2);
    assert_eq!(domain.reclaim(early, 4), 4);
    assert_eq!(domain.reclaim(early, usize::MAX), 2);
    assert_eq!(domain.epoch, 2);
    assert_eq!((ran.load(Ordering::Acquire), domain.pending()), (6, 1));
    reader.unpin(&mut registry);
    assert_eq!(domain.advance(&registry), 1);
    assert_eq!(ran.load(Ordering::Acquire), 7);
}
