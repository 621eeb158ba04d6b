//! Epochs, cutoffs and the retirement queue.

use std::cell::Cell;
use std::rc::Rc;
use std::sync::atomic::{AtomicBool, AtomicUsize, Ordering};
use std::sync::Arc;

use ps_reclaim::garbage::Retirement;
use ps_reclaim::pins::MAX_EPOCH;
use ps_reclaim::scan::Scan;
use ps_reclaim::{Domain, DomainIds, Handle, OwnedLocal, Registry};

type Callback = Box<dyn FnOnce()>;

fn fresh() -> (Registry, Domain<Callback>) {
    let mut ids = DomainIds::new();
    (Registry::new(), Domain::new(&mut ids))
}

fn nothing() -> Callback {
    Box::new(|| ())
}

fn raising(flag: &Arc<AtomicBool>) -> Callback {
    let flag = Arc::clone(flag);
    Box::new(move || flag.store(true, Ordering::Release))
}

#[test]
fn saturated_epoch_still_protects_readers() {
    let (mut registry, mut domain) = fresh();
    domain.epoch = MAX_EPOCH;
    let mut registration = Handle::new(&mut registry);
    let guard = domain.pin_with(&mut registry, &mut registration);
    let freed = Arc::new(AtomicBool::new(false));
    domain.retire(raising(&freed));
    for _ in 0..4 {
        domain.advance(&registry);
    }
    assert_eq!(domain.epoch, MAX_EPOCH);
    assert!(!freed.load(Ordering::Acquire));
    guard.release(&mut registry, &mut registration);
    domain.advance(&registry);
    assert!(freed.load(Ordering::Acquire));
}

#[test]
fn exclusive_renewal_restores_headroom_and_preserves_pending_work() {
    let (mut registry, mut domain) = fresh();
    let mut local = OwnedLocal::new();
    domain.epoch = MAX_EPOCH;
    assert_eq!(domain.epoch_headroom(), 0);
    let freed = Arc::new(AtomicBool::new(false));
    domain.retire(raising(&freed));
    domain.renew_epoch();
    assert_eq!(domain.epoch_headroom(), MAX_EPOCH - 1);
    assert_eq!(domain.pending(), 1);
    assert!(
        !freed.load(Ordering::Acquire),
        "renewal must not invoke callbacks"
    );
    assert_eq!(domain.garbage.next_sequence, 1);
    assert_eq!(domain.garbage.entries[0].sequence, 0);
    assert_eq!(domain.garbage.entries[0].epoch, 0);
    let fresh = domain.pin(&mut registry, &mut local);
    assert_eq!(
        domain.advance(&registry),
        1,
        "new reader delayed pre-renewal work"
    );
    assert!(freed.load(Ordering::Acquire));
    fresh.release(&mut registry, &mut local.local);
}

#[test]
fn stale_scan_does_not_advance_a_newer_epoch() {
    let (registry, mut domain) = fresh();
    domain.retire(nothing());
    let scan = domain.scan(&registry, 1).unwrap();
    // After the scan, before it extracts anything.
    assert_eq!(domain.advance(&registry), 1);
    assert_eq!(domain.epoch, 2);
    domain.reclaim(scan, 1);
    assert_eq!(domain.epoch, 2);
}

#[test]
fn bounded_ready_batch_does_not_move_the_unchecked_tail() {
    let (registry, mut domain) = fresh();
    for _ in 0..4096 {
        domain.retire(nothing());
    }
    let tail = std::ptr::from_ref(&domain.garbage.entries[8]).addr();
    assert_eq!(domain.advance_up_to(&registry, 8), 8);
    assert_eq!(domain.garbage.entries.len(), 4088);
    assert!(
        std::ptr::from_ref(&domain.garbage.entries[0]).addr() == tail,
        "unchecked records moved"
    );
}

#[test]
fn blocked_prefix_does_not_hide_an_older_eligible_retirement() {
    let (mut registry, mut domain) = fresh();
    let mut local = OwnedLocal::new();
    domain.epoch = 2;
    let held = domain.pin(&mut registry, &mut local);
    domain.retire(nothing()); // blocked epoch-2 prefix
    let ran = Arc::new(AtomicBool::new(false));
    domain.retire(raising(&ran));
    // A writer that sampled epoch 1, paused, and enqueued after the epoch-2
    // retirement. Publication sequence and epoch need not agree.
    domain.garbage.entries.back_mut().unwrap().epoch = 1;
    assert_eq!(domain.advance_up_to(&registry, 1), 1);
    assert!(ran.load(Ordering::Acquire));
    assert_eq!(domain.pending(), 1);
    held.release(&mut registry, &mut local.local);
    assert_eq!(domain.advance(&registry), 1);
}

/// The first callback of a batch unwinds: those after it go back to the queue.
#[test]
fn an_interrupted_batch_requeues_uninvoked_work_with_original_sequence() {
    let (registry, mut domain) = fresh();
    let ran = Arc::new(AtomicUsize::new(0));
    domain.retire(nothing());
    for _ in 0..3 {
        let ran = Arc::clone(&ran);
        domain.retire(Box::new(move || {
            ran.fetch_add(1, Ordering::Relaxed);
        }));
    }
    let scan = domain.scan(&registry, usize::MAX).unwrap();
    let mut batch = domain.garbage.extract(scan, usize::MAX);
    assert_eq!(domain.pending(), 0);
    let unwound = batch.pop_front().unwrap();
    assert_eq!(unwound.sequence, 0);
    domain.garbage.requeue(&mut batch);
    assert!(batch.is_empty());
    assert_eq!(domain.pending(), 3);
    assert_eq!(domain.garbage.entries[0].sequence, 1);
    assert_eq!(domain.garbage.entries[0].epoch, 1);
    assert_eq!(domain.advance(&registry), 3);
    assert_eq!(ran.load(Ordering::Relaxed), 3);
}

/// Callbacks run in queue order; what was withheld goes behind what a bounded pass
/// did not look at.
#[test]
fn a_pass_runs_what_it_covers_and_rotates_the_rest() {
    let (mut registry, mut domain) = fresh();
    let mut registration = Handle::new(&mut registry);
    domain.epoch = 2;
    let held = domain.pin_with(&mut registry, &mut registration);
    let order = Rc::new(Cell::new(0u32));
    for (i, epoch) in [1u64, 2, 1, 2, 1].into_iter().enumerate() {
        let order = Rc::clone(&order);
        domain.retire(Box::new(move || order.set(order.get() * 10 + i as u32 + 1)));
        domain.garbage.entries[i].epoch = epoch;
    }
    assert!(domain.garbage.entries[0].covered_by(&domain.scan(&registry, 2).unwrap()));
    assert!(!domain.garbage.entries[1].covered_by(&domain.scan(&registry, 2).unwrap()));
    assert_eq!(domain.advance_up_to(&registry, 2), 2);
    assert_eq!(order.get(), 13);
    let queued: Vec<u64> = domain.garbage.entries.iter().map(|r| r.sequence).collect();
    assert_eq!(queued, [3, 4, 1]);
    assert_eq!(domain.epoch, 3);
    held.release(&mut registry, &mut registration);
    assert_eq!(domain.advance(&registry), 3);
    assert_eq!(order.get(), 13452);
}

/// A forgotten guard does not prevent renewal. It delays nothing retired before, and
/// its pin stays published.
#[test]
fn renewal_ignores_a_forgotten_guard_but_keeps_its_pin() {
    let (mut registry, mut domain) = fresh();
    let mut registration = Handle::new(&mut registry);
    let slot = registration.participant;
    core::mem::forget(domain.pin_with(&mut registry, &mut registration));
    let older = Arc::new(AtomicBool::new(false));
    domain.retire(raising(&older));
    for _ in 0..4 {
        assert_eq!(domain.advance(&registry), 0, "a forgotten guard protects");
    }
    domain.renew_epoch();
    assert_ne!(registry.slots[slot].pins[0], 0);
    let newer = Arc::new(AtomicBool::new(false));
    domain.retire(raising(&newer));
    assert_eq!(domain.advance(&registry), 1);
    assert!(older.load(Ordering::Acquire));
    assert!(!newer.load(Ordering::Acquire), "same epoch as the stale pin");
    registration.close(&mut registry);
    let next = Handle::new(&mut registry);
    assert_ne!(next.participant, slot);
}

#[test]
fn a_post_scan_retirement_waits_for_its_reader() {
    let (mut registry, mut domain) = fresh();
    let mut registration = Handle::new(&mut registry);
    // Ensure the initial garbage check does not skip this scan.
    domain.retire(nothing());
    let freed = Arc::new(AtomicBool::new(false));
    let scan = domain.scan(&registry, usize::MAX).unwrap();
    // Deterministically enter after every participant was scanned.
    let guard = domain.pin_with(&mut registry, &mut registration);
    domain.retire(raising(&freed));
    domain.reclaim(scan, usize::MAX);
    assert!(!freed.load(Ordering::Acquire));
    domain.advance(&registry);
    assert!(!freed.load(Ordering::Acquire));
    guard.release(&mut registry, &mut registration);
    domain.advance(&registry);
    assert!(freed.load(Ordering::Acquire));
}

struct Payload {
    value: u64,
    drops: Arc<AtomicUsize>,
}

impl Drop for Payload {
    fn drop(&mut self) {
        self.drops.fetch_add(1, Ordering::Release);
    }
}

/// A reader pins after the scan read its slot, unlinks what it read and retires
/// it, all before the reclaimer extracts.
#[test]
fn post_scan_retirement_must_not_destroy_a_pinned_object() {
    let (mut registry, mut domain) = fresh();
    let mut local = OwnedLocal::new();
    let drops = Arc::new(AtomicUsize::new(0));
    let mut root = Some(Payload {
        value: 0xfeed,
        drops: Arc::clone(&drops),
    });

    // Pre-register the reader so its idle slot is part of the scan.
    domain
        .pin(&mut registry, &mut local)
        .release(&mut registry, &mut local.local);
    // Without seed garbage, advance would legitimately return before scanning.
    domain.retire(nothing());
    let scan = domain.scan(&registry, usize::MAX).unwrap();

    let guard = domain.pin(&mut registry, &mut local);
    assert_eq!(root.as_ref().unwrap().value, 0xfeed);
    let removed = root.take().unwrap();
    domain.retire(Box::new(move || drop(removed)));

    let first_pass = domain.reclaim(scan, usize::MAX);
    let early_drops = drops.load(Ordering::Acquire);
    let pending_while_pinned = domain.pending();
    guard.release(&mut registry, &mut local.local);

    domain.advance(&registry);
    assert_eq!(
        drops.load(Ordering::Acquire),
        1,
        "payload must be destroyed exactly once"
    );
    assert_eq!(
        domain.pending(),
        0,
        "quiescent cleanup must drain the queue"
    );
    assert_eq!(
        early_drops, 0,
        "retired object was destroyed while its reader guard was still live"
    );
    assert_eq!(
        pending_while_pinned, 1,
        "the reader's retirement must remain queued"
    );
    assert_eq!(first_pass, 1, "only the pre-scan seed may be reclaimed");
}

#[test]
fn a_fresh_domain_starts_at_epoch_one() {
    let mut ids = DomainIds::new();
    let a: Domain<Callback> = Domain::new(&mut ids);
    let b: Domain<Callback> = Domain::new(&mut ids);
    assert_eq!((a.id, a.epoch, a.pending()), (1, 1, 0));
    assert_eq!(b.id, 2);
    assert_eq!(a.epoch_headroom(), 0xff_ffff_fffe);
    ids.next = u64::MAX;
    let last: Domain<Callback> = Domain::new(&mut ids);
    assert_eq!((last.id, ids.next), (u64::MAX, 0));
}

#[test]
fn a_zero_limit_and_an_empty_queue_do_nothing() {
    let (registry, mut domain) = fresh();
    assert_eq!(domain.advance(&registry), 0);
    assert_eq!(domain.epoch, 1);
    domain.retire(nothing());
    assert_eq!(domain.advance_up_to(&registry, 0), 0);
    assert_eq!((domain.epoch, domain.pending()), (1, 1));
    assert!(domain.scan(&registry, 0).is_none());
    assert_eq!(domain.advance_up_to(&registry, 1), 1);
    assert_eq!((domain.epoch, domain.pending()), (2, 0));
}

#[test]
fn the_epoch_advances_by_one_and_saturates() {
    let (registry, mut domain) = fresh();
    domain.epoch = MAX_EPOCH - 1;
    domain.retire(nothing());
    assert_eq!(domain.advance(&registry), 1);
    assert_eq!(domain.epoch, MAX_EPOCH);
    domain.retire(nothing());
    assert_eq!(domain.advance(&registry), 1);
    assert_eq!(domain.epoch, MAX_EPOCH);
    domain.finish_scan(7);
    assert_eq!(domain.epoch, MAX_EPOCH);
}

/// Withheld entries rotate to the back; the unread tail keeps its place.
#[test]
fn extraction_rotates_what_it_withholds() {
    let (_, mut domain) = fresh();
    for epoch in [5, 1, 5, 1, 1] {
        domain.epoch = epoch;
        domain.retire(nothing());
    }
    let scan = Scan {
        id: domain.id,
        cutoff: 4,
        now: 5,
        min_pinned: 5,
    };
    let numbers = |entries: &std::collections::VecDeque<Retirement<Callback>>| -> Vec<u64> {
        entries.iter().map(|r| r.sequence).collect()
    };
    let batch = domain.garbage.extract(scan, 1);
    assert_eq!(numbers(&batch), vec![1]);
    assert_eq!(numbers(&domain.garbage.entries), vec![2, 3, 4, 0]);
    let batch = domain.garbage.extract(scan, 8);
    assert_eq!(numbers(&batch), vec![3]);
    // Number 4 is past the cutoff, although its epoch is old enough.
    assert_eq!(numbers(&domain.garbage.entries), vec![2, 4, 0]);
}

/// Callbacks run in the order they are taken out, exactly once.
#[test]
fn callbacks_run_once_each() {
    let (registry, mut domain) = fresh();
    let log: Rc<Cell<u64>> = Rc::new(Cell::new(0));
    for digit in 1..=4 {
        let log = Rc::clone(&log);
        domain.retire(Box::new(move || log.set(log.get() * 10 + digit)));
    }
    assert_eq!(domain.advance_up_to(&registry, 3), 3);
    assert_eq!(log.get(), 123);
    assert_eq!(domain.dispose(), 1);
    assert_eq!(log.get(), 1234);
}

/// Ids that agree in their low 24 bits delay each other, and only that.
#[test]
fn colliding_ids_are_conservative() {
    let mut registry = Registry::new();
    let mut ids = DomainIds { next: 7 };
    let mut domain: Domain<Callback> = Domain::new(&mut ids);
    ids.next = 7 + (1 << 24);
    let twin: Domain<Callback> = Domain::new(&mut ids);
    let mut handle = Handle::new(&mut registry);
    let guard = twin.pin_with(&mut registry, &mut handle);
    domain.retire(nothing());
    assert_eq!(domain.advance(&registry), 0);
    guard.release(&mut registry, &mut handle);
    assert_eq!(domain.advance(&registry), 1);
}
