//! The three guarantees from the crate docs, one test each, and the promises
//! around them.

use std::sync::atomic::{AtomicUsize, Ordering};
use std::sync::Arc;

use ps_reclaim::{Domain, DomainIds, Guard, OwnedLocal, Registry};

type Callback = Box<dyn FnOnce()>;

/// One thread whose pin can be opened and closed on command.
struct RemoteReader {
    local: OwnedLocal,
    held: Option<Guard>,
}

impl RemoteReader {
    fn spawn() -> Self {
        Self {
            local: OwnedLocal::new(),
            held: None,
        }
    }

    fn pin(&mut self, domain: &Domain<Callback>, registry: &mut Registry) {
        self.held = Some(domain.pin(registry, &mut self.local));
    }

    fn unpin(&mut self, registry: &mut Registry) {
        if let Some(guard) = self.held.take() {
            guard.release(registry, &mut self.local.local);
        }
    }
}

fn counting(hits: &Arc<AtomicUsize>) -> Callback {
    let h = Arc::clone(hits);
    Box::new(move || {
        h.fetch_add(1, Ordering::SeqCst);
    })
}

fn drive(domain: &mut Domain<Callback>, registry: &Registry, hits: &AtomicUsize, want: usize) {
    for _ in 0..64 {
        domain.advance(registry);
        if hits.load(Ordering::SeqCst) >= want {
            return;
        }
    }
}

/// Guarantee 1: a retirement does not run while a reader older than it lives.
#[test]
fn a_reader_older_than_the_retirement_holds_it() {
    let mut registry = Registry::new();
    let mut ids = DomainIds::new();
    let mut domain = Domain::new(&mut ids);
    let hits = Arc::new(AtomicUsize::new(0));
    let mut reader = RemoteReader::spawn();

    reader.pin(&domain, &mut registry);
    domain.retire(counting(&hits));

    drive(&mut domain, &registry, &hits, 1);
    assert_eq!(
        hits.load(Ordering::SeqCst),
        0,
        "ran a retirement while a reader that predates it was still pinned"
    );

    reader.unpin(&mut registry);
    drive(&mut domain, &registry, &hits, 1);
    assert_eq!(
        hits.load(Ordering::SeqCst),
        1,
        "never ran after the reader left"
    );
}

/// Guarantee 2: reclamation progresses even though there is never an instant with
/// zero readers.
#[test]
fn a_reader_newer_than_the_retirement_does_not_hold_it() {
    let mut registry = Registry::new();
    let mut ids = DomainIds::new();
    let mut domain = Domain::new(&mut ids);
    let hits = Arc::new(AtomicUsize::new(0));

    let mut first = RemoteReader::spawn();
    let mut second = RemoteReader::spawn();

    first.pin(&domain, &mut registry);
    domain.retire(counting(&hits));

    // Hand over so that at every instant at least one reader is pinned.
    second.pin(&domain, &mut registry);
    first.unpin(&mut registry);
    domain.advance(&registry);
    first.pin(&domain, &mut registry);
    second.unpin(&mut registry);

    drive(&mut domain, &registry, &hits, 1);
    let during_overlap = hits.load(Ordering::SeqCst);
    first.unpin(&mut registry);

    assert_eq!(
        during_overlap, 1,
        "reclamation must progress although readers never stopped overlapping"
    );
}

/// Guarantee 3: only `advance` runs retirements, so a read never pays for someone
/// else's garbage.
#[test]
fn nothing_is_reclaimed_without_advance() {
    let mut registry = Registry::new();
    let mut ids = DomainIds::new();
    let mut domain = Domain::new(&mut ids);
    let hits = Arc::new(AtomicUsize::new(0));
    let mut local = OwnedLocal::new();

    for _ in 0..1000 {
        domain.retire(counting(&hits));
    }

    // Plenty of read traffic, no maintenance.
    for _ in 0..10_000 {
        let g = domain.pin(&mut registry, &mut local);
        g.release(&mut registry, &mut local.local);
    }
    assert_eq!(hits.load(Ordering::SeqCst), 0, "a read ran a retirement");
    assert_eq!(domain.pending(), 1000);

    domain.advance(&registry);
    assert_eq!(hits.load(Ordering::SeqCst), 1000, "advance must run them");
    assert_eq!(domain.pending(), 0);
}

#[test]
fn bounded_advance_never_runs_more_than_the_requested_limit() {
    let registry = Registry::new();
    let mut ids = DomainIds::new();
    let mut domain = Domain::new(&mut ids);
    let hits = Arc::new(AtomicUsize::new(0));

    for _ in 0..23 {
        domain.retire(counting(&hits));
    }

    assert_eq!(domain.advance_up_to(&registry, 7), 7);
    assert_eq!(hits.load(Ordering::SeqCst), 7);
    assert_eq!(domain.pending(), 16);

    assert_eq!(domain.advance_up_to(&registry, 7), 7);
    assert_eq!(hits.load(Ordering::SeqCst), 14);
    assert_eq!(domain.pending(), 9);

    assert_eq!(domain.advance(&registry), 9);
    assert_eq!(hits.load(Ordering::SeqCst), 23);
    assert_eq!(domain.pending(), 0);
}

/// Domains are independent: a reader of one does not delay the other.
#[test]
fn domains_do_not_delay_each_other() {
    let mut registry = Registry::new();
    let mut ids = DomainIds::new();
    let a: Domain<Callback> = Domain::new(&mut ids);
    let mut b = Domain::new(&mut ids);
    let hits = Arc::new(AtomicUsize::new(0));

    let mut reader_of_a = RemoteReader::spawn();
    reader_of_a.pin(&a, &mut registry);

    b.retire(counting(&hits));
    drive(&mut b, &registry, &hits, 1);

    assert_eq!(
        hits.load(Ordering::SeqCst),
        1,
        "a reader pinned in another domain delayed this one"
    );
    reader_of_a.unpin(&mut registry);
}

/// Ending a domain runs whatever is left: exclusive access proves no reader.
#[test]
fn dropping_the_domain_runs_the_remainder() {
    let hits = Arc::new(AtomicUsize::new(0));
    {
        let mut ids = DomainIds::new();
        let mut domain = Domain::new(&mut ids);
        for _ in 0..8 {
            domain.retire(counting(&hits));
        }
        assert_eq!(hits.load(Ordering::SeqCst), 0);
        assert_eq!(domain.dispose(), 8);
    }
    assert_eq!(
        hits.load(Ordering::SeqCst),
        8,
        "dropping leaked retirements"
    );
}

/// A guard is one word.
#[test]
fn a_guard_is_one_word() {
    assert_eq!(
        std::mem::size_of::<ps_reclaim::Guard>(),
        std::mem::size_of::<usize>(),
        "a guard grew; anything returning one from a hot path pays for it per call"
    );
}

/// A retirement made on one thread must be runnable from another, while the
/// retiring thread stays alive and unpinned.
#[test]
fn a_retirement_from_another_thread_runs_here() {
    let mut registry = Registry::new();
    let mut ids = DomainIds::new();
    let mut domain = Domain::new(&mut ids);
    let hits = Arc::new(AtomicUsize::new(0));

    let mut other = RemoteReader::spawn();
    other.pin(&domain, &mut registry);
    domain.retire(counting(&hits));
    other.unpin(&mut registry);

    drive(&mut domain, &registry, &hits, 1);
    assert_eq!(
        hits.load(Ordering::SeqCst),
        1,
        "a retirement made on another thread was not reachable from this one"
    );
    assert!(other.local.local.mine.is_some());
}

/// Using many domains must not disturb a guard held on one of them.
#[test]
fn many_domains_do_not_disturb_a_live_guard() {
    let mut registry = Registry::new();
    let mut ids = DomainIds::new();
    let mut domains: Vec<Domain<Callback>> = (0..64).map(|_| Domain::new(&mut ids)).collect();
    let hits = Arc::new(AtomicUsize::new(0));
    let mut local = OwnedLocal::new();

    // A live guard on the first domain, held across everything below.
    let held = domains[0].pin(&mut registry, &mut local);
    domains[0].retire(counting(&hits));

    // Churn every other domain: pin, release, advance.
    for d in domains[1..].iter_mut() {
        let g = d.pin(&mut registry, &mut local);
        g.release(&mut registry, &mut local.local);
        d.advance(&registry);
    }

    drive(&mut domains[0], &registry, &hits, 1);
    assert_eq!(
        hits.load(Ordering::SeqCst),
        0,
        "churning unrelated domains released a guard that was still held"
    );

    held.release(&mut registry, &mut local.local);
    drive(&mut domains[0], &registry, &hits, 1);
    assert_eq!(
        hits.load(Ordering::SeqCst),
        1,
        "the retirement never ran once the guard was dropped"
    );
}
