//! Capacity diagnostics of the registry.
use vstd::prelude::*;
use vstd::set_lib::set_int_range;

use crate::registry::{Registry, RegistryView, SlotView, OVERFLOW_SLOT};

verus! {

/// A snapshot of exclusive capacity. A cold diagnostic, not a reservation.
pub struct RegistryStats {
    /// Slots given back while a guard was outstanding and not reused yet.
    pub quarantined: usize,
    /// Quarantined slots whose guard is still outstanding.
    pub pinned_quarantined: usize,
    /// Exclusive slots an acquisition could be given now.
    pub available_exclusive: usize,
}

/// Whether a quarantined slot still publishes a pin.
pub open spec fn still_pinned(slots: Seq<SlotView>) -> spec_fn(usize) -> bool {
    |idx: usize| !slots[idx as int].idle()
}

/// How many of these slots still publish a pin.
pub open spec fn pinned_count(r: RegistryView) -> nat {
    r.quarantine.filter(still_pinned(r.slots)).len()
}

/// Exclusive slots an acquisition could be given: those never handed out, those
/// given back, and those quarantined that publish nothing any more.
pub open spec fn available_count(r: RegistryView) -> int {
    OVERFLOW_SLOT - r.issued() + r.free.len() + r.quarantine.len() - pinned_count(r)
}

/// Reports how many exclusive slots are quarantined and how many are available.
pub fn registry_stats(registry: &Registry) -> (stats: RegistryStats)
    requires
        registry.wf(),
    ensures
        stats.quarantined == registry@.quarantine.len(),
        stats.pinned_quarantined == pinned_count(registry@),
        stats.available_exclusive == available_count(registry@),
{
    let ghost p = still_pinned(registry@.slots);
    let mut pinned: usize = 0;
    let mut i: usize = 0;
    while i < registry.quarantine.len()
        invariant
            registry.wf(),
            i <= registry.quarantine@.len(),
            pinned <= i,
            p == still_pinned(registry@.slots),
            pinned == registry.quarantine@.take(i as int).filter(p).len(),
        decreases registry.quarantine@.len() - i,
    {
        let idx: usize = registry.quarantine[i];
        assert(registry@.quarantine[i as int] == idx);
        assert(registry@.slots[idx as int] == registry.slots@[idx as int]@);
        proof {
            reveal(Seq::filter);
            let next = registry.quarantine@.take(i + 1);
            assert(next.drop_last() =~= registry.quarantine@.take(i as int));
            assert(next.last() == idx);
        }
        if !registry.slots[idx].is_idle() {
            pinned = pinned + 1;
        }
        i = i + 1;
    }
    proof {
        assert(registry.quarantine@.take(i as int) =~= registry@.quarantine);
        lemma_returned_slots_fit(registry@);
    }
    let issued: usize = if registry.next < OVERFLOW_SLOT {
        registry.next
    } else {
        OVERFLOW_SLOT
    };
    RegistryStats {
        quarantined: registry.quarantine.len(),
        pinned_quarantined: pinned,
        available_exclusive: (OVERFLOW_SLOT - issued) + registry.free.len() + (
        registry.quarantine.len() - pinned),
    }
}

/// The exclusive slots some registration owns.
pub open spec fn leased_slots(r: RegistryView) -> Set<int> {
    Set::new(|i: int| r.leased(i))
}

/// The slots listed in a sequence of indices.
pub open spec fn listed(s: Seq<usize>) -> Set<int> {
    s.map_values(|i: usize| i as int).to_set()
}

proof fn lemma_listed(s: Seq<usize>)
    requires
        s.no_duplicates(),
    ensures
        listed(s).finite(),
        listed(s).len() == s.len(),
        forall|i: int| 0 <= i <= usize::MAX ==> (listed(s).contains(i) <==> s.contains(i as usize)),
        forall|i: int| listed(s).contains(i) ==> 0 <= i <= usize::MAX,
{
    let m = s.map_values(|i: usize| i as int);
    assert(m.no_duplicates()) by {
        assert forall|i: int, j: int| 0 <= i < m.len() && 0 <= j < m.len() && i != j implies m[i]
            != m[j] by {
            assert(s[i] != s[j]);
        }
    }
    m.unique_seq_to_set();
    assert forall|i: int| 0 <= i <= usize::MAX implies (listed(s).contains(i) <==> s.contains(
        i as usize,
    )) by {
        if s.contains(i as usize) {
            let k = choose|k: int| 0 <= k < s.len() && s[k] == i as usize;
            assert(m[k] == i);
        }
        if m.contains(i) {
            let k = choose|k: int| 0 <= k < m.len() && m[k] == i;
            assert(s[k] == i as usize);
        }
    }
}

/// Every exclusive slot that was handed out is owned, free or quarantined, and
/// only one of these.
pub proof fn lemma_issued_partition(r: RegistryView)
    requires
        r.wf(),
    ensures
        leased_slots(r).finite(),
        leased_slots(r).len() + r.free.len() + r.quarantine.len() == r.issued(),
{
    lemma_listed(r.free);
    lemma_listed(r.quarantine);
    let f = listed(r.free);
    let q = listed(r.quarantine);
    let l = leased_slots(r);
    let all = set_int_range(0, r.issued());
    vstd::set_lib::lemma_int_range(0, r.issued());
    assert(l.subset_of(all));
    vstd::set_lib::lemma_len_subset(l, all);
    assert(f.disjoint(q)) by {
        assert forall|i: int| f.contains(i) implies !q.contains(i) by {
            let k = choose|k: int| 0 <= k < r.free.len() && r.free[k] == i as usize;
            assert(!r.quarantine.contains(r.free[k]));
        }
    }
    vstd::set_lib::lemma_set_disjoint_lens(f, q);
    assert(l.disjoint(f + q));
    vstd::set_lib::lemma_set_disjoint_lens(l, f + q);
    assert(l + (f + q) =~= all) by {
        assert forall|i: int| (f + q).contains(i) implies all.contains(i) by {
            if f.contains(i) {
                let k = choose|k: int| 0 <= k < r.free.len() && r.free[k] == i as usize;
                assert(r.free[k] < r.issued());
            } else {
                let k = choose|k: int| 0 <= k < r.quarantine.len() && r.quarantine[k] == i as usize;
                assert(r.quarantine[k] < r.issued());
            }
        }
    }
}

proof fn lemma_returned_slots_fit(r: RegistryView)
    requires
        r.wf(),
    ensures
        r.free.len() + r.quarantine.len() <= r.issued(),
{
    lemma_issued_partition(r);
}

/// Capacity is accounted for: every exclusive slot is available, owned by a live
/// registration, or quarantined under an outstanding guard.
pub proof fn law_exclusive_capacity_is_accounted_for(r: RegistryView)
    requires
        r.wf(),
    ensures
        leased_slots(r).finite(),
        available_count(r) + leased_slots(r).len() + pinned_count(r) == OVERFLOW_SLOT,
{
    lemma_issued_partition(r);
}

} // verus!
