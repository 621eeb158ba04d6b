//! Per-thread registrations and the leases behind them.
use vstd::prelude::*;

use crate::pins::{PINS_PER_THREAD, WILDCARD};
use crate::registry::{mark_released, released_mask, Registry, RegistryView};

verus! {

/// A registration's claim on one slot, and whether that slot is shared.
pub struct SlotLease(pub usize, pub bool);

impl SlotLease {
    /// Gives the slot back when the registration ends.
    pub fn give_back(self, registry: &mut Registry)
        requires
            old(registry).wf(),
            !self.1 ==> old(registry)@.leased(self.0 as int),
        ensures
            final(registry).wf(),
            final(registry)@ == old(registry)@.released(self.0, self.1),
            final(registry).slots@ == old(registry).slots@,
            final(registry).next == old(registry).next,
    {
        registry.release(self.0, self.1);
    }
}

/// One thread's (or fiber's) cached registration.
///
/// The cache has no destructor. Its owner closes it before giving the slot back.
pub struct Local {
    /// The slot, once the thread has registered.
    pub mine: Option<usize>,
    /// Whether this thread shares the overflow slot, and so must pin through
    /// the wildcard rather than through entries.
    pub shared: bool,
    /// Occupied entries of this thread's slot.
    pub pin_mask: u8,
    /// Set once the registration is being torn down.
    pub closed: bool,
}

impl Local {
    /// A thread that has not registered yet.
    pub fn new() -> (l: Local)
        ensures
            l == (Local { mine: None, shared: false, pin_mask: 0, closed: false }),
    {
        Local { mine: None, shared: false, pin_mask: 0, closed: false }
    }

    /// Forgets the slot and refuses to register again.
    pub fn close(&mut self)
        ensures
            *final(self) == (Local { mine: None, closed: true, ..*old(self) }),
    {
        self.closed = true;
        self.mine = None;
    }

    /// Records that a pin held through `entry` of `slot` was released.
    ///
    /// The cache may belong to a later registration than the pin. Never clear that
    /// registration's occupancy.
    pub fn forget_pin(&mut self, slot: usize, entry: usize)
        requires
            entry == WILDCARD || entry < PINS_PER_THREAD,
        ensures
            *final(self) == (Local {
                pin_mask: if old(self).mine == Some(slot) {
                    released_mask(old(self).pin_mask, entry)
                } else {
                    old(self).pin_mask
                },
                ..*old(self)
            }),
    {
        if let Some(mine) = self.mine {
            if mine == slot {
                self.pin_mask = mark_released(self.pin_mask, entry);
            }
        }
    }
}

/// A cached registration together with the lease behind it.
pub struct OwnedLocal {
    pub local: Local,
    pub lease: Option<SlotLease>,
}

impl OwnedLocal {
    /// The cache names exactly the slot that the lease holds.
    pub open spec fn wf(&self) -> bool {
        match self.lease {
            Some(lease) => !self.local.closed ==> self.local.mine == Some(lease.0)
                && self.local.shared == lease.1,
            None => self.local.mine is None,
        }
    }

    /// What the registry must record for this registration.
    pub open spec fn backed_by(&self, r: RegistryView) -> bool {
        self.lease matches Some(lease) ==> r.usable(lease.0 as int, lease.1)
    }

    /// A thread that has not registered yet.
    pub fn new() -> (o: OwnedLocal)
        ensures
            o.wf(),
            o.lease is None,
            o.local == (Local { mine: None, shared: false, pin_mask: 0, closed: false }),
    {
        OwnedLocal { local: Local::new(), lease: None }
    }

    /// Ends the registration: closes the cache, then gives the slot back.
    pub fn teardown(self, registry: &mut Registry) -> (local: Local)
        requires
            old(registry).wf(),
            self.backed_by(old(registry)@),
        ensures
            final(registry).wf(),
            local == (Local { mine: None, closed: true, ..self.local }),
            final(registry)@ == match self.lease {
                Some(lease) => old(registry)@.released(lease.0, lease.1),
                None => old(registry)@,
            },
            final(registry).slots@ == old(registry).slots@,
            final(registry).next == old(registry).next,
    {
        let OwnedLocal { mut local, lease } = self;
        local.close();
        if let Some(lease) = lease {
            lease.give_back(registry);
        }
        local
    }
}

/// Publishes a freshly acquired slot in the thread's cache, if its lease could
/// be installed. A rejected installation gives the unused slot back and leaves
/// no stale cache.
pub fn install_lease(
    registry: &mut Registry,
    owned: &mut OwnedLocal,
    lease: SlotLease,
    installed: bool,
) -> (slot: Option<usize>)
    requires
        old(registry).wf(),
        old(registry)@.usable(lease.0 as int, lease.1),
        old(owned).lease is None,
    ensures
        final(registry).wf(),
        final(registry).slots@ == old(registry).slots@,
        installed ==> {
            &&& slot == Some(lease.0)
            &&& final(registry)@ == old(registry)@
            &&& final(owned).local == (Local {
                mine: Some(lease.0),
                shared: lease.1,
                ..old(owned).local
            })
            &&& final(owned).lease == Some(lease)
        },
        !installed ==> {
            &&& slot is None
            &&& final(registry)@ == old(registry)@.released(lease.0, lease.1)
            &&& *final(owned) == *old(owned)
        },
{
    if !installed {
        lease.give_back(registry);
        return None;
    }
    let idx: usize = lease.0;
    owned.local.mine = Some(idx);
    owned.local.shared = lease.1;
    owned.lease = Some(lease);
    Some(idx)
}

/// First touch by this thread: takes a slot and remembers it.
pub fn register(registry: &mut Registry, owned: &mut OwnedLocal) -> (slot: usize)
    requires
        old(registry).wf(),
        old(owned).lease is None,
        !old(owned).local.closed,
    ensures
        final(registry).wf(),
        final(owned).wf(),
        final(registry)@ == old(registry)@.acquired(),
        slot == old(registry)@.acquire_result().0,
        final(owned).lease == Some(
            SlotLease(old(registry)@.acquire_result().0, old(registry)@.acquire_result().1),
        ),
        final(owned).local == (Local {
            mine: Some(slot),
            shared: old(registry)@.acquire_result().1,
            ..old(owned).local
        }),
        final(registry)@.usable(slot as int, final(owned).local.shared),
        final(registry).slots@ == old(registry).slots@,
{
    let (idx, shared) = registry.acquire();
    let _ = install_lease(registry, owned, SlotLease(idx, shared), true);
    idx
}

/// This thread's slot, registering it first if it has none.
pub fn participant_in(registry: &mut Registry, owned: &mut OwnedLocal) -> (slot: usize)
    requires
        old(registry).wf(),
        old(owned).wf(),
        old(owned).backed_by(old(registry)@),
        !old(owned).local.closed,
    ensures
        final(registry).wf(),
        final(owned).wf(),
        final(owned).local.mine == Some(slot),
        final(owned).backed_by(final(registry)@),
        final(registry)@.usable(slot as int, final(owned).local.shared),
        final(registry).slots@ == old(registry).slots@,
        old(owned).local.mine is Some ==> final(registry)@ == old(registry)@ && *final(owned)
            == *old(owned),
        old(owned).local.mine is None ==> {
            &&& final(registry)@ == old(registry)@.acquired()
            &&& final(owned).local == (Local {
                mine: Some(old(registry)@.acquire_result().0),
                shared: old(registry)@.acquire_result().1,
                ..old(owned).local
            })
            &&& final(owned).lease == Some(
                SlotLease(old(registry)@.acquire_result().0, old(registry)@.acquire_result().1),
            )
        },
{
    if let Some(slot) = owned.local.mine {
        return slot;
    }
    register(registry, owned)
}

} // verus!
