//! Grace-period reclamation for lock-free readers.
//!
//! A reader loads a pointer out of a shared slot and dereferences it without
//! taking a lock. A writer removes that pointer and wants the memory back. The
//! question this crate answers is *when is that safe*, and the answer is: once
//! every reader that could have loaded the pointer has finished.
//!
//! # The contract
//!
//! 1. **A retirement is not run while any reader that predates it is live.**
//! 2. **Readers in later epochs do not delay older retirements.** Readers in the
//!    same epoch can delay them. Wildcard pins delay all reclamation, and at epoch
//!    saturation reclamation requires a quiescent scan.
//! 3. **Reclamation is driven, not incidental.** [`Domain::advance`] and
//!    [`Domain::advance_up_to`] are the explicit drivers; ending a domain also
//!    runs its remaining retirements. Releasing a pin never runs callbacks.
//!
//! # How it is laid out
//!
//! [`registry`] holds the slots that registrations publish their pins in,
//! [`local`] and [`guard`] the registrations and guards on top of it, [`scan`]
//! and [`garbage`] the two halves of a reclamation pass, [`domain`] the domains.
//! All of them work on plain state that is passed in, one step at a time.
//!
//! [`protocol`] lets the steps of any number of readers, writers and reclaimers
//! interleave; [`safety`] proves the first guarantee of every such execution, and
//! [`refinement`] that its steps are those of the executable operations. [`laws`]
//! holds the other guarantees, and [`promises`] what callers observe of each
//! operation, word by word and entry by entry.
use vstd::prelude::*;

pub mod accounting;
pub mod domain;
pub mod garbage;
pub mod guard;
pub mod laws;
pub mod local;
pub mod pins;
pub mod promises;
pub mod protocol;
pub mod refinement;
pub mod registry;
pub mod safety;
pub mod scan;
pub mod stats;
pub mod tls;

pub use crate::domain::{Domain, DomainIds};
pub use crate::guard::{Guard, Handle, HandleGuard};
pub use crate::local::OwnedLocal;
pub use crate::registry::{slots_handed_out, Registry, MAX_THREADS};
pub use crate::stats::{registry_stats, RegistryStats};

verus! {

/// Normal simultaneous pins per registration (repeated domains count too).
///
/// Past it a registration publishes a wildcard and is treated as pinned everywhere
/// until it releases: conservative, never unsound.
pub const MAX_NESTED_PINS: usize = pins::PINS_PER_THREAD;

} // verus!
