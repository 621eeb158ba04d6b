//! Keys of per-thread storage, and which racer's key is kept.
//!
//! A platform key is created on first touch. Racing threads each create one and
//! one of them wins; the losers hand theirs straight back. The key is stored with
//! a bias of one, so that zero means "not yet created".
use vstd::prelude::*;

verus! {

/// The key stored under a biased word.
pub open spec fn key_of(biased: usize) -> Option<usize> {
    if biased == 0 {
        None
    } else {
        Some((biased - 1) as usize)
    }
}

/// Reads a biased word.
pub fn unbias(biased: usize) -> (key: Option<usize>)
    ensures
        key == key_of(biased),
{
    if biased == 0 {
        None
    } else {
        Some(biased - 1)
    }
}

/// The word to store for a fresh key.
pub fn bias(fresh: usize) -> (biased: usize)
    requires
        fresh < usize::MAX,
    ensures
        key_of(biased) == Some(fresh),
{
    fresh + 1
}

/// Which key a racer goes on with, and which one it has to destroy.
pub struct KeyClaim {
    pub key: usize,
    pub discard: Option<usize>,
}

/// Settles a race, given what an attempt to replace an empty word by a fresh key
/// found: `Ok` if the word was empty, else the word that stood there.
pub fn settle_key(fresh: usize, outcome: Result<usize, usize>) -> (claim: KeyClaim)
    requires
        outcome matches Err(found) ==> found != 0,
    ensures
        outcome is Ok ==> claim == (KeyClaim { key: fresh, discard: None }),
        outcome matches Err(found) ==> claim == (KeyClaim {
            key: (found - 1) as usize,
            discard: Some(fresh),
        }),
{
    match outcome {
        Ok(_) => KeyClaim { key: fresh, discard: None },
        // Another thread won. This key holds no value on any thread, since
        // nothing has been handed it yet.
        Err(found) => KeyClaim { key: found - 1, discard: Some(fresh) },
    }
}

/// One lazily created key.
pub struct Tls {
    /// The platform key, biased by one.
    pub key: usize,
}

impl Tls {
    /// The key, once some thread has created it.
    pub open spec fn current(self) -> Option<usize> {
        key_of(self.key)
    }

    /// The claim a racer that offers `fresh` gets.
    pub open spec fn claim(self, fresh: usize) -> KeyClaim {
        match self.current() {
            None => KeyClaim { key: fresh, discard: None },
            Some(key) => KeyClaim { key, discard: Some(fresh) },
        }
    }

    /// What stands after a racer offered `fresh`.
    pub open spec fn offered(self, fresh: usize) -> Tls {
        match self.current() {
            None => Tls { key: (fresh + 1) as usize },
            Some(_) => self,
        }
    }

    /// No key yet.
    pub fn new() -> (t: Tls)
        ensures
            t.current() is None,
    {
        Tls { key: 0 }
    }

    /// The existing key. Never creates one.
    pub fn get(&self) -> (key: Option<usize>)
        ensures
            key == self.current(),
    {
        unbias(self.key)
    }

    /// Offers a freshly created key, which is kept only if there is none.
    pub fn offer(&mut self, fresh: usize) -> (claim: KeyClaim)
        requires
            fresh < usize::MAX,
        ensures
            claim == old(self).claim(fresh),
            *final(self) == old(self).offered(fresh),
    {
        let found: usize = self.key;
        if found == 0 {
            self.key = bias(fresh);
            settle_key(fresh, Ok(found))
        } else {
            settle_key(fresh, Err(found))
        }
    }
}

/// What a thread does next to reach its value.
pub enum Access {
    /// Lend the value that is there.
    LendExisting,
    /// Initialise a value and try to store it.
    Initialise,
    /// Lend the value that was just stored.
    LendFresh,
    /// Drop the value that could not be stored, and lend nothing.
    DropFresh,
}

/// Decides how a thread reaches its value: whether one exists, and, once the
/// thread has initialised one, whether the platform stored it.
pub fn access(exists: bool, stored: Option<bool>) -> (a: Access)
    ensures
        exists <==> a is LendExisting,
        !exists && stored is None <==> a is Initialise,
        !exists && stored == Some(true) <==> a is LendFresh,
        !exists && stored == Some(false) <==> a is DropFresh,
{
    if exists {
        return Access::LendExisting;
    }
    match stored {
        None => Access::Initialise,
        Some(true) => Access::LendFresh,
        Some(false) => Access::DropFresh,
    }
}

/// Racers agree: whichever key is offered first is the one every racer goes on
/// with, and every other racer discards exactly the key it created.
pub proof fn law_racers_agree_on_one_key(t: Tls, first: usize, second: usize)
    requires
        t.current() is None,
        first < usize::MAX,
    ensures
        t.claim(first) == (KeyClaim { key: first, discard: None }),
        t.offered(first).current() == Some(first),
        t.offered(first).claim(second) == (KeyClaim { key: first, discard: Some(second) }),
        t.offered(first).offered(second) == t.offered(first),
{
}

} // verus!
