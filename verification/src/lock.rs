//! Mutual-exclusion flags for the queue's three access paths.
//!
//! The queue keeps one flag per role — producer, consumer, spiller — and
//! takes a flag before touching the stage it guards.  `try_lock` never
//! blocks: it fails when the flag is already held.

use vstd::prelude::*;

verus! {

use crate::Error;

/// A non-blocking mutual-exclusion flag.
pub struct SpinLock {
    locked: bool,
}

impl SpinLock {
    /// Whether the flag is currently held.
    pub closed spec fn is_locked(self) -> bool {
        self.locked
    }

    /// A fresh, unheld flag.
    pub fn new() -> (l: SpinLock)
        ensures
            !l.is_locked(),
    {
        SpinLock { locked: false }
    }

    /// Take the flag; fails if it is already held.
    pub fn try_lock(&mut self) -> (r: Result<(), Error>)
        ensures
            old(self).is_locked() ==> r == Result::<(), Error>::Err(Error::SpinLockFailed)
                && *final(self) == *old(self),
            !old(self).is_locked() ==> r == Result::<(), Error>::Ok(()) && final(self).is_locked(),
    {
        if self.locked {
            Err(Error::SpinLockFailed)
        } else {
            self.locked = true;
            Ok(())
        }
    }

    /// Release the flag.
    pub fn unlock(&mut self)
        ensures
            !final(self).is_locked(),
    {
        self.locked = false;
    }
}

} // verus!
