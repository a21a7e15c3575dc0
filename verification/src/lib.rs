use vstd::prelude::*;

pub mod lock;
pub mod queue;
pub mod ring;
pub mod spill;
pub mod state;
pub mod walk;
pub mod wrapping;

verus! {

/// Why a queue operation failed.
#[derive(Debug, PartialEq, Eq, Structural)]
pub enum Error {
    /// The spill store could not be created, read or written, or its size cap
    /// was reached.
    Io,
    /// A lock was already held.
    SpinLockFailed,
}

} // verus!
