use vstd::prelude::*;

verus! {

/// Fill level of one storage stage of a path queue.
#[derive(Debug, PartialEq, Eq, Structural)]
pub enum PathQueueState {
    Empty,
    PartiallyFilled,
    Full,
}

impl PathQueueState {
    pub fn is_empty(&self) -> (r: bool)
        ensures
            r == (*self == PathQueueState::Empty),
    {
        matches!(self, PathQueueState::Empty)
    }

    pub fn is_partially_filled(&self) -> (r: bool)
        ensures
            r == (*self == PathQueueState::PartiallyFilled),
    {
        matches!(self, PathQueueState::PartiallyFilled)
    }

    pub fn is_full(&self) -> (r: bool)
        ensures
            r == (*self == PathQueueState::Full),
    {
        matches!(self, PathQueueState::Full)
    }
}

} // verus!
