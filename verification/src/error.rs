use vstd::prelude::*;

verus! {

/// The ways a handle can fail validation against an arena.
///
/// All four are recoverable: they are returned to the caller and never
/// indicate corruption of the arena itself.
#[derive(Debug, Clone, PartialEq, Eq, PartialOrd, Ord, Structural)]
pub enum HandleError {
    /// The 64-bit value cannot encode any handle (bad magic or odd version).
    InvalidHandle,
    /// The slot's generation has moved on: the classic use-after-free or
    /// double-free signal.
    StaleVersion,
    /// The handle's index lies past the end of the arena's slots.
    IndexPastEnd,
    /// The handle carries the instance id of a different arena.
    WrongMap,
}

} // verus!
