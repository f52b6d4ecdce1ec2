use vstd::prelude::*;

verus! {

/// Why a positional or removal operation on a linked list was refused.
/// A refused operation leaves the list as it was.
#[derive(Debug, Clone, Copy, PartialEq, Eq, Structural)]
pub enum ListError {
    /// The position lies outside the window the operation accepts.
    OutOfRange,
    /// The operation needs at least one element and the list has none.
    EmptyCollection,
}

} // verus!
