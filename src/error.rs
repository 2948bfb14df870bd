use vstd::prelude::*;

use crate::client::ItemId;

verus! {

/// What went wrong while pricing.
#[derive(Debug, Clone, Copy, PartialEq, Eq, Structural)]
pub enum Failure {
    /// The order book ran out before the requested quantity was met;
    /// `remaining` is the quantity left unmatched.
    InsufficientDepth { item: ItemId, remaining: i32 },
    /// Reference data that the index is expected to hold is absent.
    MissingReferenceData { id: i32 },
    /// A currency total or a scaled quantity does not fit in an `i32`.
    Overflow { item: ItemId },
}

/// The error of every fallible operation of the library.
#[derive(Debug, Clone, Copy, PartialEq, Eq, Structural)]
pub struct Failed(pub Failure);

} // verus!
