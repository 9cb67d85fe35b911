//! The error taxonomy of the store.
//!
//! Every operation of the library returns either success with a value or one
//! of these typed failures. Backing-store I/O failures are the persistence
//! adapter's concern and do not appear here: the verified store never
//! performs I/O itself.

use vstd::prelude::*;

verus! {

/// A typed failure of a store operation.
#[derive(Clone, Copy, Debug, PartialEq, Eq, Structural)]
pub enum StoreError {
    /// A read context that requires presence was given an absent identifier.
    NotFound,
    /// A create was given an identifier that already exists within its kind.
    Conflict,
    /// A vector's length disagrees with the index's configured dimension.
    DimensionMismatch,
    /// The embedding provider failed; the owning entity write is kept.
    Provider,
    /// Stored vector bytes are not a whole multiple of the component width.
    Decode,
}

impl StoreError {
    /// A short description of the failure, for diagnostics.
    pub fn message(&self) -> (r: &'static str)
        ensures
            r@.len() > 0,
    {
        proof {
            reveal_strlit("entity not found");
            reveal_strlit("identifier already exists");
            reveal_strlit("vector dimension mismatch");
            reveal_strlit("embedding provider failure");
            reveal_strlit("malformed vector payload");
        }
        match self {
            StoreError::NotFound => "entity not found",
            StoreError::Conflict => "identifier already exists",
            StoreError::DimensionMismatch => "vector dimension mismatch",
            StoreError::Provider => "embedding provider failure",
            StoreError::Decode => "malformed vector payload",
        }
    }
}

} // verus!
