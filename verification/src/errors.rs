//! Error taxonomy of the persistence layer.
use vstd::prelude::*;

verus! {

/// Errors surfaced by repository operations.
///
/// `Internal` carries a description of a store-level failure (the enclosing
/// transaction has already rolled back, so retrying is pointless).
/// `RemovedEntity` marks a stale handle whose entity was deleted; callers
/// recover by re-fetching. `DuplicateName` is a uniqueness violation on an
/// `add` operation. `ParentGameMismatch` is returned when a profile is
/// activated while its parent game is not the active game; this layer
/// enforces that scoping rule.
#[derive(Debug, Clone)]
pub enum Error {
    Internal(String),
    RemovedEntity,
    DuplicateName,
    ParentGameMismatch,
}

impl Error {
    /// A short human-readable description, in place of `Display`.
    pub fn describe(&self) -> String {
        match self {
            Error::Internal(msg) => msg.clone(),
            Error::RemovedEntity => "entity has been removed".to_owned(),
            Error::DuplicateName => "an entity with this name already exists".to_owned(),
            Error::ParentGameMismatch => "profile does not belong to the active game".to_owned(),
        }
    }
}

} // verus!
