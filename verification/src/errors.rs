//! Error kinds of the store.
//!
//! Each kind is distinguishable by the caller: validation and contract
//! violations are rejected before any side effect, backend failures carry the
//! engine's message, and an alignment mismatch carries both counts.

use vstd::prelude::*;

verus! {

/// The error kinds the store surfaces to its callers.
#[derive(Debug, Clone)]
pub enum StoreError {
    /// Bad input shape or range; rejected before any side effect.
    Validation(String),
    /// The backing storage could not be opened or is corrupt.
    Open(String),
    /// A foreign engine call failed; carries the engine's message.
    Engine(String),
    /// A vector buffer's length does not match the configured dimension.
    DimensionMismatch,
    /// An id list's length does not match the number of vectors.
    IdCountMismatch,
    /// A log line could not be parsed; carries the offending line.
    CorruptRecord(String),
    /// The vector count and the map-log line count disagree.
    Mismatch(usize, usize),
    /// A prior panic corrupted shared state; fatal.
    LockPoisoned,
}

impl StoreError {
    /// A short, stable name for the kind, for logs and callers that match on
    /// text rather than on the variant.
    pub fn kind(&self) -> (r: &'static str)
        ensures
            r@ == self.spec_kind(),
    {
        match self {
            StoreError::Validation(_) => "validation",
            StoreError::Open(_) => "open",
            StoreError::Engine(_) => "engine",
            StoreError::DimensionMismatch => "dimension_mismatch",
            StoreError::IdCountMismatch => "id_count_mismatch",
            StoreError::CorruptRecord(_) => "corrupt_record",
            StoreError::Mismatch(_, _) => "mismatch",
            StoreError::LockPoisoned => "lock_poisoned",
        }
    }

    /// The name `kind` returns for each variant.
    pub open spec fn spec_kind(&self) -> Seq<char> {
        match self {
            StoreError::Validation(_) => "validation"@,
            StoreError::Open(_) => "open"@,
            StoreError::Engine(_) => "engine"@,
            StoreError::DimensionMismatch => "dimension_mismatch"@,
            StoreError::IdCountMismatch => "id_count_mismatch"@,
            StoreError::CorruptRecord(_) => "corrupt_record"@,
            StoreError::Mismatch(_, _) => "mismatch"@,
            StoreError::LockPoisoned => "lock_poisoned"@,
        }
    }
}

} // verus!
