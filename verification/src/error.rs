//! The typed failures of the creation protocol. Every error aborts the whole
//! invocation; the protocol never commits a partial result.

use vstd::prelude::*;

verus! {

#[derive(Clone, Copy, Debug, PartialEq, Eq, Structural)]
pub enum TransformError {
    /// The supplied resource-handle list does not have exactly
    /// `|inputs| + |outputs| + 3` entries.
    StructuralError,
    /// The targeted record was already committed by an earlier creation.
    AlreadyInitialized,
    /// A custody reassignment was refused: the initializer does not hold
    /// authority over one of the named asset accounts.
    CustodyTransferFailed,
    /// The stored bytes do not decode as a record.
    SerializationError,
    /// No custodian address could be derived for the registry identity.
    CustodianUnavailable,
}

} // verus!
