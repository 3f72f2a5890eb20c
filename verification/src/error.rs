//! How an operation on a namespace fails.

use vstd::prelude::*;

verus! {

/// Why the storage handle could not serve a request.
#[derive(Clone, Copy, Debug, PartialEq, Eq, Structural)]
pub enum Fault {
    /// The namespace is not one of those that the store was opened with.
    Unavailable,
    /// The engine failed while it read, wrote or iterated.
    Failed,
}

/// Why an operation of a namespace accessor failed. Each is final for the
/// call that met it: nothing is retried and no partial result is given.
#[derive(Clone, Copy, Debug, PartialEq, Eq, Structural)]
pub enum StoreError {
    /// The namespace, or the handle to the store, is missing.
    StorageUnavailable,
    /// The engine failed while it read, wrote or iterated.
    IoFailure,
    /// A record could not be turned into bytes.
    EncodeFailure,
    /// Stored bytes do not stand for a record of the accessor's type.
    DecodeFailure,
}

impl Fault {
    /// The error that an operation reports when the storage handle met `self`.
    pub open spec fn error(self) -> StoreError {
        match self {
            Fault::Unavailable => StoreError::StorageUnavailable,
            Fault::Failed => StoreError::IoFailure,
        }
    }

    /// The error that an operation reports when the storage handle met `self`.
    pub fn to_error(self) -> (e: StoreError)
        ensures
            e == self.error(),
    {
        match self {
            Fault::Unavailable => StoreError::StorageUnavailable,
            Fault::Failed => StoreError::IoFailure,
        }
    }
}

} // verus!
