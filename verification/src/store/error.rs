//! Error and result types for the storage abstraction.

use vstd::prelude::*;
use vstd::string::*;

use crate::store::domain::Domain;

verus! {

/// Result alias for fallible storage operations.
pub type Result<T, E = StoreError> = std::result::Result<T, E>;

/// Errors that a [`KvBackend`](crate::store::backend::KvBackend) may surface.
///
/// The variants are backend-neutral: each backend maps its native failures
/// onto this enum so callers never depend on a concrete engine's error type.
#[derive(Debug)]
#[non_exhaustive]
pub enum StoreError {
    /// A referenced column family / domain is not open in this backend.
    UnknownDomain(Domain),
    /// The backend rejected an otherwise well-formed operation.
    Backend(String),
    /// The backend is unavailable.
    Unavailable(String),
    /// A stored value could not be interpreted in the expected form.
    Corrupt(String),
}

/// The human-readable rendering of a storage error.
pub open spec fn store_error_message(e: StoreError) -> Seq<char> {
    match e {
        StoreError::UnknownDomain(d) => "unknown storage domain: "@ + crate::store::domain::domain_name(d),
        StoreError::Backend(msg) => "storage backend error: "@ + msg@,
        StoreError::Unavailable(msg) => "storage backend unavailable: "@ + msg@,
        StoreError::Corrupt(msg) => "corrupt stored value: "@ + msg@,
    }
}

impl StoreError {
    /// The human-readable rendering of this error.
    pub fn message(&self) -> (r: String)
        ensures
            r@ == store_error_message(*self),
    {
        match self {
            StoreError::UnknownDomain(domain) => {
                String::from_str("unknown storage domain: ").concat(domain.name())
            },
            StoreError::Backend(msg) => {
                String::from_str("storage backend error: ").concat(msg.as_str())
            },
            StoreError::Unavailable(msg) => {
                String::from_str("storage backend unavailable: ").concat(msg.as_str())
            },
            StoreError::Corrupt(msg) => {
                String::from_str("corrupt stored value: ").concat(msg.as_str())
            },
        }
    }
}

} // verus!
