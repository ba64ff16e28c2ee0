//! Pluggable storage: per-domain column families, atomic write batches and
//! backend-agnostic store handles.

pub mod domain;
pub mod error;
pub mod backend;
pub mod tables;
pub mod mem;
pub mod store;
pub mod dyn_store;
pub mod laws;

pub use self::backend::{Entry, KvBackend, Op, WriteBatch};
pub use self::domain::Domain;
pub use self::dyn_store::{DynBackend, DynStore};
pub use self::error::{Result, StoreError};
pub use self::mem::MemBackend;
pub use self::store::Store;
