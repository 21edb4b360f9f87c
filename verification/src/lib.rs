//! Storage core of an embeddable, encrypted, deduplicated, versioned block
//! store.
//!
//! The engine takes logical writes, deduplicates and encrypts them into
//! content-addressed blocks, tracks how many live references point at each
//! block, caches hot decrypted blocks, and commits groups of such writes
//! atomically against a crash-unsafe backing medium.

use vstd::prelude::*;

pub mod cache;
pub mod crypto;
pub mod refcnt;
pub mod repo;
pub mod hash;
pub mod store;
pub mod version;

pub use cache::BlockCache;
pub use refcnt::{RefCounter, RefEntry, RefState};
pub use repo::{Device, Published, Repo, Transaction, TxState};
pub use store::ContentStore;
pub use version::VersionManager;

verus! {

/// Errors surfaced by the block engine.
#[derive(Clone, Copy, Debug, PartialEq, Eq, Structural)]
pub enum Error {
    /// Authentication failed on decrypt: the stored ciphertext does not match
    /// its tag. The read fails; the block is not deleted automatically.
    IntegrityError,
    /// The requested hash or version is not present.
    NotFound,
    /// A reference count would drop below zero: a bookkeeping bug in the
    /// caller, never recoverable.
    RefCountUnderflow,
    /// The commit lost the race for the head pointer; the caller must re-base
    /// the transaction on the new head and retry.
    Conflict,
    /// The parent handed to `publish` is not the current head.
    StaleParent,
    /// A machine-width limit was reached (a reference count or an identifier
    /// would overflow its word).
    LimitExceeded,
}

/// Wrap a component into a shared handle with synchronized read/write access.
///
/// Components that must be reachable from several call sites (the reference
/// counter, the block cache) are shared through such a handle; ownership of
/// the underlying value stays singular.
pub trait IntoRef: Sized {
    fn into_ref(self) -> std::sync::Arc<std::sync::RwLock<Self>> {
        new_shared(self)
    }
}

impl IntoRef for crate::refcnt::RefCounter {

}

impl IntoRef for crate::cache::BlockCache {

}

#[verifier::external_type_specification]
#[verifier::external_body]
#[verifier::reject_recursive_types(T)]
pub struct ExRwLock<T: ?Sized>(std::sync::RwLock<T>);

/// Relies on `std::sync::RwLock::new` and `std::sync::Arc::new`: wraps a value
/// into a reference-counted lock for shared, internally synchronized access.
#[verifier::external_body]
fn new_shared<T>(t: T) -> std::sync::Arc<std::sync::RwLock<T>> {
    std::sync::Arc::new(std::sync::RwLock::new(t))
}

} // verus!
