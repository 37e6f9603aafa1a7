//! Structured error values: a kind plus human-readable detail.
//!
//! Validation failures are detected before any mutation is applied, so every
//! function returning one of these leaves its receiver unchanged on the
//! error path.

use vstd::prelude::*;

verus! {

/// The error kinds of the search library.
#[derive(Debug)]
pub enum RustAnnError {
    /// A lock was poisoned by a panicking holder.
    LockPoisoned,
    /// A general message.
    Message(String),
    /// An input/output failure.
    Io(String),
    /// A callback into user code failed.
    Callback(String),
    /// A batch repeated an id or collided with a live one.
    DuplicateIds(String),
    /// A vector or query length disagrees with the index dimension.
    Dimension(String),
    /// A denial-of-service guard: a dimension or batch beyond the ceiling.
    Allocation(String),
    /// A search over an index without live entries.
    EmptyIndex,
    /// A result matrix could not be shaped.
    Reshape(String),
    /// A Minkowski order that is not a positive number.
    Minkowski(String),
    /// Anything else.
    Other(String),
    /// The store version moved while a search was in flight.
    ConcurrentModification,
    /// A named metric that no registry entry resolves.
    MetricNotFound(String),
    /// A path refused by the traversal guard.
    InvalidPath(String),
}

impl RustAnnError {
    /// An input/output error carrying exactly the given detail.
    pub fn io_err(msg: String) -> (r: RustAnnError)
        ensures
            r == RustAnnError::Io(msg),
    {
        RustAnnError::Io(msg)
    }
}

/// Failure to build a named backend.
#[derive(Debug)]
pub enum BackendCreationError {
    UnsupportedBackend(String),
}

/// Failures of the distance-function registry.
#[derive(Debug)]
pub enum DistanceRegistryError {
    LockPoisoned,
    RegistryNotInitialized,
    PythonCallFailed(String),
    PythonConversionFailed(String),
    MetricNotFound(String),
}

/// Failures of the accelerated distance path.
#[derive(Debug)]
pub enum GpuError {
    /// Empty or inconsistently sized inputs.
    InvalidInput(String),
    /// A buffer could not be obtained.
    Allocation(String),
    /// A device index beyond the device count.
    DeviceIndex(String),
    /// The accelerator runtime reported a failure.
    RuntimeError(String),
}

} // verus!
