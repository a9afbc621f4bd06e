//! Per-package file hash bookkeeping for a monorepo watcher service.
//!
//! The library holds the decisions of the service: the debouncer's serial
//! slot, the prefix index from package roots to per-spec hash state, and the
//! reconciler that applies topology updates, file events, hash completions
//! and queries to that index. Timers, channels and the hashing itself are
//! driven by the caller, which hands the outcomes back as plain values.
//!
//! A small descriptor of externally loaded bundle modules lives beside it.

mod debouncer;
mod external_module;
mod index;
pub mod laws;
mod state;
mod subscriber;

pub use debouncer::{DebounceStep, HashDebouncer};
pub use external_module::{CachedExternalModule, CachedExternalType};
pub use index::{FileHashes, PackageStates, SpecEntry};
pub use state::{Error, GitHashes, HashSpec, HashState, Reply};
pub use subscriber::{Effects, HashJob, HashUpdate, Subscriber, DISCOVERY_UNAVAILABLE, REMOVED};
