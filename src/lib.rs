//! A read-mostly key/value map with copy-on-write updates and hazard-pointer
//! style reclamation of superseded snapshots.
//!
//! Snapshots live in an arena and are named by handles; a handle plays the role
//! of the pointer that readers announce and writers swap. Every step of the
//! read and write protocols is an operation with a contract, so that any
//! interleaving of logical readers and writers can be driven step by step and
//! the safety of reclamation is proved for all of them.
pub mod hazard;
pub mod map;
pub mod retire;

pub use hazard::{HazardList, HazardNode};
pub use map::{Draft, WRRMMap, RETIRE_LIMIT};
pub use retire::RetireStore;
