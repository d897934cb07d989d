//! An in-memory, NUMA-aware, log-structured key-value store.
//!
//! Keys are 64-bit integers and values are opaque byte strings. Objects are
//! appended to per-socket logs made of fixed-size segments; an index maps
//! each key to the location of its newest record; and a compactor moves
//! the live records out of segments that are mostly dead, so that their
//! memory can be used again once a grace period is over.
//!
//! The store is used by one caller at a time: whoever shares it among
//! threads wraps it in a lock. Every function is verified against the
//! contract it states, over a model of the store as a map from keys to
//! values.

pub mod nibble;

pub use nibble::common::ErrorCode;
pub use nibble::index::{extract, merge, Index, IndexEntry};
pub use nibble::lsm::{Config, ObjDesc, PutPolicy, LSM, SEGMENT_SIZE};
