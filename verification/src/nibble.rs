//! The storage engine and its building blocks, leaves first: records,
//! regions, segments, the dead-ratio index, the segment manager, the log,
//! epochs, the index, and the store that ties them together.

pub mod accounting;
pub mod common;
pub mod compactor;
pub mod epoch;
pub mod index;
pub mod liveness;
pub mod log;
pub mod lsm;
pub mod manager;
pub mod model;
pub mod ranking;
pub mod record;
pub mod region;
pub mod segment;
