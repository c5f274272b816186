//! The runtime of an incremental computation engine: revisions and
//! durabilities, the queries that are being executed and what they depend on,
//! and the graph of threads that wait for one another, with its cycles.

pub mod cycle;
pub mod durability;
pub mod event;
pub mod key;
pub mod revision;
pub mod runtime;
