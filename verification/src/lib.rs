//! Workloads for benchmarking text-editing containers: recorded edit traces,
//! their coalescing, and synthetic multi-cursor edits, each with a contract
//! over the text that the container holds.

pub mod text;
pub mod trace;
pub mod coalesce;
pub mod coalesce_proofs;
pub mod rope;
pub mod cursors;
pub mod cursors_proofs;
pub mod search;
pub mod containers;
pub mod executor;
pub mod random;
pub mod workloads;
