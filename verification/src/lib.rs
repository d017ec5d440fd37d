//! Off-chain task aggregation for a restaking-style operator network.
//!
//! A coordinator watches a chain for task requests, fans each task out to a
//! registry of operators, verifies the signed responses that come back, and
//! reduces them to a single quorum decision plus the proof material a
//! contract needs to accept it.

pub mod bls;
pub mod codec;
pub mod crypto;
pub mod ecdsa;
pub mod errors;
pub mod health;
pub mod points;
pub mod quorum;
pub mod register_sm;
pub mod registry;
pub mod task;
pub mod watcher;
