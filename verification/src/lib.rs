//! Verified core of a fixed-denomination confidential payment pool.
//!
//! Depositors lock the pool's fixed token amount under an opaque 32-byte
//! commitment; the commitment is appended to an incremental Merkle
//! accumulator.  A holder of the matching secret later withdraws by
//! presenting an inclusion proof for the commitment together with a
//! nullifier digest; a registry of spent nullifiers rules out spending the
//! same commitment twice.  Token movement itself is an external capability
//! of the host; this crate verifies the accounting, the accumulator
//! maintenance, the proof check and the double-spend defence.

pub mod errors;
pub mod hashing;
pub mod laws;
pub mod merkle;
pub mod pool;
pub mod prover;
pub mod registry;
pub mod store;
pub mod tree;
pub mod types;
