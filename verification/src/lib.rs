//! Randcast coordinator core: a controller state machine that drives groups of
//! BLS threshold signers through Joint-Feldman distributed key generation,
//! dispatches randomness tasks, and settles rewards for their fulfilment.
//!
//! The cryptographic pairing library is external; the library talks to it
//! through a small set of trusted byte-level wrappers in `bls`.

pub mod bls;
pub mod controller;
pub mod coordinator;
pub mod errors;
pub mod node;
pub mod utils;
