//! The per-participant node runtime's verified core: the task bookkeeping
//! and result caches its listeners share. The listeners themselves are I/O
//! loops around these structures.

pub mod cache;
pub mod errors;
pub mod group_cache;
pub mod runtime;
pub mod types;
