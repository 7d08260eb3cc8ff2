//! Leased buffers and the pool that hands them out.
pub mod effects;
pub mod leased;
pub mod ledger;
pub mod pinned;
pub mod pool;
