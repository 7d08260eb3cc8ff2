//! Workloads that exercise the pool, and other allocators to hold it against.
pub mod competitors;
pub mod sizing;
pub mod spsc;
pub mod workload;
