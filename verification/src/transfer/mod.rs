//! Buffers that leave the owning thread.
pub mod handle;
