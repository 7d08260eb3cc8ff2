//! Other ways to hand out buffers.
pub mod bumpalo_pool;
pub mod bytes_pool;
pub mod crossbeam_pool;
pub mod sharded;
pub mod slab_mutex;
pub mod vec_baseline;
