//! Registration of arenas as fixed io_uring buffers.
pub mod effects;
pub mod registration;
