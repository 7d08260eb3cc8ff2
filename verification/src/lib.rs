//! Epoch-based buffer rotation for io_uring.
//!
//! Buffers are leased from arenas, one arena per epoch. Rotation retires the
//! current arena and moves on to the next; an arena is recycled once all of its
//! leases are back.
pub mod bench;
pub mod buffer;
pub mod config;
pub mod epoch;
pub mod error;
pub mod gc;
pub mod histories;
pub mod laws;
pub mod limits;
pub mod prelude;
pub mod ring;
pub mod text;
pub mod transfer;
pub mod types;

pub use buffer::leased::LeasedBuffer;
pub use buffer::pinned::PinnedWrite;
pub use buffer::pool::IouringBufferPool;
pub use config::PoolConfig;
pub use epoch::arena::{Arena, ArenaState, PageRange};
pub use epoch::clock::EpochClock;
pub use epoch::manager::SetupFailure;
pub use error::{OsError, TurbineError};
pub use gc::{BufferPinHook, EpochObserver, NoopHooks};
pub use ring::registration::RingRegistration;
pub use transfer::handle::SendableBuffer;
pub use types::{ArenaIdx, SlotId};
