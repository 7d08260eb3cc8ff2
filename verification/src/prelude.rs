//! Convenience re-exports.
pub use crate::buffer::leased::LeasedBuffer;
pub use crate::buffer::pinned::PinnedWrite;
pub use crate::buffer::pool::IouringBufferPool;
pub use crate::config::PoolConfig;
pub use crate::epoch::arena::{Arena, ArenaState, PageRange};
pub use crate::epoch::clock::EpochClock;
pub use crate::error::{OsError, TurbineError};
pub use crate::gc::{BufferPinHook, EpochObserver, NoopHooks};
pub use crate::ring::registration::RingRegistration;
pub use crate::transfer::handle::SendableBuffer;
pub use crate::types::{ArenaIdx, SlotId};
