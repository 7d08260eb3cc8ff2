//! Arenas and the epochs they serve.
pub mod arena;
pub mod clock;
pub mod effects;
pub mod manager;
pub mod model;
