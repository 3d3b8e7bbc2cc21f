//! A hashed timer wheel: a fixed ring of slots, each owning a doubly linked
//! list of pending timeouts stored in an index-addressed arena.
mod arena;
mod lists;
pub mod laws;
pub mod wheel;

pub use wheel::{Timeout, TimerError, TimerWheel};
