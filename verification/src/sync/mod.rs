//! The synchronization primitives: an atomic cell and an unbounded MPSC channel.

pub mod atomic;
pub mod request;
pub mod value;
pub mod channel;
pub mod shared;
pub mod reliable;
pub mod laws;
