//! The strategy / exploration layer: the model checker proper.

pub mod wakeup;
pub mod observer;
pub mod clocks;
pub mod reversal;
pub mod plan;
pub mod saga;
pub mod laws;
pub mod books;
pub mod tour;
pub mod optimal;
pub mod measure;
pub mod explore;
pub mod exhaustive;
