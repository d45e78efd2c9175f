//! The modeled concurrent system and its execution.

pub mod object;
pub mod process;
pub mod executor;
pub mod coherence;
pub mod failure;
pub mod world;
pub mod state;
pub mod script;
pub mod machine;
pub mod metered;
pub mod laws;
