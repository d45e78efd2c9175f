//! Stateless model checking for small concurrent programs.
//!
//! `interweave` explores the interleavings of concurrent processes and checks that every one of
//! them is correct. Processes are deterministic step functions, driven by a single-threaded
//! executor. Synchronization primitives (the built-in [`Atomic`] and an MPSC channel,
//! [`Sender`] / [`Receiver`]) are objects of the model, so that every operation that can interact
//! with another process is an explicit scheduling point.
//!
//! The strategy is Optimal DPOR: it explores exactly one interleaving per Mazurkiewicz
//! equivalence class.
//!
//! # How it fits together
//!
//! - **Build** a program on a [`World`]: [`spawn`](World::spawn) the processes and create the
//!   shared objects they communicate through.
//! - **Communicate** through the built-in [`Atomic`] and channel, or through an [`Object`] of your
//!   own, given to [`World::register`].
//! - **Explore** with [`explore`]: it runs Optimal DPOR over the program and returns the first
//!   [`FailedState`], or `Ok(())` if no interleaving fails. An [`Observer`] watches the search.
//!
//! # What is proved
//!
//! A [`FailedState`] is a schedule of the program that fails, and fails again when it is played.
//! `Ok(())` means that no schedule fails, and the complete schedules that the search runs through
//! are one for every class, provided that the dependency relation of the program's objects can be
//! relied on ([`dependable`](theory::program::dependable)). The built-in primitives can
//! ([`sync::reliable`]); how, and why that suffices, is the subject of [`theory`].
//!
//! The steps that an [`Observer`] is told of, and the outcome, are a function of the program alone:
//! [`search::saga`] says what the search does turn by turn. What each part is for is said by the laws
//! in [`model::laws`], [`sync::laws`] and [`search::laws`].

pub mod model;
pub mod search;
pub mod sync;
pub mod theory;

pub use model::failure::{FailureReason, ProcessError};
pub use model::object::{Object, ObjectID, Transition};
pub use model::process::{Outcome, Process, ProcessID};
pub use model::state::State;
pub use model::world::World;
pub use search::explore::{explore, FailedState};
pub use search::observer::{Observer, RaceOutcome, Step, StepCx, WakeupNode};
pub use sync::shared::Handle as Atomic;
pub use sync::shared::{Receiver, Sender};
