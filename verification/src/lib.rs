//! Tail calls for chained computations.
//!
//! A long chain of computations, each of which hands its result to the next,
//! costs a call stack as deep as the chain is long when every stage runs
//! inside the one before it. Here a stage that is done asks instead to be
//! replaced by its successor: it reports a [`Signal::Continuation`] where a
//! failure would stand, and the [`Becomer`] that runs it drops it and goes on
//! with the successor, in a loop.

pub mod dispatch;
pub mod laws;
pub mod script;
pub mod step;

pub use crate::dispatch::{Becomer, Becoming};
pub use crate::step::{Signal, Step};
