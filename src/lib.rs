//! Chord resolution for a keyboard firmware: decides, tick by tick, whether a
//! group of keys pressed together forms a defined chord.
//!
//! - `event`: key events and their age in the queue.
//! - `containers`: the fixed-capacity and hashed collections the engine keeps
//!   its state in, with the contracts relied on.
//! - `catalog`: chord definitions and the index from key to chords.
//! - `queue`, `active`, `matcher`: the steps of a tick on the event queue, on
//!   the active chord table, and the matching attempt.
//! - `engine`: push, tick and delivery, stated against the model of a tick.
//! - `laws`: properties that hold across calls.
use vstd::prelude::*;

pub mod action;
pub mod event;
pub mod containers;
pub mod catalog;
pub mod queue;
pub mod active;
pub mod matcher;
pub mod engine;
pub mod laws;

verus! {

} // verus!
