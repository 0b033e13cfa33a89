//! Reports how many whole days remain until each of a set of named events,
//! dropping those that have already passed, ordering the rest and keeping the
//! first few.
//!
//! Instants are whole seconds since the Unix epoch. The reference instant of
//! one run is captured once by the caller and passed to every stage.

pub mod event;
pub mod sort;
pub mod options;
pub mod pipeline;
