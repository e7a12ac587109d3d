//! A verified engine for tracking recurring personal tasks.
//!
//! Each task spawns at most one open occurrence ("todo") at a time with a
//! predicted due date; completing a todo records the completion and schedules
//! the next occurrence.  Every mutating operation is rendered as one line of
//! an append-only event log, and the current state can be rebuilt by replaying
//! that log from an empty store.

pub mod clock;
pub mod data;
pub mod datetext;
pub mod due_guesser;
pub mod engine;
pub mod listing;
pub mod logger;
pub mod logline;
pub mod mem_store;
