//! Simulation of Epidemic-Type Aftershock Sequences.
//!
//! The library holds the decisions of the branching simulation: the
//! time-ordered timeline of events, the rule that accepts or refuses an
//! offspring candidate, the expansion cursor and its termination policy, the
//! error type, and the tabular format that a finished sequence is written
//! in and read back from. Random draws and the kernel's floating-point arithmetic are
//! made by the caller, which hands each outcome in as a plain value.

pub mod app;
pub mod order;
pub mod simulation;
pub mod table;
