//! The engine of a terminal network dashboard: per-interface throughput
//! history, tunnel connection tracking, the browse / secret-entry selection
//! state machine and the model of the frame that a terminal front end draws.
//!
//! Everything here works on plain values. Reading counters, asking the
//! connection manager and drawing are left to the front end.

pub mod connection;
pub mod dashboard;
pub mod fields;
pub mod frame;
pub mod graph;
pub mod keys;
pub mod lane;
pub mod names;
pub mod net_monitor;
pub mod selection;
pub mod sources;
pub mod text;
pub mod throughput;
