//! A verified core for a live level-2 order-book viewer.
//!
//! The library decodes structured feed payloads into typed messages (full
//! snapshots and incremental updates) and applies them to a two-sided book
//! while keeping both sides sorted by ascending price. Transport, terminal
//! rendering and argument parsing live outside the library and only hand
//! plain values in and out.

pub mod cli;
pub mod cursor;
pub mod decimal;
pub mod json;
pub mod model;
