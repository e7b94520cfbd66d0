//! Incremental change-data-capture poller core: a registry of source
//! databases and their pollable tables ("targets"), a due-set scheduler,
//! and a polling engine that advances per-target cursors monotonically
//! and survives configuration reloads without losing progress.

pub mod codec;
pub mod config;
pub mod engine;
pub mod errors;
pub mod lookup;
pub mod schedule;
pub mod targets;
