//! A decentralized task scheduler core: cron-style schedules with exact
//! next-fire-time computation, a task lifecycle state machine, a daemon
//! registry with epoch snapshots, fee and treasury accounting, and a
//! liveness monitor. Every operation is a single atomic transition whose
//! effect is stated in its contract.

pub mod calendar;
pub mod codec;
pub mod errors;
pub mod fees;
pub mod health;
pub mod parse;
pub mod schedule;
pub mod system;
pub mod task;

pub use errors::Error;
