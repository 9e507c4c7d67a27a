//! A background-task coordinator: tasks with typed arguments are queued,
//! dispatched to named handlers, retried on failure up to a per-task
//! bound, and their outcomes recorded for callers to poll.
//!
//! The task model, the queue and store backends, the handler registry, the
//! executor's retry rules and the JSON wire codec are verified. The
//! asynchronous plumbing that drives them — worker loops, locks,
//! connections — lives outside and consults the decision functions here.

pub mod broker;
pub mod codec;
pub mod error;
pub mod executor;
pub mod json;
pub mod manager;
pub mod pool;
pub mod registry;
mod shims;
pub mod storage;
pub mod table;
pub mod timestamp;
pub mod task;
