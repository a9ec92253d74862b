//! Run execution decisions: how a run moves from task to task, how a task
//! is retried, how outputs are extracted from results, how a fan-out's
//! items are aggregated, and how run inputs are resolved and typed.

pub mod inputs;
pub mod workers;
pub mod outputs;
pub mod run;
