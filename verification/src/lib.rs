//! Flow orchestration: the verified core of a workflow engine. Templates,
//! flow definitions and their validation, plugin contracts, scheduling
//! decisions and run bookkeeping.

pub mod api;
pub mod auth;
pub mod config;
pub mod db;
pub mod engine;
pub mod expr;
pub mod json;
pub mod model;
pub mod plugins;
pub mod scheduler;
pub mod secrets;
pub mod text;
