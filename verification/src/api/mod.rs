//! The pure parts of the HTTP API: naming, labels and filters.

pub mod flows;
pub mod runs;

pub mod worker;
