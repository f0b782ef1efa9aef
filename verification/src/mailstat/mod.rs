//! Mailstat: the statistics of a procmail log.

pub mod totals;

pub use totals::{Stats, Totals};
pub mod log;
pub mod report;
pub mod rc;
