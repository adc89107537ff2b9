//! Fault injection for tests.

pub mod statement_failure;
pub mod statement_failure_inert;
