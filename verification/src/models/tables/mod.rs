//! The rows of the firewall log database.

pub mod filters;
pub mod log;
