//! Firewall traffic statistics: the filters, aggregations and record types
//! behind the traffic visualizer.

pub mod decimal;
pub mod models;
pub mod utils;
