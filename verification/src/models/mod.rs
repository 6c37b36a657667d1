//! Records read from the firewall log database and the statistics built from them.

pub mod named_map;
pub mod models;

pub use models::{Bucket, Interface, Options, Stats, Summary, Top, Totals};
pub mod tables;

pub use tables::{filters::Model as Filter, log::Model as Log};
pub mod queries;
