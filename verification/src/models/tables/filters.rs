use vstd::prelude::*;

verus! {

/// What a filter value names.
#[derive(Clone, Copy, Debug, PartialEq, Eq, Structural)]
pub enum Kind {
    InputInterface,
    OutputInterface,
    Protocol,
}

/// A row of the `filters` table: a value that the log can be filtered by.
pub struct Model {
    pub oob_time_sec: u32,
    pub oob_time_usec: u32,
    pub kind: Kind,
    pub value: String,
}

} // verus!
