use vstd::prelude::*;

use crate::decimal::{decimal, decimal_text};

verus! {

const K: u64 = 1000;
const M: u64 = 1000000;
const G: u64 = 1000000000;
const T: u64 = 1000000000000;

/// The unit in which a count is shown to a reader.
#[derive(Clone, Copy, Debug, PartialEq, Eq, Structural)]
pub enum Magnitude {
    /// Below a thousand: shown as it is.
    Units,
    /// From a thousand up: shown in thousands, "k".
    Thousands,
    /// From a million up: shown in millions, "M".
    Millions,
    /// From a billion up: shown in billions, "B".
    Billions,
    /// From a trillion up: shown in trillions, "T".
    Trillions,
}

/// The unit of `value`: the largest of thousand, million, billion and
/// trillion that `value` reaches, or none.
pub open spec fn magnitude_of(value: u64) -> Magnitude {
    if value < 1000 {
        Magnitude::Units
    } else if value < 1000000 {
        Magnitude::Thousands
    } else if value < 1000000000 {
        Magnitude::Millions
    } else if value < 1000000000000 {
        Magnitude::Billions
    } else {
        Magnitude::Trillions
    }
}

impl Magnitude {
    /// What a value is divided by to be shown in this unit.
    pub open spec fn spec_divisor(self) -> u64 {
        match self {
            Magnitude::Units => 1,
            Magnitude::Thousands => 1000,
            Magnitude::Millions => 1000000,
            Magnitude::Billions => 1000000000,
            Magnitude::Trillions => 1000000000000,
        }
    }

    /// The suffix written after a value shown in this unit.
    pub open spec fn spec_suffix(self) -> Seq<char> {
        match self {
            Magnitude::Units => ""@,
            Magnitude::Thousands => "k"@,
            Magnitude::Millions => "M"@,
            Magnitude::Billions => "B"@,
            Magnitude::Trillions => "T"@,
        }
    }

    /// What a value is divided by to be shown in this unit.
    pub fn divisor(&self) -> (d: u64)
        ensures
            d == self.spec_divisor(),
    {
        match self {
            Magnitude::Units => 1,
            Magnitude::Thousands => K,
            Magnitude::Millions => M,
            Magnitude::Billions => G,
            Magnitude::Trillions => T,
        }
    }

    /// The suffix written after a value shown in this unit.
    pub fn suffix(&self) -> (s: &'static str)
        ensures
            s@ == self.spec_suffix(),
    {
        match self {
            Magnitude::Units => "",
            Magnitude::Thousands => "k",
            Magnitude::Millions => "M",
            Magnitude::Billions => "B",
            Magnitude::Trillions => "T",
        }
    }
}

/// The unit in which `value` is shown: a value below a thousand as it is,
/// a larger one in the largest unit that it reaches.
pub fn magnitude(value: u64) -> (m: Magnitude)
    ensures
        m == magnitude_of(value),
        m == Magnitude::Units <==> value < 1000,
        m == Magnitude::Trillions <==> value >= 1000000000000,
        m != Magnitude::Units ==> value >= m.spec_divisor(),
        m != Magnitude::Trillions ==> value < 1000 * m.spec_divisor(),
{
    if value < K {
        Magnitude::Units
    } else if value < M {
        Magnitude::Thousands
    } else if value < G {
        Magnitude::Millions
    } else if value < T {
        Magnitude::Billions
    } else {
        Magnitude::Trillions
    }
}

/// How a value below a thousand is shown: its decimal digits. Larger values
/// are shown as a fraction of their unit, which this function does not write.
pub fn units_text(value: u64) -> (text: Option<String>)
    ensures
        text is Some <==> magnitude_of(value) == Magnitude::Units,
        text matches Some(t) ==> t@ == decimal(value as nat),
{
    if value < K {
        Some(decimal_text(value))
    } else {
        None
    }
}

} // verus!
