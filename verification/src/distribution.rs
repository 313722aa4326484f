//! The ways in which strings are chosen.

use vstd::prelude::*;

verus! {

/// How the generator chooses among the strings that a pattern reads.
#[derive(Clone, Copy, Debug, PartialEq, Eq)]
pub enum Distribution {
    /// Every choice is uniform over its range.
    Uniform,
    /// Every choice follows a normal distribution centred on the middle of its
    /// range, with its tails brought back to the ends.
    Normal,
    /// The strings are enumerated by a counter.
    Incremental,
}

impl Distribution {
    /// The name of the distribution.
    pub open spec fn name(self) -> Seq<char> {
        match self {
            Distribution::Uniform => "uniform"@,
            Distribution::Normal => "normal"@,
            Distribution::Incremental => "incremental"@,
        }
    }

    /// The name of the distribution, as it is written on a command line.
    pub fn as_str(&self) -> (name: &'static str)
        ensures
            name@ == self.name(),
    {
        match self {
            Distribution::Uniform => "uniform",
            Distribution::Normal => "normal",
            Distribution::Incremental => "incremental",
        }
    }
}

} // verus!
