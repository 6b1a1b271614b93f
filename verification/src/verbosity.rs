//! How much a report says.

use vstd::prelude::*;

verus! {

/// The level of detail of a report. Each level shows what the levels before
/// it show, and more.
#[derive(Clone, Copy, Debug, PartialEq, Eq, PartialOrd, Structural)]
pub enum Verbosity {
    Normal,
    Info,
    Debug,
}

impl Verbosity {
    /// The place of a level among the levels: 0 for `Normal`, 1 for `Info`,
    /// 2 for `Debug`.
    pub open spec fn rank(self) -> nat {
        match self {
            Verbosity::Normal => 0,
            Verbosity::Info => 1,
            Verbosity::Debug => 2,
        }
    }

    /// The level asked for by giving the verbosity flag `count` times: each
    /// flag raises the level by one, up to `Debug`.
    pub fn from_occurrences(count: u64) -> (level: Verbosity)
        ensures
            level.rank() == if count < 2 { count as nat } else { 2 },
    {
        if count == 0 {
            Verbosity::Normal
        } else if count == 1 {
            Verbosity::Info
        } else {
            Verbosity::Debug
        }
    }

    /// Whether this level shows what `other` shows.
    pub fn at_least(self, other: Verbosity) -> (r: bool)
        ensures
            r == (self.rank() >= other.rank()),
    {
        match (self, other) {
            (_, Verbosity::Normal) => true,
            (Verbosity::Normal, _) => false,
            (Verbosity::Info, Verbosity::Info) => true,
            (Verbosity::Info, Verbosity::Debug) => false,
            (Verbosity::Debug, _) => true,
        }
    }
}

} // verus!
