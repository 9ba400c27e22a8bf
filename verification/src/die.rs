//! The die ladder: the fixed, ordered set of die sizes used by the game.

use vstd::prelude::*;

verus! {

/// A die from the fixed ladder {4, 6, 8, 10, 12, 20}.
///
/// The ladder is closed: every die has a number of sides and a successor, and
/// the successor of the largest die is itself.
#[derive(Clone, Copy, Debug, PartialEq, Eq, Structural)]
pub enum Die {
    D4,
    D6,
    D8,
    D10,
    D12,
    D20,
}

impl Die {
    /// The number of sides, as a mathematical integer.
    pub open spec fn spec_sides(self) -> int {
        match self {
            Die::D4 => 4,
            Die::D6 => 6,
            Die::D8 => 8,
            Die::D10 => 10,
            Die::D12 => 12,
            Die::D20 => 20,
        }
    }

    /// The next larger die in the ladder, saturating at the d20.
    pub open spec fn spec_next(self) -> Die {
        match self {
            Die::D4 => Die::D6,
            Die::D6 => Die::D8,
            Die::D8 => Die::D10,
            Die::D10 => Die::D12,
            Die::D12 => Die::D20,
            Die::D20 => Die::D20,
        }
    }

    /// Distance from the top of the ladder; the d20 sits at 0.  Used as a
    /// termination measure for walks along the ladder.
    pub open spec fn rung(self) -> nat {
        match self {
            Die::D4 => 5,
            Die::D6 => 4,
            Die::D8 => 3,
            Die::D10 => 2,
            Die::D12 => 1,
            Die::D20 => 0,
        }
    }

    /// Returns the number of sides on the die.
    pub fn sides(self) -> (r: u32)
        ensures
            r == self.spec_sides(),
    {
        match self {
            Die::D4 => 4,
            Die::D6 => 6,
            Die::D8 => 8,
            Die::D10 => 10,
            Die::D12 => 12,
            Die::D20 => 20,
        }
    }

    /// Returns the next highest die type, saturating at a d20.
    pub fn next(self) -> (r: Die)
        ensures
            r == self.spec_next(),
    {
        match self {
            Die::D4 => Die::D6,
            Die::D6 => Die::D8,
            Die::D8 => Die::D10,
            Die::D10 => Die::D12,
            Die::D12 => Die::D20,
            Die::D20 => Die::D20,
        }
    }
}

} // verus!
