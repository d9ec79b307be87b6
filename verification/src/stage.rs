//! The five betting phases of a hand.

use vstd::prelude::*;

verus! {

/// A hand moves strictly forward through these phases.
#[derive(Clone, Copy, PartialEq, Eq, Structural, Debug)]
pub enum Stage {
    Preflop,
    Flop,
    Turn,
    River,
    Showdown,
}

impl Stage {
    /// Position of the stage in the fixed order, 0 for `Preflop` up to
    /// 4 for `Showdown`.
    pub open spec fn index(self) -> int {
        match self {
            Stage::Preflop => 0,
            Stage::Flop => 1,
            Stage::Turn => 2,
            Stage::River => 3,
            Stage::Showdown => 4,
        }
    }

    /// The stage one step forward; `Showdown` stays put.
    pub fn next(self) -> (r: Stage)
        ensures
            r.index() == if self.index() < 4 {
                self.index() + 1
            } else {
                4
            },
    {
        match self {
            Stage::Preflop => Stage::Flop,
            Stage::Flop => Stage::Turn,
            Stage::Turn => Stage::River,
            Stage::River => Stage::Showdown,
            Stage::Showdown => Stage::Showdown,
        }
    }


    /// How many community cards are out once this stage's deal is
    /// done: none preflop, three on the flop, four on the turn, five
    /// from the river on.
    pub open spec fn board_size(self) -> int {
        match self {
            Stage::Preflop => 0,
            Stage::Flop => 3,
            Stage::Turn => 4,
            Stage::River => 5,
            Stage::Showdown => 5,
        }
    }
}

} // verus!
