//! The two sides of the game.

use vstd::prelude::*;

verus! {

/// White or Black.
#[derive(Clone, Debug, Hash, Copy, PartialEq, Eq, Structural)]
pub enum Side {
    WHITE,
    BLACK,
}

impl Side {
    /// The other side.
    pub open spec fn opposite(self) -> Side {
        match self {
            Side::WHITE => Side::BLACK,
            Side::BLACK => Side::WHITE,
        }
    }

    /// The place of this side in a pair `[white, black]`.
    pub open spec fn idx(self) -> int {
        match self {
            Side::WHITE => 0,
            Side::BLACK => 1,
        }
    }

    /// The index at which a pair `[white, black]` holds what belongs to this
    /// side.
    pub fn index(self) -> (i: usize)
        ensures
            i == self.idx(),
            i < 2,
    {
        match self {
            Side::WHITE => 0,
            Side::BLACK => 1,
        }
    }
}

impl core::ops::Not for Side {
    type Output = Side;

    /// The other side.
    fn not(self) -> (other: Side) {
        match self {
            Side::WHITE => Side::BLACK,
            Side::BLACK => Side::WHITE,
        }
    }
}

impl vstd::std_specs::ops::NotSpecImpl for Side {
    open spec fn obeys_not_spec() -> bool {
        true
    }

    open spec fn not_req(self) -> bool {
        true
    }

    open spec fn not_spec(self) -> Side {
        self.opposite()
    }
}

} // verus!
