use vstd::prelude::*;

verus! {

/// The rule variants of the game.
#[derive(Clone, Copy, Debug, PartialEq, Eq, Structural)]
pub enum Variant {
    Average,
    Chain,
    Crosswalk,
    Classic,
    Encrypted,
    Infection,
    Kudzu,
    Nested,
    Drift,
    Offset,
    Blindsweeper,
    NegativeMines,
    MultiMines,
    Marathon,
    Minelayer,
    Merge,
    Panic,
    Relative,
    Rgb,
    Rotation,
    CrossWired,
    Subtract,
    Threed,
    Ico,
    Hyperbolic,
    Voronoi,
    Infinite,
    PvAi,
}

impl Variant {
    /// Variants whose displayed numbers are not the adjacent-mine count, so
    /// that chording against the count would be meaningless.
    pub open spec fn spec_shows_other_numbers(self) -> bool {
        self == Variant::Relative || self == Variant::Average || self == Variant::Offset
    }

    /// Whether the numbers this variant shows differ from the adjacent-mine count.
    pub fn shows_other_numbers(&self) -> (r: bool)
        ensures
            r == self.spec_shows_other_numbers(),
    {
        match self {
            Variant::Relative | Variant::Average | Variant::Offset => true,
            _ => false,
        }
    }
}

} // verus!
