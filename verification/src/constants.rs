use vstd::prelude::*;

verus! {

/// Width of the beginner preset.
pub const BEGINNER_WIDTH: usize = 9;
/// Height of the beginner preset.
pub const BEGINNER_HEIGHT: usize = 9;
/// Mines of the beginner preset.
pub const BEGINNER_MINES: usize = 10;

/// Width of the intermediate preset.
pub const INTERMEDIATE_WIDTH: usize = 16;
/// Height of the intermediate preset.
pub const INTERMEDIATE_HEIGHT: usize = 16;
/// Mines of the intermediate preset.
pub const INTERMEDIATE_MINES: usize = 40;

/// Width of the expert preset.
pub const EXPERT_WIDTH: usize = 30;
/// Height of the expert preset.
pub const EXPERT_HEIGHT: usize = 16;
/// Mines of the expert preset.
pub const EXPERT_MINES: usize = 99;

/// Cell size in pixels (width and height).
pub const CELL_SIZE: i32 = 32;

/// A board size preset, or a custom size.
#[derive(Clone, Copy, Debug, PartialEq, Eq, Structural)]
pub enum Difficulty {
    Beginner,
    Intermediate,
    Expert,
    /// width, height, mines
    Custom(usize, usize, usize),
}

impl Difficulty {
    /// The (width, height, mines) that a difficulty stands for.
    pub open spec fn spec_dimensions(self) -> (usize, usize, usize) {
        match self {
            Difficulty::Beginner => (BEGINNER_WIDTH, BEGINNER_HEIGHT, BEGINNER_MINES),
            Difficulty::Intermediate => (INTERMEDIATE_WIDTH, INTERMEDIATE_HEIGHT, INTERMEDIATE_MINES),
            Difficulty::Expert => (EXPERT_WIDTH, EXPERT_HEIGHT, EXPERT_MINES),
            Difficulty::Custom(w, h, m) => (w, h, m),
        }
    }

    /// Board width, height and mine count of this difficulty.
    pub fn dimensions(&self) -> (r: (usize, usize, usize))
        ensures
            r == self.spec_dimensions(),
    {
        match self {
            Difficulty::Beginner => (BEGINNER_WIDTH, BEGINNER_HEIGHT, BEGINNER_MINES),
            Difficulty::Intermediate => (INTERMEDIATE_WIDTH, INTERMEDIATE_HEIGHT, INTERMEDIATE_MINES),
            Difficulty::Expert => (EXPERT_WIDTH, EXPERT_HEIGHT, EXPERT_MINES),
            Difficulty::Custom(w, h, m) => (*w, *h, *m),
        }
    }
}

} // verus!
