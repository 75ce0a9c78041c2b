//! Small board-piece value types shared with sibling puzzles.

use vstd::prelude::*;

verus! {

/// A cell of the tilting platform: empty ground, a round rock that rolls,
/// or a square rock that stays put.
#[derive(Clone, Copy, Debug, PartialEq, Eq, Structural)]
pub enum Rock {
    Empty,
    Round,
    Square,
}

impl Default for Rock {
    /// An unmarked cell of the platform holds no rock.
    fn default() -> (r: Rock)
        ensures
            r == Rock::Empty,
    {
        Rock::Empty
    }
}

/// The colour of a cube drawn from the bag in the cube game.
#[derive(Clone, Copy, Debug, PartialEq, Eq, Structural, Hash)]
pub enum Color {
    Blue,
    Red,
    Green,
}

/// A piece of the beam contraption: one of the two diagonal mirrors, or a
/// splitter along either axis.
#[derive(Clone, Copy, Debug, PartialEq, Eq, Structural)]
pub enum Mirror {
    Slash,
    Backslash,
    SplitterLR,
    SplitterUD,
}

} // verus!
