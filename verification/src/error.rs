//! The ways in which the engine refuses to go on.

use vstd::prelude::*;

verus! {

#[derive(Copy, Clone, Debug, PartialEq, Eq, Structural)]
pub enum GameError {
    /// A direction was needed of a side without extent, or the body would
    /// shrink to less than one side.
    DegenerateGeometry,
    /// Every cell center of the board lies on the snake.
    NoFreeCell,
    /// A coordinate, a step or the score would leave the range the engine
    /// works in.
    OutOfRange,
    /// The initial direction is none of the four headings, or the initial
    /// length is negative.
    InvalidParameters,
}

} // verus!
