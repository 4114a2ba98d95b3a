//! A continuous-space snake engine on fixed-point coordinates.
//!
//! The snake is a chain of straight sides in the plane. Each tick takes a
//! length off its tail, moves its head on by the same length, and turns it
//! at the cell boundary where a turn was asked for. All coordinates are
//! fixed-point scalars, so every step is exact.

pub mod error;
pub mod food;
pub mod game;
pub mod movement;
pub mod polyline;
pub mod scalar;
pub mod segment;
pub mod vector;

pub use crate::error::GameError;
pub use crate::game::Game;
pub use crate::movement::Movement;
pub use crate::segment::Segment;
pub use crate::vector::Vector;
