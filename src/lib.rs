//! Walking a square lattice by turn-and-distance instructions.
//!
//! The parser turns a text such as `"R2, L3"` into instructions; the walker
//! follows them from the origin, facing north, one unit step at a time, and
//! reports where it ends and which point it stepped onto twice first.

pub mod error;
pub mod parse;
pub mod walk;

pub use error::{DistanceFault, ParseError, ParseErrorKind};
pub use parse::{Instruction, InstructionDirection, Instructions};
pub use walk::{fits_in_range, walk, Heading, Position, WalkSummary};
