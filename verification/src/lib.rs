//! A crossword grid and a pattern-indexed dictionary.
//!
//! The grid stores letters, explicit word boundaries and the set of placed
//! words; placement and removal keep all three in lockstep. The dictionary
//! normalizes its input words and builds an n-gram index so that a partial
//! letter pattern can be answered by scanning a short candidate list.

pub mod dict;
pub mod grid;
pub mod point;
pub mod print;
pub mod word_constraint;

pub use grid::Crosswords;
pub use grid::BLOCK;
pub use point::Dir;
pub use point::Point;
