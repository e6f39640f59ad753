//! A backend for Conway's Game of Life and other Life-like cellular automata.
//!
//! The library parses and writes rules in the birth/survival notation, parses and
//! writes patterns in the Plaintext and RLE formats, manages boards of live cells
//! and advances games by generations.

pub mod text;

mod sealed;

pub mod position;
pub use position::{Coordinate, Position};

pub mod boardrange;
pub use boardrange::BoardRange;

pub mod board;
pub use board::Board;

pub mod game;
pub use game::Game;

pub mod format;
pub use format::Format;

pub mod rule;
pub use rule::{ParseRuleError, Rule};
