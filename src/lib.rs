//! Rule core of a grid-reveal puzzle: mine layout, per-cell visible state,
//! cascading reveal, and a local constraint-propagation engine.

pub mod grid;
pub mod game;
pub mod board;
pub mod logic;
