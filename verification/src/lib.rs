//! A state-encoding engine for the 3 by 3 sliding puzzle: a dense numbering
//! of boards, the legal single moves of a board, and a table of moves that
//! lead every solvable board back to a chosen goal.

pub mod direction;
pub mod rank;
pub mod moves;
pub mod state;
pub mod search;
pub mod parity;
pub mod hint;
pub mod game;
