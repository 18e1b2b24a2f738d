//! Rules and move selection for chess on an 8x8 board: pseudo-legal move
//! generation, a static evaluator and a fixed-horizon responder.

pub mod board;
pub mod movegen;
pub mod eval;
pub mod search;
pub mod laws;
