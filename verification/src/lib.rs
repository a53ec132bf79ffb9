//! Rules engine for the 8x8 disc-flipping board game (Othello/Reversi
//! semantics): board state, placement validation, and the capture/flip
//! algorithm, with machine-checked contracts.

pub mod position;
pub mod stage;
