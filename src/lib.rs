//! Connect four on a 9-wide, 7-tall board: piece placement, win detection, a line-based
//! heuristic score and a depth-limited minimax search with alpha-beta pruning.

pub mod board;
pub mod score;
pub mod search;
pub mod win;
