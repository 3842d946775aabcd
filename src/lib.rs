//! A solver for the game Noughts and Crosses, also known as Tic-Tac-Toe.
//!
//! A position is held as two 9-bit occupancy sets, one for the side to move
//! and one for the side that moved last. The solver classifies a position as
//! a win, draw or loss for the side to move under perfect play, and counts
//! the finished games it looked at on the way.

pub mod bits;
pub mod board;
pub mod solver;

pub use bits::{count_ones, lowest_bit16};
pub use board::{has_won, Board, BoardFault, InvalidBoard, InvalidMove, Moves, LINE_MASKS};
pub use solver::{solve, Status};
