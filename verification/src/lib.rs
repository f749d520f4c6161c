//! A verified core for Connect-Four-style games on a rectangular grid.
//!
//! Pieces drop into columns and settle on the lowest free cell; four
//! same-colored pieces in a row (horizontally, vertically, or along either
//! diagonal) win.  The crate holds the board state machine, the win
//! detector, a depth-limited minimax search, and the move-choosing
//! strategies built on them.  Input and output around a game sit outside
//! the library and talk to it through plain values.

pub mod board;
pub mod player;
pub mod search;
pub mod win;
