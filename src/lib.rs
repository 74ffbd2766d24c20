//! A Minesweeper board: mine placement, neighbour counts, flagging and the
//! flood-fill reveal of safe regions, each stated by a contract over a
//! model of the grid.
use vstd::prelude::*;

pub mod board;
pub mod cell;
pub mod direction;
pub mod flood;
pub mod grid;
mod placement;
pub mod render;

pub use board::{in_bounds, Board, BoardError};
pub use cell::CellState;
pub use direction::Direction;

verus! {

} // verus!
