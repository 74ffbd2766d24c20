//! One cell of the board.
use vstd::prelude::*;

verus! {

/// The state of one cell of the board.
///
/// `Mine(revealed, flagged)` holds a mine; `Neighbours(revealed, count)` is a
/// safe cell that knows how many of its eight neighbours hold a mine.
#[derive(Clone, Copy, Debug, PartialEq, Eq, Structural)]
pub enum CellState {
    Mine(bool, bool),
    Neighbours(bool, u8),
}

impl CellState {
    pub open spec fn is_mine_spec(self) -> bool {
        self is Mine
    }

    pub open spec fn is_revealed_spec(self) -> bool {
        match self {
            CellState::Mine(revealed, _) => revealed,
            CellState::Neighbours(revealed, _) => revealed,
        }
    }

    /// The cell as the flood fill leaves it: a safe cell becomes revealed,
    /// a mine is never touched.
    pub open spec fn uncovered(self) -> CellState {
        match self {
            CellState::Mine(revealed, flagged) => CellState::Mine(revealed, flagged),
            CellState::Neighbours(_, count) => CellState::Neighbours(true, count),
        }
    }

    /// The cell after a flag toggle: a hidden mine gains or loses its flag,
    /// any other cell stays as it is.
    pub open spec fn toggled(self) -> CellState {
        match self {
            CellState::Mine(false, flagged) => CellState::Mine(false, !flagged),
            other => other,
        }
    }

    /// A safe, still hidden cell with no mine around it: the flood fill
    /// spreads from such a cell to all of its neighbours.
    pub open spec fn is_hidden_zero(self) -> bool {
        self == CellState::Neighbours(false, 0)
    }

    /// The one-character rendering of a cell: `X` for a revealed mine, `!`
    /// for a flagged mine, the count of a revealed safe cell with at least one
    /// mine around it, a blank otherwise.
    pub open spec fn symbol_spec(self) -> char {
        match self {
            CellState::Mine(true, false) => 'X',
            CellState::Mine(false, true) => '!',
            CellState::Neighbours(true, count) => if 1 <= count <= 9 {
                ((count + 48) as u8) as char
            } else {
                ' '
            },
            _ => ' ',
        }
    }

    /// The one-character rendering of the cell.
    pub fn symbol(&self) -> (r: char)
        ensures
            r == self.symbol_spec(),
    {
        match self {
            CellState::Mine(true, false) => 'X',
            CellState::Mine(false, true) => '!',
            CellState::Neighbours(true, count) => if 1 <= *count && *count <= 9 {
                (*count + 48) as char
            } else {
                ' '
            },
            _ => ' ',
        }
    }

    pub fn is_mine(&self) -> (r: bool)
        ensures
            r == self.is_mine_spec(),
    {
        match self {
            CellState::Mine(_, _) => true,
            CellState::Neighbours(_, _) => false,
        }
    }

    pub fn is_revealed(&self) -> (r: bool)
        ensures
            r == self.is_revealed_spec(),
    {
        match self {
            CellState::Mine(revealed, _) => *revealed,
            CellState::Neighbours(revealed, _) => *revealed,
        }
    }
}

} // verus!
