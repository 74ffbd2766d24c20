//! The eight directions from a cell to its neighbours.
use vstd::prelude::*;

verus! {

/// One of the eight compass directions from a cell to a neighbour.
#[derive(Clone, Copy, Debug, PartialEq, Eq, Structural)]
pub enum Direction {
    N,
    E,
    S,
    W,
    NE,
    SE,
    SW,
    NW,
}

/// The number of directions.
pub const DIRECTION_COUNT: usize = 8;

impl Direction {
    /// The change of (row, column) that one step in this direction makes.
    pub open spec fn delta(self) -> (int, int) {
        match self {
            Direction::N => (-1, 0),
            Direction::E => (0, 1),
            Direction::S => (1, 0),
            Direction::W => (0, -1),
            Direction::NE => (-1, 1),
            Direction::SE => (1, 1),
            Direction::SW => (1, -1),
            Direction::NW => (-1, -1),
        }
    }

    /// The position one step away, when both of its coordinates fit in `usize`.
    pub open spec fn offset_spec(self, pos: (usize, usize)) -> Option<(usize, usize)> {
        let row = pos.0 + self.delta().0;
        let col = pos.1 + self.delta().1;
        if 0 <= row <= usize::MAX && 0 <= col <= usize::MAX {
            Some((row as usize, col as usize))
        } else {
            None
        }
    }

    /// The directions in a fixed order, by index.
    pub open spec fn nth_spec(k: int) -> Direction {
        if k == 0 {
            Direction::N
        } else if k == 1 {
            Direction::E
        } else if k == 2 {
            Direction::S
        } else if k == 3 {
            Direction::W
        } else if k == 4 {
            Direction::NE
        } else if k == 5 {
            Direction::SE
        } else if k == 6 {
            Direction::SW
        } else {
            Direction::NW
        }
    }

    pub fn nth(k: usize) -> (d: Direction)
        requires
            k < DIRECTION_COUNT,
        ensures
            d == Direction::nth_spec(k as int),
    {
        if k == 0 {
            Direction::N
        } else if k == 1 {
            Direction::E
        } else if k == 2 {
            Direction::S
        } else if k == 3 {
            Direction::W
        } else if k == 4 {
            Direction::NE
        } else if k == 5 {
            Direction::SE
        } else if k == 6 {
            Direction::SW
        } else {
            Direction::NW
        }
    }

    /// The neighbour of `pos` in this direction, or `None` where a coordinate
    /// would leave the range of `usize`.
    pub fn offset(&self, pos: (usize, usize)) -> (r: Option<(usize, usize)>)
        ensures
            r == self.offset_spec(pos),
    {
        let (row, col) = pos;
        match self {
            Direction::N if row > 0 => Some((row - 1, col)),
            Direction::E if col < usize::MAX => Some((row, col + 1)),
            Direction::S if row < usize::MAX => Some((row + 1, col)),
            Direction::W if col > 0 => Some((row, col - 1)),
            Direction::NE if row > 0 && col < usize::MAX => Some((row - 1, col + 1)),
            Direction::SE if row < usize::MAX && col < usize::MAX => Some((row + 1, col + 1)),
            Direction::SW if row < usize::MAX && col > 0 => Some((row + 1, col - 1)),
            Direction::NW if row > 0 && col > 0 => Some((row - 1, col - 1)),
            _ => None,
        }
    }
}

/// Two positions are neighbours when they differ and neither coordinate
/// differs by more than one.
pub open spec fn adjacent(p: (int, int), q: (int, int)) -> bool {
    p != q && -1 <= q.0 - p.0 <= 1 && -1 <= q.1 - p.1 <= 1
}

/// Every step between neighbours is one of the eight directions.
pub proof fn lemma_adjacent_direction(p: (int, int), q: (int, int)) -> (k: int)
    requires
        adjacent(p, q),
    ensures
        0 <= k < 8,
        q == (p.0 + Direction::nth_spec(k).delta().0, p.1 + Direction::nth_spec(k).delta().1),
{
    let dr = q.0 - p.0;
    let dc = q.1 - p.1;
    if dr == -1 && dc == 0 {
        0
    } else if dr == 0 && dc == 1 {
        1
    } else if dr == 1 && dc == 0 {
        2
    } else if dr == 0 && dc == -1 {
        3
    } else if dr == -1 && dc == 1 {
        4
    } else if dr == 1 && dc == 1 {
        5
    } else if dr == 1 && dc == -1 {
        6
    } else {
        7
    }
}

/// Each of the eight directions steps to a neighbour.
pub proof fn lemma_direction_adjacent(k: int, p: (int, int))
    requires
        0 <= k < 8,
    ensures
        adjacent(p, (p.0 + Direction::nth_spec(k).delta().0, p.1 + Direction::nth_spec(k).delta().1)),
{
}

} // verus!
