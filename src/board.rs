//! The board: construction, queries, flagging and revealing.
use vstd::prelude::*;

use crate::cell::CellState;
use crate::direction::{Direction, DIRECTION_COUNT};
use crate::flood::{
    count_unvisited, flood_reaches, is_flood_path, lemma_closed_contains_reach,
    lemma_count_unvisited_set, after_flood,
};
use crate::grid::{
    adjacent_mines, lemma_mines_around_is_neighbour_count,
    after_flag, count_adjacent_mines, counts_hold, grid_model, grid_shape, in_cells, in_rect, lemma_grid_model,
    lemma_mines_around_upto_bound, lemma_same_layout_counts, lemma_same_mines, mines_around,
    same_mines, set_cell, step,
};
use crate::placement::select_random_coords;
use crate::render::{cells_text, collect_string, dashes, push_dashes, render_spec, row_text, rows_text};

verus! {

/// Why an operation on the board was refused. A refused operation leaves
/// the board unchanged.
#[derive(Clone, Copy, Debug, PartialEq, Eq, Structural)]
pub enum BoardError {
    /// The coordinate lies outside the grid.
    OutOfBounds,
    /// A mine was already revealed: the game accepts no more reveals.
    GameOver,
    /// A zero dimension, or a mine outside the grid.
    InvalidConstruction,
}

/// A rectangular grid of cells, `height` rows of `width` cells each.
pub struct Board {
    grid: Vec<Vec<CellState>>,
    game_over: bool,
}

/// Whether `(row, col)` lies in a grid of `height` rows and `width` columns.
pub fn in_bounds(width: usize, height: usize, pos: (usize, usize)) -> (r: bool)
    ensures
        r == (pos.0 < height && pos.1 < width),
{
    let (row, col) = pos;
    row < height && col < width
}

/// `p` is one of the first `n` positions of `mines`.
pub open spec fn placed_before(mines: Seq<(usize, usize)>, n: int, p: (int, int)) -> bool {
    exists|j: int| 0 <= j < n && mines[j].0 as int == p.0 && mines[j].1 as int == p.1
}

/// `p` is one of the positions of `mines`.
pub open spec fn is_listed(mines: Seq<(usize, usize)>, p: (int, int)) -> bool {
    placed_before(mines, mines.len() as int, p)
}

impl Board {
    /// The cells, row by row.
    pub closed spec fn cells(&self) -> Seq<Seq<CellState>> {
        grid_model(self.grid@)
    }

    /// Whether a mine has been revealed.
    pub closed spec fn is_over(&self) -> bool {
        self.game_over
    }

    pub open spec fn rows(&self) -> int {
        self.cells().len() as int
    }

    pub open spec fn cols(&self) -> int {
        self.cells()[0].len() as int
    }

    pub open spec fn in_grid(&self, p: (int, int)) -> bool {
        in_rect(self.rows(), self.cols(), p)
    }

    pub open spec fn cell(&self, p: (int, int)) -> CellState {
        self.cells()[p.0][p.1]
    }

    /// At least one row and one column, all rows of one length, and every
    /// safe cell holding the number of mines around it.
    pub open spec fn wf(&self) -> bool {
        self.rows() >= 1 && self.cols() >= 1 && grid_shape(self.cells(), self.rows(), self.cols())
            && counts_hold(self.cells())
    }

    /// The board has `height` rows of `width` cells, no cell revealed or
    /// flagged, a mine exactly at each position of `mines`, and the count of
    /// the mines around it in every other cell.
    pub open spec fn fresh_with(&self, width: int, height: int, mines: Seq<(usize, usize)>) -> bool {
        self.wf() && self.rows() == height && self.cols() == width && !self.is_over() && forall|r: int, c: int|
            in_rect(height, width, (r, c)) ==> #[trigger] self.cells()[r][c] == if is_listed(mines, (r, c)) {
                CellState::Mine(false, false)
            } else {
                CellState::Neighbours(false, mines_around(self.cells(), (r, c)) as u8)
            }
    }

    /// The positions that hold a mine.
    pub open spec fn mine_positions(&self) -> Set<(usize, usize)> {
        Set::new(|p: (usize, usize)| self.in_grid((p.0 as int, p.1 as int)) && self.cell((p.0 as int, p.1 as int)) is Mine)
    }

    /// The positions that hold a safe cell.
    pub open spec fn clue_positions(&self) -> Set<(usize, usize)> {
        Set::new(
            |p: (usize, usize)| self.in_grid((p.0 as int, p.1 as int)) && self.cell((p.0 as int, p.1 as int)) is Neighbours,
        )
    }

    /// A board of `height` rows and `width` columns with `mines` mines at
    /// positions drawn at random, no two alike; every other cell holds the
    /// number of mines around it, and no cell is revealed or flagged.
    pub fn new(width: usize, height: usize, mines: usize) -> (b: Board)
        requires
            width > 0,
            height > 0,
            width * height <= usize::MAX,
            mines <= width * height,
        ensures
            b.wf(),
            b.rows() == height,
            b.cols() == width,
            !b.is_over(),
            forall|r: int, c: int|
                #![trigger b.cells()[r][c]]
                b.in_grid((r, c)) ==> b.cell((r, c)) == CellState::Mine(false, false) || b.cell((r, c))
                    == CellState::Neighbours(false, mines_around(b.cells(), (r, c)) as u8),
            b.mine_positions().finite(),
            b.mine_positions().len() == mines,
            b.clue_positions().finite(),
            b.clue_positions().len() == width * height - mines,
    {
        let mut coords: Vec<(usize, usize)> = Vec::new();
        let mut row: usize = 0;
        while row < height
            invariant
                row <= height,
                width * height <= usize::MAX,
                coords@.len() == row * width,
                coords@.no_duplicates(),
                forall|p: (usize, usize)| #[trigger] coords@.contains(p) <==> p.0 < row && p.1 < width,
            decreases height - row,
        {
            let mut col: usize = 0;
            while col < width
                invariant
                    row < height,
                    col <= width,
                    coords@.len() == row * width + col,
                    coords@.no_duplicates(),
                    forall|p: (usize, usize)|
                        #[trigger] coords@.contains(p) <==> (p.0 < row && p.1 < width) || (p.0 == row && p.1 < col),
                decreases width - col,
            {
                let ghost before = coords@;
                coords.push((row, col));
                proof {
                    assert forall|p: (usize, usize)|
                        #[trigger] coords@.contains(p) <==> (p.0 < row && p.1 < width) || (p.0 == row && p.1
                            < col + 1) by {
                        if p == (row, col) {
                            assert(coords@[before.len() as int] == p);
                        } else if before.contains(p) {
                            let j = choose|j: int| 0 <= j < before.len() && before[j] == p;
                            assert(coords@[j] == p);
                        } else if coords@.contains(p) {
                            let j = choose|j: int| 0 <= j < coords@.len() && coords@[j] == p;
                            assert(before[j] == p);
                        }
                    }
                    assert forall|i: int, j: int|
                        0 <= i < coords@.len() && 0 <= j < coords@.len() && i != j implies coords@[i]
                        != coords@[j] by {
                        if i < before.len() && j < before.len() {
                        } else if i < before.len() {
                            assert(before.contains(coords@[i]));
                        } else {
                            assert(before.contains(coords@[j]));
                        }
                    }
                }
                col = col + 1;
            }
            proof {
                assert((row + 1) * width == row * width + width) by (nonlinear_arith);
            }
            row = row + 1;
        }
        let ghost all = coords@;
        let chosen = select_random_coords(&mut coords, mines);
        let ghost shuffled = coords@;
        proof {
            broadcast use vstd::seq_lib::group_to_multiset_ensures;
            all.to_multiset_ensures();
            shuffled.to_multiset_ensures();
            all.lemma_multiset_has_no_duplicates();
            shuffled.lemma_multiset_has_no_duplicates_conv();
            assert(all.len() == width * height) by {
                assert(row * width == width * height) by (nonlinear_arith)
                    requires row == height;
            }
            assert forall|p: (usize, usize)| #[trigger] shuffled.contains(p) <==> all.contains(p) by {
                assert(shuffled.to_multiset().count(p) == all.to_multiset().count(p));
            }
            assert forall|i: int| 0 <= i < chosen@.len() implies #[trigger] chosen@[i].0 < height && chosen@[i].1
                < width by {
                assert(shuffled[shuffled.len() - mines + i] == chosen@[i]);
                assert(shuffled.contains(chosen@[i]));
            }
        }
        let b = Self::build(width, height, &chosen);
        proof {
            let n = shuffled.len() - mines;
            let head = shuffled.subrange(0, n as int);
            assert(chosen@.no_duplicates());
            assert(head.no_duplicates());
            chosen@.unique_seq_to_set();
            head.unique_seq_to_set();
            assert forall|p: (usize, usize)| #[trigger] b.mine_positions().contains(p) <==> chosen@.to_set().contains(p) by {
                if chosen@.contains(p) {
                    let j = choose|j: int| 0 <= j < chosen@.len() && chosen@[j] == p;
                    assert(shuffled[n + j] == p);
                    assert(shuffled.contains(p));
                    assert(is_listed(chosen@, (p.0 as int, p.1 as int)));
                }
                if is_listed(chosen@, (p.0 as int, p.1 as int)) {
                    let j = choose|j: int| 0 <= j < chosen@.len() && chosen@[j].0 as int == p.0 as int && chosen@[j].1 as int == p.1 as int;
                    assert(chosen@[j] == p);
                }
                if b.mine_positions().contains(p) {
                    assert(b.cells()[p.0 as int][p.1 as int] is Mine);
                }
            }
            assert(b.mine_positions() =~= chosen@.to_set());
            assert forall|p: (usize, usize)| #[trigger] b.clue_positions().contains(p) <==> head.to_set().contains(p) by {
                if head.contains(p) {
                    let j = choose|j: int| 0 <= j < head.len() && head[j] == p;
                    assert(shuffled[j] == p);
                    assert(shuffled.contains(p));
                    if is_listed(chosen@, (p.0 as int, p.1 as int)) {
                        let k = choose|k: int| 0 <= k < chosen@.len() && chosen@[k].0 as int == p.0 as int && chosen@[k].1 as int == p.1 as int;
                        assert(shuffled[n + k] == p);
                    }
                    assert(b.cells()[p.0 as int][p.1 as int] is Neighbours);
                }
                if b.clue_positions().contains(p) {
                    assert(b.cells()[p.0 as int][p.1 as int] is Neighbours);
                    assert(all.contains(p));
                    assert(shuffled.contains(p));
                    let j = choose|j: int| 0 <= j < shuffled.len() && shuffled[j] == p;
                    if j >= n {
                        assert(chosen@[j - n] == p);
                        assert(is_listed(chosen@, (p.0 as int, p.1 as int)));
                    } else {
                        assert(head[j] == p);
                    }
                }
            }
            assert(b.clue_positions() =~= head.to_set());
        }
        b
    }

    /// `Board::new` where its parameters are valid, `InvalidConstruction`
    /// otherwise: a zero dimension, more cells than `usize` counts, or more
    /// mines than cells.
    pub fn try_new(width: usize, height: usize, mines: usize) -> (r: Result<Board, BoardError>)
        ensures
            r is Ok <==> width > 0 && height > 0 && width * height <= usize::MAX && mines <= width * height,
            r matches Ok(b) ==> b.wf() && b.rows() == height && b.cols() == width && !b.is_over()
                && b.mine_positions().finite() && b.mine_positions().len() == mines
                && b.clue_positions().finite() && b.clue_positions().len() == width * height - mines
                && forall|r: int, c: int|
                #![trigger b.cells()[r][c]]
                b.in_grid((r, c)) ==> b.cell((r, c)) == CellState::Mine(false, false) || b.cell((r, c))
                    == CellState::Neighbours(false, mines_around(b.cells(), (r, c)) as u8),
            r matches Err(e) ==> e == BoardError::InvalidConstruction,
    {
        if width == 0 || height == 0 {
            return Err(BoardError::InvalidConstruction);
        }
        match width.checked_mul(height) {
            Some(cells) => {
                if mines > cells {
                    return Err(BoardError::InvalidConstruction);
                }
                Ok(Self::new(width, height, mines))
            },
            None => Err(BoardError::InvalidConstruction),
        }
    }

    /// A board with mines at the given (row, column) positions, or
    /// `InvalidConstruction` where a dimension is zero or a position lies
    /// outside the grid. A position may be listed more than once.
    pub fn with_mines(width: usize, height: usize, mines: &Vec<(usize, usize)>) -> (r: Result<Board, BoardError>)
        ensures
            r is Ok <==> width > 0 && height > 0 && forall|i: int|
                0 <= i < mines@.len() ==> #[trigger] mines@[i].0 < height && mines@[i].1 < width,
            r matches Ok(b) ==> b.fresh_with(width as int, height as int, mines@),
            r matches Err(e) ==> e == BoardError::InvalidConstruction,
    {
        if width == 0 || height == 0 {
            return Err(BoardError::InvalidConstruction);
        }
        let mut i: usize = 0;
        while i < mines.len()
            invariant
                i <= mines@.len(),
                forall|k: int| 0 <= k < i ==> #[trigger] mines@[k].0 < height && mines@[k].1 < width,
            decreases mines@.len() - i,
        {
            let (r, c) = mines[i];
            if r >= height || c >= width {
                assert(!(mines@[i as int].0 < height && mines@[i as int].1 < width));
                return Err(BoardError::InvalidConstruction);
            }
            i = i + 1;
        }
        Ok(Self::build(width, height, mines))
    }

    /// The number of rows.
    pub fn height(&self) -> (r: usize)
        requires
            self.wf(),
        ensures
            r == self.rows(),
    {
        self.grid.len()
    }

    /// The number of columns.
    pub fn width(&self) -> (r: usize)
        requires
            self.wf(),
        ensures
            r == self.cols(),
    {
        proof {
            lemma_grid_model(self.grid@);
        }
        self.grid[0].len()
    }

    /// Whether a mine has been revealed.
    pub fn is_game_over(&self) -> (r: bool)
        ensures
            r == self.is_over(),
    {
        self.game_over
    }

    /// The cell at `(row, col)`, or `None` outside the grid.
    pub fn get_cell_state(&self, row: usize, col: usize) -> (r: Option<CellState>)
        requires
            self.wf(),
        ensures
            r == if self.in_grid((row as int, col as int)) {
                Some(self.cell((row as int, col as int)))
            } else {
                None
            },
    {
        if !in_bounds(self.width(), self.height(), (row, col)) {
            return None;
        }
        proof {
            lemma_grid_model(self.grid@);
            assert(self.cells()[row as int].len() == self.cols());
        }
        Some(self.grid[row][col])
    }

    /// Toggles the flag of a hidden mine at `(row, col)`; any other cell is
    /// left as it is. Outside the grid nothing changes and `OutOfBounds` is
    /// returned. Flagging does not depend on whether the game is over.
    pub fn flag_cell(&mut self, row: usize, col: usize) -> (r: Result<(), BoardError>)
        requires
            old(self).wf(),
        ensures
            final(self).wf(),
            final(self).is_over() == old(self).is_over(),
            !old(self).in_grid((row as int, col as int)) ==> r == Err::<(), BoardError>(BoardError::OutOfBounds)
                && *final(self) == *old(self),
            old(self).in_grid((row as int, col as int)) ==> r == Ok::<(), BoardError>(()),
            final(self).cells() == after_flag(old(self).cells(), (row as int, col as int)),
    {
        if !in_bounds(self.width(), self.height(), (row, col)) {
            return Err(BoardError::OutOfBounds);
        }
        proof {
            lemma_grid_model(self.grid@);
            assert(self.cells()[row as int].len() == self.cols());
        }
        let ghost g0 = self.cells();
        match self.grid[row][col] {
            CellState::Mine(false, flagged) => {
                set_cell(&mut self.grid, row, col, CellState::Mine(false, !flagged));
            },
            _ => {
                proof {
                    assert(g0[row as int].update(col as int, g0[row as int][col as int]) =~= g0[row as int]);
                    assert(g0.update(row as int, g0[row as int]) =~= g0);
                }
            },
        }
        proof {
            assert(self.cells() =~= after_flag(g0, (row as int, col as int)));
            lemma_same_layout_counts(g0, self.cells());
        }
        Ok(())
    }

    /// Reveals the cell at `(row, col)`.
    ///
    /// After a mine has been revealed nothing changes and `GameOver` is
    /// returned; outside the grid nothing changes and `OutOfBounds` is
    /// returned. A hidden mine without a flag is revealed and ends the game;
    /// a flagged hidden mine is left alone. Any other cell starts a flood
    /// fill: each safe cell that it reaches is revealed, and it spreads on
    /// only from hidden safe cells with no mine around them.
    pub fn reveal_cell(&mut self, row: usize, col: usize) -> (r: Result<(), BoardError>)
        requires
            old(self).wf(),
        ensures
            final(self).wf(),
            old(self).is_over() ==> r == Err::<(), BoardError>(BoardError::GameOver) && *final(self) == *old(self),
            !old(self).is_over() && !old(self).in_grid((row as int, col as int)) ==> r == Err::<(), BoardError>(
                BoardError::OutOfBounds,
            ) && *final(self) == *old(self),
            !old(self).is_over() && old(self).in_grid((row as int, col as int)) ==> r == Ok::<(), BoardError>(()),
            !old(self).is_over() && old(self).in_grid((row as int, col as int)) && old(self).cell(
                (row as int, col as int),
            ) == CellState::Mine(false, false) ==> final(self).is_over() && final(self).cells()
                == old(self).cells().update(
                row as int,
                old(self).cells()[row as int].update(col as int, CellState::Mine(true, false)),
            ),
            !old(self).is_over() && old(self).in_grid((row as int, col as int)) && old(self).cell(
                (row as int, col as int),
            ) == CellState::Mine(false, true) ==> *final(self) == *old(self),
            !old(self).is_over() && old(self).in_grid((row as int, col as int)) && old(self).cell(
                (row as int, col as int),
            ) != CellState::Mine(false, false) && old(self).cell((row as int, col as int)) != CellState::Mine(
                false,
                true,
            ) ==> !final(self).is_over() && final(self).cells() == after_flood(
                old(self).cells(),
                (row as int, col as int),
            ),
    {
        if self.game_over {
            return Err(BoardError::GameOver);
        }
        if !in_bounds(self.width(), self.height(), (row, col)) {
            return Err(BoardError::OutOfBounds);
        }
        proof {
            lemma_grid_model(self.grid@);
            assert(self.cells()[row as int].len() == self.cols());
        }
        let ghost g0 = self.cells();
        match self.grid[row][col] {
            CellState::Mine(false, false) => {
                set_cell(&mut self.grid, row, col, CellState::Mine(true, false));
                self.game_over = true;
                proof {
                    lemma_same_layout_counts(g0, self.cells());
                }
            },
            CellState::Mine(false, true) => {},
            _ => {
                self.reveal_cell_dfs(row, col);
                proof {
                    lemma_same_layout_counts(g0, self.cells());
                }
            },
        }
        Ok(())
    }

    /// The board as text: a rule line of dashes, then each row as `| x `
    /// per cell closed by `|`, with a rule line under it. A revealed mine
    /// shows `X`, a flagged mine `!`, a revealed safe cell with mines around
    /// it their number, and any other cell a blank.
    pub fn render(&self) -> (r: String)
        requires
            self.wf(),
        ensures
            r@ == render_spec(self.cells()),
    {
        let mut out: Vec<char> = Vec::new();
        let width = self.width();
        let height = self.height();
        push_dashes(&mut out, width);
        out.push('-');
        out.push('\n');
        proof {
            lemma_grid_model(self.grid@);
            assert(out@ =~= dashes(width as nat) + seq!['-', '\n']);
            assert(self.cells().subrange(0, 0) =~= Seq::<Seq<CellState>>::empty());
        }
        let mut r: usize = 0;
        while r < height
            invariant
                r <= height,
                height == self.cells().len(),
                width == self.cols(),
                self.wf(),
                out@ == dashes(width as nat) + seq!['-', '\n'] + rows_text(self.cells().subrange(0, r as int)),
            decreases height - r,
        {
            let ghost start = out@;
            let row = &self.grid[r];
            proof {
                lemma_grid_model(self.grid@);
                assert(row@ == self.cells()[r as int]);
                assert(row@.subrange(0, 0) =~= Seq::<CellState>::empty());
            }
            let mut c: usize = 0;
            while c < row.len()
                invariant
                    c <= row@.len(),
                    out@ == start + cells_text(row@.subrange(0, c as int)),
                decreases row@.len() - c,
            {
                let ghost before = out@;
                out.push('|');
                out.push(' ');
                out.push(row[c].symbol());
                out.push(' ');
                proof {
                    assert(row@.subrange(0, c + 1).drop_last() =~= row@.subrange(0, c as int));
                    assert(out@ =~= before + seq!['|', ' ', row@[c as int].symbol_spec(), ' ']);
                }
                c = c + 1;
            }
            out.push('|');
            out.push('\n');
            out.push('-');
            push_dashes(&mut out, row.len());
            out.push('\n');
            proof {
                assert(row@.subrange(0, row@.len() as int) =~= row@);
                assert(out@ =~= start + row_text(row@));
                assert(self.cells().subrange(0, r + 1).drop_last() =~= self.cells().subrange(0, r as int));
                assert(self.cells().subrange(0, r + 1).last() == row@);
            }
            r = r + 1;
        }
        proof {
            assert(self.cells().subrange(0, height as int) =~= self.cells());
        }
        collect_string(&out)
    }

    /// Reveals every safe cell that a reveal started at `(row, col)` reaches,
    /// visiting each cell at most once, with a stack of cells still to visit.
    fn reveal_cell_dfs(&mut self, row: usize, col: usize)
        requires
            old(self).wf(),
            old(self).in_grid((row as int, col as int)),
        ensures
            final(self).is_over() == old(self).is_over(),
            final(self).cells() == after_flood(old(self).cells(), (row as int, col as int)),
    {
        let ghost g0 = self.cells();
        let ghost s = (row as int, col as int);
        let height = self.grid.len();
        let width = self.grid[0].len();
        proof {
            lemma_grid_model(self.grid@);
        }
        let mut visited: Vec<Vec<bool>> = Vec::new();
        let mut r: usize = 0;
        while r < height
            invariant
                r <= height,
                visited@.len() == r,
                forall|i: int| 0 <= i < r ==> #[trigger] visited@[i]@.len() == width,
                forall|i: int, j: int| 0 <= i < r && 0 <= j < width ==> !#[trigger] visited@[i]@[j],
            decreases height - r,
        {
            let mut line: Vec<bool> = Vec::new();
            let mut c: usize = 0;
            while c < width
                invariant
                    c <= width,
                    line@.len() == c,
                    forall|j: int| 0 <= j < c ==> !#[trigger] line@[j],
                decreases width - c,
            {
                line.push(false);
                c = c + 1;
            }
            visited.push(line);
            r = r + 1;
        }
        proof {
            lemma_grid_model(visited@);
        }
        set_cell(&mut visited, row, col, true);
        let mut stack: Vec<(usize, usize)> = Vec::new();
        stack.push((row, col));
        proof {
            let path = seq![s];
            assert(is_flood_path(g0, path));
            assert(path[0] == s && path.last() == s);
            assert(flood_reaches(g0, s, s));
            assert forall|q: (int, int)|
                in_cells(g0, q) && grid_model(visited@)[q.0][q.1] implies flood_reaches(g0, s, q) by {
                if q != s {
                    assert(!grid_model(visited@)[q.0][q.1]);
                }
            }
            assert(stack@[0] == (row, col));
        }
        while stack.len() > 0
            invariant
                grid_shape(g0, height as int, width as int),
                height >= 1,
                width >= 1,
                self.game_over == old(self).game_over,
                g0 == old(self).cells(),
                s == (row as int, col as int),
                grid_shape(self.cells(), height as int, width as int),
                grid_shape(grid_model(visited@), height as int, width as int),
                grid_model(visited@)[s.0][s.1],
                stack@.no_duplicates(),
                forall|i: int|
                    0 <= i < stack@.len() ==> #[trigger] stack@[i].0 < height && stack@[i].1 < width
                        && grid_model(visited@)[stack@[i].0 as int][stack@[i].1 as int],
                forall|q: (int, int)|
                    in_cells(g0, q) && #[trigger] grid_model(visited@)[q.0][q.1] ==> flood_reaches(g0, s, q),
                forall|q: (int, int)|
                    in_cells(g0, q) ==> #[trigger] self.cells()[q.0][q.1] == if grid_model(visited@)[q.0][q.1]
                        && !stack@.contains((q.0 as usize, q.1 as usize)) {
                        g0[q.0][q.1].uncovered()
                    } else {
                        g0[q.0][q.1]
                    },
                forall|q: (int, int), k: int|
                    in_cells(g0, q) && grid_model(visited@)[q.0][q.1] && !stack@.contains(
                        (q.0 as usize, q.1 as usize),
                    ) && g0[q.0][q.1].is_hidden_zero() && 0 <= k < 8 && in_cells(g0, #[trigger] step(q, k))
                        ==> grid_model(visited@)[step(q, k).0][step(q, k).1],
            decreases 2 * count_unvisited(grid_model(visited@)) + stack@.len(),
        {
            let ghost stack0 = stack@;
            let ghost u0 = count_unvisited(grid_model(visited@));
            let (r, c) = match stack.pop() {
                Some(pos) => pos,
                None => (row, col),
            };
            let ghost p = (r as int, c as int);
            proof {
                assert(stack0[stack0.len() - 1] == (r, c));
                assert(stack0 =~= stack@.push((r, c)));
                assert(!stack@.contains((r, c)));
                assert forall|q: (int, int)| in_cells(g0, q) && q != p implies #[trigger] stack@.contains((q.0 as usize, q.1 as usize))
                    == stack0.contains((q.0 as usize, q.1 as usize)) by {
                    if stack0.contains((q.0 as usize, q.1 as usize)) {
                        let j = choose|j: int| 0 <= j < stack0.len() && stack0[j] == (q.0 as usize, q.1 as usize);
                        assert(j != stack0.len() - 1);
                        assert(stack@[j] == stack0[j]);
                    }
                    if stack@.contains((q.0 as usize, q.1 as usize)) {
                        let j = choose|j: int| 0 <= j < stack@.len() && stack@[j] == (q.0 as usize, q.1 as usize);
                        assert(stack0[j] == stack@[j]);
                    }
                }
                assert(stack0.contains((r, c)));
                lemma_grid_model(self.grid@);
                assert(self.cells()[p.0].len() == width);
            }
            let cell = self.grid[r][c];
            match cell {
                CellState::Neighbours(false, count) => {
                    set_cell(&mut self.grid, r, c, CellState::Neighbours(true, count));
                    if count == 0 {
                        let mut k: usize = 0;
                        while k < DIRECTION_COUNT
                            invariant
                                0 <= p.0 < height,
                                0 <= p.1 < width,
                                p == (r as int, c as int),
                                g0[p.0][p.1].is_hidden_zero(),
                                k <= DIRECTION_COUNT,
                                grid_shape(g0, height as int, width as int),
                                height >= 1,
                                width >= 1,
                                self.game_over == old(self).game_over,
                                g0 == old(self).cells(),
                                s == (row as int, col as int),
                                grid_shape(self.cells(), height as int, width as int),
                                grid_shape(grid_model(visited@), height as int, width as int),
                                grid_model(visited@)[s.0][s.1],
                                grid_model(visited@)[p.0][p.1],
                                !stack@.contains((r, c)),
                                stack@.no_duplicates(),
                                2 * count_unvisited(grid_model(visited@)) + stack@.len() <= 2 * u0 + stack0.len() - 1,
                                forall|i: int|
                                    0 <= i < stack@.len() ==> #[trigger] stack@[i].0 < height && stack@[i].1 < width
                                        && grid_model(visited@)[stack@[i].0 as int][stack@[i].1 as int],
                                forall|q: (int, int)|
                                    in_cells(g0, q) && #[trigger] grid_model(visited@)[q.0][q.1] ==> flood_reaches(g0, s, q),
                                forall|q: (int, int)|
                                    in_cells(g0, q) ==> #[trigger] self.cells()[q.0][q.1] == if grid_model(visited@)[q.0][q.1]
                                        && !stack@.contains((q.0 as usize, q.1 as usize)) {
                                        g0[q.0][q.1].uncovered()
                                    } else {
                                        g0[q.0][q.1]
                                    },
                                forall|q: (int, int), j: int|
                                    q != p && in_cells(g0, q) && grid_model(visited@)[q.0][q.1] && !stack@.contains(
                                        (q.0 as usize, q.1 as usize),
                                    ) && g0[q.0][q.1].is_hidden_zero() && 0 <= j < 8 && in_cells(g0, #[trigger] step(q, j))
                                        ==> grid_model(visited@)[step(q, j).0][step(q, j).1],
                                forall|j: int| 0 <= j < k && in_cells(g0, #[trigger] step(p, j))
                                        ==> grid_model(visited@)[step(p, j).0][step(p, j).1],
                            decreases DIRECTION_COUNT - k,
                        {
                            let d = Direction::nth(k);
                            match d.offset((r, c)) {
                                Some(q) => {
                                    assert((q.0 as int, q.1 as int) == step(p, k as int));
                                    if in_bounds(width, height, q) {
                                        proof {
                                            lemma_grid_model(visited@);
                                            assert(grid_model(visited@)[q.0 as int].len() == width);
                                        }
                                        if !visited[q.0][q.1] {
                                            // extend a reveal path of (r, c) by one step
                                            proof {
                                                let path = choose|path: Seq<(int, int)>| is_flood_path(g0, path) && path[0] == s && path.last() == p;
                                                let longer = path.push((q.0 as int, q.1 as int));
                                                crate::direction::lemma_direction_adjacent(k as int, p);
                                                assert(is_flood_path(g0, longer));
                                                assert(longer.last() == (q.0 as int, q.1 as int));
                                                assert(flood_reaches(g0, s, (q.0 as int, q.1 as int)));
                                                lemma_count_unvisited_set(grid_model(visited@), q.0 as int, q.1 as int);
                                                assert(!stack@.contains(q));
                                            }
                                            let ghost vis0 = grid_model(visited@);
                                            let ghost st1 = stack@;
                                            set_cell(&mut visited, q.0, q.1, true);
                                            stack.push(q);
                                            proof {
                                                assert forall|x: (int, int)| in_cells(g0, x) && x != (q.0 as int, q.1 as int) implies
                                                    #[trigger] stack@.contains((x.0 as usize, x.1 as usize)) == st1.contains((x.0 as usize, x.1 as usize)) by {
                                                    if st1.contains((x.0 as usize, x.1 as usize)) {
                                                        let j = choose|j: int| 0 <= j < st1.len() && st1[j] == (x.0 as usize, x.1 as usize);
                                                        assert(stack@[j] == st1[j]);
                                                    }
                                                    if stack@.contains((x.0 as usize, x.1 as usize)) {
                                                        let j = choose|j: int| 0 <= j < stack@.len() && stack@[j] == (x.0 as usize, x.1 as usize);
                                                        assert(j != st1.len());
                                                        assert(st1[j] == stack@[j]);
                                                    }
                                                }
                                                assert(stack@[st1.len() as int] == q);
                                                assert(stack@.contains(q));
                                                assert forall|i: int| 0 <= i < stack@.len() implies #[trigger] stack@[i].0 < height && stack@[i].1 < width
                                                    && grid_model(visited@)[stack@[i].0 as int][stack@[i].1 as int] by {
                                                    if i < st1.len() {
                                                        assert(stack@[i] == st1[i]);
                                                        assert(vis0[st1[i].0 as int][st1[i].1 as int]);
                                                    }
                                                }
                                                assert forall|i: int, j: int| 0 <= i < stack@.len() && 0 <= j < stack@.len() && i != j implies stack@[i] != stack@[j] by {
                                                    if i < st1.len() && j < st1.len() {
                                                        assert(stack@[i] == st1[i] && stack@[j] == st1[j]);
                                                    } else if i < st1.len() {
                                                        assert(stack@[i] == st1[i]);
                                                    } else {
                                                        assert(stack@[j] == st1[j]);
                                                    }
                                                }
                                            }
                                        }
                                    }
                                },
                                None => {},
                            }
                            k = k + 1;
                        }
                    }
                },
                _ => {},
            }
        }
        proof {
            assert forall|q: (int, int)| in_cells(g0, q) && flood_reaches(g0, s, q) implies grid_model(visited@)[q.0][q.1] by {
                let path = choose|path: Seq<(int, int)>| is_flood_path(g0, path) && path[0] == s && path.last() == q;
                lemma_closed_contains_reach(g0, grid_model(visited@), s, path);
            }
            let after = after_flood(g0, s);
            assert forall|i: int| 0 <= i < height implies #[trigger] self.cells()[i] =~= after[i] by {
                assert forall|j: int| 0 <= j < width implies self.cells()[i][j] == after[i][j] by {
                    assert(in_cells(g0, (i, j)));
                    assert(self.cells()[i][j] == self.cells()[(i, j).0][(i, j).1]);
                }
            }
            assert(self.cells() =~= after);
        }
    }

    /// Lays out a board with mines at the given (row, column) positions.
    fn build(width: usize, height: usize, mines: &Vec<(usize, usize)>) -> (b: Board)
        requires
            width > 0,
            height > 0,
            forall|i: int| 0 <= i < mines@.len() ==> #[trigger] mines@[i].0 < height && mines@[i].1 < width,
        ensures
            b.fresh_with(width as int, height as int, mines@),
    {
        let mut grid: Vec<Vec<CellState>> = Vec::new();
        let mut r: usize = 0;
        while r < height
            invariant
                r <= height,
                grid@.len() == r,
                forall|i: int| 0 <= i < r ==> #[trigger] grid@[i]@.len() == width,
                forall|i: int, j: int|
                    0 <= i < r && 0 <= j < width ==> #[trigger] grid@[i]@[j] == CellState::Neighbours(false, 0),
            decreases height - r,
        {
            let mut row: Vec<CellState> = Vec::new();
            let mut c: usize = 0;
            while c < width
                invariant
                    c <= width,
                    row@.len() == c,
                    forall|j: int| 0 <= j < c ==> #[trigger] row@[j] == CellState::Neighbours(false, 0),
                decreases width - c,
            {
                row.push(CellState::Neighbours(false, 0));
                c = c + 1;
            }
            grid.push(row);
            r = r + 1;
        }
        proof {
            lemma_grid_model(grid@);
        }
        let mut i: usize = 0;
        while i < mines.len()
            invariant
                i <= mines@.len(),
                forall|k: int| 0 <= k < mines@.len() ==> #[trigger] mines@[k].0 < height && mines@[k].1 < width,
                grid_shape(grid_model(grid@), height as int, width as int),
                forall|rr: int, cc: int|
                    in_rect(height as int, width as int, (rr, cc)) ==> #[trigger] grid_model(grid@)[rr][cc] == if placed_before(
                        mines@,
                        i as int,
                        (rr, cc),
                    ) {
                        CellState::Mine(false, false)
                    } else {
                        CellState::Neighbours(false, 0)
                    },
            decreases mines@.len() - i,
        {
            let (mr, mc) = mines[i];
            proof {
                lemma_grid_model(grid@);
                assert(grid_model(grid@)[mr as int].len() == width);
            }
            set_cell(&mut grid, mr, mc, CellState::Mine(false, false));
            proof {
                lemma_grid_model(grid@);
                assert forall|rr: int, cc: int| in_rect(height as int, width as int, (rr, cc)) implies #[trigger] grid_model(grid@)[rr][cc] == if placed_before(
                        mines@,
                        i + 1,
                        (rr, cc),
                    ) {
                        CellState::Mine(false, false)
                    } else {
                        CellState::Neighbours(false, 0)
                    } by {
                    if rr == mr && cc == mc {
                        assert(placed_before(mines@, i + 1, (rr, cc)));
                    } else if placed_before(mines@, i + 1, (rr, cc)) {
                        let j = choose|j: int| 0 <= j < i + 1 && mines@[j].0 as int == rr && mines@[j].1 as int == cc;
                        assert(placed_before(mines@, i as int, (rr, cc)));
                    }
                }
            }
            i = i + 1;
        }
        let ghost laid = grid_model(grid@);
        let mut r: usize = 0;
        while r < height
            invariant
                r <= height,
                grid_shape(laid, height as int, width as int),
                grid_shape(grid_model(grid@), height as int, width as int),
                same_mines(laid, grid_model(grid@)),
                forall|rr: int, cc: int|
                    in_rect(height as int, width as int, (rr, cc)) ==> #[trigger] laid[rr][cc] == if is_listed(mines@, (rr, cc)) {
                        CellState::Mine(false, false)
                    } else {
                        CellState::Neighbours(false, 0)
                    },
                forall|rr: int, cc: int|
                    in_rect(height as int, width as int, (rr, cc)) ==> #[trigger] grid_model(grid@)[rr][cc] == if rr < r
                        && !is_listed(mines@, (rr, cc)) {
                        CellState::Neighbours(false, mines_around(laid, (rr, cc)) as u8)
                    } else {
                        laid[rr][cc]
                    },
            decreases height - r,
        {
            let mut c: usize = 0;
            while c < width
                invariant
                    r < height,
                    c <= width,
                    grid_shape(laid, height as int, width as int),
                    grid_shape(grid_model(grid@), height as int, width as int),
                    same_mines(laid, grid_model(grid@)),
                    forall|rr: int, cc: int|
                        in_rect(height as int, width as int, (rr, cc)) ==> #[trigger] laid[rr][cc] == if is_listed(mines@, (rr, cc)) {
                            CellState::Mine(false, false)
                        } else {
                            CellState::Neighbours(false, 0)
                        },
                    forall|rr: int, cc: int|
                        in_rect(height as int, width as int, (rr, cc)) ==> #[trigger] grid_model(grid@)[rr][cc] == if (
                        rr < r || (rr == r && cc < c)) && !is_listed(mines@, (rr, cc)) {
                            CellState::Neighbours(false, mines_around(laid, (rr, cc)) as u8)
                        } else {
                            laid[rr][cc]
                        },
                decreases width - c,
            {
                proof {
                    lemma_grid_model(grid@);
                    assert(grid_model(grid@)[r as int].len() == width);
                    assert(laid[r as int][c as int] == grid_model(grid@)[r as int][c as int]);
                }
                if !grid[r][c].is_mine() {
                    proof {
                        lemma_same_mines(laid, grid_model(grid@));
                    }
                    let n = count_adjacent_mines(&grid, height, width, r, c);
                    proof {
                        lemma_mines_around_upto_bound(laid, (r as int, c as int), 8);
                    }
                    set_cell(&mut grid, r, c, CellState::Neighbours(false, n));
                }
                c = c + 1;
            }
            r = r + 1;
        }
        let b = Board { grid, game_over: false };
        proof {
            lemma_same_mines(laid, b.cells());
            assert(b.cells()[0].len() == width);
            assert forall|rr: int, cc: int|
                0 <= rr < b.cells().len() && 0 <= cc < b.cells()[rr].len() && (#[trigger] b.cells()[rr][cc] is Neighbours)
                implies b.cells()[rr][cc]->Neighbours_1 == mines_around(b.cells(), (rr, cc)) by {
                assert(in_rect(height as int, width as int, (rr, cc)));
                lemma_mines_around_upto_bound(laid, (rr, cc), 8);
            }
        }
        b
    }
}

/// On a well-formed board every safe cell holds the exact number of its
/// in-grid neighbours that hold a mine.
pub proof fn lemma_clue_counts_exact(b: &Board, r: int, c: int)
    requires
        b.wf(),
        b.in_grid((r, c)),
        b.cell((r, c)) is Neighbours,
    ensures
        b.cell((r, c))->Neighbours_1 == mines_around(b.cells(), (r, c)),
        adjacent_mines(b.cells(), (r, c)).finite(),
        b.cell((r, c))->Neighbours_1 == adjacent_mines(b.cells(), (r, c)).len(),
{
    lemma_mines_around_is_neighbour_count(b.cells(), (r, c));
}

} // verus!
