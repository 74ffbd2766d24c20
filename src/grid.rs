//! Grids of cells as nested sequences: their shape, the mines around a
//! cell, and flag toggles.
use vstd::prelude::*;

use crate::cell::CellState;
use crate::direction::{adjacent, lemma_adjacent_direction, lemma_direction_adjacent, Direction, DIRECTION_COUNT};

verus! {

/// The cells of a grid of rows, as sequences.
pub open spec fn grid_model<T>(grid: Seq<Vec<T>>) -> Seq<Seq<T>> {
    grid.map_values(|row: Vec<T>| row@)
}

pub(crate) proof fn lemma_grid_model<T>(grid: Seq<Vec<T>>)
    ensures
        grid_model(grid).len() == grid.len(),
        forall|r: int| 0 <= r < grid.len() ==> #[trigger] grid_model(grid)[r] == grid[r]@,
{
}

/// Writes `v` into the cell at `(r, c)`.
pub(crate) fn set_cell<T>(grid: &mut Vec<Vec<T>>, r: usize, c: usize, v: T)
    requires
        r < old(grid)@.len(),
        c < old(grid)@[r as int]@.len(),
    ensures
        grid_model(final(grid)@) == grid_model(old(grid)@).update(
            r as int,
            grid_model(old(grid)@)[r as int].update(c as int, v),
        ),
{
    grid[r][c] = v;
    proof {
        lemma_grid_model(grid@);
        lemma_grid_model(old(grid)@);
        assert(grid_model(grid@) =~= grid_model(old(grid)@).update(
            r as int,
            grid_model(old(grid)@)[r as int].update(c as int, v),
        ));
    }
}

/// `g` has `height` rows of `width` cells each.
pub open spec fn grid_shape<T>(g: Seq<Seq<T>>, height: int, width: int) -> bool {
    g.len() == height && forall|r: int| 0 <= r < height ==> #[trigger] g[r].len() == width
}

pub open spec fn in_rect(height: int, width: int, p: (int, int)) -> bool {
    0 <= p.0 < height && 0 <= p.1 < width
}

/// The position one step from `p` in the direction of index `k`.
pub open spec fn step(p: (int, int), k: int) -> (int, int) {
    (p.0 + Direction::nth_spec(k).delta().0, p.1 + Direction::nth_spec(k).delta().1)
}

/// `p` lies in the grid `g` and holds a mine.
pub open spec fn mine_in(g: Seq<Seq<CellState>>, p: (int, int)) -> bool {
    0 <= p.0 < g.len() && 0 <= p.1 < g[p.0].len() && g[p.0][p.1] is Mine
}

/// How many of the first `k` directions from `p` lead to a mine of `g`.
pub open spec fn mines_around_upto(g: Seq<Seq<CellState>>, p: (int, int), k: int) -> nat
    decreases k,
{
    if k <= 0 {
        0
    } else {
        mines_around_upto(g, p, k - 1) + if mine_in(g, step(p, k - 1)) {
            1nat
        } else {
            0nat
        }
    }
}

/// The number of the eight neighbours of `p` that lie in `g` and hold a mine.
pub open spec fn mines_around(g: Seq<Seq<CellState>>, p: (int, int)) -> nat {
    mines_around_upto(g, p, 8)
}

/// Every safe cell of `g` holds the number of mines around it.
pub open spec fn counts_hold(g: Seq<Seq<CellState>>) -> bool {
    forall|r: int, c: int|
        0 <= r < g.len() && 0 <= c < g[r].len() && (#[trigger] g[r][c] is Neighbours) ==> g[r][c]->Neighbours_1
            == mines_around(g, (r, c))
}

/// Two grids of one shape with their mines in the same places.
pub open spec fn same_mines(a: Seq<Seq<CellState>>, b: Seq<Seq<CellState>>) -> bool {
    a.len() == b.len() && (forall|r: int| 0 <= r < a.len() ==> #[trigger] a[r].len() == b[r].len())
        && forall|r: int, c: int|
        0 <= r < a.len() && 0 <= c < a[r].len() ==> (#[trigger] a[r][c] is Mine) == (b[r][c] is Mine)
}

pub(crate) proof fn lemma_mines_around_upto_bound(g: Seq<Seq<CellState>>, p: (int, int), k: int)
    ensures
        mines_around_upto(g, p, k) <= if k <= 0 { 0 } else { k },
    decreases k,
{
    if k > 0 {
        lemma_mines_around_upto_bound(g, p, k - 1);
    }
}

pub(crate) proof fn lemma_same_mines_upto(a: Seq<Seq<CellState>>, b: Seq<Seq<CellState>>, p: (int, int), k: int)
    requires
        same_mines(a, b),
    ensures
        mines_around_upto(a, p, k) == mines_around_upto(b, p, k),
    decreases k,
{
    if k > 0 {
        lemma_same_mines_upto(a, b, p, k - 1);
        let q = step(p, k - 1);
        if 0 <= q.0 < a.len() && 0 <= q.1 < a[q.0].len() {
            assert(a[q.0][q.1] is Mine == b[q.0][q.1] is Mine);
        }
    }
}

/// Grids with their mines in the same places have the same counts.
pub proof fn lemma_same_mines(a: Seq<Seq<CellState>>, b: Seq<Seq<CellState>>)
    requires
        same_mines(a, b),
    ensures
        forall|p: (int, int)| #[trigger] mines_around(a, p) == mines_around(b, p),
{
    assert forall|p: (int, int)| #[trigger] mines_around(a, p) == mines_around(b, p) by {
        lemma_same_mines_upto(a, b, p, 8);
    }
}

/// Counts the mines among the in-grid neighbours of `(row, col)`.
pub(crate) fn count_adjacent_mines(grid: &Vec<Vec<CellState>>, height: usize, width: usize, row: usize, col: usize) -> (r: u8)
    requires
        grid_shape(grid_model(grid@), height as int, width as int),
        row < height,
        col < width,
    ensures
        r as nat == mines_around(grid_model(grid@), (row as int, col as int)),
{
    let ghost g = grid_model(grid@);
    let ghost p = (row as int, col as int);
    let mut count: u8 = 0;
    let mut k: usize = 0;
    while k < DIRECTION_COUNT
        invariant
            g == grid_model(grid@),
            p == (row as int, col as int),
            grid_shape(g, height as int, width as int),
            row < height,
            col < width,
            k <= DIRECTION_COUNT,
            count as nat == mines_around_upto(g, p, k as int),
        decreases DIRECTION_COUNT - k,
    {
        proof {
            lemma_mines_around_upto_bound(g, p, k as int);
        }
        let d = Direction::nth(k);
        match d.offset((row, col)) {
            Some(q) => {
                if q.0 < height && q.1 < width {
                    assert(g[q.0 as int].len() == width);
                    assert(g[q.0 as int] == grid@[q.0 as int]@);
                    assert(d.delta() == Direction::nth_spec(k as int).delta());
                    assert((q.0 as int, q.1 as int) == step(p, k as int));
                    if grid[q.0][q.1].is_mine() {
                        count = count + 1;
                    }
                } else {
                    assert(!mine_in(g, step(p, k as int)));
                }
            },
            None => {
                assert(!mine_in(g, step(p, k as int)));
            },
        }
        k = k + 1;
    }
    count
}

/// The cells of `g` after a flag toggle at `p`.
pub open spec fn after_flag(g: Seq<Seq<CellState>>, p: (int, int)) -> Seq<Seq<CellState>> {
    if in_cells(g, p) {
        g.update(p.0, g[p.0].update(p.1, g[p.0][p.1].toggled()))
    } else {
        g
    }
}

/// Two grids of one shape whose cells differ at most in being revealed or
/// flagged.
pub open spec fn same_layout(a: Seq<Seq<CellState>>, b: Seq<Seq<CellState>>) -> bool {
    &&& a.len() == b.len()
    &&& forall|r: int| 0 <= r < a.len() ==> #[trigger] a[r].len() == b[r].len()
    &&& forall|r: int, c: int|
        0 <= r < a.len() && 0 <= c < a[r].len() ==> (#[trigger] b[r][c] is Mine) == (a[r][c] is Mine) && (b[r][c] is Neighbours
            ==> b[r][c]->Neighbours_1 == a[r][c]->Neighbours_1)
}

/// Revealing and flagging keep every count right.
pub(crate) proof fn lemma_same_layout_counts(a: Seq<Seq<CellState>>, b: Seq<Seq<CellState>>)
    requires
        same_layout(a, b),
        counts_hold(a),
    ensures
        counts_hold(b),
{
    assert(same_mines(a, b));
    lemma_same_mines(a, b);
    assert forall|r: int, c: int|
        0 <= r < b.len() && 0 <= c < b[r].len() && (#[trigger] b[r][c] is Neighbours) implies b[r][c]->Neighbours_1
        == mines_around(b, (r, c)) by {
        assert(a[r][c] is Neighbours);
    }
}

/// `p` lies in the grid `g`.
pub open spec fn in_cells(g: Seq<Seq<CellState>>, p: (int, int)) -> bool {
    0 <= p.0 < g.len() && 0 <= p.1 < g[p.0].len()
}

/// Toggling a flag twice at one place gives back the grid it started from;
/// toggling once at a hidden unflagged mine flags it.
pub proof fn lemma_flag_twice(g: Seq<Seq<CellState>>, p: (int, int))
    ensures
        after_flag(after_flag(g, p), p) == g,
        in_cells(g, p) && g[p.0][p.1] == CellState::Mine(false, false) ==> after_flag(g, p)[p.0][p.1]
            == CellState::Mine(false, true),
{
    if in_cells(g, p) {
        let once = after_flag(g, p);
        assert(once[p.0][p.1] == g[p.0][p.1].toggled());
        assert(once[p.0].update(p.1, once[p.0][p.1].toggled()) =~= g[p.0]);
        assert(once.update(p.0, g[p.0]) =~= g);
    }
}

/// The neighbours of `p` that lie in `g` and hold a mine.
pub open spec fn adjacent_mines(g: Seq<Seq<CellState>>, p: (int, int)) -> Set<(int, int)> {
    Set::new(|q: (int, int)| adjacent(p, q) && mine_in(g, q))
}

/// The mines among the positions one step from `p` in the first `k` directions.
pub open spec fn mines_in_first(g: Seq<Seq<CellState>>, p: (int, int), k: int) -> Set<(int, int)> {
    Set::new(|q: (int, int)| exists|j: int| 0 <= j < k && q == step(p, j) && mine_in(g, q))
}

proof fn lemma_mines_in_first(g: Seq<Seq<CellState>>, p: (int, int), k: int)
    requires
        0 <= k <= 8,
    ensures
        mines_in_first(g, p, k).finite(),
        mines_in_first(g, p, k).len() == mines_around_upto(g, p, k),
    decreases k,
{
    if k == 0 {
        assert(mines_in_first(g, p, 0) =~= Set::empty());
    } else {
        lemma_mines_in_first(g, p, k - 1);
        let prev = mines_in_first(g, p, k - 1);
        let q = step(p, k - 1);
        assert forall|j: int| 0 <= j < k - 1 implies step(p, j) != q by {}
        if mine_in(g, q) {
            assert(mines_in_first(g, p, k) =~= prev.insert(q));
            assert(!prev.contains(q));
        } else {
            assert(mines_in_first(g, p, k) =~= prev);
        }
    }
}

/// The count around `p` is the number of its neighbours that lie in the
/// grid and hold a mine.
pub proof fn lemma_mines_around_is_neighbour_count(g: Seq<Seq<CellState>>, p: (int, int))
    ensures
        adjacent_mines(g, p).finite(),
        mines_around(g, p) == adjacent_mines(g, p).len(),
{
    lemma_mines_in_first(g, p, 8);
    assert forall|q: (int, int)| #[trigger] adjacent_mines(g, p).contains(q) <==> mines_in_first(g, p, 8).contains(q) by {
        if adjacent(p, q) && mine_in(g, q) {
            let k = lemma_adjacent_direction(p, q);
            assert(q == step(p, k));
        }
        if mines_in_first(g, p, 8).contains(q) {
            let j = choose|j: int| 0 <= j < 8 && q == step(p, j) && mine_in(g, q);
            lemma_direction_adjacent(j, p);
        }
    }
    assert(adjacent_mines(g, p) =~= mines_in_first(g, p, 8));
}

} // verus!
