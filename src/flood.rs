//! The flood fill of a reveal: which cells it reaches and what it leaves.
use vstd::prelude::*;

use crate::cell::CellState;
use crate::direction::adjacent;
use crate::grid::{in_cells, step};

verus! {

/// A walk from cell to neighbouring cell of `g` that leaves only hidden safe
/// cells with no mine around them.
pub open spec fn is_flood_path(g: Seq<Seq<CellState>>, path: Seq<(int, int)>) -> bool {
    &&& path.len() > 0
    &&& forall|i: int| 0 <= i < path.len() ==> in_cells(g, #[trigger] path[i])
    &&& forall|i: int|
        0 <= i < path.len() - 1 ==> adjacent(#[trigger] path[i], path[i + 1]) && g[path[i].0][path[i].1].is_hidden_zero()
}

/// A reveal started at `s` spreads to `q`.
pub open spec fn flood_reaches(g: Seq<Seq<CellState>>, s: (int, int), q: (int, int)) -> bool {
    exists|path: Seq<(int, int)>| is_flood_path(g, path) && path[0] == s && path.last() == q
}

/// The cells of `g` after a reveal started at `s`: each safe cell that the
/// reveal reaches is revealed, every other cell stays as it was.
pub open spec fn after_flood(g: Seq<Seq<CellState>>, s: (int, int)) -> Seq<Seq<CellState>> {
    Seq::new(
        g.len(),
        |r: int|
            Seq::new(
                g[r].len(),
                |c: int|
                    if flood_reaches(g, s, (r, c)) {
                        g[r][c].uncovered()
                    } else {
                        g[r][c]
                    },
            ),
    )
}

/// The number of `false` entries of `s`.
pub open spec fn count_false(s: Seq<bool>) -> nat
    decreases s.len(),
{
    if s.len() == 0 {
        0
    } else {
        count_false(s.drop_last()) + if s.last() {
            0nat
        } else {
            1nat
        }
    }
}

/// The number of `false` entries of all rows of `v`.
pub open spec fn count_unvisited(v: Seq<Seq<bool>>) -> nat
    decreases v.len(),
{
    if v.len() == 0 {
        0
    } else {
        count_unvisited(v.drop_last()) + count_false(v.last())
    }
}

pub(crate) proof fn lemma_count_false_set(s: Seq<bool>, i: int)
    requires
        0 <= i < s.len(),
        !s[i],
    ensures
        count_false(s.update(i, true)) + 1 == count_false(s),
    decreases s.len(),
{
    let t = s.update(i, true);
    if i == s.len() - 1 {
        assert(t.drop_last() =~= s.drop_last());
    } else {
        assert(t.drop_last() =~= s.drop_last().update(i, true));
        lemma_count_false_set(s.drop_last(), i);
    }
}

pub(crate) proof fn lemma_count_unvisited_set(v: Seq<Seq<bool>>, r: int, c: int)
    requires
        0 <= r < v.len(),
        0 <= c < v[r].len(),
        !v[r][c],
    ensures
        count_unvisited(v.update(r, v[r].update(c, true))) + 1 == count_unvisited(v),
    decreases v.len(),
{
    let w = v.update(r, v[r].update(c, true));
    if r == v.len() - 1 {
        assert(w.drop_last() =~= v.drop_last());
        lemma_count_false_set(v[r], c);
    } else {
        assert(w.drop_last() =~= v.drop_last().update(r, v[r].update(c, true)));
        lemma_count_unvisited_set(v.drop_last(), r, c);
    }
}

/// Once the set of visited cells contains `s` and, with each visited hidden
/// zero cell, all of its neighbours, it contains every cell that a reveal
/// from `s` reaches.
pub(crate) proof fn lemma_closed_contains_reach(
    g: Seq<Seq<CellState>>,
    vis: Seq<Seq<bool>>,
    s: (int, int),
    path: Seq<(int, int)>,
)
    requires
        is_flood_path(g, path),
        path[0] == s,
        vis[s.0][s.1],
        forall|q: (int, int), k: int|
            in_cells(g, q) && vis[q.0][q.1] && g[q.0][q.1].is_hidden_zero() && 0 <= k < 8 && in_cells(
                g,
                #[trigger] step(q, k),
            ) ==> vis[step(q, k).0][step(q, k).1],
    ensures
        vis[path.last().0][path.last().1],
    decreases path.len(),
{
    if path.len() > 1 {
        let prefix = path.drop_last();
        assert(is_flood_path(g, prefix));
        lemma_closed_contains_reach(g, vis, s, prefix);
        let q = path[path.len() - 2];
        assert(adjacent(q, path.last()));
        let k = crate::direction::lemma_adjacent_direction(q, path.last());
        assert(step(q, k) == path.last());
    }
}

/// A reveal that starts on a hidden safe cell with no mine around it reveals
/// every safe cell that it reaches, reaches every neighbour of each hidden
/// zero cell that it reaches (so the whole connected zero region and its
/// numbered border), reveals no mine, and leaves every cell that it does not
/// reach as it was.
pub proof fn lemma_reveal_zero_region(g: Seq<Seq<CellState>>, s: (int, int))
    requires
        in_cells(g, s),
        g[s.0][s.1].is_hidden_zero(),
    ensures
        forall|q: (int, int)|
            in_cells(g, q) && flood_reaches(g, s, q) && g[q.0][q.1] is Neighbours ==> #[trigger] after_flood(
                g,
                s,
            )[q.0][q.1] == CellState::Neighbours(true, g[q.0][q.1]->Neighbours_1),
        forall|q: (int, int), k: int|
            in_cells(g, q) && flood_reaches(g, s, q) && g[q.0][q.1].is_hidden_zero() && 0 <= k < 8 && in_cells(
                g,
                #[trigger] step(q, k),
            ) ==> flood_reaches(g, s, step(q, k)),
        forall|q: (int, int)|
            in_cells(g, q) && g[q.0][q.1] is Mine ==> #[trigger] after_flood(g, s)[q.0][q.1] == g[q.0][q.1],
        forall|q: (int, int)|
            in_cells(g, q) && !flood_reaches(g, s, q) ==> #[trigger] after_flood(g, s)[q.0][q.1] == g[q.0][q.1],
{
    assert forall|q: (int, int), k: int|
        in_cells(g, q) && flood_reaches(g, s, q) && g[q.0][q.1].is_hidden_zero() && 0 <= k < 8 && in_cells(
            g,
            #[trigger] step(q, k),
        ) implies flood_reaches(g, s, step(q, k)) by {
        let path = choose|path: Seq<(int, int)>| is_flood_path(g, path) && path[0] == s && path.last() == q;
        let longer = path.push(step(q, k));
        crate::direction::lemma_direction_adjacent(k, q);
        assert(is_flood_path(g, longer));
        assert(longer[0] == s && longer.last() == step(q, k));
    }
}

} // verus!
