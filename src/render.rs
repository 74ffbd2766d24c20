//! The text rendering of a board.
use vstd::prelude::*;

use crate::cell::CellState;

verus! {

/// `n` copies of the four-dash segment of a rule line.
pub open spec fn dashes(n: nat) -> Seq<char>
    decreases n,
{
    if n == 0 {
        Seq::empty()
    } else {
        dashes((n - 1) as nat) + seq!['-', '-', '-', '-']
    }
}

/// The cells of one row, each as `| x `, closed by `|`.
pub open spec fn cells_text(row: Seq<CellState>) -> Seq<char>
    decreases row.len(),
{
    if row.len() == 0 {
        Seq::empty()
    } else {
        cells_text(row.drop_last()) + seq!['|', ' ', row.last().symbol_spec(), ' ']
    }
}

/// One row of the rendering and the rule line under it.
pub open spec fn row_text(row: Seq<CellState>) -> Seq<char> {
    cells_text(row) + seq!['|', '\n', '-'] + dashes(row.len()) + seq!['\n']
}

/// The rows of the rendering, top to bottom.
pub open spec fn rows_text(g: Seq<Seq<CellState>>) -> Seq<char>
    decreases g.len(),
{
    if g.len() == 0 {
        Seq::empty()
    } else {
        rows_text(g.drop_last()) + row_text(g.last())
    }
}

/// The text of a grid: a rule line, then each row with the rule line under
/// it.
pub open spec fn render_spec(g: Seq<Seq<CellState>>) -> Seq<char> {
    dashes(g[0].len()) + seq!['-', '\n'] + rows_text(g)
}

/// Relies on `String`'s `FromIterator<&char>`: the string holds the
/// characters in order.
#[verifier::external_body]
pub(crate) fn collect_string(chars: &Vec<char>) -> (r: String)
    ensures
        r@ == chars@,
{
    String::from_iter(chars)
}

/// Appends `n` four-dash segments.
pub(crate) fn push_dashes(out: &mut Vec<char>, n: usize)
    ensures
        final(out)@ == old(out)@ + dashes(n as nat),
{
    let mut i: usize = 0;
    while i < n
        invariant
            i <= n,
            out@ == old(out)@ + dashes(i as nat),
        decreases n - i,
    {
        let ghost before = out@;
        out.push('-');
        out.push('-');
        out.push('-');
        out.push('-');
        proof {
            assert(out@ =~= before + seq!['-', '-', '-', '-']);
            assert(dashes((i + 1) as nat) == dashes(i as nat) + seq!['-', '-', '-', '-']);
        }
        i = i + 1;
    }
}

} // verus!
