//! How many cells of a boolean grid are set, and how that number moves when
//! one cell is set.
use vstd::prelude::*;

verus! {

/// Number of `true` entries of a row.
pub open spec fn row_count(r: Seq<bool>) -> nat
    decreases r.len(),
{
    if r.len() == 0 {
        0
    } else {
        row_count(r.drop_last()) + if r.last() { 1nat } else { 0nat }
    }
}

/// Number of `true` cells of a grid.
pub open spec fn grid_count(g: Seq<Seq<bool>>) -> nat
    decreases g.len(),
{
    if g.len() == 0 {
        0
    } else {
        grid_count(g.drop_last()) + row_count(g.last())
    }
}

/// A row holds at most as many set entries as it has entries.
pub proof fn lemma_row_count_bound(r: Seq<bool>)
    ensures
        row_count(r) <= r.len(),
    decreases r.len(),
{
    if r.len() > 0 {
        lemma_row_count_bound(r.drop_last());
    }
}

/// Setting an entry that was clear adds one to the row's count.
pub proof fn lemma_row_count_set(r: Seq<bool>, i: int)
    requires
        0 <= i < r.len(),
        !r[i],
    ensures
        row_count(r.update(i, true)) == row_count(r) + 1,
    decreases r.len(),
{
    let u = r.update(i, true);
    if i == r.len() - 1 {
        assert(u.drop_last() =~= r.drop_last());
    } else {
        assert(u.drop_last() =~= r.drop_last().update(i, true));
        lemma_row_count_set(r.drop_last(), i);
    }
}

/// A grid of `g.len()` rows of `w` entries holds at most `g.len() * w` set cells.
pub proof fn lemma_grid_count_bound(g: Seq<Seq<bool>>, w: int)
    requires
        w >= 0,
        forall|y: int| 0 <= y < g.len() ==> (#[trigger] g[y]).len() == w,
    ensures
        grid_count(g) <= g.len() * w,
    decreases g.len(),
{
    if g.len() > 0 {
        lemma_grid_count_bound(g.drop_last(), w);
        lemma_row_count_bound(g.last());
        assert((g.len() - 1) * w + w == g.len() * w) by (nonlinear_arith);
    }
}

/// Replacing one row changes the grid's count by the change of that row's count.
pub proof fn lemma_grid_count_update(g: Seq<Seq<bool>>, y: int, row: Seq<bool>)
    requires
        0 <= y < g.len(),
    ensures
        grid_count(g.update(y, row)) + row_count(g[y]) == grid_count(g) + row_count(row),
    decreases g.len(),
{
    let u = g.update(y, row);
    if y == g.len() - 1 {
        assert(u.drop_last() =~= g.drop_last());
    } else {
        assert(u.drop_last() =~= g.drop_last().update(y, row));
        lemma_grid_count_update(g.drop_last(), y, row);
    }
}

} // verus!
