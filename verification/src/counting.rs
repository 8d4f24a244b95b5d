//! Counting `true` entries in a rectangular grid of booleans.
//!
//! The generator keeps one flag per cell that says whether the cell still
//! waits to be visited, together with a running count of those flags.
//! These spec functions define that count, and the lemmas relate it to
//! pointwise updates so the running count can be proved exact.

use vstd::prelude::*;

verus! {

/// The grid of flags held by a vector of columns, as a sequence of columns.
pub open spec fn bool_grid(v: Seq<Vec<bool>>) -> Seq<Seq<bool>> {
    v.map_values(|col: Vec<bool>| col@)
}

/// The number of `true` entries of one column.
pub open spec fn count_row(s: Seq<bool>) -> int
    decreases s.len(),
{
    if s.len() == 0 {
        0
    } else {
        count_row(s.drop_last()) + if s.last() {
            1int
        } else {
            0int
        }
    }
}

/// The number of `true` entries over all columns.
pub open spec fn count_grid(g: Seq<Seq<bool>>) -> int
    decreases g.len(),
{
    if g.len() == 0 {
        0
    } else {
        count_grid(g.drop_last()) + count_row(g.last())
    }
}

pub proof fn lemma_count_row_bounds(s: Seq<bool>)
    ensures
        0 <= count_row(s) <= s.len(),
    decreases s.len(),
{
    if s.len() > 0 {
        lemma_count_row_bounds(s.drop_last());
    }
}

pub proof fn lemma_count_grid_nonneg(g: Seq<Seq<bool>>)
    ensures
        0 <= count_grid(g),
    decreases g.len(),
{
    if g.len() > 0 {
        lemma_count_grid_nonneg(g.drop_last());
        lemma_count_row_bounds(g.last());
    }
}

pub proof fn lemma_count_row_push(s: Seq<bool>, b: bool)
    ensures
        count_row(s.push(b)) == count_row(s) + if b {
            1int
        } else {
            0int
        },
{
    assert(s.push(b).drop_last() =~= s);
}

pub proof fn lemma_count_grid_push(g: Seq<Seq<bool>>, row: Seq<bool>)
    ensures
        count_grid(g.push(row)) == count_grid(g) + count_row(row),
{
    assert(g.push(row).drop_last() =~= g);
}

pub proof fn lemma_count_row_update(s: Seq<bool>, k: int, b: bool)
    requires
        0 <= k < s.len(),
    ensures
        count_row(s.update(k, b)) == count_row(s) + (if b {
            1int
        } else {
            0int
        }) - (if s[k] {
            1int
        } else {
            0int
        }),
    decreases s.len(),
{
    let t = s.update(k, b);
    if k == s.len() - 1 {
        assert(t.drop_last() =~= s.drop_last());
        assert(t.last() == b);
    } else {
        assert(t.drop_last() =~= s.drop_last().update(k, b));
        lemma_count_row_update(s.drop_last(), k, b);
        assert(t.last() == s.last());
    }
}

pub proof fn lemma_count_grid_update(g: Seq<Seq<bool>>, i: int, row: Seq<bool>)
    requires
        0 <= i < g.len(),
    ensures
        count_grid(g.update(i, row)) == count_grid(g) - count_row(g[i]) + count_row(row),
    decreases g.len(),
{
    let t = g.update(i, row);
    if i == g.len() - 1 {
        assert(t.drop_last() =~= g.drop_last());
        assert(t.last() == row);
    } else {
        assert(t.drop_last() =~= g.drop_last().update(i, row));
        lemma_count_grid_update(g.drop_last(), i, row);
        assert(t.last() == g.last());
    }
}

pub proof fn lemma_count_row_all_false(s: Seq<bool>)
    requires
        forall|k: int| 0 <= k < s.len() ==> !s[k],
    ensures
        count_row(s) == 0,
    decreases s.len(),
{
    if s.len() > 0 {
        assert(forall|k: int| 0 <= k < s.len() - 1 ==> s.drop_last()[k] == s[k]);
        lemma_count_row_all_false(s.drop_last());
    }
}

pub proof fn lemma_count_grid_all_false(g: Seq<Seq<bool>>)
    requires
        forall|i: int, k: int| 0 <= i < g.len() && 0 <= k < g[i].len() ==> !(#[trigger] g[i][k]),
    ensures
        count_grid(g) == 0,
    decreases g.len(),
{
    if g.len() > 0 {
        assert(forall|i: int| 0 <= i < g.len() - 1 ==> g.drop_last()[i] == g[i]);
        lemma_count_grid_all_false(g.drop_last());
        assert(forall|k: int| 0 <= k < g.last().len() ==> !g.last()[k]);
        lemma_count_row_all_false(g.last());
    }
}

pub proof fn lemma_count_row_zero(s: Seq<bool>)
    requires
        count_row(s) == 0,
    ensures
        forall|k: int| 0 <= k < s.len() ==> !s[k],
    decreases s.len(),
{
    if s.len() > 0 {
        lemma_count_row_bounds(s.drop_last());
        lemma_count_row_zero(s.drop_last());
        assert(forall|k: int| 0 <= k < s.len() - 1 ==> s[k] == s.drop_last()[k]);
    }
}

pub proof fn lemma_count_grid_zero(g: Seq<Seq<bool>>)
    requires
        count_grid(g) == 0,
    ensures
        forall|i: int, k: int| 0 <= i < g.len() && 0 <= k < g[i].len() ==> !(#[trigger] g[i][k]),
    decreases g.len(),
{
    if g.len() > 0 {
        lemma_count_grid_nonneg(g.drop_last());
        lemma_count_row_bounds(g.last());
        lemma_count_grid_zero(g.drop_last());
        lemma_count_row_zero(g.last());
        assert(forall|i: int| 0 <= i < g.len() - 1 ==> g[i] == g.drop_last()[i]);
    }
}

} // verus!
