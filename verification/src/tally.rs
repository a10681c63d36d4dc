//! Sums over a two-dimensional table, used to measure the progress of a
//! search over its cost table.

use vstd::prelude::*;

verus! {

/// The sum of `f` over the entries of one row.
pub open spec fn row_tally(row: Seq<u64>, f: spec_fn(u64) -> nat) -> nat
    decreases row.len(),
{
    if row.len() == 0 {
        0
    } else {
        row_tally(row.drop_last(), f) + f(row.last())
    }
}

/// The sum of `f` over all entries of a table.
pub open spec fn tally(t: Seq<Seq<u64>>, f: spec_fn(u64) -> nat) -> nat
    decreases t.len(),
{
    if t.len() == 0 {
        0
    } else {
        tally(t.drop_last(), f) + row_tally(t.last(), f)
    }
}

/// Replacing one entry of a row changes the sum by the difference of the
/// two entries' weights.
pub proof fn lemma_row_tally_update(row: Seq<u64>, j: int, v: u64, f: spec_fn(u64) -> nat)
    requires
        0 <= j < row.len(),
    ensures
        row_tally(row.update(j, v), f) + f(row[j]) == row_tally(row, f) + f(v),
    decreases row.len(),
{
    let changed = row.update(j, v);
    if j == row.len() - 1 {
        assert(changed.drop_last() =~= row.drop_last());
    } else {
        lemma_row_tally_update(row.drop_last(), j, v, f);
        assert(changed.drop_last() =~= row.drop_last().update(j, v));
    }
}

/// Replacing one entry of a table changes the sum by the difference of the
/// two entries' weights.
pub proof fn lemma_tally_update(t: Seq<Seq<u64>>, i: int, j: int, v: u64, f: spec_fn(u64) -> nat)
    requires
        0 <= i < t.len(),
        0 <= j < t[i].len(),
    ensures
        tally(t.update(i, t[i].update(j, v)), f) + f(t[i][j]) == tally(t, f) + f(v),
    decreases t.len(),
{
    let changed = t.update(i, t[i].update(j, v));
    if i == t.len() - 1 {
        assert(changed.drop_last() =~= t.drop_last());
        lemma_row_tally_update(t[i], j, v, f);
    } else {
        lemma_tally_update(t.drop_last(), i, j, v, f);
        assert(changed.drop_last() =~= t.drop_last().update(i, t[i].update(j, v)));
    }
}

/// With weights of at most one, a row's sum is at most its length.
pub proof fn lemma_row_tally_bound(row: Seq<u64>, f: spec_fn(u64) -> nat)
    requires
        forall|v: u64| #[trigger] f(v) <= 1,
    ensures
        row_tally(row, f) <= row.len(),
    decreases row.len(),
{
    if row.len() > 0 {
        lemma_row_tally_bound(row.drop_last(), f);
    }
}

/// With weights of at most one, a table's sum is at most its number of
/// entries.
pub proof fn lemma_tally_bound(t: Seq<Seq<u64>>, width: nat, f: spec_fn(u64) -> nat)
    requires
        forall|v: u64| #[trigger] f(v) <= 1,
        forall|i: int| 0 <= i < t.len() ==> (#[trigger] t[i]).len() == width,
    ensures
        tally(t, f) <= t.len() * width,
    decreases t.len(),
{
    if t.len() > 0 {
        lemma_tally_bound(t.drop_last(), width, f);
        lemma_row_tally_bound(t.last(), f);
        assert((t.len() - 1) * width + width == t.len() * width) by (nonlinear_arith);
    }
}

} // verus!
