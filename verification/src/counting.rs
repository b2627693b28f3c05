//! How many points a board has room for.

use vstd::prelude::*;
use vstd::arithmetic::div_mod::lemma_fundamental_div_mod_converse;
use vstd::set_lib::{lemma_int_range, lemma_len_subset, lemma_map_size_bound, set_int_range};
use crate::position::{on_board, Cell, Grid};

verus! {

/// A set of points of the board is finite and no larger than the board.
pub proof fn lemma_cells_on_board_bounded(g: Grid, set: Set<Cell>)
    requires
        forall|p: Cell| set.contains(p) ==> on_board(g, p),
    ensures
        set.finite(),
        set.len() <= g.len() * g.len(),
{
    let n = g.len() as int;
    assert(0 <= n * n) by (nonlinear_arith)
        requires
            0 <= n,
    ;
    let indices = set_int_range(0, n * n);
    let point = |i: int| (i / n, i % n);
    let all = indices.map(point);
    lemma_int_range(0, n * n);
    lemma_map_size_bound(indices, all, point);
    assert forall|p: Cell| set.contains(p) implies all.contains(p) by {
        let i = p.0 * n + p.1;
        assert(0 <= i < n * n) by (nonlinear_arith)
            requires
                0 <= p.0 < n,
                0 <= p.1 < n,
                i == p.0 * n + p.1,
        ;
        lemma_fundamental_div_mod_converse(i, n, p.0, p.1);
        assert(indices.contains(i));
        assert(point(i) == p);
    }
    assert(set.subset_of(all));
    lemma_len_subset(set, all);
}

/// A list of distinct points of the board is no longer than the board is
/// large.
pub proof fn lemma_distinct_cells_bounded(g: Grid, list: Seq<Cell>)
    requires
        list.no_duplicates(),
        forall|i: int| 0 <= i < list.len() ==> on_board(g, #[trigger] list[i]),
    ensures
        list.len() <= g.len() * g.len(),
{
    list.unique_seq_to_set();
    lemma_cells_on_board_bounded(g, list.to_set());
}

} // verus!
