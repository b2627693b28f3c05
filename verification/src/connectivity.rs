//! Facts about walks and chains: connection is an equivalence on the points
//! of one colour, and a set that is closed under steps holds whole chains.

use vstd::prelude::*;
use crate::position::{
    adjacent, chain, chain_has_liberty, chain_has_liberty_besides, connected, down, holds,
    if_on_board, is_path, left, neighbors, on_board, right, up, Cell, Grid,
};
use crate::stone::Stone;

verus! {

/// From a member of `set`, a step onto a point holding `s` stays in `set`.
pub open spec fn closed_under_steps(g: Grid, s: Stone, set: Set<Cell>) -> bool {
    forall|x: Cell, y: Cell|
        set.contains(x) && #[trigger] adjacent(x, y) && holds(g, y, s) ==> set.contains(y)
}

/// A point holding `s` is connected to itself.
pub proof fn lemma_connected_self(g: Grid, s: Stone, p: Cell)
    requires
        holds(g, p, s),
    ensures
        connected(g, s, p, p),
{
    let path = seq![p];
    assert(is_path(g, s, path));
    assert(path[0] == p && path.last() == p);
}

/// Both ends of a connection hold the colour.
pub proof fn lemma_connected_ends(g: Grid, s: Stone, p: Cell, q: Cell)
    requires
        connected(g, s, p, q),
    ensures
        holds(g, p, s),
        holds(g, q, s),
{
    let path = choose|path: Seq<Cell>| #[trigger]
        is_path(g, s, path) && path[0] == p && path.last() == q;
    assert(holds(g, path[0], s));
    assert(holds(g, path[path.len() - 1], s));
}

/// A connection can be extended by one step at its far end.
pub proof fn lemma_connected_step(g: Grid, s: Stone, p: Cell, q: Cell, r: Cell)
    requires
        connected(g, s, p, q),
        adjacent(q, r),
        holds(g, r, s),
    ensures
        connected(g, s, p, r),
{
    let path = choose|path: Seq<Cell>| #[trigger]
        is_path(g, s, path) && path[0] == p && path.last() == q;
    let longer = path.push(r);
    assert forall|i: int| 0 <= i < longer.len() implies holds(g, #[trigger] longer[i], s) by {
        if i < path.len() {
            assert(longer[i] == path[i]);
        }
    }
    assert forall|i: int, j: int| 0 <= i && j == i + 1 && j < longer.len() implies adjacent(
        #[trigger] longer[i],
        #[trigger] longer[j],
    ) by {
        if j < path.len() {
            assert(adjacent(path[i], path[j]));
        }
    }
    assert(is_path(g, s, longer));
    assert(longer[0] == p && longer.last() == r);
}

/// A connection can be extended by one step at its near end.
pub proof fn lemma_connected_step_front(g: Grid, s: Stone, r: Cell, p: Cell, q: Cell)
    requires
        holds(g, r, s),
        adjacent(r, p),
        connected(g, s, p, q),
    ensures
        connected(g, s, r, q),
{
    let path = choose|path: Seq<Cell>| #[trigger]
        is_path(g, s, path) && path[0] == p && path.last() == q;
    let longer = seq![r] + path;
    assert forall|i: int| 0 <= i < longer.len() implies holds(g, #[trigger] longer[i], s) by {
        if i > 0 {
            assert(longer[i] == path[i - 1]);
        }
    }
    assert forall|i: int, j: int| 0 <= i && j == i + 1 && j < longer.len() implies adjacent(
        #[trigger] longer[i],
        #[trigger] longer[j],
    ) by {
        if i > 0 {
            assert(adjacent(path[i - 1], path[j - 1]));
        }
    }
    assert(is_path(g, s, longer));
    assert(longer[0] == r && longer.last() == q);
}

/// Every point of a walk is connected to the walk's first point.
pub proof fn lemma_path_prefix_connected(g: Grid, s: Stone, path: Seq<Cell>, i: int)
    requires
        is_path(g, s, path),
        0 <= i < path.len(),
    ensures
        connected(g, s, path[0], path[i]),
{
    let prefix = path.take(i + 1);
    assert forall|k: int| 0 <= k < prefix.len() implies holds(g, #[trigger] prefix[k], s) by {
        assert(prefix[k] == path[k]);
    }
    assert forall|k: int, j: int| 0 <= k && j == k + 1 && j < prefix.len() implies adjacent(
        #[trigger] prefix[k],
        #[trigger] prefix[j],
    ) by {
        assert(adjacent(path[k], path[j]));
    }
    assert(is_path(g, s, prefix));
    assert(prefix[0] == path[0] && prefix.last() == path[i]);
}

/// A walk that starts in a set closed under steps never leaves it.
proof fn lemma_walk_stays_inside(g: Grid, s: Stone, path: Seq<Cell>, set: Set<Cell>, i: int)
    requires
        is_path(g, s, path),
        set.contains(path[0]),
        closed_under_steps(g, s, set),
        0 <= i < path.len(),
    ensures
        set.contains(path[i]),
    decreases i,
{
    if i > 0 {
        lemma_walk_stays_inside(g, s, path, set, i - 1);
        assert(adjacent(path[i - 1], path[i]));
        assert(holds(g, path[i], s));
    }
}

/// A set that holds `p` and is closed under steps over `s` holds every point
/// connected to `p`.
pub proof fn lemma_closed_set_holds_chain(g: Grid, s: Stone, p: Cell, q: Cell, set: Set<Cell>)
    requires
        set.contains(p),
        closed_under_steps(g, s, set),
        connected(g, s, p, q),
    ensures
        set.contains(q),
{
    let path = choose|path: Seq<Cell>| #[trigger]
        is_path(g, s, path) && path[0] == p && path.last() == q;
    lemma_walk_stays_inside(g, s, path, set, path.len() - 1);
}

/// Connection runs both ways.
pub proof fn lemma_connected_symmetric(g: Grid, s: Stone, p: Cell, q: Cell)
    requires
        connected(g, s, p, q),
    ensures
        connected(g, s, q, p),
{
    lemma_connected_ends(g, s, p, q);
    let back = Set::new(|x: Cell| connected(g, s, x, p));
    lemma_connected_self(g, s, p);
    assert forall|x: Cell, y: Cell|
        back.contains(x) && #[trigger] adjacent(x, y) && holds(g, y, s) implies back.contains(
        y,
    ) by {
        lemma_connected_step_front(g, s, y, x, p);
    }
    lemma_closed_set_holds_chain(g, s, p, q, back);
}

/// Connections compose.
pub proof fn lemma_connected_transitive(g: Grid, s: Stone, p: Cell, q: Cell, r: Cell)
    requires
        connected(g, s, p, q),
        connected(g, s, q, r),
    ensures
        connected(g, s, p, r),
{
    let reach = chain(g, s, p);
    assert forall|x: Cell, y: Cell|
        reach.contains(x) && #[trigger] adjacent(x, y) && holds(g, y, s) implies reach.contains(
        y,
    ) by {
        lemma_connected_step(g, s, p, x, y);
    }
    lemma_closed_set_holds_chain(g, s, q, r, reach);
}

/// Two connected points lie in the same chain.
pub proof fn lemma_connected_same_chain(g: Grid, s: Stone, p: Cell, q: Cell)
    requires
        connected(g, s, p, q),
    ensures
        chain(g, s, p) == chain(g, s, q),
{
    lemma_connected_symmetric(g, s, p, q);
    assert forall|x: Cell| chain(g, s, p).contains(x) == chain(g, s, q).contains(x) by {
        if connected(g, s, p, x) {
            lemma_connected_transitive(g, s, q, p, x);
        }
        if connected(g, s, q, x) {
            lemma_connected_transitive(g, s, p, q, x);
        }
    }
    assert(chain(g, s, p) =~= chain(g, s, q));
}

/// Connected points share their liberties.
pub proof fn lemma_connected_same_liberty(g: Grid, s: Stone, p: Cell, q: Cell)
    requires
        connected(g, s, p, q),
    ensures
        chain_has_liberty(g, s, p) == chain_has_liberty(g, s, q),
        forall|x: Cell|
            chain_has_liberty_besides(g, s, p, x) == chain_has_liberty_besides(g, s, q, x),
{
    lemma_connected_same_chain(g, s, p, q);
    assert forall|y: Cell| connected(g, s, p, y) == connected(g, s, q, y) by {
        assert(chain(g, s, p).contains(y) == chain(g, s, q).contains(y));
    }
}

/// The neighbours of a point are the points of the board adjacent to it,
/// each listed once.
pub proof fn lemma_neighbors(g: Grid, p: Cell)
    ensures
        neighbors(g, p).no_duplicates(),
        neighbors(g, p).len() <= 4,
        forall|q: Cell| neighbors(g, p).contains(q) <==> on_board(g, q) && adjacent(p, q),
{
    let n = neighbors(g, p);
    let a = if_on_board(g, up(p));
    let b = if_on_board(g, down(p));
    let c = if_on_board(g, left(p));
    let d = if_on_board(g, right(p));
    assert forall|q: Cell| on_board(g, q) && adjacent(p, q) implies n.contains(q) by {
        if q == up(p) {
            assert(n[0] == q);
        } else if q == down(p) {
            assert(n[a.len() as int] == q);
        } else if q == left(p) {
            assert(n[(a.len() + b.len()) as int] == q);
        } else {
            assert(n[(a.len() + b.len() + c.len()) as int] == q);
        }
    }
}

} // verus!
