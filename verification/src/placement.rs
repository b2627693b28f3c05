//! What placing a stone and clearing stones do to chains and liberties.

use vstd::prelude::*;
use crate::connectivity::{
    closed_under_steps, lemma_closed_set_holds_chain, lemma_connected_ends, lemma_connected_self,
    lemma_connected_step, lemma_connected_step_front, lemma_path_prefix_connected,
};
use crate::position::{
    adjacent, alive, chain_has_liberty, chain_has_liberty_besides, cleared, connected, down,
    holds, is_open, is_path, is_square, left, on_board, open_neighbor, open_neighbor_besides,
    placed, right, stone_at, up, Cell, Grid,
};
use crate::rules::{captures_at, suicide_at};
use crate::stone::{Player, Stone};

verus! {

/// A connection carries over to any grid that holds the colour on every
/// point of the chain.
pub proof fn lemma_chain_carries_over(g: Grid, h: Grid, s: Stone, x: Cell, y: Cell)
    requires
        forall|z: Cell| #[trigger] connected(g, s, x, z) ==> holds(h, z, s),
        connected(g, s, x, y),
    ensures
        connected(h, s, x, y),
{
    let path = choose|path: Seq<Cell>| #[trigger]
        is_path(g, s, path) && path[0] == x && path.last() == y;
    assert forall|i: int| 0 <= i < path.len() implies holds(h, #[trigger] path[i], s) by {
        lemma_path_prefix_connected(g, s, path, i);
    }
    assert(is_path(h, s, path));
}

/// Placing a stone changes the one point and nothing else.
pub proof fn lemma_placed(g: Grid, p: Cell, s: Stone)
    requires
        is_square(g),
        on_board(g, p),
    ensures
        placed(g, p, s).len() == g.len(),
        is_square(placed(g, p, s)),
        stone_at(placed(g, p, s), p) == s,
        forall|x: Cell|
            on_board(g, x) && x != p ==> #[trigger] stone_at(placed(g, p, s), x) == stone_at(g, x),
{
}

/// Clearing points opens them and changes nothing else.
pub proof fn lemma_cleared(g: Grid, gone: Set<Cell>)
    requires
        is_square(g),
    ensures
        cleared(g, gone).len() == g.len(),
        is_square(cleared(g, gone)),
        forall|x: Cell|
            on_board(g, x) ==> #[trigger] stone_at(cleared(g, gone), x) == (if gone.contains(x) {
                Stone::Empty
            } else {
                stone_at(g, x)
            }),
{
}

/// On the grid with a stone at the open point `p`, the liberties of a chain
/// of any other colour are its old liberties other than `p`.
pub proof fn lemma_other_chain_after_placing(g: Grid, p: Cell, s: Stone, t: Stone, q: Cell)
    requires
        is_square(g),
        is_open(g, p),
        s != Stone::Empty,
        t != s,
        t != Stone::Empty,
    ensures
        forall|y: Cell| connected(placed(g, p, s), t, q, y) == connected(g, t, q, y),
        chain_has_liberty(placed(g, p, s), t, q) == chain_has_liberty_besides(g, t, q, p),
{
    let h = placed(g, p, s);
    lemma_placed(g, p, s);
    assert forall|z: Cell| holds(h, z, t) == holds(g, z, t) by {
        if on_board(g, z) && z != p {
            assert(stone_at(h, z) == stone_at(g, z));
        }
    }
    assert forall|y: Cell| connected(h, t, q, y) == connected(g, t, q, y) by {
        if connected(h, t, q, y) {
            assert forall|z: Cell| #[trigger] connected(h, t, q, z) implies holds(g, z, t) by {
                lemma_connected_ends(h, t, q, z);
            }
            lemma_chain_carries_over(h, g, t, q, y);
        }
        if connected(g, t, q, y) {
            assert forall|z: Cell| #[trigger] connected(g, t, q, z) implies holds(h, z, t) by {
                lemma_connected_ends(g, t, q, z);
            }
            lemma_chain_carries_over(g, h, t, q, y);
        }
    }
    lemma_open_after_placing(g, p, s);
}

/// On the grid with a stone at the open point `p`, the open points are the
/// old ones other than `p`.
pub proof fn lemma_open_after_placing(g: Grid, p: Cell, s: Stone)
    requires
        is_square(g),
        is_open(g, p),
        s != Stone::Empty,
    ensures
        forall|a: Cell| #[trigger] is_open(placed(g, p, s), a) == (is_open(g, a) && a != p),
        forall|y: Cell| #[trigger]
            open_neighbor(placed(g, p, s), y) == open_neighbor_besides(g, y, p),
{
    let h = placed(g, p, s);
    lemma_placed(g, p, s);
    assert forall|a: Cell| #[trigger] is_open(h, a) == (is_open(g, a) && a != p) by {
        if on_board(g, a) && a != p {
            assert(stone_at(h, a) == stone_at(g, a));
        }
    }
    assert forall|y: Cell| #[trigger]
        open_neighbor(h, y) == open_neighbor_besides(g, y, p) by {
        assert(is_open(h, up(y)) == (is_open(g, up(y)) && up(y) != p));
        assert(is_open(h, down(y)) == (is_open(g, down(y)) && down(y) != p));
        assert(is_open(h, left(y)) == (is_open(g, left(y)) && left(y) != p));
        assert(is_open(h, right(y)) == (is_open(g, right(y)) && right(y) != p));
    }
}

/// The chain of a stone placed at the open point `p` is `p` together with
/// the chains of its colour that stood next to `p`.
pub proof fn lemma_own_chain_after_placing(g: Grid, p: Cell, s: Stone)
    requires
        is_square(g),
        is_open(g, p),
        s != Stone::Empty,
    ensures
        forall|b: Cell| #[trigger]
            connected(placed(g, p, s), s, p, b) == (b == p || connected(g, s, up(p), b)
                || connected(g, s, down(p), b) || connected(g, s, left(p), b) || connected(
                g,
                s,
                right(p),
                b,
            )),
{
    let h = placed(g, p, s);
    lemma_placed(g, p, s);
    assert forall|z: Cell| holds(g, z, s) implies holds(h, z, s) by {
        assert(z != p);
        assert(stone_at(h, z) == stone_at(g, z));
    }
    let joined = Set::new(
        |b: Cell|
            b == p || connected(g, s, up(p), b) || connected(g, s, down(p), b) || connected(
                g,
                s,
                left(p),
                b,
            ) || connected(g, s, right(p), b),
    );
    assert forall|x: Cell, y: Cell|
        joined.contains(x) && #[trigger] adjacent(x, y) && holds(h, y, s) implies joined.contains(
        y,
    ) by {
        if y != p {
            assert(stone_at(h, y) == stone_at(g, y));
            if x == p {
                lemma_connected_self(g, s, y);
            } else if connected(g, s, up(p), x) {
                lemma_connected_step(g, s, up(p), x, y);
            } else if connected(g, s, down(p), x) {
                lemma_connected_step(g, s, down(p), x, y);
            } else if connected(g, s, left(p), x) {
                lemma_connected_step(g, s, left(p), x, y);
            } else {
                lemma_connected_step(g, s, right(p), x, y);
            }
        }
    }
    assert(closed_under_steps(h, s, joined));
    assert forall|b: Cell| #[trigger]
        connected(h, s, p, b) == joined.contains(b) by {
        if connected(h, s, p, b) {
            lemma_closed_set_holds_chain(h, s, p, b, joined);
        }
        if joined.contains(b) {
            if b == p {
                lemma_connected_self(h, s, p);
            } else {
                let q = if connected(g, s, up(p), b) {
                    up(p)
                } else if connected(g, s, down(p), b) {
                    down(p)
                } else if connected(g, s, left(p), b) {
                    left(p)
                } else {
                    right(p)
                };
                assert forall|z: Cell| #[trigger] connected(g, s, q, z) implies holds(h, z, s) by {
                    lemma_connected_ends(g, s, q, z);
                }
                lemma_chain_carries_over(g, h, s, q, b);
                lemma_connected_step_front(h, s, p, q, b);
            }
        }
    }
}

/// A stone placed at the open point `p` has a liberty exactly when the move
/// is no suicide.
pub proof fn lemma_suicide_on_placed_grid(g: Grid, p: Cell, mover: Player)
    requires
        is_square(g),
        is_open(g, p),
    ensures
        suicide_at(g, p, mover) == !alive(placed(g, p, mover.stone()), p),
{
    let s = mover.stone();
    let h = placed(g, p, s);
    lemma_placed(g, p, s);
    lemma_open_after_placing(g, p, s);
    lemma_own_chain_after_placing(g, p, s);
    assert(open_neighbor_besides(g, p, p) == open_neighbor(g, p));
    if !suicide_at(g, p, mover) {
        if open_neighbor(g, p) {
            lemma_connected_self(h, s, p);
            assert(open_neighbor(h, p));
        } else {
            let q = if holds(g, up(p), s) && chain_has_liberty_besides(g, s, up(p), p) {
                up(p)
            } else if holds(g, down(p), s) && chain_has_liberty_besides(g, s, down(p), p) {
                down(p)
            } else if holds(g, left(p), s) && chain_has_liberty_besides(g, s, left(p), p) {
                left(p)
            } else {
                right(p)
            };
            let b = choose|b: Cell| #[trigger]
                connected(g, s, q, b) && open_neighbor_besides(g, b, p);
            assert(connected(h, s, p, b));
            assert(open_neighbor(h, b));
        }
        assert(chain_has_liberty(h, s, p));
    }
    if alive(h, p) {
        let b = choose|b: Cell| #[trigger] connected(h, s, p, b) && open_neighbor(h, b);
        assert(open_neighbor_besides(g, b, p));
        if b != p {
            if connected(g, s, up(p), b) {
                lemma_connected_ends(g, s, up(p), b);
            } else if connected(g, s, down(p), b) {
                lemma_connected_ends(g, s, down(p), b);
            } else if connected(g, s, left(p), b) {
                lemma_connected_ends(g, s, left(p), b);
            } else {
                lemma_connected_ends(g, s, right(p), b);
            }
        }
    }
}

/// A stone placed at the open point `p` captures exactly when a stone of
/// the other colour next to `p` is dead on the grid with the stone placed.
pub proof fn lemma_capture_on_placed_grid(g: Grid, p: Cell, mover: Player)
    requires
        is_square(g),
        is_open(g, p),
    ensures
        captures_at(g, p, mover) == (exists|q: Cell|
            #[trigger] adjacent(p, q) && holds(
                placed(g, p, mover.stone()),
                q,
                mover.opponent().stone(),
            ) && !alive(placed(g, p, mover.stone()), q)),
{
    let s = mover.stone();
    let t = mover.opponent().stone();
    let h = placed(g, p, s);
    lemma_placed(g, p, s);
    lemma_other_chain_after_placing(g, p, s, t, up(p));
    lemma_other_chain_after_placing(g, p, s, t, down(p));
    lemma_other_chain_after_placing(g, p, s, t, left(p));
    lemma_other_chain_after_placing(g, p, s, t, right(p));
    assert forall|q: Cell| #[trigger] adjacent(p, q) && on_board(g, q) implies stone_at(h, q)
        == stone_at(g, q) by {}
    if captures_at(g, p, mover) {
        let q = if holds(g, up(p), t) && !chain_has_liberty_besides(g, t, up(p), p) {
            up(p)
        } else if holds(g, down(p), t) && !chain_has_liberty_besides(g, t, down(p), p) {
            down(p)
        } else if holds(g, left(p), t) && !chain_has_liberty_besides(g, t, left(p), p) {
            left(p)
        } else {
            right(p)
        };
        assert(adjacent(p, q) && holds(h, q, t) && !alive(h, q));
    }
}

} // verus!
