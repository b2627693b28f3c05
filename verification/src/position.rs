//! The mathematical model of a position: points, adjacency, chains of
//! like-coloured stones and their liberties.
//!
//! Everything here is ghost. The executable board in [`crate::board`] is
//! described in these terms.

use vstd::prelude::*;
use crate::stone::Stone;

verus! {

/// A point of the board: row first, then column.
pub type Cell = (int, int);

/// The stones of a position, row by row.
pub type Grid = Seq<Seq<Stone>>;

/// Every row is as long as the grid has rows.
pub open spec fn is_square(g: Grid) -> bool {
    forall|r: int| 0 <= r < g.len() ==> (#[trigger] g[r]).len() == g.len()
}

/// The grid of side `n` with no stone on it.
pub open spec fn empty_grid(n: nat) -> Grid {
    Seq::new(n, |r: int| Seq::new(n, |c: int| Stone::Empty))
}

pub open spec fn on_board(g: Grid, p: Cell) -> bool {
    0 <= p.0 < g.len() && 0 <= p.1 < g.len()
}

pub open spec fn stone_at(g: Grid, p: Cell) -> Stone {
    g[p.0][p.1]
}

/// `p` is a point of the board and holds `s`.
pub open spec fn holds(g: Grid, p: Cell, s: Stone) -> bool {
    on_board(g, p) && stone_at(g, p) == s
}

/// `p` is a point of the board with no stone on it.
pub open spec fn is_open(g: Grid, p: Cell) -> bool {
    holds(g, p, Stone::Empty)
}

pub open spec fn up(p: Cell) -> Cell {
    (p.0 - 1, p.1)
}

pub open spec fn down(p: Cell) -> Cell {
    (p.0 + 1, p.1)
}

pub open spec fn left(p: Cell) -> Cell {
    (p.0, p.1 - 1)
}

pub open spec fn right(p: Cell) -> Cell {
    (p.0, p.1 + 1)
}

/// `q` lies directly above, below, left or right of `p`. Diagonals do not
/// count.
pub open spec fn adjacent(p: Cell, q: Cell) -> bool {
    q == up(p) || q == down(p) || q == left(p) || q == right(p)
}

/// `q` alone if it is a point of the board, nothing otherwise.
pub open spec fn if_on_board(g: Grid, q: Cell) -> Seq<Cell> {
    if on_board(g, q) {
        seq![q]
    } else {
        Seq::empty()
    }
}

/// The points of the board next to `p`, in the order up, down, left, right.
pub open spec fn neighbors(g: Grid, p: Cell) -> Seq<Cell> {
    if_on_board(g, up(p)) + if_on_board(g, down(p)) + if_on_board(g, left(p)) + if_on_board(
        g,
        right(p),
    )
}

/// A walk over points that all hold `s`, each step to an adjacent point.
pub open spec fn is_path(g: Grid, s: Stone, path: Seq<Cell>) -> bool {
    &&& path.len() > 0
    &&& forall|i: int| 0 <= i < path.len() ==> holds(g, #[trigger] path[i], s)
    &&& forall|i: int, j: int|
        0 <= i && j == i + 1 && j < path.len() ==> adjacent(#[trigger] path[i], #[trigger] path[j])
}

/// `p` and `q` both hold `s` and a walk over `s` joins them.
pub open spec fn connected(g: Grid, s: Stone, p: Cell, q: Cell) -> bool {
    exists|path: Seq<Cell>| #[trigger] is_path(g, s, path) && path[0] == p && path.last() == q
}

/// The points joined to `p` by walks over `s`: the maximal 4-connected set of
/// points holding `s` that contains `p`. Empty when `p` does not hold `s`.
pub open spec fn chain(g: Grid, s: Stone, p: Cell) -> Set<Cell> {
    Set::new(|q: Cell| connected(g, s, p, q))
}

/// The group of the stone at `p`.
pub open spec fn group(g: Grid, p: Cell) -> Set<Cell> {
    chain(g, stone_at(g, p), p)
}

/// Some point next to `q` is open.
pub open spec fn open_neighbor(g: Grid, q: Cell) -> bool {
    is_open(g, up(q)) || is_open(g, down(q)) || is_open(g, left(q)) || is_open(g, right(q))
}

/// Some point next to `q`, other than `x`, is open.
pub open spec fn open_neighbor_besides(g: Grid, q: Cell, x: Cell) -> bool {
    ||| is_open(g, up(q)) && up(q) != x
    ||| is_open(g, down(q)) && down(q) != x
    ||| is_open(g, left(q)) && left(q) != x
    ||| is_open(g, right(q)) && right(q) != x
}

/// The chain of `s` through `p` has a liberty: an open point next to one of
/// its members.
pub open spec fn chain_has_liberty(g: Grid, s: Stone, p: Cell) -> bool {
    exists|q: Cell| #[trigger] connected(g, s, p, q) && open_neighbor(g, q)
}

/// The chain of `s` through `p` has a liberty other than `x`.
pub open spec fn chain_has_liberty_besides(g: Grid, s: Stone, p: Cell, x: Cell) -> bool {
    exists|q: Cell| #[trigger] connected(g, s, p, q) && open_neighbor_besides(g, q, x)
}

/// The point `p` is open, or the group of its stone has a liberty.
pub open spec fn alive(g: Grid, p: Cell) -> bool {
    stone_at(g, p) == Stone::Empty || chain_has_liberty(g, stone_at(g, p), p)
}

/// Every group on the board has at least one liberty.
pub open spec fn every_group_alive(g: Grid) -> bool {
    forall|p: Cell| on_board(g, p) ==> #[trigger] alive(g, p)
}

/// The stones of colour `s` whose group has no liberty.
pub open spec fn dead_stones(g: Grid, s: Stone) -> Set<Cell> {
    Set::new(|q: Cell| holds(g, q, s) && !alive(g, q))
}

/// The grid with `s` at `p` and every other point as before.
pub open spec fn placed(g: Grid, p: Cell, s: Stone) -> Grid {
    g.update(p.0, g[p.0].update(p.1, s))
}

/// The grid with the points of `cells` open and every other point as before.
pub open spec fn cleared(g: Grid, cells: Set<Cell>) -> Grid {
    Seq::new(
        g.len(),
        |r: int|
            Seq::new(
                g[r].len(),
                |c: int|
                    if cells.contains((r, c)) {
                        Stone::Empty
                    } else {
                        g[r][c]
                    },
            ),
    )
}

/// The point that a pair of indices names.
pub open spec fn cell(p: (usize, usize)) -> Cell {
    (p.0 as int, p.1 as int)
}

/// The points that a list of index pairs names, in order.
pub open spec fn cells(v: Seq<(usize, usize)>) -> Seq<Cell> {
    Seq::new(v.len(), |i: int| cell(v[i]))
}

} // verus!
