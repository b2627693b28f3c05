//! The board: the executable state of a game and the operations on it.

use std::collections::HashSet;
use vstd::prelude::*;
use vstd::std_specs::hash::group_hash_axioms;
use crate::connectivity::{
    lemma_closed_set_holds_chain, lemma_connected_ends, lemma_connected_same_liberty,
    lemma_connected_self, lemma_connected_step, lemma_connected_symmetric,
    lemma_connected_transitive, lemma_neighbors,
};
use crate::counting::lemma_distinct_cells_bounded;
use crate::laws::{
    lemma_capture_leaves_none_dead, lemma_move_effect, lemma_move_keeps_groups_alive,
    lemma_nothing_to_capture,
};
use crate::position::{
    adjacent, alive, cell, cells, chain, chain_has_liberty_besides, cleared, connected,
    dead_stones, down, empty_grid, every_group_alive, group, holds, if_on_board, is_open,
    is_square, left, neighbors, on_board, open_neighbor, open_neighbor_besides, right, stone_at,
    up, Cell, Grid,
};
use crate::rules::{
    after_move, after_pass, captures_at, captures_fit, grid_with_move, initial_state, legal,
    suicide_at, GameState,
};
use crate::sizes::DEFAULT_BOARD_SIZE;
use crate::stone::{Player, Stone};

verus! {

/// A game of Go in progress.
pub struct GoBoard {
    board_size: usize,
    board: Vec<Vec<Stone>>,
    current_player: Player,
    captured_black: u32,
    captured_white: u32,
    game_over: bool,
    last_move: Option<(usize, usize)>,
}

impl View for GoBoard {
    type V = GameState;

    closed spec fn view(&self) -> GameState {
        GameState {
            grid: Seq::new(self.board@.len(), |r: int| self.board@[r]@),
            to_move: self.current_player,
            captured_black: self.captured_black as nat,
            captured_white: self.captured_white as nat,
            game_over: self.game_over,
            last_move: match self.last_move {
                Some(p) => Some(cell(p)),
                None => None,
            },
        }
    }
}

impl Default for GoBoard {
    /// A new game on a board of the default size.
    fn default() -> (out: GoBoard)
        ensures
            out.wf(),
            out@ == initial_state(DEFAULT_BOARD_SIZE as nat),
            every_group_alive(out@.grid),
    {
        let out = GoBoard {
            board_size: DEFAULT_BOARD_SIZE,
            board: vec![vec![Stone::Empty; DEFAULT_BOARD_SIZE]; DEFAULT_BOARD_SIZE],
            current_player: Player::Black,
            captured_black: 0,
            captured_white: 0,
            game_over: false,
            last_move: None,
        };
        assert(out@.grid =~~= empty_grid(DEFAULT_BOARD_SIZE as nat));
        out
    }
}

/// `x` is one of the points that `list` names.
spec fn listed(list: Seq<(usize, usize)>, x: Cell) -> bool {
    cells(list).contains(x)
}

/// Adding a point to a list adds that point to what the list names.
proof fn lemma_listed_push(list: Seq<(usize, usize)>, e: (usize, usize), x: Cell)
    ensures
        listed(list.push(e), x) <==> listed(list, x) || x == cell(e),
        cells(list.push(e)) == cells(list).push(cell(e)),
{
    let longer = list.push(e);
    assert(cells(longer) =~= cells(list).push(cell(e)));
    if listed(list, x) {
        let i = choose|i: int| 0 <= i < cells(list).len() && cells(list)[i] == x;
        assert(cells(longer)[i] == x);
    }
    if x == cell(e) {
        assert(cells(longer)[list.len() as int] == x);
    }
}

/// A point that a list names is its last or is still named without the
/// last.
proof fn lemma_listed_drop_last(list: Seq<(usize, usize)>, x: Cell)
    requires
        list.len() > 0,
        listed(list, x),
    ensures
        listed(list.drop_last(), x) || x == cell(list.last()),
{
    let i = choose|i: int| 0 <= i < cells(list).len() && cells(list)[i] == x;
    if i < list.len() - 1 {
        assert(cells(list.drop_last())[i] == x);
    }
}

/// A list names each of its entries.
proof fn lemma_listed_index(list: Seq<(usize, usize)>, i: int)
    requires
        0 <= i < list.len(),
    ensures
        listed(list, cell(list[i])),
{
    assert(cells(list)[i] == cell(list[i]));
}

/// The number under which a flood fill keeps a point in its set of points
/// seen: the row in the upper half, the column in the lower.
spec fn key_of(p: (usize, usize)) -> u128 {
    (p.0 * 0x1_0000_0000_0000_0000 + p.1) as u128
}

/// The keys of the points of a list, in order.
spec fn keys(list: Seq<(usize, usize)>) -> Seq<u128> {
    Seq::new(list.len(), |i: int| key_of(list[i]))
}

/// Computes the key of a point.
fn point_key(row: usize, col: usize) -> (key: u128)
    ensures
        key == key_of((row, col)),
{
    (row as u128) * 0x1_0000_0000_0000_0000 + (col as u128)
}

/// Different points have different keys, so a set of keys holds the key of
/// a point exactly when the point is listed.
proof fn lemma_seen_iff_listed(list: Seq<(usize, usize)>, p: (usize, usize))
    ensures
        keys(list).to_set().contains(key_of(p)) <==> listed(list, cell(p)),
{
    if keys(list).to_set().contains(key_of(p)) {
        let i = choose|i: int| 0 <= i < keys(list).len() && keys(list)[i] == key_of(p);
        assert(list[i] == p);
        assert(cells(list)[i] == cell(p));
    }
    if listed(list, cell(p)) {
        let i = choose|i: int| 0 <= i < cells(list).len() && cells(list)[i] == cell(p);
        assert(list[i] == p);
        assert(keys(list)[i] == key_of(p));
    }
}

/// Adding a point to a list adds its key to the keys of the list.
proof fn lemma_keys_push(list: Seq<(usize, usize)>, e: (usize, usize))
    ensures
        keys(list.push(e)).to_set() == keys(list).to_set().insert(key_of(e)),
{
    let longer = list.push(e);
    assert(keys(longer) =~= keys(list).push(key_of(e)));
    assert forall|k: u128| keys(longer).to_set().contains(k) <==> keys(list).to_set().insert(
        key_of(e),
    ).contains(k) by {
        if keys(longer).contains(k) {
            let i = choose|i: int| 0 <= i < keys(longer).len() && keys(longer)[i] == k;
            if i < list.len() {
                assert(keys(list)[i] == k);
            }
        }
        if keys(list).contains(k) {
            let i = choose|i: int| 0 <= i < keys(list).len() && keys(list)[i] == k;
            assert(keys(longer)[i] == k);
        }
        if k == key_of(e) {
            assert(keys(longer)[list.len() as int] == k);
        }
    }
    assert(keys(longer).to_set() =~= keys(list).to_set().insert(key_of(e)));
}

/// The marks of a sweep and its list agree: the list names each marked
/// point once and no other, and every point it names is a dead stone of
/// colour `s`.
spec fn sweep_shape(
    g: Grid,
    s: Stone,
    queued: Seq<Vec<bool>>,
    list: Seq<(usize, usize)>,
) -> bool {
    &&& queued.len() == g.len()
    &&& forall|r: int| 0 <= r < g.len() ==> (#[trigger] queued[r])@.len() == g.len()
    &&& cells(list).no_duplicates()
    &&& forall|i: int| 0 <= i < list.len() ==> dead_stones(g, s).contains(cell(#[trigger] list[i]))
    &&& forall|i: int|
        0 <= i < list.len() ==> (#[trigger] queued[list[i].0 as int])@[list[i].1 as int]
    &&& forall|r: int, c: int|
        0 <= r < g.len() && 0 <= c < g.len() && #[trigger] queued[r]@[c] ==> listed(list, (r, c))
}

/// Between two groups of a sweep: marks and list agree, and the list holds
/// whole chains.
spec fn sweep_inv(
    g: Grid,
    s: Stone,
    queued: Seq<Vec<bool>>,
    list: Seq<(usize, usize)>,
) -> bool {
    &&& sweep_shape(g, s, queued, list)
    &&& holds_whole_chains(g, s, list)
}

/// With a point, the list names every point connected to it.
spec fn holds_whole_chains(g: Grid, s: Stone, list: Seq<(usize, usize)>) -> bool {
    forall|x: Cell, y: Cell|
        listed(list, x) && #[trigger] connected(g, s, x, y) ==> listed(list, y)
}

impl GoBoard {
    /// The grid is square, of the side that the board records.
    pub closed spec fn wf(&self) -> bool {
        &&& self.board@.len() == self.board_size
        &&& forall|r: int|
            0 <= r < self.board@.len() ==> (#[trigger] self.board@[r])@.len() == self.board_size
    }

    /// What a well-formed board says of its view.
    pub proof fn lemma_wf(&self)
        requires
            self.wf(),
        ensures
            is_square(self@.grid),
            self@.grid.len() <= usize::MAX,
            self@.captured_black <= u32::MAX,
            self@.captured_white <= u32::MAX,
            match self@.last_move {
                Some(p) => 0 <= p.0 <= usize::MAX && 0 <= p.1 <= usize::MAX,
                None => true,
            },
    {
    }

    /// A new game on a board of `board_size_param` by `board_size_param`
    /// points.
    pub fn with_size(board_size_param: usize) -> (out: GoBoard)
        ensures
            out.wf(),
            out@ == initial_state(board_size_param as nat),
            every_group_alive(out@.grid),
    {
        let out = GoBoard {
            board_size: board_size_param,
            board: vec![vec![Stone::Empty; board_size_param]; board_size_param],
            current_player: Player::Black,
            captured_black: 0,
            captured_white: 0,
            game_over: false,
            last_move: None,
        };
        assert(out@.grid =~~= empty_grid(board_size_param as nat));
        out
    }

    /// A new game on a board of the default size.
    pub fn _new() -> (out: GoBoard)
        ensures
            out.wf(),
            out@ == initial_state(DEFAULT_BOARD_SIZE as nat),
            every_group_alive(out@.grid),
    {
        GoBoard::default()
    }

    /// The points of the board next to `(row, col)`, in the order up, down,
    /// left, right.
    pub fn get_neighbors(&self, row: usize, col: usize) -> (out: Vec<(usize, usize)>)
        requires
            self.wf(),
        ensures
            cells(out@) == neighbors(self@.grid, (row as int, col as int)),
    {
        let n = self.board_size;
        let ghost g = self@.grid;
        let ghost p = (row as int, col as int);
        let mut out: Vec<(usize, usize)> = Vec::new();
        assert(cells(out@) =~= Seq::empty());
        if row > 0 && row - 1 < n && col < n {
            out.push((row - 1, col));
        }
        assert(cells(out@) =~= if_on_board(g, up(p)));
        if n > 0 && row < n - 1 && col < n {
            out.push((row + 1, col));
        }
        assert(cells(out@) =~= if_on_board(g, up(p)) + if_on_board(g, down(p)));
        if col > 0 && col - 1 < n && row < n {
            out.push((row, col - 1));
        }
        assert(cells(out@) =~= if_on_board(g, up(p)) + if_on_board(g, down(p)) + if_on_board(
            g,
            left(p),
        ));
        if n > 0 && col < n - 1 && row < n {
            out.push((row, col + 1));
        }
        assert(cells(out@) =~= neighbors(g, p));
        out
    }

    /// The points joined to `(row, col)` by walks over `stone`: the group of
    /// the stone at `(row, col)` when `stone` is its colour, and no point at
    /// all when `(row, col)` does not hold `stone`. Each point is listed
    /// once.
    pub fn get_group(&self, row: usize, col: usize, stone: Stone) -> (out: Vec<(usize, usize)>)
        requires
            self.wf(),
            on_board(self@.grid, (row as int, col as int)),
        ensures
            cells(out@).no_duplicates(),
            cells(out@).to_set() == chain(self@.grid, stone, (row as int, col as int)),
            stone == stone_at(self@.grid, (row as int, col as int)) ==> cells(out@).to_set()
                == group(self@.grid, (row as int, col as int)),
    {
        broadcast use group_hash_axioms;

        let n = self.board_size;
        let ghost g = self@.grid;
        let ghost start = (row as int, col as int);
        let mut seen: HashSet<u128> = HashSet::new();
        let mut members: Vec<(usize, usize)> = Vec::new();
        let mut stack: Vec<(usize, usize)> = Vec::new();
        stack.push((row, col));
        proof {
            lemma_listed_index(stack@, 0);
            if holds(g, start, stone) {
                lemma_connected_self(g, stone, start);
            }
            assert(0 <= n * n) by (nonlinear_arith);
            assert(seen@ =~= keys(members@).to_set());
        }
        loop
            invariant
                self.wf(),
                g == self@.grid,
                n == g.len(),
                start == (row as int, col as int),
                seen@ == keys(members@).to_set(),
                forall|i: int| 0 <= i < members.len() ==> on_board(g, cell(#[trigger] members[i])),
                cells(members@).no_duplicates(),
                forall|i: int|
                    0 <= i < members.len() ==> connected(
                        g,
                        stone,
                        start,
                        cell(#[trigger] members[i]),
                    ),
                forall|k: int|
                    0 <= k < stack.len() ==> on_board(g, cell(#[trigger] stack[k])) && (holds(
                        g,
                        cell(stack[k]),
                        stone,
                    ) ==> connected(g, stone, start, cell(stack[k]))),
                forall|x: Cell, y: Cell|
                    listed(members@, x) && #[trigger] adjacent(x, y) && holds(g, y, stone)
                        ==> listed(members@, y) || listed(stack@, y),
                holds(g, start, stone) ==> listed(members@, start) || listed(stack@, start),
                members.len() <= n * n,
            ensures
                stack.len() == 0,
            decreases n * n - members.len(), stack.len(),
        {
            let ghost old_stack = stack@;
            let ghost old_members = members@;
            match stack.pop() {
                None => {
                    break ;
                },
                Some((r, c)) => {
                    let ghost here = (r as int, c as int);
                    assert(stack@ == old_stack.drop_last());
                    assert(cell(old_stack[old_stack.len() - 1]) == here);
                    let key = point_key(r, c);
                    proof {
                        lemma_seen_iff_listed(old_members, (r, c));
                    }
                    if seen.contains(&key) || self.board[r][c] != stone {
                        proof {
                            assert forall|y: Cell|
                                holds(g, y, stone) && listed(old_stack, y) implies listed(
                                members@,
                                y,
                            ) || listed(stack@, y) by {
                                lemma_listed_drop_last(old_stack, y);
                            }
                        }
                    } else {
                        seen.insert(key);
                        members.push((r, c));
                        proof {
                            assert(connected(g, stone, start, here));
                            assert forall|x: Cell| listed(members@, x) <==> listed(old_members, x)
                                || x == here by {
                                lemma_listed_push(old_members, (r, c), x);
                            }
                            lemma_listed_push(old_members, (r, c), here);
                            lemma_keys_push(old_members, (r, c));
                            lemma_distinct_cells_bounded(g, cells(members@));
                            assert forall|y: Cell| listed(old_stack, y) implies listed(
                                members@,
                                y,
                            ) || listed(stack@, y) by {
                                lemma_listed_drop_last(old_stack, y);
                            }
                        }
                        let ghost base = stack@;
                        let nbrs = self.get_neighbors(r, c);
                        proof {
                            lemma_neighbors(g, here);
                        }
                        let mut k: usize = 0;
                        while k < nbrs.len()
                            invariant
                                self.wf(),
                                g == self@.grid,
                                n == g.len(),
                                k <= nbrs.len(),
                                cells(nbrs@) == neighbors(g, here),
                                forall|q: Cell|
                                    neighbors(g, here).contains(q) <==> on_board(g, q)
                                        && adjacent(here, q),
                                seen@ == keys(members@).to_set(),
                                connected(g, stone, start, here),
                                forall|j: int|
                                    0 <= j < stack.len() ==> on_board(
                                        g,
                                        cell(#[trigger] stack[j]),
                                    ) && (holds(g, cell(stack[j]), stone) ==> connected(
                                        g,
                                        stone,
                                        start,
                                        cell(stack[j]),
                                    )),
                                forall|y: Cell| listed(base, y) ==> listed(stack@, y),
                                forall|j: int|
                                    0 <= j < k && holds(g, cell(#[trigger] nbrs[j]), stone)
                                        ==> listed(members@, cell(nbrs[j])) || listed(
                                        stack@,
                                        cell(nbrs[j]),
                                    ),
                            decreases nbrs.len() - k,
                        {
                            let (nr, nc) = nbrs[k];
                            let ghost there = (nr as int, nc as int);
                            let ghost before = stack@;
                            proof {
                                lemma_listed_index(nbrs@, k as int);
                                assert(neighbors(g, here).contains(there));
                                lemma_seen_iff_listed(members@, (nr, nc));
                            }
                            let neighbor_key = point_key(nr, nc);
                            if !seen.contains(&neighbor_key) && self.board[nr][nc] == stone {
                                stack.push((nr, nc));
                                proof {
                                    lemma_connected_step(g, stone, start, here, there);
                                    assert forall|y: Cell| listed(before, y) implies listed(
                                        stack@,
                                        y,
                                    ) by {
                                        lemma_listed_push(before, (nr, nc), y);
                                    }
                                    lemma_listed_push(before, (nr, nc), there);
                                }
                            }
                            k += 1;
                        }
                        proof {
                            assert forall|y: Cell|
                                #[trigger] adjacent(here, y) && holds(g, y, stone) implies listed(
                                members@,
                                y,
                            ) || listed(stack@, y) by {
                                assert(neighbors(g, here).contains(y));
                                let j = choose|j: int|
                                    0 <= j < cells(nbrs@).len() && cells(nbrs@)[j] == y;
                                assert(cell(nbrs[j]) == y);
                            }
                        }
                    }
                },
            }
        }
        proof {
            let found = cells(members@).to_set();
            let whole = chain(g, stone, start);
            assert forall|q: Cell| found.contains(q) implies whole.contains(q) by {
                let i = choose|i: int| 0 <= i < cells(members@).len() && cells(members@)[i] == q;
                assert(cell(members[i]) == q);
            }
            assert forall|q: Cell| whole.contains(q) implies found.contains(q) by {
                lemma_connected_ends(g, stone, start, q);
                lemma_closed_set_holds_chain(g, stone, start, q, found);
            }
            assert(found =~= whole);
        }
        members
    }

    /// Whether some point next to `(row, col)` is open.
    fn has_open_neighbor(&self, row: usize, col: usize) -> (out: bool)
        requires
            self.wf(),
        ensures
            out == open_neighbor(self@.grid, (row as int, col as int)),
    {
        let ghost g = self@.grid;
        let ghost p = (row as int, col as int);
        let nbrs = self.get_neighbors(row, col);
        proof {
            lemma_neighbors(g, p);
        }
        let mut k: usize = 0;
        while k < nbrs.len()
            invariant
                self.wf(),
                g == self@.grid,
                p == (row as int, col as int),
                k <= nbrs.len(),
                cells(nbrs@) == neighbors(g, p),
                forall|q: Cell| neighbors(g, p).contains(q) <==> on_board(g, q) && adjacent(p, q),
                forall|j: int| 0 <= j < k ==> !is_open(g, cell(#[trigger] nbrs[j])),
            decreases nbrs.len() - k,
        {
            let (nr, nc) = nbrs[k];
            proof {
                lemma_listed_index(nbrs@, k as int);
                assert(neighbors(g, p).contains(cell(nbrs[k as int])));
            }
            if self.board[nr][nc] == Stone::Empty {
                return true;
            }
            k += 1;
        }
        proof {
            assert forall|q: Cell| #[trigger] adjacent(p, q) implies !is_open(g, q) by {
                if on_board(g, q) {
                    assert(neighbors(g, p).contains(q));
                    let j = choose|j: int| 0 <= j < cells(nbrs@).len() && cells(nbrs@)[j] == q;
                    assert(cell(nbrs[j]) == q);
                }
            }
            assert(adjacent(p, up(p)) && adjacent(p, down(p)) && adjacent(p, left(p)) && adjacent(
                p,
                right(p),
            ));
        }
        false
    }

    /// Whether some point next to `(row, col)`, other than
    /// `(skip_row, skip_col)`, is open.
    fn has_open_neighbor_besides(
        &self,
        row: usize,
        col: usize,
        skip_row: usize,
        skip_col: usize,
    ) -> (out: bool)
        requires
            self.wf(),
        ensures
            out == open_neighbor_besides(
                self@.grid,
                (row as int, col as int),
                (skip_row as int, skip_col as int),
            ),
    {
        let ghost g = self@.grid;
        let ghost p = (row as int, col as int);
        let ghost x = (skip_row as int, skip_col as int);
        let nbrs = self.get_neighbors(row, col);
        proof {
            lemma_neighbors(g, p);
        }
        let mut k: usize = 0;
        while k < nbrs.len()
            invariant
                self.wf(),
                g == self@.grid,
                p == (row as int, col as int),
                x == (skip_row as int, skip_col as int),
                k <= nbrs.len(),
                cells(nbrs@) == neighbors(g, p),
                forall|q: Cell| neighbors(g, p).contains(q) <==> on_board(g, q) && adjacent(p, q),
                forall|j: int|
                    0 <= j < k ==> !is_open(g, cell(#[trigger] nbrs[j])) || cell(nbrs[j]) == x,
            decreases nbrs.len() - k,
        {
            let (nr, nc) = nbrs[k];
            proof {
                lemma_listed_index(nbrs@, k as int);
                assert(neighbors(g, p).contains(cell(nbrs[k as int])));
            }
            if self.board[nr][nc] == Stone::Empty && !(nr == skip_row && nc == skip_col) {
                return true;
            }
            k += 1;
        }
        proof {
            assert forall|q: Cell| #[trigger] adjacent(p, q) implies !is_open(g, q) || q == x by {
                if on_board(g, q) {
                    assert(neighbors(g, p).contains(q));
                    let j = choose|j: int| 0 <= j < cells(nbrs@).len() && cells(nbrs@)[j] == q;
                    assert(cell(nbrs[j]) == q);
                }
            }
            assert(adjacent(p, up(p)) && adjacent(p, down(p)) && adjacent(p, left(p)) && adjacent(
                p,
                right(p),
            ));
        }
        false
    }

    /// Whether the point `(row, col)` is open or the group of its stone has
    /// a liberty. An open point counts as having liberties.
    pub fn has_liberties(&self, row: usize, col: usize) -> (out: bool)
        requires
            self.wf(),
            on_board(self@.grid, (row as int, col as int)),
        ensures
            out == alive(self@.grid, (row as int, col as int)),
    {
        let ghost g = self@.grid;
        let ghost p = (row as int, col as int);
        let stone = self.board[row][col];
        if stone == Stone::Empty {
            return true;
        }
        let group = self.get_group(row, col, stone);
        let mut i: usize = 0;
        while i < group.len()
            invariant
                self.wf(),
                g == self@.grid,
                p == (row as int, col as int),
                i <= group.len(),
                cells(group@).to_set() == chain(g, stone, p),
                forall|j: int| 0 <= j < i ==> !open_neighbor(g, cell(#[trigger] group[j])),
            decreases group.len() - i,
        {
            let (r, c) = group[i];
            if self.has_open_neighbor(r, c) {
                proof {
                    lemma_listed_index(group@, i as int);
                    assert(cells(group@).to_set().contains((r as int, c as int)));
                    assert(connected(g, stone, p, (r as int, c as int)));
                }
                return true;
            }
            i += 1;
        }
        proof {
            assert forall|q: Cell| connected(g, stone, p, q) implies !open_neighbor(g, q) by {
                assert(cells(group@).to_set().contains(q));
                let j = choose|j: int| 0 <= j < cells(group@).len() && cells(group@)[j] == q;
                assert(cell(group[j]) == q);
            }
        }
        false
    }

    /// Whether the chain of `group_stone` through `(group_row, group_col)`
    /// would be left without a liberty by a stone at
    /// `(new_stone_row, new_stone_col)`.
    pub fn would_group_be_captured(
        &self,
        group_row: usize,
        group_col: usize,
        group_stone: Stone,
        new_stone_row: usize,
        new_stone_col: usize,
    ) -> (out: bool)
        requires
            self.wf(),
            on_board(self@.grid, (group_row as int, group_col as int)),
        ensures
            out == !chain_has_liberty_besides(
                self@.grid,
                group_stone,
                (group_row as int, group_col as int),
                (new_stone_row as int, new_stone_col as int),
            ),
    {
        !self.has_liberty_besides(
            group_row,
            group_col,
            group_stone,
            new_stone_row,
            new_stone_col,
        )
    }

    /// Whether the chain of `stone` through `(row, col)` has a liberty other
    /// than `(skip_row, skip_col)`.
    fn has_liberty_besides(
        &self,
        row: usize,
        col: usize,
        stone: Stone,
        skip_row: usize,
        skip_col: usize,
    ) -> (out: bool)
        requires
            self.wf(),
            on_board(self@.grid, (row as int, col as int)),
        ensures
            out == chain_has_liberty_besides(
                self@.grid,
                stone,
                (row as int, col as int),
                (skip_row as int, skip_col as int),
            ),
    {
        let ghost g = self@.grid;
        let ghost p = (row as int, col as int);
        let ghost x = (skip_row as int, skip_col as int);
        let group = self.get_group(row, col, stone);
        let mut i: usize = 0;
        while i < group.len()
            invariant
                self.wf(),
                g == self@.grid,
                p == (row as int, col as int),
                x == (skip_row as int, skip_col as int),
                i <= group.len(),
                cells(group@).to_set() == chain(g, stone, p),
                forall|j: int|
                    0 <= j < i ==> !open_neighbor_besides(g, cell(#[trigger] group[j]), x),
            decreases group.len() - i,
        {
            let (r, c) = group[i];
            if self.has_open_neighbor_besides(r, c, skip_row, skip_col) {
                proof {
                    lemma_listed_index(group@, i as int);
                    assert(cells(group@).to_set().contains((r as int, c as int)));
                    assert(connected(g, stone, p, (r as int, c as int)));
                }
                return true;
            }
            i += 1;
        }
        proof {
            assert forall|q: Cell| connected(g, stone, p, q) implies !open_neighbor_besides(
                g,
                q,
                x,
            ) by {
                assert(cells(group@).to_set().contains(q));
                let j = choose|j: int| 0 <= j < cells(group@).len() && cells(group@)[j] == q;
                assert(cell(group[j]) == q);
            }
        }
        false
    }

    /// Whether the chain of `group_stone` through `(group_row, group_col)`,
    /// joined by a stone at `(new_row, new_col)`, would have a liberty: one
    /// of its own other than `(new_row, new_col)`, or an open point next to
    /// the new stone.
    pub fn would_friendly_group_have_liberties(
        &self,
        group_row: usize,
        group_col: usize,
        group_stone: Stone,
        new_row: usize,
        new_col: usize,
    ) -> (out: bool)
        requires
            self.wf(),
            on_board(self@.grid, (group_row as int, group_col as int)),
        ensures
            out == (chain_has_liberty_besides(
                self@.grid,
                group_stone,
                (group_row as int, group_col as int),
                (new_row as int, new_col as int),
            ) || open_neighbor(self@.grid, (new_row as int, new_col as int))),
    {
        if self.has_liberty_besides(group_row, group_col, group_stone, new_row, new_col) {
            return true;
        }
        self.has_open_neighbor(new_row, new_col)
    }

    /// Whether a stone of `player` at `(row, col)` would take the last
    /// liberty of a neighbouring chain of the other colour.
    pub fn would_capture_opponent(&self, row: usize, col: usize, player: Player) -> (out: bool)
        requires
            self.wf(),
        ensures
            out == captures_at(self@.grid, (row as int, col as int), player),
    {
        let ghost g = self@.grid;
        let ghost p = (row as int, col as int);
        let opponent_stone = player.other().to_stone();
        let nbrs = self.get_neighbors(row, col);
        proof {
            lemma_neighbors(g, p);
        }
        let mut k: usize = 0;
        while k < nbrs.len()
            invariant
                self.wf(),
                g == self@.grid,
                p == (row as int, col as int),
                opponent_stone == player.opponent().stone(),
                k <= nbrs.len(),
                cells(nbrs@) == neighbors(g, p),
                forall|q: Cell| neighbors(g, p).contains(q) <==> on_board(g, q) && adjacent(p, q),
                forall|j: int|
                    0 <= j < k ==> !(holds(g, cell(#[trigger] nbrs[j]), opponent_stone)
                        && !chain_has_liberty_besides(g, opponent_stone, cell(nbrs[j]), p)),
            decreases nbrs.len() - k,
        {
            let (nr, nc) = nbrs[k];
            proof {
                lemma_listed_index(nbrs@, k as int);
                assert(neighbors(g, p).contains(cell(nbrs[k as int])));
            }
            if self.board[nr][nc] == opponent_stone {
                if self.would_group_be_captured(nr, nc, opponent_stone, row, col) {
                    return true;
                }
            }
            k += 1;
        }
        proof {
            assert forall|q: Cell| #[trigger] adjacent(p, q) implies !(holds(g, q, opponent_stone)
                && !chain_has_liberty_besides(g, opponent_stone, q, p)) by {
                if on_board(g, q) {
                    assert(neighbors(g, p).contains(q));
                    let j = choose|j: int| 0 <= j < cells(nbrs@).len() && cells(nbrs@)[j] == q;
                    assert(cell(nbrs[j]) == q);
                }
            }
            assert(adjacent(p, up(p)) && adjacent(p, down(p)) && adjacent(p, left(p)) && adjacent(
                p,
                right(p),
            ));
        }
        false
    }

    /// Whether a stone of `player` at `(row, col)` would have no liberty of
    /// its own, captures left aside.
    pub fn would_be_suicide(&self, row: usize, col: usize, player: Player) -> (out: bool)
        requires
            self.wf(),
        ensures
            out == suicide_at(self@.grid, (row as int, col as int), player),
    {
        let ghost g = self@.grid;
        let ghost p = (row as int, col as int);
        let player_stone = player.to_stone();
        if self.has_open_neighbor(row, col) {
            return false;
        }
        let nbrs = self.get_neighbors(row, col);
        proof {
            lemma_neighbors(g, p);
        }
        let mut k: usize = 0;
        while k < nbrs.len()
            invariant
                self.wf(),
                g == self@.grid,
                p == (row as int, col as int),
                player_stone == player.stone(),
                !open_neighbor(g, p),
                k <= nbrs.len(),
                cells(nbrs@) == neighbors(g, p),
                forall|q: Cell| neighbors(g, p).contains(q) <==> on_board(g, q) && adjacent(p, q),
                forall|j: int|
                    0 <= j < k ==> !(holds(g, cell(#[trigger] nbrs[j]), player_stone)
                        && chain_has_liberty_besides(g, player_stone, cell(nbrs[j]), p)),
            decreases nbrs.len() - k,
        {
            let (nr, nc) = nbrs[k];
            proof {
                lemma_listed_index(nbrs@, k as int);
                assert(neighbors(g, p).contains(cell(nbrs[k as int])));
            }
            if self.board[nr][nc] == player_stone {
                if self.would_friendly_group_have_liberties(nr, nc, player_stone, row, col) {
                    return false;
                }
            }
            k += 1;
        }
        proof {
            assert forall|q: Cell| #[trigger] adjacent(p, q) implies !(holds(g, q, player_stone)
                && chain_has_liberty_besides(g, player_stone, q, p)) by {
                if on_board(g, q) {
                    assert(neighbors(g, p).contains(q));
                    let j = choose|j: int| 0 <= j < cells(nbrs@).len() && cells(nbrs@)[j] == q;
                    assert(cell(nbrs[j]) == q);
                }
            }
            assert(adjacent(p, up(p)) && adjacent(p, down(p)) && adjacent(p, left(p)) && adjacent(
                p,
                right(p),
            ));
        }
        true
    }

    /// Whether the side to move may place a stone at `(row, col)`.
    pub fn is_valid_move(&self, row: usize, col: usize) -> (out: bool)
        requires
            self.wf(),
            on_board(self@.grid, (row as int, col as int)),
        ensures
            out == legal(self@, (row as int, col as int)),
            self@.game_over ==> !out,
            stone_at(self@.grid, (row as int, col as int)) != Stone::Empty ==> !out,
    {
        if self.game_over || self.board[row][col] != Stone::Empty {
            return false;
        }
        let would_capture = self.would_capture_opponent(row, col, self.current_player);
        if !would_capture && self.would_be_suicide(row, col, self.current_player) {
            return false;
        }
        true
    }

    /// Takes every stone of colour `opponent` whose group has no liberty off
    /// the board, and returns how many stones that were. The groups are
    /// judged on the board as it is on entry: none is spared because
    /// another was taken first.
    pub fn capture_stones(&mut self, opponent: Stone) -> (captured: u32)
        requires
            old(self).wf(),
            dead_stones(old(self)@.grid, opponent).len() <= u32::MAX,
        ensures
            final(self).wf(),
            final(self)@ == (GameState {
                grid: cleared(old(self)@.grid, dead_stones(old(self)@.grid, opponent)),
                ..old(self)@
            }),
            captured == dead_stones(old(self)@.grid, opponent).len(),
            dead_stones(final(self)@.grid, opponent) == Set::<Cell>::empty(),
            every_group_alive(old(self)@.grid) ==> captured == 0 && final(self)@ == old(self)@,
    {
        let n = self.board_size;
        let ghost g = self@.grid;
        let ghost dead = dead_stones(g, opponent);
        proof {
            lemma_capture_leaves_none_dead(g, opponent);
            if every_group_alive(g) {
                lemma_nothing_to_capture(g, opponent);
            }
        }
        let mut queued: Vec<Vec<bool>> = vec![vec![false; n]; n];
        let mut to_remove: Vec<(usize, usize)> = Vec::new();
        let mut row: usize = 0;
        while row < n
            invariant
                self.wf(),
                *self == *old(self),
                g == self@.grid,
                n == g.len(),
                dead == dead_stones(g, opponent),
                row <= n,
                sweep_inv(g, opponent, queued@, to_remove@),
                forall|q: Cell|
                    dead.contains(q) && q.0 < row ==> #[trigger] listed(to_remove@, q),
            decreases n - row,
        {
            let mut col: usize = 0;
            while col < n
                invariant
                    self.wf(),
                    *self == *old(self),
                    g == self@.grid,
                    n == g.len(),
                    dead == dead_stones(g, opponent),
                    row < n,
                    col <= n,
                    sweep_inv(g, opponent, queued@, to_remove@),
                    forall|q: Cell|
                        dead.contains(q) && (q.0 < row || (q.0 == row && q.1 < col))
                            ==> #[trigger] listed(to_remove@, q),
                decreases n - col,
            {
                let ghost here = (row as int, col as int);
                if self.board[row][col] == opponent && !queued[row][col] && !self.has_liberties(
                    row,
                    col,
                ) {
                    let group = self.get_group(row, col, opponent);
                    let ghost before = to_remove@;
                    proof {
                        lemma_connected_self(g, opponent, here);
                    }
                    let mut i: usize = 0;
                    while i < group.len()
                        invariant
                            g == old(self)@.grid,
                            n == g.len(),
                            here == (row as int, col as int),
                            i <= group.len(),
                            cells(group@).no_duplicates(),
                            cells(group@).to_set() == chain(g, opponent, here),
                            holds(g, here, opponent),
                            !alive(g, here),
                            !listed(before, here),
                            holds_whole_chains(g, opponent, before),
                            sweep_shape(g, opponent, queued@, to_remove@),
                            forall|q: Cell| #[trigger]
                                listed(to_remove@, q) <==> listed(before, q) || listed(
                                    group@.take(i as int),
                                    q,
                                ),
                        decreases group.len() - i,
                    {
                        let (r, c) = group[i];
                        let ghost member = (r as int, c as int);
                        let ghost listed_so_far = to_remove@;
                        proof {
                            lemma_listed_index(group@, i as int);
                            assert(cells(group@).to_set().contains(member));
                            assert(connected(g, opponent, here, member));
                            lemma_connected_ends(g, opponent, here, member);
                            lemma_connected_same_liberty(g, opponent, here, member);
                            lemma_connected_symmetric(g, opponent, here, member);
                            if listed(group@.take(i as int), member) {
                                let j = choose|j: int|
                                    0 <= j < i && cells(group@.take(i as int))[j] == member;
                                assert(cells(group@)[j] == cells(group@)[i as int]);
                            }
                        }
                        queued[r][c] = true;
                        to_remove.push((r, c));
                        proof {
                            lemma_listed_push(listed_so_far, (r, c), member);
                            assert forall|a: int, b: int|
                                0 <= a < g.len() && 0 <= b < g.len()
                                    && #[trigger] queued@[a]@[b] implies listed(
                                to_remove@,
                                (a, b),
                            ) by {
                                lemma_listed_push(listed_so_far, (r, c), (a, b));
                            }
                            assert(group@.take(i + 1) =~= group@.take(i as int).push((r, c)));
                            assert forall|q: Cell| #[trigger]
                                listed(to_remove@, q) <==> listed(before, q) || listed(
                                    group@.take(i + 1),
                                    q,
                                ) by {
                                lemma_listed_push(listed_so_far, (r, c), q);
                                lemma_listed_push(group@.take(i as int), (r, c), q);
                                assert(listed(listed_so_far, q) <==> listed(before, q) || listed(
                                    group@.take(i as int),
                                    q,
                                ));
                            }
                        }
                        i += 1;
                    }
                    proof {
                        assert(group@.take(group.len() as int) =~= group@);
                        assert forall|q: Cell| #[trigger]
                            listed(to_remove@, q) <==> listed(before, q) || connected(
                                g,
                                opponent,
                                here,
                                q,
                            ) by {
                            assert(listed(group@, q) == cells(group@).to_set().contains(q));
                        }
                        assert forall|x: Cell, y: Cell|
                            listed(to_remove@, x) && #[trigger] connected(
                                g,
                                opponent,
                                x,
                                y,
                            ) implies listed(to_remove@, y) by {
                            assert(listed(to_remove@, y) <==> listed(before, y) || connected(
                                g,
                                opponent,
                                here,
                                y,
                            ));
                            if !listed(before, x) {
                                lemma_connected_transitive(g, opponent, here, x, y);
                            }
                        }
                        assert(listed(to_remove@, here));
                    }
                }
                col += 1;
            }
            row += 1;
        }
        proof {
            assert forall|q: Cell| dead.contains(q) <==> cells(to_remove@).to_set().contains(
                q,
            ) by {
                if dead.contains(q) {
                    assert(listed(to_remove@, q));
                }
            }
            assert(dead =~= cells(to_remove@).to_set());
            cells(to_remove@).unique_seq_to_set();
        }
        let captured = to_remove.len() as u32;
        let mut i: usize = 0;
        while i < to_remove.len()
            invariant
                self.board_size == n,
                self.board@.len() == n,
                forall|r: int| 0 <= r < n ==> (#[trigger] self.board@[r])@.len() == n,
                self.current_player == old(self).current_player,
                self.captured_black == old(self).captured_black,
                self.captured_white == old(self).captured_white,
                self.game_over == old(self).game_over,
                self.last_move == old(self).last_move,
                g == old(self)@.grid,
                n == g.len(),
                i <= to_remove.len(),
                forall|j: int| 0 <= j < to_remove.len() ==> on_board(g, cell(#[trigger] to_remove[j])),
                forall|r: int, c: int|
                    0 <= r < n && 0 <= c < n ==> #[trigger] self.board@[r]@[c] == (if listed(
                        to_remove@.take(i as int),
                        (r, c),
                    ) {
                        Stone::Empty
                    } else {
                        g[r][c]
                    }),
            decreases to_remove.len() - i,
        {
            let (r, c) = to_remove[i];
            let ghost done = to_remove@.take(i as int);
            self.board[r][c] = Stone::Empty;
            proof {
                assert(to_remove@.take(i + 1) =~= done.push((r, c)));
                assert forall|q: Cell|
                    listed(to_remove@.take(i + 1), q) <==> listed(done, q) || q == cell(
                        (r, c),
                    ) by {
                    lemma_listed_push(done, (r, c), q);
                }
            }
            i += 1;
        }
        proof {
            assert(to_remove@.take(to_remove.len() as int) =~= to_remove@);
            assert(self@.grid =~~= cleared(g, dead));
        }
        captured
    }

    /// Plays a stone of the side to move at `(row, col)` if that is legal:
    /// places it, takes the other side's stones that are left without a
    /// liberty off the board, adds them to the counter of their colour,
    /// and hands the turn over. An illegal move changes nothing. Returns
    /// whether the stone was played.
    pub fn make_move(&mut self, row: usize, col: usize) -> (ok: bool)
        requires
            old(self).wf(),
            on_board(old(self)@.grid, (row as int, col as int)),
            legal(old(self)@, (row as int, col as int)) ==> captures_fit(
                old(self)@,
                (row as int, col as int),
            ),
        ensures
            final(self).wf(),
            ok == legal(old(self)@, (row as int, col as int)),
            ok ==> final(self)@ == after_move(old(self)@, (row as int, col as int)),
            !ok ==> final(self)@ == old(self)@,
            old(self)@.game_over ==> !ok,
            stone_at(old(self)@.grid, (row as int, col as int)) != Stone::Empty ==> !ok,
            ok ==> stone_at(final(self)@.grid, (row as int, col as int)) == old(
                self,
            )@.to_move.stone(),
            every_group_alive(old(self)@.grid) ==> every_group_alive(final(self)@.grid),
    {
        if !self.is_valid_move(row, col) {
            return false;
        }
        let ghost before = self@;
        let ghost p = (row as int, col as int);
        proof {
            lemma_move_effect(before, p);
            if every_group_alive(before.grid) {
                lemma_move_keeps_groups_alive(before, p);
            }
        }
        self.board[row][col] = self.current_player.to_stone();
        self.last_move = Some((row, col));
        assert(self@.grid =~~= grid_with_move(before, p));
        let opponent_stone = self.current_player.other().to_stone();
        let captured = self.capture_stones(opponent_stone);
        match self.current_player {
            Player::Black => self.captured_white += captured,
            Player::White => self.captured_black += captured,
        }
        self.current_player = self.current_player.other();
        true
    }

    /// Hands the turn to the other side and changes nothing else, whether
    /// or not the game is over.
    pub fn pass_turn(&mut self)
        ensures
            final(self)@ == after_pass(old(self)@),
            final(self)@.grid == old(self)@.grid,
            final(self)@.captured_black == old(self)@.captured_black,
            final(self)@.captured_white == old(self)@.captured_white,
            final(self)@.to_move == old(self)@.to_move.opponent(),
            old(self).wf() ==> final(self).wf(),
    {
        self.current_player = self.current_player.other();
    }

    /// Starts over: an empty board of the default size, whatever size the
    /// board had, Black to move, nothing captured, no last move.
    pub fn reset(&mut self)
        ensures
            final(self).wf(),
            final(self)@ == initial_state(DEFAULT_BOARD_SIZE as nat),
            every_group_alive(final(self)@.grid),
    {
        *self = GoBoard::default();
    }

    /// Declares the game over, or open again. No move is accepted while the
    /// game is over.
    pub fn set_game_over(&mut self, over: bool)
        ensures
            final(self)@ == (GameState { game_over: over, ..old(self)@ }),
            old(self).wf() ==> final(self).wf(),
    {
        self.game_over = over;
    }

    /// The side of the board.
    pub fn board_size(&self) -> (out: usize)
        requires
            self.wf(),
        ensures
            out == self@.grid.len(),
    {
        self.board_size
    }

    /// The stones on the board, row by row.
    pub fn board(&self) -> (out: &Vec<Vec<Stone>>)
        ensures
            out@.len() == self@.grid.len(),
            forall|r: int| 0 <= r < out@.len() ==> (#[trigger] out@[r])@ == self@.grid[r],
    {
        &self.board
    }

    /// The side to move.
    pub fn current_player(&self) -> (out: Player)
        ensures
            out == self@.to_move,
    {
        self.current_player
    }

    /// How many black stones have been captured.
    pub fn captured_black(&self) -> (out: u32)
        ensures
            out == self@.captured_black,
    {
        self.captured_black
    }

    /// How many white stones have been captured.
    pub fn captured_white(&self) -> (out: u32)
        ensures
            out == self@.captured_white,
    {
        self.captured_white
    }

    /// Whether the game has been declared over.
    pub fn game_over(&self) -> (out: bool)
        ensures
            out == self@.game_over,
    {
        self.game_over
    }

    /// Where the last stone was played, if any has been.
    pub fn last_move(&self) -> (out: Option<(usize, usize)>)
        ensures
            match out {
                Some(p) => self@.last_move == Some(cell(p)),
                None => self@.last_move is None,
            },
    {
        self.last_move
    }
}

} // verus!
