//! What holds of every game: the theorems that the rules in
//! [`crate::rules`] were written to satisfy.

use vstd::prelude::*;
use crate::connectivity::{
    closed_under_steps, lemma_closed_set_holds_chain, lemma_connected_ends,
    lemma_connected_same_liberty, lemma_connected_self, lemma_connected_step,
    lemma_connected_symmetric, lemma_connected_transitive,
};
use crate::counting::lemma_cells_on_board_bounded;
use crate::placement::{
    lemma_capture_on_placed_grid, lemma_chain_carries_over, lemma_cleared,
    lemma_open_after_placing, lemma_other_chain_after_placing, lemma_placed,
    lemma_suicide_on_placed_grid,
};
use crate::position::{
    adjacent, alive, chain_has_liberty_besides, cleared, connected, dead_stones,
    every_group_alive, group, holds, is_open, is_square, on_board, open_neighbor,
    open_neighbor_besides, stone_at, Cell, Grid,
};
use crate::rules::{
    after_move, after_pass, after_turn, after_turns, captured_by_move, captures_at,
    grid_with_move, initial_state, legal, sound, GameState, Turn,
};
use crate::stone::{Player, Stone};

verus! {

/// The group of a stone is the maximal 4-connected set of stones of its
/// colour that contains it: it holds the stone; its points all hold the
/// colour and are joined to each other by walks over the colour; no point
/// of the colour borders it from outside; and it lies within every set that
/// holds the stone and is closed under steps over the colour.
pub proof fn lemma_group_is_maximal_component(g: Grid, p: Cell)
    requires
        on_board(g, p),
    ensures
        group(g, p).contains(p),
        forall|q: Cell| #[trigger] group(g, p).contains(q) ==> holds(g, q, stone_at(g, p)),
        forall|q: Cell, r: Cell|
            group(g, p).contains(q) && group(g, p).contains(r) ==> #[trigger] connected(
                g,
                stone_at(g, p),
                q,
                r,
            ),
        closed_under_steps(g, stone_at(g, p), group(g, p)),
        forall|set: Set<Cell>|
            set.contains(p) && #[trigger] closed_under_steps(g, stone_at(g, p), set) ==> group(
                g,
                p,
            ).subset_of(set),
{
    let s = stone_at(g, p);
    lemma_connected_self(g, s, p);
    assert forall|q: Cell| #[trigger] group(g, p).contains(q) implies holds(g, q, s) by {
        lemma_connected_ends(g, s, p, q);
    }
    assert forall|q: Cell, r: Cell|
        group(g, p).contains(q) && group(g, p).contains(r) implies #[trigger] connected(
        g,
        s,
        q,
        r,
    ) by {
        lemma_connected_symmetric(g, s, p, q);
        lemma_connected_transitive(g, s, q, p, r);
    }
    assert forall|x: Cell, y: Cell|
        group(g, p).contains(x) && #[trigger] adjacent(x, y) && holds(g, y, s) implies group(
        g,
        p,
    ).contains(y) by {
        lemma_connected_step(g, s, p, x, y);
    }
    assert forall|set: Set<Cell>|
        set.contains(p) && #[trigger] closed_under_steps(g, s, set) implies group(g, p).subset_of(
        set,
    ) by {
        assert forall|q: Cell| group(g, p).contains(q) implies set.contains(q) by {
            lemma_closed_set_holds_chain(g, s, p, q, set);
        }
    }
}

/// What a move does: the stone stands at `p`; every stone it captures is
/// off the board; every other point is as before; the turn passes to the
/// other side; the move is recorded as the last; the counter of the
/// captured colour grows by the number of stones taken and the other
/// counter stays.
pub proof fn lemma_move_effect(st: GameState, p: Cell)
    requires
        is_square(st.grid),
        is_open(st.grid, p),
    ensures
        is_square(after_move(st, p).grid),
        after_move(st, p).grid.len() == st.grid.len(),
        stone_at(after_move(st, p).grid, p) == st.to_move.stone(),
        forall|q: Cell|
            captured_by_move(st, p).contains(q) ==> #[trigger] is_open(after_move(st, p).grid, q),
        forall|q: Cell|
            on_board(st.grid, q) && q != p && !captured_by_move(st, p).contains(q)
                ==> #[trigger] stone_at(after_move(st, p).grid, q) == stone_at(st.grid, q),
        forall|q: Cell|
            captured_by_move(st, p).contains(q) ==> holds(
                st.grid,
                q,
                st.to_move.opponent().stone(),
            ),
        after_move(st, p).to_move == st.to_move.opponent(),
        after_move(st, p).last_move == Some(p),
        after_move(st, p).game_over == st.game_over,
        after_move(st, p).captured_black + after_move(st, p).captured_white == st.captured_black
            + st.captured_white + captured_by_move(st, p).len(),
        st.to_move == Player::Black ==> after_move(st, p).captured_black == st.captured_black,
        st.to_move == Player::White ==> after_move(st, p).captured_white == st.captured_white,
{
    let h = grid_with_move(st, p);
    lemma_placed(st.grid, p, st.to_move.stone());
    lemma_cleared(h, captured_by_move(st, p));
    assert forall|q: Cell| captured_by_move(st, p).contains(q) implies q != p && holds(
        st.grid,
        q,
        st.to_move.opponent().stone(),
    ) by {
        if q != p {
            assert(stone_at(h, q) == stone_at(st.grid, q));
        }
    }
    assert forall|q: Cell|
        on_board(st.grid, q) && q != p && !captured_by_move(st, p).contains(
            q,
        ) implies #[trigger] stone_at(after_move(st, p).grid, q) == stone_at(st.grid, q) by {
        assert(stone_at(h, q) == stone_at(st.grid, q));
    }
}

/// A stone may be placed on an open point exactly when, on the grid with the
/// stone placed, a stone of the other colour next to it is dead or the
/// placed stone's own group has a liberty.
pub proof fn lemma_legal_on_placed_grid(st: GameState, p: Cell)
    requires
        is_square(st.grid),
        on_board(st.grid, p),
    ensures
        legal(st, p) == (!st.game_over && is_open(st.grid, p) && ((exists|q: Cell|
            #[trigger] adjacent(p, q) && holds(
                grid_with_move(st, p),
                q,
                st.to_move.opponent().stone(),
            ) && !alive(grid_with_move(st, p), q)) || alive(grid_with_move(st, p), p))),
{
    if is_open(st.grid, p) {
        lemma_capture_on_placed_grid(st.grid, p, st.to_move);
        lemma_suicide_on_placed_grid(st.grid, p, st.to_move);
    }
}

/// Suicide is rejected: a stone whose group would have no liberty, and
/// which would capture nothing, may not be placed.
pub proof fn lemma_suicide_is_illegal(st: GameState, p: Cell)
    requires
        is_square(st.grid),
        on_board(st.grid, p),
        !alive(grid_with_move(st, p), p),
        captured_by_move(st, p) == Set::<Cell>::empty(),
    ensures
        !legal(st, p),
{
    lemma_legal_on_placed_grid(st, p);
    assert forall|q: Cell|
        holds(grid_with_move(st, p), q, st.to_move.opponent().stone()) implies alive(
        grid_with_move(st, p),
        q,
    ) by {
        assert(!captured_by_move(st, p).contains(q));
    }
}

/// A capture is never suicide: a stone that leaves a neighbouring stone `q`
/// of the other colour without a liberty may be placed, whether or not it
/// would have a liberty of its own. After the move the stone stands at
/// `p`, `q` is open and so a liberty of the new stone, and the stones
/// taken have been added to the counter of their colour.
pub proof fn lemma_capture_is_legal(st: GameState, p: Cell, q: Cell)
    requires
        is_square(st.grid),
        !st.game_over,
        is_open(st.grid, p),
        adjacent(p, q),
        holds(grid_with_move(st, p), q, st.to_move.opponent().stone()),
        !alive(grid_with_move(st, p), q),
    ensures
        legal(st, p),
        captured_by_move(st, p).contains(q),
        stone_at(after_move(st, p).grid, p) == st.to_move.stone(),
        is_open(after_move(st, p).grid, q),
        alive(after_move(st, p).grid, p),
        st.to_move == Player::Black ==> after_move(st, p).captured_white == st.captured_white
            + captured_by_move(st, p).len() && after_move(st, p).captured_black
            == st.captured_black,
        st.to_move == Player::White ==> after_move(st, p).captured_black == st.captured_black
            + captured_by_move(st, p).len() && after_move(st, p).captured_white
            == st.captured_white,
{
    let mine = st.to_move.stone();
    let h = grid_with_move(st, p);
    let after = after_move(st, p).grid;
    lemma_legal_on_placed_grid(st, p);
    lemma_placed(st.grid, p, mine);
    lemma_cleared(h, captured_by_move(st, p));
    assert(stone_at(after, p) == mine);
    assert(stone_at(after, q) == Stone::Empty);
    lemma_connected_self(after, mine, p);
    assert(open_neighbor(after, p));
}

/// Stones that stay on the board stay connected: where `b` is not taken,
/// its whole chain is still there once the dead stones of colour `t` have
/// been cleared.
proof fn lemma_chain_survives(h: Grid, t: Stone, s: Stone, b: Cell, c: Cell)
    requires
        is_square(h),
        s != Stone::Empty,
        holds(h, b, s),
        s == t ==> alive(h, b),
        connected(h, s, b, c),
    ensures
        connected(cleared(h, dead_stones(h, t)), s, b, c),
{
    let gone = dead_stones(h, t);
    let after = cleared(h, gone);
    lemma_cleared(h, gone);
    assert forall|z: Cell| #[trigger] connected(h, s, b, z) implies holds(after, z, s) by {
        lemma_connected_ends(h, s, b, z);
        lemma_connected_same_liberty(h, s, b, z);
        assert(!gone.contains(z));
    }
    lemma_chain_carries_over(h, after, s, b, c);
}

/// Clearing stones closes no liberty.
proof fn lemma_open_stays_open(h: Grid, gone: Set<Cell>, c: Cell)
    requires
        is_square(h),
        open_neighbor(h, c),
    ensures
        open_neighbor(cleared(h, gone), c),
{
    lemma_cleared(h, gone);
}

/// Captures are counted in finite numbers: the dead stones of a colour are
/// no more than the board has points, and so are the stones that one move
/// takes.
pub proof fn lemma_captures_bounded(st: GameState, p: Cell, t: Stone)
    requires
        is_square(st.grid),
        on_board(st.grid, p),
    ensures
        dead_stones(st.grid, t).finite(),
        dead_stones(st.grid, t).len() <= st.grid.len() * st.grid.len(),
        captured_by_move(st, p).finite(),
        captured_by_move(st, p).len() <= st.grid.len() * st.grid.len(),
{
    lemma_placed(st.grid, p, st.to_move.stone());
    lemma_cells_on_board_bounded(st.grid, dead_stones(st.grid, t));
    lemma_cells_on_board_bounded(grid_with_move(st, p), captured_by_move(st, p));
}

/// Capture resolution is complete: once the dead stones of a colour have
/// been cleared, no stone of that colour is left without a liberty.
pub proof fn lemma_capture_leaves_none_dead(g: Grid, t: Stone)
    requires
        is_square(g),
    ensures
        dead_stones(cleared(g, dead_stones(g, t)), t) == Set::<Cell>::empty(),
{
    let gone = dead_stones(g, t);
    let after = cleared(g, gone);
    lemma_cleared(g, gone);
    assert forall|b: Cell| holds(after, b, t) implies alive(after, b) by {
        if t != Stone::Empty {
            assert(holds(g, b, t) && !gone.contains(b));
            let c = choose|c: Cell| #[trigger] connected(g, t, b, c) && open_neighbor(g, c);
            lemma_chain_survives(g, t, t, b, c);
            lemma_open_stays_open(g, gone, c);
        }
    }
    assert(dead_stones(after, t) =~= Set::<Cell>::empty());
}

/// Where every group has a liberty, capture resolution takes nothing.
pub proof fn lemma_nothing_to_capture(g: Grid, t: Stone)
    requires
        is_square(g),
        every_group_alive(g),
    ensures
        dead_stones(g, t) == Set::<Cell>::empty(),
        cleared(g, dead_stones(g, t)) == g,
{
    assert(dead_stones(g, t) =~= Set::<Cell>::empty());
    assert(cleared(g, dead_stones(g, t)) =~~= g);
}

/// After a legal move on a board where every group was alive, the point
/// `b` is open or its group has a liberty.
proof fn lemma_point_alive_after_move(st: GameState, p: Cell, b: Cell)
    requires
        is_square(st.grid),
        on_board(st.grid, p),
        legal(st, p),
        every_group_alive(st.grid),
        on_board(st.grid, b),
    ensures
        alive(after_move(st, p).grid, b),
{
    let g = st.grid;
    let mine = st.to_move.stone();
    let theirs = st.to_move.opponent().stone();
    let h = grid_with_move(st, p);
    let gone = captured_by_move(st, p);
    let after = after_move(st, p).grid;
    lemma_placed(g, p, mine);
    lemma_cleared(h, gone);
    lemma_open_after_placing(g, p, mine);
    lemma_capture_on_placed_grid(g, p, st.to_move);
    lemma_suicide_on_placed_grid(g, p, st.to_move);
    lemma_connected_self(h, mine, p);
    let s = stone_at(after, b);
    if s != Stone::Empty {
        assert(holds(h, b, s));
        assert(!gone.contains(b));
        // a point `c` of the chain of `b` that has a liberty once the
        // captured stones are gone
        let c: Cell;
        if s == theirs {
            c = choose|c: Cell| #[trigger] connected(h, s, b, c) && open_neighbor(h, c);
            lemma_open_stays_open(h, gone, c);
        } else if connected(h, mine, p, b) {
            lemma_connected_symmetric(h, mine, p, b);
            if captures_at(g, p, st.to_move) {
                let q = choose|q: Cell|
                    #[trigger] adjacent(p, q) && holds(h, q, theirs) && !alive(h, q);
                assert(gone.contains(q));
                assert(is_open(after, q));
                c = p;
            } else {
                let d = choose|d: Cell| #[trigger] connected(h, mine, p, d) && open_neighbor(h, d);
                lemma_connected_transitive(h, mine, b, p, d);
                lemma_open_stays_open(h, gone, d);
                c = d;
            }
        } else {
            assert(b != p);
            assert(stone_at(g, b) == mine);
            assert(alive(g, b));
            c = choose|c: Cell| #[trigger] connected(g, mine, b, c) && open_neighbor(g, c);
            assert forall|z: Cell| #[trigger] connected(g, mine, b, z) implies holds(
                h,
                z,
                mine,
            ) by {
                lemma_connected_ends(g, mine, b, z);
                if z != p {
                    assert(stone_at(h, z) == stone_at(g, z));
                }
            }
            lemma_chain_carries_over(g, h, mine, b, c);
            if adjacent(c, p) {
                lemma_connected_step(h, mine, b, c, p);
                lemma_connected_symmetric(h, mine, b, p);
            }
            assert(open_neighbor_besides(g, c, p));
            assert(open_neighbor(h, c));
            lemma_open_stays_open(h, gone, c);
        }
        lemma_chain_survives(h, theirs, s, b, c);
        assert(connected(after, s, b, c) && open_neighbor(after, c));
    }
}

/// A legal move keeps every group alive: if every group on the board has a
/// liberty before the move, every group has one after it.
pub proof fn lemma_move_keeps_groups_alive(st: GameState, p: Cell)
    requires
        is_square(st.grid),
        on_board(st.grid, p),
        legal(st, p),
        every_group_alive(st.grid),
    ensures
        is_square(after_move(st, p).grid),
        after_move(st, p).grid.len() == st.grid.len(),
        every_group_alive(after_move(st, p).grid),
{
    let after = after_move(st, p).grid;
    lemma_placed(st.grid, p, st.to_move.stone());
    lemma_cleared(grid_with_move(st, p), captured_by_move(st, p));
    assert forall|b: Cell| on_board(after, b) implies #[trigger] alive(after, b) by {
        lemma_point_alive_after_move(st, p, b);
    }
}

/// On a board where every group has a liberty, a stone may be placed on an
/// open point exactly when its own group has a liberty once the move is
/// done, captures included.
pub proof fn lemma_legal_iff_stone_lives(st: GameState, p: Cell)
    requires
        is_square(st.grid),
        every_group_alive(st.grid),
        !st.game_over,
        is_open(st.grid, p),
    ensures
        legal(st, p) == alive(after_move(st, p).grid, p),
{
    let g = st.grid;
    let mine = st.to_move.stone();
    let theirs = st.to_move.opponent().stone();
    let h = grid_with_move(st, p);
    if legal(st, p) {
        lemma_point_alive_after_move(st, p, p);
    } else {
        lemma_placed(g, p, mine);
        lemma_suicide_on_placed_grid(g, p, st.to_move);
        assert forall|q: Cell| holds(h, q, theirs) implies alive(h, q) by {
            assert(q != p);
            assert(stone_at(h, q) == stone_at(g, q));
            assert(alive(g, q));
            let c = choose|c: Cell| #[trigger] connected(g, theirs, q, c) && open_neighbor(g, c);
            lemma_connected_ends(g, theirs, q, c);
            lemma_connected_same_liberty(g, theirs, q, c);
            lemma_connected_self(g, theirs, c);
            lemma_other_chain_after_placing(g, p, mine, theirs, q);
            if open_neighbor_besides(g, c, p) {
                assert(chain_has_liberty_besides(g, theirs, c, p));
            } else {
                assert(adjacent(p, c));
                assert(chain_has_liberty_besides(g, theirs, c, p));
            }
        }
        assert(captured_by_move(st, p) =~= Set::<Cell>::empty());
        assert(cleared(h, captured_by_move(st, p)) =~~= h);
    }
}

/// The start of a game is sound.
pub proof fn lemma_initial_state_is_sound(n: nat)
    ensures
        sound(initial_state(n)),
        initial_state(n).grid.len() == n,
{
}

/// Every turn keeps a state sound, and the board its size: a stone that is
/// played leaves no group without a liberty, a stone that is refused and a
/// pass leave the board as it is.
pub proof fn lemma_turn_keeps_state_sound(st: GameState, turn: Turn)
    requires
        sound(st),
    ensures
        sound(after_turn(st, turn)),
        after_turn(st, turn).grid.len() == st.grid.len(),
{
    match turn {
        Turn::Play(p) => {
            if on_board(st.grid, p) && legal(st, p) {
                lemma_move_keeps_groups_alive(st, p);
                lemma_move_effect(st, p);
            }
        },
        Turn::Pass => {},
    }
}

/// From the start of a game on a board of any size, after any series of
/// turns, every group on the board has at least one liberty, and the last
/// move names a stone.
pub proof fn lemma_game_stays_sound(n: nat, turns: Seq<Turn>)
    ensures
        sound(after_turns(initial_state(n), turns)),
        every_group_alive(after_turns(initial_state(n), turns).grid),
        after_turns(initial_state(n), turns).grid.len() == n,
    decreases turns.len(),
{
    if turns.len() == 0 {
        lemma_initial_state_is_sound(n);
    } else {
        lemma_game_stays_sound(n, turns.drop_last());
        lemma_turn_keeps_state_sound(
            after_turns(initial_state(n), turns.drop_last()),
            turns.last(),
        );
    }
}

/// A pass hands the turn over and changes neither the grid nor a counter,
/// whether the game is over or not.
pub proof fn lemma_pass_changes_the_turn_only(st: GameState)
    ensures
        after_pass(st).to_move == st.to_move.opponent(),
        after_pass(st).to_move != st.to_move,
        after_pass(st).grid == st.grid,
        after_pass(st).captured_black == st.captured_black,
        after_pass(st).captured_white == st.captured_white,
        after_pass(st).game_over == st.game_over,
        after_pass(st).last_move == st.last_move,
{
}

} // verus!
