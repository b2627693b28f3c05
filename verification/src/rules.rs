//! The state of a game and the rules that decide which moves are legal and
//! what a move does.

use vstd::prelude::*;
use crate::position::{
    chain_has_liberty_besides, cleared, dead_stones, down, empty_grid, every_group_alive, holds,
    is_open, is_square, left, on_board, open_neighbor, placed, right, stone_at, up, Cell, Grid,
};
use crate::stone::{Player, Stone};

verus! {

/// Everything a game consists of at one moment.
///
/// `captured_black` counts the black stones that have been taken off the
/// board, and `captured_white` the white ones: each counter is named after
/// the colour that was captured, not after the side that captured.
pub struct GameState {
    pub grid: Grid,
    pub to_move: Player,
    pub captured_black: nat,
    pub captured_white: nat,
    pub game_over: bool,
    pub last_move: Option<Cell>,
}

/// The start of a game on a board of side `n`: no stones, Black to move,
/// nothing captured.
pub open spec fn initial_state(n: nat) -> GameState {
    GameState {
        grid: empty_grid(n),
        to_move: Player::Black,
        captured_black: 0,
        captured_white: 0,
        game_over: false,
        last_move: None,
    }
}

/// The last move, where one is recorded, names a point of the board that
/// holds a stone.
pub open spec fn last_move_marks_stone(st: GameState) -> bool {
    match st.last_move {
        Some(p) => on_board(st.grid, p) && stone_at(st.grid, p) != Stone::Empty,
        None => true,
    }
}

/// What holds of a state throughout a game: the grid is square, every group
/// on it has a liberty, and the last move names a stone.
pub open spec fn sound(st: GameState) -> bool {
    &&& is_square(st.grid)
    &&& every_group_alive(st.grid)
    &&& last_move_marks_stone(st)
}

/// A stone of `mover` at `p` would take the last liberty of a neighbouring
/// chain of the other colour.
pub open spec fn captures_at(g: Grid, p: Cell, mover: Player) -> bool {
    let theirs = mover.opponent().stone();
    ||| holds(g, up(p), theirs) && !chain_has_liberty_besides(g, theirs, up(p), p)
    ||| holds(g, down(p), theirs) && !chain_has_liberty_besides(g, theirs, down(p), p)
    ||| holds(g, left(p), theirs) && !chain_has_liberty_besides(g, theirs, left(p), p)
    ||| holds(g, right(p), theirs) && !chain_has_liberty_besides(g, theirs, right(p), p)
}

/// A stone of `mover` at `p` would have no liberty of its own: no point next
/// to `p` is open, and no neighbouring chain of the mover's colour has a
/// liberty other than `p`.
pub open spec fn suicide_at(g: Grid, p: Cell, mover: Player) -> bool {
    let mine = mover.stone();
    &&& !open_neighbor(g, p)
    &&& !(holds(g, up(p), mine) && chain_has_liberty_besides(g, mine, up(p), p))
    &&& !(holds(g, down(p), mine) && chain_has_liberty_besides(g, mine, down(p), p))
    &&& !(holds(g, left(p), mine) && chain_has_liberty_besides(g, mine, left(p), p))
    &&& !(holds(g, right(p), mine) && chain_has_liberty_besides(g, mine, right(p), p))
}

/// The side to move may place a stone at `p`: the game is not over, the
/// point is open, and the stone captures or is no suicide.
pub open spec fn legal(st: GameState, p: Cell) -> bool {
    &&& !st.game_over
    &&& is_open(st.grid, p)
    &&& captures_at(st.grid, p, st.to_move) || !suicide_at(st.grid, p, st.to_move)
}

/// The grid once the side to move has placed a stone at `p`, before
/// captures are taken off.
pub open spec fn grid_with_move(st: GameState, p: Cell) -> Grid {
    placed(st.grid, p, st.to_move.stone())
}

/// The stones that a move at `p` captures: the stones of the other colour
/// that are left without a liberty once the stone stands at `p`.
pub open spec fn captured_by_move(st: GameState, p: Cell) -> Set<Cell> {
    dead_stones(grid_with_move(st, p), st.to_move.opponent().stone())
}

/// The state after the side to move has played at `p`.
pub open spec fn after_move(st: GameState, p: Cell) -> GameState {
    let taken = captured_by_move(st, p);
    GameState {
        grid: cleared(grid_with_move(st, p), taken),
        to_move: st.to_move.opponent(),
        captured_black: if st.to_move == Player::White {
            st.captured_black + taken.len()
        } else {
            st.captured_black
        },
        captured_white: if st.to_move == Player::Black {
            st.captured_white + taken.len()
        } else {
            st.captured_white
        },
        game_over: st.game_over,
        last_move: Some(p),
    }
}

/// The counter of the colour that a move at `p` captures has room for the
/// stones that the move takes.
pub open spec fn captures_fit(st: GameState, p: Cell) -> bool {
    let taken = captured_by_move(st, p).len();
    match st.to_move {
        Player::Black => st.captured_white + taken <= u32::MAX,
        Player::White => st.captured_black + taken <= u32::MAX,
    }
}

/// The state after the side to move has passed.
pub open spec fn after_pass(st: GameState) -> GameState {
    GameState { to_move: st.to_move.opponent(), ..st }
}

/// One turn of a game: a stone at a point, or a pass.
pub enum Turn {
    Play(Cell),
    Pass,
}

/// The state after one turn. A stone that may not be placed leaves the
/// state as it is.
pub open spec fn after_turn(st: GameState, turn: Turn) -> GameState {
    match turn {
        Turn::Play(p) => if on_board(st.grid, p) && legal(st, p) {
            after_move(st, p)
        } else {
            st
        },
        Turn::Pass => after_pass(st),
    }
}

/// The state after a series of turns, taken in order.
pub open spec fn after_turns(st: GameState, turns: Seq<Turn>) -> GameState
    decreases turns.len(),
{
    if turns.len() == 0 {
        st
    } else {
        after_turn(after_turns(st, turns.drop_last()), turns.last())
    }
}

} // verus!
