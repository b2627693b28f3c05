use go_board::board::GoBoard;
use go_board::stone::{Player, Stone};

/// Plays a stone of `player` at `(row, col)`, passing first if it is the
/// other side's turn.
fn place(b: &mut GoBoard, player: Player, row: usize, col: usize) {
    if b.current_player() != player {
        b.pass_turn();
    }
    assert!(b.make_move(row, col), "move at ({row}, {col}) was refused");
}

fn stones(b: &GoBoard) -> Vec<(usize, usize, Stone)> {
    let mut out = Vec::new();
    for r in 0..b.board_size() {
        for c in 0..b.board_size() {
            if b.board()[r][c] != Stone::Empty {
                out.push((r, c, b.board()[r][c]));
            }
        }
    }
    out
}

#[test]
fn player_other_swaps_sides() {
    assert_eq!(Player::Black.other(), Player::White);
    assert_eq!(Player::White.other(), Player::Black);
    assert_eq!(Player::Black.other().other(), Player::Black);
}

#[test]
fn player_to_stone_keeps_colour() {
    assert_eq!(Player::Black.to_stone(), Stone::Black);
    assert_eq!(Player::White.to_stone(), Stone::White);
}

#[test]
fn new_board_is_empty_with_black_to_move() {
    let b = GoBoard::with_size(9);
    assert_eq!(b.board_size(), 9);
    assert_eq!(b.board().len(), 9);
    assert!(b.board().iter().all(|row| row.len() == 9));
    assert!(stones(&b).is_empty());
    assert_eq!(b.current_player(), Player::Black);
    assert_eq!(b.captured_black(), 0);
    assert_eq!(b.captured_white(), 0);
    assert!(!b.game_over());
    assert_eq!(b.last_move(), None);
}

#[test]
fn default_board_has_nineteen_lines() {
    let b = GoBoard::default();
    assert_eq!(b.board_size(), 19);
    assert!(stones(&b).is_empty());
    let c = GoBoard::_new();
    assert_eq!(c.board_size(), 19);
    assert_eq!(c.current_player(), Player::Black);
}

#[test]
fn board_of_side_one_accepts_no_stone() {
    let mut b = GoBoard::with_size(1);
    assert!(b.get_neighbors(0, 0).is_empty());
    assert!(!b.is_valid_move(0, 0));
    assert!(!b.make_move(0, 0));
    assert!(stones(&b).is_empty());
}

#[test]
fn first_move_places_a_black_stone() {
    let mut b = GoBoard::with_size(9);
    assert!(b.is_valid_move(2, 3));
    assert!(b.make_move(2, 3));
    assert_eq!(b.board()[2][3], Stone::Black);
    assert_eq!(stones(&b), vec![(2, 3, Stone::Black)]);
    assert_eq!(b.current_player(), Player::White);
    assert_eq!(b.last_move(), Some((2, 3)));
    assert_eq!(b.captured_black(), 0);
    assert_eq!(b.captured_white(), 0);
}

#[test]
fn players_alternate_after_each_accepted_move() {
    let mut b = GoBoard::with_size(9);
    assert!(b.make_move(0, 0));
    assert_eq!(b.current_player(), Player::White);
    assert!(b.make_move(5, 5));
    assert_eq!(b.current_player(), Player::Black);
    assert_eq!(b.board()[0][0], Stone::Black);
    assert_eq!(b.board()[5][5], Stone::White);
    assert_eq!(b.last_move(), Some((5, 5)));
}

#[test]
fn move_on_occupied_point_is_refused_and_changes_nothing() {
    let mut b = GoBoard::with_size(9);
    place(&mut b, Player::Black, 4, 4);
    place(&mut b, Player::White, 4, 5);
    let before = stones(&b);
    for (row, col) in [(4, 4), (4, 5)] {
        assert!(!b.is_valid_move(row, col));
        assert!(!b.make_move(row, col));
        assert_eq!(stones(&b), before);
        assert_eq!(b.current_player(), Player::Black);
        assert_eq!(b.last_move(), Some((4, 5)));
        assert_eq!(b.captured_black(), 0);
        assert_eq!(b.captured_white(), 0);
    }
}

#[test]
fn no_move_is_accepted_once_the_game_is_over() {
    let mut b = GoBoard::with_size(9);
    place(&mut b, Player::Black, 4, 4);
    b.set_game_over(true);
    assert!(b.game_over());
    for row in 0..9 {
        for col in 0..9 {
            assert!(!b.is_valid_move(row, col));
            assert!(!b.make_move(row, col));
        }
    }
    assert_eq!(stones(&b), vec![(4, 4, Stone::Black)]);
    assert_eq!(b.current_player(), Player::White);
    b.set_game_over(false);
    assert!(b.make_move(0, 0));
    assert_eq!(b.board()[0][0], Stone::White);
}

#[test]
fn pass_flips_the_turn_and_nothing_else() {
    let mut b = GoBoard::with_size(9);
    place(&mut b, Player::Black, 4, 4);
    place(&mut b, Player::White, 3, 3);
    let before = stones(&b);
    b.pass_turn();
    assert_eq!(b.current_player(), Player::White);
    assert_eq!(stones(&b), before);
    assert_eq!(b.captured_black(), 0);
    assert_eq!(b.captured_white(), 0);
    assert_eq!(b.last_move(), Some((3, 3)));
    assert!(!b.game_over());
    b.pass_turn();
    assert_eq!(b.current_player(), Player::Black);
}

#[test]
fn pass_flips_the_turn_even_when_the_game_is_over() {
    let mut b = GoBoard::with_size(9);
    place(&mut b, Player::Black, 4, 4);
    b.set_game_over(true);
    let before = stones(&b);
    b.pass_turn();
    assert_eq!(b.current_player(), Player::Black);
    assert!(b.game_over());
    assert_eq!(stones(&b), before);
    b.pass_turn();
    assert_eq!(b.current_player(), Player::White);
}

#[test]
fn reset_restores_the_default_board_whatever_the_size_was() {
    let mut b = GoBoard::with_size(9);
    place(&mut b, Player::White, 0, 1);
    place(&mut b, Player::Black, 0, 2);
    place(&mut b, Player::Black, 1, 1);
    place(&mut b, Player::Black, 0, 0);
    assert_eq!(b.captured_white(), 1);
    b.set_game_over(true);
    b.reset();
    assert_eq!(b.board_size(), 19);
    assert_eq!(b.board().len(), 19);
    assert!(b.board().iter().all(|row| row.len() == 19));
    assert!(stones(&b).is_empty());
    assert_eq!(b.current_player(), Player::Black);
    assert_eq!(b.captured_black(), 0);
    assert_eq!(b.captured_white(), 0);
    assert_eq!(b.last_move(), None);
    assert!(!b.game_over());
    assert!(b.make_move(18, 18));
}

#[test]
fn suicide_into_a_surrounded_point_is_refused() {
    let mut b = GoBoard::with_size(9);
    place(&mut b, Player::White, 3, 4);
    place(&mut b, Player::White, 5, 4);
    place(&mut b, Player::White, 4, 3);
    place(&mut b, Player::White, 4, 5);
    if b.current_player() != Player::Black {
        b.pass_turn();
    }
    let before = stones(&b);
    assert!(!b.would_capture_opponent(4, 4, Player::Black));
    assert!(b.would_be_suicide(4, 4, Player::Black));
    assert!(!b.is_valid_move(4, 4));
    assert!(!b.make_move(4, 4));
    assert_eq!(stones(&b), before);
    assert_eq!(b.current_player(), Player::Black);
    assert_eq!(b.captured_black(), 0);
    assert_eq!(b.captured_white(), 0);
    // the side that surrounds the point may fill it
    b.pass_turn();
    assert!(!b.would_be_suicide(4, 4, Player::White));
    assert!(b.make_move(4, 4));
    assert_eq!(b.board()[4][4], Stone::White);
}

#[test]
fn suicide_in_the_corner_is_refused() {
    let mut b = GoBoard::with_size(9);
    place(&mut b, Player::White, 0, 1);
    place(&mut b, Player::White, 1, 0);
    if b.current_player() != Player::Black {
        b.pass_turn();
    }
    assert!(!b.make_move(0, 0));
    assert_eq!(b.board()[0][0], Stone::Empty);
}

#[test]
fn filling_the_last_liberty_of_ones_own_group_is_refused() {
    let mut b = GoBoard::with_size(9);
    // Black: (0,0); White: (1,0), (1,1), (0,2). Black at (0,1) would make a
    // two-stone group with no liberty.
    place(&mut b, Player::Black, 0, 0);
    place(&mut b, Player::White, 1, 0);
    place(&mut b, Player::White, 1, 1);
    place(&mut b, Player::White, 0, 2);
    if b.current_player() != Player::Black {
        b.pass_turn();
    }
    assert!(!b.would_friendly_group_have_liberties(0, 0, Stone::Black, 0, 1));
    assert!(b.would_be_suicide(0, 1, Player::Black));
    assert!(!b.make_move(0, 1));
    assert_eq!(b.board()[0][1], Stone::Empty);
    assert_eq!(b.board()[0][0], Stone::Black);
}

#[test]
fn joining_a_group_that_keeps_a_liberty_is_allowed() {
    let mut b = GoBoard::with_size(9);
    // Black: (0,0), (1,0); White: (1,1), (0,2). Black at (0,1) joins a group
    // that still breathes at (2,0).
    place(&mut b, Player::Black, 0, 0);
    place(&mut b, Player::Black, 1, 0);
    place(&mut b, Player::White, 1, 1);
    place(&mut b, Player::White, 0, 2);
    if b.current_player() != Player::Black {
        b.pass_turn();
    }
    assert!(b.would_friendly_group_have_liberties(0, 0, Stone::Black, 0, 1));
    assert!(!b.would_be_suicide(0, 1, Player::Black));
    assert!(b.make_move(0, 1));
    assert_eq!(b.board()[0][1], Stone::Black);
    assert!(b.has_liberties(0, 1));
}

#[test]
fn capturing_move_is_legal_without_a_liberty_of_its_own() {
    let mut b = GoBoard::with_size(9);
    // White: (0,1) and (1,0); Black: (0,2), (1,1). The white stone at (0,1)
    // has (0,0) as its last liberty; a black stone there has no open
    // neighbour.
    place(&mut b, Player::White, 0, 1);
    place(&mut b, Player::White, 1, 0);
    place(&mut b, Player::Black, 0, 2);
    place(&mut b, Player::Black, 1, 1);
    if b.current_player() != Player::Black {
        b.pass_turn();
    }
    assert!(b.would_group_be_captured(0, 1, Stone::White, 0, 0));
    assert!(!b.would_group_be_captured(1, 0, Stone::White, 0, 0));
    assert!(b.would_capture_opponent(0, 0, Player::Black));
    assert!(b.would_be_suicide(0, 0, Player::Black));
    assert!(b.is_valid_move(0, 0));
    assert!(b.make_move(0, 0));
    assert_eq!(b.board()[0][0], Stone::Black);
    assert_eq!(b.board()[0][1], Stone::Empty);
    assert_eq!(b.board()[1][0], Stone::White);
    assert_eq!(b.captured_white(), 1);
    assert_eq!(b.captured_black(), 0);
    assert!(b.has_liberties(0, 0));
    assert_eq!(b.current_player(), Player::White);
    assert_eq!(b.last_move(), Some((0, 0)));
}

#[test]
fn white_capturing_black_counts_black_stones() {
    let mut b = GoBoard::with_size(9);
    place(&mut b, Player::Black, 0, 0);
    place(&mut b, Player::White, 0, 1);
    place(&mut b, Player::White, 1, 0);
    assert_eq!(b.board()[0][0], Stone::Empty);
    assert_eq!(b.captured_black(), 1);
    assert_eq!(b.captured_white(), 0);
}

#[test]
fn a_stone_may_be_retaken_at_once() {
    // No position is remembered, so the ko shape can be retaken at once.
    let mut b = GoBoard::with_size(9);
    place(&mut b, Player::Black, 0, 1);
    place(&mut b, Player::Black, 1, 0);
    place(&mut b, Player::Black, 2, 1);
    place(&mut b, Player::White, 0, 2);
    place(&mut b, Player::White, 2, 2);
    place(&mut b, Player::White, 1, 3);
    place(&mut b, Player::White, 1, 1);
    // Black takes the white stone at (1,1)
    place(&mut b, Player::Black, 1, 2);
    assert_eq!(b.board()[1][1], Stone::Empty);
    assert_eq!(b.captured_white(), 1);
    // and White takes back at once
    assert_eq!(b.current_player(), Player::White);
    assert!(b.make_move(1, 1));
    assert_eq!(b.board()[1][2], Stone::Empty);
    assert_eq!(b.board()[1][1], Stone::White);
    assert_eq!(b.captured_black(), 1);
}

#[test]
fn every_group_has_a_liberty_after_every_accepted_move() {
    let mut b = GoBoard::with_size(5);
    // a fixed walk over the board, repeated: many moves are refused, many
    // capture
    let mut accepted = 0;
    let mut step = 7usize;
    for _ in 0..400 {
        step = (step * 31 + 11) % 1009;
        let row = step % 5;
        let col = (step / 5) % 5;
        let before = stones(&b);
        let turn = b.current_player();
        if b.make_move(row, col) {
            accepted += 1;
            assert_ne!(b.current_player(), turn);
            assert_eq!(b.board()[row][col], turn.to_stone());
            for r in 0..5 {
                for c in 0..5 {
                    assert!(b.has_liberties(r, c), "dead stone left at ({r}, {c})");
                }
            }
        } else {
            assert_eq!(stones(&b), before);
            assert_eq!(b.current_player(), turn);
            b.pass_turn();
        }
    }
    assert!(accepted > 50);
    assert!(b.captured_black() + b.captured_white() > 0);
}
