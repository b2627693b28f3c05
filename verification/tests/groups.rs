use go_board::board::GoBoard;
use go_board::stone::{Player, Stone};

fn place(b: &mut GoBoard, player: Player, row: usize, col: usize) {
    if b.current_player() != player {
        b.pass_turn();
    }
    assert!(b.make_move(row, col), "move at ({row}, {col}) was refused");
}

fn sorted(mut v: Vec<(usize, usize)>) -> Vec<(usize, usize)> {
    v.sort();
    v
}

#[test]
fn neighbors_of_a_centre_point_come_up_down_left_right() {
    let b = GoBoard::with_size(9);
    assert_eq!(b.get_neighbors(4, 4), vec![(3, 4), (5, 4), (4, 3), (4, 5)]);
}

#[test]
fn neighbors_of_corners_are_two() {
    let b = GoBoard::with_size(9);
    assert_eq!(b.get_neighbors(0, 0), vec![(1, 0), (0, 1)]);
    assert_eq!(b.get_neighbors(0, 8), vec![(1, 8), (0, 7)]);
    assert_eq!(b.get_neighbors(8, 0), vec![(7, 0), (8, 1)]);
    assert_eq!(b.get_neighbors(8, 8), vec![(7, 8), (8, 7)]);
}

#[test]
fn neighbors_of_edge_points_are_three() {
    let b = GoBoard::with_size(9);
    assert_eq!(b.get_neighbors(0, 3), vec![(1, 3), (0, 2), (0, 4)]);
    assert_eq!(b.get_neighbors(8, 3), vec![(7, 3), (8, 2), (8, 4)]);
    assert_eq!(b.get_neighbors(3, 0), vec![(2, 0), (4, 0), (3, 1)]);
    assert_eq!(b.get_neighbors(3, 8), vec![(2, 8), (4, 8), (3, 7)]);
}

#[test]
fn neighbors_never_include_diagonals_or_points_off_the_board() {
    let b = GoBoard::with_size(13);
    for row in 0..13usize {
        for col in 0..13usize {
            let n = b.get_neighbors(row, col);
            assert!(n.len() <= 4);
            for &(r, c) in &n {
                assert!(r < 13 && c < 13);
                assert_eq!(r.abs_diff(row) + c.abs_diff(col), 1);
            }
        }
    }
}

#[test]
fn group_of_an_l_shape_is_the_whole_l() {
    let mut b = GoBoard::with_size(9);
    let shape = [(2, 2), (3, 2), (4, 2), (4, 3), (4, 4)];
    for &(r, c) in &shape {
        place(&mut b, Player::Black, r, c);
    }
    // stones of the other colour and a diagonal stone do not belong
    place(&mut b, Player::White, 2, 3);
    place(&mut b, Player::Black, 5, 5);
    for &(r, c) in &shape {
        assert_eq!(sorted(b.get_group(r, c, Stone::Black)), sorted(shape.to_vec()));
    }
    assert_eq!(b.get_group(5, 5, Stone::Black), vec![(5, 5)]);
    assert_eq!(b.get_group(2, 3, Stone::White), vec![(2, 3)]);
}

#[test]
fn group_of_one_island_leaves_the_other_out() {
    let mut b = GoBoard::with_size(9);
    let first = [(1, 1), (1, 2)];
    let second = [(1, 4), (2, 4), (3, 4)];
    for &(r, c) in first.iter().chain(second.iter()) {
        place(&mut b, Player::White, r, c);
    }
    assert_eq!(sorted(b.get_group(1, 1, Stone::White)), sorted(first.to_vec()));
    assert_eq!(sorted(b.get_group(1, 2, Stone::White)), sorted(first.to_vec()));
    assert_eq!(sorted(b.get_group(3, 4, Stone::White)), sorted(second.to_vec()));
    assert_eq!(sorted(b.get_group(1, 4, Stone::White)), sorted(second.to_vec()));
}

#[test]
fn group_lists_each_point_once() {
    let mut b = GoBoard::with_size(5);
    // a two-by-two block can be reached along two ways
    for &(r, c) in &[(1, 1), (1, 2), (2, 1), (2, 2)] {
        place(&mut b, Player::Black, r, c);
    }
    let g = b.get_group(1, 1, Stone::Black);
    assert_eq!(g.len(), 4);
    assert_eq!(sorted(g), vec![(1, 1), (1, 2), (2, 1), (2, 2)]);
}

#[test]
fn group_asked_for_another_colour_is_empty() {
    let mut b = GoBoard::with_size(9);
    place(&mut b, Player::Black, 4, 4);
    assert!(b.get_group(4, 4, Stone::White).is_empty());
    assert!(b.get_group(0, 0, Stone::Black).is_empty());
}

#[test]
fn group_of_open_points_is_the_open_region() {
    let mut b = GoBoard::with_size(3);
    // a black wall down the middle column splits the open points in two
    for r in 0..3 {
        place(&mut b, Player::Black, r, 1);
    }
    assert_eq!(sorted(b.get_group(0, 0, Stone::Empty)), vec![(0, 0), (1, 0), (2, 0)]);
    assert_eq!(sorted(b.get_group(2, 2, Stone::Empty)), vec![(0, 2), (1, 2), (2, 2)]);
}

#[test]
fn open_point_counts_as_having_liberties() {
    let mut b = GoBoard::with_size(9);
    place(&mut b, Player::White, 3, 4);
    place(&mut b, Player::White, 5, 4);
    place(&mut b, Player::White, 4, 3);
    place(&mut b, Player::White, 4, 5);
    // (4,4) is open and wholly surrounded
    assert!(b.has_liberties(4, 4));
    assert!(b.has_liberties(0, 0));
}

#[test]
fn group_has_liberties_through_any_member() {
    let mut b = GoBoard::with_size(9);
    // Black (0,0), (0,1); White (1,0), (1,1): the black pair breathes only
    // at (0,2), next to its second stone.
    place(&mut b, Player::Black, 0, 0);
    place(&mut b, Player::Black, 0, 1);
    place(&mut b, Player::White, 1, 0);
    place(&mut b, Player::White, 1, 1);
    assert!(b.has_liberties(0, 0));
    assert!(b.has_liberties(0, 1));
    assert!(b.would_group_be_captured(0, 0, Stone::Black, 0, 2));
    assert!(b.would_group_be_captured(0, 1, Stone::Black, 0, 2));
    assert!(!b.would_group_be_captured(0, 0, Stone::Black, 5, 5));
    assert!(!b.would_group_be_captured(1, 0, Stone::White, 2, 0));
}

#[test]
fn would_group_be_captured_of_a_group_that_is_not_there_is_true() {
    let b = GoBoard::with_size(9);
    // no white chain runs through (4,4), so none has a liberty
    assert!(b.would_group_be_captured(4, 4, Stone::White, 0, 0));
}

#[test]
fn would_capture_opponent_looks_at_each_neighbouring_group() {
    let mut b = GoBoard::with_size(9);
    // White (0,1) with one liberty left at (0,0); white (1,0) breathes at (2,0)
    place(&mut b, Player::White, 0, 1);
    place(&mut b, Player::White, 1, 0);
    place(&mut b, Player::Black, 0, 2);
    place(&mut b, Player::Black, 1, 1);
    assert!(b.would_capture_opponent(0, 0, Player::Black));
    assert!(!b.would_capture_opponent(0, 0, Player::White));
    assert!(!b.would_capture_opponent(2, 0, Player::Black));
    assert!(!b.would_capture_opponent(5, 5, Player::Black));
}

#[test]
fn would_be_suicide_is_false_next_to_an_open_point() {
    let mut b = GoBoard::with_size(9);
    place(&mut b, Player::White, 0, 1);
    assert!(!b.would_be_suicide(0, 0, Player::Black));
    assert!(!b.would_be_suicide(4, 4, Player::Black));
    assert!(!b.would_be_suicide(4, 4, Player::White));
}

#[test]
fn would_friendly_group_have_liberties_counts_the_new_stones_open_neighbours() {
    let mut b = GoBoard::with_size(9);
    // Black (0,0) hemmed in by white (1,0); its only liberty is (0,1).
    place(&mut b, Player::Black, 0, 0);
    place(&mut b, Player::White, 1, 0);
    // a stone at (0,1) brings the open points (0,2) and (1,1) with it
    assert!(b.would_friendly_group_have_liberties(0, 0, Stone::Black, 0, 1));
    place(&mut b, Player::White, 1, 1);
    assert!(b.would_friendly_group_have_liberties(0, 0, Stone::Black, 0, 1));
    place(&mut b, Player::White, 0, 2);
    assert!(!b.would_friendly_group_have_liberties(0, 0, Stone::Black, 0, 1));
}
