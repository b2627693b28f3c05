use go_board::board::GoBoard;
use go_board::sizes::{
    choose_board_size, is_valid_board_size, read_size_entry, star_points, SizeEntry,
    DEFAULT_BOARD_SIZE, MEDIUM_BOARD_SIZE, SMALL_BOARD_SIZE,
};

#[test]
fn supported_sizes_are_nine_thirteen_and_nineteen() {
    for n in 0..64usize {
        assert_eq!(is_valid_board_size(n), n == 9 || n == 13 || n == 19);
    }
    assert_eq!(SMALL_BOARD_SIZE, 9);
    assert_eq!(MEDIUM_BOARD_SIZE, 13);
    assert_eq!(DEFAULT_BOARD_SIZE, 19);
}

#[test]
fn blank_entry_selects_the_default_size() {
    assert_eq!(choose_board_size(SizeEntry::Blank), Some(19));
}

#[test]
fn supported_number_selects_itself() {
    assert_eq!(choose_board_size(SizeEntry::Number(9)), Some(9));
    assert_eq!(choose_board_size(SizeEntry::Number(13)), Some(13));
    assert_eq!(choose_board_size(SizeEntry::Number(19)), Some(19));
}

#[test]
fn other_entries_select_nothing() {
    assert_eq!(choose_board_size(SizeEntry::Number(0)), None);
    assert_eq!(choose_board_size(SizeEntry::Number(10)), None);
    assert_eq!(choose_board_size(SizeEntry::Number(usize::MAX)), None);
    assert_eq!(choose_board_size(SizeEntry::Unreadable), None);
}

#[test]
fn star_points_of_each_size() {
    assert_eq!(star_points(9), vec![(2, 2), (2, 6), (4, 4), (6, 2), (6, 6)]);
    assert_eq!(star_points(13), vec![(3, 3), (3, 9), (6, 6), (9, 3), (9, 9)]);
    assert_eq!(
        star_points(19),
        vec![(3, 3), (3, 9), (3, 15), (9, 3), (9, 9), (9, 15), (15, 3), (15, 9), (15, 15)]
    );
    // any other size is marked like the full board
    assert_eq!(star_points(5), star_points(19));
}

#[test]
fn star_points_lie_on_the_board_of_their_size() {
    for n in [9usize, 13, 19] {
        let b = GoBoard::with_size(n);
        for (r, c) in star_points(n) {
            assert!(r < b.board_size() && c < b.board_size());
        }
        assert!(star_points(n).contains(&(n / 2, n / 2)));
    }
}

#[test]
fn line_of_white_space_is_a_blank_entry() {
    assert_eq!(read_size_entry(""), SizeEntry::Blank);
    assert_eq!(read_size_entry("\n"), SizeEntry::Blank);
    assert_eq!(read_size_entry("  \t \r\n"), SizeEntry::Blank);
}

#[test]
fn line_with_a_number_is_read_without_its_white_space() {
    assert_eq!(read_size_entry("13"), SizeEntry::Number(13));
    assert_eq!(read_size_entry("  13 \n"), SizeEntry::Number(13));
    assert_eq!(read_size_entry("9\r\n"), SizeEntry::Number(9));
    assert_eq!(read_size_entry("+19"), SizeEntry::Number(19));
    assert_eq!(read_size_entry("007"), SizeEntry::Number(7));
    assert_eq!(read_size_entry("0"), SizeEntry::Number(0));
}

#[test]
fn line_that_is_no_number_is_unreadable() {
    assert_eq!(read_size_entry("nine"), SizeEntry::Unreadable);
    assert_eq!(read_size_entry("-9"), SizeEntry::Unreadable);
    assert_eq!(read_size_entry("1 3"), SizeEntry::Unreadable);
    assert_eq!(read_size_entry("9.0"), SizeEntry::Unreadable);
    assert_eq!(read_size_entry("9x9"), SizeEntry::Unreadable);
    assert_eq!(read_size_entry("340282366920938463463374607431768211456"), SizeEntry::Unreadable);
}

#[test]
fn line_of_input_selects_a_size() {
    assert_eq!(choose_board_size(read_size_entry("\n")), Some(19));
    assert_eq!(choose_board_size(read_size_entry(" 9\n")), Some(9));
    assert_eq!(choose_board_size(read_size_entry("13\n")), Some(13));
    assert_eq!(choose_board_size(read_size_entry("12\n")), None);
    assert_eq!(choose_board_size(read_size_entry("go\n")), None);
}
