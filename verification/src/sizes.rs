//! The board sizes a game is offered in, the choice among them, and the
//! star points that mark each of them.

use vstd::prelude::*;
use crate::position::{cells, Cell};

verus! {

/// The side of the small board.
pub const SMALL_BOARD_SIZE: usize = 9;

/// The side of the medium board.
pub const MEDIUM_BOARD_SIZE: usize = 13;

/// The side of the full board, which a game gets when no size is chosen.
pub const DEFAULT_BOARD_SIZE: usize = 19;

/// A game is offered on boards of side 9, 13 and 19.
pub open spec fn is_supported_size(n: int) -> bool {
    n == 9 || n == 13 || n == 19
}

/// Whether a game is offered on a board of side `n`.
pub fn is_valid_board_size(n: usize) -> (out: bool)
    ensures
        out == is_supported_size(n as int),
{
    n == SMALL_BOARD_SIZE || n == MEDIUM_BOARD_SIZE || n == DEFAULT_BOARD_SIZE
}

/// What a player entered when asked for a board size, surrounding blanks
/// taken off.
#[derive(Clone, Copy, PartialEq, Eq, Debug, Structural)]
pub enum SizeEntry {
    /// Nothing at all.
    Blank,
    /// A number.
    Number(usize),
    /// Something that is no number.
    Unreadable,
}

/// What `str::trim` leaves of a text.
pub uninterp spec fn trimmed(text: Seq<char>) -> Seq<char>;

/// The number that `str::parse::<usize>` reads from a text, if it reads
/// one.
pub uninterp spec fn parsed_number(text: Seq<char>) -> Option<usize>;

/// Calls `str::trim`, which returns the part of `text` between its leading
/// and its trailing white space. Trusted: that the result depends on the
/// characters of `text` alone, which is all that [`trimmed`] says.
#[verifier::external_body]
fn trim(text: &str) -> (out: &str)
    ensures
        out@ == trimmed(text@),
{
    text.trim()
}

/// Calls `str::parse::<usize>`, which reads a decimal number from the whole
/// of `text`, and gives `None` where it reports an error. Trusted: that the
/// result depends on the characters of `text` alone, which is all that
/// [`parsed_number`] says.
#[verifier::external_body]
fn parse_number(text: &str) -> (out: Option<usize>)
    ensures
        out == parsed_number(text@),
{
    text.parse::<usize>().ok()
}

/// The entry that a line of input makes: its surrounding white space is
/// taken off; if nothing is left the entry is blank, and otherwise it is
/// the number that the rest reads as, or unreadable.
pub open spec fn entry_of(line: Seq<char>) -> SizeEntry {
    if trimmed(line).len() == 0 {
        SizeEntry::Blank
    } else {
        match parsed_number(trimmed(line)) {
            Some(n) => SizeEntry::Number(n),
            None => SizeEntry::Unreadable,
        }
    }
}

/// Reads what the player entered from a line of input.
pub fn read_size_entry(line: &str) -> (out: SizeEntry)
    ensures
        out == entry_of(line@),
{
    let rest = trim(line);
    if rest.is_empty() {
        return SizeEntry::Blank;
    }
    match parse_number(rest) {
        Some(n) => SizeEntry::Number(n),
        None => SizeEntry::Unreadable,
    }
}

/// The size that an entry selects: the default for a blank entry, the
/// number itself if a game is offered at that size, and none otherwise.
pub open spec fn selected_size(entry: SizeEntry) -> Option<usize> {
    match entry {
        SizeEntry::Blank => Some(DEFAULT_BOARD_SIZE),
        SizeEntry::Number(n) => if is_supported_size(n as int) {
            Some(n)
        } else {
            None
        },
        SizeEntry::Unreadable => None,
    }
}

/// Decides on a board size from what the player entered. `None` means that
/// the entry selects no size and the player is to be asked again.
pub fn choose_board_size(entry: SizeEntry) -> (out: Option<usize>)
    ensures
        out == selected_size(entry),
        out matches Some(n) ==> is_supported_size(n as int),
{
    match entry {
        SizeEntry::Blank => Some(DEFAULT_BOARD_SIZE),
        SizeEntry::Number(n) => if is_valid_board_size(n) {
            Some(n)
        } else {
            None
        },
        SizeEntry::Unreadable => None,
    }
}

/// The star points of a board of side `n`: five on the small and on the
/// medium board, and the nine of the full board for every other side.
pub open spec fn star_points_of(n: int) -> Seq<Cell> {
    if n == 9 {
        seq![(2, 2), (2, 6), (4, 4), (6, 2), (6, 6)]
    } else if n == 13 {
        seq![(3, 3), (3, 9), (6, 6), (9, 3), (9, 9)]
    } else {
        seq![(3, 3), (3, 9), (3, 15), (9, 3), (9, 9), (9, 15), (15, 3), (15, 9), (15, 15)]
    }
}

/// The star points to mark on a board of side `board_size`.
pub fn star_points(board_size: usize) -> (out: Vec<(usize, usize)>)
    ensures
        cells(out@) == star_points_of(board_size as int),
{
    let out: Vec<(usize, usize)> = if board_size == SMALL_BOARD_SIZE {
        vec![(2, 2), (2, 6), (4, 4), (6, 2), (6, 6)]
    } else if board_size == MEDIUM_BOARD_SIZE {
        vec![(3, 3), (3, 9), (6, 6), (9, 3), (9, 9)]
    } else {
        vec![(3, 3), (3, 9), (3, 15), (9, 3), (9, 9), (9, 15), (15, 3), (15, 9), (15, 15)]
    };
    assert(cells(out@) =~= star_points_of(board_size as int));
    out
}

/// On a board of a supported size every star point lies on the board, and
/// the centre of the board is one of them.
pub proof fn lemma_star_points_on_board(n: int)
    requires
        is_supported_size(n),
    ensures
        forall|i: int|
            0 <= i < star_points_of(n).len() ==> 0 <= (#[trigger] star_points_of(n)[i]).0 < n
                && 0 <= star_points_of(n)[i].1 < n,
        star_points_of(n).contains((n / 2, n / 2)),
{
    if n == 9 {
        assert(star_points_of(n)[2] == (4int, 4int));
    } else if n == 13 {
        assert(star_points_of(n)[2] == (6int, 6int));
    } else {
        assert(star_points_of(n)[4] == (9int, 9int));
    }
}

} // verus!
