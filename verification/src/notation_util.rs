//! UCI coordinate notation ("e2e4", "e7e8q") and the mailbox cells.
use regex::Regex;
use vstd::prelude::*;
use vstd::string::{StrSliceExecFns, StringExecFns};
use crate::model::{algebraic, file_char, rank_char, Board, Turn};
use crate::square::is_inner;

verus! {

/// File letter to column 1..8, anything else to -1.
pub open spec fn file_of(c: char) -> int {
    if c == 'a' {
        1
    } else if c == 'b' {
        2
    } else if c == 'c' {
        3
    } else if c == 'd' {
        4
    } else if c == 'e' {
        5
    } else if c == 'f' {
        6
    } else if c == 'g' {
        7
    } else if c == 'h' {
        8
    } else {
        -1
    }
}

/// Decimal digit value of `c`, 0 for anything that is not a digit.
pub open spec fn digit_of(c: char) -> int {
    if '0' <= c && c <= '9' {
        c as int - '0' as int
    } else {
        0
    }
}

/// Mailbox cell named by the first two characters of `s` ("a8" is 21,
/// "h1" is 98).
pub open spec fn cell_of(s: Seq<char>) -> int {
    (10 - digit_of(s[1])) * 10 + file_of(s[0])
}

pub open spec fn is_file(c: char) -> bool {
    'a' <= c && c <= 'h'
}

pub open spec fn is_rank(c: char) -> bool {
    '1' <= c && c <= '8'
}

/// A move in coordinate notation: `^[a-h][1-8][a-h][1-8][qkbnr]?$`.
pub open spec fn is_move_notation(s: Seq<char>) -> bool {
    &&& (s.len() == 4 || s.len() == 5)
    &&& is_file(s[0])
    &&& is_rank(s[1])
    &&& is_file(s[2])
    &&& is_rank(s[3])
    &&& (s.len() == 5 ==> s[4] == 'q' || s[4] == 'k' || s[4] == 'b' || s[4] == 'n' || s[4] == 'r')
}

/// Promotion piece a move in coordinate notation names: to the eighth rank a
/// white knight (12) for "n" and a white queen (14) otherwise, to the first
/// rank the black pieces (22, 24), else none.
pub open spec fn notation_promotion(s: Seq<char>) -> i32 {
    if s.len() == 5 && s[3] == '1' {
        if s[4] == 'n' { 22 } else { 24 }
    } else if s.len() == 5 && s[3] == '8' {
        if s[4] == 'n' { 12 } else { 14 }
    } else {
        0
    }
}

/// The turn a move in coordinate notation describes.
pub open spec fn notation_turn(s: Seq<char>) -> Turn {
    Turn {
        from: cell_of(s) as i32,
        to: cell_of(s.subrange(2, 4)) as i32,
        capture: 0,
        promotion: notation_promotion(s),
        eval: 0,
        gives_check: false,
    }
}

/// `regex::Regex::new(pattern)` followed by `Regex::is_match(haystack)`.
/// The regex crate documents `^`/`$` as the start and end of the haystack,
/// a class as one character of the class and `?` as an optional item; the
/// contract states what that gives for the move pattern, the only pattern
/// this library matches (it compiles, so `Regex::new` does not fail).
#[verifier::external_body]
fn regex_is_match(pattern: &str, haystack: &str) -> (r: bool)
    requires
        pattern@ == "^[a-h][1-8][a-h][1-8][qkbnr]?$"@,
    ensures
        r == is_move_notation(haystack@),
{
    Regex::new(pattern).unwrap().is_match(haystack)
}

pub(crate) fn file_index(c: char) -> (r: i32)
    ensures
        r == file_of(c),
{
    match c {
        'a' => 1,
        'b' => 2,
        'c' => 3,
        'd' => 4,
        'e' => 5,
        'f' => 6,
        'g' => 7,
        'h' => 8,
        _ => -1,
    }
}

pub(crate) fn digit_value(c: char) -> (r: i32)
    ensures
        r == digit_of(c),
{
    if '0' <= c && c <= '9' {
        (c as u32 - '0' as u32) as i32
    } else {
        0
    }
}

/// Letter of a figure for the long algebraic notation ("" for a pawn).
pub open spec fn figure_letter(v: i32) -> Seq<char> {
    let k = crate::square::trem(v as int, 10);
    if k == 1 {
        seq!['R']
    } else if k == 2 {
        seq!['N']
    } else if k == 3 {
        seq!['B']
    } else if k == 4 {
        seq!['Q']
    } else if k == 5 {
        seq!['K']
    } else {
        seq![]
    }
}

/// Promotion `get_turn_from_list` looks for: for a five-character move 14
/// ("q") or 12 ("n"), plus 10 when the move ends on the first rank; else the
/// promotion of the notation.
pub open spec fn list_promotion(s: Seq<char>) -> i32 {
    if s.len() == 5 {
        let base: int = if s[4] == 'q' || s[4] == 'Q' { 14 } else { 12 };
        (if cell_of(s.subrange(2, 4)) / 90 == 1 { base + 10 } else { base }) as i32
    } else {
        notation_promotion(s)
    }
}

/// `t` is the move the notation `s` names in a move list.
pub open spec fn names(t: Turn, s: Seq<char>) -> bool {
    &&& t.from == notation_turn(s).from
    &&& t.to == notation_turn(s).to
    &&& t.promotion == list_promotion(s)
}

pub struct NotationUtil;

impl NotationUtil {
    /// Cell of a square name like "e2": its file letter gives the column
    /// (-1 for anything but a..h), its rank digit the row (a non-digit counts
    /// as 0).
    pub fn get_index_from_notation_field(notation: &str) -> (r: i32)
        requires
            notation@.len() >= 2,
        ensures
            r == cell_of(notation@),
    {
        let col = file_index(notation.get_char(0));
        let row = 10 - digit_value(notation.get_char(1));
        (row * 10) + col
    }

    /// Whether `notation_move` is a move in coordinate notation: two square
    /// names and an optional promotion letter `q`, `k`, `b`, `n` or `r`.
    pub fn is_valid_move_notation(notation_move: &str) -> (b: bool)
        ensures
            b == is_move_notation(notation_move@),
    {
        regex_is_match("^[a-h][1-8][a-h][1-8][qkbnr]?$", notation_move)
    }

    /// The turn a move in coordinate notation ("e2e4", "e7e8q") describes.
    pub fn get_turn_from_notation(notation_move: &str) -> (t: Turn)
        requires
            is_move_notation(notation_move@),
        ensures
            t == notation_turn(notation_move@),
    {
        let valid = NotationUtil::is_valid_move_notation(notation_move);
        assert(valid);
        let from = NotationUtil::get_index_from_notation_field(notation_move.substring_char(0, 2));
        let to = NotationUtil::get_index_from_notation_field(notation_move.substring_char(2, 4));
        assert(notation_move@.subrange(0, 2)[0] == notation_move@[0]);
        assert(notation_move@.subrange(0, 2)[1] == notation_move@[1]);
        let len = notation_move.unicode_len();
        let mut promotion: i32 = 0;
        if len == 5 && notation_move.get_char(3) == '8' {
            promotion = if notation_move.get_char(4) == 'n' { 12 } else { 14 };
        }
        if len == 5 && notation_move.get_char(3) == '1' {
            promotion = if notation_move.get_char(4) == 'n' { 22 } else { 24 };
        }
        Turn::new(from, to, 0, promotion, 0, false)
    }

    /// The first move of `move_list` the notation names (same cells and, for
    /// a promotion "q" or "n", the promotion piece of the side).
    pub fn get_turn_from_list(move_list: &Vec<Turn>, notation: &str) -> (t: Turn)
        requires
            is_move_notation(notation@),
            notation@.len() == 5 ==> notation@[4] == 'q' || notation@[4] == 'n',
            exists|k: int| 0 <= k < move_list@.len() && names(#[trigger] move_list@[k], notation@),
        ensures
            exists|k: int|
                0 <= k < move_list@.len() && t == move_list@[k] && names(t, notation@) && forall|
                    j: int,
                | 0 <= j < k ==> !names(#[trigger] move_list@[j], notation@),
    {
        let mut target_turn = NotationUtil::get_turn_from_notation(notation);
        if notation.unicode_len() == 5 {
            let c = notation.get_char(4);
            if c == 'q' || c == 'Q' {
                target_turn.promotion = 14;
            } else {
                target_turn.promotion = 12;
            }
            if target_turn.to / 90 == 1 {
                target_turn.promotion = target_turn.promotion + 10;
            }
        }
        assert(target_turn.promotion == list_promotion(notation@));
        let mut k: usize = 0;
        while k < move_list.len()
            invariant
                k <= move_list@.len(),
                target_turn.from == notation_turn(notation@).from,
                target_turn.to == notation_turn(notation@).to,
                target_turn.promotion == list_promotion(notation@),
                forall|j: int| 0 <= j < k ==> !names(#[trigger] move_list@[j], notation@),
                exists|k: int| 0 <= k < move_list@.len() && names(#[trigger] move_list@[k], notation@),
            decreases move_list@.len() - k,
        {
            let m = move_list[k];
            if m.from == target_turn.from && m.to == target_turn.to && m.promotion
                == target_turn.promotion {
                return m;
            }
            k = k + 1;
        }
        assert(false);
        target_turn
    }

    /// Long algebraic form of a move: the letter of the figure standing on
    /// its target cell (none for a pawn) followed by the move.
    pub fn get_long_algebraic(move_notation: &str, board: &Board) -> (s: String)
        requires
            is_move_notation(move_notation@),
        ensures
            s@ == figure_letter(board.field@[notation_turn(move_notation@).to as int])
                + move_notation@,
    {
        let turn = NotationUtil::get_turn_from_notation(move_notation);
        let figure = board.field[turn.to as usize] % 10;
        let mut figure_str = if figure == 1 {
            proof {
                reveal_strlit("R");
            }
            String::from_str("R")
        } else if figure == 2 {
            proof {
                reveal_strlit("N");
            }
            String::from_str("N")
        } else if figure == 3 {
            proof {
                reveal_strlit("B");
            }
            String::from_str("B")
        } else if figure == 4 {
            proof {
                reveal_strlit("Q");
            }
            String::from_str("Q")
        } else if figure == 5 {
            proof {
                reveal_strlit("K");
            }
            String::from_str("K")
        } else {
            proof {
                reveal_strlit("");
            }
            String::from_str("")
        };
        assert(figure_str@ =~= figure_letter(board.field@[turn.to as int]));
        figure_str.append(move_notation);
        figure_str
    }
}

proof fn lemma_cell_read_back(i: i32)
    requires
        is_inner(i as int),
    ensures
        is_file(file_char(i)),
        is_rank(rank_char(i)),
        (10 - digit_of(rank_char(i))) * 10 + file_of(file_char(i)) == i,
{
    let c = i % 10;
    let r = i / 10;
    assert(crate::square::trem(i as int, 10) == c);
    assert(crate::square::tdiv(i as int, 10) == r);
    assert(1 <= c <= 8);
    assert(2 <= r <= 9);
    assert(file_char(i) as int == c + 96);
    assert(rank_char(i) as int == 58 - r);
    assert(file_of(file_char(i)) == c) by {
        if c == 1 {
            assert(file_char(i) == 'a');
        } else if c == 2 {
            assert(file_char(i) == 'b');
        } else if c == 3 {
            assert(file_char(i) == 'c');
        } else if c == 4 {
            assert(file_char(i) == 'd');
        } else if c == 5 {
            assert(file_char(i) == 'e');
        } else if c == 6 {
            assert(file_char(i) == 'f');
        } else if c == 7 {
            assert(file_char(i) == 'g');
        } else {
            assert(file_char(i) == 'h');
        }
    }
    assert(i == r * 10 + c);
}

/// Printing a turn in coordinate notation and reading it back gives the
/// same turn: its cells, and its promotion when it has none or promotes to
/// a queen or a knight of the side that reaches that last rank.
pub proof fn lemma_notation_read_back(t: Turn)
    requires
        is_inner(t.from as int),
        is_inner(t.to as int),
        t.promotion == 0 || ((t.promotion == 12 || t.promotion == 14) && 21 <= t.to <= 28) || ((
        t.promotion == 22 || t.promotion == 24) && 91 <= t.to <= 98),
    ensures
        is_move_notation(algebraic(t)),
        notation_turn(algebraic(t)).from == t.from,
        notation_turn(algebraic(t)).to == t.to,
        notation_turn(algebraic(t)).promotion == t.promotion,
{
    let s = algebraic(t);
    lemma_cell_read_back(t.from);
    lemma_cell_read_back(t.to);
    assert(s.subrange(2, 4) =~= seq![file_char(t.to), rank_char(t.to)]);
    assert(cell_of(s) == t.from);
    assert(cell_of(s.subrange(2, 4)) == t.to);
    if t.promotion != 0 {
        if t.promotion == 14 || t.promotion == 24 {
            assert(crate::square::trem(t.promotion as int, 10) == 4);
            assert(s[4] == 'q');
        } else {
            assert(crate::square::trem(t.promotion as int, 10) == 2);
            assert(s[4] == 'n');
        }
        if t.promotion == 14 || t.promotion == 12 {
            assert(rank_char(t.to) == '8');
        } else {
            assert(rank_char(t.to) == '1');
        }
    }
}

} // verus!
