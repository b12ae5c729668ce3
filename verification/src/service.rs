//! The services a match needs, and the end of a game.
use vstd::prelude::*;
use vstd::string::{StrSliceExecFns, StringExecFns};
use crate::fen_service::FenService;
use crate::model::{Board, GameStatus};
use crate::move_gen_service::MoveGenService;
use crate::notation_util::{figure_letter, is_move_notation, notation_promotion, notation_turn, NotationUtil};
use crate::square::{tdiv, trem};
use crate::pgn::{join_words, pgn_move, promotion_readable, words, Pgn, PgnView};
use crate::text::{decimal, decimal_text, push_char};

verus! {

/// The FEN service and the move generator of a match.
pub struct Service {
    pub fen: FenService,
    pub move_gen: MoveGenService,
}

impl Service {
    pub fn new() -> (s: Self)
        ensures
            s == (Service { fen: FenService, move_gen: MoveGenService {} }),
    {
        Service { fen: FenService, move_gen: MoveGenService::new() }
    }
}

/// PGN result of a finished game: "1-0" when white won (also on time),
/// "0-1" when black won, "1/2-1/2" otherwise.
pub open spec fn result_text(s: GameStatus) -> Seq<char> {
    match s {
        GameStatus::WhiteWin | GameStatus::WhiteWinByTime => seq!['1', '-', '0'],
        GameStatus::BlackWin | GameStatus::BlackWinByTime => seq!['0', '-', '1'],
        _ => seq!['1', '/', '2', '-', '1', '/', '2'],
    }
}

/// Status of a game after the move limit: past move 100 it is a draw.
pub open spec fn status_after_limit(b: Board) -> GameStatus {
    if b.move_count > 100 { GameStatus::Draw } else { b.game_status }
}

fn result_string(s: GameStatus) -> (r: String)
    ensures
        r@ == result_text(s),
{
    match s {
        GameStatus::WhiteWin | GameStatus::WhiteWinByTime => {
            proof {
                reveal_strlit("1-0");
            }
            String::from_str("1-0")
        },
        GameStatus::BlackWin | GameStatus::BlackWinByTime => {
            proof {
                reveal_strlit("0-1");
            }
            String::from_str("0-1")
        },
        _ => {
            proof {
                reveal_strlit("1/2-1/2");
            }
            String::from_str("1/2-1/2")
        },
    }
}

/// Ends a game that has passed move 100 in a draw. When the game is over,
/// writes the move text, the move number and the result into `pgn` and
/// says so.
pub fn check_game_over(board: &mut Board, pgn: &mut Pgn, all_moves_long_algebraic: &str) -> (over: bool)
    requires
        forall|k: int|
            0 <= k < words(all_moves_long_algebraic@).len() ==> promotion_readable(
                #[trigger] words(all_moves_long_algebraic@)[k],
            ),
    ensures
        *final(board) == (Board { game_status: status_after_limit(*old(board)), ..*old(board) }),
        over == (status_after_limit(*old(board)) != GameStatus::Normal),
        over ==> final(pgn)@ == (PgnView {
            moves: join_words(words(all_moves_long_algebraic@).map_values(|w: Seq<char>| pgn_move(w))),
            ply_count: decimal(old(board).move_count as int),
            result: result_text(status_after_limit(*old(board))),
            ..old(pgn)@
        }),
        !over ==> final(pgn)@ == old(pgn)@,
{
    if board.move_count > 100 {
        board.game_status = GameStatus::Draw;
    }
    if board.game_status != GameStatus::Normal {
        pgn.set_moves(String::from_str(all_moves_long_algebraic));
        pgn.set_ply_count(decimal_text(board.move_count as i64));
        let result = result_string(board.game_status);
        pgn.set_result(result);
        true
    } else {
        false
    }
}

/// The long algebraic form of an engine's move, read on the board after
/// the move: a promotion is written with its four cells and "=Q", any other
/// move with the letter of the figure now on its target cell.
pub open spec fn long_algebraic_text(best_move: Seq<char>, board: Board) -> Seq<char> {
    let cells = best_move.subrange(0, 4);
    if notation_promotion(best_move) != 0 {
        cells + seq!['=', 'Q']
    } else {
        figure_letter(board.field@[notation_turn(cells).to as int]) + cells
    }
}

/// The long algebraic form of `best_move` (see `long_algebraic_text`).
pub fn long_algebraic_move(best_move: &str, board: &Board) -> (s: String)
    requires
        is_move_notation(best_move@),
    ensures
        s@ == long_algebraic_text(best_move@, *board),
{
    let cells = best_move.substring_char(0, 4);
    let turn = NotationUtil::get_turn_from_notation(best_move);
    if turn.promotion != 0 {
        let mut s = String::from_str(cells);
        push_char(&mut s, '=');
        push_char(&mut s, 'Q');
        assert(s@ =~= long_algebraic_text(best_move@, *board));
        s
    } else {
        NotationUtil::get_long_algebraic(cells, board)
    }
}

/// The move text after one more move: a space, the move number before a
/// move of white (ply `pty` odd), and the move.
pub open spec fn move_text_after(all_moves: Seq<char>, pty: i32, long_algebraic: Seq<char>) -> Seq<char> {
    let number = if trem(pty as int, 2) == 1 {
        decimal(tdiv(pty as int, 2) + 1) + seq!['.', ' ']
    } else {
        seq![]
    };
    all_moves + seq![' '] + number + long_algebraic
}

/// Appends a move to the move text (see `move_text_after`).
pub fn append_move(all_moves: &str, pty: i32, long_algebraic: &str) -> (s: String)
    ensures
        s@ == move_text_after(all_moves@, pty, long_algebraic@),
{
    let mut s = String::from_str(all_moves);
    push_char(&mut s, ' ');
    if pty % 2 == 1 {
        let number = decimal_text((pty / 2 + 1) as i64);
        s.append(number.as_str());
        push_char(&mut s, '.');
        push_char(&mut s, ' ');
    }
    s.append(long_algebraic);
    assert(s@ =~= move_text_after(all_moves@, pty, long_algebraic@));
    s
}

} // verus!
