//! Positions of the game board in Forsyth-Edwards notation.
use vstd::prelude::*;
use crate::board::{cell_name, fen_of, fen_placement, push_cell_name, start_field};
use crate::model::{Board, GameStatus};
use crate::square::{frame_ok, inner_cell, is_inner};
use crate::text::push_char;
use crate::zobrist::ZobristTable;

verus! {

/// Castling field of a FEN: "K", "Q", "k", "q" for the rights still held,
/// in that order, or "-" when none is.
pub open spec fn castling_text(b: Board) -> Seq<char> {
    let s = (if b.white_possible_to_castle_short { seq!['K'] } else { seq![] }) + (if b.white_possible_to_castle_long {
        seq!['Q']
    } else {
        seq![]
    }) + (if b.black_possible_to_castle_short { seq!['k'] } else { seq![] }) + (if b.black_possible_to_castle_long {
        seq!['q']
    } else {
        seq![]
    });
    if s.len() == 0 { seq!['-'] } else { s }
}

/// En passant field of a FEN: the square passed over, or "-" when the
/// en passant cell is none of the board's (the board marks "none" with 0).
pub open spec fn en_passant_text(ep: i32) -> Seq<char> {
    if is_inner(ep as int) { cell_name(ep as int) } else { seq!['-'] }
}

/// The position of `b` in FEN: placement, side to move, castling rights and
/// en passant square.
pub open spec fn position_fen(b: Board) -> Seq<char> {
    fen_of(b.field@) + seq![' ', if b.white_to_move { 'w' } else { 'b' }, ' '] + castling_text(b) + seq![' ']
        + en_passant_text(b.field_for_en_passante)
}

/// Reads and writes positions in Forsyth-Edwards notation.
pub struct FenService;

impl FenService {
    /// The board of a new game: the start position, white to move, every
    /// castling right, no en passant square, move 1.
    pub fn set_init_board(&self) -> (b: Board)
        ensures
            b.field@ == start_field(),
            b.white_possible_to_castle_long,
            b.white_possible_to_castle_short,
            b.black_possible_to_castle_long,
            b.black_possible_to_castle_short,
            b.field_for_en_passante == 0,
            b.white_to_move,
            b.move_count == 1,
            b.game_status == GameStatus::Normal,
            b.move_repetition_map@ == Map::<u64, i32>::empty(),
            b.zobrist.wf(),
    {
        let field: [i32; 120] = [
            -11, -11, -11, -11, -11, -11, -11, -11, -11, -11,
            -11, -11, -11, -11, -11, -11, -11, -11, -11, -11,
            -11, 21, 22, 23, 24, 25, 23, 22, 21, -11,
            -11, 20, 20, 20, 20, 20, 20, 20, 20, -11,
            -11, 0, 0, 0, 0, 0, 0, 0, 0, -11,
            -11, 0, 0, 0, 0, 0, 0, 0, 0, -11,
            -11, 0, 0, 0, 0, 0, 0, 0, 0, -11,
            -11, 0, 0, 0, 0, 0, 0, 0, 0, -11,
            -11, 10, 10, 10, 10, 10, 10, 10, 10, -11,
            -11, 11, 12, 13, 14, 15, 13, 12, 11, -11,
            -11, -11, -11, -11, -11, -11, -11, -11, -11, -11,
            -11, -11, -11, -11, -11, -11, -11, -11, -11, -11,
        ];
        assert(field@ =~= start_field());
        Board::new(field, true, true, true, true, 0, true, 1, ZobristTable::new())
    }

    /// The position of `board` in FEN (see `position_fen`).
    pub fn get_fen(&self, board: &Board) -> (s: String)
        requires
            frame_ok(board.field@),
        ensures
            s@ == position_fen(*board),
    {
        let mut s = fen_placement(&board.field);
        push_char(&mut s, ' ');
        push_char(&mut s, if board.white_to_move { 'w' } else { 'b' });
        push_char(&mut s, ' ');
        push_castling(&mut s, board);
        push_char(&mut s, ' ');
        push_en_passant(&mut s, board.field_for_en_passante);
        assert(s@ =~= position_fen(*board));
        s
    }
}

fn push_castling(s: &mut String, board: &Board)
    ensures
        final(s)@ == old(s)@ + castling_text(*board),
{
    let mut any = false;
    if board.white_possible_to_castle_short {
        push_char(s, 'K');
        any = true;
    }
    if board.white_possible_to_castle_long {
        push_char(s, 'Q');
        any = true;
    }
    if board.black_possible_to_castle_short {
        push_char(s, 'k');
        any = true;
    }
    if board.black_possible_to_castle_long {
        push_char(s, 'q');
        any = true;
    }
    if !any {
        push_char(s, '-');
    }
    assert(s@ =~= old(s)@ + castling_text(*board));
}

fn push_en_passant(s: &mut String, ep: i32)
    ensures
        final(s)@ == old(s)@ + en_passant_text(ep),
{
    if inner_cell(ep) {
        push_cell_name(s, ep as usize);
    } else {
        push_char(s, '-');
        assert(s@ =~= old(s)@ + en_passant_text(ep));
    }
}

} // verus!
