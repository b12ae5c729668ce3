//! The first board model: a mailbox board that keeps its move history,
//! the moves made as text and the positions seen, and lists the legal
//! moves of a side together with the replies they allow.
use vstd::prelude::*;
use vstd::string::{StrSliceExecFns, StringExecFns};
use crate::movement::{
    bishop_dir_array, bishop_dirs, inner_pairs, king_dir_array, king_dirs, knight_jump_array,
    knight_jumps, pair, pawn_moves, push_pawn_moves, push_slides, push_steps, rook_dir_array,
    rook_dirs, slides, steps,
};
use crate::square::{colour, frame_ok, is_inner, tdiv, trem, OFF_BOARD};
use crate::notation_util::figure_letter;
use vstd::std_specs::cmp::PartialEqSpecImpl;
use crate::text::push_char;
use crate::move_gen_service::{
    bishop_value, king_value, knight_value, lemma_on_board_is_inner, pawn_value, queen_value,
    rook_value,
};
use crate::movement::{
    from_cell, good_target, lemma_inner_pairs_concat, lemma_pair_inner, lemma_pairs_all_concat,
    lemma_pairs_all_empty, lemma_pairs_all_pair, lemma_pawn_inner, lemma_pawn_targets,
    lemma_slides_targets, lemma_slides_inner, lemma_steps_inner, lemma_steps_targets, pairs_all,
    step_from,
};

verus! {

/// State of a game.
#[derive(Debug, PartialEq, Eq, Structural, Clone, Copy)]
pub enum GameState {
    Draw,
    WhiteWin,
    BlackWin,
    Normal,
    WhiteWinByTime,
    BlackWinByTime,
}

/// A move between two cells, with the lists of moves the two sides have
/// after it (`post_villain` for the opponent, `post_my` for the mover).
#[derive(Debug, Clone)]
pub struct Turn {
    pub from: usize,
    pub to: usize,
    pub capture: i8,
    pub post_villain: Vec<usize>,
    pub post_my: Vec<usize>,
    pub promotion: bool,
}

/// Abstract value of a `Turn`.
pub ghost struct TurnView {
    pub from: usize,
    pub to: usize,
    pub capture: i8,
    pub post_villain: Seq<usize>,
    pub post_my: Seq<usize>,
    pub promotion: bool,
}

impl View for Turn {
    type V = TurnView;

    open spec fn view(&self) -> TurnView {
        TurnView {
            from: self.from,
            to: self.to,
            capture: self.capture,
            post_villain: self.post_villain@,
            post_my: self.post_my@,
            promotion: self.promotion,
        }
    }
}


/// Name of a cell ("e2" for 85): file letter, then rank digit.
pub open spec fn cell_name(c: int) -> Seq<char> {
    seq![((c % 10 + 96) as u8) as char, ((58 - c / 10) as u8) as char]
}

/// Coordinate notation of a move; with `with_promotion` a promoting move
/// gets a trailing "q".
pub open spec fn turn_text(t: TurnView, with_promotion: bool) -> Seq<char> {
    cell_name(t.from as int) + cell_name(t.to as int) + (if with_promotion && t.promotion {
        seq!['q']
    } else {
        seq![]
    })
}

pub(crate) fn push_cell_name(s: &mut String, c: usize)
    requires
        c < 120,
    ensures
        final(s)@ == old(s)@ + cell_name(c as int),
{
    let file = ((c % 10 + 96) as u8) as char;
    let rank = ((58 - c / 10) as u8) as char;
    push_char(s, file);
    push_char(s, rank);
    assert(final(s)@ =~= old(s)@ + cell_name(c as int));
}

impl Turn {
    pub fn is_promotion(&self) -> (b: bool)
        ensures
            b == self.promotion,
    {
        self.promotion
    }

    /// Coordinate notation of the move ("e2e4"); with `with_promotion` a
    /// promoting move ends in "q".
    pub fn to_algebraic(&self, with_promotion: bool) -> (s: String)
        requires
            self.from < 120,
            self.to < 120,
        ensures
            s@ == turn_text(self@, with_promotion),
    {
        let mut s = String::new();
        push_cell_name(&mut s, self.from);
        push_cell_name(&mut s, self.to);
        if with_promotion && self.promotion {
            push_char(&mut s, 'q');
        }
        assert(s@ =~= turn_text(self@, with_promotion));
        s
    }

    /// Marks the move as a promotion when a pawn of `white`'s side reaches
    /// the last rank.
    pub fn enrich_promotion_move(&mut self, board: &Board, white: bool)
        requires
            old(self).from < 120,
        ensures
            final(self)@ == (TurnView {
                promotion: promotes(board@.field, old(self)@, white),
                ..old(self)@
            }),
    {
        let piece = board.field[self.from];
        self.promotion = (white && piece == 10 && 21 <= self.to && self.to <= 28) || (!white
            && piece == 20 && 91 <= self.to && self.to <= 98);
    }

    /// A copy of the move with copies of its reply lists.
    fn duplicate(&self) -> (t: Turn)
        ensures
            t@ == self@,
    {
        let post_villain = self.post_villain.clone();
        let post_my = self.post_my.clone();
        assert(post_villain@ =~= self.post_villain@);
        assert(post_my@ =~= self.post_my@);
        Turn {
            from: self.from,
            to: self.to,
            capture: self.capture,
            post_villain,
            post_my,
            promotion: self.promotion,
        }
    }
}

/// A pawn of `white`'s side moves onto the last rank.
pub open spec fn promotes(f: Seq<i32>, t: TurnView, white: bool) -> bool {
    (white && f[t.from as int] == 10 && 21 <= t.to <= 28) || (!white && f[t.from as int] == 20 && 91
        <= t.to <= 98)
}

/// Abstract value of a `Board`.
pub ghost struct BoardView {
    pub field: Seq<i32>,
    pub pty: u32,
    pub fifty_move_rule: u32,
    pub state: GameState,
    pub moves: Seq<char>,
    pub turns: Seq<TurnView>,
    pub positions: Seq<(Seq<char>, i32)>,
}

/// A mailbox board with its history.
#[derive(Clone)]
pub struct Board {
    field: [i32; 120],
    pty: u32,
    fifty_move_rule: u32,
    state: GameState,
    moves: String,
    turns: Vec<Turn>,
    position_map: Vec<(String, i32)>,
}

impl View for Board {
    type V = BoardView;

    closed spec fn view(&self) -> BoardView {
        BoardView {
            field: self.field@,
            pty: self.pty,
            fifty_move_rule: self.fifty_move_rule,
            state: self.state,
            moves: self.moves@,
            turns: self.turns@.map_values(|t: Turn| t@),
            positions: self.position_map@.map_values(|p: (String, i32)| (p.0@, p.1)),
        }
    }
}

/// No position is recorded twice.
pub open spec fn keys_unique(p: Seq<(Seq<char>, i32)>) -> bool {
    forall|i: int, j: int| 0 <= i < j < p.len() ==> p[i].0 != p[j].0
}

/// A well-formed board: the frame holds the off-board marker, the moves text
/// is ASCII and every position is recorded once.
pub open spec fn board_wf(v: BoardView) -> bool {
    &&& frame_ok(v.field)
    &&& vstd::utf8::is_ascii_chars(v.moves)
    &&& keys_unique(v.positions)
}

/// The cells of the start position.
pub open spec fn start_field() -> Seq<i32> {
    seq![
        -11i32, -11i32, -11i32, -11i32, -11i32, -11i32, -11i32, -11i32, -11i32, -11i32,
        -11i32, -11i32, -11i32, -11i32, -11i32, -11i32, -11i32, -11i32, -11i32, -11i32,
        -11i32, 21i32, 22i32, 23i32, 24i32, 25i32, 23i32, 22i32, 21i32, -11i32,
        -11i32, 20i32, 20i32, 20i32, 20i32, 20i32, 20i32, 20i32, 20i32, -11i32,
        -11i32, 0i32, 0i32, 0i32, 0i32, 0i32, 0i32, 0i32, 0i32, -11i32,
        -11i32, 0i32, 0i32, 0i32, 0i32, 0i32, 0i32, 0i32, 0i32, -11i32,
        -11i32, 0i32, 0i32, 0i32, 0i32, 0i32, 0i32, 0i32, 0i32, -11i32,
        -11i32, 0i32, 0i32, 0i32, 0i32, 0i32, 0i32, 0i32, 0i32, -11i32,
        -11i32, 10i32, 10i32, 10i32, 10i32, 10i32, 10i32, 10i32, 10i32, -11i32,
        -11i32, 11i32, 12i32, 13i32, 14i32, 15i32, 13i32, 12i32, 11i32, -11i32,
        -11i32, -11i32, -11i32, -11i32, -11i32, -11i32, -11i32, -11i32, -11i32, -11i32,
        -11i32, -11i32, -11i32, -11i32, -11i32, -11i32, -11i32, -11i32, -11i32, -11i32,
    ]
}

/// The recorded positions after one more visit of `key`.
pub open spec fn positions_after_visit(p: Seq<(Seq<char>, i32)>, key: Seq<char>) -> Seq<(Seq<char>, i32)> {
    if exists|i: int| 0 <= i < p.len() && p[i].0 == key {
        let i = choose|i: int| 0 <= i < p.len() && p[i].0 == key;
        p.update(i, (key, (p[i].1 + 1) as i32))
    } else {
        p.push((key, 1i32))
    }
}

/// Cells after `clear_field`: every piece of the playing rows removed.
pub open spec fn cleared(f: Seq<i32>) -> Seq<i32> {
    Seq::new(f.len(), |i: int| if 21 <= i < 99 && f[i] > 0 { 0i32 } else { f[i] })
}

/// Number of the first `n` cells holding a value above 1.
pub open spec fn pieces_in(f: Seq<i32>, n: int) -> int
    decreases n,
{
    if n <= 0 {
        0
    } else {
        pieces_in(f, n - 1) + (if f[n - 1] > 1 { 1int } else { 0int })
    }
}

/// Some move of the history started on cell `c`.
pub open spec fn moved_from(turns: Seq<TurnView>, c: int) -> bool {
    exists|k: int| 0 <= k < turns.len() && turns[k].from == c
}

/// Castling moves of a king on `i` whose king and rook have not moved yet.
pub open spec fn history_castles(f: Seq<i32>, turns: Seq<TurnView>, i: int, white: bool) -> Seq<i32> {
    let rook = rook_value(white);
    if i == 95 && !moved_from(turns, 95) {
        (if !moved_from(turns, 98) && f[96] == 0 && f[97] == 0 && f[98] == 11 {
            pair(95, 97)
        } else {
            seq![]
        }) + (if !moved_from(turns, 91) && f[94] == 0 && f[93] == 0 && f[92] == 0 && f[91] == rook {
            pair(95, 93)
        } else {
            seq![]
        })
    } else if i == 25 && !moved_from(turns, 25) {
        (if !moved_from(turns, 28) && f[26] == 0 && f[27] == 0 && f[28] == 21 {
            pair(25, 27)
        } else {
            seq![]
        }) + (if !moved_from(turns, 21) && f[24] == 0 && f[23] == 0 && f[22] == 0 && f[21] == rook {
            pair(25, 23)
        } else {
            seq![]
        })
    } else {
        seq![]
    }
}

/// Moves of the piece of `white`'s side on cell `i`.
pub open spec fn history_piece_moves(f: Seq<i32>, turns: Seq<TurnView>, i: int, white: bool) -> Seq<i32> {
    let v = f[i];
    if v <= 0 || (10 <= v <= 15 && !white) || (20 <= v <= 25 && white) {
        seq![]
    } else if v == king_value(white) {
        steps(f, i, king_dirs(), 8, white) + history_castles(f, turns, i, white)
    } else if v == pawn_value(white) {
        pawn_moves(f, i, white)
    } else if v == knight_value(white) {
        steps(f, i, knight_jumps(), 8, white)
    } else if v == bishop_value(white) {
        slides(f, i, bishop_dirs(), 4, white)
    } else if v == queen_value(white) {
        slides(f, i, king_dirs(), 8, white)
    } else if v == rook_value(white) {
        slides(f, i, rook_dirs(), 4, white)
    } else {
        seq![]
    }
}

/// Moves of `white`'s pieces on the cells `21..n`, cell by cell.
pub open spec fn history_moves(f: Seq<i32>, turns: Seq<TurnView>, white: bool, n: int) -> Seq<i32>
    decreases n,
{
    if n <= 21 {
        seq![]
    } else {
        history_moves(f, turns, white, n - 1) + history_piece_moves(f, turns, n - 1, white)
    }
}

/// The move list of `white` on the cells `f` with history `turns`, as
/// `from, to` pairs.
pub open spec fn moves_on(f: Seq<i32>, turns: Seq<TurnView>, white: bool) -> Seq<usize> {
    history_moves(f, turns, white, 99).map_values(|x: i32| x as usize)
}

/// The move list of `white` on board `v` as `from, to` pairs.
pub open spec fn move_list(v: BoardView, white: bool) -> Seq<usize> {
    moves_on(v.field, v.turns, white)
}

pub proof fn lemma_history_moves_inner(f: Seq<i32>, turns: Seq<TurnView>, white: bool, n: int)
    requires
        frame_ok(f),
        n <= 99,
    ensures
        inner_pairs(history_moves(f, turns, white, n)),
    decreases n,
{
    if n > 21 {
        lemma_history_moves_inner(f, turns, white, n - 1);
        let i = n - 1;
        let v = f[i];
        if v <= 0 || (10 <= v <= 15 && !white) || (20 <= v <= 25 && white) {
        } else {
            lemma_on_board_is_inner(f, i);
            if v == king_value(white) {
                lemma_steps_inner(f, i, king_dirs(), 8, white);
                let e: Seq<i32> = seq![];
                let c1 = if !moved_from(turns, 98) && f[96] == 0 && f[97] == 0 && f[98] == 11 {
                    pair(95, 97)
                } else {
                    e
                };
                let c2 = if !moved_from(turns, 91) && f[94] == 0 && f[93] == 0 && f[92] == 0 && f[91]
                    == rook_value(white) {
                    pair(95, 93)
                } else {
                    e
                };
                let c3 = if !moved_from(turns, 28) && f[26] == 0 && f[27] == 0 && f[28] == 21 {
                    pair(25, 27)
                } else {
                    e
                };
                let c4 = if !moved_from(turns, 21) && f[24] == 0 && f[23] == 0 && f[22] == 0 && f[21]
                    == rook_value(white) {
                    pair(25, 23)
                } else {
                    e
                };
                lemma_inner_pairs_concat(c1, c2);
                lemma_inner_pairs_concat(c3, c4);
                lemma_inner_pairs_concat(
                    steps(f, i, king_dirs(), 8, white),
                    history_castles(f, turns, i, white),
                );
            } else if v == pawn_value(white) {
                lemma_pawn_inner(f, i, white);
            } else if v == knight_value(white) {
                lemma_steps_inner(f, i, knight_jumps(), 8, white);
            } else if v == bishop_value(white) {
                lemma_slides_inner(f, i, bishop_dirs(), 4, white);
            } else if v == queen_value(white) {
                lemma_slides_inner(f, i, king_dirs(), 8, white);
            } else if v == rook_value(white) {
                lemma_slides_inner(f, i, rook_dirs(), 4, white);
            }
        }
        lemma_inner_pairs_concat(
            history_moves(f, turns, white, n - 1),
            history_piece_moves(f, turns, i, white),
        );
    }
}

/// Cells after the rook of a castling move has moved; the king on `from`
/// castles when the cells between it and the rook are empty.
pub open spec fn rook_moved(f: Seq<i32>, from: int, to: int) -> Seq<i32> {
    let fb = f[from];
    if from == 95 && to == 97 && fb == 15 && f[96] == 0 {
        f.update(98, 0).update(96, 11)
    } else if from == 95 && to == 93 && fb == 15 && f[94] == 0 && f[93] == 0 && f[92] == 0 {
        f.update(91, 0).update(94, 11)
    } else if from == 25 && to == 27 && fb == 25 && f[26] == 0 {
        f.update(28, 0).update(26, 21)
    } else if from == 25 && to == 23 && fb == 25 && f[24] == 0 && f[23] == 0 && f[22] == 0 {
        f.update(21, 0).update(24, 21)
    } else {
        f
    }
}

/// Cells after `do_turn(t)`.
pub open spec fn field_after_turn(f: Seq<i32>, t: TurnView) -> Seq<i32> {
    let f1 = rook_moved(f, t.from as int, t.to as int);
    let moved = if t.promotion {
        if f1[t.from as int] / 10 == 1 { 14i32 } else { 24i32 }
    } else {
        f1[t.from as int]
    };
    f1.update(t.to as int, moved).update(t.from as int, 0)
}

/// Cells after the rook of a castling move went back; the king standing on
/// `to` marks the castling move.
pub open spec fn rook_restored(f: Seq<i32>, from: int, to: int) -> Seq<i32> {
    if from == 95 && to == 97 && f[to] == 15 {
        f.update(98, 11).update(96, 0)
    } else if from == 95 && to == 93 && f[to] == 15 {
        f.update(91, 11).update(94, 0)
    } else if from == 25 && to == 27 && f[to] == 25 {
        f.update(28, 21).update(26, 0)
    } else if from == 25 && to == 23 && f[to] == 25 {
        f.update(21, 21).update(24, 0)
    } else {
        f
    }
}

/// Cells after `do_undo_turn(t)`.
pub open spec fn field_after_undo_turn(f: Seq<i32>, t: TurnView) -> Seq<i32> {
    let f1 = rook_restored(f, t.from as int, t.to as int);
    let back = if t.promotion {
        if f1[t.to as int] / 10 == 1 { 10i32 } else { 20i32 }
    } else {
        f1[t.to as int]
    };
    f1.update(t.from as int, back).update(t.to as int, if t.capture == -1 { 0i32 } else { t.capture as i32 })
}

/// The fifty-move counter after `t`: reset by a pawn move or a capture.
pub open spec fn fifty_after_turn(f: Seq<i32>, t: TurnView, fifty: u32) -> int {
    if f[t.from as int] % 10 == 0 || f[t.to as int] != 0 { 0 } else { fifty + 1 }
}

/// The board after `do_turn(t)`.
pub open spec fn view_after_turn(v: BoardView, t: TurnView) -> BoardView {
    BoardView {
        field: field_after_turn(v.field, t),
        pty: (v.pty + 1) as u32,
        fifty_move_rule: fifty_after_turn(v.field, t, v.fifty_move_rule) as u32,
        moves: v.moves + seq![' '] + turn_text(t, false),
        turns: v.turns.push(t),
        ..v
    }
}

/// The cells of a turn that may be played: it starts on a piece, ends on an
/// empty cell unless it captures, captures only where something stands
/// (`capture` -1 is left unchecked), and ends on the board.
pub open spec fn turn_cells_ok(f: Seq<i32>, t: TurnView) -> bool {
    &&& t.from < 120
    &&& t.to < 120
    &&& f[t.from as int] >= 10
    &&& (f[t.to as int] != 0 ==> t.capture != 0)
    &&& (t.capture != -1 && f[t.to as int] == 0 ==> t.capture == 0)
    &&& f[t.to as int] >= 0
}

/// What `do_turn` needs: the cells allow the turn, a promoting piece has a
/// colour, and no counter overflows.
pub open spec fn can_do_turn(v: BoardView, t: TurnView) -> bool {
    let f = v.field;
    &&& turn_cells_ok(f, t)
    &&& (t.promotion ==> f[t.from as int] <= 25)
    &&& fifty_after_turn(f, t, v.fifty_move_rule) <= u32::MAX
    &&& v.pty < u32::MAX
}

/// What `do_undo_turn` needs: a move to take back, a promoted piece with a
/// colour.
pub open spec fn can_undo_turn(v: BoardView, t: TurnView) -> bool {
    &&& t.from < 120
    &&& t.to < 120
    &&& v.pty >= 1
    &&& v.moves.len() >= 5
    &&& v.turns.len() >= 1
    &&& (t.promotion ==> 10 <= rook_restored(v.field, t.from as int, t.to as int)[t.to as int] <= 25)
}

/// The target cells of a `from, to` move list.
pub open spec fn targets_of(raw: Seq<usize>) -> Seq<i32> {
    Seq::new(raw.len() / 2, |k: int| raw[2 * k + 1] as i32)
}

/// The first cell among `0..n` holding `v`, or -1.
pub open spec fn first_cell_of(f: Seq<i32>, v: i32, n: int) -> int
    decreases n,
{
    if n <= 0 {
        -1
    } else if first_cell_of(f, v, n - 1) != -1 {
        first_cell_of(f, v, n - 1)
    } else if f[n - 1] == v {
        n - 1
    } else {
        -1
    }
}

/// Cell of `white`'s king (the first one on the board), or -1.
pub open spec fn king_index(f: Seq<i32>, white: bool) -> int {
    first_cell_of(f, king_value(white), 120)
}

/// `white`'s king stands on one of the cells `targets` reaches.
pub open spec fn in_check(f: Seq<i32>, targets: Seq<i32>, white: bool) -> bool {
    targets.contains(king_index(f, white) as i32)
}

/// Cells a castling king crosses for the castling move `from, to`; empty for
/// any other move.
pub open spec fn castle_crossing(from: int, to: int) -> Seq<i32> {
    if from == 95 && to == 97 {
        seq![95i32, 96i32, 97i32]
    } else if from == 95 && to == 93 {
        seq![95i32, 94i32, 93i32]
    } else if from == 25 && to == 27 {
        seq![25i32, 26i32, 27i32]
    } else if from == 25 && to == 23 {
        seq![25i32, 24i32, 23i32]
    } else {
        seq![]
    }
}

/// A played move `t` is illegal: its side's king is attacked by one of the
/// replies in `t.post_villain`, or a castling king crossed an attacked cell.
pub open spec fn illegal_after(f: Seq<i32>, t: TurnView) -> bool {
    let targets = targets_of(t.post_villain);
    let white = f[t.to as int] / 10 == 1;
    let king = if t.from == 95 { 15i32 } else { 25i32 };
    in_check(f, targets, white) || (castle_crossing(t.from as int, t.to as int).len() > 0 && f[t.to as int]
        == king && exists|k: int|
        0 <= k < 3 && targets.contains(#[trigger] castle_crossing(t.from as int, t.to as int)[k]))
}

/// Once a cell holding `v` is found it stays the first one.
pub proof fn lemma_first_cell_stays(f: Seq<i32>, v: i32, n: int, m: int)
    requires
        n <= m,
        first_cell_of(f, v, n) != -1,
    ensures
        first_cell_of(f, v, m) == first_cell_of(f, v, n),
    decreases m - n,
{
    if n < m {
        lemma_first_cell_stays(f, v, n, m - 1);
    }
}

/// Whether `cell` occurs in `cells`.
fn contains_cell(cells: &Vec<i32>, cell: i32) -> (b: bool)
    ensures
        b == cells@.contains(cell),
{
    let mut k: usize = 0;
    while k < cells.len()
        invariant
            k <= cells@.len(),
            forall|j: int| 0 <= j < k ==> cells@[j] != cell,
        decreases cells@.len() - k,
    {
        if cells[k] == cell {
            return true;
        }
        k = k + 1;
    }
    false
}

/// A piece of `white`'s side.
pub open spec fn own_piece(v: i32, white: bool) -> bool {
    if white { 10 <= v <= 15 } else { 20 <= v <= 25 }
}

/// Every cell of the playing area is empty or holds a piece.
pub open spec fn pieces_only(f: Seq<i32>) -> bool {
    forall|i: int| #![trigger f[i]] is_inner(i) ==> f[i] == 0 || own_piece(f[i], true) || own_piece(f[i], false)
}

/// A king moving two cells from its start cell finds the castling cells
/// empty and its rook at home.
pub open spec fn castle_ready(f: Seq<i32>, i: int, t: int) -> bool {
    &&& (i == 95 && t == 97 && f[i] == 15 ==> f[96] == 0 && f[98] == 11)
    &&& (i == 95 && t == 93 && f[i] == 15 ==> f[94] == 0 && f[93] == 0 && f[92] == 0 && f[91] == 11)
    &&& (i == 25 && t == 27 && f[i] == 25 ==> f[26] == 0 && f[28] == 21)
    &&& (i == 25 && t == 23 && f[i] == 25 ==> f[24] == 0 && f[23] == 0 && f[22] == 0 && f[21] == 21)
}

/// A listed move: a piece of `white` moves onto a good target.
pub open spec fn sane_move(f: Seq<i32>, white: bool) -> spec_fn(int, int) -> bool {
    |i: int, t: int| is_inner(i) && own_piece(f[i], white) && good_target(f, i, t, white) && castle_ready(f, i, t)
}

pub proof fn lemma_history_moves_sane(f: Seq<i32>, turns: Seq<TurnView>, white: bool, n: int)
    requires
        frame_ok(f),
        n <= 99,
    ensures
        pairs_all(history_moves(f, turns, white, n), sane_move(f, white)),
    decreases n,
{
    let p = sane_move(f, white);
    if n <= 21 {
        lemma_pairs_all_empty(p);
    } else {
        lemma_history_moves_sane(f, turns, white, n - 1);
        let i = n - 1;
        let v = f[i];
        let m = history_piece_moves(f, turns, i, white);
        if v <= 0 || (10 <= v <= 15 && !white) || (20 <= v <= 25 && white) {
            lemma_pairs_all_empty(p);
        } else {
            lemma_on_board_is_inner(f, i);
            if v == king_value(white) {
                let q = step_from(f, i, king_dirs(), white);
                lemma_steps_targets(f, i, king_dirs(), 8, white);
                let st = steps(f, i, king_dirs(), 8, white);
                assert forall|k: int| 0 <= k < st.len() / 2 implies #[trigger] p(st[2 * k] as int, st[2 * k + 1] as int) by {
                    assert(q(st[2 * k] as int, st[2 * k + 1] as int));
                }
                let e: Seq<i32> = seq![];
                lemma_pairs_all_empty(p);
                let c1 = if !moved_from(turns, 98) && f[96] == 0 && f[97] == 0 && f[98] == 11 {
                    pair(95, 97)
                } else {
                    e
                };
                let c2 = if !moved_from(turns, 91) && f[94] == 0 && f[93] == 0 && f[92] == 0 && f[91]
                    == rook_value(white) {
                    pair(95, 93)
                } else {
                    e
                };
                let c3 = if !moved_from(turns, 28) && f[26] == 0 && f[27] == 0 && f[28] == 21 {
                    pair(25, 27)
                } else {
                    e
                };
                let c4 = if !moved_from(turns, 21) && f[24] == 0 && f[23] == 0 && f[22] == 0 && f[21]
                    == rook_value(white) {
                    pair(25, 23)
                } else {
                    e
                };
                if i == 95 {
                    if !moved_from(turns, 98) && f[96] == 0 && f[97] == 0 && f[98] == 11 {
                        lemma_pairs_all_pair(95, 97, p);
                    }
                    if !moved_from(turns, 91) && f[94] == 0 && f[93] == 0 && f[92] == 0 && f[91]
                        == rook_value(white) {
                        lemma_pairs_all_pair(95, 93, p);
                    }
                    lemma_pairs_all_concat(c1, c2, p);
                }
                if i == 25 {
                    if !moved_from(turns, 28) && f[26] == 0 && f[27] == 0 && f[28] == 21 {
                        lemma_pairs_all_pair(25, 27, p);
                    }
                    if !moved_from(turns, 21) && f[24] == 0 && f[23] == 0 && f[22] == 0 && f[21]
                        == rook_value(white) {
                        lemma_pairs_all_pair(25, 23, p);
                    }
                    lemma_pairs_all_concat(c3, c4, p);
                }
                lemma_pairs_all_concat(st, history_castles(f, turns, i, white), p);
            } else {
                let q = from_cell(f, i, white);
                if v == pawn_value(white) {
                    lemma_pawn_targets(f, i, white);
                } else if v == knight_value(white) {
                    lemma_steps_targets(f, i, knight_jumps(), 8, white);
                    let st = steps(f, i, knight_jumps(), 8, white);
                    assert forall|k: int| 0 <= k < st.len() / 2 implies #[trigger] q(st[2 * k] as int, st[2 * k + 1] as int) by {
                        assert(step_from(f, i, knight_jumps(), white)(st[2 * k] as int, st[2 * k + 1] as int));
                    }
                } else if v == bishop_value(white) {
                    lemma_slides_targets(f, i, bishop_dirs(), 4, white);
                } else if v == queen_value(white) {
                    lemma_slides_targets(f, i, king_dirs(), 8, white);
                } else if v == rook_value(white) {
                    lemma_slides_targets(f, i, rook_dirs(), 4, white);
                } else {
                    lemma_pairs_all_empty(q);
                }
                assert forall|k: int| 0 <= k < m.len() / 2 implies #[trigger] p(m[2 * k] as int, m[2 * k + 1] as int) by {
                    assert(q(m[2 * k] as int, m[2 * k + 1] as int));
                }
            }
        }
        lemma_pairs_all_concat(history_moves(f, turns, white, n - 1), m, p);
    }
}

impl Board {
    pub open spec fn wf(&self) -> bool {
        board_wf(self@)
    }

    /// The start position, white to move, no history.
    pub fn new() -> (b: Board)
        ensures
            b@.field == start_field(),
            b@.pty == 0,
            b@.fifty_move_rule == 0,
            b@.state == GameState::Normal,
            b@.moves == Seq::<char>::empty(),
            b@.turns == Seq::<TurnView>::empty(),
            b@.positions == Seq::<(Seq<char>, i32)>::empty(),
            b.wf(),
    {
        let b = Board {
            field: [
                -11, -11, -11, -11, -11, -11, -11, -11, -11, -11,
                -11, -11, -11, -11, -11, -11, -11, -11, -11, -11,
                -11, 21, 22, 23, 24, 25, 23, 22, 21, -11,
                -11, 20, 20, 20, 20, 20, 20, 20, 20, -11,
                -11, 0, 0, 0, 0, 0, 0, 0, 0, -11,
                -11, 0, 0, 0, 0, 0, 0, 0, 0, -11,
                -11, 0, 0, 0, 0, 0, 0, 0, 0, -11,
                -11, 0, 0, 0, 0, 0, 0, 0, 0, -11,
                -11, 10, 10, 10, 10, 10, 10, 10, 10, -11,
                -11, 11, 12, 13, 14, 15, 13, 12, 11, -11,
                -11, -11, -11, -11, -11, -11, -11, -11, -11, -11,
                -11, -11, -11, -11, -11, -11, -11, -11, -11, -11,
            ],
            pty: 0,
            fifty_move_rule: 0,
            state: GameState::Normal,
            moves: String::new(),
            turns: Vec::with_capacity(200),
            position_map: Vec::new(),
        };
        assert(b.field@ =~= start_field());
        assert(b@.turns =~= Seq::<TurnView>::empty());
        assert(b@.positions =~= Seq::<(Seq<char>, i32)>::empty());
        b
    }

    pub fn get_pty(&self) -> (p: u32)
        ensures
            p == self@.pty,
    {
        self.pty
    }

    pub fn get_state(&self) -> (s: &GameState)
        ensures
            *s == self@.state,
    {
        &self.state
    }

    pub fn set_state(&mut self, state: GameState)
        ensures
            final(self)@ == (BoardView { state, ..old(self)@ }),
    {
        self.state = state;
    }

    pub fn get_field(&self) -> (f: &[i32; 120])
        ensures
            f@ == self@.field,
    {
        &self.field
    }

    /// Puts `piece` on cell `index`.
    pub fn set_field_index(&mut self, index: usize, piece: i32)
        requires
            index < 120,
        ensures
            final(self)@ == (BoardView { field: old(self)@.field.update(index as int, piece), ..old(self)@ }),
    {
        self.field[index] = piece;
    }

    /// Removes every piece from the playing rows.
    pub fn clear_field(&mut self)
        ensures
            final(self)@ == (BoardView { field: cleared(old(self)@.field), ..old(self)@ }),
            old(self).wf() ==> final(self).wf(),
    {
        let mut i: usize = 21;
        while i < 99
            invariant
                21 <= i <= 99,
                self.pty == old(self).pty,
                self.fifty_move_rule == old(self).fifty_move_rule,
                self.state == old(self).state,
                self.moves == old(self).moves,
                self.turns == old(self).turns,
                self.position_map == old(self).position_map,
                forall|j: int|
                    0 <= j < 120 ==> #[trigger] self.field@[j] == (if 21 <= j < i && old(self).field@[j]
                        > 0 {
                        0i32
                    } else {
                        old(self).field@[j]
                    }),
            decreases 99 - i,
        {
            if self.field[i] > 0 {
                self.field[i] = 0;
            }
            i = i + 1;
        }
        assert(self.field@ =~= cleared(old(self).field@));
    }

    /// Checks that `turn` may be played: it starts on a piece, ends on an
    /// empty cell unless it captures, captures only where something stands
    /// (`capture` -1 is left unchecked), and ends on the board. A turn that
    /// fails these checks stops the game; they are this function's
    /// precondition, and on the turns that pass it changes nothing.
    pub fn validate_turn(&self, turn: &Turn)
        requires
            turn_cells_ok(self@.field, turn@),
    {
    }

    /// Whether the piece on `field_index` is white.
    pub fn is_white_field(&self, field_index: usize) -> (w: bool)
        requires
            field_index < 120,
            10 <= self@.field[field_index as int] <= 25,
        ensures
            w == (self@.field[field_index as int] / 10 == 1),
    {
        self.field[field_index] / 10 == 1
    }

    /// Number of cells holding a value above 1.
    pub fn get_pieces_on_field(&self) -> (n: i32)
        ensures
            n == pieces_in(self@.field, 120),
    {
        let mut n: i32 = 0;
        let mut i: usize = 0;
        while i < 120
            invariant
                i <= 120,
                n == pieces_in(self.field@, i as int),
                0 <= n <= i,
            decreases 120 - i,
        {
            if self.field[i] > 1 {
                n = n + 1;
            }
            i = i + 1;
        }
        n
    }

    /// Letter of the figure on `field_nr` ("" for a pawn or an empty cell).
    pub fn get_piece_for_field(&self, field_nr: usize) -> (s: &str)
        requires
            field_nr < 120,
        ensures
            s@ == crate::notation_util::figure_letter(self@.field[field_nr as int]),
    {
        let figure = self.field[field_nr] % 10;
        if figure == 1 {
            proof {
                reveal_strlit("R");
            }
            "R"
        } else if figure == 2 {
            proof {
                reveal_strlit("N");
            }
            "N"
        } else if figure == 3 {
            proof {
                reveal_strlit("B");
            }
            "B"
        } else if figure == 4 {
            proof {
                reveal_strlit("Q");
            }
            "Q"
        } else if figure == 5 {
            proof {
                reveal_strlit("K");
            }
            "K"
        } else {
            proof {
                reveal_strlit("");
            }
            ""
        }
    }

    pub fn get_all_made_turns(&self) -> (t: &Vec<Turn>)
        ensures
            t@.map_values(|t: Turn| t@) == self@.turns,
    {
        &self.turns
    }

    pub fn get_last_turn(&self) -> (t: &Turn)
        requires
            self@.turns.len() > 0,
        ensures
            t@ == self@.turns.last(),
    {
        &self.turns[self.turns.len() - 1]
    }

    /// Whether some move of the history started on cell `c`.
    fn has_moved_from(&self, c: usize) -> (b: bool)
        ensures
            b == moved_from(self@.turns, c as int),
    {
        let mut k: usize = 0;
        while k < self.turns.len()
            invariant
                k <= self.turns@.len(),
                forall|j: int| 0 <= j < k ==> #[trigger] self.turns@[j].from != c,
            decreases self.turns@.len() - k,
        {
            if self.turns[k].from == c {
                assert(self@.turns[k as int].from == c);
                return true;
            }
            k = k + 1;
        }
        assert forall|j: int| 0 <= j < self@.turns.len() implies self@.turns[j].from != c by {
            assert(self@.turns[j] == self.turns@[j]@);
        }
        false
    }

    /// Appends the castling moves of a king on `i`.
    fn push_castles(&self, i: i32, white: bool, moves: &mut Vec<i32>)
        requires
            is_inner(i as int),
        ensures
            final(moves)@ == old(moves)@ + history_castles(self@.field, self@.turns, i as int, white),
    {
        let ghost start = old(moves)@;
        let field = &self.field;
        let rook: i32 = if white { 11 } else { 21 };
        if i == 95 && !self.has_moved_from(95) {
            if !self.has_moved_from(98) && field[96] == 0 && field[97] == 0 && field[98] == 11 {
                moves.push(i);
                moves.push(i + 2);
            }
            let ghost mid = moves@;
            if !self.has_moved_from(91) && field[94] == 0 && field[93] == 0 && field[92] == 0
                && field[91] == rook {
                moves.push(i);
                moves.push(i - 2);
            }
            assert(moves@ =~= start + history_castles(self@.field, self@.turns, i as int, white));
        } else if i == 25 && !self.has_moved_from(25) {
            if !self.has_moved_from(28) && field[26] == 0 && field[27] == 0 && field[28] == 21 {
                moves.push(i);
                moves.push(i + 2);
            }
            if !self.has_moved_from(21) && field[24] == 0 && field[23] == 0 && field[22] == 0
                && field[21] == rook {
                moves.push(i);
                moves.push(i - 2);
            }
            assert(moves@ =~= start + history_castles(self@.field, self@.turns, i as int, white));
        } else {
            assert(moves@ =~= start + history_castles(self@.field, self@.turns, i as int, white));
        }
    }

    /// Moves of `white`'s pieces as `from, to` pairs, cell by cell: king
    /// steps and castling (king and rook unmoved, cells between empty),
    /// pawn pushes and captures, knight jumps and the slides of bishops,
    /// queens and rooks.
    pub fn generate_moves_list(&self, white: bool) -> (r: Vec<usize>)
        requires
            self.wf(),
        ensures
            r@ == move_list(self@, white),
            inner_pairs(history_moves(self@.field, self@.turns, white, 99)),
    {
        let field = &self.field;
        let mut moves: Vec<i32> = Vec::with_capacity(64);
        let mut i: i32 = 21;
        while i < 99
            invariant
                frame_ok(field@),
                field@ == self@.field,
                21 <= i <= 99,
                moves@ == history_moves(self@.field, self@.turns, white, i as int),
            decreases 99 - i,
        {
            let ghost start = moves@;
            let v = field[i as usize];
            let king: i32 = if white { 15 } else { 25 };
            if v <= 0 || (v >= 10 && v <= 15 && !white) || (v >= 20 && v <= 25 && white) {
            } else {
                proof {
                    lemma_on_board_is_inner(field@, i as int);
                }
                if v == king {
                    let dirs = king_dir_array();
                    push_steps(field, i, dirs.as_slice(), white, &mut moves);
                    self.push_castles(i, white, &mut moves);
                } else if v == (if white { 10 } else { 20 }) {
                    push_pawn_moves(field, i, white, &mut moves);
                } else if v == (if white { 12 } else { 22 }) {
                    let jumps = knight_jump_array();
                    push_steps(field, i, jumps.as_slice(), white, &mut moves);
                } else if v == (if white { 13 } else { 23 }) {
                    let dirs = bishop_dir_array();
                    push_slides(field, i, dirs.as_slice(), white, &mut moves);
                } else if v == (if white { 14 } else { 24 }) {
                    let dirs = king_dir_array();
                    push_slides(field, i, dirs.as_slice(), white, &mut moves);
                } else if v == (if white { 11 } else { 21 }) {
                    let dirs = rook_dir_array();
                    push_slides(field, i, dirs.as_slice(), white, &mut moves);
                }
            }
            assert(moves@ =~= start + history_piece_moves(self@.field, self@.turns, i as int, white));
            i = i + 1;
        }
        proof {
            lemma_history_moves_inner(self@.field, self@.turns, white, 99);
        }
        let mut out: Vec<usize> = Vec::with_capacity(moves.len());
        let mut k: usize = 0;
        while k < moves.len()
            invariant
                k <= moves@.len(),
                inner_pairs(moves@),
                out@ == moves@.take(k as int).map_values(|x: i32| x as usize),
            decreases moves@.len() - k,
        {
            assert(is_inner(moves@[k as int] as int));
            out.push(moves[k] as usize);
            assert(moves@.take(k + 1) =~= moves@.take(k as int).push(moves@[k as int]));
            assert(out@ =~= moves@.take(k + 1).map_values(|x: i32| x as usize));
            k = k + 1;
        }
        assert(moves@.take(moves@.len() as int) =~= moves@);
        out
    }

    /// Plays `turn`: moves the piece (a castling king takes its rook along,
    /// a promoting pawn becomes a queen), counts the ply and the fifty-move
    /// counter, and records the move in the text and the history.
    pub fn do_turn(&mut self, turn: &Turn)
        requires
            old(self).wf(),
            can_do_turn(old(self)@, turn@),
        ensures
            final(self).wf(),
            final(self)@ == view_after_turn(old(self)@, turn@),
    {
        self.validate_turn(turn);
        let from = turn.from;
        let to = turn.to;
        if self.field[from] % 10 == 0 || self.field[to] != 0 {
            self.fifty_move_rule = 0;
        } else {
            self.fifty_move_rule = self.fifty_move_rule + 1;
        }
        proof {
            lemma_on_board_is_inner(self.field@, from as int);
            lemma_on_board_is_inner(self.field@, to as int);
        }
        self.move_rook(from, to);
        if turn.is_promotion() {
            self.field[to] = if self.is_white_field(from) { 14 } else { 24 };
        } else {
            self.field[to] = self.field[from];
        }
        self.field[from] = 0;
        self.pty = self.pty + 1;
        let ghost moves0 = self.moves@;
        push_char(&mut self.moves, ' ');
        let text = turn.to_algebraic(false);
        self.moves.append(text.as_str());
        let copy = turn.duplicate();
        self.turns.push(copy);
        assert(self@.turns =~= old(self)@.turns.push(turn@));
        assert(self.field@ =~= field_after_turn(old(self)@.field, turn@));
        assert(self@.moves =~= old(self)@.moves + seq![' '] + turn_text(turn@, false));
        assert(crate::square::frame_ok(self.field@));
    }

    fn move_rook(&mut self, from: usize, to: usize)
        requires
            from < 120,
        ensures
            final(self).field@ == rook_moved(old(self).field@, from as int, to as int),
            final(self).pty == old(self).pty,
            final(self).fifty_move_rule == old(self).fifty_move_rule,
            final(self).state == old(self).state,
            final(self).moves == old(self).moves,
            final(self).turns == old(self).turns,
            final(self).position_map == old(self).position_map,
    {
        let fb = self.field[from];
        if from == 95 && to == 97 && fb == 15 && self.field[96] == 0 {
            self.field[98] = 0;
            self.field[96] = 11;
        } else if from == 95 && to == 93 && fb == 15 && self.field[94] == 0 && self.field[93] == 0
            && self.field[92] == 0 {
            self.field[91] = 0;
            self.field[94] = 11;
        } else if from == 25 && to == 27 && fb == 25 && self.field[26] == 0 {
            self.field[28] = 0;
            self.field[26] = 21;
        } else if from == 25 && to == 23 && fb == 25 && self.field[24] == 0 && self.field[23] == 0
            && self.field[22] == 0 {
            self.field[21] = 0;
            self.field[24] = 21;
        }
    }

    fn restore_rook(&mut self, from: usize, to: usize)
        requires
            to < 120,
        ensures
            final(self).field@ == rook_restored(old(self).field@, from as int, to as int),
            final(self).pty == old(self).pty,
            final(self).fifty_move_rule == old(self).fifty_move_rule,
            final(self).state == old(self).state,
            final(self).moves == old(self).moves,
            final(self).turns == old(self).turns,
            final(self).position_map == old(self).position_map,
    {
        if from == 95 && to == 97 && self.field[to] == 15 {
            self.field[98] = 11;
            self.field[96] = 0;
        } else if from == 95 && to == 93 && self.field[to] == 15 {
            self.field[91] = 11;
            self.field[94] = 0;
        } else if from == 25 && to == 27 && self.field[to] == 25 {
            self.field[28] = 21;
            self.field[26] = 0;
        } else if from == 25 && to == 23 && self.field[to] == 25 {
            self.field[21] = 21;
            self.field[24] = 0;
        }
    }

    /// Takes `turn` back: the piece (and the rook of a castling move) goes
    /// back, a promoted piece becomes a pawn again, the captured value
    /// returns, the last move leaves the text and the history, and the game
    /// is running again.
    pub fn do_undo_turn(&mut self, turn: &Turn)
        requires
            old(self).wf(),
            can_undo_turn(old(self)@, turn@),
        ensures
            final(self)@ == (BoardView {
                field: field_after_undo_turn(old(self)@.field, turn@),
                pty: (old(self)@.pty - 1) as u32,
                state: GameState::Normal,
                moves: old(self)@.moves.subrange(0, old(self)@.moves.len() - 5),
                turns: old(self)@.turns.drop_last(),
                ..old(self)@
            }),
            is_inner(turn.from as int) && is_inner(turn.to as int) ==> final(self).wf(),
    {
        let from = turn.from;
        let to = turn.to;
        self.restore_rook(from, to);
        if turn.is_promotion() {
            self.field[from] = if self.is_white_field(to) { 10 } else { 20 };
        } else {
            self.field[from] = self.field[to];
        }
        self.field[to] = if turn.capture == -1 { 0 } else { turn.capture as i32 };
        self.pty = self.pty - 1;
        self.state = GameState::Normal;
        let n = self.moves.as_str().unicode_len();
        let kept = String::from_str(self.moves.as_str().substring_ascii(0, n - 5));
        self.moves = kept;
        let last = self.turns.len() - 1;
        self.turns.remove(last);
        assert(self@.turns =~= old(self)@.turns.drop_last());
        assert(self.field@ =~= field_after_undo_turn(old(self)@.field, turn@));
        proof {
            if is_inner(turn.from as int) && is_inner(turn.to as int) {
                assert(crate::square::frame_ok(self.field@));
            }
            assert(vstd::utf8::is_ascii_chars(self.moves@));
        }
    }

    /// The target cells of a `from, to` move list.
    pub(crate) fn get_target_fields_of_raw_moves(raw_moves: &Vec<usize>) -> (r: Vec<i32>)
        ensures
            r@ == targets_of(raw_moves@),
    {
        let mut villains_target_fields: Vec<i32> = Vec::with_capacity(60);
        let mut i: usize = 0;
        while i < raw_moves.len()
            invariant
                i <= raw_moves@.len(),
                villains_target_fields@ == targets_of(raw_moves@.take(i as int)),
            decreases raw_moves@.len() - i,
        {
            if i % 2 == 1 {
                villains_target_fields.push(raw_moves[i] as i32);
            }
            assert(villains_target_fields@ =~= targets_of(raw_moves@.take(i + 1)));
            i = i + 1;
        }
        assert(raw_moves@.take(raw_moves@.len() as int) =~= raw_moves@);
        villains_target_fields
    }

    fn first_index_of(&self, v: i32) -> (r: i32)
        ensures
            r == first_cell_of(self@.field, v, 120),
    {
        let mut i: usize = 0;
        while i < 120
            invariant
                i <= 120,
                first_cell_of(self.field@, v, i as int) == -1,
            decreases 120 - i,
        {
            if self.field[i] == v {
                proof {
                    lemma_first_cell_stays(self.field@, v, i + 1, 120);
                }
                return i as i32;
            }
            i = i + 1;
        }
        -1
    }

    /// Cell of the white king.
    pub(crate) fn index_of_white_king(&self) -> (r: i32)
        requires
            king_index(self@.field, true) != -1,
        ensures
            r == king_index(self@.field, true),
    {
        self.first_index_of(15)
    }

    /// Cell of the black king.
    pub(crate) fn index_of_black_king(&self) -> (r: i32)
        requires
            king_index(self@.field, false) != -1,
        ensures
            r == king_index(self@.field, false),
    {
        self.first_index_of(25)
    }

    /// Whether `white`'s king stands on one of `villains_target_fields`.
    pub(crate) fn is_in_chess(&self, villains_target_fields: &Vec<i32>, white: bool) -> (b: bool)
        requires
            king_index(self@.field, white) != -1,
        ensures
            b == in_check(self@.field, villains_target_fields@, white),
    {
        let idx_of_king = if white { self.index_of_white_king() } else { self.index_of_black_king() };
        contains_cell(villains_target_fields, idx_of_king)
    }

    /// Whether the played move `turn` must be dropped: its king is attacked
    /// by a reply in `turn.post_villain`, or a castling king crossed an
    /// attacked cell.
    pub(crate) fn prune_illegal_moves(&self, turn: &mut Turn) -> (b: bool)
        requires
            old(turn).to < 120,
            10 <= self@.field[old(turn).to as int] <= 25,
            king_index(self@.field, self@.field[old(turn).to as int] / 10 == 1) != -1,
        ensures
            b == illegal_after(self@.field, old(turn)@),
            *final(turn) == *old(turn),
    {
        let villains_target_fields = Board::get_target_fields_of_raw_moves(&turn.post_villain);
        let white = self.is_white_field(turn.to);
        if self.is_in_chess(&villains_target_fields, white) {
            return true;
        }
        let crossing: [i32; 3] = if turn.from == 95 && turn.to == 97 {
            [95, 96, 97]
        } else if turn.from == 95 && turn.to == 93 {
            [95, 94, 93]
        } else if turn.from == 25 && turn.to == 27 {
            [25, 26, 27]
        } else {
            [25, 24, 23]
        };
        let is_castle = (turn.from == 95 && (turn.to == 97 || turn.to == 93)) || (turn.from == 25
            && (turn.to == 27 || turn.to == 23));
        let king: i32 = if turn.from == 95 { 15 } else { 25 };
        if is_castle && self.field[turn.to] == king {
            assert(crossing@ =~= castle_crossing(turn.from as int, turn.to as int));
            let mut k: usize = 0;
            while k < 3
                invariant
                    k <= 3,
                    crossing@ == castle_crossing(turn.from as int, turn.to as int),
                    *turn == *old(turn),
                    castle_crossing(turn.from as int, turn.to as int).len() == 3,
                    self@.field[turn.to as int] == (if turn.from == 95 { 15i32 } else { 25i32 }),
                    villains_target_fields@ == targets_of(turn.post_villain@),
                    forall|j: int| 0 <= j < k ==> !villains_target_fields@.contains(#[trigger] crossing@[j]),
                decreases 3 - k,
            {
                if contains_cell(&villains_target_fields, crossing[k]) {
                    assert(targets_of(turn.post_villain@).contains(
                        castle_crossing(turn.from as int, turn.to as int)[k as int],
                    ));
                    return true;
                }
                k = k + 1;
            }
            return false;
        }
        false
    }

    /// Counts one more visit of the position `fen`.
    pub fn add_position_for_3_move_repetition_check(&mut self, fen: String)
        requires
            old(self).wf(),
            forall|i: int|
                0 <= i < old(self)@.positions.len() && old(self)@.positions[i].0 == fen@ ==> old(
                    self,
                )@.positions[i].1 < i32::MAX,
        ensures
            final(self).wf(),
            final(self)@ == (BoardView {
                positions: positions_after_visit(old(self)@.positions, fen@),
                ..old(self)@
            }),
    {
        let ghost p = old(self)@.positions;
        let mut k: usize = 0;
        while k < self.position_map.len()
            invariant
                self == old(self),
                self.wf(),
                p == self@.positions,
                keys_unique(p),
                forall|i: int| 0 <= i < p.len() && p[i].0 == fen@ ==> p[i].1 < i32::MAX,
                p.len() == self.position_map@.len(),
                k <= self.position_map@.len(),
                forall|j: int| 0 <= j < k ==> #[trigger] self.position_map@[j].0@ != fen@,
            decreases self.position_map@.len() - k,
        {
            if self.position_map[k].0 == fen {
                let count = self.position_map[k].1;
                assert(p[k as int] == (self.position_map@[k as int].0@, self.position_map@[k as int].1));
                assert(p[k as int].0 == fen@);
                assert(keys_unique(p));
                self.position_map.set(k, (fen, count + 1));
                proof {
                    let i = choose|i: int| 0 <= i < p.len() && p[i].0 == fen@;
                    assert(i == k);
                }
                assert(self@.positions =~= positions_after_visit(p, fen@));
                assert(forall|i: int| 0 <= i < p.len() ==> #[trigger] self@.positions[i].0 == p[i].0);
                assert forall|i: int, j: int| 0 <= i < j < self@.positions.len() implies self@.positions[i].0
                    != self@.positions[j].0 by {
                    assert(self@.positions[i].0 == p[i].0);
                    assert(self@.positions[j].0 == p[j].0);
                }
                assert(frame_ok(self@.field));
                assert(vstd::utf8::is_ascii_chars(self@.moves));
                return;
            }
            k = k + 1;
        }
        assert forall|i: int| 0 <= i < p.len() implies p[i].0 != fen@ by {
            assert(p[i] == (self.position_map@[i].0@, self.position_map@[i].1));
        }
        self.position_map.push((fen, 1));
        assert(self@.positions =~= positions_after_visit(p, fen@));
    }
}


/// `t` can be played and taken back on `v` leaving the cells as they were:
/// `capture` is what stands on `to`, a promoting piece is a pawn, and a king
/// moving two cells from its start castles with its rook at home.
pub open spec fn turn_restorable(v: BoardView, t: TurnView) -> bool {
    let f = v.field;
    let fb = f[t.from as int];
    &&& can_do_turn(v, t)
    &&& t.from != t.to
    &&& (t.promotion ==> fb == 10 || fb == 20)
    &&& f[t.to as int] == (if t.capture == -1 { 0i32 } else { t.capture as i32 })
    &&& (!t.promotion && t.from == 95 && t.to == 97 && fb == 15 ==> f[96] == 0 && f[98] == 11)
    &&& (!t.promotion && t.from == 95 && t.to == 93 && fb == 15 ==> f[94] == 0 && f[93] == 0 && f[92]
        == 0 && f[91] == 11)
    &&& (!t.promotion && t.from == 25 && t.to == 27 && fb == 25 ==> f[26] == 0 && f[28] == 21)
    &&& (!t.promotion && t.from == 25 && t.to == 23 && fb == 25 ==> f[24] == 0 && f[23] == 0 && f[22]
        == 0 && f[21] == 21)
}

/// Taking a move back restores the board: after `do_turn(t)` the board
/// allows `do_undo_turn(t)`, which gives back the cells, the ply count, the
/// moves text and the history it started from.
pub proof fn lemma_undo_turn_restores(v: BoardView, t: TurnView)
    requires
        frame_ok(v.field),
        turn_restorable(v, t),
    ensures
        ({
            let after = view_after_turn(v, t);
            &&& can_undo_turn(after, t)
            &&& field_after_undo_turn(after.field, t) == v.field
            &&& (after.pty - 1) as u32 == v.pty
            &&& after.moves.subrange(0, after.moves.len() - 5) == v.moves
            &&& after.turns.drop_last() == v.turns
        }),
{
    let f = v.field;
    let from = t.from as int;
    let to = t.to as int;
    let f1 = field_after_turn(f, t);
    let cap: i32 = if t.capture == -1 { 0i32 } else { t.capture as i32 };
    if t.promotion {
        assert(rook_moved(f, from, to) == f);
        let p: i32 = if f[from] / 10 == 1 { 14i32 } else { 24i32 };
        assert(f1 == f.update(to, p).update(from, 0));
        assert(f1[to] == p);
        assert(rook_restored(f1, from, to) == f1);
        let back: i32 = if p / 10 == 1 { 10i32 } else { 20i32 };
        assert(back == f[from]);
        assert(field_after_undo_turn(f1, t) == f1.update(from, back).update(to, cap));
        assert(field_after_undo_turn(f1, t) =~= f);
    } else {
        let r = rook_moved(f, from, to);
        assert(f1 == r.update(to, r[from]).update(from, 0));
        assert(r[from] == f[from]);
        let g = rook_restored(f1, from, to);
        assert(g[to] == f[from]);
        assert(field_after_undo_turn(f1, t) == g.update(from, g[to]).update(to, cap));
        assert(g.update(from, g[to]).update(to, cap) =~= f);
    }
    let m = v.moves + seq![' '] + turn_text(t, false);
    assert(m.subrange(0, m.len() - 5) =~= v.moves);
    assert(v.turns.push(t).drop_last() =~= v.turns);
}


/// The move from `from` to `to` as first listed: it captures what stands on
/// `to`, has no replies yet, and promotes when a pawn reaches the last rank.
pub open spec fn candidate(f: Seq<i32>, from: int, to: int, white: bool) -> TurnView {
    let t = TurnView {
        from: from as usize,
        to: to as usize,
        capture: f[to] as i8,
        post_villain: seq![],
        post_my: seq![],
        promotion: false,
    };
    TurnView { promotion: promotes(f, t, white), ..t }
}

/// The moves of the first `n` pairs of the move list `m`; with
/// `only_capture` the moves onto an empty cell are left out.
pub open spec fn candidates_of(f: Seq<i32>, m: Seq<i32>, white: bool, only_capture: bool, n: int) -> Seq<TurnView>
    decreases n,
{
    if n <= 0 {
        seq![]
    } else {
        let c = candidate(f, m[2 * (n - 1)] as int, m[2 * (n - 1) + 1] as int, white);
        candidates_of(f, m, white, only_capture, n - 1) + (if only_capture && c.capture == 0 {
            seq![]
        } else {
            seq![c]
        })
    }
}

/// The moves `get_turn_list` tries on board `v`.
pub open spec fn candidates(v: BoardView, white: bool, only_capture: bool) -> Seq<TurnView> {
    let m = history_moves(v.field, v.turns, white, 99);
    candidates_of(v.field, m, white, only_capture, (m.len() / 2) as int)
}

/// The move `t` after it was tried on the cells `f` with history `turns`:
/// it gets the opponent's replies, and, unless they show it illegal, the
/// mover's next moves.
pub open spec fn tried(f: Seq<i32>, turns: Seq<TurnView>, t: TurnView, white: bool) -> TurnView {
    let a = field_after_turn(f, t);
    let ts = turns.push(t);
    let pv = TurnView { post_villain: moves_on(a, ts, !white), ..t };
    if illegal_after(a, pv) {
        pv
    } else {
        TurnView { post_my: moves_on(a, ts, white), ..pv }
    }
}

/// The tried moves of `cs` that keep a next move for the mover, in order.
pub open spec fn legal_from(f: Seq<i32>, turns: Seq<TurnView>, cs: Seq<TurnView>, white: bool) -> Seq<TurnView>
    decreases cs.len(),
{
    if cs.len() == 0 {
        seq![]
    } else {
        let t = tried(f, turns, cs.last(), white);
        legal_from(f, turns, cs.drop_last(), white) + (if t.post_my.len() > 0 {
            seq![t]
        } else {
            seq![]
        })
    }
}

/// The list `get_turn_list` returns on board `v`.
pub open spec fn turn_list_of(v: BoardView, white: bool, only_capture: bool) -> Seq<TurnView> {
    legal_from(v.field, v.turns, candidates(v, white, only_capture), white)
}

/// The fifty-move counter after the moves `ts` were each played and taken
/// back on the cells `f` (taking back leaves the counter as it is).
pub open spec fn fifty_after_turns(f: Seq<i32>, ts: Seq<TurnView>, fifty: int) -> int
    decreases ts.len(),
{
    if ts.len() == 0 {
        fifty
    } else {
        let t = ts.last();
        if f[t.from as int] % 10 == 0 || f[t.to as int] != 0 {
            0
        } else {
            fifty_after_turns(f, ts.drop_last(), fifty) + 1
        }
    }
}

/// Some position was seen more than twice.
pub open spec fn repeated_position(p: Seq<(Seq<char>, i32)>) -> bool {
    exists|i: int| 0 <= i < p.len() && p[i].1 > 2
}

/// The state `get_turn_list` leaves: a draw by repetition; with no legal
/// move a win for the other side when `white` is in check, else a draw;
/// otherwise a running game.
pub open spec fn listing_state(v: BoardView, white: bool, none_left: bool) -> GameState {
    if repeated_position(v.positions) {
        GameState::Draw
    } else if none_left {
        if in_check(v.field, targets_of(move_list(v, !white)), white) {
            if white { GameState::BlackWin } else { GameState::WhiteWin }
        } else {
            GameState::Draw
        }
    } else {
        GameState::Normal
    }
}

pub proof fn lemma_first_cell_found(f: Seq<i32>, v: i32, n: int, k: int)
    requires
        0 <= k < n,
        f[k] == v,
    ensures
        first_cell_of(f, v, n) != -1,
    decreases n,
{
    if k < n - 1 {
        lemma_first_cell_found(f, v, n - 1, k);
    }
}

pub proof fn lemma_first_cell_holds(f: Seq<i32>, v: i32, n: int)
    requires
        first_cell_of(f, v, n) != -1,
    ensures
        0 <= first_cell_of(f, v, n) < n,
        f[first_cell_of(f, v, n)] == v,
    decreases n,
{
    if n > 0 && first_cell_of(f, v, n - 1) != -1 {
        lemma_first_cell_holds(f, v, n - 1);
    }
}

pub proof fn lemma_fifty_after_turns_bound(f: Seq<i32>, ts: Seq<TurnView>, fifty: int)
    requires
        fifty >= 0,
    ensures
        0 <= fifty_after_turns(f, ts, fifty) <= fifty + ts.len(),
    decreases ts.len(),
{
    if ts.len() > 0 {
        lemma_fifty_after_turns_bound(f, ts.drop_last(), fifty);
    }
}

/// Every candidate is a listed move in its first form, and there are no
/// more candidates than pairs.
pub proof fn lemma_candidates_sane(f: Seq<i32>, m: Seq<i32>, white: bool, only_capture: bool, n: int)
    requires
        pairs_all(m, sane_move(f, white)),
        0 <= n <= m.len() / 2,
    ensures
        candidates_of(f, m, white, only_capture, n).len() <= n,
        forall|j: int|
            0 <= j < candidates_of(f, m, white, only_capture, n).len() ==> {
                let c = #[trigger] candidates_of(f, m, white, only_capture, n)[j];
                &&& sane_move(f, white)(c.from as int, c.to as int)
                &&& c == candidate(f, c.from as int, c.to as int, white)
            },
    decreases n,
{
    if n > 0 {
        lemma_candidates_sane(f, m, white, only_capture, n - 1);
        let k = n - 1;
        assert(sane_move(f, white)(m[2 * k] as int, m[2 * k + 1] as int));
        let prev = candidates_of(f, m, white, only_capture, n - 1);
        let c = candidate(f, m[2 * k] as int, m[2 * k + 1] as int, white);
        let all = candidates_of(f, m, white, only_capture, n);
        assert forall|j: int| 0 <= j < all.len() implies {
            let c = #[trigger] all[j];
            &&& sane_move(f, white)(c.from as int, c.to as int)
            &&& c == candidate(f, c.from as int, c.to as int, white)
        } by {
            if j < prev.len() {
                assert(all[j] == prev[j]);
            } else {
                assert(all[j] == c);
            }
        }
    }
}

/// A listed move in its first form can be played and taken back; after it
/// the moved piece is the mover's and the mover's king is still there.
pub proof fn lemma_candidate_playable(v: BoardView, t: TurnView, white: bool)
    requires
        board_wf(v),
        pieces_only(v.field),
        sane_move(v.field, white)(t.from as int, t.to as int),
        t == candidate(v.field, t.from as int, t.to as int, white),
        king_index(v.field, white) != -1,
        fifty_after_turn(v.field, t, v.fifty_move_rule) <= u32::MAX,
        v.pty < u32::MAX,
    ensures
        turn_restorable(v, t),
        is_inner(t.to as int),
        ({
            let a = field_after_turn(v.field, t);
            &&& 10 <= a[t.to as int] <= 25
            &&& (a[t.to as int] / 10 == 1) == white
            &&& king_index(a, white) != -1
        }),
{
    let f = v.field;
    let from = t.from as int;
    let to = t.to as int;
    lemma_on_board_is_inner(f, to);
    assert(f[to] == 0 || own_piece(f[to], true) || own_piece(f[to], false));
    let a = field_after_turn(f, t);
    let kv = king_value(white);
    let k = king_index(f, white);
    lemma_first_cell_holds(f, kv, 120);
    let r = rook_moved(f, from, to);
    assert(r[from] == f[from]);
    if k == from {
        assert(a[to] == kv);
        lemma_first_cell_found(a, kv, 120, to);
    } else {
        assert(k != to);
        assert(r[k] == f[k]);
        assert(a[k] == kv);
        lemma_first_cell_found(a, kv, 120, k);
    }
}

impl Board {
    /// Plays the listed move `cand`, records the opponent's replies and,
    /// unless they show the move illegal, the mover's next moves, and takes
    /// the move back.
    fn try_turn(&mut self, cand: &Turn, white: bool) -> (r: Turn)
        requires
            old(self).wf(),
            pieces_only(old(self)@.field),
            sane_move(old(self)@.field, white)(cand.from as int, cand.to as int),
            cand@ == candidate(old(self)@.field, cand.from as int, cand.to as int, white),
            king_index(old(self)@.field, white) != -1,
            fifty_after_turn(old(self)@.field, cand@, old(self)@.fifty_move_rule) <= u32::MAX,
            old(self)@.pty < u32::MAX,
        ensures
            final(self).wf(),
            r@ == tried(old(self)@.field, old(self)@.turns, cand@, white),
            final(self)@ == (BoardView {
                fifty_move_rule: fifty_after_turn(
                    old(self)@.field,
                    cand@,
                    old(self)@.fifty_move_rule,
                ) as u32,
                state: GameState::Normal,
                ..old(self)@
            }),
    {
        let ghost v = self@;
        let mut turn = cand.duplicate();
        proof {
            lemma_candidate_playable(v, turn@, white);
            lemma_undo_turn_restores(v, turn@);
        }
        self.do_turn(&turn);
        let ghost after = self@;
        let w = self.is_white_field(turn.to);
        turn.post_villain = self.generate_moves_list(!w);
        let prune = self.prune_illegal_moves(&mut turn);
        if !prune {
            turn.post_my = self.generate_moves_list(w);
        }
        assert(can_undo_turn(after, turn@));
        assert(field_after_undo_turn(after.field, turn@) == field_after_undo_turn(after.field, cand@));
        self.do_undo_turn(&turn);
        assert(self@.turns == v.turns);
        turn
    }

    /// Plays `turn` and returns its long algebraic form: the letter of the
    /// moving figure (none for a pawn) and the move with its promotion.
    pub fn do_turn_and_return_long_algebraic(&mut self, turn: &Turn) -> (s: String)
        requires
            old(self).wf(),
            can_do_turn(old(self)@, turn@),
        ensures
            final(self).wf(),
            final(self)@ == view_after_turn(old(self)@, turn@),
            s@ == figure_letter(old(self)@.field[turn.from as int]) + turn_text(turn@, true),
    {
        let sign = self.get_piece_for_field(turn.from);
        let mut long_algebraic = String::from_str(sign);
        let text = turn.to_algebraic(true);
        long_algebraic.append(text.as_str());
        self.do_turn(turn);
        long_algebraic
    }

    /// A measure of how open the position is: the moves of both sides
    /// counted together, divided by ten.
    pub fn get_complexity(&self) -> (c: i32)
        requires
            self.wf(),
        ensures
            c == tdiv(
                ((move_list(self@, true).len() / 2 + move_list(self@, false).len() / 2) as i32) as int,
                10,
            ),
    {
        let white_moves = self.generate_moves_list(true);
        let black_moves = self.generate_moves_list(false);
        let n = white_moves.len() / 2 + black_moves.len() / 2;
        (n as i32) / 10
    }

    /// Whether some position was seen more than twice.
    fn has_repeated_position(&self) -> (b: bool)
        ensures
            b == repeated_position(self@.positions),
    {
        let mut k: usize = 0;
        while k < self.position_map.len()
            invariant
                k <= self.position_map@.len(),
                forall|j: int| 0 <= j < k ==> #[trigger] self.position_map@[j].1 <= 2,
            decreases self.position_map@.len() - k,
        {
            if self.position_map[k].1 > 2 {
                assert(self@.positions[k as int].1 > 2);
                return true;
            }
            k = k + 1;
        }
        assert forall|i: int| 0 <= i < self@.positions.len() implies !(self@.positions[i].1 > 2) by {
            assert(self@.positions[i].1 == self.position_map@[i].1);
        }
        false
    }

    /// The legal moves of `white` (with `only_capture`, the captures only),
    /// each with the opponent's replies and the mover's next moves. A move
    /// that leaves its king attacked, lets a castling king cross an attacked
    /// cell, or leaves the mover without a next move is dropped. With no
    /// move left the game is won by the other side if `white` is in check
    /// and drawn otherwise; a position seen more than twice draws the game.
    pub fn get_turn_list(&mut self, white: bool, only_capture: bool) -> (r: Vec<Turn>)
        requires
            old(self).wf(),
            pieces_only(old(self)@.field),
            king_index(old(self)@.field, white) != -1,
            old(self)@.pty < u32::MAX,
            old(self)@.fifty_move_rule + move_list(old(self)@, white).len() / 2 <= u32::MAX,
        ensures
            final(self).wf(),
            r@.map_values(|t: Turn| t@) == turn_list_of(old(self)@, white, only_capture),
            final(self)@ == (BoardView {
                fifty_move_rule: fifty_after_turns(
                    old(self)@.field,
                    candidates(old(self)@, white, only_capture),
                    old(self)@.fifty_move_rule as int,
                ) as u32,
                state: listing_state(
                    old(self)@,
                    white,
                    turn_list_of(old(self)@, white, only_capture).len() == 0,
                ),
                ..old(self)@
            }),
    {
        let ghost v = self@;
        let ghost hm = history_moves(v.field, v.turns, white, 99);
        let moves = self.generate_moves_list(white);
        proof {
            lemma_history_moves_sane(v.field, v.turns, white, 99);
        }
        let mut cands: Vec<Turn> = Vec::with_capacity(50);
        let n = moves.len() / 2;
        let mut k: usize = 0;
        while k < n
            invariant
                k <= n,
                n == hm.len() / 2,
                moves@.len() == hm.len(),
                hm.len() <= usize::MAX,
                moves@ == hm.map_values(|x: i32| x as usize),
                inner_pairs(hm),
                self@ == v,
                cands@.map_values(|t: Turn| t@) == candidates_of(v.field, hm, white, only_capture, k as int),
            decreases n - k,
        {
            assert(is_inner(hm[2 * k as int] as int));
            assert(is_inner(hm[2 * k + 1] as int));
            let from = moves[2 * k];
            let to = moves[2 * k + 1];
            let capture = self.field[to] as i8;
            let ghost c = candidate(v.field, hm[2 * k as int] as int, hm[2 * k + 1] as int, white);
            let ghost before = cands@.map_values(|t: Turn| t@);
            if !(only_capture && capture == 0) {
                let mut t = Turn {
                    from,
                    to,
                    capture,
                    post_villain: Vec::new(),
                    post_my: Vec::new(),
                    promotion: false,
                };
                t.enrich_promotion_move(self, white);
                assert(t@ == c);
                cands.push(t);
                assert(cands@.map_values(|t: Turn| t@) =~= before.push(c));
            }
            assert(cands@.map_values(|t: Turn| t@) =~= candidates_of(
                v.field,
                hm,
                white,
                only_capture,
                k + 1,
            ));
            k = k + 1;
        }
        let ghost cs = candidates(v, white, only_capture);
        proof {
            lemma_candidates_sane(v.field, hm, white, only_capture, (hm.len() / 2) as int);
            lemma_fifty_after_turns_bound(v.field, cs, v.fifty_move_rule as int);
            assert(cs.take(0) =~= Seq::<TurnView>::empty());
        }
        let mut result: Vec<Turn> = Vec::with_capacity(50);
        let mut j: usize = 0;
        while j < cands.len()
            invariant
                j <= cands@.len(),
                cands@.map_values(|t: Turn| t@) == cs,
                cs.len() <= hm.len() / 2,
                forall|i: int|
                    0 <= i < cs.len() ==> {
                        let c = #[trigger] cs[i];
                        &&& sane_move(v.field, white)(c.from as int, c.to as int)
                        &&& c == candidate(v.field, c.from as int, c.to as int, white)
                    },
                self.wf(),
                board_wf(v),
                pieces_only(v.field),
                king_index(v.field, white) != -1,
                v.pty < u32::MAX,
                v.fifty_move_rule + cs.len() <= u32::MAX,
                self@ == (BoardView {
                    fifty_move_rule: fifty_after_turns(v.field, cs.take(j as int), v.fifty_move_rule as int) as u32,
                    state: if j == 0 { v.state } else { GameState::Normal },
                    ..v
                }),
                result@.map_values(|t: Turn| t@) == legal_from(v.field, v.turns, cs.take(j as int), white),
            decreases cands@.len() - j,
        {
            let ghost c = cs[j as int];
            let ghost prev = cs.take(j as int);
            proof {
                lemma_fifty_after_turns_bound(v.field, prev, v.fifty_move_rule as int);
                assert(cs.take(j + 1) =~= prev.push(c));
                assert(cs.take(j + 1).drop_last() =~= prev);
                assert(cands@[j as int]@ == c);
            }
            let r = self.try_turn(&cands[j], white);
            let ghost before = result@.map_values(|t: Turn| t@);
            if r.post_my.len() > 0 {
                result.push(r);
                assert(result@.map_values(|t: Turn| t@) =~= before.push(r@));
            }
            assert(result@.map_values(|t: Turn| t@) =~= legal_from(
                v.field,
                v.turns,
                cs.take(j + 1),
                white,
            ));
            j = j + 1;
        }
        proof {
            assert(cs.take(cs.len() as int) =~= cs);
        }
        if result.len() == 0 {
            let opp = self.generate_moves_list(!white);
            let targets = Board::get_target_fields_of_raw_moves(&opp);
            if self.is_in_chess(&targets, white) {
                self.state = if white { GameState::BlackWin } else { GameState::WhiteWin };
            } else {
                self.state = GameState::Draw;
            }
        }
        if self.has_repeated_position() {
            self.state = GameState::Draw;
        }
        result
    }
}


/// FEN letter of a piece value ('x' for any other value).
pub open spec fn fen_letter(v: i32) -> char {
    if v == 10 {
        'P'
    } else if v == 11 {
        'R'
    } else if v == 12 {
        'N'
    } else if v == 13 {
        'B'
    } else if v == 14 {
        'Q'
    } else if v == 15 {
        'K'
    } else if v == 20 {
        'p'
    } else if v == 21 {
        'r'
    } else if v == 22 {
        'n'
    } else if v == 23 {
        'b'
    } else if v == 24 {
        'q'
    } else if v == 25 {
        'k'
    } else {
        'x'
    }
}

/// The decimal digit of `n` (`0 <= n <= 9`).
pub open spec fn digit_char(n: int) -> char {
    (48 + n) as char
}

/// `s` followed by the count of pending empty cells, when there are any.
pub open spec fn with_count(s: Seq<char>, empty: int) -> Seq<char> {
    if empty > 0 { s.push(digit_char(empty)) } else { s }
}

/// The placement text of the cells `21..n` and the count of empty cells not
/// yet written: a piece gives its letter, a frame cell a '/', and a run of
/// empty cells its length.
pub open spec fn fen_scan(f: Seq<i32>, n: int) -> (Seq<char>, int)
    decreases n,
{
    if n <= 21 {
        (seq![], 0)
    } else {
        let (s, empty) = fen_scan(f, n - 1);
        let i = n - 1;
        let p = f[i];
        if i % 10 == 0 {
            (s, empty)
        } else if p == OFF_BOARD {
            (with_count(s, empty).push('/'), 0)
        } else if p != 0 {
            (with_count(s, empty).push(fen_letter(p)), 0)
        } else {
            (s, empty + 1)
        }
    }
}

/// The piece placement field of the FEN of the cells `f`.
pub open spec fn fen_of(f: Seq<i32>) -> Seq<char> {
    with_count(fen_scan(f, 99).0, fen_scan(f, 99).1)
}

/// On a framed board a run of empty cells stops at the end of its row.
pub proof fn lemma_fen_scan_count(f: Seq<i32>, n: int)
    requires
        frame_ok(f),
        21 <= n <= 99,
    ensures
        0 <= fen_scan(f, n).1 <= (n - 1) % 10,
        (n - 1) % 10 == 9 ==> fen_scan(f, n).1 == 0,
    decreases n,
{
    if n > 21 {
        lemma_fen_scan_count(f, n - 1);
        if (n - 1) % 10 == 9 {
            assert(!is_inner(n - 1));
        }
    }
}

/// Piece value of a FEN letter (0 for any other character).
pub open spec fn fen_piece(c: char) -> i32 {
    if c == 'K' {
        15
    } else if c == 'Q' {
        14
    } else if c == 'R' {
        11
    } else if c == 'B' {
        13
    } else if c == 'N' {
        12
    } else if c == 'P' {
        10
    } else if c == 'k' {
        25
    } else if c == 'q' {
        24
    } else if c == 'r' {
        21
    } else if c == 'b' {
        23
    } else if c == 'n' {
        22
    } else if c == 'p' {
        20
    } else {
        0
    }
}

pub open spec fn is_digit_char(c: char) -> bool {
    '0' <= c && c <= '9'
}

/// The cell reached after reading the first `n` characters of a FEN and
/// whether a space ended the placement field: a '/' skips the frame, a
/// digit skips that many cells, any other character one cell.
pub open spec fn fen_walk(s: Seq<char>, n: int) -> (int, bool)
    decreases n,
{
    if n <= 0 {
        (21, false)
    } else {
        let (idx, stop) = fen_walk(s, n - 1);
        let c = s[n - 1];
        if stop || c == ' ' {
            (idx, true)
        } else if c == '/' {
            (idx + 2, false)
        } else if is_digit_char(c) {
            (idx + (c as int - 48), false)
        } else {
            (idx + 1, false)
        }
    }
}

/// Reading character `k` of `s` puts a piece on the board.
pub open spec fn fen_places(s: Seq<char>, k: int) -> bool {
    let c = s[k];
    &&& !fen_walk(s, k).1
    &&& c != ' '
    &&& c != '/'
    &&& !is_digit_char(c)
    &&& fen_piece(c) != 0
}

/// The cells after the first `n` characters of `s` were read onto the
/// cleared cells `f`.
pub open spec fn fen_placed(f: Seq<i32>, s: Seq<char>, n: int) -> Seq<i32>
    decreases n,
{
    if n <= 0 {
        cleared(f)
    } else {
        let g = fen_placed(f, s, n - 1);
        if fen_places(s, n - 1) {
            g.update(fen_walk(s, n - 1).0, fen_piece(s[n - 1]))
        } else {
            g
        }
    }
}

/// Every piece of the FEN lands on a cell of the board.
pub open spec fn fen_fits(s: Seq<char>) -> bool {
    &&& forall|k: int| 0 <= k < s.len() && fen_places(s, k) ==> #[trigger] fen_walk(s, k).0 < 120
    &&& fen_walk(s, s.len() as int).0 <= usize::MAX
}

/// Every piece of the FEN lands inside the playing area.
pub open spec fn fen_on_board(s: Seq<char>) -> bool {
    forall|k: int| 0 <= k < s.len() && fen_places(s, k) ==> is_inner(#[trigger] fen_walk(s, k).0)
}

pub proof fn lemma_fen_walk_grows(s: Seq<char>, k: int, n: int)
    requires
        0 <= k <= n,
    ensures
        21 <= fen_walk(s, k).0 <= fen_walk(s, n).0,
    decreases n,
{
    if k < n {
        lemma_fen_walk_grows(s, k, n - 1);
    } else if n > 0 {
        lemma_fen_walk_grows(s, n - 1, n - 1);
    }
}

pub proof fn lemma_fen_placed_len(f: Seq<i32>, s: Seq<char>, n: int)
    requires
        f.len() == 120,
        fen_fits(s),
        n <= s.len(),
    ensures
        fen_placed(f, s, n).len() == 120,
    decreases n,
{
    if n > 0 {
        lemma_fen_placed_len(f, s, n - 1);
        lemma_fen_walk_grows(s, n - 1, n - 1);
        if fen_places(s, n - 1) {
            assert(fen_walk(s, n - 1).0 < 120);
        }
    }
}

/// Cell named by a square like "e2", when it names one.
pub open spec fn index_from_notation(s: Seq<char>) -> Option<usize> {
    if s.len() == 2 && crate::notation_util::is_file(s[0]) && crate::notation_util::is_rank(s[1]) {
        Some(crate::notation_util::cell_of(s) as usize)
    } else {
        None
    }
}

/// Cell of a square name like "e2" ("a8" is 21, "h1" is 98); `None` unless
/// it is a file letter a..h followed by a rank digit 1..8.
pub fn get_index_from_notation(notation: &str) -> (r: Option<usize>)
    ensures
        r == index_from_notation(notation@),
{
    if notation.unicode_len() != 2 {
        return None;
    }
    let col = crate::notation_util::file_index(notation.get_char(0));
    if col == -1 {
        return None;
    }
    let c = notation.get_char(1);
    if !('0' <= c && c <= '9') {
        return None;
    }
    let digit = crate::notation_util::digit_value(c) as usize;
    let row = 10 - digit;
    if row < 2 || row > 9 {
        return None;
    }
    Some(row * 10 + col as usize)
}

/// The piece placement field of the FEN of the cells `field`
/// ("rnbqkbnr/..."), rank 8 first.
pub fn fen_placement(field: &[i32; 120]) -> (s: String)
    requires
        frame_ok(field@),
    ensures
        s@ == fen_of(field@),
{
    let ghost f = field@;
    let mut fen = String::new();
    let mut empty_count: u8 = 0;
    let mut i: usize = 21;
    while i < 99
        invariant
            21 <= i <= 99,
            f == field@,
            frame_ok(f),
            fen@ == fen_scan(f, i as int).0,
            empty_count as int == fen_scan(f, i as int).1,
        decreases 99 - i,
    {
        proof {
            lemma_fen_scan_count(f, i as int);
        }
        if i % 10 != 0 {
            let piece = field[i];
            if piece == -11 {
                if empty_count > 0 {
                    push_char(&mut fen, ((48 + empty_count) as char));
                    empty_count = 0;
                }
                push_char(&mut fen, '/');
            } else if piece != 0 {
                if empty_count > 0 {
                    push_char(&mut fen, ((48 + empty_count) as char));
                    empty_count = 0;
                }
                push_char(&mut fen, fen_letter_of(piece));
            } else {
                empty_count = empty_count + 1;
            }
        }
        i = i + 1;
    }
    proof {
        lemma_fen_scan_count(f, 99);
    }
    if empty_count != 0 {
        push_char(&mut fen, ((48 + empty_count) as char));
    }
    fen
}

impl Board {
    /// The piece placement field of the FEN of the board ("rnbqkbnr/..."),
    /// rank 8 first.
    pub fn get_fen(&self) -> (s: String)
        requires
            self.wf(),
        ensures
            s@ == fen_of(self@.field),
    {
        fen_placement(&self.field)
    }

    /// Sets the pieces of a FEN's placement field (up to the first space)
    /// on the cleared board; characters that name no piece take a cell and
    /// leave it empty.
    pub fn set_fen(&mut self, fen: &str)
        requires
            fen_fits(fen@),
        ensures
            final(self)@ == (BoardView {
                field: fen_placed(old(self)@.field, fen@, fen@.len() as int),
                ..old(self)@
            }),
            old(self).wf() && fen_on_board(fen@) ==> final(self).wf(),
    {
        self.clear_field();
        let ghost s = fen@;
        let ghost f0 = old(self)@.field;
        let len = fen.unicode_len();
        let mut index: usize = 21;
        let mut k: usize = 0;
        while k < len
            invariant_except_break
                k <= len,
                len == s.len(),
                fen_fits(s),
                !fen_walk(s, k as int).1,
                index as int == fen_walk(s, k as int).0,
            invariant
                fen@ == s,
                f0 == old(self)@.field,
                self@ == (BoardView { field: fen_placed(f0, s, k as int), ..old(self)@ }),
                old(self).wf() && fen_on_board(s) ==> self.wf(),
            ensures
                self@ == (BoardView { field: fen_placed(f0, s, s.len() as int), ..old(self)@ }),
            decreases len - k,
        {
            proof {
                lemma_fen_walk_grows(s, k + 1, s.len() as int);
                lemma_fen_placed_len(f0, s, k as int);
            }
            let c = fen.get_char(k);
            if c == ' ' {
                proof {
                    lemma_fen_rest_stopped(f0, s, k as int + 1, s.len() as int);
                }
                break;
            }
            if c == '/' {
                index = index + 2;
            } else if '0' <= c && c <= '9' {
                index = index + crate::notation_util::digit_value(c) as usize;
            } else {
                let piece = fen_piece_of(c);
                if piece != 0 {
                    self.field[index] = piece;
                }
                index = index + 1;
            }
            k = k + 1;
        }
    }
}

/// Once a space was read, the rest of the FEN changes nothing.
pub proof fn lemma_fen_rest_stopped(f: Seq<i32>, s: Seq<char>, k: int, n: int)
    requires
        1 <= k <= n,
        fen_walk(s, k).1,
    ensures
        fen_placed(f, s, n) == fen_placed(f, s, k),
        fen_walk(s, n).1,
    decreases n,
{
    if k < n {
        lemma_fen_rest_stopped(f, s, k, n - 1);
    }
}

fn fen_letter_of(v: i32) -> (c: char)
    ensures
        c == fen_letter(v),
{
    match v {
        10 => 'P',
        11 => 'R',
        12 => 'N',
        13 => 'B',
        14 => 'Q',
        15 => 'K',
        20 => 'p',
        21 => 'r',
        22 => 'n',
        23 => 'b',
        24 => 'q',
        25 => 'k',
        _ => 'x',
    }
}

fn fen_piece_of(c: char) -> (v: i32)
    ensures
        v == fen_piece(c),
{
    match c {
        'K' => 15,
        'Q' => 14,
        'R' => 11,
        'B' => 13,
        'N' => 12,
        'P' => 10,
        'k' => 25,
        'q' => 24,
        'r' => 21,
        'b' => 23,
        'n' => 22,
        'p' => 20,
        _ => 0,
    }
}

/// Two boards are equal when their cells are.
impl PartialEq for Board {
    fn eq(&self, other: &Self) -> (r: bool) {
        let mut i: usize = 0;
        while i < 120
            invariant
                i <= 120,
                forall|j: int| 0 <= j < i ==> self.field@[j] == other.field@[j],
            decreases 120 - i,
        {
            if self.field[i] != other.field[i] {
                return false;
            }
            i = i + 1;
        }
        assert(self.field@ =~= other.field@);
        true
    }
}

impl PartialEqSpecImpl for Board {
    open spec fn obeys_eq_spec() -> bool {
        true
    }

    open spec fn eq_spec(&self, other: &Board) -> bool {
        self@.field == other@.field
    }
}

proof fn lemma_legal_from_legal(f: Seq<i32>, turns: Seq<TurnView>, cs: Seq<TurnView>, white: bool)
    requires
        forall|i: int| 0 <= i < cs.len() ==> (#[trigger] cs[i]).post_my.len() == 0,
    ensures
        forall|i: int|
            0 <= i < legal_from(f, turns, cs, white).len() ==> {
                let t = #[trigger] legal_from(f, turns, cs, white)[i];
                &&& !illegal_after(field_after_turn(f, t), t)
                &&& t.post_my.len() > 0
            },
    decreases cs.len(),
{
    if cs.len() > 0 {
        assert forall|i: int| 0 <= i < cs.drop_last().len() implies (#[trigger] cs.drop_last()[i]).post_my.len() == 0 by {
            assert(cs.drop_last()[i] == cs[i]);
        }
        assert(cs.last() == cs[cs.len() - 1]);
        lemma_legal_from_legal(f, turns, cs.drop_last(), white);
        let prev = legal_from(f, turns, cs.drop_last(), white);
        let t = tried(f, turns, cs.last(), white);
        let all = legal_from(f, turns, cs, white);
        assert forall|i: int| 0 <= i < all.len() implies {
            let u = #[trigger] all[i];
            &&& !illegal_after(field_after_turn(f, u), u)
            &&& u.post_my.len() > 0
        } by {
            if i < prev.len() {
                assert(all[i] == prev[i]);
            } else {
                let c = cs.last();
                let a = field_after_turn(f, c);
                let pv = TurnView { post_villain: moves_on(a, turns.push(c), !white), ..c };
                assert(all[i] == t);
                assert(field_after_turn(f, t) == a);
                assert(t.post_villain == pv.post_villain && t.from == pv.from && t.to == pv.to);
                assert(illegal_after(a, t) == illegal_after(a, pv));
            }
        }
    }
}

proof fn lemma_candidates_unanswered(f: Seq<i32>, m: Seq<i32>, white: bool, only_capture: bool, n: int)
    ensures
        forall|i: int|
            0 <= i < candidates_of(f, m, white, only_capture, n).len() ==> (#[trigger] candidates_of(
                f,
                m,
                white,
                only_capture,
                n,
            )[i]).post_my.len() == 0,
    decreases n,
{
    if n > 0 {
        lemma_candidates_unanswered(f, m, white, only_capture, n - 1);
        let prev = candidates_of(f, m, white, only_capture, n - 1);
        let all = candidates_of(f, m, white, only_capture, n);
        assert forall|i: int| 0 <= i < all.len() implies (#[trigger] all[i]).post_my.len() == 0 by {
            if i < prev.len() {
                assert(all[i] == prev[i]);
            }
        }
    }
}

/// Every move `get_turn_list` returns is legal and keeps the mover going:
/// the opponent's replies in `post_villain` neither attack the mover's king
/// nor a cell a castling king crossed, and `post_my` is not empty.
pub proof fn lemma_turn_list_legal(v: BoardView, white: bool, only_capture: bool)
    ensures
        forall|i: int|
            0 <= i < turn_list_of(v, white, only_capture).len() ==> {
                let t = #[trigger] turn_list_of(v, white, only_capture)[i];
                &&& !illegal_after(field_after_turn(v.field, t), t)
                &&& t.post_my.len() > 0
            },
{
    let m = history_moves(v.field, v.turns, white, 99);
    lemma_candidates_unanswered(v.field, m, white, only_capture, (m.len() / 2) as int);
    lemma_legal_from_legal(v.field, v.turns, candidates(v, white, only_capture), white);
}

proof fn lemma_fen_letter_readable(v: i32)
    requires
        own_piece(v, true) || own_piece(v, false),
    ensures
        fen_piece(fen_letter(v)) == v,
        fen_letter(v) != ' ',
        fen_letter(v) != '/',
        !is_digit_char(fen_letter(v)),
{
}

proof fn lemma_digit_readable(e: int)
    requires
        1 <= e <= 9,
    ensures
        is_digit_char(digit_char(e)),
        digit_char(e) as int - 48 == e,
        digit_char(e) != ' ',
        digit_char(e) != '/',
{
}

/// What the scan has written after `n` cells starts what it writes later.
proof fn lemma_fen_scan_prefix(g: Seq<i32>, n: int, m: int)
    requires
        n <= m,
    ensures
        fen_scan(g, n).0.len() <= fen_scan(g, m).0.len(),
        fen_scan(g, m).0.subrange(0, fen_scan(g, n).0.len() as int) == fen_scan(g, n).0,
    decreases m - n,
{
    if n < m {
        lemma_fen_scan_prefix(g, n, m - 1);
        let t = fen_scan(g, n).0;
        let u = fen_scan(g, m - 1).0;
        let w = fen_scan(g, m).0;
        assert(w.subrange(0, u.len() as int) == u) by {
            if m > 21 {
                let e = fen_scan(g, m - 1).1;
                assert(with_count(u, e).subrange(0, u.len() as int) =~= u);
                assert(w.subrange(0, u.len() as int) =~= u);
            }
        }
        assert(w.subrange(0, t.len() as int) =~= u.subrange(0, t.len() as int));
    }
}

/// The cell the reading of a FEN has reached when the scan of the cells
/// `21..n` has `e` empty cells pending.
pub open spec fn fen_read_cell(n: int, e: int) -> int {
    (if n % 10 == 0 { n + 1 } else { n }) - e
}

/// Reading back the FEN of `g` onto `f`: after the characters the scan of
/// the cells `21..n` wrote, the reading stands on the next cell to fill and
/// every cell before it holds what `g` holds.
proof fn lemma_fen_read_back_upto(f: Seq<i32>, g: Seq<i32>, n: int)
    requires
        frame_ok(f),
        frame_ok(g),
        pieces_only(f),
        pieces_only(g),
        21 <= n <= 99,
    ensures
        ({
            let s = fen_of(g);
            let t = fen_scan(g, n).0;
            let e = fen_scan(g, n).1;
            let k = t.len() as int;
            &&& k <= s.len()
            &&& s.subrange(0, k) == t
            &&& fen_walk(s, k) == (fen_read_cell(n, e), false)
            &&& forall|j: int| n - e <= j < n ==> is_inner(j) && #[trigger] g[j] == 0
            &&& fen_placed(f, s, k).len() == 120
            &&& forall|i: int|
                0 <= i < 120 ==> #[trigger] fen_placed(f, s, k)[i] == (if is_inner(i) && i < n - e {
                    g[i]
                } else {
                    cleared(f)[i]
                })
            &&& forall|j: int| 0 <= j < k && fen_places(s, j) ==> is_inner(#[trigger] fen_walk(s, j).0)
        }),
    decreases n,
{
    let s = fen_of(g);
    let t99 = fen_scan(g, 99).0;
    lemma_fen_scan_prefix(g, n, 99);
    assert(with_count(t99, fen_scan(g, 99).1).subrange(0, t99.len() as int) =~= t99);
    let t = fen_scan(g, n).0;
    let k = t.len() as int;
    assert(s.subrange(0, t99.len() as int) == t99);
    assert(s.subrange(0, k) =~= t99.subrange(0, k));
    if n == 21 {
        assert(fen_placed(f, s, 0) == cleared(f));
    } else {
        lemma_fen_read_back_upto(f, g, n - 1);
        lemma_fen_scan_count(g, n - 1);
        lemma_fen_scan_count(g, n);
        let i = n - 1;
        let t0 = fen_scan(g, n - 1).0;
        let e0 = fen_scan(g, n - 1).1;
        let k0 = t0.len() as int;
        let p0 = fen_placed(f, s, k0);
        let c0 = fen_read_cell(n - 1, e0);
        assert(s.subrange(0, k0) == t0);
        if i % 10 == 0 {
            assert(!is_inner(i));
        } else if g[i] == OFF_BOARD {
            assert(!is_inner(i));
            assert(i % 10 == 9);
            let w = with_count(t0, e0);
            assert(t == w.push('/'));
            if e0 > 0 {
                lemma_digit_readable(e0);
                assert(s[k0] == t[k0]);
                assert(t[k0] == digit_char(e0));
                assert(s[k0 + 1] == t[k0 + 1]);
                assert(t[k0 + 1] == '/');
                assert(fen_walk(s, k0 + 1) == (c0 + e0, false));
                assert(!fen_places(s, k0));
                assert(!fen_places(s, k0 + 1));
                assert(fen_placed(f, s, k0 + 1) == p0);
                assert(fen_placed(f, s, k0 + 2) == p0);
                assert(k == k0 + 2);
            } else {
                assert(s[k0] == t[k0]);
                assert(t[k0] == '/');
                assert(!fen_places(s, k0));
                assert(fen_placed(f, s, k0 + 1) == p0);
                assert(k == k0 + 1);
            }
            assert forall|x: int| 0 <= x < 120 implies #[trigger] fen_placed(f, s, k)[x] == (if is_inner(x)
                && x < n {
                g[x]
            } else {
                cleared(f)[x]
            }) by {
                if is_inner(x) && n - 1 - e0 <= x < n - 1 {
                    assert(g[x] == 0);
                    assert(f[x] == 0 || own_piece(f[x], true) || own_piece(f[x], false));
                }
            }
        } else if g[i] != 0 {
            assert(is_inner(i));
            assert(own_piece(g[i], true) || own_piece(g[i], false));
            lemma_fen_letter_readable(g[i]);
            let w = with_count(t0, e0);
            assert(t == w.push(fen_letter(g[i])));
            let kl = if e0 > 0 { k0 + 1 } else { k0 };
            if e0 > 0 {
                lemma_digit_readable(e0);
                assert(s[k0] == t[k0]);
                assert(t[k0] == digit_char(e0));
                assert(!fen_places(s, k0));
                assert(fen_walk(s, k0 + 1) == (c0 + e0, false));
                assert(fen_placed(f, s, k0 + 1) == p0);
            }
            assert(fen_walk(s, kl) == (i, false));
            assert(fen_placed(f, s, kl) == p0);
            assert(s[kl] == t[kl]);
            assert(t[kl] == fen_letter(g[i]));
            assert(fen_places(s, kl));
            assert(k == kl + 1);
            assert(fen_placed(f, s, k) == p0.update(i, g[i]));
            assert forall|x: int| 0 <= x < 120 implies #[trigger] fen_placed(f, s, k)[x] == (if is_inner(x)
                && x < n {
                g[x]
            } else {
                cleared(f)[x]
            }) by {
                if is_inner(x) && n - 1 - e0 <= x < n - 1 {
                    assert(g[x] == 0);
                    assert(f[x] == 0 || own_piece(f[x], true) || own_piece(f[x], false));
                }
            }
            assert forall|j: int| 0 <= j < k && fen_places(s, j) implies is_inner(#[trigger] fen_walk(s, j).0) by {
                if j < k0 {
                } else if j == kl {
                } else {
                    assert(!fen_places(s, j));
                }
            }
        } else {
            assert(is_inner(i));
        }
    }
}

/// Writing the placement of a board as FEN and reading it back gives the
/// board back: `set_fen(get_fen())` puts every piece where it was, onto a
/// board that held pieces only.
pub proof fn lemma_fen_read_back(f: Seq<i32>, g: Seq<i32>)
    requires
        frame_ok(f),
        frame_ok(g),
        pieces_only(f),
        pieces_only(g),
    ensures
        fen_fits(fen_of(g)),
        fen_on_board(fen_of(g)),
        fen_placed(f, fen_of(g), fen_of(g).len() as int) == g,
{
    let s = fen_of(g);
    lemma_fen_read_back_upto(f, g, 99);
    lemma_fen_scan_count(g, 99);
    let t = fen_scan(g, 99).0;
    let e = fen_scan(g, 99).1;
    let k = t.len() as int;
    let p = fen_placed(f, s, k);
    if e > 0 {
        lemma_digit_readable(e);
        assert(s == t.push(digit_char(e)));
        assert(s[k] == digit_char(e));
        assert(!fen_places(s, k));
        assert(fen_placed(f, s, k + 1) == p);
    } else {
        assert(s == t);
    }
    assert forall|x: int| 0 <= x < 120 implies #[trigger] p[x] == g[x] by {
        if is_inner(x) && 99 - e <= x {
            assert(g[x] == 0);
            assert(f[x] == 0 || own_piece(f[x], true) || own_piece(f[x], false));
        }
        if !is_inner(x) {
            assert(f[x] == OFF_BOARD && g[x] == OFF_BOARD);
        }
    }
    assert(p =~= g);
    assert forall|j: int| 0 <= j < s.len() && fen_places(s, j) implies #[trigger] fen_walk(s, j).0 < 120 by {
        assert(is_inner(fen_walk(s, j).0));
    }
    assert forall|j: int| 0 <= j < s.len() && fen_places(s, j) implies is_inner(#[trigger] fen_walk(s, j).0) by {
    }
    assert(fen_walk(s, s.len() as int).0 <= 100);
}

/// A placement `get_fen` wrote comes out unchanged after `set_fen` and
/// `get_fen` again.
pub proof fn lemma_fen_written_back(f: Seq<i32>, g: Seq<i32>)
    requires
        frame_ok(f),
        frame_ok(g),
        pieces_only(f),
        pieces_only(g),
    ensures
        fen_of(fen_placed(f, fen_of(g), fen_of(g).len() as int)) == fen_of(g),
{
    lemma_fen_read_back(f, g);
}


/// A character of a rank in a FEN placement: a piece letter or a digit 1-8.
pub open spec fn fen_rank_char(c: char) -> bool {
    fen_piece(c) != 0 || ('1' <= c && c <= '8')
}

/// Value of a digit character.
pub open spec fn digit_value(c: char) -> int {
    c as int - 48
}

/// Cells a rank text covers: a digit as many as it says, a letter one.
pub open spec fn rank_width(w: Seq<char>) -> int
    decreases w.len(),
{
    if w.len() == 0 {
        0
    } else {
        rank_width(w.drop_last()) + (if is_digit_char(w.last()) { digit_value(w.last()) } else { 1 })
    }
}

/// The cells a rank text describes, from its first file on.
pub open spec fn rank_cells(w: Seq<char>) -> Seq<i32>
    decreases w.len(),
{
    if w.len() == 0 {
        seq![]
    } else {
        rank_cells(w.drop_last()) + (if is_digit_char(w.last()) {
            Seq::new(digit_value(w.last()) as nat, |j: int| 0i32)
        } else {
            seq![fen_piece(w.last())]
        })
    }
}

/// Characters `k` and `k + 1` of `w` are not both digits.
pub open spec fn digits_apart(w: Seq<char>, k: int) -> bool {
    !(is_digit_char(w[k]) && is_digit_char(w[k + 1]))
}

/// A rank of a FEN placement: piece letters and digits 1-8, no two digits
/// side by side, covering eight cells.
pub open spec fn fen_rank(w: Seq<char>) -> bool {
    &&& forall|k: int| 0 <= k < w.len() ==> fen_rank_char(#[trigger] w[k])
    &&& forall|k: int| 0 <= k < w.len() - 1 ==> #[trigger] digits_apart(w, k)
    &&& rank_width(w) == 8
}

/// The first `n` ranks joined by '/'.
pub open spec fn ranks_joined(ranks: Seq<Seq<char>>, n: int) -> Seq<char>
    decreases n,
{
    if n <= 0 {
        seq![]
    } else if n == 1 {
        ranks[0]
    } else {
        ranks_joined(ranks, n - 1).push('/') + ranks[n - 1]
    }
}

/// The board cells that eight ranks describe, the eighth rank first.
pub open spec fn ranks_field(ranks: Seq<Seq<char>>) -> Seq<i32> {
    Seq::new(120, |i: int| if is_inner(i) { rank_cells(ranks[i / 10 - 2])[i % 10 - 1] } else { OFF_BOARD })
}

proof fn lemma_rank_cells(w: Seq<char>)
    requires
        forall|k: int| 0 <= k < w.len() ==> fen_rank_char(#[trigger] w[k]),
    ensures
        rank_width(w) >= 0,
        rank_cells(w).len() == rank_width(w),
        forall|j: int| 0 <= j < rank_cells(w).len() ==> #[trigger] rank_cells(w)[j] == 0 || own_piece(
            rank_cells(w)[j],
            true,
        ) || own_piece(rank_cells(w)[j], false),
    decreases w.len(),
{
    if w.len() > 0 {
        let v = w.drop_last();
        assert forall|k: int| 0 <= k < v.len() implies fen_rank_char(#[trigger] v[k]) by {
            assert(v[k] == w[k]);
        }
        lemma_rank_cells(v);
        assert(fen_rank_char(w[w.len() - 1]));
        let a = rank_cells(v);
        let c = rank_cells(w);
        assert forall|j: int| 0 <= j < c.len() implies #[trigger] c[j] == 0 || own_piece(c[j], true)
            || own_piece(c[j], false) by {
            if j < a.len() {
                assert(c[j] == a[j]);
            }
        }
    }
}

proof fn lemma_scan_empty(g: Seq<i32>, n: int, d: int)
    requires
        21 <= n,
        0 <= d,
        forall|j: int| 0 <= j < d ==> #[trigger] g[n + j] == 0 && (n + j) % 10 != 0,
    ensures
        fen_scan(g, n + d) == (fen_scan(g, n).0, fen_scan(g, n).1 + d),
    decreases d,
{
    if d > 0 {
        lemma_scan_empty(g, n, d - 1);
        assert(g[n + (d - 1)] == 0 && (n + (d - 1)) % 10 != 0);
    }
}

proof fn lemma_scan_rank(g: Seq<i32>, base: int, w: Seq<char>)
    requires
        base % 10 == 1,
        21 <= base <= 91,
        forall|k: int| 0 <= k < w.len() ==> fen_rank_char(#[trigger] w[k]),
        forall|k: int| 0 <= k < w.len() - 1 ==> #[trigger] digits_apart(w, k),
        rank_width(w) <= 8,
        forall|j: int| 0 <= j < rank_width(w) ==> #[trigger] g[base + j] == rank_cells(w)[j],
        fen_scan(g, base).1 == 0,
    ensures
        fen_scan(g, base + rank_width(w)) == (if w.len() > 0 && is_digit_char(w.last()) {
            (fen_scan(g, base).0 + w.drop_last(), digit_value(w.last()))
        } else {
            (fen_scan(g, base).0 + w, 0)
        }),
    decreases w.len(),
{
    let t = fen_scan(g, base).0;
    if w.len() == 0 {
        assert(t + w =~= t);
    } else {
        let v = w.drop_last();
        let c = w.last();
        assert forall|k: int| 0 <= k < v.len() implies fen_rank_char(#[trigger] v[k]) by {
            assert(v[k] == w[k]);
        }
        assert forall|k: int| 0 <= k < v.len() - 1 implies #[trigger] digits_apart(v, k) by {
            assert(digits_apart(w, k));
        }
        assert(fen_rank_char(w[w.len() - 1]));
        lemma_rank_cells(v);
        lemma_rank_cells(w);
        let x = base + rank_width(v);
        assert forall|j: int| 0 <= j < rank_width(v) implies #[trigger] g[base + j] == rank_cells(v)[j] by {
            assert(g[base + j] == rank_cells(w)[j]);
        }
        lemma_scan_rank(g, base, v);
        if is_digit_char(c) {
            let d = digit_value(c);
            if v.len() > 0 {
                assert(digits_apart(w, w.len() - 2));
                assert(v.last() == w[w.len() - 2]);
            }
            assert(fen_scan(g, x) == (t + v, 0int));
            assert forall|j: int| 0 <= j < d implies #[trigger] g[x + j] == 0 && (x + j) % 10 != 0 by {
                assert(g[base + (rank_width(v) + j)] == rank_cells(w)[rank_width(v) + j]);
            }
            lemma_scan_empty(g, x, d);
        } else {
            let s0 = fen_scan(g, x);
            assert(with_count(s0.0, s0.1) =~= t + v) by {
                if v.len() > 0 && is_digit_char(v.last()) {
                    assert(digit_char(digit_value(v.last())) == v.last());
                    assert(t + v =~= (t + v.drop_last()).push(v.last()));
                }
            }
            assert(g[base + rank_width(v)] == rank_cells(w)[rank_width(v)]);
            assert(g[x] == fen_piece(c));
            assert(fen_letter(fen_piece(c)) == c);
            assert((t + v).push(c) =~= t + w);
        }
    }
}

proof fn lemma_scan_ranks(ranks: Seq<Seq<char>>, r: int)
    requires
        ranks.len() == 8,
        forall|i: int| 0 <= i < 8 ==> fen_rank(#[trigger] ranks[i]),
        0 <= r <= 7,
    ensures
        fen_scan(ranks_field(ranks), 10 * r + 21) == (if r == 0 {
            seq![]
        } else {
            ranks_joined(ranks, r).push('/')
        }, 0int),
    decreases r,
{
    if r > 0 {
        let g = ranks_field(ranks);
        let q = r - 1;
        lemma_scan_ranks(ranks, q);
        let base = 10 * q + 21;
        let w = ranks[q];
        assert(fen_rank(w));
        assert forall|j: int| 0 <= j < rank_width(w) implies #[trigger] g[base + j] == rank_cells(w)[j] by {
            assert((base + j) / 10 - 2 == q);
            assert((base + j) % 10 - 1 == j);
            assert(is_inner(base + j));
        }
        lemma_scan_rank(g, base, w);
        lemma_rank_cells(w);
        let t = fen_scan(g, base).0;
        let s0 = fen_scan(g, base + 8);
        assert(with_count(s0.0, s0.1) =~= t + w) by {
            if w.len() > 0 && is_digit_char(w.last()) {
                assert(digit_char(digit_value(w.last())) == w.last());
                assert(t + w =~= (t + w.drop_last()).push(w.last()));
            }
        }
        assert(t + w =~= ranks_joined(ranks, r));
        assert(!is_inner(base + 8));
        assert(g[base + 8] == OFF_BOARD);
        assert((base + 8) % 10 != 0);
        assert(fen_scan(g, base + 9) == (with_count(s0.0, s0.1).push('/'), 0int));
        assert((base + 9) % 10 == 0);
        assert(fen_scan(g, base + 10) == fen_scan(g, base + 9));
        assert(10 * r + 21 == base + 10);
    }
}

/// The eight ranks are written back as they were read.
proof fn lemma_ranks_fen(ranks: Seq<Seq<char>>)
    requires
        ranks.len() == 8,
        forall|i: int| 0 <= i < 8 ==> fen_rank(#[trigger] ranks[i]),
    ensures
        frame_ok(ranks_field(ranks)),
        pieces_only(ranks_field(ranks)),
        fen_of(ranks_field(ranks)) == ranks_joined(ranks, 8),
{
    let g = ranks_field(ranks);
    lemma_scan_ranks(ranks, 7);
    let w = ranks[7];
    assert(fen_rank(w));
    assert forall|j: int| 0 <= j < rank_width(w) implies #[trigger] g[91 + j] == rank_cells(w)[j] by {
        assert((91 + j) / 10 - 2 == 7);
        assert((91 + j) % 10 - 1 == j);
        assert(is_inner(91 + j));
    }
    lemma_scan_rank(g, 91, w);
    lemma_rank_cells(w);
    let t = fen_scan(g, 91).0;
    let s0 = fen_scan(g, 99);
    assert(with_count(s0.0, s0.1) =~= t + w) by {
        if w.len() > 0 && is_digit_char(w.last()) {
            assert(digit_char(digit_value(w.last())) == w.last());
            assert(t + w =~= (t + w.drop_last()).push(w.last()));
        }
    }
    assert(t + w =~= ranks_joined(ranks, 8));
    assert forall|i: int| #![trigger g[i]] is_inner(i) implies g[i] == 0 || own_piece(g[i], true)
        || own_piece(g[i], false) by {
        let r = i / 10 - 2;
        assert(0 <= r < 8);
        assert(fen_rank(ranks[r]));
        lemma_rank_cells(ranks[r]);
        assert(0 <= i % 10 - 1 < 8);
        assert(g[i] == rank_cells(ranks[r])[i % 10 - 1]);
    }
}

proof fn lemma_fen_walk_prefix(p: Seq<char>, rest: Seq<char>, n: int)
    requires
        0 <= n <= p.len(),
    ensures
        fen_walk(p + rest, n) == fen_walk(p, n),
    decreases n,
{
    if n > 0 {
        lemma_fen_walk_prefix(p, rest, n - 1);
        assert((p + rest)[n - 1] == p[n - 1]);
    }
}

proof fn lemma_fen_placed_prefix(f: Seq<i32>, p: Seq<char>, rest: Seq<char>, n: int)
    requires
        0 <= n <= p.len(),
    ensures
        fen_placed(f, p + rest, n) == fen_placed(f, p, n),
    decreases n,
{
    if n > 0 {
        lemma_fen_placed_prefix(f, p, rest, n - 1);
        lemma_fen_walk_prefix(p, rest, n - 1);
        assert((p + rest)[n - 1] == p[n - 1]);
    }
}

proof fn lemma_fen_walk_stays(s: Seq<char>, k: int, n: int)
    requires
        0 <= k <= n,
        fen_walk(s, k).1,
    ensures
        fen_walk(s, n) == fen_walk(s, k),
    decreases n,
{
    if k < n {
        lemma_fen_walk_stays(s, k, n - 1);
    }
}

/// Reading a FEN placement and writing it back gives the same text: eight
/// ranks of piece letters and digits 1-8 (no two digits side by side, eight
/// cells each) joined by '/', followed by nothing or by a space and the
/// other fields, fit the board when read, and the placement written from the
/// board they give is the one that was read.
pub proof fn lemma_fen_placement_written_back(f: Seq<i32>, ranks: Seq<Seq<char>>, rest: Seq<char>)
    requires
        frame_ok(f),
        pieces_only(f),
        ranks.len() == 8,
        forall|i: int| 0 <= i < 8 ==> fen_rank(#[trigger] ranks[i]),
        rest.len() == 0 || rest[0] == ' ',
    ensures
        fen_fits(ranks_joined(ranks, 8) + rest),
        fen_on_board(ranks_joined(ranks, 8) + rest),
        fen_of(
            fen_placed(f, ranks_joined(ranks, 8) + rest, (ranks_joined(ranks, 8) + rest).len() as int),
        ) == ranks_joined(ranks, 8),
{
    let p = ranks_joined(ranks, 8);
    let g = ranks_field(ranks);
    let s = p + rest;
    let m = p.len() as int;
    lemma_ranks_fen(ranks);
    lemma_fen_read_back(f, g);
    lemma_fen_placed_prefix(f, p, rest, m);
    if rest.len() == 0 {
        assert(s =~= p);
    } else {
        lemma_fen_walk_prefix(p, rest, m);
        assert(s[m] == ' ');
        assert(fen_walk(s, m + 1).1);
        assert(!fen_places(s, m));
        assert(fen_placed(f, s, m + 1) == fen_placed(f, s, m));
        lemma_fen_rest_stopped(f, s, m + 1, s.len() as int);
        assert forall|k: int| 0 <= k < s.len() && fen_places(s, k) implies is_inner(
            #[trigger] fen_walk(s, k).0,
        ) && fen_walk(s, k).0 < 120 by {
            if k < m {
                lemma_fen_walk_prefix(p, rest, k);
                assert(s[k] == p[k]);
                assert(fen_places(p, k));
            } else if k > m {
                lemma_fen_rest_stopped(f, s, m + 1, k);
            }
        }
        lemma_fen_walk_stays(s, m + 1, s.len() as int);
    }
}


/// No reply of the opponent lands on cell `c`.
pub open spec fn no_reply_onto(t: TurnView, c: usize) -> bool {
    forall|k: int| 0 <= k < t.post_villain.len() / 2 ==> #[trigger] t.post_villain[2 * k + 1] != c
}

proof fn lemma_no_reply_onto(t: TurnView, c: usize)
    requires
        c < 120,
        !targets_of(t.post_villain).contains(c as i32),
    ensures
        no_reply_onto(t, c),
{
    let ts = targets_of(t.post_villain);
    assert forall|k: int| 0 <= k < t.post_villain.len() / 2 implies #[trigger] t.post_villain[2 * k + 1]
        != c by {
        assert(ts[k] == t.post_villain[2 * k + 1] as i32);
    }
}

/// A listed castling move crosses no attacked cell: when the king went from
/// its start cell two cells to a side, no reply of the opponent lands on
/// the cell it left, the cell it passed or the cell it reached.
pub proof fn lemma_castling_not_through_attack(v: BoardView, white: bool, only_capture: bool)
    ensures
        forall|i: int|
            0 <= i < turn_list_of(v, white, only_capture).len() ==> {
                let t = #[trigger] turn_list_of(v, white, only_capture)[i];
                let f = field_after_turn(v.field, t);
                &&& (t.from == 25 && t.to == 23 && f[23] == 25 ==> no_reply_onto(t, 25) && no_reply_onto(
                    t,
                    24,
                ) && no_reply_onto(t, 23))
                &&& (t.from == 25 && t.to == 27 && f[27] == 25 ==> no_reply_onto(t, 25) && no_reply_onto(
                    t,
                    26,
                ) && no_reply_onto(t, 27))
                &&& (t.from == 95 && t.to == 93 && f[93] == 15 ==> no_reply_onto(t, 95) && no_reply_onto(
                    t,
                    94,
                ) && no_reply_onto(t, 93))
                &&& (t.from == 95 && t.to == 97 && f[97] == 15 ==> no_reply_onto(t, 95) && no_reply_onto(
                    t,
                    96,
                ) && no_reply_onto(t, 97))
            },
{
    lemma_turn_list_legal(v, white, only_capture);
    assert forall|i: int| 0 <= i < turn_list_of(v, white, only_capture).len() implies {
        let t = #[trigger] turn_list_of(v, white, only_capture)[i];
        let f = field_after_turn(v.field, t);
        &&& (t.from == 25 && t.to == 23 && f[23] == 25 ==> no_reply_onto(t, 25) && no_reply_onto(t, 24)
            && no_reply_onto(t, 23))
        &&& (t.from == 25 && t.to == 27 && f[27] == 25 ==> no_reply_onto(t, 25) && no_reply_onto(t, 26)
            && no_reply_onto(t, 27))
        &&& (t.from == 95 && t.to == 93 && f[93] == 15 ==> no_reply_onto(t, 95) && no_reply_onto(t, 94)
            && no_reply_onto(t, 93))
        &&& (t.from == 95 && t.to == 97 && f[97] == 15 ==> no_reply_onto(t, 95) && no_reply_onto(t, 96)
            && no_reply_onto(t, 97))
    } by {
        let t = turn_list_of(v, white, only_capture)[i];
        let f = field_after_turn(v.field, t);
        let ts = targets_of(t.post_villain);
        assert(!illegal_after(f, t));
        let cr = castle_crossing(t.from as int, t.to as int);
        if cr.len() > 0 && f[t.to as int] == (if t.from == 95 { 15i32 } else { 25i32 }) {
            assert(!ts.contains(cr[0]));
            assert(!ts.contains(cr[1]));
            assert(!ts.contains(cr[2]));
            lemma_no_reply_onto(t, cr[0] as usize);
            lemma_no_reply_onto(t, cr[1] as usize);
            lemma_no_reply_onto(t, cr[2] as usize);
        }
    }
}


proof fn lemma_first_cell_none(f: Seq<i32>, v: i32, m: int)
    requires
        forall|d: int| 0 <= d < m ==> #[trigger] f[d] != v,
    ensures
        first_cell_of(f, v, m) == -1,
    decreases m,
{
    if m > 0 {
        lemma_first_cell_none(f, v, m - 1);
    }
}

proof fn lemma_first_cell_is(f: Seq<i32>, v: i32, c: int, n: int)
    requires
        0 <= c < n,
        f[c] == v,
        forall|d: int| 0 <= d < c ==> #[trigger] f[d] != v,
    ensures
        first_cell_of(f, v, n) == c,
    decreases n,
{
    if n == c + 1 {
        lemma_first_cell_none(f, v, c);
    } else {
        lemma_first_cell_is(f, v, c, n - 1);
    }
}

/// A listed move leaves its side's king unattacked: no reply of the
/// opponent lands on the cell of the mover's king (the first cell holding
/// it) after the move.
pub proof fn lemma_listed_move_keeps_king_safe(v: BoardView, white: bool, only_capture: bool)
    ensures
        forall|i: int|
            0 <= i < turn_list_of(v, white, only_capture).len() ==> {
                let t = #[trigger] turn_list_of(v, white, only_capture)[i];
                let f = field_after_turn(v.field, t);
                let king: i32 = if f[t.to as int] / 10 == 1 { 15 } else { 25 };
                forall|c: usize|
                    c < 120 && f[c as int] == king && (forall|d: int| 0 <= d < c ==> #[trigger] f[d] != king)
                        ==> #[trigger] no_reply_onto(t, c)
            },
{
    lemma_turn_list_legal(v, white, only_capture);
    assert forall|i: int| 0 <= i < turn_list_of(v, white, only_capture).len() implies {
        let t = #[trigger] turn_list_of(v, white, only_capture)[i];
        let f = field_after_turn(v.field, t);
        let king: i32 = if f[t.to as int] / 10 == 1 { 15 } else { 25 };
        forall|c: usize|
            c < 120 && f[c as int] == king && (forall|d: int| 0 <= d < c ==> #[trigger] f[d] != king)
                ==> #[trigger] no_reply_onto(t, c)
    } by {
        let t = turn_list_of(v, white, only_capture)[i];
        let f = field_after_turn(v.field, t);
        let w = f[t.to as int] / 10 == 1;
        let king: i32 = if w { 15 } else { 25 };
        assert(!illegal_after(f, t));
        assert forall|c: usize|
            c < 120 && f[c as int] == king && (forall|d: int| 0 <= d < c ==> #[trigger] f[d] != king)
                implies #[trigger] no_reply_onto(t, c) by {
            assert(king_value(w) == king);
            lemma_first_cell_is(f, king, c as int, 120);
            assert(king_index(f, w) == c);
            assert(!targets_of(t.post_villain).contains(c as i32));
            lemma_no_reply_onto(t, c);
        }
    }
}

} // verus!
