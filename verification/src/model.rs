//! The board model the manager keeps in step with the engines.
use std::collections::HashMap;
use vstd::prelude::*;
use crate::zobrist::{position_hash, ZobristTable};
use crate::notation_util::{is_move_notation, notation_turn, NotationUtil};
use crate::square::{tdiv, trem};
use crate::text::push_char;
use vstd::string::StringExecFns;
use vstd::std_specs::cmp::PartialEqSpecImpl;
use vstd::std_specs::hash::spec_hash_map_iter;
use vstd::std_specs::iter::IteratorSpec;

verus! {

broadcast use vstd::std_specs::hash::group_hash_axioms;

/// Outcome of a game.
#[derive(Debug, PartialEq, Eq, Structural, Clone, Copy)]
pub enum GameStatus {
    Normal,
    Draw,
    WhiteWin,
    BlackWin,
    WhiteWinByTime,
    BlackWinByTime,
}

/// A move between two mailbox cells.
///
/// `capture` is the value that stood on `to` (0 when the move captures
/// nothing), `promotion` the piece a pawn turns into (0 for no promotion).
#[derive(Debug, PartialEq, Eq, Structural, Clone, Copy)]
pub struct Turn {
    pub from: i32,
    pub to: i32,
    pub capture: i32,
    pub promotion: i32,
    pub eval: i16,
    pub gives_check: bool,
}

/// Castling rights of both sides.
#[derive(Debug, PartialEq, Eq, Structural, Clone, Copy)]
pub struct CastleInformation {
    pub white_possible_to_castle_long: bool,
    pub white_possible_to_castle_short: bool,
    pub black_possible_to_castle_long: bool,
    pub black_possible_to_castle_short: bool,
}

/// What `do_move` hands back so that `undo_move` can restore the board.
#[derive(Debug, PartialEq, Eq, Structural, Clone, Copy)]
pub struct MoveInformation {
    pub castle_information: CastleInformation,
    pub hash: u64,
    pub en_passante: i32,
}

/// File letter of a cell as `to_algebraic` writes it.
pub open spec fn file_char(i: i32) -> char {
    ((trem(i as int, 10) + 96) as u8) as char
}

/// Rank digit of a cell as `to_algebraic` writes it.
pub open spec fn rank_char(i: i32) -> char {
    ((10 - tdiv(i as int, 10) + 48) as u8) as char
}

/// Coordinate notation of a turn: both cells, then "q" for a promotion to a
/// queen and "n" for any other promotion (a knight, the only other piece a
/// pawn is promoted to here).
pub open spec fn algebraic(t: Turn) -> Seq<char> {
    seq![file_char(t.from), rank_char(t.from), file_char(t.to), rank_char(t.to)] + (if t.promotion
        != 0 {
        if trem(t.promotion as int, 10) == 4 { seq!['q'] } else { seq!['n'] }
    } else {
        seq![]
    })
}

impl Turn {
    pub fn new(from: i32, to: i32, capture: i32, promotion: i32, eval: i16, gives_check: bool) -> (t: Self)
        ensures
            t == (Turn { from, to, capture, promotion, eval, gives_check }),
    {
        Turn { from, to, capture, promotion, eval, gives_check }
    }

    pub fn from_to(from: i32, to: i32) -> (t: Self)
        ensures
            t == (Turn { from, to, capture: 0, promotion: 0, eval: 0, gives_check: false }),
    {
        Turn { from, to, capture: 0, promotion: 0, eval: 0, gives_check: false }
    }

    pub fn is_promotion(&self) -> (b: bool)
        ensures
            b == (self.promotion != 0),
    {
        self.promotion != 0
    }

    pub fn set_promotion(self, promotion: i32) -> (t: Self)
        ensures
            t == (Turn { promotion, ..self }),
    {
        let mut t = self;
        t.promotion = promotion;
        t
    }

    /// Coordinate notation of the turn ("e2e4", "e7e8q").
    pub fn to_algebraic(&self) -> (s: String)
        ensures
            s@ == algebraic(*self),
    {
        let column_from = ((self.from % 10 + 96) as u8) as char;
        let row_from = ((10 - (self.from / 10) + 48) as u8) as char;
        let column_to = ((self.to % 10 + 96) as u8) as char;
        let row_to = ((10 - (self.to / 10) + 48) as u8) as char;
        let mut s = String::new();
        push_char(&mut s, column_from);
        push_char(&mut s, row_from);
        push_char(&mut s, column_to);
        push_char(&mut s, row_to);
        if self.promotion != 0 {
            if self.promotion % 10 == 4 {
                push_char(&mut s, 'q');
            } else {
                push_char(&mut s, 'n');
            }
        }
        assert(s@ =~= algebraic(*self));
        s
    }
}

/// A turn equals a reference to an equal turn.
impl<'a> PartialEq<&'a Turn> for Turn {
    fn eq(&self, other: &&'a Turn) -> (r: bool) {
        self.from == other.from && self.to == other.to && self.capture == other.capture
            && self.promotion == other.promotion && self.eval == other.eval && self.gives_check
            == other.gives_check
    }
}

impl<'a> PartialEqSpecImpl<&'a Turn> for Turn {
    open spec fn obeys_eq_spec() -> bool {
        true
    }

    open spec fn eq_spec(&self, other: &&'a Turn) -> bool {
        *self == **other
    }
}

impl MoveInformation {
    pub fn new(castle_information: CastleInformation, hash: u64, en_passante: i32) -> (m: Self)
        ensures
            m == (MoveInformation { castle_information, hash, en_passante }),
    {
        MoveInformation { castle_information, hash, en_passante }
    }
}

impl CastleInformation {
    pub fn new(
        white_possible_to_castle_long: bool,
        white_possible_to_castle_short: bool,
        black_possible_to_castle_long: bool,
        black_possible_to_castle_short: bool,
    ) -> (c: Self)
        ensures
            c == (CastleInformation {
                white_possible_to_castle_long,
                white_possible_to_castle_short,
                black_possible_to_castle_long,
                black_possible_to_castle_short,
            }),
    {
        CastleInformation {
            white_possible_to_castle_long,
            white_possible_to_castle_short,
            black_possible_to_castle_long,
            black_possible_to_castle_short,
        }
    }
}

/// Cells changed by the rook when a king plays one of the four castling moves.
pub open spec fn castle_rook_moved(f: Seq<i32>, from: int, to: int) -> Seq<i32> {
    if from == 25 && to == 27 {
        f.update(28, 0).update(26, 21)
    } else if from == 25 && to == 23 {
        f.update(21, 0).update(24, 21)
    } else if from == 95 && to == 97 {
        f.update(98, 0).update(96, 11)
    } else if from == 95 && to == 93 {
        f.update(91, 0).update(94, 11)
    } else {
        f
    }
}

/// The rook put back when a castling move is taken back.
pub open spec fn castle_rook_restored(f: Seq<i32>, from: int, to: int) -> Seq<i32> {
    if from == 25 && to == 27 {
        f.update(28, 21).update(26, 0)
    } else if from == 25 && to == 23 {
        f.update(21, 21).update(24, 0)
    } else if from == 95 && to == 97 {
        f.update(98, 11).update(96, 0)
    } else if from == 95 && to == 93 {
        f.update(91, 11).update(94, 0)
    } else {
        f
    }
}

/// The cells before the en passant pawn is removed.
pub open spec fn placed_field(f: Seq<i32>, t: Turn) -> Seq<i32> {
    let fb = f[t.from as int];
    let f1 = if fb == 15 || fb == 25 { castle_rook_moved(f, t.from as int, t.to as int) } else { f };
    let f2 = f1.update(t.to as int, if t.promotion != 0 { t.promotion } else { f1[t.from as int] });
    f2.update(t.from as int, 0)
}

/// The cells after `do_move(t)` on cells `f` with en passant cell `ep`.
pub open spec fn field_after_move(f: Seq<i32>, t: Turn, ep: i32) -> Seq<i32> {
    let f3 = placed_field(f, t);
    if ep == t.to && f3[t.to as int] == 10 {
        f3.update(t.to + 10, 0)
    } else if ep == t.to && f3[t.to as int] == 20 {
        f3.update(t.to - 10, 0)
    } else {
        f3
    }
}

/// The en passant cell after `do_move(t)`: the cell a pawn just skipped, or
/// 0 (no en passant possible).
pub open spec fn en_passant_after_move(f: Seq<i32>, t: Turn, white_to_move: bool) -> i32 {
    if (white_to_move && t.from / 10 == 8 && t.to / 10 == 6 && f[t.from as int] == 10) || (
    !white_to_move && t.from / 10 == 3 && t.to / 10 == 5 && f[t.from as int] == 20) {
        ((if white_to_move { 70int } else { 40int }) + t.from % 10) as i32
    } else {
        0i32
    }
}

/// Castling rights after a move that starts on `from`.
pub open spec fn castling_after_move(c: CastleInformation, from: i32) -> CastleInformation {
    if from == 21 {
        CastleInformation { black_possible_to_castle_long: false, ..c }
    } else if from == 28 {
        CastleInformation { black_possible_to_castle_short: false, ..c }
    } else if from == 25 {
        CastleInformation {
            black_possible_to_castle_long: false,
            black_possible_to_castle_short: false,
            ..c
        }
    } else if from == 91 {
        CastleInformation { white_possible_to_castle_long: false, ..c }
    } else if from == 98 {
        CastleInformation { white_possible_to_castle_short: false, ..c }
    } else if from == 95 {
        CastleInformation {
            white_possible_to_castle_long: false,
            white_possible_to_castle_short: false,
            ..c
        }
    } else {
        c
    }
}

/// How often the position `h` has been reached once it is reached again.
pub open spec fn count_after_add(m: Map<u64, i32>, h: u64) -> int {
    if m.contains_key(h) { m[h] + 1 } else { 1 }
}

/// The repetition table after reaching position `h`.
pub open spec fn repetitions_after_move(m: Map<u64, i32>, h: u64) -> Map<u64, i32> {
    m.insert(h, count_after_add(m, h) as i32)
}

/// The repetition table after leaving position `h` again.
pub open spec fn repetitions_after_undo(m: Map<u64, i32>, h: u64) -> Map<u64, i32> {
    if m.contains_key(h) {
        if m[h] > 1 { m.insert(h, (m[h] - 1) as i32) } else { m.remove(h) }
    } else {
        m
    }
}

/// The cells after `undo_move(t, ..)` with the recorded en passant cell `ep`,
/// `white_to_move` being the side to move before the call.
pub open spec fn field_after_undo(f: Seq<i32>, t: Turn, ep: i32, white_to_move: bool) -> Seq<i32> {
    let ft = f[t.to as int];
    let is_ep = t.to == ep && (ft == 10 || ft == 20);
    let f1 = if t.to == ep && ft == 10 {
        f.update(t.to + 10, 20)
    } else if t.to == ep && ft == 20 {
        f.update(t.to - 10, 10)
    } else {
        f
    };
    let f2 = f1.update(
        t.from as int,
        if t.promotion != 0 {
            if white_to_move { 20 } else { 10 }
        } else {
            f1[t.to as int]
        },
    );
    let f3 = f2.update(t.to as int, if is_ep { 0 } else if t.capture > 0 { t.capture } else { 0 });
    if f3[t.from as int] == 15 || f3[t.from as int] == 25 {
        castle_rook_restored(f3, t.from as int, t.to as int)
    } else {
        f3
    }
}

/// The en passant pawn that `do_move` removes stands on the board.
pub open spec fn move_ep_in_range(f: Seq<i32>, t: Turn, ep: i32) -> bool {
    let f3 = placed_field(f, t);
    &&& (ep == t.to && f3[t.to as int] == 10 ==> t.to + 10 < 120)
    &&& (ep == t.to && f3[t.to as int] == 20 ==> t.to - 10 >= 0)
}

/// The en passant pawn that `undo_move` puts back stands on the board.
pub open spec fn undo_ep_in_range(f: Seq<i32>, t: Turn, ep: i32) -> bool {
    &&& (t.to == ep && f[t.to as int] == 10 ==> t.to + 10 < 120)
    &&& (t.to == ep && f[t.to as int] == 20 ==> t.to - 10 >= 0)
}

pub open spec fn on_board(i: i32) -> bool {
    0 <= i < 120
}

/// The cell a pawn skips with a double step from its start rank, or 0.
fn skipped_cell(field: &[i32; 120], turn: &Turn, white_to_move: bool) -> (ep: i32)
    requires
        on_board(turn.from),
        on_board(turn.to),
    ensures
        ep == en_passant_after_move(field@, *turn, white_to_move),
{
    let moving = field[turn.from as usize];
    if (white_to_move && turn.from / 10 == 8 && turn.to / 10 == 6 && moving == 10) || (
    !white_to_move && turn.from / 10 == 3 && turn.to / 10 == 5 && moving == 20) {
        let base: i32 = if white_to_move { 70 } else { 40 };
        base + (turn.from % 10)
    } else {
        0
    }
}

/// Moves the rook of a castling move.
fn move_castle_rook(field: &mut [i32; 120], from: i32, to: i32)
    ensures
        final(field)@ == castle_rook_moved(old(field)@, from as int, to as int),
{
    if from == 25 && to == 27 {
        field[28] = 0;
        field[26] = 21;
    } else if from == 25 && to == 23 {
        field[21] = 0;
        field[24] = 21;
    } else if from == 95 && to == 97 {
        field[98] = 0;
        field[96] = 11;
    } else if from == 95 && to == 93 {
        field[91] = 0;
        field[94] = 11;
    }
}

/// Puts the rook of a castling move back.
fn restore_castle_rook(field: &mut [i32; 120], from: i32, to: i32)
    ensures
        final(field)@ == castle_rook_restored(old(field)@, from as int, to as int),
{
    if from == 25 && to == 27 {
        field[28] = 21;
        field[26] = 0;
    } else if from == 25 && to == 23 {
        field[21] = 21;
        field[24] = 0;
    } else if from == 95 && to == 97 {
        field[98] = 11;
        field[96] = 0;
    } else if from == 95 && to == 93 {
        field[91] = 11;
        field[94] = 0;
    }
}

/// Moves (or promotes) the piece of `turn`, with the rook of a castling move.
fn place_piece(field: &mut [i32; 120], turn: &Turn)
    requires
        on_board(turn.from),
        on_board(turn.to),
    ensures
        final(field)@ == placed_field(old(field)@, *turn),
{
    let from = turn.from as usize;
    let to = turn.to as usize;
    let moving = field[from];
    if moving == 15 || moving == 25 {
        move_castle_rook(field, turn.from, turn.to);
    }
    if turn.is_promotion() {
        field[to] = turn.promotion;
    } else {
        field[to] = field[from];
    }
    field[from] = 0;
}

/// Removes the pawn taken by an en passant capture onto `ep`.
fn take_en_passant_pawn(field: &mut [i32; 120], turn: &Turn, ep: i32)
    requires
        on_board(turn.to),
        ep == turn.to && old(field)@[turn.to as int] == 10 ==> turn.to + 10 < 120,
        ep == turn.to && old(field)@[turn.to as int] == 20 ==> turn.to - 10 >= 0,
    ensures
        final(field)@ == (if ep == turn.to && old(field)@[turn.to as int] == 10 {
            old(field)@.update(turn.to + 10, 0)
        } else if ep == turn.to && old(field)@[turn.to as int] == 20 {
            old(field)@.update(turn.to - 10, 0)
        } else {
            old(field)@
        }),
{
    let to = turn.to as usize;
    if ep == turn.to && field[to] == 10 {
        field[to + 10] = 0;
    } else if ep == turn.to && field[to] == 20 {
        field[to - 10] = 0;
    }
}

/// The cells after `turn` is played on `field` with en passant cell `ep`.
pub(crate) fn field_after(field: &[i32; 120], turn: &Turn, ep: i32) -> (r: [i32; 120])
    requires
        on_board(turn.from),
        on_board(turn.to),
        move_ep_in_range(field@, *turn, ep),
    ensures
        r@ == field_after_move(field@, *turn, ep),
{
    let mut f = *field;
    place_piece(&mut f, turn);
    take_en_passant_pawn(&mut f, turn, ep);
    f
}

/// Takes the piece of `turn` back, restoring a captured or en passant pawn and
/// the rook of a castling move.
fn take_back_piece(field: &mut [i32; 120], turn: &Turn, ep: i32, white_to_move: bool)
    requires
        on_board(turn.from),
        on_board(turn.to),
        undo_ep_in_range(old(field)@, *turn, ep),
    ensures
        final(field)@ == field_after_undo(old(field)@, *turn, ep, white_to_move),
{
    let from = turn.from as usize;
    let to = turn.to as usize;
    let mut is_en_passante_move = false;
    if turn.to == ep && field[to] == 10 {
        field[to + 10] = 20;
        is_en_passante_move = true;
    } else if turn.to == ep && field[to] == 20 {
        field[to - 10] = 10;
        is_en_passante_move = true;
    }
    if turn.is_promotion() {
        field[from] = 10;
        if white_to_move {
            field[from] = field[from] + 10;
        }
    } else {
        field[from] = field[to];
    }
    if is_en_passante_move {
        field[to] = 0;
    } else {
        field[to] = if turn.capture > 0 { turn.capture } else { 0 };
    }
    if field[from] == 15 || field[from] == 25 {
        restore_castle_rook(field, turn.from, turn.to);
    }
}

/// `after` is `before` with `t` played: the cells, the en passant cell, the
/// castling rights, the side to move, the move number, the table of reached
/// positions and the game status (a draw on the third visit) as `do_move`
/// leaves them.
pub open spec fn move_done(before: Board, after: Board, t: Turn) -> bool {
    let h = before.hash_after_move(t);
    &&& after.field@ == field_after_move(before.field@, t, before.field_for_en_passante)
    &&& after.field_for_en_passante == en_passant_after_move(before.field@, t, before.white_to_move)
    &&& after.castle_view() == castling_after_move(before.castle_view(), t.from)
    &&& after.white_to_move == !before.white_to_move
    &&& after.move_count == (if before.white_to_move {
        before.move_count as int
    } else {
        before.move_count + 1
    })
    &&& h == position_hash(after.field@, after.white_to_move)
    &&& after.move_repetition_map@ == repetitions_after_move(before.move_repetition_map@, h)
    &&& after.game_status == (if count_after_add(before.move_repetition_map@, h) == 3 {
        GameStatus::Draw
    } else {
        before.game_status
    })
    &&& after.zobrist == before.zobrist
}

/// The board of a game: cells, castling rights, en passant cell, side to
/// move, move number, game status and the table of reached positions.
#[derive(Debug, Clone)]
pub struct Board {
    pub field: [i32; 120],
    pub white_possible_to_castle_long: bool,
    pub white_possible_to_castle_short: bool,
    pub black_possible_to_castle_long: bool,
    pub black_possible_to_castle_short: bool,
    /// The cell a pawn just skipped, or 0 if no en passant is possible.
    pub field_for_en_passante: i32,
    pub white_to_move: bool,
    pub move_count: i32,
    pub game_status: GameStatus,
    pub move_repetition_map: HashMap<u64, i32>,
    pub zobrist: ZobristTable,
}

impl Board {
    pub open spec fn castle_view(&self) -> CastleInformation {
        CastleInformation {
            white_possible_to_castle_long: self.white_possible_to_castle_long,
            white_possible_to_castle_short: self.white_possible_to_castle_short,
            black_possible_to_castle_long: self.black_possible_to_castle_long,
            black_possible_to_castle_short: self.black_possible_to_castle_short,
        }
    }

    /// Hash of the position reached by `do_move(t)`.
    pub open spec fn hash_after_move(&self, t: Turn) -> u64 {
        position_hash(field_after_move(self.field@, t, self.field_for_en_passante), !self.white_to_move)
    }

    /// What `do_move(t)` needs so that it neither panics nor overflows.
    pub open spec fn can_move(&self, t: Turn) -> bool {
        &&& self.zobrist.wf()
        &&& on_board(t.from)
        &&& on_board(t.to)
        &&& self.field[t.from as int] != 0
        &&& move_ep_in_range(self.field@, t, self.field_for_en_passante)
        &&& (!self.white_to_move ==> self.move_count < i32::MAX)
        &&& count_after_add(self.move_repetition_map@, self.hash_after_move(t)) <= i32::MAX
    }

    /// What `undo_move(t, mi)` needs so that it neither panics nor overflows.
    pub open spec fn can_undo(&self, t: Turn, mi: MoveInformation) -> bool {
        &&& on_board(t.from)
        &&& on_board(t.to)
        &&& self.field[t.to as int] != 0
        &&& undo_ep_in_range(self.field@, t, mi.en_passante)
        &&& (self.white_to_move ==> self.move_count > i32::MIN)
    }

    pub fn new(
        field: [i32; 120],
        white_possible_to_castle_long: bool,
        white_possible_to_castle_short: bool,
        black_possible_to_castle_long: bool,
        black_possible_to_castle_short: bool,
        field_for_en_passante: i32,
        white_to_move: bool,
        move_count: i32,
        _zobrist: ZobristTable,
    ) -> (b: Self)
        ensures
            b.field == field,
            b.white_possible_to_castle_long == white_possible_to_castle_long,
            b.white_possible_to_castle_short == white_possible_to_castle_short,
            b.black_possible_to_castle_long == black_possible_to_castle_long,
            b.black_possible_to_castle_short == black_possible_to_castle_short,
            b.field_for_en_passante == field_for_en_passante,
            b.white_to_move == white_to_move,
            b.move_count == move_count,
            b.game_status == GameStatus::Normal,
            b.move_repetition_map@ == Map::<u64, i32>::empty(),
            b.zobrist.wf(),
    {
        Board {
            field,
            white_possible_to_castle_long,
            white_possible_to_castle_short,
            black_possible_to_castle_long,
            black_possible_to_castle_short,
            field_for_en_passante,
            white_to_move,
            move_count,
            game_status: GameStatus::Normal,
            move_repetition_map: HashMap::new(),
            zobrist: ZobristTable::new(),
        }
    }

    /// Whether `do_move(turn)` may be called (see `can_move`): the hash keys
    /// are intact, both cells are on the board, a piece stands on `from`, a pawn taken en passant lies
    /// on the board, and neither the move number nor the count of the
    /// position reached overflows.
    pub fn can_do_move(&self, turn: &Turn) -> (ok: bool)
        ensures
            ok == self.can_move(*turn),
    {
        if !self.zobrist.is_valid() {
            return false;
        }
        if !(0 <= turn.from && turn.from < 120 && 0 <= turn.to && turn.to < 120) {
            return false;
        }
        if self.field[turn.from as usize] == 0 {
            return false;
        }
        let mut f = self.field;
        place_piece(&mut f, turn);
        let ep = self.field_for_en_passante;
        let to = turn.to;
        if ep == to && f[to as usize] == 10 && to + 10 >= 120 {
            return false;
        }
        if ep == to && f[to as usize] == 20 && to - 10 < 0 {
            return false;
        }
        if !self.white_to_move && self.move_count == i32::MAX {
            return false;
        }
        let f = field_after(&self.field, turn, ep);
        let h = self.zobrist.hash_position(&f, !self.white_to_move);
        assert(h == self.hash_after_move(*turn));
        match self.move_repetition_map.get(&h) {
            Some(c) => *c < i32::MAX,
            None => true,
        }
    }

    pub fn get_castle_information(&self) -> (c: CastleInformation)
        ensures
            c == self.castle_view(),
    {
        CastleInformation {
            white_possible_to_castle_long: self.white_possible_to_castle_long,
            white_possible_to_castle_short: self.white_possible_to_castle_short,
            black_possible_to_castle_long: self.black_possible_to_castle_long,
            black_possible_to_castle_short: self.black_possible_to_castle_short,
        }
    }

    /// Plays `turn`: moves the piece (and the rook of a castling move),
    /// promotes, removes a pawn taken en passant, updates castling rights,
    /// the en passant cell, the side to move, the move number and the table
    /// of reached positions; a position reached for the third time makes the
    /// game a draw.
    pub fn do_move(&mut self, turn: &Turn) -> (mi: MoveInformation)
        requires
            old(self).can_move(*turn),
        ensures
            move_done(*old(self), *final(self), *turn),
            mi.hash == old(self).hash_after_move(*turn),
            mi.castle_information == old(self).castle_view(),
            mi.en_passante == old(self).field_for_en_passante,
    {
        let old_castle_information = self.get_castle_information();
        let old_field_for_en_passante = self.field_for_en_passante;
        self.field_for_en_passante = skipped_cell(&self.field, turn, self.white_to_move);
        place_piece(&mut self.field, turn);
        self.update_castling_rights(turn.from);
        take_en_passant_pawn(&mut self.field, turn, old_field_for_en_passante);
        if !self.white_to_move {
            self.move_count = self.move_count + 1;
        }
        self.white_to_move = !self.white_to_move;
        let board_hash = self.hash();
        let count = self.record_position(board_hash);
        if count == 3 {
            self.game_status = GameStatus::Draw;
        }
        MoveInformation::new(old_castle_information, board_hash, old_field_for_en_passante)
    }

    fn update_castling_rights(&mut self, from: i32)
        ensures
            final(self).castle_view() == castling_after_move(old(self).castle_view(), from),
            final(self).field == old(self).field,
            final(self).field_for_en_passante == old(self).field_for_en_passante,
            final(self).white_to_move == old(self).white_to_move,
            final(self).move_count == old(self).move_count,
            final(self).game_status == old(self).game_status,
            final(self).move_repetition_map == old(self).move_repetition_map,
            final(self).zobrist == old(self).zobrist,
    {
        if from == 21 {
            self.black_possible_to_castle_long = false;
        } else if from == 28 {
            self.black_possible_to_castle_short = false;
        } else if from == 25 {
            self.black_possible_to_castle_long = false;
            self.black_possible_to_castle_short = false;
        } else if from == 91 {
            self.white_possible_to_castle_long = false;
        } else if from == 98 {
            self.white_possible_to_castle_short = false;
        } else if from == 95 {
            self.white_possible_to_castle_long = false;
            self.white_possible_to_castle_short = false;
        }
    }

    /// Counts one more visit of position `h`; returns the new count.
    fn record_position(&mut self, h: u64) -> (count: i32)
        requires
            count_after_add(old(self).move_repetition_map@, h) <= i32::MAX,
        ensures
            count == count_after_add(old(self).move_repetition_map@, h),
            final(self).move_repetition_map@ == repetitions_after_move(
                old(self).move_repetition_map@,
                h,
            ),
            final(self).field == old(self).field,
            final(self).castle_view() == old(self).castle_view(),
            final(self).field_for_en_passante == old(self).field_for_en_passante,
            final(self).white_to_move == old(self).white_to_move,
            final(self).move_count == old(self).move_count,
            final(self).game_status == old(self).game_status,
            final(self).zobrist == old(self).zobrist,
    {
        let count: i32 = match self.move_repetition_map.get(&h) {
            Some(c) => *c + 1,
            None => 1,
        };
        self.move_repetition_map.insert(h, count);
        count
    }

    /// Counts one visit of position `h` less, dropping it at zero.
    fn forget_position(&mut self, h: u64)
        ensures
            final(self).move_repetition_map@ == repetitions_after_undo(
                old(self).move_repetition_map@,
                h,
            ),
            final(self).field == old(self).field,
            final(self).castle_view() == old(self).castle_view(),
            final(self).field_for_en_passante == old(self).field_for_en_passante,
            final(self).white_to_move == old(self).white_to_move,
            final(self).move_count == old(self).move_count,
            final(self).game_status == old(self).game_status,
            final(self).zobrist == old(self).zobrist,
    {
        match self.move_repetition_map.get(&h) {
            Some(c) => {
                let count: i32 = *c;
                if count > 1 {
                    self.move_repetition_map.insert(h, count - 1);
                } else {
                    self.move_repetition_map.remove(&h);
                }
            },
            None => {},
        }
    }

    /// Takes back `turn`, played by `do_move`, which returned `move_information`.
    pub fn undo_move(&mut self, turn: &Turn, move_information: MoveInformation)
        requires
            old(self).can_undo(*turn, move_information),
        ensures
            final(self).field@ == field_after_undo(
                old(self).field@,
                *turn,
                move_information.en_passante,
                old(self).white_to_move,
            ),
            final(self).field_for_en_passante == move_information.en_passante,
            final(self).castle_view() == move_information.castle_information,
            final(self).white_to_move == !old(self).white_to_move,
            final(self).move_count == (if old(self).white_to_move {
                old(self).move_count - 1
            } else {
                old(self).move_count as int
            }),
            final(self).move_repetition_map@ == repetitions_after_undo(
                old(self).move_repetition_map@,
                move_information.hash,
            ),
            final(self).game_status == GameStatus::Normal,
            final(self).zobrist == old(self).zobrist,
    {
        self.game_status = GameStatus::Normal;
        let castle_information = move_information.castle_information;
        take_back_piece(&mut self.field, turn, move_information.en_passante, self.white_to_move);
        self.white_possible_to_castle_long = castle_information.white_possible_to_castle_long;
        self.white_possible_to_castle_short = castle_information.white_possible_to_castle_short;
        self.black_possible_to_castle_long = castle_information.black_possible_to_castle_long;
        self.black_possible_to_castle_short = castle_information.black_possible_to_castle_short;
        self.field_for_en_passante = move_information.en_passante;
        if self.white_to_move {
            self.move_count = self.move_count - 1;
        }
        self.white_to_move = !self.white_to_move;
        self.forget_position(move_information.hash);
    }

    /// Hash of the current position (cells and side to move).
    pub fn hash(&self) -> (h: u64)
        requires
            self.zobrist.wf(),
        ensures
            h == position_hash(self.field@, self.white_to_move),
    {
        self.zobrist.hash_position(&self.field, self.white_to_move)
    }
}


/// A game as the engines see it: the board and the moves sent so far.
pub struct UciGame {
    pub board: Board,
    pub made_moves_str: String,
    pub pty: i32,
}

impl UciGame {
    pub fn new(board: Board) -> (g: Self)
        ensures
            g.board == board,
            g.made_moves_str@ == Seq::<char>::empty(),
            g.pty == 0,
    {
        UciGame { board, made_moves_str: String::new(), pty: 0 }
    }

    /// Plays a move given in coordinate notation and records it in the move
    /// string (separated by a space).
    pub fn do_move(&mut self, notation_move: &str)
        requires
            is_move_notation(notation_move@),
            old(self).board.can_move(notation_turn(notation_move@)),
            old(self).pty < i32::MAX,
        ensures
            move_done(old(self).board, final(self).board, notation_turn(notation_move@)),
            final(self).pty == old(self).pty + 1,
            final(self).made_moves_str@ == (if old(self).made_moves_str@.len() == 0 {
                notation_move@
            } else {
                old(self).made_moves_str@.push(' ') + notation_move@
            }),
    {
        let turn = NotationUtil::get_turn_from_notation(notation_move);
        self.board.do_move(&turn);
        self.pty = self.pty + 1;
        if self.made_moves_str.as_str().is_empty() {
            self.made_moves_str.append(notation_move);
        } else {
            push_char(&mut self.made_moves_str, ' ');
            self.made_moves_str.append(notation_move);
        }
    }

    pub fn white_to_move(&self) -> (b: bool)
        ensures
            b == self.board.white_to_move,
    {
        self.board.white_to_move
    }
}


/// The rook of a castling move stands on its home cell and the cell it
/// moves to is empty.
pub open spec fn castle_rook_home(f: Seq<i32>, from: int, to: int) -> bool {
    &&& (from == 25 && to == 27 ==> f[28] == 21 && f[26] == 0)
    &&& (from == 25 && to == 23 ==> f[21] == 21 && f[24] == 0)
    &&& (from == 95 && to == 97 ==> f[98] == 11 && f[96] == 0)
    &&& (from == 95 && to == 93 ==> f[91] == 11 && f[94] == 0)
}

/// `t` describes the position of `b` faithfully enough for `undo_move` to
/// take it back: `capture` is what stands on `to`, a promoting piece is a
/// pawn of the side to move, a pawn taken en passant stands behind `to`,
/// the rook of a castling move is at home, and the position reached has
/// been counted at least once if it has been counted at all.
pub open spec fn restorable(b: Board, t: Turn) -> bool {
    let f = b.field@;
    let fb = f[t.from as int];
    let ft = if t.promotion != 0 { t.promotion } else { fb };
    let ep = b.field_for_en_passante;
    let ep_capture = ep == t.to && (ft == 10 || ft == 20);
    let m = b.move_repetition_map@;
    let h = b.hash_after_move(t);
    &&& b.can_move(t)
    &&& t.from != t.to
    &&& (t.promotion != 0 ==> fb == (if b.white_to_move { 10i32 } else { 20i32 }))
    &&& (ep_capture ==> f[t.to as int] == 0)
    &&& (ep_capture && ft == 10 ==> t.to + 10 == t.from || f[t.to + 10] == 20)
    &&& (ep_capture && ft == 20 ==> t.to - 10 == t.from || f[t.to - 10] == 10)
    &&& (!ep_capture ==> f[t.to as int] == (if t.capture > 0 { t.capture } else { 0i32 }))
    &&& ((fb == 15 || fb == 25) && t.promotion == 0 ==> castle_rook_home(f, t.from as int, t.to as int))
    &&& (m.contains_key(h) ==> m[h] >= 1)
}

/// Taking back a move restores the board: `undo_move(t, do_move(t))`
/// gives back the cells, the en passant cell, the castling rights, the side
/// to move, the move number and the table of reached positions it started
/// from, and a game that was running is running again.
pub proof fn lemma_undo_move_restores(b: Board, t: Turn)
    requires
        restorable(b, t),
    ensures
        ({
            let ep = b.field_for_en_passante;
            let f1 = field_after_move(b.field@, t, ep);
            let h = b.hash_after_move(t);
            let m1 = repetitions_after_move(b.move_repetition_map@, h);
            &&& undo_ep_in_range(f1, t, ep)
            &&& f1[t.to as int] != 0
            &&& field_after_undo(f1, t, ep, !b.white_to_move) == b.field@
            &&& repetitions_after_undo(m1, h) == b.move_repetition_map@
        }),
{
    let f = b.field@;
    let ep = b.field_for_en_passante;
    let f3 = placed_field(f, t);
    let f1 = field_after_move(f, t, ep);
    let h = b.hash_after_move(t);
    let m = b.move_repetition_map@;
    let m1 = repetitions_after_move(m, h);
    assert(f3[t.to as int] != 0);
    assert(f1[t.to as int] == f3[t.to as int]);
    assert(field_after_undo(f1, t, ep, !b.white_to_move) =~= f);
    assert(repetitions_after_undo(m1, h) =~= m);
}

/// Whether two tables of reached positions hold the same counts.
fn same_repetitions(a: &HashMap<u64, i32>, b: &HashMap<u64, i32>) -> (r: bool)
    ensures
        r == (a@ == b@),
{
    if a.len() != b.len() {
        return false;
    }
    let ghost s = spec_hash_map_iter(a).remaining();
    for (k, v) in it: a.iter()
        invariant
            it.seq() == s,
            s == spec_hash_map_iter(a).remaining(),
            a@.len() == b@.len(),
            forall|j: int| 0 <= j < it.index() ==> #[trigger] b@.contains_key(*it.seq()[j].0),
            forall|j: int| 0 <= j < it.index() ==> b@[*it.seq()[j].0] == #[trigger] a@[*it.seq()[j].0],
    {
        match b.get(k) {
            Some(w) => {
                if *w != *v {
                    return false;
                }
            },
            None => {
                return false;
            },
        }
    }
    proof {
        assert forall|key: u64| a@.contains_key(key) implies b@.contains_key(key) && b@[key] == a@[key] by {
            assert(s.contains((&key, &a@[key])));
            let j = choose|j: int| 0 <= j < s.len() && s[j] == (&key, &a@[key]);
            assert(b@.contains_key(*s[j].0));
            assert(b@[*s[j].0] == a@[*s[j].0]);
        }
        vstd::set_lib::lemma_subset_equality(a@.dom(), b@.dom());
        assert(a@ =~= b@);
    }
    true
}

/// Two boards are equal when everything but the hash keys is.
impl PartialEq for Board {
    fn eq(&self, other: &Self) -> (r: bool) {
        if !(self.white_possible_to_castle_long == other.white_possible_to_castle_long
            && self.white_possible_to_castle_short == other.white_possible_to_castle_short
            && self.black_possible_to_castle_long == other.black_possible_to_castle_long
            && self.black_possible_to_castle_short == other.black_possible_to_castle_short
            && self.field_for_en_passante == other.field_for_en_passante && self.white_to_move
            == other.white_to_move && self.move_count == other.move_count && self.game_status
            == other.game_status) {
            return false;
        }
        let mut i: usize = 0;
        while i < 120
            invariant
                i <= 120,
                forall|j: int| 0 <= j < i ==> self.field@[j] == other.field@[j],
            decreases 120 - i,
        {
            if self.field[i] != other.field[i] {
                return false;
            }
            i = i + 1;
        }
        assert(self.field@ =~= other.field@);
        same_repetitions(&self.move_repetition_map, &other.move_repetition_map)
    }
}

impl PartialEqSpecImpl for Board {
    open spec fn obeys_eq_spec() -> bool {
        true
    }

    open spec fn eq_spec(&self, other: &Board) -> bool {
        &&& self.castle_view() == other.castle_view()
        &&& self.field_for_en_passante == other.field_for_en_passante
        &&& self.white_to_move == other.white_to_move
        &&& self.move_count == other.move_count
        &&& self.game_status == other.game_status
        &&& self.field@ == other.field@
        &&& self.move_repetition_map@ == other.move_repetition_map@
    }
}


/// Castling rights after a move: a right is never regained, a move from a
/// king's start cell loses both rights of its side, a move from a rook's
/// corner loses the right to castle to that corner, and any other move keeps
/// the rights as they were.
pub proof fn lemma_castling_rights_after_move(before: Board, after: Board, t: Turn)
    requires
        move_done(before, after, t),
    ensures
        after.white_possible_to_castle_long ==> before.white_possible_to_castle_long,
        after.white_possible_to_castle_short ==> before.white_possible_to_castle_short,
        after.black_possible_to_castle_long ==> before.black_possible_to_castle_long,
        after.black_possible_to_castle_short ==> before.black_possible_to_castle_short,
        t.from == 21 || t.from == 25 ==> !after.black_possible_to_castle_long,
        t.from == 28 || t.from == 25 ==> !after.black_possible_to_castle_short,
        t.from == 91 || t.from == 95 ==> !after.white_possible_to_castle_long,
        t.from == 98 || t.from == 95 ==> !after.white_possible_to_castle_short,
        t.from != 21 && t.from != 25 ==> after.black_possible_to_castle_long
            == before.black_possible_to_castle_long,
        t.from != 28 && t.from != 25 ==> after.black_possible_to_castle_short
            == before.black_possible_to_castle_short,
        t.from != 91 && t.from != 95 ==> after.white_possible_to_castle_long
            == before.white_possible_to_castle_long,
        t.from != 98 && t.from != 95 ==> after.white_possible_to_castle_short
            == before.white_possible_to_castle_short,
{
}


/// The en passant cell after a move: a pawn that leaves its start rank for
/// the rank two ahead marks the cell it passed over (the cell in front of
/// where it stood); after any other move no en passant capture is possible
/// (0).
pub proof fn lemma_en_passant_after_move(before: Board, after: Board, t: Turn)
    requires
        move_done(before, after, t),
        0 <= t.from < 120,
    ensures
        before.white_to_move && t.from / 10 == 8 && t.to / 10 == 6 && before.field@[t.from as int] == 10
            ==> after.field_for_en_passante == t.from - 10,
        !before.white_to_move && t.from / 10 == 3 && t.to / 10 == 5 && before.field@[t.from as int] == 20
            ==> after.field_for_en_passante == t.from + 10,
        !(before.white_to_move && t.from / 10 == 8 && t.to / 10 == 6 && before.field@[t.from as int] == 10)
            && !(!before.white_to_move && t.from / 10 == 3 && t.to / 10 == 5 && before.field@[t.from as int]
            == 20) ==> after.field_for_en_passante == 0,
{
}

} // verus!
