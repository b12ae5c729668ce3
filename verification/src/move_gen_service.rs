//! Legal move generation for the board model.
use vstd::prelude::*;
use crate::model::{
    castle_rook_home, field_after, field_after_move, field_after_undo, lemma_undo_move_restores,
    repetitions_after_move, repetitions_after_undo, restorable, undo_ep_in_range, Board, GameStatus,
    Turn,
};
use crate::movement::{
    bishop_dir_array, bishop_dirs, is_dir, king_dir_array, king_dirs, knight_jump_array,
    knight_jumps, lemma_inner_pairs_concat, lemma_pair_inner, lemma_pawn_inner, lemma_slides_inner,
    lemma_steps_inner, inner_pairs, pair, pawn_moves, push_pawn_moves, push_slides, push_steps, reachable,
    rook_dir_array, rook_dirs, slides, steps, pairs_all, from_cell, step_from, lemma_pawn_targets,
    lemma_slides_targets, lemma_steps_targets, lemma_pairs_all_concat, lemma_pairs_all_empty,
    lemma_pairs_all_pair,
};
use crate::square::{frame_ok, has_frame, is_inner, OFF_BOARD};

verus! {

pub open spec fn king_value(white: bool) -> i32 {
    if white { 15 } else { 25 }
}

pub open spec fn queen_value(white: bool) -> i32 {
    if white { 14 } else { 24 }
}

pub open spec fn rook_value(white: bool) -> i32 {
    if white { 11 } else { 21 }
}

pub open spec fn bishop_value(white: bool) -> i32 {
    if white { 13 } else { 23 }
}

pub open spec fn knight_value(white: bool) -> i32 {
    if white { 12 } else { 22 }
}

pub open spec fn pawn_value(white: bool) -> i32 {
    if white { 10 } else { 20 }
}

/// Some of the cells `t + king_dirs()[k]`, `k < n`, holds `king`.
pub open spec fn touches(f: Seq<i32>, t: int, king: i32, n: int) -> bool
    decreases n,
{
    n > 0 && (f[t + king_dirs()[n - 1]] == king || touches(f, t, king, n - 1))
}

/// King steps onto reachable cells that are not next to the enemy king.
pub open spec fn king_steps(f: Seq<i32>, i: int, white: bool, n: int) -> Seq<i32>
    decreases n,
{
    if n <= 0 {
        seq![]
    } else {
        let t = i + king_dirs()[n - 1];
        king_steps(f, i, white, n - 1) + (if reachable(f[t], white) && f[t] != OFF_BOARD
            && !touches(f, t, king_value(!white), 8) {
            pair(i, t)
        } else {
            seq![]
        })
    }
}

/// Castling moves offered to a king on `i` by the cells alone.
pub open spec fn castles(f: Seq<i32>, i: int) -> Seq<i32> {
    (if i == 95 && f[96] == 0 && f[97] == 0 && f[98] == 11 { pair(95, 97) } else { seq![] }) + (
    if i == 25 && f[26] == 0 && f[27] == 0 && f[28] == 21 {
        pair(25, 27)
    } else {
        seq![]
    }) + (if i == 95 && f[94] == 0 && f[93] == 0 && f[92] == 0 && f[91] == 11 {
        pair(95, 93)
    } else {
        seq![]
    }) + (if i == 25 && f[24] == 0 && f[23] == 0 && f[22] == 0 && f[21] == 21 {
        pair(25, 23)
    } else {
        seq![]
    })
}

/// Pseudo-legal moves of the piece on cell `i` for `white`'s side; with
/// `double_check` only the king moves.
pub open spec fn piece_moves(f: Seq<i32>, i: int, white: bool, double_check: bool) -> Seq<i32> {
    let v = f[i];
    if double_check && v != king_value(white) {
        seq![]
    } else if v <= 0 || (10 <= v <= 15 && !white) || (20 <= v <= 25 && white) {
        seq![]
    } else if v == king_value(white) {
        king_steps(f, i, white, 8) + castles(f, i)
    } else if v == pawn_value(white) {
        pawn_moves(f, i, white)
    } else if v == knight_value(white) {
        steps(f, i, knight_jumps(), 8, white)
    } else if v == bishop_value(white) {
        slides(f, i, bishop_dirs(), 4, white)
    } else if v == queen_value(white) {
        slides(f, i, king_dirs(), 8, white)
    } else if v == rook_value(white) {
        slides(f, i, rook_dirs(), 4, white)
    } else {
        seq![]
    }
}

/// Pseudo-legal moves of the pieces on the cells `lo..hi`, cell by cell.
pub open spec fn moves_in(f: Seq<i32>, white: bool, double_check: bool, lo: int, hi: int) -> Seq<i32>
    decreases hi - lo,
{
    if hi <= lo {
        seq![]
    } else {
        moves_in(f, white, double_check, lo, hi - 1) + piece_moves(f, hi - 1, white, double_check)
    }
}

/// The last cell among `21..n` holding `v`, or -1.
pub open spec fn last_cell_of(f: Seq<i32>, v: i32, n: int) -> int
    decreases n,
{
    if n <= 21 {
        -1
    } else if f[n - 1] == v {
        n - 1
    } else {
        last_cell_of(f, v, n - 1)
    }
}

/// Cell of `white`'s king, or -1.
pub open spec fn king_cell(f: Seq<i32>, white: bool) -> int {
    last_cell_of(f, king_value(white), 99)
}

/// The first cell after `p` in direction `o` that is not empty.
pub open spec fn ray_end(f: Seq<i32>, p: int, o: int) -> int
    decreases (if o > 0 { 120 - p } else { p }),
{
    if o == 0 || !(0 <= p + o < 120) || f[p + o] != 0 {
        p + o
    } else {
        ray_end(f, p + o, o)
    }
}

pub open spec fn knight_attack_offsets() -> Seq<i32> {
    seq![-12i32, -21i32, -8i32, -19i32, 12i32, 21i32, 8i32, 19i32]
}

pub open spec fn line_attack_dirs() -> Seq<i32> {
    seq![-10i32, -1i32, 1i32, 10i32]
}

/// Cells `t + offs[k]`, `k < n`, holding `piece`.
pub open spec fn jump_attackers(f: Seq<i32>, t: int, offs: Seq<i32>, piece: i32, n: int) -> Seq<i32>
    decreases n,
{
    if n <= 0 {
        seq![]
    } else {
        jump_attackers(f, t, offs, piece, n - 1) + (if f[t + offs[n - 1]] == piece {
            seq![(t + offs[n - 1]) as i32]
        } else {
            seq![]
        })
    }
}

/// For the first `n` directions of `dirs`, the first piece met from `t` if it
/// is `a` or `b`.
pub open spec fn line_attackers(f: Seq<i32>, t: int, dirs: Seq<i32>, a: i32, b: i32, n: int) -> Seq<
    i32,
>
    decreases n,
{
    if n <= 0 {
        seq![]
    } else {
        let e = ray_end(f, t, dirs[n - 1] as int);
        line_attackers(f, t, dirs, a, b, n - 1) + (if f[e] == a || f[e] == b {
            seq![e as i32]
        } else {
            seq![]
        })
    }
}

/// The cell whose attackers `get_attack_idx_list` looks for: `target`, or
/// the king of `white` when `target` is 0.
pub open spec fn attacked_cell(f: Seq<i32>, white: bool, target: int) -> int {
    if target == 0 { king_cell(f, white) } else { target }
}

/// Cells of the enemy pieces of `white` that attack the attacked cell:
/// pawns, then knights, then bishops or queens on diagonals, then rooks or
/// queens on lines.
pub open spec fn attackers(f: Seq<i32>, white: bool, target: int) -> Seq<i32> {
    let t = attacked_cell(f, white, target);
    let pawn = pawn_value(!white);
    (if white {
        (if f[t - 9] == pawn { seq![(t - 9) as i32] } else { seq![] }) + (if f[t - 11] == pawn {
            seq![(t - 11) as i32]
        } else {
            seq![]
        })
    } else {
        (if f[t + 9] == pawn { seq![(t + 9) as i32] } else { seq![] }) + (if f[t + 11] == pawn {
            seq![(t + 11) as i32]
        } else {
            seq![]
        })
    }) + jump_attackers(f, t, knight_attack_offsets(), knight_value(!white), 8) + line_attackers(
        f,
        t,
        bishop_dirs(),
        bishop_value(!white),
        queen_value(!white),
        4,
    ) + line_attackers(f, t, line_attack_dirs(), rook_value(!white), queen_value(!white), 4)
}

/// `get_attack_idx_list` can look at the attacked cell: a king to look for
/// is on the board, an explicit target lies in the rows `21..=98`.
pub open spec fn attack_target_ok(f: Seq<i32>, white: bool, target: int) -> bool {
    if target == 0 { king_cell(f, white) != -1 } else { 21 <= target <= 98 }
}

/// Cells after `t` is played on `b`.
pub open spec fn after(b: Board, t: Turn) -> Seq<i32> {
    field_after_move(b.field@, t, b.field_for_en_passante)
}

/// After `t` the king of the side to move is not attacked.
pub open spec fn legal(b: Board, t: Turn) -> bool {
    attackers(after(b, t), b.white_to_move, 0).len() == 0
}

/// After `t` the enemy king is attacked.
pub open spec fn gives_check(b: Board, t: Turn) -> bool {
    attackers(after(b, t), !b.white_to_move, 0).len() > 0
}

/// `t`, marked as giving check when it is legal and gives check.
pub open spec fn checked_turn(b: Board, t: Turn) -> Turn {
    if legal(b, t) && gives_check(b, t) {
        Turn { gives_check: true, ..t }
    } else {
        t
    }
}

/// `t` (marked) if it is legal, else nothing.
pub open spec fn validated(b: Board, t: Turn) -> Seq<Turn> {
    if legal(b, t) { seq![checked_turn(b, t)] } else { seq![] }
}

/// Trying `t` on `b` neither panics nor leaves the board changed: it can be
/// played and taken back, and the kings the check tests look for are there.
pub open spec fn try_ok(b: Board, t: Turn) -> bool {
    let f = after(b, t);
    &&& restorable(b, t)
    &&& b.game_status == GameStatus::Normal
    &&& frame_ok(f)
    &&& king_cell(f, b.white_to_move) != -1
    &&& (attackers(f, b.white_to_move, 0).len() == 0 ==> king_cell(f, !b.white_to_move) != -1)
}

/// The two cells the king passes when castling onto `target`.
pub open spec fn castle_path(white: bool, target: int) -> (int, int) {
    if white {
        if target == 97 { (96, 97) } else { (94, 93) }
    } else {
        if target == 27 { (26, 27) } else { (24, 23) }
    }
}

/// Castling onto `target` is allowed: the king is not in check, the cells
/// it passes are not attacked and the castling right is still there.
pub open spec fn castling_ok(b: Board, white: bool, target: int) -> bool {
    let f = b.field@;
    let (a, c) = castle_path(white, target);
    &&& attackers(f, white, 0).len() == 0
    &&& attackers(f, white, a).len() == 0
    &&& attackers(f, white, c).len() == 0
    &&& (white ==> (target == 97 ==> b.white_possible_to_castle_short) && (target == 93
        ==> b.white_possible_to_castle_long))
    &&& (!white ==> (target == 27 ==> b.black_possible_to_castle_short) && (target == 23
        ==> b.black_possible_to_castle_long))
}

/// The promotion a pawn move from `idx0` gets: 14 or 24 when a pawn of the
/// side leaves the rank before the last one, else 0.
pub open spec fn promotion_of(b: Board, white: bool, idx0: int) -> i32 {
    if white && idx0 / 10 == 3 && b.field@[idx0] == 10 {
        14
    } else if !white && idx0 / 10 == 8 && b.field@[idx0] == 20 {
        24
    } else {
        0
    }
}

/// A castling move of the king.
pub open spec fn is_castling_move(b: Board, i0: int, i1: int) -> bool {
    b.field@[i0] == king_value(b.white_to_move) && (i1 == i0 + 2 || i1 == i0 - 2)
}

pub open spec fn base_turn(b: Board, i0: int, i1: int) -> Turn {
    Turn {
        from: i0 as i32,
        to: i1 as i32,
        capture: b.field@[i1],
        promotion: 0,
        eval: 0,
        gives_check: false,
    }
}

/// The knight promotion tried first.
pub open spec fn first_promotion(b: Board, i0: int, i1: int) -> Turn {
    Turn { promotion: if b.white_to_move { 12i32 } else { 22i32 }, ..base_turn(b, i0, i1) }
}

/// The queen promotion tried second; it keeps the check mark of the first.
pub open spec fn second_promotion(b: Board, i0: int, i1: int) -> Turn {
    Turn {
        promotion: if b.white_to_move { 14i32 } else { 24i32 },
        ..checked_turn(b, first_promotion(b, i0, i1))
    }
}

/// Legal moves coming from the candidate pair `i0, i1`.
pub open spec fn pair_turns(b: Board, i0: int, i1: int) -> Seq<Turn> {
    if is_castling_move(b, i0, i1) && !castling_ok(b, b.white_to_move, i1) {
        seq![]
    } else if promotion_of(b, b.white_to_move, i0) != 0 {
        validated(b, first_promotion(b, i0, i1)) + validated(b, second_promotion(b, i0, i1))
    } else {
        validated(b, base_turn(b, i0, i1))
    }
}

/// Every move tried for the pair `i0, i1` can be tried safely.
pub open spec fn pair_tries_ok(b: Board, i0: int, i1: int) -> bool {
    !(is_castling_move(b, i0, i1) && !castling_ok(b, b.white_to_move, i1)) ==> if promotion_of(
        b,
        b.white_to_move,
        i0,
    ) != 0 {
        try_ok(b, first_promotion(b, i0, i1)) && try_ok(b, second_promotion(b, i0, i1))
    } else {
        try_ok(b, base_turn(b, i0, i1))
    }
}

/// Legal moves from the first `n` candidate pairs of `ml`.
pub open spec fn list_turns(b: Board, ml: Seq<i32>, n: int) -> Seq<Turn>
    decreases n,
{
    if n <= 0 {
        seq![]
    } else {
        list_turns(b, ml, n - 1) + pair_turns(b, ml[2 * n - 2] as int, ml[2 * n - 1] as int)
    }
}

/// All candidate pairs of `ml` can be tried safely.
pub open spec fn list_tries_ok(b: Board, ml: Seq<i32>) -> bool {
    forall|k: int|
        0 <= k < ml.len() / 2 ==> #[trigger] pair_tries_ok(b, ml[2 * k] as int, ml[2 * k + 1] as int)
}

/// All en passant captures can be tried safely.
pub open spec fn ep_tries_ok(b: Board) -> bool {
    forall|j: int| 0 <= j < ep_turns(b).len() ==> #[trigger] try_ok(b, ep_turns(b)[j])
}

/// The candidate list of the side to move.
pub open spec fn candidates(b: Board) -> Seq<i32> {
    moves_in(
        b.field@,
        b.white_to_move,
        attackers(b.field@, b.white_to_move, 0).len() > 1,
        21,
        99,
    )
}

/// Generating the legal moves of `b` neither panics nor overflows, and
/// every move tried can be taken back.
pub open spec fn generation_ok(b: Board) -> bool {
    &&& frame_ok(b.field@)
    &&& king_cell(b.field@, b.white_to_move) != -1
    &&& ep_cell_ok(b)
    &&& (b.game_status == GameStatus::Normal ==> list_tries_ok(b, candidates(b)) && ep_tries_ok(b))
}

pub open spec fn ep_offsets(white: bool) -> (int, int) {
    if white { (9, 11) } else { (-9, -11) }
}

/// No en passant capture is possible: the cell is 0, or -1 as the board
/// of a move generator may also mark it.
pub open spec fn no_en_passant(ep: i32) -> bool {
    ep == 0 || ep == -1
}

/// The en passant cell lets the pawns of `white` next to it be looked at:
/// it marks none, or both cells beside it lie on the board.
pub open spec fn ep_cell_ok_for(b: Board, white: bool) -> bool {
    let ep = b.field_for_en_passante;
    let (o1, o2) = ep_offsets(white);
    no_en_passant(ep) || (0 <= ep + o1 < 120 && 0 <= ep + o2 < 120)
}

/// The en passant cell lets the pawns of the side to move be looked at.
pub open spec fn ep_cell_ok(b: Board) -> bool {
    ep_cell_ok_for(b, b.white_to_move)
}

/// The en passant capture of a pawn of `white` from the cell `o` away.
pub open spec fn ep_turn_for(b: Board, white: bool, o: int) -> Turn {
    let ep = b.field_for_en_passante;
    Turn {
        from: (ep + o) as i32,
        to: ep,
        capture: if white { 20i32 } else { 10i32 },
        promotion: 0,
        eval: 0,
        gives_check: false,
    }
}

pub open spec fn ep_turn(b: Board, o: int) -> Turn {
    ep_turn_for(b, b.white_to_move, o)
}

/// En passant captures the en passant cell offers to the pawns of `white`.
pub open spec fn ep_turns_for(b: Board, white: bool) -> Seq<Turn> {
    let ep = b.field_for_en_passante;
    let (o1, o2) = ep_offsets(white);
    let pawn = pawn_value(white);
    if no_en_passant(ep) {
        seq![]
    } else {
        (if b.field@[ep + o1] == pawn { seq![ep_turn_for(b, white, o1)] } else { seq![] }) + (if b.field@[ep
            + o2] == pawn {
            seq![ep_turn_for(b, white, o2)]
        } else {
            seq![]
        })
    }
}

/// En passant captures offered to the side to move.
pub open spec fn ep_turns(b: Board) -> Seq<Turn> {
    ep_turns_for(b, b.white_to_move)
}

/// The legal ones among `ts[..n]`.
pub open spec fn validated_all(b: Board, ts: Seq<Turn>, n: int) -> Seq<Turn>
    decreases n,
{
    if n <= 0 {
        seq![]
    } else {
        validated_all(b, ts, n - 1) + validated(b, ts[n - 1])
    }
}

/// Legal moves of the candidate list `ml` and the en passant captures, in
/// the order they are found.
pub open spec fn legal_turns(b: Board, ml: Seq<i32>) -> Seq<Turn> {
    list_turns(b, ml, (ml.len() / 2) as int) + validated_all(b, ep_turns(b), ep_turns(b).len() as int)
}

/// `s` is ordered by `eval`: best for white first when `white`, best for
/// black first otherwise.
pub open spec fn sorted_by_eval(s: Seq<Turn>, white: bool) -> bool {
    forall|i: int, j: int|
        0 <= i < j < s.len() ==> if white {
            s[i].eval >= s[j].eval
        } else {
            s[i].eval <= s[j].eval
        }
}

/// The status a game gets when the side to move has no legal move.
pub open spec fn status_without_moves(b: Board) -> GameStatus {
    if attackers(b.field@, b.white_to_move, 0).len() > 0 {
        if b.white_to_move { GameStatus::BlackWin } else { GameStatus::WhiteWin }
    } else {
        GameStatus::Draw
    }
}

/// Two boards agree on everything but the game status.
pub open spec fn same_position(a: Board, b: Board) -> bool {
    &&& a.field@ == b.field@
    &&& a.field_for_en_passante == b.field_for_en_passante
    &&& a.castle_view() == b.castle_view()
    &&& a.white_to_move == b.white_to_move
    &&& a.move_count == b.move_count
    &&& a.move_repetition_map@ == b.move_repetition_map@
    &&& a.zobrist == b.zobrist
}

/// A cell that is not off-board lies inside the playing area.
pub proof fn lemma_on_board_is_inner(f: Seq<i32>, t: int)
    requires
        frame_ok(f),
        0 <= t < 120,
        f[t] != OFF_BOARD,
    ensures
        is_inner(t),
{
}

pub proof fn lemma_king_steps_inner(f: Seq<i32>, i: int, white: bool, n: int)
    requires
        frame_ok(f),
        is_inner(i),
        n <= 8,
    ensures
        inner_pairs(king_steps(f, i, white, n)),
    decreases n,
{
    if n > 0 {
        lemma_king_steps_inner(f, i, white, n - 1);
        let t = i + king_dirs()[n - 1];
        if reachable(f[t], white) && f[t] != OFF_BOARD && !touches(f, t, king_value(!white), 8) {
            lemma_on_board_is_inner(f, t);
            lemma_pair_inner(i, t);
            lemma_inner_pairs_concat(king_steps(f, i, white, n - 1), pair(i, t));
        } else {
            assert(king_steps(f, i, white, n) =~= king_steps(f, i, white, n - 1));
        }
    }
}

pub proof fn lemma_piece_moves_inner(f: Seq<i32>, i: int, white: bool, double_check: bool)
    requires
        frame_ok(f),
        0 <= i < 120,
    ensures
        inner_pairs(piece_moves(f, i, white, double_check)),
{
    let v = f[i];
    if double_check && v != king_value(white) {
    } else if v <= 0 || (10 <= v <= 15 && !white) || (20 <= v <= 25 && white) {
    } else {
        lemma_on_board_is_inner(f, i);
        if v == king_value(white) {
            lemma_king_steps_inner(f, i, white, 8);
            let e: Seq<i32> = seq![];
            let c1 = if i == 95 && f[96] == 0 && f[97] == 0 && f[98] == 11 { pair(95, 97) } else { e };
            let c2 = if i == 25 && f[26] == 0 && f[27] == 0 && f[28] == 21 { pair(25, 27) } else { e };
            let c3 = if i == 95 && f[94] == 0 && f[93] == 0 && f[92] == 0 && f[91] == 11 {
                pair(95, 93)
            } else {
                e
            };
            let c4 = if i == 25 && f[24] == 0 && f[23] == 0 && f[22] == 0 && f[21] == 21 {
                pair(25, 23)
            } else {
                e
            };
            lemma_inner_pairs_concat(c1, c2);
            lemma_inner_pairs_concat(c1 + c2, c3);
            lemma_inner_pairs_concat(c1 + c2 + c3, c4);
            lemma_inner_pairs_concat(king_steps(f, i, white, 8), castles(f, i));
        } else if v == pawn_value(white) {
            lemma_pawn_inner(f, i, white);
        } else if v == knight_value(white) {
            lemma_steps_inner(f, i, knight_jumps(), 8, white);
        } else if v == bishop_value(white) {
            lemma_slides_inner(f, i, bishop_dirs(), 4, white);
        } else if v == queen_value(white) {
            lemma_slides_inner(f, i, king_dirs(), 8, white);
        } else if v == rook_value(white) {
            lemma_slides_inner(f, i, rook_dirs(), 4, white);
        }
    }
}

/// Candidate lists hold `from, to` pairs of cells inside the playing area.
pub proof fn lemma_moves_in_inner(f: Seq<i32>, white: bool, double_check: bool, lo: int, hi: int)
    requires
        frame_ok(f),
        0 <= lo,
        hi <= 120,
    ensures
        inner_pairs(moves_in(f, white, double_check, lo, hi)),
    decreases hi - lo,
{
    if hi > lo {
        lemma_moves_in_inner(f, white, double_check, lo, hi - 1);
        lemma_piece_moves_inner(f, hi - 1, white, double_check);
        lemma_inner_pairs_concat(
            moves_in(f, white, double_check, lo, hi - 1),
            piece_moves(f, hi - 1, white, double_check),
        );
    }
}

/// A king found by `last_cell_of` stands on a cell of `21..n`.
pub proof fn lemma_last_cell_range(f: Seq<i32>, v: i32, n: int)
    ensures
        last_cell_of(f, v, n) == -1 || (21 <= last_cell_of(f, v, n) < n && f[last_cell_of(f, v, n)] == v),
    decreases n,
{
    if n > 21 {
        lemma_last_cell_range(f, v, n - 1);
    }
}

/// `a` may stand before `b` in a list ordered for `white`.
pub open spec fn eval_first(a: Turn, b: Turn, white: bool) -> bool {
    if white { a.eval >= b.eval } else { a.eval <= b.eval }
}

fn stays_before(a: &Turn, b: &Turn, white: bool) -> (r: bool)
    ensures
        r == eval_first(*a, *b, white),
{
    if white { a.eval >= b.eval } else { a.eval <= b.eval }
}

/// The turns of `moves` ordered by `eval`, best first for the side `white`.
fn sort_by_eval(moves: Vec<Turn>, white: bool) -> (r: Vec<Turn>)
    ensures
        r@.to_multiset() == moves@.to_multiset(),
        sorted_by_eval(r@, white),
{
    broadcast use vstd::seq_lib::to_multiset_build, vstd::seq_lib::to_multiset_insert;

    let mut out: Vec<Turn> = Vec::with_capacity(moves.len());
    assert(moves@.take(0) =~= out@);
    let mut k: usize = 0;
    while k < moves.len()
        invariant
            k <= moves@.len(),
            out@.to_multiset() == moves@.take(k as int).to_multiset(),
            sorted_by_eval(out@, white),
        decreases moves@.len() - k,
    {
        let x = moves[k];
        let mut p: usize = 0;
        while p < out.len() && stays_before(&out[p], &x, white)
            invariant
                p <= out@.len(),
                forall|q: int| 0 <= q < p ==> eval_first(#[trigger] out@[q], x, white),
            decreases out@.len() - p,
        {
            p = p + 1;
        }
        let ghost before = out@;
        out.insert(p, x);
        assert forall|i: int, j: int| 0 <= i < j < out@.len() implies (if white {
            out@[i].eval >= out@[j].eval
        } else {
            out@[i].eval <= out@[j].eval
        }) by {
            if j < p {
                assert(out@[i] == before[i] && out@[j] == before[j]);
            } else if j == p {
                assert(out@[i] == before[i]);
                assert(eval_first(before[i], x, white));
            } else if i == p {
                assert(out@[j] == before[j - 1]);
                assert(!eval_first(before[p as int], x, white));
                if j - 1 > p {
                    assert(eval_first(before[p as int], before[j - 1], white));
                }
            } else if i < p {
                assert(out@[i] == before[i] && out@[j] == before[j - 1]);
            } else {
                assert(out@[i] == before[i - 1] && out@[j] == before[j - 1]);
            }
        }
        assert(moves@.take(k + 1) =~= moves@.take(k as int).push(x));
        proof {
            vstd::seq_lib::to_multiset_insert(before, p as int, x);
            vstd::seq_lib::to_multiset_build(moves@.take(k as int), x);
        }
        k = k + 1;
    }
    assert(moves@.take(moves@.len() as int) =~= moves@);
    out
}

/// Same positions give the same checks, castling permissions and tries.
proof fn lemma_same_position_agree(a: Board, b: Board, t: Turn)
    requires
        same_position(a, b),
        a.game_status == b.game_status,
    ensures
        after(a, t) == after(b, t),
        legal(a, t) == legal(b, t),
        checked_turn(a, t) == checked_turn(b, t),
        validated(a, t) == validated(b, t),
        try_ok(a, t) == try_ok(b, t),
        forall|w: bool, x: int| castling_ok(a, w, x) == castling_ok(b, w, x),
        forall|w: bool, x: int| promotion_of(a, w, x) == promotion_of(b, w, x),
{
}

/// Same positions give the same moves for a candidate pair.
proof fn lemma_same_position_pair(a: Board, b: Board, i0: int, i1: int)
    requires
        same_position(a, b),
        a.game_status == b.game_status,
    ensures
        pair_turns(a, i0, i1) == pair_turns(b, i0, i1),
        pair_tries_ok(a, i0, i1) == pair_tries_ok(b, i0, i1),
{
    lemma_same_position_agree(a, b, base_turn(b, i0, i1));
    lemma_same_position_agree(a, b, first_promotion(b, i0, i1));
    lemma_same_position_agree(a, b, second_promotion(b, i0, i1));
    assert(base_turn(a, i0, i1) == base_turn(b, i0, i1));
    assert(first_promotion(a, i0, i1) == first_promotion(b, i0, i1));
    assert(second_promotion(a, i0, i1) == second_promotion(b, i0, i1));
}

pub struct MoveGenService {}

impl MoveGenService {
    pub fn new() -> (s: Self)
        ensures
            s == (MoveGenService {}),
    {
        MoveGenService {}
    }

    /// Cells of the white and of the black king (the last one found on
    /// `21..99`), -1 where there is none.
    fn calc_king_positions(&self, field: &[i32]) -> (r: (i32, i32))
        requires
            field@.len() == 120,
        ensures
            r.0 == king_cell(field@, true),
            r.1 == king_cell(field@, false),
    {
        let mut white_king_pos: i32 = -1;
        let mut black_king_pos: i32 = -1;
        let mut i: usize = 21;
        while i < 99
            invariant
                field@.len() == 120,
                21 <= i <= 99,
                white_king_pos == last_cell_of(field@, 15, i as int),
                black_king_pos == last_cell_of(field@, 25, i as int),
            decreases 99 - i,
        {
            if field[i] == 15 {
                white_king_pos = i as i32;
            }
            if field[i] == 25 {
                black_king_pos = i as i32;
            }
            i = i + 1;
        }
        (white_king_pos, black_king_pos)
    }

    /// Cells of the enemy pieces of `white` attacking `target_idx` (or
    /// `white`'s king when `target_idx` is 0).
    pub fn get_attack_idx_list(&self, field: &[i32], white: bool, target_idx: i32) -> (r: Vec<i32>)
        requires
            frame_ok(field@),
            attack_target_ok(field@, white, target_idx as int),
        ensures
            r@ == attackers(field@, white, target_idx as int),
    {
        let (white_king_pos, black_king_pos) = self.calc_king_positions(field);
        let mut check_idx_list: Vec<i32> = Vec::new();
        let opponent_pawn: i32 = if white { 20 } else { 10 };
        let opponent_rook: i32 = if white { 21 } else { 11 };
        let opponent_knight: i32 = if white { 22 } else { 12 };
        let opponent_bishop: i32 = if white { 23 } else { 13 };
        let opponent_queen: i32 = if white { 24 } else { 14 };
        let mut target = target_idx;
        if target == 0 {
            target = if white { white_king_pos } else { black_king_pos };
        }
        proof {
            lemma_last_cell_range(field@, king_value(white), 99);
        }
        assert(target == attacked_cell(field@, white, target_idx as int));
        assert(21 <= target <= 98);
        let tu = target as usize;
        if white {
            if field[tu - 9] == opponent_pawn {
                check_idx_list.push(target - 9);
            }
            if field[tu - 11] == opponent_pawn {
                check_idx_list.push(target - 11);
            }
        } else {
            if field[tu + 9] == opponent_pawn {
                check_idx_list.push(target + 9);
            }
            if field[tu + 11] == opponent_pawn {
                check_idx_list.push(target + 11);
            }
        }
        let ghost pawns = check_idx_list@;
        let knight_offsets: [i32; 8] = [-12, -21, -8, -19, 12, 21, 8, 19];
        assert(knight_offsets@ =~= knight_attack_offsets());
        let mut k: usize = 0;
        while k < 8
            invariant
                frame_ok(field@),
                21 <= target <= 98,
                k <= 8,
                knight_offsets@ == knight_attack_offsets(),
                check_idx_list@ == pawns + jump_attackers(
                    field@,
                    target as int,
                    knight_attack_offsets(),
                    opponent_knight,
                    k as int,
                ),
            decreases 8 - k,
        {
            let o = knight_offsets[k];
            if field[(target + o) as usize] == opponent_knight {
                check_idx_list.push(target + o);
            }
            assert(check_idx_list@ =~= pawns + jump_attackers(
                field@,
                target as int,
                knight_attack_offsets(),
                opponent_knight,
                k + 1,
            ));
            k = k + 1;
        }
        let ghost knights = check_idx_list@;
        let bishop_offsets = bishop_dir_array();
        self.push_line_attackers(field, target, &bishop_offsets, opponent_bishop, opponent_queen, &mut check_idx_list);
        let ghost diagonals = check_idx_list@;
        let rook_offsets: [i32; 4] = [-10, -1, 1, 10];
        assert(rook_offsets@ =~= line_attack_dirs());
        self.push_line_attackers(field, target, &rook_offsets, opponent_rook, opponent_queen, &mut check_idx_list);
        assert(check_idx_list@ =~= attackers(field@, white, target_idx as int));
        check_idx_list
    }

    /// Appends, for each direction, the first piece met from `target` if it
    /// is `a` or `b`.
    fn push_line_attackers(
        &self,
        field: &[i32],
        target: i32,
        dirs: &[i32],
        a: i32,
        b: i32,
        list: &mut Vec<i32>,
    )
        requires
            frame_ok(field@),
            21 <= target <= 98,
            forall|k: int| 0 <= k < dirs@.len() ==> is_dir(#[trigger] dirs@[k] as int),
        ensures
            final(list)@ == old(list)@ + line_attackers(
                field@,
                target as int,
                dirs@,
                a,
                b,
                dirs@.len() as int,
            ),
    {
        let ghost start = old(list)@;
        let mut k: usize = 0;
        while k < dirs.len()
            invariant
                frame_ok(field@),
                21 <= target <= 98,
                forall|j: int| 0 <= j < dirs@.len() ==> is_dir(#[trigger] dirs@[j] as int),
                k <= dirs@.len(),
                list@ == start + line_attackers(field@, target as int, dirs@, a, b, k as int),
            decreases dirs@.len() - k,
        {
            let o = dirs[k];
            assert(is_dir(dirs@[k as int] as int));
            let mut pos = target;
            while field[(pos + o) as usize] == 0
                invariant
                    frame_ok(field@),
                    is_dir(o as int),
                    pos == target || is_inner(pos as int),
                    21 <= target <= 98,
                    ray_end(field@, pos as int, o as int) == ray_end(field@, target as int, o as int),
                decreases (if o > 0 { 120 - pos } else { pos as int }),
            {
                assert(is_inner(pos + o)) by {
                    lemma_on_board_is_inner(field@, pos + o);
                }
                pos = pos + o;
            }
            let e = pos + o;
            assert(e == ray_end(field@, target as int, o as int));
            if field[e as usize] == a || field[e as usize] == b {
                list.push(e);
            }
            assert(list@ =~= start + line_attackers(field@, target as int, dirs@, a, b, k + 1));
            k = k + 1;
        }
    }

    /// Whether some neighbour of `t` holds `king`.
    fn touches_king(&self, field: &[i32; 120], t: i32, king: i32) -> (b: bool)
        requires
            is_inner(t as int),
        ensures
            b == touches(field@, t as int, king, 8),
    {
        let dirs = king_dir_array();
        let mut k: usize = 0;
        let mut found = false;
        while k < 8
            invariant
                is_inner(t as int),
                dirs@ == king_dirs(),
                k <= 8,
                found == touches(field@, t as int, king, k as int),
            decreases 8 - k,
        {
            if field[(t + dirs[k]) as usize] == king {
                found = true;
            }
            k = k + 1;
        }
        found
    }

    /// Appends the moves of `white`'s king on `i`.
    fn push_king_moves(&self, field: &[i32; 120], i: i32, white: bool, moves: &mut Vec<i32>)
        requires
            frame_ok(field@),
            is_inner(i as int),
        ensures
            final(moves)@ == old(moves)@ + king_steps(field@, i as int, white, 8) + castles(
                field@,
                i as int,
            ),
    {
        let ghost start = old(moves)@;
        let dirs = king_dir_array();
        let enemy_king: i32 = if white { 25 } else { 15 };
        let opp: i32 = if white { 2 } else { 1 };
        let mut k: usize = 0;
        while k < 8
            invariant
                frame_ok(field@),
                is_inner(i as int),
                dirs@ == king_dirs(),
                enemy_king == king_value(!white),
                opp == crate::movement::enemy(white),
                k <= 8,
                moves@ == start + king_steps(field@, i as int, white, k as int),
            decreases 8 - k,
        {
            let target = i + dirs[k];
            assert(target == i + king_dirs()[k as int]);
            let v = field[target as usize];
            let ghost before = moves@;
            let c = crate::square::colour_of(v);
            assert((v == 0 || c == opp) == reachable(v, white));
            if (v == 0 || c == opp) && v != OFF_BOARD {
                proof {
                    lemma_on_board_is_inner(field@, target as int);
                }
                if !self.touches_king(field, target, enemy_king) {
                    moves.push(i);
                    moves.push(target);
                }
            }
            assert(king_steps(field@, i as int, white, k + 1) == king_steps(field@, i as int, white, k as int) + (if reachable(v, white) && v != OFF_BOARD && !touches(field@, target as int, king_value(!white), 8) { pair(i as int, target as int) } else { seq![] }));
            assert(moves@ =~= start + king_steps(field@, i as int, white, k + 1));
            k = k + 1;
        }
        let ghost steps_done = moves@;
        if i == 95 && field[96] == 0 && field[97] == 0 && field[98] == 11 {
            moves.push(95);
            moves.push(97);
        }
        if i == 25 && field[26] == 0 && field[27] == 0 && field[28] == 21 {
            moves.push(25);
            moves.push(27);
        }
        if i == 95 && field[94] == 0 && field[93] == 0 && field[92] == 0 && field[91] == 11 {
            moves.push(95);
            moves.push(93);
        }
        if i == 25 && field[24] == 0 && field[23] == 0 && field[22] == 0 && field[21] == 21 {
            moves.push(25);
            moves.push(23);
        }
        assert(moves@ =~= steps_done + castles(field@, i as int));
    }

    /// Appends the pseudo-legal moves of the piece on cell `i`.
    fn push_piece_moves(
        &self,
        field: &[i32; 120],
        i: i32,
        white: bool,
        double_check: bool,
        moves: &mut Vec<i32>,
    )
        requires
            frame_ok(field@),
            0 <= i < 120,
        ensures
            final(moves)@ == old(moves)@ + piece_moves(field@, i as int, white, double_check),
    {
        let ghost start = old(moves)@;
        let v = field[i as usize];
        let king: i32 = if white { 15 } else { 25 };
        if double_check && v != king {
            assert(moves@ =~= start + piece_moves(field@, i as int, white, double_check));
            return;
        }
        if v <= 0 || (v >= 10 && v <= 15 && !white) || (v >= 20 && v <= 25 && white) {
            assert(moves@ =~= start + piece_moves(field@, i as int, white, double_check));
            return;
        }
        proof {
            lemma_on_board_is_inner(field@, i as int);
        }
        if v == king {
            self.push_king_moves(field, i, white, moves);
            assert(moves@ =~= start + piece_moves(field@, i as int, white, double_check));
        } else if v == (if white { 10 } else { 20 }) {
            push_pawn_moves(field, i, white, moves);
        } else if v == (if white { 12 } else { 22 }) {
            let jumps = knight_jump_array();
            push_steps(field, i, jumps.as_slice(), white, moves);
        } else if v == (if white { 13 } else { 23 }) {
            let dirs = bishop_dir_array();
            push_slides(field, i, dirs.as_slice(), white, moves);
        } else if v == (if white { 14 } else { 24 }) {
            let dirs = king_dir_array();
            push_slides(field, i, dirs.as_slice(), white, moves);
        } else if v == (if white { 11 } else { 21 }) {
            let dirs = rook_dir_array();
            push_slides(field, i, dirs.as_slice(), white, moves);
        } else {
            assert(moves@ =~= start + piece_moves(field@, i as int, white, double_check));
        }
    }

    /// Pseudo-legal moves of the side to move as `from, to` pairs: of the
    /// piece on `idx`, or of all pieces when `idx` is 0. When the king is in
    /// double check only king moves are generated.
    pub fn generate_moves_list_for_piece(&self, board: &Board, idx: i32) -> (r: Vec<i32>)
        requires
            frame_ok(board.field@),
            0 <= idx < 120,
            king_cell(board.field@, board.white_to_move) != -1,
        ensures
            r@ == moves_in(
                board.field@,
                board.white_to_move,
                attackers(board.field@, board.white_to_move, 0).len() > 1,
                (if idx == 0 { 21 } else { idx as int }),
                (if idx == 0 { 99 } else { idx + 1 }),
            ),
    {
        let check_idx_list = self.get_check_idx_list(board.field.as_slice(), board.white_to_move);
        let field = &board.field;
        let white = board.white_to_move;
        let double_check = check_idx_list.len() > 1;
        let mut moves: Vec<i32> = Vec::with_capacity(64);
        let start_idx: i32 = if idx == 0 { 21 } else { idx };
        let end_idx: i32 = if idx == 0 { 99 } else { idx + 1 };
        let mut i = start_idx;
        while i < end_idx
            invariant
                frame_ok(field@),
                0 <= start_idx <= i <= end_idx <= 120,
                moves@ == moves_in(field@, white, double_check, start_idx as int, i as int),
            decreases end_idx - i,
        {
            self.push_piece_moves(field, i, white, double_check, &mut moves);
            i = i + 1;
        }
        moves
    }

    /// Plays `turn`, keeps it (marked when it gives check) if it leaves the
    /// own king unattacked, and takes it back.
    fn validate_and_add_move(
        &self,
        board: &mut Board,
        turn: &mut Turn,
        valid_moves: &mut Vec<Turn>,
        white_turn: bool,
    )
        requires
            try_ok(*old(board), *old(turn)),
            white_turn == old(board).white_to_move,
        ensures
            same_position(*final(board), *old(board)),
            final(board).game_status == GameStatus::Normal,
            *final(turn) == checked_turn(*old(board), *old(turn)),
            final(valid_moves)@ == old(valid_moves)@ + validated(*old(board), *old(turn)),
    {
        let ghost b0 = *board;
        let ghost t0 = *turn;
        proof {
            lemma_undo_move_restores(b0, t0);
        }
        let move_info = board.do_move(turn);
        let mut valid = true;
        if !self.get_check_idx_list(board.field.as_slice(), white_turn).is_empty() {
            valid = false;
        }
        if valid {
            if self.get_check_idx_list(board.field.as_slice(), !white_turn).len() > 0 {
                turn.gives_check = true;
            }
            valid_moves.push(*turn);
        }
        assert(crate::model::field_after_undo(board.field@, *turn, move_info.en_passante, board.white_to_move)
            == crate::model::field_after_undo(board.field@, t0, move_info.en_passante, board.white_to_move));
        board.undo_move(turn, move_info);
        assert(valid_moves@ =~= old(valid_moves)@ + validated(b0, t0));
    }

    /// Tries the promotion to a knight and then to a queen.
    fn validate_and_add_promotion_moves(
        &self,
        board: &mut Board,
        turn: &mut Turn,
        valid_moves: &mut Vec<Turn>,
        white_turn: bool,
    )
        requires
            white_turn == old(board).white_to_move,
            try_ok(*old(board), Turn { promotion: if white_turn { 12i32 } else { 22i32 }, ..*old(turn) }),
            try_ok(
                *old(board),
                Turn {
                    promotion: if white_turn { 14i32 } else { 24i32 },
                    ..checked_turn(
                        *old(board),
                        Turn { promotion: if white_turn { 12i32 } else { 22i32 }, ..*old(turn) },
                    )
                },
            ),
        ensures
            same_position(*final(board), *old(board)),
            final(board).game_status == GameStatus::Normal,
            ({
                let t1 = Turn { promotion: if white_turn { 12i32 } else { 22i32 }, ..*old(turn) };
                let t2 = Turn {
                    promotion: if white_turn { 14i32 } else { 24i32 },
                    ..checked_turn(*old(board), t1)
                };
                &&& final(valid_moves)@ == old(valid_moves)@ + validated(*old(board), t1) + validated(
                    *old(board),
                    t2,
                )
                &&& *final(turn) == checked_turn(*old(board), t2)
            }),
    {
        let ghost b0 = *board;
        let promotion_types: [i32; 2] = if white_turn { [12, 14] } else { [22, 24] };
        turn.promotion = promotion_types[0];
        self.validate_and_add_move(board, turn, valid_moves, white_turn);
        turn.promotion = promotion_types[1];
        self.validate_and_add_move(board, turn, valid_moves, white_turn);
        assert(valid_moves@ =~= old(valid_moves)@ + validated(
            b0,
            Turn { promotion: if white_turn { 12i32 } else { 22i32 }, ..*old(turn) },
        ) + validated(
            b0,
            Turn {
                promotion: if white_turn { 14i32 } else { 24i32 },
                ..checked_turn(b0, Turn { promotion: if white_turn { 12i32 } else { 22i32 }, ..*old(turn) })
            },
        ));
    }

    /// Castling onto `target` is allowed on `board`.
    fn is_valid_castling(&self, board: &Board, white_turn: bool, target: i32) -> (ok: bool)
        requires
            frame_ok(board.field@),
            king_cell(board.field@, white_turn) != -1,
        ensures
            ok == castling_ok(*board, white_turn, target as int),
    {
        let check_squares: [i32; 2] = if white_turn {
            if target == 97 { [96, 97] } else { [94, 93] }
        } else {
            if target == 27 { [26, 27] } else { [24, 23] }
        };
        if !self.get_check_idx_list(board.field.as_slice(), white_turn).is_empty() {
            return false;
        }
        if !self.get_attack_idx_list(board.field.as_slice(), white_turn, check_squares[0]).is_empty() {
            return false;
        }
        if !self.get_attack_idx_list(board.field.as_slice(), white_turn, check_squares[1]).is_empty() {
            return false;
        }
        if white_turn {
            if target == 97 && !board.white_possible_to_castle_short {
                return false;
            }
            if target == 93 && !board.white_possible_to_castle_long {
                return false;
            }
        } else {
            if target == 27 && !board.black_possible_to_castle_short {
                return false;
            }
            if target == 23 && !board.black_possible_to_castle_long {
                return false;
            }
        }
        true
    }

    /// The promotion a pawn move from `idx0` to `idx1` gets, if any.
    fn get_promotion_move(&self, board: &Board, white_turn: bool, idx0: i32, idx1: i32) -> (r: Option<Turn>)
        requires
            0 <= idx0 < 120,
        ensures
            r == (if promotion_of(*board, white_turn, idx0 as int) != 0 {
                Some(
                    Turn {
                        from: idx0,
                        to: idx1,
                        capture: 0,
                        promotion: promotion_of(*board, white_turn, idx0 as int),
                        eval: 0,
                        gives_check: false,
                    },
                )
            } else {
                None
            }),
    {
        if white_turn && idx0 / 10 == 3 && board.field[idx0 as usize] == 10 {
            Some(Turn { from: idx0, to: idx1, capture: 0, promotion: 14, eval: 0, gives_check: false })
        } else if !white_turn && idx0 / 10 == 8 && board.field[idx0 as usize] == 20 {
            Some(Turn { from: idx0, to: idx1, capture: 0, promotion: 24, eval: 0, gives_check: false })
        } else {
            None
        }
    }

    /// En passant captures onto the en passant cell.
    fn get_en_passante_turns(&self, board: &Board, white_turn: bool) -> (r: Vec<Turn>)
        requires
            ep_cell_ok_for(*board, white_turn),
        ensures
            r@ == ep_turns_for(*board, white_turn),
    {
        let mut en_passante_turns: Vec<Turn> = Vec::with_capacity(4);
        let ep = board.field_for_en_passante;
        if ep != 0 && ep != -1 {
            let target_piece: i32 = if white_turn { 20 } else { 10 };
            let pawn: i32 = if white_turn { 10 } else { 20 };
            let offsets: [i32; 2] = if white_turn { [9, 11] } else { [-9, -11] };
            if board.field[(ep + offsets[0]) as usize] == pawn {
                en_passante_turns.push(Turn::new(ep + offsets[0], ep, target_piece, 0, 0, false));
            }
            if board.field[(ep + offsets[1]) as usize] == pawn {
                en_passante_turns.push(Turn::new(ep + offsets[1], ep, target_piece, 0, 0, false));
            }
        }
        assert(en_passante_turns@ =~= ep_turns_for(*board, white_turn));
        en_passante_turns
    }

    /// Adds the legal moves coming from the candidate pair `idx0, idx1`.
    fn add_pair_moves(
        &self,
        board: &mut Board,
        idx0: i32,
        idx1: i32,
        valid_moves: &mut Vec<Turn>,
        white_turn: bool,
    )
        requires
            frame_ok(old(board).field@),
            king_cell(old(board).field@, old(board).white_to_move) != -1,
            old(board).game_status == GameStatus::Normal,
            white_turn == old(board).white_to_move,
            is_inner(idx0 as int),
            is_inner(idx1 as int),
            pair_tries_ok(*old(board), idx0 as int, idx1 as int),
        ensures
            same_position(*final(board), *old(board)),
            final(board).game_status == GameStatus::Normal,
            final(valid_moves)@ == old(valid_moves)@ + pair_turns(*old(board), idx0 as int, idx1 as int),
    {
        let ghost b0 = *board;
        let king_value: i32 = if white_turn { 15 } else { 25 };
        let mut move_turn = Turn::new(idx0, idx1, board.field[idx1 as usize], 0, 0, false);
        assert(move_turn == base_turn(b0, idx0 as int, idx1 as int));
        if board.field[idx0 as usize] == king_value && (idx1 == idx0 + 2 || idx1 == idx0 - 2) {
            if !self.is_valid_castling(board, white_turn, idx1) {
                assert(old(valid_moves)@ + pair_turns(b0, idx0 as int, idx1 as int) =~= valid_moves@);
                return;
            }
        }
        if let Some(promotion_move) = self.get_promotion_move(board, white_turn, idx0, idx1) {
            move_turn.promotion = promotion_move.promotion;
            assert(Turn { promotion: if white_turn { 12i32 } else { 22i32 }, ..move_turn } == first_promotion(b0, idx0 as int, idx1 as int));
            self.validate_and_add_promotion_moves(board, &mut move_turn, valid_moves, white_turn);
        } else {
            self.validate_and_add_move(board, &mut move_turn, valid_moves, white_turn);
        }
    }

    /// Legal moves among the candidate pairs `move_list` and the en passant
    /// captures, ordered by `eval`; with no legal move the game is over.
    fn get_valid_moves_from_move_list(&self, move_list: &[i32], board: &mut Board) -> (r: Vec<Turn>)
        requires
            frame_ok(old(board).field@),
            king_cell(old(board).field@, old(board).white_to_move) != -1,
            ep_cell_ok(*old(board)),
            old(board).game_status == GameStatus::Normal,
            inner_pairs(move_list@),
            list_tries_ok(*old(board), move_list@),
            ep_tries_ok(*old(board)),
        ensures
            same_position(*final(board), *old(board)),
            final(board).game_status == (if r@.len() == 0 {
                status_without_moves(*old(board))
            } else {
                GameStatus::Normal
            }),
            r@.to_multiset() == legal_turns(*old(board), move_list@).to_multiset(),
            sorted_by_eval(r@, old(board).white_to_move),
    {
        let ghost b0 = *board;
        let mut valid_moves: Vec<Turn> = Vec::with_capacity(64);
        let white_turn = board.white_to_move;
        let king_value: i32 = if white_turn { 15 } else { 25 };
        let mut i: usize = 0;
        let ghost mut n: int = 0;
        while i < move_list.len()
            invariant
                inner_pairs(move_list@),
                list_tries_ok(b0, move_list@),
                frame_ok(b0.field@),
                king_cell(b0.field@, b0.white_to_move) != -1,
                b0.game_status == GameStatus::Normal,
                white_turn == b0.white_to_move,
                king_value == crate::move_gen_service::king_value(white_turn),
                same_position(*board, b0),
                board.game_status == GameStatus::Normal,
                i == 2 * n,
                0 <= i <= move_list@.len(),
                valid_moves@ == list_turns(b0, move_list@, n),
            decreases move_list@.len() - i,
        {
            assert(pair_tries_ok(b0, move_list@[2 * n] as int, move_list@[2 * n + 1] as int));
            let idx0 = move_list[i];
            let idx1 = move_list[i + 1];
            assert(is_inner(idx0 as int) && is_inner(idx1 as int));
            let ghost before = valid_moves@;
            proof {
                lemma_same_position_pair(*board, b0, idx0 as int, idx1 as int);
            }
            self.add_pair_moves(board, idx0, idx1, &mut valid_moves, white_turn);
            assert(valid_moves@ =~= list_turns(b0, move_list@, n + 1));
            i = i + 2;
            proof {
                n = n + 1;
            }
        }
        assert(n == move_list@.len() / 2);
        let ghost listed = valid_moves@;
        let en_passante_turns = self.get_en_passante_turns(board, white_turn);
        assert(en_passante_turns@ == ep_turns(b0));
        let mut j: usize = 0;
        while j < en_passante_turns.len()
            invariant
                en_passante_turns@ == ep_turns(b0),
                ep_tries_ok(b0),
                white_turn == b0.white_to_move,
                same_position(*board, b0),
                board.game_status == GameStatus::Normal,
                b0.game_status == GameStatus::Normal,
                j <= en_passante_turns@.len(),
                valid_moves@ == listed + validated_all(b0, ep_turns(b0), j as int),
            decreases en_passante_turns@.len() - j,
        {
            let mut turn = en_passante_turns[j];
            assert(try_ok(b0, ep_turns(b0)[j as int]));
            proof {
                lemma_same_position_agree(*board, b0, turn);
            }
            self.validate_and_add_move(board, &mut turn, &mut valid_moves, white_turn);
            assert(valid_moves@ =~= listed + validated_all(b0, ep_turns(b0), j + 1));
            j = j + 1;
        }
        assert(valid_moves@ == legal_turns(b0, move_list@));
        let ghost found = valid_moves@;
        let valid_moves = sort_by_eval(valid_moves, white_turn);
        proof {
            vstd::seq_lib::to_multiset_len(valid_moves@);
            vstd::seq_lib::to_multiset_len(found);
        }
        if valid_moves.len() == 0 {
            if self.get_check_idx_list(board.field.as_slice(), board.white_to_move).len() > 0 {
                board.game_status = if board.white_to_move {
                    GameStatus::BlackWin
                } else {
                    GameStatus::WhiteWin
                }
            } else {
                board.game_status = GameStatus::Draw;
            }
        }
        valid_moves
    }

    /// Whether `t` can be tried on `board` (see `try_ok`).
    fn can_try(&self, board: &Board, t: Turn) -> (ok: bool)
        ensures
            ok == try_ok(*board, t),
    {
        if board.game_status != GameStatus::Normal {
            return false;
        }
        if !board.can_do_move(&t) {
            return false;
        }
        let f = &board.field;
        let from = t.from as usize;
        let to = t.to as usize;
        let fb = f[from];
        let ft = if t.promotion != 0 { t.promotion } else { fb };
        let ep = board.field_for_en_passante;
        let ep_capture = ep == t.to && (ft == 10 || ft == 20);
        let a = field_after(f, &t, ep);
        if t.from == t.to {
            return false;
        }
        if t.promotion != 0 && fb != (if board.white_to_move { 10 } else { 20 }) {
            return false;
        }
        if ep_capture && f[to] != 0 {
            return false;
        }
        if ep_capture && ft == 10 && !(to + 10 == from || f[to + 10] == 20) {
            return false;
        }
        if ep_capture && ft == 20 && !(to - 10 == from || f[to - 10] == 10) {
            return false;
        }
        if !ep_capture && f[to] != (if t.capture > 0 { t.capture } else { 0 }) {
            return false;
        }
        if (fb == 15 || fb == 25) && t.promotion == 0 {
            let home = !(t.from == 25 && t.to == 27 && !(f[28] == 21 && f[26] == 0)) && !(t.from == 25
                && t.to == 23 && !(f[21] == 21 && f[24] == 0)) && !(t.from == 95 && t.to == 97 && !(
            f[98] == 11 && f[96] == 0)) && !(t.from == 95 && t.to == 93 && !(f[91] == 11 && f[94]
                == 0));
            assert(home == castle_rook_home(f@, t.from as int, t.to as int));
            if !home {
                return false;
            }
        }
        let h = board.zobrist.hash_position(&a, !board.white_to_move);
        assert(h == board.hash_after_move(t));
        match board.move_repetition_map.get(&h) {
            Some(c) => {
                if *c < 1 {
                    return false;
                }
            },
            None => {},
        }
        assert(restorable(*board, t));
        if !has_frame(&a) {
            return false;
        }
        let (white_king, black_king) = self.calc_king_positions(a.as_slice());
        let own_king = if board.white_to_move { white_king } else { black_king };
        let other_king = if board.white_to_move { black_king } else { white_king };
        if own_king == -1 {
            return false;
        }
        if self.get_check_idx_list(a.as_slice(), board.white_to_move).len() == 0 && other_king == -1 {
            return false;
        }
        true
    }

    /// Whether the moves coming from the pair `i0, i1` can be tried (see
    /// `pair_tries_ok`).
    fn can_try_pair(&self, board: &Board, i0: i32, i1: i32) -> (ok: bool)
        requires
            frame_ok(board.field@),
            king_cell(board.field@, board.white_to_move) != -1,
            is_inner(i0 as int),
            is_inner(i1 as int),
        ensures
            ok == pair_tries_ok(*board, i0 as int, i1 as int),
    {
        let white = board.white_to_move;
        let king: i32 = if white { 15 } else { 25 };
        if board.field[i0 as usize] == king && (i1 == i0 + 2 || i1 == i0 - 2) {
            if !self.is_valid_castling(board, white, i1) {
                return true;
            }
        }
        let base = Turn::new(i0, i1, board.field[i1 as usize], 0, 0, false);
        assert(base == base_turn(*board, i0 as int, i1 as int));
        if self.get_promotion_move(board, white, i0, i1).is_some() {
            let first = Turn { promotion: if white { 12 } else { 22 }, ..base };
            let second = Turn { promotion: if white { 14 } else { 24 }, ..first };
            assert(first == first_promotion(*board, i0 as int, i1 as int));
            proof {
                lemma_try_ok_ignores_mark(*board, second, second_promotion(*board, i0 as int, i1 as int));
            }
            self.can_try(board, first) && self.can_try(board, second)
        } else {
            self.can_try(board, base)
        }
    }

    /// Whether `generate_valid_moves_list` may be called on `board` (see
    /// `generation_ok`): the frame is intact, the side to move has a king,
    /// the en passant cell is usable, and every move it would try can be
    /// played and taken back.
    pub fn can_generate(&self, board: &Board) -> (ok: bool)
        ensures
            ok == generation_ok(*board),
    {
        if !has_frame(&board.field) {
            return false;
        }
        let (white_king, black_king) = self.calc_king_positions(board.field.as_slice());
        let own_king = if board.white_to_move { white_king } else { black_king };
        if own_king == -1 {
            return false;
        }
        let ep = board.field_for_en_passante;
        let (o1, o2): (i32, i32) = if board.white_to_move { (9, 11) } else { (-9, -11) };
        if !(ep == 0 || ep == -1 || (-11 <= ep && ep < 131 && 0 <= ep + o1 && ep + o1 < 120 && 0 <= ep + o2
            && ep + o2 < 120)) {
            return false;
        }
        if board.game_status != GameStatus::Normal {
            return true;
        }
        let move_list = self.generate_moves_list_for_piece(board, 0);
        proof {
            lemma_moves_in_inner(
                board.field@,
                board.white_to_move,
                attackers(board.field@, board.white_to_move, 0).len() > 1,
                21,
                99,
            );
        }
        let mut i: usize = 0;
        while i + 1 < move_list.len()
            invariant
                frame_ok(board.field@),
                king_cell(board.field@, board.white_to_move) != -1,
                board.game_status == GameStatus::Normal,
                move_list@ == candidates(*board),
                inner_pairs(move_list@),
                i % 2 == 0,
                i <= move_list@.len(),
                forall|k: int|
                    0 <= k < i / 2 ==> #[trigger] pair_tries_ok(
                        *board,
                        move_list@[2 * k] as int,
                        move_list@[2 * k + 1] as int,
                    ),
            decreases move_list@.len() - i,
        {
            let i0 = move_list[i];
            let i1 = move_list[i + 1];
            if !self.can_try_pair(board, i0, i1) {
                assert(!list_tries_ok(*board, move_list@)) by {
                    let k = i as int / 2;
                    assert(i == 2 * k);
                    assert(!pair_tries_ok(*board, move_list@[2 * k] as int, move_list@[2 * k + 1] as int));
                }
                return false;
            }
            i = i + 2;
        }
        assert(list_tries_ok(*board, move_list@));
        let ep_list = self.get_en_passante_turns(board, board.white_to_move);
        let mut j: usize = 0;
        while j < ep_list.len()
            invariant
                board.game_status == GameStatus::Normal,
                ep_list@ == ep_turns(*board),
                j <= ep_list@.len(),
                forall|k: int| 0 <= k < j ==> #[trigger] try_ok(*board, ep_turns(*board)[k]),
            decreases ep_list@.len() - j,
        {
            if !self.can_try(board, ep_list[j]) {
                assert(!try_ok(*board, ep_turns(*board)[j as int]));
                return false;
            }
            j = j + 1;
        }
        true
    }

    /// Legal moves of the side to move, ordered by `eval`; none when the game
    /// is over. Finding none ends the game: checkmate is a win for the other
    /// side, anything else a draw.
    pub fn generate_valid_moves_list(&self, board: &mut Board) -> (r: Vec<Turn>)
        requires
            generation_ok(*old(board)),
        ensures
            same_position(*final(board), *old(board)),
            old(board).game_status != GameStatus::Normal ==> r@.len() == 0 && final(board).game_status
                == old(board).game_status,
            old(board).game_status == GameStatus::Normal ==> {
                &&& r@.to_multiset() == legal_turns(*old(board), candidates(*old(board))).to_multiset()
                &&& sorted_by_eval(r@, old(board).white_to_move)
                &&& final(board).game_status == (if r@.len() == 0 {
                    status_without_moves(*old(board))
                } else {
                    GameStatus::Normal
                })
            },
    {
        if board.game_status != GameStatus::Normal {
            return Vec::new();
        }
        let move_list = self.generate_moves_list_for_piece(board, 0);
        proof {
            lemma_moves_in_inner(
                board.field@,
                board.white_to_move,
                attackers(board.field@, board.white_to_move, 0).len() > 1,
                21,
                99,
            );
        }
        self.get_valid_moves_from_move_list(move_list.as_slice(), board)
    }

    /// Cells of the enemy pieces giving check to `white`'s king.
    pub fn get_check_idx_list(&self, field: &[i32], white: bool) -> (r: Vec<i32>)
        requires
            frame_ok(field@),
            king_cell(field@, white) != -1,
        ensures
            r@ == attackers(field@, white, 0),
    {
        self.get_attack_idx_list(field, white, 0)
    }
}

/// Whether a move can be tried does not depend on its check mark or its
/// evaluation.
pub proof fn lemma_try_ok_ignores_mark(b: Board, t: Turn, u: Turn)
    requires
        t.from == u.from,
        t.to == u.to,
        t.capture == u.capture,
        t.promotion == u.promotion,
    ensures
        try_ok(b, t) == try_ok(b, u),
{
    assert(after(b, t) == after(b, u));
    assert(b.hash_after_move(t) == b.hash_after_move(u));
    assert(b.can_move(t) == b.can_move(u));
    assert(restorable(b, t) == restorable(b, u));
}

/// A legal move stays legal once marked as giving check.
proof fn lemma_validated_legal(b: Board, t: Turn)
    ensures
        forall|i: int| 0 <= i < validated(b, t).len() ==> #[trigger] legal(b, validated(b, t)[i]),
{
    if legal(b, t) {
        assert(after(b, checked_turn(b, t)) == after(b, t));
    }
}

proof fn lemma_list_turns_legal(b: Board, ml: Seq<i32>, n: int)
    ensures
        forall|i: int| 0 <= i < list_turns(b, ml, n).len() ==> #[trigger] legal(b, list_turns(b, ml, n)[i]),
    decreases n,
{
    if n > 0 {
        lemma_list_turns_legal(b, ml, n - 1);
        let i0 = ml[2 * n - 2] as int;
        let i1 = ml[2 * n - 1] as int;
        let prev = list_turns(b, ml, n - 1);
        let p = pair_turns(b, i0, i1);
        if is_castling_move(b, i0, i1) && !castling_ok(b, b.white_to_move, i1) {
        } else if promotion_of(b, b.white_to_move, i0) != 0 {
            lemma_validated_legal(b, first_promotion(b, i0, i1));
            lemma_validated_legal(b, second_promotion(b, i0, i1));
            let v1 = validated(b, first_promotion(b, i0, i1));
            let v2 = validated(b, second_promotion(b, i0, i1));
            assert forall|i: int| 0 <= i < p.len() implies #[trigger] legal(b, p[i]) by {
                if i < v1.len() {
                    assert(p[i] == v1[i]);
                } else {
                    assert(p[i] == v2[i - v1.len()]);
                }
            }
        } else {
            lemma_validated_legal(b, base_turn(b, i0, i1));
        }
        let all = list_turns(b, ml, n);
        assert forall|i: int| 0 <= i < all.len() implies #[trigger] legal(b, all[i]) by {
            if i < prev.len() {
                assert(all[i] == prev[i]);
            } else {
                assert(all[i] == p[i - prev.len()]);
            }
        }
    }
}

proof fn lemma_validated_all_legal(b: Board, ts: Seq<Turn>, n: int)
    ensures
        forall|i: int| 0 <= i < validated_all(b, ts, n).len() ==> #[trigger] legal(b, validated_all(b, ts, n)[i]),
    decreases n,
{
    if n > 0 {
        lemma_validated_all_legal(b, ts, n - 1);
        lemma_validated_legal(b, ts[n - 1]);
        let prev = validated_all(b, ts, n - 1);
        let v = validated(b, ts[n - 1]);
        let all = validated_all(b, ts, n);
        assert forall|i: int| 0 <= i < all.len() implies #[trigger] legal(b, all[i]) by {
            if i < prev.len() {
                assert(all[i] == prev[i]);
            } else {
                assert(all[i] == v[i - prev.len()]);
            }
        }
    }
}

/// Every move `generate_valid_moves_list` returns is legal: after it the
/// king of the side that moved is not attacked.
pub proof fn lemma_valid_moves_are_legal(b: Board, ml: Seq<i32>)
    ensures
        forall|i: int| 0 <= i < legal_turns(b, ml).len() ==> #[trigger] legal(b, legal_turns(b, ml)[i]),
{
    let l = list_turns(b, ml, (ml.len() / 2) as int);
    let e = validated_all(b, ep_turns(b), ep_turns(b).len() as int);
    lemma_list_turns_legal(b, ml, (ml.len() / 2) as int);
    lemma_validated_all_legal(b, ep_turns(b), ep_turns(b).len() as int);
    let all = legal_turns(b, ml);
    assert forall|i: int| 0 <= i < all.len() implies #[trigger] legal(b, all[i]) by {
        if i < l.len() {
            assert(all[i] == l[i]);
        } else {
            assert(all[i] == e[i - l.len()]);
        }
    }
}

/// The check mark of `e` is true: set when `e` gives check, and set only
/// then unless `e` is a queen promotion.
pub open spec fn mark_true(b: Board, e: Turn) -> bool {
    &&& (gives_check(b, e) ==> e.gives_check)
    &&& (e.gives_check && e.promotion != queen_value(b.white_to_move) ==> gives_check(b, e))
}

/// What a move `e` listed by `validated(b, t)` keeps of `t`.
pub open spec fn validated_from(b: Board, t: Turn, e: Turn) -> bool {
    &&& try_ok(b, e) == try_ok(b, t)
    &&& (gives_check(b, e) ==> e.gives_check)
    &&& (e.gives_check ==> gives_check(b, e) || t.gives_check)
    &&& e.promotion == t.promotion
}

proof fn lemma_validated_from(b: Board, t: Turn)
    ensures
        forall|i: int| 0 <= i < validated(b, t).len() ==> #[trigger] validated_from(b, t, validated(b, t)[i]),
{
    if legal(b, t) {
        let e = checked_turn(b, t);
        assert(after(b, e) == after(b, t));
        lemma_try_ok_ignores_mark(b, e, t);
        assert(validated(b, t)[0] == e);
    }
}

/// A move that can be tried and whose check mark is true.
pub open spec fn sound_move(b: Board, e: Turn) -> bool {
    try_ok(b, e) && mark_true(b, e)
}

proof fn lemma_pair_turns_sound(b: Board, i0: int, i1: int)
    requires
        pair_tries_ok(b, i0, i1),
    ensures
        forall|i: int| 0 <= i < pair_turns(b, i0, i1).len() ==> #[trigger] sound_move(b, pair_turns(b, i0, i1)[i]),
{
    let p = pair_turns(b, i0, i1);
    if is_castling_move(b, i0, i1) && !castling_ok(b, b.white_to_move, i1) {
    } else if promotion_of(b, b.white_to_move, i0) != 0 {
        let t1 = first_promotion(b, i0, i1);
        let t2 = second_promotion(b, i0, i1);
        lemma_validated_from(b, t1);
        lemma_validated_from(b, t2);
        let v1 = validated(b, t1);
        let v2 = validated(b, t2);
        assert forall|i: int| 0 <= i < p.len() implies #[trigger] sound_move(b, p[i]) by {
            if i < v1.len() {
                assert(p[i] == v1[i]);
                assert(validated_from(b, t1, v1[i]));
            } else {
                assert(p[i] == v2[i - v1.len()]);
                assert(validated_from(b, t2, v2[i - v1.len()]));
            }
        }
    } else {
        let t = base_turn(b, i0, i1);
        lemma_validated_from(b, t);
        assert forall|i: int| 0 <= i < p.len() implies #[trigger] sound_move(b, p[i]) by {
            assert(validated_from(b, t, p[i]));
        }
    }
}

proof fn lemma_list_turns_sound(b: Board, ml: Seq<i32>, n: int)
    requires
        list_tries_ok(b, ml),
        n <= ml.len() / 2,
    ensures
        forall|i: int| 0 <= i < list_turns(b, ml, n).len() ==> #[trigger] sound_move(b, list_turns(b, ml, n)[i]),
    decreases n,
{
    if n > 0 {
        lemma_list_turns_sound(b, ml, n - 1);
        let i0 = ml[2 * n - 2] as int;
        let i1 = ml[2 * n - 1] as int;
        assert(pair_tries_ok(b, ml[2 * (n - 1)] as int, ml[2 * (n - 1) + 1] as int));
        lemma_pair_turns_sound(b, i0, i1);
        let prev = list_turns(b, ml, n - 1);
        let p = pair_turns(b, i0, i1);
        let all = list_turns(b, ml, n);
        assert forall|i: int| 0 <= i < all.len() implies #[trigger] sound_move(b, all[i]) by {
            if i < prev.len() {
                assert(all[i] == prev[i]);
            } else {
                assert(all[i] == p[i - prev.len()]);
            }
        }
    }
}

proof fn lemma_ep_turns_sound(b: Board, n: int)
    requires
        ep_tries_ok(b),
        n <= ep_turns(b).len(),
    ensures
        forall|i: int|
            0 <= i < validated_all(b, ep_turns(b), n).len() ==> #[trigger] sound_move(
                b,
                validated_all(b, ep_turns(b), n)[i],
            ),
    decreases n,
{
    if n > 0 {
        lemma_ep_turns_sound(b, n - 1);
        let t = ep_turns(b)[n - 1];
        assert(try_ok(b, t));
        lemma_validated_from(b, t);
        let prev = validated_all(b, ep_turns(b), n - 1);
        let v = validated(b, t);
        let all = validated_all(b, ep_turns(b), n);
        assert forall|i: int| 0 <= i < all.len() implies #[trigger] sound_move(b, all[i]) by {
            if i < prev.len() {
                assert(all[i] == prev[i]);
            } else {
                assert(all[i] == v[i - prev.len()]);
                assert(validated_from(b, t, v[i - prev.len()]));
            }
        }
    }
}

/// Every move `generate_valid_moves_list` returns on a board it accepts can
/// be played and taken back: `undo_move` gives back the cells and the table
/// of reached positions (and, by its contract, the en passant cell, the
/// castling rights, the side to move and the move number). Its check mark is
/// set exactly when it gives check, except that a queen promotion keeps the
/// mark of the knight promotion listed before it.
pub proof fn lemma_valid_moves_restorable(b: Board)
    requires
        generation_ok(b),
        b.game_status == GameStatus::Normal,
    ensures
        forall|i: int|
            0 <= i < legal_turns(b, candidates(b)).len() ==> {
                let e = #[trigger] legal_turns(b, candidates(b))[i];
                let ep = b.field_for_en_passante;
                let f1 = field_after_move(b.field@, e, ep);
                let h = b.hash_after_move(e);
                &&& restorable(b, e)
                &&& mark_true(b, e)
                &&& undo_ep_in_range(f1, e, ep)
                &&& f1[e.to as int] != 0
                &&& field_after_undo(f1, e, ep, !b.white_to_move) == b.field@
                &&& repetitions_after_undo(repetitions_after_move(b.move_repetition_map@, h), h)
                    == b.move_repetition_map@
            },
{
    let ml = candidates(b);
    let l = list_turns(b, ml, (ml.len() / 2) as int);
    let ev = validated_all(b, ep_turns(b), ep_turns(b).len() as int);
    lemma_list_turns_sound(b, ml, (ml.len() / 2) as int);
    lemma_ep_turns_sound(b, ep_turns(b).len() as int);
    let all = legal_turns(b, ml);
    assert forall|i: int| 0 <= i < all.len() implies {
        let e = #[trigger] all[i];
        let ep = b.field_for_en_passante;
        let f1 = field_after_move(b.field@, e, ep);
        let h = b.hash_after_move(e);
        &&& restorable(b, e)
        &&& mark_true(b, e)
        &&& undo_ep_in_range(f1, e, ep)
        &&& f1[e.to as int] != 0
        &&& field_after_undo(f1, e, ep, !b.white_to_move) == b.field@
        &&& repetitions_after_undo(repetitions_after_move(b.move_repetition_map@, h), h)
            == b.move_repetition_map@
    } by {
        if i < l.len() {
            assert(all[i] == l[i]);
        } else {
            assert(all[i] == ev[i - l.len()]);
        }
        assert(sound_move(b, all[i]));
        lemma_undo_move_restores(b, all[i]);
    }
}


/// The `from, to` pairs of `s` whose `from` is cell `c`, in their order.
pub open spec fn share(s: Seq<i32>, c: int) -> Seq<i32>
    decreases s.len(),
{
    if s.len() < 2 {
        seq![]
    } else {
        (if s[0] == c { s.subrange(0, 2) } else { seq![] }) + share(s.skip(2), c)
    }
}

/// Every pair of `s` starts on cell `i`.
pub open spec fn starts_on(s: Seq<i32>, i: int) -> bool {
    &&& s.len() % 2 == 0
    &&& forall|k: int| 0 <= k < s.len() / 2 ==> #[trigger] s[2 * k] == i
}

proof fn lemma_share_concat(a: Seq<i32>, b: Seq<i32>, c: int)
    requires
        a.len() % 2 == 0,
    ensures
        share(a + b, c) == share(a, c) + share(b, c),
    decreases a.len(),
{
    if a.len() == 0 {
        assert(a + b =~= b);
    } else {
        lemma_share_concat(a.skip(2), b, c);
        assert((a + b).skip(2) =~= a.skip(2) + b);
        assert((a + b).subrange(0, 2) =~= a.subrange(0, 2));
        assert((a + b)[0] == a[0]);
    }
}

proof fn lemma_share_starts_on(s: Seq<i32>, i: int, c: int)
    requires
        starts_on(s, i),
    ensures
        share(s, c) == (if c == i { s } else { seq![] }),
    decreases s.len(),
{
    if s.len() >= 2 {
        let r = s.skip(2);
        assert forall|k: int| 0 <= k < r.len() / 2 implies #[trigger] r[2 * k] == i by {
            assert(r[2 * k] == s[2 * (k + 1)]);
        }
        lemma_share_starts_on(r, i, c);
        assert(s[2 * 0int] == i);
        assert(s =~= s.subrange(0, 2) + r);
    }
}

proof fn lemma_starts_on_pairs(s: Seq<i32>, p: spec_fn(int, int) -> bool, i: int)
    requires
        pairs_all(s, p),
        forall|a: int, t: int| #[trigger] p(a, t) ==> a == i,
    ensures
        starts_on(s, i),
{
    assert forall|k: int| 0 <= k < s.len() / 2 implies #[trigger] s[2 * k] == i by {
        assert(p(s[2 * k] as int, s[2 * k + 1] as int));
    }
}

proof fn lemma_starts_on_concat(a: Seq<i32>, b: Seq<i32>, i: int)
    requires
        starts_on(a, i),
        starts_on(b, i),
    ensures
        starts_on(a + b, i),
{
    assert forall|k: int| 0 <= k < (a + b).len() / 2 implies #[trigger] (a + b)[2 * k] == i by {
        if k < a.len() / 2 {
            assert((a + b)[2 * k] == a[2 * k]);
        } else {
            let j = k - a.len() / 2;
            assert((a + b)[2 * k] == b[2 * j]);
        }
    }
}

proof fn lemma_starts_on_pair(i: int, t: int)
    requires
        0 <= i < 120,
    ensures
        starts_on(pair(i, t), i),
{
    assert(pair(i, t)[2 * 0int] == i as i32);
}

proof fn lemma_king_steps_start(f: Seq<i32>, i: int, white: bool, n: int)
    requires
        0 <= i < 120,
    ensures
        starts_on(king_steps(f, i, white, n), i),
    decreases n,
{
    if n > 0 {
        lemma_king_steps_start(f, i, white, n - 1);
        let t = i + king_dirs()[n - 1];
        if reachable(f[t], white) && f[t] != OFF_BOARD && !touches(f, t, king_value(!white), 8) {
            lemma_starts_on_pair(i, t);
            lemma_starts_on_concat(king_steps(f, i, white, n - 1), pair(i, t), i);
        } else {
            assert(king_steps(f, i, white, n) =~= king_steps(f, i, white, n - 1));
        }
    }
}

proof fn lemma_castles_start(f: Seq<i32>, i: int)
    requires
        0 <= i < 120,
    ensures
        starts_on(castles(f, i), i),
{
    let e: Seq<i32> = seq![];
    let c1 = if i == 95 && f[96] == 0 && f[97] == 0 && f[98] == 11 { pair(95, 97) } else { e };
    let c2 = if i == 25 && f[26] == 0 && f[27] == 0 && f[28] == 21 { pair(25, 27) } else { e };
    let c3 = if i == 95 && f[94] == 0 && f[93] == 0 && f[92] == 0 && f[91] == 11 {
        pair(95, 93)
    } else {
        e
    };
    let c4 = if i == 25 && f[24] == 0 && f[23] == 0 && f[22] == 0 && f[21] == 21 {
        pair(25, 23)
    } else {
        e
    };
    lemma_starts_on_pair(i, 97);
    lemma_starts_on_pair(i, 27);
    lemma_starts_on_pair(i, 93);
    lemma_starts_on_pair(i, 23);
    lemma_starts_on_concat(c1, c2, i);
    lemma_starts_on_concat(c1 + c2, c3, i);
    lemma_starts_on_concat(c1 + c2 + c3, c4, i);
    assert(castles(f, i) =~= c1 + c2 + c3 + c4);
}

proof fn lemma_piece_moves_start(f: Seq<i32>, i: int, white: bool, double_check: bool)
    requires
        frame_ok(f),
        0 <= i < 120,
    ensures
        starts_on(piece_moves(f, i, white, double_check), i),
{
    let v = f[i];
    if double_check && v != king_value(white) {
    } else if v <= 0 || (10 <= v <= 15 && !white) || (20 <= v <= 25 && white) {
    } else {
        lemma_on_board_is_inner(f, i);
        if v == king_value(white) {
            lemma_king_steps_start(f, i, white, 8);
            lemma_castles_start(f, i);
            lemma_starts_on_concat(king_steps(f, i, white, 8), castles(f, i), i);
        } else if v == pawn_value(white) {
            lemma_pawn_targets(f, i, white);
            lemma_starts_on_pairs(pawn_moves(f, i, white), from_cell(f, i, white), i);
        } else if v == knight_value(white) {
            lemma_steps_targets(f, i, knight_jumps(), 8, white);
            lemma_starts_on_pairs(
                steps(f, i, knight_jumps(), 8, white),
                step_from(f, i, knight_jumps(), white),
                i,
            );
        } else if v == bishop_value(white) {
            lemma_slides_targets(f, i, bishop_dirs(), 4, white);
            lemma_starts_on_pairs(slides(f, i, bishop_dirs(), 4, white), from_cell(f, i, white), i);
        } else if v == queen_value(white) {
            lemma_slides_targets(f, i, king_dirs(), 8, white);
            lemma_starts_on_pairs(slides(f, i, king_dirs(), 8, white), from_cell(f, i, white), i);
        } else if v == rook_value(white) {
            lemma_slides_targets(f, i, rook_dirs(), 4, white);
            lemma_starts_on_pairs(slides(f, i, rook_dirs(), 4, white), from_cell(f, i, white), i);
        }
    }
}

proof fn lemma_moves_in_share(f: Seq<i32>, white: bool, double_check: bool, lo: int, hi: int, c: int)
    requires
        frame_ok(f),
        0 <= lo,
        hi <= 120,
    ensures
        share(moves_in(f, white, double_check, lo, hi), c) == (if lo <= c < hi {
            piece_moves(f, c, white, double_check)
        } else {
            seq![]
        }),
    decreases hi - lo,
{
    if hi > lo {
        lemma_moves_in_share(f, white, double_check, lo, hi - 1, c);
        lemma_moves_in_inner(f, white, double_check, lo, hi - 1);
        lemma_share_concat(
            moves_in(f, white, double_check, lo, hi - 1),
            piece_moves(f, hi - 1, white, double_check),
            c,
        );
        lemma_piece_moves_start(f, hi - 1, white, double_check);
        lemma_share_starts_on(piece_moves(f, hi - 1, white, double_check), hi - 1, c);
        if c == hi - 1 {
            assert(share(moves_in(f, white, double_check, lo, hi), c) =~= piece_moves(f, c, white, double_check));
        } else {
            assert(share(moves_in(f, white, double_check, lo, hi), c) =~= share(moves_in(f, white, double_check, lo, hi - 1), c));
        }
    }
}

/// Asking for the moves of one cell gives exactly that cell's share of the
/// moves of the whole board: the pairs of the full list that start on it,
/// in their order.
pub proof fn lemma_square_share(f: Seq<i32>, white: bool, double_check: bool, idx: int)
    requires
        frame_ok(f),
        0 < idx < 120,
    ensures
        share(moves_in(f, white, double_check, 21, 99), idx) == moves_in(
            f,
            white,
            double_check,
            idx,
            idx + 1,
        ),
{
    lemma_moves_in_share(f, white, double_check, 21, 99, idx);
    assert(moves_in(f, white, double_check, idx, idx + 1) =~= piece_moves(f, idx, white, double_check)) by {
        assert(moves_in(f, white, double_check, idx, idx) =~= Seq::<i32>::empty());
    }
    if !(21 <= idx < 99) {
        assert(!is_inner(idx));
        assert(f[idx] == OFF_BOARD);
    }
}


proof fn lemma_contains_concat<A>(a: Seq<A>, b: Seq<A>, x: A)
    ensures
        a.contains(x) ==> (a + b).contains(x),
        b.contains(x) ==> (a + b).contains(x),
{
    if a.contains(x) {
        let i = choose|i: int| 0 <= i < a.len() && a[i] == x;
        assert((a + b)[i] == x);
    }
    if b.contains(x) {
        let i = choose|i: int| 0 <= i < b.len() && b[i] == x;
        assert((a + b)[a.len() + i] == x);
    }
}

proof fn lemma_jump_attackers_found(f: Seq<i32>, t: int, offs: Seq<i32>, piece: i32, n: int, k: int)
    requires
        0 <= k < n,
        f[t + offs[k]] == piece,
    ensures
        jump_attackers(f, t, offs, piece, n).contains((t + offs[k]) as i32),
    decreases n,
{
    let prev = jump_attackers(f, t, offs, piece, n - 1);
    let tail: Seq<i32> = if f[t + offs[n - 1]] == piece { seq![(t + offs[n - 1]) as i32] } else { seq![] };
    if k == n - 1 {
        assert(tail[0] == (t + offs[k]) as i32);
        lemma_contains_concat(prev, tail, (t + offs[k]) as i32);
    } else {
        lemma_jump_attackers_found(f, t, offs, piece, n - 1, k);
        lemma_contains_concat(prev, tail, (t + offs[k]) as i32);
    }
}

proof fn lemma_line_attackers_found(f: Seq<i32>, t: int, dirs: Seq<i32>, a: i32, b: i32, n: int, k: int)
    requires
        0 <= k < n,
        f[ray_end(f, t, dirs[k] as int)] == a || f[ray_end(f, t, dirs[k] as int)] == b,
    ensures
        line_attackers(f, t, dirs, a, b, n).contains(ray_end(f, t, dirs[k] as int) as i32),
    decreases n,
{
    let e = ray_end(f, t, dirs[n - 1] as int);
    let prev = line_attackers(f, t, dirs, a, b, n - 1);
    let tail: Seq<i32> = if f[e] == a || f[e] == b { seq![e as i32] } else { seq![] };
    let x = ray_end(f, t, dirs[k] as int) as i32;
    if k == n - 1 {
        assert(tail[0] == x);
        lemma_contains_concat(prev, tail, x);
    } else {
        lemma_line_attackers_found(f, t, dirs, a, b, n - 1, k);
        lemma_contains_concat(prev, tail, x);
    }
}

/// The cells from `p` up to the `k`-th cell in direction `o` are empty,
/// that cell excluded.
pub open spec fn ray_clear(f: Seq<i32>, p: int, o: int, k: int) -> bool
    decreases k,
{
    k <= 1 || (f[p + o] == 0 && ray_clear(f, p + o, o, k - 1))
}

proof fn lemma_ray_end_at(f: Seq<i32>, p: int, o: int, k: int)
    requires
        frame_ok(f),
        21 <= p <= 98,
        o == -11 || o == -10 || o == -9 || o == -1 || o == 1 || o == 9 || o == 10 || o == 11,
        k >= 1,
        ray_clear(f, p, o, k),
        0 <= p + k * o < 120,
        f[p + k * o] != 0,
    ensures
        ray_end(f, p, o) == p + k * o,
    decreases k,
{
    if k == 1 {
        assert(k * o == o) by (nonlinear_arith)
            requires
                k == 1,
        ;
    } else {
        assert(f[p + o] == 0);
        lemma_on_board_is_inner(f, p + o);
        assert((p + o) + (k - 1) * o == p + k * o) by (nonlinear_arith);
        lemma_ray_end_at(f, p + o, o, k - 1);
        assert(ray_end(f, p, o) == ray_end(f, p + o, o));
    }
}

/// Every enemy piece that attacks a cell is found: a pawn on a cell from
/// which it captures onto it, a knight a knight's jump away, and a bishop,
/// rook or queen whose line to it is clear.
pub proof fn lemma_attackers_complete(f: Seq<i32>, white: bool, target: int)
    requires
        frame_ok(f),
        attack_target_ok(f, white, target),
    ensures
        ({
            let t = attacked_cell(f, white, target);
            let r = attackers(f, white, target);
            &&& forall|o: int|
                (if white { o == -9 || o == -11 } else { o == 9 || o == 11 })
                    && f[t + o] == (if white { 20i32 } else { 10i32 })
                    ==> #[trigger] r.contains((t + o) as i32)
            &&& forall|o: int|
                (o == -21 || o == -19 || o == -12 || o == -8 || o == 8 || o == 12 || o == 19 || o == 21)
                    && f[t + o] == (if white { 22i32 } else { 12i32 })
                    ==> #[trigger] r.contains((t + o) as i32)
            &&& forall|o: int, k: int|
                (o == -11 || o == -9 || o == 9 || o == 11) && k >= 1 && ray_clear(f, t, o, k)
                    && 0 <= t + k * o < 120 && (f[t + k * o] == (if white { 23i32 } else { 13i32 })
                    || f[t + k * o] == (if white { 24i32 } else { 14i32 }))
                    ==> #[trigger] r.contains((t + k * o) as i32)
            &&& forall|o: int, k: int|
                (o == -10 || o == -1 || o == 1 || o == 10) && k >= 1 && ray_clear(f, t, o, k)
                    && 0 <= t + k * o < 120 && (f[t + k * o] == (if white { 21i32 } else { 11i32 })
                    || f[t + k * o] == (if white { 24i32 } else { 14i32 }))
                    ==> #[trigger] r.contains((t + k * o) as i32)
        }),
{
    let t = attacked_cell(f, white, target);
    let r = attackers(f, white, target);
    if target == 0 {
        lemma_last_cell_range(f, king_value(white), 99);
    }
    assert(21 <= t <= 98);
    let pawn = pawn_value(!white);
    let pa: Seq<i32> = if white {
        (if f[t - 9] == pawn { seq![(t - 9) as i32] } else { seq![] }) + (if f[t - 11] == pawn {
            seq![(t - 11) as i32]
        } else {
            seq![]
        })
    } else {
        (if f[t + 9] == pawn { seq![(t + 9) as i32] } else { seq![] }) + (if f[t + 11] == pawn {
            seq![(t + 11) as i32]
        } else {
            seq![]
        })
    };
    let ja = jump_attackers(f, t, knight_attack_offsets(), knight_value(!white), 8);
    let lb = line_attackers(f, t, bishop_dirs(), bishop_value(!white), queen_value(!white), 4);
    let lr = line_attackers(f, t, line_attack_dirs(), rook_value(!white), queen_value(!white), 4);
    assert(r == pa + ja + lb + lr);
    assert forall|o: int|
        (if white { o == -9 || o == -11 } else { o == 9 || o == 11 })
            && f[t + o] == (if white { 20i32 } else { 10i32 }) implies #[trigger] r.contains((t + o) as i32) by {
        let x = (t + o) as i32;
        let a1: Seq<i32> = if f[t + (if white { -9int } else { 9 })] == pawn {
            seq![(t + (if white { -9int } else { 9 })) as i32]
        } else {
            seq![]
        };
        let a2: Seq<i32> = if f[t + (if white { -11int } else { 11 })] == pawn {
            seq![(t + (if white { -11int } else { 11 })) as i32]
        } else {
            seq![]
        };
        assert(pa =~= a1 + a2);
        if o == -9 || o == 9 {
            assert(a1[0] == x);
        } else {
            assert(a2[0] == x);
        }
        lemma_contains_concat(a1, a2, x);
        lemma_contains_concat(pa, ja, x);
        lemma_contains_concat(pa + ja, lb, x);
        lemma_contains_concat(pa + ja + lb, lr, x);
    }
    assert forall|o: int|
        (o == -21 || o == -19 || o == -12 || o == -8 || o == 8 || o == 12 || o == 19 || o == 21)
            && f[t + o] == (if white { 22i32 } else { 12i32 }) implies #[trigger] r.contains((t + o) as i32) by {
        let x = (t + o) as i32;
        let offs = knight_attack_offsets();
        let k: int = if o == -12 { 0 } else if o == -21 { 1 } else if o == -8 { 2 } else if o == -19 {
            3
        } else if o == 12 { 4 } else if o == 21 { 5 } else if o == 8 { 6 } else { 7 };
        assert(offs[k] == o);
        lemma_jump_attackers_found(f, t, offs, knight_value(!white), 8, k);
        lemma_contains_concat(pa, ja, x);
        lemma_contains_concat(pa + ja, lb, x);
        lemma_contains_concat(pa + ja + lb, lr, x);
    }
    assert forall|o: int, k: int|
        (o == -11 || o == -9 || o == 9 || o == 11) && k >= 1 && ray_clear(f, t, o, k)
            && 0 <= t + k * o < 120 && (f[t + k * o] == (if white { 23i32 } else { 13i32 })
            || f[t + k * o] == (if white { 24i32 } else { 14i32 })) implies #[trigger] r.contains(
        (t + k * o) as i32,
    ) by {
        let x = (t + k * o) as i32;
        let dirs = bishop_dirs();
        let j: int = if o == -11 { 0 } else if o == -9 { 1 } else if o == 9 { 2 } else { 3 };
        assert(dirs[j] == o);
        lemma_ray_end_at(f, t, o, k);
        lemma_line_attackers_found(f, t, dirs, bishop_value(!white), queen_value(!white), 4, j);
        lemma_contains_concat(pa + ja, lb, x);
        lemma_contains_concat(pa + ja + lb, lr, x);
    }
    assert forall|o: int, k: int|
        (o == -10 || o == -1 || o == 1 || o == 10) && k >= 1 && ray_clear(f, t, o, k)
            && 0 <= t + k * o < 120 && (f[t + k * o] == (if white { 21i32 } else { 11i32 })
            || f[t + k * o] == (if white { 24i32 } else { 14i32 })) implies #[trigger] r.contains(
        (t + k * o) as i32,
    ) by {
        let x = (t + k * o) as i32;
        let dirs = line_attack_dirs();
        let j: int = if o == -10 { 0 } else if o == -1 { 1 } else if o == 1 { 2 } else { 3 };
        assert(dirs[j] == o);
        lemma_ray_end_at(f, t, o, k);
        lemma_line_attackers_found(f, t, dirs, rook_value(!white), queen_value(!white), 4, j);
        lemma_contains_concat(pa + ja + lb, lr, x);
    }
}


/// A castling pair of a king on its start cell is offered only with the
/// cells between king and rook empty and the rook in its corner.
pub open spec fn castle_guard(f: Seq<i32>) -> spec_fn(int, int) -> bool {
    |a: int, t: int|
        {
            &&& (a == 25 && f[25] == 25 && t == 23 ==> f[24] == 0 && f[23] == 0 && f[22] == 0 && f[21]
                == 21)
            &&& (a == 25 && f[25] == 25 && t == 27 ==> f[26] == 0 && f[27] == 0 && f[28] == 21)
            &&& (a == 95 && f[95] == 15 && t == 93 ==> f[94] == 0 && f[93] == 0 && f[92] == 0 && f[91]
                == 11)
            &&& (a == 95 && f[95] == 15 && t == 97 ==> f[96] == 0 && f[97] == 0 && f[98] == 11)
        }
}

proof fn lemma_pairs_all_weaken(s: Seq<i32>, p: spec_fn(int, int) -> bool, q: spec_fn(int, int) -> bool)
    requires
        pairs_all(s, p),
        forall|a: int, t: int| #[trigger] p(a, t) ==> q(a, t),
    ensures
        pairs_all(s, q),
{
    assert forall|k: int| 0 <= k < s.len() / 2 implies #[trigger] q(s[2 * k] as int, s[2 * k + 1] as int) by {
        assert(p(s[2 * k] as int, s[2 * k + 1] as int));
    }
}

/// King steps go one cell, never two along the rank.
pub open spec fn king_step_from(i: int) -> spec_fn(int, int) -> bool {
    |a: int, t: int| a == i && t != i - 2 && t != i + 2
}

proof fn lemma_king_steps_short(f: Seq<i32>, i: int, white: bool, n: int)
    requires
        0 <= i < 120,
        n <= 8,
    ensures
        pairs_all(king_steps(f, i, white, n), king_step_from(i)),
    decreases n,
{
    if n > 0 {
        lemma_king_steps_short(f, i, white, n - 1);
        let t = i + king_dirs()[n - 1];
        if reachable(f[t], white) && f[t] != OFF_BOARD && !touches(f, t, king_value(!white), 8) {
            assert(king_step_from(i)(i as i32 as int, t as i32 as int));
            lemma_pairs_all_pair(i, t, king_step_from(i));
            lemma_pairs_all_concat(king_steps(f, i, white, n - 1), pair(i, t), king_step_from(i));
        } else {
            assert(king_steps(f, i, white, n) =~= king_steps(f, i, white, n - 1));
        }
    } else {
        lemma_pairs_all_empty(king_step_from(i));
    }
}

proof fn lemma_piece_moves_castle_guard(f: Seq<i32>, i: int, white: bool, double_check: bool)
    requires
        frame_ok(f),
        0 <= i < 120,
    ensures
        pairs_all(piece_moves(f, i, white, double_check), castle_guard(f)),
{
    let q = castle_guard(f);
    let s = piece_moves(f, i, white, double_check);
    lemma_pairs_all_empty(q);
    if (i == 25 && f[25] == 25 && !white) || (i == 95 && f[95] == 15 && white) {
        let e: Seq<i32> = seq![];
        let c1 = if i == 95 && f[96] == 0 && f[97] == 0 && f[98] == 11 { pair(95, 97) } else { e };
        let c2 = if i == 25 && f[26] == 0 && f[27] == 0 && f[28] == 21 { pair(25, 27) } else { e };
        let c3 = if i == 95 && f[94] == 0 && f[93] == 0 && f[92] == 0 && f[91] == 11 {
            pair(95, 93)
        } else {
            e
        };
        let c4 = if i == 25 && f[24] == 0 && f[23] == 0 && f[22] == 0 && f[21] == 21 {
            pair(25, 23)
        } else {
            e
        };
        assert(castles(f, i) =~= c1 + c2 + c3 + c4);
        if i == 95 && f[96] == 0 && f[97] == 0 && f[98] == 11 {
            lemma_pairs_all_pair(95, 97, q);
        }
        if i == 25 && f[26] == 0 && f[27] == 0 && f[28] == 21 {
            lemma_pairs_all_pair(25, 27, q);
        }
        if i == 95 && f[94] == 0 && f[93] == 0 && f[92] == 0 && f[91] == 11 {
            lemma_pairs_all_pair(95, 93, q);
        }
        if i == 25 && f[24] == 0 && f[23] == 0 && f[22] == 0 && f[21] == 21 {
            lemma_pairs_all_pair(25, 23, q);
        }
        lemma_pairs_all_concat(c1, c2, q);
        lemma_pairs_all_concat(c1 + c2, c3, q);
        lemma_pairs_all_concat(c1 + c2 + c3, c4, q);
        lemma_king_steps_short(f, i, white, 8);
        lemma_pairs_all_weaken(king_steps(f, i, white, 8), king_step_from(i), q);
        lemma_pairs_all_concat(king_steps(f, i, white, 8), castles(f, i), q);
        assert(s == king_steps(f, i, white, 8) + castles(f, i));
    } else if (i == 25 && f[25] == 25) || (i == 95 && f[95] == 15) {
        assert(s =~= Seq::<i32>::empty());
    } else {
        lemma_piece_moves_start(f, i, white, double_check);
        assert forall|k: int| 0 <= k < s.len() / 2 implies #[trigger] q(s[2 * k] as int, s[2 * k + 1] as int) by {
            assert(s[2 * k] == i);
        }
    }
}

proof fn lemma_moves_in_castle_guard(f: Seq<i32>, white: bool, double_check: bool, lo: int, hi: int)
    requires
        frame_ok(f),
        0 <= lo,
        hi <= 120,
    ensures
        pairs_all(moves_in(f, white, double_check, lo, hi), castle_guard(f)),
    decreases hi - lo,
{
    if hi > lo {
        lemma_moves_in_castle_guard(f, white, double_check, lo, hi - 1);
        lemma_piece_moves_castle_guard(f, hi - 1, white, double_check);
        lemma_pairs_all_concat(
            moves_in(f, white, double_check, lo, hi - 1),
            piece_moves(f, hi - 1, white, double_check),
            castle_guard(f),
        );
    } else {
        lemma_pairs_all_empty(castle_guard(f));
    }
}

/// Castling is offered only through empty cells: in the moves generated for
/// any cells, a king on its start cell (e1 for White, e8 for Black) moving
/// two cells to a side needs every cell between it and that side's corner
/// empty and the rook in the corner.
pub proof fn lemma_castling_needs_clear_path(f: Seq<i32>, white: bool, double_check: bool, lo: int, hi: int)
    requires
        frame_ok(f),
        0 <= lo,
        hi <= 120,
    ensures
        ({
            let s = moves_in(f, white, double_check, lo, hi);
            forall|k: int|
                0 <= k < s.len() / 2 ==> {
                    let a = #[trigger] s[2 * k];
                    let t = s[2 * k + 1];
                    &&& (a == 25 && f[25] == 25 && t == 23 ==> f[24] == 0 && f[23] == 0 && f[22] == 0
                        && f[21] == 21)
                    &&& (a == 25 && f[25] == 25 && t == 27 ==> f[26] == 0 && f[27] == 0 && f[28] == 21)
                    &&& (a == 95 && f[95] == 15 && t == 93 ==> f[94] == 0 && f[93] == 0 && f[92] == 0
                        && f[91] == 11)
                    &&& (a == 95 && f[95] == 15 && t == 97 ==> f[96] == 0 && f[97] == 0 && f[98] == 11)
                }
        }),
{
    let s = moves_in(f, white, double_check, lo, hi);
    lemma_moves_in_castle_guard(f, white, double_check, lo, hi);
    assert forall|k: int| 0 <= k < s.len() / 2 implies {
        let a = #[trigger] s[2 * k];
        let t = s[2 * k + 1];
        &&& (a == 25 && f[25] == 25 && t == 23 ==> f[24] == 0 && f[23] == 0 && f[22] == 0 && f[21] == 21)
        &&& (a == 25 && f[25] == 25 && t == 27 ==> f[26] == 0 && f[27] == 0 && f[28] == 21)
        &&& (a == 95 && f[95] == 15 && t == 93 ==> f[94] == 0 && f[93] == 0 && f[92] == 0 && f[91] == 11)
        &&& (a == 95 && f[95] == 15 && t == 97 ==> f[96] == 0 && f[97] == 0 && f[98] == 11)
    } by {
        assert(castle_guard(f)(s[2 * k] as int, s[2 * k + 1] as int));
    }
}

/// A side that has no legal move is checkmated when its king is attacked,
/// and the other side wins; otherwise the game is drawn. The side to move
/// never wins this way.
pub proof fn lemma_no_moves_status(b: Board)
    ensures
        attackers(b.field@, b.white_to_move, 0).len() > 0 && b.white_to_move ==> status_without_moves(b)
            == GameStatus::BlackWin,
        attackers(b.field@, b.white_to_move, 0).len() > 0 && !b.white_to_move ==> status_without_moves(b)
            == GameStatus::WhiteWin,
        attackers(b.field@, b.white_to_move, 0).len() == 0 ==> status_without_moves(b) == GameStatus::Draw,
{
}


/// The enemy piece of `white` on cell `x` attacks cell `t`: a pawn from a
/// cell it captures from, a knight a knight's jump away, a bishop or queen
/// along a clear diagonal, a rook or queen along a clear line.
pub open spec fn attacks_cell(f: Seq<i32>, white: bool, t: int, x: int) -> bool {
    let v = f[x];
    ||| v == (if white { 20i32 } else { 10i32 }) && (if white { x == t - 9 || x == t - 11 } else { x == t + 9
        || x == t + 11 })
    ||| v == (if white { 22i32 } else { 12i32 }) && (x - t == -21 || x - t == -19 || x - t == -12 || x - t
        == -8 || x - t == 8 || x - t == 12 || x - t == 19 || x - t == 21)
    ||| (v == (if white { 23i32 } else { 13i32 }) || v == (if white { 24i32 } else { 14i32 })) && exists|
        o: int,
        k: int,
    | (o == -11 || o == -9 || o == 9 || o == 11) && k >= 1 && ray_clear(f, t, o, k) && x == t + k * o
    ||| (v == (if white { 21i32 } else { 11i32 }) || v == (if white { 24i32 } else { 14i32 })) && exists|
        o: int,
        k: int,
    | (o == -10 || o == -1 || o == 1 || o == 10) && k >= 1 && ray_clear(f, t, o, k) && x == t + k * o
}

proof fn lemma_ray_end_steps(f: Seq<i32>, p: int, o: int) -> (k: int)
    requires
        frame_ok(f),
        21 <= p <= 98,
        o == -11 || o == -10 || o == -9 || o == -1 || o == 1 || o == 9 || o == 10 || o == 11,
    ensures
        k >= 1,
        ray_clear(f, p, o, k),
        ray_end(f, p, o) == p + k * o,
        0 <= p + k * o < 120,
        f[p + k * o] != 0,
    decreases (if o > 0 { 120 - p } else { p }),
{
    if f[p + o] != 0 {
        assert(1 * o == o);
        1
    } else {
        lemma_on_board_is_inner(f, p + o);
        let k1 = lemma_ray_end_steps(f, p + o, o);
        assert((p + o) + k1 * o == p + (k1 + 1) * o) by (nonlinear_arith);
        assert(ray_end(f, p, o) == ray_end(f, p + o, o));
        k1 + 1
    }
}

proof fn lemma_jump_attackers_sound(f: Seq<i32>, t: int, offs: Seq<i32>, piece: i32, n: int)
    ensures
        forall|j: int|
            0 <= j < jump_attackers(f, t, offs, piece, n).len() ==> exists|k: int|
                0 <= k < n && #[trigger] jump_attackers(f, t, offs, piece, n)[j] == (t + offs[k]) as i32
                    && f[t + offs[k]] == piece,
    decreases n,
{
    if n > 0 {
        lemma_jump_attackers_sound(f, t, offs, piece, n - 1);
        let prev = jump_attackers(f, t, offs, piece, n - 1);
        let s = jump_attackers(f, t, offs, piece, n);
        assert forall|j: int| 0 <= j < s.len() implies exists|k: int|
            0 <= k < n && #[trigger] s[j] == (t + offs[k]) as i32 && f[t + offs[k]] == piece by {
            if j < prev.len() {
                assert(s[j] == prev[j]);
                let k = choose|k: int| 0 <= k < n - 1 && prev[j] == (t + offs[k]) as i32 && f[t + offs[k]] == piece;
                assert(0 <= k < n && s[j] == (t + offs[k]) as i32 && f[t + offs[k]] == piece);
            } else {
                assert(s[j] == (t + offs[n - 1]) as i32);
            }
        }
    }
}

proof fn lemma_line_attackers_sound(f: Seq<i32>, t: int, dirs: Seq<i32>, a: i32, b: i32, n: int)
    ensures
        forall|j: int|
            0 <= j < line_attackers(f, t, dirs, a, b, n).len() ==> exists|k: int|
                0 <= k < n && #[trigger] line_attackers(f, t, dirs, a, b, n)[j] == ray_end(
                    f,
                    t,
                    dirs[k] as int,
                ) as i32 && (f[ray_end(f, t, dirs[k] as int)] == a || f[ray_end(f, t, dirs[k] as int)]
                    == b),
    decreases n,
{
    if n > 0 {
        lemma_line_attackers_sound(f, t, dirs, a, b, n - 1);
        let prev = line_attackers(f, t, dirs, a, b, n - 1);
        let s = line_attackers(f, t, dirs, a, b, n);
        assert forall|j: int| 0 <= j < s.len() implies exists|k: int|
            0 <= k < n && #[trigger] s[j] == ray_end(f, t, dirs[k] as int) as i32 && (f[ray_end(
                f,
                t,
                dirs[k] as int,
            )] == a || f[ray_end(f, t, dirs[k] as int)] == b) by {
            if j < prev.len() {
                assert(s[j] == prev[j]);
                let k = choose|k: int|
                    0 <= k < n - 1 && prev[j] == ray_end(f, t, dirs[k] as int) as i32 && (f[ray_end(
                        f,
                        t,
                        dirs[k] as int,
                    )] == a || f[ray_end(f, t, dirs[k] as int)] == b);
                assert(0 <= k < n);
            } else {
                assert(s[j] == ray_end(f, t, dirs[n - 1] as int) as i32);
            }
        }
    }
}

/// Every cell listed as an attacker holds an enemy piece that attacks the
/// attacked cell: nothing else is reported.
pub proof fn lemma_attackers_sound(f: Seq<i32>, white: bool, target: int)
    requires
        frame_ok(f),
        attack_target_ok(f, white, target),
    ensures
        forall|j: int|
            0 <= j < attackers(f, white, target).len() ==> {
                let x = #[trigger] attackers(f, white, target)[j] as int;
                &&& 0 <= x < 120
                &&& attacks_cell(f, white, attacked_cell(f, white, target), x)
            },
{
    let t = attacked_cell(f, white, target);
    if target == 0 {
        lemma_last_cell_range(f, king_value(white), 99);
    }
    assert(21 <= t <= 98);
    let r = attackers(f, white, target);
    let pawn = pawn_value(!white);
    let pa: Seq<i32> = if white {
        (if f[t - 9] == pawn { seq![(t - 9) as i32] } else { seq![] }) + (if f[t - 11] == pawn {
            seq![(t - 11) as i32]
        } else {
            seq![]
        })
    } else {
        (if f[t + 9] == pawn { seq![(t + 9) as i32] } else { seq![] }) + (if f[t + 11] == pawn {
            seq![(t + 11) as i32]
        } else {
            seq![]
        })
    };
    let offs = knight_attack_offsets();
    let ja = jump_attackers(f, t, offs, knight_value(!white), 8);
    let lb = line_attackers(f, t, bishop_dirs(), bishop_value(!white), queen_value(!white), 4);
    let lr = line_attackers(f, t, line_attack_dirs(), rook_value(!white), queen_value(!white), 4);
    assert(r == pa + ja + lb + lr);
    lemma_jump_attackers_sound(f, t, offs, knight_value(!white), 8);
    lemma_line_attackers_sound(f, t, bishop_dirs(), bishop_value(!white), queen_value(!white), 4);
    lemma_line_attackers_sound(f, t, line_attack_dirs(), rook_value(!white), queen_value(!white), 4);
    assert forall|j: int| 0 <= j < r.len() implies {
        let x = #[trigger] r[j] as int;
        &&& 0 <= x < 120
        &&& attacks_cell(f, white, t, x)
    } by {
        let x = r[j] as int;
        if j < pa.len() {
            assert(r[j] == pa[j]);
            if white {
                let a1: Seq<i32> = if f[t - 9] == pawn { seq![(t - 9) as i32] } else { seq![] };
                assert(pa[j] == (if j < a1.len() { a1[j] } else { (t - 11) as i32 }));
            } else {
                let a1: Seq<i32> = if f[t + 9] == pawn { seq![(t + 9) as i32] } else { seq![] };
                assert(pa[j] == (if j < a1.len() { a1[j] } else { (t + 11) as i32 }));
            }
        } else if j < pa.len() + ja.len() {
            let jj = j - pa.len();
            assert(r[j] == ja[jj]);
            let k = choose|k: int| 0 <= k < 8 && ja[jj] == (t + offs[k]) as i32 && f[t + offs[k]] == knight_value(!white);
            assert(-21 <= offs[k] <= 21);
        } else if j < pa.len() + ja.len() + lb.len() {
            let jj = j - pa.len() - ja.len();
            assert(r[j] == lb[jj]);
            let dirs = bishop_dirs();
            let k = choose|k: int|
                0 <= k < 4 && lb[jj] == ray_end(f, t, dirs[k] as int) as i32 && (f[ray_end(f, t, dirs[k] as int)]
                    == bishop_value(!white) || f[ray_end(f, t, dirs[k] as int)] == queen_value(!white));
            let o = dirs[k] as int;
            let m = lemma_ray_end_steps(f, t, o);
            assert(x == t + m * o);
            assert((o == -11 || o == -9 || o == 9 || o == 11) && m >= 1 && ray_clear(f, t, o, m) && x == t + m * o);
        } else {
            let jj = j - pa.len() - ja.len() - lb.len();
            assert(r[j] == lr[jj]);
            let dirs = line_attack_dirs();
            let k = choose|k: int|
                0 <= k < 4 && lr[jj] == ray_end(f, t, dirs[k] as int) as i32 && (f[ray_end(f, t, dirs[k] as int)]
                    == rook_value(!white) || f[ray_end(f, t, dirs[k] as int)] == queen_value(!white));
            let o = dirs[k] as int;
            let m = lemma_ray_end_steps(f, t, o);
            assert(x == t + m * o);
            assert((o == -10 || o == -1 || o == 1 || o == 10) && m >= 1 && ray_clear(f, t, o, m) && x == t + m * o);
        }
    }
}


proof fn lemma_share_pair_in(s: Seq<i32>, c: int, j: int)
    requires
        s.len() % 2 == 0,
        0 <= j,
        2 * j + 1 < share(s, c).len(),
    ensures
        exists|k: int|
            0 <= k && 2 * k + 1 < s.len() && #[trigger] s[2 * k] == share(s, c)[2 * j] && s[2 * k + 1]
                == share(s, c)[2 * j + 1],
    decreases s.len(),
{
    let r = s.skip(2);
    let h: Seq<i32> = if s[0] == c { s.subrange(0, 2) } else { seq![] };
    assert(share(s, c) == h + share(r, c));
    if h.len() == 2 && j == 0 {
        assert(s[2 * 0int] == share(s, c)[2 * j] && s[2 * 0int + 1] == share(s, c)[2 * j + 1]);
    } else {
        let j1 = j - h.len() / 2;
        assert(share(s, c)[2 * j] == share(r, c)[2 * j1]);
        assert(share(s, c)[2 * j + 1] == share(r, c)[2 * j1 + 1]);
        lemma_share_pair_in(r, c, j1);
        let k1 = choose|k: int|
            0 <= k && 2 * k + 1 < r.len() && #[trigger] r[2 * k] == share(r, c)[2 * j1] && r[2 * k + 1]
                == share(r, c)[2 * j1 + 1];
        assert(s[2 * (k1 + 1)] == r[2 * k1]);
        assert(s[2 * (k1 + 1) + 1] == r[2 * k1 + 1]);
    }
}

proof fn lemma_castle_listed(f: Seq<i32>, white: bool, double_check: bool, c: int, j: int)
    requires
        frame_ok(f),
        21 <= c < 99,
        0 <= j,
        2 * j + 1 < piece_moves(f, c, white, double_check).len(),
    ensures
        ({
            let s = moves_in(f, white, double_check, 21, 99);
            exists|k: int|
                0 <= k && 2 * k + 1 < s.len() && #[trigger] s[2 * k] == piece_moves(f, c, white, double_check)[2
                    * j] && s[2 * k + 1] == piece_moves(f, c, white, double_check)[2 * j + 1]
        }),
{
    let s = moves_in(f, white, double_check, 21, 99);
    lemma_square_share(f, white, double_check, c);
    assert(moves_in(f, white, double_check, c, c + 1) =~= piece_moves(f, c, white, double_check)) by {
        assert(moves_in(f, white, double_check, c, c) =~= Seq::<i32>::empty());
    }
    lemma_moves_in_inner(f, white, double_check, 21, 99);
    lemma_share_pair_in(s, c, j);
}

/// Castling candidates are offered whenever the cells allow them: with the
/// king on its start cell, the cells between it and a corner empty and the
/// rook in that corner, the full move list of its side holds the king's
/// two-cell move towards that corner (castling rights and attacked cells
/// are looked at later, when the moves are validated).
pub proof fn lemma_castling_offered(f: Seq<i32>, white: bool, double_check: bool)
    requires
        frame_ok(f),
    ensures
        ({
            let s = moves_in(f, white, double_check, 21, 99);
            &&& white && f[95] == 15 && f[96] == 0 && f[97] == 0 && f[98] == 11 ==> exists|k: int|
                0 <= k && 2 * k + 1 < s.len() && #[trigger] s[2 * k] == 95 && s[2 * k + 1] == 97
            &&& white && f[95] == 15 && f[94] == 0 && f[93] == 0 && f[92] == 0 && f[91] == 11 ==> exists|
                k: int,
            | 0 <= k && 2 * k + 1 < s.len() && #[trigger] s[2 * k] == 95 && s[2 * k + 1] == 93
            &&& !white && f[25] == 25 && f[26] == 0 && f[27] == 0 && f[28] == 21 ==> exists|k: int|
                0 <= k && 2 * k + 1 < s.len() && #[trigger] s[2 * k] == 25 && s[2 * k + 1] == 27
            &&& !white && f[25] == 25 && f[24] == 0 && f[23] == 0 && f[22] == 0 && f[21] == 21 ==> exists|
                k: int,
            | 0 <= k && 2 * k + 1 < s.len() && #[trigger] s[2 * k] == 25 && s[2 * k + 1] == 23
        }),
{
    let i: int = if white { 95 } else { 25 };
    if f[i] == king_value(white) {
        let pm = piece_moves(f, i, white, double_check);
        let ks = king_steps(f, i, white, 8);
        lemma_king_steps_inner(f, i, white, 8);
        let e: Seq<i32> = seq![];
        let c1 = if i == 95 && f[96] == 0 && f[97] == 0 && f[98] == 11 { pair(95, 97) } else { e };
        let c2 = if i == 25 && f[26] == 0 && f[27] == 0 && f[28] == 21 { pair(25, 27) } else { e };
        let c3 = if i == 95 && f[94] == 0 && f[93] == 0 && f[92] == 0 && f[91] == 11 {
            pair(95, 93)
        } else {
            e
        };
        let c4 = if i == 25 && f[24] == 0 && f[23] == 0 && f[22] == 0 && f[21] == 21 {
            pair(25, 23)
        } else {
            e
        };
        assert(castles(f, i) =~= c1 + c2 + c3 + c4);
        assert(pm == ks + castles(f, i));
        let n: int = (ks.len() / 2) as int;
        if white {
            assert(c2.len() == 0 && c4.len() == 0);
            if f[96] == 0 && f[97] == 0 && f[98] == 11 {
                assert(pm[2 * n] == 95 && pm[2 * n + 1] == 97);
                lemma_castle_listed(f, white, double_check, 95, n);
            }
            if f[94] == 0 && f[93] == 0 && f[92] == 0 && f[91] == 11 {
                let m: int = n + (c1.len() / 2) as int;
                assert(pm[2 * m] == 95 && pm[2 * m + 1] == 93);
                lemma_castle_listed(f, white, double_check, 95, m);
            }
        } else {
            assert(c1.len() == 0 && c3.len() == 0);
            if f[26] == 0 && f[27] == 0 && f[28] == 21 {
                assert(pm[2 * n] == 25 && pm[2 * n + 1] == 27);
                lemma_castle_listed(f, white, double_check, 25, n);
            }
            if f[24] == 0 && f[23] == 0 && f[22] == 0 && f[21] == 21 {
                let m: int = n + (c2.len() / 2) as int;
                assert(pm[2 * m] == 25 && pm[2 * m + 1] == 23);
                lemma_castle_listed(f, white, double_check, 25, m);
            }
        }
    }
}

} // verus!
