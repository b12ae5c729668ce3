//! The match as the engines see it: what the manager does on each line an
//! engine writes and on each turn of its main loop.
use vstd::prelude::*;
use vstd::string::{StrSliceExecFns, StringExecFns};
use crate::clock::{check_flags, status_after_clocks, TimeControl};
use crate::model::{move_done, Board, GameStatus, UciGame};
use crate::move_gen_service::{candidates, legal_turns, status_without_moves, MoveGenService, generation_ok};
use crate::notation_util::{is_move_notation, notation_turn, NotationUtil};
use crate::pgn::{join_words, pgn_move, promotion_readable, words, Pgn, PgnView};
use crate::service::{
    append_move, check_game_over, long_algebraic_move, long_algebraic_text, move_text_after,
    result_text, status_after_limit,
};
use crate::text::{
    chars_of, decimal, decimal_text, is_chars, push_char, starts_with_chars, string_between,
    string_from,
};

verus! {

/// What the manager does next: write a line to an engine, switch the
/// clocks, write a line to its log, or finish the game (record and stop).
#[derive(Debug, PartialEq, Eq)]
pub enum Action {
    Send { engine: u8, text: String },
    Clock(TimeControl),
    Log(String),
    GameOver,
}

/// Abstract value of an `Action`.
pub ghost enum ActionView {
    Send { engine: u8, text: Seq<char> },
    Clock(TimeControl),
    Log(Seq<char>),
    GameOver,
}

impl View for Action {
    type V = ActionView;

    open spec fn view(&self) -> ActionView {
        match self {
            Action::Send { engine, text } => ActionView::Send { engine: *engine, text: text@ },
            Action::Clock(c) => ActionView::Clock(*c),
            Action::Log(t) => ActionView::Log(t@),
            Action::GameOver => ActionView::GameOver,
        }
    }
}

/// Lines the manager cannot act on; where they come, the match cannot go on.
#[derive(Debug, PartialEq, Eq, Structural, Clone, Copy)]
pub enum UciError {
    /// An `id name` or `bestmove` line too short or not ASCII where it is cut.
    UnreadableLine,
    /// A `bestmove` that is no move in coordinate notation.
    InvalidMove,
    /// A move that cannot be played on the board.
    IllegalMove,
    /// A position whose moves cannot be listed.
    CannotList,
    /// A move text that cannot be written as PGN.
    UnreadableMoveText,
    /// More `readyok` lines than can be counted.
    TooManyReady,
}

/// The state of a match: the game, its record, the number of `readyok`
/// lines seen (2 starts the game, which then counts 3), the move text in
/// long algebraic form, and whether the engines run in debug mode.
pub struct MatchState {
    pub game: UciGame,
    pub pgn: Pgn,
    pub ready: u32,
    pub moves_text: String,
    pub debug: bool,
}

pub open spec fn acts_view(acts: Seq<Action>) -> Seq<ActionView> {
    acts.map_values(|a: Action| a@)
}

pub open spec fn send(engine: u8, text: Seq<char>) -> ActionView {
    ActionView::Send { engine, text }
}

pub open spec fn uciok_line() -> Seq<char> {
    seq!['u', 'c', 'i', 'o', 'k']
}

pub open spec fn readyok_line() -> Seq<char> {
    seq!['r', 'e', 'a', 'd', 'y', 'o', 'k']
}

pub open spec fn id_name_prefix() -> Seq<char> {
    seq!['i', 'd', ' ', 'n', 'a', 'm', 'e']
}

pub open spec fn bestmove_prefix() -> Seq<char> {
    seq!['b', 'e', 's', 't', 'm', 'o', 'v', 'e']
}

pub open spec fn starts_with(l: Seq<char>, p: Seq<char>) -> bool {
    p.len() <= l.len() && l.take(p.len() as int) == p
}

pub open spec fn is_ascii_char(c: char) -> bool {
    c <= '\u{7F}'
}

/// An `id name` line can be cut after its eighth character.
pub open spec fn name_readable(l: Seq<char>) -> bool {
    l.len() >= 8 && is_ascii_char(l[7])
}

/// A `bestmove` line can be cut at its characters 9..13, or 9..14 when it is
/// longer: those characters are ASCII.
pub open spec fn bestmove_readable(l: Seq<char>) -> bool {
    &&& l.len() >= 13
    &&& forall|k: int| 8 <= k < 13 ==> is_ascii_char(#[trigger] l[k])
    &&& l.len() >= 14 ==> is_ascii_char(l[13])
}

/// The move of a `bestmove` line: its characters 9..14 (9..13 for a line of
/// 13 characters).
pub open spec fn bestmove_text(l: Seq<char>) -> Seq<char> {
    if l.len() >= 14 { l.subrange(9, 14) } else { l.subrange(9, 13) }
}

/// The answer to `uciok`: `debug on` when the match runs in debug mode,
/// then `isready`.
pub open spec fn uciok_acts(engine: u8, debug: bool) -> Seq<ActionView> {
    if debug {
        seq![send(engine, "debug on"@), send(engine, "isready"@)]
    } else {
        seq![send(engine, "isready"@)]
    }
}

/// The command that starts the first search.
pub open spec fn go_start_text(white_ms: i32, black_ms: i32) -> Seq<char> {
    "go wtime "@ + decimal(white_ms as int) + " btime "@ + decimal(black_ms as int)
}

/// The command that starts a search after a move.
pub open spec fn go_text(white_ms: i32, black_ms: i32, inc_ms: i32) -> Seq<char> {
    "go wtime "@ + decimal(white_ms as int) + " winc "@ + decimal(inc_ms as int) + " btime "@
        + decimal(black_ms as int) + " binc "@ + decimal(inc_ms as int)
}

/// The position command after the moves `made`.
pub open spec fn position_text(made: Seq<char>) -> Seq<char> {
    "position startpos moves "@ + made
}

/// Every word of the move text can be written as PGN.
pub open spec fn moves_readable(m: Seq<char>) -> bool {
    forall|k: int| 0 <= k < words(m).len() ==> promotion_readable(#[trigger] words(m)[k])
}

/// The side to move has a legal move in `b`.
pub open spec fn moves_left(b: Board) -> bool {
    b.game_status == GameStatus::Normal && legal_turns(b, candidates(b)).len() > 0
}

/// The status after the legal moves of `b` were listed: a finished game
/// stays finished; with no move the game is lost in check and drawn
/// otherwise.
pub open spec fn listed_status(b: Board) -> GameStatus {
    if b.game_status != GameStatus::Normal {
        b.game_status
    } else if moves_left(b) {
        GameStatus::Normal
    } else {
        status_without_moves(b)
    }
}

/// The record of a finished game: its move text, move number and result.
pub open spec fn recorded(p: PgnView, moves: Seq<char>, b: Board) -> PgnView {
    PgnView {
        moves: join_words(words(moves).map_values(|w: Seq<char>| pgn_move(w))),
        ply_count: decimal(b.move_count as int),
        result: result_text(b.game_status),
        ..p
    }
}

/// The clock that runs after a move of `engine` (engine 0 plays white).
pub open spec fn next_clock(engine: u8) -> TimeControl {
    if engine == 0 { TimeControl::BlackToMove } else { TimeControl::WhiteToMove }
}

/// `s1` keeps the `readyok` count and the mode of `s0` and holds the move
/// text `m`.
pub open spec fn state_with(s0: MatchState, s1: MatchState, m: Seq<char>) -> bool {
    &&& s1.ready == s0.ready
    &&& s1.debug == s0.debug
    &&& s1.moves_text@ == m
}

/// `s1` is `s0` unchanged.
pub open spec fn unchanged(s0: MatchState, s1: MatchState) -> bool {
    &&& s1.game == s0.game
    &&& s1.pgn@ == s0.pgn@
    &&& s1.ready == s0.ready
    &&& s1.moves_text@ == s0.moves_text@
    &&& s1.debug == s0.debug
}

/// How a `bestmove` line of `engine` ends on `s0`, when its move `mv` can
/// be played and the moves listed: `s1` holds the game after the move (its
/// status after the listing and the move limit), the grown move text and,
/// for a finished game, its record; `acts` logs a position without moves,
/// then stops the clocks and finishes the game, or sends the position and
/// the search to the other engine and switches the clocks.
pub open spec fn bestmove_done(
    s0: MatchState,
    s1: MatchState,
    engine: u8,
    mv: Seq<char>,
    white_ms: i32,
    black_ms: i32,
    inc_ms: i32,
    acts: Seq<ActionView>,
) -> bool {
    let t = notation_turn(mv);
    let g0 = s0.game;
    let g1 = s1.game;
    let b3 = g1.board;
    let m = move_text_after(s0.moves_text@, g1.pty, long_algebraic_text(mv, b3));
    let over = b3.game_status != GameStatus::Normal;
    &&& exists|b1: Board|
        {
            &&& move_done(g0.board, b1, t)
            &&& generation_ok(b1)
            &&& crate::move_gen_service::same_position(b3, b1)
            &&& b3.game_status == status_after_limit(Board { game_status: listed_status(b1), ..b1 })
            &&& acts == (if moves_left(b1) { seq![] } else { seq![ActionView::Log("found no moves"@)] })
                + (if over {
                seq![ActionView::Clock(TimeControl::AllStop), ActionView::GameOver]
            } else {
                seq![
                    send((1 - engine) as u8, position_text(g1.made_moves_str@)),
                    send((1 - engine) as u8, go_text(white_ms, black_ms, inc_ms)),
                    ActionView::Clock(next_clock(engine)),
                ]
            })
        }
    &&& g1.pty == g0.pty + 1
    &&& g1.made_moves_str@ == (if g0.made_moves_str@.len() == 0 {
        mv
    } else {
        g0.made_moves_str@.push(' ') + mv
    })
    &&& state_with(s0, s1, m)
    &&& (over ==> moves_readable(m))
    &&& s1.pgn@ == (if over { recorded(s0.pgn@, m, b3) } else { s0.pgn@ })
}

fn send_text(engine: u8, text: &str) -> (a: Action)
    ensures
        a@ == send(engine, text@),
{
    Action::Send { engine, text: String::from_str(text) }
}

impl MatchState {
    pub fn new(game: UciGame, pgn: Pgn, debug: bool) -> (s: MatchState)
        ensures
            s.game == game,
            s.pgn@ == pgn@,
            s.ready == 0,
            s.moves_text@ == Seq::<char>::empty(),
            s.debug == debug,
    {
        MatchState { game, pgn, ready: 0, moves_text: String::new(), debug }
    }
}

/// The move text after the move `mv`, read on `b`, as the `pty`-th ply.
pub open spec fn text_after_move(s0: MatchState, mv: Seq<char>, b: Board) -> Seq<char> {
    move_text_after(s0.moves_text@, (s0.game.pty + 1) as i32, long_algebraic_text(mv, b))
}

/// The status a board with status `s` gets when the moves are listed and
/// the move limit applies.
pub open spec fn final_status(b1: Board) -> GameStatus {
    status_after_limit(Board { game_status: listed_status(b1), ..b1 })
}

/// What `on_engine_line` does with the line `l` of `engine` on `s0`: the
/// new state `s1` and the outcome `r`.
pub open spec fn line_done(
    s0: MatchState,
    s1: MatchState,
    engine: u8,
    l: Seq<char>,
    white_ms: i32,
    black_ms: i32,
    inc_ms: i32,
    r: Result<Seq<ActionView>, UciError>,
) -> bool {
    if l == uciok_line() {
        r == Ok::<Seq<ActionView>, UciError>(uciok_acts(engine, s0.debug)) && unchanged(s0, s1)
    } else if l == readyok_line() {
        if s0.ready < u32::MAX {
            &&& r == Ok::<Seq<ActionView>, UciError>(seq![send(engine, "ucinewgame"@)])
            &&& s1.ready == s0.ready + 1
            &&& s1.game == s0.game
            &&& s1.pgn@ == s0.pgn@
            &&& s1.moves_text@ == s0.moves_text@
            &&& s1.debug == s0.debug
        } else {
            r == Err::<Seq<ActionView>, UciError>(UciError::TooManyReady) && unchanged(s0, s1)
        }
    } else if starts_with(l, id_name_prefix()) {
        if name_readable(l) {
            &&& r == Ok::<Seq<ActionView>, UciError>(seq![])
            &&& s1.game == s0.game
            &&& s1.ready == s0.ready
            &&& s1.moves_text@ == s0.moves_text@
            &&& s1.debug == s0.debug
            &&& s1.pgn@ == (if engine == 0 {
                PgnView { white: l.skip(8), ..s0.pgn@ }
            } else {
                PgnView { black: l.skip(8), ..s0.pgn@ }
            })
        } else {
            r == Err::<Seq<ActionView>, UciError>(UciError::UnreadableLine) && unchanged(s0, s1)
        }
    } else if starts_with(l, bestmove_prefix()) {
        let mv = bestmove_text(l);
        if !bestmove_readable(l) {
            r == Err::<Seq<ActionView>, UciError>(UciError::UnreadableLine) && unchanged(s0, s1)
        } else if !is_move_notation(mv) {
            r == Err::<Seq<ActionView>, UciError>(UciError::InvalidMove) && unchanged(s0, s1)
        } else if !s0.game.board.can_move(notation_turn(mv)) || s0.game.pty == i32::MAX {
            r == Err::<Seq<ActionView>, UciError>(UciError::IllegalMove) && unchanged(s0, s1)
        } else {
            match r {
                Ok(acts) => bestmove_done(s0, s1, engine, mv, white_ms, black_ms, inc_ms, acts),
                Err(e) => exists|b1: Board|
                    {
                        &&& move_done(s0.game.board, b1, notation_turn(mv))
                        &&& ((e == UciError::CannotList && !generation_ok(b1)) || (e
                            == UciError::UnreadableMoveText && generation_ok(b1) && final_status(b1)
                            != GameStatus::Normal && !moves_readable(text_after_move(s0, mv, b1))))
                    },
            }
        }
    } else {
        r == Ok::<Seq<ActionView>, UciError>(seq![]) && unchanged(s0, s1)
    }
}

pub open spec fn outcome_view(r: Result<Vec<Action>, UciError>) -> Result<Seq<ActionView>, UciError> {
    match r {
        Ok(acts) => Ok(acts_view(acts@)),
        Err(e) => Err(e),
    }
}

fn go_start_command(white_ms: i32, black_ms: i32) -> (s: String)
    ensures
        s@ == go_start_text(white_ms, black_ms),
{
    let mut s = String::from_str("go wtime ");
    s.append(decimal_text(white_ms as i64).as_str());
    s.append(" btime ");
    s.append(decimal_text(black_ms as i64).as_str());
    assert(s@ =~= go_start_text(white_ms, black_ms));
    s
}

fn go_command(white_ms: i32, black_ms: i32, inc_ms: i32) -> (s: String)
    ensures
        s@ == go_text(white_ms, black_ms, inc_ms),
{
    let mut s = String::from_str("go wtime ");
    s.append(decimal_text(white_ms as i64).as_str());
    s.append(" winc ");
    s.append(decimal_text(inc_ms as i64).as_str());
    s.append(" btime ");
    s.append(decimal_text(black_ms as i64).as_str());
    s.append(" binc ");
    s.append(decimal_text(inc_ms as i64).as_str());
    assert(s@ =~= go_text(white_ms, black_ms, inc_ms));
    s
}

/// Whether a game with board `b` is over once the move limit applies.
fn over_after_limit(b: &Board) -> (o: bool)
    ensures
        o == (status_after_limit(*b) != GameStatus::Normal),
{
    b.move_count > 100 || b.game_status != GameStatus::Normal
}

/// Plays the move of a `bestmove` line and answers it.
fn on_bestmove(
    state: &mut MatchState,
    engine: u8,
    best: &str,
    white_ms: i32,
    black_ms: i32,
    inc_ms: i32,
) -> (r: Result<Vec<Action>, UciError>)
    requires
        engine < 2,
        is_move_notation(best@),
        old(state).game.board.can_move(notation_turn(best@)),
        old(state).game.pty < i32::MAX,
    ensures
        match r {
            Ok(acts) => bestmove_done(
                *old(state),
                *final(state),
                engine,
                best@,
                white_ms,
                black_ms,
                inc_ms,
                acts_view(acts@),
            ),
            Err(e) => exists|b1: Board|
                {
                    &&& move_done(old(state).game.board, b1, notation_turn(best@))
                    &&& ((e == UciError::CannotList && !generation_ok(b1)) || (e
                        == UciError::UnreadableMoveText && generation_ok(b1) && final_status(b1)
                        != GameStatus::Normal && !moves_readable(
                        text_after_move(*old(state), best@, b1),
                    )))
                },
        },
{
    let ghost s0 = *state;
    state.game.do_move(best);
    let ghost b1 = state.game.board;
    let long_algebraic = long_algebraic_move(best, &state.game.board);
    let new_text = append_move(state.moves_text.as_str(), state.game.pty, long_algebraic.as_str());
    assert(new_text@ == text_after_move(s0, best@, b1));
    let generator = MoveGenService::new();
    if !generator.can_generate(&state.game.board) {
        assert(move_done(s0.game.board, b1, notation_turn(best@)) && !generation_ok(b1));
        return Err(UciError::CannotList);
    }
    let possible = generator.generate_valid_moves_list(&mut state.game.board);
    let ghost b2 = state.game.board;
    proof {
        if b1.game_status == GameStatus::Normal {
            vstd::seq_lib::to_multiset_len(possible@);
            vstd::seq_lib::to_multiset_len(legal_turns(b1, candidates(b1)));
        }
    }
    assert(b2.game_status == listed_status(b1));
    let mut acts: Vec<Action> = Vec::new();
    if possible.len() == 0 {
        acts.push(Action::Log(String::from_str("found no moves")));
    }
    let readable = Pgn::readable_moves(new_text.as_str());
    if over_after_limit(&state.game.board) && !readable {
        assert(final_status(b1) == status_after_limit(b2));
        return Err(UciError::UnreadableMoveText);
    }
    state.moves_text = new_text;
    let over = if readable {
        check_game_over(&mut state.game.board, &mut state.pgn, state.moves_text.as_str())
    } else {
        false
    };
    let ghost before_answer = acts@;
    if over {
        acts.push(Action::Clock(TimeControl::AllStop));
        acts.push(Action::GameOver);
    } else {
        let other: u8 = 1 - engine;
        let mut position = String::from_str("position startpos moves ");
        position.append(state.game.made_moves_str.as_str());
        acts.push(Action::Send { engine: other, text: position });
        acts.push(Action::Send { engine: other, text: go_command(white_ms, black_ms, inc_ms) });
        acts.push(Action::Clock(if engine == 0 { TimeControl::BlackToMove } else { TimeControl::WhiteToMove }));
    }
    proof {
        let b3 = state.game.board;
        assert(crate::move_gen_service::same_position(b3, b1));
        assert(b3.game_status == final_status(b1));
        assert(long_algebraic_text(best@, b3) == long_algebraic_text(best@, b1));
        let expected = (if moves_left(b1) { seq![] } else { seq![ActionView::Log("found no moves"@)] })
            + (if over {
            seq![ActionView::Clock(TimeControl::AllStop), ActionView::GameOver]
        } else {
            seq![
                send((1 - engine) as u8, position_text(state.game.made_moves_str@)),
                send((1 - engine) as u8, go_text(white_ms, black_ms, inc_ms)),
                ActionView::Clock(next_clock(engine)),
            ]
        });
        assert(acts_view(acts@) =~= expected);
        assert(move_done(s0.game.board, b1, notation_turn(best@)));
    }
    Ok(acts)
}

/// What the manager does with the line `line` engine `engine` wrote (see
/// `line_done`): it answers `uciok` with `debug on` (in debug mode) and
/// `isready`, answers `readyok` with `ucinewgame` and counts it, stores the
/// name of an `id name` line as the white (engine 0) or black player, plays
/// the move of a `bestmove` line and sends the position and the next search
/// to the other engine, or finishes the game; other lines it ignores.
pub fn on_engine_line(
    state: &mut MatchState,
    engine: u8,
    line: &str,
    white_ms: i32,
    black_ms: i32,
    inc_ms: i32,
) -> (r: Result<Vec<Action>, UciError>)
    requires
        engine < 2,
    ensures
        line_done(*old(state), *final(state), engine, line@, white_ms, black_ms, inc_ms, outcome_view(r)),
{
    let ghost s0 = *state;
    let l = chars_of(line);
    if is_chars(&l, vec!['u', 'c', 'i', 'o', 'k']) {
        let mut acts: Vec<Action> = Vec::new();
        if state.debug {
            acts.push(send_text(engine, "debug on"));
        }
        acts.push(send_text(engine, "isready"));
        assert(acts_view(acts@) =~= uciok_acts(engine, s0.debug));
        return Ok(acts);
    }
    if is_chars(&l, vec!['r', 'e', 'a', 'd', 'y', 'o', 'k']) {
        if state.ready == u32::MAX {
            return Err(UciError::TooManyReady);
        }
        state.ready = state.ready + 1;
        let mut acts: Vec<Action> = Vec::new();
        acts.push(send_text(engine, "ucinewgame"));
        assert(acts_view(acts@) =~= seq![send(engine, "ucinewgame"@)]);
        return Ok(acts);
    }
    if starts_with_chars(&l, vec!['i', 'd', ' ', 'n', 'a', 'm', 'e']) {
        assert(l@ != uciok_line() && l@ != readyok_line()) by {
            assert(l@[0] == 'i');
        }
        if l.len() < 8 || l[7] > '\u{7F}' {
            return Err(UciError::UnreadableLine);
        }
        let name = string_from(&l, 8);
        if engine == 0 {
            state.pgn.set_white_name(name.as_str());
        } else {
            state.pgn.set_black_name(name.as_str());
        }
        let acts: Vec<Action> = Vec::new();
        assert(acts_view(acts@) =~= seq![]);
        return Ok(acts);
    }
    if starts_with_chars(&l, vec!['b', 'e', 's', 't', 'm', 'o', 'v', 'e']) {
        assert(l@ != uciok_line() && l@ != readyok_line() && !starts_with(l@, id_name_prefix())) by {
            assert(l@[0] == 'b');
            assert(l@.take(8)[0] == 'b');
        }
        if l.len() < 13 || l[8] > '\u{7F}' || l[9] > '\u{7F}' || l[10] > '\u{7F}' || l[11] > '\u{7F}'
            || l[12] > '\u{7F}' || (l.len() >= 14 && l[13] > '\u{7F}') {
            proof {
                if l@.len() >= 13 {
                    assert(!bestmove_readable(l@)) by {
                        if l@[8] > '\u{7F}' {
                            assert(!is_ascii_char(l@[8]));
                        } else if l@[9] > '\u{7F}' {
                            assert(!is_ascii_char(l@[9]));
                        } else if l@[10] > '\u{7F}' {
                            assert(!is_ascii_char(l@[10]));
                        } else if l@[11] > '\u{7F}' {
                            assert(!is_ascii_char(l@[11]));
                        } else if l@[12] > '\u{7F}' {
                            assert(!is_ascii_char(l@[12]));
                        }
                    }
                }
            }
            return Err(UciError::UnreadableLine);
        }
        assert(bestmove_readable(l@)) by {
            assert forall|k: int| 8 <= k < 13 implies is_ascii_char(#[trigger] l@[k]) by {
                assert(k == 8 || k == 9 || k == 10 || k == 11 || k == 12);
            }
        }
        let end: usize = if l.len() >= 14 { 14 } else { 13 };
        let best = string_between(&l, 9, end);
        assert(best@ == bestmove_text(l@));
        if !NotationUtil::is_valid_move_notation(best.as_str()) {
            return Err(UciError::InvalidMove);
        }
        let turn = NotationUtil::get_turn_from_notation(best.as_str());
        if !state.game.board.can_do_move(&turn) || state.game.pty == i32::MAX {
            return Err(UciError::IllegalMove);
        }
        return on_bestmove(state, engine, best.as_str(), white_ms, black_ms, inc_ms);
    }
    proof {
        if l@ == id_name_prefix() {
        }
    }
    let acts: Vec<Action> = Vec::new();
    assert(acts_view(acts@) =~= seq![]);
    Ok(acts)
}

/// What `on_tick` does on `s0` with the clocks at `white_ms` and
/// `black_ms`: a fallen flag ends the game; when both engines are ready the
/// first search is sent to engine 0 and white's clock starts; a finished
/// game (also past move 100) stops the clocks and is recorded.
pub open spec fn tick_done(
    s0: MatchState,
    s1: MatchState,
    white_ms: i32,
    black_ms: i32,
    r: Result<Seq<ActionView>, UciError>,
) -> bool {
    let b1 = Board { game_status: status_after_clocks(s0.game.board.game_status, white_ms, black_ms), ..s0.game.board };
    let start = s0.ready == 2;
    let over = status_after_limit(b1) != GameStatus::Normal;
    if over && !moves_readable(s0.moves_text@) {
        r == Err::<Seq<ActionView>, UciError>(UciError::UnreadableMoveText) && unchanged(s0, s1)
    } else {
        let b3 = Board { game_status: status_after_limit(b1), ..b1 };
        &&& r == Ok::<Seq<ActionView>, UciError>(
            (if start {
                seq![send(0, go_start_text(white_ms, black_ms)), ActionView::Clock(TimeControl::WhiteToMove)]
            } else {
                seq![]
            }) + (if over {
                seq![ActionView::Clock(TimeControl::AllStop), ActionView::GameOver]
            } else {
                seq![]
            }),
        )
        &&& s1.game == UciGame { board: b3, ..s0.game }
        &&& s1.ready == (if start { 3 } else { s0.ready })
        &&& s1.moves_text@ == s0.moves_text@
        &&& s1.debug == s0.debug
        &&& s1.pgn@ == (if over { recorded(s0.pgn@, s0.moves_text@, b3) } else { s0.pgn@ })
    }
}

/// One turn of the main loop (see `tick_done`).
pub fn on_tick(state: &mut MatchState, white_ms: i32, black_ms: i32) -> (r: Result<Vec<Action>, UciError>)
    ensures
        tick_done(*old(state), *final(state), white_ms, black_ms, outcome_view(r)),
{
    let ghost s0 = *state;
    let readable = Pgn::readable_moves(state.moves_text.as_str());
    let flagged = white_ms <= 0 || black_ms <= 0;
    let over = flagged || over_after_limit(&state.game.board);
    if over && !readable {
        return Err(UciError::UnreadableMoveText);
    }
    check_flags(&mut state.game.board, white_ms, black_ms);
    let mut acts: Vec<Action> = Vec::new();
    if state.ready == 2 {
        acts.push(Action::Send { engine: 0, text: go_start_command(white_ms, black_ms) });
        acts.push(Action::Clock(TimeControl::WhiteToMove));
        state.ready = 3;
    }
    if readable {
        let finished = check_game_over(&mut state.game.board, &mut state.pgn, state.moves_text.as_str());
        if finished {
            acts.push(Action::Clock(TimeControl::AllStop));
            acts.push(Action::GameOver);
        }
    }
    proof {
        let b1 = Board { game_status: status_after_clocks(s0.game.board.game_status, white_ms, black_ms), ..s0.game.board };
        let start = s0.ready == 2;
        let o = status_after_limit(b1) != GameStatus::Normal;
        assert(acts_view(acts@) =~= (if start {
            seq![send(0, go_start_text(white_ms, black_ms)), ActionView::Clock(TimeControl::WhiteToMove)]
        } else {
            seq![]
        }) + (if o {
            seq![ActionView::Clock(TimeControl::AllStop), ActionView::GameOver]
        } else {
            seq![]
        }));
    }
    Ok(acts)
}

} // verus!
