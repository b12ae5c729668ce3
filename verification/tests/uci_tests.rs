use matt_magie::clock::TimeControl;
use matt_magie::fen_service::FenService;
use matt_magie::model::{GameStatus, UciGame};
use matt_magie::pgn::Pgn;
use matt_magie::uci::{on_engine_line, on_tick, Action, MatchState, UciError};

fn state(debug: bool) -> MatchState {
    let pgn = Pgn::new(
        "E".to_string(),
        "S".to_string(),
        "D".to_string(),
        "1".to_string(),
        "Engine_1".to_string(),
        "Engine_2".to_string(),
        "T".to_string(),
        "30/1".to_string(),
        "/tmp/x.pgn".to_string(),
    );
    MatchState::new(UciGame::new(FenService.set_init_board()), pgn, debug)
}

fn send(engine: u8, text: &str) -> Action {
    Action::Send { engine, text: text.to_string() }
}

#[test]
fn uciok_is_answered() {
    let mut s = state(false);
    assert_eq!(on_engine_line(&mut s, 1, "uciok", 1, 1, 1), Ok(vec![send(1, "isready")]));
    let mut s = state(true);
    assert_eq!(
        on_engine_line(&mut s, 0, "uciok", 1, 1, 1),
        Ok(vec![send(0, "debug on"), send(0, "isready")])
    );
}

#[test]
fn both_ready_engines_start_the_game() {
    let mut s = state(false);
    assert_eq!(on_tick(&mut s, 5000, 6000), Ok(vec![]));
    assert_eq!(on_engine_line(&mut s, 0, "readyok", 1, 1, 1), Ok(vec![send(0, "ucinewgame")]));
    assert_eq!(s.ready, 1);
    assert_eq!(on_tick(&mut s, 5000, 6000), Ok(vec![]));
    assert_eq!(on_engine_line(&mut s, 1, "readyok", 1, 1, 1), Ok(vec![send(1, "ucinewgame")]));
    assert_eq!(
        on_tick(&mut s, 5000, 6000),
        Ok(vec![send(0, "go wtime 5000 btime 6000"), Action::Clock(TimeControl::WhiteToMove)])
    );
    assert_eq!(s.ready, 3);
    assert_eq!(on_tick(&mut s, 5000, 6000), Ok(vec![]));
}

#[test]
fn names_are_stored() {
    let mut s = state(false);
    assert_eq!(on_engine_line(&mut s, 0, "id name Alpha 1.0", 1, 1, 1), Ok(vec![]));
    assert_eq!(on_engine_line(&mut s, 1, "id name Beta", 1, 1, 1), Ok(vec![]));
    assert!(s.pgn.content().contains("[White \"Alpha 1.0\"]\n[Black \"Beta\"]"));
    assert_eq!(on_engine_line(&mut s, 1, "id name", 1, 1, 1), Err(UciError::UnreadableLine));
}

#[test]
fn other_lines_are_ignored() {
    let mut s = state(false);
    assert_eq!(on_engine_line(&mut s, 0, "info depth 3 score cp 20", 1, 1, 1), Ok(vec![]));
    assert_eq!(on_engine_line(&mut s, 0, "", 1, 1, 1), Ok(vec![]));
    assert_eq!(s.ready, 0);
}

#[test]
fn a_best_move_is_played_and_passed_on() {
    let mut s = state(false);
    assert_eq!(on_engine_line(&mut s, 0, "bestmove e2e4 ponder e7e5", 900, 800, 10), Err(UciError::InvalidMove));
    assert_eq!(
        on_engine_line(&mut s, 0, "bestmove e2e4", 900, 800, 10),
        Ok(vec![
            send(1, "position startpos moves e2e4"),
            send(1, "go wtime 900 winc 10 btime 800 binc 10"),
            Action::Clock(TimeControl::BlackToMove),
        ])
    );
    assert_eq!(s.moves_text, " 1. e2e4");
    assert_eq!(s.game.pty, 1);
    assert_eq!(
        on_engine_line(&mut s, 1, "bestmove g8f6", 900, 800, 10),
        Ok(vec![
            send(0, "position startpos moves e2e4 g8f6"),
            send(0, "go wtime 900 winc 10 btime 800 binc 10"),
            Action::Clock(TimeControl::WhiteToMove),
        ])
    );
    assert_eq!(s.moves_text, " 1. e2e4 Ng8f6");
}

#[test]
fn bad_best_moves_are_refused() {
    let mut s = state(false);
    assert_eq!(on_engine_line(&mut s, 0, "bestmove e2", 1, 1, 1), Err(UciError::UnreadableLine));
    assert_eq!(on_engine_line(&mut s, 0, "bestmove e2x4", 1, 1, 1), Err(UciError::InvalidMove));
    assert_eq!(on_engine_line(&mut s, 0, "bestmove e4e5", 1, 1, 1), Err(UciError::IllegalMove));
    assert_eq!(s.game.pty, 0);
}

#[test]
fn checkmate_finishes_the_game() {
    let mut s = state(false);
    for (engine, line) in [(0, "bestmove f2f3"), (1, "bestmove e7e5"), (0, "bestmove g2g4")] {
        assert!(on_engine_line(&mut s, engine, line, 1, 1, 1).is_ok());
    }
    assert_eq!(
        on_engine_line(&mut s, 1, "bestmove d8h4", 1, 1, 1),
        Ok(vec![
            Action::Log("found no moves".to_string()),
            Action::Clock(TimeControl::AllStop),
            Action::GameOver,
        ])
    );
    assert_eq!(s.game.board.game_status, GameStatus::BlackWin);
    assert!(s.pgn.content().ends_with("1. f2f3 e7e5 2. g2g4 Qd8h4 0-1\n\n"));
}

#[test]
fn a_fallen_flag_finishes_the_game() {
    let mut s = state(false);
    assert_eq!(
        on_tick(&mut s, 0, 500),
        Ok(vec![Action::Clock(TimeControl::AllStop), Action::GameOver])
    );
    assert_eq!(s.game.board.game_status, GameStatus::BlackWinByTime);
    assert!(s.pgn.content().contains("[Result \"0-1\"]"));
}
