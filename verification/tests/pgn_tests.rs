use matt_magie::fen_service::FenService;
use matt_magie::model::GameStatus;
use matt_magie::pgn::Pgn;
use matt_magie::service::{check_game_over, Service};

fn pgn() -> Pgn {
    Pgn::new(
        "Match".to_string(),
        "Home".to_string(),
        "2024.01.02".to_string(),
        "3".to_string(),
        "Engine_1".to_string(),
        "Engine_2".to_string(),
        "10:11:12".to_string(),
        "30/1000".to_string(),
        "/tmp/games.pgn".to_string(),
    )
}

const TAGS: &str = "[Event \"Match\"]\n[Site \"Home\"]\n[Date \"2024.01.02\"]\n[Round \"3\"]\n";

#[test]
fn new_record_has_no_moves_and_no_result() {
    let p = pgn();
    assert_eq!(p.path(), "/tmp/games.pgn");
    assert_eq!(
        p.content(),
        format!(
            "{}[White \"Engine_1\"]\n[Black \"Engine_2\"]\n[Result \"\"]\n[TimeControl \"30/1000\"]\n[Time \"10:11:12\"]\n \n\n",
            TAGS
        )
    );
}

#[test]
fn moves_are_written_in_pgn_form() {
    let mut p = pgn();
    p.set_moves(" 1. e2e4 e7e5  2. Ke1g1\tKe8c8\n3. d7e8=Q e7e8=N Ke8g8 Ke1c1 a=b=c ".to_string());
    p.set_result("1-0".to_string());
    p.set_white_name("A");
    p.set_black_name("B");
    assert_eq!(
        p.content(),
        format!(
            "{}[White \"A\"]\n[Black \"B\"]\n[Result \"1-0\"]\n[TimeControl \"30/1000\"]\n[Time \"10:11:12\"]\n1. e2e4 e7e5 2. 0-0 0-0-0 3. dxe8=Q e8=N 0-0 0-0-0 a=b=c 1-0\n\n",
            TAGS
        )
    );
}

#[test]
fn empty_move_text() {
    let mut p = pgn();
    p.set_moves("   ".to_string());
    p.set_ply_count("0".to_string());
    assert!(p.content().ends_with("[Time \"10:11:12\"]\n \n\n"));
}

#[test]
fn readable_move_texts() {
    assert!(Pgn::readable_moves("e2e4 d7e8=Q"));
    assert!(Pgn::readable_moves("a=b=c"));
    assert!(Pgn::readable_moves(""));
    assert!(!Pgn::readable_moves("e2e4 e8=Q"));
    assert!(!Pgn::readable_moves("ä7e8=Q"));
}

#[test]
fn game_over_after_move_hundred_is_a_draw() {
    let mut board = FenService.set_init_board();
    board.move_count = 101;
    let mut p = pgn();
    assert!(check_game_over(&mut board, &mut p, " 1. e2e4"));
    assert_eq!(board.game_status, GameStatus::Draw);
    assert!(p.content().ends_with("1. e2e4 1/2-1/2\n\n"));
    assert!(p.content().contains("[Result \"1/2-1/2\"]"));
}

#[test]
fn game_over_results() {
    for (status, result) in [
        (GameStatus::WhiteWin, "1-0"),
        (GameStatus::WhiteWinByTime, "1-0"),
        (GameStatus::BlackWin, "0-1"),
        (GameStatus::BlackWinByTime, "0-1"),
        (GameStatus::Draw, "1/2-1/2"),
    ] {
        let mut board = FenService.set_init_board();
        board.game_status = status.clone();
        let mut p = pgn();
        assert!(check_game_over(&mut board, &mut p, "e2e4"));
        assert_eq!(board.game_status, status);
        assert!(p.content().contains(&format!("[Result \"{}\"]", result)));
    }
}

#[test]
fn running_game_is_not_over() {
    let mut board = FenService.set_init_board();
    board.move_count = 100;
    let mut p = pgn();
    let before = p.content();
    assert!(!check_game_over(&mut board, &mut p, "e2e4"));
    assert_eq!(board.game_status, GameStatus::Normal);
    assert_eq!(p.content(), before);
}

#[test]
fn service_holds_its_parts() {
    let service = Service::new();
    let board = service.fen.set_init_board();
    assert_eq!(service.fen.get_fen(&board), "rnbqkbnr/pppppppp/8/8/8/8/PPPPPPPP/RNBQKBNR w KQkq -");
}
