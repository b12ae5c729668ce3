use matt_magie::clock::{check_flags, run_down, TimeControl};
use matt_magie::fen_service::FenService;
use matt_magie::model::{GameStatus, Turn, UciGame};
use matt_magie::move_gen_service::MoveGenService;
use matt_magie::service::{append_move, long_algebraic_move};
use matt_magie::square::{has_frame, inner_cell};

#[test]
fn clocks_run_down_to_their_floor() {
    assert_eq!(run_down(5000, true), 4990);
    assert_eq!(run_down(1000, true), 990);
    assert_eq!(run_down(999, true), 1000);
    assert_eq!(run_down(-5, true), 1000);
    assert_eq!(run_down(5000, false), 4990);
    assert_eq!(run_down(1999, false), 2000);
    assert_eq!(run_down(2000, false), 1990);
    assert_ne!(TimeControl::WhiteToMove, TimeControl::AllStop);
}

#[test]
fn a_fallen_flag_ends_the_game() {
    let mut board = FenService.set_init_board();
    check_flags(&mut board, 10, 10);
    assert_eq!(board.game_status, GameStatus::Normal);
    check_flags(&mut board, 10, 0);
    assert_eq!(board.game_status, GameStatus::WhiteWinByTime);
    check_flags(&mut board, 0, 0);
    assert_eq!(board.game_status, GameStatus::BlackWinByTime);
}

#[test]
fn move_text_gets_move_numbers() {
    let s = append_move("", 1, "e2e4");
    assert_eq!(s, " 1. e2e4");
    let s = append_move(&s, 2, "e7e5");
    assert_eq!(s, " 1. e2e4 e7e5");
    let s = append_move(&s, 3, "Ng1f3");
    assert_eq!(s, " 1. e2e4 e7e5 2. Ng1f3");
    assert_eq!(append_move("x", 21, "a"), "x 11. a");
    assert_eq!(append_move("x", 0, "a"), "x a");
    assert_eq!(append_move("x", -3, "a"), "x a");
}

#[test]
fn long_algebraic_of_engine_moves() {
    let mut game = UciGame::new(FenService.set_init_board());
    game.do_move("g1f3");
    assert_eq!(long_algebraic_move("g1f3", &game.board), "Ng1f3");
    game.do_move("e7e5");
    assert_eq!(long_algebraic_move("e7e5", &game.board), "e7e5");
    assert_eq!(long_algebraic_move("a7a8q", &game.board), "a7a8=Q");
    assert_eq!(long_algebraic_move("h2h1n", &game.board), "h2h1=Q");
}

#[test]
fn moves_are_checked_before_they_are_played() {
    let board = FenService.set_init_board();
    assert!(board.can_do_move(&Turn::new(85, 65, 0, 0, 0, false)));
    assert!(!board.can_do_move(&Turn::new(55, 45, 0, 0, 0, false)));
    assert!(!board.can_do_move(&Turn::new(85, 120, 0, 0, 0, false)));
    assert!(!board.can_do_move(&Turn::new(-1, 65, 0, 0, 0, false)));
    let mut late = FenService.set_init_board();
    late.white_to_move = false;
    late.move_count = i32::MAX;
    assert!(!late.can_do_move(&Turn::new(35, 55, 0, 0, 0, false)));
    late.move_count = 7;
    assert!(late.can_do_move(&Turn::new(35, 55, 0, 0, 0, false)));
}

#[test]
fn listing_is_checked_before_it_runs() {
    let gen = MoveGenService::new();
    let board = FenService.set_init_board();
    assert!(gen.can_generate(&board));
    let mut no_king = FenService.set_init_board();
    no_king.field[95] = 0;
    assert!(!gen.can_generate(&no_king));
    let mut broken = FenService.set_init_board();
    broken.field[0] = 0;
    assert!(!gen.can_generate(&broken));
    let mut game = UciGame::new(FenService.set_init_board());
    for mv in ["e2e4", "e7e5", "g1f3", "b8c6"] {
        game.do_move(mv);
        assert!(gen.can_generate(&game.board));
    }
}

#[test]
fn frame_and_cells() {
    let board = FenService.set_init_board();
    assert!(has_frame(&board.field));
    let mut field = board.field;
    field[29] = 0;
    assert!(!has_frame(&field));
    assert!(inner_cell(21));
    assert!(inner_cell(98));
    assert!(!inner_cell(20));
    assert!(!inner_cell(29));
    assert!(!inner_cell(99));
    assert!(!inner_cell(-1));
}

#[test]
fn fen_of_a_game_in_progress() {
    let mut game = UciGame::new(FenService.set_init_board());
    for mv in ["e2e4", "c7c5", "e1e2"] {
        game.do_move(mv);
    }
    assert_eq!(
        FenService.get_fen(&game.board),
        "rnbqkbnr/pp1ppppp/8/2p5/4P3/8/PPPPKPPP/RNBQ1BNR b kq -"
    );
    game.do_move("d8a5");
    assert_eq!(
        FenService.get_fen(&game.board),
        "rnb1kbnr/pp1ppppp/8/q1p5/4P3/8/PPPPKPPP/RNBQ1BNR w kq -"
    );
}
