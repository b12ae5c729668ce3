use matt_magie::fen_service::FenService;
use matt_magie::model::{Board, CastleInformation, GameStatus, MoveInformation, Turn, UciGame};
use matt_magie::move_gen_service::MoveGenService;
use matt_magie::service::Service;
use matt_magie::zobrist::ZobristTable;

fn start_board() -> Board {
    FenService.set_init_board()
}

#[test]
fn init_board_is_the_start_position() {
    let board = start_board();
    assert_eq!(FenService.get_fen(&board), "rnbqkbnr/pppppppp/8/8/8/8/PPPPPPPP/RNBQKBNR w KQkq -");
    assert!(board.white_to_move);
    assert_eq!(board.move_count, 1);
    assert_eq!(board.game_status, GameStatus::Normal);
    assert!(board.move_repetition_map.is_empty());
}

#[test]
fn uci_game_records_the_moves() {
    let mut game = UciGame::new(start_board());
    assert!(game.white_to_move());
    game.do_move("e2e4");
    assert_eq!(game.made_moves_str, "e2e4");
    assert_eq!(game.pty, 1);
    assert!(!game.white_to_move());
    assert_eq!(game.board.field[65], 10);
    assert_eq!(game.board.field[85], 0);
    assert_eq!(game.board.field_for_en_passante, 75);
    assert_eq!(
        FenService.get_fen(&game.board),
        "rnbqkbnr/pppppppp/8/8/4P3/8/PPPP1PPP/RNBQKBNR b KQkq e3"
    );
    game.do_move("e7e5");
    assert_eq!(game.made_moves_str, "e2e4 e7e5");
    assert_eq!(game.pty, 2);
    assert_eq!(game.board.move_count, 2);
    assert_eq!(game.board.field_for_en_passante, 45);
    game.do_move("g1f3");
    assert_eq!(game.board.field_for_en_passante, 0);
    assert_eq!(game.board.move_count, 2);
}

#[test]
fn undo_move_restores_the_board() {
    let mut board = start_board();
    let before = board.clone();
    let hash_before = board.hash();
    let t = Turn::new(97, 76, 0, 0, 0, false);
    let mi = board.do_move(&t);
    assert!(board != before);
    assert_eq!(mi.hash, board.hash());
    board.undo_move(&t, mi);
    assert!(board == before);
    assert_eq!(board.hash(), hash_before);
}

#[test]
fn undo_of_a_capture_and_castling() {
    let mut game = UciGame::new(start_board());
    for mv in ["e2e4", "d7d5", "g1f3", "b8c6", "f1c4"] {
        game.do_move(mv);
    }
    let mut board = game.board.clone();
    let before = board.clone();
    let capture = Turn::new(54, 65, 10, 0, 0, false);
    let mi = board.do_move(&capture);
    assert_eq!(board.field[65], 20);
    board.undo_move(&capture, mi);
    assert!(board == before);

    let mut board = game.board.clone();
    board.do_move(&Turn::new(31, 41, 0, 0, 0, false));
    let before = board.clone();
    let castle = Turn::new(95, 97, 0, 0, 0, false);
    let mi = board.do_move(&castle);
    assert_eq!(board.field[97], 15);
    assert_eq!(board.field[96], 11);
    assert_eq!(board.field[98], 0);
    assert!(!board.white_possible_to_castle_short);
    assert!(!board.white_possible_to_castle_long);
    board.undo_move(&castle, mi);
    assert!(board == before);
}

#[test]
fn en_passant_removes_the_pawn() {
    let mut game = UciGame::new(start_board());
    for mv in ["e2e4", "a7a6", "e4e5", "d7d5"] {
        game.do_move(mv);
    }
    assert_eq!(game.board.field_for_en_passante, 44);
    let before = game.board.clone();
    let mut board = game.board.clone();
    let ep = Turn::new(55, 44, 0, 0, 0, false);
    let mi = board.do_move(&ep);
    assert_eq!(board.field[44], 10);
    assert_eq!(board.field[54], 0);
    board.undo_move(&ep, mi);
    assert!(board == before);
}

#[test]
fn third_repetition_is_a_draw() {
    let mut game = UciGame::new(start_board());
    for mv in ["g1f3", "g8f6", "f3g1", "f6g8", "g1f3", "g8f6", "f3g1", "f6g8"] {
        game.do_move(mv);
        assert_eq!(game.board.game_status, GameStatus::Normal);
    }
    game.do_move("g1f3");
    assert_eq!(game.board.game_status, GameStatus::Draw);
}

#[test]
fn hash_depends_on_the_position() {
    let a = start_board();
    let b = start_board();
    assert_eq!(a.hash(), b.hash());
    let mut c = start_board();
    c.white_to_move = false;
    assert_ne!(a.hash(), c.hash());
    let table = ZobristTable::new();
    assert_eq!(table.hash_position(&a.field, true), a.hash());
}

#[test]
fn a_single_pawn_step_leaves_no_en_passant_cell() {
    let mut game = UciGame::new(start_board());
    game.do_move("e2e3");
    assert_eq!(game.board.field_for_en_passante, 0);
    game.do_move("d7d5");
    assert_eq!(game.board.field_for_en_passante, 44);
    game.do_move("e3e4");
    assert_eq!(game.board.field_for_en_passante, 0);
    let service = Service::new();
    let mut board = game.board.clone();
    assert!(!board.white_to_move);
    let moves = service.move_gen.generate_valid_moves_list(&mut board);
    assert!(!moves.is_empty());
    assert!(moves.iter().all(|t| t.to != 0));
}

#[test]
fn castle_information_of_the_start() {
    let board = start_board();
    let c = board.get_castle_information();
    assert_eq!(c, CastleInformation::new(true, true, true, true));
    let mi = MoveInformation::new(c, 7, -1);
    assert_eq!(mi.hash, 7);
    assert_eq!(mi.en_passante, -1);
}

#[test]
fn turn_notation() {
    assert_eq!(Turn::new(85, 65, 0, 0, 0, false).to_algebraic(), "e2e4");
    assert_eq!(Turn::new(31, 21, 0, 14, 0, false).to_algebraic(), "a7a8q");
    assert_eq!(Turn::new(31, 21, 0, 12, 0, false).to_algebraic(), "a7a8n");
    assert_eq!(Turn::new(38, 98, 0, 24, 0, false).to_algebraic(), "h7h1q");
    let t = Turn::from_to(92, 73);
    assert!(t == &Turn::new(92, 73, 0, 0, 0, false));
    assert!(t != &Turn::new(92, 73, 0, 0, 1, false));
    assert!(!t.is_promotion());
    assert_eq!(t, Turn::new(92, 73, 0, 0, 0, false));
    let p = t.set_promotion(14);
    assert!(p.is_promotion());
    assert_eq!(p.promotion, 14);
}

#[test]
fn valid_moves_of_the_start_position() {
    let service = Service::new();
    let mut board = start_board();
    let moves = service.move_gen.generate_valid_moves_list(&mut board);
    assert_eq!(moves.len(), 20);
    assert_eq!(board.game_status, GameStatus::Normal);
    assert!(moves.windows(2).all(|w| w[0].eval >= w[1].eval));
    assert!(moves.iter().any(|t| t.from == 92 && t.to == 73));
    assert!(moves.iter().any(|t| t.from == 85 && t.to == 65));
}

#[test]
fn checkmate_ends_the_game() {
    let service = Service::new();
    let mut game = UciGame::new(start_board());
    for mv in ["f2f3", "e7e5", "g2g4", "d8h4"] {
        game.do_move(mv);
    }
    let moves = service.move_gen.generate_valid_moves_list(&mut game.board);
    assert!(moves.is_empty());
    assert_eq!(game.board.game_status, GameStatus::BlackWin);
}

#[test]
fn finished_game_lists_no_moves() {
    let service = Service::new();
    let mut board = start_board();
    board.game_status = GameStatus::WhiteWinByTime;
    let moves = service.move_gen.generate_valid_moves_list(&mut board);
    assert!(moves.is_empty());
    assert_eq!(board.game_status, GameStatus::WhiteWinByTime);
}

#[test]
fn pseudo_moves_of_a_knight() {
    let gen = MoveGenService::new();
    let board = start_board();
    let moves = gen.generate_moves_list_for_piece(&board, 92);
    assert_eq!(moves.len(), 4);
    assert!(moves.chunks(2).all(|p| p[0] == 92));
    let all = gen.generate_moves_list_for_piece(&board, 0);
    assert_eq!(all.len(), 40);
}

#[test]
fn each_square_gets_its_share_of_the_full_list() {
    let gen = MoveGenService::new();
    let mut game = UciGame::new(start_board());
    for mv in ["e2e4", "e7e5", "g1f3", "b8c6", "f1c4"] {
        game.do_move(mv);
    }
    let all = gen.generate_moves_list_for_piece(&game.board, 0);
    for idx in 1..120 {
        let mine: Vec<i32> = all
            .chunks(2)
            .filter(|p| p[0] == idx)
            .flat_map(|p| p.iter().copied())
            .collect();
        assert_eq!(gen.generate_moves_list_for_piece(&game.board, idx), mine, "square {}", idx);
    }
}

#[test]
fn attackers_of_a_king_in_check() {
    let gen = MoveGenService::new();
    let mut game = UciGame::new(start_board());
    for mv in ["e2e4", "f7f6", "d1h5"] {
        game.do_move(mv);
    }
    let checks = gen.get_check_idx_list(&game.board.field, false);
    assert_eq!(checks, vec![58]);
    let none = gen.get_check_idx_list(&game.board.field, true);
    assert!(none.is_empty());
    assert!(gen.get_attack_idx_list(&game.board.field, true, 36).is_empty());
    assert_eq!(gen.get_attack_idx_list(&game.board.field, true, 47), vec![38]);
}

#[test]
fn boards_compare_their_repetition_tables() {
    let mut a = UciGame::new(start_board());
    let mut b = UciGame::new(start_board());
    assert!(a.board == b.board);
    a.do_move("g1f3");
    b.do_move("b1c3");
    assert!(a.board != b.board);
    a.do_move("g8f6");
    a.do_move("f3g1");
    a.do_move("f6g8");
    let fresh = start_board();
    assert_eq!(a.board.field, fresh.field);
    assert!(a.board.white_to_move && a.board.move_count == 3);
    let mut c = start_board();
    c.move_count = 3;
    c.field_for_en_passante = 0;
    assert!(a.board != c);
    c.move_repetition_map = a.board.move_repetition_map.clone();
    assert!(a.board == c);
}
