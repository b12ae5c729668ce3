use matt_magie::board::{get_index_from_notation, Board, GameState, Turn};

fn turn(from: usize, to: usize, capture: i8) -> Turn {
    Turn { from, to, capture, post_villain: Vec::new(), post_my: Vec::new(), promotion: false }
}

const START: &str = "rnbqkbnr/pppppppp/8/8/8/8/PPPPPPPP/RNBQKBNR";

#[test]
fn new_board_is_the_start_position() {
    let board = Board::new();
    assert_eq!(board.get_fen(), START);
    assert_eq!(board.get_pty(), 0);
    assert_eq!(*board.get_state(), GameState::Normal);
    assert_eq!(board.get_pieces_on_field(), 32);
    assert!(board.get_all_made_turns().is_empty());
    assert_eq!(board.get_field()[95], 15);
    assert_eq!(board.get_field()[25], 25);
    assert_eq!(board.get_field()[0], -11);
}

#[test]
fn start_position_has_twenty_moves_per_side() {
    let board = Board::new();
    assert_eq!(board.generate_moves_list(true).len(), 40);
    assert_eq!(board.generate_moves_list(false).len(), 40);
    assert_eq!(board.get_complexity(), 4);
}

#[test]
fn knight_moves_are_listed_from_their_cell() {
    let board = Board::new();
    let moves = board.generate_moves_list(true);
    let pairs: Vec<(usize, usize)> = moves.chunks(2).map(|p| (p[0], p[1])).collect();
    assert!(pairs.contains(&(92, 71)));
    assert!(pairs.contains(&(92, 73)));
    assert!(pairs.contains(&(97, 76)));
    assert!(pairs.contains(&(97, 78)));
    assert!(pairs.contains(&(85, 65)));
    assert!(!pairs.contains(&(95, 97)));
}

#[test]
fn do_turn_moves_the_piece_and_records_it() {
    let mut board = Board::new();
    board.do_turn(&turn(85, 65, 0));
    assert_eq!(board.get_field()[65], 10);
    assert_eq!(board.get_field()[85], 0);
    assert_eq!(board.get_pty(), 1);
    assert_eq!(board.get_all_made_turns().len(), 1);
    assert_eq!(board.get_last_turn().from, 85);
    assert_eq!(board.get_last_turn().to, 65);
    assert_eq!(board.get_fen(), "rnbqkbnr/pppppppp/8/8/4P3/8/PPPP1PPP/RNBQKBNR");
}

#[test]
fn undo_turn_restores_the_board() {
    let start = Board::new();
    let mut board = Board::new();
    let t = turn(97, 76, 0);
    board.do_turn(&t);
    assert!(board != start);
    board.do_undo_turn(&t);
    assert!(board == start);
    assert_eq!(board.get_pty(), 0);
    assert!(board.get_all_made_turns().is_empty());
    assert_eq!(board.get_fen(), START);
}

#[test]
fn undo_of_a_capture_puts_the_piece_back() {
    let mut board = Board::new();
    board.set_fen("4k3/8/8/3p4/4P3/8/8/4K3 w - - 0 1");
    let before = board.get_fen();
    let t = turn(65, 54, 20);
    board.do_turn(&t);
    assert_eq!(board.get_field()[54], 10);
    board.do_undo_turn(&t);
    assert_eq!(board.get_fen(), before);
    assert_eq!(board.get_field()[54], 20);
}

#[test]
fn castling_moves_the_rook_and_undo_brings_it_back() {
    let mut board = Board::new();
    board.set_fen("r3k2r/8/8/8/8/8/8/R3K2R w KQkq - 0 1");
    let t = turn(95, 97, 0);
    board.do_turn(&t);
    assert_eq!(board.get_field()[97], 15);
    assert_eq!(board.get_field()[96], 11);
    assert_eq!(board.get_field()[98], 0);
    board.do_undo_turn(&t);
    assert_eq!(board.get_fen(), "r3k2r/8/8/8/8/8/8/R3K2R");
}

#[test]
fn promotion_makes_a_queen_and_undo_a_pawn() {
    let mut board = Board::new();
    board.set_fen("4k3/P7/8/8/8/8/8/4K3 w - - 0 1");
    let mut t = turn(31, 21, 0);
    t.enrich_promotion_move(&board, true);
    assert!(t.is_promotion());
    assert_eq!(t.to_algebraic(true), "a7a8q");
    assert_eq!(t.to_algebraic(false), "a7a8");
    board.do_turn(&t);
    assert_eq!(board.get_field()[21], 14);
    board.do_undo_turn(&t);
    assert_eq!(board.get_field()[31], 10);
    assert_eq!(board.get_field()[21], 0);
}

#[test]
fn long_algebraic_names_the_figure() {
    let mut board = Board::new();
    assert_eq!(board.do_turn_and_return_long_algebraic(&turn(97, 76, 0)), "Ng1f3");
    assert_eq!(board.do_turn_and_return_long_algebraic(&turn(35, 55, 0)), "e7e5");
    assert_eq!(board.get_pty(), 2);
}

#[test]
fn turn_list_of_the_start_position() {
    let mut board = Board::new();
    let turns = board.get_turn_list(true, false);
    assert_eq!(turns.len(), 20);
    for t in &turns {
        assert!(!t.post_my.is_empty());
        assert!(!t.post_villain.is_empty());
        assert_eq!(t.capture, 0);
    }
    assert_eq!(board.get_fen(), START);
    assert_eq!(board.get_pty(), 0);
    assert!(board.get_all_made_turns().is_empty());
    assert_eq!(*board.get_state(), GameState::Normal);
}

#[test]
fn replies_of_e2e4_are_black_moves() {
    let mut board = Board::new();
    let turns = board.get_turn_list(true, false);
    let e4 = turns.iter().find(|t| t.from == 85 && t.to == 65).unwrap();
    assert_eq!(e4.post_villain.len(), 40);
    assert_eq!(e4.post_my.len(), 2 * 30);
}

#[test]
fn only_captures_without_captures_draws() {
    let mut board = Board::new();
    let turns = board.get_turn_list(true, true);
    assert!(turns.is_empty());
    assert_eq!(*board.get_state(), GameState::Draw);
}

#[test]
fn fools_mate_is_a_win_for_black() {
    let mut board = Board::new();
    board.set_fen("rnb1kbnr/pppp1ppp/8/4p3/6Pq/5P2/PPPPP2P/RNBQKBNR w KQkq - 1 3");
    let turns = board.get_turn_list(true, false);
    assert!(turns.is_empty());
    assert_eq!(*board.get_state(), GameState::BlackWin);
}

#[test]
fn stalemate_is_a_draw() {
    let mut board = Board::new();
    board.set_fen("7k/5Q2/6K1/8/8/8/8/8 b - - 0 1");
    let turns = board.get_turn_list(false, false);
    assert!(turns.is_empty());
    assert_eq!(*board.get_state(), GameState::Draw);
}

#[test]
fn a_pinned_piece_may_not_leave_the_line() {
    let mut board = Board::new();
    board.set_fen("4r2k/8/8/8/8/8/4B3/4K3 w - - 0 1");
    let turns = board.get_turn_list(true, false);
    assert!(turns.iter().all(|t| t.from != 85));
    assert!(turns.iter().any(|t| t.from == 95));
}

#[test]
fn castling_through_an_attacked_cell_is_dropped() {
    let mut board = Board::new();
    board.set_fen("5r1k/8/8/8/8/8/8/4K2R w K - 0 1");
    let turns = board.get_turn_list(true, false);
    assert!(turns.iter().all(|t| !(t.from == 95 && t.to == 97)));
    board.set_fen("7k/8/8/8/8/8/8/4K2R w K - 0 1");
    let turns = board.get_turn_list(true, false);
    assert!(turns.iter().any(|t| t.from == 95 && t.to == 97));
}

#[test]
fn third_repetition_draws() {
    let mut board = Board::new();
    board.add_position_for_3_move_repetition_check(START.to_string());
    board.add_position_for_3_move_repetition_check(START.to_string());
    let _ = board.get_turn_list(true, false);
    assert_eq!(*board.get_state(), GameState::Normal);
    board.add_position_for_3_move_repetition_check(START.to_string());
    let turns = board.get_turn_list(true, false);
    assert_eq!(turns.len(), 20);
    assert_eq!(*board.get_state(), GameState::Draw);
}

#[test]
fn set_fen_and_get_fen_agree() {
    let mut board = Board::new();
    for fen in [
        "8/8/8/8/8/8/8/8",
        "4k3/8/8/8/8/8/8/4K3",
        "r1bqkbnr/pppp1ppp/2n5/4p3/4P3/5N2/PPPP1PPP/RNBQKB1R",
        START,
    ] {
        board.set_fen(&format!("{} w - - 0 1", fen));
        assert_eq!(board.get_fen(), fen);
    }
}

#[test]
fn set_fen_ignores_unknown_letters() {
    let mut board = Board::new();
    board.set_fen("x7/8/8/8/8/8/8/7K");
    assert_eq!(board.get_field()[21], 0);
    assert_eq!(board.get_field()[98], 15);
    assert_eq!(board.get_pieces_on_field(), 1);
}

#[test]
fn clear_field_removes_all_pieces() {
    let mut board = Board::new();
    board.clear_field();
    assert_eq!(board.get_pieces_on_field(), 0);
    assert_eq!(board.get_fen(), "8/8/8/8/8/8/8/8");
    assert_eq!(board.get_field()[10], -11);
}

#[test]
fn set_field_index_and_state() {
    let mut board = Board::new();
    board.set_field_index(55, 14);
    assert_eq!(board.get_field()[55], 14);
    assert!(board.is_white_field(55));
    assert!(!board.is_white_field(25));
    board.set_state(GameState::WhiteWinByTime);
    assert_eq!(*board.get_state(), GameState::WhiteWinByTime);
}

#[test]
fn piece_letters() {
    let board = Board::new();
    assert_eq!(board.get_piece_for_field(91), "R");
    assert_eq!(board.get_piece_for_field(92), "N");
    assert_eq!(board.get_piece_for_field(93), "B");
    assert_eq!(board.get_piece_for_field(94), "Q");
    assert_eq!(board.get_piece_for_field(95), "K");
    assert_eq!(board.get_piece_for_field(85), "");
    assert_eq!(board.get_piece_for_field(55), "");
    assert_eq!(board.get_piece_for_field(25), "K");
}

#[test]
fn square_names_to_cells() {
    assert_eq!(get_index_from_notation("e2"), Some(85));
    assert_eq!(get_index_from_notation("a8"), Some(21));
    assert_eq!(get_index_from_notation("h1"), Some(98));
    assert_eq!(get_index_from_notation("i1"), None);
    assert_eq!(get_index_from_notation("e9"), None);
    assert_eq!(get_index_from_notation("e0"), None);
    assert_eq!(get_index_from_notation("ex"), None);
    assert_eq!(get_index_from_notation("e"), None);
    assert_eq!(get_index_from_notation("e22"), None);
}

#[test]
fn validate_turn_accepts_playable_turns_and_changes_nothing() {
    let board = Board::new();
    let before = *board.get_field();
    board.validate_turn(&turn(85, 65, 0));
    board.validate_turn(&turn(91, 81, 10));
    board.validate_turn(&turn(85, 65, -1));
    assert_eq!(*board.get_field(), before);
}

#[test]
fn reading_back_a_written_fen_restores_the_board() {
    let mut played = Board::new();
    played.do_turn(&turn(85, 65, 0));
    played.do_turn(&turn(32, 42, 0));
    played.do_turn(&turn(97, 76, 0));
    let fen = played.get_fen();
    let mut copy = Board::new();
    copy.set_fen(&fen);
    assert!(copy == played);
    assert_eq!(copy.get_field(), played.get_field());
}

#[test]
fn a_placement_read_is_written_back_unchanged() {
    for placement in [
        "r1bqk2r/pppp1ppp/2n2n2/2b1p3/2B1P3/3P1N2/PPP2PPP/RNBQK2R",
        "8/8/8/8/8/8/8/8",
        "7k/P7/1p6/2N5/3q4/4B3/5r2/K7",
        START,
    ] {
        for rest in ["", " w KQkq - 0 1", " b - e3 4 12"] {
            let mut board = Board::new();
            board.set_fen(&format!("{}{}", placement, rest));
            assert_eq!(board.get_fen(), placement);
        }
    }
}
