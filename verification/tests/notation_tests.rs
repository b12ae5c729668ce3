use matt_magie::fen_service::FenService;
use matt_magie::model::{Turn, UciGame};
use matt_magie::notation_util::NotationUtil;

#[test]
fn square_names() {
    assert_eq!(NotationUtil::get_index_from_notation_field("e2"), 85);
    assert_eq!(NotationUtil::get_index_from_notation_field("a8"), 21);
    assert_eq!(NotationUtil::get_index_from_notation_field("h1"), 98);
    assert_eq!(NotationUtil::get_index_from_notation_field("z1"), 89);
    assert_eq!(NotationUtil::get_index_from_notation_field("ax"), 101);
}

#[test]
fn move_notation_is_checked() {
    assert!(NotationUtil::is_valid_move_notation("e2e4"));
    assert!(NotationUtil::is_valid_move_notation("e7e8q"));
    assert!(NotationUtil::is_valid_move_notation("a2a1r"));
    assert!(!NotationUtil::is_valid_move_notation("e2e9"));
    assert!(!NotationUtil::is_valid_move_notation("i2e4"));
    assert!(!NotationUtil::is_valid_move_notation("e2e4x"));
    assert!(!NotationUtil::is_valid_move_notation("e2e4qq"));
    assert!(!NotationUtil::is_valid_move_notation("e2e"));
    assert!(!NotationUtil::is_valid_move_notation(""));
    assert!(!NotationUtil::is_valid_move_notation(" e2e4"));
}

#[test]
fn turns_from_notation() {
    assert_eq!(NotationUtil::get_turn_from_notation("e2e4"), Turn::new(85, 65, 0, 0, 0, false));
    assert_eq!(NotationUtil::get_turn_from_notation("e7e8q").promotion, 14);
    assert_eq!(NotationUtil::get_turn_from_notation("e7e8n").promotion, 12);
    assert_eq!(NotationUtil::get_turn_from_notation("e7e8r").promotion, 14);
    assert_eq!(NotationUtil::get_turn_from_notation("e2e1n").promotion, 22);
    assert_eq!(NotationUtil::get_turn_from_notation("e2e1q").promotion, 24);
    assert_eq!(NotationUtil::get_turn_from_notation("e2e3q").promotion, 0);
    let t = NotationUtil::get_turn_from_notation("b7a8q");
    assert_eq!((t.from, t.to), (32, 21));
}

#[test]
fn turns_from_a_list() {
    let list = vec![
        Turn::new(85, 65, 0, 0, 3, false),
        Turn::new(31, 21, 0, 12, 1, false),
        Turn::new(31, 21, 0, 14, 2, true),
        Turn::new(38, 98, 0, 24, 4, false),
    ];
    assert_eq!(NotationUtil::get_turn_from_list(&list, "e2e4"), list[0]);
    assert_eq!(NotationUtil::get_turn_from_list(&list, "a7a8q"), list[2]);
    assert_eq!(NotationUtil::get_turn_from_list(&list, "a7a8n"), list[1]);
    assert_eq!(NotationUtil::get_turn_from_list(&list, "h7h1q"), list[3]);
}

#[test]
fn long_algebraic_uses_the_figure_on_the_target() {
    let mut game = UciGame::new(FenService.set_init_board());
    assert_eq!(NotationUtil::get_long_algebraic("g1f3", &game.board), "g1f3");
    game.do_move("g1f3");
    assert_eq!(NotationUtil::get_long_algebraic("g1f3", &game.board), "Ng1f3");
    game.do_move("e7e5");
    assert_eq!(NotationUtil::get_long_algebraic("e7e5", &game.board), "e7e5");
}

#[test]
fn printed_turns_read_back_unchanged() {
    for (from, to, promotion) in [
        (85, 65, 0),
        (31, 21, 12),
        (31, 21, 14),
        (82, 91, 22),
        (88, 98, 24),
        (22, 33, 0),
    ] {
        let t = Turn::new(from, to, 0, promotion, 0, false);
        let text = t.to_algebraic();
        assert!(NotationUtil::is_valid_move_notation(&text));
        let u = NotationUtil::get_turn_from_notation(&text);
        assert_eq!((u.from, u.to, u.promotion), (from, to, promotion), "{}", text);
    }
    assert_eq!(Turn::new(82, 91, 0, 22, 0, false).to_algebraic(), "b2a1n");
}
