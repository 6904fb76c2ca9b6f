use go_game_engine::board::{ChessType, Location};
use go_game_engine::go_board::MoveError;
use go_game_engine::tree::Tree;
use go_game_engine::{GameStatus, GoGameEngine, Player};

fn at(alphabet: u8, digit: u8) -> Location {
    Location { alphabet, digit }
}

fn play(game: &mut GoGameEngine, alphabet: u8, digit: u8) {
    assert!(game.make_move(at(alphabet, digit)).is_ok());
}

#[test]
fn test_command() {}

#[test]
fn pass_after_move_then_pass_starts_scoring() {
    let mut game = GoGameEngine::new(19, 65);
    play(&mut game, 3, 3);
    play(&mut game, 3, 4);
    play(&mut game, 4, 3);
    game.pass();
    assert_eq!(game.get_status(), GameStatus::Playing);
    game.pass();
    assert_eq!(game.get_status(), GameStatus::Scoring);
}

#[test]
fn surrounded_stone_is_captured() {
    let mut game = GoGameEngine::new(19, 65);
    play(&mut game, 0, 1);
    play(&mut game, 1, 1);
    play(&mut game, 2, 1);
    play(&mut game, 10, 10);
    play(&mut game, 1, 0);
    play(&mut game, 12, 12);
    assert_eq!(game.get_capture(&Player::Black), 0);
    play(&mut game, 1, 2);
    assert_eq!(game.get_capture(&Player::Black), 1);
    assert_eq!(game.get_chess(at(1, 1)), ChessType::Empty);
    assert_eq!(game.get_capture(&Player::White), 0);
}

#[test]
fn regret_at_root_changes_nothing() {
    let mut game = GoGameEngine::new(9, 65);
    game.regret();
    assert_eq!(game.steps(), 0);
    assert_eq!(game.player(), Player::Black);
    assert_eq!(game.get_status(), GameStatus::Playing);
}

#[test]
fn regret_undoes_a_capture() {
    let mut game = GoGameEngine::new(9, 65);
    play(&mut game, 0, 1);
    play(&mut game, 1, 1);
    play(&mut game, 2, 1);
    play(&mut game, 7, 7);
    play(&mut game, 1, 0);
    play(&mut game, 7, 6);
    play(&mut game, 1, 2);
    assert_eq!(game.get_capture(&Player::Black), 1);
    assert_eq!(game.steps(), 7);
    game.regret();
    assert_eq!(game.get_chess(at(1, 1)), ChessType::White);
    assert_eq!(game.get_chess(at(1, 2)), ChessType::Empty);
    assert_eq!(game.get_capture(&Player::Black), 0);
    assert_eq!(game.steps(), 6);
    assert_eq!(game.player(), Player::Black);
}

#[test]
fn third_pass_has_no_effect() {
    let mut game = GoGameEngine::new(9, 65);
    play(&mut game, 4, 4);
    game.pass();
    assert_eq!(game.get_status(), GameStatus::Playing);
    assert_eq!(game.steps(), 2);
    game.pass();
    assert_eq!(game.get_status(), GameStatus::Scoring);
    game.pass();
    assert_eq!(game.get_status(), GameStatus::Scoring);
    assert_eq!(game.steps(), 2);
}

#[test]
fn pass_at_start_scores_at_once() {
    let mut game = GoGameEngine::new(9, 65);
    game.pass();
    assert_eq!(game.get_status(), GameStatus::Scoring);
    assert_eq!(game.steps(), 0);
}

#[test]
fn moves_are_ignored_while_scoring() {
    let mut game = GoGameEngine::new(9, 65);
    game.pass();
    assert!(game.make_move(at(2, 2)).is_ok());
    assert_eq!(game.get_chess(at(2, 2)), ChessType::Empty);
    game.regret();
    assert_eq!(game.get_status(), GameStatus::Playing);
}

#[test]
fn occupied_move_keeps_turn() {
    let mut game = GoGameEngine::new(9, 65);
    play(&mut game, 2, 2);
    match game.make_move(at(2, 2)) {
        Err(e) => assert_eq!(e, MoveError::Occupied(at(2, 2))),
        Ok(_) => panic!("occupied point accepted"),
    }
    assert_eq!(game.player(), Player::White);
    assert_eq!(game.steps(), 1);
}

#[test]
fn toggle_flips_group_and_back() {
    let mut game = GoGameEngine::new(5, 65);
    play(&mut game, 1, 1);
    play(&mut game, 3, 3);
    play(&mut game, 1, 2);
    game.pass();
    game.pass();
    assert_eq!(game.get_status(), GameStatus::Scoring);
    game.toggle(at(0, 0));
    assert!(game.is_alive(at(1, 1)) && game.is_alive(at(1, 2)) && game.is_alive(at(3, 3)));
    game.toggle(at(1, 1));
    assert!(!game.is_alive(at(1, 1)));
    assert!(!game.is_alive(at(1, 2)));
    assert!(game.is_alive(at(3, 3)));
    assert_eq!(game.get_capture(&Player::White), 2);
    game.toggle(at(1, 2));
    assert!(game.is_alive(at(1, 1)) && game.is_alive(at(1, 2)));
    assert_eq!(game.get_capture(&Player::White), 0);
}

#[test]
fn score_counts_area_captures_and_komi() {
    let mut game = GoGameEngine::new(3, 65);
    play(&mut game, 1, 1);
    game.pass();
    game.pass();
    assert_eq!(game.get_belong(at(0, 0)), Some(Player::Black));
    assert_eq!(game.get_belong(at(1, 1)), None);
    assert_eq!(game.get_score(), (80, 65));
    game.toggle(at(1, 1));
    assert_eq!(game.get_belong(at(0, 0)), None);
    assert_eq!(game.get_capture(&Player::White), 1);
    assert_eq!(game.get_score(), (-10, 65));
}

#[test]
fn shared_points_belong_to_nobody() {
    let mut game = GoGameEngine::new(3, 0);
    play(&mut game, 0, 0);
    play(&mut game, 2, 2);
    game.pass();
    game.pass();
    assert_eq!(game.get_belong(at(1, 1)), None);
    assert_eq!(game.get_score(), (0, 0));
}

#[test]
fn score_is_zero_while_playing() {
    let mut game = GoGameEngine::new(9, 65);
    play(&mut game, 4, 4);
    assert_eq!(game.get_score(), (0, 0));
    assert_eq!(game.get_belong(at(0, 0)), None);
    assert!(game.is_alive(at(4, 4)));
}

#[test]
fn record_lists_moves_and_passes() {
    let mut game = GoGameEngine::new(19, 65);
    play(&mut game, 3, 3);
    game.pass();
    play(&mut game, 15, 16);
    assert_eq!(
        game.to_sgf(),
        "(;GM[1]FF[4]CA[UTF-8]AP[TGoBan:0.0.1]RU[Japanese]KM[6.5];B[dp]\n;W[]\n;B[pc]\n)"
    );
}

#[test]
fn record_writes_komi_like_a_decimal() {
    assert_eq!(GoGameEngine::new(9, 70).to_sgf(), "(;GM[1]FF[4]CA[UTF-8]AP[TGoBan:0.0.1]RU[Japanese]KM[7])");
    assert_eq!(GoGameEngine::new(9, -5).to_sgf(), "(;GM[1]FF[4]CA[UTF-8]AP[TGoBan:0.0.1]RU[Japanese]KM[-0.5])");
    assert_eq!(GoGameEngine::new(9, 125).to_sgf(), "(;GM[1]FF[4]CA[UTF-8]AP[TGoBan:0.0.1]RU[Japanese]KM[12.5])");
}

#[test]
fn accessors_report_setup() {
    let mut game = GoGameEngine::new(13, 75);
    assert_eq!(game.size(), 13);
    assert_eq!(game.komi(), 75);
    assert_eq!(game.getPlayAs(), None);
    game.setPlayAs(Player::White);
    assert_eq!(game.getPlayAs(), Some(Player::White));
    assert_eq!(Player::Black.switch(), Player::White);
}

#[test]
fn tree_grows_and_removes_head() {
    let mut tree = Tree::new(1u32);
    assert!(tree.remove_head().is_none());
    tree.grow(2);
    tree.grow(3);
    assert_eq!(*tree.access_head(), 3);
    assert_eq!(tree.remove_head(), Some(3));
    assert_eq!(*tree.access_head(), 2);
    assert_eq!(tree.preorder(), vec![&1, &2]);
}

#[test]
fn toggle_on_empty_point_keeps_scoring_state() {
    let mut game = GoGameEngine::new(5, 65);
    play(&mut game, 1, 1);
    game.pass();
    game.pass();
    let score = game.get_score();
    let owner = game.get_belong(at(4, 4));
    game.toggle(at(4, 4));
    assert_eq!(game.get_score(), score);
    assert_eq!(game.get_belong(at(4, 4)), owner);
    assert!(game.is_alive(at(1, 1)));
}

#[test]
fn toggle_twice_restores_ownership_and_score() {
    let mut game = GoGameEngine::new(5, 65);
    play(&mut game, 1, 1);
    play(&mut game, 3, 3);
    game.pass();
    game.pass();
    let score = game.get_score();
    let owners: Vec<_> = (0..5).flat_map(|a| (0..5).map(move |d| (a, d))).map(|(a, d)| game.get_belong(at(a, d))).collect();
    game.toggle(at(3, 3));
    assert_ne!(game.get_score(), score);
    game.toggle(at(3, 3));
    assert_eq!(game.get_score(), score);
    let again: Vec<_> = (0..5).flat_map(|a| (0..5).map(move |d| (a, d))).map(|(a, d)| game.get_belong(at(a, d))).collect();
    assert_eq!(again, owners);
}

#[test]
fn undo_from_scoring_removes_the_pass() {
    let mut game = GoGameEngine::new(9, 65);
    play(&mut game, 2, 2);
    game.pass();
    game.pass();
    assert_eq!(game.get_status(), GameStatus::Scoring);
    assert_eq!(game.steps(), 2);
    game.regret();
    assert_eq!(game.get_status(), GameStatus::Playing);
    assert_eq!(game.steps(), 1);
    assert_eq!(game.get_chess(at(2, 2)), ChessType::Black);
    assert_eq!(game.get_belong(at(0, 0)), None);
    assert_eq!(game.get_score(), (0, 0));
    assert_eq!(game.player(), Player::White);
}
