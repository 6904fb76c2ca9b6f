use go_game_engine::board::{ChessType, Location};
use go_game_engine::go_board::{GoBoard, MoveError};
use go_game_engine::liberty::GoBoardLiberty;

fn at(alphabet: u8, digit: u8) -> Location {
    Location { alphabet, digit }
}

fn place(board: &mut GoBoard, color: ChessType, alphabet: u8, digit: u8) {
    assert!(board.make_move(color, at(alphabet, digit)).is_ok());
}

#[test]
fn lib_it_works() {
    assert_eq!(2 + 2, 4);
}

#[test]
fn board_it_works() {
    assert_eq!(2 + 2, 4);
}

#[test]
fn location_new_and_set() {
    let mut l = Location::new();
    assert_eq!(l, at(0, 0));
    l.set(0, 5);
    l.set(1, 7);
    assert_eq!(l, at(5, 7));
}

#[test]
fn neighbors_respect_edges() {
    let board = GoBoard::new(9);
    assert_eq!(board.neighbors(&at(0, 0)).len(), 2);
    assert_eq!(board.neighbors(&at(0, 4)).len(), 3);
    assert_eq!(board.neighbors(&at(4, 4)).len(), 4);
    assert_eq!(board.neighbors(&at(8, 8)).len(), 2);
}

#[test]
fn occupied_point_is_refused_and_board_kept() {
    let mut board = GoBoard::new(9);
    place(&mut board, ChessType::Black, 3, 3);
    let before = board.cells.clone();
    match board.make_move(ChessType::White, at(3, 3)) {
        Err(e) => assert_eq!(e, MoveError::Occupied(at(3, 3))),
        Ok(_) => panic!("a stone was placed on a stone"),
    }
    assert_eq!(board.cells, before);
}

#[test]
fn empty_color_is_refused() {
    let mut board = GoBoard::new(9);
    match board.make_move(ChessType::Empty, at(2, 2)) {
        Err(e) => assert_eq!(e, MoveError::NoStone),
        Ok(_) => panic!("an empty color was placed"),
    }
    assert_eq!(board.get(&at(2, 2)), ChessType::Empty);
}

#[test]
fn suicide_is_refused_and_board_kept() {
    let mut board = GoBoard::new(9);
    place(&mut board, ChessType::Black, 0, 1);
    place(&mut board, ChessType::Black, 1, 0);
    let before = board.cells.clone();
    match board.make_move(ChessType::White, at(0, 0)) {
        Err(e) => assert_eq!(e, MoveError::Suicide(at(0, 0))),
        Ok(_) => panic!("a suicide was accepted"),
    }
    assert_eq!(board.cells, before);
}

#[test]
fn capture_takes_the_whole_group_only() {
    let mut board = GoBoard::new(9);
    place(&mut board, ChessType::White, 1, 1);
    place(&mut board, ChessType::White, 2, 1);
    place(&mut board, ChessType::White, 6, 6);
    for (a, d) in [(0, 1), (3, 1), (1, 0), (2, 0), (1, 2)] {
        place(&mut board, ChessType::Black, a, d);
    }
    let change = board.make_move(ChessType::Black, at(2, 2)).ok().unwrap();
    let mut removed = change.remove.clone();
    removed.sort_by_key(|l| (l.alphabet, l.digit));
    assert_eq!(removed, vec![at(1, 1), at(2, 1)]);
    assert_eq!(board.get(&at(1, 1)), ChessType::Empty);
    assert_eq!(board.get(&at(2, 1)), ChessType::Empty);
    assert_eq!(board.get(&at(6, 6)), ChessType::White);
    assert_eq!(board.get(&at(2, 2)), ChessType::Black);
}

#[test]
fn move_then_reverse_restores_board() {
    let mut board = GoBoard::new(9);
    place(&mut board, ChessType::White, 1, 1);
    for (a, d) in [(0, 1), (2, 1), (1, 0)] {
        place(&mut board, ChessType::Black, a, d);
    }
    let before = board.cells.clone();
    let change = board.make_move(ChessType::Black, at(1, 2)).ok().unwrap();
    assert_eq!(change.remove, vec![at(1, 1)]);
    assert_ne!(board.cells, before);
    board.reverse_change(&change);
    assert_eq!(board.cells, before);
}

#[test]
fn capture_allowed_even_when_own_stone_has_no_liberty() {
    let mut board = GoBoard::new(5);
    for (a, d) in [(1, 0), (0, 1)] {
        place(&mut board, ChessType::White, a, d);
    }
    for (a, d) in [(2, 0), (1, 1), (0, 2)] {
        place(&mut board, ChessType::Black, a, d);
    }
    let change = board.make_move(ChessType::Black, at(0, 0));
    let change = change.ok().unwrap();
    assert_eq!(change.remove.len(), 2);
    assert_eq!(board.get(&at(0, 0)), ChessType::Black);
}

#[test]
fn deads_lists_stones_without_liberty() {
    let mut board = GoBoard::new(5);
    board.set(&at(0, 0), ChessType::White);
    board.set(&at(1, 0), ChessType::Black);
    board.set(&at(0, 1), ChessType::Black);
    let (black, white) = GoBoardLiberty::get_deads(&board);
    assert!(black.is_empty());
    assert_eq!(white, vec![at(0, 0)]);
    let marks = GoBoardLiberty::make(&board);
    assert!(!marks.get(&at(0, 0)));
    assert!(marks.get(&at(1, 0)));
}
