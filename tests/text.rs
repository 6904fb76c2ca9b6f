use go_game_engine::board::{ChessType, Location};
use go_game_engine::coord::{parse_location, ParseTwoIntError};
use go_game_engine::go_board::GoBoard;
use go_game_engine::GoGameEngine;

fn at(alphabet: u8, digit: u8) -> Location {
    Location { alphabet, digit }
}

#[test]
fn parse_reads_letter_and_row() {
    assert_eq!(parse_location(b"D 4"), Ok(at(3, 3)));
    assert_eq!(parse_location(b"  A   1 "), Ok(at(0, 0)));
    assert_eq!(parse_location(b"J +10"), Ok(at(9, 9)));
    assert_eq!(parse_location(b"T 019"), Ok(at(19, 18)));
}

#[test]
fn parse_refuses_malformed_lines() {
    for line in [&b""[..], b"D", b"D 4 5", b"I 3", b"d 4", b"DD 4", b"D x", b"D 256", b"D 0", b"D -1", b"D +"] {
        assert_eq!(parse_location(line), Err(ParseTwoIntError {}));
    }
}

#[test]
fn board_text_draws_top_row_first() {
    let mut board = GoBoard::new(3);
    board.set(&at(0, 2), ChessType::Black);
    board.set(&at(2, 0), ChessType::White);
    assert_eq!(board.to_text(), "X..\n...\n..O\n");
}

#[test]
fn game_text_shows_step_and_player() {
    let mut game = GoGameEngine::new(3, 65);
    assert!(game.make_move(at(1, 1)).is_ok());
    assert_eq!(game.to_text(), "\tSteps: 2\n\tPlayer : O\n...\n.X.\n...\n");
}
