use minesweeper::board::GameError;
use minesweeper::command::{parse_command, Action, Command};

#[test]
fn parses_reveal_and_flag() {
    assert_eq!(
        parse_command(b"r 1 2"),
        Ok(Command { action: Action::Reveal, x: 1, y: 2 })
    );
    assert_eq!(
        parse_command(b"  f  3\t40 \r\n"),
        Ok(Command { action: Action::Flag, x: 3, y: 40 })
    );
    assert_eq!(
        parse_command(b"r +5 0"),
        Ok(Command { action: Action::Reveal, x: 5, y: 0 })
    );
}

#[test]
fn parses_largest_coordinate() {
    let line = format!("f {} 0", usize::MAX);
    assert_eq!(
        parse_command(line.as_bytes()),
        Ok(Command { action: Action::Flag, x: usize::MAX, y: 0 })
    );
}

#[test]
fn wrong_word_count_is_format_error() {
    assert_eq!(parse_command(b""), Err(GameError::InvalidCommandFormat));
    assert_eq!(parse_command(b"r 1"), Err(GameError::InvalidCommandFormat));
    assert_eq!(parse_command(b"r 1 2 3"), Err(GameError::InvalidCommandFormat));
}

#[test]
fn bad_coordinate_is_format_error() {
    assert_eq!(parse_command(b"r a 2"), Err(GameError::InvalidCommandFormat));
    assert_eq!(parse_command(b"r 1 -2"), Err(GameError::InvalidCommandFormat));
    assert_eq!(parse_command(b"r + 2"), Err(GameError::InvalidCommandFormat));
    assert_eq!(
        parse_command(b"r 99999999999999999999999 0"),
        Err(GameError::InvalidCommandFormat)
    );
    assert_eq!(parse_command(b"x a 2"), Err(GameError::InvalidCommandFormat));
}

#[test]
fn other_command_word_is_unknown() {
    assert_eq!(parse_command(b"x 1 2"), Err(GameError::UnknownCommand));
    assert_eq!(parse_command(b"reveal 1 2"), Err(GameError::UnknownCommand));
    assert_eq!(parse_command(b"R 1 2"), Err(GameError::UnknownCommand));
}
