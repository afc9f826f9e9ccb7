use ahc_solvers::judge::{OutputError, ScoreIssue};
use ahc_solvers::messages::push_decimal;
use ahc_solvers::territory::{LineError, MoveError};

#[test]
fn decimal_texts() {
    for v in [0usize, 7, 10, 99, 1234567, usize::MAX] {
        let mut s = String::from("x");
        push_decimal(&mut s, v);
        assert_eq!(s, format!("x{}", v));
    }
}

#[test]
fn output_error_messages() {
    assert_eq!(OutputError::UnexpectedEof.message(), "Unexpected EOF");
    assert_eq!(OutputError::ParseError(b"ab".to_vec()).message(), "Parse error: ab");
    assert_eq!(OutputError::ParseError(vec![0xff]).message(), "Parse error: \u{fffd}");
    assert_eq!(OutputError::OutOfRange(42).message(), "Out of range: 42");
    assert_eq!(OutputError::TooManyOutputs.message(), "Too many outputs");
}

#[test]
fn score_issue_messages() {
    assert_eq!(ScoreIssue::DuplicateMove { turn: 3, i: 1, j: 2 }.message(), "Duplicate move at turn 3: (1, 2)");
    assert_eq!(
        ScoreIssue::InvalidMove { turn: 5, pi: 0, pj: 0, i: 2, j: 2 }.message(),
        "Invalid move at turn 5: (0, 0) -> (2, 2)"
    );
    assert_eq!(ScoreIssue::NotFinished.message(), "Not finished");
}

#[test]
fn move_and_line_messages() {
    assert_eq!(
        MoveError::OutOfBounds { player: 0, x: 10, y: 3 }.message(),
        "Player 0 attempted to move to out-of-bounds position (10, 3)"
    );
    assert_eq!(
        MoveError::InvalidMove { player: 1, from_x: 2, from_y: 3, x: 4, y: 5 }.message(),
        "Player 1 attempted invalid move from (2, 3) to (4, 5)."
    );
    assert_eq!(LineError::TooManyTokens(b"1 2 3".to_vec()).message(), "Too many tokens in line: 1 2 3");
    assert_eq!(LineError::Read(OutputError::OutOfRange(9)).message(), "Out of range: 9");
}
