use ahc_solvers::judge::OutputError;
use ahc_solvers::territory::{
    final_scores, get_candidates, is_occupied_by_other, is_valid_move, parse_move_line, player_scores,
    update_state, Input, LineError, MoveError, ScoreError, State,
};

fn board(xy: Vec<(usize, usize)>, u: usize) -> Input {
    Input {
        n: 3,
        m: xy.len(),
        t: 5,
        u,
        v: vec![vec![1, 2, 3], vec![4, 5, 6], vec![7, 8, 9]],
        xy,
    }
}

#[test]
fn new_state_claims_start_cells() {
    let input = board(vec![(0, 0), (2, 2)], 2);
    let state = State::new(&input);
    assert_eq!(state.pos, vec![(0, 0), (2, 2)]);
    assert_eq!(state.selected, vec![(0, 0), (2, 2)]);
    assert_eq!(state.owner, vec![vec![0, -1, -1], vec![-1, -1, -1], vec![-1, -1, 1]]);
    assert_eq!(state.level, vec![vec![1, 0, 0], vec![0, 0, 0], vec![0, 0, 1]]);
}

#[test]
fn candidates_follow_owned_cells() {
    let input = board(vec![(0, 0), (2, 2)], 2);
    let state = State::new(&input);
    assert_eq!(get_candidates(&input, &state, 0), vec![(0, 0), (0, 1), (1, 0)]);
    assert_eq!(get_candidates(&input, &state, 1), vec![(2, 2), (2, 1), (1, 2)]);
    assert!(is_valid_move(&input, &state, 0, (0, 1)));
    assert!(is_valid_move(&input, &state, 0, (0, 0)));
    assert!(!is_valid_move(&input, &state, 0, (1, 1)));
    assert!(!is_valid_move(&input, &state, 0, (5, 5)));
}

#[test]
fn candidates_skip_other_pieces() {
    let input = board(vec![(0, 0), (0, 1)], 2);
    let state = State::new(&input);
    assert!(is_occupied_by_other(&state, 0, (0, 1)));
    assert!(!is_occupied_by_other(&state, 1, (0, 1)));
    assert_eq!(get_candidates(&input, &state, 0), vec![(0, 0), (1, 0)]);
    assert!(!is_valid_move(&input, &state, 0, (0, 1)));
}

#[test]
fn claiming_free_cells() {
    let input = board(vec![(0, 0), (2, 2)], 2);
    let state = State::new(&input);
    let next = update_state(&input, &state, &vec![(0, 1), (2, 1)]).unwrap();
    assert_eq!(next.pos, vec![(0, 1), (2, 1)]);
    assert_eq!(next.selected, vec![(0, 1), (2, 1)]);
    assert_eq!(next.owner, vec![vec![0, 0, -1], vec![-1, -1, -1], vec![-1, 1, 1]]);
    assert_eq!(next.level, vec![vec![1, 1, 0], vec![0, 0, 0], vec![0, 1, 1]]);
}

#[test]
fn strengthening_stops_at_u() {
    let input = board(vec![(0, 0), (2, 2)], 2);
    let state = State::new(&input);
    let once = update_state(&input, &state, &vec![(0, 0), (2, 2)]).unwrap();
    assert_eq!(once.level[0][0], 2);
    let twice = update_state(&input, &once, &vec![(0, 0), (2, 2)]).unwrap();
    assert_eq!(twice.level[0][0], 2);
    assert_eq!(twice.level[2][2], 2);
}

#[test]
fn collision_on_free_cell_sends_both_back() {
    let input = board(vec![(0, 0), (0, 2)], 2);
    let state = State::new(&input);
    let next = update_state(&input, &state, &vec![(0, 1), (0, 1)]).unwrap();
    assert_eq!(next.pos, vec![(0, 0), (0, 2)]);
    assert_eq!(next.owner, state.owner);
    assert_eq!(next.level, state.level);
    assert_eq!(next.selected, vec![(0, 1), (0, 1)]);
}

#[test]
fn attack_lowers_level_and_sends_back() {
    let input = board(vec![(0, 0), (0, 2)], 2);
    let state = State {
        pos: vec![(0, 0), (0, 2)],
        owner: vec![vec![0, 1, 1], vec![-1, -1, -1], vec![-1, -1, -1]],
        level: vec![vec![1, 2, 1], vec![0, 0, 0], vec![0, 0, 0]],
        selected: vec![(0, 0), (0, 2)],
    };
    let next = update_state(&input, &state, &vec![(0, 1), (0, 2)]).unwrap();
    assert_eq!(next.owner[0][1], 1);
    assert_eq!(next.level[0][1], 1);
    assert_eq!(next.level[0][2], 2);
    assert_eq!(next.pos, vec![(0, 0), (0, 2)]);
    // a second attack takes the cell over and the piece stays
    let after = update_state(&input, &next, &vec![(0, 1), (0, 2)]).unwrap();
    assert_eq!(after.owner[0][1], 0);
    assert_eq!(after.level[0][1], 1);
    assert_eq!(after.pos, vec![(0, 1), (0, 2)]);
}

#[test]
fn invalid_moves_are_reported_in_player_order() {
    let input = board(vec![(0, 0), (2, 2)], 2);
    let state = State::new(&input);
    assert_eq!(
        update_state(&input, &state, &vec![(5, 5), (7, 7)]).err(),
        Some(MoveError::OutOfBounds { player: 0, x: 5, y: 5 })
    );
    assert_eq!(
        update_state(&input, &state, &vec![(0, 0), (0, 0)]).err(),
        Some(MoveError::InvalidMove { player: 1, from_x: 2, from_y: 2, x: 0, y: 0 })
    );
}

#[test]
fn scores_weigh_value_by_level() {
    let input = board(vec![(0, 0), (2, 2)], 2);
    let state = State::new(&input);
    assert_eq!(player_scores(&input, &state), vec![1, 9]);
    let next = update_state(&input, &state, &vec![(0, 0), (2, 1)]).unwrap();
    // player 0: cell (0, 0) at level 2; player 1: 9 + 8
    assert_eq!(player_scores(&input, &next), vec![2, 17]);
    assert_eq!(final_scores(&input, &[state.clone(), next.clone()]), Err(ScoreError::TooFewMoves));
    let mut one_turn = input.clone();
    one_turn.t = 1;
    assert_eq!(final_scores(&one_turn, &[state, next]), Ok(vec![2, 17]));
}

#[test]
fn final_scores_errors() {
    let mut input = board(vec![(0, 0), (2, 2)], 2);
    assert_eq!(final_scores(&input, &[]), Err(ScoreError::EmptyOutput));
    input.t = 0;
    let s = State::new(&input);
    let s2 = State::new(&input);
    assert_eq!(final_scores(&input, &[s, s2]), Err(ScoreError::TooManyMoves));
}

#[test]
fn move_lines() {
    assert_eq!(parse_move_line(b"", 3), Ok(None));
    assert_eq!(parse_move_line(b"   \t", 3), Ok(None));
    assert_eq!(parse_move_line(b"  # 1 2", 3), Ok(None));
    assert_eq!(parse_move_line(b" 1 2 ", 3), Ok(Some((1, 2))));
    assert_eq!(parse_move_line(b"1", 3), Err(LineError::Read(OutputError::UnexpectedEof)));
    assert_eq!(parse_move_line(b" 1  9 ", 3), Err(LineError::Read(OutputError::OutOfRange(9))));
    assert_eq!(parse_move_line(b"a 1", 3), Err(LineError::Read(OutputError::ParseError(b"a".to_vec()))));
    assert_eq!(parse_move_line(b"  1 2 3 ", 3), Err(LineError::TooManyTokens(b"1 2 3".to_vec())));
}

#[test]
fn move_lines_with_unicode_whitespace() {
    assert_eq!(parse_move_line("\u{3000}1\u{a0}2\u{2028}".as_bytes(), 3), Ok(Some((1, 2))));
    assert_eq!(
        parse_move_line("\u{3000}1 2 3\u{a0}\u{85}".as_bytes(), 3),
        Err(LineError::TooManyTokens(b"1 2 3".to_vec()))
    );
    assert_eq!(parse_move_line("\u{2003}\t".as_bytes(), 3), Ok(None));
}
