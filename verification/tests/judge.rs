use ahc_solvers::judge::{
    compute_score, compute_score_details, gen, input_from_values, parse_input, parse_output, read, Input,
    Output, OutputError, ScoreIssue, GEN_SIDE,
};

fn small_input() -> Input {
    Input { n: 2, a: vec![vec![1, 2], vec![3, 4]] }
}

#[test]
fn read_reports_each_problem() {
    assert_eq!(read(None, 5), Err(OutputError::UnexpectedEof));
    assert_eq!(read(Some(&b"3"[..]), 5), Ok(3));
    assert_eq!(read(Some(&b"+4"[..]), 5), Ok(4));
    assert_eq!(read(Some(&b"5"[..]), 5), Err(OutputError::OutOfRange(5)));
    assert_eq!(read(Some(&b"-1"[..]), 5), Err(OutputError::ParseError(b"-1".to_vec())));
    assert_eq!(read(Some(&b"1x"[..]), 5), Err(OutputError::ParseError(b"1x".to_vec())));
    assert_eq!(
        read(Some(&b"99999999999999999999999"[..]), 5),
        Err(OutputError::ParseError(b"99999999999999999999999".to_vec()))
    );
}

#[test]
fn parse_output_reads_pairs() {
    let input = small_input();
    let out = parse_output(&input, b"0 0\n0 1\n 1 1 \r\n1 0").unwrap();
    assert_eq!(out.out, vec![(0, 0), (0, 1), (1, 1), (1, 0)]);
    let empty = parse_output(&input, b"  \n ").unwrap();
    assert!(empty.out.is_empty());
}

#[test]
fn parse_output_errors() {
    let input = small_input();
    assert_eq!(parse_output(&input, b"0 2").err(), Some(OutputError::OutOfRange(2)));
    assert_eq!(parse_output(&input, b"0 x 1 1").err(), Some(OutputError::ParseError(b"x".to_vec())));
    assert_eq!(parse_output(&input, b"0 0 1").err(), Some(OutputError::UnexpectedEof));
    assert_eq!(
        parse_output(&input, b"0 0 0 1 1 1 1 0 0 0").err(),
        Some(OutputError::TooManyOutputs)
    );
    // a bad token before the cell limit is reported first
    assert_eq!(
        parse_output(&input, b"0 0 0 1 1 1 1 9 0 0").err(),
        Some(OutputError::OutOfRange(9))
    );
}

#[test]
fn parse_input_reads_matrix() {
    let input = parse_input(b"2\n1 2\n3 -4\n").unwrap();
    assert_eq!(input.n, 2);
    assert_eq!(input.a, vec![vec![1, 2], vec![3, -4]]);
    assert!(parse_input(b"2\n1 2 3").is_none());
    assert!(parse_input(b"").is_none());
    assert!(parse_input(b"2\n1 2 3 x").is_none());
    let zero = parse_input(b"0").unwrap();
    assert_eq!(zero.n, 0);
    assert!(zero.a.is_empty());
    // extra tokens after the matrix are ignored
    assert_eq!(parse_input(b"1 7 8").unwrap().a, vec![vec![7]]);
}

#[test]
fn score_of_complete_tour() {
    let input = small_input();
    // 0*1 + 1*2 + 2*4 + 3*3 = 19, (19 + 2) / 4 = 5
    let out = [(0, 0), (0, 1), (1, 1), (1, 0)];
    assert_eq!(compute_score_details(&input, &out), (5, None));
}

#[test]
fn score_of_unfinished_tour() {
    let input = small_input();
    // 0*1 + 1*2 = 2, (2 + 2) / 4 = 1
    let out = [(0, 0), (0, 1)];
    assert_eq!(compute_score_details(&input, &out), (1, Some(ScoreIssue::NotFinished)));
    let output = Output { out: out.to_vec() };
    assert_eq!(compute_score(&input, &output), (0, Some(ScoreIssue::NotFinished)));
}

#[test]
fn score_errors() {
    let input = small_input();
    let dup = [(0, 0), (0, 1), (0, 0)];
    assert_eq!(
        compute_score_details(&input, &dup),
        (0, Some(ScoreIssue::DuplicateMove { turn: 2, i: 0, j: 0 }))
    );
    let big = Input { n: 3, a: vec![vec![1; 3]; 3] };
    let jump = [(0, 0), (2, 2)];
    assert_eq!(
        compute_score_details(&big, &jump),
        (0, Some(ScoreIssue::InvalidMove { turn: 1, pi: 0, pj: 0, i: 2, j: 2 }))
    );
}

#[test]
fn negative_sums_round_toward_zero() {
    let input = Input { n: 2, a: vec![vec![-5, -5], vec![-5, -5]] };
    // sum = -(0 + 5 + 10 + 15) = -30, (-30 + 2) / 4 = -7
    let out = [(0, 0), (0, 1), (1, 1), (1, 0)];
    assert_eq!(compute_score_details(&input, &out), (-7, None));
}

#[test]
fn input_from_values_is_row_major() {
    let input = input_from_values(2, &vec![4, 3, 2, 1]);
    assert_eq!(input.n, 2);
    assert_eq!(input.a, vec![vec![4, 3], vec![2, 1]]);
}

#[test]
fn gen_is_a_shuffled_permutation() {
    let input = gen(0);
    assert_eq!(input.n, GEN_SIDE);
    let mut values: Vec<i64> = input.a.iter().flatten().copied().collect();
    // the shuffle moved something
    let ascending: Vec<i64> = (1..=(GEN_SIDE * GEN_SIDE) as i64).collect();
    assert_ne!(values, ascending);
    values.sort();
    assert_eq!(values, ascending);
    // the same seed gives the same instance
    assert_eq!(gen(0).a, input.a);
    assert_ne!(gen(1).a, input.a);
}
