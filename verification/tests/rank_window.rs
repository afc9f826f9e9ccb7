use ahc_solvers::rank_window::optimize_penalty_window;

fn row_order() -> Vec<usize> {
    (0..9).collect()
}

#[test]
fn penalty_window_removes_a_break() {
    let mut path = row_order();
    let weights = vec![0i64; 9];
    let rank = vec![0usize; 9];
    assert!(optimize_penalty_window(&mut path, &weights, 3, &rank, 1, 3, 10, 0));
    assert_eq!(path, vec![0, 3, 1, 2, 4, 5, 6, 7, 8]);
}

#[test]
fn penalty_window_keeps_an_optimal_window() {
    let mut path = vec![0, 3, 1, 2, 4, 5, 6, 7, 8];
    let weights = vec![0i64; 9];
    let rank = vec![0usize; 9];
    assert!(!optimize_penalty_window(&mut path, &weights, 3, &rank, 1, 3, 10, 0));
    assert_eq!(path, vec![0, 3, 1, 2, 4, 5, 6, 7, 8]);
}

#[test]
fn penalty_window_ignores_short_windows() {
    let mut path = row_order();
    let weights = vec![0i64; 9];
    let rank = vec![0usize; 9];
    assert!(!optimize_penalty_window(&mut path, &weights, 3, &rank, 2, 1, 10, 0));
    assert!(!optimize_penalty_window(&mut path, &weights, 3, &rank, 0, 0, 10, 0));
    assert_eq!(path, row_order());
}

#[test]
fn penalty_window_rank_jumps_outweigh_a_break() {
    let weights = vec![0i64; 9];
    let mut rank = vec![0usize; 9];
    rank[3] = 40;
    rank[4] = 40;
    let mut path = row_order();
    assert!(!optimize_penalty_window(&mut path, &weights, 3, &rank, 1, 3, 1, 100));
    assert_eq!(path, row_order());
    // without the rank price the break is removed
    let mut path = row_order();
    assert!(optimize_penalty_window(&mut path, &weights, 3, &rank, 1, 3, 1, 0));
    assert_eq!(path, vec![0, 3, 1, 2, 4, 5, 6, 7, 8]);
}

#[test]
fn penalty_window_rank_threshold_is_exclusive() {
    let weights = vec![0i64; 9];
    let mut rank = vec![0usize; 9];
    rank[3] = 28;
    rank[4] = 28;
    let mut path = row_order();
    assert!(optimize_penalty_window(&mut path, &weights, 3, &rank, 1, 3, 1, 100));
    assert_eq!(path, vec![0, 3, 1, 2, 4, 5, 6, 7, 8]);
}

#[test]
fn penalty_window_follows_weights() {
    // no prices: the heavier cell of the window moves to the later step
    let mut path = row_order();
    let mut weights = vec![0i64; 9];
    weights[0] = 5;
    let rank = vec![0usize; 9];
    assert!(optimize_penalty_window(&mut path, &weights, 3, &rank, 0, 2, 0, 0));
    assert_eq!(path, vec![1, 0, 2, 3, 4, 5, 6, 7, 8]);
}
