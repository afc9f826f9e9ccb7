use ahc_solvers::descent::{run_two_opt_descent, run_window_descent};
use ahc_solvers::grid::{build_neighbors, compute_raw_score, row_snake};
use ahc_solvers::moves::{best_two_opt_move, rebuild_aux, reverse_range};
use ahc_solvers::relocate::{apply_relocation, best_relocation_move, relocation_delta, RelocationMove};
use ahc_solvers::window::optimize_window;
use std::time::{Duration, Instant};

fn is_king_route(route: &[usize], n: usize) -> bool {
    let mut seen = vec![false; n * n];
    for &c in route {
        if c >= n * n || seen[c] {
            return false;
        }
        seen[c] = true;
    }
    route.len() == n * n
        && route.windows(2).all(|p| {
            let dr = (p[0] / n).abs_diff(p[1] / n);
            let dc = (p[0] % n).abs_diff(p[1] % n);
            dr.max(dc) == 1
        })
}

fn weights(n: usize) -> Vec<i64> {
    let nn = (n * n) as i64;
    (0..nn).map(|k| (k * 7 % nn) + 1).collect()
}

#[test]
fn relocating_a_segment() {
    let mut r = vec![0, 1, 2, 3, 4, 5];
    apply_relocation(&mut r, RelocationMove { l: 1, r: 2, p: 4, reversed: false, delta: 0 });
    assert_eq!(r, vec![0, 3, 4, 1, 2, 5]);
    let mut r = vec![0, 1, 2, 3, 4, 5];
    apply_relocation(&mut r, RelocationMove { l: 1, r: 2, p: 4, reversed: true, delta: 0 });
    assert_eq!(r, vec![0, 3, 4, 2, 1, 5]);
    let mut r = vec![0, 1, 2, 3, 4, 5];
    apply_relocation(&mut r, RelocationMove { l: 3, r: 4, p: 0, reversed: false, delta: 0 });
    assert_eq!(r, vec![0, 3, 4, 1, 2, 5]);
}

#[test]
fn best_two_opt_move_gains_what_it_claims() {
    let n = 4;
    let w = weights(n);
    let route = row_snake(n);
    let mut position = vec![0usize; n * n];
    let mut pw = vec![0i64; n * n + 1];
    let mut ppw = vec![0i64; n * n + 1];
    rebuild_aux(&route, &w, &mut position, &mut pw, &mut ppw);
    for (t, &c) in route.iter().enumerate() {
        assert_eq!(position[c], t);
    }
    let neighbors = build_neighbors(n);
    if let Some(mv) = best_two_opt_move(&route, &position, &neighbors, &pw, &ppw, n) {
        assert!(mv.delta > 0);
        let mut after = route.clone();
        reverse_range(&mut after, mv.l, mv.r);
        assert!(is_king_route(&after, n));
        assert_eq!(compute_raw_score(&after, &w) - compute_raw_score(&route, &w), mv.delta);
    }
}

#[test]
fn best_relocation_move_gains_what_it_claims() {
    let n = 4;
    let w = weights(n);
    let route = row_snake(n);
    let mut position = vec![0usize; n * n];
    let mut pw = vec![0i64; n * n + 1];
    let mut ppw = vec![0i64; n * n + 1];
    rebuild_aux(&route, &w, &mut position, &mut pw, &mut ppw);
    let neighbors = build_neighbors(n);
    if let Some(mv) = best_relocation_move(&route, &w, &neighbors, &position, &pw, n) {
        assert!(mv.delta > 0);
        let mut after = route.clone();
        apply_relocation(&mut after, mv);
        assert!(is_king_route(&after, n));
        assert_eq!(compute_raw_score(&after, &w) - compute_raw_score(&route, &w), mv.delta);
    }
}

#[test]
fn window_search_never_loses() {
    let n = 4;
    let w = weights(n);
    let mut route = row_snake(n);
    let before = route.clone();
    let mut score = compute_raw_score(&route, &w);
    let start_score = score;
    let changed = optimize_window(&mut route, &w, n, 2, 8, &mut score);
    assert!(is_king_route(&route, n));
    assert_eq!(score, compute_raw_score(&route, &w));
    assert_eq!(changed, route != before);
    if changed {
        assert!(score > start_score);
    }
    // cells outside the window stay put
    assert_eq!(&route[..2], &before[..2]);
    assert_eq!(&route[10..], &before[10..]);
}

#[test]
fn descents_keep_routes() {
    let n = 5;
    let w = weights(n);
    let neighbors = build_neighbors(n);
    let mut route = row_snake(n);
    let mut score = compute_raw_score(&route, &w);
    let first = score;
    let start = Instant::now();
    run_two_opt_descent(&mut route, &w, &neighbors, n, &mut score, &start, Duration::from_millis(30));
    assert!(is_king_route(&route, n));
    assert!(score >= first);
    let second = score;
    run_window_descent(&mut route, &w, n, &mut score, &start, Duration::from_millis(60), 1);
    assert!(is_king_route(&route, n));
    assert!(score >= second);
    assert_eq!(score, compute_raw_score(&route, &w));
}

#[test]
fn window_keeps_a_route_whose_better_order_would_break_it() {
    let n = 3;
    let mut route = vec![0, 1, 2, 5, 4, 3, 6, 7, 8];
    let w = vec![100i64, 5, 1, 2, 3, 4, 6, 7, 8];
    let mut total = 0i64;
    assert!(!optimize_window(&mut route, &w, n, 0, 3, &mut total));
    assert_eq!(route, vec![0, 1, 2, 5, 4, 3, 6, 7, 8]);
    assert_eq!(total, 0);
}

#[test]
fn window_adds_its_gain_to_the_running_total() {
    let n = 3;
    let mut route = vec![1, 0, 3, 4, 2, 5, 8, 7, 6];
    let w = vec![1i64, 5, 100, 2, 3, 4, 6, 7, 8];
    let mut total = 7i64;
    assert!(optimize_window(&mut route, &w, n, 0, 3, &mut total));
    assert_eq!(route, vec![0, 3, 1, 4, 2, 5, 8, 7, 6]);
    assert_eq!(total, 14);
}

#[test]
fn window_reorders_any_sequence_of_distinct_cells() {
    let n = 3;
    let mut route = vec![2, 0, 4];
    let w = vec![5i64, 1, 9, 2, 3, 4, 6, 7, 8];
    let mut total = 0i64;
    assert!(optimize_window(&mut route, &w, n, 0, 3, &mut total));
    assert_eq!(route, vec![0, 4, 2]);
    assert_eq!(total, 10);
}

#[test]
fn relocation_delta_of_a_long_segment() {
    let n = 5;
    let route = row_snake(n);
    let w: Vec<i64> = (0..n * n).map(|c| ((c * 37) % 101) as i64 - 50).collect();
    let mut position = vec![0usize; n * n];
    let mut pw = vec![0i64; n * n + 1];
    let mut ppw = vec![0i64; n * n + 1];
    rebuild_aux(&route, &w, &mut position, &mut pw, &mut ppw);
    for &(l, r, p) in &[(3usize, 14usize, 20usize), (10, 22, 2), (1, 12, 20)] {
        for reversed in [false, true] {
            let d = relocation_delta(&route, &w, &pw, l, r, p, reversed);
            let mut after = route.clone();
            apply_relocation(&mut after, RelocationMove { l, r, p, reversed, delta: d });
            assert_eq!(d, compute_raw_score(&after, &w) - compute_raw_score(&route, &w));
        }
    }
}
