use ahc_solvers::judge::{compute_score_details, Input};
use ahc_solvers::solvers::{best_initial_route, best_initial_tour, solve_guided_cycle, solve_rank_cycle, solve_two_opt_window};
use ahc_solvers::grid::{compute_raw_score, flatten_weights, row_snake, col_snake};
use ahc_solvers::cycle::check_cycle;
use std::time::{Duration, Instant};

fn is_king_route(route: &[usize], n: usize) -> bool {
    let mut seen = vec![false; n * n];
    for &c in route {
        if c >= n * n || seen[c] {
            return false;
        }
        seen[c] = true;
    }
    route.len() == n * n
        && route.windows(2).all(|p| {
            let dr = (p[0] / n).abs_diff(p[1] / n);
            let dc = (p[0] % n).abs_diff(p[1] % n);
            dr.max(dc) == 1
        })
}

fn permuted_board(n: usize) -> Vec<Vec<i64>> {
    let nn = (n * n) as i64;
    (0..n)
        .map(|i| (0..n).map(|j| ((i * n + j) as i64 * 5 % nn) + 1).collect())
        .collect()
}

fn judge_score(n: usize, a: &Vec<Vec<i64>>, route: &[usize]) -> i64 {
    let input = Input { n, a: a.clone() };
    let out: Vec<(usize, usize)> = route.iter().map(|&c| (c / n, c % n)).collect();
    let (score, issue) = compute_score_details(&input, &out);
    assert_eq!(issue, None);
    score
}

#[test]
fn best_snake_is_chosen() {
    let w: Vec<i64> = (1..=9).collect();
    let route = best_initial_route(3, &w);
    let candidates = [
        row_snake(3),
        row_snake(3).into_iter().rev().collect::<Vec<_>>(),
        col_snake(3),
        col_snake(3).into_iter().rev().collect::<Vec<_>>(),
    ];
    let best = candidates.iter().map(|r| compute_raw_score(r, &w)).max().unwrap();
    assert!(candidates.contains(&route));
    assert_eq!(compute_raw_score(&route, &w), best);
}

#[test]
fn best_tour_is_a_closed_tour() {
    let a = permuted_board(4);
    let w = flatten_weights(4, &a);
    let tour = best_initial_tour(4, &w);
    assert!(is_king_route(&tour, 4));
    assert!(check_cycle(&tour, 4));
}

#[test]
fn window_pipeline_gives_an_accepted_route() {
    let n = 6;
    let a = permuted_board(n);
    let start = Instant::now();
    let route = solve_two_opt_window(n, &a, &start, Duration::from_millis(20), Duration::from_millis(40), Duration::from_millis(60));
    assert!(is_king_route(&route, n));
    let w = flatten_weights(n, &a);
    let snake_best = compute_raw_score(&best_initial_route(n, &w), &w);
    assert!(compute_raw_score(&route, &w) >= snake_best);
    let score = judge_score(n, &a, &route);
    let nn = (n * n) as i64;
    assert_eq!(score, (compute_raw_score(&route, &w) + nn / 2) / nn);
}

#[test]
fn rank_cycle_pipeline_gives_an_accepted_route() {
    let n = 6;
    let a = permuted_board(n);
    let start = Instant::now();
    let route = solve_rank_cycle(n, &a, &start, Duration::from_millis(20), Duration::from_millis(40), Duration::from_millis(60), 1000);
    assert!(is_king_route(&route, n));
    judge_score(n, &a, &route);
}

#[test]
fn guided_pipeline_gives_an_accepted_route() {
    let n = 6;
    let a = permuted_board(n);
    let start = Instant::now();
    let route = solve_guided_cycle(
        n,
        &a,
        &start,
        Duration::from_millis(10),
        Duration::from_millis(20),
        Duration::from_millis(30),
        Duration::from_millis(40),
        Duration::from_millis(50),
        1000,
    );
    assert!(is_king_route(&route, n));
    judge_score(n, &a, &route);
}
