use ahc_solvers::continuation::solve_penalty;
use ahc_solvers::grid::{compute_raw_score, is_valid_route, row_snake};
use ahc_solvers::interleave::{
    best_legal_strip_route, build_round_interleaved_route, endpoint_bias, ideal_order_route, side_bias,
    simple_striped_route, solve_lane_rows,
};
use ahc_solvers::penalty::{collect_violations, relocation_violation_delta, reversal_violation_delta, sample_breakpoints,
    violation_cost};
use ahc_solvers::relocate::{apply_relocation, RelocationMove};
use ahc_solvers::penalty_window::{apply_best_penalty_window_repair, evaluate_penalty_window};
use ahc_solvers::strips::{build_transitions, generate_permutations};
use std::time::{Duration, Instant};

fn sample_weights(n: usize) -> Vec<i64> {
    (0..n * n).map(|c| ((c * 37) % 101) as i64 - 50).collect()
}

fn is_permutation(route: &[usize], n: usize) -> bool {
    let mut seen = vec![false; n * n];
    route.len() == n * n
        && route.iter().all(|&c| {
            if c >= n * n || seen[c] {
                false
            } else {
                seen[c] = true;
                true
            }
        })
}

#[test]
fn side_bias_levels() {
    assert_eq!(side_bias(true, 3), 15_000_000);
    assert_eq!(side_bias(false, 3), 5_000_000);
    assert_eq!(side_bias(false, 4), 0);
}

#[test]
fn endpoint_bias_identity_lanes() {
    assert_eq!(endpoint_bias(0, true, &[0, 1, 2, 3, 4]), 50_000_000);
    assert_eq!(endpoint_bias(0, false, &[0, 1, 2, 3, 4]), 50_000_000);
}

#[test]
fn striped_route_starting_down_is_the_column_snake() {
    let r = simple_striped_route(5, true);
    assert_eq!(&r[..10], &[0, 5, 10, 15, 20, 21, 16, 11, 6, 1]);
    assert!(is_valid_route(&r, 5));
    let r2 = simple_striped_route(10, false);
    assert_eq!(&r2[..3], &[90, 80, 70]);
    assert!(is_valid_route(&r2, 10));
}

#[test]
fn best_legal_strip_route_is_a_route_and_scores_at_least_the_first() {
    let w = sample_weights(10);
    let r = best_legal_strip_route(10, &w);
    assert!(is_valid_route(&r, 10));
    assert!(compute_raw_score(&r, &w) >= compute_raw_score(&simple_striped_route(10, true), &w));
}

#[test]
fn lane_rows_are_valid_placements() {
    let perms = generate_permutations();
    let transitions = build_transitions(&perms);
    let w = sample_weights(10);
    let rows = solve_lane_rows(10, &w, 1, 2, &perms, &transitions);
    assert_eq!(rows.len(), 10);
    for r in 0..10 {
        let mut s = rows[r].to_vec();
        s.sort();
        assert_eq!(s, vec![0, 1, 2, 3, 4]);
        if r > 0 {
            for k in 0..5 {
                assert!((rows[r][k] as i32 - rows[r - 1][k] as i32).abs() <= 1);
            }
        }
    }
}

#[test]
fn interleaved_route_visits_every_cell_once() {
    let perms = generate_permutations();
    let transitions = build_transitions(&perms);
    let w = sample_weights(10);
    let r = build_round_interleaved_route(10, &w, &perms, &transitions);
    assert!(is_permutation(&r, 10));
    let r2 = ideal_order_route(10, &w);
    assert!(is_permutation(&r2, 10));
}

#[test]
fn violations_and_sampling() {
    assert_eq!(violation_cost(0, 4, 3), 0);
    assert_eq!(violation_cost(0, 2, 3), 1);
    let mut v = Vec::new();
    collect_violations(&[0, 2, 1, 3, 4, 5, 8, 7, 6], 3, &mut v);
    assert_eq!(v, vec![0]);
    let mut cursor = 0usize;
    let s = sample_breakpoints(&vec![1, 4, 7], &mut cursor, 50_000);
    assert_eq!(s, vec![1, 4, 7]);
    assert_eq!(cursor, 0);
}

#[test]
fn penalty_window_finds_the_best_order() {
    let route = vec![0usize, 1, 2, 5, 4, 3, 6, 7, 8];
    let w = vec![100i64, 5, 1, 2, 3, 4, 6, 7, 8];
    let rep = evaluate_penalty_window(&route, &w, 3, 0, 3, 0).expect("a better order");
    assert_eq!(&rep.cells[..3], &[2, 1, 0]);
    assert_eq!(rep.delta_obj, 198);
    assert!(evaluate_penalty_window(&route, &w, 3, 0, 1, 0).is_none());
}

#[test]
fn window_repair_rewrites_the_route() {
    let mut route = vec![0usize, 1, 2, 5, 4, 3, 6, 7, 8];
    let w = vec![100i64, 5, 1, 2, 3, 4, 6, 7, 8];
    let before = compute_raw_score(&route, &w);
    assert!(apply_best_penalty_window_repair(&mut route, &w, 3, 0, &vec![0], 1));
    assert!(is_permutation(&route, 3));
    assert!(compute_raw_score(&route, &w) > before);
    let mut same = row_snake(3);
    assert!(!apply_best_penalty_window_repair(&mut same, &w, 3, 0, &vec![], 1));
    assert_eq!(same, row_snake(3));
}

#[test]
fn penalty_pipeline_gives_a_route() {
    let n = 10;
    let a: Vec<Vec<i64>> = (0..n).map(|i| (0..n).map(|j| ((i * 7 + j * 13) % 29) as i64).collect()).collect();
    let start = Instant::now();
    let z = Duration::from_millis(0);
    let route = solve_penalty(n, &a, &start, &[z; 9], z, z, z, z);
    assert!(is_valid_route(&route, n));
}

fn count_breaks(route: &[usize], n: usize) -> i64 {
    route.windows(2).map(|w| violation_cost(w[0], w[1], n)).sum()
}

#[test]
fn reversal_changes_breaks_by_its_delta() {
    let n = 3;
    let route = vec![0, 2, 1, 3, 4, 5, 8, 7, 6];
    for l in 0..route.len() {
        for r in l..route.len() {
            let mut after = route.clone();
            after[l..=r].reverse();
            let d = reversal_violation_delta(&route, n, l, r) as i64;
            assert_eq!(count_breaks(&after, n) - count_breaks(&route, n), d);
        }
    }
}

#[test]
fn relocation_changes_breaks_by_its_delta() {
    let n = 3;
    let route = vec![0, 2, 1, 3, 4, 5, 8, 7, 6];
    let len = route.len();
    for l in 1..len - 1 {
        for r in l..len - 1 {
            for p in 0..len - 1 {
                if (l <= p && p <= r) || (l <= p + 1 && p + 1 <= r) {
                    continue;
                }
                for reversed in [false, true] {
                    let mut after = route.clone();
                    apply_relocation(&mut after, RelocationMove { l, r, p, reversed, delta: 0 });
                    let d = relocation_violation_delta(&route, n, l, r, p, reversed) as i64;
                    assert_eq!(count_breaks(&after, n) - count_breaks(&route, n), d);
                }
            }
        }
    }
}
