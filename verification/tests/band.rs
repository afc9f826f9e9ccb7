use ahc_solvers::band::{build_banded_route, build_local_neighbors, evaluate_block, generate_local_paths,
    oriented_block_weights, solve_band};
use ahc_solvers::grid::compute_raw_score;
use ahc_solvers::solvers::{build_best_initial_route, solve_banded};
use ahc_solvers::window::NEG_INF;
use std::time::{Duration, Instant};

fn is_king_route(route: &[usize], n: usize) -> bool {
    let mut seen = vec![false; n * n];
    for &c in route {
        if c >= n * n || seen[c] {
            return false;
        }
        seen[c] = true;
    }
    route.len() == n * n
        && route.windows(2).all(|p| {
            let dr = (p[0] / n).abs_diff(p[1] / n);
            let dc = (p[0] % n).abs_diff(p[1] % n);
            dr.max(dc) == 1
        })
}

fn sample_weights(n: usize) -> Vec<i64> {
    (0..n * n).map(|c| ((c * 37) % 101) as i64 - 50).collect()
}

#[test]
fn local_neighbors_are_king_moves_in_increasing_order() {
    let adj = build_local_neighbors();
    assert_eq!(adj.len(), 10);
    assert_eq!(adj[0], vec![1, 2, 3]);
    assert_eq!(adj[5], vec![2, 3, 4, 6, 7]);
    assert_eq!(adj[9], vec![6, 7, 8]);
}

#[test]
fn local_paths_counted_by_pair() {
    let paths = generate_local_paths();
    let counts: Vec<usize> = paths.iter().map(|l| l.len()).collect();
    assert_eq!(
        counts,
        vec![16, 8, 16, 24, 64, 8, 0, 8, 8, 24, 16, 8, 0, 8, 16, 24, 8, 8, 0, 8, 64, 24, 16, 8, 16]
    );
    assert_eq!(paths[0][0], [0, 2, 4, 6, 8, 9, 7, 5, 3, 1]);
    assert_eq!(paths[4][0], [0, 1, 2, 3, 4, 5, 6, 7, 8, 9]);
    assert_eq!(paths[24][0], [8, 6, 4, 2, 0, 1, 3, 5, 7, 9]);
}

#[test]
fn every_local_path_is_a_block_path_of_its_pair() {
    let paths = generate_local_paths();
    for (pair, list) in paths.iter().enumerate() {
        for p in list {
            let mut seen = [false; 10];
            for &v in p {
                assert!(v < 10 && !seen[v as usize]);
                seen[v as usize] = true;
            }
            for k in 0..9 {
                let (a, b) = (p[k] as i64, p[k + 1] as i64);
                assert!((a / 2 - b / 2).abs() <= 1 && (a % 2 - b % 2).abs() <= 1);
            }
            assert_eq!(p[0] % 2, 0);
            assert_eq!(p[9] % 2, 1);
            assert_eq!((p[0] / 2) as usize * 5 + (p[9] / 2) as usize, pair);
        }
    }
}

#[test]
fn oriented_weights_mirror_right_to_left_blocks() {
    let n = 10;
    let w = sample_weights(n);
    assert_eq!(oriented_block_weights(n, &w, 0, 0, true), [-50, -13, 17, -47, -17, 20, 50, -14, 16, -48]);
    assert_eq!(oriented_block_weights(n, &w, 5, 4, false), [-35, 29, 32, -5, -2, -39, -36, 28, 31, -6]);
}

#[test]
fn block_evaluation_keeps_the_best_path_of_each_pair() {
    let paths = generate_local_paths();
    let oriented = [-50, -13, 17, -47, -17, 20, 50, -14, 16, -48];
    let eval = evaluate_block(&oriented, &paths);
    let expected_scores = [
        224, -143, 244, -24, 6, -601, NEG_INF, 49, -219, -189, -375, -537, NEG_INF, -52, -22, -639, -801, -436,
        NEG_INF, -510, -440, -602, -304, -362, -244,
    ];
    assert_eq!(eval.scores, expected_scores);
    let expected_choices = [11, 3, 15, 13, 35, 3, 0, 3, 1, 3, 14, 6, 0, 5, 11, 13, 4, 6, 0, 2, 46, 16, 14, 2, 10];
    for pair in 0..25 {
        if expected_scores[pair] != NEG_INF {
            assert_eq!(eval.choices[pair], expected_choices[pair]);
        }
    }
}

#[test]
fn band_crossed_right_to_left_from_its_top_row() {
    let n = 10;
    let w = sample_weights(n);
    let paths = generate_local_paths();
    let band = solve_band(n, &w, 5, false, Some(0), None, &paths);
    assert_eq!(
        band,
        vec![
            59, 58, 69, 78, 88, 99, 98, 89, 79, 68, 57, 66, 56, 67, 77, 86, 96, 97, 87, 76, 85, 74, 64, 55, 54, 65,
            75, 84, 95, 94, 93, 82, 72, 63, 52, 53, 62, 73, 83, 92, 91, 80, 71, 61, 50, 51, 60, 70, 81, 90
        ]
    );
}

#[test]
fn banded_route_covers_the_board() {
    let n = 10;
    let w = sample_weights(n);
    let paths = generate_local_paths();
    let route = build_banded_route(n, &w, &paths);
    assert!(is_king_route(&route, n));
    assert_eq!(&route[..10], &[0, 11, 1, 10, 20, 31, 41, 40, 30, 21]);
    assert_eq!(compute_raw_score(&route, &w), 6949);
}

#[test]
fn best_initial_route_over_symmetries() {
    let n = 10;
    let w = sample_weights(n);
    let paths = generate_local_paths();
    let route = build_best_initial_route(n, &w, &paths);
    assert!(is_king_route(&route, n));
    assert_eq!(&route[..10], &[0, 11, 12, 3, 14, 4, 13, 2, 1, 10]);
    assert_eq!(&route[90..], &[17, 6, 15, 5, 16, 7, 18, 9, 19, 8]);
    assert_eq!(compute_raw_score(&route, &w), 21308);
    let banded = build_banded_route(n, &w, &paths);
    assert!(compute_raw_score(&route, &w) >= compute_raw_score(&banded, &w));
}

#[test]
fn banded_pipeline_keeps_a_route_and_never_loses_score() {
    let n = 10;
    let w = sample_weights(n);
    let a: Vec<Vec<i64>> = (0..n).map(|i| w[i * n..(i + 1) * n].to_vec()).collect();
    let start = Instant::now();
    let route = solve_banded(
        n,
        &a,
        &start,
        Duration::from_millis(20),
        Duration::from_millis(40),
        Duration::from_millis(60),
    );
    assert!(is_king_route(&route, n));
    assert!(compute_raw_score(&route, &w) >= 21308);
}

fn block_value(p: &[u8; 10], w: &[i64], n: usize, br0: usize, step: usize) -> i64 {
    let col0 = step * 2;
    (0..10).map(|pos| {
        let v = p[pos] as usize;
        pos as i64 * w[(br0 + v / 2) * n + col0 + v % 2]
    }).sum()
}

fn best_chain(paths: &Vec<Vec<[u8; 10]>>, w: &[i64], n: usize, step: usize, prev_end: Option<usize>) -> i64 {
    if step == n / 2 {
        return 0;
    }
    let mut best = i64::MIN;
    for q in 0..25 {
        let (s, e) = (q / 5, q % 5);
        if let Some(pe) = prev_end {
            if (s as i64 - pe as i64).abs() > 1 {
                continue;
            }
        }
        if paths[q].is_empty() {
            continue;
        }
        let rest = best_chain(paths, w, n, step + 1, Some(e));
        if rest == i64::MIN {
            continue;
        }
        for p in &paths[q] {
            best = best.max(block_value(p, w, n, 0, step) + rest);
        }
    }
    best
}

#[test]
fn band_crossing_scores_as_well_as_any_chain_of_block_paths() {
    let n = 6;
    let w = sample_weights(n);
    let paths = generate_local_paths();
    let band = solve_band(n, &w, 0, true, None, None, &paths);
    let got: i64 = band.iter().enumerate().map(|(k, &c)| (k % 10) as i64 * w[c]).sum();
    assert_eq!(got, best_chain(&paths, &w, n, 0, None));
}
