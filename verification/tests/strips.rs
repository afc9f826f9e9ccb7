use ahc_solvers::grid::row_snake;
use ahc_solvers::solvers::solve_strips;
use ahc_solvers::strips::{
    build_connector_cells, build_euler_like_strip_sequence, build_euler_like_strip_sequence_with_seed,
    build_random_balanced_sequence, build_route, build_row2_matching, build_segment_matching, build_strip_sequence,
    build_transitions, choose_connector_orientation_row1, choose_suffix_orientation_row1, find_feasible_strip_sequence,
    generate_permutations, in_row1_range, in_strip_range, is_strip_sequence_feasible, is_transition_valid,
    next_rand_bit, next_rand_u64, order_by_count, plan_side, set_port, solve_strip_paths, strip_center, Segment, Side,
    Task,
};

fn sample_weights(n: usize) -> Vec<i64> {
    (0..n * n).map(|c| ((c * 37) % 101) as i64 - 50).collect()
}

fn alternating(n: usize, start_down: bool) -> Vec<bool> {
    (0..n).map(|p| if p % 2 == 0 { start_down } else { !start_down }).collect()
}

#[test]
fn strip_reach() {
    assert_eq!(strip_center(3), 17);
    assert!(in_row1_range(0, 0, 20));
    assert!(in_row1_range(6, 0, 20));
    assert!(!in_row1_range(7, 0, 20));
    assert!(in_row1_range(8, 2, 20));
    assert!(!in_row1_range(7, 2, 20));
    assert!(in_row1_range(19, 3, 20));
    assert!(in_strip_range(5, 0, 20));
    assert!(!in_strip_range(6, 0, 20));
    assert!(in_strip_range(9, 2, 20));
    assert!(!in_strip_range(8, 2, 20));
}

#[test]
fn ports_are_set_once() {
    let mut ports = vec![None, Some(4), None];
    assert!(set_port(&mut ports, 0, 7));
    assert_eq!(ports, vec![Some(7), Some(4), None]);
    assert!(set_port(&mut ports, 1, 4));
    assert!(!set_port(&mut ports, 1, 5));
    assert_eq!(ports, vec![Some(7), Some(4), None]);
}

#[test]
fn orientations_prefer_strip_centres() {
    let s = |k: usize| Segment { c0: 2 * k, c1: 2 * k + 1 };
    assert_eq!(choose_connector_orientation_row1(12, s(3), 1, 1), Some((6, 7)));
    assert_eq!(choose_connector_orientation_row1(12, s(5), 2, 1), Some((11, 10)));
    assert_eq!(choose_connector_orientation_row1(12, s(0), 2, 2), None);
    assert_eq!(choose_suffix_orientation_row1(12, s(0), 0), Some((1, 0)));
    assert_eq!(choose_suffix_orientation_row1(12, s(2), 1), Some((5, 4)));
}

#[test]
fn connector_cells_run_through_the_margin() {
    assert_eq!(build_connector_cells(12, Side::Top, 5, 6, 7, 8), vec![29, 18, 6, 7, 19, 32]);
    assert_eq!(build_connector_cells(12, Side::Top, 11, 11, 10, 10), vec![35, 23, 11, 10, 22, 34]);
    assert_eq!(build_connector_cells(12, Side::Bottom, 5, 6, 7, 8), vec![113, 126, 138, 139, 127, 116]);
    assert_eq!(build_connector_cells(12, Side::Bottom, 8, 7, 6, 5), vec![116, 127, 139, 138, 126, 113]);
}

#[test]
fn permutations_in_lexicographic_order() {
    let perms = generate_permutations();
    assert_eq!(perms.len(), 120);
    assert_eq!(perms[0], [0, 1, 2, 3, 4]);
    assert_eq!(perms[1], [0, 1, 2, 4, 3]);
    assert_eq!(perms[2], [0, 1, 3, 2, 4]);
    assert_eq!(perms[119], [4, 3, 2, 1, 0]);
    for w in perms.windows(2) {
        assert!(w[0] < w[1]);
    }
}

#[test]
fn transitions_move_each_lane_at_most_one_column() {
    assert!(is_transition_valid(&[0, 1, 2, 3, 4], &[1, 0, 2, 4, 3]));
    assert!(!is_transition_valid(&[0, 1, 2, 3, 4], &[2, 1, 0, 3, 4]));
    let perms = generate_permutations();
    let t = build_transitions(&perms);
    assert_eq!(t[0], vec![0, 1, 2, 6, 7, 24, 25, 26]);
    assert_eq!(t[119], vec![93, 94, 95, 112, 113, 117, 118, 119]);
}

#[test]
fn xorshift_steps() {
    let mut s = 1u64;
    assert_eq!(next_rand_u64(&mut s), 33153);
    assert_eq!(s, 33153);
    assert_eq!(next_rand_u64(&mut s), 1075920929);
    let mut t = 1u64;
    assert_eq!(next_rand_bit(&mut t), 1);
    assert_eq!(t, 33153);
}

#[test]
fn euler_like_sequences() {
    let expected = vec![0, 1, 0, 1, 0, 1, 0, 1, 0, 1, 2, 3, 2, 3, 2, 3, 2, 3, 2, 3];
    assert_eq!(build_euler_like_strip_sequence(4, 5), expected);
    assert_eq!(build_strip_sequence(4), expected);
    assert_eq!(build_euler_like_strip_sequence_with_seed(4, 5, 7), expected);
    assert_eq!(
        build_euler_like_strip_sequence_with_seed(6, 5, 3),
        vec![0, 1, 0, 1, 0, 1, 0, 1, 0, 1, 2, 3, 2, 3, 2, 3, 2, 3, 2, 3, 4, 5, 4, 5, 4, 5, 4, 5, 4, 5]
    );
}

#[test]
fn random_balanced_sequences() {
    assert_eq!(build_random_balanced_sequence(2, 5, 1), Some(vec![1, 0, 1, 0, 1, 0, 1, 0, 1, 0]));
    assert_eq!(build_random_balanced_sequence(4, 5, 1), None);
    assert_eq!(build_random_balanced_sequence(4, 5, 3), None);
}

#[test]
fn ordering_by_candidate_count_is_stable() {
    assert_eq!(order_by_count(&vec![3, 1, 2, 1, 3]), vec![1, 3, 2, 0, 4]);
    assert_eq!(order_by_count(&vec![]), Vec::<usize>::new());
}

#[test]
fn matchings_give_distinct_fitting_slots() {
    let segments: Vec<Segment> = (0..6).map(|k| Segment { c0: 2 * k, c1: 2 * k + 1 }).collect();
    let tasks = vec![
        Task { p: 1, from_strip: 0, to_strip: 1 },
        Task { p: 3, from_strip: 1, to_strip: 2 },
        Task { p: 5, from_strip: 2, to_strip: 1 },
    ];
    assert_eq!(build_segment_matching(12, &tasks, &segments, None), Some(vec![1, 5, 4]));
    assert_eq!(build_segment_matching(12, &tasks, &segments, Some(2)), Some(vec![1, 5, 4]));
    let far = vec![Task { p: 1, from_strip: 0, to_strip: 0 }, Task { p: 3, from_strip: 0, to_strip: 0 },
        Task { p: 5, from_strip: 0, to_strip: 0 }, Task { p: 7, from_strip: 0, to_strip: 0 }];
    assert_eq!(build_segment_matching(12, &far, &segments, None), None);
    assert_eq!(
        build_row2_matching(12, &vec![Some(0), Some(1), Some(1), Some(2), None], &vec![3, 4, 8, 9, 11]),
        Some(vec![2, 4, 7, 9, 10])
    );
    assert_eq!(build_row2_matching(12, &vec![Some(0)], &vec![9]), None);
}

#[test]
fn top_margin_plan() {
    let seq = vec![1, 0, 1, 0, 1, 2, 1, 0, 1, 2, 1, 0];
    let dirs = alternating(12, true);
    let plan = plan_side(12, Side::Top, &seq, &dirs, true).expect("plan");
    assert_eq!(plan.suffix_cells, vec![24, 13, 1, 0, 12, 25]);
    assert_eq!(plan.suffix_start_port, Some(0));
    let got: Vec<(usize, usize, usize, Vec<usize>)> =
        plan.connectors.iter().map(|c| (c.p, c.from_port, c.to_port, c.cells.clone())).collect();
    assert_eq!(
        got,
        vec![
            (1, 5, 8, vec![29, 18, 6, 7, 19, 32]),
            (3, 3, 6, vec![27, 16, 4, 5, 17, 30]),
            (5, 11, 10, vec![35, 23, 11, 10, 22, 34]),
            (7, 2, 4, vec![26, 14, 2, 3, 15, 28]),
            (9, 9, 7, vec![33, 21, 9, 8, 20, 31]),
        ]
    );
    assert!(plan_side(10, Side::Top, &vec![0, 1, 0, 1, 0, 1, 0, 1, 0, 1], &alternating(10, true), true).is_none());
}

#[test]
fn strip_lanes_by_dp() {
    let n = 10;
    let w = sample_weights(n);
    let perms = generate_permutations();
    let t = build_transitions(&perms);
    let dirs = vec![true, false, true, false, true];
    let starts = vec![0, 10, 20, 30, 40];
    let sol = solve_strip_paths(n, &w, 0, &[0, 1, 2, 3, 4], &starts, &dirs, &vec![None; 5], &vec![None; 5], &perms, &t)
        .expect("lanes");
    assert_eq!(sol.rows, vec![[3, 1, 4, 2, 0], [2, 1, 4, 3, 0], [2, 0, 3, 4, 1], [3, 1, 2, 4, 0]]);
    let top = vec![Some(5), None, None, None, None];
    let bottom = vec![None, None, None, None, Some(9)];
    let sol = solve_strip_paths(n, &w, 1, &[0, 1, 2, 3, 4], &starts, &dirs, &top, &bottom, &perms, &t).expect("lanes");
    assert_eq!(sol.rows, vec![[1, 4, 2, 0, 3], [0, 3, 2, 1, 4], [0, 3, 1, 2, 4], [1, 4, 0, 2, 3]]);
    let unreachable = vec![Some(9), None, None, None, None];
    assert!(solve_strip_paths(n, &w, 0, &[0, 1, 2, 3, 4], &starts, &dirs, &unreachable, &vec![None; 5], &perms, &t)
        .is_none());
}

#[test]
fn strip_routes_need_the_right_shape() {
    let perms = generate_permutations();
    let t = build_transitions(&perms);
    let w = sample_weights(10);
    assert_eq!(build_route(10, &w, &vec![0, 1, 0, 1, 0, 1, 0, 1, 0, 1], true, &perms, &t), None);
    assert_eq!(build_route(10, &w, &vec![0, 1, 0, 1, 0], true, &perms, &t), None);
    let w12 = sample_weights(12);
    assert_eq!(build_route(12, &w12, &vec![0; 12], true, &perms, &t), None);
}

#[test]
fn feasibility_of_strip_sequences() {
    assert!(!is_strip_sequence_feasible(10, &vec![], true));
    assert!(!is_strip_sequence_feasible(10, &vec![0, 1, 0, 1], true));
    assert!(!is_strip_sequence_feasible(10, &vec![0, 1, 1, 0, 1], true));
    assert!(!is_strip_sequence_feasible(10, &vec![0, 1, 0, 1, 0, 1, 0, 1, 0, 1], true));
    assert_eq!(find_feasible_strip_sequence(10, 2, true), None);
}

#[test]
fn strip_pipeline_falls_back_to_the_row_snake() {
    for n in [10usize, 20] {
        let w = sample_weights(n);
        let a: Vec<Vec<i64>> = (0..n).map(|i| w[i * n..(i + 1) * n].to_vec()).collect();
        assert_eq!(solve_strips(n, &a), row_snake(n));
    }
}

fn lane_value(n: usize, w: &[i64], strip: usize, starts: &[usize], dirs: &[bool], rows: &[[u8; 5]]) -> i64 {
    let h = rows.len();
    let mut total = 0i64;
    for (r, row) in rows.iter().enumerate() {
        for o in 0..5 {
            let coeff = if dirs[o] { starts[o] + r } else { starts[o] + (h - 1 - r) } as i64;
            total += coeff * w[(3 + r) * n + strip * 5 + row[o] as usize];
        }
    }
    total
}

#[test]
fn strip_lanes_score_as_well_as_any_fixed_arrangement() {
    let n = 10;
    let w = sample_weights(n);
    let perms = generate_permutations();
    let t = build_transitions(&perms);
    let dirs = vec![true, false, true, false, true];
    let starts = vec![0, 10, 20, 30, 40];
    let sol = solve_strip_paths(n, &w, 0, &[0, 1, 2, 3, 4], &starts, &dirs, &vec![None; 5], &vec![None; 5], &perms, &t)
        .expect("lanes");
    let best = lane_value(n, &w, 0, &starts, &dirs, &sol.rows);
    for p in &perms {
        let row = [p[0] as u8, p[1] as u8, p[2] as u8, p[3] as u8, p[4] as u8];
        assert!(lane_value(n, &w, 0, &starts, &dirs, &vec![row; 4]) <= best);
    }
}

#[test]
fn euler_walk_uses_every_crossing() {
    assert_eq!(build_euler_like_strip_sequence(3, 2), vec![0, 1, 0, 1, 2]);
    assert_eq!(build_random_balanced_sequence(2, 5, 1), build_random_balanced_sequence(2, 5, 1));
}

#[test]
fn margins_cannot_be_planned_on_a_small_board() {
    assert!(plan_side(5, Side::Top, &vec![0, 0, 0, 0, 0], &alternating(5, true), true).is_none());
}

#[test]
fn strip_pipeline_needs_a_side_multiple_of_ten() {
    for n in [5usize, 12, 15] {
        let w = sample_weights(n);
        let a: Vec<Vec<i64>> = (0..n).map(|i| w[i * n..(i + 1) * n].to_vec()).collect();
        assert_eq!(solve_strips(n, &a), row_snake(n));
    }
}
