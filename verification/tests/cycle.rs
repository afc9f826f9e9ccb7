use ahc_solvers::cycle::{
    best_initial_cycle, best_rotation_score, build_rank_by_cell, build_rank_to_cell, check_cycle, edge_rank_penalty,
    relinearize_best_cut, rotate_left, row_cycle, total_cycle_penalty,
};
use ahc_solvers::grid::compute_raw_score;

#[test]
fn row_cycles() {
    assert_eq!(row_cycle(2), vec![0, 2, 3, 1]);
    assert_eq!(row_cycle(4), vec![0, 4, 8, 12, 13, 14, 15, 11, 10, 9, 5, 6, 7, 3, 2, 1]);
    assert!(check_cycle(&row_cycle(4), 4));
    assert!(check_cycle(&row_cycle(6), 6));
}

#[test]
fn check_cycle_needs_a_closing_move() {
    assert!(check_cycle(&[0, 1, 3, 2], 2));
    // a snake of 3 by 3 ends far from its start
    assert!(!check_cycle(&[0, 1, 2, 5, 4, 3, 6, 7, 8], 3));
    // a jump in the middle
    assert!(!check_cycle(&[0, 1, 3, 2, 8, 7, 6, 5, 4], 3));
}

#[test]
fn rotation() {
    let mut r = vec![1, 2, 3, 4];
    rotate_left(&mut r, 1);
    assert_eq!(r, vec![2, 3, 4, 1]);
    rotate_left(&mut r, 0);
    assert_eq!(r, vec![2, 3, 4, 1]);
}

#[test]
fn ranks() {
    assert_eq!(build_rank_by_cell(&[3, 1, 2]), vec![2, 0, 1]);
    assert_eq!(build_rank_to_cell(&[3, 1, 2]), vec![1, 2, 0]);
    let rank = vec![2, 0, 1];
    assert_eq!(edge_rank_penalty(0, 1, &rank), 1);
    assert_eq!(edge_rank_penalty(1, 0, &rank), 0);
    // 0 -> 1 drops, 1 -> 2 rises, 2 -> 0 rises (closing edge)
    assert_eq!(total_cycle_penalty(&[0, 1, 2], &rank), 1);
}

#[test]
fn best_rotation_without_rank_bonus() {
    let route = [0, 2, 3, 1];
    let w = [1, 2, 3, 4];
    let (raw, cut, s) = best_rotation_score(&route, &w, &[], 0);
    assert_eq!(raw, cut);
    // rotations: [0,2,3,1] -> 0+3+8+6=17, [2,3,1,0] -> 0+4+4+3=11,
    // [3,1,0,2] -> 0+2+2+9=13, [1,0,2,3] -> 0+1+6+12=19
    assert_eq!((raw, s), (19, 3));
    let mut r = route.to_vec();
    assert_eq!(relinearize_best_cut(&mut r, &w, &[], 0), 19);
    assert_eq!(r, vec![1, 0, 2, 3]);
}

#[test]
fn best_initial_cycle_is_a_cycle_cut_at_its_best() {
    let w: Vec<i64> = (1..=16).collect();
    let rank = build_rank_by_cell(&w);
    let route = best_initial_cycle(4, &w, &rank, 0);
    assert_eq!(route.len(), 16);
    assert!(check_cycle(&route, 4));
    let mut sorted = route.clone();
    sorted.sort();
    assert_eq!(sorted, (0..16).collect::<Vec<usize>>());
    // no cut of the same tour scores more
    let score = compute_raw_score(&route, &w);
    for s in 0..16 {
        let mut other = route.clone();
        other.rotate_left(s);
        assert!(compute_raw_score(&other, &w) <= score);
    }
}
