use ahc_solvers::grid::{
    build_neighbors, col_snake, compute_raw_score, compute_raw_score_reversed, flatten_weights, is_adj, row_snake,
    transpose_route,
};
use ahc_solvers::moves::reverse_range;

#[test]
fn snakes_on_three_by_three() {
    assert_eq!(row_snake(3), vec![0, 1, 2, 5, 4, 3, 6, 7, 8]);
    assert_eq!(col_snake(3), vec![0, 3, 6, 7, 4, 1, 2, 5, 8]);
    assert_eq!(transpose_route(&row_snake(3), 3), col_snake(3));
}

#[test]
fn transposing_twice_gives_back_the_route() {
    let route = vec![4, 0, 1, 2, 5, 8, 7, 6, 3];
    assert_eq!(transpose_route(&transpose_route(&route, 3), 3), route);
}

#[test]
fn king_adjacency() {
    assert!(is_adj(0, 4, 3));
    assert!(is_adj(4, 0, 3));
    assert!(is_adj(1, 2, 3));
    assert!(!is_adj(0, 2, 3));
    assert!(!is_adj(2, 3, 3));
    assert!(!is_adj(4, 4, 3));
}

#[test]
fn neighbour_lists_are_sorted() {
    let nb = build_neighbors(3);
    assert_eq!(nb.len(), 9);
    assert_eq!(nb[0], vec![1, 3, 4]);
    assert_eq!(nb[4], vec![0, 1, 2, 3, 5, 6, 7, 8]);
    assert_eq!(nb[8], vec![4, 5, 7]);
}

#[test]
fn flatten_is_row_major() {
    assert_eq!(flatten_weights(2, &vec![vec![1, 2], vec![3, 4]]), vec![1, 2, 3, 4]);
}

#[test]
fn raw_scores() {
    let w = [1, 2, 3, 4];
    // 0*1 + 1*2 + 2*4 + 3*3
    assert_eq!(compute_raw_score(&[0, 1, 3, 2], &w), 19);
    // the same route walked backwards: 0*3 + 1*4 + 2*2 + 3*1
    assert_eq!(compute_raw_score_reversed(&[0, 1, 3, 2], &w), 11);
    let w16: Vec<i64> = (1..=16).collect();
    assert_eq!(compute_raw_score(&row_snake(4), &w16), 1340);
}

#[test]
fn reversing_a_range() {
    let mut r = vec![0, 1, 2, 3, 4];
    reverse_range(&mut r, 1, 3);
    assert_eq!(r, vec![0, 3, 2, 1, 4]);
    reverse_range(&mut r, 1, 3);
    assert_eq!(r, vec![0, 1, 2, 3, 4]);
}
