use ahc_solvers::grid::{compute_raw_score, row_snake};
use ahc_solvers::symmetry::{apply_symmetry_to_route, symmetries, transform_cell, transform_weights, Symmetry};

fn is_king_route(route: &[usize], n: usize) -> bool {
    let mut seen = vec![false; n * n];
    for &c in route {
        if c >= n * n || seen[c] {
            return false;
        }
        seen[c] = true;
    }
    route.len() == n * n
        && route.windows(2).all(|p| {
            let (a, b) = (p[0], p[1]);
            let dr = (a / n).abs_diff(b / n);
            let dc = (a % n).abs_diff(b % n);
            dr.max(dc) == 1
        })
}

#[test]
fn eight_symmetries() {
    let s = symmetries();
    assert_eq!(s.len(), 8);
    assert_eq!(s[0], Symmetry { transpose: false, flip_row: false, flip_col: false });
    assert_eq!(s[7], Symmetry { transpose: true, flip_row: true, flip_col: true });
}

#[test]
fn transforming_cells() {
    let id = Symmetry { transpose: false, flip_row: false, flip_col: false };
    let tr = Symmetry { transpose: true, flip_row: false, flip_col: false };
    let rot = Symmetry { transpose: true, flip_row: false, flip_col: true };
    assert_eq!(transform_cell(0, 2, 3, id), (0, 2));
    assert_eq!(transform_cell(0, 2, 3, tr), (2, 0));
    assert_eq!(transform_cell(0, 2, 3, rot), (2, 2));
}

#[test]
fn images_of_routes_stay_routes() {
    let route = row_snake(4);
    for s in symmetries() {
        let image = apply_symmetry_to_route(&route, 4, s);
        assert!(is_king_route(&image, 4));
    }
}

#[test]
fn scores_survive_a_symmetry() {
    // a route scored against transformed weights equals its image scored against the original weights
    let w: Vec<i64> = (1..=16).map(|x| (x * 7 % 17) as i64).collect();
    let route = row_snake(4);
    for s in symmetries() {
        let tw = transform_weights(4, &w, s);
        let image = apply_symmetry_to_route(&route, 4, s);
        assert_eq!(compute_raw_score(&route, &tw), compute_raw_score(&image, &w));
    }
}
