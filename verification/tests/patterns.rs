use ahc_solvers::patterns::{
    apply_symmetry, block_id, boundary_mask, build_block_cells, build_cell_coords, build_local_coords, build_states,
    cell_adj, cell_id, coords_adj, corner_pair_slot, diag_snake_coords, evaluate_path, int_sqrt_exact,
    pair_weave_coords, row_snake_coords, validate_path,
};

#[test]
fn ids() {
    assert_eq!(cell_id(2, 3, 10), 23);
    assert_eq!(block_id(1, 1, 5), 6);
}

#[test]
fn block_cells() {
    let blocks = build_block_cells(4, 2);
    assert_eq!(blocks.len(), 4);
    assert_eq!(blocks[0], [0, 1, 4, 5]);
    assert_eq!(blocks[3], [10, 11, 14, 15]);
}

#[test]
fn states_are_ordered_pairs_of_distinct_corners() {
    let s = build_states();
    assert_eq!(s[0], (0, 1));
    assert_eq!(s[11], (3, 2));
    assert!(s.iter().all(|&(a, b)| a != b));
}

#[test]
fn coordinates() {
    let coords = build_cell_coords(3);
    assert_eq!(coords[5], (1, 2));
    let local = build_local_coords(2);
    assert_eq!(local, vec![(0, 0), (0, 1), (1, 0), (1, 1)]);
    assert!(coords_adj((0, 0), (1, 1)));
    assert!(!coords_adj((0, 0), (0, 0)));
    assert!(!coords_adj((0, 0), (2, 1)));
    assert!(cell_adj(0, 4, &coords));
    assert!(!cell_adj(0, 2, &coords));
}

#[test]
fn symmetries_of_a_square() {
    assert_eq!(apply_symmetry(0, 1, 3, 0), (0, 1));
    assert_eq!(apply_symmetry(0, 1, 3, 1), (1, 2));
    assert_eq!(apply_symmetry(0, 1, 3, 2), (2, 1));
    assert_eq!(apply_symmetry(0, 1, 3, 6), (1, 0));
    assert_eq!(apply_symmetry(0, 1, 3, 7), (1, 2));
}

#[test]
fn traversal_patterns() {
    assert_eq!(
        row_snake_coords(3),
        vec![(0, 0), (0, 1), (0, 2), (1, 2), (1, 1), (1, 0), (2, 0), (2, 1), (2, 2)]
    );
    assert_eq!(
        pair_weave_coords(4),
        vec![
            (0, 0), (1, 0), (0, 1), (1, 1), (0, 2), (1, 2), (0, 3), (1, 3),
            (2, 3), (3, 3), (2, 2), (3, 2), (2, 1), (3, 1), (2, 0), (3, 0)
        ]
    );
    assert_eq!(
        diag_snake_coords(3),
        vec![(0, 0), (0, 1), (1, 0), (2, 0), (1, 1), (0, 2), (1, 2), (2, 1), (2, 2)]
    );
    assert_eq!(diag_snake_coords(1), vec![(0, 0)]);
}

#[test]
fn border_masks() {
    let coords = build_cell_coords(3);
    assert_eq!(boundary_mask(0, &coords, 0, 2, 0, 2), 1 | 4);
    assert_eq!(boundary_mask(8, &coords, 0, 2, 0, 2), 2 | 8);
    assert_eq!(boundary_mask(4, &coords, 0, 2, 0, 2), 0);
    assert_eq!(boundary_mask(4, &coords, 1, 1, 1, 1), 15);
}

#[test]
fn path_validation() {
    let coords = build_cell_coords(3);
    assert!(validate_path(&[0, 1, 2, 5, 4, 3, 6, 7, 8], 3, &coords));
    assert!(!validate_path(&[0, 1, 2, 5, 4, 3, 6, 7], 3, &coords));
    assert!(!validate_path(&[0, 1, 2, 5, 4, 3, 6, 7, 7], 3, &coords));
    assert!(!validate_path(&[0, 2, 1, 5, 4, 3, 6, 7, 8], 3, &coords));
    assert!(!validate_path(&[0, 1, 2, 5, 4, 3, 6, 7, 9], 3, &coords));
}

#[test]
fn exact_square_roots() {
    assert_eq!(int_sqrt_exact(0), 0);
    assert_eq!(int_sqrt_exact(1), 1);
    assert_eq!(int_sqrt_exact(144), 12);
    assert_eq!(int_sqrt_exact(40000), 200);
    assert_eq!(int_sqrt_exact(4294967296), 65536);
}

#[test]
fn corner_slots() {
    assert_eq!(corner_pair_slot(0, 4, 5), Some(0));
    assert_eq!(corner_pair_slot(4, 0, 5), Some(0));
    assert_eq!(corner_pair_slot(20, 0, 5), Some(1));
    assert_eq!(corner_pair_slot(0, 24, 5), Some(2));
    assert_eq!(corner_pair_slot(4, 20, 5), Some(3));
    assert_eq!(corner_pair_slot(24, 4, 5), Some(4));
    assert_eq!(corner_pair_slot(20, 24, 5), Some(5));
    assert_eq!(corner_pair_slot(1, 24, 5), None);
    assert_eq!(corner_pair_slot(0, 0, 5), None);
}

#[test]
fn evaluating_a_path() {
    let values = [10, 20, 30, 40];
    let r = evaluate_path(&[3, 1, 0, 2], &values);
    // 0*40 + 1*20 + 2*10 + 3*30
    assert_eq!(r.raw_score, 130);
    assert_eq!(r.path, vec![3, 1, 0, 2]);
    assert_eq!(r.positions, vec![2, 1, 3, 0]);
}
