use ahc_solvers::bitboard::{bfs128, expand128, get128, set128, pop128, select128, select64, select32, IN_GRID, N1};

#[test]
fn print_in_grid() {
    let mut in_grid = 0u128;
    for x in 0..10 {
        for y in 0..10 {
            in_grid |= 1 << (x * N1 + y);
        }
    }
    println!("{:#x}", in_grid);
    assert_eq!(in_grid, IN_GRID);
}

#[test]
fn set_and_get_bits() {
    let mut b = 0u128;
    set128(&mut b, 5, true);
    set128(&mut b, 100, true);
    assert!(get128(b, 5));
    assert!(get128(b, 100));
    assert!(!get128(b, 6));
    set128(&mut b, 5, false);
    assert!(!get128(b, 5));
    assert_eq!(b, 1u128 << 100);
}

#[test]
fn pop_takes_lowest_bit() {
    let mut b = (1u128 << 3) | (1u128 << 40) | (1u128 << 127);
    assert_eq!(pop128(&mut b), 3);
    assert_eq!(pop128(&mut b), 40);
    assert_eq!(pop128(&mut b), 127);
    assert_eq!(b, 0);
}

#[test]
fn select_finds_ith_set_bit() {
    let b = (1u128 << 2) | (1u128 << 64) | (1u128 << 90);
    assert_eq!(select128(b, 0), 2);
    assert_eq!(select128(b, 1), 64);
    assert_eq!(select128(b, 2), 90);
    assert_eq!(select64(0b1011_0000u64, 2), 7);
    assert_eq!(select32(0b1001u32, 1), 3);
}

#[test]
fn expand_grows_to_neighbours_inside_grid() {
    // cell (0, 0) grows to (0, 1) and (1, 0) only
    let b = 1u128;
    let e = expand128(b);
    assert_eq!(e, 1u128 | (1u128 << 1) | (1u128 << N1));
    // the guard column never appears
    let corner = 1u128 << 9;
    assert_eq!(expand128(corner) & !IN_GRID, 0);
}

#[test]
fn bfs_stays_in_valid_cells() {
    // a horizontal corridor on row 0
    let mut valid = 0u128;
    for y in 0..5 {
        valid |= 1u128 << y;
    }
    let reach = bfs128(0, 0, valid);
    assert_eq!(reach, valid);
    // an unreachable cell stays out
    let island = valid | (1u128 << (3 * N1 + 3));
    assert_eq!(bfs128(0, 0, island), valid);
}
