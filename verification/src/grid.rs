//! Cells, king moves, routes and their raw score on an `n` by `n` board.
//!
//! A cell is numbered `row * n + col`. A route is an order in which the cells
//! are visited; its raw score weighs the cell visited at step `t` by `t`.
use vstd::prelude::*;
use vstd::arithmetic::div_mod::{lemma_fundamental_div_mod_converse, lemma_fundamental_div_mod};
use vstd::arithmetic::mul::{lemma_mul_strict_inequality, lemma_mul_inequality};

verus! {

/// Largest number of cells handled (a board of side 1000).
pub const MAX_CELLS: usize = 1_000_000;

/// Largest absolute weight of a cell.
pub const MAX_WEIGHT: i64 = 1_000_000;

/// Row of cell `c`.
pub open spec fn row_of(n: int, c: int) -> int {
    c / n
}

/// Column of cell `c`.
pub open spec fn col_of(n: int, c: int) -> int {
    c % n
}

/// `u` and `v` are distinct cells one king move apart.
pub open spec fn adjacent(n: int, u: int, v: int) -> bool {
    let dr = row_of(n, u) - row_of(n, v);
    let dc = col_of(n, u) - col_of(n, v);
    -1 <= dr <= 1 && -1 <= dc <= 1 && !(dr == 0 && dc == 0)
}

/// The board side is usable: positive and with at most `MAX_CELLS` cells.
pub open spec fn valid_side(n: int) -> bool {
    0 < n && n * n <= MAX_CELLS
}

/// `route` visits every cell of the board exactly once.
pub open spec fn is_permutation_route(n: int, route: Seq<usize>) -> bool {
    &&& route.len() == n * n
    &&& forall|i: int| 0 <= i < route.len() ==> #[trigger] route[i] < n * n
    &&& route.no_duplicates()
}

/// Consecutive cells of `route` are king moves apart.
pub open spec fn is_king_walk(n: int, route: Seq<usize>) -> bool {
    forall|i: int| 0 <= i < route.len() - 1 ==> #[trigger] adjacent(n, route[i] as int, route[i + 1] as int)
}

/// `route` is a king-move path through every cell exactly once.
pub open spec fn is_route(n: int, route: Seq<usize>) -> bool {
    is_permutation_route(n, route) && is_king_walk(n, route)
}

/// Weights are within the handled range.
pub open spec fn weights_bounded(w: Seq<i64>) -> bool {
    forall|i: int| 0 <= i < w.len() ==> -MAX_WEIGHT <= #[trigger] w[i] <= MAX_WEIGHT
}

/// `sum_{t < k} t * w[route[t]]`.
pub open spec fn raw_prefix(route: Seq<usize>, w: Seq<i64>, k: int) -> int
    decreases k,
{
    if k <= 0 {
        0
    } else {
        raw_prefix(route, w, k - 1) + (k - 1) * w[route[k - 1] as int]
    }
}

/// The raw score: the weight of the cell at step `t` counted `t` times.
pub open spec fn raw_score(route: Seq<usize>, w: Seq<i64>) -> int {
    raw_prefix(route, w, route.len() as int)
}

/// Every cell of `route` indexes `w`.
pub open spec fn cells_in(route: Seq<usize>, len: int) -> bool {
    forall|i: int| 0 <= i < route.len() ==> #[trigger] route[i] < len
}

/// Row and column of `row * n + col`.
pub proof fn lemma_cell_coords(n: int, row: int, col: int)
    requires
        0 < n,
        0 <= col < n,
    ensures
        row_of(n, row * n + col) == row,
        col_of(n, row * n + col) == col,
{
    lemma_fundamental_div_mod_converse(row * n + col, n, row, col);
}

/// Every cell is `row * n + col` of its row and column.
pub proof fn lemma_cell_split(n: int, c: int)
    requires
        0 < n,
        0 <= c,
    ensures
        c == row_of(n, c) * n + col_of(n, c),
        0 <= col_of(n, c) < n,
        0 <= row_of(n, c),
{
    lemma_fundamental_div_mod(c, n);
    vstd::arithmetic::mul::lemma_mul_is_commutative(n, c / n);
    vstd::arithmetic::div_mod::lemma_div_pos_is_pos(c, n);
    vstd::arithmetic::div_mod::lemma_mod_bound(c, n);
}

/// The cell `row * n + col` is on the board exactly when `row < n`.
pub proof fn lemma_cell_bound(n: int, row: int, col: int)
    requires
        0 < n,
        0 <= row,
        0 <= col < n,
    ensures
        (row * n + col < n * n) == (row < n),
{
    if row < n {
        lemma_mul_inequality(row, n - 1, n);
        assert((n - 1) * n == n * n - n) by (nonlinear_arith);
    } else {
        lemma_mul_inequality(n, row, n);
    }
}

/// Whether `u` and `v` are one king move apart.
pub fn is_adj(u: usize, v: usize, n: usize) -> (res: bool)
    requires
        n > 0,
    ensures
        res == adjacent(n as int, u as int, v as int),
{
    let ui = u / n;
    let uj = u % n;
    let vi = v / n;
    let vj = v % n;
    let di = if ui > vi { ui - vi } else { vi - ui };
    let dj = if uj > vj { uj - vj } else { vj - uj };
    let m = if di > dj { di } else { dj };
    m == 1
}

/// Whether `route` is a king-move path through every cell of the board
/// exactly once.
pub fn is_valid_route(route: &[usize], n: usize) -> (ok: bool)
    requires
        valid_side(n as int),
    ensures
        ok == is_route(n as int, route@),
{
    let len = route.len();
    if len != n * n {
        return false;
    }
    let mut seen: Vec<bool> = vec![false; len];
    let mut k: usize = 0;
    while k < len
        invariant
            valid_side(n as int),
            len == route@.len() == n * n,
            seen@.len() == len,
            k <= len,
            forall|i: int| 0 <= i < k ==> #[trigger] route@[i] < len,
            forall|a: int, b: int| 0 <= a < b < k ==> route@[a] != route@[b],
            forall|c: int| 0 <= c < len ==> (#[trigger] seen@[c] <==> exists|i: int| 0 <= i < k && route@[i] == c),
        decreases len - k,
    {
        let cell = route[k];
        if cell >= len {
            return false;
        }
        if seen[cell] {
            proof {
                let i = choose|i: int| 0 <= i < k && route@[i] == cell;
                assert(route@[i] == route@[k as int]);
            }
            return false;
        }
        let ghost before = seen@;
        seen.set(cell, true);
        proof {
            assert forall|c: int| 0 <= c < len implies (#[trigger] seen@[c] <==> exists|i: int| 0 <= i < k + 1 && route@[i] == c) by {
                if c == cell {
                    assert(route@[k as int] == c);
                } else {
                    assert(seen@[c] == before[c]);
                    if exists|i: int| 0 <= i < k + 1 && route@[i] == c {
                        let i = choose|i: int| 0 <= i < k + 1 && route@[i] == c;
                        assert(i < k);
                    }
                }
            }
            assert forall|a: int, b: int| 0 <= a < b < k + 1 implies route@[a] != route@[b] by {
                if b == k {
                    if route@[a] == route@[b] {
                        assert(before[cell as int]);
                    }
                }
            }
        }
        k += 1;
    }
    proof {
        assert(route@.no_duplicates());
    }
    if len == 0 {
        return true;
    }
    let mut idx: usize = 0;
    while idx + 1 < len
        invariant
            valid_side(n as int),
            len == route@.len() == n * n,
            len >= 1,
            is_permutation_route(n as int, route@),
            idx + 1 <= len,
            forall|i: int| 0 <= i < idx ==> #[trigger] adjacent(n as int, route@[i] as int, route@[i + 1] as int),
        decreases len - idx,
    {
        if !is_adj(route[idx], route[idx + 1], n) {
            return false;
        }
        idx += 1;
    }
    true
}

/// The weights in row-major order.
/// The rows of `a` laid end to end: cell `c` gets `a[c / n][c % n]`.
pub open spec fn flat_of(n: int, a: Seq<Vec<i64>>) -> Seq<i64> {
    Seq::new((n * n) as nat, |c: int| a[c / n]@[c % n])
}

pub fn flatten_weights(n: usize, a: &Vec<Vec<i64>>) -> (weights: Vec<i64>)
    requires
        valid_side(n as int),
        a@.len() == n,
        forall|i: int| 0 <= i < n ==> #[trigger] a@[i]@.len() == n,
    ensures
        weights@.len() == n * n,
        forall|i: int, j: int| 0 <= i < n && 0 <= j < n ==> #[trigger] weights@[i * n + j] == a@[i]@[j],
        weights@ == flat_of(n as int, a@),
{
    let mut weights: Vec<i64> = Vec::new();
    proof { assert(0 * n == 0); }
    for i in 0..n
        invariant
            valid_side(n as int),
            a@.len() == n,
            forall|i: int| 0 <= i < n ==> #[trigger] a@[i]@.len() == n,
            weights@.len() == i * n,
            forall|r: int, c: int| 0 <= r < i && 0 <= c < n ==> #[trigger] weights@[r * n + c] == a@[r]@[c],
    {
        for j in 0..n
            invariant
                valid_side(n as int),
                i < n,
                a@.len() == n,
                forall|i: int| 0 <= i < n ==> #[trigger] a@[i]@.len() == n,
                weights@.len() == i * n + j,
                forall|r: int, c: int| 0 <= r < i && 0 <= c < n ==> #[trigger] weights@[r * n + c] == a@[r]@[c],
                forall|c: int| 0 <= c < j ==> #[trigger] weights@[i * n + c] == a@[i as int]@[c],
        {
            proof {
                assert(i * n + j < n * n) by (nonlinear_arith)
                    requires i < n, j < n;
            }
            weights.push(a[i][j]);
            proof {
                assert forall|r: int, c: int| 0 <= r < i && 0 <= c < n implies #[trigger] weights@[r * n + c] == a@[r]@[c] by {
                    assert(r * n + c < i * n) by (nonlinear_arith)
                        requires r < i, c < n;
                }
            }
        }
        proof {
            assert((i + 1) * n == i * n + n) by (nonlinear_arith);
        }
    }
    proof {
        assert forall|c: int| 0 <= c < n * n implies #[trigger] weights@[c] == flat_of(n as int, a@)[c] by {
            lemma_cell_split(n as int, c);
            let nn = n as int;
            lemma_cell_bound(nn, c / nn, c % nn);
            assert(weights@[(c / nn) * nn + c % nn] == a@[c / nn]@[c % nn]);
        }
        assert(weights@ =~= flat_of(n as int, a@));
    }
    weights
}


/// Position of the move from `c` to `v` in the order up-left, up, up-right,
/// left, (stay), right, down-left, down, down-right.
pub open spec fn move_rank(n: int, c: int, v: int) -> int {
    (row_of(n, v) - row_of(n, c) + 1) * 3 + (col_of(n, v) - col_of(n, c) + 1)
}

/// `s` lists, in increasing order, exactly the cells adjacent to `c`.
pub open spec fn lists_neighbors(n: int, c: int, s: Seq<usize>) -> bool {
    &&& forall|v: usize| #[trigger] s.contains(v) <==> (v < n * n && adjacent(n, c, v as int))
    &&& forall|a: int, b: int| 0 <= a < b < s.len() ==> s[a] < s[b]
}

proof fn lemma_cell_order(n: int, r1: int, c1: int, r2: int, c2: int)
    requires
        0 < n,
        0 <= c1 < n,
        0 <= c2 < n,
        r1 < r2 || (r1 == r2 && c1 < c2),
    ensures
        r1 * n + c1 < r2 * n + c2,
{
    if r1 < r2 {
        assert(r1 * n + n <= r2 * n) by (nonlinear_arith)
            requires r1 < r2, 0 < n;
    }
}

/// The king neighbours of `(i, j)`, in increasing order.
fn cell_neighbors(n: usize, i: usize, j: usize) -> (nb: Vec<usize>)
    requires
        valid_side(n as int),
        i < n,
        j < n,
    ensures
        lists_neighbors(n as int, (i * n + j) as int, nb@),
{
    let ghost c = (i * n + j) as int;
    proof {
        assert(i * n + j < n * n) by (nonlinear_arith) requires i < n, j < n;
        lemma_cell_coords(n as int, i as int, j as int);
    }
    let mut nb: Vec<usize> = Vec::new();
    for di in 0..3usize
        invariant
            valid_side(n as int),
            i < n,
            j < n,
            c == i * n + j,
            c < n * n,
            row_of(n as int, c) == i,
            col_of(n as int, c) == j,
            forall|a: int| 0 <= a < nb@.len() ==> #[trigger] nb@[a] < n * n && adjacent(n as int, c, nb@[a] as int) && move_rank(n as int, c, nb@[a] as int) < di * 3,
            forall|v: usize| v < n * n && adjacent(n as int, c, v as int) && move_rank(n as int, c, v as int) < di * 3 ==> nb@.contains(v),
            forall|a: int, b: int| 0 <= a < b < nb@.len() ==> nb@[a] < nb@[b],
    {
        for dj in 0..3usize
            invariant
                valid_side(n as int),
                i < n,
                j < n,
                di < 3,
                c == i * n + j,
                c < n * n,
                row_of(n as int, c) == i,
                col_of(n as int, c) == j,
                forall|a: int| 0 <= a < nb@.len() ==> #[trigger] nb@[a] < n * n && adjacent(n as int, c, nb@[a] as int) && move_rank(n as int, c, nb@[a] as int) < di * 3 + dj,
                forall|v: usize| v < n * n && adjacent(n as int, c, v as int) && move_rank(n as int, c, v as int) < di * 3 + dj ==> nb@.contains(v),
                forall|a: int, b: int| 0 <= a < b < nb@.len() ==> nb@[a] < nb@[b],
        {
            let inside = !(di == 1 && dj == 1) && i + di >= 1 && i + di - 1 < n && j + dj >= 1 && j + dj - 1 < n;
            proof {
                // any adjacent cell of this rank is the one built here
                assert forall|v: usize| v < n * n && adjacent(n as int, c, v as int) && move_rank(n as int, c, v as int) == di * 3 + dj implies inside && v == (i + di - 1) * n + (j + dj - 1) by {
                    lemma_cell_split(n as int, v as int);
                }
            }
            if inside {
                let ni = i + di - 1;
                let nj = j + dj - 1;
                proof {
                    lemma_cell_bound(n as int, ni as int, nj as int);
                    lemma_cell_coords(n as int, ni as int, nj as int);
                }
                let v = ni * n + nj;
                proof {
                    if nb@.len() > 0 {
                        let last = nb@[nb@.len() - 1];
                        lemma_cell_split(n as int, last as int);
                        lemma_cell_order(n as int, row_of(n as int, last as int), col_of(n as int, last as int), ni as int, nj as int);
                    }
                }
                let ghost old_nb = nb@;
                nb.push(v);
                proof {
                    assert forall|w: usize| w < n * n && adjacent(n as int, c, w as int) && move_rank(n as int, c, w as int) < di * 3 + dj + 1 implies nb@.contains(w) by {
                        if move_rank(n as int, c, w as int) < di * 3 + dj {
                            assert(old_nb.contains(w));
                            let k = choose|k: int| 0 <= k < old_nb.len() && old_nb[k] == w;
                            assert(nb@[k] == w);
                        } else {
                            assert(nb@[nb@.len() - 1] == w);
                        }
                    }
                }
            } else {
                proof {
                    assert forall|w: usize| w < n * n && adjacent(n as int, c, w as int) && move_rank(n as int, c, w as int) < di * 3 + dj + 1 implies nb@.contains(w) by {
                        if move_rank(n as int, c, w as int) == di * 3 + dj {
                            lemma_cell_split(n as int, w as int);
                        }
                    }
                }
            }
        }
    }
    proof {
        assert forall|v: usize| #[trigger] nb@.contains(v) implies (v < n * n && adjacent(n as int, c, v as int)) by {
            let k = choose|k: int| 0 <= k < nb@.len() && nb@[k] == v;
            assert(nb@[k] == v);
        }
        assert forall|v: usize| v < n * n && adjacent(n as int, c, v as int) implies #[trigger] nb@.contains(v) by {
            lemma_cell_split(n as int, v as int);
        }
    }
    nb
}

/// For every cell, the list of its king neighbours in increasing order.
pub fn build_neighbors(n: usize) -> (neighbors: Vec<Vec<usize>>)
    requires
        valid_side(n as int),
    ensures
        neighbors@.len() == n * n,
        forall|c: int| 0 <= c < n * n ==> lists_neighbors(n as int, c, #[trigger] neighbors@[c]@),
{
    let mut neighbors: Vec<Vec<usize>> = Vec::new();
    proof {
        assert(0 * n == 0);
    }
    for i in 0..n
        invariant
            valid_side(n as int),
            neighbors@.len() == i * n,
            forall|c: int| 0 <= c < i * n ==> lists_neighbors(n as int, c, #[trigger] neighbors@[c]@),
    {
        for j in 0..n
            invariant
                valid_side(n as int),
                i < n,
                neighbors@.len() == i * n + j,
                forall|c: int| 0 <= c < i * n + j ==> lists_neighbors(n as int, c, #[trigger] neighbors@[c]@),
        {
            let nb = cell_neighbors(n, i, j);
            neighbors.push(nb);
        }
        proof {
            assert((i + 1) * n == i * n + n) by (nonlinear_arith);
        }
    }
    neighbors
}


/// The sum stays within `k * MAX_CELLS * MAX_WEIGHT` in absolute value.
pub proof fn lemma_raw_prefix_bound(route: Seq<usize>, w: Seq<i64>, k: int)
    requires
        0 <= k <= route.len() <= MAX_CELLS,
        cells_in(route, w.len() as int),
        weights_bounded(w),
    ensures
        -k * (MAX_CELLS * MAX_WEIGHT) <= raw_prefix(route, w, k) <= k * (MAX_CELLS * MAX_WEIGHT),
    decreases k,
{
    if k > 0 {
        lemma_raw_prefix_bound(route, w, k - 1);
        let x = w[route[k - 1] as int];
        assert(-MAX_WEIGHT <= x <= MAX_WEIGHT);
        assert(-(MAX_CELLS * MAX_WEIGHT) <= (k - 1) * x <= MAX_CELLS * MAX_WEIGHT) by (nonlinear_arith)
            requires 0 <= k - 1 < MAX_CELLS, -MAX_WEIGHT <= x <= MAX_WEIGHT;
    }
}

/// The raw score of a route.
pub fn compute_raw_score(route: &[usize], weights: &[i64]) -> (score: i64)
    requires
        route@.len() <= MAX_CELLS,
        cells_in(route@, weights@.len() as int),
        weights_bounded(weights@),
    ensures
        score == raw_score(route@, weights@),
{
    let mut acc: i64 = 0;
    let mut idx: usize = 0;
    while idx < route.len()
        invariant
            idx <= route@.len() <= MAX_CELLS,
            cells_in(route@, weights@.len() as int),
            weights_bounded(weights@),
            acc == raw_prefix(route@, weights@, idx as int),
        decreases route@.len() - idx,
    {
        proof {
            lemma_raw_prefix_bound(route@, weights@, idx + 1);
        }
        let cell = route[idx];
        proof {
            assert((idx + 1) * (MAX_CELLS * MAX_WEIGHT) <= 1_000_000_000_000_000_000) by (nonlinear_arith)
                requires idx + 1 <= MAX_CELLS;
            let x = weights@[cell as int];
            assert(-(MAX_CELLS * MAX_WEIGHT) <= idx * x <= MAX_CELLS * MAX_WEIGHT) by (nonlinear_arith)
                requires 0 <= idx < MAX_CELLS, -MAX_WEIGHT <= x <= MAX_WEIGHT;
            let p = raw_prefix(route@, weights@, idx + 1);
            assert(p == acc + idx * x);
            assert(-1_000_000_000_000_000_000 <= p <= 1_000_000_000_000_000_000) by (nonlinear_arith)
                requires -(idx + 1) * (MAX_CELLS * MAX_WEIGHT) <= p <= (idx + 1) * (MAX_CELLS * MAX_WEIGHT), idx + 1 <= MAX_CELLS;
        }
        acc = acc + idx as i64 * weights[cell];
        idx += 1;
    }
    acc
}

/// The raw score of the route walked backwards.
pub fn compute_raw_score_reversed(route: &[usize], weights: &[i64]) -> (score: i64)
    requires
        route@.len() <= MAX_CELLS,
        cells_in(route@, weights@.len() as int),
        weights_bounded(weights@),
    ensures
        score == raw_score(route@.reverse(), weights@),
{
    let ghost rev = route@.reverse();
    let len = route.len();
    let mut acc: i64 = 0;
    let mut idx: usize = 0;
    while idx < len
        invariant
            len == route@.len(),
            rev == route@.reverse(),
            idx <= len <= MAX_CELLS,
            cells_in(route@, weights@.len() as int),
            weights_bounded(weights@),
            acc == raw_prefix(rev, weights@, idx as int),
        decreases len - idx,
    {
        proof {
            assert(cells_in(rev, weights@.len() as int));
            lemma_raw_prefix_bound(rev, weights@, idx + 1);
        }
        let cell = route[len - 1 - idx];
        assert(rev[idx as int] == route@[len - 1 - idx]);
        proof {
            let x = weights@[cell as int];
            let p = raw_prefix(rev, weights@, idx + 1);
            assert(p == acc + idx * x);
            assert(-1_000_000_000_000_000_000 <= p <= 1_000_000_000_000_000_000) by (nonlinear_arith)
                requires -(idx + 1) * (MAX_CELLS * MAX_WEIGHT) <= p <= (idx + 1) * (MAX_CELLS * MAX_WEIGHT), idx + 1 <= MAX_CELLS;
            assert(-(MAX_CELLS * MAX_WEIGHT) <= idx * x <= MAX_CELLS * MAX_WEIGHT) by (nonlinear_arith)
                requires 0 <= idx < MAX_CELLS, -MAX_WEIGHT <= x <= MAX_WEIGHT;
        }
        acc = acc + idx as i64 * weights[cell];
        idx += 1;
    }
    acc
}

/// Cell at step `k` of the row snake: rows top to bottom, even rows left to
/// right, odd rows right to left.
pub open spec fn snake_cell(n: int, k: int) -> int {
    let i = k / n;
    let j = k % n;
    if i % 2 == 0 {
        i * n + j
    } else {
        i * n + (n - 1 - j)
    }
}

/// The route `k -> f(k)` for `k < n * n`.
pub open spec fn route_of(n: int, f: spec_fn(int) -> int) -> Seq<usize> {
    Seq::new((n * n) as nat, |k: int| f(k) as usize)
}

/// The row snake.
pub open spec fn row_snake_spec(n: int) -> Seq<usize> {
    route_of(n, |k: int| snake_cell(n, k))
}

/// Transposed cell: `(row, col) -> (col, row)`.
pub open spec fn transpose_cell(n: int, c: int) -> int {
    col_of(n, c) * n + row_of(n, c)
}

/// The route with every cell transposed.
pub open spec fn transpose_spec(n: int, route: Seq<usize>) -> Seq<usize> {
    route.map_values(|c: usize| transpose_cell(n, c as int) as usize)
}

pub(crate) proof fn lemma_snake_cell(n: int, k: int)
    requires
        0 < n,
        0 <= k < n * n,
    ensures
        0 <= snake_cell(n, k) < n * n,
        row_of(n, snake_cell(n, k)) == k / n,
        k / n % 2 == 0 ==> col_of(n, snake_cell(n, k)) == k % n,
        k / n % 2 != 0 ==> col_of(n, snake_cell(n, k)) == n - 1 - k % n,
{
    lemma_cell_split(n, k);
    lemma_cell_bound(n, k / n, k % n);
    let j = if k / n % 2 == 0 { k % n } else { n - 1 - k % n };
    lemma_cell_coords(n, k / n, j);
    lemma_cell_bound(n, k / n, j);
}

/// The row snake is a route.
pub proof fn lemma_row_snake_route(n: int)
    requires
        valid_side(n),
    ensures
        is_route(n, row_snake_spec(n)),
{
    let r = row_snake_spec(n);
    assert forall|k: int| 0 <= k < r.len() implies #[trigger] r[k] < n * n by {
        lemma_snake_cell(n, k);
    }
    assert forall|a: int, b: int| 0 <= a < r.len() && 0 <= b < r.len() && a != b implies r[a] != r[b] by {
        lemma_snake_cell(n, a);
        lemma_snake_cell(n, b);
        assert(r[a] as int == snake_cell(n, a));
        assert(r[b] as int == snake_cell(n, b));
        lemma_cell_split(n, a);
        lemma_cell_split(n, b);
        if r[a] == r[b] {
            lemma_cell_split(n, snake_cell(n, a));
        }
    }
    assert forall|k: int| 0 <= k < r.len() - 1 implies #[trigger] adjacent(n, r[k] as int, r[k + 1] as int) by {
        lemma_snake_cell(n, k);
        lemma_snake_cell(n, k + 1);
        assert(r[k] as int == snake_cell(n, k));
        assert(r[k + 1] as int == snake_cell(n, k + 1));
        lemma_cell_split(n, k);
        if k % n < n - 1 {
            lemma_cell_coords(n, k / n, k % n + 1);
        } else {
            assert(k + 1 == (k / n + 1) * n + 0) by (nonlinear_arith)
                requires k == (k / n) * n + k % n, k % n == n - 1;
            lemma_cell_coords(n, k / n + 1, 0);
        }
    }
}

/// Transposing keeps a route a route.
pub proof fn lemma_transpose_route(n: int, route: Seq<usize>)
    requires
        valid_side(n),
        is_route(n, route),
    ensures
        is_route(n, transpose_spec(n, route)),
{
    let t = transpose_spec(n, route);
    assert forall|k: int| 0 <= k < t.len() implies #[trigger] t[k] < n * n && transpose_cell(n, route[k] as int) < n * n by {
        lemma_cell_split(n, route[k] as int);
        lemma_cell_bound(n, row_of(n, route[k] as int), col_of(n, route[k] as int));
        lemma_cell_bound(n, col_of(n, route[k] as int), row_of(n, route[k] as int));
    }
    assert forall|a: int, b: int| 0 <= a < t.len() && 0 <= b < t.len() && a != b implies t[a] != t[b] by {
        let ca = route[a] as int;
        let cb = route[b] as int;
        lemma_cell_split(n, ca);
        lemma_cell_split(n, cb);
        lemma_cell_bound(n, row_of(n, ca), col_of(n, ca));
        lemma_cell_bound(n, col_of(n, ca), row_of(n, ca));
        lemma_cell_bound(n, row_of(n, cb), col_of(n, cb));
        lemma_cell_bound(n, col_of(n, cb), row_of(n, cb));
        lemma_cell_coords(n, col_of(n, ca), row_of(n, ca));
        lemma_cell_coords(n, col_of(n, cb), row_of(n, cb));
        assert(t[a] as int == transpose_cell(n, ca));
        assert(t[b] as int == transpose_cell(n, cb));
        assert(route[a] != route[b]);
    }
    assert forall|k: int| 0 <= k < t.len() - 1 implies #[trigger] adjacent(n, t[k] as int, t[k + 1] as int) by {
        let ca = route[k] as int;
        let cb = route[k + 1] as int;
        assert(adjacent(n, ca, cb));
        lemma_cell_split(n, ca);
        lemma_cell_split(n, cb);
        lemma_cell_bound(n, row_of(n, ca), col_of(n, ca));
        lemma_cell_bound(n, row_of(n, cb), col_of(n, cb));
        lemma_cell_coords(n, col_of(n, ca), row_of(n, ca));
        lemma_cell_coords(n, col_of(n, cb), row_of(n, cb));
        lemma_cell_bound(n, col_of(n, ca), row_of(n, ca));
        lemma_cell_bound(n, col_of(n, cb), row_of(n, cb));
        assert(t[k] as int == transpose_cell(n, ca));
        assert(t[k + 1] as int == transpose_cell(n, cb));
    }
}

/// Transposing keeps cells a king move apart.
pub proof fn lemma_transpose_adjacent(n: int, u: int, v: int)
    requires
        valid_side(n),
        0 <= u < n * n,
        0 <= v < n * n,
        adjacent(n, u, v),
    ensures
        adjacent(n, transpose_cell(n, u), transpose_cell(n, v)),
        0 <= transpose_cell(n, u) < n * n,
{
    lemma_cell_split(n, u);
    lemma_cell_split(n, v);
    lemma_cell_bound(n, row_of(n, u), col_of(n, u));
    lemma_cell_bound(n, row_of(n, v), col_of(n, v));
    lemma_cell_coords(n, col_of(n, u), row_of(n, u));
    lemma_cell_coords(n, col_of(n, v), row_of(n, v));
    lemma_cell_bound(n, col_of(n, u), row_of(n, u));
    lemma_cell_bound(n, col_of(n, v), row_of(n, v));
}

/// Every cell transposed: `(row, col) -> (col, row)`.
pub fn transpose_route(route: &[usize], n: usize) -> (res: Vec<usize>)
    requires
        valid_side(n as int),
        cells_in(route@, n * n),
    ensures
        res@ == transpose_spec(n as int, route@),
{
    let mut res: Vec<usize> = Vec::new();
    let mut idx: usize = 0;
    while idx < route.len()
        invariant
            valid_side(n as int),
            cells_in(route@, n * n),
            idx <= route@.len(),
            res@.len() == idx,
            forall|k: int| 0 <= k < idx ==> #[trigger] res@[k] == transpose_cell(n as int, route@[k] as int),
        decreases route@.len() - idx,
    {
        let cell = route[idx];
        proof {
            lemma_cell_split(n as int, cell as int);
            lemma_cell_bound(n as int, row_of(n as int, cell as int), col_of(n as int, cell as int));
            lemma_cell_bound(n as int, col_of(n as int, cell as int), row_of(n as int, cell as int));
        }
        res.push((cell % n) * n + cell / n);
        idx += 1;
    }
    proof {
        assert(res@ =~= transpose_spec(n as int, route@));
    }
    res
}

/// The row snake: rows top to bottom, even rows left to right, odd rows
/// right to left.
pub fn row_snake(n: usize) -> (route: Vec<usize>)
    requires
        valid_side(n as int),
    ensures
        route@ == row_snake_spec(n as int),
        is_route(n as int, route@),
{
    let mut route: Vec<usize> = Vec::new();
    proof { assert(0 * n == 0); }
    for i in 0..n
        invariant
            valid_side(n as int),
            route@.len() == i * n,
            forall|k: int| 0 <= k < i * n ==> #[trigger] route@[k] == snake_cell(n as int, k),
    {
        if i % 2 == 0 {
            for j in 0..n
                invariant
                    valid_side(n as int),
                    i < n,
                    i % 2 == 0,
                    route@.len() == i * n + j,
                    forall|k: int| 0 <= k < i * n + j ==> #[trigger] route@[k] == snake_cell(n as int, k),
            {
                proof {
                    assert(i * n + j < n * n) by (nonlinear_arith) requires i < n, j < n;
                    lemma_cell_coords(n as int, i as int, j as int);
                }
                route.push(i * n + j);
            }
        } else {
            for jj in 0..n
                invariant
                    valid_side(n as int),
                    i < n,
                    i % 2 == 1,
                    route@.len() == i * n + jj,
                    forall|k: int| 0 <= k < i * n + jj ==> #[trigger] route@[k] == snake_cell(n as int, k),
            {
                let j = n - 1 - jj;
                proof {
                    assert(i * n + j < n * n) by (nonlinear_arith) requires i < n, j < n;
                    lemma_cell_coords(n as int, i as int, jj as int);
                }
                route.push(i * n + j);
            }
        }
        proof {
            assert((i + 1) * n == i * n + n) by (nonlinear_arith);
        }
    }
    proof {
        assert(route@ =~= row_snake_spec(n as int));
        lemma_row_snake_route(n as int);
    }
    route
}

/// The column snake: the row snake transposed.
pub fn col_snake(n: usize) -> (route: Vec<usize>)
    requires
        valid_side(n as int),
    ensures
        route@ == transpose_spec(n as int, row_snake_spec(n as int)),
        is_route(n as int, route@),
{
    let mut route: Vec<usize> = Vec::new();
    proof { assert(0 * n == 0); }
    for j in 0..n
        invariant
            valid_side(n as int),
            route@.len() == j * n,
            forall|k: int| 0 <= k < j * n ==> #[trigger] route@[k] == transpose_cell(n as int, snake_cell(n as int, k)),
    {
        for ii in 0..n
            invariant
                valid_side(n as int),
                j < n,
                route@.len() == j * n + ii,
                forall|k: int| 0 <= k < j * n + ii ==> #[trigger] route@[k] == transpose_cell(n as int, snake_cell(n as int, k)),
        {
            let i = if j % 2 == 0 { ii } else { n - 1 - ii };
            proof {
                assert(i * n + j < n * n) by (nonlinear_arith) requires i < n, j < n;
                assert(j * n + ii < n * n) by (nonlinear_arith) requires ii < n, j < n;
                lemma_cell_coords(n as int, j as int, ii as int);
                lemma_snake_cell(n as int, j * n + ii);
                lemma_cell_split(n as int, snake_cell(n as int, j * n + ii));
            }
            route.push(i * n + j);
        }
        proof {
            assert((j + 1) * n == j * n + n) by (nonlinear_arith);
        }
    }
    proof {
        assert forall|k: int| 0 <= k < n * n implies #[trigger] route@[k] == transpose_spec(n as int, row_snake_spec(n as int))[k] by {
            lemma_snake_cell(n as int, k);
            assert(row_snake_spec(n as int)[k] as int == snake_cell(n as int, k));
        }
        assert(route@ =~= transpose_spec(n as int, row_snake_spec(n as int)));
        lemma_row_snake_route(n as int);
        lemma_transpose_route(n as int, row_snake_spec(n as int));
    }
    route
}


/// A duplicate-free sequence of `m` values below `m` holds every value below `m`.
pub proof fn lemma_permutation_covers(m: int, route: Seq<usize>)
    requires
        route.len() == m,
        forall|i: int| 0 <= i < route.len() ==> #[trigger] route[i] < m,
        route.no_duplicates(),
    ensures
        forall|c: int| 0 <= c < m ==> #[trigger] route.contains(c as usize),
{
    let ints = route.map_values(|x: usize| x as int);
    route.lemma_no_duplicates_injective(|x: usize| x as int);
    assert(ints.no_duplicates());
    ints.unique_seq_to_set();
    let s = ints.to_set();
    let range = vstd::set_lib::set_int_range(0, m);
    vstd::set_lib::lemma_int_range(0, m);
    assert(s.subset_of(range)) by {
        assert forall|x: int| s.contains(x) implies range.contains(x) by {
            let i = choose|i: int| 0 <= i < ints.len() && ints[i] == x;
            assert(route[i] < m);
        }
    }
    vstd::set_lib::lemma_len_subset(s, range);
    vstd::set_lib::lemma_subset_equality(s, range);
    assert forall|c: int| 0 <= c < m implies #[trigger] route.contains(c as usize) by {
        assert(range.contains(c));
        assert(s.contains(c));
        let i = choose|i: int| 0 <= i < ints.len() && ints[i] == c;
        assert(route[i] == c as usize);
    }
}

} // verus!
