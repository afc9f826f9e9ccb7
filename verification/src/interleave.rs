//! Routes over strips of five columns: the plain striped column snakes, and
//! the round-interleaved route whose lanes inside each strip are placed by
//! dynamic programming.
use vstd::prelude::*;
use crate::grid::{row_of, col_of, is_route, is_permutation_route, valid_side, raw_score, weights_bounded, MAX_CELLS,
    MAX_WEIGHT, route_of, snake_cell, transpose_cell, transpose_spec, row_snake_spec, lemma_snake_cell, lemma_cell_coords,
    lemma_cell_split, lemma_cell_bound, lemma_row_snake_route, lemma_transpose_route, compute_raw_score};
use crate::symmetry::{Symmetry, route_image, transform_cell_spec, lemma_route_image, symmetries, transform_weights,
    apply_symmetry_to_route, lemma_transform_cell};
use crate::solvers::{backwards, backwards_copy, lemma_backwards_route, first_best};
use crate::strips::{is_perm5, transition_ok, perm_tables_ok, dist, STRIP_W};
use crate::window::NEG_INF;

verus! {

/// Cell at step `k` of the striped snake: column `g = k / n` is walked
/// down when its parity within its strip of five matches the strip's
/// direction (strip `0` down when `first_down`, alternating), else up.
pub open spec fn striped_cell(n: int, first_down: bool, k: int) -> int {
    let g = k / n;
    let t = k % n;
    let strip = g / 5;
    let lc = g % 5;
    let down = (lc % 2 == 0) == ((strip % 2 == 0) == first_down);
    (if down { t } else { n - 1 - t }) * n + g
}

/// The striped snake.
pub open spec fn striped_spec(n: int, first_down: bool) -> Seq<usize> {
    route_of(n, |k: int| striped_cell(n, first_down, k))
}

/// Flipping rows.
pub open spec fn flip_rows() -> Symmetry {
    Symmetry { transpose: false, flip_row: true, flip_col: false }
}

/// Parity of a column inside its strip of five against its global parity.
proof fn lemma_strip_parity(strip: int, lc: int)
    requires
        0 <= strip,
        0 <= lc < 5,
    ensures
        ((lc % 2 == 0) == (strip % 2 == 0)) == ((strip * 5 + lc) % 2 == 0),
{
    assert((strip * 5 + lc) % 2 == (strip + lc) % 2) by (nonlinear_arith)
        requires 0 <= strip, 0 <= lc < 5;
}

/// The striped snake that starts down is the column snake; the other one is
/// its image with rows flipped. Both are routes.
pub proof fn lemma_striped_route(n: int)
    requires
        valid_side(n),
        n % 5 == 0,
    ensures
        striped_spec(n, true) == transpose_spec(n, row_snake_spec(n)),
        striped_spec(n, false) == route_image(n, flip_rows(), striped_spec(n, true)),
        is_route(n, striped_spec(n, true)),
        is_route(n, striped_spec(n, false)),
{
    let a = striped_spec(n, true);
    let b = striped_spec(n, false);
    let c = transpose_spec(n, row_snake_spec(n));
    assert forall|k: int| 0 <= k < n * n implies #[trigger] a[k] == c[k] && b[k] == route_image(n, flip_rows(), a)[k] by {
        lemma_cell_split(n, k);
        let g = k / n;
        let t = k % n;
        lemma_cell_bound(n, g, t);
        lemma_snake_cell(n, k);
        lemma_cell_split(n, snake_cell(n, k));
        lemma_cell_split(5, g);
        lemma_strip_parity(g / 5, g % 5);
        let row = if g % 2 == 0 { t } else { n - 1 - t };
        assert(striped_cell(n, true, k) == row * n + g);
        assert(row_snake_spec(n)[k] as int == snake_cell(n, k));
        lemma_cell_bound(n, col_of(n, snake_cell(n, k)), row_of(n, snake_cell(n, k)));
        assert(c[k] as int == transpose_cell(n, snake_cell(n, k)));
        lemma_cell_coords(n, row, g);
        lemma_cell_bound(n, row, g);
        lemma_cell_bound(n, n - 1 - row, g);
        assert(transform_cell_spec(n, flip_rows(), row * n + g) == (n - 1 - row) * n + g);
    }
    assert(a =~= c);
    assert(b =~= route_image(n, flip_rows(), a));
    lemma_row_snake_route(n);
    lemma_transpose_route(n, row_snake_spec(n));
    lemma_route_image(n, flip_rows(), a);
}

/// The columns walked as strips of five: within a strip the columns
/// alternate direction, strip `0` starting down when `first_down`, and the
/// strips alternate their starting direction.
pub fn simple_striped_route(n: usize, first_down: bool) -> (route: Vec<usize>)
    requires
        valid_side(n as int),
        n % 5 == 0,
    ensures
        route@ == striped_spec(n as int, first_down),
        is_route(n as int, route@),
{
    let strip_count = n / 5;
    let mut route: Vec<usize> = Vec::new();
    let mut strip: usize = 0;
    while strip < strip_count
        invariant
            valid_side(n as int),
            n % 5 == 0,
            strip_count * 5 == n,
            strip <= strip_count,
            route@.len() == strip * 5 * n,
            forall|k: int| 0 <= k < route@.len() ==> #[trigger] route@[k] == striped_cell(n as int, first_down, k),
        decreases strip_count - strip,
    {
        let dir_down = (strip % 2 == 0) == first_down;
        let mut local_col: usize = 0;
        while local_col < 5
            invariant
                valid_side(n as int),
                strip_count * 5 == n,
                strip < strip_count,
                local_col <= 5,
                dir_down == ((strip % 2 == 0) == first_down),
                route@.len() == (strip * 5 + local_col) * n,
                forall|k: int| 0 <= k < route@.len() ==> #[trigger] route@[k] == striped_cell(n as int, first_down, k),
            decreases 5 - local_col,
        {
            let downward = (local_col % 2 == 0) == dir_down;
            let global_col = strip * 5 + local_col;
            let mut t: usize = 0;
            while t < n
                invariant
                    valid_side(n as int),
                    strip_count * 5 == n,
                    strip < strip_count,
                    local_col < 5,
                    global_col == strip * 5 + local_col,
                    global_col < n,
                    downward == ((local_col % 2 == 0) == ((strip % 2 == 0) == first_down)),
                    t <= n,
                    route@.len() == global_col * n + t,
                    forall|k: int| 0 <= k < route@.len() ==> #[trigger] route@[k] == striped_cell(n as int, first_down, k),
                decreases n - t,
            {
                let row = if downward { t } else { n - 1 - t };
                proof {
                    lemma_cell_coords(n as int, global_col as int, t as int);
                    lemma_cell_coords(5, strip as int, local_col as int);
                    lemma_cell_bound(n as int, row as int, global_col as int);
                    lemma_cell_bound(n as int, global_col as int, t as int);
                }
                route.push(row * n + global_col);
                t += 1;
            }
            proof {
                assert((strip * 5 + local_col + 1) * n == (strip * 5 + local_col) * n + n) by (nonlinear_arith);
            }
            local_col += 1;
        }
        proof {
            assert((strip + 1) * 5 * n == (strip * 5 + 5) * n) by (nonlinear_arith);
        }
        strip += 1;
    }
    proof {
        assert(route@.len() == n * n) by (nonlinear_arith) requires route@.len() == strip * 5 * n, strip * 5 == n;
        assert(route@ =~= striped_spec(n as int, first_down));
        lemma_striped_route(n as int);
    }
    route
}

/// Of the striped snake starting down, the other striped snake walked
/// backwards and the first one walked backwards, the one with the highest
/// raw score (the first in that order on ties).
pub fn best_legal_strip_route(n: usize, weights: &[i64]) -> (route: Vec<usize>)
    requires
        valid_side(n as int),
        n % 5 == 0,
        weights@.len() == n * n,
        weights_bounded(weights@),
    ensures
        is_route(n as int, route@),
        route@ == striped_spec(n as int, true) || route@ == backwards(striped_spec(n as int, false))
            || route@ == backwards(striped_spec(n as int, true)),
        raw_score(route@, weights@) >= raw_score(striped_spec(n as int, true), weights@),
        raw_score(route@, weights@) >= raw_score(backwards(striped_spec(n as int, false)), weights@),
        raw_score(route@, weights@) >= raw_score(backwards(striped_spec(n as int, true)), weights@),
{
    let cand_a = simple_striped_route(n, true);
    let cand_b0 = simple_striped_route(n, false);
    proof {
        assert(cand_a@.len() >= 1) by (nonlinear_arith) requires cand_a@.len() == n * n, n > 0;
        lemma_backwards_route(n as int, cand_a@);
        lemma_backwards_route(n as int, cand_b0@);
    }
    let cand_c = backwards_copy(&cand_a);
    let cand_b = backwards_copy(&cand_b0);
    let mut best = cand_a;
    let mut best_score = compute_raw_score(best.as_slice(), weights);
    let score_b = compute_raw_score(cand_b.as_slice(), weights);
    if score_b > best_score {
        best_score = score_b;
        best = cand_b;
    }
    let score_c = compute_raw_score(cand_c.as_slice(), weights);
    if score_c > best_score {
        best = cand_c;
    }
    best
}

/// Bonus per column of lean towards the preferred side of a strip.
pub const SIDE_BIAS: i64 = 5_000_000;

/// The bonus of a lane at local column `col`: its distance from the side
/// away from the preferred one, times `SIDE_BIAS`.
pub open spec fn side_bias_spec(prefer_right: bool, col: int) -> int {
    (if prefer_right { col } else { 4 - col }) * 5_000_000
}

/// See `side_bias_spec`.
pub fn side_bias(prefer_right: bool, col: usize) -> (b: i64)
    requires
        col < 5,
    ensures
        b == side_bias_spec(prefer_right, col as int),
{
    let level = if prefer_right { col } else { 4 - col };
    level as i64 * SIDE_BIAS
}

/// The side bonus of the first `k` rounds of `perm` on the top or bottom
/// row of `strip`: round `r` prefers the right side on the top row when
/// `strip + r` is odd, on the bottom row when it is even.
pub open spec fn endpoint_bias_spec(strip: int, top_row: bool, perm: Seq<usize>, k: int) -> int
    decreases k,
{
    if k <= 0 {
        0
    } else {
        let r = k - 1;
        let pref_right = if top_row { (strip + r) % 2 == 1 } else { (strip + r) % 2 == 0 };
        endpoint_bias_spec(strip, top_row, perm, k - 1) + side_bias_spec(pref_right, perm[r] as int)
    }
}

/// The side bonus of `perm` on the top or bottom row of `strip`, so that
/// the lanes end where the next pass of the round starts.
pub fn endpoint_bias(strip: usize, top_row: bool, perm: &[usize; 5]) -> (b: i64)
    requires
        strip <= 1000,
        forall|o: int| 0 <= o < 5 ==> #[trigger] perm@[o] < 5,
    ensures
        b == endpoint_bias_spec(strip as int, top_row, perm@, 5),
        0 <= b <= 100_000_000,
{
    let mut bias: i64 = 0;
    let mut round: usize = 0;
    while round < STRIP_W
        invariant
            strip <= 1000,
            forall|o: int| 0 <= o < 5 ==> #[trigger] perm@[o] < 5,
            round <= STRIP_W,
            bias == endpoint_bias_spec(strip as int, top_row, perm@, round as int),
            0 <= bias <= round * 20_000_000,
        decreases STRIP_W - round,
    {
        let pref_right = if top_row { (strip + round) % 2 == 1 } else { (strip + round) % 2 == 0 };
        bias = bias + side_bias(pref_right, perm[round]);
        round += 1;
    }
    bias
}

/// Step of the route at which the lane pass of round `round`, `strip`
/// visits `row`: rounds go over the strips left to right on even rounds and
/// right to left on odd ones, each pass down on even positions and up on
/// odd ones.
pub open spec fn lane_coeff(n: int, strip_count: int, strip: int, row: int, round: int) -> int {
    let pos = if round % 2 == 0 { strip } else { strip_count - 1 - strip };
    let offset = if pos % 2 == 0 { row } else { n - 1 - row };
    (round * strip_count + pos) * n + offset
}

/// Local columns of row `r` of the lane rows.
pub open spec fn lane(rows: Seq<[u8; 5]>, r: int) -> Seq<usize> {
    Seq::new(5, |o: int| rows[r]@[o] as usize)
}

/// `rows` places the five lanes of a strip on each of its `n` rows: a
/// permutation of the local columns on every row, each lane moving at most
/// one column from row to row.
pub open spec fn lane_rows_ok(n: int, rows: Seq<[u8; 5]>) -> bool {
    &&& rows.len() == n
    &&& forall|r: int| 0 <= r < n ==> #[trigger] is_perm5(lane(rows, r))
    &&& forall|r: int| 1 <= r < n ==> transition_ok(#[trigger] lane(rows, r - 1), lane(rows, r))
}

/// Largest magnitude of one row's value in the lane DP.
pub open spec fn lane_row_bound() -> int {
    6_000_000_000_000
}

/// Sum over the first `k` rounds of the lane's step times its cell weight.
pub open spec fn lane_sum(n: int, strip_count: int, w: Seq<i64>, strip: int, row: int, perm: Seq<usize>, k: int) -> int
    decreases k,
{
    if k <= 0 {
        0
    } else {
        lane_sum(n, strip_count, w, strip, row, perm, k - 1)
            + lane_coeff(n, strip_count, strip, row, k - 1) * w[row * n + strip * 5 + perm[k - 1]]
    }
}

/// See `lane_row_value`.
pub open spec fn lane_row_value_spec(n: int, strip_count: int, w: Seq<i64>, strip: int, row: int, perm: Seq<usize>) -> int {
    lane_sum(n, strip_count, w, strip, row, perm, 5)
        + (if row == 0 { endpoint_bias_spec(strip, true, perm, 5) } else { 0 })
        + (if row + 1 == n { endpoint_bias_spec(strip, false, perm, 5) } else { 0 })
}

/// The value of lanes `perm` on `row` of `strip`: each lane's cell weight
/// times the step at which its pass visits the row, plus the side bonus on
/// the first and the last row.
fn lane_row_value(n: usize, weights: &[i64], strip: usize, strip_count: usize, row: usize, perm: &[usize; 5]) -> (v: i64)
    requires
        valid_side(n as int),
        strip_count * 5 <= n,
        strip < strip_count,
        row < n,
        weights@.len() == n * n,
        weights_bounded(weights@),
        is_perm5(perm@),
    ensures
        v == lane_row_value_spec(n as int, strip_count as int, weights@, strip as int, row as int, perm@),
        -lane_row_bound() <= v <= lane_row_bound(),
{
    let mut value: i64 = 0;
    let mut round: usize = 0;
    while round < STRIP_W
        invariant
            valid_side(n as int),
            strip_count * 5 <= n,
            strip < strip_count,
            row < n,
            weights@.len() == n * n,
            weights_bounded(weights@),
            is_perm5(perm@),
            round <= STRIP_W,
            value == lane_sum(n as int, strip_count as int, weights@, strip as int, row as int, perm@, round as int),
            -(round as int) * 1_000_000_000_000 <= value <= (round as int) * 1_000_000_000_000,
        decreases STRIP_W - round,
    {
        let pos = if round % 2 == 0 { strip } else { strip_count - 1 - strip };
        let offset = if pos % 2 == 0 { row } else { n - 1 - row };
        proof {
            assert((round * strip_count + pos) * n + offset < n * n) by (nonlinear_arith)
                requires round < 5, pos < strip_count, offset < n, strip_count * 5 <= n;
            assert(0 <= (round * strip_count + pos) * n + offset) by (nonlinear_arith)
                requires round < 5, pos < strip_count, offset < n;
            assert(round * strip_count <= n) by (nonlinear_arith) requires round < 5, strip_count * 5 <= n;
            assert((round * strip_count + pos) * n <= n * n) by (nonlinear_arith)
                requires round < 5, pos < strip_count, strip_count * 5 <= n;
            assert(n * n <= 1_000_000);
            assert((round * strip_count + pos) * n <= 1_000_000);
            assert(n <= 1000) by (nonlinear_arith) requires n * n <= 1_000_000, n > 0;
            assert(round * strip_count + pos <= 2 * n);
        }
        let coeff = ((round * strip_count + pos) * n + offset) as i64;
        let col = perm[round];
        let global_col = strip * STRIP_W + col;
        proof {
            assert(global_col < n) by (nonlinear_arith) requires global_col == strip * 5 + col, col < 5, strip < strip_count, strip_count * 5 <= n;
            lemma_cell_bound(n as int, row as int, global_col as int);
        }
        let w = weights[row * n + global_col];
        proof {
            assert(-MAX_WEIGHT <= w <= MAX_WEIGHT);
            assert(-1_000_000_000_000 <= coeff * w <= 1_000_000_000_000) by (nonlinear_arith)
                requires 0 <= coeff <= 1_000_000, -1_000_000 <= w <= 1_000_000;
        }
        value = value + coeff * w;
        round += 1;
    }
    proof {
        assert(n <= 1000) by (nonlinear_arith) requires n * n <= 1_000_000, n > 0;
    }
    if row == 0 {
        value = value + endpoint_bias(strip, true, perm);
    }
    if row + 1 == n {
        value = value + endpoint_bias(strip, false, perm);
    }
    value
}

/// Sum of the row values of the first `k` rows of the lane placement `p`.
pub open spec fn lane_value(n: int, strip_count: int, w: Seq<i64>, strip: int, p: Seq<Seq<usize>>, k: int) -> int
    decreases k,
{
    if k <= 0 {
        0
    } else {
        lane_value(n, strip_count, w, strip, p, k - 1) + lane_row_value_spec(n, strip_count, w, strip, k - 1, p[k - 1])
    }
}

/// `p` places the lanes on its `k` rows: a permutation of the five local
/// columns on each, each lane moving at most one column between rows.
pub open spec fn lane_prefix(k: int, p: Seq<Seq<usize>>) -> bool {
    &&& p.len() == k
    &&& forall|r: int| 0 <= r < k ==> #[trigger] is_perm5(p[r])
    &&& forall|r: int| 1 <= r < k ==> transition_ok(#[trigger] p[r - 1], p[r])
}

/// The lane rows as sequences of columns.
pub open spec fn lanes_of(rows: Seq<[u8; 5]>) -> Seq<Seq<usize>> {
    Seq::new(rows.len(), |r: int| lane(rows, r))
}

proof fn lemma_lane_value_prefix(n: int, sc: int, w: Seq<i64>, strip: int, p: Seq<Seq<usize>>, q: Seq<Seq<usize>>, k: int)
    requires
        0 <= k <= p.len(),
        k <= q.len(),
        forall|r: int| 0 <= r < k ==> p[r] == q[r],
    ensures
        lane_value(n, sc, w, strip, p, k) == lane_value(n, sc, w, strip, q, k),
    decreases k,
{
    if k > 0 {
        lemma_lane_value_prefix(n, sc, w, strip, p, q, k - 1);
        assert(p[k - 1] == q[k - 1]);
    }
}

/// `paths[r][s]` extends the path of its recorded predecessor by `perms[s]`.
pub open spec fn lane_linked(perms: Seq<[usize; 5]>, parent: Seq<Vec<usize>>, paths: Seq<Seq<Seq<Seq<usize>>>>, r: int, s: int) -> bool {
    parent[r]@[s] < perms.len() && paths[r][s] == paths[r - 1][parent[r]@[s] as int].push(perms[s]@)
}

/// The DP state after `row` rows: `paths[r][s]` is a placement of the
/// first `r + 1` rows ending in `perms[s]`, linked through `parent`; the
/// values of the last row's paths are `dp`, and no placement of `row` rows
/// ending in `perms[s]` is worth more than `dp[s]`.
pub open spec fn lane_dp_ok(n: int, sc: int, w: Seq<i64>, strip: int, perms: Seq<[usize; 5]>, row: int, dp: Seq<i64>,
    parent: Seq<Vec<usize>>, paths: Seq<Seq<Seq<Seq<usize>>>>) -> bool {
    &&& 1 <= row
    &&& paths.len() == row
    &&& dp.len() == perms.len()
    &&& forall|r: int| 0 <= r < row ==> (#[trigger] paths[r]).len() == perms.len()
    &&& forall|r: int, s: int| 0 <= r < row && 0 <= s < perms.len() ==>
        lane_prefix(r + 1, #[trigger] paths[r][s]) && paths[r][s][r] == perms[s]@
    &&& forall|r: int, s: int| 1 <= r < row && 0 <= s < perms.len() ==> #[trigger] lane_linked(perms, parent, paths, r, s)
    &&& forall|s: int| 0 <= s < perms.len() ==> lane_value(n, sc, w, strip, paths[row - 1][s], row) == #[trigger] dp[s]
    &&& forall|p: Seq<Seq<usize>>, s: int| #![trigger lane_prefix(row, p), perms[s]]
        lane_prefix(row, p) && 0 <= s < perms.len() && p[row - 1] == perms[s]@
        ==> lane_value(n, sc, w, strip, p, row) <= dp[s]
}

/// A placement of `row + 1` rows ending in `perms[cur]` is worth at most
/// the best over the allowed predecessors.
proof fn lemma_lane_extend_bound(n: int, sc: int, w: Seq<i64>, strip: int, perms: Seq<[usize; 5]>, transitions: Seq<Vec<usize>>,
    row: int, dp: Seq<i64>, parent: Seq<Vec<usize>>, paths: Seq<Seq<Seq<Seq<usize>>>>, cur: int, rs: int, best: int,
    p: Seq<Seq<usize>>)
    requires
        perm_tables_ok(perms, transitions),
        lane_dp_ok(n, sc, w, strip, perms, row, dp, parent, paths),
        perms.len() <= usize::MAX,
        0 <= cur < perms.len(),
        rs == lane_row_value_spec(n, sc, w, strip, row, perms[cur]@),
        forall|j: int| 0 <= j < transitions[cur]@.len() ==> dp[#[trigger] transitions[cur]@[j] as int] + rs <= best,
        lane_prefix(row + 1, p),
        p[row] == perms[cur]@,
    ensures
        lane_value(n, sc, w, strip, p, row + 1) <= best,
{
    let q = p.drop_last();
    assert(lane_prefix(row, q)) by {
        assert forall|r: int| 0 <= r < row implies #[trigger] is_perm5(q[r]) by {
            assert(is_perm5(p[r]));
        }
        assert forall|r: int| 1 <= r < row implies transition_ok(#[trigger] q[r - 1], q[r]) by {
            assert(transition_ok(p[r - 1], p[r]));
        }
    }
    assert(is_perm5(p[row - 1]));
    let i = choose|i: int| 0 <= i < perms.len() && #[trigger] perms[i]@ == p[row - 1];
    assert(transition_ok(perms[i]@, perms[cur]@)) by {
        assert(transition_ok(p[row - 1], p[row]));
    }
    let t = transitions[cur]@;
    assert(t.contains(i as usize));
    let j = choose|j: int| 0 <= j < t.len() && t[j] == i as usize;
    assert(dp[t[j] as int] + rs <= best);
    assert(t[j] as int == i);
    assert(lane_value(n, sc, w, strip, q, row) <= dp[i]);
    lemma_lane_value_prefix(n, sc, w, strip, p, q, row);
    assert(lane_value(n, sc, w, strip, p, row + 1) == lane_value(n, sc, w, strip, p, row)
        + lane_row_value_spec(n, sc, w, strip, row, p[row]));
}

/// Places the five lanes of `strip` on every row by dynamic programming
/// over the permutations of `perms` (each row's permutation among those
/// `transitions` allows after the previous row's), maximizing the sum of
/// the row values (see `lane_row_value`); the first best final state is
/// traced back. The rows are a valid lane placement.
pub fn solve_lane_rows(
    n: usize,
    weights: &[i64],
    strip: usize,
    strip_count: usize,
    perms: &Vec<[usize; 5]>,
    transitions: &Vec<Vec<usize>>,
) -> (rows: Vec<[u8; 5]>)
    requires
        valid_side(n as int),
        strip_count * 5 <= n,
        strip < strip_count,
        weights@.len() == n * n,
        weights_bounded(weights@),
        perm_tables_ok(perms@, transitions@),
    ensures
        lane_rows_ok(n as int, rows@),
        forall|p: Seq<Seq<usize>>| #[trigger] lane_prefix(n as int, p) ==>
            lane_value(n as int, strip_count as int, weights@, strip as int, p, n as int)
                <= lane_value(n as int, strip_count as int, weights@, strip as int, lanes_of(rows@), n as int),
{
    let ghost nn = n as int;
    let ghost sc = strip_count as int;
    let ghost ww = weights@;
    let ghost st = strip as int;
    let count = perms.len();
    let ghost pm = perms@;
    proof {
        assert(is_perm5(seq![0usize, 1, 2, 3, 4]));
        let i = choose|i: int| 0 <= i < pm.len() && #[trigger] pm[i]@ == seq![0usize, 1, 2, 3, 4];
        assert(count >= 1);
        assert(n <= 1000) by (nonlinear_arith) requires n * n <= 1_000_000, n > 0;
    }
    let mut row_score: Vec<Vec<i64>> = Vec::new();
    let mut row: usize = 0;
    while row < n
        invariant
            valid_side(n as int),
            strip_count * 5 <= n,
            strip < strip_count,
            weights@.len() == n * n,
            weights_bounded(weights@),
            perm_tables_ok(perms@, transitions@),
            count == perms@.len(),
            row <= n,
            row_score@.len() == row,
            forall|x: int| 0 <= x < row ==> (#[trigger] row_score@[x])@.len() == count,
            forall|x: int, s: int| 0 <= x < row && 0 <= s < count ==>
                -lane_row_bound() <= #[trigger] row_score@[x]@[s] <= lane_row_bound()
                && row_score@[x]@[s] == lane_row_value_spec(nn, sc, ww, st, x, perms@[s]@),
            nn == n && sc == strip_count && ww == weights@ && st == strip,
        decreases n - row,
    {
        let mut scores: Vec<i64> = Vec::new();
        let mut idx: usize = 0;
        while idx < count
            invariant
                valid_side(n as int),
                strip_count * 5 <= n,
                strip < strip_count,
                row < n,
                weights@.len() == n * n,
                weights_bounded(weights@),
                perm_tables_ok(perms@, transitions@),
                count == perms@.len(),
                idx <= count,
                scores@.len() == idx,
                forall|s: int| 0 <= s < idx ==> -lane_row_bound() <= #[trigger] scores@[s] <= lane_row_bound()
                    && scores@[s] == lane_row_value_spec(nn, sc, ww, st, row as int, perms@[s]@),
                nn == n && sc == strip_count && ww == weights@ && st == strip,
            decreases count - idx,
        {
            proof {
                assert(is_perm5(perms@[idx as int]@));
            }
            let v = lane_row_value(n, weights, strip, strip_count, row, &perms[idx]);
            scores.push(v);
            idx += 1;
        }
        row_score.push(scores);
        row += 1;
    }
    let mut dp_prev: Vec<i64> = row_score[0].clone();
    let mut parent: Vec<Vec<usize>> = Vec::new();
    parent.push(vec![0usize; count]);
    let ghost mut paths: Seq<Seq<Seq<Seq<usize>>>> = seq![Seq::new(count as nat, |s: int| seq![perms@[s]@])];
    proof {
        assert(dp_prev@ =~= row_score@[0]@);
        assert forall|s: int| 0 <= s < count implies lane_prefix(1, #[trigger] paths[0][s]) && paths[0][s][0] == perms@[s]@ by {
            assert(is_perm5(perms@[s]@));
        }
        assert forall|s: int| 0 <= s < count implies lane_value(nn, sc, ww, st, paths[0 as int][s], 1) == #[trigger] dp_prev@[s] by {
            assert(row_score@[0]@[s] == lane_row_value_spec(nn, sc, ww, st, 0, perms@[s]@));
            assert(paths[0 as int][s] == seq![perms@[s]@]);
            assert(paths[0 as int][s][0] == perms@[s]@);
            assert(lane_value(nn, sc, ww, st, paths[0 as int][s], 1) == lane_value(nn, sc, ww, st, paths[0 as int][s], 0)
                + lane_row_value_spec(nn, sc, ww, st, 0, paths[0 as int][s][0]));
        }
        assert forall|p: Seq<Seq<usize>>, s: int| #![trigger lane_prefix(1, p), perms@[s]]
            lane_prefix(1, p) && 0 <= s < count && p[0] == perms@[s]@
            implies lane_value(nn, sc, ww, st, p, 1) <= dp_prev@[s] by {
            assert(row_score@[0]@[s] == lane_row_value_spec(nn, sc, ww, st, 0, perms@[s]@));
            assert(lane_value(nn, sc, ww, st, p, 1) == lane_value(nn, sc, ww, st, p, 0)
                + lane_row_value_spec(nn, sc, ww, st, 0, p[0]));
        }
        assert(lane_dp_ok(nn, sc, ww, st, perms@, 1, dp_prev@, parent@, paths));
    }
    let mut row: usize = 1;
    while row < n
        invariant
            1 <= row <= n,
            n <= 1000,
            perm_tables_ok(perms@, transitions@),
            count == perms@.len(),
            count >= 1,
            nn == n && sc == strip_count && ww == weights@ && st == strip,
            row_score@.len() == n,
            forall|x: int| 0 <= x < n ==> (#[trigger] row_score@[x])@.len() == count,
            forall|x: int, s: int| 0 <= x < n && 0 <= s < count ==>
                -lane_row_bound() <= #[trigger] row_score@[x]@[s] <= lane_row_bound()
                && row_score@[x]@[s] == lane_row_value_spec(nn, sc, ww, st, x, perms@[s]@),
            forall|s: int| 0 <= s < count ==> -(row as int) * lane_row_bound() <= #[trigger] dp_prev@[s] <= (row as int) * lane_row_bound(),
            parent@.len() == row,
            forall|x: int| 0 <= x < row ==> (#[trigger] parent@[x])@.len() == count,
            lane_dp_ok(nn, sc, ww, st, perms@, row as int, dp_prev@, parent@, paths),
        decreases n - row,
    {
        let mut dp_cur: Vec<i64> = Vec::new();
        let mut par: Vec<usize> = Vec::new();
        let ghost mut new_row: Seq<Seq<Seq<usize>>> = Seq::empty();
        let mut cur: usize = 0;
        while cur < count
            invariant
                1 <= row < n,
                n <= 1000,
                perm_tables_ok(perms@, transitions@),
                count == perms@.len(),
                nn == n && sc == strip_count && ww == weights@ && st == strip,
                row_score@.len() == n,
                forall|x: int| 0 <= x < n ==> (#[trigger] row_score@[x])@.len() == count,
                forall|x: int, s: int| 0 <= x < n && 0 <= s < count ==>
                    -lane_row_bound() <= #[trigger] row_score@[x]@[s] <= lane_row_bound()
                    && row_score@[x]@[s] == lane_row_value_spec(nn, sc, ww, st, x, perms@[s]@),
                forall|s: int| 0 <= s < count ==> -(row as int) * lane_row_bound() <= #[trigger] dp_prev@[s] <= (row as int) * lane_row_bound(),
                lane_dp_ok(nn, sc, ww, st, perms@, row as int, dp_prev@, parent@, paths),
                cur <= count,
                dp_cur@.len() == cur,
                par@.len() == cur,
                new_row.len() == cur,
                forall|s: int| 0 <= s < cur ==> -(row + 1) * lane_row_bound() <= #[trigger] dp_cur@[s] <= (row + 1) * lane_row_bound(),
                forall|s: int| 0 <= s < cur ==> #[trigger] par@[s] < count
                    && new_row[s] == paths[row - 1][par@[s] as int].push(perms@[s]@)
                    && lane_prefix(row + 1, new_row[s]) && new_row[s][row as int] == perms@[s]@
                    && lane_value(nn, sc, ww, st, new_row[s], row + 1) == dp_cur@[s],
                forall|p: Seq<Seq<usize>>, s: int| #![trigger lane_prefix(row + 1, p), perms@[s]]
                    lane_prefix(row + 1, p) && 0 <= s < cur && p[row as int] == perms@[s]@
                    ==> lane_value(nn, sc, ww, st, p, row + 1) <= dp_cur@[s],
            decreases count - cur,
        {
            let ghost t = transitions@[cur as int]@;
            proof {
                assert(transition_ok(perms@[cur as int]@, perms@[cur as int]@)) by {
                    assert forall|occ: int| 0 <= occ < STRIP_W implies
                        #[trigger] dist(perms@[cur as int]@[occ] as int, perms@[cur as int]@[occ] as int) <= 1 by {}
                }
                assert(t.contains(cur));
                assert(t.len() >= 1);
            }
            let rs = row_score[row][cur];
            let mut best_val: i64 = NEG_INF;
            let mut best_prev: usize = usize::MAX;
            let mut k: usize = 0;
            while k < transitions[cur].len()
                invariant
                    1 <= row < n,
                    n <= 1000,
                    perm_tables_ok(perms@, transitions@),
                    count == perms@.len(),
                    cur < count,
                    t == transitions@[cur as int]@,
                    t.len() >= 1,
                    -lane_row_bound() <= rs <= lane_row_bound(),
                    dp_prev@.len() == count,
                    forall|s: int| 0 <= s < count ==> -(row as int) * lane_row_bound() <= #[trigger] dp_prev@[s] <= (row as int) * lane_row_bound(),
                    k <= t.len(),
                    k > 0 ==> best_prev < count && transition_ok(perms@[best_prev as int]@, perms@[cur as int]@)
                        && -(row + 1) * lane_row_bound() <= best_val <= (row + 1) * lane_row_bound()
                        && best_val == dp_prev@[best_prev as int] + rs,
                    forall|j: int| 0 <= j < k ==> dp_prev@[#[trigger] t[j] as int] + rs <= best_val,
                decreases t.len() - k,
            {
                let prev = transitions[cur][k];
                proof {
                    assert(t[k as int] < count && transition_ok(perms@[t[k as int] as int]@, perms@[cur as int]@));
                    assert(-(row as int) * lane_row_bound() <= dp_prev@[prev as int] <= (row as int) * lane_row_bound());
                    assert((row as int) * lane_row_bound() <= 1000 * lane_row_bound()) by (nonlinear_arith)
                        requires row <= 1000;
                    assert(-(row + 1) * lane_row_bound() == -(row as int) * lane_row_bound() - lane_row_bound()) by (nonlinear_arith);
                    assert((row + 1) * lane_row_bound() == (row as int) * lane_row_bound() + lane_row_bound()) by (nonlinear_arith);
                }
                let cand = dp_prev[prev] + rs;
                if k == 0 || cand > best_val {
                    best_val = cand;
                    best_prev = prev;
                }
                k += 1;
            }
            proof {
                let np = paths[row - 1][best_prev as int].push(perms@[cur as int]@);
                let pp = paths[row - 1][best_prev as int];
                assert(lane_prefix(row as int, pp) && pp[row - 1] == perms@[best_prev as int]@);
                assert(lane_prefix(row + 1, np)) by {
                    assert forall|r: int| 0 <= r < row + 1 implies #[trigger] is_perm5(np[r]) by {
                        if r < row { assert(np[r] == pp[r]); } else { assert(is_perm5(perms@[cur as int]@)); }
                    }
                    assert forall|r: int| 1 <= r < row + 1 implies transition_ok(#[trigger] np[r - 1], np[r]) by {
                        if r < row { assert(np[r] == pp[r]); assert(np[r - 1] == pp[r - 1]); assert(transition_ok(pp[r - 1], pp[r])); }
                    }
                }
                lemma_lane_value_prefix(nn, sc, ww, st, np, pp, row as int);
                assert(lane_value(nn, sc, ww, st, pp, row as int) == dp_prev@[best_prev as int]);
                assert(rs == lane_row_value_spec(nn, sc, ww, st, row as int, perms@[cur as int]@));
                assert(lane_value(nn, sc, ww, st, np, row + 1) == best_val);
                new_row = new_row.push(np);
                assert forall|p: Seq<Seq<usize>>, s: int| #![trigger lane_prefix(row + 1, p), perms@[s]]
                    lane_prefix(row + 1, p) && 0 <= s < cur + 1 && p[row as int] == perms@[s]@
                    implies lane_value(nn, sc, ww, st, p, row + 1) <= (if s < cur { dp_cur@[s] } else { best_val }) by {
                    if s == cur {
                        lemma_lane_extend_bound(nn, sc, ww, st, perms@, transitions@, row as int, dp_prev@, parent@, paths,
                            cur as int, rs as int, best_val as int, p);
                    }
                }
            }
            dp_cur.push(best_val);
            par.push(best_prev);
            proof {
                assert forall|p: Seq<Seq<usize>>, s: int| #![trigger lane_prefix(row + 1, p), perms@[s]]
                    lane_prefix(row + 1, p) && 0 <= s < cur + 1 && p[row as int] == perms@[s]@
                    implies lane_value(nn, sc, ww, st, p, row + 1) <= dp_cur@[s] by {
                    assert(lane_value(nn, sc, ww, st, p, row + 1) <= (if s < cur { dp_cur@[s] } else { best_val }));
                }
            }
            cur += 1;
        }
        let ghost old_parent = parent@;
        dp_prev = dp_cur;
        parent.push(par);
        proof {
            let np = paths.push(new_row);
            assert(np[row as int] == new_row);
            assert(parent@[row as int] == par);
            assert(dp_prev@ == dp_cur@);
            assert forall|r: int| 0 <= r < row + 1 implies (#[trigger] np[r]).len() == count by {
                if r < row { assert(np[r] == paths[r]); }
            }
            assert forall|r: int, s: int| 0 <= r < row + 1 && 0 <= s < count implies
                lane_prefix(r + 1, #[trigger] np[r][s]) && np[r][s][r] == perms@[s]@ by {
                if r < row {
                    assert(np[r] == paths[r]);
                    assert(lane_prefix(r + 1, paths[r][s]) && paths[r][s][r] == perms@[s]@);
                } else {
                    assert(par@[s] < count);
                    assert(np[r][s] == new_row[s]);
                }
            }
            assert forall|s: int| 0 <= s < count implies lane_value(nn, sc, ww, st, np[row as int][s], row + 1) == #[trigger] dp_prev@[s] by {
                assert(np[row as int] == new_row);
                assert(par@[s] < count);
                assert(dp_prev@[s] == dp_cur@[s]);
            }
            assert forall|x: int| 0 <= x < row + 1 implies (#[trigger] parent@[x])@.len() == count by {
                if x < row { assert(parent@[x] == old_parent[x]); }
            }
            assert forall|p: Seq<Seq<usize>>, s: int| #![trigger lane_prefix(row + 1, p), perms@[s]]
                lane_prefix(row + 1, p) && 0 <= s < count && p[(row + 1) - 1] == perms@[s]@
                implies lane_value(nn, sc, ww, st, p, row + 1) <= dp_prev@[s] by {
                assert(p[row as int] == perms@[s]@);
                assert(lane_value(nn, sc, ww, st, p, row + 1) <= dp_cur@[s]);
            }
            assert(dp_prev@.len() == count);
            let rr = row + 1;
            let pa = parent@;
            assert forall|r: int, s: int| 1 <= r < rr && 0 <= s < perms@.len() implies #[trigger] lane_linked(perms@, pa, np, r, s) by {
                if r < row {
                    assert(np[r] == paths[r]);
                    assert(np[r - 1] == paths[r - 1]);
                    assert(pa[r] == old_parent[r]);
                    assert(lane_linked(perms@, old_parent, paths, r, s));
                } else {
                    assert(r == row);
                    assert(np[r - 1] == paths[row - 1]);
                    assert(par@[s] < count);
                    assert(np[r][s] == new_row[s]);
                    assert(pa[r] == par);
                    assert(pa[r]@[s] == par@[s]);
                }
            }
            assert(forall|p: Seq<Seq<usize>>, s: int| #![trigger lane_prefix(rr, p), perms@[s]]
                lane_prefix(rr, p) && 0 <= s < perms@.len() && p[rr - 1] == perms@[s]@
                ==> lane_value(nn, sc, ww, st, p, rr) <= dp_prev@[s]);
            assert(forall|s: int| 0 <= s < perms@.len() ==> lane_value(nn, sc, ww, st, np[rr - 1][s], rr) == #[trigger] dp_prev@[s]);
            assert(1 <= rr);
            assert(np.len() == rr);
            assert(dp_prev@.len() == perms@.len());
            assert(forall|r: int| 0 <= r < rr ==> (#[trigger] np[r]).len() == perms@.len());
            assert(forall|r: int, s: int| 0 <= r < rr && 0 <= s < perms@.len() ==>
                lane_prefix(r + 1, #[trigger] np[r][s]) && np[r][s][r] == perms@[s]@);
            assert(lane_dp_ok(nn, sc, ww, st, perms@, rr, dp_prev@, pa, np));
            paths = np;
        }
        row += 1;
    }
    let mut best_last: usize = 0;
    let mut idx: usize = 1;
    while idx < count
        invariant
            count == dp_prev@.len(),
            best_last < count,
            idx <= count,
            forall|j: int| 0 <= j < idx ==> #[trigger] dp_prev@[j] <= dp_prev@[best_last as int],
        decreases count - idx,
    {
        if dp_prev[idx] > dp_prev[best_last] {
            best_last = idx;
        }
        idx += 1;
    }
    let ghost target = paths[n - 1][best_last as int];
    proof {
        assert(lane_prefix(n as int, target) && target[n - 1] == perms@[best_last as int]@);
    }
    let mut rows: Vec<[u8; 5]> = vec![[0u8; 5]; n];
    let mut cur = best_last;
    let mut r = n;
    while r > 0
        invariant
            r <= n,
            count == perms@.len(),
            cur < count,
            parent@.len() == n,
            lane_dp_ok(nn, sc, ww, st, perms@, n as int, dp_prev@, parent@, paths),
            target == paths[n - 1][best_last as int],
            target.len() == n,
            forall|x: int| 0 <= x < n ==> (#[trigger] parent@[x])@.len() == count,
            rows@.len() == n,
            r > 0 ==> paths[r - 1][cur as int] == target.subrange(0, r as int),
            forall|x: int| r <= x < n ==> #[trigger] lane(rows@, x) == target[x],
        decreases r,
    {
        let row = r - 1;
        let p = perms[cur];
        proof {
            assert(is_perm5(perms@[cur as int]@));
            assert(paths[row as int][cur as int][row as int] == perms@[cur as int]@);
            assert(target.subrange(0, r as int)[row as int] == target[row as int]);
        }
        let ghost before = rows@;
        let entry: [u8; 5] = [p[0] as u8, p[1] as u8, p[2] as u8, p[3] as u8, p[4] as u8];
        rows.set(row, entry);
        proof {
            assert(lane(rows@, row as int) =~= perms@[cur as int]@);
            assert forall|x: int| row <= x < n implies #[trigger] lane(rows@, x) == target[x] by {
                if x > row {
                    assert(lane(rows@, x) =~= lane(before, x));
                }
            }
        }
        if row > 0 {
            let ghost old_cur = cur;
            cur = parent[row][cur];
            proof {
                assert(lane_linked(perms@, parent@, paths, row as int, old_cur as int));
                assert(paths[row as int][old_cur as int] == paths[row - 1][cur as int].push(perms@[old_cur as int]@));
                assert(paths[row as int][old_cur as int] == target.subrange(0, r as int));
                assert(paths[row - 1][cur as int] == paths[row as int][old_cur as int].drop_last());
                assert(paths[row - 1][cur as int] =~= target.subrange(0, row as int));
            }
        }
        r = row;
    }
    proof {
        assert(lanes_of(rows@) =~= target);
        assert forall|p: Seq<Seq<usize>>| #[trigger] lane_prefix(n as int, p) implies
            lane_value(nn, sc, ww, st, p, n as int) <= lane_value(nn, sc, ww, st, lanes_of(rows@), n as int) by {
            assert(is_perm5(p[n - 1]));
            let i = choose|i: int| 0 <= i < perms@.len() && #[trigger] perms@[i]@ == p[n - 1];
            assert(lane_value(nn, sc, ww, st, p, n as int) <= dp_prev@[i]);
            assert(dp_prev@[i] <= dp_prev@[best_last as int]);
        }
        assert forall|x: int| 0 <= x < n implies #[trigger] is_perm5(lane(rows@, x)) by {
            assert(lane(rows@, x) == target[x]);
        }
        assert forall|x: int| 1 <= x < n implies transition_ok(#[trigger] lane(rows@, x - 1), lane(rows@, x)) by {
            assert(lane(rows@, x) == target[x]);
            assert(lane(rows@, x - 1) == target[x - 1]);
            assert(transition_ok(target[x - 1], target[x]));
        }
    }
    rows
}

/// Strip of pass `pos` in round `round`: left to right on even rounds,
/// right to left on odd ones.
pub open spec fn round_strip(sc: int, round: int, pos: int) -> int {
    if round % 2 == 0 { pos } else { sc - 1 - pos }
}

/// Row at step `t` of pass `pos`: down on even positions, up on odd ones.
pub open spec fn pass_row(n: int, pos: int, t: int) -> int {
    if pos % 2 == 0 { t } else { n - 1 - t }
}

/// The cell the round-interleaved route visits at step `t` of pass `pos`
/// of round `round`: the lane of `round` in the strip's row.
pub open spec fn interleaved_cell(n: int, sc: int, lanes: Seq<Seq<[u8; 5]>>, round: int, pos: int, t: int) -> int {
    let strip = round_strip(sc, round, pos);
    let row = pass_row(n, pos, t);
    row * n + strip * 5 + lanes[strip][row]@[round] as int
}

/// Step `(round, pos, t)` comes before `(r2, p2, t2)`.
pub open spec fn step_before(round: int, pos: int, t: int, r2: int, p2: int, t2: int) -> bool {
    round < r2 || (round == r2 && (pos < p2 || (pos == p2 && t < t2)))
}

/// Every strip's lane rows are valid.
pub open spec fn all_lanes_ok(n: int, sc: int, lanes: Seq<Seq<[u8; 5]>>) -> bool {
    &&& lanes.len() == sc
    &&& forall|strip: int| 0 <= strip < sc ==> lane_rows_ok(n, #[trigger] lanes[strip])
}

/// The cell at position `k` of the round-interleaved route: round
/// `k / (sc * n)`, pass `(k / n) % sc` of it, step `k % n` of the pass.
pub open spec fn interleaved_at(n: int, sc: int, lanes: Seq<Seq<[u8; 5]>>, k: int) -> int {
    interleaved_cell(n, sc, lanes, k / (sc * n), (k / n) % sc, k % n)
}

/// The round-interleaved route over the lane rows `lanes` of the strips.
pub open spec fn interleaved_route(n: int, sc: int, lanes: Seq<Seq<[u8; 5]>>) -> Seq<usize> {
    Seq::new((5 * sc * n) as nat, |k: int| interleaved_at(n, sc, lanes, k) as usize)
}

/// Each strip's lane rows are valid and score as much as any placement of
/// its lanes (what `solve_lane_rows` gives).
pub open spec fn lanes_best(n: int, sc: int, w: Seq<i64>, lanes: Seq<Seq<[u8; 5]>>) -> bool {
    &&& all_lanes_ok(n, sc, lanes)
    &&& forall|strip: int, p: Seq<Seq<usize>>| 0 <= strip < sc && #[trigger] lane_prefix(n, p) ==>
        lane_value(n, sc, w, strip, p, n) <= lane_value(n, sc, w, strip, #[trigger] lanes_of(lanes[strip]), n)
}

/// Position `(round * sc + pos) * n + t` is step `t` of pass `pos` of round `round`.
proof fn lemma_interleaved_index(n: int, sc: int, round: int, pos: int, t: int)
    requires
        0 < n,
        0 < sc,
        0 <= round,
        0 <= pos < sc,
        0 <= t < n,
    ensures
        ({
            let k = (round * sc + pos) * n + t;
            &&& k % n == t
            &&& k / (sc * n) == round
            &&& (k / n) % sc == pos
        }),
{
    let k = (round * sc + pos) * n + t;
    vstd::arithmetic::div_mod::lemma_fundamental_div_mod_converse(k, n, round * sc + pos, t);
    vstd::arithmetic::div_mod::lemma_fundamental_div_mod_converse(round * sc + pos, sc, round, pos);
    vstd::arithmetic::div_mod::lemma_div_denominator(k, n, sc);
    assert(sc * n == n * sc) by (nonlinear_arith);
}

/// Distinct steps visit distinct cells of the board.
proof fn lemma_interleaved_cell(n: int, sc: int, lanes: Seq<Seq<[u8; 5]>>, r1: int, p1: int, t1: int, r2: int, p2: int, t2: int)
    requires
        valid_side(n),
        sc * 5 == n,
        all_lanes_ok(n, sc, lanes),
        0 <= r1 < 5, 0 <= p1 < sc, 0 <= t1 < n,
        0 <= r2 < 5, 0 <= p2 < sc, 0 <= t2 < n,
    ensures
        0 <= interleaved_cell(n, sc, lanes, r1, p1, t1) < n * n,
        interleaved_cell(n, sc, lanes, r1, p1, t1) == interleaved_cell(n, sc, lanes, r2, p2, t2) ==> r1 == r2 && p1 == p2 && t1 == t2,
{
    let s1 = round_strip(sc, r1, p1);
    let s2 = round_strip(sc, r2, p2);
    let w1 = pass_row(n, p1, t1);
    let w2 = pass_row(n, p2, t2);
    assert(lane_rows_ok(n, lanes[s1]));
    assert(lane_rows_ok(n, lanes[s2]));
    assert(is_perm5(lane(lanes[s1], w1)));
    assert(is_perm5(lane(lanes[s2], w2)));
    let c1 = lanes[s1][w1]@[r1] as int;
    let c2 = lanes[s2][w2]@[r2] as int;
    assert(lane(lanes[s1], w1)[r1] == c1);
    assert(lane(lanes[s2], w2)[r2] == c2);
    let g1 = s1 * 5 + c1;
    let g2 = s2 * 5 + c2;
    assert(g1 < n) by (nonlinear_arith) requires s1 < sc, c1 < 5, sc * 5 == n, g1 == s1 * 5 + c1;
    assert(g2 < n) by (nonlinear_arith) requires s2 < sc, c2 < 5, sc * 5 == n, g2 == s2 * 5 + c2;
    lemma_cell_bound(n, w1, g1);
    lemma_cell_coords(n, w1, g1);
    lemma_cell_coords(n, w2, g2);
    if interleaved_cell(n, sc, lanes, r1, p1, t1) == interleaved_cell(n, sc, lanes, r2, p2, t2) {
        assert(w1 == w2 && g1 == g2);
        lemma_cell_coords(5, s1, c1);
        lemma_cell_coords(5, s2, c2);
        assert(s1 == s2 && c1 == c2);
        if r1 != r2 {
            if r1 < r2 {
                assert(lane(lanes[s1], w1)[r1] != lane(lanes[s1], w1)[r2]);
            } else {
                assert(lane(lanes[s1], w1)[r2] != lane(lanes[s1], w1)[r1]);
            }
        }
    }
}

/// The round-interleaved route: each strip's lanes are placed by
/// `solve_lane_rows`; then for each of the five rounds the strips are
/// passed in turn (left to right on even rounds, right to left on odd
/// ones), the passes going down and up alternately, each pass walking the
/// strip's lane of that round. The route visits every cell exactly once;
/// steps between passes may break.
pub fn build_round_interleaved_route(n: usize, weights: &[i64], perms: &Vec<[usize; 5]>, transitions: &Vec<Vec<usize>>)
    -> (route: Vec<usize>)
    requires
        valid_side(n as int),
        n % 5 == 0,
        weights@.len() == n * n,
        weights_bounded(weights@),
        perm_tables_ok(perms@, transitions@),
    ensures
        is_permutation_route(n as int, route@),
        exists|lanes: Seq<Seq<[u8; 5]>>| #[trigger] lanes_best(n as int, n as int / 5, weights@, lanes)
            && route@ == interleaved_route(n as int, n as int / 5, lanes),
{
    let strip_count = n / 5;
    let mut strip_paths: Vec<Vec<[u8; 5]>> = Vec::new();
    let mut strip: usize = 0;
    while strip < strip_count
        invariant
            valid_side(n as int),
            strip_count * 5 == n,
            weights@.len() == n * n,
            weights_bounded(weights@),
            perm_tables_ok(perms@, transitions@),
            strip <= strip_count,
            strip_paths@.len() == strip,
            forall|x: int| 0 <= x < strip ==> lane_rows_ok(n as int, #[trigger] strip_paths@[x]@),
            strip_count == n / 5,
            forall|x: int, p: Seq<Seq<usize>>| 0 <= x < strip && #[trigger] lane_prefix(n as int, p) ==>
                lane_value(n as int, strip_count as int, weights@, x, p, n as int)
                    <= lane_value(n as int, strip_count as int, weights@, x, #[trigger] lanes_of(strip_paths@[x]@), n as int),
        decreases strip_count - strip,
    {
        let rows = solve_lane_rows(n, weights, strip, strip_count, perms, transitions);
        strip_paths.push(rows);
        strip += 1;
    }
    let ghost lanes = Seq::new(strip_count as nat, |x: int| strip_paths@[x]@);
    let ghost nn = n as int;
    let ghost sc = strip_count as int;
    proof {
        assert forall|x: int| 0 <= x < sc implies lane_rows_ok(nn, #[trigger] lanes[x]) by {
            assert(lanes[x] == strip_paths@[x]@);
        }
        assert forall|x: int, p: Seq<Seq<usize>>| 0 <= x < sc && #[trigger] lane_prefix(nn, p) implies
            lane_value(nn, sc, weights@, x, p, nn) <= lane_value(nn, sc, weights@, x, #[trigger] lanes_of(lanes[x]), nn) by {
            assert(lanes[x] == strip_paths@[x]@);
        }
        assert(lanes_best(nn, sc, weights@, lanes));
        assert(n <= 1000) by (nonlinear_arith) requires n * n <= 1_000_000, n > 0;
    }
    let mut route: Vec<usize> = Vec::new();
    let ghost mut src: Seq<(int, int, int)> = Seq::empty();
    let mut round: usize = 0;
    proof {
        assert(0 * strip_count * n == 0) by (nonlinear_arith);
    }
    while round < 5
        invariant
            valid_side(nn),
            nn == n,
            sc == strip_count,
            strip_count * 5 == n,
            n <= 1000,
            all_lanes_ok(nn, sc, lanes),
            strip_paths@.len() == strip_count,
            forall|x: int| 0 <= x < sc ==> #[trigger] strip_paths@[x]@ == lanes[x],
            round <= 5,
            route@.len() == src.len(),
            route@.len() == round * strip_count * n,
            forall|k: int| 0 <= k < src.len() ==> {
                let e = #[trigger] src[k];
                &&& 0 <= e.0 < 5 && 0 <= e.1 < sc && 0 <= e.2 < nn
                &&& step_before(e.0, e.1, e.2, round as int, 0, 0)
                &&& route@[k] as int == interleaved_cell(nn, sc, lanes, e.0, e.1, e.2)
            },
            route@.no_duplicates(),
            forall|k: int| 0 <= k < route@.len() ==> #[trigger] route@[k] < n * n,
            forall|k: int| 0 <= k < route@.len() ==> #[trigger] route@[k] == interleaved_at(nn, sc, lanes, k) as usize,
        decreases 5 - round,
    {
        let mut pos: usize = 0;
        while pos < strip_count
            invariant
                valid_side(nn),
                nn == n,
                sc == strip_count,
                strip_count * 5 == n,
                n <= 1000,
                all_lanes_ok(nn, sc, lanes),
                strip_paths@.len() == strip_count,
                forall|x: int| 0 <= x < sc ==> #[trigger] strip_paths@[x]@ == lanes[x],
                round < 5,
                pos <= strip_count,
                route@.len() == src.len(),
                route@.len() == (round * strip_count + pos) * n,
                forall|k: int| 0 <= k < src.len() ==> {
                    let e = #[trigger] src[k];
                    &&& 0 <= e.0 < 5 && 0 <= e.1 < sc && 0 <= e.2 < nn
                    &&& step_before(e.0, e.1, e.2, round as int, pos as int, 0)
                    &&& route@[k] as int == interleaved_cell(nn, sc, lanes, e.0, e.1, e.2)
                },
                route@.no_duplicates(),
                forall|k: int| 0 <= k < route@.len() ==> #[trigger] route@[k] < n * n,
                forall|k: int| 0 <= k < route@.len() ==> #[trigger] route@[k] == interleaved_at(nn, sc, lanes, k) as usize,
            decreases strip_count - pos,
        {
            let strip = if round % 2 == 0 { pos } else { strip_count - 1 - pos };
            let dir_down = pos % 2 == 0;
            let mut t: usize = 0;
            while t < n
                invariant
                    valid_side(nn),
                    nn == n,
                    sc == strip_count,
                    strip_count * 5 == n,
                    n <= 1000,
                    all_lanes_ok(nn, sc, lanes),
                    strip_paths@.len() == strip_count,
                    forall|x: int| 0 <= x < sc ==> #[trigger] strip_paths@[x]@ == lanes[x],
                    round < 5,
                    pos < strip_count,
                    strip as int == round_strip(sc, round as int, pos as int),
                    dir_down == (pos % 2 == 0),
                    t <= n,
                    route@.len() == src.len(),
                    route@.len() == (round * strip_count + pos) * n + t,
                    forall|k: int| 0 <= k < src.len() ==> {
                        let e = #[trigger] src[k];
                        &&& 0 <= e.0 < 5 && 0 <= e.1 < sc && 0 <= e.2 < nn
                        &&& step_before(e.0, e.1, e.2, round as int, pos as int, t as int)
                        &&& route@[k] as int == interleaved_cell(nn, sc, lanes, e.0, e.1, e.2)
                    },
                    route@.no_duplicates(),
                    forall|k: int| 0 <= k < route@.len() ==> #[trigger] route@[k] < n * n,
                    forall|k: int| 0 <= k < route@.len() ==> #[trigger] route@[k] == interleaved_at(nn, sc, lanes, k) as usize,
                decreases n - t,
            {
                let row = if dir_down { t } else { n - 1 - t };
                proof {
                    assert(lane_rows_ok(nn, lanes[strip as int]));
                    assert(strip_paths@[strip as int]@ == lanes[strip as int]);
                    assert(is_perm5(lane(lanes[strip as int], row as int)));
                    assert(lane(lanes[strip as int], row as int)[round as int] < 5);
                    lemma_interleaved_cell(nn, sc, lanes, round as int, pos as int, t as int, round as int, pos as int, t as int);
                    assert((round * strip_count + pos) * n + t < 5 * strip_count * n) by (nonlinear_arith)
                        requires round < 5, pos < strip_count, t < n;
                }
                let local_col = strip_paths[strip][row][round] as usize;
                let cell = row * n + strip * 5 + local_col;
                proof {
                    assert(cell as int == interleaved_cell(nn, sc, lanes, round as int, pos as int, t as int));
                    assert forall|k: int| 0 <= k < route@.len() implies route@[k] != cell by {
                        let e = src[k];
                        lemma_interleaved_cell(nn, sc, lanes, e.0, e.1, e.2, round as int, pos as int, t as int);
                    }
                }
                let ghost before = route@;
                route.push(cell);
                proof {
                    lemma_interleaved_index(nn, sc, round as int, pos as int, t as int);
                    assert(route@[before.len() as int] == interleaved_at(nn, sc, lanes, before.len() as int) as usize);
                    src = src.push((round as int, pos as int, t as int));
                    assert forall|a: int, b: int| 0 <= a < b < route@.len() implies route@[a] != route@[b] by {
                        if b < before.len() {
                            assert(before[a] != before[b]);
                        } else {
                            assert(route@[b] == cell);
                        }
                    }
                }
                t += 1;
            }
            proof {
                assert((round * strip_count + pos) * n + n == (round * strip_count + pos + 1) * n) by (nonlinear_arith);
            }
            pos += 1;
        }
        proof {
            assert((round * strip_count + strip_count) * n == (round + 1) * strip_count * n) by (nonlinear_arith);
        }
        round += 1;
    }
    proof {
        assert(route@.len() == n * n) by (nonlinear_arith) requires route@.len() == 5 * strip_count * n, strip_count * 5 == n;
        assert(route@ =~= interleaved_route(nn, sc, lanes));
    }
    route
}

/// The flip of the board numbered `i` (0 to 3): rows flipped when `i` is
/// odd, columns flipped when `i` is 2 or 3.
pub open spec fn board_flip(i: int) -> Symmetry {
    Symmetry { transpose: i >= 4, flip_row: i % 2 == 1, flip_col: i % 4 >= 2 }
}

/// The weights seen through flip `s`.
pub open spec fn flip_weights(n: int, s: Symmetry, w: Seq<i64>) -> Seq<i64> {
    Seq::new((n * n) as nat, |c: int| w[transform_cell_spec(n, s, c)])
}

/// `c` is a round-interleaved route built on the weights seen through flip
/// `i`, mapped back.
pub open spec fn interleaved_candidate(n: int, w: Seq<i64>, i: int, c: Seq<usize>) -> bool {
    exists|lanes: Seq<Seq<[u8; 5]>>| #[trigger] lanes_best(n, n / 5, flip_weights(n, board_flip(i), w), lanes)
        && c == route_image(n, board_flip(i), interleaved_route(n, n / 5, lanes))
}

/// The round-interleaved route for each of the four flips of the board
/// (none, rows, columns, both), built on the weights seen through the flip
/// and mapped back; the one with the highest raw score there (the first on
/// ties). The route visits every cell exactly once.
pub fn ideal_order_route(n: usize, weights: &[i64]) -> (route: Vec<usize>)
    requires
        valid_side(n as int),
        n % 5 == 0,
        weights@.len() == n * n,
        weights_bounded(weights@),
    ensures
        is_permutation_route(n as int, route@),
        exists|cands: Seq<Seq<usize>>| #[trigger] cands.len() == 4
            && (forall|i: int| 0 <= i < 4 ==> interleaved_candidate(n as int, weights@, i, #[trigger] cands[i]))
            && first_best(cands, route@, weights@),
{
    let perms = crate::strips::generate_permutations();
    let transitions = crate::strips::build_transitions(&perms);
    let syms = symmetries();
    let mut best_route: Vec<usize> = Vec::new();
    let mut best_score: i64 = 0;
    let mut found = false;
    let ghost mut cands: Seq<Seq<usize>> = Seq::empty();
    let mut si: usize = 0;
    while si < 4
        invariant
            valid_side(n as int),
            n % 5 == 0,
            weights@.len() == n * n,
            weights_bounded(weights@),
            perm_tables_ok(perms@, transitions@),
            syms@.len() == 8,
            forall|k: int| 0 <= k < 8 ==> #[trigger] syms@[k] == board_flip(k),
            si <= 4,
            found ==> is_permutation_route(n as int, best_route@),
            si > 0 ==> found,
            cands.len() == si,
            forall|i: int| 0 <= i < si ==> interleaved_candidate(n as int, weights@, i, #[trigger] cands[i]),
            found ==> first_best(cands, best_route@, weights@) && best_score == raw_score(best_route@, weights@),
        decreases 4 - si,
    {
        let symmetry = syms[si];
        let transformed = transform_weights(n, weights, symmetry);
        proof {
            assert forall|c: int| 0 <= c < transformed@.len() implies
                -MAX_WEIGHT <= #[trigger] transformed@[c] <= MAX_WEIGHT by {
                lemma_transform_cell(n as int, symmetry, c, c);
            }
        }
        let route = build_round_interleaved_route(n, transformed.as_slice(), &perms, &transitions);
        proof {
            assert(cells_in_board(route@, n as int));
        }
        let score = compute_raw_score(route.as_slice(), transformed.as_slice());
        let ghost image = route_image(n as int, symmetry, route@);
        let ghost prev = cands;
        proof {
            assert(transformed@ =~= flip_weights(n as int, board_flip(si as int), weights@));
            crate::symmetry::lemma_score_under_symmetry(n as int, symmetry, route@, weights@, transformed@);
            cands = cands.push(image);
            assert(interleaved_candidate(n as int, weights@, si as int, cands[si as int]));
            assert forall|i: int| 0 <= i < si + 1 implies interleaved_candidate(n as int, weights@, i, #[trigger] cands[i]) by {
                if i < si {
                    assert(cands[i] == prev[i]);
                }
            }
        }
        if !found || score > best_score {
            best_score = score;
            best_route = apply_symmetry_to_route(route.as_slice(), n, symmetry);
            found = true;
            proof {
                let k = prev.len() as int;
                assert(cands[k] == best_route@);
                assert forall|j: int| 0 <= j < cands.len() implies raw_score(#[trigger] cands[j], weights@) <= raw_score(best_route@, weights@) by {
                    if j < k {
                        assert(cands[j] == prev[j]);
                    }
                }
                assert forall|j: int| 0 <= j < k implies raw_score(#[trigger] cands[j], weights@) < raw_score(best_route@, weights@) by {
                    assert(cands[j] == prev[j]);
                }
            }
        } else {
            proof {
                let k0 = choose|k: int| 0 <= k < prev.len() && #[trigger] prev[k] == best_route@
                    && (forall|j: int| 0 <= j < prev.len() ==> raw_score(#[trigger] prev[j], weights@) <= raw_score(best_route@, weights@))
                    && (forall|j: int| 0 <= j < k ==> raw_score(#[trigger] prev[j], weights@) < raw_score(best_route@, weights@));
                assert(cands[k0] == best_route@);
                assert forall|j: int| 0 <= j < cands.len() implies raw_score(#[trigger] cands[j], weights@) <= raw_score(best_route@, weights@) by {
                    if j < prev.len() {
                        assert(cands[j] == prev[j]);
                    }
                }
                assert forall|j: int| 0 <= j < k0 implies raw_score(#[trigger] cands[j], weights@) < raw_score(best_route@, weights@) by {
                    assert(cands[j] == prev[j]);
                }
            }
        }
        si += 1;
    }
    proof {
        assert(cands.len() == 4);
    }
    best_route
}

/// Every cell of `route` is on the board.
pub open spec fn cells_in_board(route: Seq<usize>, n: int) -> bool {
    forall|k: int| 0 <= k < route.len() ==> #[trigger] route[k] < n * n
}

} // verus!
