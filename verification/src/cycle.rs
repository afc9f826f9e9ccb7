//! Closed tours (Hamiltonian cycles) and cutting them into the best route.
use vstd::prelude::*;
use crate::grid::{adjacent, is_route, is_king_walk, is_permutation_route, raw_score, raw_prefix,
    cells_in, weights_bounded, MAX_CELLS, MAX_WEIGHT, lemma_raw_prefix_bound, is_adj, valid_side,
    row_of, col_of, lemma_cell_coords, lemma_cell_split, lemma_cell_bound, transpose_cell, transpose_spec};
use crate::moves::{wsum, lemma_window_score, lemma_wsum_bound, reverse_range, reversed_range};
use crate::grid::transpose_route;

verus! {

/// Largest bonus weight of a rank-increasing cut.
pub const MAX_LAMBDA: i64 = 1_000_000_000;

/// `route` is a closed tour: a route whose last cell is next to its first.
pub open spec fn is_cycle(n: int, route: Seq<usize>) -> bool {
    is_route(n, route) && route.len() >= 2 && adjacent(n, route.last() as int, route[0] as int)
}

/// A route with the same ends as a closed tour is a closed tour.
pub proof fn lemma_same_ends_cycle(n: int, a: Seq<usize>, b: Seq<usize>)
    requires
        is_cycle(n, a),
        is_route(n, b),
        b.len() == a.len(),
        b[0] == a[0],
        b.last() == a.last(),
    ensures
        is_cycle(n, b),
{
}

/// `route` started at position `s`.
pub open spec fn rotation(route: Seq<usize>, s: int) -> Seq<usize> {
    Seq::new(route.len(), |i: int| if i + s < route.len() { route[i + s] } else { route[i + s - route.len()] })
}

/// `1` when the weight rank drops from `u` to `v`, else `0`.
pub open spec fn rank_penalty(rank: Seq<usize>, u: usize, v: usize) -> int {
    if rank[v as int] < rank[u as int] { 1 } else { 0 }
}

/// Raw score plus `lambda` when the closing edge (last to first) drops in rank.
pub open spec fn cut_score(route: Seq<usize>, w: Seq<i64>, rank: Seq<usize>, lambda: int) -> int {
    raw_score(route, w) + lambda * rank_penalty(rank, route.last(), route[0])
}

/// `(a1, r1)` beats `(a2, r2)`: higher augmented score, then higher raw score.
pub open spec fn beats(a1: int, r1: int, a2: int, r2: int) -> bool {
    a1 > a2 || (a1 == a2 && r1 > r2)
}

/// The rank of every cell: its weight minus one.
pub fn build_rank_by_cell(weights: &[i64]) -> (rank: Vec<usize>)
    requires
        forall|c: int| 0 <= c < weights@.len() ==> 1 <= #[trigger] weights@[c] <= MAX_WEIGHT,
    ensures
        rank@.len() == weights@.len(),
        forall|c: int| 0 <= c < weights@.len() ==> #[trigger] rank@[c] == weights@[c] - 1,
{
    let mut rank: Vec<usize> = Vec::new();
    let mut c: usize = 0;
    while c < weights.len()
        invariant
            c <= weights@.len(),
            forall|c: int| 0 <= c < weights@.len() ==> 1 <= #[trigger] weights@[c] <= MAX_WEIGHT,
            rank@.len() == c,
            forall|d: int| 0 <= d < c ==> #[trigger] rank@[d] == weights@[d] - 1,
        decreases weights@.len() - c,
    {
        rank.push((weights[c] - 1) as usize);
        c += 1;
    }
    rank
}

/// The cell of every rank: the inverse of `build_rank_by_cell` when the
/// weights are a permutation of `1..=len`.
pub fn build_rank_to_cell(weights: &[i64]) -> (rank_to_cell: Vec<usize>)
    requires
        forall|c: int| 0 <= c < weights@.len() ==> 1 <= #[trigger] weights@[c] <= weights@.len(),
    ensures
        rank_to_cell@.len() == weights@.len(),
        forall|c: int| 0 <= c < weights@.len() && (forall|d: int| c < d < weights@.len() ==> weights@[d] != weights@[c])
            ==> #[trigger] rank_to_cell@[weights@[c] - 1] == c,
        forall|k: int| 0 <= k < weights@.len() && (forall|c: int| 0 <= c < weights@.len() ==> weights@[c] != k + 1)
            ==> #[trigger] rank_to_cell@[k] == 0,
        weights@.len() >= 1 ==> forall|k: int| 0 <= k < weights@.len() ==> #[trigger] rank_to_cell@[k] < weights@.len(),
{
    let mut rank_to_cell: Vec<usize> = vec![0usize; weights.len()];
    let mut c: usize = 0;
    while c < weights.len()
        invariant
            c <= weights@.len(),
            forall|c: int| 0 <= c < weights@.len() ==> 1 <= #[trigger] weights@[c] <= weights@.len(),
            rank_to_cell@.len() == weights@.len(),
            forall|e: int| 0 <= e < c && (forall|d: int| e < d < c ==> weights@[d] != weights@[e])
                ==> #[trigger] rank_to_cell@[weights@[e] - 1] == e,
            forall|k: int| 0 <= k < weights@.len() && (forall|e: int| 0 <= e < c ==> weights@[e] != k + 1)
                ==> #[trigger] rank_to_cell@[k] == 0,
            weights@.len() >= 1 ==> forall|k: int| 0 <= k < weights@.len() ==> #[trigger] rank_to_cell@[k] < weights@.len(),
        decreases weights@.len() - c,
    {
        let ghost before = rank_to_cell@;
        rank_to_cell.set((weights[c] - 1) as usize, c);
        proof {
            assert forall|e: int| 0 <= e < c + 1 && (forall|d: int| e < d < c + 1 ==> weights@[d] != weights@[e])
                implies #[trigger] rank_to_cell@[weights@[e] - 1] == e by {
                if e < c {
                    assert(weights@[c as int] != weights@[e]);
                    assert(before[weights@[e] - 1] == e);
                }
            }
        }
        c += 1;
    }
    rank_to_cell
}

/// `1` when the rank drops from `u` to `v`.
pub fn edge_rank_penalty(u: usize, v: usize, rank_by_cell: &[usize]) -> (p: i64)
    requires
        u < rank_by_cell@.len(),
        v < rank_by_cell@.len(),
    ensures
        p == rank_penalty(rank_by_cell@, u, v),
{
    if rank_by_cell[v] < rank_by_cell[u] {
        1
    } else {
        0
    }
}

/// Number of rank drops along the closed tour.
pub open spec fn cycle_penalty(route: Seq<usize>, rank: Seq<usize>, k: int) -> int
    decreases k,
{
    if k <= 0 {
        0
    } else {
        cycle_penalty(route, rank, k - 1) + rank_penalty(rank, route[k - 1], route[k % (route.len() as int)])
    }
}

/// The number of edges of the closed tour (the closing one included) along
/// which the rank drops.
pub fn total_cycle_penalty(route: &[usize], rank_by_cell: &[usize]) -> (total: i64)
    requires
        route@.len() <= MAX_CELLS,
        cells_in(route@, rank_by_cell@.len() as int),
    ensures
        total == cycle_penalty(route@, rank_by_cell@, route@.len() as int),
{
    let len = route.len();
    let mut total: i64 = 0;
    let mut idx: usize = 0;
    while idx < len
        invariant
            len == route@.len() <= MAX_CELLS,
            idx <= len,
            cells_in(route@, rank_by_cell@.len() as int),
            total == cycle_penalty(route@, rank_by_cell@, idx as int),
            0 <= total <= idx,
        decreases len - idx,
    {
        total += edge_rank_penalty(route[idx], route[(idx + 1) % len], rank_by_cell);
        idx += 1;
    }
    total
}

/// Whether consecutive cells, and the last and the first, are king moves apart.
pub fn check_cycle(route: &[usize], n: usize) -> (ok: bool)
    requires
        n > 0,
        route@.len() >= 1,
    ensures
        ok == (is_king_walk(n as int, route@) && adjacent(n as int, route@.last() as int, route@[0] as int)),
{
    let len = route.len();
    let mut idx: usize = 0;
    while idx + 1 < len
        invariant
            n > 0,
            len == route@.len() >= 1,
            idx + 1 <= len,
            forall|i: int| 0 <= i < idx ==> #[trigger] adjacent(n as int, route@[i] as int, route@[i + 1] as int),
        decreases len - idx,
    {
        if !is_adj(route[idx], route[idx + 1], n) {
            return false;
        }
        idx += 1;
    }
    is_adj(route[0], route[len - 1], n) && {
        proof {
            crate::moves::lemma_adjacent_symmetric(n as int, route@[0] as int, route@[len - 1] as int);
        }
        true
    }
}


/// Starting a closed tour elsewhere keeps it a closed tour.
pub proof fn lemma_rotation_cycle(n: int, route: Seq<usize>, s: int)
    requires
        is_cycle(n, route),
        0 <= s < route.len(),
    ensures
        is_cycle(n, rotation(route, s)),
{
    let len = route.len() as int;
    let r = rotation(route, s);
    let idx = |i: int| if i + s < len { i + s } else { i + s - len };
    assert forall|i: int| 0 <= i < r.len() implies #[trigger] r[i] < n * n by {
        assert(r[i] == route[idx(i)]);
    }
    assert forall|a: int, b: int| 0 <= a < r.len() && 0 <= b < r.len() && a != b implies r[a] != r[b] by {
        assert(r[a] == route[idx(a)]);
        assert(r[b] == route[idx(b)]);
    }
    assert forall|i: int| 0 <= i < r.len() - 1 implies #[trigger] adjacent(n, r[i] as int, r[i + 1] as int) by {
        if i + s + 1 == len {
            assert(r[i] == route[len - 1]);
            assert(r[i + 1] == route[0]);
        } else {
            assert(r[i] == route[idx(i)]);
            assert(r[i + 1] == route[idx(i) + 1]);
            assert(adjacent(n, route[idx(i)] as int, route[idx(i) + 1] as int));
        }
    }
    if s == 0 {
        assert(r =~= route);
    } else {
        assert(r.last() == route[s - 1]);
        assert(r[0] == route[s]);
        let i = s - 1;
        assert(adjacent(n, route[i] as int, route[i + 1] as int));
        assert(i + 1 == s);
    }
}

/// Walking a closed tour backwards keeps it a closed tour.
pub proof fn lemma_reverse_cycle(n: int, route: Seq<usize>)
    requires
        is_cycle(n, route),
    ensures
        is_cycle(n, reversed_range(route, 0, route.len() - 1)),
{
    crate::moves::lemma_reversal_keeps_route(n, route, 0, route.len() - 1);
    crate::moves::lemma_adjacent_symmetric(n, route.last() as int, route[0] as int);
}

/// A rotation read from the doubled route.
proof fn lemma_doubled_rotation(route: Seq<usize>, s: int)
    requires
        0 <= s < route.len(),
    ensures
        (route + route).subrange(s, s + route.len()) =~= rotation(route, s),
{
}

/// Starts the route at position `s`.
pub fn rotate_left(route: &mut Vec<usize>, s: usize)
    requires
        s < old(route)@.len(),
    ensures
        final(route)@ == rotation(old(route)@, s as int),
{
    let len = route.len();
    let mut out: Vec<usize> = Vec::new();
    let mut i: usize = 0;
    while i < len
        invariant
            s < len == route@.len(),
            i <= len,
            out@.len() == i,
            forall|j: int| 0 <= j < i ==> #[trigger] out@[j] == rotation(route@, s as int)[j],
        decreases len - i,
    {
        let src = if i < len - s { i + s } else { i - (len - s) };
        out.push(route[src]);
        i += 1;
    }
    proof {
        assert(out@ =~= rotation(route@, s as int));
    }
    *route = out;
}

/// The best place to cut a closed tour: the start `s` whose rotation has the
/// highest `cut_score` (raw score plus `lambda` when the closing edge drops
/// in rank), then the highest raw score, the first such `s` on ties.
/// Returns the raw score, the cut score and `s`.
pub fn best_rotation_score(
    route: &[usize],
    weights: &[i64],
    rank_by_cell: &[usize],
    lambda_cut: i64,
) -> (res: (i64, i64, usize))
    requires
        1 <= route@.len(),
        2 * route@.len() <= MAX_CELLS,
        cells_in(route@, weights@.len() as int),
        lambda_cut > 0 ==> cells_in(route@, rank_by_cell@.len() as int),
        weights_bounded(weights@),
        0 <= lambda_cut <= MAX_LAMBDA,
    ensures
        res.2 < route@.len(),
        res.0 == raw_score(rotation(route@, res.2 as int), weights@),
        res.1 == cut_score(rotation(route@, res.2 as int), weights@, rank_by_cell@, lambda_cut as int),
        forall|s: int| 0 <= s < route@.len() ==> !beats(
            cut_score(#[trigger] rotation(route@, s), weights@, rank_by_cell@, lambda_cut as int),
            raw_score(rotation(route@, s), weights@), res.1 as int, res.0 as int),
        forall|s: int| 0 <= s < res.2 ==> beats(res.1 as int, res.0 as int,
            cut_score(#[trigger] rotation(route@, s), weights@, rank_by_cell@, lambda_cut as int),
            raw_score(rotation(route@, s), weights@)),
{
    let len = route.len();
    let ghost d = route@ + route@;
    let ghost w = weights@;
    let mut prefix_weight: Vec<i64> = vec![0i64; 2 * len + 1];
    let mut prefix_pos_weight: Vec<i64> = vec![0i64; 2 * len + 1];
    proof {
        assert(cells_in(d, w.len() as int));
    }
    prefix_weight.set(0, 0);
    prefix_pos_weight.set(0, 0);
    let mut idx: usize = 0;
    while idx < 2 * len
        invariant
            len == route@.len(),
            1 <= len,
            2 * len <= MAX_CELLS,
            d == route@ + route@,
            w == weights@,
            cells_in(d, w.len() as int),
            weights_bounded(w),
            idx <= 2 * len,
            prefix_weight@.len() == 2 * len + 1,
            prefix_pos_weight@.len() == 2 * len + 1,
            forall|k: int| 0 <= k <= idx ==> #[trigger] prefix_weight@[k] == wsum(d, w, k),
            forall|k: int| 0 <= k <= idx ==> #[trigger] prefix_pos_weight@[k] == raw_prefix(d, w, k),
        decreases 2 * len - idx,
    {
        let cell = if idx < len { route[idx] } else { route[idx - len] };
        proof {
            assert(d[idx as int] == cell);
            lemma_wsum_bound(d, w, idx + 1);
            lemma_raw_prefix_bound(d, w, idx + 1);
            let x = w[cell as int];
            assert(-(MAX_CELLS * MAX_WEIGHT) <= idx * x <= MAX_CELLS * MAX_WEIGHT) by (nonlinear_arith)
                requires 0 <= idx < MAX_CELLS, -MAX_WEIGHT <= x <= MAX_WEIGHT;
            let p = raw_prefix(d, w, idx + 1);
            assert(-1_000_000_000_000_000_000 <= p <= 1_000_000_000_000_000_000) by (nonlinear_arith)
                requires -(idx + 1) * (MAX_CELLS * MAX_WEIGHT) <= p <= (idx + 1) * (MAX_CELLS * MAX_WEIGHT), idx + 1 <= MAX_CELLS;
            let q = wsum(d, w, idx + 1);
            assert(-1_000_000_000_000 <= q <= 1_000_000_000_000) by (nonlinear_arith)
                requires -(idx + 1) * MAX_WEIGHT <= q <= (idx + 1) * MAX_WEIGHT, idx + 1 <= MAX_CELLS;
        }
        let wt = weights[cell];
        let pw = prefix_weight[idx] + wt;
        prefix_weight.set(idx + 1, pw);
        let ppw = prefix_pos_weight[idx] + idx as i64 * wt;
        prefix_pos_weight.set(idx + 1, ppw);
        idx += 1;
    }

    let mut best_raw_score: i64 = i64::MIN / 4;
    let mut best_aug_score: i64 = i64::MIN / 4;
    let mut best_start: usize = 0;
    let mut start: usize = 0;
    while start < len
        invariant
            len == route@.len(),
            1 <= len,
            2 * len <= MAX_CELLS,
            d == route@ + route@,
            w == weights@,
            cells_in(d, w.len() as int),
            cells_in(route@, w.len() as int),
            lambda_cut > 0 ==> cells_in(route@, rank_by_cell@.len() as int),
            weights_bounded(w),
            0 <= lambda_cut <= MAX_LAMBDA,
            start <= len,
            prefix_weight@.len() == 2 * len + 1,
            prefix_pos_weight@.len() == 2 * len + 1,
            forall|k: int| 0 <= k <= 2 * len ==> #[trigger] prefix_weight@[k] == wsum(d, w, k),
            forall|k: int| 0 <= k <= 2 * len ==> #[trigger] prefix_pos_weight@[k] == raw_prefix(d, w, k),
            start == 0 ==> best_raw_score == i64::MIN / 4 && best_aug_score == i64::MIN / 4,
            start > 0 ==> best_start < start,
            start > 0 ==> best_raw_score == raw_score(rotation(route@, best_start as int), w),
            start > 0 ==> best_aug_score == cut_score(rotation(route@, best_start as int), w, rank_by_cell@, lambda_cut as int),
            forall|s: int| 0 <= s < start ==> !beats(
                cut_score(#[trigger] rotation(route@, s), w, rank_by_cell@, lambda_cut as int),
                raw_score(rotation(route@, s), w), best_aug_score as int, best_raw_score as int),
            forall|s: int| 0 <= s < best_start ==> beats(best_aug_score as int, best_raw_score as int,
                cut_score(#[trigger] rotation(route@, s), w, rank_by_cell@, lambda_cut as int),
                raw_score(rotation(route@, s), w)),
        decreases len - start,
    {
        let ghost rot = rotation(route@, start as int);
        proof {
            lemma_doubled_rotation(route@, start as int);
            lemma_window_score(d, w, start as int, len as int);
            lemma_raw_prefix_bound(rot, w, len as int);
            lemma_wsum_bound(d, w, start + len);
            lemma_wsum_bound(d, w, start as int);
            lemma_raw_prefix_bound(d, w, start + len);
            lemma_raw_prefix_bound(d, w, start as int);
            let sw = wsum(d, w, start + len) - wsum(d, w, start as int);
            assert(-2_000_000_000_000 <= sw <= 2_000_000_000_000) by (nonlinear_arith)
                requires -(start + len) * MAX_WEIGHT <= wsum(d, w, start + len) <= (start + len) * MAX_WEIGHT,
                    -start * MAX_WEIGHT <= wsum(d, w, start as int) <= start * MAX_WEIGHT,
                    start + len <= MAX_CELLS, sw == wsum(d, w, start + len) - wsum(d, w, start as int);
            assert(-1_000_000_000_000_000_000 <= start * sw <= 1_000_000_000_000_000_000) by (nonlinear_arith)
                requires 0 <= start <= 500_000, -2_000_000_000_000 <= sw <= 2_000_000_000_000;
            let pa = raw_prefix(d, w, start + len);
            let pb = raw_prefix(d, w, start as int);
            assert(-1_000_000_000_000_000_000 <= pa <= 1_000_000_000_000_000_000) by (nonlinear_arith)
                requires -(start + len) * (MAX_CELLS * MAX_WEIGHT) <= pa <= (start + len) * (MAX_CELLS * MAX_WEIGHT), start + len <= MAX_CELLS;
            assert(-1_000_000_000_000_000_000 <= pb <= 1_000_000_000_000_000_000) by (nonlinear_arith)
                requires -start * (MAX_CELLS * MAX_WEIGHT) <= pb <= start * (MAX_CELLS * MAX_WEIGHT), start <= MAX_CELLS;
            let rs = raw_score(rot, w);
            assert(-1_000_000_000_000_000_000 <= rs <= 1_000_000_000_000_000_000) by (nonlinear_arith)
                requires -len * (MAX_CELLS * MAX_WEIGHT) <= rs <= len * (MAX_CELLS * MAX_WEIGHT), len <= MAX_CELLS;
        }
        let sum_weight = prefix_weight[start + len] - prefix_weight[start];
        let raw_score = prefix_pos_weight[start + len] - prefix_pos_weight[start] - start as i64 * sum_weight;
        let cut_idx = if start == 0 { len - 1 } else { start - 1 };
        proof {
            assert(rot.last() == route@[cut_idx as int]);
            assert(rot[0] == route@[start as int]);
        }
        let aug_score = if lambda_cut == 0 {
            raw_score
        } else {
            raw_score + lambda_cut * edge_rank_penalty(route[cut_idx], route[start], rank_by_cell)
        };
        if aug_score > best_aug_score || (aug_score == best_aug_score && raw_score > best_raw_score) {
            best_raw_score = raw_score;
            best_aug_score = aug_score;
            best_start = start;
        }
        start += 1;
    }
    (best_raw_score, best_aug_score, best_start)
}

/// Row and column of step `k` of the row cycle: down column 0, then rows
/// `n - 1` up to `1` snaking over columns `1..n`, then back along row 0.
pub open spec fn cycle_rc(n: int, k: int) -> (int, int) {
    if k < n {
        (k, 0)
    } else if k < n + (n - 1) * (n - 1) {
        let t = k - n;
        let q = t / (n - 1);
        let j = t % (n - 1);
        (n - 1 - q, if q % 2 == 0 { 1 + j } else { n - 1 - j })
    } else {
        (0, n - 1 - (k - n - (n - 1) * (n - 1)))
    }
}

/// Cell at step `k` of the row cycle.
pub open spec fn cycle_cell(n: int, k: int) -> int {
    cycle_rc(n, k).0 * n + cycle_rc(n, k).1
}

/// The row cycle.
pub open spec fn row_cycle_spec(n: int) -> Seq<usize> {
    Seq::new((n * n) as nat, |k: int| cycle_cell(n, k) as usize)
}

proof fn lemma_cycle_rc(n: int, k: int)
    requires
        2 <= n,
        0 <= k < n * n,
    ensures
        0 <= cycle_rc(n, k).0 < n,
        0 <= cycle_rc(n, k).1 < n,
        k < n ==> cycle_rc(n, k).1 == 0,
        n <= k < n + (n - 1) * (n - 1) ==> cycle_rc(n, k).0 >= 1 && cycle_rc(n, k).1 >= 1,
        n + (n - 1) * (n - 1) <= k ==> cycle_rc(n, k).0 == 0 && cycle_rc(n, k).1 >= 1,
        row_of(n, cycle_cell(n, k)) == cycle_rc(n, k).0,
        col_of(n, cycle_cell(n, k)) == cycle_rc(n, k).1,
        0 <= cycle_cell(n, k) < n * n,
{
    assert(n * n == n + (n - 1) * (n - 1) + (n - 1)) by (nonlinear_arith);
    if n <= k < n + (n - 1) * (n - 1) {
        let t = k - n;
        lemma_cell_split(n - 1, t);
        let q = t / (n - 1);
        let j = t % (n - 1);
        if q >= n - 1 {
            assert(q * (n - 1) >= (n - 1) * (n - 1)) by (nonlinear_arith) requires q >= n - 1, n >= 2;
        }
    }
    let (r, c) = cycle_rc(n, k);
    lemma_cell_coords(n, r, c);
    lemma_cell_bound(n, r, c);
}

/// For even `n >= 2` the row cycle is a closed tour.
pub proof fn lemma_row_cycle(n: int)
    requires
        valid_side(n),
        2 <= n,
        n % 2 == 0,
    ensures
        is_cycle(n, row_cycle_spec(n)),
{
    let r = row_cycle_spec(n);
    let m = n + (n - 1) * (n - 1);
    assert(n * n == m + (n - 1)) by (nonlinear_arith) requires m == n + (n - 1) * (n - 1);
    assert forall|k: int| 0 <= k < r.len() implies #[trigger] r[k] < n * n by {
        lemma_cycle_rc(n, k);
    }
    assert forall|a: int, b: int| 0 <= a < r.len() && 0 <= b < r.len() && a != b implies r[a] != r[b] by {
        lemma_cycle_rc(n, a);
        lemma_cycle_rc(n, b);
        if n <= a < m && n <= b < m {
            lemma_cell_split(n - 1, a - n);
            lemma_cell_split(n - 1, b - n);
        }
    }
    assert forall|k: int| 0 <= k < r.len() - 1 implies #[trigger] adjacent(n, r[k] as int, r[k + 1] as int) by {
        lemma_cycle_rc(n, k);
        lemma_cycle_rc(n, k + 1);
        if n <= k && k + 1 < m {
            let t = k - n;
            lemma_cell_split(n - 1, t);
            lemma_cell_split(n - 1, t + 1);
            if t % (n - 1) < n - 2 {
                lemma_fundamental_div_mod_converse_local(t + 1, n - 1, t / (n - 1), t % (n - 1) + 1);
            } else {
                assert(t + 1 == (t / (n - 1) + 1) * (n - 1) + 0) by (nonlinear_arith)
                    requires t == (t / (n - 1)) * (n - 1) + t % (n - 1), t % (n - 1) == n - 2;
                lemma_fundamental_div_mod_converse_local(t + 1, n - 1, t / (n - 1) + 1, 0);
            }
        } else if k + 1 == m {
            let t = k - n;
            assert(t == (n - 2) * (n - 1) + (n - 2)) by (nonlinear_arith)
                requires t == k - n, k + 1 == n + (n - 1) * (n - 1);
            lemma_fundamental_div_mod_converse_local(t, n - 1, n - 2, n - 2);
        } else if k + 1 == n {
            lemma_fundamental_div_mod_converse_local(0, n - 1, 0, 0);
        }
    }
    lemma_cycle_rc(n, 0);
    lemma_cycle_rc(n, n * n - 1);
}

/// Quotient and remainder from a decomposition `x == q * d + r`.
pub proof fn lemma_fundamental_div_mod_converse_pub(x: int, d: int, q: int, r: int)
    requires
        0 < d,
        0 <= r < d,
        x == q * d + r,
    ensures
        x / d == q,
        x % d == r,
{
    vstd::arithmetic::div_mod::lemma_fundamental_div_mod_converse(x, d, q, r);
}

proof fn lemma_fundamental_div_mod_converse_local(x: int, d: int, q: int, r: int)
    requires
        0 < d,
        0 <= r < d,
        x == q * d + r,
    ensures
        x / d == q,
        x % d == r,
{
    vstd::arithmetic::div_mod::lemma_fundamental_div_mod_converse(x, d, q, r);
}

/// The row cycle: down column 0, then rows `n - 1` up to 1 snaking over
/// columns `1..n` (rightwards first), then back along row 0. For even `n`
/// it is a closed tour.
pub fn row_cycle(n: usize) -> (route: Vec<usize>)
    requires
        valid_side(n as int),
        2 <= n,
    ensures
        route@ == row_cycle_spec(n as int),
        n % 2 == 0 ==> is_cycle(n as int, route@),
{
    let mut route: Vec<usize> = Vec::new();
    let ghost nn = n as int;
    for i in 0..n
        invariant
            valid_side(nn),
            nn == n,
            2 <= n,
            route@.len() == i,
            forall|k: int| 0 <= k < i ==> #[trigger] route@[k] == cycle_cell(nn, k),
    {
        proof {
            assert(i < n * n) by (nonlinear_arith) requires i < n, n >= 2;
            lemma_cycle_rc(nn, i as int);
        }
        route.push(i * n);
    }
    let mut forward = true;
    let mut i = n - 1;
    proof {
        assert((n - 1 - i) * (n - 1) == 0) by (nonlinear_arith) requires i == n - 1;
    }
    while i >= 1
        invariant
            valid_side(nn),
            nn == n,
            2 <= n,
            i < n,
            route@.len() == n + (n - 1 - i) * (n - 1),
            forward == ((n - 1 - i) % 2 == 0),
            forall|k: int| 0 <= k < route@.len() ==> #[trigger] route@[k] == cycle_cell(nn, k),
        decreases i,
    {
        let ghost q = (n - 1 - i) as int;
        let ghost base = route@.len() as int;
        proof {
            assert(q * (n - 1) + (n - 1) <= (n - 1) * (n - 1)) by (nonlinear_arith)
                requires 0 <= q, q + 1 <= n - 1, n >= 2;
        }
        for jj in 0..n - 1
            invariant
                valid_side(nn),
                nn == n,
                2 <= n,
                1 <= i < n,
                q == n - 1 - i,
                base == n + q * (n - 1),
                q * (n - 1) + (n - 1) <= (n - 1) * (n - 1),
                forward == (q % 2 == 0),
                route@.len() == base + jj,
                forall|k: int| 0 <= k < route@.len() ==> #[trigger] route@[k] == cycle_cell(nn, k),
        {
            let j = if forward { 1 + jj } else { n - 1 - jj };
            proof {
                let k = base + jj;
                assert(k - n == q * (n - 1) + jj);
                lemma_fundamental_div_mod_converse_local(k - n, n - 1, q, jj as int);
                assert(n * n == n + (n - 1) * (n - 1) + (n - 1)) by (nonlinear_arith);
                lemma_cycle_rc(nn, k);
                assert(i * n + j < n * n) by (nonlinear_arith) requires i < n, j < n;
            }
            route.push(i * n + j);
        }
        proof {
            assert(n + (n - 1 - (i - 1)) * (n - 1) == base + (n - 1)) by (nonlinear_arith)
                requires base == n + q * (n - 1), q == n - 1 - i;
        }
        forward = !forward;
        i -= 1;
    }
    let ghost m = (n + (n - 1) * (n - 1)) as int;
    for t in 0..n - 1
        invariant
            valid_side(nn),
            nn == n,
            2 <= n,
            m == n + (n - 1) * (n - 1),
            route@.len() == m + t,
            forall|k: int| 0 <= k < route@.len() ==> #[trigger] route@[k] == cycle_cell(nn, k),
    {
        proof {
            assert(n * n == n + (n - 1) * (n - 1) + (n - 1)) by (nonlinear_arith);
            lemma_cycle_rc(nn, m + t);
        }
        route.push(n - 1 - t);
    }
    proof {
        assert(n * n == n + (n - 1) * (n - 1) + (n - 1)) by (nonlinear_arith);
        assert(route@ =~= row_cycle_spec(nn));
        if n % 2 == 0 {
            lemma_row_cycle(nn);
        }
    }
    route
}

/// Transposing keeps a closed tour a closed tour.
pub proof fn lemma_transpose_cycle(n: int, route: Seq<usize>)
    requires
        valid_side(n),
        is_cycle(n, route),
    ensures
        is_cycle(n, transpose_spec(n, route)),
{
    crate::grid::lemma_transpose_route(n, route);
    crate::grid::lemma_transpose_adjacent(n, route.last() as int, route[0] as int);
    crate::moves::lemma_adjacent_symmetric(n, route.last() as int, route[0] as int);
    crate::grid::lemma_transpose_adjacent(n, route[0] as int, route.last() as int);
    let t = transpose_spec(n, route);
    assert(t.last() as int == transpose_cell(n, route.last() as int));
    assert(t[0] as int == transpose_cell(n, route[0] as int));
}

/// `route` walked backwards.
pub open spec fn flipped(route: Seq<usize>) -> Seq<usize> {
    reversed_range(route, 0, route.len() - 1)
}

/// `new` is `base`, or `base` walked backwards, started at some position.
pub open spec fn recut_of(new: Seq<usize>, base: Seq<usize>) -> bool {
    exists|s: int| #![trigger rotation(base, s)] #![trigger rotation(flipped(base), s)]
        0 <= s < base.len() && (new == rotation(base, s) || new == rotation(flipped(base), s))
}

/// No rotation of `base` or of `base` walked backwards beats `new` on
/// (cut score, raw score).
pub open spec fn best_recut(new: Seq<usize>, base: Seq<usize>, w: Seq<i64>, rank: Seq<usize>, lambda: int) -> bool {
    &&& forall|s: int| 0 <= s < base.len() ==> !beats(
            cut_score(#[trigger] rotation(base, s), w, rank, lambda), raw_score(rotation(base, s), w),
            cut_score(new, w, rank, lambda), raw_score(new, w))
    &&& forall|s: int| 0 <= s < base.len() ==> !beats(
            cut_score(#[trigger] rotation(flipped(base), s), w, rank, lambda), raw_score(rotation(flipped(base), s), w),
            cut_score(new, w, rank, lambda), raw_score(new, w))
}

/// A recut closed tour is a closed tour.
pub proof fn lemma_recut_cycle(n: int, base: Seq<usize>, new: Seq<usize>)
    requires
        is_cycle(n, base),
        recut_of(new, base),
    ensures
        is_cycle(n, new),
{
    let s = choose|s: int| #![trigger rotation(base, s)] #![trigger rotation(flipped(base), s)] 0 <= s < base.len() && (new == rotation(base, s) || new == rotation(flipped(base), s));
    assert(flipped(base).len() == base.len());
    lemma_reverse_cycle(n, base);
    if new == rotation(base, s) {
        lemma_rotation_cycle(n, base, s);
    } else {
        lemma_rotation_cycle(n, flipped(base), s);
    }
}

/// Cuts the closed tour where it scores best: over every start, on the tour
/// and on the tour walked backwards, the highest `cut_score` (raw score plus
/// `lambda_cut` when the closing edge drops in weight rank), then the highest
/// raw score; the forward tour wins ties. Returns the raw score.
pub fn relinearize_best_cut(route: &mut Vec<usize>, weights: &[i64], rank_by_cell: &[usize], lambda_cut: i64) -> (score: i64)
    requires
        1 <= old(route)@.len(),
        2 * old(route)@.len() <= MAX_CELLS,
        cells_in(old(route)@, weights@.len() as int),
        lambda_cut > 0 ==> cells_in(old(route)@, rank_by_cell@.len() as int),
        weights_bounded(weights@),
        0 <= lambda_cut <= MAX_LAMBDA,
    ensures
        final(route)@.len() == old(route)@.len(),
        recut_of(final(route)@, old(route)@),
        best_recut(final(route)@, old(route)@, weights@, rank_by_cell@, lambda_cut as int),
        score == raw_score(final(route)@, weights@),
{
    let ghost orig = route@;
    let ghost w = weights@;
    let ghost rk = rank_by_cell@;
    let ghost lam = lambda_cut as int;
    let len = route.len();
    let (forward_raw, forward_aug, forward_start) = best_rotation_score(route.as_slice(), weights, rank_by_cell, lambda_cut);
    let mut reversed = route.clone();
    proof {
        assert(reversed@ =~= orig);
    }
    reverse_range(&mut reversed, 0, len - 1);
    proof {
        assert(cells_in(reversed@, w.len() as int)) by {
            assert forall|i: int| 0 <= i < reversed@.len() implies #[trigger] reversed@[i] < w.len() by {
                assert(reversed@[i] == orig[len - 1 - i]);
            }
        }
        if lambda_cut > 0 {
            assert(cells_in(reversed@, rk.len() as int)) by {
                assert forall|i: int| 0 <= i < reversed@.len() implies #[trigger] reversed@[i] < rk.len() by {
                    assert(reversed@[i] == orig[len - 1 - i]);
                }
            }
        }
    }
    let (reverse_raw, reverse_aug, reverse_start) = best_rotation_score(reversed.as_slice(), weights, rank_by_cell, lambda_cut);
    if reverse_aug > forward_aug || (reverse_aug == forward_aug && reverse_raw > forward_raw) {
        rotate_left(&mut reversed, reverse_start);
        *route = reversed;
        proof {
            assert(route@ == rotation(flipped(orig), reverse_start as int));
        }
        reverse_raw
    } else {
        rotate_left(route, forward_start);
        proof {
            assert(route@ == rotation(orig, forward_start as int));
        }
        forward_raw
    }
}

/// Two unbeaten cuts of one tour have the same raw score.
pub proof fn lemma_best_recut_equal_pub(a: Seq<usize>, b: Seq<usize>, base: Seq<usize>, w: Seq<i64>, rank: Seq<usize>, lambda: int)
    requires
        recut_of(a, base),
        best_recut(a, base, w, rank, lambda),
        recut_of(b, base),
        best_recut(b, base, w, rank, lambda),
    ensures
        raw_score(a, w) == raw_score(b, w),
{
    lemma_best_recut_equal(a, b, base, w, rank, lambda);
}

/// Two unbeaten candidates of one tour have the same scores.
proof fn lemma_best_recut_equal(a: Seq<usize>, b: Seq<usize>, base: Seq<usize>, w: Seq<i64>, rank: Seq<usize>, lambda: int)
    requires
        recut_of(a, base),
        best_recut(a, base, w, rank, lambda),
        recut_of(b, base),
        best_recut(b, base, w, rank, lambda),
    ensures
        raw_score(a, w) == raw_score(b, w),
{
    let sa = choose|s: int| #![trigger rotation(base, s)] #![trigger rotation(flipped(base), s)] 0 <= s < base.len() && (a == rotation(base, s) || a == rotation(flipped(base), s));
    let sb = choose|s: int| #![trigger rotation(base, s)] #![trigger rotation(flipped(base), s)] 0 <= s < base.len() && (b == rotation(base, s) || b == rotation(flipped(base), s));
    if a == rotation(base, sa) {
        assert(!beats(cut_score(rotation(base, sa), w, rank, lambda), raw_score(rotation(base, sa), w),
            cut_score(b, w, rank, lambda), raw_score(b, w)));
    } else {
        assert(!beats(cut_score(rotation(flipped(base), sa), w, rank, lambda), raw_score(rotation(flipped(base), sa), w),
            cut_score(b, w, rank, lambda), raw_score(b, w)));
    }
    if b == rotation(base, sb) {
        assert(!beats(cut_score(rotation(base, sb), w, rank, lambda), raw_score(rotation(base, sb), w),
            cut_score(a, w, rank, lambda), raw_score(a, w)));
    } else {
        assert(!beats(cut_score(rotation(flipped(base), sb), w, rank, lambda), raw_score(rotation(flipped(base), sb), w),
            cut_score(a, w, rank, lambda), raw_score(a, w)));
    }
}

/// Marks "no route yet" when comparing raw scores.
pub const NO_SCORE: i64 = -2305843009213693952;

/// The row cycle and its transpose, each cut where it scores best (see
/// `relinearize_best_cut`); the one with the higher raw score, the row cycle
/// on ties. For even `n` the result is a closed tour.
pub fn best_initial_cycle(n: usize, weights: &[i64], rank_by_cell: &[usize], lambda_cut: i64) -> (route: Vec<usize>)
    requires
        valid_side(n as int),
        2 <= n,
        2 * n * n <= MAX_CELLS,
        weights@.len() == n * n,
        rank_by_cell@.len() == n * n,
        weights_bounded(weights@),
        0 <= lambda_cut <= MAX_LAMBDA,
    ensures
        n % 2 == 0 ==> is_cycle(n as int, route@),
        (recut_of(route@, row_cycle_spec(n as int))
            && best_recut(route@, row_cycle_spec(n as int), weights@, rank_by_cell@, lambda_cut as int))
        || (recut_of(route@, transpose_spec(n as int, row_cycle_spec(n as int)))
            && best_recut(route@, transpose_spec(n as int, row_cycle_spec(n as int)), weights@, rank_by_cell@, lambda_cut as int)),
        forall|y: Seq<usize>| #![trigger recut_of(y, row_cycle_spec(n as int))]
            recut_of(y, row_cycle_spec(n as int)) && best_recut(y, row_cycle_spec(n as int), weights@, rank_by_cell@, lambda_cut as int)
            ==> raw_score(route@, weights@) >= raw_score(y, weights@),
        forall|y: Seq<usize>| #![trigger recut_of(y, transpose_spec(n as int, row_cycle_spec(n as int)))]
            recut_of(y, transpose_spec(n as int, row_cycle_spec(n as int)))
            && best_recut(y, transpose_spec(n as int, row_cycle_spec(n as int)), weights@, rank_by_cell@, lambda_cut as int)
            ==> raw_score(route@, weights@) >= raw_score(y, weights@),
{
    let ghost nn = n as int;
    let ghost w = weights@;
    let ghost rk = rank_by_cell@;
    let ghost lam = lambda_cut as int;
    let ghost rowc = row_cycle_spec(nn);
    let ghost colc = transpose_spec(nn, rowc);
    let mut row = row_cycle(n);
    proof {
        assert forall|k: int| 0 <= k < row@.len() implies #[trigger] row@[k] < n * n by {
            lemma_cycle_rc(nn, k);
        }
    }
    let mut col = transpose_route(row.as_slice(), n);
    proof {
        assert forall|k: int| 0 <= k < col@.len() implies #[trigger] col@[k] < n * n by {
            lemma_cycle_rc(nn, k);
            crate::grid::lemma_cell_split(nn, row@[k] as int);
            lemma_cell_bound(nn, row_of(nn, row@[k] as int), col_of(nn, row@[k] as int));
            lemma_cell_bound(nn, col_of(nn, row@[k] as int), row_of(nn, row@[k] as int));
        }
        assert(2 * row@.len() <= MAX_CELLS) by (nonlinear_arith) requires row@.len() == n * n, 2 * n * n <= MAX_CELLS;
        assert(row@.len() >= 1) by (nonlinear_arith) requires row@.len() == n * n, n >= 2;
    }
    let row_score = relinearize_best_cut(&mut row, weights, rank_by_cell, lambda_cut);
    let col_score = relinearize_best_cut(&mut col, weights, rank_by_cell, lambda_cut);
    proof {
        crate::descent::lemma_raw_score_bound(row@, w);
        crate::descent::lemma_raw_score_bound(col@, w);
        assert forall|y: Seq<usize>| #![trigger recut_of(y, rowc)]
            recut_of(y, rowc) && best_recut(y, rowc, w, rk, lam) implies raw_score(row@, w) == raw_score(y, w) by {
            lemma_best_recut_equal(row@, y, rowc, w, rk, lam);
        }
        assert forall|y: Seq<usize>| #![trigger recut_of(y, colc)]
            recut_of(y, colc) && best_recut(y, colc, w, rk, lam) implies raw_score(col@, w) == raw_score(y, w) by {
            lemma_best_recut_equal(col@, y, colc, w, rk, lam);
        }
        if n % 2 == 0 {
            lemma_row_cycle(nn);
            lemma_transpose_cycle(nn, rowc);
            lemma_recut_cycle(nn, rowc, row@);
            lemma_recut_cycle(nn, colc, col@);
        }
    }
    let mut best_score = NO_SCORE;
    let mut best_route: Vec<usize> = Vec::new();
    if row_score > best_score {
        best_score = row_score;
        best_route = row;
    }
    if col_score > best_score {
        best_route = col;
    }
    best_route
}

} // verus!
