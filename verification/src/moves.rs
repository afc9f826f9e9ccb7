//! Local moves on routes (segment reversal, relocation, swap) and the score
//! changes they cause.
use vstd::prelude::*;
use crate::grid::{raw_prefix, raw_score, cells_in, weights_bounded, MAX_CELLS, MAX_WEIGHT, lemma_raw_prefix_bound, is_route, is_permutation_route, adjacent, lists_neighbors, is_adj};

verus! {

/// `sum_{t < k} w[route[t]]`.
pub open spec fn wsum(route: Seq<usize>, w: Seq<i64>, k: int) -> int
    decreases k,
{
    if k <= 0 {
        0
    } else {
        wsum(route, w, k - 1) + w[route[k - 1] as int]
    }
}

/// The score change of reversing `route[l..=r]`, from prefix sums:
/// `(l + r) * sum(w) - 2 * sum(t * w)` over the segment.
pub open spec fn seg_delta(route: Seq<usize>, w: Seq<i64>, l: int, r: int) -> int {
    (l + r) * (wsum(route, w, r + 1) - wsum(route, w, l)) - 2 * (raw_prefix(route, w, r + 1)
        - raw_prefix(route, w, l))
}

/// `route` with `route[l..=r]` reversed.
pub open spec fn reversed_range(route: Seq<usize>, l: int, r: int) -> Seq<usize> {
    Seq::new(route.len(), |t: int| if l <= t <= r { route[l + r - t] } else { route[t] })
}

/// `route` with positions `a` and `b` exchanged.
pub open spec fn swapped(route: Seq<usize>, a: int, b: int) -> Seq<usize> {
    route.update(a, route[b]).update(b, route[a])
}

/// Exchanging two positions changes the prefix score only past the first of them.
pub proof fn lemma_swap_raw_prefix(route: Seq<usize>, w: Seq<i64>, a: int, b: int, k: int)
    requires
        0 <= a < b < route.len(),
        0 <= k <= route.len(),
    ensures
        raw_prefix(swapped(route, a, b), w, k) == raw_prefix(route, w, k) + if k <= a {
            0
        } else if k <= b {
            a * (w[route[b] as int] - w[route[a] as int])
        } else {
            (b - a) * (w[route[a] as int] - w[route[b] as int])
        },
    decreases k,
{
    if k > 0 {
        lemma_swap_raw_prefix(route, w, a, b, k - 1);
        let s = swapped(route, a, b);
        if k - 1 == b {
            assert(s[k - 1] == route[a]);
            assert(a * (w[route[b] as int] - w[route[a] as int]) + b * w[route[a] as int] - b * w[
            route[b] as int] == (b - a) * (w[route[a] as int] - w[route[b] as int])) by (nonlinear_arith);
        } else if k - 1 == a {
            assert(s[k - 1] == route[b]);
            assert(a * w[route[b] as int] - a * w[route[a] as int] == a * (w[route[b] as int] - w[
            route[a] as int])) by (nonlinear_arith);
        }
    }
}

/// Exchanging two positions keeps the prefix weight sums outside `a..b`.
pub proof fn lemma_swap_wsum(route: Seq<usize>, w: Seq<i64>, a: int, b: int, k: int)
    requires
        0 <= a < b < route.len(),
        0 <= k <= route.len(),
    ensures
        wsum(swapped(route, a, b), w, k) == wsum(route, w, k) + if k <= a || k > b {
            0
        } else {
            w[route[b] as int] - w[route[a] as int]
        },
    decreases k,
{
    if k > 0 {
        lemma_swap_wsum(route, w, a, b, k - 1);
    }
}

/// The reversal delta of a segment is the swap of its ends plus the reversal
/// delta of its inside.
proof fn lemma_seg_delta_step(route: Seq<usize>, w: Seq<i64>, l: int, r: int)
    requires
        0 <= l < r < route.len(),
    ensures
        seg_delta(route, w, l, r) == (r - l) * (w[route[l] as int] - w[route[r] as int])
            + seg_delta(route, w, l + 1, r - 1),
{
    let wl = w[route[l] as int];
    let wr = w[route[r] as int];
    assert(wsum(route, w, l + 1) == wsum(route, w, l) + wl);
    assert(raw_prefix(route, w, l + 1) == raw_prefix(route, w, l) + l * wl);
    assert(wsum(route, w, r + 1) == wsum(route, w, r) + wr);
    assert(raw_prefix(route, w, r + 1) == raw_prefix(route, w, r) + r * wr);
    let s_in = wsum(route, w, r) - wsum(route, w, l + 1);
    let p_in = raw_prefix(route, w, r) - raw_prefix(route, w, l + 1);
    assert((l + r) * (s_in + wl + wr) - 2 * (p_in + l * wl + r * wr) == (r - l) * (wl - wr) + (l + 1
        + r - 1) * s_in - 2 * p_in) by (nonlinear_arith);
}

/// A segment of at most one cell has no reversal delta.
proof fn lemma_seg_delta_trivial(route: Seq<usize>, w: Seq<i64>, l: int, r: int)
    requires
        0 <= l,
        r < route.len(),
        r <= l <= r + 1,
    ensures
        seg_delta(route, w, l, r) == 0,
{
    if l == r {
        let x = w[route[l] as int];
        let ds = wsum(route, w, r + 1) - wsum(route, w, l);
        let dp = raw_prefix(route, w, r + 1) - raw_prefix(route, w, l);
        assert(ds == x);
        assert(dp == l * x);
        assert((l + r) * ds - 2 * dp == 0) by (nonlinear_arith)
            requires ds == x, dp == l * x, l == r;
    } else {
        let ds = wsum(route, w, r + 1) - wsum(route, w, l);
        assert(ds == 0);
        assert((l + r) * ds == 0) by (nonlinear_arith) requires ds == 0;
    }
}

/// Reversing `route[l..=r]` in place.
pub fn reverse_range(route: &mut Vec<usize>, l: usize, r: usize)
    requires
        l <= r < old(route)@.len(),
    ensures
        final(route)@ == reversed_range(old(route)@, l as int, r as int),
{
    let ghost orig = route@;
    let mut i: usize = l;
    let mut j: usize = r;
    while i < j
        invariant
            l <= i <= r + 1,
            j <= r,
            i + j == l + r,
            r < orig.len(),
            route@.len() == orig.len(),
            forall|t: int| 0 <= t < orig.len() ==> #[trigger] route@[t] == if (l <= t < i) || (j < t <= r) {
                orig[l + r - t]
            } else {
                orig[t]
            },
        decreases r + 1 - i,
    {
        let a = route[i];
        let b = route[j];
        route.set(i, b);
        route.set(j, a);
        i += 1;
        j -= 1;
    }
    proof {
        assert forall|t: int| 0 <= t < orig.len() implies #[trigger] route@[t] == reversed_range(orig, l as int, r as int)[t] by {
            if l <= t <= r && !((l <= t < i) || (j < t <= r)) {
                assert(t == l + r - t);
            }
        }
        assert(route@ =~= reversed_range(orig, l as int, r as int));
    }
}

/// Reversing `route[l..=r]` changes the raw score by `seg_delta(route, w, l, r)`.
pub proof fn lemma_reversal_score(route: Seq<usize>, w: Seq<i64>, l: int, r: int)
    requires
        0 <= l <= r < route.len(),
    ensures
        raw_score(reversed_range(route, l, r), w) == raw_score(route, w) + seg_delta(route, w, l, r),
    decreases r - l,
{
    if l + 1 >= r {
        if l == r {
            lemma_seg_delta_trivial(route, w, l, r);
            assert(reversed_range(route, l, r) =~= route);
        } else {
            lemma_seg_delta_step(route, w, l, r);
            lemma_seg_delta_trivial(route, w, l + 1, r - 1);
            lemma_swap_raw_prefix(route, w, l, r, route.len() as int);
            assert(reversed_range(route, l, r) =~= swapped(route, l, r));
        }
    } else {
        let s = swapped(route, l, r);
        lemma_reversal_score(s, w, l + 1, r - 1);
        assert(reversed_range(s, l + 1, r - 1) =~= reversed_range(route, l, r));
        lemma_swap_raw_prefix(route, w, l, r, route.len() as int);
        lemma_seg_delta_step(route, w, l, r);
        // the inside of the segment is the same in `s` and in `route`
        lemma_swap_raw_prefix(route, w, l, r, r);
        lemma_swap_raw_prefix(route, w, l, r, l + 1);
        lemma_swap_wsum(route, w, l, r, r);
        lemma_swap_wsum(route, w, l, r, l + 1);
    }
}


/// The prefix sums stay within `k * MAX_WEIGHT`.
pub proof fn lemma_wsum_bound(route: Seq<usize>, w: Seq<i64>, k: int)
    requires
        0 <= k <= route.len(),
        cells_in(route, w.len() as int),
        weights_bounded(w),
    ensures
        -k * MAX_WEIGHT <= wsum(route, w, k) <= k * MAX_WEIGHT,
    decreases k,
{
    if k > 0 {
        lemma_wsum_bound(route, w, k - 1);
    }
}

/// Bound on the entries of a prefix-weight array.
pub open spec fn weight_sums_bounded(pw: Seq<i64>) -> bool {
    forall|k: int| 0 <= k < pw.len() ==> -(MAX_CELLS * MAX_WEIGHT) <= #[trigger] pw[k] <= MAX_CELLS * MAX_WEIGHT
}

/// Bound on the entries of a prefix-score array.
pub open spec fn score_sums_bounded(ppw: Seq<i64>) -> bool {
    forall|k: int| 0 <= k < ppw.len() ==> -(MAX_CELLS * (MAX_CELLS * MAX_WEIGHT)) <= #[trigger] ppw[k] <= MAX_CELLS * (MAX_CELLS * MAX_WEIGHT)
}

/// `pw` and `ppw` hold the prefix weight sums and prefix scores of `route`,
/// and `position` the index of every cell of `route`.
pub open spec fn aux_of(route: Seq<usize>, w: Seq<i64>, position: Seq<usize>, pw: Seq<i64>, ppw: Seq<i64>) -> bool {
    &&& pw.len() > route.len()
    &&& ppw.len() > route.len()
    &&& forall|k: int| 0 <= k <= route.len() ==> #[trigger] pw[k] == wsum(route, w, k)
    &&& forall|k: int| 0 <= k <= route.len() ==> #[trigger] ppw[k] == raw_prefix(route, w, k)
    &&& forall|t: int| 0 <= t < route.len() ==> route[t] < position.len() && #[trigger] position[route[t] as int] == t
}

/// Prefix arrays of a bounded route are bounded.
pub proof fn lemma_aux_bounded(route: Seq<usize>, w: Seq<i64>, position: Seq<usize>, pw: Seq<i64>, ppw: Seq<i64>)
    requires
        aux_of(route, w, position, pw, ppw),
        pw.len() == route.len() + 1,
        ppw.len() == route.len() + 1,
        route.len() <= MAX_CELLS,
        cells_in(route, w.len() as int),
        weights_bounded(w),
    ensures
        weight_sums_bounded(pw),
        score_sums_bounded(ppw),
{
    assert forall|k: int| 0 <= k < pw.len() implies -(MAX_CELLS * MAX_WEIGHT) <= #[trigger] pw[k] <= MAX_CELLS * MAX_WEIGHT by {
        lemma_wsum_bound(route, w, k);
        assert(k * MAX_WEIGHT <= MAX_CELLS * MAX_WEIGHT) by (nonlinear_arith) requires 0 <= k <= MAX_CELLS;
    }
    assert forall|k: int| 0 <= k < ppw.len() implies -(MAX_CELLS * (MAX_CELLS * MAX_WEIGHT)) <= #[trigger] ppw[k] <= MAX_CELLS * (MAX_CELLS * MAX_WEIGHT) by {
        lemma_raw_prefix_bound(route, w, k);
        assert(k * (MAX_CELLS * MAX_WEIGHT) <= MAX_CELLS * (MAX_CELLS * MAX_WEIGHT)) by (nonlinear_arith) requires 0 <= k <= MAX_CELLS;
    }
}

/// Fills `position`, `prefix_weight` and `prefix_pos_weight` for `route`.
pub fn rebuild_aux(
    route: &[usize],
    weights: &[i64],
    position: &mut Vec<usize>,
    prefix_weight: &mut Vec<i64>,
    prefix_pos_weight: &mut Vec<i64>,
)
    requires
        route@.len() <= MAX_CELLS,
        route@.no_duplicates(),
        cells_in(route@, weights@.len() as int),
        cells_in(route@, old(position)@.len() as int),
        weights_bounded(weights@),
        old(prefix_weight)@.len() == route@.len() + 1,
        old(prefix_pos_weight)@.len() == route@.len() + 1,
    ensures
        final(position)@.len() == old(position)@.len(),
        final(prefix_weight)@.len() == old(prefix_weight)@.len(),
        final(prefix_pos_weight)@.len() == old(prefix_pos_weight)@.len(),
        aux_of(route@, weights@, final(position)@, final(prefix_weight)@, final(prefix_pos_weight)@),
        forall|c: int| 0 <= c < old(position)@.len() && !route@.contains(c as usize) ==> #[trigger] final(position)@[c] == old(position)@[c],
{
    let ghost pos0 = position@;
    prefix_weight.set(0, 0);
    prefix_pos_weight.set(0, 0);
    let mut idx: usize = 0;
    while idx < route.len()
        invariant
            idx <= route@.len() <= MAX_CELLS,
            route@.no_duplicates(),
            cells_in(route@, weights@.len() as int),
            cells_in(route@, position@.len() as int),
            weights_bounded(weights@),
            position@.len() == pos0.len(),
            prefix_weight@.len() == route@.len() + 1,
            prefix_pos_weight@.len() == route@.len() + 1,
            forall|k: int| 0 <= k <= idx ==> #[trigger] prefix_weight@[k] == wsum(route@, weights@, k),
            forall|k: int| 0 <= k <= idx ==> #[trigger] prefix_pos_weight@[k] == raw_prefix(route@, weights@, k),
            forall|t: int| 0 <= t < idx ==> #[trigger] position@[route@[t] as int] == t,
            forall|c: int| 0 <= c < pos0.len() && !route@.subrange(0, idx as int).contains(c as usize) ==> #[trigger] position@[c] == pos0[c],
        decreases route@.len() - idx,
    {
        let cell = route[idx];
        proof {
            lemma_wsum_bound(route@, weights@, idx + 1);
            lemma_raw_prefix_bound(route@, weights@, idx + 1);
            let x = weights@[cell as int];
            assert(-(MAX_CELLS * MAX_WEIGHT) <= idx * x <= MAX_CELLS * MAX_WEIGHT) by (nonlinear_arith)
                requires 0 <= idx < MAX_CELLS, -MAX_WEIGHT <= x <= MAX_WEIGHT;
            assert((idx + 1) * (MAX_CELLS * MAX_WEIGHT) <= MAX_CELLS * (MAX_CELLS * MAX_WEIGHT)) by (nonlinear_arith)
                requires idx + 1 <= MAX_CELLS;
        }
        let ghost old_pos = position@;
        position.set(cell, idx);
        let pw = prefix_weight[idx] + weights[cell];
        prefix_weight.set(idx + 1, pw);
        let ppw = prefix_pos_weight[idx] + idx as i64 * weights[cell];
        prefix_pos_weight.set(idx + 1, ppw);
        proof {
            assert forall|t: int| 0 <= t < idx + 1 implies #[trigger] position@[route@[t] as int] == t by {
                if t < idx {
                    assert(route@[t] != route@[idx as int]);
                    assert(old_pos[route@[t] as int] == t);
                }
            }
            assert forall|c: int| 0 <= c < pos0.len() && !route@.subrange(0, idx + 1).contains(c as usize) implies #[trigger] position@[c] == pos0[c] by {
                assert(route@.subrange(0, idx + 1)[idx as int] == cell);
                assert(c != cell);
                if route@.subrange(0, idx as int).contains(c as usize) {
                    let k = choose|k: int| 0 <= k < idx && route@.subrange(0, idx as int)[k] == c as usize;
                    assert(route@.subrange(0, idx + 1)[k] == c as usize);
                }
            }
        }
        idx += 1;
    }
    proof {
        assert(route@.subrange(0, route@.len() as int) =~= route@);
    }
}

/// What `reversal_delta` computes from the prefix arrays of a route is the
/// change in raw score of reversing `route[l..=r]`.
pub proof fn lemma_reversal_delta_law(route: Seq<usize>, w: Seq<i64>, pw: Seq<i64>, ppw: Seq<i64>, l: int, r: int)
    requires
        0 <= l <= r < route.len(),
        pw.len() > route.len(),
        ppw.len() > route.len(),
        forall|k: int| 0 <= k <= route.len() ==> #[trigger] pw[k] == wsum(route, w, k),
        forall|k: int| 0 <= k <= route.len() ==> #[trigger] ppw[k] == raw_prefix(route, w, k),
    ensures
        raw_score(reversed_range(route, l, r), w) - raw_score(route, w)
            == (l + r) * (pw[r + 1] - pw[l]) - 2 * (ppw[r + 1] - ppw[l]),
{
    lemma_reversal_score(route, w, l, r);
    assert(pw[r + 1] == wsum(route, w, r + 1));
    assert(pw[l] == wsum(route, w, l));
    assert(ppw[r + 1] == raw_prefix(route, w, r + 1));
    assert(ppw[l] == raw_prefix(route, w, l));
}

/// The reversal delta from prefix arrays: `(l + r) * (pw[r + 1] - pw[l]) -
/// 2 * (ppw[r + 1] - ppw[l])`.
pub fn reversal_delta(l: usize, r: usize, prefix_weight: &[i64], prefix_pos_weight: &[i64]) -> (d: i64)
    requires
        l <= r < MAX_CELLS,
        r + 1 < prefix_weight@.len(),
        r + 1 < prefix_pos_weight@.len(),
        weight_sums_bounded(prefix_weight@),
        score_sums_bounded(prefix_pos_weight@),
    ensures
        d == (l + r) * (prefix_weight@[r + 1] - prefix_weight@[l as int]) - 2 * (prefix_pos_weight@[r + 1] - prefix_pos_weight@[l as int]),
{
    let sum_weight = prefix_weight[r + 1] - prefix_weight[l];
    let sum_pos_weight = prefix_pos_weight[r + 1] - prefix_pos_weight[l];
    proof {
        assert(-2 * (MAX_CELLS * MAX_WEIGHT) <= sum_weight <= 2 * (MAX_CELLS * MAX_WEIGHT));
        assert(-4_000_000_000_000_000_000 <= (l + r) * sum_weight <= 4_000_000_000_000_000_000) by (nonlinear_arith)
            requires 0 <= l + r <= 2 * MAX_CELLS, -2 * (MAX_CELLS * MAX_WEIGHT) <= sum_weight <= 2 * (MAX_CELLS * MAX_WEIGHT);
    }
    (l as i64 + r as i64) * sum_weight - 2 * sum_pos_weight
}


/// Reversing `route[l..=r]` keeps every step a king move.
pub open spec fn valid_reversal(n: int, route: Seq<usize>, l: int, r: int) -> bool {
    &&& 0 <= l < r < route.len()
    &&& (l == 0 || adjacent(n, route[l - 1] as int, route[r] as int))
    &&& (r == route.len() - 1 || adjacent(n, route[l] as int, route[r + 1] as int))
}

/// King moves are symmetric.
pub proof fn lemma_adjacent_symmetric(n: int, u: int, v: int)
    ensures
        adjacent(n, u, v) == adjacent(n, v, u),
{
}

/// A valid reversal keeps a route a route.
pub proof fn lemma_reversal_keeps_route(n: int, route: Seq<usize>, l: int, r: int)
    requires
        is_route(n, route),
        valid_reversal(n, route, l, r),
    ensures
        is_route(n, reversed_range(route, l, r)),
{
    let s = reversed_range(route, l, r);
    assert forall|a: int, b: int| 0 <= a < s.len() && 0 <= b < s.len() && a != b implies s[a] != s[b] by {
        let ia = if l <= a <= r { l + r - a } else { a };
        let ib = if l <= b <= r { l + r - b } else { b };
        assert(route[ia] != route[ib]);
    }
    assert forall|i: int| 0 <= i < s.len() implies #[trigger] s[i] < n * n by {
        let ii = if l <= i <= r { l + r - i } else { i };
        assert(route[ii] < n * n);
    }
    assert forall|i: int| 0 <= i < s.len() - 1 implies #[trigger] adjacent(n, s[i] as int, s[i + 1] as int) by {
        if l <= i && i + 1 <= r {
            let j = l + r - i - 1;
            assert(adjacent(n, route[j] as int, route[j + 1] as int));
            lemma_adjacent_symmetric(n, route[j] as int, route[j + 1] as int);
        } else if i + 1 == l {
        } else if i == r {
        } else {
            assert(adjacent(n, route[i] as int, route[i + 1] as int));
        }
    }
}

/// A segment reversal and its score change.
#[derive(Debug, Clone, Copy)]
pub struct TwoOptMove {
    pub l: usize,
    pub r: usize,
    pub delta: i64,
}

/// `d` is at least the score change of every valid reversal of `route`.
pub open spec fn dominates_reversals(n: int, route: Seq<usize>, w: Seq<i64>, d: int) -> bool {
    forall|l: int, r: int| #[trigger] valid_reversal(n, route, l, r) ==> seg_delta(route, w, l, r) <= d
}

/// What a move search over `route` may rely on.
pub open spec fn search_ctx(n: int, route: Seq<usize>, w: Seq<i64>, position: Seq<usize>, pw: Seq<i64>, ppw: Seq<i64>) -> bool {
    &&& 0 < n
    &&& 1 <= route.len() <= MAX_CELLS
    &&& is_permutation_route(n, route)
    &&& aux_of(route, w, position, pw, ppw)
    &&& position.len() == n * n
    &&& pw.len() == route.len() + 1
    &&& ppw.len() == route.len() + 1
    &&& weight_sums_bounded(pw)
    &&& score_sums_bounded(ppw)
    &&& forall|c: int| 0 <= c < n * n ==> #[trigger] position[c] < route.len()
}

/// The positions of a permutation route cover every cell.
pub proof fn lemma_search_ctx(n: int, route: Seq<usize>, w: Seq<i64>, position: Seq<usize>, pw: Seq<i64>, ppw: Seq<i64>)
    requires
        0 < n,
        1 <= route.len() <= MAX_CELLS,
        is_permutation_route(n, route),
        aux_of(route, w, position, pw, ppw),
        position.len() == n * n,
        pw.len() == route.len() + 1,
        ppw.len() == route.len() + 1,
        weight_sums_bounded(pw),
        score_sums_bounded(ppw),
    ensures
        search_ctx(n, route, w, position, pw, ppw),
{
    crate::grid::lemma_permutation_covers(n * n, route);
    assert forall|c: int| 0 <= c < n * n implies #[trigger] position[c] < route.len() by {
        assert(route.contains(c as usize));
        let t = choose|t: int| 0 <= t < route.len() && route[t] == c as usize;
        assert(position[route[t] as int] == t);
    }
}

/// The cell at the recorded position of `c` is `c`.
pub proof fn lemma_position_inverse(n: int, route: Seq<usize>, w: Seq<i64>, position: Seq<usize>, pw: Seq<i64>, ppw: Seq<i64>, c: int)
    requires
        search_ctx(n, route, w, position, pw, ppw),
        0 <= c < n * n,
    ensures
        route[position[c] as int] == c,
{
    crate::grid::lemma_permutation_covers(n * n, route);
    assert(route.contains(c as usize));
    let t = choose|t: int| 0 <= t < route.len() && route[t] == c as usize;
    assert(position[route[t] as int] == t);
}

/// The array formula of the reversal delta is `seg_delta`.
pub proof fn lemma_delta_matches(route: Seq<usize>, w: Seq<i64>, position: Seq<usize>, pw: Seq<i64>, ppw: Seq<i64>, l: int, r: int)
    requires
        aux_of(route, w, position, pw, ppw),
        0 <= l <= r < route.len(),
    ensures
        seg_delta(route, w, l, r) == (l + r) * (pw[r + 1] - pw[l]) - 2 * (ppw[r + 1] - ppw[l]),
{
    assert(pw[l] == wsum(route, w, l));
    assert(pw[r + 1] == wsum(route, w, r + 1));
    assert(ppw[l] == raw_prefix(route, w, l));
    assert(ppw[r + 1] == raw_prefix(route, w, r + 1));
}

/// The best found so far is a gaining valid reversal, or nothing with `0`.
pub open spec fn best_reversal_ok(n: int, route: Seq<usize>, w: Seq<i64>, best: Option<TwoOptMove>, best_delta: int) -> bool {
    match best {
        Some(mv) => valid_reversal(n, route, mv.l as int, mv.r as int) && mv.delta == best_delta
            && best_delta == seg_delta(route, w, mv.l as int, mv.r as int) && best_delta > 0,
        None => best_delta == 0,
    }
}

/// The best reversal among those that keep every step a king move: the
/// reversals of a prefix that ends next to the first cell's neighbour, of a
/// suffix, of the whole route, and of an inner segment whose ends fit its
/// surroundings. `None` when no reversal gains anything.
pub fn best_two_opt_move(
    route: &[usize],
    position: &[usize],
    neighbors: &Vec<Vec<usize>>,
    prefix_weight: &[i64],
    prefix_pos_weight: &[i64],
    n: usize,
) -> (best: Option<TwoOptMove>)
    requires
        0 < n,
        1 <= route@.len() <= MAX_CELLS,
        is_permutation_route(n as int, route@),
        neighbors@.len() == n * n,
        forall|c: int| 0 <= c < n * n ==> lists_neighbors(n as int, c, #[trigger] neighbors@[c]@),
        position@.len() == n * n,
        prefix_weight@.len() == route@.len() + 1,
        prefix_pos_weight@.len() == route@.len() + 1,
        exists|w: Seq<i64>| aux_of(route@, w, position@, prefix_weight@, prefix_pos_weight@),
        weight_sums_bounded(prefix_weight@),
        score_sums_bounded(prefix_pos_weight@),
    ensures
        forall|w: Seq<i64>| #[trigger] aux_of(route@, w, position@, prefix_weight@, prefix_pos_weight@) ==> match best {
            Some(mv) => {
                &&& valid_reversal(n as int, route@, mv.l as int, mv.r as int)
                &&& mv.delta == seg_delta(route@, w, mv.l as int, mv.r as int)
                &&& mv.delta > 0
                &&& dominates_reversals(n as int, route@, w, mv.delta as int)
            },
            None => dominates_reversals(n as int, route@, w, 0),
        },
{
    let ghost w = choose|w: Seq<i64>| aux_of(route@, w, position@, prefix_weight@, prefix_pos_weight@);
    let ghost rt = route@;
    proof {
        lemma_search_ctx(n as int, rt, w, position@, prefix_weight@, prefix_pos_weight@);
    }
    let len = route.len();
    let mut best: Option<TwoOptMove> = None;
    let mut best_delta: i64 = 0;

    let full_delta = reversal_delta(0, len - 1, prefix_weight, prefix_pos_weight);
    proof {
        lemma_delta_matches(rt, w, position@, prefix_weight@, prefix_pos_weight@, 0, len - 1);
        if len == 1 {
            lemma_seg_delta_trivial(rt, w, 0, 0);
        }
        assert(rt[0] < n * n);
        assert(rt[len - 1] < n * n);
    }
    if full_delta > best_delta {
        best_delta = full_delta;
        best = Some(TwoOptMove { l: 0, r: len - 1, delta: full_delta });
    }

    let first = route[0];
    let nb_first = &neighbors[first];
    let mut k: usize = 0;
    while k < nb_first.len()
        invariant
            search_ctx(n as int, rt, w, position@, prefix_weight@, prefix_pos_weight@),
            rt == route@,
            len == rt.len(),
            first == rt[0],
            nb_first == neighbors@[first as int],
            first < n * n,
            neighbors@.len() == n * n,
            forall|c: int| 0 <= c < n * n ==> lists_neighbors(n as int, c, #[trigger] neighbors@[c]@),
            k <= nb_first@.len(),
            best_delta >= 0,
            best_reversal_ok(n as int, rt, w, best, best_delta as int),
            seg_delta(rt, w, 0, len - 1) <= best_delta,
            forall|j: int| 0 <= j < k ==> #[trigger] position@[nb_first@[j] as int] != 0 ==> seg_delta(rt, w, 0, position@[nb_first@[j] as int] - 1) <= best_delta,
        decreases nb_first@.len() - k,
    {
        let cell = nb_first[k];
        proof {
            assert(lists_neighbors(n as int, first as int, neighbors@[first as int]@));
            assert(nb_first@.contains(cell));
        }
        let p = position[cell];
        if p != 0 {
            let r = p - 1;
            let delta = reversal_delta(0, r, prefix_weight, prefix_pos_weight);
            proof {
                lemma_delta_matches(rt, w, position@, prefix_weight@, prefix_pos_weight@, 0, r as int);
                lemma_position_inverse(n as int, rt, w, position@, prefix_weight@, prefix_pos_weight@, cell as int);
                if r == 0 {
                    lemma_seg_delta_trivial(rt, w, 0, 0);
                }
            }
            if delta > best_delta {
                best_delta = delta;
                best = Some(TwoOptMove { l: 0, r, delta });
            }
        }
        k += 1;
    }

    let last = route[len - 1];
    let nb_last = &neighbors[last];
    let mut k: usize = 0;
    while k < nb_last.len()
        invariant
            search_ctx(n as int, rt, w, position@, prefix_weight@, prefix_pos_weight@),
            rt == route@,
            len == rt.len(),
            first == rt[0],
            last == rt[len - 1],
            nb_first == neighbors@[first as int],
            nb_last == neighbors@[last as int],
            last < n * n,
            neighbors@.len() == n * n,
            forall|c: int| 0 <= c < n * n ==> lists_neighbors(n as int, c, #[trigger] neighbors@[c]@),
            k <= nb_last@.len(),
            best_delta >= 0,
            best_reversal_ok(n as int, rt, w, best, best_delta as int),
            seg_delta(rt, w, 0, len - 1) <= best_delta,
            forall|j: int| 0 <= j < nb_first@.len() ==> #[trigger] position@[nb_first@[j] as int] != 0 ==> seg_delta(rt, w, 0, position@[nb_first@[j] as int] - 1) <= best_delta,
            forall|j: int| 0 <= j < k ==> #[trigger] position@[nb_last@[j] as int] + 1 < len ==> seg_delta(rt, w, position@[nb_last@[j] as int] + 1, len - 1) <= best_delta,
        decreases nb_last@.len() - k,
    {
        let cell = nb_last[k];
        proof {
            assert(lists_neighbors(n as int, last as int, neighbors@[last as int]@));
            assert(nb_last@.contains(cell));
        }
        let p = position[cell];
        if p + 1 < len {
            let l = p + 1;
            let delta = reversal_delta(l, len - 1, prefix_weight, prefix_pos_weight);
            proof {
                lemma_delta_matches(rt, w, position@, prefix_weight@, prefix_pos_weight@, l as int, len - 1);
                lemma_position_inverse(n as int, rt, w, position@, prefix_weight@, prefix_pos_weight@, cell as int);
                lemma_adjacent_symmetric(n as int, last as int, cell as int);
                if l == len - 1 {
                    lemma_seg_delta_trivial(rt, w, l as int, l as int);
                }
            }
            if delta > best_delta {
                best_delta = delta;
                best = Some(TwoOptMove { l, r: len - 1, delta });
            }
        }
        k += 1;
    }

    let mut l: usize = 1;
    while l + 1 < len
        invariant
            search_ctx(n as int, rt, w, position@, prefix_weight@, prefix_pos_weight@),
            rt == route@,
            len == rt.len(),
            first == rt[0],
            last == rt[len - 1],
            nb_first == neighbors@[first as int],
            nb_last == neighbors@[last as int],
            1 <= l <= len,
            neighbors@.len() == n * n,
            forall|c: int| 0 <= c < n * n ==> lists_neighbors(n as int, c, #[trigger] neighbors@[c]@),
            best_delta >= 0,
            best_reversal_ok(n as int, rt, w, best, best_delta as int),
            seg_delta(rt, w, 0, len - 1) <= best_delta,
            forall|j: int| 0 <= j < nb_first@.len() ==> #[trigger] position@[nb_first@[j] as int] != 0 ==> seg_delta(rt, w, 0, position@[nb_first@[j] as int] - 1) <= best_delta,
            forall|j: int| 0 <= j < nb_last@.len() ==> #[trigger] position@[nb_last@[j] as int] + 1 < len ==> seg_delta(rt, w, position@[nb_last@[j] as int] + 1, len - 1) <= best_delta,
            forall|a: int, b: int| 1 <= a < l && #[trigger] valid_reversal(n as int, rt, a, b) && b < len - 1 ==> seg_delta(rt, w, a, b) <= best_delta,
        decreases len - l,
    {
        let left = route[l - 1];
        let first_in = route[l];
        proof {
            assert(rt[l - 1] < n * n);
        }
        let nb_left = &neighbors[left];
        let mut k: usize = 0;
        while k < nb_left.len()
            invariant
                search_ctx(n as int, rt, w, position@, prefix_weight@, prefix_pos_weight@),
                rt == route@,
                len == rt.len(),
                first == rt[0],
                last == rt[len - 1],
                nb_first == neighbors@[first as int],
                nb_last == neighbors@[last as int],
                1 <= l < len - 1,
                left == rt[l - 1],
                first_in == rt[l as int],
                nb_left == neighbors@[left as int],
                neighbors@.len() == n * n,
                forall|c: int| 0 <= c < n * n ==> lists_neighbors(n as int, c, #[trigger] neighbors@[c]@),
                k <= nb_left@.len(),
                best_delta >= 0,
                best_reversal_ok(n as int, rt, w, best, best_delta as int),
                seg_delta(rt, w, 0, len - 1) <= best_delta,
                forall|j: int| 0 <= j < nb_first@.len() ==> #[trigger] position@[nb_first@[j] as int] != 0 ==> seg_delta(rt, w, 0, position@[nb_first@[j] as int] - 1) <= best_delta,
                forall|j: int| 0 <= j < nb_last@.len() ==> #[trigger] position@[nb_last@[j] as int] + 1 < len ==> seg_delta(rt, w, position@[nb_last@[j] as int] + 1, len - 1) <= best_delta,
                forall|a: int, b: int| 1 <= a < l && #[trigger] valid_reversal(n as int, rt, a, b) && b < len - 1 ==> seg_delta(rt, w, a, b) <= best_delta,
                forall|j: int| 0 <= j < k ==> {
                    let r = #[trigger] position@[nb_left@[j] as int];
                    l < r && r + 1 < len && adjacent(n as int, first_in as int, rt[r + 1] as int) ==> seg_delta(rt, w, l as int, r as int) <= best_delta
                },
            decreases nb_left@.len() - k,
        {
            let cell = nb_left[k];
            proof {
                assert(lists_neighbors(n as int, left as int, neighbors@[left as int]@));
                assert(nb_left@.contains(cell));
            }
            let r = position[cell];
            if r > l && r + 1 < len {
                if is_adj(first_in, route[r + 1], n) {
                    let delta = reversal_delta(l, r, prefix_weight, prefix_pos_weight);
                    proof {
                        lemma_delta_matches(rt, w, position@, prefix_weight@, prefix_pos_weight@, l as int, r as int);
                        lemma_position_inverse(n as int, rt, w, position@, prefix_weight@, prefix_pos_weight@, cell as int);
                    }
                    if delta > best_delta {
                        best_delta = delta;
                        best = Some(TwoOptMove { l, r, delta });
                    }
                }
            }
            k += 1;
        }
        proof {
            assert forall|a: int, b: int| 1 <= a < l + 1 && #[trigger] valid_reversal(n as int, rt, a, b) && b < len - 1 implies seg_delta(rt, w, a, b) <= best_delta by {
                if a == l {
                    let c = rt[b];
                    assert(lists_neighbors(n as int, left as int, neighbors@[left as int]@));
                    assert(nb_left@.contains(c));
                    let j = choose|j: int| 0 <= j < nb_left@.len() && nb_left@[j] == c;
                    assert(position@[nb_left@[j] as int] == b);
                }
            }
        }
        l += 1;
    }
    proof {
        // every valid reversal falls in one of the four scanned families
        assert forall|a: int, b: int| #[trigger] valid_reversal(n as int, rt, a, b) implies seg_delta(rt, w, a, b) <= best_delta by {
            if a == 0 && b < len - 1 {
                let c = rt[b + 1];
                assert(lists_neighbors(n as int, first as int, neighbors@[first as int]@));
                assert(nb_first@.contains(c));
                let j = choose|j: int| 0 <= j < nb_first@.len() && nb_first@[j] == c;
                assert(position@[nb_first@[j] as int] == b + 1);
            } else if a > 0 && b == len - 1 {
                let c = rt[a - 1];
                lemma_adjacent_symmetric(n as int, c as int, last as int);
                assert(lists_neighbors(n as int, last as int, neighbors@[last as int]@));
                assert(nb_last@.contains(c));
                let j = choose|j: int| 0 <= j < nb_last@.len() && nb_last@[j] == c;
                assert(position@[nb_last@[j] as int] == a - 1);
            }
        }
        assert forall|w2: Seq<i64>| #[trigger] aux_of(route@, w2, position@, prefix_weight@, prefix_pos_weight@) implies (forall|a: int, b: int| 0 <= a <= b < rt.len() ==> #[trigger] seg_delta(rt, w2, a, b) == seg_delta(rt, w, a, b)) by {
            assert forall|a: int, b: int| 0 <= a <= b < rt.len() implies #[trigger] seg_delta(rt, w2, a, b) == seg_delta(rt, w, a, b) by {
                assert(prefix_weight@[a] == wsum(rt, w2, a));
                assert(prefix_weight@[b + 1] == wsum(rt, w2, b + 1));
                assert(prefix_pos_weight@[a] == raw_prefix(rt, w2, a));
                assert(prefix_pos_weight@[b + 1] == raw_prefix(rt, w2, b + 1));
            }
        }
    }
    best
}


/// The raw score of the window `d[s..s + m]` from prefix sums of `d`.
pub proof fn lemma_window_score(d: Seq<usize>, w: Seq<i64>, s: int, m: int)
    requires
        0 <= s,
        0 <= m,
        s + m <= d.len(),
    ensures
        raw_prefix(d.subrange(s, s + m), w, m) == raw_prefix(d, w, s + m) - raw_prefix(d, w, s) - s * (
        wsum(d, w, s + m) - wsum(d, w, s)),
    decreases m,
{
    if m > 0 {
        lemma_window_score(d, w, s, m - 1);
        let sub = d.subrange(s, s + m);
        let sub2 = d.subrange(s, s + m - 1);
        assert forall|k: int| 0 <= k <= m - 1 implies #[trigger] raw_prefix(sub, w, k) == raw_prefix(sub2, w, k) by {
            lemma_prefix_agree(sub, sub2, w, k);
        }
        let x = w[d[s + m - 1] as int];
        assert(sub[m - 1] == d[s + m - 1]);
        assert(raw_prefix(sub, w, m - 1) == raw_prefix(sub2, w, m - 1));
        assert(raw_prefix(sub, w, m) == raw_prefix(sub, w, m - 1) + (m - 1) * x);
        assert(raw_prefix(d, w, s + m) == raw_prefix(d, w, s + m - 1) + (s + m - 1) * x);
        assert((m - 1) * x == (s + m - 1) * x - s * x) by (nonlinear_arith);
        let a = wsum(d, w, s + m - 1) - wsum(d, w, s);
        assert(wsum(d, w, s + m) - wsum(d, w, s) == a + x);
        assert(s * (a + x) == s * a + s * x) by (nonlinear_arith);
    } else {
        assert(s * (wsum(d, w, s) - wsum(d, w, s)) == 0) by (nonlinear_arith);
    }
}

/// Prefix scores only depend on the entries they cover.
pub proof fn lemma_prefix_agree(a: Seq<usize>, b: Seq<usize>, w: Seq<i64>, k: int)
    requires
        0 <= k <= a.len(),
        k <= b.len(),
        forall|i: int| 0 <= i < k ==> a[i] == b[i],
    ensures
        raw_prefix(a, w, k) == raw_prefix(b, w, k),
        wsum(a, w, k) == wsum(b, w, k),
    decreases k,
{
    if k > 0 {
        lemma_prefix_agree(a, b, w, k - 1);
    }
}

} // verus!
