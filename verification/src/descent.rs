//! Time-limited local searches that improve a route while keeping it a route.
use vstd::prelude::*;
use std::time::{Duration, Instant};
use crate::clock::{check_deadline, TimeUp};
use crate::grid::{is_route, raw_score, raw_prefix, adjacent, cells_in, weights_bounded, lists_neighbors, MAX_CELLS,
    MAX_WEIGHT, lemma_raw_prefix_bound};
use crate::window::{optimize_window, window_best, window_local, good_path, path_value, paths_at_most, MAX_WINDOW};
use crate::moves::{rebuild_aux, best_two_opt_move, reverse_range, lemma_reversal_score,
    lemma_reversal_keeps_route, lemma_aux_bounded, aux_of, dominates_reversals, valid_reversal, reversed_range};

verus! {

/// The raw score of a bounded route is at most `len * MAX_CELLS * MAX_WEIGHT`.
pub proof fn lemma_raw_score_bound(route: Seq<usize>, w: Seq<i64>)
    requires
        route.len() <= MAX_CELLS,
        cells_in(route, w.len() as int),
        weights_bounded(w),
    ensures
        -(MAX_CELLS * (MAX_CELLS * MAX_WEIGHT)) <= raw_score(route, w) <= MAX_CELLS * (MAX_CELLS * MAX_WEIGHT),
{
    lemma_raw_prefix_bound(route, w, route.len() as int);
    let k = route.len() as int;
    let x = raw_score(route, w);
    assert(-(MAX_CELLS * (MAX_CELLS * MAX_WEIGHT)) <= x <= MAX_CELLS * (MAX_CELLS * MAX_WEIGHT)) by (nonlinear_arith)
        requires 0 <= k <= MAX_CELLS, -k * (MAX_CELLS * MAX_WEIGHT) <= x <= k * (MAX_CELLS * MAX_WEIGHT);
}

/// What the searches require of their inputs.
pub open spec fn search_input(n: int, route: Seq<usize>, w: Seq<i64>) -> bool {
    &&& 0 < n
    &&& n * n <= MAX_CELLS
    &&& is_route(n, route)
    &&& w.len() == n * n
    &&& weights_bounded(w)
}

/// No reversal of a segment of `route` that keeps every step a king move
/// raises its raw score.
pub open spec fn two_opt_optimal(n: int, route: Seq<usize>, w: Seq<i64>) -> bool {
    forall|l: int, r: int| #[trigger] valid_reversal(n, route, l, r)
        ==> raw_score(reversed_range(route, l, r), w) <= raw_score(route, w)
}

/// When every valid reversal changes the score by at most `0`, none raises it.
pub proof fn lemma_two_opt_optimal(n: int, route: Seq<usize>, w: Seq<i64>)
    requires
        dominates_reversals(n, route, w, 0),
    ensures
        two_opt_optimal(n, route, w),
{
    assert forall|l: int, r: int| #[trigger] valid_reversal(n, route, l, r)
        implies raw_score(reversed_range(route, l, r), w) <= raw_score(route, w) by {
        lemma_reversal_score(route, w, l, r);
    }
}

/// Repeatedly applies the best gaining 2-opt reversal until none gains or
/// the deadline passes. The route stays a route, `total_score` keeps its
/// raw score, and the score never drops. `None` when it stopped because no
/// reversal gains: then no valid reversal of the result raises its score.
/// Otherwise the evidence that `deadline` had passed since `start`.
pub fn run_two_opt_descent(
    route: &mut Vec<usize>,
    weights: &[i64],
    neighbors: &Vec<Vec<usize>>,
    n: usize,
    total_score: &mut i64,
    start: &Instant,
    deadline: Duration,
) -> (stop: Option<TimeUp>)
    requires
        search_input(n as int, old(route)@, weights@),
        neighbors@.len() == n * n,
        forall|c: int| 0 <= c < n * n ==> lists_neighbors(n as int, c, #[trigger] neighbors@[c]@),
        *old(total_score) == raw_score(old(route)@, weights@),
    ensures
        search_input(n as int, final(route)@, weights@),
        *final(total_score) == raw_score(final(route)@, weights@),
        raw_score(final(route)@, weights@) >= raw_score(old(route)@, weights@),
        stop is None ==> two_opt_optimal(n as int, final(route)@, weights@),
        stop matches Some(t) ==> t.started() == *start && t.limit() == deadline,
{
    let len = route.len();
    let mut position: Vec<usize> = vec![0usize; len];
    let mut prefix_weight: Vec<i64> = vec![0i64; len + 1];
    let mut prefix_pos_weight: Vec<i64> = vec![0i64; len + 1];
    let ghost w = weights@;
    let ghost bound = MAX_CELLS * (MAX_CELLS * MAX_WEIGHT);
    proof {
        lemma_raw_score_bound(route@, w);
    }
    loop
        invariant
            search_input(n as int, route@, w),
            w == weights@,
            len == route@.len(),
            len == n * n,
            neighbors@.len() == n * n,
            forall|c: int| 0 <= c < n * n ==> lists_neighbors(n as int, c, #[trigger] neighbors@[c]@),
            *total_score == raw_score(route@, w),
            raw_score(route@, w) >= raw_score(old(route)@, w),
            position@.len() == len,
            prefix_weight@.len() == len + 1,
            prefix_pos_weight@.len() == len + 1,
            bound == MAX_CELLS * (MAX_CELLS * MAX_WEIGHT),
            -bound <= raw_score(route@, w) <= bound,
        decreases bound - raw_score(route@, w),
    {
        if let Some(t) = check_deadline(start, &deadline) {
            return Some(t);
        }
        proof {
            assert(len >= 1) by (nonlinear_arith) requires len == n * n, n > 0;
        }
        rebuild_aux(route.as_slice(), weights, &mut position, &mut prefix_weight, &mut prefix_pos_weight);
        proof {
            lemma_aux_bounded(route@, w, position@, prefix_weight@, prefix_pos_weight@);
            assert(aux_of(route@, w, position@, prefix_weight@, prefix_pos_weight@));
        }
        let found = best_two_opt_move(route.as_slice(), position.as_slice(), neighbors, prefix_weight.as_slice(),
            prefix_pos_weight.as_slice(), n);
        let mv = match found {
            Some(mv) => mv,
            None => {
                proof {
                    lemma_two_opt_optimal(n as int, route@, w);
                }
                return None;
            },
        };
        if mv.delta <= 0 {
            proof {
                lemma_two_opt_optimal(n as int, route@, w);
            }
            return None;
        }
        let ghost before = route@;
        reverse_range(route, mv.l, mv.r);
        proof {
            lemma_reversal_score(before, w, mv.l as int, mv.r as int);
            lemma_reversal_keeps_route(n as int, before, mv.l as int, mv.r as int);
            lemma_raw_score_bound(route@, w);
        }
        *total_score = *total_score + mv.delta;
    }
}

/// No order of the cells of the window of `route` that starts at `start`
/// and holds `size` cells (what is left of the route when fewer) that keeps
/// every step a king move, with the cells just before and after it,
/// contributes more to the raw score than their order in `route`.
pub open spec fn window_optimal_at(n: int, route: Seq<usize>, w: Seq<i64>, start: int, size: int) -> bool {
    let len = if route.len() - start < size { route.len() - start } else { size };
    window_best(n, route, w, start, len, window_local(route, w, start, len))
}

/// Every window of `size` cells of `route`, wherever it starts, the first and
/// the last cell included (shorter where the route ends), is in a best order.
pub open spec fn windows_optimal(n: int, route: Seq<usize>, w: Seq<i64>, size: int) -> bool {
    forall|q: int| 0 <= q && q + 2 <= route.len() ==> #[trigger] window_optimal_at(n, route, w, q, size)
}

/// Every window of 2 to `size` consecutive cells of `route`, wherever it
/// starts, is in a best order: no order of its cells that keeps every step
/// a king move, with the cells just before and after it, contributes more
/// to the raw score.
pub open spec fn every_window_optimal(n: int, route: Seq<usize>, w: Seq<i64>, size: int) -> bool {
    forall|q: int, k: int| 0 <= q && 2 <= k <= size && q + k <= route.len()
        ==> #[trigger] window_best(n, route, w, q, k, window_local(route, w, q, k))
}

/// A path over window indices below `k` has the same value in two windows
/// that agree on their first `k` cells and on the steps it uses.
proof fn lemma_path_value_agree(seg_a: Seq<usize>, seg_b: Seq<usize>, w: Seq<i64>, pos_a: Seq<usize>,
    pos_b: Seq<usize>, p: Seq<int>, k: int)
    requires
        forall|j: int| 0 <= j < p.len() ==> 0 <= #[trigger] p[j] < k,
        forall|i: int| 0 <= i < k ==> #[trigger] seg_a[i] == seg_b[i],
        forall|i: int| 0 <= i < p.len() ==> #[trigger] pos_a[i] == pos_b[i],
    ensures
        path_value(seg_a, w, pos_a, p) == path_value(seg_b, w, pos_b, p),
    decreases p.len(),
{
    if p.len() > 0 {
        let d = p.drop_last();
        assert forall|j: int| 0 <= j < d.len() implies 0 <= #[trigger] d[j] < k by {
            assert(d[j] == p[j]);
        }
        lemma_path_value_agree(seg_a, seg_b, w, pos_a, pos_b, d, k);
        assert(0 <= p[p.len() - 1] < k);
        assert(pos_a[p.len() - 1] == pos_b[p.len() - 1]);
    }
}

/// Following a path over the first `k` window cells with the next `j`
/// cells in route order adds their raw contribution.
proof fn lemma_path_extend(seg: Seq<usize>, w: Seq<i64>, pos: Seq<usize>, p: Seq<int>, route: Seq<usize>,
    q: int, k: int, j: int)
    requires
        0 <= q,
        0 <= k,
        0 <= j,
        p.len() == k,
        forall|t: int| 0 <= t < k + j ==> #[trigger] seg[t] == route[q + t] && pos[t] == q + t,
    ensures
        path_value(seg, w, pos, p + Seq::new(j as nat, |t: int| k + t))
            == path_value(seg, w, pos, p) + raw_prefix(route, w, q + k + j) - raw_prefix(route, w, q + k),
    decreases j,
{
    if j == 0 {
        assert(p + Seq::new(0nat, |t: int| k + t) =~= p);
    } else {
        lemma_path_extend(seg, w, pos, p, route, q, k, j - 1);
        let e = p + Seq::new((j - 1) as nat, |t: int| k + t);
        let e2 = p + Seq::new(j as nat, |t: int| k + t);
        assert(e2.drop_last() =~= e);
        assert(e2.last() == k + j - 1);
        assert(seg[k + j - 1] == route[q + k + j - 1] && pos[k + j - 1] == q + k + j - 1);
    }
}

/// The window of `k` cells at `q` is in a best order when the longer window
/// of `len` cells at `q` is: a better order of the shorter one, followed by
/// the rest of the longer one in route order, would be a better order of
/// the longer one.
pub proof fn lemma_shorter_window(n: int, route: Seq<usize>, w: Seq<i64>, q: int, len: int, k: int)
    requires
        is_route(n, route),
        route.len() <= MAX_CELLS,
        0 <= q,
        1 <= k <= len <= MAX_WINDOW,
        q + len <= route.len(),
        window_best(n, route, w, q, len, window_local(route, w, q, len)),
    ensures
        window_best(n, route, w, q, k, window_local(route, w, q, k)),
{
    if k < len {
        let seg_k = Seq::new(MAX_WINDOW as nat, |i: int| if i < k { route[q + i] } else { 0usize });
        let seg_l = Seq::new(MAX_WINDOW as nat, |i: int| if i < len { route[q + i] } else { 0usize });
        let pos_k = Seq::new(MAX_WINDOW as nat, |i: int| if i < k { (q + i) as usize } else { 0usize });
        let pos_l = Seq::new(MAX_WINDOW as nat, |i: int| if i < len { (q + i) as usize } else { 0usize });
        let left = if q > 0 { Some(route[q - 1]) } else { None };
        let right_k = if q + k < route.len() { Some(route[q + k]) } else { None };
        let right_l = if q + len < route.len() { Some(route[q + len]) } else { None };
        assert forall|p: Seq<int>| #[trigger] good_path(n, seg_k, left, k, p) && p.len() == k
            && (right_k matches Some(c) ==> adjacent(n, seg_k[p.last()] as int, c as int))
            implies path_value(seg_k, w, pos_k, p) <= window_local(route, w, q, k) by {
            let p2 = p + Seq::new((len - k) as nat, |t: int| k + t);
            assert(p2.len() == len);
            assert forall|i: int| 0 <= i < p2.len() implies 0 <= #[trigger] p2[i] < len by {
                if i < k {
                    assert(p2[i] == p[i]);
                } else {
                    assert(p2[i] == i);
                }
            }
            assert forall|a: int, b: int| 0 <= a < p2.len() && 0 <= b < p2.len() && a != b
                implies p2[a] != p2[b] by {
                if a < k {
                    assert(p2[a] == p[a]);
                }
                if b < k {
                    assert(p2[b] == p[b]);
                }
                if a < k && b < k {
                    assert(p.no_duplicates());
                }
            }
            assert(p2.no_duplicates());
            assert(p2[0] == p[0]);
            assert forall|i: int| 0 <= i < p2.len() - 1
                implies #[trigger] adjacent(n, seg_l[p2[i]] as int, seg_l[p2[i + 1]] as int) by {
                if i + 1 < k {
                    assert(p2[i] == p[i] && p2[i + 1] == p[i + 1]);
                    assert(adjacent(n, seg_k[p[i]] as int, seg_k[p[i + 1]] as int));
                } else if i + 1 == k {
                    assert(p2[i] == p.last());
                    assert(p2[i + 1] == k);
                } else {
                    assert(p2[i] == i && p2[i + 1] == i + 1);
                    assert(adjacent(n, route[q + i] as int, route[q + i + 1] as int));
                }
            }
            assert(good_path(n, seg_l, left, len, p2));
            assert(p2.last() == len - 1);
            if q + len < route.len() {
                let e = q + len - 1;
                assert(adjacent(n, route[e] as int, route[e + 1] as int));
            }
            assert(right_l matches Some(c) ==> adjacent(n, seg_l[p2.last()] as int, c as int));
            assert(paths_at_most(n, seg_l, left, right_l, len, w, pos_l, window_local(route, w, q, len)));
            assert(path_value(seg_l, w, pos_l, p2) <= window_local(route, w, q, len));
            lemma_path_extend(seg_l, w, pos_l, p, route, q, k, len - k);
            assert forall|j: int| 0 <= j < p.len() implies 0 <= #[trigger] p[j] < k by {}
            lemma_path_value_agree(seg_k, seg_l, w, pos_k, pos_l, p, k);
        }
    }
}

/// When every window of `size` cells (shorter at the end of the route) is in
/// a best order, so is every window of 2 to `size` cells.
pub proof fn lemma_every_window(n: int, route: Seq<usize>, w: Seq<i64>, size: int)
    requires
        is_route(n, route),
        route.len() <= MAX_CELLS,
        2 <= size <= MAX_WINDOW,
        windows_optimal(n, route, w, size),
    ensures
        every_window_optimal(n, route, w, size),
{
    assert forall|q: int, k: int| 0 <= q && 2 <= k <= size && q + k <= route.len()
        implies #[trigger] window_best(n, route, w, q, k, window_local(route, w, q, k)) by {
        assert(window_optimal_at(n, route, w, q, size));
        let len = if route.len() - q < size { route.len() - q } else { size };
        lemma_shorter_window(n, route, w, q, len, k);
    }
}

/// The windows of `size` cells at the starts a sweep has passed, those
/// before `offset` modulo `size` and those at `offset` below `pos`, are in a
/// best order.
spec fn windows_swept(n: int, route: Seq<usize>, w: Seq<i64>, size: int, offset: int, pos: int) -> bool {
    forall|q: int| 0 <= q && q + 2 <= route.len() && (q % size < offset || (q % size == offset && q < pos))
        ==> #[trigger] window_optimal_at(n, route, w, q, size)
}

/// Two starts with the same remainder less than `m` apart are the same.
pub(crate) proof fn lemma_same_residue(q: int, p: int, m: int)
    requires
        0 < m,
        0 <= p <= q < p + m,
        q % m == p % m,
    ensures
        q == p,
{
    vstd::arithmetic::div_mod::lemma_fundamental_div_mod(q, m);
    vstd::arithmetic::div_mod::lemma_fundamental_div_mod(p, m);
    let a = q / m;
    let b = p / m;
    assert(q - p == m * (a - b)) by (nonlinear_arith)
        requires q == m * a + q % m, p == m * b + p % m, q % m == p % m;
    assert(a - b == 0) by (nonlinear_arith) requires 0 <= m * (a - b) < m, m > 0;
}

/// A sweep that finds the window at `pos` in a best order has passed it.
proof fn lemma_sweep_step(n: int, route: Seq<usize>, w: Seq<i64>, size: int, offset: int, pos: int)
    requires
        0 <= offset < size,
        0 <= pos,
        pos % size == offset,
        windows_swept(n, route, w, size, offset, pos),
        pos + 2 <= route.len() ==> window_optimal_at(n, route, w, pos, size),
    ensures
        windows_swept(n, route, w, size, offset, pos + size),
        (pos + size) % size == offset,
{
    vstd::arithmetic::div_mod::lemma_mod_add_multiples_vanish(pos, size);
    assert forall|q: int| 0 <= q && q + 2 <= route.len() && (q % size < offset || (q % size == offset && q < pos + size))
        implies #[trigger] window_optimal_at(n, route, w, q, size) by {
        if q % size == offset && pos <= q {
            lemma_same_residue(q, pos, size);
        }
    }
}

/// No start below `offset` has remainder `offset`: a sweep at `offset` that
/// starts at `offset` has passed nothing yet at that offset.
proof fn lemma_sweep_start(n: int, route: Seq<usize>, w: Seq<i64>, size: int, offset: int)
    requires
        0 <= offset < size,
        windows_swept(n, route, w, size, offset, 0),
    ensures
        windows_swept(n, route, w, size, offset, offset),
{
    assert forall|q: int| 0 <= q && q + 2 <= route.len() && (q % size < offset || (q % size == offset && q < offset))
        implies #[trigger] window_optimal_at(n, route, w, q, size) by {
        if q < offset {
            vstd::arithmetic::div_mod::lemma_small_mod(q as nat, size as nat);
        }
    }
}

/// A sweep past the end of the route at every offset has passed every window.
proof fn lemma_sweep_done(n: int, route: Seq<usize>, w: Seq<i64>, size: int)
    requires
        0 < size,
        windows_swept(n, route, w, size, size, 0),
    ensures
        windows_optimal(n, route, w, size),
{
    assert forall|q: int| 0 <= q && q + 2 <= route.len() implies #[trigger] window_optimal_at(n, route, w, q, size) by {
        vstd::arithmetic::div_mod::lemma_mod_pos_bound(q, size);
    }
}

/// Every window of `size` cells of `route` that holds neither its first nor
/// its last cell is in a best order.
pub open spec fn inner_windows_optimal(n: int, route: Seq<usize>, w: Seq<i64>, size: int) -> bool {
    forall|q: int| 1 <= q && q + size < route.len() ==> #[trigger] window_optimal_at(n, route, w, q, size)
}

/// The inner windows of `size` cells a sweep has passed: those whose start
/// less one is before `offset` modulo `size`, and those at `offset` below
/// `pos`.
spec fn inner_windows_swept(n: int, route: Seq<usize>, w: Seq<i64>, size: int, offset: int, pos: int) -> bool {
    forall|q: int| 1 <= q && q + size < route.len() && ((q - 1) % size < offset || ((q - 1) % size == offset && q < pos))
        ==> #[trigger] window_optimal_at(n, route, w, q, size)
}

/// An inner sweep at `offset` that starts at `offset + 1` has passed
/// nothing yet at that offset.
proof fn lemma_inner_sweep_start(n: int, route: Seq<usize>, w: Seq<i64>, size: int, offset: int)
    requires
        0 <= offset < size,
        inner_windows_swept(n, route, w, size, offset, 0),
    ensures
        inner_windows_swept(n, route, w, size, offset, offset + 1),
{
    assert forall|q: int| 1 <= q && q + size < route.len() && ((q - 1) % size < offset || ((q - 1) % size == offset
        && q < offset + 1)) implies #[trigger] window_optimal_at(n, route, w, q, size) by {
        if q < offset + 1 {
            vstd::arithmetic::div_mod::lemma_small_mod((q - 1) as nat, size as nat);
        }
    }
}

/// An inner sweep that finds the window at `pos` in a best order has passed it.
proof fn lemma_inner_sweep_step(n: int, route: Seq<usize>, w: Seq<i64>, size: int, offset: int, pos: int)
    requires
        0 <= offset < size,
        1 <= pos,
        (pos - 1) % size == offset,
        inner_windows_swept(n, route, w, size, offset, pos),
        pos + size < route.len() ==> window_optimal_at(n, route, w, pos, size),
    ensures
        inner_windows_swept(n, route, w, size, offset, pos + size),
        (pos + size - 1) % size == offset,
{
    vstd::arithmetic::div_mod::lemma_mod_add_multiples_vanish(pos - 1, size);
    assert forall|q: int| 1 <= q && q + size < route.len() && ((q - 1) % size < offset || ((q - 1) % size == offset
        && q < pos + size)) implies #[trigger] window_optimal_at(n, route, w, q, size) by {
        if (q - 1) % size == offset && pos <= q {
            lemma_same_residue(q - 1, pos - 1, size);
        }
    }
}

/// An inner sweep at `offset` that reached a start whose window would hold
/// the last cell has passed every inner window at that offset.
proof fn lemma_inner_sweep_offset(n: int, route: Seq<usize>, w: Seq<i64>, size: int, offset: int, pos: int)
    requires
        0 <= offset < size,
        inner_windows_swept(n, route, w, size, offset, pos),
        pos + size >= route.len(),
    ensures
        inner_windows_swept(n, route, w, size, offset + 1, 0),
{
}

/// An inner sweep at every offset has passed every inner window.
proof fn lemma_inner_sweep_done(n: int, route: Seq<usize>, w: Seq<i64>, size: int)
    requires
        0 < size,
        inner_windows_swept(n, route, w, size, size, 0),
    ensures
        inner_windows_optimal(n, route, w, size),
{
    assert forall|q: int| 1 <= q && q + size < route.len() implies #[trigger] window_optimal_at(n, route, w, q, size) by {
        vstd::arithmetic::div_mod::lemma_mod_pos_bound(q - 1, size);
    }
}

/// Window sweeps: windows of 9 then 8 cells at every offset, each reordered
/// optimally, repeated until a sweep round improves nothing (after at least
/// `min_cycles` rounds) or the deadline passes. With `inner`, the windows
/// keep clear of the first and the last cell of the route. `None` when a
/// round improved nothing: every window of 9 and of 8 cells of the result
/// (with `inner`, every one that holds neither end) is then in a best
/// order. Otherwise the evidence that `deadline` had passed since `start`.
fn sweep_windows(
    route: &mut Vec<usize>,
    weights: &[i64],
    n: usize,
    total_score: &mut i64,
    start: &Instant,
    deadline: Duration,
    min_cycles: usize,
    inner: bool,
) -> (stop: Option<TimeUp>)
    requires
        search_input(n as int, old(route)@, weights@),
        *old(total_score) == raw_score(old(route)@, weights@),
    ensures
        search_input(n as int, final(route)@, weights@),
        *final(total_score) == raw_score(final(route)@, weights@),
        raw_score(final(route)@, weights@) >= raw_score(old(route)@, weights@),
        inner ==> final(route)@[0] == old(route)@[0] && final(route)@.last() == old(route)@.last(),
        !inner && stop is None ==> windows_optimal(n as int, final(route)@, weights@, 9)
            && windows_optimal(n as int, final(route)@, weights@, 8),
        inner && stop is None ==> inner_windows_optimal(n as int, final(route)@, weights@, 9)
            && inner_windows_optimal(n as int, final(route)@, weights@, 8),
        stop matches Some(t) ==> t.started() == *start && t.limit() == deadline,
{
    let window_sizes: [usize; 2] = [9usize, 8usize];
    let ghost w = weights@;
    let ghost nn = n as int;
    let ghost bound = MAX_CELLS * (MAX_CELLS * MAX_WEIGHT);
    let mut cycle: usize = 0;
    proof {
        lemma_raw_score_bound(route@, w);
    }
    loop
        invariant
            search_input(n as int, route@, w),
            w == weights@,
            nn == n,
            *total_score == raw_score(route@, w),
            raw_score(route@, w) >= raw_score(old(route)@, w),
            bound == MAX_CELLS * (MAX_CELLS * MAX_WEIGHT),
            -bound <= raw_score(route@, w) <= bound,
            window_sizes[0] == 9,
            window_sizes[1] == 8,
            cycle <= min_cycles,
            inner ==> route@[0] == old(route)@[0] && route@.last() == old(route)@.last(),
        decreases bound - raw_score(route@, w), min_cycles - cycle,
    {
        if let Some(t) = check_deadline(start, &deadline) {
            return Some(t);
        }
        let ghost round_start = raw_score(route@, w);
        let ghost round_route = route@;
        let mut improved = false;
        let mut wi: usize = 0;
        while wi < 2
            invariant
                search_input(n as int, route@, w),
                w == weights@,
                nn == n,
                *total_score == raw_score(route@, w),
                raw_score(route@, w) >= raw_score(old(route)@, w),
                improved ==> raw_score(route@, w) > round_start,
                !improved ==> route@ == round_route,
                round_start == raw_score(round_route, w),
                route@.len() == round_route.len(),
                !inner && !improved && wi >= 1 ==> windows_optimal(nn, round_route, w, 9),
                !inner && !improved && wi >= 2 ==> windows_optimal(nn, round_route, w, 8),
                inner && !improved && wi >= 1 ==> inner_windows_optimal(nn, round_route, w, 9),
                inner && !improved && wi >= 2 ==> inner_windows_optimal(nn, round_route, w, 8),
                bound == MAX_CELLS * (MAX_CELLS * MAX_WEIGHT),
                -bound <= raw_score(route@, w) <= bound,
                window_sizes[0] == 9,
                window_sizes[1] == 8,
                wi <= 2,
                inner ==> route@[0] == old(route)@[0] && route@.last() == old(route)@.last(),
            decreases 2 - wi,
        {
            let window = window_sizes[wi];
            let mut offset: usize = 0;
            while offset < window
                invariant
                    search_input(n as int, route@, w),
                    w == weights@,
                    nn == n,
                    *total_score == raw_score(route@, w),
                    raw_score(route@, w) >= raw_score(old(route)@, w),
                    improved ==> raw_score(route@, w) > round_start,
                    !improved ==> route@ == round_route,
                    round_start == raw_score(round_route, w),
                    route@.len() == round_route.len(),
                    !inner && !improved && wi >= 1 ==> windows_optimal(nn, round_route, w, 9),
                    !inner && !improved ==> windows_swept(nn, round_route, w, window as int, offset as int, 0),
                    inner && !improved && wi >= 1 ==> inner_windows_optimal(nn, round_route, w, 9),
                    inner && !improved ==> inner_windows_swept(nn, round_route, w, window as int, offset as int, 0),
                    bound == MAX_CELLS * (MAX_CELLS * MAX_WEIGHT),
                    -bound <= raw_score(route@, w) <= bound,
                    window_sizes[0] == 9,
                    window_sizes[1] == 8,
                    wi < 2,
                    window == window_sizes[wi as int],
                    offset <= window,
                    inner ==> route@[0] == old(route)@[0] && route@.last() == old(route)@.last(),
                decreases window - offset,
            {
                if let Some(t) = check_deadline(start, &deadline) {
                    return Some(t);
                }
                let mut pos: usize = if inner { 1 + offset } else { offset };
                proof {
                    vstd::arithmetic::div_mod::lemma_small_mod(offset as nat, window as nat);
                    if !inner && !improved {
                        lemma_sweep_start(nn, round_route, w, window as int, offset as int);
                    }
                    if inner && !improved {
                        lemma_inner_sweep_start(nn, round_route, w, window as int, offset as int);
                    }
                }
                while pos < route.len()
                    invariant
                        search_input(n as int, route@, w),
                        w == weights@,
                        nn == n,
                        *total_score == raw_score(route@, w),
                        raw_score(route@, w) >= raw_score(old(route)@, w),
                        improved ==> raw_score(route@, w) > round_start,
                        !improved ==> route@ == round_route,
                        round_start == raw_score(round_route, w),
                        route@.len() == round_route.len(),
                        !inner && !improved && wi >= 1 ==> windows_optimal(nn, round_route, w, 9),
                        !inner && !improved ==> windows_swept(nn, round_route, w, window as int, offset as int, pos as int),
                        !inner ==> pos % window == offset,
                        inner && !improved && wi >= 1 ==> inner_windows_optimal(nn, round_route, w, 9),
                        inner && !improved ==> inner_windows_swept(nn, round_route, w, window as int, offset as int, pos as int),
                        inner ==> (pos - 1) % (window as int) == offset,
                        bound == MAX_CELLS * (MAX_CELLS * MAX_WEIGHT),
                        -bound <= raw_score(route@, w) <= bound,
                        window_sizes[0] == 9,
                        window_sizes[1] == 8,
                        wi < 2,
                        window == window_sizes[wi as int],
                        offset < window,
                        pos <= MAX_CELLS + 10,
                        inner ==> pos >= 1,
                        inner ==> route@[0] == old(route)@[0] && route@.last() == old(route)@.last(),
                    ensures
                        !inner ==> pos >= route@.len(),
                        inner ==> pos + window >= route@.len(),
                    decreases route@.len() + 10 - pos,
                {
                    let rest = route.len() - pos;
                    if inner {
                        if window >= rest {
                            break;
                        }
                        let ghost before = route@;
                        if optimize_window(route, weights, n, pos, window, total_score) {
                            improved = true;
                        }
                        proof {
                            if !improved {
                                assert(route@ == before);
                                lemma_inner_sweep_step(nn, round_route, w, window as int, offset as int, pos as int);
                            }
                            vstd::arithmetic::div_mod::lemma_mod_add_multiples_vanish(pos - 1, window as int);
                        }
                    } else {
                        let len = if rest < window { rest } else { window };
                        let ghost before = route@;
                        let changed = len >= 2 && optimize_window(route, weights, n, pos, len, total_score);
                        if changed {
                            improved = true;
                        }
                        proof {
                            if !improved {
                                assert(route@ == before);
                                lemma_sweep_step(nn, round_route, w, window as int, offset as int, pos as int);
                            }
                        }
                    }
                    proof {
                        lemma_raw_score_bound(route@, w);
                        vstd::arithmetic::div_mod::lemma_mod_add_multiples_vanish(pos as int, window as int);
                    }
                    pos += window;
                }
                proof {
                    if inner && !improved {
                        lemma_inner_sweep_offset(nn, round_route, w, window as int, offset as int, pos as int);
                    }
                }
                offset += 1;
            }
            proof {
                if !inner && !improved {
                    lemma_sweep_done(nn, round_route, w, window as int);
                }
                if inner && !improved {
                    lemma_inner_sweep_done(nn, round_route, w, window as int);
                }
            }
            wi += 1;
        }
        if cycle < min_cycles {
            cycle += 1;
        }
        if !improved && cycle >= min_cycles {
            return None;
        }
    }
}

/// Sweeps windows of 9 and 8 cells over the whole route until a round
/// improves nothing (after at least `min_cycles` rounds) or the deadline
/// passes; every window is reordered optimally. `None` when it stopped
/// because a round improved nothing: then every window of 2 to 9
/// consecutive cells of the result, those holding its first or last cell
/// included, is in a best order. Otherwise the evidence that `deadline` had passed since
/// `start`.
pub fn run_window_descent(
    route: &mut Vec<usize>,
    weights: &[i64],
    n: usize,
    total_score: &mut i64,
    start: &Instant,
    deadline: Duration,
    min_cycles: usize,
) -> (stop: Option<TimeUp>)
    requires
        search_input(n as int, old(route)@, weights@),
        *old(total_score) == raw_score(old(route)@, weights@),
    ensures
        search_input(n as int, final(route)@, weights@),
        *final(total_score) == raw_score(final(route)@, weights@),
        raw_score(final(route)@, weights@) >= raw_score(old(route)@, weights@),
        stop is None ==> windows_optimal(n as int, final(route)@, weights@, 9)
            && windows_optimal(n as int, final(route)@, weights@, 8)
            && every_window_optimal(n as int, final(route)@, weights@, 9),
        stop matches Some(t) ==> t.started() == *start && t.limit() == deadline,
{
    let stop = sweep_windows(route, weights, n, total_score, start, deadline, min_cycles, false);
    proof {
        if stop is None {
            lemma_every_window(n as int, route@, weights@, 9);
        }
    }
    stop
}

/// As `run_window_descent`, with windows that keep clear of the first and
/// the last cell, so the ends of the route stay where they are. `None` when
/// a round improved nothing: then every window of 9 and of 8 cells that
/// holds neither end is in a best order. Otherwise the evidence that
/// `deadline` had passed since `start`.
pub fn run_inner_window_descent(
    route: &mut Vec<usize>,
    weights: &[i64],
    n: usize,
    total_score: &mut i64,
    start: &Instant,
    deadline: Duration,
    min_cycles: usize,
) -> (stop: Option<TimeUp>)
    requires
        search_input(n as int, old(route)@, weights@),
        *old(total_score) == raw_score(old(route)@, weights@),
    ensures
        search_input(n as int, final(route)@, weights@),
        *final(total_score) == raw_score(final(route)@, weights@),
        raw_score(final(route)@, weights@) >= raw_score(old(route)@, weights@),
        final(route)@[0] == old(route)@[0],
        final(route)@.last() == old(route)@.last(),
        stop is None ==> inner_windows_optimal(n as int, final(route)@, weights@, 9)
            && inner_windows_optimal(n as int, final(route)@, weights@, 8),
        stop matches Some(t) ==> t.started() == *start && t.limit() == deadline,
{
    sweep_windows(route, weights, n, total_score, start, deadline, min_cycles, true)
}

/// Re-optimizes the windows of 9 and 8 cells that start within two cells
/// of each anchor (from `window + 2` before it to 2 after it). With `inner`,
/// the windows keep clear of the first and the last cell.
fn refine_windows(
    route: &mut Vec<usize>,
    weights: &[i64],
    n: usize,
    total_score: &mut i64,
    anchors: &[usize],
    inner: bool,
)
    requires
        search_input(n as int, old(route)@, weights@),
        *old(total_score) == raw_score(old(route)@, weights@),
    ensures
        search_input(n as int, final(route)@, weights@),
        *final(total_score) == raw_score(final(route)@, weights@),
        raw_score(final(route)@, weights@) >= raw_score(old(route)@, weights@),
        inner ==> final(route)@[0] == old(route)@[0] && final(route)@.last() == old(route)@.last(),
{
    let ghost w = weights@;
    let len = route.len();
    let window_sizes: [usize; 2] = [9usize, 8usize];
    let mut ai: usize = 0;
    while ai < anchors.len()
        invariant
            search_input(n as int, route@, w),
            w == weights@,
            len == route@.len(),
            *total_score == raw_score(route@, w),
            raw_score(route@, w) >= raw_score(old(route)@, w),
            window_sizes[0] == 9,
            window_sizes[1] == 8,
            inner ==> route@[0] == old(route)@[0] && route@.last() == old(route)@.last(),
        decreases anchors@.len() - ai,
    {
        let anchor = anchors[ai];
        let mut wi: usize = 0;
        while wi < 2
            invariant
                search_input(n as int, route@, w),
                w == weights@,
                len == route@.len(),
                *total_score == raw_score(route@, w),
                raw_score(route@, w) >= raw_score(old(route)@, w),
                window_sizes[0] == 9,
                window_sizes[1] == 8,
                wi <= 2,
                inner ==> route@[0] == old(route)@[0] && route@.last() == old(route)@.last(),
            decreases 2 - wi,
        {
            let window = window_sizes[wi];
            let skip = if inner { len <= window + 2 } else { len < window };
            if !skip {
                let below = if anchor >= window + 2 { anchor - (window + 2) } else { 0 };
                let above = if anchor <= usize::MAX - 2 { anchor + 2 } else { usize::MAX };
                let start_lo = if inner && below < 1 { 1 } else { below };
                let limit = if inner { len - window - 1 } else { len - window };
                let start_hi = if above < limit { above } else { limit };
                let mut s = start_lo;
                while s <= start_hi
                    invariant
                        search_input(n as int, route@, w),
                        w == weights@,
                        len == route@.len(),
                        *total_score == raw_score(route@, w),
                        raw_score(route@, w) >= raw_score(old(route)@, w),
                        window == 9 || window == 8,
                        start_hi + window <= len,
                        inner ==> start_lo >= 1 && start_hi + window < len,
                        start_lo <= s,
                        inner ==> route@[0] == old(route)@[0] && route@.last() == old(route)@.last(),
                    decreases start_hi + 1 - s,
                {
                    proof {
                        lemma_raw_score_bound(route@, w);
                    }
                    optimize_window(route, weights, n, s, window, total_score);
                    s += 1;
                }
            }
            wi += 1;
        }
        ai += 1;
    }
}

/// Re-optimizes the windows of 9 and 8 cells around each anchor.
pub fn refine_around(
    route: &mut Vec<usize>,
    weights: &[i64],
    n: usize,
    total_score: &mut i64,
    anchors: &[usize],
)
    requires
        search_input(n as int, old(route)@, weights@),
        *old(total_score) == raw_score(old(route)@, weights@),
    ensures
        search_input(n as int, final(route)@, weights@),
        *final(total_score) == raw_score(final(route)@, weights@),
        raw_score(final(route)@, weights@) >= raw_score(old(route)@, weights@),
{
    refine_windows(route, weights, n, total_score, anchors, false);
}

/// As `refine_around`, keeping clear of the first and the last cell.
pub fn refine_inner_around(
    route: &mut Vec<usize>,
    weights: &[i64],
    n: usize,
    total_score: &mut i64,
    anchors: &[usize],
)
    requires
        search_input(n as int, old(route)@, weights@),
        *old(total_score) == raw_score(old(route)@, weights@),
    ensures
        search_input(n as int, final(route)@, weights@),
        *final(total_score) == raw_score(final(route)@, weights@),
        raw_score(final(route)@, weights@) >= raw_score(old(route)@, weights@),
        final(route)@[0] == old(route)@[0],
        final(route)@.last() == old(route)@.last(),
{
    refine_windows(route, weights, n, total_score, anchors, true);
}

/// Repeatedly applies the best gaining 2-opt reversal and then re-optimizes
/// the windows around both ends of the reversed segment, until no reversal
/// gains or the deadline passes. `None` when it stopped because no reversal
/// gains: then no valid reversal of the result raises its score. Otherwise
/// the evidence that `deadline` had passed since `start`.
pub fn run_two_opt_refine_descent(
    route: &mut Vec<usize>,
    weights: &[i64],
    neighbors: &Vec<Vec<usize>>,
    n: usize,
    total_score: &mut i64,
    start: &Instant,
    deadline: Duration,
) -> (stop: Option<TimeUp>)
    requires
        search_input(n as int, old(route)@, weights@),
        neighbors@.len() == n * n,
        forall|c: int| 0 <= c < n * n ==> lists_neighbors(n as int, c, #[trigger] neighbors@[c]@),
        *old(total_score) == raw_score(old(route)@, weights@),
    ensures
        search_input(n as int, final(route)@, weights@),
        *final(total_score) == raw_score(final(route)@, weights@),
        raw_score(final(route)@, weights@) >= raw_score(old(route)@, weights@),
        stop is None ==> two_opt_optimal(n as int, final(route)@, weights@),
        stop matches Some(t) ==> t.started() == *start && t.limit() == deadline,
{
    let len = route.len();
    let mut position: Vec<usize> = vec![0usize; len];
    let mut prefix_weight: Vec<i64> = vec![0i64; len + 1];
    let mut prefix_pos_weight: Vec<i64> = vec![0i64; len + 1];
    let ghost w = weights@;
    let ghost bound = MAX_CELLS * (MAX_CELLS * MAX_WEIGHT);
    proof {
        lemma_raw_score_bound(route@, w);
    }
    loop
        invariant
            search_input(n as int, route@, w),
            w == weights@,
            len == route@.len(),
            len == n * n,
            neighbors@.len() == n * n,
            forall|c: int| 0 <= c < n * n ==> lists_neighbors(n as int, c, #[trigger] neighbors@[c]@),
            *total_score == raw_score(route@, w),
            raw_score(route@, w) >= raw_score(old(route)@, w),
            position@.len() == len,
            prefix_weight@.len() == len + 1,
            prefix_pos_weight@.len() == len + 1,
            bound == MAX_CELLS * (MAX_CELLS * MAX_WEIGHT),
            -bound <= raw_score(route@, w) <= bound,
        decreases bound - raw_score(route@, w),
    {
        if let Some(t) = check_deadline(start, &deadline) {
            return Some(t);
        }
        proof {
            assert(len >= 1) by (nonlinear_arith) requires len == n * n, n > 0;
        }
        rebuild_aux(route.as_slice(), weights, &mut position, &mut prefix_weight, &mut prefix_pos_weight);
        proof {
            lemma_aux_bounded(route@, w, position@, prefix_weight@, prefix_pos_weight@);
            assert(aux_of(route@, w, position@, prefix_weight@, prefix_pos_weight@));
        }
        let found = best_two_opt_move(route.as_slice(), position.as_slice(), neighbors, prefix_weight.as_slice(),
            prefix_pos_weight.as_slice(), n);
        let mv = match found {
            Some(mv) => mv,
            None => {
                proof {
                    lemma_two_opt_optimal(n as int, route@, w);
                }
                return None;
            },
        };
        if mv.delta <= 0 {
            proof {
                lemma_two_opt_optimal(n as int, route@, w);
            }
            return None;
        }
        let ghost before = route@;
        reverse_range(route, mv.l, mv.r);
        proof {
            lemma_reversal_score(before, w, mv.l as int, mv.r as int);
            lemma_reversal_keeps_route(n as int, before, mv.l as int, mv.r as int);
            lemma_raw_score_bound(route@, w);
        }
        *total_score = *total_score + mv.delta;
        let anchors = [mv.l, mv.r];
        refine_around(route, weights, n, total_score, &anchors);
        proof {
            lemma_raw_score_bound(route@, w);
        }
    }
}

} // verus!
