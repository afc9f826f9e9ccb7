//! Reordering a short window of a route by dynamic programming over subsets
//! of its cells, every order allowed, each break and each long jump in rank
//! penalized.
use vstd::prelude::*;
use crate::grid::{cells_in, weights_bounded, MAX_CELLS, MAX_WEIGHT};
use crate::window::{NEG_INF, MAX_WINDOW, ubit, ones_usize, slot, link_ok, window_input, lemma_slot, lemma_states,
    lemma_bit_set, lemma_bit_order, lemma_bit_range, lemma_ones_upper, lemma_ones_set, lemma_ones_single, lemma_ones_full,
    lemma_ones_bound, lemma_full_mask, lemma_ones_all, mask_of, distinct_below, lemma_mask_of, lemma_mask_eq,
    lemma_zero_bits};
use crate::penalty::{vio, violation_cost};
use crate::penalty_window::{window_parts, ident, ident_raw, lemma_full_path};

verus! {

/// Largest rank difference between consecutive cells that is not penalized.
pub const RANK_JUMP_THRESHOLD: usize = 28;

/// The prices of the penalized objective: `lambda` per break, `xi` per
/// step between cells whose ranks differ by more than the threshold.
pub struct RankCost {
    pub lambda: int,
    pub xi: int,
    pub rank: Seq<usize>,
}

/// The prices `lambda` and `xi` with the rank of each cell.
pub open spec fn rank_cost(lambda: int, xi: int, rank: Seq<usize>) -> RankCost {
    RankCost { lambda, xi, rank }
}

/// 1 when the step from `u` to `v` jumps by more than the threshold in rank.
pub open spec fn jump(rank: Seq<usize>, u: int, v: int) -> int {
    let a = rank[u] as int;
    let b = rank[v] as int;
    if a - b > RANK_JUMP_THRESHOLD || b - a > RANK_JUMP_THRESHOLD { 1 } else { 0 }
}

/// The price of stepping from `u` to `v`.
pub open spec fn rcost(c: RankCost, n: int, u: int, v: int) -> int {
    c.lambda * vio(n, u, v) + c.xi * jump(c.rank, u, v)
}

/// A step's price is within 2 * 10^12 for prices within 10^12.
pub proof fn lemma_rcost_bound(c: RankCost, n: int, u: int, v: int)
    requires
        0 <= c.lambda <= 1_000_000_000_000,
        0 <= c.xi <= 1_000_000_000_000,
    ensures
        0 <= rcost(c, n, u, v) <= 2_000_000_000_000,
{
    let a = vio(n, u, v);
    let b = jump(c.rank, u, v);
    assert(0 <= a <= 1 && 0 <= b <= 1);
    assert(0 <= c.lambda * a <= 1_000_000_000_000) by (nonlinear_arith)
        requires 0 <= a <= 1, 0 <= c.lambda <= 1_000_000_000_000;
    assert(0 <= c.xi * b <= 1_000_000_000_000) by (nonlinear_arith)
        requires 0 <= b <= 1, 0 <= c.xi <= 1_000_000_000_000;
}

/// `rcost` of the step from `u` to `v`, for `lambda` and `xi` up to 10^12.
pub fn rank_step_cost(u: usize, v: usize, n: usize, rank: &[usize], lambda: i64, xi: i64) -> (c: i64)
    requires
        n > 0,
        u < rank@.len(),
        v < rank@.len(),
        0 <= lambda <= 1_000_000_000_000,
        0 <= xi <= 1_000_000_000_000,
    ensures
        c == rcost(rank_cost(lambda as int, xi as int, rank@), n as int, u as int, v as int),
        0 <= c <= 2_000_000_000_000,
{
    proof {
        lemma_rcost_bound(rank_cost(lambda as int, xi as int, rank@), n as int, u as int, v as int);
    }
    let a = violation_cost(u, v, n);
    let ru = rank[u];
    let rv = rank[v];
    let b: i64 = if (ru > rv && ru - rv > RANK_JUMP_THRESHOLD) || (rv > ru && rv - ru > RANK_JUMP_THRESHOLD) { 1 } else { 0 };
    proof {
        assert(0 <= lambda * a <= 1_000_000_000_000) by (nonlinear_arith)
            requires 0 <= a <= 1, 0 <= lambda <= 1_000_000_000_000;
        assert(0 <= xi * b <= 1_000_000_000_000) by (nonlinear_arith)
            requires 0 <= b <= 1, 0 <= xi <= 1_000_000_000_000;
    }
    lambda * a + xi * b
}

/// `path` lists distinct window indices below `len`.
pub open spec fn rk_path(len: int, path: Seq<int>) -> bool {
    &&& path.len() >= 1
    &&& forall|k: int| 0 <= k < path.len() ==> 0 <= #[trigger] path[k] < len
    &&& path.no_duplicates()
}

/// The price of the step into `path[k]`: from the cell before the
/// window for the first, from the previous path cell otherwise.
pub open spec fn step_cost(lambda: RankCost, n: int, seg: Seq<usize>, left: Option<usize>, path: Seq<int>, k: int) -> int {
    if k == 0 {
        match left {
            Some(c) => rcost(lambda, n, c as int, seg[path[0]] as int),
            None => 0,
        }
    } else {
        rcost(lambda, n, seg[path[k - 1]] as int, seg[path[k]] as int)
    }
}

/// Score of visiting `seg[path[0]], seg[path[1]], ...` at steps `pos[0],
/// pos[1], ...`, minus the price of each step (including the step in from
/// `left`).
pub open spec fn rk_value(n: int, seg: Seq<usize>, left: Option<usize>, w: Seq<i64>, pos: Seq<usize>, lambda: RankCost,
    path: Seq<int>) -> int
    decreases path.len(),
{
    if path.len() == 0 {
        0
    } else {
        let k = path.len() - 1;
        rk_value(n, seg, left, w, pos, lambda, path.drop_last()) + pos[k] * w[seg[path[k]] as int]
            - step_cost(lambda, n, seg, left, path, k)
    }
}

/// A reachable entry for subset `mask` ending at `last` is realised by
/// `path` (visiting exactly the members of `mask`) with value `value`.
pub open spec fn rk_slot_ok(n: int, seg: Seq<usize>, left: Option<usize>, len: int, w: Seq<i64>, pos: Seq<usize>,
    lambda: RankCost, mask: usize, last: int, path: Seq<int>, value: int) -> bool {
    &&& rk_path(len, path)
    &&& path.last() == last
    &&& path.len() == ones_usize(mask, len)
    &&& forall|i: int| 0 <= i < len ==> (ubit(mask, i) <==> path.contains(i))
    &&& value == rk_value(n, seg, left, w, pos, lambda, path)
}

/// Entry `(m, l)` is unreachable or realised by its recorded path.
pub open spec fn rk_entry_ok(n: int, seg: Seq<usize>, left: Option<usize>, len: int, w: Seq<i64>, pos: Seq<usize>,
    lambda: RankCost, dp: Seq<i64>, paths: Seq<Seq<int>>, m: int, l: int) -> bool {
    let s = slot(m, l, len);
    dp[s] == NEG_INF || rk_slot_ok(n, seg, left, len, w, pos, lambda, m as usize, l, paths[s], dp[s] as int)
}

/// Entry `(m, l)` is realised and linked to its predecessor below `cur`.
pub open spec fn rk_cell_ok(n: int, seg: Seq<usize>, left: Option<usize>, len: int, w: Seq<i64>, pos: Seq<usize>,
    lambda: RankCost, dp: Seq<i64>, parent: Seq<u8>, paths: Seq<Seq<int>>, m: int, l: int, cur: int) -> bool {
    rk_entry_ok(n, seg, left, len, w, pos, lambda, dp, paths, m, l) && link_ok(len, dp, parent, paths, m, l, cur)
}

/// The tables: every entry unreachable or realised, every reachable entry
/// of two or more cells linked to its predecessor entry below `cur`.
pub open spec fn rk_table_ok(n: int, seg: Seq<usize>, left: Option<usize>, len: int, w: Seq<i64>, pos: Seq<usize>,
    lambda: RankCost, states: int, dp: Seq<i64>, parent: Seq<u8>, paths: Seq<Seq<int>>, cur: int) -> bool {
    &&& dp.len() == states * len
    &&& parent.len() == states * len
    &&& paths.len() == states * len
    &&& forall|m: int, l: int| 0 <= m < states && 0 <= l < len ==>
        #[trigger] rk_cell_ok(n, seg, left, len, w, pos, lambda, dp, parent, paths, m, l, cur)
}

/// `dp` holds at least the penalized value of `path` in the entry of its
/// cells and last cell.
pub open spec fn rk_dominates(n: int, seg: Seq<usize>, left: Option<usize>, len: int, w: Seq<i64>, pos: Seq<usize>,
    lambda: RankCost, dp: Seq<i64>, path: Seq<int>) -> bool {
    dp[slot(mask_of(path) as int, path.last(), len)] >= rk_value(n, seg, left, w, pos, lambda, path)
}

/// A path of one cell, or one whose cells before the last form a subset
/// below `cur`.
pub open spec fn rk_reached(len: int, path: Seq<int>, cur: int) -> bool {
    rk_path(len, path) && (path.len() == 1 || mask_of(path.drop_last()) < cur)
}

/// Every path reached below `cur` is dominated by the table.
pub open spec fn rk_complete(n: int, seg: Seq<usize>, left: Option<usize>, len: int, w: Seq<i64>, pos: Seq<usize>,
    lambda: RankCost, dp: Seq<i64>, cur: int) -> bool {
    forall|p: Seq<int>| #[trigger] rk_reached(len, p, cur) ==> rk_dominates(n, seg, left, len, w, pos, lambda, dp, p)
}

/// A path whose cells before the last form subset `cur` and whose second
/// last cell is below `k`.
pub open spec fn rk_step_path(len: int, path: Seq<int>, cur: int, k: int) -> bool {
    rk_path(len, path) && path.len() >= 2 && mask_of(path.drop_last()) == cur && path[path.len() - 2] < k
}

/// Every such path is dominated by the table.
pub open spec fn rk_partial(n: int, seg: Seq<usize>, left: Option<usize>, len: int, w: Seq<i64>, pos: Seq<usize>,
    lambda: RankCost, dp: Seq<i64>, cur: int, k: int) -> bool {
    forall|p: Seq<int>| #[trigger] rk_step_path(len, p, cur, k) ==> rk_dominates(n, seg, left, len, w, pos, lambda, dp, p)
}

proof fn lemma_rk_path_facts(len: int, path: Seq<int>, states: int)
    requires
        1 <= len <= 12,
        states == (1usize << (len as usize)),
        rk_path(len, path),
    ensures
        distinct_below(len, path),
        mask_of(path) < states,
        path.len() <= len,
        0 <= slot(mask_of(path) as int, path.last(), len) < states * len,
{
    lemma_mask_of(len, path);
    lemma_ones_bound(mask_of(path), len);
    lemma_slot(mask_of(path) as int, path.last(), len, states);
}

proof fn lemma_rk_complete_mono(n: int, seg: Seq<usize>, left: Option<usize>, len: int, w: Seq<i64>, pos: Seq<usize>,
    lambda: RankCost, states: int, dp0: Seq<i64>, dp1: Seq<i64>, cur: int, k: int)
    requires
        1 <= len <= 12,
        states == (1usize << (len as usize)),
        dp0.len() == states * len,
        dp1.len() == dp0.len(),
        forall|i: int| 0 <= i < dp0.len() ==> #[trigger] dp1[i] >= dp0[i],
        rk_complete(n, seg, left, len, w, pos, lambda, dp0, cur),
        rk_partial(n, seg, left, len, w, pos, lambda, dp0, cur, k),
    ensures
        rk_complete(n, seg, left, len, w, pos, lambda, dp1, cur),
        rk_partial(n, seg, left, len, w, pos, lambda, dp1, cur, k),
{
    assert forall|p: Seq<int>| #[trigger] rk_reached(len, p, cur) implies rk_dominates(n, seg, left, len, w, pos, lambda, dp1, p) by {
        lemma_rk_path_facts(len, p, states);
        assert(rk_dominates(n, seg, left, len, w, pos, lambda, dp0, p));
    }
    assert forall|p: Seq<int>| #[trigger] rk_step_path(len, p, cur, k) implies rk_dominates(n, seg, left, len, w, pos, lambda, dp1, p) by {
        lemma_rk_path_facts(len, p, states);
        assert(rk_dominates(n, seg, left, len, w, pos, lambda, dp0, p));
    }
}

/// Relaxing entry `(cur, last)` dominates the paths through it.
proof fn lemma_rk_relax_step(n: int, seg: Seq<usize>, left: Option<usize>, len: int, w: Seq<i64>, pos: Seq<usize>,
    lambda: RankCost, states: int, dp0: Seq<i64>, dp1: Seq<i64>, cur: usize, last: int)
    requires
        rk_input(n, seg, len, w, pos, lambda),
        states == (1usize << (len as usize)),
        1 <= cur < states,
        0 <= last < len,
        dp0.len() == states * len,
        dp1.len() == dp0.len(),
        forall|i: int| 0 <= i < dp0.len() ==> #[trigger] dp1[i] >= dp0[i],
        rk_complete(n, seg, left, len, w, pos, lambda, dp0, cur as int),
        rk_partial(n, seg, left, len, w, pos, lambda, dp0, cur as int, last),
        dp0[slot(cur as int, last, len)] != NEG_INF && ubit(cur, last) ==>
            forall|x: int| 0 <= x < len && !ubit(cur, x) ==>
                #[trigger] dp1[slot((cur | (1usize << (x as usize))) as int, x, len)]
                    >= dp0[slot(cur as int, last, len)] + pos[ones_usize(cur, len) as int] * w[seg[x] as int]
                        - rcost(lambda, n, seg[last] as int, seg[x] as int),
    ensures
        rk_complete(n, seg, left, len, w, pos, lambda, dp1, cur as int),
        rk_partial(n, seg, left, len, w, pos, lambda, dp1, cur as int, last + 1),
{
    lemma_rk_complete_mono(n, seg, left, len, w, pos, lambda, states, dp0, dp1, cur as int, last);
    assert forall|p: Seq<int>| #[trigger] rk_step_path(len, p, cur as int, last + 1)
        implies rk_dominates(n, seg, left, len, w, pos, lambda, dp1, p) by {
        if p[p.len() - 2] < last {
            assert(rk_step_path(len, p, cur as int, last));
        } else {
            let q = p.drop_last();
            let x = p.last();
            lemma_rk_path_facts(len, p, states);
            assert(rk_path(len, q)) by {
                assert forall|a: int, b: int| 0 <= a < b < q.len() implies q[a] != q[b] by {
                    assert(p[a] != p[b]);
                }
            }
            lemma_mask_of(len, q);
            lemma_rk_path_facts(len, q, states);
            assert(q.last() == last);
            assert(q.contains(last));
            assert(!q.contains(x)) by {
                if q.contains(x) {
                    let j = choose|j: int| 0 <= j < q.len() && q[j] == x;
                    assert(p[j] == p[p.len() - 1]);
                }
            }
            assert(0 <= x < len);
            if q.len() >= 2 {
                let q2 = q.drop_last();
                assert(distinct_below(len, q2)) by {
                    assert forall|a: int, b: int| 0 <= a < b < q2.len() implies q2[a] != q2[b] by {
                        assert(q[a] != q[b]);
                    }
                }
                lemma_mask_of(len, q2);
                assert(!q2.contains(last)) by {
                    if q2.contains(last) {
                        let j = choose|j: int| 0 <= j < q2.len() && q2[j] == last;
                        assert(q[j] == q[q.len() - 1]);
                    }
                }
                lemma_bit_order(mask_of(q2), last as usize);
            }
            assert(rk_reached(len, q, cur as int));
            assert(rk_dominates(n, seg, left, len, w, pos, lambda, dp0, q));
            lemma_rk_value_bound(n, seg, left, w, pos, lambda, q);
            assert(q.len() * 3_000_000_000_000 <= 12 * 3_000_000_000_000) by (nonlinear_arith) requires q.len() <= 12;
            assert(dp0[slot(cur as int, last, len)] != NEG_INF);
            assert(dp1[slot((cur | (1usize << (x as usize))) as int, x, len)]
                >= dp0[slot(cur as int, last, len)] + pos[ones_usize(cur, len) as int] * w[seg[x] as int]
                    - rcost(lambda, n, seg[last] as int, seg[x] as int));
            assert(p.drop_last() == q);
            assert(mask_of(p) == cur | (1usize << (x as usize)));
            assert(step_cost(lambda, n, seg, left, p, p.len() - 1) == rcost(lambda, n, seg[last] as int, seg[x] as int));
        }
    }
}

/// Once every subset below `cur` has been relaxed from all its last cells,
/// the paths reached below `cur + 1` are dominated.
proof fn lemma_rk_complete_next(n: int, seg: Seq<usize>, left: Option<usize>, len: int, w: Seq<i64>, pos: Seq<usize>,
    lambda: RankCost, dp: Seq<i64>, cur: int)
    requires
        rk_complete(n, seg, left, len, w, pos, lambda, dp, cur),
        rk_partial(n, seg, left, len, w, pos, lambda, dp, cur, len),
    ensures
        rk_complete(n, seg, left, len, w, pos, lambda, dp, cur + 1),
{
    assert forall|p: Seq<int>| #[trigger] rk_reached(len, p, cur + 1) implies rk_dominates(n, seg, left, len, w, pos, lambda, dp, p) by {
        if p.len() == 1 || mask_of(p.drop_last()) < cur {
            assert(rk_reached(len, p, cur));
        } else {
            assert(0 <= p[p.len() - 2] < len);
            assert(rk_step_path(len, p, cur, len));
        }
    }
}

/// The seed entry of window cell `x` holds at least the value of the
/// one-cell path `[x]`.
pub open spec fn rk_seed_dom(n: int, seg: Seq<usize>, left: Option<usize>, len: int, w: Seq<i64>, pos: Seq<usize>,
    lambda: RankCost, dp: Seq<i64>, x: int) -> bool {
    dp[slot((1usize << (x as usize)) as int, x, len)] >= rk_value(n, seg, left, w, pos, lambda, seq![x])
}

/// Prices within 10^12 and a rank for every cell.
pub open spec fn rank_ok(c: RankCost, cells: int) -> bool {
    &&& 0 <= c.lambda <= 1_000_000_000_000
    &&& 0 <= c.xi <= 1_000_000_000_000
    &&& c.rank.len() == cells
}

/// What the penalized table filling relies on.
pub open spec fn rk_input(n: int, seg: Seq<usize>, len: int, w: Seq<i64>, pos: Seq<usize>, lambda: RankCost) -> bool {
    &&& window_input(n, seg, len, w, pos)
    &&& rank_ok(lambda, w.len() as int)
}

/// A penalized path value is within `len * 3 * 10^12`.
pub(crate) proof fn lemma_rk_value_bound(n: int, seg: Seq<usize>, left: Option<usize>, w: Seq<i64>, pos: Seq<usize>,
    lambda: RankCost, path: Seq<int>)
    requires
        path.len() <= pos.len(),
        rank_ok(lambda, w.len() as int),
        forall|k: int| 0 <= k < path.len() ==> #[trigger] pos[k] <= MAX_CELLS,
        forall|k: int| 0 <= k < path.len() ==> 0 <= #[trigger] path[k] < seg.len(),
        cells_in(seg, w.len() as int),
        weights_bounded(w),
    ensures
        -(path.len() * 3_000_000_000_000) <= rk_value(n, seg, left, w, pos, lambda, path) <= path.len() * 3_000_000_000_000,
    decreases path.len(),
{
    if path.len() > 0 {
        let q = path.drop_last();
        assert forall|k: int| 0 <= k < q.len() implies 0 <= #[trigger] q[k] < seg.len() by {
            assert(q[k] == path[k]);
        }
        lemma_rk_value_bound(n, seg, left, w, pos, lambda, q);
        assert(rk_value(n, seg, left, w, pos, lambda, q) == rk_value(n, seg, left, w, pos, lambda, path.drop_last()));
        let x = w[seg[path.last()] as int];
        let t = pos[path.len() - 1] as int;
        assert(-(MAX_CELLS * MAX_WEIGHT) <= t * x <= MAX_CELLS * MAX_WEIGHT) by (nonlinear_arith)
            requires 0 <= t <= MAX_CELLS, -MAX_WEIGHT <= x <= MAX_WEIGHT;
        let v = step_cost(lambda, n, seg, left, path, path.len() - 1);
        if path.len() - 1 == 0 {
            match left {
                Some(c) => lemma_rcost_bound(lambda, n, c as int, seg[path[0]] as int),
                None => {},
            }
        } else {
            lemma_rcost_bound(lambda, n, seg[path[path.len() - 2]] as int, seg[path[path.len() - 1]] as int);
        }
        assert(0 <= v <= 2_000_000_000_000);
        assert(q.len() * 3_000_000_000_000 + 3_000_000_000_000 == path.len() * 3_000_000_000_000) by (nonlinear_arith)
            requires q.len() + 1 == path.len();
    }
}

/// Extending a realised entry by a fresh cell realises the entry of the
/// larger subset.
proof fn lemma_rk_extend(n: int, seg: Seq<usize>, left: Option<usize>, len: int, w: Seq<i64>, pos: Seq<usize>, lambda: RankCost,
    mask: usize, last: int, path: Seq<int>, value: int, nxt: int, next_mask: usize, next_value: int)
    requires
        1 <= len <= 12,
        rk_slot_ok(n, seg, left, len, w, pos, lambda, mask, last, path, value),
        0 <= nxt < len,
        !ubit(mask, nxt),
        next_mask == mask | (1usize << (nxt as usize)),
        next_value == value + pos[ones_usize(mask, len) as int] * w[seg[nxt] as int] - rcost(lambda, n, seg[last] as int, seg[nxt] as int),
    ensures
        rk_slot_ok(n, seg, left, len, w, pos, lambda, next_mask, nxt, path.push(nxt), next_value),
{
    let p = path.push(nxt);
    assert(!path.contains(nxt));
    assert forall|i: int| 0 <= i < len implies (ubit(next_mask, i) <==> p.contains(i)) by {
        lemma_bit_set(mask, nxt as usize, i as usize);
        if i == nxt {
            assert(p[p.len() - 1] == i);
        }
        if path.contains(i) {
            let k = choose|k: int| 0 <= k < path.len() && path[k] == i;
            assert(p[k] == i);
        }
        if p.contains(i) && i != nxt {
            let k = choose|k: int| 0 <= k < p.len() && p[k] == i;
            assert(k < path.len());
            assert(path[k] == i);
        }
    }
    lemma_ones_set(mask, nxt, len);
    assert(p.drop_last() =~= path);
    assert forall|a: int, b: int| 0 <= a < p.len() && 0 <= b < p.len() && a != b implies p[a] != p[b] by {
        if a < path.len() && b < path.len() {
            assert(p[a] == path[a] && p[b] == path[b]);
        } else if a < path.len() {
            assert(p[a] == path[a]);
            assert(path.contains(path[a]));
        } else {
            assert(p[b] == path[b]);
            assert(path.contains(path[b]));
        }
    }
    assert(p[p.len() - 2] == last);
    assert(step_cost(lambda, n, seg, left, p, p.len() - 1) == rcost(lambda, n, seg[last] as int, seg[nxt] as int));
}

/// Writing a realised entry for a subset not yet expanded keeps the tables
/// consistent.
proof fn lemma_rk_table_write(n: int, seg: Seq<usize>, left: Option<usize>, len: int, w: Seq<i64>, pos: Seq<usize>, lambda: RankCost,
    states: int, cur: int, old_dp: Seq<i64>, old_parent: Seq<u8>, old_paths: Seq<Seq<int>>,
    dp: Seq<i64>, parent: Seq<u8>, paths: Seq<Seq<int>>, dm: int, dl: int, p: Seq<int>, value: i64, par: u8)
    requires
        1 <= len <= 12,
        1 <= states,
        rk_table_ok(n, seg, left, len, w, pos, lambda, states, old_dp, old_parent, old_paths, cur),
        0 <= dm < states,
        cur <= dm,
        0 <= dl < len,
        dp == old_dp.update(slot(dm, dl, len), value),
        parent == old_parent.update(slot(dm, dl, len), par),
        paths == old_paths.update(slot(dm, dl, len), p),
        value != NEG_INF,
        rk_slot_ok(n, seg, left, len, w, pos, lambda, dm as usize, dl, p, value as int),
        p.len() >= 2,
        ({
            let src = ((dm as usize) ^ (1usize << (dl as usize))) as int;
            &&& 0 <= par < len
            &&& 0 <= src < cur
            &&& old_dp[slot(src, par as int, len)] != NEG_INF
            &&& old_paths[slot(src, par as int, len)] == p.drop_last()
        }),
    ensures
        rk_table_ok(n, seg, left, len, w, pos, lambda, states, dp, parent, paths, cur),
{
    lemma_slot(dm, dl, len, states);
    let src = ((dm as usize) ^ (1usize << (dl as usize))) as int;
    lemma_slot(src, par as int, len, states);
    assert forall|m: int, l: int| 0 <= m < states && 0 <= l < len implies
        #[trigger] rk_cell_ok(n, seg, left, len, w, pos, lambda, dp, parent, paths, m, l, cur) by {
        assert(rk_cell_ok(n, seg, left, len, w, pos, lambda, old_dp, old_parent, old_paths, m, l, cur));
        lemma_slot(m, l, len, states);
        let s = slot(m, l, len);
        if s != slot(dm, dl, len) {
            if old_dp[s] != NEG_INF && old_paths[s].len() >= 2 {
                let sm = ((m as usize) ^ (1usize << (l as usize))) as int;
                let pp = old_parent[s] as int;
                lemma_slot(sm, pp, len, states);
            }
        }
    }
}

proof fn lemma_rk_table_cur(n: int, seg: Seq<usize>, left: Option<usize>, len: int, w: Seq<i64>, pos: Seq<usize>, lambda: RankCost,
    states: int, dp: Seq<i64>, parent: Seq<u8>, paths: Seq<Seq<int>>, cur: int, cur2: int)
    requires
        rk_table_ok(n, seg, left, len, w, pos, lambda, states, dp, parent, paths, cur),
        cur <= cur2,
    ensures
        rk_table_ok(n, seg, left, len, w, pos, lambda, states, dp, parent, paths, cur2),
{
    assert forall|m: int, l: int| 0 <= m < states && 0 <= l < len implies
        #[trigger] rk_cell_ok(n, seg, left, len, w, pos, lambda, dp, parent, paths, m, l, cur2) by {
        assert(rk_cell_ok(n, seg, left, len, w, pos, lambda, dp, parent, paths, m, l, cur));
    }
}

/// Tries every fresh cell after entry `(mask, last)` and keeps the better
/// values in the entries of the larger subsets.
fn rk_relax_entry(seg: &Vec<usize>, left: Ghost<Option<usize>>, n: usize, weights: &[i64], pos_list: &Vec<usize>, len: usize,
    rank: &[usize], lambda: i64, xi: i64, states: usize, mask: usize, last: usize, dp: &mut Vec<i64>, parent: &mut Vec<u8>, paths: Ghost<Seq<Seq<int>>>)
    -> (res: Ghost<Seq<Seq<int>>>)
    requires
        rk_input(n as int, seg@, len as int, weights@, pos_list@, rank_cost(lambda as int, xi as int, rank@)),
        states == (1usize << len),
        1 <= states <= 4096,
        1 <= mask < states,
        last < len,
        rk_table_ok(n as int, seg@, left@, len as int, weights@, pos_list@, rank_cost(lambda as int, xi as int, rank@), states as int, old(dp)@, old(parent)@, paths@, mask + 1),
    ensures
        rk_table_ok(n as int, seg@, left@, len as int, weights@, pos_list@, rank_cost(lambda as int, xi as int, rank@), states as int, final(dp)@, final(parent)@, res@, mask + 1),
        forall|i: int| 0 <= i < old(dp)@.len() ==> #[trigger] final(dp)@[i] >= old(dp)@[i],
        old(dp)@[slot(mask as int, last as int, len as int)] != NEG_INF && ubit(mask, last as int) ==>
            forall|x: int| 0 <= x < len && !ubit(mask, x) ==>
                #[trigger] final(dp)@[slot((mask | (1usize << (x as usize))) as int, x, len as int)]
                    >= old(dp)@[slot(mask as int, last as int, len as int)] + pos_list@[ones_usize(mask, len as int) as int] * weights@[seg@[x] as int]
                        - rcost(rank_cost(lambda as int, xi as int, rank@), n as int, seg@[last as int] as int, seg@[x] as int),
{
    let ghost dp0 = dp@;
    let ghost sg = seg@;
    let ghost w = weights@;
    let ghost lf = left@;
    let ghost lam = rank_cost(lambda as int, xi as int, rank@);
    let ghost mut pt = paths@;
    let width = len;
    proof {
        assert(states * len <= 49152) by (nonlinear_arith) requires states <= 4096, len <= 12;
        lemma_slot(mask as int, last as int, len as int, states as int);
        assert(rk_cell_ok(n as int, sg, lf, len as int, w, pos_list@, lam, dp@, parent@, pt, mask as int, last as int, mask + 1));
    }
    let src = mask * width + last;
    let cur = dp[src];
    proof {
        lemma_bit_set(mask, last, last);
    }
    if cur == NEG_INF || (mask & (1usize << last)) == 0 {
        return Ghost(pt);
    }
    let used = mask.count_ones() as usize;
    proof {
        lemma_ones_upper(mask, len as int, usize::BITS as int);
        lemma_ones_bound(mask, len as int);
    }
    if used >= len {
        proof {
            lemma_ones_all(mask, len as int);
        }
        return Ghost(pt);
    }
    let ghost src_path = pt[src as int];
    proof {
        lemma_rk_value_bound(n as int, sg, lf, w, pos_list@, lam, src_path);
        assert(src_path.len() * 3_000_000_000_000 <= 12 * 3_000_000_000_000) by (nonlinear_arith)
            requires src_path.len() <= 12;
    }
    let next_pos = pos_list[used];
    let mut nxt: usize = 0;
    while nxt < len
        invariant
            rk_input(n as int, sg, len as int, w, pos_list@, lam),
            sg == seg@,
            w == weights@,
            lam == rank_cost(lambda as int, xi as int, rank@),
            width == len,
            states == (1usize << len),
            1 <= states <= 4096,
            states * len <= 49152,
            1 <= mask < states,
            last < len,
            src == slot(mask as int, last as int, len as int),
            src < states * len,
            used == ones_usize(mask, len as int),
            used < len,
            next_pos == pos_list@[used as int],
            pos_list@[used as int] <= MAX_CELLS,
            nxt <= len,
            cur != NEG_INF,
            dp@[src as int] == cur,
            pt[src as int] == src_path,
            rk_slot_ok(n as int, sg, lf, len as int, w, pos_list@, lam, mask, last as int, src_path, cur as int),
            -(12 * 3_000_000_000_000) <= cur <= 12 * 3_000_000_000_000,
            rk_table_ok(n as int, sg, lf, len as int, w, pos_list@, lam, states as int, dp@, parent@, pt, mask + 1),
            dp0.len() == dp@.len(),
            dp0[src as int] == cur,
            forall|i: int| 0 <= i < dp0.len() ==> #[trigger] dp@[i] >= dp0[i],
            forall|x: int| 0 <= x < nxt && !ubit(mask, x) ==>
                #[trigger] dp@[slot((mask | (1usize << (x as usize))) as int, x, len as int)]
                    >= cur + next_pos * w[sg[x] as int] - rcost(lam, n as int, sg[last as int] as int, sg[x] as int),
        decreases len - nxt,
    {
        proof {
            lemma_bit_set(mask, nxt, nxt);
        }
        if (mask & (1usize << nxt)) == 0 {
            let next_mask = mask | (1usize << nxt);
            proof {
                lemma_bit_set(mask, nxt, nxt);
                lemma_bit_order(mask, nxt);
                lemma_bit_range(mask, len, nxt, len);
                lemma_slot(next_mask as int, nxt as int, len as int, states as int);
                let x = w[sg[nxt as int] as int];
                let t = next_pos as int;
                assert(-(MAX_CELLS * MAX_WEIGHT) <= t * x <= MAX_CELLS * MAX_WEIGHT) by (nonlinear_arith)
                    requires 0 <= t <= MAX_CELLS, -MAX_WEIGHT <= x <= MAX_WEIGHT;
            }
            let cost = rank_step_cost(seg[last], seg[nxt], n, rank, lambda, xi);
            let next_value = cur + next_pos as i64 * weights[seg[nxt]] - cost;
            let dst = next_mask * width + nxt;
            if next_value > dp[dst] {
                let ghost old_dp = dp@;
                let ghost old_parent = parent@;
                let ghost old_paths = pt;
                dp.set(dst, next_value);
                parent.set(dst, last as u8);
                proof {
                    let p = src_path.push(nxt as int);
                    pt = pt.update(dst as int, p);
                    lemma_rk_extend(n as int, sg, lf, len as int, w, pos_list@, lam, mask, last as int,
                        src_path, cur as int, nxt as int, next_mask, next_value as int);
                    lemma_bit_set(next_mask, nxt, nxt);
                    assert(p.drop_last() =~= src_path);
                    lemma_rk_table_write(n as int, sg, lf, len as int, w, pos_list@, lam, states as int, mask + 1,
                        old_dp, old_parent, old_paths, dp@, parent@, pt, next_mask as int, nxt as int, p,
                        next_value, last as u8);
                    assert forall|i: int| 0 <= i < dp0.len() implies #[trigger] dp@[i] >= dp0[i] by {
                        assert(dp@[i] >= old_dp[i]);
                    }
                    assert forall|x: int| 0 <= x < nxt && !ubit(mask, x) implies
                        #[trigger] dp@[slot((mask | (1usize << (x as usize))) as int, x, len as int)]
                            >= cur + next_pos * w[sg[x] as int] - rcost(lam, n as int, sg[last as int] as int, sg[x] as int) by {
                        let d = slot((mask | (1usize << (x as usize))) as int, x, len as int);
                        lemma_bit_range(mask, len, x as usize, len);
                        lemma_slot((mask | (1usize << (x as usize))) as int, x, len as int, states as int);
                        assert(dp@[d] >= old_dp[d]);
                    }
                }
            }
        }
        nxt += 1;
    }
    Ghost(pt)
}

/// Entry `(m, l)` is unreachable or realised by a one-cell path.
pub open spec fn rk_seed_ok(n: int, seg: Seq<usize>, left: Option<usize>, len: int, w: Seq<i64>, pos: Seq<usize>, lambda: RankCost,
    dp: Seq<i64>, paths: Seq<Seq<int>>, m: int, l: int) -> bool {
    rk_entry_ok(n, seg, left, len, w, pos, lambda, dp, paths, m, l)
    && (dp[slot(m, l, len)] != NEG_INF ==> paths[slot(m, l, len)].len() == 1)
}

/// The tables after seeding the one-cell entries.
pub open spec fn rk_seeded_ok(n: int, seg: Seq<usize>, left: Option<usize>, len: int, w: Seq<i64>, pos: Seq<usize>, lambda: RankCost,
    states: int, dp: Seq<i64>, paths: Seq<Seq<int>>) -> bool {
    &&& dp.len() == states * len
    &&& paths.len() == states * len
    &&& forall|m: int, l: int| 0 <= m < states && 0 <= l < len ==>
        #[trigger] rk_seed_ok(n, seg, left, len, w, pos, lambda, dp, paths, m, l)
}

proof fn lemma_rk_seed_write(n: int, seg: Seq<usize>, left: Option<usize>, len: int, w: Seq<i64>, pos: Seq<usize>, lambda: RankCost,
    states: int, old_dp: Seq<i64>, old_paths: Seq<Seq<int>>, dp: Seq<i64>, paths: Seq<Seq<int>>,
    first: int, value: i64)
    requires
        1 <= len <= 12,
        1 <= states,
        rk_seeded_ok(n, seg, left, len, w, pos, lambda, states, old_dp, old_paths),
        0 <= first < len,
        (1usize << (first as usize)) < states,
        dp == old_dp.update(slot((1usize << (first as usize)) as int, first, len), value),
        paths == old_paths.update(slot((1usize << (first as usize)) as int, first, len), seq![first]),
        value != NEG_INF,
        rk_slot_ok(n, seg, left, len, w, pos, lambda, 1usize << (first as usize), first, seq![first], value as int),
    ensures
        rk_seeded_ok(n, seg, left, len, w, pos, lambda, states, dp, paths),
{
    let mask = (1usize << (first as usize)) as int;
    lemma_slot(mask, first, len, states);
    assert forall|m: int, l: int| 0 <= m < states && 0 <= l < len implies
        #[trigger] rk_seed_ok(n, seg, left, len, w, pos, lambda, dp, paths, m, l) by {
        assert(rk_seed_ok(n, seg, left, len, w, pos, lambda, old_dp, old_paths, m, l));
        lemma_slot(m, l, len, states);
    }
}

proof fn lemma_rk_seeded_table(n: int, seg: Seq<usize>, left: Option<usize>, len: int, w: Seq<i64>, pos: Seq<usize>, lambda: RankCost,
    states: int, dp: Seq<i64>, parent: Seq<u8>, paths: Seq<Seq<int>>)
    requires
        rk_seeded_ok(n, seg, left, len, w, pos, lambda, states, dp, paths),
        parent.len() == states * len,
    ensures
        rk_table_ok(n, seg, left, len, w, pos, lambda, states, dp, parent, paths, 1),
{
    assert forall|m: int, l: int| 0 <= m < states && 0 <= l < len implies
        #[trigger] rk_cell_ok(n, seg, left, len, w, pos, lambda, dp, parent, paths, m, l, 1) by {
        assert(rk_seed_ok(n, seg, left, len, w, pos, lambda, dp, paths, m, l));
    }
}

/// Fills the table of best penalized values over subsets of the window
/// cells `seg[..len]` (entry `(mask, last)`: the best way to visit the cells
/// of `mask` from steps `pos[0], pos[1], ...` after `left`, ending at
/// `seg[last]`) and the table of predecessors.
fn fill_rank_table(seg: &Vec<usize>, left: Option<usize>, n: usize, weights: &[i64], pos_list: &Vec<usize>,
    len: usize, rank: &[usize], lambda: i64, xi: i64) -> (res: (Vec<i64>, Vec<u8>, Ghost<Seq<Seq<int>>>))
    requires
        left matches Some(c) ==> c < weights@.len(),
        rk_input(n as int, seg@, len as int, weights@, pos_list@, rank_cost(lambda as int, xi as int, rank@)),
    ensures
        1 <= (1usize << len) <= 4096,
        rk_table_ok(n as int, seg@, left, len as int, weights@, pos_list@, rank_cost(lambda as int, xi as int, rank@), (1usize << len) as int,
            res.0@, res.1@, res.2@, (1usize << len) as int),
        rk_complete(n as int, seg@, left, len as int, weights@, pos_list@, rank_cost(lambda as int, xi as int, rank@), res.0@, (1usize << len) as int),
{
    let states = 1usize << len;
    proof {
        lemma_states(len);
        assert(states * len <= 49152) by (nonlinear_arith) requires states <= 4096, len <= 12;
    }
    let width = len;
    let mut dp: Vec<i64> = vec![NEG_INF; states * width];
    let mut parent: Vec<u8> = vec![u8::MAX; states * width];
    let ghost mut paths: Seq<Seq<int>> = Seq::new((states * width) as nat, |i: int| Seq::<int>::empty());
    let ghost sg = seg@;
    let ghost w = weights@;
    let ghost lam = rank_cost(lambda as int, xi as int, rank@);
    proof {
        assert forall|m: int, l: int| 0 <= m < states && 0 <= l < len implies
            #[trigger] rk_seed_ok(n as int, sg, left, len as int, w, pos_list@, lam, dp@, paths, m, l) by {
            lemma_slot(m, l, len as int, states as int);
        }
    }
    let mut first: usize = 0;
    while first < len
        invariant
            rk_input(n as int, sg, len as int, w, pos_list@, lam),
            width == len,
            sg == seg@,
            w == weights@,
            lam == rank_cost(lambda as int, xi as int, rank@),
            states == (1usize << len),
            1 <= states <= 4096,
            states * width <= 49152,
            first <= len,
            parent@.len() == states * width,
            rk_seeded_ok(n as int, sg, left, len as int, w, pos_list@, lam, states as int, dp@, paths),
            forall|x: int| 0 <= x < first ==> #[trigger] rk_seed_dom(n as int, sg, left, len as int, w, pos_list@, lam, dp@, x),
            left matches Some(c) ==> c < w.len(),
        decreases len - first,
    {
        let mask = 1usize << first;
        proof {
            lemma_bit_range(0, len, first, len);
            lemma_slot(mask as int, first as int, len as int, states as int);
            lemma_ones_single(first as int, len as int);
            let x = w[sg[first as int] as int];
            let t = pos_list@[0] as int;
            assert(-(MAX_CELLS * MAX_WEIGHT) <= t * x <= MAX_CELLS * MAX_WEIGHT) by (nonlinear_arith)
                requires 0 <= t <= MAX_CELLS, -MAX_WEIGHT <= x <= MAX_WEIGHT;
        }
        let idx = mask * width + first;
        let cost = match left {
            Some(c) => rank_step_cost(c, seg[first], n, rank, lambda, xi),
            None => 0,
        };
        let value = pos_list[0] as i64 * weights[seg[first]] - cost;
        let ghost old_dp = dp@;
        let ghost old_paths = paths;
        dp.set(idx, value);
        proof {
            let p = seq![first as int];
            paths = paths.update(idx as int, p);
            assert(p.drop_last() =~= Seq::<int>::empty());
            assert forall|i: int| 0 <= i < len implies (ubit(mask, i) <==> p.contains(i)) by {
                lemma_bit_set(0, first, i as usize);
                if i == first {
                    assert(p[0] == i);
                }
            }
            assert(rk_path(len as int, p));
            assert(rk_value(n as int, sg, left, w, pos_list@, lam, p.drop_last()) == 0);
            assert(step_cost(lam, n as int, sg, left, p, 0) == cost);
            assert(rk_value(n as int, sg, left, w, pos_list@, lam, p) == value);
            lemma_rk_seed_write(n as int, sg, left, len as int, w, pos_list@, lam, states as int, old_dp, old_paths,
                dp@, paths, first as int, value);
            assert forall|x: int| 0 <= x < first + 1 implies #[trigger] rk_seed_dom(n as int, sg, left, len as int, w, pos_list@, lam, dp@, x) by {
                if x < first {
                    assert(rk_seed_dom(n as int, sg, left, len as int, w, pos_list@, lam, old_dp, x));
                    lemma_bit_range(0, len, x as usize, len);
                    lemma_slot((1usize << (x as usize)) as int, x, len as int, states as int);
                    assert(slot((1usize << (x as usize)) as int, x, len as int) != idx);
                } else {
                    assert(seq![x] =~= p);
                }
            }
        }
        first += 1;
    }
    proof {
        lemma_rk_seeded_table(n as int, sg, left, len as int, w, pos_list@, lam, states as int, dp@, parent@, paths);
        assert forall|p: Seq<int>| #[trigger] rk_reached(len as int, p, 1) implies
            rk_dominates(n as int, sg, left, len as int, w, pos_list@, lam, dp@, p) by {
            if p.len() == 1 {
                let x = p[0];
                assert(p =~= seq![x]);
                assert(p.drop_last() =~= Seq::<int>::empty());
                lemma_zero_bits(x as usize);
                assert(mask_of(Seq::<int>::empty()) == 0usize);
                assert(mask_of(p) == (1usize << (x as usize)));
                assert(p.last() == x);
                assert(rk_seed_dom(n as int, sg, left, len as int, w, pos_list@, lam, dp@, x));
            } else {
                let q = p.drop_last();
                assert(distinct_below(len as int, q)) by {
                    assert forall|a: int, b: int| 0 <= a < b < q.len() implies q[a] != q[b] by {
                        assert(p[a] != p[b]);
                    }
                }
                lemma_mask_of(len as int, q);
                assert(q.contains(q.last()));
                assert(0 <= q.last() < 12);
                lemma_zero_bits(q.last() as usize);
                assert(ubit(mask_of(q), q.last()));
                assert(mask_of(q) != 0usize);
                assert(false);
            }
        }
    }
    let mut mask: usize = 1;
    while mask < states
        invariant
            rk_input(n as int, sg, len as int, w, pos_list@, lam),
            sg == seg@,
            w == weights@,
            lam == rank_cost(lambda as int, xi as int, rank@),
            states == (1usize << len),
            1 <= states <= 4096,
            1 <= mask <= states,
            rk_table_ok(n as int, sg, left, len as int, w, pos_list@, lam, states as int, dp@, parent@, paths, mask as int),
            rk_complete(n as int, sg, left, len as int, w, pos_list@, lam, dp@, mask as int),
        decreases states - mask,
    {
        proof {
            lemma_rk_table_cur(n as int, sg, left, len as int, w, pos_list@, lam, states as int, dp@, parent@, paths, mask as int, mask + 1);
        }
        let mut last: usize = 0;
        while last < len
            invariant
                rk_input(n as int, sg, len as int, w, pos_list@, lam),
                sg == seg@,
                w == weights@,
                lam == rank_cost(lambda as int, xi as int, rank@),
                states == (1usize << len),
                1 <= states <= 4096,
                1 <= mask < states,
                last <= len,
                rk_table_ok(n as int, sg, left, len as int, w, pos_list@, lam, states as int, dp@, parent@, paths, mask + 1),
                rk_complete(n as int, sg, left, len as int, w, pos_list@, lam, dp@, mask as int),
                rk_partial(n as int, sg, left, len as int, w, pos_list@, lam, dp@, mask as int, last as int),
            decreases len - last,
        {
            let ghost dp_before = dp@;
            let pg = rk_relax_entry(seg, Ghost(left), n, weights, pos_list, len, rank, lambda, xi, states, mask, last, &mut dp, &mut parent, Ghost(paths));
            proof {
                paths = pg@;
                lemma_rk_relax_step(n as int, sg, left, len as int, w, pos_list@, lam, states as int, dp_before, dp@, mask, last as int);
            }
            last += 1;
        }
        proof {
            lemma_rk_complete_next(n as int, sg, left, len as int, w, pos_list@, lam, dp@, mask as int);
        }
        mask += 1;
    }
    (dp, parent, Ghost(paths))
}

/// Follows the predecessors back from entry `(full, best_last)`: the
/// returned order starts with the path recorded for that entry.
fn rk_trace_back(parent: &Vec<u8>, n: Ghost<int>, seg: Ghost<Seq<usize>>, left: Ghost<Option<usize>>, w: Ghost<Seq<i64>>,
    posg: Ghost<Seq<usize>>, lambda: Ghost<RankCost>, dp: Ghost<Seq<i64>>, paths: Ghost<Seq<Seq<int>>>, len: usize, states: usize,
    best_last: usize) -> (order: Vec<usize>)
    requires
        1 <= len <= MAX_WINDOW,
        states == (1usize << len),
        1 <= states <= 4096,
        best_last < len,
        rk_table_ok(n@, seg@, left@, len as int, w@, posg@, lambda@, states as int, dp@, parent@, paths@, states as int),
        dp@[slot(states - 1, best_last as int, len as int)] != NEG_INF,
    ensures
        order@.len() == MAX_WINDOW,
        paths@[slot(states - 1, best_last as int, len as int)].len() == len,
        forall|k: int| 0 <= k < len ==> #[trigger] order@[k] == paths@[slot(states - 1, best_last as int, len as int)][k],
{
    let ghost pt = paths@;
    let ghost target = pt[slot(states - 1, best_last as int, len as int)];
    let full = states - 1;
    let width = len;
    proof {
        lemma_states(len);
        lemma_slot(full as int, best_last as int, len as int, states as int);
        assert(rk_cell_ok(n@, seg@, left@, len as int, w@, posg@, lambda@, dp@, parent@, pt, full as int, best_last as int, states as int));
        lemma_ones_full(len as int, full, len as int);
        assert(states * len <= 49152) by (nonlinear_arith) requires states <= 4096, len <= 12;
        assert(target.subrange(0, len as int) =~= target);
    }
    let mut order: Vec<usize> = vec![0usize; MAX_WINDOW];
    let mut mask = full;
    let mut last = best_last;
    let mut pos = len - 1;
    while pos > 0
        invariant
            1 <= len <= MAX_WINDOW,
            width == len,
            states == (1usize << len),
            1 <= states <= 4096,
            states * len <= 49152,
            rk_table_ok(n@, seg@, left@, len as int, w@, posg@, lambda@, states as int, dp@, parent@, pt, states as int),
            target.len() == len,
            pos < len,
            mask < states,
            last < len,
            dp@[slot(mask as int, last as int, len as int)] != NEG_INF,
            pt[slot(mask as int, last as int, len as int)] == target.subrange(0, pos + 1),
            order@.len() == MAX_WINDOW,
            forall|k: int| pos < k < len ==> order@[k] == #[trigger] target[k],
        decreases pos,
    {
        proof {
            lemma_slot(mask as int, last as int, len as int, states as int);
            assert(rk_cell_ok(n@, seg@, left@, len as int, w@, posg@, lambda@, dp@, parent@, pt, mask as int, last as int, states as int));
            assert(target.subrange(0, pos + 1).last() == target[pos as int]);
        }
        order.set(pos, last);
        let prev = parent[mask * width + last];
        proof {
            let src = ((mask as usize) ^ (1usize << (last as usize))) as int;
            assert(target.subrange(0, pos + 1).drop_last() =~= target.subrange(0, pos as int));
            lemma_slot(src, prev as int, len as int, states as int);
        }
        mask = mask ^ (1usize << last);
        last = prev as usize;
        pos -= 1;
    }
    proof {
        lemma_slot(mask as int, last as int, len as int, states as int);
        assert(rk_cell_ok(n@, seg@, left@, len as int, w@, posg@, lambda@, dp@, parent@, pt, mask as int, last as int, states as int));
        assert(target.subrange(0, 1).last() == target[0]);
    }
    order.set(0, last);
    order
}


/// Largest window `optimize_penalty_window` reorders.
pub const RANK_WINDOW: usize = 9;

/// The penalized value of the window visited in `path` order, including
/// the step out to `right` when there is one.
pub open spec fn rank_obj(n: int, seg: Seq<usize>, left: Option<usize>, right: Option<usize>, w: Seq<i64>, pos: Seq<usize>,
    c: RankCost, path: Seq<int>) -> int {
    rk_value(n, seg, left, w, pos, c, path) - match right {
        Some(r) => rcost(c, n, seg[path.last()] as int, r as int),
        None => 0,
    }
}

/// Prices of the window in its own order, over the steps into the first `k` cells.
pub open spec fn ident_cost(n: int, c: RankCost, seg: Seq<usize>, left: Option<usize>, k: int) -> int
    decreases k,
{
    if k <= 0 { 0 } else if k == 1 {
        match left { Some(l) => rcost(c, n, l as int, seg[0] as int), None => 0 }
    } else {
        ident_cost(n, c, seg, left, k - 1) + rcost(c, n, seg[k - 2] as int, seg[k - 1] as int)
    }
}

proof fn lemma_ident_rank_value(n: int, seg: Seq<usize>, left: Option<usize>, w: Seq<i64>, pos: Seq<usize>, c: RankCost, k: int)
    requires
        0 <= k,
    ensures
        rk_value(n, seg, left, w, pos, c, ident(k)) == ident_raw(seg, w, pos, k) - ident_cost(n, c, seg, left, k),
    decreases k,
{
    if k > 0 {
        lemma_ident_rank_value(n, seg, left, w, pos, c, k - 1);
        assert(ident(k).drop_last() =~= ident(k - 1));
    }
}

/// Two paths over the same cells in the same order have the same value.
proof fn lemma_same_cells_rank_value(n: int, seg: Seq<usize>, left: Option<usize>, w: Seq<i64>, pos: Seq<usize>, c: RankCost,
    p: Seq<int>, q: Seq<int>)
    requires
        p.len() == q.len(),
        forall|k: int| 0 <= k < p.len() ==> seg[#[trigger] p[k]] == seg[q[k]],
    ensures
        rk_value(n, seg, left, w, pos, c, p) == rk_value(n, seg, left, w, pos, c, q),
    decreases p.len(),
{
    if p.len() > 0 {
        let k = p.len() - 1;
        assert(seg[p[k]] == seg[q[k]]);
        if k > 0 {
            assert(seg[p[k - 1]] == seg[q[k - 1]]);
        }
        assert(seg[p[0]] == seg[q[0]]);
        assert(step_cost(c, n, seg, left, p, k) == step_cost(c, n, seg, left, q, k));
        assert forall|j: int| 0 <= j < p.drop_last().len() implies seg[#[trigger] p.drop_last()[j]] == seg[q.drop_last()[j]] by {
            assert(seg[p[j]] == seg[q[j]]);
        }
        lemma_same_cells_rank_value(n, seg, left, w, pos, c, p.drop_last(), q.drop_last());
    }
}

/// What `optimize_penalty_window` reads: a board with a weight and a rank
/// for each cell, a route of its cells and prices within 10^12.
pub open spec fn rank_window_input(n: int, route: Seq<usize>, w: Seq<i64>, rank: Seq<usize>, lambda: int, xi: int) -> bool {
    &&& 0 < n
    &&& n * n <= MAX_CELLS
    &&& route.len() <= MAX_CELLS
    &&& cells_in(route, w.len() as int)
    &&& weights_bounded(w)
    &&& rank.len() == w.len()
    &&& 0 <= lambda <= 1_000_000_000_000
    &&& 0 <= xi <= 1_000_000_000_000
}

/// Reorders `path[start..start + len]` (2 to 9 cells) into the order that
/// maximizes its score (each cell's weight times its step) minus `lambda`
/// for each break and `xi` for each step whose cells' ranks differ by more
/// than `RANK_JUMP_THRESHOLD`, counting the steps in from the cell before
/// the window and out to the cell after it, over every order of the window,
/// by dynamic programming over subsets. The window changes only to an order
/// strictly better than its own; returns whether `path` changed.
pub fn optimize_penalty_window(path: &mut Vec<usize>, weights: &[i64], n: usize, rank_by_cell: &[usize], start: usize,
    len: usize, lambda: i64, xi: i64) -> (changed: bool)
    requires
        rank_window_input(n as int, old(path)@, weights@, rank_by_cell@, lambda as int, xi as int),
        2 <= len <= RANK_WINDOW ==> start + len <= old(path)@.len(),
    ensures
        final(path)@.len() == old(path)@.len(),
        changed <==> final(path)@ != old(path)@,
        !(2 <= len <= RANK_WINDOW) ==> !changed,
        forall|i: int| 0 <= i < old(path)@.len() && !(start <= i < start + len) ==> #[trigger] final(path)@[i] == old(path)@[i],
        2 <= len <= RANK_WINDOW ==> ({
            let (seg, left, right, pos) = window_parts(old(path)@, start as int, len as int);
            let c = rank_cost(lambda as int, xi as int, rank_by_cell@);
            exists|p: Seq<int>| #[trigger] rk_path(len as int, p) && p.len() == len
                && (forall|i: int| 0 <= i < len ==> final(path)@[start + i] == seg[p[i]])
                && (forall|q: Seq<int>| #[trigger] rk_path(len as int, q) && q.len() == len ==>
                    rank_obj(n as int, seg, left, right, weights@, pos, c, q) <= rank_obj(n as int, seg, left, right, weights@, pos, c, p))
                && (changed ==> rank_obj(n as int, seg, left, right, weights@, pos, c, p)
                    > rank_obj(n as int, seg, left, right, weights@, pos, c, ident(len as int)))
        }),
{
    if len < 2 || len > RANK_WINDOW {
        return false;
    }
    let ghost w = weights@;
    let ghost lam = rank_cost(lambda as int, xi as int, rank_by_cell@);
    let ghost route = path@;
    let len_total = path.len();
    let mut seg: Vec<usize> = Vec::new();
    let mut pos_list: Vec<usize> = Vec::new();
    let mut i: usize = 0;
    while i < MAX_WINDOW
        invariant
            start + len <= route.len() <= MAX_CELLS,
            path@ == route,
            2 <= len <= RANK_WINDOW,
            i <= MAX_WINDOW,
            seg@.len() == i,
            pos_list@.len() == i,
            forall|k: int| 0 <= k < i ==> #[trigger] seg@[k] == (if k < len { route[start + k] } else { 0usize }),
            forall|k: int| 0 <= k < i ==> #[trigger] pos_list@[k] == (start + k) as usize,
        decreases MAX_WINDOW - i,
    {
        seg.push(if i < len { path[start + i] } else { 0 });
        pos_list.push(start + i);
        i += 1;
    }
    let left = if start > 0 { Some(path[start - 1]) } else { None };
    let right = if start + len < len_total { Some(path[start + len]) } else { None };
    let ghost parts = window_parts(route, start as int, len as int);
    proof {
        assert(seg@ =~= parts.0);
        assert(pos_list@ =~= parts.3);
        assert(cells_in(seg@, w.len() as int)) by {
            assert forall|k: int| 0 <= k < seg@.len() implies #[trigger] seg@[k] < w.len() by {
                if k < len {
                    assert(route[start + k] < w.len());
                } else {
                    assert(seg@[k] == 0usize);
                    assert(route[0] < w.len());
                }
            }
        }
        if start > 0 {
            assert(route[start - 1] < w.len());
        }
        if start + len < len_total {
            assert(route[start + len] < w.len());
        }
    }
    let mut old_raw: i64 = 0;
    let mut k: usize = 0;
    while k < len
        invariant
            2 <= len <= RANK_WINDOW,
            start + len <= MAX_CELLS,
            seg@.len() == MAX_WINDOW,
            pos_list@.len() == MAX_WINDOW,
            forall|x: int| 0 <= x < MAX_WINDOW ==> #[trigger] pos_list@[x] == (start + x) as usize,
            cells_in(seg@, w.len() as int),
            w == weights@,
            weights_bounded(w),
            k <= len,
            old_raw == ident_raw(seg@, w, pos_list@, k as int),
            -(k * (MAX_CELLS * MAX_WEIGHT)) <= old_raw <= k * (MAX_CELLS * MAX_WEIGHT),
        decreases len - k,
    {
        proof {
            let x = w[seg@[k as int] as int];
            let t = (start + k) as int;
            assert(-(MAX_CELLS * MAX_WEIGHT) <= t * x <= MAX_CELLS * MAX_WEIGHT) by (nonlinear_arith)
                requires 0 <= t <= MAX_CELLS, -MAX_WEIGHT <= x <= MAX_WEIGHT;
            assert(k * (MAX_CELLS * MAX_WEIGHT) + MAX_CELLS * MAX_WEIGHT == (k + 1) * (MAX_CELLS * MAX_WEIGHT)) by (nonlinear_arith);
        }
        old_raw = old_raw + (start + k) as i64 * weights[seg[k]];
        k += 1;
    }
    let mut old_cost: i64 = 0;
    match left {
        Some(c) => {
            old_cost = old_cost + rank_step_cost(c, seg[0], n, rank_by_cell, lambda, xi);
        },
        None => {},
    }
    let mut k: usize = 0;
    while k + 1 < len
        invariant
            2 <= len <= RANK_WINDOW,
            seg@.len() == MAX_WINDOW,
            cells_in(seg@, w.len() as int),
            rank_by_cell@.len() == w.len(),
            0 < n,
            0 <= lambda <= 1_000_000_000_000,
            0 <= xi <= 1_000_000_000_000,
            lam == rank_cost(lambda as int, xi as int, rank_by_cell@),
            k + 1 <= len,
            old_cost == ident_cost(n as int, lam, seg@, left, k + 1),
            0 <= old_cost <= (k + 1) * 2_000_000_000_000,
        decreases len - k,
    {
        old_cost = old_cost + rank_step_cost(seg[k], seg[k + 1], n, rank_by_cell, lambda, xi);
        k += 1;
    }
    let mut right_cost: i64 = 0;
    match right {
        Some(c) => {
            right_cost = rank_step_cost(seg[len - 1], c, n, rank_by_cell, lambda, xi);
        },
        None => {},
    }
    let old_obj = old_raw - (old_cost + right_cost);
    proof {
        lemma_ident_rank_value(n as int, seg@, left, w, pos_list@, lam, len as int);
        assert(ident(len as int).last() == len - 1);
        assert(old_obj == rank_obj(n as int, seg@, left, right, w, pos_list@, lam, ident(len as int)));
    }
    let (dp, parent, paths) = fill_rank_table(&seg, left, n, weights, &pos_list, len, rank_by_cell, lambda, xi);
    let states = 1usize << len;
    let full = states - 1;
    let width = len;
    proof {
        lemma_states(len);
        assert(states * len <= 49152) by (nonlinear_arith) requires states <= 4096, len <= 12;
        lemma_ones_full(len as int, full, len as int);
        assert forall|x: int| 0 <= x < len implies #[trigger] pos_list@[x] <= MAX_CELLS by {
            assert(pos_list@[x] == parts.3[x]);
        }
        assert(-(20 * 3_000_000_000_000) <= old_obj <= 20 * 3_000_000_000_000) by (nonlinear_arith)
            requires old_obj == old_raw - (old_cost + right_cost),
                -(len * (MAX_CELLS * MAX_WEIGHT)) <= old_raw <= len * (MAX_CELLS * MAX_WEIGHT),
                0 <= old_cost <= len * 2_000_000_000_000, 0 <= right_cost <= 2_000_000_000_000, len <= 9;
    }
    let mut best_last = usize::MAX;
    let mut best_obj = old_obj;
    let mut last: usize = 0;
    while last < len
        invariant
            2 <= len <= RANK_WINDOW,
            0 < n,
            0 <= lambda <= 1_000_000_000_000,
            0 <= xi <= 1_000_000_000_000,
            rank_by_cell@.len() == w.len(),
            right matches Some(c) ==> c < w.len(),
            width == len,
            states == (1usize << len),
            1 <= states <= 4096,
            states * len <= 49152,
            full == states - 1,
            ones_usize(full, len as int) == len,
            lam == rank_cost(lambda as int, xi as int, rank_by_cell@),
            seg@.len() == MAX_WINDOW,
            rk_table_ok(n as int, seg@, left, len as int, w, pos_list@, lam, states as int, dp@, parent@, paths@, states as int),
            cells_in(seg@, w.len() as int),
            weights_bounded(w),
            pos_list@.len() == MAX_WINDOW,
            forall|x: int| 0 <= x < len ==> #[trigger] pos_list@[x] <= MAX_CELLS,
            last <= len,
            best_last == usize::MAX ==> best_obj == old_obj,
            best_last != usize::MAX ==> best_last < len && best_obj > old_obj
                && dp@[slot(full as int, best_last as int, len as int)] != NEG_INF
                && best_obj == rank_obj(n as int, seg@, left, right, w, pos_list@, lam,
                    paths@[slot(full as int, best_last as int, len as int)]),
            -(20 * 3_000_000_000_000) <= best_obj <= 20 * 3_000_000_000_000,
            rk_complete(n as int, seg@, left, len as int, w, pos_list@, lam, dp@, states as int),
            old_obj == rank_obj(n as int, seg@, left, right, w, pos_list@, lam, ident(len as int)),
            forall|p: Seq<int>| #[trigger] rk_path(len as int, p) && p.len() == len && p.last() < last ==>
                rank_obj(n as int, seg@, left, right, w, pos_list@, lam, p) <= best_obj,
        decreases len - last,
    {
        proof {
            lemma_slot(full as int, last as int, len as int, states as int);
        }
        let value0 = dp[full * width + last];
        proof {
            assert forall|p: Seq<int>| #[trigger] rk_path(len as int, p) && p.len() == len && p.last() == last implies
                dp@[slot(full as int, last as int, len as int)] >= rk_value(n as int, seg@, left, w, pos_list@, lam, p)
                && rk_value(n as int, seg@, left, w, pos_list@, lam, p) >= -(12 * 3_000_000_000_000) by {
                lemma_full_path(len as int, p, states as int);
                assert(rk_reached(len as int, p, states as int));
                assert(rk_dominates(n as int, seg@, left, len as int, w, pos_list@, lam, dp@, p));
                lemma_rk_value_bound(n as int, seg@, left, w, pos_list@, lam, p);
                assert(p.len() * 3_000_000_000_000 <= 12 * 3_000_000_000_000) by (nonlinear_arith) requires p.len() <= 12;
            }
        }
        if value0 != NEG_INF {
            let ghost pth = paths@[slot(full as int, last as int, len as int)];
            proof {
                assert(rk_cell_ok(n as int, seg@, left, len as int, w, pos_list@, lam, dp@, parent@, paths@, full as int, last as int, states as int));
                assert(pth.len() == ones_usize(full, len as int));
                assert(pth.len() == len);
                lemma_rk_value_bound(n as int, seg@, left, w, pos_list@, lam, pth);
                assert(pth.len() * 3_000_000_000_000 <= 12 * 3_000_000_000_000) by (nonlinear_arith) requires pth.len() <= 12;
                assert(seg@[last as int] < w.len());
            }
            let cost = match right {
                Some(c) => rank_step_cost(seg[last], c, n, rank_by_cell, lambda, xi),
                None => 0,
            };
            proof {
                assert(pth.last() == last);
            }
            let value = value0 - cost;
            if value > best_obj {
                best_obj = value;
                best_last = last;
            }
            proof {
                assert forall|p: Seq<int>| #[trigger] rk_path(len as int, p) && p.len() == len && p.last() < last + 1 implies
                    rank_obj(n as int, seg@, left, right, w, pos_list@, lam, p) <= best_obj by {
                    if p.last() == last {
                        assert(dp@[slot(full as int, last as int, len as int)] >= rk_value(n as int, seg@, left, w, pos_list@, lam, p));
                    }
                }
            }
        } else {
            proof {
                assert forall|p: Seq<int>| #[trigger] rk_path(len as int, p) && p.len() == len && p.last() < last + 1 implies
                    rank_obj(n as int, seg@, left, right, w, pos_list@, lam, p) <= best_obj by {
                    if p.last() == last {
                        assert(dp@[slot(full as int, last as int, len as int)] >= rk_value(n as int, seg@, left, w, pos_list@, lam, p));
                        assert(false);
                    }
                }
            }
        }
        last += 1;
    }
    proof {
        assert(seg@ =~= parts.0);
        assert(pos_list@ =~= parts.3);
        assert(parts.1 == left);
        assert(parts.2 == right);
        assert forall|p: Seq<int>| #[trigger] rk_path(len as int, p) && p.len() == len implies
            rank_obj(n as int, seg@, left, right, w, pos_list@, lam, p) <= best_obj by {
            assert(0 <= p.last() < len);
        }
    }
    if best_last == usize::MAX {
        proof {
            let p = ident(len as int);
            assert(rk_path(len as int, p)) by {
                assert forall|a: int, b: int| 0 <= a < b < p.len() implies p[a] != p[b] by {}
            }
            assert forall|i: int| 0 <= i < len implies path@[start + i] == parts.0[p[i]] by {
                assert(parts.0[p[i]] == seg@[i]);
            }
        }
        return false;
    }
    let order = rk_trace_back(&parent, Ghost(n as int), Ghost(seg@), Ghost(left), Ghost(w), Ghost(pos_list@), Ghost(lam),
        Ghost(dp@), paths, len, states, best_last);
    let ghost best = paths@[slot(full as int, best_last as int, len as int)];
    proof {
        lemma_slot(full as int, best_last as int, len as int, states as int);
        assert(rk_cell_ok(n as int, seg@, left, len as int, w, pos_list@, lam, dp@, parent@, paths@, full as int, best_last as int, states as int));
    }
    let mut changed = false;
    let mut i: usize = 0;
    while i < len
        invariant
            2 <= len <= RANK_WINDOW,
            start + len <= route.len(),
            route.len() <= MAX_CELLS,
            path@.len() == route.len(),
            seg@.len() == MAX_WINDOW,
            forall|x: int| 0 <= x < MAX_WINDOW ==> #[trigger] seg@[x] == (if x < len { route[start + x] } else { 0usize }),
            order@.len() == MAX_WINDOW,
            best.len() == len,
            rk_path(len as int, best),
            forall|x: int| 0 <= x < len ==> #[trigger] order@[x] == best[x],
            i <= len,
            forall|x: int| 0 <= x < path@.len() && !(start <= x < start + i) ==> #[trigger] path@[x] == route[x],
            forall|x: int| start <= x < start + i ==> #[trigger] path@[x] == seg@[best[x - start]],
            changed <==> exists|x: int| start <= x < start + i && #[trigger] path@[x] != route[x],
        decreases len - i,
    {
        proof {
            assert(0 <= best[i as int] < len);
        }
        let c = seg[order[i]];
        let ghost before = path@;
        let ghost was = changed;
        if c != seg[i] {
            changed = true;
        }
        path.set(start + i, c);
        proof {
            assert(seg@[i as int] == route[start + i]);
            assert forall|x: int| start <= x < start + i implies #[trigger] path@[x] == before[x] by {}
            if was {
                let x0 = choose|x: int| start <= x < start + i && #[trigger] before[x] != route[x];
                assert(path@[x0] != route[x0]);
            } else if changed {
                assert(path@[start + i] != route[start + i]);
            } else {
                assert forall|x: int| start <= x < start + i + 1 implies !(#[trigger] path@[x] != route[x]) by {
                    if x < start + i {
                        assert(!(before[x] != route[x]));
                    }
                }
            }
        }
        i += 1;
    }
    proof {
        assert(rank_obj(n as int, seg@, left, right, w, pos_list@, lam, best) == best_obj);
        if changed {
            let x0 = choose|x: int| start <= x < start + len && #[trigger] path@[x] != route[x];
            assert(path@[x0] != route[x0]);
            assert(path@ != route);
        } else {
            assert(path@ =~= route) by {
                assert forall|x: int| 0 <= x < path@.len() implies path@[x] == route[x] by {
                    if start <= x < start + len {
                        assert(!(path@[x] != route[x]));
                    }
                }
            }
        }
        assert forall|i: int| 0 <= i < len implies path@[start + i] == parts.0[best[i]] by {
            assert(path@[start + i] == seg@[best[(start + i) - start]]);
        }
    }
    changed
}

} // verus!
