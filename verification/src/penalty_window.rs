//! Reordering a short window of a route by dynamic programming over subsets
//! of its cells, every order allowed, breaks penalized.
use vstd::prelude::*;
use crate::grid::{cells_in, weights_bounded, MAX_CELLS, MAX_WEIGHT, is_adj, is_permutation_route};
use crate::window::{NEG_INF, MAX_WINDOW, ubit, ones_usize, slot, link_ok, window_input, lemma_slot, lemma_states,
    lemma_bit_set, lemma_bit_order, lemma_bit_range, lemma_ones_upper, lemma_ones_set, lemma_ones_single, lemma_ones_full,
    lemma_ones_bound, lemma_full_mask, lemma_ones_all, mask_of, distinct_below, lemma_mask_of, lemma_mask_eq,
    lemma_zero_bits};
use crate::penalty::{vio, violation_cost, penalized, total_breaks, range_breaks, lemma_breaks_range, lemma_range_split,
    lemma_range_same, lemma_range_step};
use crate::grid::{raw_prefix, raw_score};

verus! {

/// `path` lists distinct window indices below `len`.
pub open spec fn pen_path(len: int, path: Seq<int>) -> bool {
    &&& path.len() >= 1
    &&& forall|k: int| 0 <= k < path.len() ==> 0 <= #[trigger] path[k] < len
    &&& path.no_duplicates()
}

/// The break cost of the step into `path[k]`: from the cell before the
/// window for the first, from the previous path cell otherwise.
pub open spec fn step_vio(n: int, seg: Seq<usize>, left: Option<usize>, path: Seq<int>, k: int) -> int {
    if k == 0 {
        match left {
            Some(c) => vio(n, c as int, seg[path[0]] as int),
            None => 0,
        }
    } else {
        vio(n, seg[path[k - 1]] as int, seg[path[k]] as int)
    }
}

/// Score of visiting `seg[path[0]], seg[path[1]], ...` at steps `pos[0],
/// pos[1], ...`, minus `lambda` for each break (including the step in from
/// `left`).
pub open spec fn pen_value(n: int, seg: Seq<usize>, left: Option<usize>, w: Seq<i64>, pos: Seq<usize>, lambda: int,
    path: Seq<int>) -> int
    decreases path.len(),
{
    if path.len() == 0 {
        0
    } else {
        let k = path.len() - 1;
        pen_value(n, seg, left, w, pos, lambda, path.drop_last()) + pos[k] * w[seg[path[k]] as int]
            - lambda * step_vio(n, seg, left, path, k)
    }
}

/// A reachable entry for subset `mask` ending at `last` is realised by
/// `path` (visiting exactly the members of `mask`) with value `value`.
pub open spec fn pen_slot_ok(n: int, seg: Seq<usize>, left: Option<usize>, len: int, w: Seq<i64>, pos: Seq<usize>,
    lambda: int, mask: usize, last: int, path: Seq<int>, value: int) -> bool {
    &&& pen_path(len, path)
    &&& path.last() == last
    &&& path.len() == ones_usize(mask, len)
    &&& forall|i: int| 0 <= i < len ==> (ubit(mask, i) <==> path.contains(i))
    &&& value == pen_value(n, seg, left, w, pos, lambda, path)
}

/// Entry `(m, l)` is unreachable or realised by its recorded path.
pub open spec fn pen_entry_ok(n: int, seg: Seq<usize>, left: Option<usize>, len: int, w: Seq<i64>, pos: Seq<usize>,
    lambda: int, dp: Seq<i64>, paths: Seq<Seq<int>>, m: int, l: int) -> bool {
    let s = slot(m, l, len);
    dp[s] == NEG_INF || pen_slot_ok(n, seg, left, len, w, pos, lambda, m as usize, l, paths[s], dp[s] as int)
}

/// Entry `(m, l)` is realised and linked to its predecessor below `cur`.
pub open spec fn pen_cell_ok(n: int, seg: Seq<usize>, left: Option<usize>, len: int, w: Seq<i64>, pos: Seq<usize>,
    lambda: int, dp: Seq<i64>, parent: Seq<u8>, paths: Seq<Seq<int>>, m: int, l: int, cur: int) -> bool {
    pen_entry_ok(n, seg, left, len, w, pos, lambda, dp, paths, m, l) && link_ok(len, dp, parent, paths, m, l, cur)
}

/// The tables: every entry unreachable or realised, every reachable entry
/// of two or more cells linked to its predecessor entry below `cur`.
pub open spec fn pen_table_ok(n: int, seg: Seq<usize>, left: Option<usize>, len: int, w: Seq<i64>, pos: Seq<usize>,
    lambda: int, states: int, dp: Seq<i64>, parent: Seq<u8>, paths: Seq<Seq<int>>, cur: int) -> bool {
    &&& dp.len() == states * len
    &&& parent.len() == states * len
    &&& paths.len() == states * len
    &&& forall|m: int, l: int| 0 <= m < states && 0 <= l < len ==>
        #[trigger] pen_cell_ok(n, seg, left, len, w, pos, lambda, dp, parent, paths, m, l, cur)
}

/// `dp` holds at least the penalized value of `path` in the entry of its
/// cells and last cell.
pub open spec fn pen_dominates(n: int, seg: Seq<usize>, left: Option<usize>, len: int, w: Seq<i64>, pos: Seq<usize>,
    lambda: int, dp: Seq<i64>, path: Seq<int>) -> bool {
    dp[slot(mask_of(path) as int, path.last(), len)] >= pen_value(n, seg, left, w, pos, lambda, path)
}

/// A path of one cell, or one whose cells before the last form a subset
/// below `cur`.
pub open spec fn pen_reached(len: int, path: Seq<int>, cur: int) -> bool {
    pen_path(len, path) && (path.len() == 1 || mask_of(path.drop_last()) < cur)
}

/// Every path reached below `cur` is dominated by the table.
pub open spec fn pen_complete(n: int, seg: Seq<usize>, left: Option<usize>, len: int, w: Seq<i64>, pos: Seq<usize>,
    lambda: int, dp: Seq<i64>, cur: int) -> bool {
    forall|p: Seq<int>| #[trigger] pen_reached(len, p, cur) ==> pen_dominates(n, seg, left, len, w, pos, lambda, dp, p)
}

/// A path whose cells before the last form subset `cur` and whose second
/// last cell is below `k`.
pub open spec fn pen_step_path(len: int, path: Seq<int>, cur: int, k: int) -> bool {
    pen_path(len, path) && path.len() >= 2 && mask_of(path.drop_last()) == cur && path[path.len() - 2] < k
}

/// Every such path is dominated by the table.
pub open spec fn pen_partial(n: int, seg: Seq<usize>, left: Option<usize>, len: int, w: Seq<i64>, pos: Seq<usize>,
    lambda: int, dp: Seq<i64>, cur: int, k: int) -> bool {
    forall|p: Seq<int>| #[trigger] pen_step_path(len, p, cur, k) ==> pen_dominates(n, seg, left, len, w, pos, lambda, dp, p)
}

proof fn lemma_pen_path_facts(len: int, path: Seq<int>, states: int)
    requires
        1 <= len <= 12,
        states == (1usize << (len as usize)),
        pen_path(len, path),
    ensures
        distinct_below(len, path),
        mask_of(path) < states,
        path.len() <= len,
        0 <= slot(mask_of(path) as int, path.last(), len) < states * len,
{
    lemma_mask_of(len, path);
    lemma_ones_bound(mask_of(path), len);
    lemma_slot(mask_of(path) as int, path.last(), len, states);
}

proof fn lemma_pen_complete_mono(n: int, seg: Seq<usize>, left: Option<usize>, len: int, w: Seq<i64>, pos: Seq<usize>,
    lambda: int, states: int, dp0: Seq<i64>, dp1: Seq<i64>, cur: int, k: int)
    requires
        1 <= len <= 12,
        states == (1usize << (len as usize)),
        dp0.len() == states * len,
        dp1.len() == dp0.len(),
        forall|i: int| 0 <= i < dp0.len() ==> #[trigger] dp1[i] >= dp0[i],
        pen_complete(n, seg, left, len, w, pos, lambda, dp0, cur),
        pen_partial(n, seg, left, len, w, pos, lambda, dp0, cur, k),
    ensures
        pen_complete(n, seg, left, len, w, pos, lambda, dp1, cur),
        pen_partial(n, seg, left, len, w, pos, lambda, dp1, cur, k),
{
    assert forall|p: Seq<int>| #[trigger] pen_reached(len, p, cur) implies pen_dominates(n, seg, left, len, w, pos, lambda, dp1, p) by {
        lemma_pen_path_facts(len, p, states);
        assert(pen_dominates(n, seg, left, len, w, pos, lambda, dp0, p));
    }
    assert forall|p: Seq<int>| #[trigger] pen_step_path(len, p, cur, k) implies pen_dominates(n, seg, left, len, w, pos, lambda, dp1, p) by {
        lemma_pen_path_facts(len, p, states);
        assert(pen_dominates(n, seg, left, len, w, pos, lambda, dp0, p));
    }
}

/// Relaxing entry `(cur, last)` dominates the paths through it.
proof fn lemma_pen_relax_step(n: int, seg: Seq<usize>, left: Option<usize>, len: int, w: Seq<i64>, pos: Seq<usize>,
    lambda: int, states: int, dp0: Seq<i64>, dp1: Seq<i64>, cur: usize, last: int)
    requires
        pen_input(n, seg, len, w, pos, lambda),
        states == (1usize << (len as usize)),
        1 <= cur < states,
        0 <= last < len,
        dp0.len() == states * len,
        dp1.len() == dp0.len(),
        forall|i: int| 0 <= i < dp0.len() ==> #[trigger] dp1[i] >= dp0[i],
        pen_complete(n, seg, left, len, w, pos, lambda, dp0, cur as int),
        pen_partial(n, seg, left, len, w, pos, lambda, dp0, cur as int, last),
        dp0[slot(cur as int, last, len)] != NEG_INF && ubit(cur, last) ==>
            forall|x: int| 0 <= x < len && !ubit(cur, x) ==>
                #[trigger] dp1[slot((cur | (1usize << (x as usize))) as int, x, len)]
                    >= dp0[slot(cur as int, last, len)] + pos[ones_usize(cur, len) as int] * w[seg[x] as int]
                        - lambda * vio(n, seg[last] as int, seg[x] as int),
    ensures
        pen_complete(n, seg, left, len, w, pos, lambda, dp1, cur as int),
        pen_partial(n, seg, left, len, w, pos, lambda, dp1, cur as int, last + 1),
{
    lemma_pen_complete_mono(n, seg, left, len, w, pos, lambda, states, dp0, dp1, cur as int, last);
    assert forall|p: Seq<int>| #[trigger] pen_step_path(len, p, cur as int, last + 1)
        implies pen_dominates(n, seg, left, len, w, pos, lambda, dp1, p) by {
        if p[p.len() - 2] < last {
            assert(pen_step_path(len, p, cur as int, last));
        } else {
            let q = p.drop_last();
            let x = p.last();
            lemma_pen_path_facts(len, p, states);
            assert(pen_path(len, q)) by {
                assert forall|a: int, b: int| 0 <= a < b < q.len() implies q[a] != q[b] by {
                    assert(p[a] != p[b]);
                }
            }
            lemma_mask_of(len, q);
            lemma_pen_path_facts(len, q, states);
            assert(q.last() == last);
            assert(q.contains(last));
            assert(!q.contains(x)) by {
                if q.contains(x) {
                    let j = choose|j: int| 0 <= j < q.len() && q[j] == x;
                    assert(p[j] == p[p.len() - 1]);
                }
            }
            assert(0 <= x < len);
            if q.len() >= 2 {
                let q2 = q.drop_last();
                assert(distinct_below(len, q2)) by {
                    assert forall|a: int, b: int| 0 <= a < b < q2.len() implies q2[a] != q2[b] by {
                        assert(q[a] != q[b]);
                    }
                }
                lemma_mask_of(len, q2);
                assert(!q2.contains(last)) by {
                    if q2.contains(last) {
                        let j = choose|j: int| 0 <= j < q2.len() && q2[j] == last;
                        assert(q[j] == q[q.len() - 1]);
                    }
                }
                lemma_bit_order(mask_of(q2), last as usize);
            }
            assert(pen_reached(len, q, cur as int));
            assert(pen_dominates(n, seg, left, len, w, pos, lambda, dp0, q));
            lemma_pen_value_bound(n, seg, left, w, pos, lambda, q);
            assert(q.len() * 2_000_000_000_000 <= 12 * 2_000_000_000_000) by (nonlinear_arith) requires q.len() <= 12;
            assert(dp0[slot(cur as int, last, len)] != NEG_INF);
            assert(dp1[slot((cur | (1usize << (x as usize))) as int, x, len)]
                >= dp0[slot(cur as int, last, len)] + pos[ones_usize(cur, len) as int] * w[seg[x] as int]
                    - lambda * vio(n, seg[last] as int, seg[x] as int));
            assert(p.drop_last() == q);
            assert(mask_of(p) == cur | (1usize << (x as usize)));
            assert(step_vio(n, seg, left, p, p.len() - 1) == vio(n, seg[last] as int, seg[x] as int));
        }
    }
}

/// Once every subset below `cur` has been relaxed from all its last cells,
/// the paths reached below `cur + 1` are dominated.
proof fn lemma_pen_complete_next(n: int, seg: Seq<usize>, left: Option<usize>, len: int, w: Seq<i64>, pos: Seq<usize>,
    lambda: int, dp: Seq<i64>, cur: int)
    requires
        pen_complete(n, seg, left, len, w, pos, lambda, dp, cur),
        pen_partial(n, seg, left, len, w, pos, lambda, dp, cur, len),
    ensures
        pen_complete(n, seg, left, len, w, pos, lambda, dp, cur + 1),
{
    assert forall|p: Seq<int>| #[trigger] pen_reached(len, p, cur + 1) implies pen_dominates(n, seg, left, len, w, pos, lambda, dp, p) by {
        if p.len() == 1 || mask_of(p.drop_last()) < cur {
            assert(pen_reached(len, p, cur));
        } else {
            assert(0 <= p[p.len() - 2] < len);
            assert(pen_step_path(len, p, cur, len));
        }
    }
}

/// The seed entry of window cell `x` holds at least the value of the
/// one-cell path `[x]`.
pub open spec fn pen_seed_dom(n: int, seg: Seq<usize>, left: Option<usize>, len: int, w: Seq<i64>, pos: Seq<usize>,
    lambda: int, dp: Seq<i64>, x: int) -> bool {
    dp[slot((1usize << (x as usize)) as int, x, len)] >= pen_value(n, seg, left, w, pos, lambda, seq![x])
}

/// What the penalized table filling relies on.
pub open spec fn pen_input(n: int, seg: Seq<usize>, len: int, w: Seq<i64>, pos: Seq<usize>, lambda: int) -> bool {
    &&& window_input(n, seg, len, w, pos)
    &&& 0 <= lambda <= 1_000_000_000_000
}

/// A penalized path value is within `len * 2 * 10^12`.
pub(crate) proof fn lemma_pen_value_bound(n: int, seg: Seq<usize>, left: Option<usize>, w: Seq<i64>, pos: Seq<usize>,
    lambda: int, path: Seq<int>)
    requires
        path.len() <= pos.len(),
        0 <= lambda <= 1_000_000_000_000,
        forall|k: int| 0 <= k < path.len() ==> #[trigger] pos[k] <= MAX_CELLS,
        forall|k: int| 0 <= k < path.len() ==> 0 <= #[trigger] path[k] < seg.len(),
        cells_in(seg, w.len() as int),
        weights_bounded(w),
    ensures
        -(path.len() * 2_000_000_000_000) <= pen_value(n, seg, left, w, pos, lambda, path) <= path.len() * 2_000_000_000_000,
    decreases path.len(),
{
    if path.len() > 0 {
        let q = path.drop_last();
        assert forall|k: int| 0 <= k < q.len() implies 0 <= #[trigger] q[k] < seg.len() by {
            assert(q[k] == path[k]);
        }
        lemma_pen_value_bound(n, seg, left, w, pos, lambda, q);
        assert(pen_value(n, seg, left, w, pos, lambda, q) == pen_value(n, seg, left, w, pos, lambda, path.drop_last()));
        let x = w[seg[path.last()] as int];
        let t = pos[path.len() - 1] as int;
        assert(-(MAX_CELLS * MAX_WEIGHT) <= t * x <= MAX_CELLS * MAX_WEIGHT) by (nonlinear_arith)
            requires 0 <= t <= MAX_CELLS, -MAX_WEIGHT <= x <= MAX_WEIGHT;
        let v = step_vio(n, seg, left, path, path.len() - 1);
        assert(0 <= v <= 1);
        assert(0 <= lambda * v <= lambda) by (nonlinear_arith) requires 0 <= v <= 1, 0 <= lambda;
        assert(q.len() * 2_000_000_000_000 + 2_000_000_000_000 == path.len() * 2_000_000_000_000) by (nonlinear_arith)
            requires q.len() + 1 == path.len();
    }
}

/// Extending a realised entry by a fresh cell realises the entry of the
/// larger subset.
proof fn lemma_pen_extend(n: int, seg: Seq<usize>, left: Option<usize>, len: int, w: Seq<i64>, pos: Seq<usize>, lambda: int,
    mask: usize, last: int, path: Seq<int>, value: int, nxt: int, next_mask: usize, next_value: int)
    requires
        1 <= len <= 12,
        pen_slot_ok(n, seg, left, len, w, pos, lambda, mask, last, path, value),
        0 <= nxt < len,
        !ubit(mask, nxt),
        next_mask == mask | (1usize << (nxt as usize)),
        next_value == value + pos[ones_usize(mask, len) as int] * w[seg[nxt] as int] - lambda * vio(n, seg[last] as int, seg[nxt] as int),
    ensures
        pen_slot_ok(n, seg, left, len, w, pos, lambda, next_mask, nxt, path.push(nxt), next_value),
{
    let p = path.push(nxt);
    assert(!path.contains(nxt));
    assert forall|i: int| 0 <= i < len implies (ubit(next_mask, i) <==> p.contains(i)) by {
        lemma_bit_set(mask, nxt as usize, i as usize);
        if i == nxt {
            assert(p[p.len() - 1] == i);
        }
        if path.contains(i) {
            let k = choose|k: int| 0 <= k < path.len() && path[k] == i;
            assert(p[k] == i);
        }
        if p.contains(i) && i != nxt {
            let k = choose|k: int| 0 <= k < p.len() && p[k] == i;
            assert(k < path.len());
            assert(path[k] == i);
        }
    }
    lemma_ones_set(mask, nxt, len);
    assert(p.drop_last() =~= path);
    assert forall|a: int, b: int| 0 <= a < p.len() && 0 <= b < p.len() && a != b implies p[a] != p[b] by {
        if a < path.len() && b < path.len() {
            assert(p[a] == path[a] && p[b] == path[b]);
        } else if a < path.len() {
            assert(p[a] == path[a]);
            assert(path.contains(path[a]));
        } else {
            assert(p[b] == path[b]);
            assert(path.contains(path[b]));
        }
    }
    assert(p[p.len() - 2] == last);
    assert(step_vio(n, seg, left, p, p.len() - 1) == vio(n, seg[last] as int, seg[nxt] as int));
}

/// Writing a realised entry for a subset not yet expanded keeps the tables
/// consistent.
proof fn lemma_pen_table_write(n: int, seg: Seq<usize>, left: Option<usize>, len: int, w: Seq<i64>, pos: Seq<usize>, lambda: int,
    states: int, cur: int, old_dp: Seq<i64>, old_parent: Seq<u8>, old_paths: Seq<Seq<int>>,
    dp: Seq<i64>, parent: Seq<u8>, paths: Seq<Seq<int>>, dm: int, dl: int, p: Seq<int>, value: i64, par: u8)
    requires
        1 <= len <= 12,
        1 <= states,
        pen_table_ok(n, seg, left, len, w, pos, lambda, states, old_dp, old_parent, old_paths, cur),
        0 <= dm < states,
        cur <= dm,
        0 <= dl < len,
        dp == old_dp.update(slot(dm, dl, len), value),
        parent == old_parent.update(slot(dm, dl, len), par),
        paths == old_paths.update(slot(dm, dl, len), p),
        value != NEG_INF,
        pen_slot_ok(n, seg, left, len, w, pos, lambda, dm as usize, dl, p, value as int),
        p.len() >= 2,
        ({
            let src = ((dm as usize) ^ (1usize << (dl as usize))) as int;
            &&& 0 <= par < len
            &&& 0 <= src < cur
            &&& old_dp[slot(src, par as int, len)] != NEG_INF
            &&& old_paths[slot(src, par as int, len)] == p.drop_last()
        }),
    ensures
        pen_table_ok(n, seg, left, len, w, pos, lambda, states, dp, parent, paths, cur),
{
    lemma_slot(dm, dl, len, states);
    let src = ((dm as usize) ^ (1usize << (dl as usize))) as int;
    lemma_slot(src, par as int, len, states);
    assert forall|m: int, l: int| 0 <= m < states && 0 <= l < len implies
        #[trigger] pen_cell_ok(n, seg, left, len, w, pos, lambda, dp, parent, paths, m, l, cur) by {
        assert(pen_cell_ok(n, seg, left, len, w, pos, lambda, old_dp, old_parent, old_paths, m, l, cur));
        lemma_slot(m, l, len, states);
        let s = slot(m, l, len);
        if s != slot(dm, dl, len) {
            if old_dp[s] != NEG_INF && old_paths[s].len() >= 2 {
                let sm = ((m as usize) ^ (1usize << (l as usize))) as int;
                let pp = old_parent[s] as int;
                lemma_slot(sm, pp, len, states);
            }
        }
    }
}

proof fn lemma_pen_table_cur(n: int, seg: Seq<usize>, left: Option<usize>, len: int, w: Seq<i64>, pos: Seq<usize>, lambda: int,
    states: int, dp: Seq<i64>, parent: Seq<u8>, paths: Seq<Seq<int>>, cur: int, cur2: int)
    requires
        pen_table_ok(n, seg, left, len, w, pos, lambda, states, dp, parent, paths, cur),
        cur <= cur2,
    ensures
        pen_table_ok(n, seg, left, len, w, pos, lambda, states, dp, parent, paths, cur2),
{
    assert forall|m: int, l: int| 0 <= m < states && 0 <= l < len implies
        #[trigger] pen_cell_ok(n, seg, left, len, w, pos, lambda, dp, parent, paths, m, l, cur2) by {
        assert(pen_cell_ok(n, seg, left, len, w, pos, lambda, dp, parent, paths, m, l, cur));
    }
}

/// Tries every fresh cell after entry `(mask, last)` and keeps the better
/// values in the entries of the larger subsets.
fn pen_relax_entry(seg: &Vec<usize>, left: Ghost<Option<usize>>, n: usize, weights: &[i64], pos_list: &Vec<usize>, len: usize,
    lambda: i64, states: usize, mask: usize, last: usize, dp: &mut Vec<i64>, parent: &mut Vec<u8>, paths: Ghost<Seq<Seq<int>>>)
    -> (res: Ghost<Seq<Seq<int>>>)
    requires
        pen_input(n as int, seg@, len as int, weights@, pos_list@, lambda as int),
        states == (1usize << len),
        1 <= states <= 4096,
        1 <= mask < states,
        last < len,
        pen_table_ok(n as int, seg@, left@, len as int, weights@, pos_list@, lambda as int, states as int, old(dp)@, old(parent)@, paths@, mask + 1),
    ensures
        pen_table_ok(n as int, seg@, left@, len as int, weights@, pos_list@, lambda as int, states as int, final(dp)@, final(parent)@, res@, mask + 1),
        forall|i: int| 0 <= i < old(dp)@.len() ==> #[trigger] final(dp)@[i] >= old(dp)@[i],
        old(dp)@[slot(mask as int, last as int, len as int)] != NEG_INF && ubit(mask, last as int) ==>
            forall|x: int| 0 <= x < len && !ubit(mask, x) ==>
                #[trigger] final(dp)@[slot((mask | (1usize << (x as usize))) as int, x, len as int)]
                    >= old(dp)@[slot(mask as int, last as int, len as int)] + pos_list@[ones_usize(mask, len as int) as int] * weights@[seg@[x] as int]
                        - lambda * vio(n as int, seg@[last as int] as int, seg@[x] as int),
{
    let ghost dp0 = dp@;
    let ghost sg = seg@;
    let ghost w = weights@;
    let ghost lf = left@;
    let ghost lam = lambda as int;
    let ghost mut pt = paths@;
    let width = len;
    proof {
        assert(states * len <= 49152) by (nonlinear_arith) requires states <= 4096, len <= 12;
        lemma_slot(mask as int, last as int, len as int, states as int);
        assert(pen_cell_ok(n as int, sg, lf, len as int, w, pos_list@, lam, dp@, parent@, pt, mask as int, last as int, mask + 1));
    }
    let src = mask * width + last;
    let cur = dp[src];
    proof {
        lemma_bit_set(mask, last, last);
    }
    if cur == NEG_INF || (mask & (1usize << last)) == 0 {
        return Ghost(pt);
    }
    let used = mask.count_ones() as usize;
    proof {
        lemma_ones_upper(mask, len as int, usize::BITS as int);
        lemma_ones_bound(mask, len as int);
    }
    if used >= len {
        proof {
            lemma_ones_all(mask, len as int);
        }
        return Ghost(pt);
    }
    let ghost src_path = pt[src as int];
    proof {
        lemma_pen_value_bound(n as int, sg, lf, w, pos_list@, lam, src_path);
        assert(src_path.len() * 2_000_000_000_000 <= 12 * 2_000_000_000_000) by (nonlinear_arith)
            requires src_path.len() <= 12;
    }
    let next_pos = pos_list[used];
    let mut nxt: usize = 0;
    while nxt < len
        invariant
            pen_input(n as int, sg, len as int, w, pos_list@, lam),
            sg == seg@,
            w == weights@,
            lam == lambda,
            width == len,
            states == (1usize << len),
            1 <= states <= 4096,
            states * len <= 49152,
            1 <= mask < states,
            last < len,
            src == slot(mask as int, last as int, len as int),
            src < states * len,
            used == ones_usize(mask, len as int),
            used < len,
            next_pos == pos_list@[used as int],
            pos_list@[used as int] <= MAX_CELLS,
            nxt <= len,
            cur != NEG_INF,
            dp@[src as int] == cur,
            pt[src as int] == src_path,
            pen_slot_ok(n as int, sg, lf, len as int, w, pos_list@, lam, mask, last as int, src_path, cur as int),
            -(12 * 2_000_000_000_000) <= cur <= 12 * 2_000_000_000_000,
            pen_table_ok(n as int, sg, lf, len as int, w, pos_list@, lam, states as int, dp@, parent@, pt, mask + 1),
            dp0.len() == dp@.len(),
            dp0[src as int] == cur,
            forall|i: int| 0 <= i < dp0.len() ==> #[trigger] dp@[i] >= dp0[i],
            forall|x: int| 0 <= x < nxt && !ubit(mask, x) ==>
                #[trigger] dp@[slot((mask | (1usize << (x as usize))) as int, x, len as int)]
                    >= cur + next_pos * w[sg[x] as int] - lambda * vio(n as int, sg[last as int] as int, sg[x] as int),
        decreases len - nxt,
    {
        proof {
            lemma_bit_set(mask, nxt, nxt);
        }
        if (mask & (1usize << nxt)) == 0 {
            let next_mask = mask | (1usize << nxt);
            proof {
                lemma_bit_set(mask, nxt, nxt);
                lemma_bit_order(mask, nxt);
                lemma_bit_range(mask, len, nxt, len);
                lemma_slot(next_mask as int, nxt as int, len as int, states as int);
                let x = w[sg[nxt as int] as int];
                let t = next_pos as int;
                assert(-(MAX_CELLS * MAX_WEIGHT) <= t * x <= MAX_CELLS * MAX_WEIGHT) by (nonlinear_arith)
                    requires 0 <= t <= MAX_CELLS, -MAX_WEIGHT <= x <= MAX_WEIGHT;
            }
            let cost = violation_cost(seg[last], seg[nxt], n);
            proof {
                assert(0 <= lambda * cost <= lambda) by (nonlinear_arith) requires 0 <= cost <= 1, 0 <= lambda;
            }
            let next_value = cur + next_pos as i64 * weights[seg[nxt]] - lambda * cost;
            let dst = next_mask * width + nxt;
            if next_value > dp[dst] {
                let ghost old_dp = dp@;
                let ghost old_parent = parent@;
                let ghost old_paths = pt;
                dp.set(dst, next_value);
                parent.set(dst, last as u8);
                proof {
                    let p = src_path.push(nxt as int);
                    pt = pt.update(dst as int, p);
                    lemma_pen_extend(n as int, sg, lf, len as int, w, pos_list@, lam, mask, last as int,
                        src_path, cur as int, nxt as int, next_mask, next_value as int);
                    lemma_bit_set(next_mask, nxt, nxt);
                    assert(p.drop_last() =~= src_path);
                    lemma_pen_table_write(n as int, sg, lf, len as int, w, pos_list@, lam, states as int, mask + 1,
                        old_dp, old_parent, old_paths, dp@, parent@, pt, next_mask as int, nxt as int, p,
                        next_value, last as u8);
                    assert forall|i: int| 0 <= i < dp0.len() implies #[trigger] dp@[i] >= dp0[i] by {
                        assert(dp@[i] >= old_dp[i]);
                    }
                    assert forall|x: int| 0 <= x < nxt && !ubit(mask, x) implies
                        #[trigger] dp@[slot((mask | (1usize << (x as usize))) as int, x, len as int)]
                            >= cur + next_pos * w[sg[x] as int] - lambda * vio(n as int, sg[last as int] as int, sg[x] as int) by {
                        let d = slot((mask | (1usize << (x as usize))) as int, x, len as int);
                        lemma_bit_range(mask, len, x as usize, len);
                        lemma_slot((mask | (1usize << (x as usize))) as int, x, len as int, states as int);
                        assert(dp@[d] >= old_dp[d]);
                    }
                }
            }
        }
        nxt += 1;
    }
    Ghost(pt)
}

/// Entry `(m, l)` is unreachable or realised by a one-cell path.
pub open spec fn pen_seed_ok(n: int, seg: Seq<usize>, left: Option<usize>, len: int, w: Seq<i64>, pos: Seq<usize>, lambda: int,
    dp: Seq<i64>, paths: Seq<Seq<int>>, m: int, l: int) -> bool {
    pen_entry_ok(n, seg, left, len, w, pos, lambda, dp, paths, m, l)
    && (dp[slot(m, l, len)] != NEG_INF ==> paths[slot(m, l, len)].len() == 1)
}

/// The tables after seeding the one-cell entries.
pub open spec fn pen_seeded_ok(n: int, seg: Seq<usize>, left: Option<usize>, len: int, w: Seq<i64>, pos: Seq<usize>, lambda: int,
    states: int, dp: Seq<i64>, paths: Seq<Seq<int>>) -> bool {
    &&& dp.len() == states * len
    &&& paths.len() == states * len
    &&& forall|m: int, l: int| 0 <= m < states && 0 <= l < len ==>
        #[trigger] pen_seed_ok(n, seg, left, len, w, pos, lambda, dp, paths, m, l)
}

proof fn lemma_pen_seed_write(n: int, seg: Seq<usize>, left: Option<usize>, len: int, w: Seq<i64>, pos: Seq<usize>, lambda: int,
    states: int, old_dp: Seq<i64>, old_paths: Seq<Seq<int>>, dp: Seq<i64>, paths: Seq<Seq<int>>,
    first: int, value: i64)
    requires
        1 <= len <= 12,
        1 <= states,
        pen_seeded_ok(n, seg, left, len, w, pos, lambda, states, old_dp, old_paths),
        0 <= first < len,
        (1usize << (first as usize)) < states,
        dp == old_dp.update(slot((1usize << (first as usize)) as int, first, len), value),
        paths == old_paths.update(slot((1usize << (first as usize)) as int, first, len), seq![first]),
        value != NEG_INF,
        pen_slot_ok(n, seg, left, len, w, pos, lambda, 1usize << (first as usize), first, seq![first], value as int),
    ensures
        pen_seeded_ok(n, seg, left, len, w, pos, lambda, states, dp, paths),
{
    let mask = (1usize << (first as usize)) as int;
    lemma_slot(mask, first, len, states);
    assert forall|m: int, l: int| 0 <= m < states && 0 <= l < len implies
        #[trigger] pen_seed_ok(n, seg, left, len, w, pos, lambda, dp, paths, m, l) by {
        assert(pen_seed_ok(n, seg, left, len, w, pos, lambda, old_dp, old_paths, m, l));
        lemma_slot(m, l, len, states);
    }
}

proof fn lemma_pen_seeded_table(n: int, seg: Seq<usize>, left: Option<usize>, len: int, w: Seq<i64>, pos: Seq<usize>, lambda: int,
    states: int, dp: Seq<i64>, parent: Seq<u8>, paths: Seq<Seq<int>>)
    requires
        pen_seeded_ok(n, seg, left, len, w, pos, lambda, states, dp, paths),
        parent.len() == states * len,
    ensures
        pen_table_ok(n, seg, left, len, w, pos, lambda, states, dp, parent, paths, 1),
{
    assert forall|m: int, l: int| 0 <= m < states && 0 <= l < len implies
        #[trigger] pen_cell_ok(n, seg, left, len, w, pos, lambda, dp, parent, paths, m, l, 1) by {
        assert(pen_seed_ok(n, seg, left, len, w, pos, lambda, dp, paths, m, l));
    }
}

/// Fills the table of best penalized values over subsets of the window
/// cells `seg[..len]` (entry `(mask, last)`: the best way to visit the cells
/// of `mask` from steps `pos[0], pos[1], ...` after `left`, ending at
/// `seg[last]`) and the table of predecessors.
pub(crate) fn fill_penalty_table(seg: &Vec<usize>, left: Option<usize>, n: usize, weights: &[i64], pos_list: &Vec<usize>,
    len: usize, lambda: i64) -> (res: (Vec<i64>, Vec<u8>, Ghost<Seq<Seq<int>>>))
    requires
        pen_input(n as int, seg@, len as int, weights@, pos_list@, lambda as int),
    ensures
        1 <= (1usize << len) <= 4096,
        pen_table_ok(n as int, seg@, left, len as int, weights@, pos_list@, lambda as int, (1usize << len) as int,
            res.0@, res.1@, res.2@, (1usize << len) as int),
        pen_complete(n as int, seg@, left, len as int, weights@, pos_list@, lambda as int, res.0@, (1usize << len) as int),
{
    let states = 1usize << len;
    proof {
        lemma_states(len);
        assert(states * len <= 49152) by (nonlinear_arith) requires states <= 4096, len <= 12;
    }
    let width = len;
    let mut dp: Vec<i64> = vec![NEG_INF; states * width];
    let mut parent: Vec<u8> = vec![u8::MAX; states * width];
    let ghost mut paths: Seq<Seq<int>> = Seq::new((states * width) as nat, |i: int| Seq::<int>::empty());
    let ghost sg = seg@;
    let ghost w = weights@;
    let ghost lam = lambda as int;
    proof {
        assert forall|m: int, l: int| 0 <= m < states && 0 <= l < len implies
            #[trigger] pen_seed_ok(n as int, sg, left, len as int, w, pos_list@, lam, dp@, paths, m, l) by {
            lemma_slot(m, l, len as int, states as int);
        }
    }
    let mut first: usize = 0;
    while first < len
        invariant
            pen_input(n as int, sg, len as int, w, pos_list@, lam),
            width == len,
            sg == seg@,
            w == weights@,
            lam == lambda,
            states == (1usize << len),
            1 <= states <= 4096,
            states * width <= 49152,
            first <= len,
            parent@.len() == states * width,
            pen_seeded_ok(n as int, sg, left, len as int, w, pos_list@, lam, states as int, dp@, paths),
            forall|x: int| 0 <= x < first ==> #[trigger] pen_seed_dom(n as int, sg, left, len as int, w, pos_list@, lam, dp@, x),
        decreases len - first,
    {
        let mask = 1usize << first;
        proof {
            lemma_bit_range(0, len, first, len);
            lemma_slot(mask as int, first as int, len as int, states as int);
            lemma_ones_single(first as int, len as int);
            let x = w[sg[first as int] as int];
            let t = pos_list@[0] as int;
            assert(-(MAX_CELLS * MAX_WEIGHT) <= t * x <= MAX_CELLS * MAX_WEIGHT) by (nonlinear_arith)
                requires 0 <= t <= MAX_CELLS, -MAX_WEIGHT <= x <= MAX_WEIGHT;
        }
        let idx = mask * width + first;
        let cost = match left {
            Some(c) => violation_cost(c, seg[first], n),
            None => 0,
        };
        proof {
            assert(0 <= lambda * cost <= lambda) by (nonlinear_arith) requires 0 <= cost <= 1, 0 <= lambda;
        }
        let value = pos_list[0] as i64 * weights[seg[first]] - lambda * cost;
        let ghost old_dp = dp@;
        let ghost old_paths = paths;
        dp.set(idx, value);
        proof {
            let p = seq![first as int];
            paths = paths.update(idx as int, p);
            assert(p.drop_last() =~= Seq::<int>::empty());
            assert forall|i: int| 0 <= i < len implies (ubit(mask, i) <==> p.contains(i)) by {
                lemma_bit_set(0, first, i as usize);
                if i == first {
                    assert(p[0] == i);
                }
            }
            assert(pen_path(len as int, p));
            assert(pen_value(n as int, sg, left, w, pos_list@, lam, p.drop_last()) == 0);
            assert(step_vio(n as int, sg, left, p, 0) == cost);
            assert(pen_value(n as int, sg, left, w, pos_list@, lam, p) == value);
            lemma_pen_seed_write(n as int, sg, left, len as int, w, pos_list@, lam, states as int, old_dp, old_paths,
                dp@, paths, first as int, value);
            assert forall|x: int| 0 <= x < first + 1 implies #[trigger] pen_seed_dom(n as int, sg, left, len as int, w, pos_list@, lam, dp@, x) by {
                if x < first {
                    assert(pen_seed_dom(n as int, sg, left, len as int, w, pos_list@, lam, old_dp, x));
                    lemma_bit_range(0, len, x as usize, len);
                    lemma_slot((1usize << (x as usize)) as int, x, len as int, states as int);
                    assert(slot((1usize << (x as usize)) as int, x, len as int) != idx);
                } else {
                    assert(seq![x] =~= p);
                }
            }
        }
        first += 1;
    }
    proof {
        lemma_pen_seeded_table(n as int, sg, left, len as int, w, pos_list@, lam, states as int, dp@, parent@, paths);
        assert forall|p: Seq<int>| #[trigger] pen_reached(len as int, p, 1) implies
            pen_dominates(n as int, sg, left, len as int, w, pos_list@, lam, dp@, p) by {
            if p.len() == 1 {
                let x = p[0];
                assert(p =~= seq![x]);
                assert(p.drop_last() =~= Seq::<int>::empty());
                lemma_zero_bits(x as usize);
                assert(mask_of(Seq::<int>::empty()) == 0usize);
                assert(mask_of(p) == (1usize << (x as usize)));
                assert(p.last() == x);
                assert(pen_seed_dom(n as int, sg, left, len as int, w, pos_list@, lam, dp@, x));
            } else {
                let q = p.drop_last();
                assert(distinct_below(len as int, q)) by {
                    assert forall|a: int, b: int| 0 <= a < b < q.len() implies q[a] != q[b] by {
                        assert(p[a] != p[b]);
                    }
                }
                lemma_mask_of(len as int, q);
                assert(q.contains(q.last()));
                assert(0 <= q.last() < 12);
                lemma_zero_bits(q.last() as usize);
                assert(ubit(mask_of(q), q.last()));
                assert(mask_of(q) != 0usize);
                assert(false);
            }
        }
    }
    let mut mask: usize = 1;
    while mask < states
        invariant
            pen_input(n as int, sg, len as int, w, pos_list@, lam),
            sg == seg@,
            w == weights@,
            lam == lambda,
            states == (1usize << len),
            1 <= states <= 4096,
            1 <= mask <= states,
            pen_table_ok(n as int, sg, left, len as int, w, pos_list@, lam, states as int, dp@, parent@, paths, mask as int),
            pen_complete(n as int, sg, left, len as int, w, pos_list@, lam, dp@, mask as int),
        decreases states - mask,
    {
        proof {
            lemma_pen_table_cur(n as int, sg, left, len as int, w, pos_list@, lam, states as int, dp@, parent@, paths, mask as int, mask + 1);
        }
        let mut last: usize = 0;
        while last < len
            invariant
                pen_input(n as int, sg, len as int, w, pos_list@, lam),
                sg == seg@,
                w == weights@,
                lam == lambda,
                states == (1usize << len),
                1 <= states <= 4096,
                1 <= mask < states,
                last <= len,
                pen_table_ok(n as int, sg, left, len as int, w, pos_list@, lam, states as int, dp@, parent@, paths, mask + 1),
                pen_complete(n as int, sg, left, len as int, w, pos_list@, lam, dp@, mask as int),
                pen_partial(n as int, sg, left, len as int, w, pos_list@, lam, dp@, mask as int, last as int),
            decreases len - last,
        {
            let ghost dp_before = dp@;
            let pg = pen_relax_entry(seg, Ghost(left), n, weights, pos_list, len, lambda, states, mask, last, &mut dp, &mut parent, Ghost(paths));
            proof {
                paths = pg@;
                lemma_pen_relax_step(n as int, sg, left, len as int, w, pos_list@, lam, states as int, dp_before, dp@, mask, last as int);
            }
            last += 1;
        }
        proof {
            lemma_pen_complete_next(n as int, sg, left, len as int, w, pos_list@, lam, dp@, mask as int);
        }
        mask += 1;
    }
    (dp, parent, Ghost(paths))
}

/// Follows the predecessors back from entry `(full, best_last)`: the
/// returned order starts with the path recorded for that entry.
fn pen_trace_back(parent: &Vec<u8>, n: Ghost<int>, seg: Ghost<Seq<usize>>, left: Ghost<Option<usize>>, w: Ghost<Seq<i64>>,
    posg: Ghost<Seq<usize>>, lambda: Ghost<int>, dp: Ghost<Seq<i64>>, paths: Ghost<Seq<Seq<int>>>, len: usize, states: usize,
    best_last: usize) -> (order: Vec<usize>)
    requires
        1 <= len <= MAX_WINDOW,
        states == (1usize << len),
        1 <= states <= 4096,
        best_last < len,
        pen_table_ok(n@, seg@, left@, len as int, w@, posg@, lambda@, states as int, dp@, parent@, paths@, states as int),
        dp@[slot(states - 1, best_last as int, len as int)] != NEG_INF,
    ensures
        order@.len() == MAX_WINDOW,
        paths@[slot(states - 1, best_last as int, len as int)].len() == len,
        forall|k: int| 0 <= k < len ==> #[trigger] order@[k] == paths@[slot(states - 1, best_last as int, len as int)][k],
{
    let ghost pt = paths@;
    let ghost target = pt[slot(states - 1, best_last as int, len as int)];
    let full = states - 1;
    let width = len;
    proof {
        lemma_states(len);
        lemma_slot(full as int, best_last as int, len as int, states as int);
        assert(pen_cell_ok(n@, seg@, left@, len as int, w@, posg@, lambda@, dp@, parent@, pt, full as int, best_last as int, states as int));
        lemma_ones_full(len as int, full, len as int);
        assert(states * len <= 49152) by (nonlinear_arith) requires states <= 4096, len <= 12;
        assert(target.subrange(0, len as int) =~= target);
    }
    let mut order: Vec<usize> = vec![0usize; MAX_WINDOW];
    let mut mask = full;
    let mut last = best_last;
    let mut pos = len - 1;
    while pos > 0
        invariant
            1 <= len <= MAX_WINDOW,
            width == len,
            states == (1usize << len),
            1 <= states <= 4096,
            states * len <= 49152,
            pen_table_ok(n@, seg@, left@, len as int, w@, posg@, lambda@, states as int, dp@, parent@, pt, states as int),
            target.len() == len,
            pos < len,
            mask < states,
            last < len,
            dp@[slot(mask as int, last as int, len as int)] != NEG_INF,
            pt[slot(mask as int, last as int, len as int)] == target.subrange(0, pos + 1),
            order@.len() == MAX_WINDOW,
            forall|k: int| pos < k < len ==> order@[k] == #[trigger] target[k],
        decreases pos,
    {
        proof {
            lemma_slot(mask as int, last as int, len as int, states as int);
            assert(pen_cell_ok(n@, seg@, left@, len as int, w@, posg@, lambda@, dp@, parent@, pt, mask as int, last as int, states as int));
            assert(target.subrange(0, pos + 1).last() == target[pos as int]);
        }
        order.set(pos, last);
        let prev = parent[mask * width + last];
        proof {
            let src = ((mask as usize) ^ (1usize << (last as usize))) as int;
            assert(target.subrange(0, pos + 1).drop_last() =~= target.subrange(0, pos as int));
            lemma_slot(src, prev as int, len as int, states as int);
        }
        mask = mask ^ (1usize << last);
        last = prev as usize;
        pos -= 1;
    }
    proof {
        lemma_slot(mask as int, last as int, len as int, states as int);
        assert(pen_cell_ok(n@, seg@, left@, len as int, w@, posg@, lambda@, dp@, parent@, pt, mask as int, last as int, states as int));
        assert(target.subrange(0, 1).last() == target[0]);
    }
    order.set(0, last);
    order
}

/// Largest window of the penalty repair.
pub const REPAIR_WINDOW: usize = 9;

/// A reordering of `len` route cells from `start` on, and the change in
/// penalized objective it brings.
#[derive(Debug, Clone, Copy)]
pub struct WindowRepair {
    pub start: usize,
    pub len: usize,
    pub cells: [usize; 9],
    pub delta_obj: i64,
}

/// The window order `0, 1, ..., k - 1`.
pub open spec fn ident(k: int) -> Seq<int> {
    Seq::new(k as nat, |i: int| i)
}

/// The penalized value of the window visited in `path` order, including
/// the step out to `right` when there is one.
pub open spec fn window_obj(n: int, seg: Seq<usize>, left: Option<usize>, right: Option<usize>, w: Seq<i64>, pos: Seq<usize>,
    lambda: int, path: Seq<int>) -> int {
    pen_value(n, seg, left, w, pos, lambda, path) - lambda * match right {
        Some(c) => vio(n, seg[path.last()] as int, c as int),
        None => 0,
    }
}

/// Raw part of the window in its own order, over the first `k` cells.
pub open spec fn ident_raw(seg: Seq<usize>, w: Seq<i64>, pos: Seq<usize>, k: int) -> int
    decreases k,
{
    if k <= 0 { 0 } else { ident_raw(seg, w, pos, k - 1) + pos[k - 1] * w[seg[k - 1] as int] }
}

/// Breaks of the window in its own order, over the steps into the first `k` cells.
pub open spec fn ident_vio(n: int, seg: Seq<usize>, left: Option<usize>, k: int) -> int
    decreases k,
{
    if k <= 0 { 0 } else if k == 1 {
        match left { Some(c) => vio(n, c as int, seg[0] as int), None => 0 }
    } else {
        ident_vio(n, seg, left, k - 1) + vio(n, seg[k - 2] as int, seg[k - 1] as int)
    }
}

proof fn lemma_ident_value(n: int, seg: Seq<usize>, left: Option<usize>, w: Seq<i64>, pos: Seq<usize>, lambda: int, k: int)
    requires
        0 <= k,
    ensures
        pen_value(n, seg, left, w, pos, lambda, ident(k)) == ident_raw(seg, w, pos, k) - lambda * ident_vio(n, seg, left, k),
    decreases k,
{
    if k > 0 {
        lemma_ident_value(n, seg, left, w, pos, lambda, k - 1);
        assert(ident(k).drop_last() =~= ident(k - 1));
        assert(lambda * ident_vio(n, seg, left, k) == lambda * ident_vio(n, seg, left, k - 1)
            + lambda * step_vio(n, seg, left, ident(k), k - 1)) by (nonlinear_arith)
            requires ident_vio(n, seg, left, k) == ident_vio(n, seg, left, k - 1) + step_vio(n, seg, left, ident(k), k - 1);
    }
}

/// The window `route[start..start + len]`, the cells around it, and the
/// steps of its cells.
pub open spec fn window_parts(route: Seq<usize>, start: int, len: int) -> (Seq<usize>, Option<usize>, Option<usize>, Seq<usize>) {
    let seg = Seq::new(MAX_WINDOW as nat, |i: int| if i < len { route[start + i] } else { 0usize });
    let left = if start > 0 { Some(route[start - 1]) } else { None };
    let right = if start + len < route.len() { Some(route[start + len]) } else { None };
    let pos = Seq::new(MAX_WINDOW as nat, |i: int| (start + i) as usize);
    (seg, left, right, pos)
}

/// The repair reorders the window: `cells[i]` is window cell `path[i]`
/// for an order `path` of the whole window that differs from the window's
/// own order, and `delta_obj` is the gain in penalized value of that order.
pub open spec fn repair_ok(n: int, route: Seq<usize>, w: Seq<i64>, lambda: int, start: int, len: int, rep: WindowRepair) -> bool {
    let (seg, left, right, pos) = window_parts(route, start, len);
    &&& rep.start == start
    &&& rep.len == len
    &&& exists|path: Seq<int>| #[trigger] pen_path(len, path) && path.len() == len
        && (forall|i: int| 0 <= i < len ==> rep.cells@[i] == seg[path[i]])
        && rep.delta_obj == window_obj(n, seg, left, right, w, pos, lambda, path) - window_obj(n, seg, left, right, w, pos, lambda, ident(len))
    &&& exists|i: int| 0 <= i < len && rep.cells@[i] != route[start + i]
    &&& rep.delta_obj > 0
}

/// No order of the whole window beats the window's own order by more than
/// `d` in penalized value.
pub open spec fn no_better_order(n: int, route: Seq<usize>, w: Seq<i64>, lambda: int, start: int, len: int, d: int) -> bool {
    let (seg, left, right, pos) = window_parts(route, start, len);
    forall|p: Seq<int>| #[trigger] pen_path(len, p) && p.len() == len ==>
        window_obj(n, seg, left, right, w, pos, lambda, p) - window_obj(n, seg, left, right, w, pos, lambda, ident(len)) <= d
}

/// A path over all `len` window cells visits the full subset and is
/// reached by the completed table.
pub(crate) proof fn lemma_full_path(len: int, p: Seq<int>, states: int)
    requires
        1 <= len <= 12,
        states == (1usize << (len as usize)),
        pen_path(len, p),
        p.len() == len,
    ensures
        mask_of(p) == (states - 1) as usize,
        pen_reached(len, p, states),
{
    lemma_states(len as usize);
    lemma_mask_of(len, p);
    lemma_ones_all(mask_of(p), len);
    let full = (states - 1) as usize;
    assert forall|i: int| 0 <= i < len implies (ubit(mask_of(p), i) <==> ubit(full, i)) by {
        lemma_full_mask(len as usize, full, i as usize);
    }
    lemma_mask_eq(mask_of(p), full, len);
    if p.len() > 1 {
        let q = p.drop_last();
        assert(distinct_below(len, q)) by {
            assert forall|a: int, b: int| 0 <= a < b < q.len() implies q[a] != q[b] by {
                assert(p[a] != p[b]);
            }
        }
        lemma_mask_of(len, q);
    }
}

/// Two paths over the same cells in the same order have the same value.
proof fn lemma_same_cells_value(n: int, seg: Seq<usize>, left: Option<usize>, w: Seq<i64>, pos: Seq<usize>, lambda: int,
    p: Seq<int>, q: Seq<int>)
    requires
        p.len() == q.len(),
        forall|k: int| 0 <= k < p.len() ==> seg[#[trigger] p[k]] == seg[q[k]],
    ensures
        pen_value(n, seg, left, w, pos, lambda, p) == pen_value(n, seg, left, w, pos, lambda, q),
    decreases p.len(),
{
    if p.len() > 0 {
        let k = p.len() - 1;
        assert(seg[p[k]] == seg[q[k]]);
        if k > 0 {
            assert(seg[p[k - 1]] == seg[q[k - 1]]);
        }
        assert(seg[p[0]] == seg[q[0]]);
        assert(step_vio(n, seg, left, p, k) == step_vio(n, seg, left, q, k));
        assert forall|j: int| 0 <= j < p.drop_last().len() implies seg[#[trigger] p.drop_last()[j]] == seg[q.drop_last()[j]] by {
            assert(seg[p[j]] == seg[q[j]]);
        }
        lemma_same_cells_value(n, seg, left, w, pos, lambda, p.drop_last(), q.drop_last());
    }
}

/// The best penalized reordering of `route[start..start + len]` (cells
/// visited in any order, each break, including those with the cells just
/// before and after the window, costing `lambda`), found over all subsets by
/// dynamic programming; `None` unless it beats the window's current order
/// and changes it.
pub fn evaluate_penalty_window(route: &[usize], weights: &[i64], n: usize, start: usize, len: usize, lambda: i64)
    -> (res: Option<WindowRepair>)
    requires
        0 < n,
        n * n <= MAX_CELLS,
        start + len <= route@.len() <= MAX_CELLS,
        len <= REPAIR_WINDOW,
        cells_in(route@, weights@.len() as int),
        weights_bounded(weights@),
        0 <= lambda <= 1_000_000_000_000,
    ensures
        res matches Some(rep) ==> repair_ok(n as int, route@, weights@, lambda as int, start as int, len as int, rep),
        res matches Some(rep) ==> no_better_order(n as int, route@, weights@, lambda as int, start as int, len as int, rep.delta_obj as int),
        res is None && len >= 2 ==> no_better_order(n as int, route@, weights@, lambda as int, start as int, len as int, 0),
{
    if len < 2 {
        return None;
    }
    let ghost w = weights@;
    let ghost lam = lambda as int;
    let len_total = route.len();
    let mut seg: Vec<usize> = Vec::new();
    let mut pos_list: Vec<usize> = Vec::new();
    let mut i: usize = 0;
    while i < MAX_WINDOW
        invariant
            start + len <= route@.len() <= MAX_CELLS,
            2 <= len <= REPAIR_WINDOW,
            i <= MAX_WINDOW,
            seg@.len() == i,
            pos_list@.len() == i,
            forall|k: int| 0 <= k < i ==> #[trigger] seg@[k] == (if k < len { route@[start + k] } else { 0usize }),
            forall|k: int| 0 <= k < i ==> #[trigger] pos_list@[k] == (start + k) as usize,
        decreases MAX_WINDOW - i,
    {
        seg.push(if i < len { route[start + i] } else { 0 });
        pos_list.push(start + i);
        i += 1;
    }
    let left = if start > 0 { Some(route[start - 1]) } else { None };
    let right = if start + len < len_total { Some(route[start + len]) } else { None };
    let ghost parts = window_parts(route@, start as int, len as int);
    proof {
        assert(seg@ =~= parts.0);
        assert(pos_list@ =~= parts.3);
        assert(cells_in(seg@, w.len() as int)) by {
            assert forall|k: int| 0 <= k < seg@.len() implies #[trigger] seg@[k] < w.len() by {
                if k < len {
                    assert(route@[start + k] < w.len());
                } else {
                    assert(seg@[k] == 0usize);
                    assert(route@[0] < w.len());
                }
            }
        }
    }
    let mut old_raw: i64 = 0;
    let mut k: usize = 0;
    while k < len
        invariant
            2 <= len <= REPAIR_WINDOW,
            start + len <= MAX_CELLS,
            seg@.len() == MAX_WINDOW,
            pos_list@.len() == MAX_WINDOW,
            forall|x: int| 0 <= x < MAX_WINDOW ==> #[trigger] pos_list@[x] == (start + x) as usize,
            cells_in(seg@, w.len() as int),
            w == weights@,
            weights_bounded(w),
            k <= len,
            old_raw == ident_raw(seg@, w, pos_list@, k as int),
            -(k * (MAX_CELLS * MAX_WEIGHT)) <= old_raw <= k * (MAX_CELLS * MAX_WEIGHT),
        decreases len - k,
    {
        proof {
            let x = w[seg@[k as int] as int];
            let t = (start + k) as int;
            assert(-(MAX_CELLS * MAX_WEIGHT) <= t * x <= MAX_CELLS * MAX_WEIGHT) by (nonlinear_arith)
                requires 0 <= t <= MAX_CELLS, -MAX_WEIGHT <= x <= MAX_WEIGHT;
            assert(k * (MAX_CELLS * MAX_WEIGHT) + MAX_CELLS * MAX_WEIGHT == (k + 1) * (MAX_CELLS * MAX_WEIGHT)) by (nonlinear_arith);
        }
        old_raw = old_raw + (start + k) as i64 * weights[seg[k]];
        k += 1;
    }
    let mut old_vio: i64 = 0;
    match left {
        Some(c) => {
            old_vio = old_vio + violation_cost(c, seg[0], n);
        },
        None => {},
    }
    let mut k: usize = 0;
    while k + 1 < len
        invariant
            2 <= len <= REPAIR_WINDOW,
            seg@.len() == MAX_WINDOW,
            0 < n,
            k + 1 <= len,
            old_vio == ident_vio(n as int, seg@, left, k + 1),
            0 <= old_vio <= k + 1,
        decreases len - k,
    {
        old_vio = old_vio + violation_cost(seg[k], seg[k + 1], n);
        k += 1;
    }
    let mut right_vio: i64 = 0;
    match right {
        Some(c) => {
            right_vio = violation_cost(seg[len - 1], c, n);
        },
        None => {},
    }
    proof {
        assert(0 <= lambda * (old_vio + right_vio) <= lambda * 10) by (nonlinear_arith)
            requires 0 <= old_vio + right_vio <= 10, 0 <= lambda;
    }
    let old_obj = old_raw - lambda * (old_vio + right_vio);
    proof {
        lemma_ident_value(n as int, seg@, left, w, pos_list@, lam, len as int);
        assert(ident(len as int).last() == len - 1);
        assert(old_obj == window_obj(n as int, seg@, left, right, w, pos_list@, lam, ident(len as int))) by (nonlinear_arith)
            requires old_obj == old_raw - lambda * (old_vio + right_vio),
                old_raw == ident_raw(seg@, w, pos_list@, len as int),
                old_vio == ident_vio(n as int, seg@, left, len as int),
                right_vio == (match right { Some(c) => vio(n as int, seg@[ident(len as int).last()] as int, c as int), None => 0 }),
                pen_value(n as int, seg@, left, w, pos_list@, lam, ident(len as int)) == ident_raw(seg@, w, pos_list@, len as int) - lam * ident_vio(n as int, seg@, left, len as int),
                lam == lambda;
    }
    let (dp, parent, paths) = fill_penalty_table(&seg, left, n, weights, &pos_list, len, lambda);
    let states = 1usize << len;
    let full = states - 1;
    let width = len;
    proof {
        lemma_states(len);
        assert(states * len <= 49152) by (nonlinear_arith) requires states <= 4096, len <= 12;
        lemma_ones_full(len as int, full, len as int);
    }
    proof {
        assert forall|x: int| 0 <= x < len implies #[trigger] pos_list@[x] <= MAX_CELLS by {
            assert(pos_list@[x] == parts.3[x]);
        }
        assert(-(20 * 2_000_000_000_000) <= old_obj <= 20 * 2_000_000_000_000) by (nonlinear_arith)
            requires old_obj == old_raw - lambda * (old_vio + right_vio),
                -(len * (MAX_CELLS * MAX_WEIGHT)) <= old_raw <= len * (MAX_CELLS * MAX_WEIGHT),
                0 <= lambda * (old_vio + right_vio) <= lambda * 10, 0 <= lambda <= 1_000_000_000_000, len <= 9;
    }
    let mut best_last = usize::MAX;
    let mut best_obj = old_obj;
    let mut last: usize = 0;
    while last < len
        invariant
            2 <= len <= REPAIR_WINDOW,
            0 < n,
            0 <= lambda <= 1_000_000_000_000,
            width == len,
            states == (1usize << len),
            1 <= states <= 4096,
            states * len <= 49152,
            full == states - 1,
            ones_usize(full, len as int) == len,
            lam == lambda,
            seg@.len() == MAX_WINDOW,
            pen_table_ok(n as int, seg@, left, len as int, w, pos_list@, lam, states as int, dp@, parent@, paths@, states as int),
            cells_in(seg@, w.len() as int),
            weights_bounded(w),
            pos_list@.len() == MAX_WINDOW,
            forall|x: int| 0 <= x < len ==> #[trigger] pos_list@[x] <= MAX_CELLS,
            last <= len,
            best_last == usize::MAX ==> best_obj == old_obj,
            best_last != usize::MAX ==> best_last < len && best_obj > old_obj
                && dp@[slot(full as int, best_last as int, len as int)] != NEG_INF
                && best_obj == window_obj(n as int, seg@, left, right, w, pos_list@, lam,
                    paths@[slot(full as int, best_last as int, len as int)]),
            -(20 * 2_000_000_000_000) <= best_obj <= 20 * 2_000_000_000_000,
            pen_complete(n as int, seg@, left, len as int, w, pos_list@, lam, dp@, states as int),
            old_obj == window_obj(n as int, seg@, left, right, w, pos_list@, lam, ident(len as int)),
            forall|p: Seq<int>| #[trigger] pen_path(len as int, p) && p.len() == len && p.last() < last ==>
                window_obj(n as int, seg@, left, right, w, pos_list@, lam, p) <= best_obj,
        decreases len - last,
    {
        proof {
            lemma_slot(full as int, last as int, len as int, states as int);
        }
        let ghost best_before = best_obj;
        let value0 = dp[full * width + last];
        proof {
            assert forall|p: Seq<int>| #[trigger] pen_path(len as int, p) && p.len() == len && p.last() == last implies
                dp@[slot(full as int, last as int, len as int)] >= pen_value(n as int, seg@, left, w, pos_list@, lam, p)
                && pen_value(n as int, seg@, left, w, pos_list@, lam, p) >= -(12 * 2_000_000_000_000) by {
                lemma_full_path(len as int, p, states as int);
                assert(pen_reached(len as int, p, states as int));
                assert(pen_dominates(n as int, seg@, left, len as int, w, pos_list@, lam, dp@, p));
                lemma_pen_value_bound(n as int, seg@, left, w, pos_list@, lam, p);
                assert(p.len() * 2_000_000_000_000 <= 12 * 2_000_000_000_000) by (nonlinear_arith) requires p.len() <= 12;
            }
        }
        if value0 != NEG_INF {
            let ghost pth = paths@[slot(full as int, last as int, len as int)];
            proof {
                assert(pen_cell_ok(n as int, seg@, left, len as int, w, pos_list@, lam, dp@, parent@, paths@, full as int, last as int, states as int));
                assert(pth.len() == ones_usize(full, len as int));
                assert(pth.len() == len);
                lemma_pen_value_bound(n as int, seg@, left, w, pos_list@, lam, pth);
                assert(pth.len() * 2_000_000_000_000 <= 12 * 2_000_000_000_000) by (nonlinear_arith) requires pth.len() <= 12;
            }
            let cost = match right {
                Some(c) => violation_cost(seg[last], c, n),
                None => 0,
            };
            proof {
                assert(0 <= lambda * cost <= lambda) by (nonlinear_arith) requires 0 <= cost <= 1, 0 <= lambda;
                assert(pth.last() == last);
            }
            let value = value0 - lambda * cost;
            if value > best_obj {
                best_obj = value;
                best_last = last;
            }
            proof {
                assert forall|p: Seq<int>| #[trigger] pen_path(len as int, p) && p.len() == len && p.last() < last + 1 implies
                    window_obj(n as int, seg@, left, right, w, pos_list@, lam, p) <= best_obj by {
                    if p.last() == last {
                        assert(dp@[slot(full as int, last as int, len as int)] >= pen_value(n as int, seg@, left, w, pos_list@, lam, p));
                    }
                }
            }
        } else {
            proof {
                assert forall|p: Seq<int>| #[trigger] pen_path(len as int, p) && p.len() == len && p.last() < last + 1 implies
                    window_obj(n as int, seg@, left, right, w, pos_list@, lam, p) <= best_obj by {
                    if p.last() == last {
                        assert(dp@[slot(full as int, last as int, len as int)] >= pen_value(n as int, seg@, left, w, pos_list@, lam, p));
                        assert(false);
                    }
                }
            }
        }
        last += 1;
    }
    proof {
        assert(seg@ =~= parts.0);
        assert(pos_list@ =~= parts.3);
        assert(parts.1 == left);
        assert(parts.2 == right);
        assert forall|p: Seq<int>| #[trigger] pen_path(len as int, p) && p.len() == len implies
            window_obj(n as int, seg@, left, right, w, pos_list@, lam, p) <= best_obj by {
            assert(0 <= p.last() < len);
        }
    }
    if best_last == usize::MAX {
        return None;
    }
    let order = pen_trace_back(&parent, Ghost(n as int), Ghost(seg@), Ghost(left), Ghost(w), Ghost(pos_list@), Ghost(lam),
        Ghost(dp@), paths, len, states, best_last);
    let ghost path = paths@[slot(full as int, best_last as int, len as int)];
    proof {
        lemma_slot(full as int, best_last as int, len as int, states as int);
        assert(pen_cell_ok(n as int, seg@, left, len as int, w, pos_list@, lam, dp@, parent@, paths@, full as int, best_last as int, states as int));
    }
    let mut cells: [usize; 9] = [0usize; 9];
    let mut changed = false;
    let mut i: usize = 0;
    while i < len
        invariant
            2 <= len <= REPAIR_WINDOW,
            start + len <= route@.len(),
            seg@.len() == MAX_WINDOW,
            forall|x: int| 0 <= x < MAX_WINDOW ==> #[trigger] seg@[x] == (if x < len { route@[start + x] } else { 0usize }),
            order@.len() == MAX_WINDOW,
            path.len() == len,
            pen_path(len as int, path),
            forall|x: int| 0 <= x < len ==> #[trigger] order@[x] == path[x],
            i <= len,
            forall|x: int| 0 <= x < i ==> #[trigger] cells@[x] == seg@[path[x]],
            changed <==> exists|x: int| 0 <= x < i && cells@[x] != route@[start + x],
        decreases len - i,
    {
        proof {
            assert(0 <= path[i as int] < len);
        }
        let c = seg[order[i]];
        let ghost old_cells = cells@;
        let ghost was = changed;
        cells[i] = c;
        if c != seg[i] {
            changed = true;
        }
        proof {
            assert(seg@[i as int] == route@[start + i]);
            assert forall|x: int| 0 <= x < i implies cells@[x] == old_cells[x] by {}
            if was {
                let x0 = choose|x: int| 0 <= x < i && old_cells[x] != route@[start + x];
                assert(cells@[x0] != route@[start + x0]);
            } else if changed {
                assert(cells@[i as int] != route@[start + i]);
            } else {
                assert forall|x: int| 0 <= x < i + 1 implies !(cells@[x] != route@[start + x]) by {
                    if x < i {
                        assert(!(old_cells[x] != route@[start + x]));
                    }
                }
            }
        }
        i += 1;
    }
    if !changed {
        proof {
            assert forall|k: int| 0 <= k < path.len() implies seg@[#[trigger] path[k]] == seg@[ident(len as int)[k]] by {
                assert(!(cells@[k] != route@[start + k]));
                assert(seg@[k] == route@[start + k]);
            }
            lemma_same_cells_value(n as int, seg@, left, w, pos_list@, lam, path, ident(len as int));
            assert(path.last() == path[len - 1]);
            assert(ident(len as int).last() == len - 1);
            assert(window_obj(n as int, seg@, left, right, w, pos_list@, lam, path)
                == window_obj(n as int, seg@, left, right, w, pos_list@, lam, ident(len as int)));
            assert(false);
        }
        return None;
    }
    let rep = WindowRepair { start, len, cells, delta_obj: best_obj - old_obj };
    proof {
        let x0 = choose|x: int| 0 <= x < len && cells@[x] != route@[start + x];
        assert(0 <= x0 < len && rep.cells@[x0] != route@[start + x0]);
        assert(parts.1 == left);
        assert(parts.2 == right);
        assert(seg@ =~= parts.0);
        assert(pos_list@ =~= parts.3);
        assert(pen_path(len as int, path) && path.len() == len
            && (forall|x: int| 0 <= x < len ==> rep.cells@[x] == parts.0[path[x]])
            && rep.delta_obj == window_obj(n as int, parts.0, parts.1, parts.2, w, parts.3, lam, path)
                - window_obj(n as int, parts.0, parts.1, parts.2, w, parts.3, lam, ident(len as int)));
    }
    Some(rep)
}

/// `route` with `rep.cells[..rep.len]` written over it from `rep.start` on.
pub open spec fn repaired(route: Seq<usize>, rep: WindowRepair) -> Seq<usize> {
    Seq::new(route.len(), |i: int| if rep.start <= i < rep.start + rep.len { rep.cells@[i - rep.start] } else { route[i] })
}

/// Window part of the raw score of `x`: `sum_{i < k} (start + i) * w[x[start + i]]`.
pub open spec fn window_raw(x: Seq<usize>, w: Seq<i64>, start: int, k: int) -> int
    decreases k,
{
    if k <= 0 { 0 } else { window_raw(x, w, start, k - 1) + (start + k - 1) * w[x[start + k - 1] as int] }
}

/// Breaks of `x` on the step into the window (when it has a cell before it)
/// and the steps inside its first `k` cells.
pub open spec fn window_breaks(n: int, x: Seq<usize>, start: int, k: int) -> int {
    (if start > 0 { vio(n, x[start - 1] as int, x[start] as int) } else { 0 }) + range_breaks(n, x, start, start + k - 1)
}

proof fn lemma_raw_window(x: Seq<usize>, w: Seq<i64>, start: int, k: int)
    requires
        0 <= start,
        0 <= k,
    ensures
        raw_prefix(x, w, start + k) == raw_prefix(x, w, start) + window_raw(x, w, start, k),
    decreases k,
{
    if k > 0 {
        lemma_raw_window(x, w, start, k - 1);
    }
}

proof fn lemma_raw_tail_same(x: Seq<usize>, y: Seq<usize>, w: Seq<i64>, j: int, k: int)
    requires
        0 <= j <= k,
        forall|i: int| j <= i < k ==> #[trigger] x[i] == y[i],
    ensures
        raw_prefix(x, w, k) - raw_prefix(x, w, j) == raw_prefix(y, w, k) - raw_prefix(y, w, j),
    decreases k - j,
{
    if k > j {
        lemma_raw_tail_same(x, y, w, j, k - 1);
        assert(x[k - 1] == y[k - 1]);
    }
}

/// The penalized value of a window order that `x` visits equals the
/// window's raw part of `x` minus `lambda` per break on its steps.
proof fn lemma_pen_value_of(n: int, route: Seq<usize>, x: Seq<usize>, w: Seq<i64>, lambda: int, start: int, len: int,
    path: Seq<int>, k: int)
    requires
        1 <= len <= MAX_WINDOW,
        0 <= start,
        start + len <= route.len() == x.len(),
        route.len() <= MAX_CELLS,
        pen_path(len, path),
        path.len() == len,
        1 <= k <= len,
        start > 0 ==> x[start - 1] == route[start - 1],
        forall|i: int| 0 <= i < len ==> #[trigger] x[start + i] == window_parts(route, start, len).0[path[i]],
    ensures
        pen_value(n, window_parts(route, start, len).0, window_parts(route, start, len).1, w,
            window_parts(route, start, len).3, lambda, path.take(k))
            == window_raw(x, w, start, k) - lambda * window_breaks(n, x, start, k),
    decreases k,
{
    let (seg, left, right, pos) = window_parts(route, start, len);
    let q = path.take(k);
    assert(q.drop_last() =~= path.take(k - 1));
    let i = k - 1;
    assert(x[start + i] == seg[path[i]]);
    assert(pos[i] == start + i);
    assert(q[i] == path[i]);
    assert(q.len() == k);
    assert(pen_value(n, seg, left, w, pos, lambda, q) == pen_value(n, seg, left, w, pos, lambda, q.drop_last())
        + pos[i] * w[seg[q[i]] as int] - lambda * step_vio(n, seg, left, q, i));
    assert(window_raw(x, w, start, k) == window_raw(x, w, start, i) + (start + i) * w[x[start + i] as int]);
    if k == 1 {
        assert(path.take(0) =~= Seq::<int>::empty());
        assert(pen_value(n, seg, left, w, pos, lambda, q.drop_last()) == 0);
        assert(window_raw(x, w, start, 0) == 0);
        assert(range_breaks(n, x, start, start) == 0);
        assert(step_vio(n, seg, left, q, 0) == if start > 0 { vio(n, x[start - 1] as int, x[start] as int) } else { 0 });
    } else {
        lemma_pen_value_of(n, route, x, w, lambda, start, len, path, k - 1);
        let j = k - 2;
        assert(x[start + j] == seg[path[j]]);
        assert(q[j] == path[j]);
        assert(step_vio(n, seg, left, q, k - 1) == vio(n, x[start + k - 2] as int, x[start + k - 1] as int));
        assert(range_breaks(n, x, start, start + k - 1) == range_breaks(n, x, start, start + k - 2)
            + vio(n, x[start + k - 2] as int, x[start + k - 1] as int));
        let a = window_breaks(n, x, start, k - 1);
        let b = vio(n, x[start + k - 2] as int, x[start + k - 1] as int);
        assert(lambda * (a + b) == lambda * a + lambda * b) by (nonlinear_arith);
    }
}

/// The whole-route value outside the window: what is left of the
/// penalized objective when the window's raw part and breaks are taken out.
pub open spec fn outside_value(n: int, x: Seq<usize>, w: Seq<i64>, lambda: int, start: int, len: int) -> int {
    penalized(n, x, w, lambda) - (window_raw(x, w, start, len) - lambda * (window_breaks(n, x, start, len)
        + if start + len < x.len() { vio(n, x[start + len - 1] as int, x[start + len] as int) } else { 0 }))
}

proof fn lemma_outside_same(n: int, x: Seq<usize>, y: Seq<usize>, w: Seq<i64>, lambda: int, start: int, len: int)
    requires
        1 <= len,
        0 <= start,
        start + len <= x.len() == y.len(),
        forall|i: int| 0 <= i < x.len() && !(start <= i < start + len) ==> #[trigger] x[i] == y[i],
    ensures
        outside_value(n, x, w, lambda, start, len) == outside_value(n, y, w, lambda, start, len),
{
    let last = x.len() - 1;
    let e = start + len;
    lemma_raw_window(x, w, start, len);
    lemma_raw_window(y, w, start, len);
    assert forall|i: int| 0 <= i < start implies #[trigger] x[i] == y[i] by {}
    lemma_raw_tail_same(x, y, w, 0, start);
    assert forall|i: int| e <= i < x.len() implies #[trigger] x[i] == y[i] by {}
    lemma_raw_tail_same(x, y, w, e, x.len() as int);
    assert(raw_prefix(x, w, 0) == 0 && raw_prefix(y, w, 0) == 0);
    lemma_breaks_range(n, x, last);
    lemma_breaks_range(n, y, last);
    let a = if start > 0 { start - 1 } else { 0 };
    let b = if e < x.len() { e } else { e - 1 };
    lemma_range_split(n, x, 0, a, last);
    lemma_range_split(n, x, a, start, last);
    lemma_range_split(n, x, start, e - 1, last);
    lemma_range_split(n, x, e - 1, b, last);
    lemma_range_split(n, y, 0, a, last);
    lemma_range_split(n, y, a, start, last);
    lemma_range_split(n, y, start, e - 1, last);
    lemma_range_split(n, y, e - 1, b, last);
    if start > 0 {
        assert forall|i: int| 0 <= i <= a implies #[trigger] x[i] == y[i] by {}
        lemma_range_same(n, x, y, 0, a);
        lemma_range_step(n, x, a);
        lemma_range_step(n, y, a);
    }
    if e < x.len() {
        assert forall|i: int| b <= i <= last implies #[trigger] x[i] == y[i] by {}
        lemma_range_same(n, x, y, b, last);
        lemma_range_step(n, x, e - 1);
        lemma_range_step(n, y, e - 1);
    }
    let bx = total_breaks(n, x);
    let by = total_breaks(n, y);
    let wx = window_breaks(n, x, start, len) + if e < x.len() { vio(n, x[e - 1] as int, x[e] as int) } else { 0 };
    let wy = window_breaks(n, y, start, len) + if e < y.len() { vio(n, y[e - 1] as int, y[e] as int) } else { 0 };
    assert(bx - wx == by - wy);
    assert(lambda * bx - lambda * wx == lambda * by - lambda * wy) by (nonlinear_arith)
        requires bx - wx == by - wy;
}

/// A window repair changes the penalized objective of the whole route by
/// exactly its `delta_obj` (the window's steps, in and out included, and
/// its raw part are all that change).
pub proof fn lemma_repair_objective_law(n: int, route: Seq<usize>, w: Seq<i64>, lambda: int, rep: WindowRepair)
    requires
        1 <= rep.len <= MAX_WINDOW,
        rep.start + rep.len <= route.len(),
        route.len() <= MAX_CELLS,
        repair_ok(n, route, w, lambda, rep.start as int, rep.len as int, rep),
    ensures
        penalized(n, repaired(route, rep), w, lambda) - penalized(n, route, w, lambda) == rep.delta_obj,
{
    let start = rep.start as int;
    let len = rep.len as int;
    let (seg, left, right, pos) = window_parts(route, start, len);
    let t = repaired(route, rep);
    let path = choose|path: Seq<int>| #[trigger] pen_path(len, path) && path.len() == len
        && (forall|i: int| 0 <= i < len ==> rep.cells@[i] == seg[path[i]])
        && rep.delta_obj == window_obj(n, seg, left, right, w, pos, lambda, path) - window_obj(n, seg, left, right, w, pos, lambda, ident(len));
    let id = ident(len);
    assert(pen_path(len, id)) by {
        assert forall|a: int, b: int| 0 <= a < b < id.len() implies id[a] != id[b] by {}
    }
    assert forall|i: int| 0 <= i < len implies #[trigger] t[start + i] == seg[path[i]] by {}
    assert forall|i: int| 0 <= i < len implies #[trigger] route[start + i] == seg[id[i]] by {}
    lemma_pen_value_of(n, route, t, w, lambda, start, len, path, len);
    lemma_pen_value_of(n, route, route, w, lambda, start, len, id, len);
    assert(path.take(len) =~= path);
    assert(id.take(len) =~= id);
    assert forall|i: int| 0 <= i < route.len() && !(start <= i < start + len) implies #[trigger] route[i] == t[i] by {}
    lemma_outside_same(n, route, t, w, lambda, start, len);
    let li = len - 1;
    assert(t[start + li] == seg[path[li]]);
    assert(route[start + li] == seg[id[li]]);
    let e = start + len;
    let rt = if e < t.len() { vio(n, t[e - 1] as int, t[e] as int) } else { 0 };
    let rr = if e < route.len() { vio(n, route[e - 1] as int, route[e] as int) } else { 0 };
    if e < route.len() {
        assert(t[e] == route[e]);
        assert(right == Some(route[e]));
    } else {
        assert(right is None);
    }
    assert(window_obj(n, seg, left, right, w, pos, lambda, path) == pen_value(n, seg, left, w, pos, lambda, path) - lambda * rt);
    assert(window_obj(n, seg, left, right, w, pos, lambda, id) == pen_value(n, seg, left, w, pos, lambda, id) - lambda * rr);
    let at = window_breaks(n, t, start, len);
    let ar = window_breaks(n, route, start, len);
    assert(lambda * (at + rt) == lambda * at + lambda * rt) by (nonlinear_arith);
    assert(lambda * (ar + rr) == lambda * ar + lambda * rr) by (nonlinear_arith);
}

/// A window repair reorders cells of the route, so the route still visits
/// every cell exactly once.
pub proof fn lemma_repair_keeps_permutation(n: int, route: Seq<usize>, w: Seq<i64>, lambda: int, rep: WindowRepair)
    requires
        is_permutation_route(n, route),
        rep.start + rep.len <= route.len(),
        rep.len <= REPAIR_WINDOW,
        repair_ok(n, route, w, lambda, rep.start as int, rep.len as int, rep),
    ensures
        is_permutation_route(n, repaired(route, rep)),
{
    let start = rep.start as int;
    let len = rep.len as int;
    let (seg, left, right, pos) = window_parts(route, start, len);
    let path = choose|path: Seq<int>| #[trigger] pen_path(len, path) && path.len() == len
        && (forall|i: int| 0 <= i < len ==> rep.cells@[i] == seg[path[i]])
        && rep.delta_obj == window_obj(n, seg, left, right, w, pos, lambda, path) - window_obj(n, seg, left, right, w, pos, lambda, ident(len));
    let x = repaired(route, rep);
    assert forall|i: int| 0 <= i < x.len() implies #[trigger] x[i] == route[if start <= i < start + len { start + path[i - start] } else { i }] by {
        if start <= i < start + len {
            assert(0 <= path[i - start] < len);
            assert(x[i] == rep.cells@[i - start]);
            assert(seg[path[i - start]] == route[start + path[i - start]]);
        }
    }
    assert forall|i: int| 0 <= i < x.len() implies #[trigger] x[i] < n * n by {
        if start <= i < start + len {
            assert(0 <= path[i - start] < len);
            assert(x[i] == route[start + path[i - start]]);
        }
    }
    assert forall|a: int, b: int| 0 <= a < x.len() && 0 <= b < x.len() && a != b implies x[a] != x[b] by {
        let ia = if start <= a < start + len { start + path[a - start] } else { a };
        let ib = if start <= b < start + len { start + path[b - start] } else { b };
        assert(x[a] == route[ia]);
        assert(x[b] == route[ib]);
        if start <= a < start + len && start <= b < start + len {
            assert(path[a - start] != path[b - start]);
        }
        if start <= a < start + len {
            assert(0 <= path[a - start] < len);
        }
        if start <= b < start + len {
            assert(0 <= path[b - start] < len);
        }
        assert(ia != ib);
    }
}

/// How many sampled breaks the repair scans: `scan_limit` (at least one),
/// at most all of them.
pub open spec fn scan_count(sampled_len: int, scan_limit: int) -> int {
    let l0 = if scan_limit > 1 { scan_limit } else { 1 };
    if sampled_len < l0 { sampled_len } else { l0 }
}

/// The window of `size` cells at `start` is one the repair tries around
/// sampled break `j`: 9 or 8 cells, inside the route, holding step `k`.
pub open spec fn scan_window(len_total: int, sampled: Seq<usize>, j: int, size: int, start: int) -> bool {
    let k = sampled[j] as int;
    &&& 0 <= j < sampled.len()
    &&& size == 8 || size == 9
    &&& size <= len_total
    &&& (if k + 1 >= size { k + 1 - size } else { 0 }) <= start
    &&& start <= (if k < len_total - size { k } else { len_total - size })
}

/// What the repair found so far bounds the gain of every order of the
/// window: by 0 while nothing was found, else by the gain of the best find.
pub open spec fn window_done(n: int, route: Seq<usize>, w: Seq<i64>, lambda: int, start: int, size: int,
    best: Option<WindowRepair>) -> bool {
    match best {
        None => no_better_order(n, route, w, lambda, start, size, 0),
        Some(b) => no_better_order(n, route, w, lambda, start, size, b.delta_obj as int),
    }
}

proof fn lemma_no_better_mono(n: int, route: Seq<usize>, w: Seq<i64>, lambda: int, start: int, len: int, d1: int, d2: int)
    requires
        d1 <= d2,
        no_better_order(n, route, w, lambda, start, len, d1),
    ensures
        no_better_order(n, route, w, lambda, start, len, d2),
{
}

/// Tries, around each of the first `scan_limit` (at least one) sampled
/// breaks `k`, every window of 9 and then of 8 cells that holds the step
/// `k` (windows `start..start + size` with `start <= k < start + size`,
/// inside the route), and writes the penalized reordering with the largest
/// gain found (the first of equal gains) into the route. Returns whether a
/// window was rewritten; the route is unchanged otherwise.
pub fn apply_best_penalty_window_repair(route: &mut Vec<usize>, weights: &[i64], n: usize, lambda: i64,
    sampled_breakpoints: &Vec<usize>, scan_limit: usize) -> (applied: bool)
    requires
        0 < n,
        n * n <= MAX_CELLS,
        old(route)@.len() <= MAX_CELLS,
        cells_in(old(route)@, weights@.len() as int),
        weights_bounded(weights@),
        0 <= lambda <= 1_000_000_000_000,
        forall|j: int| 0 <= j < sampled_breakpoints@.len() ==> #[trigger] sampled_breakpoints@[j] < old(route)@.len(),
    ensures
        !applied ==> final(route)@ == old(route)@,
        applied ==> exists|rep: WindowRepair| #[trigger] repair_ok(n as int, old(route)@, weights@, lambda as int,
            rep.start as int, rep.len as int, rep)
            && (rep.len == 8 || rep.len == 9) && rep.start + rep.len <= old(route)@.len()
            && final(route)@ == repaired(old(route)@, rep)
            && forall|j: int, size: int, st: int| #[trigger] scan_window(old(route)@.len() as int, sampled_breakpoints@, j, size, st)
                && j < scan_count(sampled_breakpoints@.len() as int, scan_limit as int)
                ==> no_better_order(n as int, old(route)@, weights@, lambda as int, st, size, rep.delta_obj as int),
        !applied ==> forall|j: int, size: int, st: int| #[trigger] scan_window(old(route)@.len() as int, sampled_breakpoints@, j, size, st)
            && j < scan_count(sampled_breakpoints@.len() as int, scan_limit as int)
            ==> no_better_order(n as int, old(route)@, weights@, lambda as int, st, size, 0),
{
    let len_total = route.len();
    if len_total < 2 || sampled_breakpoints.len() == 0 {
        return false;
    }
    let ghost r0 = route@;
    let limit0 = if scan_limit > 1 { scan_limit } else { 1 };
    let limit = if sampled_breakpoints.len() < limit0 { sampled_breakpoints.len() } else { limit0 };
    let mut best: Option<WindowRepair> = None;
    let mut j: usize = 0;
    while j < limit
        invariant
            r0 == route@,
            len_total == r0.len(),
            0 < n,
            n * n <= MAX_CELLS,
            len_total <= MAX_CELLS,
            cells_in(r0, weights@.len() as int),
            weights_bounded(weights@),
            0 <= lambda <= 1_000_000_000_000,
            limit <= sampled_breakpoints@.len(),
            forall|jj: int| 0 <= jj < sampled_breakpoints@.len() ==> #[trigger] sampled_breakpoints@[jj] < len_total,
            j <= limit,
            limit == scan_count(sampled_breakpoints@.len() as int, scan_limit as int),
            best matches Some(b) ==> repair_ok(n as int, r0, weights@, lambda as int, b.start as int, b.len as int, b)
                && (b.len == 8 || b.len == 9) && b.start + b.len <= len_total,
            forall|jj: int, size: int, st: int| #[trigger] scan_window(len_total as int, sampled_breakpoints@, jj, size, st) && jj < j
                ==> window_done(n as int, r0, weights@, lambda as int, st, size, best),
        decreases limit - j,
    {
        let k = sampled_breakpoints[j];
        let mut wi: usize = 0;
        while wi < 2
            invariant
                r0 == route@,
                len_total == r0.len(),
                0 < n,
                n * n <= MAX_CELLS,
                len_total <= MAX_CELLS,
                cells_in(r0, weights@.len() as int),
                weights_bounded(weights@),
                0 <= lambda <= 1_000_000_000_000,
                k < len_total,
                wi <= 2,
                j < limit,
                limit <= sampled_breakpoints@.len(),
                k == sampled_breakpoints@[j as int],
                best matches Some(b) ==> repair_ok(n as int, r0, weights@, lambda as int, b.start as int, b.len as int, b)
                    && (b.len == 8 || b.len == 9) && b.start + b.len <= len_total,
                forall|jj: int, size: int, st: int| #[trigger] scan_window(len_total as int, sampled_breakpoints@, jj, size, st)
                    && (jj < j || (jj == j && (size == 9 && wi >= 1 || size == 8 && wi >= 2)))
                    ==> window_done(n as int, r0, weights@, lambda as int, st, size, best),
            decreases 2 - wi,
        {
            let window: usize = if wi == 0 { 9 } else { 8 };
            if window <= len_total {
                let start_lo = if k + 1 >= window { k + 1 - window } else { 0 };
                let start_hi = if k < len_total - window { k } else { len_total - window };
                let mut start = start_lo;
                while start <= start_hi
                    invariant
                        r0 == route@,
                        len_total == r0.len(),
                        0 < n,
                        n * n <= MAX_CELLS,
                        len_total <= MAX_CELLS,
                        cells_in(r0, weights@.len() as int),
                        weights_bounded(weights@),
                        0 <= lambda <= 1_000_000_000_000,
                        window == 8 || window == 9,
                        window <= len_total,
                        start_hi + window <= len_total,
                        start_lo <= start <= start_hi + 1,
                        j < limit,
                        limit <= sampled_breakpoints@.len(),
                        k == sampled_breakpoints@[j as int],
                        k < len_total,
                        window == (if wi == 0 { 9usize } else { 8usize }),
                        wi < 2,
                        start_lo as int == (if k + 1 >= window { k + 1 - window } else { 0 }),
                        start_hi as int == (if k < len_total - window { k as int } else { len_total - window }),
                        best matches Some(b) ==> repair_ok(n as int, r0, weights@, lambda as int, b.start as int, b.len as int, b)
                            && (b.len == 8 || b.len == 9) && b.start + b.len <= len_total,
                        forall|jj: int, size: int, st: int| #[trigger] scan_window(len_total as int, sampled_breakpoints@, jj, size, st)
                            && (jj < j || (jj == j && (size == 9 && wi >= 1 || size == 8 && wi >= 2)
                                || (jj == j && size == window && st < start)))
                            ==> window_done(n as int, r0, weights@, lambda as int, st, size, best),
                    decreases start_hi + 1 - start,
                {
                    let ghost best0 = best;
                    let cand = evaluate_penalty_window(route, weights, n, start, window, lambda);
                    match cand {
                        Some(c) => {
                            let take = match best {
                                None => true,
                                Some(cur) => c.delta_obj > cur.delta_obj,
                            };
                            if take {
                                best = Some(c);
                            }
                        },
                        None => {},
                    }
                    proof {
                        assert forall|jj: int, size: int, st: int| #[trigger] scan_window(len_total as int, sampled_breakpoints@, jj, size, st)
                            && (jj < j || (jj == j && (size == 9 && wi >= 1 || size == 8 && wi >= 2)
                                || (jj == j && size == window && st < start + 1)))
                            implies window_done(n as int, r0, weights@, lambda as int, st, size, best) by {
                            if jj == j && size == window && st == start {
                                match cand {
                                    Some(c) => {
                                        if let Some(b) = best {
                                            lemma_no_better_mono(n as int, r0, weights@, lambda as int, st, size, c.delta_obj as int, b.delta_obj as int);
                                        }
                                    },
                                    None => {
                                        if let Some(b) = best {
                                            lemma_no_better_mono(n as int, r0, weights@, lambda as int, st, size, 0, b.delta_obj as int);
                                        }
                                    },
                                }
                            } else {
                                assert(window_done(n as int, r0, weights@, lambda as int, st, size, best0));
                                match best0 {
                                    None => {
                                        if let Some(b) = best {
                                            lemma_no_better_mono(n as int, r0, weights@, lambda as int, st, size, 0, b.delta_obj as int);
                                        }
                                    },
                                    Some(b0) => {
                                        if let Some(b) = best {
                                            lemma_no_better_mono(n as int, r0, weights@, lambda as int, st, size, b0.delta_obj as int, b.delta_obj as int);
                                        }
                                    },
                                }
                            }
                        }
                    }
                    start += 1;
                }
            }
            wi += 1;
        }
        j += 1;
    }
    match best {
        None => false,
        Some(rep) => {
            let mut i: usize = 0;
            while i < rep.len
                invariant
                    rep.start + rep.len <= r0.len(),
                    r0.len() <= MAX_CELLS,
                    rep.len <= 9,
                    i <= rep.len,
                    route@.len() == r0.len(),
                    forall|x: int| 0 <= x < r0.len() ==> #[trigger] route@[x] ==
                        (if rep.start <= x < rep.start + i { rep.cells@[x - rep.start] } else { r0[x] }),
                decreases rep.len - i,
            {
                route.set(rep.start + i, rep.cells[i]);
                i += 1;
            }
            proof {
                assert(route@ =~= repaired(r0, rep));
            }
            true
        },
    }
}

} // verus!
