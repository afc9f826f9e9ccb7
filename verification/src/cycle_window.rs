//! Exact reordering of a short window of a closed tour; the window may wrap
//! around the end of the route.
use vstd::prelude::*;
use crate::grid::{adjacent, is_route, is_king_walk, is_permutation_route, raw_score, raw_prefix,
    cells_in, weights_bounded, MAX_CELLS, MAX_WEIGHT, is_adj};
use crate::window::{MAX_WINDOW, NEG_INF, slot, good_path, path_value, table_ok, cell_ok, fill_window_table,
    trace_back, lemma_slot, lemma_states, lemma_path_value_bound, win_complete, win_reached, win_dominates,
    lemma_win_full_path};
use crate::cycle::is_cycle;
use crate::descent::{search_input, lemma_raw_score_bound, lemma_same_residue};
use crate::clock::{before_deadline, check_deadline, TimeUp};
use std::time::{Duration, Instant};

verus! {

/// Position `k` steps after `s` around a tour of `len` cells (`s < len`, `k < len`).
pub open spec fn cpos(len: int, s: int, k: int) -> int {
    if s + k < len { s + k } else { s + k - len }
}

/// Steps from `s` to `i` around a tour of `len` cells.
pub open spec fn coff(len: int, s: int, i: int) -> int {
    if i >= s { i - s } else { i + len - s }
}

/// Position after `i` around a tour of `len` cells.
pub open spec fn cnext(len: int, i: int) -> int {
    if i + 1 < len { i + 1 } else { 0 }
}

/// Every cell is a king move from the next one around the tour.
pub open spec fn cyclic_walk(n: int, r: Seq<usize>) -> bool {
    forall|i: int| 0 <= i < r.len() ==> #[trigger] adjacent(n, r[i] as int, r[cnext(r.len() as int, i)] as int)
}

/// A closed tour is a permutation route whose cells are king moves apart
/// around the tour.
pub proof fn lemma_cycle_cyclic(n: int, r: Seq<usize>)
    requires
        r.len() >= 2,
    ensures
        is_cycle(n, r) == (is_permutation_route(n, r) && cyclic_walk(n, r)),
{
    if is_permutation_route(n, r) && cyclic_walk(n, r) {
        assert forall|i: int| 0 <= i < r.len() - 1 implies #[trigger] adjacent(n, r[i] as int, r[i + 1] as int) by {
            assert(adjacent(n, r[i] as int, r[cnext(r.len() as int, i)] as int));
        }
        assert(adjacent(n, r[r.len() - 1] as int, r[cnext(r.len() as int, r.len() - 1)] as int));
    }
    if is_cycle(n, r) {
        assert forall|i: int| 0 <= i < r.len() implies #[trigger] adjacent(n, r[i] as int, r[cnext(r.len() as int, i)] as int) by {
            if i + 1 < r.len() {
                assert(adjacent(n, r[i] as int, r[i + 1] as int));
            }
        }
    }
}

/// `sum_{j < k} pos[j] * w[route[pos[j]]]`.
pub open spec fn pos_score(route: Seq<usize>, w: Seq<i64>, pos: Seq<usize>, k: int) -> int
    decreases k,
{
    if k <= 0 {
        0
    } else {
        pos_score(route, w, pos, k - 1) + pos[k - 1] * w[route[pos[k - 1] as int] as int]
    }
}

proof fn lemma_update_prefix(s: Seq<usize>, w: Seq<i64>, i: int, x: usize, k: int)
    requires
        0 <= i < s.len(),
        0 <= k <= s.len(),
    ensures
        raw_prefix(s.update(i, x), w, k) - raw_prefix(s, w, k) == if k > i { i * (w[x as int] - w[s[i] as int]) } else { 0 },
    decreases k,
{
    if k > 0 {
        lemma_update_prefix(s, w, i, x, k - 1);
        if k - 1 == i {
            assert(i * w[x as int] - i * w[s[i] as int] == i * (w[x as int] - w[s[i] as int])) by (nonlinear_arith);
        }
    }
}

/// Routes that differ only at the distinct positions `pos[..k]` differ in
/// raw score by the difference of their scores at those positions.
proof fn lemma_positions_score(a: Seq<usize>, b: Seq<usize>, w: Seq<i64>, pos: Seq<usize>, k: int)
    requires
        a.len() == b.len(),
        0 <= k <= pos.len(),
        forall|j: int| 0 <= j < k ==> #[trigger] pos[j] < a.len(),
        forall|j1: int, j2: int| 0 <= j1 < k && 0 <= j2 < k && j1 != j2 ==> pos[j1] != pos[j2],
        forall|i: int| 0 <= i < a.len() && (forall|j: int| 0 <= j < k ==> pos[j] != i) ==> a[i] == b[i],
    ensures
        raw_score(a, w) - raw_score(b, w) == pos_score(a, w, pos, k) - pos_score(b, w, pos, k),
    decreases k,
{
    if k == 0 {
        assert(a =~= b);
    } else {
        let p = pos[k - 1] as int;
        let b2 = b.update(p, a[p]);
        assert forall|i: int| 0 <= i < a.len() && (forall|j: int| 0 <= j < k - 1 ==> pos[j] != i) implies a[i] == b2[i] by {
            if i != p {
                assert forall|j: int| 0 <= j < k implies pos[j] != i by {
                    if j < k - 1 {
                    }
                }
            }
        }
        lemma_positions_score(a, b2, w, pos, k - 1);
        lemma_update_prefix(b, w, p, a[p], b.len() as int);
        assert forall|j: int| 0 <= j < k - 1 implies b2[pos[j] as int] == b[pos[j] as int] by {
            assert(pos[j] != pos[k - 1]);
        }
        lemma_pos_score_agree(b2, b, w, pos, k - 1);
        let x = w[a[p] as int];
        let y = w[b[p] as int];
        assert(p * (x - y) == p * x - p * y) by (nonlinear_arith);
        assert(b2[p] == a[p]);
    }
}

proof fn lemma_pos_score_agree(a: Seq<usize>, b: Seq<usize>, w: Seq<i64>, pos: Seq<usize>, k: int)
    requires
        0 <= k <= pos.len(),
        forall|j: int| 0 <= j < k ==> a[pos[j] as int] == b[pos[j] as int],
    ensures
        pos_score(a, w, pos, k) == pos_score(b, w, pos, k),
    decreases k,
{
    if k > 0 {
        lemma_pos_score_agree(a, b, w, pos, k - 1);
    }
}

/// The path score of the new window order is its score at the window positions.
proof fn lemma_path_pos_score(route: Seq<usize>, seg: Seq<usize>, w: Seq<i64>, pos: Seq<usize>, path: Seq<int>, k: int)
    requires
        0 <= k <= path.len(),
        path.len() <= pos.len(),
        forall|j: int| 0 <= j < path.len() ==> route[pos[j] as int] == seg[#[trigger] path[j]],
    ensures
        pos_score(route, w, pos, k) == path_value(seg, w, pos, path.subrange(0, k)),
    decreases k,
{
    if k > 0 {
        lemma_path_pos_score(route, seg, w, pos, path, k - 1);
        assert(path.subrange(0, k).drop_last() =~= path.subrange(0, k - 1));
        assert(route[pos[k - 1] as int] == seg[path[k - 1]]);
    }
}

/// No order of the cells of the tour window of `len` cells from position
/// `s` (wrapping) that keeps every step a king move, with the cells just
/// before and after it, scores more than `v` over the window's positions.
pub open spec fn cycle_window_best(n: int, route: Seq<usize>, w: Seq<i64>, s: int, len: int, v: int) -> bool {
    let tl = route.len() as int;
    let seg = Seq::new(MAX_WINDOW as nat, |i: int| if i < len { route[cpos(tl, s, i)] } else { 0usize });
    let pos = Seq::new(MAX_WINDOW as nat, |i: int| if i < len { cpos(tl, s, i) as usize } else { 0usize });
    let left = Some(route[cpos(tl, s, tl - 1)]);
    let right = route[cpos(tl, s, len)];
    forall|p: Seq<int>| #[trigger] good_path(n, seg, left, len, p) && p.len() == len
        && adjacent(n, seg[p.last()] as int, right as int)
        ==> path_value(seg, w, pos, p) <= v
}

/// The score of the tour window in its current order.
pub open spec fn cycle_window_score(route: Seq<usize>, w: Seq<i64>, s: int, len: int) -> int {
    let tl = route.len() as int;
    pos_score(route, w, Seq::new(MAX_WINDOW as nat, |i: int| if i < len { cpos(tl, s, i) as usize } else { 0usize }), len)
}

/// Reorders the window of `len` cells starting at position `start_idx`
/// of the closed tour (wrapping past the last position) into the best order
/// that keeps the tour closed and every step a king move, when that order
/// raises the raw score of the route. Windows as long as the tour are left
/// alone. Returns whether the route changed; `total_score` follows the raw
/// score.
pub fn optimize_cycle_window(
    route: &mut Vec<usize>,
    weights: &[i64],
    n: usize,
    start_idx: usize,
    len: usize,
    total_score: &mut i64,
) -> (changed: bool)
    requires
        search_input(n as int, old(route)@, weights@),
        is_cycle(n as int, old(route)@),
        start_idx < old(route)@.len(),
        len <= MAX_WINDOW,
        *old(total_score) == raw_score(old(route)@, weights@),
    ensures
        search_input(n as int, final(route)@, weights@),
        is_cycle(n as int, final(route)@),
        final(route)@.len() == old(route)@.len(),
        forall|i: int| 0 <= i < old(route)@.len() && !(coff(old(route)@.len() as int, start_idx as int, i) < len)
            ==> #[trigger] final(route)@[i] == old(route)@[i],
        *final(total_score) == raw_score(final(route)@, weights@),
        changed == (final(route)@ != old(route)@),
        changed ==> raw_score(final(route)@, weights@) > raw_score(old(route)@, weights@),
        1 <= len < old(route)@.len() ==> cycle_window_best(n as int, old(route)@, weights@, start_idx as int, len as int,
            cycle_window_score(old(route)@, weights@, start_idx as int, len as int)
                + (raw_score(final(route)@, weights@) - raw_score(old(route)@, weights@))),
{
    let total_len = route.len();
    if len >= total_len || len == 0 {
        return false;
    }
    let ghost old_route = route@;
    let ghost w = weights@;
    let ghost tl = total_len as int;
    let ghost s = start_idx as int;
    proof {
        assert(total_len <= MAX_CELLS) by (nonlinear_arith)
            requires total_len == n * n, n * n <= MAX_CELLS;
        lemma_cycle_cyclic(n as int, old_route);
    }
    let mut seg: Vec<usize> = vec![0usize; MAX_WINDOW];
    let mut pos_list: Vec<usize> = vec![0usize; MAX_WINDOW];
    let mut idx: usize = 0;
    while idx < len
        invariant
            route@ == old_route,
            total_len == old_route.len(),
            total_len <= MAX_CELLS,
            tl == total_len,
            s == start_idx,
            start_idx < total_len,
            idx <= len < total_len,
            len <= MAX_WINDOW,
            seg@.len() == MAX_WINDOW,
            pos_list@.len() == MAX_WINDOW,
            forall|k: int| 0 <= k < idx ==> #[trigger] pos_list@[k] == cpos(tl, s, k),
            forall|k: int| 0 <= k < idx ==> #[trigger] seg@[k] == old_route[cpos(tl, s, k)],
            forall|k: int| idx <= k < MAX_WINDOW ==> #[trigger] seg@[k] == 0,
            forall|k: int| idx <= k < MAX_WINDOW ==> #[trigger] pos_list@[k] == 0,
        decreases len - idx,
    {
        let pos = (start_idx + idx) % total_len;
        proof {
            if start_idx + idx >= total_len {
                crate::cycle::lemma_fundamental_div_mod_converse_pub(start_idx + idx, total_len as int, 1, start_idx + idx - total_len);
            } else {
                crate::cycle::lemma_fundamental_div_mod_converse_pub(start_idx + idx, total_len as int, 0, start_idx + idx);
            }
        }
        seg.set(idx, route[pos]);
        pos_list.set(idx, pos);
        idx += 1;
    }
    let left_idx = (start_idx + total_len - 1) % total_len;
    let right_idx = (start_idx + len) % total_len;
    proof {
        if start_idx + total_len - 1 >= total_len {
            crate::cycle::lemma_fundamental_div_mod_converse_pub(start_idx + total_len - 1, total_len as int, 1, start_idx - 1);
        } else {
            crate::cycle::lemma_fundamental_div_mod_converse_pub(start_idx + total_len - 1, total_len as int, 0, start_idx + total_len - 1);
        }
        if start_idx + len >= total_len {
            crate::cycle::lemma_fundamental_div_mod_converse_pub(start_idx + len, total_len as int, 1, start_idx + len - total_len);
        } else {
            crate::cycle::lemma_fundamental_div_mod_converse_pub(start_idx + len, total_len as int, 0, start_idx + len);
        }
        assert(cells_in(seg@, w.len() as int)) by {
            assert forall|k: int| 0 <= k < seg@.len() implies #[trigger] seg@[k] < w.len() by {
                if k < len {
                    assert(seg@[k] == old_route[cpos(tl, s, k)]);
                }
            }
        }
        assert forall|k: int| 0 <= k < len implies #[trigger] pos_list@[k] <= MAX_CELLS by {
            assert(pos_list@[k] == cpos(tl, s, k));
        }
    }
    let left = Some(route[left_idx]);
    let right = route[right_idx];
    proof {
        assert(left_idx == cpos(tl, s, tl - 1));
        assert(right_idx == cpos(tl, s, len as int));
    }
    let mut old_local: i64 = 0;
    let mut idx: usize = 0;
    while idx < len
        invariant
            route@ == old_route,
            search_input(n as int, old_route, w),
            w == weights@,
            total_len == old_route.len(),
            total_len <= MAX_CELLS,
            tl == total_len,
            s == start_idx,
            start_idx < total_len,
            idx <= len < total_len,
            len <= MAX_WINDOW,
            seg@.len() == MAX_WINDOW,
            pos_list@.len() == MAX_WINDOW,
            forall|k: int| 0 <= k < len ==> #[trigger] pos_list@[k] == cpos(tl, s, k),
            forall|k: int| 0 <= k < len ==> #[trigger] seg@[k] == old_route[cpos(tl, s, k)],
            old_local == pos_score(old_route, w, pos_list@, idx as int),
            -(idx * (MAX_CELLS * MAX_WEIGHT)) <= old_local <= idx * (MAX_CELLS * MAX_WEIGHT),
        decreases len - idx,
    {
        proof {
            let p = pos_list@[idx as int] as int;
            assert(seg@[idx as int] == old_route[p]);
            let x = w[seg@[idx as int] as int];
            assert(-(MAX_CELLS * MAX_WEIGHT) <= p * x <= MAX_CELLS * MAX_WEIGHT) by (nonlinear_arith)
                requires 0 <= p <= MAX_CELLS, -MAX_WEIGHT <= x <= MAX_WEIGHT;
            assert((idx + 1) * (MAX_CELLS * MAX_WEIGHT) == idx * (MAX_CELLS * MAX_WEIGHT) + MAX_CELLS * MAX_WEIGHT) by (nonlinear_arith);
            assert(idx * (MAX_CELLS * MAX_WEIGHT) <= 12 * (MAX_CELLS * MAX_WEIGHT)) by (nonlinear_arith)
                requires idx <= 12;
        }
        old_local = old_local + pos_list[idx] as i64 * weights[seg[idx]];
        idx += 1;
    }
    let (dp, parent, paths) = fill_window_table(&seg, left, n, weights, &pos_list, len);
    let ghost pt = paths@;
    let states = 1usize << len;
    let width = len;
    let full = states - 1;
    proof {
        assert(states * len <= 49152) by (nonlinear_arith) requires states <= 4096, len <= 12;
    }
    let mut best_last = usize::MAX;
    let mut best_local = old_local;
    let mut last: usize = 0;
    while last < len
        invariant
            1 <= len <= MAX_WINDOW,
            0 < n,
            width == len,
            states == (1usize << len),
            1 <= states <= 4096,
            states * len <= 49152,
            full == states - 1,
            seg@.len() == MAX_WINDOW,
            last <= len,
            table_ok(n as int, seg@, left, len as int, w, pos_list@, states as int, dp@, parent@, pt, states as int),
            best_last == usize::MAX ==> best_local == old_local,
            best_last != usize::MAX ==> best_last < len
                && dp@[slot(full as int, best_last as int, len as int)] == best_local
                && best_local != NEG_INF
                && best_local > old_local
                && adjacent(n as int, seg@[best_last as int] as int, right as int),
            win_complete(n as int, seg@, left, len as int, w, pos_list@, dp@, states as int),
            cells_in(seg@, w.len() as int),
            weights_bounded(w),
            pos_list@.len() == MAX_WINDOW,
            forall|k: int| 0 <= k < len ==> #[trigger] pos_list@[k] <= MAX_CELLS,
            forall|p: Seq<int>| #[trigger] good_path(n as int, seg@, left, len as int, p) && p.len() == len && p.last() < last
                && adjacent(n as int, seg@[p.last()] as int, right as int)
                ==> path_value(seg@, w, pos_list@, p) <= best_local,
        decreases len - last,
    {
        proof {
            lemma_slot(full as int, last as int, len as int, states as int);
            assert forall|p: Seq<int>| #[trigger] good_path(n as int, seg@, left, len as int, p) && p.len() == len && p.last() == last
                implies dp@[slot(full as int, last as int, len as int)] >= path_value(seg@, w, pos_list@, p)
                    && path_value(seg@, w, pos_list@, p) >= -(12 * (MAX_CELLS * MAX_WEIGHT)) by {
                lemma_win_full_path(n as int, seg@, left, len as int, p, states as int);
                assert(win_reached(n as int, seg@, left, len as int, p, states as int));
                assert(win_dominates(seg@, len as int, w, pos_list@, dp@, p));
                lemma_path_value_bound(seg@, w, pos_list@, p);
                assert(p.len() * (MAX_CELLS * MAX_WEIGHT) <= 12 * (MAX_CELLS * MAX_WEIGHT)) by (nonlinear_arith) requires p.len() <= 12;
            }
        }
        let value = dp[full * width + last];
        if value != NEG_INF && is_adj(seg[last], right, n) && value > best_local {
            best_local = value;
            best_last = last;
        }
        last += 1;
    }
    proof {
        let sseg = Seq::new(MAX_WINDOW as nat, |i: int| if i < len { old_route[cpos(tl, s, i)] } else { 0usize });
        let spos = Seq::new(MAX_WINDOW as nat, |i: int| if i < len { cpos(tl, s, i) as usize } else { 0usize });
        assert(seg@ =~= sseg);
        assert(pos_list@ =~= spos);
        assert forall|p: Seq<int>| #[trigger] good_path(n as int, seg@, left, len as int, p) && p.len() == len
            && adjacent(n as int, seg@[p.last()] as int, right as int)
            implies path_value(seg@, w, pos_list@, p) <= best_local by {
            assert(0 <= p.last() < len);
        }
        assert(old_local == cycle_window_score(old_route, w, s, len as int));
        assert(cycle_window_best(n as int, old_route, w, s, len as int, best_local as int));
    }
    if best_last == usize::MAX {
        return false;
    }
    let order = trace_back(&parent, Ghost(n as int), Ghost(seg@), Ghost(left), Ghost(w), Ghost(pos_list@),
        Ghost(dp@), Ghost(pt), len, states, best_last);
    let ghost target = pt[slot(full as int, best_last as int, len as int)];
    proof {
        lemma_slot(full as int, best_last as int, len as int, states as int);
        assert(cell_ok(n as int, seg@, left, len as int, w, pos_list@, dp@, parent@, pt, full as int, best_last as int, states as int));
    }
    let mut changed = false;
    let mut idx: usize = 0;
    while idx < len
        invariant
            search_input(n as int, old_route, w),
            w == weights@,
            route@.len() == old_route.len(),
            total_len == old_route.len(),
            tl == total_len,
            s == start_idx,
            start_idx < total_len,
            idx <= len < total_len,
            len <= MAX_WINDOW,
            seg@.len() == MAX_WINDOW,
            pos_list@.len() == MAX_WINDOW,
            order@.len() == MAX_WINDOW,
            target.len() == len,
            forall|k: int| 0 <= k < len ==> 0 <= #[trigger] target[k] < len,
            forall|k: int| 0 <= k < len ==> #[trigger] order@[k] == target[k],
            forall|k: int| 0 <= k < len ==> #[trigger] pos_list@[k] == cpos(tl, s, k),
            forall|k: int| 0 <= k < len ==> #[trigger] seg@[k] == old_route[cpos(tl, s, k)],
            forall|i: int| 0 <= i < tl && !(coff(tl, s, i) < idx) ==> #[trigger] route@[i] == old_route[i],
            forall|k: int| 0 <= k < idx ==> route@[cpos(tl, s, k)] == seg@[#[trigger] target[k]],
            changed == (route@ != old_route),
        decreases len - idx,
    {
        let cell = seg[order[idx]];
        let pos = pos_list[idx];
        proof {
            assert(pos == cpos(tl, s, idx as int));
            assert(coff(tl, s, pos as int) == idx);
        }
        if route[pos] != cell {
            route.set(pos, cell);
            changed = true;
            proof {
                assert(route@[pos as int] != old_route[pos as int]);
            }
        } else {
            proof {
                if !changed {
                    assert(route@ =~= old_route);
                }
            }
        }
        idx += 1;
    }
    proof {
        assert(target.last() == best_last);
        lemma_cycle_window_result(n as int, old_route, route@, w, seg@, pos_list@, target, tl, s, len as int,
            best_local as int, old_local as int, left_idx as int, right_idx as int);
        crate::descent::lemma_raw_score_bound(route@, w);
        crate::descent::lemma_raw_score_bound(old_route, w);
        lemma_path_value_bound(seg@, w, pos_list@, target);
        assert(target.len() * (MAX_CELLS * MAX_WEIGHT) <= 12 * (MAX_CELLS * MAX_WEIGHT)) by (nonlinear_arith)
            requires target.len() <= 12;
    }
    if changed {
        *total_score = *total_score + (best_local - old_local);
    }
    changed
}

/// What rewriting the window of a closed tour in the order `target` gives:
/// a closed tour whose raw score changes by the path score minus the old
/// window score.
proof fn lemma_cycle_window_result(n: int, old_route: Seq<usize>, new: Seq<usize>, w: Seq<i64>, seg: Seq<usize>,
    pl: Seq<usize>, target: Seq<int>, tl: int, s: int, len: int, best_local: int, old_local: int,
    left_idx: int, right_idx: int)
    requires
        search_input(n, old_route, w),
        is_cycle(n, old_route),
        tl == old_route.len(),
        new.len() == tl,
        0 <= s < tl,
        1 <= len < tl,
        len <= pl.len(),
        left_idx == cpos(tl, s, tl - 1),
        right_idx == cpos(tl, s, len),
        forall|k: int| 0 <= k < len ==> #[trigger] pl[k] == cpos(tl, s, k),
        forall|k: int| 0 <= k < len ==> #[trigger] seg[k] == old_route[cpos(tl, s, k)],
        target.len() == len,
        good_path(n, seg, Some(old_route[left_idx]), len, target),
        adjacent(n, seg[target.last()] as int, old_route[right_idx] as int),
        best_local == path_value(seg, w, pl, target),
        old_local == pos_score(old_route, w, pl, len),
        forall|i: int| 0 <= i < tl && !(coff(tl, s, i) < len) ==> #[trigger] new[i] == old_route[i],
        forall|k: int| 0 <= k < len ==> new[cpos(tl, s, k)] == seg[#[trigger] target[k]],
    ensures
        is_cycle(n, new),
        search_input(n, new, w),
        raw_score(new, w) == raw_score(old_route, w) + best_local - old_local,
{
    lemma_cycle_cyclic(n, old_route);
        // the new route is a permutation route
        assert forall|i: int| 0 <= i < new.len() implies #[trigger] new[i] < n * n by {
            if coff(tl, s, i) < len {
                let k = coff(tl, s, i);
                assert(cpos(tl, s, k) == i);
                assert(new[cpos(tl, s, k)] == seg[target[k]]);
                assert(seg[target[k]] == old_route[cpos(tl, s, target[k])]);
            }
        }
        assert forall|i: int, j: int| 0 <= i < new.len() && 0 <= j < new.len() && i != j implies new[i] != new[j] by {
            let ii = if coff(tl, s, i) < len { cpos(tl, s, target[coff(tl, s, i)]) } else { i };
            let jj = if coff(tl, s, j) < len { cpos(tl, s, target[coff(tl, s, j)]) } else { j };
            if coff(tl, s, i) < len {
                let k = coff(tl, s, i);
                assert(cpos(tl, s, k) == i);
                assert(new[cpos(tl, s, k)] == seg[target[k]]);
                assert(seg[target[k]] == old_route[cpos(tl, s, target[k])]);
            }
            if coff(tl, s, j) < len {
                let k = coff(tl, s, j);
                assert(cpos(tl, s, k) == j);
                assert(new[cpos(tl, s, k)] == seg[target[k]]);
                assert(seg[target[k]] == old_route[cpos(tl, s, target[k])]);
            }
            assert(new[i] == old_route[ii]);
            assert(new[j] == old_route[jj]);
            if coff(tl, s, i) < len && coff(tl, s, j) < len {
                assert(target[coff(tl, s, i)] != target[coff(tl, s, j)]);
            }
            assert(ii != jj);
        }
        assert(is_permutation_route(n as int, new));
        // every step around the tour is a king move
        assert forall|i: int| 0 <= i < new.len() implies #[trigger] adjacent(n as int, new[i] as int, new[cnext(tl, i)] as int) by {
            let j = cnext(tl, i);
            let ki = coff(tl, s, i);
            let kj = coff(tl, s, j);
            assert(adjacent(n as int, old_route[i] as int, old_route[cnext(tl, i)] as int));
            if ki < len {
                assert(cpos(tl, s, ki) == i);
                assert(new[cpos(tl, s, ki)] == seg[target[ki]]);
                if ki + 1 < len {
                    assert(kj == ki + 1);
                    assert(cpos(tl, s, kj) == j);
                    assert(new[cpos(tl, s, kj)] == seg[target[kj]]);
                    assert(adjacent(n as int, seg[target[ki]] as int, seg[target[ki + 1]] as int));
                } else {
                    assert(true);
                    assert(j == right_idx);
                }
            } else if kj < len {
                assert(kj == 0);
                assert(cpos(tl, s, 0) == j);
                assert(new[cpos(tl, s, 0)] == seg[target[0]]);
                assert(i == left_idx);
            }
        }
        lemma_cycle_cyclic(n as int, new);
        // the score
        assert forall|k: int| 0 <= k < len implies new[pl[k] as int] == seg[#[trigger] target[k]] by {
            assert(pl[k] == cpos(tl, s, k));
        }
        lemma_path_pos_score(new, seg, w, pl, target, len as int);
        assert(target.subrange(0, len as int) =~= target);
        assert forall|i: int| 0 <= i < new.len() && (forall|j: int| 0 <= j < len ==> pl[j] != i) implies new[i] == old_route[i] by {
            if coff(tl, s, i) < len {
                let k = coff(tl, s, i);
                assert(pl[k] == cpos(tl, s, k));
            }
        }
        assert forall|j1: int, j2: int| 0 <= j1 < len && 0 <= j2 < len && j1 != j2 implies pl[j1] != pl[j2] by {
            assert(pl[j1] == cpos(tl, s, j1));
            assert(pl[j2] == cpos(tl, s, j2));
        }
        assert forall|j: int| 0 <= j < len implies #[trigger] pl[j] < new.len() by {
            assert(pl[j] == cpos(tl, s, j));
        }
        lemma_positions_score(new, old_route, w, pl, len as int);
        crate::descent::lemma_raw_score_bound(new, w);
        crate::descent::lemma_raw_score_bound(old_route, w);
}

/// The tour window of `size` cells from position `s` (wrapping) is in a best
/// order: no order of its cells that keeps every step a king move, with the
/// cells just before and after it, scores more over its positions.
pub open spec fn cycle_window_optimal_at(n: int, route: Seq<usize>, w: Seq<i64>, s: int, size: int) -> bool {
    cycle_window_best(n, route, w, s, size, cycle_window_score(route, w, s, size))
}

/// Every tour window of `size` cells, from every position, is in a best
/// order (when the tour is longer than `size`).
pub open spec fn cycle_windows_optimal(n: int, route: Seq<usize>, w: Seq<i64>, size: int) -> bool {
    size < route.len() ==> forall|s: int| 0 <= s < route.len() ==> #[trigger] cycle_window_optimal_at(n, route, w, s, size)
}

/// The tour windows of `size` cells a sweep has passed: those from
/// positions before `offset` modulo `size` and those at `offset` below `pos`.
spec fn cycle_windows_swept(n: int, route: Seq<usize>, w: Seq<i64>, size: int, offset: int, pos: int) -> bool {
    size < route.len() ==> forall|q: int| 0 <= q < route.len() && (q % size < offset || (q % size == offset && q < pos))
        ==> #[trigger] cycle_window_optimal_at(n, route, w, q, size)
}

/// A sweep that finds the tour window at `pos` in a best order has passed it.
proof fn lemma_cycle_sweep_step(n: int, route: Seq<usize>, w: Seq<i64>, size: int, offset: int, pos: int)
    requires
        0 <= offset < size,
        0 <= pos,
        pos % size == offset,
        cycle_windows_swept(n, route, w, size, offset, pos),
        size < route.len() && pos < route.len() ==> cycle_window_optimal_at(n, route, w, pos, size),
    ensures
        cycle_windows_swept(n, route, w, size, offset, pos + size),
        (pos + size) % size == offset,
{
    vstd::arithmetic::div_mod::lemma_mod_add_multiples_vanish(pos, size);
    if size < route.len() {
        assert forall|q: int| 0 <= q < route.len() && (q % size < offset || (q % size == offset && q < pos + size))
            implies #[trigger] cycle_window_optimal_at(n, route, w, q, size) by {
            if q % size == offset && pos <= q {
                lemma_same_residue(q, pos, size);
            }
        }
    }
}

/// No start below `offset` has remainder `offset`: a sweep at `offset` that
/// starts at `offset` has passed nothing yet at that offset.
proof fn lemma_cycle_sweep_start(n: int, route: Seq<usize>, w: Seq<i64>, size: int, offset: int)
    requires
        0 <= offset < size,
        cycle_windows_swept(n, route, w, size, offset, 0),
    ensures
        cycle_windows_swept(n, route, w, size, offset, offset),
{
    if size < route.len() {
        assert forall|q: int| 0 <= q < route.len() && (q % size < offset || (q % size == offset && q < offset))
            implies #[trigger] cycle_window_optimal_at(n, route, w, q, size) by {
            if q < offset {
                vstd::arithmetic::div_mod::lemma_small_mod(q as nat, size as nat);
            }
        }
    }
}

/// A sweep past the end of the tour at every offset has passed every window.
proof fn lemma_cycle_sweep_done(n: int, route: Seq<usize>, w: Seq<i64>, size: int)
    requires
        0 < size,
        cycle_windows_swept(n, route, w, size, size, 0),
    ensures
        cycle_windows_optimal(n, route, w, size),
{
    if size < route.len() {
        assert forall|q: int| 0 <= q < route.len() implies #[trigger] cycle_window_optimal_at(n, route, w, q, size) by {
            vstd::arithmetic::div_mod::lemma_mod_pos_bound(q, size);
        }
    }
}

/// Window sweeps around a closed tour: windows of 9 then 8 cells at every
/// offset (wrapping past the end), each reordered optimally, repeated until
/// a round improves nothing (after at least `min_cycles` rounds) or the
/// deadline passes. The tour stays closed. `None` when a round improved
/// nothing: then every tour window of 9 and of 8 cells, from every
/// position, is in a best order. Otherwise the evidence that `deadline`
/// had passed since `start`.
pub fn run_cycle_window_descent(
    route: &mut Vec<usize>,
    weights: &[i64],
    n: usize,
    total_score: &mut i64,
    start: &Instant,
    deadline: Duration,
    min_cycles: usize,
) -> (stop: Option<TimeUp>)
    requires
        search_input(n as int, old(route)@, weights@),
        is_cycle(n as int, old(route)@),
        *old(total_score) == raw_score(old(route)@, weights@),
    ensures
        search_input(n as int, final(route)@, weights@),
        is_cycle(n as int, final(route)@),
        *final(total_score) == raw_score(final(route)@, weights@),
        raw_score(final(route)@, weights@) >= raw_score(old(route)@, weights@),
        stop is None ==> cycle_windows_optimal(n as int, final(route)@, weights@, 9)
            && cycle_windows_optimal(n as int, final(route)@, weights@, 8),
        stop matches Some(t) ==> t.started() == *start && t.limit() == deadline,
{
    let window_sizes: [usize; 2] = [9usize, 8usize];
    let ghost w = weights@;
    let ghost nn = n as int;
    let ghost bound = MAX_CELLS * (MAX_CELLS * MAX_WEIGHT);
    let mut cycle: usize = 0;
    proof {
        lemma_raw_score_bound(route@, w);
    }
    loop
        invariant
            search_input(n as int, route@, w),
            is_cycle(n as int, route@),
            w == weights@,
            nn == n,
            *total_score == raw_score(route@, w),
            raw_score(route@, w) >= raw_score(old(route)@, w),
            bound == MAX_CELLS * (MAX_CELLS * MAX_WEIGHT),
            -bound <= raw_score(route@, w) <= bound,
            window_sizes[0] == 9,
            window_sizes[1] == 8,
            cycle <= min_cycles,
        decreases bound - raw_score(route@, w), min_cycles - cycle,
    {
        if let Some(t) = check_deadline(start, &deadline) {
            return Some(t);
        }
        let ghost round_start = raw_score(route@, w);
        let ghost round_route = route@;
        let mut improved = false;
        let mut wi: usize = 0;
        while wi < 2
            invariant
                search_input(n as int, route@, w),
                is_cycle(n as int, route@),
                w == weights@,
                nn == n,
                *total_score == raw_score(route@, w),
                raw_score(route@, w) >= raw_score(old(route)@, w),
                improved ==> raw_score(route@, w) > round_start,
                !improved ==> route@ == round_route,
                round_start == raw_score(round_route, w),
                route@.len() == round_route.len(),
                !improved && wi >= 1 ==> cycle_windows_optimal(nn, round_route, w, 9),
                !improved && wi >= 2 ==> cycle_windows_optimal(nn, round_route, w, 8),
                bound == MAX_CELLS * (MAX_CELLS * MAX_WEIGHT),
                -bound <= raw_score(route@, w) <= bound,
                window_sizes[0] == 9,
                window_sizes[1] == 8,
                wi <= 2,
            decreases 2 - wi,
        {
            let window = window_sizes[wi];
            let mut offset: usize = 0;
            while offset < window
                invariant
                    search_input(n as int, route@, w),
                    is_cycle(n as int, route@),
                    w == weights@,
                    nn == n,
                    *total_score == raw_score(route@, w),
                    raw_score(route@, w) >= raw_score(old(route)@, w),
                    improved ==> raw_score(route@, w) > round_start,
                    !improved ==> route@ == round_route,
                    round_start == raw_score(round_route, w),
                    route@.len() == round_route.len(),
                    !improved && wi >= 1 ==> cycle_windows_optimal(nn, round_route, w, 9),
                    !improved ==> cycle_windows_swept(nn, round_route, w, window as int, offset as int, 0),
                    bound == MAX_CELLS * (MAX_CELLS * MAX_WEIGHT),
                    -bound <= raw_score(route@, w) <= bound,
                    window_sizes[0] == 9,
                    window_sizes[1] == 8,
                    wi < 2,
                    window == window_sizes[wi as int],
                    offset <= window,
                decreases window - offset,
            {
                if let Some(t) = check_deadline(start, &deadline) {
                    return Some(t);
                }
                let mut pos: usize = offset;
                proof {
                    vstd::arithmetic::div_mod::lemma_small_mod(offset as nat, window as nat);
                    if !improved {
                        lemma_cycle_sweep_start(nn, round_route, w, window as int, offset as int);
                    }
                }
                while pos < route.len()
                    invariant
                        search_input(n as int, route@, w),
                        is_cycle(n as int, route@),
                        w == weights@,
                        nn == n,
                        *total_score == raw_score(route@, w),
                        raw_score(route@, w) >= raw_score(old(route)@, w),
                        improved ==> raw_score(route@, w) > round_start,
                        !improved ==> route@ == round_route,
                        round_start == raw_score(round_route, w),
                        route@.len() == round_route.len(),
                        !improved && wi >= 1 ==> cycle_windows_optimal(nn, round_route, w, 9),
                        !improved ==> cycle_windows_swept(nn, round_route, w, window as int, offset as int, pos as int),
                        pos % window == offset,
                        bound == MAX_CELLS * (MAX_CELLS * MAX_WEIGHT),
                        -bound <= raw_score(route@, w) <= bound,
                        window_sizes[0] == 9,
                        window_sizes[1] == 8,
                        wi < 2,
                        window == window_sizes[wi as int],
                        offset < window,
                        pos <= MAX_CELLS + 10,
                    decreases route@.len() + 10 - pos,
                {
                    let ghost before = route@;
                    if optimize_cycle_window(route, weights, n, pos, window, total_score) {
                        improved = true;
                    }
                    proof {
                        if !improved {
                            assert(route@ == before);
                            if (window as int) < round_route.len() {
                                assert(cycle_window_optimal_at(nn, round_route, w, pos as int, window as int));
                            }
                            lemma_cycle_sweep_step(nn, round_route, w, window as int, offset as int, pos as int);
                        }
                        lemma_raw_score_bound(route@, w);
                        vstd::arithmetic::div_mod::lemma_mod_add_multiples_vanish(pos as int, window as int);
                    }
                    pos += window;
                }
                offset += 1;
            }
            proof {
                if !improved {
                    lemma_cycle_sweep_done(nn, round_route, w, window as int);
                }
            }
            wi += 1;
        }
        if cycle < min_cycles {
            cycle += 1;
        }
        if !improved && cycle >= min_cycles {
            return None;
        }
    }
}

/// Re-optimizes, around each anchor, the windows of 9 and 8 cells that
/// start from `window + 2` positions before it to `window + 2` after it,
/// around the tour. The tour stays closed.
pub fn refine_cycle_around(
    route: &mut Vec<usize>,
    weights: &[i64],
    n: usize,
    total_score: &mut i64,
    anchors: &[usize],
)
    requires
        search_input(n as int, old(route)@, weights@),
        is_cycle(n as int, old(route)@),
        old(route)@.len() >= 11,
        forall|i: int| 0 <= i < anchors@.len() ==> #[trigger] anchors@[i] < old(route)@.len(),
        *old(total_score) == raw_score(old(route)@, weights@),
    ensures
        search_input(n as int, final(route)@, weights@),
        is_cycle(n as int, final(route)@),
        *final(total_score) == raw_score(final(route)@, weights@),
        raw_score(final(route)@, weights@) >= raw_score(old(route)@, weights@),
{
    let ghost w = weights@;
    let len = route.len();
    let window_sizes: [usize; 2] = [9usize, 8usize];
    let mut ai: usize = 0;
    while ai < anchors.len()
        invariant
            search_input(n as int, route@, w),
            is_cycle(n as int, route@),
            w == weights@,
            len == route@.len(),
            len >= 11,
            forall|i: int| 0 <= i < anchors@.len() ==> #[trigger] anchors@[i] < len,
            *total_score == raw_score(route@, w),
            raw_score(route@, w) >= raw_score(old(route)@, w),
            window_sizes[0] == 9,
            window_sizes[1] == 8,
        decreases anchors@.len() - ai,
    {
        let anchor = anchors[ai];
        let mut wi: usize = 0;
        while wi < 2
            invariant
                search_input(n as int, route@, w),
                is_cycle(n as int, route@),
                w == weights@,
                len == route@.len(),
                len >= 11,
                anchor < len,
                *total_score == raw_score(route@, w),
                raw_score(route@, w) >= raw_score(old(route)@, w),
                window_sizes[0] == 9,
                window_sizes[1] == 8,
                wi <= 2,
            decreases 2 - wi,
        {
            let window = window_sizes[wi];
            let span = window + 2;
            let mut shift: usize = 0;
            while shift <= 2 * span
                invariant
                    search_input(n as int, route@, w),
                    is_cycle(n as int, route@),
                    w == weights@,
                    len == route@.len(),
                    len >= 11,
                    len <= MAX_CELLS,
                    anchor < len,
                    span == window + 2,
                    window == 9 || window == 8,
                    *total_score == raw_score(route@, w),
                    raw_score(route@, w) >= raw_score(old(route)@, w),
                decreases 2 * span + 1 - shift,
            {
                let s = (anchor + len - span + shift) % len;
                optimize_cycle_window(route, weights, n, s, window, total_score);
                shift += 1;
            }
            wi += 1;
        }
        ai += 1;
    }
}

} // verus!
