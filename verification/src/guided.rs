//! Moves guided by weight ranks: heavy cells are pulled towards the late
//! positions their rank calls for, light cells towards early ones.
use vstd::prelude::*;
use crate::grid::{adjacent, is_route, is_permutation_route, raw_score, cells_in, weights_bounded,
    MAX_CELLS, MAX_WEIGHT, is_adj};
use crate::moves::wsum;
use crate::cycle::{is_cycle, lemma_same_ends_cycle};
use crate::cycle_window::refine_cycle_around;
use crate::descent::{search_input, lemma_raw_score_bound};
use crate::window::optimize_window;
use crate::clock::before_deadline;
use crate::util::div_toward_zero;
use crate::moves::{rebuild_aux, aux_of};
use std::time::{Duration, Instant};
use crate::relocate::{apply_relocation, lemma_relocation_keeps_route, RelocationMove, fits_relocation, reloc_shape, reloc_gain, reloc_src, relocated,
    moved_segment, relocation_delta, edge_disjoint_from_segment};

verus! {

/// `base + delta`, kept within `0..=usize::MAX` and then capped at `upper`.
pub open spec fn shifted_index(base: int, delta: int, upper: int) -> int {
    let v = base + delta;
    let c = if v < 0 { 0 } else if v > usize::MAX { usize::MAX as int } else { v };
    if c < upper { c } else { upper }
}

/// `base` moved by `delta` (saturating at both ends of `usize`), capped at `upper`.
pub fn shift_index(base: usize, delta: isize, upper: usize) -> (res: usize)
    requires
        delta > isize::MIN,
    ensures
        res == shifted_index(base as int, delta as int, upper as int),
{
    if delta >= 0 {
        let d = delta as usize;
        let v = if base <= usize::MAX - d { base + d } else { usize::MAX };
        if v < upper { v } else { upper }
    } else {
        let d = (-delta) as usize;
        let v = if base >= d { base - d } else { 0 };
        if v < upper { v } else { upper }
    }
}

/// Position of the cell at `cur` (inside `l..=r`) after the relocation.
pub fn moved_cell_position(cur: usize, l: usize, r: usize, p: usize, reversed: bool) -> (res: usize)
    requires
        l <= cur <= r,
        p < l || r < p,
        p < usize::MAX - 16,
        r - l < 16,
        r < p ==> p + 1 >= r - l + 1,
    ensures
        reloc_src(l as int, r as int, p as int, reversed, res as int) == cur,
        p < l ==> p + 1 <= res <= p + 1 + (r - l),
        r < p ==> p + 1 - (r - l + 1) <= res <= p,
{
    let seg_len = r - l + 1;
    let off = cur - l;
    let new_off = if reversed { seg_len - 1 - off } else { off };
    if p < l {
        p + 1 + new_off
    } else {
        p + 1 - seg_len + new_off
    }
}

/// Start of the window of `window` cells centred on `center`, kept within
/// `1..=len - window - 1`.
pub fn clamp_window_start(center: usize, window: usize, len: usize) -> (res: usize)
    requires
        window + 2 <= len,
    ensures
        res == ({
            let half = window / 2;
            let v = if center >= half { center - half } else { 0 };
            if v < 1 { 1 } else if v > len - window - 1 { (len - window - 1) as int } else { v as int }
        }),
        1 <= res,
        res + window + 1 <= len,
{
    let half = window / 2;
    let v = if center >= half { center - half } else { 0 };
    let hi = len - window - 1;
    if v < 1 {
        1
    } else if v > hi {
        hi
    } else {
        v
    }
}

/// The relocation of `route[l..=r]` between `route[p]` and `route[p + 1]`
/// (reversed when `reversed`) with its score change, when it keeps every
/// step a king move; `None` otherwise.
pub fn evaluate_guided_relocation(
    route: &[usize],
    weights: &[i64],
    prefix_weight: &[i64],
    n: usize,
    l: usize,
    r: usize,
    p: usize,
    reversed: bool,
) -> (res: Option<RelocationMove>)
    requires
        0 < n,
        1 <= l <= r,
        r - l < 8,
        r + 1 < route@.len(),
        p + 1 < route@.len(),
        route@.len() <= MAX_CELLS,
        cells_in(route@, weights@.len() as int),
        weights_bounded(weights@),
        prefix_weight@.len() == route@.len() + 1,
        forall|k: int| 0 <= k <= route@.len() ==> #[trigger] prefix_weight@[k] == wsum(route@, weights@, k),
    ensures
        res is Some <==> fits_relocation(n as int, route@, l as int, r as int, p as int, reversed),
        res matches Some(mv) ==> mv.l == l && mv.r == r && mv.p == p && mv.reversed == reversed
            && mv.delta == reloc_gain(route@, weights@, l as int, r as int, p as int, reversed),
{
    if !is_adj(route[l - 1], route[r + 1], n) {
        return None;
    }
    if !edge_disjoint_from_segment(p, l, r) {
        return None;
    }
    let first = if reversed { route[r] } else { route[l] };
    let last = if reversed { route[l] } else { route[r] };
    proof {
        let seg = moved_segment(route@, l as int, r as int, reversed);
        assert(seg[0] == first);
        assert(seg.last() == last);
    }
    if !is_adj(route[p], first, n) || !is_adj(last, route[p + 1], n) {
        return None;
    }
    let delta = relocation_delta(route, weights, prefix_weight, l, r, p, reversed);
    Some(RelocationMove { l, r, p, reversed, delta })
}


/// Position of the cell at `cur` after relocating `l..=r` next to `p`.
pub open spec fn moved_pos(cur: int, l: int, r: int, p: int, rev: bool) -> int {
    let m = r - l + 1;
    let off = if rev { m - 1 - (cur - l) } else { cur - l };
    if p < l { p + 1 + off } else { p + 1 - m + off }
}

/// `|a - b|`.
pub open spec fn dist(a: int, b: int) -> int {
    if a >= b { a - b } else { b - a }
}

/// A guided relocation of `cell` (at `cur`) towards `target`: it keeps every
/// step a king move, moves a segment of at most 8 cells holding the cell,
/// brings the cell strictly closer to `target`, and its score change plus a
/// quarter of the weight-times-distance gained is positive.
pub open spec fn guided_move_ok(n: int, route: Seq<usize>, w: Seq<i64>, cur: int, wc: int, target: int,
    mv: RelocationMove) -> bool {
    let np = moved_pos(cur, mv.l as int, mv.r as int, mv.p as int, mv.reversed);
    let gain = dist(cur, target) - dist(np, target);
    &&& fits_relocation(n, route, mv.l as int, mv.r as int, mv.p as int, mv.reversed)
    &&& mv.r - mv.l < 8
    &&& mv.l <= cur <= mv.r
    &&& mv.delta == reloc_gain(route, w, mv.l as int, mv.r as int, mv.p as int, mv.reversed)
    &&& gain > 0
    &&& mv.delta + div_toward_zero(gain * wc, 4) > 0
}

/// Magnitude of the anchor offsets of pair `j`.
pub open spec fn offset_magnitude(j: int) -> int {
    if j == 0 { 0 } else if j == 1 { 1 } else if j == 2 { 2 } else if j == 3 { 4 } else if j == 4 { 8 }
    else if j == 5 { 12 } else if j == 6 { 20 } else if j == 7 { 32 } else if j == 8 { 48 }
    else if j == 9 { 64 } else if j == 10 { 96 } else { 128 }
}

/// The `k`-th anchor offset (see `target_offset`): magnitude
/// `offset_magnitude((k + 1) / 2)`, negative for odd `k`.
pub open spec fn target_offset_spec(k: int) -> int {
    let m = offset_magnitude((k + 1) / 2);
    if k % 2 == 1 { -m } else { m }
}

/// The `k`-th anchor offset tried: 0, then -1, 1, -2, 2, -4, 4, -8, 8,
/// -12, 12, -20, 20, -32, 32, -48, 48, -64, 64, -96, 96, -128, 128.
pub fn target_offset(k: usize) -> (d: isize)
    requires
        k < 23,
    ensures
        d == target_offset_spec(k as int),
        -128 <= d <= 128,
{
    let m: isize = match (k + 1) / 2 {
        0 => 0,
        1 => 1,
        2 => 2,
        3 => 4,
        4 => 8,
        5 => 12,
        6 => 20,
        7 => 32,
        8 => 48,
        9 => 64,
        10 => 96,
        _ => 128,
    };
    if k % 2 == 1 { -m } else { m }
}

/// The key of a guided move: `4096 * delta + 24 * gain * wc
/// - 16 * (seg_sum - wc) - d * (wc / 4 + 1)`.
pub open spec fn guided_key(delta: int, gain: int, wc: int, seg_sum: int, d: int) -> int {
    delta * 4096 + (gain * wc) * 24 - (seg_sum - wc) * 16 - d * (div_toward_zero(wc, 4) + 1)
}

/// The relocation of `route[l..=r]` next to `p` with its key, when it is
/// acceptable for moving the cell at `cur` (of weight `wc`) towards `target`
/// (see `guided_move_ok`); `d` is the anchor's distance from the ideal one.
fn guided_candidate(
    route: &[usize],
    weights: &[i64],
    prefix_weight: &[i64],
    n: usize,
    cur: usize,
    wc: i64,
    target: usize,
    l: usize,
    r: usize,
    p: usize,
    reversed: bool,
    d: usize,
    seg_sum: i64,
) -> (res: Option<(RelocationMove, i128)>)
    requires
        0 < n,
        route@.len() <= MAX_CELLS,
        cells_in(route@, weights@.len() as int),
        weights_bounded(weights@),
        prefix_weight@.len() == route@.len() + 1,
        forall|k: int| 0 <= k <= route@.len() ==> #[trigger] prefix_weight@[k] == wsum(route@, weights@, k),
        -MAX_WEIGHT <= wc <= MAX_WEIGHT,
        target <= MAX_CELLS,
        1 <= l <= cur <= r,
        r - l < 8,
        r + 1 < route@.len(),
        p + 1 < route@.len(),
        d <= 192,
        -(2 * (MAX_CELLS * MAX_WEIGHT)) <= seg_sum <= 2 * (MAX_CELLS * MAX_WEIGHT),
    ensures
        res matches Some(c) ==> guided_move_ok(n as int, route@, weights@, cur as int, wc as int, target as int, c.0),
        res is Some <==> ({
            let gain = dist(cur as int, target as int) - dist(moved_pos(cur as int, l as int, r as int, p as int, reversed), target as int);
            &&& fits_relocation(n as int, route@, l as int, r as int, p as int, reversed)
            &&& gain > 0
            &&& reloc_gain(route@, weights@, l as int, r as int, p as int, reversed) + div_toward_zero(gain * wc, 4) > 0
        }),
        res matches Some(c) ==> c.1 > i128::MIN,
        res matches Some(c) ==> c.0.l == l && c.0.r == r && c.0.p == p && c.0.reversed == reversed
            && c.1 == guided_key(c.0.delta as int,
                dist(cur as int, target as int) - dist(moved_pos(cur as int, l as int, r as int, p as int, reversed), target as int),
                wc as int, seg_sum as int, d as int),
{
    let ghost rt = route@;
    let ghost w = weights@;
    let mv = match evaluate_guided_relocation(route, weights, prefix_weight, n, l, r, p, reversed) {
        Some(mv) => mv,
        None => return None,
    };
    let new_pos = moved_cell_position(cur, l, r, p, reversed);
    let before = if cur >= target { cur - target } else { target - cur };
    let after = if new_pos >= target { new_pos - target } else { target - new_pos };
    if after >= before {
        return None;
    }
    let improvement = (before - after) as i64;
    proof {
        let rn = relocated(rt, l as int, r as int, p as int, reversed);
        crate::descent::lemma_raw_score_bound(rt, w);
        assert(cells_in(rn, w.len() as int)) by {
            assert forall|i: int| 0 <= i < rn.len() implies #[trigger] rn[i] < w.len() by {
                assert(0 <= reloc_src(l as int, r as int, p as int, reversed, i) < rt.len());
            }
        }
        crate::descent::lemma_raw_score_bound(rn, w);
        assert(-(MAX_CELLS * MAX_WEIGHT) <= improvement * wc <= MAX_CELLS * MAX_WEIGHT) by (nonlinear_arith)
            requires 0 < improvement <= MAX_CELLS, -MAX_WEIGHT <= wc <= MAX_WEIGHT;
        assert(moved_pos(cur as int, l as int, r as int, p as int, reversed) == new_pos);
    }
    let slot_gain = improvement * wc;
    if mv.delta + slot_gain / 4 <= 0 {
        return None;
    }
    let q = wc as i128 / 4 + 1;
    proof {
        assert(-MAX_WEIGHT <= q <= MAX_WEIGHT);
        assert(-(192 * MAX_WEIGHT) <= d * q <= 192 * MAX_WEIGHT) by (nonlinear_arith)
            requires 0 <= d <= 192, -MAX_WEIGHT <= q <= MAX_WEIGHT;
    }
    let key = (mv.delta as i128) * 4096 + (slot_gain as i128) * 24
        - (seg_sum as i128 - wc as i128) * 16
        - d as i128 * q;
    Some((mv, key))
}

/// Where a guided try would like to put the anchor: so that the cell at
/// `cur` (in segment `l..l + seg_len`, reversed when `rev`) lands on
/// `target`.
pub open spec fn guided_base(cur: int, target: int, seg_len: int, l: int, rev: bool) -> int {
    let off = cur - l;
    let back = if rev { seg_len - 1 - off } else { off };
    let desired_start = if target >= back { target - back } else { 0 };
    if target > cur { desired_start + (seg_len - 1) } else if desired_start >= 1 { desired_start - 1 } else { 0 }
}

/// The anchor of try `k`: the base shifted by the `k`-th offset, within
/// `0..=len - 2`.
pub open spec fn guided_anchor(len: int, cur: int, target: int, seg_len: int, l: int, rev: bool, k: int) -> int {
    shifted_index(guided_base(cur, target, seg_len, l, rev), target_offset_spec(k), len - 2)
}

/// The segments, orientations and offsets a guided search tries: segments
/// of 1 to `min(len - 2, 8)` cells holding `cur` and clear of the route
/// ends, 23 offsets each.
pub open spec fn guided_tried(len: int, cur: int, seg_len: int, l: int, k: int) -> bool {
    let max_seg = if len - 2 < 8 { len - 2 } else { 8 };
    &&& 1 <= seg_len <= max_seg
    &&& 1 <= l
    &&& cur - (seg_len - 1) <= l <= cur
    &&& l + seg_len + 1 <= len
    &&& 0 <= k < 23
}

/// The relocation a try makes.
pub open spec fn guided_try_move(route: Seq<usize>, w: Seq<i64>, cur: int, target: int, seg_len: int, l: int, ri: int,
    k: int) -> RelocationMove {
    let rev = ri == 1;
    let r = l + seg_len - 1;
    let p = guided_anchor(route.len() as int, cur, target, seg_len, l, rev, k);
    RelocationMove { l: l as usize, r: r as usize, p: p as usize, reversed: rev,
        delta: reloc_gain(route, w, l, r, p, rev) as i64 }
}

/// The try is acceptable: its anchor within 192 of the base, and the move
/// it makes fits and brings the cell closer with enough gain.
pub open spec fn guided_ok_try(n: int, route: Seq<usize>, w: Seq<i64>, cur: int, wc: int, target: int, seg_len: int, l: int,
    ri: int, k: int) -> bool {
    let rev = ri == 1;
    let len = route.len() as int;
    let r = l + seg_len - 1;
    let base = guided_base(cur, target, seg_len, l, rev);
    let p = guided_anchor(len, cur, target, seg_len, l, rev, k);
    let gain = dist(cur, target) - dist(moved_pos(cur, l, r, p, rev), target);
    &&& dist(p, base) <= 192
    &&& fits_relocation(n, route, l, r, p, rev)
    &&& gain > 0
    &&& reloc_gain(route, w, l, r, p, rev) + div_toward_zero(gain * wc, 4) > 0
}

/// The key of a try (see `guided_key`).
pub open spec fn guided_try_key(route: Seq<usize>, w: Seq<i64>, cur: int, wc: int, target: int, seg_len: int, l: int,
    ri: int, k: int) -> int {
    let rev = ri == 1;
    let len = route.len() as int;
    let r = l + seg_len - 1;
    let base = guided_base(cur, target, seg_len, l, rev);
    let p = guided_anchor(len, cur, target, seg_len, l, rev, k);
    let gain = dist(cur, target) - dist(moved_pos(cur, l, r, p, rev), target);
    guided_key(reloc_gain(route, w, l, r, p, rev), gain, wc, wsum(route, w, r + 1) - wsum(route, w, l), dist(p, base))
}

/// Try `(s, l, ri, k)` comes before `(s2, l2, ri2, k2)` in the search order.
pub open spec fn guided_before(s: int, l: int, ri: int, k: int, s2: int, l2: int, ri2: int, k2: int) -> bool {
    s < s2 || (s == s2 && (l < l2 || (l == l2 && (ri < ri2 || (ri == ri2 && k < k2)))))
}

/// The search state carries over between cursors that have the same tries
/// before them.
proof fn lemma_scan_shift(n: int, route: Seq<usize>, w: Seq<i64>, cur: int, wc: int, target: int,
    a0: int, a1: int, a2: int, a3: int, b0: int, b1: int, b2: int, b3: int, best: Option<RelocationMove>, best_key: int)
    requires
        guided_scan_ok(n, route, w, cur, wc, target, a0, a1, a2, a3, best, best_key),
        forall|s: int, l: int, ri: int, k: int| guided_tried(route.len() as int, cur, s, l, k) && 0 <= ri < 2 ==>
            (#[trigger] guided_before(s, l, ri, k, a0, a1, a2, a3) <==> guided_before(s, l, ri, k, b0, b1, b2, b3)),
    ensures
        guided_scan_ok(n, route, w, cur, wc, target, b0, b1, b2, b3, best, best_key),
{
    if let Some(mv) = best {
        let (s, l, ri, k) = choose|s: int, l: int, ri: int, k: int| guided_tried(route.len() as int, cur, s, l, k)
            && 0 <= ri < 2 && guided_before(s, l, ri, k, a0, a1, a2, a3) && #[trigger] guided_ok_try(n, route, w, cur, wc, target, s, l, ri, k)
            && mv == guided_try_move(route, w, cur, target, s, l, ri, k)
            && best_key == guided_try_key(route, w, cur, wc, target, s, l, ri, k);
        assert(guided_before(s, l, ri, k, b0, b1, b2, b3));
    }
    assert forall|s: int, l: int, ri: int, k: int| guided_tried(route.len() as int, cur, s, l, k) && 0 <= ri < 2
        && guided_before(s, l, ri, k, b0, b1, b2, b3) && #[trigger] guided_ok_try(n, route, w, cur, wc, target, s, l, ri, k)
        implies best is Some && guided_try_key(route, w, cur, wc, target, s, l, ri, k) <= best_key by {
        assert(guided_before(s, l, ri, k, a0, a1, a2, a3));
    }
}

/// One try of the search: the state moves past it.
proof fn lemma_scan_step(n: int, route: Seq<usize>, w: Seq<i64>, cur: int, wc: int, target: int,
    s0: int, l0: int, ri0: int, k0: int, best0: Option<RelocationMove>, key0: int, best: Option<RelocationMove>, key1: int)
    requires
        guided_scan_ok(n, route, w, cur, wc, target, s0, l0, ri0, k0, best0, key0),
        guided_tried(route.len() as int, cur, s0, l0, k0),
        0 <= ri0 < 2,
        !guided_ok_try(n, route, w, cur, wc, target, s0, l0, ri0, k0) ==> best == best0 && key1 == key0,
        guided_ok_try(n, route, w, cur, wc, target, s0, l0, ri0, k0) ==> {
            let tk = guided_try_key(route, w, cur, wc, target, s0, l0, ri0, k0);
            ||| (best0 is Some && best == best0 && key1 == key0 && tk <= key0)
            ||| (best == Some(guided_try_move(route, w, cur, target, s0, l0, ri0, k0)) && key1 == tk
                && (best0 is Some ==> tk > key0))
        },
    ensures
        guided_scan_ok(n, route, w, cur, wc, target, s0, l0, ri0, k0 + 1, best, key1),
{
    let ok = guided_ok_try(n, route, w, cur, wc, target, s0, l0, ri0, k0);
    assert forall|s2: int, l2: int, ri2: int, k2: int| guided_tried(route.len() as int, cur, s2, l2, k2) && 0 <= ri2 < 2
        && guided_before(s2, l2, ri2, k2, s0, l0, ri0, k0 + 1)
        && #[trigger] guided_ok_try(n, route, w, cur, wc, target, s2, l2, ri2, k2)
        implies best is Some && guided_try_key(route, w, cur, wc, target, s2, l2, ri2, k2) <= key1 by {
        if !guided_before(s2, l2, ri2, k2, s0, l0, ri0, k0) {
            assert(s2 == s0 && l2 == l0 && ri2 == ri0 && k2 == k0);
        }
    }
    if best != best0 {
        assert(guided_before(s0, l0, ri0, k0, s0, l0, ri0, k0 + 1));
    } else if let Some(mv) = best {
        let (s3, l3, ri3, k3) = choose|s3: int, l3: int, ri3: int, k3: int| guided_tried(route.len() as int, cur, s3, l3, k3)
            && 0 <= ri3 < 2 && guided_before(s3, l3, ri3, k3, s0, l0, ri0, k0)
            && #[trigger] guided_ok_try(n, route, w, cur, wc, target, s3, l3, ri3, k3)
            && mv == guided_try_move(route, w, cur, target, s3, l3, ri3, k3)
            && key0 == guided_try_key(route, w, cur, wc, target, s3, l3, ri3, k3);
        assert(guided_before(s3, l3, ri3, k3, s0, l0, ri0, k0 + 1));
    }
}

/// The result of the guided search: `None` exactly when no try is
/// acceptable, else the move of an acceptable try with the largest key.
pub open spec fn guided_best(n: int, route: Seq<usize>, w: Seq<i64>, cur: int, wc: int, target: int,
    best: Option<RelocationMove>) -> bool {
    &&& best is None <==> forall|s: int, l: int, ri: int, k: int| guided_tried(route.len() as int, cur, s, l, k) && 0 <= ri < 2
        ==> !#[trigger] guided_ok_try(n, route, w, cur, wc, target, s, l, ri, k)
    &&& best matches Some(mv) ==> exists|s: int, l: int, ri: int, k: int| guided_tried(route.len() as int, cur, s, l, k)
        && 0 <= ri < 2 && #[trigger] guided_ok_try(n, route, w, cur, wc, target, s, l, ri, k)
        && mv == guided_try_move(route, w, cur, target, s, l, ri, k)
        && forall|s2: int, l2: int, ri2: int, k2: int| guided_tried(route.len() as int, cur, s2, l2, k2) && 0 <= ri2 < 2
            && #[trigger] guided_ok_try(n, route, w, cur, wc, target, s2, l2, ri2, k2)
            ==> guided_try_key(route, w, cur, wc, target, s2, l2, ri2, k2) <= guided_try_key(route, w, cur, wc, target, s, l, ri, k)
}

/// `seg_sum` is the weight of `route[l..=r]`.
pub open spec fn base_seg_sum_ok(route: Seq<usize>, w: Seq<i64>, l: int, r: int, seg_sum: int) -> bool {
    seg_sum == wsum(route, w, r + 1) - wsum(route, w, l)
}

/// Every acceptable try before `(s2, l2, ri2, k2)` has a key at most
/// `best_key`, and there is a best move exactly when there was one.
pub open spec fn guided_scan_ok(n: int, route: Seq<usize>, w: Seq<i64>, cur: int, wc: int, target: int,
    s2: int, l2: int, ri2: int, k2: int, best: Option<RelocationMove>, best_key: int) -> bool {
    &&& forall|s: int, l: int, ri: int, k: int| guided_tried(route.len() as int, cur, s, l, k) && 0 <= ri < 2
        && guided_before(s, l, ri, k, s2, l2, ri2, k2) && #[trigger] guided_ok_try(n, route, w, cur, wc, target, s, l, ri, k)
        ==> best is Some && guided_try_key(route, w, cur, wc, target, s, l, ri, k) <= best_key
    &&& best matches Some(mv) ==> exists|s: int, l: int, ri: int, k: int| guided_tried(route.len() as int, cur, s, l, k)
        && 0 <= ri < 2 && guided_before(s, l, ri, k, s2, l2, ri2, k2) && #[trigger] guided_ok_try(n, route, w, cur, wc, target, s, l, ri, k)
        && mv == guided_try_move(route, w, cur, target, s, l, ri, k)
        && best_key == guided_try_key(route, w, cur, wc, target, s, l, ri, k)
}

/// The best guided relocation of `cell` towards position `target`: over
/// segments of 1 to 8 cells holding the cell (not touching the route ends),
/// both orientations, and anchors at the listed offsets (within 192) from
/// where the cell would land on `target`, the acceptable move (see
/// `guided_move_ok`) with the highest key: `4096 * delta + 24 * slot gain
/// - 16 * (segment weight - cell weight) - offset * (cell weight / 4 + 1)`.
pub fn best_guided_move(
    route: &[usize],
    weights: &[i64],
    position: &[usize],
    prefix_weight: &[i64],
    n: usize,
    cell: usize,
    target: usize,
) -> (best: Option<RelocationMove>)
    requires
        0 < n,
        route@.len() <= MAX_CELLS,
        cells_in(route@, weights@.len() as int),
        weights_bounded(weights@),
        cell < position@.len(),
        cell < weights@.len(),
        target <= MAX_CELLS,
        prefix_weight@.len() == route@.len() + 1,
        forall|k: int| 0 <= k <= route@.len() ==> #[trigger] prefix_weight@[k] == wsum(route@, weights@, k),
    ensures
        best matches Some(mv) ==> guided_move_ok(n as int, route@, weights@, position@[cell as int] as int,
            weights@[cell as int] as int, target as int, mv),
        guided_best(n as int, route@, weights@, position@[cell as int] as int, weights@[cell as int] as int, target as int, best),
{
    let ghost rt = route@;
    let ghost w = weights@;
    let len = route.len();
    let cur = position[cell];
    if cur == 0 || len < 2 || cur >= len - 1 {
        return None;
    }
    let wc = weights[cell];
    let mut best: Option<RelocationMove> = None;
    let mut best_key: i128 = i128::MIN;
    let max_seg = if len - 2 < 8 { len - 2 } else { 8 };
    let mut seg_len: usize = 1;
    proof {
        assert(guided_scan_ok(n as int, rt, w, cur as int, wc as int, target as int, 1, 0, 0, 0, best, best_key as int));
    }
    while seg_len <= max_seg
        invariant
            0 < n,
            rt == route@,
            w == weights@,
            len == rt.len(),
            len <= MAX_CELLS,
            cells_in(rt, w.len() as int),
            weights_bounded(w),
            prefix_weight@.len() == len + 1,
            forall|k: int| 0 <= k <= len ==> #[trigger] prefix_weight@[k] == wsum(rt, w, k),
            1 <= cur,
            cur + 1 < len,
            cur == position@[cell as int],
            wc == w[cell as int],
            -MAX_WEIGHT <= wc <= MAX_WEIGHT,
            target <= MAX_CELLS,
            max_seg <= 8,
            max_seg + 2 <= len,
            1 <= seg_len,
            best matches Some(mv) ==> guided_move_ok(n as int, rt, w, cur as int, wc as int, target as int, mv),
            best is None ==> best_key == i128::MIN,
            guided_scan_ok(n as int, rt, w, cur as int, wc as int, target as int, seg_len as int, 0, 0, 0, best, best_key as int),
            max_seg == (if len - 2 < 8 { len - 2 } else { 8 }),
            seg_len <= max_seg + 1,
        decreases max_seg + 1 - seg_len,
    {
        let l_min_raw = if cur >= seg_len - 1 { cur - (seg_len - 1) } else { 0 };
        let l_min = if l_min_raw < 1 { 1 } else { l_min_raw };
        let l_max = if cur < len - seg_len - 1 { cur } else { len - seg_len - 1 };
        let mut l = l_min;
        proof {
            lemma_scan_shift(n as int, rt, w, cur as int, wc as int, target as int, seg_len as int, 0, 0, 0,
                seg_len as int, l_min as int, 0, 0, best, best_key as int);
        }
        while l <= l_max
            invariant
                0 < n,
                rt == route@,
                w == weights@,
                len == rt.len(),
                len <= MAX_CELLS,
                cells_in(rt, w.len() as int),
                weights_bounded(w),
                prefix_weight@.len() == len + 1,
                forall|k: int| 0 <= k <= len ==> #[trigger] prefix_weight@[k] == wsum(rt, w, k),
                1 <= cur,
                cur + 1 < len,
                cur == position@[cell as int],
                wc == w[cell as int],
                -MAX_WEIGHT <= wc <= MAX_WEIGHT,
                target <= MAX_CELLS,
                1 <= seg_len <= 8,
                seg_len + 2 <= len,
                1 <= l_min <= l,
                l_min + seg_len >= cur + 1,
                l_max <= cur,
                l_max + seg_len + 1 <= len,
                best matches Some(mv) ==> guided_move_ok(n as int, rt, w, cur as int, wc as int, target as int, mv),
                best is None ==> best_key == i128::MIN,
                guided_scan_ok(n as int, rt, w, cur as int, wc as int, target as int, seg_len as int, l as int, 0, 0, best, best_key as int),
                max_seg == (if len - 2 < 8 { len - 2 } else { 8 }),
                seg_len <= max_seg,
                l_min as int == (if 1 > cur - (seg_len - 1) { 1 } else { cur - (seg_len - 1) }),
                l_max as int == (if cur < len - seg_len - 1 { cur as int } else { len - seg_len - 1 }),
                l <= l_max + 1,
            decreases l_max + 1 - l,
        {
            let r = l + seg_len - 1;
            let off = cur - l;
            proof {
                crate::moves::lemma_wsum_bound(rt, w, r + 1);
                crate::moves::lemma_wsum_bound(rt, w, l as int);
                assert((r + 1) * MAX_WEIGHT <= MAX_CELLS * MAX_WEIGHT) by (nonlinear_arith) requires r + 1 <= MAX_CELLS;
                assert(l * MAX_WEIGHT <= MAX_CELLS * MAX_WEIGHT) by (nonlinear_arith) requires l <= MAX_CELLS;
            }
            let seg_sum = prefix_weight[r + 1] - prefix_weight[l];
            let mut ri: usize = 0;
            proof {
                assert(base_seg_sum_ok(rt, w, l as int, r as int, seg_sum as int));
            }
            while ri < 2
                invariant
                    0 < n,
                    rt == route@,
                    w == weights@,
                    len == rt.len(),
                    len <= MAX_CELLS,
                    cells_in(rt, w.len() as int),
                    weights_bounded(w),
                    prefix_weight@.len() == len + 1,
                    forall|k: int| 0 <= k <= len ==> #[trigger] prefix_weight@[k] == wsum(rt, w, k),
                    1 <= cur,
                    cur + 1 < len,
                    cur == position@[cell as int],
                    wc == w[cell as int],
                    -MAX_WEIGHT <= wc <= MAX_WEIGHT,
                    target <= MAX_CELLS,
                    1 <= seg_len <= 8,
                    1 <= l <= cur <= r,
                    off == cur - l,
                    r == l + seg_len - 1,
                    r + 1 < len,
                    -(2 * (MAX_CELLS * MAX_WEIGHT)) <= seg_sum <= 2 * (MAX_CELLS * MAX_WEIGHT),
                    ri <= 2,
                    best matches Some(mv) ==> guided_move_ok(n as int, rt, w, cur as int, wc as int, target as int, mv),
                    best is None ==> best_key == i128::MIN,
                    guided_scan_ok(n as int, rt, w, cur as int, wc as int, target as int, seg_len as int, l as int, ri as int, 0, best, best_key as int),
                    ri <= 2,
                    base_seg_sum_ok(rt, w, l as int, r as int, seg_sum as int),
                decreases 2 - ri,
            {
                let reversed = ri == 1;
                let back = if reversed { seg_len - 1 - off } else { off };
                let desired_start = if target >= back { target - back } else { 0 };
                let want_late = target > cur;
                let base_anchor = if want_late {
                    desired_start + (seg_len - 1)
                } else if desired_start >= 1 {
                    desired_start - 1
                } else {
                    0
                };
                let mut k: usize = 0;
                proof {
                    assert(base_anchor as int == guided_base(cur as int, target as int, seg_len as int, l as int, reversed));
                }
                while k < 23
                    invariant
                        0 < n,
                        rt == route@,
                        w == weights@,
                        len == rt.len(),
                        len <= MAX_CELLS,
                        cells_in(rt, w.len() as int),
                        weights_bounded(w),
                        prefix_weight@.len() == len + 1,
                        forall|k: int| 0 <= k <= len ==> #[trigger] prefix_weight@[k] == wsum(rt, w, k),
                        1 <= cur,
                        cur + 1 < len,
                        cur == position@[cell as int],
                        wc == w[cell as int],
                        -MAX_WEIGHT <= wc <= MAX_WEIGHT,
                        target <= MAX_CELLS,
                        1 <= seg_len <= 8,
                        1 <= l <= cur <= r,
                        r == l + seg_len - 1,
                        r + 1 < len,
                        -(2 * (MAX_CELLS * MAX_WEIGHT)) <= seg_sum <= 2 * (MAX_CELLS * MAX_WEIGHT),
                        k <= 23,
                        best matches Some(mv) ==> guided_move_ok(n as int, rt, w, cur as int, wc as int, target as int, mv),
                        best is None ==> best_key == i128::MIN,
                        guided_scan_ok(n as int, rt, w, cur as int, wc as int, target as int, seg_len as int, l as int, ri as int, k as int, best, best_key as int),
                        0 <= ri < 2,
                        reversed == (ri == 1),
                        base_anchor as int == guided_base(cur as int, target as int, seg_len as int, l as int, reversed),
                        seg_sum as int == wsum(rt, w, r + 1) - wsum(rt, w, l as int),
                    decreases 23 - k,
                {
                    let cand_anchor = shift_index(base_anchor, target_offset(k), len - 2);
                    let d = if cand_anchor >= base_anchor { cand_anchor - base_anchor } else { base_anchor - cand_anchor };
                    let ghost best0 = best;
                    let ghost key0 = best_key as int;
                    let ghost ok = guided_ok_try(n as int, rt, w, cur as int, wc as int, target as int, seg_len as int, l as int,
                        ri as int, k as int);
                    proof {
                        assert(cand_anchor as int == guided_anchor(len as int, cur as int, target as int, seg_len as int, l as int,
                            reversed, k as int));
                        assert(d as int == dist(cand_anchor as int, base_anchor as int));
                    }
                    if d <= 192 {
                        match guided_candidate(route, weights, prefix_weight, n, cur, wc, target, l, r, cand_anchor,
                            reversed, d, seg_sum) {
                            Some((mv, key)) => {
                                proof {
                                    assert(ok);
                                    assert(mv == guided_try_move(rt, w, cur as int, target as int, seg_len as int, l as int, ri as int, k as int));
                                    assert(key as int == guided_try_key(rt, w, cur as int, wc as int, target as int, seg_len as int, l as int,
                                        ri as int, k as int));
                                }
                                if key > best_key {
                                    best_key = key;
                                    best = Some(mv);
                                }
                            },
                            None => {
                                proof {
                                    assert(!ok);
                                }
                            },
                        }
                    } else {
                        proof {
                            assert(!ok);
                        }
                    }
                    proof {
                        lemma_scan_step(n as int, rt, w, cur as int, wc as int, target as int, seg_len as int, l as int, ri as int,
                            k as int, best0, key0, best, best_key as int);
                    }
                    k += 1;
                }
                proof {
                    lemma_scan_shift(n as int, rt, w, cur as int, wc as int, target as int, seg_len as int, l as int, ri as int, 23,
                        seg_len as int, l as int, ri + 1, 0, best, best_key as int);
                }
                ri += 1;
            }
            proof {
                lemma_scan_shift(n as int, rt, w, cur as int, wc as int, target as int, seg_len as int, l as int, 2, 0,
                    seg_len as int, l + 1, 0, 0, best, best_key as int);
            }
            l += 1;
        }
        proof {
            lemma_scan_shift(n as int, rt, w, cur as int, wc as int, target as int, seg_len as int, l as int, 0, 0,
                seg_len + 1, 0, 0, 0, best, best_key as int);
        }
        seg_len += 1;
    }
    best
}

/// `s` is in increasing order.
pub open spec fn sorted_up(s: Seq<usize>) -> bool {
    forall|i: int, j: int| 0 <= i < j < s.len() ==> s[i] <= s[j]
}

/// `s` is in decreasing order of the third field.
pub open spec fn sorted_by_disp(s: Seq<(usize, usize, usize)>) -> bool {
    forall|i: int, j: int| 0 <= i < j < s.len() ==> s[i].2 >= s[j].2
}

/// Calls `slice::sort_unstable` on `v`: the same values, in increasing order.
#[verifier::external_body]
fn sort_values(v: &mut Vec<usize>)
    ensures
        final(v)@.to_multiset() == old(v)@.to_multiset(),
        final(v)@.len() == old(v)@.len(),
        sorted_up(final(v)@),
{
    v.sort_unstable();
}

/// Calls `slice::sort_unstable_by` ordering by the third field, largest
/// first: the same entries, in that order (equal ones in any order).
#[verifier::external_body]
fn sort_by_displacement(v: &mut Vec<(usize, usize, usize)>)
    ensures
        final(v)@.to_multiset() == old(v)@.to_multiset(),
        final(v)@.len() == old(v)@.len(),
        sorted_by_disp(final(v)@),
{
    v.sort_unstable_by(|a, b| b.2.cmp(&a.2));
}

/// The entries `(cells[k], slots[k], |curs[k] - slots[k]|)` for `k < count`
/// whose displacement exceeds 6, in order of `k`.
pub open spec fn targets_from(cells: Seq<usize>, curs: Seq<usize>, slots: Seq<usize>, k: int) -> Seq<(usize, usize, usize)>
    decreases k,
{
    if k <= 0 {
        Seq::empty()
    } else {
        let prev = targets_from(cells, curs, slots, k - 1);
        let d = dist(curs[k - 1] as int, slots[k - 1] as int);
        if d > 6 { prev.push((cells[k - 1], slots[k - 1], d as usize)) } else { prev }
    }
}

/// Cells of ranks `first..first + count`.
pub open spec fn rank_cells(rank_to_cell: Seq<usize>, first: int, count: int) -> Seq<usize> {
    Seq::new(count as nat, |k: int| rank_to_cell[first + k])
}

/// Current positions of the cells of ranks `first..first + count`.
pub open spec fn rank_positions(rank_to_cell: Seq<usize>, position: Seq<usize>, first: int, count: int) -> Seq<usize> {
    Seq::new(count as nat, |k: int| position[rank_to_cell[first + k] as int])
}

/// `out` keeps the `limit` largest displacements of the entries, for some
/// increasing arrangement `slots` of the current positions and some order
/// of the entries by displacement.
pub open spec fn targets_ok(cells: Seq<usize>, curs: Seq<usize>, slots: Seq<usize>, ordered: Seq<(usize, usize, usize)>,
    limit: int, out: Seq<(usize, usize, usize)>) -> bool {
    &&& slots.len() == curs.len()
    &&& sorted_up(slots)
    &&& slots.to_multiset() == curs.to_multiset()
    &&& ordered.to_multiset() == targets_from(cells, curs, slots, curs.len() as int).to_multiset()
    &&& sorted_by_disp(ordered)
    &&& out == ordered.take(if limit < ordered.len() { limit } else { ordered.len() as int })
}

proof fn lemma_targets_from(cells: Seq<usize>, curs: Seq<usize>, slots: Seq<usize>, k: int, bound: int)
    requires
        0 <= k <= cells.len(),
        k <= curs.len(),
        k <= slots.len(),
        forall|j: int| 0 <= j < k ==> #[trigger] cells[j] < bound,
        forall|j: int| 0 <= j < k ==> #[trigger] slots[j] < bound,
    ensures
        forall|i: int| 0 <= i < targets_from(cells, curs, slots, k).len() ==> {
            let e = #[trigger] targets_from(cells, curs, slots, k)[i];
            e.0 < bound && e.1 < bound && e.2 > 6
        },
    decreases k,
{
    if k > 0 {
        lemma_targets_from(cells, curs, slots, k - 1, bound);
        let prev = targets_from(cells, curs, slots, k - 1);
        let d = dist(curs[k - 1] as int, slots[k - 1] as int);
        if d > 6 {
            let cur = targets_from(cells, curs, slots, k);
            assert forall|i: int| 0 <= i < cur.len() implies {
                let e = #[trigger] cur[i];
                e.0 < bound && e.1 < bound && e.2 > 6
            } by {
                if i < prev.len() {
                    assert(cur[i] == prev[i]);
                }
            }
        }
    }
}

/// Ranks `first..first + count`: their cells, the sorted positions of those
/// cells as targets, and the entries `(cell, target, displacement)` of the
/// `limit` largest displacements above 6, largest first.
pub fn collect_targets(
    rank_to_cell: &[usize],
    position: &[usize],
    first: usize,
    count: usize,
    limit: usize,
) -> (out: Vec<(usize, usize, usize)>)
    requires
        first + count <= rank_to_cell@.len(),
        rank_to_cell@.len() <= MAX_CELLS,
        forall|k: int| 0 <= k < rank_to_cell@.len() ==> #[trigger] rank_to_cell@[k] < position@.len(),
        forall|c: int| 0 <= c < position@.len() ==> #[trigger] position@[c] < position@.len(),
    ensures
        exists|slots: Seq<usize>, ordered: Seq<(usize, usize, usize)>| #[trigger] targets_ok(
            rank_cells(rank_to_cell@, first as int, count as int),
            rank_positions(rank_to_cell@, position@, first as int, count as int),
            slots, ordered, limit as int, out@),
        forall|i: int| 0 <= i < out@.len() ==> {
            let e = #[trigger] out@[i];
            e.0 < position@.len() && e.1 < position@.len() && e.2 > 6
        },
{
    let ghost cells = rank_cells(rank_to_cell@, first as int, count as int);
    let ghost curs = rank_positions(rank_to_cell@, position@, first as int, count as int);
    let mut slots: Vec<usize> = Vec::new();
    let mut idx: usize = 0;
    while idx < count
        invariant
            first + count <= rank_to_cell@.len(),
            rank_to_cell@.len() <= MAX_CELLS,
            forall|k: int| 0 <= k < rank_to_cell@.len() ==> #[trigger] rank_to_cell@[k] < position@.len(),
            cells == rank_cells(rank_to_cell@, first as int, count as int),
            curs == rank_positions(rank_to_cell@, position@, first as int, count as int),
            idx <= count,
            slots@ == curs.take(idx as int),
        decreases count - idx,
    {
        slots.push(position[rank_to_cell[first + idx]]);
        proof {
            assert(slots@ =~= curs.take(idx + 1));
        }
        idx += 1;
    }
    proof {
        assert(slots@ =~= curs);
    }
    let ghost before_sort = slots@;
    sort_values(&mut slots);
    let mut out: Vec<(usize, usize, usize)> = Vec::new();
    let mut idx: usize = 0;
    while idx < count
        invariant
            first + count <= rank_to_cell@.len(),
            rank_to_cell@.len() <= MAX_CELLS,
            forall|k: int| 0 <= k < rank_to_cell@.len() ==> #[trigger] rank_to_cell@[k] < position@.len(),
            cells == rank_cells(rank_to_cell@, first as int, count as int),
            curs == rank_positions(rank_to_cell@, position@, first as int, count as int),
            slots@.len() == count,
            idx <= count,
            out@ == targets_from(cells, curs, slots@, idx as int),
        decreases count - idx,
    {
        let cell = rank_to_cell[first + idx];
        let cur = position[cell];
        let target = slots[idx];
        let disp = if cur >= target { cur - target } else { target - cur };
        if disp > 6 {
            out.push((cell, target, disp));
        }
        idx += 1;
    }
    let ghost unordered = out@;
    sort_by_displacement(&mut out);
    let ghost ordered = out@;
    out.truncate(limit);
    proof {
        assert(before_sort == curs);
        assert(unordered == targets_from(cells, curs, slots@, count as int));
        if limit as int >= ordered.len() {
            assert(ordered.take(ordered.len() as int) =~= ordered);
        }
        assert(targets_ok(cells, curs, slots@, ordered, limit as int, out@));
        assert forall|j: int| 0 <= j < count implies #[trigger] slots@[j] < position@.len() by {
            vstd::seq_lib::to_multiset_contains(slots@, slots@[j]);
            vstd::seq_lib::to_multiset_contains(curs, slots@[j]);
            assert(slots@.contains(slots@[j]));
            let k = choose|k: int| 0 <= k < curs.len() && curs[k] == slots@[j];
            assert(rank_to_cell@[first + k] < position@.len());
        }
        lemma_targets_from(cells, curs, slots@, count as int, position@.len() as int);
        assert forall|i: int| 0 <= i < out@.len() implies {
            let e = #[trigger] out@[i];
            e.0 < position@.len() && e.1 < position@.len() && e.2 > 6
        } by {
            let e = out@[i];
            assert(ordered[i] == e);
            vstd::seq_lib::to_multiset_contains(ordered, e);
            vstd::seq_lib::to_multiset_contains(unordered, e);
            assert(ordered.contains(e));
            let k = choose|k: int| 0 <= k < unordered.len() && unordered[k] == e;
        }
    }
    out
}

/// The highest `count` ranks of a tour of `position.len()` cells (see
/// `collect_targets`).
pub fn collect_high_targets(
    rank_to_cell: &[usize],
    position: &[usize],
    count: usize,
    limit: usize,
) -> (out: Vec<(usize, usize, usize)>)
    requires
        count <= position@.len(),
        rank_to_cell@.len() == position@.len(),
        position@.len() <= MAX_CELLS,
        forall|k: int| 0 <= k < rank_to_cell@.len() ==> #[trigger] rank_to_cell@[k] < position@.len(),
        forall|c: int| 0 <= c < position@.len() ==> #[trigger] position@[c] < position@.len(),
    ensures
        exists|slots: Seq<usize>, ordered: Seq<(usize, usize, usize)>| #[trigger] targets_ok(
            rank_cells(rank_to_cell@, position@.len() - count, count as int),
            rank_positions(rank_to_cell@, position@, position@.len() - count, count as int),
            slots, ordered, limit as int, out@),
        forall|i: int| 0 <= i < out@.len() ==> {
            let e = #[trigger] out@[i];
            e.0 < position@.len() && e.1 < position@.len() && e.2 > 6
        },
{
    let len = position.len();
    collect_targets(rank_to_cell, position, len - count, count, limit)
}

/// The lowest `count` ranks (see `collect_targets`).
pub fn collect_low_targets(
    rank_to_cell: &[usize],
    position: &[usize],
    count: usize,
    limit: usize,
) -> (out: Vec<(usize, usize, usize)>)
    requires
        count <= rank_to_cell@.len(),
        rank_to_cell@.len() <= MAX_CELLS,
        forall|k: int| 0 <= k < rank_to_cell@.len() ==> #[trigger] rank_to_cell@[k] < position@.len(),
        forall|c: int| 0 <= c < position@.len() ==> #[trigger] position@[c] < position@.len(),
    ensures
        exists|slots: Seq<usize>, ordered: Seq<(usize, usize, usize)>| #[trigger] targets_ok(
            rank_cells(rank_to_cell@, 0, count as int),
            rank_positions(rank_to_cell@, position@, 0, count as int),
            slots, ordered, limit as int, out@),
        forall|i: int| 0 <= i < out@.len() ==> {
            let e = #[trigger] out@[i];
            e.0 < position@.len() && e.1 < position@.len() && e.2 > 6
        },
{
    collect_targets(rank_to_cell, position, 0, count, limit)
}

/// What the guided pass relies on: a closed tour of at least 11 cells, the
/// position of every cell, the prefix weight sums, and a cell for every rank.
pub open spec fn guided_ctx(n: int, route: Seq<usize>, w: Seq<i64>, rank_to_cell: Seq<usize>, position: Seq<usize>,
    pw: Seq<i64>) -> bool {
    &&& search_input(n, route, w)
    &&& is_cycle(n, route)
    &&& route.len() >= 11
    &&& position.len() == route.len()
    &&& forall|t: int| 0 <= t < route.len() ==> #[trigger] position[route[t] as int] == t
    &&& forall|c: int| 0 <= c < position.len() ==> #[trigger] position[c] < position.len()
    &&& rank_to_cell.len() == route.len()
    &&& forall|k: int| 0 <= k < rank_to_cell.len() ==> #[trigger] rank_to_cell[k] < route.len()
    &&& pw.len() == route.len() + 1
    &&& forall|k: int| 0 <= k <= route.len() ==> #[trigger] pw[k] == wsum(route, w, k)
}

/// Applies a guided relocation and re-optimizes the windows around it.
fn apply_guided(route: &mut Vec<usize>, weights: &[i64], n: usize, total_score: &mut i64, mv: RelocationMove)
    requires
        search_input(n as int, old(route)@, weights@),
        is_cycle(n as int, old(route)@),
        old(route)@.len() >= 11,
        fits_relocation(n as int, old(route)@, mv.l as int, mv.r as int, mv.p as int, mv.reversed),
        mv.delta == reloc_gain(old(route)@, weights@, mv.l as int, mv.r as int, mv.p as int, mv.reversed),
        *old(total_score) == raw_score(old(route)@, weights@),
    ensures
        search_input(n as int, final(route)@, weights@),
        is_cycle(n as int, final(route)@),
        *final(total_score) == raw_score(final(route)@, weights@),
        raw_score(final(route)@, weights@) >= raw_score(old(route)@, weights@) + mv.delta,
{
    let ghost before = route@;
    let ghost w = weights@;
    apply_relocation(route, mv);
    proof {
        lemma_relocation_keeps_route(n as int, before, mv.l as int, mv.r as int, mv.p as int, mv.reversed);
        assert(route@[0] == before[reloc_src(mv.l as int, mv.r as int, mv.p as int, mv.reversed, 0)]);
        let e = before.len() - 1;
        assert(route@[e] == before[reloc_src(mv.l as int, mv.r as int, mv.p as int, mv.reversed, e)]);
        lemma_same_ends_cycle(n as int, before, route@);
        lemma_raw_score_bound(before, w);
        lemma_raw_score_bound(route@, w);
    }
    *total_score = *total_score + mv.delta;
    let anchors = [mv.l, mv.p];
    refine_cycle_around(route, weights, n, total_score, &anchors);
}

/// Tries the cells of the highest ranks (the top 256, 1024, 2048, each time
/// the 19 farthest from their target) and then of the lowest ranks (the
/// bottom 96, 256, each time the 10 farthest): the first that has a guided
/// move gets it, followed by window re-optimization around it. Returns
/// whether a move was made; stops early, without one, at the deadline.
pub fn run_guided_pass(
    route: &mut Vec<usize>,
    weights: &[i64],
    rank_to_cell: &[usize],
    position: &[usize],
    prefix_weight: &[i64],
    n: usize,
    start: &Instant,
    deadline: Duration,
    total_score: &mut i64,
) -> (moved: bool)
    requires
        guided_ctx(n as int, old(route)@, weights@, rank_to_cell@, position@, prefix_weight@),
        *old(total_score) == raw_score(old(route)@, weights@),
    ensures
        search_input(n as int, final(route)@, weights@),
        is_cycle(n as int, final(route)@),
        *final(total_score) == raw_score(final(route)@, weights@),
        !moved ==> final(route)@ == old(route)@,
{
    let len = route.len();
    let ghost rt = route@;
    let ghost w = weights@;
    proof {
        assert(cells_in(rt, w.len() as int));
        assert(len <= MAX_CELLS);
    }
    let high_counts: [usize; 3] = [256, 1024, 2048];
    let low_counts: [usize; 2] = [96, 256];
    let mut phase: usize = 0;
    while phase < 5
        invariant
            guided_ctx(n as int, rt, w, rank_to_cell@, position@, prefix_weight@),
            route@ == rt,
            rt == old(route)@,
            w == weights@,
            len == rt.len(),
            len <= MAX_CELLS,
            cells_in(rt, w.len() as int),
            *total_score == raw_score(rt, w),
            high_counts[0] == 256 && high_counts[1] == 1024 && high_counts[2] == 2048,
            low_counts[0] == 96 && low_counts[1] == 256,
            phase <= 5,
        decreases 5 - phase,
    {
        let count = if phase < 3 { high_counts[phase] } else { low_counts[phase - 3] };
        let take = if count < len { count } else { len };
        let candidates = if phase < 3 {
            collect_high_targets(rank_to_cell, position, take, 19)
        } else {
            collect_low_targets(rank_to_cell, position, take, 10)
        };
        let mut ci: usize = 0;
        while ci < candidates.len()
            invariant
                guided_ctx(n as int, rt, w, rank_to_cell@, position@, prefix_weight@),
                route@ == rt,
                rt == old(route)@,
                w == weights@,
                len == rt.len(),
                len <= MAX_CELLS,
                cells_in(rt, w.len() as int),
                *total_score == raw_score(rt, w),
                forall|i: int| 0 <= i < candidates@.len() ==> {
                    let e = #[trigger] candidates@[i];
                    e.0 < position@.len() && e.1 < position@.len() && e.2 > 6
                },
            decreases candidates@.len() - ci,
        {
            let (cell, target, _disp) = candidates[ci];
            proof {
                let e = candidates@[ci as int];
                assert(e.0 < position@.len() && e.1 < position@.len());
            }
            if !before_deadline(start, &deadline) {
                return false;
            }
            match best_guided_move(route.as_slice(), weights, position, prefix_weight, n, cell, target) {
                Some(mv) => {
                    apply_guided(route, weights, n, total_score, mv);
                    return true;
                },
                None => {},
            }
            ci += 1;
        }
        phase += 1;
    }
    false
}

/// Windows through which the targeted search reorders a cell's surroundings.
fn lns_window(k: usize) -> (w: usize)
    requires
        k < 4,
    ensures
        9 <= w <= 12,
{
    if k == 0 { 12 } else if k == 1 { 11 } else if k == 2 { 10 } else { 9 }
}

/// See `lns_center`.
pub open spec fn lns_center_spec(c: int, cur: int, target: int, window: int) -> int {
    if c == 0 {
        cur
    } else if c == 1 {
        target
    } else if c == 2 {
        (cur + target) / 2
    } else if c == 3 {
        (if cur < target { cur } else { target }) + window / 2
    } else {
        let far = if cur > target { cur } else { target };
        if far >= window / 2 { far - window / 2 } else { 0 }
    }
}

/// Centre of the `c`-th window tried for a cell at `cur` with target `target`:
/// the cell, the target, their midpoint, half a window past the nearer one,
/// half a window before the farther one.
fn lns_center(c: usize, cur: usize, target: usize, window: usize) -> (res: usize)
    requires
        c < 5,
        cur <= MAX_CELLS,
        target <= MAX_CELLS,
        window <= 12,
    ensures
        res == lns_center_spec(c as int, cur as int, target as int, window as int),
{
    let mid = (cur + target) / 2;
    if c == 0 {
        cur
    } else if c == 1 {
        target
    } else if c == 2 {
        mid
    } else if c == 3 {
        (if cur < target { cur } else { target }) + window / 2
    } else {
        let far = if cur > target { cur } else { target };
        if far >= window / 2 { far - window / 2 } else { 0 }
    }
}

/// Targeted large-neighbourhood search on the route as a path: for the cells
/// farthest from their targets (the top 2048 ranks, 15 of them, then the
/// bottom 384, 8 of them), re-optimizes windows of 12 down to 9 cells
/// centred around the cell, its target and between them, restarting after
/// each improvement, until none improves or the deadline passes. Windows
/// keep clear of the route ends, so a closed tour stays closed.
pub fn run_targeted_path_lns(
    route: &mut Vec<usize>,
    weights: &[i64],
    rank_to_cell: &[usize],
    n: usize,
    start: &Instant,
    deadline: Duration,
    total_score: &mut i64,
)
    requires
        search_input(n as int, old(route)@, weights@),
        is_cycle(n as int, old(route)@),
        rank_to_cell@.len() == old(route)@.len(),
        forall|k: int| 0 <= k < rank_to_cell@.len() ==> #[trigger] rank_to_cell@[k] < old(route)@.len(),
        *old(total_score) == raw_score(old(route)@, weights@),
    ensures
        search_input(n as int, final(route)@, weights@),
        is_cycle(n as int, final(route)@),
        *final(total_score) == raw_score(final(route)@, weights@),
        raw_score(final(route)@, weights@) >= raw_score(old(route)@, weights@),
{
    let len = route.len();
    let ghost w = weights@;
    let ghost bound = MAX_CELLS * (MAX_CELLS * MAX_WEIGHT);
    let mut position: Vec<usize> = vec![0usize; len];
    let mut prefix_weight: Vec<i64> = vec![0i64; len + 1];
    let mut prefix_pos_weight: Vec<i64> = vec![0i64; len + 1];
    proof {
        lemma_raw_score_bound(route@, w);
    }
    loop
        invariant
            search_input(n as int, route@, w),
            is_cycle(n as int, route@),
            w == weights@,
            len == route@.len(),
            rank_to_cell@.len() == len,
            forall|k: int| 0 <= k < rank_to_cell@.len() ==> #[trigger] rank_to_cell@[k] < len,
            *total_score == raw_score(route@, w),
            raw_score(route@, w) >= raw_score(old(route)@, w),
            position@.len() == len,
            prefix_weight@.len() == len + 1,
            prefix_pos_weight@.len() == len + 1,
            bound == MAX_CELLS * (MAX_CELLS * MAX_WEIGHT),
            -bound <= raw_score(route@, w) <= bound,
        decreases bound - raw_score(route@, w),
    {
        if !before_deadline(start, &deadline) {
            break;
        }
        proof {
            assert(len <= MAX_CELLS);
        }
        rebuild_aux(route.as_slice(), weights, &mut position, &mut prefix_weight, &mut prefix_pos_weight);
        proof {
            crate::grid::lemma_permutation_covers(len as int, route@);
            assert forall|c: int| 0 <= c < position@.len() implies #[trigger] position@[c] < position@.len() by {
                assert(route@.contains(c as usize));
                let t = choose|t: int| 0 <= t < route@.len() && route@[t] == c as usize;
                assert(position@[route@[t] as int] == t);
            }
        }
        let high_take = if 2048 < len { 2048 } else { len };
        let low_take = if 384 < len { 384 } else { len };
        let mut anchors = collect_high_targets(rank_to_cell, position.as_slice(), high_take, 15);
        let mut low = collect_low_targets(rank_to_cell, position.as_slice(), low_take, 8);
        anchors.append(&mut low);
        let ghost round_start = raw_score(route@, w);
        let mut improved = false;
        let mut ai: usize = 0;
        while ai < anchors.len()
            invariant
                search_input(n as int, route@, w),
                is_cycle(n as int, route@),
                w == weights@,
                len == route@.len(),
                len <= MAX_CELLS,
                position@.len() == len,
                forall|c: int| 0 <= c < position@.len() ==> #[trigger] position@[c] < position@.len(),
                *total_score == raw_score(route@, w),
                raw_score(route@, w) >= raw_score(old(route)@, w),
                improved ==> raw_score(route@, w) > round_start,
                !improved ==> raw_score(route@, w) == round_start,
                bound == MAX_CELLS * (MAX_CELLS * MAX_WEIGHT),
                -bound <= raw_score(route@, w) <= bound,
                forall|i: int| 0 <= i < anchors@.len() ==> {
                    let e = #[trigger] anchors@[i];
                    e.0 < len && e.1 < len
                },
            decreases anchors@.len() - ai,
        {
            if !before_deadline(start, &deadline) {
                break;
            }
            let (cell, target, _disp) = anchors[ai];
            proof {
                let e = anchors@[ai as int];
                assert(e.0 < len && e.1 < len);
            }
            let cur = position[cell];
            let mut k: usize = 0;
            while k < 4
                invariant
                    search_input(n as int, route@, w),
                    is_cycle(n as int, route@),
                    w == weights@,
                    len == route@.len(),
                    len <= MAX_CELLS,
                    cur <= MAX_CELLS,
                    target < len,
                    *total_score == raw_score(route@, w),
                    raw_score(route@, w) >= raw_score(old(route)@, w),
                    improved ==> raw_score(route@, w) > round_start,
                    !improved ==> raw_score(route@, w) == round_start,
                    bound == MAX_CELLS * (MAX_CELLS * MAX_WEIGHT),
                    -bound <= raw_score(route@, w) <= bound,
                decreases 4 - k,
            {
                let window = lns_window(k);
                if window + 2 < len {
                    let mut c: usize = 0;
                    while c < 5
                        invariant
                            search_input(n as int, route@, w),
                            is_cycle(n as int, route@),
                            w == weights@,
                            len == route@.len(),
                            len <= MAX_CELLS,
                            cur <= MAX_CELLS,
                            target < len,
                            9 <= window <= 12,
                            window + 2 < len,
                            *total_score == raw_score(route@, w),
                            raw_score(route@, w) >= raw_score(old(route)@, w),
                            improved ==> raw_score(route@, w) > round_start,
                            !improved ==> raw_score(route@, w) == round_start,
                            bound == MAX_CELLS * (MAX_CELLS * MAX_WEIGHT),
                            -bound <= raw_score(route@, w) <= bound,
                        decreases 5 - c,
                    {
                        let center = lns_center(c, cur, target, window);
                        let start_idx = clamp_window_start(center, window, len);
                        let ghost before = route@;
                        if optimize_window(route, weights, n, start_idx, window, total_score) {
                            improved = true;
                        }
                        proof {
                            lemma_same_ends_cycle(n as int, before, route@);
                            lemma_raw_score_bound(route@, w);
                        }
                        if improved {
                            break;
                        }
                        c += 1;
                    }
                }
                if improved {
                    break;
                }
                k += 1;
            }
            if improved {
                break;
            }
            ai += 1;
        }
        if !improved {
            break;
        }
    }
}

} // verus!
