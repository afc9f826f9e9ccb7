//! Penalty search: the route is allowed to break (two consecutive cells
//! that are not a king move apart), each break costing `lambda` points of
//! score; moves and window reorderings are judged by score minus penalty,
//! and `lambda` grows until no break is left.
use vstd::prelude::*;
use crate::grid::{adjacent, is_adj, is_route, is_permutation_route, raw_score, cells_in, weights_bounded, lists_neighbors,
    MAX_CELLS, MAX_WEIGHT};
use crate::moves::{reversed_range, seg_delta, lemma_reversal_score, reverse_range, aux_of, reversal_delta, weight_sums_bounded, score_sums_bounded,
    lemma_aux_bounded, search_ctx, lemma_position_inverse, lemma_delta_matches};
use crate::relocate::{relocated, reloc_shape, reloc_gain, relocation_delta, apply_relocation, edge_disjoint_from_segment,
    RelocationMove, reloc_src, lemma_reloc_src_range, lemma_reloc_src_injective};

verus! {

/// 1 when cells `u` and `v` are not a king move apart (a break), else 0.
pub open spec fn vio(n: int, u: int, v: int) -> int {
    if adjacent(n, u, v) { 0 } else { 1 }
}

/// The cost of stepping from `u` to `v`: 1 for a break, 0 for a king move.
pub fn violation_cost(u: usize, v: usize, n: usize) -> (c: i64)
    requires
        n > 0,
    ensures
        c == vio(n as int, u as int, v as int),
{
    if is_adj(u, v, n) { 0 } else { 1 }
}

/// Number of breaks among the steps `i -> i + 1` for `i < k`.
pub open spec fn breaks(n: int, route: Seq<usize>, k: int) -> int
    decreases k,
{
    if k <= 0 { 0 } else { breaks(n, route, k - 1) + vio(n, route[k - 1] as int, route[k] as int) }
}

/// Number of breaks of the whole route.
pub open spec fn total_breaks(n: int, route: Seq<usize>) -> int {
    breaks(n, route, route.len() - 1)
}

/// Change in breaks when `route[l..=r]` is reversed: only the two steps at
/// the ends of the segment change.
pub open spec fn reversal_vio_delta(n: int, route: Seq<usize>, l: int, r: int) -> int {
    (if l > 0 { vio(n, route[l - 1] as int, route[r] as int) - vio(n, route[l - 1] as int, route[l] as int) } else { 0 })
        + (if r + 1 < route.len() { vio(n, route[l] as int, route[r + 1] as int) - vio(n, route[r] as int, route[r + 1] as int) } else { 0 })
}

/// Number of breaks among the steps `k -> k + 1` for `a <= k < b`.
pub open spec fn range_breaks(n: int, route: Seq<usize>, a: int, b: int) -> int
    decreases b - a,
{
    if b <= a { 0 } else { range_breaks(n, route, a, b - 1) + vio(n, route[b - 1] as int, route[b] as int) }
}

pub(crate) proof fn lemma_breaks_range(n: int, route: Seq<usize>, k: int)
    requires
        0 <= k,
    ensures
        breaks(n, route, k) == range_breaks(n, route, 0, k),
    decreases k,
{
    if k > 0 {
        lemma_breaks_range(n, route, k - 1);
    }
}

pub(crate) proof fn lemma_range_split(n: int, route: Seq<usize>, a: int, b: int, c: int)
    requires
        a <= b <= c,
    ensures
        range_breaks(n, route, a, c) == range_breaks(n, route, a, b) + range_breaks(n, route, b, c),
    decreases c - b,
{
    if c > b {
        lemma_range_split(n, route, a, b, c - 1);
    }
}

pub(crate) proof fn lemma_range_same(n: int, s: Seq<usize>, t: Seq<usize>, a: int, b: int)
    requires
        a <= b,
        forall|k: int| a <= k <= b ==> #[trigger] s[k] == t[k],
    ensures
        range_breaks(n, s, a, b) == range_breaks(n, t, a, b),
    decreases b - a,
{
    if b > a {
        lemma_range_same(n, s, t, a, b - 1);
        assert(s[b - 1] == t[b - 1] && s[b] == t[b]);
    }
}

proof fn lemma_range_reversed(n: int, s: Seq<usize>, l: int, r: int, a: int, b: int)
    requires
        0 <= l <= a <= b <= r < s.len(),
    ensures
        range_breaks(n, reversed_range(s, l, r), a, b) == range_breaks(n, s, l + r - b, l + r - a),
    decreases b - a,
{
    let t = reversed_range(s, l, r);
    if b > a {
        lemma_range_reversed(n, s, l, r, a, b - 1);
        lemma_range_split(n, s, l + r - b, l + r - b + 1, l + r - a);
        assert(range_breaks(n, s, l + r - b, l + r - b) == 0);
        assert(range_breaks(n, s, l + r - b, l + r - b + 1) == vio(n, s[l + r - b] as int, s[l + r - b + 1] as int));
        assert(t[b - 1] == s[l + r - b + 1] && t[b] == s[l + r - b]);
        assert(vio(n, t[b - 1] as int, t[b] as int) == vio(n, s[l + r - b] as int, s[l + r - b + 1] as int));
    }
}

/// Reversing `route[l..=r]` changes the number of breaks of the route by
/// exactly `reversal_vio_delta`: only the two steps at the ends of the
/// segment change, the steps inside are walked the other way.
pub proof fn lemma_reversal_breaks_law(n: int, route: Seq<usize>, l: int, r: int)
    requires
        0 <= l <= r < route.len(),
    ensures
        total_breaks(n, reversed_range(route, l, r)) - total_breaks(n, route) == reversal_vio_delta(n, route, l, r),
{
    let t = reversed_range(route, l, r);
    let last = route.len() - 1;
    let a = if l > 0 { l - 1 } else { 0 };
    let b = if r + 1 < route.len() { r + 1 } else { r };
    lemma_breaks_range(n, route, last);
    lemma_breaks_range(n, t, last);
    lemma_range_split(n, route, 0, a, last);
    lemma_range_split(n, route, a, l, last);
    lemma_range_split(n, route, l, r, last);
    lemma_range_split(n, route, r, b, last);
    lemma_range_split(n, t, 0, a, last);
    lemma_range_split(n, t, a, l, last);
    lemma_range_split(n, t, l, r, last);
    lemma_range_split(n, t, r, b, last);
    lemma_range_reversed(n, route, l, r, l, r);
    if l > 0 {
        assert forall|k: int| 0 <= k <= a implies #[trigger] route[k] == t[k] by {}
        lemma_range_same(n, route, t, 0, a);
        assert(range_breaks(n, route, a, a) == 0 && range_breaks(n, t, a, a) == 0);
        assert(range_breaks(n, route, a, l) == vio(n, route[l - 1] as int, route[l] as int));
        assert(range_breaks(n, t, a, l) == vio(n, t[l - 1] as int, t[l] as int));
        assert(t[l - 1] == route[l - 1] && t[l] == route[r]);
    }
    if r + 1 < route.len() {
        assert forall|k: int| b <= k <= last implies #[trigger] route[k] == t[k] by {}
        lemma_range_same(n, route, t, b, last);
        assert(range_breaks(n, route, r, r) == 0 && range_breaks(n, t, r, r) == 0);
        assert(range_breaks(n, route, r, b) == vio(n, route[r] as int, route[r + 1] as int));
        assert(range_breaks(n, t, r, b) == vio(n, t[r] as int, t[r + 1] as int));
        assert(t[r] == route[l] && t[r + 1] == route[r + 1]);
    }
}

/// The change in breaks of reversing `route[l..=r]` (see `reversal_vio_delta`).
pub fn reversal_violation_delta(route: &[usize], n: usize, l: usize, r: usize) -> (d: i32)
    requires
        n > 0,
        l <= r < route@.len(),
    ensures
        d == reversal_vio_delta(n as int, route@, l as int, r as int),
{
    let len = route.len();
    let mut old_vio: i64 = 0;
    let mut new_vio: i64 = 0;
    if l > 0 {
        old_vio = old_vio + violation_cost(route[l - 1], route[l], n);
        new_vio = new_vio + violation_cost(route[l - 1], route[r], n);
    }
    if r + 1 < len {
        old_vio = old_vio + violation_cost(route[r], route[r + 1], n);
        new_vio = new_vio + violation_cost(route[l], route[r + 1], n);
    }
    (new_vio - old_vio) as i32
}

/// Change in breaks when `route[l..=r]` moves between `route[p]` and
/// `route[p + 1]` (backwards when `rev`): the three steps around the
/// segment and the insertion point are replaced.
pub open spec fn relocation_vio_delta(n: int, route: Seq<usize>, l: int, r: int, p: int, rev: bool) -> int {
    let a = route[l - 1] as int;
    let b = route[l] as int;
    let c = route[r] as int;
    let d = route[r + 1] as int;
    let e = route[p] as int;
    let f = route[p + 1] as int;
    let old_vio = vio(n, a, b) + vio(n, c, d) + vio(n, e, f);
    let new_vio = vio(n, a, d) + if rev { vio(n, e, c) + vio(n, b, f) } else { vio(n, e, b) + vio(n, c, f) };
    new_vio - old_vio
}

proof fn lemma_range_shift(n: int, s: Seq<usize>, t: Seq<usize>, a: int, b: int, d: int)
    requires
        a <= b,
        forall|k: int| a <= k <= b ==> #[trigger] t[k] == s[k + d],
    ensures
        range_breaks(n, t, a, b) == range_breaks(n, s, a + d, b + d),
    decreases b - a,
{
    if b > a {
        lemma_range_shift(n, s, t, a, b - 1, d);
        assert(t[b - 1] == s[b - 1 + d] && t[b] == s[b + d]);
    }
}

proof fn lemma_range_mirror(n: int, s: Seq<usize>, t: Seq<usize>, a: int, b: int, c: int)
    requires
        a <= b,
        forall|k: int| a <= k <= b ==> #[trigger] t[k] == s[c - k],
    ensures
        range_breaks(n, t, a, b) == range_breaks(n, s, c - b, c - a),
    decreases b - a,
{
    if b > a {
        lemma_range_mirror(n, s, t, a, b - 1, c);
        lemma_range_split(n, s, c - b, c - b + 1, c - a);
        assert(range_breaks(n, s, c - b, c - b) == 0);
        assert(t[b - 1] == s[c - b + 1] && t[b] == s[c - b]);
        assert(vio(n, t[b - 1] as int, t[b] as int) == vio(n, s[c - b] as int, s[c - b + 1] as int));
    }
}

pub(crate) proof fn lemma_range_step(n: int, s: Seq<usize>, a: int)
    ensures
        range_breaks(n, s, a, a + 1) == vio(n, s[a] as int, s[a + 1] as int),
{
    assert(range_breaks(n, s, a, a) == 0);
}

/// Moving `route[l..=r]` between `route[p]` and `route[p + 1]` (backwards
/// when `rev`) changes the number of breaks of the route by exactly
/// `relocation_vio_delta`: the three steps around the segment and the
/// insertion point are replaced, the steps inside the moved pieces are
/// kept (walked the other way inside a reversed segment).
pub proof fn lemma_relocation_breaks_law(n: int, route: Seq<usize>, l: int, r: int, p: int, rev: bool)
    requires
        reloc_shape(route.len() as int, l, r, p),
        1 <= l,
        r + 1 < route.len(),
    ensures
        total_breaks(n, relocated(route, l, r, p, rev)) - total_breaks(n, route) == relocation_vio_delta(n, route, l, r, p, rev),
{
    let t = relocated(route, l, r, p, rev);
    let last = route.len() - 1;
    let m = r - l + 1;
    lemma_breaks_range(n, route, last);
    lemma_breaks_range(n, t, last);
    if p < l {
        let x = seq![0, p, p + 1, p + m, p + m + 1, r, r + 1, last];
        let y = seq![0, p, p + 1, l - 1, l, r, r + 1, last];
        assert forall|j: int| 0 <= j < 7 implies #[trigger] x[j] <= x[j + 1] && y[j] <= y[j + 1] by {}
        lemma_range_split(n, t, 0, p, last);
        lemma_range_split(n, t, p, p + 1, last);
        lemma_range_split(n, t, p + 1, p + m, last);
        lemma_range_split(n, t, p + m, p + m + 1, last);
        lemma_range_split(n, t, p + m + 1, r, last);
        lemma_range_split(n, t, r, r + 1, last);
        lemma_range_split(n, route, 0, p, last);
        lemma_range_split(n, route, p, p + 1, last);
        lemma_range_split(n, route, p + 1, l - 1, last);
        lemma_range_split(n, route, l - 1, l, last);
        lemma_range_split(n, route, l, r, last);
        lemma_range_split(n, route, r, r + 1, last);
        assert forall|k: int| 0 <= k <= p implies #[trigger] t[k] == route[k + 0] by {}
        lemma_range_shift(n, route, t, 0, p, 0);
        assert forall|k: int| r + 1 <= k <= last implies #[trigger] t[k] == route[k + 0] by {}
        lemma_range_shift(n, route, t, r + 1, last, 0);
        assert forall|k: int| p + m + 1 <= k <= r implies #[trigger] t[k] == route[k + (-m)] by {}
        lemma_range_shift(n, route, t, p + m + 1, r, -m);
        if rev {
            assert forall|k: int| p + 1 <= k <= p + m implies #[trigger] t[k] == route[(r + p + 1) - k] by {}
            lemma_range_mirror(n, route, t, p + 1, p + m, r + p + 1);
        } else {
            assert forall|k: int| p + 1 <= k <= p + m implies #[trigger] t[k] == route[k + (l - p - 1)] by {}
            lemma_range_shift(n, route, t, p + 1, p + m, l - p - 1);
        }
        lemma_range_step(n, t, p);
        lemma_range_step(n, t, p + m);
        lemma_range_step(n, t, r);
        lemma_range_step(n, route, p);
        lemma_range_step(n, route, l - 1);
        lemma_range_step(n, route, r);
        assert(t[p] == route[p] && t[r] == route[l - 1] && t[r + 1] == route[r + 1]);
        assert(t[p + 1] == if rev { route[r] } else { route[l] });
        assert(t[p + m] == if rev { route[l] } else { route[r] });
        assert(t[p + m + 1] == route[p + 1]);
    } else {
        let x = seq![0, l - 1, l, p - m, p - m + 1, p, p + 1, last];
        assert forall|j: int| 0 <= j < 7 implies #[trigger] x[j] <= x[j + 1] by {}
        lemma_range_split(n, t, 0, l - 1, last);
        lemma_range_split(n, t, l - 1, l, last);
        lemma_range_split(n, t, l, p - m, last);
        lemma_range_split(n, t, p - m, p - m + 1, last);
        lemma_range_split(n, t, p - m + 1, p, last);
        lemma_range_split(n, t, p, p + 1, last);
        lemma_range_split(n, route, 0, l - 1, last);
        lemma_range_split(n, route, l - 1, l, last);
        lemma_range_split(n, route, l, r, last);
        lemma_range_split(n, route, r, r + 1, last);
        lemma_range_split(n, route, r + 1, p, last);
        lemma_range_split(n, route, p, p + 1, last);
        assert forall|k: int| 0 <= k <= l - 1 implies #[trigger] t[k] == route[k + 0] by {}
        lemma_range_shift(n, route, t, 0, l - 1, 0);
        assert forall|k: int| p + 1 <= k <= last implies #[trigger] t[k] == route[k + 0] by {}
        lemma_range_shift(n, route, t, p + 1, last, 0);
        assert forall|k: int| l <= k <= p - m implies #[trigger] t[k] == route[k + m] by {}
        lemma_range_shift(n, route, t, l, p - m, m);
        if rev {
            assert forall|k: int| p - m + 1 <= k <= p implies #[trigger] t[k] == route[(r + p + 1 - m) - k] by {}
            lemma_range_mirror(n, route, t, p - m + 1, p, r + p + 1 - m);
        } else {
            assert forall|k: int| p - m + 1 <= k <= p implies #[trigger] t[k] == route[k + (l - (p + 1 - m))] by {}
            lemma_range_shift(n, route, t, p - m + 1, p, l - (p + 1 - m));
        }
        lemma_range_step(n, t, l - 1);
        lemma_range_step(n, t, p - m);
        lemma_range_step(n, t, p);
        lemma_range_step(n, route, l - 1);
        lemma_range_step(n, route, r);
        lemma_range_step(n, route, p);
        assert(t[l - 1] == route[l - 1] && t[l] == route[r + 1] && t[p - m] == route[p] && t[p + 1] == route[p + 1]);
        assert(t[p - m + 1] == if rev { route[r] } else { route[l] });
        assert(t[p] == if rev { route[l] } else { route[r] });
    }
}

/// The change in breaks of a relocation (see `relocation_vio_delta`).
pub fn relocation_violation_delta(route: &[usize], n: usize, l: usize, r: usize, p: usize, reversed: bool) -> (d: i32)
    requires
        n > 0,
        1 <= l <= r,
        r + 1 < route@.len(),
        p + 1 < route@.len(),
    ensures
        d == relocation_vio_delta(n as int, route@, l as int, r as int, p as int, reversed),
{
    let a = route[l - 1];
    let b = route[l];
    let c = route[r];
    let d = route[r + 1];
    let e = route[p];
    let f = route[p + 1];
    let old_vio = violation_cost(a, b, n) + violation_cost(c, d, n) + violation_cost(e, f, n);
    let mut new_vio = violation_cost(a, d, n);
    if reversed {
        new_vio = new_vio + violation_cost(e, c, n);
        new_vio = new_vio + violation_cost(b, f, n);
    } else {
        new_vio = new_vio + violation_cost(e, b, n);
        new_vio = new_vio + violation_cost(c, f, n);
    }
    (new_vio - old_vio) as i32
}

/// A move of the penalty search: a segment reversal or a segment relocation.
#[derive(Debug, Clone, Copy, PartialEq, Eq, Structural)]
pub enum CandidateMove {
    Reverse { l: usize, r: usize },
    Relocate { l: usize, r: usize, p: usize, reversed: bool },
}

/// A move with its change in penalized objective, raw score and breaks.
#[derive(Debug, Clone, Copy, PartialEq, Eq, Structural)]
pub struct MoveEval {
    pub mv: CandidateMove,
    pub delta_obj: i64,
    pub delta_raw: i64,
    pub delta_vio: i32,
}

/// `a` is preferred to `b`: a larger objective change, then fewer added
/// breaks, then a larger raw change.
pub open spec fn move_better(a: MoveEval, b: MoveEval) -> bool {
    a.delta_obj > b.delta_obj || (a.delta_obj == b.delta_obj && a.delta_vio < b.delta_vio)
        || (a.delta_obj == b.delta_obj && a.delta_vio == b.delta_vio && a.delta_raw > b.delta_raw)
}

/// Keeps `cand` when it improves the objective and is preferred to the
/// current best (or there is none).
pub fn consider_move(best: &mut Option<MoveEval>, cand: MoveEval)
    ensures
        *final(best) == if cand.delta_obj > 0 && (*old(best) is None || move_better(cand, (*old(best))->0)) {
            Some(cand)
        } else {
            *old(best)
        },
{
    if cand.delta_obj <= 0 {
        return;
    }
    match *best {
        None => {
            *best = Some(cand);
        },
        Some(cur) => {
            if cand.delta_obj > cur.delta_obj || (cand.delta_obj == cur.delta_obj && cand.delta_vio < cur.delta_vio)
                || (cand.delta_obj == cur.delta_obj && cand.delta_vio == cur.delta_vio && cand.delta_raw > cur.delta_raw) {
                *best = Some(cand);
            }
        },
    }
}

/// The move is within the route: `l <= r` for a reversal; the relocation
/// shape for a relocation.
pub open spec fn move_shape(len: int, mv: CandidateMove) -> bool {
    match mv {
        CandidateMove::Reverse { l, r } => l <= r < len,
        CandidateMove::Relocate { l, r, p, reversed } => reloc_shape(len, l as int, r as int, p as int),
    }
}

/// The route after the move.
pub open spec fn moved(route: Seq<usize>, mv: CandidateMove) -> Seq<usize> {
    match mv {
        CandidateMove::Reverse { l, r } => reversed_range(route, l as int, r as int),
        CandidateMove::Relocate { l, r, p, reversed } => relocated(route, l as int, r as int, p as int, reversed),
    }
}

/// Applies the move to the route.
pub fn apply_candidate_move(route: &mut Vec<usize>, mv: CandidateMove)
    requires
        move_shape(old(route)@.len() as int, mv),
        old(route)@.len() <= MAX_CELLS,
    ensures
        final(route)@ == moved(old(route)@, mv),
{
    match mv {
        CandidateMove::Reverse { l, r } => {
            reverse_range(route, l, r);
        },
        CandidateMove::Relocate { l, r, p, reversed } => {
            apply_relocation(route, RelocationMove { l, r, p, reversed, delta: 0 });
        },
    }
}

/// A move within the route keeps it a visit of every cell exactly once
/// (breaks aside).
pub proof fn lemma_moved_keeps_permutation(n: int, route: Seq<usize>, mv: CandidateMove)
    requires
        is_permutation_route(n, route),
        move_shape(route.len() as int, mv),
    ensures
        is_permutation_route(n, moved(route, mv)),
{
    let x = moved(route, mv);
    let len = route.len() as int;
    match mv {
        CandidateMove::Reverse { l, r } => {
            let l = l as int;
            let r = r as int;
            assert forall|i: int| 0 <= i < x.len() implies #[trigger] x[i] < n * n by {
                let ii = if l <= i <= r { l + r - i } else { i };
                assert(x[i] == route[ii]);
            }
            assert forall|a: int, b: int| 0 <= a < x.len() && 0 <= b < x.len() && a != b implies x[a] != x[b] by {
                let ia = if l <= a <= r { l + r - a } else { a };
                let ib = if l <= b <= r { l + r - b } else { b };
                assert(route[ia] != route[ib]);
            }
        },
        CandidateMove::Relocate { l, r, p, reversed } => {
            let (l, r, p) = (l as int, r as int, p as int);
            assert forall|i: int| 0 <= i < x.len() implies #[trigger] x[i] < n * n by {
                lemma_reloc_src_range(len, l, r, p, reversed, i);
            }
            assert forall|a: int, b: int| 0 <= a < x.len() && 0 <= b < x.len() && a != b implies x[a] != x[b] by {
                lemma_reloc_src_range(len, l, r, p, reversed, a);
                lemma_reloc_src_range(len, l, r, p, reversed, b);
                lemma_reloc_src_injective(len, l, r, p, reversed, a, b);
            }
        },
    }
}

/// The steps of `route` that break, in order.
pub open spec fn break_list_ok(n: int, route: Seq<usize>, list: Seq<usize>) -> bool {
    &&& forall|j: int| 0 <= j < list.len() ==> #[trigger] list[j] + 1 < route.len()
        && !adjacent(n, route[list[j] as int] as int, route[list[j] + 1] as int)
    &&& forall|a: int, b: int| 0 <= a < b < list.len() ==> list[a] < list[b]
    &&& forall|i: int| 0 <= i < route.len() - 1 && !adjacent(n, route[i] as int, route[i + 1] as int)
        ==> #[trigger] list.contains(i as usize)
}

/// Lists, in order, the steps `i -> i + 1` of the route that break.
pub fn collect_violations(route: &[usize], n: usize, violations: &mut Vec<usize>)
    requires
        n > 0,
        route@.len() >= 1,
    ensures
        break_list_ok(n as int, route@, final(violations)@),
{
    violations.clear();
    let len = route.len();
    let mut i: usize = 0;
    while i + 1 < len
        invariant
            n > 0,
            len == route@.len() >= 1,
            i + 1 <= len,
            forall|j: int| 0 <= j < violations@.len() ==> #[trigger] violations@[j] < i
                && !adjacent(n as int, route@[violations@[j] as int] as int, route@[violations@[j] + 1] as int),
            forall|a: int, b: int| 0 <= a < b < violations@.len() ==> violations@[a] < violations@[b],
            forall|x: int| 0 <= x < i && !adjacent(n as int, route@[x] as int, route@[x + 1] as int)
                ==> #[trigger] violations@.contains(x as usize),
        decreases len - i,
    {
        if !is_adj(route[i], route[i + 1], n) {
            let ghost before = violations@;
            violations.push(i);
            proof {
                assert forall|x: int| 0 <= x < i + 1 && !adjacent(n as int, route@[x] as int, route@[x + 1] as int)
                    implies #[trigger] violations@.contains(x as usize) by {
                    if x == i {
                        assert(violations@[before.len() as int] == x as usize);
                    } else {
                        assert(before.contains(x as usize));
                        let j = choose|j: int| 0 <= j < before.len() && before[j] == x as usize;
                        assert(violations@[j] == x as usize);
                    }
                }
            }
        }
        i += 1;
    }
}

/// How many breaks a round samples at penalty `lambda`.
pub open spec fn sample_cap(lambda: int) -> int {
    if lambda < 20_000_000 { 96 } else if lambda < 300_000_000 { 192 } else { 384 }
}

/// Samples the breaks evenly: `min(count, cap)` of them (the cap growing
/// with `lambda`), every `count / size`-th (at least every one), starting at
/// `cursor` (taken modulo the count) and wrapping around; `cursor` moves to
/// where the sampling stopped.
pub fn sample_breakpoints(violations: &Vec<usize>, cursor: &mut usize, lambda: i64) -> (sampled: Vec<usize>)
    requires
        violations@.len() <= MAX_CELLS,
    ensures
        violations@.len() == 0 ==> sampled@.len() == 0 && *final(cursor) == *old(cursor),
        violations@.len() > 0 ==> ({
            let count = violations@.len() as int;
            let size = if count < sample_cap(lambda as int) { count } else { sample_cap(lambda as int) };
            let step = if count / size >= 1 { count / size } else { 1 };
            let idx0 = *old(cursor) as int % count;
            &&& sampled@.len() == size
            &&& forall|t: int| 0 <= t < size ==> #[trigger] sampled@[t] == violations@[(idx0 + t * step) % count]
            &&& *final(cursor) == (idx0 + size * step) % count
        }),
{
    if violations.len() == 0 {
        return Vec::new();
    }
    let count = violations.len();
    let cap: usize = if lambda < 20_000_000 { 96 } else if lambda < 300_000_000 { 192 } else { 384 };
    let sample_size = if count < cap { count } else { cap };
    let step = if count / sample_size >= 1 { count / sample_size } else { 1 };
    let ghost idx0 = *cursor as int % count as int;
    let mut idx = *cursor % count;
    proof {
        vstd::arithmetic::div_mod::lemma_small_mod(idx as nat, count as nat);
        assert(idx0 + 0 * step == idx0);
    }
    let mut sampled: Vec<usize> = Vec::new();
    let mut t: usize = 0;
    while t < sample_size
        invariant
            count == violations@.len() > 0,
            count <= MAX_CELLS,
            1 <= sample_size <= count,
            1 <= step <= count,
            idx0 == *old(cursor) as int % count as int,
            t <= sample_size,
            sampled@.len() == t,
            idx < count,
            idx == (idx0 + t * step) % (count as int),
            forall|j: int| 0 <= j < t ==> #[trigger] sampled@[j] == violations@[(idx0 + j * step) % (count as int)],
        decreases sample_size - t,
    {
        sampled.push(violations[idx]);
        proof {
            vstd::arithmetic::div_mod::lemma_add_mod_noop(idx0 + t * step, step as int, count as int);
            vstd::arithmetic::div_mod::lemma_mod_twice(step as int, count as int);
            assert((idx0 + t * step) + step == idx0 + (t + 1) * step) by (nonlinear_arith);
            vstd::arithmetic::div_mod::lemma_add_mod_noop(idx as int, step as int, count as int);
            vstd::arithmetic::div_mod::lemma_small_mod(idx as nat, count as nat);
        }
        idx = (idx + step) % count;
        t += 1;
    }
    *cursor = idx;
    sampled
}

/// Largest reversal span tried at penalty `lambda` (none above the top level).
pub open spec fn span_ok(lambda: int, span: int) -> bool {
    if lambda < 20_000_000 { span <= 256 } else if lambda < 300_000_000 { span <= 2048 } else { true }
}

/// A reversal that mends break `k` from one side: starting right after the
/// break and ending at a cell next to `route[k]` (`from_left`), or ending at
/// the break and starting at a cell next to `route[k + 1]`.
pub open spec fn rev_cand(n: int, route: Seq<usize>, lambda: int, k: int, from_left: bool, l: int, r: int) -> bool {
    &&& span_ok(lambda, r - l)
    &&& if from_left {
        l == k + 1 && l < r < route.len() && adjacent(n, route[k] as int, route[r] as int)
    } else {
        r == k && 0 <= l < r && adjacent(n, route[k + 1] as int, route[l] as int)
    }
}

/// A relocation of 1 to 4 cells next to break `k` (starting right after
/// it when `forward`, ending at it otherwise), clear of the route's ends,
/// put after a cell `route[p]` next to the cell on the other side of the
/// break.
pub open spec fn reloc_cand(n: int, route: Seq<usize>, k: int, forward: bool, l: int, r: int, p: int) -> bool {
    &&& 1 <= r - l + 1 <= 4
    &&& 1 <= l
    &&& r + 1 < route.len()
    &&& 0 <= p
    &&& p + 1 < route.len()
    &&& !(l <= p <= r)
    &&& !(l <= p + 1 <= r)
    &&& if forward {
        l == k + 1 && adjacent(n, route[k] as int, route[p] as int)
    } else {
        r == k && adjacent(n, route[k + 1] as int, route[p] as int)
    }
}

/// The moves tried at break `k`.
pub open spec fn candidate_at(n: int, route: Seq<usize>, lambda: int, k: int, mv: CandidateMove) -> bool {
    &&& 0 <= k
    &&& k + 1 < route.len()
    &&& match mv {
        CandidateMove::Reverse { l, r } => rev_cand(n, route, lambda, k, true, l as int, r as int)
            || rev_cand(n, route, lambda, k, false, l as int, r as int),
        CandidateMove::Relocate { l, r, p, reversed } => reloc_cand(n, route, k, true, l as int, r as int, p as int)
            || reloc_cand(n, route, k, false, l as int, r as int, p as int),
    }
}

/// The moves tried at the sampled breaks.
pub open spec fn breakpoint_candidate(n: int, route: Seq<usize>, lambda: int, sampled: Seq<usize>, mv: CandidateMove) -> bool {
    exists|j: int| 0 <= j < sampled.len() && #[trigger] candidate_at(n, route, lambda, sampled[j] as int, mv)
}

/// Raw score change of a move.
pub open spec fn move_raw(route: Seq<usize>, w: Seq<i64>, mv: CandidateMove) -> int {
    match mv {
        CandidateMove::Reverse { l, r } => seg_delta(route, w, l as int, r as int),
        CandidateMove::Relocate { l, r, p, reversed } => reloc_gain(route, w, l as int, r as int, p as int, reversed),
    }
}

/// Change in breaks of a move.
pub open spec fn move_vio(n: int, route: Seq<usize>, mv: CandidateMove) -> int {
    match mv {
        CandidateMove::Reverse { l, r } => reversal_vio_delta(n, route, l as int, r as int),
        CandidateMove::Relocate { l, r, p, reversed } => relocation_vio_delta(n, route, l as int, r as int, p as int, reversed),
    }
}

/// Change in penalized objective of a move.
pub open spec fn move_obj(n: int, route: Seq<usize>, w: Seq<i64>, lambda: int, mv: CandidateMove) -> int {
    move_raw(route, w, mv) - lambda * move_vio(n, route, mv)
}

/// The penalized objective of a route at price `lambda`: its raw score
/// minus `lambda` per break.
pub open spec fn penalized(n: int, route: Seq<usize>, w: Seq<i64>, lambda: int) -> int {
    raw_score(route, w) - lambda * total_breaks(n, route)
}

/// A move changes the penalized objective of the route by exactly its
/// `move_obj`: its raw change is the change in raw score and its
/// `move_vio` the change in breaks. (A relocated segment has a step on
/// each side.)
pub proof fn lemma_move_objective_law(n: int, route: Seq<usize>, w: Seq<i64>, lambda: int, mv: CandidateMove)
    requires
        move_shape(route.len() as int, mv),
        mv matches CandidateMove::Relocate { l, r, p, reversed } ==> 1 <= l && r + 1 < route.len(),
    ensures
        penalized(n, moved(route, mv), w, lambda) - penalized(n, route, w, lambda) == move_obj(n, route, w, lambda, mv),
{
    let after = moved(route, mv);
    match mv {
        CandidateMove::Reverse { l, r } => {
            lemma_reversal_score(route, w, l as int, r as int);
            lemma_reversal_breaks_law(n, route, l as int, r as int);
        },
        CandidateMove::Relocate { l, r, p, reversed } => {
            lemma_relocation_breaks_law(n, route, l as int, r as int, p as int, reversed);
        },
    }
    let db = total_breaks(n, after) - total_breaks(n, route);
    assert(db == move_vio(n, route, mv));
    assert(lambda * total_breaks(n, after) - lambda * total_breaks(n, route) == lambda * db) by (nonlinear_arith)
        requires db == total_breaks(n, after) - total_breaks(n, route);
}

/// `e` holds the true changes of its move.
pub open spec fn eval_ok(n: int, route: Seq<usize>, w: Seq<i64>, lambda: int, e: MoveEval) -> bool {
    &&& e.delta_raw == move_raw(route, w, e.mv)
    &&& e.delta_vio == move_vio(n, route, e.mv)
    &&& e.delta_obj == move_obj(n, route, w, lambda, e.mv)
}

/// The move `mv` is not preferred to `e` (see `move_better`).
pub open spec fn not_better(n: int, route: Seq<usize>, w: Seq<i64>, lambda: int, mv: CandidateMove, e: MoveEval) -> bool {
    let o = move_obj(n, route, w, lambda, mv);
    let v = move_vio(n, route, mv);
    let r = move_raw(route, w, mv);
    !(o > e.delta_obj || (o == e.delta_obj && v < e.delta_vio) || (o == e.delta_obj && v == e.delta_vio && r > e.delta_raw))
}

/// If `mv` improves the objective, `best` holds a move at least as preferred.
pub open spec fn covers(n: int, route: Seq<usize>, w: Seq<i64>, lambda: int, best: Option<MoveEval>, mv: CandidateMove) -> bool {
    move_obj(n, route, w, lambda, mv) > 0 ==> best is Some && not_better(n, route, w, lambda, mv, best->0)
}

/// `best` is nothing, or an improving tried move with its true changes.
pub open spec fn best_valid(n: int, route: Seq<usize>, w: Seq<i64>, lambda: int, sampled: Seq<usize>, best: Option<MoveEval>) -> bool {
    best matches Some(e) ==> eval_ok(n, route, w, lambda, e) && e.delta_obj > 0
        && breakpoint_candidate(n, route, lambda, sampled, e.mv)
}

/// The context of the breakpoint search.
pub open spec fn bp_ctx(n: int, route: Seq<usize>, w: Seq<i64>, position: Seq<usize>, pw: Seq<i64>, ppw: Seq<i64>,
    neighbors: Seq<Vec<usize>>, lambda: int) -> bool {
    &&& search_ctx(n, route, w, position, pw, ppw)
    &&& w.len() == n * n
    &&& weights_bounded(w)
    &&& neighbors.len() == n * n
    &&& forall|c: int| 0 <= c < n * n ==> lists_neighbors(n, c, #[trigger] neighbors[c]@)
    &&& -20_000_000_000 <= lambda <= 20_000_000_000
}

/// Offers the evaluated move `e` to `best` (see `consider_move`), keeping
/// `best` valid and at least as preferred as before and as `e`.
fn offer_move(best: &mut Option<MoveEval>, e: MoveEval, Ghost(n): Ghost<int>, Ghost(route): Ghost<Seq<usize>>,
    Ghost(w): Ghost<Seq<i64>>, Ghost(lambda): Ghost<int>, Ghost(sampled): Ghost<Seq<usize>>)
    requires
        eval_ok(n, route, w, lambda, e),
        breakpoint_candidate(n, route, lambda, sampled, e.mv),
        best_valid(n, route, w, lambda, sampled, *old(best)),
    ensures
        best_valid(n, route, w, lambda, sampled, *final(best)),
        covers(n, route, w, lambda, *final(best), e.mv),
        forall|mv: CandidateMove| #[trigger] covers(n, route, w, lambda, *old(best), mv) ==> covers(n, route, w, lambda, *final(best), mv),
{
    consider_move(best, e);
}

/// The two sides' reversal moves at break `k` through the neighbours of
/// the cell on the other side of the break.
fn scan_reversals(
    route: &[usize],
    neighbors: &Vec<Vec<usize>>,
    position: &[usize],
    prefix_weight: &[i64],
    prefix_pos_weight: &[i64],
    n: usize,
    k: usize,
    from_left: bool,
    lambda: i64,
    best: &mut Option<MoveEval>,
    Ghost(w): Ghost<Seq<i64>>,
    Ghost(sampled): Ghost<Seq<usize>>,
    Ghost(j): Ghost<int>,
)
    requires
        bp_ctx(n as int, route@, w, position@, prefix_weight@, prefix_pos_weight@, neighbors@, lambda as int),
        0 <= j < sampled.len(),
        sampled[j] == k,
        k + 1 < route@.len(),
        best_valid(n as int, route@, w, lambda as int, sampled, *old(best)),
    ensures
        best_valid(n as int, route@, w, lambda as int, sampled, *final(best)),
        forall|l: usize, r: usize| #[trigger] rev_cand(n as int, route@, lambda as int, k as int, from_left, l as int, r as int)
            ==> covers(n as int, route@, w, lambda as int, *final(best), CandidateMove::Reverse { l, r }),
        forall|mv: CandidateMove| #[trigger] covers(n as int, route@, w, lambda as int, *old(best), mv)
            ==> covers(n as int, route@, w, lambda as int, *final(best), mv),
{
    let ghost rt = route@;
    let ghost nn = n as int;
    let ghost lam = lambda as int;
    let len = route.len();
    let max_rev_span: usize = if lambda < 20_000_000 { 256 } else if lambda < 300_000_000 { 2048 } else { usize::MAX };
    let cell = if from_left { route[k] } else { route[k + 1] };
    proof {
        assert(cell < n * n);
    }
    let list = &neighbors[cell];
    let ghost best0 = *best;
    let mut t: usize = 0;
    while t < list.len()
        invariant
            bp_ctx(nn, rt, w, position@, prefix_weight@, prefix_pos_weight@, neighbors@, lam),
            rt == route@,
            nn == n,
            lam == lambda,
            len == rt.len(),
            0 <= j < sampled.len(),
            sampled[j] == k,
            k + 1 < len,
            cell == if from_left { rt[k as int] } else { rt[k + 1] },
            cell < n * n,
            list@ == neighbors@[cell as int]@,
            max_rev_span == if lambda < 20_000_000 { 256 } else if lambda < 300_000_000 { 2048 } else { usize::MAX },
            t <= list@.len(),
            best_valid(nn, rt, w, lam, sampled, *best),
            forall|mv: CandidateMove| #[trigger] covers(nn, rt, w, lam, best0, mv) ==> covers(nn, rt, w, lam, *best, mv),
            forall|l: usize, r: usize| #[trigger] rev_cand(nn, rt, lam, k as int, from_left, l as int, r as int)
                && list@.subrange(0, t as int).contains(if from_left { rt[r as int] } else { rt[l as int] })
                ==> covers(nn, rt, w, lam, *best, CandidateMove::Reverse { l, r }),
        decreases list@.len() - t,
    {
        let anchor = list[t];
        proof {
            assert(list@.contains(anchor));
            assert(anchor < n * n);
            lemma_position_inverse(nn, rt, w, position@, prefix_weight@, prefix_pos_weight@, anchor as int);
        }
        let pos = position[anchor];
        let (l, r) = if from_left { (k + 1, pos) } else { (pos, k) };
        let ghost best_before = *best;
        if l < r && (max_rev_span == usize::MAX || r - l <= max_rev_span) {
            proof {
                lemma_delta_matches(rt, w, position@, prefix_weight@, prefix_pos_weight@, l as int, r as int);
                crate::moves::lemma_adjacent_symmetric(nn, cell as int, anchor as int);
            }
            let delta_raw = reversal_delta(l, r, prefix_weight, prefix_pos_weight);
            let delta_vio = reversal_violation_delta(route, n, l, r);
            proof {
                lemma_seg_delta_bound(rt, w, l as int, r as int, prefix_weight@, prefix_pos_weight@);
                assert(-2 <= delta_vio <= 2);
                assert(-40_000_000_000 <= lambda * delta_vio <= 40_000_000_000) by (nonlinear_arith)
                    requires -20_000_000_000 <= lambda <= 20_000_000_000, -2 <= delta_vio <= 2;
            }
            let pen = lambda * delta_vio as i64;
            let delta_obj = delta_raw - pen;
            let e = MoveEval { mv: CandidateMove::Reverse { l, r }, delta_obj, delta_raw, delta_vio };
            proof {
                assert(rev_cand(nn, rt, lam, k as int, from_left, l as int, r as int));
                assert(candidate_at(nn, rt, lam, sampled[j] as int, e.mv));
            }
            offer_move(best, e, Ghost(nn), Ghost(rt), Ghost(w), Ghost(lam), Ghost(sampled));
        }
        proof {
            assert forall|a: usize, b: usize| #[trigger] rev_cand(nn, rt, lam, k as int, from_left, a as int, b as int)
                && list@.subrange(0, t + 1).contains(if from_left { rt[b as int] } else { rt[a as int] })
                implies covers(nn, rt, w, lam, *best, CandidateMove::Reverse { l: a, r: b }) by {
                let other = if from_left { rt[b as int] } else { rt[a as int] };
                let i = choose|i: int| 0 <= i < t + 1 && #[trigger] list@.subrange(0, t + 1)[i] == other;
                if i < t {
                    assert(list@.subrange(0, t as int)[i] == other);
                    assert(covers(nn, rt, w, lam, best_before, CandidateMove::Reverse { l: a, r: b }));
                } else {
                    assert(other == anchor);
                    if from_left {
                        assert(rt[b as int] == anchor);
                        assert(position@[rt[b as int] as int] == b);
                    } else {
                        assert(rt[a as int] == anchor);
                        assert(position@[rt[a as int] as int] == a);
                    }
                }
            }
        }
        t += 1;
    }
    proof {
        assert forall|l: usize, r: usize| #[trigger] rev_cand(nn, rt, lam, k as int, from_left, l as int, r as int)
            implies covers(nn, rt, w, lam, *best, CandidateMove::Reverse { l, r }) by {
            let other = if from_left { rt[r as int] } else { rt[l as int] };
            assert(other < n * n);
            crate::moves::lemma_adjacent_symmetric(nn, cell as int, other as int);
            assert(list@.contains(other));
            assert(list@.subrange(0, list@.len() as int) =~= list@);
        }
    }
}

/// The reversal change from prefix arrays is within `8 * 10^18`.
proof fn lemma_seg_delta_bound(route: Seq<usize>, w: Seq<i64>, l: int, r: int, pw: Seq<i64>, ppw: Seq<i64>)
    requires
        0 <= l <= r < MAX_CELLS,
        r + 1 < pw.len(),
        r + 1 < ppw.len(),
        weight_sums_bounded(pw),
        score_sums_bounded(ppw),
    ensures
        -8_000_000_000_000_000_000 <= (l + r) * (pw[r + 1] - pw[l]) - 2 * (ppw[r + 1] - ppw[l]) <= 8_000_000_000_000_000_000,
{
    let sw = pw[r + 1] - pw[l];
    let sp = ppw[r + 1] - ppw[l];
    assert(-2 * (MAX_CELLS * MAX_WEIGHT) <= sw <= 2 * (MAX_CELLS * MAX_WEIGHT));
    assert(-2 * (MAX_CELLS * (MAX_CELLS * MAX_WEIGHT)) <= sp <= 2 * (MAX_CELLS * (MAX_CELLS * MAX_WEIGHT)));
    assert(-4_000_000_000_000_000_000 <= (l + r) * sw <= 4_000_000_000_000_000_000) by (nonlinear_arith)
        requires 0 <= l + r <= 2 * MAX_CELLS, -2 * (MAX_CELLS * MAX_WEIGHT) <= sw <= 2 * (MAX_CELLS * MAX_WEIGHT);
}

/// A relocation's raw change is within `2 * 10^18`.
proof fn lemma_reloc_gain_bound(route: Seq<usize>, w: Seq<i64>, l: int, r: int, p: int, rev: bool)
    requires
        reloc_shape(route.len() as int, l, r, p),
        route.len() <= MAX_CELLS,
        cells_in(route, w.len() as int),
        weights_bounded(w),
    ensures
        -2_000_000_000_000_000_000 <= reloc_gain(route, w, l, r, p, rev) <= 2_000_000_000_000_000_000,
{
    let moved = relocated(route, l, r, p, rev);
    assert forall|i: int| 0 <= i < moved.len() implies #[trigger] moved[i] < w.len() by {
        crate::relocate::lemma_reloc_src_range(route.len() as int, l, r, p, rev, i);
    }
    crate::descent::lemma_raw_score_bound(route, w);
    crate::descent::lemma_raw_score_bound(moved, w);
}

/// The relocation moves at break `k` of 1 to 4 cells starting right after
/// the break (`forward`) or ending at it.
fn scan_relocations(
    route: &[usize],
    weights: &[i64],
    neighbors: &Vec<Vec<usize>>,
    position: &[usize],
    prefix_weight: &[i64],
    prefix_pos_weight: &[i64],
    n: usize,
    k: usize,
    forward: bool,
    lambda: i64,
    best: &mut Option<MoveEval>,
    Ghost(sampled): Ghost<Seq<usize>>,
    Ghost(j): Ghost<int>,
)
    requires
        bp_ctx(n as int, route@, weights@, position@, prefix_weight@, prefix_pos_weight@, neighbors@, lambda as int),
        0 <= j < sampled.len(),
        sampled[j] == k,
        k + 1 < route@.len(),
        best_valid(n as int, route@, weights@, lambda as int, sampled, *old(best)),
    ensures
        best_valid(n as int, route@, weights@, lambda as int, sampled, *final(best)),
        forall|l: usize, r: usize, p: usize, rev: bool| reloc_cand(n as int, route@, k as int, forward, l as int, r as int, p as int)
            ==> #[trigger] covers(n as int, route@, weights@, lambda as int, *final(best), CandidateMove::Relocate { l, r, p, reversed: rev }),
        forall|mv: CandidateMove| #[trigger] covers(n as int, route@, weights@, lambda as int, *old(best), mv)
            ==> covers(n as int, route@, weights@, lambda as int, *final(best), mv),
{
    let ghost rt = route@;
    let ghost w = weights@;
    let ghost nn = n as int;
    let ghost lam = lambda as int;
    let len = route.len();
    let cell = if forward { route[k] } else { route[k + 1] };
    proof {
        assert(cell < n * n);
    }
    let list = &neighbors[cell];
    let ghost best0 = *best;
    let mut seg_len: usize = 1;
    while seg_len <= 4
        invariant
            bp_ctx(nn, rt, w, position@, prefix_weight@, prefix_pos_weight@, neighbors@, lam),
            rt == route@,
            w == weights@,
            nn == n,
            lam == lambda,
            len == rt.len(),
            0 <= j < sampled.len(),
            sampled[j] == k,
            k + 1 < len,
            cell == if forward { rt[k as int] } else { rt[k + 1] },
            cell < n * n,
            list@ == neighbors@[cell as int]@,
            1 <= seg_len <= 5,
            best_valid(nn, rt, w, lam, sampled, *best),
            forall|mv: CandidateMove| #[trigger] covers(nn, rt, w, lam, best0, mv) ==> covers(nn, rt, w, lam, *best, mv),
            forall|l: usize, r: usize, p: usize, rev: bool| reloc_cand(nn, rt, k as int, forward, l as int, r as int, p as int)
                && r - l + 1 < seg_len ==> #[trigger] covers(nn, rt, w, lam, *best, CandidateMove::Relocate { l, r, p, reversed: rev }),
        ensures
            best_valid(nn, rt, w, lam, sampled, *best),
            forall|mv: CandidateMove| #[trigger] covers(nn, rt, w, lam, best0, mv) ==> covers(nn, rt, w, lam, *best, mv),
            forall|l: usize, r: usize, p: usize, rev: bool| reloc_cand(nn, rt, k as int, forward, l as int, r as int, p as int)
                ==> #[trigger] covers(nn, rt, w, lam, *best, CandidateMove::Relocate { l, r, p, reversed: rev }),
        decreases 5 - seg_len,
    {
        if forward {
            if k + seg_len + 1 >= len {
                proof {
                    assert forall|a: usize, b: usize, q: usize, rev: bool| reloc_cand(nn, rt, k as int, forward, a as int, b as int, q as int)
                        implies #[trigger] covers(nn, rt, w, lam, *best, CandidateMove::Relocate { l: a, r: b, p: q, reversed: rev }) by {
                        assert(b - a + 1 < seg_len);
                    }
                }
                break;
            }
        } else {
            if k + 1 < seg_len {
                proof {
                    assert forall|a: usize, b: usize, q: usize, rev: bool| reloc_cand(nn, rt, k as int, forward, a as int, b as int, q as int)
                        implies #[trigger] covers(nn, rt, w, lam, *best, CandidateMove::Relocate { l: a, r: b, p: q, reversed: rev }) by {
                        assert(b - a + 1 < seg_len);
                    }
                }
                break;
            }
        }
        let (l, r) = if forward { (k + 1, k + seg_len) } else { (k + 1 - seg_len, k) };
        if l >= 1 && r + 1 < len {
            let mut t: usize = 0;
            while t < list.len()
                invariant
                    bp_ctx(nn, rt, w, position@, prefix_weight@, prefix_pos_weight@, neighbors@, lam),
                    rt == route@,
                    w == weights@,
                    nn == n,
                    lam == lambda,
                    len == rt.len(),
                    0 <= j < sampled.len(),
                    sampled[j] == k,
                    k + 1 < len,
                    cell == if forward { rt[k as int] } else { rt[k + 1] },
                    cell < n * n,
                    list@ == neighbors@[cell as int]@,
                    1 <= seg_len <= 4,
                    r - l + 1 == seg_len,
                    if forward { l == k + 1 } else { r == k },
                    1 <= l,
                    r + 1 < len,
                    t <= list@.len(),
                    best_valid(nn, rt, w, lam, sampled, *best),
                    forall|mv: CandidateMove| #[trigger] covers(nn, rt, w, lam, best0, mv) ==> covers(nn, rt, w, lam, *best, mv),
                    forall|a: usize, b: usize, q: usize, rev: bool| reloc_cand(nn, rt, k as int, forward, a as int, b as int, q as int)
                        && (b - a + 1 < seg_len || (b - a + 1 == seg_len && list@.subrange(0, t as int).contains(rt[q as int])))
                        ==> #[trigger] covers(nn, rt, w, lam, *best, CandidateMove::Relocate { l: a, r: b, p: q, reversed: rev }),
                decreases list@.len() - t,
            {
                let anchor = list[t];
                proof {
                    assert(list@.contains(anchor));
                    assert(anchor < n * n);
                    lemma_position_inverse(nn, rt, w, position@, prefix_weight@, prefix_pos_weight@, anchor as int);
                }
                let p = position[anchor];
                let ghost best_before = *best;
                if p + 1 < len && edge_disjoint_from_segment(p, l, r) {
                    proof {
                        crate::moves::lemma_adjacent_symmetric(nn, cell as int, anchor as int);
                        assert(reloc_cand(nn, rt, k as int, forward, l as int, r as int, p as int));
                    }
                    let mut ri: usize = 0;
                    while ri < 2
                        invariant
                            bp_ctx(nn, rt, w, position@, prefix_weight@, prefix_pos_weight@, neighbors@, lam),
                            rt == route@,
                            w == weights@,
                            nn == n,
                            lam == lambda,
                            len == rt.len(),
                            0 <= j < sampled.len(),
                            sampled[j] == k,
                            reloc_cand(nn, rt, k as int, forward, l as int, r as int, p as int),
                            ri <= 2,
                            best_valid(nn, rt, w, lam, sampled, *best),
                            forall|mv: CandidateMove| #[trigger] covers(nn, rt, w, lam, best_before, mv) ==> covers(nn, rt, w, lam, *best, mv),
                            ri >= 1 ==> covers(nn, rt, w, lam, *best, CandidateMove::Relocate { l, r, p, reversed: false }),
                            ri >= 2 ==> covers(nn, rt, w, lam, *best, CandidateMove::Relocate { l, r, p, reversed: true }),
                        decreases 2 - ri,
                    {
                        let reversed = ri == 1;
                        let delta_raw = relocation_delta(route, weights, prefix_weight, l, r, p, reversed);
                        let delta_vio = relocation_violation_delta(route, n, l, r, p, reversed);
                        proof {
                            lemma_reloc_gain_bound(rt, w, l as int, r as int, p as int, reversed);
                            assert(-3 <= delta_vio <= 3);
                            assert(-60_000_000_000 <= lambda * delta_vio <= 60_000_000_000) by (nonlinear_arith)
                                requires -20_000_000_000 <= lambda <= 20_000_000_000, -3 <= delta_vio <= 3;
                        }
                        let pen = lambda * delta_vio as i64;
                        let delta_obj = delta_raw - pen;
                        let e = MoveEval { mv: CandidateMove::Relocate { l, r, p, reversed }, delta_obj, delta_raw, delta_vio };
                        proof {
                            assert(candidate_at(nn, rt, lam, sampled[j] as int, e.mv));
                        }
                        offer_move(best, e, Ghost(nn), Ghost(rt), Ghost(w), Ghost(lam), Ghost(sampled));
                        ri += 1;
                    }
                }
                proof {
                    assert forall|a: usize, b: usize, q: usize, rev: bool| reloc_cand(nn, rt, k as int, forward, a as int, b as int, q as int)
                        && (b - a + 1 < seg_len || (b - a + 1 == seg_len && list@.subrange(0, t + 1).contains(rt[q as int])))
                        implies #[trigger] covers(nn, rt, w, lam, *best, CandidateMove::Relocate { l: a, r: b, p: q, reversed: rev }) by {
                        if b - a + 1 == seg_len {
                            let other = rt[q as int];
                            let i = choose|i: int| 0 <= i < t + 1 && #[trigger] list@.subrange(0, t + 1)[i] == other;
                            if i < t {
                                assert(list@.subrange(0, t as int)[i] == other);
                                assert(covers(nn, rt, w, lam, best_before, CandidateMove::Relocate { l: a, r: b, p: q, reversed: rev }));
                            } else {
                                assert(other == anchor);
                                assert(position@[rt[q as int] as int] == q);
                                assert(a == l && b == r);
                            }
                        } else {
                            assert(covers(nn, rt, w, lam, best_before, CandidateMove::Relocate { l: a, r: b, p: q, reversed: rev }));
                        }
                    }
                }
                t += 1;
            }
            proof {
                assert forall|a: usize, b: usize, q: usize, rev: bool| reloc_cand(nn, rt, k as int, forward, a as int, b as int, q as int)
                    && b - a + 1 < seg_len + 1 implies #[trigger] covers(nn, rt, w, lam, *best, CandidateMove::Relocate { l: a, r: b, p: q, reversed: rev }) by {
                    if b - a + 1 == seg_len {
                        let other = rt[q as int];
                        assert(other < n * n);
                        crate::moves::lemma_adjacent_symmetric(nn, cell as int, other as int);
                        assert(list@.contains(other));
                        assert(list@.subrange(0, list@.len() as int) =~= list@);
                    }
                }
            }
        }
        seg_len += 1;
    }
}

/// The best move tried at the sampled breaks: at each break `k`, the
/// reversals starting right after it and ending next to `route[k]`, those
/// ending at it and starting next to `route[k + 1]` (spans limited by
/// `lambda`), and the relocations of 1 to 4 cells on either side of the
/// break put after a cell next to the cell across the break, forwards and
/// backwards. Of those that improve the penalized objective (raw change
/// minus `lambda` times the change in breaks), one that no other is
/// preferred to (`move_better`); `None` when none improves it.
pub fn find_best_breakpoint_move(
    route: &[usize],
    weights: &[i64],
    neighbors: &Vec<Vec<usize>>,
    position: &[usize],
    prefix_weight: &[i64],
    prefix_pos_weight: &[i64],
    n: usize,
    sampled_breakpoints: &Vec<usize>,
    lambda: i64,
) -> (best: Option<MoveEval>)
    requires
        bp_ctx(n as int, route@, weights@, position@, prefix_weight@, prefix_pos_weight@, neighbors@, lambda as int),
    ensures
        best_valid(n as int, route@, weights@, lambda as int, sampled_breakpoints@, best),
        forall|mv: CandidateMove| #[trigger] breakpoint_candidate(n as int, route@, lambda as int, sampled_breakpoints@, mv)
            ==> covers(n as int, route@, weights@, lambda as int, best, mv),
{
    let ghost rt = route@;
    let ghost w = weights@;
    let ghost nn = n as int;
    let ghost lam = lambda as int;
    let ghost sampled = sampled_breakpoints@;
    let len = route.len();
    let mut best: Option<MoveEval> = None;
    let mut j: usize = 0;
    while j < sampled_breakpoints.len()
        invariant
            bp_ctx(nn, rt, w, position@, prefix_weight@, prefix_pos_weight@, neighbors@, lam),
            rt == route@,
            w == weights@,
            nn == n,
            lam == lambda,
            sampled == sampled_breakpoints@,
            len == rt.len(),
            j <= sampled.len(),
            best_valid(nn, rt, w, lam, sampled, best),
            forall|mv: CandidateMove, jj: int| 0 <= jj < j && #[trigger] candidate_at(nn, rt, lam, sampled[jj] as int, mv)
                ==> covers(nn, rt, w, lam, best, mv),
        decreases sampled.len() - j,
    {
        let k = sampled_breakpoints[j];
        if k < len && k + 1 < len {
            let ghost best_start = best;
            scan_reversals(route, neighbors, position, prefix_weight, prefix_pos_weight, n, k, true, lambda, &mut best,
                Ghost(w), Ghost(sampled), Ghost(j as int));
            let ghost best1 = best;
            scan_reversals(route, neighbors, position, prefix_weight, prefix_pos_weight, n, k, false, lambda, &mut best,
                Ghost(w), Ghost(sampled), Ghost(j as int));
            let ghost best2 = best;
            scan_relocations(route, weights, neighbors, position, prefix_weight, prefix_pos_weight, n, k, true, lambda,
                &mut best, Ghost(sampled), Ghost(j as int));
            let ghost best3 = best;
            scan_relocations(route, weights, neighbors, position, prefix_weight, prefix_pos_weight, n, k, false, lambda,
                &mut best, Ghost(sampled), Ghost(j as int));
            proof {
                assert forall|mv: CandidateMove, jj: int| 0 <= jj < j + 1 && #[trigger] candidate_at(nn, rt, lam, sampled[jj] as int, mv)
                    implies covers(nn, rt, w, lam, best, mv) by {
                    if jj < j {
                        assert(covers(nn, rt, w, lam, best_start, mv));
                        assert(covers(nn, rt, w, lam, best1, mv));
                        assert(covers(nn, rt, w, lam, best2, mv));
                        assert(covers(nn, rt, w, lam, best3, mv));
                    } else {
                        match mv {
                            CandidateMove::Reverse { l, r } => {
                                if rev_cand(nn, rt, lam, k as int, true, l as int, r as int) {
                                    assert(covers(nn, rt, w, lam, best1, mv));
                                    assert(covers(nn, rt, w, lam, best2, mv));
                                    assert(covers(nn, rt, w, lam, best3, mv));
                                } else {
                                    assert(covers(nn, rt, w, lam, best2, mv));
                                    assert(covers(nn, rt, w, lam, best3, mv));
                                }
                            },
                            CandidateMove::Relocate { l, r, p, reversed } => {
                                if reloc_cand(nn, rt, k as int, true, l as int, r as int, p as int) {
                                    assert(covers(nn, rt, w, lam, best3, CandidateMove::Relocate { l, r, p, reversed }));
                                } else {
                                    assert(covers(nn, rt, w, lam, best, CandidateMove::Relocate { l, r, p, reversed }));
                                }
                            },
                        }
                    }
                }
            }
        } else {
            proof {
                assert forall|mv: CandidateMove, jj: int| 0 <= jj < j + 1 && #[trigger] candidate_at(nn, rt, lam, sampled[jj] as int, mv)
                    implies covers(nn, rt, w, lam, best, mv) by {
                    if jj == j {
                        assert(!candidate_at(nn, rt, lam, sampled[jj] as int, mv));
                    }
                }
            }
        }
        j += 1;
    }
    proof {
        assert forall|mv: CandidateMove| #[trigger] breakpoint_candidate(nn, rt, lam, sampled, mv)
            implies covers(nn, rt, w, lam, best, mv) by {
            let jj = choose|jj: int| 0 <= jj < sampled.len() && #[trigger] candidate_at(nn, rt, lam, sampled[jj] as int, mv);
        }
    }
    best
}

} // verus!
