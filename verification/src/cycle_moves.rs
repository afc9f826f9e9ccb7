//! Moves on closed tours: segment reversals that keep the tour closed.
use vstd::prelude::*;
use crate::grid::{adjacent, is_route, is_permutation_route, raw_prefix, raw_score, lists_neighbors, MAX_CELLS, is_adj};
use crate::moves::{wsum, seg_delta, reversed_range, valid_reversal, reversal_delta, aux_of, search_ctx,
    lemma_search_ctx, lemma_position_inverse, lemma_delta_matches, lemma_adjacent_symmetric,
    lemma_reversal_keeps_route, lemma_reversal_score, weight_sums_bounded, score_sums_bounded, TwoOptMove};
use crate::cycle::is_cycle;

verus! {

/// Position before `l` on the closed tour.
pub open spec fn cycle_prev(len: int, l: int) -> int {
    if l == 0 { len - 1 } else { l - 1 }
}

/// Position after `r` on the closed tour.
pub open spec fn cycle_next(len: int, r: int) -> int {
    if r + 1 == len { 0 } else { r + 1 }
}

/// Reversing `route[l..=r]` keeps the closed tour closed and every step a
/// king move: the cell before `l` is next to `route[r]` and `route[l]` is
/// next to the cell after `r` (around the tour).
pub open spec fn valid_cycle_reversal(n: int, route: Seq<usize>, l: int, r: int) -> bool {
    &&& 0 <= l < r < route.len()
    &&& cycle_next(route.len() as int, r) != l
    &&& adjacent(n, route[cycle_prev(route.len() as int, l)] as int, route[r] as int)
    &&& adjacent(n, route[l] as int, route[cycle_next(route.len() as int, r)] as int)
}

/// `d` is at least the score change of every valid reversal of the tour.
pub open spec fn dominates_cycle_reversals(n: int, route: Seq<usize>, w: Seq<i64>, d: int) -> bool {
    forall|l: int, r: int| #[trigger] valid_cycle_reversal(n, route, l, r) ==> seg_delta(route, w, l, r) <= d
}

/// No reversal of a segment of the closed tour `route` that keeps it closed
/// and every step a king move raises its raw score.
pub open spec fn cycle_reversal_optimal(n: int, route: Seq<usize>, w: Seq<i64>) -> bool {
    forall|l: int, r: int| #[trigger] valid_cycle_reversal(n, route, l, r)
        ==> raw_score(reversed_range(route, l, r), w) <= raw_score(route, w)
}

/// When every valid tour reversal changes the score by at most `0`, none
/// raises it.
pub proof fn lemma_cycle_reversal_optimal(n: int, route: Seq<usize>, w: Seq<i64>)
    requires
        dominates_cycle_reversals(n, route, w, 0),
    ensures
        cycle_reversal_optimal(n, route, w),
{
    assert forall|l: int, r: int| #[trigger] valid_cycle_reversal(n, route, l, r)
        implies raw_score(reversed_range(route, l, r), w) <= raw_score(route, w) by {
        lemma_reversal_score(route, w, l, r);
    }
}

/// A valid tour reversal keeps a closed tour a closed tour.
pub proof fn lemma_cycle_reversal(n: int, route: Seq<usize>, l: int, r: int)
    requires
        is_cycle(n, route),
        valid_cycle_reversal(n, route, l, r),
    ensures
        is_cycle(n, reversed_range(route, l, r)),
{
    let len = route.len() as int;
    assert(valid_reversal(n, route, l, r));
    lemma_reversal_keeps_route(n, route, l, r);
    let s = reversed_range(route, l, r);
    if l == 0 {
        assert(s[0] == route[r]);
        if r < len - 1 {
            assert(s.last() == route[len - 1]);
            lemma_adjacent_symmetric(n, route[len - 1] as int, route[r] as int);
        }
    } else if r == len - 1 {
        assert(s.last() == route[l]);
        assert(s[0] == route[0]);
    } else {
        assert(s.last() == route.last());
        assert(s[0] == route[0]);
    }
}

/// The best found so far is a gaining valid tour reversal, or nothing with `0`.
pub open spec fn best_cycle_reversal_ok(n: int, route: Seq<usize>, w: Seq<i64>, best: Option<TwoOptMove>, best_delta: int) -> bool {
    match best {
        Some(mv) => valid_cycle_reversal(n, route, mv.l as int, mv.r as int) && mv.delta == best_delta
            && best_delta == seg_delta(route, w, mv.l as int, mv.r as int) && best_delta > 0,
        None => best_delta == 0,
    }
}

/// The best reversal of the closed tour among those that keep it closed
/// (see `valid_cycle_reversal`), scored by the raw score of the tour read
/// from position 0. `None` when no such reversal gains anything.
pub fn best_cycle_two_opt_move(
    route: &[usize],
    position: &[usize],
    neighbors: &Vec<Vec<usize>>,
    prefix_weight: &[i64],
    prefix_pos_weight: &[i64],
    n: usize,
) -> (best: Option<TwoOptMove>)
    requires
        0 < n,
        1 <= route@.len() <= MAX_CELLS,
        is_permutation_route(n as int, route@),
        neighbors@.len() == n * n,
        forall|c: int| 0 <= c < n * n ==> lists_neighbors(n as int, c, #[trigger] neighbors@[c]@),
        position@.len() == n * n,
        prefix_weight@.len() == route@.len() + 1,
        prefix_pos_weight@.len() == route@.len() + 1,
        exists|w: Seq<i64>| aux_of(route@, w, position@, prefix_weight@, prefix_pos_weight@),
        weight_sums_bounded(prefix_weight@),
        score_sums_bounded(prefix_pos_weight@),
    ensures
        forall|w: Seq<i64>| #[trigger] aux_of(route@, w, position@, prefix_weight@, prefix_pos_weight@) ==> match best {
            Some(mv) => {
                &&& valid_cycle_reversal(n as int, route@, mv.l as int, mv.r as int)
                &&& mv.delta == seg_delta(route@, w, mv.l as int, mv.r as int)
                &&& mv.delta > 0
                &&& dominates_cycle_reversals(n as int, route@, w, mv.delta as int)
            },
            None => dominates_cycle_reversals(n as int, route@, w, 0),
        },
{
    let ghost w = choose|w: Seq<i64>| aux_of(route@, w, position@, prefix_weight@, prefix_pos_weight@);
    let ghost rt = route@;
    proof {
        lemma_search_ctx(n as int, rt, w, position@, prefix_weight@, prefix_pos_weight@);
    }
    let len = route.len();
    let mut best: Option<TwoOptMove> = None;
    let mut best_delta: i64 = 0;
    let mut l: usize = 0;
    while l < len
        invariant
            search_ctx(n as int, rt, w, position@, prefix_weight@, prefix_pos_weight@),
            rt == route@,
            len == rt.len(),
            l <= len,
            neighbors@.len() == n * n,
            forall|c: int| 0 <= c < n * n ==> lists_neighbors(n as int, c, #[trigger] neighbors@[c]@),
            best_delta >= 0,
            best_cycle_reversal_ok(n as int, rt, w, best, best_delta as int),
            forall|a: int, b: int| 0 <= a < l && #[trigger] valid_cycle_reversal(n as int, rt, a, b) ==> seg_delta(rt, w, a, b) <= best_delta,
        decreases len - l,
    {
        let prev_idx = if l == 0 { len - 1 } else { l - 1 };
        let prev = route[prev_idx];
        let first_in = route[l];
        proof {
            assert(rt[prev_idx as int] < n * n);
        }
        let nb = &neighbors[prev];
        let mut k: usize = 0;
        while k < nb.len()
            invariant
                search_ctx(n as int, rt, w, position@, prefix_weight@, prefix_pos_weight@),
                rt == route@,
                len == rt.len(),
                l < len,
                prev_idx == cycle_prev(len as int, l as int),
                prev == rt[prev_idx as int],
                first_in == rt[l as int],
                nb == neighbors@[prev as int],
                neighbors@.len() == n * n,
                forall|c: int| 0 <= c < n * n ==> lists_neighbors(n as int, c, #[trigger] neighbors@[c]@),
                k <= nb@.len(),
                best_delta >= 0,
                best_cycle_reversal_ok(n as int, rt, w, best, best_delta as int),
                forall|a: int, b: int| 0 <= a < l && #[trigger] valid_cycle_reversal(n as int, rt, a, b) ==> seg_delta(rt, w, a, b) <= best_delta,
                forall|j: int| 0 <= j < k ==> {
                    let r = #[trigger] position@[nb@[j] as int];
                    valid_cycle_reversal(n as int, rt, l as int, r as int) ==> seg_delta(rt, w, l as int, r as int) <= best_delta
                },
            decreases nb@.len() - k,
        {
            let cell = nb[k];
            proof {
                assert(lists_neighbors(n as int, prev as int, neighbors@[prev as int]@));
                assert(nb@.contains(cell));
                lemma_position_inverse(n as int, rt, w, position@, prefix_weight@, prefix_pos_weight@, cell as int);
            }
            let r = position[cell];
            if r > l {
                let next_idx = if r + 1 == len { 0 } else { r + 1 };
                if next_idx != l {
                    if is_adj(first_in, route[next_idx], n) {
                        let delta = reversal_delta(l, r, prefix_weight, prefix_pos_weight);
                        proof {
                            lemma_delta_matches(rt, w, position@, prefix_weight@, prefix_pos_weight@, l as int, r as int);
                        }
                        if delta > best_delta {
                            best_delta = delta;
                            best = Some(TwoOptMove { l, r, delta });
                        }
                    }
                }
            }
            k += 1;
        }
        proof {
            assert forall|a: int, b: int| 0 <= a < l + 1 && #[trigger] valid_cycle_reversal(n as int, rt, a, b) implies seg_delta(rt, w, a, b) <= best_delta by {
                if a == l {
                    let c = rt[b];
                    assert(lists_neighbors(n as int, prev as int, neighbors@[prev as int]@));
                    assert(nb@.contains(c));
                    let j = choose|j: int| 0 <= j < nb@.len() && nb@[j] == c;
                    assert(position@[nb@[j] as int] == b);
                }
            }
        }
        l += 1;
    }
    proof {
        assert forall|w2: Seq<i64>| #[trigger] aux_of(route@, w2, position@, prefix_weight@, prefix_pos_weight@) implies (forall|a: int, b: int| 0 <= a <= b < rt.len() ==> #[trigger] seg_delta(rt, w2, a, b) == seg_delta(rt, w, a, b)) by {
            assert forall|a: int, b: int| 0 <= a <= b < rt.len() implies #[trigger] seg_delta(rt, w2, a, b) == seg_delta(rt, w, a, b) by {
                assert(prefix_weight@[a] == wsum(rt, w2, a));
                assert(prefix_weight@[b + 1] == wsum(rt, w2, b + 1));
                assert(prefix_pos_weight@[a] == raw_prefix(rt, w2, a));
                assert(prefix_pos_weight@[b + 1] == raw_prefix(rt, w2, b + 1));
            }
        }
    }
    best
}

} // verus!
