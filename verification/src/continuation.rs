//! Penalty continuation: rounds of breakpoint moves and window repairs
//! under a rising price per break, a forced legalization at a very high
//! price, and a descent that keeps the route legal.
use vstd::prelude::*;
use std::time::{Duration, Instant};
use crate::clock::{before_deadline, check_deadline, TimeUp};
use crate::grid::{valid_side, is_route, is_permutation_route, is_king_walk, adjacent, cells_in, weights_bounded, lists_neighbors,
    MAX_CELLS, MAX_WEIGHT, raw_score};
use crate::moves::{rebuild_aux, lemma_aux_bounded, lemma_search_ctx, aux_of, reverse_range, lemma_reversal_score,
    lemma_reversal_keeps_route, best_two_opt_move};
use crate::penalty::{penalized, lemma_move_objective_law, collect_violations, sample_breakpoints, find_best_breakpoint_move, apply_candidate_move, break_list_ok,
    best_valid, breakpoint_candidate, candidate_at, move_shape, moved, eval_ok, lemma_moved_keeps_permutation,
    CandidateMove, MoveEval};
use crate::penalty_window::{lemma_repair_objective_law, apply_best_penalty_window_repair, repaired, repair_ok, lemma_repair_keeps_permutation,
    WindowRepair};
use crate::relocate::{best_relocation_move, apply_relocation, lemma_relocation_keeps_route, reloc_src,
    relocation_optimal, lemma_relocation_optimal};
use crate::descent::{refine_around, search_input, lemma_raw_score_bound, two_opt_optimal, lemma_two_opt_optimal};
use crate::interleave::striped_spec;
use crate::solvers::backwards;

verus! {

/// What the penalty rounds work on: a visit of every cell exactly once
/// (breaks allowed), bounded weights for every cell, and the king
/// neighbours of every cell.
pub open spec fn penalty_ctx(n: int, route: Seq<usize>, w: Seq<i64>, neighbors: Seq<Vec<usize>>) -> bool {
    &&& 0 < n
    &&& n * n <= MAX_CELLS
    &&& is_permutation_route(n, route)
    &&& w.len() == n * n
    &&& weights_bounded(w)
    &&& neighbors.len() == n * n
    &&& forall|c: int| 0 <= c < n * n ==> lists_neighbors(n, c, #[trigger] neighbors[c]@)
}

/// How a penalty round ended.
#[derive(Debug, Clone, Copy, PartialEq, Eq, Structural)]
pub enum PenaltyStep {
    /// The route has no break left; it is unchanged.
    Solved,
    /// A move or a window repair was applied.
    Improved,
    /// Nothing gaining was found; the route is unchanged.
    Stuck,
}

/// A strictly increasing list of values below `bound` has at most `bound`
/// entries.
proof fn lemma_increasing_len(list: Seq<usize>, bound: int)
    requires
        forall|a: int, b: int| 0 <= a < b < list.len() ==> list[a] < list[b],
        forall|j: int| 0 <= j < list.len() ==> #[trigger] list[j] < bound,
        0 <= bound,
    ensures
        list.len() <= bound,
{
    if list.len() > 0 {
        assert forall|j: int| 0 <= j < list.len() implies #[trigger] list[j] >= j by {
            lemma_increasing_from(list, j);
        }
        assert(list[list.len() - 1] >= list.len() - 1);
        assert(list[list.len() - 1] < bound);
    }
}

proof fn lemma_increasing_from(list: Seq<usize>, j: int)
    requires
        forall|a: int, b: int| 0 <= a < b < list.len() ==> list[a] < list[b],
        0 <= j < list.len(),
    ensures
        list[j] >= j,
    decreases j,
{
    if j > 0 {
        lemma_increasing_from(list, j - 1);
    }
}

/// A move tried at a sampled break is within the route.
proof fn lemma_candidate_shape(n: int, route: Seq<usize>, lambda: int, sampled: Seq<usize>, mv: CandidateMove)
    requires
        breakpoint_candidate(n, route, lambda, sampled, mv),
    ensures
        move_shape(route.len() as int, mv),
        mv matches CandidateMove::Relocate { l, r, p, reversed } ==> 1 <= l && r + 1 < route.len(),
{
    let j = choose|j: int| 0 <= j < sampled.len() && #[trigger] candidate_at(n, route, lambda, sampled[j] as int, mv);
    assert(candidate_at(n, route, lambda, sampled[j] as int, mv));
}

/// One round of the penalty search at price `lambda`: refreshes the
/// position and prefix tables, lists the breaks (`Solved` when there is
/// none), samples them (all of them when there are at most `take_all_upto`,
/// else `sample_breakpoints` from `cursor`), applies the best gaining
/// breakpoint move, or else the best window repair around the first
/// `scan_limit` sampled breaks (`Improved`), or reports `Stuck`. The route
/// keeps visiting every cell exactly once.
pub fn penalty_round(
    route: &mut Vec<usize>,
    weights: &[i64],
    neighbors: &Vec<Vec<usize>>,
    n: usize,
    lambda: i64,
    cursor: &mut usize,
    position: &mut Vec<usize>,
    prefix_weight: &mut Vec<i64>,
    prefix_pos_weight: &mut Vec<i64>,
    violations: &mut Vec<usize>,
    take_all_upto: usize,
    scan_limit: usize,
) -> (step: PenaltyStep)
    requires
        penalty_ctx(n as int, old(route)@, weights@, neighbors@),
        0 < lambda <= 20_000_000_000,
        old(position)@.len() == n * n,
        old(prefix_weight)@.len() == n * n + 1,
        old(prefix_pos_weight)@.len() == n * n + 1,
    ensures
        penalty_ctx(n as int, final(route)@, weights@, neighbors@),
        final(position)@.len() == n * n,
        final(prefix_weight)@.len() == n * n + 1,
        final(prefix_pos_weight)@.len() == n * n + 1,
        step == PenaltyStep::Solved <==> is_king_walk(n as int, old(route)@),
        step == PenaltyStep::Solved ==> final(route)@ == old(route)@ && is_route(n as int, final(route)@),
        step == PenaltyStep::Stuck ==> final(route)@ == old(route)@,
        step == PenaltyStep::Improved ==> penalized(n as int, final(route)@, weights@, lambda as int)
            > penalized(n as int, old(route)@, weights@, lambda as int),
        step == PenaltyStep::Improved ==> (exists|e: MoveEval| #[trigger] eval_ok(n as int, old(route)@, weights@, lambda as int, e)
                && e.delta_obj > 0 && final(route)@ == moved(old(route)@, e.mv))
            || (exists|rep: WindowRepair| #[trigger] repair_ok(n as int, old(route)@, weights@, lambda as int,
                rep.start as int, rep.len as int, rep) && final(route)@ == repaired(old(route)@, rep)),
{
    let ghost r0 = route@;
    let ghost w = weights@;
    let ghost nn = n as int;
    proof {
        assert(r0.len() >= 1) by (nonlinear_arith) requires r0.len() == n * n, n > 0;
        assert(cells_in(r0, w.len() as int));
    }
    rebuild_aux(route.as_slice(), weights, position, prefix_weight, prefix_pos_weight);
    proof {
        lemma_aux_bounded(r0, w, position@, prefix_weight@, prefix_pos_weight@);
        lemma_search_ctx(nn, r0, w, position@, prefix_weight@, prefix_pos_weight@);
    }
    collect_violations(route.as_slice(), n, violations);
    if violations.len() == 0 {
        proof {
            assert forall|i: int| 0 <= i < r0.len() - 1 implies #[trigger] adjacent(nn, r0[i] as int, r0[i + 1] as int) by {
                if !adjacent(nn, r0[i] as int, r0[i + 1] as int) {
                    assert(violations@.contains(i as usize));
                }
            }
        }
        return PenaltyStep::Solved;
    }
    proof {
        let k = violations@[0];
        assert(!adjacent(nn, r0[k as int] as int, r0[k + 1] as int));
        assert(!is_king_walk(nn, r0));
        assert forall|j: int| 0 <= j < violations@.len() implies #[trigger] violations@[j] < r0.len() by {}
        lemma_increasing_len(violations@, r0.len() as int);
    }
    let sampled: Vec<usize> = if violations.len() <= take_all_upto {
        let mut copy: Vec<usize> = Vec::new();
        let mut i: usize = 0;
        while i < violations.len()
            invariant
                i <= violations@.len(),
                copy@ == violations@.subrange(0, i as int),
            decreases violations@.len() - i,
        {
            copy.push(violations[i]);
            proof {
                assert(violations@.subrange(0, i + 1) =~= violations@.subrange(0, i as int).push(violations@[i as int]));
            }
            i += 1;
        }
        proof {
            assert(copy@ =~= violations@);
        }
        copy
    } else {
        sample_breakpoints(violations, cursor, lambda)
    };
    proof {
        assert forall|j: int| 0 <= j < sampled@.len() implies #[trigger] sampled@[j] < r0.len() by {
            let count = violations@.len() as int;
            if violations@.len() > take_all_upto {
                let size = if count < crate::penalty::sample_cap(lambda as int) { count } else { crate::penalty::sample_cap(lambda as int) };
                let step = if count / size >= 1 { count / size } else { 1 };
                let idx0 = *old(cursor) as int % count;
                let q = (idx0 + j * step) % count;
                assert(sampled@[j] == violations@[q]);
                assert(violations@[q] + 1 < r0.len());
            } else {
                assert(sampled@[j] == violations@[j]);
            }
        }
    }
    let best = find_best_breakpoint_move(route.as_slice(), weights, neighbors, position.as_slice(), prefix_weight.as_slice(),
        prefix_pos_weight.as_slice(), n, &sampled, lambda);
    match best {
        Some(e) => {
            proof {
                lemma_candidate_shape(nn, r0, lambda as int, sampled@, e.mv);
                lemma_moved_keeps_permutation(nn, r0, e.mv);
            }
            apply_candidate_move(route, e.mv);
            proof {
                assert(eval_ok(nn, r0, w, lambda as int, e));
                lemma_move_objective_law(nn, r0, w, lambda as int, e.mv);
            }
            return PenaltyStep::Improved;
        },
        None => {},
    }
    let applied = apply_best_penalty_window_repair(route, weights, n, lambda, &sampled, scan_limit);
    if applied {
        proof {
            let rep = choose|rep: WindowRepair| #[trigger] repair_ok(nn, r0, w, lambda as int, rep.start as int, rep.len as int, rep)
                && (rep.len == 8 || rep.len == 9) && rep.start + rep.len <= r0.len() && route@ == repaired(r0, rep);
            lemma_repair_keeps_permutation(nn, r0, w, lambda as int, rep);
            lemma_repair_objective_law(nn, r0, w, lambda as int, rep);
        }
        PenaltyStep::Improved
    } else {
        PenaltyStep::Stuck
    }
}

/// The prices of the continuation stages, one per stage.
pub const PENALTY_LAMBDAS: [i64; 9] = [
    50_000, 200_000, 1_000_000, 5_000_000, 20_000_000, 80_000_000, 300_000_000, 1_000_000_000, 3_000_000_000,
];

/// `trace` is a run of improving penalty rounds: round `i` takes
/// `trace[i]` to `trace[i + 1]` and raises the penalized objective at the
/// price `lams[i]` of its stage; the prices are those of the stages, in
/// stage order.
pub open spec fn improving_trace(n: int, w: Seq<i64>, trace: Seq<Seq<usize>>, lams: Seq<int>) -> bool {
    &&& trace.len() == lams.len() + 1
    &&& forall|i: int| 0 <= i < lams.len() ==> penalized(n, #[trigger] trace[i + 1], w, lams[i]) > penalized(n, trace[i], w, lams[i])
    &&& forall|i: int| 0 <= i < lams.len() ==> exists|s: int| 0 <= s < 9 && #[trigger] lams[i] == PENALTY_LAMBDAS[s]
    &&& forall|i: int, j: int| 0 <= i < j < lams.len() ==> #[trigger] lams[i] <= #[trigger] lams[j]
}

/// Runs penalty rounds (all breaks sampled only through
/// `sample_breakpoints`, window repairs around the first 24 samples) stage
/// by stage at the prices of `PENALTY_LAMBDAS`: each stage runs while less
/// than its deadline in `stage_deadlines` and less than `time_limit` has
/// passed since `start`, and ends early when a round is stuck; the whole
/// search stops as soon as a round finds no break. The route keeps visiting
/// every cell exactly once. (The round count of a stage is bounded by
/// `u64::MAX`, which only serves the termination proof.)
pub fn run_penalty_continuation(
    route: &mut Vec<usize>,
    weights: &[i64],
    neighbors: &Vec<Vec<usize>>,
    n: usize,
    start: &Instant,
    time_limit: Duration,
    stage_deadlines: &[Duration; 9],
)
    requires
        penalty_ctx(n as int, old(route)@, weights@, neighbors@),
    ensures
        penalty_ctx(n as int, final(route)@, weights@, neighbors@),
        exists|trace: Seq<Seq<usize>>, lams: Seq<int>| #[trigger] improving_trace(n as int, weights@, trace, lams)
            && trace[0] == old(route)@ && trace.last() == final(route)@,
{
    let lambdas = PENALTY_LAMBDAS;
    let ghost mut trace: Seq<Seq<usize>> = seq![route@];
    let ghost mut lams: Seq<int> = Seq::empty();
    let len = route.len();
    let mut position: Vec<usize> = vec![0usize; len];
    let mut prefix_weight: Vec<i64> = vec![0i64; len + 1];
    let mut prefix_pos_weight: Vec<i64> = vec![0i64; len + 1];
    let mut violations: Vec<usize> = Vec::new();
    let mut cursor: usize = 0;
    let mut stage: usize = 0;
    while stage < 9
        invariant
            penalty_ctx(n as int, route@, weights@, neighbors@),
            len == route@.len(),
            lambdas == PENALTY_LAMBDAS,
            position@.len() == n * n,
            prefix_weight@.len() == n * n + 1,
            prefix_pos_weight@.len() == n * n + 1,
            stage <= 9,
            improving_trace(n as int, weights@, trace, lams),
            trace[0] == old(route)@,
            trace.last() == route@,
            forall|i: int| 0 <= i < lams.len() ==> #[trigger] lams[i] <= (if stage < 9 { PENALTY_LAMBDAS[stage as int] as int } else { 3_000_000_000int }),
        decreases 9 - stage,
    {
        let lambda = lambdas[stage];
        let deadline = stage_deadlines[stage];
        let mut rounds: u64 = 0;
        while rounds < u64::MAX && before_deadline(start, &deadline) && before_deadline(start, &time_limit)
            invariant
                penalty_ctx(n as int, route@, weights@, neighbors@),
                0 < lambda <= 20_000_000_000,
                position@.len() == n * n,
                prefix_weight@.len() == n * n + 1,
                prefix_pos_weight@.len() == n * n + 1,
                stage < 9,
                lambda == PENALTY_LAMBDAS[stage as int],
                improving_trace(n as int, weights@, trace, lams),
                trace[0] == old(route)@,
                trace.last() == route@,
                forall|i: int| 0 <= i < lams.len() ==> #[trigger] lams[i] <= lambda,
            decreases u64::MAX - rounds,
        {
            rounds += 1;
            let ghost before = route@;
            let step = penalty_round(route, weights, neighbors, n, lambda, &mut cursor, &mut position, &mut prefix_weight,
                &mut prefix_pos_weight, &mut violations, 0, 24);
            proof {
                if step == PenaltyStep::Improved {
                    let t0 = trace;
                    let l0 = lams;
                    trace = trace.push(route@);
                    lams = lams.push(lambda as int);
                    assert forall|i: int| 0 <= i < lams.len() implies penalized(n as int, #[trigger] trace[i + 1], weights@, lams[i])
                        > penalized(n as int, trace[i], weights@, lams[i]) by {
                        if i < l0.len() {
                            assert(trace[i + 1] == t0[i + 1] && trace[i] == t0[i] && lams[i] == l0[i]);
                        }
                    }
                    assert forall|i: int| 0 <= i < lams.len() implies exists|s: int| 0 <= s < 9 && #[trigger] lams[i] == PENALTY_LAMBDAS[s] by {
                        if i < l0.len() {
                            assert(lams[i] == l0[i]);
                        } else {
                            assert(lams[i] == PENALTY_LAMBDAS[stage as int]);
                        }
                    }
                    assert forall|i: int, j: int| 0 <= i < j < lams.len() implies #[trigger] lams[i] <= #[trigger] lams[j] by {
                        if j < l0.len() {
                            assert(lams[i] == l0[i] && lams[j] == l0[j]);
                        } else {
                            assert(lams[i] == l0[i]);
                            assert(l0[i] <= lambda);
                        }
                    }
                    assert forall|i: int| 0 <= i < lams.len() implies #[trigger] lams[i] <= lambda by {
                        if i < l0.len() {
                            assert(lams[i] == l0[i]);
                        }
                    }
                }
            }
            match step {
                PenaltyStep::Solved => {
                    return;
                },
                PenaltyStep::Improved => {},
                PenaltyStep::Stuck => {
                    break;
                },
            }
        }
        stage += 1;
    }
}

/// Price of a break while forcing a legal route.
pub const FORCE_LAMBDA: i64 = 20_000_000_000;

/// Runs penalty rounds at `FORCE_LAMBDA` (all breaks taken when there are
/// at most 2048, window repairs around the first 320 samples) while less
/// than `deadline` has passed since `start`, until a round finds no break
/// or is stuck. The route keeps visiting every cell exactly once. (The
/// round count is bounded by `u64::MAX`, which only serves the termination
/// proof.)
pub fn run_force_legalization(
    route: &mut Vec<usize>,
    weights: &[i64],
    neighbors: &Vec<Vec<usize>>,
    n: usize,
    start: &Instant,
    deadline: Duration,
)
    requires
        penalty_ctx(n as int, old(route)@, weights@, neighbors@),
    ensures
        penalty_ctx(n as int, final(route)@, weights@, neighbors@),
        penalized(n as int, final(route)@, weights@, FORCE_LAMBDA as int)
            >= penalized(n as int, old(route)@, weights@, FORCE_LAMBDA as int),
{
    let len = route.len();
    let mut position: Vec<usize> = vec![0usize; len];
    let mut prefix_weight: Vec<i64> = vec![0i64; len + 1];
    let mut prefix_pos_weight: Vec<i64> = vec![0i64; len + 1];
    let mut violations: Vec<usize> = Vec::new();
    let mut cursor: usize = 0;
    let mut rounds: u64 = 0;
    while rounds < u64::MAX && before_deadline(start, &deadline)
        invariant
            penalty_ctx(n as int, route@, weights@, neighbors@),
            position@.len() == n * n,
            prefix_weight@.len() == n * n + 1,
            prefix_pos_weight@.len() == n * n + 1,
            penalized(n as int, route@, weights@, FORCE_LAMBDA as int)
                >= penalized(n as int, old(route)@, weights@, FORCE_LAMBDA as int),
        decreases u64::MAX - rounds,
    {
        rounds += 1;
        let step = penalty_round(route, weights, neighbors, n, FORCE_LAMBDA, &mut cursor, &mut position, &mut prefix_weight,
            &mut prefix_pos_weight, &mut violations, 2048, 320);
        match step {
            PenaltyStep::Improved => {},
            _ => {
                break;
            },
        }
    }
}

/// Repeatedly takes the better of the best gaining legal relocation and the
/// best gaining legal 2-opt reversal (the relocation on ties), applies it
/// and re-optimizes the windows around its ends, until neither gains or
/// the deadline passes. The route stays a route and its score never drops.
/// `None` when it stopped because neither gains: then no valid reversal
/// and no valid relocation raises the score of the result. Otherwise the
/// evidence that `deadline` had passed since `start`.
pub fn run_legal_mixed_descent(
    route: &mut Vec<usize>,
    weights: &[i64],
    neighbors: &Vec<Vec<usize>>,
    n: usize,
    start: &Instant,
    deadline: Duration,
) -> (stop: Option<TimeUp>)
    requires
        search_input(n as int, old(route)@, weights@),
        neighbors@.len() == n * n,
        forall|c: int| 0 <= c < n * n ==> lists_neighbors(n as int, c, #[trigger] neighbors@[c]@),
    ensures
        search_input(n as int, final(route)@, weights@),
        raw_score(final(route)@, weights@) >= raw_score(old(route)@, weights@),
        stop is None ==> two_opt_optimal(n as int, final(route)@, weights@)
            && relocation_optimal(n as int, final(route)@, weights@),
        stop matches Some(t) ==> t.started() == *start && t.limit() == deadline,
{
    let ghost w = weights@;
    let ghost nn = n as int;
    let ghost bound = MAX_CELLS * (MAX_CELLS * MAX_WEIGHT);
    let len = route.len();
    let mut position: Vec<usize> = vec![0usize; len];
    let mut prefix_weight: Vec<i64> = vec![0i64; len + 1];
    let mut prefix_pos_weight: Vec<i64> = vec![0i64; len + 1];
    proof {
        lemma_raw_score_bound(route@, w);
    }
    let mut score: i64 = crate::grid::compute_raw_score(route.as_slice(), weights);
    loop
        invariant
            search_input(nn, route@, w),
            nn == n,
            w == weights@,
            len == route@.len(),
            len == n * n,
            neighbors@.len() == n * n,
            forall|c: int| 0 <= c < n * n ==> lists_neighbors(nn, c, #[trigger] neighbors@[c]@),
            score == raw_score(route@, w),
            raw_score(route@, w) >= raw_score(old(route)@, w),
            position@.len() == len,
            prefix_weight@.len() == len + 1,
            prefix_pos_weight@.len() == len + 1,
            bound == MAX_CELLS * (MAX_CELLS * MAX_WEIGHT),
            -bound <= raw_score(route@, w) <= bound,
        decreases bound - raw_score(route@, w),
    {
        if let Some(t) = check_deadline(start, &deadline) {
            return Some(t);
        }
        proof {
            assert(len >= 1) by (nonlinear_arith) requires len == n * n, n > 0;
        }
        rebuild_aux(route.as_slice(), weights, &mut position, &mut prefix_weight, &mut prefix_pos_weight);
        proof {
            lemma_aux_bounded(route@, w, position@, prefix_weight@, prefix_pos_weight@);
            assert(aux_of(route@, w, position@, prefix_weight@, prefix_pos_weight@));
        }
        let best_reloc = best_relocation_move(route.as_slice(), weights, neighbors, position.as_slice(), prefix_weight.as_slice(), n);
        let best_two_opt = best_two_opt_move(route.as_slice(), position.as_slice(), neighbors, prefix_weight.as_slice(),
            prefix_pos_weight.as_slice(), n);
        let reloc_delta = match best_reloc {
            Some(mv) => mv.delta,
            None => 0,
        };
        let two_opt_delta = match best_two_opt {
            Some(mv) => mv.delta,
            None => 0,
        };
        if reloc_delta <= 0 && two_opt_delta <= 0 {
            proof {
                lemma_two_opt_optimal(nn, route@, w);
                lemma_relocation_optimal(nn, route@, w);
            }
            return None;
        }
        let ghost before = route@;
        if reloc_delta >= two_opt_delta {
            let mv = match best_reloc {
                Some(mv) => mv,
                None => return None,
            };
            let insert_start = if mv.p < mv.l { mv.p + 1 } else { mv.p + 1 - (mv.r - mv.l + 1) };
            apply_relocation(route, mv);
            proof {
                lemma_relocation_keeps_route(nn, before, mv.l as int, mv.r as int, mv.p as int, mv.reversed);
                lemma_raw_score_bound(route@, w);
            }
            score = score + mv.delta;
            let anchors = [mv.l, insert_start];
            refine_around(route, weights, n, &mut score, &anchors);
        } else {
            let mv = match best_two_opt {
                Some(mv) => mv,
                None => return None,
            };
            reverse_range(route, mv.l, mv.r);
            proof {
                lemma_reversal_score(before, w, mv.l as int, mv.r as int);
                lemma_reversal_keeps_route(nn, before, mv.l as int, mv.r as int);
                lemma_raw_score_bound(route@, w);
            }
            score = score + mv.delta;
            let anchors = [mv.l, mv.r];
            refine_around(route, weights, n, &mut score, &anchors);
        }
        proof {
            lemma_raw_score_bound(route@, w);
        }
    }
}

/// `legal` is where the penalty search left a route: the end `trace.last()`
/// of a run of improving rounds from a route over every cell, or a route
/// forced from there without losing penalized value at `FORCE_LAMBDA`.
pub open spec fn penalty_outcome(n: int, w: Seq<i64>, trace: Seq<Seq<usize>>, lams: Seq<int>, legal: Seq<usize>) -> bool {
    &&& improving_trace(n, w, trace, lams)
    &&& is_permutation_route(n, trace[0])
    &&& (legal == trace.last()
        || penalized(n, legal, w, FORCE_LAMBDA as int) >= penalized(n, trace.last(), w, FORCE_LAMBDA as int))
}

/// The legal route the penalty pipeline's final descents start from: a
/// route the penalty search reached (`penalty_outcome`), or, when that is
/// not a route, the best of the three striped snakes.
pub open spec fn penalty_start(n: int, w: Seq<i64>, legal: Seq<usize>) -> bool {
    &&& is_route(n, legal)
    &&& (exists|trace: Seq<Seq<usize>>, lams: Seq<int>| #[trigger] penalty_outcome(n, w, trace, lams, legal))
        || (raw_score(legal, w) >= raw_score(striped_spec(n, true), w)
            && raw_score(legal, w) >= raw_score(backwards(striped_spec(n, false)), w)
            && raw_score(legal, w) >= raw_score(backwards(striped_spec(n, true)), w)
            && (legal == striped_spec(n, true) || legal == backwards(striped_spec(n, false))
                || legal == backwards(striped_spec(n, true))))
}

/// The penalty pipeline: the round-interleaved route of the best flip,
/// penalty continuation (stage deadlines `stage_deadlines`, all before
/// `penalty_limit`); when breaks remain, forced legalization until
/// `force_limit`; when breaks still remain, the best legal striped route;
/// then mixed legal descent until `mixed_limit` and window sweeps until
/// `time_limit`; the best legal striped route should the result not be a
/// route. The result is a route.
pub fn solve_penalty(
    n: usize,
    a: &Vec<Vec<i64>>,
    start: &Instant,
    stage_deadlines: &[Duration; 9],
    penalty_limit: Duration,
    force_limit: Duration,
    mixed_limit: Duration,
    time_limit: Duration,
) -> (route: Vec<usize>)
    requires
        valid_side(n as int),
        n % 5 == 0,
        a@.len() == n,
        forall|i: int| 0 <= i < n ==> #[trigger] a@[i]@.len() == n,
        forall|i: int, j: int| 0 <= i < n && 0 <= j < n ==> -1_000_000 <= #[trigger] a@[i]@[j] <= 1_000_000,
    ensures
        is_route(n as int, route@),
        exists|legal: Seq<usize>| #[trigger] penalty_start(n as int, crate::grid::flat_of(n as int, a@), legal)
            && raw_score(route@, crate::grid::flat_of(n as int, a@)) >= raw_score(legal, crate::grid::flat_of(n as int, a@)),
{
    let weights = crate::grid::flatten_weights(n, a);
    proof {
        crate::solvers::lemma_flat_bounded(n as int, a@, weights@);
    }
    let neighbors = crate::grid::build_neighbors(n);
    let mut route = crate::interleave::ideal_order_route(n, weights.as_slice());
    let ghost p0 = route@;
    run_penalty_continuation(&mut route, weights.as_slice(), &neighbors, n, start, penalty_limit, stage_deadlines);
    let ghost (trace, lams) = choose|trace: Seq<Seq<usize>>, lams: Seq<int>| #[trigger] improving_trace(n as int, weights@, trace, lams)
        && trace[0] == p0 && trace.last() == route@;
    let ghost mid = route@;
    if !crate::grid::is_valid_route(route.as_slice(), n) {
        run_force_legalization(&mut route, weights.as_slice(), &neighbors, n, start, force_limit);
    }
    proof {
        assert(penalty_outcome(n as int, weights@, trace, lams, route@));
    }
    if !crate::grid::is_valid_route(route.as_slice(), n) {
        route = crate::interleave::best_legal_strip_route(n, weights.as_slice());
    }
    let ghost legal = route@;
    proof {
        assert(penalty_start(n as int, weights@, legal));
    }
    run_legal_mixed_descent(&mut route, weights.as_slice(), &neighbors, n, start, mixed_limit);
    proof {
        lemma_raw_score_bound(route@, weights@);
    }
    let mut score = crate::grid::compute_raw_score(route.as_slice(), weights.as_slice());
    crate::descent::run_window_descent(&mut route, weights.as_slice(), n, &mut score, start, time_limit, 1);
    if !crate::grid::is_valid_route(route.as_slice(), n) {
        route = crate::interleave::best_legal_strip_route(n, weights.as_slice());
    }
    route
}

} // verus!
