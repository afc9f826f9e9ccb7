//! Whole solving pipelines: an initial route, then time-limited improvement.
use vstd::prelude::*;
use std::time::{Duration, Instant};
use crate::grid::{is_route, raw_score, valid_side, weights_bounded, lists_neighbors, MAX_CELLS,
    flatten_weights, build_neighbors, row_snake, col_snake, compute_raw_score, row_snake_spec,
    transpose_spec};
use crate::moves::{reverse_range, reversed_range, valid_reversal, lemma_reversal_keeps_route};
use crate::descent::{search_input, run_two_opt_descent, run_window_descent, run_inner_window_descent,
    refine_inner_around, lemma_raw_score_bound, every_window_optimal};
use crate::clock::{before_deadline, check_deadline, RoundBudget, SearchStop, TimeUp};
use crate::cycle::{lemma_same_ends_cycle, is_cycle, relinearize_best_cut, best_initial_cycle, build_rank_by_cell, lemma_recut_cycle, MAX_LAMBDA};
use crate::cycle_moves::{best_cycle_two_opt_move, lemma_cycle_reversal, cycle_reversal_optimal,
    lemma_cycle_reversal_optimal};
use crate::relocate::{best_relocation_move, apply_relocation, relocated, reloc_src, lemma_relocation_keeps_route,
    lemma_reloc_gain, reloc_ctx, relocation_optimal, lemma_relocation_optimal};
use crate::moves::{rebuild_aux, lemma_aux_bounded, aux_of, lemma_reversal_score};
use crate::cycle_window::{refine_cycle_around, run_cycle_window_descent};
use crate::guided::{run_guided_pass, run_targeted_path_lns, guided_ctx};
use crate::symmetry::{symmetries, apply_symmetry_to_route, route_image, Symmetry};
use crate::cycle::{check_cycle, row_cycle, build_rank_to_cell, row_cycle_spec, lemma_row_cycle, recut_of, best_recut,
    rotation, flipped};
use crate::grid::transpose_route;
use crate::grid::{compute_raw_score_reversed, cells_in, MAX_WEIGHT};
use crate::symmetry::{transform_weights, transform_cell_spec, lemma_transform_cell, lemma_score_under_symmetry};
use crate::band::{build_banded_route, generate_local_paths, paths_ok, pairs_available, band_piece_best, complete_paths};
use crate::strips::{build_route, build_strip_sequence, find_feasible_strip_sequence, generate_permutations, build_transitions};

verus! {

/// `route` walked backwards.
pub open spec fn backwards(route: Seq<usize>) -> Seq<usize> {
    reversed_range(route, 0, route.len() - 1)
}

/// A route walked backwards is a route.
pub proof fn lemma_backwards_route(n: int, route: Seq<usize>)
    requires
        is_route(n, route),
        route.len() >= 1,
    ensures
        is_route(n, backwards(route)),
{
    if route.len() == 1 {
        assert(backwards(route) =~= route);
    } else {
        lemma_reversal_keeps_route(n, route, 0, route.len() - 1);
    }
}

/// The copy of `route` walked backwards.
pub(crate) fn backwards_copy(route: &Vec<usize>) -> (res: Vec<usize>)
    requires
        route@.len() >= 1,
    ensures
        res@ == backwards(route@),
{
    let mut res = route.clone();
    proof {
        assert(res@ =~= route@);
    }
    let len = res.len();
    reverse_range(&mut res, 0, len - 1);
    res
}

/// Of the row snake, the column snake and both walked backwards, the one
/// with the highest raw score (the first in that order on ties).
pub fn best_initial_route(n: usize, weights: &[i64]) -> (route: Vec<usize>)
    requires
        valid_side(n as int),
        weights@.len() == n * n,
        weights_bounded(weights@),
    ensures
        is_route(n as int, route@),
        ({
            let row = row_snake_spec(n as int);
            let col = transpose_spec(n as int, row);
            &&& (route@ == row || route@ == backwards(row) || route@ == col || route@ == backwards(col))
            &&& raw_score(route@, weights@) >= raw_score(row, weights@)
            &&& raw_score(route@, weights@) >= raw_score(backwards(row), weights@)
            &&& raw_score(route@, weights@) >= raw_score(col, weights@)
            &&& raw_score(route@, weights@) >= raw_score(backwards(col), weights@)
        }),
{
    let row = row_snake(n);
    let col = col_snake(n);
    proof {
        assert(row@.len() >= 1) by (nonlinear_arith) requires row@.len() == n * n, n >= 1;
        lemma_backwards_route(n as int, row@);
        lemma_backwards_route(n as int, col@);
    }
    let row_rev = backwards_copy(&row);
    let col_rev = backwards_copy(&col);
    let s0 = compute_raw_score(row.as_slice(), weights);
    let s1 = compute_raw_score(row_rev.as_slice(), weights);
    let s2 = compute_raw_score(col.as_slice(), weights);
    let s3 = compute_raw_score(col_rev.as_slice(), weights);
    let mut best_score = s0;
    let mut best_route = row;
    if s1 > best_score {
        best_score = s1;
        best_route = row_rev;
    }
    if s2 > best_score {
        best_score = s2;
        best_route = col;
    }
    if s3 > best_score {
        best_route = col_rev;
    }
    best_route
}

/// Grid weights within `MAX_WEIGHT` give flat weights within `MAX_WEIGHT`.
pub proof fn lemma_flat_bounded(n: int, a: Seq<Vec<i64>>, weights: Seq<i64>)
    requires
        valid_side(n),
        weights.len() == n * n,
        forall|i: int, j: int| 0 <= i < n && 0 <= j < n ==> #[trigger] weights[i * n + j] == a[i]@[j],
        forall|i: int, j: int| 0 <= i < n && 0 <= j < n ==> -1_000_000 <= #[trigger] a[i]@[j] <= 1_000_000,
    ensures
        weights_bounded(weights),
{
    assert forall|k: int| 0 <= k < weights.len() implies -1_000_000 <= #[trigger] weights[k] <= 1_000_000 by {
        crate::grid::lemma_cell_split(n, k);
        let i = k / n;
        let j = k % n;
        crate::grid::lemma_cell_bound(n, i, j);
        assert(weights[i * n + j] == a[i]@[j]);
    }
}

/// The window and 2-opt pipeline: the best snake, window sweeps until
/// `initial_deadline` (at least two rounds), 2-opt descent until
/// `two_opt_deadline`, and window sweeps until `time_limit`. The result is a
/// route scoring at least the best snake; with it comes `None` when the last
/// sweeps ended because a round improved nothing, and then every window of
/// 2 to 9 consecutive cells of the route is in a best order, or else the
/// evidence that `time_limit` had passed since `start`.
pub fn solve_two_opt_window_with_stop(
    n: usize,
    a: &Vec<Vec<i64>>,
    start: &Instant,
    initial_deadline: Duration,
    two_opt_deadline: Duration,
    time_limit: Duration,
) -> (res: (Vec<usize>, Option<TimeUp>))
    requires
        valid_side(n as int),
        a@.len() == n,
        forall|i: int| 0 <= i < n ==> #[trigger] a@[i]@.len() == n,
        forall|i: int, j: int| 0 <= i < n && 0 <= j < n ==> -1_000_000 <= #[trigger] a@[i]@[j] <= 1_000_000,
    ensures
        is_route(n as int, res.0@),
        ({
            let w = crate::grid::flat_of(n as int, a@);
            let row = row_snake_spec(n as int);
            let col = transpose_spec(n as int, row);
            &&& raw_score(res.0@, w) >= raw_score(row, w)
            &&& raw_score(res.0@, w) >= raw_score(backwards(row), w)
            &&& raw_score(res.0@, w) >= raw_score(col, w)
            &&& raw_score(res.0@, w) >= raw_score(backwards(col), w)
            &&& res.1 is None ==> every_window_optimal(n as int, res.0@, w, 9)
        }),
        res.1 matches Some(t) ==> t.started() == *start && t.limit() == time_limit,
{
    let weights = flatten_weights(n, a);
    proof {
        lemma_flat_bounded(n as int, a@, weights@);
    }
    let neighbors = build_neighbors(n);
    let mut route = best_initial_route(n, weights.as_slice());
    let mut score = compute_raw_score(route.as_slice(), weights.as_slice());
    run_window_descent(&mut route, weights.as_slice(), n, &mut score, start, initial_deadline, 2);
    run_two_opt_descent(&mut route, weights.as_slice(), &neighbors, n, &mut score, start, two_opt_deadline);
    let stop = run_window_descent(&mut route, weights.as_slice(), n, &mut score, start, time_limit, 1);
    (route, stop)
}

/// The window and 2-opt pipeline of `solve_two_opt_window_with_stop`,
/// giving the route alone. The result is a route scoring at least the best
/// snake.
pub fn solve_two_opt_window(
    n: usize,
    a: &Vec<Vec<i64>>,
    start: &Instant,
    initial_deadline: Duration,
    two_opt_deadline: Duration,
    time_limit: Duration,
) -> (route: Vec<usize>)
    requires
        valid_side(n as int),
        a@.len() == n,
        forall|i: int| 0 <= i < n ==> #[trigger] a@[i]@.len() == n,
        forall|i: int, j: int| 0 <= i < n && 0 <= j < n ==> -1_000_000 <= #[trigger] a@[i]@[j] <= 1_000_000,
    ensures
        is_route(n as int, route@),
        ({
            let w = crate::grid::flat_of(n as int, a@);
            let row = row_snake_spec(n as int);
            let col = transpose_spec(n as int, row);
            &&& raw_score(route@, w) >= raw_score(row, w)
            &&& raw_score(route@, w) >= raw_score(backwards(row), w)
            &&& raw_score(route@, w) >= raw_score(col, w)
            &&& raw_score(route@, w) >= raw_score(backwards(col), w)
        }),
{
    let (route, _stop) = solve_two_opt_window_with_stop(n, a, start, initial_deadline, two_opt_deadline, time_limit);
    route
}


/// The weights of the board of side `n` seen through symmetry `s`.
pub open spec fn weights_seen(n: int, w: Seq<i64>, s: Symmetry) -> Seq<i64> {
    Seq::new((n * n) as nat, |c: int| w[transform_cell_spec(n, s, c)])
}

/// `route` is a banded route of the weights seen through some symmetry,
/// each band crossed at its best (`band_piece_best`), walked forwards or
/// backwards and mapped back to the board.
pub open spec fn banded_initial(n: int, w: Seq<i64>, lists: Seq<Vec<[u8; 10]>>, route: Seq<usize>) -> bool {
    exists|s: Symmetry, br: Seq<usize>| #[trigger] banded_through(n, w, lists, route, s, br)
}

/// `route` is the banded route `br` of the weights seen through `s`,
/// forwards or backwards, mapped back to the board.
pub open spec fn banded_through(n: int, w: Seq<i64>, lists: Seq<Vec<[u8; 10]>>, route: Seq<usize>, s: Symmetry,
    br: Seq<usize>) -> bool {
    &&& forall|b: int| 0 <= b < n / 5 ==> #[trigger] band_piece_best(n, weights_seen(n, w, s), lists, br, b)
    &&& (route == route_image(n, s, br) || route == route_image(n, s, br.reverse()))
}

/// The initial route of the banded pipeline: for each of the eight
/// symmetries, the banded route of the weights seen through it, walked
/// forwards or backwards, whichever scores higher there (forwards on ties),
/// mapped back to the board; of these the one with the highest raw score
/// (the first on ties). The result is a route.
pub fn build_best_initial_route(n: usize, weights: &[i64], paths_by_pair: &Vec<Vec<[u8; 10]>>) -> (route: Vec<usize>)
    requires
        n % 5 == 0,
        n % 2 == 0,
        5 <= n,
        n * n <= MAX_CELLS,
        weights@.len() == n * n,
        weights_bounded(weights@),
        paths_ok(paths_by_pair@),
        pairs_available(paths_by_pair@),
    ensures
        is_route(n as int, route@),
        banded_initial(n as int, weights@, paths_by_pair@, route@),
{
    let ghost nn = n as int;
    let syms = symmetries();
    let mut best_route: Vec<usize> = Vec::new();
    let mut best_score: i64 = 0;
    let mut found = false;
    let ghost mut built: Seq<Seq<usize>> = Seq::empty();
    let mut si: usize = 0;
    while si < 8
        invariant
            valid_side(nn),
            nn == n,
            n % 5 == 0,
            n % 2 == 0,
            5 <= n,
            weights@.len() == n * n,
            weights_bounded(weights@),
            paths_ok(paths_by_pair@),
            pairs_available(paths_by_pair@),
            syms@.len() == 8,
            si <= 8,
            found ==> is_route(nn, best_route@) && best_score == raw_score(best_route@, weights@),
            found ==> banded_initial(nn, weights@, paths_by_pair@, best_route@),
            si > 0 ==> found,
        decreases 8 - si,
    {
        let symmetry = syms[si];
        let transformed = transform_weights(n, weights, symmetry);
        proof {
            assert forall|c: int| 0 <= c < transformed@.len() implies
                -MAX_WEIGHT <= #[trigger] transformed@[c] <= MAX_WEIGHT by {
                lemma_transform_cell(nn, symmetry, c, c);
            }
        }
        let mut band_route = build_banded_route(n, transformed.as_slice(), paths_by_pair);
        let ghost br = band_route@;
        proof {
            assert(cells_in(band_route@, transformed@.len() as int));
            assert(transformed@ =~= weights_seen(nn, weights@, symmetry));
        }
        let mut band_score = compute_raw_score(band_route.as_slice(), transformed.as_slice());
        let band_rev_score = compute_raw_score_reversed(band_route.as_slice(), transformed.as_slice());
        if band_rev_score > band_score {
            proof {
                assert(band_route@.len() >= 1) by (nonlinear_arith) requires band_route@.len() == n * n, n >= 5;
                lemma_backwards_route(nn, band_route@);
                assert(backwards(band_route@) =~= band_route@.reverse());
            }
            let len = band_route.len();
            reverse_range(&mut band_route, 0, len - 1);
            band_score = band_rev_score;
            proof {
                assert(band_route@ =~= br.reverse());
            }
        }
        proof {
            assert(cells_in(band_route@, transformed@.len() as int));
            lemma_score_under_symmetry(nn, symmetry, band_route@, weights@, transformed@);
        }
        if !found || band_score > best_score {
            best_score = band_score;
            best_route = apply_symmetry_to_route(band_route.as_slice(), n, symmetry);
            found = true;
            proof {
                assert(band_route@ == br || band_route@ == br.reverse());
                assert forall|b: int| 0 <= b < nn / 5 implies #[trigger] band_piece_best(nn, weights_seen(nn, weights@, symmetry),
                    paths_by_pair@, br, b) by {
                    assert(transformed@ == weights_seen(nn, weights@, symmetry));
                }
                assert(banded_through(nn, weights@, paths_by_pair@, best_route@, symmetry, br));
            }
        }
        si += 1;
    }
    best_route
}

/// `init` is an initial route of the banded pipeline for weights `w`: a
/// `banded_initial` route over complete lists of block paths.
pub open spec fn banded_start(n: int, w: Seq<i64>, lists: Seq<Vec<[u8; 10]>>, init: Seq<usize>) -> bool {
    &&& paths_ok(lists)
    &&& complete_paths(lists)
    &&& is_route(n, init)
    &&& banded_initial(n, w, lists, init)
}

/// The banded pipeline: the best banded route of `build_best_initial_route`,
/// window sweeps until `initial_deadline`, 2-opt descent with window
/// re-optimization around each reversal until `two_opt_deadline`, and window
/// sweeps until `time_limit`. The result is a route scoring at least the
/// initial one.
pub fn solve_banded(
    n: usize,
    a: &Vec<Vec<i64>>,
    start: &Instant,
    initial_deadline: Duration,
    two_opt_deadline: Duration,
    time_limit: Duration,
) -> (route: Vec<usize>)
    requires
        n % 5 == 0,
        n % 2 == 0,
        5 <= n,
        n * n <= MAX_CELLS,
        a@.len() == n,
        forall|i: int| 0 <= i < n ==> #[trigger] a@[i]@.len() == n,
        forall|i: int, j: int| 0 <= i < n && 0 <= j < n ==> -1_000_000 <= #[trigger] a@[i]@[j] <= 1_000_000,
    ensures
        is_route(n as int, route@),
        exists|lists: Seq<Vec<[u8; 10]>>, init: Seq<usize>| #[trigger] banded_start(n as int, crate::grid::flat_of(n as int, a@), lists, init)
            && raw_score(route@, crate::grid::flat_of(n as int, a@)) >= raw_score(init, crate::grid::flat_of(n as int, a@)),
{
    let weights = flatten_weights(n, a);
    proof {
        lemma_flat_bounded(n as int, a@, weights@);
    }
    let neighbors = build_neighbors(n);
    let paths_by_pair = generate_local_paths();
    let mut route = build_best_initial_route(n, weights.as_slice(), &paths_by_pair);
    let ghost init = route@;
    let mut score = compute_raw_score(route.as_slice(), weights.as_slice());
    run_window_descent(&mut route, weights.as_slice(), n, &mut score, start, initial_deadline, 1);
    crate::descent::run_two_opt_refine_descent(&mut route, weights.as_slice(), &neighbors, n, &mut score, start,
        two_opt_deadline);
    run_window_descent(&mut route, weights.as_slice(), n, &mut score, start, time_limit, 1);
    proof {
        assert(banded_start(n as int, weights@, paths_by_pair@, init));
    }
    route
}

/// A strip sequence the pipeline may use for a first pass going down
/// (`sd`) or up: the default sequence, or one the feasibility search finds.
pub open spec fn strip_seq_candidate(n: int, seq: Seq<usize>, sd: bool) -> bool {
    let sc = n / 5;
    ||| seq == crate::strips::euler_sequence(sc, 5, None)
    ||| (exists|s: u64| 1 <= s <= 512 && seq == #[trigger] crate::strips::euler_sequence(sc, 5, Some(s)))
    ||| (exists|s: u64| 1 <= s <= 200 && #[trigger] crate::strips::balanced_walk(sc, 5, s) == Some(seq))
}

/// What one strip construction gave, mapped back through `flip`: a route
/// whenever the construction owes one, and then the image of a strip walk
/// of `seq`.
pub open spec fn strip_outcome_ok(n: int, seq: Seq<usize>, sd: bool, flip: Symmetry, out: Option<Seq<usize>>) -> bool {
    &&& crate::strips::strip_route_owed(n, seq, sd) ==> out is Some
    &&& out matches Some(r) ==> is_route(n, r)
        && exists|rt: Seq<usize>| #[trigger] crate::strips::strip_walk_of(n, seq, sd, rt) && r == route_image(n, flip, rt)
}

/// `route` is the first of the routes in `outs` with the highest raw score.
pub open spec fn first_best_out(outs: Seq<Option<Seq<usize>>>, route: Seq<usize>, w: Seq<i64>) -> bool {
    exists|k: int| 0 <= k < outs.len() && #[trigger] outs[k] == Some(route)
        && (forall|j: int| 0 <= j < outs.len() ==> (#[trigger] outs[j] matches Some(r) ==> raw_score(r, w) <= raw_score(route, w)))
        && (forall|j: int| 0 <= j < k ==> (#[trigger] outs[j] matches Some(r) ==> raw_score(r, w) < raw_score(route, w)))
}

/// The strip pipeline's outcome: the strip sequences used for each starting
/// direction; what the construction gave for each flip `k / 2` and starting
/// direction (down on even `k`); the result, the first best of them, or the
/// row snake when none came out.
pub open spec fn strips_outcome(n: int, w: Seq<i64>, down_seq: Seq<usize>, up_seq: Seq<usize>, outs: Seq<Option<Seq<usize>>>,
    route: Seq<usize>) -> bool {
    &&& strip_seq_candidate(n, down_seq, true)
    &&& strip_seq_candidate(n, up_seq, false)
    &&& outs.len() == 8
    &&& forall|k: int| 0 <= k < 8 ==> strip_outcome_ok(n, if k % 2 == 0 { down_seq } else { up_seq }, k % 2 == 0,
        crate::interleave::board_flip(k / 2), #[trigger] outs[k])
    &&& (forall|k: int| 0 <= k < 8 ==> #[trigger] outs[k] is None) ==> route == row_snake_spec(n)
    &&& (exists|k: int| 0 <= k < 8 && #[trigger] outs[k] is Some) ==> first_best_out(outs, route, w)
}

/// `route` is the first of the `built` routes with the highest raw score.
pub open spec fn first_best(built: Seq<Seq<usize>>, route: Seq<usize>, w: Seq<i64>) -> bool {
    exists|k: int| 0 <= k < built.len() && #[trigger] built[k] == route
        && (forall|j: int| 0 <= j < built.len() ==> raw_score(#[trigger] built[j], w) <= raw_score(route, w))
        && (forall|j: int| 0 <= j < k ==> raw_score(#[trigger] built[j], w) < raw_score(route, w))
}

/// The strip pipeline: strip sequences for a first pass going down and for
/// one going up (a feasible one if the search finds it, the default one
/// otherwise); for each of the four flips of the board and each starting
/// direction, the strip route of the flipped weights, mapped back; the one
/// with the highest raw score (the first on ties), or the row snake when no
/// strip route comes out (always so on sides below 10, too small for a
/// strip route, and on sides that are not multiples of 10, which strip
/// routes need). The result is a route.
#[verifier::rlimit(100)]
#[verifier::spinoff_prover]
pub fn solve_strips(n: usize, a: &Vec<Vec<i64>>) -> (route: Vec<usize>)
    requires
        1 <= n <= 1000,
        n * n <= MAX_CELLS,
        a@.len() == n,
        forall|i: int| 0 <= i < n ==> #[trigger] a@[i]@.len() == n,
        forall|i: int, j: int| 0 <= i < n && 0 <= j < n ==> -1_000_000 <= #[trigger] a@[i]@[j] <= 1_000_000,
    ensures
        is_route(n as int, route@),
        n % 10 != 0 ==> route@ == row_snake_spec(n as int),
        exists|down_seq: Seq<usize>, up_seq: Seq<usize>, outs: Seq<Option<Seq<usize>>>|
            #[trigger] strips_outcome(n as int, crate::grid::flat_of(n as int, a@), down_seq, up_seq, outs, route@),
{
    if n < 10 {
        proof {
            let e = crate::strips::euler_sequence((n / 5) as int, 5, None);
            let outs = Seq::new(8, |k: int| None::<Seq<usize>>);
            assert forall|k: int| 0 <= k < 8 implies strip_outcome_ok(n as int, if k % 2 == 0 { e } else { e }, k % 2 == 0,
                crate::interleave::board_flip(k / 2), #[trigger] outs[k]) by {
                assert(!crate::strips::strip_route_shape(n as int, if k % 2 == 0 { e } else { e }));
            }
            assert(strips_outcome(n as int, crate::grid::flat_of(n as int, a@), e, e, outs, row_snake_spec(n as int)));
        }
        return row_snake(n);
    }
    let weights = flatten_weights(n, a);
    proof {
        lemma_flat_bounded(n as int, a@, weights@);
    }
    let perms = generate_permutations();
    let transitions = build_transitions(&perms);
    let strip_count = n / 5;
    let seq_down = match find_feasible_strip_sequence(n, strip_count, true) {
        Some(v) => v,
        None => build_strip_sequence(strip_count),
    };
    let seq_up = match find_feasible_strip_sequence(n, strip_count, false) {
        Some(v) => v,
        None => build_strip_sequence(strip_count),
    };
    proof {
        assert(strip_seq_candidate(n as int, seq_down@, true));
        assert(strip_seq_candidate(n as int, seq_up@, false));
    }
    let syms = symmetries();
    let mut best_route: Vec<usize> = Vec::new();
    let mut best_score: i64 = 0;
    let mut found = false;
    let ghost mut outs: Seq<Option<Seq<usize>>> = Seq::empty();
    let mut si: usize = 0;
    while si < 4
        invariant
            10 <= n <= 1000,
            n * n <= MAX_CELLS,
            strip_count == n / 5,
            weights@.len() == n * n,
            weights_bounded(weights@),
            crate::strips::perm_tables_ok(perms@, transitions@),
            crate::strips::strips_below(seq_down@, strip_count as int),
            crate::strips::strips_below(seq_up@, strip_count as int),
            syms@.len() == 8,
            forall|k: int| 0 <= k < 8 ==> #[trigger] syms@[k] == crate::interleave::board_flip(k),
            si <= 4,
            found ==> is_route(n as int, best_route@),
            found ==> n % 10 == 0,
            weights@ == crate::grid::flat_of(n as int, a@),
            outs.len() == 2 * si,
            found <==> exists|k: int| 0 <= k < outs.len() && #[trigger] outs[k] is Some,
            forall|k: int| 0 <= k < outs.len() ==> strip_outcome_ok(n as int, if k % 2 == 0 { seq_down@ } else { seq_up@ },
                k % 2 == 0, crate::interleave::board_flip(k / 2), #[trigger] outs[k]),
            found ==> first_best_out(outs, best_route@, weights@) && best_score == raw_score(best_route@, weights@),
        decreases 4 - si,
    {
        let symmetry = syms[si];
        let transformed = transform_weights(n, weights.as_slice(), symmetry);
        proof {
            assert forall|c: int| 0 <= c < transformed@.len() implies
                -MAX_WEIGHT <= #[trigger] transformed@[c] <= MAX_WEIGHT by {
                lemma_transform_cell(n as int, symmetry, c, c);
            }
        }
        let mut d: usize = 0;
        while d < 2
            invariant
                10 <= n <= 1000,
                n * n <= MAX_CELLS,
                strip_count == n / 5,
                transformed@.len() == n * n,
                weights_bounded(transformed@),
                crate::strips::perm_tables_ok(perms@, transitions@),
                crate::strips::strips_below(seq_down@, strip_count as int),
                crate::strips::strips_below(seq_up@, strip_count as int),
                d <= 2,
                found ==> is_route(n as int, best_route@),
                found ==> n % 10 == 0,
                syms@.len() == 8,
                si < 4,
                symmetry == syms@[si as int],
                symmetry == crate::interleave::board_flip(si as int),
                forall|c: int| 0 <= c < n * n ==> #[trigger] transformed@[c] == weights@[transform_cell_spec(n as int, symmetry, c)],
                weights@.len() == n * n,
                outs.len() == 2 * si + d,
                found <==> exists|k: int| 0 <= k < outs.len() && #[trigger] outs[k] is Some,
                forall|k: int| 0 <= k < outs.len() ==> strip_outcome_ok(n as int, if k % 2 == 0 { seq_down@ } else { seq_up@ },
                    k % 2 == 0, crate::interleave::board_flip(k / 2), #[trigger] outs[k]),
                found ==> first_best_out(outs, best_route@, weights@) && best_score == raw_score(best_route@, weights@),
            decreases 2 - d,
        {
            let start_down = d == 0;
            let seq = if start_down { &seq_down } else { &seq_up };
            let ghost prev = outs;
            let ghost k = outs.len() as int;
            proof {
                assert(k / 2 == si as int && (k % 2 == 0) == start_down) by (nonlinear_arith)
                    requires k == 2 * si + d, d < 2, start_down == (d == 0);
                assert(seq@ == (if k % 2 == 0 { seq_down@ } else { seq_up@ }));
            }
            match build_route(n, transformed.as_slice(), seq, start_down, &perms, &transitions) {
                Some(route_tr) => {
                    proof {
                        assert(cells_in(route_tr@, transformed@.len() as int));
                        assert(route_tr@.len() <= MAX_CELLS);
                        assert(crate::strips::strip_route_shape(n as int, seq@));
                        assert(n % 10 == 0) by (nonlinear_arith) requires n % 5 == 0, n % 2 == 0;
                    }
                    let score = compute_raw_score(route_tr.as_slice(), transformed.as_slice());
                    let ghost image = route_image(n as int, symmetry, route_tr@);
                    proof {
                        lemma_score_under_symmetry(n as int, symmetry, route_tr@, weights@, transformed@);
                        crate::symmetry::lemma_route_image(n as int, symmetry, route_tr@);
                        outs = outs.push(Some(image));
                        assert(strip_outcome_ok(n as int, seq@, start_down, symmetry, outs[k]));
                        assert forall|j: int| 0 <= j < outs.len() implies strip_outcome_ok(n as int,
                            if j % 2 == 0 { seq_down@ } else { seq_up@ }, j % 2 == 0, crate::interleave::board_flip(j / 2),
                            #[trigger] outs[j]) by {
                            if j < k {
                                assert(outs[j] == prev[j]);
                            }
                        }
                        assert(outs[k] is Some);
                    }
                    if !found || score > best_score {
                        best_score = score;
                        best_route = apply_symmetry_to_route(route_tr.as_slice(), n, symmetry);
                        found = true;
                        proof {
                            assert(outs[k] == Some(best_route@));
                            assert forall|j: int| 0 <= j < outs.len() implies (#[trigger] outs[j] matches Some(r)
                                ==> raw_score(r, weights@) <= raw_score(best_route@, weights@)) by {
                                if j < k {
                                    assert(outs[j] == prev[j]);
                                }
                            }
                            assert forall|j: int| 0 <= j < k implies (#[trigger] outs[j] matches Some(r)
                                ==> raw_score(r, weights@) < raw_score(best_route@, weights@)) by {
                                assert(outs[j] == prev[j]);
                                if prev[j] is Some {
                                    assert(exists|k: int| 0 <= k < prev.len() && #[trigger] prev[k] is Some);
                                }
                            }
                        }
                    } else {
                        proof {
                            let k0 = choose|k0: int| 0 <= k0 < prev.len() && #[trigger] prev[k0] == Some(best_route@)
                                && (forall|j: int| 0 <= j < prev.len() ==> (#[trigger] prev[j] matches Some(r) ==> raw_score(r, weights@) <= raw_score(best_route@, weights@)))
                                && (forall|j: int| 0 <= j < k0 ==> (#[trigger] prev[j] matches Some(r) ==> raw_score(r, weights@) < raw_score(best_route@, weights@)));
                            assert(outs[k0] == Some(best_route@));
                            assert forall|j: int| 0 <= j < outs.len() implies (#[trigger] outs[j] matches Some(r)
                                ==> raw_score(r, weights@) <= raw_score(best_route@, weights@)) by {
                                if j < prev.len() {
                                    assert(outs[j] == prev[j]);
                                }
                            }
                            assert forall|j: int| 0 <= j < k0 implies (#[trigger] outs[j] matches Some(r)
                                ==> raw_score(r, weights@) < raw_score(best_route@, weights@)) by {
                                assert(outs[j] == prev[j]);
                            }
                        }
                    }
                },
                None => {
                    proof {
                        outs = outs.push(None);
                        assert(strip_outcome_ok(n as int, seq@, start_down, symmetry, outs[k]));
                        assert forall|j: int| 0 <= j < outs.len() implies strip_outcome_ok(n as int,
                            if j % 2 == 0 { seq_down@ } else { seq_up@ }, j % 2 == 0, crate::interleave::board_flip(j / 2),
                            #[trigger] outs[j]) by {
                            if j < k {
                                assert(outs[j] == prev[j]);
                            }
                        }
                        if found {
                            let k0 = choose|k0: int| 0 <= k0 < prev.len() && #[trigger] prev[k0] == Some(best_route@)
                                && (forall|j: int| 0 <= j < prev.len() ==> (#[trigger] prev[j] matches Some(r) ==> raw_score(r, weights@) <= raw_score(best_route@, weights@)))
                                && (forall|j: int| 0 <= j < k0 ==> (#[trigger] prev[j] matches Some(r) ==> raw_score(r, weights@) < raw_score(best_route@, weights@)));
                            assert(outs[k0] == Some(best_route@));
                            assert forall|j: int| 0 <= j < outs.len() implies (#[trigger] outs[j] matches Some(r)
                                ==> raw_score(r, weights@) <= raw_score(best_route@, weights@)) by {
                                if j < prev.len() {
                                    assert(outs[j] == prev[j]);
                                }
                            }
                            assert forall|j: int| 0 <= j < k0 implies (#[trigger] outs[j] matches Some(r)
                                ==> raw_score(r, weights@) < raw_score(best_route@, weights@)) by {
                                assert(outs[j] == prev[j]);
                            }
                            let kk = choose|kk: int| 0 <= kk < prev.len() && #[trigger] prev[kk] is Some;
                            assert(outs[kk] is Some);
                        } else {
                            assert forall|j: int| 0 <= j < outs.len() implies !(#[trigger] outs[j] is Some) by {
                                if j < k {
                                    assert(outs[j] == prev[j]);
                                }
                            }
                        }
                    }
                },
            }
            d += 1;
        }
        si += 1;
    }
    if !found {
        best_route = row_snake(n);
    }
    proof {
        if found {
            let kk = choose|kk: int| 0 <= kk < outs.len() && #[trigger] outs[kk] is Some;
            assert(outs[kk] is Some);
        }
        assert(strips_outcome(n as int, weights@, seq_down@, seq_up@, outs, best_route@));
    }
    best_route
}

/// Bonus weight of a rank-increasing cut in the rank-cycle pipeline.
pub const LAMBDA_CUT: i64 = 400_000;

/// A best cut without a cut bonus scores at least every cut of the tour it
/// was cut from; so it scores at least every cut of `start` when that tour
/// is `start` or already did.
proof fn lemma_recut_scores_past(new: Seq<usize>, base: Seq<usize>, start: Seq<usize>, w: Seq<i64>,
    rk: Seq<usize>, cut_done: bool)
    requires
        best_recut(new, base, w, rk, 0),
        base.len() >= 1,
        !cut_done ==> base == start,
        cut_done ==> scores_past_cuts(base, start, w),
    ensures
        scores_past_cuts(new, start, w),
{
    assert forall|s: int| 0 <= s < base.len() implies raw_score(#[trigger] rotation(base, s), w) <= raw_score(new, w)
        && raw_score(rotation(flipped(base), s), w) <= raw_score(new, w) by {
        assert(crate::cycle::cut_score(rotation(base, s), w, rk, 0) == raw_score(rotation(base, s), w));
        assert(crate::cycle::cut_score(rotation(flipped(base), s), w, rk, 0) == raw_score(rotation(flipped(base), s), w));
        assert(crate::cycle::cut_score(new, w, rk, 0) == raw_score(new, w));
    }
    if cut_done {
        assert(rotation(base, 0) =~= base);
        assert(raw_score(base, w) <= raw_score(new, w));
    }
}

/// `route` scores at least every cut of the closed tour `base`, walked
/// either way.
pub open spec fn scores_past_cuts(route: Seq<usize>, base: Seq<usize>, w: Seq<i64>) -> bool {
    forall|s: int| #![trigger rotation(base, s)] #![trigger rotation(flipped(base), s)]
        0 <= s < base.len() ==> raw_score(rotation(base, s), w) <= raw_score(route, w)
            && raw_score(rotation(flipped(base), s), w) <= raw_score(route, w)
}

/// Improves a closed tour: each round cuts it where it scores best, then
/// applies the better of the best segment relocation and the best tour
/// reversal (the relocation on ties) and re-optimizes the windows around
/// the move (windows that may wrap around the tour when `wrap_windows`,
/// windows clear of the route ends otherwise). Stops when neither gains, at
/// the deadline, or after `max_rounds` rounds. The tour stays closed.
/// `None` when it stopped because neither gains: then no valid tour reversal
/// and no valid relocation raises the score of the result, and, without a
/// cut bonus, it scores at least every cut of the starting tour. Otherwise
/// the evidence that the deadline passed or that the rounds ran out.
pub fn improve_cycle(
    route: &mut Vec<usize>,
    weights: &[i64],
    rank_by_cell: &[usize],
    neighbors: &Vec<Vec<usize>>,
    n: usize,
    lambda_cut: i64,
    wrap_windows: bool,
    start: &Instant,
    deadline: Duration,
    max_rounds: usize,
) -> (stop: Option<SearchStop>)
    requires
        valid_side(n as int),
        2 * n * n <= MAX_CELLS,
        wrap_windows ==> n * n >= 11,
        is_cycle(n as int, old(route)@),
        weights@.len() == n * n,
        weights_bounded(weights@),
        lambda_cut > 0 ==> rank_by_cell@.len() == n * n,
        neighbors@.len() == n * n,
        forall|c: int| 0 <= c < n * n ==> lists_neighbors(n as int, c, #[trigger] neighbors@[c]@),
        0 <= lambda_cut <= MAX_LAMBDA,
    ensures
        is_cycle(n as int, final(route)@),
        stop is None ==> cycle_reversal_optimal(n as int, final(route)@, weights@)
            && relocation_optimal(n as int, final(route)@, weights@),
        stop is None && lambda_cut == 0 ==> scores_past_cuts(final(route)@, old(route)@, weights@),
        stop matches Some(SearchStop::Time(t)) ==> t.started() == *start && t.limit() == deadline,
        stop matches Some(SearchStop::Rounds(t)) ==> t.limit() == max_rounds,
{
    let ghost w = weights@;
    let ghost nn = n as int;
    let ghost start_tour = route@;
    let ghost mut cut_done = false;
    let len = route.len();
    let mut position: Vec<usize> = vec![0usize; len];
    let mut prefix_weight: Vec<i64> = vec![0i64; len + 1];
    let mut prefix_pos_weight: Vec<i64> = vec![0i64; len + 1];
    let mut budget = RoundBudget::new(max_rounds);
    loop
        invariant
            valid_side(nn),
            nn == n,
            2 * n * n <= MAX_CELLS,
            is_cycle(nn, route@),
            len == route@.len(),
            len == n * n,
            w == weights@,
            weights@.len() == n * n,
            weights_bounded(w),
            lambda_cut > 0 ==> rank_by_cell@.len() == n * n,
            wrap_windows ==> n * n >= 11,
            neighbors@.len() == n * n,
            forall|c: int| 0 <= c < n * n ==> lists_neighbors(nn, c, #[trigger] neighbors@[c]@),
            0 <= lambda_cut <= MAX_LAMBDA,
            position@.len() == len,
            prefix_weight@.len() == len + 1,
            prefix_pos_weight@.len() == len + 1,
            budget.limit() == max_rounds,
            start_tour == old(route)@,
            !cut_done ==> route@ == start_tour,
            cut_done && lambda_cut == 0 ==> scores_past_cuts(route@, start_tour, w),
        decreases budget.left(),
    {
        if let Some(t) = budget.take() {
            return Some(SearchStop::Rounds(t));
        }
        if let Some(t) = check_deadline(start, &deadline) {
            return Some(SearchStop::Time(t));
        }
        let ghost before_cut = route@;
        proof {
            assert(len >= 1) by (nonlinear_arith) requires len == n * n, n >= 1;
            assert(2 * len <= MAX_CELLS) by (nonlinear_arith) requires len == n * n, 2 * n * n <= MAX_CELLS;
        }
        let mut score = relinearize_best_cut(route, weights, rank_by_cell, lambda_cut);
        proof {
            lemma_recut_cycle(nn, before_cut, route@);
            if lambda_cut == 0 {
                lemma_recut_scores_past(route@, before_cut, start_tour, w, rank_by_cell@, cut_done);
            }
            cut_done = true;
        }
        rebuild_aux(route.as_slice(), weights, &mut position, &mut prefix_weight, &mut prefix_pos_weight);
        proof {
            lemma_aux_bounded(route@, w, position@, prefix_weight@, prefix_pos_weight@);
            assert(aux_of(route@, w, position@, prefix_weight@, prefix_pos_weight@));
        }
        let best_reloc = best_relocation_move(route.as_slice(), weights, neighbors, position.as_slice(), prefix_weight.as_slice(), n);
        let best_two_opt = best_cycle_two_opt_move(route.as_slice(), position.as_slice(), neighbors,
            prefix_weight.as_slice(), prefix_pos_weight.as_slice(), n);
        let reloc_delta = match best_reloc {
            Some(mv) => mv.delta,
            None => 0,
        };
        let two_opt_delta = match best_two_opt {
            Some(mv) => mv.delta,
            None => 0,
        };
        if reloc_delta <= 0 && two_opt_delta <= 0 {
            proof {
                lemma_cycle_reversal_optimal(nn, route@, w);
                lemma_relocation_optimal(nn, route@, w);
            }
            return None;
        }
        let ghost before = route@;
        proof {
            lemma_raw_score_bound(before, w);
        }
        if reloc_delta >= two_opt_delta {
            let mv = match best_reloc {
                Some(mv) => mv,
                None => return None,
            };
            apply_relocation(route, mv);
            proof {
                lemma_relocation_keeps_route(nn, before, mv.l as int, mv.r as int, mv.p as int, mv.reversed);
                assert(route@[0] == before[reloc_src(mv.l as int, mv.r as int, mv.p as int, mv.reversed, 0)]);
                let e = before.len() - 1;
                assert(route@[e] == before[reloc_src(mv.l as int, mv.r as int, mv.p as int, mv.reversed, e)]);
                lemma_same_ends_cycle(nn, before, route@);
                lemma_raw_score_bound(route@, w);
            }
            score = score + mv.delta;
            let anchors = [mv.l, mv.p];
            let ghost before_refine = route@;
            if wrap_windows {
                refine_cycle_around(route, weights, n, &mut score, &anchors);
            } else {
                refine_inner_around(route, weights, n, &mut score, &anchors);
                proof {
                    lemma_same_ends_cycle(nn, before_refine, route@);
                }
            }
        } else {
            let mv = match best_two_opt {
                Some(mv) => mv,
                None => return None,
            };
            reverse_range(route, mv.l, mv.r);
            proof {
                lemma_cycle_reversal(nn, before, mv.l as int, mv.r as int);
                lemma_reversal_score(before, w, mv.l as int, mv.r as int);
                lemma_raw_score_bound(route@, w);
            }
            score = score + mv.delta;
            let anchors = [mv.l, mv.r];
            let ghost before_refine = route@;
            if wrap_windows {
                refine_cycle_around(route, weights, n, &mut score, &anchors);
            } else {
                refine_inner_around(route, weights, n, &mut score, &anchors);
                proof {
                    lemma_same_ends_cycle(nn, before_refine, route@);
                }
            }
        }
    }
}

/// `r` is a best cut of the closed tour `c` (`best_recut` at rank penalty
/// `lam` with ranks `rk`).
pub open spec fn best_cut_of(n: int, w: Seq<i64>, rk: Seq<usize>, lam: int, c: Seq<usize>, r: Seq<usize>) -> bool {
    &&& is_cycle(n, c)
    &&& recut_of(r, c)
    &&& best_recut(r, c, w, rk, lam)
}

/// `route` scores at least a best cut of some closed tour: what a pipeline
/// that cuts its tour last and then only runs score-keeping descents ends
/// with, however long its searches ran.
pub open spec fn scores_past_best_cut(n: int, w: Seq<i64>, rk: Seq<usize>, lam: int, route: Seq<usize>) -> bool {
    exists|c: Seq<usize>, r: Seq<usize>| #[trigger] best_cut_of(n, w, rk, lam, c, r) && raw_score(route, w) >= raw_score(r, w)
}

/// The ranks of the cells of the rank-cycle pipeline: each cell's weight
/// minus one.
pub open spec fn weight_ranks(w: Seq<i64>) -> Seq<usize> {
    Seq::new(w.len(), |c: int| (w[c] - 1) as usize)
}

/// The rank-cycle pipeline: the best cut of the row cycle or its transpose
/// (rank drops at the cut cost `LAMBDA_CUT`), inner window sweeps until
/// `initial_deadline`, tour improvement until `improve_deadline` (at most
/// `max_rounds` rounds), a final cut and inner window sweeps until
/// `time_limit`. The result is a route.
pub fn solve_rank_cycle(
    n: usize,
    a: &Vec<Vec<i64>>,
    start: &Instant,
    initial_deadline: Duration,
    improve_deadline: Duration,
    time_limit: Duration,
    max_rounds: usize,
) -> (route: Vec<usize>)
    requires
        valid_side(n as int),
        2 <= n,
        n % 2 == 0,
        2 * n * n <= MAX_CELLS,
        a@.len() == n,
        forall|i: int| 0 <= i < n ==> #[trigger] a@[i]@.len() == n,
        forall|i: int, j: int| 0 <= i < n && 0 <= j < n ==> 1 <= #[trigger] a@[i]@[j] <= 1_000_000,
    ensures
        is_route(n as int, route@),
        scores_past_best_cut(n as int, crate::grid::flat_of(n as int, a@), weight_ranks(crate::grid::flat_of(n as int, a@)),
            LAMBDA_CUT as int, route@),
{
    let weights = flatten_weights(n, a);
    proof {
        lemma_flat_bounded(n as int, a@, weights@);
        assert forall|c: int| 0 <= c < weights@.len() implies 1 <= #[trigger] weights@[c] <= 1_000_000 by {
            crate::grid::lemma_cell_split(n as int, c);
            crate::grid::lemma_cell_bound(n as int, c / n as int, c % n as int);
            assert(weights@[(c / n as int) * n + c % n as int] == a@[c / n as int]@[c % n as int]);
        }
    }
    let rank_by_cell = build_rank_by_cell(weights.as_slice());
    let neighbors = build_neighbors(n);
    let mut route = best_initial_cycle(n, weights.as_slice(), rank_by_cell.as_slice(), LAMBDA_CUT);
    proof {
        assert(route@.len() >= 1);
        assert(2 * route@.len() <= MAX_CELLS) by (nonlinear_arith) requires route@.len() == n * n, 2 * n * n <= MAX_CELLS;
    }
    let ghost c0 = route@;
    let mut score = relinearize_best_cut(&mut route, weights.as_slice(), rank_by_cell.as_slice(), LAMBDA_CUT);
    proof {
        lemma_recut_cycle(n as int, c0, route@);
    }
    let ghost c1 = route@;
    run_inner_window_descent(&mut route, weights.as_slice(), n, &mut score, start, initial_deadline, 1);
    proof {
        lemma_same_ends_cycle(n as int, c1, route@);
    }
    improve_cycle(&mut route, weights.as_slice(), rank_by_cell.as_slice(), &neighbors, n, LAMBDA_CUT, false, start,
        improve_deadline, max_rounds);
    let ghost c2 = route@;
    proof {
        assert(route@.len() >= 1);
        assert(2 * route@.len() <= MAX_CELLS) by (nonlinear_arith) requires route@.len() == n * n, 2 * n * n <= MAX_CELLS;
    }
    let mut score = relinearize_best_cut(&mut route, weights.as_slice(), rank_by_cell.as_slice(), LAMBDA_CUT);
    proof {
        lemma_recut_cycle(n as int, c2, route@);
    }
    let ghost cut = route@;
    run_inner_window_descent(&mut route, weights.as_slice(), n, &mut score, start, time_limit, 1);
    proof {
        assert(rank_by_cell@ =~= weight_ranks(weights@));
        assert(best_cut_of(n as int, weights@, weight_ranks(weights@), LAMBDA_CUT as int, c2, cut));
    }
    route
}

/// The symmetry at index `k` of `symmetries()`.
pub open spec fn sym_of(k: int) -> Symmetry {
    Symmetry { transpose: k >= 4, flip_row: k % 2 == 1, flip_col: k % 4 >= 2 }
}

/// The image under symmetry `k` of the row cycle (`b == 0`) or of its transpose.
pub open spec fn tour_candidate(n: int, k: int, b: int) -> Seq<usize> {
    route_image(n, sym_of(k), if b == 0 { row_cycle_spec(n) } else { transpose_spec(n, row_cycle_spec(n)) })
}

/// A symmetry keeps a closed tour a closed tour.
pub proof fn lemma_image_cycle(n: int, s: Symmetry, route: Seq<usize>)
    requires
        valid_side(n),
        is_cycle(n, route),
    ensures
        is_cycle(n, route_image(n, s, route)),
{
    crate::symmetry::lemma_route_image(n, s, route);
    crate::symmetry::lemma_transform_cell(n, s, route.last() as int, route[0] as int);
    crate::symmetry::lemma_transform_cell(n, s, route[0] as int, route.last() as int);
    let t = route_image(n, s, route);
    assert(t.last() as int == crate::symmetry::transform_cell_spec(n, s, route.last() as int));
    assert(t[0] as int == crate::symmetry::transform_cell_spec(n, s, route[0] as int));
}

/// The tour of the rank-guided pipeline: over the eight symmetric images of
/// the row cycle and of its transpose, each cut where its raw score is
/// highest (see `relinearize_best_cut` with no bonus), the one with the
/// highest raw score (the first on ties).
pub fn best_initial_tour(n: usize, weights: &[i64]) -> (route: Vec<usize>)
    requires
        valid_side(n as int),
        2 <= n,
        n % 2 == 0,
        2 * n * n <= MAX_CELLS,
        weights@.len() == n * n,
        weights_bounded(weights@),
    ensures
        is_cycle(n as int, route@),
        exists|k: int, b: int| 0 <= k < 8 && 0 <= b < 2 && #[trigger] recut_of(route@, tour_candidate(n as int, k, b))
            && best_recut(route@, tour_candidate(n as int, k, b), weights@, Seq::empty(), 0),
        forall|k: int, b: int, y: Seq<usize>| 0 <= k < 8 && 0 <= b < 2
            && #[trigger] recut_of(y, tour_candidate(n as int, k, b))
            && best_recut(y, tour_candidate(n as int, k, b), weights@, Seq::empty(), 0)
            ==> raw_score(route@, weights@) >= raw_score(y, weights@),
{
    let ghost nn = n as int;
    let ghost w = weights@;
    let row = row_cycle(n);
    proof {
        lemma_row_cycle(nn);
    }
    let col = transpose_route(row.as_slice(), n);
    proof {
        crate::cycle::lemma_transpose_cycle(nn, row@);
        assert(2 * row@.len() <= MAX_CELLS) by (nonlinear_arith) requires row@.len() == n * n, 2 * n * n <= MAX_CELLS;
    }
    let syms = symmetries();
    let no_rank: Vec<usize> = Vec::new();
    let mut best_route: Vec<usize> = Vec::new();
    let mut best_score: i64 = crate::cycle::NO_SCORE;
    let mut found = false;
    let mut si: usize = 0;
    while si < 8
        invariant
            valid_side(nn),
            nn == n,
            2 * n * n <= MAX_CELLS,
            w == weights@,
            weights@.len() == n * n,
            weights_bounded(w),
            row@ == row_cycle_spec(nn),
            col@ == transpose_spec(nn, row_cycle_spec(nn)),
            is_cycle(nn, row@),
            is_cycle(nn, col@),
            syms@.len() == 8,
            forall|k: int| 0 <= k < 8 ==> #[trigger] syms@[k] == sym_of(k),
            no_rank@ == Seq::<usize>::empty(),
            si <= 8,
            found ==> is_cycle(nn, best_route@) && best_score == raw_score(best_route@, w),
            found ==> exists|k: int, b: int| 0 <= k < 8 && 0 <= b < 2 && #[trigger] recut_of(best_route@, tour_candidate(nn, k, b))
                && best_recut(best_route@, tour_candidate(nn, k, b), w, Seq::empty(), 0),
            !found ==> si == 0,
            forall|k: int, b: int, y: Seq<usize>| 0 <= k < si && 0 <= b < 2
                && #[trigger] recut_of(y, tour_candidate(nn, k, b))
                && best_recut(y, tour_candidate(nn, k, b), w, Seq::empty(), 0)
                ==> found && best_score >= raw_score(y, w),
        decreases 8 - si,
    {
        let mut bi: usize = 0;
        while bi < 2
            invariant
                valid_side(nn),
                nn == n,
                2 * n * n <= MAX_CELLS,
                w == weights@,
                weights@.len() == n * n,
                weights_bounded(w),
                row@ == row_cycle_spec(nn),
                col@ == transpose_spec(nn, row_cycle_spec(nn)),
                is_cycle(nn, row@),
                is_cycle(nn, col@),
                syms@.len() == 8,
                forall|k: int| 0 <= k < 8 ==> #[trigger] syms@[k] == sym_of(k),
                no_rank@ == Seq::<usize>::empty(),
                si < 8,
                bi <= 2,
                found ==> is_cycle(nn, best_route@) && best_score == raw_score(best_route@, w),
                found ==> exists|k: int, b: int| 0 <= k < 8 && 0 <= b < 2 && #[trigger] recut_of(best_route@, tour_candidate(nn, k, b))
                    && best_recut(best_route@, tour_candidate(nn, k, b), w, Seq::empty(), 0),
                !found ==> si == 0 && bi == 0,
                forall|k: int, b: int, y: Seq<usize>| (0 <= k < si && 0 <= b < 2 || k == si && 0 <= b < bi)
                    && #[trigger] recut_of(y, tour_candidate(nn, k, b))
                    && best_recut(y, tour_candidate(nn, k, b), w, Seq::empty(), 0)
                    ==> found && best_score >= raw_score(y, w),
            decreases 2 - bi,
        {
            let ghost cand = tour_candidate(nn, si as int, bi as int);
            let base = if bi == 0 { &row } else { &col };
            proof {
                assert(forall|k: int| 0 <= k < base@.len() ==> #[trigger] base@[k] < n * n);
            }
            let mut route = apply_symmetry_to_route(base.as_slice(), n, syms[si]);
            proof {
                lemma_image_cycle(nn, sym_of(si as int), base@);
                assert(route@ == cand);
                assert(route@.len() >= 1);
            }
            if check_cycle(route.as_slice(), n) {
                proof {
                    assert(2 * route@.len() <= MAX_CELLS) by (nonlinear_arith)
                        requires route@.len() == n * n, 2 * n * n <= MAX_CELLS;
                }
                let score = relinearize_best_cut(&mut route, weights, no_rank.as_slice(), 0);
                proof {
                    lemma_recut_cycle(nn, cand, route@);
                    crate::descent::lemma_raw_score_bound(route@, w);
                    assert forall|y: Seq<usize>| #[trigger] recut_of(y, cand) && best_recut(y, cand, w, Seq::empty(), 0)
                        implies raw_score(y, w) == score by {
                        crate::cycle::lemma_best_recut_equal_pub(route@, y, cand, w, Seq::empty(), 0);
                    }
                }
                if !found || score > best_score {
                    best_score = score;
                    best_route = route;
                    found = true;
                }
            }
            bi += 1;
        }
        si += 1;
    }
    best_route
}

/// The rank-guided pipeline: the best tour of `best_initial_tour`, wrapping
/// window sweeps until `sweep_deadline`, guided relocation passes until
/// `guided_deadline`, targeted window search until `lns_deadline`, tour
/// improvement with wrapping window re-optimization until
/// `improve_deadline`, a final cut and window sweeps until `time_limit`.
/// Each of the two round-based phases also stops after `max_rounds` rounds.
/// The result is a route.
pub fn solve_guided_cycle(
    n: usize,
    a: &Vec<Vec<i64>>,
    start: &Instant,
    sweep_deadline: Duration,
    guided_deadline: Duration,
    lns_deadline: Duration,
    improve_deadline: Duration,
    time_limit: Duration,
    max_rounds: usize,
) -> (route: Vec<usize>)
    requires
        valid_side(n as int),
        4 <= n,
        n % 2 == 0,
        2 * n * n <= MAX_CELLS,
        a@.len() == n,
        forall|i: int| 0 <= i < n ==> #[trigger] a@[i]@.len() == n,
        forall|i: int, j: int| 0 <= i < n && 0 <= j < n ==> 1 <= #[trigger] a@[i]@[j] <= n * n,
    ensures
        is_route(n as int, route@),
        scores_past_best_cut(n as int, crate::grid::flat_of(n as int, a@), Seq::empty(), 0, route@),
{
    let ghost nn = n as int;
    let weights = flatten_weights(n, a);
    let ghost w = weights@;
    proof {
        assert(n * n <= 1_000_000) by (nonlinear_arith) requires 2 * n * n <= MAX_CELLS;
        lemma_flat_bounded(nn, a@, weights@);
        assert forall|c: int| 0 <= c < weights@.len() implies 1 <= #[trigger] weights@[c] <= weights@.len() by {
            crate::grid::lemma_cell_split(nn, c);
            crate::grid::lemma_cell_bound(nn, c / nn, c % nn);
            assert(weights@[(c / nn) * nn + c % nn] == a@[c / nn]@[c % nn]);
        }
        assert(n * n >= 16) by (nonlinear_arith) requires n >= 4;
    }
    let neighbors = build_neighbors(n);
    let rank_to_cell = build_rank_to_cell(weights.as_slice());
    let no_rank: Vec<usize> = Vec::new();
    let mut route = best_initial_tour(n, weights.as_slice());
    let len = route.len();
    proof {
        assert(2 * len <= MAX_CELLS) by (nonlinear_arith) requires len == n * n, 2 * n * n <= MAX_CELLS;
    }
    let ghost c0 = route@;
    let mut score = relinearize_best_cut(&mut route, weights.as_slice(), no_rank.as_slice(), 0);
    proof {
        lemma_recut_cycle(nn, c0, route@);
    }
    run_cycle_window_descent(&mut route, weights.as_slice(), n, &mut score, start, sweep_deadline, 1);
    let mut position: Vec<usize> = vec![0usize; len];
    let mut prefix_weight: Vec<i64> = vec![0i64; len + 1];
    let mut prefix_pos_weight: Vec<i64> = vec![0i64; len + 1];
    let mut rounds: usize = 0;
    while rounds < max_rounds && before_deadline(start, &guided_deadline)
        invariant
            valid_side(nn),
            nn == n,
            2 * n * n <= MAX_CELLS,
            2 * len <= MAX_CELLS,
            len == n * n,
            len >= 16,
            search_input(nn, route@, w),
            is_cycle(nn, route@),
            w == weights@,
            rank_to_cell@.len() == len,
            forall|k: int| 0 <= k < len ==> #[trigger] rank_to_cell@[k] < len,
            no_rank@ == Seq::<usize>::empty(),
            position@.len() == len,
            prefix_weight@.len() == len + 1,
            prefix_pos_weight@.len() == len + 1,
            rounds <= max_rounds,
        decreases max_rounds - rounds,
    {
        rounds += 1;
        let ghost c1 = route@;
        let mut score = relinearize_best_cut(&mut route, weights.as_slice(), no_rank.as_slice(), 0);
        proof {
            lemma_recut_cycle(nn, c1, route@);
        }
        rebuild_aux(route.as_slice(), weights.as_slice(), &mut position, &mut prefix_weight, &mut prefix_pos_weight);
        proof {
            crate::grid::lemma_permutation_covers(len as int, route@);
            assert forall|c: int| 0 <= c < position@.len() implies #[trigger] position@[c] < position@.len() by {
                assert(route@.contains(c as usize));
                let t = choose|t: int| 0 <= t < route@.len() && route@[t] == c as usize;
                assert(position@[route@[t] as int] == t);
            }
            assert(guided_ctx(nn, route@, w, rank_to_cell@, position@, prefix_weight@));
        }
        let moved = run_guided_pass(&mut route, weights.as_slice(), rank_to_cell.as_slice(), position.as_slice(),
            prefix_weight.as_slice(), n, start, guided_deadline, &mut score);
        if !moved {
            break;
        }
    }
    let ghost c2 = route@;
    let mut score = relinearize_best_cut(&mut route, weights.as_slice(), no_rank.as_slice(), 0);
    proof {
        lemma_recut_cycle(nn, c2, route@);
    }
    run_targeted_path_lns(&mut route, weights.as_slice(), rank_to_cell.as_slice(), n, start, lns_deadline, &mut score);
    improve_cycle(&mut route, weights.as_slice(), no_rank.as_slice(), &neighbors, n, 0, true, start,
        improve_deadline, max_rounds);
    let ghost c3 = route@;
    let mut score = relinearize_best_cut(&mut route, weights.as_slice(), no_rank.as_slice(), 0);
    proof {
        lemma_recut_cycle(nn, c3, route@);
    }
    let ghost cut = route@;
    run_window_descent(&mut route, weights.as_slice(), n, &mut score, start, time_limit, 1);
    proof {
        assert(best_cut_of(nn, weights@, no_rank@, 0, c3, cut));
    }
    route
}

} // verus!
