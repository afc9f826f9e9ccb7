//! Strip routes: the board's core rows are cut into vertical strips five
//! columns wide; the route sweeps each strip five times (once per lane, up
//! or down), passing from strip to strip through connectors laid in the
//! three margin rows above and below the core.
//!
//! A margin is entered from its inner row (row 2 at the top, row `n - 3` at
//! the bottom), runs through a segment of two adjacent columns in the two
//! outer rows and comes back to the inner row.
use vstd::prelude::*;
use crate::strip_assembly::{walk_pieces_ok, strip_walk, strip_walk_at, lemma_strip_walk_route, lemma_walk_index,
    lemma_margin_cell, core_row, side_ports, conn_piece_ok};
use crate::grid::lemma_cell_split;
use crate::grid::{adjacent, row_of, col_of, is_route, valid_side, weights_bounded, is_valid_route, MAX_CELLS, MAX_WEIGHT};
use crate::window::NEG_INF;

verus! {

/// A connector to lay in a margin: after pass `p` (through strip
/// `from_strip`) the route turns into pass `p + 1` (through `to_strip`).
#[derive(Debug, Clone, Copy, PartialEq, Eq, Structural)]
pub struct Task {
    pub p: usize,
    pub from_strip: usize,
    pub to_strip: usize,
}

/// A connector laid in a margin: the inner-row column where it leaves pass
/// `p` and the one where it enters pass `p + 1`, and its cells.
#[derive(Debug, Clone)]
pub struct ConnectorPlan {
    pub p: usize,
    pub from_port: usize,
    pub to_port: usize,
    pub cells: Vec<usize>,
}

/// What one margin carries: its connectors and, in the margin where the
/// route ends, the closing path and the column where it starts.
#[derive(Debug, Clone)]
pub struct SidePlan {
    pub suffix_cells: Vec<usize>,
    pub suffix_start_port: Option<usize>,
    pub connectors: Vec<ConnectorPlan>,
}

/// The lanes of a strip row by row: entry `occ` of a row is the column
/// (within the strip) of lane `occ`, the strip's `occ`-th pass.
#[derive(Debug, Clone)]
pub struct StripSolution {
    pub rows: Vec<[u8; 5]>,
}

/// Columns of a strip.
pub const STRIP_W: usize = 5;

/// Rows of each margin.
pub const MARGIN: usize = 3;

/// A margin of the board.
#[derive(Debug, Clone, Copy, PartialEq, Eq, Structural)]
pub enum Side {
    Top,
    Bottom,
}

/// Two adjacent columns `c0 == 2k`, `c1 == 2k + 1` of the outer margin rows.
#[derive(Debug, Clone, Copy, PartialEq, Eq, Structural)]
pub struct Segment {
    pub c0: usize,
    pub c1: usize,
}

/// Lowest column of the strip's reach at distance `d` (clamped at the left edge).
pub open spec fn reach_lo(strip: int, d: int) -> int {
    if strip * 5 >= d { strip * 5 - d } else { 0 }
}

/// Highest column of the strip's reach at distance `d` (clamped at the right edge).
pub open spec fn reach_hi(strip: int, d: int, n: int) -> int {
    if strip * 5 + 4 + d <= n - 1 { strip * 5 + 4 + d } else { n - 1 }
}

/// Column `col` is within two columns of strip `strip`: where the margin's
/// middle row can meet the strip.
pub open spec fn row1_range(col: int, strip: int, n: int) -> bool {
    reach_lo(strip, 2) <= col <= reach_hi(strip, 2, n)
}

/// Column `col` is within one column of strip `strip`: where the margin's
/// inner row can meet the strip.
pub open spec fn strip_range(col: int, strip: int, n: int) -> bool {
    reach_lo(strip, 1) <= col <= reach_hi(strip, 1, n)
}

/// The middle column of a strip.
pub fn strip_center(strip: usize) -> (c: usize)
    requires
        strip * 5 + 2 <= usize::MAX,
    ensures
        c == strip * 5 + 2,
{
    strip * STRIP_W + STRIP_W / 2
}

/// Whether column `col` is within two columns of strip `strip`.
pub fn in_row1_range(col: usize, strip: usize, n: usize) -> (res: bool)
    requires
        1 <= n,
        strip * 5 + 7 <= usize::MAX,
    ensures
        res == row1_range(col as int, strip as int, n as int),
{
    let base = strip * STRIP_W;
    let lo = if base >= 2 { base - 2 } else { 0 };
    let hi = if base + STRIP_W + 1 <= n - 1 { base + STRIP_W + 1 } else { n - 1 };
    lo <= col && col <= hi
}

/// Whether column `col` is within one column of strip `strip`.
pub fn in_strip_range(col: usize, strip: usize, n: usize) -> (res: bool)
    requires
        1 <= n,
        strip * 5 + 7 <= usize::MAX,
    ensures
        res == strip_range(col as int, strip as int, n as int),
{
    let base = strip * STRIP_W;
    let lo = if base >= 1 { base - 1 } else { 0 };
    let hi = if base + STRIP_W <= n - 1 { base + STRIP_W } else { n - 1 };
    lo <= col && col <= hi
}

/// Records port `v` at `idx` unless another is recorded there: whether the
/// port at `idx` is now `v`.
pub fn set_port(ports: &mut Vec<Option<usize>>, idx: usize, v: usize) -> (ok: bool)
    requires
        idx < old(ports)@.len(),
    ensures
        ok == (old(ports)@[idx as int] is None || old(ports)@[idx as int] == Some(v)),
        final(ports)@ == if old(ports)@[idx as int] is None { old(ports)@.update(idx as int, Some(v)) } else { old(ports)@ },
{
    match ports[idx] {
        None => {
            ports.set(idx, Some(v));
            true
        }
        Some(cur) => cur == v,
    }
}

/// `|a - b|`.
pub open spec fn dist(a: int, b: int) -> int {
    if a >= b { a - b } else { b - a }
}

fn abs_diff(a: usize, b: usize) -> (d: usize)
    ensures
        d == dist(a as int, b as int),
{
    if a >= b { a - b } else { b - a }
}

/// The connector that leaves strip `from_strip` and enters `to_strip`
/// through segment `seg`, as (column where it leaves the middle row, column
/// where it comes back): of the two ways round that keep both ends in reach
/// of their strips, the one closer to the strip centres, the first (`c0`
/// out, `c1` back) on ties.
pub open spec fn connector_orientation(n: int, seg: Segment, from_strip: int, to_strip: int) -> Option<(usize, usize)> {
    let c0 = seg.c0 as int;
    let c1 = seg.c1 as int;
    let cf = from_strip * 5 + 2;
    let ct = to_strip * 5 + 2;
    let ok0 = row1_range(c0, from_strip, n) && row1_range(c1, to_strip, n);
    let ok1 = row1_range(c1, from_strip, n) && row1_range(c0, to_strip, n);
    let pen0 = dist(c0, cf) + dist(c1, ct);
    let pen1 = dist(c1, cf) + dist(c0, ct);
    if ok0 && (!ok1 || pen0 <= pen1) {
        Some((seg.c0, seg.c1))
    } else if ok1 {
        Some((seg.c1, seg.c0))
    } else {
        None
    }
}

/// The orientation of a connector through `seg` (see `connector_orientation`).
pub fn choose_connector_orientation_row1(n: usize, seg: Segment, from_strip: usize, to_strip: usize)
    -> (res: Option<(usize, usize)>)
    requires
        1 <= n <= 1000,
        from_strip < n,
        to_strip < n,
        seg.c0 < n,
        seg.c1 < n,
    ensures
        res == connector_orientation(n as int, seg, from_strip as int, to_strip as int),
{
    let c_from = strip_center(from_strip);
    let c_to = strip_center(to_strip);
    let ok0 = in_row1_range(seg.c0, from_strip, n) && in_row1_range(seg.c1, to_strip, n);
    let ok1 = in_row1_range(seg.c1, from_strip, n) && in_row1_range(seg.c0, to_strip, n);
    let pen0 = abs_diff(seg.c0, c_from) + abs_diff(seg.c1, c_to);
    let pen1 = abs_diff(seg.c1, c_from) + abs_diff(seg.c0, c_to);
    if ok0 && (!ok1 || pen0 <= pen1) {
        Some((seg.c0, seg.c1))
    } else if ok1 {
        Some((seg.c1, seg.c0))
    } else {
        None
    }
}

/// The closing path of the route through `seg`, as (column where it leaves
/// the middle row, column where it ends): the end of the segment in reach of
/// the last strip and closer to its centre leaves, the first (`c0`) on ties.
pub open spec fn suffix_orientation(n: int, seg: Segment, strip: int) -> Option<(usize, usize)> {
    let c0 = seg.c0 as int;
    let c1 = seg.c1 as int;
    let center = strip * 5 + 2;
    let ok0 = row1_range(c0, strip, n);
    let ok1 = row1_range(c1, strip, n);
    if ok0 && (!ok1 || dist(c0, center) <= dist(c1, center)) {
        Some((seg.c0, seg.c1))
    } else if ok1 {
        Some((seg.c1, seg.c0))
    } else {
        None
    }
}

/// The orientation of the closing path through `seg` (see `suffix_orientation`).
pub fn choose_suffix_orientation_row1(n: usize, seg: Segment, strip: usize) -> (res: Option<(usize, usize)>)
    requires
        1 <= n <= 1000,
        strip < n,
        seg.c0 < n,
        seg.c1 < n,
    ensures
        res == suffix_orientation(n as int, seg, strip as int),
{
    let center = strip_center(strip);
    let ok0 = in_row1_range(seg.c0, strip, n);
    let ok1 = in_row1_range(seg.c1, strip, n);
    if ok0 && (!ok1 || abs_diff(seg.c0, center) <= abs_diff(seg.c1, center)) {
        Some((seg.c0, seg.c1))
    } else if ok1 {
        Some((seg.c1, seg.c0))
    } else {
        None
    }
}

/// Inner, middle and outer margin row of `side`.
pub open spec fn margin_rows(n: int, side: Side) -> (int, int, int) {
    match side {
        Side::Top => (2, 1, 0),
        Side::Bottom => (n - 3, n - 2, n - 1),
    }
}

/// The six cells of a margin path: from the inner row at `start_row2`, up
/// to the middle and outer rows at `start_row1`, across to `end_row1` and
/// back down to the inner row at `end_row2`.
pub open spec fn connector_cells_spec(n: int, side: Side, start_row2: int, start_row1: int, end_row1: int, end_row2: int)
    -> Seq<usize> {
    let (r2, r1, r0) = margin_rows(n, side);
    seq![(r2 * n + start_row2) as usize, (r1 * n + start_row1) as usize, (r0 * n + start_row1) as usize,
        (r0 * n + end_row1) as usize, (r1 * n + end_row1) as usize, (r2 * n + end_row2) as usize]
}

/// The cells of a margin path (see `connector_cells_spec`); the two middle
/// columns are adjacent.
pub fn build_connector_cells(
    n: usize,
    side: Side,
    start_row2_col: usize,
    start_row1_col: usize,
    end_row1_col: usize,
    end_row2_col: usize,
) -> (cells: Vec<usize>)
    requires
        2 * MARGIN <= n,
        n * n <= MAX_CELLS,
        start_row2_col < n,
        start_row1_col < n,
        end_row1_col < n,
        end_row2_col < n,
        start_row1_col + 1 == end_row1_col || end_row1_col + 1 == start_row1_col,
    ensures
        cells@ == connector_cells_spec(n as int, side, start_row2_col as int, start_row1_col as int,
            end_row1_col as int, end_row2_col as int),
{
    let forward = start_row1_col + 1 == end_row1_col;
    let (left, right, from_row2, to_row2) = if forward {
        (start_row1_col, end_row1_col, start_row2_col, end_row2_col)
    } else {
        (end_row1_col, start_row1_col, end_row2_col, start_row2_col)
    };
    let (rr2, rr1, rr0) = match side {
        Side::Top => (MARGIN - 1, MARGIN - 2, MARGIN - 3),
        Side::Bottom => (n - MARGIN, n - MARGIN + 1, n - 1),
    };
    proof {
        crate::grid::lemma_cell_bound(n as int, rr2 as int, from_row2 as int);
        crate::grid::lemma_cell_bound(n as int, rr1 as int, left as int);
        crate::grid::lemma_cell_bound(n as int, rr0 as int, left as int);
        crate::grid::lemma_cell_bound(n as int, rr0 as int, right as int);
        crate::grid::lemma_cell_bound(n as int, rr1 as int, right as int);
        crate::grid::lemma_cell_bound(n as int, rr2 as int, to_row2 as int);
    }
    let cells = vec![
        rr2 * n + from_row2,
        rr1 * n + left,
        rr0 * n + left,
        rr0 * n + right,
        rr1 * n + right,
        rr2 * n + to_row2,
    ];
    if forward {
        proof {
            assert(cells@ =~= connector_cells_spec(n as int, side, start_row2_col as int, start_row1_col as int,
                end_row1_col as int, end_row2_col as int));
        }
        cells
    } else {
        let mut rev: Vec<usize> = Vec::new();
        let mut k: usize = 6;
        while k > 0
            invariant
                cells@.len() == 6,
                k <= 6,
                rev@.len() == 6 - k,
                forall|i: int| 0 <= i < 6 - k ==> #[trigger] rev@[i] == cells@[5 - i],
            decreases k,
        {
            k -= 1;
            rev.push(cells[k]);
        }
        proof {
            assert(rev@ =~= connector_cells_spec(n as int, side, start_row2_col as int, start_row1_col as int,
                end_row1_col as int, end_row2_col as int));
        }
        rev
    }
}

/// Lane positions of two consecutive rows: each lane moves at most one
/// column.
pub open spec fn transition_ok(prev: Seq<usize>, cur: Seq<usize>) -> bool {
    forall|occ: int| 0 <= occ < STRIP_W ==> #[trigger] dist(prev[occ] as int, cur[occ] as int) <= 1
}

/// Whether every lane moves at most one column from `prev` to `cur`.
pub fn is_transition_valid(prev: &[usize; 5], cur: &[usize; 5]) -> (ok: bool)
    ensures
        ok == transition_ok(prev@, cur@),
{
    let mut occ: usize = 0;
    while occ < STRIP_W
        invariant
            occ <= STRIP_W,
            forall|o: int| 0 <= o < occ ==> #[trigger] dist(prev@[o] as int, cur@[o] as int) <= 1,
        decreases STRIP_W - occ,
    {
        if abs_diff(prev[occ], cur[occ]) > 1 {
            return false;
        }
        occ += 1;
    }
    true
}

/// `p` is a permutation of `0..5`.
pub open spec fn is_perm5(p: Seq<usize>) -> bool {
    &&& p.len() == STRIP_W
    &&& forall|k: int| 0 <= k < STRIP_W ==> #[trigger] p[k] < STRIP_W
    &&& forall|a: int, b: int| 0 <= a < b < STRIP_W ==> p[a] != p[b]
}

/// `a` comes before `b` in lexicographic order.
pub open spec fn lex_less(a: Seq<usize>, b: Seq<usize>) -> bool {
    exists|k: int| #![trigger a.subrange(0, k), b.subrange(0, k)]
        0 <= k < a.len() && a.subrange(0, k) == b.subrange(0, k) && a[k] < b[k]
}

/// The first `d` entries of `cur` are distinct lanes, and `used` marks
/// exactly them.
pub open spec fn prefix_ok(cur: Seq<usize>, used: Seq<bool>, d: int) -> bool {
    &&& cur.len() == STRIP_W
    &&& used.len() == STRIP_W
    &&& 0 <= d <= STRIP_W
    &&& forall|k: int| 0 <= k < d ==> #[trigger] cur[k] < STRIP_W
    &&& forall|a: int, b: int| 0 <= a < b < d ==> cur[a] != cur[b]
    &&& forall|v: int| 0 <= v < STRIP_W ==> (#[trigger] used[v] <==> exists|k: int| 0 <= k < d && cur[k] == v)
}

/// The entries of `perms` from `lo` on are permutations that begin with the
/// first `d` entries of `prefix`, in increasing lexicographic order.
pub open spec fn block_ok(perms: Seq<[usize; 5]>, lo: int, prefix: Seq<usize>, d: int) -> bool {
    &&& forall|i: int| lo <= i < perms.len() ==> #[trigger] is_perm5(perms[i]@)
        && perms[i]@.subrange(0, d) == prefix.subrange(0, d)
    &&& forall|i: int, j: int| lo <= i < j < perms.len() ==> lex_less(#[trigger] perms[i]@, #[trigger] perms[j]@)
}

/// Every permutation that begins with the first `d` entries of `prefix`
/// and whose entry at `d` is below `bound` appears in `perms` from `lo` on.
pub open spec fn block_complete(perms: Seq<[usize; 5]>, lo: int, prefix: Seq<usize>, d: int, bound: int) -> bool {
    forall|p: Seq<usize>| #[trigger] is_perm5(p) && p.subrange(0, d) == prefix.subrange(0, d)
        && (d < STRIP_W ==> p[d] < bound)
        ==> exists|i: int| lo <= i < perms.len() && #[trigger] perms[i]@ == p
}

/// Appends, in lexicographic order, every permutation of `0..5` that begins
/// with the first `depth` entries of `cur`.
#[verifier::spinoff_prover]
pub fn dfs_permutations(depth: usize, used: &mut [bool; 5], cur: &mut [usize; 5], perms: &mut Vec<[usize; 5]>)
    requires
        prefix_ok(old(cur)@, old(used)@, depth as int),
    ensures
        final(used)@ == old(used)@,
        final(cur)@.subrange(0, depth as int) == old(cur)@.subrange(0, depth as int),
        final(perms)@.len() >= old(perms)@.len(),
        final(perms)@.subrange(0, old(perms)@.len() as int) == old(perms)@,
        block_ok(final(perms)@, old(perms)@.len() as int, old(cur)@, depth as int),
        block_complete(final(perms)@, old(perms)@.len() as int, old(cur)@, depth as int, STRIP_W as int),
    decreases STRIP_W - depth,
{
    let ghost lo = perms@.len() as int;
    let ghost prefix = cur@;
    if depth == STRIP_W {
        perms.push(*cur);
        proof {
            assert(perms@.subrange(0, lo) =~= old(perms)@);
            assert(cur@.subrange(0, 5) =~= cur@);
            assert(is_perm5(cur@));
            assert forall|p: Seq<usize>| #[trigger] is_perm5(p) && p.subrange(0, depth as int) == prefix.subrange(0, depth as int)
                implies exists|i: int| lo <= i < perms@.len() && #[trigger] perms@[i]@ == p by {
                assert(p =~= p.subrange(0, 5));
                assert(perms@[lo]@ == p);
            }
        }
        return;
    }
    let mut col: usize = 0;
    while col < STRIP_W
        invariant
            depth < STRIP_W,
            prefix_ok(cur@, used@, depth as int),
            used@ == old(used)@,
            cur@.subrange(0, depth as int) == prefix.subrange(0, depth as int),
            prefix == old(cur)@,
            lo == old(perms)@.len(),
            col <= STRIP_W,
            perms@.len() >= lo,
            perms@.subrange(0, lo) == old(perms)@,
            block_ok(perms@, lo, prefix, depth as int),
            forall|i: int| lo <= i < perms@.len() ==> #[trigger] perms@[i]@[depth as int] < col,
            block_complete(perms@, lo, prefix, depth as int, col as int),
        decreases STRIP_W - col,
    {
        if !used[col] {
            let ghost mid = perms@;
            let ghost used0 = used@;
            let ghost cur0 = cur@;
            used[col] = true;
            cur[depth] = col;
            proof {
                assert forall|k: int| 0 <= k < depth implies #[trigger] cur@[k] == cur0[k] && cur0[k] == prefix[k] by {
                    assert(cur0.subrange(0, depth as int)[k] == prefix.subrange(0, depth as int)[k]);
                }
                assert forall|v: int| 0 <= v < STRIP_W implies (#[trigger] used@[v] <==> exists|k: int| 0 <= k < depth + 1 && cur@[k] == v) by {
                    if v == col {
                        assert(cur@[depth as int] == v);
                    } else {
                        assert(used@[v] == used0[v]);
                        if exists|k: int| 0 <= k < depth + 1 && cur@[k] == v {
                            let k = choose|k: int| 0 <= k < depth + 1 && cur@[k] == v;
                            assert(k < depth);
                            assert(cur0[k] == v);
                        }
                        if used0[v] {
                            let k = choose|k: int| 0 <= k < depth && cur0[k] == v;
                            assert(cur@[k] == v);
                        }
                    }
                }
                assert forall|a: int, b: int| 0 <= a < b < depth + 1 implies cur@[a] != cur@[b] by {
                    if b == depth {
                        if cur@[a] == cur@[b] {
                            assert(cur0[a] == col);
                            assert(used0[col as int]);
                        }
                    } else {
                        assert(cur@[a] == cur0[a] && cur@[b] == cur0[b]);
                    }
                }
            }
            let ghost cur1 = cur@;
            dfs_permutations(depth + 1, used, cur, perms);
            used[col] = false;
            proof {
                let child_lo = mid.len() as int;
                assert(used@ =~= used0);
                assert(cur@.subrange(0, depth as int) =~= prefix.subrange(0, depth as int)) by {
                    assert forall|k: int| 0 <= k < depth implies cur@[k] == prefix[k] by {
                        assert(cur@.subrange(0, depth + 1)[k] == cur1.subrange(0, depth + 1)[k]);
                        assert(cur1[k] == cur0[k]);
                        assert(cur0.subrange(0, depth as int)[k] == prefix.subrange(0, depth as int)[k]);
                    }
                }
                assert forall|k: int| 0 <= k < depth implies #[trigger] cur@[k] == cur0[k] by {
                    assert(cur@.subrange(0, depth as int)[k] == prefix.subrange(0, depth as int)[k]);
                    assert(cur0.subrange(0, depth as int)[k] == prefix.subrange(0, depth as int)[k]);
                }
                assert forall|v: int| 0 <= v < STRIP_W implies (#[trigger] used@[v] <==> exists|k: int| 0 <= k < depth && cur@[k] == v) by {
                    if used@[v] {
                        let k = choose|k: int| 0 <= k < depth && cur0[k] == v;
                        assert(cur@[k] == v);
                    }
                    if exists|k: int| 0 <= k < depth && cur@[k] == v {
                        let k = choose|k: int| 0 <= k < depth && cur@[k] == v;
                        assert(cur0[k] == v);
                    }
                }
                assert(prefix_ok(cur@, used@, depth as int));
                assert(block_ok(perms@, child_lo, cur1, depth + 1));
                assert forall|i: int| child_lo <= i < perms@.len() implies #[trigger] perms@[i]@.subrange(0, depth as int)
                    == prefix.subrange(0, depth as int) && perms@[i]@[depth as int] == col by {
                    assert(is_perm5(perms@[i]@));
                    assert(perms@[i]@.subrange(0, depth + 1) == cur1.subrange(0, depth + 1));
                    assert(cur1.subrange(0, depth as int) =~= prefix.subrange(0, depth as int)) by {
                        assert forall|k: int| 0 <= k < depth implies cur1[k] == prefix[k] by {
                            assert(cur1[k] == cur0[k]);
                            assert(cur0.subrange(0, depth as int)[k] == prefix.subrange(0, depth as int)[k]);
                        }
                    }
                    assert(perms@[i]@.subrange(0, depth + 1)[depth as int] == cur1.subrange(0, depth + 1)[depth as int]);
                    assert(perms@[i]@.subrange(0, depth as int) =~= perms@[i]@.subrange(0, depth + 1).subrange(0, depth as int));
                    assert(cur1.subrange(0, depth as int) =~= cur1.subrange(0, depth + 1).subrange(0, depth as int));
                }
                assert forall|i: int| lo <= i < child_lo implies #[trigger] perms@[i] == mid[i] by {
                    assert(perms@.subrange(0, child_lo)[i] == mid[i]);
                }
                assert(perms@.subrange(0, lo) =~= old(perms)@) by {
                    assert forall|i: int| 0 <= i < lo implies perms@[i] == old(perms)@[i] by {
                        assert(perms@.subrange(0, child_lo)[i] == mid[i]);
                        assert(mid.subrange(0, lo)[i] == old(perms)@[i]);
                    }
                }
                assert forall|i: int| lo <= i < perms@.len() implies #[trigger] is_perm5(perms@[i]@)
                    && perms@[i]@.subrange(0, depth as int) == prefix.subrange(0, depth as int) by {
                    if i < child_lo {
                        assert(perms@[i] == mid[i]);
                    }
                }
                assert forall|i: int, j: int| lo <= i < j < perms@.len() implies lex_less(#[trigger] perms@[i]@, #[trigger] perms@[j]@) by {
                    if j < child_lo {
                        assert(perms@[i] == mid[i] && perms@[j] == mid[j]);
                        assert(lex_less(mid[i]@, mid[j]@));
                    } else if i >= child_lo {
                    } else {
                        assert(perms@[i] == mid[i]);
                        assert(mid[i]@[depth as int] < col);
                        assert(is_perm5(mid[i]@));
                        let a = perms@[i]@;
                        let b = perms@[j]@;
                        assert(b.subrange(0, depth as int) == prefix.subrange(0, depth as int));
                        assert(a.subrange(0, depth as int) == b.subrange(0, depth as int));
                        assert(a[depth as int] < b[depth as int]);
                    }
                }
                assert forall|i: int| lo <= i < perms@.len() implies #[trigger] perms@[i]@[depth as int] < col + 1 by {
                    if i < child_lo {
                        assert(perms@[i] == mid[i]);
                        assert(mid[i]@[depth as int] < col);
                    } else {
                        assert(perms@[i]@.subrange(0, depth as int) == prefix.subrange(0, depth as int));
                    }
                }
                assert forall|p: Seq<usize>| #[trigger] is_perm5(p) && p.subrange(0, depth as int) == prefix.subrange(0, depth as int)
                    && (depth < STRIP_W ==> p[depth as int] < col + 1)
                    implies exists|i: int| lo <= i < perms@.len() && #[trigger] perms@[i]@ == p by {
                    if p[depth as int] < col {
                        let i = choose|i: int| lo <= i < mid.len() && #[trigger] mid[i]@ == p;
                        assert(perms@[i] == mid[i]);
                    } else {
                        assert(p.subrange(0, depth + 1) =~= cur1.subrange(0, depth + 1)) by {
                            assert forall|k: int| 0 <= k < depth implies p[k] == cur1[k] by {
                                assert(p.subrange(0, depth as int)[k] == prefix.subrange(0, depth as int)[k]);
                                assert(cur1.subrange(0, depth as int)[k] == cur1[k]);
                            }
                        }
                    }
                }
            }
        } else {
            proof {
                assert forall|i: int| lo <= i < perms@.len() implies #[trigger] perms@[i]@[depth as int] < col + 1 by {}
                assert forall|p: Seq<usize>| #[trigger] is_perm5(p) && p.subrange(0, depth as int) == prefix.subrange(0, depth as int)
                    && (depth < STRIP_W ==> p[depth as int] < col + 1)
                    implies exists|i: int| lo <= i < perms@.len() && #[trigger] perms@[i]@ == p by {
                    if p[depth as int] == col {
                        let k = choose|k: int| 0 <= k < depth && cur@[k] == col;
                        assert(cur@[k] == cur@.subrange(0, depth as int)[k]);
                        assert(p[k] == p.subrange(0, depth as int)[k]);
                        assert(p[k] == p[depth as int]);
                    }
                }
            }
        }
        col += 1;
    }
}

/// Every permutation of the five lanes, in lexicographic order.
pub fn generate_permutations() -> (perms: Vec<[usize; 5]>)
    ensures
        forall|i: int| 0 <= i < perms@.len() ==> #[trigger] is_perm5(perms@[i]@),
        forall|i: int, j: int| 0 <= i < j < perms@.len() ==> lex_less(#[trigger] perms@[i]@, #[trigger] perms@[j]@),
        forall|p: Seq<usize>| #[trigger] is_perm5(p) ==> exists|i: int| 0 <= i < perms@.len() && #[trigger] perms@[i]@ == p,
{
    let mut perms: Vec<[usize; 5]> = Vec::new();
    let mut cur: [usize; 5] = [0usize; 5];
    let mut used: [bool; 5] = [false; 5];
    dfs_permutations(0, &mut used, &mut cur, &mut perms);
    proof {
        assert forall|p: Seq<usize>| #[trigger] is_perm5(p) implies exists|i: int| 0 <= i < perms@.len() && #[trigger] perms@[i]@ == p by {
            assert(p.subrange(0, 0) =~= cur@.subrange(0, 0));
        }
    }
    perms
}

/// For each permutation, the indices of the permutations that may precede
/// it (every lane moving at most one column), in increasing order.
pub fn build_transitions(perms: &Vec<[usize; 5]>) -> (transitions: Vec<Vec<usize>>)
    ensures
        transitions@.len() == perms@.len(),
        forall|c: int| 0 <= c < perms@.len() ==> {
            let t = #[trigger] transitions@[c]@;
            &&& forall|k: int| 0 <= k < t.len() ==> #[trigger] t[k] < perms@.len()
                && transition_ok(perms@[t[k] as int]@, perms@[c]@)
            &&& forall|a: int, b: int| 0 <= a < b < t.len() ==> t[a] < t[b]
            &&& forall|q: int| 0 <= q < perms@.len() && transition_ok(perms@[q]@, perms@[c]@) ==> t.contains(q as usize)
        },
{
    let count = perms.len();
    let mut transitions: Vec<Vec<usize>> = Vec::new();
    let mut cur: usize = 0;
    while cur < count
        invariant
            count == perms@.len(),
            cur <= count,
            transitions@.len() == cur,
            forall|c: int| 0 <= c < cur ==> {
                let t = #[trigger] transitions@[c]@;
                &&& forall|k: int| 0 <= k < t.len() ==> #[trigger] t[k] < perms@.len()
                    && transition_ok(perms@[t[k] as int]@, perms@[c]@)
                &&& forall|a: int, b: int| 0 <= a < b < t.len() ==> t[a] < t[b]
                &&& forall|q: int| 0 <= q < perms@.len() && transition_ok(perms@[q]@, perms@[c]@) ==> t.contains(q as usize)
            },
        decreases count - cur,
    {
        let mut list: Vec<usize> = Vec::new();
        let mut prev: usize = 0;
        while prev < count
            invariant
                count == perms@.len(),
                cur < count,
                prev <= count,
                forall|k: int| 0 <= k < list@.len() ==> #[trigger] list@[k] < prev
                    && transition_ok(perms@[list@[k] as int]@, perms@[cur as int]@),
                forall|a: int, b: int| 0 <= a < b < list@.len() ==> list@[a] < list@[b],
                forall|q: int| 0 <= q < prev && transition_ok(perms@[q]@, perms@[cur as int]@) ==> list@.contains(q as usize),
            decreases count - prev,
        {
            if is_transition_valid(&perms[prev], &perms[cur]) {
                let ghost before = list@;
                list.push(prev);
                proof {
                    assert forall|q: int| 0 <= q < prev + 1 && transition_ok(perms@[q]@, perms@[cur as int]@)
                        implies list@.contains(q as usize) by {
                        if q < prev {
                            let k = choose|k: int| 0 <= k < before.len() && before[k] == q as usize;
                            assert(list@[k] == q as usize);
                        } else {
                            assert(list@[before.len() as int] == q as usize);
                        }
                    }
                }
            }
            prev += 1;
        }
        let ghost old_t = transitions@;
        transitions.push(list);
        proof {
            assert forall|c: int| 0 <= c < cur + 1 implies {
                let t = #[trigger] transitions@[c]@;
                &&& forall|k: int| 0 <= k < t.len() ==> #[trigger] t[k] < perms@.len()
                    && transition_ok(perms@[t[k] as int]@, perms@[c]@)
                &&& forall|a: int, b: int| 0 <= a < b < t.len() ==> t[a] < t[b]
                &&& forall|q: int| 0 <= q < perms@.len() && transition_ok(perms@[q]@, perms@[c]@) ==> t.contains(q as usize)
            } by {
                if c < cur {
                    assert(transitions@[c] == old_t[c]);
                }
            }
        }
        cur += 1;
    }
    transitions
}

/// Every candidate list names slots below `slots`.
pub open spec fn cands_in(cands: Seq<Vec<usize>>, slots: int) -> bool {
    forall|t: int, k: int| 0 <= t < cands.len() && 0 <= k < cands[t]@.len() ==> #[trigger] cands[t]@[k] < slots
}

/// Each slot holds nothing or an item that lists it as a candidate.
pub open spec fn match_valid(cands: Seq<Vec<usize>>, m: Seq<Option<usize>>) -> bool {
    forall|s: int| 0 <= s < m.len() && #[trigger] m[s] is Some ==> m[s]->0 < cands.len() && cands[m[s]->0 as int]@.contains(s as usize)
}

/// Item `t` holds a slot.
pub open spec fn matched(m: Seq<Option<usize>>, t: int) -> bool {
    exists|s: int| 0 <= s < m.len() && m[s] == Some(t as usize)
}

/// Number of unmarked entries among the first `k`.
pub open spec fn count_false(seen: Seq<bool>, k: int) -> nat
    decreases k,
{
    if k <= 0 { 0 } else { count_false(seen, k - 1) + if seen[k - 1] { 0nat } else { 1nat } }
}

proof fn lemma_count_false_mono(a: Seq<bool>, b: Seq<bool>, k: int, i: int)
    requires
        a.len() == b.len(),
        0 <= k <= a.len(),
        forall|j: int| 0 <= j < a.len() && #[trigger] a[j] ==> b[j],
    ensures
        count_false(b, k) <= count_false(a, k),
        0 <= i < k && !a[i] && b[i] ==> count_false(b, k) < count_false(a, k),
    decreases k,
{
    if k > 0 {
        lemma_count_false_mono(a, b, k - 1, i);
    }
}

/// No item holds two slots.
pub open spec fn match_injective(m: Seq<Option<usize>>) -> bool {
    forall|s1: int, s2: int| 0 <= s1 < m.len() && 0 <= s2 < m.len() && s1 != s2 && #[trigger] m[s1] is Some
        ==> m[s1] != #[trigger] m[s2]
}

/// `v` gives every item a slot from its candidate list, no slot twice.
pub open spec fn full_matching(cands: Seq<Vec<usize>>, v: Seq<usize>) -> bool {
    &&& v.len() == cands.len()
    &&& forall|t: int| 0 <= t < v.len() ==> #[trigger] cands[t]@.contains(v[t])
    &&& forall|a: int, b: int| 0 <= a < b < v.len() ==> v[a] != v[b]
}

/// Every candidate of item `t` is marked in `seen`.
pub open spec fn cands_seen(cands: Seq<Vec<usize>>, seen: Seq<bool>, t: int) -> bool {
    forall|k: int| 0 <= k < cands[t]@.len() ==> #[trigger] seen[cands[t]@[k] as int]
}

/// A failed search from an unplaced item leaves a set of marked slots,
/// all held, whose holders and the item itself have all their candidates
/// among them: more items than slots, so no full matching exists.
proof fn lemma_hall_block(cands: Seq<Vec<usize>>, m: Seq<Option<usize>>, seen: Seq<bool>, ti: int, v: Seq<usize>)
    requires
        0 <= ti < cands.len(),
        seen.len() == m.len(),
        cands_in(cands, m.len() as int),
        match_valid(cands, m),
        match_injective(m),
        forall|s: int| 0 <= s < m.len() ==> #[trigger] m[s] != Some(ti as usize),
        cands_seen(cands, seen, ti),
        forall|s: int| 0 <= s < m.len() && #[trigger] seen[s] ==> m[s] is Some && cands_seen(cands, seen, m[s]->0 as int),
    ensures
        !full_matching(cands, v),
{
    if full_matching(cands, v) {
        let len = m.len() as int;
        let sset = Set::new(|s: int| 0 <= s < len && seen[s]);
        vstd::set_lib::lemma_int_range(0, len);
        vstd::set_lib::lemma_len_subset(sset, vstd::set_lib::set_int_range(0, len));
        let g = |s: int| m[s]->0 as int;
        let gset = sset.map(g);
        assert(vstd::relations::injective_on(g, sset)) by {
            assert forall|s1: int, s2: int| sset.contains(s1) && sset.contains(s2) && #[trigger] g(s1) == #[trigger] g(s2)
                implies s1 == s2 by {
                if s1 != s2 {
                    assert(m[s1] is Some && m[s2] is Some);
                    assert(m[s1] != m[s2]);
                }
            }
        }
        vstd::set_lib::lemma_map_size(sset, gset, g);
        assert(!gset.contains(ti)) by {
            if gset.contains(ti) {
                let s = choose|s: int| sset.contains(s) && ti == g(s);
                assert(m[s] is Some);
                assert(m[s] == Some(ti as usize));
            }
        }
        let tset = gset.insert(ti);
        assert(tset.len() == sset.len() + 1);
        let h = |x: int| v[x] as int;
        let hset = tset.map(h);
        assert forall|x: int| #[trigger] tset.contains(x) implies 0 <= x < cands.len() && cands_seen(cands, seen, x) by {
            if x != ti {
                let s = choose|s: int| sset.contains(s) && x == g(s);
                assert(m[s] is Some);
            }
        }
        assert(vstd::relations::injective_on(h, tset)) by {
            assert forall|x1: int, x2: int| tset.contains(x1) && tset.contains(x2) && #[trigger] h(x1) == #[trigger] h(x2)
                implies x1 == x2 by {
                if x1 < x2 {
                    assert(v[x1] != v[x2]);
                } else if x2 < x1 {
                    assert(v[x2] != v[x1]);
                }
            }
        }
        vstd::set_lib::lemma_map_size(tset, hset, h);
        assert(hset.subset_of(sset)) by {
            assert forall|y: int| #[trigger] hset.contains(y) implies sset.contains(y) by {
                let x = choose|x: int| tset.contains(x) && y == h(x);
                assert(0 <= x < cands.len() && cands_seen(cands, seen, x));
                assert(cands[x]@.contains(v[x]));
                let k = choose|k: int| 0 <= k < cands[x]@.len() && cands[x]@[k] == v[x];
                assert(seen[cands[x]@[k] as int]);
                assert(cands[x]@[k] < len);
            }
        }
        vstd::set_lib::lemma_len_subset(hset, sset);
    }
}

/// Looks for an augmenting path from item `ti` through slots not yet
/// marked in `seen` (Kuhn's method). On success `ti` holds one more slot,
/// one that was unmarked, only items already placed or held at unmarked
/// slots move, and no item but `ti` holds two slots. On failure the
/// matching is unchanged, every candidate of `ti` is marked, and every
/// slot it marked is held by an item whose candidates are all marked.
pub fn augment_match(ti: usize, candidates: &Vec<Vec<usize>>, seg_match: &mut Vec<Option<usize>>, seen: &mut Vec<bool>)
    -> (ok: bool)
    requires
        ti < candidates@.len(),
        cands_in(candidates@, old(seg_match)@.len() as int),
        old(seen)@.len() == old(seg_match)@.len(),
        match_valid(candidates@, old(seg_match)@),
        match_injective(old(seg_match)@),
        forall|s: int| 0 <= s < old(seg_match)@.len() && #[trigger] old(seg_match)@[s] == Some(ti) ==> old(seen)@[s],
    ensures
        final(seen)@.len() == old(seen)@.len(),
        final(seg_match)@.len() == old(seg_match)@.len(),
        forall|s: int| 0 <= s < old(seen)@.len() && #[trigger] old(seen)@[s] ==> final(seen)@[s],
        match_valid(candidates@, final(seg_match)@),
        forall|s: int| 0 <= s < old(seg_match)@.len() && #[trigger] final(seg_match)@[s] != old(seg_match)@[s]
            ==> !old(seen)@[s],
        ok ==> exists|s: int| 0 <= s < old(seen)@.len() && !old(seen)@[s] && final(seg_match)@[s] == Some(ti)
            && forall|s2: int| 0 <= s2 < old(seen)@.len() && s2 != s && #[trigger] final(seg_match)@[s2] == Some(ti)
                ==> old(seg_match)@[s2] == Some(ti),
        ok ==> forall|s1: int, s2: int| 0 <= s1 < final(seg_match)@.len() && 0 <= s2 < final(seg_match)@.len() && s1 != s2
            && #[trigger] final(seg_match)@[s1] is Some && final(seg_match)@[s1] == #[trigger] final(seg_match)@[s2]
            ==> final(seg_match)@[s1] == Some(ti),
        ok ==> forall|s: int| 0 <= s < old(seg_match)@.len() && #[trigger] final(seg_match)@[s] is Some
            && final(seg_match)@[s] != old(seg_match)@[s] ==> final(seg_match)@[s] == Some(ti)
                || exists|s2: int| 0 <= s2 < old(seen)@.len() && !old(seen)@[s2] && old(seg_match)@[s2] == final(seg_match)@[s],
        !ok ==> final(seg_match)@ == old(seg_match)@,
        !ok ==> cands_seen(candidates@, final(seen)@, ti as int),
        !ok ==> forall|s: int| 0 <= s < old(seen)@.len() && !old(seen)@[s] && #[trigger] final(seen)@[s]
            ==> old(seg_match)@[s] is Some && cands_seen(candidates@, final(seen)@, old(seg_match)@[s]->0 as int),
        forall|t: int| #[trigger] matched(old(seg_match)@, t) ==> matched(final(seg_match)@, t),
    decreases count_false(old(seen)@, old(seen)@.len() as int),
{
    let ghost seen0 = seen@;
    let ghost m0 = seg_match@;
    let len = candidates[ti].len();
    let mut idx: usize = 0;
    while idx < len
        invariant
            ti < candidates@.len(),
            len == candidates@[ti as int]@.len(),
            idx <= len,
            cands_in(candidates@, m0.len() as int),
            seen@.len() == seen0.len() == m0.len(),
            seen0 == old(seen)@,
            m0 == old(seg_match)@,
            seg_match@ == m0,
            match_valid(candidates@, m0),
            match_injective(m0),
            forall|s: int| 0 <= s < m0.len() && #[trigger] m0[s] == Some(ti) ==> seen0[s],
            forall|s: int| 0 <= s < seen0.len() && #[trigger] seen0[s] ==> seen@[s],
            forall|k: int| 0 <= k < idx ==> #[trigger] seen@[candidates@[ti as int]@[k] as int],
            forall|s: int| 0 <= s < seen0.len() && !seen0[s] && #[trigger] seen@[s]
                ==> m0[s] is Some && cands_seen(candidates@, seen@, m0[s]->0 as int),
        decreases len - idx,
    {
        let si = candidates[ti][idx];
        proof {
            assert(candidates@[ti as int]@[idx as int] < m0.len());
        }
        if !seen[si] {
            let ghost seen_before = seen@;
            seen.set(si, true);
            let ghost seen_mid = seen@;
            proof {
                lemma_count_false_mono(seen0, seen_mid, seen0.len() as int, si as int);
                assert forall|s: int| 0 <= s < seen0.len() && #[trigger] seen0[s] implies seen_mid[s] by {
                    assert(seen_before[s]);
                }
                assert(!seen0[si as int]);
                assert(m0[si as int] != Some(ti));
            }
            let mut free = true;
            let ghost mut held: Option<usize> = None;
            match seg_match[si] {
                None => {},
                Some(t) => {
                    proof {
                        assert(seg_match@[si as int] is Some);
                        held = Some(t);
                        assert forall|s: int| 0 <= s < m0.len() && #[trigger] m0[s] == Some(t) implies seen_mid[s] by {
                            if s != si {
                                assert(m0[si as int] is Some && m0[si as int] != m0[s]);
                            }
                        }
                    }
                    free = augment_match(t, candidates, seg_match, seen);
                },
            }
            let ghost m1 = seg_match@;
            proof {
                assert(seen@.len() == seen0.len() && m1.len() == m0.len());
                assert forall|s: int| 0 <= s < seen0.len() && #[trigger] seen0[s] implies seen@[s] by {
                    assert(seen_mid[s]);
                }
                assert forall|s: int| 0 <= s < m0.len() && #[trigger] m1[s] != m0[s] implies !seen0[s] && s != si by {
                    assert(!seen_mid[s]);
                }
                assert(m1[si as int] == m0[si as int]);
            }
            if free {
                proof {
                    assert(candidates@[ti as int]@.contains(si));
                }
                seg_match.set(si, Some(ti));
                proof {
                    let fm = seg_match@;
                    assert(fm[si as int] == Some(ti));
                    assert forall|t: int| #[trigger] matched(m0, t) implies matched(fm, t) by {
                        if m0[si as int] == Some(t as usize) {
                            let s2 = choose|s2: int| 0 <= s2 < m1.len() && !seen_mid[s2] && m1[s2] == Some(t as usize)
                                && forall|s3: int| 0 <= s3 < seen_mid.len() && s3 != s2 && #[trigger] m1[s3] == Some(t as usize)
                                    ==> m0[s3] == Some(t as usize);
                            assert(s2 != si);
                            assert(fm[s2] == Some(t as usize));
                        } else {
                            let s2 = choose|s2: int| 0 <= s2 < m0.len() && m0[s2] == Some(t as usize);
                            assert(s2 != si);
                            if m1[s2] != m0[s2] {
                                assert(!seen_mid[s2]);
                                assert(matched(m1, t));
                                let s3 = choose|s3: int| 0 <= s3 < m1.len() && m1[s3] == Some(t as usize);
                                if s3 == si {
                                    assert(m1[si as int] == m0[si as int]);
                                }
                                assert(fm[s3] == Some(t as usize));
                            } else {
                                assert(fm[s2] == Some(t as usize));
                            }
                        }
                    }
                    assert forall|s: int| 0 <= s < m0.len() && #[trigger] fm[s] != m0[s] implies !seen0[s] by {
                        if s != si {
                            assert(fm[s] == m1[s]);
                        }
                    }
                    // slots of `held` (the item that was at `si`) in m1: `si` and at most one new one
                    assert forall|s: int| 0 <= s < m1.len() && s != si && #[trigger] m1[s] == Some(ti) implies m0[s] == Some(ti) by {
                        if m1[s] != m0[s] {
                            match held {
                                Some(t) => {
                                    assert(m1[s] is Some && m1[s] != m0[s]);
                                    if m1[s] == Some(t) {
                                        assert(m0[si as int] == Some(t));
                                        assert(t != ti);
                                    } else {
                                        let s2 = choose|s2: int| 0 <= s2 < seen_mid.len() && !seen_mid[s2] && m0[s2] == m1[s];
                                        assert(m0[s2] == Some(ti));
                                        assert(seen0[s2]);
                                    }
                                },
                                None => {},
                            }
                        }
                    }
                    assert forall|s2: int| 0 <= s2 < seen0.len() && s2 != si && #[trigger] fm[s2] == Some(ti)
                        implies m0[s2] == Some(ti) by {
                        assert(fm[s2] == m1[s2]);
                    }
                    assert forall|s1: int, s2: int| 0 <= s1 < fm.len() && 0 <= s2 < fm.len() && s1 != s2
                        && #[trigger] fm[s1] is Some && fm[s1] == #[trigger] fm[s2] implies fm[s1] == Some(ti) by {
                        if s1 != si && s2 != si && fm[s1] != Some(ti) {
                            assert(fm[s1] == m1[s1] && fm[s2] == m1[s2]);
                            match held {
                                Some(t) => {
                                    if m1[s1] != Some(t) {
                                        assert(m1[s1] == m0[s1]) by {
                                            if m1[s1] != m0[s1] {
                                                assert(m1[s1] != Some(t));
                                            }
                                        }
                                        assert(m1[s1] == m0[s1]);
                                        assert(m1[s2] == m0[s2]);
                                        assert(m0[s1] != m0[s2]);
                                    } else {
                                        let sn = choose|sn: int| 0 <= sn < m1.len() && !seen_mid[sn] && m1[sn] == Some(t)
                                            && forall|s3: int| 0 <= s3 < seen_mid.len() && s3 != sn && #[trigger] m1[s3] == Some(t)
                                                ==> m0[s3] == Some(t);
                                        if s1 != sn {
                                            assert(m0[s1] == Some(t));
                                            assert(m0[si as int] == Some(t));
                                            assert(m0[si as int] != m0[s1]);
                                        } else {
                                            assert(m0[s2] == Some(t));
                                            assert(m0[si as int] != m0[s2]);
                                        }
                                    }
                                },
                                None => {
                                    assert(m1 == m0);
                                    assert(m0[s1] != m0[s2]);
                                },
                            }
                        }
                    }
                    assert forall|s: int| 0 <= s < m0.len() && #[trigger] fm[s] is Some && fm[s] != m0[s]
                        implies fm[s] == Some(ti) || exists|s2: int| 0 <= s2 < seen0.len() && !seen0[s2] && m0[s2] == fm[s] by {
                        if s != si {
                            assert(fm[s] == m1[s]);
                            match held {
                                Some(t) => {
                                    if m1[s] == Some(t) {
                                        assert(!seen0[si as int] && m0[si as int] == fm[s]);
                                    } else {
                                        let s2 = choose|s2: int| 0 <= s2 < seen_mid.len() && !seen_mid[s2] && m0[s2] == m1[s];
                                        assert(!seen0[s2]);
                                    }
                                },
                                None => {},
                            }
                        }
                    }
                    assert(!seen0[si as int]);
                }
                return true;
            }
            proof {
                // the item at `si` found no path: its candidates are all marked now
                match held {
                    Some(t) => {
                        assert(m1 == m0);
                        assert(cands_seen(candidates@, seen@, t as int));
                        assert forall|s: int| 0 <= s < seen0.len() && !seen0[s] && #[trigger] seen@[s]
                            implies m0[s] is Some && cands_seen(candidates@, seen@, m0[s]->0 as int) by {
                            if s == si {
                                assert(m0[si as int] == Some(t));
                            } else if !seen_mid[s] {
                            } else {
                                assert(seen_before[s]);
                                let x = m0[s]->0 as int;
                                assert(cands_seen(candidates@, seen_before, x));
                                assert forall|k: int| 0 <= k < candidates@[x]@.len() implies #[trigger] seen@[candidates@[x]@[k] as int] by {
                                    assert(seen_before[candidates@[x]@[k] as int]);
                                    assert(seen_mid[candidates@[x]@[k] as int]);
                                }
                            }
                        }
                    },
                    None => {},
                }
                assert forall|k: int| 0 <= k < idx + 1 implies #[trigger] seen@[candidates@[ti as int]@[k] as int] by {
                    if k < idx {
                        assert(seen_before[candidates@[ti as int]@[k] as int]);
                        assert(seen_mid[candidates@[ti as int]@[k] as int]);
                    } else {
                        assert(seen_mid[si as int]);
                    }
                }
            }
        } else {
            proof {
                assert(seen@[candidates@[ti as int]@[idx as int] as int]);
            }
        }
        idx += 1;
    }
    false
}

/// Item `a` comes before item `b`: fewer candidates, or as many and a
/// lower index.
pub open spec fn count_before(counts: Seq<usize>, a: int, b: int) -> bool {
    counts[a] < counts[b] || (counts[a] == counts[b] && a < b)
}

/// The items `0..counts.len()` ordered by their counts, ties by index (as a
/// stable sort by count leaves them).
pub fn order_by_count(counts: &Vec<usize>) -> (order: Vec<usize>)
    requires
        forall|t: int| 0 <= t < counts@.len() ==> #[trigger] counts@[t] <= 1_000_000,
    ensures
        forall|i: int| 0 <= i < order@.len() ==> #[trigger] order@[i] < counts@.len(),
        forall|a: int, b: int| 0 <= a < b < order@.len() ==> count_before(counts@, #[trigger] order@[a] as int, #[trigger] order@[b] as int),
        forall|t: int| 0 <= t < counts@.len() ==> #[trigger] order@.contains(t as usize),
{
    let k = counts.len();
    let mut max_count: usize = 0;
    let mut t: usize = 0;
    while t < k
        invariant
            k == counts@.len(),
            t <= k,
            max_count <= 1_000_000,
            forall|x: int| 0 <= x < counts@.len() ==> #[trigger] counts@[x] <= 1_000_000,
            forall|x: int| 0 <= x < t ==> #[trigger] counts@[x] <= max_count,
        decreases k - t,
    {
        if counts[t] > max_count {
            max_count = counts[t];
        }
        t += 1;
    }
    let mut order: Vec<usize> = Vec::new();
    let mut c: usize = 0;
    while c <= max_count
        invariant
            k == counts@.len(),
            max_count <= 1_000_000,
            c <= max_count + 1,
            forall|x: int| 0 <= x < k ==> #[trigger] counts@[x] <= max_count,
            forall|i: int| 0 <= i < order@.len() ==> #[trigger] order@[i] < k && counts@[order@[i] as int] < c,
            forall|a: int, b: int| 0 <= a < b < order@.len() ==> count_before(counts@, #[trigger] order@[a] as int, #[trigger] order@[b] as int),
            forall|x: int| 0 <= x < k && counts@[x] < c ==> #[trigger] order@.contains(x as usize),
        decreases max_count + 1 - c,
    {
        let mut t: usize = 0;
        while t < k
            invariant
                k == counts@.len(),
                c <= max_count,
                t <= k,
                forall|i: int| 0 <= i < order@.len() ==> #[trigger] order@[i] < k
                    && (counts@[order@[i] as int] < c || (counts@[order@[i] as int] == c && order@[i] < t)),
                forall|a: int, b: int| 0 <= a < b < order@.len() ==> count_before(counts@, #[trigger] order@[a] as int, #[trigger] order@[b] as int),
                forall|x: int| 0 <= x < k && (counts@[x] < c || (counts@[x] == c && x < t)) ==> #[trigger] order@.contains(x as usize),
            decreases k - t,
        {
            if counts[t] == c {
                let ghost before = order@;
                order.push(t);
                proof {
                    assert forall|x: int| 0 <= x < k && (counts@[x] < c || (counts@[x] == c && x < t + 1))
                        implies #[trigger] order@.contains(x as usize) by {
                        if x == t {
                            assert(order@[before.len() as int] == x as usize);
                        } else {
                            assert(before.contains(x as usize));
                            let i = choose|i: int| 0 <= i < before.len() && before[i] == x as usize;
                            assert(order@[i] == x as usize);
                        }
                    }
                    assert forall|a: int, b: int| 0 <= a < b < order@.len() implies count_before(counts@, #[trigger] order@[a] as int, #[trigger] order@[b] as int) by {
                        if b == before.len() {
                            assert(order@[a] == before[a]);
                        } else {
                            assert(order@[a] == before[a] && order@[b] == before[b]);
                        }
                    }
                }
            }
            t += 1;
        }
        c += 1;
    }
    order
}

/// Gives every item a slot from its candidate list, no slot twice, by
/// augmenting paths taken item by item in `order_by_count` order; `None`
/// when one of them finds no augmenting path.
fn match_items(candidates: &Vec<Vec<usize>>, slot_count: usize) -> (res: Option<Vec<usize>>)
    requires
        cands_in(candidates@, slot_count as int),
        slot_count <= 1_000_000,
        forall|t: int| 0 <= t < candidates@.len() ==> #[trigger] candidates@[t]@.len() <= slot_count,
    ensures
        res matches Some(v) ==> {
            &&& v@.len() == candidates@.len()
            &&& forall|t: int| 0 <= t < v@.len() ==> #[trigger] v@[t] < slot_count && candidates@[t]@.contains(v@[t])
            &&& forall|a: int, b: int| 0 <= a < b < v@.len() ==> v@[a] != v@[b]
        },
        (exists|v: Seq<usize>| #[trigger] full_matching(candidates@, v)) ==> res is Some,
{
    let count = candidates.len();
    let mut counts: Vec<usize> = Vec::new();
    let mut t: usize = 0;
    while t < count
        invariant
            count == candidates@.len(),
            slot_count <= 1_000_000,
            forall|x: int| 0 <= x < candidates@.len() ==> #[trigger] candidates@[x]@.len() <= slot_count,
            t <= count,
            counts@.len() == t,
            forall|x: int| 0 <= x < t ==> #[trigger] counts@[x] <= 1_000_000,
        decreases count - t,
    {
        counts.push(candidates[t].len());
        t += 1;
    }
    let order = order_by_count(&counts);
    let mut seg_match: Vec<Option<usize>> = vec![None; slot_count];
    proof {
        assert forall|s: int| 0 <= s < seg_match@.len() && #[trigger] seg_match@[s] is Some implies false by {}
        assert forall|a: int, b: int| 0 <= a < b < order@.len() implies order@[a] != order@[b] by {
            assert(count_before(counts@, order@[a] as int, order@[b] as int));
        }
    }
    let mut i: usize = 0;
    while i < order.len()
        invariant
            count == candidates@.len(),
            cands_in(candidates@, slot_count as int),
            seg_match@.len() == slot_count,
            forall|j: int| 0 <= j < order@.len() ==> #[trigger] order@[j] < count,
            match_valid(candidates@, seg_match@),
            i <= order@.len(),
            match_injective(seg_match@),
            forall|a: int, b: int| 0 <= a < b < order@.len() ==> order@[a] != order@[b],
            forall|s: int| 0 <= s < seg_match@.len() && #[trigger] seg_match@[s] is Some
                ==> exists|j: int| 0 <= j < i && order@[j] == seg_match@[s]->0,
            forall|j: int| 0 <= j < i ==> #[trigger] matched(seg_match@, order@[j] as int),
        decreases order@.len() - i,
    {
        let ti = order[i];
        let mut seen: Vec<bool> = vec![false; slot_count];
        let ghost m0 = seg_match@;
        proof {
            assert forall|s: int| 0 <= s < m0.len() && #[trigger] m0[s] == Some(ti) implies seen@[s] by {
                let j = choose|j: int| 0 <= j < i && order@[j] == m0[s]->0;
                assert(order@[j] != order@[i as int]);
            }
        }
        if !augment_match(ti, candidates, &mut seg_match, &mut seen) {
            proof {
                assert forall|s: int| 0 <= s < seg_match@.len() implies #[trigger] seg_match@[s] != Some(ti as usize) by {
                    if seg_match@[s] == Some(ti as usize) {
                        let j = choose|j: int| 0 <= j < i && order@[j] == seg_match@[s]->0;
                        assert(order@[j] != order@[i as int]);
                    }
                }
                assert forall|v: Seq<usize>| !#[trigger] full_matching(candidates@, v) by {
                    lemma_hall_block(candidates@, seg_match@, seen@, ti as int, v);
                }
            }
            return None;
        }
        proof {
            let m1 = seg_match@;
            let sn = choose|sn: int| 0 <= sn < m0.len() && !false && m1[sn] == Some(ti)
                && forall|s2: int| 0 <= s2 < m0.len() && s2 != sn && #[trigger] m1[s2] == Some(ti) ==> m0[s2] == Some(ti);
            assert forall|s: int| 0 <= s < m0.len() implies #[trigger] m0[s] != Some(ti) by {
                if m0[s] == Some(ti) {
                    let j = choose|j: int| 0 <= j < i && order@[j] == m0[s]->0;
                    assert(order@[j] != order@[i as int]);
                }
            }
            assert(match_injective(m1)) by {
                assert forall|s1: int, s2: int| 0 <= s1 < m1.len() && 0 <= s2 < m1.len() && s1 != s2 && #[trigger] m1[s1] is Some
                    implies m1[s1] != #[trigger] m1[s2] by {
                    if m1[s1] == m1[s2] {
                        assert(m1[s1] == Some(ti));
                        if s1 != sn {
                            assert(m0[s1] == Some(ti));
                        } else {
                            assert(m0[s2] == Some(ti));
                        }
                    }
                }
            }
            assert forall|s: int| 0 <= s < m1.len() && #[trigger] m1[s] is Some
                implies exists|j: int| 0 <= j < i + 1 && order@[j] == m1[s]->0 by {
                if m1[s] == Some(ti) {
                    assert(order@[i as int] == m1[s]->0);
                } else if m1[s] != m0[s] {
                    let s2 = choose|s2: int| 0 <= s2 < m0.len() && !false && m0[s2] == m1[s];
                    assert(m0[s2] is Some);
                    let j = choose|j: int| 0 <= j < i && order@[j] == m0[s2]->0;
                } else {
                    let j = choose|j: int| 0 <= j < i && order@[j] == m0[s]->0;
                }
            }
            assert forall|j: int| 0 <= j < i + 1 implies #[trigger] matched(m1, order@[j] as int) by {
                if j == i {
                    assert(m1[sn] == Some(ti));
                } else {
                    assert(matched(m0, order@[j] as int));
                }
            }
        }
        i += 1;
    }
    proof {
        assert forall|t: int| 0 <= t < count implies #[trigger] matched(seg_match@, t) by {
            assert(order@.contains(t as usize));
            let j = choose|j: int| 0 <= j < order@.len() && order@[j] == t as usize;
            assert(matched(seg_match@, order@[j] as int));
        }
    }
    let mut task_to_seg: Vec<usize> = vec![usize::MAX; count];
    let mut si: usize = 0;
    while si < slot_count
        invariant
            count == candidates@.len(),
            cands_in(candidates@, slot_count as int),
            seg_match@.len() == slot_count,
            match_valid(candidates@, seg_match@),
            task_to_seg@.len() == count,
            si <= slot_count,
            forall|t: int| 0 <= t < count ==> #[trigger] task_to_seg@[t] == usize::MAX || (task_to_seg@[t] < si
                && seg_match@[task_to_seg@[t] as int] == Some(t as usize)),
            forall|s: int| 0 <= s < si && #[trigger] seg_match@[s] is Some ==> task_to_seg@[seg_match@[s]->0 as int] != usize::MAX,
            forall|t: int| 0 <= t < count ==> #[trigger] matched(seg_match@, t),
        decreases slot_count - si,
    {
        match seg_match[si] {
            Some(t) => {
                proof {
                    assert(seg_match@[si as int] is Some);
                }
                task_to_seg.set(t, si);
            },
            None => {},
        }
        si += 1;
    }
    proof {
        assert forall|x: int| 0 <= x < count implies #[trigger] task_to_seg@[x] != usize::MAX by {
            assert(matched(seg_match@, x));
            let s = choose|s: int| 0 <= s < seg_match@.len() && seg_match@[s] == Some(x as usize);
            assert(seg_match@[s] is Some);
        }
    }
    let mut t: usize = 0;
    while t < count
        invariant
            count == candidates@.len(),
            task_to_seg@.len() == count,
            t <= count,
            forall|x: int| 0 <= x < t ==> #[trigger] task_to_seg@[x] != usize::MAX,
            forall|x: int| 0 <= x < count ==> #[trigger] task_to_seg@[x] != usize::MAX,
        decreases count - t,
    {
        if task_to_seg[t] == usize::MAX {
            return None;
        }
        t += 1;
    }
    proof {
        assert forall|x: int| 0 <= x < count implies #[trigger] task_to_seg@[x] < slot_count
            && candidates@[x]@.contains(task_to_seg@[x]) by {
            let s = task_to_seg@[x] as int;
            assert(seg_match@[s] is Some);
        }
        assert forall|a: int, b: int| 0 <= a < b < count implies task_to_seg@[a] != task_to_seg@[b] by {
            assert(task_to_seg@[a] != usize::MAX && task_to_seg@[b] != usize::MAX);
        }
    }
    Some(task_to_seg)
}

/// Segment `seg` can carry the connector of `task`: one of its columns is in
/// reach of the strip it leaves and the other of the strip it enters.
pub open spec fn segment_usable(n: int, task: Task, seg: Segment) -> bool {
    (row1_range(seg.c0 as int, task.from_strip as int, n) && row1_range(seg.c1 as int, task.to_strip as int, n))
        || (row1_range(seg.c1 as int, task.from_strip as int, n) && row1_range(seg.c0 as int, task.to_strip as int, n))
}

/// Whether `seg` can carry the connector of `task`.
pub fn task_can_use_segment_row1(n: usize, task: &Task, seg: Segment) -> (ok: bool)
    requires
        1 <= n <= 1000,
        task.from_strip < n,
        task.to_strip < n,
    ensures
        ok == segment_usable(n as int, *task, seg),
{
    (in_row1_range(seg.c0, task.from_strip, n) && in_row1_range(seg.c1, task.to_strip, n))
        || (in_row1_range(seg.c1, task.from_strip, n) && in_row1_range(seg.c0, task.to_strip, n))
}

/// Segment `si` may serve `task`: it is not held back and it can carry the connector.
pub open spec fn segment_fits(n: int, task: Task, segments: Seq<Segment>, excluded_seg: Option<usize>, si: int) -> bool {
    0 <= si < segments.len() && excluded_seg != Some(si as usize) && segment_usable(n, task, segments[si])
}

/// No segment fits `task`.
pub open spec fn no_fitting_segment(n: int, task: Task, segments: Seq<Segment>, excluded_seg: Option<usize>) -> bool {
    forall|si: int| !#[trigger] segment_fits(n, task, segments, excluded_seg, si)
}

/// `v` gives every task a different segment that fits it.
pub open spec fn segment_assignment(n: int, tasks: Seq<Task>, segments: Seq<Segment>, excluded_seg: Option<usize>, v: Seq<usize>) -> bool {
    &&& v.len() == tasks.len()
    &&& forall|t: int| 0 <= t < v.len() ==> #[trigger] segment_fits(n, tasks[t], segments, excluded_seg, v[t] as int)
    &&& forall|a: int, b: int| 0 <= a < b < v.len() ==> v[a] != v[b]
}

/// A different segment for each task, each one that fits it (not
/// `excluded_seg`, and able to carry the connector). `None` when a task has
/// no fitting segment, or when the augmenting-path search finds no full
/// matching, which happens only when there is no such assignment at all.
pub fn build_segment_matching(n: usize, tasks: &Vec<Task>, segments: &Vec<Segment>, excluded_seg: Option<usize>)
    -> (res: Option<Vec<usize>>)
    requires
        1 <= n <= 1000,
        segments@.len() <= 1000,
        forall|t: int| 0 <= t < tasks@.len() ==> #[trigger] tasks@[t].from_strip < n && tasks@[t].to_strip < n,
    ensures
        (exists|t: int| 0 <= t < tasks@.len() && no_fitting_segment(n as int, #[trigger] tasks@[t], segments@, excluded_seg))
            ==> res is None,
        res matches Some(v) ==> {
            &&& v@.len() == tasks@.len()
            &&& forall|t: int| 0 <= t < v@.len() ==> #[trigger] segment_fits(n as int, tasks@[t], segments@, excluded_seg, v@[t] as int)
            &&& forall|a: int, b: int| 0 <= a < b < v@.len() ==> v@[a] != v@[b]
        },
        (exists|v: Seq<usize>| #[trigger] segment_assignment(n as int, tasks@, segments@, excluded_seg, v)) ==> res is Some,
{
    let count = tasks.len();
    let seg_count = segments.len();
    let mut candidates: Vec<Vec<usize>> = Vec::new();
    let mut ti: usize = 0;
    while ti < count
        invariant
            1 <= n <= 1000,
            count == tasks@.len(),
            seg_count == segments@.len() <= 1000,
            forall|t: int| 0 <= t < tasks@.len() ==> #[trigger] tasks@[t].from_strip < n && tasks@[t].to_strip < n,
            ti <= count,
            candidates@.len() == ti,
            forall|t: int| 0 <= t < ti ==> #[trigger] candidates@[t]@.len() <= seg_count,
            forall|t: int, k: int| 0 <= t < ti && 0 <= k < candidates@[t]@.len() ==>
                segment_fits(n as int, tasks@[t], segments@, excluded_seg, #[trigger] candidates@[t]@[k] as int),
            forall|t: int| 0 <= t < ti ==> #[trigger] candidates@[t]@.len() > 0,
            forall|t: int, x: int| 0 <= t < ti && segment_fits(n as int, tasks@[t], segments@, excluded_seg, x)
                ==> #[trigger] candidates@[t]@.contains(x as usize),
        decreases count - ti,
    {
        let mut list: Vec<usize> = Vec::new();
        let mut si: usize = 0;
        while si < seg_count
            invariant
                1 <= n <= 1000,
                ti < count == tasks@.len(),
                seg_count == segments@.len(),
                tasks@[ti as int].from_strip < n && tasks@[ti as int].to_strip < n,
                si <= seg_count,
                list@.len() <= si,
                forall|k: int| 0 <= k < list@.len() ==> segment_fits(n as int, tasks@[ti as int], segments@, excluded_seg, #[trigger] list@[k] as int),
                forall|x: int| 0 <= x < si && segment_fits(n as int, tasks@[ti as int], segments@, excluded_seg, x) ==> #[trigger] list@.contains(x as usize),
            decreases seg_count - si,
        {
            let usable = match excluded_seg {
                Some(e) => e != si && task_can_use_segment_row1(n, &tasks[ti], segments[si]),
                None => task_can_use_segment_row1(n, &tasks[ti], segments[si]),
            };
            if usable {
                let ghost before = list@;
                list.push(si);
                proof {
                    assert forall|x: int| 0 <= x < si + 1 && segment_fits(n as int, tasks@[ti as int], segments@, excluded_seg, x)
                        implies #[trigger] list@.contains(x as usize) by {
                        if x == si {
                            assert(list@[before.len() as int] == x as usize);
                        } else {
                            assert(before.contains(x as usize));
                            let i = choose|i: int| 0 <= i < before.len() && before[i] == x as usize;
                            assert(list@[i] == x as usize);
                        }
                    }
                }
            }
            si += 1;
        }
        if list.len() == 0 {
            proof {
                assert forall|si: int| !#[trigger] segment_fits(n as int, tasks@[ti as int], segments@, excluded_seg, si) by {
                    if segment_fits(n as int, tasks@[ti as int], segments@, excluded_seg, si) {
                        assert(list@.contains(si as usize));
                    }
                }
                assert forall|v: Seq<usize>| !#[trigger] segment_assignment(n as int, tasks@, segments@, excluded_seg, v) by {
                    if segment_assignment(n as int, tasks@, segments@, excluded_seg, v) {
                        assert(segment_fits(n as int, tasks@[ti as int], segments@, excluded_seg, v[ti as int] as int));
                    }
                }
            }
            return None;
        }
        let ghost before = candidates@;
        candidates.push(list);
        proof {
            assert forall|t: int, k: int| 0 <= t < ti + 1 && 0 <= k < candidates@[t]@.len() implies
                segment_fits(n as int, tasks@[t], segments@, excluded_seg, #[trigger] candidates@[t]@[k] as int) by {
                if t < ti {
                    assert(candidates@[t] == before[t]);
                }
            }
            assert forall|t: int| 0 <= t < ti + 1 implies #[trigger] candidates@[t]@.len() <= seg_count && candidates@[t]@.len() > 0 by {
                if t < ti {
                    assert(candidates@[t] == before[t]);
                }
            }
            assert forall|t: int, x: int| 0 <= t < ti + 1 && segment_fits(n as int, tasks@[t], segments@, excluded_seg, x)
                implies #[trigger] candidates@[t]@.contains(x as usize) by {
                if t < ti {
                    assert(candidates@[t] == before[t]);
                } else {
                    assert(0 <= x < seg_count);
                }
            }
        }
        ti += 1;
    }
    proof {
        assert(cands_in(candidates@, seg_count as int)) by {
            assert forall|t: int, k: int| 0 <= t < candidates@.len() && 0 <= k < candidates@[t]@.len()
                implies #[trigger] candidates@[t]@[k] < seg_count by {
                assert(segment_fits(n as int, tasks@[t], segments@, excluded_seg, candidates@[t]@[k] as int));
            }
        }
        assert(forall|t: int| 0 <= t < count ==> #[trigger] candidates@[t]@.len() > 0);
    }
    let res = match_items(&candidates, seg_count);
    proof {
        if res is Some {
            let v = res->0;
            assert forall|t: int| 0 <= t < v@.len() implies #[trigger] segment_fits(n as int, tasks@[t], segments@, excluded_seg, v@[t] as int) by {
                assert(candidates@[t]@.contains(v@[t]));
                let k = choose|k: int| 0 <= k < candidates@[t]@.len() && candidates@[t]@[k] == v@[t];
                assert(segment_fits(n as int, tasks@[t], segments@, excluded_seg, candidates@[t]@[k] as int));
            }
        }
        if exists|v: Seq<usize>| #[trigger] segment_assignment(n as int, tasks@, segments@, excluded_seg, v) {
            let v = choose|v: Seq<usize>| #[trigger] segment_assignment(n as int, tasks@, segments@, excluded_seg, v);
            assert forall|t: int| 0 <= t < v.len() implies #[trigger] candidates@[t]@.contains(v[t]) by {
                let x = v[t] as int;
                assert(segment_fits(n as int, tasks@[t], segments@, excluded_seg, x));
                assert(candidates@[t]@.contains(x as usize));
            }
            assert(full_matching(candidates@, v));
        }
        assert forall|t: int| 0 <= t < tasks@.len() implies !no_fitting_segment(n as int, #[trigger] tasks@[t], segments@, excluded_seg) by {
            assert(candidates@[t]@.len() > 0);
            assert(segment_fits(n as int, tasks@[t], segments@, excluded_seg, candidates@[t]@[0] as int));
        }
    }
    res
}

/// Column `col` may serve an event at middle-row column `ep` of strip
/// `strip` (if any): within one column of `ep`, and within one column of the
/// strip.
pub open spec fn port_fits(n: int, strip: Option<usize>, ep: int, col: int) -> bool {
    &&& 0 <= col < n
    &&& dist(col, ep) <= 1
    &&& strip matches Some(s) ==> strip_range(col, s as int, n)
}

/// No column fits an event of `strip` at middle-row column `ep`.
pub open spec fn no_fitting_port(n: int, strip: Option<usize>, ep: int) -> bool {
    forall|col: int| !#[trigger] port_fits(n, strip, ep, col)
}

/// `v` gives every event a different column that fits it.
pub open spec fn port_assignment(n: int, event_strip: Seq<Option<usize>>, event_ep: Seq<usize>, v: Seq<usize>) -> bool {
    &&& v.len() == event_strip.len()
    &&& forall|e: int| 0 <= e < v.len() ==> #[trigger] port_fits(n, event_strip[e], event_ep[e] as int, v[e] as int)
    &&& forall|a: int, b: int| 0 <= a < b < v.len() ==> v[a] != v[b]
}

/// A different inner-row column for each event, each within one column of
/// the event's middle-row column and, when the event belongs to a strip,
/// within one column of that strip. `None` when an event has no such
/// column, or when the augmenting-path search finds no full matching, which
/// happens only when there is no such assignment at all.
pub fn build_row2_matching(n: usize, event_strip: &Vec<Option<usize>>, event_ep: &Vec<usize>) -> (res: Option<Vec<usize>>)
    requires
        1 <= n <= 1000,
        event_ep@.len() == event_strip@.len(),
        forall|e: int| 0 <= e < event_strip@.len() && #[trigger] event_strip@[e] is Some ==> event_strip@[e]->0 < n,
    ensures
        (exists|e: int| 0 <= e < event_strip@.len() && no_fitting_port(n as int, #[trigger] event_strip@[e], event_ep@[e] as int))
            ==> res is None,
        res matches Some(v) ==> {
            &&& v@.len() == event_strip@.len()
            &&& forall|e: int| 0 <= e < v@.len() ==> #[trigger] port_fits(n as int, event_strip@[e], event_ep@[e] as int, v@[e] as int)
            &&& forall|a: int, b: int| 0 <= a < b < v@.len() ==> v@[a] != v@[b]
        },
        (exists|v: Seq<usize>| #[trigger] port_assignment(n as int, event_strip@, event_ep@, v)) ==> res is Some,
{
    let count = event_strip.len();
    let mut candidates: Vec<Vec<usize>> = Vec::new();
    let mut ei: usize = 0;
    while ei < count
        invariant
            1 <= n <= 1000,
            count == event_strip@.len() == event_ep@.len(),
            forall|e: int| 0 <= e < event_strip@.len() && #[trigger] event_strip@[e] is Some ==> event_strip@[e]->0 < n,
            ei <= count,
            candidates@.len() == ei,
            forall|e: int| 0 <= e < ei ==> #[trigger] candidates@[e]@.len() <= n && candidates@[e]@.len() > 0,
            forall|e: int, k: int| 0 <= e < ei && 0 <= k < candidates@[e]@.len() ==>
                port_fits(n as int, event_strip@[e], event_ep@[e] as int, #[trigger] candidates@[e]@[k] as int),
            forall|e: int, x: int| 0 <= e < ei && port_fits(n as int, event_strip@[e], event_ep@[e] as int, x)
                ==> #[trigger] candidates@[e]@.contains(x as usize),
        decreases count - ei,
    {
        let mut list: Vec<usize> = Vec::new();
        let mut col: usize = 0;
        while col < n
            invariant
                1 <= n <= 1000,
                ei < count == event_strip@.len() == event_ep@.len(),
                event_strip@[ei as int] is Some ==> event_strip@[ei as int]->0 < n,
                col <= n,
                list@.len() <= col,
                forall|k: int| 0 <= k < list@.len() ==> port_fits(n as int, event_strip@[ei as int], event_ep@[ei as int] as int, #[trigger] list@[k] as int),
                forall|x: int| 0 <= x < col && port_fits(n as int, event_strip@[ei as int], event_ep@[ei as int] as int, x) ==> #[trigger] list@.contains(x as usize),
            decreases n - col,
        {
            let near = abs_diff(col, event_ep[ei]) <= 1;
            let fits = near && match event_strip[ei] {
                Some(strip) => in_strip_range(col, strip, n),
                None => true,
            };
            if fits {
                let ghost before = list@;
                list.push(col);
                proof {
                    assert forall|x: int| 0 <= x < col + 1 && port_fits(n as int, event_strip@[ei as int], event_ep@[ei as int] as int, x)
                        implies #[trigger] list@.contains(x as usize) by {
                        if x == col {
                            assert(list@[before.len() as int] == x as usize);
                        } else {
                            assert(before.contains(x as usize));
                            let i = choose|i: int| 0 <= i < before.len() && before[i] == x as usize;
                            assert(list@[i] == x as usize);
                        }
                    }
                }
            }
            col += 1;
        }
        if list.len() == 0 {
            proof {
                assert forall|c: int| !#[trigger] port_fits(n as int, event_strip@[ei as int], event_ep@[ei as int] as int, c) by {
                    if port_fits(n as int, event_strip@[ei as int], event_ep@[ei as int] as int, c) {
                        assert(list@.contains(c as usize));
                    }
                }
                assert forall|v: Seq<usize>| !#[trigger] port_assignment(n as int, event_strip@, event_ep@, v) by {
                    if port_assignment(n as int, event_strip@, event_ep@, v) {
                        assert(port_fits(n as int, event_strip@[ei as int], event_ep@[ei as int] as int, v[ei as int] as int));
                    }
                }
            }
            return None;
        }
        let ghost before = candidates@;
        candidates.push(list);
        proof {
            assert forall|e: int, k: int| 0 <= e < ei + 1 && 0 <= k < candidates@[e]@.len() implies
                port_fits(n as int, event_strip@[e], event_ep@[e] as int, #[trigger] candidates@[e]@[k] as int) by {
                if e < ei {
                    assert(candidates@[e] == before[e]);
                }
            }
            assert forall|e: int| 0 <= e < ei + 1 implies #[trigger] candidates@[e]@.len() <= n && candidates@[e]@.len() > 0 by {
                if e < ei {
                    assert(candidates@[e] == before[e]);
                }
            }
            assert forall|e: int, x: int| 0 <= e < ei + 1 && port_fits(n as int, event_strip@[e], event_ep@[e] as int, x)
                implies #[trigger] candidates@[e]@.contains(x as usize) by {
                if e < ei {
                    assert(candidates@[e] == before[e]);
                }
            }
        }
        ei += 1;
    }
    proof {
        assert(cands_in(candidates@, n as int)) by {
            assert forall|e: int, k: int| 0 <= e < candidates@.len() && 0 <= k < candidates@[e]@.len()
                implies #[trigger] candidates@[e]@[k] < n by {
                assert(port_fits(n as int, event_strip@[e], event_ep@[e] as int, candidates@[e]@[k] as int));
            }
        }
    }
    proof {
        if exists|v: Seq<usize>| #[trigger] port_assignment(n as int, event_strip@, event_ep@, v) {
            let v = choose|v: Seq<usize>| #[trigger] port_assignment(n as int, event_strip@, event_ep@, v);
            assert forall|e: int| 0 <= e < v.len() implies #[trigger] candidates@[e]@.contains(v[e]) by {
                let x = v[e] as int;
                assert(port_fits(n as int, event_strip@[e], event_ep@[e] as int, x));
                assert(candidates@[e]@.contains(x as usize));
            }
            assert(full_matching(candidates@, v));
        }
    }
    let res = match_items(&candidates, n);
    proof {
        if res is Some {
            let v = res->0;
            assert forall|e: int| 0 <= e < v@.len() implies #[trigger] port_fits(n as int, event_strip@[e], event_ep@[e] as int, v@[e] as int) by {
                assert(candidates@[e]@.contains(v@[e]));
                let k = choose|k: int| 0 <= k < candidates@[e]@.len() && candidates@[e]@[k] == v@[e];
                assert(port_fits(n as int, event_strip@[e], event_ep@[e] as int, candidates@[e]@[k] as int));
            }
        }
        assert forall|e: int| 0 <= e < event_strip@.len() implies !no_fitting_port(n as int, #[trigger] event_strip@[e], event_ep@[e] as int) by {
            assert(candidates@[e]@.len() > 0);
            assert(port_fits(n as int, event_strip@[e], event_ep@[e] as int, candidates@[e]@[0] as int));
        }
    }
    res
}

/// `cells` is a margin path of `side` from inner-row column `from_port` to
/// inner-row column `to_port`: six distinct board cells, each a king move
/// from the one before, the four inner ones in the middle and outer rows.
pub open spec fn margin_path(n: int, side: Side, cells: Seq<usize>, from_port: int, to_port: int) -> bool {
    let (r2, r1, r0) = margin_rows(n, side);
    &&& cells.len() == 6
    &&& cells[0] == r2 * n + from_port
    &&& cells[5] == r2 * n + to_port
    &&& forall|k: int| 0 <= k < 6 ==> #[trigger] cells[k] < n * n
    &&& cells.no_duplicates()
    &&& crate::grid::is_king_walk(n, cells)
    &&& forall|k: int| 1 <= k < 5 ==> row_of(n, #[trigger] cells[k] as int) == r1 || row_of(n, cells[k] as int) == r0
}

proof fn lemma_margin_cells(n: int, side: Side, fp: int, a: int, b: int, tp: int)
    requires
        6 <= n,
        n * n <= MAX_CELLS,
        0 <= fp < n,
        0 <= a < n,
        0 <= b < n,
        0 <= tp < n,
    ensures
        ({
            let c = connector_cells_spec(n, side, fp, a, b, tp);
            let (r2, r1, r0) = margin_rows(n, side);
            &&& c.len() == 6
            &&& row_of(n, c[0] as int) == r2 && col_of(n, c[0] as int) == fp
            &&& row_of(n, c[1] as int) == r1 && col_of(n, c[1] as int) == a
            &&& row_of(n, c[2] as int) == r0 && col_of(n, c[2] as int) == a
            &&& row_of(n, c[3] as int) == r0 && col_of(n, c[3] as int) == b
            &&& row_of(n, c[4] as int) == r1 && col_of(n, c[4] as int) == b
            &&& row_of(n, c[5] as int) == r2 && col_of(n, c[5] as int) == tp
            &&& forall|k: int| 0 <= k < 6 ==> #[trigger] c[k] < n * n
            &&& r2 != r1 && r1 != r0 && r2 != r0
        }),
{
    let (r2, r1, r0) = margin_rows(n, side);
    crate::grid::lemma_cell_coords(n, r2, fp);
    crate::grid::lemma_cell_coords(n, r1, a);
    crate::grid::lemma_cell_coords(n, r0, a);
    crate::grid::lemma_cell_coords(n, r0, b);
    crate::grid::lemma_cell_coords(n, r1, b);
    crate::grid::lemma_cell_coords(n, r2, tp);
    crate::grid::lemma_cell_bound(n, r2, fp);
    crate::grid::lemma_cell_bound(n, r1, a);
    crate::grid::lemma_cell_bound(n, r0, a);
    crate::grid::lemma_cell_bound(n, r0, b);
    crate::grid::lemma_cell_bound(n, r1, b);
    crate::grid::lemma_cell_bound(n, r2, tp);
    assert(0 <= r2 * n + fp);
    assert(0 <= r1 * n + a);
    assert(0 <= r0 * n + a) by (nonlinear_arith) requires 0 <= r0, 0 <= a, 0 < n;
    assert(0 <= r0 * n + b) by (nonlinear_arith) requires 0 <= r0, 0 <= b, 0 < n;
    assert(0 <= r1 * n + b) by (nonlinear_arith) requires 0 <= r1, 0 <= b, 0 < n;
    assert(0 <= r2 * n + tp) by (nonlinear_arith) requires 0 <= r2, 0 <= tp, 0 < n;
    assert(0 <= r2 * n + fp) by (nonlinear_arith) requires 0 <= r2, 0 <= fp, 0 < n;
    assert(0 <= r1 * n + a) by (nonlinear_arith) requires 0 <= r1, 0 <= a, 0 < n;
}

/// The six cells of `connector_cells_spec` form a margin path when the
/// ports are within one column of the middle columns, the middle columns
/// are adjacent and the ports differ.
proof fn lemma_margin_path(n: int, side: Side, fp: int, a: int, b: int, tp: int)
    requires
        6 <= n,
        n * n <= MAX_CELLS,
        0 <= fp < n,
        0 <= a < n,
        0 <= b < n,
        0 <= tp < n,
        dist(fp, a) <= 1,
        dist(tp, b) <= 1,
        dist(a, b) == 1,
        fp != tp,
    ensures
        margin_path(n, side, connector_cells_spec(n, side, fp, a, b, tp), fp, tp),
{
    lemma_margin_cells(n, side, fp, a, b, tp);
    let c = connector_cells_spec(n, side, fp, a, b, tp);
    let (r2, r1, r0) = margin_rows(n, side);
    assert(c.no_duplicates()) by {
        assert forall|x: int, y: int| 0 <= x < y < 6 implies c[x] != c[y] by {
            if c[x] == c[y] {
                assert(row_of(n, c[x] as int) == row_of(n, c[y] as int));
                assert(col_of(n, c[x] as int) == col_of(n, c[y] as int));
            }
        }
    }
    assert forall|k: int| 0 <= k < c.len() - 1 implies #[trigger] adjacent(n, c[k] as int, c[k + 1] as int) by {
        assert(k == 0 || k == 1 || k == 2 || k == 3 || k == 4);
    }
    assert forall|k: int| 1 <= k < 5 implies row_of(n, #[trigger] c[k] as int) == r1 || row_of(n, c[k] as int) == r0 by {
        assert(k == 1 || k == 2 || k == 3 || k == 4);
    }
    assert(r2 * n + fp < n * n) by {
        crate::grid::lemma_cell_bound(n, r2, fp);
    }
    assert(r2 * n + tp < n * n) by {
        crate::grid::lemma_cell_bound(n, r2, tp);
    }
    assert(0 <= r2 * n + fp && 0 <= r2 * n + tp) by (nonlinear_arith) requires 0 <= r2, 0 <= fp, 0 <= tp, 0 < n;
    assert(c[0] == r2 * n + fp);
    assert(c[5] == r2 * n + tp);
    assert(crate::grid::is_king_walk(n, c));
}

/// Two margin paths of the same side with four different ports and four
/// different middle columns share no cell.
proof fn lemma_margin_paths_apart(n: int, side: Side, fp1: int, a1: int, b1: int, tp1: int, fp2: int, a2: int, b2: int, tp2: int)
    requires
        6 <= n,
        n * n <= MAX_CELLS,
        0 <= fp1 < n && 0 <= a1 < n && 0 <= b1 < n && 0 <= tp1 < n,
        0 <= fp2 < n && 0 <= a2 < n && 0 <= b2 < n && 0 <= tp2 < n,
        fp1 != fp2 && fp1 != tp2 && tp1 != fp2 && tp1 != tp2,
        a1 != a2 && a1 != b2 && b1 != a2 && b1 != b2,
    ensures
        forall|x: int, y: int| 0 <= x < 6 && 0 <= y < 6 ==>
            #[trigger] connector_cells_spec(n, side, fp1, a1, b1, tp1)[x] != #[trigger] connector_cells_spec(n, side, fp2, a2, b2, tp2)[y],
{
    lemma_margin_cells(n, side, fp1, a1, b1, tp1);
    lemma_margin_cells(n, side, fp2, a2, b2, tp2);
    let c1 = connector_cells_spec(n, side, fp1, a1, b1, tp1);
    let c2 = connector_cells_spec(n, side, fp2, a2, b2, tp2);
    assert forall|x: int, y: int| 0 <= x < 6 && 0 <= y < 6 implies #[trigger] c1[x] != #[trigger] c2[y] by {
        if c1[x] == c2[y] {
            assert(row_of(n, c1[x] as int) == row_of(n, c2[y] as int));
            assert(col_of(n, c1[x] as int) == col_of(n, c2[y] as int));
            assert(x == 0 || x == 1 || x == 2 || x == 3 || x == 4 || x == 5);
            assert(y == 0 || y == 1 || y == 2 || y == 3 || y == 4 || y == 5);
        }
    }
}

/// The margin that a connector after a pass uses: the bottom one after a
/// downward pass, the top one after an upward pass.
pub open spec fn connector_side(down: bool) -> Side {
    if down { Side::Bottom } else { Side::Top }
}

/// The passes among the first `k` whose connector lies in `side`, in order.
pub open spec fn side_passes(dirs: Seq<bool>, side: Side, k: int) -> Seq<usize>
    decreases k,
{
    if k <= 0 {
        Seq::empty()
    } else if connector_side(dirs[k - 1]) == side {
        side_passes(dirs, side, k - 1).push((k - 1) as usize)
    } else {
        side_passes(dirs, side, k - 1)
    }
}

proof fn lemma_side_passes(dirs: Seq<bool>, side: Side, k: int)
    requires
        0 <= k <= usize::MAX,
    ensures
        forall|i: int| 0 <= i < side_passes(dirs, side, k).len() ==> #[trigger] side_passes(dirs, side, k)[i] < k
            && connector_side(dirs[side_passes(dirs, side, k)[i] as int]) == side,
        forall|i: int, j: int| 0 <= i < j < side_passes(dirs, side, k).len() ==> side_passes(dirs, side, k)[i] < side_passes(dirs, side, k)[j],
        forall|p: int| 0 <= p < k && connector_side(dirs[p]) == side ==> side_passes(dirs, side, k).contains(p as usize),
    decreases k,
{
    if k > 0 {
        lemma_side_passes(dirs, side, k - 1);
        let prev = side_passes(dirs, side, k - 1);
        if connector_side(dirs[k - 1]) == side {
            let cur = prev.push((k - 1) as usize);
            assert(side_passes(dirs, side, k) == cur);
            assert forall|i: int| 0 <= i < cur.len() implies #[trigger] cur[i] < k
                && connector_side(dirs[cur[i] as int]) == side by {
                if i < prev.len() {
                    assert(cur[i] == prev[i]);
                }
            }
            assert forall|i: int, j: int| 0 <= i < j < cur.len() implies cur[i] < cur[j] by {
                if j < prev.len() {
                    assert(cur[i] == prev[i] && cur[j] == prev[j]);
                } else {
                    assert(cur[i] == prev[i]);
                }
            }
            assert forall|p: int| 0 <= p < k && connector_side(dirs[p]) == side implies cur.contains(p as usize) by {
                if p < k - 1 {
                    assert(prev.contains(p as usize));
                    let i = choose|i: int| 0 <= i < prev.len() && prev[i] == p as usize;
                    assert(cur[i] == p as usize);
                } else {
                    assert(cur[prev.len() as int] == p as usize);
                }
            }
        } else {
            assert(side_passes(dirs, side, k) == prev);
        }
    }
}

/// The plan of a margin is sound: one connector for each pass whose
/// connector lies in `side` (in pass order), each a margin path from a port
/// within one column of the strip it leaves to a port within one column of
/// the strip it enters; in the margin where the route ends also a closing
/// margin path from a port within one column of the last strip; no cell
/// twice over all these paths; two ports per path, `n` in all, so that the
/// paths cover the margin.
pub open spec fn plan_ok(n: int, side: Side, strip_seq: Seq<usize>, dirs: Seq<bool>, needs_suffix: bool, plan: SidePlan) -> bool {
    let passes = side_passes(dirs, side, strip_seq.len() - 1);
    let cs = plan.connectors@;
    &&& cs.len() == passes.len()
    &&& forall|i: int| 0 <= i < cs.len() ==> {
        let c = #[trigger] cs[i];
        &&& c.p == passes[i]
        &&& c.from_port < n && c.to_port < n
        &&& strip_range(c.from_port as int, strip_seq[c.p as int] as int, n)
        &&& strip_range(c.to_port as int, strip_seq[c.p + 1] as int, n)
        &&& margin_path(n, side, c.cells@, c.from_port as int, c.to_port as int)
    }
    &&& forall|i: int, j: int, x: int, y: int| 0 <= i < cs.len() && 0 <= j < cs.len() && i != j && 0 <= x < 6 && 0 <= y < 6
        ==> #[trigger] cs[i].cells@[x] != #[trigger] cs[j].cells@[y]
    &&& needs_suffix ==> {
        &&& plan.suffix_start_port matches Some(sp) && sp < n
            && strip_range(sp as int, strip_seq.last() as int, n)
            && margin_path(n, side, plan.suffix_cells@, sp as int, col_of(n, plan.suffix_cells@[5] as int))
        &&& forall|i: int, x: int, y: int| 0 <= i < cs.len() && 0 <= x < 6 && 0 <= y < 6
            ==> #[trigger] cs[i].cells@[x] != #[trigger] plan.suffix_cells@[y]
    }
    &&& !needs_suffix ==> plan.suffix_start_port is None && plan.suffix_cells@.len() == 0
    &&& 2 * (cs.len() + if needs_suffix { 1int } else { 0int }) == n
}

/// The segments of the outer margin rows: segment `k` is columns `2k`, `2k + 1`.
pub open spec fn segments_ok(n: int, segments: Seq<Segment>) -> bool {
    &&& segments.len() == n / 2
    &&& forall|k: int| 0 <= k < segments.len() ==> #[trigger] segments[k] == (Segment { c0: (2 * k) as usize, c1: (2 * k + 1) as usize })
}

/// A plan for the connectors of `tasks` in `side` (with a closing path
/// through segment `excluded_suffix` when it is given) is sound, as in
/// `plan_ok`.
pub open spec fn attempt_ok(n: int, side: Side, tasks: Seq<Task>, excluded_suffix: Option<usize>, last_strip: int, plan: SidePlan) -> bool {
    let cs = plan.connectors@;
    &&& cs.len() == tasks.len()
    &&& forall|i: int| 0 <= i < cs.len() ==> {
        let c = #[trigger] cs[i];
        &&& c.p == tasks[i].p
        &&& c.from_port < n && c.to_port < n
        &&& strip_range(c.from_port as int, tasks[i].from_strip as int, n)
        &&& strip_range(c.to_port as int, tasks[i].to_strip as int, n)
        &&& margin_path(n, side, c.cells@, c.from_port as int, c.to_port as int)
    }
    &&& forall|i: int, j: int, x: int, y: int| 0 <= i < cs.len() && 0 <= j < cs.len() && i != j && 0 <= x < 6 && 0 <= y < 6
        ==> #[trigger] cs[i].cells@[x] != #[trigger] cs[j].cells@[y]
    &&& excluded_suffix is Some ==> {
        &&& plan.suffix_start_port matches Some(sp) && sp < n && strip_range(sp as int, last_strip, n)
            && margin_path(n, side, plan.suffix_cells@, sp as int, col_of(n, plan.suffix_cells@[5] as int))
        &&& forall|i: int, x: int, y: int| 0 <= i < cs.len() && 0 <= x < 6 && 0 <= y < 6
            ==> #[trigger] cs[i].cells@[x] != #[trigger] plan.suffix_cells@[y]
    }
    &&& excluded_suffix is None ==> plan.suffix_start_port is None && plan.suffix_cells@.len() == 0
    &&& 2 * (cs.len() + if excluded_suffix is Some { 1int } else { 0int }) == n
}

/// The middle-row ends of connector `t` on its assigned segment `v[t]`.
pub open spec fn task_orientation(n: int, tasks: Seq<Task>, segments: Seq<Segment>, v: Seq<usize>, t: int) -> Option<(usize, usize)> {
    connector_orientation(n, segments[v[t] as int], tasks[t].from_strip as int, tasks[t].to_strip as int)
}

/// The number of path ends an attempt places: two per connector, two more
/// for the closing path when a segment is kept for it.
pub open spec fn event_count(tasks: Seq<Task>, excluded_suffix: Option<usize>) -> int {
    2 * tasks.len() + if excluded_suffix is Some { 2int } else { 0int }
}

/// The strip of each path end of an attempt (`None` for the closing path's
/// far end).
pub open spec fn attempt_event_strips(tasks: Seq<Task>, excluded_suffix: Option<usize>, last_strip: int) -> Seq<Option<usize>> {
    Seq::new(event_count(tasks, excluded_suffix) as nat, |e: int|
        if e < 2 * tasks.len() {
            Some(if e % 2 == 0 { tasks[e / 2].from_strip } else { tasks[e / 2].to_strip })
        } else if e == 2 * tasks.len() {
            Some(last_strip as usize)
        } else {
            None
        })
}

/// The middle-row column of each path end of an attempt with segments `v`.
pub open spec fn attempt_event_eps(n: int, tasks: Seq<Task>, segments: Seq<Segment>, excluded_suffix: Option<usize>,
    last_strip: int, v: Seq<usize>) -> Seq<usize> {
    Seq::new(event_count(tasks, excluded_suffix) as nat, |e: int|
        if e < 2 * tasks.len() {
            let o = task_orientation(n, tasks, segments, v, e / 2)->0;
            if e % 2 == 0 { o.0 } else { o.1 }
        } else {
            let o = suffix_orientation(n, segments[excluded_suffix->0 as int], last_strip)->0;
            if e == 2 * tasks.len() { o.0 } else { o.1 }
        })
}

/// With segments `v`, an attempt gets through: every connector and the
/// closing path can be oriented, the path ends number `n`, and they can be
/// given different inner-row columns.
pub open spec fn attempt_viable(n: int, tasks: Seq<Task>, segments: Seq<Segment>, excluded_suffix: Option<usize>,
    last_strip: int, v: Seq<usize>) -> bool {
    &&& forall|t: int| 0 <= t < tasks.len() ==> #[trigger] task_orientation(n, tasks, segments, v, t) is Some
    &&& excluded_suffix matches Some(si) ==> suffix_orientation(n, segments[si as int], last_strip) is Some
    &&& event_count(tasks, excluded_suffix) == n
    &&& exists|p: Seq<usize>| #[trigger] port_assignment(n, attempt_event_strips(tasks, excluded_suffix, last_strip),
        attempt_event_eps(n, tasks, segments, excluded_suffix, last_strip, v), p)
}

/// An attempt cannot get through: no segment assignment exists, or one
/// that the search may take does not get through.
pub open spec fn attempt_blocked(n: int, tasks: Seq<Task>, segments: Seq<Segment>, excluded_suffix: Option<usize>,
    last_strip: int) -> bool {
    ||| !(exists|v: Seq<usize>| #[trigger] segment_assignment(n, tasks, segments, excluded_suffix, v))
    ||| exists|v: Seq<usize>| #[trigger] segment_assignment(n, tasks, segments, excluded_suffix, v)
        && !attempt_viable(n, tasks, segments, excluded_suffix, last_strip, v)
}

/// One attempt at planning a margin: a segment for each connector (not
/// `excluded_suffix`, which is kept for the closing path when given), each
/// connector oriented towards its strips, then a different inner-row port
/// for every end of every path. `None` when a step finds nothing, or when
/// the paths would not use exactly `n` ports.
#[verifier::spinoff_prover]
fn plan_with_suffix_segment(n: usize, side: Side, tasks: &Vec<Task>, segments: &Vec<Segment>, excluded_suffix: Option<usize>,
    last_strip: usize) -> (res: Option<SidePlan>)
    requires
        2 * MARGIN <= n <= 1000,
        n * n <= MAX_CELLS,
        segments_ok(n as int, segments@),
        forall|t: int| 0 <= t < tasks@.len() ==> #[trigger] tasks@[t].from_strip < n && tasks@[t].to_strip < n,
        last_strip < n,
        excluded_suffix matches Some(si) ==> si < n / 2,
    ensures
        res matches Some(plan) ==> attempt_ok(n as int, side, tasks@, excluded_suffix, last_strip as int, plan),
        (exists|t: int| 0 <= t < tasks@.len() && no_fitting_segment(n as int, #[trigger] tasks@[t], segments@, excluded_suffix))
            ==> res is None,
        res is None ==> attempt_blocked(n as int, tasks@, segments@, excluded_suffix, last_strip as int),
{
    let task_to_seg = match build_segment_matching(n, tasks, segments, excluded_suffix) {
        Some(v) => v,
        None => return None,
    };
    let count = tasks.len();
    let mut from_eps: Vec<usize> = Vec::new();
    let mut to_eps: Vec<usize> = Vec::new();
    let mut ti: usize = 0;
    while ti < count
        invariant
            2 * MARGIN <= n <= 1000,
            segments_ok(n as int, segments@),
            count == tasks@.len() == task_to_seg@.len(),
            forall|t: int| 0 <= t < tasks@.len() ==> #[trigger] tasks@[t].from_strip < n && tasks@[t].to_strip < n,
            forall|t: int| 0 <= t < task_to_seg@.len() ==> #[trigger] segment_fits(n as int, tasks@[t], segments@, excluded_suffix, task_to_seg@[t] as int),
            ti <= count,
            from_eps@.len() == ti,
            to_eps@.len() == ti,
            segment_assignment(n as int, tasks@, segments@, excluded_suffix, task_to_seg@),
            forall|t: int| 0 <= t < ti ==> #[trigger] connector_orientation(n as int, segments@[task_to_seg@[t] as int],
                tasks@[t].from_strip as int, tasks@[t].to_strip as int) == Some((from_eps@[t], to_eps@[t])),
        decreases count - ti,
    {
        proof {
            assert(segment_fits(n as int, tasks@[ti as int], segments@, excluded_suffix, task_to_seg@[ti as int] as int));
        }
        let seg = segments[task_to_seg[ti]];
        match choose_connector_orientation_row1(n, seg, tasks[ti].from_strip, tasks[ti].to_strip) {
            Some((a, b)) => {
                from_eps.push(a);
                to_eps.push(b);
            },
            None => {
                proof {
                    assert(task_orientation(n as int, tasks@, segments@, task_to_seg@, ti as int) is None);
                    assert(!attempt_viable(n as int, tasks@, segments@, excluded_suffix, last_strip as int, task_to_seg@));
                }
                return None;
            },
        }
        ti += 1;
    }
    let mut suffix_ep: Option<(usize, usize)> = None;
    match excluded_suffix {
        Some(si) => {
            suffix_ep = choose_suffix_orientation_row1(n, segments[si], last_strip);
            if suffix_ep.is_none() {
                proof {
                    assert(!attempt_viable(n as int, tasks@, segments@, excluded_suffix, last_strip as int, task_to_seg@));
                }
                return None;
            }
        },
        None => {},
    }
    assert(suffix_ep_ok(n as int, segments@, excluded_suffix, last_strip as int, suffix_ep));
    let mut event_strip: Vec<Option<usize>> = Vec::new();
    let mut event_ep: Vec<usize> = Vec::new();
    let mut i: usize = 0;
    while i < count
        invariant
            count == tasks@.len() == from_eps@.len() == to_eps@.len(),
            forall|t: int| 0 <= t < tasks@.len() ==> #[trigger] tasks@[t].from_strip < n && tasks@[t].to_strip < n,
            i <= count,
            event_strip@.len() == 2 * i,
            event_ep@.len() == 2 * i,
            forall|j: int| 0 <= j < i ==> #[trigger] event_strip@[2 * j] == Some(tasks@[j].from_strip)
                && event_ep@[2 * j] == from_eps@[j] && event_strip@[2 * j + 1] == Some(tasks@[j].to_strip)
                && event_ep@[2 * j + 1] == to_eps@[j],
            forall|e: int| 0 <= e < event_strip@.len() && #[trigger] event_strip@[e] is Some ==> event_strip@[e]->0 < n,
            last_strip < n,
            suffix_ep_ok(n as int, segments@, excluded_suffix, last_strip as int, suffix_ep),
        decreases count - i,
    {
        let ghost s0 = event_strip@;
        let ghost e0 = event_ep@;
        event_strip.push(Some(tasks[i].from_strip));
        event_ep.push(from_eps[i]);
        event_strip.push(Some(tasks[i].to_strip));
        event_ep.push(to_eps[i]);
        proof {
            assert forall|j: int| 0 <= j < i + 1 implies #[trigger] event_strip@[2 * j] == Some(tasks@[j].from_strip)
                && event_ep@[2 * j] == from_eps@[j] && event_strip@[2 * j + 1] == Some(tasks@[j].to_strip)
                && event_ep@[2 * j + 1] == to_eps@[j] by {
                if j < i {
                    assert(event_strip@[2 * j] == s0[2 * j] && event_strip@[2 * j + 1] == s0[2 * j + 1]);
                    assert(event_ep@[2 * j] == e0[2 * j] && event_ep@[2 * j + 1] == e0[2 * j + 1]);
                }
            }
            assert forall|e: int| 0 <= e < event_strip@.len() && #[trigger] event_strip@[e] is Some implies event_strip@[e]->0 < n by {
                if e < s0.len() {
                    assert(event_strip@[e] == s0[e]);
                }
            }
        }
        i += 1;
    }
    match suffix_ep {
        Some((a, b)) => {
            let ghost s0 = event_strip@;
            let ghost e0 = event_ep@;
            event_strip.push(Some(last_strip));
            event_ep.push(a);
            event_strip.push(None);
            event_ep.push(b);
            proof {
                assert forall|j: int| 0 <= j < count implies #[trigger] event_strip@[2 * j] == Some(tasks@[j].from_strip)
                    && event_ep@[2 * j] == from_eps@[j] && event_strip@[2 * j + 1] == Some(tasks@[j].to_strip)
                    && event_ep@[2 * j + 1] == to_eps@[j] by {
                    assert(event_strip@[2 * j] == s0[2 * j] && event_strip@[2 * j + 1] == s0[2 * j + 1]);
                    assert(event_ep@[2 * j] == e0[2 * j] && event_ep@[2 * j + 1] == e0[2 * j + 1]);
                }
                assert forall|e: int| 0 <= e < event_strip@.len() && #[trigger] event_strip@[e] is Some implies event_strip@[e]->0 < n by {
                    if e < s0.len() {
                        assert(event_strip@[e] == s0[e]);
                    }
                }
            }
        },
        None => {},
    }
    assert(events_tail_ok(event_strip@, event_ep@, count as int, last_strip, suffix_ep));
    assert(forall|j: int| 0 <= j < count ==> #[trigger] event_strip@[2 * j] == Some(tasks@[j].from_strip)
        && event_ep@[2 * j] == from_eps@[j] && event_strip@[2 * j + 1] == Some(tasks@[j].to_strip)
        && event_ep@[2 * j + 1] == to_eps@[j]);
    proof {
        assert(event_strip@.len() == event_count(tasks@, excluded_suffix));
    }
    if event_strip.len() != n {
        proof {
            assert(!attempt_viable(n as int, tasks@, segments@, excluded_suffix, last_strip as int, task_to_seg@));
        }
        return None;
    }
    proof {
        let es = attempt_event_strips(tasks@, excluded_suffix, last_strip as int);
        let ee = attempt_event_eps(n as int, tasks@, segments@, excluded_suffix, last_strip as int, task_to_seg@);
        assert forall|e: int| 0 <= e < event_strip@.len() implies event_strip@[e] == es[e] && event_ep@[e] == ee[e] by {
            if e < 2 * count {
                let j = e / 2;
                assert(0 <= j < count && (e == 2 * j || e == 2 * j + 1));
                assert(event_strip@[2 * j] == Some(tasks@[j].from_strip) && event_ep@[2 * j] == from_eps@[j]
                    && event_strip@[2 * j + 1] == Some(tasks@[j].to_strip) && event_ep@[2 * j + 1] == to_eps@[j]);
                assert(task_orientation(n as int, tasks@, segments@, task_to_seg@, j) == Some((from_eps@[j], to_eps@[j])));
            }
        }
        assert(event_strip@ =~= es);
        assert(event_ep@ =~= ee);
    }
    let event_to_row2 = match build_row2_matching(n, &event_strip, &event_ep) {
        Some(v) => v,
        None => {
            proof {
                assert(!attempt_viable(n as int, tasks@, segments@, excluded_suffix, last_strip as int, task_to_seg@));
            }
            return None;
        },
    };
    let ghost ports = event_to_row2@;
    let mut connectors: Vec<ConnectorPlan> = Vec::new();
    let mut idx: usize = 0;
    while idx < count
        invariant
            2 * MARGIN <= n <= 1000,
            n * n <= MAX_CELLS,
            segments_ok(n as int, segments@),
            count == tasks@.len() == from_eps@.len() == to_eps@.len() == task_to_seg@.len(),
            2 * count <= event_strip@.len(),
            ports == event_to_row2@,
            ports.len() == event_strip@.len() == n,
            forall|e: int| 0 <= e < ports.len() ==> #[trigger] port_fits(n as int, event_strip@[e], event_ep@[e] as int, ports[e] as int),
            forall|t: int| 0 <= t < task_to_seg@.len() ==> #[trigger] segment_fits(n as int, tasks@[t], segments@, excluded_suffix, task_to_seg@[t] as int),
            forall|a: int, b: int| 0 <= a < b < task_to_seg@.len() ==> task_to_seg@[a] != task_to_seg@[b],
            forall|a: int, b: int| 0 <= a < b < ports.len() ==> ports[a] != ports[b],
            suffix_ep_ok(n as int, segments@, excluded_suffix, last_strip as int, suffix_ep),
            events_tail_ok(event_strip@, event_ep@, count as int, last_strip, suffix_ep),
            forall|t: int| 0 <= t < count ==> #[trigger] connector_orientation(n as int, segments@[task_to_seg@[t] as int],
                tasks@[t].from_strip as int, tasks@[t].to_strip as int) == Some((from_eps@[t], to_eps@[t])),
            forall|j: int| 0 <= j < count ==> #[trigger] event_strip@[2 * j] == Some(tasks@[j].from_strip)
                && event_ep@[2 * j] == from_eps@[j] && event_strip@[2 * j + 1] == Some(tasks@[j].to_strip)
                && event_ep@[2 * j + 1] == to_eps@[j],
            idx <= count,
            connectors@.len() == idx,
            forall|j: int| 0 <= j < idx ==> {
                let c = #[trigger] connectors@[j];
                &&& c.p == tasks@[j].p
                &&& c.from_port == ports[2 * j]
                &&& c.to_port == ports[2 * j + 1]
                &&& c.cells@ == connector_cells_spec(n as int, side, ports[2 * j] as int, from_eps@[j] as int,
                    to_eps@[j] as int, ports[2 * j + 1] as int)
            },
        decreases count - idx,
    {
        let from_row2 = event_to_row2[2 * idx];
        let to_row2 = event_to_row2[2 * idx + 1];
        proof {
            assert(port_fits(n as int, event_strip@[2 * idx as int], event_ep@[2 * idx as int] as int, ports[2 * idx as int] as int));
            assert(port_fits(n as int, event_strip@[2 * idx + 1], event_ep@[2 * idx + 1] as int, ports[2 * idx + 1] as int));
            assert(event_strip@[2 * idx as int] == Some(tasks@[idx as int].from_strip));
            assert(segment_fits(n as int, tasks@[idx as int], segments@, excluded_suffix, task_to_seg@[idx as int] as int));
            assert(connector_orientation(n as int, segments@[task_to_seg@[idx as int] as int],
                tasks@[idx as int].from_strip as int, tasks@[idx as int].to_strip as int) == Some((from_eps@[idx as int], to_eps@[idx as int])));
        }
        let cells = build_connector_cells(n, side, from_row2, from_eps[idx], to_eps[idx], to_row2);
        connectors.push(ConnectorPlan { p: tasks[idx].p, from_port: from_row2, to_port: to_row2, cells });
        idx += 1;
    }
    let mut suffix_cells: Vec<usize> = Vec::new();
    let mut suffix_start_port: Option<usize> = None;
    match suffix_ep {
        Some((a, b)) => {
            let start_row2 = event_to_row2[2 * count];
            let end_row2 = event_to_row2[2 * count + 1];
            proof {
                assert(port_fits(n as int, event_strip@[2 * count as int], event_ep@[2 * count as int] as int, ports[2 * count as int] as int));
                assert(port_fits(n as int, event_strip@[2 * count + 1], event_ep@[2 * count + 1] as int, ports[2 * count + 1] as int));
            }
            suffix_cells = build_connector_cells(n, side, start_row2, a, b, end_row2);
            suffix_start_port = Some(start_row2);
        },
        None => {},
    }
    let plan = SidePlan { suffix_cells, suffix_start_port, connectors };
    proof {
        lemma_attempt_ok(n as int, side, tasks@, segments@, excluded_suffix, last_strip as int, task_to_seg@,
            from_eps@, to_eps@, suffix_ep, event_strip@, event_ep@, ports, plan);
    }
    Some(plan)
}

/// The closing path's orientation was looked up when a segment is kept for it.
pub open spec fn suffix_ep_ok(n: int, segments: Seq<Segment>, excluded_suffix: Option<usize>, last_strip: int,
    suffix_ep: Option<(usize, usize)>) -> bool {
    match excluded_suffix {
        Some(si) => suffix_ep is Some && suffix_ep == suffix_orientation(n, segments[si as int], last_strip),
        None => suffix_ep is None,
    }
}

/// After the two events of each of the `count` connectors come the two of
/// the closing path, if any.
pub open spec fn events_tail_ok(event_strip: Seq<Option<usize>>, event_ep: Seq<usize>, count: int, last_strip: usize,
    suffix_ep: Option<(usize, usize)>) -> bool {
    &&& event_strip.len() == event_ep.len()
    &&& event_strip.len() == 2 * count + if suffix_ep is Some { 2int } else { 0int }
    &&& suffix_ep matches Some((a, b)) ==> event_strip[2 * count] == Some(last_strip) && event_ep[2 * count] == a
        && event_strip[2 * count + 1] is None && event_ep[2 * count + 1] == b
}

proof fn lemma_orientation_cols(n: int, seg: Segment, k: int, a: usize, b: usize)
    requires
        0 <= k,
        n <= 1000,
        seg == (Segment { c0: (2 * k) as usize, c1: (2 * k + 1) as usize }),
        0 <= 2 * k + 1 < n,
        (a == seg.c0 && b == seg.c1) || (a == seg.c1 && b == seg.c0),
    ensures
        dist(a as int, b as int) == 1,
        a as int == 2 * k || a as int == 2 * k + 1,
        b as int == 2 * k || b as int == 2 * k + 1,
        a < n && b < n,
{
}

proof fn lemma_connector_cols(
    n: int,
    tasks: Seq<Task>,
    segments: Seq<Segment>,
    excluded_suffix: Option<usize>,
    task_to_seg: Seq<usize>,
    from_eps: Seq<usize>,
    to_eps: Seq<usize>,
    i: int,
)
    requires
        2 * MARGIN <= n <= 1000,
        segments_ok(n, segments),
        tasks.len() == task_to_seg.len() == from_eps.len() == to_eps.len(),
        0 <= i < tasks.len(),
        forall|t: int| 0 <= t < task_to_seg.len() ==> #[trigger] segment_fits(n, tasks[t], segments, excluded_suffix, task_to_seg[t] as int),
        forall|t: int| 0 <= t < tasks.len() ==> #[trigger] connector_orientation(n, segments[task_to_seg[t] as int],
            tasks[t].from_strip as int, tasks[t].to_strip as int) == Some((from_eps[t], to_eps[t])),
    ensures
        ({
            let k = task_to_seg[i] as int;
            &&& 0 <= k < n / 2
            &&& (from_eps[i] as int == 2 * k || from_eps[i] as int == 2 * k + 1)
            &&& (to_eps[i] as int == 2 * k || to_eps[i] as int == 2 * k + 1)
            &&& dist(from_eps[i] as int, to_eps[i] as int) == 1
            &&& from_eps[i] < n && to_eps[i] < n
            &&& excluded_suffix != Some(k as usize)
        }),
{
    assert(segment_fits(n, tasks[i], segments, excluded_suffix, task_to_seg[i] as int));
    let k = task_to_seg[i] as int;
    assert(segments[k] == (Segment { c0: (2 * k) as usize, c1: (2 * k + 1) as usize }));
    assert(connector_orientation(n, segments[k], tasks[i].from_strip as int, tasks[i].to_strip as int) == Some((from_eps[i], to_eps[i])));
    lemma_orientation_cols(n, segments[k], k, from_eps[i], to_eps[i]);
}

/// What is known at the end of an attempt at planning a margin.
pub open spec fn attempt_facts(
    n: int,
    side: Side,
    tasks: Seq<Task>,
    segments: Seq<Segment>,
    excluded_suffix: Option<usize>,
    last_strip: int,
    task_to_seg: Seq<usize>,
    from_eps: Seq<usize>,
    to_eps: Seq<usize>,
    suffix_ep: Option<(usize, usize)>,
    event_strip: Seq<Option<usize>>,
    event_ep: Seq<usize>,
    ports: Seq<usize>,
    plan: SidePlan,
) -> bool {
    &&& 2 * MARGIN <= n <= 1000
    &&& n * n <= MAX_CELLS
    &&& segments_ok(n, segments)
    &&& 0 <= last_strip < n
    &&& tasks.len() == task_to_seg.len() == from_eps.len() == to_eps.len()
    &&& forall|t: int| 0 <= t < task_to_seg.len() ==> #[trigger] segment_fits(n, tasks[t], segments, excluded_suffix, task_to_seg[t] as int)
    &&& forall|a: int, b: int| 0 <= a < b < task_to_seg.len() ==> task_to_seg[a] != task_to_seg[b]
    &&& forall|t: int| 0 <= t < tasks.len() ==> #[trigger] connector_orientation(n, segments[task_to_seg[t] as int],
                tasks[t].from_strip as int, tasks[t].to_strip as int) == Some((from_eps[t], to_eps[t]))
    &&& excluded_suffix matches Some(si) ==> si < n / 2
    &&& suffix_ep_ok(n, segments, excluded_suffix, last_strip, suffix_ep)
    &&& events_tail_ok(event_strip, event_ep, tasks.len() as int, last_strip as usize, suffix_ep)
    &&& forall|j: int| 0 <= j < tasks.len() ==> #[trigger] event_strip[2 * j] == Some(tasks[j].from_strip)
                && event_ep[2 * j] == from_eps[j] && event_strip[2 * j + 1] == Some(tasks[j].to_strip)
                && event_ep[2 * j + 1] == to_eps[j]
    &&& event_strip.len() == n
    &&& ports.len() == n
    &&& forall|e: int| 0 <= e < ports.len() ==> #[trigger] port_fits(n, event_strip[e], event_ep[e] as int, ports[e] as int)
    &&& forall|a: int, b: int| 0 <= a < b < ports.len() ==> ports[a] != ports[b]
    &&& plan.connectors@.len() == tasks.len()
    &&& forall|j: int| 0 <= j < tasks.len() ==> {
                let c = #[trigger] plan.connectors@[j];
                &&& c.p == tasks[j].p
                &&& c.from_port == ports[2 * j]
                &&& c.to_port == ports[2 * j + 1]
                &&& c.cells@ == connector_cells_spec(n, side, ports[2 * j] as int, from_eps[j] as int,
                    to_eps[j] as int, ports[2 * j + 1] as int)
            }
    &&& suffix_ep matches Some((a, b)) ==> plan.suffix_start_port == Some(ports[2 * tasks.len() as int])
                && plan.suffix_cells@ == connector_cells_spec(n, side, ports[2 * tasks.len() as int] as int, a as int, b as int,
                    ports[2 * tasks.len() as int + 1] as int)
    &&& suffix_ep is None ==> plan.suffix_start_port is None && plan.suffix_cells@.len() == 0
}

proof fn lemma_attempt_paths(
    n: int,
    side: Side,
    tasks: Seq<Task>,
    segments: Seq<Segment>,
    excluded_suffix: Option<usize>,
    last_strip: int,
    task_to_seg: Seq<usize>,
    from_eps: Seq<usize>,
    to_eps: Seq<usize>,
    suffix_ep: Option<(usize, usize)>,
    event_strip: Seq<Option<usize>>,
    event_ep: Seq<usize>,
    ports: Seq<usize>,
    plan: SidePlan,
)
    requires
        attempt_facts(n, side, tasks, segments, excluded_suffix, last_strip, task_to_seg, from_eps, to_eps, suffix_ep, event_strip, event_ep, ports, plan),
    ensures
        forall|i: int| 0 <= i < plan.connectors@.len() ==> {
            let c = #[trigger] plan.connectors@[i];
            &&& c.p == tasks[i].p
            &&& c.from_port < n && c.to_port < n
            &&& strip_range(c.from_port as int, tasks[i].from_strip as int, n)
            &&& strip_range(c.to_port as int, tasks[i].to_strip as int, n)
            &&& margin_path(n, side, c.cells@, c.from_port as int, c.to_port as int)
        },
{
    let cs = plan.connectors@;
    assert forall|i: int| 0 <= i < cs.len() implies {
        let c = #[trigger] cs[i];
        &&& c.p == tasks[i].p
        &&& c.from_port < n && c.to_port < n
        &&& strip_range(c.from_port as int, tasks[i].from_strip as int, n)
        &&& strip_range(c.to_port as int, tasks[i].to_strip as int, n)
        &&& margin_path(n, side, c.cells@, c.from_port as int, c.to_port as int)
    } by {
        assert(event_strip[2 * i] == Some(tasks[i].from_strip));
        assert(port_fits(n, event_strip[2 * i], event_ep[2 * i] as int, ports[2 * i] as int));
        assert(port_fits(n, event_strip[2 * i + 1], event_ep[2 * i + 1] as int, ports[2 * i + 1] as int));
        assert(ports[2 * i] != ports[2 * i + 1]);
        lemma_connector_cols(n, tasks, segments, excluded_suffix, task_to_seg, from_eps, to_eps, i);
        lemma_margin_path(n, side, ports[2 * i] as int, from_eps[i] as int, to_eps[i] as int, ports[2 * i + 1] as int);
    }
}

proof fn lemma_attempt_apart(
    n: int,
    side: Side,
    tasks: Seq<Task>,
    segments: Seq<Segment>,
    excluded_suffix: Option<usize>,
    last_strip: int,
    task_to_seg: Seq<usize>,
    from_eps: Seq<usize>,
    to_eps: Seq<usize>,
    suffix_ep: Option<(usize, usize)>,
    event_strip: Seq<Option<usize>>,
    event_ep: Seq<usize>,
    ports: Seq<usize>,
    plan: SidePlan,
)
    requires
        attempt_facts(n, side, tasks, segments, excluded_suffix, last_strip, task_to_seg, from_eps, to_eps, suffix_ep, event_strip, event_ep, ports, plan),
    ensures
        forall|i: int, j: int, x: int, y: int| 0 <= i < plan.connectors@.len() && 0 <= j < plan.connectors@.len() && i != j
            && 0 <= x < 6 && 0 <= y < 6
            ==> #[trigger] plan.connectors@[i].cells@[x] != #[trigger] plan.connectors@[j].cells@[y],
{
    let cs = plan.connectors@;
    assert forall|i: int, j: int, x: int, y: int| 0 <= i < cs.len() && 0 <= j < cs.len() && i != j && 0 <= x < 6 && 0 <= y < 6
        implies #[trigger] cs[i].cells@[x] != #[trigger] cs[j].cells@[y] by {
        lemma_connector_cols(n, tasks, segments, excluded_suffix, task_to_seg, from_eps, to_eps, i);
        lemma_connector_cols(n, tasks, segments, excluded_suffix, task_to_seg, from_eps, to_eps, j);
        if i < j {
            assert(task_to_seg[i] != task_to_seg[j]);
        } else {
            assert(task_to_seg[j] != task_to_seg[i]);
        }
        assert(ports[2 * i] != ports[2 * j] && ports[2 * i] != ports[2 * j + 1]
            && ports[2 * i + 1] != ports[2 * j] && ports[2 * i + 1] != ports[2 * j + 1]) by {
            if i < j {
                assert(2 * i + 1 < 2 * j);
            } else {
                assert(2 * j + 1 < 2 * i);
            }
        }
        assert(port_fits(n, event_strip[2 * i], event_ep[2 * i] as int, ports[2 * i] as int));
        assert(port_fits(n, event_strip[2 * i + 1], event_ep[2 * i + 1] as int, ports[2 * i + 1] as int));
        assert(port_fits(n, event_strip[2 * j], event_ep[2 * j] as int, ports[2 * j] as int));
        assert(port_fits(n, event_strip[2 * j + 1], event_ep[2 * j + 1] as int, ports[2 * j + 1] as int));
        lemma_margin_paths_apart(n, side, ports[2 * i] as int, from_eps[i] as int, to_eps[i] as int, ports[2 * i + 1] as int,
            ports[2 * j] as int, from_eps[j] as int, to_eps[j] as int, ports[2 * j + 1] as int);
    }
}

proof fn lemma_attempt_suffix(
    n: int,
    side: Side,
    tasks: Seq<Task>,
    segments: Seq<Segment>,
    excluded_suffix: Option<usize>,
    last_strip: int,
    task_to_seg: Seq<usize>,
    from_eps: Seq<usize>,
    to_eps: Seq<usize>,
    suffix_ep: Option<(usize, usize)>,
    event_strip: Seq<Option<usize>>,
    event_ep: Seq<usize>,
    ports: Seq<usize>,
    plan: SidePlan,
)
    requires
        attempt_facts(n, side, tasks, segments, excluded_suffix, last_strip, task_to_seg, from_eps, to_eps, suffix_ep, event_strip, event_ep, ports, plan),
        excluded_suffix is Some,
    ensures
        plan.suffix_start_port matches Some(sp) && sp < n && strip_range(sp as int, last_strip, n)
            && margin_path(n, side, plan.suffix_cells@, sp as int, col_of(n, plan.suffix_cells@[5] as int)),
        forall|i: int, x: int, y: int| 0 <= i < plan.connectors@.len() && 0 <= x < 6 && 0 <= y < 6
            ==> #[trigger] plan.connectors@[i].cells@[x] != #[trigger] plan.suffix_cells@[y],
{
    let cs = plan.connectors@;
    let count = tasks.len() as int;
    let si = excluded_suffix->0 as int;
    let (a, b) = suffix_ep->0;
    assert(segments[si] == (Segment { c0: (2 * si) as usize, c1: (2 * si + 1) as usize }));
    assert(suffix_orientation(n, segments[si], last_strip) == Some((a, b)));
    lemma_orientation_cols(n, segments[si], si, a, b);
    let sp = ports[2 * count];
    let ep = ports[2 * count + 1];
    assert(port_fits(n, event_strip[2 * count], event_ep[2 * count] as int, sp as int));
    assert(port_fits(n, event_strip[2 * count + 1], event_ep[2 * count + 1] as int, ep as int));
    assert(sp != ep);
    lemma_margin_path(n, side, sp as int, a as int, b as int, ep as int);
    lemma_margin_cells(n, side, sp as int, a as int, b as int, ep as int);
    assert forall|i: int, x: int, y: int| 0 <= i < cs.len() && 0 <= x < 6 && 0 <= y < 6
        implies #[trigger] cs[i].cells@[x] != #[trigger] plan.suffix_cells@[y] by {
        assert(ports[2 * i] != sp && ports[2 * i] != ep && ports[2 * i + 1] != sp && ports[2 * i + 1] != ep) by {
            assert(2 * i + 1 < 2 * count);
        }
        assert(port_fits(n, event_strip[2 * i], event_ep[2 * i] as int, ports[2 * i] as int));
        assert(port_fits(n, event_strip[2 * i + 1], event_ep[2 * i + 1] as int, ports[2 * i + 1] as int));
        lemma_connector_cols(n, tasks, segments, excluded_suffix, task_to_seg, from_eps, to_eps, i);
        lemma_margin_paths_apart(n, side, ports[2 * i] as int, from_eps[i] as int, to_eps[i] as int, ports[2 * i + 1] as int,
            sp as int, a as int, b as int, ep as int);
    }
}

proof fn lemma_attempt_ok(
    n: int,
    side: Side,
    tasks: Seq<Task>,
    segments: Seq<Segment>,
    excluded_suffix: Option<usize>,
    last_strip: int,
    task_to_seg: Seq<usize>,
    from_eps: Seq<usize>,
    to_eps: Seq<usize>,
    suffix_ep: Option<(usize, usize)>,
    event_strip: Seq<Option<usize>>,
    event_ep: Seq<usize>,
    ports: Seq<usize>,
    plan: SidePlan,
)
    requires
        attempt_facts(n, side, tasks, segments, excluded_suffix, last_strip, task_to_seg, from_eps, to_eps, suffix_ep, event_strip, event_ep, ports, plan),
    ensures
        attempt_ok(n, side, tasks, excluded_suffix, last_strip, plan),
{
    lemma_attempt_paths(n, side, tasks, segments, excluded_suffix, last_strip, task_to_seg, from_eps, to_eps, suffix_ep, event_strip, event_ep, ports, plan);
    lemma_attempt_apart(n, side, tasks, segments, excluded_suffix, last_strip, task_to_seg, from_eps, to_eps, suffix_ep, event_strip, event_ep, ports, plan);
    if excluded_suffix is Some {
        lemma_attempt_suffix(n, side, tasks, segments, excluded_suffix, last_strip, task_to_seg, from_eps, to_eps, suffix_ep, event_strip, event_ep, ports, plan);
    }
}

/// The connector task of the `i`-th pass whose connector lies in `side`.
pub open spec fn side_task(strip_seq: Seq<usize>, dirs: Seq<bool>, side: Side, i: int) -> Task {
    let p = side_passes(dirs, side, strip_seq.len() - 1)[i];
    Task { p, from_strip: strip_seq[p as int], to_strip: strip_seq[p + 1] }
}

/// The connector tasks of `side`, in pass order.
pub open spec fn side_tasks(strip_seq: Seq<usize>, dirs: Seq<bool>, side: Side) -> Seq<Task> {
    Seq::new(side_passes(dirs, side, strip_seq.len() - 1).len(), |i: int| side_task(strip_seq, dirs, side, i))
}

/// The segment kept for the closing path in attempt `c`: segment `c` when
/// one is needed, none otherwise.
pub open spec fn attempt_excl(needs_suffix: bool, c: int) -> Option<usize> {
    if needs_suffix { Some(c as usize) } else { None }
}

/// Every attempt `plan_side` makes at `side` is blocked (`attempt_blocked`):
/// with each segment kept in turn for the closing path when `needs_suffix`,
/// else the single attempt keeping none.
pub open spec fn side_blocked(n: int, strip_seq: Seq<usize>, dirs: Seq<bool>, side: Side, needs_suffix: bool) -> bool {
    let tasks = side_tasks(strip_seq, dirs, side);
    let last = strip_seq.last() as int;
    if needs_suffix {
        forall|c: int| 0 <= c < n / 2 ==> attempt_blocked(n, tasks, std_segments(n), #[trigger] attempt_excl(true, c), last)
    } else {
        attempt_blocked(n, tasks, std_segments(n), attempt_excl(false, 0), last)
    }
}

/// The margin segments of a board of side `n`: columns `2j` and `2j + 1`.
pub open spec fn std_segments(n: int) -> Seq<Segment> {
    Seq::new((n / 2) as nat, |j: int| Segment { c0: (2 * j) as usize, c1: (2 * j + 1) as usize })
}

/// Plans the connectors of `side`: the connectors after the passes whose
/// connector lies there, and the closing path when `needs_suffix`. Tries
/// every segment in turn for the closing path (none when it is not
/// needed) and keeps the first attempt that succeeds; `None` when none does,
/// and on a board too small for the margins.
pub fn plan_side(n: usize, side: Side, strip_seq: &Vec<usize>, pass_dir_down: &Vec<bool>, needs_suffix: bool)
    -> (res: Option<SidePlan>)
    requires
        n <= 1000,
        n * n <= MAX_CELLS,
        1 <= strip_seq@.len(),
        pass_dir_down@.len() == strip_seq@.len(),
        forall|p: int| 0 <= p < strip_seq@.len() ==> #[trigger] strip_seq@[p] < n,
    ensures
        res matches Some(plan) ==> plan_ok(n as int, side, strip_seq@, pass_dir_down@, needs_suffix, plan),
        side_unplannable(n as int, strip_seq@, pass_dir_down@, side) ==> res is None,
        res is None ==> n < 2 * MARGIN || side_blocked(n as int, strip_seq@, pass_dir_down@, side, needs_suffix),
{
    if n < 2 * MARGIN {
        return None;
    }
    let pass_count = strip_seq.len();
    let segment_count = n / 2;
    let ghost dirs = pass_dir_down@;
    let mut tasks: Vec<Task> = Vec::new();
    let mut p: usize = 0;
    while p + 1 < pass_count
        invariant
            pass_count == strip_seq@.len() == dirs.len(),
            dirs == pass_dir_down@,
            1 <= pass_count,
            p + 1 <= pass_count,
            forall|q: int| 0 <= q < strip_seq@.len() ==> #[trigger] strip_seq@[q] < n,
            tasks@.len() == side_passes(dirs, side, p as int).len(),
            forall|i: int| 0 <= i < tasks@.len() ==> {
                let t = #[trigger] tasks@[i];
                &&& t.p == side_passes(dirs, side, p as int)[i]
                &&& t.p + 1 < pass_count
                &&& t.from_strip == strip_seq@[t.p as int]
                &&& t.to_strip == strip_seq@[t.p + 1]
            },
        decreases pass_count - p,
    {
        proof {
            lemma_side_passes(dirs, side, p as int);
        }
        let connector = if pass_dir_down[p] { Side::Bottom } else { Side::Top };
        let ghost before = tasks@;
        if connector == side {
            tasks.push(Task { p, from_strip: strip_seq[p], to_strip: strip_seq[p + 1] });
        }
        proof {
            assert forall|i: int| 0 <= i < tasks@.len() implies {
                let t = #[trigger] tasks@[i];
                &&& t.p == side_passes(dirs, side, p + 1)[i]
                &&& t.p + 1 < pass_count
                &&& t.from_strip == strip_seq@[t.p as int]
                &&& t.to_strip == strip_seq@[t.p + 1]
            } by {
                if i < before.len() {
                    assert(tasks@[i] == before[i]);
                }
            }
        }
        p += 1;
    }
    let mut segments: Vec<Segment> = Vec::new();
    let mut k: usize = 0;
    while k < segment_count
        invariant
            segment_count == n / 2,
            n <= 1000,
            k <= segment_count,
            segments@.len() == k,
            forall|j: int| 0 <= j < k ==> #[trigger] segments@[j] == (Segment { c0: (2 * j) as usize, c1: (2 * j + 1) as usize }),
        decreases segment_count - k,
    {
        segments.push(Segment { c0: 2 * k, c1: 2 * k + 1 });
        k += 1;
    }
    let last_strip = strip_seq[pass_count - 1];
    let cand_total = if needs_suffix { segment_count } else { 1 };
    proof {
        assert(segments@ =~= std_segments(n as int));
        assert forall|i: int| 0 <= i < tasks@.len() implies #[trigger] tasks@[i] == side_task(strip_seq@, pass_dir_down@, side, i) by {}
        assert(tasks@ =~= side_tasks(strip_seq@, pass_dir_down@, side));
    }
    let mut cand: usize = 0;
    while cand < cand_total
        invariant
            2 * MARGIN <= n <= 1000,
            n * n <= MAX_CELLS,
            pass_count == strip_seq@.len() == dirs.len(),
            dirs == pass_dir_down@,
            1 <= pass_count,
            last_strip == strip_seq@[pass_count - 1],
            last_strip < n,
            segment_count == n / 2,
            cand_total == if needs_suffix { segment_count } else { 1 },
            segments_ok(n as int, segments@),
            tasks@.len() == side_passes(dirs, side, pass_count - 1).len(),
            forall|i: int| 0 <= i < tasks@.len() ==> {
                let t = #[trigger] tasks@[i];
                &&& t.p == side_passes(dirs, side, pass_count - 1)[i]
                &&& t.p + 1 < pass_count
                &&& t.from_strip == strip_seq@[t.p as int]
                &&& t.to_strip == strip_seq@[t.p + 1]
            },
            forall|q: int| 0 <= q < strip_seq@.len() ==> #[trigger] strip_seq@[q] < n,
            segments@ == std_segments(n as int),
            tasks@ == side_tasks(strip_seq@, pass_dir_down@, side),
            forall|c: int| 0 <= c < cand ==> attempt_blocked(n as int, tasks@, segments@,
                #[trigger] attempt_excl(needs_suffix, c), last_strip as int),
        decreases cand_total - cand,
    {
        let excluded = if needs_suffix { Some(cand) } else { None };
        proof {
            assert(excluded == attempt_excl(needs_suffix, cand as int));
        }
        proof {
            assert forall|t: int| 0 <= t < tasks@.len() implies #[trigger] tasks@[t].from_strip < n && tasks@[t].to_strip < n by {
                assert(strip_seq@[tasks@[t].p as int] < n);
                assert(strip_seq@[tasks@[t].p + 1] < n);
            }
        }
        proof {
            if side_unplannable(n as int, strip_seq@, pass_dir_down@, side) {
                let i = choose|i: int| 0 <= i < side_passes(pass_dir_down@, side, strip_seq@.len() - 1).len()
                    && no_fitting_segment(n as int, #[trigger] side_task(strip_seq@, pass_dir_down@, side, i), std_segments(n as int), None);
                let t = tasks@[i];
                assert(t.p == side_passes(dirs, side, pass_count - 1)[i]);
                assert(t == side_task(strip_seq@, pass_dir_down@, side, i));
                assert forall|si: int| !#[trigger] segment_fits(n as int, t, segments@, excluded, si) by {
                    assert(!segment_fits(n as int, t, segments@, None, si));
                }
                assert(no_fitting_segment(n as int, tasks@[i], segments@, excluded));
            }
        }
        match plan_with_suffix_segment(n, side, &tasks, &segments, excluded, last_strip) {
            Some(plan) => {
                proof {
                    let cs = plan.connectors@;
                    assert forall|i: int| 0 <= i < cs.len() implies {
                        let c = #[trigger] cs[i];
                        &&& c.p == side_passes(dirs, side, strip_seq@.len() - 1)[i]
                        &&& c.from_port < n && c.to_port < n
                        &&& strip_range(c.from_port as int, strip_seq@[c.p as int] as int, n as int)
                        &&& strip_range(c.to_port as int, strip_seq@[c.p + 1] as int, n as int)
                        &&& margin_path(n as int, side, c.cells@, c.from_port as int, c.to_port as int)
                    } by {
                        assert(tasks@[i].p == cs[i].p);
                    }
                    assert(strip_seq@.last() == last_strip);
                }
                return Some(plan);
            },
            None => {},
        }
        cand += 1;
    }
    None
}

/// The lanes of `perm` meet the ports given for their passes: on the
/// first core row the top ports, on the last the bottom ports, each lane
/// within one column of its pass's port.
pub open spec fn ports_fit(strip: int, occ_to_pass: Seq<usize>, ports: Seq<Option<usize>>, perm: Seq<usize>) -> bool {
    forall|occ: int| 0 <= occ < STRIP_W ==> (#[trigger] ports[occ_to_pass[occ] as int] matches Some(port)
        ==> dist(strip * 5 + perm[occ], port as int) <= 1)
}

/// Lane positions `perm` are allowed on core row `r` of `h`.
pub open spec fn row_allowed(strip: int, occ_to_pass: Seq<usize>, top_port: Seq<Option<usize>>, bottom_port: Seq<Option<usize>>,
    h: int, r: int, perm: Seq<usize>) -> bool {
    &&& r == 0 ==> ports_fit(strip, occ_to_pass, top_port, perm)
    &&& r == h - 1 ==> ports_fit(strip, occ_to_pass, bottom_port, perm)
}

/// `rows` places the lanes of a strip on its `h` core rows: a permutation
/// of the five columns on each row, allowed there, each lane moving at most
/// one column from row to row.
pub open spec fn lanes_ok(strip: int, occ_to_pass: Seq<usize>, top_port: Seq<Option<usize>>, bottom_port: Seq<Option<usize>>,
    h: int, rows: Seq<Seq<usize>>) -> bool {
    &&& rows.len() == h
    &&& forall|r: int| 0 <= r < h ==> #[trigger] is_perm5(rows[r])
        && row_allowed(strip, occ_to_pass, top_port, bottom_port, h, r, rows[r])
    &&& forall|r: int| 1 <= r < h ==> transition_ok(#[trigger] rows[r - 1], rows[r])
}

/// The rows of a strip solution as lane columns.
pub open spec fn solution_rows(sol: StripSolution) -> Seq<Seq<usize>> {
    Seq::new(sol.rows@.len(), |r: int| Seq::new(5, |o: int| sol.rows@[r]@[o] as usize))
}

/// `perms` lists every permutation of the five lanes (and nothing else);
/// `transitions[c]` lists, in increasing order, exactly the permutations
/// that may precede `perms[c]`.
pub open spec fn perm_tables_ok(perms: Seq<[usize; 5]>, transitions: Seq<Vec<usize>>) -> bool {
    &&& forall|i: int| 0 <= i < perms.len() ==> #[trigger] is_perm5(perms[i]@)
    &&& forall|p: Seq<usize>| #[trigger] is_perm5(p) ==> exists|i: int| 0 <= i < perms.len() && #[trigger] perms[i]@ == p
    &&& transitions.len() == perms.len()
    &&& forall|c: int| 0 <= c < perms.len() ==> {
        let t = #[trigger] transitions[c]@;
        &&& forall|k: int| 0 <= k < t.len() ==> #[trigger] t[k] < perms.len()
            && transition_ok(perms[t[k] as int]@, perms[c]@)
        &&& forall|q: int| 0 <= q < perms.len() && transition_ok(perms[q]@, perms[c]@) ==> t.contains(q as usize)
    }
}

/// Largest magnitude of one row's value.
pub open spec fn row_bound() -> int {
    10_000_000_000_000
}

/// The value of placing lanes at `perm` on core row `r`: each lane's cell
/// weight times its position in the route (`coeff`). `None`-like
/// `NEG_INF` when the row is not allowed.
pub open spec fn row_value_spec(n: int, w: Seq<i64>, strip: int, r: int, perm: Seq<usize>, coeff: Seq<i64>, k: int) -> int
    decreases k,
{
    if k <= 0 {
        0
    } else {
        row_value_spec(n, w, strip, r, perm, coeff, k - 1)
            + coeff[k - 1] * w[(MARGIN + r) * n + strip * 5 + perm[k - 1]]
    }
}

fn row_value(n: usize, weights: &[i64], strip: usize, r: usize, perm: &[usize; 5], coeff: &[i64; 5]) -> (v: i64)
    requires
        7 <= n <= 1000,
        n * n <= MAX_CELLS,
        weights@.len() == n * n,
        weights_bounded(weights@),
        strip * 5 + 4 < n,
        r + 2 * MARGIN < n,
        is_perm5(perm@),
        forall|o: int| 0 <= o < 5 ==> 0 <= #[trigger] coeff@[o] <= 2 * MAX_CELLS,
    ensures
        v == row_value_spec(n as int, weights@, strip as int, r as int, perm@, coeff@, 5),
        -row_bound() <= v <= row_bound(),
{
    let mut value: i64 = 0;
    let mut occ: usize = 0;
    while occ < STRIP_W
        invariant
            7 <= n <= 1000,
            n * n <= MAX_CELLS,
            weights@.len() == n * n,
            weights_bounded(weights@),
            strip * 5 + 4 < n,
            r + 2 * MARGIN < n,
            is_perm5(perm@),
            forall|o: int| 0 <= o < 5 ==> 0 <= #[trigger] coeff@[o] <= 2 * MAX_CELLS,
            occ <= STRIP_W,
            value == row_value_spec(n as int, weights@, strip as int, r as int, perm@, coeff@, occ as int),
            -(occ as int) * 2_000_000_000_000 <= value <= (occ as int) * 2_000_000_000_000,
        decreases STRIP_W - occ,
    {
        let col = perm[occ];
        let global_col = strip * STRIP_W + col;
        let row = MARGIN + r;
        proof {
            crate::grid::lemma_cell_bound(n as int, row as int, global_col as int);
        }
        let w = weights[row * n + global_col];
        let c = coeff[occ];
        proof {
            assert(-MAX_WEIGHT <= w <= MAX_WEIGHT);
            assert(-2_000_000_000_000 <= c * w <= 2_000_000_000_000) by (nonlinear_arith)
                requires 0 <= c <= 2_000_000, -1_000_000 <= w <= 1_000_000;
        }
        value = value + c * w;
        occ += 1;
    }
    value
}

/// Whether the lanes of `perm` meet `ports` (see `ports_fit`).
fn ports_allow(strip: usize, occ_to_pass: &[usize; 5], ports: &Vec<Option<usize>>, perm: &[usize; 5]) -> (ok: bool)
    requires
        strip * 5 + 4 <= 5000,
        forall|o: int| 0 <= o < 5 ==> #[trigger] occ_to_pass@[o] < ports@.len(),
        is_perm5(perm@),
    ensures
        ok == ports_fit(strip as int, occ_to_pass@, ports@, perm@),
{
    let mut occ: usize = 0;
    while occ < STRIP_W
        invariant
            strip * 5 + 4 <= 5000,
            forall|o: int| 0 <= o < 5 ==> #[trigger] occ_to_pass@[o] < ports@.len(),
            is_perm5(perm@),
            occ <= STRIP_W,
            forall|o: int| 0 <= o < occ ==> (#[trigger] ports@[occ_to_pass@[o] as int] matches Some(port)
                ==> dist(strip * 5 + perm@[o], port as int) <= 1),
        decreases STRIP_W - occ,
    {
        match ports[occ_to_pass[occ]] {
            Some(port) => {
                if abs_diff(strip * STRIP_W + perm[occ], port) > 1 {
                    return false;
                }
            },
            None => {},
        }
        occ += 1;
    }
    true
}

/// The first row of the strip DP: exactly the states allowed on the first
/// core row are reached, each with a value within one row bound.
pub open spec fn first_row_ok(cur: Seq<i64>, perms: Seq<[usize; 5]>, allowed: spec_fn(int, int) -> bool) -> bool {
    &&& cur.len() == perms.len()
    &&& forall|s: int| 0 <= s < perms.len() ==> (#[trigger] cur[s] == NEG_INF || -row_bound() <= cur[s] <= row_bound())
    &&& forall|s: int| 0 <= s < perms.len() ==> (#[trigger] cur[s] != NEG_INF <==> allowed(0, s))
}

/// Row `r >= 1` of the strip DP from row `r - 1`: a reached state is
/// allowed on its row and was reached from a reached state it may follow
/// (recorded in `par`), with a value within `r + 1` row bounds; every
/// allowed state that may follow a reached state of the previous row is
/// reached.
pub open spec fn row_step_ok(prev: Seq<i64>, cur: Seq<i64>, par: Seq<usize>, perms: Seq<[usize; 5]>,
    allowed: spec_fn(int, int) -> bool, r: int) -> bool {
    &&& cur.len() == perms.len()
    &&& par.len() == perms.len()
    &&& forall|s: int| 0 <= s < perms.len() ==> (#[trigger] cur[s] == NEG_INF
        || -(r + 1) * row_bound() <= cur[s] <= (r + 1) * row_bound())
    &&& forall|s: int| 0 <= s < perms.len() && #[trigger] cur[s] != NEG_INF ==> allowed(r, s)
        && par[s] < perms.len() && prev[par[s] as int] != NEG_INF && transition_ok(perms[par[s] as int]@, perms[s]@)
    &&& forall|s: int, q: int| 0 <= s < perms.len() && 0 <= q < perms.len() && allowed(r, s)
        && #[trigger] prev[q] != NEG_INF && transition_ok(perms[q]@, perms[s]@) ==> #[trigger] cur[s] != NEG_INF
}

/// Row `r` of the strip DP table is as `first_row_ok` or `row_step_ok` says.
pub open spec fn dp_row_ok(dp: Seq<Vec<i64>>, parent: Seq<Vec<usize>>, perms: Seq<[usize; 5]>,
    allowed: spec_fn(int, int) -> bool, r: int) -> bool {
    &&& parent[r]@.len() == perms.len()
    &&& if r == 0 { first_row_ok(dp[0]@, perms, allowed) } else { row_step_ok(dp[r - 1]@, dp[r]@, parent[r]@, perms, allowed, r) }
}

/// A feasible arrangement reaches the state of its row `r` in the DP.
proof fn lemma_dp_reaches(dp: Seq<Vec<i64>>, parent: Seq<Vec<usize>>, perms: Seq<[usize; 5]>,
    allowed: spec_fn(int, int) -> bool, idx: Seq<int>, r: int)
    requires
        0 <= r < idx.len(),
        dp.len() >= idx.len(),
        forall|x: int| 0 <= x < idx.len() ==> #[trigger] dp_row_ok(dp, parent, perms, allowed, x),
        forall|x: int| 0 <= x < idx.len() ==> 0 <= #[trigger] idx[x] < perms.len() && allowed(x, idx[x]),
        forall|x: int| 1 <= x < idx.len() ==> transition_ok(perms[#[trigger] idx[x - 1]]@, perms[idx[x]]@),
    ensures
        dp[r]@[idx[r]] != NEG_INF,
    decreases r,
{
    assert(dp_row_ok(dp, parent, perms, allowed, r));
    assert(0 <= idx[r] < perms.len() && allowed(r, idx[r]));
    if r > 0 {
        lemma_dp_reaches(dp, parent, perms, allowed, idx, r - 1);
        assert(transition_ok(perms[idx[r - 1]]@, perms[idx[r]]@));
        assert(dp[r - 1]@[idx[r - 1]] != NEG_INF);
    }
}

/// The total of `score` over the first `k` rows of `rows`.
pub open spec fn path_value(score: spec_fn(int, Seq<usize>) -> int, rows: Seq<Seq<usize>>, k: int) -> int
    decreases k,
{
    if k <= 0 { 0 } else { path_value(score, rows, k - 1) + score(k - 1, rows[k - 1]) }
}

/// The route positions of the five lanes of a strip on core row `r`: the
/// start of each lane's pass plus `r` for a pass going down, `h - 1 - r`
/// for one going up.
pub open spec fn lane_coeff(pass_start: Seq<usize>, dirs: Seq<bool>, occ_to_pass: Seq<usize>, h: int, r: int) -> Seq<i64> {
    Seq::new(5, |o: int| {
        let pass = occ_to_pass[o] as int;
        (if dirs[pass] { pass_start[pass] + r } else { pass_start[pass] + (h - 1 - r) }) as i64
    })
}

/// The value of lanes `perm` on core row `r` of strip `strip`.
pub open spec fn strip_row_score(n: int, w: Seq<i64>, strip: int, occ_to_pass: Seq<usize>, pass_start: Seq<usize>,
    dirs: Seq<bool>, r: int, perm: Seq<usize>) -> int {
    row_value_spec(n, w, strip, r, perm, lane_coeff(pass_start, dirs, occ_to_pass, n - 2 * MARGIN, r), 5)
}

/// `strip_row_score` as a function of the row and the lanes.
pub open spec fn strip_score_fn(n: int, w: Seq<i64>, strip: int, occ_to_pass: Seq<usize>, pass_start: Seq<usize>,
    dirs: Seq<bool>) -> spec_fn(int, Seq<usize>) -> int {
    |r: int, p: Seq<usize>| strip_row_score(n, w, strip, occ_to_pass, pass_start, dirs, r, p)
}

/// The value of a lane arrangement of strip `strip`: its rows' values summed.
pub open spec fn strip_lanes_value(n: int, w: Seq<i64>, strip: int, occ_to_pass: Seq<usize>, pass_start: Seq<usize>,
    dirs: Seq<bool>, rows: Seq<Seq<usize>>) -> int {
    path_value(strip_score_fn(n, w, strip, occ_to_pass, pass_start, dirs), rows, n - 2 * MARGIN)
}

/// The strip DP keeps values: its first row is the first row's scores,
/// each later row keeps the best predecessor, and each allowed score is
/// `score` of its row and lanes.
pub open spec fn strip_dp_values(dp: Seq<Vec<i64>>, parent: Seq<Vec<usize>>, scores: Seq<Vec<i64>>, perms: Seq<[usize; 5]>,
    score: spec_fn(int, Seq<usize>) -> int, h: int) -> bool {
    &&& dp.len() >= 1 && scores.len() >= h && parent.len() >= dp.len()
    &&& dp[0]@ == scores[0]@
    &&& forall|x: int| 1 <= x < dp.len() ==> #[trigger] row_step_best(dp[x - 1]@, dp[x]@, parent[x]@, scores[x]@, perms)
    &&& forall|x: int, s: int| 0 <= x < h && 0 <= s < perms.len() && #[trigger] scores[x]@[s] != NEG_INF
        ==> scores[x]@[s] == score(x, perms[s]@)
}

/// Along a valid arrangement, no row's running total exceeds the DP
/// value of its state.
proof fn lemma_strip_dp_upper(dp: Seq<Vec<i64>>, parent: Seq<Vec<usize>>, scores: Seq<Vec<i64>>, perms: Seq<[usize; 5]>,
    allowed: spec_fn(int, int) -> bool, score: spec_fn(int, Seq<usize>) -> int, rows: Seq<Seq<usize>>, idx: Seq<int>, x: int)
    requires
        0 <= x < idx.len(),
        dp.len() >= idx.len(),
        strip_dp_values(dp, parent, scores, perms, score, idx.len() as int),
        forall|y: int| 0 <= y < idx.len() ==> (#[trigger] scores[y])@.len() == perms.len(),
        forall|y: int, s: int| 0 <= y < idx.len() && 0 <= s < perms.len() ==> (#[trigger] scores[y]@[s] != NEG_INF <==> allowed(y, s)),
        forall|y: int| 0 <= y < idx.len() ==> #[trigger] dp_row_ok(dp, parent, perms, allowed, y),
        forall|y: int| 0 <= y < idx.len() ==> 0 <= #[trigger] idx[y] < perms.len() && allowed(y, idx[y])
            && perms[idx[y]]@ == rows[y],
        forall|y: int| 1 <= y < idx.len() ==> transition_ok(perms[#[trigger] idx[y - 1]]@, perms[idx[y]]@),
    ensures
        path_value(score, rows, x + 1) <= dp[x]@[idx[x]],
    decreases x,
{
    assert(0 <= idx[x] < perms.len() && allowed(x, idx[x]) && perms[idx[x]]@ == rows[x]);
    assert(scores[x]@[idx[x]] != NEG_INF);
    assert(scores[x]@[idx[x]] == score(x, perms[idx[x]]@));
    lemma_dp_reaches(dp, parent, perms, allowed, idx, x);
    assert(path_value(score, rows, x + 1) == path_value(score, rows, x) + score(x, rows[x]));
    if x == 0 {
        assert(path_value(score, rows, 0) == 0);
        assert(dp[0]@[idx[0]] == scores[0]@[idx[0]]);
    } else {
        lemma_strip_dp_upper(dp, parent, scores, perms, allowed, score, rows, idx, x - 1);
        lemma_dp_reaches(dp, parent, perms, allowed, idx, x - 1);
        assert(row_step_best(dp[x - 1]@, dp[x]@, parent[x]@, scores[x]@, perms));
        assert(transition_ok(perms[idx[x - 1]]@, perms[idx[x]]@));
        assert(dp[x - 1]@[idx[x - 1]] + scores[x]@[idx[x]] <= dp[x]@[idx[x]]);
    }
}

/// Along the arrangement traced back through `parent`, each row's
/// running total is the DP value of its state.
proof fn lemma_strip_dp_exact(dp: Seq<Vec<i64>>, parent: Seq<Vec<usize>>, scores: Seq<Vec<i64>>, perms: Seq<[usize; 5]>,
    allowed: spec_fn(int, int) -> bool, score: spec_fn(int, Seq<usize>) -> int, got: Seq<Seq<usize>>, st: Seq<usize>, h: int, x: int)
    requires
        0 <= x < h <= st.len(),
        dp.len() >= h,
        strip_dp_values(dp, parent, scores, perms, score, h),
        forall|y: int| 0 <= y < h ==> (#[trigger] scores[y])@.len() == perms.len(),
        forall|y: int, s: int| 0 <= y < h && 0 <= s < perms.len() ==> (#[trigger] scores[y]@[s] != NEG_INF <==> allowed(y, s)),
        forall|y: int| 0 <= y < h ==> #[trigger] dp_row_ok(dp, parent, perms, allowed, y),
        forall|y: int| 0 <= y < h ==> #[trigger] st[y] < perms.len() && dp[y]@[st[y] as int] != NEG_INF
            && got[y] == perms[st[y] as int]@,
        forall|y: int| 0 < y < h ==> #[trigger] st[y - 1] == parent[y]@[st[y] as int],
    ensures
        path_value(score, got, x + 1) == dp[x]@[st[x] as int],
    decreases x,
{
    let s = st[x] as int;
    assert(st[x] < perms.len() && dp[x]@[s] != NEG_INF && got[x] == perms[s]@);
    assert(dp_row_ok(dp, parent, perms, allowed, x));
    assert(path_value(score, got, x + 1) == path_value(score, got, x) + score(x, got[x]));
    if x == 0 {
        assert(path_value(score, got, 0) == 0);
        assert(first_row_ok(dp[0]@, perms, allowed));
        assert(dp[0]@[s] == scores[0]@[s]);
        assert(scores[0]@[s] != NEG_INF);
    } else {
        assert(row_step_ok(dp[x - 1]@, dp[x]@, parent[x]@, perms, allowed, x));
        assert(allowed(x, s));
        assert(scores[x]@[s] != NEG_INF);
        lemma_strip_dp_exact(dp, parent, scores, perms, allowed, score, got, st, h, x - 1);
        assert(row_step_best(dp[x - 1]@, dp[x]@, parent[x]@, scores[x]@, perms));
        assert(st[x - 1] == parent[x]@[s]);
    }
}

/// A DP row keeps the best predecessor: a reached state's value is its
/// recorded predecessor's plus its own score, and no reached predecessor it
/// may follow gives more.
pub open spec fn row_step_best(prev: Seq<i64>, cur: Seq<i64>, par: Seq<usize>, scores: Seq<i64>, perms: Seq<[usize; 5]>) -> bool {
    &&& forall|s: int| 0 <= s < perms.len() && #[trigger] cur[s] != NEG_INF ==> cur[s] == prev[par[s] as int] + scores[s]
    &&& forall|s: int, q: int| 0 <= s < perms.len() && 0 <= q < perms.len() && #[trigger] cur[s] != NEG_INF
        && #[trigger] prev[q] != NEG_INF && transition_ok(perms[q]@, perms[s]@) ==> prev[q] + scores[s] <= cur[s]
}

/// The next row of the strip DP: for each state allowed on row `r` (its
/// `scores` entry is not `NEG_INF`), the best value over the reached states
/// that may precede it (the first such on ties), plus its own score.
fn dp_next_row(prev: &Vec<i64>, scores: &Vec<i64>, transitions: &Vec<Vec<usize>>, Ghost(perms): Ghost<Seq<[usize; 5]>>,
    Ghost(allowed): Ghost<spec_fn(int, int) -> bool>, Ghost(r): Ghost<int>) -> (res: (Vec<i64>, Vec<usize>))
    requires
        1 <= r < 1000,
        prev@.len() == perms.len(),
        scores@.len() == perms.len(),
        transitions@.len() == perms.len(),
        forall|s: int| 0 <= s < perms.len() ==> (#[trigger] prev@[s] == NEG_INF || -r * row_bound() <= prev@[s] <= r * row_bound()),
        forall|s: int| 0 <= s < perms.len() ==> (#[trigger] scores@[s] != NEG_INF <==> allowed(r, s)),
        forall|s: int| 0 <= s < perms.len() ==> (#[trigger] scores@[s] == NEG_INF || -row_bound() <= scores@[s] <= row_bound()),
        forall|c: int| 0 <= c < perms.len() ==> {
            let t = #[trigger] transitions@[c]@;
            &&& forall|k: int| 0 <= k < t.len() ==> #[trigger] t[k] < perms.len()
                && transition_ok(perms[t[k] as int]@, perms[c]@)
            &&& forall|q: int| 0 <= q < perms.len() && transition_ok(perms[q]@, perms[c]@) ==> t.contains(q as usize)
        },
    ensures
        row_step_ok(prev@, res.0@, res.1@, perms, allowed, r),
        row_step_best(prev@, res.0@, res.1@, scores@, perms),
{
    let count = scores.len();
    let mut cur_row: Vec<i64> = Vec::new();
    let mut par: Vec<usize> = Vec::new();
    let ghost rb = row_bound();
    proof {
        assert((r + 1) * rb <= 0x1000_0000_0000_0000) by (nonlinear_arith) requires r < 1000, rb == 10_000_000_000_000;
        assert(r * rb + rb == (r + 1) * rb) by (nonlinear_arith);
    }
    let mut cur: usize = 0;
    while cur < count
        invariant
            1 <= r < 1000,
            rb == row_bound(),
            (r + 1) * rb <= 0x1000_0000_0000_0000,
            r * rb + rb == (r + 1) * rb,
            count == perms.len() == prev@.len() == scores@.len() == transitions@.len(),
            forall|s: int| 0 <= s < perms.len() ==> (#[trigger] prev@[s] == NEG_INF || -r * row_bound() <= prev@[s] <= r * row_bound()),
            forall|s: int| 0 <= s < perms.len() ==> (#[trigger] scores@[s] != NEG_INF <==> allowed(r, s)),
            forall|s: int| 0 <= s < perms.len() ==> (#[trigger] scores@[s] == NEG_INF || -row_bound() <= scores@[s] <= row_bound()),
            forall|c: int| 0 <= c < perms.len() ==> {
                let t = #[trigger] transitions@[c]@;
                &&& forall|k: int| 0 <= k < t.len() ==> #[trigger] t[k] < perms.len()
                    && transition_ok(perms[t[k] as int]@, perms[c]@)
                &&& forall|q: int| 0 <= q < perms.len() && transition_ok(perms[q]@, perms[c]@) ==> t.contains(q as usize)
            },
            cur <= count,
            cur_row@.len() == cur,
            par@.len() == cur,
            forall|s: int| 0 <= s < cur ==> (#[trigger] cur_row@[s] == NEG_INF
                || -(r + 1) * row_bound() <= cur_row@[s] <= (r + 1) * row_bound()),
            forall|s: int| 0 <= s < cur && #[trigger] cur_row@[s] != NEG_INF ==> allowed(r, s)
                && par@[s] < perms.len() && prev@[par@[s] as int] != NEG_INF && transition_ok(perms[par@[s] as int]@, perms[s]@),
            forall|s: int, q: int| 0 <= s < cur && 0 <= q < perms.len() && allowed(r, s)
                && #[trigger] prev@[q] != NEG_INF && transition_ok(perms[q]@, perms[s]@) ==> #[trigger] cur_row@[s] != NEG_INF,
            forall|s: int| 0 <= s < cur && #[trigger] cur_row@[s] != NEG_INF ==> cur_row@[s] == prev@[par@[s] as int] + scores@[s],
            forall|s: int, q: int| 0 <= s < cur && 0 <= q < perms.len() && #[trigger] cur_row@[s] != NEG_INF
                && #[trigger] prev@[q] != NEG_INF && transition_ok(perms[q]@, perms[s]@) ==> prev@[q] + scores@[s] <= cur_row@[s],
        decreases count - cur,
    {
        let score = scores[cur];
        if score == NEG_INF {
            cur_row.push(NEG_INF);
            par.push(usize::MAX);
            proof {
                assert(!allowed(r, cur as int));
            }
        } else {
            let list = &transitions[cur];
            proof {
                assert(-rb <= score <= rb);
            }
            let mut best_val: i64 = NEG_INF;
            let mut best_prev: usize = usize::MAX;
            let mut k: usize = 0;
            while k < list.len()
                invariant
                    1 <= r < 1000,
                    rb == row_bound(),
                    (r + 1) * rb <= 0x1000_0000_0000_0000,
                    r * rb + rb == (r + 1) * rb,
                    count == perms.len() == prev@.len(),
                    cur < count,
                    list@ == transitions@[cur as int]@,
                    forall|kk: int| 0 <= kk < list@.len() ==> #[trigger] list@[kk] < perms.len()
                        && transition_ok(perms[list@[kk] as int]@, perms[cur as int]@),
                    forall|s: int| 0 <= s < perms.len() ==> (#[trigger] prev@[s] == NEG_INF || -r * row_bound() <= prev@[s] <= r * row_bound()),
                    -rb <= score <= rb,
                    k <= list@.len(),
                    best_val == NEG_INF || (-(r + 1) * rb <= best_val <= (r + 1) * rb && best_prev < perms.len()
                        && prev@[best_prev as int] != NEG_INF && transition_ok(perms[best_prev as int]@, perms[cur as int]@)),
                    forall|kk: int| 0 <= kk < k && prev@[#[trigger] list@[kk] as int] != NEG_INF ==> best_val != NEG_INF,
                    best_val != NEG_INF ==> best_val == prev@[best_prev as int] + score,
                    forall|kk: int| 0 <= kk < k && prev@[#[trigger] list@[kk] as int] != NEG_INF
                        ==> prev@[list@[kk] as int] + score <= best_val,
                decreases list@.len() - k,
            {
                let q = list[k];
                let pv = prev[q];
                if pv != NEG_INF {
                    proof {
                        assert(-r * rb <= pv <= r * rb);
                    }
                    let cand = pv + score;
                    if cand > best_val {
                        best_val = cand;
                        best_prev = q;
                    }
                }
                k += 1;
            }
            proof {
                assert forall|q: int| 0 <= q < perms.len() && #[trigger] prev@[q] != NEG_INF && transition_ok(perms[q]@, perms[cur as int]@)
                    implies best_val != NEG_INF && prev@[q] + score <= best_val by {
                    assert(transitions@[cur as int]@.contains(q as usize));
                    let kk = choose|kk: int| 0 <= kk < list@.len() && list@[kk] == q as usize;
                    assert(prev@[list@[kk] as int] != NEG_INF);
                }
            }
            cur_row.push(best_val);
            par.push(best_prev);
        }
        cur += 1;
    }
    (cur_row, par)
}

/// The lanes of strip `strip` over the core rows: each core row holds the
/// five lanes (the strip's five passes, `occ_to_pass` naming the pass of
/// each) in some order, each lane moving at most one column from row to
/// row and meeting its pass's top port on the first core row and bottom
/// port on the last. Among such arrangements, the one of highest value
/// (each cell's weight times its position in the route) found by a DP over
/// the rows, with the first state on ties. `None` exactly when there is no
/// such arrangement.
pub fn solve_strip_paths(
    n: usize,
    weights: &[i64],
    strip: usize,
    occ_to_pass: &[usize; 5],
    pass_start: &Vec<usize>,
    pass_dir_down: &Vec<bool>,
    top_port: &Vec<Option<usize>>,
    bottom_port: &Vec<Option<usize>>,
    perms: &Vec<[usize; 5]>,
    transitions: &Vec<Vec<usize>>,
) -> (res: Option<StripSolution>)
    requires
        7 <= n <= 1000,
        n * n <= MAX_CELLS,
        weights@.len() == n * n,
        weights_bounded(weights@),
        strip * 5 + 4 < n,
        pass_start@.len() == pass_dir_down@.len() == top_port@.len() == bottom_port@.len(),
        forall|o: int| 0 <= o < 5 ==> #[trigger] occ_to_pass@[o] < pass_start@.len(),
        forall|p: int| 0 <= p < pass_start@.len() ==> #[trigger] pass_start@[p] <= MAX_CELLS,
        perm_tables_ok(perms@, transitions@),
    ensures
        res matches Some(sol) ==> lanes_ok(strip as int, occ_to_pass@, top_port@, bottom_port@, n - 2 * MARGIN, solution_rows(sol)),
        res is None <==> !exists|rows: Seq<Seq<usize>>| #[trigger] lanes_ok(strip as int, occ_to_pass@, top_port@, bottom_port@,
            n - 2 * MARGIN, rows),
        res matches Some(sol) ==> forall|rows: Seq<Seq<usize>>| #[trigger] lanes_ok(strip as int, occ_to_pass@, top_port@, bottom_port@,
            n - 2 * MARGIN, rows) ==> strip_lanes_value(n as int, weights@, strip as int, occ_to_pass@, pass_start@, pass_dir_down@, rows)
                <= strip_lanes_value(n as int, weights@, strip as int, occ_to_pass@, pass_start@, pass_dir_down@, solution_rows(sol)),
{
    let h = n - 2 * MARGIN;
    let count = perms.len();
    let ghost hh = h as int;
    let ghost allowed = |r: int, s: int| row_allowed(strip as int, occ_to_pass@, top_port@, bottom_port@, hh, r, perms@[s]@);
    let ghost score = strip_score_fn(n as int, weights@, strip as int, occ_to_pass@, pass_start@, pass_dir_down@);
    let mut row_scores: Vec<Vec<i64>> = Vec::new();
    let mut r: usize = 0;
    while r < h
        invariant
            7 <= n <= 1000,
            n * n <= MAX_CELLS,
            h == n - 2 * MARGIN,
            hh == h,
            weights@.len() == n * n,
            weights_bounded(weights@),
            strip * 5 + 4 < n,
            pass_start@.len() == pass_dir_down@.len() == top_port@.len() == bottom_port@.len(),
            forall|o: int| 0 <= o < 5 ==> #[trigger] occ_to_pass@[o] < pass_start@.len(),
            forall|p: int| 0 <= p < pass_start@.len() ==> #[trigger] pass_start@[p] <= MAX_CELLS,
            perm_tables_ok(perms@, transitions@),
            count == perms@.len(),
            allowed == (|r: int, s: int| row_allowed(strip as int, occ_to_pass@, top_port@, bottom_port@, hh, r, perms@[s]@)),
            r <= h,
            row_scores@.len() == r,
            forall|x: int| 0 <= x < r ==> (#[trigger] row_scores@[x])@.len() == count,
            forall|x: int, s: int| 0 <= x < r && 0 <= s < count ==> (#[trigger] row_scores@[x]@[s] != NEG_INF <==> allowed(x, s)),
            forall|x: int, s: int| 0 <= x < r && 0 <= s < count ==> (#[trigger] row_scores@[x]@[s] == NEG_INF
                || -row_bound() <= row_scores@[x]@[s] <= row_bound()),
            score == strip_score_fn(n as int, weights@, strip as int, occ_to_pass@, pass_start@, pass_dir_down@),
            forall|x: int, s: int| 0 <= x < r && 0 <= s < count && #[trigger] row_scores@[x]@[s] != NEG_INF
                ==> row_scores@[x]@[s] == score(x, perms@[s]@),
        decreases h - r,
    {
        let mut coeff: [i64; 5] = [0i64; 5];
        let mut occ: usize = 0;
        while occ < STRIP_W
            invariant
                h == n - 2 * MARGIN,
                n <= 1000,
                r < h,
                pass_start@.len() == pass_dir_down@.len(),
                forall|o: int| 0 <= o < 5 ==> #[trigger] occ_to_pass@[o] < pass_start@.len(),
                forall|p: int| 0 <= p < pass_start@.len() ==> #[trigger] pass_start@[p] <= MAX_CELLS,
                occ <= STRIP_W,
                forall|o: int| 0 <= o < 5 ==> 0 <= #[trigger] coeff@[o] <= 2 * MAX_CELLS,
                forall|o: int| 0 <= o < occ ==> #[trigger] coeff@[o]
                    == lane_coeff(pass_start@, pass_dir_down@, occ_to_pass@, h as int, r as int)[o],
            decreases STRIP_W - occ,
        {
            let pass = occ_to_pass[occ];
            let base = pass_start[pass] as i64;
            coeff[occ] = if pass_dir_down[pass] { base + r as i64 } else { base + (h - 1 - r) as i64 };
            occ += 1;
        }
        proof {
            assert(coeff@ =~= lane_coeff(pass_start@, pass_dir_down@, occ_to_pass@, h as int, r as int));
        }
        let mut row: Vec<i64> = Vec::new();
        let mut idx: usize = 0;
        while idx < count
            invariant
                7 <= n <= 1000,
                n * n <= MAX_CELLS,
                h == n - 2 * MARGIN,
                hh == h,
                weights@.len() == n * n,
                weights_bounded(weights@),
                strip * 5 + 4 < n,
                pass_start@.len() == top_port@.len() == bottom_port@.len(),
                forall|o: int| 0 <= o < 5 ==> #[trigger] occ_to_pass@[o] < pass_start@.len(),
                forall|o: int| 0 <= o < 5 ==> 0 <= #[trigger] coeff@[o] <= 2 * MAX_CELLS,
                perm_tables_ok(perms@, transitions@),
                count == perms@.len(),
                allowed == (|r: int, s: int| row_allowed(strip as int, occ_to_pass@, top_port@, bottom_port@, hh, r, perms@[s]@)),
                r < h,
                idx <= count,
                row@.len() == idx,
                forall|s: int| 0 <= s < idx ==> (#[trigger] row@[s] != NEG_INF <==> allowed(r as int, s)),
                forall|s: int| 0 <= s < idx ==> (#[trigger] row@[s] == NEG_INF || -row_bound() <= row@[s] <= row_bound()),
                coeff@ == lane_coeff(pass_start@, pass_dir_down@, occ_to_pass@, h as int, r as int),
                score == strip_score_fn(n as int, weights@, strip as int, occ_to_pass@, pass_start@, pass_dir_down@),
                forall|s: int| 0 <= s < idx && #[trigger] row@[s] != NEG_INF ==> row@[s] == score(r as int, perms@[s]@),
            decreases count - idx,
        {
            let perm = &perms[idx];
            proof {
                assert(is_perm5(perms@[idx as int]@));
            }
            let top_ok = r != 0 || ports_allow(strip, occ_to_pass, top_port, perm);
            let bottom_ok = r + 1 != h || ports_allow(strip, occ_to_pass, bottom_port, perm);
            if top_ok && bottom_ok {
                let v = row_value(n, weights, strip, r, perm, &coeff);
                row.push(v);
            } else {
                row.push(NEG_INF);
            }
            idx += 1;
        }
        let ghost before = row_scores@;
        row_scores.push(row);
        proof {
            assert forall|x: int| 0 <= x < r + 1 implies (#[trigger] row_scores@[x])@.len() == count by {
                if x < r {
                    assert(row_scores@[x] == before[x]);
                }
            }
            assert forall|x: int, s: int| 0 <= x < r + 1 && 0 <= s < count implies (#[trigger] row_scores@[x]@[s] != NEG_INF <==> allowed(x, s))
                && (row_scores@[x]@[s] == NEG_INF || -row_bound() <= row_scores@[x]@[s] <= row_bound())
                && (row_scores@[x]@[s] != NEG_INF ==> row_scores@[x]@[s] == score(x, perms@[s]@)) by {
                if x < r {
                    assert(row_scores@[x] == before[x]);
                }
            }
        }
        r += 1;
    }
    let mut dp: Vec<Vec<i64>> = Vec::new();
    let mut parent: Vec<Vec<usize>> = Vec::new();
    let mut first: Vec<i64> = Vec::new();
    let mut first_par: Vec<usize> = Vec::new();
    let mut idx: usize = 0;
    while idx < count
        invariant
            count == perms@.len(),
            row_scores@.len() == h >= 1,
            row_scores@[0]@.len() == count,
            idx <= count,
            first@.len() == idx,
            first_par@.len() == idx,
            forall|s: int| 0 <= s < idx ==> #[trigger] first@[s] == row_scores@[0]@[s],
        decreases count - idx,
    {
        first.push(row_scores[0][idx]);
        first_par.push(usize::MAX);
        idx += 1;
    }
    dp.push(first);
    parent.push(first_par);
    proof {
        assert(dp@[0]@ =~= row_scores@[0]@);
        assert(strip_dp_values(dp@, parent@, row_scores@, perms@, score, h as int));
        assert forall|s: int| 0 <= s < count implies (#[trigger] dp@[0]@[s] != NEG_INF <==> allowed(0, s))
            && (dp@[0]@[s] == NEG_INF || -row_bound() <= dp@[0]@[s] <= row_bound()) by {
            assert(row_scores@[0]@[s] != NEG_INF <==> allowed(0, s));
        }
        assert(dp_row_ok(dp@, parent@, perms@, allowed, 0));
    }
    let mut r: usize = 1;
    while r < h
        invariant
            h == n - 2 * MARGIN,
            n <= 1000,
            count == perms@.len(),
            perm_tables_ok(perms@, transitions@),
            row_scores@.len() == h,
            forall|x: int| 0 <= x < h ==> (#[trigger] row_scores@[x])@.len() == count,
            forall|x: int, s: int| 0 <= x < h && 0 <= s < count ==> (#[trigger] row_scores@[x]@[s] != NEG_INF <==> allowed(x, s)),
            forall|x: int, s: int| 0 <= x < h && 0 <= s < count ==> (#[trigger] row_scores@[x]@[s] == NEG_INF
                || -row_bound() <= row_scores@[x]@[s] <= row_bound()),
            1 <= r <= h,
            dp@.len() == r,
            parent@.len() == r,
            forall|x: int| 0 <= x < r ==> #[trigger] dp_row_ok(dp@, parent@, perms@, allowed, x),
            forall|x: int| 0 <= x < r ==> (#[trigger] dp@[x])@.len() == count,
            strip_dp_values(dp@, parent@, row_scores@, perms@, score, h as int),
        decreases h - r,
    {
        proof {
            assert(dp_row_ok(dp@, parent@, perms@, allowed, r - 1));
            let prev = dp@[r - 1]@;
            assert forall|s: int| 0 <= s < count implies (#[trigger] prev[s] == NEG_INF || -r * row_bound() <= prev[s] <= r * row_bound()) by {
                if r - 1 == 0 {
                    assert(first_row_ok(dp@[0]@, perms@, allowed));
                } else {
                    assert(row_step_ok(dp@[r - 2]@, dp@[r - 1]@, parent@[r - 1]@, perms@, allowed, r - 1));
                }
            }
            assert forall|s: int| 0 <= s < count implies (#[trigger] row_scores@[r as int]@[s] != NEG_INF <==> allowed(r as int, s))
                && (row_scores@[r as int]@[s] == NEG_INF || -row_bound() <= row_scores@[r as int]@[s] <= row_bound()) by {}
        }
        let (cur_row, par) = dp_next_row(&dp[r - 1], &row_scores[r], transitions, Ghost(perms@), Ghost(allowed), Ghost(r as int));
        let ghost before_dp = dp@;
        let ghost before_par = parent@;
        dp.push(cur_row);
        parent.push(par);
        proof {
            assert forall|x: int| 0 <= x < r + 1 implies #[trigger] dp_row_ok(dp@, parent@, perms@, allowed, x) by {
                if x < r {
                    assert(dp_row_ok(before_dp, before_par, perms@, allowed, x));
                    assert(dp@[x] == before_dp[x] && parent@[x] == before_par[x]);
                    if x > 0 {
                        assert(dp@[x - 1] == before_dp[x - 1]);
                    }
                } else {
                    assert(dp@[x - 1] == before_dp[x - 1]);
                }
            }
            assert forall|x: int| 0 <= x < r + 1 implies (#[trigger] dp@[x])@.len() == count by {
                if x < r {
                    assert(dp@[x] == before_dp[x]);
                }
            }
            assert forall|x: int| 1 <= x < dp@.len() implies #[trigger] row_step_best(dp@[x - 1]@, dp@[x]@, parent@[x]@,
                row_scores@[x]@, perms@) by {
                if x < r {
                    assert(row_step_best(before_dp[x - 1]@, before_dp[x]@, before_par[x]@, row_scores@[x]@, perms@));
                    assert(dp@[x] == before_dp[x] && dp@[x - 1] == before_dp[x - 1] && parent@[x] == before_par[x]);
                } else {
                    assert(dp@[x - 1] == before_dp[x - 1]);
                }
            }
            assert(dp@[0] == before_dp[0]);
            assert(strip_dp_values(dp@, parent@, row_scores@, perms@, score, h as int));
        }
        r += 1;
    }
    let last = h - 1;
    proof {
        assert(dp_row_ok(dp@, parent@, perms@, allowed, last as int));
        assert((last + 1) * row_bound() <= 10_000_000_000_000_000) by (nonlinear_arith) requires last < 1000;
        assert forall|s: int| 0 <= s < count implies #[trigger] dp@[last as int]@[s] >= NEG_INF by {
            if last == 0 {
                assert(first_row_ok(dp@[0]@, perms@, allowed));
            } else {
                assert(row_step_ok(dp@[last - 1]@, dp@[last as int]@, parent@[last as int]@, perms@, allowed, last as int));
            }
            assert(dp@[last as int]@[s] == NEG_INF || -(last + 1) * row_bound() <= dp@[last as int]@[s]);
        }
    }
    let mut best_last: usize = usize::MAX;
    let mut best_val: i64 = NEG_INF;
    let mut idx: usize = 0;
    while idx < count
        invariant
            count == perms@.len(),
            dp@.len() == h,
            last == h - 1,
            dp@[last as int]@.len() == count,
            idx <= count,
            best_last == usize::MAX || (best_last < count && dp@[last as int]@[best_last as int] != NEG_INF),
            best_last == usize::MAX <==> best_val == NEG_INF,
            best_last != usize::MAX ==> best_val == dp@[last as int]@[best_last as int],
            forall|s: int| 0 <= s < count ==> #[trigger] dp@[last as int]@[s] >= NEG_INF,
            forall|s: int| 0 <= s < idx && #[trigger] dp@[last as int]@[s] != NEG_INF ==> best_last != usize::MAX,
            forall|s: int| 0 <= s < idx ==> #[trigger] dp@[last as int]@[s] <= best_val,
        decreases count - idx,
    {
        let v = dp[last][idx];
        if v > best_val {
            best_val = v;
            best_last = idx;
        }
        idx += 1;
    }
    if best_last == usize::MAX || best_val == NEG_INF {
        proof {
            assert forall|rows: Seq<Seq<usize>>| !#[trigger] lanes_ok(strip as int, occ_to_pass@, top_port@, bottom_port@,
                n - 2 * MARGIN, rows) by {
                if lanes_ok(strip as int, occ_to_pass@, top_port@, bottom_port@, n - 2 * MARGIN, rows) {
                    let idxs = Seq::new(h as nat, |x: int| choose|i: int| 0 <= i < perms@.len() && #[trigger] perms@[i]@ == rows[x]);
                    assert forall|x: int| 0 <= x < idxs.len() implies 0 <= #[trigger] idxs[x] < perms@.len() && allowed(x, idxs[x])
                        && perms@[idxs[x]]@ == rows[x] by {
                        assert(is_perm5(rows[x]));
                    }
                    assert forall|x: int| 1 <= x < idxs.len() implies transition_ok(perms@[#[trigger] idxs[x - 1]]@, perms@[idxs[x]]@) by {
                        assert(perms@[idxs[x - 1]]@ == rows[x - 1] && perms@[idxs[x]]@ == rows[x]);
                    }
                    lemma_dp_reaches(dp@, parent@, perms@, allowed, idxs, last as int);
                }
            }
        }
        return None;
    }
    proof {
        assert forall|rows: Seq<Seq<usize>>| #[trigger] lanes_ok(strip as int, occ_to_pass@, top_port@, bottom_port@,
            n - 2 * MARGIN, rows) implies path_value(score, rows, h as int) <= best_val by {
            let idxs = Seq::new(h as nat, |x: int| choose|i: int| 0 <= i < perms@.len() && #[trigger] perms@[i]@ == rows[x]);
            assert forall|x: int| 0 <= x < idxs.len() implies 0 <= #[trigger] idxs[x] < perms@.len() && allowed(x, idxs[x])
                && perms@[idxs[x]]@ == rows[x] by {
                assert(is_perm5(rows[x]));
            }
            assert forall|x: int| 1 <= x < idxs.len() implies transition_ok(perms@[#[trigger] idxs[x - 1]]@, perms@[idxs[x]]@) by {
                assert(perms@[idxs[x - 1]]@ == rows[x - 1] && perms@[idxs[x]]@ == rows[x]);
            }
            lemma_strip_dp_upper(dp@, parent@, row_scores@, perms@, allowed, score, rows, idxs, last as int);
            assert(dp@[last as int]@[idxs[last as int]] <= best_val);
        }
    }
    let mut rows: Vec<[u8; 5]> = vec![[0u8; 5]; h];
    let ghost mut st: Seq<usize> = Seq::new(h as nat, |x: int| 0usize);
    let mut cur = best_last;
    let mut r = h;
    while r > 0
        invariant
            count == perms@.len(),
            perm_tables_ok(perms@, transitions@),
            h >= 1,
            dp@.len() == h,
            parent@.len() == h,
            forall|x: int| 0 <= x < h ==> #[trigger] dp_row_ok(dp@, parent@, perms@, allowed, x),
            rows@.len() == h,
            st.len() == h,
            r <= h,
            r > 0 ==> cur < count && dp@[r - 1]@[cur as int] != NEG_INF,
            r == h ==> cur == best_last,
            r < h ==> st[r as int] == best_last || true,
            0 < r < h ==> cur == parent@[r as int]@[st[r as int] as int],
            forall|x: int| r <= x < h ==> #[trigger] st[x] < count && dp@[x]@[st[x] as int] != NEG_INF
                && (forall|o: int| 0 <= o < 5 ==> (#[trigger] rows@[x]@[o]) as usize == perms@[st[x] as int]@[o]),
            forall|x: int| r < x < h ==> #[trigger] st[x - 1] == parent@[x]@[st[x] as int],
            last == h - 1,
            r < h ==> st[last as int] == best_last,
            best_last < count && best_val == dp@[last as int]@[best_last as int],
            strip_dp_values(dp@, parent@, row_scores@, perms@, score, h as int),
            row_scores@.len() == h,
            forall|x: int| 0 <= x < h ==> (#[trigger] row_scores@[x])@.len() == count,
            forall|x: int, s: int| 0 <= x < h && 0 <= s < count ==> (#[trigger] row_scores@[x]@[s] != NEG_INF <==> allowed(x, s)),
            score == strip_score_fn(n as int, weights@, strip as int, occ_to_pass@, pass_start@, pass_dir_down@),
            h == n - 2 * MARGIN,
            forall|rows: Seq<Seq<usize>>| #[trigger] lanes_ok(strip as int, occ_to_pass@, top_port@, bottom_port@,
                n - 2 * MARGIN, rows) ==> path_value(score, rows, h as int) <= best_val,
        decreases r,
    {
        r -= 1;
        let pm = perms[cur];
        proof {
            assert(is_perm5(pm@));
            assert(pm@[0] < 5 && pm@[1] < 5 && pm@[2] < 5 && pm@[3] < 5 && pm@[4] < 5);
        }
        let ghost rows_before = rows@;
        rows.set(r, [pm[0] as u8, pm[1] as u8, pm[2] as u8, pm[3] as u8, pm[4] as u8]);
        proof {
            st = st.update(r as int, cur);
            assert forall|x: int| r <= x < h implies #[trigger] st[x] < count && dp@[x]@[st[x] as int] != NEG_INF
                && (forall|o: int| 0 <= o < 5 ==> (#[trigger] rows@[x]@[o]) as usize == perms@[st[x] as int]@[o]) by {
                if x > r {
                    assert(rows@[x] == rows_before[x]);
                }
            }
        }
        if r > 0 {
            proof {
                assert(dp_row_ok(dp@, parent@, perms@, allowed, r as int));
                assert(row_step_ok(dp@[r - 1]@, dp@[r as int]@, parent@[r as int]@, perms@, allowed, r as int));
            }
            let prev = parent[r][cur];
            if prev == usize::MAX {
                proof {
                    assert(parent@[r as int]@[cur as int] < count);
                }
                return None;
            }
            cur = prev;
        }
    }
    let sol = StripSolution { rows };
    proof {
        let got = solution_rows(sol);
        assert forall|x: int| 0 <= x < h implies #[trigger] got[x] == perms@[st[x] as int]@ by {
            assert(got[x] =~= perms@[st[x] as int]@) by {
                assert forall|o: int| 0 <= o < 5 implies got[x][o] == perms@[st[x] as int]@[o] by {
                    assert((rows@[x]@[o]) as usize == perms@[st[x] as int]@[o]);
                }
            }
        }
        assert forall|x: int| 0 <= x < h implies #[trigger] is_perm5(got[x])
            && row_allowed(strip as int, occ_to_pass@, top_port@, bottom_port@, h as int, x, got[x]) by {
            assert(dp_row_ok(dp@, parent@, perms@, allowed, x));
            assert(dp@[x]@[st[x] as int] != NEG_INF);
            assert(allowed(x, st[x] as int));
        }
        assert forall|x: int| 1 <= x < h implies transition_ok(#[trigger] got[x - 1], got[x]) by {
            assert(dp_row_ok(dp@, parent@, perms@, allowed, x));
            assert(dp@[x]@[st[x] as int] != NEG_INF);
            assert(st[x - 1] == parent@[x]@[st[x] as int]);
            assert(got[x - 1] == perms@[st[x - 1] as int]@);
        }
        assert(lanes_ok(strip as int, occ_to_pass@, top_port@, bottom_port@, n - 2 * MARGIN, got));
        lemma_strip_dp_exact(dp@, parent@, row_scores@, perms@, allowed, score, got, st, h as int, last as int);
    }
    Some(sol)
}

/// How often `v` occurs among the first `k` entries of `s`.
pub open spec fn occurrences(s: Seq<usize>, v: int, k: int) -> nat
    decreases k,
{
    if k <= 0 { 0 } else { occurrences(s, v, k - 1) + if s[k - 1] == v { 1nat } else { 0nat } }
}

/// The direction of pass `p`: passes alternate, the first going down when
/// `start_down`.
pub open spec fn pass_down(start_down: bool, p: int) -> bool {
    if p % 2 == 0 { start_down } else { !start_down }
}

/// The plain conditions on a strip sequence for the strip construction:
/// a side that is an even multiple of five and at least seven, one pass per
/// column, consecutive passes in neighbouring strips, each strip passed five
/// times.
pub open spec fn strip_route_shape(n: int, strip_seq: Seq<usize>) -> bool {
    &&& n % 5 == 0 && n >= 7 && n % 2 == 0
    &&& strip_seq.len() == n
    &&& forall|p: int| 0 <= p < strip_seq.len() - 1 ==> #[trigger] dist(strip_seq[p] as int, strip_seq[p + 1] as int) == 1
    &&& forall|s: int| 0 <= s < n / 5 ==> #[trigger] occurrences(strip_seq, s, strip_seq.len() as int) == 5
}

fn copy_vec(v: &Vec<usize>) -> (res: Vec<usize>)
    ensures
        res@ == v@,
{
    let mut res: Vec<usize> = Vec::new();
    let mut k: usize = 0;
    while k < v.len()
        invariant
            k <= v@.len(),
            res@ == v@.subrange(0, k as int),
        decreases v@.len() - k,
    {
        res.push(v[k]);
        k += 1;
        proof {
            assert(res@ =~= v@.subrange(0, k as int));
        }
    }
    proof {
        assert(v@.subrange(0, v@.len() as int) =~= v@);
    }
    res
}

/// Port index of the `a`-th port assignment of the connectors: connector
/// `a / 2` leaves pass `p` (even `a`) and enters pass `p + 1` (odd `a`).
pub open spec fn conn_index(cs: Seq<ConnectorPlan>, a: int) -> int {
    if a % 2 == 0 { cs[a / 2].p as int } else { cs[a / 2].p + 1 }
}

/// Port value of the `a`-th port assignment of the connectors.
pub open spec fn conn_port(cs: Seq<ConnectorPlan>, a: int) -> usize {
    if a % 2 == 0 { cs[a / 2].from_port } else { cs[a / 2].to_port }
}

/// The first `k` port assignments agree with the ports already recorded
/// and with one another.
pub open spec fn ports_agree(ports: Seq<Option<usize>>, cs: Seq<ConnectorPlan>, k: int) -> bool {
    &&& forall|a: int| 0 <= a < k ==> (#[trigger] ports[conn_index(cs, a)] is None
        || ports[conn_index(cs, a)] == Some(conn_port(cs, a)))
    &&& forall|a: int, b: int| 0 <= a < k && 0 <= b < k && #[trigger] conn_index(cs, a) == #[trigger] conn_index(cs, b)
        ==> conn_port(cs, a) == conn_port(cs, b)
}

/// `cur` is `start` with the first `k` (agreeing) assignments made.
pub open spec fn ports_assigned(start: Seq<Option<usize>>, cur: Seq<Option<usize>>, cs: Seq<ConnectorPlan>, k: int) -> bool {
    &&& cur.len() == start.len()
    &&& ports_agree(start, cs, k)
    &&& forall|a: int| 0 <= a < k ==> cur[#[trigger] conn_index(cs, a)] == Some(conn_port(cs, a))
    &&& forall|i: int| 0 <= i < cur.len() && (forall|a: int| 0 <= a < k ==> #[trigger] conn_index(cs, a) != i)
        ==> cur[i] == start[i]
}

proof fn lemma_agree_prefix(ports: Seq<Option<usize>>, cs: Seq<ConnectorPlan>, k: int, k2: int)
    requires
        0 <= k <= k2,
        ports_agree(ports, cs, k2),
    ensures
        ports_agree(ports, cs, k),
{
}

/// One more assignment through `set_port`: it succeeds exactly when the
/// assignments so far and it agree, and then it is recorded.
proof fn lemma_assign_step(start: Seq<Option<usize>>, cur: Seq<Option<usize>>, cs: Seq<ConnectorPlan>, k: int, ok: bool,
    next: Seq<Option<usize>>)
    requires
        0 <= k,
        k / 2 < cs.len(),
        forall|a: int| 0 <= a <= k ==> 0 <= #[trigger] conn_index(cs, a) < start.len(),
        ports_assigned(start, cur, cs, k),
        ok == (cur[conn_index(cs, k)] is None || cur[conn_index(cs, k)] == Some(conn_port(cs, k))),
        next == (if cur[conn_index(cs, k)] is None { cur.update(conn_index(cs, k), Some(conn_port(cs, k))) } else { cur }),
    ensures
        ok == ports_agree(start, cs, k + 1),
        ok ==> ports_assigned(start, next, cs, k + 1),
{
    let idx = conn_index(cs, k);
    let v = conn_port(cs, k);
    assert(0 <= idx < start.len());
    if exists|a: int| 0 <= a < k && conn_index(cs, a) == idx {
        let a0 = choose|a: int| 0 <= a < k && conn_index(cs, a) == idx;
        assert(cur[conn_index(cs, a0)] == Some(conn_port(cs, a0)));
        if ok {
            assert(conn_port(cs, a0) == v);
            assert forall|a: int, b: int| 0 <= a < k + 1 && 0 <= b < k + 1 && #[trigger] conn_index(cs, a) == #[trigger] conn_index(cs, b)
                implies conn_port(cs, a) == conn_port(cs, b) by {
                if a == k && b < k {
                    assert(conn_port(cs, b) == conn_port(cs, a0));
                } else if b == k && a < k {
                    assert(conn_port(cs, a) == conn_port(cs, a0));
                }
            }
            assert(start[conn_index(cs, a0)] is None || start[conn_index(cs, a0)] == Some(conn_port(cs, a0)));
            assert(next == cur);
        } else {
            assert(conn_port(cs, a0) != v);
            assert(!ports_agree(start, cs, k + 1)) by {
                assert(conn_index(cs, a0) == conn_index(cs, k));
            }
        }
    } else {
        assert(cur[idx] == start[idx]);
        if ok {
            assert forall|a: int, b: int| 0 <= a < k + 1 && 0 <= b < k + 1 && #[trigger] conn_index(cs, a) == #[trigger] conn_index(cs, b)
                implies conn_port(cs, a) == conn_port(cs, b) by {
                if a == k && b < k {
                    assert(false);
                } else if b == k && a < k {
                    assert(false);
                }
            }
            assert forall|a: int| 0 <= a < k + 1 implies next[#[trigger] conn_index(cs, a)] == Some(conn_port(cs, a)) by {
                if a < k {
                    assert(conn_index(cs, a) != idx);
                }
            }
        } else {
            assert(!(start[conn_index(cs, k)] is None || start[conn_index(cs, k)] == Some(conn_port(cs, k))));
        }
    }
}

/// Records the ports of the connectors of `plan` (the port where each
/// leaves its pass and the one where it enters the next) and their cells;
/// `false` when a pass would get two different ports.
fn record_connectors(plan: &SidePlan, ports: &mut Vec<Option<usize>>, connector_cells: &mut Vec<Vec<usize>>,
    Ghost(n): Ghost<int>, Ghost(side): Ghost<Side>) -> (ok: bool)
    requires
        old(ports)@.len() == old(connector_cells)@.len() + 1,
        old(ports)@.len() <= MAX_CELLS,
        forall|i: int| 0 <= i < plan.connectors@.len() ==> (#[trigger] plan.connectors@[i]).p + 1 < old(ports)@.len()
            && margin_path(n, side, plan.connectors@[i].cells@, plan.connectors@[i].from_port as int, plan.connectors@[i].to_port as int),
        forall|p: int| 0 <= p < old(connector_cells)@.len() ==> (#[trigger] old(connector_cells)@[p])@.len() == 0
            || old(connector_cells)@[p]@.len() == 6,
    ensures
        final(ports)@.len() == old(ports)@.len(),
        final(connector_cells)@.len() == old(connector_cells)@.len(),
        ok == ports_agree(old(ports)@, plan.connectors@, (2 * plan.connectors@.len()) as int),
        ok ==> ports_assigned(old(ports)@, final(ports)@, plan.connectors@, (2 * plan.connectors@.len()) as int),
        ok ==> forall|i: int| 0 <= i < plan.connectors@.len()
            && (forall|j: int| i < j < plan.connectors@.len() ==> #[trigger] plan.connectors@[j].p != plan.connectors@[i].p)
            ==> final(connector_cells)@[plan.connectors@[i].p as int]@ == #[trigger] plan.connectors@[i].cells@,
        ok ==> forall|q: int| 0 <= q < old(connector_cells)@.len()
            && (forall|j: int| 0 <= j < plan.connectors@.len() ==> #[trigger] plan.connectors@[j].p != q)
            ==> #[trigger] final(connector_cells)@[q] == old(connector_cells)@[q],
        forall|p: int| 0 <= p < final(connector_cells)@.len() ==> (#[trigger] final(connector_cells)@[p])@.len() == 0
            || final(connector_cells)@[p]@.len() == 6,
{
    let ghost cs = plan.connectors@;
    proof {
        assert forall|a: int| 0 <= a < 2 * cs.len() implies 0 <= #[trigger] conn_index(cs, a) < ports@.len() by {
            assert(cs[a / 2].p + 1 < ports@.len());
        }
    }
    let mut i: usize = 0;
    while i < plan.connectors.len()
        invariant
            ports@.len() == old(ports)@.len() == connector_cells@.len() + 1,
            ports@.len() <= MAX_CELLS,
            connector_cells@.len() == old(connector_cells)@.len(),
            forall|j: int| 0 <= j < plan.connectors@.len() ==> (#[trigger] plan.connectors@[j]).p + 1 < ports@.len()
                && margin_path(n, side, plan.connectors@[j].cells@, plan.connectors@[j].from_port as int, plan.connectors@[j].to_port as int),
            forall|p: int| 0 <= p < connector_cells@.len() ==> (#[trigger] connector_cells@[p])@.len() == 0
                || connector_cells@[p]@.len() == 6,
            i <= plan.connectors@.len(),
            cs == plan.connectors@,
            ports_assigned(old(ports)@, ports@, cs, 2 * i),
            forall|a: int| 0 <= a < 2 * cs.len() ==> 0 <= #[trigger] conn_index(cs, a) < ports@.len(),
            forall|x: int| 0 <= x < i && (forall|j: int| x < j < i ==> #[trigger] cs[j].p != cs[x].p)
                ==> connector_cells@[cs[x].p as int]@ == #[trigger] cs[x].cells@,
            forall|q: int| 0 <= q < connector_cells@.len() && (forall|j: int| 0 <= j < i ==> #[trigger] cs[j].p != q)
                ==> #[trigger] connector_cells@[q] == old(connector_cells)@[q],
        decreases plan.connectors@.len() - i,
    {
        let c = &plan.connectors[i];
        proof {
            assert(c.p + 1 < ports@.len() && margin_path(n, side, c.cells@, c.from_port as int, c.to_port as int));
            assert(conn_index(cs, 2 * i) == c.p && conn_port(cs, 2 * i) == c.from_port);
            assert(conn_index(cs, 2 * i + 1) == c.p + 1 && conn_port(cs, 2 * i + 1) == c.to_port);
        }
        let next = c.p + 1;
        let ghost p0 = ports@;
        let ok1 = set_port(ports, c.p, c.from_port);
        proof {
            lemma_assign_step(old(ports)@, p0, cs, 2 * i, ok1, ports@);
            if !ok1 {
                if ports_agree(old(ports)@, cs, (2 * cs.len()) as int) {
                    lemma_agree_prefix(old(ports)@, cs, 2 * i + 1, (2 * cs.len()) as int);
                }
            }
        }
        if !ok1 {
            return false;
        }
        let ghost p1 = ports@;
        let ok2 = set_port(ports, next, c.to_port);
        proof {
            lemma_assign_step(old(ports)@, p1, cs, 2 * i + 1, ok2, ports@);
            if !ok2 {
                if ports_agree(old(ports)@, cs, (2 * cs.len()) as int) {
                    lemma_agree_prefix(old(ports)@, cs, 2 * i + 2, (2 * cs.len()) as int);
                }
            }
        }
        if !ok2 {
            return false;
        }
        let cells = copy_vec(&c.cells);
        let ghost before = connector_cells@;
        connector_cells.set(c.p, cells);
        proof {
            assert forall|p: int| 0 <= p < connector_cells@.len() implies (#[trigger] connector_cells@[p])@.len() == 0
                || connector_cells@[p]@.len() == 6 by {
                if p != c.p {
                    assert(connector_cells@[p] == before[p]);
                }
            }
            assert forall|x: int| 0 <= x < i + 1 && (forall|j: int| x < j < i + 1 ==> #[trigger] cs[j].p != cs[x].p)
                implies connector_cells@[cs[x].p as int]@ == #[trigger] cs[x].cells@ by {
                if x < i {
                    assert(cs[i as int].p != cs[x].p);
                    assert forall|j: int| x < j < i implies #[trigger] cs[j].p != cs[x].p by {}
                }
            }
            assert forall|q: int| 0 <= q < connector_cells@.len() && (forall|j: int| 0 <= j < i + 1 ==> #[trigger] cs[j].p != q)
                implies #[trigger] connector_cells@[q] == old(connector_cells)@[q] by {
                assert(cs[i as int].p != q);
                assert(connector_cells@[q] == before[q]);
            }
        }
        i += 1;
    }
    true
}

proof fn lemma_occurrences_mono(s: Seq<usize>, v: int, a: int, b: int)
    requires
        0 <= a <= b,
    ensures
        occurrences(s, v, a) <= occurrences(s, v, b),
    decreases b - a,
{
    if a < b {
        lemma_occurrences_mono(s, v, a, b - 1);
    }
}

/// `occ` lists the passes of strip `s` in order: `occ[o]` is the pass of
/// its `o`-th visit.
pub open spec fn strip_occ_ok(seq: Seq<usize>, s: int, occ: Seq<usize>) -> bool {
    &&& occ.len() == 5
    &&& forall|o: int| 0 <= o < 5 ==> #[trigger] occ[o] < seq.len() && seq[occ[o] as int] == s
        && occurrences(seq, s, occ[o] as int) == o
}

/// `ports` are the ports that `plan`'s connectors (and its closing path,
/// when `needs_suffix`) give the pass ends of its margin, and no others.
pub open spec fn plan_ports(n: int, plan: SidePlan, needs_suffix: bool, ports: Seq<Option<usize>>) -> bool {
    let cs = plan.connectors@;
    &&& ports.len() == n
    &&& forall|a: int| 0 <= a < 2 * cs.len() ==> ports[#[trigger] conn_index(cs, a)] == Some(conn_port(cs, a))
    &&& needs_suffix ==> ports[n - 1] == plan.suffix_start_port
    &&& forall|i: int| 0 <= i < n && (forall|a: int| 0 <= a < 2 * cs.len() ==> #[trigger] conn_index(cs, a) != i)
        && !(needs_suffix && i == n - 1) ==> ports[i] is None
}

/// `route` is the strip walk of `seq` for some fitting pieces: lanes,
/// margin paths and closing path.
pub open spec fn strip_walk_of(n: int, seq: Seq<usize>, start_down: bool, route: Seq<usize>) -> bool {
    exists|rows: Seq<Seq<Seq<usize>>>, pass_occ: Seq<usize>, occ_to_pass: Seq<Seq<usize>>,
        conns: Seq<Seq<usize>>, suffix: Seq<usize>, tp: Seq<Option<usize>>, bp: Seq<Option<usize>>|
        #[trigger] walk_pieces_ok(n, seq, start_down, rows, pass_occ, occ_to_pass, conns, suffix, tp, bp)
        && route == strip_walk(n, seq, start_down, rows, pass_occ, conns, suffix)
}

/// Plans for both margins and the ports they give.
pub open spec fn plans_fit(n: int, seq: Seq<usize>, start_down: bool, tplan: SidePlan, bplan: SidePlan,
    tports: Seq<Option<usize>>, bports: Seq<Option<usize>>) -> bool {
    let dirs = alternating_dirs(seq.len() as int, start_down);
    &&& plan_ok(n, Side::Top, seq, dirs, start_down, tplan)
    &&& plan_ok(n, Side::Bottom, seq, dirs, !start_down, bplan)
    &&& plan_ports(n, tplan, start_down, tports)
    &&& plan_ports(n, bplan, !start_down, bports)
}

/// What the strip construction needs to succeed: the sequence has the
/// shape, both margins can be planned (the closing path in the top margin
/// when the first pass goes down), and whatever plans are found, every
/// strip has a lane arrangement under the ports they give.
pub open spec fn strip_route_owed(n: int, seq: Seq<usize>, start_down: bool) -> bool {
    let dirs = alternating_dirs(seq.len() as int, start_down);
    &&& strip_route_shape(n, seq)
    &&& !side_blocked(n, seq, dirs, Side::Top, start_down)
    &&& !side_blocked(n, seq, dirs, Side::Bottom, !start_down)
    &&& forall|tplan: SidePlan, bplan: SidePlan, tports: Seq<Option<usize>>, bports: Seq<Option<usize>>|
        #[trigger] plans_fit(n, seq, start_down, tplan, bplan, tports, bports)
        ==> forall|x: int, occ: Seq<usize>| 0 <= x < n / 5 && #[trigger] strip_occ_ok(seq, x, occ)
            ==> exists|rows: Seq<Seq<usize>>| #[trigger] lanes_ok(x, occ, tports, bports, n - 6, rows)
}

/// The connectors of a plan for alternating passes sit two or more passes
/// apart, so their port assignments go to distinct pass ends; the closing
/// path's pass end is none of them.
proof fn lemma_plan_conn_distinct(n: int, side: Side, seq: Seq<usize>, sd: bool, ns: bool, plan: SidePlan)
    requires
        2 <= seq.len() <= MAX_CELLS,
        plan_ok(n, side, seq, alternating_dirs(seq.len() as int, sd), ns, plan),
        ns ==> connector_side(pass_down(sd, seq.len() - 2)) != side,
    ensures
        forall|a: int, b: int| 0 <= a < 2 * plan.connectors@.len() && 0 <= b < 2 * plan.connectors@.len() && a != b
            ==> #[trigger] conn_index(plan.connectors@, a) != #[trigger] conn_index(plan.connectors@, b),
        forall|a: int| 0 <= a < 2 * plan.connectors@.len() ==> 0 <= #[trigger] conn_index(plan.connectors@, a) < seq.len()
            && (ns ==> conn_index(plan.connectors@, a) != seq.len() - 1),
{
    let dirs = alternating_dirs(seq.len() as int, sd);
    let cs = plan.connectors@;
    let passes = side_passes(dirs, side, seq.len() - 1);
    lemma_side_passes(dirs, side, seq.len() - 1);
    assert forall|i: int, j: int| 0 <= i < j < cs.len() implies #[trigger] cs[i].p + 2 <= #[trigger] cs[j].p by {
        assert(cs[i].p == passes[i]);
        assert(cs[j].p == passes[j]);
        assert(passes[i] < passes[j]);
        assert(connector_side(dirs[passes[i] as int]) == side);
        assert(connector_side(dirs[passes[j] as int]) == side);
        assert(dirs[passes[i] as int] == pass_down(sd, passes[i] as int));
        assert(dirs[passes[j] as int] == pass_down(sd, passes[j] as int));
    }
    assert forall|a: int, b: int| 0 <= a < 2 * cs.len() && 0 <= b < 2 * cs.len() && a != b
        implies #[trigger] conn_index(cs, a) != #[trigger] conn_index(cs, b) by {
        let i = a / 2;
        let j = b / 2;
        if i < j {
            assert(cs[i].p + 2 <= cs[j].p);
        } else if j < i {
            assert(cs[j].p + 2 <= cs[i].p);
        }
    }
    assert forall|a: int| 0 <= a < 2 * cs.len() implies 0 <= #[trigger] conn_index(cs, a) < seq.len()
        && (ns ==> conn_index(cs, a) != seq.len() - 1) by {
        let i = a / 2;
        assert(cs[i].p == passes[i]);
        assert(passes[i] < seq.len() - 1);
        assert(connector_side(dirs[passes[i] as int]) == side);
        if ns && conn_index(cs, a) == seq.len() - 1 {
            assert(passes[i] == seq.len() - 2);
            assert(dirs[seq.len() - 2] == pass_down(sd, seq.len() - 2));
        }
    }
}

/// The ports recorded for a plan, with the closing path's port set at the
/// last pass end when `ns`, are `plan_ports`, and every port is a column.
proof fn lemma_plan_ports(n: int, side: Side, seq: Seq<usize>, sd: bool, ns: bool, plan: SidePlan,
    start: Seq<Option<usize>>, cur: Seq<Option<usize>>, fin: Seq<Option<usize>>)
    requires
        2 <= seq.len() == n <= MAX_CELLS,
        plan_ok(n, side, seq, alternating_dirs(seq.len() as int, sd), ns, plan),
        ns ==> connector_side(pass_down(sd, seq.len() - 2)) != side,
        start.len() == n,
        forall|i: int| 0 <= i < n ==> #[trigger] start[i] is None,
        ports_assigned(start, cur, plan.connectors@, (2 * plan.connectors@.len()) as int),
        fin == (if ns { cur.update(n - 1, plan.suffix_start_port) } else { cur }),
    ensures
        plan_ports(n, plan, ns, fin),
        forall|q: int| 0 <= q < n ==> (#[trigger] fin[q] matches Some(v) ==> v < n),
{
    let cs = plan.connectors@;
    lemma_plan_conn_distinct(n, side, seq, sd, ns, plan);
    assert forall|a: int| 0 <= a < 2 * cs.len() implies fin[#[trigger] conn_index(cs, a)] == Some(conn_port(cs, a)) by {
        assert(cur[conn_index(cs, a)] == Some(conn_port(cs, a)));
    }
    assert forall|i: int| 0 <= i < n && (forall|a: int| 0 <= a < 2 * cs.len() ==> #[trigger] conn_index(cs, a) != i)
        && !(ns && i == n - 1) implies fin[i] is None by {
        assert(cur[i] == start[i]);
    }
    assert forall|q: int| 0 <= q < n implies (#[trigger] fin[q] matches Some(v) ==> v < n) by {
        if fin[q] is Some {
            if exists|a: int| 0 <= a < 2 * cs.len() && #[trigger] conn_index(cs, a) == q {
                let a = choose|a: int| 0 <= a < 2 * cs.len() && #[trigger] conn_index(cs, a) == q;
                assert(fin[conn_index(cs, a)] == Some(conn_port(cs, a)));
                let c = cs[a / 2];
                assert(c.from_port < n && c.to_port < n);
            } else if ns && q == n - 1 {
            } else {
                assert(fin[q] is None);
            }
        }
    }
}

/// The connector cells after both margins are recorded: the margin path
/// after pass `q` is that of the plan of the margin where pass `q` ends.
/// A pass end of the top margin gets its top connector's cells.
proof fn lemma_conn_top(n: int, seq: Seq<usize>, sd: bool, tplan: SidePlan, bplan: SidePlan,
    cc1: Seq<Vec<usize>>, cc2: Seq<Vec<usize>>, q: int)
    requires
        2 <= seq.len() == n <= MAX_CELLS,
        0 <= q < n - 1,
        connector_side(pass_down(sd, q)) == Side::Top,
        plan_ok(n, Side::Top, seq, alternating_dirs(n, sd), sd, tplan),
        plan_ok(n, Side::Bottom, seq, alternating_dirs(n, sd), !sd, bplan),
        cc1.len() == n - 1,
        cc2.len() == n - 1,
        forall|i: int| 0 <= i < tplan.connectors@.len()
            && (forall|j: int| i < j < tplan.connectors@.len() ==> #[trigger] tplan.connectors@[j].p != tplan.connectors@[i].p)
            ==> cc1[tplan.connectors@[i].p as int]@ == #[trigger] tplan.connectors@[i].cells@,
        forall|x: int| 0 <= x < cc1.len()
            && (forall|j: int| 0 <= j < bplan.connectors@.len() ==> #[trigger] bplan.connectors@[j].p != x)
            ==> #[trigger] cc2[x] == cc1[x],
    ensures
        exists|i: int| 0 <= i < tplan.connectors@.len() && #[trigger] tplan.connectors@[i].p == q
            && cc2[q]@ == tplan.connectors@[i].cells@,
{
    let dirs = alternating_dirs(n, sd);
    let tcs = tplan.connectors@;
    let bcs = bplan.connectors@;
    let tpass = side_passes(dirs, Side::Top, n - 1);
    let bpass = side_passes(dirs, Side::Bottom, n - 1);
    lemma_side_passes(dirs, Side::Top, n - 1);
    lemma_side_passes(dirs, Side::Bottom, n - 1);
    assert(dirs[q] == pass_down(sd, q));
    assert(tpass.contains(q as usize));
    let i = choose|i: int| 0 <= i < tpass.len() && tpass[i] == q as usize;
    assert(tcs[i].p == tpass[i]);
    assert forall|j: int| i < j < tcs.len() implies #[trigger] tcs[j].p != tcs[i].p by {
        assert(tcs[j].p == tpass[j]);
    }
    assert(cc1[q]@ == tcs[i].cells@);
    assert forall|j: int| 0 <= j < bcs.len() implies #[trigger] bcs[j].p != q by {
        assert(bcs[j].p == bpass[j]);
        assert(connector_side(dirs[bpass[j] as int]) == Side::Bottom);
    }
    assert(cc2[q] == cc1[q]);
    assert(0 <= i < tcs.len() && tcs[i].p == q && cc2[q]@ == tcs[i].cells@);
}

/// A pass end of the bottom margin gets its bottom connector's cells.
proof fn lemma_conn_bottom(n: int, seq: Seq<usize>, sd: bool, bplan: SidePlan, cc2: Seq<Vec<usize>>, q: int)
    requires
        2 <= seq.len() == n <= MAX_CELLS,
        0 <= q < n - 1,
        connector_side(pass_down(sd, q)) == Side::Bottom,
        plan_ok(n, Side::Bottom, seq, alternating_dirs(n, sd), !sd, bplan),
        cc2.len() == n - 1,
        forall|i: int| 0 <= i < bplan.connectors@.len()
            && (forall|j: int| i < j < bplan.connectors@.len() ==> #[trigger] bplan.connectors@[j].p != bplan.connectors@[i].p)
            ==> cc2[bplan.connectors@[i].p as int]@ == #[trigger] bplan.connectors@[i].cells@,
    ensures
        exists|i: int| 0 <= i < bplan.connectors@.len() && #[trigger] bplan.connectors@[i].p == q
            && cc2[q]@ == bplan.connectors@[i].cells@,
{
    let dirs = alternating_dirs(n, sd);
    let bcs = bplan.connectors@;
    let bpass = side_passes(dirs, Side::Bottom, n - 1);
    lemma_side_passes(dirs, Side::Bottom, n - 1);
    assert(dirs[q] == pass_down(sd, q));
    assert(bpass.contains(q as usize));
    let i = choose|i: int| 0 <= i < bpass.len() && bpass[i] == q as usize;
    assert(bcs[i].p == bpass[i]);
    assert forall|j: int| i < j < bcs.len() implies #[trigger] bcs[j].p != bcs[i].p by {
        assert(bcs[j].p == bpass[j]);
    }
    assert(cc2[q]@ == bcs[i].cells@);
    assert(0 <= i < bcs.len() && bcs[i].p == q && cc2[q]@ == bcs[i].cells@);
}

#[verifier::spinoff_prover]
proof fn lemma_connectors_recorded(n: int, seq: Seq<usize>, sd: bool, tplan: SidePlan, bplan: SidePlan,
    cc1: Seq<Vec<usize>>, cc2: Seq<Vec<usize>>)
    requires
        2 <= seq.len() == n <= MAX_CELLS,
        n % 2 == 0,
        plan_ok(n, Side::Top, seq, alternating_dirs(n, sd), sd, tplan),
        plan_ok(n, Side::Bottom, seq, alternating_dirs(n, sd), !sd, bplan),
        cc1.len() == n - 1,
        cc2.len() == n - 1,
        forall|i: int| 0 <= i < tplan.connectors@.len()
            && (forall|j: int| i < j < tplan.connectors@.len() ==> #[trigger] tplan.connectors@[j].p != tplan.connectors@[i].p)
            ==> cc1[tplan.connectors@[i].p as int]@ == #[trigger] tplan.connectors@[i].cells@,
        forall|i: int| 0 <= i < bplan.connectors@.len()
            && (forall|j: int| i < j < bplan.connectors@.len() ==> #[trigger] bplan.connectors@[j].p != bplan.connectors@[i].p)
            ==> cc2[bplan.connectors@[i].p as int]@ == #[trigger] bplan.connectors@[i].cells@,
        forall|q: int| 0 <= q < cc1.len()
            && (forall|j: int| 0 <= j < bplan.connectors@.len() ==> #[trigger] bplan.connectors@[j].p != q)
            ==> #[trigger] cc2[q] == cc1[q],
    ensures
        forall|q: int| 0 <= q < n - 1 ==> #[trigger] conn_recorded(n, sd, tplan, bplan, cc2[q]@, q),
{
    assert forall|q: int| 0 <= q < n - 1 implies #[trigger] conn_recorded(n, sd, tplan, bplan, cc2[q]@, q) by {
        if connector_side(pass_down(sd, q)) == Side::Top {
            lemma_conn_top(n, seq, sd, tplan, bplan, cc1, cc2, q);
            let i = choose|i: int| 0 <= i < tplan.connectors@.len() && #[trigger] tplan.connectors@[i].p == q
                && cc2[q]@ == tplan.connectors@[i].cells@;
            assert(side_plan(connector_side(pass_down(sd, q)), tplan, bplan) == tplan);
            assert(side_plan(connector_side(pass_down(sd, q)), tplan, bplan).connectors@[i].p == q);
        } else {
            lemma_conn_bottom(n, seq, sd, bplan, cc2, q);
            let i = choose|i: int| 0 <= i < bplan.connectors@.len() && #[trigger] bplan.connectors@[i].p == q
                && cc2[q]@ == bplan.connectors@[i].cells@;
            assert(side_plan(connector_side(pass_down(sd, q)), tplan, bplan) == bplan);
            assert(side_plan(connector_side(pass_down(sd, q)), tplan, bplan).connectors@[i].p == q);
        }
    }
}

/// The margin path recorded after pass `q` is connector `i` of the plan of
/// the margin where pass `q` ends, for some `i` whose pass is `q`.
pub open spec fn conn_recorded(n: int, sd: bool, tplan: SidePlan, bplan: SidePlan, cells: Seq<usize>, q: int) -> bool {
    let plan = side_plan(connector_side(pass_down(sd, q)), tplan, bplan);
    exists|i: int| 0 <= i < plan.connectors@.len() && #[trigger] plan.connectors@[i].p == q && cells == plan.connectors@[i].cells@
}

/// The plan of `side`.
pub open spec fn side_plan(side: Side, tplan: SidePlan, bplan: SidePlan) -> SidePlan {
    if side == Side::Top { tplan } else { bplan }
}

/// The strip route for a strip sequence: pass `p` sweeps strip
/// `strip_seq[p]` down the core rows (when `pass_down(start_down, p)`) or up,
/// in the lane the strip's DP gave it; between passes run the connectors
/// that `plan_side` lays in the margin the pass ends at, and after the last
/// pass the closing path (`strip_walk`). `None` when the sequence does not
/// have the shape the construction needs (`strip_route_shape`), when a
/// margin cannot be planned, or when a strip has no lane arrangement under
/// the ports of the plans found; otherwise the walk is returned, and it is
/// always a route (the final check of it never fails).
pub fn build_route(
    n: usize,
    weights: &[i64],
    strip_seq: &Vec<usize>,
    start_down: bool,
    perms: &Vec<[usize; 5]>,
    transitions: &Vec<Vec<usize>>,
) -> (res: Option<Vec<usize>>)
    requires
        1 <= n <= 1000,
        n * n <= MAX_CELLS,
        weights@.len() == n * n,
        weights_bounded(weights@),
        perm_tables_ok(perms@, transitions@),
        (n % 5 == 0 && n >= 7 && n % 2 == 0 && strip_seq@.len() == n
            && forall|p: int| 0 <= p < strip_seq@.len() - 1 ==> #[trigger] dist(strip_seq@[p] as int, strip_seq@[p + 1] as int) == 1)
            ==> forall|p: int| 0 <= p < strip_seq@.len() ==> #[trigger] strip_seq@[p] < n / 5,
    ensures
        !strip_route_shape(n as int, strip_seq@) ==> res is None,
        res matches Some(route) ==> is_route(n as int, route@),
        side_unplannable(n as int, strip_seq@, alternating_dirs(strip_seq@.len() as int, start_down), Side::Top) ==> res is None,
        side_unplannable(n as int, strip_seq@, alternating_dirs(strip_seq@.len() as int, start_down), Side::Bottom) ==> res is None,
        strip_route_owed(n as int, strip_seq@, start_down) ==> res is Some,
        res matches Some(route) ==> strip_walk_of(n as int, strip_seq@, start_down, route@),
{
    if n % STRIP_W != 0 || n < 2 * MARGIN + 1 || n % 2 == 1 {
        return None;
    }
    let strip_count = n / STRIP_W;
    let pass_count = strip_seq.len();
    if pass_count != strip_count * STRIP_W {
        return None;
    }
    let mut p: usize = 0;
    while p + 1 < pass_count
        invariant
            pass_count == strip_seq@.len() == n,
            p + 1 <= pass_count,
            forall|q: int| 0 <= q < p ==> #[trigger] dist(strip_seq@[q] as int, strip_seq@[q + 1] as int) == 1,
        decreases pass_count - p,
    {
        if abs_diff(strip_seq[p], strip_seq[p + 1]) != 1 {
            return None;
        }
        p += 1;
    }
    proof {
        assert(forall|q: int| 0 <= q < strip_seq@.len() ==> #[trigger] strip_seq@[q] < n / 5);
    }
    let mut pass_dir_down: Vec<bool> = Vec::new();
    let mut p: usize = 0;
    while p < pass_count
        invariant
            p <= pass_count,
            pass_dir_down@.len() == p,
            forall|q: int| 0 <= q < p ==> #[trigger] pass_dir_down@[q] == pass_down(start_down, q),
        decreases pass_count - p,
    {
        pass_dir_down.push(if p % 2 == 0 { start_down } else { !start_down });
        p += 1;
    }
    proof {
        assert(pass_dir_down@ =~= alternating_dirs(pass_count as int, start_down));
    }
    let mut pass_occ: Vec<usize> = Vec::new();
    let mut occ_to_pass: Vec<[usize; 5]> = Vec::new();
    let mut occ_counter: Vec<usize> = Vec::new();
    let mut s: usize = 0;
    while s < strip_count
        invariant
            s <= strip_count,
            occ_to_pass@.len() == s,
            occ_counter@.len() == s,
            forall|x: int| 0 <= x < s ==> #[trigger] occ_counter@[x] == 0,
        decreases strip_count - s,
    {
        occ_to_pass.push([usize::MAX; 5]);
        occ_counter.push(0);
        s += 1;
    }
    let mut p: usize = 0;
    while p < pass_count
        invariant
            pass_count == strip_seq@.len() == n,
            strip_count == n / 5,
            forall|q: int| 0 <= q < strip_seq@.len() ==> #[trigger] strip_seq@[q] < n / 5,
            p <= pass_count,
            pass_occ@.len() == p,
            occ_to_pass@.len() == strip_count,
            occ_counter@.len() == strip_count,
            forall|q: int| 0 <= q < p ==> #[trigger] pass_occ@[q] < 5,
            forall|x: int| 0 <= x < strip_count ==> #[trigger] occ_counter@[x] == occurrences(strip_seq@, x, p as int)
                && occ_counter@[x] <= 5,
            forall|x: int, o: int| 0 <= x < strip_count && 0 <= o < occ_counter@[x] ==> #[trigger] occ_to_pass@[x]@[o] < pass_count,
            forall|x: int, o: int| 0 <= x < strip_count && 0 <= o < occ_counter@[x] ==> #[trigger] occ_to_pass@[x]@[o] < p
                && strip_seq@[occ_to_pass@[x]@[o] as int] == x
                && occurrences(strip_seq@, x, occ_to_pass@[x]@[o] as int) == o,
            forall|q: int| 0 <= q < p ==> #[trigger] pass_occ@[q] < occ_counter@[strip_seq@[q] as int]
                && occ_to_pass@[strip_seq@[q] as int]@[pass_occ@[q] as int] == q,
        decreases pass_count - p,
    {
        let s = strip_seq[p];
        let occ = occ_counter[s];
        if occ >= STRIP_W {
            proof {
                lemma_occurrences_mono(strip_seq@, s as int, p + 1, n as int);
                assert(occurrences(strip_seq@, s as int, p + 1) == occ + 1);
            }
            return None;
        }
        pass_occ.push(occ);
        let mut slots = occ_to_pass[s];
        slots[occ] = p;
        let ghost before = occ_to_pass@;
        let ghost counts_before = occ_counter@;
        occ_to_pass.set(s, slots);
        occ_counter.set(s, occ + 1);
        proof {
            assert forall|x: int| 0 <= x < strip_count implies #[trigger] occ_counter@[x] == occurrences(strip_seq@, x, p + 1)
                && occ_counter@[x] <= 5 by {
                if x != s {
                    assert(occ_counter@[x] == counts_before[x]);
                }
            }
            assert forall|x: int, o: int| 0 <= x < strip_count && 0 <= o < occ_counter@[x] implies #[trigger] occ_to_pass@[x]@[o] < pass_count by {
                if x != s {
                    assert(occ_to_pass@[x] == before[x]);
                    assert(occ_counter@[x] == counts_before[x]);
                } else if o < occ {
                    assert(occ_to_pass@[x]@[o] == before[x]@[o]);
                }
            }
            assert forall|x: int, o: int| 0 <= x < strip_count && 0 <= o < occ_counter@[x] implies #[trigger] occ_to_pass@[x]@[o] < p + 1
                && strip_seq@[occ_to_pass@[x]@[o] as int] == x
                && occurrences(strip_seq@, x, occ_to_pass@[x]@[o] as int) == o by {
                if x != s {
                    assert(occ_to_pass@[x] == before[x]);
                    assert(occ_counter@[x] == counts_before[x]);
                } else if o < occ {
                    assert(occ_to_pass@[x]@[o] == before[x]@[o]);
                } else {
                    assert(occ_to_pass@[x]@[o] == p);
                }
            }
            assert forall|q: int| 0 <= q < p + 1 implies #[trigger] pass_occ@[q] < occ_counter@[strip_seq@[q] as int]
                && occ_to_pass@[strip_seq@[q] as int]@[pass_occ@[q] as int] == q by {
                if q < p {
                    let x = strip_seq@[q] as int;
                    if x != s {
                        assert(occ_to_pass@[x] == before[x]);
                        assert(occ_counter@[x] == counts_before[x]);
                    } else {
                        assert(occ_to_pass@[x]@[pass_occ@[q] as int] == before[x]@[pass_occ@[q] as int]);
                    }
                }
            }
        }
        p += 1;
    }
    let mut s: usize = 0;
    while s < strip_count
        invariant
            strip_count == n / 5,
            occ_counter@.len() == strip_count,
            s <= strip_count,
            forall|x: int| 0 <= x < s ==> #[trigger] occ_counter@[x] == 5,
            forall|x: int| 0 <= x < strip_count ==> #[trigger] occ_counter@[x] == occurrences(strip_seq@, x, strip_seq@.len() as int),
        decreases strip_count - s,
    {
        if occ_counter[s] != STRIP_W {
            proof {
                assert(occurrences(strip_seq@, s as int, strip_seq@.len() as int) != 5);
            }
            return None;
        }
        s += 1;
    }
    proof {
        assert(strip_route_shape(n as int, strip_seq@)) by {
            assert forall|x: int| 0 <= x < n / 5 implies #[trigger] occurrences(strip_seq@, x, strip_seq@.len() as int) == 5 by {
                assert(occ_counter@[x] == 5);
            }
        }
        assert forall|x: int| 0 <= x < n / 5 implies #[trigger] strip_occ_ok(strip_seq@, x, occ_to_pass@[x]@) by {
            assert(occ_counter@[x] == 5);
        }
    }
    let suffix_top = start_down;
    let top_plan = match plan_side(n, Side::Top, strip_seq, &pass_dir_down, suffix_top) {
        Some(v) => v,
        None => return None,
    };
    let bottom_plan = match plan_side(n, Side::Bottom, strip_seq, &pass_dir_down, !suffix_top) {
        Some(v) => v,
        None => return None,
    };
    let mut top_port: Vec<Option<usize>> = Vec::new();
    let mut bottom_port: Vec<Option<usize>> = Vec::new();
    let mut connector_cells: Vec<Vec<usize>> = Vec::new();
    let mut p: usize = 0;
    while p < pass_count
        invariant
            p <= pass_count,
            top_port@.len() == p,
            bottom_port@.len() == p,
            connector_cells@.len() == if p == 0 { 0 } else { p - 1 },
            forall|q: int| 0 <= q < connector_cells@.len() ==> (#[trigger] connector_cells@[q])@.len() == 0,
            forall|q: int| 0 <= q < p ==> #[trigger] top_port@[q] is None && bottom_port@[q] is None,
        decreases pass_count - p,
    {
        top_port.push(None);
        bottom_port.push(None);
        if p > 0 {
            connector_cells.push(Vec::new());
        }
        p += 1;
    }
    let ghost none_ports = top_port@;
    let ghost cc0 = connector_cells@;
    let ghost dirs = pass_dir_down@;
    proof {
        assert(dirs =~= alternating_dirs(n as int, start_down));
        assert(bottom_port@ =~= none_ports);
        assert((n - 2) % 2 == 0);
        lemma_side_passes(pass_dir_down@, Side::Top, pass_count - 1);
        lemma_side_passes(pass_dir_down@, Side::Bottom, pass_count - 1);
        assert(plan_ok(n as int, Side::Top, strip_seq@, pass_dir_down@, suffix_top, top_plan));
        assert forall|i: int| 0 <= i < top_plan.connectors@.len() implies (#[trigger] top_plan.connectors@[i]).p + 1 < top_port@.len()
            && margin_path(n as int, Side::Top, top_plan.connectors@[i].cells@, top_plan.connectors@[i].from_port as int,
                top_plan.connectors@[i].to_port as int) by {
            assert(top_plan.connectors@[i].p == side_passes(pass_dir_down@, Side::Top, pass_count - 1)[i]);
        }
        assert forall|i: int| 0 <= i < bottom_plan.connectors@.len() implies (#[trigger] bottom_plan.connectors@[i]).p + 1 < bottom_port@.len()
            && margin_path(n as int, Side::Bottom, bottom_plan.connectors@[i].cells@, bottom_plan.connectors@[i].from_port as int,
                bottom_plan.connectors@[i].to_port as int) by {
            assert(bottom_plan.connectors@[i].p == side_passes(pass_dir_down@, Side::Bottom, pass_count - 1)[i]);
        }
        lemma_plan_conn_distinct(n as int, Side::Top, strip_seq@, start_down, start_down, top_plan);
        lemma_plan_conn_distinct(n as int, Side::Bottom, strip_seq@, start_down, !start_down, bottom_plan);
        assert(ports_agree(top_port@, top_plan.connectors@, (2 * top_plan.connectors@.len()) as int));
        assert(ports_agree(bottom_port@, bottom_plan.connectors@, (2 * bottom_plan.connectors@.len()) as int));
    }
    let ok_top = record_connectors(&top_plan, &mut top_port, &mut connector_cells, Ghost(n as int), Ghost(Side::Top));
    let ghost cc1 = connector_cells@;
    let ghost tcur = top_port@;
    if !ok_top {
        return None;
    }
    let ok_bottom = record_connectors(&bottom_plan, &mut bottom_port, &mut connector_cells, Ghost(n as int), Ghost(Side::Bottom));
    let ghost bcur = bottom_port@;
    if !ok_bottom {
        return None;
    }
    proof {
        lemma_connectors_recorded(n as int, strip_seq@, start_down, top_plan, bottom_plan, cc1, connector_cells@);
        assert forall|x: int| 0 <= x < n - 1 implies (#[trigger] connector_cells@[x])@.len() == 6 by {
            assert(conn_recorded(n as int, start_down, top_plan, bottom_plan, connector_cells@[x]@, x));
            let side = connector_side(pass_down(start_down, x));
            let plan = side_plan(side, top_plan, bottom_plan);
            let ns = if side == Side::Top { start_down } else { !start_down };
            let cs = plan.connectors@;
            let i = choose|i: int| 0 <= i < cs.len() && #[trigger] cs[i].p == x && connector_cells@[x]@ == cs[i].cells@;
            assert(plan_ok(n as int, side, strip_seq@, dirs, ns, plan));
        }
    }
    let ghost cc2 = connector_cells@;
    let mut q: usize = 0;
    while q + 1 < pass_count
        invariant
            pass_count == n,
            connector_cells@ == cc2,
            connector_cells@.len() == pass_count - 1,
            q + 1 <= pass_count,
            forall|x: int| 0 <= x < n - 1 ==> (#[trigger] connector_cells@[x])@.len() == 6,
        decreases pass_count - q,
    {
        if connector_cells[q].len() == 0 {
            return None;
        }
        q += 1;
    }
    let last_pass = pass_count - 1;
    proof {
        assert(plan_ok(n as int, Side::Top, strip_seq@, dirs, start_down, top_plan));
        assert(plan_ok(n as int, Side::Bottom, strip_seq@, dirs, !start_down, bottom_plan));
    }
    let suffix_cells = if suffix_top {
        let port = match top_plan.suffix_start_port {
            Some(v) => v,
            None => return None,
        };
        proof {
            assert(top_port@[last_pass as int] == none_ports[last_pass as int]);
        }
        if !set_port(&mut top_port, last_pass, port) {
            return None;
        }
        copy_vec(&top_plan.suffix_cells)
    } else {
        let port = match bottom_plan.suffix_start_port {
            Some(v) => v,
            None => return None,
        };
        proof {
            assert(bottom_port@[last_pass as int] == none_ports[last_pass as int]);
        }
        if !set_port(&mut bottom_port, last_pass, port) {
            return None;
        }
        copy_vec(&bottom_plan.suffix_cells)
    };
    proof {
        if start_down {
            assert(top_port@ == tcur.update(n - 1, top_plan.suffix_start_port));
            assert(bottom_port@ == bcur);
        } else {
            assert(bottom_port@ == bcur.update(n - 1, bottom_plan.suffix_start_port));
            assert(top_port@ == tcur);
        }
        lemma_plan_ports(n as int, Side::Top, strip_seq@, start_down, start_down, top_plan, none_ports, tcur, top_port@);
        lemma_plan_ports(n as int, Side::Bottom, strip_seq@, start_down, !start_down, bottom_plan, none_ports, bcur, bottom_port@);
        assert(plans_fit(n as int, strip_seq@, start_down, top_plan, bottom_plan, top_port@, bottom_port@));
    }
    let res = assemble_strip_walk(n, weights, strip_seq, start_down, &pass_occ, &occ_to_pass, &pass_dir_down, &top_port,
        &bottom_port, &connector_cells, &suffix_cells, perms, transitions, Ghost(top_plan), Ghost(bottom_plan));
    proof {
        if res is None && strip_route_owed(n as int, strip_seq@, start_down) {
            let x = choose|x: int| 0 <= x < n / 5
                && !#[trigger] strip_has_lanes(x, occ_to_pass@[x]@, top_port@, bottom_port@, n - 6);
            assert(strip_occ_ok(strip_seq@, x, occ_to_pass@[x]@));
            assert(exists|rows: Seq<Seq<usize>>| #[trigger] lanes_ok(x, occ_to_pass@[x]@, top_port@, bottom_port@, n - 6, rows));
            assert(false);
        }
    }
    res
}

/// Some row placement of the lanes of strip `x` keeps to the ports.
pub open spec fn strip_has_lanes(x: int, occ: Seq<usize>, tp: Seq<Option<usize>>, bp: Seq<Option<usize>>, h: int) -> bool {
    exists|rows: Seq<Seq<usize>>| #[trigger] lanes_ok(x, occ, tp, bp, h, rows)
}

/// The connectors and closing path of the plans found, with the ports
/// they give, are the margin pieces of a strip walk.
proof fn lemma_plan_pieces(n: int, seq: Seq<usize>, sd: bool, tplan: SidePlan, bplan: SidePlan,
    tp: Seq<Option<usize>>, bp: Seq<Option<usize>>, conns: Seq<Seq<usize>>, suffix: Seq<usize>)
    requires
        10 <= n,
        n % 2 == 0,
        n * n <= MAX_CELLS,
        seq.len() == n,
        plans_fit(n, seq, sd, tplan, bplan, tp, bp),
        conns.len() == n - 1,
        forall|q: int| 0 <= q < n - 1 ==> #[trigger] conn_recorded(n, sd, tplan, bplan, conns[q], q),
        suffix == (if sd { tplan.suffix_cells@ } else { bplan.suffix_cells@ }),
    ensures
        forall|q: int| 0 <= q < n - 1 ==> #[trigger] conn_piece_ok(n, sd, tp, bp, conns[q], q),
        ({
            let side = connector_side(pass_down(sd, n - 1));
            let ports = side_ports(side, tp, bp);
            &&& ports[n - 1] is Some
            &&& margin_path(n, side, suffix, ports[n - 1]->0 as int, col_of(n, suffix[5] as int))
        }),
        forall|q1: int, q2: int, x: int, y: int| 0 <= q1 < n - 1 && 0 <= q2 < n - 1 && q1 != q2 && 0 <= x < 6 && 0 <= y < 6
            ==> #[trigger] conns[q1][x] != #[trigger] conns[q2][y],
        forall|q: int, x: int, y: int| 0 <= q < n - 1 && 0 <= x < 6 && 0 <= y < 6
            ==> #[trigger] conns[q][x] != #[trigger] suffix[y],
{
    let dirs = alternating_dirs(n, sd);
    let tcs = tplan.connectors@;
    let bcs = bplan.connectors@;
    assert(plan_ok(n, Side::Top, seq, dirs, sd, tplan));
    assert(plan_ok(n, Side::Bottom, seq, dirs, !sd, bplan));
    assert(pass_down(sd, n - 1) == !sd);
    let fside = connector_side(pass_down(sd, n - 1));
    let fplan = side_plan(fside, tplan, bplan);
    assert(plan_ok(n, fside, seq, dirs, true, fplan));
    let sp = fplan.suffix_start_port->0;
    assert(side_ports(fside, tp, bp)[n - 1] == fplan.suffix_start_port);
    lemma_cell_split(n, suffix[5] as int);
    assert forall|q: int| 0 <= q < n - 1 implies #[trigger] conn_piece_ok(n, sd, tp, bp, conns[q], q) by {
        assert(conn_recorded(n, sd, tplan, bplan, conns[q], q));
        let side = connector_side(pass_down(sd, q));
        let plan = side_plan(side, tplan, bplan);
        let ns = if side == Side::Top { sd } else { !sd };
        let cs = plan.connectors@;
        let i = choose|i: int| 0 <= i < cs.len() && #[trigger] cs[i].p == q && conns[q] == cs[i].cells@;
        assert(plan_ok(n, side, seq, dirs, ns, plan));
        assert(plan_ports(n, plan, ns, side_ports(side, tp, bp)));
        assert(conn_index(cs, 2 * i) == q);
        assert(conn_index(cs, 2 * i + 1) == q + 1);
        assert(side_ports(side, tp, bp)[conn_index(cs, 2 * i)] == Some(conn_port(cs, 2 * i)));
        assert(side_ports(side, tp, bp)[conn_index(cs, 2 * i + 1)] == Some(conn_port(cs, 2 * i + 1)));
    }
    // the rows of margin cells
    assert forall|q: int, x: int| 0 <= q < n - 1 && 0 <= x < 6 implies
        (connector_side(pass_down(sd, q)) == Side::Top ==> 0 <= row_of(n, #[trigger] conns[q][x] as int) <= 2)
        && (connector_side(pass_down(sd, q)) == Side::Bottom ==> n - 3 <= row_of(n, conns[q][x] as int) <= n - 1) by {
        assert(conn_recorded(n, sd, tplan, bplan, conns[q], q));
        let side = connector_side(pass_down(sd, q));
        let plan = side_plan(side, tplan, bplan);
        let ns = if side == Side::Top { sd } else { !sd };
        let cs = plan.connectors@;
        let i = choose|i: int| 0 <= i < cs.len() && #[trigger] cs[i].p == q && conns[q] == cs[i].cells@;
        assert(plan_ok(n, side, seq, dirs, ns, plan));
        let c = cs[i];
        lemma_margin_cell(n, side, c.cells@, c.from_port as int, c.to_port as int, x);
    }
    assert forall|y: int| 0 <= y < 6 implies
        (fside == Side::Top ==> 0 <= row_of(n, #[trigger] suffix[y] as int) <= 2)
        && (fside == Side::Bottom ==> n - 3 <= row_of(n, suffix[y] as int) <= n - 1) by {
        lemma_margin_cell(n, fside, suffix, sp as int, col_of(n, suffix[5] as int), y);
    }
    assert forall|q1: int, q2: int, x: int, y: int| 0 <= q1 < n - 1 && 0 <= q2 < n - 1 && q1 != q2 && 0 <= x < 6 && 0 <= y < 6
        implies #[trigger] conns[q1][x] != #[trigger] conns[q2][y] by {
        let s1 = connector_side(pass_down(sd, q1));
        let s2 = connector_side(pass_down(sd, q2));
        assert(row_of(n, conns[q1][x] as int) == row_of(n, conns[q1][x] as int));
        assert(row_of(n, conns[q2][y] as int) == row_of(n, conns[q2][y] as int));
        if s1 == s2 {
            assert(conn_recorded(n, sd, tplan, bplan, conns[q1], q1));
            assert(conn_recorded(n, sd, tplan, bplan, conns[q2], q2));
            let plan = side_plan(s1, tplan, bplan);
            let ns = if s1 == Side::Top { sd } else { !sd };
            let cs = plan.connectors@;
            let i = choose|i: int| 0 <= i < cs.len() && #[trigger] cs[i].p == q1 && conns[q1] == cs[i].cells@;
            let j = choose|j: int| 0 <= j < cs.len() && #[trigger] cs[j].p == q2 && conns[q2] == cs[j].cells@;
            assert(plan_ok(n, s1, seq, dirs, ns, plan));
            assert(i != j);
            assert(cs[i].cells@[x] != cs[j].cells@[y]);
        }
    }
    assert forall|q: int, x: int, y: int| 0 <= q < n - 1 && 0 <= x < 6 && 0 <= y < 6
        implies #[trigger] conns[q][x] != #[trigger] suffix[y] by {
        let side = connector_side(pass_down(sd, q));
        assert(row_of(n, conns[q][x] as int) == row_of(n, conns[q][x] as int));
        assert(row_of(n, suffix[y] as int) == row_of(n, suffix[y] as int));
        if side == fside {
            assert(conn_recorded(n, sd, tplan, bplan, conns[q], q));
            let cs = fplan.connectors@;
            let i = choose|i: int| 0 <= i < cs.len() && #[trigger] cs[i].p == q && conns[q] == cs[i].cells@;
            assert(cs[i].cells@[x] != fplan.suffix_cells@[y]);
        }
    }
}

/// Places the lanes of every strip under the ports (`None` when some strip
/// has no placement) and assembles the strip walk; it is a route.
fn assemble_strip_walk(
    n: usize,
    weights: &[i64],
    strip_seq: &Vec<usize>,
    start_down: bool,
    pass_occ: &Vec<usize>,
    occ_to_pass: &Vec<[usize; 5]>,
    pass_dir_down: &Vec<bool>,
    top_port: &Vec<Option<usize>>,
    bottom_port: &Vec<Option<usize>>,
    connector_cells: &Vec<Vec<usize>>,
    suffix_cells: &Vec<usize>,
    perms: &Vec<[usize; 5]>,
    transitions: &Vec<Vec<usize>>,
    Ghost(tplan): Ghost<SidePlan>,
    Ghost(bplan): Ghost<SidePlan>,
) -> (res: Option<Vec<usize>>)
    requires
        10 <= n <= 1000,
        n % 5 == 0,
        n % 2 == 0,
        n * n <= MAX_CELLS,
        weights@.len() == n * n,
        weights_bounded(weights@),
        perm_tables_ok(perms@, transitions@),
        strip_seq@.len() == n,
        forall|p: int| 0 <= p < n ==> #[trigger] strip_seq@[p] < n / 5,
        pass_dir_down@ == alternating_dirs(n as int, start_down),
        pass_occ@.len() == n,
        occ_to_pass@.len() == n / 5,
        forall|p: int| 0 <= p < n ==> #[trigger] pass_occ@[p] < 5
            && occ_to_pass@[strip_seq@[p] as int]@[pass_occ@[p] as int] == p,
        forall|x: int| 0 <= x < n / 5 ==> #[trigger] strip_occ_ok(strip_seq@, x, occ_to_pass@[x]@),
        plans_fit(n as int, strip_seq@, start_down, tplan, bplan, top_port@, bottom_port@),
        forall|q: int| 0 <= q < n ==> (#[trigger] top_port@[q] matches Some(v) ==> v < n),
        forall|q: int| 0 <= q < n ==> (#[trigger] bottom_port@[q] matches Some(v) ==> v < n),
        connector_cells@.len() == n - 1,
        forall|q: int| 0 <= q < n - 1 ==> #[trigger] conn_recorded(n as int, start_down, tplan, bplan, connector_cells@[q]@, q),
        suffix_cells@ == (if start_down { tplan.suffix_cells@ } else { bplan.suffix_cells@ }),
    ensures
        res matches Some(route) ==> is_route(n as int, route@),
        res matches Some(route) ==> exists|rows: Seq<Seq<Seq<usize>>>, pass_occ: Seq<usize>, occ_to_pass: Seq<Seq<usize>>,
            conns: Seq<Seq<usize>>, suffix: Seq<usize>, tp: Seq<Option<usize>>, bp: Seq<Option<usize>>|
            #[trigger] walk_pieces_ok(n as int, strip_seq@, start_down, rows, pass_occ, occ_to_pass, conns, suffix, tp, bp)
            && route@ == strip_walk(n as int, strip_seq@, start_down, rows, pass_occ, conns, suffix),
        res is None ==> exists|x: int| 0 <= x < n / 5
            && !#[trigger] strip_has_lanes(x, occ_to_pass@[x]@, top_port@, bottom_port@, n - 6),
{
    let strip_count = n / STRIP_W;
    let pass_count = strip_seq.len();
    let ghost conns = Seq::new((n - 1) as nat, |q: int| connector_cells@[q]@);
    proof {
        lemma_plan_pieces(n as int, strip_seq@, start_down, tplan, bplan, top_port@, bottom_port@, conns, suffix_cells@);
        assert forall|x: int| 0 <= x < connector_cells@.len() implies (#[trigger] connector_cells@[x])@.len() == 6 by {
            assert(conns[x] == connector_cells@[x]@);
            assert(conn_piece_ok(n as int, start_down, top_port@, bottom_port@, conns[x], x));
        }
        assert forall|x: int| 0 <= x < strip_count implies #[trigger] occ_to_pass@[x]@.len() == 5 by {
            assert(strip_occ_ok(strip_seq@, x, occ_to_pass@[x]@));
        }
        assert forall|x: int, o: int| 0 <= x < strip_count && 0 <= o < 5 implies #[trigger] occ_to_pass@[x]@[o] < pass_count by {
            assert(strip_occ_ok(strip_seq@, x, occ_to_pass@[x]@));
        }
    }
    let core_h = n - 2 * MARGIN;
    let core_top = MARGIN;
    let mut pass_start: Vec<usize> = Vec::new();
    pass_start.push(0);
    proof {
        assert(pass_start@[0] == 0 * n);
    }
    let mut p: usize = 0;
    while p + 1 < pass_count
        invariant
            pass_count == n,
            n * n <= MAX_CELLS,
            7 <= n,
            core_h == n - 6,
            connector_cells@.len() == pass_count - 1,
            forall|x: int| 0 <= x < connector_cells@.len() ==> (#[trigger] connector_cells@[x])@.len() == 6,
            p + 1 <= pass_count,
            pass_start@.len() == p + 1,
            forall|x: int| 0 <= x <= p ==> #[trigger] pass_start@[x] == x * n,
        decreases pass_count - p,
    {
        proof {
            assert((p + 1) * n <= n * n) by (nonlinear_arith) requires p + 1 < n;
            assert(pass_start@[p as int] == p * n);
            assert(p * n + n == (p + 1) * n) by (nonlinear_arith);
        }
        let next = pass_start[p] + core_h + connector_cells[p].len();
        pass_start.push(next);
        p += 1;
    }
    proof {
        assert forall|x: int| 0 <= x < pass_start@.len() implies #[trigger] pass_start@[x] <= MAX_CELLS by {
            assert(x * n <= n * n) by (nonlinear_arith) requires 0 <= x < n;
        }
    }
    let mut strip_sol: Vec<StripSolution> = Vec::new();
    let mut s: usize = 0;
    while s < strip_count
        invariant
            7 <= n <= 1000,
            n * n <= MAX_CELLS,
            n % 5 == 0,
            strip_count == n / 5,
            pass_count == n,
            core_h == n - 6,
            weights@.len() == n * n,
            weights_bounded(weights@),
            perm_tables_ok(perms@, transitions@),
            occ_to_pass@.len() == strip_count,
            forall|x: int| 0 <= x < strip_count ==> #[trigger] occ_to_pass@[x]@.len() == 5,
            forall|x: int, o: int| 0 <= x < strip_count && 0 <= o < 5 ==> #[trigger] occ_to_pass@[x]@[o] < pass_count,
            pass_start@.len() == pass_count,
            pass_dir_down@.len() == pass_count,
            top_port@.len() == pass_count,
            bottom_port@.len() == pass_count,
            forall|x: int| 0 <= x < pass_start@.len() ==> #[trigger] pass_start@[x] <= MAX_CELLS,
            s <= strip_count,
            strip_sol@.len() == s,
            forall|x: int| 0 <= x < s ==> lanes_ok(x, occ_to_pass@[x]@, top_port@, bottom_port@, core_h as int,
                solution_rows(#[trigger] strip_sol@[x])),
        decreases strip_count - s,
    {
        proof {
            assert forall|o: int| 0 <= o < 5 implies #[trigger] occ_to_pass@[s as int]@[o] < pass_start@.len() by {
            }
            assert(s * 5 + 4 < n);
        }
        let occ_arr = &occ_to_pass[s];
        proof {
            assert(occ_arr@ == occ_to_pass@[s as int]@);
        }
        let sol = match solve_strip_paths(n, weights, s, occ_arr, &pass_start, pass_dir_down, top_port,
            bottom_port, perms, transitions) {
            Some(v) => v,
            None => {
                proof {
                    let h = n - 2 * MARGIN;
                    assert(h == n - 6);
                    assert forall|rows: Seq<Seq<usize>>| !#[trigger] lanes_ok(s as int, occ_to_pass@[s as int]@, top_port@, bottom_port@,
                        n - 6, rows) by {
                        if lanes_ok(s as int, occ_to_pass@[s as int]@, top_port@, bottom_port@, n - 6, rows) {
                            assert(lanes_ok(s as int, occ_arr@, top_port@, bottom_port@, h, rows));
                        }
                    }
                    assert(!strip_has_lanes(s as int, occ_to_pass@[s as int]@, top_port@, bottom_port@, n - 6));
                }
                return None;
            },
        };
        let ghost before = strip_sol@;
        strip_sol.push(sol);
        proof {
            assert forall|x: int| 0 <= x < s + 1 implies lanes_ok(x, occ_to_pass@[x]@, top_port@, bottom_port@, core_h as int,
                solution_rows(#[trigger] strip_sol@[x])) by {
                if x < s {
                    assert(strip_sol@[x] == before[x]);
                }
            }
        }
        s += 1;
    }
    let ghost rows_g = Seq::new(strip_count as nat, |x: int| solution_rows(strip_sol@[x]));
    let ghost sfx = suffix_cells@;
    let ghost po = pass_occ@;
    let mut route: Vec<usize> = Vec::new();
    let mut p: usize = 0;
    while p < pass_count
        invariant
            10 <= n,
            rows_g == Seq::new(strip_count as nat, |x: int| solution_rows(strip_sol@[x])),
            po == pass_occ@,
            sfx == suffix_cells@,
            conns == Seq::new((n - 1) as nat, |q: int| connector_cells@[q]@),
            forall|x: int| 0 <= x < connector_cells@.len() ==> (#[trigger] connector_cells@[x])@.len() == 6,
            pass_dir_down@ == alternating_dirs(n as int, start_down),
            route@.len() == (if p == pass_count { p * n - 6 } else { p * n }),
            forall|i: int| 0 <= i < route@.len() ==> #[trigger] route@[i]
                == strip_walk_at(n as int, strip_seq@, start_down, rows_g, po, conns, sfx, i) as usize,
            7 <= n <= 1000,
            n * n <= MAX_CELLS,
            n % 5 == 0,
            strip_count == n / 5,
            pass_count == n == strip_seq@.len(),
            core_h == n - 6,
            core_top == 3,
            forall|q: int| 0 <= q < strip_seq@.len() ==> #[trigger] strip_seq@[q] < n / 5,
            pass_occ@.len() == pass_count,
            forall|q: int| 0 <= q < pass_count ==> #[trigger] pass_occ@[q] < 5,
            pass_dir_down@.len() == pass_count,
            connector_cells@.len() == pass_count - 1,
            strip_sol@.len() == strip_count,
            forall|x: int| 0 <= x < strip_count ==> lanes_ok(x, occ_to_pass@[x]@, top_port@, bottom_port@, core_h as int,
                solution_rows(#[trigger] strip_sol@[x])),
            p <= pass_count,
        decreases pass_count - p,
    {
        let s = strip_seq[p];
        let occ = pass_occ[p];
        let rows = &strip_sol[s].rows;
        proof {
            assert(route@.len() == p * n);
            assert(rows_g[s as int] == solution_rows(strip_sol@[s as int]));
            assert(lanes_ok(s as int, occ_to_pass@[s as int]@, top_port@, bottom_port@, core_h as int, solution_rows(strip_sol@[s as int])));
            assert(rows@.len() == core_h);
        }
        let mut k: usize = 0;
        while k < core_h
            invariant
                7 <= n <= 1000,
                n * n <= MAX_CELLS,
                core_h == n - 6,
                core_top == 3,
                s < n / 5,
                occ < 5,
                p < pass_count,
                pass_dir_down@.len() == pass_count,
                rows@.len() == core_h,
                forall|r: int| 0 <= r < core_h ==> #[trigger] is_perm5(solution_rows(StripSolution { rows: *rows })[r]),
                k <= core_h,
                10 <= n,
                s == strip_seq@[p as int],
                occ == po[p as int],
                strip_seq@.len() == n,
                rows_g[s as int] == solution_rows(StripSolution { rows: *rows }),
                pass_dir_down@ == alternating_dirs(n as int, start_down),
                route@.len() == p * n + k,
                forall|i: int| 0 <= i < route@.len() ==> #[trigger] route@[i]
                    == strip_walk_at(n as int, strip_seq@, start_down, rows_g, po, conns, sfx, i) as usize,
            decreases core_h - k,
        {
            let r = if pass_dir_down[p] { k } else { core_h - 1 - k };
            proof {
                let row = solution_rows(StripSolution { rows: *rows })[r as int];
                assert(is_perm5(row));
                assert(row[occ as int] == rows@[r as int]@[occ as int] as usize);
                assert(row[occ as int] < 5);
            }
            let local_col = rows[r][occ] as usize;
            proof {
                crate::grid::lemma_cell_bound(n as int, (core_top + r) as int, (s * 5 + local_col) as int);
            }
            let ghost before = route@;
            route.push((core_top + r) * n + s * STRIP_W + local_col);
            proof {
                lemma_walk_index(n as int, p as int, k as int);
                assert(pass_dir_down@[p as int] == pass_down(start_down, p as int));
                assert(core_row(n - 6, pass_down(start_down, p as int), k as int) == r);
                assert(solution_rows(StripSolution { rows: *rows })[r as int][occ as int] == rows@[r as int]@[occ as int] as usize);
                assert(route@[before.len() as int] == strip_walk_at(n as int, strip_seq@, start_down, rows_g, po, conns, sfx,
                    before.len() as int) as usize);
            }
            k += 1;
        }
        if p + 1 < pass_count {
            let cells = &connector_cells[p];
            proof {
                assert(conns[p as int] == cells@);
            }
            let mut j: usize = 0;
            while j < cells.len()
                invariant
                    j <= cells@.len(),
                    cells@.len() == 6,
                    10 <= n,
                    p + 1 < n,
                    conns[p as int] == cells@,
                    route@.len() == p * n + (n - 6) + j,
                    forall|i: int| 0 <= i < route@.len() ==> #[trigger] route@[i]
                        == strip_walk_at(n as int, strip_seq@, start_down, rows_g, po, conns, sfx, i) as usize,
                decreases cells@.len() - j,
            {
                let ghost before = route@;
                route.push(cells[j]);
                proof {
                    lemma_walk_index(n as int, p as int, (n - 6 + j) as int);
                    assert(route@[before.len() as int] == strip_walk_at(n as int, strip_seq@, start_down, rows_g, po, conns, sfx,
                        before.len() as int) as usize);
                }
                j += 1;
            }
            proof {
                assert(p * n + (n - 6) + 6 == (p + 1) * n) by (nonlinear_arith);
            }
        }
        proof {
            if p + 1 == pass_count {
                assert(p * n + (n - 6) == (p + 1) * n - 6) by (nonlinear_arith);
            }
        }
        p += 1;
    }
    proof {
        lemma_plan_pieces(n as int, strip_seq@, start_down, tplan, bplan, top_port@, bottom_port@, conns, suffix_cells@);
        assert(suffix_cells@.len() == 6);
        assert((n - 1) * n + (n - 6) == n * n - 6) by (nonlinear_arith);
    }
    let mut j: usize = 0;
    while j < suffix_cells.len()
        invariant
            j <= suffix_cells@.len(),
            suffix_cells@.len() == 6,
            sfx == suffix_cells@,
            10 <= n,
            route@.len() == (n - 1) * n + (n - 6) + j,
            forall|i: int| 0 <= i < route@.len() ==> #[trigger] route@[i]
                == strip_walk_at(n as int, strip_seq@, start_down, rows_g, po, conns, sfx, i) as usize,
        decreases suffix_cells@.len() - j,
    {
        let ghost before = route@;
        route.push(suffix_cells[j]);
        proof {
            lemma_walk_index(n as int, (n - 1) as int, (n - 6 + j) as int);
            assert(route@[before.len() as int] == strip_walk_at(n as int, strip_seq@, start_down, rows_g, po, conns, sfx,
                before.len() as int) as usize);
        }
        j += 1;
    }
    let ghost occ_g = Seq::new(strip_count as nat, |x: int| occ_to_pass@[x]@);
    proof {
        assert((n - 1) * n + (n - 6) + 6 == n * n) by (nonlinear_arith);
        assert(route@ =~= strip_walk(n as int, strip_seq@, start_down, rows_g, po, conns, sfx));
        assert forall|x: int| 0 <= x < n / 5 implies lanes_ok(x, #[trigger] occ_g[x], top_port@, bottom_port@, n - 6, rows_g[x]) by {
            assert(occ_g[x] == occ_to_pass@[x]@);
            assert(rows_g[x] == solution_rows(strip_sol@[x]));
        }
        assert forall|p: int| 0 <= p < n implies #[trigger] po[p] < 5 && occ_g[strip_seq@[p] as int].len() == 5
            && occ_g[strip_seq@[p] as int][po[p] as int] == p by {
            assert(occ_g[strip_seq@[p] as int] == occ_to_pass@[strip_seq@[p] as int]@);
        }
        assert(walk_pieces_ok(n as int, strip_seq@, start_down, rows_g, po, occ_g, conns, sfx, top_port@, bottom_port@));
        lemma_strip_walk_route(n as int, strip_seq@, start_down, rows_g, po, occ_g, conns, sfx, top_port@, bottom_port@);
    }
    if !is_valid_route(route.as_slice(), n) {
        return None;
    }
    Some(route)
}

/// One xorshift step (shifts 7, 9, 8), with zero replaced by a fixed
/// non-zero state.
pub open spec fn xorshift_step(x: u64) -> u64 {
    let a = x ^ (x << 7u64);
    let b = a ^ (a >> 9u64);
    let c = b ^ (b << 8u64);
    if c == 0 { 0x9E37_79B9_7F4A_7C15u64 } else { c }
}

/// Advances the generator and returns the low bit of the new state.
pub fn next_rand_bit(state: &mut u64) -> (bit: u64)
    ensures
        *final(state) == xorshift_step(*old(state)),
        bit == *final(state) & 1,
{
    let mut x = *state;
    x ^= x << 7u64;
    x ^= x >> 9u64;
    x ^= x << 8u64;
    if x == 0 {
        x = 0x9E37_79B9_7F4A_7C15;
    }
    *state = x;
    x & 1
}

/// Advances the generator and returns the new state.
pub fn next_rand_u64(state: &mut u64) -> (v: u64)
    ensures
        *final(state) == xorshift_step(*old(state)),
        v == *final(state),
{
    let mut x = *state;
    x ^= x << 7u64;
    x ^= x >> 9u64;
    x ^= x << 8u64;
    if x == 0 {
        x = 0x9E37_79B9_7F4A_7C15;
    }
    *state = x;
    x
}

/// Every entry of `s` is a strip below `strip_count`.
pub open spec fn strips_below(s: Seq<usize>, strip_count: int) -> bool {
    forall|k: int| 0 <= k < s.len() ==> #[trigger] s[k] < strip_count
}

/// Total of the edge counts still to walk.
pub open spec fn edges_left(left: Seq<i32>, right: Seq<i32>, k: int) -> int
    decreases k,
{
    if k <= 0 { 0 } else { edges_left(left, right, k - 1) + left[k - 1] + right[k - 1] }
}

proof fn lemma_edges_left_dec(left: Seq<i32>, right: Seq<i32>, k: int, i: int, left2: Seq<i32>, right2: Seq<i32>)
    requires
        0 <= i < k <= left.len(),
        left.len() == right.len() == left2.len() == right2.len(),
        forall|j: int| 0 <= j < left.len() && j != i ==> left2[j] == left[j] && right2[j] == right[j],
        left2[i] + right2[i] == left[i] + right[i] - 1,
    ensures
        edges_left(left2, right2, k) == edges_left(left, right, k) - 1,
    decreases k,
{
    if k - 1 > i {
        lemma_edges_left_dec(left, right, k - 1, i, left2, right2);
    } else {
        assert(k - 1 == i);
        lemma_edges_left_same(left, right, i, left2, right2);
    }
}

proof fn lemma_edges_left_same(left: Seq<i32>, right: Seq<i32>, k: int, left2: Seq<i32>, right2: Seq<i32>)
    requires
        0 <= k <= left.len(),
        left.len() == right.len() == left2.len() == right2.len(),
        forall|j: int| 0 <= j < k ==> left2[j] == left[j] && right2[j] == right[j],
    ensures
        edges_left(left2, right2, k) == edges_left(left, right, k),
    decreases k,
{
    if k > 0 {
        lemma_edges_left_same(left, right, k - 1, left2, right2);
    }
}

proof fn lemma_edges_left_nonneg(left: Seq<i32>, right: Seq<i32>, k: int)
    requires
        0 <= k <= left.len(),
        left.len() == right.len(),
        forall|j: int| 0 <= j < left.len() ==> #[trigger] left[j] >= 0 && right[j] >= 0,
    ensures
        edges_left(left, right, k) >= 0,
    decreases k,
{
    if k > 0 {
        lemma_edges_left_nonneg(left, right, k - 1);
    }
}

/// The walk counts of the strip graph for `repeats` visits per strip from
/// strip 0 to the last: `mult[i]` crossings of the gap between strips `i`
/// and `i + 1`, of which `right[i]` go right and `left[i]` go left.
fn strip_edge_counts(strip_count: usize, repeats: usize) -> (counts: (Vec<i32>, Vec<i32>))
    requires
        2 <= strip_count <= 1000,
        1 <= repeats <= 1000,
    ensures
        counts.0@.len() == strip_count - 1,
        counts.1@.len() == strip_count - 1,
        forall|i: int| 0 <= i < strip_count - 1 ==> #[trigger] counts.0@[i] >= 0 && counts.1@[i] >= 0
            && counts.0@[i] <= repeats && counts.1@[i] <= repeats,
        forall|i: int| 0 <= i < strip_count - 1 ==> #[trigger] counts.1@[i] == if i % 2 == 0 { repeats as int } else { 1 },
        forall|i: int| 0 <= i < strip_count - 1 ==> #[trigger] counts.0@[i] == if i % 2 == 0 { repeats - 1 } else { 0 },
{
    let start: usize = 0;
    let end = strip_count - 1;
    let mut degree: Vec<i32> = Vec::new();
    let mut i: usize = 0;
    while i < strip_count
        invariant
            i <= strip_count <= 1000,
            1 <= repeats <= 1000,
            degree@.len() == i,
            forall|j: int| 0 <= j < i ==> #[trigger] degree@[j] == 2 * repeats,
        decreases strip_count - i,
    {
        degree.push((2 * repeats) as i32);
        i += 1;
    }
    degree.set(start, degree[start] - 1);
    degree.set(end, degree[end] - 1);
    let mut mult: Vec<i32> = Vec::new();
    mult.push(degree[0]);
    let mut i: usize = 1;
    while i < strip_count - 1
        invariant
            2 <= strip_count <= 1000,
            1 <= repeats <= 1000,
            end == strip_count - 1,
            degree@.len() == strip_count,
            forall|j: int| 1 <= j < end ==> #[trigger] degree@[j] == 2 * repeats,
            1 <= i <= strip_count - 1,
            mult@.len() == i,
            forall|j: int| 0 <= j < i ==> #[trigger] mult@[j] == if j % 2 == 0 { 2 * repeats - 1 } else { 1 },
        decreases strip_count - 1 - i,
    {
        let prev = mult[i - 1];
        mult.push(degree[i] - prev);
        i += 1;
    }
    let mut right: Vec<i32> = Vec::new();
    let mut left: Vec<i32> = Vec::new();
    let mut i: usize = 0;
    while i < strip_count - 1
        invariant
            2 <= strip_count <= 1000,
            1 <= repeats <= 1000,
            mult@.len() == strip_count - 1,
            forall|j: int| 0 <= j < strip_count - 1 ==> #[trigger] mult@[j] == if j % 2 == 0 { 2 * repeats - 1 } else { 1 },
            i <= strip_count - 1,
            right@.len() == i,
            left@.len() == i,
            forall|j: int| 0 <= j < i ==> #[trigger] right@[j] == if j % 2 == 0 { repeats as int } else { 1 },
            forall|j: int| 0 <= j < i ==> #[trigger] left@[j] == if j % 2 == 0 { repeats - 1 } else { 0 },
        decreases strip_count - 1 - i,
    {
        let flow: i32 = 1;
        right.push((mult[i] + flow) / 2);
        left.push((mult[i] - flow) / 2);
        i += 1;
    }
    (left, right)
}

/// The leftward crossing counts of the strip graph (`strip_edge_counts`).
pub open spec fn strip_left_counts(strip_count: int, repeats: int) -> Seq<i32> {
    Seq::new((strip_count - 1) as nat, |i: int| if i % 2 == 0 { (repeats - 1) as i32 } else { 0i32 })
}

/// The rightward crossing counts of the strip graph (`strip_edge_counts`).
pub open spec fn strip_right_counts(strip_count: int, repeats: int) -> Seq<i32> {
    Seq::new((strip_count - 1) as nat, |i: int| if i % 2 == 0 { repeats as i32 } else { 1i32 })
}

/// The state of the Euler-style walk: crossings left each way, the stack,
/// the strips output so far and the generator state.
pub struct EulerState {
    pub left: Seq<i32>,
    pub right: Seq<i32>,
    pub stack: Seq<usize>,
    pub out: Seq<usize>,
    pub rng: u64,
}

/// One step of the Euler-style walk from a non-empty stack: from the top
/// strip `v`, cross leftward if that way is open and either the rightward
/// way is closed or the choice falls left (always unseeded; seeded, when
/// the low bit of a fresh draw is 0); else cross rightward if open; else
/// move `v` from the stack to the output.
pub open spec fn euler_step(sc: int, st: EulerState, seeded: bool) -> EulerState {
    let v = st.stack.last() as int;
    let can_left = v > 0 && st.left[v - 1] > 0;
    let can_right = v + 1 < sc && st.right[v] > 0;
    let draw = xorshift_step(st.rng);
    let both = can_left && can_right;
    let go_left = if both { if seeded { draw & 1u64 == 0 } else { true } } else { can_left };
    let rng2 = if both && seeded { draw } else { st.rng };
    if go_left {
        EulerState {
            left: st.left.update(v - 1, (st.left[v - 1] - 1) as i32),
            right: st.right,
            stack: st.stack.push((v - 1) as usize),
            out: st.out,
            rng: rng2,
        }
    } else if can_right {
        EulerState {
            left: st.left,
            right: st.right.update(v, (st.right[v] - 1) as i32),
            stack: st.stack.push((v + 1) as usize),
            out: st.out,
            rng: rng2,
        }
    } else {
        EulerState { left: st.left, right: st.right, stack: st.stack.drop_last(), out: st.out.push(v as usize), rng: rng2 }
    }
}

/// The output of the Euler-style walk run from `st` for at most `fuel`
/// steps, or until the stack is empty.
pub open spec fn euler_run(sc: int, st: EulerState, seeded: bool, fuel: nat) -> Seq<usize>
    decreases fuel,
{
    if fuel == 0 || st.stack.len() == 0 {
        st.out
    } else {
        euler_run(sc, euler_step(sc, st, seeded), seeded, (fuel - 1) as nat)
    }
}

/// The strip sequence of the Euler-style walk for `strip_count` strips of
/// `repeats` visits (the generator seeded with `seed` when given): the
/// walk from strip 0 over all crossings, its output reversed. Each step
/// uses a crossing or empties a stack entry, so `2 * crossings + 1` steps
/// run it to the end.
pub open spec fn euler_sequence(strip_count: int, repeats: int, seed: Option<u64>) -> Seq<usize> {
    let left = strip_left_counts(strip_count, repeats);
    let right = strip_right_counts(strip_count, repeats);
    let rng = match seed { Some(x) => if x > 1 { x } else { 1u64 }, None => 1u64 };
    let st = EulerState { left, right, stack: seq![0usize], out: Seq::empty(), rng };
    let fuel = (2 * edges_left(left, right, strip_count - 1) + 1) as nat;
    euler_run(strip_count, st, seed is Some, fuel).reverse()
}

/// Euler-style walk over the strip graph from strip 0 (Hierholzer's method
/// with a stack): from the strip on top of the stack, step left if a
/// leftward crossing of that gap is left (or, with `seed`, at random when
/// both ways are open), else right; with none left, move the strip to the
/// output. The output reversed.
fn euler_walk(strip_count: usize, repeats: usize, seed: Option<u64>) -> (out: Vec<usize>)
    requires
        2 <= strip_count <= 1000,
        1 <= repeats <= 1000,
    ensures
        strips_below(out@, strip_count as int),
        out@ == euler_sequence(strip_count as int, repeats as int, seed),
{
    let (mut left, mut right) = strip_edge_counts(strip_count, repeats);
    let ghost k = (strip_count - 1) as int;
    let mut rng_state: u64 = match seed {
        Some(x) => if x > 1 { x } else { 1 },
        None => 1,
    };
    proof {
        lemma_edges_left_nonneg(left@, right@, k);
        assert(left@ =~= strip_left_counts(strip_count as int, repeats as int));
        assert(right@ =~= strip_right_counts(strip_count as int, repeats as int));
    }
    let mut stack: Vec<usize> = Vec::new();
    stack.push(0);
    let mut out: Vec<usize> = Vec::new();
    let ghost seeded = seed is Some;
    let ghost target = euler_run(strip_count as int,
        EulerState { left: left@, right: right@, stack: stack@, out: out@, rng: rng_state }, seeded,
        (2 * edges_left(left@, right@, k) + stack@.len()) as nat);
    proof {
        assert(stack@ =~= seq![0usize]);
        assert(out@ =~= Seq::<usize>::empty());
        assert(target.reverse() == euler_sequence(strip_count as int, repeats as int, seed));
    }
    while stack.len() > 0
        invariant
            2 <= strip_count <= 1000,
            k == strip_count - 1,
            left@.len() == k,
            right@.len() == k,
            forall|i: int| 0 <= i < k ==> #[trigger] left@[i] >= 0 && right@[i] >= 0,
            edges_left(left@, right@, k) >= 0,
            strips_below(stack@, strip_count as int),
            strips_below(out@, strip_count as int),
            seeded == seed is Some,
            euler_run(strip_count as int, EulerState { left: left@, right: right@, stack: stack@, out: out@, rng: rng_state },
                seeded, (2 * edges_left(left@, right@, k) + stack@.len()) as nat) == target,
        decreases 2 * edges_left(left@, right@, k) + stack@.len(),
    {
        let ghost st = EulerState { left: left@, right: right@, stack: stack@, out: out@, rng: rng_state };
        let ghost next = euler_step(strip_count as int, st, seeded);
        let v = stack[stack.len() - 1];
        let can_left = v > 0 && left[v - 1] > 0;
        let can_right = v + 1 < strip_count && right[v] > 0;
        let go_left = if can_left && can_right {
            match seed {
                Some(_) => next_rand_bit(&mut rng_state) == 0,
                None => true,
            }
        } else {
            can_left
        };
        let ghost l0 = left@;
        let ghost r0 = right@;
        if go_left {
            left.set(v - 1, left[v - 1] - 1);
            proof {
                lemma_edges_left_dec(l0, r0, k, v - 1, left@, right@);
            }
            stack.push(v - 1);
        } else if can_right {
            right.set(v, right[v] - 1);
            proof {
                lemma_edges_left_dec(l0, r0, k, v as int, left@, right@);
            }
            stack.push(v + 1);
        } else {
            out.push(v);
            stack.pop();
        }
        proof {
            lemma_edges_left_nonneg(left@, right@, k);
            assert(left@ == next.left && right@ == next.right && stack@ == next.stack && out@ == next.out && rng_state == next.rng);
        }
    }
    proof {
        assert(out@ == target);
    }
    let mut rev: Vec<usize> = Vec::new();
    let mut j = out.len();
    while j > 0
        invariant
            j <= out@.len(),
            strips_below(out@, strip_count as int),
            strips_below(rev@, strip_count as int),
            rev@.len() == out@.len() - j,
            forall|i: int| 0 <= i < rev@.len() ==> #[trigger] rev@[i] == out@[out@.len() - 1 - i],
        decreases j,
    {
        j -= 1;
        rev.push(out[j]);
    }
    proof {
        assert(rev@ =~= out@.reverse());
    }
    rev
}

/// The strip sequence of the Euler-style walk taking leftward crossings first.
pub fn build_euler_like_strip_sequence(strip_count: usize, repeats: usize) -> (seq: Vec<usize>)
    requires
        2 <= strip_count <= 1000,
        1 <= repeats <= 1000,
    ensures
        strips_below(seq@, strip_count as int),
        seq@ == euler_sequence(strip_count as int, repeats as int, None),
{
    euler_walk(strip_count, repeats, None)
}

/// The strip sequence of the Euler-style walk choosing by the generator
/// seeded with `seed` (at least 1) where both ways are open.
pub fn build_euler_like_strip_sequence_with_seed(strip_count: usize, repeats: usize, seed: u64) -> (seq: Vec<usize>)
    requires
        2 <= strip_count <= 1000,
        1 <= repeats <= 1000,
    ensures
        strips_below(seq@, strip_count as int),
        seq@ == euler_sequence(strip_count as int, repeats as int, Some(seed)),
{
    euler_walk(strip_count, repeats, Some(seed))
}

/// The default strip sequence: five visits per strip.
pub fn build_strip_sequence(strip_count: usize) -> (seq: Vec<usize>)
    requires
        2 <= strip_count <= 1000,
    ensures
        strips_below(seq@, strip_count as int),
        seq@ == euler_sequence(strip_count as int, 5, None),
{
    build_euler_like_strip_sequence(strip_count, STRIP_W)
}

proof fn lemma_occurrences_prefix(s1: Seq<usize>, s2: Seq<usize>, v: int, k: int)
    requires
        0 <= k <= s1.len(),
        k <= s2.len(),
        forall|j: int| 0 <= j < k ==> s1[j] == s2[j],
    ensures
        occurrences(s1, v, k) == occurrences(s2, v, k),
    decreases k,
{
    if k > 0 {
        lemma_occurrences_prefix(s1, s2, v, k - 1);
    }
}

/// The step of the balanced walk from strip `cur` with visits `counts`
/// left and generator state `rng`: the neighbouring strip to visit next
/// (`-1` when neither neighbour has visits left) and the generator state
/// after. With both open, the one with more visits left, times four plus
/// the low two bits of a fresh draw for each (left first), wins; the left
/// one on ties.
pub open spec fn balanced_next(sc: int, counts: Seq<i32>, cur: int, rng: u64) -> (int, u64) {
    let has_left = cur > 0 && counts[cur - 1] > 0;
    let has_right = cur + 1 < sc && counts[cur + 1] > 0;
    if !has_left && !has_right {
        (-1, rng)
    } else if has_left && has_right {
        let va = xorshift_step(rng);
        let vb = xorshift_step(va);
        let sa = counts[cur - 1] * 4 + (va & 3u64);
        let sb = counts[cur + 1] * 4 + (vb & 3u64);
        (if sb > sa { cur + 1 } else { cur - 1 }, vb)
    } else if has_left {
        (cur - 1, rng)
    } else {
        (cur + 1, rng)
    }
}

/// The balanced walk continued from the sequence `seq` so far: steps by
/// `balanced_next` until `total` strips are visited; `None` when it gets
/// stuck first or ends with visits left.
pub open spec fn balanced_run(sc: int, total: int, counts: Seq<i32>, seq: Seq<usize>, rng: u64) -> Option<Seq<usize>>
    decreases total - seq.len(),
{
    if seq.len() == 0 || seq.len() >= total {
        if forall|x: int| 0 <= x < counts.len() ==> #[trigger] counts[x] == 0 { Some(seq) } else { None }
    } else {
        let (nx, rng2) = balanced_next(sc, counts, seq.last() as int, rng);
        if nx < 0 {
            None
        } else {
            balanced_run(sc, total, counts.update(nx, (counts[nx] - 1) as i32), seq.push(nx as usize), rng2)
        }
    }
}

/// The balanced walk for `strip_count` strips of `repeats` visits with
/// generator seed `seed` (at least 1): it starts at the first draw modulo
/// `strip_count`.
pub open spec fn balanced_walk(strip_count: int, repeats: int, seed: u64) -> Option<Seq<usize>> {
    let rng0 = if seed > 1 { seed } else { 1u64 };
    let r1 = xorshift_step(rng0);
    let start = (r1 % (strip_count as u64)) as int;
    let counts = Seq::new(strip_count as nat, |j: int| repeats as i32).update(start, (repeats - 1) as i32);
    balanced_run(strip_count, strip_count * repeats, counts, seq![start as usize], r1)
}

/// A strip sequence that starts at a random strip and always steps to a
/// neighbouring strip with visits left, the one with more visits left
/// (random low bits breaking near ties); `None` when it gets stuck or ends
/// with visits left (`balanced_walk`). Some sequence visits each strip
/// exactly `repeats` times, stepping between neighbouring strips.
pub fn build_random_balanced_sequence(strip_count: usize, repeats: usize, seed: u64) -> (res: Option<Vec<usize>>)
    requires
        1 <= strip_count <= 1000,
        1 <= repeats <= 1000,
    ensures
        res matches Some(seq) ==> {
            &&& seq@.len() == strip_count * repeats
            &&& strips_below(seq@, strip_count as int)
            &&& forall|p: int| 0 <= p < seq@.len() - 1 ==> #[trigger] dist(seq@[p] as int, seq@[p + 1] as int) == 1
            &&& forall|x: int| 0 <= x < strip_count ==> #[trigger] occurrences(seq@, x, seq@.len() as int) == repeats
        },
        match res {
            Some(seq) => balanced_walk(strip_count as int, repeats as int, seed) == Some(seq@),
            None => balanced_walk(strip_count as int, repeats as int, seed) is None,
        },
{
    proof {
        assert(1 <= strip_count * repeats <= 1_000_000) by (nonlinear_arith)
            requires 1 <= strip_count <= 1000, 1 <= repeats <= 1000;
    }
    let total = strip_count * repeats;
    let mut counts: Vec<i32> = Vec::new();
    let mut i: usize = 0;
    while i < strip_count
        invariant
            i <= strip_count,
            repeats <= 1000,
            counts@.len() == i,
            forall|j: int| 0 <= j < i ==> #[trigger] counts@[j] == repeats,
        decreases strip_count - i,
    {
        counts.push(repeats as i32);
        i += 1;
    }
    let mut rng: u64 = if seed > 1 { seed } else { 1 };
    let start = (next_rand_u64(&mut rng) % (strip_count as u64)) as usize;
    proof {
        assert(counts@ =~= Seq::new(strip_count as nat, |j: int| repeats as i32));
    }
    counts.set(start, counts[start] - 1);
    let mut seq: Vec<usize> = Vec::new();
    seq.push(start);
    proof {
        assert forall|x: int| 0 <= x < strip_count implies #[trigger] counts@[x] == repeats - occurrences(seq@, x, seq@.len() as int) by {
            assert(occurrences(seq@, x, 0) == 0);
        }
        assert(seq@ =~= seq![start]);
    }
    let ghost walk = balanced_walk(strip_count as int, repeats as int, seed);
    while seq.len() < total
        invariant
            1 <= strip_count <= 1000,
            1 <= repeats <= 1000,
            total == strip_count * repeats,
            counts@.len() == strip_count,
            1 <= seq@.len() <= total,
            strips_below(seq@, strip_count as int),
            forall|p: int| 0 <= p < seq@.len() - 1 ==> #[trigger] dist(seq@[p] as int, seq@[p + 1] as int) == 1,
            forall|x: int| 0 <= x < strip_count ==> #[trigger] counts@[x] == repeats - occurrences(seq@, x, seq@.len() as int),
            forall|x: int| 0 <= x < strip_count ==> 0 <= #[trigger] counts@[x] <= repeats,
            balanced_run(strip_count as int, total as int, counts@, seq@, rng) == walk,
            walk == balanced_walk(strip_count as int, repeats as int, seed),
        decreases total - seq@.len(),
    {
        let cur = seq[seq.len() - 1];
        let has_left = cur > 0 && counts[cur - 1] > 0;
        let has_right = cur + 1 < strip_count && counts[cur + 1] > 0;
        let ghost step = balanced_next(strip_count as int, counts@, cur as int, rng);
        if !has_left && !has_right {
            proof {
                assert(step.0 < 0);
                assert(balanced_run(strip_count as int, total as int, counts@, seq@, rng) is None);
            }
            return None;
        }
        let nx = if has_left && has_right {
            let a = cur - 1;
            let b = cur + 1;
            let va = next_rand_u64(&mut rng);
            let ra = va & 3;
            proof {
                assert(va & 3 <= 3) by (bit_vector);
            }
            let sa = counts[a] * 4 + ra as i32;
            let vb = next_rand_u64(&mut rng);
            let rb = vb & 3;
            proof {
                assert(vb & 3 <= 3) by (bit_vector);
            }
            let sb = counts[b] * 4 + rb as i32;
            if sb > sa { b } else { a }
        } else if has_left {
            cur - 1
        } else {
            cur + 1
        };
        proof {
            assert(step.0 == nx as int && step.1 == rng);
        }
        let ghost before = seq@;
        counts.set(nx, counts[nx] - 1);
        seq.push(nx);
        proof {
            assert forall|x: int| 0 <= x < strip_count implies #[trigger] counts@[x] == repeats - occurrences(seq@, x, seq@.len() as int) by {
                lemma_occurrences_prefix(before, seq@, x, before.len() as int);
            }
            assert forall|p: int| 0 <= p < seq@.len() - 1 implies #[trigger] dist(seq@[p] as int, seq@[p + 1] as int) == 1 by {
                if p < before.len() - 1 {
                    assert(seq@[p] == before[p] && seq@[p + 1] == before[p + 1]);
                }
            }
        }
    }
    let mut x: usize = 0;
    while x < strip_count
        invariant
            counts@.len() == strip_count,
            x <= strip_count,
            forall|y: int| 0 <= y < x ==> #[trigger] counts@[y] == 0,
            1 <= seq@.len(),
            seq@.len() >= total,
            balanced_run(strip_count as int, total as int, counts@, seq@, rng) == walk,
            walk == balanced_walk(strip_count as int, repeats as int, seed),
        decreases strip_count - x,
    {
        if counts[x] != 0 {
            proof {
                assert(counts@[x as int] != 0);
                assert(balanced_run(strip_count as int, total as int, counts@, seq@, rng) is None);
            }
            return None;
        }
        x += 1;
    }
    proof {
        assert forall|y: int| 0 <= y < strip_count implies #[trigger] occurrences(seq@, y, seq@.len() as int) == repeats by {
            assert(counts@[y] == 0);
        }
    }
    Some(seq)
}

/// The plain conditions on a strip sequence that `is_strip_sequence_feasible`
/// checks before planning: some passes, a multiple of five, consecutive
/// passes in neighbouring strips.
pub open spec fn strip_sequence_basic(strip_seq: Seq<usize>) -> bool {
    &&& strip_seq.len() > 0
    &&& strip_seq.len() % 5 == 0
    &&& forall|p: int| 0 <= p < strip_seq.len() - 1 ==> #[trigger] dist(strip_seq[p] as int, strip_seq[p + 1] as int) == 1
}

/// The directions of the passes of a strip sequence of `len` passes whose
/// first pass goes down when `start_down`, alternating.
pub open spec fn alternating_dirs(len: int, start_down: bool) -> Seq<bool> {
    Seq::new(len as nat, |p: int| pass_down(start_down, p))
}

/// Some connector of `side` has no margin segment that can carry it.
pub open spec fn side_unplannable(n: int, strip_seq: Seq<usize>, dirs: Seq<bool>, side: Side) -> bool {
    exists|i: int| 0 <= i < side_passes(dirs, side, strip_seq.len() - 1).len()
        && no_fitting_segment(n, #[trigger] side_task(strip_seq, dirs, side, i), std_segments(n), None)
}

/// A strip sequence can be turned down: it is not `strip_sequence_basic`,
/// or every attempt at one of its margins is blocked (`side_blocked`; the
/// closing path goes in the top margin when the first pass goes down).
pub open spec fn sequence_rejectable(n: int, strip_seq: Seq<usize>, start_down: bool) -> bool {
    let dirs = alternating_dirs(strip_seq.len() as int, start_down);
    ||| !strip_sequence_basic(strip_seq)
    ||| side_blocked(n, strip_seq, dirs, Side::Top, start_down)
    ||| side_blocked(n, strip_seq, dirs, Side::Bottom, !start_down)
}

/// Whether a strip sequence is usable: it meets `strip_sequence_basic` and
/// both margins can be planned for it (the closing path in the top margin
/// when the first pass goes down, in the bottom margin otherwise).
pub fn is_strip_sequence_feasible(n: usize, strip_seq: &Vec<usize>, start_down: bool) -> (ok: bool)
    requires
        2 * MARGIN <= n <= 1000,
        n * n <= MAX_CELLS,
        strips_below(strip_seq@, n as int),
    ensures
        ok ==> strip_sequence_basic(strip_seq@),
        !strip_sequence_basic(strip_seq@) ==> !ok,
        side_unplannable(n as int, strip_seq@, alternating_dirs(strip_seq@.len() as int, start_down), Side::Top) ==> !ok,
        side_unplannable(n as int, strip_seq@, alternating_dirs(strip_seq@.len() as int, start_down), Side::Bottom) ==> !ok,
        !ok ==> sequence_rejectable(n as int, strip_seq@, start_down),
{
    let pass_count = strip_seq.len();
    if pass_count == 0 || pass_count % STRIP_W != 0 {
        return false;
    }
    let mut p: usize = 0;
    while p + 1 < pass_count
        invariant
            pass_count == strip_seq@.len() >= 1,
            p + 1 <= pass_count,
            forall|q: int| 0 <= q < p ==> #[trigger] dist(strip_seq@[q] as int, strip_seq@[q + 1] as int) == 1,
        decreases pass_count - p,
    {
        if abs_diff(strip_seq[p], strip_seq[p + 1]) != 1 {
            return false;
        }
        p += 1;
    }
    let mut pass_dir_down: Vec<bool> = Vec::new();
    let mut p: usize = 0;
    while p < pass_count
        invariant
            p <= pass_count,
            pass_dir_down@.len() == p,
            forall|q: int| 0 <= q < p ==> #[trigger] pass_dir_down@[q] == pass_down(start_down, q),
        decreases pass_count - p,
    {
        pass_dir_down.push(if p % 2 == 0 { start_down } else { !start_down });
        p += 1;
    }
    proof {
        assert(pass_dir_down@ =~= alternating_dirs(pass_count as int, start_down));
    }
    let top_ok = plan_side(n, Side::Top, strip_seq, &pass_dir_down, start_down).is_some();
    let bottom_ok = plan_side(n, Side::Bottom, strip_seq, &pass_dir_down, !start_down).is_some();
    top_ok && bottom_ok
}

/// A feasible strip sequence (five visits per strip): the first of the
/// Euler-style walks with seeds `1..=512`, then of the random balanced
/// walks with seeds `1..=200`, that `is_strip_sequence_feasible` accepts;
/// `None` when none is.
pub fn find_feasible_strip_sequence(n: usize, strip_count: usize, start_down: bool) -> (res: Option<Vec<usize>>)
    requires
        2 * MARGIN <= n <= 1000,
        n * n <= MAX_CELLS,
        2 <= strip_count,
        strip_count * 5 <= n,
    ensures
        res matches Some(seq) ==> strips_below(seq@, strip_count as int) && strip_sequence_basic(seq@),
        res matches Some(seq) ==> !side_unplannable(n as int, seq@, alternating_dirs(seq@.len() as int, start_down), Side::Top)
            && !side_unplannable(n as int, seq@, alternating_dirs(seq@.len() as int, start_down), Side::Bottom),
        res matches Some(seq) ==> (exists|s: u64| 1 <= s <= 512 && seq@ == #[trigger] euler_sequence(strip_count as int, 5, Some(s)))
            || (exists|s: u64| 1 <= s <= 200 && #[trigger] balanced_walk(strip_count as int, 5, s) == Some(seq@)),
        res is None ==> forall|s: u64| 1 <= s <= 512 ==> sequence_rejectable(n as int,
            #[trigger] euler_sequence(strip_count as int, 5, Some(s)), start_down),
        res is None ==> forall|s: u64| 1 <= s <= 200 ==> (#[trigger] balanced_walk(strip_count as int, 5, s) matches Some(q)
            ==> sequence_rejectable(n as int, q, start_down)),
{
    let mut seed: u64 = 0;
    while seed < 512
        invariant
            2 * MARGIN <= n <= 1000,
            n * n <= MAX_CELLS,
            2 <= strip_count,
            strip_count * 5 <= n,
            seed <= 512,
            forall|s: u64| 1 <= s <= seed ==> sequence_rejectable(n as int,
                #[trigger] euler_sequence(strip_count as int, 5, Some(s)), start_down),
        decreases 512 - seed,
    {
        let seq = build_euler_like_strip_sequence_with_seed(strip_count, STRIP_W, seed + 1);
        if is_strip_sequence_feasible(n, &seq, start_down) {
            return Some(seq);
        }
        seed += 1;
    }
    let mut seed: u64 = 1;
    while seed <= 200
        invariant
            2 * MARGIN <= n <= 1000,
            n * n <= MAX_CELLS,
            2 <= strip_count,
            strip_count * 5 <= n,
            1 <= seed <= 201,
            forall|s: u64| 1 <= s <= 512 ==> sequence_rejectable(n as int,
                #[trigger] euler_sequence(strip_count as int, 5, Some(s)), start_down),
            forall|s: u64| 1 <= s < seed ==> (#[trigger] balanced_walk(strip_count as int, 5, s) matches Some(q)
                ==> sequence_rejectable(n as int, q, start_down)),
        decreases 201 - seed,
    {
        match build_random_balanced_sequence(strip_count, STRIP_W, seed) {
            Some(seq) => {
                if is_strip_sequence_feasible(n, &seq, start_down) {
                    assert(balanced_walk(strip_count as int, 5, seed) == Some(seq@));
                    return Some(seq);
                }
            },
            None => {},
        }
        seed += 1;
    }
    None
}

} // verus!
