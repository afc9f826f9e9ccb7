//! The walk that the strip construction assembles, position by position,
//! and the proof that it is a route whenever its pieces fit: lanes that keep
//! to their ports, margin paths between the ports, and margin paths that
//! share no cell.
use vstd::prelude::*;
use crate::grid::{row_of, col_of, adjacent, is_route, is_king_walk, MAX_CELLS, lemma_cell_coords, lemma_cell_bound,
    lemma_cell_split};
use crate::strips::{Side, margin_path, margin_rows, lanes_ok, ports_fit, is_perm5, transition_ok, pass_down,
    connector_side, dist};

verus! {

/// Core row of step `k` of a pass over `h` core rows: top down when `down`.
pub open spec fn core_row(h: int, down: bool, k: int) -> int {
    if down { k } else { h - 1 - k }
}

/// The port row of `side`'s margin paths.
pub open spec fn port_row(n: int, side: Side) -> int {
    margin_rows(n, side).0
}

/// The ports of `side`.
pub open spec fn side_ports(side: Side, top_port: Seq<Option<usize>>, bottom_port: Seq<Option<usize>>) -> Seq<Option<usize>> {
    if side == Side::Top { top_port } else { bottom_port }
}

/// Cell at position `i` of the strip walk. Pass `p` fills positions
/// `p * n .. p * n + n`: first its `n - 6` core cells, walked in the lane
/// `pass_occ[p]` of its strip, then the six cells of the margin path after
/// it (the closing path after the last pass).
pub open spec fn strip_walk_at(n: int, seq: Seq<usize>, start_down: bool, rows: Seq<Seq<Seq<usize>>>, pass_occ: Seq<usize>,
    conns: Seq<Seq<usize>>, suffix: Seq<usize>, i: int) -> int {
    let h = n - 6;
    let p = i / n;
    let off = i % n;
    if off < h {
        let rr = core_row(h, pass_down(start_down, p), off);
        let s = seq[p] as int;
        (3 + rr) * n + s * 5 + rows[s][rr][pass_occ[p] as int] as int
    } else if p < n - 1 {
        conns[p][off - h] as int
    } else {
        suffix[off - h] as int
    }
}

/// The whole strip walk.
pub open spec fn strip_walk(n: int, seq: Seq<usize>, start_down: bool, rows: Seq<Seq<Seq<usize>>>, pass_occ: Seq<usize>,
    conns: Seq<Seq<usize>>, suffix: Seq<usize>) -> Seq<usize> {
    Seq::new((n * n) as nat, |i: int| strip_walk_at(n, seq, start_down, rows, pass_occ, conns, suffix, i) as usize)
}

/// The margin path after pass `q` runs in the margin where pass `q` ends,
/// from the port of pass `q` to that of pass `q + 1`.
pub open spec fn conn_piece_ok(n: int, start_down: bool, top_port: Seq<Option<usize>>, bottom_port: Seq<Option<usize>>,
    cells: Seq<usize>, q: int) -> bool {
    let side = connector_side(pass_down(start_down, q));
    let ports = side_ports(side, top_port, bottom_port);
    &&& ports[q] is Some && ports[q + 1] is Some
    &&& margin_path(n, side, cells, ports[q]->0 as int, ports[q + 1]->0 as int)
}

/// The pieces of the strip walk fit together.
pub open spec fn walk_pieces_ok(n: int, seq: Seq<usize>, start_down: bool, rows: Seq<Seq<Seq<usize>>>, pass_occ: Seq<usize>,
    occ_to_pass: Seq<Seq<usize>>, conns: Seq<Seq<usize>>, suffix: Seq<usize>, top_port: Seq<Option<usize>>,
    bottom_port: Seq<Option<usize>>) -> bool {
    &&& 10 <= n && n % 5 == 0
    &&& n * n <= MAX_CELLS
    &&& seq.len() == n
    &&& forall|p: int| 0 <= p < n ==> #[trigger] seq[p] < n / 5
    &&& pass_occ.len() == n
    &&& occ_to_pass.len() == n / 5
    &&& forall|p: int| 0 <= p < n ==> #[trigger] pass_occ[p] < 5 && occ_to_pass[seq[p] as int].len() == 5
        && occ_to_pass[seq[p] as int][pass_occ[p] as int] == p
    &&& top_port.len() == n && bottom_port.len() == n
    &&& forall|q: int| 0 <= q < n ==> (#[trigger] top_port[q] matches Some(v) ==> v < n)
    &&& forall|q: int| 0 <= q < n ==> (#[trigger] bottom_port[q] matches Some(v) ==> v < n)
    &&& rows.len() == n / 5
    &&& forall|x: int| 0 <= x < n / 5 ==> lanes_ok(x, #[trigger] occ_to_pass[x], top_port, bottom_port, n - 6, rows[x])
    &&& conns.len() == n - 1
    &&& forall|q: int| 0 <= q < n - 1 ==> #[trigger] conn_piece_ok(n, start_down, top_port, bottom_port, conns[q], q)
    &&& ({
        let side = connector_side(pass_down(start_down, n - 1));
        let ports = side_ports(side, top_port, bottom_port);
        &&& ports[n - 1] is Some
        &&& margin_path(n, side, suffix, ports[n - 1]->0 as int, col_of(n, suffix[5] as int))
    })
    &&& forall|q1: int, q2: int, x: int, y: int| 0 <= q1 < n - 1 && 0 <= q2 < n - 1 && q1 != q2 && 0 <= x < 6 && 0 <= y < 6
        ==> #[trigger] conns[q1][x] != #[trigger] conns[q2][y]
    &&& forall|q: int, x: int, y: int| 0 <= q < n - 1 && 0 <= x < 6 && 0 <= y < 6
        ==> #[trigger] conns[q][x] != #[trigger] suffix[y]
}

/// Position `p * n + off` is offset `off` of pass `p`.
pub proof fn lemma_walk_index(n: int, p: int, off: int)
    requires
        0 < n,
        0 <= p,
        0 <= off < n,
    ensures
        (p * n + off) / n == p,
        (p * n + off) % n == off,
{
    vstd::arithmetic::div_mod::lemma_fundamental_div_mod_converse(p * n + off, n, p, off);
}

/// The margin cell `c` of a margin path of `side` lies in that margin's
/// rows, on the board.
pub(crate) proof fn lemma_margin_cell(n: int, side: Side, cells: Seq<usize>, f: int, t: int, x: int)
    requires
        10 <= n,
        margin_path(n, side, cells, f, t),
        0 <= f < n,
        0 <= t < n,
        0 <= x < 6,
    ensures
        side == Side::Top ==> 0 <= row_of(n, cells[x] as int) <= 2,
        side == Side::Bottom ==> n - 3 <= row_of(n, cells[x] as int) <= n - 1,
        cells[x] < n * n,
{
    let (r2, r1, r0) = margin_rows(n, side);
    lemma_cell_split(n, cells[x] as int);
    if x == 0 {
        lemma_cell_coords(n, r2, f);
    } else if x == 5 {
        lemma_cell_coords(n, r2, t);
    }
    if row_of(n, cells[x] as int) >= n {
        assert(row_of(n, cells[x] as int) * n >= n * n) by (nonlinear_arith)
            requires row_of(n, cells[x] as int) >= n, n > 0;
    }
}

/// Row, column and bound of a core cell.
proof fn lemma_core_cell(n: int, rr: int, s: int, c: int)
    requires
        10 <= n,
        n % 5 == 0,
        0 <= rr < n - 6,
        0 <= s < n / 5,
        0 <= c < 5,
    ensures
        row_of(n, (3 + rr) * n + s * 5 + c) == 3 + rr,
        col_of(n, (3 + rr) * n + s * 5 + c) == s * 5 + c,
        (3 + rr) * n + s * 5 + c < n * n,
        s * 5 + c < n,
{
    assert(s * 5 + c < n) by (nonlinear_arith) requires 0 <= s < n / 5, 0 <= c < 5, n % 5 == 0, n >= 10;
    assert((3 + rr) * n + s * 5 + c == (3 + rr) * n + (s * 5 + c));
    lemma_cell_coords(n, 3 + rr, s * 5 + c);
    lemma_cell_bound(n, 3 + rr, s * 5 + c);
}

/// Facts on position `i` of the walk: its cell is on the board; a core cell
/// is in its core row and strip, a margin cell in its margin.
proof fn lemma_walk_cell(n: int, seq: Seq<usize>, sd: bool, rows: Seq<Seq<Seq<usize>>>, pass_occ: Seq<usize>,
    occ_to_pass: Seq<Seq<usize>>, conns: Seq<Seq<usize>>, suffix: Seq<usize>, tp: Seq<Option<usize>>,
    bp: Seq<Option<usize>>, i: int)
    requires
        walk_pieces_ok(n, seq, sd, rows, pass_occ, occ_to_pass, conns, suffix, tp, bp),
        0 <= i < n * n,
    ensures
        ({
            let c = strip_walk_at(n, seq, sd, rows, pass_occ, conns, suffix, i);
            let p = i / n;
            let off = i % n;
            &&& 0 <= p < n && 0 <= off < n && i == p * n + off
            &&& 0 <= c < n * n
            &&& off < n - 6 ==> {
                let rr = core_row(n - 6, pass_down(sd, p), off);
                let s = seq[p] as int;
                let lanec = rows[s][rr][pass_occ[p] as int] as int;
                &&& 0 <= rr < n - 6
                &&& 0 <= lanec < 5
                &&& row_of(n, c) == 3 + rr
                &&& col_of(n, c) == s * 5 + lanec
            }
            &&& off >= n - 6 ==> {
                let side = connector_side(pass_down(sd, p));
                &&& side == Side::Top ==> 0 <= row_of(n, c) <= 2
                &&& side == Side::Bottom ==> n - 3 <= row_of(n, c) <= n - 1
            }
        }),
{
    lemma_cell_split(n, i);
    lemma_cell_split(n, suffix[5] as int);
    assert(forall|q: int| 0 <= q < n ==> (#[trigger] side_ports(Side::Top, tp, bp)[q] matches Some(v) ==> v < n));
    assert(forall|q: int| 0 <= q < n ==> (#[trigger] side_ports(Side::Bottom, tp, bp)[q] matches Some(v) ==> v < n));
    let p = i / n;
    let off = i % n;
    if p >= n {
        assert(p * n >= n * n) by (nonlinear_arith) requires p >= n, n > 0;
    }
    if off < n - 6 {
        let rr = core_row(n - 6, pass_down(sd, p), off);
        let s = seq[p] as int;
        assert(lanes_ok(s, occ_to_pass[s], tp, bp, n - 6, rows[s]));
        assert(is_perm5(rows[s][rr]));
        lemma_core_cell(n, rr, s, rows[s][rr][pass_occ[p] as int] as int);
    } else if p < n - 1 {
        let side = connector_side(pass_down(sd, p));
        let ports = side_ports(side, tp, bp);
        assert(conn_piece_ok(n, sd, tp, bp, conns[p], p));
        lemma_margin_cell(n, side, conns[p], ports[p]->0 as int, ports[p + 1]->0 as int, off - (n - 6));
    } else {
        let side = connector_side(pass_down(sd, n - 1));
        let ports = side_ports(side, tp, bp);
        lemma_margin_cell(n, side, suffix, ports[n - 1]->0 as int, col_of(n, suffix[5] as int), off - (n - 6));
    }
}

/// A margin path's ends are in its port row at its ports.
proof fn lemma_margin_ends(n: int, side: Side, cells: Seq<usize>, f: int, t: int)
    requires
        10 <= n,
        margin_path(n, side, cells, f, t),
        0 <= f < n,
        0 <= t < n,
    ensures
        row_of(n, cells[0] as int) == port_row(n, side) && col_of(n, cells[0] as int) == f,
        row_of(n, cells[5] as int) == port_row(n, side) && col_of(n, cells[5] as int) == t,
{
    let (r2, r1, r0) = margin_rows(n, side);
    lemma_cell_coords(n, r2, f);
    lemma_cell_coords(n, r2, t);
}

/// Steps `i` and `i + 1` of the walk are a king move apart.
proof fn lemma_walk_step(n: int, seq: Seq<usize>, sd: bool, rows: Seq<Seq<Seq<usize>>>, pass_occ: Seq<usize>,
    occ_to_pass: Seq<Seq<usize>>, conns: Seq<Seq<usize>>, suffix: Seq<usize>, tp: Seq<Option<usize>>,
    bp: Seq<Option<usize>>, i: int)
    requires
        walk_pieces_ok(n, seq, sd, rows, pass_occ, occ_to_pass, conns, suffix, tp, bp),
        0 <= i < n * n - 1,
    ensures
        adjacent(n, strip_walk_at(n, seq, sd, rows, pass_occ, conns, suffix, i),
            strip_walk_at(n, seq, sd, rows, pass_occ, conns, suffix, i + 1)),
{
    let h = n - 6;
    lemma_walk_cell(n, seq, sd, rows, pass_occ, occ_to_pass, conns, suffix, tp, bp, i);
    lemma_walk_cell(n, seq, sd, rows, pass_occ, occ_to_pass, conns, suffix, tp, bp, i + 1);
    assert(forall|q: int| 0 <= q < n ==> (#[trigger] side_ports(Side::Top, tp, bp)[q] matches Some(v) ==> v < n));
    assert(forall|q: int| 0 <= q < n ==> (#[trigger] side_ports(Side::Bottom, tp, bp)[q] matches Some(v) ==> v < n));
    lemma_cell_split(n, suffix[5] as int);
    let p = i / n;
    let off = i % n;
    let a = strip_walk_at(n, seq, sd, rows, pass_occ, conns, suffix, i);
    let b = strip_walk_at(n, seq, sd, rows, pass_occ, conns, suffix, i + 1);
    if off + 1 < n {
        lemma_walk_index(n, p, off + 1);
        assert((i + 1) / n == p && (i + 1) % n == off + 1);
        let down = pass_down(sd, p);
        let s = seq[p] as int;
        let o = pass_occ[p] as int;
        if off + 1 < h {
            let r1 = core_row(h, down, off);
            let r2 = core_row(h, down, off + 1);
            assert(lanes_ok(s, occ_to_pass[s], tp, bp, h, rows[s]));
            if down {
                assert(transition_ok(rows[s][r2 - 1], rows[s][r2]));
                assert(dist(rows[s][r1][o] as int, rows[s][r2][o] as int) <= 1);
            } else {
                assert(transition_ok(rows[s][r1 - 1], rows[s][r1]));
                assert(dist(rows[s][r2][o] as int, rows[s][r1][o] as int) <= 1);
            }
        } else if off + 1 == h {
            let side = connector_side(down);
            let ports = side_ports(side, tp, bp);
            let r = core_row(h, down, off);
            assert(lanes_ok(s, occ_to_pass[s], tp, bp, h, rows[s]));
            assert(occ_to_pass[s][o] == p);
            assert(is_perm5(rows[s][r]));
            if p < n - 1 {
                assert(conn_piece_ok(n, sd, tp, bp, conns[p], p));
                lemma_margin_ends(n, side, conns[p], ports[p]->0 as int, ports[p + 1]->0 as int);
                assert(ports_fit(s, occ_to_pass[s], side_ports(side, tp, bp), rows[s][r]));
                assert(ports[occ_to_pass[s][o] as int] matches Some(port) ==> dist(s * 5 + rows[s][r][o], port as int) <= 1);
            } else {
                lemma_margin_ends(n, side, suffix, ports[n - 1]->0 as int, col_of(n, suffix[5] as int));
                assert(ports_fit(s, occ_to_pass[s], side_ports(side, tp, bp), rows[s][r]));
                assert(ports[occ_to_pass[s][o] as int] matches Some(port) ==> dist(s * 5 + rows[s][r][o], port as int) <= 1);
            }
        } else {
            let side = connector_side(down);
            let ports = side_ports(side, tp, bp);
            let x = off - h;
            if p < n - 1 {
                assert(conn_piece_ok(n, sd, tp, bp, conns[p], p));
                assert(crate::grid::is_king_walk(n, conns[p]));
                assert(adjacent(n, conns[p][x] as int, conns[p][x + 1] as int));
            } else {
                assert(crate::grid::is_king_walk(n, suffix));
                assert(adjacent(n, suffix[x] as int, suffix[x + 1] as int));
            }
        }
    } else {
        // from the margin path after pass `p` into pass `p + 1`
        assert(off == n - 1);
        lemma_walk_index(n, p + 1, 0);
        assert(i + 1 == (p + 1) * n + 0) by (nonlinear_arith) requires i == p * n + off, off == n - 1;
        assert(p + 1 < n) by (nonlinear_arith) requires i + 1 < n * n, i + 1 == (p + 1) * n, n > 0;
        let down = pass_down(sd, p);
        let side = connector_side(down);
        let ports = side_ports(side, tp, bp);
        assert(conn_piece_ok(n, sd, tp, bp, conns[p], p));
        lemma_margin_ends(n, side, conns[p], ports[p]->0 as int, ports[p + 1]->0 as int);
        let s = seq[p + 1] as int;
        let o = pass_occ[p + 1] as int;
        let down2 = pass_down(sd, p + 1);
        assert(down2 == !down);
        let r = core_row(h, down2, 0);
        assert(lanes_ok(s, occ_to_pass[s], tp, bp, h, rows[s]));
        assert(occ_to_pass[s][o] == p + 1);
        assert(is_perm5(rows[s][r]));
        assert(ports_fit(s, occ_to_pass[s], side_ports(side, tp, bp), rows[s][r]));
        assert(ports[occ_to_pass[s][o] as int] matches Some(port) ==> dist(s * 5 + rows[s][r][o], port as int) <= 1);
    }
}

/// Distinct positions of the walk hold distinct cells.
proof fn lemma_walk_distinct(n: int, seq: Seq<usize>, sd: bool, rows: Seq<Seq<Seq<usize>>>, pass_occ: Seq<usize>,
    occ_to_pass: Seq<Seq<usize>>, conns: Seq<Seq<usize>>, suffix: Seq<usize>, tp: Seq<Option<usize>>,
    bp: Seq<Option<usize>>, i: int, j: int)
    requires
        walk_pieces_ok(n, seq, sd, rows, pass_occ, occ_to_pass, conns, suffix, tp, bp),
        0 <= i < n * n,
        0 <= j < n * n,
        i != j,
    ensures
        strip_walk_at(n, seq, sd, rows, pass_occ, conns, suffix, i) != strip_walk_at(n, seq, sd, rows, pass_occ, conns, suffix, j),
{
    let h = n - 6;
    lemma_walk_cell(n, seq, sd, rows, pass_occ, occ_to_pass, conns, suffix, tp, bp, i);
    lemma_walk_cell(n, seq, sd, rows, pass_occ, occ_to_pass, conns, suffix, tp, bp, j);
    let a = strip_walk_at(n, seq, sd, rows, pass_occ, conns, suffix, i);
    let b = strip_walk_at(n, seq, sd, rows, pass_occ, conns, suffix, j);
    let p1 = i / n;
    let o1 = i % n;
    let p2 = j / n;
    let o2 = j % n;
    if a == b {
        if o1 < h && o2 < h {
            let r1 = core_row(h, pass_down(sd, p1), o1);
            let r2 = core_row(h, pass_down(sd, p2), o2);
            let s1 = seq[p1] as int;
            let s2 = seq[p2] as int;
            let c1 = rows[s1][r1][pass_occ[p1] as int] as int;
            let c2 = rows[s2][r2][pass_occ[p2] as int] as int;
            assert(r1 == r2);
            assert(s1 * 5 + c1 == s2 * 5 + c2);
            assert(s1 == s2 && c1 == c2) by (nonlinear_arith)
                requires s1 * 5 + c1 == s2 * 5 + c2, 0 <= c1 < 5, 0 <= c2 < 5;
            assert(lanes_ok(s1, occ_to_pass[s1], tp, bp, h, rows[s1]));
            assert(is_perm5(rows[s1][r1]));
            assert(pass_occ[p1] == pass_occ[p2]) by {
                if pass_occ[p1] < pass_occ[p2] {
                    assert(rows[s1][r1][pass_occ[p1] as int] != rows[s1][r1][pass_occ[p2] as int]);
                } else if pass_occ[p1] > pass_occ[p2] {
                    assert(rows[s1][r1][pass_occ[p2] as int] != rows[s1][r1][pass_occ[p1] as int]);
                }
            }
            assert(p1 == occ_to_pass[s1][pass_occ[p1] as int]);
            assert(p2 == occ_to_pass[s2][pass_occ[p2] as int]);
            assert(p1 == p2);
            assert(o1 == o2);
            assert(false);
        } else if o1 < h || o2 < h {
            let s1 = connector_side(pass_down(sd, p1));
            let s2 = connector_side(pass_down(sd, p2));
            assert(false);
        } else {
            let x = o1 - h;
            let y = o2 - h;
            let side1 = connector_side(pass_down(sd, p1));
            let side2 = connector_side(pass_down(sd, p2));
            if p1 < n - 1 && p2 < n - 1 {
                if p1 != p2 {
                    assert(conns[p1][x] != conns[p2][y]);
                } else {
                    let ports = side_ports(side1, tp, bp);
                    assert(conn_piece_ok(n, sd, tp, bp, conns[p1], p1));
                    assert(x != y);
                    assert(conns[p1].no_duplicates());
                }
            } else if p1 < n - 1 {
                assert(conns[p1][x] != suffix[y]);
            } else if p2 < n - 1 {
                assert(conns[p2][y] != suffix[x]);
            } else {
                let side = connector_side(pass_down(sd, n - 1));
                let ports = side_ports(side, tp, bp);
                assert(margin_path(n, side, suffix, ports[n - 1]->0 as int, col_of(n, suffix[5] as int)));
                assert(x != y) by {
                    lemma_cell_split(n, i);
                    lemma_cell_split(n, j);
                }
                assert(suffix.no_duplicates());
            }
        }
    }
}

/// The walk of fitting pieces is a route.
pub proof fn lemma_strip_walk_route(n: int, seq: Seq<usize>, sd: bool, rows: Seq<Seq<Seq<usize>>>, pass_occ: Seq<usize>,
    occ_to_pass: Seq<Seq<usize>>, conns: Seq<Seq<usize>>, suffix: Seq<usize>, tp: Seq<Option<usize>>,
    bp: Seq<Option<usize>>)
    requires
        walk_pieces_ok(n, seq, sd, rows, pass_occ, occ_to_pass, conns, suffix, tp, bp),
    ensures
        is_route(n, strip_walk(n, seq, sd, rows, pass_occ, conns, suffix)),
{
    let w = strip_walk(n, seq, sd, rows, pass_occ, conns, suffix);
    assert forall|i: int| 0 <= i < w.len() implies #[trigger] w[i] < n * n by {
        lemma_walk_cell(n, seq, sd, rows, pass_occ, occ_to_pass, conns, suffix, tp, bp, i);
    }
    assert forall|i: int, j: int| 0 <= i < w.len() && 0 <= j < w.len() && i != j implies w[i] != w[j] by {
        lemma_walk_cell(n, seq, sd, rows, pass_occ, occ_to_pass, conns, suffix, tp, bp, i);
        lemma_walk_cell(n, seq, sd, rows, pass_occ, occ_to_pass, conns, suffix, tp, bp, j);
        lemma_walk_distinct(n, seq, sd, rows, pass_occ, occ_to_pass, conns, suffix, tp, bp, i, j);
    }
    assert forall|i: int| 0 <= i < w.len() - 1 implies #[trigger] adjacent(n, w[i] as int, w[i + 1] as int) by {
        lemma_walk_cell(n, seq, sd, rows, pass_occ, occ_to_pass, conns, suffix, tp, bp, i);
        lemma_walk_cell(n, seq, sd, rows, pass_occ, occ_to_pass, conns, suffix, tp, bp, i + 1);
        lemma_walk_step(n, seq, sd, rows, pass_occ, occ_to_pass, conns, suffix, tp, bp, i);
    }
}

} // verus!
