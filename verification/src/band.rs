//! Bands of five rows cut into blocks of two columns. A block is crossed by
//! a king path through its ten cells, entering in its first column and
//! leaving in its second; a band is crossed block after block.
//!
//! A block cell is numbered `row * 2 + col`.
use vstd::prelude::*;
use crate::window::NEG_INF;
use crate::grid::{adjacent, row_of, col_of, is_king_walk, is_route, is_permutation_route, lemma_cell_coords, lemma_cell_bound,
    lemma_cell_split, valid_side, MAX_CELLS, MAX_WEIGHT};

verus! {

/// Rows of a band.
pub const BAND_H: usize = 5;

/// Columns of a block.
pub const BLOCK_W: usize = 2;

/// Cells of a block.
pub const BLOCK_CELLS: usize = 10;

/// Block cells `u` and `v` are one king move apart.
pub open spec fn local_adjacent(u: int, v: int) -> bool {
    let dr = u / 2 - v / 2;
    let dc = u % 2 - v % 2;
    -1 <= dr <= 1 && -1 <= dc <= 1 && !(dr == 0 && dc == 0)
}

/// `s` lists, in increasing order, exactly the block cells adjacent to `v`.
pub open spec fn lists_local_neighbors(v: int, s: Seq<u8>) -> bool {
    &&& forall|u: u8| #[trigger] s.contains(u) <==> (u < 10 && local_adjacent(v, u as int))
    &&& forall|a: int, b: int| 0 <= a < b < s.len() ==> s[a] < s[b]
}

/// Whether block cells `u` and `v` are one king move apart.
fn is_local_adjacent(u: usize, v: usize) -> (res: bool)
    requires
        u < 10,
        v < 10,
    ensures
        res == local_adjacent(u as int, v as int),
{
    let (ur, uc) = (u / 2, u % 2);
    let (vr, vc) = (v / 2, v % 2);
    let dr = if ur > vr { ur - vr } else { vr - ur };
    let dc = if uc > vc { uc - vc } else { vc - uc };
    dr <= 1 && dc <= 1 && !(dr == 0 && dc == 0)
}

/// For every block cell, its king neighbours in increasing order.
pub fn build_local_neighbors() -> (adj: Vec<Vec<u8>>)
    ensures
        adj@.len() == BLOCK_CELLS,
        forall|v: int| 0 <= v < BLOCK_CELLS ==> #[trigger] lists_local_neighbors(v, adj@[v]@),
{
    let mut adj: Vec<Vec<u8>> = Vec::new();
    let mut v: usize = 0;
    while v < BLOCK_CELLS
        invariant
            v <= BLOCK_CELLS,
            adj@.len() == v,
            forall|x: int| 0 <= x < v ==> #[trigger] lists_local_neighbors(x, adj@[x]@),
        decreases BLOCK_CELLS - v,
    {
        let mut row: Vec<u8> = Vec::new();
        let mut u: usize = 0;
        while u < BLOCK_CELLS
            invariant
                v < BLOCK_CELLS,
                u <= BLOCK_CELLS,
                forall|w: u8| #[trigger] row@.contains(w) <==> (w < u && local_adjacent(v as int, w as int)),
                forall|a: int| 0 <= a < row@.len() ==> #[trigger] row@[a] < u,
                forall|a: int, b: int| 0 <= a < b < row@.len() ==> row@[a] < row@[b],
            decreases BLOCK_CELLS - u,
        {
            if is_local_adjacent(v, u) {
                let ghost before = row@;
                row.push(u as u8);
                proof {
                    assert forall|w: u8| #[trigger] row@.contains(w) <==> (w < u + 1 && local_adjacent(v as int, w as int)) by {
                        if row@.contains(w) && w != u as u8 {
                            let k = choose|k: int| 0 <= k < row@.len() && row@[k] == w;
                            assert(before[k] == w);
                        }
                        if before.contains(w) {
                            let k = choose|k: int| 0 <= k < before.len() && before[k] == w;
                            assert(row@[k] == w);
                        }
                        if w == u as u8 {
                            assert(row@[row@.len() - 1] == w);
                        }
                    }
                }
            } else {
                proof {
                    assert forall|w: u8| #[trigger] row@.contains(w) <==> (w < u + 1 && local_adjacent(v as int, w as int)) by {
                        if row@.contains(w) {
                            let k = choose|k: int| 0 <= k < row@.len() && row@[k] == w;
                            assert(row@[k] < u);
                        }
                    }
                }
            }
            u += 1;
        }
        adj.push(row);
        proof {
            assert forall|x: int| 0 <= x < v + 1 implies #[trigger] lists_local_neighbors(x, adj@[x]@) by {
                if x == v {
                    assert(adj@[x] == row);
                }
            }
        }
        v += 1;
    }
    adj
}

/// `p` is a king path through the whole block: ten distinct cells, each one
/// king move from the one before.
pub open spec fn block_path(p: Seq<u8>) -> bool {
    &&& p.len() == BLOCK_CELLS
    &&& forall|k: int| 0 <= k < BLOCK_CELLS ==> #[trigger] p[k] < BLOCK_CELLS
    &&& forall|a: int, b: int| 0 <= a < b < BLOCK_CELLS ==> p[a] != p[b]
    &&& forall|k: int| 0 <= k < BLOCK_CELLS - 1 ==> #[trigger] local_adjacent(p[k] as int, p[k + 1] as int)
}

/// Pair `pair == start_row * 5 + end_row` of a block path entering at
/// `(start_row, 0)` and leaving at `(end_row, 1)`.
pub open spec fn path_for_pair(p: Seq<u8>, pair: int) -> bool {
    &&& block_path(p)
    &&& p[0] % 2 == 0
    &&& p[BLOCK_CELLS - 1] % 2 == 1
    &&& pair == (p[0] / 2) * (BAND_H as int) + p[BLOCK_CELLS - 1] / 2
}

/// The first `k` entries of `p` are distinct block cells, each a king move
/// from the one before.
pub open spec fn partial_path(p: Seq<u8>, k: int) -> bool {
    &&& p.len() == BLOCK_CELLS
    &&& 1 <= k <= BLOCK_CELLS
    &&& forall|a: int| 0 <= a < k ==> #[trigger] p[a] < BLOCK_CELLS
    &&& forall|a: int, b: int| 0 <= a < b < k ==> p[a] != p[b]
    &&& forall|a: int| 0 <= a < k - 1 ==> #[trigger] local_adjacent(p[a] as int, p[a + 1] as int)
}

/// Bit `v` of `mask` is set.
pub open spec fn has_bit16(mask: u16, v: int) -> bool {
    (mask >> (v as u16)) & 1u16 == 1u16
}

/// `mask` holds exactly the first `k` cells of `p`.
pub open spec fn mask_of(mask: u16, p: Seq<u8>, k: int) -> bool {
    forall|v: int| 0 <= v < BLOCK_CELLS ==> (#[trigger] has_bit16(mask, v) <==> exists|a: int| 0 <= a < k && p[a] == v)
}

proof fn lemma_bits16(mask: u16, b: u16, v: u16)
    requires
        b < 16,
        v < 16,
    ensures
        has_bit16(mask | (1u16 << b), v as int) == (has_bit16(mask, v as int) || v == b),
        ((mask & (1u16 << b)) != 0) == has_bit16(mask, b as int),
        has_bit16(1u16 << b, v as int) == (v == b),
{
    assert(((mask | (1u16 << b)) >> v) & 1u16 == 1u16 <==> (((mask >> v) & 1u16 == 1u16) || v == b)) by (bit_vector)
        requires b < 16, v < 16;
    assert(((mask & (1u16 << b)) != 0) <==> ((mask >> b) & 1u16 == 1u16)) by (bit_vector)
        requires b < 16;
    assert((((1u16 << b) >> v) & 1u16 == 1u16) <==> (v == b)) by (bit_vector)
        requires b < 16, v < 16;
}

/// Block cells `p[k]` for `k < m` are all different from `v`.
pub open spec fn absent_before(p: Seq<u8>, v: u8, m: int) -> bool
    decreases m,
{
    m <= 0 || (p[m - 1] != v && absent_before(p, v, m - 1))
}

/// Step-by-step form of `block_path` on the first `m` cells, for checking
/// a given path by evaluation.
pub open spec fn block_path_upto(p: Seq<u8>, m: int) -> bool
    decreases m,
{
    m <= 0 || {
        &&& block_path_upto(p, m - 1)
        &&& p[m - 1] < BLOCK_CELLS
        &&& absent_before(p, p[m - 1], m - 1)
        &&& m >= 2 ==> local_adjacent(p[m - 2] as int, p[m - 1] as int)
    }
}

proof fn lemma_block_path_upto(p: Seq<u8>, m: int)
    requires
        0 <= m <= p.len(),
        block_path_upto(p, m),
    ensures
        forall|k: int| 0 <= k < m ==> #[trigger] p[k] < BLOCK_CELLS,
        forall|a: int, b: int| 0 <= a < b < m ==> p[a] != p[b],
        forall|k: int| 0 <= k < m - 1 ==> #[trigger] local_adjacent(p[k] as int, p[k + 1] as int),
    decreases m,
{
    if m > 0 {
        lemma_block_path_upto(p, m - 1);
        assert forall|a: int| 0 <= a < m - 1 implies #[trigger] p[a] != p[m - 1] by {
            lemma_absent_before(p, p[m - 1], m - 1, a);
        }
    }
}

proof fn lemma_absent_before(p: Seq<u8>, v: u8, m: int, a: int)
    requires
        absent_before(p, v, m),
        0 <= a < m,
    ensures
        p[a] != v,
    decreases m,
{
    if a < m - 1 {
        lemma_absent_before(p, v, m - 1, a);
    }
}

/// Every block path that enters in the first column and leaves in the
/// second is in the list of its pair.
pub open spec fn complete_paths(lists: Seq<Vec<[u8; 10]>>) -> bool {
    forall|p: Seq<u8>| #[trigger] block_path(p) && p[0] % 2 == 0 && p[BLOCK_CELLS - 1] % 2 == 1 ==> found_in(lists, p)
}

/// The path `p`, checked by evaluation, puts a path in the list of pair
/// `(s, e)`.
proof fn lemma_witness(lists: Seq<Vec<[u8; 10]>>, p: Seq<u8>, s: int, e: int)
    requires
        complete_paths(lists),
        p.len() == BLOCK_CELLS,
        block_path_upto(p, BLOCK_CELLS as int),
        p[0] % 2 == 0,
        p[BLOCK_CELLS - 1] % 2 == 1,
        p[0] / 2 == s,
        p[BLOCK_CELLS - 1] / 2 == e,
    ensures
        lists[s * (BAND_H as int) + e]@.len() > 0,
{
    lemma_block_path_upto(p, BLOCK_CELLS as int);
    assert(block_path(p));
    assert(found_in(lists, p));
}

/// Every pair but those that enter and leave on the same inner row has a
/// block path: one is given for each, and a complete list holds it.
proof fn lemma_pairs_available(lists: Seq<Vec<[u8; 10]>>)
    requires
        complete_paths(lists),
    ensures
        pairs_available(lists),
{
    reveal_with_fuel(block_path_upto, 11);
    reveal_with_fuel(absent_before, 10);
    lemma_witness(lists, seq![0u8, 2, 4, 6, 8, 9, 7, 5, 3, 1], 0, 0);
    lemma_witness(lists, seq![0u8, 1, 2, 4, 6, 8, 9, 7, 5, 3], 0, 1);
    lemma_witness(lists, seq![0u8, 1, 2, 3, 4, 6, 8, 9, 7, 5], 0, 2);
    lemma_witness(lists, seq![0u8, 1, 2, 3, 4, 5, 6, 8, 9, 7], 0, 3);
    lemma_witness(lists, seq![0u8, 1, 2, 3, 4, 5, 6, 7, 8, 9], 0, 4);
    lemma_witness(lists, seq![2u8, 4, 6, 8, 9, 7, 5, 3, 0, 1], 1, 0);
    lemma_witness(lists, seq![2u8, 0, 1, 3, 4, 6, 8, 9, 7, 5], 1, 2);
    lemma_witness(lists, seq![2u8, 0, 1, 3, 4, 5, 6, 8, 9, 7], 1, 3);
    lemma_witness(lists, seq![2u8, 0, 1, 3, 4, 5, 6, 7, 8, 9], 1, 4);
    lemma_witness(lists, seq![4u8, 6, 8, 9, 7, 5, 2, 0, 3, 1], 2, 0);
    lemma_witness(lists, seq![4u8, 6, 8, 9, 7, 5, 2, 0, 1, 3], 2, 1);
    lemma_witness(lists, seq![4u8, 2, 0, 1, 3, 5, 6, 8, 9, 7], 2, 3);
    lemma_witness(lists, seq![4u8, 2, 0, 1, 3, 5, 6, 7, 8, 9], 2, 4);
    lemma_witness(lists, seq![6u8, 8, 9, 7, 4, 2, 5, 3, 0, 1], 3, 0);
    lemma_witness(lists, seq![6u8, 8, 9, 7, 4, 5, 2, 0, 1, 3], 3, 1);
    lemma_witness(lists, seq![6u8, 8, 9, 7, 4, 2, 0, 1, 3, 5], 3, 2);
    lemma_witness(lists, seq![6u8, 4, 2, 0, 1, 3, 5, 7, 8, 9], 3, 4);
    lemma_witness(lists, seq![8u8, 6, 9, 7, 4, 2, 5, 3, 0, 1], 4, 0);
    lemma_witness(lists, seq![8u8, 6, 9, 7, 4, 5, 2, 0, 1, 3], 4, 1);
    lemma_witness(lists, seq![8u8, 6, 9, 7, 4, 2, 0, 1, 3, 5], 4, 2);
    lemma_witness(lists, seq![8u8, 9, 6, 4, 2, 0, 1, 3, 5, 7], 4, 3);
    lemma_witness(lists, seq![8u8, 6, 4, 2, 0, 1, 3, 5, 7, 9], 4, 4);
    assert forall|s: int, e: int| 0 <= s < BAND_H && 0 <= e < BAND_H && pair_possible(s, e)
        implies #[trigger] lists[s * (BAND_H as int) + e]@.len() > 0 by {
        assert(s == 0 || s == 1 || s == 2 || s == 3 || s == 4);
        assert(e == 0 || e == 1 || e == 2 || e == 3 || e == 4);
    }
}

/// The lists of paths grew by appending only.
pub open spec fn lists_extend(before: Seq<Vec<[u8; 10]>>, after: Seq<Vec<[u8; 10]>>) -> bool {
    &&& after.len() == before.len()
    &&& forall|q: int| 0 <= q < before.len() ==> #[trigger] after[q]@.len() >= before[q]@.len()
        && after[q]@.subrange(0, before[q]@.len() as int) == before[q]@
}

proof fn lemma_lists_extend_refl(s: Seq<Vec<[u8; 10]>>)
    ensures
        lists_extend(s, s),
{
    assert forall|q: int| 0 <= q < s.len() implies #[trigger] s[q]@.len() >= s[q]@.len()
        && s[q]@.subrange(0, s[q]@.len() as int) == s[q]@ by {
        assert(s[q]@.subrange(0, s[q]@.len() as int) =~= s[q]@);
    }
}

/// The paths appended to the lists are block paths filed under their pair
/// that begin with the first `k` cells of `prefix`.
pub open spec fn appended_ok(before: Seq<Vec<[u8; 10]>>, after: Seq<Vec<[u8; 10]>>, prefix: Seq<u8>, k: int) -> bool {
    forall|q: int, i: int| 0 <= q < after.len() && before[q]@.len() <= i < after[q]@.len()
        ==> #[trigger] path_for_pair(after[q]@[i]@, q) && after[q]@[i]@.subrange(0, k) == prefix.subrange(0, k)
}

/// The list a block path is filed under.
pub open spec fn pair_of(p: Seq<u8>) -> int {
    (p[0] / 2) * (BAND_H as int) + p[BLOCK_CELLS - 1] / 2
}

/// The block path `p` is in the list of its pair.
pub open spec fn found_in(lists: Seq<Vec<[u8; 10]>>, p: Seq<u8>) -> bool {
    exists|i: int| 0 <= i < lists[pair_of(p)]@.len() && #[trigger] lists[pair_of(p)]@[i]@ == p
}

/// A block path that leaves in the second column and begins with the first
/// `k` cells of `prefix`.
pub open spec fn completes(p: Seq<u8>, prefix: Seq<u8>, k: int) -> bool {
    &&& block_path(p)
    &&& p[BLOCK_CELLS - 1] % 2 == 1
    &&& p.subrange(0, k) == prefix.subrange(0, k)
}

proof fn lemma_found_persists(before: Seq<Vec<[u8; 10]>>, after: Seq<Vec<[u8; 10]>>, p: Seq<u8>)
    requires
        lists_extend(before, after),
        found_in(before, p),
        0 <= pair_of(p) < before.len(),
    ensures
        found_in(after, p),
{
    let q = pair_of(p);
    let i = choose|i: int| 0 <= i < before[q]@.len() && #[trigger] before[q]@[i]@ == p;
    assert(after[q]@.subrange(0, before[q]@.len() as int) == before[q]@);
    assert(after[q]@.subrange(0, before[q]@.len() as int)[i] == before[q]@[i]);
    assert(after[q]@[i]@ == p);
}

proof fn lemma_appended_chain(
    first: Seq<Vec<[u8; 10]>>,
    mid: Seq<Vec<[u8; 10]>>,
    last: Seq<Vec<[u8; 10]>>,
    prefix: Seq<u8>,
    extended: Seq<u8>,
    depth: int,
)
    requires
        0 <= depth < BLOCK_CELLS,
        lists_extend(first, mid),
        appended_ok(first, mid, prefix, depth),
        lists_extend(mid, last),
        appended_ok(mid, last, extended, depth + 1),
        extended.subrange(0, depth) == prefix.subrange(0, depth),
        extended.len() == BLOCK_CELLS,
        prefix.len() == BLOCK_CELLS,
    ensures
        lists_extend(first, last),
        appended_ok(first, last, prefix, depth),
{
    assert forall|q: int| 0 <= q < first.len() implies #[trigger] last[q]@.len() >= first[q]@.len()
        && last[q]@.subrange(0, first[q]@.len() as int) == first[q]@ by {
        assert(last[q]@.subrange(0, mid[q]@.len() as int) == mid[q]@);
        assert(mid[q]@.subrange(0, first[q]@.len() as int) == first[q]@);
        assert(last[q]@.subrange(0, first[q]@.len() as int) =~= mid[q]@.subrange(0, first[q]@.len() as int));
    }
    assert forall|q: int, i: int| 0 <= q < last.len() && first[q]@.len() <= i < last[q]@.len()
        implies #[trigger] path_for_pair(last[q]@[i]@, q) && last[q]@[i]@.subrange(0, depth) == prefix.subrange(0, depth) by {
        if i < mid[q]@.len() {
            assert(last[q]@.subrange(0, mid[q]@.len() as int)[i] == mid[q]@[i]);
            assert(path_for_pair(mid[q]@[i]@, q));
        } else {
            assert(path_for_pair(last[q]@[i]@, q));
            let e = last[q]@[i]@;
            assert(e.subrange(0, depth + 1) == extended.subrange(0, depth + 1));
            assert(e.subrange(0, depth) =~= prefix.subrange(0, depth)) by {
                assert forall|a: int| 0 <= a < depth implies e[a] == prefix[a] by {
                    assert(e.subrange(0, depth + 1)[a] == extended.subrange(0, depth + 1)[a]);
                    assert(extended.subrange(0, depth)[a] == prefix.subrange(0, depth)[a]);
                }
            }
        }
    }
}

/// Extends the first `depth` cells of `path` (ending at `last`, the cells of
/// `mask`) in every way to a block path, and files each that leaves in the
/// second column under its pair of entry and exit rows.
pub fn dfs_local_paths(
    mask: u16,
    last: usize,
    depth: usize,
    adj: &Vec<Vec<u8>>,
    path: &mut [u8; 10],
    paths_by_pair: &mut Vec<Vec<[u8; 10]>>,
)
    requires
        partial_path(old(path)@, depth as int),
        old(path)@[0] % 2 == 0,
        last == old(path)@[depth - 1],
        mask_of(mask, old(path)@, depth as int),
        adj@.len() == BLOCK_CELLS,
        forall|v: int| 0 <= v < BLOCK_CELLS ==> #[trigger] lists_local_neighbors(v, adj@[v]@),
        old(paths_by_pair)@.len() == BAND_H * BAND_H,
    ensures
        final(path)@.subrange(0, depth as int) == old(path)@.subrange(0, depth as int),
        lists_extend(old(paths_by_pair)@, final(paths_by_pair)@),
        appended_ok(old(paths_by_pair)@, final(paths_by_pair)@, old(path)@, depth as int),
        forall|p: Seq<u8>| completes(p, old(path)@, depth as int) ==> #[trigger] found_in(final(paths_by_pair)@, p),
    decreases BLOCK_CELLS - depth,
{
    if depth == BLOCK_CELLS {
        if last % BLOCK_W == BLOCK_W - 1 {
            let start_row = path[0] as usize / BLOCK_W;
            let end_row = last / BLOCK_W;
            let pair = start_row * BAND_H + end_row;
            let ghost before = paths_by_pair@;
            let p = *path;
            paths_by_pair[pair].push(p);
            proof {
                assert(p@ =~= path@);
                assert(path@.subrange(0, depth as int) =~= path@);
                assert(block_path(p@));
                assert forall|q: int| 0 <= q < before.len() implies #[trigger] paths_by_pair@[q]@.len() >= before[q]@.len()
                    && paths_by_pair@[q]@.subrange(0, before[q]@.len() as int) == before[q]@ by {
                    if q == pair {
                        assert(paths_by_pair@[q]@.subrange(0, before[q]@.len() as int) =~= before[q]@);
                    }
                }
                assert forall|x: Seq<u8>| completes(x, old(path)@, depth as int) implies #[trigger] found_in(paths_by_pair@, x) by {
                    assert(x =~= old(path)@) by {
                        assert(x.subrange(0, 10) =~= x);
                        assert(old(path)@.subrange(0, 10) =~= old(path)@);
                    }
                    assert(pair_of(x) == pair as int);
                    let i = before[pair as int]@.len() as int;
                    assert(paths_by_pair@[pair as int]@[i]@ == x);
                }
            }
        } else {
            proof {
                lemma_lists_extend_refl(paths_by_pair@);
                assert forall|x: Seq<u8>| completes(x, old(path)@, depth as int) implies #[trigger] found_in(paths_by_pair@, x) by {
                    assert(x.subrange(0, 10) =~= x);
                    assert(old(path)@.subrange(0, 10) =~= old(path)@);
                    assert(x[9] == old(path)@[9]);
                }
            }
        }
        return;
    }
    let ghost prefix = path@;
    proof {
        lemma_lists_extend_refl(paths_by_pair@);
    }
    let mut k: usize = 0;
    let neighbors = &adj[last];
    while k < neighbors.len()
        invariant
            depth < BLOCK_CELLS,
            partial_path(prefix, depth as int),
            prefix[0] % 2 == 0,
            last == prefix[depth - 1],
            mask_of(mask, prefix, depth as int),
            adj@.len() == BLOCK_CELLS,
            forall|v: int| 0 <= v < BLOCK_CELLS ==> #[trigger] lists_local_neighbors(v, adj@[v]@),
            neighbors@ == adj@[last as int]@,
            k <= neighbors@.len(),
            old(paths_by_pair)@.len() == BAND_H * BAND_H,
            path@.len() == BLOCK_CELLS,
            path@.subrange(0, depth as int) == prefix.subrange(0, depth as int),
            lists_extend(old(paths_by_pair)@, paths_by_pair@),
            appended_ok(old(paths_by_pair)@, paths_by_pair@, prefix, depth as int),
            prefix == old(path)@,
            forall|p: Seq<u8>| completes(p, prefix, depth as int)
                && (exists|j: int| 0 <= j < k && neighbors@[j] == p[depth as int])
                ==> #[trigger] found_in(paths_by_pair@, p),
        decreases neighbors@.len() - k,
    {
        let next = neighbors[k];
        proof {
            assert(neighbors@.contains(next));
            assert(lists_local_neighbors(last as int, adj@[last as int]@));
            lemma_bits16(mask, next as u16, next as u16);
        }
        let bit = 1u16 << (next as u16);
        if (mask & bit) == 0 {
            path[depth] = next;
            let ghost extended = path@;
            proof {
                assert(extended[depth as int] == next);
                assert forall|a: int| 0 <= a < depth implies extended[a] == prefix[a] by {
                    assert(path@.subrange(0, depth as int)[a] == prefix.subrange(0, depth as int)[a]);
                }
                assert(!exists|a: int| 0 <= a < depth && prefix[a] == next);
                assert forall|v: int| 0 <= v < BLOCK_CELLS implies (#[trigger] has_bit16(mask | bit, v)
                    <==> exists|a: int| 0 <= a < depth + 1 && extended[a] == v) by {
                    lemma_bits16(mask, next as u16, v as u16);
                    assert((v as u16) as int == v);
                    if v == next {
                        assert(extended[depth as int] == v);
                    }
                    if exists|a: int| 0 <= a < depth && prefix[a] == v {
                        let a = choose|a: int| 0 <= a < depth && prefix[a] == v;
                        assert(path@.subrange(0, depth as int)[a] == prefix.subrange(0, depth as int)[a]);
                        assert(extended[a] == v);
                    }
                    if exists|a: int| 0 <= a < depth + 1 && extended[a] == v {
                        let a = choose|a: int| 0 <= a < depth + 1 && extended[a] == v;
                        if a < depth {
                            assert(path@.subrange(0, depth as int)[a] == prefix.subrange(0, depth as int)[a]);
                            assert(prefix[a] == v);
                        }
                    }
                }
                assert(partial_path(extended, depth + 1)) by {
                    assert forall|a: int, b: int| 0 <= a < b < depth + 1 implies extended[a] != extended[b] by {
                        if b == depth {
                            assert(extended[a] == prefix[a]);
                        }
                    }
                    assert forall|a: int| 0 <= a < depth + 1 - 1 implies #[trigger] local_adjacent(extended[a] as int, extended[a + 1] as int) by {
                        if a + 1 < depth {
                            assert(local_adjacent(prefix[a] as int, prefix[a + 1] as int));
                        }
                    }
                }
            }
            let ghost lists_before = paths_by_pair@;
            dfs_local_paths(mask | bit, next as usize, depth + 1, adj, path, paths_by_pair);
            proof {
                assert(path@.subrange(0, depth as int) =~= prefix.subrange(0, depth as int)) by {
                    assert forall|a: int| 0 <= a < depth implies path@[a] == prefix[a] by {
                        assert(path@.subrange(0, depth + 1)[a] == extended.subrange(0, depth + 1)[a]);
                    }
                }
                assert(extended.subrange(0, depth as int) =~= prefix.subrange(0, depth as int)) by {
                    assert forall|a: int| 0 <= a < depth implies extended[a] == prefix[a] by {
                        assert(path@.subrange(0, depth as int)[a] == prefix.subrange(0, depth as int)[a]);
                    }
                }
                lemma_appended_chain(old(paths_by_pair)@, lists_before, paths_by_pair@, prefix, extended, depth as int);
                assert forall|x: Seq<u8>| completes(x, prefix, depth as int)
                    && (exists|j: int| 0 <= j < k + 1 && neighbors@[j] == x[depth as int])
                    implies #[trigger] found_in(paths_by_pair@, x) by {
                    assert(block_path(x));
                    assert(x[0] == prefix[0]) by {
                        assert(x.subrange(0, depth as int)[0] == prefix.subrange(0, depth as int)[0]);
                    }
                    assert(0 <= pair_of(x) < BAND_H * BAND_H) by {
                        assert(x[0] < BLOCK_CELLS && x[BLOCK_CELLS - 1] < BLOCK_CELLS);
                    }
                    if x[depth as int] == next {
                        assert(x.subrange(0, depth + 1) =~= extended.subrange(0, depth + 1)) by {
                            assert forall|a: int| 0 <= a < depth + 1 implies x[a] == extended[a] by {
                                if a < depth {
                                    assert(x.subrange(0, depth as int)[a] == prefix.subrange(0, depth as int)[a]);
                                    assert(extended.subrange(0, depth as int)[a] == prefix.subrange(0, depth as int)[a]);
                                }
                            }
                        }
                        assert(completes(x, extended, depth + 1));
                    } else {
                        let j = choose|j: int| 0 <= j < k + 1 && neighbors@[j] == x[depth as int];
                        assert(j < k);
                        assert(found_in(lists_before, x));
                        lemma_found_persists(lists_before, paths_by_pair@, x);
                    }
                }
            }
        } else {
            proof {
                assert forall|x: Seq<u8>| completes(x, prefix, depth as int)
                    && (exists|j: int| 0 <= j < k + 1 && neighbors@[j] == x[depth as int])
                    implies #[trigger] found_in(paths_by_pair@, x) by {
                    if x[depth as int] == next {
                        lemma_bits16(mask, next as u16, next as u16);
                        assert(has_bit16(mask, next as int));
                        let a = choose|a: int| 0 <= a < depth && prefix[a] == next;
                        assert(x.subrange(0, depth as int)[a] == prefix.subrange(0, depth as int)[a]);
                        assert(x[a] == x[depth as int]);
                        assert(block_path(x));
                    } else {
                        let j = choose|j: int| 0 <= j < k + 1 && neighbors@[j] == x[depth as int];
                        assert(j < k);
                    }
                }
            }
        }
        k += 1;
    }
    proof {
        assert forall|x: Seq<u8>| completes(x, old(path)@, depth as int) implies #[trigger] found_in(paths_by_pair@, x) by {
            assert(block_path(x));
            assert(x[depth - 1] == prefix[depth - 1]) by {
                assert(x.subrange(0, depth as int)[depth - 1] == prefix.subrange(0, depth as int)[depth - 1]);
            }
            assert(local_adjacent(x[depth - 1] as int, x[depth - 1 + 1] as int));
            assert(x[depth as int] < BLOCK_CELLS);
            assert(lists_local_neighbors(last as int, adj@[last as int]@));
            assert(neighbors@.contains(x[depth as int]));
            let j = choose|j: int| 0 <= j < neighbors@.len() && neighbors@[j] == x[depth as int];
            assert(exists|j: int| 0 <= j < k && neighbors@[j] == x[depth as int]);
        }
    }
}

/// Every path of every pair is a block path filed under that pair.
pub open spec fn paths_ok(paths_by_pair: Seq<Vec<[u8; 10]>>) -> bool {
    &&& paths_by_pair.len() == BAND_H * BAND_H
    &&& forall|q: int, i: int| 0 <= q < BAND_H * BAND_H && 0 <= i < paths_by_pair[q]@.len()
        ==> #[trigger] path_for_pair(paths_by_pair[q]@[i]@, q)
}

/// The king paths through a block, filed by entry and exit row: list
/// `start_row * 5 + end_row` holds paths from `(start_row, 0)` to
/// `(end_row, 1)`, in the order a depth-first search over increasing
/// neighbours finds them.
pub fn generate_local_paths() -> (paths_by_pair: Vec<Vec<[u8; 10]>>)
    ensures
        paths_ok(paths_by_pair@),
        complete_paths(paths_by_pair@),
        pairs_available(paths_by_pair@),
{
    let adj = build_local_neighbors();
    let mut paths_by_pair: Vec<Vec<[u8; 10]>> = Vec::new();
    let mut q: usize = 0;
    while q < BAND_H * BAND_H
        invariant
            q <= BAND_H * BAND_H,
            paths_by_pair@.len() == q,
            forall|x: int| 0 <= x < q ==> #[trigger] paths_by_pair@[x]@.len() == 0,
        decreases BAND_H * BAND_H - q,
    {
        paths_by_pair.push(Vec::new());
        q += 1;
    }
    let mut start_row: usize = 0;
    while start_row < BAND_H
        invariant
            start_row <= BAND_H,
            adj@.len() == BLOCK_CELLS,
            forall|v: int| 0 <= v < BLOCK_CELLS ==> #[trigger] lists_local_neighbors(v, adj@[v]@),
            paths_ok(paths_by_pair@),
            forall|p: Seq<u8>| #[trigger] block_path(p) && p[0] % 2 == 0 && p[BLOCK_CELLS - 1] % 2 == 1
                && p[0] / 2 < start_row ==> found_in(paths_by_pair@, p),
        decreases BAND_H - start_row,
    {
        let start = start_row * BLOCK_W;
        let mut path: [u8; 10] = [255u8; 10];
        path[0] = start as u8;
        proof {
            assert(partial_path(path@, 1));
            assert forall|v: int| 0 <= v < BLOCK_CELLS implies (#[trigger] has_bit16(1u16 << (start as u16), v)
                <==> exists|a: int| 0 <= a < 1 && path@[a] == v) by {
                lemma_bits16(0, start as u16, v as u16);
                assert((v as u16) as int == v);
                if v == start {
                    assert(path@[0] == v);
                }
            }
        }
        let ghost before = paths_by_pair@;
        dfs_local_paths(1u16 << (start as u16), start, 1, &adj, &mut path, &mut paths_by_pair);
        proof {
            assert forall|q: int, i: int| 0 <= q < BAND_H * BAND_H && 0 <= i < paths_by_pair@[q]@.len()
                implies #[trigger] path_for_pair(paths_by_pair@[q]@[i]@, q) by {
                if i < before[q]@.len() {
                    assert(paths_by_pair@[q]@.subrange(0, before[q]@.len() as int)[i] == before[q]@[i]);
                    assert(path_for_pair(before[q]@[i]@, q));
                } else {
                    assert(path_for_pair(paths_by_pair@[q]@[i]@, q));
                }
            }
            assert forall|p: Seq<u8>| #[trigger] block_path(p) && p[0] % 2 == 0 && p[BLOCK_CELLS - 1] % 2 == 1
                && p[0] / 2 < start_row + 1 implies found_in(paths_by_pair@, p) by {
                assert(p[0] < BLOCK_CELLS && p[BLOCK_CELLS - 1] < BLOCK_CELLS);
                if p[0] / 2 < start_row {
                    lemma_found_persists(before, paths_by_pair@, p);
                } else {
                    assert(p.subrange(0, 1) =~= path@.subrange(0, 1));
                    assert(completes(p, path@, 1));
                }
            }
        }
        start_row += 1;
    }
    proof {
        lemma_pairs_available(paths_by_pair@);
    }
    paths_by_pair
}

/// First column of the block crossed at `step` of a band of width `n`,
/// crossed left to right when `dir_lr` and right to left otherwise.
pub open spec fn block_col0(n: int, step: int, dir_lr: bool) -> int {
    if dir_lr { step * 2 } else { n - (step + 1) * 2 }
}

/// The board cell of block cell `v` for the block at rows
/// `band_row0..band_row0 + 5`, columns `col0..col0 + 2`; a block crossed right
/// to left is mirrored, so that its entry column is always local column 0.
pub open spec fn band_cell(n: int, band_row0: int, col0: int, dir_lr: bool, v: int) -> int {
    (band_row0 + v / 2) * n + (if dir_lr { col0 + v % 2 } else { col0 + 1 - v % 2 })
}

/// The weights of a block in block-cell order, mirrored when the block is
/// crossed right to left.
pub fn oriented_block_weights(n: usize, weights: &[i64], band_row0: usize, block_col0: usize, dir_lr: bool)
    -> (oriented: [i64; 10])
    requires
        band_row0 + BAND_H <= n,
        block_col0 + BLOCK_W <= n,
        n * n <= crate::grid::MAX_CELLS,
        weights@.len() == n * n,
    ensures
        forall|v: int| 0 <= v < BLOCK_CELLS ==> #[trigger] oriented@[v]
            == weights@[band_cell(n as int, band_row0 as int, block_col0 as int, dir_lr, v)],
{
    let mut oriented: [i64; 10] = [0i64; 10];
    let mut v: usize = 0;
    while v < BLOCK_CELLS
        invariant
            band_row0 + BAND_H <= n,
            block_col0 + BLOCK_W <= n,
            n * n <= crate::grid::MAX_CELLS,
            weights@.len() == n * n,
            v <= BLOCK_CELLS,
            forall|x: int| 0 <= x < v ==> #[trigger] oriented@[x]
                == weights@[band_cell(n as int, band_row0 as int, block_col0 as int, dir_lr, x)],
        decreases BLOCK_CELLS - v,
    {
        let row = v / BLOCK_W;
        let col = v % BLOCK_W;
        let global_col = if dir_lr { block_col0 + col } else { block_col0 + (BLOCK_W - 1 - col) };
        proof {
            crate::grid::lemma_cell_bound(n as int, (band_row0 + row) as int, global_col as int);
        }
        let cell = (band_row0 + row) * n + global_col;
        oriented[v] = weights[cell];
        v += 1;
    }
    oriented
}

/// `sum_{pos < k} pos * w[p[pos]]`: the score of the first `k` steps of a
/// block path.
pub open spec fn local_prefix(p: Seq<u8>, w: Seq<i64>, k: int) -> int
    decreases k,
{
    if k <= 0 { 0 } else { local_prefix(p, w, k - 1) + (k - 1) * w[p[k - 1] as int] }
}

/// The score of a block path against the block's weights.
pub open spec fn local_score(p: Seq<u8>, w: Seq<i64>) -> int {
    local_prefix(p, w, BLOCK_CELLS as int)
}

/// The best score of a pair and which path reaches it.
pub struct BlockEval {
    pub scores: [i64; 25],
    pub choices: [usize; 25],
}

/// Weights of a block within the handled range.
pub open spec fn block_weights_bounded(w: Seq<i64>) -> bool {
    forall|v: int| 0 <= v < BLOCK_CELLS ==> -crate::grid::MAX_WEIGHT <= #[trigger] w[v] <= crate::grid::MAX_WEIGHT
}

proof fn lemma_local_prefix_bound(p: Seq<u8>, w: Seq<i64>, k: int)
    requires
        block_path(p),
        w.len() == BLOCK_CELLS,
        block_weights_bounded(w),
        0 <= k <= BLOCK_CELLS,
    ensures
        -k * 10 * crate::grid::MAX_WEIGHT <= local_prefix(p, w, k) <= k * 10 * crate::grid::MAX_WEIGHT,
    decreases k,
{
    if k > 0 {
        lemma_local_prefix_bound(p, w, k - 1);
        let x = w[p[k - 1] as int];
        assert(p[k - 1] < BLOCK_CELLS);
        assert(-crate::grid::MAX_WEIGHT <= x <= crate::grid::MAX_WEIGHT);
        assert(-10 * crate::grid::MAX_WEIGHT <= (k - 1) * x <= 10 * crate::grid::MAX_WEIGHT) by (nonlinear_arith)
            requires 0 <= k - 1 < 10, -crate::grid::MAX_WEIGHT <= x <= crate::grid::MAX_WEIGHT;
    }
}

/// The score of a block path.
fn score_local_path(p: &[u8; 10], w: &[i64; 10]) -> (s: i64)
    requires
        block_path(p@),
        block_weights_bounded(w@),
    ensures
        s == local_score(p@, w@),
{
    let mut s: i64 = 0;
    let mut pos: usize = 0;
    while pos < BLOCK_CELLS
        invariant
            block_path(p@),
            block_weights_bounded(w@),
            pos <= BLOCK_CELLS,
            s == local_prefix(p@, w@, pos as int),
        decreases BLOCK_CELLS - pos,
    {
        proof {
            lemma_local_prefix_bound(p@, w@, pos + 1);
            let x = w@[p@[pos as int] as int];
            assert(p@[pos as int] < BLOCK_CELLS);
            assert(-crate::grid::MAX_WEIGHT <= x <= crate::grid::MAX_WEIGHT);
            assert(-10 * crate::grid::MAX_WEIGHT <= pos * x <= 10 * crate::grid::MAX_WEIGHT) by (nonlinear_arith)
                requires 0 <= pos < 10, -crate::grid::MAX_WEIGHT <= x <= crate::grid::MAX_WEIGHT;
        }
        s = s + (pos as i64) * w[p[pos] as usize];
        pos += 1;
    }
    s
}

/// For every pair, the best score of its paths (`NEG_INF` when it has none)
/// and the first path that reaches it.
pub fn evaluate_block(oriented_weights: &[i64; 10], paths_by_pair: &Vec<Vec<[u8; 10]>>) -> (eval: BlockEval)
    requires
        paths_ok(paths_by_pair@),
        block_weights_bounded(oriented_weights@),
    ensures
        forall|q: int| 0 <= q < BAND_H * BAND_H ==> {
            let list = #[trigger] paths_by_pair@[q]@;
            &&& list.len() == 0 ==> eval.scores@[q] == NEG_INF
            &&& list.len() > 0 ==> {
                &&& 0 <= eval.choices@[q] < list.len()
                &&& eval.scores@[q] == local_score(list[eval.choices@[q] as int]@, oriented_weights@)
                &&& forall|i: int| 0 <= i < list.len() ==> local_score(#[trigger] list[i]@, oriented_weights@) <= eval.scores@[q]
                &&& forall|i: int| 0 <= i < eval.choices@[q] ==> local_score(#[trigger] list[i]@, oriented_weights@) < eval.scores@[q]
            }
        },
{
    let mut scores: [i64; 25] = [NEG_INF; 25];
    let mut choices: [usize; 25] = [0usize; 25];
    let mut q: usize = 0;
    while q < BAND_H * BAND_H
        invariant
            paths_ok(paths_by_pair@),
            block_weights_bounded(oriented_weights@),
            q <= BAND_H * BAND_H,
            forall|x: int| q <= x < BAND_H * BAND_H ==> #[trigger] scores@[x] == NEG_INF,
            forall|x: int| 0 <= x < q ==> {
                let list = #[trigger] paths_by_pair@[x]@;
                &&& list.len() == 0 ==> scores@[x] == NEG_INF
                &&& list.len() > 0 ==> {
                    &&& 0 <= choices@[x] < list.len()
                    &&& scores@[x] == local_score(list[choices@[x] as int]@, oriented_weights@)
                    &&& forall|i: int| 0 <= i < list.len() ==> local_score(#[trigger] list[i]@, oriented_weights@) <= scores@[x]
                    &&& forall|i: int| 0 <= i < choices@[x] ==> local_score(#[trigger] list[i]@, oriented_weights@) < scores@[x]
                }
            },
        decreases BAND_H * BAND_H - q,
    {
        let list = &paths_by_pair[q];
        let mut i: usize = 0;
        while i < list.len()
            invariant
                paths_ok(paths_by_pair@),
                block_weights_bounded(oriented_weights@),
                q < BAND_H * BAND_H,
                list@ == paths_by_pair@[q as int]@,
                i <= list@.len(),
                i == 0 ==> scores@[q as int] == NEG_INF,
                i > 0 ==> {
                    &&& 0 <= choices@[q as int] < i
                    &&& scores@[q as int] == local_score(list@[choices@[q as int] as int]@, oriented_weights@)
                    &&& forall|j: int| 0 <= j < i ==> local_score(#[trigger] list@[j]@, oriented_weights@) <= scores@[q as int]
                    &&& forall|j: int| 0 <= j < choices@[q as int] ==> local_score(#[trigger] list@[j]@, oriented_weights@) < scores@[q as int]
                },
                forall|x: int| q < x < BAND_H * BAND_H ==> #[trigger] scores@[x] == NEG_INF,
                forall|x: int| 0 <= x < q ==> {
                    let list = #[trigger] paths_by_pair@[x]@;
                    &&& list.len() == 0 ==> scores@[x] == NEG_INF
                    &&& list.len() > 0 ==> {
                        &&& 0 <= choices@[x] < list.len()
                        &&& scores@[x] == local_score(list[choices@[x] as int]@, oriented_weights@)
                        &&& forall|i: int| 0 <= i < list.len() ==> local_score(#[trigger] list[i]@, oriented_weights@) <= scores@[x]
                        &&& forall|i: int| 0 <= i < choices@[x] ==> local_score(#[trigger] list[i]@, oriented_weights@) < scores@[x]
                    }
                },
            decreases list@.len() - i,
        {
            proof {
                assert(path_for_pair(paths_by_pair@[q as int]@[i as int]@, q as int));
                lemma_local_prefix_bound(list@[i as int]@, oriented_weights@, BLOCK_CELLS as int);
            }
            let s = score_local_path(&list[i], oriented_weights);
            if i == 0 || s > scores[q] {
                scores[q] = s;
                choices[q] = i;
            }
            i += 1;
        }
        q += 1;
    }
    BlockEval { scores, choices }
}

/// The paths chosen for the blocks of a band fit together: each is a block
/// path from the entry column to the exit column, and each enters within
/// one row of where the one before left.
pub open spec fn chain_ok(chosen: Seq<Seq<u8>>) -> bool {
    &&& forall|s: int| 0 <= s < chosen.len() ==> #[trigger] block_path(chosen[s])
        && chosen[s][0] % 2 == 0 && chosen[s][BLOCK_CELLS - 1] % 2 == 1
    &&& forall|s: int| #![trigger chosen[s]] 1 <= s < chosen.len() ==> -1 <= (chosen[s][0] / 2) - chosen[s - 1][BLOCK_CELLS - 1] / 2 <= 1
}

/// The board cells of a band crossed through the chosen block paths.
pub open spec fn band_route_of(n: int, br0: int, dir_lr: bool, chosen: Seq<Seq<u8>>) -> Seq<usize> {
    Seq::new((chosen.len() * 10) as nat, |k: int|
        band_cell(n, br0, block_col0(n, k / 10, dir_lr), dir_lr, chosen[k / 10][k % 10] as int) as usize)
}

/// The cell is in rows `br0..br0 + 5` of the board of side `n`.
pub open spec fn in_band(n: int, br0: int, c: int) -> bool {
    0 <= c < n * n && br0 <= row_of(n, c) < br0 + BAND_H
}

proof fn lemma_band_cell(n: int, br0: int, step: int, dir_lr: bool, v: int)
    requires
        2 <= n,
        n % 2 == 0,
        0 <= br0,
        br0 + BAND_H <= n,
        0 <= step < n / 2,
        0 <= v < BLOCK_CELLS,
    ensures
        ({
            let c = band_cell(n, br0, block_col0(n, step, dir_lr), dir_lr, v);
            let col = if dir_lr { 2 * step + v % 2 } else { n - 2 * step - 1 - v % 2 };
            &&& 0 <= col < n
            &&& c == (br0 + v / 2) * n + col
            &&& row_of(n, c) == br0 + v / 2
            &&& col_of(n, c) == col
            &&& 0 <= c < n * n
            &&& in_band(n, br0, c)
        }),
{
    let col = if dir_lr { 2 * step + v % 2 } else { n - 2 * step - 1 - v % 2 };
    assert(0 <= col < n);
    lemma_cell_coords(n, br0 + v / 2, col);
    lemma_cell_bound(n, br0 + v / 2, col);
}

proof fn lemma_route_entry(n: int, br0: int, dir_lr: bool, chosen: Seq<Seq<u8>>, k: int)
    requires
        2 <= n,
        n % 2 == 0,
        n * n <= MAX_CELLS,
        0 <= br0,
        br0 + BAND_H <= n,
        chosen.len() == n / 2,
        chain_ok(chosen),
        0 <= k < chosen.len() * 10,
    ensures
        ({
            let s = k / 10;
            let v = chosen[k / 10][k % 10] as int;
            let col = if dir_lr { 2 * s + v % 2 } else { n - 2 * s - 1 - v % 2 };
            let c = band_route_of(n, br0, dir_lr, chosen)[k] as int;
            &&& 0 <= s < n / 2
            &&& 0 <= v < BLOCK_CELLS
            &&& 0 <= col < n
            &&& c == (br0 + v / 2) * n + col
            &&& row_of(n, c) == br0 + v / 2
            &&& col_of(n, c) == col
            &&& in_band(n, br0, c)
        }),
{
    let s = k / 10;
    assert(block_path(chosen[s]));
    assert(chosen[s][k % 10] < BLOCK_CELLS);
    let v = chosen[s][k % 10] as int;
    lemma_band_cell(n, br0, s, dir_lr, v);
    let c = band_cell(n, br0, block_col0(n, s, dir_lr), dir_lr, v);
    assert(0 <= c < n * n);
    assert(band_route_of(n, br0, dir_lr, chosen)[k] == c as usize);
}

/// The cells of a band crossed through fitting block paths: `5 * n`
/// distinct cells of the band, each a king move from the one before,
/// entering in the band's first column and leaving in its last.
pub proof fn lemma_band_route(n: int, br0: int, dir_lr: bool, chosen: Seq<Seq<u8>>)
    requires
        2 <= n,
        n % 2 == 0,
        n * n <= MAX_CELLS,
        0 <= br0,
        br0 + BAND_H <= n,
        chosen.len() == n / 2,
        chain_ok(chosen),
    ensures
        ({
            let route = band_route_of(n, br0, dir_lr, chosen);
            &&& route.len() == BAND_H * n
            &&& forall|k: int| 0 <= k < route.len() ==> #[trigger] in_band(n, br0, route[k] as int)
            &&& route.no_duplicates()
            &&& is_king_walk(n, route)
            &&& row_of(n, route[0] as int) == br0 + chosen[0][0] / 2
            &&& col_of(n, route[0] as int) == if dir_lr { 0 } else { n - 1 }
            &&& row_of(n, route[route.len() - 1] as int) == br0 + chosen[n / 2 - 1][BLOCK_CELLS - 1] / 2
            &&& col_of(n, route[route.len() - 1] as int) == if dir_lr { n - 1 } else { 0 }
        }),
{
    let route = band_route_of(n, br0, dir_lr, chosen);
    let m = n / 2;
    assert(n == 2 * m);
    assert(route.len() == 10 * m);
    assert forall|k: int| 0 <= k < route.len() implies #[trigger] in_band(n, br0, route[k] as int) by {
        lemma_route_entry(n, br0, dir_lr, chosen, k);
    }
    assert forall|a: int, b: int| 0 <= a < route.len() && 0 <= b < route.len() && a != b implies route[a] != route[b] by {
        lemma_route_entry(n, br0, dir_lr, chosen, a);
        lemma_route_entry(n, br0, dir_lr, chosen, b);
        if route[a] == route[b] {
            let (sa, sb) = (a / 10, b / 10);
            assert(block_path(chosen[sa]));
            if sa == sb {
                assert(a % 10 != b % 10);
                assert(chosen[sa][a % 10] != chosen[sa][b % 10]);
            }
        }
    }
    assert forall|k: int| 0 <= k < route.len() - 1 implies #[trigger] adjacent(n, route[k] as int, route[k + 1] as int) by {
        lemma_route_entry(n, br0, dir_lr, chosen, k);
        lemma_route_entry(n, br0, dir_lr, chosen, k + 1);
        let s = k / 10;
        let s2 = (k + 1) / 10;
        if s == s2 {
            assert(block_path(chosen[s]));
            assert(k % 10 + 1 == (k + 1) % 10);
            assert(local_adjacent(chosen[s][k % 10] as int, chosen[s][k % 10 + 1] as int));
        } else {
            assert(k % 10 == 9 && (k + 1) % 10 == 0 && s2 == s + 1);
            assert(0 <= s && s2 < m);
            assert(block_path(chosen[s]));
            assert(chosen[s][BLOCK_CELLS - 1] % 2 == 1);
            assert(block_path(chosen[s2]));
            assert(chosen[s2][0] % 2 == 0);
            let _ = chosen[s2];
            assert(-1 <= (chosen[s2][0] / 2) - chosen[s2 - 1][BLOCK_CELLS - 1] / 2 <= 1);
        }
    }
    assert(block_path(chosen[0]) && chosen[0][0] % 2 == 0);
    assert(block_path(chosen[m - 1]) && chosen[m - 1][BLOCK_CELLS - 1] % 2 == 1);
    lemma_route_entry(n, br0, dir_lr, chosen, 0);
    lemma_route_entry(n, br0, dir_lr, chosen, route.len() - 1);
    assert((route.len() - 1) / 10 == m - 1 && (route.len() - 1) % 10 == 9);
}

/// Largest absolute score of a block path (`45` steps of weight at most
/// `MAX_WEIGHT`, rounded up).
pub open spec fn block_score_bound() -> int {
    100 * MAX_WEIGHT
}

/// A block path can enter at row `s` and leave at row `e`: all pairs but a
/// middle row with itself.
pub open spec fn pair_possible(s: int, e: int) -> bool {
    !(s == e && 1 <= s <= 3)
}

/// Every pair that can have a path has at least one.
pub open spec fn pairs_available(paths: Seq<Vec<[u8; 10]>>) -> bool {
    forall|s: int, e: int| 0 <= s < BAND_H && 0 <= e < BAND_H && pair_possible(s, e)
        ==> #[trigger] paths[s * (BAND_H as int) + e]@.len() > 0
}

/// Each evaluation scores a pair without paths `NEG_INF`, and names for
/// every other pair one of its paths, with a score within the bound.
pub open spec fn evals_ok(evals: Seq<BlockEval>, paths: Seq<Vec<[u8; 10]>>) -> bool {
    forall|s: int, q: int| 0 <= s < evals.len() && 0 <= q < BAND_H * BAND_H ==> {
        &&& paths[q]@.len() == 0 ==> #[trigger] evals[s].scores@[q] == NEG_INF
        &&& paths[q]@.len() > 0 ==> 0 <= evals[s].choices@[q] < paths[q]@.len()
            && -block_score_bound() <= evals[s].scores@[q] <= block_score_bound()
    }
}

/// Scores that are `NEG_INF` or within the bound.
pub open spec fn scores_ok(scores: Seq<i64>) -> bool {
    forall|q: int| 0 <= q < BAND_H * BAND_H ==> #[trigger] scores[q] == NEG_INF
        || -block_score_bound() <= scores[q] <= block_score_bound()
}

/// The weights of the block crossed at `step` of the band at rows
/// `br0..br0 + 5`, in block-cell order (`oriented_block_weights`).
pub open spec fn block_weights(n: int, w: Seq<i64>, br0: int, dir_lr: bool, step: int) -> Seq<i64> {
    Seq::new(BLOCK_CELLS as nat, |v: int| w[band_cell(n, br0, block_col0(n, step, dir_lr), dir_lr, v)])
}

/// Each evaluation gives every pair that has paths the score of its chosen
/// path against its block's weights, which no path of the pair beats.
pub open spec fn evals_best(evals: Seq<BlockEval>, lists: Seq<Vec<[u8; 10]>>, n: int, w: Seq<i64>, br0: int, dir_lr: bool) -> bool {
    forall|s: int, q: int| 0 <= s < evals.len() && 0 <= q < BAND_H * BAND_H && lists[q]@.len() > 0 ==> {
        &&& #[trigger] evals[s].scores@[q] == local_score(lists[q]@[evals[s].choices@[q] as int]@, block_weights(n, w, br0, dir_lr, s))
        &&& forall|i: int| 0 <= i < lists[q]@.len()
            ==> local_score(#[trigger] lists[q]@[i]@, block_weights(n, w, br0, dir_lr, s)) <= evals[s].scores@[q]
    }
}

/// The evaluations of the blocks of a band, in crossing order.
fn evaluate_band_blocks(n: usize, weights: &[i64], band_row0: usize, dir_lr: bool, paths_by_pair: &Vec<Vec<[u8; 10]>>)
    -> (evals: Vec<BlockEval>)
    requires
        2 <= n,
        n % 2 == 0,
        n * n <= MAX_CELLS,
        band_row0 + BAND_H <= n,
        weights@.len() == n * n,
        crate::grid::weights_bounded(weights@),
        paths_ok(paths_by_pair@),
    ensures
        evals@.len() == n / 2,
        evals_ok(evals@, paths_by_pair@),
        evals_best(evals@, paths_by_pair@, n as int, weights@, band_row0 as int, dir_lr),
{
    let blocks = n / BLOCK_W;
    let mut evals: Vec<BlockEval> = Vec::new();
    let mut step: usize = 0;
    while step < blocks
        invariant
            2 <= n,
            n % 2 == 0,
            n * n <= MAX_CELLS,
            band_row0 + BAND_H <= n,
            weights@.len() == n * n,
            crate::grid::weights_bounded(weights@),
            paths_ok(paths_by_pair@),
            blocks == n / 2,
            step <= blocks,
            evals@.len() == step,
            evals_ok(evals@, paths_by_pair@),
            evals_best(evals@, paths_by_pair@, n as int, weights@, band_row0 as int, dir_lr),
        decreases blocks - step,
    {
        let col0 = if dir_lr { step * BLOCK_W } else { n - (step + 1) * BLOCK_W };
        let oriented = oriented_block_weights(n, weights, band_row0, col0, dir_lr);
        proof {
            assert forall|v: int| 0 <= v < BLOCK_CELLS implies -MAX_WEIGHT <= #[trigger] oriented@[v] <= MAX_WEIGHT by {
                lemma_band_cell(n as int, band_row0 as int, step as int, dir_lr, v);
            }
        }
        proof {
            assert(oriented@ =~= block_weights(n as int, weights@, band_row0 as int, dir_lr, step as int));
        }
        let eval = evaluate_block(&oriented, paths_by_pair);
        proof {
            assert forall|q: int| 0 <= q < BAND_H * BAND_H implies {
                &&& paths_by_pair@[q]@.len() == 0 ==> #[trigger] eval.scores@[q] == NEG_INF
                &&& paths_by_pair@[q]@.len() > 0 ==> 0 <= eval.choices@[q] < paths_by_pair@[q]@.len()
                    && -block_score_bound() <= eval.scores@[q] <= block_score_bound()
            } by {
                let list = paths_by_pair@[q]@;
                if list.len() > 0 {
                    let c = eval.choices@[q] as int;
                    assert(path_for_pair(list[c]@, q));
                    lemma_local_prefix_bound(list[c]@, oriented@, BLOCK_CELLS as int);
                }
            }
        }
        let ghost before = evals@;
        evals.push(eval);
        proof {
            assert forall|s: int, q: int| 0 <= s < evals@.len() && 0 <= q < BAND_H * BAND_H implies {
                &&& paths_by_pair@[q]@.len() == 0 ==> #[trigger] evals@[s].scores@[q] == NEG_INF
                &&& paths_by_pair@[q]@.len() > 0 ==> 0 <= evals@[s].choices@[q] < paths_by_pair@[q]@.len()
                    && -block_score_bound() <= evals@[s].scores@[q] <= block_score_bound()
            } by {
                if s < before.len() {
                    assert(evals@[s] == before[s]);
                } else {
                    assert(evals@[s] == eval);
                }
            }
            assert forall|s: int, q: int| 0 <= s < evals@.len() && 0 <= q < BAND_H * BAND_H && paths_by_pair@[q]@.len() > 0 implies {
                &&& #[trigger] evals@[s].scores@[q] == local_score(paths_by_pair@[q]@[evals@[s].choices@[q] as int]@,
                    block_weights(n as int, weights@, band_row0 as int, dir_lr, s))
                &&& forall|i: int| 0 <= i < paths_by_pair@[q]@.len()
                    ==> local_score(#[trigger] paths_by_pair@[q]@[i]@, block_weights(n as int, weights@, band_row0 as int, dir_lr, s))
                        <= evals@[s].scores@[q]
            } by {
                if s < before.len() {
                    assert(evals@[s] == before[s]);
                } else {
                    assert(evals@[s] == eval);
                    let list = paths_by_pair@[q]@;
                    assert(list.len() > 0);
                }
            }
        }
        step += 1;
    }
    evals
}

/// A row of the crossing table: each exit row is unreached (`NEG_INF`) or
/// reached with a value in `lo..=hi` through a pair that has a path
/// (`scores` is not `NEG_INF` there), from a start row that fits: the fixed
/// one in the first block, one within a row of a reached exit row of
/// `prev_row` after it.
pub open spec fn row_ok(row: Seq<i64>, pe: Seq<usize>, ps: Seq<usize>, lo: int, hi: int, first: bool,
    start_fixed: Option<usize>, scores: Seq<i64>, prev_row: Seq<i64>) -> bool {
    forall|e: int| 0 <= e < BAND_H ==> (#[trigger] row[e] == NEG_INF || {
        &&& lo <= row[e] <= hi
        &&& ps[e] < BAND_H
        &&& pe[e] < BAND_H
        &&& scores[ps[e] * (BAND_H as int) + e] != NEG_INF
        &&& first ==> (start_fixed matches Some(f) ==> ps[e] == f)
        &&& !first ==> -1 <= ps[e] - pe[e] <= 1 && prev_row[pe[e] as int] != NEG_INF
    })
}

/// Every exit row of `row` is reached.
pub open spec fn row_full(row: Seq<i64>) -> bool {
    forall|e: int| 0 <= e < BAND_H ==> #[trigger] row[e] != NEG_INF
}

/// Every reached exit row of `row` holds the value it was reached with:
/// that of its recorded previous exit row (nothing in the first block)
/// plus the score of its recorded pair.
pub open spec fn row_exact(row: Seq<i64>, pe: Seq<usize>, ps: Seq<usize>, first: bool, scores: Seq<i64>, prev_row: Seq<i64>) -> bool {
    forall|e: int| 0 <= e < BAND_H && #[trigger] row[e] != NEG_INF
        ==> row[e] == (if first { 0 } else { prev_row[pe[e] as int] as int }) + scores[ps[e] * (BAND_H as int) + e]
}

/// The score of the pair (`start`, `end`) in a block's scores.
pub open spec fn pair_score(scores: Seq<i64>, start: int, end: int) -> int {
    scores[start * (BAND_H as int) + end] as int
}

/// No exit row of `row` is worth less than any reached exit row `e2` of
/// `prev_row` followed by a pair that has a path and starts within a row
/// of `e2`.
pub open spec fn row_upper(row: Seq<i64>, scores: Seq<i64>, prev_row: Seq<i64>) -> bool {
    forall|e2: int, st: int, e: int| #![trigger prev_row[e2], pair_score(scores, st, e)]
        0 <= e2 < BAND_H && 0 <= st < BAND_H && 0 <= e < BAND_H && -1 <= st - e2 <= 1
        && prev_row[e2] != NEG_INF && pair_score(scores, st, e) != NEG_INF
        ==> prev_row[e2] + pair_score(scores, st, e) <= row[e]
}

/// Offers, for every exit row, the value `base` plus the score of the pair
/// (`start`, exit row) of `eval`, keeping the larger.
fn relax_row(
    row: &mut [i64; 5],
    pe: &mut [usize; 5],
    ps: &mut [usize; 5],
    base: i64,
    eval: &BlockEval,
    prev: usize,
    start: usize,
    Ghost(lo): Ghost<int>,
    Ghost(hi): Ghost<int>,
    Ghost(first): Ghost<bool>,
    Ghost(start_fixed): Ghost<Option<usize>>,
    Ghost(prev_row): Ghost<Seq<i64>>,
)
    requires
        row_ok(old(row)@, old(pe)@, old(ps)@, lo, hi, first, start_fixed, eval.scores@, prev_row),
        prev < BAND_H,
        start < BAND_H,
        first ==> (start_fixed matches Some(f) ==> start == f),
        !first ==> -1 <= start - prev <= 1 && prev_row[prev as int] != NEG_INF,
        scores_ok(eval.scores@),
        lo <= base - block_score_bound(),
        base + block_score_bound() <= hi,
        NEG_INF < lo,
        hi <= 0x1000_0000_0000_0000,
        row_exact(old(row)@, old(pe)@, old(ps)@, first, eval.scores@, prev_row),
        base == (if first { 0 } else { prev_row[prev as int] as int }),
    ensures
        row_ok(final(row)@, final(pe)@, final(ps)@, lo, hi, first, start_fixed, eval.scores@, prev_row),
        row_exact(final(row)@, final(pe)@, final(ps)@, first, eval.scores@, prev_row),
        forall|e: int| 0 <= e < BAND_H && eval.scores@[start * (BAND_H as int) + e] != NEG_INF
            ==> base + eval.scores@[start * (BAND_H as int) + e] <= #[trigger] final(row)@[e],
        forall|e: int| 0 <= e < BAND_H ==> old(row)@[e] <= #[trigger] final(row)@[e],
        forall|e: int| 0 <= e < BAND_H && eval.scores@[start * (BAND_H as int) + e] != NEG_INF
            ==> #[trigger] final(row)@[e] != NEG_INF,
        forall|e: int| 0 <= e < BAND_H && old(row)@[e] != NEG_INF ==> #[trigger] final(row)@[e] != NEG_INF,
{
    let mut e: usize = 0;
    while e < BAND_H
        invariant
            row_ok(row@, pe@, ps@, lo, hi, first, start_fixed, eval.scores@, prev_row),
            prev < BAND_H,
            start < BAND_H,
            first ==> (start_fixed matches Some(f) ==> start == f),
            !first ==> -1 <= start - prev <= 1 && prev_row[prev as int] != NEG_INF,
            scores_ok(eval.scores@),
            lo <= base - block_score_bound(),
            base + block_score_bound() <= hi,
            NEG_INF < lo,
            hi <= 0x1000_0000_0000_0000,
            e <= BAND_H,
            forall|x: int| 0 <= x < e && eval.scores@[start * (BAND_H as int) + x] != NEG_INF ==> #[trigger] row@[x] != NEG_INF,
            forall|x: int| 0 <= x < BAND_H && old(row)@[x] != NEG_INF ==> #[trigger] row@[x] != NEG_INF,
            row_exact(row@, pe@, ps@, first, eval.scores@, prev_row),
            base == (if first { 0 } else { prev_row[prev as int] as int }),
            forall|x: int| 0 <= x < e && eval.scores@[start * (BAND_H as int) + x] != NEG_INF
                ==> base + eval.scores@[start * (BAND_H as int) + x] <= #[trigger] row@[x],
            forall|x: int| 0 <= x < BAND_H ==> old(row)@[x] <= #[trigger] row@[x],
        decreases BAND_H - e,
    {
        let local = eval.scores[start * BAND_H + e];
        if local != NEG_INF {
            let cand = base + local;
            if cand > row[e] {
                row[e] = cand;
                pe[e] = prev;
                ps[e] = start;
            }
        }
        e += 1;
    }
}

/// The crossing table: `dp[s][e]` is the best value of crossing blocks
/// `0..=s` leaving block `s` at row `e` (`NEG_INF` when no crossing does),
/// with the rows it came from. After the first block every exit row is
/// reached; in the first, every row that the fixed start row (if any) can
/// pair with.
pub open spec fn dp_ok(dp: Seq<[i64; 5]>, pe: Seq<[usize; 5]>, ps: Seq<[usize; 5]>, start_fixed: Option<usize>,
    evals: Seq<BlockEval>, k: int) -> bool {
    &&& dp.len() == k
    &&& pe.len() == k
    &&& ps.len() == k
    &&& forall|s: int| #![trigger dp[s]] 0 <= s < k ==> dp_row_ok(dp, pe, ps, start_fixed, evals, s)
    &&& forall|s: int| #![trigger dp[s]] 1 <= s < k ==> row_full(dp[s]@)
    &&& k >= 1 ==> forall|e: int| 0 <= e < BAND_H && (start_fixed matches Some(f) ==> pair_possible(f as int, e))
        ==> #[trigger] dp[0]@[e] != NEG_INF
}

/// The crossing table keeps values: each reached entry is its recorded
/// predecessor's value plus its pair's score, no pair a fixed start allows
/// scores more in the first block than its exit row holds, and no later
/// entry is worth less than any reached entry before it followed by a pair
/// that fits.
pub open spec fn dp_best(dp: Seq<[i64; 5]>, pe: Seq<[usize; 5]>, ps: Seq<[usize; 5]>, start_fixed: Option<usize>,
    evals: Seq<BlockEval>, k: int) -> bool {
    &&& forall|s: int| #![trigger dp[s]] 0 <= s < k ==> row_exact(dp[s]@, pe[s]@, ps[s]@, s == 0, evals[s].scores@,
        if s == 0 { dp[0]@ } else { dp[s - 1]@ })
    &&& k >= 1 ==> forall|st: int, e: int| #![trigger pair_score(evals[0].scores@, st, e)]
        0 <= st < BAND_H && 0 <= e < BAND_H && (start_fixed matches Some(f) ==> st == f)
        && pair_score(evals[0].scores@, st, e) != NEG_INF ==> pair_score(evals[0].scores@, st, e) <= dp[0]@[e]
    &&& forall|s: int| #![trigger dp[s]] 1 <= s < k ==> row_upper(dp[s]@, evals[s].scores@, dp[s - 1]@)
}

/// Row `s` of the crossing table is as `row_ok` says.
pub open spec fn dp_row_ok(dp: Seq<[i64; 5]>, pe: Seq<[usize; 5]>, ps: Seq<[usize; 5]>, start_fixed: Option<usize>,
    evals: Seq<BlockEval>, s: int) -> bool {
    row_ok(dp[s]@, pe[s]@, ps[s]@, -(s + 1) * block_score_bound(), (s + 1) * block_score_bound(), s == 0, start_fixed,
        evals[s].scores@, if s == 0 { dp[0]@ } else { dp[s - 1]@ })
}

/// The next row of the crossing table from the previous one: every exit
/// row, from every reached previous exit row and every start row within one
/// row of it.
fn dp_next_row(prev_row: &[i64; 5], eval: &BlockEval, Ghost(step): Ghost<int>, Ghost(start_fixed): Ghost<Option<usize>>)
    -> (res: ([i64; 5], [usize; 5], [usize; 5]))
    requires
        1 <= step < 500,
        prev_row@[0] != NEG_INF,
        forall|e: int| 0 <= e < BAND_H ==> #[trigger] prev_row@[e] == NEG_INF
            || -step * block_score_bound() <= prev_row@[e] <= step * block_score_bound(),
        scores_ok(eval.scores@),
        forall|e: int| 0 <= e < BAND_H && pair_possible(0, e) ==> #[trigger] eval.scores@[e] != NEG_INF,
    ensures
        row_ok(res.0@, res.1@, res.2@, -(step + 1) * block_score_bound(), (step + 1) * block_score_bound(), false,
            start_fixed, eval.scores@, prev_row@),
        row_full(res.0@),
        row_exact(res.0@, res.1@, res.2@, false, eval.scores@, prev_row@),
        row_upper(res.0@, eval.scores@, prev_row@),
{
    let ghost b = block_score_bound();
    let ghost lo = -(step + 1) * b;
    let ghost hi = (step + 1) * b;
    proof {
        assert(hi <= 0x1000_0000_0000_0000) by (nonlinear_arith)
            requires hi == (step + 1) * b, step < 500, b == 100 * 1_000_000;
        assert(lo == -step * b - b && hi == step * b + b) by (nonlinear_arith)
            requires lo == -(step + 1) * b, hi == (step + 1) * b;
        assert(NEG_INF < lo);
    }
    let mut row: [i64; 5] = [NEG_INF; 5];
    let mut pe: [usize; 5] = [0usize; 5];
    let mut ps: [usize; 5] = [0usize; 5];
    let mut prev: usize = 0;
    while prev < BAND_H
        invariant
            1 <= step < 500,
            b == block_score_bound(),
            lo == -step * b - b,
            hi == step * b + b,
            NEG_INF < lo,
            hi <= 0x1000_0000_0000_0000,
            scores_ok(eval.scores@),
            forall|e: int| 0 <= e < BAND_H && pair_possible(0, e) ==> #[trigger] eval.scores@[e] != NEG_INF,
            prev_row@[0] != NEG_INF,
            forall|e: int| 0 <= e < BAND_H ==> #[trigger] prev_row@[e] == NEG_INF
                || -step * b <= prev_row@[e] <= step * b,
            row_ok(row@, pe@, ps@, lo, hi, false, start_fixed, eval.scores@, prev_row@),
            prev > 0 ==> row_full(row@),
            prev <= BAND_H,
            row_exact(row@, pe@, ps@, false, eval.scores@, prev_row@),
            forall|e2: int, st: int, e: int| #![trigger prev_row@[e2], pair_score(eval.scores@, st, e)]
                0 <= e2 < prev && 0 <= st < BAND_H && 0 <= e < BAND_H && -1 <= st - e2 <= 1
                && prev_row@[e2] != NEG_INF && pair_score(eval.scores@, st, e) != NEG_INF
                ==> prev_row@[e2] + pair_score(eval.scores@, st, e) <= row@[e],
        decreases BAND_H - prev,
    {
        let cur = prev_row[prev];
        if cur != NEG_INF {
            let min_start = if prev > 0 { prev - 1 } else { 0 };
            let max_start = if prev + 1 < BAND_H - 1 { prev + 1 } else { BAND_H - 1 };
            let mut start = min_start;
            while start <= max_start
                invariant
                    1 <= step < 500,
                    b == block_score_bound(),
                    lo == -step * b - b,
                    hi == step * b + b,
                    NEG_INF < lo,
                    hi <= 0x1000_0000_0000_0000,
                    scores_ok(eval.scores@),
                    forall|e: int| 0 <= e < BAND_H && pair_possible(0, e) ==> #[trigger] eval.scores@[e] != NEG_INF,
                    -step * b <= cur <= step * b,
                    prev < BAND_H,
                    prev_row@[prev as int] == cur,
                    cur != NEG_INF,
                    min_start == (if prev > 0 { prev - 1 } else { 0 }),
                    max_start == (if prev + 1 < BAND_H - 1 { prev + 1 } else { BAND_H - 1 }),
                    min_start <= start <= max_start + 1,
                    row_ok(row@, pe@, ps@, lo, hi, false, start_fixed, eval.scores@, prev_row@),
                    (prev > 0 || start > min_start) ==> row_full(row@),
                    row_exact(row@, pe@, ps@, false, eval.scores@, prev_row@),
                    forall|e2: int, st: int, e: int| #![trigger prev_row@[e2], pair_score(eval.scores@, st, e)]
                        0 <= e2 < BAND_H && 0 <= st < BAND_H && 0 <= e < BAND_H && -1 <= st - e2 <= 1
                        && (e2 < prev || (e2 == prev && st < start))
                        && prev_row@[e2] != NEG_INF && pair_score(eval.scores@, st, e) != NEG_INF
                        ==> prev_row@[e2] + pair_score(eval.scores@, st, e) <= row@[e],
                decreases max_start + 1 - start,
            {
                let ghost row_before = row@;
                relax_row(&mut row, &mut pe, &mut ps, cur, eval, prev, start,
                    Ghost(lo), Ghost(hi), Ghost(false), Ghost(start_fixed), Ghost(prev_row@));
                proof {
                    assert forall|e2: int, st: int, e: int| #![trigger prev_row@[e2], pair_score(eval.scores@, st, e)]
                        0 <= e2 < BAND_H && 0 <= st < BAND_H && 0 <= e < BAND_H && -1 <= st - e2 <= 1
                        && (e2 < prev || (e2 == prev && st < start + 1))
                        && prev_row@[e2] != NEG_INF && pair_score(eval.scores@, st, e) != NEG_INF
                        implies prev_row@[e2] + pair_score(eval.scores@, st, e) <= row@[e] by {
                        assert(row_before[e] <= row@[e]);
                        if e2 == prev && st == start {
                            assert(eval.scores@[start * (BAND_H as int) + e] != NEG_INF);
                        }
                    }
                    if prev == 0 && start == 0 {
                        assert forall|e: int| 0 <= e < BAND_H implies #[trigger] row@[e] != NEG_INF by {
                            assert(pair_possible(0, e));
                            assert(eval.scores@[e] != NEG_INF);
                            assert(eval.scores@[0 * (BAND_H as int) + e] != NEG_INF);
                        }
                    }
                }
                start += 1;
            }
        }
        prev += 1;
    }
    proof {
        assert(lo == -(step + 1) * b && hi == (step + 1) * b);
    }
    (row, pe, ps)
}

/// Fills the crossing table, block by block.
fn band_dp(evals: &Vec<BlockEval>, paths_by_pair: &Vec<Vec<[u8; 10]>>, start_fixed: Option<usize>)
    -> (tables: (Vec<[i64; 5]>, Vec<[usize; 5]>, Vec<[usize; 5]>))
    requires
        1 <= evals@.len() <= 500,
        evals_ok(evals@, paths_by_pair@),
        pairs_available(paths_by_pair@),
        start_fixed matches Some(f) ==> f < BAND_H,
    ensures
        dp_ok(tables.0@, tables.1@, tables.2@, start_fixed, evals@, evals@.len() as int),
        dp_best(tables.0@, tables.1@, tables.2@, start_fixed, evals@, evals@.len() as int),
{
    let blocks = evals.len();
    let mut dp: Vec<[i64; 5]> = Vec::new();
    let mut parent_exit: Vec<[usize; 5]> = Vec::new();
    let mut parent_start: Vec<[usize; 5]> = Vec::new();
    let mut row: [i64; 5] = [NEG_INF; 5];
    let mut pe: [usize; 5] = [0usize; 5];
    let mut ps: [usize; 5] = [0usize; 5];
    let ghost b = block_score_bound();
    let ghost dummy: Seq<i64> = seq![0, 0, 0, 0, 0];
    proof {
        assert forall|q: int| 0 <= q < BAND_H * BAND_H implies #[trigger] evals@[0].scores@[q] == NEG_INF
            || -b <= evals@[0].scores@[q] <= b by {
            assert(paths_by_pair@[q]@.len() == 0 ==> evals@[0].scores@[q] == NEG_INF);
        }
    }
    let mut start_row: usize = 0;
    while start_row < BAND_H
        invariant
            1 <= evals@.len() <= 500,
            evals_ok(evals@, paths_by_pair@),
            pairs_available(paths_by_pair@),
            start_fixed matches Some(f) ==> f < BAND_H,
            b == block_score_bound(),
            scores_ok(evals@[0].scores@),
            start_row <= BAND_H,
            row_ok(row@, pe@, ps@, -b, b, true, start_fixed, evals@[0].scores@, dummy),
            (match start_fixed { Some(f) => f < start_row, None => 0 < start_row }) ==>
                forall|e: int| 0 <= e < BAND_H && (start_fixed matches Some(f) ==> pair_possible(f as int, e))
                    ==> #[trigger] row@[e] != NEG_INF,
            row_exact(row@, pe@, ps@, true, evals@[0].scores@, dummy),
            forall|st: int, e: int| #![trigger pair_score(evals@[0].scores@, st, e)]
                0 <= st < start_row && 0 <= e < BAND_H && (start_fixed matches Some(f) ==> st == f)
                && pair_score(evals@[0].scores@, st, e) != NEG_INF ==> pair_score(evals@[0].scores@, st, e) <= row@[e],
        decreases BAND_H - start_row,
    {
        let allowed = match start_fixed {
            Some(f) => f == start_row,
            None => true,
        };
        if allowed {
            proof {
                assert forall|e: int| 0 <= e < BAND_H && pair_possible(start_row as int, e)
                    implies evals@[0].scores@[start_row * (BAND_H as int) + e] != NEG_INF by {
                    assert(paths_by_pair@[start_row * (BAND_H as int) + e]@.len() > 0);
                    assert(0 <= evals@[0].choices@[start_row * (BAND_H as int) + e]);
                }
            }
            let ghost row_before = row@;
            relax_row(&mut row, &mut pe, &mut ps, 0, &evals[0], 0, start_row, Ghost(-b), Ghost(b), Ghost(true),
                Ghost(start_fixed), Ghost(dummy));
            proof {
                assert forall|st: int, e: int| #![trigger pair_score(evals@[0].scores@, st, e)]
                    0 <= st < start_row + 1 && 0 <= e < BAND_H && (start_fixed matches Some(f) ==> st == f)
                    && pair_score(evals@[0].scores@, st, e) != NEG_INF implies pair_score(evals@[0].scores@, st, e) <= row@[e] by {
                    assert(row_before[e] <= row@[e]);
                }
            }
        }
        start_row += 1;
    }
    dp.push(row);
    parent_exit.push(pe);
    parent_start.push(ps);
    proof {
        assert(dp@[0]@ == row@);
        assert(dp_best(dp@, parent_exit@, parent_start@, start_fixed, evals@, 1));
    }
    let mut step: usize = 1;
    while step < blocks
        invariant
            blocks == evals@.len(),
            1 <= blocks <= 500,
            evals_ok(evals@, paths_by_pair@),
            pairs_available(paths_by_pair@),
            start_fixed matches Some(f) ==> f < BAND_H,
            b == block_score_bound(),
            1 <= step <= blocks,
            dp_ok(dp@, parent_exit@, parent_start@, start_fixed, evals@, step as int),
            dp_best(dp@, parent_exit@, parent_start@, start_fixed, evals@, step as int),
        decreases blocks - step,
    {
        proof {
            assert forall|q: int| 0 <= q < BAND_H * BAND_H implies #[trigger] evals@[step as int].scores@[q] == NEG_INF
                || -b <= evals@[step as int].scores@[q] <= b by {
                assert(paths_by_pair@[q]@.len() == 0 ==> evals@[step as int].scores@[q] == NEG_INF);
            }
            assert forall|e: int| 0 <= e < BAND_H && pair_possible(0, e)
                implies #[trigger] evals@[step as int].scores@[e] != NEG_INF by {
                assert(paths_by_pair@[0 * (BAND_H as int) + e]@.len() > 0);
                assert(0 <= evals@[step as int].choices@[0 * (BAND_H as int) + e]);
            }
            assert(dp_row_ok(dp@, parent_exit@, parent_start@, start_fixed, evals@, step - 1));
            if step - 1 == 0 {
                assert(start_fixed matches Some(f) ==> pair_possible(f as int, 0));
                assert(dp@[0]@[0] != NEG_INF);
            } else {
                assert(row_full(dp@[step - 1]@));
            }
        }
        let (row, pe, ps) = dp_next_row(&dp[step - 1], &evals[step], Ghost(step as int), Ghost(start_fixed));
        let ghost before = (dp@, parent_exit@, parent_start@);
        dp.push(row);
        parent_exit.push(pe);
        parent_start.push(ps);
        proof {
            assert forall|s: int| #![trigger dp@[s]] 0 <= s < step + 1 implies
                dp_row_ok(dp@, parent_exit@, parent_start@, start_fixed, evals@, s) by {
                if s < step {
                    assert(dp_row_ok(before.0, before.1, before.2, start_fixed, evals@, s));
                    assert(dp@[s] == before.0[s] && parent_exit@[s] == before.1[s] && parent_start@[s] == before.2[s]);
                    if s > 0 {
                        assert(dp@[s - 1] == before.0[s - 1]);
                    }
                } else {
                    assert(dp@[s - 1] == before.0[s - 1]);
                }
            }
            assert forall|s: int| #![trigger dp@[s]] 1 <= s < step + 1 implies row_full(dp@[s]@) by {
                if s < step {
                    assert(dp@[s] == before.0[s]);
                }
            }
            assert(dp@[0] == before.0[0]);
            assert forall|s: int| #![trigger dp@[s]] 0 <= s < step + 1 implies row_exact(dp@[s]@, parent_exit@[s]@, parent_start@[s]@,
                s == 0, evals@[s].scores@, if s == 0 { dp@[0]@ } else { dp@[s - 1]@ }) by {
                if s < step {
                    assert(dp@[s] == before.0[s] && parent_exit@[s] == before.1[s] && parent_start@[s] == before.2[s]);
                    if s > 0 {
                        assert(dp@[s - 1] == before.0[s - 1]);
                    }
                } else {
                    assert(dp@[s - 1] == before.0[s - 1]);
                }
            }
            assert forall|s: int| #![trigger dp@[s]] 1 <= s < step + 1 implies row_upper(dp@[s]@, evals@[s].scores@, dp@[s - 1]@) by {
                if s < step {
                    assert(dp@[s] == before.0[s] && dp@[s - 1] == before.0[s - 1]);
                } else {
                    assert(dp@[s - 1] == before.0[s - 1]);
                }
            }
            assert(dp_best(dp@, parent_exit@, parent_start@, start_fixed, evals@, step + 1));
        }
        step += 1;
    }
    (dp, parent_exit, parent_start)
}

proof fn lemma_pair_rows(p: Seq<u8>, s: int, e: int)
    requires
        path_for_pair(p, s * (BAND_H as int) + e),
        0 <= s < BAND_H,
        0 <= e < BAND_H,
    ensures
        p[0] / 2 == s,
        p[BLOCK_CELLS - 1] / 2 == e,
{
    assert(p[0] < BLOCK_CELLS && p[BLOCK_CELLS - 1] < BLOCK_CELLS);
}

/// The paths named by the rows that the backtrack chose form a chain of
/// block paths, each of the pair of its rows, the first starting at the
/// fixed start row when there is one.
proof fn lemma_chosen_blocks(
    dp: Seq<[i64; 5]>,
    pe: Seq<[usize; 5]>,
    ps: Seq<[usize; 5]>,
    start_fixed: Option<usize>,
    evals: Seq<BlockEval>,
    paths: Seq<Vec<[u8; 10]>>,
    starts: Seq<usize>,
    ends: Seq<usize>,
) -> (full: Seq<Seq<u8>>)
    requires
        1 <= dp.len(),
        evals.len() == dp.len(),
        dp_ok(dp, pe, ps, start_fixed, evals, dp.len() as int),
        evals_ok(evals, paths),
        paths_ok(paths),
        starts.len() == dp.len(),
        ends.len() == dp.len(),
        forall|s: int| 0 <= s < dp.len() ==> #[trigger] ends[s] < BAND_H
            && starts[s] == ps[s]@[ends[s] as int]
            && dp[s]@[ends[s] as int] != NEG_INF,
        forall|s: int| 0 < s < dp.len() ==> #[trigger] ends[s - 1] == pe[s]@[ends[s] as int],
    ensures
        full.len() == dp.len(),
        chain_ok(full),
        forall|s: int| 0 <= s < dp.len() ==> #[trigger] starts[s] < BAND_H && ends[s] < BAND_H
            && 0 <= evals[s].choices@[starts[s] * BAND_H + ends[s]] < paths[starts[s] * BAND_H + ends[s]]@.len(),
        forall|s: int| 0 <= s < dp.len() ==> #[trigger] full[s] == ({
            let pair = starts[s] * BAND_H + ends[s];
            paths[pair]@[evals[s].choices@[pair] as int]@
        }),
        full[0][0] / 2 == starts[0],
        full[dp.len() - 1][BLOCK_CELLS - 1] / 2 == ends[dp.len() - 1],
        start_fixed matches Some(f) ==> starts[0] == f,
{
    let blocks = dp.len();
    let full = Seq::new(blocks as nat, |s: int| {
        let pair = starts[s] * BAND_H + ends[s];
        paths[pair]@[evals[s].choices@[pair] as int]@
    });
    assert forall|s: int| 0 <= s < blocks implies #[trigger] starts[s] < BAND_H && ends[s] < BAND_H
        && 0 <= evals[s].choices@[starts[s] * BAND_H + ends[s]] < paths[starts[s] * BAND_H + ends[s]]@.len()
        && path_for_pair(full[s], starts[s] * BAND_H + ends[s]) by {
        assert(dp_row_ok(dp, pe, ps, start_fixed, evals, s));
        assert(dp[s]@[ends[s] as int] != NEG_INF);
        let pair = starts[s] * BAND_H + ends[s];
        assert(evals[s].scores@[pair] != NEG_INF);
        assert(paths[pair]@.len() > 0);
        assert(0 <= evals[s].choices@[pair] < paths[pair]@.len());
    }
    assert forall|s: int| 0 <= s < blocks implies #[trigger] full[s][0] / 2 == starts[s]
        && full[s][BLOCK_CELLS - 1] / 2 == ends[s] by {
        assert(starts[s] < BAND_H && ends[s] < BAND_H && path_for_pair(full[s], starts[s] * BAND_H + ends[s]));
        lemma_pair_rows(full[s], starts[s] as int, ends[s] as int);
    }
    assert forall|s: int| 0 <= s < full.len() implies #[trigger] block_path(full[s])
        && full[s][0] % 2 == 0 && full[s][BLOCK_CELLS - 1] % 2 == 1 by {
        assert(starts[s] < BAND_H && ends[s] < BAND_H && path_for_pair(full[s], starts[s] * BAND_H + ends[s]));
    }
    assert forall|s: int| #![trigger full[s]] 1 <= s < full.len() implies
        -1 <= (full[s][0] / 2) - full[s - 1][BLOCK_CELLS - 1] / 2 <= 1 by {
        assert(full[s][0] / 2 == starts[s] && full[s][BLOCK_CELLS - 1] / 2 == ends[s]);
        assert(full[s - 1][0] / 2 == starts[s - 1] && full[s - 1][BLOCK_CELLS - 1] / 2 == ends[s - 1]);
        assert(ends[s - 1] == pe[s]@[ends[s] as int]);
        assert(dp_row_ok(dp, pe, ps, start_fixed, evals, s));
        assert(dp[s]@[ends[s] as int] != NEG_INF);
    }
    assert(dp_row_ok(dp, pe, ps, start_fixed, evals, 0));
    assert(dp[0]@[ends[0] as int] != NEG_INF);
    assert(full[0][0] / 2 == starts[0]);
    assert(full[blocks - 1][BLOCK_CELLS - 1] / 2 == ends[blocks - 1]);
    full
}

/// The total score of the first `k` chosen block paths, each against its
/// block's weights.
pub open spec fn chain_value(n: int, w: Seq<i64>, br0: int, dir_lr: bool, chosen: Seq<Seq<u8>>, k: int) -> int
    decreases k,
{
    if k <= 0 { 0 } else { chain_value(n, w, br0, dir_lr, chosen, k - 1) + local_score(chosen[k - 1], block_weights(n, w, br0, dir_lr, k - 1)) }
}

/// `chosen` crosses a band of side `n`: one listed path per block, fitting
/// together, entering at row `start_fixed` and leaving at row `end_fixed`
/// where those are given.
pub open spec fn band_chain(n: int, lists: Seq<Vec<[u8; 10]>>, start_fixed: Option<usize>, end_fixed: Option<usize>,
    chosen: Seq<Seq<u8>>) -> bool {
    &&& chosen.len() == n / 2
    &&& chain_ok(chosen)
    &&& forall|s: int| 0 <= s < chosen.len() ==> found_in(lists, #[trigger] chosen[s])
    &&& start_fixed matches Some(f) ==> chosen[0][0] / 2 == f
    &&& end_fixed matches Some(g) ==> chosen[chosen.len() - 1][BLOCK_CELLS - 1] / 2 == g
}

/// Along any crossing, no block's running total exceeds the table's value
/// at the row it leaves by.
proof fn lemma_band_upper(dp: Seq<[i64; 5]>, pe: Seq<[usize; 5]>, ps: Seq<[usize; 5]>, start_fixed: Option<usize>,
    end_fixed: Option<usize>, evals: Seq<BlockEval>, lists: Seq<Vec<[u8; 10]>>, n: int, w: Seq<i64>, br0: int, dir_lr: bool,
    other: Seq<Seq<u8>>, x: int)
    requires
        band_chain(n, lists, start_fixed, end_fixed, other),
        0 <= x < other.len(),
        dp.len() == other.len(),
        evals.len() == other.len(),
        dp_ok(dp, pe, ps, start_fixed, evals, dp.len() as int),
        dp_best(dp, pe, ps, start_fixed, evals, dp.len() as int),
        evals_ok(evals, lists),
        evals_best(evals, lists, n, w, br0, dir_lr),
        paths_ok(lists),
    ensures
        dp[x]@[(other[x][BLOCK_CELLS - 1] / 2) as int] != NEG_INF,
        chain_value(n, w, br0, dir_lr, other, x + 1) <= dp[x]@[(other[x][BLOCK_CELLS - 1] / 2) as int],
    decreases x,
{
    let p = other[x];
    assert(block_path(p) && p[0] % 2 == 0 && p[BLOCK_CELLS - 1] % 2 == 1);
    let st = p[0] / 2;
    let en = p[BLOCK_CELLS - 1] / 2;
    assert(p[0] < BLOCK_CELLS && p[BLOCK_CELLS - 1] < BLOCK_CELLS);
    let q = pair_of(p);
    assert(q == st * (BAND_H as int) + en);
    assert(found_in(lists, p));
    let i = choose|i: int| 0 <= i < lists[q]@.len() && #[trigger] lists[q]@[i]@ == p;
    assert(lists[q]@.len() > 0);
    assert(local_score(lists[q]@[i]@, block_weights(n, w, br0, dir_lr, x)) <= evals[x].scores@[q]);
    assert(-block_score_bound() <= evals[x].scores@[q]);
    assert(pair_score(evals[x].scores@, st as int, en as int) == evals[x].scores@[q]);
    assert(dp_row_ok(dp, pe, ps, start_fixed, evals, x));
    assert(chain_value(n, w, br0, dir_lr, other, x + 1) == chain_value(n, w, br0, dir_lr, other, x)
        + local_score(p, block_weights(n, w, br0, dir_lr, x)));
    if x == 0 {
        assert(chain_value(n, w, br0, dir_lr, other, 0) == 0);
        assert(pair_score(evals[0].scores@, st as int, en as int) <= dp[0]@[en as int]);
    } else {
        lemma_band_upper(dp, pe, ps, start_fixed, end_fixed, evals, lists, n, w, br0, dir_lr, other, x - 1);
        let e2 = other[x - 1][BLOCK_CELLS - 1] / 2;
        assert(block_path(other[x - 1]));
        assert(other[x - 1][BLOCK_CELLS - 1] < BLOCK_CELLS);
        assert(-1 <= st - e2 <= 1);
        assert(row_upper(dp[x]@, evals[x].scores@, dp[x - 1]@));
        assert(dp[x - 1]@[e2 as int] + pair_score(evals[x].scores@, st as int, en as int) <= dp[x]@[en as int]);
    }
}

/// Along the crossing the backtrack chose, each block's running total is
/// the table's value at the row it leaves by.
proof fn lemma_band_exact(dp: Seq<[i64; 5]>, pe: Seq<[usize; 5]>, ps: Seq<[usize; 5]>, start_fixed: Option<usize>,
    evals: Seq<BlockEval>, lists: Seq<Vec<[u8; 10]>>, n: int, w: Seq<i64>, br0: int, dir_lr: bool,
    full: Seq<Seq<u8>>, starts: Seq<usize>, ends: Seq<usize>, x: int)
    requires
        0 <= x < dp.len(),
        full.len() == dp.len(),
        evals.len() == dp.len(),
        starts.len() == dp.len(),
        ends.len() == dp.len(),
        dp_best(dp, pe, ps, start_fixed, evals, dp.len() as int),
        evals_best(evals, lists, n, w, br0, dir_lr),
        forall|s: int| 0 <= s < dp.len() ==> #[trigger] ends[s] < BAND_H
            && starts[s] == ps[s]@[ends[s] as int]
            && dp[s]@[ends[s] as int] != NEG_INF,
        forall|s: int| 0 < s < dp.len() ==> #[trigger] ends[s - 1] == pe[s]@[ends[s] as int],
        forall|s: int| 0 <= s < dp.len() ==> #[trigger] starts[s] < BAND_H && ends[s] < BAND_H
            && 0 <= evals[s].choices@[starts[s] * BAND_H + ends[s]] < lists[starts[s] * BAND_H + ends[s]]@.len(),
        forall|s: int| 0 <= s < dp.len() ==> #[trigger] full[s] == ({
            let pair = starts[s] * BAND_H + ends[s];
            lists[pair]@[evals[s].choices@[pair] as int]@
        }),
    ensures
        chain_value(n, w, br0, dir_lr, full, x + 1) == dp[x]@[ends[x] as int],
    decreases x,
{
    assert(ends[x] < BAND_H && starts[x] == ps[x]@[ends[x] as int] && dp[x]@[ends[x] as int] != NEG_INF);
    let pair = starts[x] * BAND_H + ends[x];
    assert(starts[x] < BAND_H && 0 <= evals[x].choices@[pair] < lists[pair]@.len());
    assert(full[x] == lists[pair]@[evals[x].choices@[pair] as int]@);
    assert(evals[x].scores@[pair] == local_score(full[x], block_weights(n, w, br0, dir_lr, x)));
    assert(chain_value(n, w, br0, dir_lr, full, x + 1) == chain_value(n, w, br0, dir_lr, full, x)
        + local_score(full[x], block_weights(n, w, br0, dir_lr, x)));
    assert(row_exact(dp[x]@, pe[x]@, ps[x]@, x == 0, evals[x].scores@, if x == 0 { dp[0]@ } else { dp[x - 1]@ }));
    if x == 0 {
        assert(chain_value(n, w, br0, dir_lr, full, 0) == 0);
    } else {
        lemma_band_exact(dp, pe, ps, start_fixed, evals, lists, n, w, br0, dir_lr, full, starts, ends, x - 1);
        assert(ends[x - 1] == pe[x]@[ends[x] as int]);
    }
}

/// `route` crosses the band through a chain of listed block paths meeting
/// the fixed rows whose total score no other such chain beats.
#[verifier::opaque]
pub open spec fn band_best(n: int, w: Seq<i64>, br0: int, dir_lr: bool, lists: Seq<Vec<[u8; 10]>>, start_fixed: Option<usize>,
    end_fixed: Option<usize>, route: Seq<usize>) -> bool {
    exists|full: Seq<Seq<u8>>| #[trigger] band_chain(n, lists, start_fixed, end_fixed, full)
        && route == band_route_of(n, br0, dir_lr, full)
        && forall|other: Seq<Seq<u8>>| #[trigger] band_chain(n, lists, start_fixed, end_fixed, other)
            ==> chain_value(n, w, br0, dir_lr, other, n / 2) <= chain_value(n, w, br0, dir_lr, full, n / 2)
}

/// The crossing the backtrack chose from the best allowed exit row is one
/// that no other beats.
proof fn lemma_band_best(dp: Seq<[i64; 5]>, pe: Seq<[usize; 5]>, ps: Seq<[usize; 5]>, start_fixed: Option<usize>,
    end_fixed: Option<usize>, evals: Seq<BlockEval>, lists: Seq<Vec<[u8; 10]>>, n: int, w: Seq<i64>, br0: int, dir_lr: bool,
    full: Seq<Seq<u8>>, starts: Seq<usize>, ends: Seq<usize>, best: int, route: Seq<usize>)
    requires
        1 <= dp.len() == n / 2,
        full.len() == dp.len(),
        evals.len() == dp.len(),
        starts.len() == dp.len(),
        ends.len() == dp.len(),
        dp_ok(dp, pe, ps, start_fixed, evals, dp.len() as int),
        dp_best(dp, pe, ps, start_fixed, evals, dp.len() as int),
        evals_ok(evals, lists),
        evals_best(evals, lists, n, w, br0, dir_lr),
        paths_ok(lists),
        forall|s: int| 0 <= s < dp.len() ==> #[trigger] ends[s] < BAND_H
            && starts[s] == ps[s]@[ends[s] as int]
            && dp[s]@[ends[s] as int] != NEG_INF,
        forall|s: int| 0 < s < dp.len() ==> #[trigger] ends[s - 1] == pe[s]@[ends[s] as int],
        forall|s: int| 0 <= s < dp.len() ==> #[trigger] starts[s] < BAND_H && ends[s] < BAND_H
            && 0 <= evals[s].choices@[starts[s] * BAND_H + ends[s]] < lists[starts[s] * BAND_H + ends[s]]@.len(),
        forall|s: int| 0 <= s < dp.len() ==> #[trigger] full[s] == ({
            let pair = starts[s] * BAND_H + ends[s];
            lists[pair]@[evals[s].choices@[pair] as int]@
        }),
        chain_ok(full),
        full[0][0] / 2 == starts[0],
        full[dp.len() - 1][BLOCK_CELLS - 1] / 2 == ends[dp.len() - 1],
        ends[dp.len() - 1] == best,
        0 <= best < BAND_H,
        end_fixed matches Some(g) ==> best == g,
        forall|e: int| 0 <= e < BAND_H && (end_fixed matches Some(g) ==> e == g)
            ==> #[trigger] dp[dp.len() - 1]@[e] <= dp[dp.len() - 1]@[best],
        route == band_route_of(n, br0, dir_lr, full),
    ensures
        band_best(n, w, br0, dir_lr, lists, start_fixed, end_fixed, route),
{
    let last = dp.len() - 1;
    lemma_band_exact(dp, pe, ps, start_fixed, evals, lists, n, w, br0, dir_lr, full, starts, ends, last);
    assert forall|other: Seq<Seq<u8>>| #[trigger] band_chain(n, lists, start_fixed, end_fixed, other)
        implies chain_value(n, w, br0, dir_lr, other, n / 2) <= chain_value(n, w, br0, dir_lr, full, n / 2) by {
        lemma_band_upper(dp, pe, ps, start_fixed, end_fixed, evals, lists, n, w, br0, dir_lr, other, last);
        let en = other[last][BLOCK_CELLS - 1] / 2;
        assert(block_path(other[last]));
        assert(other[last][BLOCK_CELLS - 1] < BLOCK_CELLS);
        assert(dp[last]@[en as int] <= dp[last]@[best]);
    }
    assert forall|s: int| 0 <= s < full.len() implies found_in(lists, #[trigger] full[s]) by {
        let pair = starts[s] * BAND_H + ends[s];
        let c = evals[s].choices@[pair] as int;
        assert(full[s] == lists[pair]@[c]@);
        assert(path_for_pair(lists[pair]@[c]@, pair));
        assert(pair_of(full[s]) == pair);
    }
    if start_fixed is Some {
        assert(dp_row_ok(dp, pe, ps, start_fixed, evals, 0));
        assert(starts[0] == ps[0]@[ends[0] as int]);
    }
    assert(band_chain(n, lists, start_fixed, end_fixed, full));
    reveal(band_best);
}

/// A band of rows `band_row0..band_row0 + 5` crossed block by block (left to
/// right when `dir_lr`), entering at row `start_fixed` and leaving at row
/// `end_fixed` of the band where those are given: for each block a path of
/// the pair its rows call for, the rows chosen by the best crossing table.
/// The result covers the band once by king moves, from its first column to
/// its last, and no other chain of listed block paths meeting the fixed
/// rows scores more over the blocks (`band_best`).
#[verifier::rlimit(100)]
#[verifier::spinoff_prover]
pub fn solve_band(
    n: usize,
    weights: &[i64],
    band_row0: usize,
    dir_lr: bool,
    start_fixed: Option<usize>,
    end_fixed: Option<usize>,
    paths_by_pair: &Vec<Vec<[u8; 10]>>,
) -> (band_route: Vec<usize>)
    requires
        2 <= n,
        n % 2 == 0,
        n * n <= MAX_CELLS,
        band_row0 + BAND_H <= n,
        weights@.len() == n * n,
        crate::grid::weights_bounded(weights@),
        paths_ok(paths_by_pair@),
        pairs_available(paths_by_pair@),
        start_fixed matches Some(f) ==> f < BAND_H,
        end_fixed matches Some(f) ==> f < BAND_H,
        n == 2 ==> (start_fixed matches Some(f) ==> (end_fixed matches Some(g) ==> pair_possible(f as int, g as int))),
    ensures
        band_route@.len() == BAND_H * n,
        forall|k: int| 0 <= k < band_route@.len() ==> #[trigger] in_band(n as int, band_row0 as int, band_route@[k] as int),
        band_route@.no_duplicates(),
        is_king_walk(n as int, band_route@),
        col_of(n as int, band_route@[0] as int) == if dir_lr { 0 } else { n - 1 },
        start_fixed matches Some(f) ==> row_of(n as int, band_route@[0] as int) == band_row0 + f,
        col_of(n as int, band_route@[BAND_H * n - 1] as int) == if dir_lr { n - 1 } else { 0 },
        end_fixed matches Some(f) ==> row_of(n as int, band_route@[BAND_H * n - 1] as int) == band_row0 + f,
        band_best(n as int, weights@, band_row0 as int, dir_lr, paths_by_pair@, start_fixed, end_fixed, band_route@),
{
    let blocks = n / BLOCK_W;
    proof {
        assert(n <= 1000) by (nonlinear_arith)
            requires n * n <= 1_000_000, n >= 2;
    }
    let evals = evaluate_band_blocks(n, weights, band_row0, dir_lr, paths_by_pair);
    let (dp, parent_exit, parent_start) = band_dp(&evals, paths_by_pair, start_fixed);
    let last = blocks - 1;
    proof {
        let target: int = match end_fixed { Some(g) => g as int, None => 0 };
        if last >= 1 {
            assert(row_full(dp@[last as int]@));
        } else {
            assert(start_fixed matches Some(f) ==> pair_possible(f as int, target));
        }
        assert(dp@[last as int]@[target] != NEG_INF);
        assert(dp_row_ok(dp@, parent_exit@, parent_start@, start_fixed, evals@, last as int));
        assert forall|e: int| 0 <= e < BAND_H implies #[trigger] dp@[last as int]@[e] >= NEG_INF by {
            assert(dp@[last as int]@[e] == NEG_INF || -(last + 1) * block_score_bound() <= dp@[last as int]@[e]);
            assert(-(last + 1) * block_score_bound() >= NEG_INF) by (nonlinear_arith)
                requires last < 500, block_score_bound() == 100 * 1_000_000;
        }
    }
    let best_end_row = pick_best_end(&dp[last], end_fixed);
    let (chosen_starts, chosen_ends) = backtrack_rows(&dp, &parent_exit, &parent_start, best_end_row,
        Ghost(evals@), Ghost(start_fixed));
    let ghost full = lemma_chosen_blocks(dp@, parent_exit@, parent_start@, start_fixed, evals@, paths_by_pair@,
        chosen_starts@, chosen_ends@);
    let band_route = assemble_band_route(n, band_row0, dir_lr, paths_by_pair, &evals, &chosen_starts, &chosen_ends,
        Ghost(full));
    proof {
        lemma_band_route(n as int, band_row0 as int, dir_lr, full);
        lemma_band_best(dp@, parent_exit@, parent_start@, start_fixed, end_fixed, evals@, paths_by_pair@, n as int, weights@,
            band_row0 as int, dir_lr, full, chosen_starts@, chosen_ends@, best_end_row as int, band_route@);
    }
    band_route
}

/// The exit row with the best value among those allowed (only `end_fixed`
/// when it is given), the first on ties.
fn pick_best_end(row: &[i64; 5], end_fixed: Option<usize>) -> (best: usize)
    requires
        end_fixed matches Some(g) ==> g < BAND_H,
        row@[match end_fixed { Some(g) => g as int, None => 0 }] != NEG_INF,
        forall|e: int| 0 <= e < BAND_H ==> #[trigger] row@[e] >= NEG_INF,
    ensures
        best < BAND_H,
        row@[best as int] != NEG_INF,
        end_fixed matches Some(g) ==> best == g,
        forall|e: int| 0 <= e < BAND_H && (end_fixed matches Some(g) ==> e == g) ==> #[trigger] row@[e] <= row@[best as int],
{
    let ghost target: int = match end_fixed { Some(g) => g as int, None => 0 };
    let mut best_end_row = usize::MAX;
    let mut best_score = NEG_INF;
    let mut e: usize = 0;
    while e < BAND_H
        invariant
            e <= BAND_H,
            0 <= target < BAND_H,
            row@[target] != NEG_INF,
            forall|x: int| 0 <= x < BAND_H ==> #[trigger] row@[x] >= NEG_INF,
            target == (match end_fixed { Some(g) => g as int, None => 0 }),
            end_fixed matches Some(f) ==> f < BAND_H,
            best_end_row == usize::MAX || (best_end_row < BAND_H && row@[best_end_row as int] != NEG_INF
                && best_score == row@[best_end_row as int]),
            best_end_row != usize::MAX ==> (end_fixed matches Some(f) ==> best_end_row == f),
            target < e ==> best_end_row != usize::MAX,
            best_end_row == usize::MAX ==> best_score == NEG_INF,
            forall|x: int| 0 <= x < e && (end_fixed matches Some(g) ==> x == g) ==> #[trigger] row@[x] <= best_score,
        decreases BAND_H - e,
    {
        let allowed = match end_fixed {
            Some(f) => f == e,
            None => true,
        };
        if allowed {
            if row[e] > best_score {
                best_score = row[e];
                best_end_row = e;
            }
        }
        e += 1;
    }
    best_end_row
}

#[verifier::rlimit(60)]
/// Walks the crossing table back from exit row `best_end_row` of the last
/// block: the entry and exit row of every block.
fn backtrack_rows(
    dp: &Vec<[i64; 5]>,
    parent_exit: &Vec<[usize; 5]>,
    parent_start: &Vec<[usize; 5]>,
    best_end_row: usize,
    Ghost(evals): Ghost<Seq<BlockEval>>,
    Ghost(start_fixed): Ghost<Option<usize>>,
) -> (rows: (Vec<usize>, Vec<usize>))
    requires
        1 <= dp@.len() <= 500,
        dp_ok(dp@, parent_exit@, parent_start@, start_fixed, evals, dp@.len() as int),
        best_end_row < BAND_H,
        dp@[dp@.len() - 1]@[best_end_row as int] != NEG_INF,
    ensures
        rows.0@.len() == dp@.len(),
        rows.1@.len() == dp@.len(),
        rows.1@[dp@.len() - 1] == best_end_row,
        forall|s: int| 0 <= s < dp@.len() ==> #[trigger] rows.1@[s] < BAND_H
            && rows.0@[s] == parent_start@[s]@[rows.1@[s] as int]
            && dp@[s]@[rows.1@[s] as int] != NEG_INF,
        forall|s: int| 0 < s < dp@.len() ==> #[trigger] rows.1@[s - 1] == parent_exit@[s]@[rows.1@[s] as int],
{
    let blocks = dp.len();
    let mut chosen_starts: Vec<usize> = Vec::new();
    let mut chosen_ends: Vec<usize> = Vec::new();
    let mut z: usize = 0;
    while z < blocks
        invariant
            z <= blocks,
            chosen_starts@.len() == z,
            chosen_ends@.len() == z,
        decreases blocks - z,
    {
        chosen_starts.push(0);
        chosen_ends.push(0);
        z += 1;
    }
    proof {
        assert forall|s: int, e: int| 0 <= s < blocks && 0 <= e < BAND_H && dp@[s]@[e] != NEG_INF implies
            #[trigger] parent_start@[s]@[e] < BAND_H && parent_exit@[s]@[e] < BAND_H
            && (s > 0 ==> dp@[s - 1]@[parent_exit@[s]@[e] as int] != NEG_INF) by {
            assert(dp_row_ok(dp@, parent_exit@, parent_start@, start_fixed, evals, s));
        }
    }
    let mut exit_row = best_end_row;
    let mut step = blocks;
    while step > 0
        invariant
            blocks == dp@.len(),
            parent_exit@.len() == blocks,
            parent_start@.len() == blocks,
            1 <= blocks <= 500,
            forall|s: int, e: int| 0 <= s < blocks && 0 <= e < BAND_H && dp@[s]@[e] != NEG_INF ==>
                #[trigger] parent_start@[s]@[e] < BAND_H && parent_exit@[s]@[e] < BAND_H
                && (s > 0 ==> dp@[s - 1]@[parent_exit@[s]@[e] as int] != NEG_INF),
            chosen_starts@.len() == blocks,
            chosen_ends@.len() == blocks,
            step <= blocks,
            exit_row < BAND_H,
            step > 0 ==> dp@[step - 1]@[exit_row as int] != NEG_INF,
            step == blocks ==> exit_row == best_end_row,
            step < blocks ==> chosen_ends@[blocks - 1] == best_end_row,
            forall|s: int| step <= s < blocks ==> #[trigger] chosen_ends@[s] < BAND_H
                && chosen_starts@[s] == parent_start@[s]@[chosen_ends@[s] as int]
                && dp@[s]@[chosen_ends@[s] as int] != NEG_INF,
            forall|s: int| step < s < blocks ==> #[trigger] chosen_ends@[s - 1] == parent_exit@[s]@[chosen_ends@[s] as int],
            0 < step < blocks ==> exit_row == parent_exit@[step as int]@[chosen_ends@[step as int] as int],
        decreases step,
    {
        step -= 1;
        proof {
            assert(parent_start@[step as int]@[exit_row as int] < BAND_H);
        }
        let ghost prev_ends = chosen_ends@;
        let ghost prev_starts = chosen_starts@;
        chosen_ends.set(step, exit_row);
        chosen_starts.set(step, parent_start[step][exit_row]);
        if step > 0 {
            exit_row = parent_exit[step][exit_row];
        }
        proof {
            assert forall|s: int| step <= s < blocks implies #[trigger] chosen_ends@[s] < BAND_H
                && chosen_starts@[s] == parent_start@[s]@[chosen_ends@[s] as int]
                && dp@[s]@[chosen_ends@[s] as int] != NEG_INF by {
                if s > step {
                    assert(chosen_ends@[s] == prev_ends[s] && chosen_starts@[s] == prev_starts[s]);
                }
            }
            assert forall|s: int| step < s < blocks implies #[trigger] chosen_ends@[s - 1] == parent_exit@[s]@[chosen_ends@[s] as int] by {
                assert(chosen_ends@[s] == prev_ends[s]);
                if s - 1 > step {
                    assert(chosen_ends@[s - 1] == prev_ends[s - 1]);
                }
            }
        }
    }
    (chosen_starts, chosen_ends)
}

/// The cells of the band, block by block through the chosen paths.
fn assemble_band_route(
    n: usize,
    band_row0: usize,
    dir_lr: bool,
    paths_by_pair: &Vec<Vec<[u8; 10]>>,
    evals: &Vec<BlockEval>,
    chosen_starts: &Vec<usize>,
    chosen_ends: &Vec<usize>,
    Ghost(full): Ghost<Seq<Seq<u8>>>,
) -> (band_route: Vec<usize>)
    requires
        2 <= n,
        n % 2 == 0,
        n * n <= MAX_CELLS,
        band_row0 + BAND_H <= n,
        paths_ok(paths_by_pair@),
        evals@.len() == n / 2,
        chosen_starts@.len() == n / 2,
        chosen_ends@.len() == n / 2,
        full.len() == n / 2,
        chain_ok(full),
        forall|s: int| 0 <= s < n / 2 ==> #[trigger] chosen_starts@[s] < BAND_H && chosen_ends@[s] < BAND_H
            && 0 <= evals@[s].choices@[chosen_starts@[s] * BAND_H + chosen_ends@[s]]
                < paths_by_pair@[chosen_starts@[s] * BAND_H + chosen_ends@[s]]@.len(),
        forall|s: int| 0 <= s < n / 2 ==> #[trigger] full[s] == ({
            let pair = chosen_starts@[s] * BAND_H + chosen_ends@[s];
            paths_by_pair@[pair]@[evals@[s].choices@[pair] as int]@
        }),
    ensures
        band_route@ == band_route_of(n as int, band_row0 as int, dir_lr, full),
{
    let blocks = n / BLOCK_W;
    let mut band_route: Vec<usize> = Vec::new();
    let mut step: usize = 0;
    while step < blocks
        invariant
            2 <= n,
            n % 2 == 0,
            n * n <= MAX_CELLS,
            band_row0 + BAND_H <= n,
            blocks == n / 2,
            paths_ok(paths_by_pair@),
            evals@.len() == blocks,
            chosen_starts@.len() == blocks,
            chosen_ends@.len() == blocks,
            full.len() == blocks,
            chain_ok(full),
            forall|s: int| 0 <= s < n / 2 ==> #[trigger] chosen_starts@[s] < BAND_H && chosen_ends@[s] < BAND_H
                && 0 <= evals@[s].choices@[chosen_starts@[s] * BAND_H + chosen_ends@[s]]
                    < paths_by_pair@[chosen_starts@[s] * BAND_H + chosen_ends@[s]]@.len(),
            forall|s: int| 0 <= s < n / 2 ==> #[trigger] full[s] == ({
                let pair = chosen_starts@[s] * BAND_H + chosen_ends@[s];
                paths_by_pair@[pair]@[evals@[s].choices@[pair] as int]@
            }),
            step <= blocks,
            band_route@.len() == step * 10,
            forall|k: int| 0 <= k < band_route@.len() ==> #[trigger] band_route@[k] == band_route_of(n as int, band_row0 as int, dir_lr, full)[k],
        decreases blocks - step,
    {
        let col0 = if dir_lr { step * BLOCK_W } else { n - (step + 1) * BLOCK_W };
        proof {
            assert(chosen_starts@[step as int] < BAND_H && chosen_ends@[step as int] < BAND_H);
        }
        let pair = chosen_starts[step] * BAND_H + chosen_ends[step];
        let choice = evals[step].choices[pair];
        let path = &paths_by_pair[pair][choice];
        proof {
            assert(full[step as int] == path@);
            assert(block_path(full[step as int]));
        }
        let mut pos: usize = 0;
        while pos < BLOCK_CELLS
            invariant
                2 <= n,
                n % 2 == 0,
                n * n <= MAX_CELLS,
                band_row0 + BAND_H <= n,
                blocks == n / 2,
                step < blocks,
                col0 == (if dir_lr { step * 2 } else { n - (step + 1) * 2 }),
                full.len() == blocks,
                chain_ok(full),
                full[step as int] == path@,
                block_path(path@),
                pos <= BLOCK_CELLS,
                band_route@.len() == step * 10 + pos,
                forall|k: int| 0 <= k < band_route@.len() ==> #[trigger] band_route@[k] == band_route_of(n as int, band_row0 as int, dir_lr, full)[k],
            decreases BLOCK_CELLS - pos,
        {
            let local = path[pos] as usize;
            let row = local / BLOCK_W;
            let col = local % BLOCK_W;
            let global_col = if dir_lr { col0 + col } else { col0 + (BLOCK_W - 1 - col) };
            proof {
                assert(local < BLOCK_CELLS);
                lemma_band_cell(n as int, band_row0 as int, step as int, dir_lr, local as int);
                lemma_cell_bound(n as int, (band_row0 + row) as int, global_col as int);
                let k = step * 10 + pos;
                assert(k / 10 == step && k % 10 == pos);
                lemma_route_entry(n as int, band_row0 as int, dir_lr, full, k as int);
            }
            band_route.push((band_row0 + row) * n + global_col);
            pos += 1;
        }
        step += 1;
    }
    proof {
        assert(band_route@ =~= band_route_of(n as int, band_row0 as int, dir_lr, full));
    }
    band_route
}

/// Band `b` of the banded route is crossed at its best (`band_best`):
/// rows `5b..5b + 5`, left to right when `b` is even, entering at its top
/// row unless it is the first and leaving at its bottom row unless it is
/// the last.
pub open spec fn band_piece_best(n: int, w: Seq<i64>, lists: Seq<Vec<[u8; 10]>>, route: Seq<usize>, b: int) -> bool {
    band_best(n, w, b * (BAND_H as int), b % 2 == 0, lists,
        if b == 0 { None } else { Some(0usize) },
        if b + 1 == n / (BAND_H as int) { None } else { Some((BAND_H - 1) as usize) },
        route.subrange(b * (BAND_H as int) * n, (b + 1) * (BAND_H as int) * n))
}

/// The route through the whole board band by band, each band crossed at
/// its best (`band_piece_best`): band `b` covers rows
/// `5b..5b + 5`, crossed left to right when `b` is even and right to left
/// otherwise; every band but the first enters at its top row and every band
/// but the last leaves at its bottom row, so that consecutive bands meet.
pub fn build_banded_route(n: usize, weights: &[i64], paths_by_pair: &Vec<Vec<[u8; 10]>>) -> (route: Vec<usize>)
    requires
        n % BAND_H == 0,
        n % BLOCK_W == 0,
        BAND_H <= n,
        n * n <= MAX_CELLS,
        weights@.len() == n * n,
        crate::grid::weights_bounded(weights@),
        paths_ok(paths_by_pair@),
        pairs_available(paths_by_pair@),
    ensures
        is_route(n as int, route@),
        forall|b: int| 0 <= b < (n / BAND_H) as int ==> #[trigger] band_piece_best(n as int, weights@, paths_by_pair@, route@, b),
{
    let band_count = n / BAND_H;
    let mut route: Vec<usize> = Vec::new();
    let mut band: usize = 0;
    proof {
        assert(2 <= n);
        assert(0 * BAND_H * n == 0);
    }
    while band < band_count
        invariant
            n % BAND_H == 0,
            n % BLOCK_W == 0,
            BAND_H <= n,
            n * n <= MAX_CELLS,
            weights@.len() == n * n,
            crate::grid::weights_bounded(weights@),
            paths_ok(paths_by_pair@),
            pairs_available(paths_by_pair@),
            band_count == n / BAND_H,
            band <= band_count,
            route@.len() == band * BAND_H * n,
            forall|k: int| 0 <= k < route@.len() ==> #[trigger] route@[k] < n * n
                && row_of(n as int, route@[k] as int) < band * BAND_H,
            route@.no_duplicates(),
            is_king_walk(n as int, route@),
            0 < band < band_count ==> row_of(n as int, route@[route@.len() - 1] as int) == band * BAND_H - 1
                && col_of(n as int, route@[route@.len() - 1] as int) == if (band - 1) % 2 == 0 { n - 1 } else { 0 },
            forall|b: int| 0 <= b < band ==> #[trigger] band_piece_best(n as int, weights@, paths_by_pair@, route@, b),
        decreases band_count - band,
    {
        let dir_lr = band % 2 == 0;
        let band_row0 = band * BAND_H;
        let start_row = if band == 0 { None } else { Some(0usize) };
        let end_row = if band + 1 == band_count { None } else { Some(BAND_H - 1) };
        proof {
            assert(band_row0 + BAND_H <= n) by (nonlinear_arith)
                requires band < band_count, band_count == n / 5, band_row0 == band * 5, n % 5 == 0;
        }
        let mut band_route = solve_band(n, weights, band_row0, dir_lr, start_row, end_row, paths_by_pair);
        let ghost old_route = route@;
        let ghost piece = band_route@;
        route.append(&mut band_route);
        proof {
            let len0 = old_route.len();
            assert(route@ == old_route + piece);
            assert forall|k: int| 0 <= k < route@.len() implies #[trigger] route@[k] < n * n
                && row_of(n as int, route@[k] as int) < (band + 1) * BAND_H by {
                if k < len0 {
                    assert(route@[k] == old_route[k]);
                } else {
                    assert(route@[k] == piece[k - len0]);
                    assert(in_band(n as int, band_row0 as int, piece[k - len0] as int));
                }
            }
            assert forall|a: int, b: int| 0 <= a < b < route@.len() implies route@[a] != route@[b] by {
                if b < len0 {
                    assert(route@[a] == old_route[a] && route@[b] == old_route[b]);
                } else if a >= len0 {
                    assert(route@[a] == piece[a - len0] && route@[b] == piece[b - len0]);
                } else {
                    assert(route@[a] == old_route[a] && route@[b] == piece[b - len0]);
                    assert(in_band(n as int, band_row0 as int, piece[b - len0] as int));
                    assert(row_of(n as int, old_route[a] as int) < band * BAND_H);
                }
            }
            assert forall|k: int| 0 <= k < route@.len() - 1 implies #[trigger] adjacent(n as int, route@[k] as int, route@[k + 1] as int) by {
                if k + 1 < len0 {
                    assert(route@[k] == old_route[k] && route@[k + 1] == old_route[k + 1]);
                    assert(adjacent(n as int, old_route[k] as int, old_route[k + 1] as int));
                } else if k >= len0 {
                    assert(route@[k] == piece[k - len0] && route@[k + 1] == piece[k - len0 + 1]);
                    assert(adjacent(n as int, piece[k - len0] as int, piece[k - len0 + 1] as int));
                } else {
                    assert(k == len0 - 1);
                    assert(route@[k] == old_route[len0 - 1] && route@[k + 1] == piece[0]);
                    assert(band > 0);
                    assert(in_band(n as int, band_row0 as int, piece[0] as int));
                    assert(old_route[len0 - 1] < n * n);
                }
            }
            assert(route@.len() == (band + 1) * BAND_H * n) by (nonlinear_arith)
                requires route@.len() == band * 5 * n + 5 * n;
            let last = route@.len() - 1;
            assert(route@[last] == piece[piece.len() - 1]);
            assert(piece.len() - 1 == BAND_H * n - 1);
            if band + 1 < band_count {
                assert(row_of(n as int, piece[BAND_H * n - 1] as int) == band_row0 + (BAND_H - 1));
                assert(band_row0 + (BAND_H - 1) == (band + 1) * BAND_H - 1);
            }
            assert(len0 == band * 5 * n);
            assert forall|b: int| 0 <= b < band + 1 implies #[trigger] band_piece_best(n as int, weights@, paths_by_pair@, route@, b) by {
                assert((b + 1) * 5 * n <= (band + 1) * 5 * n) by (nonlinear_arith) requires 0 <= b <= band, n >= 0;
                assert(b * 5 * n >= 0) by (nonlinear_arith) requires 0 <= b, n >= 0;
                assert((b + 1) * 5 * n == b * 5 * n + 5 * n) by (nonlinear_arith);
                if b < band {
                    assert((b + 1) * 5 * n <= band * 5 * n) by (nonlinear_arith) requires 0 <= b < band, n >= 0;
                    assert(band_piece_best(n as int, weights@, paths_by_pair@, old_route, b));
                    assert(route@.subrange(b * 5 * n, (b + 1) * 5 * n) =~= old_route.subrange(b * 5 * n, (b + 1) * 5 * n));
                } else {
                    assert(route@.subrange(b * 5 * n, (b + 1) * 5 * n) =~= piece);
                    assert(band_row0 == b * 5);
                }
            }
        }
        band += 1;
    }
    proof {
        assert(route@.len() == n * n) by (nonlinear_arith)
            requires route@.len() == band * 5 * n, band == n / 5, n % 5 == 0;
        assert forall|k: int| 0 <= k < route@.len() implies #[trigger] route@[k] < n * n by {
        }
    }
    route
}

} // verus!
