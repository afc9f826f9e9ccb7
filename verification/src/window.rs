//! Exact reordering of a short window of a route by dynamic programming over
//! subsets of its cells.
use vstd::prelude::*;
use crate::grid::{adjacent, is_route, is_king_walk, is_permutation_route, raw_score, raw_prefix,
    cells_in, weights_bounded, MAX_CELLS, MAX_WEIGHT, is_adj};
use crate::moves::lemma_prefix_agree;
use crate::descent::search_input;

verus! {

/// Largest window handled.
pub const MAX_WINDOW: usize = 12;

/// Bit `i` of `x` is set.
pub open spec fn ubit(x: usize, i: int) -> bool {
    0 <= i < usize::BITS && (x >> (i as usize)) & 1usize == 1usize
}

/// Number of set bits of `x` below position `k`.
pub open spec fn ones_usize(x: usize, k: int) -> nat
    decreases k,
{
    if k <= 0 {
        0
    } else {
        ones_usize(x, k - 1) + if ubit(x, k - 1) { 1nat } else { 0nat }
    }
}

/// `count_ones` counts the set bits of the whole word.
pub assume_specification[ usize::count_ones ](x: usize) -> (r: u32)
    ensures
        r == ones_usize(x, usize::BITS as int),
;

pub(crate) proof fn lemma_bit_set(m: usize, b: usize, i: usize)
    by (bit_vector)
    requires
        b < 12,
        i < 12,
    ensures
        (((m | (1usize << b)) >> i) & 1usize == 1usize) == (i == b || (m >> i) & 1usize == 1usize),
        ((m & (1usize << b)) == 0usize) == !((m >> b) & 1usize == 1usize),
        ((1usize << b) >> i) & 1usize == 1usize <==> i == b,
{
}

pub(crate) proof fn lemma_bit_order(m: usize, b: usize)
    by (bit_vector)
    requires
        b < 12,
    ensures
        !((m >> b) & 1usize == 1usize) ==> (m | (1usize << b)) > m && ((m | (1usize << b)) ^ (1usize << b)) == m,
        ((m >> b) & 1usize == 1usize) ==> (m ^ (1usize << b)) < m,
{
}

pub(crate) proof fn lemma_bit_clear(m: usize, b: usize, i: usize)
    by (bit_vector)
    requires
        b < 12,
        i < 12,
        (m >> b) & 1usize == 1usize,
    ensures
        (((m ^ (1usize << b)) >> i) & 1usize == 1usize) == (i != b && (m >> i) & 1usize == 1usize),
{
}

pub(crate) proof fn lemma_bit_range(m: usize, l: usize, b: usize, i: usize)
    by (bit_vector)
    requires
        l <= 12,
        b < l,
        m < (1usize << l),
        l <= i < usize::BITS,
    ensures
        (m >> i) & 1usize == 0usize,
        (m | (1usize << b)) < (1usize << l),
        (1usize << b) < (1usize << l),
{
}

pub(crate) proof fn lemma_states(l: usize)
    by (bit_vector)
    requires
        l <= 12,
    ensures
        1usize <= (1usize << l) <= 4096usize,
{
}

pub(crate) proof fn lemma_full_mask(l: usize, f: usize, i: usize)
    by (bit_vector)
    requires
        l <= 12,
        f + 1 == (1usize << l),
    ensures
        1usize <= (1usize << l) <= 4096usize,
        i < l ==> (f >> i) & 1usize == 1usize,
{
}

/// Bits at or above `l` of a word below `2^l` are clear, so counting stops at `l`.
pub(crate) proof fn lemma_ones_upper(m: usize, l: int, k: int)
    requires
        1 <= l <= 12,
        l <= k <= usize::BITS,
        m < (1usize << (l as usize)),
    ensures
        ones_usize(m, k) == ones_usize(m, l),
    decreases k - l,
{
    if k > l {
        lemma_ones_upper(m, l, k - 1);
        lemma_bit_range(m, l as usize, 0, (k - 1) as usize);
    }
}

/// Setting a clear bit `b < k` adds one to the count below `k`.
pub(crate) proof fn lemma_ones_set(m: usize, b: int, k: int)
    requires
        0 <= b < 12,
        0 <= k <= 12,
        !ubit(m, b),
    ensures
        ones_usize(m | (1usize << (b as usize)), k) == ones_usize(m, k) + if b < k { 1nat } else { 0nat },
    decreases k,
{
    if k > 0 {
        lemma_ones_set(m, b, k - 1);
        lemma_bit_set(m, b as usize, (k - 1) as usize);
    }
}

/// The single bit `b` counts once below any `k > b`.
pub(crate) proof fn lemma_ones_single(b: int, k: int)
    requires
        0 <= b < 12,
        0 <= k <= 12,
    ensures
        ones_usize(1usize << (b as usize), k) == if b < k { 1nat } else { 0nat },
    decreases k,
{
    if k > 0 {
        lemma_ones_single(b, k - 1);
        lemma_bit_set(0, b as usize, (k - 1) as usize);
    }
}

/// All bits below `l` are set in `2^l - 1`.
pub(crate) proof fn lemma_ones_full(l: int, f: usize, k: int)
    requires
        0 <= k <= l <= 12,
        f + 1 == (1usize << (l as usize)),
    ensures
        ones_usize(f, k) == k,
    decreases k,
{
    if k > 0 {
        lemma_ones_full(l, f, k - 1);
        lemma_full_mask(l as usize, f, (k - 1) as usize);
    }
}

/// Marks an unreachable table entry.
pub const NEG_INF: i64 = -2305843009213693952;

/// `path` lists distinct window indices below `len`, its first cell is next
/// to `left` (when there is a cell before the window) and each later cell is
/// a king move from the one before.
pub open spec fn good_path(n: int, seg: Seq<usize>, left: Option<usize>, len: int, path: Seq<int>) -> bool {
    &&& path.len() >= 1
    &&& forall|k: int| 0 <= k < path.len() ==> 0 <= #[trigger] path[k] < len
    &&& path.no_duplicates()
    &&& (left matches Some(c) ==> adjacent(n, c as int, seg[path[0]] as int))
    &&& forall|k: int| 0 <= k < path.len() - 1 ==> #[trigger] adjacent(n, seg[path[k]] as int, seg[path[k + 1]] as int)
}

/// Score of visiting `seg[path[0]], seg[path[1]], ...` at steps `pos[0], pos[1], ...`.
pub open spec fn path_value(seg: Seq<usize>, w: Seq<i64>, pos: Seq<usize>, path: Seq<int>) -> int
    decreases path.len(),
{
    if path.len() == 0 {
        0
    } else {
        path_value(seg, w, pos, path.drop_last()) + pos[path.len() - 1] * w[seg[path.last()] as int]
    }
}

/// Index of the table entry for subset `m` ending at `l`.
pub open spec fn slot(m: int, l: int, len: int) -> int {
    m * len + l
}

/// A reachable entry for subset `mask` ending at `last` is realised by `path`
/// (which visits exactly the members of `mask`) with score `value`.
pub open spec fn slot_ok(n: int, seg: Seq<usize>, left: Option<usize>, len: int, w: Seq<i64>, pos: Seq<usize>,
    mask: usize, last: int, path: Seq<int>, value: int) -> bool {
    &&& good_path(n, seg, left, len, path)
    &&& path.last() == last
    &&& path.len() == ones_usize(mask, len)
    &&& forall|i: int| 0 <= i < len ==> (ubit(mask, i) <==> path.contains(i))
    &&& value == path_value(seg, w, pos, path)
}

/// Entry `(m, l)` is unreachable or realised by its recorded path.
pub open spec fn entry_ok(n: int, seg: Seq<usize>, left: Option<usize>, len: int, w: Seq<i64>, pos: Seq<usize>,
    dp: Seq<i64>, paths: Seq<Seq<int>>, m: int, l: int) -> bool {
    let s = slot(m, l, len);
    dp[s] == NEG_INF || slot_ok(n, seg, left, len, w, pos, m as usize, l, paths[s], dp[s] as int)
}

/// A reachable entry with two or more cells names, through `parent`, the
/// entry of its path without the last cell; that entry's subset is below `cur`.
pub open spec fn link_ok(len: int, dp: Seq<i64>, parent: Seq<u8>, paths: Seq<Seq<int>>, m: int, l: int, cur: int) -> bool {
    let s = slot(m, l, len);
    (dp[s] != NEG_INF && paths[s].len() >= 2) ==> {
        let src = ((m as usize) ^ (1usize << (l as usize))) as int;
        let p = parent[s] as int;
        &&& 0 <= p < len
        &&& 0 <= src < cur
        &&& dp[slot(src, p, len)] != NEG_INF
        &&& paths[slot(src, p, len)] == paths[s].drop_last()
    }
}

pub(crate) proof fn lemma_slot(m: int, l: int, len: int, states: int)
    requires
        0 <= m < states,
        0 <= l < len,
    ensures
        0 <= slot(m, l, len) < states * len,
        forall|m2: int, l2: int| 0 <= m2 && 0 <= l2 < len && #[trigger] slot(m2, l2, len) == slot(m, l, len) ==> m2 == m && l2 == l,
{
    assert(0 <= m * len + l < states * len) by (nonlinear_arith)
        requires 0 <= m < states, 0 <= l < len;
    assert forall|m2: int, l2: int| 0 <= m2 && 0 <= l2 < len && #[trigger] slot(m2, l2, len) == slot(m, l, len) implies m2 == m && l2 == l by {
        assert(m2 == m) by (nonlinear_arith)
            requires 0 <= m, 0 <= m2, 0 <= l < len, 0 <= l2 < len, m2 * len + l2 == m * len + l;
    }
}

/// A path score is at most `len * MAX_CELLS * MAX_WEIGHT` in size.
pub(crate) proof fn lemma_path_value_bound(seg: Seq<usize>, w: Seq<i64>, pos: Seq<usize>, path: Seq<int>)
    requires
        path.len() <= pos.len(),
        forall|k: int| 0 <= k < path.len() ==> #[trigger] pos[k] <= MAX_CELLS,
        forall|k: int| 0 <= k < path.len() ==> 0 <= #[trigger] path[k] < seg.len(),
        cells_in(seg, w.len() as int),
        weights_bounded(w),
    ensures
        -(path.len() * (MAX_CELLS * MAX_WEIGHT)) <= path_value(seg, w, pos, path) <= path.len() * (MAX_CELLS * MAX_WEIGHT),
    decreases path.len(),
{
    if path.len() > 0 {
        let q = path.drop_last();
        lemma_path_value_bound(seg, w, pos, q);
        let x = w[seg[path.last()] as int];
        let t = pos[path.len() - 1] as int;
        assert(-(MAX_CELLS * MAX_WEIGHT) <= t * x <= MAX_CELLS * MAX_WEIGHT) by (nonlinear_arith)
            requires 0 <= t <= MAX_CELLS, -MAX_WEIGHT <= x <= MAX_WEIGHT;
        assert(q.len() * (MAX_CELLS * MAX_WEIGHT) + MAX_CELLS * MAX_WEIGHT == path.len() * (MAX_CELLS * MAX_WEIGHT)) by (nonlinear_arith)
            requires q.len() + 1 == path.len();
    }
}

/// A word below `2^l` has at most `l` set bits below `l`.
/// All of the first `k` bits are set when `k` of them are.
pub(crate) proof fn lemma_ones_all(m: usize, k: int)
    requires
        0 <= k,
        ones_usize(m, k) == k,
    ensures
        forall|i: int| 0 <= i < k ==> ubit(m, i),
    decreases k,
{
    if k > 0 {
        lemma_ones_bound(m, k - 1);
        lemma_ones_all(m, k - 1);
    }
}

pub(crate) proof fn lemma_ones_bound(m: usize, k: int)
    requires
        0 <= k,
    ensures
        ones_usize(m, k) <= k,
    decreases k,
{
    if k > 0 {
        lemma_ones_bound(m, k - 1);
    }
}

/// Extending a realised entry by a fresh cell next to its last one realises
/// the entry of the larger subset.
proof fn lemma_extend_slot(n: int, seg: Seq<usize>, left: Option<usize>, len: int, w: Seq<i64>, pos: Seq<usize>,
    mask: usize, last: int, path: Seq<int>, value: int, nxt: int, next_mask: usize, next_value: int)
    requires
        1 <= len <= 12,
        slot_ok(n, seg, left, len, w, pos, mask, last, path, value),
        0 <= nxt < len,
        !ubit(mask, nxt),
        adjacent(n, seg[last] as int, seg[nxt] as int),
        next_mask == mask | (1usize << (nxt as usize)),
        next_value == value + pos[ones_usize(mask, len) as int] * w[seg[nxt] as int],
    ensures
        slot_ok(n, seg, left, len, w, pos, next_mask, nxt, path.push(nxt), next_value),
{
    let p = path.push(nxt);
    assert(!path.contains(nxt));
    assert forall|i: int| 0 <= i < len implies (ubit(next_mask, i) <==> p.contains(i)) by {
        lemma_bit_set(mask, nxt as usize, i as usize);
        if i == nxt {
            assert(p[p.len() - 1] == i);
        }
        if path.contains(i) {
            let k = choose|k: int| 0 <= k < path.len() && path[k] == i;
            assert(p[k] == i);
        }
        if p.contains(i) && i != nxt {
            let k = choose|k: int| 0 <= k < p.len() && p[k] == i;
            assert(k < path.len());
            assert(path[k] == i);
        }
    }
    lemma_ones_set(mask, nxt, len);
    assert(p.drop_last() =~= path);
    assert forall|a: int, b: int| 0 <= a < p.len() && 0 <= b < p.len() && a != b implies p[a] != p[b] by {
        if a < path.len() && b < path.len() {
            assert(p[a] == path[a] && p[b] == path[b]);
        } else if a < path.len() {
            assert(p[a] == path[a]);
            assert(path.contains(path[a]));
        } else {
            assert(p[b] == path[b]);
            assert(path.contains(path[b]));
        }
    }
    assert forall|k: int| 0 <= k < p.len() - 1 implies #[trigger] adjacent(n, seg[p[k]] as int, seg[p[k + 1]] as int) by {
        if k < path.len() - 1 {
            assert(p[k] == path[k] && p[k + 1] == path[k + 1]);
        } else {
            assert(p[k] == path.last());
        }
    }
    assert(p[0] == path[0]);
}

/// Entry `(m, l)` is realised and linked to its predecessor below `cur`.
pub open spec fn cell_ok(n: int, seg: Seq<usize>, left: Option<usize>, len: int, w: Seq<i64>, pos: Seq<usize>,
    dp: Seq<i64>, parent: Seq<u8>, paths: Seq<Seq<int>>, m: int, l: int, cur: int) -> bool {
    entry_ok(n, seg, left, len, w, pos, dp, paths, m, l) && link_ok(len, dp, parent, paths, m, l, cur)
}

/// The tables for window cells `seg[..len]` after `left`, at steps `pos`:
/// every entry is unreachable or realised by its recorded path, and every
/// reachable entry of two or more cells names its predecessor entry, whose
/// subset is below `cur`.
pub open spec fn table_ok(n: int, seg: Seq<usize>, left: Option<usize>, len: int, w: Seq<i64>, pos: Seq<usize>,
    states: int, dp: Seq<i64>, parent: Seq<u8>, paths: Seq<Seq<int>>, cur: int) -> bool {
    &&& dp.len() == states * len
    &&& parent.len() == states * len
    &&& paths.len() == states * len
    &&& forall|m: int, l: int| 0 <= m < states && 0 <= l < len ==>
        #[trigger] cell_ok(n, seg, left, len, w, pos, dp, parent, paths, m, l, cur)
}

/// Writing a realised entry for a subset not yet expanded keeps the table
/// consistent.
proof fn lemma_table_write(n: int, seg: Seq<usize>, left: Option<usize>, len: int, w: Seq<i64>, pos: Seq<usize>,
    states: int, cur: int, old_dp: Seq<i64>, old_parent: Seq<u8>, old_paths: Seq<Seq<int>>,
    dp: Seq<i64>, parent: Seq<u8>, paths: Seq<Seq<int>>, dm: int, dl: int, p: Seq<int>, value: i64, par: u8)
    requires
        1 <= len <= 12,
        1 <= states,
        table_ok(n, seg, left, len, w, pos, states, old_dp, old_parent, old_paths, cur),
        0 <= dm < states,
        cur <= dm,
        0 <= dl < len,
        dp == old_dp.update(slot(dm, dl, len), value),
        parent == old_parent.update(slot(dm, dl, len), par),
        paths == old_paths.update(slot(dm, dl, len), p),
        value != NEG_INF,
        slot_ok(n, seg, left, len, w, pos, dm as usize, dl, p, value as int),
        p.len() >= 2,
        ({
            let src = ((dm as usize) ^ (1usize << (dl as usize))) as int;
            &&& 0 <= par < len
            &&& 0 <= src < cur
            &&& old_dp[slot(src, par as int, len)] != NEG_INF
            &&& old_paths[slot(src, par as int, len)] == p.drop_last()
        }),
    ensures
        table_ok(n, seg, left, len, w, pos, states, dp, parent, paths, cur),
{
    lemma_slot(dm, dl, len, states);
    let src = ((dm as usize) ^ (1usize << (dl as usize))) as int;
    lemma_slot(src, par as int, len, states);
    assert forall|m: int, l: int| 0 <= m < states && 0 <= l < len implies
        #[trigger] cell_ok(n, seg, left, len, w, pos, dp, parent, paths, m, l, cur) by {
        assert(cell_ok(n, seg, left, len, w, pos, old_dp, old_parent, old_paths, m, l, cur));
        lemma_slot(m, l, len, states);
        let s = slot(m, l, len);
        if s != slot(dm, dl, len) {
            if old_dp[s] != NEG_INF && old_paths[s].len() >= 2 {
                let sm = ((m as usize) ^ (1usize << (l as usize))) as int;
                let pp = old_parent[s] as int;
                lemma_slot(sm, pp, len, states);
            }
        }
    }
}

/// What the table filling relies on.
pub open spec fn window_input(n: int, seg: Seq<usize>, len: int, w: Seq<i64>, pos: Seq<usize>) -> bool {
    &&& 1 <= len <= MAX_WINDOW
    &&& seg.len() == MAX_WINDOW
    &&& pos.len() == MAX_WINDOW
    &&& forall|k: int| 0 <= k < len ==> #[trigger] pos[k] <= MAX_CELLS
    &&& 0 < n
    &&& n * n <= MAX_CELLS
    &&& cells_in(seg, w.len() as int)
    &&& weights_bounded(w)
}

proof fn lemma_table_cur(n: int, seg: Seq<usize>, left: Option<usize>, len: int, w: Seq<i64>, pos: Seq<usize>,
    states: int, dp: Seq<i64>, parent: Seq<u8>, paths: Seq<Seq<int>>, cur: int, cur2: int)
    requires
        table_ok(n, seg, left, len, w, pos, states, dp, parent, paths, cur),
        cur <= cur2,
    ensures
        table_ok(n, seg, left, len, w, pos, states, dp, parent, paths, cur2),
{
    assert forall|m: int, l: int| 0 <= m < states && 0 <= l < len implies
        #[trigger] cell_ok(n, seg, left, len, w, pos, dp, parent, paths, m, l, cur2) by {
        assert(cell_ok(n, seg, left, len, w, pos, dp, parent, paths, m, l, cur));
    }
}

/// Tries every fresh cell after entry `(mask, last)` and keeps the better
/// scores in the entries of the larger subsets.
fn relax_entry(seg: &Vec<usize>, left: Ghost<Option<usize>>, n: usize, weights: &[i64], pos_list: &Vec<usize>, len: usize,
    states: usize, mask: usize, last: usize, dp: &mut Vec<i64>, parent: &mut Vec<u8>, paths: Ghost<Seq<Seq<int>>>)
    -> (res: Ghost<Seq<Seq<int>>>)
    requires
        window_input(n as int, seg@, len as int, weights@, pos_list@),
        states == (1usize << len),
        1 <= states <= 4096,
        1 <= mask < states,
        last < len,
        table_ok(n as int, seg@, left@, len as int, weights@, pos_list@, states as int, old(dp)@, old(parent)@, paths@, mask + 1),
    ensures
        table_ok(n as int, seg@, left@, len as int, weights@, pos_list@, states as int, final(dp)@, final(parent)@, res@, mask + 1),
        forall|i: int| 0 <= i < old(dp)@.len() ==> #[trigger] final(dp)@[i] >= old(dp)@[i],
        old(dp)@[slot(mask as int, last as int, len as int)] != NEG_INF && ubit(mask, last as int) ==>
            forall|x: int| 0 <= x < len && !ubit(mask, x) && adjacent(n as int, seg@[last as int] as int, seg@[x] as int) ==>
                #[trigger] final(dp)@[slot((mask | (1usize << (x as usize))) as int, x, len as int)]
                    >= old(dp)@[slot(mask as int, last as int, len as int)] + pos_list@[ones_usize(mask, len as int) as int] * weights@[seg@[x] as int],
{
    let ghost dp0 = dp@;
    let ghost sg = seg@;
    let ghost w = weights@;
    let ghost lf = left@;
    let ghost mut pt = paths@;
    let width = len;
    proof {
        assert(states * len <= 49152) by (nonlinear_arith) requires states <= 4096, len <= 12;
        lemma_slot(mask as int, last as int, len as int, states as int);
        assert(cell_ok(n as int, sg, lf, len as int, w, pos_list@, dp@, parent@, pt, mask as int, last as int, mask + 1));
    }
    let src = mask * width + last;
    let cur = dp[src];
    proof {
        lemma_bit_set(mask, last, last);
    }
    if cur == NEG_INF || (mask & (1usize << last)) == 0 {
        return Ghost(pt);
    }
    let used = mask.count_ones() as usize;
    proof {
        lemma_ones_upper(mask, len as int, usize::BITS as int);
        lemma_ones_bound(mask, len as int);
    }
    if used >= len {
        proof {
            lemma_ones_all(mask, len as int);
        }
        return Ghost(pt);
    }
    let ghost src_path = pt[src as int];
    proof {
        lemma_path_value_bound(sg, w, pos_list@, src_path);
        assert(src_path.len() * (MAX_CELLS * MAX_WEIGHT) <= 12 * (MAX_CELLS * MAX_WEIGHT)) by (nonlinear_arith)
            requires src_path.len() <= 12;
    }
    let next_pos = pos_list[used];
    let mut nxt: usize = 0;
    while nxt < len
        invariant
            window_input(n as int, sg, len as int, w, pos_list@),
            sg == seg@,
            w == weights@,
            width == len,
            states == (1usize << len),
            1 <= states <= 4096,
            states * len <= 49152,
            1 <= mask < states,
            last < len,
            src == slot(mask as int, last as int, len as int),
            src < states * len,
            used == ones_usize(mask, len as int),
            used < len,
            next_pos == pos_list@[used as int],
            pos_list@[used as int] <= MAX_CELLS,
            nxt <= len,
            cur != NEG_INF,
            dp@[src as int] == cur,
            pt[src as int] == src_path,
            slot_ok(n as int, sg, lf, len as int, w, pos_list@, mask, last as int, src_path, cur as int),
            -(12 * (MAX_CELLS * MAX_WEIGHT)) <= cur <= 12 * (MAX_CELLS * MAX_WEIGHT),
            table_ok(n as int, sg, lf, len as int, w, pos_list@, states as int, dp@, parent@, pt, mask + 1),
            dp0.len() == dp@.len(),
            dp0[src as int] == cur,
            forall|i: int| 0 <= i < dp0.len() ==> #[trigger] dp@[i] >= dp0[i],
            forall|x: int| 0 <= x < nxt && !ubit(mask, x) && adjacent(n as int, sg[last as int] as int, sg[x] as int) ==>
                #[trigger] dp@[slot((mask | (1usize << (x as usize))) as int, x, len as int)] >= cur + next_pos * w[sg[x] as int],
        decreases len - nxt,
    {
        proof {
            lemma_bit_set(mask, nxt, nxt);
        }
        if (mask & (1usize << nxt)) == 0 && is_adj(seg[last], seg[nxt], n) {
            let next_mask = mask | (1usize << nxt);
            proof {
                lemma_bit_set(mask, nxt, nxt);
                lemma_bit_order(mask, nxt);
                lemma_bit_range(mask, len, nxt, len);
                lemma_slot(next_mask as int, nxt as int, len as int, states as int);
                let x = w[sg[nxt as int] as int];
                let t = next_pos as int;
                assert(-(MAX_CELLS * MAX_WEIGHT) <= t * x <= MAX_CELLS * MAX_WEIGHT) by (nonlinear_arith)
                    requires 0 <= t <= MAX_CELLS, -MAX_WEIGHT <= x <= MAX_WEIGHT;
            }
            let next_value = cur + next_pos as i64 * weights[seg[nxt]];
            let dst = next_mask * width + nxt;
            if next_value > dp[dst] {
                let ghost old_dp = dp@;
                let ghost old_dp_b = dp@;
                let ghost old_parent = parent@;
                let ghost old_paths = pt;
                dp.set(dst, next_value);
                parent.set(dst, last as u8);
                proof {
                    let p = src_path.push(nxt as int);
                    pt = pt.update(dst as int, p);
                    lemma_extend_slot(n as int, sg, lf, len as int, w, pos_list@, mask, last as int,
                        src_path, cur as int, nxt as int, next_mask, next_value as int);
                    lemma_bit_set(next_mask, nxt, nxt);
                    assert(p.drop_last() =~= src_path);
                    lemma_table_write(n as int, sg, lf, len as int, w, pos_list@, states as int, mask + 1,
                        old_dp, old_parent, old_paths, dp@, parent@, pt, next_mask as int, nxt as int, p,
                        next_value, last as u8);
                    assert forall|i: int| 0 <= i < dp0.len() implies #[trigger] dp@[i] >= dp0[i] by {
                        assert(dp@[i] >= old_dp_b[i]);
                    }
                    assert forall|x: int| 0 <= x < nxt && !ubit(mask, x) && adjacent(n as int, sg[last as int] as int, sg[x] as int) implies
                        #[trigger] dp@[slot((mask | (1usize << (x as usize))) as int, x, len as int)] >= cur + next_pos * w[sg[x] as int] by {
                        let d = slot((mask | (1usize << (x as usize))) as int, x, len as int);
                        lemma_bit_range(mask, len, x as usize, len);
                        lemma_slot((mask | (1usize << (x as usize))) as int, x, len as int, states as int);
                        assert(old_dp_b[d] >= cur + next_pos * w[sg[x] as int]);
                        assert(dp@[d] >= old_dp_b[d]);
                    }
                }
            }
        }
        nxt += 1;
    }
    Ghost(pt)
}

/// Entry `(m, l)` is unreachable or realised by a one-cell path.
pub open spec fn seed_ok(n: int, seg: Seq<usize>, left: Option<usize>, len: int, w: Seq<i64>, pos: Seq<usize>,
    dp: Seq<i64>, paths: Seq<Seq<int>>, m: int, l: int) -> bool {
    entry_ok(n, seg, left, len, w, pos, dp, paths, m, l)
    && (dp[slot(m, l, len)] != NEG_INF ==> paths[slot(m, l, len)].len() == 1)
}

/// The tables after seeding the one-cell entries.
pub open spec fn seeded_ok(n: int, seg: Seq<usize>, left: Option<usize>, len: int, w: Seq<i64>, pos: Seq<usize>,
    states: int, dp: Seq<i64>, paths: Seq<Seq<int>>) -> bool {
    &&& dp.len() == states * len
    &&& paths.len() == states * len
    &&& forall|m: int, l: int| 0 <= m < states && 0 <= l < len ==>
        #[trigger] seed_ok(n, seg, left, len, w, pos, dp, paths, m, l)
}

proof fn lemma_seed_write(n: int, seg: Seq<usize>, left: Option<usize>, len: int, w: Seq<i64>, pos: Seq<usize>,
    states: int, old_dp: Seq<i64>, old_paths: Seq<Seq<int>>, dp: Seq<i64>, paths: Seq<Seq<int>>,
    first: int, value: i64)
    requires
        1 <= len <= 12,
        1 <= states,
        seeded_ok(n, seg, left, len, w, pos, states, old_dp, old_paths),
        0 <= first < len,
        (1usize << (first as usize)) < states,
        dp == old_dp.update(slot((1usize << (first as usize)) as int, first, len), value),
        paths == old_paths.update(slot((1usize << (first as usize)) as int, first, len), seq![first]),
        value != NEG_INF,
        slot_ok(n, seg, left, len, w, pos, 1usize << (first as usize), first, seq![first], value as int),
    ensures
        seeded_ok(n, seg, left, len, w, pos, states, dp, paths),
{
    let mask = (1usize << (first as usize)) as int;
    lemma_slot(mask, first, len, states);
    assert forall|m: int, l: int| 0 <= m < states && 0 <= l < len implies
        #[trigger] seed_ok(n, seg, left, len, w, pos, dp, paths, m, l) by {
        assert(seed_ok(n, seg, left, len, w, pos, old_dp, old_paths, m, l));
        lemma_slot(m, l, len, states);
    }
}

proof fn lemma_seeded_table(n: int, seg: Seq<usize>, left: Option<usize>, len: int, w: Seq<i64>, pos: Seq<usize>,
    states: int, dp: Seq<i64>, parent: Seq<u8>, paths: Seq<Seq<int>>)
    requires
        seeded_ok(n, seg, left, len, w, pos, states, dp, paths),
        parent.len() == states * len,
    ensures
        table_ok(n, seg, left, len, w, pos, states, dp, parent, paths, 1),
{
    assert forall|m: int, l: int| 0 <= m < states && 0 <= l < len implies
        #[trigger] cell_ok(n, seg, left, len, w, pos, dp, parent, paths, m, l, 1) by {
        assert(seed_ok(n, seg, left, len, w, pos, dp, paths, m, l));
    }
}

/// The subset of window cells that `path` visits, as a bit mask.
pub open spec fn mask_of(path: Seq<int>) -> usize
    decreases path.len(),
{
    if path.len() == 0 {
        0usize
    } else {
        mask_of(path.drop_last()) | (1usize << (path.last() as usize))
    }
}

/// `path` lists distinct window indices below `len` (possibly none).
pub open spec fn distinct_below(len: int, path: Seq<int>) -> bool {
    &&& forall|k: int| 0 <= k < path.len() ==> 0 <= #[trigger] path[k] < len
    &&& path.no_duplicates()
}

pub(crate) proof fn lemma_zero_bits(i: usize)
    by (bit_vector)
    requires
        i < 12,
    ensures
        !((0usize >> i) & 1usize == 1usize),
        (0usize | (1usize << i)) == (1usize << i),
{
}

proof fn lemma_ones_zero(k: int)
    requires
        0 <= k <= 12,
    ensures
        ones_usize(0usize, k) == 0,
    decreases k,
{
    if k > 0 {
        lemma_ones_zero(k - 1);
        lemma_zero_bits((k - 1) as usize);
    }
}

/// The mask of a path of distinct indices below `len` fits in `len` bits,
/// has exactly the path's indices set, and counts the path's cells.
pub(crate) proof fn lemma_mask_of(len: int, path: Seq<int>)
    requires
        1 <= len <= 12,
        distinct_below(len, path),
    ensures
        mask_of(path) < (1usize << (len as usize)),
        forall|i: int| 0 <= i < 12 ==> (ubit(mask_of(path), i) <==> path.contains(i)),
        ones_usize(mask_of(path), len) == path.len(),
    decreases path.len(),
{
    lemma_states(len as usize);
    if path.len() == 0 {
        lemma_ones_zero(len);
        assert forall|i: int| 0 <= i < 12 implies (ubit(mask_of(path), i) <==> path.contains(i)) by {
            lemma_zero_bits(i as usize);
        }
    } else {
        let q = path.drop_last();
        let x = path.last();
        assert(distinct_below(len, q)) by {
            assert forall|a: int, b: int| 0 <= a < b < q.len() implies q[a] != q[b] by {
                assert(path[a] != path[b]);
            }
        }
        lemma_mask_of(len, q);
        let m = mask_of(q);
        assert(!q.contains(x)) by {
            if q.contains(x) {
                let j = choose|j: int| 0 <= j < q.len() && q[j] == x;
                assert(path[j] == path[path.len() - 1]);
            }
        }
        assert(!ubit(m, x));
        lemma_bit_range(m, len as usize, x as usize, len as usize);
        lemma_ones_set(m, x, len);
        assert forall|i: int| 0 <= i < 12 implies (ubit(mask_of(path), i) <==> path.contains(i)) by {
            lemma_bit_set(m, x as usize, i as usize);
            if q.contains(i) {
                let j = choose|j: int| 0 <= j < q.len() && q[j] == i;
                assert(path[j] == i);
            }
            if path.contains(i) && i != x {
                let j = choose|j: int| 0 <= j < path.len() && path[j] == i;
                assert(j < q.len());
                assert(q[j] == i);
            }
            assert(path[path.len() - 1] == x);
        }
    }
}

proof fn lemma_twelve_bits(a: usize, b: usize)
    by (bit_vector)
    requires
        a < 4096,
        b < 4096,
        (a >> 0usize) & 1usize == (b >> 0usize) & 1usize,
        (a >> 1usize) & 1usize == (b >> 1usize) & 1usize,
        (a >> 2usize) & 1usize == (b >> 2usize) & 1usize,
        (a >> 3usize) & 1usize == (b >> 3usize) & 1usize,
        (a >> 4usize) & 1usize == (b >> 4usize) & 1usize,
        (a >> 5usize) & 1usize == (b >> 5usize) & 1usize,
        (a >> 6usize) & 1usize == (b >> 6usize) & 1usize,
        (a >> 7usize) & 1usize == (b >> 7usize) & 1usize,
        (a >> 8usize) & 1usize == (b >> 8usize) & 1usize,
        (a >> 9usize) & 1usize == (b >> 9usize) & 1usize,
        (a >> 10usize) & 1usize == (b >> 10usize) & 1usize,
        (a >> 11usize) & 1usize == (b >> 11usize) & 1usize,
    ensures
        a == b,
{
}

proof fn lemma_bit_value(a: usize, i: usize)
    by (bit_vector)
    ensures
        (a >> i) & 1usize == 0usize || (a >> i) & 1usize == 1usize,
{
}

/// Two masks below `2^len` with the same bits below `len` are equal.
pub(crate) proof fn lemma_mask_eq(a: usize, b: usize, len: int)
    requires
        1 <= len <= 12,
        a < (1usize << (len as usize)),
        b < (1usize << (len as usize)),
        forall|i: int| 0 <= i < len ==> (ubit(a, i) <==> ubit(b, i)),
    ensures
        a == b,
{
    lemma_states(len as usize);
    assert forall|i: usize| i < 12 implies (a >> i) & 1usize == (b >> i) & 1usize by {
        lemma_bit_value(a, i);
        lemma_bit_value(b, i);
        if (i as int) < len {
            assert(ubit(a, i as int) <==> ubit(b, i as int));
        } else {
            lemma_bit_range(a, len as usize, 0, i);
            lemma_bit_range(b, len as usize, 0, i);
        }
    }
    assert((a >> 0usize) & 1usize == (b >> 0usize) & 1usize);
    assert((a >> 1usize) & 1usize == (b >> 1usize) & 1usize);
    assert((a >> 2usize) & 1usize == (b >> 2usize) & 1usize);
    assert((a >> 3usize) & 1usize == (b >> 3usize) & 1usize);
    assert((a >> 4usize) & 1usize == (b >> 4usize) & 1usize);
    assert((a >> 5usize) & 1usize == (b >> 5usize) & 1usize);
    assert((a >> 6usize) & 1usize == (b >> 6usize) & 1usize);
    assert((a >> 7usize) & 1usize == (b >> 7usize) & 1usize);
    assert((a >> 8usize) & 1usize == (b >> 8usize) & 1usize);
    assert((a >> 9usize) & 1usize == (b >> 9usize) & 1usize);
    assert((a >> 10usize) & 1usize == (b >> 10usize) & 1usize);
    assert((a >> 11usize) & 1usize == (b >> 11usize) & 1usize);
    lemma_twelve_bits(a, b);
}

/// `dp` holds at least the value of `path` in the entry of its cells and
/// last cell.
pub open spec fn win_dominates(seg: Seq<usize>, len: int, w: Seq<i64>, pos: Seq<usize>, dp: Seq<i64>, path: Seq<int>) -> bool {
    dp[slot(mask_of(path) as int, path.last(), len)] >= path_value(seg, w, pos, path)
}

/// A king-move path of one cell, or one whose cells before the last form
/// a subset below `cur`.
pub open spec fn win_reached(n: int, seg: Seq<usize>, left: Option<usize>, len: int, path: Seq<int>, cur: int) -> bool {
    good_path(n, seg, left, len, path) && (path.len() == 1 || mask_of(path.drop_last()) < cur)
}

/// Every path reached below `cur` is dominated by the table.
pub open spec fn win_complete(n: int, seg: Seq<usize>, left: Option<usize>, len: int, w: Seq<i64>, pos: Seq<usize>,
    dp: Seq<i64>, cur: int) -> bool {
    forall|p: Seq<int>| #[trigger] win_reached(n, seg, left, len, p, cur) ==> win_dominates(seg, len, w, pos, dp, p)
}

/// A king-move path whose cells before the last form subset `cur` and
/// whose second last cell is below `k`.
pub open spec fn win_step_path(n: int, seg: Seq<usize>, left: Option<usize>, len: int, path: Seq<int>, cur: int, k: int) -> bool {
    good_path(n, seg, left, len, path) && path.len() >= 2 && mask_of(path.drop_last()) == cur && path[path.len() - 2] < k
}

/// Every such path is dominated by the table.
pub open spec fn win_partial(n: int, seg: Seq<usize>, left: Option<usize>, len: int, w: Seq<i64>, pos: Seq<usize>,
    dp: Seq<i64>, cur: int, k: int) -> bool {
    forall|p: Seq<int>| #[trigger] win_step_path(n, seg, left, len, p, cur, k) ==> win_dominates(seg, len, w, pos, dp, p)
}

/// The seed entry of window cell `x` holds at least the value of `[x]`
/// when `x` may follow `left`.
pub open spec fn win_seed_dom(n: int, seg: Seq<usize>, left: Option<usize>, len: int, w: Seq<i64>, pos: Seq<usize>,
    dp: Seq<i64>, x: int) -> bool {
    (left matches Some(c) ==> adjacent(n, c as int, seg[x] as int))
        ==> dp[slot((1usize << (x as usize)) as int, x, len)] >= path_value(seg, w, pos, seq![x])
}

proof fn lemma_win_path_facts(n: int, seg: Seq<usize>, left: Option<usize>, len: int, path: Seq<int>, states: int)
    requires
        1 <= len <= 12,
        states == (1usize << (len as usize)),
        good_path(n, seg, left, len, path),
    ensures
        distinct_below(len, path),
        mask_of(path) < states,
        path.len() <= len,
        0 <= slot(mask_of(path) as int, path.last(), len) < states * len,
{
    lemma_mask_of(len, path);
    lemma_ones_bound(mask_of(path), len);
    lemma_slot(mask_of(path) as int, path.last(), len, states);
}

proof fn lemma_win_complete_mono(n: int, seg: Seq<usize>, left: Option<usize>, len: int, w: Seq<i64>, pos: Seq<usize>,
    states: int, dp0: Seq<i64>, dp1: Seq<i64>, cur: int, k: int)
    requires
        1 <= len <= 12,
        states == (1usize << (len as usize)),
        dp0.len() == states * len,
        dp1.len() == dp0.len(),
        forall|i: int| 0 <= i < dp0.len() ==> #[trigger] dp1[i] >= dp0[i],
        win_complete(n, seg, left, len, w, pos, dp0, cur),
        win_partial(n, seg, left, len, w, pos, dp0, cur, k),
    ensures
        win_complete(n, seg, left, len, w, pos, dp1, cur),
        win_partial(n, seg, left, len, w, pos, dp1, cur, k),
{
    assert forall|p: Seq<int>| #[trigger] win_reached(n, seg, left, len, p, cur) implies win_dominates(seg, len, w, pos, dp1, p) by {
        lemma_win_path_facts(n, seg, left, len, p, states);
        assert(win_dominates(seg, len, w, pos, dp0, p));
    }
    assert forall|p: Seq<int>| #[trigger] win_step_path(n, seg, left, len, p, cur, k) implies win_dominates(seg, len, w, pos, dp1, p) by {
        lemma_win_path_facts(n, seg, left, len, p, states);
        assert(win_dominates(seg, len, w, pos, dp0, p));
    }
}

proof fn lemma_win_relax_step(n: int, seg: Seq<usize>, left: Option<usize>, len: int, w: Seq<i64>, pos: Seq<usize>,
    states: int, dp0: Seq<i64>, dp1: Seq<i64>, cur: usize, last: int)
    requires
        window_input(n, seg, len, w, pos),
        states == (1usize << (len as usize)),
        1 <= cur < states,
        0 <= last < len,
        dp0.len() == states * len,
        dp1.len() == dp0.len(),
        forall|i: int| 0 <= i < dp0.len() ==> #[trigger] dp1[i] >= dp0[i],
        win_complete(n, seg, left, len, w, pos, dp0, cur as int),
        win_partial(n, seg, left, len, w, pos, dp0, cur as int, last),
        dp0[slot(cur as int, last, len)] != NEG_INF && ubit(cur, last) ==>
            forall|x: int| 0 <= x < len && !ubit(cur, x) && adjacent(n, seg[last] as int, seg[x] as int) ==>
                #[trigger] dp1[slot((cur | (1usize << (x as usize))) as int, x, len)]
                    >= dp0[slot(cur as int, last, len)] + pos[ones_usize(cur, len) as int] * w[seg[x] as int],
    ensures
        win_complete(n, seg, left, len, w, pos, dp1, cur as int),
        win_partial(n, seg, left, len, w, pos, dp1, cur as int, last + 1),
{
    lemma_win_complete_mono(n, seg, left, len, w, pos, states, dp0, dp1, cur as int, last);
    assert forall|p: Seq<int>| #[trigger] win_step_path(n, seg, left, len, p, cur as int, last + 1)
        implies win_dominates(seg, len, w, pos, dp1, p) by {
        if p[p.len() - 2] < last {
            assert(win_step_path(n, seg, left, len, p, cur as int, last));
        } else {
            let q = p.drop_last();
            let x = p.last();
            lemma_win_path_facts(n, seg, left, len, p, states);
            assert(good_path(n, seg, left, len, q)) by {
                assert forall|a: int, b: int| 0 <= a < b < q.len() implies q[a] != q[b] by {
                    assert(p[a] != p[b]);
                }
                assert forall|k: int| 0 <= k < q.len() - 1 implies #[trigger] adjacent(n, seg[q[k]] as int, seg[q[k + 1]] as int) by {
                    assert(adjacent(n, seg[p[k]] as int, seg[p[k + 1]] as int));
                }
            }
            lemma_mask_of(len, q);
            lemma_win_path_facts(n, seg, left, len, q, states);
            assert(q.last() == last);
            assert(q.contains(last));
            assert(!q.contains(x)) by {
                if q.contains(x) {
                    let j = choose|j: int| 0 <= j < q.len() && q[j] == x;
                    assert(p[j] == p[p.len() - 1]);
                }
            }
            let k2 = p.len() - 2;
            assert(adjacent(n, seg[p[k2]] as int, seg[p[k2 + 1]] as int));
            assert(p[k2 + 1] == x);
            if q.len() >= 2 {
                let q2 = q.drop_last();
                assert(distinct_below(len, q2)) by {
                    assert forall|a: int, b: int| 0 <= a < b < q2.len() implies q2[a] != q2[b] by {
                        assert(q[a] != q[b]);
                    }
                }
                lemma_mask_of(len, q2);
                assert(!q2.contains(last)) by {
                    if q2.contains(last) {
                        let j = choose|j: int| 0 <= j < q2.len() && q2[j] == last;
                        assert(q[j] == q[q.len() - 1]);
                    }
                }
                lemma_bit_order(mask_of(q2), last as usize);
            }
            assert(win_reached(n, seg, left, len, q, cur as int));
            assert(win_dominates(seg, len, w, pos, dp0, q));
            lemma_path_value_bound(seg, w, pos, q);
            assert(q.len() * (MAX_CELLS * MAX_WEIGHT) <= 12 * (MAX_CELLS * MAX_WEIGHT)) by (nonlinear_arith) requires q.len() <= 12;
            assert(dp0[slot(cur as int, last, len)] != NEG_INF);
            assert(p.drop_last() == q);
            assert(mask_of(p) == cur | (1usize << (x as usize)));
        }
    }
}

proof fn lemma_win_complete_next(n: int, seg: Seq<usize>, left: Option<usize>, len: int, w: Seq<i64>, pos: Seq<usize>,
    dp: Seq<i64>, cur: int)
    requires
        win_complete(n, seg, left, len, w, pos, dp, cur),
        win_partial(n, seg, left, len, w, pos, dp, cur, len),
    ensures
        win_complete(n, seg, left, len, w, pos, dp, cur + 1),
{
    assert forall|p: Seq<int>| #[trigger] win_reached(n, seg, left, len, p, cur + 1) implies win_dominates(seg, len, w, pos, dp, p) by {
        if p.len() == 1 || mask_of(p.drop_last()) < cur {
            assert(win_reached(n, seg, left, len, p, cur));
        } else {
            assert(0 <= p[p.len() - 2] < len);
            assert(win_step_path(n, seg, left, len, p, cur, len));
        }
    }
}

/// Fills the table of best scores over subsets of the window cells `seg[..len]`
/// (entry `(mask, last)`: the best way to visit the cells of `mask` from
/// steps `pos[0], pos[1], ...`, right after `left`, ending at `seg[last]`) and the
/// table of predecessors.
pub(crate) fn fill_window_table(seg: &Vec<usize>, left: Option<usize>, n: usize, weights: &[i64], pos_list: &Vec<usize>, len: usize)
    -> (res: (Vec<i64>, Vec<u8>, Ghost<Seq<Seq<int>>>))
    requires
        window_input(n as int, seg@, len as int, weights@, pos_list@),
    ensures
        1 <= (1usize << len) <= 4096,
        table_ok(n as int, seg@, left, len as int, weights@, pos_list@, (1usize << len) as int,
            res.0@, res.1@, res.2@, (1usize << len) as int),
        win_complete(n as int, seg@, left, len as int, weights@, pos_list@, res.0@, (1usize << len) as int),
{
    let states = 1usize << len;
    proof {
        lemma_states(len);
        assert(states * len <= 49152) by (nonlinear_arith) requires states <= 4096, len <= 12;
    }
    let width = len;
    let mut dp: Vec<i64> = vec![NEG_INF; states * width];
    let mut parent: Vec<u8> = vec![u8::MAX; states * width];
    let ghost mut paths: Seq<Seq<int>> = Seq::new((states * width) as nat, |i: int| Seq::<int>::empty());
    let ghost sg = seg@;
    let ghost w = weights@;
    proof {
        assert forall|m: int, l: int| 0 <= m < states && 0 <= l < len implies
            #[trigger] seed_ok(n as int, sg, left, len as int, w, pos_list@, dp@, paths, m, l) by {
            lemma_slot(m, l, len as int, states as int);
        }
    }
    let mut first: usize = 0;
    while first < len
        invariant
            window_input(n as int, sg, len as int, w, pos_list@),
            width == len,
            sg == seg@,
            w == weights@,
            states == (1usize << len),
            1 <= states <= 4096,
            states * width <= 49152,
            first <= len,
            parent@.len() == states * width,
            seeded_ok(n as int, sg, left, len as int, w, pos_list@, states as int, dp@, paths),
            forall|x: int| 0 <= x < first ==> #[trigger] win_seed_dom(n as int, sg, left, len as int, w, pos_list@, dp@, x),
        decreases len - first,
    {
        let fits = match left {
            Some(c) => is_adj(c, seg[first], n),
            None => true,
        };
        if fits {
            let mask = 1usize << first;
            proof {
                lemma_bit_range(0, len, first, len);
                lemma_slot(mask as int, first as int, len as int, states as int);
                lemma_ones_single(first as int, len as int);
                let x = w[sg[first as int] as int];
                let t = pos_list@[0] as int;
                assert(-(MAX_CELLS * MAX_WEIGHT) <= t * x <= MAX_CELLS * MAX_WEIGHT) by (nonlinear_arith)
                    requires 0 <= t <= MAX_CELLS, -MAX_WEIGHT <= x <= MAX_WEIGHT;
            }
            let idx = mask * width + first;
            let value = pos_list[0] as i64 * weights[seg[first]];
            let ghost old_dp = dp@;
            let ghost old_paths = paths;
            dp.set(idx, value);
            proof {
                let p = seq![first as int];
                paths = paths.update(idx as int, p);
                assert(p.drop_last() =~= Seq::<int>::empty());
                assert forall|i: int| 0 <= i < len implies (ubit(mask, i) <==> p.contains(i)) by {
                    lemma_bit_set(0, first, i as usize);
                    if i == first {
                        assert(p[0] == i);
                    }
                }
                assert(good_path(n as int, sg, left, len as int, p));
                assert(path_value(sg, w, pos_list@, p.drop_last()) == 0);
                assert(path_value(sg, w, pos_list@, p) == value);
                lemma_seed_write(n as int, sg, left, len as int, w, pos_list@, states as int, old_dp, old_paths,
                    dp@, paths, first as int, value);
                assert forall|x: int| 0 <= x < first + 1 implies #[trigger] win_seed_dom(n as int, sg, left, len as int, w, pos_list@, dp@, x) by {
                    if x < first {
                        assert(win_seed_dom(n as int, sg, left, len as int, w, pos_list@, old_dp, x));
                        lemma_bit_range(0, len, x as usize, len);
                        lemma_slot((1usize << (x as usize)) as int, x, len as int, states as int);
                        assert(slot((1usize << (x as usize)) as int, x, len as int) != idx);
                    } else {
                        assert(seq![x] =~= p);
                    }
                }
            }
        }
        first += 1;
    }
    proof {
        lemma_seeded_table(n as int, sg, left, len as int, w, pos_list@, states as int, dp@, parent@, paths);
        assert forall|p: Seq<int>| #[trigger] win_reached(n as int, sg, left, len as int, p, 1) implies
            win_dominates(sg, len as int, w, pos_list@, dp@, p) by {
            if p.len() == 1 {
                let x = p[0];
                assert(p =~= seq![x]);
                assert(p.drop_last() =~= Seq::<int>::empty());
                lemma_zero_bits(x as usize);
                assert(mask_of(Seq::<int>::empty()) == 0usize);
                assert(mask_of(p) == (1usize << (x as usize)));
                assert(p.last() == x);
                assert(win_seed_dom(n as int, sg, left, len as int, w, pos_list@, dp@, x));
            } else {
                let q = p.drop_last();
                assert(distinct_below(len as int, q)) by {
                    assert forall|a: int, b: int| 0 <= a < b < q.len() implies q[a] != q[b] by {
                        assert(p[a] != p[b]);
                    }
                }
                lemma_mask_of(len as int, q);
                assert(q.contains(q.last()));
                lemma_zero_bits(q.last() as usize);
                assert(ubit(mask_of(q), q.last()));
                assert(mask_of(q) != 0usize);
                assert(false);
            }
        }
    }
    let mut mask: usize = 1;
    while mask < states
        invariant
            window_input(n as int, sg, len as int, w, pos_list@),
            sg == seg@,
            w == weights@,
            states == (1usize << len),
            1 <= states <= 4096,
            1 <= mask <= states,
            table_ok(n as int, sg, left, len as int, w, pos_list@, states as int, dp@, parent@, paths, mask as int),
            win_complete(n as int, sg, left, len as int, w, pos_list@, dp@, mask as int),
        decreases states - mask,
    {
        proof {
            lemma_table_cur(n as int, sg, left, len as int, w, pos_list@, states as int, dp@, parent@, paths, mask as int, mask + 1);
        }
        let mut last: usize = 0;
        while last < len
            invariant
                window_input(n as int, sg, len as int, w, pos_list@),
                sg == seg@,
                w == weights@,
                states == (1usize << len),
                1 <= states <= 4096,
                1 <= mask < states,
                last <= len,
                table_ok(n as int, sg, left, len as int, w, pos_list@, states as int, dp@, parent@, paths, mask + 1),
                win_complete(n as int, sg, left, len as int, w, pos_list@, dp@, mask as int),
                win_partial(n as int, sg, left, len as int, w, pos_list@, dp@, mask as int, last as int),
            decreases len - last,
        {
            let ghost dp_before = dp@;
            let pg = relax_entry(seg, Ghost(left), n, weights, pos_list, len, states, mask, last, &mut dp, &mut parent, Ghost(paths));
            proof {
                paths = pg@;
                lemma_win_relax_step(n as int, sg, left, len as int, w, pos_list@, states as int, dp_before, dp@, mask, last as int);
            }
            last += 1;
        }
        proof {
            lemma_win_complete_next(n as int, sg, left, len as int, w, pos_list@, dp@, mask as int);
        }
        mask += 1;
    }
    (dp, parent, Ghost(paths))
}

/// Follows the predecessors back from entry `(full, best_last)`: the
/// returned order starts with the path recorded for that entry.
pub(crate) fn trace_back(parent: &Vec<u8>, n: Ghost<int>, seg: Ghost<Seq<usize>>, left: Ghost<Option<usize>>, w: Ghost<Seq<i64>>,
    posg: Ghost<Seq<usize>>, dp: Ghost<Seq<i64>>, paths: Ghost<Seq<Seq<int>>>, len: usize, states: usize, best_last: usize)
    -> (order: Vec<usize>)
    requires
        1 <= len <= MAX_WINDOW,
        states == (1usize << len),
        1 <= states <= 4096,
        best_last < len,
        table_ok(n@, seg@, left@, len as int, w@, posg@, states as int, dp@, parent@, paths@, states as int),
        dp@[slot(states - 1, best_last as int, len as int)] != NEG_INF,
    ensures
        order@.len() == MAX_WINDOW,
        paths@[slot(states - 1, best_last as int, len as int)].len() == len,
        forall|k: int| 0 <= k < len ==> #[trigger] order@[k] == paths@[slot(states - 1, best_last as int, len as int)][k],
{
    let ghost pt = paths@;
    let ghost target = pt[slot(states - 1, best_last as int, len as int)];
    let full = states - 1;
    let width = len;
    proof {
        lemma_states(len);
        lemma_slot(full as int, best_last as int, len as int, states as int);
        assert(cell_ok(n@, seg@, left@, len as int, w@, posg@, dp@, parent@, pt, full as int, best_last as int, states as int));
        lemma_ones_full(len as int, full, len as int);
        assert(states * len <= 49152) by (nonlinear_arith) requires states <= 4096, len <= 12;
        assert(target.subrange(0, len as int) =~= target);
    }
    let mut order: Vec<usize> = vec![0usize; MAX_WINDOW];
    let mut mask = full;
    let mut last = best_last;
    let mut pos = len - 1;
    while pos > 0
        invariant
            1 <= len <= MAX_WINDOW,
            width == len,
            states == (1usize << len),
            1 <= states <= 4096,
            states * len <= 49152,
            table_ok(n@, seg@, left@, len as int, w@, posg@, states as int, dp@, parent@, pt, states as int),
            target.len() == len,
            pos < len,
            mask < states,
            last < len,
            dp@[slot(mask as int, last as int, len as int)] != NEG_INF,
            pt[slot(mask as int, last as int, len as int)] == target.subrange(0, pos + 1),
            order@.len() == MAX_WINDOW,
            forall|k: int| pos < k < len ==> order@[k] == #[trigger] target[k],
        decreases pos,
    {
        proof {
            lemma_slot(mask as int, last as int, len as int, states as int);
            assert(cell_ok(n@, seg@, left@, len as int, w@, posg@, dp@, parent@, pt, mask as int, last as int, states as int));
            assert(target.subrange(0, pos + 1).last() == target[pos as int]);
        }
        order.set(pos, last);
        let prev = parent[mask * width + last];
        proof {
            let src = ((mask as usize) ^ (1usize << (last as usize))) as int;
            assert(target.subrange(0, pos + 1).drop_last() =~= target.subrange(0, pos as int));
            lemma_slot(src, prev as int, len as int, states as int);
        }
        mask = mask ^ (1usize << last);
        last = prev as usize;
        pos -= 1;
    }
    proof {
        lemma_slot(mask as int, last as int, len as int, states as int);
        assert(cell_ok(n@, seg@, left@, len as int, w@, posg@, dp@, parent@, pt, mask as int, last as int, states as int));
        assert(target.subrange(0, 1).last() == target[0]);
    }
    order.set(0, last);
    order
}

/// Raw prefix scores of two routes that agree beyond `e` differ by the same
/// amount at `e` and at the end.
pub proof fn lemma_suffix_agree(a: Seq<usize>, b: Seq<usize>, w: Seq<i64>, e: int, k: int)
    requires
        a.len() == b.len(),
        0 <= e <= k <= a.len(),
        forall|i: int| e <= i < a.len() ==> a[i] == b[i],
    ensures
        raw_prefix(a, w, k) - raw_prefix(b, w, k) == raw_prefix(a, w, e) - raw_prefix(b, w, e),
    decreases k - e,
{
    if k > e {
        lemma_suffix_agree(a, b, w, e, k - 1);
    }
}

/// The prefix scores of the new window are the path scores of its prefixes.
proof fn lemma_window_prefix(route: Seq<usize>, seg: Seq<usize>, w: Seq<i64>, start: int, pos: Seq<usize>, path: Seq<int>, k: int)
    requires
        0 <= start,
        0 <= k <= path.len(),
        path.len() <= pos.len(),
        start + path.len() <= route.len(),
        forall|i: int| 0 <= i < path.len() ==> route[start + i] == seg[#[trigger] path[i]],
        forall|i: int| 0 <= i < path.len() ==> #[trigger] pos[i] == start + i,
    ensures
        raw_prefix(route, w, start + k) - raw_prefix(route, w, start) == path_value(seg, w, pos, path.subrange(0, k)),
    decreases k,
{
    if k > 0 {
        lemma_window_prefix(route, seg, w, start, pos, path, k - 1);
        assert(pos[k - 1] == start + k - 1);
        let q = path.subrange(0, k);
        assert(q.drop_last() =~= path.subrange(0, k - 1));
        assert(route[start + k - 1] == seg[path[k - 1]]);
    }
}

/// Replacing a window of a route by a reordering of its own cells keeps it
/// a permutation route.
/// `p` orders the window indices `0..len`, each once.
pub open spec fn window_perm(len: int, p: Seq<int>) -> bool {
    &&& p.len() == len
    &&& p.no_duplicates()
    &&& forall|k: int| 0 <= k < len ==> 0 <= #[trigger] p[k] < len
}

proof fn lemma_ident_perm(len: int)
    requires
        0 <= len,
    ensures
        window_perm(len, Seq::new(len as nat, |k: int| k)),
{
}

proof fn lemma_window_permutation(n: int, old: Seq<usize>, new: Seq<usize>, start: int, len: int, path: Seq<int>)
    requires
        forall|i: int| 0 <= i < old.len() ==> #[trigger] old[i] < n * n,
        old.no_duplicates(),
        new.len() == old.len(),
        0 <= start,
        start + len <= old.len(),
        path.len() == len,
        path.no_duplicates(),
        forall|k: int| 0 <= k < len ==> 0 <= #[trigger] path[k] < len,
        forall|i: int| 0 <= i < old.len() && !(start <= i < start + len) ==> new[i] == old[i],
        forall|k: int| 0 <= k < len ==> new[start + k] == old[start + #[trigger] path[k]],
    ensures
        forall|i: int| 0 <= i < new.len() ==> #[trigger] new[i] < n * n,
        new.no_duplicates(),
{
    assert forall|i: int| 0 <= i < new.len() implies #[trigger] new[i] < n * n by {
        if start <= i < start + len {
            assert(new[start + (i - start)] == old[start + path[i - start]]);
        }
    }
    assert forall|i: int, j: int| 0 <= i < new.len() && 0 <= j < new.len() && i != j implies new[i] != new[j] by {
        let ii = if start <= i < start + len { start + path[i - start] } else { i };
        let jj = if start <= j < start + len { start + path[j - start] } else { j };
        if start <= i < start + len {
            assert(new[start + (i - start)] == old[start + path[i - start]]);
        }
        if start <= j < start + len {
            assert(new[start + (j - start)] == old[start + path[j - start]]);
        }
        assert(new[i] == old[ii]);
        assert(new[j] == old[jj]);
        assert(ii != jj);
    }
}

/// Raw score the steps `start..start + len` of `route` contribute.
pub open spec fn window_local(route: Seq<usize>, w: Seq<i64>, start: int, len: int) -> int {
    raw_prefix(route, w, start + len) - raw_prefix(route, w, start)
}

/// No order of the cells of `route[start..start + len]` that keeps every
/// step a king move (with the cells just before and after the window)
/// contributes more than `v`.
pub open spec fn window_best(n: int, route: Seq<usize>, w: Seq<i64>, start: int, len: int, v: int) -> bool {
    let seg = Seq::new(MAX_WINDOW as nat, |i: int| if i < len { route[start + i] } else { 0usize });
    let left = if start > 0 { Some(route[start - 1]) } else { None };
    let right = if start + len < route.len() { Some(route[start + len]) } else { None };
    let pos = Seq::new(MAX_WINDOW as nat, |i: int| if i < len { (start + i) as usize } else { 0usize });
    paths_at_most(n, seg, left, right, len, w, pos, v)
}

/// No order of all `len` cells of `seg` that keeps every step a king move,
/// after `left` and before `right` where they are given, is worth more than
/// `v` at the steps `pos`.
pub open spec fn paths_at_most(n: int, seg: Seq<usize>, left: Option<usize>, right: Option<usize>, len: int,
    w: Seq<i64>, pos: Seq<usize>, v: int) -> bool {
    forall|p: Seq<int>| #[trigger] good_path(n, seg, left, len, p) && p.len() == len
        && (right matches Some(c) ==> adjacent(n, seg[p.last()] as int, c as int))
        ==> path_value(seg, w, pos, p) <= v
}

/// A path over all `len` window cells visits the full subset and is
/// reached by the completed table.
pub(crate) proof fn lemma_win_full_path(n: int, seg: Seq<usize>, left: Option<usize>, len: int, p: Seq<int>, states: int)
    requires
        1 <= len <= 12,
        states == (1usize << (len as usize)),
        good_path(n, seg, left, len, p),
        p.len() == len,
    ensures
        mask_of(p) == (states - 1) as usize,
        win_reached(n, seg, left, len, p, states),
{
    lemma_states(len as usize);
    lemma_mask_of(len, p);
    lemma_ones_all(mask_of(p), len);
    let full = (states - 1) as usize;
    assert forall|i: int| 0 <= i < len implies (ubit(mask_of(p), i) <==> ubit(full, i)) by {
        lemma_full_mask(len as usize, full, i as usize);
    }
    lemma_mask_eq(mask_of(p), full, len);
    if p.len() > 1 {
        let q = p.drop_last();
        assert(distinct_below(len, q)) by {
            assert forall|a: int, b: int| 0 <= a < b < q.len() implies q[a] != q[b] by {
                assert(p[a] != p[b]);
            }
        }
        lemma_mask_of(len, q);
    }
}

/// What the window search needs of a route: distinct cells of the board of
/// side `n`, at most `MAX_CELLS` of them, and bounded weights for the board.
pub open spec fn window_route_input(n: int, route: Seq<usize>, w: Seq<i64>) -> bool {
    &&& 0 < n
    &&& n * n <= MAX_CELLS
    &&& route.len() <= MAX_CELLS
    &&& forall|i: int| 0 <= i < route.len() ==> #[trigger] route[i] < n * n
    &&& route.no_duplicates()
    &&& w.len() == n * n
    &&& weights_bounded(w)
}

/// Reorders `route[start..start + len]` into the best order that keeps the
/// route a king-move route (found by dynamic programming over subsets of
/// the window; a window may touch either end of the route), when that order
/// scores strictly more than the current one.
/// Returns whether the route changed; the gain in raw score is added to
/// `total_score`. The route may be any sequence of distinct cells; a route
/// that was a king-move route stays one.
#[verifier::rlimit(60)]
#[verifier::spinoff_prover]
pub fn optimize_window(
    route: &mut Vec<usize>,
    weights: &[i64],
    n: usize,
    start: usize,
    len: usize,
    total_score: &mut i64,
) -> (changed: bool)
    requires
        window_route_input(n as int, old(route)@, weights@),
        start + len <= old(route)@.len(),
        len <= MAX_WINDOW,
        -0x4000_0000_0000_0000 <= *old(total_score) <= 0x4000_0000_0000_0000,
    ensures
        window_route_input(n as int, final(route)@, weights@),
        search_input(n as int, old(route)@, weights@) ==> search_input(n as int, final(route)@, weights@),
        changed ==> forall|i: int| #![trigger final(route)@[i]] (if start > 0 { start - 1 } else { 0 }) <= i < start + len
            && i + 1 < final(route)@.len() ==> adjacent(n as int, final(route)@[i] as int, final(route)@[i + 1] as int),
        final(route)@.len() == old(route)@.len(),
        forall|i: int| 0 <= i < old(route)@.len() && !(start <= i < start + len)
            ==> #[trigger] final(route)@[i] == old(route)@[i],
        *final(total_score) == *old(total_score) + (raw_score(final(route)@, weights@) - raw_score(old(route)@, weights@)),
        changed == (final(route)@ != old(route)@),
        changed ==> raw_score(final(route)@, weights@) > raw_score(old(route)@, weights@),
        window_best(n as int, old(route)@, weights@, start as int, len as int,
            window_local(final(route)@, weights@, start as int, len as int)),
        exists|p: Seq<int>| #[trigger] window_perm(len as int, p)
            && forall|k: int| 0 <= k < len ==> final(route)@[start + k] == old(route)@[start + #[trigger] p[k]],
{
    if len == 0 {
        proof {
            assert(window_perm(0, Seq::<int>::empty()));
        }
        return false;
    }
    let ghost old_route = route@;
    let ghost w = weights@;
    proof {
        assert(start + len <= MAX_CELLS);
        assert(n * n >= 1) by (nonlinear_arith) requires n > 0;
    }
    let mut seg: Vec<usize> = vec![0usize; MAX_WINDOW];
    let mut idx: usize = 0;
    while idx < len
        invariant
            route@ == old_route,
            start + len <= MAX_CELLS,
            start + len <= route@.len(),
            idx <= len <= MAX_WINDOW,
            seg@.len() == MAX_WINDOW,
            forall|k: int| 0 <= k < idx ==> #[trigger] seg@[k] == route@[start + k],
            forall|k: int| idx <= k < MAX_WINDOW ==> #[trigger] seg@[k] == 0,
        decreases len - idx,
    {
        seg.set(idx, route[start + idx]);
        idx += 1;
    }
    let left = if start > 0 { Some(route[start - 1]) } else { None };
    let right = if start + len < route.len() { Some(route[start + len]) } else { None };
    proof {
        assert(cells_in(seg@, w.len() as int)) by {
            assert forall|k: int| 0 <= k < seg@.len() implies #[trigger] seg@[k] < w.len() by {
                if k < len {
                    assert(seg@[k] == old_route[start + k]);
                } else {
                    assert(seg@[k] == 0);
                }
            }
        }
    }
    let mut old_local: i64 = 0;
    let mut idx: usize = 0;
    while idx < len
        invariant
            route@ == old_route,
            window_route_input(n as int, old_route, w),
            w == weights@,
            start + len <= MAX_CELLS,
            start + len <= old_route.len(),
            idx <= len <= MAX_WINDOW,
            seg@.len() == MAX_WINDOW,
            forall|k: int| 0 <= k < len ==> #[trigger] seg@[k] == old_route[start + k],
            cells_in(seg@, w.len() as int),
            old_local == raw_prefix(old_route, w, start + idx) - raw_prefix(old_route, w, start as int),
            -(idx * (MAX_CELLS * MAX_WEIGHT)) <= old_local <= idx * (MAX_CELLS * MAX_WEIGHT),
        decreases len - idx,
    {
        proof {
            let x = w[seg@[idx as int] as int];
            let t = (start + idx) as int;
            assert(-(MAX_CELLS * MAX_WEIGHT) <= t * x <= MAX_CELLS * MAX_WEIGHT) by (nonlinear_arith)
                requires 0 <= t <= MAX_CELLS, -MAX_WEIGHT <= x <= MAX_WEIGHT;
            assert((idx + 1) * (MAX_CELLS * MAX_WEIGHT) == idx * (MAX_CELLS * MAX_WEIGHT) + MAX_CELLS * MAX_WEIGHT) by (nonlinear_arith);
            assert(idx * (MAX_CELLS * MAX_WEIGHT) <= 12 * (MAX_CELLS * MAX_WEIGHT)) by (nonlinear_arith)
                requires idx <= 12;
        }
        old_local = old_local + (start + idx) as i64 * weights[seg[idx]];
        idx += 1;
    }
    let mut pos_list: Vec<usize> = vec![0usize; MAX_WINDOW];
    let mut idx: usize = 0;
    while idx < len
        invariant
            start + len <= MAX_CELLS,
            idx <= len <= MAX_WINDOW,
            pos_list@.len() == MAX_WINDOW,
            forall|k: int| 0 <= k < idx ==> #[trigger] pos_list@[k] == start + k,
            forall|k: int| idx <= k < MAX_WINDOW ==> #[trigger] pos_list@[k] == 0,
        decreases len - idx,
    {
        pos_list.set(idx, start + idx);
        idx += 1;
    }
    let (dp, parent, paths) = fill_window_table(&seg, left, n, weights, &pos_list, len);
    let ghost pt = paths@;
    let states = 1usize << len;
    let width = len;
    let full = states - 1;
    proof {
        assert(states * len <= 49152) by (nonlinear_arith) requires states <= 4096, len <= 12;
    }
    let mut best_last = usize::MAX;
    let mut best_local = old_local;
    let mut last: usize = 0;
    while last < len
        invariant
            1 <= len <= MAX_WINDOW,
            0 < n,
            width == len,
            states == (1usize << len),
            1 <= states <= 4096,
            states * len <= 49152,
            full == states - 1,
            seg@.len() == MAX_WINDOW,
            last <= len,
            table_ok(n as int, seg@, left, len as int, w, pos_list@, states as int, dp@, parent@, pt, states as int),
            best_last == usize::MAX ==> best_local == old_local,
            best_last != usize::MAX ==> best_last < len
                && dp@[slot(full as int, best_last as int, len as int)] == best_local
                && best_local != NEG_INF
                && best_local > old_local
                && (right matches Some(c) ==> adjacent(n as int, seg@[best_last as int] as int, c as int)),
            win_complete(n as int, seg@, left, len as int, w, pos_list@, dp@, states as int),
            cells_in(seg@, w.len() as int),
            weights_bounded(w),
            pos_list@.len() == MAX_WINDOW,
            forall|k: int| 0 <= k < len ==> #[trigger] pos_list@[k] <= MAX_CELLS,
            forall|p: Seq<int>| #[trigger] good_path(n as int, seg@, left, len as int, p) && p.len() == len && p.last() < last
                && (right matches Some(c) ==> adjacent(n as int, seg@[p.last()] as int, c as int))
                ==> path_value(seg@, w, pos_list@, p) <= best_local,
        decreases len - last,
    {
        proof {
            lemma_slot(full as int, last as int, len as int, states as int);
            assert forall|p: Seq<int>| #[trigger] good_path(n as int, seg@, left, len as int, p) && p.len() == len && p.last() == last
                implies dp@[slot(full as int, last as int, len as int)] >= path_value(seg@, w, pos_list@, p)
                    && path_value(seg@, w, pos_list@, p) >= -(12 * (MAX_CELLS * MAX_WEIGHT)) by {
                lemma_win_full_path(n as int, seg@, left, len as int, p, states as int);
                assert(win_reached(n as int, seg@, left, len as int, p, states as int));
                assert(win_dominates(seg@, len as int, w, pos_list@, dp@, p));
                lemma_path_value_bound(seg@, w, pos_list@, p);
                assert(p.len() * (MAX_CELLS * MAX_WEIGHT) <= 12 * (MAX_CELLS * MAX_WEIGHT)) by (nonlinear_arith) requires p.len() <= 12;
            }
        }
        let value = dp[full * width + last];
        let fits = match right {
            Some(c) => is_adj(seg[last], c, n),
            None => true,
        };
        if value != NEG_INF && fits && value > best_local {
            best_local = value;
            best_last = last;
        }
        last += 1;
    }
    proof {
        let sseg = Seq::new(MAX_WINDOW as nat, |i: int| if i < len { old_route[start + i] } else { 0usize });
        let spos = Seq::new(MAX_WINDOW as nat, |i: int| if i < len { (start + i) as usize } else { 0usize });
        assert(seg@ =~= sseg);
        assert(pos_list@ =~= spos);
        assert forall|p: Seq<int>| #[trigger] good_path(n as int, seg@, left, len as int, p) && p.len() == len
            && (right matches Some(c) ==> adjacent(n as int, seg@[p.last()] as int, c as int))
            implies path_value(seg@, w, pos_list@, p) <= best_local by {
            assert(0 <= p.last() < len);
        }
        assert(window_best(n as int, old_route, w, start as int, len as int, best_local as int));
    }
    if best_last == usize::MAX {
        proof {
            lemma_ident_perm(len as int);
        }
        return false;
    }
    let order = trace_back(&parent, Ghost(n as int), Ghost(seg@), Ghost(left), Ghost(w), Ghost(pos_list@),
        Ghost(dp@), Ghost(pt), len, states, best_last);
    let ghost target = pt[slot(full as int, best_last as int, len as int)];
    proof {
        lemma_slot(full as int, best_last as int, len as int, states as int);
        assert(cell_ok(n as int, seg@, left, len as int, w, pos_list@, dp@, parent@, pt, full as int, best_last as int, states as int));
    }
    let mut changed = false;
    let mut idx: usize = 0;
    while idx < len
        invariant
            window_route_input(n as int, old_route, w),
            w == weights@,
            route@.len() == old_route.len(),
            start + len <= old_route.len(),
            idx <= len <= MAX_WINDOW,
            seg@.len() == MAX_WINDOW,
            order@.len() == MAX_WINDOW,
            target.len() == len,
            forall|k: int| 0 <= k < len ==> 0 <= #[trigger] target[k] < len,
            forall|k: int| 0 <= k < len ==> #[trigger] order@[k] == target[k],
            forall|k: int| 0 <= k < len ==> #[trigger] seg@[k] == old_route[start + k],
            forall|i: int| 0 <= i < old_route.len() && !(start <= i < start + idx) ==> #[trigger] route@[i] == old_route[i],
            forall|k: int| 0 <= k < idx ==> route@[start + k] == seg@[#[trigger] target[k]],
            changed == (route@ != old_route),
        decreases len - idx,
    {
        let cell = seg[order[idx]];
        if route[start + idx] != cell {
            route.set(start + idx, cell);
            changed = true;
            proof {
                assert(route@[start + idx] != old_route[start + idx]);
            }
        } else {
            proof {
                if route@ != old_route {
                    assert(changed);
                }
                if !changed {
                    assert(route@ =~= old_route);
                }
            }
        }
        idx += 1;
    }
    proof {
        let new = route@;
        assert forall|k: int| 0 <= k < len implies new[start + k] == old_route[start + #[trigger] target[k]] by {
            assert(new[start + k] == seg@[target[k]]);
        }
        lemma_window_permutation(n as int, old_route, new, start as int, len as int, target);
        assert(window_perm(len as int, target));
        let lo = if start > 0 { start - 1 } else { 0 };
        assert forall|i: int| lo <= i < start + len && i + 1 < new.len()
            implies #[trigger] adjacent(n as int, new[i] as int, new[i + 1] as int) by {
            if i + 1 == start {
                assert(new[start + 0] == seg@[target[0]]);
            } else if start <= i && i + 1 < start + len {
                let k = i - start;
                assert(new[start + k] == seg@[target[k]]);
                assert(new[start + (k + 1)] == seg@[target[k + 1]]);
                assert(adjacent(n as int, seg@[target[k]] as int, seg@[target[k + 1]] as int));
            } else {
                assert(i == start + len - 1);
                assert(new[start + (len - 1)] == seg@[target[len - 1]]);
                assert(target.last() == best_last);
            }
        }
        if search_input(n as int, old_route, w) {
            assert forall|i: int| 0 <= i < new.len() - 1 implies #[trigger] adjacent(n as int, new[i] as int, new[i + 1] as int) by {
                if i + 1 == start {
                    assert(new[start + 0] == seg@[target[0]]);
                } else if start <= i && i + 1 < start + len {
                    let k = i - start;
                    assert(new[start + k] == seg@[target[k]]);
                    assert(new[start + (k + 1)] == seg@[target[k + 1]]);
                    assert(adjacent(n as int, seg@[target[k]] as int, seg@[target[k + 1]] as int));
                } else if i == start + len - 1 {
                    assert(new[start + (len - 1)] == seg@[target[len - 1]]);
                    assert(target.last() == best_last);
                } else {
                    assert(adjacent(n as int, old_route[i] as int, old_route[i + 1] as int));
                }
            }
        }
        let e = (start + len) as int;
        lemma_prefix_agree(new, old_route, w, start as int);
        lemma_suffix_agree(new, old_route, w, e, new.len() as int);
        lemma_window_prefix(new, seg@, w, start as int, pos_list@, target, len as int);
        assert(target.subrange(0, len as int) =~= target);
        crate::descent::lemma_raw_score_bound(new, w);
        crate::descent::lemma_raw_score_bound(old_route, w);
        assert(window_local(new, w, start as int, len as int) == best_local);
    }
    if changed {
        *total_score = *total_score + (best_local - old_local);
    }
    changed
}

} // verus!
