//! Or-opt moves: cutting a short segment out of a route and putting it
//! back, possibly reversed, between two other consecutive cells.
use vstd::prelude::*;
use crate::grid::{adjacent, is_route, is_permutation_route, raw_prefix, raw_score, cells_in,
    weights_bounded, lists_neighbors, MAX_CELLS, MAX_WEIGHT, is_adj};
use crate::moves::{wsum, lemma_wsum_bound, lemma_adjacent_symmetric, lemma_prefix_agree};
use crate::window::lemma_suffix_agree;

verus! {

/// A segment relocation and its score change: `route[l..=r]` moves between
/// `route[p]` and `route[p + 1]`, reversed when `reversed`.
#[derive(Debug, Clone, Copy)]
pub struct RelocationMove {
    pub l: usize,
    pub r: usize,
    pub p: usize,
    pub reversed: bool,
    pub delta: i64,
}

/// `route[l..=r]`, backwards when `rev`.
pub open spec fn moved_segment(route: Seq<usize>, l: int, r: int, rev: bool) -> Seq<usize> {
    Seq::new((r - l + 1) as nat, |t: int| if rev { route[r - t] } else { route[l + t] })
}

/// `sum_{t < k} (dst + t) * w[seg[t]]`: the score of `seg[..k]` placed from step `dst` on.
pub open spec fn placed_score(seg: Seq<usize>, w: Seq<i64>, dst: int, k: int) -> int
    decreases k,
{
    if k <= 0 {
        0
    } else {
        placed_score(seg, w, dst, k - 1) + (dst + k - 1) * w[seg[k - 1] as int]
    }
}

/// The position in `route` of the cell at position `i` after the relocation.
pub open spec fn reloc_src(l: int, r: int, p: int, rev: bool, i: int) -> int {
    let m = r - l + 1;
    if p < l {
        if i <= p {
            i
        } else if i < p + 1 + m {
            if rev { r - (i - p - 1) } else { l + (i - p - 1) }
        } else if i <= r {
            i - m
        } else {
            i
        }
    } else {
        if i < l {
            i
        } else if i < p + 1 - m {
            i + m
        } else if i <= p {
            if rev { r - (i - (p + 1 - m)) } else { l + (i - (p + 1 - m)) }
        } else {
            i
        }
    }
}

/// `route` after moving `route[l..=r]` between `route[p]` and `route[p + 1]`.
pub open spec fn relocated(route: Seq<usize>, l: int, r: int, p: int, rev: bool) -> Seq<usize> {
    Seq::new(route.len(), |i: int| route[reloc_src(l, r, p, rev, i)])
}

/// The segment and the edge `(p, p + 1)` are within the route and apart.
pub open spec fn reloc_shape(len: int, l: int, r: int, p: int) -> bool {
    &&& 0 <= l <= r < len
    &&& 0 <= p
    &&& p + 1 < len
    &&& !(l <= p <= r)
    &&& !(l <= p + 1 <= r)
}

/// Score change of the relocation.
pub open spec fn reloc_gain(route: Seq<usize>, w: Seq<i64>, l: int, r: int, p: int, rev: bool) -> int {
    raw_score(relocated(route, l, r, p, rev), w) - raw_score(route, w)
}

/// Placed scores of a segment stay within `k * MAX_CELLS * MAX_WEIGHT`.
proof fn lemma_placed_bound(seg: Seq<usize>, w: Seq<i64>, dst: int, k: int)
    requires
        0 <= dst,
        0 <= k <= seg.len(),
        dst + k <= MAX_CELLS,
        cells_in(seg, w.len() as int),
        weights_bounded(w),
    ensures
        -(k * (MAX_CELLS * MAX_WEIGHT)) <= placed_score(seg, w, dst, k) <= k * (MAX_CELLS * MAX_WEIGHT),
    decreases k,
{
    if k > 0 {
        lemma_placed_bound(seg, w, dst, k - 1);
        let x = w[seg[k - 1] as int];
        let t = dst + k - 1;
        assert(-(MAX_CELLS * MAX_WEIGHT) <= t * x <= MAX_CELLS * MAX_WEIGHT) by (nonlinear_arith)
            requires 0 <= t <= MAX_CELLS, -MAX_WEIGHT <= x <= MAX_WEIGHT;
        assert((k - 1) * (MAX_CELLS * MAX_WEIGHT) + MAX_CELLS * MAX_WEIGHT == k * (MAX_CELLS * MAX_WEIGHT)) by (nonlinear_arith);
    }
}

/// Prefix scores over a stretch holding `seg` from `a` on.
proof fn lemma_stretch_placed(x: Seq<usize>, seg: Seq<usize>, w: Seq<i64>, a: int, k: int)
    requires
        0 <= a,
        0 <= k <= seg.len(),
        a + seg.len() <= x.len(),
        forall|t: int| 0 <= t < seg.len() ==> x[a + t] == #[trigger] seg[t],
    ensures
        raw_prefix(x, w, a + k) - raw_prefix(x, w, a) == placed_score(seg, w, a, k),
    decreases k,
{
    if k > 0 {
        lemma_stretch_placed(x, seg, w, a, k - 1);
        assert(x[a + (k - 1)] == seg[k - 1]);
    }
}

/// Prefix sums over a stretch copied from `y` shifted by `d`.
proof fn lemma_stretch_shift(x: Seq<usize>, y: Seq<usize>, w: Seq<i64>, a: int, b: int, d: int)
    requires
        0 <= a <= b <= x.len(),
        0 <= a + d,
        b + d <= y.len(),
        forall|i: int| a <= i < b ==> #[trigger] x[i] == y[i + d],
    ensures
        raw_prefix(x, w, b) - raw_prefix(x, w, a)
            == raw_prefix(y, w, b + d) - raw_prefix(y, w, a + d) - d * (wsum(y, w, b + d) - wsum(y, w, a + d)),
        wsum(x, w, b) - wsum(x, w, a) == wsum(y, w, b + d) - wsum(y, w, a + d),
    decreases b - a,
{
    if b > a {
        lemma_stretch_shift(x, y, w, a, b - 1, d);
        assert(x[b - 1] == y[b - 1 + d]);
        let v = w[y[b - 1 + d] as int];
        assert((b - 1) * v == (b - 1 + d) * v - d * v) by (nonlinear_arith);
        let s1 = wsum(y, w, b - 1 + d) - wsum(y, w, a + d);
        assert(d * (s1 + v) == d * s1 + d * v) by (nonlinear_arith);
    }
}

/// The placed score of the segment read forwards or backwards has the same
/// total weight.
proof fn lemma_placed_wsum(route: Seq<usize>, w: Seq<i64>, l: int, r: int, rev: bool, k: int)
    requires
        0 <= l <= r < route.len(),
        0 <= k <= r - l + 1,
    ensures
        !rev ==> wsum(moved_segment(route, l, r, rev), w, k) == wsum(route, w, l + k) - wsum(route, w, l),
        rev ==> wsum(moved_segment(route, l, r, rev), w, k) == wsum(route, w, r + 1) - wsum(route, w, r + 1 - k),
    decreases k,
{
    if k > 0 {
        lemma_placed_wsum(route, w, l, r, rev, k - 1);
        wsum_step(route, w, r + 1 - k);
    }
}

proof fn wsum_step(route: Seq<usize>, w: Seq<i64>, k: int)
    requires
        0 <= k,
    ensures
        wsum(route, w, k + 1) == wsum(route, w, k) + w[route[k] as int],
{
}

/// The score change of a relocation from the placed scores of the segment
/// before and after and the total weight of the cells it jumps over.
pub proof fn lemma_reloc_gain(route: Seq<usize>, w: Seq<i64>, l: int, r: int, p: int, rev: bool)
    requires
        reloc_shape(route.len() as int, l, r, p),
    ensures
        ({
            let m = r - l + 1;
            let seg = moved_segment(route, l, r, rev);
            let old_seg = placed_score(moved_segment(route, l, r, false), w, l, m);
            if p < l {
                reloc_gain(route, w, l, r, p, rev) == placed_score(seg, w, p + 1, m) - old_seg
                    + m * (wsum(route, w, l) - wsum(route, w, p + 1))
            } else {
                reloc_gain(route, w, l, r, p, rev) == placed_score(seg, w, p + 1 - m, m) - old_seg
                    - m * (wsum(route, w, p + 1) - wsum(route, w, r + 1))
            }
        }),
{
    let m = r - l + 1;
    let len = route.len() as int;
    let x = relocated(route, l, r, p, rev);
    let seg = moved_segment(route, l, r, rev);
    let fwd = moved_segment(route, l, r, false);
    lemma_stretch_placed(route, fwd, w, l, m);
    lemma_placed_wsum(route, w, l, r, rev, m);
    lemma_placed_wsum(route, w, l, r, false, m);
    if p < l {
        let a = p + 1;
        assert forall|i: int| 0 <= i < a implies x[i] == route[i] by {
            assert(reloc_src(l, r, p, rev, i) == i);
        }
        lemma_prefix_agree(x, route, w, a);
        assert forall|t: int| 0 <= t < seg.len() implies x[a + t] == #[trigger] seg[t] by {
            assert(reloc_src(l, r, p, rev, a + t) == if rev { r - t } else { l + t });
        }
        lemma_stretch_placed(x, seg, w, a, m);
        assert forall|i: int| a + m <= i < r + 1 implies #[trigger] x[i] == route[i + (-m)] by {
            assert(reloc_src(l, r, p, rev, i) == i - m);
        }
        lemma_stretch_shift(x, route, w, a + m, r + 1, -m);
        assert forall|i: int| r + 1 <= i < len implies x[i] == route[i] by {
            assert(reloc_src(l, r, p, rev, i) == i);
        }
        lemma_suffix_agree(x, route, w, r + 1, len);
        let d = wsum(route, w, l) - wsum(route, w, a);
        assert((-m) * d == -(m * d)) by (nonlinear_arith);
        assert(raw_prefix(x, w, a) == raw_prefix(route, w, a));
        assert(raw_prefix(x, w, a + m) - raw_prefix(x, w, a) == placed_score(seg, w, a, m));
        assert(raw_prefix(x, w, r + 1) - raw_prefix(x, w, a + m) == raw_prefix(route, w, l) - raw_prefix(route, w, a) + m * d);
        assert(raw_prefix(route, w, r + 1) - raw_prefix(route, w, l) == placed_score(fwd, w, l, m));
    } else {
        let q = p + 1 - m;
        assert forall|i: int| 0 <= i < l implies x[i] == route[i] by {
            assert(reloc_src(l, r, p, rev, i) == i);
        }
        lemma_prefix_agree(x, route, w, l);
        assert forall|i: int| l <= i < q implies #[trigger] x[i] == route[i + m] by {
            assert(reloc_src(l, r, p, rev, i) == i + m);
        }
        lemma_stretch_shift(x, route, w, l, q, m);
        assert forall|t: int| 0 <= t < seg.len() implies x[q + t] == #[trigger] seg[t] by {
            assert(reloc_src(l, r, p, rev, q + t) == if rev { r - t } else { l + t });
        }
        lemma_stretch_placed(x, seg, w, q, m);
        assert forall|i: int| p + 1 <= i < len implies x[i] == route[i] by {
            assert(reloc_src(l, r, p, rev, i) == i);
        }
        lemma_suffix_agree(x, route, w, p + 1, len);
        lemma_wsum_split(route, w, l, r + 1, p + 1);
        assert(raw_prefix(x, w, l) == raw_prefix(route, w, l));
        assert(raw_prefix(x, w, q) - raw_prefix(x, w, l) == raw_prefix(route, w, p + 1) - raw_prefix(route, w, r + 1)
            - m * (wsum(route, w, p + 1) - wsum(route, w, r + 1)));
        assert(raw_prefix(x, w, p + 1) - raw_prefix(x, w, q) == placed_score(seg, w, q, m));
        assert(raw_prefix(route, w, r + 1) - raw_prefix(route, w, l) == placed_score(fwd, w, l, m));
    }
}

proof fn lemma_wsum_split(route: Seq<usize>, w: Seq<i64>, a: int, b: int, c: int)
    ensures
        wsum(route, w, c) - wsum(route, w, a) == (wsum(route, w, c) - wsum(route, w, b)) + (wsum(route, w, b) - wsum(route, w, a)),
{
}

/// `sum_t (dst_l + t) * w[route[src_t]]` over the `seg_len` cells from
/// `src_l` on (taken backwards when `reversed`).
pub fn segment_contrib(
    route: &[usize],
    weights: &[i64],
    src_l: usize,
    dst_l: usize,
    seg_len: usize,
    reversed: bool,
) -> (acc: i64)
    requires
        1 <= seg_len,
        src_l + seg_len <= route@.len(),
        route@.len() <= MAX_CELLS,
        dst_l + seg_len <= MAX_CELLS,
        cells_in(route@, weights@.len() as int),
        weights_bounded(weights@),
    ensures
        acc == placed_score(moved_segment(route@, src_l as int, src_l + seg_len - 1, reversed), weights@, dst_l as int, seg_len as int),
{
    let ghost seg = moved_segment(route@, src_l as int, src_l + seg_len - 1, reversed);
    proof {
        assert(cells_in(seg, weights@.len() as int)) by {
            assert forall|t: int| 0 <= t < seg.len() implies #[trigger] seg[t] < weights@.len() by {
                if reversed {
                    assert(seg[t] == route@[src_l + seg_len - 1 - t]);
                } else {
                    assert(seg[t] == route@[src_l + t]);
                }
            }
        }
    }
    let mut acc: i64 = 0;
    let mut t: usize = 0;
    while t < seg_len
        invariant
            1 <= seg_len,
            src_l + seg_len <= route@.len(),
            route@.len() <= MAX_CELLS,
            dst_l + seg_len <= MAX_CELLS,
            cells_in(seg, weights@.len() as int),
            weights_bounded(weights@),
            seg == moved_segment(route@, src_l as int, src_l + seg_len - 1, reversed),
            t <= seg_len,
            acc == placed_score(seg, weights@, dst_l as int, t as int),
        decreases seg_len - t,
    {
        proof {
            lemma_placed_bound(seg, weights@, dst_l as int, t + 1);
            assert((t + 1) * (MAX_CELLS * MAX_WEIGHT) <= MAX_CELLS * (MAX_CELLS * MAX_WEIGHT)) by (nonlinear_arith)
                requires t + 1 <= MAX_CELLS;
        }
        let src = if reversed { src_l + seg_len - 1 - t } else { src_l + t };
        proof {
            assert(seg[t as int] == route@[src as int]);
            let x = weights@[route@[src as int] as int];
            let d = (dst_l + t) as int;
            assert(-(MAX_CELLS * MAX_WEIGHT) <= d * x <= MAX_CELLS * MAX_WEIGHT) by (nonlinear_arith)
                requires 0 <= d <= MAX_CELLS, -MAX_WEIGHT <= x <= MAX_WEIGHT;
        }
        acc = acc + (dst_l + t) as i64 * weights[route[src]];
        t += 1;
    }
    acc
}

/// The score change of relocating `route[l..=r]` between `route[p]` and
/// `route[p + 1]` (reversed when `reversed`), from prefix weight sums.
pub fn relocation_delta(
    route: &[usize],
    weights: &[i64],
    prefix_weight: &[i64],
    l: usize,
    r: usize,
    p: usize,
    reversed: bool,
) -> (delta: i64)
    requires
        reloc_shape(route@.len() as int, l as int, r as int, p as int),
        route@.len() <= MAX_CELLS,
        cells_in(route@, weights@.len() as int),
        weights_bounded(weights@),
        prefix_weight@.len() == route@.len() + 1,
        forall|k: int| 0 <= k <= route@.len() ==> #[trigger] prefix_weight@[k] == wsum(route@, weights@, k),
    ensures
        delta == reloc_gain(route@, weights@, l as int, r as int, p as int, reversed),
{
    let ghost rt = route@;
    let ghost w = weights@;
    let seg_len = r - l + 1;
    proof {
        lemma_reloc_gain(rt, w, l as int, r as int, p as int, reversed);
        lemma_placed_bound(moved_segment(rt, l as int, r as int, false), w, l as int, seg_len as int);
        assert(cells_in(moved_segment(rt, l as int, r as int, reversed), w.len() as int)) by {
            let sg = moved_segment(rt, l as int, r as int, reversed);
            assert forall|t: int| 0 <= t < sg.len() implies #[trigger] sg[t] < w.len() by {
                if reversed {
                    assert(sg[t] == rt[r - t]);
                } else {
                    assert(sg[t] == rt[l + t]);
                }
            }
        }
        assert(cells_in(moved_segment(rt, l as int, r as int, false), w.len() as int)) by {
            let sg = moved_segment(rt, l as int, r as int, false);
            assert forall|t: int| 0 <= t < sg.len() implies #[trigger] sg[t] < w.len() by {
                assert(sg[t] == rt[l + t]);
            }
        }
        assert(seg_len * (MAX_CELLS * MAX_WEIGHT) <= MAX_CELLS * (MAX_CELLS * MAX_WEIGHT)) by (nonlinear_arith)
            requires seg_len <= MAX_CELLS;
    }
    let old_seg = segment_contrib(route, weights, l, l, seg_len, false);
    if p < l {
        let q = p + 1;
        proof {
            lemma_wsum_bound(rt, w, l as int);
            lemma_wsum_bound(rt, w, q as int);
            lemma_placed_bound(moved_segment(rt, l as int, r as int, reversed), w, q as int, seg_len as int);
            let bw = wsum(rt, w, l as int) - wsum(rt, w, q as int);
            assert(-(2 * (MAX_CELLS * MAX_WEIGHT)) <= bw <= 2 * (MAX_CELLS * MAX_WEIGHT)) by (nonlinear_arith)
                requires -l * MAX_WEIGHT <= wsum(rt, w, l as int) <= l * MAX_WEIGHT,
                    -q * MAX_WEIGHT <= wsum(rt, w, q as int) <= q * MAX_WEIGHT, l <= MAX_CELLS, q <= MAX_CELLS,
                    bw == wsum(rt, w, l as int) - wsum(rt, w, q as int);
            assert(-(2 * MAX_CELLS * (MAX_CELLS * MAX_WEIGHT)) <= seg_len * bw <= 2 * MAX_CELLS * (MAX_CELLS * MAX_WEIGHT))
                by (nonlinear_arith)
                requires 1 <= seg_len <= MAX_CELLS, -(2 * (MAX_CELLS * MAX_WEIGHT)) <= bw <= 2 * (MAX_CELLS * MAX_WEIGHT);
        }
        let between_weight = prefix_weight[l] - prefix_weight[q];
        let shifted = seg_len as i64 * between_weight;
        let new_seg = segment_contrib(route, weights, l, q, seg_len, reversed);
        new_seg - old_seg + shifted
    } else {
        let q = p + 1 - seg_len;
        proof {
            lemma_wsum_bound(rt, w, p + 1);
            lemma_wsum_bound(rt, w, r + 1);
            lemma_placed_bound(moved_segment(rt, l as int, r as int, reversed), w, q as int, seg_len as int);
            let bw = wsum(rt, w, p + 1) - wsum(rt, w, r + 1);
            assert(-(2 * (MAX_CELLS * MAX_WEIGHT)) <= bw <= 2 * (MAX_CELLS * MAX_WEIGHT)) by (nonlinear_arith)
                requires -(p + 1) * MAX_WEIGHT <= wsum(rt, w, p + 1) <= (p + 1) * MAX_WEIGHT,
                    -(r + 1) * MAX_WEIGHT <= wsum(rt, w, r + 1) <= (r + 1) * MAX_WEIGHT, p + 1 <= MAX_CELLS, r + 1 <= MAX_CELLS,
                    bw == wsum(rt, w, p + 1) - wsum(rt, w, r + 1);
            assert(-(2 * MAX_CELLS * (MAX_CELLS * MAX_WEIGHT)) <= seg_len * bw <= 2 * MAX_CELLS * (MAX_CELLS * MAX_WEIGHT))
                by (nonlinear_arith)
                requires 1 <= seg_len <= MAX_CELLS, -(2 * (MAX_CELLS * MAX_WEIGHT)) <= bw <= 2 * (MAX_CELLS * MAX_WEIGHT);
        }
        let between_weight = prefix_weight[p + 1] - prefix_weight[r + 1];
        let shifted = seg_len as i64 * between_weight;
        let new_seg = segment_contrib(route, weights, l, q, seg_len, reversed);
        new_seg - old_seg - shifted
    }
}

/// Whether the edge `(p, p + 1)` lies clear of the segment `l..=r`.
pub fn edge_disjoint_from_segment(p: usize, l: usize, r: usize) -> (res: bool)
    requires
        p < usize::MAX,
    ensures
        res == (!(l <= p && p <= r) && !(l <= p + 1 && p + 1 <= r)),
{
    !(l <= p && p <= r) && !(l <= p + 1 && p + 1 <= r)
}

/// Applies the relocation: `route[l..=r]` (reversed when `reversed`) moves
/// between the cells at `p` and `p + 1`, the cells in between shift over.
pub fn apply_relocation(route: &mut Vec<usize>, mv: RelocationMove)
    requires
        reloc_shape(old(route)@.len() as int, mv.l as int, mv.r as int, mv.p as int),
        old(route)@.len() <= MAX_CELLS,
    ensures
        final(route)@ == relocated(old(route)@, mv.l as int, mv.r as int, mv.p as int, mv.reversed),
{
    let ghost orig = route@;
    let l = mv.l;
    let r = mv.r;
    let p = mv.p;
    let seg_len = r - l + 1;
    let mut seg: Vec<usize> = Vec::new();
    let mut t: usize = 0;
    while t < seg_len
        invariant
            route@ == orig,
            reloc_shape(orig.len() as int, l as int, r as int, p as int),
            seg_len == r - l + 1,
            t <= seg_len,
            seg@.len() == t,
            forall|k: int| 0 <= k < t ==> #[trigger] seg@[k] == moved_segment(orig, l as int, r as int, mv.reversed)[k],
        decreases seg_len - t,
    {
        let src = if mv.reversed { r - t } else { l + t };
        seg.push(route[src]);
        t += 1;
    }
    if p < l {
        let mut i = l;
        while i > p + 1
            invariant
                reloc_shape(orig.len() as int, l as int, r as int, p as int),
                orig.len() <= MAX_CELLS,
                seg_len == r - l + 1,
                p + 1 <= i <= l,
                route@.len() == orig.len(),
                forall|j: int| i + seg_len <= j < l + seg_len ==> #[trigger] route@[j] == orig[j - seg_len],
                forall|j: int| 0 <= j < route@.len() && !(i + seg_len <= j < l + seg_len) ==> #[trigger] route@[j] == orig[j],
            decreases i,
        {
            i -= 1;
            let v = route[i];
            route.set(i + seg_len, v);
        }
        let mut t: usize = 0;
        while t < seg_len
            invariant
                reloc_shape(orig.len() as int, l as int, r as int, p as int),
                orig.len() <= MAX_CELLS,
                p < l,
                seg_len == r - l + 1,
                t <= seg_len,
                seg@.len() == seg_len,
                forall|k: int| 0 <= k < seg_len ==> #[trigger] seg@[k] == moved_segment(orig, l as int, r as int, mv.reversed)[k],
                route@.len() == orig.len(),
                forall|j: int| 0 <= j < route@.len() ==> #[trigger] route@[j] == if p + 1 <= j < p + 1 + t {
                    seg@[j - (p + 1)]
                } else if p + 1 + seg_len <= j <= r {
                    orig[j - seg_len]
                } else if p + 1 + t <= j < p + 1 + seg_len {
                    route@[j]
                } else {
                    orig[j]
                },
            decreases seg_len - t,
        {
            route.set(p + 1 + t, seg[t]);
            t += 1;
        }
        proof {
            let x = relocated(orig, l as int, r as int, p as int, mv.reversed);
            assert forall|j: int| 0 <= j < route@.len() implies #[trigger] route@[j] == x[j] by {
                if p + 1 <= j < p + 1 + seg_len {
                    assert(seg@[j - (p + 1)] == moved_segment(orig, l as int, r as int, mv.reversed)[j - (p + 1)]);
                }
            }
            assert(route@ =~= x);
        }
    } else {
        let mut i = r + 1;
        while i <= p
            invariant
                reloc_shape(orig.len() as int, l as int, r as int, p as int),
                orig.len() <= MAX_CELLS,
                p > r,
                seg_len == r - l + 1,
                r + 1 <= i <= p + 1,
                route@.len() == orig.len(),
                forall|j: int| l <= j < i - seg_len ==> #[trigger] route@[j] == orig[j + seg_len],
                forall|j: int| 0 <= j < route@.len() && !(l <= j < i - seg_len) ==> #[trigger] route@[j] == orig[j],
            decreases p + 1 - i,
        {
            let v = route[i];
            route.set(i - seg_len, v);
            i += 1;
        }
        let q = p + 1 - seg_len;
        let mut t: usize = 0;
        while t < seg_len
            invariant
                reloc_shape(orig.len() as int, l as int, r as int, p as int),
                orig.len() <= MAX_CELLS,
                p > r,
                seg_len == r - l + 1,
                q == p + 1 - seg_len,
                t <= seg_len,
                seg@.len() == seg_len,
                forall|k: int| 0 <= k < seg_len ==> #[trigger] seg@[k] == moved_segment(orig, l as int, r as int, mv.reversed)[k],
                route@.len() == orig.len(),
                forall|j: int| 0 <= j < route@.len() ==> #[trigger] route@[j] == if q <= j < q + t {
                    seg@[j - q]
                } else if l <= j < q {
                    orig[j + seg_len]
                } else if q + t <= j < q + seg_len {
                    route@[j]
                } else {
                    orig[j]
                },
            decreases seg_len - t,
        {
            route.set(q + t, seg[t]);
            t += 1;
        }
        proof {
            let x = relocated(orig, l as int, r as int, p as int, mv.reversed);
            assert forall|j: int| 0 <= j < route@.len() implies #[trigger] route@[j] == x[j] by {
                if q <= j < q + seg_len {
                    assert(seg@[j - q] == moved_segment(orig, l as int, r as int, mv.reversed)[j - q]);
                }
            }
            assert(route@ =~= x);
        }
    }
}

/// The relocation keeps every step a king move: the cells around the
/// segment meet, and the segment's ends fit between `route[p]` and
/// `route[p + 1]`. The segment does not touch the ends of the route.
pub open spec fn fits_relocation(n: int, route: Seq<usize>, l: int, r: int, p: int, rev: bool) -> bool {
    let seg = moved_segment(route, l, r, rev);
    &&& reloc_shape(route.len() as int, l, r, p)
    &&& 1 <= l
    &&& r + 1 < route.len()
    &&& adjacent(n, route[l - 1] as int, route[r + 1] as int)
    &&& adjacent(n, route[p] as int, seg[0] as int)
    &&& adjacent(n, seg.last() as int, route[p + 1] as int)
}

/// A fitting relocation of a segment of at most 3 cells.
pub open spec fn valid_relocation(n: int, route: Seq<usize>, l: int, r: int, p: int, rev: bool) -> bool {
    fits_relocation(n, route, l, r, p, rev) && r - l < 3
}

pub proof fn lemma_reloc_src_range(len: int, l: int, r: int, p: int, rev: bool, i: int)
    requires
        reloc_shape(len, l, r, p),
        0 <= i < len,
    ensures
        0 <= reloc_src(l, r, p, rev, i) < len,
{
}

pub(crate) proof fn lemma_reloc_src_injective(len: int, l: int, r: int, p: int, rev: bool, i: int, j: int)
    requires
        reloc_shape(len, l, r, p),
        0 <= i < len,
        0 <= j < len,
        i != j,
    ensures
        reloc_src(l, r, p, rev, i) != reloc_src(l, r, p, rev, j),
{
}

/// A fitting relocation keeps a route a route.
pub proof fn lemma_relocation_keeps_route(n: int, route: Seq<usize>, l: int, r: int, p: int, rev: bool)
    requires
        is_route(n, route),
        fits_relocation(n, route, l, r, p, rev),
    ensures
        is_route(n, relocated(route, l, r, p, rev)),
{
    let len = route.len() as int;
    let x = relocated(route, l, r, p, rev);
    let seg = moved_segment(route, l, r, rev);
    let m = r - l + 1;
    assert forall|i: int| 0 <= i < x.len() implies #[trigger] x[i] < n * n by {
        lemma_reloc_src_range(len, l, r, p, rev, i);
    }
    assert forall|i: int, j: int| 0 <= i < x.len() && 0 <= j < x.len() && i != j implies x[i] != x[j] by {
        lemma_reloc_src_range(len, l, r, p, rev, i);
        lemma_reloc_src_range(len, l, r, p, rev, j);
        lemma_reloc_src_injective(len, l, r, p, rev, i, j);
    }
    assert forall|i: int| 0 <= i < x.len() - 1 implies #[trigger] adjacent(n, x[i] as int, x[i + 1] as int) by {
        let a = reloc_src(l, r, p, rev, i);
        let b = reloc_src(l, r, p, rev, i + 1);
        assert(x[i] == route[a]);
        assert(x[i + 1] == route[b]);
        if b == a + 1 {
            assert(adjacent(n, route[a] as int, route[a + 1] as int));
        } else if a == b + 1 {
            assert(adjacent(n, route[b] as int, route[b + 1] as int));
            lemma_adjacent_symmetric(n, route[b] as int, route[a] as int);
        } else if p < l {
            if i == p {
                assert(seg[0] == route[b]);
            } else if i == p + m {
                assert(seg.last() == route[a]);
            } else {
                assert(i == r);
            }
        } else {
            if i + 1 == l {
                assert(b == r + 1);
            } else if i + 1 == p + 1 - m {
                assert(a == p);
                assert(seg[0] == route[b]);
            } else {
                assert(i == p);
                assert(seg.last() == route[a]);
            }
        }
    }
}

/// `d` is at least the score change of every valid relocation.
pub open spec fn dominates_relocations(n: int, route: Seq<usize>, w: Seq<i64>, d: int) -> bool {
    forall|l: int, r: int, p: int, rev: bool| #[trigger] valid_relocation(n, route, l, r, p, rev)
        ==> reloc_gain(route, w, l, r, p, rev) <= d
}

/// No valid relocation of a segment of `route` raises its raw score.
pub open spec fn relocation_optimal(n: int, route: Seq<usize>, w: Seq<i64>) -> bool {
    forall|l: int, r: int, p: int, rev: bool| #[trigger] valid_relocation(n, route, l, r, p, rev)
        ==> raw_score(relocated(route, l, r, p, rev), w) <= raw_score(route, w)
}

/// When every valid relocation changes the score by at most `0`, none
/// raises it.
pub proof fn lemma_relocation_optimal(n: int, route: Seq<usize>, w: Seq<i64>)
    requires
        dominates_relocations(n, route, w, 0),
    ensures
        relocation_optimal(n, route, w),
{
}

/// What the relocation search relies on: a permutation route, the position
/// of every cell and the prefix weight sums.
pub open spec fn reloc_ctx(n: int, route: Seq<usize>, w: Seq<i64>, position: Seq<usize>, pw: Seq<i64>) -> bool {
    &&& 0 < n
    &&& 1 <= route.len() <= MAX_CELLS
    &&& is_permutation_route(n, route)
    &&& w.len() == n * n
    &&& weights_bounded(w)
    &&& position.len() == n * n
    &&& forall|t: int| 0 <= t < route.len() ==> #[trigger] position[route[t] as int] == t
    &&& pw.len() == route.len() + 1
    &&& forall|k: int| 0 <= k <= route.len() ==> #[trigger] pw[k] == wsum(route, w, k)
}

proof fn lemma_reloc_position(n: int, route: Seq<usize>, w: Seq<i64>, position: Seq<usize>, pw: Seq<i64>, c: int)
    requires
        reloc_ctx(n, route, w, position, pw),
        0 <= c < n * n,
    ensures
        position[c] < route.len(),
        route[position[c] as int] == c,
{
    crate::grid::lemma_permutation_covers(n * n, route);
    assert(route.contains(c as usize));
    let t = choose|t: int| 0 <= t < route.len() && route[t] == c as usize;
    assert(position[route[t] as int] == t);
}

/// The best found so far is a gaining valid relocation, or nothing with `0`.
pub open spec fn best_relocation_ok(n: int, route: Seq<usize>, w: Seq<i64>, best: Option<RelocationMove>, best_delta: int) -> bool {
    match best {
        Some(mv) => valid_relocation(n, route, mv.l as int, mv.r as int, mv.p as int, mv.reversed)
            && mv.delta == best_delta
            && best_delta == reloc_gain(route, w, mv.l as int, mv.r as int, mv.p as int, mv.reversed)
            && best_delta > 0,
        None => best_delta == 0,
    }
}

/// Relocations covered by the search so far: shorter segments, then
/// segments of `seg_len` cells starting before `l`.
pub open spec fn reloc_seen(a: int, b: int, seg_len: int, l: int) -> bool {
    b - a + 1 < seg_len || (b - a + 1 == seg_len && a < l)
}

/// The best relocation of a segment of 1 to 3 cells (not touching the ends
/// of the route) between two consecutive cells, forwards or reversed, among
/// those that keep every step a king move. `None` when none gains anything.
pub fn best_relocation_move(
    route: &[usize],
    weights: &[i64],
    neighbors: &Vec<Vec<usize>>,
    position: &[usize],
    prefix_weight: &[i64],
    n: usize,
) -> (best: Option<RelocationMove>)
    requires
        reloc_ctx(n as int, route@, weights@, position@, prefix_weight@),
        neighbors@.len() == n * n,
        forall|c: int| 0 <= c < n * n ==> lists_neighbors(n as int, c, #[trigger] neighbors@[c]@),
    ensures
        match best {
            Some(mv) => {
                &&& valid_relocation(n as int, route@, mv.l as int, mv.r as int, mv.p as int, mv.reversed)
                &&& mv.delta == reloc_gain(route@, weights@, mv.l as int, mv.r as int, mv.p as int, mv.reversed)
                &&& mv.delta > 0
                &&& dominates_relocations(n as int, route@, weights@, mv.delta as int)
            },
            None => dominates_relocations(n as int, route@, weights@, 0),
        },
{
    let ghost rt = route@;
    let ghost w = weights@;
    let ghost nn = n as int;
    let len = route.len();
    proof {
        assert(cells_in(rt, w.len() as int));
    }
    let mut best: Option<RelocationMove> = None;
    let mut best_delta: i64 = 0;
    let mut seg_len: usize = 1;
    while seg_len <= 3
        invariant
            reloc_ctx(nn, rt, w, position@, prefix_weight@),
            rt == route@,
            w == weights@,
            nn == n,
            cells_in(rt, w.len() as int),
            len == rt.len(),
            1 <= seg_len <= 4,
            neighbors@.len() == n * n,
            forall|c: int| 0 <= c < n * n ==> lists_neighbors(nn, c, #[trigger] neighbors@[c]@),
            best_delta >= 0,
            best_relocation_ok(nn, rt, w, best, best_delta as int),
            forall|a: int, b: int, p: int, rev: bool| #[trigger] valid_relocation(nn, rt, a, b, p, rev)
                && b - a + 1 < seg_len ==> reloc_gain(rt, w, a, b, p, rev) <= best_delta,
        decreases 4 - seg_len,
    {
        let mut l: usize = 1;
        while l + seg_len < len
            invariant
                reloc_ctx(nn, rt, w, position@, prefix_weight@),
                rt == route@,
                w == weights@,
                nn == n,
                cells_in(rt, w.len() as int),
                len == rt.len(),
                1 <= seg_len <= 3,
                1 <= l <= len,
                neighbors@.len() == n * n,
                forall|c: int| 0 <= c < n * n ==> lists_neighbors(nn, c, #[trigger] neighbors@[c]@),
                best_delta >= 0,
                best_relocation_ok(nn, rt, w, best, best_delta as int),
                forall|a: int, b: int, p: int, rev: bool| #[trigger] valid_relocation(nn, rt, a, b, p, rev)
                    && reloc_seen(a, b, seg_len as int, l as int) ==> reloc_gain(rt, w, a, b, p, rev) <= best_delta,
            decreases len - l,
        {
            let r = l + seg_len - 1;
            let prev = route[l - 1];
            let next = route[r + 1];
            if is_adj(prev, next, n) {
                let first = route[l];
                let last = route[r];
                proof {
                    assert(rt[l as int] < n * n);
                    assert(rt[r as int] < n * n);
                }
                let mut dir: usize = 0;
                while dir < 2
                    invariant
                        reloc_ctx(nn, rt, w, position@, prefix_weight@),
                        rt == route@,
                        w == weights@,
                        nn == n,
                        cells_in(rt, w.len() as int),
                        len == rt.len(),
                        1 <= seg_len <= 3,
                        1 <= l,
                        r == l + seg_len - 1,
                        r + 1 < len,
                        first == rt[l as int],
                        last == rt[r as int],
                        adjacent(nn, rt[l - 1] as int, rt[r + 1] as int),
                        dir <= 2,
                        neighbors@.len() == n * n,
                        forall|c: int| 0 <= c < n * n ==> lists_neighbors(nn, c, #[trigger] neighbors@[c]@),
                        best_delta >= 0,
                        best_relocation_ok(nn, rt, w, best, best_delta as int),
                        forall|a: int, b: int, p: int, rev: bool| #[trigger] valid_relocation(nn, rt, a, b, p, rev)
                            && (reloc_seen(a, b, seg_len as int, l as int)
                                || (a == l && b == r && (rev ==> dir > 1) && (!rev ==> dir > 0)))
                            ==> reloc_gain(rt, w, a, b, p, rev) <= best_delta,
                    decreases 2 - dir,
                {
                    let reversed = dir == 1;
                    let head = if reversed { last } else { first };
                    let tail = if reversed { first } else { last };
                    let nb = &neighbors[head];
                    proof {
                        assert(moved_segment(rt, l as int, r as int, reversed)[0] == head);
                        assert(moved_segment(rt, l as int, r as int, reversed).last() == tail);
                    }
                    let mut k: usize = 0;
                    while k < nb.len()
                        invariant
                            reloc_ctx(nn, rt, w, position@, prefix_weight@),
                            rt == route@,
                            w == weights@,
                            nn == n,
                            cells_in(rt, w.len() as int),
                            len == rt.len(),
                            1 <= seg_len <= 3,
                            1 <= l,
                            r == l + seg_len - 1,
                            r + 1 < len,
                            head < n * n,
                            moved_segment(rt, l as int, r as int, reversed)[0] == head,
                            moved_segment(rt, l as int, r as int, reversed).last() == tail,
                            adjacent(nn, rt[l - 1] as int, rt[r + 1] as int),
                            dir < 2,
                            reversed == (dir == 1),
                            nb == neighbors@[head as int],
                            k <= nb@.len(),
                            neighbors@.len() == n * n,
                            forall|c: int| 0 <= c < n * n ==> lists_neighbors(nn, c, #[trigger] neighbors@[c]@),
                            best_delta >= 0,
                            best_relocation_ok(nn, rt, w, best, best_delta as int),
                            forall|a: int, b: int, p: int, rev: bool| #[trigger] valid_relocation(nn, rt, a, b, p, rev)
                                && (reloc_seen(a, b, seg_len as int, l as int)
                                    || (a == l && b == r && (rev ==> dir > 1) && (!rev ==> dir > 0)))
                                ==> reloc_gain(rt, w, a, b, p, rev) <= best_delta,
                            forall|j: int| 0 <= j < k ==> {
                                let p = #[trigger] position@[nb@[j] as int] as int;
                                valid_relocation(nn, rt, l as int, r as int, p, reversed)
                                    ==> reloc_gain(rt, w, l as int, r as int, p, reversed) <= best_delta
                            },
                        decreases nb@.len() - k,
                    {
                        let anchor = nb[k];
                        proof {
                            assert(lists_neighbors(nn, head as int, neighbors@[head as int]@));
                            assert(nb@.contains(anchor));
                            lemma_reloc_position(nn, rt, w, position@, prefix_weight@, anchor as int);
                        }
                        let p = position[anchor];
                        if p + 1 < len && edge_disjoint_from_segment(p, l, r) {
                            let b = route[p + 1];
                            if is_adj(tail, b, n) {
                                let delta = relocation_delta(route, weights, prefix_weight, l, r, p, reversed);
                                proof {
                                    lemma_adjacent_symmetric(nn, head as int, anchor as int);
                                }
                                if delta > best_delta {
                                    best_delta = delta;
                                    best = Some(RelocationMove { l, r, p, reversed, delta });
                                }
                            }
                        }
                        k += 1;
                    }
                    proof {
                        assert forall|a: int, b: int, p: int, rev: bool| #[trigger] valid_relocation(nn, rt, a, b, p, rev)
                            && (reloc_seen(a, b, seg_len as int, l as int)
                                || (a == l && b == r && (rev ==> dir + 1 > 1) && (!rev ==> dir + 1 > 0)))
                            implies reloc_gain(rt, w, a, b, p, rev) <= best_delta by {
                            if a == l && b == r && rev == reversed {
                                let c = rt[p];
                                lemma_adjacent_symmetric(nn, c as int, head as int);
                                assert(lists_neighbors(nn, head as int, neighbors@[head as int]@));
                                assert(nb@.contains(c));
                                let j = choose|j: int| 0 <= j < nb@.len() && nb@[j] == c;
                                assert(position@[nb@[j] as int] == p);
                            }
                        }
                    }
                    dir += 1;
                }
            }
            proof {
                assert forall|a: int, b: int, p: int, rev: bool| #[trigger] valid_relocation(nn, rt, a, b, p, rev)
                    && reloc_seen(a, b, seg_len as int, l + 1) implies reloc_gain(rt, w, a, b, p, rev) <= best_delta by {
                    if a == l && b - a + 1 == seg_len {
                        assert(b == r);
                    }
                }
            }
            l += 1;
        }
        proof {
            assert forall|a: int, b: int, p: int, rev: bool| #[trigger] valid_relocation(nn, rt, a, b, p, rev)
                && b - a + 1 < seg_len + 1 implies reloc_gain(rt, w, a, b, p, rev) <= best_delta by {
                assert(reloc_seen(a, b, seg_len as int, l as int));
            }
        }
        seg_len += 1;
    }
    best
}

} // verus!
