//! Block and coordinate helpers for hierarchical constructions: cell and
//! block numbering, traversal patterns of a square, their symmetric images,
//! and path checks.
use vstd::prelude::*;
use crate::grid::{row_of, col_of, adjacent, is_route, lemma_cell_coords, lemma_cell_bound, lemma_cell_split,
    raw_score, raw_prefix, cells_in, MAX_CELLS, MAX_WEIGHT};

verus! {

/// Cell `(r, c)` of a side-`n` board.
pub fn cell_id(r: usize, c: usize, n: usize) -> (id: usize)
    requires
        r * n + c <= usize::MAX,
    ensures
        id == r * n + c,
{
    r * n + c
}

/// Block `(br, bc)` of a side-`b` grid of blocks.
pub fn block_id(br: usize, bc: usize, b: usize) -> (id: usize)
    requires
        br * b + bc <= usize::MAX,
    ensures
        id == br * b + bc,
{
    br * b + bc
}

/// The four cells of each 2 by 2 block of a side-`n` board cut into `b` by
/// `b` blocks: top-left, top-right, bottom-left, bottom-right.
pub fn build_block_cells(n: usize, b: usize) -> (blocks: Vec<[usize; 4]>)
    requires
        2 * b <= n,
        n * n <= MAX_CELLS,
    ensures
        blocks@.len() == b * b,
        forall|br: int, bc: int| 0 <= br < b && 0 <= bc < b ==> #[trigger] blocks@[br * b + bc]@ == seq![
            (2 * br * n + 2 * bc) as usize,
            (2 * br * n + 2 * bc + 1) as usize,
            ((2 * br + 1) * n + 2 * bc) as usize,
            ((2 * br + 1) * n + 2 * bc + 1) as usize,
        ],
{
    let mut blocks: Vec<[usize; 4]> = Vec::new();
    proof {
        assert(0 * b == 0);
    }
    let mut br: usize = 0;
    while br < b
        invariant
            2 * b <= n,
            n * n <= MAX_CELLS,
            br <= b,
            blocks@.len() == br * b,
            forall|x: int, y: int| 0 <= x < br && 0 <= y < b ==> #[trigger] blocks@[x * b + y]@ == seq![
                (2 * x * n + 2 * y) as usize,
                (2 * x * n + 2 * y + 1) as usize,
                ((2 * x + 1) * n + 2 * y) as usize,
                ((2 * x + 1) * n + 2 * y + 1) as usize,
            ],
        decreases b - br,
    {
        let mut bc: usize = 0;
        while bc < b
            invariant
                2 * b <= n,
                n * n <= MAX_CELLS,
                br < b,
                bc <= b,
                blocks@.len() == br * b + bc,
                forall|x: int, y: int| 0 <= x < br && 0 <= y < b ==> #[trigger] blocks@[x * b + y]@ == seq![
                    (2 * x * n + 2 * y) as usize,
                    (2 * x * n + 2 * y + 1) as usize,
                    ((2 * x + 1) * n + 2 * y) as usize,
                    ((2 * x + 1) * n + 2 * y + 1) as usize,
                ],
                forall|y: int| 0 <= y < bc ==> #[trigger] blocks@[br * b + y]@ == seq![
                    (2 * br * n + 2 * y) as usize,
                    (2 * br * n + 2 * y + 1) as usize,
                    ((2 * br + 1) * n + 2 * y) as usize,
                    ((2 * br + 1) * n + 2 * y + 1) as usize,
                ],
            decreases b - bc,
        {
            let r = br * 2;
            let c = bc * 2;
            proof {
                assert((r + 1) * n + c + 1 < n * n) by (nonlinear_arith)
                    requires r + 1 < n, c + 1 < n, r == br * 2, 2 * b <= n, br < b;
                assert(r * n + c + 1 <= (r + 1) * n + c + 1) by (nonlinear_arith)
                    requires r + 1 < n, c + 1 < n;
                assert(2 * br * n == r * n);
            }
            let cells: [usize; 4] = [cell_id(r, c, n), cell_id(r, c + 1, n), cell_id(r + 1, c, n), cell_id(r + 1, c + 1, n)];
            blocks.push(cells);
            proof {
                assert forall|x: int, y: int| 0 <= x < br && 0 <= y < b implies #[trigger] blocks@[x * b + y]@ == seq![
                    (2 * x * n + 2 * y) as usize,
                    (2 * x * n + 2 * y + 1) as usize,
                    ((2 * x + 1) * n + 2 * y) as usize,
                    ((2 * x + 1) * n + 2 * y + 1) as usize,
                ] by {
                    assert(x * b + y < br * b) by (nonlinear_arith) requires x < br, y < b;
                }
                assert(blocks@[br * b + bc as int]@ =~= seq![
                    (2 * br * n + 2 * bc) as usize,
                    (2 * br * n + 2 * bc + 1) as usize,
                    ((2 * br + 1) * n + 2 * bc) as usize,
                    ((2 * br + 1) * n + 2 * bc + 1) as usize,
                ]);
            }
            bc += 1;
        }
        proof {
            assert((br + 1) * b == br * b + b) by (nonlinear_arith);
        }
        br += 1;
    }
    blocks
}

/// The 12 ordered pairs `(s, t)` of distinct corners `0..4`, in increasing order.
pub fn build_states() -> (states: [(u8, u8); 12])
    ensures
        states@ == seq![(0u8, 1u8), (0u8, 2u8), (0u8, 3u8), (1u8, 0u8), (1u8, 2u8), (1u8, 3u8),
            (2u8, 0u8), (2u8, 1u8), (2u8, 3u8), (3u8, 0u8), (3u8, 1u8), (3u8, 2u8)],
{
    let mut states: [(u8, u8); 12] = [(0u8, 0u8); 12];
    let mut idx: usize = 0;
    let mut s: u8 = 0;
    while s < 4
        invariant
            s <= 4,
            idx == 3 * s,
            forall|k: int| 0 <= k < idx ==> #[trigger] states@[k] == seq![(0u8, 1u8), (0u8, 2u8), (0u8, 3u8), (1u8, 0u8), (1u8, 2u8), (1u8, 3u8),
                (2u8, 0u8), (2u8, 1u8), (2u8, 3u8), (3u8, 0u8), (3u8, 1u8), (3u8, 2u8)][k],
        decreases 4 - s,
    {
        let mut t: u8 = 0;
        while t < 4
            invariant
                s < 4,
                t <= 4,
                idx == 3 * s + t - (if t > s { 1int } else { 0int }),
                forall|k: int| 0 <= k < idx ==> #[trigger] states@[k] == seq![(0u8, 1u8), (0u8, 2u8), (0u8, 3u8), (1u8, 0u8), (1u8, 2u8), (1u8, 3u8),
                    (2u8, 0u8), (2u8, 1u8), (2u8, 3u8), (3u8, 0u8), (3u8, 1u8), (3u8, 2u8)][k],
            decreases 4 - t,
        {
            if s != t {
                states.set(idx, (s, t));
                idx += 1;
            }
            t += 1;
        }
        s += 1;
    }
    proof {
        assert(states@ =~= seq![(0u8, 1u8), (0u8, 2u8), (0u8, 3u8), (1u8, 0u8), (1u8, 2u8), (1u8, 3u8),
            (2u8, 0u8), (2u8, 1u8), (2u8, 3u8), (3u8, 0u8), (3u8, 1u8), (3u8, 2u8)]);
    }
    states
}

/// `a` and `b` are one king move apart.
pub open spec fn coords_adjacent(ar: int, ac: int, br: int, bc: int) -> bool {
    -1 <= ar - br <= 1 && -1 <= ac - bc <= 1 && !(ar == br && ac == bc)
}

/// Whether the grid points `a` and `b` are one king move apart.
pub fn coords_adj(a: (i16, i16), b: (i16, i16)) -> (res: bool)
    ensures
        res == coords_adjacent(a.0 as int, a.1 as int, b.0 as int, b.1 as int),
{
    let dr = a.0 as i32 - b.0 as i32;
    let dc = a.1 as i32 - b.1 as i32;
    let dr = if dr < 0 { -dr } else { dr };
    let dc = if dc < 0 { -dc } else { dc };
    dr <= 1 && dc <= 1 && (dr != 0 || dc != 0)
}

/// Whether the cells `a` and `b`, at the coordinates `coords` records, are
/// one king move apart.
pub fn cell_adj(a: usize, b: usize, coords: &[(u16, u16)]) -> (res: bool)
    requires
        a < coords@.len(),
        b < coords@.len(),
    ensures
        res == coords_adjacent(coords@[a as int].0 as int, coords@[a as int].1 as int,
            coords@[b as int].0 as int, coords@[b as int].1 as int),
{
    let (ar, ac) = coords[a];
    let (br, bc) = coords[b];
    let dr = if ar > br { ar - br } else { br - ar };
    let dc = if ac > bc { ac - bc } else { bc - ac };
    dr <= 1 && dc <= 1 && (dr != 0 || dc != 0)
}

/// Row and column of every cell of a side-`n` board.
pub fn build_cell_coords(n: usize) -> (coords: Vec<(u16, u16)>)
    requires
        n <= 65535,
        n * n <= MAX_CELLS,
    ensures
        coords@.len() == n * n,
        forall|r: int, c: int| 0 <= r < n && 0 <= c < n ==> #[trigger] coords@[r * n + c] == (r as u16, c as u16),
{
    let mut coords: Vec<(u16, u16)> = Vec::new();
    proof {
        assert(0 * n == 0);
    }
    let mut r: usize = 0;
    while r < n
        invariant
            n <= 65535,
            n * n <= MAX_CELLS,
            r <= n,
            coords@.len() == r * n,
            forall|x: int, y: int| 0 <= x < r && 0 <= y < n ==> #[trigger] coords@[x * n + y] == (x as u16, y as u16),
        decreases n - r,
    {
        let mut c: usize = 0;
        while c < n
            invariant
                n <= 65535,
                n * n <= MAX_CELLS,
                r < n,
                c <= n,
                coords@.len() == r * n + c,
                forall|x: int, y: int| 0 <= x < r && 0 <= y < n ==> #[trigger] coords@[x * n + y] == (x as u16, y as u16),
                forall|y: int| 0 <= y < c ==> #[trigger] coords@[r * n + y] == (r as u16, y as u16),
            decreases n - c,
        {
            proof {
                assert(r * n + c < n * n) by (nonlinear_arith) requires r < n, c < n;
            }
            coords.push((r as u16, c as u16));
            proof {
                assert forall|x: int, y: int| 0 <= x < r && 0 <= y < n implies #[trigger] coords@[x * n + y] == (x as u16, y as u16) by {
                    assert(x * n + y < r * n) by (nonlinear_arith) requires x < r, y < n;
                }
            }
            c += 1;
        }
        proof {
            assert((r + 1) * n == r * n + n) by (nonlinear_arith);
        }
        r += 1;
    }
    coords
}

/// The grid points `(r, c)` of a side-`side` square, row by row.
pub fn build_local_coords(side: usize) -> (coords: Vec<(i16, i16)>)
    requires
        side <= 1000,
    ensures
        coords@.len() == side * side,
        forall|r: int, c: int| 0 <= r < side && 0 <= c < side ==> #[trigger] coords@[r * side + c] == (r as i16, c as i16),
{
    let mut coords: Vec<(i16, i16)> = Vec::new();
    proof {
        assert(0 * side == 0);
    }
    let mut r: usize = 0;
    while r < side
        invariant
            side <= 1000,
            r <= side,
            coords@.len() == r * side,
            forall|x: int, y: int| 0 <= x < r && 0 <= y < side ==> #[trigger] coords@[x * side + y] == (x as i16, y as i16),
        decreases side - r,
    {
        let mut c: usize = 0;
        while c < side
            invariant
                side <= 1000,
                r < side,
                c <= side,
                coords@.len() == r * side + c,
                forall|x: int, y: int| 0 <= x < r && 0 <= y < side ==> #[trigger] coords@[x * side + y] == (x as i16, y as i16),
                forall|y: int| 0 <= y < c ==> #[trigger] coords@[r * side + y] == (r as i16, y as i16),
            decreases side - c,
        {
            coords.push((r as i16, c as i16));
            proof {
                assert forall|x: int, y: int| 0 <= x < r && 0 <= y < side implies #[trigger] coords@[x * side + y] == (x as i16, y as i16) by {
                    assert(x * side + y < r * side) by (nonlinear_arith) requires x < r, y < side;
                }
            }
            c += 1;
        }
        proof {
            assert((r + 1) * side == r * side + side) by (nonlinear_arith);
        }
        r += 1;
    }
    coords
}

/// The image of `(r, c)` in a side-`b` square under symmetry `sym`: the
/// identity, the three rotations, then the four reflections.
pub open spec fn square_symmetry(r: int, c: int, b: int, sym: int) -> (int, int) {
    if sym == 0 {
        (r, c)
    } else if sym == 1 {
        (c, b - 1 - r)
    } else if sym == 2 {
        (b - 1 - r, b - 1 - c)
    } else if sym == 3 {
        (b - 1 - c, r)
    } else if sym == 4 {
        (r, b - 1 - c)
    } else if sym == 5 {
        (b - 1 - r, c)
    } else if sym == 6 {
        (c, r)
    } else {
        (b - 1 - c, b - 1 - r)
    }
}

/// The image of `(r, c)` under symmetry `sym` of a side-`b` square.
pub fn apply_symmetry(r: usize, c: usize, b: usize, sym: usize) -> (res: (usize, usize))
    requires
        r < b,
        c < b,
        sym < 8,
    ensures
        res.0 == square_symmetry(r as int, c as int, b as int, sym as int).0,
        res.1 == square_symmetry(r as int, c as int, b as int, sym as int).1,
        res.0 < b,
        res.1 < b,
{
    match sym {
        0 => (r, c),
        1 => (c, b - 1 - r),
        2 => (b - 1 - r, b - 1 - c),
        3 => (b - 1 - c, r),
        4 => (r, b - 1 - c),
        5 => (b - 1 - r, c),
        6 => (c, r),
        _ => (b - 1 - c, b - 1 - r),
    }
}

/// Cell `k` of the row snake of a side-`b` square: rows top to bottom, even
/// rows left to right, odd rows right to left.
pub open spec fn row_snake_coord(b: int, k: int) -> (usize, usize) {
    let r = k / b;
    let c = k % b;
    (r as usize, (if r % 2 == 0 { c } else { b - 1 - c }) as usize)
}

/// The row snake of a side-`b` square.
pub fn row_snake_coords(b: usize) -> (path: Vec<(usize, usize)>)
    requires
        b * b <= MAX_CELLS,
    ensures
        path@.len() == b * b,
        forall|k: int| 0 <= k < b * b ==> #[trigger] path@[k] == row_snake_coord(b as int, k),
{
    let mut path: Vec<(usize, usize)> = Vec::new();
    let mut r: usize = 0;
    proof {
        assert(0 * b == 0);
    }
    while r < b
        invariant
            b * b <= MAX_CELLS,
            r <= b,
            path@.len() == r * b,
            forall|k: int| 0 <= k < r * b ==> #[trigger] path@[k] == row_snake_coord(b as int, k),
        decreases b - r,
    {
        let mut c: usize = 0;
        while c < b
            invariant
                b * b <= MAX_CELLS,
                r < b,
                c <= b,
                path@.len() == r * b + c,
                forall|k: int| 0 <= k < r * b + c ==> #[trigger] path@[k] == row_snake_coord(b as int, k),
            decreases b - c,
        {
            proof {
                lemma_cell_coords(b as int, r as int, c as int);
            }
            if r % 2 == 0 {
                path.push((r, c));
            } else {
                path.push((r, b - 1 - c));
            }
            c += 1;
        }
        proof {
            assert((r + 1) * b == r * b + b) by (nonlinear_arith);
        }
        r += 1;
    }
    path
}

/// Cell `k` of the pair weave of a side-`b` square: rows are taken in pairs,
/// each pair visited column by column (top cell, then bottom cell), even
/// pairs left to right and odd pairs right to left.
pub open spec fn pair_weave_coord(b: int, k: int) -> (usize, usize) {
    let pair = k / (2 * b);
    let q = k % (2 * b);
    let col = q / 2;
    ((2 * pair + q % 2) as usize, (if pair % 2 == 0 { col } else { b - 1 - col }) as usize)
}

/// The pair weave of a side-`b` square; `b` is even.
pub fn pair_weave_coords(b: usize) -> (path: Vec<(usize, usize)>)
    requires
        b % 2 == 0,
        b * b <= MAX_CELLS,
    ensures
        path@.len() == b * b,
        forall|k: int| 0 <= k < b * b ==> #[trigger] path@[k] == pair_weave_coord(b as int, k),
{
    let mut path: Vec<(usize, usize)> = Vec::new();
    let half = b / 2;
    let mut pair: usize = 0;
    proof {
        assert(0 * (2 * b) == 0);
    }
    while pair < half
        invariant
            b % 2 == 0,
            b * b <= MAX_CELLS,
            half == b / 2,
            pair <= half,
            path@.len() == pair * (2 * b),
            forall|k: int| 0 <= k < pair * (2 * b) ==> #[trigger] path@[k] == pair_weave_coord(b as int, k),
        decreases half - pair,
    {
        let r0 = pair * 2;
        let r1 = r0 + 1;
        let mut c: usize = 0;
        while c < b
            invariant
                b % 2 == 0,
                b * b <= MAX_CELLS,
                half == b / 2,
                pair < half,
                r0 == pair * 2,
                r1 == r0 + 1,
                c <= b,
                path@.len() == pair * (2 * b) + 2 * c,
                forall|k: int| 0 <= k < pair * (2 * b) + 2 * c ==> #[trigger] path@[k] == pair_weave_coord(b as int, k),
            decreases b - c,
        {
            let col = if pair % 2 == 0 { c } else { b - 1 - c };
            proof {
                let k0 = pair * (2 * b) + 2 * c;
                lemma_cell_coords(2 * b as int, pair as int, 2 * c as int);
                lemma_cell_coords(2 * b as int, pair as int, 2 * c + 1);
                assert(pair * (2 * b) == pair * (2 * b as int));
                assert((2 * c) / 2 == c && (2 * c) % 2 == 0);
                assert((2 * c + 1) / 2 == c && (2 * c + 1) % 2 == 1);
                assert(pair_weave_coord(b as int, k0) == (r0, col));
                assert(pair_weave_coord(b as int, k0 + 1) == (r1, col));
            }
            path.push((r0, col));
            path.push((r1, col));
            c += 1;
        }
        proof {
            assert((pair + 1) * (2 * b) == pair * (2 * b) + 2 * b) by (nonlinear_arith);
        }
        pair += 1;
    }
    proof {
        assert(half * (2 * b) == b * b) by (nonlinear_arith)
            requires half == b / 2, b % 2 == 0;
    }
    path
}

/// The cells of diagonal `s` (those with `r + c == s`) of a side-`b` square,
/// in the order the diagonal snake takes them: rows descending on even
/// diagonals, ascending on odd ones.
pub open spec fn diagonal(b: int, s: int) -> Seq<(usize, usize)> {
    let r_min = if s - (b - 1) > 0 { s - (b - 1) } else { 0 };
    let r_max = if s < b - 1 { s } else { b - 1 };
    let len = r_max - r_min + 1;
    Seq::new(len as nat, |k: int| {
        let r = if s % 2 == 0 { r_max - k } else { r_min + k };
        (r as usize, (s - r) as usize)
    })
}

/// The first `s` diagonals of the diagonal snake, one after the other.
pub open spec fn diagonals_upto(b: int, s: int) -> Seq<(usize, usize)>
    decreases s,
{
    if s <= 0 { Seq::empty() } else { diagonals_upto(b, s - 1) + diagonal(b, s - 1) }
}

/// The diagonal snake of a side-`b` square: the diagonals `r + c == s` for
/// `s` from 0 to `2 * (b - 1)`, alternating direction.
pub fn diag_snake_coords(b: usize) -> (path: Vec<(usize, usize)>)
    requires
        1 <= b,
        b * b <= MAX_CELLS,
    ensures
        path@ == diagonals_upto(b as int, 2 * b - 1),
{
    let mut path: Vec<(usize, usize)> = Vec::new();
    proof {
        assert(b <= 1000) by (nonlinear_arith)
            requires b * b <= 1_000_000, b >= 1;
    }
    let last = 2 * (b - 1);
    let mut s: usize = 0;
    while s <= last
        invariant
            1 <= b,
            b * b <= MAX_CELLS,
            last == 2 * (b - 1),
            s <= last + 1,
            path@ == diagonals_upto(b as int, s as int),
        decreases last + 1 - s,
    {
        let r_min = if s > b - 1 { s - (b - 1) } else { 0 };
        let r_max = if s < b - 1 { s } else { b - 1 };
        let ghost d = diagonal(b as int, s as int);
        let ghost base = path@;
        let mut k: usize = 0;
        let count = r_max - r_min + 1;
        while k < count
            invariant
                1 <= b,
                b * b <= MAX_CELLS,
                r_min <= r_max <= s,
                r_max < b,
                r_min == (if s - (b - 1) > 0 { s - (b - 1) } else { 0 }),
                r_max == (if s < b - 1 { s as int } else { b - 1 }),
                count == r_max - r_min + 1,
                d == diagonal(b as int, s as int),
                d.len() == count,
                k <= count,
                path@ == base + d.subrange(0, k as int),
            decreases count - k,
        {
            let r = if s % 2 == 0 { r_max - k } else { r_min + k };
            proof {
                assert(d[k as int] == (r, (s - r) as usize));
            }
            path.push((r, s - r));
            k += 1;
            proof {
                assert(path@ =~= base + d.subrange(0, k as int));
            }
        }
        proof {
            assert(d.subrange(0, k as int) =~= d);
        }
        s += 1;
    }
    path
}

/// The mask of the square's borders that `cell` lies on: bit 0 top, bit 1
/// bottom, bit 2 left, bit 3 right.
pub open spec fn border_bits(r: int, c: int, top: int, bottom: int, left: int, right: int) -> int {
    (if r == top { 1int } else { 0 }) + (if r == bottom { 2int } else { 0 })
        + (if c == left { 4int } else { 0 }) + (if c == right { 8int } else { 0 })
}

/// Which borders of the rectangle `top..=bottom` by `left..=right` the cell
/// lies on, as a bit mask.
pub fn boundary_mask(cell: usize, cell_coords: &[(u16, u16)], top: usize, bottom: usize, left: usize, right: usize)
    -> (mask: u8)
    requires
        cell < cell_coords@.len(),
    ensures
        mask == border_bits(cell_coords@[cell as int].0 as int, cell_coords@[cell as int].1 as int,
            top as int, bottom as int, left as int, right as int),
{
    let (r, c) = cell_coords[cell];
    let r = r as usize;
    let c = c as usize;
    let mut mask = 0u8;
    if r == top {
        mask = mask + 1;
    }
    if r == bottom {
        mask = mask + 2;
    }
    if c == left {
        mask = mask + 4;
    }
    if c == right {
        mask = mask + 8;
    }
    mask
}

/// `path` visits every cell of a side-`n` board once, consecutive cells
/// one king move apart at the coordinates `coords` records.
pub open spec fn valid_coord_path(path: Seq<usize>, n: int, coords: Seq<(u16, u16)>) -> bool {
    &&& path.len() == n * n
    &&& forall|k: int| 0 <= k < path.len() ==> #[trigger] path[k] < n * n
    &&& path.no_duplicates()
    &&& forall|k: int| 0 <= k < path.len() - 1 ==> #[trigger] coords_adjacent(
        coords[path[k] as int].0 as int, coords[path[k] as int].1 as int,
        coords[path[k + 1] as int].0 as int, coords[path[k + 1] as int].1 as int)
}

/// Whether `path` visits every cell of the side-`n` board once by king moves.
pub fn validate_path(path: &[usize], n: usize, coords: &[(u16, u16)]) -> (ok: bool)
    requires
        1 <= n,
        n * n <= MAX_CELLS,
        coords@.len() >= n * n,
    ensures
        ok == valid_coord_path(path@, n as int, coords@),
{
    let nn = n * n;
    if path.len() != nn {
        return false;
    }
    let mut used: Vec<bool> = Vec::new();
    let mut z: usize = 0;
    while z < nn
        invariant
            z <= nn,
            used@.len() == z,
            forall|x: int| 0 <= x < z ==> !#[trigger] used@[x],
        decreases nn - z,
    {
        used.push(false);
        z += 1;
    }
    let mut k: usize = 0;
    while k < path.len()
        invariant
            nn == n * n,
            path@.len() == nn,
            k <= nn,
            used@.len() == nn,
            forall|q: int| 0 <= q < k ==> #[trigger] path@[q] < nn,
            forall|a: int, b: int| 0 <= a < b < k ==> path@[a] != path@[b],
            forall|x: int| 0 <= x < nn ==> (#[trigger] used@[x] <==> exists|q: int| 0 <= q < k && path@[q] == x),
        decreases nn - k,
    {
        let cell = path[k];
        if cell >= nn {
            return false;
        }
        if used[cell] {
            proof {
                let q = choose|q: int| 0 <= q < k && path@[q] == cell;
                assert(path@[q] == path@[k as int]);
            }
            return false;
        }
        used.set(cell, true);
        proof {
            assert forall|x: int| 0 <= x < nn implies (#[trigger] used@[x] <==> exists|q: int| 0 <= q < k + 1 && path@[q] == x) by {
                if x == cell {
                    assert(path@[k as int] == x);
                } else if exists|q: int| 0 <= q < k + 1 && path@[q] == x {
                    let q = choose|q: int| 0 <= q < k + 1 && path@[q] == x;
                    assert(q < k);
                }
            }
            assert forall|a: int, b: int| 0 <= a < b < k + 1 implies path@[a] != path@[b] by {
                if b == k && path@[a] == path@[b] {
                    assert(used@[cell as int]);
                }
            }
        }
        k += 1;
    }
    proof {
        assert(nn >= 1) by (nonlinear_arith)
            requires nn == n * n, n >= 1;
    }
    let mut i: usize = 0;
    while i < nn - 1
        invariant
            nn == n * n,
            1 <= nn,
            path@.len() == nn,
            coords@.len() >= nn,
            forall|q: int| 0 <= q < nn ==> #[trigger] path@[q] < nn,
            i <= nn - 1,
            forall|q: int| 0 <= q < i ==> #[trigger] coords_adjacent(
                coords@[path@[q] as int].0 as int, coords@[path@[q] as int].1 as int,
                coords@[path@[q + 1] as int].0 as int, coords@[path@[q + 1] as int].1 as int),
        decreases nn - 1 - i,
    {
        proof {
            assert(path@[i as int] < nn);
            assert(path@[i + 1] < nn);
        }
        if !cell_adj(path[i], path[i + 1], coords) {
            return false;
        }
        i += 1;
    }
    proof {
        assert(path@.no_duplicates());
    }
    true
}

/// `t` squared.
pub open spec fn square(t: int) -> int {
    t * t
}

/// The exact square root of a perfect square.
pub fn int_sqrt_exact(x: usize) -> (s: usize)
    requires
        exists|r: nat| #[trigger] square(r as int) == x,
    ensures
        s * s == x,
{
    let ghost root = choose|r: nat| #[trigger] square(r as int) == x;
    let mut lo: u128 = 0;
    let mut hi: u128 = if (x as u128) < 0x1_0000_0000 { x as u128 + 1 } else { 0x1_0000_0000 };
    proof {
        assert(hi * hi >= x) by (nonlinear_arith)
            requires hi == x + 1 || (hi == 0x1_0000_0000 && x <= 0xffff_ffff_ffff_ffff), x >= 0;
    }
    while lo < hi
        invariant
            lo <= hi <= 0x1_0000_0000,
            x <= usize::MAX,
            forall|t: int| 0 <= t < lo ==> #[trigger] square(t) < x,
            hi * hi >= x,
        decreases hi - lo,
    {
        let mid = lo + (hi - lo) / 2;
        proof {
            assert(mid * mid <= 0x1_0000_0000_0000_0000) by (nonlinear_arith)
                requires 0 <= mid <= 0x1_0000_0000;
        }
        if mid * mid < x as u128 {
            proof {
                assert forall|t: int| 0 <= t < mid + 1 implies #[trigger] square(t) < x by {
                    if t >= lo {
                        assert(t * t <= mid * mid) by (nonlinear_arith)
                            requires 0 <= t <= mid;
                    }
                }
            }
            lo = mid + 1;
        } else {
            hi = mid;
        }
    }
    proof {
        assert(square(root as int) == x);
        if root < lo {
            assert(square(root as int) < x);
        }
        if lo < root {
            assert(lo * lo < root * root) by (nonlinear_arith)
                requires 0 <= lo < root;
        }
        assert(root == lo);
        assert(lo * lo == x);
        assert(lo <= lo * lo || lo == 0) by (nonlinear_arith)
            requires lo >= 0;
    }
    lo as usize
}

/// The slot of a pair of corners of a side-`side` square, whichever end is
/// which: top-left/top-right 0, top-left/bottom-left 1, top-left/bottom-right
/// 2, top-right/bottom-left 3, top-right/bottom-right 4, bottom-left/
/// bottom-right 5.
pub open spec fn corner_slot(head: int, tail: int, side: int) -> Option<usize> {
    let tl: int = 0;
    let tr = side - 1;
    let bl = side * (side - 1);
    let br = side * side - 1;
    let a = if head < tail { head } else { tail };
    let b = if head < tail { tail } else { head };
    if a == tl && b == tr {
        Some(0)
    } else if a == tl && b == bl {
        Some(1)
    } else if a == tl && b == br {
        Some(2)
    } else if a == tr && b == bl {
        Some(3)
    } else if a == tr && b == br {
        Some(4)
    } else if a == bl && b == br {
        Some(5)
    } else {
        None
    }
}

/// Which pair of corners `head` and `tail` are, if they are two corners.
pub fn corner_pair_slot(head: usize, tail: usize, side: usize) -> (slot: Option<usize>)
    requires
        1 <= side,
        side * side <= MAX_CELLS,
    ensures
        slot == corner_slot(head as int, tail as int, side as int),
{
    proof {
        assert(side * (side - 1) == side * side - side) by (nonlinear_arith);
        assert(side * side >= 1) by (nonlinear_arith)
            requires side >= 1;
    }
    let tl = 0usize;
    let tr = side - 1;
    let bl = side * (side - 1);
    let br = side * side - 1;
    let a = if head < tail { head } else { tail };
    let b = if head < tail { tail } else { head };
    if a == tl && b == tr {
        Some(0)
    } else if a == tl && b == bl {
        Some(1)
    } else if a == tl && b == br {
        Some(2)
    } else if a == tr && b == bl {
        Some(3)
    } else if a == tr && b == br {
        Some(4)
    } else if a == bl && b == br {
        Some(5)
    } else {
        None
    }
}

/// A path with its raw score and the position of each cell on it.
pub struct EvalResult {
    pub raw_score: i128,
    pub path: Vec<usize>,
    pub positions: Vec<u32>,
}

/// The position of the last visit of `cell` among the first `k` steps of
/// `path`, or 0.
pub open spec fn last_position(path: Seq<usize>, cell: int, k: int) -> int
    decreases k,
{
    if k <= 0 {
        0
    } else if path[k - 1] == cell {
        k - 1
    } else {
        last_position(path, cell, k - 1)
    }
}

/// Scores a path: the raw score (step `t` weighs its cell's value `t`
/// times), a copy of the path, and where each cell was (last) visited.
pub fn evaluate_path(path: &[usize], raw_values: &[i64]) -> (res: EvalResult)
    requires
        path@.len() <= 0x8000_0000,
        cells_in(path@, raw_values@.len() as int),
    ensures
        res.raw_score == raw_score(path@, raw_values@),
        res.path@ == path@,
        res.positions@.len() == raw_values@.len(),
        forall|c: int| 0 <= c < raw_values@.len() ==> #[trigger] res.positions@[c]
            == last_position(path@, c, path@.len() as int),
{
    let mut positions: Vec<u32> = Vec::new();
    let mut z: usize = 0;
    while z < raw_values.len()
        invariant
            z <= raw_values@.len(),
            positions@.len() == z,
            forall|x: int| 0 <= x < z ==> #[trigger] positions@[x] == 0,
        decreases raw_values@.len() - z,
    {
        positions.push(0);
        z += 1;
    }
    let mut copy: Vec<usize> = Vec::new();
    let mut score: i128 = 0;
    let mut pos: usize = 0;
    while pos < path.len()
        invariant
            path@.len() <= 0x8000_0000,
            cells_in(path@, raw_values@.len() as int),
            pos <= path@.len(),
            positions@.len() == raw_values@.len(),
            forall|c: int| 0 <= c < raw_values@.len() ==> #[trigger] positions@[c]
                == last_position(path@, c, pos as int),
            copy@ == path@.subrange(0, pos as int),
            score == raw_prefix(path@, raw_values@, pos as int),
            -pos * 0x8000_0000_0000_0000_0000_0000 <= score <= pos * 0x8000_0000_0000_0000_0000_0000,
        decreases path@.len() - pos,
    {
        let cell = path[pos];
        proof {
            assert(cell < raw_values@.len());
            let x = raw_values@[cell as int];
            assert(-0x8000_0000_0000_0000_0000_0000 <= pos * x <= 0x8000_0000_0000_0000_0000_0000) by (nonlinear_arith)
                requires 0 <= pos < 0x8000_0000, i64::MIN <= x <= i64::MAX;
            assert((pos + 1) * 0x8000_0000_0000_0000_0000_0000 <= 0x8000_0000 * 0x8000_0000_0000_0000_0000_0000) by (nonlinear_arith)
                requires pos + 1 <= 0x8000_0000;
        }
        positions.set(cell, pos as u32);
        score = score + (pos as i128) * (raw_values[cell] as i128);
        copy.push(cell);
        pos += 1;
        proof {
            assert(copy@ =~= path@.subrange(0, pos as int));
        }
    }
    proof {
        assert(path@.subrange(0, pos as int) =~= path@);
    }
    EvalResult { raw_score: score, path: copy, positions }
}

} // verus!
