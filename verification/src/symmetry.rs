//! The eight symmetries of the square board and what they do to routes and
//! weights.
use vstd::prelude::*;
use crate::grid::{row_of, col_of, adjacent, is_route, is_permutation_route, raw_score, raw_prefix, valid_side,
    lemma_cell_split, lemma_cell_coords, lemma_cell_bound, cells_in, MAX_CELLS};

verus! {

/// A symmetry: optionally transpose, then optionally flip rows and columns.
#[derive(Debug, Clone, Copy, PartialEq, Eq, Structural)]
pub struct Symmetry {
    pub transpose: bool,
    pub flip_row: bool,
    pub flip_col: bool,
}

/// The eight symmetries, identity first.
pub fn symmetries() -> (res: Vec<Symmetry>)
    ensures
        res@.len() == 8,
        forall|k: int| 0 <= k < 8 ==> #[trigger] res@[k] == (Symmetry { transpose: k >= 4, flip_row: k % 2 == 1, flip_col: k % 4 >= 2 }),
{
    let mut res: Vec<Symmetry> = Vec::new();
    let mut k: usize = 0;
    while k < 8
        invariant
            k <= 8,
            res@.len() == k,
            forall|j: int| 0 <= j < k ==> #[trigger] res@[j] == (Symmetry { transpose: j >= 4, flip_row: j % 2 == 1, flip_col: j % 4 >= 2 }),
        decreases 8 - k,
    {
        res.push(Symmetry { transpose: k >= 4, flip_row: k % 2 == 1, flip_col: k % 4 >= 2 });
        k += 1;
    }
    res
}

/// The image of `(row, col)`.
pub open spec fn transform_rc(n: int, s: Symmetry, row: int, col: int) -> (int, int) {
    let a = if s.transpose { col } else { row };
    let b = if s.transpose { row } else { col };
    (if s.flip_row { n - 1 - a } else { a }, if s.flip_col { n - 1 - b } else { b })
}

/// The image of a cell.
pub open spec fn transform_cell_spec(n: int, s: Symmetry, c: int) -> int {
    let rc = transform_rc(n, s, row_of(n, c), col_of(n, c));
    rc.0 * n + rc.1
}

/// A route with every cell mapped by `s`.
pub open spec fn route_image(n: int, s: Symmetry, route: Seq<usize>) -> Seq<usize> {
    route.map_values(|c: usize| transform_cell_spec(n, s, c as int) as usize)
}

/// The image of `(row, col)` under `s`.
pub fn transform_cell(row: usize, col: usize, n: usize, symmetry: Symmetry) -> (res: (usize, usize))
    requires
        row < n,
        col < n,
    ensures
        (res.0 as int, res.1 as int) == transform_rc(n as int, symmetry, row as int, col as int),
        res.0 < n,
        res.1 < n,
{
    let (mut r, mut c) = if symmetry.transpose {
        (col, row)
    } else {
        (row, col)
    };
    if symmetry.flip_row {
        r = n - 1 - r;
    }
    if symmetry.flip_col {
        c = n - 1 - c;
    }
    (r, c)
}

/// A symmetry maps a cell of the board to a cell of the board, keeps distinct
/// cells distinct and king moves king moves.
pub proof fn lemma_transform_cell(n: int, s: Symmetry, u: int, v: int)
    requires
        valid_side(n),
        0 <= u < n * n,
        0 <= v < n * n,
    ensures
        0 <= transform_cell_spec(n, s, u) < n * n,
        (transform_cell_spec(n, s, u) == transform_cell_spec(n, s, v)) == (u == v),
        adjacent(n, transform_cell_spec(n, s, u), transform_cell_spec(n, s, v)) == adjacent(n, u, v),
{
    lemma_cell_split(n, u);
    lemma_cell_split(n, v);
    lemma_cell_bound(n, row_of(n, u), col_of(n, u));
    lemma_cell_bound(n, row_of(n, v), col_of(n, v));
    let tu = transform_rc(n, s, row_of(n, u), col_of(n, u));
    let tv = transform_rc(n, s, row_of(n, v), col_of(n, v));
    lemma_cell_coords(n, tu.0, tu.1);
    lemma_cell_coords(n, tv.0, tv.1);
    lemma_cell_bound(n, tu.0, tu.1);
}

/// A symmetry keeps a visit of every cell exactly once such a visit.
pub proof fn lemma_route_image_permutation(n: int, s: Symmetry, route: Seq<usize>)
    requires
        valid_side(n),
        is_permutation_route(n, route),
    ensures
        is_permutation_route(n, route_image(n, s, route)),
{
    let t = route_image(n, s, route);
    assert forall|k: int| 0 <= k < t.len() implies #[trigger] t[k] < n * n by {
        lemma_transform_cell(n, s, route[k] as int, route[k] as int);
    }
    assert forall|a: int, b: int| 0 <= a < t.len() && 0 <= b < t.len() && a != b implies t[a] != t[b] by {
        lemma_transform_cell(n, s, route[a] as int, route[b] as int);
        lemma_transform_cell(n, s, route[a] as int, route[a] as int);
        lemma_transform_cell(n, s, route[b] as int, route[b] as int);
        assert(t[a] as int == transform_cell_spec(n, s, route[a] as int));
        assert(t[b] as int == transform_cell_spec(n, s, route[b] as int));
    }
}

/// A symmetry keeps a route a route.
pub proof fn lemma_route_image(n: int, s: Symmetry, route: Seq<usize>)
    requires
        valid_side(n),
        is_route(n, route),
    ensures
        is_route(n, route_image(n, s, route)),
{
    let t = route_image(n, s, route);
    assert forall|k: int| 0 <= k < t.len() implies #[trigger] t[k] < n * n by {
        lemma_transform_cell(n, s, route[k] as int, route[k] as int);
    }
    assert forall|a: int, b: int| 0 <= a < t.len() && 0 <= b < t.len() && a != b implies t[a] != t[b] by {
        lemma_transform_cell(n, s, route[a] as int, route[b] as int);
        lemma_transform_cell(n, s, route[a] as int, route[a] as int);
        lemma_transform_cell(n, s, route[b] as int, route[b] as int);
        assert(t[a] as int == transform_cell_spec(n, s, route[a] as int));
        assert(t[b] as int == transform_cell_spec(n, s, route[b] as int));
    }
    assert forall|k: int| 0 <= k < t.len() - 1 implies #[trigger] adjacent(n, t[k] as int, t[k + 1] as int) by {
        lemma_transform_cell(n, s, route[k] as int, route[k + 1] as int);
        lemma_transform_cell(n, s, route[k] as int, route[k] as int);
        lemma_transform_cell(n, s, route[k + 1] as int, route[k + 1] as int);
        assert(t[k] as int == transform_cell_spec(n, s, route[k] as int));
        assert(t[k + 1] as int == transform_cell_spec(n, s, route[k + 1] as int));
        assert(adjacent(n, route[k] as int, route[k + 1] as int));
    }
}

/// The route with every cell mapped by `symmetry`.
pub fn apply_symmetry_to_route(route: &[usize], n: usize, symmetry: Symmetry) -> (res: Vec<usize>)
    requires
        valid_side(n as int),
        forall|k: int| 0 <= k < route@.len() ==> #[trigger] route@[k] < n * n,
    ensures
        res@ == route_image(n as int, symmetry, route@),
        is_route(n as int, route@) ==> is_route(n as int, res@),
        is_permutation_route(n as int, route@) ==> is_permutation_route(n as int, res@),
{
    let mut res: Vec<usize> = Vec::new();
    let mut k: usize = 0;
    while k < route.len()
        invariant
            valid_side(n as int),
            forall|k: int| 0 <= k < route@.len() ==> #[trigger] route@[k] < n * n,
            k <= route@.len(),
            res@.len() == k,
            forall|j: int| 0 <= j < k ==> #[trigger] res@[j] == route_image(n as int, symmetry, route@)[j],
        decreases route@.len() - k,
    {
        let cell = route[k];
        let i = cell / n;
        let j = cell % n;
        proof {
            lemma_cell_split(n as int, cell as int);
            lemma_cell_bound(n as int, i as int, j as int);
            lemma_transform_cell(n as int, symmetry, cell as int, cell as int);
        }
        let (r, c) = transform_cell(i, j, n, symmetry);
        proof {
            lemma_cell_bound(n as int, r as int, c as int);
        }
        res.push(r * n + c);
        k += 1;
    }
    proof {
        assert(res@ =~= route_image(n as int, symmetry, route@));
        if is_route(n as int, route@) {
            lemma_route_image(n as int, symmetry, route@);
        }
        if is_permutation_route(n as int, route@) {
            lemma_route_image_permutation(n as int, symmetry, route@);
        }
    }
    res
}

/// The weights seen through `symmetry`: cell `(i, j)` gets the weight of the
/// image of `(i, j)`.
pub fn transform_weights(n: usize, weights: &[i64], symmetry: Symmetry) -> (res: Vec<i64>)
    requires
        valid_side(n as int),
        weights@.len() == n * n,
    ensures
        res@.len() == n * n,
        forall|c: int| 0 <= c < n * n ==> #[trigger] res@[c] == weights@[transform_cell_spec(n as int, symmetry, c)],
{
    let mut res: Vec<i64> = Vec::new();
    let mut c: usize = 0;
    while c < n * n
        invariant
            valid_side(n as int),
            weights@.len() == n * n,
            c <= n * n,
            res@.len() == c,
            forall|d: int| 0 <= d < c ==> #[trigger] res@[d] == weights@[transform_cell_spec(n as int, symmetry, d)],
        decreases n * n - c,
    {
        let i = c / n;
        let j = c % n;
        proof {
            lemma_cell_split(n as int, c as int);
            lemma_cell_bound(n as int, i as int, j as int);
            lemma_transform_cell(n as int, symmetry, c as int, c as int);
        }
        let (oi, oj) = transform_cell(i, j, n, symmetry);
        proof {
            lemma_cell_bound(n as int, oi as int, oj as int);
        }
        res.push(weights[oi * n + oj]);
        c += 1;
    }
    res
}

/// Scoring a route against transformed weights is scoring its image against
/// the original weights.
pub proof fn lemma_score_under_symmetry(n: int, s: Symmetry, route: Seq<usize>, w: Seq<i64>, tw: Seq<i64>)
    requires
        valid_side(n),
        w.len() == n * n,
        tw.len() == n * n,
        forall|c: int| 0 <= c < n * n ==> #[trigger] tw[c] == w[transform_cell_spec(n, s, c)],
        forall|k: int| 0 <= k < route.len() ==> #[trigger] route[k] < n * n,
    ensures
        raw_score(route_image(n, s, route), w) == raw_score(route, tw),
{
    let img = route_image(n, s, route);
    assert forall|k: int| 0 <= k <= route.len() implies #[trigger] raw_prefix(img, w, k) == raw_prefix(route, tw, k) by {
        lemma_score_prefix(n, s, route, w, tw, k);
    }
}

proof fn lemma_score_prefix(n: int, s: Symmetry, route: Seq<usize>, w: Seq<i64>, tw: Seq<i64>, k: int)
    requires
        valid_side(n),
        w.len() == n * n,
        tw.len() == n * n,
        forall|c: int| 0 <= c < n * n ==> #[trigger] tw[c] == w[transform_cell_spec(n, s, c)],
        forall|k: int| 0 <= k < route.len() ==> #[trigger] route[k] < n * n,
        0 <= k <= route.len(),
    ensures
        raw_prefix(route_image(n, s, route), w, k) == raw_prefix(route, tw, k),
    decreases k,
{
    if k > 0 {
        lemma_score_prefix(n, s, route, w, tw, k - 1);
        let c = route[k - 1] as int;
        lemma_transform_cell(n, s, c, c);
        assert(route_image(n, s, route)[k - 1] as int == transform_cell_spec(n, s, c));
    }
}

} // verus!
