//! The judge of the board tour: reading an input and a submitted tour, and
//! scoring the tour.
//!
//! A tour lists cells `(i, j)`; each must be new and, after the first, a king
//! move from the one before. Visiting cell `(i, j)` at turn `t` earns
//! `t * A[i][j]`; the score is that sum divided by `N * N`, rounded.
use vstd::prelude::*;
use crate::tokens::{tokens, tokens_from, lemma_tokens_step, next_token, skip_spaces, word_end,
    usize_token, usize_token_value, i64_token, signed_token_value, parse_usize, parse_i64};
use crate::grid::{valid_side, MAX_CELLS, MAX_WEIGHT, is_route, adjacent, raw_score, raw_prefix, row_of, col_of};
use crate::util::div_toward_zero;
use rand::SeedableRng;
use rand::seq::SliceRandom;

verus! {

/// An instance: the board side and the weight of every cell.
#[derive(Clone, Debug)]
pub struct Input {
    pub n: usize,
    pub a: Vec<Vec<i64>>,
}

impl Input {
    /// `a` is an `n` by `n` matrix.
    pub open spec fn is_square(&self) -> bool {
        &&& self.a@.len() == self.n
        &&& forall|i: int| 0 <= i < self.n ==> #[trigger] self.a@[i]@.len() == self.n
    }

    /// A square instance of a handled size with weights in the handled range.
    pub open spec fn wf(&self) -> bool {
        &&& valid_side(self.n as int)
        &&& self.is_square()
        &&& forall|i: int, j: int| 0 <= i < self.n && 0 <= j < self.n
            ==> -MAX_WEIGHT <= #[trigger] self.a@[i]@[j] <= MAX_WEIGHT
    }

    /// The weight of cell `p`.
    pub open spec fn weight(&self, p: (usize, usize)) -> int {
        self.a@[p.0 as int]@[p.1 as int] as int
    }
}

/// A submitted tour.
#[derive(Clone, Debug)]
pub struct Output {
    pub out: Vec<(usize, usize)>,
}

/// Why a submitted tour could not be read.
#[derive(Debug, Clone, PartialEq, Eq)]
pub enum OutputError {
    /// A coordinate was missing at the end of the text.
    UnexpectedEof,
    /// This token is not a non-negative integer that fits a `usize`.
    ParseError(Vec<u8>),
    /// This coordinate is not below `N`.
    OutOfRange(usize),
    /// More than `N * N` cells were listed.
    TooManyOutputs,
}

/// `t` is a coordinate on a board of side `n`.
pub open spec fn coord_token(t: Seq<u8>, n: int) -> bool {
    usize_token(t) && usize_token_value(t) < n
}

/// `e` is what reading the token `t`, which is no coordinate, reports.
pub open spec fn read_failure(e: OutputError, t: Seq<u8>) -> bool {
    if usize_token(t) {
        e == OutputError::OutOfRange(usize_token_value(t) as usize)
    } else {
        e matches OutputError::ParseError(v) && v@ == t
    }
}

/// Reads a coordinate below `n` from `token`.
pub fn read(token: Option<&[u8]>, n: usize) -> (res: Result<usize, OutputError>)
    ensures
        match token {
            None => res == Err::<usize, OutputError>(OutputError::UnexpectedEof),
            Some(t) => if coord_token(t@, n as int) {
                res == Ok::<usize, OutputError>(usize_token_value(t@) as usize)
            } else {
                res matches Err(e) && read_failure(e, t@)
            },
        },
{
    match token {
        None => Err(OutputError::UnexpectedEof),
        Some(t) => match parse_usize(t) {
            Some(v) => if v < n {
                Ok(v)
            } else {
                Err(OutputError::OutOfRange(v))
            },
            None => {
                let mut copy: Vec<u8> = Vec::new();
                let mut k: usize = 0;
                while k < t.len()
                    invariant
                        k <= t@.len(),
                        copy@ == t@.subrange(0, k as int),
                    decreases t@.len() - k,
                {
                    copy.push(t[k]);
                    k += 1;
                }
                proof {
                    assert(t@.subrange(0, k as int) =~= t@);
                }
                Err(OutputError::ParseError(copy))
            },
        },
    }
}

/// The first `k` tokens are all coordinates.
pub open spec fn coords_upto(toks: Seq<Seq<u8>>, n: int, k: int) -> bool {
    forall|q: int| 0 <= q < k ==> #[trigger] coord_token(toks[q], n)
}

/// Token `k` is the first one that is no coordinate.
pub open spec fn first_bad_coord(toks: Seq<Seq<u8>>, n: int, k: int) -> bool {
    0 <= k < toks.len() && !coord_token(toks[k], n) && coords_upto(toks, n, k)
}

/// How many tokens are read before the cell count could exceed `n * n`.
pub open spec fn scan_len(toks: Seq<Seq<u8>>, n: int) -> int {
    if toks.len() < 2 * (n * n) { toks.len() as int } else { 2 * (n * n) }
}

/// What reading the tour from tokens `toks` gives on a board of side `n`.
pub open spec fn output_outcome(toks: Seq<Seq<u8>>, n: int, res: Result<Output, OutputError>) -> bool {
    match res {
        Ok(o) => {
            &&& coords_upto(toks, n, toks.len() as int)
            &&& toks.len() % 2 == 0
            &&& toks.len() <= 2 * (n * n)
            &&& o.out@.len() * 2 == toks.len()
            &&& forall|c: int| 0 <= c < o.out@.len() ==> #[trigger] o.out@[c]
                == (usize_token_value(toks[2 * c]) as usize, usize_token_value(toks[2 * c + 1]) as usize)
        },
        Err(e) => {
            ||| exists|k: int| #[trigger] first_bad_coord(toks, n, k) && k < scan_len(toks, n) && read_failure(e, toks[k])
            ||| coords_upto(toks, n, scan_len(toks, n)) && toks.len() > 2 * (n * n)
                && e == OutputError::TooManyOutputs
            ||| coords_upto(toks, n, toks.len() as int) && toks.len() <= 2 * (n * n)
                && toks.len() % 2 == 1 && e == OutputError::UnexpectedEof
        },
    }
}

/// Reads a tour: whitespace-separated pairs of coordinates below `N`, at
/// most `N * N` pairs.
pub fn parse_output(input: &Input, f: &[u8]) -> (res: Result<Output, OutputError>)
    requires
        input.n * input.n <= usize::MAX,
    ensures
        output_outcome(tokens(f@), input.n as int, res),
{
    let n = input.n;
    let ghost toks = tokens(f@);
    let ghost nn = n * n;
    let mut out: Vec<(usize, usize)> = Vec::new();
    let mut pos: usize = 0;
    loop
        invariant
            n == input.n,
            nn == n * n,
            n * n <= usize::MAX,
            toks == tokens(f@),
            pos <= f@.len(),
            tokens_from(f@, pos as int) == toks.skip(2 * out@.len() as int),
            2 * out@.len() <= toks.len(),
            out@.len() <= nn,
            coords_upto(toks, n as int, 2 * out@.len() as int),
            forall|c: int| 0 <= c < out@.len() ==> #[trigger] out@[c]
                == (usize_token_value(toks[2 * c]) as usize, usize_token_value(toks[2 * c + 1]) as usize),
        decreases f@.len() - pos,
    {
        let ghost used: int = 2 * out@.len() as int;
        let (s0, e0) = next_token(f, pos);
        proof {
            lemma_tokens_step(f@, pos as int);
        }
        if s0 >= f.len() {
            proof {
                assert(toks.skip(used).len() == 0);
            }
            return Ok(Output { out });
        }
        proof {
            assert(toks.skip(used)[0] == f@.subrange(s0 as int, e0 as int));
            assert(toks[used] == f@.subrange(s0 as int, e0 as int));
        }
        if out.len() >= n * n {
            proof {
                assert(scan_len(toks, n as int) == used);
            }
            return Err(OutputError::TooManyOutputs);
        }
        let first = read(Some(&f[s0..e0]), n);
        let x = match first {
            Ok(v) => v,
            Err(e) => {
                proof {
                    assert(first_bad_coord(toks, n as int, used));
                }
                return Err(e);
            },
        };
        proof {
            assert(toks.skip(used + 1) =~= toks.skip(used).drop_first());
            assert(tokens_from(f@, e0 as int) == toks.skip(used + 1));
        }
        let (s1, e1) = next_token(f, e0);
        proof {
            lemma_tokens_step(f@, e0 as int);
        }
        if s1 >= f.len() {
            proof {
                assert(toks.skip(used + 1).len() == 0);
                assert(toks.len() == used + 1);
                assert(coords_upto(toks, n as int, toks.len() as int));
            }
            return Err(OutputError::UnexpectedEof);
        }
        proof {
            assert(toks.skip(used + 1)[0] == f@.subrange(s1 as int, e1 as int));
            assert(toks[used + 1] == f@.subrange(s1 as int, e1 as int));
        }
        let second = read(Some(&f[s1..e1]), n);
        let y = match second {
            Ok(v) => v,
            Err(e) => {
                proof {
                    assert(first_bad_coord(toks, n as int, used + 1));
                }
                return Err(e);
            },
        };
        proof {
            assert(toks.skip(used + 2) =~= toks.skip(used + 1).drop_first());
        }
        out.push((x, y));
        pos = e1;
        proof {
            assert(coords_upto(toks, n as int, 2 * out@.len() as int));
        }
    }
}

/// Why a tour scores nothing, or is incomplete.
#[derive(Debug, Clone, Copy, PartialEq, Eq, Structural)]
pub enum ScoreIssue {
    /// The cell `(i, j)` listed at `turn` was visited before.
    DuplicateMove { turn: usize, i: usize, j: usize },
    /// The cell `(i, j)` listed at `turn` is no king move from `(pi, pj)`.
    InvalidMove { turn: usize, pi: usize, pj: usize, i: usize, j: usize },
    /// Fewer than `N * N` cells were listed.
    NotFinished,
}

/// Every listed cell is on the board of side `n`.
pub open spec fn on_board(n: int, out: Seq<(usize, usize)>) -> bool {
    forall|t: int| 0 <= t < out.len() ==> (#[trigger] out[t]).0 < n && out[t].1 < n
}

/// The cell listed at `t` was listed before.
pub open spec fn repeats_earlier(out: Seq<(usize, usize)>, t: int) -> bool {
    exists|s: int| 0 <= s < t && #[trigger] out[s] == out[t]
}

/// `p` and `q` are one king move apart.
pub open spec fn king_step(p: (usize, usize), q: (usize, usize)) -> bool {
    let di = if p.0 >= q.0 { p.0 - q.0 } else { q.0 - p.0 };
    let dj = if p.1 >= q.1 { p.1 - q.1 } else { q.1 - p.1 };
    (if di > dj { di } else { dj }) == 1
}

/// The cell listed at `t` breaks the rules.
pub open spec fn move_fault(out: Seq<(usize, usize)>, t: int) -> bool {
    repeats_earlier(out, t) || (t > 0 && !king_step(out[t - 1], out[t]))
}

/// The first `k` cells keep the rules.
pub open spec fn faultless(out: Seq<(usize, usize)>, k: int) -> bool {
    forall|t: int| 0 <= t < k ==> !#[trigger] move_fault(out, t)
}

/// The issue reported for a fault at `t`.
pub open spec fn fault_issue(out: Seq<(usize, usize)>, t: int) -> ScoreIssue {
    if repeats_earlier(out, t) {
        ScoreIssue::DuplicateMove { turn: t as usize, i: out[t].0, j: out[t].1 }
    } else {
        ScoreIssue::InvalidMove { turn: t as usize, pi: out[t - 1].0, pj: out[t - 1].1, i: out[t].0, j: out[t].1 }
    }
}

/// `sum_{t < k} t * A[cell listed at t]`.
pub open spec fn tour_sum(input: &Input, out: Seq<(usize, usize)>, k: int) -> int
    decreases k,
{
    if k <= 0 {
        0
    } else {
        tour_sum(input, out, k - 1) + (k - 1) * input.weight(out[k - 1])
    }
}

/// The score of a complete sum: `(sum + n * n / 2) / (n * n)` with the
/// division truncating toward zero. For a non-negative sum this is `sum /
/// (n * n)` rounded to the nearest integer, halves up; for a negative sum
/// it is not a rounding to nearest.
pub open spec fn rounded_score(sum: int, nn: int) -> int {
    div_toward_zero(sum + nn / 2, nn)
}

proof fn lemma_cell_injective(n: int, r: int, q: int, i: int, j: int)
    requires
        0 < n,
        0 <= q < n,
        0 <= j < n,
        r * n + q == i * n + j,
    ensures
        r == i,
        q == j,
{
    crate::grid::lemma_cell_coords(n, r, q);
    crate::grid::lemma_cell_coords(n, i, j);
}

/// A rule-keeping tour prefix visits distinct cells, so it has at most `n * n`
/// of them.
proof fn lemma_faultless_len(n: int, out: Seq<(usize, usize)>, k: int)
    requires
        0 < n,
        0 <= k <= out.len(),
        on_board(n, out),
        faultless(out, k),
    ensures
        k <= n * n,
{
    let cells = Seq::new(k as nat, |s: int| out[s].0 * n + out[s].1);
    assert forall|a: int, b: int| 0 <= a < cells.len() && 0 <= b < cells.len() && a != b
        implies cells[a] != cells[b] by {
        let (lo, hi) = if a < b { (a, b) } else { (b, a) };
        assert(!move_fault(out, hi));
        assert(out[lo] != out[hi]);
        assert(on_board(n, out));
        let _ = out[lo];
        let _ = out[hi];
        if cells[a] == cells[b] {
            lemma_cell_injective(n, out[lo].0 as int, out[lo].1 as int, out[hi].0 as int, out[hi].1 as int);
        }
    }
    assert(cells.no_duplicates());
    cells.unique_seq_to_set();
    let range = vstd::set_lib::set_int_range(0, n * n);
    vstd::set_lib::lemma_int_range(0, n * n);
    assert(cells.to_set().subset_of(range)) by {
        assert forall|x: int| cells.to_set().contains(x) implies range.contains(x) by {
            let s = choose|s: int| 0 <= s < cells.len() && cells[s] == x;
            let _ = out[s];
            crate::grid::lemma_cell_bound(n, out[s].0 as int, out[s].1 as int);
        }
    }
    vstd::set_lib::lemma_len_subset(cells.to_set(), range);
}

proof fn lemma_tour_sum_bound(input: &Input, out: Seq<(usize, usize)>, k: int)
    requires
        input.wf(),
        on_board(input.n as int, out),
        0 <= k <= out.len(),
        k <= MAX_CELLS,
    ensures
        -k * (MAX_CELLS * MAX_WEIGHT) <= tour_sum(input, out, k) <= k * (MAX_CELLS * MAX_WEIGHT),
    decreases k,
{
    if k > 0 {
        lemma_tour_sum_bound(input, out, k - 1);
        let p = out[k - 1];
        let x = input.weight(p);
        assert(-MAX_WEIGHT <= x <= MAX_WEIGHT) by {
            assert(-MAX_WEIGHT <= input.a@[p.0 as int]@[p.1 as int] <= MAX_WEIGHT);
        }
        assert(-(MAX_CELLS * MAX_WEIGHT) <= (k - 1) * x <= MAX_CELLS * MAX_WEIGHT) by (nonlinear_arith)
            requires 0 <= k - 1 < MAX_CELLS, -MAX_WEIGHT <= x <= MAX_WEIGHT;
    }
}

/// Scores a tour. A tour that breaks a rule scores 0 with the first fault; a
/// rule-keeping tour scores its rounded sum, with `NotFinished` when it lists
/// fewer than `N * N` cells.
pub fn compute_score_details(input: &Input, out: &[(usize, usize)]) -> (res: (i64, Option<ScoreIssue>))
    requires
        input.wf(),
        on_board(input.n as int, out@),
    ensures
        forall|t: int| 0 <= t < out@.len() && faultless(out@, t) && #[trigger] move_fault(out@, t)
            ==> res == (0i64, Some(fault_issue(out@, t))),
        faultless(out@, out@.len() as int) ==> {
            &&& res.0 == rounded_score(tour_sum(input, out@, out@.len() as int), input.n * input.n)
            &&& res.1 == if out@.len() < input.n * input.n { Some(ScoreIssue::NotFinished) } else { None }
        },
{
    let n = input.n;
    proof {
        assert(n * n <= MAX_CELLS);
    }
    let nn = n * n;
    let mut used: Vec<bool> = Vec::new();
    let mut c: usize = 0;
    while c < nn
        invariant
            c <= nn,
            used@.len() == c,
            forall|x: int| 0 <= x < c ==> !#[trigger] used@[x],
        decreases nn - c,
    {
        used.push(false);
        c += 1;
    }
    proof {
        assert forall|r: int, q: int| 0 <= r < n && 0 <= q < n implies
            (#[trigger] used@[r * n + q] <==> exists|s: int| 0 <= s < 0 && out@[s] == (r as usize, q as usize)) by {
            crate::grid::lemma_cell_bound(n as int, r, q);
        }
    }
    let mut score: i64 = 0;
    let mut t: usize = 0;
    while t < out.len()
        invariant
            n == input.n,
            nn == n * n,
            nn <= MAX_CELLS,
            input.wf(),
            on_board(n as int, out@),
            t <= out@.len(),
            t <= nn,
            used@.len() == nn,
            forall|r: int, q: int| 0 <= r < n && 0 <= q < n ==>
                (#[trigger] used@[r * n + q] <==> exists|s: int| 0 <= s < t && out@[s] == (r as usize, q as usize)),
            faultless(out@, t as int),
            score == tour_sum(input, out@, t as int),
        decreases out@.len() - t,
    {
        let (i, j) = out[t];
        proof {
            let _ = out@[t as int];
            crate::grid::lemma_cell_bound(n as int, i as int, j as int);
        }
        let cell = i * n + j;
        if used[cell] {
            proof {
                let s = choose|s: int| 0 <= s < t && out@[s] == (i, j);
                assert(repeats_earlier(out@, t as int));
                assert(move_fault(out@, t as int));
            }
            return (0, Some(ScoreIssue::DuplicateMove { turn: t, i, j }));
        }
        proof {
            assert(!repeats_earlier(out@, t as int)) by {
                if repeats_earlier(out@, t as int) {
                    let s = choose|s: int| 0 <= s < t && #[trigger] out@[s] == out@[t as int];
                    assert(used@[i * n + j]);
                }
            }
        }
        used.set(cell, true);
        if t > 0 {
            let (pi, pj) = out[t - 1];
            let di = if i >= pi { i - pi } else { pi - i };
            let dj = if j >= pj { j - pj } else { pj - j };
            let d = if di > dj { di } else { dj };
            if d != 1 {
                proof {
                    assert(move_fault(out@, t as int));
                }
                return (0, Some(ScoreIssue::InvalidMove { turn: t, pi, pj, i, j }));
            }
        }
        proof {
            assert(!move_fault(out@, t as int));
            assert(faultless(out@, t + 1));
            lemma_faultless_len(n as int, out@, t + 1);
            lemma_tour_sum_bound(input, out@, t + 1);
            assert(-MAX_WEIGHT <= input.a@[i as int]@[j as int] <= MAX_WEIGHT);
            let x = input.a@[i as int]@[j as int];
            assert(-(MAX_CELLS * MAX_WEIGHT) <= t * x <= MAX_CELLS * MAX_WEIGHT) by (nonlinear_arith)
                requires 0 <= t < MAX_CELLS, -MAX_WEIGHT <= x <= MAX_WEIGHT;
            assert((t + 1) * (MAX_CELLS * MAX_WEIGHT) <= 1_000_000_000_000_000_000) by (nonlinear_arith)
                requires t + 1 <= MAX_CELLS;
            assert forall|r: int, q: int| 0 <= r < n && 0 <= q < n implies
                (#[trigger] used@[r * n + q] <==> exists|s: int| 0 <= s < t + 1 && out@[s] == (r as usize, q as usize)) by {
                crate::grid::lemma_cell_bound(n as int, r, q);
                if r * n + q == i * n + j {
                    lemma_cell_injective(n as int, r, q, i as int, j as int);
                    assert(out@[t as int] == (r as usize, q as usize));
                } else {
                    if (exists|s: int| 0 <= s < t + 1 && out@[s] == (r as usize, q as usize)) {
                        let s = choose|s: int| 0 <= s < t + 1 && out@[s] == (r as usize, q as usize);
                        if s == t {
                            assert(r == i && q == j);
                        }
                    }
                }
            }
        }
        score = score + (t as i64) * input.a[i][j];
        t += 1;
    }
    proof {
        lemma_tour_sum_bound(input, out@, t as int);
        assert(t * (MAX_CELLS * MAX_WEIGHT) <= 1_000_000_000_000_000_000) by (nonlinear_arith)
            requires t <= MAX_CELLS;
        assert(nn > 0) by (nonlinear_arith)
            requires nn == n * n, n > 0;
    }
    let nn64 = nn as i64;
    let issue = if out.len() < nn { Some(ScoreIssue::NotFinished) } else { None };
    ((score + nn64 / 2) / nn64, issue)
}

/// Scores a tour, reporting 0 whenever there is an issue.
pub fn compute_score(input: &Input, out: &Output) -> (res: (i64, Option<ScoreIssue>))
    requires
        input.wf(),
        on_board(input.n as int, out.out@),
    ensures
        ({
            let details = if faultless(out.out@, out.out@.len() as int) {
                (rounded_score(tour_sum(input, out.out@, out.out@.len() as int), input.n * input.n),
                    if out.out@.len() < input.n * input.n { Some(ScoreIssue::NotFinished) } else { None })
            } else {
                (0, Some(fault_issue(out.out@, choose|t: int| 0 <= t < out.out@.len()
                    && faultless(out.out@, t) && #[trigger] move_fault(out.out@, t))))
            };
            &&& res.1 == details.1
            &&& res.0 == if details.1 is Some { 0 } else { details.0 }
        }),
{
    let (score, issue) = compute_score_details(input, out.out.as_slice());
    proof {
        if !faultless(out.out@, out.out@.len() as int) {
            lemma_first_fault(out.out@, out.out@.len() as int);
        }
    }
    match issue {
        Some(e) => (0, Some(e)),
        None => (score, None),
    }
}

/// A tour prefix that breaks a rule has a first fault.
pub proof fn lemma_first_fault(out: Seq<(usize, usize)>, k: int)
    requires
        k <= out.len(),
        !faultless(out, k),
    ensures
        exists|t: int| 0 <= t < k && faultless(out, t) && #[trigger] move_fault(out, t),
    decreases k,
{
    if !faultless(out, k - 1) {
        lemma_first_fault(out, k - 1);
    } else {
        let bad = choose|t: int| 0 <= t < k && #[trigger] move_fault(out, t);
        assert(bad == k - 1);
        assert(faultless(out, k - 1) && move_fault(out, k - 1));
    }
}

/// The tokens spell an instance: a side `n`, then at least `n * n` integers.
pub open spec fn input_tokens_ok(toks: Seq<Seq<u8>>) -> bool {
    &&& toks.len() >= 1
    &&& usize_token(toks[0])
    &&& toks.len() >= 1 + usize_token_value(toks[0]) * usize_token_value(toks[0])
    &&& forall|k: int| 0 <= k < usize_token_value(toks[0]) * usize_token_value(toks[0])
        ==> #[trigger] i64_token(toks[1 + k])
}

/// Reads an instance: `N`, then the `N * N` weights row by row. Gives `None`
/// where the text does not hold one.
pub fn parse_input(f: &[u8]) -> (res: Option<Input>)
    ensures
        res is Some <==> input_tokens_ok(tokens(f@)),
        res matches Some(input) ==> {
            &&& input.n == usize_token_value(tokens(f@)[0])
            &&& input.is_square()
            &&& forall|i: int, j: int| 0 <= i < input.n && 0 <= j < input.n
                ==> #[trigger] input.a@[i]@[j] == signed_token_value(tokens(f@)[1 + i * input.n + j])
        },
{
    let ghost toks = tokens(f@);
    let (s0, e0) = next_token(f, 0);
    proof {
        lemma_tokens_step(f@, 0);
    }
    if s0 >= f.len() {
        return None;
    }
    proof {
        assert(toks[0] == f@.subrange(s0 as int, e0 as int));
    }
    let n = match parse_usize(&f[s0..e0]) {
        Some(v) => v,
        None => return None,
    };
    let mut pos = e0;
    let mut a: Vec<Vec<i64>> = Vec::new();
    let mut i: usize = 0;
    proof {
        assert(toks.skip(1) =~= toks.drop_first());
        assert(0 * n == 0);
    }
    while i < n
        invariant
            toks == tokens(f@),
            toks.len() >= 1,
            usize_token(toks[0]),
            n == usize_token_value(toks[0]),
            i <= n,
            pos <= f@.len(),
            1 + i * n <= toks.len(),
            tokens_from(f@, pos as int) == toks.skip(1 + i * n),
            a@.len() == i,
            forall|r: int| 0 <= r < i ==> #[trigger] a@[r]@.len() == n,
            forall|r: int, c: int| 0 <= r < i && 0 <= c < n
                ==> #[trigger] a@[r]@[c] == signed_token_value(toks[1 + r * n + c]),
            forall|q: int| 0 <= q < i * n ==> #[trigger] i64_token(toks[1 + q]),
        decreases n - i,
    {
        let mut row: Vec<i64> = Vec::new();
        let mut j: usize = 0;
        while j < n
            invariant
                toks == tokens(f@),
                toks.len() >= 1,
                usize_token(toks[0]),
                n == usize_token_value(toks[0]),
                i < n,
                j <= n,
                pos <= f@.len(),
                1 + i * n + j <= toks.len(),
                tokens_from(f@, pos as int) == toks.skip(1 + i * n + j),
                row@.len() == j,
                forall|c: int| 0 <= c < j ==> #[trigger] row@[c] == signed_token_value(toks[1 + i * n + c]),
                forall|q: int| 0 <= q < i * n + j ==> #[trigger] i64_token(toks[1 + q]),
            decreases n - j,
        {
            let ghost used: int = 1 + i * n + j;
            let (s, e) = next_token(f, pos);
            proof {
                lemma_tokens_step(f@, pos as int);
                crate::grid::lemma_cell_bound(n as int, i as int, j as int);
            }
            if s >= f.len() {
                proof {
                    assert(toks.skip(used).len() == 0);
                    assert(i * n + j < n * n);
                }
                return None;
            }
            proof {
                assert(toks.skip(used)[0] == f@.subrange(s as int, e as int));
                assert(toks[used] == f@.subrange(s as int, e as int));
            }
            match parse_i64(&f[s..e]) {
                Some(v) => row.push(v),
                None => {
                    proof {
                        assert(!i64_token(toks[1 + (i * n + j)]));
                        assert(i * n + j < n * n);
                    }
                    return None;
                },
            }
            proof {
                assert(toks.skip(used + 1) =~= toks.skip(used).drop_first());
            }
            pos = e;
            j += 1;
        }
        a.push(row);
        proof {
            assert((i + 1) * n == i * n + n) by (nonlinear_arith);
            assert forall|r: int, c: int| 0 <= r < i + 1 && 0 <= c < n
                implies #[trigger] a@[r]@[c] == signed_token_value(toks[1 + r * n + c]) by {
                if r == i {
                    assert(a@[r] == row);
                }
            }
        }
        i += 1;
    }
    proof {
        assert(i * n == n * n);
    }
    Some(Input { n, a })
}

/// The side of generated boards.
pub const GEN_SIDE: usize = 200;

/// `1, 2, ..., m`.
pub open spec fn ascending(m: int) -> Seq<i64> {
    Seq::new(m as nat, |k: int| (k + 1) as i64)
}

/// The order in which `rand`'s `SliceRandom::shuffle`, driven by
/// `rand_chacha::ChaCha20Rng::seed_from_u64(seed)`, leaves `values`.
pub uninterp spec fn chacha20_shuffled(seed: u64, values: Seq<i64>) -> Seq<i64>;

/// Shuffles `values` with `SliceRandom::shuffle` (rand) and a
/// `ChaCha20Rng` (rand_chacha) seeded by `seed_from_u64(seed)`. Claimed: the
/// result is that named order, and, as the shuffle only swaps entries, a
/// rearrangement of the values. Which rearrangement is not stated.
#[verifier::external_body]
fn shuffle_with_seed(seed: u64, values: &mut Vec<i64>)
    ensures
        final(values)@ == chacha20_shuffled(seed, old(values)@),
        final(values)@.to_multiset() == old(values)@.to_multiset(),
{
    let mut rng = rand_chacha::ChaCha20Rng::seed_from_u64(seed);
    values.shuffle(&mut rng);
}

/// The `n` by `n` instance whose weights, row by row, are `values`.
pub fn input_from_values(n: usize, values: &Vec<i64>) -> (input: Input)
    requires
        n * n <= usize::MAX,
        values@.len() == n * n,
    ensures
        input.n == n,
        input.is_square(),
        forall|i: int, j: int| 0 <= i < n && 0 <= j < n ==> #[trigger] input.a@[i]@[j] == values@[i * n + j],
{
    let mut a: Vec<Vec<i64>> = Vec::new();
    let mut i: usize = 0;
    while i < n
        invariant
            n * n <= usize::MAX,
            values@.len() == n * n,
            i <= n,
            a@.len() == i,
            forall|r: int| 0 <= r < i ==> #[trigger] a@[r]@.len() == n,
            forall|r: int, c: int| 0 <= r < i && 0 <= c < n ==> #[trigger] a@[r]@[c] == values@[r * n + c],
        decreases n - i,
    {
        let mut row: Vec<i64> = Vec::new();
        let mut j: usize = 0;
        while j < n
            invariant
                n * n <= usize::MAX,
                values@.len() == n * n,
                i < n,
                j <= n,
                row@.len() == j,
                forall|c: int| 0 <= c < j ==> #[trigger] row@[c] == values@[i * n + c],
            decreases n - j,
        {
            proof {
                assert(i * n + j < n * n) by (nonlinear_arith)
                    requires i < n, j < n;
            }
            row.push(values[i * n + j]);
            j += 1;
        }
        a.push(row);
        proof {
            assert forall|r: int, c: int| 0 <= r < i + 1 && 0 <= c < n
                implies #[trigger] a@[r]@[c] == values@[r * n + c] by {
                if r == i {
                    assert(a@[r] == row);
                }
            }
        }
        i += 1;
    }
    Input { n, a }
}

/// Generates the instance of a seed: a board of side 200 holding the values
/// `1..=40000` in the order that the seeded shuffle gives.
pub fn gen(seed: u64) -> (input: Input)
    ensures
        input.n == GEN_SIDE,
        input.wf(),
        forall|i: int, j: int| 0 <= i < GEN_SIDE && 0 <= j < GEN_SIDE ==> #[trigger] input.a@[i]@[j]
            == chacha20_shuffled(seed, ascending(GEN_SIDE * GEN_SIDE))[i * GEN_SIDE + j],
        chacha20_shuffled(seed, ascending(GEN_SIDE * GEN_SIDE)).to_multiset()
            == ascending(GEN_SIDE * GEN_SIDE).to_multiset(),
{
    let n = GEN_SIDE;
    let m = n * n;
    let mut values: Vec<i64> = Vec::new();
    let mut k: usize = 0;
    while k < m
        invariant
            m == GEN_SIDE * GEN_SIDE,
            k <= m,
            values@ == ascending(k as int),
        decreases m - k,
    {
        values.push((k + 1) as i64);
        k += 1;
        proof {
            assert(values@ =~= ascending(k as int));
        }
    }
    let ghost before = values@;
    shuffle_with_seed(seed, &mut values);
    proof {
        values@.to_multiset_ensures();
        before.to_multiset_ensures();
        assert(values@.len() == before.len());
    }
    let input = input_from_values(n, &values);
    proof {
        values@.to_multiset_ensures();
        before.to_multiset_ensures();
        assert forall|i: int, j: int| 0 <= i < n && 0 <= j < n implies
            -MAX_WEIGHT <= #[trigger] input.a@[i]@[j] <= MAX_WEIGHT by {
            crate::grid::lemma_cell_bound(n as int, i, j);
            let x = values@[i * n + j];
            assert(values@.contains(x));
            assert(values@.to_multiset().count(x) > 0);
            assert(before.contains(x));
        }
    }
    input
}

/// The tour that lists the cells of `route` as `(row, column)` pairs.
pub open spec fn route_pairs(n: int, route: Seq<usize>) -> Seq<(usize, usize)> {
    Seq::new(route.len(), |t: int| (row_of(n, route[t] as int) as usize, col_of(n, route[t] as int) as usize))
}

proof fn lemma_route_pairs_sum(input: &Input, route: Seq<usize>, w: Seq<i64>, k: int)
    requires
        input.wf(),
        is_route(input.n as int, route),
        w.len() == input.n * input.n,
        forall|i: int, j: int| 0 <= i < input.n && 0 <= j < input.n
            ==> #[trigger] w[i * input.n + j] == input.a@[i]@[j],
        0 <= k <= route.len(),
    ensures
        tour_sum(input, route_pairs(input.n as int, route), k) == raw_prefix(route, w, k),
    decreases k,
{
    if k > 0 {
        lemma_route_pairs_sum(input, route, w, k - 1);
        let n = input.n as int;
        let c = route[k - 1] as int;
        assert(c < n * n);
        crate::grid::lemma_cell_split(n, c);
        let (r, q) = (row_of(n, c), col_of(n, c));
        assert(r < n) by {
            if r >= n {
                assert(r * n >= n * n) by (nonlinear_arith)
                    requires r >= n, n > 0;
            }
        }
        assert(w[r * n + q] == input.a@[r]@[q]);
    }
}

/// A route of the board is a tour that the judge accepts: it lists every
/// cell once, each a king move from the one before, and its sum is the
/// route's raw score against the row-major weights. So `compute_score_details`
/// gives it `rounded_score(raw_score(route, w), N * N)` and no issue.
pub proof fn lemma_route_is_accepted(input: &Input, route: Seq<usize>, w: Seq<i64>)
    requires
        input.wf(),
        is_route(input.n as int, route),
        w.len() == input.n * input.n,
        forall|i: int, j: int| 0 <= i < input.n && 0 <= j < input.n
            ==> #[trigger] w[i * input.n + j] == input.a@[i]@[j],
    ensures
        route_pairs(input.n as int, route).len() == input.n * input.n,
        on_board(input.n as int, route_pairs(input.n as int, route)),
        faultless(route_pairs(input.n as int, route), route.len() as int),
        tour_sum(input, route_pairs(input.n as int, route), route.len() as int) == raw_score(route, w),
{
    let n = input.n as int;
    let out = route_pairs(n, route);
    assert forall|t: int| 0 <= t < out.len() implies (#[trigger] out[t]).0 < n && out[t].1 < n by {
        let c = route[t] as int;
        assert(c < n * n);
        crate::grid::lemma_cell_split(n, c);
        if row_of(n, c) >= n {
            assert(row_of(n, c) * n >= n * n) by (nonlinear_arith)
                requires row_of(n, c) >= n, n > 0;
        }
    }
    assert forall|t: int| 0 <= t < route.len() implies !#[trigger] move_fault(out, t) by {
        assert(!repeats_earlier(out, t)) by {
            if repeats_earlier(out, t) {
                let s = choose|s: int| 0 <= s < t && #[trigger] out[s] == out[t];
                crate::grid::lemma_cell_split(n, route[s] as int);
                crate::grid::lemma_cell_split(n, route[t] as int);
                assert(route[s] == route[t]);
            }
        }
        if t > 0 {
            assert(adjacent(n, route[t - 1] as int, route[t - 1 + 1] as int));
            crate::grid::lemma_cell_split(n, route[t - 1] as int);
            crate::grid::lemma_cell_split(n, route[t] as int);
        }
    }
    lemma_route_pairs_sum(input, route, w, route.len() as int);
}

} // verus!
