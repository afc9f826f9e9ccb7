//! The rules of the territory game: `M` players move pieces on an `N` by `N`
//! board of valued cells, claim cells, strengthen their own and attack the
//! others'.
//!
//! A player may move to any cell reached from its piece by side steps that
//! only leave cells it owns, unless another piece stands there.
use vstd::prelude::*;
use crate::grid::valid_side;
use crate::tokens::{tokens, tokens_from, lemma_tokens_step, next_token, skip_spaces, space_len, space_len_at,
    lemma_skip_spaces};
use crate::judge::{read, OutputError, coord_token, read_failure};
use crate::tokens::usize_token_value;

verus! {

/// A cell `(row, col)`.
pub type Cell = (usize, usize);

/// What the rules read of an instance: the board side `n`, the number of
/// players `m`, of turns `t`, the highest level `u`, the cell values and the
/// starting cells.
#[derive(Clone, Debug)]
pub struct Input {
    pub n: usize,
    pub m: usize,
    pub t: usize,
    pub u: usize,
    pub v: Vec<Vec<usize>>,
    pub xy: Vec<Cell>,
}

/// `c` is on the board of side `n`.
pub open spec fn on_board(n: int, c: Cell) -> bool {
    c.0 < n && c.1 < n
}

impl Input {
    /// A usable instance: a board of handled size, at least one player, and
    /// every starting cell on the board.
    pub open spec fn wf(&self) -> bool {
        &&& valid_side(self.n as int)
        &&& 0 < self.m <= i32::MAX
        &&& self.v@.len() == self.n
        &&& forall|i: int| 0 <= i < self.n ==> #[trigger] self.v@[i]@.len() == self.n
        &&& self.xy@.len() == self.m
        &&& forall|i: int| 0 <= i < self.m ==> on_board(self.n as int, #[trigger] self.xy@[i])
    }
}

/// The state of a game: where the pieces stand, who owns each cell (`-1`
/// for nobody) at which level, and the cells chosen in the last turn.
#[derive(Clone, Debug)]
pub struct State {
    pub pos: Vec<Cell>,
    pub owner: Vec<Vec<i32>>,
    pub level: Vec<Vec<usize>>,
    pub selected: Vec<Cell>,
}

impl State {
    /// The owner of cell `c`.
    pub open spec fn owner_at(&self, c: Cell) -> i32 {
        self.owner@[c.0 as int]@[c.1 as int]
    }

    /// The level of cell `c`.
    pub open spec fn level_at(&self, c: Cell) -> usize {
        self.level@[c.0 as int]@[c.1 as int]
    }

    /// The state fits the instance: one piece per player on the board,
    /// `n` by `n` grids, owners that are players or `-1`, and owned cells at
    /// level 1 or more.
    pub open spec fn wf(&self, input: &Input) -> bool {
        let n = input.n;
        &&& self.pos@.len() == input.m
        &&& forall|i: int| 0 <= i < input.m ==> on_board(n as int, #[trigger] self.pos@[i])
        &&& self.owner@.len() == n
        &&& self.level@.len() == n
        &&& forall|r: int| 0 <= r < n ==> #[trigger] self.owner@[r]@.len() == n
        &&& forall|r: int| 0 <= r < n ==> #[trigger] self.level@[r]@.len() == n
        &&& forall|r: int, c: int| 0 <= r < n && 0 <= c < n ==> -1 <= #[trigger] self.owner@[r]@[c] < input.m
        &&& forall|r: int, c: int| 0 <= r < n && 0 <= c < n && self.owner@[r]@[c] >= 0
            ==> #[trigger] self.level@[r]@[c] >= 1
    }
}

/// The last of the first `k` players that starts on `c`, or `-1`.
pub open spec fn start_owner(xy: Seq<Cell>, c: Cell, k: int) -> int
    decreases k,
{
    if k <= 0 {
        -1
    } else if xy[k - 1] == c {
        k - 1
    } else {
        start_owner(xy, c, k - 1)
    }
}

proof fn lemma_start_owner_range(xy: Seq<Cell>, c: Cell, k: int)
    requires
        0 <= k,
    ensures
        -1 <= start_owner(xy, c, k) < k,
    decreases k,
{
    if k > 0 {
        lemma_start_owner_range(xy, c, k - 1);
    }
}

/// An `n` by `n` grid holding `x` everywhere.
fn filled_grid<T: Copy>(n: usize, x: T) -> (grid: Vec<Vec<T>>)
    ensures
        grid@.len() == n,
        forall|r: int| 0 <= r < n ==> #[trigger] grid@[r]@.len() == n,
        forall|r: int, c: int| 0 <= r < n && 0 <= c < n ==> #[trigger] grid@[r]@[c] == x,
{
    let mut grid: Vec<Vec<T>> = Vec::new();
    let mut r: usize = 0;
    while r < n
        invariant
            r <= n,
            grid@.len() == r,
            forall|q: int| 0 <= q < r ==> #[trigger] grid@[q]@.len() == n,
            forall|q: int, c: int| 0 <= q < r && 0 <= c < n ==> #[trigger] grid@[q]@[c] == x,
        decreases n - r,
    {
        let mut row: Vec<T> = Vec::new();
        let mut c: usize = 0;
        while c < n
            invariant
                c <= n,
                row@.len() == c,
                forall|q: int| 0 <= q < c ==> #[trigger] row@[q] == x,
            decreases n - c,
        {
            row.push(x);
            c += 1;
        }
        grid.push(row);
        r += 1;
    }
    grid
}

/// Writes `x` into cell `(r, c)` of a grid.
fn set_cell<T: Copy>(grid: &mut Vec<Vec<T>>, r: usize, c: usize, x: T)
    requires
        r < old(grid)@.len(),
        c < old(grid)@[r as int]@.len(),
    ensures
        final(grid)@.len() == old(grid)@.len(),
        forall|q: int| 0 <= q < final(grid)@.len() && q != r ==> #[trigger] final(grid)@[q] == old(grid)@[q],
        final(grid)@[r as int]@ == old(grid)@[r as int]@.update(c as int, x),
        rows(final(grid)@) == put(rows(old(grid)@), (r, c), x),
{
    let mut row: Vec<T> = Vec::new();
    let mut k: usize = 0;
    let len = grid[r].len();
    while k < len
        invariant
            r < grid@.len(),
            len == grid@[r as int]@.len(),
            c < len,
            k <= len,
            row@.len() == k,
            forall|q: int| 0 <= q < k ==> #[trigger] row@[q] == if q == c { x } else { grid@[r as int]@[q] },
        decreases len - k,
    {
        if k == c {
            row.push(x);
        } else {
            row.push(grid[r][k]);
        }
        k += 1;
    }
    proof {
        assert(row@ =~= grid@[r as int]@.update(c as int, x));
    }
    let ghost before = grid@;
    grid.set(r, row);
    proof {
        assert(rows(grid@) =~= put(rows(before), (r, c), x));
    }
}

/// A copy of a list of cells.
pub fn copy_cells(cells: &Vec<Cell>) -> (res: Vec<Cell>)
    ensures
        res@ == cells@,
{
    let mut res: Vec<Cell> = Vec::new();
    let mut k: usize = 0;
    while k < cells.len()
        invariant
            k <= cells@.len(),
            res@ == cells@.subrange(0, k as int),
        decreases cells@.len() - k,
    {
        res.push(cells[k]);
        k += 1;
        proof {
            assert(res@ =~= cells@.subrange(0, k as int));
        }
    }
    proof {
        assert(cells@.subrange(0, k as int) =~= cells@);
    }
    res
}

impl State {
    /// The starting state: every piece on its starting cell, each starting
    /// cell owned at level 1 by the (last) player starting there.
    pub fn new(input: &Input) -> (state: State)
        requires
            input.wf(),
        ensures
            state.wf(input),
            state.pos@ == input.xy@,
            state.selected@ == input.xy@,
            forall|r: int, c: int| 0 <= r < input.n && 0 <= c < input.n ==> {
                let o = start_owner(input.xy@, (r as usize, c as usize), input.m as int);
                &&& #[trigger] state.owner@[r]@[c] == o
                &&& state.level@[r]@[c] == if o >= 0 { 1usize } else { 0usize }
            },
    {
        let n = input.n;
        let mut owner: Vec<Vec<i32>> = filled_grid(n, -1i32);
        let mut level: Vec<Vec<usize>> = filled_grid(n, 0usize);
        let mut i: usize = 0;
        while i < input.m
            invariant
                input.wf(),
                n == input.n,
                i <= input.m,
                owner@.len() == n,
                level@.len() == n,
                forall|r: int| 0 <= r < n ==> #[trigger] owner@[r]@.len() == n,
                forall|r: int| 0 <= r < n ==> #[trigger] level@[r]@.len() == n,
                forall|r: int, c: int| 0 <= r < n && 0 <= c < n ==> {
                    let o = start_owner(input.xy@, (r as usize, c as usize), i as int);
                    &&& #[trigger] owner@[r]@[c] == o
                    &&& level@[r]@[c] == if o >= 0 { 1usize } else { 0usize }
                },
            decreases input.m - i,
        {
            let (x, y) = input.xy[i];
            proof {
                assert(on_board(n as int, input.xy@[i as int]));
            }
            let ghost prev_owner = owner@;
            let ghost prev_level = level@;
            set_cell(&mut owner, x, y, i as i32);
            set_cell(&mut level, x, y, 1usize);
            proof {
                assert forall|r: int, c: int| 0 <= r < n && 0 <= c < n implies {
                    let o = start_owner(input.xy@, (r as usize, c as usize), i + 1);
                    &&& #[trigger] owner@[r]@[c] == o
                    &&& level@[r]@[c] == if o >= 0 { 1usize } else { 0usize }
                } by {
                    assert(prev_owner[r]@[c] == start_owner(input.xy@, (r as usize, c as usize), i as int));
                    if r != x {
                        assert(owner@[r] == prev_owner[r]);
                        assert(level@[r] == prev_level[r]);
                    }
                }
            }
            i += 1;
        }
        proof {
            assert forall|r: int, c: int| 0 <= r < n && 0 <= c < n implies
                -1 <= #[trigger] owner@[r]@[c] < input.m by {
                lemma_start_owner_range(input.xy@, (r as usize, c as usize), input.m as int);
            }
        }
        let pos = copy_cells(&input.xy);
        let selected = copy_cells(&input.xy);
        let state = State { pos, owner, level, selected };
        proof {
            assert forall|r: int, c: int| 0 <= r < input.n && 0 <= c < input.n implies {
                let o = start_owner(input.xy@, (r as usize, c as usize), input.m as int);
                &&& #[trigger] state.owner@[r]@[c] == o
                &&& state.level@[r]@[c] == if o >= 0 { 1usize } else { 0usize }
            } by {
                assert(owner@[r]@[c] == start_owner(input.xy@, (r as usize, c as usize), i as int));
            }
        }
        state
    }
}

/// The cell one side step from `c` in direction `d`: right, down, left, up.
pub open spec fn step(c: Cell, d: int) -> (int, int) {
    if d == 0 {
        (c.0 as int, c.1 + 1)
    } else if d == 1 {
        (c.0 + 1, c.1 as int)
    } else if d == 2 {
        (c.0 as int, c.1 - 1)
    } else {
        (c.0 - 1, c.1 as int)
    }
}

/// The point `p` is a cell of the board of side `n`.
pub open spec fn inside(n: int, p: (int, int)) -> bool {
    0 <= p.0 < n && 0 <= p.1 < n
}

/// The cell at point `p`.
pub open spec fn cell_at(p: (int, int)) -> Cell {
    (p.0 as usize, p.1 as usize)
}

/// `q` is one side step from `c`.
pub open spec fn side_step(c: Cell, q: Cell) -> bool {
    exists|d: int| 0 <= d < 4 && #[trigger] step(c, d) == (q.0 as int, q.1 as int)
}

/// `w` is a walk of `player`'s piece: it starts at the piece, stays on the
/// board, moves by side steps and only leaves cells that the player owns.
pub open spec fn is_walk(input: &Input, state: &State, player: int, w: Seq<Cell>) -> bool {
    &&& w.len() >= 1
    &&& w[0] == state.pos@[player]
    &&& forall|k: int| 0 <= k < w.len() ==> on_board(input.n as int, #[trigger] w[k])
    &&& forall|k: int| 0 <= k < w.len() - 1 ==> #[trigger] side_step(w[k], w[k + 1])
        && state.owner_at(w[k]) == player
}

/// Some walk of `player`'s piece ends at `c`.
pub open spec fn reachable(input: &Input, state: &State, player: int, c: Cell) -> bool {
    exists|w: Seq<Cell>| #[trigger] is_walk(input, state, player, w) && w.last() == c
}

/// A piece other than `player`'s stands on `c`.
pub open spec fn occupied_by_other(state: &State, player: int, c: Cell) -> bool {
    exists|i: int| 0 <= i < state.pos@.len() && i != player && #[trigger] state.pos@[i] == c
}

/// The cell one step from `c` in direction `d`, if it is on the board.
fn neighbor_cell(c: Cell, d: usize, n: usize) -> (res: Option<Cell>)
    requires
        d < 4,
        on_board(n as int, c),
    ensures
        match res {
            Some(q) => step(c, d as int) == (q.0 as int, q.1 as int) && on_board(n as int, q),
            None => !inside(n as int, step(c, d as int)),
        },
{
    if d == 0 {
        if c.1 + 1 < n { Some((c.0, c.1 + 1)) } else { None }
    } else if d == 1 {
        if c.0 + 1 < n { Some((c.0 + 1, c.1)) } else { None }
    } else if d == 2 {
        if c.1 > 0 { Some((c.0, c.1 - 1)) } else { None }
    } else {
        if c.0 > 0 { Some((c.0 - 1, c.1)) } else { None }
    }
}

/// Whether a piece other than `player`'s stands on `c`.
pub fn is_occupied_by_other(state: &State, player: usize, c: Cell) -> (res: bool)
    ensures
        res == occupied_by_other(state, player as int, c),
{
    let mut i: usize = 0;
    while i < state.pos.len()
        invariant
            i <= state.pos@.len(),
            forall|j: int| 0 <= j < i && j != player ==> #[trigger] state.pos@[j] != c,
        decreases state.pos@.len() - i,
    {
        let p = state.pos[i];
        if i != player && p.0 == c.0 && p.1 == c.1 {
            return true;
        }
        i += 1;
    }
    false
}

/// Distinct cells of a board of side `n` number at most `n * n`.
pub proof fn lemma_distinct_cells(n: int, s: Seq<Cell>)
    requires
        0 < n,
        s.no_duplicates(),
        forall|k: int| 0 <= k < s.len() ==> on_board(n, #[trigger] s[k]),
    ensures
        s.len() <= n * n,
{
    let ids = Seq::new(s.len(), |k: int| s[k].0 * n + s[k].1);
    assert forall|a: int, b: int| 0 <= a < ids.len() && 0 <= b < ids.len() && a != b
        implies ids[a] != ids[b] by {
        assert(on_board(n, s[a]) && on_board(n, s[b]));
        if ids[a] == ids[b] {
            crate::grid::lemma_cell_coords(n, s[a].0 as int, s[a].1 as int);
            crate::grid::lemma_cell_coords(n, s[b].0 as int, s[b].1 as int);
            assert(s[a] == s[b]);
        }
    }
    assert(ids.no_duplicates());
    ids.unique_seq_to_set();
    let range = vstd::set_lib::set_int_range(0, n * n);
    vstd::set_lib::lemma_int_range(0, n * n);
    assert(ids.to_set().subset_of(range)) by {
        assert forall|x: int| ids.to_set().contains(x) implies range.contains(x) by {
            let k = choose|k: int| 0 <= k < ids.len() && ids[k] == x;
            assert(on_board(n, s[k]));
            crate::grid::lemma_cell_bound(n, s[k].0 as int, s[k].1 as int);
        }
    }
    vstd::set_lib::lemma_len_subset(ids.to_set(), range);
}

/// Every processed cell owned by `player` has all its on-board neighbours
/// listed in `queue`.
pub open spec fn closed_upto(input: &Input, state: &State, player: int, queue: Seq<Cell>, head: int) -> bool {
    forall|k: int, d: int| 0 <= k < head && 0 <= d < 4
        && state.owner_at(queue[k]) == player && inside(input.n as int, #[trigger] step(queue[k], d))
        ==> queue.contains(cell_at(step(queue[k], d)))
}

/// A walk never leaves a list of cells that holds the start and is closed.
proof fn lemma_walk_stays(input: &Input, state: &State, player: int, queue: Seq<Cell>, w: Seq<Cell>, j: int)
    requires
        queue.contains(state.pos@[player]),
        closed_upto(input, state, player, queue, queue.len() as int),
        is_walk(input, state, player, w),
        0 <= j < w.len(),
    ensures
        queue.contains(w[j]),
    decreases j,
{
    if j > 0 {
        lemma_walk_stays(input, state, player, queue, w, j - 1);
        let k = choose|k: int| 0 <= k < queue.len() && queue[k] == w[j - 1];
        assert(side_step(w[j - 1], w[j - 1 + 1]));
        let d = choose|d: int| 0 <= d < 4 && #[trigger] step(w[j - 1], d) == (w[j].0 as int, w[j].1 as int);
        assert(on_board(input.n as int, w[j]));
        assert(inside(input.n as int, step(queue[k], d)));
        assert(cell_at(step(queue[k], d)) == w[j]);
    }
}

/// The queue after cell `c` is expanded from direction `d` on: each side
/// step on the board (directions right, down, left, up) not yet queued is
/// appended.
pub open spec fn bfs_expand(n: int, queue: Seq<Cell>, c: Cell, d: int) -> Seq<Cell>
    decreases 4 - d,
{
    if d >= 4 {
        queue
    } else {
        let q = cell_at(step(c, d));
        let next = if inside(n, step(c, d)) && !queue.contains(q) { queue.push(q) } else { queue };
        bfs_expand(n, next, c, d + 1)
    }
}

/// The breadth-first queue from position `head` on, for at most `fuel`
/// more cells: each taken cell that `player` owns is expanded.
pub open spec fn bfs_queue(state: &State, n: int, player: int, queue: Seq<Cell>, head: int, fuel: nat) -> Seq<Cell>
    decreases fuel,
{
    if fuel == 0 || head < 0 || head >= queue.len() {
        queue
    } else {
        let c = queue[head];
        let next = if state.owner_at(c) == player { bfs_expand(n, queue, c, 0) } else { queue };
        bfs_queue(state, n, player, next, head + 1, (fuel - 1) as nat)
    }
}

/// The first `k` queued cells without the ones another piece stands on,
/// in queue order.
pub open spec fn free_prefix(state: &State, player: int, queue: Seq<Cell>, k: int) -> Seq<Cell>
    decreases k,
{
    if k <= 0 {
        Seq::empty()
    } else {
        let rest = free_prefix(state, player, queue, k - 1);
        if occupied_by_other(state, player, queue[k - 1]) { rest } else { rest.push(queue[k - 1]) }
    }
}

/// The candidate cells of `player` in breadth-first order from its piece
/// (the order the AI's choice indexes into).
pub open spec fn bfs_candidates(input: &Input, state: &State, player: int) -> Seq<Cell> {
    let n = input.n as int;
    let q = bfs_queue(state, n, player, seq![state.pos@[player]], 0, (n * n) as nat);
    free_prefix(state, player, q, q.len() as int)
}

proof fn lemma_free_prefix_same(state: &State, player: int, q1: Seq<Cell>, q2: Seq<Cell>, k: int)
    requires
        0 <= k <= q1.len(),
        k <= q2.len(),
        forall|i: int| 0 <= i < k ==> q1[i] == q2[i],
    ensures
        free_prefix(state, player, q1, k) == free_prefix(state, player, q2, k),
    decreases k,
{
    if k > 0 {
        lemma_free_prefix_same(state, player, q1, q2, k - 1);
    }
}

/// The cells that `player` may move to, in the order of a breadth-first
/// search from its piece that expands only cells the player owns; cells
/// where another piece stands are left out.
pub fn get_candidates(input: &Input, state: &State, player: usize) -> (res: Vec<Cell>)
    requires
        input.wf(),
        state.wf(input),
        player < input.m,
    ensures
        forall|c: Cell| #[trigger] res@.contains(c) <==> reachable(input, state, player as int, c)
            && !occupied_by_other(state, player as int, c),
        res@.no_duplicates(),
        res@ == bfs_candidates(input, state, player as int),
{
    let n = input.n;
    let ghost nn = n * n;
    proof {
        assert(n * n > 0) by (nonlinear_arith)
            requires n > 0;
    }
    let start = state.pos[player];
    proof {
        assert(on_board(n as int, state.pos@[player as int]));
        crate::grid::lemma_cell_bound(n as int, start.0 as int, start.1 as int);
    }
    let total = n * n;
    let mut visited: Vec<bool> = Vec::new();
    let mut z: usize = 0;
    while z < total
        invariant
            z <= total,
            visited@.len() == z,
            forall|x: int| 0 <= x < z ==> !#[trigger] visited@[x],
        decreases total - z,
    {
        visited.push(false);
        z += 1;
    }
    visited.set(start.0 * n + start.1, true);
    let mut queue: Vec<Cell> = Vec::new();
    queue.push(start);
    let ghost mut walks: Seq<Seq<Cell>> = seq![seq![start]];
    let mut reach: Vec<Cell> = Vec::new();
    let mut head: usize = 0;
    let ghost target = bfs_queue(state, n as int, player as int, seq![start], 0, nn as nat);
    proof {
        assert(queue@ =~= seq![start]);
        assert(reach@ =~= free_prefix(state, player as int, queue@, 0));
        assert forall|r: int, c: int| 0 <= r < n && 0 <= c < n implies
            (#[trigger] visited@[r * n + c] <==> queue@.contains((r as usize, c as usize))) by {
            crate::grid::lemma_cell_bound(n as int, r, c);
            if r * n + c == start.0 * n + start.1 {
                crate::grid::lemma_cell_coords(n as int, r, c);
                crate::grid::lemma_cell_coords(n as int, start.0 as int, start.1 as int);
                assert(queue@[0] == (r as usize, c as usize));
            }
            if queue@.contains((r as usize, c as usize)) {
                assert(queue@[0] == (r as usize, c as usize));
            }
        }
        assert(is_walk(input, state, player as int, walks[0]));
    }
    while head < queue.len()
        invariant
            n == input.n,
            nn == n * n,
            input.wf(),
            state.wf(input),
            player < input.m,
            start == state.pos@[player as int],
            1 <= queue@.len() <= nn,
            queue@[0] == start,
            head <= queue@.len(),
            queue@.no_duplicates(),
            forall|k: int| 0 <= k < queue@.len() ==> on_board(n as int, #[trigger] queue@[k]),
            visited@.len() == nn,
            forall|r: int, c: int| 0 <= r < n && 0 <= c < n ==>
                (#[trigger] visited@[r * n + c] <==> queue@.contains((r as usize, c as usize))),
            walks.len() == queue@.len(),
            forall|k: int| 0 <= k < queue@.len() ==> is_walk(input, state, player as int, #[trigger] walks[k])
                && walks[k].last() == queue@[k],
            closed_upto(input, state, player as int, queue@, head as int),
            forall|c: Cell| #[trigger] reach@.contains(c) <==> queue@.subrange(0, head as int).contains(c)
                && !occupied_by_other(state, player as int, c),
            reach@.no_duplicates(),
            target == bfs_queue(state, n as int, player as int, seq![start], 0, nn as nat),
            bfs_queue(state, n as int, player as int, queue@, head as int, (nn - head) as nat) == target,
            reach@ == free_prefix(state, player as int, queue@, head as int),
        decreases 2 * (nn - queue@.len()) + (queue@.len() - head),
    {
        let cur = queue[head];
        let taken = is_occupied_by_other(state, player, cur);
        let ghost old_reach = reach@;
        if !taken {
            proof {
                assert(!old_reach.contains(cur)) by {
                    if old_reach.contains(cur) {
                        let k = choose|k: int| 0 <= k < head && #[trigger] queue@.subrange(0, head as int)[k] == cur;
                        assert(queue@[k] == queue@[head as int]);
                    }
                }
            }
            reach.push(cur);
        }
        proof {
            assert forall|c: Cell| #[trigger] reach@.contains(c) <==> queue@.subrange(0, head + 1).contains(c)
                && !occupied_by_other(state, player as int, c) by {
                if queue@.subrange(0, head + 1).contains(c) {
                    let k = choose|k: int| 0 <= k < head + 1 && #[trigger] queue@.subrange(0, head + 1)[k] == c;
                    if k < head {
                        assert(queue@.subrange(0, head as int)[k] == c);
                    }
                }
                if queue@.subrange(0, head as int).contains(c) {
                    let k = choose|k: int| 0 <= k < head && #[trigger] queue@.subrange(0, head as int)[k] == c;
                    assert(queue@.subrange(0, head + 1)[k] == c);
                }
                if !taken && c == cur {
                    assert(reach@[reach@.len() - 1] == c);
                    assert(queue@.subrange(0, head + 1)[head as int] == c);
                }
                if !taken && reach@.contains(c) && c != cur {
                    let k = choose|k: int| 0 <= k < reach@.len() && reach@[k] == c;
                    assert(old_reach[k] == c);
                }
                if old_reach.contains(c) && !taken {
                    let k = choose|k: int| 0 <= k < old_reach.len() && old_reach[k] == c;
                    assert(reach@[k] == c);
                }
            }
        }
        let ghost len0 = queue@.len();
        let ghost q0 = queue@;
        proof {
            assert(reach@ == free_prefix(state, player as int, q0, head + 1));
        }
        if state.owner[cur.0][cur.1] == player as i32 {
            let mut d: usize = 0;
            while d < 4
                invariant
                    n == input.n,
                    nn == n * n,
                    input.wf(),
                    state.wf(input),
                    player < input.m,
                    start == state.pos@[player as int],
                    1 <= queue@.len() <= nn,
                    queue@[0] == start,
                    head < queue@.len(),
                    queue@.len() >= len0,
                    cur == queue@[head as int],
                    state.owner_at(cur) == player,
                    d <= 4,
                    queue@.no_duplicates(),
                    forall|k: int| 0 <= k < queue@.len() ==> on_board(n as int, #[trigger] queue@[k]),
                    visited@.len() == nn,
                    forall|r: int, c: int| 0 <= r < n && 0 <= c < n ==>
                        (#[trigger] visited@[r * n + c] <==> queue@.contains((r as usize, c as usize))),
                    walks.len() == queue@.len(),
                    forall|k: int| 0 <= k < queue@.len() ==> is_walk(input, state, player as int, #[trigger] walks[k])
                        && walks[k].last() == queue@[k],
                    closed_upto(input, state, player as int, queue@, head as int),
                    forall|e: int| 0 <= e < d && inside(n as int, #[trigger] step(cur, e))
                        ==> queue@.contains(cell_at(step(cur, e))),
                    forall|c: Cell| #[trigger] reach@.contains(c) <==> queue@.subrange(0, head + 1).contains(c)
                        && !occupied_by_other(state, player as int, c),
                    len0 <= queue@.len(),
                    len0 == q0.len(),
                    forall|i: int| 0 <= i < len0 ==> queue@[i] == q0[i],
                    bfs_expand(n as int, queue@, cur, d as int) == bfs_expand(n as int, q0, cur, 0),
                decreases 4 - d,
            {
                let ghost before = queue@;
                match neighbor_cell(cur, d, n) {
                    Some(q) => {
                        proof {
                            crate::grid::lemma_cell_bound(n as int, q.0 as int, q.1 as int);
                        }
                        if !visited[q.0 * n + q.1] {
                            proof {
                                assert(!before.contains(q));
                                lemma_distinct_cells(n as int, before.push(q));
                                assert(before.push(q).no_duplicates()) by {
                                    assert forall|a: int, b: int| 0 <= a < b < before.len() + 1
                                        implies before.push(q)[a] != before.push(q)[b] by {
                                        if b == before.len() {
                                            assert(before.contains(before.push(q)[a]) ==> before.push(q)[a] != q);
                                            assert(before[a] == before.push(q)[a]);
                                        }
                                    }
                                }
                            }
                            visited.set(q.0 * n + q.1, true);
                            queue.push(q);
                            proof {
                                assert(queue@[queue@.len() - 1] == q);
                                assert(cell_at(step(cur, d as int)) == q);
                                let w = walks[head as int];
                                let w2 = w.push(q);
                                assert(side_step(cur, q));
                                assert(is_walk(input, state, player as int, w2)) by {
                                    assert forall|k: int| 0 <= k < w2.len() - 1 implies #[trigger] side_step(w2[k], w2[k + 1])
                                        && state.owner_at(w2[k]) == player by {
                                        if k < w.len() - 1 {
                                            assert(side_step(w[k], w[k + 1]));
                                        } else {
                                            assert(w2[k] == cur);
                                        }
                                    }
                                }
                                walks = walks.push(w2);
                                assert forall|r: int, c: int| 0 <= r < n && 0 <= c < n implies
                                    (#[trigger] visited@[r * n + c] <==> queue@.contains((r as usize, c as usize))) by {
                                    crate::grid::lemma_cell_bound(n as int, r, c);
                                    if r * n + c == q.0 * n + q.1 {
                                        crate::grid::lemma_cell_coords(n as int, r, c);
                                        crate::grid::lemma_cell_coords(n as int, q.0 as int, q.1 as int);
                                        assert(queue@[queue@.len() - 1] == (r as usize, c as usize));
                                    } else {
                                        if queue@.contains((r as usize, c as usize)) {
                                            let k = choose|k: int| 0 <= k < queue@.len() && queue@[k] == (r as usize, c as usize);
                                            if k == queue@.len() - 1 {
                                                crate::grid::lemma_cell_coords(n as int, r, c);
                                                crate::grid::lemma_cell_coords(n as int, q.0 as int, q.1 as int);
                                            } else {
                                                assert(before[k] == (r as usize, c as usize));
                                            }
                                        }
                                        if before.contains((r as usize, c as usize)) {
                                            let k = choose|k: int| 0 <= k < before.len() && before[k] == (r as usize, c as usize);
                                            assert(queue@[k] == (r as usize, c as usize));
                                        }
                                    }
                                }
                            }
                        } else {
                            proof {
                                assert(visited@[q.0 * n + q.1]);
                                assert(queue@.contains((q.0 as usize, q.1 as usize)));
                                assert(cell_at(step(cur, d as int)) == q);
                            }
                        }
                    },
                    None => {},
                }
                proof {
                    assert forall|x: Cell| before.contains(x) implies queue@.contains(x) by {
                        let k = choose|k: int| 0 <= k < before.len() && before[k] == x;
                        assert(queue@[k] == x);
                    }
                    assert(queue@.subrange(0, head + 1) =~= before.subrange(0, head + 1));
                    assert forall|k: int, e: int| 0 <= k < head && 0 <= e < 4
                        && state.owner_at(queue@[k]) == player && inside(n as int, #[trigger] step(queue@[k], e))
                        implies queue@.contains(cell_at(step(queue@[k], e))) by {
                        assert(queue@[k] == before[k]);
                        assert(before.contains(cell_at(step(before[k], e))));
                    }
                    assert forall|e: int| 0 <= e < d + 1 && inside(n as int, #[trigger] step(cur, e))
                        implies queue@.contains(cell_at(step(cur, e))) by {
                        if e < d {
                            assert(before.contains(cell_at(step(cur, e))));
                        }
                    }
                }
                d += 1;
            }
            proof {
                assert forall|k: int, e: int| 0 <= k < head + 1 && 0 <= e < 4
                    && state.owner_at(queue@[k]) == player && inside(n as int, #[trigger] step(queue@[k], e))
                    implies queue@.contains(cell_at(step(queue@[k], e))) by {
                    if k == head {
                        assert(queue@[k] == cur);
                    }
                }
            }
        } else {
            proof {
                assert forall|k: int, e: int| 0 <= k < head + 1 && 0 <= e < 4
                    && state.owner_at(queue@[k]) == player && inside(n as int, #[trigger] step(queue@[k], e))
                    implies queue@.contains(cell_at(step(queue@[k], e))) by {
                    if k == head {
                        assert(queue@[k] == cur);
                    }
                }
            }
        }
        proof {
            lemma_free_prefix_same(state, player as int, q0, queue@, head + 1);
            assert(queue@ == (if state.owner_at(cur) == player { bfs_expand(n as int, q0, cur, 0) } else { q0 }));
            assert(bfs_queue(state, n as int, player as int, q0, head as int, (nn - head) as nat)
                == bfs_queue(state, n as int, player as int, queue@, head + 1, (nn - (head + 1)) as nat));
        }
        head += 1;
    }
    proof {
        assert(queue@.subrange(0, head as int) =~= queue@);
        assert(queue@.contains(start));
        assert forall|c: Cell| #[trigger] reach@.contains(c) <==> reachable(input, state, player as int, c)
            && !occupied_by_other(state, player as int, c) by {
            if reachable(input, state, player as int, c) {
                let w = choose|w: Seq<Cell>| #[trigger] is_walk(input, state, player as int, w) && w.last() == c;
                lemma_walk_stays(input, state, player as int, queue@, w, w.len() - 1);
            }
            if queue@.contains(c) {
                let k = choose|k: int| 0 <= k < queue@.len() && queue@[k] == c;
                assert(is_walk(input, state, player as int, walks[k]));
            }
        }
    }
    reach
}

/// `player` may move its piece to `target`: on the board, free of other
/// pieces, and reachable.
pub open spec fn valid_move(input: &Input, state: &State, player: int, target: Cell) -> bool {
    &&& on_board(input.n as int, target)
    &&& !occupied_by_other(state, player, target)
    &&& reachable(input, state, player, target)
}

/// Whether `player` may move its piece to `target`.
pub fn is_valid_move(input: &Input, state: &State, player: usize, target: Cell) -> (res: bool)
    requires
        input.wf(),
        state.wf(input),
        player < input.m,
    ensures
        res == valid_move(input, state, player as int, target),
{
    if target.0 >= input.n || target.1 >= input.n {
        return false;
    }
    if is_occupied_by_other(state, player, target) {
        return false;
    }
    let candidates = get_candidates(input, state, player);
    let mut k: usize = 0;
    while k < candidates.len()
        invariant
            k <= candidates@.len(),
            forall|q: int| 0 <= q < k ==> #[trigger] candidates@[q] != target,
            forall|c: Cell| #[trigger] candidates@.contains(c) <==> reachable(input, state, player as int, c)
                && !occupied_by_other(state, player as int, c),
            on_board(input.n as int, target),
        decreases candidates@.len() - k,
    {
        let c = candidates[k];
        if c.0 == target.0 && c.1 == target.1 {
            proof {
                assert(candidates@[k as int] == target);
                assert(candidates@.contains(target));
                assert(reachable(input, state, player as int, target));
            }
            return true;
        }
        k += 1;
    }
    proof {
        assert(!candidates@.contains(target));
    }
    false
}

/// Why a turn cannot be played.
#[derive(Debug, Clone, Copy, PartialEq, Eq, Structural)]
pub enum MoveError {
    /// `player` chose the cell `(x, y)`, which is off the board.
    OutOfBounds { player: usize, x: usize, y: usize },
    /// `player` may not move from `(from_x, from_y)` to `(x, y)`.
    InvalidMove { player: usize, from_x: usize, from_y: usize, x: usize, y: usize },
}

/// The error reported for the move of `player` to `target`.
pub open spec fn move_error(input: &Input, state: &State, player: int, target: Cell) -> MoveError {
    if !on_board(input.n as int, target) {
        MoveError::OutOfBounds { player: player as usize, x: target.0, y: target.1 }
    } else {
        MoveError::InvalidMove { player: player as usize, from_x: state.pos@[player].0, from_y: state.pos@[player].1,
            x: target.0, y: target.1 }
    }
}

/// The moves of the first `k` players are valid.
pub open spec fn moves_valid_upto(input: &Input, state: &State, moves: Seq<Cell>, k: int) -> bool {
    forall|i: int| 0 <= i < k ==> #[trigger] valid_move(input, state, i, moves[i])
}

/// Another player chose the same cell as player `i`.
pub open spec fn contested(moves: Seq<Cell>, i: int) -> bool {
    exists|j: int| 0 <= j < moves.len() && j != i && #[trigger] moves[j] == moves[i]
}

/// Player `i` is sent back for sharing its cell with others, as it does not
/// own it.
pub open spec fn bumped(state: &State, moves: Seq<Cell>, i: int) -> bool {
    contested(moves, i) && state.owner_at(moves[i]) != i
}

/// A grid with `x` written into cell `c`.
pub open spec fn put<T>(g: Seq<Seq<T>>, c: Cell, x: T) -> Seq<Seq<T>> {
    g.update(c.0 as int, g[c.0 as int].update(c.1 as int, x))
}

/// The rows of a grid.
pub open spec fn rows<T>(g: Seq<Vec<T>>) -> Seq<Seq<T>> {
    Seq::new(g.len(), |r: int| g[r]@)
}

/// Owners, levels and sent-back flags after the actions of the first `k`
/// players, in player order: a free cell is claimed at level 1, an own cell
/// is strengthened up to level `u`, another's cell loses a level and is
/// taken over (at level 1) when none is left; a piece whose attack leaves
/// levels standing is sent back.
pub open spec fn resolve(u: int, state: &State, moves: Seq<Cell>, k: int)
    -> (Seq<Seq<i32>>, Seq<Seq<usize>>, Seq<bool>)
    decreases k,
{
    if k <= 0 {
        (rows(state.owner@), rows(state.level@), Seq::new(moves.len(), |i: int| bumped(state, moves, i)))
    } else {
        let prev = resolve(u, state, moves, k - 1);
        let (o, l, back) = prev;
        let i = k - 1;
        let c = moves[i];
        let ow = o[c.0 as int][c.1 as int];
        let lv = l[c.0 as int][c.1 as int];
        if back[i] {
            prev
        } else if ow == -1 {
            (put(o, c, i as i32), put(l, c, 1usize), back)
        } else if ow == i {
            (o, if lv < u { put(l, c, (lv + 1) as usize) } else { l }, back)
        } else if lv == 1 {
            (put(o, c, i as i32), put(l, c, 1usize), back)
        } else {
            (o, put(l, c, (lv - 1) as usize), back.update(i, true))
        }
    }
}

/// The grid view `s` is an `n` by `n` board of owners in `-1..m` whose owned
/// cells have level 1 or more in `l`.
pub open spec fn boards_ok(n: int, m: int, o: Seq<Seq<i32>>, l: Seq<Seq<usize>>) -> bool {
    &&& o.len() == n
    &&& l.len() == n
    &&& forall|r: int| 0 <= r < n ==> #[trigger] o[r].len() == n
    &&& forall|r: int| 0 <= r < n ==> #[trigger] l[r].len() == n
    &&& forall|r: int, c: int| 0 <= r < n && 0 <= c < n ==> -1 <= #[trigger] o[r][c] < m
    &&& forall|r: int, c: int| 0 <= r < n && 0 <= c < n && o[r][c] >= 0 ==> #[trigger] l[r][c] >= 1
}

proof fn lemma_resolve_ok(input: &Input, state: &State, moves: Seq<Cell>, k: int)
    requires
        input.wf(),
        state.wf(input),
        moves.len() == input.m,
        forall|i: int| 0 <= i < input.m ==> on_board(input.n as int, #[trigger] moves[i]),
        0 <= k <= input.m,
    ensures
        boards_ok(input.n as int, input.m as int, resolve(input.u as int, state, moves, k).0,
            resolve(input.u as int, state, moves, k).1),
        resolve(input.u as int, state, moves, k).2.len() == input.m,
    decreases k,
{
    if k > 0 {
        lemma_resolve_ok(input, state, moves, k - 1);
        let n = input.n as int;
        let m = input.m as int;
        let (o, l, back) = resolve(input.u as int, state, moves, k - 1);
        let c = moves[k - 1];
        assert(on_board(n, c));
        let ow = o[c.0 as int][c.1 as int];
        let lv = l[c.0 as int][c.1 as int];
        if !back[k - 1] {
            assert(o[c.0 as int].len() == n);
            assert(l[c.0 as int].len() == n);
            if ow == -1 || (ow != k - 1 && lv == 1) {
                lemma_put_ok(n, m, o, l, c, (k - 1) as i32, 1usize);
            } else if ow == k - 1 {
                if lv < input.u {
                    lemma_put_level_ok(n, m, o, l, c, (lv + 1) as usize);
                }
            } else {
                lemma_put_level_ok(n, m, o, l, c, (lv - 1) as usize);
            }
        }
    } else {
        assert forall|r: int| 0 <= r < input.n implies #[trigger] rows(state.owner@)[r].len() == input.n by {
            assert(state.owner@[r]@.len() == input.n);
        }
        assert forall|r: int| 0 <= r < input.n implies #[trigger] rows(state.level@)[r].len() == input.n by {
            assert(state.owner@[r]@.len() == input.n);
            assert(state.level@[r]@.len() == input.n);
        }
        assert forall|r: int, c: int| 0 <= r < input.n && 0 <= c < input.n
            implies -1 <= #[trigger] rows(state.owner@)[r][c] < input.m by {
            assert(-1 <= state.owner@[r]@[c] < input.m);
        }
        assert forall|r: int, c: int| 0 <= r < input.n && 0 <= c < input.n && rows(state.owner@)[r][c] >= 0
            implies #[trigger] rows(state.level@)[r][c] >= 1 by {
            assert(state.owner@[r]@[c] >= 0);
            assert(state.level@[r]@[c] >= 1);
        }
    }
}

proof fn lemma_put_ok(n: int, m: int, o: Seq<Seq<i32>>, l: Seq<Seq<usize>>, c: Cell, x: i32, y: usize)
    requires
        boards_ok(n, m, o, l),
        on_board(n, c),
        -1 <= x < m,
        x >= 0 ==> y >= 1,
    ensures
        boards_ok(n, m, put(o, c, x), put(l, c, y)),
{
    let o2 = put(o, c, x);
    let l2 = put(l, c, y);
    assert forall|r: int| 0 <= r < n implies #[trigger] o2[r].len() == n by {
        assert(o[r].len() == n);
    }
    assert forall|r: int| 0 <= r < n implies #[trigger] l2[r].len() == n by {
        assert(o[r].len() == n);
        assert(l[r].len() == n);
    }
    assert forall|r: int, q: int| 0 <= r < n && 0 <= q < n implies -1 <= #[trigger] o2[r][q] < m by {
        assert(o[r].len() == n);
        assert(-1 <= o[r][q] < m);
    }
    assert forall|r: int, q: int| 0 <= r < n && 0 <= q < n && o2[r][q] >= 0 implies #[trigger] l2[r][q] >= 1 by {
        assert(o[r].len() == n);
        assert(l[r].len() == n);
        if r != c.0 || q != c.1 {
            assert(-1 <= o[r][q] < m);
            assert(o[r][q] >= 0 ==> l[r][q] >= 1);
        }
    }
}

proof fn lemma_put_level_ok(n: int, m: int, o: Seq<Seq<i32>>, l: Seq<Seq<usize>>, c: Cell, y: usize)
    requires
        boards_ok(n, m, o, l),
        on_board(n, c),
        o[c.0 as int][c.1 as int] >= 0 ==> y >= 1,
    ensures
        boards_ok(n, m, o, put(l, c, y)),
{
    let l2 = put(l, c, y);
    assert forall|r: int| 0 <= r < n implies #[trigger] l2[r].len() == n by {
        assert(o[r].len() == n);
        assert(l[r].len() == n);
    }
    assert forall|r: int, q: int| 0 <= r < n && 0 <= q < n && o[r][q] >= 0 implies #[trigger] l2[r][q] >= 1 by {
        assert(o[r].len() == n);
        assert(l[r].len() == n);
        if r != c.0 || q != c.1 {
            assert(-1 <= o[r][q] < m);
            assert(o[r][q] >= 0 ==> l[r][q] >= 1);
        }
    }
}

/// What a turn does on a cell that player `i` chose together with another
/// player: when `i` owns it, `i` stands on it afterwards, still owns it, and
/// its level is one more, up to `u`; when `i` does not own it, `i` is sent
/// back to where it stood.
pub open spec fn shared_cell_outcome(input: &Input, state: &State, moves: Seq<Cell>, next: &State, i: int) -> bool {
    let c = moves[i];
    let lv = state.level_at(c);
    if state.owner_at(c) == i {
        &&& next.pos@[i] == c
        &&& next.owner_at(c) == i
        &&& next.level_at(c) == if lv < input.u { lv + 1 } else { lv as int }
    } else {
        next.pos@[i] == state.pos@[i]
    }
}

/// A player sent back for sharing a cell it does not own stays sent back
/// through the actions of the first `k` players.
proof fn lemma_bumped_stays(input: &Input, state: &State, moves: Seq<Cell>, k: int)
    requires
        input.wf(),
        state.wf(input),
        moves.len() == input.m,
        forall|i: int| 0 <= i < input.m ==> on_board(input.n as int, #[trigger] moves[i]),
        0 <= k <= input.m,
    ensures
        forall|j: int| 0 <= j < input.m && bumped(state, moves, j)
            ==> #[trigger] resolve(input.u as int, state, moves, k).2[j],
    decreases k,
{
    if k > 0 {
        lemma_bumped_stays(input, state, moves, k - 1);
        lemma_resolve_ok(input, state, moves, k - 1);
    }
}

/// `put` at another cell of an `n` by `n` grid leaves cell `c` as it was.
proof fn lemma_put_elsewhere<T>(n: int, g: Seq<Seq<T>>, d: Cell, x: T, c: Cell)
    requires
        g.len() == n,
        forall|r: int| 0 <= r < n ==> #[trigger] g[r].len() == n,
        on_board(n, c),
        on_board(n, d),
        d != c,
    ensures
        put(g, d, x)[c.0 as int][c.1 as int] == g[c.0 as int][c.1 as int],
{
    assert(g[c.0 as int].len() == n);
    assert(g[d.0 as int].len() == n);
}

/// Through the actions of the first `k` players, a cell that its owner `i`
/// chose together with another player stays `i`'s, `i` is not sent back,
/// and the cell gains a level (up to `u`) once `i` has acted.
proof fn lemma_owner_keeps_shared_cell(input: &Input, state: &State, moves: Seq<Cell>, i: int, k: int)
    requires
        input.wf(),
        state.wf(input),
        moves.len() == input.m,
        forall|q: int| 0 <= q < input.m ==> on_board(input.n as int, #[trigger] moves[q]),
        0 <= i < input.m,
        contested(moves, i),
        state.owner_at(moves[i]) == i,
        0 <= k <= input.m,
    ensures
        ({
            let r = resolve(input.u as int, state, moves, k);
            let c = moves[i];
            let lv = state.level_at(c);
            &&& r.0[c.0 as int][c.1 as int] == i
            &&& r.1[c.0 as int][c.1 as int] == if k > i && lv < input.u { lv + 1 } else { lv as int }
            &&& !r.2[i]
        }),
    decreases k,
{
    let n = input.n as int;
    let c = moves[i];
    assert(on_board(n, c));
    assert(state.owner@[c.0 as int]@.len() == n);
    if k == 0 {
        assert(!bumped(state, moves, i));
    } else {
        lemma_owner_keeps_shared_cell(input, state, moves, i, k - 1);
        lemma_bumped_stays(input, state, moves, k - 1);
        lemma_resolve_ok(input, state, moves, k - 1);
        let j = k - 1;
        let (o, l, back) = resolve(input.u as int, state, moves, j);
        let d = moves[j];
        assert(on_board(n, d));
        if !back[j] {
            if d != c {
                lemma_put_elsewhere(n, o, d, j as i32, c);
                lemma_put_elsewhere(n, l, d, 1usize, c);
                lemma_put_elsewhere(n, l, d, (l[d.0 as int][d.1 as int] + 1) as usize, c);
                lemma_put_elsewhere(n, l, d, (l[d.0 as int][d.1 as int] - 1) as usize, c);
            } else if j != i {
                assert(moves[i] == moves[j]);
                assert(contested(moves, j));
                assert(bumped(state, moves, j));
            } else {
                assert(o[c.0 as int].len() == n);
                assert(l[c.0 as int].len() == n);
            }
        }
    }
}

/// A copy of a grid.
fn copy_grid<T: Copy>(g: &Vec<Vec<T>>) -> (res: Vec<Vec<T>>)
    ensures
        rows(res@) == rows(g@),
{
    let mut res: Vec<Vec<T>> = Vec::new();
    let mut r: usize = 0;
    while r < g.len()
        invariant
            r <= g@.len(),
            res@.len() == r,
            forall|q: int| 0 <= q < r ==> #[trigger] res@[q]@ == g@[q]@,
        decreases g@.len() - r,
    {
        let mut row: Vec<T> = Vec::new();
        let mut c: usize = 0;
        while c < g[r].len()
            invariant
                r < g@.len(),
                c <= g@[r as int]@.len(),
                row@ == g@[r as int]@.subrange(0, c as int),
            decreases g@[r as int]@.len() - c,
        {
            row.push(g[r][c]);
            c += 1;
            proof {
                assert(row@ =~= g@[r as int]@.subrange(0, c as int));
            }
        }
        proof {
            assert(row@ =~= g@[r as int]@);
        }
        res.push(row);
        r += 1;
    }
    proof {
        assert(rows(res@) =~= rows(g@));
    }
    res
}

/// Plays one turn, `moves[i]` being the cell that player `i` chose: the
/// moves are checked in player order; then pieces that share a cell they do
/// not own are sent back, the other players act in player order (see
/// `resolve`), and every piece not sent back stands on its chosen cell.
pub fn update_state(input: &Input, state: &State, moves: &Vec<Cell>) -> (res: Result<State, MoveError>)
    requires
        input.wf(),
        state.wf(input),
        moves@.len() == input.m,
    ensures
        forall|i: int| 0 <= i < input.m && moves_valid_upto(input, state, moves@, i)
            && !#[trigger] valid_move(input, state, i, moves@[i])
            ==> res == Err::<State, MoveError>(move_error(input, state, i, moves@[i])),
        moves_valid_upto(input, state, moves@, input.m as int) ==> (res matches Ok(s) && {
            let outcome = resolve(input.u as int, state, moves@, input.m as int);
            &&& s.wf(input)
            &&& rows(s.owner@) == outcome.0
            &&& rows(s.level@) == outcome.1
            &&& s.selected@ == moves@
            &&& forall|i: int| 0 <= i < input.m ==> #[trigger] s.pos@[i]
                == if outcome.2[i] { state.pos@[i] } else { moves@[i] }
        }),
        moves_valid_upto(input, state, moves@, input.m as int) ==> (res matches Ok(s)
            && forall|i: int| 0 <= i < input.m && (exists|j: int| 0 <= j < input.m && j != i && moves@[j] == moves@[i])
                ==> #[trigger] shared_cell_outcome(input, state, moves@, &s, i)),
{
    let m = input.m;
    let n = input.n;
    let mut i: usize = 0;
    while i < m
        invariant
            m == input.m,
            input.wf(),
            state.wf(input),
            moves@.len() == m,
            i <= m,
            moves_valid_upto(input, state, moves@, i as int),
        decreases m - i,
    {
        let target = moves[i];
        if !is_valid_move(input, state, i, target) {
            if target.0 >= input.n || target.1 >= input.n {
                return Err(MoveError::OutOfBounds { player: i, x: target.0, y: target.1 });
            }
            let from = state.pos[i];
            return Err(MoveError::InvalidMove { player: i, from_x: from.0, from_y: from.1, x: target.0, y: target.1 });
        }
        i += 1;
    }
    proof {
        assert forall|q: int| 0 <= q < m implies on_board(n as int, #[trigger] moves@[q]) by {
            assert(valid_move(input, state, q, moves@[q]));
        }
    }
    let mut back: Vec<bool> = Vec::new();
    let mut i: usize = 0;
    while i < m
        invariant
            m == input.m,
            n == input.n,
            input.wf(),
            state.wf(input),
            moves@.len() == m,
            forall|q: int| 0 <= q < m ==> on_board(n as int, #[trigger] moves@[q]),
            i <= m,
            back@.len() == i,
            forall|q: int| 0 <= q < i ==> #[trigger] back@[q] == bumped(state, moves@, q),
        decreases m - i,
    {
        let target = moves[i];
        let mut shared = false;
        let mut j: usize = 0;
        while j < m
            invariant
                moves@.len() == m,
                i < m,
                target == moves@[i as int],
                j <= m,
                shared <==> exists|q: int| 0 <= q < j && q != i && #[trigger] moves@[q] == target,
            decreases m - j,
        {
            let other = moves[j];
            if j != i && other.0 == target.0 && other.1 == target.1 {
                shared = true;
            }
            j += 1;
        }
        proof {
            assert(on_board(n as int, target));
            assert(state.owner@[target.0 as int]@.len() == n);
        }
        let owner_here = state.owner[target.0][target.1];
        back.push(shared && owner_here != i as i32);
        i += 1;
    }
    proof {
        assert(back@ =~= resolve(input.u as int, state, moves@, 0).2);
    }
    let mut owner = copy_grid(&state.owner);
    let mut level = copy_grid(&state.level);
    proof {
        assert(owner@.len() == rows(owner@).len());
        assert(level@.len() == rows(level@).len());
        assert(rows(state.owner@).len() == state.owner@.len());
        assert(rows(state.level@).len() == state.level@.len());
        lemma_resolve_ok(input, state, moves@, 0);
    }
    let mut i: usize = 0;
    while i < m
        invariant
            m == input.m,
            n == input.n,
            input.wf(),
            state.wf(input),
            moves@.len() == m,
            forall|q: int| 0 <= q < m ==> on_board(n as int, #[trigger] moves@[q]),
            i <= m,
            (rows(owner@), rows(level@), back@) == resolve(input.u as int, state, moves@, i as int),
            boards_ok(n as int, m as int, rows(owner@), rows(level@)),
            owner@.len() == n,
            level@.len() == n,
            back@.len() == m,
        decreases m - i,
    {
        let ghost prev = resolve(input.u as int, state, moves@, i as int);
        proof {
            lemma_resolve_ok(input, state, moves@, i + 1);
        }
        if !back[i] {
            let (x, y) = moves[i];
            proof {
                assert(on_board(n as int, moves@[i as int]));
                assert(rows(owner@)[x as int].len() == n);
                assert(rows(level@)[x as int].len() == n);
                assert(owner@[x as int]@ == rows(owner@)[x as int]);
                assert(level@[x as int]@ == rows(level@)[x as int]);
            }
            let ow = owner[x][y];
            let lv = level[x][y];
            if ow == -1 {
                set_cell(&mut owner, x, y, i as i32);
                set_cell(&mut level, x, y, 1usize);
            } else if ow == i as i32 {
                if lv < input.u {
                    set_cell(&mut level, x, y, lv + 1);
                }
            } else {
                proof {
                    assert(ow >= 0);
                    assert(lv >= 1);
                }
                let lowered = lv - 1;
                if lowered == 0 {
                    set_cell(&mut owner, x, y, i as i32);
                    set_cell(&mut level, x, y, 1usize);
                } else {
                    set_cell(&mut level, x, y, lowered);
                    back.set(i, true);
                }
            }
        }
        i += 1;
        proof {
            assert(rows(owner@).len() == n);
        }
    }
    let mut pos: Vec<Cell> = Vec::new();
    let mut i: usize = 0;
    while i < m
        invariant
            m == input.m,
            state.wf(input),
            moves@.len() == m,
            back@.len() == m,
            i <= m,
            pos@.len() == i,
            forall|q: int| 0 <= q < i ==> #[trigger] pos@[q] == if back@[q] { state.pos@[q] } else { moves@[q] },
        decreases m - i,
    {
        if back[i] {
            pos.push(state.pos[i]);
        } else {
            pos.push(moves[i]);
        }
        i += 1;
    }
    let selected = copy_cells(moves);
    let next = State { pos, owner, level, selected };
    proof {
        let outcome = resolve(input.u as int, state, moves@, m as int);
        assert forall|q: int| 0 <= q < m implies on_board(n as int, #[trigger] next.pos@[q]) by {
            assert(on_board(n as int, moves@[q]));
            assert(on_board(n as int, state.pos@[q]));
        }
        assert forall|r: int| 0 <= r < n implies #[trigger] next.owner@[r]@.len() == n by {
            assert(rows(next.owner@)[r].len() == n);
        }
        assert forall|r: int| 0 <= r < n implies #[trigger] next.level@[r]@.len() == n by {
            assert(rows(next.level@)[r].len() == n);
        }
        assert forall|r: int, c: int| 0 <= r < n && 0 <= c < n implies -1 <= #[trigger] next.owner@[r]@[c] < m by {
            assert(-1 <= rows(next.owner@)[r][c] < m);
        }
        assert forall|r: int, c: int| 0 <= r < n && 0 <= c < n && next.owner@[r]@[c] >= 0
            implies #[trigger] next.level@[r]@[c] >= 1 by {
            assert(rows(next.owner@)[r][c] >= 0);
            assert(rows(next.level@)[r][c] >= 1);
        }
        assert forall|q: int| 0 <= q < m && (exists|j: int| 0 <= j < m && j != q && moves@[j] == moves@[q])
            implies #[trigger] shared_cell_outcome(input, state, moves@, &next, q) by {
            let c = moves@[q];
            assert(contested(moves@, q));
            assert(on_board(n as int, c));
            if state.owner_at(c) == q {
                lemma_owner_keeps_shared_cell(input, state, moves@, q, m as int);
                let r = resolve(input.u as int, state, moves@, m as int);
                assert(!back@[q]);
                assert(next.pos@[q] == c);
                assert(next.owner@[c.0 as int]@ == rows(next.owner@)[c.0 as int]);
                assert(next.level@[c.0 as int]@ == rows(next.level@)[c.0 as int]);
                assert(next.owner_at(c) == r.0[c.0 as int][c.1 as int]);
                assert(next.level_at(c) == r.1[c.0 as int][c.1 as int]);
            } else {
                lemma_bumped_stays(input, state, moves@, m as int);
                assert(bumped(state, moves@, q));
                assert(resolve(input.u as int, state, moves@, m as int).2[q]);
                assert(back@[q]);
            }
        }
    }
    Ok(next)
}

/// Largest cell value and level handled when summing holdings.
pub const MAX_VALUE: usize = 1_000_000;

/// Cell values and levels are at most `MAX_VALUE`.
pub open spec fn values_bounded(input: &Input, state: &State) -> bool {
    forall|r: int, c: int| 0 <= r < input.n && 0 <= c < input.n
        ==> #[trigger] input.v@[r]@[c] <= MAX_VALUE && state.level@[r]@[c] <= MAX_VALUE
}

/// The holdings of player `p` over the first `k` cells in row-major order:
/// the value times the level of each cell it owns.
pub open spec fn holdings(input: &Input, state: &State, p: int, k: int) -> int
    decreases k,
{
    if k <= 0 {
        0
    } else {
        let r = (k - 1) / (input.n as int);
        let c = (k - 1) % (input.n as int);
        holdings(input, state, p, k - 1) + if state.owner@[r]@[c] == p {
            input.v@[r]@[c] * state.level@[r]@[c]
        } else {
            0
        }
    }
}

proof fn lemma_holdings_bound(input: &Input, state: &State, p: int, k: int)
    requires
        input.wf(),
        state.wf(input),
        values_bounded(input, state),
        0 <= k <= input.n * input.n,
    ensures
        0 <= holdings(input, state, p, k) <= k * (MAX_VALUE * MAX_VALUE),
    decreases k,
{
    if k > 0 {
        lemma_holdings_bound(input, state, p, k - 1);
        let n = input.n as int;
        crate::grid::lemma_cell_split(n, k - 1);
        let r = (k - 1) / n;
        let c = (k - 1) % n;
        assert(r < n) by {
            if r >= n {
                assert(r * n >= n * n) by (nonlinear_arith)
                    requires r >= n, n > 0;
            }
        }
        let x = input.v@[r]@[c];
        let y = state.level@[r]@[c];
        assert(x <= MAX_VALUE && y <= MAX_VALUE);
        assert(x * y <= MAX_VALUE * MAX_VALUE) by (nonlinear_arith)
            requires 0 <= x <= MAX_VALUE, 0 <= y <= MAX_VALUE;
        assert(x * y >= 0) by (nonlinear_arith)
            requires 0 <= x, 0 <= y;
    }
}

/// The holdings of every player in `state`.
pub fn player_scores(input: &Input, state: &State) -> (scores: Vec<i64>)
    requires
        input.wf(),
        state.wf(input),
        values_bounded(input, state),
    ensures
        scores@.len() == input.m,
        forall|p: int| 0 <= p < input.m ==> #[trigger] scores@[p]
            == holdings(input, state, p, input.n * input.n),
{
    let n = input.n;
    let m = input.m;
    let mut scores: Vec<i64> = Vec::new();
    let mut p: usize = 0;
    while p < m
        invariant
            p <= m,
            scores@.len() == p,
            forall|q: int| 0 <= q < p ==> #[trigger] scores@[q] == 0,
        decreases m - p,
    {
        scores.push(0);
        p += 1;
    }
    let mut i: usize = 0;
    proof {
        assert(0 * n == 0);
    }
    while i < n
        invariant
            n == input.n,
            m == input.m,
            input.wf(),
            state.wf(input),
            values_bounded(input, state),
            i <= n,
            scores@.len() == m,
            forall|q: int| 0 <= q < m ==> #[trigger] scores@[q] == holdings(input, state, q, i * n),
        decreases n - i,
    {
        let mut j: usize = 0;
        while j < n
            invariant
                n == input.n,
                m == input.m,
                input.wf(),
                state.wf(input),
                values_bounded(input, state),
                i < n,
                j <= n,
                scores@.len() == m,
                forall|q: int| 0 <= q < m ==> #[trigger] scores@[q] == holdings(input, state, q, i * n + j),
            decreases n - j,
        {
            let ghost k: int = i * n + j;
            proof {
                crate::grid::lemma_cell_coords(n as int, i as int, j as int);
                crate::grid::lemma_cell_bound(n as int, i as int, j as int);
                assert(state.owner@[i as int]@.len() == n);
                assert(state.level@[i as int]@.len() == n);
                assert(input.v@[i as int]@.len() == n);
                assert(-1 <= state.owner@[i as int]@[j as int] < m);
            }
            let o = state.owner[i][j];
            if o >= 0 {
                let x = input.v[i][j];
                let y = state.level[i][j];
                proof {
                    assert(x <= MAX_VALUE && y <= MAX_VALUE);
                    assert(x * y <= MAX_VALUE * MAX_VALUE) by (nonlinear_arith)
                        requires 0 <= x <= MAX_VALUE, 0 <= y <= MAX_VALUE;
                    lemma_holdings_bound(input, state, o as int, k + 1);
                    assert((k + 1) * (MAX_VALUE * MAX_VALUE) <= 1_000_000_000_000_000_000) by (nonlinear_arith)
                        requires k + 1 <= 1_000_000;
                }
                let gain = (x as i64) * (y as i64);
                let idx = o as usize;
                scores.set(idx, scores[idx] + gain);
            }
            proof {
                assert forall|q: int| 0 <= q < m implies #[trigger] scores@[q] == holdings(input, state, q, k + 1) by {
                }
            }
            j += 1;
        }
        proof {
            assert((i + 1) * n == i * n + n) by (nonlinear_arith);
        }
        i += 1;
    }
    scores
}

/// Why a finished game cannot be scored.
#[derive(Debug, Clone, Copy, PartialEq, Eq, Structural)]
pub enum ScoreError {
    /// No state was given.
    EmptyOutput,
    /// More than `T` turns were played.
    TooManyMoves,
    /// Fewer than `T` turns were played (a game read so far is not an error
    /// while reading, only when it is scored).
    TooFewMoves,
}

/// The holdings of every player in the last of the states `out`, one per
/// turn played after the start; the game must have been played to its
/// `T` turns.
pub fn final_scores(input: &Input, out: &[State]) -> (res: Result<Vec<i64>, ScoreError>)
    requires
        input.wf(),
        out@.len() > 0 ==> out@.last().wf(input) && values_bounded(input, &out@.last()),
    ensures
        out@.len() == 0 ==> res == Err::<Vec<i64>, ScoreError>(ScoreError::EmptyOutput),
        out@.len() > input.t + 1 ==> res == Err::<Vec<i64>, ScoreError>(ScoreError::TooManyMoves),
        0 < out@.len() <= input.t ==> res == Err::<Vec<i64>, ScoreError>(ScoreError::TooFewMoves),
        out@.len() == input.t + 1 ==> (res matches Ok(scores) && scores@.len() == input.m
            && forall|p: int| 0 <= p < input.m ==> #[trigger] scores@[p]
                == holdings(input, &out@.last(), p, input.n * input.n)),
{
    if out.len() == 0 {
        return Err(ScoreError::EmptyOutput);
    }
    if out.len() - 1 > input.t {
        return Err(ScoreError::TooManyMoves);
    }
    if out.len() - 1 < input.t {
        return Err(ScoreError::TooFewMoves);
    }
    Ok(player_scores(input, &out[out.len() - 1]))
}

/// The length of the whitespace character that ends at `e` in `s`, or 0
/// when none does.
pub open spec fn tail_space(s: Seq<u8>, e: int) -> int {
    if 1 <= e <= s.len() && space_len(s, e - 1) == 1 {
        1
    } else if 2 <= e <= s.len() && space_len(s, e - 2) == 2 {
        2
    } else if 3 <= e <= s.len() && space_len(s, e - 3) == 3 {
        3
    } else {
        0
    }
}

/// `tail_space(s, e)`.
fn tail_space_at(s: &[u8], e: usize) -> (r: usize)
    requires
        e <= s@.len(),
    ensures
        r == tail_space(s@, e as int),
        r <= e,
{
    if e >= 1 && space_len_at(s, e - 1) == 1 {
        return 1;
    }
    if e >= 2 && space_len_at(s, e - 2) == 2 {
        return 2;
    }
    if e >= 3 && space_len_at(s, e - 3) == 3 {
        return 3;
    }
    0
}

/// The end of `s` with trailing whitespace removed, looking at `s[..e]`.
pub open spec fn trim_end(s: Seq<u8>, e: int) -> int
    decreases e,
{
    if 0 < e <= s.len() && tail_space(s, e) > 0 {
        trim_end(s, e - tail_space(s, e))
    } else {
        e
    }
}

/// `s` without leading and trailing whitespace.
pub open spec fn trimmed(s: Seq<u8>) -> Seq<u8> {
    let b = skip_spaces(s, 0);
    let e = trim_end(s, s.len() as int);
    if b < e { s.subrange(b, e) } else { Seq::empty() }
}

/// Why a line of moves cannot be read.
#[derive(Debug, Clone, PartialEq, Eq)]
pub enum LineError {
    /// A coordinate is missing or wrong.
    Read(OutputError),
    /// The line, trimmed, holds more than two tokens.
    TooManyTokens(Vec<u8>),
}

/// What reading a line of moves gives: nothing for a blank line or a comment
/// (first token starting with `#`), the two coordinates of a move, or the
/// first problem.
pub open spec fn line_outcome(line: Seq<u8>, n: int, res: Result<Option<Cell>, LineError>) -> bool {
    let toks = tokens(line);
    if toks.len() == 0 || toks[0][0] == 35 {
        res == Ok::<Option<Cell>, LineError>(None)
    } else if !coord_token(toks[0], n) {
        res matches Err(LineError::Read(e)) && read_failure(e, toks[0])
    } else if toks.len() < 2 {
        res == Err::<Option<Cell>, LineError>(LineError::Read(OutputError::UnexpectedEof))
    } else if !coord_token(toks[1], n) {
        res matches Err(LineError::Read(e)) && read_failure(e, toks[1])
    } else if toks.len() > 2 {
        res matches Err(LineError::TooManyTokens(l)) && l@ == trimmed(line)
    } else {
        res == Ok::<Option<Cell>, LineError>(Some(
            (usize_token_value(toks[0]) as usize, usize_token_value(toks[1]) as usize)))
    }
}

/// The text of `s` without leading and trailing whitespace.
fn trim_bytes(s: &[u8]) -> (res: Vec<u8>)
    ensures
        res@ == trimmed(s@),
{
    let (b, _) = next_token(s, 0);
    let mut e = s.len();
    let mut t = tail_space_at(s, e);
    while t > 0
        invariant
            e <= s@.len(),
            t == tail_space(s@, e as int),
            t <= e,
            trim_end(s@, e as int) == trim_end(s@, s@.len() as int),
        decreases e,
    {
        e -= t;
        t = tail_space_at(s, e);
    }
    let mut res: Vec<u8> = Vec::new();
    if b < e {
        let mut k = b;
        while k < e
            invariant
                b <= k <= e <= s@.len(),
                res@ == s@.subrange(b as int, k as int),
            decreases e - k,
        {
            res.push(s[k]);
            k += 1;
            proof {
                assert(res@ =~= s@.subrange(b as int, k as int));
            }
        }
    }
    res
}

/// Reads one line of moves: blank lines and lines starting with `#` hold
/// none; other lines hold exactly two coordinates below `n`.
pub fn parse_move_line(line: &[u8], n: usize) -> (res: Result<Option<Cell>, LineError>)
    ensures
        line_outcome(line@, n as int, res),
{
    let ghost toks = tokens(line@);
    let (s0, e0) = next_token(line, 0);
    proof {
        lemma_tokens_step(line@, 0);
    }
    if s0 >= line.len() {
        return Ok(None);
    }
    proof {
        assert(toks[0] == line@.subrange(s0 as int, e0 as int));
    }
    if line[s0] == 35 {
        return Ok(None);
    }
    let x = match read(Some(&line[s0..e0]), n) {
        Ok(v) => v,
        Err(e) => return Err(LineError::Read(e)),
    };
    let (s1, e1) = next_token(line, e0);
    proof {
        lemma_tokens_step(line@, e0 as int);
        assert(toks.skip(1) =~= toks.drop_first());
    }
    if s1 >= line.len() {
        return Err(LineError::Read(OutputError::UnexpectedEof));
    }
    proof {
        assert(toks.drop_first()[0] == line@.subrange(s1 as int, e1 as int));
        assert(toks[1] == line@.subrange(s1 as int, e1 as int));
    }
    let y = match read(Some(&line[s1..e1]), n) {
        Ok(v) => v,
        Err(e) => return Err(LineError::Read(e)),
    };
    let (s2, _) = next_token(line, e1);
    proof {
        lemma_tokens_step(line@, e1 as int);
        assert(toks.drop_first().drop_first() =~= tokens_from(line@, e1 as int));
    }
    if s2 < line.len() {
        return Err(LineError::TooManyTokens(trim_bytes(line)));
    }
    proof {
        assert(toks.len() == 2);
    }
    Ok(Some((x, y)))
}

/// The outcome of the first `k` actions keeps every cell that was owned
/// owned, and never clears a sent-back flag.
proof fn lemma_resolve_monotone(input: &Input, state: &State, moves: Seq<Cell>, k: int)
    requires
        input.wf(),
        state.wf(input),
        moves.len() == input.m,
        forall|i: int| 0 <= i < input.m ==> on_board(input.n as int, #[trigger] moves[i]),
        0 <= k <= input.m,
    ensures
        forall|r: int, c: int| 0 <= r < input.n && 0 <= c < input.n && state.owner@[r]@[c] >= 0
            ==> #[trigger] resolve(input.u as int, state, moves, k).0[r][c] >= 0,
        forall|i: int| 0 <= i < input.m && bumped(state, moves, i)
            ==> #[trigger] resolve(input.u as int, state, moves, k).2[i],
    decreases k,
{
    lemma_resolve_ok(input, state, moves, k);
    if k > 0 {
        lemma_resolve_monotone(input, state, moves, k - 1);
        lemma_resolve_ok(input, state, moves, k - 1);
        let n = input.n as int;
        let (o, l, back) = resolve(input.u as int, state, moves, k - 1);
        let c = moves[k - 1];
        assert(on_board(n, c));
        assert forall|r: int, q: int| 0 <= r < n && 0 <= q < n && state.owner@[r]@[q] >= 0
            implies #[trigger] resolve(input.u as int, state, moves, k).0[r][q] >= 0 by {
            assert(o[r][q] >= 0);
            assert(o[r].len() == n);
        }
    } else {
        assert forall|r: int, q: int| 0 <= r < input.n && 0 <= q < input.n && state.owner@[r]@[q] >= 0
            implies #[trigger] resolve(input.u as int, state, moves, k).0[r][q] >= 0 by {
            assert(rows(state.owner@)[r] == state.owner@[r]@);
        }
    }
}

/// Once owned, a cell stays owned: a turn never gives a cell back to
/// nobody.
pub proof fn lemma_owned_cells_stay_owned(input: &Input, state: &State, moves: Seq<Cell>)
    requires
        input.wf(),
        state.wf(input),
        moves.len() == input.m,
        moves_valid_upto(input, state, moves, input.m as int),
    ensures
        forall|r: int, c: int| 0 <= r < input.n && 0 <= c < input.n && state.owner@[r]@[c] >= 0
            ==> #[trigger] resolve(input.u as int, state, moves, input.m as int).0[r][c] >= 0,
{
    assert forall|i: int| 0 <= i < input.m implies on_board(input.n as int, #[trigger] moves[i]) by {
        assert(valid_move(input, state, i, moves[i]));
    }
    lemma_resolve_monotone(input, state, moves, input.m as int);
}

/// No two pieces stand on one cell.
pub open spec fn pieces_apart(pos: Seq<Cell>) -> bool {
    forall|i: int, j: int| 0 <= i < pos.len() && 0 <= j < pos.len() && i != j ==> pos[i] != pos[j]
}

/// Pieces never share a cell: if they stand apart before a turn, they stand
/// apart after it. Two pieces choosing one cell both go back unless one owns
/// it, and no piece may choose the cell another piece stands on.
pub proof fn lemma_pieces_stay_apart(input: &Input, state: &State, moves: Seq<Cell>)
    requires
        input.wf(),
        state.wf(input),
        moves.len() == input.m,
        moves_valid_upto(input, state, moves, input.m as int),
        pieces_apart(state.pos@),
    ensures
        ({
            let back = resolve(input.u as int, state, moves, input.m as int).2;
            pieces_apart(Seq::new(input.m as nat, |i: int| if back[i] { state.pos@[i] } else { moves[i] }))
        }),
{
    let m = input.m as int;
    assert forall|i: int| 0 <= i < m implies on_board(input.n as int, #[trigger] moves[i]) by {
        assert(valid_move(input, state, i, moves[i]));
    }
    lemma_resolve_monotone(input, state, moves, m);
    lemma_resolve_ok(input, state, moves, m);
    let back = resolve(input.u as int, state, moves, m).2;
    let fin = Seq::new(m as nat, |i: int| if back[i] { state.pos@[i] } else { moves[i] });
    assert forall|i: int, j: int| 0 <= i < fin.len() && 0 <= j < fin.len() && i != j implies fin[i] != fin[j] by {
        assert(valid_move(input, state, i, moves[i]));
        assert(valid_move(input, state, j, moves[j]));
        if !back[i] && !back[j] {
            if moves[i] == moves[j] {
                assert(contested(moves, i));
                assert(contested(moves, j));
                assert(!bumped(state, moves, i));
                assert(!bumped(state, moves, j));
            }
        } else if !back[i] && back[j] {
            // moves[i] is free of other pieces, state.pos[j] holds piece j
            if moves[i] == state.pos@[j] {
                assert(occupied_by_other(state, i, moves[i]));
            }
        } else if back[i] && !back[j] {
            if moves[j] == state.pos@[i] {
                assert(occupied_by_other(state, j, moves[j]));
            }
        }
    }
}

} // verus!
