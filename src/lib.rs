pub mod dsu;
pub mod gen;
pub mod grid;
pub mod search;

use vstd::prelude::*;

use crate::grid::b2i;
use crate::search::{
    board_check,
    cell_value,
    head_of,
    board_error,
    fragment,
    lemma_extend_then_undo,
    link_color,
    matrix,
    search_fresh,
    search_wf,
    spec_extend,
    SearchConfig as InternalSearchConfig,
    SearchFlow,
    SearchView,
};

pub use crate::search::BoardError;

verus! {

#[verifier::external_type_specification]
#[verifier::external_body]
pub struct ExInstant(std::time::Instant);

/// Relies on std::time::Instant::now: a reading of the clock, of which nothing is known.
#[verifier::external_body]
fn clock_now() -> std::time::Instant {
    std::time::Instant::now()
}

/// Relies on std::time::Instant::elapsed: the time since `start`, of which nothing is known.
#[verifier::external_body]
fn clock_since(start: &std::time::Instant) -> std::time::Duration {
    start.elapsed()
}

/// Options of one solve.
#[derive(Debug, Clone)]
pub struct SolverConfig {
    /// Progress reporting period; the library does no reporting of its own.
    pub log_period: Option<usize>,
    /// Counter-clockwise quarter turns applied to the board first.
    pub rotation: usize,
    pub allow_zigzag: bool,
    /// Memo of visited states; it is not consulted, so it never changes an answer.
    pub use_table: bool,
    pub use_vcut: bool,
    pub use_diagonals: bool,
}

impl Default for SolverConfig {
    fn default() -> (r: Self)
        ensures
            r.log_period == Some(1_000_000usize),
            r.rotation == 0,
            !r.allow_zigzag,
            !r.use_table,
            !r.use_vcut,
            r.use_diagonals,
    {
        SolverConfig {
            log_period: Some(1_000_000),
            rotation: 0,
            allow_zigzag: false,
            use_table: false,
            use_vcut: false,
            use_diagonals: true,
        }
    }
}

/// The edge bitmaps of a solution.
#[derive(Debug, Clone)]
pub struct SolutionEdges {
    pub h: usize,
    pub w: usize,
    pub down: Vec<bool>,
    pub right: Vec<bool>,
}

/// The outcome of one solve.
#[derive(Debug)]
pub struct SolveResult {
    pub solved: bool,
    pub edges: Option<SolutionEdges>,
    pub nodes: usize,
    pub elapsed: std::time::Duration,
    pub colors: Option<Vec<usize>>,
}

/// A non-empty matrix whose rows all have the first row's length.
pub open spec fn rect(m: Seq<Seq<usize>>) -> bool {
    &&& m.len() >= 1
    &&& m[0].len() >= 1
    &&& forall|i: int| 0 <= i < m.len() ==> (#[trigger] m[i]).len() == m[0].len()
}

/// One counter-clockwise quarter turn: `r[i][j] == m[j][w - 1 - i]`.
pub open spec fn rotated(m: Seq<Seq<usize>>) -> Seq<Seq<usize>> {
    let hh = m.len();
    let ww = m[0].len();
    Seq::new(ww, |i: int| Seq::new(hh, |j: int| m[j][ww - 1 - i]))
}

pub open spec fn rotated_times(m: Seq<Seq<usize>>, k: nat) -> Seq<Seq<usize>>
    decreases k,
{
    if k == 0 {
        m
    } else {
        rotated(rotated_times(m, (k - 1) as nat))
    }
}

proof fn lemma_rotated_rect(m: Seq<Seq<usize>>)
    requires
        rect(m),
    ensures
        rect(rotated(m)),
        rotated(m).len() == m[0].len(),
        rotated(m)[0].len() == m.len(),
{
}

/// Four quarter turns give back the board they started from.
pub proof fn lemma_four_turns(m: Seq<Seq<usize>>)
    requires
        rect(m),
    ensures
        rotated(rotated(rotated(rotated(m)))) == m,
{
    let r1 = rotated(m);
    lemma_rotated_rect(m);
    let r2 = rotated(r1);
    lemma_rotated_rect(r1);
    let r3 = rotated(r2);
    lemma_rotated_rect(r2);
    let r4 = rotated(r3);
    lemma_rotated_rect(r3);
    assert forall|i: int| 0 <= i < m.len() implies #[trigger] r4[i] == m[i] by {
        assert(r4[i] =~= m[i]);
    }
    assert(r4 =~= m);
}

proof fn lemma_turns_keep_board(m: Seq<Seq<usize>>, k: nat)
    requires
        rect(m),
    ensures
        rect(rotated_times(m, k)),
        rotated_times(m, k).len() * rotated_times(m, k)[0].len() == m.len() * m[0].len(),
    decreases k,
{
    if k > 0 {
        lemma_turns_keep_board(m, (k - 1) as nat);
        let p = rotated_times(m, (k - 1) as nat);
        lemma_rotated_rect(p);
        assert(p[0].len() * p.len() == p.len() * p[0].len()) by (nonlinear_arith);
    }
}

proof fn lemma_board_ok(b: Seq<Vec<usize>>)
    ensures
        board_error(b) is None <==> (rect(matrix(b)) && 2 * (b.len() * b[0].len()) <= usize::MAX),
{
    let m = matrix(b);
    if b.len() >= 1 {
        assert(m[0] == b[0]@);
    }
    if board_error(b) is None {
        assert forall|i: int| 0 <= i < m.len() implies (#[trigger] m[i]).len() == m[0].len() by {
            assert(m[i] == b[i]@);
            if b[i].len() != b[0].len() {
                assert(exists|r: int| 0 <= r < b.len() && #[trigger] b[r].len() != b[0].len());
            }
        }
    }
    if rect(m) {
        assert forall|i: int| 0 <= i < b.len() implies #[trigger] b[i].len() == b[0].len() by {
            assert(m[i] == b[i]@);
        }
    }
}

/// One counter-clockwise quarter turn of a rectangular board.
pub fn ccw(board: &Vec<Vec<usize>>) -> (r: Vec<Vec<usize>>)
    requires
        rect(matrix(board@)),
    ensures
        matrix(r@) == rotated(matrix(board@)),
{
    let ghost m = matrix(board@);
    let hh = board.len();
    let ww = board[0].len();
    assert forall|j: int| 0 <= j < hh implies #[trigger] board@[j]@.len() == ww by {
        assert(m[j] == board@[j]@);
    }
    let mut out: Vec<Vec<usize>> = Vec::new();
    let mut row: usize = 0;
    while row < ww
        invariant
            m == matrix(board@),
            hh == board@.len(),
            ww == board@[0]@.len(),
            hh >= 1,
            forall|j: int| 0 <= j < hh ==> #[trigger] board@[j]@.len() == ww,
            row <= ww,
            out@.len() == row,
            forall|i: int| 0 <= i < row ==> #[trigger] out@[i]@ == rotated(m)[i],
        decreases ww - row,
    {
        let mut line: Vec<usize> = Vec::new();
        let mut col: usize = 0;
        while col < hh
            invariant
                m == matrix(board@),
                hh == board@.len(),
                ww == board@[0]@.len(),
                forall|j: int| 0 <= j < hh ==> #[trigger] board@[j]@.len() == ww,
                row < ww,
                col <= hh,
                line@.len() == col,
                forall|j: int| 0 <= j < col ==> #[trigger] line@[j] == m[j][ww - 1 - row],
            decreases hh - col,
        {
            line.push(board[col][ww - 1 - row]);
            col += 1;
        }
        assert(line@ =~= rotated(m)[row as int]);
        out.push(line);
        row += 1;
    }
    assert(matrix(out@) =~= rotated(m));
    out
}

/// Some sequence of accepted `extend` calls leads from `v` to a state with
/// every cell committed.
pub open spec fn solvable(v: SearchView) -> bool
    decreases v.h * v.w - v.depth,
{
    if !search_wf(v) {
        false
    } else if v.depth >= v.h * v.w {
        true
    } else {
        ||| (spec_extend(v, false, false) is Some && solvable(spec_extend(v, false, false)->Some_0))
        ||| (spec_extend(v, false, true) is Some && solvable(spec_extend(v, false, true)->Some_0))
        ||| (spec_extend(v, true, false) is Some && solvable(spec_extend(v, true, false)->Some_0))
        ||| (spec_extend(v, true, true) is Some && solvable(spec_extend(v, true, true)->Some_0))
    }
}

/// Committing the next cell with edges `d`, `r` is accepted and leads to a
/// solvable state.
pub open spec fn found(v: SearchView, d: bool, r: bool) -> bool {
    spec_extend(v, d, r) is Some && solvable(spec_extend(v, d, r)->Some_0)
}

/// The fully committed state that the depth-first search reaches from `v`,
/// trying (no edge), (right), (down), (down and right) in this order; `v`
/// itself where it is full or no choice leads to a full state.
pub open spec fn first_solution(v: SearchView) -> SearchView
    decreases v.h * v.w - v.depth,
{
    if !search_wf(v) || v.depth >= v.h * v.w {
        v
    } else if found(v, false, false) {
        first_solution(spec_extend(v, false, false)->Some_0)
    } else if found(v, false, true) {
        first_solution(spec_extend(v, false, true)->Some_0)
    } else if found(v, true, false) {
        first_solution(spec_extend(v, true, false)->Some_0)
    } else if found(v, true, true) {
        first_solution(spec_extend(v, true, true)->Some_0)
    } else {
        v
    }
}

/// Number of states the depth-first search from `v` visits, `v` included.
pub open spec fn visits(v: SearchView) -> nat
    decreases v.h * v.w - v.depth,
{
    if !search_wf(v) || v.depth >= v.h * v.w {
        1
    } else {
        let ff = if spec_extend(v, false, false) is Some {
            visits(spec_extend(v, false, false)->Some_0)
        } else {
            0
        };
        let ft = if spec_extend(v, false, true) is Some {
            visits(spec_extend(v, false, true)->Some_0)
        } else {
            0
        };
        let tf = if spec_extend(v, true, false) is Some {
            visits(spec_extend(v, true, false)->Some_0)
        } else {
            0
        };
        let tt = if spec_extend(v, true, true) is Some {
            visits(spec_extend(v, true, true)->Some_0)
        } else {
            0
        };
        1 + ff + if found(v, false, false) {
            0
        } else {
            ft + if found(v, false, true) {
                0
            } else {
                tf + if found(v, true, false) {
                    0
                } else {
                    tt
                }
            }
        }
    }
}

/// A count held in a `usize`: it stops at `usize::MAX`.
pub open spec fn capped(x: int) -> usize {
    if x > usize::MAX {
        usize::MAX
    } else {
        x as usize
    }
}

/// Depth-first search: stops at the first full commitment, otherwise leaves the
/// engine as it found it. `num_nodes` counts the states visited.
fn dfs_solve(state: &mut SearchFlow, num_nodes: &mut usize) -> (r: bool)
    requires
        old(state).wf(),
    ensures
        final(state).wf(),
        r == solvable(old(state)@),
        r ==> final(state)@.depth == final(state).cells(),
        !r ==> final(state)@ == old(state)@,
        final(state)@.heads == old(state)@.heads,
        final(state)@.h == old(state)@.h,
        final(state)@.w == old(state)@.w,
        r ==> final(state)@ == first_solution(old(state)@),
        *final(num_nodes) == capped(*old(num_nodes) + visits(old(state)@)),
    decreases 2 * (old(state).cells() - old(state)@.depth) + 1,
{
    *num_nodes = num_nodes.saturating_add(1);
    if state.solved() {
        return true;
    }
    if !state.feasible() {
        return false;
    }
    if try_branch(state, num_nodes, false, false) {
        return true;
    }
    if try_branch(state, num_nodes, false, true) {
        return true;
    }
    if try_branch(state, num_nodes, true, false) {
        return true;
    }
    try_branch(state, num_nodes, true, true)
}

/// Commits the next cell with the given edges and searches on from there,
/// taking the cell back if that fails.
fn try_branch(state: &mut SearchFlow, num_nodes: &mut usize, down: bool, right: bool) -> (r: bool)
    requires
        old(state).wf(),
        old(state)@.depth < old(state).cells(),
    ensures
        final(state).wf(),
        r == (spec_extend(old(state)@, down, right) is Some && solvable(
            spec_extend(old(state)@, down, right)->Some_0,
        )),
        r ==> final(state)@.depth == final(state).cells(),
        !r ==> final(state)@ == old(state)@,
        final(state)@.heads == old(state)@.heads,
        final(state)@.h == old(state)@.h,
        final(state)@.w == old(state)@.w,
        r ==> final(state)@ == first_solution(spec_extend(old(state)@, down, right)->Some_0),
        *final(num_nodes) == capped(
            *old(num_nodes) + if spec_extend(old(state)@, down, right) is Some {
                visits(spec_extend(old(state)@, down, right)->Some_0)
            } else {
                0
            },
        ),
    decreases 2 * (old(state).cells() - old(state)@.depth),
{
    let ghost v = state@;
    if state.extend(down, right) {
        if dfs_solve(state, num_nodes) {
            return true;
        }
        state.undo();
        proof {
            lemma_extend_then_undo(v, down, right);
        }
    }
    false
}

/// The engine settings that a solver configuration selects.
pub open spec fn internal_config(cfg: SolverConfig) -> InternalSearchConfig {
    InternalSearchConfig {
        allow_zigzag: cfg.allow_zigzag,
        use_vcut: cfg.use_vcut,
        use_diagonals: cfg.use_diagonals,
    }
}

/// A fully committed engine whose edges and colors are those reported.
pub open spec fn reports(w: SearchView, e: SolutionEdges, colors: Seq<usize>) -> bool {
    &&& search_wf(w)
    &&& w.depth == w.h * w.w
    &&& e.h == w.h
    &&& e.w == w.w
    &&& e.down@ == w.down
    &&& e.right@ == w.right
    &&& colors.len() == w.h * w.w
    &&& forall|u: int| 0 <= u < w.h * w.w ==> #[trigger] colors[u] == link_color(fragment(w, u))
}

/// The edges cover board `m`: no edge leaves the grid, each cell without a
/// head has exactly two of its four edges, each head exactly one.
pub open spec fn covers(e: SolutionEdges, m: Seq<Seq<usize>>) -> bool {
    let n = e.h * e.w;
    &&& e.h == m.len()
    &&& e.w == m[0].len()
    &&& e.down@.len() == n
    &&& e.right@.len() == n
    &&& forall|u: int| 0 <= u < n ==> (#[trigger] e.down@[u] ==> u + e.w < n)
    &&& forall|u: int| 0 <= u < n ==> (#[trigger] e.right@[u] ==> (u + 1) % (e.w as int) != 0)
    &&& forall|u: int|
        0 <= u < n ==> b2i(u >= e.w && e.down@[u - e.w]) + b2i(u % (e.w as int) > 0 && e.right@[u - 1]) + b2i(
            e.down@[u],
        ) + b2i(#[trigger] e.right@[u]) == if cell_value(m, e.w as int, u) != 0 {
            1int
        } else {
            2int
        }
}

/// The colors fit board `m` of width `w`: every cell has a nonzero color,
/// and each head its own.
pub open spec fn colors_fit(colors: Seq<usize>, m: Seq<Seq<usize>>, w: int) -> bool {
    forall|u: int|
        0 <= u < colors.len() ==> #[trigger] colors[u] != 0 && (cell_value(m, w, u) != 0 ==> colors[u]
            == cell_value(m, w, u))
}

/// Solves `board` (0 for an empty cell, a color id for a head) after turning it
/// `cfg.rotation` quarter turns counter-clockwise.
pub fn solve_board(board: Vec<Vec<usize>>, cfg: &SolverConfig) -> (r: Result<SolveResult, BoardError>)
    ensures
        board_error(board@) is Some <==> r is Err,
        r matches Err(e) ==> board_error(board@) == Some(e),
        r matches Ok(res) ==> exists|v: SearchView|
            #[trigger] search_fresh(v, rotated_times(matrix(board@), (cfg.rotation % 4) as nat), internal_config(*cfg))
                && search_wf(v) && res.solved == solvable(v) && res.nodes == capped(visits(v) as int)
                && (res.solved ==> reports(first_solution(v), res.edges->Some_0, res.colors->Some_0@)),
        r matches Ok(res) ==> res.solved == res.edges is Some && res.solved == res.colors is Some,
        r matches Ok(res) ==> res.nodes >= 1,
        r matches Ok(res) ==> (res.solved ==> covers(
            res.edges->Some_0,
            rotated_times(matrix(board@), (cfg.rotation % 4) as nat),
        )),
        r matches Ok(res) ==> (res.solved ==> colors_fit(
            res.colors->Some_0@,
            rotated_times(matrix(board@), (cfg.rotation % 4) as nat),
            res.edges->Some_0.w as int,
        )),
{
    if let Some(e) = board_check(&board) {
        return Err(e);
    }
    proof {
        lemma_board_ok(board@);
    }
    let ghost m = matrix(board@);
    let turns = cfg.rotation % 4;
    let mut b = board;
    let mut k: usize = 0;
    while k < turns
        invariant
            rect(m),
            k <= turns,
            matrix(b@) == rotated_times(m, k as nat),
        decreases turns - k,
    {
        proof {
            lemma_turns_keep_board(m, k as nat);
        }
        b = ccw(&b);
        k += 1;
    }
    proof {
        lemma_turns_keep_board(m, k as nat);
        lemma_board_ok(b@);
        assert(matrix(b@)[0] == b@[0]@);
    }
    let internal_cfg = InternalSearchConfig {
        allow_zigzag: cfg.allow_zigzag,
        use_vcut: cfg.use_vcut,
        use_diagonals: cfg.use_diagonals,
    };
    let mut solution = match SearchFlow::from_with_config(&b, internal_cfg) {
        Ok(s) => s,
        Err(e) => {
            return Err(e);
        },
    };
    let ghost start = solution@;
    let start_time = clock_now();
    let mut num_nodes: usize = 0;
    let solved = dfs_solve(&mut solution, &mut num_nodes);
    let (edges, colors) = if solved {
        let (h, w, down, right) = solution.edges();
        let colors = solution.colors();
        proof {
            assert(colors@.len() == solution@.h * solution@.w);
        }
        (Some(SolutionEdges { h, w, down, right }), Some(colors))
    } else {
        (None, None)
    };
    let res = SolveResult { solved, edges, nodes: num_nodes, elapsed: clock_since(&start_time), colors };
    proof {
        assert(search_fresh(start, rotated_times(m, (cfg.rotation % 4) as nat), internal_config(*cfg)));
        if solved {
            assert(reports(solution@, res.edges->Some_0, res.colors->Some_0@));
            let fin = solution@;
            crate::search::lemma_solved_degrees(fin);
            crate::search::lemma_solved_colors(fin);
            let mm = rotated_times(m, (cfg.rotation % 4) as nat);
            let e = res.edges->Some_0;
            assert forall|u: int| 0 <= u < e.h * e.w implies b2i(u >= e.w && e.down@[u - e.w]) + b2i(
                u % (e.w as int) > 0 && e.right@[u - 1],
            ) + b2i(e.down@[u]) + b2i(#[trigger] e.right@[u]) == if cell_value(mm, e.w as int, u) != 0 {
                1int
            } else {
                2int
            } by {
                assert(fin.heads[u] == start.heads[u]);
                assert(start.heads[u] == head_of(cell_value(mm, start.w as int, u)));
                assert(b2i(fin.right[u]) == b2i(e.right@[u]));
            }
            let col = res.colors->Some_0@;
            assert forall|u: int| 0 <= u < col.len() implies #[trigger] col[u] != 0 && (cell_value(mm, e.w as int, u)
                != 0 ==> col[u] == cell_value(mm, e.w as int, u)) by {
                assert(col[u] == link_color(fragment(fin, u)));
                assert(fin.heads[u] == start.heads[u]);
                assert(start.heads[u] == head_of(cell_value(mm, start.w as int, u)));
            }
        }
    }
    Ok(res)
}

} // verus!
