pub mod link;

use vstd::prelude::*;

use crate::dsu::{
    lemma_link_roots,
    lemma_root_is_root,
    root_of,
    size_of,
    Core,
    accepts,
    after_unite,
    core_fresh,
    undone,
    united,
    view_wf,
    UfView,
    UnionFind,
};
use crate::grid::{b2i, diag_anti, diag_main, lemma_below, lemma_beside, lemma_cell, lemma_cell_of, lemma_sides};
use link::{link_unite, Link};

verus! {

/// Switches of the structural pruning rules.
#[derive(Debug, Clone, Copy, PartialEq, Eq)]
pub struct SearchConfig {
    pub allow_zigzag: bool,
    pub use_vcut: bool,
    pub use_diagonals: bool,
}

/// Why a board cannot be searched.
#[derive(Debug, Clone, Copy, PartialEq, Eq)]
pub enum BoardError {
    /// No row, or an empty first row.
    Empty,
    /// A row whose length differs from the first row's.
    Ragged,
    /// More cells than the state codes (up to twice the cell count) can count.
    TooLarge,
}

/// The model of a solver engine.
pub struct SearchView {
    pub h: usize,
    pub w: usize,
    pub heads: Seq<Option<usize>>,
    pub down: Seq<bool>,
    pub right: Seq<bool>,
    pub dsu: UfView<Link>,
    pub order: Seq<usize>,
    pub depth: usize,
    pub diag_main: Seq<usize>,
    pub diag_anti: Seq<usize>,
    pub config: SearchConfig,
}

/// What a board is rejected for, if anything.
pub open spec fn board_error(b: Seq<Vec<usize>>) -> Option<BoardError> {
    if b.len() == 0 || b[0].len() == 0 {
        Some(BoardError::Empty)
    } else if exists|r: int| 0 <= r < b.len() && #[trigger] b[r].len() != b[0].len() {
        Some(BoardError::Ragged)
    } else if 2 * (b.len() * b[0].len()) > usize::MAX {
        Some(BoardError::TooLarge)
    } else {
        None
    }
}

/// The value of cell `u` of a board of width `w`.
pub open spec fn cell_value(m: Seq<Seq<usize>>, w: int, u: int) -> usize {
    m[u / w][u % w]
}

/// The rows of a board as sequences.
pub open spec fn matrix(b: Seq<Vec<usize>>) -> Seq<Seq<usize>> {
    b.map_values(|row: Vec<usize>| row@)
}

pub open spec fn head_of(x: usize) -> Option<usize> {
    if x == 0 {
        None
    } else {
        Some(x)
    }
}

/// The fragment a cell starts as: anchored to its color, or a lone uncolored cell.
pub open spec fn initial_link(head: Option<usize>, u: usize) -> Link {
    match head {
        Some(color) => Link::Colored(color, u),
        None => Link::Uncolored(u, u),
    }
}

/// `x` comes strictly before position (`d`, `r`) of the anti-diagonal scan.
pub open spec fn scanned_before(w: int, x: int, d: int, r: int) -> bool {
    diag_main(w, x) < d || (diag_main(w, x) == d && x / w < r)
}

/// The cells of an `h × w` grid from scan position (`d`, `r`) on: by
/// anti-diagonal `d`, then by row `r`.
pub open spec fn order_from(h: int, w: int, d: int, r: int) -> Seq<usize>
    decreases h + w - d, h - r,
{
    if h <= 0 || d >= h + w - 1 || r < 0 {
        Seq::empty()
    } else if r >= h {
        order_from(h, w, d + 1, 0)
    } else {
        (if d >= r && d - r < w {
            seq![(r * w + (d - r)) as usize]
        } else {
            Seq::empty()
        }) + order_from(h, w, d, r + 1)
    }
}

/// Anti-diagonal order: by `row + col`, then by row.
pub open spec fn diag_lt(w: int, x: int, y: int) -> bool {
    scanned_before(w, x, diag_main(w, y), y / w)
}

/// Heads at positions `lo..` of the order that lie on diagonal `dd`.
pub open spec fn heads_ahead(
    heads: Seq<Option<usize>>,
    order: Seq<usize>,
    w: int,
    lo: int,
    anti: bool,
    dd: int,
) -> nat
    decreases order.len() - lo,
{
    if lo < 0 || lo >= order.len() {
        0
    } else {
        let x = order[lo] as int;
        let on = heads[x] is Some && (if anti {
            diag_anti(w, x)
        } else {
            diag_main(w, x)
        }) == dd;
        (if on {
            1nat
        } else {
            0nat
        }) + heads_ahead(heads, order, w, lo + 1, anti, dd)
    }
}

/// Number of committed edges among the first `k` cells of the order.
pub open spec fn edge_count(down: Seq<bool>, right: Seq<bool>, order: Seq<usize>, k: int) -> int
    decreases k,
{
    if k <= 0 {
        0
    } else {
        let x = order[k - 1] as int;
        edge_count(down, right, order, k - 1) + b2i(down[x]) + b2i(right[x])
    }
}

/// How often cell `x` stands among the free ends of fragment `l`.
pub open spec fn end_count(l: Link, x: int) -> int {
    match l {
        Link::Uncolored(a, b) => b2i(a == x) + b2i(b == x),
        Link::Colored(_, e) => b2i(e == x),
        Link::Complete(_) => 0,
    }
}

/// Every root's payload lists as free ends exactly the cells of its component
/// that still lack incidences, each as often as it lacks them.
pub open spec fn ends_match(c: Core<Link>, need: spec_fn(int) -> int) -> bool {
    forall|r: int, x: int|
        0 <= r < c.nodes.len() && 0 <= x < c.nodes.len() && c.nodes[r] is Root ==> #[trigger] end_count(
            c.data[r],
            x,
        ) == if root_of(c, x) == r {
            need(x)
        } else {
            0
        }
}

/// Joining two fragments at `u` and `y` uses up one free end at each.
proof fn lemma_merge_ends(pa: Link, pb: Link, u: usize, y: usize, x: int)
    requires
        end_count(pa, u as int) >= 1,
        end_count(pb, y as int) >= 1,
        link_unite(pa, pb, u, y) is Some,
    ensures
        end_count(link_unite(pa, pb, u, y)->Some_0, x) == end_count(pa, x) + end_count(pb, x) - b2i(x == u)
            - b2i(x == y),
{
}

/// A union at `u` and `y` that the payloads accept keeps the free ends in step
/// with the incidences, once `u` and `y` have one incidence more each.
proof fn lemma_union_ends(m: UfView<Link>, u: usize, y: usize, need: spec_fn(int) -> int, need2: spec_fn(int) -> int)
    requires
        view_wf(m),
        view_wf(united(m, u, y)),
        m.core.nodes.len() <= usize::MAX,
        u < m.core.nodes.len(),
        y < m.core.nodes.len(),
        u != y,
        accepts(m, u, y),
        ends_match(m.core, need),
        need(u as int) >= 1,
        need(y as int) >= 1,
        forall|x: int| 0 <= x < m.core.nodes.len() ==> #[trigger] need2(x) == need(x) - b2i(x == u) - b2i(x == y),
    ensures
        ends_match(united(m, u, y).core, need2),
{
    let c = m.core;
    let n = c.nodes.len();
    let nc = united(m, u, y).core;
    lemma_root_is_root(c, u as int);
    lemma_root_is_root(c, y as int);
    let ra = root_of(c, u as int);
    let rb = root_of(c, y as int);
    let a = if size_of(c.nodes[ra]) < size_of(c.nodes[rb]) { rb } else { ra };
    let b = if size_of(c.nodes[ra]) < size_of(c.nodes[rb]) { ra } else { rb };
    let pa = c.data[ra];
    let pb = c.data[rb];
    assert(end_count(pa, u as int) == need(u as int));
    assert(end_count(pb, y as int) == need(y as int));
    assert forall|r: int, x: int|
        0 <= r < n && 0 <= x < n && nc.nodes[r] is Root implies #[trigger] end_count(nc.data[r], x) == if root_of(
            nc,
            x,
        ) == r {
            need2(x)
        } else {
            0
        } by {
        lemma_link_roots(c, nc, a, b, (size_of(c.nodes[ra]) + size_of(c.nodes[rb])) as usize, x);
        lemma_root_is_root(c, x);
        assert(r != b);
        if r == a {
            lemma_merge_ends(pa, pb, u, y, x);
            assert(end_count(pa, x) == if root_of(c, x) == ra { need(x) } else { 0 });
            assert(end_count(pb, x) == if root_of(c, x) == rb { need(x) } else { 0 });
        } else {
            assert(nc.nodes[r] == c.nodes[r]);
            assert(nc.data[r] == c.data[r]);
            assert(end_count(c.data[r], x) == if root_of(c, x) == r { need(x) } else { 0 });
        }
    }
}

/// Every uncolored fragment's ends are cells.
pub open spec fn links_in_range(data: Seq<Link>, n: int) -> bool {
    forall|i: int|
        0 <= i < data.len() ==> match #[trigger] data[i] {
            Link::Uncolored(s, t) => s < n && t < n,
            Link::Colored(_, e) => e < n,
            _ => true,
        }
}

/// Incidences of cell `u`: its four edges, plus one for a head.
pub open spec fn degree(v: SearchView, u: int) -> int {
    b2i(has_up(v, u)) + b2i(has_left(v, u)) + b2i(v.down[u]) + b2i(v.right[u]) + b2i(v.heads[u] is Some)
}

/// Incidences that cell `x` still lacks.
pub open spec fn need(v: SearchView, x: int) -> int {
    2 - degree(v, x)
}

/// While no cell has more than two incidences, the fragments' free ends are
/// exactly the cells that still lack incidences.
#[verifier::opaque]
pub open spec fn ends_tracked(v: SearchView) -> bool {
    (forall|x: int| 0 <= x < v.h * v.w ==> #[trigger] need(v, x) >= 0) ==> ends_match(
        v.dsu.core,
        |x: int| need(v, x),
    )
}

/// Each head's fragment carries the head's color, and every colored or
/// finished fragment has a nonzero color.
#[verifier::opaque]
pub open spec fn heads_colored(c: Core<Link>, heads: Seq<Option<usize>>) -> bool {
    &&& forall|x: int|
        0 <= x < c.nodes.len() && (#[trigger] heads[x]) is Some ==> !(c.data[root_of(c, x)] is Uncolored)
            && link_color(c.data[root_of(c, x)]) == heads[x]->Some_0
    &&& forall|r: int|
        0 <= r < c.nodes.len() && c.nodes[r] is Root && !((#[trigger] c.data[r]) is Uncolored) ==> link_color(
            c.data[r],
        ) != 0
}

/// Every free end of a root's payload is a cell of that root's component.
#[verifier::opaque]
pub open spec fn ends_home(c: Core<Link>) -> bool {
    forall|r: int, x: int|
        0 <= r < c.nodes.len() && 0 <= x < c.nodes.len() && c.nodes[r] is Root && #[trigger] end_count(
            c.data[r],
            x,
        ) > 0 ==> root_of(c, x) == r
}

pub open spec fn search_wf(v: SearchView) -> bool {
    let n = v.h * v.w;
    &&& v.h >= 1
    &&& v.w >= 1
    &&& n < usize::MAX
    &&& 2 * n <= usize::MAX
    &&& v.h + v.w <= n + 1
    &&& v.heads.len() == n
    &&& v.down.len() == n
    &&& v.right.len() == n
    &&& v.order.len() == n
    &&& v.depth <= n
    &&& forall|i: int| 0 <= i < n ==> #[trigger] v.order[i] < n
    &&& forall|i: int, j: int|
        0 <= i < j < n ==> diag_lt(v.w as int, #[trigger] v.order[i] as int, #[trigger] v.order[j] as int)
    &&& v.order.no_duplicates()
    &&& forall|x: int| 0 <= x < n ==> #[trigger] v.order.contains(x as usize)
    &&& forall|i: int| 0 <= i < v.depth ==> degree(v, #[trigger] v.order[i] as int) == 2
    &&& view_wf(v.dsu)
    &&& v.dsu.core.nodes.len() == n
    &&& links_in_range(v.dsu.core.data, n)
    &&& ends_tracked(v)
    &&& heads_colored(v.dsu.core, v.heads)
    &&& ends_home(v.dsu.core)
    &&& forall|x: int| 0 <= x < n ==> (#[trigger] v.down[x] ==> x + v.w < n)
    &&& forall|x: int| 0 <= x < n ==> (#[trigger] v.right[x] ==> (x + 1) % (v.w as int) != 0)
    &&& forall|k: int| 0 <= k < v.dsu.snaps.len() ==> links_in_range(#[trigger] v.dsu.snaps[k].data, n)
    &&& forall|i: int| v.depth <= i < n ==> !v.down[#[trigger] v.order[i] as int] && !v.right[v.order[i] as int]
    &&& v.dsu.history.len() == edge_count(v.down, v.right, v.order, v.depth as int)
    &&& v.diag_main.len() == v.h + v.w
    &&& v.diag_anti.len() == v.h + v.w
    &&& forall|dd: int|
        0 <= dd < v.h + v.w ==> #[trigger] v.diag_main[dd] == heads_ahead(
            v.heads,
            v.order,
            v.w as int,
            v.depth as int,
            false,
            dd,
        )
    &&& forall|dd: int|
        0 <= dd < v.h + v.w ==> #[trigger] v.diag_anti[dd] == heads_ahead(
            v.heads,
            v.order,
            v.w as int,
            v.depth as int,
            true,
            dd,
        )
}

/// The engine right after construction from board `b`.
pub open spec fn search_fresh(v: SearchView, b: Seq<Seq<usize>>, config: SearchConfig) -> bool {
    let n = v.h * v.w;
    &&& v.h == b.len()
    &&& v.w == b[0].len()
    &&& forall|u: int| 0 <= u < n ==> #[trigger] v.heads[u] == head_of(cell_value(b, v.w as int, u))
    &&& forall|u: int| 0 <= u < n ==> !#[trigger] v.down[u] && !v.right[u]
    &&& v.order == order_from(v.h as int, v.w as int, 0, 0)
    &&& v.depth == 0
    &&& v.config == config
    &&& v.dsu.history.len() == 0
    &&& v.dsu.core == v.dsu.init
    &&& core_fresh(v.dsu.core)
    &&& forall|u: int| 0 <= u < n ==> #[trigger] v.dsu.core.data[u] == initial_link(v.heads[u], u as usize)
}

/// The cell that the next `extend` decides.
pub open spec fn next_cell(v: SearchView) -> int {
    v.order[v.depth as int] as int
}

pub open spec fn has_up(v: SearchView, u: int) -> bool {
    u >= v.w && v.down[u - v.w]
}

pub open spec fn has_left(v: SearchView, u: int) -> bool {
    u % (v.w as int) > 0 && v.right[u - 1]
}

/// Cell `u` ends with exactly two incidences, and no edge leaves the grid.
pub open spec fn shape_ok(v: SearchView, u: int, d: bool, r: bool) -> bool {
    &&& b2i(d) + b2i(r) + b2i(has_up(v, u)) + b2i(has_left(v, u)) + b2i(v.heads[u] is Some) == 2
    &&& !(d && u + v.w >= v.h * v.w)
    &&& !(r && (u + 1) % (v.w as int) == 0)
}

/// The local 2×2 patterns that the zigzag rule forbids.
pub open spec fn zigzag(v: SearchView, u: int, d: bool, r: bool) -> bool {
    let w = v.w as int;
    ||| r && has_up(v, u) && v.right[u - w]
    ||| r && has_up(v, u) && v.down[u - w + 1]
    ||| r && u >= w && v.down[u - w + 1] && v.right[u - w]
    ||| d && has_left(v, u) && v.down[u - 1]
}

/// A turn toward a diagonal on which no head is left to end the path.
pub open spec fn diag_blocked(v: SearchView, u: int, d: bool, r: bool) -> bool {
    let w = v.w as int;
    ||| d && has_left(v, u) && v.diag_main[diag_main(w, u)] == 0
    ||| d && r && v.diag_anti[diag_anti(w, u)] == 0
}

/// The choice passes every rule that reads only the grid.
pub open spec fn local_ok(v: SearchView, u: int, d: bool, r: bool) -> bool {
    &&& shape_ok(v, u, d, r)
    &&& v.config.allow_zigzag || (!zigzag(v, u, d, r) && (!v.config.use_diagonals || !diag_blocked(
        v,
        u,
        d,
        r,
    )))
}

pub open spec fn dsu_after_down(v: SearchView, u: int, d: bool) -> UfView<Link> {
    if d {
        after_unite(v.dsu, u as usize, (u + v.w) as usize)
    } else {
        v.dsu
    }
}

/// The fragments accept the chosen edges, down first, then right.
pub open spec fn joins_ok(v: SearchView, u: int, d: bool, r: bool) -> bool {
    &&& d ==> accepts(v.dsu, u as usize, (u + v.w) as usize)
    &&& r ==> accepts(dsu_after_down(v, u, d), u as usize, (u + 1) as usize)
}

pub open spec fn dsu_after(v: SearchView, u: int, d: bool, r: bool) -> UfView<Link> {
    if r {
        after_unite(dsu_after_down(v, u, d), u as usize, (u + 1) as usize)
    } else {
        dsu_after_down(v, u, d)
    }
}

pub open spec fn shift_count(s: Seq<usize>, i: int, by: int) -> Seq<usize> {
    s.update(i, (s[i] + by) as usize)
}

/// The engine after committing the next cell with edges `d` (down) and `r`
/// (right), or `None` where `extend` refuses.
pub open spec fn spec_extend(v: SearchView, d: bool, r: bool) -> Option<SearchView> {
    let u = next_cell(v);
    let head = v.heads[u] is Some;
    if local_ok(v, u, d, r) && joins_ok(v, u, d, r) {
        Some(
            SearchView {
                h: v.h,
                w: v.w,
                heads: v.heads,
                down: v.down.update(u, d),
                right: v.right.update(u, r),
                dsu: dsu_after(v, u, d, r),
                order: v.order,
                depth: (v.depth + 1) as usize,
                diag_main: if head {
                    shift_count(v.diag_main, diag_main(v.w as int, u), -1)
                } else {
                    v.diag_main
                },
                diag_anti: if head {
                    shift_count(v.diag_anti, diag_anti(v.w as int, u), -1)
                } else {
                    v.diag_anti
                },
                config: v.config,
            },
        )
    } else {
        None
    }
}

/// The engine after taking back the last committed cell.
pub open spec fn spec_undo(v: SearchView) -> SearchView {
    let u = v.order[v.depth - 1] as int;
    let head = v.heads[u] is Some;
    let d1 = if v.right[u] {
        undone(v.dsu)
    } else {
        v.dsu
    };
    SearchView {
        h: v.h,
        w: v.w,
        heads: v.heads,
        down: v.down.update(u, false),
        right: v.right.update(u, false),
        dsu: if v.down[u] {
            undone(d1)
        } else {
            d1
        },
        order: v.order,
        depth: (v.depth - 1) as usize,
        diag_main: if head {
            shift_count(v.diag_main, diag_main(v.w as int, u), 1)
        } else {
            v.diag_main
        },
        diag_anti: if head {
            shift_count(v.diag_anti, diag_anti(v.w as int, u), 1)
        } else {
            v.diag_anti
        },
        config: v.config,
    }
}


/// The payload of `u`'s fragment.
pub open spec fn fragment(v: SearchView, u: int) -> Link {
    v.dsu.core.data[crate::dsu::root_of(v.dsu.core, u)]
}

/// The canonical code of cell `u` in a snapshot: the color at a colored
/// fragment's free end, the partner end shifted by `n` at an uncolored
/// fragment's end, 0 elsewhere.
pub open spec fn state_code(v: SearchView, u: int) -> int {
    let n = v.h * v.w;
    match fragment(v, u) {
        Link::Colored(color, s) => if u == s {
            color as int
        } else {
            0
        },
        Link::Uncolored(s, t) => if u == s {
            n + t
        } else if u == t {
            n + s
        } else {
            0
        },
        Link::Complete(_) => 0,
    }
}

/// The color a fragment carries, 0 while it has none.
pub open spec fn link_color(l: Link) -> usize {
    match l {
        Link::Complete(color) => color,
        Link::Colored(color, _) => color,
        Link::Uncolored(_, _) => 0,
    }
}

/// The state that follows `trail[k]`: the next entry, or the current state.
pub open spec fn trail_next(trail: Seq<SearchView>, cur: SearchView, k: int) -> SearchView {
    if k + 1 < trail.len() {
        trail[k + 1]
    } else {
        cur
    }
}

/// The states before each committed cell: each is well formed, and the choice
/// committed at its next cell leads to the state after it.
pub open spec fn trail_ok(trail: Seq<SearchView>, cur: SearchView) -> bool {
    &&& trail.len() == cur.depth
    &&& forall|k: int|
        0 <= k < trail.len() ==> {
            let t = #[trigger] trail[k];
            let nx = trail_next(trail, cur, k);
            &&& search_wf(t)
            &&& t.depth < t.h * t.w
            &&& spec_extend(t, nx.down[next_cell(t)], nx.right[next_cell(t)]) == Some(nx)
        }
}

/// Committing a cell extends the trail by the state it was committed from.
proof fn lemma_trail_push(trail: Seq<SearchView>, v: SearchView, d: bool, r: bool)
    requires
        trail_ok(trail, v),
        search_wf(v),
        v.depth < v.h * v.w,
        spec_extend(v, d, r) is Some,
    ensures
        trail_ok(trail.push(v), spec_extend(v, d, r)->Some_0),
{
    let v2 = spec_extend(v, d, r)->Some_0;
    let t2 = trail.push(v);
    assert(v2.down[next_cell(v)] == d && v2.right[next_cell(v)] == r);
    assert forall|j: int| 0 <= j < trail.len() implies #[trigger] t2[j] == trail[j] && trail_next(t2, v2, j)
        == trail_next(trail, v, j) by {}
    assert(trail_next(t2, v2, trail.len() as int) == v2);
}

/// Taking back a cell returns to the last state of the trail.
proof fn lemma_trail_pop(trail: Seq<SearchView>, v: SearchView)
    requires
        trail_ok(trail, v),
        v.depth > 0,
    ensures
        spec_undo(v) == trail.last(),
        search_wf(trail.last()),
        trail_ok(trail.drop_last(), trail.last()),
{
    let k = v.depth - 1;
    let t = trail[k];
    assert(trail_next(trail, v, k) == v);
    lemma_extend_then_undo(t, v.down[next_cell(t)], v.right[next_cell(t)]);
    let t2 = trail.drop_last();
    assert forall|j: int| 0 <= j < t2.len() implies #[trigger] t2[j] == trail[j] && trail_next(t2, t, j)
        == trail_next(trail, v, j) by {}
}

/// The solving engine: edge bitmaps, a union-find of path fragments, a fixed
/// anti-diagonal visiting order, and per-diagonal counts of heads still ahead.
pub struct SearchFlow {
    heads: Vec<Option<usize>>,
    h: usize,
    w: usize,
    down: Vec<bool>,
    right: Vec<bool>,
    dsu: UnionFind<Link>,
    search_order: Vec<usize>,
    search_depth: usize,
    diag_main: Vec<usize>,
    diag_anti: Vec<usize>,
    config: SearchConfig,
    trail: Ghost<Seq<SearchView>>,
}

impl View for SearchFlow {
    type V = SearchView;

    closed spec fn view(&self) -> SearchView {
        SearchView {
            h: self.h,
            w: self.w,
            heads: self.heads@,
            down: self.down@,
            right: self.right@,
            dsu: self.dsu@,
            order: self.search_order@,
            depth: self.search_depth,
            diag_main: self.diag_main@,
            diag_anti: self.diag_anti@,
            config: self.config,
        }
    }
}

proof fn lemma_heads_ahead_bound(heads: Seq<Option<usize>>, order: Seq<usize>, w: int, lo: int, anti: bool, dd: int)
    requires
        0 <= lo,
    ensures
        heads_ahead(heads, order, w, lo, anti, dd) <= if lo <= order.len() {
            order.len() - lo
        } else {
            0
        },
    decreases order.len() - lo,
{
    if lo < order.len() {
        lemma_heads_ahead_bound(heads, order, w, lo + 1, anti, dd);
    }
}

proof fn lemma_edge_count_frame(
    down: Seq<bool>,
    right: Seq<bool>,
    down2: Seq<bool>,
    right2: Seq<bool>,
    order: Seq<usize>,
    k: int,
)
    requires
        0 <= k <= order.len(),
        forall|i: int|
            0 <= i < k ==> down[#[trigger] order[i] as int] == down2[order[i] as int] && right[order[i] as int]
                == right2[order[i] as int],
    ensures
        edge_count(down, right, order, k) == edge_count(down2, right2, order, k),
    decreases k,
{
    if k > 0 {
        lemma_edge_count_frame(down, right, down2, right2, order, k - 1);
    }
}

proof fn lemma_edge_count_nonneg(down: Seq<bool>, right: Seq<bool>, order: Seq<usize>, k: int)
    ensures
        edge_count(down, right, order, k) >= 0,
    decreases k,
{
    if k > 0 {
        lemma_edge_count_nonneg(down, right, order, k - 1);
    }
}


/// Why `board` cannot be searched, if it cannot.
pub fn board_check(board: &Vec<Vec<usize>>) -> (r: Option<BoardError>)
    ensures
    r == board_error(board@),
{
    let h = board.len();
    if h == 0 || board[0].len() == 0 {
        return Some(BoardError::Empty);
    }
    let w = board[0].len();
    let mut r: usize = 0;
    while r < h
        invariant
            h == board@.len(),
            h >= 1,
            w >= 1,
            w == board@[0].len(),
            r <= h,
            forall|j: int| 0 <= j < r ==> #[trigger] board@[j].len() == w,
        decreases h - r,
    {
        if board[r].len() != w {
            assert(board@[r as int].len() != board@[0].len());
            return Some(BoardError::Ragged);
        }
        r += 1;
    }
    let n = match h.checked_mul(w) {
        Some(n) => n,
        None => {
            return Some(BoardError::TooLarge);
        },
    };
    if n > usize::MAX / 2 {
        return Some(BoardError::TooLarge);
    }
    None
}

impl SearchFlow {
    pub open spec fn wf(&self) -> bool {
        search_wf(self@) && self.trail_valid()
    }

    /// The engine remembers the states that its committed cells came from.
    pub closed spec fn trail_valid(&self) -> bool {
        trail_ok(self.trail@, self@)
    }

    pub open spec fn cells(&self) -> int {
        self@.h * self@.w
    }

    /// Builds the engine for `board` (0 for an empty cell, a color id for a head).
    pub fn from_with_config(board: &Vec<Vec<usize>>, config: SearchConfig) -> (r: Result<
        Self,
        BoardError,
    >)
        ensures
            board_error(board@) is Some <==> r is Err,
            r matches Err(e) ==> board_error(board@) == Some(e),
            r matches Ok(s) ==> s.wf() && search_fresh(s@, matrix(board@), config),
    {
        if let Some(e) = board_check(board) {
            return Err(e);
        }
        let h = board.len();
        let w = board[0].len();
        let n = h * w;
        assert(forall|j: int| 0 <= j < h ==> #[trigger] board@[j].len() == w);
        proof {
            lemma_sides(h as int, w as int);
        }
        let ghost b = matrix(board@);
        assert forall|j: int| 0 <= j < h implies #[trigger] b[j].len() == w by {
            assert(board@[j].len() == w);
            assert(b[j] == board@[j]@);
        }
        // heads and the initial fragments
        let mut heads: Vec<Option<usize>> = Vec::new();
        let mut links: Vec<Link> = Vec::new();
        let mut down: Vec<bool> = Vec::new();
        let mut right: Vec<bool> = Vec::new();
        let mut u: usize = 0;
        while u < n
            invariant
                n == h * w,
                b == matrix(board@),
                forall|j: int| 0 <= j < h ==> #[trigger] board@[j].len() == w,
                h >= 1,
                h == b.len(),
                w == b[0].len(),
                w >= 1,
                forall|j: int| 0 <= j < h ==> #[trigger] b[j].len() == w,
                u <= n,
                heads@.len() == u,
                links@.len() == u,
                down@.len() == u,
                right@.len() == u,
                forall|i: int| 0 <= i < u ==> #[trigger] heads@[i] == head_of(cell_value(b, w as int, i)),
                forall|i: int| 0 <= i < u ==> #[trigger] links@[i] == initial_link(heads@[i], i as usize),
                forall|i: int| 0 <= i < u ==> !#[trigger] down@[i] && !right@[i],
            decreases n - u,
        {
            proof {
                lemma_cell(h as int, w as int, u as int);
            }
            assert(b[(u / w) as int].len() == w);
            let x = board[u / w][u % w];
            let head = if x == 0 {
                None
            } else {
                Some(x)
            };
            heads.push(head);
            links.push(
                match head {
                    Some(color) => Link::Colored(color, u),
                    None => Link::Uncolored(u, u),
                },
            );
            down.push(false);
            right.push(false);
            u += 1;
        }
        assert forall|j: int| 0 <= j < n implies !#[trigger] right@[j] by {
            assert(!down@[j] && !right@[j]);
        }
        let search_order = Self::diagonal_order(h, w);
        // heads still ahead on each diagonal, counted from the back of the order
        let mut diag_main: Vec<usize> = Vec::new();
        let mut diag_anti: Vec<usize> = Vec::new();
        let mut k: usize = 0;
        while k < h + w
            invariant
                n == h * w,
                n < usize::MAX,
                h + w <= n + 1,
                k <= h + w,
                diag_main@.len() == k,
                diag_anti@.len() == k,
                forall|j: int| 0 <= j < k ==> #[trigger] diag_main@[j] == 0,
                forall|j: int| 0 <= j < k ==> #[trigger] diag_anti@[j] == 0,
            decreases h + w - k,
        {
            diag_main.push(0);
            diag_anti.push(0);
            k += 1;
        }
        let mut i: usize = n;
        while i > 0
            invariant
                n == h * w,
                h + w <= n + 1,
                w >= 1,
                i <= n,
                n < usize::MAX,
                heads@.len() == n,
                search_order@.len() == n,
                forall|j: int| 0 <= j < n ==> #[trigger] search_order@[j] < n,
                diag_main@.len() == h + w,
                diag_anti@.len() == h + w,
                forall|dd: int|
                    0 <= dd < h + w ==> #[trigger] diag_main@[dd] == heads_ahead(
                        heads@,
                        search_order@,
                        w as int,
                        i as int,
                        false,
                        dd,
                    ),
                forall|dd: int|
                    0 <= dd < h + w ==> #[trigger] diag_anti@[dd] == heads_ahead(
                        heads@,
                        search_order@,
                        w as int,
                        i as int,
                        true,
                        dd,
                    ),
            decreases i,
        {
            i -= 1;
            let x = search_order[i];
            proof {
                lemma_cell(h as int, w as int, x as int);
                lemma_heads_ahead_bound(heads@, search_order@, w as int, i + 1, false, crate::grid::diag_main(w as int, x as int));
                lemma_heads_ahead_bound(heads@, search_order@, w as int, i + 1, true, crate::grid::diag_anti(w as int, x as int));
            }
            if heads[x].is_some() {
                let dm = x / w + x % w;
                let da = x / w + w - x % w;
                diag_main.set(dm, diag_main[dm] + 1);
                diag_anti.set(da, diag_anti[da] + 1);
            }
        }
        assert(forall|j: int| 0 <= j < n ==> !#[trigger] down@[j]);
        let dsu = UnionFind::from(links);
        let s = SearchFlow {
            heads,
            h,
            w,
            down,
            right,
            dsu,
            search_order,
            search_depth: 0,
            diag_main,
            diag_anti,
            config,
            trail: Ghost(Seq::empty()),
        };
        proof {
            let v = s@;
            reveal(ends_home);
            assert forall|r0: int, x: int|
                0 <= r0 < n && 0 <= x < n && v.dsu.core.nodes[r0] is Root && #[trigger] end_count(
                    v.dsu.core.data[r0],
                    x,
                ) > 0 implies root_of(v.dsu.core, x) == r0 by {
                assert(v.dsu.core.nodes[x] == crate::dsu::Node::Root(1));
                assert(v.dsu.core.data[r0] == links@[r0]);
            }
            reveal(heads_colored);
            assert forall|x: int| 0 <= x < n && (#[trigger] v.heads[x]) is Some implies !(v.dsu.core.data[root_of(
                v.dsu.core,
                x,
            )] is Uncolored) && link_color(v.dsu.core.data[root_of(v.dsu.core, x)]) == v.heads[x]->Some_0 by {
                assert(v.dsu.core.nodes[x] == crate::dsu::Node::Root(1));
                assert(v.dsu.core.data[x] == links@[x]);
            }
            assert forall|r0: int| 0 <= r0 < n && v.dsu.core.nodes[r0] is Root && !((#[trigger] v.dsu.core.data[r0]) is Uncolored) implies link_color(
                v.dsu.core.data[r0],
            ) != 0 by {
                assert(v.dsu.core.data[r0] == links@[r0]);
            }
            reveal(ends_tracked);
            assert forall|r0: int, x: int|
                0 <= r0 < n && 0 <= x < n && v.dsu.core.nodes[r0] is Root implies #[trigger] end_count(
                    v.dsu.core.data[r0],
                    x,
                ) == if root_of(v.dsu.core, x) == r0 {
                    need(v, x)
                } else {
                    0
                } by {
                assert(v.dsu.core.nodes[x] == crate::dsu::Node::Root(1));
                assert(root_of(v.dsu.core, x) == x);
                assert(!v.down[x]);
                assert(!v.right[x]);
                if x >= w {
                    assert(!v.down[x - w]);
                }
                if x >= 1 {
                    assert(!v.right[x - 1]);
                } else {
                    vstd::arithmetic::div_mod::lemma_small_mod(0, w as nat);
                }
                assert(degree(v, x) == b2i(v.heads[x] is Some));
                assert(v.dsu.core.data[r0] == links@[r0]);
                assert(links@[r0] == initial_link(heads@[r0], r0 as usize));
            }
            assert(links_in_range(v.dsu.core.data, n as int));
            assert(v.dsu.history.len() == 0);
            assert(edge_count(v.down, v.right, v.order, 0) == 0);
            assert(forall|x: int| 0 <= x < n ==> #[trigger] v.order.contains(x as usize));
            assert(search_wf(v));
        }
        Ok(s)
    }

    /// All cells of an `h × w` grid by anti-diagonal, then by row.
    fn diagonal_order(h: usize, w: usize) -> (r: Vec<usize>)
        requires
            h >= 1,
            w >= 1,
            h * w < usize::MAX,
            h + w <= h * w + 1,
        ensures
            r@.len() == h * w,
            forall|i: int| 0 <= i < h * w ==> #[trigger] r@[i] < h * w,
            forall|i: int, j: int|
                0 <= i < j < h * w ==> diag_lt(w as int, #[trigger] r@[i] as int, #[trigger] r@[j] as int),
            r@.no_duplicates(),
            forall|x: int| 0 <= x < h * w ==> #[trigger] r@.contains(x as usize),
            r@ == order_from(h as int, w as int, 0, 0),
    {
        let ghost n = h * w;
        let mut order: Vec<usize> = Vec::new();
        let mut d: usize = 0;
        while d < h + w - 1
            invariant
                n == h * w,
                n < usize::MAX,
                h >= 1,
                w >= 1,
                h + w <= n + 1,
                d <= h + w - 1,
                forall|i: int| 0 <= i < order@.len() ==> #[trigger] order@[i] < n,
                forall|i: int, j: int|
                    0 <= i < j < order@.len() ==> diag_lt(w as int, #[trigger] order@[i] as int, #[trigger] order@[j] as int),
                forall|i: int| 0 <= i < order@.len() ==> scanned_before(w as int, #[trigger] order@[i] as int, d as int, 0),
                forall|x: int| 0 <= x < n && scanned_before(w as int, x, d as int, 0) ==> #[trigger] order@.contains(x as usize),
                order@ + order_from(h as int, w as int, d as int, 0) == order_from(h as int, w as int, 0, 0),
            decreases h + w - 1 - d,
        {
            let mut r: usize = 0;
            while r < h
                invariant
                    n == h * w,
                    n < usize::MAX,
                    h >= 1,
                    w >= 1,
                    d < h + w - 1,
                    r <= h,
                    forall|i: int| 0 <= i < order@.len() ==> #[trigger] order@[i] < n,
                    forall|i: int, j: int|
                        0 <= i < j < order@.len() ==> diag_lt(w as int, #[trigger] order@[i] as int, #[trigger] order@[j] as int),
                    forall|i: int| 0 <= i < order@.len() ==> scanned_before(w as int, #[trigger] order@[i] as int, d as int, r as int),
                    forall|x: int| 0 <= x < n && scanned_before(w as int, x, d as int, r as int) ==> #[trigger] order@.contains(x as usize),
                    order@ + order_from(h as int, w as int, d as int, r as int) == order_from(h as int, w as int, 0, 0),
                decreases h - r,
            {
                if d >= r && d - r < w {
                    let c = d - r;
                    proof {
                        lemma_cell_of(h as int, w as int, r as int, c as int);
                    }
                    let y = r * w + c;
                    let ghost before = order@;
                    order.push(y);
                    proof {
                        let rest = order_from(h as int, w as int, d as int, r + 1);
                        assert(order_from(h as int, w as int, d as int, r as int) == seq![y] + rest);
                        assert(order@ + rest =~= before + (seq![y] + rest));
                        assert forall|x: int| 0 <= x < n && scanned_before(w as int, x, d as int, r + 1) implies #[trigger] order@.contains(x as usize) by {
                            lemma_cell(h as int, w as int, x);
                            if scanned_before(w as int, x, d as int, r as int) {
                                assert(before.contains(x as usize));
                                let k = choose|k: int| 0 <= k < before.len() && before[k] == x as usize;
                                assert(order@[k] == x as usize);
                            } else {
                                assert(x == y);
                                assert(order@[before.len() as int] == y);
                            }
                        }
                    }
                } else {
                    proof {
                        assert(order_from(h as int, w as int, d as int, r as int) =~= order_from(
                            h as int,
                            w as int,
                            d as int,
                            r + 1,
                        ));
                        assert forall|x: int| 0 <= x < n && scanned_before(w as int, x, d as int, r + 1) implies #[trigger] order@.contains(x as usize) by {
                            lemma_cell(h as int, w as int, x);
                        }
                    }
                }
                r += 1;
            }
            proof {
                assert(order_from(h as int, w as int, d as int, h as int) == order_from(h as int, w as int, d + 1, 0));
                assert forall|x: int| 0 <= x < n && scanned_before(w as int, x, d + 1, 0) implies #[trigger] order@.contains(x as usize) by {
                    lemma_cell(h as int, w as int, x);
                    assert(scanned_before(w as int, x, d as int, h as int));
                }
            }
            d += 1;
        }
        proof {
            assert(order_from(h as int, w as int, d as int, 0) == Seq::<usize>::empty());
            assert(order@ =~= order@ + order_from(h as int, w as int, d as int, 0));
            assert forall|i: int, j: int| 0 <= i < order@.len() && 0 <= j < order@.len() && i != j implies order@[i] != order@[j] by {
                let (a, b) = if i < j { (i, j) } else { (j, i) };
                assert(diag_lt(w as int, order@[a] as int, order@[b] as int));
            }
            assert forall|x: int| 0 <= x < n implies #[trigger] order@.contains(x as usize) by {
                lemma_cell(h as int, w as int, x);
                assert(scanned_before(w as int, x, d as int, 0));
            }
            let s = order@.map_values(|x: usize| x as int);
            order@.lemma_no_duplicates_injective(|x: usize| x as int);
            s.unique_seq_to_set();
            assert(s.to_set() =~= vstd::set_lib::set_int_range(0, n as int)) by {
                assert forall|x: int| vstd::set_lib::set_int_range(0, n as int).contains(x) implies s.to_set().contains(x) by {
                    assert(order@.contains(x as usize));
                    let k = choose|k: int| 0 <= k < order@.len() && order@[k] == x as usize;
                    assert(s[k] == x);
                }
            }
            vstd::set_lib::lemma_int_range(0, n as int);
        }
        order
    }
}


/// Rolling back a join that `unite` just made gives back the structure before it.
proof fn lemma_undone_united(m: UfView<Link>, u: usize, v: usize)
    ensures
        undone(united(m, u, v)) == m,
{
    let m2 = united(m, u, v);
    assert(m2.history.drop_last() =~= m.history);
    assert(m2.snaps.drop_last() =~= m.snaps);
}

/// A join keeps every fragment's ends inside the grid, now and in the log.
proof fn lemma_links_after_unite(m: UfView<Link>, u: usize, v: usize, n: int)
    requires
        view_wf(m),
        m.core.nodes.len() == n,
        u < n,
        v < n,
        links_in_range(m.core.data, n),
        forall|k: int| 0 <= k < m.snaps.len() ==> links_in_range(#[trigger] m.snaps[k].data, n),
    ensures
        links_in_range(after_unite(m, u, v).core.data, n),
        forall|k: int|
            0 <= k < after_unite(m, u, v).snaps.len() ==> links_in_range(
                #[trigger] after_unite(m, u, v).snaps[k].data,
                n,
            ),
{
    if accepts(m, u, v) {
        let c = m.core;
        crate::dsu::lemma_root_is_root(c, u as int);
        crate::dsu::lemma_root_is_root(c, v as int);
        let m2 = united(m, u, v);
        assert forall|k: int| 0 <= k < m2.snaps.len() implies links_in_range(#[trigger] m2.snaps[k].data, n) by {
            if k < m.snaps.len() {
                assert(m2.snaps[k] == m.snaps[k]);
            }
        }
    }
}

/// Committing a cell and taking it back leaves the engine exactly as it was:
/// edges, fragments and undo log, diagonal counts and depth.
pub proof fn lemma_extend_then_undo(v: SearchView, d: bool, r: bool)
    requires
        search_wf(v),
        v.depth < v.h * v.w,
        spec_extend(v, d, r) is Some,
    ensures
        spec_undo(spec_extend(v, d, r)->Some_0) == v,
{
    let u = next_cell(v);
    let v2 = spec_extend(v, d, r)->Some_0;
    lemma_cell(v.h as int, v.w as int, u);
    assert(!v.down[u] && !v.right[u]);
    assert(v2.down.update(u, false) =~= v.down);
    assert(v2.right.update(u, false) =~= v.right);
    let d1 = dsu_after_down(v, u, d);
    if d {
        lemma_undone_united(v.dsu, u as usize, (u + v.w) as usize);
    }
    if r {
        lemma_undone_united(d1, u as usize, (u + 1) as usize);
    }
    if v.heads[u] is Some {
        let dm = diag_main(v.w as int, u);
        let da = diag_anti(v.w as int, u);
        assert(v.diag_main[dm] >= 1);
        assert(v.diag_anti[da] >= 1);
        assert(shift_count(shift_count(v.diag_main, dm, -1), dm, 1) =~= v.diag_main);
        assert(shift_count(shift_count(v.diag_anti, da, -1), da, 1) =~= v.diag_anti);
    }
}


/// Changing the edges of `u` leaves the degree of a cell that comes earlier in
/// the order as it was.
proof fn lemma_degree_frame(v: SearchView, v2: SearchView, u: int, y: int, dd: bool, rr: bool)
    requires
        search_wf(v),
        v2.w == v.w,
        v2.heads == v.heads,
        v2.down == v.down.update(u, dd),
        v2.right == v.right.update(u, rr),
        0 <= u < v.h * v.w,
        0 <= y < v.h * v.w,
        y != u,
        diag_lt(v.w as int, y, u),
    ensures
        degree(v2, y) == degree(v, y),
{
    let w = v.w as int;
    lemma_cell(v.h as int, w, u);
    lemma_cell(v.h as int, w, y);
    if y >= w {
        lemma_below(w, y - w);
        assert(y - w != u);
        assert(v2.down[y - w] == v.down[y - w]);
    }
    if y % w > 0 {
        lemma_beside(w, y);
        assert(y - 1 != u);
        assert(0 <= y - 1 < v.h * v.w);
        assert(v2.down[y - 1] == v.down[y - 1] && v2.right[y - 1] == v.right[y - 1]);
    }
    assert(v2.down[y] == v.down[y]);
    assert(v2.right[y] == v.right[y]);
}

/// A union that the payloads accept keeps each head's color on its fragment.
proof fn lemma_union_colors(m: UfView<Link>, u: usize, y: usize, heads: Seq<Option<usize>>)
    requires
        view_wf(m),
        view_wf(united(m, u, y)),
        m.core.nodes.len() <= usize::MAX,
        heads.len() == m.core.nodes.len(),
        u < m.core.nodes.len(),
        y < m.core.nodes.len(),
        accepts(m, u, y),
        heads_colored(m.core, heads),
    ensures
        heads_colored(united(m, u, y).core, heads),
{
    reveal(heads_colored);
    let c = m.core;
    let n = c.nodes.len();
    let nc = united(m, u, y).core;
    lemma_root_is_root(c, u as int);
    lemma_root_is_root(c, y as int);
    let ra = root_of(c, u as int);
    let rb = root_of(c, y as int);
    let a = if size_of(c.nodes[ra]) < size_of(c.nodes[rb]) { rb } else { ra };
    let b = if size_of(c.nodes[ra]) < size_of(c.nodes[rb]) { ra } else { rb };
    let s0 = (size_of(c.nodes[ra]) + size_of(c.nodes[rb])) as usize;
    assert(c.data[ra] is Uncolored ==> forall|x: int| 0 <= x < n && root_of(c, x) == ra ==> #[trigger] heads[x] is None);
    assert(c.data[rb] is Uncolored ==> forall|x: int| 0 <= x < n && root_of(c, x) == rb ==> #[trigger] heads[x] is None);
    assert forall|x: int| 0 <= x < n && (#[trigger] heads[x]) is Some implies !(nc.data[root_of(nc, x)] is Uncolored)
        && link_color(nc.data[root_of(nc, x)]) == heads[x]->Some_0 by {
        lemma_link_roots(c, nc, a, b, s0, x);
        lemma_root_is_root(c, x);
    }
    assert forall|r: int| 0 <= r < n && nc.nodes[r] is Root && !((#[trigger] nc.data[r]) is Uncolored) implies link_color(
        nc.data[r],
    ) != 0 by {
        if r != a {
            assert(nc.nodes[r] == c.nodes[r]);
        }
    }
}

/// A union keeps every free end inside its own component.
proof fn lemma_union_home(m: UfView<Link>, u: usize, y: usize)
    requires
        view_wf(m),
        view_wf(united(m, u, y)),
        m.core.nodes.len() <= usize::MAX,
        u < m.core.nodes.len(),
        y < m.core.nodes.len(),
        accepts(m, u, y),
        ends_home(m.core),
    ensures
        ends_home(united(m, u, y).core),
{
    reveal(ends_home);
    let c = m.core;
    let n = c.nodes.len();
    let nc = united(m, u, y).core;
    lemma_root_is_root(c, u as int);
    lemma_root_is_root(c, y as int);
    let ra = root_of(c, u as int);
    let rb = root_of(c, y as int);
    let a = if size_of(c.nodes[ra]) < size_of(c.nodes[rb]) { rb } else { ra };
    let b = if size_of(c.nodes[ra]) < size_of(c.nodes[rb]) { ra } else { rb };
    let s0 = (size_of(c.nodes[ra]) + size_of(c.nodes[rb])) as usize;
    assert forall|r: int, x: int|
        0 <= r < n && 0 <= x < n && nc.nodes[r] is Root && #[trigger] end_count(nc.data[r], x) > 0 implies root_of(
            nc,
            x,
        ) == r by {
        lemma_link_roots(c, nc, a, b, s0, x);
        if r == a {
            assert(end_count(c.data[ra], x) > 0 || end_count(c.data[rb], x) > 0);
        } else {
            assert(nc.nodes[r] == c.nodes[r]);
            assert(nc.data[r] == c.data[r]);
        }
    }
}

/// Joins made at a committed cell keep each head's color on its fragment.
proof fn lemma_joins_keep_colors(v: SearchView, v2: SearchView, d: bool, r: bool)
    requires
        heads_colored(v.dsu.core, v.heads),
        ends_home(v.dsu.core),
        v.h * v.w < usize::MAX,
        v.heads.len() == v.h * v.w,
        0 <= next_cell(v) < v.h * v.w,
        view_wf(v.dsu),
        v.dsu.core.nodes.len() == v.h * v.w,
        d ==> next_cell(v) + v.w < v.h * v.w,
        r ==> next_cell(v) + 1 < v.h * v.w,
        joins_ok(v, next_cell(v), d, r),
        v2.heads == v.heads,
        v2.dsu == dsu_after(v, next_cell(v), d, r),
        d ==> view_wf(dsu_after_down(v, next_cell(v), d)),
        view_wf(v2.dsu),
    ensures
        heads_colored(v2.dsu.core, v2.heads),
        ends_home(v2.dsu.core),
{
    let u = next_cell(v);
    let d1 = dsu_after_down(v, u, d);
    if d {
        lemma_union_colors(v.dsu, u as usize, (u + v.w) as usize, v.heads);
        lemma_union_home(v.dsu, u as usize, (u + v.w) as usize);
    }
    if r {
        lemma_union_colors(d1, u as usize, (u + 1) as usize, v.heads);
        lemma_union_home(d1, u as usize, (u + 1) as usize);
    }
}

/// Committing `u` with edges `d` and `r` adds one incidence to `u` and to the
/// cell below (if `d`) and the cell to the right (if `r`).
proof fn lemma_need_step(v: SearchView, v2: SearchView, d: bool, r: bool, x: int)
    requires
        v.w >= 1,
        v2.w == v.w,
        v2.heads == v.heads,
        0 <= next_cell(v) < v.down.len(),
        v.down.len() == v.right.len(),
        v.heads.len() == v.down.len(),
        v2.down == v.down.update(next_cell(v), d),
        v2.right == v.right.update(next_cell(v), r),
        !v.down[next_cell(v)],
        !v.right[next_cell(v)],
        r ==> (next_cell(v) + 1) % (v.w as int) != 0,
        0 <= x < v.down.len(),
    ensures
        need(v2, x) + b2i(r && (x == next_cell(v) || x == next_cell(v) + 1)) == need(v, x) - b2i(
            d && (x == next_cell(v) || x == next_cell(v) + v.w),
        ),
{
    let u = next_cell(v);
    let w = v.w as int;
    if w == 1 {
        assert((u + 1) % 1 == 0);
    }
    assert(b2i(v2.down[x]) == b2i(v.down[x]) + b2i(d && x == u));
    assert(b2i(v2.right[x]) == b2i(v.right[x]) + b2i(r && x == u));
    assert(v2.down[x] == (if x == u { d } else { v.down[x] }));
    assert(v2.right[x] == (if x == u { r } else { v.right[x] }));
    if x >= w {
        assert(v2.down[x - w] == (if x - w == u { d } else { v.down[x - w] }));
        assert(has_up(v2, x) == (x >= w && v2.down[x - w]));
    }
    if x >= 1 {
        assert(v2.right[x - 1] == (if x - 1 == u { r } else { v.right[x - 1] }));
    }
    vstd::arithmetic::div_mod::lemma_mod_pos_bound(x, w);
    if x == u + 1 && r {
        assert(x % w > 0);
    }
    assert(b2i(has_up(v2, x)) == b2i(has_up(v, x)) + b2i(d && x == u + w));
    if x == u + 1 {
        assert(v2.right[u] == r);
        assert(!v.right[u]);
        assert(has_left(v, x) == false);
        assert(has_left(v2, x) == (x % w > 0 && r));
    } else if x >= 1 {
        assert(v2.right[x - 1] == v.right[x - 1]);
        assert(has_left(v2, x) == has_left(v, x));
    } else {
        vstd::arithmetic::div_mod::lemma_small_mod(0, w as nat);
        assert(has_left(v2, x) == has_left(v, x));
    }
    assert(b2i(has_left(v2, x)) == b2i(has_left(v, x)) + b2i(r && x == u + 1));
}

/// Joins made at a committed cell keep the free ends in step with the incidences.
#[verifier::rlimit(100)]
proof fn lemma_joins_keep_ends(v: SearchView, v2: SearchView, d: bool, r: bool)
    requires
        ends_tracked(v),
        v.h >= 1,
        v.w >= 1,
        v.h * v.w < usize::MAX,
        v.heads.len() == v.h * v.w,
        v.down.len() == v.h * v.w,
        v.right.len() == v.h * v.w,
        0 <= next_cell(v) < v.h * v.w,
        view_wf(v.dsu),
        v.dsu.core.nodes.len() == v.h * v.w,
        !v.down[next_cell(v)],
        !v.right[next_cell(v)],
        d ==> next_cell(v) + v.w < v.h * v.w,
        r ==> next_cell(v) + 1 < v.h * v.w,
        r ==> (next_cell(v) + 1) % (v.w as int) != 0,
        joins_ok(v, next_cell(v), d, r),
        v2.h == v.h,
        v2.w == v.w,
        v2.heads == v.heads,
        v2.down == v.down.update(next_cell(v), d),
        v2.right == v.right.update(next_cell(v), r),
        v2.dsu == dsu_after(v, next_cell(v), d, r),
        d ==> view_wf(dsu_after_down(v, next_cell(v), d)),
        view_wf(v2.dsu),
    ensures
        ends_tracked(v2),
{
    let n = v.h * v.w;
    let w = v.w as int;
    let u = next_cell(v);
    reveal(ends_tracked);
    if forall|x: int| 0 <= x < n ==> #[trigger] need(v2, x) >= 0 {
        assert forall|x: int| 0 <= x < n implies #[trigger] need(v2, x) + b2i(r && (x == u || x == u + 1)) == need(
            v,
            x,
        ) - b2i(d && (x == u || x == u + w)) by {
            lemma_need_step(v, v2, d, r, x);
        }
        assert forall|x: int| 0 <= x < n implies #[trigger] need(v, x) >= 0 by {
            assert(need(v2, x) >= 0);
        }
        let need0 = |x: int| need(v, x);
        let need1 = |x: int| need(v2, x) + b2i(r && (x == u || x == u + 1));
        let need2 = |x: int| need(v2, x);
        assert(ends_match(v.dsu.core, need0));
        let d1 = dsu_after_down(v, u, d);
        if d {
            assert(need(v2, u) >= 0);
            assert(need(v2, u + w) >= 0);
            lemma_union_ends(v.dsu, u as usize, (u + w) as usize, need0, need1);
        } else {
            assert forall|r0: int, x: int|
                0 <= r0 < n && 0 <= x < n && v.dsu.core.nodes[r0] is Root implies #[trigger] end_count(
                    v.dsu.core.data[r0],
                    x,
                ) == if root_of(v.dsu.core, x) == r0 {
                    need1(x)
                } else {
                    0
                } by {
                assert(end_count(v.dsu.core.data[r0], x) == if root_of(v.dsu.core, x) == r0 {
                    need0(x)
                } else {
                    0
                });
            }
        }
        assert(ends_match(d1.core, need1));
        if r {
            assert(need(v2, u) >= 0);
            assert(need(v2, u + 1) >= 0);
            lemma_union_ends(d1, u as usize, (u + 1) as usize, need1, need2);
        } else {
            assert forall|r0: int, x: int|
                0 <= r0 < n && 0 <= x < n && d1.core.nodes[r0] is Root implies #[trigger] end_count(
                    d1.core.data[r0],
                    x,
                ) == if root_of(d1.core, x) == r0 {
                    need2(x)
                } else {
                    0
                } by {
                assert(end_count(d1.core.data[r0], x) == if root_of(d1.core, x) == r0 {
                    need1(x)
                } else {
                    0
                });
            }
        }
    }
}

/// A committed cell keeps the engine well formed.
#[verifier::rlimit(80)]
proof fn lemma_extend_wf(v: SearchView, d: bool, r: bool)
    requires
        search_wf(v),
        v.depth < v.h * v.w,
        spec_extend(v, d, r) is Some,
        links_in_range(spec_extend(v, d, r)->Some_0.dsu.core.data, v.h * v.w),
        forall|k: int|
            0 <= k < spec_extend(v, d, r)->Some_0.dsu.snaps.len() ==> links_in_range(
                #[trigger] spec_extend(v, d, r)->Some_0.dsu.snaps[k].data,
                v.h * v.w,
            ),
        view_wf(spec_extend(v, d, r)->Some_0.dsu),
        ends_tracked(spec_extend(v, d, r)->Some_0),
        heads_colored(spec_extend(v, d, r)->Some_0.dsu.core, spec_extend(v, d, r)->Some_0.heads),
        ends_home(spec_extend(v, d, r)->Some_0.dsu.core),
    ensures
        search_wf(spec_extend(v, d, r)->Some_0),
{
    let v2 = spec_extend(v, d, r)->Some_0;
    let n = v.h * v.w;
    let w = v.w;
    let u = next_cell(v);
    lemma_cell(v.h as int, w as int, u);
    assert forall|i: int| 0 <= i < v.depth implies v.down[#[trigger] v.order[i] as int] == v2.down[v.order[i] as int]
        && v.right[v.order[i] as int] == v2.right[v.order[i] as int] by {
        assert(v.order[i] != v.order[v.depth as int]);
    }
    lemma_edge_count_frame(v.down, v.right, v2.down, v2.right, v.order, v.depth as int);
    assert forall|i: int| v2.depth <= i < n implies !v2.down[#[trigger] v2.order[i] as int] && !v2.right[v2.order[i] as int] by {
        assert(v.order[i] != v.order[v.depth as int]);
    }
    assert forall|dd: int| 0 <= dd < v.h + v.w implies #[trigger] v2.diag_main[dd] == heads_ahead(
        v.heads, v.order, w as int, v2.depth as int, false, dd) by {
        assert(v.diag_main[dd] == heads_ahead(v.heads, v.order, w as int, v.depth as int, false, dd));
    }
    assert forall|dd: int| 0 <= dd < v.h + v.w implies #[trigger] v2.diag_anti[dd] == heads_ahead(
        v.heads, v.order, w as int, v2.depth as int, true, dd) by {
        assert(v.diag_anti[dd] == heads_ahead(v.heads, v.order, w as int, v.depth as int, true, dd));
    }
    if d {
        crate::dsu::lemma_root_is_root(v.dsu.core, u);
    }
    assert forall|i: int| 0 <= i < v2.depth implies degree(v2, #[trigger] v2.order[i] as int) == 2 by {
        if i < v.depth {
            let y = v.order[i] as int;
            assert(v.order[i] != v.order[v.depth as int]);
            lemma_degree_frame(v, v2, u, y, d, r);
        } else {
            assert(u - w != u);
            assert(v2.down[u] == d && v2.right[u] == r);
            if u >= w {
                assert(v2.down[u - w] == v.down[u - w]);
            }
            if u % (w as int) > 0 {
                assert(v2.right[u - 1] == v.right[u - 1]);
            }
        }
    }
}

/// In a state with every cell committed, each cell without a head has exactly
/// two of its four edges, and each head exactly one.
pub proof fn lemma_solved_degrees(v: SearchView)
    requires
        search_wf(v),
        v.depth == v.h * v.w,
    ensures
        forall|u: int|
            0 <= u < v.h * v.w ==> b2i(has_up(v, u)) + b2i(has_left(v, u)) + b2i(v.down[u]) + b2i(#[trigger] v.right[u])
                == if v.heads[u] is Some {
                1int
            } else {
                2int
            },
{
    assert forall|u: int| 0 <= u < v.h * v.w implies b2i(has_up(v, u)) + b2i(has_left(v, u)) + b2i(v.down[u]) + b2i(
        #[trigger] v.right[u],
    ) == if v.heads[u] is Some {
        1int
    } else {
        2int
    } by {
        assert(v.order.contains(u as usize));
        let i = choose|i: int| 0 <= i < v.order.len() && v.order[i] == u as usize;
        assert(degree(v, v.order[i] as int) == 2);
    }
}

/// In a state with every cell committed, no fragment has a free end left:
/// the payload of every cell's component is a finished path, `Complete`.
pub proof fn lemma_solved_fragments_complete(v: SearchView)
    requires
        search_wf(v),
        v.depth == v.h * v.w,
    ensures
        forall|x: int| 0 <= x < v.h * v.w ==> #[trigger] fragment(v, x) is Complete,
{
    let n = v.h * v.w;
    let c = v.dsu.core;
    assert forall|x: int| 0 <= x < n implies #[trigger] need(v, x) == 0 by {
        assert(v.order.contains(x as usize));
        let i = choose|i: int| 0 <= i < v.order.len() && v.order[i] == x as usize;
        assert(degree(v, v.order[i] as int) == 2);
    }
    reveal(ends_tracked);
    assert(ends_match(c, |x: int| need(v, x)));
    assert forall|x: int| 0 <= x < n implies #[trigger] fragment(v, x) is Complete by {
        lemma_root_is_root(c, x);
        let r = root_of(c, x);
        let p = c.data[r];
        match p {
            Link::Uncolored(a, b) => {
                assert(end_count(p, a as int) >= 1);
                assert(end_count(c.data[r], a as int) == if root_of(c, a as int) == r {
                    need(v, a as int)
                } else {
                    0
                });
            },
            Link::Colored(col, e) => {
                assert(end_count(p, e as int) >= 1);
                assert(end_count(c.data[r], e as int) == if root_of(c, e as int) == r {
                    need(v, e as int)
                } else {
                    0
                });
            },
            Link::Complete(_) => {},
        }
    }
}

/// In a state with every cell committed, every cell's fragment has a nonzero
/// color, and each head's fragment has the head's color.
pub proof fn lemma_solved_colors(v: SearchView)
    requires
        search_wf(v),
        v.depth == v.h * v.w,
    ensures
        forall|x: int|
            0 <= x < v.h * v.w ==> link_color(#[trigger] fragment(v, x)) != 0 && (v.heads[x] is Some
                ==> link_color(fragment(v, x)) == v.heads[x]->Some_0),
{
    lemma_solved_fragments_complete(v);
    reveal(heads_colored);
    assert forall|x: int| 0 <= x < v.h * v.w implies link_color(#[trigger] fragment(v, x)) != 0 && (v.heads[x] is Some
        ==> link_color(fragment(v, x)) == v.heads[x]->Some_0) by {
        lemma_root_is_root(v.dsu.core, x);
        let r = root_of(v.dsu.core, x);
        assert(!(v.dsu.core.data[r] is Uncolored));
        if v.heads[x] is Some {
        }
    }
}

/// A board and settings determine the freshly built engine: two well-formed
/// fresh engines for them are equal, so everything stated of the search from
/// one holds of the other.
pub proof fn lemma_fresh_unique(v1: SearchView, v2: SearchView, m: Seq<Seq<usize>>, config: SearchConfig)
    requires
        search_wf(v1),
        search_wf(v2),
        search_fresh(v1, m, config),
        search_fresh(v2, m, config),
    ensures
        v1 == v2,
{
    let n = v1.h * v1.w;
    assert(v1.heads =~= v2.heads);
    assert(v1.down =~= v2.down);
    assert forall|u: int| 0 <= u < n implies v1.right[u] == v2.right[u] by {
        assert(!v1.down[u] && !v1.right[u]);
        assert(!v2.down[u] && !v2.right[u]);
    }
    assert(v1.right =~= v2.right);
    let c1 = v1.dsu.core;
    let c2 = v2.dsu.core;
    assert(c1.nodes =~= c2.nodes);
    assert(c1.rank =~= c2.rank);
    assert(c1.data =~= c2.data);
    assert(c1 == c2);
    assert(v1.dsu.history =~= v2.dsu.history);
    assert(v1.dsu.snaps =~= v2.dsu.snaps);
    assert(v1.dsu == v2.dsu);
    assert(v1.diag_main =~= v2.diag_main);
    assert(v1.diag_anti =~= v2.diag_anti);
}

/// In a snapshot, the two ends of an uncolored fragment name each other: a
/// cell whose code is `n + t` has partner `t`, whose code is `n` plus the cell.
pub proof fn lemma_state_partners(v: SearchView)
    requires
        search_wf(v),
    ensures
        forall|u: int|
            0 <= u < v.h * v.w && (#[trigger] fragment(v, u)) is Uncolored && state_code(v, u) >= v.h * v.w ==> {
                let t = state_code(v, u) - v.h * v.w;
                &&& 0 <= t < v.h * v.w
                &&& fragment(v, t) == fragment(v, u)
                &&& state_code(v, t) == v.h * v.w + u
            },
{
    let n = v.h * v.w;
    let c = v.dsu.core;
    reveal(ends_home);
    assert forall|u: int|
        0 <= u < n && (#[trigger] fragment(v, u)) is Uncolored && state_code(v, u) >= n implies {
            let t = state_code(v, u) - n;
            &&& 0 <= t < n
            &&& fragment(v, t) == fragment(v, u)
            &&& state_code(v, t) == n + u
        } by {
        lemma_root_is_root(c, u);
        let r = root_of(c, u);
        let p = c.data[r];
        let a = p->Uncolored_0 as int;
        let b = p->Uncolored_1 as int;
        assert(a < n && b < n);
        assert(end_count(c.data[r], a) > 0);
        assert(end_count(c.data[r], b) > 0);
        assert(root_of(c, a) == r);
        assert(root_of(c, b) == r);
    }
}

impl SearchFlow {
    /// Number of committed cells.
    pub fn depth(&self) -> (r: usize)
        ensures
            r == self@.depth,
    {
        self.search_depth
    }

    /// Number of cells.
    pub fn len(&self) -> (r: usize)
        requires
            self.wf(),
        ensures
            r == self.cells(),
    {
        self.h * self.w
    }

    /// Every cell is committed.
    pub fn solved(&self) -> (r: bool)
        requires
            self.wf(),
        ensures
            r == (self@.depth == self.cells()),
    {
        self.depth() == self.len()
    }

    fn is_head(&self, u: usize) -> (r: bool)
        requires
            self.wf(),
            u < self.cells(),
        ensures
            r == (self@.heads[u as int] is Some),
    {
        self.heads[u].is_some()
    }


    /// The rules that read only the grid: degree, borders, zigzags, diagonals.
    fn local_check(&self, u: usize, down: bool, right: bool) -> (r: bool)
        requires
            self.wf(),
            u < self.cells(),
        ensures
            r == local_ok(self@, u as int, down, right),
            r && right ==> u + 1 < self.cells(),
            r && down ==> u + self@.w < self.cells(),
    {
        let ghost v = self@;
        let n = self.h * self.w;
        let w = self.w;
        proof {
            lemma_cell(self.h as int, w as int, u as int);
            lemma_cell_of(self.h + 1, w as int, self.h as int, 0);
            assert(self.h * w >= w) by (nonlinear_arith)
                requires
                    self.h >= 1,
            ;
        }
        let up = u >= w && self.down[u - w];
        let left = u % w > 0 && self.right[u - 1];
        let head = self.is_head(u);
        let degree: usize = (down as usize) + (right as usize) + (up as usize) + (left as usize) + (head as usize);
        assert(degree == b2i(down) + b2i(right) + b2i(has_up(v, u as int)) + b2i(has_left(v, u as int)) + b2i(head));
        if degree != 2 || down && u >= n - w || right && (u + 1) % w == 0 {
            return false;
        }
        if !self.config.allow_zigzag {
            if right && up && self.right[u - w] || right && up && self.down[u - w + 1] || right && u >= w
                && self.down[u - w + 1] && self.right[u - w] || down && left && self.down[u - 1] {
                return false;
            }
            if self.config.use_diagonals {
                let dm = u / w + u % w;
                let da = u / w + w - u % w;
                if down && left && self.diag_main[dm] == 0 || down && right && self.diag_anti[da] == 0 {
                    return false;
                }
            }
        }
        true
    }


    /// A snapshot of the open fragment ends, one code per cell.
    pub fn get_state(&self) -> (r: Vec<usize>)
        requires
            self.wf(),
        ensures
            r@.len() == self.cells(),
            forall|u: int| 0 <= u < self.cells() ==> #[trigger] r@[u] as int == state_code(self@, u),
    {
        let n = self.h * self.w;
        let mut out: Vec<usize> = Vec::new();
        let mut u: usize = 0;
        while u < n
            invariant
                self.wf(),
                n == self.cells(),
                u <= n,
                out@.len() == u,
                forall|x: int| 0 <= x < u ==> #[trigger] out@[x] as int == state_code(self@, x),
            decreases n - u,
        {
            proof {
                crate::dsu::lemma_root_is_root(self@.dsu.core, u as int);
            }
            let code = match self.dsu.get_data(u) {
                Link::Colored(color, s) => if u == s {
                    color
                } else {
                    0
                },
                Link::Uncolored(s, t) => if u == s {
                    n + t
                } else if u == t {
                    n + s
                } else {
                    0
                },
                Link::Complete(_) => 0,
            };
            out.push(code);
            u += 1;
        }
        out
    }

    /// The cut heuristic is not implemented: every state is reported feasible,
    /// whatever the configuration says.
    pub fn feasible(&mut self) -> (r: bool)
        ensures
            r,
            *final(self) == *old(self),
    {
        true
    }

    /// Height, width and the two edge bitmaps.
    pub fn edges(&self) -> (r: (usize, usize, Vec<bool>, Vec<bool>))
        ensures
            r.0 == self@.h,
            r.1 == self@.w,
            r.2@ == self@.down,
            r.3@ == self@.right,
    {
        (self.h, self.w, self.down.clone(), self.right.clone())
    }

    /// The color of each cell's fragment, 0 for one that has none.
    pub fn colors(&self) -> (r: Vec<usize>)
        requires
            self.wf(),
        ensures
            r@.len() == self.cells(),
            forall|u: int| 0 <= u < self.cells() ==> #[trigger] r@[u] == link_color(fragment(self@, u)),
    {
        let n = self.h * self.w;
        let mut out: Vec<usize> = Vec::new();
        let mut u: usize = 0;
        while u < n
            invariant
                self.wf(),
                n == self.cells(),
                u <= n,
                out@.len() == u,
                forall|x: int| 0 <= x < u ==> #[trigger] out@[x] == link_color(fragment(self@, x)),
            decreases n - u,
        {
            let color = match self.dsu.get_data(u) {
                Link::Complete(color) => color,
                Link::Colored(color, _) => color,
                Link::Uncolored(_, _) => 0,
            };
            out.push(color);
            u += 1;
        }
        out
    }

    /// Commits the next cell of the order with a down edge iff `down` and a
    /// right edge iff `right`; returns whether the choice was legal. A refused
    /// choice leaves the engine unchanged.
    #[verifier::rlimit(100)]
    pub fn extend(&mut self, down: bool, right: bool) -> (r: bool)
        requires
            old(self).wf(),
            old(self)@.depth < old(self).cells(),
        ensures
            final(self).wf(),
            r == spec_extend(old(self)@, down, right) is Some,
            r ==> final(self)@ == spec_extend(old(self)@, down, right)->Some_0,
            !r ==> final(self)@ == old(self)@,
    {
        let ghost v = self@;
        let n = self.h * self.w;
        let w = self.w;
        let u = self.search_order[self.search_depth];
        proof {
            lemma_cell(self.h as int, w as int, u as int);
            lemma_cell_of(self.h + 1, w as int, self.h as int, 0);
            assert(self.h * w >= w) by (nonlinear_arith)
                requires
                    self.h >= 1,
            ;
        }
        if !self.local_check(u, down, right) {
            return false;
        }
        assert(right ==> u + 1 < n);
        assert(local_ok(v, u as int, down, right));
        if down {
            proof {
                lemma_links_after_unite(v.dsu, u, (u + w) as usize, n as int);
            }
            if !self.dsu.unite(u, u + w) {
                return false;
            }
            self.down.set(u, true);
        }
        let ghost v1 = self@;
        assert(view_wf(v1.dsu));
        assert(v1.dsu == dsu_after_down(v, u as int, down));
        if right {
            proof {
                lemma_links_after_unite(v1.dsu, u, (u + 1) as usize, n as int);
            }
            if !self.dsu.unite(u, u + 1) {
                if down {
                    self.dsu.undo();
                    self.down.set(u, false);
                    proof {
                        lemma_undone_united(v.dsu, u, (u + w) as usize);
                        assert(self.down@ =~= v.down);
                    }
                }
                return false;
            }
            self.right.set(u, true);
        }
        if self.heads[u].is_some() {
            let dm = u / w + u % w;
            let da = u / w + w - u % w;
            self.diag_main.set(dm, self.diag_main[dm] - 1);
            self.diag_anti.set(da, self.diag_anti[da] - 1);
        }
        self.search_depth = self.search_depth + 1;
        proof {
            let v2 = self@;
            assert(v2.down =~= v.down.update(u as int, down));
            assert(v2.right =~= v.right.update(u as int, right));
            assert(v2 == spec_extend(v, down, right)->Some_0);
            assert(!v.down[u as int] && !v.right[u as int]);
            assert(joins_ok(v, u as int, down, right));
            lemma_joins_keep_ends(v, v2, down, right);
            lemma_joins_keep_colors(v, v2, down, right);
            lemma_extend_wf(v, down, right);
            let trail = self.trail@;
            lemma_trail_push(trail, v, down, right);
            self.trail@ = trail.push(v);
        }
        true
    }

    /// Takes back the most recently committed cell.
    #[verifier::rlimit(50)]
    pub fn undo(&mut self)
        requires
            old(self).wf(),
            old(self)@.depth > 0,
        ensures
            final(self).wf(),
            final(self)@ == spec_undo(old(self)@),
    {
        let ghost v = self@;
        let n = self.h * self.w;
        let w = self.w;
        self.search_depth = self.search_depth - 1;
        let u = self.search_order[self.search_depth];
        proof {
            lemma_cell(self.h as int, w as int, u as int);
            lemma_heads_ahead_bound(v.heads, v.order, w as int, v.depth - 1, false, diag_main(w as int, u as int));
            lemma_heads_ahead_bound(v.heads, v.order, w as int, v.depth - 1, true, diag_anti(w as int, u as int));
            lemma_edge_count_nonneg(v.down, v.right, v.order, v.depth - 1);
        }
        if self.heads[u].is_some() {
            let dm = u / w + u % w;
            let da = u / w + w - u % w;
            self.diag_main.set(dm, self.diag_main[dm] + 1);
            self.diag_anti.set(da, self.diag_anti[da] + 1);
        }
        if self.right[u] {
            self.dsu.undo();
            self.right.set(u, false);
        }
        if self.down[u] {
            self.dsu.undo();
            self.down.set(u, false);
        }
        proof {
            let v2 = self@;
            assert(v2.down =~= v.down.update(u as int, false));
            assert(v2.right =~= v.right.update(u as int, false));
            assert(v2 == spec_undo(v));
            let trail = self.trail@;
            lemma_trail_pop(trail, v);
            self.trail@ = trail.drop_last();
        }
    }
}

} // verus!
