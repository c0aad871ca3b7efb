use vstd::prelude::*;

use crate::dsu::{accepts, after_unite, root_of, undone, united, view_wf, UfView, UnionFind, Unite};
use crate::grid::{b2i, lemma_cell, lemma_cell_of};

verus! {

/// The generator's payload: fragments carry nothing, so every join of two
/// distinct components is accepted.
#[derive(Debug, Clone, Copy, PartialEq, Eq)]
pub struct Dummy;

impl Unite for Dummy {
    open spec fn spec_unite(self, oth: Self, u: usize, v: usize) -> Option<Self> {
        Some(Dummy)
    }

    fn unite(self, oth: Self, u: usize, v: usize) -> (r: Option<Self>) {
        Some(Dummy)
    }
}

/// The model of a generator engine; cells are decided in row-major order.
pub struct GenView {
    pub h: usize,
    pub w: usize,
    pub heads: Seq<bool>,
    pub down: Seq<bool>,
    pub right: Seq<bool>,
    pub dsu: UfView<Dummy>,
    pub depth: usize,
    pub allow_zigzag: bool,
}

/// Number of committed edges among cells `0..k`.
pub open spec fn gen_edges(down: Seq<bool>, right: Seq<bool>, k: int) -> int
    decreases k,
{
    if k <= 0 {
        0
    } else {
        gen_edges(down, right, k - 1) + b2i(down[k - 1]) + b2i(right[k - 1])
    }
}

pub open spec fn gen_wf(v: GenView) -> bool {
    let n = v.h * v.w;
    &&& n < usize::MAX
    &&& v.heads.len() == n
    &&& v.down.len() == n
    &&& v.right.len() == n
    &&& v.depth <= n
    &&& view_wf(v.dsu)
    &&& v.dsu.core.nodes.len() == n
    &&& forall|i: int| v.depth <= i < n ==> !#[trigger] v.down[i] && !v.right[i] && !v.heads[i]
    &&& v.dsu.history.len() == gen_edges(v.down, v.right, v.depth as int)
}

/// The rules that read only the grid: degree, borders and, unless allowed, zigzags.
pub open spec fn gen_local_ok(v: GenView, u: int, head: bool, d: bool, r: bool) -> bool {
    let w = v.w as int;
    let up = u >= w && v.down[u - w];
    let left = u % w > 0 && v.right[u - 1];
    &&& b2i(head) + b2i(d) + b2i(r) + b2i(up) + b2i(left) == 2
    &&& !(d && u + w >= v.h * v.w)
    &&& !(r && (u + 1) % w == 0)
    &&& v.allow_zigzag || !(r && u >= w && b2i(v.right[u - w]) + b2i(v.down[u - w + 1]) + b2i(v.down[u - w]) >= 2)
    &&& v.allow_zigzag || !(d && u % w > 0 && v.right[u - 1] && v.down[u - 1])
}

pub open spec fn gen_after_down(v: GenView, u: int, d: bool) -> UfView<Dummy> {
    if d {
        after_unite(v.dsu, u as usize, (u + v.w) as usize)
    } else {
        v.dsu
    }
}

/// The chosen edges join distinct fragments, down first, then right.
pub open spec fn gen_joins_ok(v: GenView, u: int, d: bool, r: bool) -> bool {
    &&& d ==> accepts(v.dsu, u as usize, (u + v.w) as usize)
    &&& r ==> accepts(gen_after_down(v, u, d), u as usize, (u + 1) as usize)
}

/// The engine after committing the next cell, or `None` where `extend` refuses.
pub open spec fn spec_gen_extend(v: GenView, head: bool, d: bool, r: bool) -> Option<GenView> {
    let u = v.depth as int;
    if gen_local_ok(v, u, head, d, r) && gen_joins_ok(v, u, d, r) {
        let d1 = gen_after_down(v, u, d);
        Some(
            GenView {
                h: v.h,
                w: v.w,
                heads: v.heads.update(u, head),
                down: v.down.update(u, d),
                right: v.right.update(u, r),
                dsu: if r {
                    after_unite(d1, u as usize, (u + 1) as usize)
                } else {
                    d1
                },
                depth: (v.depth + 1) as usize,
                allow_zigzag: v.allow_zigzag,
            },
        )
    } else {
        None
    }
}

/// The engine after taking back the last committed cell.
pub open spec fn spec_gen_undo(v: GenView) -> GenView {
    let u = v.depth - 1;
    let d1 = if v.right[u] {
        undone(v.dsu)
    } else {
        v.dsu
    };
    GenView {
        h: v.h,
        w: v.w,
        heads: v.heads.update(u, false),
        down: v.down.update(u, false),
        right: v.right.update(u, false),
        dsu: if v.down[u] {
            undone(d1)
        } else {
            d1
        },
        depth: (v.depth - 1) as usize,
        allow_zigzag: v.allow_zigzag,
    }
}

/// Index in `reps`, from `i` on, of the first cell in `u`'s component;
/// `reps.len()` if there is none.
pub open spec fn first_rep(v: GenView, reps: Seq<usize>, u: int, i: int) -> int
    decreases reps.len() - i,
{
    if i < 0 || i >= reps.len() {
        reps.len() as int
    } else if root_of(v.dsu.core, reps[i] as int) == root_of(v.dsu.core, u) {
        i
    } else {
        first_rep(v, reps, u, i + 1)
    }
}

/// The first head of each component, in scan order, among cells `0..k`.
pub open spec fn reps_upto(v: GenView, k: int) -> Seq<usize>
    decreases k,
{
    if k <= 0 {
        Seq::empty()
    } else {
        let prev = reps_upto(v, k - 1);
        if v.heads[k - 1] && first_rep(v, prev, k - 1, 0) == prev.len() {
            prev.push((k - 1) as usize)
        } else {
            prev
        }
    }
}

/// The color given to cell `u`: 0 off the heads; else one more than the
/// number of components whose first head comes before the first head of `u`'s.
pub open spec fn gen_label(v: GenView, u: int) -> int {
    if !v.heads[u] {
        0
    } else {
        first_rep(v, reps_upto(v, u), u, 0) + 1
    }
}

proof fn lemma_reps_bound(v: GenView, k: int)
    requires
        k >= 0,
    ensures
        reps_upto(v, k).len() <= k,
        forall|j: int| 0 <= j < reps_upto(v, k).len() ==> #[trigger] reps_upto(v, k)[j] < k,
    decreases k,
{
    if k > 0 {
        lemma_reps_bound(v, k - 1);
    }
}

proof fn lemma_first_rep_bound(v: GenView, reps: Seq<usize>, u: int, i: int)
    requires
        0 <= i,
    ensures
        first_rep(v, reps, u, i) <= reps.len(),
        i <= reps.len() ==> i <= first_rep(v, reps, u, i),
    decreases reps.len() - i,
{
    if i < reps.len() {
        lemma_first_rep_bound(v, reps, u, i + 1);
    }
}

proof fn lemma_gen_edges_frame(down: Seq<bool>, right: Seq<bool>, down2: Seq<bool>, right2: Seq<bool>, k: int)
    requires
        forall|i: int| 0 <= i < k ==> down[i] == down2[i] && right[i] == right2[i],
    ensures
        gen_edges(down, right, k) == gen_edges(down2, right2, k),
    decreases k,
{
    if k > 0 {
        lemma_gen_edges_frame(down, right, down2, right2, k - 1);
    }
}

proof fn lemma_gen_edges_nonneg(down: Seq<bool>, right: Seq<bool>, k: int)
    ensures
        gen_edges(down, right, k) >= 0,
    decreases k,
{
    if k > 0 {
        lemma_gen_edges_nonneg(down, right, k - 1);
    }
}

proof fn lemma_gen_undone_united(m: UfView<Dummy>, u: usize, v: usize)
    ensures
        undone(united(m, u, v)) == m,
{
    let m2 = united(m, u, v);
    assert(m2.history.drop_last() =~= m.history);
    assert(m2.snaps.drop_last() =~= m.snaps);
}

/// Committing a cell and taking it back leaves the generator exactly as it was.
pub proof fn lemma_gen_extend_then_undo(v: GenView, head: bool, d: bool, r: bool)
    requires
        gen_wf(v),
        v.depth < v.h * v.w,
        spec_gen_extend(v, head, d, r) is Some,
    ensures
        spec_gen_undo(spec_gen_extend(v, head, d, r)->Some_0) == v,
{
    let u = v.depth as int;
    let v2 = spec_gen_extend(v, head, d, r)->Some_0;
    assert(!v.down[u] && !v.right[u] && !v.heads[u]);
    assert(v2.down.update(u, false) =~= v.down);
    assert(v2.right.update(u, false) =~= v.right);
    assert(v2.heads.update(u, false) =~= v.heads);
    let d1 = gen_after_down(v, u, d);
    if d {
        lemma_gen_undone_united(v.dsu, u as usize, (u + v.w) as usize);
    }
    if r {
        lemma_gen_undone_united(d1, u as usize, (u + 1) as usize);
    }
}


/// A committed cell keeps the generator well formed.
proof fn lemma_gen_extend_wf(v: GenView, v2: GenView, head: bool, d: bool, r: bool)
    requires
        gen_wf(v),
        v.depth < v.h * v.w,
        v2.h == v.h,
        v2.w == v.w,
        v2.heads == v.heads.update(v.depth as int, head),
        v2.down == v.down.update(v.depth as int, d),
        v2.right == v.right.update(v.depth as int, r),
        v2.depth == v.depth + 1,
        view_wf(v2.dsu),
        v2.dsu.core.nodes.len() == v.h * v.w,
        v2.dsu.history.len() == v.dsu.history.len() + b2i(d) + b2i(r),
    ensures
        gen_wf(v2),
{
    let u = v.depth as int;
    lemma_gen_edges_frame(v.down, v.right, v2.down, v2.right, u);
    assert forall|i: int| v2.depth <= i < v.h * v.w implies !#[trigger] v2.down[i] && !v2.right[i] && !v2.heads[i] by {
        assert(!v.down[i]);
        assert(!v.right[i] && !v.heads[i]);
    }
}

/// Taking back a cell keeps the generator well formed.
proof fn lemma_gen_undo_wf(v: GenView)
    requires
        gen_wf(v),
        v.depth > 0,
        view_wf(spec_gen_undo(v).dsu),
        spec_gen_undo(v).dsu.core.nodes.len() == v.h * v.w,
        spec_gen_undo(v).dsu.history.len() + b2i(v.down[v.depth - 1]) + b2i(v.right[v.depth - 1]) == v.dsu.history.len(),
    ensures
        gen_wf(spec_gen_undo(v)),
{
    let v2 = spec_gen_undo(v);
    lemma_gen_edges_frame(v.down, v.right, v2.down, v2.right, v.depth - 1);
}

/// The generating engine: the solver's skeleton without colors, where the
/// caller decides at each cell whether it is a head.
pub struct GenFlow {
    heads: Vec<bool>,
    h: usize,
    w: usize,
    down: Vec<bool>,
    right: Vec<bool>,
    dsu: UnionFind<Dummy>,
    search_depth: usize,
    allow_zigzag: bool,
}

impl View for GenFlow {
    type V = GenView;

    closed spec fn view(&self) -> GenView {
        GenView {
            h: self.h,
            w: self.w,
            heads: self.heads@,
            down: self.down@,
            right: self.right@,
            dsu: self.dsu@,
            depth: self.search_depth,
            allow_zigzag: self.allow_zigzag,
        }
    }
}

impl GenFlow {
    pub open spec fn wf(&self) -> bool {
        gen_wf(self@)
    }

    pub open spec fn cells(&self) -> int {
        self@.h * self@.w
    }

    /// An empty `h × w` grid: no edge, no head, no cell committed.
    pub fn new(h: usize, w: usize, allow_zigzag: bool) -> (r: Self)
        requires
            h * w < usize::MAX,
        ensures
            r.wf(),
            r@.h == h,
            r@.w == w,
            r@.depth == 0,
            r@.allow_zigzag == allow_zigzag,
            r@.dsu.history.len() == 0,
            forall|u: int| 0 <= u < h * w ==> !#[trigger] r@.down[u] && !r@.right[u] && !r@.heads[u],
    {
        let n = h * w;
        let mut heads: Vec<bool> = Vec::new();
        let mut payload: Vec<Dummy> = Vec::new();
        let mut i: usize = 0;
        while i < n
            invariant
                i <= n,
                heads@.len() == i,
                payload@.len() == i,
                forall|j: int| 0 <= j < i ==> !#[trigger] heads@[j],
            decreases n - i,
        {
            heads.push(false);
            payload.push(Dummy);
            i += 1;
        }
        let dsu = UnionFind::from(payload);
        GenFlow {
            down: heads.clone(),
            right: heads.clone(),
            heads,
            h,
            w,
            dsu,
            search_depth: 0,
            allow_zigzag,
        }
    }

    /// Number of committed cells.
    pub fn depth(&self) -> (r: usize)
        ensures
            r == self@.depth,
    {
        self.search_depth
    }

    /// Number of cells.
    pub fn len(&self) -> (r: usize)
        requires
            self.wf(),
        ensures
            r == self.cells(),
    {
        self.h * self.w
    }

    /// Every cell is committed.
    pub fn solved(&self) -> (r: bool)
        requires
            self.wf(),
        ensures
            r == (self@.depth == self.cells()),
    {
        self.depth() == self.len()
    }

    fn local_check(&self, head: bool, down: bool, right: bool) -> (r: bool)
        requires
            self.wf(),
            self@.depth < self.cells(),
        ensures
            r == gen_local_ok(self@, self@.depth as int, head, down, right),
            r && right ==> self@.depth + 1 < self.cells(),
            r && down ==> self@.depth + self@.w < self.cells(),
    {
        let n = self.h * self.w;
        let w = self.w;
        let u = self.search_depth;
        proof {
            lemma_cell(self.h as int, w as int, u as int);
            lemma_cell_of(self.h + 1, w as int, self.h as int, 0);
            assert(self.h * w >= w) by (nonlinear_arith)
                requires
                    self.h >= 1,
            ;
        }
        let up = u >= w && self.down[u - w];
        let left = u % w > 0 && self.right[u - 1];
        let degree: usize = (head as usize) + (down as usize) + (right as usize) + (up as usize) + (left as usize);
        if degree != 2 || down && u >= n - w || right && (u + 1) % w == 0 {
            return false;
        }
        if !self.allow_zigzag {
            if right && u >= w {
                let edges: usize = (self.right[u - w] as usize) + (self.down[u - w + 1] as usize) + (self.down[u
                    - w] as usize);
                if edges >= 2 {
                    return false;
                }
            }
            if down && u % w > 0 && self.right[u - 1] && self.down[u - 1] {
                return false;
            }
        }
        true
    }

    /// Commits the next cell, as a head iff `head`, with a down edge iff `down`
    /// and a right edge iff `right`; returns whether the choice was legal. A
    /// refused choice leaves the engine unchanged.
    #[verifier::rlimit(50)]
    pub fn extend(&mut self, head: bool, down: bool, right: bool) -> (r: bool)
        requires
            old(self).wf(),
            old(self)@.depth < old(self).cells(),
        ensures
            final(self).wf(),
            r == spec_gen_extend(old(self)@, head, down, right) is Some,
            r ==> final(self)@ == spec_gen_extend(old(self)@, head, down, right)->Some_0,
            !r ==> final(self)@ == old(self)@,
    {
        let ghost v = self@;
        let w = self.w;
        let u = self.search_depth;
        assert(!v.down[u as int] && !v.right[u as int] && !v.heads[u as int]);
        if !self.local_check(head, down, right) {
            return false;
        }
        if down {
            if !self.dsu.unite(u, u + w) {
                return false;
            }
            self.down.set(u, true);
        }
        if right {
            if !self.dsu.unite(u, u + 1) {
                if down {
                    self.dsu.undo();
                    self.down.set(u, false);
                    proof {
                        lemma_gen_undone_united(v.dsu, u, (u + w) as usize);
                        assert(self.down@ =~= v.down);
                    }
                }
                return false;
            }
            self.right.set(u, true);
        }
        self.heads.set(u, head);
        self.search_depth = self.search_depth + 1;
        proof {
            let v2 = self@;
            assert(v2.down =~= v.down.update(u as int, down));
            assert(v2.right =~= v.right.update(u as int, right));
            assert(v2.heads =~= v.heads.update(u as int, head));
            assert(v2 == spec_gen_extend(v, head, down, right)->Some_0);
            lemma_gen_extend_wf(v, v2, head, down, right);
        }
        true
    }

    /// Takes back the most recently committed cell.
    #[verifier::rlimit(50)]
    pub fn undo(&mut self)
        requires
            old(self).wf(),
            old(self)@.depth > 0,
        ensures
            final(self).wf(),
            final(self)@ == spec_gen_undo(old(self)@),
    {
        let ghost v = self@;
        self.search_depth = self.search_depth - 1;
        let u = self.search_depth;
        proof {
            lemma_gen_edges_nonneg(v.down, v.right, u as int);
        }
        if self.right[u] {
            self.dsu.undo();
            self.right.set(u, false);
        }
        if self.down[u] {
            self.dsu.undo();
            self.down.set(u, false);
        }
        self.heads.set(u, false);
        proof {
            let v2 = self@;
            assert(v2.down =~= v.down.update(u as int, false));
            assert(v2.right =~= v.right.update(u as int, false));
            assert(v2.heads =~= v.heads.update(u as int, false));
            assert(v2 == spec_gen_undo(v));
            lemma_gen_undo_wf(v);
        }
    }

    /// The board of head colors: the heads of one path share a color, and
    /// colors are numbered from 1 in the order their first head is met.
    pub fn get_board(&self) -> (r: Vec<Vec<usize>>)
        requires
            self.wf(),
        ensures
            r@.len() == self@.h,
            forall|i: int| 0 <= i < self@.h ==> (#[trigger] r@[i])@.len() == self@.w,
            forall|i: int, j: int|
                0 <= i < self@.h && 0 <= j < self@.w ==> #[trigger] r@[i]@[j] as int == gen_label(
                    self@,
                    i * self@.w + j,
                ),
    {
        let ghost v = self@;
        let n = self.h * self.w;
        let mut reps: Vec<usize> = Vec::new();
        let mut labels: Vec<usize> = Vec::new();
        let mut u: usize = 0;
        while u < n
            invariant
                self.wf(),
                v == self@,
                n == self.cells(),
                u <= n,
                reps@ == reps_upto(v, u as int),
                labels@.len() == u,
                forall|x: int| 0 <= x < u ==> #[trigger] labels@[x] as int == gen_label(v, x),
            decreases n - u,
        {
            proof {
                lemma_reps_bound(v, u as int);
            }
            if self.heads[u] {
                let mut i: usize = 0;
                let mut found = false;
                while i < reps.len() && !found
                    invariant
                        self.wf(),
                        v == self@,
                        u < n,
                        n == self.cells(),
                        reps@ == reps_upto(v, u as int),
                        forall|j: int| 0 <= j < reps@.len() ==> #[trigger] reps@[j] < u,
                        i <= reps@.len(),
                        !found ==> first_rep(v, reps@, u as int, 0) == first_rep(v, reps@, u as int, i as int),
                        found ==> first_rep(v, reps@, u as int, 0) == i as int - 1,
                    decreases reps@.len() - i + (if found { 0int } else { 1int }),
                {
                    if self.dsu.same(u, reps[i]) {
                        found = true;
                    }
                    i += 1;
                }
                proof {
                    lemma_first_rep_bound(v, reps@, u as int, 0);
                }
                if found {
                    labels.push(i);
                } else {
                    reps.push(u);
                    labels.push(reps.len());
                }
            } else {
                labels.push(0);
            }
            u += 1;
        }
        let mut board: Vec<Vec<usize>> = Vec::new();
        let mut r: usize = 0;
        while r < self.h
            invariant
                v == self@,
                n == v.h * v.w,
                labels@.len() == n,
                forall|x: int| 0 <= x < n ==> #[trigger] labels@[x] as int == gen_label(v, x),
                r <= v.h,
                board@.len() == r,
                forall|i: int| 0 <= i < r ==> (#[trigger] board@[i])@.len() == v.w,
                forall|i: int, j: int|
                    0 <= i < r && 0 <= j < v.w ==> #[trigger] board@[i]@[j] as int == gen_label(v, i * v.w + j),
            decreases v.h - r,
        {
            let mut row: Vec<usize> = Vec::new();
            let mut c: usize = 0;
            while c < self.w
                invariant
                    v == self@,
                    n == v.h * v.w,
                    labels@.len() == n,
                    forall|x: int| 0 <= x < n ==> #[trigger] labels@[x] as int == gen_label(v, x),
                    r < v.h,
                    c <= v.w,
                    row@.len() == c,
                    forall|j: int| 0 <= j < c ==> #[trigger] row@[j] as int == gen_label(v, r * v.w + j),
                decreases v.w - c,
            {
                proof {
                    lemma_cell_of(v.h as int, v.w as int, r as int, c as int);
                }
                row.push(labels[r * self.w + c]);
                c += 1;
            }
            board.push(row);
            r += 1;
        }
        board
    }
}

/// Relies on rand::Rng::gen_ratio on the thread-local generator: `true` with
/// chance `numerator / denominator`, always when the two are equal, never when
/// `numerator` is 0. It panics on a zero denominator or a ratio above one;
/// `rand::thread_rng` panics only where the system generator cannot seed it.
#[verifier::external_body]
fn chance(numerator: u32, denominator: u32) -> (r: bool)
    requires
        0 < denominator,
        numerator <= denominator,
    ensures
        numerator == denominator ==> r,
        numerator == 0 ==> !r,
{
    rand::Rng::gen_ratio(&mut rand::thread_rng(), numerator, denominator)
}

/// One randomized depth-first attempt to commit every remaining cell: at each
/// cell up to sixteen random choices (a head one time in ten, each edge one
/// time in two) are tried. Returns whether every cell got committed; after a
/// failure the engine is as it was.
pub fn random_fill(state: &mut GenFlow) -> (r: bool)
    requires
        old(state).wf(),
    ensures
        final(state).wf(),
        r ==> final(state)@.depth == final(state).cells(),
        !r ==> final(state)@ == old(state)@,
        final(state)@.h == old(state)@.h,
        final(state)@.w == old(state)@.w,
        old(state)@.depth == old(state).cells() ==> r && final(state)@ == old(state)@,
        r ==> forall|i: int|
            0 <= i < old(state)@.depth ==> #[trigger] final(state)@.down[i] == old(state)@.down[i]
                && final(state)@.right[i] == old(state)@.right[i] && final(state)@.heads[i]
                == old(state)@.heads[i],
    decreases old(state).cells() - old(state)@.depth,
{
    if state.solved() {
        return true;
    }
    let ghost v = state@;
    let mut attempt: usize = 0;
    while attempt < 16
        invariant
            state.wf(),
            state@ == v,
            v == old(state)@,
            v.depth < v.h * v.w,
        decreases 16 - attempt,
    {
        let head = chance(1, 10);
        let down = chance(1, 2);
        let right = chance(1, 2);
        if state.extend(head, down, right) {
            assert(state@.depth == v.depth + 1 && state@.h == v.h && state@.w == v.w);
            let ghost v1 = state@;
            assert(forall|i: int| 0 <= i < v.depth ==> #[trigger] v1.down[i] == v.down[i] && v1.right[i]
                == v.right[i] && v1.heads[i] == v.heads[i]);
            if random_fill(state) {
                assert forall|i: int| 0 <= i < v.depth implies #[trigger] state@.down[i] == v.down[i]
                    && state@.right[i] == v.right[i] && state@.heads[i] == v.heads[i] by {
                    assert(state@.down[i] == v1.down[i]);
                    assert(v1.down[i] == v.down[i]);
                }
                return true;
            }
            state.undo();
            proof {
                lemma_gen_extend_then_undo(v, head, down, right);
            }
        }
        attempt += 1;
    }
    false
}

} // verus!
