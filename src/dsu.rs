use vstd::prelude::*;

verus! {

/// A payload that can be merged when two components of a [`UnionFind`] are joined.
///
/// `unite` receives the payloads of the two roots and the two cells whose
/// connection was requested, and either returns the payload of the joined
/// component or refuses the join.
pub trait Unite: Sized {
    /// What `unite` returns.
    spec fn spec_unite(self, oth: Self, u: usize, v: usize) -> Option<Self>;

    fn unite(self, oth: Self, u: usize, v: usize) -> (r: Option<Self>)
        ensures
            r == self.spec_unite(oth, u, v),
    ;
}

/// A disjoint-set node: a root with the size of its component, or a link to a parent.
#[derive(Debug, Clone, Copy, PartialEq, Eq)]
pub enum Node {
    Root(usize),
    NonRoot(usize),
}

/// One reversible union: the winning root, the absorbed root, the absorbed
/// root's size and the winner's payload before the union.
#[derive(Debug, Clone, Copy)]
pub struct Log<T>(pub usize, pub usize, pub usize, pub T);

/// The mathematical content of a union-find: nodes, payloads, and a ghost rank
/// that grows strictly along parent links (it bounds every walk to a root).
pub struct Core<T> {
    pub nodes: Seq<Node>,
    pub data: Seq<T>,
    pub rank: Seq<nat>,
    pub top: nat,
}

/// The full model: the current core, the undo log, the core before each logged
/// union, and the core right after construction.
pub struct UfView<T> {
    pub core: Core<T>,
    pub history: Seq<Log<T>>,
    pub snaps: Seq<Core<T>>,
    pub init: Core<T>,
}

pub open spec fn size_of(n: Node) -> nat {
    match n {
        Node::Root(s) => s as nat,
        Node::NonRoot(_) => 0,
    }
}

/// Sum of the sizes recorded at the roots.
pub open spec fn size_sum(nodes: Seq<Node>) -> nat
    decreases nodes.len(),
{
    if nodes.len() == 0 {
        0
    } else {
        size_sum(nodes.drop_last()) + size_of(nodes.last())
    }
}

/// The root reached from `u` by following parent links.
pub open spec fn root_of<T>(c: Core<T>, u: int) -> int
    decreases c.top - c.rank[u],
{
    if 0 <= u < c.nodes.len() && c.nodes[u] is NonRoot {
        let p = c.nodes[u]->NonRoot_0 as int;
        if 0 <= p < c.nodes.len() && c.rank[u] < c.rank[p] <= c.top {
            root_of(c, p)
        } else {
            u
        }
    } else {
        u
    }
}

pub open spec fn core_wf<T>(c: Core<T>, n: nat) -> bool {
    &&& c.nodes.len() == n
    &&& c.data.len() == n
    &&& c.rank.len() == n
    &&& size_sum(c.nodes) == n
    &&& forall|i: int| 0 <= i < n ==> #[trigger] c.rank[i] <= c.top
    &&& forall|i: int|
        0 <= i < n && (#[trigger] c.nodes[i]) is NonRoot ==> {
            let p = c.nodes[i]->NonRoot_0 as int;
            0 <= p < n && c.rank[i] < c.rank[p]
        }
}

/// A freshly built structure: every index its own root of size one.
pub open spec fn core_fresh<T>(c: Core<T>) -> bool {
    &&& c.top == 0
    &&& forall|i: int| 0 <= i < c.nodes.len() ==> #[trigger] c.nodes[i] == Node::Root(1)
    &&& forall|i: int| 0 <= i < c.rank.len() ==> #[trigger] c.rank[i] == 0
}

/// Reverses one logged union on `c`.
pub open spec fn undo_core<T>(c: Core<T>, l: Log<T>, prev: Core<T>) -> bool {
    let a = l.0 as int;
    let b = l.1 as int;
    &&& 0 <= a < c.nodes.len()
    &&& 0 <= b < c.nodes.len()
    &&& a != b
    &&& c.nodes[a] is Root
    &&& size_of(c.nodes[a]) >= l.2
    &&& prev.nodes == c.nodes.update(a, Node::Root((size_of(c.nodes[a]) - l.2) as usize)).update(
        b,
        Node::Root(l.2),
    )
    &&& prev.data == c.data.update(a, l.3)
}

/// The core that comes after the `k`-th snapshot.
pub open spec fn next_core<T>(v: UfView<T>, k: int) -> Core<T> {
    if k + 1 < v.snaps.len() {
        v.snaps[k + 1]
    } else {
        v.core
    }
}

/// The cells whose root is `r`.
pub open spec fn members<T>(c: Core<T>, r: int) -> Set<int> {
    Set::new(|x: int| 0 <= x < c.nodes.len() && root_of(c, x) == r)
}

/// Each root records the number of cells in its component.
pub open spec fn sizes_exact<T>(c: Core<T>) -> bool {
    forall|r: int|
        0 <= r < c.nodes.len() && (#[trigger] c.nodes[r]) is Root ==> members(c, r).finite() && members(c, r).len()
            == size_of(c.nodes[r])
}

pub open spec fn view_wf<T>(v: UfView<T>) -> bool {
    let n = v.core.nodes.len();
    &&& core_wf(v.core, n)
    &&& sizes_exact(v.core)
    &&& forall|k: int| 0 <= k < v.snaps.len() ==> sizes_exact(#[trigger] v.snaps[k])
    &&& core_wf(v.init, n)
    &&& core_fresh(v.init)
    &&& v.snaps.len() == v.history.len()
    &&& v.snaps.len() == 0 ==> v.core == v.init
    &&& v.snaps.len() > 0 ==> v.snaps[0] == v.init
    &&& forall|k: int| 0 <= k < v.snaps.len() ==> core_wf(#[trigger] v.snaps[k], n)
    &&& forall|k: int|
        0 <= k < v.snaps.len() ==> undo_core(next_core(v, k), v.history[k], #[trigger] v.snaps[k])
}

/// The model after a union of the components of `u` and `v` that the payloads accept.
pub open spec fn united<T: Unite>(m: UfView<T>, u: usize, v: usize) -> UfView<T> {
    let c = m.core;
    let ra = root_of(c, u as int);
    let rb = root_of(c, v as int);
    let sa = size_of(c.nodes[ra]);
    let sb = size_of(c.nodes[rb]);
    let a = if sa < sb { rb } else { ra };
    let b = if sa < sb { ra } else { rb };
    let link = c.data[ra].spec_unite(c.data[rb], u, v)->Some_0;
    let new_rank = if c.rank[a] > c.rank[b] + 1 { c.rank[a] } else { c.rank[b] + 1 };
    let new_core = Core {
        nodes: c.nodes.update(a, Node::Root((sa + sb) as usize)).update(b, Node::NonRoot(a as usize)),
        data: c.data.update(a, link),
        rank: c.rank.update(a, new_rank),
        top: if c.top > new_rank { c.top } else { new_rank },
    };
    UfView {
        core: new_core,
        history: m.history.push(Log(a as usize, b as usize, size_of(c.nodes[b]) as usize, c.data[a])),
        snaps: m.snaps.push(c),
        init: m.init,
    }
}

/// Whether a union of the components of `u` and `v` is carried out.
pub open spec fn accepts<T: Unite>(m: UfView<T>, u: usize, v: usize) -> bool {
    let ra = root_of(m.core, u as int);
    let rb = root_of(m.core, v as int);
    ra != rb && m.core.data[ra].spec_unite(m.core.data[rb], u, v) is Some
}

/// The model after a call of `unite`, whether it joins or not.
pub open spec fn after_unite<T: Unite>(m: UfView<T>, u: usize, v: usize) -> UfView<T> {
    if accepts(m, u, v) {
        united(m, u, v)
    } else {
        m
    }
}

/// The model after `undo`: the last snapshot comes back.
pub open spec fn undone<T>(m: UfView<T>) -> UfView<T> {
    UfView {
        core: m.snaps.last(),
        history: m.history.drop_last(),
        snaps: m.snaps.drop_last(),
        init: m.init,
    }
}

proof fn lemma_size_sum_update(s: Seq<Node>, i: int, x: Node)
    requires
        0 <= i < s.len(),
    ensures
        size_sum(s.update(i, x)) + size_of(s[i]) == size_sum(s) + size_of(x),
    decreases s.len(),
{
    if i == s.len() - 1 {
        assert(s.update(i, x).drop_last() =~= s.drop_last());
    } else {
        lemma_size_sum_update(s.drop_last(), i, x);
        assert(s.update(i, x).drop_last() =~= s.drop_last().update(i, x));
    }
}

proof fn lemma_size_sum_two(s: Seq<Node>, i: int, j: int)
    requires
        0 <= i < s.len(),
        0 <= j < s.len(),
        i != j,
    ensures
        size_of(s[i]) + size_of(s[j]) <= size_sum(s),
    decreases s.len(),
{
    lemma_size_sum_one(s.drop_last(), if i < j { i } else { j });
    if i != s.len() - 1 && j != s.len() - 1 {
        lemma_size_sum_two(s.drop_last(), i, j);
    }
}

proof fn lemma_size_sum_one(s: Seq<Node>, i: int)
    ensures
        0 <= i < s.len() ==> size_of(s[i]) <= size_sum(s),
    decreases s.len(),
{
    if s.len() > 0 {
        lemma_size_sum_one(s.drop_last(), i);
    }
}

/// The root of a well-formed core is an index of it, and a root.
pub proof fn lemma_root_is_root<T>(c: Core<T>, u: int)
    requires
        core_wf(c, c.nodes.len()),
        0 <= u < c.nodes.len(),
    ensures
        0 <= root_of(c, u) < c.nodes.len(),
        c.nodes[root_of(c, u)] is Root,
    decreases c.top - c.rank[u],
{
    if c.nodes[u] is NonRoot {
        let p = c.nodes[u]->NonRoot_0 as int;
        assert(c.rank[p] <= c.top);
        lemma_root_is_root(c, p);
    }
}

/// After root `b` is linked under root `a`, a cell's root is `a` if it was `a`
/// or `b`, and is unchanged otherwise.
pub proof fn lemma_link_roots<T>(c: Core<T>, nc: Core<T>, a: int, b: int, s: usize, x: int)
    requires
        core_wf(c, c.nodes.len()),
        core_wf(nc, c.nodes.len()),
        c.nodes.len() <= usize::MAX,
        0 <= a < c.nodes.len(),
        0 <= b < c.nodes.len(),
        a != b,
        c.nodes[a] is Root,
        c.nodes[b] is Root,
        nc.nodes == c.nodes.update(a, Node::Root(s)).update(b, Node::NonRoot(a as usize)),
        forall|i: int| 0 <= i < c.nodes.len() && i != a ==> nc.rank[i] == c.rank[i],
        0 <= x < c.nodes.len(),
    ensures
        root_of(nc, x) == if root_of(c, x) == a || root_of(c, x) == b {
            a
        } else {
            root_of(c, x)
        },
    decreases c.top - c.rank[x],
{
    if c.nodes[x] is NonRoot {
        let p = c.nodes[x]->NonRoot_0 as int;
        assert(c.rank[p] <= c.top);
        assert(nc.nodes[x] == c.nodes[x]);
        assert(nc.rank[p] <= nc.top);
        assert(nc.rank[x] < nc.rank[p]);
        assert(root_of(nc, x) == root_of(nc, p));
        assert(root_of(c, x) == root_of(c, p));
        lemma_link_roots(c, nc, a, b, s, p);
    } else if x == b {
        assert(nc.nodes[b] == Node::NonRoot(a as usize));
        assert(nc.rank[b] < nc.rank[a]);
        assert(nc.rank[a] <= nc.top);
        assert(root_of(nc, a) == a);
    } else if x == a {
        assert(root_of(nc, a) == a);
    } else {
        assert(nc.nodes[x] == c.nodes[x]);
        assert(root_of(nc, x) == x);
    }
}

/// Pushing the current core on the log keeps every earlier entry reversible.
proof fn lemma_log_after_union<T>(m: UfView<T>, v2: UfView<T>)
    requires
        view_wf(m),
        v2.snaps == m.snaps.push(m.core),
        v2.history.len() == m.history.len() + 1,
        forall|k: int| 0 <= k < m.history.len() ==> v2.history[k] == m.history[k],
        undo_core(v2.core, v2.history.last(), m.core),
    ensures
        forall|k: int|
            0 <= k < v2.snaps.len() ==> undo_core(next_core(v2, k), v2.history[k], #[trigger] v2.snaps[k]),
        forall|k: int| 0 <= k < v2.snaps.len() ==> core_wf(#[trigger] v2.snaps[k], m.core.nodes.len()),
        forall|k: int| 0 <= k < v2.snaps.len() ==> sizes_exact(#[trigger] v2.snaps[k]),
{
    assert forall|k: int| 0 <= k < v2.snaps.len() implies sizes_exact(#[trigger] v2.snaps[k]) by {
        if k < m.snaps.len() {
            assert(v2.snaps[k] == m.snaps[k]);
        }
    }
    assert forall|k: int| 0 <= k < v2.snaps.len() implies undo_core(
        next_core(v2, k),
        v2.history[k],
        #[trigger] v2.snaps[k],
    ) by {
        if k < m.snaps.len() {
            assert(next_core(v2, k) == next_core(m, k));
            assert(v2.snaps[k] == m.snaps[k]);
        }
    }
    assert forall|k: int| 0 <= k < v2.snaps.len() implies core_wf(#[trigger] v2.snaps[k], m.core.nodes.len()) by {
        if k < m.snaps.len() {
            assert(v2.snaps[k] == m.snaps[k]);
        }
    }
}

proof fn lemma_members_finite<T>(c: Core<T>, r: int)
    ensures
        members(c, r).finite(),
{
    let full = vstd::set_lib::set_int_range(0, c.nodes.len() as int);
    vstd::set_lib::lemma_int_range(0, c.nodes.len() as int);
    assert(members(c, r).subset_of(full));
    vstd::set_lib::lemma_len_subset(members(c, r), full);
}

/// Linking root `b` under root `a` with the summed size keeps every root's
/// size equal to its member count.
proof fn lemma_sizes_after_link<T>(c: Core<T>, nc: Core<T>, a: int, b: int, s: usize)
    requires
        core_wf(c, c.nodes.len()),
        core_wf(nc, c.nodes.len()),
        sizes_exact(c),
        c.nodes.len() <= usize::MAX,
        0 <= a < c.nodes.len(),
        0 <= b < c.nodes.len(),
        a != b,
        c.nodes[a] is Root,
        c.nodes[b] is Root,
        s == size_of(c.nodes[a]) + size_of(c.nodes[b]),
        nc.nodes == c.nodes.update(a, Node::Root(s)).update(b, Node::NonRoot(a as usize)),
        forall|i: int| 0 <= i < c.nodes.len() && i != a ==> nc.rank[i] == c.rank[i],
    ensures
        sizes_exact(nc),
{
    let n = c.nodes.len();
    assert forall|r: int| 0 <= r < n && (#[trigger] nc.nodes[r]) is Root implies members(nc, r).finite()
        && members(nc, r).len() == size_of(nc.nodes[r]) by {
        lemma_members_finite(nc, r);
        assert forall|x: int| #[trigger] members(nc, r).contains(x) <==> (if r == a {
            members(c, a).contains(x) || members(c, b).contains(x)
        } else {
            members(c, r).contains(x)
        }) by {
            if 0 <= x < n {
                lemma_link_roots(c, nc, a, b, s, x);
            }
        }
        if r == a {
            assert(members(nc, a) =~= members(c, a).union(members(c, b)));
            assert(members(c, a).disjoint(members(c, b)));
            vstd::set_lib::lemma_set_disjoint_lens(members(c, a), members(c, b));
        } else {
            assert(r != b);
            assert(members(nc, r) =~= members(c, r));
            assert(nc.nodes[r] == c.nodes[r]);
        }
    }
}

/// A fresh core has components of one cell each.
proof fn lemma_sizes_fresh<T>(c: Core<T>)
    requires
        core_fresh(c),
    ensures
        sizes_exact(c),
{
    assert forall|r: int| 0 <= r < c.nodes.len() && (#[trigger] c.nodes[r]) is Root implies members(c, r).finite()
        && members(c, r).len() == size_of(c.nodes[r]) by {
        assert forall|x: int| #[trigger] members(c, r).contains(x) <==> x == r by {
            if 0 <= x < c.nodes.len() {
                assert(c.nodes[x] == Node::Root(1));
            }
        }
        assert(members(c, r) =~= set![r]);
    }
}

/// A union that the payloads accept keeps the model well formed.
#[verifier::rlimit(50)]
proof fn lemma_united_wf<T: Unite>(m: UfView<T>, u: usize, v: usize)
    requires
        view_wf(m),
        m.core.nodes.len() <= usize::MAX,
        u < m.core.nodes.len(),
        v < m.core.nodes.len(),
        accepts(m, u, v),
    ensures
        view_wf(united(m, u, v)),
{
    let c = m.core;
    let n = c.nodes.len();
    lemma_root_is_root(c, u as int);
    lemma_root_is_root(c, v as int);
    let ra = root_of(c, u as int);
    let rb = root_of(c, v as int);
    let sa0 = size_of(c.nodes[ra]);
    let sb0 = size_of(c.nodes[rb]);
    let a = if sa0 < sb0 { rb } else { ra };
    let b = if sa0 < sb0 { ra } else { rb };
    let sa = size_of(c.nodes[a]);
    let sb = size_of(c.nodes[b]);
    lemma_size_sum_two(c.nodes, a, b);
    let m2 = united(m, u, v);
    let nc = m2.core;
    let n1 = c.nodes.update(a, Node::Root((sa + sb) as usize));
    lemma_size_sum_update(c.nodes, a, Node::Root((sa + sb) as usize));
    lemma_size_sum_update(n1, b, Node::NonRoot(a as usize));
    assert(core_wf(nc, n));
    assert(c.nodes =~= nc.nodes.update(a, Node::Root((size_of(nc.nodes[a]) - sb) as usize)).update(
        b,
        Node::Root(sb as usize),
    ));
    assert(c.data =~= nc.data.update(a, c.data[a]));
    assert(undo_core(nc, m2.history.last(), c));
    assert(forall|k: int| 0 <= k < m.history.len() ==> m2.history[k] == m.history[k]);
    lemma_log_after_union(m, m2);
    lemma_sizes_after_link(c, nc, a, b, (sa + sb) as usize);
}

impl Node {
    fn size(&self) -> (r: usize)
        requires
            *self is Root,
        ensures
            r == size_of(*self),
    {
        match self {
            Node::Root(size) => *size,
            Node::NonRoot(_) => 0,
        }
    }
}

/// A disjoint-set structure over the indices `0..n` with a payload per
/// component, union by size, no path compression, and an undo log that
/// reverses unions in LIFO order.
pub struct UnionFind<T> {
    nodes: Vec<Node>,
    data: Vec<T>,
    history: Vec<Log<T>>,
    rank: Ghost<Seq<nat>>,
    top: Ghost<nat>,
    snaps: Ghost<Seq<Core<T>>>,
    init: Ghost<Core<T>>,
}

impl<T> View for UnionFind<T> {
    type V = UfView<T>;

    closed spec fn view(&self) -> UfView<T> {
        UfView {
            core: Core { nodes: self.nodes@, data: self.data@, rank: self.rank@, top: self.top@ },
            history: self.history@,
            snaps: self.snaps@,
            init: self.init@,
        }
    }
}

impl<T: Copy + Unite> UnionFind<T> {
    pub open spec fn wf(&self) -> bool {
        view_wf(self@)
    }

    pub open spec fn size(&self) -> nat {
        self@.core.nodes.len()
    }

    /// The root of `u`'s component.
    pub open spec fn root(&self, u: int) -> int {
        root_of(self@.core, u)
    }

    /// The payload of `u`'s component.
    pub open spec fn payload(&self, u: int) -> T {
        self@.core.data[self.root(u)]
    }

    /// Every index its own component, holding the given payloads.
    pub fn from(data: Vec<T>) -> (r: Self)
        ensures
            r.wf(),
            r.size() == data@.len(),
            r@.core == r@.init,
            r@.core.data == data@,
            r@.history.len() == 0,
            core_fresh(r@.core),
    {
        let n = data.len();
        let mut nodes: Vec<Node> = Vec::new();
        let mut i: usize = 0;
        while i < n
            invariant
                i <= n,
                nodes@.len() == i,
                size_sum(nodes@) == i,
                forall|j: int| 0 <= j < i ==> #[trigger] nodes@[j] == Node::Root(1),
            decreases n - i,
        {
            let ghost before = nodes@;
            nodes.push(Node::Root(1));
            assert(nodes@.drop_last() =~= before);
            i += 1;
        }
        let ghost rank = Seq::new(n as nat, |j: int| 0nat);
        let ghost core = Core { nodes: nodes@, data: data@, rank, top: 0nat };
        proof {
            lemma_sizes_fresh(core);
        }
        UnionFind {
            nodes,
            data,
            history: Vec::new(),
            rank: Ghost(rank),
            top: Ghost(0nat),
            snaps: Ghost(Seq::empty()),
            init: Ghost(core),
        }
    }

    fn find(&self, u: usize) -> (r: usize)
        requires
            self.wf(),
            u < self.size(),
        ensures
            r == self.root(u as int),
            r < self.size(),
    {
        let ghost c = self@.core;
        proof {
            lemma_root_is_root(c, u as int);
        }
        let mut x = u;
        loop
            invariant
                self.wf(),
                c == self@.core,
                x < self.size(),
                root_of(c, x as int) == root_of(c, u as int),
            decreases c.top - c.rank[x as int],
        {
            match self.nodes[x] {
                Node::NonRoot(p) => {
                    assert(c.rank[p as int] <= c.top);
                    x = p;
                },
                Node::Root(_) => {
                    return x;
                },
            }
        }
    }

    /// Whether `u` and `v` are in one component.
    pub fn same(&self, u: usize, v: usize) -> (r: bool)
        requires
            self.wf(),
            u < self.size(),
            v < self.size(),
        ensures
            r == (self.root(u as int) == self.root(v as int)),
    {
        self.find(u) == self.find(v)
    }

    /// The payload of `u`'s component.
    pub fn get_data(&self, u: usize) -> (r: T)
        requires
            self.wf(),
            u < self.size(),
        ensures
            r == self.payload(u as int),
    {
        self.data[self.find(u)]
    }

    /// Joins the components of `u` and `v` if they differ and their payloads
    /// accept the join; returns whether it did.
    #[verifier::rlimit(100)]
    pub fn unite(&mut self, u: usize, v: usize) -> (r: bool)
        requires
            old(self).wf(),
            u < old(self).size(),
            v < old(self).size(),
        ensures
            final(self).wf(),
            r == accepts(old(self)@, u, v),
            final(self)@ == after_unite(old(self)@, u, v),
    {
        let ghost m = self@;
        let ghost c = self@.core;
        let n = self.nodes.len();
        let ra = self.find(u);
        let rb = self.find(v);
        proof {
            lemma_root_is_root(c, u as int);
            lemma_root_is_root(c, v as int);
        }
        if ra == rb {
            return false;
        }
        match self.data[ra].unite(self.data[rb], u, v) {
            None => false,
            Some(link) => {
                let mut a = ra;
                let mut b = rb;
                if self.nodes[ra].size() < self.nodes[rb].size() {
                    a = rb;
                    b = ra;
                }
                let sa = self.nodes[a].size();
                let sb = self.nodes[b].size();
                proof {
                    lemma_size_sum_two(c.nodes, a as int, b as int);
                }
                self.history.push(Log(a, b, sb, self.data[a]));
                self.nodes.set(a, Node::Root(sa + sb));
                self.nodes.set(b, Node::NonRoot(a));
                self.data.set(a, link);
                let ghost ranka = if c.rank[a as int] > c.rank[b as int] + 1 {
                    c.rank[a as int]
                } else {
                    c.rank[b as int] + 1
                };
                proof {
                    self.rank@ = c.rank.update(a as int, ranka);
                    self.top@ = if c.top > ranka { c.top } else { ranka };
                    self.snaps@ = m.snaps.push(c);
                    assert(self@ == united(m, u, v));
                    lemma_united_wf(m, u, v);
                }
                true
            },
        }
    }

    /// Reverses the most recent successful `unite`.
    pub fn undo(&mut self)
        requires
            old(self).wf(),
            old(self)@.history.len() > 0,
        ensures
            final(self).wf(),
            final(self)@ == undone(old(self)@),
            final(self)@.history.len() == 0 ==> final(self)@.core == final(self)@.init,
    {
        let ghost m = self@;
        let ghost k = m.snaps.len() - 1;
        assert(undo_core(next_core(m, k), m.history[k], m.snaps[k]));
        let Log(u, v, size_v, link_u) = self.history.pop().unwrap();
        let su = self.nodes[u].size();
        self.nodes.set(u, Node::Root(su - size_v));
        self.nodes.set(v, Node::Root(size_v));
        self.data.set(u, link_u);
        proof {
            let prev = m.snaps[k];
            self.rank@ = prev.rank;
            self.top@ = prev.top;
            self.snaps@ = m.snaps.drop_last();
            assert(self@.core.nodes =~= prev.nodes);
            assert(self@.core.data =~= prev.data);
            assert(self@ == undone(m));
            let v2 = self@;
            assert forall|j: int| 0 <= j < v2.snaps.len() implies undo_core(
                next_core(v2, j),
                v2.history[j],
                #[trigger] v2.snaps[j],
            ) by {
                assert(next_core(v2, j) == next_core(m, j));
                assert(v2.history[j] == m.history[j]);
                assert(v2.snaps[j] == m.snaps[j]);
            }
            assert forall|j: int| 0 <= j < v2.snaps.len() implies core_wf(
                #[trigger] v2.snaps[j],
                m.core.nodes.len(),
            ) by {
                assert(v2.snaps[j] == m.snaps[j]);
            }
        }
    }
}

/// Undoing every logged union brings the structure back to the state right after
/// construction: every index its own root of size one, with the payload it was built with.
pub proof fn lemma_undo_all_restores<T: Copy + Unite>(uf: &UnionFind<T>)
    requires
        uf.wf(),
        uf@.history.len() == 0,
    ensures
        uf@.core == uf@.init,
        core_fresh(uf@.core),
        forall|i: int| 0 <= i < uf.size() ==> uf.root(i) == i,
{
    assert forall|i: int| 0 <= i < uf.size() implies uf.root(i) == i by {
        assert(uf@.core.nodes[i] == Node::Root(1));
    }
}

/// The size recorded at a root is the number of cells in its component.
pub proof fn lemma_root_size<T: Copy + Unite>(uf: &UnionFind<T>, r: int)
    requires
        uf.wf(),
        0 <= r < uf.size(),
        uf@.core.nodes[r] is Root,
    ensures
        members(uf@.core, r).finite(),
        members(uf@.core, r).len() == size_of(uf@.core.nodes[r]),
{
}

} // verus!
