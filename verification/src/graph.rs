//! The lock graph: a directed graph over numbered candidates that stays
//! acyclic, because an edge that would close a cycle is never added.
use vstd::prelude::*;

verus! {

/// The step that a list of nodes takes at position `k`.
pub open spec fn hop(p: Seq<usize>, k: int) -> (usize, usize) {
    (p[k], p[k + 1])
}

/// A walk lists at least two nodes, each joined to the next by an edge.
pub open spec fn is_walk(edges: Seq<(usize, usize)>, p: Seq<usize>) -> bool {
    &&& p.len() >= 2
    &&& forall|k: int| 0 <= k < p.len() - 1 ==> edges.contains(#[trigger] hop(p, k))
}

/// Whether one or more edges lead from `a` to `b`.
pub open spec fn reaches(edges: Seq<(usize, usize)>, a: usize, b: usize) -> bool {
    exists|p: Seq<usize>| is_walk(edges, p) && p[0] == a && p.last() == b
}

/// No node can be left and reached again.
pub open spec fn acyclic(edges: Seq<(usize, usize)>) -> bool {
    forall|a: usize| !reaches(edges, a, a)
}

/// Whether `e` may be locked in beside `edges`: it is no loop, it is not
/// there yet, and nothing leads from its target back to its source.
pub open spec fn admits(edges: Seq<(usize, usize)>, e: (usize, usize)) -> bool {
    e.0 != e.1 && !edges.contains(e) && !reaches(edges, e.1, e.0)
}

/// The edges after `e` was proposed: `e` is appended if it is admitted, and
/// dropped for good if it is not.
pub open spec fn lock_step(edges: Seq<(usize, usize)>, e: (usize, usize)) -> Seq<(usize, usize)> {
    if admits(edges, e) {
        edges.push(e)
    } else {
        edges
    }
}

/// The edges locked in after the proposals of `order` were made one by one,
/// first to last.
pub open spec fn lock_all(order: Seq<(usize, usize)>) -> Seq<(usize, usize)>
    decreases order.len(),
{
    if order.len() == 0 {
        Seq::empty()
    } else {
        lock_step(lock_all(order.drop_last()), order.last())
    }
}

/// Whether no edge points at `c`.
pub open spec fn is_root(edges: Seq<(usize, usize)>, c: usize) -> bool {
    forall|k: int| 0 <= k < edges.len() ==> (#[trigger] edges[k]).1 != c
}

/// Whether both ends of every edge are below `nodes`.
pub open spec fn edges_within(edges: Seq<(usize, usize)>, nodes: usize) -> bool {
    forall|k: int| 0 <= k < edges.len() ==> (#[trigger] edges[k]).0 < nodes && edges[k].1 < nodes
}

/// Whether `m` has `n` rows of `n` entries.
pub open spec fn is_square(m: Seq<Vec<bool>>, n: usize) -> bool {
    &&& m.len() == n
    &&& forall|a: int| 0 <= a < n ==> (#[trigger] m[a])@.len() == n
}

/// A walk stays a walk when an edge is added.
pub proof fn lemma_reaches_monotone(edges: Seq<(usize, usize)>, e: (usize, usize), a: usize, b: usize)
    requires
        reaches(edges, a, b),
    ensures
        reaches(edges.push(e), a, b),
{
    let p = choose|p: Seq<usize>| is_walk(edges, p) && p[0] == a && p.last() == b;
    assert forall|k: int| 0 <= k < p.len() - 1 implies edges.push(e).contains(
        #[trigger] hop(p, k),
    ) by {
        let i = choose|i: int| 0 <= i < edges.len() && edges[i] == hop(p, k);
        assert(edges.push(e)[i] == hop(p, k));
    }
    assert(is_walk(edges.push(e), p));
}

/// An edge is a walk of one step.
pub proof fn lemma_edge_reaches(edges: Seq<(usize, usize)>, a: usize, b: usize)
    requires
        edges.contains((a, b)),
    ensures
        reaches(edges, a, b),
{
    let p = seq![a, b];
    assert forall|k: int| 0 <= k < p.len() - 1 implies edges.contains(#[trigger] hop(p, k)) by {
        assert(hop(p, k) == (a, b));
    }
    assert(is_walk(edges, p));
    assert(p[0] == a && p.last() == b);
}

/// Two walks that meet make one walk.
pub proof fn lemma_reaches_transitive(edges: Seq<(usize, usize)>, a: usize, b: usize, c: usize)
    requires
        reaches(edges, a, b),
        reaches(edges, b, c),
    ensures
        reaches(edges, a, c),
{
    let p = choose|p: Seq<usize>| is_walk(edges, p) && p[0] == a && p.last() == b;
    let q = choose|q: Seq<usize>| is_walk(edges, q) && q[0] == b && q.last() == c;
    let r = p + q.drop_first();
    assert forall|k: int| 0 <= k < r.len() - 1 implies edges.contains(#[trigger] hop(r, k)) by {
        if k < p.len() - 1 {
            assert(hop(r, k) == hop(p, k));
        } else {
            let j = k - p.len() + 1;
            assert(r[k] == q[j]);
            assert(r[k + 1] == q[j + 1]);
            assert(hop(r, k) == hop(q, j));
        }
    }
    assert(is_walk(edges, r));
    assert(r[0] == a && r.last() == c);
}

/// What adding the edge from `w` to `l` does to reachability: the new walks
/// are those that come to `w`, cross the edge and go on from `l`.
pub open spec fn reaches_through(
    edges: Seq<(usize, usize)>,
    w: usize,
    l: usize,
    a: usize,
    b: usize,
) -> bool {
    reaches(edges, a, b) || ((a == w || reaches(edges, a, w)) && (b == l || reaches(edges, l, b)))
}

/// A walk in the grown graph either stays in the old one or comes to `w`,
/// crosses the new edge and goes on from `l`.
proof fn lemma_walk_through(edges: Seq<(usize, usize)>, w: usize, l: usize, p: Seq<usize>)
    requires
        is_walk(edges.push((w, l)), p),
    ensures
        reaches_through(edges, w, l, p[0], p.last()),
    decreases p.len(),
{
    let grown = edges.push((w, l));
    let a = p[0];
    let b = p.last();
    let c = p[p.len() - 2];
    assert(grown.contains((c, b))) by {
        assert(hop(p, p.len() - 2) == (c, b));
    }
    let i = choose|i: int| 0 <= i < grown.len() && grown[i] == (c, b);
    let fresh = i == edges.len();
    if !fresh {
        assert(edges[i] == (c, b));
        lemma_edge_reaches(edges, c, b);
    }
    if p.len() == 2 {
        assert(a == c);
    } else {
        let q = p.drop_last();
        assert forall|k: int| 0 <= k < q.len() - 1 implies grown.contains(#[trigger] hop(q, k)) by {
            assert(hop(q, k) == hop(p, k));
        }
        assert(q[0] == a && q.last() == c);
        lemma_walk_through(edges, w, l, q);
        if !fresh {
            if reaches(edges, a, c) {
                lemma_reaches_transitive(edges, a, c, b);
            } else if c != l {
                lemma_reaches_transitive(edges, l, c, b);
            }
        }
    }
}

/// Reachability after the edge from `w` to `l` was added, in terms of
/// reachability before.
pub proof fn lemma_reaches_after_push(
    edges: Seq<(usize, usize)>,
    w: usize,
    l: usize,
    a: usize,
    b: usize,
)
    ensures
        reaches(edges.push((w, l)), a, b) == reaches_through(edges, w, l, a, b),
{
    let grown = edges.push((w, l));
    if reaches(grown, a, b) {
        let p = choose|p: Seq<usize>| is_walk(grown, p) && p[0] == a && p.last() == b;
        lemma_walk_through(edges, w, l, p);
    }
    if reaches_through(edges, w, l, a, b) {
        if reaches(edges, a, b) {
            lemma_reaches_monotone(edges, (w, l), a, b);
        } else {
            assert(grown[edges.len() as int] == (w, l));
            lemma_edge_reaches(grown, w, l);
            if a != w {
                lemma_reaches_monotone(edges, (w, l), a, w);
                lemma_reaches_transitive(grown, a, w, l);
            }
            if b != l {
                lemma_reaches_monotone(edges, (w, l), l, b);
                lemma_reaches_transitive(grown, a, l, b);
            }
        }
    }
}

/// An admitted edge closes no cycle.
pub proof fn lemma_admitted_keeps_acyclic(edges: Seq<(usize, usize)>, e: (usize, usize))
    requires
        acyclic(edges),
        admits(edges, e),
    ensures
        acyclic(edges.push(e)),
{
    assert forall|a: usize| !reaches(edges.push(e), a, a) by {
        lemma_reaches_after_push(edges, e.0, e.1, a, a);
        if a != e.0 && a != e.1 && reaches(edges, a, e.0) && reaches(edges, e.1, a) {
            lemma_reaches_transitive(edges, e.1, a, e.0);
        }
    }
}

/// Without edges nothing is reached.
pub proof fn lemma_empty_reaches_nothing(a: usize, b: usize)
    ensures
        !reaches(Seq::<(usize, usize)>::empty(), a, b),
{
    let edges = Seq::<(usize, usize)>::empty();
    if reaches(edges, a, b) {
        let p = choose|p: Seq<usize>| is_walk(edges, p) && p[0] == a && p.last() == b;
        assert(edges.contains(hop(p, 0)));
    }
}

/// Whatever is proposed, and in whatever order, the locked edges are among
/// the proposals, hold no edge twice and close no cycle.
pub proof fn lemma_lock_all_acyclic(order: Seq<(usize, usize)>)
    ensures
        acyclic(lock_all(order)),
        lock_all(order).no_duplicates(),
        forall|e: (usize, usize)| lock_all(order).contains(e) ==> order.contains(e),
    decreases order.len(),
{
    if order.len() == 0 {
        assert forall|a: usize| !reaches(lock_all(order), a, a) by {
            lemma_empty_reaches_nothing(a, a);
        }
    } else {
        let before = lock_all(order.drop_last());
        let e = order.last();
        let after = lock_all(order);
        assert(after == lock_step(before, e));
        lemma_lock_all_acyclic(order.drop_last());
        if admits(before, e) {
            lemma_admitted_keeps_acyclic(before, e);
        }
        assert forall|x: (usize, usize)| after.contains(x) implies order.contains(x) by {
            let i = choose|i: int| 0 <= i < after.len() && after[i] == x;
            if i < before.len() {
                assert(before[i] == x);
                assert(before.contains(x));
                assert(order.drop_last().contains(x));
                let j = choose|j: int| 0 <= j < order.drop_last().len() && order.drop_last()[j] == x;
                assert(order[j] == x);
            } else {
                assert(order[order.len() - 1] == x);
            }
        }
    }
}

/// Whether some candidate at which no edge points leads to `v`, or is `v`.
pub open spec fn led_by_root(edges: Seq<(usize, usize)>, n: usize, v: usize) -> bool {
    exists|r: usize| r < n && is_root(edges, r) && (r == v || reaches(edges, r, v))
}

/// Whatever is proposed, every candidate is led by one at which no locked
/// edge points. So where there is a candidate, there is one that nothing
/// beats.
pub proof fn lemma_lock_all_rooted(order: Seq<(usize, usize)>, n: usize)
    requires
        edges_within(order, n),
    ensures
        forall|v: usize| v < n ==> led_by_root(lock_all(order), n, v),
    decreases order.len(),
{
    let after = lock_all(order);
    if order.len() == 0 {
        assert forall|v: usize| v < n implies led_by_root(after, n, v) by {
            assert(is_root(after, v));
        }
    } else {
        let earlier = order.drop_last();
        let before = lock_all(earlier);
        let e = order.last();
        assert(e == order[order.len() - 1]);
        assert forall|k: int| 0 <= k < earlier.len() implies (#[trigger] earlier[k]).0 < n && earlier[k].1
            < n by {
            assert(earlier[k] == order[k]);
        }
        lemma_lock_all_rooted(earlier, n);
        if admits(before, e) {
            let w = e.0;
            let l = e.1;
            assert forall|r: usize| is_root(before, r) && r != l implies is_root(after, r) by {
                assert forall|k: int| 0 <= k < after.len() implies (#[trigger] after[k]).1 != r by {
                    if k < before.len() {
                        assert(after[k] == before[k]);
                    }
                }
            }
            assert(led_by_root(before, n, w));
            let rw = choose|r: usize| r < n && is_root(before, r) && (r == w || reaches(before, r, w));
            assert forall|v: usize| v < n implies led_by_root(after, n, v) by {
                assert(led_by_root(before, n, v));
                let r = choose|r: usize|
                    r < n && is_root(before, r) && (r == v || reaches(before, r, v));
                if r != l {
                    if r != v {
                        lemma_reaches_monotone(before, e, r, v);
                    }
                    assert(is_root(after, r));
                } else {
                    lemma_reaches_after_push(before, w, l, rw, v);
                    assert(is_root(after, rw));
                }
            }
        }
    }
}

/// The lock graph over the candidates numbered below a fixed count. It holds
/// the locked edges in the order in which they were locked.
pub struct LockGraph {
    nodes: usize,
    edges: Vec<(usize, usize)>,
    closure: Vec<Vec<bool>>,
}

impl View for LockGraph {
    type V = Seq<(usize, usize)>;

    closed spec fn view(&self) -> Seq<(usize, usize)> {
        self.edges@
    }
}

/// One row of the table of reachable pairs after the edge from `w` to `l`
/// was added.
fn closure_row(closure: &Vec<Vec<bool>>, n: usize, w: usize, l: usize, a: usize) -> (row: Vec<bool>)
    requires
        is_square(closure@, n),
        w < n,
        l < n,
        a < n,
    ensures
        row@.len() == n,
        forall|b: int|
            0 <= b < n ==> (#[trigger] row@[b]) == (closure@[a as int]@[b] || ((a == w
                || closure@[a as int]@[w as int]) && (b == l || closure@[l as int]@[b]))),
{
    let to_w: bool = a == w || closure[a][w];
    let mut row: Vec<bool> = Vec::new();
    let mut b: usize = 0;
    while b < n
        invariant
            is_square(closure@, n),
            w < n,
            l < n,
            a < n,
            b <= n,
            row@.len() == b,
            to_w == (a == w || closure@[a as int]@[w as int]),
            forall|y: int|
                0 <= y < b ==> (#[trigger] row@[y]) == (closure@[a as int]@[y] || (to_w && (y == l
                    || closure@[l as int]@[y]))),
        decreases n - b,
    {
        let v: bool = closure[a][b] || (to_w && (b == l || closure[l][b]));
        row.push(v);
        b = b + 1;
    }
    row
}

/// The table of reachable pairs after the edge from `w` to `l` was added.
fn grown_closure(closure: &Vec<Vec<bool>>, n: usize, w: usize, l: usize) -> (out: Vec<Vec<bool>>)
    requires
        is_square(closure@, n),
        w < n,
        l < n,
    ensures
        is_square(out@, n),
        forall|a: int, b: int|
            0 <= a < n && 0 <= b < n ==> (#[trigger] out@[a]@[b]) == (closure@[a]@[b] || ((a == w
                || closure@[a]@[w as int]) && (b == l || closure@[l as int]@[b]))),
{
    let mut out: Vec<Vec<bool>> = Vec::new();
    let mut a: usize = 0;
    while a < n
        invariant
            is_square(closure@, n),
            w < n,
            l < n,
            a <= n,
            out@.len() == a,
            forall|x: int| 0 <= x < a ==> (#[trigger] out@[x])@.len() == n,
            forall|x: int, y: int|
                0 <= x < a && 0 <= y < n ==> (#[trigger] out@[x]@[y]) == (closure@[x]@[y] || ((x
                    == w || closure@[x]@[w as int]) && (y == l || closure@[l as int]@[y]))),
        decreases n - a,
    {
        let row = closure_row(closure, n, w, l, a);
        out.push(row);
        a = a + 1;
    }
    out
}

impl LockGraph {
    /// The number of candidates that the graph is over.
    pub closed spec fn nodes(&self) -> usize {
        self.nodes
    }

    /// Whether the table of reachable pairs agrees with the edges.
    pub closed spec fn closure_tracks(&self) -> bool {
        &&& is_square(self.closure@, self.nodes)
        &&& forall|a: int, b: int|
            0 <= a < self.nodes && 0 <= b < self.nodes ==> (#[trigger] self.closure@[a]@[b])
                == reaches(self.edges@, a as usize, b as usize)
    }

    /// The graph's invariant: its edges join candidates below the count,
    /// none occurs twice, and there is no cycle.
    pub open spec fn wf(&self) -> bool {
        &&& edges_within(self@, self.nodes())
        &&& self@.no_duplicates()
        &&& acyclic(self@)
        &&& self.closure_tracks()
    }

    /// A graph over `nodes` candidates, without edges.
    pub fn new(nodes: usize) -> (g: LockGraph)
        ensures
            g.wf(),
            g.nodes() == nodes,
            g@ == Seq::<(usize, usize)>::empty(),
    {
        let mut closure: Vec<Vec<bool>> = Vec::new();
        let mut a: usize = 0;
        while a < nodes
            invariant
                a <= nodes,
                closure@.len() == a,
                forall|x: int| 0 <= x < a ==> (#[trigger] closure@[x])@.len() == nodes,
                forall|x: int, y: int| 0 <= x < a && 0 <= y < nodes ==> !(#[trigger] closure@[x]@[y]),
            decreases nodes - a,
        {
            let mut row: Vec<bool> = Vec::new();
            let mut b: usize = 0;
            while b < nodes
                invariant
                    b <= nodes,
                    row@.len() == b,
                    forall|y: int| 0 <= y < b ==> !(#[trigger] row@[y]),
                decreases nodes - b,
            {
                row.push(false);
                b = b + 1;
            }
            closure.push(row);
            a = a + 1;
        }
        let g = LockGraph { nodes, edges: Vec::new(), closure };
        proof {
            assert(g.edges@ =~= Seq::<(usize, usize)>::empty());
            assert forall|x: usize, y: usize| !reaches(g.edges@, x, y) by {
                lemma_empty_reaches_nothing(x, y);
            }
        }
        g
    }

    /// The number of candidates that the graph is over.
    pub fn node_count(&self) -> (n: usize)
        ensures
            n == self.nodes(),
    {
        self.nodes
    }

    /// The locked edges, in the order in which they were locked.
    pub fn edges(&self) -> (edges: &Vec<(usize, usize)>)
        ensures
            edges@ == self@,
    {
        &self.edges
    }

    /// Gives the graph up for its locked edges, in the order in which they
    /// were locked.
    pub fn into_edges(self) -> (edges: Vec<(usize, usize)>)
        ensures
            edges@ == self@,
    {
        self.edges
    }

    /// Whether one or more locked edges lead from `a` to `b`.
    pub fn has_path(&self, a: usize, b: usize) -> (r: bool)
        requires
            self.wf(),
            a < self.nodes(),
            b < self.nodes(),
        ensures
            r == reaches(self@, a, b),
    {
        self.closure[a][b]
    }

    /// Whether the edge from `a` to `b` is locked.
    pub fn has_edge(&self, a: usize, b: usize) -> (r: bool)
        ensures
            r == self@.contains((a, b)),
    {
        let mut k: usize = 0;
        while k < self.edges.len()
            invariant
                k <= self.edges@.len(),
                forall|i: int| 0 <= i < k ==> self.edges@[i] != (a, b),
            decreases self.edges@.len() - k,
        {
            let e = self.edges[k];
            if e.0 == a && e.1 == b {
                return true;
            }
            k = k + 1;
        }
        false
    }

    /// Proposes the edge from `winner` to `loser`. It is locked in unless it
    /// would close a cycle (or is a loop, or is locked already); the result
    /// says whether it was locked.
    pub fn try_add_edge(&mut self, winner: usize, loser: usize) -> (added: bool)
        requires
            old(self).wf(),
            winner < old(self).nodes(),
            loser < old(self).nodes(),
        ensures
            final(self).wf(),
            final(self).nodes() == old(self).nodes(),
            added == admits(old(self)@, (winner, loser)),
            final(self)@ == lock_step(old(self)@, (winner, loser)),
    {
        if winner == loser || self.closure[loser][winner] || self.has_edge(winner, loser) {
            return false;
        }
        let closure = grown_closure(&self.closure, self.nodes, winner, loser);
        proof {
            let edges = self.edges@;
            lemma_admitted_keeps_acyclic(edges, (winner, loser));
            assert forall|a: int, b: int| 0 <= a < self.nodes && 0 <= b < self.nodes implies (
            #[trigger] closure@[a]@[b]) == reaches(
                edges.push((winner, loser)),
                a as usize,
                b as usize,
            ) by {
                lemma_reaches_after_push(edges, winner, loser, a as usize, b as usize);
                assert(self.closure@[a]@[b] == reaches(edges, a as usize, b as usize));
                assert(self.closure@[a]@[winner as int] == reaches(edges, a as usize, winner));
                assert(self.closure@[loser as int]@[b] == reaches(edges, loser, b as usize));
            }
        }
        self.edges.push((winner, loser));
        self.closure = closure;
        true
    }

    /// The candidates at which no locked edge points, in ascending order.
    pub fn roots(&self) -> (roots: Vec<usize>)
        requires
            self.wf(),
        ensures
            forall|i: int, j: int| 0 <= i < j < roots@.len() ==> roots@[i] < roots@[j],
            forall|c: usize| roots@.contains(c) <==> c < self.nodes() && is_root(self@, c),
    {
        let mut roots: Vec<usize> = Vec::new();
        let mut c: usize = 0;
        while c < self.nodes
            invariant
                c <= self.nodes,
                forall|i: int| 0 <= i < roots@.len() ==> (#[trigger] roots@[i]) < c,
                forall|i: int, j: int| 0 <= i < j < roots@.len() ==> roots@[i] < roots@[j],
                forall|x: usize| roots@.contains(x) <==> x < c && is_root(self.edges@, x),
            decreases self.nodes - c,
        {
            let mut k: usize = 0;
            let mut beaten: bool = false;
            while k < self.edges.len()
                invariant
                    k <= self.edges@.len(),
                    beaten == !is_root(self.edges@.take(k as int), c),
                decreases self.edges@.len() - k,
            {
                if self.edges[k].1 == c {
                    beaten = true;
                }
                proof {
                    let shorter = self.edges@.take(k as int);
                    let longer = self.edges@.take(k as int + 1);
                    assert(longer[k as int] == self.edges@[k as int]);
                    if !is_root(shorter, c) {
                        let i = choose|i: int| 0 <= i < shorter.len() && shorter[i].1 == c;
                        assert(longer[i].1 == c);
                    }
                    if is_root(shorter, c) && self.edges@[k as int].1 != c {
                        assert forall|i: int| 0 <= i < longer.len() implies (#[trigger] longer[i]).1
                            != c by {
                            if i < k {
                                assert(shorter[i] == longer[i]);
                            }
                        }
                    }
                }
                k = k + 1;
            }
            assert(self.edges@.take(k as int) =~= self.edges@);
            let ghost before = roots@;
            if !beaten {
                roots.push(c);
            }
            proof {
                assert forall|x: usize| roots@.contains(x) <==> x < c + 1 && is_root(
                    self.edges@,
                    x,
                ) by {
                    if roots@.contains(x) {
                        let i = choose|i: int| 0 <= i < roots@.len() && roots@[i] == x;
                        if i < before.len() {
                            assert(before[i] == x);
                            assert(before.contains(x));
                        }
                    }
                    if x < c + 1 && is_root(self.edges@, x) {
                        if x < c {
                            assert(before.contains(x));
                            let i = choose|i: int| 0 <= i < before.len() && before[i] == x;
                            assert(roots@[i] == x);
                        } else {
                            assert(roots@[roots@.len() - 1] == x);
                        }
                    }
                }
            }
            c = c + 1;
        }
        roots
    }
}

} // verus!
