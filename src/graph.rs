//! The undirected tile-adjacency graph, as one neighbour list per node.
use vstd::prelude::*;

verus! {

/// An undirected simple graph over nodes `0..node_count()`.
pub struct AdjacencyGraph {
    adj: Vec<Vec<u32>>,
}

/// The neighbour lists of a graph.
pub open spec fn lists_view(adj: Seq<Vec<u32>>) -> Seq<Seq<u32>> {
    Seq::new(adj.len(), |i: int| adj[i]@)
}

/// Nodes `a` and `b` are joined by an edge.
pub open spec fn has_edge(g: Seq<Seq<u32>>, a: int, b: int) -> bool {
    0 <= a < g.len() && 0 <= b < g.len() && g[a].contains(b as u32)
}

/// Each list names nodes of the graph, never its own node and never one node twice,
/// and an edge listed at one end is listed at the other.
pub open spec fn graph_wf(g: Seq<Seq<u32>>) -> bool {
    &&& g.len() <= u32::MAX
    &&& forall|a: int, i: int|
        0 <= a < g.len() && 0 <= i < g[a].len() ==> #[trigger] g[a][i] < g.len() && g[a][i] != a
    &&& forall|a: int, i: int, j: int|
        0 <= a < g.len() && 0 <= i < j < g[a].len() ==> #[trigger] g[a][i] != #[trigger] g[a][j]
    &&& forall|a: int, b: int| #[trigger] has_edge(g, a, b) ==> has_edge(g, b, a)
}

impl View for AdjacencyGraph {
    type V = Seq<Seq<u32>>;

    closed spec fn view(&self) -> Seq<Seq<u32>> {
        lists_view(self.adj@)
    }
}

/// Every edge of a well-formed graph is seen from both of its ends, and joins two
/// distinct nodes.
pub proof fn lemma_symmetric_loop_free(g: &AdjacencyGraph, a: int, b: int)
    requires
        g.wf(),
        has_edge(g@, a, b),
    ensures
        has_edge(g@, b, a),
        a != b,
{
    let i = choose|i: int| 0 <= i < g@[a].len() && g@[a][i] == b as u32;
    assert(g@[a][i] != a);
}

/// `p` is a walk: consecutive nodes are joined by edges.
pub open spec fn is_walk(g: Seq<Seq<u32>>, p: Seq<int>) -> bool {
    p.len() > 0 && forall|i: int| 0 <= i < p.len() - 1 ==> #[trigger] has_edge(g, p[i], p[i + 1])
}

/// `b` is at most `r` edges away from `a`.
pub open spec fn within(g: Seq<Seq<u32>>, a: int, b: int, r: nat) -> bool {
    exists|p: Seq<int>| #[trigger] is_walk(g, p) && p[0] == a && p.last() == b && p.len() <= r + 1
}

/// `list` holds, once each, exactly the nodes that `visited` marks, and `visited` has
/// one flag per node.
pub open spec fn marks(g: Seq<Seq<u32>>, visited: Seq<bool>, list: Seq<u32>) -> bool {
    &&& visited.len() == g.len()
    &&& forall|i: int| 0 <= i < list.len() ==> #[trigger] list[i] < g.len()
    &&& forall|i: int, j: int| 0 <= i < j < list.len() ==> list[i] != list[j]
    &&& forall|x: int| 0 <= x < g.len() ==> (visited[x] <==> #[trigger] list.contains(x as u32))
}

proof fn lemma_within_zero(g: Seq<Seq<u32>>, a: int, b: int)
    ensures
        within(g, a, b, 0) == (a == b),
{
    if a == b {
        assert(is_walk(g, seq![a]));
    }
}

proof fn lemma_within_step(g: Seq<Seq<u32>>, a: int, b: int, r: nat)
    ensures
        within(g, a, b, (r + 1) as nat) == (within(g, a, b, r) || exists|c: int|
            0 <= c < g.len() && #[trigger] within(g, a, c, r) && has_edge(g, c, b)),
{
    if within(g, a, b, r) {
        let p = choose|p: Seq<int>| #[trigger] is_walk(g, p) && p[0] == a && p.last() == b && p.len() <= r + 1;
        assert(is_walk(g, p) && p[0] == a && p.last() == b && p.len() <= r + 2);
    }
    if exists|c: int| 0 <= c < g.len() && #[trigger] within(g, a, c, r) && has_edge(g, c, b) {
        let c = choose|c: int| 0 <= c < g.len() && #[trigger] within(g, a, c, r) && has_edge(g, c, b);
        let p = choose|p: Seq<int>| #[trigger] is_walk(g, p) && p[0] == a && p.last() == c && p.len() <= r + 1;
        let q = p.push(b);
        assert forall|i: int| 0 <= i < q.len() - 1 implies #[trigger] has_edge(g, q[i], q[i + 1]) by {
            if i < p.len() - 1 {
                assert(has_edge(g, p[i], p[i + 1]));
            }
        }
        assert(is_walk(g, q) && q[0] == a && q.last() == b && q.len() <= r + 2);
    }
    if within(g, a, b, (r + 1) as nat) && !within(g, a, b, r) {
        let p = choose|p: Seq<int>| #[trigger] is_walk(g, p) && p[0] == a && p.last() == b && p.len() <= r + 2;
        if p.len() <= r + 1 {
            assert(within(g, a, b, r));
        } else {
            let q = p.drop_last();
            let c = q.last();
            assert(has_edge(g, p[p.len() - 2], p[p.len() - 1]));
            assert forall|i: int| 0 <= i < q.len() - 1 implies #[trigger] has_edge(g, q[i], q[i + 1]) by {
                assert(has_edge(g, p[i], p[i + 1]));
            }
            assert(is_walk(g, q));
            assert(within(g, a, c, r));
        }
    }
}

impl AdjacencyGraph {
    pub open spec fn wf(&self) -> bool {
        graph_wf(self@)
    }

    /// Takes neighbour lists that already form a well-formed graph.
    pub fn from_lists(adj: Vec<Vec<u32>>) -> (r: Self)
        requires
            graph_wf(lists_view(adj@)),
        ensures
            r@ == lists_view(adj@),
            r.wf(),
    {
        AdjacencyGraph { adj }
    }

    /// The number of nodes.
    pub fn node_count(&self) -> (r: usize)
        ensures
            r == self@.len(),
    {
        self.adj.len()
    }

    /// The neighbours of `a`, in the order in which they were recorded.
    pub fn neighbours(&self, a: usize) -> (r: &Vec<u32>)
        requires
            a < self@.len(),
        ensures
            r@ == self@[a as int],
    {
        &self.adj[a]
    }

    /// Whether `a` and `b` are joined by an edge.
    pub fn is_edge(&self, a: usize, b: usize) -> (r: bool)
        requires
            self.wf(),
        ensures
            r == has_edge(self@, a as int, b as int),
    {
        if a >= self.adj.len() || b >= self.adj.len() {
            return false;
        }
        let list = &self.adj[a];
        let mut i: usize = 0;
        while i < list.len()
            invariant
                list@ == self@[a as int],
                a < self@.len(),
                b < self@.len(),
                self@.len() <= u32::MAX,
                0 <= i <= list.len(),
                forall|j: int| 0 <= j < i ==> list@[j] != b as u32,
            decreases list.len() - i,
        {
            if list[i] as usize == b {
                assert(list@[i as int] == list[i as int]);
                assert(list@[i as int] == b as u32);
                return true;
            }
            i = i + 1;
        }
        false
    }

    /// Every edge once, as (smaller node, larger node), in the order of the
    /// neighbour lists.
    pub fn edges(&self) -> (r: Vec<(u32, u32)>)
        requires
            self.wf(),
        ensures
            forall|i: int|
                0 <= i < r@.len() ==> (#[trigger] r@[i]).0 < r@[i].1 && has_edge(
                    self@,
                    r@[i].0 as int,
                    r@[i].1 as int,
                ),
            forall|i: int, j: int| 0 <= i < j < r@.len() ==> r@[i] != r@[j],
            forall|a: int, b: int|
                0 <= a < b && #[trigger] has_edge(self@, a, b) ==> r@.contains((a as u32, b as u32)),
    {
        let mut out: Vec<(u32, u32)> = Vec::new();
        let mut a: usize = 0;
        while a < self.adj.len()
            invariant
                self.wf(),
                0 <= a <= self@.len(),
                forall|i: int|
                    0 <= i < out@.len() ==> (#[trigger] out@[i]).0 < out@[i].1 && out@[i].0 < a
                        && has_edge(self@, out@[i].0 as int, out@[i].1 as int),
                forall|i: int, j: int| 0 <= i < j < out@.len() ==> out@[i] != out@[j],
                forall|x: int, y: int|
                    0 <= x < y && x < a && #[trigger] has_edge(self@, x, y) ==> out@.contains(
                        (x as u32, y as u32),
                    ),
            decreases self@.len() - a,
        {
            let list = &self.adj[a];
            let ghost start = out@;
            let mut q: usize = 0;
            while q < list.len()
                invariant
                    self.wf(),
                    a < self@.len(),
                    list@ == self@[a as int],
                    0 <= q <= list@.len(),
                    start.len() <= out@.len(),
                    forall|i: int| 0 <= i < start.len() ==> out@[i] == start[i],
                    forall|i: int|
                        0 <= i < out@.len() ==> (#[trigger] out@[i]).0 < out@[i].1 && out@[i].0
                            <= a && has_edge(self@, out@[i].0 as int, out@[i].1 as int),
                    forall|i: int| start.len() <= i < out@.len() ==> (#[trigger] out@[i]).0 == a,
                    forall|i: int| start.len() <= i < out@.len() ==> exists|j: int| 0 <= j < q && list@[j] == (#[trigger] out@[i]).1,
                    forall|i: int, j: int| 0 <= i < j < out@.len() ==> out@[i] != out@[j],
                    forall|x: int, y: int|
                        0 <= x < y && x < a && #[trigger] has_edge(self@, x, y) ==> out@.contains(
                            (x as u32, y as u32),
                        ),
                    forall|j: int| 0 <= j < q && a < list@[j] ==> out@.contains((a as u32, #[trigger] list@[j])),
                    start.len() <= out@.len(),
                    forall|i: int| 0 <= i < start.len() ==> (#[trigger] start[i]).0 < a,
                decreases list@.len() - q,
            {
                let b = list[q];
                if (a as u32) < b {
                    let ghost prev = out@;
                    proof {
                        assert(list@[q as int] == b);
                        assert forall|i: int| 0 <= i < prev.len() implies prev[i] != (a as u32, b) by {
                            if i >= start.len() {
                                let j = choose|j: int| 0 <= j < q && list@[j] == (#[trigger] prev[i]).1;
                                assert(self@[a as int][j] != self@[a as int][q as int]);
                            } else {
                                assert(prev[i] == start[i]);
                                assert(start[i].0 < a);
                            }
                        }
                    }
                    out.push((a as u32, b));
                    proof {
                        assert(out@ == prev.push((a as u32, b)));
                        assert(out@[out@.len() - 1] == (a as u32, b));
                        assert forall|e: (u32, u32)| prev.contains(e) implies out@.contains(e) by {
                            let t = choose|t: int| 0 <= t < prev.len() && prev[t] == e;
                            assert(out@[t] == e);
                        }
                        assert forall|i: int| start.len() <= i < out@.len() implies exists|j: int| 0 <= j < q + 1 && list@[j] == (#[trigger] out@[i]).1 by {
                            if i == out@.len() - 1 {
                                assert(list@[q as int] == out@[i].1);
                            } else {
                                assert(out@[i] == prev[i]);
                                let j = choose|j: int| 0 <= j < q && list@[j] == (#[trigger] prev[i]).1;
                            }
                        }
                    }
                }
                q = q + 1;
            }
            proof {
                assert forall|x: int, y: int|
                    0 <= x < y && x < a + 1 && #[trigger] has_edge(self@, x, y) implies out@.contains(
                        (x as u32, y as u32)) by {
                    if x == a {
                        let j = choose|j: int| 0 <= j < list@.len() && list@[j] == y as u32;
                    }
                }
            }
            a = a + 1;
        }
        out
    }

    /// The nodes at most `radius` edges away from `start`, `start` first, each once.
    pub fn within(&self, start: usize, radius: usize) -> (r: Vec<u32>)
        requires
            self.wf(),
            start < self@.len(),
        ensures
            forall|i: int| 0 <= i < r@.len() ==> #[trigger] r@[i] < self@.len(),
            forall|i: int, j: int| 0 <= i < j < r@.len() ==> r@[i] != r@[j],
            forall|x: int|
                0 <= x < self@.len() ==> (r@.contains(x as u32) <==> #[trigger] within(
                    self@,
                    start as int,
                    x,
                    radius as nat,
                )),
            r@.len() > 0 && r@[0] == start,
    {
        let n = self.adj.len();
        let mut visited: Vec<bool> = Vec::new();
        let mut i: usize = 0;
        while i < n
            invariant
                n == self@.len(),
                0 <= i <= n,
                visited@.len() == i,
                forall|x: int| 0 <= x < i ==> !#[trigger] visited@[x],
            decreases n - i,
        {
            visited.push(false);
            i = i + 1;
        }
        visited.set(start, true);
        let mut list: Vec<u32> = Vec::new();
        list.push(start as u32);
        proof {
            assert forall|x: int| 0 <= x < n implies (visited@[x] <==> #[trigger] list@.contains(x as u32)) by {
                if x == start {
                    assert(list@[0] == x as u32);
                }
            }
            assert forall|x: int| 0 <= x < n implies (list@.contains(x as u32) <==> #[trigger] within(
                self@,
                start as int,
                x,
                0,
            )) by {
                lemma_within_zero(self@, start as int, x);
                if list@.contains(x as u32) {
                    let j = choose|j: int| 0 <= j < list@.len() && list@[j] == x as u32;
                }
            }
        }
        let mut k: usize = 0;
        while k < radius
            invariant
                self.wf(),
                n == self@.len(),
                start < n,
                0 <= k <= radius,
                marks(self@, visited@, list@),
                list@.len() > 0 && list@[0] == start,
                forall|x: int|
                    0 <= x < n ==> (list@.contains(x as u32) <==> #[trigger] within(
                        self@,
                        start as int,
                        x,
                        k as nat,
                    )),
            decreases radius - k,
        {
            let m = list.len();
            let ghost before = list@;
            let mut j: usize = 0;
            while j < m
                invariant
                    self.wf(),
                    n == self@.len(),
                    0 <= j <= m,
                    m == before.len(),
                    before.len() <= list@.len(),
                    forall|i: int| 0 <= i < m ==> list@[i] == before[i],
                    marks(self@, visited@, list@),
                    forall|x: int|
                        0 <= x < n ==> (before.contains(x as u32) <==> #[trigger] within(
                            self@,
                            start as int,
                            x,
                            k as nat,
                        )),
                    forall|x: int|
                        0 <= x < n ==> (#[trigger] list@.contains(x as u32) <==> (before.contains(
                            x as u32,
                        ) || exists|p: int| 0 <= p < j && has_edge(self@, before[p] as int, x))),
                decreases m - j,
            {
                let u = list[j] as usize;
                let nbs = &self.adj[u];
                let ghost mid = list@;
                let mut q: usize = 0;
                while q < nbs.len()
                    invariant
                        self.wf(),
                        n == self@.len(),
                        0 <= j < m,
                        m == before.len(),
                        u == before[j as int],
                        u < n,
                        nbs@ == self@[u as int],
                        0 <= q <= nbs@.len(),
                        before.len() <= list@.len(),
                        forall|i: int| 0 <= i < m ==> list@[i] == before[i],
                        marks(self@, visited@, list@),
                        forall|x: int|
                            0 <= x < n ==> (#[trigger] list@.contains(x as u32) <==> (mid.contains(
                                x as u32,
                            ) || exists|p: int| 0 <= p < q && nbs@[p] == x as u32)),
                        forall|x: int|
                            0 <= x < n ==> (#[trigger] mid.contains(x as u32) <==> (before.contains(
                                x as u32,
                            ) || exists|p: int| 0 <= p < j && has_edge(self@, before[p] as int, x))),
                    decreases nbs@.len() - q,
                {
                    let w = nbs[q];
                    assert(self@[u as int][q as int] == w);
                    assert(w < n);
                    if !visited[w as usize] {
                        let ghost lb = list@;
                        assert(!lb.contains((w as int) as u32));
                        visited.set(w as usize, true);
                        list.push(w);
                        proof {
                            assert forall|i: int, jj: int| 0 <= i < jj < list@.len() implies list@[i] != list@[jj] by {
                                if jj == list@.len() - 1 {
                                    assert(list@[i] == lb[i]);
                                    if list@[i] == w {
                                        assert(lb.contains(w));
                                    }
                                } else {
                                    assert(list@[i] == lb[i] && list@[jj] == lb[jj]);
                                }
                            }
                            assert(list@ == lb.push(w));
                            assert forall|x: int| 0 <= x < n implies (visited@[x] <==> #[trigger] list@.contains(x as u32)) by {
                                if x == w as int {
                                    assert(list@[list@.len() - 1] == w);
                                } else {
                                    assert(x as u32 != w);
                                    if list@.contains(x as u32) {
                                        let t = choose|t: int| 0 <= t < list@.len() && list@[t] == x as u32;
                                        assert(t < lb.len());
                                        assert(lb[t] == x as u32);
                                    }
                                    if lb.contains(x as u32) {
                                        let t = choose|t: int| 0 <= t < lb.len() && lb[t] == x as u32;
                                        assert(list@[t] == x as u32);
                                    }
                                }
                            }
                            assert forall|x: int| 0 <= x < n implies (#[trigger] list@.contains(x as u32)
                                <==> (lb.contains(x as u32) || x == w as int)) by {
                                if x == w as int {
                                    assert(list@[list@.len() - 1] == w);
                                }
                            }
                        }
                    }
                    proof {
                        assert(visited@[w as int]);
                        assert(list@.contains((w as int) as u32));
                        assert forall|x: int| 0 <= x < n implies (#[trigger] list@.contains(x as u32) <==> (mid.contains(
                            x as u32,
                        ) || exists|p: int| 0 <= p < q + 1 && nbs@[p] == x as u32)) by {
                            if x == w as int {
                                assert(nbs@[q as int] == x as u32);
                            } else {
                                if exists|p: int| 0 <= p < q + 1 && nbs@[p] == x as u32 {
                                    let p = choose|p: int| 0 <= p < q + 1 && nbs@[p] == x as u32;
                                    assert(p < q);
                                }
                            }
                        }
                    }
                    q = q + 1;
                }
                proof {
                    assert forall|x: int| 0 <= x < n implies (#[trigger] list@.contains(x as u32) <==> (
                    before.contains(x as u32) || exists|p: int| 0 <= p < j + 1 && has_edge(self@, before[p] as int, x))) by {
                        if exists|p: int| 0 <= p < q && nbs@[p] == x as u32 {
                            let p = choose|p: int| 0 <= p < q && nbs@[p] == x as u32;
                            assert(has_edge(self@, before[j as int] as int, x));
                        }
                        if has_edge(self@, before[j as int] as int, x) {
                            let p = choose|p: int| 0 <= p < nbs@.len() && nbs@[p] == x as u32;
                        }
                    }
                }
                j = j + 1;
            }
            proof {
                assert forall|x: int| 0 <= x < n implies (list@.contains(x as u32) <==> #[trigger] within(
                    self@,
                    start as int,
                    x,
                    (k + 1) as nat,
                )) by {
                    lemma_within_step(self@, start as int, x, k as nat);
                    if exists|p: int| 0 <= p < m && has_edge(self@, before[p] as int, x) {
                        let p = choose|p: int| 0 <= p < m && has_edge(self@, before[p] as int, x);
                        let c = before[p] as int;
                        assert(list@[p] == before[p]);
                        assert(c < n);
                        assert(before.contains(c as u32));
                        assert(within(self@, start as int, c, k as nat));
                        assert(within(self@, start as int, x, (k + 1) as nat));
                    }
                    if within(self@, start as int, x, k as nat) {
                        assert(before.contains(x as u32));
                    }
                    if within(self@, start as int, x, (k + 1) as nat) && !within(self@, start as int, x, k as nat) {
                        let c = choose|c: int|
                            0 <= c < self@.len() && #[trigger] within(self@, start as int, c, k as nat) && has_edge(self@, c, x);
                        assert(before.contains(c as u32));
                        let p = choose|p: int| 0 <= p < before.len() && before[p] == c as u32;
                    }
                }
            }
            let ghost prev_k = k;
            k = k + 1;
            proof {
                assert forall|x: int| 0 <= x < n implies (list@.contains(x as u32) <==> #[trigger] within(
                    self@,
                    start as int,
                    x,
                    k as nat,
                )) by {
                    assert(k as nat == (prev_k + 1) as nat);
                    assert(list@.contains(x as u32) <==> within(self@, start as int, x, (prev_k + 1) as nat));
                }
            }
        }
        list
    }
}


} // verus!
