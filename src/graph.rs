use vstd::prelude::*;

verus! {

/// The targets of the edges that leave `u`, in the order the edges are listed.
pub open spec fn targets_from(edges: Seq<(usize, usize)>, u: int) -> Seq<usize>
    decreases edges.len(),
{
    if edges.len() == 0 {
        Seq::empty()
    } else {
        let rest = targets_from(edges.drop_last(), u);
        if edges.last().0 == u {
            rest.push(edges.last().1)
        } else {
            rest
        }
    }
}

/// The sources of the edges that enter `v`, in the order the edges are listed.
pub open spec fn sources_to(edges: Seq<(usize, usize)>, v: int) -> Seq<usize>
    decreases edges.len(),
{
    if edges.len() == 0 {
        Seq::empty()
    } else {
        let rest = sources_to(edges.drop_last(), v);
        if edges.last().1 == v {
            rest.push(edges.last().0)
        } else {
            rest
        }
    }
}

/// Every endpoint of every edge is below `n`.
pub open spec fn edges_within(edges: Seq<(usize, usize)>, n: int) -> bool {
    forall|e: int| 0 <= e < edges.len() ==> #[trigger] edges[e].0 < n && edges[e].1 < n
}

/// Out-lists and in-lists of `outs.len()` vertices that describe the same
/// edges: each out-edge `u -> v` stands in the in-list of `v`, and back.
pub open spec fn is_adjacency(outs: Seq<Seq<usize>>, ins: Seq<Seq<usize>>) -> bool {
    &&& ins.len() == outs.len()
    &&& forall|u: int, i: int|
        0 <= u < outs.len() && 0 <= i < outs[u].len() ==> #[trigger] outs[u][i] < outs.len()
            && ins[outs[u][i] as int].contains(u as usize)
    &&& forall|v: int, j: int|
        0 <= v < ins.len() && 0 <= j < ins[v].len() ==> #[trigger] ins[v][j] < ins.len()
            && outs[ins[v][j] as int].contains(v as usize)
}

/// A directed graph over the vertices `0..node_count()`, with the out-list
/// and the in-list of each vertex.
pub struct DirectedGraph {
    out_adj: Vec<Vec<usize>>,
    in_adj: Vec<Vec<usize>>,
}

impl DirectedGraph {
    /// The out-neighbours of each vertex.
    pub closed spec fn outs(&self) -> Seq<Seq<usize>> {
        self.out_adj@.map_values(|r: Vec<usize>| r@)
    }

    /// The in-neighbours of each vertex.
    pub closed spec fn ins(&self) -> Seq<Seq<usize>> {
        self.in_adj@.map_values(|r: Vec<usize>| r@)
    }

    /// The out-lists and in-lists agree.
    pub open spec fn wf(&self) -> bool {
        is_adjacency(self.outs(), self.ins())
    }

    /// The graph on `node_count` vertices with the given edges, each listed
    /// under its source in the order given and under its target likewise.
    pub fn new(node_count: usize, edges: &Vec<(usize, usize)>) -> (g: Self)
        requires
            edges_within(edges@, node_count as int),
        ensures
            g.wf(),
            g.outs().len() == node_count,
            forall|u: int| 0 <= u < node_count ==> #[trigger] g.outs()[u] == targets_from(edges@, u),
            forall|v: int| 0 <= v < node_count ==> #[trigger] g.ins()[v] == sources_to(edges@, v),
    {
        let mut out_adj: Vec<Vec<usize>> = Vec::with_capacity(node_count);
        let mut in_adj: Vec<Vec<usize>> = Vec::with_capacity(node_count);
        let mut i: usize = 0;
        while i < node_count
            invariant
                i <= node_count,
                out_adj@.len() == i,
                in_adj@.len() == i,
                forall|u: int| 0 <= u < i ==> (#[trigger] out_adj@[u])@ == Seq::<usize>::empty(),
                forall|u: int| 0 <= u < i ==> (#[trigger] in_adj@[u])@ == Seq::<usize>::empty(),
            decreases node_count - i,
        {
            out_adj.push(Vec::new());
            in_adj.push(Vec::new());
            i = i + 1;
        }
        let mut k: usize = 0;
        while k < edges.len()
            invariant
                k <= edges@.len(),
                edges_within(edges@, node_count as int),
                out_adj@.len() == node_count,
                in_adj@.len() == node_count,
                is_adjacency(
                    out_adj@.map_values(|r: Vec<usize>| r@),
                    in_adj@.map_values(|r: Vec<usize>| r@),
                ),
                forall|u: int|
                    0 <= u < node_count ==> (#[trigger] out_adj@[u])@ == targets_from(
                        edges@.take(k as int),
                        u,
                    ),
                forall|v: int|
                    0 <= v < node_count ==> (#[trigger] in_adj@[v])@ == sources_to(
                        edges@.take(k as int),
                        v,
                    ),
            decreases edges@.len() - k,
        {
            let (s, t) = edges[k];
            assert(edges@[k as int].0 < node_count && edges@[k as int].1 < node_count);
            let ghost outs0 = out_adj@.map_values(|r: Vec<usize>| r@);
            let ghost ins0 = in_adj@.map_values(|r: Vec<usize>| r@);
            out_adj[s].push(t);
            in_adj[t].push(s);
            let ghost outs1 = out_adj@.map_values(|r: Vec<usize>| r@);
            let ghost ins1 = in_adj@.map_values(|r: Vec<usize>| r@);
            proof {
                let pre = edges@.take(k as int);
                let post = edges@.take(k + 1);
                assert(post.drop_last() =~= pre);
                assert(post.last() == (s, t));
                assert forall|u: int| 0 <= u < node_count implies (#[trigger] out_adj@[u])@
                    == targets_from(post, u) by {
                    assert(outs1[u] == out_adj@[u]@);
                }
                assert forall|v: int| 0 <= v < node_count implies (#[trigger] in_adj@[v])@
                    == sources_to(post, v) by {
                    assert(ins1[v] == in_adj@[v]@);
                }
                assert(outs1[s as int] == outs0[s as int].push(t));
                assert(ins1[t as int] == ins0[t as int].push(s));
                assert forall|w: int| 0 <= w < node_count implies #[trigger] outs1[w].len()
                    >= outs0[w].len() && (forall|i: int|
                    0 <= i < outs0[w].len() ==> outs1[w][i] == outs0[w][i]) by {
                    if w == s {
                    } else {
                        assert(outs1[w] == outs0[w]);
                    }
                }
                assert forall|w: int| 0 <= w < node_count implies #[trigger] ins1[w].len()
                    >= ins0[w].len() && (forall|i: int|
                    0 <= i < ins0[w].len() ==> ins1[w][i] == ins0[w][i]) by {
                    if w == t {
                    } else {
                        assert(ins1[w] == ins0[w]);
                    }
                }
                assert forall|u: int, i: int|
                    0 <= u < outs1.len() && 0 <= i < outs1[u].len() implies #[trigger] outs1[u][i]
                    < outs1.len() && ins1[outs1[u][i] as int].contains(u as usize) by {
                    assert(outs1[u].len() >= outs0[u].len());
                    if u == s && i == outs0[u].len() {
                        assert(ins1[t as int][ins0[t as int].len() as int] == s);
                    } else {
                        assert(i < outs0[u].len());
                        assert(outs1[u][i] == outs0[u][i]);
                        let w = outs0[u][i] as int;
                        let j = choose|j: int| 0 <= j < ins0[w].len() && ins0[w][j] == u as usize;
                        assert(ins1[w].len() >= ins0[w].len());
                        assert(ins1[w][j] == ins0[w][j]);
                    }
                }
                assert forall|v: int, j: int|
                    0 <= v < ins1.len() && 0 <= j < ins1[v].len() implies #[trigger] ins1[v][j]
                    < ins1.len() && outs1[ins1[v][j] as int].contains(v as usize) by {
                    assert(ins1[v].len() >= ins0[v].len());
                    if v == t && j == ins0[v].len() {
                        assert(outs1[s as int][outs0[s as int].len() as int] == t);
                    } else {
                        assert(j < ins0[v].len());
                        assert(ins1[v][j] == ins0[v][j]);
                        let w = ins0[v][j] as int;
                        let i = choose|i: int| 0 <= i < outs0[w].len() && outs0[w][i] == v as usize;
                        assert(outs1[w].len() >= outs0[w].len());
                        assert(outs1[w][i] == outs0[w][i]);
                    }
                }
            }
            k = k + 1;
        }
        proof {
            assert(edges@.take(edges@.len() as int) =~= edges@);
        }
        DirectedGraph { out_adj, in_adj }
    }

    /// The graph whose vertices run up to the largest endpoint of `edges`.
    pub fn from_edges(edges: &Vec<(usize, usize)>) -> (g: Self)
        requires
            forall|e: int|
                0 <= e < edges@.len() ==> #[trigger] edges@[e].0 < usize::MAX && edges@[e].1
                    < usize::MAX,
        ensures
            g.wf(),
            edges_within(edges@, g.outs().len() as int),
            edges@.len() == 0 ==> g.outs().len() == 0,
            edges@.len() > 0 ==> exists|e: int|
                0 <= e < edges@.len() && (#[trigger] edges@[e].0 + 1 == g.outs().len() || edges@[e].1 + 1
                    == g.outs().len()),
            forall|u: int| 0 <= u < g.outs().len() ==> #[trigger] g.outs()[u] == targets_from(edges@, u),
            forall|v: int| 0 <= v < g.outs().len() ==> #[trigger] g.ins()[v] == sources_to(edges@, v),
    {
        let mut n: usize = 0;
        let mut k: usize = 0;
        while k < edges.len()
            invariant
                k <= edges@.len(),
                forall|e: int|
                    0 <= e < edges@.len() ==> #[trigger] edges@[e].0 < usize::MAX && edges@[e].1
                        < usize::MAX,
                forall|e: int| 0 <= e < k ==> #[trigger] edges@[e].0 < n && edges@[e].1 < n,
                k == 0 ==> n == 0,
                k > 0 ==> exists|e: int|
                    0 <= e < k && (#[trigger] edges@[e].0 + 1 == n || edges@[e].1 + 1 == n),
            decreases edges@.len() - k,
        {
            let (s, t) = edges[k];
            assert(edges@[k as int].0 < usize::MAX && edges@[k as int].1 < usize::MAX);
            if s + 1 > n {
                n = s + 1;
            }
            if t + 1 > n {
                n = t + 1;
            }
            k = k + 1;
        }
        Self::new(n, edges)
    }

    /// The number of vertices.
    pub fn node_count(&self) -> (n: usize)
        ensures
            n == self.outs().len(),
    {
        self.out_adj.len()
    }

    /// The number of edges that leave `u`.
    pub fn out_degree(&self, u: usize) -> (d: usize)
        requires
            u < self.outs().len(),
        ensures
            d == self.outs()[u as int].len(),
    {
        self.out_adj[u].len()
    }

    /// The targets of the edges that leave `u`.
    pub fn out_neighbors(&self, u: usize) -> (r: &Vec<usize>)
        requires
            u < self.outs().len(),
        ensures
            r@ == self.outs()[u as int],
    {
        &self.out_adj[u]
    }

    /// The sources of the edges that enter `v`.
    pub fn in_neighbors(&self, v: usize) -> (r: &Vec<usize>)
        requires
            v < self.ins().len(),
        ensures
            r@ == self.ins()[v as int],
    {
        &self.in_adj[v]
    }
}

} // verus!
