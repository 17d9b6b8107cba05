use vstd::prelude::*;

use crate::dss::{is_union, joined, root_of, same_roots};
use crate::graph::is_adjacency;

verus! {

/// A labelling of the vertices that is constant along every edge.
pub open spec fn respects(outs: Seq<Seq<usize>>, l: Seq<int>) -> bool {
    &&& l.len() == outs.len()
    &&& forall|u: int, i: int|
        0 <= u < outs.len() && 0 <= i < outs[u].len() ==> l[u] == l[#[trigger] outs[u][i] as int]
}

/// `a` and `b` lie in the same weakly connected component: every labelling
/// that is constant along each edge gives them the same label.
pub open spec fn same_component(outs: Seq<Seq<usize>>, a: int, b: int) -> bool {
    forall|l: Seq<int>| #[trigger] respects(outs, l) ==> l[a] == l[b]
}

/// Every vertex carries the label of its representative.
pub open spec fn labels_follow_roots(l: Seq<int>, p: Seq<usize>) -> bool {
    forall|x: int| 0 <= x < p.len() ==> #[trigger] l[root_of(p, x)] == l[x]
}

/// Every representative lies in the component of the vertices it
/// represents: the structure never joined what the graph keeps apart.
pub open spec fn sound(outs: Seq<Seq<usize>>, p: Seq<usize>) -> bool {
    &&& p.len() == outs.len()
    &&& forall|l: Seq<int>| #[trigger] respects(outs, l) ==> labels_follow_roots(l, p)
}

/// Every pair joined in `p` is still joined in `q`.
pub open spec fn coarsens(p: Seq<usize>, q: Seq<usize>) -> bool {
    &&& p.len() == q.len()
    &&& forall|x: int, y: int|
        0 <= x < p.len() && 0 <= y < p.len() && #[trigger] joined(p, x, y) ==> joined(q, x, y)
}

/// The endpoints of every edge are joined.
pub open spec fn closes_edges(outs: Seq<Seq<usize>>, p: Seq<usize>) -> bool {
    forall|u: int, i: int|
        0 <= u < outs.len() && 0 <= i < outs[u].len() ==> joined(p, u, #[trigger] outs[u][i] as int)
}

/// The representatives of `p` tell apart exactly the weakly connected components.
pub open spec fn is_components(outs: Seq<Seq<usize>>, p: Seq<usize>) -> bool {
    &&& p.len() == outs.len()
    &&& forall|a: int, b: int|
        0 <= a < p.len() && 0 <= b < p.len() ==> (#[trigger] joined(p, a, b) <==> same_component(
            outs,
            a,
            b,
        ))
}

/// Every pair in `edges` gets one label.
pub open spec fn constant_on(edges: Set<(int, int)>, l: Seq<int>) -> bool {
    forall|e: (int, int)| #[trigger] edges.contains(e) ==> l[e.0] == l[e.1]
}

/// `p` joins nothing beyond what `p0` joined and the pairs of `edges`:
/// every labelling that is constant on the classes of `p0` and on each pair
/// is constant on the classes of `p`.
pub open spec fn joins_within(p0: Seq<usize>, edges: Set<(int, int)>, p: Seq<usize>) -> bool {
    &&& coarsens(p0, p)
    &&& forall|l: Seq<int>|
        l.len() == p0.len() && labels_follow_roots(l, p0) && #[trigger] constant_on(edges, l)
            ==> labels_follow_roots(l, p)
}

/// `p` joins exactly what `p0` joined together with the pairs of `edges`.
pub open spec fn joins_exactly(p0: Seq<usize>, edges: Set<(int, int)>, p: Seq<usize>) -> bool {
    &&& joins_within(p0, edges, p)
    &&& forall|e: (int, int)|
        #[trigger] edges.contains(e) ==> 0 <= e.0 < p.len() && 0 <= e.1 < p.len() && joined(
            p,
            e.0,
            e.1,
        )
}

/// The out-edges of `u` at the positions `lo..hi` of its out-list.
pub open spec fn vertex_out_edges(outs: Seq<Seq<usize>>, u: int, lo: int, hi: int) -> Set<(int, int)> {
    Set::new(
        |e: (int, int)|
            e.0 == u && exists|k: int| lo <= k < hi && #[trigger] outs[u][k] as int == e.1,
    )
}

pub proof fn lemma_joins_exactly_nothing(p: Seq<usize>)
    ensures
        joins_exactly(p, Set::empty(), p),
{
}

pub proof fn lemma_joins_exactly_union(
    p0: Seq<usize>,
    edges: Set<(int, int)>,
    p: Seq<usize>,
    q: Seq<usize>,
    a: int,
    b: int,
)
    requires
        joins_exactly(p0, edges, p),
        is_union(p, q, a, b),
        0 <= a < p.len(),
        0 <= b < p.len(),
    ensures
        joins_exactly(p0, edges.insert((a, b)), q),
{
    let e2 = edges.insert((a, b));
    assert forall|x: int, y: int|
        0 <= x < p.len() && 0 <= y < p.len() && #[trigger] joined(p, x, y) implies joined(
        q,
        x,
        y,
    ) by {
        assert(root_of(q, x) == root_of(q, y));
    }
    lemma_coarsens_trans(p0, p, q);
    assert forall|e: (int, int)| #[trigger] e2.contains(e) implies 0 <= e.0 < q.len() && 0 <= e.1
        < q.len() && joined(q, e.0, e.1) by {
        if e != (a, b) {
            assert(edges.contains(e));
            assert(joined(p, e.0, e.1));
        }
    }
    assert forall|l: Seq<int>|
        l.len() == p0.len() && labels_follow_roots(l, p0) && #[trigger] constant_on(e2, l)
            implies labels_follow_roots(l, q) by {
        assert(constant_on(edges, l)) by {
            assert forall|e: (int, int)| #[trigger] edges.contains(e) implies l[e.0] == l[e.1] by {
                assert(e2.contains(e));
            }
        }
        assert(labels_follow_roots(l, p));
        assert(e2.contains((a, b)));
        assert forall|x: int| 0 <= x < q.len() implies #[trigger] l[root_of(q, x)] == l[x] by {
            assert(l[root_of(p, x)] == l[x]);
            assert(l[root_of(p, a)] == l[a]);
            assert(l[root_of(p, b)] == l[b]);
        }
    }
}

pub proof fn lemma_sound_singletons(outs: Seq<Seq<usize>>, p: Seq<usize>)
    requires
        p.len() == outs.len(),
        forall|v: int| 0 <= v < p.len() ==> #[trigger] root_of(p, v) == v,
    ensures
        sound(outs, p),
{
    assert forall|l: Seq<int>| #[trigger] respects(outs, l) implies labels_follow_roots(l, p) by {
        assert forall|x: int| 0 <= x < p.len() implies #[trigger] l[root_of(p, x)] == l[x] by {
            assert(root_of(p, x) == x);
        }
    }
}

pub proof fn lemma_sound_same_roots(outs: Seq<Seq<usize>>, p: Seq<usize>, q: Seq<usize>)
    requires
        sound(outs, p),
        same_roots(p, q),
    ensures
        sound(outs, q),
        coarsens(p, q),
{
    assert forall|l: Seq<int>| #[trigger] respects(outs, l) implies labels_follow_roots(l, q) by {
        assert(labels_follow_roots(l, p));
        assert forall|x: int| 0 <= x < q.len() implies #[trigger] l[root_of(q, x)] == l[x] by {
            assert(root_of(q, x) == root_of(p, x));
            assert(l[root_of(p, x)] == l[x]);
        }
    }
    assert forall|x: int, y: int|
        0 <= x < p.len() && 0 <= y < p.len() && #[trigger] joined(p, x, y) implies joined(
        q,
        x,
        y,
    ) by {
        assert(root_of(q, x) == root_of(p, x));
        assert(root_of(q, y) == root_of(p, y));
    }
}

/// Merging two vertices of one component keeps the structure sound.
pub proof fn lemma_sound_union(outs: Seq<Seq<usize>>, p: Seq<usize>, q: Seq<usize>, a: int, b: int)
    requires
        sound(outs, p),
        is_union(p, q, a, b),
        0 <= a < p.len(),
        0 <= b < p.len(),
        same_component(outs, a, b),
    ensures
        sound(outs, q),
        coarsens(p, q),
        joined(q, a, b),
{
    assert forall|l: Seq<int>| #[trigger] respects(outs, l) implies labels_follow_roots(l, q) by {
        assert(labels_follow_roots(l, p));
        assert(l[a] == l[b]);
        assert forall|x: int| 0 <= x < q.len() implies #[trigger] l[root_of(q, x)] == l[x] by {
            assert(l[root_of(p, x)] == l[x]);
            assert(l[root_of(p, a)] == l[a]);
            assert(l[root_of(p, b)] == l[b]);
        }
    }
    assert forall|x: int, y: int|
        0 <= x < p.len() && 0 <= y < p.len() && #[trigger] joined(p, x, y) implies joined(
        q,
        x,
        y,
    ) by {
        assert(root_of(q, x) == root_of(q, y));
    }
    assert(root_of(q, a) == root_of(q, b));
}

pub proof fn lemma_coarsens_trans(p: Seq<usize>, q: Seq<usize>, r: Seq<usize>)
    requires
        coarsens(p, q),
        coarsens(q, r),
    ensures
        coarsens(p, r),
{
    assert forall|x: int, y: int|
        0 <= x < p.len() && 0 <= y < p.len() && #[trigger] joined(p, x, y) implies joined(
        r,
        x,
        y,
    ) by {
        assert(joined(q, x, y));
    }
}

/// The two ends of an edge lie in one component, in either order.
pub proof fn lemma_edge_same_component(outs: Seq<Seq<usize>>, u: int, i: int)
    requires
        0 <= u < outs.len(),
        0 <= i < outs[u].len(),
    ensures
        same_component(outs, u, outs[u][i] as int),
        same_component(outs, outs[u][i] as int, u),
{
    assert forall|l: Seq<int>| #[trigger] respects(outs, l) implies l[u] == l[outs[u][i] as int] by {
        assert(l[u] == l[outs[u][i] as int]);
    }
}

/// The source of an in-edge of `v` lies in the component of `v`.
pub proof fn lemma_in_edge_same_component(outs: Seq<Seq<usize>>, ins: Seq<Seq<usize>>, v: int, j: int)
    requires
        is_adjacency(outs, ins),
        0 <= v < ins.len(),
        v <= usize::MAX,
        0 <= j < ins[v].len(),
    ensures
        same_component(outs, v, ins[v][j] as int),
{
    let w = ins[v][j] as int;
    assert(outs[w].contains(v as usize));
    let i = choose|i: int| 0 <= i < outs[w].len() && outs[w][i] == v as usize;
    lemma_edge_same_component(outs, w, i);
    assert(outs[w][i] as int == v);
}

/// A sound structure that joins the ends of every edge has exactly the
/// weakly connected components as its classes.
pub proof fn lemma_components(outs: Seq<Seq<usize>>, ins: Seq<Seq<usize>>, p: Seq<usize>)
    requires
        is_adjacency(outs, ins),
        sound(outs, p),
        closes_edges(outs, p),
    ensures
        is_components(outs, p),
{
    let n = p.len();
    let l = Seq::new(n, |x: int| root_of(p, x));
    assert(respects(outs, l)) by {
        assert forall|u: int, i: int| 0 <= u < outs.len() && 0 <= i < outs[u].len() implies l[u]
            == l[#[trigger] outs[u][i] as int] by {
            assert(joined(p, u, outs[u][i] as int));
            assert(outs[u][i] < n);
        }
    }
    assert forall|a: int, b: int| 0 <= a < n && 0 <= b < n implies (#[trigger] joined(p, a, b)
        <==> same_component(outs, a, b)) by {
        if same_component(outs, a, b) {
            assert(l[a] == l[b]);
        }
        if joined(p, a, b) {
            assert forall|m: Seq<int>| #[trigger] respects(outs, m) implies m[a] == m[b] by {
                assert(labels_follow_roots(m, p));
                assert(m[root_of(p, a)] == m[a]);
                assert(m[root_of(p, b)] == m[b]);
            }
        }
    }
}

/// Two structures that both describe the weakly connected components of a
/// graph join exactly the same pairs, whatever their representatives are.
/// So every way of computing them, whatever the schedule or the random
/// sample, yields one partition.
pub proof fn lemma_partition_unique(outs: Seq<Seq<usize>>, p: Seq<usize>, q: Seq<usize>)
    requires
        is_components(outs, p),
        is_components(outs, q),
    ensures
        forall|a: int, b: int|
            0 <= a < p.len() && 0 <= b < p.len() ==> (#[trigger] joined(p, a, b) <==> joined(
                q,
                a,
                b,
            )),
{
    assert forall|a: int, b: int| 0 <= a < p.len() && 0 <= b < p.len() implies (#[trigger] joined(
        p,
        a,
        b,
    ) <==> joined(q, a, b)) by {
        assert(joined(p, a, b) <==> same_component(outs, a, b));
        assert(joined(q, a, b) <==> same_component(outs, a, b));
    }
}

pub proof fn lemma_joins_exactly_compose(
    p0: Seq<usize>,
    e1: Set<(int, int)>,
    p1: Seq<usize>,
    e2: Set<(int, int)>,
    p2: Seq<usize>,
)
    requires
        joins_exactly(p0, e1, p1),
        joins_exactly(p1, e2, p2),
    ensures
        joins_exactly(p0, e1.union(e2), p2),
{
    let e = e1.union(e2);
    lemma_coarsens_trans(p0, p1, p2);
    assert forall|d: (int, int)| #[trigger] e.contains(d) implies 0 <= d.0 < p2.len() && 0 <= d.1
        < p2.len() && joined(p2, d.0, d.1) by {
        if e1.contains(d) {
            assert(joined(p1, d.0, d.1));
        } else {
            assert(e2.contains(d));
        }
    }
    assert forall|l: Seq<int>|
        l.len() == p0.len() && labels_follow_roots(l, p0) && #[trigger] constant_on(e, l)
            implies labels_follow_roots(l, p2) by {
        assert(constant_on(e1, l)) by {
            assert forall|d: (int, int)| #[trigger] e1.contains(d) implies l[d.0] == l[d.1] by {
                assert(e.contains(d));
            }
        }
        assert(constant_on(e2, l)) by {
            assert forall|d: (int, int)| #[trigger] e2.contains(d) implies l[d.0] == l[d.1] by {
                assert(e.contains(d));
            }
        }
        assert(labels_follow_roots(l, p1));
    }
}

pub proof fn lemma_joins_within_refl(p: Seq<usize>, edges: Set<(int, int)>)
    ensures
        joins_within(p, edges, p),
{
}

pub proof fn lemma_joins_within_union(
    p0: Seq<usize>,
    edges: Set<(int, int)>,
    p: Seq<usize>,
    q: Seq<usize>,
    a: int,
    b: int,
)
    requires
        joins_within(p0, edges, p),
        is_union(p, q, a, b),
        0 <= a < p.len(),
        0 <= b < p.len(),
        edges.contains((a, b)),
    ensures
        joins_within(p0, edges, q),
{
    assert forall|x: int, y: int|
        0 <= x < p.len() && 0 <= y < p.len() && #[trigger] joined(p, x, y) implies joined(
        q,
        x,
        y,
    ) by {
        assert(root_of(q, x) == root_of(q, y));
    }
    lemma_coarsens_trans(p0, p, q);
    assert forall|l: Seq<int>|
        l.len() == p0.len() && labels_follow_roots(l, p0) && #[trigger] constant_on(edges, l)
            implies labels_follow_roots(l, q) by {
        assert(labels_follow_roots(l, p));
        assert(l[a] == l[b]);
        assert forall|x: int| 0 <= x < q.len() implies #[trigger] l[root_of(q, x)] == l[x] by {
            assert(l[root_of(p, x)] == l[x]);
            assert(l[root_of(p, a)] == l[a]);
            assert(l[root_of(p, b)] == l[b]);
        }
    }
}

pub proof fn lemma_joins_within_same_roots(
    p0: Seq<usize>,
    edges: Set<(int, int)>,
    p: Seq<usize>,
    q: Seq<usize>,
)
    requires
        joins_within(p0, edges, p),
        same_roots(p, q),
    ensures
        joins_within(p0, edges, q),
{
    assert forall|x: int, y: int|
        0 <= x < p.len() && 0 <= y < p.len() && #[trigger] joined(p, x, y) implies joined(
        q,
        x,
        y,
    ) by {
        assert(root_of(q, x) == root_of(p, x));
        assert(root_of(q, y) == root_of(p, y));
    }
    lemma_coarsens_trans(p0, p, q);
    assert forall|l: Seq<int>|
        l.len() == p0.len() && labels_follow_roots(l, p0) && #[trigger] constant_on(edges, l)
            implies labels_follow_roots(l, q) by {
        assert(labels_follow_roots(l, p));
        assert forall|x: int| 0 <= x < q.len() implies #[trigger] l[root_of(q, x)] == l[x] by {
            assert(root_of(q, x) == root_of(p, x));
            assert(l[root_of(p, x)] == l[x]);
        }
    }
}

pub proof fn lemma_joins_within_extend(
    p0: Seq<usize>,
    edges: Set<(int, int)>,
    p1: Seq<usize>,
    sub: Set<(int, int)>,
    p2: Seq<usize>,
)
    requires
        joins_within(p0, edges, p1),
        joins_within(p1, sub, p2),
        sub.subset_of(edges),
    ensures
        joins_within(p0, edges, p2),
{
    lemma_coarsens_trans(p0, p1, p2);
    assert forall|l: Seq<int>|
        l.len() == p0.len() && labels_follow_roots(l, p0) && #[trigger] constant_on(edges, l)
            implies labels_follow_roots(l, p2) by {
        assert(labels_follow_roots(l, p1));
        assert(constant_on(sub, l)) by {
            assert forall|d: (int, int)| #[trigger] sub.contains(d) implies l[d.0] == l[d.1] by {
                assert(edges.contains(d));
            }
        }
    }
}



} // verus!
