use rand::Rng;
use vstd::prelude::*;

use crate::dss::{
    DisjointSetStruct,
    is_forest,
    joined,
    lemma_root_is_root,
    root_of,
    same_roots,
};
use crate::components::{
    closes_edges,
    coarsens,
    is_components,
    joins_exactly,
    joins_within,
    lemma_coarsens_trans,
    lemma_components,
    lemma_edge_same_component,
    lemma_in_edge_same_component,
    lemma_joins_exactly_compose,
    lemma_joins_exactly_nothing,
    lemma_joins_exactly_union,
    lemma_joins_within_extend,
    lemma_joins_within_refl,
    lemma_joins_within_same_roots,
    lemma_joins_within_union,
    lemma_sound_same_roots,
    lemma_sound_singletons,
    lemma_sound_union,
    sound,
    vertex_out_edges,
};
use crate::graph::{DirectedGraph, is_adjacency};
use crate::histogram::{lemma_occurrence_index, most_frequent, occurrences};

verus! {

/// Number of vertices that one worker takes at a time.
pub const CHUNK_SIZE: usize = 16384;

/// Number of leading out-edges of each vertex that the sampling phase links.
pub const NEIGHBOR_ROUNDS: usize = 2;

/// Number of random vertices drawn to estimate the largest component.
pub const SAMPLING_SIZE: usize = 1024;

/// The endpoints of the first `NEIGHBOR_ROUNDS` out-edges of every vertex are joined.
pub open spec fn closes_sampled_edges(outs: Seq<Seq<usize>>, p: Seq<usize>) -> bool {
    forall|u: int, i: int|
        0 <= u < outs.len() && 0 <= i < outs[u].len() && i < NEIGHBOR_ROUNDS ==> joined(
            p,
            u,
            #[trigger] outs[u][i] as int,
        )
}

/// Either `u` is joined with `skip`, or it is joined with the targets of its
/// out-edges past the sampled ones and with the sources of all its in-edges.
pub open spec fn remainder_linked(
    outs: Seq<Seq<usize>>,
    ins: Seq<Seq<usize>>,
    p: Seq<usize>,
    u: int,
    skip: int,
) -> bool {
    ||| joined(p, u, skip)
    ||| {
        &&& forall|i: int|
            NEIGHBOR_ROUNDS <= i < outs[u].len() ==> joined(p, u, #[trigger] outs[u][i] as int)
        &&& forall|j: int| 0 <= j < ins[u].len() ==> joined(p, u, #[trigger] ins[u][j] as int)
    }
}

/// The pairs that the remainder phase may join: each vertex with the
/// targets of its out-edges past the first `NEIGHBOR_ROUNDS`, and with the
/// sources of its in-edges.
pub open spec fn remainder_edges(outs: Seq<Seq<usize>>, ins: Seq<Seq<usize>>) -> Set<(int, int)> {
    Set::new(
        |e: (int, int)|
            0 <= e.0 < outs.len() && ((exists|k: int|
                NEIGHBOR_ROUNDS <= k < outs[e.0].len() && #[trigger] outs[e.0][k] as int == e.1)
                || (exists|j: int| 0 <= j < ins[e.0].len() && #[trigger] ins[e.0][j] as int == e.1)),
    )
}

/// The out-edges of the vertices `start..end`: all of them when `whole`
/// holds, else those below position `cap` of the out-list of their source.
pub open spec fn out_edges_upto(
    outs: Seq<Seq<usize>>,
    start: int,
    end: int,
    cap: int,
    whole: bool,
) -> Set<(int, int)> {
    Set::new(
        |e: (int, int)|
            start <= e.0 < end && exists|k: int|
                0 <= k < outs[e.0].len() && (whole || k < cap) && #[trigger] outs[e.0][k] as int
                    == e.1,
    )
}

/// The pairs that the sampling phase joins: each vertex with the targets of
/// its first `NEIGHBOR_ROUNDS` out-edges.
pub open spec fn sampled_edges(outs: Seq<Seq<usize>>) -> Set<(int, int)> {
    out_edges_upto(outs, 0, outs.len() as int, NEIGHBOR_ROUNDS as int, false)
}

/// All out-edges of the vertices `start..end`.
pub open spec fn chunk_edges(outs: Seq<Seq<usize>>, start: int, end: int) -> Set<(int, int)> {
    out_edges_upto(outs, start, end, 0, true)
}

proof fn lemma_out_edges_empty(outs: Seq<Seq<usize>>, start: int, cap: int, whole: bool)
    ensures
        out_edges_upto(outs, start, start, cap, whole) == Set::<(int, int)>::empty(),
{
    assert(out_edges_upto(outs, start, start, cap, whole) =~= Set::<(int, int)>::empty());
}

/// Taking one more source vertex adds the out-edges of that vertex.
proof fn lemma_out_edges_step(
    outs: Seq<Seq<usize>>,
    start: int,
    u: int,
    cap: int,
    whole: bool,
    m: int,
)
    requires
        start <= u,
        0 <= m <= outs[u].len(),
        whole ==> m == outs[u].len(),
        !whole ==> m == if cap < outs[u].len() {
            cap
        } else {
            outs[u].len() as int
        },
    ensures
        out_edges_upto(outs, start, u + 1, cap, whole) == out_edges_upto(
            outs,
            start,
            u,
            cap,
            whole,
        ).union(vertex_out_edges(outs, u, 0, m)),
{
    let lhs = out_edges_upto(outs, start, u + 1, cap, whole);
    let rhs = out_edges_upto(outs, start, u, cap, whole).union(vertex_out_edges(outs, u, 0, m));
    assert forall|e: (int, int)| #[trigger] lhs.contains(e) implies rhs.contains(e) by {
        let k = choose|k: int|
            0 <= k < outs[e.0].len() && (whole || k < cap) && #[trigger] outs[e.0][k] as int
                == e.1;
        if e.0 == u {
            assert(0 <= k < m);
            assert(vertex_out_edges(outs, u, 0, m).contains(e));
        } else {
            assert(out_edges_upto(outs, start, u, cap, whole).contains(e));
        }
    }
    assert forall|e: (int, int)| #[trigger] rhs.contains(e) implies lhs.contains(e) by {
        if vertex_out_edges(outs, u, 0, m).contains(e) {
            let k = choose|k: int| 0 <= k < m && #[trigger] outs[u][k] as int == e.1;
            assert(0 <= k < outs[e.0].len() && (whole || k < cap) && outs[e.0][k] as int == e.1);
        } else {
            let k = choose|k: int|
                0 <= k < outs[e.0].len() && (whole || k < cap) && #[trigger] outs[e.0][k] as int
                    == e.1;
            assert(0 <= k < outs[e.0].len() && (whole || k < cap) && outs[e.0][k] as int == e.1);
        }
    }
    assert(lhs =~= rhs);
}

/// Joins `u` with the targets of its out-edges `lo..hi`.
fn link_out_range(graph: &DirectedGraph, dss: &mut DisjointSetStruct, u: usize, lo: usize, hi: usize)
    requires
        graph.wf(),
        old(dss).wf(),
        sound(graph.outs(), old(dss)@),
        u < graph.outs().len(),
        lo <= hi <= graph.outs()[u as int].len(),
    ensures
        final(dss).wf(),
        sound(graph.outs(), final(dss)@),
        coarsens(old(dss)@, final(dss)@),
        joins_exactly(old(dss)@, vertex_out_edges(graph.outs(), u as int, lo as int, hi as int), final(dss)@),
        forall|i: int| lo <= i < hi ==> joined(final(dss)@, u as int, #[trigger] graph.outs()[u as int][i] as int),
{
    let ghost outs = graph.outs();
    let neighbors = graph.out_neighbors(u);
    proof {
        assert(vertex_out_edges(outs, u as int, lo as int, lo as int) =~= Set::empty());
        lemma_joins_exactly_nothing(dss@);
    }
    let mut i = lo;
    while i < hi
        invariant
            graph.wf(),
            outs == graph.outs(),
            neighbors@ == outs[u as int],
            u < outs.len(),
            lo <= i <= hi <= outs[u as int].len(),
            dss.wf(),
            sound(outs, dss@),
            coarsens(old(dss)@, dss@),
            joins_exactly(old(dss)@, vertex_out_edges(outs, u as int, lo as int, i as int), dss@),
            forall|k: int| lo <= k < i ==> joined(dss@, u as int, #[trigger] outs[u as int][k] as int),
        decreases hi - i,
    {
        let v = neighbors[i];
        let ghost p = dss@;
        proof {
            lemma_edge_same_component(outs, u as int, i as int);
        }
        dss.union(u, v);
        proof {
            lemma_sound_union(outs, p, dss@, u as int, v as int);
            lemma_coarsens_trans(old(dss)@, p, dss@);
            lemma_joins_exactly_union(
                old(dss)@,
                vertex_out_edges(outs, u as int, lo as int, i as int),
                p,
                dss@,
                u as int,
                v as int,
            );
            let before = vertex_out_edges(outs, u as int, lo as int, i as int);
            let after = vertex_out_edges(outs, u as int, lo as int, i + 1);
            assert forall|e: (int, int)| #[trigger] after.contains(e) implies before.insert(
                (u as int, v as int),
            ).contains(e) by {
                let k = choose|k: int| lo <= k < i + 1 && #[trigger] outs[u as int][k] as int == e.1;
                if k < i {
                    assert(before.contains(e));
                }
            }
            assert forall|e: (int, int)| #[trigger] before.insert((u as int, v as int)).contains(
                e,
            ) implies after.contains(e) by {
                if e == (u as int, v as int) {
                    assert(outs[u as int][i as int] as int == e.1);
                } else {
                    let k = choose|k: int| lo <= k < i && #[trigger] outs[u as int][k] as int == e.1;
                    assert(lo <= k < i + 1);
                }
            }
            assert(after =~= before.insert((u as int, v as int)));
            assert forall|k: int| lo <= k < i + 1 implies joined(dss@, u as int, #[trigger] outs[u as int][k] as int) by {
                if k < i {
                    assert(joined(p, u as int, outs[u as int][k] as int));
                }
            }
        }
        i = i + 1;
    }
}

/// Joins `v` with the sources of all its in-edges.
fn link_in_edges(graph: &DirectedGraph, dss: &mut DisjointSetStruct, v: usize)
    requires
        graph.wf(),
        old(dss).wf(),
        sound(graph.outs(), old(dss)@),
        v < graph.outs().len(),
    ensures
        final(dss).wf(),
        sound(graph.outs(), final(dss)@),
        coarsens(old(dss)@, final(dss)@),
        joins_within(old(dss)@, remainder_edges(graph.outs(), graph.ins()), final(dss)@),
        forall|j: int| 0 <= j < graph.ins()[v as int].len() ==> joined(final(dss)@, v as int, #[trigger] graph.ins()[v as int][j] as int),
{
    let ghost outs = graph.outs();
    let ghost ins = graph.ins();
    let sources = graph.in_neighbors(v);
    proof {
        lemma_joins_within_refl(dss@, remainder_edges(outs, ins));
    }
    let mut j: usize = 0;
    while j < sources.len()
        invariant
            graph.wf(),
            outs == graph.outs(),
            ins == graph.ins(),
            sources@ == ins[v as int],
            v < outs.len(),
            j <= sources@.len(),
            dss.wf(),
            sound(outs, dss@),
            coarsens(old(dss)@, dss@),
            joins_within(old(dss)@, remainder_edges(outs, ins), dss@),
            forall|k: int| 0 <= k < j ==> joined(dss@, v as int, #[trigger] ins[v as int][k] as int),
        decreases sources@.len() - j,
    {
        let w = sources[j];
        let ghost p = dss@;
        proof {
            lemma_in_edge_same_component(outs, ins, v as int, j as int);
        }
        dss.union(v, w);
        proof {
            lemma_sound_union(outs, p, dss@, v as int, w as int);
            lemma_coarsens_trans(old(dss)@, p, dss@);
            assert(ins[v as int][j as int] as int == w as int);
            assert(remainder_edges(outs, ins).contains((v as int, w as int)));
            lemma_joins_within_union(
                old(dss)@,
                remainder_edges(outs, ins),
                p,
                dss@,
                v as int,
                w as int,
            );
            assert forall|k: int| 0 <= k < j + 1 implies joined(dss@, v as int, #[trigger] ins[v as int][k] as int) by {
                if k < j {
                    assert(joined(p, v as int, ins[v as int][k] as int));
                }
            }
        }
        j = j + 1;
    }
}

/// The end of the chunk of vertices that starts at `start`: `CHUNK_SIZE`
/// further on, but never past `node_count`.
pub fn chunk_end(start: usize, node_count: usize) -> (end: usize)
    ensures
        end == if start + CHUNK_SIZE < node_count {
            start + CHUNK_SIZE
        } else {
            node_count as int
        },
{
    let end = start.saturating_add(CHUNK_SIZE);
    if end < node_count {
        end
    } else {
        node_count
    }
}

/// Joins every vertex of `start..end` with the targets of all its out-edges.
pub fn link_chunk(graph: &DirectedGraph, dss: &mut DisjointSetStruct, start: usize, end: usize)
    requires
        graph.wf(),
        old(dss).wf(),
        sound(graph.outs(), old(dss)@),
        start <= end <= graph.outs().len(),
    ensures
        final(dss).wf(),
        sound(graph.outs(), final(dss)@),
        coarsens(old(dss)@, final(dss)@),
        joins_exactly(old(dss)@, chunk_edges(graph.outs(), start as int, end as int), final(dss)@),
        forall|u: int, i: int|
            start <= u < end && 0 <= i < graph.outs()[u].len() ==> joined(
                final(dss)@,
                u,
                #[trigger] graph.outs()[u][i] as int,
            ),
{
    let ghost outs = graph.outs();
    proof {
        lemma_out_edges_empty(outs, start as int, 0, true);
        lemma_joins_exactly_nothing(dss@);
    }
    let mut u = start;
    while u < end
        invariant
            graph.wf(),
            outs == graph.outs(),
            start <= u <= end <= outs.len(),
            dss.wf(),
            sound(outs, dss@),
            coarsens(old(dss)@, dss@),
            joins_exactly(old(dss)@, chunk_edges(outs, start as int, u as int), dss@),
            forall|w: int, i: int|
                start <= w < u && 0 <= i < outs[w].len() ==> joined(
                    dss@,
                    w,
                    #[trigger] outs[w][i] as int,
                ),
        decreases end - u,
    {
        let ghost p = dss@;
        let degree = graph.out_degree(u);
        link_out_range(graph, dss, u, 0, degree);
        proof {
            lemma_coarsens_trans(old(dss)@, p, dss@);
            lemma_joins_exactly_compose(
                old(dss)@,
                chunk_edges(outs, start as int, u as int),
                p,
                vertex_out_edges(outs, u as int, 0, degree as int),
                dss@,
            );
            lemma_out_edges_step(outs, start as int, u as int, 0, true, degree as int);
            assert forall|w: int, i: int|
                start <= w < u + 1 && 0 <= i < outs[w].len() implies joined(
                dss@,
                w,
                #[trigger] outs[w][i] as int,
            ) by {
                if w < u {
                    assert(joined(p, w, outs[w][i] as int));
                }
            }
        }
        u = u + 1;
    }
}

/// Components by joining the ends of every edge, one vertex after another.
pub fn wcc_single_thread(graph: &DirectedGraph) -> (dss: DisjointSetStruct)
    requires
        graph.wf(),
    ensures
        dss.wf(),
        is_components(graph.outs(), dss@),
{
    let n = graph.node_count();
    let mut dss = DisjointSetStruct::new(n);
    proof {
        lemma_sound_singletons(graph.outs(), dss@);
    }
    link_chunk(graph, &mut dss, 0, n);
    proof {
        lemma_components(graph.outs(), graph.ins(), dss@);
    }
    dss
}

/// Joins every vertex with the targets of its first `NEIGHBOR_ROUNDS` out-edges.
pub fn sample_subgraph(graph: &DirectedGraph, dss: &mut DisjointSetStruct)
    requires
        graph.wf(),
        old(dss).wf(),
        sound(graph.outs(), old(dss)@),
    ensures
        final(dss).wf(),
        sound(graph.outs(), final(dss)@),
        coarsens(old(dss)@, final(dss)@),
        joins_exactly(old(dss)@, sampled_edges(graph.outs()), final(dss)@),
        closes_sampled_edges(graph.outs(), final(dss)@),
{
    let ghost outs = graph.outs();
    let n = graph.node_count();
    proof {
        lemma_out_edges_empty(outs, 0, NEIGHBOR_ROUNDS as int, false);
        lemma_joins_exactly_nothing(dss@);
    }
    let mut u: usize = 0;
    while u < n
        invariant
            graph.wf(),
            outs == graph.outs(),
            n == outs.len(),
            u <= n,
            dss.wf(),
            sound(outs, dss@),
            coarsens(old(dss)@, dss@),
            joins_exactly(old(dss)@, out_edges_upto(outs, 0, u as int, NEIGHBOR_ROUNDS as int, false), dss@),
            forall|w: int, i: int|
                0 <= w < u && 0 <= i < outs[w].len() && i < NEIGHBOR_ROUNDS ==> joined(
                    dss@,
                    w,
                    #[trigger] outs[w][i] as int,
                ),
        decreases n - u,
    {
        let ghost p = dss@;
        let degree = graph.out_degree(u);
        let limit = if degree < NEIGHBOR_ROUNDS {
            degree
        } else {
            NEIGHBOR_ROUNDS
        };
        link_out_range(graph, dss, u, 0, limit);
        proof {
            lemma_coarsens_trans(old(dss)@, p, dss@);
            lemma_joins_exactly_compose(
                old(dss)@,
                out_edges_upto(outs, 0, u as int, NEIGHBOR_ROUNDS as int, false),
                p,
                vertex_out_edges(outs, u as int, 0, limit as int),
                dss@,
            );
            lemma_out_edges_step(outs, 0, u as int, NEIGHBOR_ROUNDS as int, false, limit as int);
            assert forall|w: int, i: int|
                0 <= w < u + 1 && 0 <= i < outs[w].len() && i < NEIGHBOR_ROUNDS implies joined(
                dss@,
                w,
                #[trigger] outs[w][i] as int,
            ) by {
                if w < u {
                    assert(joined(p, w, outs[w][i] as int));
                }
            }
        }
        u = u + 1;
    }
}

proof fn lemma_remainder_linked_coarsens(
    outs: Seq<Seq<usize>>,
    ins: Seq<Seq<usize>>,
    p: Seq<usize>,
    q: Seq<usize>,
    u: int,
    skip: int,
)
    requires
        is_adjacency(outs, ins),
        p.len() == outs.len(),
        coarsens(p, q),
        0 <= u < outs.len(),
        0 <= skip < outs.len(),
        remainder_linked(outs, ins, p, u, skip),
    ensures
        remainder_linked(outs, ins, q, u, skip),
{
    if joined(p, u, skip) {
        assert(joined(q, u, skip));
    } else {
        assert forall|i: int| NEIGHBOR_ROUNDS <= i < outs[u].len() implies joined(
            q,
            u,
            #[trigger] outs[u][i] as int,
        ) by {
            assert(joined(p, u, outs[u][i] as int));
        }
        assert forall|j: int| 0 <= j < ins[u].len() implies joined(
            q,
            u,
            #[trigger] ins[u][j] as int,
        ) by {
            assert(joined(p, u, ins[u][j] as int));
        }
    }
}

/// Links what sampling left out: every vertex whose representative is not
/// `skip` is joined with the targets of its out-edges past the first
/// `NEIGHBOR_ROUNDS` and with the sources of its in-edges.
pub fn link_remaining(graph: &DirectedGraph, dss: &mut DisjointSetStruct, skip: usize)
    requires
        graph.wf(),
        old(dss).wf(),
        sound(graph.outs(), old(dss)@),
        skip < graph.outs().len(),
    ensures
        final(dss).wf(),
        sound(graph.outs(), final(dss)@),
        coarsens(old(dss)@, final(dss)@),
        joins_within(old(dss)@, remainder_edges(graph.outs(), graph.ins()), final(dss)@),
        forall|u: int|
            0 <= u < graph.outs().len() ==> #[trigger] remainder_linked(
                graph.outs(),
                graph.ins(),
                final(dss)@,
                u,
                skip as int,
            ),
{
    let ghost outs = graph.outs();
    let ghost ins = graph.ins();
    let n = graph.node_count();
    proof {
        lemma_joins_within_refl(dss@, remainder_edges(outs, ins));
    }
    let mut u: usize = 0;
    while u < n
        invariant
            graph.wf(),
            outs == graph.outs(),
            ins == graph.ins(),
            n == outs.len(),
            u <= n,
            skip < n,
            dss.wf(),
            sound(outs, dss@),
            coarsens(old(dss)@, dss@),
            joins_within(old(dss)@, remainder_edges(outs, ins), dss@),
            forall|w: int|
                0 <= w < u ==> #[trigger] remainder_linked(outs, ins, dss@, w, skip as int),
        decreases n - u,
    {
        let ghost p = dss@;
        let r = dss.find(u);
        proof {
            lemma_sound_same_roots(outs, p, dss@);
            lemma_coarsens_trans(old(dss)@, p, dss@);
            lemma_joins_within_same_roots(old(dss)@, remainder_edges(outs, ins), p, dss@);
        }
        let ghost p1 = dss@;
        if r != skip {
            let degree = graph.out_degree(u);
            if degree > NEIGHBOR_ROUNDS {
                link_out_range(graph, dss, u, NEIGHBOR_ROUNDS, degree);
                proof {
                    let sub = vertex_out_edges(outs, u as int, NEIGHBOR_ROUNDS as int, degree as int);
                    assert forall|e: (int, int)| #[trigger] sub.contains(e) implies remainder_edges(
                        outs,
                        ins,
                    ).contains(e) by {
                        let k = choose|k: int|
                            NEIGHBOR_ROUNDS <= k < degree && #[trigger] outs[u as int][k] as int == e.1;
                        assert(NEIGHBOR_ROUNDS <= k < outs[e.0].len() && outs[e.0][k] as int == e.1);
                    }
                    lemma_joins_within_extend(old(dss)@, remainder_edges(outs, ins), p1, sub, dss@);
                }
            }
            let ghost p2 = dss@;
            proof {
                lemma_coarsens_trans(p1, p2, dss@);
            }
            link_in_edges(graph, dss, u);
            proof {
                lemma_joins_within_extend(
                    old(dss)@,
                    remainder_edges(outs, ins),
                    p2,
                    remainder_edges(outs, ins),
                    dss@,
                );
                lemma_coarsens_trans(p1, p2, dss@);
                assert forall|i: int| NEIGHBOR_ROUNDS <= i < outs[u as int].len() implies joined(
                    dss@,
                    u as int,
                    #[trigger] outs[u as int][i] as int,
                ) by {
                    assert(joined(p2, u as int, outs[u as int][i] as int));
                }
                assert(remainder_linked(outs, ins, dss@, u as int, skip as int));
            }
        } else {
            proof {
                lemma_root_is_root(p, u as int);
                assert(root_of(p1, skip as int) == root_of(p, skip as int));
                assert(joined(dss@, u as int, skip as int));
            }
        }
        proof {
            lemma_coarsens_trans(old(dss)@, p1, dss@);
            assert forall|w: int| 0 <= w < u + 1 implies #[trigger] remainder_linked(
                outs,
                ins,
                dss@,
                w,
                skip as int,
            ) by {
                if w < u {
                    lemma_coarsens_trans(p, p1, dss@);
                    lemma_remainder_linked_coarsens(outs, ins, p, dss@, w, skip as int);
                }
            }
        }
        u = u + 1;
    }
}

/// Relies on rand's `thread_rng().gen_range(0..n)`: a value drawn from
/// `0..n`. It panics on an empty range, which `requires` leaves out.
#[verifier::external_body]
fn random_index(n: usize) -> (r: usize)
    requires
        n > 0,
    ensures
        r < n,
{
    rand::thread_rng().gen_range(0..n)
}

/// The representatives of the vertices `picks`, taken in `p`.
pub open spec fn roots_of(p: Seq<usize>, picks: Seq<usize>) -> Seq<usize> {
    picks.map_values(|k: usize| root_of(p, k as int) as usize)
}

/// The most frequent representative among those of `picks`, the earliest
/// one among equally frequent ones. Finding them
/// halves paths but changes no representative.
pub fn largest_component_of(dss: &mut DisjointSetStruct, picks: &Vec<usize>) -> (r: usize)
    requires
        old(dss).wf(),
        picks@.len() > 0,
        forall|k: int| 0 <= k < picks@.len() ==> #[trigger] picks@[k] < old(dss)@.len(),
    ensures
        final(dss).wf(),
        same_roots(old(dss)@, final(dss)@),
        occurrences(roots_of(old(dss)@, picks@), r) > 0,
        forall|x: usize|
            #[trigger] occurrences(roots_of(old(dss)@, picks@), x) <= occurrences(
                roots_of(old(dss)@, picks@),
                r,
            ),
        forall|j: int|
            0 <= j < picks@.len() && (forall|i: int|
                0 <= i <= j ==> roots_of(old(dss)@, picks@)[i] != r) ==> occurrences(
                roots_of(old(dss)@, picks@),
                #[trigger] roots_of(old(dss)@, picks@)[j],
            ) < occurrences(roots_of(old(dss)@, picks@), r),
        r < final(dss)@.len(),
        final(dss)@[r as int] == r,
{
    let ghost p0 = dss@;
    let mut roots: Vec<usize> = Vec::with_capacity(picks.len());
    let mut i: usize = 0;
    while i < picks.len()
        invariant
            dss.wf(),
            is_forest(p0),
            same_roots(p0, dss@),
            i <= picks@.len(),
            forall|k: int| 0 <= k < picks@.len() ==> #[trigger] picks@[k] < p0.len(),
            roots@ == roots_of(p0, picks@).take(i as int),
        decreases picks@.len() - i,
    {
        let r = dss.find(picks[i]);
        proof {
            lemma_root_is_root(p0, picks@[i as int] as int);
        }
        roots.push(r);
        proof {
            assert(roots@ =~= roots_of(p0, picks@).take(i + 1));
        }
        i = i + 1;
    }
    proof {
        assert(roots@ =~= roots_of(p0, picks@));
    }
    let r = most_frequent(&roots);
    proof {
        lemma_occurrence_index(roots@, r);
        let k = choose|k: int| 0 <= k < roots@.len() && roots@[k] == r;
        lemma_root_is_root(p0, picks@[k] as int);
        let q = dss@;
        assert(root_of(q, r as int) == r);
        if (q[r as int] as int) < r {
            lemma_root_is_root(q, q[r as int] as int);
        }
    }
    r
}

/// An estimate of the largest component after sampling: the most frequent
/// representative of `SAMPLING_SIZE` vertices drawn at random. Whatever is
/// drawn, the result is a root and no representative changes.
pub fn find_largest_component(dss: &mut DisjointSetStruct) -> (r: usize)
    requires
        old(dss).wf(),
        old(dss)@.len() > 0,
    ensures
        final(dss).wf(),
        same_roots(old(dss)@, final(dss)@),
        r < final(dss)@.len(),
        final(dss)@[r as int] == r,
{
    let n = dss.len();
    let mut picks: Vec<usize> = Vec::with_capacity(SAMPLING_SIZE);
    let mut i: usize = 0;
    while i < SAMPLING_SIZE
        invariant
            n == dss@.len(),
            n > 0,
            i <= SAMPLING_SIZE,
            picks@.len() == i,
            forall|k: int| 0 <= k < i ==> #[trigger] picks@[k] < n,
        decreases SAMPLING_SIZE - i,
    {
        picks.push(random_index(n));
        i = i + 1;
    }
    largest_component_of(dss, &picks)
}

/// The ends of every edge are joined once the sampled edges are and every
/// vertex has had its remainder linked.
proof fn lemma_closes_after_remainder(
    outs: Seq<Seq<usize>>,
    ins: Seq<Seq<usize>>,
    p: Seq<usize>,
    skip: int,
)
    requires
        is_adjacency(outs, ins),
        p.len() == outs.len(),
        outs.len() <= usize::MAX,
        0 <= skip < outs.len(),
        closes_sampled_edges(outs, p),
        forall|u: int| 0 <= u < outs.len() ==> #[trigger] remainder_linked(outs, ins, p, u, skip),
    ensures
        closes_edges(outs, p),
{
    assert forall|u: int, i: int| 0 <= u < outs.len() && 0 <= i < outs[u].len() implies joined(
        p,
        u,
        #[trigger] outs[u][i] as int,
    ) by {
        let v = outs[u][i] as int;
        if i >= NEIGHBOR_ROUNDS {
            assert(remainder_linked(outs, ins, p, u, skip));
            assert(remainder_linked(outs, ins, p, v, skip));
            if joined(p, u, skip) && !joined(p, v, skip) {
                assert(ins[v].contains(u as usize));
                let j = choose|j: int| 0 <= j < ins[v].len() && ins[v][j] == u as usize;
                assert(joined(p, v, ins[v][j] as int));
            } else if !joined(p, u, skip) {
                assert(joined(p, u, outs[u][i] as int));
            }
        }
    }
}

/// The weakly connected components, found in three phases: join along the
/// first out-edges of every vertex, estimate the largest component from a
/// random sample, then link the remaining edges of the vertices outside it.
/// The result does not depend on what the sample drew.
pub fn wcc(graph: &DirectedGraph) -> (dss: DisjointSetStruct)
    requires
        graph.wf(),
    ensures
        dss.wf(),
        is_components(graph.outs(), dss@),
{
    let ghost outs = graph.outs();
    let ghost ins = graph.ins();
    let n = graph.node_count();
    let mut dss = DisjointSetStruct::new(n);
    proof {
        lemma_sound_singletons(outs, dss@);
    }
    sample_subgraph(graph, &mut dss);
    if n > 0 {
        let ghost p1 = dss@;
        let giant = find_largest_component(&mut dss);
        let ghost p2 = dss@;
        proof {
            lemma_sound_same_roots(outs, p1, p2);
        }
        link_remaining(graph, &mut dss, giant);
        proof {
            lemma_coarsens_trans(p1, p2, dss@);
            assert forall|u: int, i: int|
                0 <= u < outs.len() && 0 <= i < outs[u].len() && i < NEIGHBOR_ROUNDS implies joined(
                dss@,
                u,
                #[trigger] outs[u][i] as int,
            ) by {
                assert(joined(p1, u, outs[u][i] as int));
            }
            lemma_closes_after_remainder(outs, ins, dss@, giant as int);
        }
    }
    proof {
        lemma_components(outs, ins, dss@);
    }
    dss
}

} // verus!
