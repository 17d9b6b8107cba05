use wcc::dss::DisjointSetStruct;
use wcc::graph::DirectedGraph;
use wcc::histogram::most_frequent;
use wcc::wcc::{
    chunk_end, find_largest_component, largest_component_of, link_chunk, link_remaining,
    sample_subgraph, CHUNK_SIZE,
};

#[test]
fn new_structure_is_all_singletons() {
    let mut dss = DisjointSetStruct::new(4);
    assert_eq!(dss.len(), 4);
    for v in 0..4 {
        assert_eq!(dss.find(v), v);
    }
}

#[test]
fn union_links_under_the_lower_root() {
    let mut dss = DisjointSetStruct::new(5);
    dss.union(4, 2);
    assert_eq!(dss.find(4), 2);
    dss.union(3, 4);
    assert_eq!(dss.find(3), 2);
    dss.union(1, 0);
    dss.union(4, 1);
    for v in 0..5 {
        assert_eq!(dss.find(v), 0);
    }
}

#[test]
fn union_twice_changes_nothing_more() {
    let mut once = DisjointSetStruct::new(6);
    let mut twice = DisjointSetStruct::new(6);
    for d in [&mut once, &mut twice] {
        d.union(5, 3);
        d.union(1, 2);
    }
    once.union(3, 2);
    twice.union(3, 2);
    twice.union(3, 2);
    for v in 0..6 {
        assert_eq!(once.find(v), twice.find(v));
    }
}

#[test]
fn union_commutes() {
    let mut a = DisjointSetStruct::new(4);
    let mut b = DisjointSetStruct::new(4);
    a.union(1, 3);
    b.union(3, 1);
    for v in 0..4 {
        assert_eq!(a.find(v), b.find(v));
    }
    assert_eq!(a.find(3), 1);
}

#[test]
fn joined_vertices_stay_joined() {
    let mut dss = DisjointSetStruct::new(8);
    dss.union(6, 7);
    assert_eq!(dss.find(6), dss.find(7));
    for (a, b) in [(0, 1), (2, 3), (1, 3), (5, 4), (7, 0)] {
        dss.union(a, b);
        assert_eq!(dss.find(6), dss.find(7));
    }
    assert_eq!(dss.find(7), dss.find(2));
    assert_ne!(dss.find(7), dss.find(4));
}

#[test]
fn self_union_is_no_op() {
    let mut dss = DisjointSetStruct::new(3);
    dss.union(2, 2);
    for v in 0..3 {
        assert_eq!(dss.find(v), v);
    }
}

#[test]
fn long_chain_finds_the_root() {
    let mut dss = DisjointSetStruct::new(1000);
    for v in (1..1000).rev() {
        dss.union(v, v - 1);
    }
    assert_eq!(dss.find(999), 0);
    assert_eq!(dss.find(500), 0);
}

#[test]
fn graph_lists_edges_in_order() {
    let graph = DirectedGraph::new(4, &vec![(0, 2), (0, 1), (3, 1), (0, 3)]);
    assert_eq!(graph.node_count(), 4);
    assert_eq!(graph.out_degree(0), 3);
    assert_eq!(graph.out_neighbors(0), &vec![2, 1, 3]);
    assert_eq!(graph.out_neighbors(2), &Vec::<usize>::new());
    assert_eq!(graph.in_neighbors(1), &vec![0, 3]);
    assert_eq!(graph.in_neighbors(3), &vec![0]);
}

#[test]
fn graph_from_edges_counts_vertices() {
    assert_eq!(DirectedGraph::from_edges(&vec![(0, 1), (2, 3)]).node_count(), 4);
    assert_eq!(DirectedGraph::from_edges(&vec![(6, 1)]).node_count(), 7);
    assert_eq!(DirectedGraph::from_edges(&vec![]).node_count(), 0);
}

#[test]
fn most_frequent_picks_the_mode() {
    assert_eq!(most_frequent(&vec![3, 1, 3, 2, 3, 1]), 3);
    assert_eq!(most_frequent(&vec![7]), 7);
    assert_eq!(most_frequent(&vec![4, 5, 5, 4, 5]), 5);
}

#[test]
fn most_frequent_tie_goes_to_first_seen() {
    assert_eq!(most_frequent(&vec![9, 2, 2, 9]), 9);
}

#[test]
fn chunk_end_stops_at_node_count() {
    assert_eq!(CHUNK_SIZE, 16384);
    assert_eq!(chunk_end(0, 100), 100);
    assert_eq!(chunk_end(0, 40000), 16384);
    assert_eq!(chunk_end(16384, 40000), 32768);
    assert_eq!(chunk_end(32768, 40000), 40000);
    assert_eq!(chunk_end(usize::MAX - 5, usize::MAX), usize::MAX);
}

#[test]
fn largest_component_of_given_picks() {
    let mut dss = DisjointSetStruct::new(6);
    dss.union(3, 4);
    dss.union(4, 5);
    assert_eq!(largest_component_of(&mut dss, &vec![0, 4, 5, 1, 3]), 3);
    assert_eq!(largest_component_of(&mut dss, &vec![2, 2, 5]), 2);
}

#[test]
fn largest_component_tie_goes_to_first_sampled() {
    let mut dss = DisjointSetStruct::new(6);
    dss.union(3, 4);
    assert_eq!(largest_component_of(&mut dss, &vec![1, 4, 3, 1]), 1);
    assert_eq!(largest_component_of(&mut dss, &vec![4, 1, 3, 1]), 3);
}

#[test]
fn random_estimate_is_a_root_in_range() {
    let mut dss = DisjointSetStruct::new(5);
    dss.union(1, 2);
    dss.union(2, 3);
    dss.union(3, 4);
    for _ in 0..20 {
        let r = find_largest_component(&mut dss);
        assert!(r < 5);
        assert_eq!(dss.find(r), r);
    }
    let mut single = DisjointSetStruct::new(1);
    assert_eq!(find_largest_component(&mut single), 0);
}

#[test]
fn random_estimate_finds_a_dominant_component() {
    let mut dss = DisjointSetStruct::new(100);
    for v in 1..99 {
        dss.union(v, 0);
    }
    assert_eq!(find_largest_component(&mut dss), 0);
}

#[test]
fn sampling_links_only_first_two_out_edges() {
    let graph = DirectedGraph::new(6, &vec![(0, 1), (0, 2), (0, 3), (4, 5)]);
    let mut dss = DisjointSetStruct::new(6);
    sample_subgraph(&graph, &mut dss);
    assert_eq!(dss.find(1), 0);
    assert_eq!(dss.find(2), 0);
    assert_eq!(dss.find(3), 3);
    assert_eq!(dss.find(5), 4);
}

#[test]
fn remainder_skips_the_given_component() {
    let graph = DirectedGraph::new(5, &vec![(2, 0), (3, 4)]);
    let mut dss = DisjointSetStruct::new(5);
    link_remaining(&graph, &mut dss, 0);
    assert_eq!(dss.find(2), 2);
    assert_eq!(dss.find(0), 0);
    assert_eq!(dss.find(4), 3);
}

#[test]
fn link_chunk_covers_its_range_only() {
    let graph = DirectedGraph::new(6, &vec![(0, 1), (2, 3), (4, 5)]);
    let mut dss = DisjointSetStruct::new(6);
    link_chunk(&graph, &mut dss, 1, 3);
    assert_eq!(dss.find(1), 1);
    assert_eq!(dss.find(3), 2);
    assert_eq!(dss.find(5), 5);
    link_chunk(&graph, &mut dss, 0, 6);
    assert_eq!(dss.find(1), 0);
    assert_eq!(dss.find(5), 4);
}
