use wcc::dss::DisjointSetStruct;
use wcc::graph::DirectedGraph;
use wcc::wcc::{wcc, wcc_single_thread};

fn classes(dss: &mut DisjointSetStruct) -> Vec<Vec<usize>> {
    let n = dss.len();
    let mut out: Vec<Vec<usize>> = Vec::new();
    let mut seen_roots: Vec<usize> = Vec::new();
    for v in 0..n {
        let r = dss.find(v);
        match seen_roots.iter().position(|x| *x == r) {
            Some(i) => out[i].push(v),
            None => {
                seen_roots.push(r);
                out.push(vec![v]);
            }
        }
    }
    out
}

fn check_both(n: usize, edges: Vec<(usize, usize)>, expected: Vec<Vec<usize>>) {
    let graph = DirectedGraph::new(n, &edges);
    let mut a = wcc(&graph);
    let mut b = wcc_single_thread(&graph);
    assert_eq!(a.len(), n);
    assert_eq!(classes(&mut a), expected);
    assert_eq!(classes(&mut b), expected);
}

#[test]
fn two_components() {
    let graph = DirectedGraph::from_edges(&vec![(0, 1), (2, 3)]);

    let mut dss = wcc(&graph);

    assert_eq!(dss.find(0), dss.find(1));
    assert_eq!(dss.find(2), dss.find(3));
    assert_ne!(dss.find(1), dss.find(2));
}

#[test]
fn scenario_two_pairs() {
    check_both(4, vec![(0, 1), (2, 3)], vec![vec![0, 1], vec![2, 3]]);
}

#[test]
fn scenario_cycle() {
    check_both(3, vec![(0, 1), (1, 2), (2, 0)], vec![vec![0, 1, 2]]);
}

#[test]
fn scenario_in_fan() {
    check_both(3, vec![(0, 1), (2, 1)], vec![vec![0, 1, 2]]);
}

#[test]
fn scenario_star_past_sampled_edges() {
    check_both(
        6,
        vec![(0, 1), (0, 2), (0, 3), (0, 4), (0, 5)],
        vec![vec![0, 1, 2, 3, 4, 5]],
    );
}

#[test]
fn scenario_isolated_vertices() {
    check_both(
        8,
        vec![(0, 1), (1, 2)],
        vec![vec![0, 1, 2], vec![3], vec![4], vec![5], vec![6], vec![7]],
    );
}

#[test]
fn scenario_no_edges() {
    check_both(5, vec![], vec![vec![0], vec![1], vec![2], vec![3], vec![4]]);
}

#[test]
fn empty_graph_gives_empty_structure() {
    let graph = DirectedGraph::new(0, &vec![]);
    assert_eq!(wcc(&graph).len(), 0);
    assert_eq!(wcc_single_thread(&graph).len(), 0);
}

#[test]
fn self_loops_and_duplicate_edges() {
    check_both(
        4,
        vec![(1, 1), (2, 3), (2, 3), (3, 2)],
        vec![vec![0], vec![1], vec![2, 3]],
    );
}

#[test]
fn representatives_are_lowest_vertex_and_roots() {
    let edges = vec![(5, 4), (4, 3), (7, 6), (6, 5), (9, 8), (1, 2), (2, 0)];
    let graph = DirectedGraph::new(10, &edges);
    let mut dss = wcc(&graph);
    for v in 0..10 {
        let r = dss.find(v);
        assert_eq!(dss.find(r), r);
    }
    assert_eq!(dss.find(2), 0);
    assert_eq!(dss.find(7), 3);
    assert_eq!(dss.find(9), 8);
}

#[test]
fn repeated_runs_give_one_partition() {
    let mut edges = Vec::new();
    for u in 0..300usize {
        edges.push((u, (u * 7 + 3) % 300));
        if u % 5 != 0 {
            edges.push((u, (u * 13 + 1) % 300));
        }
        edges.push(((u * 11) % 300, u));
    }
    edges.push((400, 401));
    let graph = DirectedGraph::new(450, &edges);
    let mut reference = wcc_single_thread(&graph);
    let expected = classes(&mut reference);
    for _ in 0..5 {
        let mut dss = wcc(&graph);
        assert_eq!(classes(&mut dss), expected);
    }
}

#[test]
fn matches_flood_fill() {
    let edges = vec![(0, 3), (3, 6), (1, 4), (7, 4), (8, 2), (5, 5), (9, 10), (10, 11), (12, 9)];
    let n = 14;
    let graph = DirectedGraph::new(n, &edges);
    let mut label = vec![usize::MAX; n];
    for s in 0..n {
        if label[s] != usize::MAX {
            continue;
        }
        let mut stack = vec![s];
        label[s] = s;
        while let Some(x) = stack.pop() {
            for &(a, b) in &edges {
                let next = if a == x { b } else if b == x { a } else { continue };
                if label[next] == usize::MAX {
                    label[next] = s;
                    stack.push(next);
                }
            }
        }
    }
    let mut dss = wcc(&graph);
    for a in 0..n {
        for b in 0..n {
            assert_eq!(dss.find(a) == dss.find(b), label[a] == label[b]);
        }
    }
}
