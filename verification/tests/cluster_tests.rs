use tuan::cluster::Cluster;
use tuan::graph::{Edge, Graph, Node};

fn node(id: usize, path: &str) -> Node {
    Node {
        id,
        label: String::from(path),
        file_path: String::from(path),
        fingerprint: None,
    }
}

fn graph_with(n: usize, edges: &[(usize, usize)]) -> Graph {
    let mut g = Graph::new();
    let mut i = 0;
    while i < n {
        let name = format!("f{}.ts", i);
        g.add_node(node(i, &name));
        i += 1;
    }
    for &(a, b) in edges {
        g.add_edge(Edge::new(a, b));
    }
    g
}

fn members_of(cs: &[Cluster]) -> Vec<Vec<usize>> {
    cs.iter().map(|c| c.members.clone()).collect()
}

#[test]
fn two_mutual_pairs_give_two_clusters() {
    let g = graph_with(4, &[(0, 1), (1, 0), (2, 3), (3, 2)]);
    let cs = g.clusterize(10);
    assert_eq!(cs.len(), 2);
    assert_eq!(cs[0].id, 0);
    assert_eq!(cs[1].id, 1);
    let mut ms = members_of(&cs);
    ms.sort();
    assert_eq!(ms, vec![vec![0, 1], vec![2, 3]]);
}

#[test]
fn chain_of_three_joins_into_one_cluster() {
    let g = graph_with(3, &[(0, 1), (1, 2)]);
    let cs = g.clusterize(10);
    assert_eq!(cs.len(), 1);
    assert_eq!(cs[0].id, 0);
    assert_eq!(cs[0].members, vec![0, 1, 2]);
}

#[test]
fn edgeless_graph_gives_singletons() {
    let g = graph_with(4, &[]);
    let cs = g.clusterize(10);
    assert_eq!(cs.len(), 4);
    for (i, c) in cs.iter().enumerate() {
        assert_eq!(c.id, i);
        assert_eq!(c.members.len(), 1);
    }
    let mut all: Vec<usize> = cs.iter().flat_map(|c| c.members.clone()).collect();
    all.sort();
    assert_eq!(all, vec![0, 1, 2, 3]);
}

#[test]
fn empty_graph_gives_no_clusters() {
    let g = Graph::new();
    let cs = g.clusterize(10);
    assert_eq!(cs.len(), 0);
}

#[test]
fn one_clique_gives_one_cluster() {
    let mut edges = Vec::new();
    for a in 0..4 {
        for b in 0..4 {
            if a != b {
                edges.push((a, b));
            }
        }
    }
    let g = graph_with(4, &edges);
    let cs = g.clusterize(10);
    assert_eq!(cs.len(), 1);
    assert_eq!(cs[0].members, vec![0, 1, 2, 3]);
}

#[test]
fn two_cliques_with_bridge_give_two_clusters() {
    let mut edges = Vec::new();
    for a in 0..3 {
        for b in 0..3 {
            if a != b {
                edges.push((a, b));
                edges.push((a + 3, b + 3));
            }
        }
    }
    edges.push((2, 3));
    let g = graph_with(6, &edges);
    let cs = g.clusterize(10);
    assert_eq!(cs.len(), 2);
    let mut ms = members_of(&cs);
    ms.sort();
    assert_eq!(ms, vec![vec![0, 1, 2], vec![3, 4, 5]]);
}

#[test]
fn self_loops_change_nothing() {
    let base = graph_with(4, &[(0, 1), (1, 0), (2, 3), (3, 2)]);
    let mut with_loops = graph_with(4, &[(0, 1), (1, 0), (2, 3), (3, 2)]);
    with_loops.add_edge(Edge::new(0, 0));
    with_loops.add_edge(Edge::new(3, 3));
    let a = base.clusterize(10);
    let b = with_loops.clusterize(10);
    assert_eq!(members_of(&a), members_of(&b));
    let ids_a: Vec<usize> = a.iter().map(|c| c.id).collect();
    let ids_b: Vec<usize> = b.iter().map(|c| c.id).collect();
    assert_eq!(ids_a, ids_b);
}

#[test]
fn only_self_loops_give_singletons() {
    let g = graph_with(3, &[(0, 0), (1, 1)]);
    let cs = g.clusterize(10);
    assert_eq!(cs.len(), 3);
    for c in &cs {
        assert_eq!(c.members.len(), 1);
    }
}

#[test]
fn clusterize_is_repeatable() {
    let mut edges = Vec::new();
    for a in 0..3 {
        for b in 0..3 {
            if a != b {
                edges.push((a, b));
                edges.push((a + 3, b + 3));
            }
        }
    }
    edges.push((2, 3));
    edges.push((5, 0));
    let g = graph_with(6, &edges);
    let first = g.clusterize(10);
    let second = g.clusterize(10);
    assert_eq!(members_of(&first), members_of(&second));
    let ids_a: Vec<usize> = first.iter().map(|c| c.id).collect();
    let ids_b: Vec<usize> = second.iter().map(|c| c.id).collect();
    assert_eq!(ids_a, ids_b);
}

#[test]
fn members_partition_and_ascend() {
    let g = graph_with(5, &[(0, 1), (1, 2), (3, 4), (4, 3), (2, 0)]);
    let cs = g.clusterize(10);
    let mut seen: Vec<usize> = Vec::new();
    for (i, c) in cs.iter().enumerate() {
        assert_eq!(c.id, i);
        assert!(!c.members.is_empty());
        for w in c.members.windows(2) {
            assert!(w[0] < w[1]);
        }
        seen.extend(c.members.iter().copied());
    }
    seen.sort();
    assert_eq!(seen, vec![0, 1, 2, 3, 4]);
}

#[test]
fn edges_between_unregistered_ids_are_covered() {
    let mut g = Graph::new();
    g.add_edge(Edge::new(7, 9));
    g.add_edge(Edge::new(9, 7));
    let cs = g.clusterize(10);
    let mut all: Vec<usize> = cs.iter().flat_map(|c| c.members.clone()).collect();
    all.sort();
    assert_eq!(all, vec![7, 9]);
}

#[test]
fn max_iters_is_clamped() {
    let g = graph_with(3, &[(0, 1), (1, 2)]);
    let a = g.clusterize(0);
    let b = g.clusterize(100);
    assert_eq!(members_of(&a).len(), 1);
    assert_eq!(members_of(&b).len(), 1);
}
