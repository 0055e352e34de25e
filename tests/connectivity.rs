use fighter_graph::connected::is_fully_connected;
use fighter_graph::graph::{Attributes, Graph, NodeData, NodeId};

fn graph_with(n: usize, edges: &[(usize, usize)]) -> (Graph, Vec<NodeId>) {
    let mut g = Graph::new();
    let ids: Vec<NodeId> = (0..n).map(|i| g.add_node(NodeData::new(&format!("n{}", i), Attributes::unknown()))).collect();
    for (a, b) in edges {
        g.add_edge(ids[*a], ids[*b], 1).unwrap();
    }
    (g, ids)
}

#[test]
fn empty_graph_is_connected() {
    assert!(is_fully_connected(&Graph::new()));
}

#[test]
fn chain_is_connected() {
    let (g, _) = graph_with(3, &[(0, 1), (1, 2)]);
    assert!(is_fully_connected(&g));
}

#[test]
fn isolated_node_disconnects() {
    let (g, _) = graph_with(3, &[(0, 1)]);
    assert!(!is_fully_connected(&g));
}

#[test]
fn two_triangles_are_not_connected() {
    let (g, _) = graph_with(6, &[(0, 1), (1, 2), (2, 0), (3, 4), (4, 5), (5, 3)]);
    assert!(!is_fully_connected(&g));
}

#[test]
fn bridged_triangles_are_connected() {
    let (g, _) = graph_with(6, &[(0, 1), (1, 2), (2, 0), (2, 3), (3, 4), (4, 5)]);
    assert!(is_fully_connected(&g));
}

#[test]
fn removing_a_cut_node_disconnects() {
    let (mut g, ids) = graph_with(3, &[(0, 1), (1, 2)]);
    g.remove_node(ids[0]);
    assert!(is_fully_connected(&g));
    let (mut h, ids) = graph_with(3, &[(0, 1), (1, 2)]);
    h.remove_node(ids[1]);
    assert!(!is_fully_connected(&h));
}
